//! Hashing of names and the partition of the 64-bit key space into buckets.

use std::collections::hash_map::DefaultHasher;
use std::collections::BTreeMap;
use std::hash::Hasher;
use vstd::prelude::*;
use vstd::std_specs::cmp::OrdSpec;
use vstd::std_specs::hash::DefaultHasherAdditionalSpecFns;
use vstd::std_specs::iter::IteratorSpec;

verus! {

/// The writes by which a string enters a digest: its UTF-8 bytes, then the
/// byte `0xff`, which no UTF-8 text holds.
pub open spec fn str_writes(s: Seq<char>) -> Seq<Seq<u8>> {
    seq![vstd::utf8::encode_utf8(s), seq![0xffu8]]
}

/// The hash of a name: the digest of a fresh hasher fed `str_writes`.
pub open spec fn spec_hash_string(s: Seq<char>) -> u64 {
    DefaultHasher::spec_finish(str_writes(s))
}

/// Feeds a string to the hasher.
pub fn feed_str(hasher: &mut DefaultHasher, text: &str)
    ensures
        final(hasher)@ == old(hasher)@ + str_writes(text@),
{
    hasher.write(text.as_bytes());
    let end: [u8; 1] = [0xff];
    hasher.write(end.as_slice());
    proof {
        assert(end@ =~= seq![0xffu8]);
        assert(hasher@ =~= old(hasher)@ + str_writes(text@));
    }
}

/// Hashes a name with the default hasher in its initial state.
pub fn hash_string(value: &str) -> (hash: u64)
    ensures
        hash == spec_hash_string(value@),
{
    let mut hasher = DefaultHasher::new();
    feed_str(&mut hasher, value);
    assert(hasher@ =~= str_writes(value@));
    hasher.finish()
}

/// `bucket` is the key of the bucket that holds `key`: the greatest member of
/// `keys` that is not above `key`, and 0 where no member is that small.
pub open spec fn is_bucket_key(keys: Set<u64>, key: u64, bucket: u64) -> bool {
    if exists|k: u64| keys.contains(k) && k <= key {
        &&& keys.contains(bucket)
        &&& bucket <= key
        &&& forall|k: u64| keys.contains(k) && k <= key ==> k <= bucket
    } else {
        bucket == 0
    }
}

/// Finds the bucket of `key` among the buckets that `map` is keyed by, each
/// key being the lower end of its bucket's range.
pub fn get_bucket_key(map: &BTreeMap<u64, DefaultHasher>, key: u64) -> (bucket: Option<u64>)
    ensures
        bucket matches Some(b) && is_bucket_key(map@.dom(), key, b),
{
    broadcast use vstd::std_specs::btree::group_btree_axioms;

    let mut bucket_key: u64 = 0;
    let ghost keys = map.keys().remaining();
    let ghost mut taken: int = 0;
    for map_key in it: map.keys()
        invariant_except_break
            taken == it.index(),
        invariant
            it.seq() == keys,
            0 <= taken <= keys.len(),
            taken == 0 ==> bucket_key == 0,
            taken > 0 ==> bucket_key == *keys[taken - 1],
            forall|i: int| 0 <= i < taken ==> *#[trigger] keys[i] <= key,
        ensures
            taken == keys.len() || *keys[taken] > key,
    {
        if *map_key > key {
            break;
        }
        bucket_key = *map_key;
        proof {
            taken = taken + 1;
        }
    }
    proof {
        let dom = map@.dom();
        vstd::std_specs::btree::axiom_spec_keys_iter(map);
        vstd::std_specs::btree::axiom_increasing_seq_meaning::<&u64>(keys);
        assert forall|i: int, j: int| 0 <= i < j < keys.len() implies *keys[i] < *keys[j] by {
            assert(OrdSpec::cmp_spec(&keys[i], &keys[j]) is Less);
        }
        assert forall|k: u64| dom.contains(k) && k <= key implies exists|i: int|
            0 <= i < taken && *keys[i] == k by {
            assert(keys.unref().contains(k));
            let i = choose|i: int| 0 <= i < keys.len() && keys.unref()[i] == k;
            assert(*keys[i] == k);
            if i >= taken {
                assert(*keys[taken] > key);
            }
        }
        if taken > 0 {
            assert(keys.unref()[taken - 1] == bucket_key);
            assert(keys.unref().contains(bucket_key));
            assert(dom.contains(bucket_key));
            assert forall|k: u64| dom.contains(k) && k <= key implies k <= bucket_key by {
                let i = choose|i: int| 0 <= i < taken && *keys[i] == k;
            }
        }
    }
    Some(bucket_key)
}

} // verus!
