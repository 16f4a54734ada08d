//! The content hash of a bucket: one digest over its operations, in the order
//! in which the coordinator delivered them.

use crate::hashing::{feed_str, str_writes};
use crate::operation::{operation_views, texts, Operation, OperationView};
use std::collections::hash_map::DefaultHasher;
use std::hash::Hasher;
use vstd::bytes::{spec_u32_to_le_bytes, spec_u64_to_le_bytes, u32_to_le_bytes, u64_to_le_bytes};
use vstd::prelude::*;
use vstd::std_specs::hash::DefaultHasherAdditionalSpecFns;

verus! {

/// The writes that a list of tags makes: those of each tag, in order.
pub open spec fn tag_writes(tags: Seq<Seq<char>>) -> Seq<Seq<u8>>
    decreases tags.len(),
{
    if tags.len() == 0 {
        Seq::empty()
    } else {
        tag_writes(tags.drop_last()) + str_writes(tags.last())
    }
}

/// The writes by which one operation enters a digest: the script's name, the
/// domain, the interval as four bytes, then the tags. Numbers are written
/// with the least significant byte first. A missing tag list is the number 0
/// in eight bytes; a tag list is the number 1 and the list's length, in eight
/// bytes each, and then its tags.
pub open spec fn operation_writes(operation: OperationView) -> Seq<Seq<u8>> {
    str_writes(operation.script_name) + str_writes(operation.domain) + seq![
        spec_u32_to_le_bytes(operation.interval),
    ] + match operation.tags {
        None => seq![spec_u64_to_le_bytes(0)],
        Some(tags) => seq![spec_u64_to_le_bytes(1), spec_u64_to_le_bytes(tags.len() as u64)]
            + tag_writes(tags),
    }
}

/// The writes that a list of operations makes: those of each, in order.
pub open spec fn operations_writes(operations: Seq<OperationView>) -> Seq<Seq<u8>>
    decreases operations.len(),
{
    if operations.len() == 0 {
        Seq::empty()
    } else {
        operations_writes(operations.drop_last()) + operation_writes(operations.last())
    }
}

/// The content hash of a bucket that holds `operations` in this order: what
/// a fresh hasher gives after their writes.
pub open spec fn spec_bucket_digest(operations: Seq<OperationView>) -> u64 {
    DefaultHasher::spec_finish(operations_writes(operations))
}

/// Feeds a number to the hasher, in eight bytes.
fn feed_u64(hasher: &mut DefaultHasher, number: u64)
    ensures
        final(hasher)@ == old(hasher)@ + seq![spec_u64_to_le_bytes(number)],
{
    let bytes = u64_to_le_bytes(number);
    hasher.write(bytes.as_slice());
    assert(hasher@ =~= old(hasher)@ + seq![spec_u64_to_le_bytes(number)]);
}

/// Feeds one operation to the hasher.
pub fn feed_operation(hasher: &mut DefaultHasher, operation: &Operation)
    ensures
        final(hasher)@ == old(hasher)@ + operation_writes(operation@),
{
    feed_str(hasher, operation.script_name.as_str());
    feed_str(hasher, operation.domain.as_str());
    let interval = u32_to_le_bytes(operation.interval);
    hasher.write(interval.as_slice());
    let ghost head = old(hasher)@ + str_writes(operation.script_name@) + str_writes(
        operation.domain@,
    ) + seq![spec_u32_to_le_bytes(operation.interval)];
    assert(hasher@ =~= head);
    match &operation.tags {
        None => {
            feed_u64(hasher, 0);
            assert(hasher@ =~= old(hasher)@ + operation_writes(operation@));
        },
        Some(tags) => {
            feed_u64(hasher, 1);
            feed_u64(hasher, tags.len() as u64);
            let ghost list = head + seq![
                spec_u64_to_le_bytes(1),
                spec_u64_to_le_bytes(tags.len() as u64),
            ];
            assert(hasher@ =~= list);
            let mut i: usize = 0;
            while i < tags.len()
                invariant
                    i <= tags.len(),
                    hasher@ == list + tag_writes(texts(tags@).take(i as int)),
                decreases tags.len() - i,
            {
                feed_str(hasher, tags[i].as_str());
                proof {
                    let done = texts(tags@).take(i as int);
                    let more = texts(tags@).take(i + 1);
                    assert(more.drop_last() =~= done);
                    assert(more.last() == tags[i as int]@);
                    assert(hasher@ =~= list + tag_writes(more));
                }
                i += 1;
            }
            proof {
                assert(texts(tags@).take(tags.len() as int) =~= texts(tags@));
                assert(texts(tags@).len() == tags.len());
                assert(hasher@ =~= old(hasher)@ + operation_writes(operation@));
            }
        },
    }
}

/// The content hash of a bucket that holds `operations` in this order.
pub fn bucket_digest(operations: &Vec<Operation>) -> (digest: u64)
    ensures
        digest == spec_bucket_digest(operation_views(operations@)),
{
    let mut hasher = DefaultHasher::new();
    let mut i: usize = 0;
    while i < operations.len()
        invariant
            i <= operations.len(),
            hasher@ == operations_writes(operation_views(operations@).take(i as int)),
        decreases operations.len() - i,
    {
        feed_operation(&mut hasher, &operations[i]);
        proof {
            let done = operation_views(operations@).take(i as int);
            let more = operation_views(operations@).take(i + 1);
            assert(more.drop_last() =~= done);
            assert(more.last() == operations[i as int]@);
        }
        i += 1;
    }
    proof {
        assert(operation_views(operations@).take(operations.len() as int) =~= operation_views(
            operations@,
        ));
    }
    hasher.finish()
}

} // verus!
