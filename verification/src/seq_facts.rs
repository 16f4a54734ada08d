//! Facts about filtered sequences that the queue and index proofs share.

use vstd::prelude::*;

verus! {

/// A filter keeps a sequence whose members all pass.
pub proof fn lemma_filter_keeps_all<T>(s: Seq<T>, p: spec_fn(T) -> bool)
    requires
        forall|i: int| 0 <= i < s.len() ==> p(#[trigger] s[i]),
    ensures
        s.filter(p) == s,
    decreases s.len(),
{
    reveal(Seq::filter);
    if s.len() > 0 {
        lemma_filter_keeps_all(s.drop_last(), p);
        assert(s.drop_last().push(s.last()) =~= s);
    }
}

/// A filter empties a sequence none of whose members passes.
pub proof fn lemma_filter_drops_all<T>(s: Seq<T>, p: spec_fn(T) -> bool)
    requires
        forall|i: int| 0 <= i < s.len() ==> !p(#[trigger] s[i]),
    ensures
        s.filter(p) == Seq::<T>::empty(),
    decreases s.len(),
{
    reveal(Seq::filter);
    if s.len() > 0 {
        lemma_filter_drops_all(s.drop_last(), p);
    } else {
        assert(s =~= Seq::<T>::empty());
    }
}

/// Where exactly the first `n` members pass, the filter is the prefix of
/// length `n`.
pub proof fn lemma_filter_prefix<T>(s: Seq<T>, p: spec_fn(T) -> bool, n: int)
    requires
        0 <= n <= s.len(),
        forall|i: int| 0 <= i < n ==> p(#[trigger] s[i]),
        forall|i: int| n <= i < s.len() ==> !p(#[trigger] s[i]),
    ensures
        s.filter(p) == s.take(n),
{
    assert(s =~= s.take(n) + s.skip(n));
    Seq::filter_distributes_over_add(s.take(n), s.skip(n), p);
    lemma_filter_keeps_all(s.take(n), p);
    lemma_filter_drops_all(s.skip(n), p);
    assert(s.take(n) + Seq::<T>::empty() =~= s.take(n));
}

/// Where exactly the members from `n` on pass, the filter is the suffix that
/// starts at `n`.
pub proof fn lemma_filter_suffix<T>(s: Seq<T>, p: spec_fn(T) -> bool, n: int)
    requires
        0 <= n <= s.len(),
        forall|i: int| 0 <= i < n ==> !p(#[trigger] s[i]),
        forall|i: int| n <= i < s.len() ==> p(#[trigger] s[i]),
    ensures
        s.filter(p) == s.skip(n),
{
    assert(s =~= s.take(n) + s.skip(n));
    Seq::filter_distributes_over_add(s.take(n), s.skip(n), p);
    lemma_filter_drops_all(s.take(n), p);
    lemma_filter_keeps_all(s.skip(n), p);
    assert(Seq::<T>::empty() + s.skip(n) =~= s.skip(n));
}

/// `ix` says where in `whole` each member of `part` stands: at rising
/// places.
pub open spec fn picks<T>(whole: Seq<T>, part: Seq<T>, ix: Seq<int>) -> bool {
    &&& ix.len() == part.len()
    &&& forall|i: int| 0 <= i < ix.len() ==> 0 <= #[trigger] ix[i] < whole.len() && part[i] == whole[ix[i]]
    &&& forall|i: int, j: int| 0 <= i < j < ix.len() ==> ix[i] < ix[j]
}

/// What a filter keeps stands in the sequence at rising places.
pub proof fn lemma_filter_is_subsequence<T>(s: Seq<T>, p: spec_fn(T) -> bool)
    ensures
        exists|ix: Seq<int>| picks(s, s.filter(p), ix),
    decreases s.len(),
{
    reveal(Seq::filter);
    if s.len() == 0 {
        assert(picks(s, s.filter(p), Seq::<int>::empty()));
    } else {
        let front = s.drop_last();
        lemma_filter_is_subsequence(front, p);
        let ix = choose|ix: Seq<int>| picks(front, front.filter(p), ix);
        if p(s.last()) {
            let more = ix.push(s.len() - 1);
            assert(picks(s, s.filter(p), more));
        } else {
            assert(picks(s, s.filter(p), ix));
        }
    }
}

} // verus!
