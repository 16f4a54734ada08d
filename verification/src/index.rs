//! The job index: the buckets of the key space, each with the queue of its
//! handles and the content hash of the operations it was last given.

use crate::digest::{bucket_digest, spec_bucket_digest};
use crate::hashing::is_bucket_key;
use crate::operation::{operation_views, texts, Operation, OperationView};
use crate::schedule::{
    after, first_deadline, job_views, lemma_first_deadline, lemma_with_job_ordered, not_after,
    ordered, ticked, with_job, JobQueue, OperationJob, OperationJobView, LATEST_NOW,
};
use crate::seq_facts::{lemma_filter_is_subsequence, lemma_filter_prefix, lemma_filter_suffix, picks};
use vstd::prelude::*;

verus! {

/// The width of a bucket where the key space is cut into `count` buckets.
pub open spec fn bucket_width(count: int) -> int
    recommends
        count > 0,
{
    (u64::MAX as int) / count
}

/// The key of bucket number `i` of `count`: the lower end of its range.
pub open spec fn bucket_start(i: int, count: int) -> int {
    i * bucket_width(count)
}

/// One bucket: the lower end of its range of keys, the content hash of its
/// operations, and the queue of its handles.
pub struct Bucket {
    key: u64,
    hash: u64,
    queue: JobQueue,
}

/// The mathematical value of a bucket.
pub struct BucketView {
    pub key: u64,
    pub hash: u64,
    pub queue: Seq<OperationJobView>,
}

impl View for Bucket {
    type V = BucketView;

    closed spec fn view(&self) -> BucketView {
        BucketView { key: self.key, hash: self.hash, queue: self.queue@ }
    }
}

/// The buckets of a fresh index of `count` buckets: bucket `i` starts at
/// `i` widths, has the hash 0 and holds nothing.
pub open spec fn fresh_buckets(count: int) -> Seq<BucketView>
    recommends
        count > 0,
{
    Seq::new(
        count as nat,
        |i: int|
            BucketView {
                key: bucket_start(i, count) as u64,
                hash: 0,
                queue: Seq::empty(),
            },
    )
}

/// The test "starts below `key`", as a predicate on buckets.
pub open spec fn key_below(key: u64) -> spec_fn(BucketView) -> bool {
    |bucket: BucketView| bucket.key < key
}

/// The test "starts above `key`", as a predicate on buckets.
pub open spec fn key_above(key: u64) -> spec_fn(BucketView) -> bool {
    |bucket: BucketView| bucket.key > key
}

/// The buckets with `bucket` put in: in the place of the bucket that had its
/// key, or, where none had, between the buckets below and above it.
#[verifier::opaque]
pub open spec fn put_bucket(buckets: Seq<BucketView>, bucket: BucketView) -> Seq<BucketView> {
    buckets.filter(key_below(bucket.key)).push(bucket) + buckets.filter(key_above(bucket.key))
}

/// The buckets stand in the order of their keys, no key twice, and each
/// queue in the order of its deadlines.
pub open spec fn buckets_wf(buckets: Seq<BucketView>) -> bool {
    &&& forall|i: int, j: int| 0 <= i < j < buckets.len() ==> buckets[i].key < buckets[j].key
    &&& forall|i: int| 0 <= i < buckets.len() ==> ordered(#[trigger] buckets[i].queue)
}

/// The content hash of the bucket with the key `key`, if there is one.
pub open spec fn hash_of(buckets: Seq<BucketView>, key: u64) -> Option<u64> {
    if exists|i: int| 0 <= i < buckets.len() && buckets[i].key == key {
        Some(buckets[choose|i: int| 0 <= i < buckets.len() && buckets[i].key == key].hash)
    } else {
        None
    }
}

/// The queue of the bucket with the key `key`, if there is one.
pub open spec fn queue_of(buckets: Seq<BucketView>, key: u64) -> Option<Seq<OperationJobView>> {
    if exists|i: int| 0 <= i < buckets.len() && buckets[i].key == key {
        Some(buckets[choose|i: int| 0 <= i < buckets.len() && buckets[i].key == key].queue)
    } else {
        None
    }
}

/// The handle with which `operation` enters a queue at `now`.
pub open spec fn first_handle(operation: OperationView, now: u64) -> OperationJobView {
    OperationJobView {
        next_deadline: first_deadline(now as int, operation.interval as int) as u64,
        operation,
    }
}

/// The queue that a bucket gets from `operations` at `now`: the handles of
/// those that pass the tag filter, each added in turn.
pub open spec fn queued(
    operations: Seq<OperationView>,
    include_tags: Set<Seq<char>>,
    exclude_tags: Set<Seq<char>>,
    now: u64,
) -> Seq<OperationJobView>
    decreases operations.len(),
{
    if operations.len() == 0 {
        Seq::empty()
    } else {
        let rest = queued(operations.drop_last(), include_tags, exclude_tags, now);
        if operations.last().eligible(include_tags, exclude_tags) {
            with_job(rest, first_handle(operations.last(), now))
        } else {
            rest
        }
    }
}

/// A queue made from operations is ordered.
pub proof fn lemma_queued_ordered(
    operations: Seq<OperationView>,
    include_tags: Set<Seq<char>>,
    exclude_tags: Set<Seq<char>>,
    now: u64,
)
    ensures
        ordered(queued(operations, include_tags, exclude_tags, now)),
        queued(operations, include_tags, exclude_tags, now).len() <= operations.len(),
    decreases operations.len(),
{
    if operations.len() > 0 {
        lemma_queued_ordered(operations.drop_last(), include_tags, exclude_tags, now);
        lemma_with_job_ordered(
            queued(operations.drop_last(), include_tags, exclude_tags, now),
            first_handle(operations.last(), now),
        );
    }
}

/// Makes the queue of a bucket from the operations that the coordinator
/// delivered for it.
pub fn build_queue(
    operations: &Vec<Operation>,
    include_tags: &Vec<String>,
    exclude_tags: &Vec<String>,
    now: u64,
) -> (queue: JobQueue)
    requires
        forall|i: int| 0 <= i < operations.len() ==> (#[trigger] operations[i]).interval > 0,
        now <= LATEST_NOW,
    ensures
        queue.wf(),
        queue@ == queued(
            operation_views(operations@),
            texts(include_tags@).to_set(),
            texts(exclude_tags@).to_set(),
            now,
        ),
{
    let mut queue = JobQueue::new();
    let ghost included = texts(include_tags@).to_set();
    let ghost excluded = texts(exclude_tags@).to_set();
    let mut i: usize = 0;
    while i < operations.len()
        invariant
            i <= operations.len(),
            queue.wf(),
            included == texts(include_tags@).to_set(),
            excluded == texts(exclude_tags@).to_set(),
            forall|k: int| 0 <= k < operations.len() ==> (#[trigger] operations[k]).interval > 0,
            now <= LATEST_NOW,
            queue@ == queued(operation_views(operations@).take(i as int), included, excluded, now),
        decreases operations.len() - i,
    {
        let operation = &operations[i];
        proof {
            let done = operation_views(operations@).take(i as int);
            let more = operation_views(operations@).take(i + 1);
            assert(more.drop_last() =~= done);
            assert(more.last() == operation@);
            lemma_first_deadline(now as int, operation.interval as int);
        }
        if operation.is_eligible(include_tags, exclude_tags) {
            let copy = operation.duplicate();
            queue.push(OperationJob::scheduled(copy, now));
        }
        i += 1;
    }
    proof {
        assert(operation_views(operations@).take(operations.len() as int) =~= operation_views(
            operations@,
        ));
    }
    queue
}

/// The bucket without the handles that are due at `now`.
pub open spec fn without_due(bucket: BucketView, now: u64) -> BucketView {
    BucketView { queue: after(bucket.queue, now), ..bucket }
}

/// The bucket after the pass of the scheduler at `now`.
pub open spec fn ticked_bucket(bucket: BucketView, now: u64) -> BucketView {
    BucketView { queue: ticked(bucket.queue, now), ..bucket }
}

/// The bucket after `job` went back into its queue, one interval later.
pub open spec fn with_return(bucket: BucketView, job: OperationJobView) -> BucketView {
    BucketView { queue: with_job(bucket.queue, job.advanced()), ..bucket }
}

/// The handles of all buckets that are due at `now`: bucket by bucket in the
/// order of the keys, and in each bucket earliest first.
pub open spec fn due_handles(buckets: Seq<BucketView>, now: u64) -> Seq<OperationJobView>
    decreases buckets.len(),
{
    if buckets.len() == 0 {
        Seq::empty()
    } else {
        due_handles(buckets.drop_last(), now) + not_after(buckets.last().queue, now)
    }
}

/// The handles of all buckets that are due at `now`, each with the key of
/// its bucket, in the order of `due_handles`.
pub open spec fn due_pairs(buckets: Seq<BucketView>, now: u64) -> Seq<(u64, OperationJobView)>
    decreases buckets.len(),
{
    if buckets.len() == 0 {
        Seq::empty()
    } else {
        due_pairs(buckets.drop_last(), now) + Seq::new(
            not_after(buckets.last().queue, now).len(),
            |i: int| (buckets.last().key, not_after(buckets.last().queue, now)[i]),
        )
    }
}

/// The views of handles that come with the keys of their buckets.
pub open spec fn pair_views(pairs: Seq<(u64, OperationJob)>) -> Seq<(u64, OperationJobView)> {
    Seq::new(pairs.len(), |i: int| (pairs[i].0, pairs[i].1@))
}

/// There is a bucket with the key `key`.
pub open spec fn has_bucket(buckets: Seq<BucketView>, key: u64) -> bool {
    exists|i: int| 0 <= i < buckets.len() && buckets[i].key == key
}

/// What the coordinator delivers for one bucket: the bucket's key and all
/// of its operations.
pub struct BucketUpdate {
    pub bucket: u64,
    pub operations: Vec<Operation>,
}

/// The bucket that an index holds after it was given `operations` for the
/// key `key` at `now`.
pub open spec fn renewed_bucket(
    key: u64,
    operations: Seq<OperationView>,
    include_tags: Set<Seq<char>>,
    exclude_tags: Set<Seq<char>>,
    now: u64,
) -> BucketView {
    BucketView {
        key,
        hash: spec_bucket_digest(operations),
        queue: queued(operations, include_tags, exclude_tags, now),
    }
}

/// The buckets after each of `updates` was taken in, in turn.
pub open spec fn renewed(
    buckets: Seq<BucketView>,
    updates: Seq<BucketUpdate>,
    include_tags: Set<Seq<char>>,
    exclude_tags: Set<Seq<char>>,
    now: u64,
) -> Seq<BucketView>
    decreases updates.len(),
{
    if updates.len() == 0 {
        buckets
    } else {
        put_bucket(
            renewed(buckets, updates.drop_last(), include_tags, exclude_tags, now),
            renewed_bucket(
                updates.last().bucket,
                operation_views(updates.last().operations@),
                include_tags,
                exclude_tags,
                now,
            ),
        )
    }
}

/// Every operation of `updates` has an interval of a second or more, as a
/// handle needs it.
pub open spec fn all_recurring(updates: Seq<BucketUpdate>) -> bool {
    forall|i: int, j: int|
        0 <= i < updates.len() && 0 <= j < updates[i].operations.len() ==> (
        #[trigger] updates[i].operations[j]).interval > 0
}

/// Whether every operation of `updates` has an interval of a second or more.
pub fn recurring(updates: &Vec<BucketUpdate>) -> (ok: bool)
    ensures
        ok == all_recurring(updates@),
{
    let mut i: usize = 0;
    while i < updates.len()
        invariant
            i <= updates.len(),
            forall|a: int, b: int|
                0 <= a < i && 0 <= b < updates[a].operations.len() ==> (
                #[trigger] updates[a].operations[b]).interval > 0,
        decreases updates.len() - i,
    {
        let operations = &updates[i].operations;
        let mut j: usize = 0;
        while j < operations.len()
            invariant
                i < updates.len(),
                operations == &updates[i as int].operations,
                j <= operations.len(),
                forall|b: int| 0 <= b < j ==> (#[trigger] updates[i as int].operations[b]).interval > 0,
            decreases operations.len() - j,
        {
            if operations[j].interval == 0 {
                assert(updates[i as int].operations[j as int].interval == 0);
                return false;
            }
            j += 1;
        }
        i += 1;
    }
    true
}

/// The job index.
pub struct JobIndex {
    buckets: Vec<Bucket>,
}

impl View for JobIndex {
    type V = Seq<BucketView>;

    closed spec fn view(&self) -> Seq<BucketView> {
        Seq::new(self.buckets@.len(), |i: int| self.buckets@[i]@)
    }
}

impl JobIndex {
    /// The index's invariant.
    pub open spec fn wf(&self) -> bool {
        buckets_wf(self@)
    }

    /// An index of `bucket_count` buckets of equal width, all empty and with
    /// the hash 0.
    pub fn new(bucket_count: u64) -> (index: JobIndex)
        requires
            bucket_count > 0,
        ensures
            index.wf(),
            index@ == fresh_buckets(bucket_count as int),
    {
        let width = u64::MAX / bucket_count;
        let mut buckets: Vec<Bucket> = Vec::new();
        let mut key: u64 = 0;
        let mut i: u64 = 0;
        proof {
            vstd::arithmetic::div_mod::lemma_fundamental_div_mod(
                u64::MAX as int,
                bucket_count as int,
            );
            vstd::arithmetic::div_mod::lemma_mod_bound(u64::MAX as int, bucket_count as int);
            assert(width * bucket_count <= u64::MAX) by (nonlinear_arith)
                requires
                    u64::MAX == bucket_count * (u64::MAX as int / bucket_count as int) + (
                    u64::MAX as int % bucket_count as int),
                    0 <= u64::MAX as int % bucket_count as int,
                    width == u64::MAX as int / bucket_count as int,
            ;
            assert(width >= 1) by (nonlinear_arith)
                requires
                    width == u64::MAX as int / bucket_count as int,
                    0 < bucket_count <= u64::MAX,
            ;
        }
        while i < bucket_count
            invariant
                i <= bucket_count,
                width == bucket_width(bucket_count as int),
                width >= 1,
                width * bucket_count <= u64::MAX,
                key == i * width,
                buckets.len() == i,
                forall|k: int|
                    0 <= k < i ==> (#[trigger] buckets[k])@ == fresh_buckets(
                        bucket_count as int,
                    )[k],
            decreases bucket_count - i,
        {
            buckets.push(Bucket { key, hash: 0, queue: JobQueue::new() });
            proof {
                assert((i + 1) * width == i * width + width) by (nonlinear_arith);
                assert((i + 1) * width <= width * bucket_count) by (nonlinear_arith)
                    requires
                        i + 1 <= bucket_count,
                        width >= 0,
                ;
            }
            key = key + width;
            i = i + 1;
        }
        let index = JobIndex { buckets };
        proof {
            assert(index@ =~= fresh_buckets(bucket_count as int));
            assert forall|a: int, b: int| 0 <= a < b < index@.len() implies index@[a].key
                < index@[b].key by {
                assert(a * width < b * width) by (nonlinear_arith)
                    requires
                        0 <= a < b,
                        width >= 1,
                ;
                assert(b * width <= width * bucket_count) by (nonlinear_arith)
                    requires
                        b <= bucket_count,
                        width >= 0,
                ;
            }
        }
        index
    }

    /// The number of buckets.
    pub fn bucket_count(&self) -> (count: usize)
        ensures
            count == self@.len(),
    {
        self.buckets.len()
    }

    /// The key and content hash of every bucket, in the order of the keys.
    pub fn snapshot_hashes(&self) -> (hashes: Vec<(u64, u64)>)
        ensures
            hashes@ == self@.map_values(|bucket: BucketView| (bucket.key, bucket.hash)),
    {
        let mut hashes: Vec<(u64, u64)> = Vec::new();
        let mut i: usize = 0;
        while i < self.buckets.len()
            invariant
                i <= self.buckets.len(),
                hashes.len() == i,
                forall|k: int|
                    0 <= k < i ==> hashes[k] == (
                        (#[trigger] self@[k]).key,
                        self@[k].hash,
                    ),
            decreases self.buckets.len() - i,
        {
            hashes.push((self.buckets[i].key, self.buckets[i].hash));
            i += 1;
        }
        assert(hashes@ =~= self@.map_values(|bucket: BucketView| (bucket.key, bucket.hash)));
        hashes
    }

    /// Gives the bucket with the key `bucket` the operations that the
    /// coordinator delivered for it: its queue is made anew from those that
    /// pass the tag filter, and its content hash is the digest of them all.
    /// A bucket that the index did not have is added. Returns the number of
    /// handles in the new queue.
    pub fn replace_bucket(
        &mut self,
        bucket: u64,
        operations: &Vec<Operation>,
        include_tags: &Vec<String>,
        exclude_tags: &Vec<String>,
        now: u64,
    ) -> (added: usize)
        requires
            old(self).wf(),
            forall|i: int| 0 <= i < operations.len() ==> (#[trigger] operations[i]).interval > 0,
            now <= LATEST_NOW,
        ensures
            final(self).wf(),
            final(self)@ == put_bucket(
                old(self)@,
                renewed_bucket(
                    bucket,
                    operation_views(operations@),
                    texts(include_tags@).to_set(),
                    texts(exclude_tags@).to_set(),
                    now,
                ),
            ),
            added == queued(
                operation_views(operations@),
                texts(include_tags@).to_set(),
                texts(exclude_tags@).to_set(),
                now,
            ).len(),
    {
        let hash = bucket_digest(operations);
        let queue = build_queue(operations, include_tags, exclude_tags, now);
        let added = queue.len();
        let fresh = Bucket { key: bucket, hash, queue };
        let mut at: usize = 0;
        while at < self.buckets.len() && self.buckets[at].key < bucket
            invariant
                at <= self.buckets.len(),
                forall|i: int| 0 <= i < at ==> (#[trigger] self@[i]).key < bucket,
            decreases self.buckets.len() - at,
        {
            at += 1;
        }
        let found = at < self.buckets.len() && self.buckets[at].key == bucket;
        proof {
            let buckets = self@;
            let skipped = if found {
                at + 1
            } else {
                at as int
            };
            assert forall|i: int| skipped <= i < buckets.len() implies (#[trigger] buckets[i]).key
                > bucket by {
                if i > at {
                    assert(buckets[at as int].key < buckets[i].key);
                }
            }
            reveal(put_bucket);
            lemma_filter_prefix(buckets, key_below(bucket), at as int);
            lemma_filter_suffix(buckets, key_above(bucket), skipped);
            lemma_put_bucket_wf(buckets, fresh@);
        }
        if found {
            self.buckets.set(at, fresh);
            assert(self@ =~= put_bucket(old(self)@, fresh@));
        } else {
            self.buckets.insert(at, fresh);
            assert(self@ =~= put_bucket(old(self)@, fresh@));
        }
        added
    }

    /// Takes in what the coordinator delivered: each bucket of `updates` is
    /// replaced in turn, as by `replace_bucket`.
    pub fn replace_buckets(
        &mut self,
        updates: &Vec<BucketUpdate>,
        include_tags: &Vec<String>,
        exclude_tags: &Vec<String>,
        now: u64,
    )
        requires
            old(self).wf(),
            all_recurring(updates@),
            now <= LATEST_NOW,
        ensures
            final(self).wf(),
            final(self)@ == renewed(
                old(self)@,
                updates@,
                texts(include_tags@).to_set(),
                texts(exclude_tags@).to_set(),
                now,
            ),
    {
        let ghost included = texts(include_tags@).to_set();
        let ghost excluded = texts(exclude_tags@).to_set();
        let mut i: usize = 0;
        while i < updates.len()
            invariant
                i <= updates.len(),
                self.wf(),
                included == texts(include_tags@).to_set(),
                excluded == texts(exclude_tags@).to_set(),
                all_recurring(updates@),
                now <= LATEST_NOW,
                self@ == renewed(old(self)@, updates@.take(i as int), included, excluded, now),
            decreases updates.len() - i,
        {
            let update = &updates[i];
            proof {
                assert(updates@.take(i + 1).drop_last() =~= updates@.take(i as int));
                assert(updates@.take(i + 1).last() == updates@[i as int]);
                assert forall|k: int| 0 <= k < update.operations.len() implies (
                #[trigger] update.operations[k]).interval > 0 by {
                    assert(updates[i as int].operations[k].interval > 0);
                }
            }
            self.replace_bucket(update.bucket, &update.operations, include_tags, exclude_tags, now);
            i += 1;
        }
        proof {
            assert(updates@.take(updates.len() as int) =~= updates@);
        }
    }

    /// The content hash of the bucket with the key `bucket`, if there is
    /// one.
    pub fn hash(&self, bucket: u64) -> (hash: Option<u64>)
        requires
            self.wf(),
        ensures
            hash == hash_of(self@, bucket),
    {
        match self.position(bucket) {
            Some(at) => Some(self.buckets[at].hash),
            None => None,
        }
    }

    /// Copies of the handles of the bucket with the key `bucket`, earliest
    /// first, if there is such a bucket.
    pub fn queue(&self, bucket: u64) -> (queue: Option<Vec<OperationJob>>)
        requires
            self.wf(),
        ensures
            match queue {
                Some(handles) => queue_of(self@, bucket) == Some(job_views(handles@)),
                None => queue_of(self@, bucket) is None,
            },
    {
        match self.position(bucket) {
            Some(at) => Some(self.buckets[at].queue.handles()),
            None => None,
        }
    }

    /// Where the bucket with the key `bucket` stands, if there is one.
    fn position(&self, bucket: u64) -> (at: Option<usize>)
        requires
            self.wf(),
        ensures
            match at {
                Some(at) => at < self@.len() && self@[at as int].key == bucket && hash_of(
                    self@,
                    bucket,
                ) == Some(self@[at as int].hash) && queue_of(self@, bucket) == Some(
                    self@[at as int].queue,
                ),
                None => !has_bucket(self@, bucket) && hash_of(self@, bucket) is None && queue_of(
                    self@,
                    bucket,
                ) is None,
            },
    {
        let mut at: usize = 0;
        while at < self.buckets.len() && self.buckets[at].key != bucket
            invariant
                at <= self.buckets.len(),
                forall|i: int| 0 <= i < at ==> (#[trigger] self@[i]).key != bucket,
            decreases self.buckets.len() - at,
        {
            at += 1;
        }
        if at < self.buckets.len() {
            proof {
                lemma_same_key_same_bucket(self@);
                assert(self@[at as int].key == bucket);
            }
            Some(at)
        } else {
            None
        }
    }

    /// Takes every handle that is due at `now` out of its queue. Returns the
    /// handles, each with the key of its bucket: bucket by bucket in the
    /// order of the keys, and in each bucket earliest first.
    pub fn due(&mut self, now: u64) -> (due: Vec<(u64, OperationJob)>)
        requires
            old(self).wf(),
        ensures
            final(self).wf(),
            final(self)@ == Seq::new(old(self)@.len(), |i: int| without_due(old(self)@[i], now)),
            pair_views(due@) == due_pairs(old(self)@, now),
    {
        let mut due: Vec<(u64, OperationJob)> = Vec::new();
        let mut i: usize = 0;
        while i < self.buckets.len()
            invariant
                i <= self.buckets.len(),
                self@.len() == old(self)@.len(),
                self.wf(),
                forall|k: int| 0 <= k < i ==> #[trigger] self@[k] == without_due(old(self)@[k], now),
                forall|k: int| i <= k < self@.len() ==> #[trigger] self@[k] == old(self)@[k],
                pair_views(due@) == due_pairs(old(self)@.take(i as int), now),
            decreases self.buckets.len() - i,
        {
            let key = self.buckets[i].key;
            let ghost before = self@;
            let ghost so_far = pair_views(due@);
            proof {
                assert(ordered(before[i as int].queue));
            }
            let taken = self.buckets[i].queue.take_due(now);
            let ghost handles = job_views(taken@);
            let ghost items = taken@;
            proof {
                assert(before[i as int].key == key);
                assert(self@.len() == before.len());
                assert(self@[i as int] == without_due(before[i as int], now));
                assert forall|k: int| 0 <= k < self@.len() && k != i implies #[trigger] self@[k]
                    == before[k] by {}
                assert forall|a: int, b: int| 0 <= a < b < self@.len() implies self@[a].key
                    < self@[b].key by {
                    assert(before[a].key < before[b].key);
                }
                assert forall|a: int| 0 <= a < self@.len() implies ordered(
                    #[trigger] self@[a].queue,
                ) by {
                    if a != i {
                        assert(ordered(before[a].queue));
                    }
                }
                assert(old(self)@.take(i + 1).drop_last() =~= old(self)@.take(i as int));
                assert(old(self)@.take(i + 1).last() == old(self)@[i as int]);
            }
            for job in it: taken
                invariant
                    it.seq() == items,
                    handles == job_views(items),
                    pair_views(due@) == so_far + Seq::new(
                        it.index() as nat,
                        |k: int| (key, handles[k]),
                    ),
            {
                let ghost earlier = pair_views(due@);
                let ghost handle = job@;
                assert(handle == handles[it.index()]);
                due.push((key, job));
                assert(pair_views(due@) =~= earlier.push((key, handle)));
                assert(pair_views(due@) =~= so_far + Seq::new(
                    (it.index() + 1) as nat,
                    |k: int| (key, handles[k]),
                ));
            }
            i += 1;
        }
        proof {
            assert(old(self)@.take(self.buckets.len() as int) =~= old(self)@);
            assert(self@ =~= Seq::new(old(self)@.len(), |i: int| without_due(old(self)@[i], now)));
        }
        due
    }

    /// Puts a handle that has run back into the queue of the bucket with the
    /// key `bucket`, one interval later. Returns whether there is such a
    /// bucket; where there is none, nothing changes.
    pub fn reinsert(&mut self, bucket: u64, handle: OperationJob) -> (done: bool)
        requires
            old(self).wf(),
            handle.next_deadline + handle.operation.interval <= u64::MAX,
        ensures
            final(self).wf(),
            done == has_bucket(old(self)@, bucket),
            final(self)@ == Seq::new(
                old(self)@.len(),
                |i: int|
                    if old(self)@[i].key == bucket {
                        with_return(old(self)@[i], handle@)
                    } else {
                        old(self)@[i]
                    },
            ),
    {
        let mut at: usize = 0;
        while at < self.buckets.len() && self.buckets[at].key != bucket
            invariant
                at <= self.buckets.len(),
                forall|i: int| 0 <= i < at ==> (#[trigger] self@[i]).key != bucket,
            decreases self.buckets.len() - at,
        {
            at += 1;
        }
        if at < self.buckets.len() {
            let ghost before = self@;
            proof {
                lemma_with_job_ordered(before[at as int].queue, handle@.advanced());
                assert(before[at as int].key == bucket);
            }
            self.buckets[at].queue.push(handle.advance());
            proof {
                assert(self@.len() == before.len());
                assert(self@[at as int] == with_return(before[at as int], handle@));
                assert forall|k: int| 0 <= k < self@.len() && k != at implies self@[k]
                    == before[k] by {}
                assert forall|k: int| 0 <= k < before.len() && k != at implies before[k].key
                    != bucket by {
                    if k < at {
                    } else {
                        assert(before[at as int].key < before[k].key);
                    }
                }
                assert(self@ =~= Seq::new(
                    before.len(),
                    |i: int|
                        if before[i].key == bucket {
                            with_return(before[i], handle@)
                        } else {
                            before[i]
                        },
                ));
            }
            true
        } else {
            assert(self@ =~= Seq::new(
                self@.len(),
                |i: int|
                    if self@[i].key == bucket {
                        with_return(self@[i], handle@)
                    } else {
                        self@[i]
                    },
            ));
            false
        }
    }

    /// One pass of the scheduler at `now`: in every bucket, each handle that
    /// is due leaves the queue once and goes back one interval later.
    /// Returns the handles that are to run, with the deadlines they were due
    /// at: bucket by bucket in the order of the keys, and in each bucket
    /// earliest first.
    pub fn tick(&mut self, now: u64) -> (due: Vec<OperationJob>)
        requires
            old(self).wf(),
            now <= LATEST_NOW,
        ensures
            final(self).wf(),
            final(self)@ == Seq::new(old(self)@.len(), |i: int| ticked_bucket(old(self)@[i], now)),
            job_views(due@) == due_handles(old(self)@, now),
    {
        let mut due: Vec<OperationJob> = Vec::new();
        let mut i: usize = 0;
        while i < self.buckets.len()
            invariant
                i <= self.buckets.len(),
                self@.len() == old(self)@.len(),
                self.wf(),
                now <= LATEST_NOW,
                forall|k: int|
                    0 <= k < i ==> #[trigger] self@[k] == ticked_bucket(old(self)@[k], now),
                forall|k: int| i <= k < self@.len() ==> #[trigger] self@[k] == old(self)@[k],
                job_views(due@) == due_handles(old(self)@.take(i as int), now),
            decreases self.buckets.len() - i,
        {
            let ghost before = self@;
            let ghost so_far = job_views(due@);
            proof {
                assert(ordered(before[i as int].queue));
            }
            let mut taken = self.buckets[i].queue.tick(now);
            let ghost new_handles = job_views(taken@);
            proof {
                assert(self@.len() == before.len());
                assert(self@[i as int] == ticked_bucket(before[i as int], now));
                assert forall|k: int| 0 <= k < self@.len() && k != i implies #[trigger] self@[k]
                    == before[k] by {}
                assert forall|a: int, b: int| 0 <= a < b < self@.len() implies self@[a].key
                    < self@[b].key by {
                    assert(before[a].key < before[b].key);
                }
                assert forall|a: int| 0 <= a < self@.len() implies ordered(
                    #[trigger] self@[a].queue,
                ) by {
                    if a != i {
                        assert(ordered(before[a].queue));
                    }
                }
                assert(old(self)@.take(i + 1).drop_last() =~= old(self)@.take(i as int));
                assert(old(self)@.take(i + 1).last() == old(self)@[i as int]);
            }
            due.append(&mut taken);
            proof {
                assert(job_views(due@) =~= so_far + new_handles);
            }
            i += 1;
        }
        proof {
            assert(old(self)@.take(self.buckets.len() as int) =~= old(self)@);
            assert(self@ =~= Seq::new(
                old(self)@.len(),
                |i: int| ticked_bucket(old(self)@[i], now),
            ));
        }
        due
    }
}

/// Putting a bucket with an ordered queue into well-formed buckets leaves
/// them well-formed.
pub proof fn lemma_put_bucket_wf(buckets: Seq<BucketView>, bucket: BucketView)
    requires
        buckets_wf(buckets),
        ordered(bucket.queue),
    ensures
        buckets_wf(put_bucket(buckets, bucket)),
{
    reveal(put_bucket);
    let below = buckets.filter(key_below(bucket.key));
    let above = buckets.filter(key_above(bucket.key));
    let out = put_bucket(buckets, bucket);
    lemma_filter_is_subsequence(buckets, key_below(bucket.key));
    lemma_filter_is_subsequence(buckets, key_above(bucket.key));
    let from_below = choose|ix: Seq<int>| picks(buckets, below, ix);
    let from_above = choose|ix: Seq<int>| picks(buckets, above, ix);
    assert forall|i: int| 0 <= i < below.len() implies (#[trigger] below[i]).key < bucket.key by {
        buckets.lemma_filter_pred(key_below(bucket.key), i);
    }
    assert forall|i: int| 0 <= i < above.len() implies (#[trigger] above[i]).key > bucket.key by {
        buckets.lemma_filter_pred(key_above(bucket.key), i);
    }
    assert forall|i: int, j: int| 0 <= i < j < out.len() implies out[i].key < out[j].key by {
        if j < below.len() {
            assert(out[i] == buckets[from_below[i]] && out[j] == buckets[from_below[j]]);
        } else if i > below.len() {
            let a = i - below.len() - 1;
            let b = j - below.len() - 1;
            assert(out[i] == above[a] && out[j] == above[b]);
            assert(out[i] == buckets[from_above[a]] && out[j] == buckets[from_above[b]]);
        } else if i < below.len() {
            assert(out[i] == below[i]);
            if j > below.len() {
                assert(out[j] == above[j - below.len() - 1]);
            }
        } else {
            assert(out[j] == above[j - below.len() - 1]);
        }
    }
    assert forall|i: int| 0 <= i < out.len() implies ordered(#[trigger] out[i].queue) by {
        if i < below.len() {
            assert(out[i] == buckets[from_below[i]]);
        } else if i > below.len() {
            let a = i - below.len() - 1;
            assert(out[i] == above[a]);
            assert(out[i] == buckets[from_above[a]]);
        }
    }
}

/// The keys of the buckets of a fresh index of `count` buckets.
pub open spec fn fresh_keys(count: int) -> Set<u64> {
    Set::new(|key: u64| exists|i: int| 0 <= i < count && key == #[trigger] bucket_start(i, count))
}

/// The number of the bucket that holds `hash` where the key space is cut
/// into `count` buckets: the hash divided by the width, but for the few
/// hashes above the last bucket's range, which belong to the last bucket.
pub open spec fn bucket_number(hash: int, count: int) -> int {
    if hash / bucket_width(count) < count {
        hash / bucket_width(count)
    } else {
        count - 1
    }
}

/// The bucket of a hash is a function of the hash and the number of buckets
/// alone: among the keys of a fresh index, the bucket key of `hash` is that
/// of the bucket with the number `bucket_number`, which is the hash divided
/// by the width wherever that is the number of a bucket.
pub proof fn lemma_bucket_assignment(count: int, hash: u64, bucket: u64)
    requires
        0 < count <= u64::MAX,
        is_bucket_key(fresh_keys(count), hash, bucket),
    ensures
        bucket == bucket_start(bucket_number(hash as int, count), count),
        (hash as int) / bucket_width(count) < count ==> bucket == bucket_start(
            (hash as int) / bucket_width(count),
            count,
        ),
        0 <= bucket_number(hash as int, count) < count,
{
    let width = bucket_width(count);
    let keys = fresh_keys(count);
    let h = hash as int;
    assert(width >= 1 && width * count <= u64::MAX) by (nonlinear_arith)
        requires
            width == (u64::MAX as int) / count,
            0 < count <= u64::MAX,
    ;
    let q = h / width;
    assert(0 <= q && q * width <= h < (q + 1) * width) by (nonlinear_arith)
        requires
            q == h / width,
            width >= 1,
            h >= 0,
    ;
    let m = bucket_number(h, count);
    assert(0 <= m * width <= h && m * width <= u64::MAX) by (nonlinear_arith)
        requires
            0 <= m <= q,
            q * width <= h,
            width >= 1,
            h <= u64::MAX,
    ;
    let low = (m * width) as u64;
    assert(low == bucket_start(m, count));
    assert(keys.contains(low));
    assert(keys.contains(bucket) && bucket <= hash && low <= bucket);
    let i = choose|i: int| 0 <= i < count && bucket == bucket_start(i, count);
    assert(i <= q) by (nonlinear_arith)
        requires
            i * width <= h,
            h < (q + 1) * width,
            width >= 1,
    ;
    assert(m <= i) by (nonlinear_arith)
        requires
            m * width <= i * width,
            width >= 1,
    ;
}

/// After a bucket was put in, the index has the bucket's content hash and
/// queue under its key, and under every other key what it had before.
pub proof fn lemma_put_bucket_changes_one(buckets: Seq<BucketView>, bucket: BucketView, other: u64)
    requires
        buckets_wf(buckets),
        ordered(bucket.queue),
    ensures
        hash_of(put_bucket(buckets, bucket), bucket.key) == Some(bucket.hash),
        queue_of(put_bucket(buckets, bucket), bucket.key) == Some(bucket.queue),
        other != bucket.key ==> hash_of(put_bucket(buckets, bucket), other) == hash_of(
            buckets,
            other,
        ),
        other != bucket.key ==> queue_of(put_bucket(buckets, bucket), other) == queue_of(
            buckets,
            other,
        ),
{
    reveal(put_bucket);
    let below = buckets.filter(key_below(bucket.key));
    let above = buckets.filter(key_above(bucket.key));
    let out = put_bucket(buckets, bucket);
    lemma_put_bucket_wf(buckets, bucket);
    assert(out[below.len() as int] == bucket);
    lemma_same_key_same_bucket(out);
    lemma_same_key_same_bucket(buckets);
    if other != bucket.key {
        if has_bucket(buckets, other) {
            let i = choose|i: int| 0 <= i < buckets.len() && buckets[i].key == other;
            if other < bucket.key {
                buckets.lemma_filter_contains(key_below(bucket.key), i);
                let j = choose|j: int| 0 <= j < below.len() && below[j] == buckets[i];
                assert(out[j] == buckets[i]);
            } else {
                buckets.lemma_filter_contains(key_above(bucket.key), i);
                let j = choose|j: int| 0 <= j < above.len() && above[j] == buckets[i];
                assert(out[below.len() + 1 + j] == buckets[i]);
            }
            assert(has_bucket(out, other));
        }
        if has_bucket(out, other) {
            let j = choose|j: int| 0 <= j < out.len() && out[j].key == other;
            if j < below.len() {
                assert(out[j] == below[j]);
                assert(below.contains(below[j]));
                buckets.lemma_filter_contains_rev(key_below(bucket.key), below[j]);
            } else {
                let a = j - below.len() - 1;
                assert(out[j] == above[a]);
                assert(above.contains(above[a]));
                buckets.lemma_filter_contains_rev(key_above(bucket.key), above[a]);
            }
            let i = choose|i: int| 0 <= i < buckets.len() && buckets[i] == out[j];
            assert(buckets[i].key == other);
            assert(has_bucket(buckets, other));
        }
    }
}

/// After a bucket was given operations, its content hash is the digest of
/// those operations in the order given, and no other bucket's content hash
/// has changed.
pub proof fn lemma_replace_bucket_hashes(
    buckets: Seq<BucketView>,
    key: u64,
    operations: Seq<OperationView>,
    include_tags: Set<Seq<char>>,
    exclude_tags: Set<Seq<char>>,
    now: u64,
    other: u64,
)
    requires
        buckets_wf(buckets),
    ensures
        hash_of(
            put_bucket(buckets, renewed_bucket(key, operations, include_tags, exclude_tags, now)),
            key,
        ) == Some(spec_bucket_digest(operations)),
        other != key ==> hash_of(
            put_bucket(buckets, renewed_bucket(key, operations, include_tags, exclude_tags, now)),
            other,
        ) == hash_of(buckets, other),
{
    lemma_queued_ordered(operations, include_tags, exclude_tags, now);
    lemma_put_bucket_changes_one(
        buckets,
        renewed_bucket(key, operations, include_tags, exclude_tags, now),
        other,
    );
}

/// In well-formed buckets a key names one bucket.
pub proof fn lemma_same_key_same_bucket(buckets: Seq<BucketView>)
    requires
        buckets_wf(buckets),
    ensures
        forall|i: int, j: int|
            0 <= i < buckets.len() && 0 <= j < buckets.len() && buckets[i].key == buckets[j].key
                ==> i == j,
{
    assert forall|i: int, j: int|
        0 <= i < buckets.len() && 0 <= j < buckets.len() && buckets[i].key
            == buckets[j].key implies i == j by {
        if i < j {
            assert(buckets[i].key < buckets[j].key);
        } else if j < i {
            assert(buckets[j].key < buckets[i].key);
        }
    }
}

/// No bucket that a filter by key keeps has the key itself: those below it
/// are not above it, and those above it are not below it.
proof fn lemma_sides(buckets: Seq<BucketView>, key: u64)
    ensures
        forall|i: int|
            0 <= i < buckets.filter(key_below(key)).len() ==> (#[trigger] buckets.filter(
                key_below(key),
            )[i]).key < key,
        forall|i: int|
            0 <= i < buckets.filter(key_above(key)).len() ==> (#[trigger] buckets.filter(
                key_above(key),
            )[i]).key > key,
{
    assert forall|i: int| 0 <= i < buckets.filter(key_below(key)).len() implies (
    #[trigger] buckets.filter(key_below(key))[i]).key < key by {
        buckets.lemma_filter_pred(key_below(key), i);
    }
    assert forall|i: int| 0 <= i < buckets.filter(key_above(key)).len() implies (
    #[trigger] buckets.filter(key_above(key))[i]).key > key by {
        buckets.lemma_filter_pred(key_above(key), i);
    }
}

/// Buckets that are already parted at the key of `bucket`, with `bucket`
/// between the parts, stay as they are when `bucket` is put in.
proof fn lemma_parted(below: Seq<BucketView>, bucket: BucketView, above: Seq<BucketView>)
    requires
        forall|i: int| 0 <= i < below.len() ==> (#[trigger] below[i]).key < bucket.key,
        forall|i: int| 0 <= i < above.len() ==> (#[trigger] above[i]).key > bucket.key,
    ensures
        put_bucket(below.push(bucket) + above, bucket) == below.push(bucket) + above,
{
    reveal(put_bucket);
    let whole = below.push(bucket) + above;
    let n = below.len() as int;
    assert(whole.take(n) =~= below);
    assert(whole.skip(n + 1) =~= above);
    assert forall|i: int| 0 <= i < n implies (#[trigger] whole[i]).key < bucket.key by {
        assert(whole[i] == below[i]);
    }
    assert forall|i: int| n + 1 <= i < whole.len() implies (#[trigger] whole[i]).key
        > bucket.key by {
        assert(whole[i] == above[i - n - 1]);
    }
    assert(whole[n] == bucket);
    lemma_filter_prefix(whole, key_below(bucket.key), n);
    lemma_filter_suffix(whole, key_above(bucket.key), n + 1);
}

/// What `put_bucket` is, for proofs that keep it folded.
proof fn lemma_put_bucket_parts(buckets: Seq<BucketView>, bucket: BucketView)
    ensures
        put_bucket(buckets, bucket) == buckets.filter(key_below(bucket.key)).push(bucket)
            + buckets.filter(key_above(bucket.key)),
{
    reveal(put_bucket);
}

/// Putting the same bucket in a second time changes nothing.
pub proof fn lemma_put_bucket_twice(buckets: Seq<BucketView>, bucket: BucketView)
    ensures
        put_bucket(put_bucket(buckets, bucket), bucket) == put_bucket(buckets, bucket),
{
    lemma_sides(buckets, bucket.key);
    lemma_put_bucket_parts(buckets, bucket);
    lemma_parted(
        buckets.filter(key_below(bucket.key)),
        bucket,
        buckets.filter(key_above(bucket.key)),
    );
}

} // verus!
