//! Recurring measurement jobs and the tag filter that decides which of them
//! this vantage runs.

use vstd::prelude::*;

verus! {

/// A recurring measurement: a script, the domain it probes and the seconds
/// between two executions.
pub struct Operation {
    pub script_name: String,
    pub domain: String,
    pub interval: u32,
    pub tags: Option<Vec<String>>,
}

/// The mathematical value of an `Operation`.
pub struct OperationView {
    pub script_name: Seq<char>,
    pub domain: Seq<char>,
    pub interval: u32,
    pub tags: Option<Seq<Seq<char>>>,
}

/// The texts that a list of strings holds, in order.
pub open spec fn texts(strings: Seq<String>) -> Seq<Seq<char>> {
    Seq::new(strings.len(), |i: int| strings[i]@)
}

/// The views of the operations of a list, in order.
pub open spec fn operation_views(operations: Seq<Operation>) -> Seq<OperationView> {
    Seq::new(operations.len(), |i: int| operations[i]@)
}

impl View for Operation {
    type V = OperationView;

    open spec fn view(&self) -> OperationView {
        OperationView {
            script_name: self.script_name@,
            domain: self.domain@,
            interval: self.interval,
            tags: match self.tags {
                Some(tags) => Some(texts(tags@)),
                None => None,
            },
        }
    }
}

impl OperationView {
    /// The tags as a set; an operation without a tag list has none.
    pub open spec fn tag_set(self) -> Set<Seq<char>> {
        match self.tags {
            Some(tags) => tags.to_set(),
            None => Set::empty(),
        }
    }

    /// The operation runs on a vantage with the tags `include_tags` to look
    /// for and the tags `exclude_tags` to keep away from: it has a tag,
    /// shares one with `include_tags` unless `include_tags` is empty, and
    /// shares none with `exclude_tags`.
    pub open spec fn eligible(
        self,
        include_tags: Set<Seq<char>>,
        exclude_tags: Set<Seq<char>>,
    ) -> bool {
        &&& include_tags == Set::<Seq<char>>::empty() || self.tag_set().intersect(include_tags)
            != Set::<Seq<char>>::empty()
        &&& self.tag_set().intersect(exclude_tags) == Set::<Seq<char>>::empty()
        &&& self.tag_set() != Set::<Seq<char>>::empty()
    }
}

/// Copies a list of strings.
pub fn clone_strings(strings: &Vec<String>) -> (copy: Vec<String>)
    ensures
        texts(copy@) == texts(strings@),
{
    let mut copy: Vec<String> = Vec::new();
    let mut i: usize = 0;
    while i < strings.len()
        invariant
            i <= strings.len(),
            copy.len() == i,
            forall|k: int| 0 <= k < i ==> copy[k]@ == strings[k]@,
        decreases strings.len() - i,
    {
        copy.push(strings[i].clone());
        i += 1;
    }
    assert(texts(copy@) =~= texts(strings@));
    copy
}

impl Operation {
    /// Puts an operation together from its parts.
    pub fn new(
        script_name: String,
        domain: String,
        interval: u32,
        tags: Option<Vec<String>>,
    ) -> (operation: Operation)
        ensures
            operation.script_name == script_name,
            operation.domain == domain,
            operation.interval == interval,
            operation.tags == tags,
    {
        Operation { script_name, domain, interval, tags }
    }

    /// Copies the operation.
    pub fn duplicate(&self) -> (copy: Operation)
        ensures
            copy@ == self@,
    {
        let tags = match &self.tags {
            Some(tags) => Some(clone_strings(tags)),
            None => None,
        };
        Operation {
            script_name: self.script_name.clone(),
            domain: self.domain.clone(),
            interval: self.interval,
            tags,
        }
    }

    /// Whether this vantage runs the operation, given the tags it looks for
    /// and the tags it keeps away from.
    pub fn is_eligible(&self, include_tags: &Vec<String>, exclude_tags: &Vec<String>) -> (eligible:
        bool)
        ensures
            eligible == self@.eligible(
                texts(include_tags@).to_set(),
                texts(exclude_tags@).to_set(),
            ),
    {
        match &self.tags {
            None => false,
            Some(tags) => {
                proof {
                    lemma_shared_tag(texts(include_tags@), texts(tags@));
                    lemma_shared_tag(texts(exclude_tags@), texts(tags@));
                    lemma_empty_set(texts(include_tags@));
                    lemma_empty_set(texts(tags@));
                }
                tags.len() > 0 && (include_tags.len() == 0 || contains_tags(include_tags, tags))
                    && !contains_tags(exclude_tags, tags)
            },
        }
    }
}

/// Two lists of texts share a member.
pub open spec fn share_tag(tags: Seq<Seq<char>>, operation_tags: Seq<Seq<char>>) -> bool {
    exists|i: int, j: int|
        0 <= i < operation_tags.len() && 0 <= j < tags.len() && operation_tags[i] == tags[j]
}

/// Sharing a member is the same as a nonempty intersection of the two sets.
pub proof fn lemma_shared_tag(tags: Seq<Seq<char>>, operation_tags: Seq<Seq<char>>)
    ensures
        share_tag(tags, operation_tags) <==> operation_tags.to_set().intersect(tags.to_set())
            != Set::<Seq<char>>::empty(),
{
    let both = operation_tags.to_set().intersect(tags.to_set());
    if share_tag(tags, operation_tags) {
        let (i, j) = choose|i: int, j: int|
            0 <= i < operation_tags.len() && 0 <= j < tags.len() && operation_tags[i] == tags[j];
        assert(operation_tags.to_set().contains(operation_tags[i]));
        assert(tags.to_set().contains(tags[j]));
        assert(both.contains(operation_tags[i]));
    }
    if both != Set::<Seq<char>>::empty() {
        assert(!(both =~= Set::<Seq<char>>::empty()));
        let t = choose|t: Seq<char>| both.contains(t);
        assert(operation_tags.to_set().contains(t));
        assert(tags.to_set().contains(t));
        let i = choose|i: int| 0 <= i < operation_tags.len() && operation_tags[i] == t;
        let j = choose|j: int| 0 <= j < tags.len() && tags[j] == t;
        assert(0 <= i < operation_tags.len() && 0 <= j < tags.len() && operation_tags[i]
            == tags[j]);
    }
}

/// A list has no member exactly when its set is empty.
pub proof fn lemma_empty_set(tags: Seq<Seq<char>>)
    ensures
        tags.len() == 0 <==> tags.to_set() == Set::<Seq<char>>::empty(),
{
    if tags.len() == 0 {
        assert(tags.to_set() =~= Set::<Seq<char>>::empty());
    } else {
        assert(tags.to_set().contains(tags[0]));
    }
}

/// Whether one of `operation_tags` is among `tags`.
pub fn contains_tags(tags: &Vec<String>, operation_tags: &Vec<String>) -> (found: bool)
    ensures
        found == share_tag(texts(tags@), texts(operation_tags@)),
{
    let mut i: usize = 0;
    while i < operation_tags.len()
        invariant
            i <= operation_tags.len(),
            forall|a: int, b: int|
                0 <= a < i && 0 <= b < tags.len() ==> operation_tags[a]@ != tags[b]@,
        decreases operation_tags.len() - i,
    {
        let mut j: usize = 0;
        while j < tags.len()
            invariant
                i < operation_tags.len(),
                j <= tags.len(),
                forall|a: int, b: int|
                    0 <= a < i && 0 <= b < tags.len() ==> operation_tags[a]@ != tags[b]@,
                forall|b: int| 0 <= b < j ==> operation_tags[i as int]@ != tags[b]@,
            decreases tags.len() - j,
        {
            if operation_tags[i] == tags[j] {
                assert(texts(operation_tags@)[i as int] == texts(tags@)[j as int]);
                return true;
            }
            j += 1;
        }
        i += 1;
    }
    assert forall|a: int, b: int|
        0 <= a < texts(operation_tags@).len() && 0 <= b < texts(tags@).len() implies texts(
        operation_tags@,
    )[a] != texts(tags@)[b] by {
        assert(operation_tags[a]@ != tags[b]@);
    }
    false
}

} // verus!
