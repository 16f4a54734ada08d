//! The scripts that the vantage holds, as the catalog synchronisation keeps
//! them.

use crate::module::{Module, ModuleView};
use crate::results::{script_path, script_path_text};
use vstd::prelude::*;

verus! {

/// What the vantage remembers of a script that it holds.
pub struct ScriptRecord {
    pub name: String,
    pub version: u16,
    pub timestamp: Option<u64>,
}

/// The mathematical value of a `ScriptRecord`.
pub struct ScriptRecordView {
    pub name: Seq<char>,
    pub version: u16,
    pub timestamp: Option<u64>,
}

impl View for ScriptRecord {
    type V = ScriptRecordView;

    open spec fn view(&self) -> ScriptRecordView {
        ScriptRecordView { name: self.name@, version: self.version, timestamp: self.timestamp }
    }
}

/// The views of the records of a list, in order.
pub open spec fn record_views(records: Seq<ScriptRecord>) -> Seq<ScriptRecordView> {
    Seq::new(records.len(), |i: int| records[i]@)
}

/// The record that is kept of a module.
pub open spec fn record_of(module: ModuleView) -> ScriptRecordView {
    ScriptRecordView { name: module.name, version: module.version, timestamp: module.timestamp }
}

/// No two records of the list have the same name.
pub open spec fn distinct_names(records: Seq<ScriptRecordView>) -> bool {
    forall|i: int, j: int|
        0 <= i < j < records.len() ==> (#[trigger] records[i]).name != (#[trigger] records[j]).name
}

/// There is a record with the name `name`.
pub open spec fn has_name(records: Seq<ScriptRecordView>, name: Seq<char>) -> bool {
    exists|i: int| 0 <= i < records.len() && (#[trigger] records[i]).name == name
}

/// The records of a list by their names.
pub open spec fn by_name(records: Seq<ScriptRecordView>) -> Map<Seq<char>, ScriptRecordView> {
    Map::new(
        |name: Seq<char>| has_name(records, name),
        |name: Seq<char>|
            records[choose|i: int| 0 <= i < records.len() && (#[trigger] records[i]).name == name],
    )
}

/// In a list without a name twice, each record stands under its name.
pub proof fn lemma_by_name(records: Seq<ScriptRecordView>, i: int)
    requires
        distinct_names(records),
        0 <= i < records.len(),
    ensures
        by_name(records).contains_key(records[i].name),
        by_name(records)[records[i].name] == records[i],
{
    let name = records[i].name;
    let j = choose|j: int| 0 <= j < records.len() && (#[trigger] records[j]).name == name;
    if i < j {
        assert(records[i].name != records[j].name);
    } else if j < i {
        assert(records[j].name != records[i].name);
    }
}

/// What is to be done to the file of a script before the script's record is
/// changed: the file is removed, or written with the script's content.
pub enum FileAction {
    Remove { path: String },
    Write { path: String, content: String },
}

/// The mathematical value of a `FileAction`.
pub enum FileActionView {
    Remove { path: Seq<char> },
    Write { path: Seq<char>, content: Seq<char> },
}

impl View for FileAction {
    type V = FileActionView;

    open spec fn view(&self) -> FileActionView {
        match self {
            FileAction::Remove { path } => FileActionView::Remove { path: path@ },
            FileAction::Write { path, content } => FileActionView::Write {
                path: path@,
                content: content@,
            },
        }
    }
}

/// What an update of the catalog asks of the script's file below
/// `directory`: version 0 removes it, any other version writes the content.
pub open spec fn action_for(directory: Seq<char>, update: ModuleView) -> FileActionView
    recommends
        update.version != 0 ==> update.content is Some,
{
    if update.version == 0 {
        FileActionView::Remove { path: script_path_text(directory, update.name) }
    } else {
        FileActionView::Write {
            path: script_path_text(directory, update.name),
            content: update.content->0,
        }
    }
}

/// What an update of the catalog asks of the script's file.
pub fn file_action(directory: &str, update: &Module) -> (action: FileAction)
    requires
        update.version != 0 ==> update.content is Some,
    ensures
        action@ == action_for(directory@, update@),
{
    let path = script_path(directory, update.name.as_str());
    if update.version == 0 {
        FileAction::Remove { path }
    } else {
        match &update.content {
            Some(content) => FileAction::Write { path, content: content.clone() },
            None => vstd::pervasive::unreached(),
        }
    }
}

/// The scripts that the vantage holds, by name. None of them has the
/// version 0.
pub struct ScriptStore {
    scripts: Vec<ScriptRecord>,
}

impl View for ScriptStore {
    type V = Map<Seq<char>, ScriptRecordView>;

    closed spec fn view(&self) -> Map<Seq<char>, ScriptRecordView> {
        by_name(record_views(self.scripts@))
    }
}

impl ScriptStore {
    /// The store's invariant: no name twice, each script under its own name,
    /// none with the version 0.
    pub closed spec fn wf(&self) -> bool {
        &&& distinct_names(record_views(self.scripts@))
        &&& forall|i: int| 0 <= i < self.scripts@.len() ==> (#[trigger] self.scripts@[i]).version != 0
    }

    /// What the invariant says of the store's value.
    pub proof fn lemma_wf(&self)
        requires
            self.wf(),
        ensures
            self@.dom().finite(),
            forall|name: Seq<char>| #[trigger]
                self@.contains_key(name) ==> self@[name].name == name && self@[name].version != 0,
    {
        let records = record_views(self.scripts@);
        assert forall|name: Seq<char>| #[trigger] self@.contains_key(name) implies self@[name].name
            == name && self@[name].version != 0 by {
            let i = choose|i: int| 0 <= i < records.len() && (#[trigger] records[i]).name == name;
            assert(self.scripts@[i].version != 0);
        }
        lemma_by_name_finite(records);
    }

    /// The empty store.
    pub fn new() -> (store: ScriptStore)
        ensures
            store.wf(),
            store@ == Map::<Seq<char>, ScriptRecordView>::empty(),
    {
        let store = ScriptStore { scripts: Vec::new() };
        assert(store@ =~= Map::<Seq<char>, ScriptRecordView>::empty());
        store
    }

    /// The number of scripts.
    pub fn len(&self) -> (len: usize)
        requires
            self.wf(),
        ensures
            len == self@.len(),
    {
        proof {
            lemma_by_name_len(record_views(self.scripts@));
        }
        self.scripts.len()
    }

    /// Where the record with the name `name` stands, if there is one.
    fn position(&self, name: &String) -> (at: Option<usize>)
        ensures
            match at {
                Some(at) => at < self.scripts@.len() && self.scripts@[at as int].name@ == name@,
                None => !has_name(record_views(self.scripts@), name@),
            },
    {
        let mut i: usize = 0;
        while i < self.scripts.len()
            invariant
                i <= self.scripts.len(),
                forall|k: int| 0 <= k < i ==> (#[trigger] self.scripts@[k]).name@ != name@,
            decreases self.scripts.len() - i,
        {
            if self.scripts[i].name == *name {
                return Some(i);
            }
            i += 1;
        }
        proof {
            let records = record_views(self.scripts@);
            if has_name(records, name@) {
                let k = choose|k: int| 0 <= k < records.len() && (#[trigger] records[k]).name
                    == name@;
                assert(self.scripts@[k].name@ != name@);
            }
        }
        None
    }

    /// The version and timestamp that are held of the script `name`.
    pub fn get(&self, name: &str) -> (record: Option<ScriptRecord>)
        requires
            self.wf(),
        ensures
            match record {
                Some(record) => self@.contains_key(name@) && record@ == self@[name@],
                None => !self@.contains_key(name@),
            },
    {
        let name = name.to_owned();
        match self.position(&name) {
            Some(at) => {
                proof {
                    lemma_by_name(record_views(self.scripts@), at as int);
                }
                let held = &self.scripts[at];
                Some(
                    ScriptRecord {
                        name: held.name.clone(),
                        version: held.version,
                        timestamp: held.timestamp,
                    },
                )
            },
            None => None,
        }
    }

    /// The scripts that the vantage holds, each once: what a synchronisation
    /// tells the coordinator.
    pub fn known(&self) -> (records: Vec<ScriptRecord>)
        requires
            self.wf(),
        ensures
            distinct_names(record_views(records@)),
            by_name(record_views(records@)) == self@,
            records@.len() == self@.len(),
    {
        let mut records: Vec<ScriptRecord> = Vec::new();
        let mut i: usize = 0;
        while i < self.scripts.len()
            invariant
                i <= self.scripts.len(),
                records.len() == i,
                forall|k: int| 0 <= k < i ==> (#[trigger] records[k])@ == self.scripts@[k]@,
            decreases self.scripts.len() - i,
        {
            let held = &self.scripts[i];
            records.push(
                ScriptRecord {
                    name: held.name.clone(),
                    version: held.version,
                    timestamp: held.timestamp,
                },
            );
            i += 1;
        }
        proof {
            assert(record_views(records@) =~= record_views(self.scripts@));
            lemma_by_name_len(record_views(self.scripts@));
        }
        records
    }

    /// Takes an update of the catalog into the store: version 0 drops the
    /// script, any other version puts the script's record in the place of
    /// the one that was held under its name, if any. Returns whether the
    /// script is held afterwards.
    pub fn apply(&mut self, update: &Module) -> (installed: bool)
        requires
            old(self).wf(),
        ensures
            final(self).wf(),
            installed == (update.version != 0),
            final(self)@ == if update.version == 0 {
                old(self)@.remove(update.name@)
            } else {
                old(self)@.insert(update.name@, record_of(update@))
            },
    {
        let ghost before = record_views(self.scripts@);
        let at = self.position(&update.name);
        if update.version == 0 {
            match at {
                Some(at) => {
                    self.scripts.remove(at);
                    proof {
                        let after = record_views(self.scripts@);
                        assert(after =~= before.remove(at as int));
                        lemma_remove(before, at as int);
                        assert forall|i: int| 0 <= i < self.scripts@.len() implies (
                        #[trigger] self.scripts@[i]).version != 0 by {
                            if i < at {
                                assert(self.scripts@[i] == old(self).scripts@[i]);
                            } else {
                                assert(self.scripts@[i] == old(self).scripts@[i + 1]);
                            }
                        }
                    }
                },
                None => {
                    assert(self@ =~= old(self)@.remove(update.name@));
                },
            }
            false
        } else {
            let record = ScriptRecord {
                name: update.name.clone(),
                version: update.version,
                timestamp: update.timestamp,
            };
            match at {
                Some(at) => {
                    self.scripts.set(at, record);
                    proof {
                        let after = record_views(self.scripts@);
                        assert(after =~= before.update(at as int, record_of(update@)));
                        lemma_update(before, at as int, record_of(update@));
                    }
                },
                None => {
                    self.scripts.push(record);
                    proof {
                        let after = record_views(self.scripts@);
                        assert(after =~= before.push(record_of(update@)));
                        lemma_push(before, record_of(update@));
                    }
                },
            }
            true
        }
    }
}

/// A list without a name twice has as many names as records.
pub proof fn lemma_by_name_len(records: Seq<ScriptRecordView>)
    requires
        distinct_names(records),
    ensures
        by_name(records).dom().finite(),
        by_name(records).len() == records.len(),
    decreases records.len(),
{
    if records.len() == 0 {
        assert(by_name(records) =~= Map::<Seq<char>, ScriptRecordView>::empty());
    } else {
        let front = records.drop_last();
        let last = records.last();
        lemma_by_name_len(front);
        assert(front.push(last) =~= records);
        assert(!has_name(front, last.name)) by {
            if has_name(front, last.name) {
                let i = choose|i: int| 0 <= i < front.len() && (#[trigger] front[i]).name
                    == last.name;
                assert(records[i].name != records[records.len() - 1].name);
            }
        }
        lemma_push(front, last);
    }
}

/// The names of a list are finitely many.
pub proof fn lemma_by_name_finite(records: Seq<ScriptRecordView>)
    ensures
        by_name(records).dom().finite(),
    decreases records.len(),
{
    if records.len() == 0 {
        assert(by_name(records).dom() =~= Set::<Seq<char>>::empty());
    } else {
        let front = records.drop_last();
        lemma_by_name_finite(front);
        assert(by_name(records).dom() =~= by_name(front).dom().insert(records.last().name)) by {
            assert forall|name: Seq<char>| has_name(records, name) <==> (has_name(front, name)
                || name == records.last().name) by {
                if has_name(records, name) {
                    let i = choose|i: int| 0 <= i < records.len() && (#[trigger] records[i]).name
                        == name;
                    if i < front.len() {
                        assert(front[i].name == name);
                    }
                }
                if has_name(front, name) {
                    let i = choose|i: int| 0 <= i < front.len() && (#[trigger] front[i]).name
                        == name;
                    assert(records[i].name == name);
                }
                if name == records.last().name {
                    assert(records[records.len() - 1].name == name);
                }
            }
        }
    }
}

/// A record with a new name, added at the end, is one more entry under that
/// name.
pub proof fn lemma_push(records: Seq<ScriptRecordView>, record: ScriptRecordView)
    requires
        distinct_names(records),
        !has_name(records, record.name),
    ensures
        distinct_names(records.push(record)),
        by_name(records.push(record)) == by_name(records).insert(record.name, record),
{
    let more = records.push(record);
    assert forall|i: int, j: int| 0 <= i < j < more.len() implies (#[trigger] more[i]).name != (
    #[trigger] more[j]).name by {
        if j < records.len() {
            assert(records[i].name != records[j].name);
        } else {
            assert(more[i] == records[i]);
            if records[i].name == record.name {
                assert(has_name(records, record.name));
            }
        }
    }
    assert forall|name: Seq<char>| #[trigger]
        by_name(more).contains_key(name) <==> by_name(records).insert(
            record.name,
            record,
        ).contains_key(name) by {
        if has_name(more, name) {
            let i = choose|i: int| 0 <= i < more.len() && (#[trigger] more[i]).name == name;
            if i < records.len() {
                assert(records[i].name == name);
            }
        }
        if has_name(records, name) {
            let i = choose|i: int| 0 <= i < records.len() && (#[trigger] records[i]).name == name;
            assert(more[i].name == name);
        }
        if name == record.name {
            assert(more[records.len() as int].name == name);
        }
    }
    assert forall|name: Seq<char>| #[trigger] by_name(more).contains_key(name) implies by_name(
        more,
    )[name] == by_name(records).insert(record.name, record)[name] by {
        let i = choose|i: int| 0 <= i < more.len() && (#[trigger] more[i]).name == name;
        lemma_by_name(more, i);
        if i < records.len() {
            assert(more[i] == records[i]);
            lemma_by_name(records, i);
        }
    }
    assert(by_name(more) =~= by_name(records).insert(record.name, record));
}

/// A record put in the place of the one with its name is the new entry
/// under that name.
pub proof fn lemma_update(records: Seq<ScriptRecordView>, at: int, record: ScriptRecordView)
    requires
        distinct_names(records),
        0 <= at < records.len(),
        records[at].name == record.name,
    ensures
        distinct_names(records.update(at, record)),
        by_name(records.update(at, record)) == by_name(records).insert(record.name, record),
{
    let more = records.update(at, record);
    assert forall|i: int, j: int| 0 <= i < j < more.len() implies (#[trigger] more[i]).name != (
    #[trigger] more[j]).name by {
        assert(records[i].name != records[j].name);
    }
    assert forall|name: Seq<char>| #[trigger]
        by_name(more).contains_key(name) <==> by_name(records).insert(
            record.name,
            record,
        ).contains_key(name) by {
        if has_name(more, name) {
            let i = choose|i: int| 0 <= i < more.len() && (#[trigger] more[i]).name == name;
            assert(records[i].name == name);
        }
        if has_name(records, name) {
            let i = choose|i: int| 0 <= i < records.len() && (#[trigger] records[i]).name == name;
            assert(more[i].name == name);
        }
        if name == record.name {
            assert(more[at].name == name);
        }
    }
    assert forall|name: Seq<char>| #[trigger] by_name(more).contains_key(name) implies by_name(
        more,
    )[name] == by_name(records).insert(record.name, record)[name] by {
        let i = choose|i: int| 0 <= i < more.len() && (#[trigger] more[i]).name == name;
        lemma_by_name(more, i);
        if i != at {
            assert(more[i] == records[i]);
            lemma_by_name(records, i);
        }
    }
    assert(by_name(more) =~= by_name(records).insert(record.name, record));
}

/// Without the record at `at`, the entry under its name is gone and the
/// others stay.
pub proof fn lemma_remove(records: Seq<ScriptRecordView>, at: int)
    requires
        distinct_names(records),
        0 <= at < records.len(),
    ensures
        distinct_names(records.remove(at)),
        by_name(records.remove(at)) == by_name(records).remove(records[at].name),
{
    let less = records.remove(at);
    let gone = records[at].name;
    assert forall|i: int| 0 <= i < less.len() implies #[trigger] less[i] == records[if i < at {
        i
    } else {
        i + 1
    }] by {}
    assert forall|i: int, j: int| 0 <= i < j < less.len() implies (#[trigger] less[i]).name != (
    #[trigger] less[j]).name by {
        let a = if i < at {
            i
        } else {
            i + 1
        };
        let b = if j < at {
            j
        } else {
            j + 1
        };
        assert(records[a].name != records[b].name);
    }
    assert forall|name: Seq<char>| #[trigger]
        by_name(less).contains_key(name) <==> by_name(records).remove(gone).contains_key(
            name,
        ) by {
        if has_name(less, name) {
            let i = choose|i: int| 0 <= i < less.len() && (#[trigger] less[i]).name == name;
            let a = if i < at {
                i
            } else {
                i + 1
            };
            assert(records[a].name == name);
            if a < at {
                assert(records[a].name != records[at].name);
            } else {
                assert(records[at].name != records[a].name);
            }
        }
        if has_name(records, name) && name != gone {
            let a = choose|a: int| 0 <= a < records.len() && (#[trigger] records[a]).name == name;
            let i = if a < at {
                a
            } else {
                a - 1
            };
            assert(less[i].name == name);
        }
    }
    assert forall|name: Seq<char>| #[trigger] by_name(less).contains_key(name) implies by_name(
        less,
    )[name] == by_name(records).remove(gone)[name] by {
        let i = choose|i: int| 0 <= i < less.len() && (#[trigger] less[i]).name == name;
        lemma_by_name(less, i);
        let a = if i < at {
            i
        } else {
            i + 1
        };
        lemma_by_name(records, a);
    }
    assert(by_name(less) =~= by_name(records).remove(gone));
}

} // verus!
