//! The ledger of documents that earlier passes have processed.

use vstd::prelude::*;
use vstd::string::StringExecFns;
use crate::document::File;
use crate::document::FileView;

verus! {

/// How processing a document ended.
#[derive(Debug, Clone, Copy, PartialEq, Eq, Structural)]
pub enum State {
    Downloaded,
    TooLarge,
}

/// What the ledger remembers of one document.
#[derive(Debug, Clone)]
pub struct FileMapEntry {
    pub name: String,
    pub modified_time: String,
    pub state: State,
    pub filename: Option<String>,
}

/// The mathematical value of a [`FileMapEntry`].
pub struct EntryView {
    pub name: Seq<char>,
    pub modified_time: Seq<char>,
    pub state: State,
    pub filename: Option<Seq<char>>,
}

impl View for FileMapEntry {
    type V = EntryView;

    open spec fn view(&self) -> EntryView {
        EntryView {
            name: self.name@,
            modified_time: self.modified_time@,
            state: self.state,
            filename: match self.filename {
                Some(s) => Some(s@),
                None => None,
            },
        }
    }
}

/// The ledger as a mathematical map from document id to entry.
pub type LedgerView = Map<Seq<char>, EntryView>;

/// An entry names a local file exactly when its document was downloaded.
pub open spec fn entry_consistent(e: EntryView) -> bool {
    (e.state == State::Downloaded) <==> (e.filename is Some)
}

/// Every entry of the ledger is consistent.
pub open spec fn ledger_consistent(m: LedgerView) -> bool {
    forall|id: Seq<char>| #[trigger] m.contains_key(id) ==> entry_consistent(m[id])
}

/// No two entries claim the same local file.
pub open spec fn filenames_distinct(m: LedgerView) -> bool {
    forall|a: Seq<char>, b: Seq<char>|
        #![trigger m[a], m[b]]
        m.contains_key(a) && m.contains_key(b) && a != b && m[a].filename is Some
            ==> m[a].filename != m[b].filename
}

/// No entry other than that of `id` claims `filename`.
pub open spec fn unclaimed_by_others(m: LedgerView, id: Seq<char>, filename: Seq<char>) -> bool {
    forall|other: Seq<char>| #[trigger]
        m.contains_key(other) && other != id ==> m[other].filename != Some(filename)
}

/// Whether a document must be exported again: it was never recorded, or its
/// version token differs from the recorded one. The name plays no part.
pub open spec fn stale(m: LedgerView, f: FileView) -> bool {
    !m.contains_key(f.id) || m[f.id].modified_time != f.modified_time
}

/// The entry recorded for a document exported to `filename`.
pub open spec fn downloaded_entry(f: FileView, filename: Seq<char>) -> EntryView {
    EntryView {
        name: f.name,
        modified_time: f.modified_time,
        state: State::Downloaded,
        filename: Some(filename),
    }
}

/// The entry recorded for a document too large to export.
pub open spec fn too_large_entry(f: FileView) -> EntryView {
    EntryView {
        name: f.name,
        modified_time: f.modified_time,
        state: State::TooLarge,
        filename: None,
    }
}

/// A document is stale on first sight, up to date right after it is
/// recorded either way with its version token, and stale again once the
/// token differs.
pub proof fn lemma_stale_cycle(m: LedgerView, f: FileView, filename: Seq<char>, later: FileView)
    requires
        later.id == f.id,
        later.modified_time != f.modified_time,
    ensures
        !m.contains_key(f.id) ==> stale(m, f),
        !stale(m.insert(f.id, downloaded_entry(f, filename)), f),
        !stale(m.insert(f.id, too_large_entry(f)), f),
        stale(m.insert(f.id, downloaded_entry(f, filename)), later),
        stale(m.insert(f.id, too_large_entry(f)), later),
{
}

/// Recording keeps a consistent ledger consistent. Recording a download
/// keeps the file names pairwise distinct when no other entry claims the
/// name; recording a document as too large keeps them so in any case.
pub proof fn lemma_record_keeps_ledger(m: LedgerView, f: FileView, filename: Seq<char>)
    requires
        ledger_consistent(m),
        filenames_distinct(m),
    ensures
        ledger_consistent(m.insert(f.id, downloaded_entry(f, filename))),
        ledger_consistent(m.insert(f.id, too_large_entry(f))),
        filenames_distinct(m.insert(f.id, too_large_entry(f))),
        unclaimed_by_others(m, f.id, filename) ==> filenames_distinct(
            m.insert(f.id, downloaded_entry(f, filename)),
        ),
{
    let large = m.insert(f.id, too_large_entry(f));
    assert forall|a: Seq<char>, b: Seq<char>|
        #![trigger large[a], large[b]]
        large.contains_key(a) && large.contains_key(b) && a != b
            && large[a].filename is Some implies large[a].filename != large[b].filename by {
        if a != f.id && b != f.id {
            assert(m.contains_key(a) && m.contains_key(b));
            assert(m[a] == large[a] && m[b] == large[b]);
        }
    }
    if unclaimed_by_others(m, f.id, filename) {
        let done = m.insert(f.id, downloaded_entry(f, filename));
        assert forall|a: Seq<char>, b: Seq<char>|
            #![trigger done[a], done[b]]
            done.contains_key(a) && done.contains_key(b) && a != b
                && done[a].filename is Some implies done[a].filename != done[b].filename by {
            if a != f.id && b != f.id {
                assert(m.contains_key(a) && m.contains_key(b));
                assert(m[a] == done[a] && m[b] == done[b]);
            } else {
                let other = if a == f.id { b } else { a };
                assert(m.contains_key(other) && other != f.id);
            }
        }
    }
}

struct Slot {
    id: String,
    entry: FileMapEntry,
}

/// The ledger: at most one entry per document id.
pub struct FileMap {
    slots: Vec<Slot>,
}

impl View for FileMap {
    type V = LedgerView;

    closed spec fn view(&self) -> LedgerView {
        Map::new(
            |id: Seq<char>| self.position(id) is Some,
            |id: Seq<char>| self.slots[self.position(id)->0].entry@,
        )
    }
}

impl FileMap {
    spec fn holds_at(&self, id: Seq<char>, i: int) -> bool {
        0 <= i < self.slots.len() && self.slots[i].id@ == id
    }

    spec fn position(&self, id: Seq<char>) -> Option<int> {
        if exists|i: int| self.holds_at(id, i) {
            Some(choose|i: int| self.holds_at(id, i))
        } else {
            None
        }
    }

    /// The representation is valid: ids occur once, and every entry is
    /// consistent.
    pub closed spec fn wf(&self) -> bool {
        &&& forall|i: int, j: int|
            0 <= i < j < self.slots.len() ==> self.slots[i].id@ != self.slots[j].id@
        &&& forall|i: int|
            0 <= i < self.slots.len() ==> entry_consistent(#[trigger] self.slots[i].entry@)
    }

    proof fn lemma_position(&self, id: Seq<char>, i: int)
        requires
            self.wf(),
            self.holds_at(id, i),
        ensures
            self.position(id) == Some(i),
            self@.contains_key(id),
            self@[id] == self.slots[i].entry@,
    {
        let j = choose|j: int| self.holds_at(id, j);
        assert(self.holds_at(id, j));
        if j < i {
            assert(self.slots[j].id@ != self.slots[i].id@);
        } else if i < j {
            assert(self.slots[i].id@ != self.slots[j].id@);
        }
    }

    proof fn lemma_absent(&self, id: Seq<char>)
        requires
            forall|i: int| 0 <= i < self.slots.len() ==> self.slots[i].id@ != id,
        ensures
            self.position(id) is None,
            !self@.contains_key(id),
    {
        assert forall|i: int| !self.holds_at(id, i) by {}
    }

    /// All entries of a valid ledger are consistent.
    pub proof fn lemma_wf_view(&self)
        requires
            self.wf(),
        ensures
            ledger_consistent(self@),
    {
        assert forall|id: Seq<char>| #[trigger] self@.contains_key(id) implies entry_consistent(
            self@[id],
        ) by {
            let i = self.position(id)->0;
            assert(self.holds_at(id, i));
        }
    }

    /// The empty ledger.
    pub fn new() -> (r: FileMap)
        ensures
            r.wf(),
            r@ == Map::<Seq<char>, EntryView>::empty(),
    {
        let r = FileMap { slots: Vec::new() };
        proof {
            assert forall|id: Seq<char>| !r@.contains_key(id) by {
                r.lemma_absent(id);
            }
            assert(r@ =~= Map::<Seq<char>, EntryView>::empty());
        }
        r
    }

    fn find(&self, id: &String) -> (r: Option<usize>)
        requires
            self.wf(),
        ensures
            match r {
                Some(i) => self.holds_at(id@, i as int) && self@.contains_key(id@) && self@[id@]
                    == self.slots[i as int].entry@,
                None => !self@.contains_key(id@) && forall|i: int|
                    0 <= i < self.slots.len() ==> self.slots[i].id@ != id@,
            },
    {
        let mut i: usize = 0;
        while i < self.slots.len()
            invariant
                self.wf(),
                i <= self.slots.len(),
                forall|j: int| 0 <= j < i ==> self.slots[j].id@ != id@,
            decreases self.slots.len() - i,
        {
            if self.slots[i].id == *id {
                proof {
                    self.lemma_position(id@, i as int);
                }
                return Some(i);
            }
            i += 1;
        }
        proof {
            self.lemma_absent(id@);
        }
        None
    }

    /// Whether `f` must be exported again.
    pub fn needs_download(&self, f: &File) -> (r: bool)
        requires
            self.wf(),
        ensures
            r == stale(self@, f@),
    {
        match self.find(&f.id) {
            Some(i) => self.slots[i].entry.modified_time != f.modified_time,
            None => true,
        }
    }

    /// The entry recorded for `id`, if there is one.
    pub fn get(&self, id: &str) -> (r: Option<&FileMapEntry>)
        requires
            self.wf(),
        ensures
            match r {
                Some(e) => self@.contains_key(id@) && e@ == self@[id@],
                None => !self@.contains_key(id@),
            },
    {
        let key = String::from_str(id);
        match self.find(&key) {
            Some(i) => Some(&self.slots[i].entry),
            None => None,
        }
    }

    /// Sets the entry of `id`, replacing an earlier one. Returns `false`
    /// and leaves the ledger as it was when the entry is not consistent.
    pub fn insert(&mut self, id: String, entry: FileMapEntry) -> (r: bool)
        requires
            old(self).wf(),
        ensures
            final(self).wf(),
            r == entry_consistent(entry@),
            r ==> final(self)@ == old(self)@.insert(id@, entry@),
            !r ==> final(self)@ == old(self)@,
    {
        let consistent = match entry.state {
            State::Downloaded => entry.filename.is_some(),
            State::TooLarge => entry.filename.is_none(),
        };
        if !consistent {
            return false;
        }
        self.put(id, entry);
        true
    }

    fn put(&mut self, id: String, entry: FileMapEntry)
        requires
            old(self).wf(),
            entry_consistent(entry@),
        ensures
            final(self).wf(),
            final(self)@ == old(self)@.insert(id@, entry@),
    {
        let ghost before = *self;
        let ghost key = id@;
        let ghost value = entry@;
        match self.find(&id) {
            Some(i) => {
                self.slots.set(i, Slot { id, entry });
                proof {
                    let target = before@.insert(key, value);
                    assert forall|k: Seq<char>|
                        #![trigger self@.dom().contains(k)]
                        #![trigger target.dom().contains(k)]
                        self@.dom().contains(k) == target.dom().contains(k) && (self@.dom().contains(
                            k,
                        ) ==> self@[k] == target[k]) by {
                        if before@.contains_key(k) || k == key {
                            let j = if k == key { i as int } else { before.position(k)->0 };
                            assert(before.holds_at(k, j));
                            assert(self.holds_at(k, j));
                            self.lemma_position(k, j);
                            before.lemma_position(k, j);
                        } else if self@.contains_key(k) {
                            let j = self.position(k)->0;
                            assert(self.holds_at(k, j));
                            assert(before.holds_at(k, j));
                        }
                    }
                    assert(self@ =~= target);
                }
            },
            None => {
                self.slots.push(Slot { id, entry });
                proof {
                    let n = before.slots.len() as int;
                    let target = before@.insert(key, value);
                    assert forall|k: Seq<char>|
                        #![trigger self@.dom().contains(k)]
                        #![trigger target.dom().contains(k)]
                        self@.dom().contains(k) == target.dom().contains(k) && (self@.dom().contains(
                            k,
                        ) ==> self@[k] == target[k]) by {
                        if before@.contains_key(k) || k == key {
                            let j = if k == key { n } else { before.position(k)->0 };
                            assert(k != key ==> before.holds_at(k, j));
                            assert(self.holds_at(k, j));
                            self.lemma_position(k, j);
                            if k != key {
                                before.lemma_position(k, j);
                            }
                        } else if self@.contains_key(k) {
                            let j = self.position(k)->0;
                            assert(self.holds_at(k, j));
                            assert(before.holds_at(k, j));
                        }
                    }
                    assert(self@ =~= target);
                }
            },
        }
    }

    /// Records that `f` was exported to the local file `filename`.
    pub fn update(&mut self, f: &File, filename: String)
        requires
            old(self).wf(),
        ensures
            final(self).wf(),
            final(self)@ == old(self)@.insert(f.id@, downloaded_entry(f@, filename@)),
    {
        let entry = FileMapEntry {
            name: f.name.clone(),
            modified_time: f.modified_time.clone(),
            state: State::Downloaded,
            filename: Some(filename),
        };
        self.put(f.id.clone(), entry);
    }

    /// Records that `f` is too large to export; its entry names no file.
    pub fn mark_as_large(&mut self, f: File)
        requires
            old(self).wf(),
        ensures
            final(self).wf(),
            final(self)@ == old(self)@.insert(f.id@, too_large_entry(f@)),
    {
        let entry = FileMapEntry {
            name: f.name,
            modified_time: f.modified_time,
            state: State::TooLarge,
            filename: None,
        };
        self.put(f.id, entry);
    }

    /// The ids of all entries, each once.
    pub fn ids(&self) -> (r: Vec<String>)
        requires
            self.wf(),
        ensures
            forall|i: int, j: int| 0 <= i < j < r.len() ==> r[i]@ != r[j]@,
            forall|i: int| 0 <= i < r.len() ==> self@.contains_key(#[trigger] r[i]@),
            forall|id: Seq<char>|
                self@.contains_key(id) ==> exists|i: int| 0 <= i < r.len() && r[i]@ == id,
    {
        let mut r: Vec<String> = Vec::new();
        let mut i: usize = 0;
        while i < self.slots.len()
            invariant
                self.wf(),
                i <= self.slots.len(),
                r.len() == i,
                forall|j: int| 0 <= j < i ==> r[j]@ == self.slots[j].id@,
            decreases self.slots.len() - i,
        {
            r.push(self.slots[i].id.clone());
            i += 1;
        }
        proof {
            assert forall|j: int| 0 <= j < r.len() implies self@.contains_key(#[trigger] r[j]@) by {
                assert(self.holds_at(r[j]@, j));
                self.lemma_position(r[j]@, j);
            }
            assert forall|id: Seq<char>| self@.contains_key(id) implies exists|j: int|
                0 <= j < r.len() && r[j]@ == id by {
                let j = self.position(id)->0;
                assert(self.holds_at(id, j));
                assert(r[j]@ == id);
            }
        }
        r
    }
}

} // verus!
