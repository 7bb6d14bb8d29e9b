//! The notes repository: at most one attribution record per commit.
use vstd::prelude::*;
use crate::model::{AttributionRecord, LineAttribution};

verus! {

/// The view of one stored record: its commit and its entries.
pub type RecordView = (Seq<char>, Seq<LineAttribution>);

/// Why a notes operation failed.
#[derive(Debug, PartialEq, Eq, Structural, Clone, Copy)]
pub enum NotesError {
    /// The source commit of a copy has no record.
    MissingRecord,
}

/// Records keyed by commit identity; a later note for a key supersedes an
/// earlier one.
pub struct NotesRepository {
    notes: Vec<(String, AttributionRecord)>,
}

/// The record stored under `c`: the last note whose key is `c`.
pub open spec fn lookup(s: Seq<(String, AttributionRecord)>, c: Seq<char>) -> Option<RecordView>
    decreases s.len(),
{
    if s.len() == 0 {
        None
    } else if s.last().0@ == c {
        Some(s.last().1@)
    } else {
        lookup(s.drop_last(), c)
    }
}

proof fn lemma_lookup_last_match(s: Seq<(String, AttributionRecord)>, c: Seq<char>, i: int)
    requires
        0 <= i < s.len(),
        s[i].0@ == c,
        forall|j: int| i < j < s.len() ==> s[j].0@ != c,
    ensures
        lookup(s, c) == Some(s[i].1@),
    decreases s.len(),
{
    if i < s.len() - 1 {
        lemma_lookup_last_match(s.drop_last(), c, i);
    }
}

proof fn lemma_lookup_none(s: Seq<(String, AttributionRecord)>, c: Seq<char>)
    requires
        forall|j: int| 0 <= j < s.len() ==> s[j].0@ != c,
    ensures
        lookup(s, c) is None,
    decreases s.len(),
{
    if s.len() > 0 {
        lemma_lookup_none(s.drop_last(), c);
    }
}

proof fn lemma_lookup_update(
    s: Seq<(String, AttributionRecord)>,
    i: int,
    x: (String, AttributionRecord),
    k: Seq<char>,
)
    requires
        0 <= i < s.len(),
        s[i].0@ == x.0@,
        forall|j: int| i < j < s.len() ==> s[j].0@ != x.0@,
    ensures
        lookup(s.update(i, x), k) == if k == x.0@ {
            Some(x.1@)
        } else {
            lookup(s, k)
        },
    decreases s.len(),
{
    let t = s.update(i, x);
    if i == s.len() - 1 {
        assert(t.drop_last() =~= s.drop_last());
    } else {
        assert(t.drop_last() =~= s.drop_last().update(i, x));
        lemma_lookup_update(s.drop_last(), i, x, k);
    }
}

/// Writing a record and reading it back yields the record written, and
/// leaves every other commit's record as it was.
pub proof fn write_then_read_law(m: Map<Seq<char>, RecordView>, c: Seq<char>, rec: RecordView)
    ensures
        m.insert(c, rec).contains_key(c),
        m.insert(c, rec)[c] == rec,
        forall|d: Seq<char>| d != c ==> m.insert(c, rec).contains_key(d) == m.contains_key(d)
            && (m.contains_key(d) ==> m.insert(c, rec)[d] == m[d]),
{
}

impl View for NotesRepository {
    type V = Map<Seq<char>, RecordView>;

    closed spec fn view(&self) -> Map<Seq<char>, RecordView> {
        Map::new(|c: Seq<char>| lookup(self.notes@, c) is Some, |c: Seq<char>| lookup(self.notes@, c)->0)
    }
}

impl NotesRepository {
    pub fn new() -> (r: Self)
        ensures
            r@ == Map::<Seq<char>, RecordView>::empty(),
    {
        let r = NotesRepository { notes: Vec::new() };
        assert(r@ =~= Map::<Seq<char>, RecordView>::empty());
        r
    }

    /// Index of the last note keyed by `commit`.
    fn position(&self, commit: &String) -> (r: Option<usize>)
        ensures
            r is Some ==> lookup(self.notes@, commit@) == Some(self.notes@[r->0 as int].1@)
                && r->0 < self.notes@.len() && self.notes@[r->0 as int].0@ == commit@
                && forall|j: int| r->0 < j < self.notes@.len() ==> self.notes@[j].0@ != commit@,
            r is None ==> lookup(self.notes@, commit@) is None,
    {
        let mut i: usize = self.notes.len();
        while i > 0
            invariant
                i <= self.notes@.len(),
                forall|j: int| i <= j < self.notes@.len() ==> self.notes@[j].0@ != commit@,
            decreases i,
        {
            if self.notes[i - 1].0 == *commit {
                proof {
                    lemma_lookup_last_match(self.notes@, commit@, i - 1);
                }
                return Some(i - 1);
            }
            i = i - 1;
        }
        proof {
            lemma_lookup_none(self.notes@, commit@);
        }
        None
    }

    pub fn has_record(&self, commit: &String) -> (r: bool)
        ensures
            r == self@.contains_key(commit@),
    {
        self.position(commit).is_some()
    }

    pub fn read(&self, commit: &String) -> (r: Option<AttributionRecord>)
        ensures
            r is Some == self@.contains_key(commit@),
            r is Some ==> r->0@ == self@[commit@],
    {
        match self.position(commit) {
            Some(i) => Some(self.notes[i].1.duplicate()),
            None => None,
        }
    }

    /// Stores `record` under `commit`, replacing any record it had.
    pub fn write(&mut self, commit: &String, record: AttributionRecord)
        ensures
            final(self)@ == old(self)@.insert(commit@, record@),
    {
        let x = (commit.clone(), record);
        let ghost old_notes = self.notes@;
        match self.position(commit) {
            Some(i) => {
                self.notes.set(i, x);
                proof {
                    assert forall|k: Seq<char>| #[trigger] lookup(self.notes@, k) == if k == x.0@ {
                        Some(x.1@)
                    } else {
                        lookup(old_notes, k)
                    } by {
                        lemma_lookup_update(old_notes, i as int, x, k);
                    }
                }
            },
            None => {
                self.notes.push(x);
                assert(self.notes@.drop_last() =~= old_notes);
            },
        }
        assert(self@ =~= old(self)@.insert(commit@, record@));
    }

    /// Stores under `target` a copy of the record of `source`, addressed to
    /// `target`, with the same entries; fails, changing nothing, when
    /// `source` has no record.
    pub fn copy(&mut self, source: &String, target: &String) -> (r: Result<(), NotesError>)
        ensures
            r is Err <==> !old(self)@.contains_key(source@),
            r is Err ==> r == Err::<(), NotesError>(NotesError::MissingRecord) && final(self)@
                == old(self)@,
            r is Ok ==> final(self)@ == old(self)@.insert(
                target@,
                (target@, old(self)@[source@].1),
            ),
    {
        match self.read(source) {
            None => Err(NotesError::MissingRecord),
            Some(rec) => {
                let copied = AttributionRecord { commit: target.clone(), entries: rec.entries };
                self.write(target, copied);
                Ok(())
            },
        }
    }
}

} // verus!
