//! The blame engine: per-line authorship of a file, joining the commit that
//! last touched each line with that commit's attribution record.
use vstd::prelude::*;
use crate::model::{ContributorKind, LineAttribution};
use crate::notes::{NotesRepository, RecordView};

verus! {

/// The answer for one line of a file.
pub struct BlameLine {
    /// 1-indexed line number.
    pub line: u64,
    pub kind: ContributorKind,
    pub tool: Option<String>,
    pub session: Option<String>,
    pub prompt_ref: Option<String>,
    /// The commit that last touched the line.
    pub commit: String,
}

/// The last entry of `entries` that covers line `line` of `path`.
pub open spec fn entry_at(entries: Seq<LineAttribution>, path: Seq<char>, line: int) -> Option<
    LineAttribution,
>
    decreases entries.len(),
{
    if entries.len() == 0 {
        None
    } else if entries.last().covers(path, line) {
        Some(entries.last())
    } else {
        entry_at(entries.drop_last(), path, line)
    }
}

/// The entry that attributes line `line` of `path` in the record of `commit`.
pub open spec fn attribution_of(
    notes: Map<Seq<char>, RecordView>,
    commit: Seq<char>,
    path: Seq<char>,
    line: int,
) -> Option<LineAttribution> {
    if notes.contains_key(commit) {
        entry_at(notes[commit].1, path, line)
    } else {
        None
    }
}

/// `b` reports entry `a`, or a human author when there is none.
pub open spec fn reports(b: BlameLine, a: Option<LineAttribution>) -> bool {
    match a {
        Some(e) => {
            &&& b.kind == e.kind
            &&& b.tool is Some && b.tool->0@ == e.tool@
            &&& b.session is Some && b.session->0@ == e.session@
            &&& b.prompt_ref is Some && b.prompt_ref->0@ == e.prompt_ref@
        },
        None => {
            &&& b.kind == ContributorKind::Human
            &&& b.tool is None
            &&& b.session is None
            &&& b.prompt_ref is None
        },
    }
}

/// Index of the last entry that covers line `line` of `path`.
pub fn find_entry(entries: &Vec<LineAttribution>, path: &String, line: u64) -> (r: Option<usize>)
    ensures
        r is None ==> entry_at(entries@, path@, line as int) is None,
        r is Some ==> r->0 < entries@.len() && entry_at(entries@, path@, line as int) == Some(
            entries@[r->0 as int],
        ),
{
    let mut i: usize = entries.len();
    assert(entries@.subrange(0, i as int) =~= entries@);
    while i > 0
        invariant
            i <= entries@.len(),
            entry_at(entries@, path@, line as int) == entry_at(
                entries@.subrange(0, i as int),
                path@,
                line as int,
            ),
        decreases i,
    {
        let e = &entries[i - 1];
        let ghost s = entries@.subrange(0, i as int);
        assert(s.last() == entries@[i - 1]);
        assert(s.drop_last() =~= entries@.subrange(0, i - 1));
        if e.path == *path && e.start <= line && line < e.end {
            return Some(i - 1);
        }
        i = i - 1;
    }
    None
}

/// Blames each line of `path`, where `line_commits[n]` is the commit that
/// last touched line `n + 1`.
pub fn blame(path: &String, line_commits: &Vec<String>, notes: &NotesRepository) -> (r: Vec<
    BlameLine,
>)
    requires
        line_commits@.len() < u64::MAX,
    ensures
        r@.len() == line_commits@.len(),
        forall|n: int|
            0 <= n < r@.len() ==> (#[trigger] r@[n]).line == n + 1 && r@[n].commit@
                == line_commits@[n]@ && reports(
                r@[n],
                attribution_of(notes@, line_commits@[n]@, path@, n + 1),
            ),
{
    let mut out: Vec<BlameLine> = Vec::new();
    let mut n: usize = 0;
    while n < line_commits.len()
        invariant
            n <= line_commits@.len(),
            line_commits@.len() < u64::MAX,
            out@.len() == n,
            forall|m: int|
                0 <= m < n ==> (#[trigger] out@[m]).line == m + 1 && out@[m].commit@
                    == line_commits@[m]@ && reports(
                    out@[m],
                    attribution_of(notes@, line_commits@[m]@, path@, m + 1),
                ),
        decreases line_commits@.len() - n,
    {
        let line = (n + 1) as u64;
        let commit = &line_commits[n];
        let b = match notes.read(commit) {
            None => BlameLine {
                line,
                kind: ContributorKind::Human,
                tool: None,
                session: None,
                prompt_ref: None,
                commit: commit.clone(),
            },
            Some(rec) => match find_entry(&rec.entries, path, line) {
                None => BlameLine {
                    line,
                    kind: ContributorKind::Human,
                    tool: None,
                    session: None,
                    prompt_ref: None,
                    commit: commit.clone(),
                },
                Some(k) => {
                    let e = &rec.entries[k];
                    BlameLine {
                        line,
                        kind: e.kind,
                        tool: Some(e.tool.clone()),
                        session: Some(e.session.clone()),
                        prompt_ref: Some(e.prompt_ref.clone()),
                        commit: commit.clone(),
                    }
                },
            },
        };
        out.push(b);
        n = n + 1;
    }
    out
}

} // verus!
