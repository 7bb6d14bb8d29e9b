//! The finalizer: turns the pending capture events into the attribution
//! record of a new commit, keeping only lines that the commit changed.
use vstd::prelude::*;
use crate::model::{AttributionRecord, CaptureEvent, ContributorKind, LineAttribution};
use crate::notes::NotesRepository;
use crate::staging::StagingStore;

verus! {

/// The lines of one file that a commit changed, in increasing order.
/// A file that a commit adds, or a commit without parent, lists every line.
pub struct ChangedLines {
    pub path: String,
    pub lines: Vec<u64>,
}

/// Each file is listed once, its lines strictly increase and each line
/// number has a successor.
pub open spec fn changes_wf(changes: Seq<ChangedLines>) -> bool {
    &&& forall|f: int, g: int|
        0 <= f < g < changes.len() ==> #[trigger] changes[f].path@ != #[trigger] changes[g].path@
    &&& forall|f: int, p: int, q: int|
        0 <= f < changes.len() && 0 <= p < q < changes[f].lines@.len()
            ==> #[trigger] changes[f].lines@[p] < #[trigger] changes[f].lines@[q]
    &&& forall|f: int, p: int|
        0 <= f < changes.len() && 0 <= p < changes[f].lines@.len()
            ==> #[trigger] changes[f].lines@[p] < u64::MAX
}

/// Whether the commit changed line `line` of file `path`.
pub open spec fn is_changed(changes: Seq<ChangedLines>, path: Seq<char>, line: int) -> bool {
    exists|f: int, p: int|
        0 <= f < changes.len() && 0 <= p < changes[f].lines@.len() && changes[f].path@ == path
            && #[trigger] changes[f].lines@[p] == line
}

/// Event `i` is the last writer of line `line` of `path`: it covers the line,
/// and every other event that covers it is older, or as old and appended
/// earlier.
pub open spec fn wins(events: Seq<CaptureEvent>, i: int, path: Seq<char>, line: int) -> bool {
    &&& 0 <= i < events.len()
    &&& events[i].covers(path, line)
    &&& forall|j: int|
        0 <= j < events.len() && #[trigger] events[j].covers(path, line) ==> events[j].timestamp
            < events[i].timestamp || (events[j].timestamp == events[i].timestamp && j <= i)
}

/// Some event covers line `line` of `path`.
pub open spec fn attributed(events: Seq<CaptureEvent>, path: Seq<char>, line: int) -> bool {
    exists|i: int| 0 <= i < events.len() && #[trigger] events[i].covers(path, line)
}

/// `e` carries the AI authorship of event `ev`.
pub open spec fn carries(e: LineAttribution, ev: CaptureEvent) -> bool {
    &&& e.kind == ContributorKind::Ai
    &&& e.tool@ == ev.tool@
    &&& e.session@ == ev.session@
    &&& e.prompt_ref@ == ev.prompt_ref@
}

/// Line `line` of entry `e` is changed, and `e` carries its last writer.
pub open spec fn line_justified(
    events: Seq<CaptureEvent>,
    changes: Seq<ChangedLines>,
    e: LineAttribution,
    line: int,
) -> bool {
    &&& is_changed(changes, e.path@, line)
    &&& exists|i: int| #[trigger] wins(events, i, e.path@, line) && carries(e, events[i])
}

/// Some entry covers line `line` of `path`.
pub open spec fn covered(entries: Seq<LineAttribution>, path: Seq<char>, line: int) -> bool {
    exists|k: int| 0 <= k < entries.len() && #[trigger] entries[k].covers(path, line)
}

/// Entries are non-empty; entries of one file do not overlap and come in
/// line order; two consecutive entries that touch differ in authorship.
pub open spec fn entries_disjoint(entries: Seq<LineAttribution>) -> bool {
    &&& forall|k: int| 0 <= k < entries.len() ==> #[trigger] entries[k].start < entries[k].end
    &&& forall|k1: int, k2: int|
        0 <= k1 < k2 < entries.len() && #[trigger] entries[k1].path@ == #[trigger] entries[k2].path@
            ==> entries[k1].end <= entries[k2].start
    &&& forall|k: int|
        0 <= k < entries.len() - 1 && #[trigger] entries[k].path@ == entries[k + 1].path@
            && entries[k].end == entries[k + 1].start ==> !entries[k].same_author(&entries[k + 1])
}

/// `entries` is the resolution of `events` against `changes`: exactly the
/// changed lines that some event covers are attributed, each to its last
/// writer, in minimal contiguous ranges.
pub open spec fn resolves(
    events: Seq<CaptureEvent>,
    changes: Seq<ChangedLines>,
    entries: Seq<LineAttribution>,
) -> bool {
    &&& entries_disjoint(entries)
    &&& forall|k: int, line: int|
        0 <= k < entries.len() && entries[k].start <= line < entries[k].end ==> #[trigger] line_justified(
            events,
            changes,
            entries[k],
            line,
        )
    &&& forall|path: Seq<char>, line: int|
        is_changed(changes, path, line) && attributed(events, path, line) ==> #[trigger] covered(
            entries,
            path,
            line,
        )
}

/// The last writer of line `line` of `path`, if any event covers it.
pub fn last_writer(events: &Vec<CaptureEvent>, path: &String, line: u64) -> (r: Option<usize>)
    ensures
        r is Some ==> wins(events@, r->0 as int, path@, line as int),
        r is None ==> !attributed(events@, path@, line as int),
{
    let mut best: Option<usize> = None;
    let mut j: usize = 0;
    while j < events.len()
        invariant
            j <= events@.len(),
            best is Some ==> best->0 < j && events@[best->0 as int].covers(path@, line as int),
            best is Some ==> forall|k: int|
                0 <= k < j && #[trigger] events@[k].covers(path@, line as int)
                    ==> events@[k].timestamp <= events@[best->0 as int].timestamp,
            best is Some ==> forall|k: int|
                best->0 < k < j && #[trigger] events@[k].covers(path@, line as int)
                    ==> events@[k].timestamp < events@[best->0 as int].timestamp,
            best is None ==> forall|k: int|
                0 <= k < j ==> !#[trigger] events@[k].covers(path@, line as int),
        decreases events@.len() - j,
    {
        let e = &events[j];
        if e.path == *path && e.start <= line && line < e.end {
            let take = match best {
                None => true,
                Some(b) => events[b].timestamp <= e.timestamp,
            };
            if take {
                best = Some(j);
            }
        }
        j = j + 1;
    }
    best
}

proof fn lemma_covered_push(entries: Seq<LineAttribution>, x: LineAttribution)
    ensures
        forall|path: Seq<char>, line: int|
            covered(entries, path, line) ==> #[trigger] covered(entries.push(x), path, line),
{
    assert forall|path: Seq<char>, line: int|
        covered(entries, path, line) implies #[trigger] covered(entries.push(x), path, line) by {
        let k = choose|k: int| 0 <= k < entries.len() && #[trigger] entries[k].covers(path, line);
        assert(entries.push(x)[k] == entries[k]);
    }
}

proof fn lemma_covered_grow(entries: Seq<LineAttribution>, x: LineAttribution)
    requires
        entries.len() > 0,
        x.path@ == entries.last().path@,
        x.start == entries.last().start,
        x.end >= entries.last().end,
    ensures
        forall|path: Seq<char>, line: int|
            covered(entries, path, line) ==> #[trigger] covered(
                entries.drop_last().push(x),
                path,
                line,
            ),
{
    let t = entries.drop_last().push(x);
    assert forall|path: Seq<char>, line: int|
        covered(entries, path, line) implies #[trigger] covered(t, path, line) by {
        let k = choose|k: int| 0 <= k < entries.len() && #[trigger] entries[k].covers(path, line);
        if k < entries.len() - 1 {
            assert(t[k] == entries[k]);
        } else {
            assert(t[k].covers(path, line));
        }
    }
}

/// Resolves `events` against the lines that the commit changed.
pub fn resolve_entries(events: &Vec<CaptureEvent>, changes: &Vec<ChangedLines>) -> (r: Vec<
    LineAttribution,
>)
    requires
        changes_wf(changes@),
    ensures
        resolves(events@, changes@, r@),
{
    let mut out: Vec<LineAttribution> = Vec::new();
    let mut f: usize = 0;
    while f < changes.len()
        invariant
            changes_wf(changes@),
            f <= changes@.len(),
            entries_disjoint(out@),
            forall|k: int, line: int|
                0 <= k < out@.len() && out@[k].start <= line < out@[k].end ==> #[trigger] line_justified(
                    events@,
                    changes@,
                    out@[k],
                    line,
                ),
            forall|k: int, g: int|
                0 <= k < out@.len() && f <= g < changes@.len() ==> #[trigger] out@[k].path@
                    != #[trigger] changes@[g].path@,
            forall|g: int, p: int|
                0 <= g < f && 0 <= p < changes@[g].lines@.len() && attributed(
                    events@,
                    changes@[g].path@,
                    #[trigger] changes@[g].lines@[p] as int,
                ) ==> covered(out@, changes@[g].path@, changes@[g].lines@[p] as int),
        decreases changes@.len() - f,
    {
        let fc = &changes[f];
        let mut p: usize = 0;
        while p < fc.lines.len()
            invariant
                changes_wf(changes@),
                f < changes@.len(),
                *fc == changes@[f as int],
                p <= fc.lines@.len(),
                entries_disjoint(out@),
                forall|k: int, line: int|
                    0 <= k < out@.len() && out@[k].start <= line < out@[k].end ==> #[trigger] line_justified(
                        events@,
                        changes@,
                        out@[k],
                        line,
                    ),
                forall|k: int, g: int|
                    0 <= k < out@.len() && f < g < changes@.len() ==> #[trigger] out@[k].path@
                        != #[trigger] changes@[g].path@,
                forall|k: int, q: int|
                    0 <= k < out@.len() && p <= q < fc.lines@.len() && #[trigger] out@[k].path@
                        == fc.path@ ==> out@[k].end <= #[trigger] fc.lines@[q],
                forall|g: int, q: int|
                    ((0 <= g < f && 0 <= q < changes@[g].lines@.len()) || (g == f && 0 <= q < p))
                        && attributed(
                        events@,
                        changes@[g].path@,
                        #[trigger] changes@[g].lines@[q] as int,
                    ) ==> covered(out@, changes@[g].path@, changes@[g].lines@[q] as int),
            decreases fc.lines@.len() - p,
        {
            let line = fc.lines[p];
            assert(is_changed(changes@, fc.path@, line as int)) by {
                assert(changes@[f as int].lines@[p as int] == line);
            }
            match last_writer(events, &fc.path, line) {
                None => {},
                Some(i) => {
                    let ev = &events[i];
                    let n = out.len();
                    let extend = n > 0 && out[n - 1].path == fc.path && out[n - 1].end == line
                        && out[n - 1].kind == ContributorKind::Ai && out[n - 1].tool == ev.tool
                        && out[n - 1].session == ev.session && out[n - 1].prompt_ref
                        == ev.prompt_ref;
                    let ghost before = out@;
                    if extend {
                        let mut last = out.pop().unwrap();
                        assert(before.drop_last() == out@);
                        let ghost prev = last;
                        last.end = line + 1;
                        out.push(last);
                        proof {
                            lemma_covered_grow(before, last);
                            assert forall|k: int, l: int|
                                0 <= k < out@.len() && out@[k].start <= l
                                    < out@[k].end implies #[trigger] line_justified(
                                events@,
                                changes@,
                                out@[k],
                                l,
                            ) by {
                                if k == n - 1 {
                                    if l < line {
                                        assert(line_justified(events@, changes@, prev, l));
                                        let w = choose|w: int|
                                            #[trigger] wins(events@, w, prev.path@, l) && carries(
                                                prev,
                                                events@[w],
                                            );
                                        assert(wins(events@, w, last.path@, l) && carries(
                                            last,
                                            events@[w],
                                        ));
                                    } else {
                                        assert(wins(events@, i as int, last.path@, l) && carries(
                                            last,
                                            events@[i as int],
                                        ));
                                    }
                                } else {
                                    assert(out@[k] == before[k]);
                                }
                            }
                            assert forall|k: int| 0 <= k < out@.len() - 1 && #[trigger] out@[k].path@
                                == out@[k + 1].path@ && out@[k].end
                                == out@[k + 1].start implies !out@[k].same_author(&out@[k + 1]) by {
                                assert(out@[k] == before[k]);
                                if k + 1 < n - 1 {
                                    assert(out@[k + 1] == before[k + 1]);
                                } else {
                                    assert(out@[k + 1].start == before[k + 1].start);
                                    assert(out@[k + 1].same_author(&before[k + 1]));
                                }
                            }
                            assert forall|k1: int, k2: int|
                                0 <= k1 < k2 < out@.len() && #[trigger] out@[k1].path@
                                    == #[trigger] out@[k2].path@ implies out@[k1].end
                                <= out@[k2].start by {
                                assert(out@[k1] == before[k1]);
                                if k2 < n - 1 {
                                    assert(out@[k2] == before[k2]);
                                }
                            }
                            assert forall|k: int, q: int|
                                0 <= k < out@.len() && p + 1 <= q < fc.lines@.len()
                                    && #[trigger] out@[k].path@ == fc.path@ implies out@[k].end
                                <= #[trigger] fc.lines@[q] by {
                                if k < n - 1 {
                                    assert(out@[k] == before[k]);
                                }
                                assert(fc.lines@[p as int] < fc.lines@[q]);
                            }
                            assert forall|k: int, g: int|
                                0 <= k < out@.len() && f < g < changes@.len() implies #[trigger] out@[k].path@
                                != #[trigger] changes@[g].path@ by {
                                if k < n - 1 {
                                    assert(out@[k] == before[k]);
                                }
                            }
                        }
                    } else {
                        let entry = LineAttribution {
                            path: fc.path.clone(),
                            start: line,
                            end: line + 1,
                            kind: ContributorKind::Ai,
                            tool: ev.tool.clone(),
                            session: ev.session.clone(),
                            prompt_ref: ev.prompt_ref.clone(),
                        };
                        out.push(entry);
                        proof {
                            lemma_covered_push(before, entry);
                            assert forall|k: int, l: int|
                                0 <= k < out@.len() && out@[k].start <= l
                                    < out@[k].end implies #[trigger] line_justified(
                                events@,
                                changes@,
                                out@[k],
                                l,
                            ) by {
                                if k == n {
                                    assert(wins(events@, i as int, entry.path@, l) && carries(
                                        entry,
                                        events@[i as int],
                                    ));
                                } else {
                                    assert(out@[k] == before[k]);
                                }
                            }
                            assert forall|k: int| 0 <= k < out@.len() - 1 && #[trigger] out@[k].path@
                                == out@[k + 1].path@ && out@[k].end
                                == out@[k + 1].start implies !out@[k].same_author(&out@[k + 1]) by {
                                assert(out@[k] == before[k]);
                                if k + 1 < n {
                                    assert(out@[k + 1] == before[k + 1]);
                                }
                            }
                            assert forall|k1: int, k2: int|
                                0 <= k1 < k2 < out@.len() && #[trigger] out@[k1].path@
                                    == #[trigger] out@[k2].path@ implies out@[k1].end
                                <= out@[k2].start by {
                                assert(out@[k1] == before[k1]);
                                if k2 < n {
                                    assert(out@[k2] == before[k2]);
                                } else {
                                    assert(before[k1].end <= fc.lines@[p as int]);
                                }
                            }
                            assert forall|k: int, q: int|
                                0 <= k < out@.len() && p + 1 <= q < fc.lines@.len()
                                    && #[trigger] out@[k].path@ == fc.path@ implies out@[k].end
                                <= #[trigger] fc.lines@[q] by {
                                if k < n {
                                    assert(out@[k] == before[k]);
                                }
                                assert(fc.lines@[p as int] < fc.lines@[q]);
                            }
                            assert forall|k: int, g: int|
                                0 <= k < out@.len() && f < g < changes@.len() implies #[trigger] out@[k].path@
                                != #[trigger] changes@[g].path@ by {
                                if k < n {
                                    assert(out@[k] == before[k]);
                                }
                            }
                        }
                    }
                    assert(covered(out@, fc.path@, line as int)) by {
                        assert(out@[out@.len() - 1].covers(fc.path@, line as int));
                    }
                },
            }
            p = p + 1;
        }
        f = f + 1;
    }
    proof {
        assert forall|path: Seq<char>, line: int|
            is_changed(changes@, path, line) && attributed(events@, path, line) implies #[trigger] covered(
            out@,
            path,
            line,
        ) by {
            let (g, q) = choose|g: int, q: int|
                0 <= g < changes@.len() && 0 <= q < changes@[g].lines@.len() && changes@[g].path@
                    == path && #[trigger] changes@[g].lines@[q] == line;
            assert(attributed(events@, changes@[g].path@, changes@[g].lines@[q] as int));
        }
    }
    out
}

/// The record of commit `commit` for the drained `events`; none when no
/// event was captured.
pub fn finalize(commit: &String, events: &Vec<CaptureEvent>, changes: &Vec<ChangedLines>) -> (r:
    Option<AttributionRecord>)
    requires
        changes_wf(changes@),
    ensures
        r is None <==> events@.len() == 0,
        r is Some ==> r->0.commit@ == commit@ && resolves(events@, changes@, r->0.entries@),
{
    if events.len() == 0 {
        None
    } else {
        Some(AttributionRecord { commit: commit.clone(), entries: resolve_entries(events, changes) })
    }
}

/// Drains `staging` and stores the record of `commit` in `notes`. Without
/// captured events nothing is written and `false` is returned.
pub fn finalize_commit(
    staging: &mut StagingStore,
    notes: &mut NotesRepository,
    commit: &String,
    changes: &Vec<ChangedLines>,
) -> (r: bool)
    requires
        changes_wf(changes@),
    ensures
        final(staging)@.len() == 0,
        r == (old(staging)@.len() > 0),
        !r ==> final(notes)@ == old(notes)@,
        r ==> exists|entries: Seq<LineAttribution>|
            #[trigger] resolves(old(staging)@, changes@, entries) && final(notes)@ == old(
                notes,
            )@.insert(commit@, (commit@, entries)),
{
    let events = staging.drain_all();
    match finalize(commit, &events, changes) {
        None => false,
        Some(record) => {
            let ghost entries = record.entries@;
            notes.write(commit, record);
            assert(resolves(events@, changes@, entries));
            true
        },
    }
}

} // verus!
