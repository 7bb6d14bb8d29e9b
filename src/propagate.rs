//! The rewrite propagator: carries a record from an old commit to its
//! rewritten counterpart through the lines that the rewrite left unchanged.
use vstd::prelude::*;
use crate::model::{AttributionRecord, LineAttribution};
use crate::notes::{NotesError, NotesRepository};

verus! {

/// Lines `[old_start, old_start + len)` of `path` in the old commit appear
/// unchanged as `[new_start, new_start + len)` in the new commit.
pub struct UnchangedBlock {
    pub path: String,
    pub old_start: u64,
    pub new_start: u64,
    pub len: u64,
}

/// Both sides of every block fit in `u64` line numbers.
pub open spec fn blocks_wf(blocks: Seq<UnchangedBlock>) -> bool {
    forall|b: int|
        0 <= b < blocks.len() ==> #[trigger] blocks[b].old_start + blocks[b].len <= u64::MAX
            && blocks[b].new_start + blocks[b].len <= u64::MAX
}

/// The part of entry `e` that lies in block `b`, moved to the new line
/// numbers; none when they share no line.
pub open spec fn remap_one(e: LineAttribution, b: UnchangedBlock) -> Option<LineAttribution> {
    let lo: int = if e.start >= b.old_start {
        e.start as int
    } else {
        b.old_start as int
    };
    let hi: int = if e.end <= b.old_start + b.len {
        e.end as int
    } else {
        b.old_start + b.len
    };
    if e.path@ == b.path@ && lo < hi {
        Some(
            LineAttribution {
                start: (lo - b.old_start + b.new_start) as u64,
                end: (hi - b.old_start + b.new_start) as u64,
                ..e
            },
        )
    } else {
        None
    }
}

/// The parts of `e` that survive in the blocks, in block order.
pub open spec fn remap_entry(e: LineAttribution, blocks: Seq<UnchangedBlock>) -> Seq<
    LineAttribution,
>
    decreases blocks.len(),
{
    if blocks.len() == 0 {
        Seq::empty()
    } else {
        let rest = remap_entry(e, blocks.drop_last());
        match remap_one(e, blocks.last()) {
            Some(x) => rest.push(x),
            None => rest,
        }
    }
}

/// The surviving parts of all entries, in entry order.
pub open spec fn remap_all(entries: Seq<LineAttribution>, blocks: Seq<UnchangedBlock>) -> Seq<
    LineAttribution,
>
    decreases entries.len(),
{
    if entries.len() == 0 {
        Seq::empty()
    } else {
        remap_all(entries.drop_last(), blocks) + remap_entry(entries.last(), blocks)
    }
}

/// Line `line` of `x` is an unchanged line of some block whose old line
/// lies in entry `e`, with the same file and authorship.
pub open spec fn carried_by(
    x: LineAttribution,
    line: int,
    e: LineAttribution,
    blocks: Seq<UnchangedBlock>,
) -> bool {
    exists|b: int|
        0 <= b < blocks.len() && #[trigger] blocks[b].path@ == x.path@ && e.path@ == x.path@
            && x.same_author(&e) && blocks[b].new_start <= line < blocks[b].new_start + blocks[b].len
            && e.start <= line - blocks[b].new_start + blocks[b].old_start < e.end
}

proof fn lemma_remap_entry_sound(e: LineAttribution, blocks: Seq<UnchangedBlock>, k: int, line: int)
    requires
        blocks_wf(blocks),
        0 <= k < remap_entry(e, blocks).len(),
        remap_entry(e, blocks)[k].start <= line < remap_entry(e, blocks)[k].end,
    ensures
        carried_by(remap_entry(e, blocks)[k], line, e, blocks),
    decreases blocks.len(),
{
    let rest = remap_entry(e, blocks.drop_last());
    let x = remap_entry(e, blocks)[k];
    assert(blocks_wf(blocks.drop_last())) by {
        assert forall|b: int| 0 <= b < blocks.drop_last().len() implies #[trigger] blocks.drop_last()[b].old_start
            + blocks.drop_last()[b].len <= u64::MAX && blocks.drop_last()[b].new_start
            + blocks.drop_last()[b].len <= u64::MAX by {
            assert(blocks.drop_last()[b] == blocks[b]);
        }
    }
    if k < rest.len() {
        assert(x == rest[k]);
        lemma_remap_entry_sound(e, blocks.drop_last(), k, line);
        let b = choose|b: int|
            0 <= b < blocks.drop_last().len() && #[trigger] blocks.drop_last()[b].path@ == x.path@
                && e.path@ == x.path@ && x.same_author(&e) && blocks.drop_last()[b].new_start
                <= line < blocks.drop_last()[b].new_start + blocks.drop_last()[b].len && e.start
                <= line - blocks.drop_last()[b].new_start + blocks.drop_last()[b].old_start < e.end;
        assert(blocks[b] == blocks.drop_last()[b]);
    } else {
        let b = blocks.len() - 1;
        let bl = blocks[b];
        assert(bl.old_start + bl.len <= u64::MAX && bl.new_start + bl.len <= u64::MAX);
        assert(blocks.last() == bl);
        assert(remap_one(e, bl) is Some);
        assert(x == remap_one(e, bl)->0);
        assert(blocks[b].path@ == x.path@);
    }
}

/// Propagation never over-attributes: every line that a carried record
/// attributes is an unchanged line whose old counterpart was attributed,
/// in the same file and to the same author, by the source record.
pub proof fn propagation_is_conservative(
    entries: Seq<LineAttribution>,
    blocks: Seq<UnchangedBlock>,
    k: int,
    line: int,
)
    requires
        blocks_wf(blocks),
        0 <= k < remap_all(entries, blocks).len(),
        remap_all(entries, blocks)[k].start <= line < remap_all(entries, blocks)[k].end,
    ensures
        exists|j: int|
            0 <= j < entries.len() && carried_by(
                remap_all(entries, blocks)[k],
                line,
                #[trigger] entries[j],
                blocks,
            ),
    decreases entries.len(),
{
    let prev = remap_all(entries.drop_last(), blocks);
    let x = remap_all(entries, blocks)[k];
    if k < prev.len() {
        assert(x == prev[k]);
        propagation_is_conservative(entries.drop_last(), blocks, k, line);
        let j = choose|j: int|
            0 <= j < entries.drop_last().len() && carried_by(
                prev[k],
                line,
                #[trigger] entries.drop_last()[j],
                blocks,
            );
        assert(entries[j] == entries.drop_last()[j]);
    } else {
        let j = entries.len() - 1;
        assert(entries.last() == entries[j]);
        assert(x == remap_entry(entries.last(), blocks)[k - prev.len()]);
        lemma_remap_entry_sound(entries.last(), blocks, k - prev.len(), line);
    }
}

proof fn lemma_remap_entry_has(e: LineAttribution, blocks: Seq<UnchangedBlock>, b: int)
    requires
        0 <= b < blocks.len(),
        remap_one(e, blocks[b]) is Some,
    ensures
        remap_entry(e, blocks).contains(remap_one(e, blocks[b])->0),
    decreases blocks.len(),
{
    let rest = remap_entry(e, blocks.drop_last());
    if b < blocks.len() - 1 {
        assert(blocks.drop_last()[b] == blocks[b]);
        lemma_remap_entry_has(e, blocks.drop_last(), b);
        let i = choose|i: int| 0 <= i < rest.len() && rest[i] == remap_one(e, blocks[b])->0;
        assert(remap_entry(e, blocks)[i] == rest[i]);
    } else {
        assert(blocks.last() == blocks[b]);
        assert(remap_entry(e, blocks)[rest.len() as int] == remap_one(e, blocks[b])->0);
    }
}

proof fn lemma_remap_all_has(entries: Seq<LineAttribution>, blocks: Seq<UnchangedBlock>, j: int, x: LineAttribution)
    requires
        0 <= j < entries.len(),
        remap_entry(entries[j], blocks).contains(x),
    ensures
        remap_all(entries, blocks).contains(x),
    decreases entries.len(),
{
    let prev = remap_all(entries.drop_last(), blocks);
    if j < entries.len() - 1 {
        assert(entries.drop_last()[j] == entries[j]);
        lemma_remap_all_has(entries.drop_last(), blocks, j, x);
        let i = choose|i: int| 0 <= i < prev.len() && prev[i] == x;
        assert(remap_all(entries, blocks)[i] == prev[i]);
    } else {
        assert(entries.last() == entries[j]);
        let t = remap_entry(entries[j], blocks);
        let i = choose|i: int| 0 <= i < t.len() && t[i] == x;
        assert(remap_all(entries, blocks)[prev.len() + i] == t[i]);
    }
}

/// Propagation keeps every unchanged attributed line: a line that entry
/// `j` attributes and that block `b` leaves unchanged is attributed at its
/// new position, in the same file and to the same author.
pub proof fn propagation_keeps_unchanged_lines(
    entries: Seq<LineAttribution>,
    blocks: Seq<UnchangedBlock>,
    j: int,
    b: int,
    line: int,
)
    requires
        blocks_wf(blocks),
        0 <= j < entries.len(),
        0 <= b < blocks.len(),
        entries[j].path@ == blocks[b].path@,
        entries[j].start <= line < entries[j].end,
        blocks[b].old_start <= line < blocks[b].old_start + blocks[b].len,
    ensures
        exists|k: int|
            0 <= k < remap_all(entries, blocks).len() && #[trigger] remap_all(entries, blocks)[k].covers(
                entries[j].path@,
                line - blocks[b].old_start + blocks[b].new_start,
            ) && remap_all(entries, blocks)[k].same_author(&entries[j]),
{
    let bl = blocks[b];
    assert(bl.old_start + bl.len <= u64::MAX && bl.new_start + bl.len <= u64::MAX);
    let x = remap_one(entries[j], bl)->0;
    assert(remap_one(entries[j], bl) is Some);
    lemma_remap_entry_has(entries[j], blocks, b);
    lemma_remap_all_has(entries, blocks, j, x);
    let k = choose|k: int| 0 <= k < remap_all(entries, blocks).len() && remap_all(entries, blocks)[k] == x;
    assert(remap_all(entries, blocks)[k].covers(entries[j].path@, line - bl.old_start + bl.new_start));
}

fn remap_entry_into(e: &LineAttribution, blocks: &Vec<UnchangedBlock>, out: &mut Vec<LineAttribution>)
    requires
        blocks_wf(blocks@),
    ensures
        final(out)@ == old(out)@ + remap_entry(*e, blocks@),
{
    let ghost base = out@;
    let mut i: usize = 0;
    while i < blocks.len()
        invariant
            blocks_wf(blocks@),
            i <= blocks@.len(),
            out@ == base + remap_entry(*e, blocks@.subrange(0, i as int)),
        decreases blocks@.len() - i,
    {
        let b = &blocks[i];
        let ghost pre = blocks@.subrange(0, i as int);
        let ghost next = blocks@.subrange(0, i + 1 as int);
        assert(next.drop_last() =~= pre);
        assert(next.last() == *b);
        assert(b.old_start + b.len <= u64::MAX && b.new_start + b.len <= u64::MAX);
        let lo = if e.start >= b.old_start {
            e.start
        } else {
            b.old_start
        };
        let hi = if e.end <= b.old_start + b.len {
            e.end
        } else {
            b.old_start + b.len
        };
        if e.path == b.path && lo < hi {
            let x = LineAttribution {
                path: e.path.clone(),
                start: lo - b.old_start + b.new_start,
                end: hi - b.old_start + b.new_start,
                kind: e.kind,
                tool: e.tool.clone(),
                session: e.session.clone(),
                prompt_ref: e.prompt_ref.clone(),
            };
            assert(remap_one(*e, *b) == Some(x));
            out.push(x);
        }
        i = i + 1;
    }
    assert(blocks@.subrange(0, blocks@.len() as int) =~= blocks@);
}

/// The entries of `entries` carried through `blocks`.
pub fn remap_entries(entries: &Vec<LineAttribution>, blocks: &Vec<UnchangedBlock>) -> (r: Vec<
    LineAttribution,
>)
    requires
        blocks_wf(blocks@),
    ensures
        r@ == remap_all(entries@, blocks@),
{
    let mut out: Vec<LineAttribution> = Vec::new();
    let mut i: usize = 0;
    while i < entries.len()
        invariant
            blocks_wf(blocks@),
            i <= entries@.len(),
            out@ == remap_all(entries@.subrange(0, i as int), blocks@),
        decreases entries@.len() - i,
    {
        let ghost next = entries@.subrange(0, i + 1 as int);
        assert(next.drop_last() =~= entries@.subrange(0, i as int));
        assert(next.last() == entries@[i as int]);
        remap_entry_into(&entries[i], blocks, &mut out);
        i = i + 1;
    }
    assert(entries@.subrange(0, entries@.len() as int) =~= entries@);
    out
}

/// The record of `target` carried from `record` through `blocks`.
pub fn propagate(record: &AttributionRecord, target: &String, blocks: &Vec<UnchangedBlock>) -> (r:
    AttributionRecord)
    requires
        blocks_wf(blocks@),
    ensures
        r.commit@ == target@,
        r.entries@ == remap_all(record.entries@, blocks@),
{
    AttributionRecord { commit: target.clone(), entries: remap_entries(&record.entries, blocks) }
}

/// Writes under `target` the record of `source` carried through `blocks`;
/// fails, changing nothing, when `source` has no record.
pub fn propagate_commit(
    notes: &mut NotesRepository,
    source: &String,
    target: &String,
    blocks: &Vec<UnchangedBlock>,
) -> (r: Result<(), NotesError>)
    requires
        blocks_wf(blocks@),
    ensures
        r is Err <==> !old(notes)@.contains_key(source@),
        r is Err ==> r == Err::<(), NotesError>(NotesError::MissingRecord) && final(notes)@
            == old(notes)@,
        r is Ok ==> final(notes)@ == old(notes)@.insert(
            target@,
            (target@, remap_all(old(notes)@[source@].1, blocks@)),
        ),
{
    match notes.read(source) {
        None => Err(NotesError::MissingRecord),
        Some(rec) => {
            let moved = propagate(&rec, target, blocks);
            notes.write(target, moved);
            Ok(())
        },
    }
}

} // verus!
