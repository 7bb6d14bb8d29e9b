//! The range aggregator: line totals over the records of a set of commits.
use vstd::prelude::*;
use crate::model::{ContributorKind, LineAttribution, range_len};
use crate::notes::{NotesRepository, RecordView};

verus! {

/// Line totals over a range of commits, each saturated at `u64::MAX`.
pub struct RangeSummary {
    /// Lines attributed by the records, whatever their author.
    pub total_lines: u64,
    /// Lines attributed to an AI tool.
    pub ai_lines: u64,
    /// AI lines per tool, each tool listed once.
    pub by_tool: Vec<(String, u64)>,
    /// AI lines per session, each session listed once.
    pub by_session: Vec<(String, u64)>,
}

/// `items` lists, each once, exactly the keys with positive count over
/// `cs`, with their saturated counts; with `by_session` the keys are
/// sessions, else tools.
pub open spec fn tallies_range(
    items: Seq<(String, u64)>,
    notes: Map<Seq<char>, RecordView>,
    cs: Seq<Seq<char>>,
    by_session: bool,
) -> bool {
    &&& keys_distinct(items)
    &&& forall|i: int|
        0 <= i < items.len() ==> items[i].1 == saturate(
            range_key_lines(notes, cs, #[trigger] items[i].0@, by_session),
        )
    &&& forall|key: Seq<char>| #[trigger]
        range_key_lines(notes, cs, key, by_session) > 0 ==> exists|i: int|
            0 <= i < items.len() && items[i].0@ == key
}

/// `x`, or `u64::MAX` when `x` does not fit.
pub open spec fn saturate(x: nat) -> nat {
    if x <= u64::MAX {
        x
    } else {
        u64::MAX as nat
    }
}

/// Lines that `entries` attribute; with `ai_only`, those of AI authors only.
pub open spec fn entry_lines(entries: Seq<LineAttribution>, ai_only: bool) -> nat
    decreases entries.len(),
{
    if entries.len() == 0 {
        0
    } else {
        let e = entries.last();
        entry_lines(entries.drop_last(), ai_only) + if !ai_only || e.kind == ContributorKind::Ai {
            range_len(e.start, e.end)
        } else {
            0
        }
    }
}

/// Lines attributed by the record of `c`; a commit without record has none.
pub open spec fn commit_lines(notes: Map<Seq<char>, RecordView>, c: Seq<char>, ai_only: bool) -> nat {
    if notes.contains_key(c) {
        entry_lines(notes[c].1, ai_only)
    } else {
        0
    }
}

/// Lines attributed over the commits `cs`, each distinct commit counted once.
pub open spec fn range_lines(notes: Map<Seq<char>, RecordView>, cs: Seq<Seq<char>>, ai_only: bool) -> nat
    decreases cs.len(),
{
    if cs.len() == 0 {
        0
    } else if cs.drop_last().contains(cs.last()) {
        range_lines(notes, cs.drop_last(), ai_only)
    } else {
        range_lines(notes, cs.drop_last(), ai_only) + commit_lines(notes, cs.last(), ai_only)
    }
}

/// Lines that AI entries of `entries` attribute to tool `key`, or with
/// `by_session` to session `key`.
pub open spec fn key_lines(entries: Seq<LineAttribution>, key: Seq<char>, by_session: bool) -> nat
    decreases entries.len(),
{
    if entries.len() == 0 {
        0
    } else {
        let e = entries.last();
        key_lines(entries.drop_last(), key, by_session) + if e.kind == ContributorKind::Ai && key_of(
            e,
            by_session,
        ) == key {
            range_len(e.start, e.end)
        } else {
            0
        }
    }
}

pub open spec fn key_of(e: LineAttribution, by_session: bool) -> Seq<char> {
    if by_session {
        e.session@
    } else {
        e.tool@
    }
}

/// Lines attributed to `key` over the commits `cs`, each distinct commit
/// counted once.
pub open spec fn range_key_lines(
    notes: Map<Seq<char>, RecordView>,
    cs: Seq<Seq<char>>,
    key: Seq<char>,
    by_session: bool,
) -> nat
    decreases cs.len(),
{
    if cs.len() == 0 {
        0
    } else {
        let prev = range_key_lines(notes, cs.drop_last(), key, by_session);
        if cs.drop_last().contains(cs.last()) || !notes.contains_key(cs.last()) {
            prev
        } else {
            prev + key_lines(notes[cs.last()].1, key, by_session)
        }
    }
}

/// The count that `items` holds for `key`; zero when it holds none.
pub open spec fn count_of(items: Seq<(String, u64)>, key: Seq<char>) -> nat
    decreases items.len(),
{
    if items.len() == 0 {
        0
    } else if items.last().0@ == key {
        items.last().1 as nat
    } else {
        count_of(items.drop_last(), key)
    }
}

/// No key occurs twice.
pub open spec fn keys_distinct(items: Seq<(String, u64)>) -> bool {
    forall|i: int, j: int|
        0 <= i < j < items.len() ==> #[trigger] items[i].0@ != #[trigger] items[j].0@
}

proof fn lemma_count_of_unique(items: Seq<(String, u64)>, i: int)
    requires
        keys_distinct(items),
        0 <= i < items.len(),
    ensures
        count_of(items, items[i].0@) == items[i].1,
    decreases items.len(),
{
    if i < items.len() - 1 {
        assert(items.last() == items[items.len() - 1]);
        lemma_count_of_unique(items.drop_last(), i);
    }
}

proof fn lemma_count_of_absent(items: Seq<(String, u64)>, key: Seq<char>)
    requires
        forall|i: int| 0 <= i < items.len() ==> items[i].0@ != key,
    ensures
        count_of(items, key) == 0,
    decreases items.len(),
{
    if items.len() > 0 {
        lemma_count_of_absent(items.drop_last(), key);
    }
}

proof fn lemma_count_update(s: Seq<(String, u64)>, i: int, x: (String, u64), k: Seq<char>)
    requires
        keys_distinct(s),
        0 <= i < s.len(),
        s[i].0@ == x.0@,
    ensures
        count_of(s.update(i, x), k) == if k == x.0@ {
            x.1 as nat
        } else {
            count_of(s, k)
        },
    decreases s.len(),
{
    let t = s.update(i, x);
    if i == s.len() - 1 {
        assert(t.drop_last() =~= s.drop_last());
    } else {
        assert(t.drop_last() =~= s.drop_last().update(i, x));
        assert(s.last() == s[s.len() - 1]);
        lemma_count_update(s.drop_last(), i, x, k);
    }
}

/// Adds `n` to the count of `key`, saturating.
fn tally_add(items: &mut Vec<(String, u64)>, key: &String, n: u64)
    requires
        keys_distinct(old(items)@),
    ensures
        keys_distinct(final(items)@),
        forall|k: Seq<char>| #[trigger]
            count_of(final(items)@, k) == if k == key@ {
                saturate(count_of(old(items)@, k) + n as nat)
            } else {
                count_of(old(items)@, k)
            },
{
    let mut i: usize = 0;
    while i < items.len()
        invariant
            items@ == old(items)@,
            keys_distinct(items@),
            i <= items@.len(),
            forall|j: int| 0 <= j < i ==> items@[j].0@ != key@,
        decreases items@.len() - i,
    {
        if items[i].0 == *key {
            let cur = items[i].1;
            let ghost before = items@;
            let x = (key.clone(), cur.saturating_add(n));
            items.set(i, x);
            proof {
                lemma_count_of_unique(before, i as int);
                assert forall|k: Seq<char>| #[trigger]
                    count_of(items@, k) == if k == key@ {
                        saturate(count_of(before, k) + n as nat)
                    } else {
                        count_of(before, k)
                    } by {
                    lemma_count_update(before, i as int, x, k);
                }
                assert(keys_distinct(items@)) by {
                    assert forall|a: int, b: int| 0 <= a < b < items@.len() implies #[trigger] items@[a].0@ != #[trigger] items@[b].0@ by {
                        assert(items@[a].0@ == before[a].0@);
                        assert(items@[b].0@ == before[b].0@);
                    }
                }
            }
            return;
        }
        i = i + 1;
    }
    let ghost before = items@;
    items.push((key.clone(), n));
    proof {
        lemma_count_of_absent(before, key@);
        assert(items@.drop_last() =~= before);
        assert(keys_distinct(items@)) by {
            assert forall|a: int, b: int| 0 <= a < b < items@.len() implies #[trigger] items@[a].0@ != #[trigger] items@[b].0@ by {
                assert(items@[a] == before[a]);
                if b < before.len() {
                    assert(items@[b] == before[b]);
                }
            }
        }
    }
}

proof fn lemma_count_of_bound(items: Seq<(String, u64)>, key: Seq<char>)
    ensures
        count_of(items, key) <= u64::MAX,
    decreases items.len(),
{
    if items.len() > 0 {
        lemma_count_of_bound(items.drop_last(), key);
    }
}

proof fn lemma_count_positive(items: Seq<(String, u64)>, key: Seq<char>)
    requires
        count_of(items, key) > 0,
    ensures
        exists|m: int| 0 <= m < items.len() && items[m].0@ == key,
    decreases items.len(),
{
    if items.last().0@ == key {
        assert(items[items.len() - 1].0@ == key);
    } else {
        lemma_count_positive(items.drop_last(), key);
        let m = choose|m: int| 0 <= m < items.len() - 1 && items.drop_last()[m].0@ == key;
        assert(items[m].0@ == key);
    }
}

proof fn lemma_saturate_left(a: nat, b: nat)
    ensures
        saturate(saturate(a) + b) == saturate(a + b),
{
}

/// Adds the lines of the AI entries of `entries` to the count of their
/// tool, or with `by_session` of their session.
fn tally_entries(entries: &Vec<LineAttribution>, by_session: bool, items: &mut Vec<(String, u64)>)
    requires
        keys_distinct(old(items)@),
    ensures
        keys_distinct(final(items)@),
        forall|k: Seq<char>| #[trigger]
            count_of(final(items)@, k) == saturate(
                count_of(old(items)@, k) + key_lines(entries@, k, by_session),
            ),
{
    let ghost start = items@;
    let mut i: usize = 0;
    assert(entries@.subrange(0, 0) =~= Seq::<LineAttribution>::empty());
    assert forall|k: Seq<char>| #[trigger]
        count_of(items@, k) == saturate(
            count_of(start, k) + key_lines(entries@.subrange(0, 0), k, by_session),
        ) by {
        lemma_count_of_bound(start, k);
    }
    while i < entries.len()
        invariant
            i <= entries@.len(),
            keys_distinct(items@),
            forall|k: Seq<char>| #[trigger]
                count_of(items@, k) == saturate(
                    count_of(start, k) + key_lines(entries@.subrange(0, i as int), k, by_session),
                ),
        decreases entries@.len() - i,
    {
        let e = &entries[i];
        let ghost pre = entries@.subrange(0, i as int);
        let ghost next = entries@.subrange(0, i + 1);
        assert(next.drop_last() =~= pre);
        assert(next.last() == *e);
        if e.kind == ContributorKind::Ai {
            let len: u64 = if e.start <= e.end {
                e.end - e.start
            } else {
                0
            };
            let key = if by_session {
                &e.session
            } else {
                &e.tool
            };
            let ghost before = items@;
            tally_add(items, key, len);
            proof {
                assert forall|k: Seq<char>| #[trigger]
                    count_of(items@, k) == saturate(
                        count_of(start, k) + key_lines(next, k, by_session),
                    ) by {
                    lemma_saturate_left(count_of(start, k) + key_lines(pre, k, by_session), len as nat);
                }
            }
        } else {
            assert forall|k: Seq<char>| #[trigger] key_lines(next, k, by_session) == key_lines(
                pre,
                k,
                by_session,
            ) by {}
        }
        i = i + 1;
    }
    assert(entries@.subrange(0, entries@.len() as int) =~= entries@);
}

/// The identities of `commits`.
pub open spec fn commit_ids(commits: Seq<String>) -> Seq<Seq<char>> {
    commits.map_values(|c: String| c@)
}

proof fn lemma_saturate_add(a: nat, b: nat)
    ensures
        (if saturate(a) + saturate(b) > u64::MAX {
            u64::MAX as nat
        } else {
            saturate(a) + saturate(b)
        }) == saturate(a + b),
{
}

fn count_lines(entries: &Vec<LineAttribution>, ai_only: bool) -> (r: u64)
    ensures
        r == saturate(entry_lines(entries@, ai_only)),
{
    let mut acc: u64 = 0;
    let mut i: usize = 0;
    while i < entries.len()
        invariant
            i <= entries@.len(),
            acc == saturate(entry_lines(entries@.subrange(0, i as int), ai_only)),
        decreases entries@.len() - i,
    {
        let e = &entries[i];
        let ghost next = entries@.subrange(0, i + 1 as int);
        assert(next.drop_last() =~= entries@.subrange(0, i as int));
        let n: u64 = if !ai_only || e.kind == ContributorKind::Ai {
            if e.start <= e.end {
                e.end - e.start
            } else {
                0
            }
        } else {
            0
        };
        proof {
            lemma_saturate_add(entry_lines(entries@.subrange(0, i as int), ai_only), n as nat);
        }
        acc = acc.saturating_add(n);
        i = i + 1;
    }
    assert(entries@.subrange(0, entries@.len() as int) =~= entries@);
    acc
}

/// Sums the records of `commits`, counting each distinct commit once; a
/// commit without record contributes nothing.
pub fn summarize(commits: &Vec<String>, notes: &NotesRepository) -> (r: RangeSummary)
    ensures
        r.total_lines == saturate(range_lines(notes@, commit_ids(commits@), false)),
        r.ai_lines == saturate(range_lines(notes@, commit_ids(commits@), true)),
        tallies_range(r.by_tool@, notes@, commit_ids(commits@), false),
        tallies_range(r.by_session@, notes@, commit_ids(commits@), true),
{
    let mut total: u64 = 0;
    let mut ai: u64 = 0;
    let mut by_tool: Vec<(String, u64)> = Vec::new();
    let mut by_session: Vec<(String, u64)> = Vec::new();
    let mut i: usize = 0;
    while i < commits.len()
        invariant
            i <= commits@.len(),
            total == saturate(range_lines(notes@, commit_ids(commits@.subrange(0, i as int)), false)),
            ai == saturate(range_lines(notes@, commit_ids(commits@.subrange(0, i as int)), true)),
            keys_distinct(by_tool@),
            keys_distinct(by_session@),
            forall|k: Seq<char>| #[trigger]
                count_of(by_tool@, k) == saturate(
                    range_key_lines(notes@, commit_ids(commits@.subrange(0, i as int)), k, false),
                ),
            forall|k: Seq<char>| #[trigger]
                count_of(by_session@, k) == saturate(
                    range_key_lines(notes@, commit_ids(commits@.subrange(0, i as int)), k, true),
                ),
        decreases commits@.len() - i,
    {
        let c = &commits[i];
        let ghost pre = commit_ids(commits@.subrange(0, i as int));
        let ghost next = commit_ids(commits@.subrange(0, i + 1 as int));
        assert(next.drop_last() =~= pre);
        assert(next.last() == c@);
        let mut seen = false;
        let mut j: usize = 0;
        while j < i
            invariant
                j <= i,
                i < commits@.len(),
                seen == exists|k: int| 0 <= k < j && commits@[k]@ == c@,
            decreases i - j,
        {
            if commits[j] == *c {
                seen = true;
            }
            j = j + 1;
        }
        assert(seen == pre.contains(c@)) by {
            if seen {
                let k = choose|k: int| 0 <= k < i && commits@[k]@ == c@;
                assert(pre[k] == c@);
            }
            if pre.contains(c@) {
                let k = choose|k: int| 0 <= k < pre.len() && pre[k] == c@;
                assert(commits@[k]@ == c@);
            }
        }
        if !seen {
            match notes.read(c) {
                None => {},
                Some(rec) => {
                    let t = count_lines(&rec.entries, false);
                    let a = count_lines(&rec.entries, true);
                    proof {
                        lemma_saturate_add(range_lines(notes@, pre, false), entry_lines(rec.entries@, false));
                        lemma_saturate_add(range_lines(notes@, pre, true), entry_lines(rec.entries@, true));
                    }
                    total = total.saturating_add(t);
                    ai = ai.saturating_add(a);
                    let ghost tool_before = by_tool@;
                    let ghost session_before = by_session@;
                    tally_entries(&rec.entries, false, &mut by_tool);
                    tally_entries(&rec.entries, true, &mut by_session);
                    proof {
                        assert forall|k: Seq<char>| #[trigger]
                            count_of(by_tool@, k) == saturate(range_key_lines(notes@, next, k, false)) by {
                            lemma_saturate_left(range_key_lines(notes@, pre, k, false), key_lines(rec.entries@, k, false));
                        }
                        assert forall|k: Seq<char>| #[trigger]
                            count_of(by_session@, k) == saturate(range_key_lines(notes@, next, k, true)) by {
                            lemma_saturate_left(range_key_lines(notes@, pre, k, true), key_lines(rec.entries@, k, true));
                        }
                    }
                },
            }
        }
        i = i + 1;
    }
    assert(commits@.subrange(0, commits@.len() as int) =~= commits@);
    proof {
        let ids = commit_ids(commits@);
        assert forall|j: int| 0 <= j < by_tool@.len() implies by_tool@[j].1 == saturate(
            range_key_lines(notes@, ids, #[trigger] by_tool@[j].0@, false),
        ) by {
            lemma_count_of_unique(by_tool@, j);
        }
        assert forall|j: int| 0 <= j < by_session@.len() implies by_session@[j].1 == saturate(
            range_key_lines(notes@, ids, #[trigger] by_session@[j].0@, true),
        ) by {
            lemma_count_of_unique(by_session@, j);
        }
        assert forall|k: Seq<char>| #[trigger] range_key_lines(notes@, ids, k, false) > 0 implies exists|j: int|
            0 <= j < by_tool@.len() && by_tool@[j].0@ == k by {
            assert(count_of(by_tool@, k) > 0);
            lemma_count_positive(by_tool@, k);
        }
        assert forall|k: Seq<char>| #[trigger] range_key_lines(notes@, ids, k, true) > 0 implies exists|j: int|
            0 <= j < by_session@.len() && by_session@[j].0@ == k by {
            assert(count_of(by_session@, k) > 0);
            lemma_count_positive(by_session@, k);
        }
    }
    RangeSummary { total_lines: total, ai_lines: ai, by_tool, by_session }
}

} // verus!
