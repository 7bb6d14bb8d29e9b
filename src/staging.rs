//! The staging store: capture events that wait for the next commit.
use vstd::prelude::*;
use crate::model::{CaptureEvent, range_len};

verus! {

/// Pending capture events, in the order in which they were appended.
pub struct StagingStore {
    events: Vec<CaptureEvent>,
}

/// A summary of the pending state for status reports.
pub struct PendingStatus {
    pub has_pending: bool,
    /// Session of the most recent pending event.
    pub session_id: Option<String>,
    /// Number of distinct files touched by pending events.
    pub file_count: u64,
    /// Total number of lines in pending ranges, saturated at `u64::MAX`.
    pub line_count: u64,
}

/// The paths of a sequence of events.
pub open spec fn paths_of(s: Seq<CaptureEvent>) -> Seq<Seq<char>> {
    s.map_values(|e: CaptureEvent| e.path@)
}

/// Total number of lines in the ranges of `s`.
pub open spec fn total_lines(s: Seq<CaptureEvent>) -> nat
    decreases s.len(),
{
    if s.len() == 0 {
        0
    } else {
        total_lines(s.drop_last()) + range_len(s.last().start, s.last().end)
    }
}

/// The store's contents after appending each of `es` in turn.
pub open spec fn after_appends(s: Seq<CaptureEvent>, es: Seq<CaptureEvent>) -> Seq<CaptureEvent>
    decreases es.len(),
{
    if es.len() == 0 {
        s
    } else {
        after_appends(s, es.drop_last()).push(es.last())
    }
}

/// Appending a sequence of events one by one and then draining yields the
/// earlier contents followed by exactly those events, in append order; on
/// an empty store the drain returns exactly the appended sequence.
pub proof fn append_then_drain_law(s: Seq<CaptureEvent>, es: Seq<CaptureEvent>)
    ensures
        after_appends(s, es) == s + es,
        after_appends(Seq::empty(), es) == es,
    decreases es.len(),
{
    if es.len() > 0 {
        append_then_drain_law(s, es.drop_last());
        assert(s + es =~= (s + es.drop_last()).push(es.last()));
    }
    assert(Seq::<CaptureEvent>::empty() + es =~= es);
}

impl View for StagingStore {
    type V = Seq<CaptureEvent>;

    closed spec fn view(&self) -> Seq<CaptureEvent> {
        self.events@
    }
}

impl StagingStore {
    pub fn new() -> (r: Self)
        ensures
            r@ == Seq::<CaptureEvent>::empty(),
    {
        StagingStore { events: Vec::new() }
    }

    /// A store holding `events`, as read back from durable storage.
    pub fn from_events(events: Vec<CaptureEvent>) -> (r: Self)
        ensures
            r@ == events@,
    {
        StagingStore { events }
    }

    pub fn events(&self) -> (r: &Vec<CaptureEvent>)
        ensures
            r@ == self@,
    {
        &self.events
    }

    pub fn append(&mut self, event: CaptureEvent)
        ensures
            final(self)@ == old(self)@.push(event),
    {
        self.events.push(event);
    }

    /// Removes and returns every pending event, in append order.
    pub fn drain_all(&mut self) -> (r: Vec<CaptureEvent>)
        ensures
            r@ == old(self)@,
            final(self)@.len() == 0,
    {
        let mut out: Vec<CaptureEvent> = Vec::new();
        std::mem::swap(&mut self.events, &mut out);
        out
    }

    /// Discards every pending event.
    pub fn clear(&mut self)
        ensures
            final(self)@.len() == 0,
    {
        self.events.clear();
    }

    pub fn status(&self) -> (r: PendingStatus)
        ensures
            r.has_pending == (self@.len() > 0),
            self@.len() == 0 ==> r.session_id is None,
            self@.len() > 0 ==> r.session_id is Some && r.session_id->0@ == self@.last().session@,
            r.file_count == paths_of(self@).to_set().len(),
            r.line_count == if total_lines(self@) <= u64::MAX {
                total_lines(self@)
            } else {
                u64::MAX as nat
            },
    {
        let n = self.events.len();
        let session_id = if n > 0 {
            Some(self.events[n - 1].session.clone())
        } else {
            None
        };
        let mut seen: Vec<String> = Vec::new();
        let mut lines: u64 = 0;
        let mut i: usize = 0;
        while i < n
            invariant
                n == self@.len(),
                i <= n,
                seen@.map_values(|p: String| p@).no_duplicates(),
                seen@.map_values(|p: String| p@).to_set() == paths_of(self@.subrange(0, i as int)).to_set(),
                seen@.len() <= i,
                lines == if total_lines(self@.subrange(0, i as int)) <= u64::MAX {
                    total_lines(self@.subrange(0, i as int))
                } else {
                    u64::MAX as nat
                },
            decreases n - i,
        {
            let e = &self.events[i];
            let ghost prefix = self@.subrange(0, i as int);
            let ghost next = self@.subrange(0, i + 1 as int);
            assert(next.drop_last() =~= prefix);
            assert(paths_of(next) =~= paths_of(prefix).push(e.path@));
            let len: u64 = if e.start <= e.end { e.end - e.start } else { 0 };
            lines = lines.saturating_add(len);
            let mut found = false;
            let mut j: usize = 0;
            while j < seen.len()
                invariant
                    j <= seen@.len(),
                    found == exists|k: int| 0 <= k < j && seen@[k]@ == e.path@,
                decreases seen@.len() - j,
            {
                if seen[j] == e.path {
                    found = true;
                }
                j = j + 1;
            }
            let ghost old_seen = seen@.map_values(|p: String| p@);
            proof {
                paths_of(prefix).lemma_push_to_set_commute(e.path@);
                old_seen.lemma_push_to_set_commute(e.path@);
            }
            if !found {
                seen.push(e.path.clone());
                assert(seen@.map_values(|p: String| p@) =~= old_seen.push(e.path@));
                assert(!old_seen.contains(e.path@)) by {
                    if old_seen.contains(e.path@) {
                        let k = choose|k: int| 0 <= k < old_seen.len() && old_seen[k] == e.path@;
                        assert(seen@[k]@ == e.path@);
                    }
                }
            } else {
                proof {
                    let k = choose|k: int| 0 <= k < j && seen@[k]@ == e.path@;
                    assert(old_seen[k] == e.path@);
                }
            }
            assert(seen@.map_values(|p: String| p@).to_set() =~= paths_of(next).to_set()) by {
                if found {
                    assert(old_seen.to_set().contains(e.path@));
                    assert(old_seen.to_set().insert(e.path@) =~= old_seen.to_set());
                }
            }
            i = i + 1;
        }
        assert(self@.subrange(0, n as int) =~= self@);
        proof {
            seen@.map_values(|p: String| p@).unique_seq_to_set();
        }
        PendingStatus {
            has_pending: n > 0,
            session_id,
            file_count: seen.len() as u64,
            line_count: lines,
        }
    }
}

} // verus!
