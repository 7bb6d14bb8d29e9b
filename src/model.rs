//! The data that flows from capture to commit: edit events, line
//! attributions and the per-commit attribution record.
use vstd::prelude::*;

verus! {

/// Who wrote a range of lines.
#[derive(Debug, PartialEq, Eq, Structural, Clone, Copy)]
pub enum ContributorKind {
    Ai,
    Human,
}

/// One recorded edit: a 1-indexed, end-exclusive line range of one file.
#[derive(Debug)]
pub struct CaptureEvent {
    pub path: String,
    pub start: u64,
    pub end: u64,
    pub tool: String,
    pub prompt_ref: String,
    pub session: String,
    pub timestamp: u64,
}

/// A contiguous line range `[start, end)` of one file with its author.
#[derive(Debug)]
pub struct LineAttribution {
    pub path: String,
    pub start: u64,
    pub end: u64,
    pub kind: ContributorKind,
    pub tool: String,
    pub session: String,
    pub prompt_ref: String,
}

/// All line attributions of one commit.
#[derive(Debug)]
pub struct AttributionRecord {
    pub commit: String,
    pub entries: Vec<LineAttribution>,
}

/// Number of lines in `[start, end)`; an inverted range holds none.
pub open spec fn range_len(start: u64, end: u64) -> nat {
    if start <= end {
        (end - start) as nat
    } else {
        0
    }
}

impl CaptureEvent {
    /// Whether this event's range covers line `line` of file `path`.
    pub open spec fn covers(&self, path: Seq<char>, line: int) -> bool {
        self.path@ == path && self.start <= line < self.end
    }

    pub fn duplicate(&self) -> (r: Self)
        ensures
            r == *self,
    {
        CaptureEvent {
            path: self.path.clone(),
            start: self.start,
            end: self.end,
            tool: self.tool.clone(),
            prompt_ref: self.prompt_ref.clone(),
            session: self.session.clone(),
            timestamp: self.timestamp,
        }
    }
}

impl LineAttribution {
    /// Whether this entry covers line `line` of file `path`.
    pub open spec fn covers(&self, path: Seq<char>, line: int) -> bool {
        self.path@ == path && self.start <= line < self.end
    }

    /// Whether two entries name the same author, tool, session and prompt.
    pub open spec fn same_author(&self, other: &LineAttribution) -> bool {
        self.kind == other.kind && self.tool@ == other.tool@ && self.session@ == other.session@
            && self.prompt_ref@ == other.prompt_ref@
    }

    pub fn duplicate(&self) -> (r: Self)
        ensures
            r == *self,
    {
        LineAttribution {
            path: self.path.clone(),
            start: self.start,
            end: self.end,
            kind: self.kind,
            tool: self.tool.clone(),
            session: self.session.clone(),
            prompt_ref: self.prompt_ref.clone(),
        }
    }
}

/// Copies a list of entries element by element.
pub fn duplicate_entries(v: &Vec<LineAttribution>) -> (r: Vec<LineAttribution>)
    ensures
        r@ == v@,
{
    let mut r: Vec<LineAttribution> = Vec::new();
    let mut i: usize = 0;
    while i < v.len()
        invariant
            i <= v.len(),
            r@ == v@.subrange(0, i as int),
        decreases v.len() - i,
    {
        r.push(v[i].duplicate());
        i = i + 1;
        assert(r@ =~= v@.subrange(0, i as int));
    }
    assert(r@ =~= v@);
    r
}

impl View for AttributionRecord {
    type V = (Seq<char>, Seq<LineAttribution>);

    open spec fn view(&self) -> (Seq<char>, Seq<LineAttribution>) {
        (self.commit@, self.entries@)
    }
}

impl AttributionRecord {
    pub fn duplicate(&self) -> (r: Self)
        ensures
            r@ == self@,
    {
        AttributionRecord { commit: self.commit.clone(), entries: duplicate_entries(&self.entries) }
    }
}

} // verus!
