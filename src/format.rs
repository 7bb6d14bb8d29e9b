//! The stored forms of an attribution record (the note text of a commit)
//! and of the pending events (the staging file), as documents of the codec.
//!
//! A record is a line holding the commit, then one line per entry: path,
//! start, end, kind (1 for AI, 0 for human), tool, session and prompt
//! reference. An event is one line: path, start, end, tool, prompt
//! reference, session and timestamp.
use vstd::prelude::*;
use crate::codec::{
    doc_view, enc_doc, encode_document, line_view, parse_document, Field, FieldView,
};
use crate::model::{AttributionRecord, CaptureEvent, ContributorKind, LineAttribution};

verus! {

pub open spec fn kind_code(k: ContributorKind) -> u64 {
    match k {
        ContributorKind::Ai => 1,
        ContributorKind::Human => 0,
    }
}

pub open spec fn entry_fields(e: LineAttribution) -> Seq<FieldView> {
    seq![
        FieldView::Text(e.path@),
        FieldView::Num(e.start),
        FieldView::Num(e.end),
        FieldView::Num(kind_code(e.kind)),
        FieldView::Text(e.tool@),
        FieldView::Text(e.session@),
        FieldView::Text(e.prompt_ref@),
    ]
}

pub open spec fn event_fields(e: CaptureEvent) -> Seq<FieldView> {
    seq![
        FieldView::Text(e.path@),
        FieldView::Num(e.start),
        FieldView::Num(e.end),
        FieldView::Text(e.tool@),
        FieldView::Text(e.prompt_ref@),
        FieldView::Text(e.session@),
        FieldView::Num(e.timestamp),
    ]
}

/// The document of a record of `commit` with `entries`.
pub open spec fn record_doc(commit: Seq<char>, entries: Seq<LineAttribution>) -> Seq<
    Seq<FieldView>,
> {
    seq![seq![FieldView::Text(commit)]] + entries.map_values(|e: LineAttribution| entry_fields(e))
}

/// The document of a list of pending events.
pub open spec fn events_doc(events: Seq<CaptureEvent>) -> Seq<Seq<FieldView>> {
    events.map_values(|e: CaptureEvent| event_fields(e))
}

pub open spec fn is_entry_line(l: Seq<FieldView>) -> bool {
    &&& l.len() == 7
    &&& l[0] is Text
    &&& l[1] is Num
    &&& l[2] is Num
    &&& (l[3] == FieldView::Num(0) || l[3] == FieldView::Num(1))
    &&& l[4] is Text
    &&& l[5] is Text
    &&& l[6] is Text
}

pub open spec fn is_event_line(l: Seq<FieldView>) -> bool {
    &&& l.len() == 7
    &&& l[0] is Text
    &&& l[1] is Num
    &&& l[2] is Num
    &&& l[3] is Text
    &&& l[4] is Text
    &&& l[5] is Text
    &&& l[6] is Num
}

fn text_at(l: &Vec<Field>, i: usize) -> (r: Option<String>)
    requires
        i < l@.len(),
    ensures
        r is Some == l@[i as int]@ is Text,
        r matches Some(s) ==> l@[i as int]@ == FieldView::Text(s@),
{
    match &l[i] {
        Field::Text(s) => Some(s.clone()),
        Field::Num(_) => None,
    }
}

fn num_at(l: &Vec<Field>, i: usize) -> (r: Option<u64>)
    requires
        i < l@.len(),
    ensures
        r is Some == l@[i as int]@ is Num,
        r matches Some(n) ==> l@[i as int]@ == FieldView::Num(n),
{
    match &l[i] {
        Field::Num(n) => Some(*n),
        Field::Text(_) => None,
    }
}

fn entry_to_line(e: &LineAttribution) -> (r: Vec<Field>)
    ensures
        line_view(r) == entry_fields(*e),
{
    let kind: u64 = match e.kind {
        ContributorKind::Ai => 1,
        ContributorKind::Human => 0,
    };
    let r = vec![
        Field::Text(e.path.clone()),
        Field::Num(e.start),
        Field::Num(e.end),
        Field::Num(kind),
        Field::Text(e.tool.clone()),
        Field::Text(e.session.clone()),
        Field::Text(e.prompt_ref.clone()),
    ];
    assert(line_view(r) =~= entry_fields(*e));
    r
}

fn line_to_entry(l: &Vec<Field>) -> (r: Option<LineAttribution>)
    ensures
        r is Some == is_entry_line(line_view(*l)),
        r matches Some(e) ==> entry_fields(e) == line_view(*l),
{
    if l.len() != 7 {
        return None;
    }
    let path = text_at(l, 0);
    let start = num_at(l, 1);
    let end = num_at(l, 2);
    let code = num_at(l, 3);
    let tool = text_at(l, 4);
    let session = text_at(l, 5);
    let prompt_ref = text_at(l, 6);
    match (path, start, end, code, tool, session, prompt_ref) {
        (Some(path), Some(start), Some(end), Some(code), Some(tool), Some(session), Some(prompt_ref)) => {
            let kind = if code == 1 {
                ContributorKind::Ai
            } else if code == 0 {
                ContributorKind::Human
            } else {
                return None;
            };
            let e = LineAttribution { path, start, end, kind, tool, session, prompt_ref };
            assert(entry_fields(e) =~= line_view(*l));
            Some(e)
        },
        _ => None,
    }
}

fn event_to_line(e: &CaptureEvent) -> (r: Vec<Field>)
    ensures
        line_view(r) == event_fields(*e),
{
    let r = vec![
        Field::Text(e.path.clone()),
        Field::Num(e.start),
        Field::Num(e.end),
        Field::Text(e.tool.clone()),
        Field::Text(e.prompt_ref.clone()),
        Field::Text(e.session.clone()),
        Field::Num(e.timestamp),
    ];
    assert(line_view(r) =~= event_fields(*e));
    r
}

fn line_to_event(l: &Vec<Field>) -> (r: Option<CaptureEvent>)
    ensures
        r is Some == is_event_line(line_view(*l)),
        r matches Some(e) ==> event_fields(e) == line_view(*l),
{
    if l.len() != 7 {
        return None;
    }
    let path = text_at(l, 0);
    let start = num_at(l, 1);
    let end = num_at(l, 2);
    let tool = text_at(l, 3);
    let prompt_ref = text_at(l, 4);
    let session = text_at(l, 5);
    let timestamp = num_at(l, 6);
    match (path, start, end, tool, prompt_ref, session, timestamp) {
        (Some(path), Some(start), Some(end), Some(tool), Some(prompt_ref), Some(session), Some(timestamp)) => {
            let e = CaptureEvent { path, start, end, tool, prompt_ref, session, timestamp };
            assert(event_fields(e) =~= line_view(*l));
            Some(e)
        },
        _ => None,
    }
}

/// The note text of a record.
pub fn encode_record(rec: &AttributionRecord) -> (r: Vec<char>)
    ensures
        r@ == enc_doc(record_doc(rec.commit@, rec.entries@)),
{
    let mut doc: Vec<Vec<Field>> = Vec::new();
    let first = vec![Field::Text(rec.commit.clone())];
    assert(line_view(first) =~= seq![FieldView::Text(rec.commit@)]);
    doc.push(first);
    assert(doc_view(doc@) =~= record_doc(rec.commit@, rec.entries@.subrange(0, 0)));
    let mut i: usize = 0;
    while i < rec.entries.len()
        invariant
            i <= rec.entries@.len(),
            doc_view(doc@) == record_doc(rec.commit@, rec.entries@.subrange(0, i as int)),
        decreases rec.entries@.len() - i,
    {
        let ghost before = doc@;
        doc.push(entry_to_line(&rec.entries[i]));
        assert(doc_view(doc@) =~= doc_view(before).push(entry_fields(rec.entries@[i as int])));
        assert(record_doc(rec.commit@, rec.entries@.subrange(0, i + 1)) =~= record_doc(
            rec.commit@,
            rec.entries@.subrange(0, i as int),
        ).push(entry_fields(rec.entries@[i as int])));
        i = i + 1;
    }
    assert(rec.entries@.subrange(0, rec.entries@.len() as int) =~= rec.entries@);
    encode_document(&doc)
}

/// Reads a record back from its note text. Any text that some record
/// encodes to is read back as a record with the same document.
pub fn decode_record(text: &Vec<char>) -> (r: Option<AttributionRecord>)
    ensures
        r matches Some(x) ==> enc_doc(record_doc(x.commit@, x.entries@)) == text@,
        forall|c: Seq<char>, es: Seq<LineAttribution>|
            #![trigger record_doc(c, es)]
            text@ == enc_doc(record_doc(c, es)) ==> (r matches Some(x) && record_doc(
                x.commit@,
                x.entries@,
            ) == record_doc(c, es)),
{
    let doc = match parse_document(text) {
        None => {
            return None;
        },
        Some(d) => d,
    };
    let ghost dv = doc_view(doc@);
    assert forall|c: Seq<char>, es: Seq<LineAttribution>|
        #![trigger record_doc(c, es)]
        text@ == enc_doc(record_doc(c, es)) implies dv == record_doc(c, es) by {}
    if doc.len() == 0 || doc[0].len() != 1 {
        assert forall|c: Seq<char>, es: Seq<LineAttribution>|
            #![trigger record_doc(c, es)]
            text@ == enc_doc(record_doc(c, es)) implies false by {
            assert(dv == record_doc(c, es));
            assert(record_doc(c, es)[0] == seq![FieldView::Text(c)]);
            assert(dv.len() == doc@.len());
            if doc@.len() > 0 {
                assert(dv[0] == line_view(doc@[0]));
                assert(line_view(doc@[0]).len() == doc@[0]@.len());
            }
        }
        return None;
    }
    let commit = match text_at(&doc[0], 0) {
        None => {
            assert forall|c: Seq<char>, es: Seq<LineAttribution>|
                #![trigger record_doc(c, es)]
                text@ == enc_doc(record_doc(c, es)) implies false by {
                assert(dv[0] == line_view(doc@[0]));
                assert(line_view(doc@[0])[0] == doc@[0]@[0]@);
            }
            return None;
        },
        Some(c) => c,
    };
    assert(dv[0] =~= seq![FieldView::Text(commit@)]) by {
        assert(dv[0] == line_view(doc@[0]));
    }
    let mut entries: Vec<LineAttribution> = Vec::new();
    let mut i: usize = 1;
    while i < doc.len()
        invariant
            1 <= i <= doc@.len(),
            dv == doc_view(doc@),
            dv[0] == seq![FieldView::Text(commit@)],
            entries@.len() == i - 1,
            record_doc(commit@, entries@) == dv.subrange(0, i as int),
            forall|c: Seq<char>, es: Seq<LineAttribution>|
                #![trigger record_doc(c, es)]
                text@ == enc_doc(record_doc(c, es)) ==> dv == record_doc(c, es),
        decreases doc@.len() - i,
    {
        match line_to_entry(&doc[i]) {
            None => {
                assert forall|c: Seq<char>, es: Seq<LineAttribution>|
                    #![trigger record_doc(c, es)]
                    text@ == enc_doc(record_doc(c, es)) implies false by {
                    assert(dv[i as int] == line_view(doc@[i as int]));
                    assert(record_doc(c, es)[i as int] == entry_fields(es[i - 1]));
                }
                return None;
            },
            Some(e) => {
                let ghost before = entries@;
                entries.push(e);
                assert(dv[i as int] == line_view(doc@[i as int]));
                assert(record_doc(commit@, entries@) =~= record_doc(commit@, before).push(
                    entry_fields(e),
                ));
                assert(dv.subrange(0, i + 1) =~= dv.subrange(0, i as int).push(dv[i as int]));
            },
        }
        i = i + 1;
    }
    assert(dv.subrange(0, doc@.len() as int) =~= dv);
    Some(AttributionRecord { commit, entries })
}

/// The staging-file text of a list of pending events.
pub fn encode_events(events: &Vec<CaptureEvent>) -> (r: Vec<char>)
    ensures
        r@ == enc_doc(events_doc(events@)),
{
    let mut doc: Vec<Vec<Field>> = Vec::new();
    let mut i: usize = 0;
    while i < events.len()
        invariant
            i <= events@.len(),
            doc_view(doc@) == events_doc(events@.subrange(0, i as int)),
        decreases events@.len() - i,
    {
        let ghost before = doc@;
        doc.push(event_to_line(&events[i]));
        assert(doc_view(doc@) =~= doc_view(before).push(event_fields(events@[i as int])));
        assert(events_doc(events@.subrange(0, i + 1)) =~= events_doc(
            events@.subrange(0, i as int),
        ).push(event_fields(events@[i as int])));
        i = i + 1;
    }
    assert(events@.subrange(0, events@.len() as int) =~= events@);
    encode_document(&doc)
}

/// Reads pending events back from the staging-file text; `None` marks a
/// corrupt file. Any text that some event list encodes to is read back as
/// events with the same document.
pub fn decode_events(text: &Vec<char>) -> (r: Option<Vec<CaptureEvent>>)
    ensures
        r matches Some(x) ==> enc_doc(events_doc(x@)) == text@,
        forall|es: Seq<CaptureEvent>|
            #![trigger events_doc(es)]
            text@ == enc_doc(events_doc(es)) ==> (r matches Some(x) && events_doc(x@) == events_doc(
                es,
            )),
{
    let doc = match parse_document(text) {
        None => {
            return None;
        },
        Some(d) => d,
    };
    let ghost dv = doc_view(doc@);
    let mut events: Vec<CaptureEvent> = Vec::new();
    let mut i: usize = 0;
    while i < doc.len()
        invariant
            i <= doc@.len(),
            dv == doc_view(doc@),
            events@.len() == i,
            events_doc(events@) == dv.subrange(0, i as int),
            forall|es: Seq<CaptureEvent>|
                #![trigger events_doc(es)]
                text@ == enc_doc(events_doc(es)) ==> dv == events_doc(es),
        decreases doc@.len() - i,
    {
        match line_to_event(&doc[i]) {
            None => {
                assert forall|es: Seq<CaptureEvent>|
                    #![trigger events_doc(es)]
                    text@ == enc_doc(events_doc(es)) implies false by {
                    assert(dv[i as int] == line_view(doc@[i as int]));
                    assert(events_doc(es)[i as int] == event_fields(es[i as int]));
                }
                return None;
            },
            Some(e) => {
                let ghost before = events@;
                events.push(e);
                assert(dv[i as int] == line_view(doc@[i as int]));
                assert(events_doc(events@) =~= events_doc(before).push(event_fields(e)));
                assert(dv.subrange(0, i + 1) =~= dv.subrange(0, i as int).push(dv[i as int]));
            },
        }
        i = i + 1;
    }
    assert(dv.subrange(0, doc@.len() as int) =~= dv);
    Some(events)
}

} // verus!
