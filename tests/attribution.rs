use ai_blame::blame::blame;
use ai_blame::finalize::{finalize, finalize_commit, resolve_entries, ChangedLines};
use ai_blame::model::{AttributionRecord, CaptureEvent, ContributorKind, LineAttribution};
use ai_blame::notes::{NotesError, NotesRepository};
use ai_blame::propagate::{propagate, propagate_commit, UnchangedBlock};
use ai_blame::staging::StagingStore;
use ai_blame::summary::summarize;

fn event(path: &str, start: u64, end: u64, tool: &str, session: &str, ts: u64) -> CaptureEvent {
    CaptureEvent {
        path: path.to_string(),
        start,
        end,
        tool: tool.to_string(),
        prompt_ref: format!("prompt-{}", session),
        session: session.to_string(),
        timestamp: ts,
    }
}

fn entry(path: &str, start: u64, end: u64, tool: &str, session: &str) -> LineAttribution {
    LineAttribution {
        path: path.to_string(),
        start,
        end,
        kind: ContributorKind::Ai,
        tool: tool.to_string(),
        session: session.to_string(),
        prompt_ref: format!("prompt-{}", session),
    }
}

fn record(commit: &str, entries: Vec<LineAttribution>) -> AttributionRecord {
    AttributionRecord { commit: commit.to_string(), entries }
}

fn changed(path: &str, lines: Vec<u64>) -> ChangedLines {
    ChangedLines { path: path.to_string(), lines }
}

fn ranges(entries: &[LineAttribution]) -> Vec<(String, u64, u64, String)> {
    entries.iter().map(|e| (e.path.clone(), e.start, e.end, e.session.clone())).collect()
}

#[test]
fn drain_returns_appended_events_in_order() {
    let mut store = StagingStore::new();
    store.append(event("a.rs", 1, 3, "t", "s1", 1));
    store.append(event("b.rs", 4, 9, "t", "s2", 2));
    store.append(event("a.rs", 2, 5, "t", "s3", 3));
    let drained = store.drain_all();
    let sessions: Vec<&str> = drained.iter().map(|e| e.session.as_str()).collect();
    assert_eq!(sessions, vec!["s1", "s2", "s3"]);
    assert!(store.drain_all().is_empty());
}

#[test]
fn status_counts_files_and_lines() {
    let mut store = StagingStore::new();
    let empty = store.status();
    assert!(!empty.has_pending);
    assert!(empty.session_id.is_none());
    assert_eq!(empty.file_count, 0);
    assert_eq!(empty.line_count, 0);
    store.append(event("a.rs", 1, 3, "t", "s1", 1));
    store.append(event("b.rs", 4, 9, "t", "s2", 2));
    store.append(event("a.rs", 2, 5, "t", "s3", 3));
    let st = store.status();
    assert!(st.has_pending);
    assert_eq!(st.session_id.as_deref(), Some("s3"));
    assert_eq!(st.file_count, 2);
    assert_eq!(st.line_count, 2 + 5 + 3);
    store.clear();
    assert!(!store.status().has_pending);
}

#[test]
fn status_line_count_saturates() {
    let mut store = StagingStore::new();
    store.append(event("a.rs", 0, u64::MAX, "t", "s", 1));
    store.append(event("a.rs", 0, 10, "t", "s", 2));
    assert_eq!(store.status().line_count, u64::MAX);
}

#[test]
fn write_then_read_round_trips() {
    let mut notes = NotesRepository::new();
    assert!(!notes.has_record(&"c1".to_string()));
    notes.write(&"c1".to_string(), record("c1", vec![entry("f.rs", 1, 4, "aitool", "s")]));
    notes.write(&"c2".to_string(), record("c2", vec![]));
    let r = notes.read(&"c1".to_string()).unwrap();
    assert_eq!(r.commit, "c1");
    assert_eq!(ranges(&r.entries), vec![("f.rs".to_string(), 1, 4, "s".to_string())]);
    notes.write(&"c1".to_string(), record("c1", vec![entry("g.rs", 7, 8, "aitool", "t")]));
    let r = notes.read(&"c1".to_string()).unwrap();
    assert_eq!(ranges(&r.entries), vec![("g.rs".to_string(), 7, 8, "t".to_string())]);
    assert!(notes.read(&"c2".to_string()).unwrap().entries.is_empty());
    assert!(notes.read(&"c3".to_string()).is_none());
}

#[test]
fn finalize_without_events_writes_nothing() {
    let mut staging = StagingStore::new();
    let mut notes = NotesRepository::new();
    let commit = "c1".to_string();
    let wrote = finalize_commit(&mut staging, &mut notes, &commit, &vec![changed("f.rs", vec![1, 2])]);
    assert!(!wrote);
    assert!(!notes.has_record(&commit));
    assert!(finalize(&commit, &vec![], &vec![]).is_none());
}

#[test]
fn finalize_keeps_only_changed_lines() {
    let events = vec![event("f.rs", 10, 20, "aitool", "s", 1)];
    let entries = resolve_entries(&events, &vec![changed("f.rs", vec![12, 13, 14, 18])]);
    assert_eq!(
        ranges(&entries),
        vec![
            ("f.rs".to_string(), 12, 15, "s".to_string()),
            ("f.rs".to_string(), 18, 19, "s".to_string()),
        ]
    );
}

#[test]
fn finalize_last_writer_wins() {
    let events = vec![
        event("f.rs", 1, 10, "t1", "early", 100),
        event("f.rs", 5, 8, "t2", "late", 200),
    ];
    let lines: Vec<u64> = (1..10).collect();
    let entries = resolve_entries(&events, &vec![changed("f.rs", lines)]);
    assert_eq!(
        ranges(&entries),
        vec![
            ("f.rs".to_string(), 1, 5, "early".to_string()),
            ("f.rs".to_string(), 5, 8, "late".to_string()),
            ("f.rs".to_string(), 8, 10, "early".to_string()),
        ]
    );
    assert_eq!(entries[1].tool, "t2");
    // The order of appending does not matter, only the timestamps.
    let reversed = vec![
        event("f.rs", 5, 8, "t2", "late", 200),
        event("f.rs", 1, 10, "t1", "early", 100),
    ];
    let lines: Vec<u64> = (1..10).collect();
    let again = resolve_entries(&reversed, &vec![changed("f.rs", lines)]);
    assert_eq!(ranges(&again), ranges(&entries));
}

#[test]
fn finalize_commit_writes_record_and_drains() {
    let mut staging = StagingStore::new();
    staging.append(event("f.rs", 1, 3, "aitool", "s", 1));
    staging.append(event("g.rs", 1, 3, "aitool", "s", 2));
    let mut notes = NotesRepository::new();
    let commit = "c9".to_string();
    let wrote = finalize_commit(
        &mut staging,
        &mut notes,
        &commit,
        &vec![changed("f.rs", vec![2, 3]), changed("h.rs", vec![1])],
    );
    assert!(wrote);
    assert!(!staging.status().has_pending);
    let r = notes.read(&commit).unwrap();
    assert_eq!(r.commit, "c9");
    assert_eq!(ranges(&r.entries), vec![("f.rs".to_string(), 2, 3, "s".to_string())]);
}

#[test]
fn propagate_drops_rewritten_lines() {
    let source = record("old", vec![entry("F", 5, 15, "aitool", "S")]);
    let blocks = vec![UnchangedBlock { path: "F".to_string(), old_start: 1, new_start: 1, len: 9 }];
    let moved = propagate(&source, &"new".to_string(), &blocks);
    assert_eq!(moved.commit, "new");
    assert_eq!(ranges(&moved.entries), vec![("F".to_string(), 5, 10, "S".to_string())]);
}

#[test]
fn propagate_shifts_moved_lines() {
    let source = record("old", vec![entry("F", 5, 15, "aitool", "S"), entry("G", 1, 2, "aitool", "T")]);
    let blocks = vec![
        UnchangedBlock { path: "F".to_string(), old_start: 1, new_start: 3, len: 6 },
        UnchangedBlock { path: "F".to_string(), old_start: 12, new_start: 20, len: 10 },
    ];
    let moved = propagate(&source, &"new".to_string(), &blocks);
    assert_eq!(
        ranges(&moved.entries),
        vec![("F".to_string(), 7, 9, "S".to_string()), ("F".to_string(), 20, 23, "S".to_string())]
    );
}

#[test]
fn propagate_commit_reports_missing_source() {
    let mut notes = NotesRepository::new();
    notes.write(&"t".to_string(), record("t", vec![entry("F", 1, 2, "aitool", "S")]));
    let r = propagate_commit(&mut notes, &"s".to_string(), &"t".to_string(), &vec![]);
    assert_eq!(r, Err(NotesError::MissingRecord));
    assert_eq!(notes.read(&"t".to_string()).unwrap().entries.len(), 1);
}

#[test]
fn propagate_commit_may_produce_empty_record() {
    let mut notes = NotesRepository::new();
    notes.write(&"s".to_string(), record("s", vec![entry("F", 1, 2, "aitool", "S")]));
    let r = propagate_commit(&mut notes, &"s".to_string(), &"t".to_string(), &vec![]);
    assert_eq!(r, Ok(()));
    let t = notes.read(&"t".to_string()).unwrap();
    assert_eq!(t.commit, "t");
    assert!(t.entries.is_empty());
}

#[test]
fn blame_reports_ai_and_human_lines() {
    let mut notes = NotesRepository::new();
    notes.write(&"C".to_string(), record("C", vec![entry("f.rs", 3, 4, "aitool", "S")]));
    let line_commits = vec!["C".to_string(), "C".to_string(), "C".to_string(), "D".to_string()];
    let lines = blame(&"f.rs".to_string(), &line_commits, &notes);
    assert_eq!(lines.len(), 4);
    assert_eq!(lines[2].line, 3);
    assert_eq!(lines[2].kind, ContributorKind::Ai);
    assert_eq!(lines[2].tool.as_deref(), Some("aitool"));
    assert_eq!(lines[2].session.as_deref(), Some("S"));
    assert_eq!(lines[2].commit, "C");
    assert_eq!(lines[3].line, 4);
    assert_eq!(lines[3].kind, ContributorKind::Human);
    assert!(lines[3].tool.is_none());
    assert_eq!(lines[0].kind, ContributorKind::Human);
    assert_eq!(lines[3].commit, "D");
}

#[test]
fn summary_counts_each_commit_once() {
    let mut notes = NotesRepository::new();
    notes.write(&"A".to_string(), record("A", vec![entry("f", 1, 11, "aitool", "s")]));
    notes.write(&"C".to_string(), record("C", vec![entry("g", 1, 6, "aitool", "s")]));
    let commits = vec!["A".to_string(), "B".to_string(), "C".to_string(), "C".to_string()];
    let s = summarize(&commits, &notes);
    assert_eq!(s.total_lines, 15);
    assert_eq!(s.ai_lines, 15);
}

#[test]
fn summary_groups_by_tool_and_session() {
    let mut notes = NotesRepository::new();
    notes.write(
        &"A".to_string(),
        record("A", vec![entry("f", 1, 11, "edit", "s1"), entry("g", 1, 3, "write", "s1")]),
    );
    notes.write(&"C".to_string(), record("C", vec![entry("g", 1, 6, "edit", "s2")]));
    let commits = vec!["A".to_string(), "B".to_string(), "C".to_string(), "A".to_string()];
    let s = summarize(&commits, &notes);
    assert_eq!(s.total_lines, 17);
    let mut tools = s.by_tool.clone();
    tools.sort();
    assert_eq!(tools, vec![("edit".to_string(), 15), ("write".to_string(), 2)]);
    let mut sessions = s.by_session.clone();
    sessions.sort();
    assert_eq!(sessions, vec![("s1".to_string(), 12), ("s2".to_string(), 5)]);
}

#[test]
fn summary_of_empty_range_is_zero() {
    let notes = NotesRepository::new();
    let s = summarize(&vec![], &notes);
    assert_eq!(s.total_lines, 0);
    assert_eq!(s.ai_lines, 0);
    assert!(s.by_tool.is_empty());
    assert!(s.by_session.is_empty());
}

#[test]
fn summary_separates_human_lines() {
    let mut notes = NotesRepository::new();
    let mut human = entry("f", 1, 4, "", "");
    human.kind = ContributorKind::Human;
    notes.write(&"A".to_string(), record("A", vec![human, entry("f", 4, 6, "aitool", "s")]));
    let s = summarize(&vec!["A".to_string()], &notes);
    assert_eq!(s.total_lines, 5);
    assert_eq!(s.ai_lines, 2);
}

#[test]
fn copy_fails_without_source_and_keeps_target() {
    let mut notes = NotesRepository::new();
    notes.write(&"t".to_string(), record("t", vec![entry("f", 1, 2, "aitool", "s")]));
    let r = notes.copy(&"s".to_string(), &"t".to_string());
    assert_eq!(r, Err(NotesError::MissingRecord));
    let t = notes.read(&"t".to_string()).unwrap();
    assert_eq!(ranges(&t.entries), vec![("f".to_string(), 1, 2, "s".to_string())]);
}

#[test]
fn copy_duplicates_the_record() {
    let mut notes = NotesRepository::new();
    notes.write(&"s".to_string(), record("s", vec![entry("f", 1, 2, "aitool", "x")]));
    assert_eq!(notes.copy(&"s".to_string(), &"t".to_string()), Ok(()));
    let t = notes.read(&"t".to_string()).unwrap();
    assert_eq!(t.commit, "t");
    assert_eq!(ranges(&t.entries), vec![("f".to_string(), 1, 2, "x".to_string())]);
    assert!(notes.has_record(&"s".to_string()));
}
