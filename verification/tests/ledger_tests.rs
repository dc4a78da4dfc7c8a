use originscan::entry::{encode_state, parse_state, EntryState};
use originscan::ledger::Ledger;
use originscan::pipeline::{plan_pass, record_result, summarize};
use originscan::scanner::{register_candidate, register_paths};

fn sorted_entries(ledger: &Ledger) -> Vec<(Vec<u8>, Vec<u8>)> {
    let mut es = ledger.entries();
    es.sort();
    es
}

fn key_bytes(path: &str) -> Vec<u8> {
    base64::encode(path.as_bytes()).into_bytes()
}

fn paths(list: &[&str]) -> Vec<String> {
    list.iter().map(|p| p.to_string()).collect()
}

#[test]
fn scan_registers_only_candidate_extensions() {
    let mut ledger = Ledger::open_scratch().unwrap();
    let found = paths(&[
        "/media/a.mxf",
        "/media/notes.txt",
        "/media/sub/b.mxf",
        "/media/noextension",
        "/media/upper.MXF",
        "/media/.mxf",
        "/media/archive.mxf.bak",
    ]);
    let (added, failed) = register_paths(&mut ledger, &found);
    assert_eq!(added, 2);
    assert_eq!(failed, 0);
    let mut expected = vec![
        (key_bytes("/media/a.mxf"), vec![0u8]),
        (key_bytes("/media/sub/b.mxf"), vec![0u8]),
    ];
    expected.sort();
    assert_eq!(sorted_entries(&ledger), expected);
}

#[test]
fn scan_without_candidates_reports_no_failures() {
    // No candidate means the store is never consulted, so nothing can fail
    // and nothing is registered.
    let mut ledger = Ledger::open_scratch().unwrap();
    let found = paths(&["/m/notes.txt", "/m/clip.avi", "/m/noextension"]);
    let (added, failed) = register_paths(&mut ledger, &found);
    assert_eq!(added, 0);
    assert_eq!(failed, 0);
    assert!(ledger.entries().is_empty());
}

#[test]
fn scanning_twice_is_idempotent() {
    let mut ledger = Ledger::open_scratch().unwrap();
    let found = paths(&["/m/x.mxf", "/m/y.mxf", "/m/skip.avi"]);
    register_paths(&mut ledger, &found);
    let first = sorted_entries(&ledger);
    let (added_again, failed_again) = register_paths(&mut ledger, &found);
    assert_eq!(added_again, 0);
    assert_eq!(failed_again, 0);
    assert_eq!(sorted_entries(&ledger), first);
}

#[test]
fn register_does_not_overwrite_resolved_entry() {
    let mut ledger = Ledger::open_scratch().unwrap();
    register_candidate(&mut ledger, "/m/x.mxf").unwrap();
    let key = key_bytes("/m/x.mxf");
    record_result(&mut ledger, &key, true).unwrap();
    // A later scan sees the path again: the resolved value must survive.
    let added = register_candidate(&mut ledger, "/m/x.mxf").unwrap();
    assert!(!added);
    assert_eq!(ledger.get(&key).unwrap(), Some(vec![2u8]));
}

#[test]
fn plan_pass_lists_exactly_the_unresolved_entries() {
    let mut ledger = Ledger::open_scratch().unwrap();
    let found = paths(&["/m/one.mxf", "/m/two.mxf", "/m/three.mxf"]);
    register_paths(&mut ledger, &found);
    record_result(&mut ledger, &key_bytes("/m/two.mxf"), false).unwrap();

    let work = plan_pass(&ledger.entries());
    let mut planned_paths: Vec<String> = work.iter().map(|w| w.path.clone()).collect();
    planned_paths.sort();
    assert_eq!(planned_paths, vec!["/m/one.mxf".to_string(), "/m/three.mxf".to_string()]);
    for item in &work {
        assert_eq!(item.key, key_bytes(&item.path));
    }
}

#[test]
fn resolved_entries_are_never_replanned() {
    let mut ledger = Ledger::open_scratch().unwrap();
    register_candidate(&mut ledger, "/m/a.mxf").unwrap();
    register_candidate(&mut ledger, "/m/b.mxf").unwrap();
    let work = plan_pass(&ledger.entries());
    assert_eq!(work.len(), 2);
    for item in &work {
        record_result(&mut ledger, &item.key, false).unwrap();
    }
    // The whole pass again: nothing left to run, so the analyzer would not
    // be invoked a second time for any of them.
    let again = plan_pass(&ledger.entries());
    assert!(again.is_empty());
}

#[test]
fn no_match_outcome_is_recorded_as_resolved_no_match() {
    let mut ledger = Ledger::open_scratch().unwrap();
    register_candidate(&mut ledger, "/m/a.mxf").unwrap();
    let key = key_bytes("/m/a.mxf");
    record_result(&mut ledger, &key, false).unwrap();
    assert_eq!(ledger.get(&key).unwrap(), Some(vec![1u8]));
    assert!(plan_pass(&ledger.entries()).is_empty());
}

#[test]
fn malformed_keys_are_skipped_not_planned() {
    let mut ledger = Ledger::open_scratch().unwrap();
    // A key nobody encoded: not base64 at all.
    ledger.set(&b"!!not a key!!".to_vec(), &vec![0u8]).unwrap();
    register_candidate(&mut ledger, "/m/ok.mxf").unwrap();
    let work = plan_pass(&ledger.entries());
    assert_eq!(work.len(), 1);
    assert_eq!(work[0].path, "/m/ok.mxf".to_string());
}

#[test]
fn entry_state_bytes_round_trip() {
    for st in [EntryState::Unresolved, EntryState::NoMatch, EntryState::MatchFound] {
        assert_eq!(parse_state(&encode_state(st)), Some(st));
    }
    assert_eq!(parse_state(&vec![7u8]), None);
    assert_eq!(parse_state(&Vec::new()), None);
    assert_eq!(parse_state(&vec![0u8, 0u8]), None);
}

#[test]
fn summary_counts_processed_and_matched() {
    let results = vec![true, false, true, false, false];
    let s = summarize(&results);
    assert_eq!(s.processed, 5);
    assert_eq!(s.matched, 2);
}

#[test]
fn flush_succeeds_on_scratch_store() {
    let mut ledger = Ledger::open_scratch().unwrap();
    register_candidate(&mut ledger, "/m/a.mxf").unwrap();
    assert!(ledger.flush().is_ok());
}
