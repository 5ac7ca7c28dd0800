use item_write::aggregate::{aggregate, write_many_with_responses};
use item_write::chunk::chunk;
use item_write::reconcile::reconcile;
use item_write::sift::sift_serialized;
use item_write::wire::{Entry, Failure, FailureReason, WireRequest};
use item_write::engine::StoreResponse;
use item_write::MAX_BATCH_SIZE;

fn wire(tag: u8) -> WireRequest {
    WireRequest::new(vec![tag, 7])
}

fn entry(id: usize) -> Entry {
    Entry::new(id, wire(id as u8))
}

fn accepted(unprocessed: Vec<WireRequest>) -> StoreResponse {
    StoreResponse::Accepted { unprocessed }
}

#[test]
fn chunking_splits_42_records_into_25_and_17() {
    let entries: Vec<Entry> = (0..42).map(entry).collect();
    let groups = chunk(&entries);
    assert_eq!(groups.len(), 2);
    assert_eq!(groups[0].len(), MAX_BATCH_SIZE);
    assert_eq!(groups[1].len(), 17);
    assert_eq!(groups[0][0].id, 0);
    assert_eq!(groups[0][24].id, 24);
    assert_eq!(groups[1][0].id, 25);
    assert_eq!(groups[1][16].id, 41);
}

#[test]
fn chunking_empty_input_yields_no_groups() {
    let entries: Vec<Entry> = Vec::new();
    assert!(chunk(&entries).is_empty());
}

#[test]
fn chunking_at_the_limit_yields_one_full_group() {
    let entries: Vec<Entry> = (0..MAX_BATCH_SIZE).map(entry).collect();
    let groups = chunk(&entries);
    assert_eq!(groups.len(), 1);
    assert_eq!(groups[0].len(), MAX_BATCH_SIZE);
}

#[test]
fn wire_requests_match_by_content_only() {
    let a = WireRequest::new(vec![1, 2, 3]);
    let b = WireRequest::new(vec![1, 2, 3]);
    let c = WireRequest::new(vec![1, 2, 4]);
    assert!(a.matches(&b));
    assert!(!a.matches(&c));
    assert!(!a.matches(&WireRequest::new(vec![1, 2])));
}

#[test]
fn reconcile_keeps_matches_in_remaining_order() {
    let remaining = vec![entry(0), entry(1), entry(2)];
    let unprocessed = vec![wire(2), wire(0)];
    let kept = reconcile(&remaining, &unprocessed);
    let ids: Vec<usize> = kept.iter().map(|e| e.id).collect();
    assert_eq!(ids, vec![0, 2]);
}

#[test]
fn reconcile_cannot_tell_identical_content_apart() {
    let twin_a = Entry::new(0, WireRequest::new(vec![9]));
    let twin_b = Entry::new(1, WireRequest::new(vec![9]));
    let kept = reconcile(&vec![twin_a, twin_b], &vec![WireRequest::new(vec![9])]);
    assert_eq!(kept.len(), 2);
}

#[test]
fn sift_routes_rejected_records_to_failures() {
    let outcomes = vec![Some(wire(0)), None, Some(wire(2))];
    let (entries, failures) = sift_serialized(&outcomes);
    assert_eq!(entries.len(), 2);
    assert_eq!(entries[0].id, 0);
    assert_eq!(entries[1].id, 2);
    assert_eq!(failures.len(), 1);
    assert_eq!(failures[0].id, 1);
    assert!(matches!(failures[0].reason, FailureReason::Serialization));
}

#[test]
fn aggregate_reports_success_when_nothing_failed() {
    let report = aggregate(Vec::new(), vec![Vec::new(), Vec::new()]);
    assert!(report.is_ok());
}

#[test]
fn aggregate_lists_serializer_failures_first() {
    let serial = vec![Failure { id: 1, reason: FailureReason::Serialization }];
    let groups = vec![
        Vec::new(),
        vec![Failure { id: 4, reason: FailureReason::RetriesExceeded }],
    ];
    let listed = aggregate(serial, groups).expect_err("two records failed");
    assert_eq!(listed.len(), 2);
    assert_eq!(listed[0].id, 1);
    assert_eq!(listed[1].id, 4);
}

#[test]
fn single_record_accepted_first_call_is_clean_success() {
    let outcomes = vec![Some(wire(0))];
    let scripts = vec![vec![accepted(vec![])]];
    let report = write_many_with_responses(&outcomes, &scripts)
        .expect("one response suffices");
    assert!(report.is_ok());
}

#[test]
fn retried_record_succeeding_later_is_still_success() {
    let outcomes = vec![Some(wire(0)), Some(wire(1))];
    let scripts = vec![vec![accepted(vec![wire(1)]), accepted(vec![])]];
    let report = write_many_with_responses(&outcomes, &scripts)
        .expect("two responses suffice");
    assert!(report.is_ok());
}

#[test]
fn failure_in_second_group_leaves_first_group_untouched() {
    let outcomes: Vec<Option<WireRequest>> = (0..42).map(|i| Some(wire(i as u8))).collect();
    let scripts = vec![
        vec![accepted(vec![])],
        vec![StoreResponse::Failed { message: String::from("endpoint down") }],
    ];
    let listed = write_many_with_responses(&outcomes, &scripts)
        .expect("each group's responses suffice")
        .expect_err("the second group failed");
    assert_eq!(listed.len(), 17);
    for f in &listed {
        assert!(f.id >= 25 && f.id < 42);
        match &f.reason {
            FailureReason::CallFailed { message } => assert_eq!(message.as_str(), "endpoint down"),
            other => panic!("unexpected reason {:?}", other),
        }
    }
}

#[test]
fn rejected_record_never_reaches_the_store() {
    let outcomes = vec![None];
    let scripts: Vec<Vec<StoreResponse>> = Vec::new();
    let report = write_many_with_responses(&outcomes, &scripts)
        .expect("no group means no responses needed");
    let listed = report.expect_err("the record was never written");
    assert_eq!(listed.len(), 1);
    assert_eq!(listed[0].id, 0);
    assert!(matches!(listed[0].reason, FailureReason::Serialization));

    let (entries, _) = sift_serialized(&outcomes);
    assert!(chunk(&entries).is_empty());
}

#[test]
fn every_failed_record_is_reported_exactly_once() {
    // three records: one that cannot serialize, one that the store keeps
    // rejecting, one that succeeds on the first call
    let outcomes = vec![None, Some(wire(1)), Some(wire(2))];
    let keep_rejecting: Vec<StoreResponse> =
        (0..6).map(|_| accepted(vec![wire(1)])).collect();
    let scripts = vec![keep_rejecting];
    let listed = write_many_with_responses(&outcomes, &scripts)
        .expect("six responses suffice")
        .expect_err("two records failed");
    let mut ids: Vec<usize> = listed.iter().map(|f| f.id).collect();
    ids.sort();
    assert_eq!(ids, vec![0, 1]);
    assert!(matches!(listed[0].reason, FailureReason::Serialization));
    assert!(matches!(listed[1].reason, FailureReason::RetriesExceeded));
}

#[test]
fn too_short_script_reports_no_terminal_state() {
    let outcomes = vec![Some(wire(0))];
    let scripts: Vec<Vec<StoreResponse>> = vec![Vec::new()];
    assert!(write_many_with_responses(&outcomes, &scripts).is_none());
}
