use item_write::engine::{
    backoff_delay_ms, group_start, group_step, run_group, StepOutcome, StoreResponse,
};
use item_write::wire::{Entry, FailureReason, WireRequest};
use item_write::MAX_RETRIES;

fn wire(tag: u8) -> WireRequest {
    WireRequest::new(vec![tag, tag.wrapping_add(1)])
}

fn entry(id: usize) -> Entry {
    Entry::new(id, wire(id as u8))
}

fn accepted(unprocessed: Vec<WireRequest>) -> StoreResponse {
    StoreResponse::Accepted { unprocessed }
}

#[test]
fn backoff_doubles_from_200ms() {
    assert_eq!(backoff_delay_ms(1), 200);
    assert_eq!(backoff_delay_ms(2), 400);
    assert_eq!(backoff_delay_ms(3), 800);
    assert_eq!(backoff_delay_ms(4), 1600);
    assert_eq!(backoff_delay_ms(5), 3200);
    let mut previous: u64 = 0;
    for k in 1..=MAX_RETRIES {
        let d = backoff_delay_ms(k);
        assert!(d > previous);
        previous = d;
    }
}

#[test]
fn first_call_clean_means_one_call_no_delay() {
    let group = vec![entry(0), entry(1)];
    let responses = vec![accepted(vec![])];
    let run = run_group(group, &responses).expect("one response suffices");
    assert_eq!(run.calls, 1);
    assert!(run.delays.is_empty());
    assert!(run.failures.is_empty());
}

#[test]
fn one_unprocessed_then_accepted_records_one_retry() {
    let group = vec![entry(0), entry(1)];
    let responses = vec![accepted(vec![wire(1)]), accepted(vec![])];
    let run = run_group(group, &responses).expect("two responses suffice");
    assert_eq!(run.calls, 2);
    assert_eq!(run.delays, vec![200]);
    assert!(run.failures.is_empty());
}

#[test]
fn full_batch_unprocessed_exhausts_every_retry() {
    let group = vec![entry(0), entry(1)];
    let echo_all = || accepted(vec![wire(0), wire(1)]);
    let responses: Vec<StoreResponse> = (0..=MAX_RETRIES).map(|_| echo_all()).collect();
    let run = run_group(group, &responses).expect("a response per attempt suffices");
    assert_eq!(run.calls, (MAX_RETRIES + 1) as usize);
    assert_eq!(run.delays, vec![200, 400, 800, 1600, 3200]);
    assert_eq!(run.failures.len(), 2);
    let mut ids: Vec<usize> = run.failures.iter().map(|f| f.id).collect();
    ids.sort();
    assert_eq!(ids, vec![0, 1]);
    for f in &run.failures {
        assert!(matches!(f.reason, FailureReason::RetriesExceeded));
    }
}

#[test]
fn call_error_fails_all_remaining_at_once() {
    let group = vec![entry(3), entry(4), entry(5)];
    let responses = vec![StoreResponse::Failed { message: String::from("throttled") }];
    let run = run_group(group, &responses).expect("one response suffices");
    assert_eq!(run.calls, 1);
    assert!(run.delays.is_empty());
    assert_eq!(run.failures.len(), 3);
    for f in &run.failures {
        match &f.reason {
            FailureReason::CallFailed { message } => assert_eq!(message.as_str(), "throttled"),
            other => panic!("unexpected reason {:?}", other),
        }
    }
}

#[test]
fn call_error_after_partial_success_fails_only_remaining() {
    let group = vec![entry(0), entry(1)];
    let responses = vec![
        accepted(vec![wire(1)]),
        StoreResponse::Failed { message: String::from("connection reset") },
    ];
    let run = run_group(group, &responses).expect("two responses suffice");
    assert_eq!(run.calls, 2);
    assert_eq!(run.delays, vec![200]);
    assert_eq!(run.failures.len(), 1);
    assert_eq!(run.failures[0].id, 1);
}

#[test]
fn responses_running_out_reports_no_terminal_state() {
    let group = vec![entry(0)];
    let responses: Vec<StoreResponse> = Vec::new();
    assert!(run_group(group, &responses).is_none());
}

#[test]
fn empty_group_makes_no_store_call() {
    let group: Vec<Entry> = Vec::new();
    let responses: Vec<StoreResponse> = Vec::new();
    let run = run_group(group, &responses).expect("an empty group needs no response");
    assert_eq!(run.calls, 0);
    assert!(run.failures.is_empty());
    assert!(run.delays.is_empty());
}

#[test]
fn step_retry_then_done_shrinks_remaining() {
    let mut state = group_start(vec![entry(0), entry(1), entry(2)]);
    let outcome = group_step(&mut state, &accepted(vec![wire(2)]));
    match outcome {
        StepOutcome::Retry { delay_ms } => assert_eq!(delay_ms, 200),
        other => panic!("expected a retry, got {:?}", outcome_name(&other)),
    }
    assert_eq!(state.remaining.len(), 1);
    assert_eq!(state.remaining[0].id, 2);
    assert_eq!(state.attempt, 1);
    let outcome = group_step(&mut state, &accepted(vec![]));
    assert!(matches!(outcome, StepOutcome::Done));
    assert!(state.remaining.is_empty());
}

fn outcome_name(o: &StepOutcome) -> &'static str {
    match o {
        StepOutcome::Retry { .. } => "Retry",
        StepOutcome::Done => "Done",
        StepOutcome::Failed { .. } => "Failed",
    }
}
