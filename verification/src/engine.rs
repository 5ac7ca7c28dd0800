use crate::reconcile::{
    distinct_ids, lemma_reconciled_all_present, lemma_reconciled_none_present,
    lemma_reconciled_within, reconcile, reconciled, wire_views,
};
use crate::wire::{
    entry_views, failure_views, Entry, EntryView, Failure, FailureReason, FailureView, ReasonView,
    WireRequest,
};
use crate::{BASE_DELAY_MS, MAX_RETRIES};
use vstd::arithmetic::power2::{lemma2_to64, lemma_pow2_adds, lemma_pow2_strictly_increases, pow2};
use vstd::prelude::*;

verus! {

/// Backoff delay, in milliseconds, before retry `k` (1-indexed): the base
/// delay doubled `k` times.
pub open spec fn backoff_ms(k: nat) -> nat {
    (BASE_DELAY_MS as nat) * pow2(k)
}

/// Backoff law: delays grow strictly with the retry index.
pub proof fn lemma_backoff_strictly_increasing(k1: nat, k2: nat)
    requires
        k1 < k2,
    ensures
        backoff_ms(k1) < backoff_ms(k2),
{
    lemma_pow2_strictly_increases(k1, k2);
}

/// Computes the backoff delay before retry `k`. The delay is slept only
/// between retries: never before a group's first attempt and never after
/// its final failed attempt.
pub fn backoff_delay_ms(k: u32) -> (d: u64)
    requires
        1 <= k <= MAX_RETRIES,
    ensures
        d == backoff_ms(k as nat),
{
    proof {
        lemma2_to64();
    }
    let mut d: u64 = BASE_DELAY_MS;
    let mut j: u32 = 0;
    while j < k
        invariant
            j <= k <= MAX_RETRIES,
            d == backoff_ms(j as nat),
        decreases k - j,
    {
        proof {
            lemma2_to64();
            if (j as nat) < 4 {
                lemma_pow2_strictly_increases(j as nat, 4);
            }
            lemma_pow2_adds(j as nat, 1);
        }
        d = d * 2;
        j += 1;
    }
    d
}

/// The response of one store call, as the engine evaluates it: either the
/// call succeeded and the store reported zero or more entries as
/// unprocessed, or the whole call failed.
pub enum StoreResponse {
    /// The call succeeded; the store did not apply these entries.
    Accepted { unprocessed: Vec<WireRequest> },
    /// The whole call failed; the message describes the error.
    Failed { message: String },
}

/// A store response as specifications see it.
pub ghost enum StoreResponseView {
    Accepted(Seq<Seq<u8>>),
    Failed(Seq<char>),
}

impl View for StoreResponse {
    type V = StoreResponseView;

    open spec fn view(&self) -> StoreResponseView {
        match self {
            StoreResponse::Accepted { unprocessed } => StoreResponseView::Accepted(
                wire_views(unprocessed@),
            ),
            StoreResponse::Failed { message } => StoreResponseView::Failed(message@),
        }
    }
}

/// The views of a sequence of store responses.
pub open spec fn response_views(s: Seq<StoreResponse>) -> Seq<StoreResponseView> {
    s.map_values(|r: StoreResponse| r@)
}

/// The retry state of one group as specifications see it.
pub ghost struct GroupStateView {
    pub remaining: Seq<EntryView>,
    pub attempt: nat,
}

/// The retry state of one group: the entries still needing a write and the
/// number of retries performed so far. Owned exclusively by the group's
/// retry loop; the remaining set only shrinks, and already-confirmed
/// entries are never resent.
pub struct GroupState {
    pub remaining: Vec<Entry>,
    pub attempt: u32,
}

impl View for GroupState {
    type V = GroupStateView;

    open spec fn view(&self) -> GroupStateView {
        GroupStateView { remaining: entry_views(self.remaining@), attempt: self.attempt as nat }
    }
}

impl GroupState {
    /// The attempt counter never passes the retry ceiling.
    pub open spec fn wf(&self) -> bool {
        self.attempt <= MAX_RETRIES
    }
}

/// What the retry loop must do next after evaluating one store response.
pub enum StepOutcome {
    /// Sleep this many milliseconds, then send the state's remaining
    /// entries in a new call.
    Retry { delay_ms: u64 },
    /// Every entry of the group is durably written.
    Done,
    /// Terminal failure: these entries never succeeded.
    Failed { failures: Vec<Failure> },
}

/// A step outcome as specifications see it.
pub ghost enum StepOutcomeView {
    Retry(nat),
    Done,
    Failed(Seq<FailureView>),
}

impl View for StepOutcome {
    type V = StepOutcomeView;

    open spec fn view(&self) -> StepOutcomeView {
        match self {
            StepOutcome::Retry { delay_ms } => StepOutcomeView::Retry(*delay_ms as nat),
            StepOutcome::Done => StepOutcomeView::Done,
            StepOutcome::Failed { failures } => StepOutcomeView::Failed(failure_views(failures@)),
        }
    }
}

/// Every entry marked failed with the given reason, in order.
pub open spec fn all_failed(remaining: Seq<EntryView>, reason: ReasonView) -> Seq<FailureView> {
    remaining.map_values(|e: EntryView| (FailureView { id: e.id, reason }))
}

fn fail_all(remaining: &Vec<Entry>, reason: &FailureReason) -> (r: Vec<Failure>)
    ensures
        failure_views(r@) == all_failed(entry_views(remaining@), reason@),
{
    let mut r: Vec<Failure> = Vec::new();
    let mut i: usize = 0;
    while i < remaining.len()
        invariant
            i <= remaining.len(),
            r@.len() == i,
            forall|j: int|
                0 <= j < i ==> (#[trigger] r@[j])@ == (FailureView {
                    id: remaining@[j]@.id,
                    reason: reason@,
                }),
        decreases remaining.len() - i,
    {
        r.push(Failure { id: remaining[i].id, reason: reason.duplicate() });
        i += 1;
    }
    proof {
        assert(failure_views(r@) =~= all_failed(entry_views(remaining@), reason@));
    }
    r
}

/// Begins a group's retry loop: every pair of the group remaining, attempt
/// counter at zero. The first store call carries exactly these entries, and
/// no delay precedes it.
pub fn group_start(group: Vec<Entry>) -> (s: GroupState)
    ensures
        s.wf(),
        s@.remaining == entry_views(group@),
        s@.attempt == 0,
{
    GroupState { remaining: group, attempt: 0 }
}

/// Evaluates one store response and moves the group's state machine one
/// step. On an accepted call, the unprocessed entries are reconciled back
/// to the group's members and become the new remaining set: if none remain
/// the group is done; if the retry budget is not exhausted the counter is
/// incremented and the caller must sleep the returned backoff delay before
/// resending; otherwise every reconciled entry is failed as unprocessed
/// after the final retry. On a failed call, every currently-remaining entry
/// is failed with the call's message at once, with no further retries.
pub fn group_step(state: &mut GroupState, response: &StoreResponse) -> (outcome: StepOutcome)
    requires
        old(state).wf(),
    ensures
        final(state).wf(),
        match response@ {
            StoreResponseView::Failed(msg) => {
                &&& outcome@ == StepOutcomeView::Failed(
                    all_failed(old(state)@.remaining, ReasonView::CallFailed(msg)),
                )
                &&& final(state)@.remaining.len() == 0
                &&& final(state)@.attempt == old(state)@.attempt
            },
            StoreResponseView::Accepted(unp) => {
                let rem = reconciled(old(state)@.remaining, unp);
                if rem.len() == 0 {
                    &&& outcome@ == StepOutcomeView::Done
                    &&& final(state)@.remaining == rem
                    &&& final(state)@.attempt == old(state)@.attempt
                } else if old(state)@.attempt < MAX_RETRIES {
                    &&& outcome@ == StepOutcomeView::Retry(backoff_ms(old(state)@.attempt + 1))
                    &&& final(state)@.remaining == rem
                    &&& final(state)@.attempt == old(state)@.attempt + 1
                } else {
                    &&& outcome@ == StepOutcomeView::Failed(
                        all_failed(rem, ReasonView::RetriesExceeded),
                    )
                    &&& final(state)@.remaining.len() == 0
                    &&& final(state)@.attempt == old(state)@.attempt
                }
            },
        },
{
    match response {
        StoreResponse::Failed { message } => {
            let reason = FailureReason::CallFailed { message: message.clone() };
            let fs = fail_all(&state.remaining, &reason);
            state.remaining = Vec::new();
            proof {
                assert(entry_views(Seq::<Entry>::empty()).len() == 0);
            }
            StepOutcome::Failed { failures: fs }
        },
        StoreResponse::Accepted { unprocessed } => {
            let rem = reconcile(&state.remaining, unprocessed);
            if rem.len() == 0 {
                state.remaining = rem;
                StepOutcome::Done
            } else if state.attempt < MAX_RETRIES {
                state.remaining = rem;
                state.attempt = state.attempt + 1;
                let d = backoff_delay_ms(state.attempt);
                StepOutcome::Retry { delay_ms: d }
            } else {
                let fs = fail_all(&rem, &FailureReason::RetriesExceeded);
                state.remaining = Vec::new();
                StepOutcome::Failed { failures: fs }
            }
        },
    }
}

/// The complete trace of one group's retry loop over store responses
/// consumed in order, one per call: whether the responses sufficed to reach
/// a terminal state, the failures reported there (none exactly when every
/// entry was durably written), the backoff delays slept before each retry,
/// and the number of store calls made.
pub ghost struct RunView {
    pub complete: bool,
    pub failures: Seq<FailureView>,
    pub delays: Seq<nat>,
    pub calls: nat,
}

/// The trace of the retry loop started on `remaining` with the given
/// attempt counter, evaluated against the responses in order.
pub open spec fn run_from(
    remaining: Seq<EntryView>,
    attempt: nat,
    responses: Seq<StoreResponseView>,
) -> RunView
    decreases responses.len(),
{
    if remaining.len() == 0 {
        RunView {
            complete: true,
            failures: Seq::empty(),
            delays: Seq::empty(),
            calls: 0,
        }
    } else if responses.len() == 0 {
        RunView {
            complete: false,
            failures: Seq::empty(),
            delays: Seq::empty(),
            calls: 0,
        }
    } else {
        match responses[0] {
            StoreResponseView::Failed(msg) => RunView {
                complete: true,
                failures: all_failed(remaining, ReasonView::CallFailed(msg)),
                delays: Seq::empty(),
                calls: 1,
            },
            StoreResponseView::Accepted(unp) => {
                let rem = reconciled(remaining, unp);
                if rem.len() == 0 {
                    RunView {
                        complete: true,
                        failures: Seq::empty(),
                        delays: Seq::empty(),
                        calls: 1,
                    }
                } else if attempt < MAX_RETRIES {
                    let sub = run_from(rem, attempt + 1, responses.drop_first());
                    RunView {
                        complete: sub.complete,
                        failures: sub.failures,
                        delays: seq![backoff_ms(attempt + 1)].add(sub.delays),
                        calls: 1 + sub.calls,
                    }
                } else {
                    RunView {
                        complete: true,
                        failures: all_failed(rem, ReasonView::RetriesExceeded),
                        delays: Seq::empty(),
                        calls: 1,
                    }
                }
            },
        }
    }
}

/// A run makes at most one store call per response.
pub proof fn lemma_run_calls_bound(
    remaining: Seq<EntryView>,
    attempt: nat,
    responses: Seq<StoreResponseView>,
)
    ensures
        run_from(remaining, attempt, responses).calls <= responses.len(),
        responses.len() == 0 ==> run_from(remaining, attempt, responses).calls == 0,
    decreases responses.len(),
{
    if remaining.len() > 0 && responses.len() > 0 {
        match responses[0] {
            StoreResponseView::Failed(_) => {},
            StoreResponseView::Accepted(unp) => {
                let rem = reconciled(remaining, unp);
                if rem.len() > 0 && attempt < MAX_RETRIES {
                    lemma_run_calls_bound(rem, attempt + 1, responses.drop_first());
                }
            },
        }
    }
}

/// The views of a sequence of delays.
pub open spec fn delay_views(s: Seq<u64>) -> Seq<nat> {
    s.map_values(|d: u64| d as nat)
}

/// What one group run produced: the failures of its terminal state, the
/// backoff delays slept in order, and the number of store calls made.
pub struct GroupRun {
    pub failures: Vec<Failure>,
    pub delays: Vec<u64>,
    pub calls: usize,
}

impl GroupRun {
    /// This run is the given trace, reached in a terminal state.
    pub open spec fn matches_run(&self, rv: RunView) -> bool {
        &&& rv.complete
        &&& failure_views(self.failures@) == rv.failures
        &&& delay_views(self.delays@) == rv.delays
        &&& self.calls as nat == rv.calls
    }
}

fn run_group_from(state: GroupState, responses: &Vec<StoreResponse>, idx: usize) -> (r: Option<
    GroupRun,
>)
    requires
        state.wf(),
        idx <= responses.len(),
    ensures
        ({
            let rv = run_from(
                state@.remaining,
                state@.attempt,
                response_views(responses@).skip(idx as int),
            );
            match r {
                Some(run) => run.matches_run(rv),
                None => !rv.complete,
            }
        }),
    decreases responses.len() - idx,
{
    let ghost rsv = response_views(responses@).skip(idx as int);
    if state.remaining.len() == 0 {
        let run = GroupRun { failures: Vec::new(), delays: Vec::new(), calls: 0 };
        proof {
            assert(failure_views(run.failures@) =~= Seq::<FailureView>::empty());
            assert(delay_views(run.delays@) =~= Seq::<nat>::empty());
        }
        return Some(run);
    }
    if idx == responses.len() {
        proof {
            assert(rsv.len() == 0);
        }
        return None;
    }
    let mut state = state;
    let ghost pre = state@;
    let outcome = group_step(&mut state, &responses[idx]);
    proof {
        assert(rsv[0] == response_views(responses@)[idx as int]);
        assert(rsv[0] == responses@[idx as int]@);
    }
    match outcome {
        StepOutcome::Done => {
            let run = GroupRun { failures: Vec::new(), delays: Vec::new(), calls: 1 };
            proof {
                assert(failure_views(run.failures@) =~= Seq::<FailureView>::empty());
                assert(delay_views(run.delays@) =~= Seq::<nat>::empty());
            }
            Some(run)
        },
        StepOutcome::Failed { failures } => {
            let run = GroupRun { failures, delays: Vec::new(), calls: 1 };
            proof {
                assert(delay_views(run.delays@) =~= Seq::<nat>::empty());
            }
            Some(run)
        },
        StepOutcome::Retry { delay_ms } => {
            proof {
                assert(response_views(responses@).skip(idx + 1) =~= rsv.drop_first());
            }
            let sub = run_group_from(state, responses, idx + 1);
            match sub {
                None => None,
                Some(sub_run) => {
                    let GroupRun { failures, delays: mut rest, calls } = sub_run;
                    proof {
                        lemma_run_calls_bound(
                            state@.remaining,
                            state@.attempt,
                            response_views(responses@).skip(idx + 1),
                        );
                    }
                    let mut delays: Vec<u64> = Vec::new();
                    delays.push(delay_ms);
                    delays.append(&mut rest);
                    proof {
                        let rv = run_from(pre.remaining, pre.attempt, rsv);
                        assert(delay_views(delays@) =~= seq![backoff_ms(pre.attempt + 1)].add(
                            rv.delays.drop_first(),
                        ));
                        assert(delay_views(delays@) =~= rv.delays);
                    }
                    Some(GroupRun { failures, delays, calls: 1 + calls })
                },
            }
        },
    }
}

/// First-call success law: when the store's first response accepts the
/// call and reports zero unprocessed entries, the group makes exactly one
/// store call, performs zero retries, sleeps no backoff delay, and fails
/// no record.
pub proof fn lemma_first_call_clean(remaining: Seq<EntryView>, responses: Seq<StoreResponseView>)
    requires
        remaining.len() > 0,
        responses.len() > 0,
        responses[0] == StoreResponseView::Accepted(Seq::<Seq<u8>>::empty()),
    ensures
        run_from(remaining, 0, responses) == (RunView {
            complete: true,
            failures: Seq::<FailureView>::empty(),
            delays: Seq::<nat>::empty(),
            calls: 1,
        }),
{
    lemma_reconciled_none_present(remaining, Seq::<Seq<u8>>::empty());
}

/// Call-error law: when a store call fails as a whole, every entry still
/// remaining in that attempt is failed at once with the call's message,
/// with zero additional retries and no further delay, whatever the attempt
/// counter stood at.
pub proof fn lemma_call_error_fails_rest(
    remaining: Seq<EntryView>,
    attempt: nat,
    responses: Seq<StoreResponseView>,
    msg: Seq<char>,
)
    requires
        remaining.len() > 0,
        responses.len() > 0,
        responses[0] == StoreResponseView::Failed(msg),
    ensures
        run_from(remaining, attempt, responses) == (RunView {
            complete: true,
            failures: all_failed(remaining, ReasonView::CallFailed(msg)),
            delays: Seq::<nat>::empty(),
            calls: 1,
        }),
{
}

/// The response accepts the call but echoes every one of `remaining` back
/// as unprocessed.
pub open spec fn echoes_all(r: StoreResponseView, remaining: Seq<EntryView>) -> bool {
    match r {
        StoreResponseView::Accepted(unp) => forall|i: int|
            0 <= i < remaining.len() ==> crate::reconcile::wire_present(
                (#[trigger] remaining[i]).req,
                unp,
            ),
        StoreResponseView::Failed(_) => false,
    }
}

/// Exhaustion law: if from the given attempt on, every response accepts the
/// call but echoes the full batch back as unprocessed, the group performs
/// exactly the remaining `MAX_RETRIES - attempt` retries — one store call
/// per attempt — sleeping the backoff delays for the successive retry
/// indices in order, and then fails every member as unprocessed after the
/// final retry. Started at attempt zero, that is exactly `MAX_RETRIES`
/// retries and `MAX_RETRIES + 1` calls.
pub proof fn lemma_always_unprocessed(
    remaining: Seq<EntryView>,
    attempt: nat,
    responses: Seq<StoreResponseView>,
)
    requires
        remaining.len() > 0,
        attempt <= MAX_RETRIES,
        responses.len() >= MAX_RETRIES - attempt + 1,
        forall|j: int|
            0 <= j <= MAX_RETRIES - attempt ==> echoes_all(#[trigger] responses[j], remaining),
    ensures
        run_from(remaining, attempt, responses) == (RunView {
            complete: true,
            failures: all_failed(remaining, ReasonView::RetriesExceeded),
            delays: Seq::new(
                (MAX_RETRIES - attempt) as nat,
                |i: int| backoff_ms((attempt + 1 + i) as nat),
            ),
            calls: (MAX_RETRIES - attempt + 1) as nat,
        }),
    decreases MAX_RETRIES - attempt,
{
    assert(echoes_all(responses[0], remaining));
    let unp = responses[0]->Accepted_0;
    lemma_reconciled_all_present(remaining, unp);
    if attempt == MAX_RETRIES {
        assert(Seq::new(
            (MAX_RETRIES - attempt) as nat,
            |i: int| backoff_ms((attempt + 1 + i) as nat),
        ) =~= Seq::<nat>::empty());
    }
    if attempt < MAX_RETRIES {
        let rest = responses.drop_first();
        assert forall|j: int|
            0 <= j <= MAX_RETRIES - (attempt + 1) implies echoes_all(
            #[trigger] rest[j],
            remaining,
        ) by {
            assert(echoes_all(responses[j + 1], remaining));
        }
        lemma_always_unprocessed(remaining, attempt + 1, rest);
        assert(seq![backoff_ms(attempt + 1)].add(
            Seq::new(
                (MAX_RETRIES - attempt - 1) as nat,
                |i: int| backoff_ms((attempt + 2 + i) as nat),
            ),
        ) =~= Seq::new((MAX_RETRIES - attempt) as nat, |i: int| backoff_ms((attempt + 1 + i) as nat)));
    }
}

/// Delay-shape law: the delays a run sleeps are exactly the backoff delays
/// for the successive retry indices, in order — so they strictly increase —
/// there are at most `MAX_RETRIES` of them, no delay precedes the first
/// call, and on a completed run of a non-empty group exactly one call
/// follows each delay, so no delay follows the terminal call either.
pub proof fn lemma_run_delays_shape(
    remaining: Seq<EntryView>,
    attempt: nat,
    responses: Seq<StoreResponseView>,
)
    requires
        attempt <= MAX_RETRIES,
    ensures
        run_from(remaining, attempt, responses).delays.len() <= MAX_RETRIES - attempt,
        forall|i: int|
            0 <= i < run_from(remaining, attempt, responses).delays.len()
                ==> #[trigger] run_from(remaining, attempt, responses).delays[i] == backoff_ms(
                (attempt + 1 + i) as nat,
            ),
        run_from(remaining, attempt, responses).complete && remaining.len() > 0 ==> run_from(
            remaining,
            attempt,
            responses,
        ).calls == run_from(remaining, attempt, responses).delays.len() + 1,
    decreases responses.len(),
{
    let rv = run_from(remaining, attempt, responses);
    if remaining.len() > 0 && responses.len() > 0 {
        match responses[0] {
            StoreResponseView::Failed(_) => {},
            StoreResponseView::Accepted(unp) => {
                let rem = reconciled(remaining, unp);
                if rem.len() > 0 && attempt < MAX_RETRIES {
                    lemma_run_delays_shape(rem, attempt + 1, responses.drop_first());
                    let sub = run_from(rem, attempt + 1, responses.drop_first());
                    assert forall|i: int| 0 <= i < rv.delays.len() implies #[trigger] rv.delays[i]
                        == backoff_ms((attempt + 1 + i) as nat) by {
                        if i > 0 {
                            assert(rv.delays[i] == sub.delays[i - 1]);
                        }
                    }
                }
            },
        }
    }
}

/// No record appears twice among these failures.
pub open spec fn distinct_failure_ids(s: Seq<FailureView>) -> bool {
    forall|i: int, j: int|
        0 <= i < j < s.len() ==> (#[trigger] s[i]).id != (#[trigger] s[j]).id
}

/// The id names one of these entries.
pub open spec fn id_among(id: int, s: Seq<EntryView>) -> bool {
    exists|i: int| 0 <= i < s.len() && (#[trigger] s[i]).id == id
}

/// Whatever the store answers, a group's terminal failures name only
/// records of that group, and each at most once when the group's ids are
/// distinct.
pub proof fn lemma_run_failures_within(
    remaining: Seq<EntryView>,
    attempt: nat,
    responses: Seq<StoreResponseView>,
)
    ensures
        forall|k: int|
            0 <= k < run_from(remaining, attempt, responses).failures.len() ==> id_among(
                (#[trigger] run_from(remaining, attempt, responses).failures[k]).id,
                remaining,
            ),
        distinct_ids(remaining) ==> distinct_failure_ids(
            run_from(remaining, attempt, responses).failures,
        ),
    decreases responses.len(),
{
    let rv = run_from(remaining, attempt, responses);
    if remaining.len() == 0 || responses.len() == 0 {
    } else {
        match responses[0] {
            StoreResponseView::Failed(msg) => {
                assert forall|k: int| 0 <= k < rv.failures.len() implies id_among(
                    (#[trigger] rv.failures[k]).id,
                    remaining,
                ) by {
                    assert(remaining[k].id == rv.failures[k].id);
                }
            },
            StoreResponseView::Accepted(unp) => {
                let rem = reconciled(remaining, unp);
                lemma_reconciled_within(remaining, unp);
                if rem.len() == 0 {
                } else if attempt < MAX_RETRIES {
                    lemma_run_failures_within(rem, attempt + 1, responses.drop_first());
                    assert forall|k: int| 0 <= k < rv.failures.len() implies id_among(
                        (#[trigger] rv.failures[k]).id,
                        remaining,
                    ) by {
                        assert(id_among(rv.failures[k].id, rem));
                        let i = choose|i: int|
                            0 <= i < rem.len() && (#[trigger] rem[i]).id == rv.failures[k].id;
                        assert(remaining.contains(rem[i]));
                        let j = choose|j: int|
                            0 <= j < remaining.len() && remaining[j] == rem[i];
                        assert(remaining[j].id == rv.failures[k].id);
                    }
                } else {
                    assert forall|k: int| 0 <= k < rv.failures.len() implies id_among(
                        (#[trigger] rv.failures[k]).id,
                        remaining,
                    ) by {
                        assert(rem[k].id == rv.failures[k].id);
                        assert(remaining.contains(rem[k]));
                        let j = choose|j: int|
                            0 <= j < remaining.len() && remaining[j] == rem[k];
                        assert(remaining[j].id == rv.failures[k].id);
                    }
                    if distinct_ids(remaining) {
                        assert forall|i: int, j: int|
                            0 <= i < j < rv.failures.len() implies (#[trigger] rv.failures[i]).id
                            != (#[trigger] rv.failures[j]).id by {
                            assert(rem[i].id == rv.failures[i].id);
                            assert(rem[j].id == rv.failures[j].id);
                        }
                    }
                }
            },
        }
    }
}

/// Runs one group's complete retry loop against the given store responses,
/// consumed in order, one per store call. Returns None when the responses
/// end before the group reaches a terminal state; otherwise the terminal
/// failures, delays and call count of the run.
pub fn run_group(group: Vec<Entry>, responses: &Vec<StoreResponse>) -> (r: Option<GroupRun>)
    ensures
        ({
            let rv = run_from(entry_views(group@), 0, response_views(responses@));
            match r {
                Some(run) => run.matches_run(rv),
                None => !rv.complete,
            }
        }),
{
    proof {
        assert(response_views(responses@).skip(0) =~= response_views(responses@));
    }
    run_group_from(group_start(group), responses, 0)
}

} // verus!
