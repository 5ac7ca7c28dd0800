use crate::wire::{
    entry_views, failure_views, Entry, EntryView, Failure, FailureReason, FailureView, ReasonView,
    WireRequest,
};
use vstd::prelude::*;

verus! {

/// The views of per-record serialization outcomes: the serialized bytes,
/// or None for a record the serializer rejected.
pub open spec fn outcome_views(s: Seq<Option<WireRequest>>) -> Seq<Option<Seq<u8>>> {
    s.map_values(
        |o: Option<WireRequest>|
            match o {
                Option::Some(w) => Option::Some(w@),
                Option::None => Option::None,
            },
    )
}

/// The entries that reach the chunker: one per successfully serialized
/// record, carrying the record's position and its wire form, in input
/// order.
pub open spec fn encoded_entries(outcomes: Seq<Option<Seq<u8>>>) -> Seq<EntryView>
    decreases outcomes.len(),
{
    if outcomes.len() == 0 {
        Seq::empty()
    } else {
        let rest = encoded_entries(outcomes.drop_last());
        match outcomes.last() {
            Option::Some(w) => rest.push(EntryView { id: outcomes.len() - 1, req: w }),
            Option::None => rest,
        }
    }
}

/// The failures the serializer alone produces: one per rejected record, in
/// input order, each with the serialization reason.
pub open spec fn serial_failures(outcomes: Seq<Option<Seq<u8>>>) -> Seq<FailureView>
    decreases outcomes.len(),
{
    if outcomes.len() == 0 {
        Seq::empty()
    } else {
        let rest = serial_failures(outcomes.drop_last());
        match outcomes.last() {
            Option::Some(_) => rest,
            Option::None => rest.push(
                FailureView { id: outcomes.len() - 1, reason: ReasonView::Serialization },
            ),
        }
    }
}

/// Applies the serialization policy: a record that serialized becomes an
/// entry bound for the chunker; a record the serializer rejected goes
/// straight to the failure report and never reaches the store.
pub fn sift_serialized(outcomes: &Vec<Option<WireRequest>>) -> (r: (Vec<Entry>, Vec<Failure>))
    ensures
        entry_views(r.0@) == encoded_entries(outcome_views(outcomes@)),
        failure_views(r.1@) == serial_failures(outcome_views(outcomes@)),
{
    let ghost ov = outcome_views(outcomes@);
    let mut entries: Vec<Entry> = Vec::new();
    let mut fails: Vec<Failure> = Vec::new();
    let mut i: usize = 0;
    while i < outcomes.len()
        invariant
            i <= outcomes.len(),
            ov == outcome_views(outcomes@),
            entry_views(entries@) == encoded_entries(ov.take(i as int)),
            failure_views(fails@) == serial_failures(ov.take(i as int)),
        decreases outcomes.len() - i,
    {
        let ghost pre_entries = entry_views(entries@);
        let ghost pre_fails = failure_views(fails@);
        match &outcomes[i] {
            Option::Some(w) => {
                entries.push(Entry::new(i, w.duplicate()));
            },
            Option::None => {
                fails.push(Failure { id: i, reason: FailureReason::Serialization });
            },
        }
        proof {
            let cur = ov.take(i + 1);
            assert(cur.drop_last() =~= ov.take(i as int));
            assert(cur.last() == ov[i as int]);
            match ov[i as int] {
                Option::Some(w) => {
                    assert(entry_views(entries@) =~= pre_entries.push(
                        EntryView { id: i as int, req: w },
                    ));
                },
                Option::None => {
                    assert(failure_views(fails@) =~= pre_fails.push(
                        FailureView { id: i as int, reason: ReasonView::Serialization },
                    ));
                },
            }
        }
        i += 1;
    }
    proof {
        assert(ov.take(i as int) =~= ov);
    }
    (entries, fails)
}

/// Where the sifted sequences point: every entry carries the position of a
/// record that serialized, together with its bytes, and positions strictly
/// increase, so no record yields two entries.
pub proof fn lemma_encoded_entries_ids(outcomes: Seq<Option<Seq<u8>>>)
    ensures
        forall|k: int|
            0 <= k < encoded_entries(outcomes).len() ==> {
                let e = #[trigger] encoded_entries(outcomes)[k];
                &&& 0 <= e.id < outcomes.len()
                &&& outcomes[e.id] == Option::Some(e.req)
            },
        forall|k1: int, k2: int|
            0 <= k1 < k2 < encoded_entries(outcomes).len()
                ==> (#[trigger] encoded_entries(outcomes)[k1]).id < (
            #[trigger] encoded_entries(outcomes)[k2]).id,
    decreases outcomes.len(),
{
    if outcomes.len() > 0 {
        lemma_encoded_entries_ids(outcomes.drop_last());
        let head = outcomes.drop_last();
        let enc = encoded_entries(outcomes);
        assert forall|k: int| 0 <= k < enc.len() implies {
            let e = #[trigger] enc[k];
            &&& 0 <= e.id < outcomes.len()
            &&& outcomes[e.id] == Option::Some(e.req)
        } by {
            if k < encoded_entries(head).len() {
                let e = encoded_entries(head)[k];
                assert(head[e.id] == Option::Some(e.req));
                assert(outcomes[e.id] == head[e.id]);
            }
        }
    }
}

/// Where the serializer's failures point: every failure carries the
/// position of a rejected record, and positions strictly increase, so no
/// record is reported twice by the serializer.
pub proof fn lemma_serial_failures_ids(outcomes: Seq<Option<Seq<u8>>>)
    ensures
        forall|k: int|
            0 <= k < serial_failures(outcomes).len() ==> {
                let f = #[trigger] serial_failures(outcomes)[k];
                &&& 0 <= f.id < outcomes.len()
                &&& outcomes[f.id] is None
                &&& f.reason == ReasonView::Serialization
            },
        forall|k1: int, k2: int|
            0 <= k1 < k2 < serial_failures(outcomes).len()
                ==> (#[trigger] serial_failures(outcomes)[k1]).id < (
            #[trigger] serial_failures(outcomes)[k2]).id,
    decreases outcomes.len(),
{
    if outcomes.len() > 0 {
        lemma_serial_failures_ids(outcomes.drop_last());
        let head = outcomes.drop_last();
        let sf = serial_failures(outcomes);
        assert forall|k: int| 0 <= k < sf.len() implies {
            let f = #[trigger] sf[k];
            &&& 0 <= f.id < outcomes.len()
            &&& outcomes[f.id] is None
            &&& f.reason == ReasonView::Serialization
        } by {
            if k < serial_failures(head).len() {
                let f = serial_failures(head)[k];
                assert(head[f.id] is None);
                assert(outcomes[f.id] == head[f.id]);
            }
        }
    }
}

} // verus!
