use crate::wire::{entry_views, Entry, EntryView, WireRequest};
use vstd::prelude::*;

verus! {

/// The views of a sequence of wire requests.
pub open spec fn wire_views(s: Seq<WireRequest>) -> Seq<Seq<u8>> {
    s.map_values(|w: WireRequest| w@)
}

/// Whether wire content `w` is among the contents `unp` the store reported
/// as unprocessed.
pub open spec fn wire_present(w: Seq<u8>, unp: Seq<Seq<u8>>) -> bool {
    exists|k: int| 0 <= k < unp.len() && unp[k] == w
}

/// The subset of `remaining`, in order, whose wire content is among the
/// entries the store reported as unprocessed.
pub open spec fn reconciled(remaining: Seq<EntryView>, unp: Seq<Seq<u8>>) -> Seq<EntryView> {
    remaining.filter(|e: EntryView| wire_present(e.req, unp))
}

fn wire_in(w: &WireRequest, unprocessed: &Vec<WireRequest>) -> (r: bool)
    ensures
        r == wire_present(w@, wire_views(unprocessed@)),
{
    let mut k: usize = 0;
    while k < unprocessed.len()
        invariant
            k <= unprocessed.len(),
            forall|j: int| 0 <= j < k ==> wire_views(unprocessed@)[j] != w@,
        decreases unprocessed.len() - k,
    {
        if unprocessed[k].matches(w) {
            proof {
                assert(wire_views(unprocessed@)[k as int] == w@);
            }
            return true;
        }
        k += 1;
    }
    false
}

/// Maps the store's unprocessed entries back to the group members that
/// produced them: keeps exactly those of `remaining`, in order, whose wire
/// content equals one of the unprocessed entries. The store echoes no
/// caller-assigned identifier, so matching is by full value equality of the
/// serialized request; two records that serialize to identical bytes cannot
/// be told apart here.
pub fn reconcile(remaining: &Vec<Entry>, unprocessed: &Vec<WireRequest>) -> (r: Vec<Entry>)
    ensures
        entry_views(r@) == reconciled(entry_views(remaining@), wire_views(unprocessed@)),
{
    let ghost sv = entry_views(remaining@);
    let ghost unp = wire_views(unprocessed@);
    let mut r: Vec<Entry> = Vec::new();
    let mut i: usize = 0;
    while i < remaining.len()
        invariant
            i <= remaining.len(),
            sv == entry_views(remaining@),
            unp == wire_views(unprocessed@),
            entry_views(r@) == reconciled(sv.take(i as int), unp),
        decreases remaining.len() - i,
    {
        let ghost prev = entry_views(r@);
        let keep = wire_in(&remaining[i].req, unprocessed);
        if keep {
            r.push(remaining[i].duplicate());
        }
        proof {
            reveal(Seq::filter);
            let pred = |e: EntryView| wire_present(e.req, unp);
            let cur = sv.take(i + 1);
            assert(cur.drop_last() =~= sv.take(i as int));
            assert(cur.last() == sv[i as int]);
            assert(sv[i as int].req == remaining@[i as int].req@);
            if keep {
                assert(entry_views(r@) =~= prev.push(remaining@[i as int]@));
            }
        }
        i += 1;
    }
    proof {
        assert(sv.take(i as int) =~= sv);
    }
    r
}

/// If every remaining entry's wire content was echoed back as unprocessed,
/// reconciliation returns the remaining entries unchanged.
pub proof fn lemma_reconciled_all_present(remaining: Seq<EntryView>, unp: Seq<Seq<u8>>)
    requires
        forall|i: int| 0 <= i < remaining.len() ==> wire_present((#[trigger] remaining[i]).req, unp),
    ensures
        reconciled(remaining, unp) == remaining,
    decreases remaining.len(),
{
    reveal(Seq::filter);
    if remaining.len() > 0 {
        lemma_reconciled_all_present(remaining.drop_last(), unp);
        assert(reconciled(remaining, unp) =~= remaining);
    }
}

/// If the store echoed nothing back, reconciliation returns no entries.
pub proof fn lemma_reconciled_none_present(remaining: Seq<EntryView>, unp: Seq<Seq<u8>>)
    requires
        unp.len() == 0,
    ensures
        reconciled(remaining, unp).len() == 0,
    decreases remaining.len(),
{
    reveal(Seq::filter);
    if remaining.len() > 0 {
        lemma_reconciled_none_present(remaining.drop_last(), unp);
    }
}

/// No two entries share a record: all ids are distinct.
pub open spec fn distinct_ids(s: Seq<EntryView>) -> bool {
    forall|i: int, j: int|
        0 <= i < j < s.len() ==> (#[trigger] s[i]).id != (#[trigger] s[j]).id
}

/// Reconciliation keeps only entries of the original remaining set, and
/// keeps ids distinct when they were.
pub proof fn lemma_reconciled_within(remaining: Seq<EntryView>, unp: Seq<Seq<u8>>)
    ensures
        forall|k: int|
            0 <= k < reconciled(remaining, unp).len() ==> remaining.contains(
                #[trigger] reconciled(remaining, unp)[k],
            ),
        distinct_ids(remaining) ==> distinct_ids(reconciled(remaining, unp)),
    decreases remaining.len(),
{
    reveal(Seq::filter);
    let rec = reconciled(remaining, unp);
    if remaining.len() > 0 {
        let head = remaining.drop_last();
        lemma_reconciled_within(head, unp);
        let sub = reconciled(head, unp);
        assert forall|k: int| 0 <= k < rec.len() implies remaining.contains(#[trigger] rec[k]) by {
            if k < sub.len() {
                assert(head.contains(sub[k]));
                let j = choose|j: int| 0 <= j < head.len() && head[j] == sub[k];
                assert(remaining[j] == rec[k]);
            } else {
                assert(remaining[remaining.len() - 1] == rec[k]);
            }
        }
        if distinct_ids(remaining) {
            assert(distinct_ids(head));
            assert forall|i: int, j: int|
                0 <= i < j < rec.len() implies (#[trigger] rec[i]).id != (#[trigger] rec[j]).id by {
                if j < sub.len() {
                    assert(sub[i].id != sub[j].id);
                } else if rec.len() > sub.len() {
                    // rec[j] is the last element of remaining; rec[i] sits in head
                    assert(head.contains(sub[i]));
                    let m = choose|m: int| 0 <= m < head.len() && head[m] == sub[i];
                    assert(remaining[m].id != remaining[remaining.len() - 1].id);
                }
            }
        }
    }
}

} // verus!
