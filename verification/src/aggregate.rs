use crate::chunk::{chunk, chunk_spec, chunked, group_views, lemma_chunk_spec_chunked,
    lemma_chunked_unique};
use crate::engine::{
    distinct_failure_ids, id_among, lemma_run_failures_within, response_views, run_from,
    run_group, GroupRun, StoreResponse, StoreResponseView,
};
use crate::reconcile::distinct_ids;
use crate::sift::{
    encoded_entries, lemma_encoded_entries_ids, lemma_serial_failures_ids, outcome_views,
    serial_failures, sift_serialized,
};
use crate::wire::{entry_views, failure_views, EntryView, Failure, FailureView, WireRequest};
use crate::MAX_BATCH_SIZE;
use vstd::prelude::*;

verus! {

/// The views of per-group failure lists.
pub open spec fn failure_group_views(gs: Seq<Vec<Failure>>) -> Seq<Seq<FailureView>> {
    gs.map_values(|g: Vec<Failure>| failure_views(g@))
}

/// Merges the serializer's failures with every group's terminal failures
/// into one report: success when nothing failed at all, otherwise the
/// complete failure list — serializer failures first, then each group's
/// failures in group order. The operation never fails outright because of
/// individual record problems; it always returns a report.
pub fn aggregate(serial: Vec<Failure>, group_failures: Vec<Vec<Failure>>) -> (r: Result<
    (),
    Vec<Failure>,
>)
    ensures
        ({
            let all = failure_views(serial@) + failure_group_views(group_failures@).flatten();
            match r {
                Result::Ok(u) => all.len() == 0,
                Result::Err(fs) => failure_views(fs@) == all && all.len() > 0,
            }
        }),
{
    let ghost total = failure_views(serial@) + failure_group_views(group_failures@).flatten();
    let mut acc = serial;
    let mut rest = group_failures;
    while rest.len() > 0
        invariant
            failure_views(acc@) + failure_group_views(rest@).flatten() == total,
        decreases rest.len(),
    {
        let ghost pre_rest = failure_group_views(rest@);
        let ghost pre_acc = failure_views(acc@);
        let mut g = rest.remove(0);
        proof {
            assert(failure_group_views(rest@) =~= pre_rest.drop_first());
            assert(pre_rest.flatten() == pre_rest.first() + pre_rest.drop_first().flatten());
            assert(pre_rest.first() == failure_views(g@));
        }
        acc.append(&mut g);
        proof {
            assert(failure_views(acc@) =~= pre_acc + pre_rest.first());
            assert((pre_acc + pre_rest.first()) + pre_rest.drop_first().flatten() =~= pre_acc + (
            pre_rest.first() + pre_rest.drop_first().flatten()));
        }
    }
    proof {
        assert(failure_views(acc@) =~= total);
    }
    if acc.len() == 0 {
        Result::Ok(())
    } else {
        Result::Err(acc)
    }
}

/// Concatenating per-group failure lists keeps each record at most once:
/// every list names only its own group's records, no list names a record
/// twice, and no record belongs to two groups.
pub proof fn lemma_flatten_failures_distinct(
    fss: Seq<Seq<FailureView>>,
    groups: Seq<Seq<EntryView>>,
)
    requires
        fss.len() == groups.len(),
        forall|g: int, k: int|
            0 <= g < fss.len() && 0 <= k < fss[g].len() ==> id_among(
                (#[trigger] fss[g][k]).id,
                groups[g],
            ),
        forall|g: int| 0 <= g < fss.len() ==> distinct_failure_ids(#[trigger] fss[g]),
        forall|g1: int, i1: int, g2: int, i2: int|
            0 <= g1 < g2 < groups.len() && 0 <= i1 < groups[g1].len() && 0 <= i2
                < groups[g2].len() ==> (#[trigger] groups[g1][i1]).id != (
            #[trigger] groups[g2][i2]).id,
    ensures
        distinct_failure_ids(fss.flatten()),
        forall|k: int|
            0 <= k < fss.flatten().len() ==> exists|g: int|
                0 <= g < groups.len() && id_among((#[trigger] fss.flatten()[k]).id, groups[g]),
    decreases fss.len(),
{
    if fss.len() == 0 {
        assert(fss.flatten() =~= Seq::<FailureView>::empty());
    } else {
        let head_f = fss.drop_last();
        let head_g = groups.drop_last();
        let last = fss.last();
        let gl = fss.len() as int;
        assert forall|g: int, k: int|
            0 <= g < head_f.len() && 0 <= k < head_f[g].len() implies id_among(
            (#[trigger] head_f[g][k]).id,
            head_g[g],
        ) by {
            assert(id_among(fss[g][k].id, groups[g]));
        }
        assert forall|g: int| 0 <= g < head_f.len() implies distinct_failure_ids(
            #[trigger] head_f[g],
        ) by {
            assert(distinct_failure_ids(fss[g]));
        }
        lemma_flatten_failures_distinct(head_f, head_g);
        assert(fss =~= head_f.push(last));
        head_f.lemma_flatten_push(last);
        let flat = fss.flatten();
        let hl = head_f.flatten().len() as int;
        assert(flat == head_f.flatten() + last);
        assert forall|k: int| 0 <= k < flat.len() implies exists|g: int|
            0 <= g < groups.len() && id_among((#[trigger] flat[k]).id, groups[g]) by {
            if k < hl {
                let g = choose|g: int|
                    0 <= g < head_g.len() && id_among(head_f.flatten()[k].id, head_g[g]);
                assert(0 <= g < groups.len() && id_among(flat[k].id, groups[g]));
            } else {
                assert(id_among(fss[gl - 1][k - hl].id, groups[gl - 1]));
                assert(id_among(flat[k].id, groups[gl - 1]));
            }
        }
        assert forall|i: int, j: int|
            0 <= i < j < flat.len() implies (#[trigger] flat[i]).id != (#[trigger] flat[j]).id by {
            if j < hl {
                assert(distinct_failure_ids(head_f.flatten()));
                assert(head_f.flatten()[i].id != head_f.flatten()[j].id);
            } else if i >= hl {
                assert(distinct_failure_ids(fss[gl - 1]));
                assert(fss[gl - 1][i - hl].id != fss[gl - 1][j - hl].id);
            } else {
                let g = choose|g: int|
                    0 <= g < head_g.len() && id_among(head_f.flatten()[i].id, head_g[g]);
                let i1 = choose|i1: int|
                    0 <= i1 < groups[g].len() && (#[trigger] groups[g][i1]).id == flat[i].id;
                assert(id_among(fss[gl - 1][j - hl].id, groups[gl - 1]));
                let i2 = choose|i2: int|
                    0 <= i2 < groups[gl - 1].len() && (#[trigger] groups[gl - 1][i2]).id
                        == flat[j].id;
                assert(groups[g][i1].id != groups[gl - 1][i2].id);
            }
        }
    }
}

/// The groups' per-run failure lists, as the retry engine leaves them.
pub open spec fn run_failure_lists(
    groups: Seq<Seq<EntryView>>,
    scripts: Seq<Seq<StoreResponseView>>,
) -> Seq<Seq<FailureView>> {
    Seq::new(groups.len(), |g: int| run_from(groups[g], 0, scripts[g]).failures)
}

/// The complete report of one write operation over the given serialization
/// outcomes and per-group store responses: the serializer's failures, then
/// every group's terminal failures in group order.
pub open spec fn full_report(
    outcomes: Seq<Option<Seq<u8>>>,
    scripts: Seq<Seq<StoreResponseView>>,
) -> Seq<FailureView> {
    serial_failures(outcomes) + run_failure_lists(
        chunk_spec(encoded_entries(outcomes)),
        scripts,
    ).flatten()
}

/// The views of per-group response scripts.
pub open spec fn script_views(s: Seq<Vec<StoreResponse>>) -> Seq<Seq<StoreResponseView>> {
    s.map_values(|v: Vec<StoreResponse>| response_views(v@))
}

/// The whole write operation, given each record's serialization outcome in
/// input order and, for each group in turn, the store's responses consumed
/// one per call: sift out serialization failures, chunk what serialized,
/// run every group's retry loop, and merge all failures into one report.
/// Returns None when some group's responses end before it reaches a
/// terminal state. Only the store calls themselves and the sleeps between
/// retries stand outside this function.
pub fn write_many_with_responses(
    outcomes: &Vec<Option<WireRequest>>,
    scripts: &Vec<Vec<StoreResponse>>,
) -> (r: Option<Result<(), Vec<Failure>>>)
    ensures
        ({
            let ov = outcome_views(outcomes@);
            let groups = chunk_spec(encoded_entries(ov));
            let sv = script_views(scripts@);
            match r {
                Option::None => scripts@.len() < groups.len() || exists|g: int|
                    0 <= g < groups.len() && !(#[trigger] run_from(groups[g], 0, sv[g])).complete,
                Option::Some(rep) => {
                    &&& scripts@.len() >= groups.len()
                    &&& forall|g: int|
                        0 <= g < groups.len() ==> (#[trigger] run_from(
                            groups[g],
                            0,
                            sv[g],
                        )).complete
                    &&& ({
                        let all = serial_failures(ov) + run_failure_lists(groups, sv).flatten();
                        match rep {
                            Result::Ok(u) => all.len() == 0,
                            Result::Err(fs) => failure_views(fs@) == all && all.len() > 0,
                        }
                    })
                },
            }
        }),
{
    let ghost ov = outcome_views(outcomes@);
    let ghost sv = script_views(scripts@);
    let (entries, serial_fails) = sift_serialized(outcomes);
    let groups = chunk(&entries);
    let ghost gspec = chunk_spec(encoded_entries(ov));
    proof {
        lemma_chunked_unique(entry_views(entries@), group_views(groups@));
        assert(group_views(groups@) == gspec);
    }
    if scripts.len() < groups.len() {
        return Option::None;
    }
    let mut gfails: Vec<Vec<Failure>> = Vec::new();
    let total: usize = groups.len();
    let mut rest = groups;
    let mut g: usize = 0;
    while rest.len() > 0
        invariant
            g + rest.len() == total,
            total == gspec.len(),
            gspec.len() <= scripts@.len(),
            gspec == chunk_spec(encoded_entries(outcome_views(outcomes@))),
            sv == script_views(scripts@),
            group_views(rest@) == gspec.skip(g as int),
            gfails@.len() == g as int,
            forall|h: int|
                0 <= h < g ==> (#[trigger] run_from(gspec[h], 0, sv[h])).complete
                    && failure_group_views(gfails@)[h] == run_from(gspec[h], 0, sv[h]).failures,
        decreases rest.len(),
    {
        let ghost pre_rest_vecs = rest@;
        let ghost pre_rest = group_views(rest@);
        let grp = rest.remove(0);
        proof {
            assert(entry_views(grp@) == pre_rest[0]);
            assert(pre_rest[0] == gspec[g as int]);
            assert(rest@ == pre_rest_vecs.remove(0));
            assert forall|i: int| 0 <= i < rest@.len() implies #[trigger] group_views(rest@)[i]
                == gspec.skip(g + 1)[i] by {
                assert(pre_rest_vecs.remove(0)[i] == pre_rest_vecs[i + 1]);
                assert(group_views(pre_rest_vecs)[i + 1] == entry_views(pre_rest_vecs[i + 1]@));
                assert(group_views(pre_rest_vecs)[i + 1] == gspec.skip(g as int)[i + 1]);
            }
            assert(group_views(rest@) =~= gspec.skip(g + 1));
            assert(sv[g as int] == response_views(scripts@[g as int]@));
        }
        let run = run_group(grp, &scripts[g]);
        match run {
            Option::None => {
                proof {
                    let groups_e = chunk_spec(encoded_entries(outcome_views(outcomes@)));
                    let sv_e = script_views(scripts@);
                    assert(gspec == groups_e);
                    assert(sv == sv_e);
                    assert(0 <= g < groups_e.len());
                    assert(!run_from(groups_e[g as int], 0, sv_e[g as int]).complete);
                    assert(exists|h: int|
                        0 <= h < groups_e.len() && !(#[trigger] run_from(
                            groups_e[h],
                            0,
                            sv_e[h],
                        )).complete);
                }
                return Option::None;
            },
            Option::Some(gr) => {
                let GroupRun { failures, delays: _delays, calls: _calls } = gr;
                gfails.push(failures);
            },
        }
        g += 1;
    }
    let ghost final_fails = failure_group_views(gfails@);
    proof {
        assert(final_fails =~= run_failure_lists(gspec, sv));
    }
    Option::Some(aggregate(serial_fails, gfails))
}

/// Report uniqueness law: however the store answers, each record appears
/// in the final report at most once — it is either absent, meaning it was
/// durably written, or present exactly once with the reason it failed.
pub proof fn lemma_report_each_record_once(
    outcomes: Seq<Option<Seq<u8>>>,
    scripts: Seq<Seq<StoreResponseView>>,
)
    ensures
        distinct_failure_ids(full_report(outcomes, scripts)),
{
    let b = MAX_BATCH_SIZE as int;
    let s = encoded_entries(outcomes);
    let groups = chunk_spec(s);
    let fss = run_failure_lists(groups, scripts);
    let sf = serial_failures(outcomes);
    lemma_encoded_entries_ids(outcomes);
    lemma_serial_failures_ids(outcomes);
    lemma_chunk_spec_chunked(s);
    assert(chunked(s, groups));
    assert forall|g: int, k: int|
        0 <= g < fss.len() && 0 <= k < fss[g].len() implies id_among(
        (#[trigger] fss[g][k]).id,
        groups[g],
    ) by {
        lemma_run_failures_within(groups[g], 0, scripts[g]);
    }
    assert forall|g: int| 0 <= g < fss.len() implies distinct_failure_ids(#[trigger] fss[g]) by {
        assert(distinct_ids(groups[g])) by {
            assert forall|i: int, j: int|
                0 <= i < j < groups[g].len() implies (#[trigger] groups[g][i]).id != (
            #[trigger] groups[g][j]).id by {
                assert(groups[g][i] == s[g * b + i]);
                assert(groups[g][j] == s[g * b + j]);
            }
        }
        lemma_run_failures_within(groups[g], 0, scripts[g]);
    }
    assert forall|g1: int, i1: int, g2: int, i2: int|
        0 <= g1 < g2 < groups.len() && 0 <= i1 < groups[g1].len() && 0 <= i2
            < groups[g2].len() implies (#[trigger] groups[g1][i1]).id != (
    #[trigger] groups[g2][i2]).id by {
        assert(groups[g1][i1] == s[g1 * b + i1]);
        assert(groups[g2][i2] == s[g2 * b + i2]);
        assert(g1 * b + i1 < g2 * b + i2);
    }
    lemma_flatten_failures_distinct(fss, groups);
    let flat = fss.flatten();
    let report = full_report(outcomes, scripts);
    let sl = sf.len() as int;
    assert(report == sf + flat);
    assert forall|i: int, j: int|
        0 <= i < j < report.len() implies (#[trigger] report[i]).id != (
    #[trigger] report[j]).id by {
        if j < sl {
            assert(sf[i].id < sf[j].id);
        } else if i >= sl {
            assert(flat[i - sl].id != flat[j - sl].id);
        } else {
            assert(outcomes[sf[i].id] is None);
            let g = choose|g: int|
                0 <= g < groups.len() && id_among((#[trigger] flat[j - sl]).id, groups[g]);
            let m = choose|m: int|
                0 <= m < groups[g].len() && (#[trigger] groups[g][m]).id == flat[j - sl].id;
            assert(groups[g][m] == s[g * b + m]);
            assert(outcomes[s[g * b + m].id] == Option::Some(s[g * b + m].req));
        }
    }
}

} // verus!
