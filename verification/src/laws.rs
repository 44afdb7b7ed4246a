//! The laws of the reconciler, stated and proved over the spec fold
//! [`run_all`]: what a seen success leaves alone, what a novel success
//! adds, what the timing statistics converge to, and that replaying an
//! identical run changes nothing.

use vstd::prelude::*;

use crate::outcome::OutcomeV;
use crate::reconcile::apply_outcome;
use crate::reconcile::run_all;
use crate::reconcile::run_outcome;
use crate::reconcile::run_start;
use crate::reconcile::seen;
use crate::reconcile::spec_to_save;
use crate::reconcile::step_counts;
use crate::reconcile::CountsV;
use crate::reconcile::RunV;
use crate::store::assoc_has;
use crate::store::assoc_pos;
use crate::store::assoc_val;
use crate::store::lemma_assoc_pos;
use crate::store::lemma_upd_results_lookup;
use crate::store::lemma_upd_results_wf;
use crate::store::lemma_upd_timing_lookup;
use crate::store::lemma_upd_timing_wf;
use crate::store::min64;
use crate::store::upd_timing;
use crate::store::uniq_keys;
use crate::store::StoreV;
use crate::store::Timing;

verus! {

/// A success whose persisted text is already accepted for its file
/// leaves every results list exactly as it was, and raises `success`
/// but not `new_success`.
pub proof fn lemma_seen_success_changes_nothing(
    s: StoreV,
    c: CountsV,
    k: Seq<u8>,
    stdout: Seq<u8>,
    stderr: Seq<u8>,
    e: u64,
)
    requires
        seen(s, k, spec_to_save(s.options, stdout, stderr)),
    ensures
        apply_outcome(s, k, OutcomeV::Success { stdout, stderr, elapsed_ms: e }).results
            == s.results,
        step_counts(s, c, k, OutcomeV::Success { stdout, stderr, elapsed_ms: e }).new_success
            == c.new_success,
        step_counts(s, c, k, OutcomeV::Success { stdout, stderr, elapsed_ms: e }).success
            == c.success + 1,
{
}

/// A success whose persisted text is novel appends exactly that text,
/// once, at the end of its file's list (a fresh one-element list when
/// the file had none), answers every other file as before, and raises
/// both `success` and `new_success` by exactly one.
pub proof fn lemma_novel_success_appends(
    s: StoreV,
    c: CountsV,
    k: Seq<u8>,
    stdout: Seq<u8>,
    stderr: Seq<u8>,
    e: u64,
)
    requires
        !seen(s, k, spec_to_save(s.options, stdout, stderr)),
    ensures
        assoc_has(apply_outcome(s, k, OutcomeV::Success { stdout, stderr, elapsed_ms: e }).results, k),
        assoc_val(apply_outcome(s, k, OutcomeV::Success { stdout, stderr, elapsed_ms: e }).results, k)
            == if assoc_has(s.results, k) {
            assoc_val(s.results, k).push(spec_to_save(s.options, stdout, stderr))
        } else {
            seq![spec_to_save(s.options, stdout, stderr)]
        },
        forall|k2: Seq<u8>|
            k2 != k ==> #[trigger] assoc_pos(
                apply_outcome(s, k, OutcomeV::Success { stdout, stderr, elapsed_ms: e }).results,
                k2,
            ) == assoc_pos(s.results, k2),
        forall|k2: Seq<u8>|
            k2 != k && assoc_has(s.results, k2) ==> #[trigger] assoc_val(
                apply_outcome(s, k, OutcomeV::Success { stdout, stderr, elapsed_ms: e }).results,
                k2,
            ) == assoc_val(s.results, k2),
        step_counts(s, c, k, OutcomeV::Success { stdout, stderr, elapsed_ms: e }).new_success
            == c.new_success + 1,
        step_counts(s, c, k, OutcomeV::Success { stdout, stderr, elapsed_ms: e }).success
            == c.success + 1,
{
    lemma_upd_results_lookup(s.results, k, spec_to_save(s.options, stdout, stderr));
}

/// One reconciliation step preserves the store invariant.
pub proof fn lemma_apply_outcome_wf(s: StoreV, k: Seq<u8>, oc: OutcomeV)
    requires
        s.wf(),
    ensures
        apply_outcome(s, k, oc).wf(),
{
    match oc {
        OutcomeV::Success { stdout, stderr, elapsed_ms } => {
            let ts = spec_to_save(s.options, stdout, stderr);
            lemma_upd_timing_wf(s.timing, k, elapsed_ms);
            if !seen(s, k, ts) {
                lemma_upd_results_wf(s.results, k, ts);
            }
        },
        OutcomeV::Failure { stdout, stderr } => {},
        OutcomeV::Timeout => {},
    }
}

/// A whole run preserves the store invariant.
pub proof fn lemma_run_wf(r: RunV, ps: Seq<(Seq<u8>, OutcomeV)>)
    requires
        r.store.wf(),
    ensures
        run_all(r, ps).store.wf(),
    decreases ps.len(),
{
    if ps.len() > 0 {
        lemma_apply_outcome_wf(r.store, ps[0].0, ps[0].1);
        lemma_run_wf(run_outcome(r, ps[0].0, ps[0].1), ps.drop_first());
    }
}

/// A run never touches the store's metadata or options.
pub proof fn lemma_run_constants(r: RunV, ps: Seq<(Seq<u8>, OutcomeV)>)
    ensures
        run_all(r, ps).store.metadata == r.store.metadata,
        run_all(r, ps).store.options == r.store.options,
    decreases ps.len(),
{
    if ps.len() > 0 {
        lemma_run_constants(run_outcome(r, ps[0].0, ps[0].1), ps.drop_first());
    }
}

/// An accepted text stays accepted through any single step: results
/// lists only ever grow.
pub proof fn lemma_seen_monotone(s: StoreV, k: Seq<u8>, t: Seq<u8>, k2: Seq<u8>, oc: OutcomeV)
    requires
        seen(s, k, t),
    ensures
        seen(apply_outcome(s, k2, oc), k, t),
{
    match oc {
        OutcomeV::Success { stdout, stderr, elapsed_ms } => {
            let ts = spec_to_save(s.options, stdout, stderr);
            if !seen(s, k2, ts) {
                lemma_upd_results_lookup(s.results, k2, ts);
                if k2 == k {
                    let l = assoc_val(s.results, k);
                    let i = choose|i: int| 0 <= i < l.len() && l[i] == t;
                    assert(l.push(ts)[i] == t);
                }
            }
        },
        OutcomeV::Failure { stdout, stderr } => {},
        OutcomeV::Timeout => {},
    }
}

/// An accepted text stays accepted through a whole run.
pub proof fn lemma_run_seen_monotone(r: RunV, ps: Seq<(Seq<u8>, OutcomeV)>, k: Seq<u8>, t: Seq<u8>)
    requires
        seen(r.store, k, t),
    ensures
        seen(run_all(r, ps).store, k, t),
    decreases ps.len(),
{
    if ps.len() > 0 {
        lemma_seen_monotone(r.store, k, t, ps[0].0, ps[0].1);
        lemma_run_seen_monotone(run_outcome(r, ps[0].0, ps[0].1), ps.drop_first(), k, t);
    }
}

/// After a run, the persisted text of every success of that run is
/// accepted for its file.
pub proof fn lemma_run_covers(r: RunV, ps: Seq<(Seq<u8>, OutcomeV)>)
    ensures
        forall|i: int|
            #![trigger ps[i]]
            0 <= i < ps.len() ==> match ps[i].1 {
                OutcomeV::Success { stdout, stderr, elapsed_ms } => seen(
                    run_all(r, ps).store,
                    ps[i].0,
                    spec_to_save(r.store.options, stdout, stderr),
                ),
                _ => true,
            },
    decreases ps.len(),
{
    if ps.len() > 0 {
        let r1 = run_outcome(r, ps[0].0, ps[0].1);
        let tl = ps.drop_first();
        lemma_run_covers(r1, tl);
        assert forall|i: int| #![trigger ps[i]] 0 <= i < ps.len() implies match ps[i].1 {
            OutcomeV::Success { stdout, stderr, elapsed_ms } => seen(
                run_all(r, ps).store,
                ps[i].0,
                spec_to_save(r.store.options, stdout, stderr),
            ),
            _ => true,
        } by {
            match ps[i].1 {
                OutcomeV::Success { stdout, stderr, elapsed_ms } => {
                    if i == 0 {
                        let ts = spec_to_save(r.store.options, stdout, stderr);
                        if !seen(r.store, ps[0].0, ts) {
                            lemma_upd_results_lookup(r.store.results, ps[0].0, ts);
                            let l1 = assoc_val(r1.store.results, ps[0].0);
                            assert(l1[l1.len() - 1] == ts);
                        }
                        assert(seen(r1.store, ps[0].0, ts));
                        lemma_run_seen_monotone(r1, tl, ps[0].0, ts);
                    } else {
                        assert(tl[i - 1] == ps[i]);
                        assert(r1.store.options == r.store.options);
                    }
                },
                _ => {},
            }
        }
    }
}

/// The elapsed times of the successes of file `k`, in run order.
pub open spec fn succ_times(ps: Seq<(Seq<u8>, OutcomeV)>, k: Seq<u8>) -> Seq<u64>
    decreases ps.len(),
{
    if ps.len() == 0 {
        Seq::empty()
    } else {
        let rest = succ_times(ps.drop_first(), k);
        match ps[0].1 {
            OutcomeV::Success { stdout, stderr, elapsed_ms } => if ps[0].0 == k {
                seq![elapsed_ms] + rest
            } else {
                rest
            },
            _ => rest,
        }
    }
}

/// The least element of a non-empty sequence of times.
pub open spec fn times_min(s: Seq<u64>) -> u64
    recommends
        s.len() > 0,
    decreases s.len(),
{
    if s.len() <= 1 {
        if s.len() == 1 {
            s[0]
        } else {
            0
        }
    } else {
        min64(s[0], times_min(s.drop_first()))
    }
}

/// The least element really is a lower bound.
pub proof fn lemma_times_min_le(s: Seq<u64>, j: int)
    requires
        0 <= j < s.len(),
    ensures
        times_min(s) <= s[j],
    decreases s.len(),
{
    if s.len() > 1 {
        if j > 0 {
            lemma_times_min_le(s.drop_first(), j - 1);
            assert(s.drop_first()[j - 1] == s[j]);
        }
    }
}

/// Timing after a run: untouched for a file without successes; for a
/// file with successes, `most_recent` is its last elapsed time and
/// `fastest` is the least of its elapsed times and of whatever was
/// recorded before.
pub proof fn lemma_run_timing(r: RunV, ps: Seq<(Seq<u8>, OutcomeV)>, k: Seq<u8>)
    ensures
        succ_times(ps, k).len() == 0 ==> assoc_pos(run_all(r, ps).store.timing, k) == assoc_pos(
            r.store.timing,
            k,
        ) && (assoc_has(r.store.timing, k) ==> assoc_val(run_all(r, ps).store.timing, k)
            == assoc_val(r.store.timing, k)),
        succ_times(ps, k).len() > 0 ==> assoc_has(run_all(r, ps).store.timing, k) && assoc_val(
            run_all(r, ps).store.timing,
            k,
        ) == (Timing {
            fastest_ms: if assoc_has(r.store.timing, k) {
                min64(assoc_val(r.store.timing, k).fastest_ms, times_min(succ_times(ps, k)))
            } else {
                times_min(succ_times(ps, k))
            },
            most_recent_ms: succ_times(ps, k).last(),
        }),
    decreases ps.len(),
{
    if ps.len() > 0 {
        let r1 = run_outcome(r, ps[0].0, ps[0].1);
        let tl = ps.drop_first();
        lemma_run_timing(r1, tl, k);
        match ps[0].1 {
            OutcomeV::Success { stdout, stderr, elapsed_ms } => {
                lemma_upd_timing_lookup(r.store.timing, ps[0].0, elapsed_ms);
                if ps[0].0 == k {
                    let st = succ_times(tl, k);
                    assert(succ_times(ps, k) == seq![elapsed_ms] + st);
                    let whole = seq![elapsed_ms] + st;
                    assert(whole[0] == elapsed_ms);
                    assert(whole.drop_first() =~= st);
                    if st.len() == 0 {
                        assert(whole.len() == 1);
                        assert(times_min(whole) == elapsed_ms);
                        assert(whole.last() == elapsed_ms);
                    } else {
                        assert(whole.len() > 1);
                        assert(times_min(whole) == min64(elapsed_ms, times_min(st)));
                        assert(whole.last() == st.last());
                    }
                } else {
                    assert(succ_times(ps, k) == succ_times(tl, k));
                }
            },
            OutcomeV::Failure { stdout, stderr } => {
                assert(succ_times(ps, k) == succ_times(tl, k));
            },
            OutcomeV::Timeout => {
                assert(succ_times(ps, k) == succ_times(tl, k));
            },
        }
    }
}

/// Timing of a file first seen in this run: after its successes with
/// elapsed times `e_1 .. e_n`, `fastest` is their minimum and
/// `most_recent` is `e_n`.
pub proof fn lemma_timing_of_new_file(s: StoreV, ps: Seq<(Seq<u8>, OutcomeV)>, k: Seq<u8>)
    requires
        !assoc_has(s.timing, k),
        succ_times(ps, k).len() > 0,
    ensures
        assoc_has(run_all(run_start(s), ps).store.timing, k),
        assoc_val(run_all(run_start(s), ps).store.timing, k).fastest_ms == times_min(
            succ_times(ps, k),
        ),
        assoc_val(run_all(run_start(s), ps).store.timing, k).most_recent_ms == succ_times(
            ps,
            k,
        ).last(),
{
    lemma_run_timing(run_start(s), ps, k);
}

/// Each success of a run contributes its elapsed time to its file's
/// time sequence.
pub proof fn lemma_succ_time_member(ps: Seq<(Seq<u8>, OutcomeV)>, i: int)
    requires
        0 <= i < ps.len(),
    ensures
        match ps[i].1 {
            OutcomeV::Success { stdout, stderr, elapsed_ms } => succ_times(ps, ps[i].0).contains(
                elapsed_ms,
            ),
            _ => true,
        },
    decreases ps.len(),
{
    match ps[i].1 {
        OutcomeV::Success { stdout, stderr, elapsed_ms } => {
            let tl = ps.drop_first();
            if i == 0 {
                assert(succ_times(ps, ps[0].0)[0] == elapsed_ms);
            } else {
                lemma_succ_time_member(tl, i - 1);
                assert(tl[i - 1] == ps[i]);
                let k = ps[i].0;
                let rest = succ_times(tl, k);
                let j = choose|j: int| 0 <= j < rest.len() && rest[j] == elapsed_ms;
                match ps[0].1 {
                    OutcomeV::Success { stdout: o2, stderr: e2, elapsed_ms: m2 } => {
                        if ps[0].0 == k {
                            assert(succ_times(ps, k)[j + 1] == elapsed_ms);
                        }
                    },
                    _ => {},
                }
            }
        },
        _ => {},
    }
}

/// `run_all` moves the store by the outcomes alone: the counters and
/// notices carried beside it play no part.
pub proof fn lemma_run_store_congruent(a: RunV, b: RunV, ps: Seq<(Seq<u8>, OutcomeV)>)
    requires
        a.store == b.store,
    ensures
        run_all(a, ps).store == run_all(b, ps).store,
    decreases ps.len(),
{
    if ps.len() > 0 {
        lemma_run_store_congruent(
            run_outcome(a, ps[0].0, ps[0].1),
            run_outcome(b, ps[0].0, ps[0].1),
            ps.drop_first(),
        );
    }
}

/// Replaying a run against a store that already absorbed it moves
/// nothing: every persisted text is already accepted, every recorded
/// `fastest` undercuts every elapsed time, and each file's recorded
/// `most_recent` is just what the run's last success writes again.
pub proof fn lemma_replay(t: StoreV, target: StoreV, ps: Seq<(Seq<u8>, OutcomeV)>)
    requires
        uniq_keys(t.timing),
        t.metadata == target.metadata,
        t.options == target.options,
        t.results == target.results,
        t.timing.len() == target.timing.len(),
        forall|j: int|
            0 <= j < t.timing.len() ==> (#[trigger] t.timing[j]).0 == target.timing[j].0
                && t.timing[j].1.fastest_ms == target.timing[j].1.fastest_ms,
        forall|j: int|
            0 <= j < t.timing.len() ==> (succ_times(ps, (#[trigger] t.timing[j]).0).len() == 0
                ==> t.timing[j].1.most_recent_ms == target.timing[j].1.most_recent_ms),
        forall|j: int|
            0 <= j < t.timing.len() ==> (succ_times(ps, (#[trigger] t.timing[j]).0).len() > 0
                ==> succ_times(ps, t.timing[j].0).last() == target.timing[j].1.most_recent_ms),
        forall|i: int|
            #![trigger ps[i]]
            0 <= i < ps.len() ==> match ps[i].1 {
                OutcomeV::Success { stdout, stderr, elapsed_ms } => seen(
                    t,
                    ps[i].0,
                    spec_to_save(t.options, stdout, stderr),
                ) && assoc_has(t.timing, ps[i].0) && assoc_val(t.timing, ps[i].0).fastest_ms
                    <= elapsed_ms,
                _ => true,
            },
    ensures
        run_all(run_start(t), ps).store == target,
    decreases ps.len(),
{
    if ps.len() == 0 {
        assert forall|j: int| 0 <= j < t.timing.len() implies t.timing[j] == target.timing[j] by {
            assert(succ_times(ps, t.timing[j].0).len() == 0);
        }
        assert(t.timing =~= target.timing);
    } else {
        let k0 = ps[0].0;
        let tl = ps.drop_first();
        let t1 = apply_outcome(t, k0, ps[0].1);
        assert forall|i: int| 0 <= i < tl.len() implies tl[i] == ps[i + 1] by {}
        match ps[0].1 {
            OutcomeV::Success { stdout, stderr, elapsed_ms } => {
                let ts = spec_to_save(t.options, stdout, stderr);
                assert(seen(t, k0, ts));
                assert(t1.results == t.results);
                lemma_assoc_pos(t.timing, k0);
                let p = assoc_pos(t.timing, k0);
                lemma_upd_timing_lookup(t.timing, k0, elapsed_ms);
                assert(assoc_val(t.timing, k0) == t.timing[p].1);
                assert(assoc_val(t.timing, k0).fastest_ms <= elapsed_ms);
                assert(t1.timing =~= t.timing.update(
                    p,
                    (
                        k0,
                        Timing {
                            fastest_ms: t.timing[p].1.fastest_ms,
                            most_recent_ms: elapsed_ms,
                        },
                    ),
                )) by {
                    assert(t1.timing == upd_timing(t.timing, k0, elapsed_ms));
                }
                // every key but the touched one keeps its entry; the
                // touched one keeps its key and fastest
                assert(uniq_keys(t1.timing));
                assert forall|j: int|
                    0 <= j < t1.timing.len() && j != p implies t1.timing[j] == t.timing[j]
                        && t.timing[j].0 != k0 by {}
                // time sequences of the tail
                assert forall|j: int| 0 <= j < t1.timing.len() implies (succ_times(
                    tl,
                    (#[trigger] t1.timing[j]).0,
                ).len() == 0 ==> t1.timing[j].1.most_recent_ms == target.timing[j].1.most_recent_ms)
                    && (succ_times(tl, t1.timing[j].0).len() > 0 ==> succ_times(
                    tl,
                    t1.timing[j].0,
                ).last() == target.timing[j].1.most_recent_ms) by {
                    if j == p {
                        let whole = succ_times(ps, k0);
                        let rest = succ_times(tl, k0);
                        assert(whole == seq![elapsed_ms] + rest);
                        assert(whole.len() > 0);
                        if rest.len() == 0 {
                            assert(whole.last() == elapsed_ms);
                        } else {
                            assert(whole.last() == rest.last());
                        }
                    } else {
                        assert(succ_times(tl, t.timing[j].0) == succ_times(ps, t.timing[j].0));
                    }
                }
                // the run conditions carry to the tail
                assert forall|i: int| #![trigger tl[i]] 0 <= i < tl.len() implies match tl[i].1 {
                    OutcomeV::Success { stdout: o2, stderr: e2, elapsed_ms: m2 } => seen(
                        t1,
                        tl[i].0,
                        spec_to_save(t1.options, o2, e2),
                    ) && assoc_has(t1.timing, tl[i].0) && assoc_val(t1.timing, tl[i].0).fastest_ms
                        <= m2,
                    _ => true,
                } by {
                    assert(tl[i] == ps[i + 1]);
                    match tl[i].1 {
                        OutcomeV::Success { stdout: o2, stderr: e2, elapsed_ms: m2 } => {
                            assert(seen(t, ps[i + 1].0, spec_to_save(t.options, o2, e2)));
                            if tl[i].0 == k0 {
                                assert(assoc_val(t1.timing, k0).fastest_ms == assoc_val(
                                    t.timing,
                                    k0,
                                ).fastest_ms);
                            }
                        },
                        _ => {},
                    }
                }
                lemma_replay(t1, target, tl);
                let r1 = run_outcome(run_start(t), k0, ps[0].1);
                assert(r1.store == t1);
                lemma_run_store_congruent(r1, run_start(t1), tl);
            },
            OutcomeV::Failure { stdout, stderr } => {
                assert(t1 == t);
                assert forall|j: int| 0 <= j < t.timing.len() implies succ_times(
                    tl,
                    (#[trigger] t.timing[j]).0,
                ) == succ_times(ps, t.timing[j].0) by {}
                lemma_replay(t, target, tl);
                let r1 = run_outcome(run_start(t), k0, ps[0].1);
                assert(r1.store == t);
                lemma_run_store_congruent(r1, run_start(t), tl);
            },
            OutcomeV::Timeout => {
                assert(t1 == t);
                assert forall|j: int| 0 <= j < t.timing.len() implies succ_times(
                    tl,
                    (#[trigger] t.timing[j]).0,
                ) == succ_times(ps, t.timing[j].0) by {}
                lemma_replay(t, target, tl);
                let r1 = run_outcome(run_start(t), k0, ps[0].1);
                assert(r1.store == t);
                lemma_run_store_congruent(r1, run_start(t), tl);
            },
        }
    }
}

/// Idempotence: a run that already went into a well-formed store moves
/// it no further when replayed unchanged — no duplicate entries, and
/// stable timing statistics.
pub proof fn lemma_run_idempotent(s: StoreV, ps: Seq<(Seq<u8>, OutcomeV)>)
    requires
        s.wf(),
    ensures
        run_all(run_start(run_all(run_start(s), ps).store), ps).store == run_all(
            run_start(s),
            ps,
        ).store,
{
    let s1 = run_all(run_start(s), ps).store;
    lemma_run_wf(run_start(s), ps);
    lemma_run_constants(run_start(s), ps);
    lemma_run_covers(run_start(s), ps);
    // the recorded statistics dominate the run they absorbed
    assert forall|j: int| 0 <= j < s1.timing.len() implies (succ_times(
        ps,
        (#[trigger] s1.timing[j]).0,
    ).len() > 0 ==> succ_times(ps, s1.timing[j].0).last() == s1.timing[j].1.most_recent_ms) by {
        let kj = s1.timing[j].0;
        if succ_times(ps, kj).len() > 0 {
            lemma_run_timing(run_start(s), ps, kj);
            lemma_assoc_pos(s1.timing, kj);
            let p = assoc_pos(s1.timing, kj);
            if p != j {
                assert(s1.timing[p].0 == kj);
                assert(false);
            }
        }
    }
    assert forall|i: int| #![trigger ps[i]] 0 <= i < ps.len() implies match ps[i].1 {
        OutcomeV::Success { stdout, stderr, elapsed_ms } => seen(
            s1,
            ps[i].0,
            spec_to_save(s1.options, stdout, stderr),
        ) && assoc_has(s1.timing, ps[i].0) && assoc_val(s1.timing, ps[i].0).fastest_ms
            <= elapsed_ms,
        _ => true,
    } by {
        match ps[i].1 {
            OutcomeV::Success { stdout, stderr, elapsed_ms } => {
                let ki = ps[i].0;
                lemma_succ_time_member(ps, i);
                let times = succ_times(ps, ki);
                let jx = choose|jx: int| 0 <= jx < times.len() && times[jx] == elapsed_ms;
                lemma_times_min_le(times, jx);
                lemma_run_timing(run_start(s), ps, ki);
            },
            _ => {},
        }
    }
    lemma_replay(s1, s1, ps);
}

} // verus!
