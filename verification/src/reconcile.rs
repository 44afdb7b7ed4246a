//! The reconciler: folds the ordered (file, outcome) pairs of one run
//! into the store, producing the summary counters and the console
//! notices.
//!
//! A success always refreshes the file's timing statistics.  Its
//! persisted text is then checked against the file's accepted outputs:
//! a previously seen text only counts as a success, a novel text also
//! counts as a new success, is reported, and is appended to the list.
//! Failures and timeouts are counted and reported and never touch the
//! store.

use vstd::prelude::*;

use crate::bytes::copy_bytes;
use crate::bytes::view_list;
use crate::modes::mode_prints;
use crate::modes::mode_saves;
use crate::modes::Options;
use crate::modes::OptionsV;
use crate::outcome::Outcome;
use crate::outcome::OutcomeV;
use crate::outcome::Summary;
use crate::store::assoc_has;
use crate::store::assoc_val;
use crate::store::upd_results;
use crate::store::upd_timing;
use crate::store::Store;
use crate::store::StoreV;

verus! {

/// The text printed for a success or failure: the captured streams
/// whose mode permits printing, stdout first.
pub open spec fn spec_to_print(o: OptionsV, stdout: Seq<u8>, stderr: Seq<u8>) -> Seq<u8> {
    (if mode_prints(o.stdout_mode) {
        stdout
    } else {
        Seq::empty()
    }) + (if mode_prints(o.stderr_mode) {
        stderr
    } else {
        Seq::empty()
    })
}

/// The text persisted for a success: the captured streams whose mode
/// permits saving, stdout first.
pub open spec fn spec_to_save(o: OptionsV, stdout: Seq<u8>, stderr: Seq<u8>) -> Seq<u8> {
    (if mode_saves(o.stdout_mode) {
        stdout
    } else {
        Seq::empty()
    }) + (if mode_saves(o.stderr_mode) {
        stderr
    } else {
        Seq::empty()
    })
}

/// Whether text `t` was already accepted for file `k` in store `s`.
pub open spec fn seen(s: StoreV, k: Seq<u8>, t: Seq<u8>) -> bool {
    assoc_has(s.results, k) && assoc_val(s.results, k).contains(t)
}

/// The store after one outcome for file `k`.
pub open spec fn apply_outcome(s: StoreV, k: Seq<u8>, oc: OutcomeV) -> StoreV {
    match oc {
        OutcomeV::Success { stdout, stderr, elapsed_ms } => {
            let ts = spec_to_save(s.options, stdout, stderr);
            StoreV {
                metadata: s.metadata,
                options: s.options,
                results: if seen(s, k, ts) {
                    s.results
                } else {
                    upd_results(s.results, k, ts)
                },
                timing: upd_timing(s.timing, k, elapsed_ms),
            }
        },
        OutcomeV::Failure { stdout, stderr } => s,
        OutcomeV::Timeout => s,
    }
}

/// The mathematical value of a [`Summary`].
pub ghost struct CountsV {
    pub success: nat,
    pub new_success: nat,
    pub failure: nat,
    pub timeout: nat,
}

impl View for Summary {
    type V = CountsV;

    open spec fn view(&self) -> CountsV {
        CountsV {
            success: self.success as nat,
            new_success: self.new_success as nat,
            failure: self.failure as nat,
            timeout: self.timeout as nat,
        }
    }
}

/// The counters after one outcome for file `k` against store `s`.
pub open spec fn step_counts(s: StoreV, c: CountsV, k: Seq<u8>, oc: OutcomeV) -> CountsV {
    match oc {
        OutcomeV::Success { stdout, stderr, elapsed_ms } => {
            let ts = spec_to_save(s.options, stdout, stderr);
            CountsV {
                success: c.success + 1,
                new_success: if seen(s, k, ts) {
                    c.new_success
                } else {
                    c.new_success + 1
                },
                failure: c.failure,
                timeout: c.timeout,
            }
        },
        OutcomeV::Failure { stdout, stderr } => CountsV { failure: c.failure + 1, ..c },
        OutcomeV::Timeout => CountsV { timeout: c.timeout + 1, ..c },
    }
}

/// What a notice reports.
#[derive(Debug, Clone, Copy, PartialEq, Eq, Structural)]
pub enum NoticeKind {
    /// A success whose persisted text was not yet recorded.
    NewSuccess,
    /// A non-zero exit.
    Failed,
    /// An expired time budget.
    TimedOut,
}

/// The mathematical value of a [`Notice`].
pub ghost struct NoticeV {
    pub key: Seq<u8>,
    pub kind: NoticeKind,
    pub text: Seq<u8>,
}

/// One console line owed to the operator: previously seen successes
/// produce none.
#[derive(Debug)]
pub struct Notice {
    pub key: Vec<u8>,
    pub kind: NoticeKind,
    pub text: Vec<u8>,
}

impl View for Notice {
    type V = NoticeV;

    open spec fn view(&self) -> NoticeV {
        NoticeV { key: self.key@, kind: self.kind, text: self.text@ }
    }
}

/// The notice owed for one outcome for file `k` against store `s`.
pub open spec fn step_notice(s: StoreV, k: Seq<u8>, oc: OutcomeV) -> Option<NoticeV> {
    match oc {
        OutcomeV::Success { stdout, stderr, elapsed_ms } => {
            let ts = spec_to_save(s.options, stdout, stderr);
            if seen(s, k, ts) {
                None
            } else {
                Some(
                    NoticeV {
                        key: k,
                        kind: NoticeKind::NewSuccess,
                        text: spec_to_print(s.options, stdout, stderr),
                    },
                )
            }
        },
        OutcomeV::Failure { stdout, stderr } => Some(
            NoticeV {
                key: k,
                kind: NoticeKind::Failed,
                text: spec_to_print(s.options, stdout, stderr),
            },
        ),
        OutcomeV::Timeout => Some(
            NoticeV { key: k, kind: NoticeKind::TimedOut, text: Seq::empty() },
        ),
    }
}

/// The full state of a reconciliation in flight.
pub ghost struct RunV {
    pub store: StoreV,
    pub counts: CountsV,
    pub notices: Seq<NoticeV>,
}

/// The reconciliation state a run starts from.
pub open spec fn run_start(s: StoreV) -> RunV {
    RunV {
        store: s,
        counts: CountsV { success: 0, new_success: 0, failure: 0, timeout: 0 },
        notices: Seq::empty(),
    }
}

/// One reconciliation step.
pub open spec fn run_outcome(r: RunV, k: Seq<u8>, oc: OutcomeV) -> RunV {
    RunV {
        store: apply_outcome(r.store, k, oc),
        counts: step_counts(r.store, r.counts, k, oc),
        notices: match step_notice(r.store, k, oc) {
            Some(n) => r.notices.push(n),
            None => r.notices,
        },
    }
}

/// The whole run: a left fold of [`run_outcome`] over the ordered
/// (file, outcome) pairs.
pub open spec fn run_all(r: RunV, ps: Seq<(Seq<u8>, OutcomeV)>) -> RunV
    decreases ps.len(),
{
    if ps.len() == 0 {
        r
    } else {
        run_all(run_outcome(r, ps[0].0, ps[0].1), ps.drop_first())
    }
}

/// Peeling the last pair off a run.
pub proof fn lemma_run_all_snoc(r: RunV, ps: Seq<(Seq<u8>, OutcomeV)>, i: int)
    requires
        0 <= i < ps.len(),
    ensures
        run_all(r, ps.take(i + 1)) == run_outcome(run_all(r, ps.take(i)), ps[i].0, ps[i].1),
    decreases i,
{
    let e = Seq::<(Seq<u8>, OutcomeV)>::empty();
    if i == 0 {
        let r1 = run_outcome(r, ps[0].0, ps[0].1);
        assert(ps.take(0) =~= e);
        assert(run_all(r, e) == r);
        assert(ps.take(1) =~= seq![ps[0]]);
        assert(seq![ps[0]][0] == ps[0]);
        assert(seq![ps[0]].drop_first() =~= e);
        assert(run_all(r, seq![ps[0]]) == run_all(r1, e));
        assert(run_all(r1, e) == r1);
    } else {
        let r1 = run_outcome(r, ps[0].0, ps[0].1);
        let t = ps.drop_first();
        lemma_run_all_snoc(r1, t, i - 1);
        assert(ps.take(i + 1).len() > 0);
        assert(ps.take(i + 1)[0] == ps[0]);
        assert(ps.take(i + 1).drop_first() =~= t.take(i));
        assert(run_all(r, ps.take(i + 1)) == run_all(r1, t.take(i)));
        assert(ps.take(i).len() > 0);
        assert(ps.take(i)[0] == ps[0]);
        assert(ps.take(i).drop_first() =~= t.take(i - 1));
        assert(run_all(r, ps.take(i)) == run_all(r1, t.take(i - 1)));
        assert(t[i - 1] == ps[i]);
    }
}

/// The view of the zipped (file, outcome) input of a run.
pub open spec fn pairs_view(keys: Vec<Vec<u8>>, ocs: Vec<Outcome>) -> Seq<(Seq<u8>, OutcomeV)> {
    Seq::new(keys@.len(), |i: int| (keys@[i]@, ocs@[i]@))
}

/// The printed projection of a success or failure.
pub fn project_print(o: &Options, stdout: &Vec<u8>, stderr: &Vec<u8>) -> (r: Vec<u8>)
    ensures
        r@ == spec_to_print(o@, stdout@, stderr@),
{
    let mut r: Vec<u8> = Vec::new();
    if o.stdout_mode.prints() {
        let mut c = copy_bytes(stdout);
        r.append(&mut c);
    }
    if o.stderr_mode.prints() {
        let mut c = copy_bytes(stderr);
        r.append(&mut c);
    }
    proof {
        assert(r@ =~= spec_to_print(o@, stdout@, stderr@));
    }
    r
}

/// The persisted projection of a success.
pub fn project_save(o: &Options, stdout: &Vec<u8>, stderr: &Vec<u8>) -> (r: Vec<u8>)
    ensures
        r@ == spec_to_save(o@, stdout@, stderr@),
{
    let mut r: Vec<u8> = Vec::new();
    if o.stdout_mode.saves() {
        let mut c = copy_bytes(stdout);
        r.append(&mut c);
    }
    if o.stderr_mode.saves() {
        let mut c = copy_bytes(stderr);
        r.append(&mut c);
    }
    proof {
        assert(r@ =~= spec_to_save(o@, stdout@, stderr@));
    }
    r
}

/// Reconcile one outcome for the file under `key` into the store,
/// counters and an optional notice.
pub fn record_outcome(store: &mut Store, summary: &mut Summary, key: &Vec<u8>, oc: &Outcome) -> (r:
    Option<Notice>)
    requires
        old(summary).success < u64::MAX,
        old(summary).new_success < u64::MAX,
        old(summary).failure < u64::MAX,
        old(summary).timeout < u64::MAX,
    ensures
        final(store)@ == apply_outcome(old(store)@, key@, oc@),
        final(summary)@ == step_counts(old(store)@, old(summary)@, key@, oc@),
        match (r, step_notice(old(store)@, key@, oc@)) {
            (Some(n), Some(m)) => n@ == m,
            (None, None) => true,
            _ => false,
        },
        old(store).wf() ==> final(store).wf(),
{
    match oc {
        Outcome::Success { stdout, stderr, elapsed_ms } => {
            summary.success = summary.success + 1;
            let to_save = project_save(&store.options, stdout, stderr);
            let already = store.results_contains(key, &to_save);
            store.update_timing(key, *elapsed_ms);
            if already {
                None
            } else {
                let to_print = project_print(&store.options, stdout, stderr);
                store.append_result(key, &to_save);
                summary.new_success = summary.new_success + 1;
                Some(
                    Notice { key: copy_bytes(key), kind: NoticeKind::NewSuccess, text: to_print },
                )
            }
        },
        Outcome::Failure { stdout, stderr } => {
            summary.failure = summary.failure + 1;
            let to_print = project_print(&store.options, stdout, stderr);
            Some(Notice { key: copy_bytes(key), kind: NoticeKind::Failed, text: to_print })
        },
        Outcome::Timeout => {
            summary.timeout = summary.timeout + 1;
            Some(Notice { key: copy_bytes(key), kind: NoticeKind::TimedOut, text: Vec::new() })
        },
    }
}

/// Reconcile a whole run: fold the index-aligned files and outcomes
/// into the store, and hand back the counters and the notices owed to
/// the operator, in order.
pub fn reconcile_all(store: &mut Store, keys: &Vec<Vec<u8>>, outcomes: &Vec<Outcome>) -> (r: (
    Summary,
    Vec<Notice>,
))
    requires
        keys.len() == outcomes.len(),
    ensures
        final(store)@ == run_all(run_start(old(store)@), pairs_view(*keys, *outcomes)).store,
        r.0@ == run_all(run_start(old(store)@), pairs_view(*keys, *outcomes)).counts,
        view_notices(r.1) == run_all(run_start(old(store)@), pairs_view(*keys, *outcomes)).notices,
        old(store).wf() ==> final(store).wf(),
{
    let ghost ps = pairs_view(*keys, *outcomes);
    let mut summary = Summary::empty();
    let mut notices: Vec<Notice> = Vec::new();
    let mut i: usize = 0;
    proof {
        assert(ps.take(0) =~= Seq::<(Seq<u8>, OutcomeV)>::empty());
    }
    while i < keys.len()
        invariant
            keys.len() == outcomes.len(),
            i <= keys.len(),
            ps == pairs_view(*keys, *outcomes),
            store@ == run_all(run_start(old(store)@), ps.take(i as int)).store,
            summary@ == run_all(run_start(old(store)@), ps.take(i as int)).counts,
            view_notices(notices) == run_all(run_start(old(store)@), ps.take(i as int)).notices,
            summary.success + summary.failure + summary.timeout <= i,
            summary.new_success <= summary.success,
            old(store).wf() ==> store.wf(),
        decreases keys.len() - i,
    {
        let ghost pre = *store;
        let notice = record_outcome(store, &mut summary, &keys[i], &outcomes[i]);
        if let Some(n) = notice {
            notices.push(n);
        }
        proof {
            lemma_run_all_snoc(run_start(old(store)@), ps, i as int);
            assert(ps[i as int] == (keys@[i as int]@, outcomes@[i as int]@));
            if step_notice(pre@, keys@[i as int]@, outcomes@[i as int]@) is Some {
                assert(view_notices(notices) =~= run_all(
                    run_start(old(store)@),
                    ps.take(i as int + 1),
                ).notices);
            }
        }
        i += 1;
    }
    proof {
        assert(ps.take(keys@.len() as int) =~= ps);
    }
    (summary, notices)
}

/// The sequence-of-values view of a list of notices.
pub open spec fn view_notices(l: Vec<Notice>) -> Seq<NoticeV> {
    Seq::new(l@.len(), |i: int| l@[i]@)
}

} // verus!
