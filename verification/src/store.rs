//! The snapshot store: run identity, run configuration, accepted
//! outputs per file, and timing statistics per file.
//!
//! Both maps are kept as association lists in first-insertion order
//! with unique keys, so that the persisted document is stable across
//! runs.  Every results list holds distinct entries: membership is
//! checked before insertion and nowhere else, so the invariant is
//! preserved by the only mutator.

use vstd::prelude::*;

use crate::bytes::bytes_eq;
use crate::bytes::copy_bytes;
use crate::bytes::view_list;
use crate::modes::Metadata;
use crate::modes::MetadataV;
use crate::modes::Options;
use crate::modes::OptionsV;

verus! {

/// Timing statistics of one file: the fastest success ever observed
/// and the most recent one, both in milliseconds.
#[derive(Debug, Clone, Copy, PartialEq, Eq, Structural)]
pub struct Timing {
    pub fastest_ms: u64,
    pub most_recent_ms: u64,
}

/// Position of the first entry with key `k`, or `-1` when there is none.
pub open spec fn assoc_pos<V>(s: Seq<(Seq<u8>, V)>, k: Seq<u8>) -> int
    decreases s.len(),
{
    if s.len() == 0 {
        -1
    } else if s[0].0 == k {
        0
    } else {
        let r = assoc_pos(s.drop_first(), k);
        if r < 0 {
            -1
        } else {
            1 + r
        }
    }
}

/// Whether the association list holds an entry with key `k`.
pub open spec fn assoc_has<V>(s: Seq<(Seq<u8>, V)>, k: Seq<u8>) -> bool {
    assoc_pos(s, k) >= 0
}

/// The value stored under key `k` (meaningful only when `assoc_has`).
pub open spec fn assoc_val<V>(s: Seq<(Seq<u8>, V)>, k: Seq<u8>) -> V {
    s[assoc_pos(s, k)].1
}

/// What `assoc_pos` finds: a well-placed first match, or no match at all.
pub proof fn lemma_assoc_pos<V>(s: Seq<(Seq<u8>, V)>, k: Seq<u8>)
    ensures
        assoc_has(s, k) ==> 0 <= assoc_pos(s, k) < s.len(),
        assoc_has(s, k) ==> s[assoc_pos(s, k)].0 == k,
        assoc_has(s, k) ==> forall|j: int| 0 <= j < assoc_pos(s, k) ==> s[j].0 != k,
        !assoc_has(s, k) ==> forall|i: int| 0 <= i < s.len() ==> s[i].0 != k,
    decreases s.len(),
{
    if s.len() > 0 && s[0].0 != k {
        let t = s.drop_first();
        lemma_assoc_pos(t, k);
        assert forall|i: int| 0 <= i < t.len() implies t[i] == s[i + 1] by {}
        if assoc_has(s, k) {
            let p = assoc_pos(s, k);
            assert forall|j: int| 0 <= j < p implies s[j].0 != k by {
                if j > 0 {
                    assert(t[j - 1] == s[j]);
                }
            }
        } else {
            assert forall|i: int| 0 <= i < s.len() implies s[i].0 != k by {
                if i > 0 {
                    assert(t[i - 1] == s[i]);
                }
            }
        }
    }
}

/// Two association lists with the same keys in the same places are
/// searched alike.
pub proof fn lemma_assoc_pos_same_keys<V, W>(s: Seq<(Seq<u8>, V)>, t: Seq<(Seq<u8>, W)>, k: Seq<u8>)
    requires
        s.len() == t.len(),
        forall|i: int| 0 <= i < s.len() ==> (#[trigger] s[i]).0 == (#[trigger] t[i]).0,
    ensures
        assoc_pos(s, k) == assoc_pos(t, k),
    decreases s.len(),
{
    if s.len() > 0 {
        assert(s[0].0 == t[0].0);
        lemma_assoc_pos_same_keys(s.drop_first(), t.drop_first(), k);
        assert forall|i: int| 0 <= i < s.drop_first().len() implies (#[trigger] s.drop_first()[i]).0
            == (#[trigger] t.drop_first()[i]).0 by {
            assert(s.drop_first()[i] == s[i + 1]);
            assert(t.drop_first()[i] == t[i + 1]);
        }
    }
}

/// Searching past an appended entry: an existing key is found where it
/// was, the new key is found at the end, any other key stays absent.
pub proof fn lemma_assoc_pos_push<V>(s: Seq<(Seq<u8>, V)>, e: (Seq<u8>, V), k: Seq<u8>)
    ensures
        assoc_pos(s.push(e), k) == if assoc_has(s, k) {
            assoc_pos(s, k)
        } else if e.0 == k {
            s.len() as int
        } else {
            -1
        },
    decreases s.len(),
{
    if s.len() == 0 {
        assert(s.push(e)[0] == e);
        assert(s.push(e).len() == 1);
        if e.0 != k {
            let t = s.push(e);
            assert(t.drop_first() =~= Seq::<(Seq<u8>, V)>::empty());
            assert(assoc_pos(t.drop_first(), k) == -1);
            assert(assoc_pos(t, k) == -1);
        }
    } else {
        assert(s.push(e)[0] == s[0]);
        assert(s.push(e).drop_first() =~= s.drop_first().push(e));
        lemma_assoc_pos_push(s.drop_first(), e, k);
    }
}

/// Replacing the value under one key moves no search: positions are
/// key-directed only.
pub proof fn lemma_assoc_pos_update<V>(s: Seq<(Seq<u8>, V)>, p: int, e: (Seq<u8>, V), k: Seq<u8>)
    requires
        0 <= p < s.len(),
        s[p].0 == e.0,
    ensures
        assoc_pos(s.update(p, e), k) == assoc_pos(s, k),
{
    lemma_assoc_pos_same_keys(s.update(p, e), s, k);
}

/// All keys of the association list are distinct.
pub open spec fn uniq_keys<V>(s: Seq<(Seq<u8>, V)>) -> bool {
    forall|i: int, j: int| 0 <= i < j < s.len() ==> s[i].0 != s[j].0
}

/// All elements of the sequence are distinct.
pub open spec fn distinct<T>(s: Seq<T>) -> bool {
    forall|i: int, j: int| 0 <= i < j < s.len() ==> s[i] != s[j]
}

/// The results map after accepting output `v` for file `k`: the list
/// under `k` grows by `v` at its end, or a fresh one-element entry is
/// appended when the file has no entry yet.
pub open spec fn upd_results(
    rs: Seq<(Seq<u8>, Seq<Seq<u8>>)>,
    k: Seq<u8>,
    v: Seq<u8>,
) -> Seq<(Seq<u8>, Seq<Seq<u8>>)> {
    if assoc_has(rs, k) {
        rs.update(assoc_pos(rs, k), (k, rs[assoc_pos(rs, k)].1.push(v)))
    } else {
        rs.push((k, seq![v]))
    }
}

/// The timing map after a success for file `k` taking `e` milliseconds:
/// `most_recent` becomes `e`, `fastest` becomes the minimum of the old
/// value and `e`, and both start at `e` on the first observation.
pub open spec fn upd_timing(s: Seq<(Seq<u8>, Timing)>, k: Seq<u8>, e: u64) -> Seq<(Seq<u8>,
    Timing)> {
    if assoc_has(s, k) {
        let t = s[assoc_pos(s, k)].1;
        s.update(
            assoc_pos(s, k),
            (
                k,
                Timing {
                    fastest_ms: if e < t.fastest_ms {
                        e
                    } else {
                        t.fastest_ms
                    },
                    most_recent_ms: e,
                },
            ),
        )
    } else {
        s.push((k, Timing { fastest_ms: e, most_recent_ms: e }))
    }
}

/// The smaller of two millisecond counts.
pub open spec fn min64(a: u64, b: u64) -> u64 {
    if a < b {
        a
    } else {
        b
    }
}

/// How `upd_results` answers lookups: the touched key gains exactly the
/// inserted value at the end of its list, every other key is answered
/// as before.
pub proof fn lemma_upd_results_lookup(rs: Seq<(Seq<u8>, Seq<Seq<u8>>)>, k: Seq<u8>, v: Seq<u8>)
    ensures
        assoc_has(upd_results(rs, k, v), k),
        assoc_val(upd_results(rs, k, v), k) == if assoc_has(rs, k) {
            assoc_val(rs, k).push(v)
        } else {
            seq![v]
        },
        forall|k2: Seq<u8>|
            k2 != k ==> #[trigger] assoc_pos(upd_results(rs, k, v), k2) == assoc_pos(rs, k2),
        forall|k2: Seq<u8>|
            k2 != k && assoc_has(rs, k2) ==> #[trigger] assoc_val(upd_results(rs, k, v), k2)
                == assoc_val(rs, k2),
{
    lemma_assoc_pos(rs, k);
    let u = upd_results(rs, k, v);
    if assoc_has(rs, k) {
        let p = assoc_pos(rs, k);
        let e = (k, rs[p].1.push(v));
        lemma_assoc_pos_update(rs, p, e, k);
        assert forall|k2: Seq<u8>| k2 != k implies #[trigger] assoc_pos(u, k2) == assoc_pos(
            rs,
            k2,
        ) by {
            lemma_assoc_pos_update(rs, p, e, k2);
        }
        assert forall|k2: Seq<u8>| k2 != k && assoc_has(rs, k2) implies #[trigger] assoc_val(
            u,
            k2,
        ) == assoc_val(rs, k2) by {
            lemma_assoc_pos_update(rs, p, e, k2);
            lemma_assoc_pos(rs, k2);
        }
    } else {
        let e = (k, seq![v]);
        lemma_assoc_pos_push(rs, e, k);
        assert forall|k2: Seq<u8>| k2 != k implies #[trigger] assoc_pos(u, k2) == assoc_pos(
            rs,
            k2,
        ) by {
            lemma_assoc_pos_push(rs, e, k2);
        }
        assert forall|k2: Seq<u8>| k2 != k && assoc_has(rs, k2) implies #[trigger] assoc_val(
            u,
            k2,
        ) == assoc_val(rs, k2) by {
            lemma_assoc_pos_push(rs, e, k2);
            lemma_assoc_pos(rs, k2);
        }
    }
}

/// How `upd_timing` answers lookups: the touched key reads the new
/// statistics, every other key is answered as before.
pub proof fn lemma_upd_timing_lookup(ts: Seq<(Seq<u8>, Timing)>, k: Seq<u8>, e: u64)
    ensures
        assoc_has(upd_timing(ts, k, e), k),
        assoc_val(upd_timing(ts, k, e), k) == (Timing {
            fastest_ms: if assoc_has(ts, k) {
                min64(assoc_val(ts, k).fastest_ms, e)
            } else {
                e
            },
            most_recent_ms: e,
        }),
        forall|k2: Seq<u8>|
            k2 != k ==> #[trigger] assoc_pos(upd_timing(ts, k, e), k2) == assoc_pos(ts, k2),
        forall|k2: Seq<u8>|
            k2 != k && assoc_has(ts, k2) ==> #[trigger] assoc_val(upd_timing(ts, k, e), k2)
                == assoc_val(ts, k2),
{
    lemma_assoc_pos(ts, k);
    let u = upd_timing(ts, k, e);
    if assoc_has(ts, k) {
        let p = assoc_pos(ts, k);
        let t = ts[p].1;
        let en = (
            k,
            Timing {
                fastest_ms: if e < t.fastest_ms {
                    e
                } else {
                    t.fastest_ms
                },
                most_recent_ms: e,
            },
        );
        lemma_assoc_pos_update(ts, p, en, k);
        assert forall|k2: Seq<u8>| k2 != k implies #[trigger] assoc_pos(u, k2) == assoc_pos(
            ts,
            k2,
        ) by {
            lemma_assoc_pos_update(ts, p, en, k2);
        }
        assert forall|k2: Seq<u8>| k2 != k && assoc_has(ts, k2) implies #[trigger] assoc_val(
            u,
            k2,
        ) == assoc_val(ts, k2) by {
            lemma_assoc_pos_update(ts, p, en, k2);
            lemma_assoc_pos(ts, k2);
        }
    } else {
        let en = (k, Timing { fastest_ms: e, most_recent_ms: e });
        lemma_assoc_pos_push(ts, en, k);
        assert forall|k2: Seq<u8>| k2 != k implies #[trigger] assoc_pos(u, k2) == assoc_pos(
            ts,
            k2,
        ) by {
            lemma_assoc_pos_push(ts, en, k2);
        }
        assert forall|k2: Seq<u8>| k2 != k && assoc_has(ts, k2) implies #[trigger] assoc_val(
            u,
            k2,
        ) == assoc_val(ts, k2) by {
            lemma_assoc_pos_push(ts, en, k2);
            lemma_assoc_pos(ts, k2);
        }
    }
}

/// The mathematical value of a [`Store`].
pub ghost struct StoreV {
    pub metadata: MetadataV,
    pub options: OptionsV,
    pub results: Seq<(Seq<u8>, Seq<Seq<u8>>)>,
    pub timing: Seq<(Seq<u8>, Timing)>,
}

impl StoreV {
    /// The store invariant: unique keys in both maps, distinct entries
    /// in every results list.
    pub open spec fn wf(&self) -> bool {
        &&& uniq_keys(self.results)
        &&& uniq_keys(self.timing)
        &&& forall|i: int| 0 <= i < self.results.len() ==> distinct(#[trigger] self.results[i].1)
    }
}

/// The persisted record of a run: identity, configuration, accepted
/// outputs and timing statistics.
#[derive(Debug, PartialEq, Eq)]
pub struct Store {
    pub metadata: Metadata,
    pub options: Options,
    pub results: Vec<(Vec<u8>, Vec<Vec<u8>>)>,
    pub timing: Vec<(Vec<u8>, Timing)>,
}

/// The view of the concrete results map.
pub open spec fn results_view(rs: Vec<(Vec<u8>, Vec<Vec<u8>>)>) -> Seq<(Seq<u8>, Seq<Seq<u8>>)> {
    Seq::new(rs@.len(), |i: int| (rs@[i].0@, view_list(rs@[i].1)))
}

/// The view of the concrete timing map.
pub open spec fn timing_view(ts: Vec<(Vec<u8>, Timing)>) -> Seq<(Seq<u8>, Timing)> {
    Seq::new(ts@.len(), |i: int| (ts@[i].0@, ts@[i].1))
}

impl View for Store {
    type V = StoreV;

    open spec fn view(&self) -> StoreV {
        StoreV {
            metadata: self.metadata@,
            options: self.options@,
            results: results_view(self.results),
            timing: timing_view(self.timing),
        }
    }
}

/// A mutable borrow of one results entry.
fn results_entry_mut(v: &mut Vec<(Vec<u8>, Vec<Vec<u8>>)>, i: usize) -> (e: &mut (
    Vec<u8>,
    Vec<Vec<u8>>,
))
    requires
        i < old(v).len(),
    ensures
        *e == old(v)@[i as int],
        final(v)@ == old(v)@.update(i as int, *final(e)),
{
    &mut v[i]
}

/// A mutable borrow of one timing entry.
fn timing_entry_mut(v: &mut Vec<(Vec<u8>, Timing)>, i: usize) -> (e: &mut (Vec<u8>, Timing))
    requires
        i < old(v).len(),
    ensures
        *e == old(v)@[i as int],
        final(v)@ == old(v)@.update(i as int, *final(e)),
{
    &mut v[i]
}

/// Position of `key` in the concrete results map, if any.
fn results_pos(rs: &Vec<(Vec<u8>, Vec<Vec<u8>>)>, key: &Vec<u8>) -> (r: Option<usize>)
    ensures
        match r {
            Some(i) => assoc_has(results_view(*rs), key@) && i == assoc_pos(
                results_view(*rs),
                key@,
            ),
            None => !assoc_has(results_view(*rs), key@),
        },
{
    let ghost s = results_view(*rs);
    proof {
        lemma_assoc_pos(s, key@);
    }
    let mut i: usize = 0;
    while i < rs.len()
        invariant
            i <= rs.len(),
            s == results_view(*rs),
            forall|j: int| 0 <= j < i ==> s[j].0 != key@,
        decreases rs.len() - i,
    {
        if bytes_eq(&rs[i].0, key) {
            proof {
                assert(s[i as int].0 == key@);
                lemma_assoc_pos(s, key@);
            }
            return Some(i);
        }
        i += 1;
    }
    proof {
        lemma_assoc_pos(s, key@);
    }
    None
}

/// Position of `key` in the concrete timing map, if any.
fn timing_pos(ts: &Vec<(Vec<u8>, Timing)>, key: &Vec<u8>) -> (r: Option<usize>)
    ensures
        match r {
            Some(i) => assoc_has(timing_view(*ts), key@) && i == assoc_pos(
                timing_view(*ts),
                key@,
            ),
            None => !assoc_has(timing_view(*ts), key@),
        },
{
    let ghost s = timing_view(*ts);
    proof {
        lemma_assoc_pos(s, key@);
    }
    let mut i: usize = 0;
    while i < ts.len()
        invariant
            i <= ts.len(),
            s == timing_view(*ts),
            forall|j: int| 0 <= j < i ==> s[j].0 != key@,
        decreases ts.len() - i,
    {
        if bytes_eq(&ts[i].0, key) {
            proof {
                assert(s[i as int].0 == key@);
                lemma_assoc_pos(s, key@);
            }
            return Some(i);
        }
        i += 1;
    }
    proof {
        lemma_assoc_pos(s, key@);
    }
    None
}

impl Store {
    /// The store invariant, stated of the view.
    pub open spec fn wf(&self) -> bool {
        self@.wf()
    }

    /// A store for a fresh run: the given identity and configuration,
    /// no accepted outputs, no timing statistics.
    pub fn fresh(metadata: Metadata, options: Options) -> (r: Store)
        ensures
            r@.metadata == metadata@,
            r@.options == options@,
            r@.results == Seq::<(Seq<u8>, Seq<Seq<u8>>)>::empty(),
            r@.timing == Seq::<(Seq<u8>, Timing)>::empty(),
            r.wf(),
    {
        let r = Store { metadata, options, results: Vec::new(), timing: Vec::new() };
        proof {
            assert(r@.results =~= Seq::<(Seq<u8>, Seq<Seq<u8>>)>::empty());
            assert(r@.timing =~= Seq::<(Seq<u8>, Timing)>::empty());
        }
        r
    }

    /// Whether output `val` was already accepted for file `key`.
    pub fn results_contains(&self, key: &Vec<u8>, val: &Vec<u8>) -> (r: bool)
        ensures
            r == (assoc_has(self@.results, key@) && assoc_val(self@.results, key@).contains(
                val@,
            )),
    {
        match results_pos(&self.results, key) {
            Some(i) => {
                proof {
                    lemma_assoc_pos(self@.results, key@);
                }
                let lst = &self.results[i].1;
                let mut j: usize = 0;
                let ghost l = assoc_val(self@.results, key@);
                proof {
                    lemma_assoc_pos(self@.results, key@);
                    assert(l == view_list(*lst));
                }
                while j < lst.len()
                    invariant
                        j <= lst.len(),
                        assoc_has(self@.results, key@),
                        l == assoc_val(self@.results, key@),
                        l == view_list(*lst),
                        forall|t: int| 0 <= t < j ==> l[t] != val@,
                    decreases lst.len() - j,
                {
                    if bytes_eq(&lst[j], val) {
                        proof {
                            assert(l[j as int] == val@);
                            assert(l.contains(val@));
                        }
                        return true;
                    }
                    j += 1;
                }
                proof {
                    assert(!l.contains(val@));
                }
                false
            },
            None => false,
        }
    }

    /// Record a success time for file `key`; the results map and the
    /// rest of the store stay as they are.
    pub fn update_timing(&mut self, key: &Vec<u8>, elapsed_ms: u64)
        ensures
            final(self)@.timing == upd_timing(old(self)@.timing, key@, elapsed_ms),
            final(self)@.results == old(self)@.results,
            final(self)@.metadata == old(self)@.metadata,
            final(self)@.options == old(self)@.options,
            old(self).wf() ==> final(self).wf(),
    {
        let ghost s0 = self@.timing;
        match timing_pos(&self.timing, key) {
            Some(i) => {
                proof {
                    lemma_assoc_pos(s0, key@);
                }
                let e = timing_entry_mut(&mut self.timing, i);
                let old_t = e.1;
                e.1 =
                Timing {
                    fastest_ms: if elapsed_ms < old_t.fastest_ms {
                        elapsed_ms
                    } else {
                        old_t.fastest_ms
                    },
                    most_recent_ms: elapsed_ms,
                };
                proof {
                    assert(timing_view(self.timing) =~= upd_timing(s0, key@, elapsed_ms));
                    if old(self).wf() {
                        lemma_upd_timing_wf(s0, key@, elapsed_ms);
                    }
                }
            },
            None => {
                self.timing.push((copy_bytes(key), Timing {
                    fastest_ms: elapsed_ms,
                    most_recent_ms: elapsed_ms,
                }));
                proof {
                    assert(timing_view(self.timing) =~= upd_timing(s0, key@, elapsed_ms));
                    if old(self).wf() {
                        lemma_upd_timing_wf(s0, key@, elapsed_ms);
                    }
                }
            },
        }
    }

    /// Accept a novel output `val` for file `key`.  The caller must
    /// have checked novelty: that is what keeps results lists distinct.
    pub fn append_result(&mut self, key: &Vec<u8>, val: &Vec<u8>)
        requires
            !(assoc_has(old(self)@.results, key@) && assoc_val(old(self)@.results, key@).contains(
                val@,
            )),
        ensures
            final(self)@.results == upd_results(old(self)@.results, key@, val@),
            final(self)@.timing == old(self)@.timing,
            final(self)@.metadata == old(self)@.metadata,
            final(self)@.options == old(self)@.options,
            old(self).wf() ==> final(self).wf(),
    {
        let ghost s0 = self@.results;
        match results_pos(&self.results, key) {
            Some(i) => {
                proof {
                    lemma_assoc_pos(s0, key@);
                }
                let e = results_entry_mut(&mut self.results, i);
                let ghost l0 = view_list(e.1);
                e.1.push(copy_bytes(val));
                proof {
                    assert(view_list(e.1) =~= l0.push(val@));
                    assert(results_view(self.results) =~= upd_results(s0, key@, val@));
                    if old(self).wf() {
                        lemma_upd_results_wf(s0, key@, val@);
                    }
                }
            },
            None => {
                let mut one: Vec<Vec<u8>> = Vec::new();
                one.push(copy_bytes(val));
                proof {
                    assert(view_list(one) =~= seq![val@]);
                }
                self.results.push((copy_bytes(key), one));
                proof {
                    assert(results_view(self.results) =~= upd_results(s0, key@, val@));
                    if old(self).wf() {
                        lemma_upd_results_wf(s0, key@, val@);
                    }
                }
            },
        }
    }
}

/// `upd_timing` preserves unique keys (and touches nothing else of the
/// invariant).
pub proof fn lemma_upd_timing_wf(s: Seq<(Seq<u8>, Timing)>, k: Seq<u8>, e: u64)
    requires
        uniq_keys(s),
    ensures
        uniq_keys(upd_timing(s, k, e)),
{
    lemma_assoc_pos(s, k);
}

/// `upd_results` preserves the store invariant on the results map when
/// the inserted value is novel for its key.
pub proof fn lemma_upd_results_wf(s: Seq<(Seq<u8>, Seq<Seq<u8>>)>, k: Seq<u8>, v: Seq<u8>)
    requires
        uniq_keys(s),
        forall|i: int| 0 <= i < s.len() ==> distinct(#[trigger] s[i].1),
        !(assoc_has(s, k) && assoc_val(s, k).contains(v)),
    ensures
        uniq_keys(upd_results(s, k, v)),
        forall|i: int|
            0 <= i < upd_results(s, k, v).len() ==> distinct(#[trigger] upd_results(s, k, v)[i].1),
{
    lemma_assoc_pos(s, k);
    let r = upd_results(s, k, v);
    if assoc_has(s, k) {
        let p = assoc_pos(s, k);
        let nl = s[p].1.push(v);
        assert forall|i: int, j: int| 0 <= i < j < nl.len() implies nl[i] != nl[j] by {
            if j < nl.len() - 1 {
                assert(s[p].1[i] != s[p].1[j]);
            } else {
                if nl[i] == v {
                    assert(s[p].1[i] == v);
                    assert(assoc_val(s, k).contains(v));
                }
            }
        }
        assert forall|i: int| 0 <= i < r.len() implies distinct(#[trigger] r[i].1) by {
            if i != p {
                assert(r[i].1 == s[i].1);
            }
        }
    } else {
        assert forall|i: int| 0 <= i < r.len() implies distinct(#[trigger] r[i].1) by {
            if i < s.len() {
                assert(r[i].1 == s[i].1);
            } else {
                assert(r[i].1 == seq![v]);
            }
        }
    }
}

} // verus!
