//! The executable codec: writing a store out and reading one back,
//! each proved against the spec-level document format.

use vstd::prelude::*;

use crate::bytes::bytes_eq;
use crate::bytes::view_list;
use crate::codec::dec;
use crate::codec::header;
use crate::codec::mode_byte;
use crate::codec::ser_bool;
use crate::codec::ser_bytes;
use crate::codec::ser_bytes_seq;
use crate::codec::ser_list;
use crate::codec::ser_mode;
use crate::codec::ser_opt_bytes;
use crate::codec::ser_res_entries;
use crate::codec::ser_store;
use crate::codec::ser_tim_entries;
use crate::codec::ser_u64;
use crate::codec::sp_bool;
use crate::codec::sp_byte;
use crate::codec::sp_bytes;
use crate::codec::sp_bytes_seq;
use crate::codec::sp_digits;
use crate::codec::sp_header;
use crate::codec::sp_line_u64;
use crate::codec::sp_list;
use crate::codec::sp_mode;
use crate::codec::sp_opt_bytes;
use crate::codec::sp_res_entries;
use crate::codec::sp_store;
use crate::codec::sp_store_tail;
use crate::codec::sp_tim_entries;
use crate::codec::sp_u64;
use crate::codec::COLON;
use crate::codec::NL;
use crate::codec::TAG_ABSENT;
use crate::codec::TAG_BOTH;
use crate::codec::TAG_FALSE;
use crate::codec::TAG_OFF;
use crate::codec::TAG_PRESENT;
use crate::codec::TAG_PRINT;
use crate::codec::TAG_SAVE;
use crate::codec::TAG_TRUE;
use crate::modes::Metadata;
use crate::modes::Options;
use crate::modes::StreamMode;
use crate::store::results_view;
use crate::store::timing_view;
use crate::store::Store;
use crate::store::Timing;

verus! {

/// Write the decimal digits of `n`.
fn push_dec(out: &mut Vec<u8>, n: u64)
    ensures
        final(out)@ == old(out)@ + dec(n as nat),
    decreases n,
{
    if n < 10 {
        out.push(48 + n as u8);
        proof {
            assert(final(out)@ =~= old(out)@ + dec(n as nat));
        }
    } else {
        push_dec(out, n / 10);
        out.push(48 + (n % 10) as u8);
        proof {
            assert((n / 10) as nat == (n as nat) / 10);
            assert((n % 10) as nat == (n as nat) % 10);
            assert(final(out)@ =~= old(out)@ + dec(n as nat));
        }
    }
}

/// Write a number line.
fn push_u64_line(out: &mut Vec<u8>, n: u64)
    ensures
        final(out)@ == old(out)@ + ser_u64(n),
{
    push_dec(out, n);
    out.push(NL);
    proof {
        assert(final(out)@ =~= old(out)@ + ser_u64(n));
    }
}

/// Write a byte-string field.
fn push_bytes_field(out: &mut Vec<u8>, b: &Vec<u8>)
    ensures
        final(out)@ == old(out)@ + ser_bytes(b@),
{
    push_dec(out, b.len() as u64);
    out.push(COLON);
    out.extend_from_slice(b.as_slice());
    out.push(NL);
    proof {
        assert((b.len() as u64) as nat == b@.len());
        assert(final(out)@ =~= old(out)@ + ser_bytes(b@));
    }
}

/// Write an optional byte-string field.
fn push_opt_bytes(out: &mut Vec<u8>, ob: &Option<Vec<u8>>)
    ensures
        final(out)@ == old(out)@ + ser_opt_bytes(
            match ob {
                Some(b) => Some(b@),
                None => None,
            },
        ),
{
    match ob {
        None => {
            out.push(TAG_ABSENT);
            out.push(NL);
            proof {
                assert(final(out)@ =~= old(out)@ + ser_opt_bytes(None));
            }
        },
        Some(b) => {
            out.push(TAG_PRESENT);
            push_bytes_field(out, b);
            proof {
                assert(final(out)@ =~= old(out)@ + ser_opt_bytes(Some(b@)));
            }
        },
    }
}

/// Write a stream-mode line.
fn push_mode(out: &mut Vec<u8>, m: StreamMode)
    ensures
        final(out)@ == old(out)@ + ser_mode(m),
{
    let t: u8 = match m {
        StreamMode::Off => TAG_OFF,
        StreamMode::Save => TAG_SAVE,
        StreamMode::Print => TAG_PRINT,
        StreamMode::Both => TAG_BOTH,
    };
    out.push(t);
    out.push(NL);
    proof {
        assert(t == mode_byte(m));
        assert(final(out)@ =~= old(out)@ + ser_mode(m));
    }
}

/// Write a boolean line.
fn push_bool(out: &mut Vec<u8>, v: bool)
    ensures
        final(out)@ == old(out)@ + ser_bool(v),
{
    out.push(
        if v {
            TAG_TRUE
        } else {
            TAG_FALSE
        },
    );
    out.push(NL);
    proof {
        assert(final(out)@ =~= old(out)@ + ser_bool(v));
    }
}

/// Write the list elements from index `i` on.
fn push_bytes_seq_from(out: &mut Vec<u8>, l: &Vec<Vec<u8>>, i: usize)
    requires
        i <= l.len(),
    ensures
        final(out)@ == old(out)@ + ser_bytes_seq(view_list(*l).skip(i as int)),
    decreases l.len() - i,
{
    if i < l.len() {
        push_bytes_field(out, &l[i]);
        push_bytes_seq_from(out, l, i + 1);
        proof {
            let v = view_list(*l);
            assert(v.skip(i as int)[0] == v[i as int]);
            assert(v.skip(i as int).drop_first() =~= v.skip(i as int + 1));
            assert(final(out)@ =~= old(out)@ + ser_bytes_seq(v.skip(i as int)));
        }
    } else {
        proof {
            assert(view_list(*l).skip(i as int) =~= Seq::<Seq<u8>>::empty());
            assert(final(out)@ =~= old(out)@ + ser_bytes_seq(view_list(*l).skip(i as int)));
        }
    }
}

/// Write a counted list field.
fn push_list(out: &mut Vec<u8>, l: &Vec<Vec<u8>>)
    ensures
        final(out)@ == old(out)@ + ser_list(view_list(*l)),
{
    push_u64_line(out, l.len() as u64);
    push_bytes_seq_from(out, l, 0);
    proof {
        assert(view_list(*l).skip(0) =~= view_list(*l));
        assert((l.len() as u64) as nat == view_list(*l).len());
        assert(final(out)@ =~= old(out)@ + ser_list(view_list(*l)));
    }
}

/// Write the results entries from index `i` on.
fn push_res_entries_from(out: &mut Vec<u8>, rs: &Vec<(Vec<u8>, Vec<Vec<u8>>)>, i: usize)
    requires
        i <= rs.len(),
    ensures
        final(out)@ == old(out)@ + ser_res_entries(results_view(*rs).skip(i as int)),
    decreases rs.len() - i,
{
    if i < rs.len() {
        push_bytes_field(out, &rs[i].0);
        push_list(out, &rs[i].1);
        push_res_entries_from(out, rs, i + 1);
        proof {
            let v = results_view(*rs);
            assert(v.skip(i as int)[0] == v[i as int]);
            assert(v.skip(i as int).drop_first() =~= v.skip(i as int + 1));
            assert(final(out)@ =~= old(out)@ + ser_res_entries(v.skip(i as int)));
        }
    } else {
        proof {
            assert(results_view(*rs).skip(i as int) =~= Seq::<(Seq<u8>, Seq<Seq<u8>>)>::empty());
            assert(final(out)@ =~= old(out)@ + ser_res_entries(results_view(*rs).skip(i as int)));
        }
    }
}

/// Write the timing entries from index `i` on.
fn push_tim_entries_from(out: &mut Vec<u8>, ts: &Vec<(Vec<u8>, Timing)>, i: usize)
    requires
        i <= ts.len(),
    ensures
        final(out)@ == old(out)@ + ser_tim_entries(timing_view(*ts).skip(i as int)),
    decreases ts.len() - i,
{
    if i < ts.len() {
        push_bytes_field(out, &ts[i].0);
        push_u64_line(out, ts[i].1.fastest_ms);
        push_u64_line(out, ts[i].1.most_recent_ms);
        push_tim_entries_from(out, ts, i + 1);
        proof {
            let v = timing_view(*ts);
            assert(v.skip(i as int)[0] == v[i as int]);
            assert(v.skip(i as int).drop_first() =~= v.skip(i as int + 1));
            assert(final(out)@ =~= old(out)@ + ser_tim_entries(v.skip(i as int)));
        }
    } else {
        proof {
            assert(timing_view(*ts).skip(i as int) =~= Seq::<(Seq<u8>, Timing)>::empty());
            assert(final(out)@ =~= old(out)@ + ser_tim_entries(timing_view(*ts).skip(i as int)));
        }
    }
}

/// Serialize a store into its document.
pub fn serialize_store(st: &Store) -> (r: Vec<u8>)
    ensures
        r@ == ser_store(st@),
{
    let mut out: Vec<u8> = Vec::new();
    out.push(115);
    out.push(110);
    out.push(97);
    out.push(112);
    out.push(115);
    out.push(116);
    out.push(111);
    out.push(114);
    out.push(101);
    out.push(49);
    out.push(NL);
    proof {
        assert(out@ =~= header());
    }
    push_bytes_field(&mut out, &st.metadata.command);
    push_opt_bytes(&mut out, &st.metadata.directory);
    push_bytes_field(&mut out, &st.metadata.files);
    push_mode(&mut out, st.options.stdout_mode);
    push_mode(&mut out, st.options.stderr_mode);
    push_list(&mut out, &st.options.env);
    push_bool(&mut out, st.options.preserve_env);
    push_u64_line(&mut out, st.options.timeout_secs);
    push_u64_line(&mut out, st.results.len() as u64);
    push_res_entries_from(&mut out, &st.results, 0);
    push_u64_line(&mut out, st.timing.len() as u64);
    push_tim_entries_from(&mut out, &st.timing, 0);
    proof {
        assert(results_view(st.results).skip(0) =~= results_view(st.results));
        assert(timing_view(st.timing).skip(0) =~= timing_view(st.timing));
        assert((st.results.len() as u64) as nat == results_view(st.results).len());
        assert((st.timing.len() as u64) as nat == timing_view(st.timing).len());
    }
    out
}

/// A fresh copy of `s[a..b]`.
fn copy_range(s: &Vec<u8>, a: usize, b: usize) -> (r: Vec<u8>)
    requires
        a <= b <= s.len(),
    ensures
        r@ == s@.subrange(a as int, b as int),
{
    let mut r: Vec<u8> = Vec::new();
    let mut i: usize = a;
    while i < b
        invariant
            a <= i <= b <= s.len(),
            r@ == s@.subrange(a as int, i as int),
        decreases b - i,
    {
        r.push(s[i]);
        i += 1;
        proof {
            assert(r@ =~= s@.subrange(a as int, i as int));
        }
    }
    r
}

/// Read one expected byte.
fn p_byte(s: &Vec<u8>, i: usize, b: u8) -> (r: Option<usize>)
    ensures
        match r {
            Some(j) => sp_byte(s@, i as int, b) == Some(j as int) && j <= s.len(),
            None => sp_byte(s@, i as int, b) is None,
        },
{
    if i < s.len() && s[i] == b {
        Some(i + 1)
    } else {
        None
    }
}

/// Read digits onto `acc`.
fn p_digits(s: &Vec<u8>, i: usize, acc: u64) -> (r: Option<(u64, usize)>)
    requires
        i <= s.len(),
    ensures
        match r {
            Some((n, j)) => sp_digits(s@, i as int, acc) == Some((n, j as int)) && i <= j
                <= s.len(),
            None => sp_digits(s@, i as int, acc) is None,
        },
    decreases s.len() - i,
{
    if i >= s.len() {
        return Some((acc, i));
    }
    let b = s[i];
    if !(48 <= b && b <= 57) {
        return Some((acc, i));
    }
    let d = (b - 48) as u64;
    match acc.checked_mul(10) {
        None => None,
        Some(m) => match m.checked_add(d) {
            None => None,
            Some(a2) => p_digits(s, i + 1, a2),
        },
    }
}

/// Read a number.
fn p_u64(s: &Vec<u8>, i: usize) -> (r: Option<(u64, usize)>)
    requires
        i <= s.len(),
    ensures
        match r {
            Some((n, j)) => sp_u64(s@, i as int) == Some((n, j as int)) && i <= j <= s.len(),
            None => sp_u64(s@, i as int) is None,
        },
{
    if i < s.len() && 48 <= s[i] && s[i] <= 57 {
        p_digits(s, i, 0)
    } else {
        None
    }
}

/// Read a number line.
fn p_line_u64(s: &Vec<u8>, i: usize) -> (r: Option<(u64, usize)>)
    requires
        i <= s.len(),
    ensures
        match r {
            Some((n, j)) => sp_line_u64(s@, i as int) == Some((n, j as int)) && j <= s.len(),
            None => sp_line_u64(s@, i as int) is None,
        },
{
    match p_u64(s, i) {
        None => None,
        Some((n, j)) => match p_byte(s, j, NL) {
            None => None,
            Some(j2) => Some((n, j2)),
        },
    }
}

/// Read a byte-string field.
fn p_bytes(s: &Vec<u8>, i: usize) -> (r: Option<(Vec<u8>, usize)>)
    requires
        i <= s.len(),
    ensures
        match r {
            Some((b, j)) => sp_bytes(s@, i as int) == Some((b@, j as int)) && j <= s.len(),
            None => sp_bytes(s@, i as int) is None,
        },
{
    match p_u64(s, i) {
        None => None,
        Some((n, j)) => match p_byte(s, j, COLON) {
            None => None,
            Some(j2) => {
                if n <= (s.len() - j2) as u64 {
                    let nn = n as usize;
                    let payload = copy_range(s, j2, j2 + nn);
                    match p_byte(s, j2 + nn, NL) {
                        None => None,
                        Some(j3) => Some((payload, j3)),
                    }
                } else {
                    assert(j2 + n > s.len());
                    None
                }
            },
        },
    }
}

/// Read an optional byte-string field.
fn p_opt_bytes(s: &Vec<u8>, i: usize) -> (r: Option<(Option<Vec<u8>>, usize)>)
    requires
        i <= s.len(),
    ensures
        match r {
            Some((ob, j)) => sp_opt_bytes(s@, i as int) == Some(
                (
                    match ob {
                        Some(b) => Some(b@),
                        None => None,
                    },
                    j as int,
                ),
            ) && j <= s.len(),
            None => sp_opt_bytes(s@, i as int) is None,
        },
{
    match p_byte(s, i, TAG_ABSENT) {
        Some(j) => match p_byte(s, j, NL) {
            None => None,
            Some(j2) => Some((None, j2)),
        },
        None => match p_byte(s, i, TAG_PRESENT) {
            None => None,
            Some(j) => match p_bytes(s, j) {
                None => None,
                Some((b, j2)) => Some((Some(b), j2)),
            },
        },
    }
}

/// Read a stream-mode line.
fn p_mode(s: &Vec<u8>, i: usize) -> (r: Option<(StreamMode, usize)>)
    requires
        i <= s.len(),
    ensures
        match r {
            Some((m, j)) => sp_mode(s@, i as int) == Some((m, j as int)) && j <= s.len(),
            None => sp_mode(s@, i as int) is None,
        },
{
    if i < s.len() && i + 1 < s.len() && s[i + 1] == NL {
        let t = s[i];
        if t == TAG_OFF {
            Some((StreamMode::Off, i + 2))
        } else if t == TAG_SAVE {
            Some((StreamMode::Save, i + 2))
        } else if t == TAG_PRINT {
            Some((StreamMode::Print, i + 2))
        } else if t == TAG_BOTH {
            Some((StreamMode::Both, i + 2))
        } else {
            None
        }
    } else {
        None
    }
}

/// Read a boolean line.
fn p_bool(s: &Vec<u8>, i: usize) -> (r: Option<(bool, usize)>)
    requires
        i <= s.len(),
    ensures
        match r {
            Some((v, j)) => sp_bool(s@, i as int) == Some((v, j as int)) && j <= s.len(),
            None => sp_bool(s@, i as int) is None,
        },
{
    if i < s.len() && i + 1 < s.len() && s[i + 1] == NL {
        let t = s[i];
        if t == TAG_TRUE {
            Some((true, i + 2))
        } else if t == TAG_FALSE {
            Some((false, i + 2))
        } else {
            None
        }
    } else {
        None
    }
}

/// Read exactly `n` byte strings.
fn p_bytes_list(s: &Vec<u8>, i: usize, n: u64) -> (r: Option<(Vec<Vec<u8>>, usize)>)
    requires
        i <= s.len(),
    ensures
        match r {
            Some((l, j)) => sp_bytes_seq(s@, i as int, n as nat) == Some((view_list(l), j as int))
                && j <= s.len(),
            None => sp_bytes_seq(s@, i as int, n as nat) is None,
        },
    decreases n,
{
    if n == 0 {
        let l: Vec<Vec<u8>> = Vec::new();
        proof {
            assert(view_list(l) =~= Seq::<Seq<u8>>::empty());
        }
        Some((l, i))
    } else {
        match p_bytes(s, i) {
            None => None,
            Some((b, j)) => match p_bytes_list(s, j, n - 1) {
                None => None,
                Some((mut l, j2)) => {
                    let ghost tail_view = view_list(l);
                    l.insert(0, b);
                    proof {
                        assert(view_list(l) =~= seq![b@] + tail_view);
                    }
                    Some((l, j2))
                },
            },
        }
    }
}

/// Read a counted list field.
fn p_list(s: &Vec<u8>, i: usize) -> (r: Option<(Vec<Vec<u8>>, usize)>)
    requires
        i <= s.len(),
    ensures
        match r {
            Some((l, j)) => sp_list(s@, i as int) == Some((view_list(l), j as int)) && j
                <= s.len(),
            None => sp_list(s@, i as int) is None,
        },
{
    match p_line_u64(s, i) {
        None => None,
        Some((n, j)) => p_bytes_list(s, j, n),
    }
}

/// Read exactly `n` results entries.
fn p_res_entries(s: &Vec<u8>, i: usize, n: u64) -> (r: Option<(
    Vec<(Vec<u8>, Vec<Vec<u8>>)>,
    usize,
)>)
    requires
        i <= s.len(),
    ensures
        match r {
            Some((rs, j)) => sp_res_entries(s@, i as int, n as nat) == Some(
                (results_view(rs), j as int),
            ) && j <= s.len(),
            None => sp_res_entries(s@, i as int, n as nat) is None,
        },
    decreases n,
{
    if n == 0 {
        let rs: Vec<(Vec<u8>, Vec<Vec<u8>>)> = Vec::new();
        proof {
            assert(results_view(rs) =~= Seq::<(Seq<u8>, Seq<Seq<u8>>)>::empty());
        }
        Some((rs, i))
    } else {
        match p_bytes(s, i) {
            None => None,
            Some((k, j)) => match p_list(s, j) {
                None => None,
                Some((l, j2)) => match p_res_entries(s, j2, n - 1) {
                    None => None,
                    Some((mut rs, j3)) => {
                        let ghost tail_view = results_view(rs);
                        rs.insert(0, (k, l));
                        proof {
                            assert(results_view(rs) =~= seq![(k@, view_list(l))] + tail_view);
                        }
                        Some((rs, j3))
                    },
                },
            },
        }
    }
}

/// Read exactly `n` timing entries.
fn p_tim_entries(s: &Vec<u8>, i: usize, n: u64) -> (r: Option<(Vec<(Vec<u8>, Timing)>, usize)>)
    requires
        i <= s.len(),
    ensures
        match r {
            Some((ts, j)) => sp_tim_entries(s@, i as int, n as nat) == Some(
                (timing_view(ts), j as int),
            ) && j <= s.len(),
            None => sp_tim_entries(s@, i as int, n as nat) is None,
        },
    decreases n,
{
    if n == 0 {
        let ts: Vec<(Vec<u8>, Timing)> = Vec::new();
        proof {
            assert(timing_view(ts) =~= Seq::<(Seq<u8>, Timing)>::empty());
        }
        Some((ts, i))
    } else {
        match p_bytes(s, i) {
            None => None,
            Some((k, j)) => match p_line_u64(s, j) {
                None => None,
                Some((f, j2)) => match p_line_u64(s, j2) {
                    None => None,
                    Some((m, j3)) => match p_tim_entries(s, j3, n - 1) {
                        None => None,
                        Some((mut ts, j4)) => {
                            let ghost tail_view = timing_view(ts);
                            let t = Timing { fastest_ms: f, most_recent_ms: m };
                            ts.insert(0, (k, t));
                            proof {
                                assert(timing_view(ts) =~= seq![(k@, t)] + tail_view);
                            }
                            Some((ts, j4))
                        },
                    },
                },
            },
        }
    }
}

/// Read the header line.
fn p_header(s: &Vec<u8>) -> (r: Option<usize>)
    ensures
        match r {
            Some(j) => sp_header(s@, 0) == Some(j as int) && j <= s.len(),
            None => sp_header(s@, 0) is None,
        },
{
    if s.len() < 11 {
        proof {
            assert(header().len() == 11);
        }
        return None;
    }
    let mut h: Vec<u8> = Vec::new();
    h.push(115);
    h.push(110);
    h.push(97);
    h.push(112);
    h.push(115);
    h.push(116);
    h.push(111);
    h.push(114);
    h.push(101);
    h.push(49);
    h.push(NL);
    proof {
        assert(h@ =~= header());
        assert(header().len() == 11);
    }
    let pre = copy_range(s, 0, 11);
    if bytes_eq(&pre, &h) {
        Some(11)
    } else {
        None
    }
}

/// Whether a results list holds no duplicate entry.
fn check_distinct(l: &Vec<Vec<u8>>) -> (r: bool)
    ensures
        r == crate::store::distinct(view_list(*l)),
{
    let ghost v = view_list(*l);
    let mut i: usize = 0;
    while i < l.len()
        invariant
            i <= l.len(),
            v == view_list(*l),
            forall|x: int, y: int| 0 <= x < y < l.len() && x < i ==> v[x] != v[y],
        decreases l.len() - i,
    {
        let mut j: usize = i + 1;
        while j < l.len()
            invariant
                i < j <= l.len(),
                i < l.len(),
                v == view_list(*l),
                forall|y: int| i < y < j ==> v[i as int] != v[y],
            decreases l.len() - j,
        {
            if bytes_eq(&l[i], &l[j]) {
                proof {
                    assert(v[i as int] == v[j as int]);
                }
                return false;
            }
            j += 1;
        }
        i += 1;
    }
    true
}

/// Whether the keys of the results map are all distinct.
fn check_uniq_res(rs: &Vec<(Vec<u8>, Vec<Vec<u8>>)>) -> (r: bool)
    ensures
        r == crate::store::uniq_keys(results_view(*rs)),
{
    let ghost v = results_view(*rs);
    let mut i: usize = 0;
    while i < rs.len()
        invariant
            i <= rs.len(),
            v == results_view(*rs),
            forall|x: int, y: int| 0 <= x < y < rs.len() && x < i ==> v[x].0 != v[y].0,
        decreases rs.len() - i,
    {
        let mut j: usize = i + 1;
        while j < rs.len()
            invariant
                i < j <= rs.len(),
                i < rs.len(),
                v == results_view(*rs),
                forall|y: int| i < y < j ==> v[i as int].0 != v[y].0,
            decreases rs.len() - j,
        {
            if bytes_eq(&rs[i].0, &rs[j].0) {
                proof {
                    assert(v[i as int].0 == v[j as int].0);
                }
                return false;
            }
            j += 1;
        }
        i += 1;
    }
    true
}

/// Whether the keys of the timing map are all distinct.
fn check_uniq_tim(ts: &Vec<(Vec<u8>, Timing)>) -> (r: bool)
    ensures
        r == crate::store::uniq_keys(timing_view(*ts)),
{
    let ghost v = timing_view(*ts);
    let mut i: usize = 0;
    while i < ts.len()
        invariant
            i <= ts.len(),
            v == timing_view(*ts),
            forall|x: int, y: int| 0 <= x < y < ts.len() && x < i ==> v[x].0 != v[y].0,
        decreases ts.len() - i,
    {
        let mut j: usize = i + 1;
        while j < ts.len()
            invariant
                i < j <= ts.len(),
                i < ts.len(),
                v == timing_view(*ts),
                forall|y: int| i < y < j ==> v[i as int].0 != v[y].0,
            decreases ts.len() - j,
        {
            if bytes_eq(&ts[i].0, &ts[j].0) {
                proof {
                    assert(v[i as int].0 == v[j as int].0);
                }
                return false;
            }
            j += 1;
        }
        i += 1;
    }
    true
}

/// Whether a store obeys the store invariant.
fn check_store_wf(st: &Store) -> (r: bool)
    ensures
        r == st.wf(),
{
    if !check_uniq_res(&st.results) {
        return false;
    }
    if !check_uniq_tim(&st.timing) {
        return false;
    }
    let ghost v = results_view(st.results);
    let mut i: usize = 0;
    while i < st.results.len()
        invariant
            i <= st.results.len(),
            v == results_view(st.results),
            crate::store::uniq_keys(v),
            crate::store::uniq_keys(timing_view(st.timing)),
            forall|j: int| 0 <= j < i ==> crate::store::distinct(#[trigger] v[j].1),
        decreases st.results.len() - i,
    {
        if !check_distinct(&st.results[i].1) {
            proof {
                assert(v[i as int].1 == view_list(st.results@[i as int].1));
            }
            return false;
        }
        i += 1;
    }
    true
}

/// Parse a store document.  Answers the store exactly when the bytes
/// are a well-formed document of a store that obeys the store
/// invariant; anything else — truncated, foreign, or corrupted input —
/// is refused.
pub fn parse_store(s: &Vec<u8>) -> (r: Option<Store>)
    ensures
        match (r, sp_store(s@)) {
            (Some(st), Some(v)) => st@ == v && st.wf(),
            (None, Some(v)) => !v.wf(),
            (None, None) => true,
            (Some(st), None) => false,
        },
{
    let i0 = match p_header(s) {
        Some(j) => j,
        None => {
            return None;
        },
    };
    let (command, i1) = match p_bytes(s, i0) {
        Some(v) => v,
        None => {
            return None;
        },
    };
    let (directory, i2) = match p_opt_bytes(s, i1) {
        Some(v) => v,
        None => {
            return None;
        },
    };
    let (files, i3) = match p_bytes(s, i2) {
        Some(v) => v,
        None => {
            return None;
        },
    };
    let (stdout_mode, i4) = match p_mode(s, i3) {
        Some(v) => v,
        None => {
            return None;
        },
    };
    let (stderr_mode, i5) = match p_mode(s, i4) {
        Some(v) => v,
        None => {
            return None;
        },
    };
    let (env, i6) = match p_list(s, i5) {
        Some(v) => v,
        None => {
            return None;
        },
    };
    let (preserve_env, i7) = match p_bool(s, i6) {
        Some(v) => v,
        None => {
            return None;
        },
    };
    let (timeout_secs, i8) = match p_line_u64(s, i7) {
        Some(v) => v,
        None => {
            return None;
        },
    };
    let (rn, i9) = match p_line_u64(s, i8) {
        Some(v) => v,
        None => {
            return None;
        },
    };
    let (results, i10) = match p_res_entries(s, i9, rn) {
        Some(v) => v,
        None => {
            return None;
        },
    };
    let (tn, i11) = match p_line_u64(s, i10) {
        Some(v) => v,
        None => {
            return None;
        },
    };
    let (timing, i12) = match p_tim_entries(s, i11, tn) {
        Some(v) => v,
        None => {
            return None;
        },
    };
    if i12 != s.len() {
        return None;
    }
    let st = Store {
        metadata: Metadata { command, directory, files },
        options: Options { stdout_mode, stderr_mode, env, preserve_env, timeout_secs },
        results,
        timing,
    };
    if check_store_wf(&st) {
        Some(st)
    } else {
        None
    }
}

} // verus!
