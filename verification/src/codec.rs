//! The persisted store format and its codec.
//!
//! The store is written as a plain line-oriented text document: a
//! header line, then each field in a fixed order.  A byte string is
//! written as its decimal length, a colon, the raw bytes, and a
//! newline, so arbitrary output (quotes, newlines, binary) needs no
//! escaping and still diffs line by line; lists and maps are written
//! as a decimal count followed by their elements.  The parser accepts
//! exactly what the serializer emits and answers `None` for anything
//! else, so a truncated or foreign file fails loudly instead of
//! reading as empty.  Serializing and then parsing any store value
//! gives that value back; the proof stands beside the codec.

use vstd::prelude::*;

use crate::modes::MetadataV;
use crate::modes::OptionsV;
use crate::modes::StreamMode;
use crate::store::StoreV;
use crate::store::Timing;

verus! {

/// The newline that ends every line of the document.
pub const NL: u8 = 10;

/// The colon between a byte string's length and its payload.
pub const COLON: u8 = 58;

/// The tag of an absent optional byte string (`-`).
pub const TAG_ABSENT: u8 = 45;

/// The tag of a present optional byte string (`+`).
pub const TAG_PRESENT: u8 = 43;

/// The tag of `StreamMode::Off` (`n`).
pub const TAG_OFF: u8 = 110;

/// The tag of `StreamMode::Save` (`s`).
pub const TAG_SAVE: u8 = 115;

/// The tag of `StreamMode::Print` (`p`).
pub const TAG_PRINT: u8 = 112;

/// The tag of `StreamMode::Both` (`b`).
pub const TAG_BOTH: u8 = 98;

/// The tag of `true` (`t`).
pub const TAG_TRUE: u8 = 116;

/// The tag of `false` (`f`).
pub const TAG_FALSE: u8 = 102;

/// Whether a byte is a decimal digit.
pub open spec fn is_digit(b: u8) -> bool {
    48 <= b <= 57
}

/// The decimal digits of `n`, most significant first.
pub open spec fn dec(n: nat) -> Seq<u8>
    decreases n,
{
    if n < 10 {
        seq![(48 + n) as u8]
    } else {
        dec(n / 10).push((48 + n % 10) as u8)
    }
}

/// The header line that opens every store document.
pub open spec fn header() -> Seq<u8> {
    seq![115u8, 110u8, 97u8, 112u8, 115u8, 116u8, 111u8, 114u8, 101u8, 49u8, NL]
}

/// A number on a line of its own.
pub open spec fn ser_u64(n: u64) -> Seq<u8> {
    dec(n as nat).push(NL)
}

/// A byte string: its length, a colon, the raw bytes, a newline.
pub open spec fn ser_bytes(b: Seq<u8>) -> Seq<u8> {
    dec(b.len()) + seq![COLON] + b + seq![NL]
}

/// An optional byte string: a bare `-` line, or `+` and the string.
pub open spec fn ser_opt_bytes(ob: Option<Seq<u8>>) -> Seq<u8> {
    match ob {
        None => seq![TAG_ABSENT, NL],
        Some(b) => seq![TAG_PRESENT] + ser_bytes(b),
    }
}

/// The one-byte tag of a stream mode.
pub open spec fn mode_byte(m: StreamMode) -> u8 {
    match m {
        StreamMode::Off => TAG_OFF,
        StreamMode::Save => TAG_SAVE,
        StreamMode::Print => TAG_PRINT,
        StreamMode::Both => TAG_BOTH,
    }
}

/// A stream mode on a line of its own.
pub open spec fn ser_mode(m: StreamMode) -> Seq<u8> {
    seq![mode_byte(m), NL]
}

/// A boolean on a line of its own.
pub open spec fn ser_bool(v: bool) -> Seq<u8> {
    seq![
        if v {
            TAG_TRUE
        } else {
            TAG_FALSE
        },
        NL,
    ]
}

/// The elements of a list of byte strings, one after the other.
pub open spec fn ser_bytes_seq(l: Seq<Seq<u8>>) -> Seq<u8>
    decreases l.len(),
{
    if l.len() == 0 {
        Seq::empty()
    } else {
        ser_bytes(l[0]) + ser_bytes_seq(l.drop_first())
    }
}

/// A counted list of byte strings.
pub open spec fn ser_list(l: Seq<Seq<u8>>) -> Seq<u8> {
    ser_u64(l.len() as u64) + ser_bytes_seq(l)
}

/// The entries of the results map, one after the other.
pub open spec fn ser_res_entries(rs: Seq<(Seq<u8>, Seq<Seq<u8>>)>) -> Seq<u8>
    decreases rs.len(),
{
    if rs.len() == 0 {
        Seq::empty()
    } else {
        ser_bytes(rs[0].0) + ser_list(rs[0].1) + ser_res_entries(rs.drop_first())
    }
}

/// The entries of the timing map, one after the other.
pub open spec fn ser_tim_entries(ts: Seq<(Seq<u8>, Timing)>) -> Seq<u8>
    decreases ts.len(),
{
    if ts.len() == 0 {
        Seq::empty()
    } else {
        ser_bytes(ts[0].0) + ser_u64(ts[0].1.fastest_ms) + ser_u64(ts[0].1.most_recent_ms)
            + ser_tim_entries(ts.drop_first())
    }
}

/// The whole document of a store value.
pub open spec fn ser_store(v: StoreV) -> Seq<u8> {
    header() + ser_bytes(v.metadata.command) + ser_opt_bytes(v.metadata.directory) + ser_bytes(
        v.metadata.files,
    ) + ser_mode(v.options.stdout_mode) + ser_mode(v.options.stderr_mode) + ser_list(v.options.env)
        + ser_bool(v.options.preserve_env) + ser_u64(v.options.timeout_secs) + ser_u64(
        v.results.len() as u64,
    ) + ser_res_entries(v.results) + ser_u64(v.timing.len() as u64) + ser_tim_entries(v.timing)
}

/// One expected byte.
pub open spec fn sp_byte(s: Seq<u8>, i: int, b: u8) -> Option<int> {
    if 0 <= i < s.len() && s[i] == b {
        Some(i + 1)
    } else {
        None
    }
}

/// Digits from position `i`, folded left onto `acc`; stops at the
/// first non-digit, fails on a value beyond `u64`.
pub open spec fn sp_digits(s: Seq<u8>, i: int, acc: u64) -> Option<(u64, int)>
    decreases s.len() - i,
{
    if i < 0 || i >= s.len() {
        Some((acc, i))
    } else if !is_digit(s[i]) {
        Some((acc, i))
    } else {
        let d = (s[i] - 48) as u64;
        if acc * 10 + d > u64::MAX {
            None
        } else {
            sp_digits(s, i + 1, (acc * 10 + d) as u64)
        }
    }
}

/// A number: at least one digit.
pub open spec fn sp_u64(s: Seq<u8>, i: int) -> Option<(u64, int)> {
    if 0 <= i < s.len() && is_digit(s[i]) {
        sp_digits(s, i, 0)
    } else {
        None
    }
}

/// A number on a line of its own.
pub open spec fn sp_line_u64(s: Seq<u8>, i: int) -> Option<(u64, int)> {
    match sp_u64(s, i) {
        None => None,
        Some((n, j)) => match sp_byte(s, j, NL) {
            None => None,
            Some(j2) => Some((n, j2)),
        },
    }
}

/// A byte string: length, colon, payload, newline.
pub open spec fn sp_bytes(s: Seq<u8>, i: int) -> Option<(Seq<u8>, int)> {
    match sp_u64(s, i) {
        None => None,
        Some((n, j)) => match sp_byte(s, j, COLON) {
            None => None,
            Some(j2) => if j2 + n <= s.len() {
                match sp_byte(s, j2 + n, NL) {
                    None => None,
                    Some(j3) => Some((s.subrange(j2, j2 + n), j3)),
                }
            } else {
                None
            },
        },
    }
}

/// An optional byte string.
pub open spec fn sp_opt_bytes(s: Seq<u8>, i: int) -> Option<(Option<Seq<u8>>, int)> {
    match sp_byte(s, i, TAG_ABSENT) {
        Some(j) => match sp_byte(s, j, NL) {
            None => None,
            Some(j2) => Some((None, j2)),
        },
        None => match sp_byte(s, i, TAG_PRESENT) {
            None => None,
            Some(j) => match sp_bytes(s, j) {
                None => None,
                Some((b, j2)) => Some((Some(b), j2)),
            },
        },
    }
}

/// A stream mode tag on a line of its own.
pub open spec fn sp_mode(s: Seq<u8>, i: int) -> Option<(StreamMode, int)> {
    if 0 <= i && i + 2 <= s.len() && s[i + 1] == NL {
        if s[i] == TAG_OFF {
            Some((StreamMode::Off, i + 2))
        } else if s[i] == TAG_SAVE {
            Some((StreamMode::Save, i + 2))
        } else if s[i] == TAG_PRINT {
            Some((StreamMode::Print, i + 2))
        } else if s[i] == TAG_BOTH {
            Some((StreamMode::Both, i + 2))
        } else {
            None
        }
    } else {
        None
    }
}

/// A boolean tag on a line of its own.
pub open spec fn sp_bool(s: Seq<u8>, i: int) -> Option<(bool, int)> {
    if 0 <= i && i + 2 <= s.len() && s[i + 1] == NL {
        if s[i] == TAG_TRUE {
            Some((true, i + 2))
        } else if s[i] == TAG_FALSE {
            Some((false, i + 2))
        } else {
            None
        }
    } else {
        None
    }
}

/// Exactly `n` byte strings, one after the other.
pub open spec fn sp_bytes_seq(s: Seq<u8>, i: int, n: nat) -> Option<(Seq<Seq<u8>>, int)>
    decreases n,
{
    if n == 0 {
        Some((Seq::empty(), i))
    } else {
        match sp_bytes(s, i) {
            None => None,
            Some((b, j)) => match sp_bytes_seq(s, j, (n - 1) as nat) {
                None => None,
                Some((l, j2)) => Some((seq![b] + l, j2)),
            },
        }
    }
}

/// A counted list of byte strings.
pub open spec fn sp_list(s: Seq<u8>, i: int) -> Option<(Seq<Seq<u8>>, int)> {
    match sp_line_u64(s, i) {
        None => None,
        Some((n, j)) => sp_bytes_seq(s, j, n as nat),
    }
}

/// Exactly `n` results entries.
pub open spec fn sp_res_entries(s: Seq<u8>, i: int, n: nat) -> Option<(
    Seq<(Seq<u8>, Seq<Seq<u8>>)>,
    int,
)>
    decreases n,
{
    if n == 0 {
        Some((Seq::empty(), i))
    } else {
        match sp_bytes(s, i) {
            None => None,
            Some((k, j)) => match sp_list(s, j) {
                None => None,
                Some((l, j2)) => match sp_res_entries(s, j2, (n - 1) as nat) {
                    None => None,
                    Some((rs, j3)) => Some((seq![(k, l)] + rs, j3)),
                },
            },
        }
    }
}

/// Exactly `n` timing entries.
pub open spec fn sp_tim_entries(s: Seq<u8>, i: int, n: nat) -> Option<(
    Seq<(Seq<u8>, Timing)>,
    int,
)>
    decreases n,
{
    if n == 0 {
        Some((Seq::empty(), i))
    } else {
        match sp_bytes(s, i) {
            None => None,
            Some((k, j)) => match sp_line_u64(s, j) {
                None => None,
                Some((f, j2)) => match sp_line_u64(s, j2) {
                    None => None,
                    Some((m, j3)) => match sp_tim_entries(s, j3, (n - 1) as nat) {
                        None => None,
                        Some((ts, j4)) => Some(
                            (seq![(k, Timing { fastest_ms: f, most_recent_ms: m })] + ts, j4),
                        ),
                    },
                },
            },
        }
    }
}

/// The header line.
pub open spec fn sp_header(s: Seq<u8>, i: int) -> Option<int> {
    if 0 <= i && i + header().len() <= s.len() && s.subrange(i, i + header().len()) == header() {
        Some(i + header().len())
    } else {
        None
    }
}

/// The results and timing maps that close the document, which must end
/// exactly where the store does.
pub open spec fn sp_store_tail(s: Seq<u8>, i: int, metadata: MetadataV, options: OptionsV) -> Option<
    StoreV,
> {
    match sp_line_u64(s, i) {
        None => None,
        Some((rn, i9)) => match sp_res_entries(s, i9, rn as nat) {
            None => None,
            Some((results, i10)) => match sp_line_u64(s, i10) {
                None => None,
                Some((tn, i11)) => match sp_tim_entries(s, i11, tn as nat) {
                    None => None,
                    Some((timing, i12)) => if i12 == s.len() {
                        Some(StoreV { metadata, options, results, timing })
                    } else {
                        None
                    },
                },
            },
        },
    }
}

/// The whole document.
pub open spec fn sp_store(s: Seq<u8>) -> Option<StoreV> {
    match sp_header(s, 0) {
        None => None,
        Some(i0) => match sp_bytes(s, i0) {
            None => None,
            Some((command, i1)) => match sp_opt_bytes(s, i1) {
                None => None,
                Some((directory, i2)) => match sp_bytes(s, i2) {
                    None => None,
                    Some((files, i3)) => match sp_mode(s, i3) {
                        None => None,
                        Some((stdout_mode, i4)) => match sp_mode(s, i4) {
                            None => None,
                            Some((stderr_mode, i5)) => match sp_list(s, i5) {
                                None => None,
                                Some((env, i6)) => match sp_bool(s, i6) {
                                    None => None,
                                    Some((preserve_env, i7)) => match sp_line_u64(s, i7) {
                                        None => None,
                                        Some((timeout_secs, i8)) => sp_store_tail(
                                            s,
                                            i8,
                                            MetadataV { command, directory, files },
                                            OptionsV {
                                                stdout_mode,
                                                stderr_mode,
                                                env,
                                                preserve_env,
                                                timeout_secs,
                                            },
                                        ),
                                    },
                                },
                            },
                        },
                    },
                },
            },
        },
    }
}

/// Splitting "the rest of `s` reads `a` then `rest`" at the seam.
pub proof fn lemma_chop(s: Seq<u8>, i: int, a: Seq<u8>, rest: Seq<u8>)
    requires
        0 <= i <= s.len(),
        s.subrange(i, s.len() as int) == a + rest,
    ensures
        i + a.len() + rest.len() == s.len(),
        s.subrange(i, i + a.len()) == a,
        s.subrange(i + a.len(), s.len() as int) == rest,
        forall|j: int| 0 <= j < a.len() ==> s[i + j] == #[trigger] a[j],
        forall|j: int| 0 <= j < rest.len() ==> s[i + a.len() + j] == #[trigger] rest[j],
{
    let whole = s.subrange(i, s.len() as int);
    assert(whole.len() == s.len() - i);
    assert(whole.len() == a.len() + rest.len());
    assert forall|j: int| 0 <= j < a.len() implies s[i + j] == #[trigger] a[j] by {
        assert(whole[j] == s[i + j]);
    }
    assert forall|j: int| 0 <= j < rest.len() implies s[i + a.len() + j] == #[trigger] rest[j] by {
        assert(whole[a.len() + j] == s[i + a.len() + j]);
    }
    assert(s.subrange(i, i + a.len()) =~= a);
    assert(s.subrange(i + a.len(), s.len() as int) =~= rest);
}

/// The value of a digit string folded left onto `acc`.
pub open spec fn val_acc(d: Seq<u8>, acc: int) -> int
    decreases d.len(),
{
    if d.len() == 0 {
        acc
    } else {
        val_acc(d.drop_first(), acc * 10 + (d[0] - 48))
    }
}

/// Folding digits never shrinks a non-negative accumulator.
pub proof fn lemma_val_acc_lb(d: Seq<u8>, acc: int)
    requires
        acc >= 0,
        forall|j: int| 0 <= j < d.len() ==> is_digit(#[trigger] d[j]),
    ensures
        val_acc(d, acc) >= acc,
    decreases d.len(),
{
    if d.len() > 0 {
        assert(is_digit(d[0]));
        lemma_val_acc_lb(d.drop_first(), acc * 10 + (d[0] - 48));
        assert forall|j: int| 0 <= j < d.drop_first().len() implies is_digit(
            #[trigger] d.drop_first()[j],
        ) by {
            assert(d.drop_first()[j] == d[j + 1]);
        }
    }
}

/// Folding one more digit multiplies by ten and adds it.
pub proof fn lemma_val_acc_snoc(d: Seq<u8>, c: u8, acc: int)
    ensures
        val_acc(d.push(c), acc) == val_acc(d, acc) * 10 + (c - 48),
    decreases d.len(),
{
    if d.len() == 0 {
        assert(d.push(c)[0] == c);
        assert(d.push(c).drop_first() =~= Seq::<u8>::empty());
        assert(val_acc(d, acc) == acc);
        assert(val_acc(d.push(c), acc) == val_acc(
            d.push(c).drop_first(),
            acc * 10 + (d.push(c)[0] - 48),
        ));
        assert(val_acc(Seq::<u8>::empty(), acc * 10 + (c - 48)) == acc * 10 + (c - 48));
    } else {
        assert(d.push(c)[0] == d[0]);
        assert(d.push(c).drop_first() =~= d.drop_first().push(c));
        lemma_val_acc_snoc(d.drop_first(), c, acc * 10 + (d[0] - 48));
    }
}

/// The decimal digits of `n` are digits, start the number, and fold
/// back to `n`.
pub proof fn lemma_dec_props(n: nat)
    ensures
        dec(n).len() >= 1,
        forall|j: int| 0 <= j < dec(n).len() ==> is_digit(#[trigger] dec(n)[j]),
        val_acc(dec(n), 0) == n,
    decreases n,
{
    if n < 10 {
        let d = dec(n);
        assert(d[0] == (48 + n) as u8);
        assert(d.drop_first() =~= Seq::<u8>::empty());
        assert(val_acc(d, 0) == val_acc(d.drop_first(), 0 * 10 + (d[0] - 48)));
    } else {
        lemma_dec_props(n / 10);
        let c = (48 + n % 10) as u8;
        lemma_val_acc_snoc(dec(n / 10), c, 0);
        vstd::arithmetic::div_mod::lemma_fundamental_div_mod(n as int, 10);
        assert forall|j: int| 0 <= j < dec(n).len() implies is_digit(#[trigger] dec(n)[j]) by {
            if j < dec(n / 10).len() {
                assert(dec(n)[j] == dec(n / 10)[j]);
            } else {
                assert(dec(n)[j] == c);
            }
        }
    }
}

/// Reading digits laid down in `s` folds them back up exactly.
pub proof fn lemma_sp_digits_reads(s: Seq<u8>, i: int, d: Seq<u8>, acc: u64)
    requires
        0 <= i,
        i + d.len() <= s.len(),
        forall|j: int| 0 <= j < d.len() ==> is_digit(#[trigger] d[j]),
        forall|j: int| 0 <= j < d.len() ==> s[i + j] == #[trigger] d[j],
        i + d.len() == s.len() || !is_digit(s[i + d.len()]),
        val_acc(d, acc as int) <= u64::MAX,
    ensures
        sp_digits(s, i, acc) == Some((val_acc(d, acc as int) as u64, i + d.len())),
    decreases d.len(),
{
    if d.len() == 0 {
    } else {
        assert(d[0] == s[i + 0]);
        assert(is_digit(s[i]));
        let dd = (s[i] - 48) as u64;
        let t = d.drop_first();
        assert forall|j: int| 0 <= j < t.len() implies is_digit(#[trigger] t[j]) && s[i + 1 + j]
            == t[j] by {
            assert(t[j] == d[j + 1]);
            assert(s[i + (j + 1)] == d[j + 1]);
        }
        assert(val_acc(d, acc as int) == val_acc(t, acc * 10 + dd));
        lemma_val_acc_lb(t, acc * 10 + dd);
        assert(acc * 10 + dd <= u64::MAX);
        lemma_sp_digits_reads(s, i + 1, t, (acc * 10 + dd) as u64);
    }
}

/// A serialized number with a non-digit after it parses back to
/// itself.
pub proof fn lemma_rt_u64(s: Seq<u8>, i: int, n: u64, rest: Seq<u8>)
    requires
        0 <= i <= s.len(),
        s.subrange(i, s.len() as int) == dec(n as nat) + rest,
        rest.len() == 0 || !is_digit(rest[0]),
    ensures
        sp_u64(s, i) == Some((n, i + dec(n as nat).len())),
{
    let d = dec(n as nat);
    lemma_dec_props(n as nat);
    lemma_chop(s, i, d, rest);
    assert(d[0] == s[i + 0]);
    if rest.len() > 0 {
        assert(rest[0] == s[i + d.len() + 0]);
    }
    lemma_sp_digits_reads(s, i, d, 0);
}

/// A serialized number line parses back to itself.
pub proof fn lemma_rt_line_u64(s: Seq<u8>, i: int, n: u64, rest: Seq<u8>)
    requires
        0 <= i <= s.len(),
        s.subrange(i, s.len() as int) == ser_u64(n) + rest,
    ensures
        sp_line_u64(s, i) == Some((n, i + ser_u64(n).len())),
        s.subrange(i + ser_u64(n).len(), s.len() as int) == rest,
{
    let d = dec(n as nat);
    assert(ser_u64(n) + rest =~= d + (seq![NL] + rest));
    lemma_rt_u64(s, i, n, seq![NL] + rest);
    lemma_chop(s, i, d, seq![NL] + rest);
    assert((seq![NL] + rest)[0] == NL);
    assert(s[i + d.len() + 0] == (seq![NL] + rest)[0]);
    lemma_chop(s, i, ser_u64(n), rest);
}

/// A serialized byte string parses back to itself.
pub proof fn lemma_rt_bytes(s: Seq<u8>, i: int, b: Seq<u8>, rest: Seq<u8>)
    requires
        0 <= i <= s.len(),
        b.len() <= u64::MAX,
        s.subrange(i, s.len() as int) == ser_bytes(b) + rest,
    ensures
        sp_bytes(s, i) == Some((b, i + ser_bytes(b).len())),
        s.subrange(i + ser_bytes(b).len(), s.len() as int) == rest,
{
    let n = b.len() as u64;
    let d = dec(n as nat);
    let after = seq![COLON] + b + seq![NL] + rest;
    assert(ser_bytes(b) + rest =~= d + after);
    lemma_rt_u64(s, i, n, after);
    lemma_chop(s, i, d, after);
    let j = i + d.len();
    assert(after[0] == COLON);
    assert(s[i + d.len() + 0] == after[0]);
    assert(sp_byte(s, j, COLON) == Some(j + 1));
    let j2 = j + 1;
    assert(s.subrange(j, s.len() as int) =~= seq![COLON] + (b + (seq![NL] + rest)));
    lemma_chop(s, j, seq![COLON], b + (seq![NL] + rest));
    lemma_chop(s, j2, b, seq![NL] + rest);
    assert(j2 + n <= s.len());
    assert(s.subrange(j2, j2 + n) == b);
    assert((seq![NL] + rest)[0] == NL);
    assert(s[j2 + b.len() + 0] == (seq![NL] + rest)[0]);
    assert(sp_byte(s, j2 + n, NL) == Some(j2 + n + 1));
    assert(i + ser_bytes(b).len() == j2 + n + 1);
    lemma_chop(s, i, ser_bytes(b), rest);
}

/// A serialized optional byte string parses back to itself.
pub proof fn lemma_rt_opt_bytes(s: Seq<u8>, i: int, ob: Option<Seq<u8>>, rest: Seq<u8>)
    requires
        0 <= i <= s.len(),
        match ob {
            Some(b) => b.len() <= u64::MAX,
            None => true,
        },
        s.subrange(i, s.len() as int) == ser_opt_bytes(ob) + rest,
    ensures
        sp_opt_bytes(s, i) == Some((ob, i + ser_opt_bytes(ob).len())),
        s.subrange(i + ser_opt_bytes(ob).len(), s.len() as int) == rest,
{
    match ob {
        None => {
            lemma_chop(s, i, seq![TAG_ABSENT, NL], rest);
            assert((seq![TAG_ABSENT, NL])[0] == TAG_ABSENT);
            assert((seq![TAG_ABSENT, NL])[1] == NL);
            assert(s[i + 0] == TAG_ABSENT);
            assert(s[i + 1] == NL);
        },
        Some(b) => {
            assert(ser_opt_bytes(ob) + rest =~= seq![TAG_PRESENT] + (ser_bytes(b) + rest));
            lemma_chop(s, i, seq![TAG_PRESENT], ser_bytes(b) + rest);
            assert((seq![TAG_PRESENT])[0] == TAG_PRESENT);
            assert(s[i + 0] == TAG_PRESENT);
            lemma_rt_bytes(s, i + 1, b, rest);
        },
    }
    lemma_chop(s, i, ser_opt_bytes(ob), rest);
}

/// A serialized stream mode parses back to itself.
pub proof fn lemma_rt_mode(s: Seq<u8>, i: int, m: StreamMode, rest: Seq<u8>)
    requires
        0 <= i <= s.len(),
        s.subrange(i, s.len() as int) == ser_mode(m) + rest,
    ensures
        sp_mode(s, i) == Some((m, i + 2)),
        s.subrange(i + 2, s.len() as int) == rest,
{
    lemma_chop(s, i, ser_mode(m), rest);
    assert(ser_mode(m).len() == 2);
    assert(ser_mode(m)[0] == mode_byte(m));
    assert(ser_mode(m)[1] == NL);
    assert(s[i + 0] == mode_byte(m));
    assert(s[i + 1] == NL);
}

/// A serialized boolean parses back to itself.
pub proof fn lemma_rt_bool(s: Seq<u8>, i: int, v: bool, rest: Seq<u8>)
    requires
        0 <= i <= s.len(),
        s.subrange(i, s.len() as int) == ser_bool(v) + rest,
    ensures
        sp_bool(s, i) == Some((v, i + 2)),
        s.subrange(i + 2, s.len() as int) == rest,
{
    lemma_chop(s, i, ser_bool(v), rest);
    assert(ser_bool(v).len() == 2);
    assert(ser_bool(v)[1] == NL);
    assert(s[i + 0] == ser_bool(v)[0]);
    assert(s[i + 1] == NL);
}

/// Whether every byte string of a list fits the length field.
pub open spec fn list_bounded(l: Seq<Seq<u8>>) -> bool {
    l.len() <= u64::MAX && forall|j: int| 0 <= j < l.len() ==> (#[trigger] l[j]).len() <= u64::MAX
}

/// Serialized list elements parse back to themselves.
pub proof fn lemma_rt_bytes_seq(s: Seq<u8>, i: int, l: Seq<Seq<u8>>, rest: Seq<u8>)
    requires
        0 <= i <= s.len(),
        list_bounded(l),
        s.subrange(i, s.len() as int) == ser_bytes_seq(l) + rest,
    ensures
        sp_bytes_seq(s, i, l.len()) == Some((l, i + ser_bytes_seq(l).len())),
        s.subrange(i + ser_bytes_seq(l).len(), s.len() as int) == rest,
    decreases l.len(),
{
    if l.len() == 0 {
        assert(sp_bytes_seq(s, i, 0) == Some((Seq::<Seq<u8>>::empty(), i)));
        assert(l =~= Seq::<Seq<u8>>::empty());
    } else {
        let hd = l[0];
        let tl = l.drop_first();
        assert(ser_bytes_seq(l) + rest =~= ser_bytes(hd) + (ser_bytes_seq(tl) + rest));
        lemma_rt_bytes(s, i, hd, ser_bytes_seq(tl) + rest);
        lemma_chop(s, i, ser_bytes(hd), ser_bytes_seq(tl) + rest);
        let j = i + ser_bytes(hd).len();
        assert forall|j2: int| 0 <= j2 < tl.len() implies (#[trigger] tl[j2]).len()
            <= u64::MAX by {
            assert(tl[j2] == l[j2 + 1]);
        }
        lemma_rt_bytes_seq(s, j, tl, rest);
        assert(seq![hd] + tl =~= l);
        assert(i + ser_bytes_seq(l).len() == j + ser_bytes_seq(tl).len());
    }
}

/// A serialized counted list parses back to itself.
pub proof fn lemma_rt_list(s: Seq<u8>, i: int, l: Seq<Seq<u8>>, rest: Seq<u8>)
    requires
        0 <= i <= s.len(),
        list_bounded(l),
        s.subrange(i, s.len() as int) == ser_list(l) + rest,
    ensures
        sp_list(s, i) == Some((l, i + ser_list(l).len())),
        s.subrange(i + ser_list(l).len(), s.len() as int) == rest,
{
    let n = l.len() as u64;
    assert(ser_list(l) + rest =~= ser_u64(n) + (ser_bytes_seq(l) + rest));
    lemma_rt_line_u64(s, i, n, ser_bytes_seq(l) + rest);
    lemma_chop(s, i, ser_u64(n), ser_bytes_seq(l) + rest);
    lemma_rt_bytes_seq(s, i + ser_u64(n).len(), l, rest);
    lemma_chop(s, i, ser_list(l), rest);
}

/// Whether every key and list of the results map fits its length field.
pub open spec fn results_bounded(rs: Seq<(Seq<u8>, Seq<Seq<u8>>)>) -> bool {
    rs.len() <= u64::MAX && forall|j: int|
        0 <= j < rs.len() ==> (#[trigger] rs[j]).0.len() <= u64::MAX && list_bounded(rs[j].1)
}

/// Serialized results entries parse back to themselves.
pub proof fn lemma_rt_res_entries(
    s: Seq<u8>,
    i: int,
    rs: Seq<(Seq<u8>, Seq<Seq<u8>>)>,
    rest: Seq<u8>,
)
    requires
        0 <= i <= s.len(),
        results_bounded(rs),
        s.subrange(i, s.len() as int) == ser_res_entries(rs) + rest,
    ensures
        sp_res_entries(s, i, rs.len()) == Some((rs, i + ser_res_entries(rs).len())),
        s.subrange(i + ser_res_entries(rs).len(), s.len() as int) == rest,
    decreases rs.len(),
{
    if rs.len() == 0 {
        assert(rs =~= Seq::<(Seq<u8>, Seq<Seq<u8>>)>::empty());
    } else {
        let k = rs[0].0;
        let l = rs[0].1;
        let tl = rs.drop_first();
        assert(ser_res_entries(rs) + rest =~= ser_bytes(k) + (ser_list(l) + (ser_res_entries(tl)
            + rest)));
        lemma_rt_bytes(s, i, k, ser_list(l) + (ser_res_entries(tl) + rest));
        lemma_chop(s, i, ser_bytes(k), ser_list(l) + (ser_res_entries(tl) + rest));
        let j = i + ser_bytes(k).len();
        lemma_rt_list(s, j, l, ser_res_entries(tl) + rest);
        lemma_chop(s, j, ser_list(l), ser_res_entries(tl) + rest);
        let j2 = j + ser_list(l).len();
        assert forall|j3: int| 0 <= j3 < tl.len() implies (#[trigger] tl[j3]).0.len() <= u64::MAX
            && list_bounded(tl[j3].1) by {
            assert(tl[j3] == rs[j3 + 1]);
        }
        lemma_rt_res_entries(s, j2, tl, rest);
        assert(seq![(k, l)] + tl =~= rs);
        assert(i + ser_res_entries(rs).len() == j2 + ser_res_entries(tl).len());
    }
}

/// Whether every key of the timing map fits its length field.
pub open spec fn timing_bounded(ts: Seq<(Seq<u8>, Timing)>) -> bool {
    ts.len() <= u64::MAX && forall|j: int| 0 <= j < ts.len() ==> (#[trigger] ts[j]).0.len()
        <= u64::MAX
}

/// Serialized timing entries parse back to themselves.
pub proof fn lemma_rt_tim_entries(s: Seq<u8>, i: int, ts: Seq<(Seq<u8>, Timing)>, rest: Seq<u8>)
    requires
        0 <= i <= s.len(),
        timing_bounded(ts),
        s.subrange(i, s.len() as int) == ser_tim_entries(ts) + rest,
    ensures
        sp_tim_entries(s, i, ts.len()) == Some((ts, i + ser_tim_entries(ts).len())),
        s.subrange(i + ser_tim_entries(ts).len(), s.len() as int) == rest,
    decreases ts.len(),
{
    if ts.len() == 0 {
        assert(ts =~= Seq::<(Seq<u8>, Timing)>::empty());
    } else {
        let k = ts[0].0;
        let f = ts[0].1.fastest_ms;
        let m = ts[0].1.most_recent_ms;
        let tl = ts.drop_first();
        assert(ser_tim_entries(ts) + rest =~= ser_bytes(k) + (ser_u64(f) + (ser_u64(m) + (
        ser_tim_entries(tl) + rest))));
        lemma_rt_bytes(s, i, k, ser_u64(f) + (ser_u64(m) + (ser_tim_entries(tl) + rest)));
        lemma_chop(s, i, ser_bytes(k), ser_u64(f) + (ser_u64(m) + (ser_tim_entries(tl) + rest)));
        let j = i + ser_bytes(k).len();
        lemma_rt_line_u64(s, j, f, ser_u64(m) + (ser_tim_entries(tl) + rest));
        lemma_chop(s, j, ser_u64(f), ser_u64(m) + (ser_tim_entries(tl) + rest));
        let j2 = j + ser_u64(f).len();
        lemma_rt_line_u64(s, j2, m, ser_tim_entries(tl) + rest);
        lemma_chop(s, j2, ser_u64(m), ser_tim_entries(tl) + rest);
        let j3 = j2 + ser_u64(m).len();
        assert forall|j4: int| 0 <= j4 < tl.len() implies (#[trigger] tl[j4]).0.len()
            <= u64::MAX by {
            assert(tl[j4] == ts[j4 + 1]);
        }
        lemma_rt_tim_entries(s, j3, tl, rest);
        assert(ts[0].1 == (Timing { fastest_ms: f, most_recent_ms: m }));
        assert(seq![(k, Timing { fastest_ms: f, most_recent_ms: m })] + tl =~= ts);
        assert(i + ser_tim_entries(ts).len() == j3 + ser_tim_entries(tl).len());
    }
}

/// Whether every variable-length piece of a store value fits its
/// length field.  Every store held in memory satisfies this: each
/// piece lives in a vector, whose length is machine-bounded.
pub open spec fn store_bounded(v: StoreV) -> bool {
    &&& v.metadata.command.len() <= u64::MAX
    &&& match v.metadata.directory {
        Some(d) => d.len() <= u64::MAX,
        None => true,
    }
    &&& v.metadata.files.len() <= u64::MAX
    &&& list_bounded(v.options.env)
    &&& results_bounded(v.results)
    &&& timing_bounded(v.timing)
}

/// The closing maps of a serialized store parse back to themselves.
pub proof fn lemma_rt_store_tail(
    s: Seq<u8>,
    i: int,
    metadata: MetadataV,
    options: OptionsV,
    rs: Seq<(Seq<u8>, Seq<Seq<u8>>)>,
    ts: Seq<(Seq<u8>, Timing)>,
)
    requires
        0 <= i <= s.len(),
        results_bounded(rs),
        timing_bounded(ts),
        s.subrange(i, s.len() as int) == ser_u64(rs.len() as u64) + (ser_res_entries(rs) + (
        ser_u64(ts.len() as u64) + ser_tim_entries(ts))),
    ensures
        sp_store_tail(s, i, metadata, options) == Some(
            StoreV { metadata, options, results: rs, timing: ts },
        ),
{
    let t10 = ser_res_entries(rs) + (ser_u64(ts.len() as u64) + ser_tim_entries(ts));
    lemma_rt_line_u64(s, i, rs.len() as u64, t10);
    let i9 = i + ser_u64(rs.len() as u64).len();
    let t11 = ser_u64(ts.len() as u64) + ser_tim_entries(ts);
    lemma_rt_res_entries(s, i9, rs, t11);
    let i10 = i9 + ser_res_entries(rs).len();
    lemma_rt_line_u64(s, i10, ts.len() as u64, ser_tim_entries(ts));
    let i11 = i10 + ser_u64(ts.len() as u64).len();
    lemma_rt_tim_entries(s, i11, ts, Seq::empty());
    assert(s.subrange(i11 + ser_tim_entries(ts).len(), s.len() as int) == Seq::<u8>::empty());
    assert(s.subrange(i11 + ser_tim_entries(ts).len(), s.len() as int).len() == 0);
    assert(i11 + ser_tim_entries(ts).len() == s.len());
}

/// Where the command, directory, files and stdout-mode fields end in
/// the serialized document.
pub open spec fn pos_cmd(v: StoreV) -> int {
    header().len() + ser_bytes(v.metadata.command).len() as int
}

/// Where the directory field ends.
pub open spec fn pos_dir(v: StoreV) -> int {
    pos_cmd(v) + ser_opt_bytes(v.metadata.directory).len() as int
}

/// Where the files field ends.
pub open spec fn pos_files(v: StoreV) -> int {
    pos_dir(v) + ser_bytes(v.metadata.files).len() as int
}

/// Where the stdout-mode field ends.
pub open spec fn pos_so(v: StoreV) -> int {
    pos_files(v) + 2
}

/// The serialized document from the stderr-mode field on.
pub open spec fn tail_so(v: StoreV) -> Seq<u8> {
    ser_mode(v.options.stderr_mode) + (ser_list(v.options.env) + (ser_bool(v.options.preserve_env)
        + (ser_u64(v.options.timeout_secs) + (ser_u64(v.results.len() as u64) + (ser_res_entries(
        v.results,
    ) + (ser_u64(v.timing.len() as u64) + ser_tim_entries(v.timing)))))))
}

/// The serialized document regrouped from the front: each field
/// followed by all the rest.
pub open spec fn ser_store_nested(v: StoreV) -> Seq<u8> {
    header() + (ser_bytes(v.metadata.command) + (ser_opt_bytes(v.metadata.directory) + (ser_bytes(
        v.metadata.files,
    ) + (ser_mode(v.options.stdout_mode) + tail_so(v)))))
}

/// Concatenation regrouped to the right reads the same document.
pub proof fn lemma_ser_store_regroup(v: StoreV)
    ensures
        ser_store(v) == ser_store_nested(v),
{
    let a1 = header();
    let a2 = ser_bytes(v.metadata.command);
    let a3 = ser_opt_bytes(v.metadata.directory);
    let a4 = ser_bytes(v.metadata.files);
    let a5 = ser_mode(v.options.stdout_mode);
    let a6 = ser_mode(v.options.stderr_mode);
    let a7 = ser_list(v.options.env);
    let a8 = ser_bool(v.options.preserve_env);
    let a9 = ser_u64(v.options.timeout_secs);
    let a10 = ser_u64(v.results.len() as u64);
    let a11 = ser_res_entries(v.results);
    let a12 = ser_u64(v.timing.len() as u64);
    let a13 = ser_tim_entries(v.timing);
    let l2 = a1 + a2;
    let l3 = l2 + a3;
    let l4 = l3 + a4;
    let l5 = l4 + a5;
    let l6 = l5 + a6;
    let l7 = l6 + a7;
    let l8 = l7 + a8;
    let l9 = l8 + a9;
    let l10 = l9 + a10;
    let l11 = l10 + a11;
    let l12 = l11 + a12;
    assert(ser_store(v) == l12 + a13);
    let t12 = a13;
    let t11 = a12 + t12;
    let t10 = a11 + t11;
    let t9 = a10 + t10;
    let t8 = a9 + t9;
    let t7 = a8 + t8;
    let t6 = a7 + t7;
    let t5 = a6 + t6;
    let t4 = a5 + t5;
    let t3 = a4 + t4;
    let t2 = a3 + t3;
    vstd::seq_lib::lemma_concat_associative(l11, a12, a13);
    vstd::seq_lib::lemma_concat_associative(l10, a11, t11);
    vstd::seq_lib::lemma_concat_associative(l9, a10, t10);
    vstd::seq_lib::lemma_concat_associative(l8, a9, t9);
    vstd::seq_lib::lemma_concat_associative(l7, a8, t8);
    vstd::seq_lib::lemma_concat_associative(l6, a7, t7);
    vstd::seq_lib::lemma_concat_associative(l5, a6, t6);
    vstd::seq_lib::lemma_concat_associative(l4, a5, t5);
    vstd::seq_lib::lemma_concat_associative(l3, a4, t4);
    vstd::seq_lib::lemma_concat_associative(l2, a3, t3);
    vstd::seq_lib::lemma_concat_associative(a1, a2, t2);
    assert(t5 == tail_so(v));
}

/// The identity fields of a serialized store parse back to themselves,
/// leaving the document at the stderr-mode field.
#[verifier::rlimit(100)]
#[verifier::spinoff_prover]
pub proof fn lemma_rt_store_head(v: StoreV)
    requires
        store_bounded(v),
    ensures
        sp_header(ser_store(v), 0) == Some(header().len() as int),
        sp_bytes(ser_store(v), header().len() as int) == Some((v.metadata.command, pos_cmd(v))),
        sp_opt_bytes(ser_store(v), pos_cmd(v)) == Some((v.metadata.directory, pos_dir(v))),
        sp_bytes(ser_store(v), pos_dir(v)) == Some((v.metadata.files, pos_files(v))),
        sp_mode(ser_store(v), pos_files(v)) == Some((v.options.stdout_mode, pos_so(v))),
        0 <= pos_so(v) <= ser_store(v).len(),
        ser_store(v).subrange(pos_so(v), ser_store(v).len() as int) == tail_so(v),
{
    let s = ser_store(v);
    lemma_ser_store_regroup(v);
    let a1 = header();
    let a2 = ser_bytes(v.metadata.command);
    let a3 = ser_opt_bytes(v.metadata.directory);
    let a4 = ser_bytes(v.metadata.files);
    let a5 = ser_mode(v.options.stdout_mode);
    let t5 = tail_so(v);
    let t4 = a5 + t5;
    let t3 = a4 + t4;
    let t2 = a3 + t3;
    let t1 = a2 + t2;
    assert(s == a1 + t1);
    assert(s.subrange(0, s.len() as int) =~= s);
    lemma_chop(s, 0, a1, t1);
    assert(sp_header(s, 0) == Some(header().len() as int));
    let i0 = header().len() as int;
    lemma_rt_bytes(s, i0, v.metadata.command, t2);
    lemma_rt_opt_bytes(s, pos_cmd(v), v.metadata.directory, t3);
    lemma_rt_bytes(s, pos_dir(v), v.metadata.files, t4);
    lemma_rt_mode(s, pos_files(v), v.options.stdout_mode, t5);
}

/// Round trip: serializing a store value and parsing the document
/// gives exactly that value back.
#[verifier::rlimit(100)]
#[verifier::spinoff_prover]
pub proof fn lemma_rt_store(v: StoreV)
    requires
        store_bounded(v),
    ensures
        sp_store(ser_store(v)) == Some(v),
{
    let s = ser_store(v);
    lemma_rt_store_head(v);
    let a6 = ser_mode(v.options.stderr_mode);
    let a7 = ser_list(v.options.env);
    let a8 = ser_bool(v.options.preserve_env);
    let a9 = ser_u64(v.options.timeout_secs);
    let tail = ser_u64(v.results.len() as u64) + (ser_res_entries(v.results) + (ser_u64(
        v.timing.len() as u64,
    ) + ser_tim_entries(v.timing)));
    let t6 = a7 + (a8 + (a9 + tail));
    let t7 = a8 + (a9 + tail);
    let t8 = a9 + tail;
    assert(tail_so(v) == a6 + t6);
    let i4 = pos_so(v);
    lemma_rt_mode(s, i4, v.options.stderr_mode, t6);
    let i5 = i4 + 2;
    lemma_rt_list(s, i5, v.options.env, t7);
    let i6 = i5 + a7.len();
    lemma_rt_bool(s, i6, v.options.preserve_env, t8);
    let i7 = i6 + 2;
    lemma_rt_line_u64(s, i7, v.options.timeout_secs, tail);
    let i8 = i7 + a9.len();
    lemma_rt_store_tail(s, i8, v.metadata, v.options, v.results, v.timing);
    assert(v == (StoreV {
        metadata: v.metadata,
        options: v.options,
        results: v.results,
        timing: v.timing,
    }));
    assert(v.metadata == (MetadataV {
        command: v.metadata.command,
        directory: v.metadata.directory,
        files: v.metadata.files,
    }));
    assert(v.options == (OptionsV {
        stdout_mode: v.options.stdout_mode,
        stderr_mode: v.options.stderr_mode,
        env: v.options.env,
        preserve_env: v.options.preserve_env,
        timeout_secs: v.options.timeout_secs,
    }));
}

} // verus!
