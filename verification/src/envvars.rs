//! Environment entries: `KEY=VALUE` strings split at their one equals
//! sign.  An entry with no equals sign or more than one is malformed
//! and rejected before any job runs.

use vstd::prelude::*;

use crate::bytes::view_list;

verus! {

/// The equals sign.
pub const EQ: u8 = 61;

/// How many equals signs the entry holds.
pub open spec fn eq_count(s: Seq<u8>) -> nat
    decreases s.len(),
{
    if s.len() == 0 {
        0
    } else {
        (if s[0] == EQ {
            1nat
        } else {
            0nat
        }) + eq_count(s.drop_first())
    }
}

/// Counting distributes over concatenation.
pub proof fn lemma_eq_count_append(a: Seq<u8>, b: Seq<u8>)
    ensures
        eq_count(a + b) == eq_count(a) + eq_count(b),
    decreases a.len(),
{
    if a.len() == 0 {
        assert(a + b =~= b);
    } else {
        assert((a + b)[0] == a[0]);
        assert((a + b).drop_first() =~= a.drop_first() + b);
        lemma_eq_count_append(a.drop_first(), b);
    }
}

/// Split a `KEY=VALUE` entry at its equals sign.  The split is
/// returned exactly when the entry holds one equals sign; key and
/// value hold none.
pub fn split_env_entry(entry: &Vec<u8>) -> (r: Option<(Vec<u8>, Vec<u8>)>)
    ensures
        match r {
            Some((k, v)) => eq_count(entry@) == 1 && entry@ == k@ + seq![EQ] + v@ && eq_count(k@)
                == 0 && eq_count(v@) == 0,
            None => eq_count(entry@) != 1,
        },
{
    let ghost s = entry@;
    let mut pos: usize = 0;
    let mut count: usize = 0;
    let mut i: usize = 0;
    while i < entry.len()
        invariant
            i <= entry.len(),
            s == entry@,
            count == eq_count(s.take(i as int)),
            count <= i,
            count >= 1 ==> pos < i && s[pos as int] == EQ && eq_count(s.take(pos as int)) == 0,
        decreases entry.len() - i,
    {
        proof {
            assert(s.take(i as int + 1) =~= s.take(i as int) + seq![s[i as int]]);
            lemma_eq_count_append(s.take(i as int), seq![s[i as int]]);
            assert(eq_count(seq![s[i as int]]) == (if s[i as int] == EQ {
                1nat
            } else {
                0nat
            })) by {
                assert(seq![s[i as int]][0] == s[i as int]);
                assert(seq![s[i as int]].drop_first() =~= Seq::<u8>::empty());
                assert(eq_count(Seq::<u8>::empty()) == 0);
            }
        }
        if entry[i] == EQ {
            if count == 0 {
                pos = i;
            }
            count += 1;
        }
        i += 1;
    }
    proof {
        assert(s.take(entry.len() as int) =~= s);
    }
    if count != 1 {
        return None;
    }
    let k = crate::bytes::copy_bytes_range(entry, 0, pos);
    let v = crate::bytes::copy_bytes_range(entry, pos + 1, entry.len());
    proof {
        assert(s =~= k@ + seq![EQ] + v@);
        lemma_eq_count_append(k@ + seq![EQ], v@);
        lemma_eq_count_append(k@, seq![EQ]);
        assert(eq_count(seq![EQ]) == 1) by {
            assert(seq![EQ][0] == EQ);
            assert(seq![EQ].drop_first() =~= Seq::<u8>::empty());
            assert(eq_count(Seq::<u8>::empty()) == 0);
        }
        assert(k@ == s.take(pos as int));
    }
    Some((k, v))
}

/// One split entry beside what it was split from.
pub open spec fn split_matches(e: Seq<u8>, kv: (Vec<u8>, Vec<u8>)) -> bool {
    eq_count(e) == 1 && e == kv.0@ + seq![EQ] + kv.1@
}

/// Split every entry of an environment list, or name the first
/// malformed one.  The result pairs up with the entries index by
/// index.
pub fn resolve_env(entries: &Vec<Vec<u8>>) -> (r: Option<Vec<(Vec<u8>, Vec<u8>)>>)
    ensures
        match r {
            Some(l) => l@.len() == entries@.len() && forall|i: int|
                0 <= i < l@.len() ==> split_matches(view_list(*entries)[i], #[trigger] l@[i]),
            None => exists|i: int|
                0 <= i < entries@.len() && eq_count(#[trigger] view_list(*entries)[i]) != 1,
        },
{
    let mut out: Vec<(Vec<u8>, Vec<u8>)> = Vec::new();
    let mut i: usize = 0;
    while i < entries.len()
        invariant
            i <= entries.len(),
            out@.len() == i,
            forall|j: int|
                0 <= j < i ==> split_matches(view_list(*entries)[j], #[trigger] out@[j]),
        decreases entries.len() - i,
    {
        match split_env_entry(&entries[i]) {
            Some(kv) => {
                let ghost out_pre = out@;
                out.push(kv);
                proof {
                    assert(out@ == out_pre.push(kv));
                    assert forall|j: int|
                        0 <= j < i + 1 implies split_matches(
                        view_list(*entries)[j],
                        #[trigger] out@[j],
                    ) by {
                        if j < i {
                            assert(out@[j] == out_pre[j]);
                        } else {
                            assert(out@[j] == kv);
                            assert(view_list(*entries)[j] == entries@[j]@);
                        }
                    }
                }
            },
            None => {
                proof {
                    assert(eq_count(view_list(*entries)[i as int]) != 1);
                }
                return None;
            },
        }
        i += 1;
    }
    Some(out)
}

} // verus!
