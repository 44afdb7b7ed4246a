//! Small verified helpers on byte strings and lists of byte strings.
//!
//! The library represents every piece of text it handles (commands,
//! captured output, file keys, environment entries) as a `Vec<u8>`, so
//! these helpers are used throughout.

use vstd::prelude::*;

verus! {

/// The sequence-of-sequences view of a list of byte strings.
pub open spec fn view_list(l: Vec<Vec<u8>>) -> Seq<Seq<u8>> {
    Seq::new(l@.len(), |i: int| l@[i]@)
}

/// Byte-string equality, decided by value.
pub fn bytes_eq(a: &Vec<u8>, b: &Vec<u8>) -> (r: bool)
    ensures
        r == (a@ == b@),
{
    if a.len() != b.len() {
        return false;
    }
    let mut i: usize = 0;
    while i < a.len()
        invariant
            a.len() == b.len(),
            i <= a.len(),
            forall|j: int| 0 <= j < i ==> a@[j] == b@[j],
        decreases a.len() - i,
    {
        if a[i] != b[i] {
            return false;
        }
        i += 1;
    }
    proof {
        assert(a@ =~= b@);
    }
    true
}

/// A fresh copy of a byte string, equal in value.
pub fn copy_bytes(a: &Vec<u8>) -> (r: Vec<u8>)
    ensures
        r@ == a@,
{
    let mut r: Vec<u8> = Vec::new();
    let mut i: usize = 0;
    while i < a.len()
        invariant
            i <= a.len(),
            r@ == a@.take(i as int),
        decreases a.len() - i,
    {
        r.push(a[i]);
        i += 1;
        proof {
            assert(r@ =~= a@.take(i as int));
        }
    }
    proof {
        assert(a@.take(a.len() as int) =~= a@);
    }
    r
}

/// A fresh copy of `a[from..to]`.
pub fn copy_bytes_range(a: &Vec<u8>, from: usize, to: usize) -> (r: Vec<u8>)
    requires
        from <= to <= a.len(),
    ensures
        r@ == a@.subrange(from as int, to as int),
{
    let mut r: Vec<u8> = Vec::new();
    let mut i: usize = from;
    while i < to
        invariant
            from <= i <= to <= a.len(),
            r@ == a@.subrange(from as int, i as int),
        decreases to - i,
    {
        r.push(a[i]);
        i += 1;
        proof {
            assert(r@ =~= a@.subrange(from as int, i as int));
        }
    }
    r
}

/// A fresh copy of a list of byte strings, equal in value.
pub fn copy_list(a: &Vec<Vec<u8>>) -> (r: Vec<Vec<u8>>)
    ensures
        view_list(r) == view_list(*a),
{
    let mut r: Vec<Vec<u8>> = Vec::new();
    let mut i: usize = 0;
    while i < a.len()
        invariant
            i <= a.len(),
            r@.len() == i,
            forall|j: int| 0 <= j < i ==> r@[j]@ == a@[j]@,
        decreases a.len() - i,
    {
        r.push(copy_bytes(&a[i]));
        i += 1;
    }
    proof {
        assert(view_list(r) =~= view_list(*a));
    }
    r
}

} // verus!
