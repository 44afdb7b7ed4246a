//! File keys and the glob pattern.
//!
//! The store keys its maps by paths relative to the configured
//! directory: the directory prefix and its separator are stripped from
//! each job's path before lookup, printing and storage, so stores stay
//! portable across differing invocation directories.  The glob pattern
//! handed to the job source is the directory (the current one by
//! default) joined with the configured file pattern.

use vstd::prelude::*;

use crate::bytes::bytes_eq;
use crate::bytes::copy_bytes;
use crate::bytes::copy_bytes_range;
use crate::modes::Metadata;

verus! {

/// The path separator.
pub const SLASH: u8 = 47;

/// The current directory, spelled as a single dot.
pub const DOT: u8 = 46;

/// The configured directory, or a dot for the current one.
pub open spec fn dir_or_dot(d: Option<Seq<u8>>) -> Seq<u8> {
    match d {
        Some(s) => s,
        None => seq![DOT],
    }
}

/// The path with the directory prefix and its separator stripped, when
/// they are there; the path as it came, otherwise.  A directory given
/// with a trailing separator already carries it, so nothing more is
/// expected between prefix and rest.
pub open spec fn spec_strip(p: Seq<u8>, d: Option<Seq<u8>>) -> Seq<u8> {
    match d {
        None => p,
        Some(dd) => if dd.len() > 0 && dd[dd.len() - 1] == SLASH && dd.len() <= p.len()
            && p.subrange(0, dd.len() as int) == dd {
            p.subrange(dd.len() as int, p.len() as int)
        } else if dd.len() + 1 <= p.len() && p.subrange(0, dd.len() as int) == dd && p[dd.len() as int]
            == SLASH {
            p.subrange(dd.len() as int + 1, p.len() as int)
        } else {
            p
        },
    }
}

/// The glob pattern handed to the job source: directory, separator,
/// file pattern.
pub fn glob_pattern(metadata: &Metadata) -> (r: Vec<u8>)
    ensures
        r@ == dir_or_dot(metadata@.directory) + seq![SLASH] + metadata@.files,
{
    let mut r: Vec<u8> = match &metadata.directory {
        Some(d) => copy_bytes(d),
        None => {
            let mut v: Vec<u8> = Vec::new();
            v.push(DOT);
            proof {
                assert(v@ =~= seq![DOT]);
            }
            v
        },
    };
    r.push(SLASH);
    let mut f = copy_bytes(&metadata.files);
    r.append(&mut f);
    proof {
        assert(r@ =~= dir_or_dot(metadata@.directory) + seq![SLASH] + metadata@.files);
    }
    r
}

/// Strip the directory prefix from one path.
pub fn strip_dir_prefix(path: &Vec<u8>, directory: &Option<Vec<u8>>) -> (r: Vec<u8>)
    ensures
        r@ == spec_strip(
            path@,
            match directory {
                Some(d) => Some(d@),
                None => None,
            },
        ),
{
    match directory {
        None => copy_bytes(path),
        Some(d) => {
            let trailing = d.len() > 0 && d[d.len() - 1] == SLASH;
            if trailing && d.len() <= path.len() {
                let pre = copy_bytes_range(path, 0, d.len());
                if bytes_eq(&pre, d) {
                    return copy_bytes_range(path, d.len(), path.len());
                }
            }
            if !trailing && d.len() < path.len() {
                let pre = copy_bytes_range(path, 0, d.len());
                if bytes_eq(&pre, d) && path[d.len()] == SLASH {
                    return copy_bytes_range(path, d.len() + 1, path.len());
                }
            }
            copy_bytes(path)
        },
    }
}

/// The store key of each job, in job order: its path with the
/// directory prefix stripped.
pub fn job_keys(files: &Vec<Vec<u8>>, directory: &Option<Vec<u8>>) -> (r: Vec<Vec<u8>>)
    ensures
        r@.len() == files@.len(),
        forall|i: int|
            0 <= i < files@.len() ==> (#[trigger] r@[i])@ == spec_strip(
                files@[i]@,
                match directory {
                    Some(d) => Some(d@),
                    None => None,
                },
            ),
{
    let mut r: Vec<Vec<u8>> = Vec::new();
    let mut i: usize = 0;
    while i < files.len()
        invariant
            i <= files.len(),
            r@.len() == i,
            forall|j: int|
                0 <= j < i ==> (#[trigger] r@[j])@ == spec_strip(
                    files@[j]@,
                    match directory {
                        Some(d) => Some(d@),
                        None => None,
                    },
                ),
        decreases files.len() - i,
    {
        r.push(strip_dir_prefix(&files[i], directory));
        i += 1;
    }
    r
}

} // verus!
