//! Location of the feature cache that belongs to an input sample.
//!
//! A sample's analysis features are cached next to the sample: the file
//! stem gets `_wav` appended and the extension becomes `wav.sc`. Paths are
//! handled as plain `/`-separated byte strings; the caller splits off any
//! platform-specific prefix first.

use vstd::prelude::*;

verus! {

use vstd::slice::slice_subrange;

/// The last index of `c` in `s`, or `-1` when `c` does not occur.
pub open spec fn last_index(s: Seq<u8>, c: u8) -> int
    decreases s.len(),
{
    if s.len() == 0 {
        -1
    } else if s.last() == c {
        s.len() - 1
    } else {
        last_index(s.drop_last(), c)
    }
}

/// The file-name part of a path: what follows the last `/`.
pub open spec fn file_name_of(s: Seq<u8>) -> Seq<u8> {
    s.skip(last_index(s, 47) + 1)
}

/// The path ends in an ordinary file name: non-empty, and not one of the
/// relative components `.` and `..`.
pub open spec fn has_plain_file_name(s: Seq<u8>) -> bool {
    file_name_of(s).len() > 0 && file_name_of(s) != seq![46u8] && file_name_of(s) != seq![
        46u8,
        46u8,
    ]
}

/// The stem of a file name: what precedes the last `.`, unless that dot
/// leads the name.
pub open spec fn stem_of(name: Seq<u8>) -> Seq<u8> {
    let d = last_index(name, 46);
    if d > 0 {
        name.take(d)
    } else {
        name
    }
}

/// The feature-cache path of a path: directory kept, `_wav` appended to the
/// file stem, extension set to `wav.sc`.
pub open spec fn feature_path_spec(s: Seq<u8>) -> Seq<u8> {
    let dir = last_index(s, 47) + 1;
    let name = s.skip(dir);
    let marked = stem_of(name) + seq![95u8, 119u8, 97u8, 118u8];
    s.take(dir) + stem_of(marked) + seq![46u8, 119u8, 97u8, 118u8, 46u8, 115u8, 99u8]
}

proof fn lemma_last_index_is(s: Seq<u8>, c: u8, r: int)
    requires
        -1 <= r < s.len(),
        r >= 0 ==> s[r] == c,
        forall|j: int| r < j < s.len() ==> s[j] != c,
    ensures
        last_index(s, c) == r,
    decreases s.len(),
{
    if s.len() > 0 && s.last() != c {
        assert(forall|j: int| 0 <= j < s.drop_last().len() ==> s.drop_last()[j] == s[j]);
        lemma_last_index_is(s.drop_last(), c, r);
    }
}

/// The last index of `c` in `s`, if any.
fn last_byte_index(s: &[u8], c: u8) -> (r: Option<usize>)
    ensures
        match r {
            Some(k) => k < s@.len() && last_index(s@, c) == k,
            None => last_index(s@, c) == -1,
        },
{
    let n = s.len();
    let mut k = n;
    while k > 0
        invariant
            k <= n,
            n == s@.len(),
            forall|j: int| k <= j < n ==> s@[j] != c,
        decreases k,
    {
        if s[k - 1] == c {
            proof {
                lemma_last_index_is(s@, c, k - 1);
            }
            return Some(k - 1);
        }
        k = k - 1;
    }
    proof {
        lemma_last_index_is(s@, c, -1);
    }
    None
}

/// Converts a sample path to its feature-cache path: `_wav` is appended to
/// the file stem and the extension becomes `wav.sc`, so that the cache sits
/// beside the sample it belongs to.
pub fn to_feature_path(path: &[u8]) -> (r: Vec<u8>)
    requires
        has_plain_file_name(path@),
    ensures
        r@ == feature_path_spec(path@),
{
    let n = path.len();
    let dir: usize = match last_byte_index(path, 47) {
        Some(k) => k + 1,
        None => 0,
    };
    let name = slice_subrange(path, dir, n);
    proof {
        assert(name@ =~= path@.skip(dir as int));
    }
    // The stem: up to the last dot, unless that dot leads the name.
    let stem_end: usize = match last_byte_index(name, 46) {
        Some(d) if d > 0 => d,
        _ => name.len(),
    };
    proof {
        assert(name@.take(name@.len() as int) =~= name@);
    }
    let mut marked: Vec<u8> = Vec::new();
    marked.extend_from_slice(slice_subrange(name, 0, stem_end));
    // The marker "_wav", byte by byte.
    marked.push(95);
    marked.push(119);
    marked.push(97);
    marked.push(118);
    proof {
        assert(marked@ =~= stem_of(name@) + seq![95u8, 119u8, 97u8, 118u8]);
    }
    let marked_stem_end: usize = match last_byte_index(marked.as_slice(), 46) {
        Some(d) if d > 0 => d,
        _ => marked.len(),
    };
    proof {
        assert(marked@.take(marked@.len() as int) =~= marked@);
    }
    let mut out: Vec<u8> = Vec::new();
    out.extend_from_slice(slice_subrange(path, 0, dir));
    out.extend_from_slice(slice_subrange(marked.as_slice(), 0, marked_stem_end));
    // The extension ".wav.sc", byte by byte.
    out.push(46);
    out.push(119);
    out.push(97);
    out.push(118);
    out.push(46);
    out.push(115);
    out.push(99);
    proof {
        assert(out@ =~= feature_path_spec(path@));
    }
    out
}

} // verus!
