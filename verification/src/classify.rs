//! Recognising the frames of the garbage collector by name.

use vstd::prelude::*;
use vstd::utf8::encode_utf8_decode_utf8;
use crate::profile::Frame;

verus! {

/// The names under which the profiler reports the collector's phases.
/// Matching is exact and case-sensitive.
pub open spec fn is_gc_name(name: Seq<char>) -> bool {
    ||| name == "(garbage collection)"@
    ||| name == "(marking)"@
    ||| name == "(sweeping)"@
}

/// Whether two byte slices hold the same bytes.
fn bytes_equal(a: &[u8], b: &[u8]) -> (same: bool)
    ensures
        same == (a@ == b@),
{
    if a.len() != b.len() {
        return false;
    }
    let mut i: usize = 0;
    while i < a.len()
        invariant
            a.len() == b.len(),
            i <= a.len(),
            forall|k: int| 0 <= k < i ==> a@[k] == b@[k],
        decreases a.len() - i,
    {
        if a[i] != b[i] {
            return false;
        }
        i += 1;
    }
    assert(a@ =~= b@);
    true
}

/// Whether two strings hold the same characters.
pub fn str_equal(a: &str, b: &str) -> (same: bool)
    ensures
        same == (a@ == b@),
{
    let same = bytes_equal(a.as_bytes(), b.as_bytes());
    proof {
        encode_utf8_decode_utf8(a@);
        encode_utf8_decode_utf8(b@);
    }
    same
}

/// Decides whether `name` is one of the collector's frame names.
pub fn gc_name(name: &str) -> (gc: bool)
    ensures
        gc == is_gc_name(name@),
{
    str_equal(name, "(garbage collection)") || str_equal(name, "(marking)") || str_equal(
        name,
        "(sweeping)",
    )
}

/// Decides whether `frame` denotes the collector.
pub fn gc_frame(frame: &Frame) -> (gc: bool)
    ensures
        gc == is_gc_name(frame.name@),
{
    gc_name(frame.name.as_str())
}

} // verus!
