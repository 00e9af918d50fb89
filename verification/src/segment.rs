//! Path segments: the three kinds of pattern segment, and how a pattern
//! segment relates to a segment of a concrete path.

use vstd::prelude::*;
use vstd::string::StringSliceAdditionalSpecFns;
use vstd::utf8::encode_utf8_decode_utf8;

verus! {

/// The wildcard segment `*`.
pub open spec fn is_wildcard(seg: Seq<char>) -> bool {
    seg.len() == 1 && seg[0] == '*'
}

/// A parameter segment: one that begins with `:`. The name of the parameter
/// is the whole segment, colon included.
pub open spec fn is_parameter(seg: Seq<char>) -> bool {
    seg.len() > 0 && seg[0] == ':'
}

/// A literal segment: neither the wildcard nor a parameter.
pub open spec fn is_literal(seg: Seq<char>) -> bool {
    !is_wildcard(seg) && !is_parameter(seg)
}

/// Whether the pattern segment `pat` accepts the path segment `seg`:
/// a wildcard and a parameter accept any segment, a literal only itself.
pub open spec fn segment_matches(pat: Seq<char>, seg: Seq<char>) -> bool {
    is_wildcard(pat) || is_parameter(pat) || pat == seg
}

/// Equality of two string slices, decided on their bytes.
pub fn str_eq(a: &str, b: &str) -> (r: bool)
    ensures
        r == (a@ == b@),
{
    let x = a.as_bytes();
    let y = b.as_bytes();
    proof {
        encode_utf8_decode_utf8(a@);
        encode_utf8_decode_utf8(b@);
    }
    if x.len() != y.len() {
        return false;
    }
    let mut i: usize = 0;
    while i < x.len()
        invariant
            x@ == a.spec_bytes(),
            y@ == b.spec_bytes(),
            x.len() == y.len(),
            i <= x.len(),
            forall|j: int| 0 <= j < i ==> x@[j] == y@[j],
        decreases x.len() - i,
    {
        if x[i] != y[i] {
            return false;
        }
        i += 1;
    }
    assert(x@ =~= y@);
    true
}

/// Whether `seg` is the wildcard segment.
pub fn is_wildcard_segment(seg: &str) -> (r: bool)
    ensures
        r == is_wildcard(seg@),
{
    proof {
        reveal_strlit("*");
        assert(is_wildcard(seg@) <==> seg@ =~= "*"@);
    }
    str_eq(seg, "*")
}

/// Whether `seg` is a parameter segment.
pub fn is_parameter_segment(seg: &str) -> (r: bool)
    ensures
        r == is_parameter(seg@),
{
    !seg.is_empty() && seg.get_char(0) == ':'
}

} // verus!
