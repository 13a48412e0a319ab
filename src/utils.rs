use vstd::prelude::*;

verus! {

/// The smaller of two indices.
pub open spec fn spec_min(a: usize, b: usize) -> usize {
    if a <= b { a } else { b }
}

/// The larger of two indices.
pub open spec fn spec_max(a: usize, b: usize) -> usize {
    if a <= b { b } else { a }
}

/// Puts two values in order: the one that is not larger comes first.
pub fn order_ab(a: usize, b: usize) -> (r: (usize, usize))
    ensures
        r.0 == spec_min(a, b),
        r.1 == spec_max(a, b),
        r.0 <= r.1,
        (r.0 == a && r.1 == b) || (r.0 == b && r.1 == a),
{
    if a <= b {
        (a, b)
    } else {
        (b, a)
    }
}

} // verus!
