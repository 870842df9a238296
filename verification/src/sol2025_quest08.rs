//! Whether two chords of a circle of numbered pegs cross.

use vstd::prelude::*;

verus! {

/// Whether the chord `(s2, e2)` crosses or coincides with `(s1, e1)`: one
/// endpoint strictly inside the first chord's span with the other outside,
/// or the same chord in either orientation.
pub open spec fn overlap_spec(s1: i64, e1: i64, s2: i64, e2: i64) -> bool {
    ||| (s2 > s1 && s2 < e1 && (e2 > e1 || e2 < s1))
    ||| (e2 > s1 && e2 < e1 && (s2 > e1 || s2 < s1))
    ||| (s2 == s1 && e2 == e1)
    ||| (s2 == e1 && e2 == s1)
}

/// Whether two chords cross.
pub fn overlap(c1: (i64, i64), c2: (i64, i64)) -> (r: bool)
    ensures
        r == overlap_spec(c1.0, c1.1, c2.0, c2.1),
{
    let (s1, e1) = c1;
    let (s2, e2) = c2;
    (s2 > s1 && s2 < e1 && (e2 > e1 || e2 < s1)) || (e2 > s1 && e2 < e1 && (s2 > e1 || s2 < s1))
        || (s2 == s1 && e2 == e1) || (s2 == e1 && e2 == s1)
}

} // verus!
