//! Staff validation: do five line segments form a geometrically regular staff?

use vstd::math::max;
use vstd::math::min;
use vstd::prelude::*;

verus! {

/// The line thickness sampled from adjacent pair `k` of the candidate: the
/// thickness of the pair's first segment, for `k` in `0..4`. The fifth
/// segment's thickness is never sampled — a deliberate asymmetry of the
/// detector.
pub open spec fn pair_thickness(lines: Seq<(usize, usize)>, k: int) -> int {
    lines[k].1 as int
}

/// The gap sampled from adjacent pair `k`: from the end of the pair's first
/// segment (`start + thickness`) to the start of its second.
pub open spec fn pair_spacing(lines: Seq<(usize, usize)>, k: int) -> int {
    lines[k + 1].0 - (lines[k].0 + lines[k].1)
}

/// Smallest thickness sampled over the four adjacent pairs.
pub open spec fn min_thickness(lines: Seq<(usize, usize)>) -> int {
    min(
        min(pair_thickness(lines, 0), pair_thickness(lines, 1)),
        min(pair_thickness(lines, 2), pair_thickness(lines, 3)),
    )
}

/// Largest thickness sampled over the four adjacent pairs.
pub open spec fn max_thickness(lines: Seq<(usize, usize)>) -> int {
    max(
        max(pair_thickness(lines, 0), pair_thickness(lines, 1)),
        max(pair_thickness(lines, 2), pair_thickness(lines, 3)),
    )
}

/// Smallest gap sampled over the four adjacent pairs.
pub open spec fn min_spacing(lines: Seq<(usize, usize)>) -> int {
    min(
        min(pair_spacing(lines, 0), pair_spacing(lines, 1)),
        min(pair_spacing(lines, 2), pair_spacing(lines, 3)),
    )
}

/// Largest gap sampled over the four adjacent pairs.
pub open spec fn max_spacing(lines: Seq<(usize, usize)>) -> int {
    max(
        max(pair_spacing(lines, 0), pair_spacing(lines, 1)),
        max(pair_spacing(lines, 2), pair_spacing(lines, 3)),
    )
}

/// Whether the candidate is a regular staff: both the sampled line
/// thicknesses and the sampled gaps vary by at most the smallest sampled
/// thickness, a tolerance that scales with the staff itself.
pub open spec fn staff_spec(lines: Seq<(usize, usize)>) -> bool {
    let tolerance = min_thickness(lines);
    &&& max_thickness(lines) - min_thickness(lines) <= tolerance
    &&& max_spacing(lines) - min_spacing(lines) <= tolerance
}

/// The smaller of two segment measures.
fn lesser(a: usize, b: usize) -> (r: usize)
    ensures
        r == min(a as int, b as int),
{
    if a <= b {
        a
    } else {
        b
    }
}

/// The larger of two segment measures.
fn greater(a: usize, b: usize) -> (r: usize)
    ensures
        r == max(a as int, b as int),
{
    if a >= b {
        a
    } else {
        b
    }
}

/// Decides whether five ordered, non-overlapping line segments
/// `(start_row, thickness)`, top to bottom, form a regular staff.
///
/// Each of the four adjacent pairs contributes the thickness of its first
/// segment and the gap between the segments; the verdict accepts the
/// candidate exactly when both spreads stay within the smallest sampled
/// thickness.
pub fn is_staff(lines: &[(usize, usize); 5]) -> (r: bool)
    requires
        forall|k: int| 0 <= k < 4 ==> (#[trigger] lines@[k]).0 + lines@[k].1 <= lines@[k + 1].0,
    ensures
        r == staff_spec(lines@),
{
    let t0 = lines[0].1;
    let t1 = lines[1].1;
    let t2 = lines[2].1;
    let t3 = lines[3].1;
    let s0 = lines[1].0 - (lines[0].0 + lines[0].1);
    let s1 = lines[2].0 - (lines[1].0 + lines[1].1);
    let s2 = lines[3].0 - (lines[2].0 + lines[2].1);
    let s3 = lines[4].0 - (lines[3].0 + lines[3].1);

    let min_line_thickness = lesser(lesser(t0, t1), lesser(t2, t3));
    let max_line_thickness = greater(greater(t0, t1), greater(t2, t3));
    let min_spacing_thickness = lesser(lesser(s0, s1), lesser(s2, s3));
    let max_spacing_thickness = greater(greater(s0, s1), greater(s2, s3));

    let deviation = min_line_thickness;
    max_line_thickness - min_line_thickness <= deviation && max_spacing_thickness
        - min_spacing_thickness <= deviation
}

} // verus!
