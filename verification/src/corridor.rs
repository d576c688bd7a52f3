//! The corridor around a line: a ring stitched from its two offset curves.

use vstd::prelude::*;
use crate::geometry::Coord;
use crate::geometry::line_is_finite;

verus! {

/// The two offset curves of one line: the line shifted sideways to its left
/// and to its right. A side is `None` where the offset is undefined, as it is
/// for a line of zero length.
#[derive(Debug)]
pub struct OffsetCurves {
    pub left: Option<Vec<Coord>>,
    pub right: Option<Vec<Coord>>,
}

/// The view of an optional line.
pub open spec fn line_view(line: Option<Vec<Coord>>) -> Option<Seq<Coord>> {
    match line {
        Some(l) => Some(l@),
        None => None,
    }
}

/// The corridor's outer ring: the left curve's points from last to first,
/// then the right curve's points from first to last. There is no ring where
/// either curve is missing. The ring is left open; it is closed when a
/// polygon is made of it.
pub open spec fn corridor_ring(left: Option<Seq<Coord>>, right: Option<Seq<Coord>>) -> Option<
    Seq<Coord>,
> {
    match (left, right) {
        (Some(l), Some(r)) => Some(l.reverse() + r),
        _ => None,
    }
}

impl OffsetCurves {
    /// The ring that these two curves give.
    pub open spec fn ring(self) -> Option<Seq<Coord>> {
        corridor_ring(line_view(self.left), line_view(self.right))
    }

    /// Every coordinate of the curves that are there is finite.
    pub open spec fn is_finite(self) -> bool {
        &&& self.left matches Some(l) ==> line_is_finite(l@)
        &&& self.right matches Some(r) ==> line_is_finite(r@)
    }
}

/// A ring stitched from finite curves is finite.
pub proof fn lemma_ring_is_finite(left: Seq<Coord>, right: Seq<Coord>)
    requires
        line_is_finite(left),
        line_is_finite(right),
    ensures
        line_is_finite(left.reverse() + right),
{
    let ring = left.reverse() + right;
    assert forall|i: int| 0 <= i < ring.len() implies crate::geometry::coord_is_finite(
        #[trigger] ring[i],
    ) by {
        if i < left.len() {
            assert(ring[i] == left[left.len() - 1 - i]);
        } else {
            assert(ring[i] == right[i - left.len()]);
        }
    }
}

/// Builds the corridor's ring from the two offset curves of a line, or
/// nothing where either curve is missing.
pub fn buffer_linestring(left: &Option<Vec<Coord>>, right: &Option<Vec<Coord>>) -> (ring: Option<
    Vec<Coord>,
>)
    ensures
        line_view(ring) == corridor_ring(line_view(*left), line_view(*right)),
{
    match (left, right) {
        (Some(l), Some(r)) => {
            let mut pts: Vec<Coord> = Vec::new();
            let mut i: usize = l.len();
            while i > 0
                invariant
                    i <= l.len(),
                    pts@.len() == l.len() - i,
                    forall|k: int| 0 <= k < pts@.len() ==> pts@[k] == l@[l.len() - 1 - k],
                decreases i,
            {
                i -= 1;
                pts.push(l[i]);
            }
            assert(pts@ =~= l@.reverse());
            let mut j: usize = 0;
            while j < r.len()
                invariant
                    j <= r.len(),
                    pts@ =~= l@.reverse() + r@.subrange(0, j as int),
                decreases r.len() - j,
            {
                pts.push(r[j]);
                j += 1;
            }
            assert(r@.subrange(0, r.len() as int) =~= r@);
            Some(pts)
        },
        _ => None,
    }
}

} // verus!
