//! Coordinates, line geometries and the two kinds of feature that are joined.

use vstd::prelude::*;

verus! {

/// A planar coordinate. Each field is the IEEE 754 binary64 bit pattern of
/// the number it stands for (`to_bits` / `from_bits` of the double).
#[derive(Clone, Copy, Debug, PartialEq, Eq, Structural)]
pub struct Coord {
    pub x_bits: u64,
    pub y_bits: u64,
}

/// A binary64 pattern is finite when its eleven exponent bits are not all set.
pub open spec fn bits_are_finite(bits: u64) -> bool {
    (bits >> 52u64) & 0x7ffu64 != 0x7ffu64
}

/// Both numbers of the coordinate are finite: neither infinite nor NaN.
pub open spec fn coord_is_finite(c: Coord) -> bool {
    bits_are_finite(c.x_bits) && bits_are_finite(c.y_bits)
}

/// Every coordinate of the line is finite.
pub open spec fn line_is_finite(line: Seq<Coord>) -> bool {
    forall|i: int| 0 <= i < line.len() ==> coord_is_finite(#[trigger] line[i])
}

impl Coord {
    /// Tells whether both numbers are finite.
    pub fn is_finite(&self) -> (r: bool)
        ensures
            r == coord_is_finite(*self),
    {
        let ex: u64 = (self.x_bits >> 52u64) & 0x7ffu64;
        let ey: u64 = (self.y_bits >> 52u64) & 0x7ffu64;
        ex != 0x7ffu64 && ey != 0x7ffu64
    }
}

/// Tells whether every coordinate of `line` is finite.
pub fn all_finite(line: &Vec<Coord>) -> (r: bool)
    ensures
        r == line_is_finite(line@),
{
    let mut i: usize = 0;
    while i < line.len()
        invariant
            i <= line.len(),
            forall|k: int| 0 <= k < i ==> coord_is_finite(#[trigger] line@[k]),
        decreases line.len() - i,
    {
        if !line[i].is_finite() {
            return false;
        }
        i += 1;
    }
    true
}

/// A route feature: the line that a corridor is built around.
#[derive(Debug)]
pub struct LCWIP {
    /// The route's line, in planar coordinates.
    pub geometry: Vec<Coord>,
    /// The feature's identifier, unique within its dataset.
    pub id: u64,
}

/// A candidate segment, matched against the corridors.
#[derive(Debug)]
pub struct PCT {
    /// The segment's line, in planar coordinates.
    pub geometry: Vec<Coord>,
    /// The attribute carried through to the join's results.
    pub baseline: usize,
}

/// The lines of the candidates, in their order.
pub open spec fn candidate_lines(pct: Seq<PCT>) -> Seq<Seq<Coord>> {
    Seq::new(pct.len(), |i: int| pct[i].geometry@)
}

/// Every coordinate of every candidate is finite.
pub open spec fn candidates_are_finite(pct: Seq<PCT>) -> bool {
    forall|i: int| 0 <= i < pct.len() ==> line_is_finite(#[trigger] pct[i].geometry@)
}

/// Tells whether every coordinate of every candidate is finite.
pub fn candidates_finite(pct: &Vec<PCT>) -> (r: bool)
    ensures
        r == candidates_are_finite(pct@),
{
    let mut i: usize = 0;
    while i < pct.len()
        invariant
            i <= pct.len(),
            forall|k: int| 0 <= k < i ==> line_is_finite(#[trigger] pct@[k].geometry@),
        decreases pct.len() - i,
    {
        if !all_finite(&pct[i].geometry) {
            return false;
        }
        i += 1;
    }
    true
}

} // verus!
