//! The bounding-box index over the candidate segments, and the exact filter
//! that follows a query of it.

use vstd::prelude::*;
use geo::Intersects;
use rstar::RTreeObject;
use crate::geometry::Coord;
use crate::geometry::PCT;
use crate::geometry::line_is_finite;
use crate::geometry::candidate_lines;
use crate::geometry::candidates_are_finite;

verus! {

/// An R-tree of `rstar` over the candidates' lines. Each entry is a line
/// together with its position in the candidate collection; the tree keys it
/// by the line's bounding box. It is built once and only read afterwards.
#[verifier::external_body]
pub struct SegmentIndex {
    tree: rstar::RTree<rstar::primitives::GeomWithData<geo::LineString, usize>>,
}

/// The lines that the index holds, each at the position it was loaded with.
pub uninterp spec fn indexed_lines(index: SegmentIndex) -> Seq<Seq<Coord>>;

/// Whether the bounding box of the polygon whose outer ring is `ring` and the
/// bounding box of `line` intersect, as `rstar` decides it between the two
/// envelopes that `geo` gives these geometries.
pub uninterp spec fn envelopes_meet(ring: Seq<Coord>, line: Seq<Coord>) -> bool;

/// Whether the polygon whose outer ring is `ring` and the line `line` have a
/// point in common, as `geo::Intersects` decides it.
pub uninterp spec fn corridor_crosses(ring: Seq<Coord>, line: Seq<Coord>) -> bool;

/// Calls `rstar::RTree::bulk_load` on the candidates' lines, each paired with
/// its position. The contract claims that the tree then holds exactly these
/// lines at these positions. Bulk loading orders envelopes by their numbers
/// and stops on a NaN, which the precondition leaves out.
#[verifier::external_body]
fn bulk_load(pct: &Vec<PCT>) -> (index: SegmentIndex)
    requires
        candidates_are_finite(pct@),
    ensures
        indexed_lines(index) == candidate_lines(pct@),
{
    let to_geo = |c: &Coord| geo::Coord {
        x: <<geo::Point as geo::CoordsIter>::Scalar>::from_bits(c.x_bits),
        y: <<geo::Point as geo::CoordsIter>::Scalar>::from_bits(c.y_bits),
    };
    let items = pct.iter().enumerate().map(|(i, p)| {
        let line = geo::LineString::new(p.geometry.iter().map(to_geo).collect());
        rstar::primitives::GeomWithData::new(line, i)
    }).collect();
    SegmentIndex { tree: rstar::RTree::bulk_load(items) }
}

/// Calls `rstar::RTree::locate_in_envelope_intersecting` with the envelope of
/// the polygon made of `ring`, and hands out the positions of the entries it
/// yields. The contract claims what the method documents: each entry whose
/// envelope intersects the query's comes out, once, and no other. The order
/// is the tree's own and nothing is claimed of it.
#[verifier::external_body]
fn locate_in_envelope_intersecting(index: &SegmentIndex, ring: &Vec<Coord>) -> (hits: Vec<usize>)
    requires
        line_is_finite(ring@),
    ensures
        hits@.no_duplicates(),
        forall|i: usize|
            #![trigger hits@.contains(i)]
            hits@.contains(i) == (i < indexed_lines(*index).len() && envelopes_meet(
                ring@,
                indexed_lines(*index)[i as int],
            )),
{
    let to_geo = |c: &Coord| geo::Coord {
        x: <<geo::Point as geo::CoordsIter>::Scalar>::from_bits(c.x_bits),
        y: <<geo::Point as geo::CoordsIter>::Scalar>::from_bits(c.y_bits),
    };
    let outer = geo::LineString::new(ring.iter().map(to_geo).collect());
    let area = geo::Polygon::new(outer, Vec::new()).envelope();
    index.tree.locate_in_envelope_intersecting(&area).map(|entry| entry.data).collect()
}

/// Calls `geo::Intersects::intersects` between the polygon made of `ring`,
/// without holes, and the line. The contract names the answer.
#[verifier::external_body]
fn intersects(ring: &Vec<Coord>, line: &Vec<Coord>) -> (r: bool)
    requires
        line_is_finite(ring@),
        line_is_finite(line@),
    ensures
        r == corridor_crosses(ring@, line@),
{
    let to_geo = |c: &Coord| geo::Coord {
        x: <<geo::Point as geo::CoordsIter>::Scalar>::from_bits(c.x_bits),
        y: <<geo::Point as geo::CoordsIter>::Scalar>::from_bits(c.y_bits),
    };
    let outer = geo::LineString::new(ring.iter().map(to_geo).collect());
    let segment = geo::LineString::new(line.iter().map(to_geo).collect());
    geo::Polygon::new(outer, Vec::new()).intersects(&segment)
}

/// `hits` is an answer to an envelope query: the positions of the lines whose
/// bounding box meets the ring's, each once, in any order.
pub open spec fn is_envelope_hits(hits: Seq<usize>, ring: Seq<Coord>, lines: Seq<Seq<Coord>>) -> bool {
    &&& hits.no_duplicates()
    &&& forall|i: usize| #[trigger]
        hits.contains(i) <==> i < lines.len() && envelopes_meet(ring, lines[i as int])
}

/// `matches` is a match list: the positions of the lines whose bounding box
/// meets the ring's and that cross the corridor itself, each once, in any
/// order.
pub open spec fn is_match_list(matches: Seq<usize>, ring: Seq<Coord>, lines: Seq<Seq<Coord>>) -> bool {
    &&& matches.no_duplicates()
    &&& forall|i: usize| #[trigger]
        matches.contains(i) <==> i < lines.len() && envelopes_meet(ring, lines[i as int])
            && corridor_crosses(ring, lines[i as int])
}

impl SegmentIndex {
    /// The lines that the index holds.
    pub closed spec fn lines(self) -> Seq<Seq<Coord>> {
        indexed_lines(self)
    }

    /// Builds the index over all candidates at once.
    pub fn build(pct: &Vec<PCT>) -> (index: SegmentIndex)
        requires
            candidates_are_finite(pct@),
        ensures
            index.lines() == candidate_lines(pct@),
    {
        bulk_load(pct)
    }

    /// The positions of all candidates whose bounding box intersects that of
    /// the corridor made of `ring`.
    pub fn query_envelope(&self, ring: &Vec<Coord>) -> (hits: Vec<usize>)
        requires
            line_is_finite(ring@),
        ensures
            is_envelope_hits(hits@, ring@, self.lines()),
    {
        locate_in_envelope_intersecting(self, ring)
    }
}

/// Keeps of `hits` the candidates that cross the corridor made of `ring`, in
/// the order in which `hits` lists them.
pub fn exact_matches(ring: &Vec<Coord>, pct: &Vec<PCT>, hits: &Vec<usize>) -> (matches: Vec<usize>)
    requires
        line_is_finite(ring@),
        candidates_are_finite(pct@),
        forall|k: int| 0 <= k < hits@.len() ==> (#[trigger] hits@[k]) < pct@.len(),
    ensures
        matches@ == hits@.filter(
            |i: usize| i < pct@.len() && corridor_crosses(ring@, pct@[i as int].geometry@),
        ),
        is_envelope_hits(hits@, ring@, candidate_lines(pct@)) ==> is_match_list(
            matches@,
            ring@,
            candidate_lines(pct@),
        ),
{
    let ghost keep = |i: usize| i < pct@.len() && corridor_crosses(ring@, pct@[i as int].geometry@);
    let ghost lines = candidate_lines(pct@);
    let mut matches: Vec<usize> = Vec::new();
    let ghost mut from: Seq<int> = Seq::empty();
    let mut j: usize = 0;
    proof {
        reveal(Seq::filter);
        assert(hits@.subrange(0, 0) =~= Seq::<usize>::empty());
    }
    while j < hits.len()
        invariant
            j <= hits.len(),
            line_is_finite(ring@),
            candidates_are_finite(pct@),
            forall|k: int| 0 <= k < hits@.len() ==> (#[trigger] hits@[k]) < pct@.len(),
            keep == |i: usize| i < pct@.len() && corridor_crosses(ring@, pct@[i as int].geometry@),
            matches@ == hits@.subrange(0, j as int).filter(keep),
            from.len() == matches@.len(),
            forall|a: int|
                0 <= a < from.len() ==> 0 <= #[trigger] from[a] < j && hits@[from[a]] == matches@[a]
                    && keep(matches@[a]),
            forall|a: int, b: int| 0 <= a < b < from.len() ==> from[a] < from[b],
            forall|k: int| 0 <= k < j && keep(#[trigger] hits@[k]) ==> matches@.contains(hits@[k]),
        decreases hits.len() - j,
    {
        let at: usize = hits[j];
        let crossing: bool = intersects(ring, &pct[at].geometry);
        proof {
            reveal(Seq::filter);
            assert(hits@.subrange(0, j + 1).drop_last() =~= hits@.subrange(0, j as int));
            assert(hits@.subrange(0, j + 1).last() == at);
        }
        let ghost before = matches@;
        if crossing {
            matches.push(at);
            proof {
                from = from.push(j as int);
                assert(matches@[before.len() as int] == at);
                assert forall|k: int| 0 <= k < j + 1 && keep(#[trigger] hits@[k]) implies matches@.contains(
                    hits@[k],
                ) by {
                    if k < j {
                        let a = before.index_of(hits@[k]);
                        assert(matches@[a] == hits@[k]);
                    }
                }
            }
        }
        j += 1;
    }
    proof {
        assert(hits@.subrange(0, hits@.len() as int) =~= hits@);
        if is_envelope_hits(hits@, ring@, lines) {
            assert forall|a: int, b: int|
                0 <= a < matches@.len() && 0 <= b < matches@.len() && a != b implies matches@[a]
                != matches@[b] by {
                assert(from[a] != from[b]);
            }
            assert forall|i: usize| #[trigger]
                matches@.contains(i) <==> i < lines.len() && envelopes_meet(ring@, lines[i as int])
                    && corridor_crosses(ring@, lines[i as int]) by {
                if matches@.contains(i) {
                    let a = matches@.index_of(i);
                    assert(hits@[from[a]] == i);
                    assert(hits@.contains(i));
                }
                if i < lines.len() && envelopes_meet(ring@, lines[i as int]) && corridor_crosses(
                    ring@,
                    lines[i as int],
                ) {
                    assert(hits@.contains(i));
                    let k = hits@.index_of(i);
                    assert(keep(hits@[k]));
                }
            }
        }
    }
    matches
}

/// Index completeness: where the corridor's bounding box meets that of every
/// candidate, an envelope query answers with every candidate, each once.
pub proof fn lemma_full_extent_query_is_complete(hits: Seq<usize>, ring: Seq<Coord>, lines: Seq<Seq<Coord>>)
    requires
        is_envelope_hits(hits, ring, lines),
        lines.len() <= usize::MAX,
        forall|i: int| 0 <= i < lines.len() ==> envelopes_meet(ring, #[trigger] lines[i]),
    ensures
        hits.len() == lines.len(),
        forall|i: usize| i < lines.len() <==> #[trigger] hits.contains(i),
{
    assert forall|i: usize| i < lines.len() implies #[trigger] hits.contains(i) by {
        assert(envelopes_meet(ring, lines[i as int]));
    }
    let all = Set::new(|i: usize| i < lines.len());
    assert(hits.to_set() =~= all);
    hits.unique_seq_to_set();
    lemma_usize_below_len(lines.len());
}

/// Join correctness: where every candidate either crosses the corridor, its
/// bounding box meeting the corridor's, or has a bounding box that does not
/// meet the corridor's, a match list holds the crossing candidates and
/// nothing else, each once.
pub proof fn lemma_matches_are_the_crossing(
    matches: Seq<usize>,
    ring: Seq<Coord>,
    lines: Seq<Seq<Coord>>,
    crossing: Set<usize>,
)
    requires
        is_match_list(matches, ring, lines),
        forall|i: usize| #[trigger]
            crossing.contains(i) ==> i < lines.len() && envelopes_meet(ring, lines[i as int])
                && corridor_crosses(ring, lines[i as int]),
        forall|i: usize|
            i < lines.len() && !(#[trigger] crossing.contains(i)) ==> !envelopes_meet(
                ring,
                lines[i as int],
            ),
    ensures
        matches.to_set() == crossing,
        crossing.finite(),
        matches.len() == crossing.len(),
{
    assert forall|i: usize| matches.to_set().contains(i) <==> crossing.contains(i) by {
        if matches.contains(i) {
            assert(crossing.contains(i));
        }
        if crossing.contains(i) {
            assert(matches.contains(i));
        }
    }
    assert(matches.to_set() =~= crossing);
    matches.unique_seq_to_set();
}

/// There are `n` values of `usize` below `n`.
proof fn lemma_usize_below_len(n: nat)
    requires
        n <= usize::MAX,
    ensures
        Set::new(|i: usize| i < n).finite(),
        Set::new(|i: usize| i < n).len() == n,
    decreases n,
{
    let s = Set::new(|i: usize| i < n);
    if n == 0 {
        assert(s =~= Set::<usize>::empty());
    } else {
        let m = (n - 1) as nat;
        lemma_usize_below_len(m);
        let t = Set::new(|i: usize| i < m);
        assert(s =~= t.insert(m as usize));
    }
}

} // verus!
