//! The join: each route's corridor is matched against the indexed candidates.

use vstd::prelude::*;
use crate::geometry::Coord;
use crate::geometry::LCWIP;
use crate::geometry::PCT;
use crate::geometry::line_is_finite;
use crate::geometry::all_finite;
use crate::geometry::candidate_lines;
use crate::geometry::candidates_are_finite;
use crate::geometry::candidates_finite;
use crate::corridor::OffsetCurves;
use crate::corridor::buffer_linestring;
use crate::corridor::lemma_ring_is_finite;
use crate::index::SegmentIndex;
use crate::index::exact_matches;
use crate::index::is_envelope_hits;
use crate::index::is_match_list;

verus! {

/// What the join reports for one route.
#[derive(Debug)]
pub struct JoinResult {
    /// The route's identifier.
    pub feature_id: u64,
    /// The `baseline` of every candidate that crosses the route's corridor,
    /// in the order in which the index gave them. Equal values stay.
    pub matching_baseline_values: Vec<usize>,
}

/// The offset curves of every route are finite.
pub open spec fn offsets_are_finite(offsets: Seq<OffsetCurves>) -> bool {
    forall|k: int| 0 <= k < offsets.len() ==> (#[trigger] offsets[k]).is_finite()
}

/// What the join asks of its inputs: one pair of offset curves for each
/// route, and finite coordinates in the curves and in the candidates.
pub open spec fn joinable(lcwip: Seq<LCWIP>, offsets: Seq<OffsetCurves>, pct: Seq<PCT>) -> bool {
    &&& offsets.len() == lcwip.len()
    &&& offsets_are_finite(offsets)
    &&& candidates_are_finite(pct)
}

/// Tells whether an optional curve is finite where it is there.
fn curve_finite(curve: &Option<Vec<Coord>>) -> (r: bool)
    ensures
        r == (*curve matches Some(c) ==> line_is_finite(c@)),
{
    match curve {
        Some(c) => all_finite(c),
        None => true,
    }
}

/// Tells whether the inputs are such that the join accepts them.
pub fn inputs_are_joinable(lcwip: &Vec<LCWIP>, offsets: &Vec<OffsetCurves>, pct: &Vec<PCT>) -> (r:
    bool)
    ensures
        r == joinable(lcwip@, offsets@, pct@),
{
    if offsets.len() != lcwip.len() {
        return false;
    }
    let mut k: usize = 0;
    while k < offsets.len()
        invariant
            k <= offsets.len(),
            forall|a: int| 0 <= a < k ==> (#[trigger] offsets@[a]).is_finite(),
        decreases offsets.len() - k,
    {
        if !curve_finite(&offsets[k].left) || !curve_finite(&offsets[k].right) {
            assert(!offsets@[k as int].is_finite());
            return false;
        }
        k += 1;
    }
    candidates_finite(pct)
}

/// The candidates that cross the corridor made of `ring`: the index is asked
/// for those whose bounding box meets the corridor's, and the exact test
/// keeps those that cross it.
pub fn matches_for(index: &SegmentIndex, ring: &Vec<Coord>, pct: &Vec<PCT>) -> (matches: Vec<usize>)
    requires
        index.lines() == candidate_lines(pct@),
        line_is_finite(ring@),
        candidates_are_finite(pct@),
    ensures
        is_match_list(matches@, ring@, candidate_lines(pct@)),
{
    let hits = index.query_envelope(ring);
    proof {
        assert forall|k: int| 0 <= k < hits@.len() implies (#[trigger] hits@[k]) < pct@.len() by {
            assert(hits@.contains(hits@[k]));
        }
    }
    exact_matches(ring, pct, &hits)
}

/// The callback `cb` can have answered `out` when it was handed `route`, the
/// corridor made of `ring` and a match list of that corridor.
pub open spec fn handled<E, F: Fn(&LCWIP, &Vec<Coord>, Vec<usize>) -> Result<(), E>>(
    cb: F,
    route: LCWIP,
    ring: Seq<Coord>,
    lines: Seq<Seq<Coord>>,
    out: Result<(), E>,
) -> bool {
    exists|corridor: Vec<Coord>, matches: Vec<usize>|
        corridor@ == ring && is_match_list(matches@, ring, lines) && #[trigger] call_ensures(
            cb,
            (&route, &corridor, matches),
            out,
        )
}

/// Route `k` has a corridor, and the callback failed with `e` for it.
pub open spec fn failed_at<E, F: Fn(&LCWIP, &Vec<Coord>, Vec<usize>) -> Result<(), E>>(
    cb: F,
    lcwip: Seq<LCWIP>,
    offsets: Seq<OffsetCurves>,
    lines: Seq<Seq<Coord>>,
    k: int,
    e: E,
) -> bool {
    offsets[k].ring() matches Some(ring) && handled(cb, lcwip[k], ring, lines, Err(e))
}

/// Route `k` either has no corridor, or the callback succeeded for it.
pub open spec fn passed_at<E, F: Fn(&LCWIP, &Vec<Coord>, Vec<usize>) -> Result<(), E>>(
    cb: F,
    lcwip: Seq<LCWIP>,
    offsets: Seq<OffsetCurves>,
    lines: Seq<Seq<Coord>>,
    k: int,
) -> bool {
    offsets[k].ring() matches Some(ring) ==> exists|out: Result<(), E>|
        out is Ok && #[trigger] handled(cb, lcwip[k], ring, lines, out)
}

/// The join ended with `r`: on success the callback succeeded for every route
/// that has a corridor; on failure it failed with that very error for one
/// such route, after it had succeeded for all such routes before it.
pub open spec fn joined<E, F: Fn(&LCWIP, &Vec<Coord>, Vec<usize>) -> Result<(), E>>(
    cb: F,
    lcwip: Seq<LCWIP>,
    offsets: Seq<OffsetCurves>,
    lines: Seq<Seq<Coord>>,
    r: Result<(), E>,
) -> bool {
    match r {
        Ok(_) => forall|k: int|
            0 <= k < lcwip.len() ==> #[trigger] passed_at(cb, lcwip, offsets, lines, k),
        Err(e) => exists|k: int|
            0 <= k < lcwip.len() && #[trigger] failed_at(cb, lcwip, offsets, lines, k, e)
                && forall|j: int| 0 <= j < k ==> #[trigger] passed_at(cb, lcwip, offsets, lines, j),
    }
}

/// The callback fails whatever it is handed.
pub open spec fn always_fails<E, F: Fn(&LCWIP, &Vec<Coord>, Vec<usize>) -> Result<(), E>>(
    cb: F,
) -> bool {
    forall|route: &LCWIP, corridor: &Vec<Coord>, matches: Vec<usize>, out: Result<(), E>| #[trigger]
        call_ensures(cb, (route, corridor, matches), out) ==> out is Err
}

/// Failure propagation: with a callback that always fails, a join succeeds
/// only where no route has a corridor; otherwise it ends with the error that
/// the callback gave for the first route that has one.
pub proof fn lemma_failing_callback_ends_the_join<
    E,
    F: Fn(&LCWIP, &Vec<Coord>, Vec<usize>) -> Result<(), E>,
>(cb: F, lcwip: Seq<LCWIP>, offsets: Seq<OffsetCurves>, lines: Seq<Seq<Coord>>, r: Result<(), E>)
    requires
        joined(cb, lcwip, offsets, lines, r),
        always_fails(cb),
    ensures
        match r {
            Ok(_) => forall|k: int| 0 <= k < lcwip.len() ==> (#[trigger] offsets[k]).ring() is None,
            Err(e) => exists|k: int|
                0 <= k < lcwip.len() && #[trigger] failed_at(cb, lcwip, offsets, lines, k, e)
                    && forall|j: int| 0 <= j < k ==> (#[trigger] offsets[j]).ring() is None,
        },
{
    assert forall|k: int|
        0 <= k < lcwip.len() && #[trigger] passed_at(
            cb,
            lcwip,
            offsets,
            lines,
            k,
        ) implies offsets[k].ring() is None by {
        if offsets[k].ring() is Some {
            let ring = offsets[k].ring()->Some_0;
            let out = choose|out: Result<(), E>|
                out is Ok && #[trigger] handled(cb, lcwip[k], ring, lines, out);
            assert(handled(cb, lcwip[k], ring, lines, out));
        }
    }
    match r {
        Ok(_) => {
            assert forall|k: int| 0 <= k < lcwip.len() implies (#[trigger] offsets[k]).ring() is None by {
                assert(passed_at(cb, lcwip, offsets, lines, k));
            }
        },
        Err(e) => {
            let k = choose|k: int|
                0 <= k < lcwip.len() && #[trigger] failed_at(cb, lcwip, offsets, lines, k, e)
                    && forall|j: int|
                    0 <= j < k ==> #[trigger] passed_at(cb, lcwip, offsets, lines, j);
            assert forall|j: int| 0 <= j < k implies (#[trigger] offsets[j]).ring() is None by {
                assert(passed_at(cb, lcwip, offsets, lines, j));
            }
        },
    }
}

/// Joins the routes with the candidates. The index over the candidates is
/// built once. Then, for each route in turn: a route whose offset curves give
/// no corridor is passed over; for any other, the callback gets the route,
/// its corridor's ring and the positions in `pct` of the candidates that
/// cross the corridor. The first failure of the callback ends the join and
/// is returned as it is.
pub fn spatial_join<E, F: Fn(&LCWIP, &Vec<Coord>, Vec<usize>) -> Result<(), E>>(
    lcwip: &Vec<LCWIP>,
    offsets: &Vec<OffsetCurves>,
    pct: &Vec<PCT>,
    cb: F,
) -> (r: Result<(), E>)
    requires
        joinable(lcwip@, offsets@, pct@),
        forall|route: &LCWIP, corridor: &Vec<Coord>, matches: Vec<usize>|
            is_match_list(matches@, corridor@, candidate_lines(pct@)) ==> #[trigger] call_requires(
                cb,
                (route, corridor, matches),
            ),
    ensures
        joined(cb, lcwip@, offsets@, candidate_lines(pct@), r),
{
    let index = SegmentIndex::build(pct);
    let ghost lines = candidate_lines(pct@);
    let mut k: usize = 0;
    while k < lcwip.len()
        invariant
            k <= lcwip.len(),
            joinable(lcwip@, offsets@, pct@),
            lines == candidate_lines(pct@),
            index.lines() == lines,
            forall|route: &LCWIP, corridor: &Vec<Coord>, matches: Vec<usize>|
                is_match_list(matches@, corridor@, lines) ==> #[trigger] call_requires(
                    cb,
                    (route, corridor, matches),
                ),
            forall|j: int|
                0 <= j < k ==> #[trigger] passed_at(cb, lcwip@, offsets@, lines, j),
        decreases lcwip.len() - k,
    {
        let curves = &offsets[k];
        assert(curves.is_finite());
        match buffer_linestring(&curves.left, &curves.right) {
            None => {
                assert(passed_at(cb, lcwip@, offsets@, lines, k as int));
            },
            Some(ring) => {
                assert(offsets@[k as int].ring() == Some(ring@));
                proof {
                    lemma_ring_is_finite(curves.left.unwrap()@, curves.right.unwrap()@);
                }
                let matches = matches_for(&index, &ring, pct);
                let ghost handed = matches;
                let out = cb(&lcwip[k], &ring, matches);
                assert(handled(cb, lcwip@[k as int], ring@, lines, out)) by {
                    assert(call_ensures(cb, (&lcwip@[k as int], &ring, handed), out));
                }
                match out {
                    Ok(_) => {
                        assert(offsets@[k as int].ring()->Some_0 == ring@);
                        assert(exists|o: Result<(), E>|
                            o is Ok && #[trigger] handled(cb, lcwip@[k as int], ring@, lines, o));
                        assert(passed_at(cb, lcwip@, offsets@, lines, k as int));
                    },
                    Err(e) => {
                        assert(failed_at(cb, lcwip@, offsets@, lines, k as int, e));
                        return Err(e);
                    },
                }
            },
        }
        k += 1;
    }
    Ok(())
}

/// The positions, in rising order, of the first `n` routes whose offset
/// curves give a corridor.
pub open spec fn buffered_routes(offsets: Seq<OffsetCurves>, n: nat) -> Seq<int>
    decreases n,
{
    if n == 0 {
        Seq::empty()
    } else if offsets[n - 1].ring() is Some {
        buffered_routes(offsets, (n - 1) as nat).push(n - 1)
    } else {
        buffered_routes(offsets, (n - 1) as nat)
    }
}

/// The `baseline` of each listed candidate, in the list's order.
pub open spec fn baselines_of(matches: Seq<usize>, pct: Seq<PCT>) -> Seq<usize> {
    Seq::new(matches.len(), |a: int| pct[matches[a] as int].baseline)
}

/// `result` is what the join reports for `route`, whose corridor is made of
/// `ring`: the route's identifier, and the baselines of a match list of that
/// corridor.
pub open spec fn is_result_for(result: JoinResult, route: LCWIP, ring: Seq<Coord>, pct: Seq<PCT>) -> bool {
    &&& result.feature_id == route.id
    &&& exists|matches: Seq<usize>|
        is_match_list(matches, ring, candidate_lines(pct)) && #[trigger] baselines_of(matches, pct)
            == result.matching_baseline_values@
}

/// `result` is what the join reports for route `k`, which has a corridor.
pub open spec fn is_result_at(
    result: JoinResult,
    lcwip: Seq<LCWIP>,
    offsets: Seq<OffsetCurves>,
    pct: Seq<PCT>,
    k: int,
) -> bool {
    &&& 0 <= k < lcwip.len()
    &&& offsets[k].ring() matches Some(ring) && is_result_for(result, lcwip[k], ring, pct)
}

/// The `baseline` of each candidate that `matches` lists, in that order.
pub fn baselines(matches: &Vec<usize>, pct: &Vec<PCT>) -> (values: Vec<usize>)
    requires
        forall|a: int| 0 <= a < matches@.len() ==> (#[trigger] matches@[a]) < pct@.len(),
    ensures
        values@ == baselines_of(matches@, pct@),
{
    let mut values: Vec<usize> = Vec::new();
    let mut a: usize = 0;
    while a < matches.len()
        invariant
            a <= matches.len(),
            forall|b: int| 0 <= b < matches@.len() ==> (#[trigger] matches@[b]) < pct@.len(),
            values@.len() == a,
            forall|b: int| 0 <= b < a ==> values@[b] == pct@[matches@[b] as int].baseline,
        decreases matches.len() - a,
    {
        values.push(pct[matches[a]].baseline);
        a += 1;
    }
    assert(values@ =~= baselines_of(matches@, pct@));
    values
}

/// Joins the routes with the candidates and collects one result for each
/// route that has a corridor, in the routes' order. A route whose offset
/// curves give no corridor is passed over and the join goes on.
pub fn join_results(lcwip: &Vec<LCWIP>, offsets: &Vec<OffsetCurves>, pct: &Vec<PCT>) -> (results:
    Vec<JoinResult>)
    requires
        joinable(lcwip@, offsets@, pct@),
    ensures
        results@.len() == buffered_routes(offsets@, offsets@.len()).len(),
        forall|j: int|
            0 <= j < results@.len() ==> #[trigger] is_result_at(
                results@[j],
                lcwip@,
                offsets@,
                pct@,
                buffered_routes(offsets@, offsets@.len())[j],
            ),
{
    let index = SegmentIndex::build(pct);
    let mut results: Vec<JoinResult> = Vec::new();
    let mut k: usize = 0;
    while k < lcwip.len()
        invariant
            k <= lcwip.len(),
            joinable(lcwip@, offsets@, pct@),
            index.lines() == candidate_lines(pct@),
            results@.len() == buffered_routes(offsets@, k as nat).len(),
            forall|j: int|
                0 <= j < results@.len() ==> #[trigger] is_result_at(
                    results@[j],
                    lcwip@,
                    offsets@,
                    pct@,
                    buffered_routes(offsets@, k as nat)[j],
                ),
        decreases lcwip.len() - k,
    {
        let curves = &offsets[k];
        assert(curves.is_finite());
        let ghost before = results@;
        match buffer_linestring(&curves.left, &curves.right) {
            None => {
                assert(offsets@[k as int].ring() is None);
            },
            Some(ring) => {
                assert(offsets@[k as int].ring() == Some(ring@));
                proof {
                    lemma_ring_is_finite(curves.left.unwrap()@, curves.right.unwrap()@);
                }
                let matches = matches_for(&index, &ring, pct);
                proof {
                    assert forall|a: int| 0 <= a < matches@.len() implies (#[trigger] matches@[a])
                        < pct@.len() by {
                        assert(matches@.contains(matches@[a]));
                    }
                }
                let values = baselines(&matches, pct);
                let result = JoinResult { feature_id: lcwip[k].id, matching_baseline_values: values };
                assert(is_result_for(result, lcwip@[k as int], ring@, pct@)) by {
                    assert(baselines_of(matches@, pct@) == result.matching_baseline_values@);
                }
                results.push(result);
            },
        }
        proof {
            let now = buffered_routes(offsets@, (k + 1) as nat);
            let earlier = buffered_routes(offsets@, k as nat);
            assert forall|j: int| 0 <= j < results@.len() implies #[trigger] is_result_at(
                results@[j],
                lcwip@,
                offsets@,
                pct@,
                now[j],
            ) by {
                if j < before.len() {
                    assert(results@[j] == before[j]);
                    assert(now[j] == earlier[j]);
                    assert(is_result_at(before[j], lcwip@, offsets@, pct@, earlier[j]));
                } else {
                    assert(now[j] == k);
                }
            }
        }
        k += 1;
    }
    assert(k as nat == offsets@.len());
    results
}

/// Degenerate skip: a route is among those that get a result exactly when
/// its offset curves give a corridor, whatever the routes before it did; and
/// the routes that get one are listed in rising order.
pub proof fn lemma_buffered_routes(offsets: Seq<OffsetCurves>, n: nat)
    requires
        n <= offsets.len(),
    ensures
        forall|k: int|
            #![trigger buffered_routes(offsets, n).contains(k)]
            #![trigger offsets[k]]
            buffered_routes(offsets, n).contains(k) <==> 0 <= k < n && offsets[k].ring() is Some,
        forall|a: int, b: int|
            0 <= a < b < buffered_routes(offsets, n).len() ==> buffered_routes(offsets, n)[a]
                < buffered_routes(offsets, n)[b],
    decreases n,
{
    if n > 0 {
        let m = (n - 1) as nat;
        lemma_buffered_routes(offsets, m);
        let rest = buffered_routes(offsets, m);
        let all = buffered_routes(offsets, n);
        assert forall|j: int| 0 <= j < rest.len() implies #[trigger] rest[j] < m by {
            assert(rest.contains(rest[j]));
        }
        if offsets[n - 1].ring() is Some {
            assert(all[rest.len() as int] == n - 1);
            assert forall|k: int|
                #![trigger all.contains(k)]
                #![trigger offsets[k]]
                all.contains(k) <==> 0 <= k < n && offsets[k].ring() is Some by {
                if all.contains(k) {
                    let j = all.index_of(k);
                    if j < rest.len() {
                        assert(rest[j] == k);
                        assert(rest.contains(k));
                    }
                }
                if 0 <= k < n && offsets[k].ring() is Some {
                    if k < m {
                        assert(rest.contains(k));
                        let j = rest.index_of(k);
                        assert(all[j] == k);
                    }
                }
            }
        }
    }
}

/// Determinism: two match lists of one corridor over the same candidates
/// hold the same positions and are equally long; only their order can differ.
pub proof fn lemma_match_lists_agree(
    first: Seq<usize>,
    second: Seq<usize>,
    ring: Seq<Coord>,
    lines: Seq<Seq<Coord>>,
)
    requires
        is_match_list(first, ring, lines),
        is_match_list(second, ring, lines),
    ensures
        first.to_set() == second.to_set(),
        first.len() == second.len(),
        first.to_multiset() == second.to_multiset(),
{
    assert(first.to_set() =~= second.to_set());
    first.unique_seq_to_set();
    second.unique_seq_to_set();
    assert forall|i: usize| first.to_multiset().count(i) == second.to_multiset().count(i) by {
        first.lemma_multiset_has_no_duplicates();
        second.lemma_multiset_has_no_duplicates();
        vstd::seq_lib::to_multiset_contains(first, i);
        vstd::seq_lib::to_multiset_contains(second, i);
    }
    assert(first.to_multiset() =~= second.to_multiset());
}

} // verus!
