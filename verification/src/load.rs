//! Admission of features to the working set. Reading the features and
//! transforming their coordinates is done before; what is decided here is
//! which of them the join will see and which are set aside, and why.

use vstd::prelude::*;
use crate::geometry::Coord;
use crate::geometry::LCWIP;
use crate::geometry::PCT;
use crate::reproject::ProjectionError;

verus! {

/// A route feature as it was read.
#[derive(Debug)]
pub struct RouteInput {
    /// The feature's identifier, where it has a numeric one.
    pub id: Option<u64>,
    /// The feature's line in planar coordinates, or the coordinate that could
    /// not be transformed; nothing where the geometry is not a single line.
    pub line: Option<Result<Vec<Coord>, ProjectionError>>,
}

/// A candidate feature as it was read.
#[derive(Debug)]
pub struct CandidateInput {
    /// The feature's line in planar coordinates, or the coordinate that could
    /// not be transformed.
    pub line: Result<Vec<Coord>, ProjectionError>,
    pub baseline: usize,
}

/// What becomes of a feature.
#[derive(Clone, Copy, Debug, PartialEq, Eq, Structural)]
pub enum Admission {
    /// It joins the working set.
    Admitted,
    /// It has no numeric identifier.
    NoNumericId,
    /// Its geometry is not a single line.
    NotALine,
    /// One of its coordinates could not be transformed.
    NotProjected,
}

/// The routes that were admitted, and how many were set aside for each
/// reason.
#[derive(Debug)]
pub struct RouteLoad {
    pub routes: Vec<LCWIP>,
    pub without_id: usize,
    pub not_lines: usize,
    pub not_projected: usize,
}

/// The candidates that were admitted, and how many were set aside.
#[derive(Debug)]
pub struct CandidateLoad {
    pub candidates: Vec<PCT>,
    pub not_projected: usize,
}

impl RouteInput {
    /// What becomes of this route: the identifier is looked at first, then
    /// the geometry, then the transform.
    pub open spec fn admission(self) -> Admission {
        match (self.id, self.line) {
            (None, _) => Admission::NoNumericId,
            (Some(_), None) => Admission::NotALine,
            (Some(_), Some(Err(_))) => Admission::NotProjected,
            (Some(_), Some(Ok(_))) => Admission::Admitted,
        }
    }

    /// The identifier and line of an admitted route.
    pub open spec fn admitted(self) -> (u64, Seq<Coord>)
        recommends
            self.admission() == Admission::Admitted,
    {
        (self.id->Some_0, self.line->Some_0->Ok_0@)
    }

    /// Decides what becomes of this route.
    pub fn decide(&self) -> (r: Admission)
        ensures
            r == self.admission(),
    {
        match (&self.id, &self.line) {
            (None, _) => Admission::NoNumericId,
            (Some(_), None) => Admission::NotALine,
            (Some(_), Some(Err(_))) => Admission::NotProjected,
            (Some(_), Some(Ok(_))) => Admission::Admitted,
        }
    }
}

/// How many of the first `n` routes meet `verdict`.
pub open spec fn count_routes(inputs: Seq<RouteInput>, verdict: Admission, n: nat) -> nat
    decreases n,
{
    if n == 0 {
        0
    } else if inputs[n - 1].admission() == verdict {
        count_routes(inputs, verdict, (n - 1) as nat) + 1
    } else {
        count_routes(inputs, verdict, (n - 1) as nat)
    }
}

/// The identifier and line of each admitted route among the first `n`, in
/// their order.
pub open spec fn admitted_routes(inputs: Seq<RouteInput>, n: nat) -> Seq<(u64, Seq<Coord>)>
    decreases n,
{
    if n == 0 {
        Seq::empty()
    } else if inputs[n - 1].admission() == Admission::Admitted {
        admitted_routes(inputs, (n - 1) as nat).push(inputs[n - 1].admitted())
    } else {
        admitted_routes(inputs, (n - 1) as nat)
    }
}

/// The line and baseline of each candidate among the first `n` whose line
/// was transformed, in their order.
pub open spec fn admitted_candidates(inputs: Seq<CandidateInput>, n: nat) -> Seq<(Seq<Coord>, usize)>
    decreases n,
{
    if n == 0 {
        Seq::empty()
    } else if inputs[n - 1].line is Ok {
        admitted_candidates(inputs, (n - 1) as nat).push(
            (inputs[n - 1].line->Ok_0@, inputs[n - 1].baseline),
        )
    } else {
        admitted_candidates(inputs, (n - 1) as nat)
    }
}

/// The identifier and line of each route.
pub open spec fn route_views(routes: Seq<LCWIP>) -> Seq<(u64, Seq<Coord>)> {
    Seq::new(routes.len(), |i: int| (routes[i].id, routes[i].geometry@))
}

/// The line and baseline of each candidate.
pub open spec fn candidate_views(pct: Seq<PCT>) -> Seq<(Seq<Coord>, usize)> {
    Seq::new(pct.len(), |i: int| (pct[i].geometry@, pct[i].baseline))
}

/// Fewer than `n` of the first `n` routes, or as many, meet a verdict.
pub proof fn lemma_count_routes_bound(inputs: Seq<RouteInput>, verdict: Admission, n: nat)
    ensures
        count_routes(inputs, verdict, n) <= n,
    decreases n,
{
    if n > 0 {
        lemma_count_routes_bound(inputs, verdict, (n - 1) as nat);
    }
}

/// A copy of the line.
fn copy_line(line: &Vec<Coord>) -> (r: Vec<Coord>)
    ensures
        r@ == line@,
{
    let mut out: Vec<Coord> = Vec::new();
    let mut i: usize = 0;
    while i < line.len()
        invariant
            i <= line.len(),
            out@ =~= line@.subrange(0, i as int),
        decreases line.len() - i,
    {
        out.push(line[i]);
        i += 1;
    }
    assert(line@.subrange(0, line@.len() as int) =~= line@);
    out
}

/// Admits the routes that have a numeric identifier, a single line and
/// coordinates that were all transformed. The others are set aside and
/// counted by reason; none of them ends the load.
pub fn load_lcwip(inputs: &Vec<RouteInput>) -> (load: RouteLoad)
    ensures
        route_views(load.routes@) == admitted_routes(inputs@, inputs@.len()),
        load.without_id == count_routes(inputs@, Admission::NoNumericId, inputs@.len()),
        load.not_lines == count_routes(inputs@, Admission::NotALine, inputs@.len()),
        load.not_projected == count_routes(inputs@, Admission::NotProjected, inputs@.len()),
{
    let mut routes: Vec<LCWIP> = Vec::new();
    let mut without_id: usize = 0;
    let mut not_lines: usize = 0;
    let mut not_projected: usize = 0;
    let mut i: usize = 0;
    while i < inputs.len()
        invariant
            i <= inputs.len(),
            route_views(routes@) =~= admitted_routes(inputs@, i as nat),
            without_id == count_routes(inputs@, Admission::NoNumericId, i as nat),
            not_lines == count_routes(inputs@, Admission::NotALine, i as nat),
            not_projected == count_routes(inputs@, Admission::NotProjected, i as nat),
        decreases inputs.len() - i,
    {
        proof {
            lemma_count_routes_bound(inputs@, Admission::NoNumericId, i as nat);
            lemma_count_routes_bound(inputs@, Admission::NotALine, i as nat);
            lemma_count_routes_bound(inputs@, Admission::NotProjected, i as nat);
        }
        let input = &inputs[i];
        match (&input.id, &input.line) {
            (None, _) => {
                without_id += 1;
            },
            (Some(_), None) => {
                not_lines += 1;
            },
            (Some(_), Some(Err(_))) => {
                not_projected += 1;
            },
            (Some(id), Some(Ok(line))) => {
                let ghost before = routes@;
                routes.push(LCWIP { geometry: copy_line(line), id: *id });
                assert(route_views(routes@) =~= route_views(before).push((*id, line@)));
            },
        }
        i += 1;
    }
    RouteLoad { routes, without_id, not_lines, not_projected }
}

/// How many of the first `n` candidates have a coordinate that could not be
/// transformed.
pub open spec fn count_unprojected(inputs: Seq<CandidateInput>, n: nat) -> nat
    decreases n,
{
    if n == 0 {
        0
    } else if inputs[n - 1].line is Err {
        count_unprojected(inputs, (n - 1) as nat) + 1
    } else {
        count_unprojected(inputs, (n - 1) as nat)
    }
}

/// No more than `n` of the first `n` candidates are set aside.
pub proof fn lemma_count_unprojected_bound(inputs: Seq<CandidateInput>, n: nat)
    ensures
        count_unprojected(inputs, n) <= n,
    decreases n,
{
    if n > 0 {
        lemma_count_unprojected_bound(inputs, (n - 1) as nat);
    }
}

/// Admits the candidates whose coordinates were all transformed. The others
/// are set aside and counted; none of them ends the load.
pub fn load_pct(inputs: &Vec<CandidateInput>) -> (load: CandidateLoad)
    ensures
        candidate_views(load.candidates@) == admitted_candidates(inputs@, inputs@.len()),
        load.not_projected == count_unprojected(inputs@, inputs@.len()),
{
    let mut candidates: Vec<PCT> = Vec::new();
    let mut not_projected: usize = 0;
    let mut i: usize = 0;
    while i < inputs.len()
        invariant
            i <= inputs.len(),
            candidate_views(candidates@) =~= admitted_candidates(inputs@, i as nat),
            not_projected == count_unprojected(inputs@, i as nat),
        decreases inputs.len() - i,
    {
        proof {
            lemma_count_unprojected_bound(inputs@, i as nat);
        }
        let input = &inputs[i];
        match &input.line {
            Err(_) => {
                not_projected += 1;
            },
            Ok(line) => {
                let ghost before = candidates@;
                candidates.push(PCT { geometry: copy_line(line), baseline: input.baseline });
                assert(candidate_views(candidates@) =~= candidate_views(before).push(
                    (line@, input.baseline),
                ));
            },
        }
        i += 1;
    }
    CandidateLoad { candidates, not_projected }
}

} // verus!
