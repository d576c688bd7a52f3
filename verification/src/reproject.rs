//! The outcome of moving a coordinate between the geographic system
//! (longitude and latitude) and the national grid (metres).
//!
//! The transform itself is numeric work done outside this library. What is
//! decided here is what becomes of its answer: a coordinate that could not be
//! transformed is reported with the direction that failed, and one such
//! coordinate fails the whole line.

use vstd::prelude::*;
use crate::geometry::Coord;

verus! {

/// The direction of a transform.
#[derive(Clone, Copy, Debug, PartialEq, Eq, Structural)]
pub enum Direction {
    /// From longitude and latitude to the national grid.
    ToPlanar,
    /// From the national grid to longitude and latitude.
    ToGeographic,
}

/// A coordinate that could not be transformed: it lies outside the
/// projection's domain, or the transform did not converge on it.
#[derive(Clone, Copy, Debug, PartialEq, Eq, Structural)]
pub struct ProjectionError {
    pub direction: Direction,
    pub coord: Coord,
}

/// What a transform of `c` in `direction` comes to, given the transform's
/// answer.
pub open spec fn transformed(direction: Direction, c: Coord, converted: Option<Coord>) -> Result<
    Coord,
    ProjectionError,
> {
    match converted {
        Some(p) => Ok(p),
        None => Err(ProjectionError { direction, coord: c }),
    }
}

/// The planar coordinate of the geographic `c`, where `converted` is the
/// transform's answer for it.
pub fn wgs84_to_osgb36(c: Coord, converted: Option<Coord>) -> (r: Result<Coord, ProjectionError>)
    ensures
        r == transformed(Direction::ToPlanar, c, converted),
{
    match converted {
        Some(p) => Ok(p),
        None => Err(ProjectionError { direction: Direction::ToPlanar, coord: c }),
    }
}

/// The geographic coordinate of the planar `c`, where `converted` is the
/// transform's answer for it.
pub fn osgb36_to_wgs84(c: Coord, converted: Option<Coord>) -> (r: Result<Coord, ProjectionError>)
    ensures
        r == transformed(Direction::ToGeographic, c, converted),
{
    match converted {
        Some(p) => Ok(p),
        None => Err(ProjectionError { direction: Direction::ToGeographic, coord: c }),
    }
}

/// The first position of `answers` that holds no coordinate, or the length
/// where every position holds one.
pub open spec fn first_failure(answers: Seq<Option<Coord>>) -> int
    decreases answers.len(),
{
    if answers.len() == 0 {
        0
    } else if answers[0] is None {
        0
    } else {
        1 + first_failure(answers.subrange(1, answers.len() as int))
    }
}

/// What a transform of a whole line comes to: every coordinate transformed,
/// or the error of the first coordinate that could not be.
pub open spec fn line_transformed(
    direction: Direction,
    line: Seq<Coord>,
    answers: Seq<Option<Coord>>,
) -> Result<Seq<Coord>, ProjectionError> {
    let at = first_failure(answers);
    if at == answers.len() {
        Ok(Seq::new(answers.len(), |i: int| answers[i]->Some_0))
    } else {
        Err(ProjectionError { direction, coord: line[at] })
    }
}

/// Where `at` is the first failure: no position before it fails, and it
/// fails itself unless it is the length.
pub proof fn lemma_first_failure(answers: Seq<Option<Coord>>)
    ensures
        0 <= first_failure(answers) <= answers.len(),
        forall|i: int| 0 <= i < first_failure(answers) ==> (#[trigger] answers[i]) is Some,
        first_failure(answers) < answers.len() ==> answers[first_failure(answers)] is None,
    decreases answers.len(),
{
    if answers.len() > 0 && answers[0] is Some {
        let rest = answers.subrange(1, answers.len() as int);
        lemma_first_failure(rest);
        assert forall|i: int| 0 <= i < first_failure(answers) implies (#[trigger] answers[i]) is Some by {
            if i > 0 {
                assert(answers[i] == rest[i - 1]);
            }
        }
        assert(first_failure(answers) < answers.len() ==> answers[first_failure(answers)]
            == rest[first_failure(rest)]);
    }
}

/// Transforms a whole line, given the transform's answer for each of its
/// coordinates: a single coordinate without an answer fails the line, so
/// that no line is ever transformed in part.
pub fn transform_line(direction: Direction, line: &Vec<Coord>, answers: &Vec<Option<Coord>>) -> (r:
    Result<Vec<Coord>, ProjectionError>)
    requires
        answers@.len() == line@.len(),
    ensures
        match r {
            Ok(v) => line_transformed(direction, line@, answers@) == Ok::<
                Seq<Coord>,
                ProjectionError,
            >(v@),
            Err(e) => line_transformed(direction, line@, answers@) == Err::<
                Seq<Coord>,
                ProjectionError,
            >(e),
        },
{
    proof {
        lemma_first_failure(answers@);
    }
    let mut out: Vec<Coord> = Vec::new();
    let mut i: usize = 0;
    while i < answers.len()
        invariant
            i <= answers.len(),
            answers@.len() == line@.len(),
            i <= first_failure(answers@) <= answers@.len(),
            forall|k: int| 0 <= k < first_failure(answers@) ==> (#[trigger] answers@[k]) is Some,
            first_failure(answers@) < answers@.len() ==> answers@[first_failure(answers@)] is None,
            out@.len() == i,
            forall|k: int| 0 <= k < i ==> out@[k] == (#[trigger] answers@[k])->Some_0,
        decreases answers.len() - i,
    {
        match answers[i] {
            Some(p) => {
                assert(i < first_failure(answers@)) by {
                    if i == first_failure(answers@) {
                        assert(answers@[i as int] is None);
                    }
                }
                out.push(p);
            },
            None => {
                assert(first_failure(answers@) == i);
                return Err(ProjectionError { direction, coord: line[i] });
            },
        }
        i += 1;
    }
    assert(out@ =~= Seq::new(answers@.len(), |k: int| answers@[k]->Some_0));
    Ok(out)
}

} // verus!
