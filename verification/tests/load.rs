use corridor_join::geometry::Coord;
use corridor_join::index::{exact_matches, SegmentIndex};
use corridor_join::geometry::PCT;
use corridor_join::load::{load_lcwip, load_pct, Admission, CandidateInput, RouteInput};
use corridor_join::reproject::{Direction, ProjectionError};

fn q(x: f64, y: f64) -> Coord {
    Coord { x_bits: x.to_bits(), y_bits: y.to_bits() }
}

fn failure() -> ProjectionError {
    ProjectionError { direction: Direction::ToPlanar, coord: q(120.0, 10.0) }
}

#[test]
fn route_admission_looks_at_id_then_geometry_then_transform() {
    let line = vec![q(0.0, 0.0), q(1.0, 1.0)];
    let r = RouteInput { id: Some(4), line: Some(Ok(line.clone())) };
    assert_eq!(r.decide(), Admission::Admitted);
    let r = RouteInput { id: None, line: Some(Ok(line.clone())) };
    assert_eq!(r.decide(), Admission::NoNumericId);
    let r = RouteInput { id: None, line: None };
    assert_eq!(r.decide(), Admission::NoNumericId);
    let r = RouteInput { id: None, line: Some(Err(failure())) };
    assert_eq!(r.decide(), Admission::NoNumericId);
    let r = RouteInput { id: Some(4), line: None };
    assert_eq!(r.decide(), Admission::NotALine);
    let r = RouteInput { id: Some(4), line: Some(Err(failure())) };
    assert_eq!(r.decide(), Admission::NotProjected);
}

#[test]
fn routes_are_admitted_in_order_and_the_rest_counted() {
    let a = vec![q(0.0, 0.0), q(1.0, 1.0)];
    let b = vec![q(5.0, 5.0), q(6.0, 6.0), q(7.0, 7.0)];
    let inputs = vec![
        RouteInput { id: None, line: Some(Ok(a.clone())) },
        RouteInput { id: Some(10), line: Some(Ok(a.clone())) },
        RouteInput { id: Some(11), line: None },
        RouteInput { id: Some(12), line: Some(Err(failure())) },
        RouteInput { id: Some(13), line: Some(Ok(b.clone())) },
        RouteInput { id: Some(14), line: Some(Err(failure())) },
        RouteInput { id: Some(15), line: Some(Ok(Vec::new())) },
    ];
    let load = load_lcwip(&inputs);
    assert_eq!(load.without_id, 1);
    assert_eq!(load.not_lines, 1);
    assert_eq!(load.not_projected, 2);
    assert_eq!(load.routes.len(), 3);
    assert_eq!(load.routes[0].id, 10);
    assert_eq!(load.routes[0].geometry, a);
    assert_eq!(load.routes[1].id, 13);
    assert_eq!(load.routes[1].geometry, b);
    assert_eq!(load.routes[2].id, 15);
    assert_eq!(load.routes[2].geometry, Vec::new());
}

#[test]
fn loading_no_routes_gives_none() {
    let load = load_lcwip(&Vec::new());
    assert_eq!(load.routes.len(), 0);
    assert_eq!((load.without_id, load.not_lines, load.not_projected), (0, 0, 0));
}

#[test]
fn candidates_are_admitted_in_order_and_the_rest_counted() {
    let a = vec![q(0.0, 0.0), q(1.0, 1.0)];
    let b = vec![q(5.0, 5.0), q(6.0, 6.0)];
    let inputs = vec![
        CandidateInput { line: Ok(a.clone()), baseline: 3 },
        CandidateInput { line: Err(failure()), baseline: 4 },
        CandidateInput { line: Ok(b.clone()), baseline: 5 },
    ];
    let load = load_pct(&inputs);
    assert_eq!(load.not_projected, 1);
    assert_eq!(load.candidates.len(), 2);
    assert_eq!(load.candidates[0].geometry, a);
    assert_eq!(load.candidates[0].baseline, 3);
    assert_eq!(load.candidates[1].geometry, b);
    assert_eq!(load.candidates[1].baseline, 5);
    assert_eq!(load_pct(&Vec::new()).candidates.len(), 0);
}

#[test]
fn degenerate_geometry_is_taken_without_a_match() {
    let pct = vec![
        PCT { geometry: Vec::new(), baseline: 1 },
        PCT { geometry: vec![q(1.0, 1.0)], baseline: 2 },
        PCT { geometry: vec![q(0.0, 0.0), q(10.0, 10.0)], baseline: 3 },
    ];
    let index = SegmentIndex::build(&pct);
    let square = vec![q(0.0, 0.0), q(4.0, 0.0), q(4.0, 4.0), q(0.0, 4.0)];
    let hits = index.query_envelope(&square);
    let found = exact_matches(&square, &pct, &hits);
    assert!(found.contains(&2));
    assert!(!found.contains(&0));
    for ring in [Vec::new(), vec![q(2.0, 2.0)], vec![q(0.0, 0.0), q(3.0, 3.0)]] {
        let hits = index.query_envelope(&ring);
        let found = exact_matches(&ring, &pct, &hits);
        assert!(found.len() <= hits.len());
        assert!(found.iter().all(|i| hits.contains(i)));
    }
}
