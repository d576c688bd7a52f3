use std::cell::RefCell;

use corridor_join::corridor::{buffer_linestring, OffsetCurves};
use corridor_join::geometry::{Coord, LCWIP, PCT};
use corridor_join::index::{exact_matches, SegmentIndex};
use corridor_join::join::{
    baselines, inputs_are_joinable, join_results, matches_for, spatial_join,
};

fn p(x: f64, y: f64) -> Coord {
    Coord { x_bits: x.to_bits(), y_bits: y.to_bits() }
}

fn segment(x0: f64, y0: f64, x1: f64, y1: f64, baseline: usize) -> PCT {
    PCT { geometry: vec![p(x0, y0), p(x1, y1)], baseline }
}

/// The curves five metres to each side of the line from (x0, y) to (x1, y).
fn level_offsets(x0: f64, x1: f64, y: f64) -> OffsetCurves {
    OffsetCurves {
        left: Some(vec![p(x0, y + 5.0), p(x1, y + 5.0)]),
        right: Some(vec![p(x0, y - 5.0), p(x1, y - 5.0)]),
    }
}

fn level_route(id: u64, x0: f64, x1: f64, y: f64) -> LCWIP {
    LCWIP { geometry: vec![p(x0, y), p(x1, y)], id }
}

/// Three segments that cross the corridor of the line (0,0)-(100,0) and two
/// that lie outside its bounding box.
fn five_candidates() -> Vec<PCT> {
    vec![
        segment(10.0, -20.0, 10.0, 20.0, 11),
        segment(500.0, 500.0, 600.0, 600.0, 12),
        segment(50.0, 0.0, 60.0, 0.0, 13),
        segment(-300.0, -20.0, -200.0, 20.0, 14),
        segment(90.0, 4.0, 200.0, 4.0, 15),
    ]
}

fn sorted(mut v: Vec<usize>) -> Vec<usize> {
    v.sort();
    v
}

#[test]
fn envelope_query_finds_boxes_that_meet() {
    let pct = five_candidates();
    let index = SegmentIndex::build(&pct);
    let ring = buffer_linestring(&level_offsets(0.0, 100.0, 0.0).left, &level_offsets(0.0, 100.0, 0.0).right)
        .unwrap();
    assert_eq!(sorted(index.query_envelope(&ring)), vec![0, 2, 4]);
}

#[test]
fn envelope_query_is_coarser_than_the_exact_test() {
    // A triangle's bounding box holds the segment; the triangle does not.
    let ring = vec![p(0.0, 0.0), p(100.0, 0.0), p(0.0, 100.0)];
    let pct = vec![segment(90.0, 90.0, 95.0, 95.0, 1), segment(10.0, 10.0, 20.0, 20.0, 2)];
    let index = SegmentIndex::build(&pct);
    let hits = index.query_envelope(&ring);
    assert_eq!(sorted(hits.clone()), vec![0, 1]);
    assert_eq!(exact_matches(&ring, &pct, &hits), vec![1]);
    assert_eq!(matches_for(&index, &ring, &pct), vec![1]);
}

#[test]
fn exact_matches_keep_the_order_of_the_hits() {
    let ring = vec![p(0.0, 0.0), p(100.0, 0.0), p(100.0, 100.0), p(0.0, 100.0)];
    let pct = vec![
        segment(10.0, 10.0, 20.0, 20.0, 1),
        segment(200.0, 200.0, 300.0, 300.0, 2),
        segment(-10.0, 50.0, 10.0, 50.0, 3),
        segment(50.0, 50.0, 60.0, 50.0, 4),
    ];
    assert_eq!(exact_matches(&ring, &pct, &vec![3, 1, 0, 2]), vec![3, 0, 2]);
    assert_eq!(exact_matches(&ring, &pct, &vec![1]), Vec::<usize>::new());
    assert_eq!(exact_matches(&ring, &pct, &Vec::new()), Vec::<usize>::new());
}

#[test]
fn full_extent_query_returns_every_candidate() {
    let pct = five_candidates();
    let index = SegmentIndex::build(&pct);
    let everything = vec![p(-1e9, -1e9), p(1e9, -1e9), p(1e9, 1e9), p(-1e9, 1e9)];
    assert_eq!(sorted(index.query_envelope(&everything)), vec![0, 1, 2, 3, 4]);
}

#[test]
fn query_of_an_empty_index_is_empty() {
    let pct: Vec<PCT> = Vec::new();
    let index = SegmentIndex::build(&pct);
    let ring = vec![p(0.0, 0.0), p(1.0, 0.0), p(1.0, 1.0)];
    assert_eq!(index.query_envelope(&ring), Vec::<usize>::new());
    assert_eq!(matches_for(&index, &ring, &pct), Vec::<usize>::new());
}

#[test]
fn index_holds_many_candidates() {
    let mut pct = Vec::new();
    for i in 0..200usize {
        let x = (i as f64) * 10.0;
        pct.push(segment(x, 0.0, x + 1.0, 1.0, i));
    }
    let index = SegmentIndex::build(&pct);
    let ring = vec![p(95.0, -1.0), p(125.0, -1.0), p(125.0, 2.0), p(95.0, 2.0)];
    assert_eq!(sorted(index.query_envelope(&ring)), vec![10, 11, 12]);
    assert_eq!(sorted(matches_for(&index, &ring, &pct)), vec![10, 11, 12]);
}

#[test]
fn baselines_follow_the_match_list() {
    let pct = five_candidates();
    assert_eq!(baselines(&vec![4, 0, 2], &pct), vec![15, 11, 13]);
    assert_eq!(baselines(&Vec::new(), &pct), Vec::<usize>::new());
}

#[test]
fn join_calls_back_once_with_the_crossing_candidates() {
    let lcwip = vec![level_route(7, 0.0, 100.0, 0.0)];
    let offsets = vec![level_offsets(0.0, 100.0, 0.0)];
    let pct = five_candidates();
    let calls: RefCell<Vec<(u64, Vec<Coord>, Vec<usize>)>> = RefCell::new(Vec::new());
    let r: Result<(), String> = spatial_join(&lcwip, &offsets, &pct, |route, ring, found| {
        calls.borrow_mut().push((route.id, ring.clone(), found));
        Ok(())
    });
    assert_eq!(r, Ok(()));
    let calls = calls.into_inner();
    assert_eq!(calls.len(), 1);
    assert_eq!(calls[0].0, 7);
    assert_eq!(calls[0].1, vec![p(100.0, 5.0), p(0.0, 5.0), p(0.0, -5.0), p(100.0, -5.0)]);
    assert_eq!(sorted(calls[0].2.clone()), vec![0, 2, 4]);
}

#[test]
fn join_passes_over_a_route_without_corridor() {
    let lcwip = vec![
        LCWIP { geometry: vec![p(3.0, 3.0), p(3.0, 3.0)], id: 1 },
        level_route(2, 0.0, 100.0, 0.0),
        LCWIP { geometry: vec![p(4.0, 4.0)], id: 3 },
        level_route(4, 400.0, 700.0, 550.0),
    ];
    let offsets = vec![
        OffsetCurves { left: None, right: None },
        level_offsets(0.0, 100.0, 0.0),
        OffsetCurves { left: Some(vec![p(4.0, 4.0)]), right: None },
        level_offsets(400.0, 700.0, 550.0),
    ];
    let pct = five_candidates();
    let seen: RefCell<Vec<u64>> = RefCell::new(Vec::new());
    let r: Result<(), String> = spatial_join(&lcwip, &offsets, &pct, |route, _ring, _found| {
        seen.borrow_mut().push(route.id);
        Ok(())
    });
    assert_eq!(r, Ok(()));
    assert_eq!(seen.into_inner(), vec![2, 4]);

    let results = join_results(&lcwip, &offsets, &pct);
    assert_eq!(results.len(), 2);
    assert_eq!(results[0].feature_id, 2);
    assert_eq!(sorted(results[0].matching_baseline_values.clone()), vec![11, 13, 15]);
    assert_eq!(results[1].feature_id, 4);
    assert_eq!(results[1].matching_baseline_values, vec![12]);
}

#[test]
fn join_stops_at_the_first_failure() {
    let lcwip = vec![
        level_route(1, 0.0, 100.0, 0.0),
        level_route(2, 0.0, 100.0, 50.0),
        level_route(3, 0.0, 100.0, 90.0),
    ];
    let offsets = vec![
        level_offsets(0.0, 100.0, 0.0),
        level_offsets(0.0, 100.0, 50.0),
        level_offsets(0.0, 100.0, 90.0),
    ];
    let pct = five_candidates();
    let calls: RefCell<usize> = RefCell::new(0);
    let r: Result<(), String> = spatial_join(&lcwip, &offsets, &pct, |route, _ring, _found| {
        *calls.borrow_mut() += 1;
        Err(format!("cannot keep the result of route {}", route.id))
    });
    assert_eq!(r, Err(String::from("cannot keep the result of route 1")));
    assert_eq!(calls.into_inner(), 1);
}

#[test]
fn join_stops_at_a_later_failure() {
    let lcwip = vec![
        level_route(1, 0.0, 100.0, 0.0),
        level_route(2, 0.0, 100.0, 50.0),
        level_route(3, 0.0, 100.0, 90.0),
    ];
    let offsets = vec![
        level_offsets(0.0, 100.0, 0.0),
        level_offsets(0.0, 100.0, 50.0),
        level_offsets(0.0, 100.0, 90.0),
    ];
    let pct = five_candidates();
    let seen: RefCell<Vec<u64>> = RefCell::new(Vec::new());
    let r: Result<(), u64> = spatial_join(&lcwip, &offsets, &pct, |route, _ring, _found| {
        seen.borrow_mut().push(route.id);
        if route.id == 2 {
            Err(route.id)
        } else {
            Ok(())
        }
    });
    assert_eq!(r, Err(2));
    assert_eq!(seen.into_inner(), vec![1, 2]);
}

#[test]
fn join_of_no_routes_calls_nothing() {
    let pct = five_candidates();
    let calls: RefCell<usize> = RefCell::new(0);
    let r: Result<(), String> = spatial_join(&Vec::new(), &Vec::new(), &pct, |_route, _ring, _found| {
        *calls.borrow_mut() += 1;
        Ok(())
    });
    assert_eq!(r, Ok(()));
    assert_eq!(calls.into_inner(), 0);
    assert_eq!(join_results(&Vec::new(), &Vec::new(), &pct).len(), 0);
}

#[test]
fn join_reports_a_route_without_matches() {
    let lcwip = vec![level_route(9, 0.0, 100.0, -400.0)];
    let offsets = vec![level_offsets(0.0, 100.0, -400.0)];
    let results = join_results(&lcwip, &offsets, &five_candidates());
    assert_eq!(results.len(), 1);
    assert_eq!(results[0].feature_id, 9);
    assert_eq!(results[0].matching_baseline_values, Vec::<usize>::new());
}

#[test]
fn join_keeps_equal_baselines() {
    let lcwip = vec![level_route(5, 0.0, 100.0, 0.0)];
    let offsets = vec![level_offsets(0.0, 100.0, 0.0)];
    let pct = vec![
        segment(10.0, -20.0, 10.0, 20.0, 8),
        segment(20.0, -20.0, 20.0, 20.0, 8),
        segment(30.0, -20.0, 30.0, 20.0, 3),
    ];
    let results = join_results(&lcwip, &offsets, &pct);
    assert_eq!(results.len(), 1);
    assert_eq!(sorted(results[0].matching_baseline_values.clone()), vec![3, 8, 8]);
}

#[test]
fn two_runs_give_the_same_results() {
    let lcwip = vec![level_route(1, 0.0, 100.0, 0.0), level_route(2, 400.0, 700.0, 550.0)];
    let offsets = vec![level_offsets(0.0, 100.0, 0.0), level_offsets(400.0, 700.0, 550.0)];
    let pct = five_candidates();
    let first = join_results(&lcwip, &offsets, &pct);
    let second = join_results(&lcwip, &offsets, &pct);
    assert_eq!(first.len(), second.len());
    for (a, b) in first.iter().zip(second.iter()) {
        assert_eq!(a.feature_id, b.feature_id);
        assert_eq!(
            sorted(a.matching_baseline_values.clone()),
            sorted(b.matching_baseline_values.clone())
        );
    }
}

#[test]
fn joinable_inputs_are_told_apart() {
    let lcwip = vec![level_route(1, 0.0, 100.0, 0.0)];
    let offsets = vec![level_offsets(0.0, 100.0, 0.0)];
    let pct = five_candidates();
    assert!(inputs_are_joinable(&lcwip, &offsets, &pct));
    assert!(inputs_are_joinable(&Vec::new(), &Vec::new(), &Vec::new()));
    assert!(!inputs_are_joinable(&lcwip, &Vec::new(), &pct));
    let bent = vec![OffsetCurves { left: Some(vec![p(f64::NAN, 0.0)]), right: None }];
    assert!(!inputs_are_joinable(&lcwip, &bent, &pct));
    let bent = vec![OffsetCurves { left: None, right: Some(vec![p(0.0, f64::INFINITY)]) }];
    assert!(!inputs_are_joinable(&lcwip, &bent, &pct));
    let broken = vec![segment(0.0, f64::NAN, 1.0, 1.0, 1)];
    assert!(!inputs_are_joinable(&lcwip, &offsets, &broken));
}
