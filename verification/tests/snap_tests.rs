// Coordinates are millipixels: 1 canvas pixel = 1000 units.
use vectra_engine::snap::GuideKind;
use vectra_engine::snap::Orientation;
use vectra_engine::spatial::LayoutEngine;
use vectra_engine::SimpleRect;

fn rect(x: i64, y: i64, w: i64, h: i64) -> SimpleRect {
    SimpleRect { x, y, w, h }
}

#[test]
fn fresh_engine_finds_nothing() {
    let engine = LayoutEngine::new();
    let r = engine.query_snapping(10_000, 20_000, 50_000, 50_000, 5_000);
    assert_eq!(r.x, 10_000);
    assert_eq!(r.y, 20_000);
    assert!(r.guides.is_empty());
}

#[test]
fn snap_to_left_edge_of_second_sibling() {
    // Siblings at (0,0), (200,0), (400,0), each 100x100; dragging a
    // 100x100 rect at (198,0) with a 5px threshold snaps to x = 200 and
    // emits one vertical guide at 200 spanning y in [0, 100].
    let mut engine = LayoutEngine::new();
    engine.update_rects(vec![
        rect(0, 0, 100_000, 100_000),
        rect(200_000, 0, 100_000, 100_000),
        rect(400_000, 0, 100_000, 100_000),
    ]);
    let r = engine.query_snapping(198_000, 0, 100_000, 100_000, 5_000);
    assert_eq!(r.x, 200_000);
    assert_eq!(r.y, 0);
    let vertical: Vec<_> = r.guides.iter().filter(|g| g.orientation == Orientation::Vertical)
        .collect();
    assert_eq!(vertical.len(), 1);
    assert_eq!(vertical[0].pos, 200_000);
    assert_eq!(vertical[0].start, 0);
    assert_eq!(vertical[0].end, 100_000);
    assert_eq!(vertical[0].guide_type, GuideKind::Align);
    // The Y axis is already aligned with the matched sibling's top edge,
    // so a zero-delta horizontal guide follows the vertical one.
    assert_eq!(r.guides.len(), 2);
    assert_eq!(r.guides[0].orientation, Orientation::Vertical);
    assert_eq!(r.guides[1].orientation, Orientation::Horizontal);
    assert_eq!(r.guides[1].pos, 0);
    assert_eq!(r.guides[1].start, 200_000);
    assert_eq!(r.guides[1].end, 300_000);
}

#[test]
fn snap_is_idempotent_at_the_snapped_position() {
    let mut engine = LayoutEngine::new();
    engine.update_rects(vec![
        rect(0, 0, 100_000, 100_000),
        rect(200_000, 0, 100_000, 100_000),
        rect(400_000, 0, 100_000, 100_000),
    ]);
    let first = engine.query_snapping(198_000, 0, 100_000, 100_000, 5_000);
    let again = engine.query_snapping(first.x, first.y, 100_000, 100_000, 5_000);
    assert_eq!(again.x, first.x);
    assert_eq!(again.y, first.y);
    assert_eq!(again.guides, first.guides);
}

#[test]
fn no_candidate_within_threshold_leaves_position_unchanged() {
    let mut engine = LayoutEngine::new();
    engine.update_rects(vec![rect(0, 0, 100_000, 100_000)]);
    let r = engine.query_snapping(500_000, 777_000, 50_000, 50_000, 5_000);
    assert_eq!(r.x, 500_000);
    assert_eq!(r.y, 777_000);
    assert!(r.guides.is_empty());
}

#[test]
fn snap_closes_center_gap_exactly() {
    // Center-to-center: sibling center at 50px; dragged 30px-wide rect at
    // 38px has center 53px, within 5px, so x moves to 35px exactly.
    let mut engine = LayoutEngine::new();
    engine.update_rects(vec![rect(0, 300_000, 100_000, 100_000)]);
    let r = engine.query_snapping(38_000, 300_000, 30_000, 100_000, 5_000);
    assert_eq!(r.x, 35_000);
}

#[test]
fn rect_spanning_many_cells_is_reported_once() {
    // One 400x400 px rectangle spans several 50px-minimum grid cells; a
    // query overlapping many of them still sees the index exactly once.
    let mut engine = LayoutEngine::new();
    engine.update_rects(vec![rect(0, 0, 400_000, 400_000)]);
    let candidates = engine.query_candidates(10_000, 10_000, 350_000, 350_000, 5_000);
    assert_eq!(candidates, vec![0]);
}

#[test]
fn query_respects_first_encounter_order() {
    // Two stacked siblings: both are candidates, each exactly once.
    let mut engine = LayoutEngine::new();
    engine.update_rects(vec![rect(0, 0, 100_000, 100_000), rect(0, 120_000, 100_000, 100_000)]);
    let candidates = engine.query_candidates(10_000, 10_000, 100_000, 200_000, 5_000);
    assert_eq!(candidates, vec![0, 1]);
}

#[test]
fn update_rects_replaces_the_index() {
    let mut engine = LayoutEngine::new();
    engine.update_rects(vec![rect(200_000, 0, 100_000, 100_000)]);
    engine.update_rects(vec![rect(900_000, 900_000, 100_000, 100_000)]);
    // The old sibling is gone: nothing near x = 198 px snaps.
    let r = engine.query_snapping(198_000, 0, 100_000, 100_000, 5_000);
    assert_eq!(r.x, 198_000);
    assert!(r.guides.is_empty());
}
