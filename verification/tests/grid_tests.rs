// Coordinates are millipixels: 1 canvas pixel = 1000 units.
use vectra_engine::cluster::dedup_coords;
use vectra_engine::cluster::find_coord_idx;
use vectra_engine::grid::absolute_to_grid;
use vectra_engine::grid::GridError;
use vectra_engine::grid::GridInputNode;
use vectra_engine::numfmt::dec_string;

fn node(id: &str, x: i64, y: i64, w: i64, h: i64) -> GridInputNode {
    GridInputNode { id: String::from(id), x, y, w, h }
}

#[test]
fn cluster_boundary_inclusive() {
    // 3.9px apart: one merged line at the mean; 4.1px apart: two lines.
    let merged = dedup_coords(vec![0, 3_900]);
    assert_eq!(merged, vec![1_950]);
    let split = dedup_coords(vec![0, 4_100]);
    assert_eq!(split, vec![0, 4_100]);
}

#[test]
fn cluster_exact_tolerance_merges() {
    let merged = dedup_coords(vec![0, 4_000]);
    assert_eq!(merged, vec![2_000]);
}

#[test]
fn cluster_running_mean_prevents_drift() {
    // Each value is within 4px of the running mean, so all but the last
    // join one group; the mean tracks the spread.
    let lines = dedup_coords(vec![99_000, 101_000, 103_000, 105_000, 107_000]);
    assert_eq!(lines, vec![102_000, 107_000]);
}

#[test]
fn cluster_unsorted_input_is_sorted_first() {
    let lines = dedup_coords(vec![50_000, 0, 100_000]);
    assert_eq!(lines, vec![0, 50_000, 100_000]);
}

#[test]
fn nearest_index_ties_take_lowest() {
    let breaks = vec![0, 10_000];
    assert_eq!(find_coord_idx(&breaks, 5_000), 0);
    assert_eq!(find_coord_idx(&breaks, 5_001), 1);
    assert_eq!(find_coord_idx(&breaks, 4_999), 0);
}

#[test]
fn decimal_rendering() {
    assert_eq!(dec_string(0), "0");
    assert_eq!(dec_string(7), "7");
    assert_eq!(dec_string(120), "120");
    assert_eq!(dec_string(100_500), "100500");
}

#[test]
fn single_node_grid() {
    // One 100x50 px node: one column track of 100px, one row track of
    // 50px, placement column 1..2, row 1..2.
    let layout = absolute_to_grid(vec![node("a", 5_000, 7_000, 100_000, 50_000)], 1_000_000)
        .unwrap();
    assert_eq!(layout.col_widths_px, vec![100]);
    assert_eq!(layout.row_heights_px, vec![50]);
    assert_eq!(layout.template_columns, "100px");
    assert_eq!(layout.template_rows, "50px");
    assert_eq!(layout.items.len(), 1);
    assert_eq!(layout.items[0].id, "a");
    assert_eq!(layout.items[0].col_start, 1);
    assert_eq!(layout.items[0].col_end, 2);
    assert_eq!(layout.items[0].row_start, 1);
    assert_eq!(layout.items[0].row_end, 2);
}

#[test]
fn close_edges_share_a_line() {
    // Right edge of a (100px) and left edge of b (102px) are 2px apart
    // and merge to one shared line at 101px.
    let layout = absolute_to_grid(
        vec![node("a", 0, 0, 100_000, 50_000), node("b", 102_000, 0, 100_000, 50_000)],
        1_000_000,
    )
        .unwrap();
    assert_eq!(layout.col_widths_px, vec![101, 101]);
    assert_eq!(layout.template_columns, "101px 101px");
    assert_eq!(layout.row_heights_px, vec![50]);
    assert_eq!(layout.items[0].col_start, 1);
    assert_eq!(layout.items[0].col_end, 2);
    assert_eq!(layout.items[1].col_start, 2);
    assert_eq!(layout.items[1].col_end, 3);
}

#[test]
fn distant_edges_stay_separate() {
    // A 10px gap stays a track of its own: three column tracks.
    let layout = absolute_to_grid(
        vec![node("a", 0, 0, 100_000, 50_000), node("c", 110_000, 0, 100_000, 50_000)],
        1_000_000,
    )
        .unwrap();
    assert_eq!(layout.col_widths_px, vec![100, 10, 100]);
    assert_eq!(layout.template_columns, "100px 10px 100px");
    assert_eq!(layout.items[0].col_start, 1);
    assert_eq!(layout.items[0].col_end, 2);
    assert_eq!(layout.items[1].col_start, 3);
    assert_eq!(layout.items[1].col_end, 4);
}

#[test]
fn empty_input_is_rejected() {
    assert!(matches!(absolute_to_grid(vec![], 1_000_000), Err(GridError::InputError)));
}

#[test]
fn degenerate_axis_is_rejected() {
    // A node thinner than the 4px tolerance collapses both X edges into
    // one line: no column track can be formed.
    let r = absolute_to_grid(vec![node("thin", 0, 0, 2_000, 50_000)], 1_000_000);
    assert!(matches!(r, Err(GridError::DegenerateLayoutError)));
}

#[test]
fn track_sizes_round_to_nearest_pixel() {
    // 100.6px wide: rounds to 101.
    let layout = absolute_to_grid(vec![node("a", 0, 0, 100_600, 50_400)], 1_000_000).unwrap();
    assert_eq!(layout.col_widths_px, vec![101]);
    assert_eq!(layout.row_heights_px, vec![50]);
}
