//! Absolute-to-grid layout conversion.
//!
//! A set of absolutely positioned rectangles is mapped to a CSS grid
//! descriptor: the left/right and top/bottom edges of all nodes are
//! clustered into canonical lines with a 4-pixel tolerance, consecutive
//! lines become tracks (rounded to whole pixels, at least 1px), and each
//! node is placed at the lines nearest its edges, using 1-based,
//! end-exclusive CSS line numbers.
use vstd::prelude::*;
use crate::cluster::cluster_lines;
use crate::cluster::dedup_coords;
use crate::cluster::find_coord_idx;
use crate::cluster::lemma_cluster_pair;
use crate::cluster::nearest_idx;
use crate::cluster::BREAK_LIMIT;
use crate::cluster::SNAP_TOL;
use crate::numfmt::dec_str;
use crate::numfmt::dec_string;
use crate::COORD_LIMIT;
use crate::MAX_RECTS;

verus! {

/// Input geometry for one canvas node.
pub struct GridInputNode {
    pub id: String,
    /// Left edge, in millipixels.
    pub x: i64,
    /// Top edge, in millipixels.
    pub y: i64,
    /// Width, in millipixels.
    pub w: i64,
    /// Height, in millipixels.
    pub h: i64,
}

impl GridInputNode {
    /// A node the converter can do arithmetic on.
    pub open spec fn in_bounds(self) -> bool {
        &&& -COORD_LIMIT <= self.x <= COORD_LIMIT
        &&& -COORD_LIMIT <= self.y <= COORD_LIMIT
        &&& 0 <= self.w <= COORD_LIMIT
        &&& 0 <= self.h <= COORD_LIMIT
    }
}

/// CSS grid placement for one node; all line numbers are 1-based and the
/// `*_end` lines are exclusive.
pub struct GridItem {
    pub id: String,
    pub col_start: usize,
    pub col_end: usize,
    pub row_start: usize,
    pub row_end: usize,
}

/// Complete grid layout descriptor. Track sizes are whole canvas pixels.
pub struct GridLayout {
    /// CSS `grid-template-columns` value, e.g. `"120px 360px"`.
    pub template_columns: String,
    /// CSS `grid-template-rows` value.
    pub template_rows: String,
    /// Column track widths in pixels, parallel to `template_columns`.
    pub col_widths_px: Vec<i64>,
    /// Row track heights in pixels, parallel to `template_rows`.
    pub row_heights_px: Vec<i64>,
    /// Per-node placements, in input order.
    pub items: Vec<GridItem>,
}

/// Why a conversion failed.
#[derive(Clone, Copy, Debug, PartialEq, Eq, Structural)]
pub enum GridError {
    /// The node list was empty.
    InputError,
    /// An axis clustered to fewer than two canonical lines, so no track
    /// can be formed.
    DegenerateLayoutError,
}

/// The X breakpoints of a node list: left and right edge of each node.
pub open spec fn x_breaks_of(nodes: Seq<GridInputNode>) -> Seq<i64>
    decreases nodes.len(),
{
    if nodes.len() == 0 {
        Seq::empty()
    } else {
        x_breaks_of(nodes.drop_last()) + seq![
            nodes.last().x,
            (nodes.last().x + nodes.last().w) as i64,
        ]
    }
}

/// The Y breakpoints of a node list: top and bottom edge of each node.
pub open spec fn y_breaks_of(nodes: Seq<GridInputNode>) -> Seq<i64>
    decreases nodes.len(),
{
    if nodes.len() == 0 {
        Seq::empty()
    } else {
        y_breaks_of(nodes.drop_last()) + seq![
            nodes.last().y,
            (nodes.last().y + nodes.last().h) as i64,
        ]
    }
}

/// The canonical column lines of a node list.
pub open spec fn grid_cols(nodes: Seq<GridInputNode>) -> Seq<int> {
    cluster_lines(x_breaks_of(nodes), SNAP_TOL as int)
}

/// The canonical row lines of a node list.
pub open spec fn grid_rows(nodes: Seq<GridInputNode>) -> Seq<int> {
    cluster_lines(y_breaks_of(nodes), SNAP_TOL as int)
}

/// A millipixel distance rounded half-up to whole pixels.
pub open spec fn round_px(d: int) -> int {
    (2 * d + 1_000) / 2_000
}

/// The size of track `k`: the distance between consecutive lines, rounded
/// to whole pixels and floored at 1px.
pub open spec fn track_px(lines: Seq<int>, k: int) -> int {
    let r = round_px(lines[k + 1] - lines[k]);
    if r < 1 {
        1
    } else {
        r
    }
}

/// All track sizes of an axis, in line order.
pub open spec fn tracks_of(lines: Seq<int>) -> Seq<int> {
    if lines.len() == 0 {
        Seq::empty()
    } else {
        Seq::new((lines.len() - 1) as nat, |k: int| track_px(lines, k))
    }
}

/// The CSS template string for a list of track sizes: space-joined
/// `"<n>px"` tokens.
pub open spec fn px_tokens(sizes: Seq<int>) -> Seq<char>
    decreases sizes.len(),
{
    if sizes.len() == 0 {
        Seq::empty()
    } else if sizes.len() == 1 {
        dec_str(sizes[0]) + "px"@
    } else {
        px_tokens(sizes.drop_last()) + " "@ + dec_str(sizes.last()) + "px"@
    }
}

/// The placement the converter owes a node, given the canonical lines of
/// both axes.
pub open spec fn item_matches(
    it: GridItem,
    n: GridInputNode,
    cols: Seq<int>,
    rows: Seq<int>,
) -> bool {
    &&& it.id@ == n.id@
    &&& it.col_start as int == nearest_idx(cols, n.x as int) + 1
    &&& it.col_end as int == nearest_idx(cols, n.x + n.w) + 1
    &&& it.row_start as int == nearest_idx(rows, n.y as int) + 1
    &&& it.row_end as int == nearest_idx(rows, n.y + n.h) + 1
}

/// Round a millipixel distance to whole pixels, half-up.
fn round_to_px(d: i64) -> (r: i64)
    requires
        -4_000_000_000_000 <= d <= 4_000_000_000_000,
    ensures
        r as int == round_px(d as int),
{
    let num: i64 = 2 * d + 1_000;
    match num.checked_div_euclid(2_000) {
        Some(q) => q,
        None => {
            proof {
                assert(false);
            }
            0
        },
    }
}

/// Build the space-joined `"<n>px"` template string for an axis.
fn template_string(sizes: &Vec<i64>) -> (r: String)
    requires
        forall|k: int| 0 <= k < sizes@.len() ==> 0 <= #[trigger] sizes@[k] <= 4_000_000_000_000,
    ensures
        r@ == px_tokens(sizes@.map_values(|x: i64| x as int)),
{
    let ghost tks: Seq<int> = sizes@.map_values(|x: i64| x as int);
    let mut s = String::new();
    let mut i: usize = 0;
    while i < sizes.len()
        invariant
            tks == sizes@.map_values(|x: i64| x as int),
            i <= sizes@.len(),
            forall|k: int| 0 <= k < sizes@.len() ==> 0 <= #[trigger] sizes@[k] <= 4_000_000_000_000,
            s@ == px_tokens(tks.take(i as int)),
        decreases sizes@.len() - i,
    {
        proof {
            assert(tks.take(i + 1).drop_last() =~= tks.take(i as int));
            assert(tks.take(i + 1).last() == sizes@[i as int] as int);
        }
        if i > 0 {
            s.append(" ");
        }
        let d = dec_string(sizes[i] as u64);
        s.append(d.as_str());
        s.append("px");
        proof {
            assert(s@ =~= px_tokens(tks.take(i + 1)));
        }
        i = i + 1;
    }
    proof {
        assert(tks.take(sizes@.len() as int) =~= tks);
    }
    s
}

/// Compute the track sizes between consecutive canonical lines.
fn track_sizes(lines: &Vec<i64>) -> (r: Vec<i64>)
    requires
        lines@.len() >= 1,
        forall|k: int| 0 <= k < lines@.len() ==> -BREAK_LIMIT <= #[trigger] lines@[k] <= BREAK_LIMIT,
    ensures
        r@.map_values(|x: i64| x as int) =~= tracks_of(lines@.map_values(|x: i64| x as int)),
        forall|k: int| 0 <= k < r@.len() ==> 1 <= #[trigger] r@[k] <= 4_000_000_000_000,
{
    let ghost ls: Seq<int> = lines@.map_values(|x: i64| x as int);
    let mut r: Vec<i64> = Vec::new();
    let mut k: usize = 0;
    while k < lines.len() - 1
        invariant
            ls == lines@.map_values(|x: i64| x as int),
            lines@.len() >= 1,
            k <= lines@.len() - 1,
            forall|j: int|
                0 <= j < lines@.len() ==> -BREAK_LIMIT <= #[trigger] lines@[j] <= BREAK_LIMIT,
            r@.len() == k,
            forall|j: int| 0 <= j < k ==> #[trigger] r@[j] as int == track_px(ls, j),
            forall|j: int| 0 <= j < r@.len() ==> 1 <= #[trigger] r@[j] <= 4_000_000_000_000,
        decreases lines@.len() - k,
    {
        let delta = lines[k + 1] - lines[k];
        let px = round_to_px(delta);
        let track = if px < 1 {
            1
        } else {
            px
        };
        proof {
            assert(round_px(delta as int) <= 4_000_000_000_000) by {
                assert(2 * (delta as int) + 1_000 <= 8_000_000_000_001_000int);
                assert((2 * (delta as int) + 1_000) / 2_000 <= 8_000_000_000_001_000int / 2_000)
                    by {
                    vstd::arithmetic::div_mod::lemma_div_is_ordered(
                        2 * (delta as int) + 1_000,
                        8_000_000_000_001_000int,
                        2_000,
                    );
                };
            };
            assert(track as int == track_px(ls, k as int));
        }
        r.push(track);
        k = k + 1;
    }
    proof {
        assert(r@.map_values(|x: i64| x as int) =~= tracks_of(ls));
    }
    r
}

/// Convert absolutely positioned nodes to a CSS grid layout.
///
/// The canvas-width hint is accepted for interface parity but does not
/// take part in track sizing, which is in plain pixels.
pub fn absolute_to_grid(nodes: Vec<GridInputNode>, _canvas_width: i64) -> (r: Result<
    GridLayout,
    GridError,
>)
    requires
        nodes@.len() <= MAX_RECTS,
        forall|i: int| 0 <= i < nodes@.len() ==> (#[trigger] nodes@[i]).in_bounds(),
    ensures
        r matches Err(GridError::InputError) <==> nodes@.len() == 0,
        r matches Err(GridError::DegenerateLayoutError) <==> (nodes@.len() > 0 && (grid_cols(
            nodes@,
        ).len() < 2 || grid_rows(nodes@).len() < 2)),
        match r {
            Ok(layout) => {
                &&& grid_cols(nodes@).len() >= 2
                &&& grid_rows(nodes@).len() >= 2
                &&& layout.col_widths_px@.map_values(|x: i64| x as int) == tracks_of(
                    grid_cols(nodes@),
                )
                &&& layout.row_heights_px@.map_values(|x: i64| x as int) == tracks_of(
                    grid_rows(nodes@),
                )
                &&& layout.template_columns@ == px_tokens(tracks_of(grid_cols(nodes@)))
                &&& layout.template_rows@ == px_tokens(tracks_of(grid_rows(nodes@)))
                &&& layout.items@.len() == nodes@.len()
                &&& forall|k: int|
                    0 <= k < nodes@.len() ==> item_matches(
                        #[trigger] layout.items@[k],
                        nodes@[k],
                        grid_cols(nodes@),
                        grid_rows(nodes@),
                    )
            },
            Err(_) => true,
        },
{
    if nodes.len() == 0 {
        return Err(GridError::InputError);
    }
    let mut x_raw: Vec<i64> = Vec::new();
    let mut y_raw: Vec<i64> = Vec::new();
    let mut i: usize = 0;
    while i < nodes.len()
        invariant
            i <= nodes@.len(),
            nodes@.len() <= MAX_RECTS,
            forall|j: int| 0 <= j < nodes@.len() ==> (#[trigger] nodes@[j]).in_bounds(),
            x_raw@ == x_breaks_of(nodes@.take(i as int)),
            y_raw@ == y_breaks_of(nodes@.take(i as int)),
            x_raw@.len() == 2 * i,
            y_raw@.len() == 2 * i,
        decreases nodes@.len() - i,
    {
        proof {
            assert(nodes@.take(i + 1).drop_last() =~= nodes@.take(i as int));
            assert(nodes@.take(i + 1).last() == nodes@[i as int]);
        }
        let n = &nodes[i];
        let ghost xpre: Seq<i64> = x_raw@;
        let ghost ypre: Seq<i64> = y_raw@;
        x_raw.push(n.x);
        x_raw.push(n.x + n.w);
        y_raw.push(n.y);
        y_raw.push(n.y + n.h);
        proof {
            assert(x_raw@ =~= xpre + seq![nodes@[i as int].x, (nodes@[i as int].x + nodes@[i as int].w) as i64]);
            assert(y_raw@ =~= ypre + seq![nodes@[i as int].y, (nodes@[i as int].y + nodes@[i as int].h) as i64]);
        }
        i = i + 1;
    }
    proof {
        assert(nodes@.take(nodes@.len() as int) =~= nodes@);
        assert forall|j: int| 0 <= j < x_raw@.len() implies -BREAK_LIMIT <= #[trigger] x_raw@[j]
            <= BREAK_LIMIT by {
            lemma_x_breaks_bounds(nodes@, j);
        }
        assert forall|j: int| 0 <= j < y_raw@.len() implies -BREAK_LIMIT <= #[trigger] y_raw@[j]
            <= BREAK_LIMIT by {
            lemma_y_breaks_bounds(nodes@, j);
        }
    }
    let x_lines = dedup_coords(x_raw);
    let y_lines = dedup_coords(y_raw);
    if x_lines.len() < 2 || y_lines.len() < 2 {
        return Err(GridError::DegenerateLayoutError);
    }
    let ghost cols: Seq<int> = grid_cols(nodes@);
    let ghost rows: Seq<int> = grid_rows(nodes@);
    let col_widths = track_sizes(&x_lines);
    let row_heights = track_sizes(&y_lines);
    let template_columns = template_string(&col_widths);
    let template_rows = template_string(&row_heights);
    let mut items: Vec<GridItem> = Vec::new();
    let mut k: usize = 0;
    while k < nodes.len()
        invariant
            cols == grid_cols(nodes@),
            rows == grid_rows(nodes@),
            x_lines@.map_values(|x: i64| x as int) == cols,
            y_lines@.map_values(|x: i64| x as int) == rows,
            forall|j: int|
                0 <= j < x_lines@.len() ==> -BREAK_LIMIT <= #[trigger] x_lines@[j] <= BREAK_LIMIT,
            forall|j: int|
                0 <= j < y_lines@.len() ==> -BREAK_LIMIT <= #[trigger] y_lines@[j] <= BREAK_LIMIT,
            x_lines@.len() >= 2,
            y_lines@.len() >= 2,
            x_lines@.len() <= 2 * MAX_RECTS,
            y_lines@.len() <= 2 * MAX_RECTS,
            k <= nodes@.len(),
            nodes@.len() <= MAX_RECTS,
            forall|j: int| 0 <= j < nodes@.len() ==> (#[trigger] nodes@[j]).in_bounds(),
            items@.len() == k,
            forall|j: int|
                0 <= j < k ==> item_matches(#[trigger] items@[j], nodes@[j], cols, rows),
        decreases nodes@.len() - k,
    {
        let n = &nodes[k];
        let col_start = find_coord_idx(&x_lines, n.x) + 1;
        let col_end = find_coord_idx(&x_lines, n.x + n.w) + 1;
        let row_start = find_coord_idx(&y_lines, n.y) + 1;
        let row_end = find_coord_idx(&y_lines, n.y + n.h) + 1;
        items.push(GridItem { id: n.id.clone(), col_start, col_end, row_start, row_end });
        k = k + 1;
    }
    Ok(GridLayout { template_columns, template_rows, col_widths_px: col_widths, row_heights_px: row_heights, items })
}

/// A single node wider and taller than the tolerance yields exactly one
/// column and one row track, the lines sit at its edges, the tracks have
/// its rounded width and height, and its placement is column 1..2,
/// row 1..2.
pub proof fn lemma_single_node_layout(n: GridInputNode)
    requires
        n.in_bounds(),
        n.w > SNAP_TOL,
        n.h > SNAP_TOL,
    ensures
        grid_cols(seq![n]) =~= seq![n.x as int, n.x + n.w],
        grid_rows(seq![n]) =~= seq![n.y as int, n.y + n.h],
        tracks_of(grid_cols(seq![n])) =~= seq![round_px(n.w as int)],
        tracks_of(grid_rows(seq![n])) =~= seq![round_px(n.h as int)],
        nearest_idx(grid_cols(seq![n]), n.x as int) + 1 == 1,
        nearest_idx(grid_cols(seq![n]), n.x + n.w) + 1 == 2,
        nearest_idx(grid_rows(seq![n]), n.y as int) + 1 == 1,
        nearest_idx(grid_rows(seq![n]), n.y + n.h) + 1 == 2,
{
    let right: i64 = (n.x + n.w) as i64;
    let bottom: i64 = (n.y + n.h) as i64;
    assert(seq![n].drop_last() =~= Seq::<GridInputNode>::empty());
    assert(x_breaks_of(Seq::<GridInputNode>::empty()) =~= Seq::<i64>::empty());
    assert(y_breaks_of(Seq::<GridInputNode>::empty()) =~= Seq::<i64>::empty());
    assert(x_breaks_of(seq![n]) =~= seq![n.x, right]);
    assert(y_breaks_of(seq![n]) =~= seq![n.y, bottom]);
    lemma_cluster_pair(n.x, right);
    lemma_cluster_pair(n.y, bottom);
    let cols = grid_cols(seq![n]);
    let rows = grid_rows(seq![n]);
    assert(cols =~= seq![n.x as int, n.x + n.w]);
    assert(rows =~= seq![n.y as int, n.y + n.h]);
    assert(round_px(n.w as int) >= 1) by {
        vstd::arithmetic::div_mod::lemma_fundamental_div_mod(2 * (n.w as int) + 1_000, 2_000);
        vstd::arithmetic::div_mod::lemma_mod_division_less_than_divisor(
            2 * (n.w as int) + 1_000,
            2_000,
        );
    };
    assert(round_px(n.h as int) >= 1) by {
        vstd::arithmetic::div_mod::lemma_fundamental_div_mod(2 * (n.h as int) + 1_000, 2_000);
        vstd::arithmetic::div_mod::lemma_mod_division_less_than_divisor(
            2 * (n.h as int) + 1_000,
            2_000,
        );
    };
    assert(track_px(cols, 0) == round_px(n.w as int));
    assert(track_px(rows, 0) == round_px(n.h as int));
    assert(tracks_of(cols) =~= seq![round_px(n.w as int)]);
    assert(tracks_of(rows) =~= seq![round_px(n.h as int)]);
    assert(cols.drop_last() =~= seq![n.x as int]);
    assert(rows.drop_last() =~= seq![n.y as int]);
    assert(nearest_idx(cols.drop_last(), n.x as int) == 0);
    assert(nearest_idx(cols.drop_last(), n.x + n.w) == 0);
    assert(nearest_idx(rows.drop_last(), n.y as int) == 0);
    assert(nearest_idx(rows.drop_last(), n.y + n.h) == 0);
    assert(nearest_idx(cols, n.x as int) == 0);
    assert(nearest_idx(cols, n.x + n.w) == 1);
    assert(nearest_idx(rows, n.y as int) == 0);
    assert(nearest_idx(rows, n.y + n.h) == 1);
}

/// Every X breakpoint of an in-bounds node list is within `BREAK_LIMIT`.
proof fn lemma_x_breaks_bounds(nodes: Seq<GridInputNode>, j: int)
    requires
        forall|i: int| 0 <= i < nodes.len() ==> (#[trigger] nodes[i]).in_bounds(),
        0 <= j < x_breaks_of(nodes).len(),
    ensures
        -BREAK_LIMIT <= x_breaks_of(nodes)[j] <= BREAK_LIMIT,
    decreases nodes.len(),
{
    if nodes.len() > 0 {
        assert(nodes.last().in_bounds());
        if j < x_breaks_of(nodes.drop_last()).len() {
            lemma_x_breaks_bounds(nodes.drop_last(), j);
        }
    }
}

/// Every Y breakpoint of an in-bounds node list is within `BREAK_LIMIT`.
proof fn lemma_y_breaks_bounds(nodes: Seq<GridInputNode>, j: int)
    requires
        forall|i: int| 0 <= i < nodes.len() ==> (#[trigger] nodes[i]).in_bounds(),
        0 <= j < y_breaks_of(nodes).len(),
    ensures
        -BREAK_LIMIT <= y_breaks_of(nodes)[j] <= BREAK_LIMIT,
    decreases nodes.len(),
{
    if nodes.len() > 0 {
        assert(nodes.last().in_bounds());
        if j < y_breaks_of(nodes.drop_last()).len() {
            lemma_y_breaks_bounds(nodes.drop_last(), j);
        }
    }
}

} // verus!
