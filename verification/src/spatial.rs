//! Uniform-grid spatial hash over 2-D rectangles.
//!
//! The engine keeps the sibling rectangle list and a hash from grid cell to
//! the ascending list of indices of the rectangles whose bounding box
//! overlaps that cell. The cell size is derived from the mean rectangle
//! extent and clamped to [50px, 500px]. A range query enumerates the cells
//! covered by the query box, concatenates their buckets in row-major cell
//! order, and deduplicates indices keeping the first encounter, so a
//! rectangle spanning several cells is reported exactly once.
use vstd::prelude::*;
use vstd::seq_lib::group_seq_properties;
use std::collections::HashMap;
use std::collections::HashSet;
use crate::SimpleRect;
use crate::COORD_LIMIT;
use crate::MAX_RECTS;

verus! {

/// Smallest grid cell size, in millipixels (50 canvas pixels).
pub const CELL_MIN: i64 = 50_000;

/// Largest grid cell size, in millipixels (500 canvas pixels).
pub const CELL_MAX: i64 = 500_000;

/// Cell size used before any rectangles are supplied (100 canvas pixels).
pub const CELL_DEFAULT: i64 = 100_000;

/// Largest magnitude of a grid cell index.
pub const CELL_BOUND: i64 = 100_000_000;

/// The grid cell index that a coordinate falls in: `floor(c / cell)`.
pub open spec fn cell_of(c: int, cell: int) -> int
    recommends
        cell > 0,
{
    c / cell
}

/// Whether the bounding box of `r` overlaps the grid cell `(cx, cy)`.
pub open spec fn covers_cell(r: SimpleRect, cell: int, cx: int, cy: int) -> bool {
    &&& cell_of(r.x as int, cell) <= cx <= cell_of(r.x + r.w, cell)
    &&& cell_of(r.y as int, cell) <= cy <= cell_of(r.y + r.h, cell)
}

/// The hash key of the grid cell `(cx, cy)`: both indices offset to be
/// nonnegative and packed base 2^32.
pub open spec fn cell_key(cx: int, cy: int) -> int {
    (cx + 0x8000_0000) * 0x1_0000_0000 + (cy + 0x8000_0000)
}

/// The ascending list of indices of the rectangles in `rects` that cover
/// the cell `(cx, cy)`.
pub open spec fn covering_indices(rects: Seq<SimpleRect>, cell: int, cx: int, cy: int) -> Seq<
    usize,
>
    decreases rects.len(),
{
    if rects.len() == 0 {
        Seq::empty()
    } else {
        let pre = covering_indices(rects.drop_last(), cell, cx, cy);
        if covers_cell(rects.last(), cell, cx, cy) {
            pre.push((rects.len() - 1) as usize)
        } else {
            pre
        }
    }
}

/// The bucket stored for cell `(cx, cy)`: empty when the map has no entry.
pub open spec fn bucket_of(m: Map<u64, Vec<usize>>, cx: int, cy: int) -> Seq<usize> {
    if m.contains_key(cell_key(cx, cy) as u64) {
        m[cell_key(cx, cy) as u64]@
    } else {
        Seq::empty()
    }
}

/// The buckets of one cell column `(cx, cy_min..=cy_max)`, concatenated in
/// ascending `cy` order.
pub open spec fn col_seq(m: Map<u64, Vec<usize>>, cx: int, cy_min: int, cy_max: int) -> Seq<usize>
    decreases cy_max + 1 - cy_min,
{
    if cy_min > cy_max {
        Seq::empty()
    } else {
        bucket_of(m, cx, cy_min) + col_seq(m, cx, cy_min + 1, cy_max)
    }
}

/// The buckets of a cell rectangle, concatenated in row-major order
/// (ascending `cx`, then ascending `cy`).
pub open spec fn cells_seq(
    m: Map<u64, Vec<usize>>,
    cx_min: int,
    cx_max: int,
    cy_min: int,
    cy_max: int,
) -> Seq<usize>
    decreases cx_max + 1 - cx_min,
{
    if cx_min > cx_max {
        Seq::empty()
    } else {
        col_seq(m, cx_min, cy_min, cy_max) + cells_seq(m, cx_min + 1, cx_max, cy_min, cy_max)
    }
}

/// First-encounter deduplication: keep each value's leftmost occurrence,
/// in order.
pub open spec fn dedup_first(s: Seq<usize>) -> Seq<usize>
    decreases s.len(),
{
    if s.len() == 0 {
        s
    } else {
        let p = dedup_first(s.drop_last());
        if p.contains(s.last()) {
            p
        } else {
            p.push(s.last())
        }
    }
}

/// `dedup_first` keeps exactly the values of its input.
pub proof fn lemma_dedup_first_membership(s: Seq<usize>, v: usize)
    ensures
        dedup_first(s).contains(v) <==> s.contains(v),
    decreases s.len(),
{
    broadcast use group_seq_properties;

    if s.len() > 0 {
        lemma_dedup_first_membership(s.drop_last(), v);
        let p = dedup_first(s.drop_last());
        let d = dedup_first(s);
        if s.contains(v) {
            let i = choose|i: int| 0 <= i < s.len() && s[i] == v;
            if i < s.len() - 1 {
                assert(s.drop_last()[i] == v);
                assert(s.drop_last().contains(v));
                let k = choose|k: int| 0 <= k < p.len() && p[k] == v;
                assert(d[k] == v);
                assert(d.contains(v));
            } else {
                if p.contains(s.last()) {
                    assert(d.contains(v));
                } else {
                    assert(d[d.len() - 1] == v);
                    assert(d.contains(v));
                }
            }
        }
        if d.contains(v) {
            let k = choose|k: int| 0 <= k < d.len() && d[k] == v;
            if k < p.len() {
                assert(p.contains(v));
                assert(s.drop_last().contains(v));
                let i = choose|i: int| 0 <= i < s.drop_last().len() && s.drop_last()[i] == v;
                assert(s[i] == v);
                assert(s.contains(v));
            } else {
                assert(v == s.last());
                assert(s[s.len() - 1] == v);
                assert(s.contains(v));
            }
        }
    }
}

/// `dedup_first` yields no duplicates.
pub proof fn lemma_dedup_first_no_dups(s: Seq<usize>)
    ensures
        forall|i: int, j: int|
            0 <= i < j < dedup_first(s).len() ==> dedup_first(s)[i] != dedup_first(s)[j],
    decreases s.len(),
{
    if s.len() > 0 {
        lemma_dedup_first_no_dups(s.drop_last());
        let p = dedup_first(s.drop_last());
        if !p.contains(s.last()) {
            assert forall|i: int, j: int|
                0 <= i < j < dedup_first(s).len() implies dedup_first(s)[i] != dedup_first(
                s,
            )[j] by {
                if j == dedup_first(s).len() - 1 {
                    assert(dedup_first(s)[i] == p[i]);
                    assert(p.contains(p[i]));
                }
            }
        }
    }
}

/// Splitting one cell column at its last cell.
proof fn lemma_col_seq_split(m: Map<u64, Vec<usize>>, cx: int, cy_min: int, cy: int)
    requires
        cy_min <= cy,
    ensures
        col_seq(m, cx, cy_min, cy) =~= col_seq(m, cx, cy_min, cy - 1) + bucket_of(m, cx, cy),
    decreases cy + 1 - cy_min,
{
    if cy_min == cy {
        assert(col_seq(m, cx, cy_min + 1, cy) =~= Seq::empty());
        assert(col_seq(m, cx, cy_min, cy - 1) =~= Seq::empty());
    } else {
        lemma_col_seq_split(m, cx, cy_min + 1, cy);
        assert(col_seq(m, cx, cy_min, cy) == bucket_of(m, cx, cy_min) + col_seq(
            m,
            cx,
            cy_min + 1,
            cy,
        ));
        assert(col_seq(m, cx, cy_min, cy - 1) == bucket_of(m, cx, cy_min) + col_seq(
            m,
            cx,
            cy_min + 1,
            cy - 1,
        ));
    }
}

/// Splitting a cell rectangle at its last column.
proof fn lemma_cells_seq_split(
    m: Map<u64, Vec<usize>>,
    cx_min: int,
    cx: int,
    cy_min: int,
    cy_max: int,
)
    requires
        cx_min <= cx,
    ensures
        cells_seq(m, cx_min, cx, cy_min, cy_max) =~= cells_seq(m, cx_min, cx - 1, cy_min, cy_max)
            + col_seq(m, cx, cy_min, cy_max),
    decreases cx + 1 - cx_min,
{
    if cx_min == cx {
        assert(cells_seq(m, cx_min + 1, cx, cy_min, cy_max) =~= Seq::empty());
        assert(cells_seq(m, cx_min, cx - 1, cy_min, cy_max) =~= Seq::empty());
    } else {
        lemma_cells_seq_split(m, cx_min + 1, cx, cy_min, cy_max);
        assert(cells_seq(m, cx_min, cx, cy_min, cy_max) == col_seq(m, cx_min, cy_min, cy_max)
            + cells_seq(m, cx_min + 1, cx, cy_min, cy_max));
        assert(cells_seq(m, cx_min, cx - 1, cy_min, cy_max) == col_seq(m, cx_min, cy_min, cy_max)
            + cells_seq(m, cx_min + 1, cx - 1, cy_min, cy_max));
    }
}

/// A column concatenation holds a value exactly when some bucket in the
/// column holds it.
proof fn lemma_col_seq_membership(
    m: Map<u64, Vec<usize>>,
    cx: int,
    cy_min: int,
    cy_max: int,
    v: usize,
)
    ensures
        col_seq(m, cx, cy_min, cy_max).contains(v) <==> exists|cy: int|
            cy_min <= cy <= cy_max && #[trigger] bucket_of(m, cx, cy).contains(v),
    decreases cy_max + 1 - cy_min,
{
    broadcast use group_seq_properties;

    if cy_min <= cy_max {
        lemma_col_seq_membership(m, cx, cy_min + 1, cy_max, v);
        let s = col_seq(m, cx, cy_min, cy_max);
        let b = bucket_of(m, cx, cy_min);
        let rest = col_seq(m, cx, cy_min + 1, cy_max);
        if s.contains(v) {
            let i = choose|i: int| 0 <= i < s.len() && s[i] == v;
            if i < b.len() {
                assert(b[i] == v);
                assert(b.contains(v));
            } else {
                assert(rest[i - b.len()] == v);
                assert(rest.contains(v));
            }
        }
        if exists|cy: int| cy_min <= cy <= cy_max && #[trigger] bucket_of(m, cx, cy).contains(v) {
            let cy = choose|cy: int|
                cy_min <= cy <= cy_max && #[trigger] bucket_of(m, cx, cy).contains(v);
            if cy == cy_min {
                let i = choose|i: int| 0 <= i < b.len() && b[i] == v;
                assert(s[i] == v);
                assert(s.contains(v));
            } else {
                assert(rest.contains(v));
                let i = choose|i: int| 0 <= i < rest.len() && rest[i] == v;
                assert(s[b.len() + i] == v);
                assert(s.contains(v));
            }
        }
    }
}

/// A cell-rectangle concatenation holds a value exactly when some bucket
/// in the rectangle holds it.
proof fn lemma_cells_seq_membership(
    m: Map<u64, Vec<usize>>,
    cx_min: int,
    cx_max: int,
    cy_min: int,
    cy_max: int,
    v: usize,
)
    ensures
        cells_seq(m, cx_min, cx_max, cy_min, cy_max).contains(v) <==> exists|cx: int, cy: int|
            cx_min <= cx <= cx_max && cy_min <= cy <= cy_max && #[trigger] bucket_of(
                m,
                cx,
                cy,
            ).contains(v),
    decreases cx_max + 1 - cx_min,
{
    broadcast use group_seq_properties;

    if cx_min <= cx_max {
        lemma_cells_seq_membership(m, cx_min + 1, cx_max, cy_min, cy_max, v);
        lemma_col_seq_membership(m, cx_min, cy_min, cy_max, v);
        let s = cells_seq(m, cx_min, cx_max, cy_min, cy_max);
        let b = col_seq(m, cx_min, cy_min, cy_max);
        let rest = cells_seq(m, cx_min + 1, cx_max, cy_min, cy_max);
        if s.contains(v) {
            let i = choose|i: int| 0 <= i < s.len() && s[i] == v;
            if i < b.len() {
                assert(b[i] == v);
                assert(b.contains(v));
            } else {
                assert(rest[i - b.len()] == v);
                assert(rest.contains(v));
            }
        }
        if exists|cx: int, cy: int|
            cx_min <= cx <= cx_max && cy_min <= cy <= cy_max && #[trigger] bucket_of(
                m,
                cx,
                cy,
            ).contains(v) {
            let (cx, cy) = choose|cx: int, cy: int|
                cx_min <= cx <= cx_max && cy_min <= cy <= cy_max && #[trigger] bucket_of(
                    m,
                    cx,
                    cy,
                ).contains(v);
            if cx == cx_min {
                assert(b.contains(v));
                let i = choose|i: int| 0 <= i < b.len() && b[i] == v;
                assert(s[i] == v);
                assert(s.contains(v));
            } else {
                assert(rest.contains(v));
                let i = choose|i: int| 0 <= i < rest.len() && rest[i] == v;
                assert(s[b.len() + i] == v);
                assert(s.contains(v));
            }
        }
    }
}

/// A covering list holds exactly the indices of rectangles that cover the
/// cell, each below the list length.
proof fn lemma_covering_indices_membership(
    rects: Seq<SimpleRect>,
    cell: int,
    cx: int,
    cy: int,
    v: usize,
)
    requires
        rects.len() <= usize::MAX,
    ensures
        covering_indices(rects, cell, cx, cy).contains(v) <==> ((v as int) < rects.len()
            && covers_cell(rects[v as int], cell, cx, cy)),
    decreases rects.len(),
{
    broadcast use group_seq_properties;

    if rects.len() > 0 {
        lemma_covering_indices_membership(rects.drop_last(), cell, cx, cy, v);
        let pre = covering_indices(rects.drop_last(), cell, cx, cy);
        let s = covering_indices(rects, cell, cx, cy);
        if (v as int) < rects.len() - 1 {
            assert(rects.drop_last()[v as int] == rects[v as int]);
        }
        if covers_cell(rects.last(), cell, cx, cy) {
            if s.contains(v) {
                let i = choose|i: int| 0 <= i < s.len() && s[i] == v;
                if i < pre.len() {
                    assert(pre.contains(v));
                } else {
                    assert(v as int == rects.len() - 1);
                }
            }
            if (v as int) < rects.len() && covers_cell(rects[v as int], cell, cx, cy) {
                if (v as int) < rects.len() - 1 {
                    assert(pre.contains(v));
                    let i = choose|i: int| 0 <= i < pre.len() && pre[i] == v;
                    assert(s[i] == v);
                } else {
                    assert(s[s.len() - 1] == v);
                }
                assert(s.contains(v));
            }
        } else {
            if (v as int) == rects.len() - 1 {
                assert(!covers_cell(rects[v as int], cell, cx, cy));
            }
        }
    }
}

/// Grid cell indices of bounded coordinates are within `CELL_BOUND`.
proof fn lemma_cell_of_bounds(c: int, cell: int)
    requires
        -4_000_000_000_000 <= c <= 4_000_000_000_000,
        CELL_MIN <= cell <= CELL_MAX,
    ensures
        -CELL_BOUND <= cell_of(c, cell) <= CELL_BOUND,
{
    let q = c / cell;
    let r = c % cell;
    vstd::arithmetic::div_mod::lemma_fundamental_div_mod(c, cell);
    vstd::arithmetic::div_mod::lemma_mod_division_less_than_divisor(c, cell);
    assert(-100_000_000 <= q <= 100_000_000) by (nonlinear_arith)
        requires
            50_000 <= cell <= 500_000,
            -4_000_000_000_000 <= c <= 4_000_000_000_000,
            c == cell * q + r,
            0 <= r < cell,
    ;
}

/// In-range cells have distinct keys.
proof fn lemma_cell_key_injective(ax: int, ay: int, bx: int, by: int)
    requires
        -CELL_BOUND <= ax <= CELL_BOUND,
        -CELL_BOUND <= ay <= CELL_BOUND,
        -CELL_BOUND <= bx <= CELL_BOUND,
        -CELL_BOUND <= by <= CELL_BOUND,
    ensures
        cell_key(ax, ay) == cell_key(bx, by) ==> (ax == bx && ay == by),
        0 <= cell_key(ax, ay) < 0x1_0000_0000_0000_0000,
{
}

/// Floor division of a coordinate by the cell size.
fn floor_div_cell(a: i64, cell: i64) -> (r: i64)
    requires
        -4_000_000_000_000 <= a <= 4_000_000_000_000,
        CELL_MIN <= cell <= CELL_MAX,
    ensures
        r as int == cell_of(a as int, cell as int),
        -CELL_BOUND <= r <= CELL_BOUND,
{
    proof {
        lemma_cell_of_bounds(a as int, cell as int);
    }
    match a.checked_div_euclid(cell) {
        Some(q) => q,
        None => {
            proof {
                assert(false);
            }
            0
        },
    }
}

/// The packed hash key of a grid cell.
fn make_key(cx: i64, cy: i64) -> (k: u64)
    requires
        -CELL_BOUND <= cx <= CELL_BOUND,
        -CELL_BOUND <= cy <= CELL_BOUND,
    ensures
        k as int == cell_key(cx as int, cy as int),
{
    ((cx + 0x8000_0000) as u64) * 0x1_0000_0000 + ((cy + 0x8000_0000) as u64)
}

/// Total of `w + h` over a rectangle list.
pub open spec fn dims_total(rects: Seq<SimpleRect>) -> int
    decreases rects.len(),
{
    if rects.len() == 0 {
        0
    } else {
        dims_total(rects.drop_last()) + rects.last().w + rects.last().h
    }
}

/// The cell size derived from a nonempty rectangle list: 1.5 times the
/// mean of `(w + h) / 2`, clamped to `[CELL_MIN, CELL_MAX]`.
pub open spec fn cell_for(rects: Seq<SimpleRect>) -> int
    recommends
        rects.len() > 0,
{
    let raw = (3 * dims_total(rects)) / (4 * rects.len() as int);
    if raw < CELL_MIN as int {
        CELL_MIN as int
    } else if raw > CELL_MAX as int {
        CELL_MAX as int
    } else {
        raw
    }
}

/// Retained-mode layout engine: sibling rectangles plus the spatial hash
/// over them, rebuilt wholesale by `update_rects`.
pub struct LayoutEngine {
    /// Canonical sibling list, set once per interaction.
    rects: Vec<SimpleRect>,
    /// Spatial hash: packed grid cell key to ascending rectangle indices.
    grid: HashMap<u64, Vec<usize>>,
    /// Grid cell edge length, in millipixels.
    cell_size: i64,
}

impl LayoutEngine {
    /// The sibling rectangles currently indexed.
    pub closed spec fn rects_seq(self) -> Seq<SimpleRect> {
        self.rects@
    }

    /// The current grid cell size, in millipixels.
    pub closed spec fn cell(self) -> int {
        self.cell_size as int
    }

    /// Engine invariant: the cell size is in range, the rectangles are
    /// bounded, and every in-range cell's bucket is exactly the ascending
    /// list of indices of the rectangles covering that cell.
    pub closed spec fn wf(self) -> bool {
        &&& CELL_MIN <= self.cell_size <= CELL_MAX
        &&& self.rects@.len() <= MAX_RECTS
        &&& forall|i: int| 0 <= i < self.rects@.len() ==> (#[trigger] self.rects@[i]).in_bounds()
        &&& forall|cx: int, cy: int|
            -CELL_BOUND <= cx <= CELL_BOUND && -CELL_BOUND <= cy <= CELL_BOUND
                ==> #[trigger] bucket_of(self.grid@, cx, cy) == covering_indices(
                self.rects@,
                self.cell_size as int,
                cx,
                cy,
            )
    }

    /// The candidate sequence a query over the given box yields: buckets of
    /// the covered cells in row-major order, first encounters kept.
    pub closed spec fn candidates_of(self, x: int, y: int, w: int, h: int, thresh: int) -> Seq<
        usize,
    > {
        dedup_first(
            cells_seq(
                self.grid@,
                cell_of(x - thresh, self.cell()),
                cell_of(x + w + thresh, self.cell()),
                cell_of(y - thresh, self.cell()),
                cell_of(y + h + thresh, self.cell()),
            ),
        )
    }

    /// Whether the cell range of `r` intersects the cell range of the
    /// query box expanded by `thresh`.
    pub open spec fn in_query_range(
        r: SimpleRect,
        cell: int,
        x: int,
        y: int,
        w: int,
        h: int,
        thresh: int,
    ) -> bool {
        &&& cell_of(r.x as int, cell) <= cell_of(x + w + thresh, cell)
        &&& cell_of(x - thresh, cell) <= cell_of(r.x + r.w, cell)
        &&& cell_of(r.y as int, cell) <= cell_of(y + h + thresh, cell)
        &&& cell_of(y - thresh, cell) <= cell_of(r.y + r.h, cell)
    }

    /// A fresh engine with no rectangles and the default cell size.
    pub fn new() -> (r: LayoutEngine)
        ensures
            r.wf(),
            r.rects_seq() =~= Seq::<SimpleRect>::empty(),
            r.cell() == CELL_DEFAULT as int,
    {
        let r = LayoutEngine { rects: Vec::new(), grid: HashMap::new(), cell_size: CELL_DEFAULT };
        proof {
            broadcast use vstd::std_specs::hash::group_hash_axioms;

            assert forall|cx: int, cy: int|
                -CELL_BOUND <= cx <= CELL_BOUND && -CELL_BOUND <= cy
                    <= CELL_BOUND implies #[trigger] bucket_of(r.grid@, cx, cy)
                == covering_indices(r.rects@, r.cell_size as int, cx, cy) by {
                assert(!r.grid@.contains_key(cell_key(cx, cy) as u64));
                assert(covering_indices(r.rects@, r.cell_size as int, cx, cy) =~= Seq::<
                    usize,
                >::empty());
            }
        }
        r
    }

    /// Replace the sibling set and rebuild the spatial hash: derive the
    /// cell size from the new rectangles (the default when the list is
    /// empty), then bucket every rectangle into each cell its bounding box
    /// overlaps.
    pub fn update_rects(&mut self, rects: Vec<SimpleRect>)
        requires
            rects@.len() <= MAX_RECTS,
            forall|i: int| 0 <= i < rects@.len() ==> (#[trigger] rects@[i]).in_bounds(),
        ensures
            final(self).wf(),
            final(self).rects_seq() == rects@,
            final(self).cell() == if rects@.len() == 0 {
                CELL_DEFAULT as int
            } else {
                cell_for(rects@)
            },
    {
        broadcast use vstd::std_specs::hash::group_hash_axioms;

        let ghost rects0: Seq<SimpleRect> = rects@;
        let n = rects.len();
        self.rects = rects;
        if n > 0 {
            let mut total: i64 = 0;
            let mut i: usize = 0;
            while i < n
                invariant
                    i <= n,
                    n == self.rects@.len(),
                    n <= MAX_RECTS,
                    forall|j: int|
                        0 <= j < self.rects@.len() ==> (#[trigger] self.rects@[j]).in_bounds(),
                    total as int == dims_total(self.rects@.take(i as int)),
                    0 <= total as int <= (i as int) * 2_000_000_000_000,
                decreases n - i,
            {
                proof {
                    assert(self.rects@.take(i + 1).drop_last() =~= self.rects@.take(i as int));
                    assert(self.rects@.take(i + 1).last() == self.rects@[i as int]);
                    assert(self.rects@[i as int].in_bounds());
                }
                let r = self.rects[i];
                total = total + r.w + r.h;
                i = i + 1;
            }
            proof {
                assert(self.rects@.take(n as int) =~= self.rects@);
                assert(total as int <= 2_000_000_000_000_000_000) by (nonlinear_arith)
                    requires
                        total as int <= (n as int) * 2_000_000_000_000,
                        n as int <= 1_000_000,
                ;
            }
            let num: i64 = 3 * total;
            let den: i64 = 4 * (n as i64);
            let raw = match num.checked_div_euclid(den) {
                Some(q) => q,
                None => {
                    proof {
                        vstd::arithmetic::div_mod::lemma_div_pos_is_pos(num as int, den as int);
                        vstd::arithmetic::div_mod::lemma_div_nonincreasing(num as int, den as int);
                        assert(false);
                    }
                    0
                },
            };
            proof {
                vstd::arithmetic::div_mod::lemma_div_pos_is_pos(num as int, den as int);
                vstd::arithmetic::div_mod::lemma_div_nonincreasing(num as int, den as int);
            }
            self.cell_size = if raw < CELL_MIN {
                CELL_MIN
            } else if raw > CELL_MAX {
                CELL_MAX
            } else {
                raw
            };
        } else {
            self.cell_size = CELL_DEFAULT;
        }
        self.grid.clear();
        let ghost cell: int = self.cell_size as int;
        proof {
            assert forall|cx: int, cy: int|
                -CELL_BOUND <= cx <= CELL_BOUND && -CELL_BOUND <= cy
                    <= CELL_BOUND implies #[trigger] bucket_of(self.grid@, cx, cy)
                == covering_indices(self.rects@.take(0), cell, cx, cy) by {
                assert(!self.grid@.contains_key(cell_key(cx, cy) as u64));
                assert(covering_indices(self.rects@.take(0), cell, cx, cy) =~= Seq::<
                    usize,
                >::empty());
            }
        }
        let mut idx: usize = 0;
        while idx < self.rects.len()
            invariant
                self.rects@ == rects0,
                cell == self.cell_size as int,
                CELL_MIN <= self.cell_size <= CELL_MAX,
                idx <= self.rects@.len(),
                self.rects@.len() <= MAX_RECTS,
                forall|j: int| 0 <= j < self.rects@.len() ==> (#[trigger] self.rects@[j]).in_bounds(),
                forall|cx: int, cy: int|
                    -CELL_BOUND <= cx <= CELL_BOUND && -CELL_BOUND <= cy <= CELL_BOUND
                        ==> #[trigger] bucket_of(self.grid@, cx, cy) == covering_indices(
                        self.rects@.take(idx as int),
                        cell,
                        cx,
                        cy,
                    ),
            decreases self.rects@.len() - idx,
        {
            let r = self.rects[idx];
            let cx_min = floor_div_cell(r.x, self.cell_size);
            let cx_max = floor_div_cell(r.x + r.w, self.cell_size);
            let cy_min = floor_div_cell(r.y, self.cell_size);
            let cy_max = floor_div_cell(r.y + r.h, self.cell_size);
            let mut cx = cx_min;
            while cx <= cx_max
                invariant
                    self.rects@ == rects0,
                    cell == self.cell_size as int,
                    CELL_MIN <= self.cell_size <= CELL_MAX,
                    idx < self.rects@.len(),
                    self.rects@.len() <= MAX_RECTS,
                    forall|j: int|
                        0 <= j < self.rects@.len() ==> (#[trigger] self.rects@[j]).in_bounds(),
                    r == self.rects@[idx as int],
                    cx_min as int == cell_of(r.x as int, cell),
                    cx_max as int == cell_of(r.x + r.w, cell),
                    cy_min as int == cell_of(r.y as int, cell),
                    cy_max as int == cell_of(r.y + r.h, cell),
                    -CELL_BOUND <= cx_min <= CELL_BOUND,
                    -CELL_BOUND <= cx_max <= CELL_BOUND,
                    -CELL_BOUND <= cy_min <= CELL_BOUND,
                    -CELL_BOUND <= cy_max <= CELL_BOUND,
                    cx_min <= cx,
                    cx <= CELL_BOUND + 1,
                    forall|ax: int, ay: int|
                        -CELL_BOUND <= ax <= CELL_BOUND && -CELL_BOUND <= ay <= CELL_BOUND
                            ==> #[trigger] bucket_of(self.grid@, ax, ay) == (
                        if covers_cell(r, cell, ax, ay) && ax < cx {
                            covering_indices(self.rects@.take(idx as int), cell, ax, ay).push(idx)
                        } else {
                            covering_indices(self.rects@.take(idx as int), cell, ax, ay)
                        }),
                decreases cx_max + 1 - cx,
            {
                let mut cy = cy_min;
                while cy <= cy_max
                    invariant
                        self.rects@ == rects0,
                        cell == self.cell_size as int,
                        CELL_MIN <= self.cell_size <= CELL_MAX,
                        idx < self.rects@.len(),
                        self.rects@.len() <= MAX_RECTS,
                        forall|j: int|
                            0 <= j < self.rects@.len() ==> (#[trigger] self.rects@[j]).in_bounds(),
                        r == self.rects@[idx as int],
                        cx_min as int == cell_of(r.x as int, cell),
                        cx_max as int == cell_of(r.x + r.w, cell),
                        cy_min as int == cell_of(r.y as int, cell),
                        cy_max as int == cell_of(r.y + r.h, cell),
                        -CELL_BOUND <= cx_min <= CELL_BOUND,
                        -CELL_BOUND <= cx_max <= CELL_BOUND,
                        -CELL_BOUND <= cy_min <= CELL_BOUND,
                        -CELL_BOUND <= cy_max <= CELL_BOUND,
                        cx_min <= cx <= cx_max,
                        cy_min <= cy,
                        cy <= CELL_BOUND + 1,
                        forall|ax: int, ay: int|
                            -CELL_BOUND <= ax <= CELL_BOUND && -CELL_BOUND <= ay <= CELL_BOUND
                                ==> #[trigger] bucket_of(self.grid@, ax, ay) == (
                            if covers_cell(r, cell, ax, ay) && (ax < cx || (ax == cx && ay < cy)) {
                                covering_indices(self.rects@.take(idx as int), cell, ax, ay).push(
                                    idx,
                                )
                            } else {
                                covering_indices(self.rects@.take(idx as int), cell, ax, ay)
                            }),
                    decreases cy_max + 1 - cy,
                {
                    let key = make_key(cx, cy);
                    let ghost pre_grid: Map<u64, Vec<usize>> = self.grid@;
                    let mut bucket = match self.grid.remove(&key) {
                        Some(b) => b,
                        None => Vec::new(),
                    };
                    proof {
                        assert(bucket@ == bucket_of(pre_grid, cx as int, cy as int));
                    }
                    bucket.push(idx);
                    self.grid.insert(key, bucket);
                    proof {
                        assert forall|ax: int, ay: int|
                            -CELL_BOUND <= ax <= CELL_BOUND && -CELL_BOUND <= ay
                                <= CELL_BOUND implies #[trigger] bucket_of(self.grid@, ax, ay) == (
                            if covers_cell(r, cell, ax, ay) && (ax < cx || (ax == cx && ay < cy
                                + 1)) {
                                covering_indices(self.rects@.take(idx as int), cell, ax, ay).push(
                                    idx,
                                )
                            } else {
                                covering_indices(self.rects@.take(idx as int), cell, ax, ay)
                            }) by {
                            lemma_cell_key_injective(ax, ay, cx as int, cy as int);
                            if ax == cx as int && ay == cy as int {
                                assert(self.grid@.contains_key(key));
                                assert(bucket_of(self.grid@, ax, ay) == bucket_of(
                                    pre_grid,
                                    ax,
                                    ay,
                                ).push(idx));
                                assert(covers_cell(r, cell, ax, ay));
                            } else {
                                assert(cell_key(ax, ay) != cell_key(cx as int, cy as int));
                                assert(cell_key(ax, ay) as u64 != key);
                                assert(bucket_of(self.grid@, ax, ay) == bucket_of(
                                    pre_grid,
                                    ax,
                                    ay,
                                ));
                            }
                        }
                    }
                    cy = cy + 1;
                }
                cx = cx + 1;
            }
            proof {
                assert(self.rects@.take(idx + 1).drop_last() =~= self.rects@.take(idx as int));
                assert(self.rects@.take(idx + 1).last() == self.rects@[idx as int]);
                assert forall|ax: int, ay: int|
                    -CELL_BOUND <= ax <= CELL_BOUND && -CELL_BOUND <= ay
                        <= CELL_BOUND implies #[trigger] bucket_of(self.grid@, ax, ay)
                    == covering_indices(self.rects@.take(idx + 1), cell, ax, ay) by {
                    if covers_cell(r, cell, ax, ay) {
                        assert(ax <= cx_max as int);
                        assert(bucket_of(self.grid@, ax, ay) == covering_indices(
                            self.rects@.take(idx as int),
                            cell,
                            ax,
                            ay,
                        ).push(idx));
                    }
                }
            }
            idx = idx + 1;
        }
        proof {
            assert(self.rects@.take(self.rects@.len() as int) =~= self.rects@);
        }
    }

    /// The engine invariant bounds the rectangle list and every entry.
    pub proof fn lemma_wf_bounds(self)
        requires
            self.wf(),
        ensures
            self.rects_seq().len() <= MAX_RECTS,
            forall|i: int|
                0 <= i < self.rects_seq().len() ==> (#[trigger] self.rects_seq()[i]).in_bounds(),
    {
    }

    /// The rectangle at a given index.
    pub fn rect_at(&self, i: usize) -> (r: SimpleRect)
        requires
            i < self.rects_seq().len(),
        ensures
            r == self.rects_seq()[i as int],
    {
        self.rects[i]
    }

    /// Indices of the rectangles whose grid cells overlap the query box
    /// expanded by `threshold`, in row-major first-encounter order, each
    /// exactly once.
    pub fn query_candidates(&self, x: i64, y: i64, w: i64, h: i64, threshold: i64) -> (r: Vec<
        usize,
    >)
        requires
            self.wf(),
            -COORD_LIMIT <= x <= COORD_LIMIT,
            -COORD_LIMIT <= y <= COORD_LIMIT,
            0 <= w <= COORD_LIMIT,
            0 <= h <= COORD_LIMIT,
            0 <= threshold <= COORD_LIMIT,
        ensures
            r@ == self.candidates_of(x as int, y as int, w as int, h as int, threshold as int),
            forall|i: int, j: int| 0 <= i < j < r@.len() ==> r@[i] != r@[j],
            forall|v: usize|
                #[trigger] r@.contains(v) <==> ((v as int) < self.rects_seq().len()
                    && Self::in_query_range(
                    self.rects_seq()[v as int],
                    self.cell(),
                    x as int,
                    y as int,
                    w as int,
                    h as int,
                    threshold as int,
                )),
            forall|i: int| 0 <= i < r@.len() ==> (#[trigger] r@[i] as int) < self.rects_seq().len(),
    {
        broadcast use vstd::std_specs::hash::group_hash_axioms;
        broadcast use group_seq_properties;

        let cx_min = floor_div_cell(x - threshold, self.cell_size);
        let cx_max = floor_div_cell(x + w + threshold, self.cell_size);
        let cy_min = floor_div_cell(y - threshold, self.cell_size);
        let cy_max = floor_div_cell(y + h + threshold, self.cell_size);
        let ghost cell: int = self.cell_size as int;
        let ghost m: Map<u64, Vec<usize>> = self.grid@;
        let mut seen: HashSet<usize> = HashSet::new();
        let mut candidates: Vec<usize> = Vec::new();
        let ghost mut processed: Seq<usize> = Seq::empty();
        proof {
            assert(processed =~= cells_seq(m, cx_min as int, cx_min - 1, cy_min as int, cy_max as int));
            vstd::arithmetic::div_mod::lemma_div_is_ordered(
                x - threshold,
                x + w + threshold,
                cell,
            );
            vstd::arithmetic::div_mod::lemma_div_is_ordered(
                y - threshold,
                y + h + threshold,
                cell,
            );
        }
        let mut cx = cx_min;
        while cx <= cx_max
            invariant
                self.wf(),
                cell == self.cell_size as int,
                m == self.grid@,
                -CELL_BOUND <= cx_min <= CELL_BOUND,
                -CELL_BOUND <= cx_max <= CELL_BOUND,
                -CELL_BOUND <= cy_min <= CELL_BOUND,
                -CELL_BOUND <= cy_max <= CELL_BOUND,
                0 <= w,
                0 <= h,
                0 <= threshold,
                cx_min <= cx,
                cx <= cx_max + 1,
                cx_min as int == cell_of(x - threshold, cell),
                cx_max as int == cell_of(x + w + threshold, cell),
                cy_min as int == cell_of(y - threshold, cell),
                cy_max as int == cell_of(y + h + threshold, cell),
                processed =~= cells_seq(m, cx_min as int, cx - 1, cy_min as int, cy_max as int),
                forall|u: usize| seen@.contains(u) <==> processed.contains(u),
                candidates@ =~= dedup_first(processed),
            decreases cx_max + 1 - cx,
        {
            let mut cy = cy_min;
            proof {
                vstd::arithmetic::div_mod::lemma_div_is_ordered(
                    y - threshold,
                    y + h + threshold,
                    cell,
                );
                assert(col_seq(m, cx as int, cy_min as int, cy_min - 1) =~= Seq::empty());
                assert(processed =~= cells_seq(m, cx_min as int, cx - 1, cy_min as int, cy_max as int)
                    + col_seq(m, cx as int, cy_min as int, cy_min - 1));
            }
            while cy <= cy_max
                invariant
                    self.wf(),
                    cell == self.cell_size as int,
                    m == self.grid@,
                    -CELL_BOUND <= cx_min <= CELL_BOUND,
                    -CELL_BOUND <= cx_max <= CELL_BOUND,
                    -CELL_BOUND <= cy_min <= CELL_BOUND,
                    -CELL_BOUND <= cy_max <= CELL_BOUND,
                    0 <= w,
                    0 <= h,
                    0 <= threshold,
                    cx_min <= cx <= cx_max,
                    cy_min <= cy,
                    cy <= cy_max + 1,
                    processed =~= cells_seq(m, cx_min as int, cx - 1, cy_min as int, cy_max as int)
                        + col_seq(m, cx as int, cy_min as int, cy - 1),
                    forall|u: usize| seen@.contains(u) <==> processed.contains(u),
                    candidates@ =~= dedup_first(processed),
                decreases cy_max + 1 - cy,
            {
                let key = make_key(cx, cy);
                let ghost cell_pre: Seq<usize> = processed;
                match self.grid.get(&key) {
                    Some(indices) => {
                        proof {
                            assert(indices@ == bucket_of(m, cx as int, cy as int));
                        }
                        let mut t: usize = 0;
                        while t < indices.len()
                            invariant
                                t <= indices@.len(),
                                indices@ == bucket_of(m, cx as int, cy as int),
                                processed =~= cell_pre + indices@.take(t as int),
                                forall|u: usize| seen@.contains(u) <==> processed.contains(u),
                                candidates@ =~= dedup_first(processed),
                            decreases indices@.len() - t,
                        {
                            let idx = indices[t];
                            let ghost processed_pre: Seq<usize> = processed;
                            proof {
                                assert(indices@.take(t + 1).drop_last() =~= indices@.take(t as int));
                                processed = cell_pre + indices@.take(t + 1);
                                assert(processed.drop_last() =~= processed_pre);
                                assert(processed.last() == idx);
                                assert(processed =~= processed_pre.push(idx));
                                lemma_dedup_first_membership(processed_pre, idx);
                            }
                            if seen.insert(idx) {
                                candidates.push(idx);
                                proof {
                                    assert(!processed_pre.contains(idx));
                                    assert(!dedup_first(processed_pre).contains(idx));
                                    assert(candidates@ =~= dedup_first(processed_pre).push(idx));
                                    assert(dedup_first(processed) == dedup_first(
                                        processed_pre,
                                    ).push(idx));
                                }
                            } else {
                                proof {
                                    assert(processed_pre.contains(idx));
                                    assert(dedup_first(processed_pre).contains(idx));
                                    assert(dedup_first(processed) == dedup_first(processed_pre));
                                }
                            }
                            proof {
                                assert forall|u: usize|
                                    seen@.contains(u) <==> processed.contains(u) by {
                                    assert(processed.contains(u) <==> (processed_pre.contains(u)
                                        || u == idx));
                                }
                            }
                            t = t + 1;
                        }
                        proof {
                            assert(indices@.take(indices@.len() as int) =~= indices@);
                        }
                    },
                    None => {
                        proof {
                            assert(bucket_of(m, cx as int, cy as int) =~= Seq::<usize>::empty());
                            assert(processed =~= cell_pre + bucket_of(m, cx as int, cy as int));
                        }
                    },
                }
                proof {
                    lemma_col_seq_split(m, cx as int, cy_min as int, cy as int);
                    assert(processed =~= cells_seq(m, cx_min as int, cx - 1, cy_min as int, cy_max as int)
                        + col_seq(m, cx as int, cy_min as int, cy as int));
                }
                cy = cy + 1;
            }
            proof {
                lemma_cells_seq_split(m, cx_min as int, cx as int, cy_min as int, cy_max as int);
            }
            cx = cx + 1;
        }
        proof {
            let qs = cells_seq(m, cx_min as int, cx_max as int, cy_min as int, cy_max as int);
            assert(processed =~= qs);
            lemma_dedup_first_no_dups(qs);
            assert(candidates@ == self.candidates_of(
                x as int,
                y as int,
                w as int,
                h as int,
                threshold as int,
            ));
            assert forall|v: usize| #[trigger]
                candidates@.contains(v) <==> ((v as int) < self.rects_seq().len()
                    && Self::in_query_range(
                    self.rects_seq()[v as int],
                    cell,
                    x as int,
                    y as int,
                    w as int,
                    h as int,
                    threshold as int,
                )) by {
                lemma_dedup_first_membership(qs, v);
                lemma_cells_seq_membership(
                    m,
                    cx_min as int,
                    cx_max as int,
                    cy_min as int,
                    cy_max as int,
                    v,
                );
                if qs.contains(v) {
                    let (acx, acy) = choose|acx: int, acy: int|
                        cx_min as int <= acx <= cx_max as int && cy_min as int <= acy
                            <= cy_max as int && #[trigger] bucket_of(m, acx, acy).contains(v);
                    assert(bucket_of(m, acx, acy) == covering_indices(
                        self.rects@,
                        cell,
                        acx,
                        acy,
                    ));
                    lemma_covering_indices_membership(self.rects@, cell, acx, acy, v);
                }
                if (v as int) < self.rects_seq().len() && Self::in_query_range(
                    self.rects_seq()[v as int],
                    cell,
                    x as int,
                    y as int,
                    w as int,
                    h as int,
                    threshold as int,
                ) {
                    let r0 = self.rects@[v as int];
                    assert(r0.in_bounds());
                    lemma_cell_of_bounds(r0.x as int, cell);
                    lemma_cell_of_bounds(r0.y as int, cell);
                    vstd::arithmetic::div_mod::lemma_div_is_ordered(r0.x as int, r0.x + r0.w, cell);
                    vstd::arithmetic::div_mod::lemma_div_is_ordered(r0.y as int, r0.y + r0.h, cell);
                    let acx = if cell_of(r0.x as int, cell) >= cx_min as int {
                        cell_of(r0.x as int, cell)
                    } else {
                        cx_min as int
                    };
                    let acy = if cell_of(r0.y as int, cell) >= cy_min as int {
                        cell_of(r0.y as int, cell)
                    } else {
                        cy_min as int
                    };
                    assert(cx_min as int <= acx <= cx_max as int);
                    assert(cy_min as int <= acy <= cy_max as int);
                    assert(covers_cell(r0, cell, acx, acy));
                    assert(-CELL_BOUND <= acx <= CELL_BOUND);
                    assert(-CELL_BOUND <= acy <= CELL_BOUND);
                    assert(bucket_of(m, acx, acy) == covering_indices(self.rects@, cell, acx, acy));
                    lemma_covering_indices_membership(self.rects@, cell, acx, acy, v);
                    assert(bucket_of(m, acx, acy).contains(v));
                    assert(qs.contains(v));
                }
            }
            assert forall|i: int| 0 <= i < candidates@.len() implies (#[trigger] candidates@[i]
                as int) < self.rects_seq().len() by {
                assert(candidates@.contains(candidates@[i]));
            }
        }
        candidates
    }
}

} // verus!
