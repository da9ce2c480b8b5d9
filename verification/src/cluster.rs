//! Tolerance-based 1-D clustering of coordinate breakpoints into canonical
//! grid lines.
//!
//! Values are sorted ascending and grouped left to right: a value joins the
//! current group exactly when its distance to the group's running mean is at
//! most the snap tolerance, otherwise the group is sealed and its mean is
//! emitted as one canonical line. The membership test is carried out on
//! exact integers (`|v * count - sum| <= tol * count`), and the emitted line
//! is the running mean rounded half-up to a millipixel.
use vstd::prelude::*;
use vstd::relations::sorted_by;
use vstd::relations::total_ordering;
use vstd::arithmetic::div_mod::lemma_fundamental_div_mod;
use vstd::arithmetic::div_mod::lemma_mod_division_less_than_divisor;
use vstd::seq_lib::group_to_multiset_ensures;
use vstd::seq_lib::lemma_sorted_unique;
use vstd::seq_lib::to_multiset_update;
use crate::COORD_LIMIT;
use crate::MAX_RECTS;

verus! {

/// Snap tolerance for merging coordinate breakpoints, in millipixels
/// (4 canvas pixels).
pub const SNAP_TOL: i64 = 4_000;

/// Largest magnitude a breakpoint can have: a coordinate plus an extent.
pub const BREAK_LIMIT: i64 = 2 * COORD_LIMIT;

/// Largest number of breakpoints a clustering call accepts.
pub const MAX_COORDS: usize = 2 * MAX_RECTS;

/// Ascending order on coordinates.
pub open spec fn coord_le() -> spec_fn(i64, i64) -> bool {
    |a: i64, b: i64| a <= b
}

/// The ascending reordering of a breakpoint sequence.
pub open spec fn sorted_of(s: Seq<i64>) -> Seq<i64> {
    s.sort_by(coord_le())
}

/// Whether `v` lies within `tol` of the mean of a group with the given sum
/// and size: the exact-rational form of `|v - sum/count| <= tol`.
pub open spec fn in_group(v: int, sum: int, count: int, tol: int) -> bool {
    -(tol * count) <= v * count - sum <= tol * count
}

/// The canonical line of a sealed group: its mean `sum / count`, rounded
/// half-up to an integer.
pub open spec fn group_line(sum: int, count: int) -> int
    recommends
        count >= 1,
{
    (2 * sum + count) / (2 * count)
}

/// The canonical lines produced from `s[i..]` when a group with running sum
/// `sum` over `count` values is open, walking left to right.
pub open spec fn cluster_from(s: Seq<i64>, tol: int, i: int, sum: int, count: int) -> Seq<int>
    recommends
        1 <= i <= s.len(),
        count >= 1,
    decreases s.len() - i,
{
    if i < 0 || i >= s.len() {
        seq![group_line(sum, count)]
    } else if in_group(s[i] as int, sum, count, tol) {
        cluster_from(s, tol, i + 1, sum + s[i], count + 1)
    } else {
        seq![group_line(sum, count)] + cluster_from(s, tol, i + 1, s[i] as int, 1)
    }
}

/// The canonical lines of a breakpoint multiset: sort ascending, then group
/// with tolerance `tol`.
pub open spec fn cluster_lines(vals: Seq<i64>, tol: int) -> Seq<int> {
    if vals.len() == 0 {
        Seq::empty()
    } else {
        cluster_from(sorted_of(vals), tol, 1, sorted_of(vals)[0] as int, 1)
    }
}

/// Distance between two coordinates.
pub open spec fn dist(a: int, b: int) -> int {
    if a >= b {
        a - b
    } else {
        b - a
    }
}

/// Index of the line nearest to `target`, ties broken by the lowest index.
pub open spec fn nearest_idx(breaks: Seq<int>, target: int) -> int
    decreases breaks.len(),
{
    if breaks.len() <= 1 {
        0
    } else {
        let r = nearest_idx(breaks.drop_last(), target);
        if dist(breaks.last(), target) < dist(breaks[r], target) {
            breaks.len() - 1
        } else {
            r
        }
    }
}

/// Swapping two entries of a sequence leaves its multiset unchanged.
proof fn lemma_swap_preserves_multiset(s: Seq<i64>, i: int, j: int)
    requires
        0 <= i < s.len(),
        0 <= j < s.len(),
        i != j,
    ensures
        s.update(i, s[j]).update(j, s[i]).to_multiset() == s.to_multiset(),
{
    broadcast use group_to_multiset_ensures;
    broadcast use to_multiset_update;

    let a = s[i];
    let b = s[j];
    let s1 = s.update(i, b);
    let s2 = s1.update(j, a);
    assert(s1[j] == b);
    assert(s1.to_multiset() == s.to_multiset().insert(b).remove(a));
    assert(s2.to_multiset() == s1.to_multiset().insert(a).remove(b));
    assert(s.contains(a));
    assert(s.to_multiset().contains(a));
    assert(s2.to_multiset() =~= s.to_multiset());
}

/// `coord_le` is a total order.
proof fn lemma_coord_le_total_ordering()
    ensures
        total_ordering(coord_le()),
{
}

/// The rounded mean of a group lies between bounds that hold for the
/// group's sum.
proof fn lemma_group_line_between(sum: int, count: int, lo: int, hi: int)
    requires
        1 <= count,
        lo * count <= sum <= hi * count,
    ensures
        lo <= group_line(sum, count) <= hi,
{
    let d = 2 * count;
    let q = group_line(sum, count);
    let r = (2 * sum + count) % d;
    lemma_fundamental_div_mod(2 * sum + count, d);
    lemma_mod_division_less_than_divisor(2 * sum + count, d);
    assert(lo <= q <= hi) by (nonlinear_arith)
        requires
            d == 2 * count,
            1 <= count,
            lo * count <= sum <= hi * count,
            2 * sum + count == d * q + r,
            0 <= r < d,
    ;
}

/// The rounded mean of a group lies between bounds that hold for the
/// group's members.
proof fn lemma_group_line_bounds(sum: int, count: int, bound: int)
    requires
        1 <= count,
        0 <= bound,
        -bound * count <= sum <= bound * count,
    ensures
        -bound <= group_line(sum, count) <= bound,
{
    lemma_group_line_between(sum, count, -bound, bound);
}

/// Over a sorted tail, the lines a running group yields are strictly
/// ascending, and none is below a lower bound of the open group.
proof fn lemma_cluster_from_sorted(s: Seq<i64>, tol: int, i: int, sum: int, count: int, lo: int)
    requires
        sorted_by(s, coord_le()),
        1 <= i <= s.len(),
        1 <= count,
        1 <= tol,
        lo * count <= sum,
        sum <= s[i - 1] * count,
    ensures
        ({
            let lines = cluster_from(s, tol, i, sum, count);
            &&& forall|a: int, b: int| 0 <= a < b < lines.len() ==> lines[a] < lines[b]
            &&& forall|a: int| 0 <= a < lines.len() ==> lines[a] >= lo
        }),
    decreases s.len() - i,
{
    let lines = cluster_from(s, tol, i, sum, count);
    if i == s.len() {
        lemma_group_line_between(sum, count, lo, s[i - 1] as int);
        assert(lines =~= seq![group_line(sum, count)]);
    } else {
        let v = s[i] as int;
        assert(coord_le()(s[i - 1], s[i]));
        assert(s[i - 1] <= s[i]);
        assert(lo <= s[i - 1]) by (nonlinear_arith)
            requires
                1 <= count,
                lo * count <= sum,
                sum <= s[i - 1] * count,
        ;
        if in_group(v, sum, count, tol) {
            assert(lo * (count + 1) <= sum + v && sum + v <= s[i] * (count + 1))
                by (nonlinear_arith)
                requires
                    1 <= count,
                    lo * count <= sum,
                    sum <= s[i - 1] * count,
                    lo <= s[i - 1],
                    s[i - 1] <= s[i],
                    v == s[i] as int,
            ;
            lemma_cluster_from_sorted(s, tol, i + 1, sum + v, count + 1, lo);
            assert(lines == cluster_from(s, tol, i + 1, sum + v, count + 1));
        } else {
            let line = group_line(sum, count);
            lemma_group_line_between(sum, count, lo, s[i - 1] as int);
            // The sealing value lies strictly above the sealed line.
            let d = 2 * count;
            let r = (2 * sum + count) % d;
            lemma_fundamental_div_mod(2 * sum + count, d);
            lemma_mod_division_less_than_divisor(2 * sum + count, d);
            assert(v * count - sum > tol * count) by (nonlinear_arith)
                requires
                    1 <= count,
                    1 <= tol,
                    sum <= s[i - 1] * count,
                    s[i - 1] <= s[i],
                    v == s[i] as int,
                    !(-(tol * count) <= v * count - sum <= tol * count),
            ;
            assert(line < v) by (nonlinear_arith)
                requires
                    1 <= count,
                    1 <= tol,
                    d == 2 * count,
                    2 * sum + count == d * line + r,
                    0 <= r < d,
                    v * count - sum > tol * count,
            ;
            lemma_cluster_from_sorted(s, tol, i + 1, v, 1, v);
            let rest = cluster_from(s, tol, i + 1, v, 1);
            assert(lines =~= seq![line] + rest);
            assert forall|a: int, b: int| 0 <= a < b < lines.len() implies lines[a] < lines[b] by {
                if a > 0 {
                    assert(lines[a] == rest[a - 1]);
                    assert(lines[b] == rest[b - 1]);
                } else {
                    assert(lines[b] == rest[b - 1]);
                    assert(rest[b - 1] >= v);
                }
            }
            assert forall|a: int| 0 <= a < lines.len() implies lines[a] >= lo by {
                if a > 0 {
                    assert(lines[a] == rest[a - 1]);
                    assert(rest[a - 1] >= v);
                }
            }
        }
    }
}

/// A sequence already in ascending order is its own sorted reordering.
pub proof fn lemma_sorted_of_id(s: Seq<i64>)
    requires
        sorted_by(s, coord_le()),
    ensures
        sorted_of(s) == s,
{
    lemma_coord_le_total_ordering();
    s.lemma_sort_by_ensures(coord_le());
    lemma_sorted_unique(s, sorted_of(s), coord_le());
    assert(s =~= sorted_of(s));
}

/// Clustering boundary for a pair of breakpoints `a <= b`: they merge
/// into their rounded mean exactly when they are at most the tolerance
/// apart, and stay two distinct lines otherwise. The boundary is
/// inclusive.
pub proof fn lemma_cluster_pair(a: i64, b: i64)
    requires
        a <= b,
    ensures
        b - a <= SNAP_TOL ==> cluster_lines(seq![a, b], SNAP_TOL as int) =~= seq![
            group_line(a as int + b as int, 2),
        ],
        b - a > SNAP_TOL ==> cluster_lines(seq![a, b], SNAP_TOL as int) =~= seq![
            a as int,
            b as int,
        ],
{
    let s = seq![a, b];
    let tol: int = SNAP_TOL as int;
    assert(coord_le()(a, b));
    assert(sorted_by(s, coord_le()));
    lemma_sorted_of_id(s);
    assert(in_group(b as int, a as int, 1, tol) <==> b - a <= SNAP_TOL);
    if b - a <= SNAP_TOL {
        assert(cluster_from(s, tol, 1, a as int, 1) == cluster_from(s, tol, 2, a + b, 2));
        assert(cluster_from(s, tol, 2, a + b, 2) == seq![group_line(a as int + b as int, 2)]);
    } else {
        assert(cluster_from(s, tol, 1, a as int, 1) == seq![group_line(a as int, 1)]
            + cluster_from(s, tol, 2, b as int, 1));
        assert(cluster_from(s, tol, 2, b as int, 1) == seq![group_line(b as int, 1)]);
        lemma_group_line_single(a as int);
        lemma_group_line_single(b as int);
    }
}

/// The canonical line of a one-member group is the member itself.
pub proof fn lemma_group_line_single(v: int)
    ensures
        group_line(v, 1) == v,
{
    vstd::arithmetic::div_mod::lemma_fundamental_div_mod(2 * v + 1, 2);
    vstd::arithmetic::div_mod::lemma_mod_division_less_than_divisor(2 * v + 1, 2);
}

/// Seal a group: emit its canonical line.
fn seal_group(sum: i128, count: usize) -> (r: i64)
    requires
        1 <= count <= MAX_COORDS,
        -(BREAK_LIMIT as int) * (count as int) <= sum as int <= (BREAK_LIMIT as int) * (
        count as int),
    ensures
        r as int == group_line(sum as int, count as int),
        -BREAK_LIMIT <= r <= BREAK_LIMIT,
{
    proof {
        lemma_group_line_bounds(sum as int, count as int, BREAK_LIMIT as int);
        assert(-4_000_000_000_000_000_000 <= sum as int <= 4_000_000_000_000_000_000)
            by (nonlinear_arith)
            requires
                1 <= count as int <= 2_000_000,
                -2_000_000_000_000 * (count as int) <= sum as int <= 2_000_000_000_000 * (
                count as int),
        ;
    }
    let num: i128 = 2 * sum + count as i128;
    let den: i128 = 2 * (count as i128);
    match num.checked_div_euclid(den) {
        Some(q) => q as i64,
        None => {
            proof {
                assert(false);
            }
            0
        },
    }
}

/// Sort a breakpoint vector ascending (insertion sort).
fn sort_coords(v: &mut Vec<i64>)
    ensures
        final(v)@ == sorted_of(old(v)@),
        final(v)@.to_multiset() == old(v)@.to_multiset(),
        final(v)@.len() == old(v)@.len(),
        sorted_by(final(v)@, coord_le()),
{
    broadcast use group_to_multiset_ensures;
    broadcast use to_multiset_update;

    let ghost orig: Seq<i64> = v@;
    let n = v.len();
    let mut i: usize = 1;
    while i < n
        invariant
            1 <= i,
            n == v@.len(),
            v@.to_multiset() == orig.to_multiset(),
            forall|a: int, b: int| 0 <= a < b < i && b < n ==> v@[a] <= v@[b],
        decreases n - i,
    {
        let mut j: usize = i;
        while j > 0 && v[j - 1] > v[j]
            invariant
                j <= i < n,
                n == v@.len(),
                v@.to_multiset() == orig.to_multiset(),
                forall|a: int, b: int| 0 <= a < b <= i && b != j ==> v@[a] <= v@[b],
            decreases j,
        {
            let ghost before: Seq<i64> = v@;
            let lo = v[j - 1];
            let hi = v[j];
            v[j - 1] = hi;
            v[j] = lo;
            proof {
                lemma_swap_preserves_multiset(before, j - 1, j as int);
                assert(v@ =~= before.update(j - 1, before[j as int]).update(
                    j as int,
                    before[j - 1],
                ));
            }
            j = j - 1;
        }
        i = i + 1;
    }
    proof {
        assert(sorted_by(v@, coord_le()));
        lemma_coord_le_total_ordering();
        orig.lemma_sort_by_ensures(coord_le());
        lemma_sorted_unique(v@, sorted_of(orig), coord_le());
        assert(v@ =~= sorted_of(orig));
    }
}

/// Merge a breakpoint list into canonical grid lines with tolerance
/// `SNAP_TOL`: the returned lines are exactly `cluster_lines` of the
/// input, and come out strictly ascending.
pub fn dedup_coords(coords: Vec<i64>) -> (r: Vec<i64>)
    requires
        coords@.len() <= MAX_COORDS,
        forall|i: int|
            0 <= i < coords@.len() ==> -BREAK_LIMIT <= #[trigger] coords@[i] <= BREAK_LIMIT,
    ensures
        r@.map_values(|x: i64| x as int) =~= cluster_lines(coords@, SNAP_TOL as int),
        forall|i: int| 0 <= i < r@.len() ==> -BREAK_LIMIT <= #[trigger] r@[i] <= BREAK_LIMIT,
        r@.len() <= coords@.len(),
        forall|i: int, j: int| 0 <= i < j < r@.len() ==> r@[i] < r@[j],
{
    broadcast use group_to_multiset_ensures;

    let ghost orig: Seq<i64> = coords@;
    let mut coords = coords;
    if coords.len() == 0 {
        return coords;
    }
    sort_coords(&mut coords);
    let ghost ss: Seq<i64> = coords@;
    proof {
        assert forall|k: int| 0 <= k < ss.len() implies -BREAK_LIMIT <= #[trigger] ss[k]
            <= BREAK_LIMIT by {
            assert(ss.contains(ss[k]));
            assert(ss.to_multiset().contains(ss[k]));
            assert(orig.to_multiset().contains(ss[k]));
            assert(orig.contains(ss[k]));
            let j = choose|j: int| 0 <= j < orig.len() && orig[j] == ss[k];
            assert(-BREAK_LIMIT <= orig[j] <= BREAK_LIMIT);
        }
    }
    let ghost tol: int = SNAP_TOL as int;
    let mut result: Vec<i64> = Vec::new();
    let mut sum: i128 = coords[0] as i128;
    let mut count: usize = 1;
    let mut i: usize = 1;
    while i < coords.len()
        invariant
            tol == SNAP_TOL as int,
            1 <= i <= ss.len(),
            coords@ == ss,
            ss.len() <= MAX_COORDS,
            forall|k: int| 0 <= k < ss.len() ==> -BREAK_LIMIT <= #[trigger] ss[k] <= BREAK_LIMIT,
            1 <= count <= i,
            result@.len() + count <= i,
            -(BREAK_LIMIT as int) * (count as int) <= sum as int <= (BREAK_LIMIT as int) * (
            count as int),
            cluster_lines(orig, tol) =~= result@.map_values(|x: i64| x as int) + cluster_from(
                ss,
                tol,
                i as int,
                sum as int,
                count as int,
            ),
            forall|k: int| 0 <= k < result@.len() ==> -BREAK_LIMIT <= #[trigger] result@[k]
                <= BREAK_LIMIT,
        decreases ss.len() - i,
    {
        let ghost sum0: int = sum as int;
        let ghost cnt0: int = count as int;
        let v = coords[i];
        proof {
            assert(-4_000_000_000_000_000_000 <= (v as int) * (count as int)
                <= 4_000_000_000_000_000_000 && 0 <= 4_000 * (count as int)
                <= 8_000_000_000 && -4_000_000_000_000_000_000 <= sum as int
                <= 4_000_000_000_000_000_000) by (nonlinear_arith)
                requires
                    -2_000_000_000_000 <= v as int <= 2_000_000_000_000,
                    1 <= count as int <= 2_000_000,
                    -2_000_000_000_000 * (count as int) <= sum as int <= 2_000_000_000_000 * (
                    count as int),
            ;
        }
        let prod: i128 = (v as i128) * (count as i128);
        let tolc: i128 = 4_000 * (count as i128);
        let diff: i128 = prod - sum;
        proof {
            assert(prod as int == (v as int) * cnt0);
            assert(tolc as int == tol * cnt0);
            assert(diff as int == (v as int) * cnt0 - sum0);
        }
        if -tolc <= diff && diff <= tolc {
            proof {
                assert(in_group(v as int, sum0, cnt0, tol));
                assert(cluster_from(ss, tol, i as int, sum0, cnt0) == cluster_from(
                    ss,
                    tol,
                    i as int + 1,
                    sum0 + v,
                    cnt0 + 1,
                ));
            }
            sum = sum + v as i128;
            count = count + 1;
        } else {
            proof {
                assert(!in_group(v as int, sum0, cnt0, tol));
                assert(cluster_from(ss, tol, i as int, sum0, cnt0) == seq![
                    group_line(sum0, cnt0),
                ] + cluster_from(ss, tol, i as int + 1, v as int, 1));
            }
            let line = seal_group(sum, count);
            let ghost pre: Seq<i64> = result@;
            result.push(line);
            proof {
                assert(result@.map_values(|x: i64| x as int) =~= pre.map_values(|x: i64| x as int)
                    + seq![line as int]);
                assert((pre.map_values(|x: i64| x as int) + seq![group_line(sum0, cnt0)])
                    + cluster_from(ss, tol, i as int + 1, v as int, 1) =~= pre.map_values(
                    |x: i64| x as int,
                ) + (seq![group_line(sum0, cnt0)] + cluster_from(ss, tol, i as int + 1, v as int, 1)));
            }
            sum = v as i128;
            count = 1;
        }
        i = i + 1;
    }
    let line = seal_group(sum, count);
    let ghost pre: Seq<i64> = result@;
    result.push(line);
    proof {
        assert(result@.map_values(|x: i64| x as int) =~= pre.map_values(|x: i64| x as int) + seq![
            line as int,
        ]);
        lemma_cluster_from_sorted(ss, SNAP_TOL as int, 1, ss[0] as int, 1, ss[0] as int);
        let lines = cluster_lines(orig, SNAP_TOL as int);
        assert forall|a: int, b: int| 0 <= a < b < result@.len() implies result@[a]
            < result@[b] by {
            assert(result@.map_values(|x: i64| x as int)[a] == result@[a] as int);
            assert(result@.map_values(|x: i64| x as int)[b] == result@[b] as int);
            assert(lines[a] < lines[b]);
        }
    }
    result
}

/// Index of the entry of `breaks` nearest to `target`, ties broken by the
/// lowest index; 0 when `breaks` is empty.
pub fn find_coord_idx(breaks: &Vec<i64>, target: i64) -> (r: usize)
    requires
        forall|i: int|
            0 <= i < breaks@.len() ==> -BREAK_LIMIT <= #[trigger] breaks@[i] <= BREAK_LIMIT,
        -BREAK_LIMIT <= target <= BREAK_LIMIT,
    ensures
        r as int == nearest_idx(breaks@.map_values(|x: i64| x as int), target as int),
        breaks@.len() > 0 ==> r < breaks@.len(),
{
    if breaks.len() == 0 {
        return 0;
    }
    let ghost lines: Seq<int> = breaks@.map_values(|x: i64| x as int);
    let mut best: usize = 0;
    let mut i: usize = 1;
    while i < breaks.len()
        invariant
            lines == breaks@.map_values(|x: i64| x as int),
            1 <= i <= breaks@.len(),
            best < i,
            forall|k: int|
                0 <= k < breaks@.len() ==> -BREAK_LIMIT <= #[trigger] breaks@[k] <= BREAK_LIMIT,
            -BREAK_LIMIT <= target <= BREAK_LIMIT,
            best as int == nearest_idx(lines.take(i as int), target as int),
        decreases breaks@.len() - i,
    {
        proof {
            assert(lines.take(i + 1).drop_last() =~= lines.take(i as int));
            assert(lines.take(i + 1).last() == breaks@[i as int] as int);
            assert(lines.take(i as int)[best as int] == breaks@[best as int] as int);
        }
        let da = abs_diff(breaks[i], target);
        let db = abs_diff(breaks[best], target);
        if da < db {
            best = i;
        }
        i = i + 1;
    }
    proof {
        assert(lines.take(breaks@.len() as int) =~= lines);
    }
    best
}

/// `|a - b|` for bounded coordinates.
fn abs_diff(a: i64, b: i64) -> (r: i64)
    requires
        -BREAK_LIMIT <= a <= BREAK_LIMIT,
        -BREAK_LIMIT <= b <= BREAK_LIMIT,
    ensures
        r as int == dist(a as int, b as int),
{
    if a >= b {
        a - b
    } else {
        b - a
    }
}

} // verus!
