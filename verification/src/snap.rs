//! Per-axis 9-point alignment search over spatial-hash query results.
//!
//! For each candidate sibling, nine (target, sibling) coordinate pairs per
//! axis are tested in a fixed order: target left/center/right against
//! sibling left/center/right (top/middle/bottom on the Y axis). The first
//! pair within the snap threshold wins: the signed delta closes the gap to
//! exactly zero, one guide is emitted for the axis, and the axis is done.
//! This is a first-match policy over candidates in query order; the order
//! is part of the observable contract.
use vstd::prelude::*;
use crate::cluster::dist;
use crate::spatial::LayoutEngine;
use crate::SimpleRect;
use crate::COORD_LIMIT;

verus! {

/// Orientation of an alignment guide.
#[derive(Clone, Copy, Debug, PartialEq, Eq, Structural)]
pub enum Orientation {
    Vertical,
    Horizontal,
}

/// Kind of a guide; alignment guides are the only kind emitted.
#[derive(Clone, Copy, Debug, PartialEq, Eq, Structural)]
pub enum GuideKind {
    Align,
}

/// A transient visual alignment indicator: `pos` is the aligned
/// coordinate, `[start, end]` spans the union of the two rectangles'
/// extents on the perpendicular axis.
#[derive(Clone, Copy, Debug, PartialEq, Eq, Structural)]
pub struct Guide {
    pub orientation: Orientation,
    pub pos: i64,
    pub start: i64,
    pub end: i64,
    pub guide_type: GuideKind,
}

/// Result of one snap query: the corrected position and its guides.
pub struct SnapResult {
    pub x: i64,
    pub y: i64,
    pub guides: Vec<Guide>,
}

/// State of the snap scan: current position, which axes have snapped, and
/// the guides emitted so far.
pub struct SnapState {
    pub x: int,
    pub y: int,
    pub snapped_x: bool,
    pub snapped_y: bool,
    pub guides: Seq<Guide>,
}

/// An axis alignment point: start, center or end of a span.
pub open spec fn axis_pt(base: int, size: int, sel: int) -> int {
    if sel == 0 {
        base
    } else if sel == 1 {
        base + size / 2
    } else {
        base + size
    }
}

/// Whether pair `j` (target point `j / 3` against sibling point `j % 3`)
/// lies within the snap threshold.
pub open spec fn pair_matches(pos: int, size: int, s0: int, ssize: int, thresh: int, j: int) -> bool {
    dist(axis_pt(pos, size, j / 3), axis_pt(s0, ssize, j % 3)) < thresh
}

/// The first of the nine pairs, from `j` on, within the threshold.
pub open spec fn first_pair_from(
    pos: int,
    size: int,
    s0: int,
    ssize: int,
    thresh: int,
    j: int,
) -> Option<int>
    decreases 9 - j,
{
    if j < 0 || j >= 9 {
        None
    } else if pair_matches(pos, size, s0, ssize, thresh, j) {
        Some(j)
    } else {
        first_pair_from(pos, size, s0, ssize, thresh, j + 1)
    }
}

/// The first of the nine pairs within the threshold, in the fixed order.
pub open spec fn first_pair(pos: int, size: int, s0: int, ssize: int, thresh: int) -> Option<int> {
    first_pair_from(pos, size, s0, ssize, thresh, 0)
}

/// One candidate step of the snap scan: try the X axis, then the Y axis.
pub open spec fn snap_step(st: SnapState, sib: SimpleRect, w: int, h: int, thresh: int) -> SnapState {
    let st1 = if !st.snapped_x {
        match first_pair(st.x, w, sib.x as int, sib.w as int, thresh) {
            Some(j) => {
                let s = axis_pt(sib.x as int, sib.w as int, j % 3);
                let t = axis_pt(st.x, w, j / 3);
                SnapState {
                    x: st.x + (s - t),
                    y: st.y,
                    snapped_x: true,
                    snapped_y: st.snapped_y,
                    guides: st.guides.push(
                        Guide {
                            orientation: Orientation::Vertical,
                            pos: s as i64,
                            start: (if st.y <= sib.y as int {
                                st.y
                            } else {
                                sib.y as int
                            }) as i64,
                            end: (if st.y + h >= sib.y + sib.h {
                                st.y + h
                            } else {
                                sib.y + sib.h
                            }) as i64,
                            guide_type: GuideKind::Align,
                        },
                    ),
                }
            },
            None => st,
        }
    } else {
        st
    };
    if !st1.snapped_y {
        match first_pair(st1.y, h, sib.y as int, sib.h as int, thresh) {
            Some(j) => {
                let s = axis_pt(sib.y as int, sib.h as int, j % 3);
                let t = axis_pt(st1.y, h, j / 3);
                SnapState {
                    x: st1.x,
                    y: st1.y + (s - t),
                    snapped_x: st1.snapped_x,
                    snapped_y: true,
                    guides: st1.guides.push(
                        Guide {
                            orientation: Orientation::Horizontal,
                            pos: s as i64,
                            start: (if st1.x <= sib.x as int {
                                st1.x
                            } else {
                                sib.x as int
                            }) as i64,
                            end: (if st1.x + w >= sib.x + sib.w {
                                st1.x + w
                            } else {
                                sib.x + sib.w
                            }) as i64,
                            guide_type: GuideKind::Align,
                        },
                    ),
                }
            },
            None => st1,
        }
    } else {
        st1
    }
}

/// The snap scan over the candidate list, stopping once both axes have
/// snapped.
pub open spec fn snap_fold(
    rects: Seq<SimpleRect>,
    cands: Seq<usize>,
    st: SnapState,
    w: int,
    h: int,
    thresh: int,
) -> SnapState
    decreases cands.len(),
{
    if cands.len() == 0 || (st.snapped_x && st.snapped_y) {
        st
    } else {
        snap_fold(
            rects,
            cands.drop_first(),
            snap_step(st, rects[cands[0] as int], w, h, thresh),
            w,
            h,
            thresh,
        )
    }
}

/// The scan state before any candidate is examined.
pub open spec fn init_state(x: int, y: int) -> SnapState {
    SnapState { x, y, snapped_x: false, snapped_y: false, guides: Seq::empty() }
}

/// Position in `cands` of the first candidate with an X-axis pair within
/// the threshold of a target at `pos`.
pub open spec fn first_snap_x(
    rects: Seq<SimpleRect>,
    cands: Seq<usize>,
    pos: int,
    size: int,
    thresh: int,
) -> Option<int>
    decreases cands.len(),
{
    if cands.len() == 0 {
        None
    } else if first_pair(
        pos,
        size,
        rects[cands[0] as int].x as int,
        rects[cands[0] as int].w as int,
        thresh,
    ) is Some {
        Some(0)
    } else {
        match first_snap_x(rects, cands.drop_first(), pos, size, thresh) {
            Some(k) => Some(k + 1),
            None => None,
        }
    }
}

/// Position in `cands` of the first candidate with a Y-axis pair within
/// the threshold of a target at `pos`.
pub open spec fn first_snap_y(
    rects: Seq<SimpleRect>,
    cands: Seq<usize>,
    pos: int,
    size: int,
    thresh: int,
) -> Option<int>
    decreases cands.len(),
{
    if cands.len() == 0 {
        None
    } else if first_pair(
        pos,
        size,
        rects[cands[0] as int].y as int,
        rects[cands[0] as int].h as int,
        thresh,
    ) is Some {
        Some(0)
    } else {
        match first_snap_y(rects, cands.drop_first(), pos, size, thresh) {
            Some(k) => Some(k + 1),
            None => None,
        }
    }
}

/// The X coordinate the scan returns: unchanged unless some candidate
/// matched, in which case the matched pair's gap is closed exactly.
pub open spec fn snapped_x_pos(
    rects: Seq<SimpleRect>,
    cands: Seq<usize>,
    pos: int,
    size: int,
    thresh: int,
) -> int {
    match first_snap_x(rects, cands, pos, size, thresh) {
        Some(k) => {
            let sib = rects[cands[k] as int];
            match first_pair(pos, size, sib.x as int, sib.w as int, thresh) {
                Some(j) => pos + (axis_pt(sib.x as int, sib.w as int, j % 3) - axis_pt(
                    pos,
                    size,
                    j / 3,
                )),
                None => pos,
            }
        },
        None => pos,
    }
}

/// The Y coordinate the scan returns.
pub open spec fn snapped_y_pos(
    rects: Seq<SimpleRect>,
    cands: Seq<usize>,
    pos: int,
    size: int,
    thresh: int,
) -> int {
    match first_snap_y(rects, cands, pos, size, thresh) {
        Some(k) => {
            let sib = rects[cands[k] as int];
            match first_pair(pos, size, sib.y as int, sib.h as int, thresh) {
                Some(j) => pos + (axis_pt(sib.y as int, sib.h as int, j % 3) - axis_pt(
                    pos,
                    size,
                    j / 3,
                )),
                None => pos,
            }
        },
        None => pos,
    }
}

/// When the X scan reports a match, the reported position is a valid
/// candidate index whose first pair is within the threshold.
pub proof fn lemma_first_snap_x_some(
    rects: Seq<SimpleRect>,
    cands: Seq<usize>,
    pos: int,
    size: int,
    thresh: int,
)
    ensures
        match first_snap_x(rects, cands, pos, size, thresh) {
            Some(k) => 0 <= k < cands.len() && first_pair(
                pos,
                size,
                rects[cands[k] as int].x as int,
                rects[cands[k] as int].w as int,
                thresh,
            ) is Some,
            None => true,
        },
    decreases cands.len(),
{
    if cands.len() > 0 {
        if first_pair(
            pos,
            size,
            rects[cands[0] as int].x as int,
            rects[cands[0] as int].w as int,
            thresh,
        ) is Some {
        } else {
            lemma_first_snap_x_some(rects, cands.drop_first(), pos, size, thresh);
            match first_snap_x(rects, cands.drop_first(), pos, size, thresh) {
                Some(k) => {
                    assert(cands.drop_first()[k] == cands[k + 1]);
                },
                None => {},
            }
        }
    }
}

/// When the Y scan reports a match, the reported position is a valid
/// candidate index whose first pair is within the threshold.
pub proof fn lemma_first_snap_y_some(
    rects: Seq<SimpleRect>,
    cands: Seq<usize>,
    pos: int,
    size: int,
    thresh: int,
)
    ensures
        match first_snap_y(rects, cands, pos, size, thresh) {
            Some(k) => 0 <= k < cands.len() && first_pair(
                pos,
                size,
                rects[cands[k] as int].y as int,
                rects[cands[k] as int].h as int,
                thresh,
            ) is Some,
            None => true,
        },
    decreases cands.len(),
{
    if cands.len() > 0 {
        if first_pair(
            pos,
            size,
            rects[cands[0] as int].y as int,
            rects[cands[0] as int].h as int,
            thresh,
        ) is Some {
        } else {
            lemma_first_snap_y_some(rects, cands.drop_first(), pos, size, thresh);
            match first_snap_y(rects, cands.drop_first(), pos, size, thresh) {
                Some(k) => {
                    assert(cands.drop_first()[k] == cands[k + 1]);
                },
                None => {},
            }
        }
    }
}

/// Once the X axis has snapped, the scan never moves `x` again.
proof fn lemma_fold_keeps_x(
    rects: Seq<SimpleRect>,
    cands: Seq<usize>,
    st: SnapState,
    w: int,
    h: int,
    thresh: int,
)
    requires
        st.snapped_x,
    ensures
        snap_fold(rects, cands, st, w, h, thresh).x == st.x,
        snap_fold(rects, cands, st, w, h, thresh).snapped_x,
    decreases cands.len(),
{
    if cands.len() > 0 && !(st.snapped_x && st.snapped_y) {
        let st1 = snap_step(st, rects[cands[0] as int], w, h, thresh);
        assert(st1.x == st.x && st1.snapped_x);
        lemma_fold_keeps_x(rects, cands.drop_first(), st1, w, h, thresh);
    }
}

/// Once the Y axis has snapped, the scan never moves `y` again.
proof fn lemma_fold_keeps_y(
    rects: Seq<SimpleRect>,
    cands: Seq<usize>,
    st: SnapState,
    w: int,
    h: int,
    thresh: int,
)
    requires
        st.snapped_y,
    ensures
        snap_fold(rects, cands, st, w, h, thresh).y == st.y,
        snap_fold(rects, cands, st, w, h, thresh).snapped_y,
    decreases cands.len(),
{
    if cands.len() > 0 && !(st.snapped_x && st.snapped_y) {
        let st1 = snap_step(st, rects[cands[0] as int], w, h, thresh);
        assert(st1.y == st.y && st1.snapped_y);
        lemma_fold_keeps_y(rects, cands.drop_first(), st1, w, h, thresh);
    }
}

/// A scan with both axes already snapped changes nothing.
proof fn lemma_fold_stable(
    rects: Seq<SimpleRect>,
    cands: Seq<usize>,
    st: SnapState,
    w: int,
    h: int,
    thresh: int,
)
    requires
        st.snapped_x,
        st.snapped_y,
    ensures
        snap_fold(rects, cands, st, w, h, thresh) == st,
{
}

/// The scan's guide discipline: the guides already emitted stay as a
/// prefix, exactly one guide is added per axis that snaps during the
/// scan, every added vertical guide belongs to an X snap and every added
/// horizontal guide to a Y snap. An axis that never matches gets none.
pub proof fn lemma_fold_guides(
    rects: Seq<SimpleRect>,
    cands: Seq<usize>,
    st: SnapState,
    w: int,
    h: int,
    thresh: int,
)
    ensures
        ({
            let f = snap_fold(rects, cands, st, w, h, thresh);
            &&& st.guides.len() <= f.guides.len()
            &&& f.guides.take(st.guides.len() as int) =~= st.guides
            &&& f.guides.len() == st.guides.len() + (if f.snapped_x && !st.snapped_x {
                1int
            } else {
                0int
            }) + (if f.snapped_y && !st.snapped_y {
                1int
            } else {
                0int
            })
            &&& (st.snapped_x ==> f.snapped_x)
            &&& (st.snapped_y ==> f.snapped_y)
            &&& forall|k: int|
                st.guides.len() <= k < f.guides.len() ==> ((#[trigger] f.guides[k]).orientation
                    == Orientation::Vertical ==> (f.snapped_x && !st.snapped_x))
            &&& forall|k: int|
                st.guides.len() <= k < f.guides.len() ==> ((#[trigger] f.guides[k]).orientation
                    == Orientation::Horizontal ==> (f.snapped_y && !st.snapped_y))
        }),
    decreases cands.len(),
{
    let f = snap_fold(rects, cands, st, w, h, thresh);
    if cands.len() == 0 || (st.snapped_x && st.snapped_y) {
        assert(f.guides.take(st.guides.len() as int) =~= st.guides);
    } else {
        let sib = rects[cands[0] as int];
        let st1 = snap_step(st, sib, w, h, thresh);
        lemma_fold_guides(rects, cands.drop_first(), st1, w, h, thresh);
        assert(st1.guides.take(st.guides.len() as int) =~= st.guides);
        assert forall|k: int|
            0 <= k < st.guides.len() implies f.guides[k] == st.guides[k] by {
            assert(f.guides.take(st1.guides.len() as int)[k] == st1.guides[k]);
            assert(st1.guides.take(st.guides.len() as int)[k] == st.guides[k]);
        }
        assert(f.guides.take(st.guides.len() as int) =~= st.guides);
        assert forall|k: int|
            st.guides.len() <= k < st1.guides.len() implies f.guides[k] == st1.guides[k] by {
            assert(f.guides.take(st1.guides.len() as int)[k] == st1.guides[k]);
        }
    }
}

/// The X coordinate of the scan is exactly the first-match X scan: the
/// first candidate in order with a pair within the threshold of the
/// starting position decides it, and no candidate means no movement.
pub proof fn lemma_fold_x_char(
    rects: Seq<SimpleRect>,
    cands: Seq<usize>,
    st: SnapState,
    w: int,
    h: int,
    thresh: int,
)
    requires
        !st.snapped_x,
    ensures
        snap_fold(rects, cands, st, w, h, thresh).snapped_x == (first_snap_x(
            rects,
            cands,
            st.x,
            w,
            thresh,
        ) is Some),
        snap_fold(rects, cands, st, w, h, thresh).x == snapped_x_pos(rects, cands, st.x, w, thresh),
    decreases cands.len(),
{
    if cands.len() > 0 {
        let sib = rects[cands[0] as int];
        let st1 = snap_step(st, sib, w, h, thresh);
        match first_pair(st.x, w, sib.x as int, sib.w as int, thresh) {
            Some(j) => {
                assert(st1.snapped_x);
                lemma_fold_keeps_x(rects, cands.drop_first(), st1, w, h, thresh);
            },
            None => {
                assert(st1.x == st.x && !st1.snapped_x);
                lemma_fold_x_char(rects, cands.drop_first(), st1, w, h, thresh);
                lemma_first_snap_x_some(rects, cands.drop_first(), st.x, w, thresh);
                match first_snap_x(rects, cands.drop_first(), st.x, w, thresh) {
                    Some(k) => {
                        assert(cands.drop_first()[k] == cands[k + 1]);
                    },
                    None => {},
                }
            },
        }
    }
}

/// The Y coordinate of the scan is exactly the first-match Y scan.
pub proof fn lemma_fold_y_char(
    rects: Seq<SimpleRect>,
    cands: Seq<usize>,
    st: SnapState,
    w: int,
    h: int,
    thresh: int,
)
    requires
        !st.snapped_y,
    ensures
        snap_fold(rects, cands, st, w, h, thresh).snapped_y == (first_snap_y(
            rects,
            cands,
            st.y,
            h,
            thresh,
        ) is Some),
        snap_fold(rects, cands, st, w, h, thresh).y == snapped_y_pos(rects, cands, st.y, h, thresh),
    decreases cands.len(),
{
    if cands.len() > 0 {
        let sib = rects[cands[0] as int];
        let st1 = snap_step(st, sib, w, h, thresh);
        match first_pair(st.y, h, sib.y as int, sib.h as int, thresh) {
            Some(j) => {
                assert(st1.snapped_y);
                lemma_fold_keeps_y(rects, cands.drop_first(), st1, w, h, thresh);
            },
            None => {
                assert(st1.y == st.y && !st1.snapped_y);
                lemma_fold_y_char(rects, cands.drop_first(), st1, w, h, thresh);
                lemma_first_snap_y_some(rects, cands.drop_first(), st.y, h, thresh);
                match first_snap_y(rects, cands.drop_first(), st.y, h, thresh) {
                    Some(k) => {
                        assert(cands.drop_first()[k] == cands[k + 1]);
                    },
                    None => {},
                }
            },
        }
    }
}

/// A snapped axis closes its matched gap to exactly zero: when the X scan
/// matches pair `j` of a candidate, the aligned target point of the
/// returned coordinate coincides with the sibling point.
pub proof fn lemma_snap_closes_gap_x(
    rects: Seq<SimpleRect>,
    cands: Seq<usize>,
    pos: int,
    size: int,
    thresh: int,
)
    ensures
        match first_snap_x(rects, cands, pos, size, thresh) {
            Some(k) => {
                let sib = rects[cands[k] as int];
                match first_pair(pos, size, sib.x as int, sib.w as int, thresh) {
                    Some(j) => axis_pt(snapped_x_pos(rects, cands, pos, size, thresh), size, j / 3)
                        == axis_pt(sib.x as int, sib.w as int, j % 3),
                    None => false,
                }
            },
            None => snapped_x_pos(rects, cands, pos, size, thresh) == pos,
        },
{
    lemma_first_snap_x_some(rects, cands, pos, size, thresh);
    match first_snap_x(rects, cands, pos, size, thresh) {
        Some(k) => {
            let sib = rects[cands[k] as int];
            match first_pair(pos, size, sib.x as int, sib.w as int, thresh) {
                Some(j) => {
                    let x1 = snapped_x_pos(rects, cands, pos, size, thresh);
                    assert(x1 == pos + (axis_pt(sib.x as int, sib.w as int, j % 3) - axis_pt(
                        pos,
                        size,
                        j / 3,
                    )));
                },
                None => {},
            }
        },
        None => {},
    }
}

/// The Y-axis analogue of `lemma_snap_closes_gap_x`.
pub proof fn lemma_snap_closes_gap_y(
    rects: Seq<SimpleRect>,
    cands: Seq<usize>,
    pos: int,
    size: int,
    thresh: int,
)
    ensures
        match first_snap_y(rects, cands, pos, size, thresh) {
            Some(k) => {
                let sib = rects[cands[k] as int];
                match first_pair(pos, size, sib.y as int, sib.h as int, thresh) {
                    Some(j) => axis_pt(snapped_y_pos(rects, cands, pos, size, thresh), size, j / 3)
                        == axis_pt(sib.y as int, sib.h as int, j % 3),
                    None => false,
                }
            },
            None => snapped_y_pos(rects, cands, pos, size, thresh) == pos,
        },
{
    lemma_first_snap_y_some(rects, cands, pos, size, thresh);
    match first_snap_y(rects, cands, pos, size, thresh) {
        Some(k) => {
            let sib = rects[cands[k] as int];
            match first_pair(pos, size, sib.y as int, sib.h as int, thresh) {
                Some(j) => {
                    let y1 = snapped_y_pos(rects, cands, pos, size, thresh);
                    assert(y1 == pos + (axis_pt(sib.y as int, sib.h as int, j % 3) - axis_pt(
                        pos,
                        size,
                        j / 3,
                    )));
                },
                None => {},
            }
        },
        None => {},
    }
}

/// When no candidate matches either axis, the scan returns its starting
/// state unchanged — position, flags and guides — so re-querying an
/// unmoved position yields the identical result.
pub proof fn lemma_fold_no_match(
    rects: Seq<SimpleRect>,
    cands: Seq<usize>,
    st: SnapState,
    w: int,
    h: int,
    thresh: int,
)
    requires
        !st.snapped_x,
        !st.snapped_y,
        first_snap_x(rects, cands, st.x, w, thresh) is None,
        first_snap_y(rects, cands, st.y, h, thresh) is None,
    ensures
        snap_fold(rects, cands, st, w, h, thresh) == st,
    decreases cands.len(),
{
    if cands.len() > 0 {
        let sib = rects[cands[0] as int];
        let st1 = snap_step(st, sib, w, h, thresh);
        assert(first_pair(st.x, w, sib.x as int, sib.w as int, thresh) is None);
        assert(first_pair(st.y, h, sib.y as int, sib.h as int, thresh) is None);
        assert(st1 == st);
        lemma_fold_no_match(rects, cands.drop_first(), st1, w, h, thresh);
    }
}

/// Re-running the X scan from an already-snapped coordinate returns it
/// unchanged, provided the first match from the snapped coordinate is the
/// same (candidate, pair) that produced it. Without that proviso a
/// narrower sibling earlier in the order can capture the snapped edge and
/// the position drifts.
pub proof fn lemma_snap_idempotent_x(
    rects: Seq<SimpleRect>,
    cands: Seq<usize>,
    pos: int,
    size: int,
    thresh: int,
)
    requires
        ({
            let x1 = snapped_x_pos(rects, cands, pos, size, thresh);
            &&& first_snap_x(rects, cands, x1, size, thresh) == first_snap_x(
                rects,
                cands,
                pos,
                size,
                thresh,
            )
            &&& match first_snap_x(rects, cands, pos, size, thresh) {
                Some(k) => first_pair(
                    x1,
                    size,
                    rects[cands[k] as int].x as int,
                    rects[cands[k] as int].w as int,
                    thresh,
                ) == first_pair(
                    pos,
                    size,
                    rects[cands[k] as int].x as int,
                    rects[cands[k] as int].w as int,
                    thresh,
                ),
                None => true,
            }
        }),
    ensures
        ({
            let x1 = snapped_x_pos(rects, cands, pos, size, thresh);
            snapped_x_pos(rects, cands, x1, size, thresh) == x1
        }),
{
    let x1 = snapped_x_pos(rects, cands, pos, size, thresh);
    match first_snap_x(rects, cands, pos, size, thresh) {
        Some(k) => {
            let sib = rects[cands[k] as int];
            match first_pair(pos, size, sib.x as int, sib.w as int, thresh) {
                Some(j) => {
                    assert(axis_pt(x1, size, j / 3) == axis_pt(sib.x as int, sib.w as int, j % 3));
                },
                None => {},
            }
        },
        None => {},
    }
}

/// The Y-axis analogue of `lemma_snap_idempotent_x`.
pub proof fn lemma_snap_idempotent_y(
    rects: Seq<SimpleRect>,
    cands: Seq<usize>,
    pos: int,
    size: int,
    thresh: int,
)
    requires
        ({
            let y1 = snapped_y_pos(rects, cands, pos, size, thresh);
            &&& first_snap_y(rects, cands, y1, size, thresh) == first_snap_y(
                rects,
                cands,
                pos,
                size,
                thresh,
            )
            &&& match first_snap_y(rects, cands, pos, size, thresh) {
                Some(k) => first_pair(
                    y1,
                    size,
                    rects[cands[k] as int].y as int,
                    rects[cands[k] as int].h as int,
                    thresh,
                ) == first_pair(
                    pos,
                    size,
                    rects[cands[k] as int].y as int,
                    rects[cands[k] as int].h as int,
                    thresh,
                ),
                None => true,
            }
        }),
    ensures
        ({
            let y1 = snapped_y_pos(rects, cands, pos, size, thresh);
            snapped_y_pos(rects, cands, y1, size, thresh) == y1
        }),
{
    let y1 = snapped_y_pos(rects, cands, pos, size, thresh);
    match first_snap_y(rects, cands, pos, size, thresh) {
        Some(k) => {
            let sib = rects[cands[k] as int];
            match first_pair(pos, size, sib.y as int, sib.h as int, thresh) {
                Some(j) => {
                    assert(axis_pt(y1, size, j / 3) == axis_pt(sib.y as int, sib.h as int, j % 3));
                },
                None => {},
            }
        },
        None => {},
    }
}

/// Half of a nonnegative span.
fn half(size: i64) -> (r: i64)
    requires
        0 <= size,
    ensures
        r as int == size as int / 2,
{
    ((size as u64) / 2) as i64
}

/// The axis alignment point `sel` of a span.
fn axis_pt_exec(base: i64, size: i64, sel: usize) -> (r: i64)
    requires
        sel <= 2,
        0 <= size <= COORD_LIMIT,
        -3 * COORD_LIMIT <= base as int <= 3 * COORD_LIMIT,
    ensures
        r as int == axis_pt(base as int, size as int, sel as int),
        -3 * COORD_LIMIT <= r as int <= 4 * COORD_LIMIT,
{
    if sel == 0 {
        base
    } else if sel == 1 {
        base + half(size)
    } else {
        base + size
    }
}

/// `|a - b|` for snap-scan coordinates.
fn snap_dist(a: i64, b: i64) -> (r: i64)
    requires
        -4_000_000_000_000 <= a <= 4_000_000_000_000,
        -4_000_000_000_000 <= b <= 4_000_000_000_000,
    ensures
        r as int == dist(a as int, b as int),
{
    if a >= b {
        a - b
    } else {
        b - a
    }
}

/// The first of the nine pairs within the threshold for one candidate's
/// axis, in the fixed order.
fn find_first_pair(tpos: i64, tsize: i64, s0: i64, ssize: i64, thresh: i64) -> (r: Option<usize>)
    requires
        -3 * COORD_LIMIT <= tpos as int <= 3 * COORD_LIMIT,
        0 <= tsize <= COORD_LIMIT,
        -COORD_LIMIT <= s0 <= COORD_LIMIT,
        0 <= ssize <= COORD_LIMIT,
        0 <= thresh <= COORD_LIMIT,
    ensures
        match r {
            Some(j) => j < 9 && first_pair(
                tpos as int,
                tsize as int,
                s0 as int,
                ssize as int,
                thresh as int,
            ) == Some(j as int),
            None => first_pair(tpos as int, tsize as int, s0 as int, ssize as int, thresh as int)
                is None,
        },
{
    let mut j: usize = 0;
    while j < 9
        invariant
            j <= 9,
            -3 * COORD_LIMIT <= tpos as int <= 3 * COORD_LIMIT,
            0 <= tsize <= COORD_LIMIT,
            -COORD_LIMIT <= s0 <= COORD_LIMIT,
            0 <= ssize <= COORD_LIMIT,
            0 <= thresh <= COORD_LIMIT,
            first_pair(tpos as int, tsize as int, s0 as int, ssize as int, thresh as int)
                == first_pair_from(
                tpos as int,
                tsize as int,
                s0 as int,
                ssize as int,
                thresh as int,
                j as int,
            ),
        decreases 9 - j,
    {
        let t = axis_pt_exec(tpos, tsize, j / 3);
        let s = axis_pt_exec(s0, ssize, j % 3);
        if snap_dist(t, s) < thresh {
            return Some(j);
        }
        j = j + 1;
    }
    None
}

impl LayoutEngine {
    /// Snap query: five scalars in, the corrected position and guides out.
    ///
    /// The result is the first-match scan over the spatial-hash candidates
    /// in query order (`snap_fold`); per axis, the returned coordinate is
    /// determined by the first candidate and pair within the threshold of
    /// the starting position, and is unchanged when none matches.
    pub fn query_snapping(
        &self,
        current_x: i64,
        current_y: i64,
        width: i64,
        height: i64,
        threshold: i64,
    ) -> (r: SnapResult)
        requires
            self.wf(),
            -COORD_LIMIT <= current_x <= COORD_LIMIT,
            -COORD_LIMIT <= current_y <= COORD_LIMIT,
            0 <= width <= COORD_LIMIT,
            0 <= height <= COORD_LIMIT,
            0 <= threshold <= COORD_LIMIT,
        ensures
            ({
                let cands = self.candidates_of(
                    current_x as int,
                    current_y as int,
                    width as int,
                    height as int,
                    threshold as int,
                );
                let st = snap_fold(
                    self.rects_seq(),
                    cands,
                    init_state(current_x as int, current_y as int),
                    width as int,
                    height as int,
                    threshold as int,
                );
                &&& r.x as int == st.x
                &&& r.y as int == st.y
                &&& r.guides@ == st.guides
                &&& r.x as int == snapped_x_pos(
                    self.rects_seq(),
                    cands,
                    current_x as int,
                    width as int,
                    threshold as int,
                )
                &&& r.y as int == snapped_y_pos(
                    self.rects_seq(),
                    cands,
                    current_y as int,
                    height as int,
                    threshold as int,
                )
                &&& r.guides@.len() == (if st.snapped_x {
                    1int
                } else {
                    0int
                }) + (if st.snapped_y {
                    1int
                } else {
                    0int
                })
                &&& forall|k: int|
                    0 <= k < r.guides@.len() ==> ((#[trigger] r.guides@[k]).orientation
                        == Orientation::Vertical ==> st.snapped_x)
                &&& forall|k: int|
                    0 <= k < r.guides@.len() ==> ((#[trigger] r.guides@[k]).orientation
                        == Orientation::Horizontal ==> st.snapped_y)
            }),
    {
        let ghost rects: Seq<SimpleRect> = self.rects_seq();
        let candidates = self.query_candidates(current_x, current_y, width, height, threshold);
        let ghost cands: Seq<usize> = candidates@;
        let ghost w: int = width as int;
        let ghost h: int = height as int;
        let ghost th: int = threshold as int;
        let ghost st0: SnapState = init_state(current_x as int, current_y as int);
        let mut new_x = current_x;
        let mut new_y = current_y;
        let mut guides: Vec<Guide> = Vec::new();
        let mut snapped_x = false;
        let mut snapped_y = false;
        let mut i: usize = 0;
        proof {
            assert(cands.skip(0) =~= cands);
            assert(guides@ =~= Seq::<Guide>::empty());
            assert(SnapState {
                x: current_x as int,
                y: current_y as int,
                snapped_x: false,
                snapped_y: false,
                guides: guides@,
            } == st0);
        }
        while i < candidates.len() && !(snapped_x && snapped_y)
            invariant
                self.wf(),
                rects == self.rects_seq(),
                cands == candidates@,
                w == width as int,
                h == height as int,
                th == threshold as int,
                st0 == init_state(current_x as int, current_y as int),
                -COORD_LIMIT <= current_x <= COORD_LIMIT,
                -COORD_LIMIT <= current_y <= COORD_LIMIT,
                0 <= width <= COORD_LIMIT,
                0 <= height <= COORD_LIMIT,
                0 <= threshold <= COORD_LIMIT,
                i <= cands.len(),
                forall|k: int| 0 <= k < cands.len() ==> (#[trigger] cands[k] as int) < rects.len(),
                !snapped_x ==> new_x == current_x,
                !snapped_y ==> new_y == current_y,
                -2 * COORD_LIMIT <= new_x as int <= 2 * COORD_LIMIT,
                -2 * COORD_LIMIT <= new_y as int <= 2 * COORD_LIMIT,
                snap_fold(rects, cands, st0, w, h, th) == snap_fold(
                    rects,
                    cands.skip(i as int),
                    SnapState {
                        x: new_x as int,
                        y: new_y as int,
                        snapped_x,
                        snapped_y,
                        guides: guides@,
                    },
                    w,
                    h,
                    th,
                ),
            decreases cands.len() - i,
        {
            let ghost cur: SnapState = SnapState {
                x: new_x as int,
                y: new_y as int,
                snapped_x,
                snapped_y,
                guides: guides@,
            };
            let idx = candidates[i];
            let sib = self.rect_at(idx);
            proof {
                assert(cands.skip(i as int)[0] == cands[i as int]);
                assert(cands.skip(i as int).drop_first() =~= cands.skip(i + 1));
                self.lemma_wf_bounds();
                assert((cands[i as int] as int) < rects.len());
                assert(sib.in_bounds());
            }
            if !snapped_x {
                match find_first_pair(new_x, width, sib.x, sib.w, threshold) {
                    Some(j) => {
                        let s = axis_pt_exec(sib.x, sib.w, j % 3);
                        let t = axis_pt_exec(new_x, width, j / 3);
                        let start = if new_y <= sib.y {
                            new_y
                        } else {
                            sib.y
                        };
                        let end_own = new_y + height;
                        let end_sib = sib.y + sib.h;
                        let end = if end_own >= end_sib {
                            end_own
                        } else {
                            end_sib
                        };
                        guides.push(
                            Guide {
                                orientation: Orientation::Vertical,
                                pos: s,
                                start,
                                end,
                                guide_type: GuideKind::Align,
                            },
                        );
                        new_x = new_x + (s - t);
                        snapped_x = true;
                    },
                    None => {},
                }
            }
            if !snapped_y {
                match find_first_pair(new_y, height, sib.y, sib.h, threshold) {
                    Some(j) => {
                        let s = axis_pt_exec(sib.y, sib.h, j % 3);
                        let t = axis_pt_exec(new_y, height, j / 3);
                        let start = if new_x <= sib.x {
                            new_x
                        } else {
                            sib.x
                        };
                        let end_own = new_x + width;
                        let end_sib = sib.x + sib.w;
                        let end = if end_own >= end_sib {
                            end_own
                        } else {
                            end_sib
                        };
                        guides.push(
                            Guide {
                                orientation: Orientation::Horizontal,
                                pos: s,
                                start,
                                end,
                                guide_type: GuideKind::Align,
                            },
                        );
                        new_y = new_y + (s - t);
                        snapped_y = true;
                    },
                    None => {},
                }
            }
            proof {
                let stepped = snap_step(cur, rects[cands[i as int] as int], w, h, th);
                assert(SnapState {
                    x: new_x as int,
                    y: new_y as int,
                    snapped_x,
                    snapped_y,
                    guides: guides@,
                } == stepped);
            }
            i = i + 1;
        }
        proof {
            let cur = SnapState {
                x: new_x as int,
                y: new_y as int,
                snapped_x,
                snapped_y,
                guides: guides@,
            };
            if snapped_x && snapped_y {
                lemma_fold_stable(rects, cands.skip(i as int), cur, w, h, th);
            } else {
                assert(cands.skip(i as int) =~= Seq::empty());
            }
            assert(snap_fold(rects, cands, st0, w, h, th) == cur);
            lemma_fold_x_char(rects, cands, st0, w, h, th);
            lemma_fold_y_char(rects, cands, st0, w, h, th);
            lemma_fold_guides(rects, cands, st0, w, h, th);
        }
        SnapResult { x: new_x, y: new_y, guides }
    }
}

} // verus!
