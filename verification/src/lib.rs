//! Geometric and state-management core for an interactive canvas editor:
//! spatial-hash-accelerated alignment snapping, tolerance-based
//! absolute-to-grid layout conversion, and a capacity-bounded,
//! compressed undo/redo history store.
//!
//! All coordinates are fixed-point canvas positions measured in
//! millipixels (1/1000 of a canvas pixel), held in `i64`.
use vstd::prelude::*;

pub mod cluster;
pub mod grid;
pub mod history;
pub mod numfmt;
pub mod snap;
pub mod spatial;

verus! {

/// Largest coordinate magnitude the engine accepts, in millipixels
/// (one billion canvas pixels); keeps all internal sums inside `i64`.
pub const COORD_LIMIT: i64 = 1_000_000_000_000;

/// Largest number of rectangles a single engine call accepts.
pub const MAX_RECTS: usize = 1_000_000;

/// An axis-aligned rectangle in canvas space, in millipixels.
#[derive(Clone, Copy, PartialEq, Eq, Structural)]
pub struct SimpleRect {
    pub x: i64,
    pub y: i64,
    pub w: i64,
    pub h: i64,
}

impl SimpleRect {
    /// A rectangle the engine can do arithmetic on: nonnegative extent,
    /// coordinates within `COORD_LIMIT`.
    pub open spec fn in_bounds(self) -> bool {
        &&& -COORD_LIMIT <= self.x <= COORD_LIMIT
        &&& -COORD_LIMIT <= self.y <= COORD_LIMIT
        &&& 0 <= self.w <= COORD_LIMIT
        &&& 0 <= self.h <= COORD_LIMIT
    }
}

} // verus!
