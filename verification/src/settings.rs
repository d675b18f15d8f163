//! World parameters and tunables, gathered in one immutable value.

use crate::fixed::{within, LIMIT, SCALE};
use crate::vec2::Vec2;
use vstd::prelude::*;

verus! {

/// Width of the world.
pub const SCREENSIZE_X: i64 = 1_280_000_000;

/// Height of the world.
pub const SCREENSIZE_Y: i64 = 680_000_000;

/// Half the width of the world.
pub const HALF_DIM_X: i64 = 640_000_000;

/// Half the height of the world.
pub const HALF_DIM_Y: i64 = 340_000_000;

/// Radius of a node, by which bounding boxes are padded.
pub const NODE_RADIUS: i64 = 5_000_000;

/// Rest length of a perimeter spring of the stock shapes.
pub const DEFAULT_RESTING_LENGTH: i64 = 100_000_000;

/// Horizontal pull of gravity.
pub const GRAVITY_X: i64 = 0;

/// Downward pull of gravity.
pub const GRAVITY_Y: i64 = 98_000_000;

/// Sub-iterations per tick.
pub const ITERATION_COUNT: u32 = 1;

/// Time that one tick advances.
pub const TIME_STEP: i64 = 100_000;

/// Stiffness of a spring.
pub const DEFAULT_STIFFNESS: i64 = 10_000_000;

/// Damping of a spring.
pub const DEFAULT_DAMPENING: i64 = 1_000_000;

/// Stiffness of the pull toward the skeleton.
pub const SKELETON_STIFFNESS: i64 = 5_000_000;

/// Everything a simulation step needs to know about the world.
#[derive(Clone, Copy, Debug)]
pub struct Config {
    /// Half extents of the world, which is centred on the origin.
    pub half_dim: Vec2,
    pub node_radius: i64,
    /// Gravity; a positive `y` pulls downward.
    pub gravity: Vec2,
    pub stiffness: i64,
    pub dampening: i64,
    pub skeleton_stiffness: i64,
    /// Sub-iterations per tick; forces and displacements of one sub-iteration are
    /// divided by it.
    pub iteration_count: u32,
    /// Time that one tick advances.
    pub dt: i64,
}

impl Config {
    /// The parameters are in the range the arithmetic is proved for: magnitudes
    /// up to `LIMIT`, at least one sub-iteration, and a time step of at most one
    /// whole unit.
    pub open spec fn wf(&self) -> bool {
        &&& 0 <= self.half_dim.x <= LIMIT
        &&& 0 <= self.half_dim.y <= LIMIT
        &&& 0 <= self.node_radius <= LIMIT
        &&& self.gravity@.within(LIMIT as int)
        &&& within(self.stiffness as int, LIMIT as int)
        &&& within(self.dampening as int, LIMIT as int)
        &&& within(self.skeleton_stiffness as int, LIMIT as int)
        &&& self.iteration_count >= 1
        &&& 0 <= self.dt <= SCALE
    }

    /// Whether the parameters are in range.
    pub fn is_valid(&self) -> (r: bool)
        ensures
            r == self.wf(),
    {
        0 <= self.half_dim.x && self.half_dim.x <= LIMIT && 0 <= self.half_dim.y
            && self.half_dim.y <= LIMIT && 0 <= self.node_radius && self.node_radius <= LIMIT
            && self.gravity.fits(LIMIT) && -LIMIT <= self.stiffness && self.stiffness <= LIMIT
            && -LIMIT <= self.dampening && self.dampening <= LIMIT && -LIMIT
            <= self.skeleton_stiffness && self.skeleton_stiffness <= LIMIT
            && self.iteration_count >= 1 && 0 <= self.dt && self.dt <= SCALE
    }

    /// The stock world: 1280 by 680 units, gravity 98 downward, one
    /// sub-iteration per tick of a tenth of a time unit.
    pub fn standard() -> (r: Config)
        ensures
            r.wf(),
            r.half_dim@.x == HALF_DIM_X && r.half_dim@.y == HALF_DIM_Y,
            r.node_radius == NODE_RADIUS,
            r.gravity@.x == GRAVITY_X && r.gravity@.y == GRAVITY_Y,
            r.stiffness == DEFAULT_STIFFNESS,
            r.dampening == DEFAULT_DAMPENING,
            r.skeleton_stiffness == SKELETON_STIFFNESS,
            r.iteration_count == ITERATION_COUNT,
            r.dt == TIME_STEP,
    {
        Config {
            half_dim: Vec2 { x: HALF_DIM_X, y: HALF_DIM_Y },
            node_radius: NODE_RADIUS,
            gravity: Vec2 { x: GRAVITY_X, y: GRAVITY_Y },
            stiffness: DEFAULT_STIFFNESS,
            dampening: DEFAULT_DAMPENING,
            skeleton_stiffness: SKELETON_STIFFNESS,
            iteration_count: ITERATION_COUNT,
            dt: TIME_STEP,
        }
    }
}

/// A point of the world in screen coordinates: the origin in the top left
/// corner, `y` growing downward.
pub open spec fn screen_coords(v: crate::vec2::V2, half_dim: crate::vec2::V2) -> crate::vec2::V2 {
    crate::vec2::V2 { x: v.x + half_dim.x, y: -v.y + half_dim.y }
}

/// A point of the world in screen coordinates.
pub fn world_to_screen_coords(vec: Vec2, half_dim: Vec2) -> (r: Vec2)
    requires
        vec@.within(crate::vec2::WIDE as int),
        half_dim@.within(crate::vec2::WIDE as int),
    ensures
        r@ == screen_coords(vec@, half_dim@),
{
    Vec2 { x: vec.x + half_dim.x, y: -vec.y + half_dim.y }
}

} // verus!
