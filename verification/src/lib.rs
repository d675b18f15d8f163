//! Soft bodies in two dimensions: point masses joined by springs, pulled toward a
//! rotating rigid skeleton, kept inside a rectangular world and pushed apart where
//! their outlines overlap.
//!
//! Every quantity is a fixed-point number held in an `i64` (see [`fixed`]), so each
//! step is exact integer arithmetic whose result the contracts state in full.
//!
//! A node has two positions. Forces and collisions read the current one; what
//! they decide gathers in the pending one and in the velocity, and the pending
//! position becomes current once per sub-iteration. A collision therefore sees
//! every body where its last step has left it, whatever has been pushed since.
//!
//! The contracts speak of the mathematical value of each type: [`vec2::V2`] for
//! a vector, [`body::NodeView`] for a node, [`body::BodyView`] for a body, all
//! over unbounded integers. A body must be sound in shape (`SB::wf`) wherever it
//! is used. A step asks more: that its numbers are within [`fixed::LIMIT`]
//! (`BodyView::in_range`), which [`world::update_processes`] tests before each
//! sub-iteration, so that no intermediate value leaves the range in which the
//! arithmetic is exact.
//!
//! - [`fixed`], [`vec2`], [`trig`]: numbers, vectors, sine and cosine.
//! - [`settings`]: the parameters of the world.
//! - [`body`]: nodes, connections, bodies and what is derived from them.
//! - [`spring`], [`step`]: the forces inside a body and its sub-iteration.
//! - [`collision`]: one body against another.
//! - [`world`]: the scene and its tick.
//! - [`pointer`], [`shapes`]: the pointer that pulls a node, and stock shapes.

pub mod body;
pub mod collision;
pub mod fixed;
pub mod pointer;
pub mod settings;
pub mod shapes;
pub mod spring;
pub mod step;
pub mod trig;
pub mod vec2;
pub mod world;
