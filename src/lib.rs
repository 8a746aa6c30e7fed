//! Anchor chains that keep a taut tether between a leader and its followers
//! while obstacles move in and out of the line of sight.
//!
//! Positions are fixed-point integers (a thousandth of a world unit per step),
//! so every decision the chain makes is exact and reproducible.
//!
//! - `geometry`: points, bounds and exact squared distances.
//! - `selection`: picking the smallest key, ties going to the first.
//! - `obstacle`: obstacle boxes, their inflated corners, and the corner a new
//!   anchor goes to.
//! - `projection`: how a leash between two anchors is drawn.
//! - `graph`: the anchor and leash arenas, their invariants, and the
//!   structural changes applied to them.
//! - `frame`: what each anchor asks for in a frame, given what its rays found,
//!   and the frame as a whole.

pub mod frame;
pub mod geometry;
pub mod graph;
pub mod obstacle;
pub mod projection;
pub mod selection;
