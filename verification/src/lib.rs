//! A cursor for walking any structure whose nodes can list their children.
//!
//! A [`zipper::Zipper`] stands on one node and moves down to the first child, up to
//! the parent, left and right among siblings, or back along its own trail. Every move
//! consumes the cursor and returns a new one, and every move is verified against a
//! mathematical model of the walk, [`model::ZipperView`].
pub mod step;
pub mod path;
pub mod history;
pub mod tree;
pub mod cache;
pub mod model;
pub mod zipper;
pub mod laws;
