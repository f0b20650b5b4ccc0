//! Playback core for a skeletal-animated character drawn from a packed
//! texture atlas: the atlas text format, the quad geometry built from it,
//! the per-frame sprite update and the pacing of a fixed-timestep loop.

pub mod atlas;
pub mod geometry;
pub mod run;
pub mod sprite;
pub mod text;
pub mod written;
