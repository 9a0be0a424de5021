//! Grouping of the categorical labels of video-game sales records.
//!
//! Records are folded into adjacency maps that keep their keys in insertion
//! order, and the maps are split into communities by a depth-first walk along
//! their edges.

pub mod adjacency;
pub mod builder;
pub mod community;
pub mod extract;
pub mod graph;
pub mod labels;
pub mod laws;
pub mod weighted;
