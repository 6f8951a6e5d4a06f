//! A beam search with an elimination diet for allocations of a passive skill tree.
//!
//! `beam::optimize` runs a whole search. What it finds is stated by
//! `BeamParams::found`, for whatever the scoring engine answers; `laws` says what
//! holds of every search.

pub mod asking;
pub mod beam;
pub mod cache;
pub mod config;
pub mod count;
pub mod course;
pub mod diet;
pub mod dieting;
pub mod double;
pub mod expand;
pub mod export;
pub mod fx;
pub mod graph;
pub mod growing;
pub mod heap;
pub mod host;
pub mod laws;
pub mod lists;
pub mod margin;
pub mod mix;
pub mod node_index;
pub mod order;
pub mod params;
pub mod pass;
pub mod pathfinder;
pub mod paths;
pub mod plan;
pub mod pool;
pub mod reach;
pub mod scorer;
pub mod seed;
pub mod signature;
pub mod slope;
pub mod soundness;
pub mod sweep;
pub mod text;
pub mod turns;
