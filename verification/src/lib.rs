//! A greedy line-breaking and pagination engine for fixed- or
//! proportional-width text on a pixel-constrained display.
//!
//! Given a stream of characters with their byte offsets, a glyph-width
//! oracle, a breaking policy and an available pixel width, the engine
//! computes where visual line breaks fall, which lines need an inserted
//! hyphen, how many lines the text occupies, and at which byte offset
//! each page of a given pixel height starts.

pub mod breaks;
pub mod constant;
pub mod geometry;
pub mod metrics;
pub mod pages;
pub mod spans;
