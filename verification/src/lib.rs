//! A shelf-style guillotine rectangle packer.
//!
//! Packs a set of named, independently sized rectangles into a bounded
//! canvas, tracking the free regions that remain, and reports the tightest
//! bounding size of everything that was placed together with a map from
//! name to placement rectangle.

pub mod atlas;
pub mod geometry;
pub mod images;
