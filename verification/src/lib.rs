//! Turns raw road center-lines that meet at intersection nodes into a planar
//! representation: one closed, simple polygon per intersection and trimmed
//! center-lines for the incident roads, so that adjacent road geometry tiles
//! without overlap.
//!
//! All coordinates and lengths are integers, in millimeters, so that every
//! geometric decision is exact and every result is reproducible.

pub mod colors;
pub mod event;
pub mod finder;
pub mod freeform;
pub mod geojson;
pub mod geometry;
pub mod num;
pub mod polyline;
pub mod pt;
pub mod ring;
