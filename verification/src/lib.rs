//! glyphvis: the verified core of a segmented-glyph display driven by OSC.
//!
//! The library holds the parts of glyphvis that decide things from plain
//! values: segment identifiers, grid neighbourhoods, OSC message decoding and
//! encoding, effect bookkeeping, transitions between glyphs and the segment
//! graph they travel along.

pub mod text;
pub mod segment;
pub mod name_map;
pub mod grid;
pub mod osc;
pub mod osc_encode;
pub mod effects;
pub mod project;
pub mod capture;
pub mod config;
pub mod geometry;
pub mod services;
pub mod segment_graph;
pub mod segment_set;
pub mod transition;
pub mod svg;
pub mod launcher;
pub mod keys;
pub mod order;
pub mod grid_init;
pub mod output;
pub mod glyph_model;
pub mod stroke;
pub mod writing_order;
pub mod stretch;
pub mod segment_analysis;
