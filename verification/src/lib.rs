//! Verified core of a tile-based 2D rasterizer: pixel bounds, recorded command trees and
//! their compilation into execution plans, retained frames and damage tracking, tile prefix
//! sums, morphology passes, and integer pixel and mask operations.
pub mod bounds;
pub mod damage_buffer;
pub mod retained;
pub mod damage_history;
pub mod cumsum;
pub mod draws;
pub mod memory;
pub mod image;
pub mod mask;
pub mod filter_ops;
pub mod tiles;
pub mod commands;
pub mod compile;
pub mod frame;
pub mod morphology;
pub mod propagate;
pub mod coarse;
pub mod scene;
pub mod nesting;
pub mod fine;
pub mod scan;
pub mod glyph;
