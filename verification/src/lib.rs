//! The terminal core of lumiterm: the character grid and its escape-sequence
//! handling, the configuration-file parser, and the pixel routines of the
//! renderer.

pub mod text;
pub mod term;
pub mod config;
pub mod raster;
pub mod input;
