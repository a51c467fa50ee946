//! Score tracking for Team Trials screenshots: reading OCR output into
//! per-character scores, keeping a score table, and computing the
//! statistics and layout of the box plots drawn from it.

pub mod image_helper;
pub mod ocr;
pub mod plot;
pub mod scores;
pub mod stats;
pub mod tess;
pub mod text;
