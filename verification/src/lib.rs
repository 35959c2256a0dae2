//! Finds the disposable build artifacts of recognised project ecosystems
//! under a root directory and accounts for the space their removal reclaims.

pub mod analysis;
pub mod config;
pub mod detectors;
pub mod error;
pub mod laws;
pub mod pipeline;
pub mod size;
pub mod text;
