//! Texture-rotation coordinate search: texture variant algorithms, filter
//! compilation, scan planning, and the editable search document.

pub mod config;
pub mod types;
pub mod texture;
pub mod text;
pub mod filter;
pub mod model;
pub mod history;
pub mod scan;
pub mod cpu;
pub mod summary;
pub mod grid;
pub mod runner;
pub mod gpu;
pub mod save;
pub mod status;
