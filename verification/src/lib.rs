//! A grading helper for Canvas courses: workspace and course layout,
//! submission file naming, remote compile planning and terminal tables,
//! with the I/O left to the caller.

pub mod text;
pub mod paint;
pub mod paths;
pub mod settings;
pub mod workspace;
pub mod download;
pub mod table;
pub mod compile;
