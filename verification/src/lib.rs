//! Layout, parsing and contour-tracing logic for printing sticker sheets.
pub mod boundary_graph;
pub mod contour;
pub mod csv;
pub mod figure;
pub mod mask;
pub mod model;
pub mod raster;
pub mod rdp;
pub mod text;
pub mod trace_order;
