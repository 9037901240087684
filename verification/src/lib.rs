//! Verified annotation engine for overlaying vector markup (arrows,
//! rectangles, text labels) on a raster image: the data model, the
//! image/view coordinate transform under pan and zoom, hit-testing,
//! undo/redo, the sidecar persistence codec, and the rasterizer that
//! bakes annotations into a pixel buffer for export.
//!
//! All geometry is held in integer coordinates: image-space points are
//! whole pixels, the zoom factor is a whole number of percent, and the
//! exact fractional positions that pan/zoom produce are represented in
//! "fine" view units (view pixels scaled by 200) so that every
//! transform is exact integer arithmetic.

pub mod codec;
pub mod geom;
pub mod hit;
pub mod model;
pub mod paths;
pub mod raster;
pub mod session;
