pub mod geometry;
pub mod raster;
pub mod rng;
pub mod sites;
pub mod spatial;

pub use geometry::{Color, Point, Site};
pub use raster::{generate_voronoi_pixels, rasterize_row, rasterize_rows, VoronoiError};
pub use sites::generate_sites;
pub use spatial::{build_kdtree_from_sites, nearest_neighbor_linear, KdTree};
