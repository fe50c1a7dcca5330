//! Tile-based sort-and-composite rasterization of Gaussian splats: the integer
//! bookkeeping of the forward pass, with every stage proved against its model.

pub mod aux_check;
pub mod backend;
pub mod compaction;
pub mod composite;
pub mod depth_order;
pub mod forward;
pub mod forward_laws;
pub mod intersect;
pub mod prefix_sum;
pub mod radix_sort;
pub mod records;
pub mod render_aux;
pub mod shape;
pub mod sort_laws;
pub mod tile_bins;
pub mod tiles;
pub mod words;
