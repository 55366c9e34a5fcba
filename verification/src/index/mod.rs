//! Index-layer building blocks.

pub mod bitmap;
pub mod cache;
pub mod diskann;
pub mod diskann_index;
pub mod flat;
pub mod fts;
pub mod hnsw;
pub mod ivf;
pub mod ordinal_map;
pub mod ordinals;
pub mod params;
pub mod product_quantization;
pub mod vector;
pub mod plan;
pub mod quantization;
pub mod limits;
pub mod rabitq;
pub mod rabitq_index;
pub mod rotation;
pub mod scalar;
pub mod scalar_filter;
pub mod search;
pub mod vamana;
