//! Reader and writer for the block-framed, zlib-compressed OpenStreetMap
//! protocol-buffer container format, with the columnar delta expansion of its
//! dense node and way records.

pub mod blob;
pub mod delta;
pub mod encode;
pub mod entities;
pub mod error;
pub mod framing;
pub mod osmformat;
pub mod wire;

pub use blob::{Blob, BlobData, BlobHeader, FileBlock};
pub use entities::{
    as_vec_dense_nodes, block_dense_nodes, into_vec_ways, iter_dense_nodeses, iter_node_ids,
    iter_nodes, iter_ways, DenseNode, MyWay,
};
pub use error::OsmError;
pub use framing::{read_blobs, read_osm_pbf_blob, write_blobs, write_osm_pbf_blob};
pub use osmformat::{DenseNodes, HeaderBlock, Node, PrimitiveBlock, PrimitiveGroup, Way};
