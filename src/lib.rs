//! Drainage-network analysis on rasters of D8 flow directions: downstream
//! indices, pits, upstream counts and adjacency, ranks, a
//! downstream-to-upstream order and flow accumulation.

pub mod d8;
pub mod rank;
pub mod network;
pub mod accuflux;
pub mod flwdir;

pub use accuflux::accuflux_count;
pub use d8::{
    d8_from_array, d8_isnodata, d8_ispit, d8_isvalid, d8_to_array, d8_upstream_idx, drdc,
    offset_to_d8, D8_E, D8_N, D8_NE, D8_NODATA, D8_NW, D8_PIT, D8_S, D8_SE, D8_SW, D8_W,
};
pub use flwdir::{FlowType, FlwdirRaster};
pub use network::{idxs_seq, pit_indices, upstream_count, upstream_matrix, MV};
pub use rank::{rank, RANK_INVALID};
