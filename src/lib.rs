//! Cross-seeding of torrents: metainfo geometry, candidate resolution, piece
//! sampling and seed-tree planning, with their contracts.

pub mod torrent;
pub mod path;
pub mod candidate;
pub mod index;
pub mod plan;
pub mod sample;
pub mod digest;
pub mod edit_distance;
pub mod client;
