pub mod cube;
pub mod morton;
pub mod point_cluster;
pub mod slot;
pub mod chunk;
pub mod chunk_map;
pub mod passive_geosphere;
pub mod active_geosphere;
