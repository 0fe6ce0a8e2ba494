//! A voxel world engine core: chunked world storage addressed by Morton codes,
//! hidden-face baking, network channel configuration and large-parcel transport.
pub mod arch;
pub mod biosphere;
pub mod engine;
pub mod geosphere;
pub mod net;
pub mod script;
pub mod shared;
pub mod spectator;
pub mod viewport;
