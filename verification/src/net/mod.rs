pub mod large_parcel;
pub mod channel_config_builder;
