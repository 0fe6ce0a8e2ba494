pub mod consumer;
pub mod consumer_channel;
pub mod provider_channel;
pub mod relay;
pub mod provider;
