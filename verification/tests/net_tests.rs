use geosphere_engine::arch::consumer_channel::{Channel as ConsumerChannel, PlayerInputMessage, ReadyMessage};
use geosphere_engine::arch::provider_channel::{
    Channel as ProviderChannel, ChunkUpdateMessage, PlayerInsertionMessage, PlayerUpdateMessage,
};
use geosphere_engine::arch::relay::{RelayChannel, RELAY_AVAILABLE_BYTES_PER_TICK, RELAY_RESEND_TIME_MILLIS};
use geosphere_engine::net::channel_config_builder::{
    channel_config_large, channel_config_reliable_ordered, channel_config_reliable_unordered,
    channel_config_unreliable, ChannelConfigBuilder, SendType, DEFAULT_RESEND_TIME_MILLIS,
};
use geosphere_engine::net::large_parcel::{
    LargeParcelBodyMessage, LargeParcelGroupRegistry, LargeParcelMessage,
    LargeParcelMetadataMessage, LargeParcelQueue, LARGE_PARCEL_DATA_MAX_BYTE_COUNT,
};
use std::mem::size_of;

fn send_through(message: &[u8], target: Option<u64>, channel: u8) -> (Vec<u8>, u64) {
    let mut queue = LargeParcelQueue::new();
    let metadata = queue.setup_large_parcel(target, channel, message.to_vec(), false);
    assert_eq!(queue.len() as u64, metadata.count);
    let parcels = queue.take_parcels(255);
    assert_eq!(parcels.len() as u64, metadata.count);
    assert_eq!(queue.len(), 0);
    let mut registry = LargeParcelGroupRegistry::new();
    let announce = LargeParcelMessage::Metadata(LargeParcelMetadataMessage {
        key: metadata.key,
        count: metadata.count,
    });
    assert!(registry.accepts(&announce));
    registry.accept(announce);
    for (i, parcel) in parcels.into_iter().enumerate() {
        assert_eq!(parcel.index, i as u64);
        assert_eq!(parcel.key, metadata.key);
        assert_eq!(parcel.target_client_id, target);
        assert_eq!(parcel.channel_id, channel);
        assert!(!parcel.exclude_client);
        assert!(parcel.data.len() as u64 <= LARGE_PARCEL_DATA_MAX_BYTE_COUNT);
        assert!(!parcel.data.is_empty());
        let body = LargeParcelMessage::Body(LargeParcelBodyMessage {
            key: parcel.key,
            index: parcel.index,
            data: parcel.data,
        });
        assert!(registry.accepts(&body));
        registry.accept(body);
    }
    let joined = registry.take_complete_group().unwrap();
    assert!(registry.take_complete_group().is_none());
    (joined, metadata.count)
}

#[test]
fn large_parcel_roundtrip_gives_the_message_back() {
    let message: Vec<u8> = (0..500u32).map(|i| (i % 7) as u8).collect();
    let (joined, count) = send_through(&message, Some(5), 3);
    let compressed = snap::raw::Encoder::new().compress_vec(&message).unwrap();
    assert_eq!(joined, compressed);
    assert_ne!(joined, message);
    assert_eq!(count as usize, (compressed.len() + 31) / 32);
    assert_eq!(snap::raw::Decoder::new().decompress_vec(&joined).unwrap(), message);
}

#[test]
fn large_parcel_roundtrip_of_an_empty_message() {
    let (joined, count) = send_through(&[], None, 0);
    assert_eq!(count, 1);
    assert!(snap::raw::Decoder::new().decompress_vec(&joined).unwrap().is_empty());
}

#[test]
fn large_parcel_queue_takes_oldest_first_and_at_most_the_limit() {
    let mut queue = LargeParcelQueue::new();
    let message: Vec<u8> = (0..300u32).map(|i| (i * 37 % 251) as u8).collect();
    let first = queue.setup_large_parcel(Some(1), 2, message.clone(), true);
    let second = queue.setup_large_parcel(None, 2, vec![9u8; 10], false);
    let total = first.count + second.count;
    assert_eq!(queue.len() as u64, total);
    let taken = queue.take_parcels(2);
    assert_eq!(taken.len(), 2);
    assert_eq!((taken[0].key, taken[0].index), (first.key, 0));
    assert_eq!((taken[1].key, taken[1].index), (first.key, 1));
    assert!(taken[0].exclude_client);
    let rest = queue.take_parcels(255);
    assert_eq!(rest.len() as u64, total - 2);
    let last = &rest[rest.len() - 1];
    assert_eq!((last.key, last.index), (second.key, second.count - 1));
    assert_eq!(last.target_client_id, None);
    assert!(queue.take_parcels(3).is_empty());
}

#[test]
fn large_parcel_registry_refuses_what_it_cannot_take() {
    let mut registry = LargeParcelGroupRegistry::new();
    let body = LargeParcelMessage::Body(LargeParcelBodyMessage { key: 4, index: 0, data: vec![1] });
    assert!(!registry.accepts(&body));
    registry.accept(LargeParcelMessage::Metadata(LargeParcelMetadataMessage { key: 4, count: 2 }));
    assert!(!registry.accepts(&LargeParcelMessage::Metadata(LargeParcelMetadataMessage { key: 4, count: 1 })));
    assert!(registry.accepts(&body));
    assert!(!registry.accepts(&LargeParcelMessage::Body(LargeParcelBodyMessage { key: 4, index: 2, data: vec![] })));
    registry.accept(body);
    assert!(registry.take_complete_group().is_none());
    registry.accept(LargeParcelMessage::Body(LargeParcelBodyMessage { key: 4, index: 1, data: vec![2, 3] }));
    assert_eq!(registry.take_complete_group(), Some(vec![1, 2, 3]));
}

#[test]
fn large_parcel_registry_joins_an_empty_group() {
    let mut registry = LargeParcelGroupRegistry::new();
    registry.accept(LargeParcelMessage::Metadata(LargeParcelMetadataMessage { key: 1, count: 0 }));
    assert_eq!(registry.take_complete_group(), Some(vec![]));
}

#[test]
fn channel_config_builders_take_size_times_count() {
    let c = ChannelConfigBuilder::<PlayerUpdateMessage>::new(9).build_unreliable();
    assert_eq!(c.channel_id, 9);
    assert_eq!(c.max_memory_usage_bytes, size_of::<PlayerUpdateMessage>() * 1024);
    assert_eq!(c.send_type, SendType::Unreliable);
    let c = channel_config_reliable_unordered::<ChunkUpdateMessage>(4);
    assert_eq!(c.max_memory_usage_bytes, size_of::<ChunkUpdateMessage>() * 512);
    assert_eq!(c.send_type, SendType::ReliableUnordered { resend_time_millis: DEFAULT_RESEND_TIME_MILLIS });
    assert_eq!(DEFAULT_RESEND_TIME_MILLIS, 500);
    let c = channel_config_reliable_ordered::<ReadyMessage>(2);
    assert_eq!(c.max_memory_usage_bytes, size_of::<ReadyMessage>() * 10);
    assert_eq!(c.send_type, SendType::ReliableOrdered { resend_time_millis: 500 });
    let c = channel_config_large::<ReadyMessage>(1);
    assert_eq!(c.channel_id, 1);
    assert_eq!(c.max_memory_usage_bytes, size_of::<LargeParcelMessage>() * 10);
    assert_eq!(c.send_type, SendType::ReliableOrdered { resend_time_millis: 500 });
    assert_eq!(
        channel_config_unreliable::<PlayerInputMessage>(0).max_memory_usage_bytes,
        size_of::<PlayerInputMessage>() * 1024
    );
    let c = ChannelConfigBuilder::<PlayerInsertionMessage>::new(3).build_reliable_unordered();
    assert_eq!(c.max_memory_usage_bytes, size_of::<PlayerInsertionMessage>() * 256);
    let c = ChannelConfigBuilder::<ReadyMessage>::new(3).build_reliable_ordered();
    assert_eq!(c.channel_id, 3);
    let c = ChannelConfigBuilder::<ReadyMessage>::new(8).build_large();
    assert_eq!(c.max_memory_usage_bytes, size_of::<LargeParcelMessage>() * 10);
    assert_eq!(c.channel_id, 8);
}

#[test]
fn provider_channels_are_numbered_in_order() {
    assert_eq!(ProviderChannel::PrepareMessage.channel_id(), 0);
    assert_eq!(ProviderChannel::ChunkUpdate.channel_id(), 1);
    assert_eq!(ProviderChannel::PlayerInsertion.channel_id(), 2);
    assert_eq!(u8::from(ProviderChannel::PlayerUpdate), 3);
    let configs = ProviderChannel::channels_config();
    assert_eq!(configs.len(), 4);
    let ids: Vec<u8> = configs.iter().map(|c| c.channel_id).collect();
    assert_eq!(ids, vec![0, 1, 2, 3]);
    assert_eq!(configs[0].max_memory_usage_bytes, size_of::<LargeParcelMessage>() * 512);
    assert_eq!(configs[0].send_type, SendType::ReliableOrdered { resend_time_millis: 500 });
    assert_eq!(configs[3].send_type, SendType::Unreliable);
}

#[test]
fn consumer_channels_are_numbered_in_order() {
    assert_eq!(ConsumerChannel::Ready.channel_id(), 0);
    assert_eq!(u8::from(ConsumerChannel::PlayerInput), 1);
    let configs = ConsumerChannel::channels_config();
    assert_eq!(configs.len(), 2);
    assert_eq!(configs[0].channel_id, 0);
    assert_eq!(configs[0].max_memory_usage_bytes, size_of::<ReadyMessage>() * 10);
    assert_eq!(configs[1].max_memory_usage_bytes, size_of::<PlayerInputMessage>() * 1024);
    assert_eq!(configs[1].send_type, SendType::Unreliable);
}

#[test]
fn relay_channels_and_connection() {
    assert_eq!(RelayChannel::Geosphere.channel_id(), 0);
    assert_eq!(u8::from(RelayChannel::CubeRegistry), 1);
    let configs = RelayChannel::channels_config();
    assert_eq!(configs.len(), 2);
    assert_eq!(configs[0].send_type, SendType::ReliableUnordered { resend_time_millis: RELAY_RESEND_TIME_MILLIS });
    assert_eq!(configs[1].send_type, SendType::ReliableOrdered { resend_time_millis: 300 });
    let connection = RelayChannel::connection_config();
    assert_eq!(connection.available_bytes_per_tick, RELAY_AVAILABLE_BYTES_PER_TICK);
    assert_eq!(connection.available_bytes_per_tick, 60_000);
    assert_eq!(connection.server_channels_config, configs);
    assert_eq!(connection.client_channels_config, configs);
}
