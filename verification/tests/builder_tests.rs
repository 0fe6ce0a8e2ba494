use geosphere_engine::arch::consumer::UnsecureConsumerBuilder;
use geosphere_engine::arch::provider::{player_update_recipients, ProviderBuilder, ServerAuthentication};
use geosphere_engine::engine::UnsecureEngineBuilder;
use geosphere_engine::net::large_parcel::{parcel_route, ParcelRoute};
use geosphere_engine::shared::share;

fn png_bytes() -> Vec<u8> {
    let img = image::RgbaImage::from_pixel(1, 1, image::Rgba([1, 2, 3, 4]));
    let mut bytes: Vec<u8> = Vec::new();
    img.write_to(&mut std::io::Cursor::new(&mut bytes), image::ImageFormat::Png).unwrap();
    bytes
}

#[test]
fn provider_builder_sample_settings() {
    let png = png_bytes();
    let b = ProviderBuilder::try_with_sample(&png, &png, &png).unwrap();
    assert_eq!(b.server_max_client, 60);
    assert!(b.server_overriding_current_time_millis.is_none());
    assert!(b.server_overriding_protocol_id.is_none());
    assert!(matches!(b.server_authentication, ServerAuthentication::Unsecure));
    assert_eq!(b.connection_available_bytes_per_tick, 60_000);
    assert_eq!(b.client_active_chunk_range_radius, 5);
    assert_eq!(b.poll_interval_millis, 16);
    assert_eq!(b.blocking_poll_interval_millis, 16);
    assert_eq!(b.geosphere_builder.cube_registry_builder.cube_builders.len(), 1);
    let c = b.connection_config();
    assert_eq!(c.available_bytes_per_tick, 60_000);
    assert_eq!(c.server_channels_config.len(), 4);
    assert_eq!(c.client_channels_config.len(), 2);
    assert!(ProviderBuilder::try_with_sample(&png, &[], &png).is_err());
}

#[test]
fn engine_builder_sample_settings() {
    let png = png_bytes();
    let e = UnsecureEngineBuilder::try_with_sample(&png, &png, &png).unwrap();
    assert_eq!(e.poll_interval_millis, 16);
    assert_eq!(e.provider_builder.server_max_client, 60);
    assert_eq!(e.consumer_builder.connection_available_bytes_per_tick, 60_000);
    assert!(UnsecureEngineBuilder::try_with_sample(&[0], &png, &png).is_err());
}

#[test]
fn consumer_builder_defaults() {
    let c = UnsecureConsumerBuilder::default();
    assert!(c.client_overriding_current_time_millis.is_none());
    assert!(c.client_overriding_protocol_id.is_none());
    assert!(c.client_user_data.is_none());
    assert_eq!(c.connection_available_bytes_per_tick, 60_000);
    assert_eq!(c.poll_interval_millis, 16);
    assert_eq!(c.blocking_poll_interval_millis, 16);
    let config = c.connection_config();
    assert_eq!(config.server_channels_config.len(), 4);
    assert_eq!(config.client_channels_config.len(), 2);
}

#[test]
fn parcel_route_follows_target_and_exclusion() {
    assert_eq!(parcel_route(None, false), ParcelRoute::All);
    assert_eq!(parcel_route(None, true), ParcelRoute::All);
    assert_eq!(parcel_route(Some(3), false), ParcelRoute::Client(3));
    assert_eq!(parcel_route(Some(3), true), ParcelRoute::AllExcept(3));
}

#[test]
fn player_updates_go_to_ready_clients_in_order() {
    assert_eq!(player_update_recipients(&vec![5, 1, 9, 2], &vec![2, 5]), vec![5, 2]);
    assert!(player_update_recipients(&vec![5, 1], &vec![]).is_empty());
    assert_eq!(player_update_recipients(&vec![7, 7], &vec![7]), vec![7, 7]);
}

#[test]
fn shared_value_can_be_locked() {
    let shared = share(41);
    *shared.lock().unwrap() += 1;
    assert_eq!(*shared.lock().unwrap(), 42);
}
