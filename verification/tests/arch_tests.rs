use geosphere_engine::arch::consumer::{Consumer, ConsumerAction, ConsumerEvent, ConsumerPoller, CubeRegistryStep};
use geosphere_engine::arch::provider::{
    compute_active_chunk_point_cluster, prepare_client, queue_send_quota,
    refresh_chunk_subscription, refresh_player_chunks, ProviderAction, ProviderEvent, ProviderState,
    MAX_QUEUE_SEND_PER_POLL,
};
use geosphere_engine::arch::provider_channel::ChunkUpdateMessage;
use geosphere_engine::arch::relay::{
    answer_cube_registry_request, answer_geosphere_request, answer_geosphere_requests, CubeRegistryOutputMessage,
    GeosphereInputMessage,
};
use geosphere_engine::biosphere::{Player, Spatial};
use geosphere_engine::geosphere::active_geosphere::{
    chunk_is_bakeable, ActiveGeosphere, ActiveGeosphereBuilder, CHUNK_BAKE_MAX, CHUNK_BAKE_MIN,
};
use geosphere_engine::geosphere::chunk::{Chunk, ChunkKey, SampleChunkLoader, SampleChunkSaver};
use geosphere_engine::geosphere::cube::{CubeRegistry, CubeRegistryBuilder};
use geosphere_engine::geosphere::passive_geosphere::PassiveGeosphere;
use geosphere_engine::geosphere::point_cluster::{Point3, PointCluster};

fn p(x: i32, y: i32, z: i32) -> Point3 {
    Point3::new(x, y, z)
}

fn sample_active_geosphere() -> ActiveGeosphere {
    ActiveGeosphereBuilder {
        loader: Box::new(SampleChunkLoader::default()),
        saver: Box::new(SampleChunkSaver::default()),
        cube_registry_builder: CubeRegistryBuilder::default(),
    }
    .build()
}

fn spatial() -> Spatial {
    Spatial { position: glam::Vec3::ZERO, direction: glam::Vec3::Z }
}

#[test]
fn active_chunk_cluster_surrounds_the_player_chunk() {
    let c = compute_active_chunk_point_cluster(p(-1, 17, 40), 2);
    assert_eq!(c, PointCluster { min: p(-3, -1, 0), max: p(1, 3, 4) });
    let c = compute_active_chunk_point_cluster(p(0, 0, 0), 0);
    assert_eq!(c, PointCluster { min: p(0, 0, 0), max: p(0, 0, 0) });
}

#[test]
fn subscription_refresh_drops_old_and_adds_new_chunks() {
    let mut subscription = vec![p(0, 0, 0), p(5, 5, 5), p(-1, 0, 0)];
    let active = PointCluster { min: p(-1, -1, -1), max: p(1, 1, 1) };
    let (removed, added) = refresh_chunk_subscription(&mut subscription, &active);
    assert_eq!(removed, vec![p(5, 5, 5)]);
    assert_eq!(added.len(), 6);
    assert!(!added.contains(&p(0, 0, 0)));
    assert!(!added.contains(&p(-1, 0, 0)));
    assert!(added.contains(&p(-1, -1, -1)));
    assert_eq!(subscription.len(), 8);
    assert_eq!(subscription[0], p(0, 0, 0));
    assert_eq!(subscription[1], p(-1, 0, 0));
    assert_eq!(&subscription[2..], &added[..]);
}

#[test]
fn queue_send_quota_caps_a_poll_at_thirty_three() {
    assert_eq!(MAX_QUEUE_SEND_PER_POLL, 32);
    assert_eq!(queue_send_quota(0, 0), (0, 0));
    assert_eq!(queue_send_quota(40, 10), (33, 0));
    assert_eq!(queue_send_quota(10, 40), (10, 23));
    assert_eq!(queue_send_quota(5, 5), (5, 5));
    assert_eq!(queue_send_quota(33, 1), (33, 0));
}

#[test]
fn prepare_client_sends_the_active_chunks() {
    let mut g = sample_active_geosphere();
    let player = Player::new(7);
    let (message, subscription) = prepare_client(&mut g, player, spatial(), p(0, 0, 0), 1).unwrap();
    assert_eq!(subscription.len(), 8);
    assert_eq!(message.chunk_updates.len(), 8);
    for (update, point) in message.chunk_updates.iter().zip(subscription.iter()) {
        assert_eq!(update.key, ChunkKey(*point));
        assert!(update.chunk.get_from_position(p(2, 0, 1)).cube_instance.is_some());
    }
    for q in [p(-1, -1, -1), p(0, 0, 0), p(-1, 0, -1)] {
        assert!(subscription.contains(&q));
    }
    assert_eq!(*message.self_insertion.player.client_id(), 7);
    assert!(message.cube_registry.cubes().is_empty());
}

#[test]
fn refresh_player_chunks_follows_the_player() {
    let mut g = sample_active_geosphere();
    let (_, mut subscription) = prepare_client(&mut g, Player::new(1), spatial(), p(0, 0, 0), 1).unwrap();
    let (removals, insertions) = refresh_player_chunks(&mut g, &mut subscription, p(16, 0, 0), 1).unwrap();
    assert_eq!(removals.len(), 4);
    assert!(removals.iter().all(|k| k.0.x == -1));
    assert_eq!(insertions.len(), 4);
    assert!(insertions.iter().all(|u| u.key.0.x == 1));
    assert_eq!(subscription.len(), 8);
    assert!(subscription.iter().all(|q| q.x == 0 || q.x == 1));
    let (removals, insertions) = refresh_player_chunks(&mut g, &mut subscription, p(16, 0, 0), 1).unwrap();
    assert!(removals.is_empty());
    assert!(insertions.is_empty());
}

#[test]
fn consumer_events_update_the_passive_geosphere() {
    let mut poller = ConsumerPoller { passive_geosphere: PassiveGeosphere::default() };
    let key = ChunkKey(p(1, 0, -1));
    let mut chunk = Chunk::default();
    chunk.get_mut(0).display_upward_quad = false;
    let (action, notice) = poller.poll(ConsumerEvent::ChunkInsertion(ChunkUpdateMessage { key, chunk }));
    assert_eq!(action, ConsumerAction::PurgeSpectatorCluster(PointCluster { min: p(16, 0, -16), max: p(32, 16, 0) }));
    assert!(notice.is_none());
    assert!(poller.passive_geosphere.chunk_map.contains_key(&key));
    assert!(!poller.passive_geosphere.slot(p(16, 0, -16)).display_upward_quad);
    let (action, notice) = poller.poll(ConsumerEvent::ChunkRemoval(key));
    assert_eq!(action, ConsumerAction::Nothing);
    assert!(notice.is_none());
    assert!(!poller.passive_geosphere.chunk_map.contains_key(&key));
    let mut builder = CubeRegistryBuilder::default();
    builder.cube_builders.push(geosphere_engine::geosphere::cube::CubeBuilder {
        id: ustr::ustr("dirt"),
        geosphere_texture_image_top: image(1),
        geosphere_texture_image_bottom: image(2),
        geosphere_texture_image_left: image(3),
        geosphere_texture_image_right: image(4),
        geosphere_texture_image_front: image(5),
        geosphere_texture_image_back: image(6),
    });
    let (action, notice) = poller.poll(ConsumerEvent::Prepare(builder.build()));
    assert_eq!(action, ConsumerAction::SendReady);
    let images = notice.unwrap().geosphere_texture_images;
    let fills: Vec<u8> = images.iter().map(|i| i.data()[0]).collect();
    assert_eq!(fills, vec![1, 2, 3, 4, 5, 6]);
    assert_eq!(poller.passive_geosphere.cube_registry.cubes().len(), 1);
    let (_, notice) = poller.poll(ConsumerEvent::Prepare(CubeRegistry::new()));
    assert!(notice.unwrap().geosphere_texture_images.is_empty());
}

fn image(fill: u8) -> geosphere_engine::viewport::serializable_texture_image::SerializableTextureImage {
    geosphere_engine::viewport::serializable_texture_image::SerializableTextureImage::from_raw_parts(1, 1, vec![fill; 4])
}

#[test]
fn subscription_refresh_twice_changes_nothing() {
    let mut subscription = vec![p(3, 3, 3), p(0, 0, 0)];
    let active = PointCluster { min: p(0, 0, 0), max: p(2, 1, 1) };
    let (removed, added) = refresh_chunk_subscription(&mut subscription, &active);
    assert_eq!(removed, vec![p(3, 3, 3)]);
    assert_eq!(added, vec![p(1, 0, 0)]);
    assert_eq!(subscription, vec![p(0, 0, 0), p(1, 0, 0)]);
    let (removed, added) = refresh_chunk_subscription(&mut subscription, &active);
    assert!(removed.is_empty());
    assert!(added.is_empty());
    assert_eq!(subscription, vec![p(0, 0, 0), p(1, 0, 0)]);
}

#[test]
fn relay_answers_slot_and_registry_requests() {
    let mut g = sample_active_geosphere();
    let answer = answer_geosphere_request(&mut g, GeosphereInputMessage { position: p(2, 0, 1) }).unwrap();
    assert!(answer.slot.cube_instance.is_some());
    assert!(answer.cube.is_none());
    let answer = answer_geosphere_request(&mut g, GeosphereInputMessage { position: p(2, 1, 1) }).unwrap();
    assert!(answer.slot.cube_instance.is_none());
    assert!(!answer.slot.display_downward_quad);
    let registry = answer_cube_registry_request(&g);
    assert!(registry.cube_registry.cubes().is_empty());
}

#[test]
fn chunk_bakeable_bounds() {
    assert!(chunk_is_bakeable(p(0, 0, 0)));
    assert!(chunk_is_bakeable(p(CHUNK_BAKE_MIN, CHUNK_BAKE_MAX, 0)));
    assert!(!chunk_is_bakeable(p(CHUNK_BAKE_MIN - 1, 0, 0)));
    assert!(!chunk_is_bakeable(p(0, 0, CHUNK_BAKE_MAX + 1)));
    assert_eq!(i64::from(CHUNK_BAKE_MIN) * 16 - 2, i64::from(i32::MIN) + 14);
    assert_eq!(i64::from(CHUNK_BAKE_MAX) * 16 + 17, i64::from(i32::MAX) - 14);
}

#[test]
fn consumer_requests_the_cube_registry_once_until_answered() {
    let mut consumer = Consumer::new();
    assert_eq!(consumer.cube_registry(false), CubeRegistryStep::Wait);
    assert_eq!(consumer.cube_registry(true), CubeRegistryStep::SendRequest);
    assert_eq!(consumer.cube_registry(true), CubeRegistryStep::Receive);
    assert_eq!(consumer.cube_registry(false), CubeRegistryStep::Wait);
    assert!(consumer.cube_registry_received(None).is_none());
    assert_eq!(consumer.cube_registry(true), CubeRegistryStep::Receive);
    let mut registry = CubeRegistry::new();
    let cube = geosphere_engine::geosphere::cube::Cube {
        geosphere_texture_atlas_index_top: 0,
        geosphere_texture_atlas_index_bottom: 1,
        geosphere_texture_atlas_index_left: 2,
        geosphere_texture_atlas_index_right: 3,
        geosphere_texture_atlas_index_front: 4,
        geosphere_texture_atlas_index_back: 5,
    };
    registry.register(ustr::ustr("dirt"), cube);
    let answer = CubeRegistryOutputMessage { cube_registry: registry };
    let got = consumer.cube_registry_received(Some(answer)).unwrap();
    assert_eq!(got.get(&ustr::ustr("dirt")), Some(cube));
    assert_eq!(consumer.cube_registry(true), CubeRegistryStep::SendRequest);
}

fn update(x: i32) -> ChunkUpdateMessage {
    ChunkUpdateMessage { key: ChunkKey(p(x, 0, 0)), chunk: Chunk::default() }
}

#[test]
fn provider_state_tracks_players_and_ready_clients() {
    let mut state = ProviderState::new();
    assert_eq!(state.step(ProviderEvent::ClientConnected(7, spatial())), ProviderAction::PrepareClient(7));
    assert_eq!(state.step(ProviderEvent::ClientConnected(8, spatial())), ProviderAction::PrepareClient(8));
    assert_eq!(state.step(ProviderEvent::ClientConnected(7, spatial())), ProviderAction::PrepareClient(7));
    assert_eq!(state.players.len(), 3);
    assert_eq!(state.step(ProviderEvent::ClientReady(8)), ProviderAction::Nothing);
    assert_eq!(state.step(ProviderEvent::ClientReady(8)), ProviderAction::Nothing);
    assert_eq!(state.ready, vec![8]);
    assert_eq!(state.ready_players(), vec![1]);
    assert_eq!(state.step(ProviderEvent::ClientReady(7)), ProviderAction::Nothing);
    assert_eq!(state.ready_players(), vec![0, 1, 2]);
    assert_eq!(state.step(ProviderEvent::ClientDisconnected(7)), ProviderAction::Nothing);
    assert_eq!(state.players.len(), 1);
    assert_eq!(*state.players[0].0.client_id(), 8);
    assert_eq!(state.ready, vec![8, 7]);
    assert_eq!(state.ready_players(), vec![0]);
}

#[test]
fn provider_state_sends_queued_chunks_in_order_thirty_three_at_most() {
    let mut state = ProviderState::new();
    let inserted: Vec<ChunkUpdateMessage> = (0..30).map(update).collect();
    let removed: Vec<ChunkKey> = (0..5).map(|x| ChunkKey(p(x, 1, 0))).collect();
    state.enqueue_chunk_updates(4, &removed, &inserted);
    let more: Vec<ChunkUpdateMessage> = (30..40).map(update).collect();
    state.enqueue_chunk_updates(5, &vec![ChunkKey(p(9, 9, 9))], &more);
    assert_eq!(state.insertions.len(), 40);
    assert_eq!(state.removals.len(), 6);
    let (ins, rem) = state.take_queued_sends();
    assert_eq!(ins.len(), 33);
    assert!(rem.is_empty());
    assert!(ins.iter().enumerate().all(|(i, (c, u))| u.key == ChunkKey(p(i as i32, 0, 0)) && *c == if i < 30 { 4 } else { 5 }));
    let (ins, rem) = state.take_queued_sends();
    assert_eq!(ins.len(), 7);
    assert_eq!(ins[0].1.key, ChunkKey(p(33, 0, 0)));
    assert_eq!(rem.len(), 6);
    assert_eq!(rem[0], (4, ChunkKey(p(0, 1, 0))));
    assert_eq!(rem[5], (5, ChunkKey(p(9, 9, 9))));
    let (ins, rem) = state.take_queued_sends();
    assert!(ins.is_empty() && rem.is_empty());
}

#[test]
fn consumer_applies_insertions_before_removals() {
    let mut poller = ConsumerPoller { passive_geosphere: PassiveGeosphere::default() };
    let mut marked = Chunk::default();
    marked.get_mut(0).display_upward_quad = false;
    let insertions = vec![update(0), ChunkUpdateMessage { key: ChunkKey(p(1, 0, 0)), chunk: marked }, update(2)];
    let removals = vec![ChunkKey(p(0, 0, 0)), ChunkKey(p(5, 5, 5))];
    let clusters = poller.poll_chunks(&insertions, &removals);
    assert_eq!(clusters.len(), 3);
    assert_eq!(clusters[1], PointCluster { min: p(16, 0, 0), max: p(32, 16, 16) });
    let map = &poller.passive_geosphere.chunk_map;
    assert!(map.get(&ChunkKey(p(0, 0, 0))).is_none());
    assert!(!map.get(&ChunkKey(p(1, 0, 0))).unwrap().get(0).display_upward_quad);
    assert!(map.get(&ChunkKey(p(2, 0, 0))).is_some());
    let clusters = poller.poll_chunks(&vec![update(0)], &vec![ChunkKey(p(0, 0, 0))]);
    assert_eq!(clusters.len(), 1);
    assert!(poller.passive_geosphere.chunk_map.get(&ChunkKey(p(0, 0, 0))).is_none());
}

#[test]
fn relay_answers_every_slot_request_in_order() {
    let mut g = sample_active_geosphere();
    let requests = vec![
        GeosphereInputMessage { position: p(0, 0, 0) },
        GeosphereInputMessage { position: p(0, 1, 0) },
        GeosphereInputMessage { position: p(2, 0, 1) },
    ];
    let answers = answer_geosphere_requests(&mut g, &requests).unwrap();
    assert_eq!(answers.len(), 3);
    assert!(answers[0].slot.cube_instance.is_some());
    assert!(answers[1].slot.cube_instance.is_none());
    assert!(answers[2].slot.cube_instance.is_some());
    assert!(answers.iter().all(|a| a.cube.is_none()));
}

#[test]
fn prepare_client_sends_the_client_itself() {
    let mut g = sample_active_geosphere();
    let s = Spatial { position: glam::Vec3::new(1.0, 2.0, 3.0), direction: glam::Vec3::X };
    let (message, _) = prepare_client(&mut g, Player::new(3), s, p(0, 0, 0), 0).unwrap();
    assert_eq!(*message.self_insertion.player.client_id(), 3);
    assert_eq!(message.self_insertion.spatial.position, glam::Vec3::new(1.0, 2.0, 3.0));
    assert!(Player::new(2) < Player::new(3));
}
