use geosphere_engine::biosphere::Player;
use geosphere_engine::geosphere::chunk::Chunk;
use geosphere_engine::geosphere::chunk_map::ChunkMap;
use geosphere_engine::geosphere::cube::{CubeBuilder, CubeInstance, CubeInstanceOrientation, CubeRegistryBuilder};
use geosphere_engine::geosphere::passive_geosphere::PassiveGeosphere;
use geosphere_engine::geosphere::point_cluster::{Point3, PointCluster};
use geosphere_engine::geosphere::slot::Slot;
use geosphere_engine::script::Counter;
use geosphere_engine::spectator::{
    chebyshev_distance, compute_slot_point_cluster_from_lump_position,
    convert_lump_position_to_slot_position, convert_slot_position_to_lump_position, keeps_lump,
    load_lump_faces, visible_faces, QuadFace, Spectator,
};
use geosphere_engine::viewport::grid_texture_atlas::{
    compose_atlas, grid_atlas_layout, grid_cell, grid_division, GridTextureDivisionUniform,
};
use geosphere_engine::viewport::serializable_texture_image::SerializableTextureImage;

fn p(x: i32, y: i32, z: i32) -> Point3 {
    Point3::new(x, y, z)
}

fn image(fill: u8) -> SerializableTextureImage {
    SerializableTextureImage::from_raw_parts(1, 1, vec![fill; 4])
}

#[test]
fn counter_starts_at_zero_and_counts_up() {
    let mut c = Counter::new();
    assert_eq!(format!("{:?}", c), "Counter { value: 0 }");
    c.increment();
    assert_eq!(format!("{:?}", c), "Counter { value: 1 }");
    let mut d = c.clone();
    d.increment();
    assert_eq!(format!("{:?}", d), "Counter { value: 2 }");
    assert_eq!(format!("{:?}", c), "Counter { value: 1 }");
}

#[test]
fn grid_division_is_the_rounded_up_square_root() {
    let expected = [(0, 0), (1, 1), (2, 2), (4, 2), (5, 3), (9, 3), (10, 4), (16, 4), (17, 5)];
    for (n, k) in expected {
        assert_eq!(grid_division(n), k);
    }
    assert_eq!(grid_division(u32::MAX), 65536);
    assert_eq!(grid_division(65535 * 65535), 65535);
    assert_eq!(grid_division(65535 * 65535 + 1), 65536);
}

#[test]
fn grid_cell_goes_row_by_row() {
    assert_eq!(grid_cell(0, 3), (0, 0));
    assert_eq!(grid_cell(2, 3), (2, 0));
    assert_eq!(grid_cell(5, 3), (2, 1));
    assert_eq!(grid_cell(8, 3), (2, 2));
}

#[test]
fn grid_atlas_layout_places_each_image_in_its_cell() {
    let (division, side, offsets) = grid_atlas_layout(5, 24);
    assert_eq!(division, 3);
    assert_eq!(side, 72);
    assert_eq!(offsets, vec![(0, 0), (24, 0), (48, 0), (0, 24), (24, 24)]);
    let (division, side, offsets) = grid_atlas_layout(0, 24);
    assert_eq!((division, side), (0, 24));
    assert!(offsets.is_empty());
    assert_eq!(GridTextureDivisionUniform::default().division, 0);
}

#[test]
fn serializable_texture_image_keeps_its_parts() {
    let i = SerializableTextureImage::from_raw_parts(2, 3, vec![1, 2, 3]);
    assert_eq!(*i.width(), 2);
    assert_eq!(*i.height(), 3);
    assert_eq!(i.data(), &vec![1, 2, 3]);
    let j = i.clone();
    assert_eq!(j.data(), &vec![1, 2, 3]);
}

#[test]
fn player_keeps_its_client_id() {
    assert_eq!(*Player::new(42).client_id(), 42);
}

#[test]
fn chebyshev_distance_takes_the_largest_axis() {
    assert_eq!(chebyshev_distance(p(0, 0, 0), p(3, -7, 2)), 7);
    assert_eq!(chebyshev_distance(p(i32::MIN, 0, 0), p(i32::MAX, 0, 0)), u32::MAX);
    assert_eq!(chebyshev_distance(p(5, 5, 5), p(5, 5, 5)), 0);
}

#[test]
fn lump_positions_round_down() {
    assert_eq!(convert_slot_position_to_lump_position(p(-1, 17, 32), 16), p(-1, 1, 2));
    assert_eq!(convert_slot_position_to_lump_position(p(-16, -17, 0), 16), p(-1, -2, 0));
    assert_eq!(convert_lump_position_to_slot_position(p(-1, 1, 2), 16), p(-16, 16, 32));
    assert_eq!(
        compute_slot_point_cluster_from_lump_position(p(1, -1, 0), 8),
        PointCluster { min: p(8, -8, 0), max: p(16, 0, 8) }
    );
}

#[test]
fn keeps_lump_compares_lump_distances() {
    assert!(keeps_lump(p(0, 0, 0), p(1, 0, 0), 32, 16));
    assert!(!keeps_lump(p(0, 0, 0), p(2, 0, 0), 32, 16));
    assert!(!keeps_lump(p(0, 0, 0), p(0, 0, 0), 15, 16));
    assert!(!keeps_lump(p(-1, 0, 0), p(-2, 0, 0), 17, 16));
    assert!(keeps_lump(p(-1, 0, 0), p(-2, 0, 0), 32, 16));
}

fn sample_cube_builder() -> CubeBuilder {
    CubeBuilder {
        id: ustr::Ustr::default(),
        geosphere_texture_image_top: image(0),
        geosphere_texture_image_bottom: image(1),
        geosphere_texture_image_left: image(2),
        geosphere_texture_image_right: image(3),
        geosphere_texture_image_front: image(4),
        geosphere_texture_image_back: image(5),
    }
}

#[test]
fn visible_faces_follow_the_slot_flags() {
    let mut builder = CubeRegistryBuilder::default();
    builder.cube_builders.push(sample_cube_builder());
    let registry = builder.build();
    let cube = registry.get(&ustr::Ustr::default());
    let mut slot = Slot { cube_instance: Some(CubeInstance::default()), ..Slot::default() };
    assert_eq!(
        visible_faces(&slot, cube),
        vec![
            (QuadFace::Backward, 5),
            (QuadFace::Forward, 4),
            (QuadFace::Upward, 0),
            (QuadFace::Downward, 1),
            (QuadFace::Left, 2),
            (QuadFace::Right, 3),
        ]
    );
    slot.display_upward_quad = false;
    slot.display_left_quad = false;
    assert_eq!(
        visible_faces(&slot, cube),
        vec![(QuadFace::Backward, 5), (QuadFace::Forward, 4), (QuadFace::Downward, 1), (QuadFace::Right, 3)]
    );
    assert!(visible_faces(&slot, None).is_empty());
    assert!(visible_faces(&Slot::default(), cube).is_empty());
}

#[test]
fn load_lump_faces_collects_the_faces_of_each_slot() {
    let mut builder = CubeRegistryBuilder::default();
    builder.cube_builders.push(sample_cube_builder());
    let mut g = PassiveGeosphere { chunk_map: ChunkMap::new(), cube_registry: builder.build() };
    let mut chunk = Chunk::default();
    chunk.get_from_position_mut(p(1, 0, 0)).cube_instance = Some(CubeInstance::default());
    chunk.get_from_position_mut(p(1, 0, 0)).display_back_quad = false;
    chunk.get_from_position_mut(p(5, 0, 0)).cube_instance = Some(CubeInstance::default());
    g.chunk_map.insert(geosphere_engine::geosphere::chunk::ChunkKey(p(0, 0, 0)), chunk);
    let faces = load_lump_faces(&mut g, p(0, 0, 0), 2);
    assert_eq!(faces.len(), 5);
    assert!(faces.iter().all(|f| f.0 == p(1, 0, 0)));
    assert!(!faces.iter().any(|f| f.2 == QuadFace::Backward));
    assert!(faces.iter().all(|f| f.1 == CubeInstanceOrientation::FORWARD));
    assert_eq!(faces[0].3, 4);
    let far = load_lump_faces(&mut g, p(10, 10, 10), 2);
    assert!(far.is_empty());
    assert!(g.slot(p(20, 20, 20)).cube_instance.is_none());
}

#[test]
fn lump_range_check_matches_i32() {
    use_lump_check();
}

fn use_lump_check() {
    assert!(geosphere_engine::spectator::lump_is_in_range(p(0, 0, 0), 16));
    assert!(geosphere_engine::spectator::lump_is_in_range(p(-134217728, 134217726, 0), 16));
    assert!(!geosphere_engine::spectator::lump_is_in_range(p(134217728, 0, 0), 16));
    assert!(!geosphere_engine::spectator::lump_is_in_range(p(0, -134217729, 0), 16));
    assert!(geosphere_engine::spectator::lump_is_in_range(p(5, 5, 5), 0));
}

fn sample_world() -> PassiveGeosphere {
    let mut builder = CubeRegistryBuilder::default();
    builder.cube_builders.push(sample_cube_builder());
    let mut g = PassiveGeosphere { chunk_map: ChunkMap::new(), cube_registry: builder.build() };
    let mut chunk = Chunk::default();
    chunk.get_from_position_mut(p(1, 0, 0)).cube_instance = Some(CubeInstance::default());
    chunk.get_from_position_mut(p(1, 0, 0)).display_back_quad = false;
    g.chunk_map.insert(geosphere_engine::geosphere::chunk::ChunkKey(p(0, 0, 0)), chunk);
    g
}

#[test]
fn spectator_starts_loading_each_unseen_lump_once() {
    let mut spectator = Spectator::<2>::default();
    assert_eq!(Spectator::<2>::lump_size(), 2);
    let looked_at = vec![p(0, 0, 0), p(1, 0, 0), p(0, 0, 0)];
    let (faces, requested) = spectator.spectate(&looked_at);
    assert!(faces.is_empty());
    assert_eq!(requested, vec![p(0, 0, 0), p(1, 0, 0)]);
    assert!(spectator.is_loading(p(0, 0, 0)));
    assert!(spectator.is_loading(p(1, 0, 0)));
    assert!(!spectator.is_loading(p(2, 0, 0)));
    let (faces, requested) = spectator.spectate(&looked_at);
    assert!(faces.is_empty());
    assert!(requested.is_empty());
}

#[test]
fn spectator_gives_the_faces_of_loaded_lumps() {
    let mut g = sample_world();
    let mut spectator = Spectator::<2>::default();
    let (_, requested) = spectator.spectate(&vec![p(0, 0, 0), p(5, 5, 5)]);
    assert_eq!(requested, vec![p(0, 0, 0), p(5, 5, 5)]);
    spectator.load_requested_lump(&mut g, p(0, 0, 0));
    assert!(!spectator.is_loading(p(0, 0, 0)));
    assert!(spectator.is_loading(p(5, 5, 5)));
    let cached = spectator.lump(p(0, 0, 0)).unwrap().clone();
    assert_eq!(cached, load_lump_faces(&mut g, p(0, 0, 0), 2));
    assert_eq!(cached.len(), 5);
    assert!(spectator.lump(p(5, 5, 5)).is_none());
    let (faces, requested) = spectator.spectate(&vec![p(5, 5, 5), p(0, 0, 0), p(0, 0, 0)]);
    assert!(requested.is_empty());
    assert_eq!(faces.len(), 10);
    assert_eq!(faces[..5].to_vec(), cached);
    assert_eq!(faces[5..].to_vec(), cached);
}

#[test]
fn spectator_load_to_lump_replaces_the_cached_faces() {
    let mut g = sample_world();
    let mut spectator = Spectator::<2>::default();
    spectator.load_to_lump(&mut g, p(3, 3, 3));
    assert!(spectator.lump(p(3, 3, 3)).unwrap().is_empty());
    assert!(!spectator.is_loading(p(3, 3, 3)));
    spectator.load_to_lump(&mut g, p(0, 0, 0));
    assert_eq!(spectator.lump(p(0, 0, 0)).unwrap().len(), 5);
}

#[test]
fn spectator_purge_keeps_only_near_lumps() {
    let mut g = sample_world();
    let mut spectator = Spectator::<2>::default();
    for l in [p(0, 0, 0), p(1, 0, 0), p(2, 0, 0), p(-2, 0, 0), p(0, 0, 3)] {
        spectator.load_to_lump(&mut g, l);
    }
    spectator.spectate(&vec![p(9, 9, 9)]);
    // slot (1, 1, 1) lies in lump (0, 0, 0); 5 slots make 2 lumps: lumps at distance 0 and 1 stay
    spectator.purge_cache_beyond(p(1, 1, 1), 5);
    assert!(spectator.lump(p(0, 0, 0)).is_some());
    assert!(spectator.lump(p(1, 0, 0)).is_some());
    assert!(spectator.lump(p(2, 0, 0)).is_none());
    assert!(spectator.lump(p(-2, 0, 0)).is_none());
    assert!(spectator.lump(p(0, 0, 3)).is_none());
    assert!(spectator.is_loading(p(9, 9, 9)));
    // slot (-1, 0, 0) lies in lump (-1, 0, 0)
    spectator.purge_cache_beyond(p(-1, 0, 0), 4);
    assert!(spectator.lump(p(0, 0, 0)).is_some());
    assert!(spectator.lump(p(1, 0, 0)).is_none());
    spectator.purge_cache_beyond(p(0, 0, 0), 1);
    assert!(spectator.lump(p(0, 0, 0)).is_none());
}

#[test]
fn texture_image_size_check_counts_four_bytes_per_pixel() {
    assert!(SerializableTextureImage::from_raw_parts(2, 2, vec![0; 16]).fills_rgba_image());
    assert!(SerializableTextureImage::from_raw_parts(2, 2, vec![0; 17]).fills_rgba_image());
    assert!(!SerializableTextureImage::from_raw_parts(2, 2, vec![0; 15]).fills_rgba_image());
    assert!(SerializableTextureImage::from_raw_parts(0, 5, vec![]).fills_rgba_image());
}

#[test]
fn compose_atlas_lays_each_image_in_its_cell() {
    let red = SerializableTextureImage::from_raw_parts(1, 1, vec![255, 0, 0, 255]);
    let green = SerializableTextureImage::from_raw_parts(2, 2, vec![0, 255, 0, 255].repeat(4));
    let (bytes, side, division) = compose_atlas(&vec![red, green], 2);
    assert_eq!((side, division), (4, 2));
    assert_eq!(bytes.len(), 3 * 4 * 4);
    let pixel = |x: usize, y: usize| &bytes[3 * (y * 4 + x)..3 * (y * 4 + x) + 3];
    assert_eq!(pixel(0, 0), &[255, 0, 0]);
    assert_eq!(pixel(1, 1), &[255, 0, 0]);
    assert_eq!(pixel(2, 0), &[0, 255, 0]);
    assert_eq!(pixel(3, 1), &[0, 255, 0]);
    assert_eq!(pixel(0, 2), &[0, 0, 0]);
    let (bytes, side, division) = compose_atlas(&vec![], 3);
    assert_eq!((side, division), (3, 0));
    assert_eq!(bytes, vec![0; 27]);
}
