use geosphere_engine::geosphere::active_geosphere::{ActiveGeosphere, ActiveGeosphereBuilder};
use geosphere_engine::geosphere::chunk::{
    Chunk, ChunkKey, ChunkLoadData, ChunkLoader, ChunkSaver, SampleChunkLoader, SampleChunkSaver,
};
use geosphere_engine::geosphere::chunk_map::ChunkMap;
use geosphere_engine::geosphere::cube::{
    Cube, CubeBuilder, CubeInstance, CubeInstanceOrientation, CubeRegistry, CubeRegistryBuilder,
};
use geosphere_engine::geosphere::morton::{Morton4, MAX, MAX_PER_COMPONENT};
use geosphere_engine::geosphere::passive_geosphere::PassiveGeosphere;
use geosphere_engine::geosphere::point_cluster::{Point3, PointCluster};
use geosphere_engine::geosphere::slot::Slot;
use geosphere_engine::viewport::serializable_texture_image::SerializableTextureImage;
use std::cmp::Ordering;
use std::sync::{Arc, Mutex};

fn p(x: i32, y: i32, z: i32) -> Point3 {
    Point3::new(x, y, z)
}

fn image(width: u32, height: u32, fill: u8) -> SerializableTextureImage {
    SerializableTextureImage::from_raw_parts(width, height, vec![fill; (width * height * 4) as usize])
}

fn cube_builder(name: &str, fill: u8) -> CubeBuilder {
    CubeBuilder {
        id: ustr::ustr(name),
        geosphere_texture_image_top: image(1, 1, fill),
        geosphere_texture_image_bottom: image(1, 1, fill + 1),
        geosphere_texture_image_left: image(1, 1, fill + 2),
        geosphere_texture_image_right: image(1, 1, fill + 3),
        geosphere_texture_image_front: image(1, 1, fill + 4),
        geosphere_texture_image_back: image(1, 1, fill + 5),
    }
}

#[test]
fn morton_constants() {
    assert_eq!(MAX_PER_COMPONENT, 16);
    assert_eq!(MAX, 4096);
}

#[test]
fn morton_consume_interleaves_bits() {
    assert_eq!(Morton4::consume(p(0, 0, 0)), (0, p(0, 0, 0)));
    assert_eq!(Morton4::consume(p(1, 0, 0)), (1, p(0, 0, 0)));
    assert_eq!(Morton4::consume(p(0, 1, 0)), (2, p(0, 0, 0)));
    assert_eq!(Morton4::consume(p(0, 0, 1)), (4, p(0, 0, 0)));
    assert_eq!(Morton4::consume(p(2, 0, 0)), (8, p(0, 0, 0)));
    assert_eq!(Morton4::consume(p(15, 15, 15)), (4095, p(0, 0, 0)));
    assert_eq!(Morton4::consume(p(0, 0, 8)), (2048, p(0, 0, 0)));
    assert_eq!(Morton4::consume(p(3, 0, 0)), (9, p(0, 0, 0)));
    assert_eq!(Morton4::consume(p(-1, 0, 0)), (585, p(-1, 0, 0)));
    assert_eq!(Morton4::consume(p(17, -16, 35)), (37, p(1, -1, 2)));
}

#[test]
fn morton_codes_are_distinct_and_below_max() {
    let mut seen = vec![false; 4096];
    for x in 0..16 {
        for y in 0..16 {
            for z in 0..16 {
                let (code, origin) = Morton4::consume(p(x, y, z));
                assert!(code < MAX);
                assert_eq!(origin, p(0, 0, 0));
                assert!(!seen[code as usize]);
                seen[code as usize] = true;
            }
        }
    }
}

#[test]
fn morton_compute_coordinate_rounds_down() {
    let (origin, local) = Morton4::compute_coordinate(p(-17, 5, 33));
    assert_eq!(origin, p(-2, 0, 2));
    assert_eq!((local.x, local.y, local.z), (15, 5, 1));
    let (origin, local) = Morton4::compute_coordinate(p(i32::MIN, i32::MAX, -16));
    assert_eq!(origin, p(-134217728, 134217727, -1));
    assert_eq!((local.x, local.y, local.z), (0, 15, 0));
}

#[test]
fn morton_compute_cluster_covers_the_chunk() {
    let c = Morton4::compute_cluster(p(1, -1, 0));
    assert_eq!(c, PointCluster { min: p(16, -16, 0), max: p(32, 0, 16) });
}

#[test]
fn point_cluster_points_lists_each_point_once() {
    let c = PointCluster { min: p(-1, 0, 2), max: p(1, 2, 3) };
    let points = c.points();
    assert_eq!(points.len(), 4);
    for q in [p(-1, 0, 2), p(-1, 1, 2), p(0, 0, 2), p(0, 1, 2)] {
        assert_eq!(points.iter().filter(|r| **r == q).count(), 1);
    }
    let empty = PointCluster { min: p(0, 0, 0), max: p(0, 5, 5) };
    assert!(empty.points().is_empty());
}

#[test]
fn chunk_key_cmp_orders_by_x_then_y_then_z() {
    let a = ChunkKey(p(0, 0, 0));
    let b = ChunkKey(p(1, 0, 0));
    assert_eq!(a.cmp(&b), Ordering::Less);
    assert_eq!(b.cmp(&a), Ordering::Greater);
    assert_eq!(ChunkKey(p(1, 2, 3)).cmp(&ChunkKey(p(1, 2, 3))), Ordering::Equal);
    assert_eq!(ChunkKey(p(1, 3, 0)).cmp(&ChunkKey(p(1, 2, 9))), Ordering::Greater);
    assert_eq!(ChunkKey(p(1, 2, -9)).cmp(&ChunkKey(p(1, 2, 9))), Ordering::Less);
}

#[test]
fn chunk_key_converts_both_ways() {
    let k = ChunkKey::from(p(4, 5, 6));
    assert_eq!(k, ChunkKey(p(4, 5, 6)));
    assert_eq!(Point3::from(k), p(4, 5, 6));
}

#[test]
fn default_slot_is_empty_and_shows_every_face() {
    let s = Slot::default();
    assert!(s.cube_instance.is_none());
    assert!(s.display_upward_quad && s.display_downward_quad);
    assert!(s.display_left_quad && s.display_right_quad);
    assert!(s.display_front_quad && s.display_back_quad);
}

#[test]
fn chunk_get_mut_changes_one_slot() {
    let mut chunk = Chunk::default();
    chunk.get_mut(7).display_left_quad = false;
    assert!(!chunk.get(7).display_left_quad);
    assert!(chunk.get(6).display_left_quad);
    chunk.get_from_position_mut(p(17, 0, 0)).display_back_quad = false;
    assert!(!chunk.get(1).display_back_quad);
    assert!(!chunk.get_from_position(p(1, 16, -16)).display_back_quad);
}

#[test]
fn cube_instance_default_faces_forward() {
    let c = CubeInstance::default();
    assert_eq!(c.orientation, CubeInstanceOrientation::FORWARD);
    assert_eq!(c.id, ustr::Ustr::default());
    assert_eq!(CubeInstanceOrientation::default(), CubeInstanceOrientation::FORWARD);
}

#[test]
fn sample_chunk_loader_places_five_cubes() {
    let mut loader = SampleChunkLoader::default();
    let data = loader.load_chunk(ChunkKey(p(3, 4, 5))).unwrap();
    assert!(data.require_hidden_face_baking);
    let mut count = 0;
    for code in 0..MAX {
        if data.chunk.get(code).cube_instance.is_some() {
            count += 1;
        }
    }
    assert_eq!(count, 5);
    for q in [p(0, 0, 0), p(1, 0, 1), p(1, 0, 0), p(0, 0, 1), p(2, 0, 1)] {
        assert!(data.chunk.get_from_position(q).cube_instance.is_some());
    }
    assert!(data.chunk.get_from_position(p(2, 0, 0)).cube_instance.is_none());
    let mut saver = SampleChunkSaver::default();
    assert!(saver.save_chunk(ChunkKey(p(0, 0, 0)), &data.chunk).is_ok());
}

#[test]
fn chunk_map_insert_get_remove() {
    let mut map = ChunkMap::new();
    let k = ChunkKey(p(1, -2, 3));
    assert!(!map.contains_key(&k));
    assert!(map.get(&k).is_none());
    let mut chunk = Chunk::default();
    chunk.get_mut(0).display_upward_quad = false;
    assert!(map.insert(k, chunk).is_none());
    assert!(map.contains_key(&k));
    assert!(!map.get(&k).unwrap().get(0).display_upward_quad);
    assert!(!map.contains_key(&ChunkKey(p(1, -2, 4))));
    let replaced = map.insert(k, Chunk::default()).unwrap();
    assert!(!replaced.get(0).display_upward_quad);
    assert!(map.get(&k).unwrap().get(0).display_upward_quad);
    let removed = map.remove(&k);
    assert!(removed.is_some());
    assert!(!map.contains_key(&k));
    assert!(map.remove(&k).is_none());
}

#[test]
fn chunk_map_keys_lists_each_key_once() {
    let mut map = ChunkMap::new();
    map.insert(ChunkKey(p(0, 0, 0)), Chunk::default());
    map.insert(ChunkKey(p(0, 0, 1)), Chunk::default());
    map.insert(ChunkKey(p(-1, 7, 0)), Chunk::default());
    map.insert(ChunkKey(p(0, 0, 1)), Chunk::default());
    let mut keys = map.keys();
    keys.sort_by(|a, b| a.cmp(b));
    assert_eq!(keys, vec![ChunkKey(p(-1, 7, 0)), ChunkKey(p(0, 0, 0)), ChunkKey(p(0, 0, 1))]);
}

#[test]
fn chunk_map_get_or_insert_default_creates_an_empty_chunk() {
    let mut map = ChunkMap::new();
    let k = ChunkKey(p(2, 2, 2));
    map.get_or_insert_default(k).get_mut(3).display_front_quad = false;
    assert!(!map.get(&k).unwrap().get(3).display_front_quad);
    assert!(!map.get_or_insert_default(k).get(3).display_front_quad);
}

#[test]
fn cube_registry_build_gives_six_images_per_kind() {
    let mut builder = CubeRegistryBuilder::default();
    builder.cube_builders.push(cube_builder("dirt", 10));
    builder.cube_builders.push(cube_builder("stone", 20));
    let registry = builder.build();
    let stone = registry.get(&ustr::ustr("stone")).unwrap();
    assert_eq!(
        stone,
        Cube {
            geosphere_texture_atlas_index_top: 6,
            geosphere_texture_atlas_index_bottom: 7,
            geosphere_texture_atlas_index_left: 8,
            geosphere_texture_atlas_index_right: 9,
            geosphere_texture_atlas_index_front: 10,
            geosphere_texture_atlas_index_back: 11,
        }
    );
    let dirt = registry.get(&ustr::ustr("dirt")).unwrap();
    assert_eq!(dirt.geosphere_texture_atlas_index_top, 0);
    assert_eq!(dirt.geosphere_texture_atlas_index_back, 5);
    assert!(registry.get(&ustr::ustr("sand")).is_none());
    let images = registry.geosphere_serializable_texture_image();
    assert_eq!(images.len(), 12);
    let fills: Vec<u8> = images.iter().map(|i| i.data()[0]).collect();
    assert_eq!(fills, vec![10, 11, 12, 13, 14, 15, 20, 21, 22, 23, 24, 25]);
    assert_eq!(registry.cubes().len(), 2);
}

#[test]
fn cube_registry_later_kind_replaces_earlier_one_of_same_name() {
    let mut builder = CubeRegistryBuilder::default();
    builder.cube_builders.push(cube_builder("dirt", 10));
    builder.cube_builders.push(cube_builder("dirt", 20));
    let registry = builder.build();
    assert_eq!(registry.cubes().len(), 1);
    assert_eq!(registry.get(&ustr::ustr("dirt")).unwrap().geosphere_texture_atlas_index_top, 6);
    assert_eq!(registry.geosphere_serializable_texture_image().len(), 12);
}

#[test]
fn cube_registry_register_and_clone() {
    let mut registry = CubeRegistry::new();
    let cube = Cube {
        geosphere_texture_atlas_index_top: 1,
        geosphere_texture_atlas_index_bottom: 2,
        geosphere_texture_atlas_index_left: 3,
        geosphere_texture_atlas_index_right: 4,
        geosphere_texture_atlas_index_front: 5,
        geosphere_texture_atlas_index_back: 6,
    };
    registry.register(ustr::ustr("a"), cube);
    let copy = registry.clone();
    assert_eq!(copy.get(&ustr::ustr("a")), Some(cube));
    assert!(CubeRegistry::new().get(&ustr::ustr("a")).is_none());
}

fn png_bytes(width: u32, height: u32, pixel: [u8; 4]) -> Vec<u8> {
    let img = image::RgbaImage::from_pixel(width, height, image::Rgba(pixel));
    let mut bytes: Vec<u8> = Vec::new();
    img.write_to(&mut std::io::Cursor::new(&mut bytes), image::ImageFormat::Png).unwrap();
    bytes
}

#[test]
fn cube_registry_builder_sample_decodes_its_images() {
    let top = png_bytes(2, 1, [1, 2, 3, 4]);
    let side = png_bytes(1, 1, [5, 6, 7, 8]);
    let bottom = png_bytes(1, 2, [9, 10, 11, 12]);
    let builder = CubeRegistryBuilder::try_with_sample(&top, &side, &bottom).unwrap();
    assert_eq!(builder.cube_builders.len(), 1);
    let b = &builder.cube_builders[0];
    assert_eq!(*b.geosphere_texture_image_top.width(), 2);
    assert_eq!(*b.geosphere_texture_image_top.height(), 1);
    assert_eq!(b.geosphere_texture_image_top.data(), &vec![1, 2, 3, 4, 1, 2, 3, 4]);
    assert_eq!(b.geosphere_texture_image_left.data(), &vec![5, 6, 7, 8]);
    assert_eq!(b.geosphere_texture_image_back.data(), &vec![5, 6, 7, 8]);
    assert_eq!(*b.geosphere_texture_image_bottom.height(), 2);
    assert_eq!(b.id, ustr::Ustr::default());
}

#[test]
fn cube_registry_builder_sample_fails_on_bytes_that_are_no_image() {
    let good = png_bytes(1, 1, [0, 0, 0, 255]);
    assert!(CubeRegistryBuilder::try_with_sample(&[1, 2, 3], &good, &good).is_err());
    assert!(CubeRegistryBuilder::try_with_sample(&good, &good, &[]).is_err());
    assert!(ActiveGeosphereBuilder::try_with_sample(&good, &[7], &good).is_err());
    let builder = ActiveGeosphereBuilder::try_with_sample(&good, &good, &good).unwrap();
    assert_eq!(builder.cube_registry_builder.cube_builders.len(), 1);
}

#[test]
fn passive_geosphere_slot_write_then_read() {
    let mut g = PassiveGeosphere::default();
    assert!(g.slot(p(5, 6, 7)).display_left_quad);
    g.slot(p(5, 6, 7)).display_left_quad = false;
    assert!(!g.slot(p(5, 6, 7)).display_left_quad);
    assert!(g.slot(p(5, 6, 8)).display_left_quad);
    assert!(g.slot(p(-11, 6, 7)).display_left_quad);
}

#[test]
fn passive_geosphere_slot_cube_looks_up_the_registry() {
    let mut builder = CubeRegistryBuilder::default();
    builder.cube_builders.push(cube_builder("dirt", 0));
    let mut g = PassiveGeosphere { chunk_map: ChunkMap::new(), cube_registry: builder.build() };
    let (_, cube) = g.slot_cube(p(0, 0, 0));
    assert!(cube.is_none());
    g.slot(p(0, 0, 0)).cube_instance =
        Some(CubeInstance { id: ustr::ustr("dirt"), orientation: CubeInstanceOrientation::UPWARD });
    let (slot, cube) = g.slot_cube(p(0, 0, 0));
    assert!(slot.cube_instance.is_some());
    assert_eq!(cube.unwrap().geosphere_texture_atlas_index_front, 4);
    g.slot(p(1, 0, 0)).cube_instance = Some(CubeInstance::default());
    let (_, cube) = g.slot_cube(p(1, 0, 0));
    assert!(cube.is_none());
}

fn sample_active_geosphere() -> ActiveGeosphere {
    ActiveGeosphereBuilder {
        loader: Box::new(SampleChunkLoader::default()),
        saver: Box::new(SampleChunkSaver::default()),
        cube_registry_builder: CubeRegistryBuilder::default(),
    }
    .build()
}

#[test]
fn active_geosphere_loading_bakes_hidden_faces() {
    let mut g = sample_active_geosphere();
    let chunk = *g.chunk(&ChunkKey(p(0, 0, 0))).unwrap();
    assert!(chunk.get_from_position(p(1, 0, 1)).cube_instance.is_some());
    let above = g.slot(p(1, 1, 1)).unwrap();
    assert!(above.cube_instance.is_none());
    assert!(!above.display_downward_quad);
    assert!(above.display_upward_quad);
    assert!(!g.slot(p(2, 1, 1)).unwrap().display_downward_quad);
    assert!(g.slot(p(3, 1, 1)).unwrap().display_downward_quad);
    // the layer z = 0 lies outside the baked cluster while no chunk is next to this one
    assert!(g.slot(p(1, 1, 0)).unwrap().display_downward_quad);
    let edge = g.slot(p(1, 0, 1)).unwrap();
    assert!(edge.display_left_quad && edge.display_right_quad);
}

#[test]
fn active_geosphere_bake_multiple_hidden_face_bakes_the_cluster() {
    let mut g = sample_active_geosphere();
    g.bake_multiple_hidden_face(PointCluster { min: p(1, 0, 1), max: p(2, 1, 2) }).unwrap();
    let s = *g.slot(p(1, 0, 1)).unwrap();
    assert!(s.display_upward_quad);
    assert!(s.display_downward_quad);
    assert!(!s.display_left_quad);
    assert!(!s.display_right_quad);
    assert!(!s.display_front_quad);
    assert!(s.display_back_quad);
}

#[test]
fn active_geosphere_slot_write_then_read() {
    let mut g = sample_active_geosphere();
    g.slot(p(40, 3, -7)).unwrap().display_front_quad = false;
    assert!(!g.slot(p(40, 3, -7)).unwrap().display_front_quad);
    let (slot, cube) = g.slot_cube(p(0, 0, 0)).unwrap();
    assert!(slot.cube_instance.is_some());
    assert!(cube.is_none());
    assert!(g.cube_registry().cubes().is_empty());
}

struct RecordingSaver {
    saved: Arc<Mutex<Vec<ChunkKey>>>,
}

impl ChunkSaver for RecordingSaver {
    fn save_chunk(&mut self, p_key: ChunkKey, _p_chunk: &Chunk) -> anyhow::Result<()> {
        self.saved.lock().unwrap().push(p_key);
        Ok(())
    }
}

struct CountingLoader {
    loaded: Arc<Mutex<Vec<ChunkKey>>>,
    fail: bool,
}

impl ChunkLoader for CountingLoader {
    fn load_chunk(&mut self, p_key: ChunkKey) -> anyhow::Result<ChunkLoadData> {
        if self.fail {
            return Err(anyhow::Error::msg("no chunk"));
        }
        self.loaded.lock().unwrap().push(p_key);
        Ok(ChunkLoadData { chunk: Chunk::default(), require_hidden_face_baking: false })
    }
}

#[test]
fn active_geosphere_purge_beyond_saves_and_drops_far_chunks() {
    let saved = Arc::new(Mutex::new(Vec::new()));
    let loaded = Arc::new(Mutex::new(Vec::new()));
    let mut g = ActiveGeosphereBuilder {
        loader: Box::new(CountingLoader { loaded: loaded.clone(), fail: false }),
        saver: Box::new(RecordingSaver { saved: saved.clone() }),
        cube_registry_builder: CubeRegistryBuilder::default(),
    }
    .build();
    g.chunk(&ChunkKey(p(0, 0, 0))).unwrap();
    g.chunk(&ChunkKey(p(0, -1, 0))).unwrap();
    g.chunk(&ChunkKey(p(0, 0, 0))).unwrap();
    assert_eq!(loaded.lock().unwrap().len(), 2);
    g.purge_beyond(p(0, 0, 0), 10);
    assert_eq!(*saved.lock().unwrap(), vec![ChunkKey(p(0, -1, 0))]);
    g.chunk(&ChunkKey(p(0, 0, 0))).unwrap();
    assert_eq!(loaded.lock().unwrap().len(), 2);
    g.chunk(&ChunkKey(p(0, -1, 0))).unwrap();
    assert_eq!(loaded.lock().unwrap().len(), 3);
    g.purge_beyond(p(0, 0, 0), 17);
    assert_eq!(saved.lock().unwrap().len(), 1);
}

#[test]
fn active_geosphere_reports_a_failing_loader() {
    let mut g = ActiveGeosphereBuilder {
        loader: Box::new(CountingLoader { loaded: Arc::new(Mutex::new(Vec::new())), fail: true }),
        saver: Box::new(SampleChunkSaver::default()),
        cube_registry_builder: CubeRegistryBuilder::default(),
    }
    .build();
    assert!(g.chunk(&ChunkKey(p(0, 0, 0))).is_err());
    assert!(g.slot(p(0, 0, 0)).is_err());
    assert!(g.slot_cube(p(0, 0, 0)).is_err());
    assert!(g.bake_multiple_hidden_face(PointCluster { min: p(0, 0, 0), max: p(1, 1, 1) }).is_err());
    assert!(g.bake_multiple_hidden_face(PointCluster { min: p(0, 0, 0), max: p(0, 1, 1) }).is_ok());
}

#[test]
fn active_geosphere_store_loaded_chunk_keeps_and_bakes_the_given_chunk() {
    let failing = || ActiveGeosphereBuilder {
        loader: Box::new(CountingLoader { loaded: Arc::new(Mutex::new(Vec::new())), fail: true }),
        saver: Box::new(SampleChunkSaver::default()),
        cube_registry_builder: CubeRegistryBuilder::default(),
    }
    .build();
    let mut chunk = Chunk::default();
    chunk.get_from_position_mut(p(1, 1, 1)).cube_instance = Some(CubeInstance::default());

    let mut g = failing();
    g.store_loaded_chunk(ChunkKey(p(0, 0, 0)), ChunkLoadData { chunk, require_hidden_face_baking: false })
        .unwrap();
    assert!(g.slot(p(1, 1, 1)).unwrap().cube_instance.is_some());
    assert!(g.slot(p(1, 2, 1)).unwrap().display_downward_quad);

    let mut g = failing();
    g.store_loaded_chunk(ChunkKey(p(0, 0, 0)), ChunkLoadData { chunk, require_hidden_face_baking: true })
        .unwrap();
    assert!(g.slot(p(1, 1, 1)).unwrap().cube_instance.is_some());
    assert!(!g.slot(p(1, 2, 1)).unwrap().display_downward_quad);
    assert!(!g.slot(p(2, 1, 1)).unwrap().display_left_quad);
    assert!(g.slot(p(2, 1, 1)).unwrap().display_right_quad);
    assert!(g.slot(p(3, 1, 1)).unwrap().display_downward_quad);
}

#[test]
fn sample_chunk_cubes_face_forward() {
    let data = SampleChunkLoader::default().load_chunk(ChunkKey(p(7, -3, 2))).unwrap();
    let mut count = 0;
    for code in 0..MAX {
        if let Some(c) = data.chunk.get(code).cube_instance {
            assert_eq!(c.orientation, CubeInstanceOrientation::FORWARD);
            count += 1;
        }
    }
    assert_eq!(count, 5);
}

#[test]
fn cube_registry_counts_one_entry_per_distinct_name() {
    let mut builder = CubeRegistryBuilder::default();
    builder.cube_builders.push(cube_builder("a", 1));
    builder.cube_builders.push(cube_builder("b", 2));
    builder.cube_builders.push(cube_builder("c", 3));
    let registry = builder.build();
    assert_eq!(registry.cubes().len(), 3);
    assert_eq!(registry.get(&ustr::ustr("c")).unwrap().geosphere_texture_atlas_index_back, 17);
}

#[test]
fn active_geosphere_reads_a_chunk_twice_with_one_load() {
    let loaded = Arc::new(Mutex::new(Vec::new()));
    let mut g = ActiveGeosphereBuilder {
        loader: Box::new(CountingLoader { loaded: loaded.clone(), fail: false }),
        saver: Box::new(SampleChunkSaver::default()),
        cube_registry_builder: CubeRegistryBuilder::default(),
    }
    .build();
    let first = *g.chunk(&ChunkKey(p(3, 0, -2))).unwrap();
    let second = *g.chunk(&ChunkKey(p(3, 0, -2))).unwrap();
    assert_eq!(*loaded.lock().unwrap(), vec![ChunkKey(p(3, 0, -2))]);
    for code in 0..MAX {
        assert_eq!(first.get(code).display_back_quad, second.get(code).display_back_quad);
        assert_eq!(first.get(code).cube_instance.is_some(), second.get(code).cube_instance.is_some());
    }
}
