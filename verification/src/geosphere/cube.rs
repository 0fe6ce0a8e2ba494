use vstd::prelude::*;
use crate::viewport::serializable_texture_image::{SerializableTextureImage, decode_rgba8, decoded_rgba8};

verus! {

#[verifier::external_type_specification]
#[verifier::external_body]
pub struct ExUstr(ustr::Ustr);

/// The name of a kind of cube: an interned string.
pub type CubeResourceId = ustr::Ustr;

/// Calls `Ustr::default`, which interns the empty string. Nothing is stated of the result: an
/// interned string is an address that each process picks for itself.
#[verifier::external_body]
pub(crate) fn default_cube_resource_id() -> CubeResourceId {
    ustr::Ustr::default()
}

/// Calls `PartialEq::eq` of `Ustr`, which compares the two interned addresses: the result is
/// `true` exactly when both values are the same.
#[verifier::external_body]
pub(crate) fn same_cube_resource_id(a: &CubeResourceId, b: &CubeResourceId) -> (r: bool)
    ensures
        r == (*a == *b),
{
    *a == *b
}

/// Where the six faces of a kind of cube find their images in the texture atlas.
#[derive(Clone, Copy, Debug, PartialEq, Eq, Structural)]
pub struct Cube {
    pub geosphere_texture_atlas_index_top: u32,
    pub geosphere_texture_atlas_index_bottom: u32,
    pub geosphere_texture_atlas_index_left: u32,
    pub geosphere_texture_atlas_index_right: u32,
    pub geosphere_texture_atlas_index_front: u32,
    pub geosphere_texture_atlas_index_back: u32,
}

/// Which way a placed cube faces.
#[derive(Clone, Copy, Debug, PartialEq, Eq, Structural)]
pub enum CubeInstanceOrientation {
    FORWARD,
    BACKWARD,
    UPWARD,
    DOWNWARD,
    LEFT,
    RIGHT,
}

impl Default for CubeInstanceOrientation {
    fn default() -> (r: CubeInstanceOrientation)
        ensures
            r == CubeInstanceOrientation::FORWARD,
    {
        CubeInstanceOrientation::FORWARD
    }
}

/// A cube placed in a slot: its kind and its orientation.
#[derive(Clone, Copy, Debug)]
pub struct CubeInstance {
    pub id: CubeResourceId,
    pub orientation: CubeInstanceOrientation,
}

impl Default for CubeInstance {
    /// A cube of the kind named by the empty string, facing forward.
    fn default() -> (r: CubeInstance)
        ensures
            r.orientation == CubeInstanceOrientation::FORWARD,
    {
        CubeInstance { id: default_cube_resource_id(), orientation: CubeInstanceOrientation::FORWARD }
    }
}

/// The kinds of cubes, by name, and the images of their faces in atlas order.
pub struct CubeRegistry {
    cubes: Vec<(CubeResourceId, Cube)>,
    geosphere_serializable_texture_image: Vec<SerializableTextureImage>,
}

/// The map that a list of distinct names and their cubes stands for.
pub open spec fn entries_map(entries: Seq<(CubeResourceId, Cube)>) -> Map<CubeResourceId, Cube> {
    Map::new(
        |id: CubeResourceId| exists|i: int| 0 <= i < entries.len() && #[trigger] entries[i].0 == id,
        |id: CubeResourceId| entries[choose|i: int| 0 <= i < entries.len() && #[trigger] entries[i].0 == id].1,
    )
}

/// No name occurs twice.
pub open spec fn distinct_names(entries: Seq<(CubeResourceId, Cube)>) -> bool {
    forall|i: int, j: int|
        0 <= i < entries.len() && 0 <= j < entries.len() && i != j ==> #[trigger] entries[i].0
            != #[trigger] entries[j].0
}

/// A list of distinct names has as many entries as its map has names.
proof fn lemma_entries_len(s: Seq<(CubeResourceId, Cube)>)
    requires
        distinct_names(s),
    ensures
        s.len() == entries_map(s).dom().len(),
{
    let ids = s.map_values(|e: (CubeResourceId, Cube)| e.0);
    assert(ids.no_duplicates()) by {
        assert forall|i: int, j: int| 0 <= i < ids.len() && 0 <= j < ids.len() && i != j implies ids[i] != ids[j] by {
            assert(s[i].0 != s[j].0);
        }
    }
    ids.unique_seq_to_set();
    assert forall|id: CubeResourceId| #[trigger] entries_map(s).dom().contains(id) <==> ids.to_set().contains(id) by {
        if ids.to_set().contains(id) {
            let i = choose|i: int| 0 <= i < ids.len() && ids[i] == id;
            assert(s[i].0 == id);
        }
        if entries_map(s).dom().contains(id) {
            let i = choose|i: int| 0 <= i < s.len() && #[trigger] s[i].0 == id;
            assert(ids[i] == id);
        }
    }
    assert(entries_map(s).dom() =~= ids.to_set());
}

impl CubeRegistry {
    pub closed spec fn wf(&self) -> bool {
        distinct_names(self.cubes@)
    }

    /// The registered cubes by name.
    pub closed spec fn cube_map(&self) -> Map<CubeResourceId, Cube> {
        entries_map(self.cubes@)
    }

    /// The face images, each as width, height and bytes, in atlas order.
    pub closed spec fn image_views(&self) -> Seq<(u32, u32, Seq<u8>)> {
        self.geosphere_serializable_texture_image@.map_values(|i: SerializableTextureImage| i@)
    }

    /// A registry with no cubes and no images.
    pub fn new() -> (r: CubeRegistry)
        ensures
            r.wf(),
            r.cube_map() == Map::<CubeResourceId, Cube>::empty(),
            r.image_views() == Seq::<(u32, u32, Seq<u8>)>::empty(),
    {
        let r = CubeRegistry { cubes: Vec::new(), geosphere_serializable_texture_image: Vec::new() };
        assert(r.cube_map() =~= Map::<CubeResourceId, Cube>::empty());
        assert(r.image_views() =~= Seq::<(u32, u32, Seq<u8>)>::empty());
        r
    }

    /// The registered cubes with their names.
    pub fn cubes(&self) -> (r: &Vec<(CubeResourceId, Cube)>)
        ensures
            entries_map(r@) == self.cube_map(),
            self.wf() ==> distinct_names(r@),
            self.wf() ==> r@.len() == self.cube_map().dom().len(),
    {
        proof {
            if self.wf() {
                lemma_entries_len(self.cubes@);
            }
        }
        &self.cubes
    }

    /// The face images in atlas order.
    pub fn geosphere_serializable_texture_image(&self) -> (r: &Vec<SerializableTextureImage>)
        ensures
            r@.map_values(|i: SerializableTextureImage| i@) == self.image_views(),
    {
        &self.geosphere_serializable_texture_image
    }

    /// The cube registered under `p_id`, if any.
    pub fn get(&self, p_id: &CubeResourceId) -> (r: Option<Cube>)
        requires
            self.wf(),
        ensures
            r == (if self.cube_map().contains_key(*p_id) {
                Some(self.cube_map()[*p_id])
            } else {
                None
            }),
    {
        let mut i: usize = 0;
        while i < self.cubes.len()
            invariant
                i <= self.cubes@.len(),
                distinct_names(self.cubes@),
                forall|j: int| 0 <= j < i ==> self.cubes@[j].0 != *p_id,
            decreases self.cubes@.len() - i,
        {
            if same_cube_resource_id(&self.cubes[i].0, p_id) {
                proof {
                    let k = choose|k: int| 0 <= k < self.cubes@.len() && #[trigger] self.cubes@[k].0 == *p_id;
                    assert(k == i);
                }
                return Some(self.cubes[i].1);
            }
            i = i + 1;
        }
        None
    }

    /// Registers `p_entry` under `p_id`, replacing a cube registered under that name.
    pub fn register(&mut self, p_id: CubeResourceId, p_entry: Cube)
        requires
            old(self).wf(),
        ensures
            final(self).wf(),
            final(self).cube_map() == old(self).cube_map().insert(p_id, p_entry),
            final(self).image_views() == old(self).image_views(),
    {
        let ghost old_cubes = self.cubes@;
        let mut i: usize = 0;
        while i < self.cubes.len()
            invariant
                i <= self.cubes@.len(),
                self.cubes@ == old_cubes,
                old_cubes == old(self).cubes@,
                distinct_names(old_cubes),
                self.geosphere_serializable_texture_image@ == old(
                    self,
                ).geosphere_serializable_texture_image@,
                forall|j: int| 0 <= j < i ==> self.cubes@[j].0 != p_id,
            decreases self.cubes@.len() - i,
        {
            if same_cube_resource_id(&self.cubes[i].0, &p_id) {
                self.cubes.set(i, (p_id, p_entry));
                assert(distinct_names(self.cubes@)) by {
                    assert forall|a: int, b: int|
                        0 <= a < self.cubes@.len() && 0 <= b < self.cubes@.len() && a != b implies #[trigger] self.cubes@[a].0
                            != #[trigger] self.cubes@[b].0 by {
                        assert(old_cubes[a].0 != old_cubes[b].0);
                    }
                }
                assert(entries_map(self.cubes@) =~= entries_map(old_cubes).insert(p_id, p_entry)) by {
                    assert forall|id: CubeResourceId|
                        #![auto]
                        entries_map(self.cubes@).contains_key(id) == entries_map(old_cubes).insert(p_id, p_entry).contains_key(id) by {
                        if id == p_id {
                            assert(self.cubes@[i as int].0 == id);
                        } else if entries_map(old_cubes).contains_key(id) {
                            let k = choose|k: int| 0 <= k < old_cubes.len() && #[trigger] old_cubes[k].0 == id;
                            assert(self.cubes@[k].0 == id);
                        } else if entries_map(self.cubes@).contains_key(id) {
                            let k = choose|k: int| 0 <= k < self.cubes@.len() && #[trigger] self.cubes@[k].0 == id;
                            assert(old_cubes[k].0 == id);
                        }
                    }
                    assert forall|id: CubeResourceId|
                        #![auto]
                        entries_map(self.cubes@).contains_key(id) implies entries_map(self.cubes@)[id] == entries_map(old_cubes).insert(p_id, p_entry)[id] by {
                        let k = choose|k: int| 0 <= k < self.cubes@.len() && #[trigger] self.cubes@[k].0 == id;
                        if id == p_id {
                            assert(k == i);
                        } else {
                            assert(old_cubes[k].0 == id);
                            let k2 = choose|k2: int| 0 <= k2 < old_cubes.len() && #[trigger] old_cubes[k2].0 == id;
                            assert(k2 == k);
                        }
                    }
                }
                return;
            }
            i = i + 1;
        }
        self.cubes.push((p_id, p_entry));
        assert(distinct_names(self.cubes@)) by {
            assert forall|a: int, b: int|
                0 <= a < self.cubes@.len() && 0 <= b < self.cubes@.len() && a != b implies #[trigger] self.cubes@[a].0
                    != #[trigger] self.cubes@[b].0 by {
                if a < old_cubes.len() && b < old_cubes.len() {
                    assert(old_cubes[a].0 != old_cubes[b].0);
                }
            }
        }
        assert(entries_map(self.cubes@) =~= entries_map(old_cubes).insert(p_id, p_entry)) by {
            let n = old_cubes.len() as int;
            assert forall|id: CubeResourceId|
                #![auto]
                entries_map(self.cubes@).contains_key(id) == entries_map(old_cubes).insert(p_id, p_entry).contains_key(id) by {
                if id == p_id {
                    assert(self.cubes@[n].0 == id);
                } else if entries_map(old_cubes).contains_key(id) {
                    let k = choose|k: int| 0 <= k < old_cubes.len() && #[trigger] old_cubes[k].0 == id;
                    assert(self.cubes@[k].0 == id);
                } else if entries_map(self.cubes@).contains_key(id) {
                    let k = choose|k: int| 0 <= k < self.cubes@.len() && #[trigger] self.cubes@[k].0 == id;
                    assert(old_cubes[k].0 == id);
                }
            }
            assert forall|id: CubeResourceId|
                #![auto]
                entries_map(self.cubes@).contains_key(id) implies entries_map(self.cubes@)[id] == entries_map(old_cubes).insert(p_id, p_entry)[id] by {
                let k = choose|k: int| 0 <= k < self.cubes@.len() && #[trigger] self.cubes@[k].0 == id;
                if id == p_id {
                    assert(k == n);
                } else {
                    assert(old_cubes[k].0 == id);
                    let k2 = choose|k2: int| 0 <= k2 < old_cubes.len() && #[trigger] old_cubes[k2].0 == id;
                    assert(k2 == k);
                }
            }
        }
    }
}

impl Clone for CubeRegistry {
    fn clone(&self) -> (r: CubeRegistry)
        ensures
            r.cube_map() == self.cube_map(),
            r.image_views() == self.image_views(),
            self.wf() ==> r.wf(),
    {
        let mut cubes: Vec<(CubeResourceId, Cube)> = Vec::new();
        let mut c: usize = 0;
        while c < self.cubes.len()
            invariant
                c <= self.cubes@.len(),
                cubes@ == self.cubes@.take(c as int),
            decreases self.cubes@.len() - c,
        {
            cubes.push(self.cubes[c]);
            assert(cubes@ =~= self.cubes@.take(c + 1));
            c = c + 1;
        }
        let mut images: Vec<SerializableTextureImage> = Vec::new();
        let mut i: usize = 0;
        while i < self.geosphere_serializable_texture_image.len()
            invariant
                i <= self.geosphere_serializable_texture_image@.len(),
                images@.len() == i,
                forall|j: int| 0 <= j < i ==> #[trigger] images@[j]@ == self.geosphere_serializable_texture_image@[j]@,
            decreases self.geosphere_serializable_texture_image@.len() - i,
        {
            images.push(self.geosphere_serializable_texture_image[i].clone());
            i = i + 1;
        }
        assert(cubes@ =~= self.cubes@);
        let r = CubeRegistry { cubes, geosphere_serializable_texture_image: images };
        assert(r.image_views() =~= self.image_views());
        r
    }
}

/// A kind of cube to register: its name and the images of its six faces.
pub struct CubeBuilder {
    pub id: CubeResourceId,
    pub geosphere_texture_image_top: SerializableTextureImage,
    pub geosphere_texture_image_bottom: SerializableTextureImage,
    pub geosphere_texture_image_left: SerializableTextureImage,
    pub geosphere_texture_image_right: SerializableTextureImage,
    pub geosphere_texture_image_front: SerializableTextureImage,
    pub geosphere_texture_image_back: SerializableTextureImage,
}

/// The kinds of cubes to register, in order.
pub struct CubeRegistryBuilder {
    pub cube_builders: Vec<CubeBuilder>,
}

impl CubeRegistryBuilder {
    /// One kind of cube, named by the empty string, with the decoded `p_top` image on top,
    /// `p_bottom` below and `p_side` on its four sides; fails when an image does not decode.
    pub fn try_with_sample(p_top: &[u8], p_side: &[u8], p_bottom: &[u8]) -> (r: Result<
        CubeRegistryBuilder,
        anyhow::Error,
    >)
        ensures
            r is Ok <==> (decoded_rgba8(p_top@) is Some && decoded_rgba8(p_side@) is Some
                && decoded_rgba8(p_bottom@) is Some),
            r is Ok ==> r->Ok_0.cube_builders@.len() == 1 && builder_images(
                r->Ok_0.cube_builders@[0],
            ) == seq![
                decoded_rgba8(p_top@)->Some_0,
                decoded_rgba8(p_bottom@)->Some_0,
                decoded_rgba8(p_side@)->Some_0,
                decoded_rgba8(p_side@)->Some_0,
                decoded_rgba8(p_side@)->Some_0,
                decoded_rgba8(p_side@)->Some_0,
            ],
    {
        let dirt_top = match decode_rgba8(p_top) {
            Ok(image) => image,
            Err(e) => return Err(e),
        };
        let dirt_side = match decode_rgba8(p_side) {
            Ok(image) => image,
            Err(e) => return Err(e),
        };
        let dirt_bottom = match decode_rgba8(p_bottom) {
            Ok(image) => image,
            Err(e) => return Err(e),
        };
        let mut builder = CubeRegistryBuilder::default();
        builder.cube_builders.push(
            CubeBuilder {
                id: default_cube_resource_id(),
                geosphere_texture_image_top: dirt_top,
                geosphere_texture_image_left: dirt_side.clone(),
                geosphere_texture_image_right: dirt_side.clone(),
                geosphere_texture_image_front: dirt_side.clone(),
                geosphere_texture_image_back: dirt_side,
                geosphere_texture_image_bottom: dirt_bottom,
            },
        );
        proof {
            assert(builder_images(builder.cube_builders@[0]) =~= seq![
                decoded_rgba8(p_top@)->Some_0,
                decoded_rgba8(p_bottom@)->Some_0,
                decoded_rgba8(p_side@)->Some_0,
                decoded_rgba8(p_side@)->Some_0,
                decoded_rgba8(p_side@)->Some_0,
                decoded_rgba8(p_side@)->Some_0,
            ]);
        }
        Ok(builder)
    }
}

impl Default for CubeRegistryBuilder {
    fn default() -> (r: CubeRegistryBuilder)
        ensures
            r.cube_builders@.len() == 0,
    {
        CubeRegistryBuilder { cube_builders: Vec::new() }
    }
}

/// The six face images of a kind of cube in atlas order: top, bottom, left, right, front, back.
pub open spec fn builder_images(b: CubeBuilder) -> Seq<(u32, u32, Seq<u8>)> {
    seq![
        b.geosphere_texture_image_top@,
        b.geosphere_texture_image_bottom@,
        b.geosphere_texture_image_left@,
        b.geosphere_texture_image_right@,
        b.geosphere_texture_image_front@,
        b.geosphere_texture_image_back@,
    ]
}

/// The face images of all kinds of cubes, kind after kind.
pub open spec fn built_images(bs: Seq<CubeBuilder>) -> Seq<(u32, u32, Seq<u8>)>
    decreases bs.len(),
{
    if bs.len() == 0 {
        Seq::empty()
    } else {
        built_images(bs.drop_last()) + builder_images(bs.last())
    }
}

/// The cube of the `i`-th kind: its faces are the images `6 * i` to `6 * i + 5` of the atlas.
pub open spec fn built_cube(i: int) -> Cube {
    Cube {
        geosphere_texture_atlas_index_top: (6 * i) as u32,
        geosphere_texture_atlas_index_bottom: (6 * i + 1) as u32,
        geosphere_texture_atlas_index_left: (6 * i + 2) as u32,
        geosphere_texture_atlas_index_right: (6 * i + 3) as u32,
        geosphere_texture_atlas_index_front: (6 * i + 4) as u32,
        geosphere_texture_atlas_index_back: (6 * i + 5) as u32,
    }
}

/// The cubes registered from a list of kinds: a later kind replaces an earlier one of the same
/// name.
pub open spec fn built_cubes(bs: Seq<CubeBuilder>) -> Map<CubeResourceId, Cube>
    decreases bs.len(),
{
    if bs.len() == 0 {
        Map::empty()
    } else {
        built_cubes(bs.drop_last()).insert(bs.last().id, built_cube(bs.len() - 1))
    }
}

/// Kinds with distinct names register one cube each.
pub proof fn lemma_built_cubes_count(bs: Seq<CubeBuilder>)
    requires
        forall|i: int, j: int| 0 <= i < j < bs.len() ==> #[trigger] bs[i].id != #[trigger] bs[j].id,
    ensures
        built_cubes(bs).dom().len() == bs.len(),
        built_cubes(bs).dom().finite(),
    decreases bs.len(),
{
    if bs.len() > 0 {
        let prefix = bs.drop_last();
        assert forall|i: int, j: int| 0 <= i < j < prefix.len() implies #[trigger] prefix[i].id != #[trigger] prefix[j].id by {
            assert(bs[i].id != bs[j].id);
        }
        lemma_built_cubes_count(prefix);
        lemma_built_cubes_dom(prefix, bs.last().id);
    }
}

proof fn lemma_built_cubes_dom(bs: Seq<CubeBuilder>, id: CubeResourceId)
    requires
        forall|i: int| 0 <= i < bs.len() ==> #[trigger] bs[i].id != id,
    ensures
        !built_cubes(bs).dom().contains(id),
    decreases bs.len(),
{
    if bs.len() > 0 {
        let prefix = bs.drop_last();
        assert forall|i: int| 0 <= i < prefix.len() implies #[trigger] prefix[i].id != id by {
            assert(bs[i].id != id);
        }
        lemma_built_cubes_dom(prefix, id);
        assert(bs[bs.len() - 1].id != id);
    }
}

fn index_of(images: &Vec<SerializableTextureImage>) -> (r: u32)
    ensures
        r == images@.len() as u32,
{
    images.len() as u32
}

impl CubeRegistryBuilder {
    /// Registers every kind in order, giving each the next six images of the atlas.
    pub fn build(self) -> (r: CubeRegistry)
        ensures
            r.wf(),
            r.cube_map() == built_cubes(self.cube_builders@),
            r.image_views() == built_images(self.cube_builders@),
    {
        let mut registry = CubeRegistry::new();
        let mut images: Vec<SerializableTextureImage> = Vec::new();
        let ghost bs = self.cube_builders@;
        let ghost mut done: int = 0;
        for builder in it: self.cube_builders
            invariant
                bs == it.seq(),
                registry.wf(),
                registry.image_views() == Seq::<(u32, u32, Seq<u8>)>::empty(),
                registry.cube_map() == built_cubes(bs.take(it.index() as int)),
                images@.map_values(|i: SerializableTextureImage| i@) == built_images(bs.take(it.index() as int)),
                images@.len() == 6 * it.index(),
        {
            let ghost k = it.index() as int;
            assert(bs.take(k + 1).drop_last() =~= bs.take(k));
            assert(bs.take(k + 1).last() == builder);
            let id = builder.id;
            let geosphere_texture_atlas_index_top = index_of(&images);
            images.push(builder.geosphere_texture_image_top);
            let geosphere_texture_atlas_index_bottom = index_of(&images);
            images.push(builder.geosphere_texture_image_bottom);
            let geosphere_texture_atlas_index_left = index_of(&images);
            images.push(builder.geosphere_texture_image_left);
            let geosphere_texture_atlas_index_right = index_of(&images);
            images.push(builder.geosphere_texture_image_right);
            let geosphere_texture_atlas_index_front = index_of(&images);
            images.push(builder.geosphere_texture_image_front);
            let geosphere_texture_atlas_index_back = index_of(&images);
            images.push(builder.geosphere_texture_image_back);
            let cube = Cube {
                geosphere_texture_atlas_index_top,
                geosphere_texture_atlas_index_bottom,
                geosphere_texture_atlas_index_left,
                geosphere_texture_atlas_index_right,
                geosphere_texture_atlas_index_front,
                geosphere_texture_atlas_index_back,
            };
            assert(cube == built_cube(k));
            registry.register(id, cube);
            assert(images@.map_values(|i: SerializableTextureImage| i@) =~= built_images(bs.take(k + 1)));
        }
        assert(bs.take(bs.len() as int) =~= bs);
        registry.geosphere_serializable_texture_image = images;
        registry
    }
}

} // verus!
