use vstd::prelude::*;
use std::collections::VecDeque;
use crate::arch::consumer_channel::{consumer_channels, Channel as ConsumerChannel};
use crate::arch::provider_channel::{
    provider_channels, Channel as ProviderChannel, ChunkUpdateMessage, PlayerInsertionMessage,
    PrepareMessage,
};
use crate::biosphere::{Player, Spatial};
use crate::geosphere::active_geosphere::{
    chunk_bakeable, lemma_read_chain_in_memory, read_chain, read_step, CHUNK_BAKE_MAX, CHUNK_BAKE_MIN, evolves, lemma_evolves_trans, ActiveGeosphere, ActiveGeosphereBuilder,
};
use crate::net::channel_config_builder::ConnectionConfig;
use crate::viewport::serializable_texture_image::decoded_rgba8;
use crate::geosphere::chunk::ChunkKey;
use crate::geosphere::morton::{chunk_origin, Morton4};
use crate::geosphere::point_cluster::{lemma_ordered_point_in_cluster, Point3, PointCluster};
use crate::geosphere::slot::Slot;

verus! {

/// The chunks within `radius` of the chunk that holds slot `p`: from `c - radius` up to, and
/// without, `c + radius` along each axis, where `c` is that chunk.
pub open spec fn active_chunk_cluster(p: Point3, radius: i32) -> PointCluster {
    let c = chunk_origin(p);
    PointCluster {
        min: Point3 { x: (c.x - radius) as i32, y: (c.y - radius) as i32, z: (c.z - radius) as i32 },
        max: Point3 { x: (c.x + radius) as i32, y: (c.y + radius) as i32, z: (c.z + radius) as i32 },
    }
}

/// Whether the active chunks around slot `p` have coordinates that fit in `i32`.
pub open spec fn active_cluster_in_range(p: Point3, radius: i32) -> bool {
    let c = chunk_origin(p);
    &&& i32::MIN <= c.x - radius <= i32::MAX && i32::MIN <= c.x + radius <= i32::MAX
    &&& i32::MIN <= c.y - radius <= i32::MAX && i32::MIN <= c.y + radius <= i32::MAX
    &&& i32::MIN <= c.z - radius <= i32::MAX && i32::MIN <= c.z + radius <= i32::MAX
}

fn radius_as_i32(r: u32) -> (s: i32)
    ensures
        s == r as i32,
{
    r as i32
}

/// The chunks that a player at slot `p_slot_position` keeps in memory: those within
/// `p_active_chunk_range_radius` (read as an `i32`) of the player's chunk.
pub fn compute_active_chunk_point_cluster(
    p_slot_position: Point3,
    p_active_chunk_range_radius: u32,
) -> (r: PointCluster)
    requires
        active_cluster_in_range(p_slot_position, p_active_chunk_range_radius as i32),
    ensures
        r == active_chunk_cluster(p_slot_position, p_active_chunk_range_radius as i32),
{
    let (chunk_position, _) = Morton4::compute_coordinate(p_slot_position);
    let radius = radius_as_i32(p_active_chunk_range_radius);
    PointCluster {
        min: Point3 {
            x: chunk_position.x - radius,
            y: chunk_position.y - radius,
            z: chunk_position.z - radius,
        },
        max: Point3 {
            x: chunk_position.x + radius,
            y: chunk_position.y + radius,
            z: chunk_position.z + radius,
        },
    }
}

/// The test of lying in a cluster.
pub open spec fn inside(c: PointCluster) -> spec_fn(Point3) -> bool {
    |p: Point3| c.contains(p)
}

/// The test of not being in `s`.
pub open spec fn absent_from(s: Seq<Point3>) -> spec_fn(Point3) -> bool {
    |p: Point3| !s.contains(p)
}

/// The test of lying outside a cluster.
pub open spec fn outside(c: PointCluster) -> spec_fn(Point3) -> bool {
    |p: Point3| !c.contains(p)
}

fn contains_point(s: &Vec<Point3>, p: Point3) -> (r: bool)
    ensures
        r == s@.contains(p),
{
    let mut i: usize = 0;
    while i < s.len()
        invariant
            i <= s@.len(),
            forall|j: int| 0 <= j < i ==> s@[j] != p,
        decreases s@.len() - i,
    {
        if s[i] == p {
            return true;
        }
        i = i + 1;
    }
    false
}

/// Brings the chunks a player subscribes to in line with its active chunks: the subscribed
/// chunks outside the active ones are dropped, in order, and given back first; the active chunks
/// not subscribed yet are added at the end, in the order of the cluster, and given back second.
pub fn refresh_chunk_subscription(p_subscription: &mut Vec<Point3>, p_active: &PointCluster) -> (r:
    (Vec<Point3>, Vec<Point3>))
    ensures
        r.0@ == old(p_subscription)@.filter(outside(*p_active)),
        r.1@ == p_active.ordered_points().filter(absent_from(old(p_subscription)@)),
        final(p_subscription)@ == old(p_subscription)@.filter(inside(*p_active)) + r.1@,
        forall|p: Point3|
            #[trigger] r.1@.contains(p) <==> (p_active.contains(p) && !old(p_subscription)@.contains(p)),
        r.1@.no_duplicates(),
{
    let ghost old_s = p_subscription@;
    let ghost keep = inside(*p_active);
    let ghost drop = outside(*p_active);
    let mut removed: Vec<Point3> = Vec::new();
    let mut kept: Vec<Point3> = Vec::new();
    let mut i: usize = 0;
    while i < p_subscription.len()
        invariant
            p_subscription@ == old_s,
            keep == inside(*p_active),
            drop == outside(*p_active),
            i <= old_s.len(),
            removed@ == old_s.take(i as int).filter(drop),
            kept@ == old_s.take(i as int).filter(keep),
        decreases old_s.len() - i,
    {
        let p = p_subscription[i];
        proof {
            reveal_with_fuel(Seq::<_>::filter, 1);
            assert(old_s.take(i + 1).drop_last() =~= old_s.take(i as int));
        }
        if p_active.min.x <= p.x && p.x < p_active.max.x && p_active.min.y <= p.y && p.y
            < p_active.max.y && p_active.min.z <= p.z && p.z < p_active.max.z {
            kept.push(p);
        } else {
            removed.push(p);
        }
        i = i + 1;
    }
    proof {
        assert(old_s.take(old_s.len() as int) =~= old_s);
    }
    let points = p_active.points();
    let mut added: Vec<Point3> = Vec::new();
    let mut j: usize = 0;
    while j < points.len()
        invariant
            j <= points@.len(),
            keep == inside(*p_active),
            kept@ == old_s.filter(keep),
            forall|p: Point3| #[trigger] points@.contains(p) <==> p_active.contains(p),
            points@.no_duplicates(),
            forall|p: Point3|
                #[trigger] added@.contains(p) <==> (points@.take(j as int).contains(p)
                    && !old_s.contains(p)),
            added@.no_duplicates(),
            points@ == p_active.ordered_points(),
            added@ == points@.take(j as int).filter(absent_from(old_s)),
        decreases points@.len() - j,
    {
        let p = points[j];
        proof {
            reveal_with_fuel(Seq::<_>::filter, 1);
            assert(points@.take(j + 1).drop_last() =~= points@.take(j as int));
            assert forall|q: Point3| #[trigger] points@.take(j + 1).contains(q) <==> (points@.take(j as int).contains(q) || q == p) by {
                if points@.take(j + 1).contains(q) {
                    let k = choose|k: int| 0 <= k < j + 1 && #[trigger] points@.take(j + 1)[k] == q;
                    if k < j {
                        assert(points@.take(j as int)[k] == q);
                    }
                }
                if points@.take(j as int).contains(q) {
                    let k = choose|k: int| 0 <= k < j && #[trigger] points@.take(j as int)[k] == q;
                    assert(points@.take(j + 1)[k] == q);
                }
                if q == p {
                    assert(points@.take(j + 1)[j as int] == q);
                }
            }
            if added@.contains(p) {
                let k = choose|k: int| 0 <= k < j && #[trigger] points@.take(j as int)[k] == p;
                assert(points@[k] == points@[j as int]);
            }
        }
        if !contains_point(&kept, p) {
            proof {
                assert(!old_s.contains(p)) by {
                    if old_s.contains(p) {
                        assert(points@.contains(p));
                        lemma_filter_contains(old_s, keep, p);
                    }
                }
            }
            let ghost before = added@;
            added.push(p);
            proof {
                assert forall|q: Point3| #[trigger] added@.contains(q) <==> (before.contains(q) || q == p) by {
                    if added@.contains(q) {
                        let k = choose|k: int| 0 <= k < added@.len() && #[trigger] added@[k] == q;
                        if k < before.len() {
                            assert(before[k] == q);
                        }
                    }
                    if before.contains(q) {
                        let k = choose|k: int| 0 <= k < before.len() && #[trigger] before[k] == q;
                        assert(added@[k] == q);
                    }
                    if q == p {
                        assert(added@[before.len() as int] == q);
                    }
                }
                assert forall|a: int, b: int| 0 <= a < added@.len() && 0 <= b < added@.len() && a != b
                    implies added@[a] != added@[b] by {
                    if a < before.len() && b < before.len() {
                        assert(before[a] != before[b]);
                    } else if a < before.len() {
                        assert(before.contains(added@[a]));
                    } else if b < before.len() {
                        assert(before.contains(added@[b]));
                    }
                }
            }
        } else {
            proof {
                lemma_filter_contains(old_s, keep, p);
            }
        }
        j = j + 1;
    }
    proof {
        assert(points@.take(points@.len() as int) =~= points@);
    }
    let mut k: usize = 0;
    let ghost kept_v = kept@;
    while k < added.len()
        invariant
            k <= added@.len(),
            kept@ == kept_v + added@.take(k as int),
        decreases added@.len() - k,
    {
        kept.push(added[k]);
        assert(kept@ =~= kept_v + added@.take(k + 1));
        k = k + 1;
    }
    assert(added@.take(added@.len() as int) =~= added@);
    *p_subscription = kept;
    (removed, added)
}

proof fn lemma_filter_contains(s: Seq<Point3>, f: spec_fn(Point3) -> bool, p: Point3)
    ensures
        s.filter(f).contains(p) <==> (s.contains(p) && f(p)),
    decreases s.len(),
{
    reveal_with_fuel(Seq::<_>::filter, 1);
    if s.len() > 0 {
        lemma_filter_contains(s.drop_last(), f, p);
        if s.drop_last().contains(p) {
            let k = choose|k: int| 0 <= k < s.drop_last().len() && #[trigger] s.drop_last()[k] == p;
            assert(s[k] == p);
        }
        if s.contains(p) && p != s.last() {
            let k = choose|k: int| 0 <= k < s.len() && #[trigger] s[k] == p;
            assert(s.drop_last()[k] == p);
        }
        let sub = s.drop_last().filter(f);
        if f(s.last()) {
            if s.filter(f).contains(p) && p != s.last() {
                let k = choose|k: int| 0 <= k < s.filter(f).len() && #[trigger] s.filter(f)[k] == p;
                assert(sub[k] == p);
            }
            if sub.contains(p) {
                let k = choose|k: int| 0 <= k < sub.len() && #[trigger] sub[k] == p;
                assert(s.filter(f)[k] == p);
            }
            if p == s.last() {
                assert(s.filter(f)[sub.len() as int] == p);
            }
        }
    } else {
        assert(s.filter(f).len() == 0);
    }
}

proof fn lemma_filter_keeps_all(s: Seq<Point3>, f: spec_fn(Point3) -> bool)
    requires
        forall|i: int| 0 <= i < s.len() ==> #[trigger] f(s[i]),
    ensures
        s.filter(f) == s,
    decreases s.len(),
{
    reveal_with_fuel(Seq::<_>::filter, 1);
    if s.len() > 0 {
        assert forall|i: int| 0 <= i < s.drop_last().len() implies #[trigger] f(s.drop_last()[i]) by {
            assert(f(s[i]));
        }
        lemma_filter_keeps_all(s.drop_last(), f);
        assert(f(s[s.len() - 1]));
        assert(s.drop_last().push(s.last()) =~= s);
    } else {
        assert(s.filter(f) =~= s);
    }
}

proof fn lemma_filter_drops_all(s: Seq<Point3>, f: spec_fn(Point3) -> bool)
    requires
        forall|i: int| 0 <= i < s.len() ==> !#[trigger] f(s[i]),
    ensures
        s.filter(f) == Seq::<Point3>::empty(),
    decreases s.len(),
{
    reveal_with_fuel(Seq::<_>::filter, 1);
    if s.len() > 0 {
        assert forall|i: int| 0 <= i < s.drop_last().len() implies !#[trigger] f(s.drop_last()[i]) by {
            assert(!f(s[i]));
        }
        lemma_filter_drops_all(s.drop_last(), f);
        assert(!f(s[s.len() - 1]));
    } else {
        assert(s.filter(f) =~= Seq::<Point3>::empty());
    }
}

/// Refreshing a subscription a second time for the same active chunks drops nothing, adds
/// nothing and leaves it as it is.
pub proof fn lemma_refresh_settles(s: Seq<Point3>, c: PointCluster)
    ensures
        ({
            let s1 = s.filter(inside(c)) + c.ordered_points().filter(absent_from(s));
            &&& s1.filter(outside(c)) == Seq::<Point3>::empty()
            &&& c.ordered_points().filter(absent_from(s1)) == Seq::<Point3>::empty()
            &&& s1.filter(inside(c)) == s1
        }),
{
    let kept = s.filter(inside(c));
    let added = c.ordered_points().filter(absent_from(s));
    let s1 = kept + added;
    assert forall|i: int| 0 <= i < s1.len() implies c.contains(#[trigger] s1[i]) by {
        if i < kept.len() {
            assert(kept.contains(kept[i]));
            lemma_filter_contains(s, inside(c), kept[i]);
        } else {
            let p = added[i - kept.len()];
            assert(added.contains(p));
            lemma_filter_contains(c.ordered_points(), absent_from(s), p);
            let j = choose|j: int| 0 <= j < c.ordered_points().len() && c.ordered_points()[j] == p;
            lemma_ordered_point_in_cluster(c, j);
        }
    }
    assert forall|i: int| 0 <= i < s1.len() implies #[trigger] inside(c)(s1[i]) by {
        assert(c.contains(s1[i]));
    }
    lemma_filter_keeps_all(s1, inside(c));
    assert forall|i: int| 0 <= i < s1.len() implies !#[trigger] outside(c)(s1[i]) by {
        assert(c.contains(s1[i]));
    }
    lemma_filter_drops_all(s1, outside(c));
    let ps = c.ordered_points();
    assert forall|j: int| 0 <= j < ps.len() implies !#[trigger] absent_from(s1)(ps[j]) by {
        let p = ps[j];
        lemma_ordered_point_in_cluster(c, j);
        if s.contains(p) {
            lemma_filter_contains(s, inside(c), p);
            let k = choose|k: int| 0 <= k < kept.len() && kept[k] == p;
            assert(s1[k] == p);
        } else {
            assert(ps.contains(p));
            lemma_filter_contains(ps, absent_from(s), p);
            let k = choose|k: int| 0 <= k < added.len() && added[k] == p;
            assert(s1[kept.len() + k] == p);
        }
    }
    lemma_filter_drops_all(ps, absent_from(s1));
}

/// Instructions sent per poll at most, beyond the first.
pub const MAX_QUEUE_SEND_PER_POLL: u16 = 32;

/// How many queued chunk insertions and then chunk removals one poll sends: insertions first,
/// and both together until the count passes `MAX_QUEUE_SEND_PER_POLL`, that is 33 at most.
pub fn queue_send_quota(p_insertion_count: usize, p_removal_count: usize) -> (r: (usize, usize))
    ensures
        r.0 == (if p_insertion_count <= 33 { p_insertion_count as int } else { 33 }),
        r.1 == (if p_removal_count <= 33 - r.0 { p_removal_count as int } else { 33 - r.0 }),
{
    let mut queue_send_count: u16 = 0;
    let mut insertions: usize = 0;
    while insertions < p_insertion_count
        invariant
            insertions <= p_insertion_count,
            queue_send_count == insertions,
            insertions <= 33,
        ensures
            queue_send_count == insertions,
            insertions == (if p_insertion_count <= 33 { p_insertion_count as int } else { 33 }),
        decreases p_insertion_count - insertions,
    {
        if queue_send_count > MAX_QUEUE_SEND_PER_POLL {
            break;
        }
        insertions = insertions + 1;
        queue_send_count = queue_send_count + 1;
    }
    let mut removals: usize = 0;
    while removals < p_removal_count
        invariant
            removals <= p_removal_count,
            queue_send_count == insertions + removals,
            insertions + removals <= 33,
            insertions == (if p_insertion_count <= 33 { p_insertion_count as int } else { 33 }),
        ensures
            removals == (if p_removal_count <= 33 - insertions { p_removal_count as int } else { 33 - insertions }),
        decreases p_removal_count - removals,
    {
        if queue_send_count > MAX_QUEUE_SEND_PER_POLL {
            break;
        }
        removals = removals + 1;
        queue_send_count = queue_send_count + 1;
    }
    (insertions, removals)
}

/// Whether every chunk of the cluster is bakeable.
pub open spec fn cluster_chunks_bakeable(c: PointCluster) -> bool {
    forall|p: Point3| c.contains(p) ==> #[trigger] chunk_bakeable(p)
}

/// Whether a player at slot `p_slot_position` can be prepared or refreshed: its active chunks
/// have coordinates that fit in `i32`, and each of them is bakeable.
pub fn active_cluster_is_bakeable(p_slot_position: Point3, p_active_chunk_range_radius: u32) -> (r: bool)
    ensures
        r == (active_cluster_in_range(p_slot_position, p_active_chunk_range_radius as i32)
            && cluster_chunks_bakeable(
            active_chunk_cluster(p_slot_position, p_active_chunk_range_radius as i32),
        )),
{
    let (c, _) = Morton4::compute_coordinate(p_slot_position);
    let radius = radius_as_i32(p_active_chunk_range_radius) as i64;
    let lx = c.x as i64 - radius;
    let hx = c.x as i64 + radius;
    let ly = c.y as i64 - radius;
    let hy = c.y as i64 + radius;
    let lz = c.z as i64 - radius;
    let hz = c.z as i64 + radius;
    let min = i32::MIN as i64;
    let max = i32::MAX as i64;
    if !(min <= lx && lx <= max && min <= hx && hx <= max && min <= ly && ly <= max && min <= hy
        && hy <= max && min <= lz && lz <= max && min <= hz && hz <= max) {
        return false;
    }
    let ghost cl = active_chunk_cluster(p_slot_position, p_active_chunk_range_radius as i32);
    if lx >= hx || ly >= hy || lz >= hz {
        proof {
            assert forall|p: Point3| cl.contains(p) implies #[trigger] chunk_bakeable(p) by {}
        }
        return true;
    }
    let bmin = CHUNK_BAKE_MIN as i64;
    let bmax = CHUNK_BAKE_MAX as i64;
    let r = bmin <= lx && hx - 1 <= bmax && bmin <= ly && hy - 1 <= bmax && bmin <= lz && hz - 1 <= bmax;
    proof {
        let lo = Point3 { x: lx as i32, y: ly as i32, z: lz as i32 };
        let hi = Point3 { x: (hx - 1) as i32, y: (hy - 1) as i32, z: (hz - 1) as i32 };
        assert(cl.contains(lo));
        assert(cl.contains(hi));
        if r {
            assert forall|p: Point3| cl.contains(p) implies #[trigger] chunk_bakeable(p) by {}
        } else {
            assert(!chunk_bakeable(lo) || !chunk_bakeable(hi));
        }
    }
    r
}

/// The chunk handed out for key `k` is an earlier state of the chunk that the geosphere `v` now
/// holds under that key.
pub open spec fn sent_chunk_current(update: ChunkUpdateMessage, v: Map<ChunkKey, Seq<Slot>>) -> bool {
    &&& v.contains_key(update.key)
    &&& evolves(map![update.key => update.chunk@], v)
}

/// The keys of the chunks at positions `ps`, in order.
pub open spec fn chunk_keys(ps: Seq<Point3>) -> Seq<ChunkKey> {
    ps.map_values(|p: Point3| ChunkKey(p))
}

/// The chunks `updates` are those of `keys`, read one after the other from the chunks `a`, which
/// end as `b`: each is a copy of its chunk as it stood right after it was read.
pub open spec fn read_in_order(
    a: Map<ChunkKey, Seq<Slot>>,
    b: Map<ChunkKey, Seq<Slot>>,
    keys: Seq<ChunkKey>,
    updates: Seq<ChunkUpdateMessage>,
) -> bool {
    exists|vs: Seq<Map<ChunkKey, Seq<Slot>>>|
        #[trigger] read_chain(vs, keys) && vs[0] == a && vs.last() == b && updates.len() == keys.len()
            && forall|i: int|
            0 <= i < keys.len() ==> (#[trigger] updates[i]).key == keys[i] && updates[i].chunk@ == vs[i
                + 1][keys[i]]
}

/// Reads the chunk of each point, in order, loading it when it is not in memory, and hands out
/// a copy of each with its key.
pub fn read_chunk_updates(p_geosphere: &mut ActiveGeosphere, p_points: &Vec<Point3>) -> (r: Result<
    Vec<ChunkUpdateMessage>,
    anyhow::Error,
>)
    requires
        old(p_geosphere).wf(),
        forall|i: int| 0 <= i < p_points@.len() ==> #[trigger] chunk_bakeable(p_points@[i]),
    ensures
        final(p_geosphere).wf(),
        final(p_geosphere).registry() == old(p_geosphere).registry(),
        evolves(old(p_geosphere)@, final(p_geosphere)@),
        r is Ok ==> r->Ok_0@.len() == p_points@.len(),
        r is Ok ==> forall|i: int|
            0 <= i < p_points@.len() ==> (#[trigger] r->Ok_0@[i]).key == ChunkKey(p_points@[i])
                && sent_chunk_current(r->Ok_0@[i], final(p_geosphere)@),
        r is Ok ==> read_in_order(
            old(p_geosphere)@,
            final(p_geosphere)@,
            chunk_keys(p_points@),
            r->Ok_0@,
        ),
        (forall|i: int|
            0 <= i < p_points@.len() ==> old(p_geosphere)@.contains_key(ChunkKey(#[trigger] p_points@[i])))
            ==> r is Ok && final(p_geosphere)@ == old(p_geosphere)@ && forall|i: int|
            0 <= i < p_points@.len() ==> (#[trigger] r->Ok_0@[i]).chunk@ == old(p_geosphere)@[ChunkKey(
                p_points@[i],
            )],
{
    let ghost keys = chunk_keys(p_points@);
    let ghost mut vs: Seq<Map<ChunkKey, Seq<Slot>>> = seq![p_geosphere@];
    let mut updates: Vec<ChunkUpdateMessage> = Vec::new();
    let mut i: usize = 0;
    while i < p_points.len()
        invariant
            p_geosphere.wf(),
            p_geosphere.registry() == old(p_geosphere).registry(),
            evolves(old(p_geosphere)@, p_geosphere@),
            i <= p_points@.len(),
            forall|j: int| 0 <= j < p_points@.len() ==> #[trigger] chunk_bakeable(p_points@[j]),
            updates@.len() == i,
            forall|j: int|
                0 <= j < i ==> (#[trigger] updates@[j]).key == ChunkKey(p_points@[j])
                    && sent_chunk_current(updates@[j], p_geosphere@),
            keys == chunk_keys(p_points@),
            read_chain(vs, keys.take(i as int)),
            vs[0] == old(p_geosphere)@,
            vs.last() == p_geosphere@,
            forall|j: int| 0 <= j < i ==> (#[trigger] updates@[j]).chunk@ == vs[j + 1][keys[j]],
        decreases p_points@.len() - i,
    {
        let key = ChunkKey(p_points[i]);
        proof {
            assert(chunk_bakeable(p_points@[i as int]));
        }
        let ghost before = p_geosphere@;
        proof {
            if forall|j: int|
                0 <= j < p_points@.len() ==> old(p_geosphere)@.contains_key(ChunkKey(#[trigger] p_points@[j])) {
                assert(old(p_geosphere)@.contains_key(ChunkKey(p_points@[i as int])));
            }
        }
        let chunk = match p_geosphere.chunk(&key) {
            Ok(chunk) => *chunk,
            Err(e) => {
                proof {
                    lemma_evolves_trans(old(p_geosphere)@, before, p_geosphere@);
                }
                return Err(e);
            },
        };
        proof {
            assert(p_geosphere@.insert(key, chunk@) =~= p_geosphere@);
            lemma_evolves_trans(old(p_geosphere)@, before, p_geosphere@);
            assert forall|j: int| 0 <= j < i implies #[trigger] sent_chunk_current(updates@[j], p_geosphere@) by {
                lemma_evolves_trans(map![updates@[j].key => updates@[j].chunk@], before, p_geosphere@);
            }
            let single = map![key => chunk@];
            assert forall|q: Point3| #![trigger crate::geosphere::active_geosphere::world_at(p_geosphere@, q)]
                crate::geosphere::active_geosphere::loaded(single, q) implies
                crate::geosphere::active_geosphere::slot_evolves(single, p_geosphere@, q) by {
                assert(crate::geosphere::active_geosphere::world_at(p_geosphere@, q)
                    == crate::geosphere::active_geosphere::world_at(single, q));
            }
        }
        let ghost old_vs = vs;
        proof {
            assert(evolves(before, p_geosphere@));
            if before.contains_key(key) {
                assert(before.insert(key, before[key]) =~= before);
                assert(p_geosphere@ =~= before);
            }
            assert(read_step(before, p_geosphere@, key));
            vs = vs.push(p_geosphere@);
            assert(keys[i as int] == key);
            assert forall|j: int| #![trigger keys.take(i + 1)[j]] 0 <= j < keys.take(i + 1).len() implies read_step(
                vs[j],
                vs[j + 1],
                keys.take(i + 1)[j],
            ) by {
                if j < i {
                    assert(keys.take(i + 1)[j] == keys.take(i as int)[j]);
                    assert(read_step(old_vs[j], old_vs[j + 1], keys.take(i as int)[j]));
                }
            }
        }
        updates.push(ChunkUpdateMessage { key, chunk });
        proof {
            assert forall|j: int| 0 <= j < i + 1 implies (#[trigger] updates@[j]).chunk@ == vs[j + 1][keys[j]] by {
                if j < i {
                    assert(vs[j + 1] == old_vs[j + 1]);
                }
            }
        }
        i = i + 1;
    }
    proof {
        assert(keys.take(p_points@.len() as int) =~= keys);
        assert forall|j: int| 0 <= j < keys.len() implies (#[trigger] updates@[j]).key == keys[j]
            && updates@[j].chunk@ == vs[j + 1][keys[j]] by {}
        assert(read_chain(vs, keys));
        if forall|j: int|
            0 <= j < p_points@.len() ==> old(p_geosphere)@.contains_key(ChunkKey(#[trigger] p_points@[j])) {
            assert forall|j: int| 0 <= j < keys.len() implies vs[0].contains_key(#[trigger] keys[j]) by {
                assert(old(p_geosphere)@.contains_key(ChunkKey(p_points@[j])));
            }
            lemma_read_chain_in_memory(vs, keys);
            assert(vs[vs.len() - 1] == vs[0]);
            assert forall|j: int| 0 <= j < p_points@.len() implies (#[trigger] updates@[j]).chunk@ == old(
                p_geosphere,
            )@[ChunkKey(p_points@[j])] by {
                assert(vs[j + 1] == vs[0]);
            }
        }
    }
    Ok(updates)
}

/// What a client that just connected at `p_slot_position` is sent first: the kinds of cubes, the
/// chunks within `p_active_chunk_range_radius` of its chunk in cluster order, and itself; with
/// the chunk positions it is then subscribed to, in the same order.
pub fn prepare_client(
    p_geosphere: &mut ActiveGeosphere,
    p_player: Player,
    p_spatial: Spatial,
    p_slot_position: Point3,
    p_active_chunk_range_radius: u32,
) -> (r: Result<(PrepareMessage, Vec<Point3>), anyhow::Error>)
    requires
        old(p_geosphere).wf(),
        active_cluster_in_range(p_slot_position, p_active_chunk_range_radius as i32),
        cluster_chunks_bakeable(
            active_chunk_cluster(p_slot_position, p_active_chunk_range_radius as i32),
        ),
    ensures
        final(p_geosphere).wf(),
        final(p_geosphere).registry() == old(p_geosphere).registry(),
        evolves(old(p_geosphere)@, final(p_geosphere)@),
        r is Ok ==> ({
            let (message, subscription) = r->Ok_0;
            &&& subscription@ == active_chunk_cluster(
                p_slot_position,
                p_active_chunk_range_radius as i32,
            ).ordered_points()
            &&& message.chunk_updates@.len() == subscription@.len()
            &&& forall|i: int|
                0 <= i < subscription@.len() ==> (#[trigger] message.chunk_updates@[i]).key
                    == ChunkKey(subscription@[i]) && sent_chunk_current(
                    message.chunk_updates@[i],
                    final(p_geosphere)@,
                )
            &&& message.cube_registry.cube_map() == old(p_geosphere).registry().cube_map()
            &&& message.cube_registry.image_views() == old(p_geosphere).registry().image_views()
            &&& message.self_insertion.player == p_player
            &&& message.self_insertion.spatial == p_spatial
            &&& read_in_order(
                old(p_geosphere)@,
                final(p_geosphere)@,
                chunk_keys(subscription@),
                message.chunk_updates@,
            )
        }),
        (forall|p: Point3|
            active_chunk_cluster(p_slot_position, p_active_chunk_range_radius as i32).contains(p)
                ==> #[trigger] old(p_geosphere)@.contains_key(ChunkKey(p))) ==> r is Ok && final(p_geosphere)@ == old(p_geosphere)@ && forall|i: int|
            0 <= i < r->Ok_0.1@.len() ==> (#[trigger] r->Ok_0.0.chunk_updates@[i]).chunk@ == old(p_geosphere)@[ChunkKey(r->Ok_0.1@[i])],
{
    let cluster = compute_active_chunk_point_cluster(p_slot_position, p_active_chunk_range_radius);
    let points = cluster.points();
    proof {
        assert forall|i: int| 0 <= i < points@.len() implies #[trigger] chunk_bakeable(points@[i]) by {
            assert(points@.contains(points@[i]));
        }
    }
    proof {
        if forall|p: Point3|
            active_chunk_cluster(p_slot_position, p_active_chunk_range_radius as i32).contains(p)
                ==> #[trigger] old(p_geosphere)@.contains_key(ChunkKey(p)) {
            assert forall|i: int| 0 <= i < points@.len() implies old(p_geosphere)@.contains_key(
                ChunkKey(#[trigger] points@[i]),
            ) by {
                assert(points@.contains(points@[i]));
            }
        }
    }
    let chunk_updates = match read_chunk_updates(p_geosphere, &points) {
        Ok(updates) => updates,
        Err(e) => return Err(e),
    };
    let message = PrepareMessage {
        cube_registry: p_geosphere.cube_registry().clone(),
        chunk_updates,
        self_insertion: PlayerInsertionMessage { player: p_player, spatial: p_spatial },
    };
    Ok((message, points))
}

/// One step of keeping a ready player's chunks current: the subscribed chunks that left its
/// active range are dropped and their keys given back, in order; the chunks that entered it are
/// read, in cluster order, handed out and subscribed to.
pub fn refresh_player_chunks(
    p_geosphere: &mut ActiveGeosphere,
    p_subscription: &mut Vec<Point3>,
    p_slot_position: Point3,
    p_active_chunk_range_radius: u32,
) -> (r: Result<(Vec<ChunkKey>, Vec<ChunkUpdateMessage>), anyhow::Error>)
    requires
        old(p_geosphere).wf(),
        active_cluster_in_range(p_slot_position, p_active_chunk_range_radius as i32),
        cluster_chunks_bakeable(
            active_chunk_cluster(p_slot_position, p_active_chunk_range_radius as i32),
        ),
    ensures
        final(p_geosphere).wf(),
        final(p_geosphere).registry() == old(p_geosphere).registry(),
        evolves(old(p_geosphere)@, final(p_geosphere)@),
        ({
            let active = active_chunk_cluster(p_slot_position, p_active_chunk_range_radius as i32);
            let removed = old(p_subscription)@.filter(outside(active));
            let kept = old(p_subscription)@.filter(inside(active));
            let added = active.ordered_points().filter(absent_from(old(p_subscription)@));
            &&& final(p_subscription)@ == kept + added
            &&& r is Ok ==> ({
                let (removals, insertions) = r->Ok_0;
                &&& removals@.len() == removed.len()
                &&& forall|i: int|
                    0 <= i < removed.len() ==> #[trigger] removals@[i] == ChunkKey(removed[i])
                &&& insertions@.len() == added.len()
                &&& forall|i: int|
                    0 <= i < added.len() ==> (#[trigger] insertions@[i]).key == ChunkKey(added[i])
                        && sent_chunk_current(insertions@[i], final(p_geosphere)@)
                &&& read_in_order(old(p_geosphere)@, final(p_geosphere)@, chunk_keys(added), insertions@)
            })
        }),
        (forall|p: Point3|
            active_chunk_cluster(p_slot_position, p_active_chunk_range_radius as i32).contains(p)
                ==> #[trigger] old(p_geosphere)@.contains_key(ChunkKey(p))) ==> r is Ok && final(p_geosphere)@ == old(p_geosphere)@ && forall|i: int|
            0 <= i < r->Ok_0.1@.len() ==> (#[trigger] r->Ok_0.1@[i]).chunk@ == old(p_geosphere)@[r->Ok_0.1@[i].key],
{
    let active = compute_active_chunk_point_cluster(p_slot_position, p_active_chunk_range_radius);
    let (removed, added) = refresh_chunk_subscription(p_subscription, &active);
    let mut removals: Vec<ChunkKey> = Vec::new();
    let mut k: usize = 0;
    while k < removed.len()
        invariant
            k <= removed@.len(),
            removals@.len() == k,
            forall|i: int| 0 <= i < k ==> #[trigger] removals@[i] == ChunkKey(removed@[i]),
        decreases removed@.len() - k,
    {
        removals.push(ChunkKey(removed[k]));
        k = k + 1;
    }
    proof {
        assert forall|i: int| 0 <= i < added@.len() implies #[trigger] chunk_bakeable(added@[i]) by {
            assert(added@.contains(added@[i]));
        }
        if forall|p: Point3|
            active_chunk_cluster(p_slot_position, p_active_chunk_range_radius as i32).contains(p)
                ==> #[trigger] old(p_geosphere)@.contains_key(ChunkKey(p)) {
            assert forall|i: int| 0 <= i < added@.len() implies old(p_geosphere)@.contains_key(
                ChunkKey(#[trigger] added@[i]),
            ) by {
                assert(added@.contains(added@[i]));
            }
        }
    }
    let insertions = match read_chunk_updates(p_geosphere, &added) {
        Ok(insertions) => insertions,
        Err(e) => return Err(e),
    };
    Ok((removals, insertions))
}

/// How a server checks the clients that connect: not at all, or with a private key.
#[derive(Clone, Copy, Debug)]
pub enum ServerAuthentication {
    Unsecure,
    Secure { private_key: [u8; 32] },
}

/// What a provider is made from: the server's settings, the world, and how often it polls.
/// Times are in milliseconds.
pub struct ProviderBuilder {
    pub server_max_client: usize,
    pub server_overriding_current_time_millis: Option<u64>,
    pub server_overriding_protocol_id: Option<u64>,
    pub server_authentication: ServerAuthentication,
    pub connection_available_bytes_per_tick: u64,
    pub geosphere_builder: ActiveGeosphereBuilder,
    pub client_active_chunk_range_radius: u32,
    pub poll_interval_millis: u64,
    pub blocking_poll_interval_millis: u64,
}

impl ProviderBuilder {
    /// The settings of the sample provider, besides its world: 60 clients, no authentication,
    /// 60000 bytes per tick, chunks within 5 of each player, polls every 16 milliseconds.
    pub open spec fn has_sample_settings(&self) -> bool {
        &&& self.server_max_client == 60
        &&& self.server_overriding_current_time_millis is None
        &&& self.server_overriding_protocol_id is None
        &&& self.server_authentication is Unsecure
        &&& self.connection_available_bytes_per_tick == 60_000
        &&& self.client_active_chunk_range_radius == 5
        &&& self.poll_interval_millis == 16
        &&& self.blocking_poll_interval_millis == 16
    }

    /// The sample provider: 60 clients, no authentication, 60000 bytes per tick, chunks within
    /// 5 of each player, polls every 16 milliseconds, and the sample world with the decoded
    /// `p_top`, `p_side` and `p_bottom` images; fails when an image does not decode.
    pub fn try_with_sample(p_top: &[u8], p_side: &[u8], p_bottom: &[u8]) -> (r: Result<
        ProviderBuilder,
        anyhow::Error,
    >)
        ensures
            r is Ok <==> (decoded_rgba8(p_top@) is Some && decoded_rgba8(p_side@) is Some
                && decoded_rgba8(p_bottom@) is Some),
            r is Ok ==> r->Ok_0.has_sample_settings()
                && r->Ok_0.geosphere_builder.cube_registry_builder.cube_builders@.len() == 1,
    {
        let geosphere_builder = match ActiveGeosphereBuilder::try_with_sample(p_top, p_side, p_bottom) {
            Ok(builder) => builder,
            Err(e) => return Err(e),
        };
        Ok(
            ProviderBuilder {
                server_max_client: 60,
                server_overriding_current_time_millis: None,
                server_overriding_protocol_id: None,
                server_authentication: ServerAuthentication::Unsecure,
                geosphere_builder,
                connection_available_bytes_per_tick: 60_000,
                client_active_chunk_range_radius: 5,
                poll_interval_millis: 16,
                blocking_poll_interval_millis: 16,
            },
        )
    }

    /// The settings of the provider's connections: its bytes per tick, the server sending on
    /// the provider channels and the clients on the consumer channels.
    pub fn connection_config(&self) -> (r: ConnectionConfig)
        ensures
            r.available_bytes_per_tick == self.connection_available_bytes_per_tick,
            r.server_channels_config@ == provider_channels(),
            r.client_channels_config@ == consumer_channels(),
    {
        ConnectionConfig {
            available_bytes_per_tick: self.connection_available_bytes_per_tick,
            server_channels_config: ProviderChannel::channels_config(),
            client_channels_config: ConsumerChannel::channels_config(),
        }
    }
}

/// The clients that receive player updates: the connected clients that said they are ready,
/// in the order in which they are connected.
pub fn player_update_recipients(p_client_ids: &Vec<u64>, p_ready_client_ids: &Vec<u64>) -> (r: Vec<u64>)
    ensures
        r@ == p_client_ids@.filter(|id: u64| p_ready_client_ids@.contains(id)),
{
    let ghost ready = |id: u64| p_ready_client_ids@.contains(id);
    let mut r: Vec<u64> = Vec::new();
    let mut i: usize = 0;
    while i < p_client_ids.len()
        invariant
            i <= p_client_ids@.len(),
            ready == (|id: u64| p_ready_client_ids@.contains(id)),
            r@ == p_client_ids@.take(i as int).filter(ready),
        decreases p_client_ids@.len() - i,
    {
        let id = p_client_ids[i];
        proof {
            reveal_with_fuel(Seq::<_>::filter, 1);
            assert(p_client_ids@.take(i + 1).drop_last() =~= p_client_ids@.take(i as int));
        }
        let mut is_ready = false;
        let mut j: usize = 0;
        while j < p_ready_client_ids.len()
            invariant
                j <= p_ready_client_ids@.len(),
                is_ready == p_ready_client_ids@.take(j as int).contains(id),
            decreases p_ready_client_ids@.len() - j,
        {
            proof {
                assert(p_ready_client_ids@.take(j + 1) =~= p_ready_client_ids@.take(j as int).push(p_ready_client_ids@[j as int]));
                lemma_push_contains_u64(p_ready_client_ids@.take(j as int), p_ready_client_ids@[j as int], id);
            }
            if p_ready_client_ids[j] == id {
                is_ready = true;
            }
            j = j + 1;
        }
        proof {
            assert(p_ready_client_ids@.take(p_ready_client_ids@.len() as int) =~= p_ready_client_ids@);
        }
        if is_ready {
            r.push(id);
        }
        i = i + 1;
    }
    proof {
        assert(p_client_ids@.take(p_client_ids@.len() as int) =~= p_client_ids@);
    }
    r
}

/// What the server hears from its clients in a poll, as it affects its state.
pub enum ProviderEvent {
    /// A client connected; its player enters the world at `Spatial`.
    ClientConnected(u64, Spatial),
    /// A client left.
    ClientDisconnected(u64),
    /// A client said that it is ready.
    ClientReady(u64),
}

/// What the server does next, besides changing its state.
#[derive(Clone, Copy, Debug, PartialEq, Eq, Structural)]
pub enum ProviderAction {
    /// Prepare the client that just connected and send it its preparation (`prepare_client`).
    PrepareClient(u64),
    /// Nothing.
    Nothing,
}

/// The test of belonging to another client than `c`.
pub open spec fn not_of_client(c: u64) -> spec_fn((Player, Spatial)) -> bool {
    |e: (Player, Spatial)| e.0.spec_client_id() != c
}

/// The first `k` of the queued chunk insertions that one poll sends: at most 33.
pub open spec fn insertion_quota(insertions: nat) -> int {
    if insertions <= 33 {
        insertions as int
    } else {
        33
    }
}

/// The first `k` of the queued chunk removals that one poll sends, after `sent` insertions.
pub open spec fn removal_quota(removals: nat, sent: int) -> int {
    if removals <= 33 - sent {
        removals as int
    } else {
        33 - sent
    }
}

/// What the server keeps between polls: the players with where they are, the clients that
/// said they are ready, and the chunk insertions and removals waiting to be sent, each with
/// the client it goes to, in the order in which they were queued.
pub struct ProviderState {
    pub players: Vec<(Player, Spatial)>,
    pub ready: Vec<u64>,
    pub insertions: VecDeque<(u64, ChunkUpdateMessage)>,
    pub removals: VecDeque<(u64, ChunkKey)>,
}

impl ProviderState {
    /// No client is named twice among the ready ones.
    pub open spec fn wf(&self) -> bool {
        self.ready@.no_duplicates()
    }

    /// A server with no player, no ready client and nothing queued.
    pub fn new() -> (r: ProviderState)
        ensures
            r.wf(),
            r.players@ == Seq::<(Player, Spatial)>::empty(),
            r.ready@ == Seq::<u64>::empty(),
            r.insertions@ == Seq::<(u64, ChunkUpdateMessage)>::empty(),
            r.removals@ == Seq::<(u64, ChunkKey)>::empty(),
    {
        ProviderState {
            players: Vec::new(),
            ready: Vec::new(),
            insertions: VecDeque::new(),
            removals: VecDeque::new(),
        }
    }

    /// Applies one event: a connecting client adds its player at the end and is to be
    /// prepared; a leaving client takes all its players with it, the others keeping their
    /// order; a ready client joins the ready ones, unless it is among them already. Nothing
    /// else changes.
    pub fn step(&mut self, p_event: ProviderEvent) -> (r: ProviderAction)
        requires
            old(self).wf(),
        ensures
            final(self).wf(),
            final(self).insertions@ == old(self).insertions@,
            final(self).removals@ == old(self).removals@,
            match p_event {
                ProviderEvent::ClientConnected(c, s) => {
                    &&& final(self).players@.len() == old(self).players@.len() + 1
                    &&& final(self).players@.drop_last() == old(self).players@
                    &&& final(self).players@.last().0.spec_client_id() == c
                    &&& final(self).players@.last().1 == s
                    &&& final(self).ready@ == old(self).ready@
                    &&& r == ProviderAction::PrepareClient(c)
                },
                ProviderEvent::ClientDisconnected(c) => {
                    &&& final(self).players@ == old(self).players@.filter(not_of_client(c))
                    &&& final(self).ready@ == old(self).ready@
                    &&& r == ProviderAction::Nothing
                },
                ProviderEvent::ClientReady(c) => {
                    &&& final(self).players@ == old(self).players@
                    &&& final(self).ready@ == (if old(self).ready@.contains(c) {
                        old(self).ready@
                    } else {
                        old(self).ready@.push(c)
                    })
                    &&& r == ProviderAction::Nothing
                },
            },
    {
        match p_event {
            ProviderEvent::ClientConnected(c, s) => {
                self.players.push((Player::new(c), s));
                proof {
                    assert(self.players@.drop_last() =~= old(self).players@);
                }
                ProviderAction::PrepareClient(c)
            },
            ProviderEvent::ClientDisconnected(c) => {
                let ghost old_p = self.players@;
                let ghost keep = not_of_client(c);
                let mut kept: Vec<(Player, Spatial)> = Vec::new();
                let mut i: usize = 0;
                while i < self.players.len()
                    invariant
                        self.players@ == old_p,
                        keep == not_of_client(c),
                        i <= old_p.len(),
                        kept@ == old_p.take(i as int).filter(keep),
                    decreases old_p.len() - i,
                {
                    let e = self.players[i];
                    proof {
                        reveal_with_fuel(Seq::<_>::filter, 1);
                        assert(old_p.take(i + 1).drop_last() =~= old_p.take(i as int));
                    }
                    if *e.0.client_id() != c {
                        kept.push(e);
                    }
                    i = i + 1;
                }
                proof {
                    assert(old_p.take(old_p.len() as int) =~= old_p);
                }
                self.players = kept;
                ProviderAction::Nothing
            },
            ProviderEvent::ClientReady(c) => {
                let mut found = false;
                let mut i: usize = 0;
                while i < self.ready.len()
                    invariant
                        i <= self.ready@.len(),
                        found <==> self.ready@.take(i as int).contains(c),
                    decreases self.ready@.len() - i,
                {
                    proof {
                        assert(self.ready@.take(i + 1) =~= self.ready@.take(i as int).push(self.ready@[i as int]));
                        lemma_push_contains_u64(self.ready@.take(i as int), self.ready@[i as int], c);
                    }
                    if self.ready[i] == c {
                        found = true;
                    }
                    i = i + 1;
                }
                proof {
                    assert(self.ready@.take(self.ready@.len() as int) =~= self.ready@);
                }
                if !found {
                    self.ready.push(c);
                    proof {
                        assert forall|a: int, b: int| 0 <= a < b < self.ready@.len() implies self.ready@[a] != self.ready@[b] by {
                            if b == self.ready@.len() - 1 {
                                assert(old(self).ready@[a] == self.ready@[a]);
                                assert(old(self).ready@.contains(self.ready@[a]));
                            } else {
                                assert(old(self).ready@[a] != old(self).ready@[b]);
                            }
                        }
                    }
                }
                ProviderAction::Nothing
            },
        }
    }

    /// Queues the chunk updates of one refresh for client `p_client_id`: its removals after the
    /// queued removals and its insertions after the queued insertions, each in order.
    pub fn enqueue_chunk_updates(
        &mut self,
        p_client_id: u64,
        p_removals: &Vec<ChunkKey>,
        p_insertions: &Vec<ChunkUpdateMessage>,
    )
        ensures
            final(self).players@ == old(self).players@,
            final(self).ready@ == old(self).ready@,
            final(self).removals@ == old(self).removals@ + p_removals@.map_values(
                |k: ChunkKey| (p_client_id, k),
            ),
            final(self).insertions@ == old(self).insertions@ + p_insertions@.map_values(
                |u: ChunkUpdateMessage| (p_client_id, u),
            ),
    {
        let mut i: usize = 0;
        while i < p_removals.len()
            invariant
                i <= p_removals@.len(),
                self.players@ == old(self).players@,
                self.ready@ == old(self).ready@,
                self.insertions@ == old(self).insertions@,
                self.removals@ == old(self).removals@ + p_removals@.take(i as int).map_values(
                    |k: ChunkKey| (p_client_id, k),
                ),
            decreases p_removals@.len() - i,
        {
            self.removals.push_back((p_client_id, p_removals[i]));
            proof {
                assert(p_removals@.take(i + 1).map_values(|k: ChunkKey| (p_client_id, k))
                    =~= p_removals@.take(i as int).map_values(|k: ChunkKey| (p_client_id, k)).push(
                    (p_client_id, p_removals@[i as int]),
                ));
            }
            i = i + 1;
        }
        proof {
            assert(p_removals@.take(p_removals@.len() as int) =~= p_removals@);
        }
        let mut j: usize = 0;
        while j < p_insertions.len()
            invariant
                j <= p_insertions@.len(),
                self.players@ == old(self).players@,
                self.ready@ == old(self).ready@,
                self.removals@ == old(self).removals@ + p_removals@.map_values(
                    |k: ChunkKey| (p_client_id, k),
                ),
                self.insertions@ == old(self).insertions@ + p_insertions@.take(j as int).map_values(
                    |u: ChunkUpdateMessage| (p_client_id, u),
                ),
            decreases p_insertions@.len() - j,
        {
            self.insertions.push_back((p_client_id, p_insertions[j]));
            proof {
                assert(p_insertions@.take(j + 1).map_values(|u: ChunkUpdateMessage| (p_client_id, u))
                    =~= p_insertions@.take(j as int).map_values(
                    |u: ChunkUpdateMessage| (p_client_id, u),
                ).push((p_client_id, p_insertions@[j as int])));
            }
            j = j + 1;
        }
        proof {
            assert(p_insertions@.take(p_insertions@.len() as int) =~= p_insertions@);
        }
    }

    /// Takes the queued chunk messages that one poll sends: the first insertions, 33 at most,
    /// then the first removals, as many as bring the count to 33 at most. What stays queued
    /// keeps its order.
    pub fn take_queued_sends(&mut self) -> (r: (Vec<(u64, ChunkUpdateMessage)>, Vec<(u64, ChunkKey)>))
        ensures
            final(self).players@ == old(self).players@,
            final(self).ready@ == old(self).ready@,
            r.0@ == old(self).insertions@.take(insertion_quota(old(self).insertions@.len())),
            final(self).insertions@ == old(self).insertions@.skip(
                insertion_quota(old(self).insertions@.len()),
            ),
            r.1@ == old(self).removals@.take(
                removal_quota(old(self).removals@.len(), insertion_quota(old(self).insertions@.len())),
            ),
            final(self).removals@ == old(self).removals@.skip(
                removal_quota(old(self).removals@.len(), insertion_quota(old(self).insertions@.len())),
            ),
    {
        let (k, m) = queue_send_quota(self.insertions.len(), self.removals.len());
        let mut sent_insertions: Vec<(u64, ChunkUpdateMessage)> = Vec::new();
        let mut i: usize = 0;
        while i < k
            invariant
                i <= k,
                k == insertion_quota(old(self).insertions@.len()),
                self.players@ == old(self).players@,
                self.ready@ == old(self).ready@,
                self.removals@ == old(self).removals@,
                sent_insertions@ == old(self).insertions@.take(i as int),
                self.insertions@ == old(self).insertions@.skip(i as int),
            decreases k - i,
        {
            match self.insertions.pop_front() {
                Some(e) => {
                    sent_insertions.push(e);
                    proof {
                        assert(sent_insertions@ =~= old(self).insertions@.take(i + 1));
                        assert(self.insertions@ =~= old(self).insertions@.skip(i + 1));
                    }
                },
                None => {},
            }
            i = i + 1;
        }
        let mut sent_removals: Vec<(u64, ChunkKey)> = Vec::new();
        let mut j: usize = 0;
        while j < m
            invariant
                j <= m,
                m == removal_quota(old(self).removals@.len(), k as int),
                self.players@ == old(self).players@,
                self.ready@ == old(self).ready@,
                self.insertions@ == old(self).insertions@.skip(k as int),
                sent_removals@ == old(self).removals@.take(j as int),
                self.removals@ == old(self).removals@.skip(j as int),
            decreases m - j,
        {
            match self.removals.pop_front() {
                Some(e) => {
                    sent_removals.push(e);
                    proof {
                        assert(sent_removals@ =~= old(self).removals@.take(j + 1));
                        assert(self.removals@ =~= old(self).removals@.skip(j + 1));
                    }
                },
                None => {},
            }
            j = j + 1;
        }
        (sent_insertions, sent_removals)
    }

    /// The places, in `players`, of the players whose client said it is ready, in order: the
    /// players whose chunks the server keeps current.
    pub fn ready_players(&self) -> (r: Vec<usize>)
        ensures
            forall|j: int| 0 <= j < r@.len() ==> #[trigger] r@[j] < self.players@.len(),
            forall|a: int, b: int| 0 <= a < b < r@.len() ==> #[trigger] r@[a] < #[trigger] r@[b],
            forall|i: int|
                0 <= i < self.players@.len() ==> (#[trigger] r@.contains(i as usize) <==> self.ready@.contains(
                    self.players@[i].0.spec_client_id(),
                )),
    {
        let mut r: Vec<usize> = Vec::new();
        let mut i: usize = 0;
        while i < self.players.len()
            invariant
                i <= self.players@.len(),
                forall|j: int| 0 <= j < r@.len() ==> #[trigger] r@[j] < i,
                forall|a: int, b: int| 0 <= a < b < r@.len() ==> #[trigger] r@[a] < #[trigger] r@[b],
                forall|q: int|
                    0 <= q < self.players@.len() ==> (#[trigger] r@.contains(q as usize) <==> (q < i
                        && self.ready@.contains(self.players@[q].0.spec_client_id()))),
            decreases self.players@.len() - i,
        {
            let id = *self.players[i].0.client_id();
            let mut is_ready = false;
            let mut j: usize = 0;
            while j < self.ready.len()
                invariant
                    j <= self.ready@.len(),
                    is_ready <==> self.ready@.take(j as int).contains(id),
                decreases self.ready@.len() - j,
            {
                proof {
                    assert(self.ready@.take(j + 1) =~= self.ready@.take(j as int).push(self.ready@[j as int]));
                    lemma_push_contains_u64(self.ready@.take(j as int), self.ready@[j as int], id);
                }
                if self.ready[j] == id {
                    is_ready = true;
                }
                j = j + 1;
            }
            proof {
                assert(self.ready@.take(self.ready@.len() as int) =~= self.ready@);
            }
            let ghost r0 = r@;
            if is_ready {
                r.push(i);
            }
            proof {
                assert forall|q: int|
                    0 <= q < self.players@.len() implies (#[trigger] r@.contains(q as usize) <==> (q < i + 1
                        && self.ready@.contains(self.players@[q].0.spec_client_id()))) by {
                    if r@.contains(q as usize) && q != i {
                        let t = choose|t: int| 0 <= t < r@.len() && r@[t] == q as usize;
                        assert(r0[t] == q as usize);
                        assert(r0.contains(q as usize));
                    }
                    if q < i && self.ready@.contains(self.players@[q].0.spec_client_id()) {
                        assert(r0.contains(q as usize));
                        let t = choose|t: int| 0 <= t < r0.len() && r0[t] == q as usize;
                        assert(r@[t] == q as usize);
                    }
                    if q == i && is_ready {
                        assert(r@[r0.len() as int] == q as usize);
                    }
                    if r@.contains(q as usize) && q == i {
                        if !is_ready {
                            let t = choose|t: int| 0 <= t < r@.len() && r@[t] == q as usize;
                            assert(r0[t] < i);
                        }
                    }
                }
            }
            i = i + 1;
        }
        r
    }
}

proof fn lemma_push_contains_u64(s: Seq<u64>, a: u64, b: u64)
    ensures
        s.push(a).contains(b) <==> (s.contains(b) || b == a),
{
    if s.push(a).contains(b) && b != a {
        let k = choose|k: int| 0 <= k < s.push(a).len() && s.push(a)[k] == b;
        assert(s[k] == b);
    }
    if s.contains(b) {
        let k = choose|k: int| 0 <= k < s.len() && s[k] == b;
        assert(s.push(a)[k] == b);
    }
    if b == a {
        assert(s.push(a)[s.len() as int] == b);
    }
}

} // verus!
