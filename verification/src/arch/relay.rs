use vstd::prelude::*;
use crate::geosphere::active_geosphere::{
    chunk_key_of, evolves, lemma_evolves_trans, loaded, read_chain, read_step, slot_evolves, with_slot,
    world_at, ActiveGeosphere,
};
use crate::geosphere::chunk::ChunkKey;
use crate::geosphere::cube::{Cube, CubeRegistry};
use crate::geosphere::morton::chunk_origin;
use crate::geosphere::passive_geosphere::slot_cube_of;
use crate::geosphere::point_cluster::Point3;
use crate::geosphere::slot::Slot;
use crate::net::channel_config_builder::{ChannelConfig, ConnectionConfig, SendType};

verus! {

/// A request for the kinds of cubes.
#[derive(Clone, Copy, Debug)]
pub struct CubeRegistryInputMessage();

/// The kinds of cubes, in answer.
pub struct CubeRegistryOutputMessage {
    pub cube_registry: CubeRegistry,
}

/// A request for the slot at a position.
#[derive(Clone, Copy, Debug)]
pub struct GeosphereInputMessage {
    pub position: Point3,
}

/// A slot and the cube it holds, in answer.
#[derive(Clone, Copy, Debug)]
pub struct GeosphereOutputMessage {
    pub slot: Slot,
    pub cube: Option<Cube>,
}

/// The channels of the request-and-answer protocol between client and server.
#[derive(Clone, Copy, Debug, PartialEq, Eq, Structural)]
pub enum RelayChannel {
    Geosphere,
    CubeRegistry,
}

/// How long, in milliseconds, both relay channels wait before sending again.
pub const RELAY_RESEND_TIME_MILLIS: u64 = 300;

/// The bytes per tick that a relay connection may send.
pub const RELAY_AVAILABLE_BYTES_PER_TICK: u64 = 60_000;

/// The larger of two sizes.
pub open spec fn larger(a: nat, b: nat) -> nat {
    if a >= b {
        a
    } else {
        b
    }
}

/// The settings of both relay channels.
pub open spec fn relay_channels() -> Seq<ChannelConfig> {
    seq![
        ChannelConfig {
            channel_id: 0,
            max_memory_usage_bytes: larger(
                vstd::layout::size_of::<GeosphereInputMessage>(),
                vstd::layout::size_of::<GeosphereOutputMessage>(),
            ) as usize,
            send_type: SendType::ReliableUnordered { resend_time_millis: RELAY_RESEND_TIME_MILLIS },
        },
        ChannelConfig {
            channel_id: 1,
            max_memory_usage_bytes: larger(
                vstd::layout::size_of::<CubeRegistryInputMessage>(),
                vstd::layout::size_of::<CubeRegistryOutputMessage>(),
            ) as usize,
            send_type: SendType::ReliableOrdered { resend_time_millis: RELAY_RESEND_TIME_MILLIS },
        },
    ]
}

fn larger_size(a: usize, b: usize) -> (r: usize)
    ensures
        r == larger(a as nat, b as nat),
{
    if a >= b {
        a
    } else {
        b
    }
}

impl RelayChannel {
    /// The number of the channel.
    pub open spec fn spec_channel_id(&self) -> u8 {
        match self {
            RelayChannel::Geosphere => 0,
            RelayChannel::CubeRegistry => 1,
        }
    }

    /// The number of the channel: 0 for slots, 1 for the kinds of cubes.
    pub fn channel_id(&self) -> (r: u8)
        ensures
            r == self.spec_channel_id(),
    {
        match self {
            RelayChannel::Geosphere => 0,
            RelayChannel::CubeRegistry => 1,
        }
    }

    /// The settings of both relay channels: each may hold the larger of its request and its
    /// answer; slots come unordered, the kinds of cubes ordered.
    pub fn channels_config() -> (r: Vec<ChannelConfig>)
        ensures
            r@ == relay_channels(),
    {
        let mut r: Vec<ChannelConfig> = Vec::new();
        r.push(
            ChannelConfig {
                channel_id: 0,
                max_memory_usage_bytes: larger_size(
                    core::mem::size_of::<GeosphereInputMessage>(),
                    core::mem::size_of::<GeosphereOutputMessage>(),
                ),
                send_type: SendType::ReliableUnordered { resend_time_millis: RELAY_RESEND_TIME_MILLIS },
            },
        );
        r.push(
            ChannelConfig {
                channel_id: 1,
                max_memory_usage_bytes: larger_size(
                    core::mem::size_of::<CubeRegistryInputMessage>(),
                    core::mem::size_of::<CubeRegistryOutputMessage>(),
                ),
                send_type: SendType::ReliableOrdered { resend_time_millis: RELAY_RESEND_TIME_MILLIS },
            },
        );
        assert(r@ =~= relay_channels());
        r
    }

    /// The settings of a relay connection: both sides send on both relay channels.
    pub fn connection_config() -> (r: ConnectionConfig)
        ensures
            r.available_bytes_per_tick == RELAY_AVAILABLE_BYTES_PER_TICK,
            r.server_channels_config@ == relay_channels(),
            r.client_channels_config@ == relay_channels(),
    {
        ConnectionConfig {
            available_bytes_per_tick: RELAY_AVAILABLE_BYTES_PER_TICK,
            server_channels_config: Self::channels_config(),
            client_channels_config: Self::channels_config(),
        }
    }
}

impl From<RelayChannel> for u8 {
    fn from(p_value: RelayChannel) -> (r: u8) {
        p_value.channel_id()
    }
}

impl vstd::std_specs::convert::FromSpecImpl<RelayChannel> for u8 {
    open spec fn obeys_from_spec() -> bool {
        true
    }

    open spec fn from_spec(v: RelayChannel) -> u8 {
        v.spec_channel_id()
    }
}

/// The answer to a request for a slot: the slot at the requested position, loaded first when
/// its chunk is not in memory, and the cube it holds.
pub fn answer_geosphere_request(p_geosphere: &mut ActiveGeosphere, p_message: GeosphereInputMessage) -> (r:
    Result<GeosphereOutputMessage, anyhow::Error>)
    requires
        old(p_geosphere).wf(),
        crate::geosphere::active_geosphere::chunk_bakeable(chunk_origin(p_message.position)),
    ensures
        final(p_geosphere).wf(),
        final(p_geosphere).registry() == old(p_geosphere).registry(),
        evolves(old(p_geosphere)@, final(p_geosphere)@),
        r is Ok ==> loaded(final(p_geosphere)@, p_message.position) && r->Ok_0.slot == world_at(
            final(p_geosphere)@,
            p_message.position,
        ) && r->Ok_0.cube == slot_cube_of(r->Ok_0.slot, old(p_geosphere).registry().cube_map()),
        loaded(old(p_geosphere)@, p_message.position) ==> r is Ok && r->Ok_0.slot == world_at(
            old(p_geosphere)@,
            p_message.position,
        ) && final(p_geosphere)@ == old(p_geosphere)@,
{
    let (slot, cube) = match p_geosphere.slot_cube(p_message.position) {
        Ok((slot, cube)) => (*slot, cube),
        Err(e) => return Err(e),
    };
    proof {
        p_geosphere.lemma_slot_read_back(p_message.position, slot);
        if loaded(old(p_geosphere)@, p_message.position) {
            old(p_geosphere).lemma_slot_read_back(p_message.position, slot);
        }
    }
    Ok(GeosphereOutputMessage { slot, cube })
}

/// The positions of slot requests, in order.
pub open spec fn request_positions(requests: Seq<GeosphereInputMessage>) -> Seq<Point3> {
    requests.map_values(|m: GeosphereInputMessage| m.position)
}

/// The keys of the chunks that hold the slots `ps`, in order.
pub open spec fn slot_keys(ps: Seq<Point3>) -> Seq<ChunkKey> {
    ps.map_values(|p: Point3| chunk_key_of(p))
}

/// The answers `answers` are those of slot requests at `ps`, answered one after the other from
/// the chunks `a`, which end as `b`: each is the slot as it stood right after its chunk was read.
pub open spec fn answered_in_order(
    a: Map<ChunkKey, Seq<Slot>>,
    b: Map<ChunkKey, Seq<Slot>>,
    ps: Seq<Point3>,
    answers: Seq<GeosphereOutputMessage>,
) -> bool {
    exists|vs: Seq<Map<ChunkKey, Seq<Slot>>>|
        #[trigger] read_chain(vs, slot_keys(ps)) && vs[0] == a && vs.last()
            == b && answers.len() == ps.len() && forall|i: int|
            0 <= i < ps.len() ==> (#[trigger] answers[i]).slot == world_at(vs[i + 1], ps[i])
}

/// The answers to the slot requests that one client sent, in the order in which they came:
/// each request is answered with its slot as the world holds it then, loading its chunk first
/// when it is not in memory. The cube of each answered slot stays as answered; when every
/// requested slot is in memory already, nothing changes and each answer is the slot as it is.
pub fn answer_geosphere_requests(p_geosphere: &mut ActiveGeosphere, p_requests: &Vec<GeosphereInputMessage>) -> (r:
    Result<Vec<GeosphereOutputMessage>, anyhow::Error>)
    requires
        old(p_geosphere).wf(),
        forall|i: int|
            0 <= i < p_requests@.len() ==> crate::geosphere::active_geosphere::chunk_bakeable(
                chunk_origin(#[trigger] p_requests@[i].position),
            ),
    ensures
        r is Ok ==> answered_in_order(
            old(p_geosphere)@,
            final(p_geosphere)@,
            request_positions(p_requests@),
            r->Ok_0@,
        ),
        final(p_geosphere).wf(),
        final(p_geosphere).registry() == old(p_geosphere).registry(),
        evolves(old(p_geosphere)@, final(p_geosphere)@),
        r is Ok ==> r->Ok_0@.len() == p_requests@.len() && forall|i: int|
            0 <= i < p_requests@.len() ==> {
                &&& loaded(final(p_geosphere)@, p_requests@[i].position)
                &&& (#[trigger] r->Ok_0@[i]).slot.cube_instance == world_at(
                    final(p_geosphere)@,
                    p_requests@[i].position,
                ).cube_instance
                &&& r->Ok_0@[i].cube == slot_cube_of(r->Ok_0@[i].slot, old(p_geosphere).registry().cube_map())
            },
        (forall|i: int| 0 <= i < p_requests@.len() ==> loaded(old(p_geosphere)@, #[trigger] p_requests@[i].position))
            ==> r is Ok && final(p_geosphere)@ == old(p_geosphere)@ && forall|i: int|
            0 <= i < p_requests@.len() ==> (#[trigger] r->Ok_0@[i]).slot == world_at(
                old(p_geosphere)@,
                p_requests@[i].position,
            ),
{
    let ghost ps = request_positions(p_requests@);
    let ghost keys = slot_keys(ps);
    let ghost mut vs: Seq<Map<ChunkKey, Seq<Slot>>> = seq![p_geosphere@];
    let mut answers: Vec<GeosphereOutputMessage> = Vec::new();
    let mut i: usize = 0;
    while i < p_requests.len()
        invariant
            i <= p_requests@.len(),
            p_geosphere.wf(),
            p_geosphere.registry() == old(p_geosphere).registry(),
            evolves(old(p_geosphere)@, p_geosphere@),
            forall|j: int|
                0 <= j < p_requests@.len() ==> crate::geosphere::active_geosphere::chunk_bakeable(
                    chunk_origin(#[trigger] p_requests@[j].position),
                ),
            answers@.len() == i,
            forall|j: int|
                0 <= j < i ==> {
                    &&& loaded(p_geosphere@, p_requests@[j].position)
                    &&& (#[trigger] answers@[j]).slot.cube_instance == world_at(
                        p_geosphere@,
                        p_requests@[j].position,
                    ).cube_instance
                    &&& answers@[j].cube == slot_cube_of(answers@[j].slot, old(p_geosphere).registry().cube_map())
                },
            (forall|j: int| 0 <= j < p_requests@.len() ==> loaded(old(p_geosphere)@, #[trigger] p_requests@[j].position))
                ==> p_geosphere@ == old(p_geosphere)@ && forall|j: int|
                0 <= j < i ==> (#[trigger] answers@[j]).slot == world_at(
                    old(p_geosphere)@,
                    p_requests@[j].position,
                ),
            ps == request_positions(p_requests@),
            keys == slot_keys(ps),
            read_chain(vs, keys.take(i as int)),
            vs[0] == old(p_geosphere)@,
            vs.last() == p_geosphere@,
            forall|j: int| 0 <= j < i ==> (#[trigger] answers@[j]).slot == world_at(vs[j + 1], ps[j]),
        decreases p_requests@.len() - i,
    {
        let request = p_requests[i];
        let ghost before = p_geosphere@;
        proof {
            assert(crate::geosphere::active_geosphere::chunk_bakeable(chunk_origin(p_requests@[i as int].position)));
        }
        let answer = match answer_geosphere_request(p_geosphere, request) {
            Ok(answer) => answer,
            Err(e) => {
                proof {
                    lemma_evolves_trans(old(p_geosphere)@, before, p_geosphere@);
                }
                return Err(e);
            },
        };
        proof {
            lemma_evolves_trans(old(p_geosphere)@, before, p_geosphere@);
            assert forall|j: int| 0 <= j < i implies loaded(p_geosphere@, p_requests@[j].position)
                && answers@[j].slot.cube_instance == world_at(p_geosphere@, p_requests@[j].position).cube_instance by {
                let q = p_requests@[j].position;
                assert(loaded(before, q));
                assert(slot_evolves(before, p_geosphere@, q));
            }
        }
        let ghost old_vs = vs;
        proof {
            assert(keys[i as int] == chunk_key_of(request.position));
            if loaded(before, request.position) {
                assert(p_geosphere@ == before);
            }
            assert(read_step(before, p_geosphere@, keys[i as int]));
            vs = vs.push(p_geosphere@);
            assert forall|j: int| #![trigger keys.take(i + 1)[j]] 0 <= j < keys.take(i + 1).len() implies read_step(
                vs[j],
                vs[j + 1],
                keys.take(i + 1)[j],
            ) by {
                if j < i {
                    assert(keys.take(i + 1)[j] == keys.take(i as int)[j]);
                    assert(read_step(old_vs[j], old_vs[j + 1], keys.take(i as int)[j]));
                }
            }
        }
        answers.push(answer);
        proof {
            assert forall|j: int| 0 <= j < i + 1 implies (#[trigger] answers@[j]).slot == world_at(vs[j + 1], ps[j]) by {
                if j < i {
                    assert(vs[j + 1] == old_vs[j + 1]);
                }
            }
        }
        i = i + 1;
    }
    proof {
        assert(keys.take(p_requests@.len() as int) =~= keys);
        assert forall|j: int| 0 <= j < ps.len() implies (#[trigger] answers@[j]).slot == world_at(vs[j + 1], ps[j]) by {}
        assert(read_chain(vs, keys));
    }
    Ok(answers)
}

/// The answer to a request for the kinds of cubes: a copy of them.
pub fn answer_cube_registry_request(p_geosphere: &ActiveGeosphere) -> (r: CubeRegistryOutputMessage)
    requires
        p_geosphere.wf(),
    ensures
        r.cube_registry.cube_map() == p_geosphere.registry().cube_map(),
        r.cube_registry.image_views() == p_geosphere.registry().image_views(),
{
    CubeRegistryOutputMessage { cube_registry: p_geosphere.cube_registry().clone() }
}

} // verus!
