use vstd::prelude::*;
use crate::arch::consumer_channel::{consumer_channels, Channel as ConsumerChannel};
use crate::arch::provider_channel::{provider_channels, Channel as ProviderChannel, ChunkUpdateMessage};
use crate::arch::relay::CubeRegistryOutputMessage;
use crate::net::channel_config_builder::ConnectionConfig;
use crate::geosphere::chunk::{Chunk, ChunkKey};
use crate::geosphere::cube::CubeRegistry;
use crate::geosphere::morton::{chunk_cluster, chunk_in_range, Morton4};
use crate::geosphere::passive_geosphere::PassiveGeosphere;
use crate::geosphere::point_cluster::PointCluster;
use crate::viewport::serializable_texture_image::SerializableTextureImage;

verus! {

/// What a client receives from the server, as it affects its copy of the world.
pub enum ConsumerEvent {
    /// The preparation: the kinds of cubes.
    Prepare(CubeRegistry),
    /// A chunk to keep.
    ChunkInsertion(ChunkUpdateMessage),
    /// A chunk to drop.
    ChunkRemoval(ChunkKey),
}

/// What the client does next, besides updating its copy of the world.
#[derive(Clone, Copy, Debug, PartialEq, Eq, Structural)]
pub enum ConsumerAction {
    /// Tell the server that the client is ready.
    SendReady,
    /// Drop the spectator's cached faces of these slots.
    PurgeSpectatorCluster(PointCluster),
    /// Nothing.
    Nothing,
}

/// The face images that a prepared client loads into its texture atlas, in atlas order.
pub struct ConsumerPreparationNotice {
    pub geosphere_texture_images: Vec<SerializableTextureImage>,
}

/// The client's copy of the world, kept in step with what the server sends.
pub struct ConsumerPoller {
    pub passive_geosphere: PassiveGeosphere,
}

impl ConsumerPoller {
    /// Applies one received event to the client's copy of the world and says what to do next;
    /// a preparation also gives the face images of the new kinds of cubes.
    pub fn poll(&mut self, p_event: ConsumerEvent) -> (r: (ConsumerAction, Option<ConsumerPreparationNotice>))
        requires
            old(self).passive_geosphere.wf(),
            p_event matches ConsumerEvent::Prepare(registry) ==> registry.wf(),
            p_event matches ConsumerEvent::ChunkInsertion(m) ==> chunk_in_range(m.key.0),
        ensures
            final(self).passive_geosphere.wf(),
            match p_event {
                ConsumerEvent::Prepare(registry) => {
                    &&& final(self).passive_geosphere.chunk_map@ == old(self).passive_geosphere.chunk_map@
                    &&& final(self).passive_geosphere.cube_registry == registry
                    &&& r.0 == ConsumerAction::SendReady
                    &&& r.1 is Some
                    &&& r.1->Some_0.geosphere_texture_images@.map_values(|i: SerializableTextureImage| i@)
                        == registry.image_views()
                },
                ConsumerEvent::ChunkInsertion(m) => {
                    &&& final(self).passive_geosphere.chunk_map@ == old(self).passive_geosphere.chunk_map@.insert(
                        m.key,
                        m.chunk,
                    )
                    &&& final(self).passive_geosphere.cube_registry == old(self).passive_geosphere.cube_registry
                    &&& r.0 == ConsumerAction::PurgeSpectatorCluster(chunk_cluster(m.key.0))
                    &&& r.1 is None
                },
                ConsumerEvent::ChunkRemoval(key) => {
                    &&& final(self).passive_geosphere.chunk_map@ == old(self).passive_geosphere.chunk_map@.remove(key)
                    &&& final(self).passive_geosphere.cube_registry == old(self).passive_geosphere.cube_registry
                    &&& r.0 == ConsumerAction::Nothing
                    &&& r.1 is None
                },
            },
    {
        match p_event {
            ConsumerEvent::Prepare(registry) => {
                let images = registry.geosphere_serializable_texture_image();
                let mut copies: Vec<SerializableTextureImage> = Vec::new();
                let mut i: usize = 0;
                while i < images.len()
                    invariant
                        i <= images@.len(),
                        copies@.len() == i,
                        forall|j: int| 0 <= j < i ==> #[trigger] copies@[j]@ == images@[j]@,
                    decreases images@.len() - i,
                {
                    copies.push(images[i].clone());
                    i = i + 1;
                }
                proof {
                    assert(copies@.map_values(|i: SerializableTextureImage| i@) =~= images@.map_values(
                        |i: SerializableTextureImage| i@,
                    ));
                }
                self.passive_geosphere.cube_registry = registry;
                (
                    ConsumerAction::SendReady,
                    Some(ConsumerPreparationNotice { geosphere_texture_images: copies }),
                )
            },
            ConsumerEvent::ChunkInsertion(message) => {
                let chunk_slot_point_cluster = Morton4::compute_cluster(message.key.0);
                self.passive_geosphere.chunk_map.insert(message.key, message.chunk);
                (ConsumerAction::PurgeSpectatorCluster(chunk_slot_point_cluster), None)
            },
            ConsumerEvent::ChunkRemoval(key) => {
                self.passive_geosphere.chunk_map.remove(&key);
                (ConsumerAction::Nothing, None)
            },
        }
    }
}

/// The chunks after storing the updates `us`, one after the other.
pub open spec fn inserted_chunks(m: Map<ChunkKey, Chunk>, us: Seq<ChunkUpdateMessage>) -> Map<ChunkKey, Chunk>
    decreases us.len(),
{
    if us.len() == 0 {
        m
    } else {
        inserted_chunks(m, us.drop_last()).insert(us.last().key, us.last().chunk)
    }
}

/// The chunks after dropping the keys `ks`, one after the other.
pub open spec fn removed_chunks(m: Map<ChunkKey, Chunk>, ks: Seq<ChunkKey>) -> Map<ChunkKey, Chunk>
    decreases ks.len(),
{
    if ks.len() == 0 {
        m
    } else {
        removed_chunks(m, ks.drop_last()).remove(ks.last())
    }
}

impl ConsumerPoller {
    /// Applies the chunk messages of one poll: first every received insertion, in order, then
    /// every received removal, in order. Gives, for each insertion in order, the slots whose
    /// cached faces the spectator drops.
    pub fn poll_chunks(&mut self, p_insertions: &Vec<ChunkUpdateMessage>, p_removals: &Vec<ChunkKey>) -> (r: Vec<
        PointCluster,
    >)
        requires
            old(self).passive_geosphere.wf(),
            forall|i: int| 0 <= i < p_insertions@.len() ==> chunk_in_range(#[trigger] p_insertions@[i].key.0),
        ensures
            final(self).passive_geosphere.wf(),
            final(self).passive_geosphere.cube_registry == old(self).passive_geosphere.cube_registry,
            final(self).passive_geosphere.chunk_map@ == removed_chunks(
                inserted_chunks(old(self).passive_geosphere.chunk_map@, p_insertions@),
                p_removals@,
            ),
            r@ == p_insertions@.map_values(|u: ChunkUpdateMessage| chunk_cluster(u.key.0)),
    {
        let ghost m0 = self.passive_geosphere.chunk_map@;
        let mut r: Vec<PointCluster> = Vec::new();
        let mut i: usize = 0;
        while i < p_insertions.len()
            invariant
                i <= p_insertions@.len(),
                self.passive_geosphere.wf(),
                self.passive_geosphere.cube_registry == old(self).passive_geosphere.cube_registry,
                m0 == old(self).passive_geosphere.chunk_map@,
                forall|j: int| 0 <= j < p_insertions@.len() ==> chunk_in_range(#[trigger] p_insertions@[j].key.0),
                self.passive_geosphere.chunk_map@ == inserted_chunks(m0, p_insertions@.take(i as int)),
                r@ == p_insertions@.take(i as int).map_values(|u: ChunkUpdateMessage| chunk_cluster(u.key.0)),
            decreases p_insertions@.len() - i,
        {
            let u = p_insertions[i];
            proof {
                assert(p_insertions@.take(i + 1).drop_last() =~= p_insertions@.take(i as int));
                assert(p_insertions@.take(i + 1).last() == u);
            }
            let (action, _) = self.poll(ConsumerEvent::ChunkInsertion(u));
            match action {
                ConsumerAction::PurgeSpectatorCluster(c) => r.push(c),
                _ => {},
            }
            proof {
                assert(r@ =~= p_insertions@.take(i + 1).map_values(|u: ChunkUpdateMessage| chunk_cluster(u.key.0)));
            }
            i = i + 1;
        }
        proof {
            assert(p_insertions@.take(p_insertions@.len() as int) =~= p_insertions@);
        }
        let ghost m1 = self.passive_geosphere.chunk_map@;
        let mut j: usize = 0;
        while j < p_removals.len()
            invariant
                j <= p_removals@.len(),
                self.passive_geosphere.wf(),
                self.passive_geosphere.cube_registry == old(self).passive_geosphere.cube_registry,
                self.passive_geosphere.chunk_map@ == removed_chunks(m1, p_removals@.take(j as int)),
            decreases p_removals@.len() - j,
        {
            let k = p_removals[j];
            proof {
                assert(p_removals@.take(j + 1).drop_last() =~= p_removals@.take(j as int));
                assert(p_removals@.take(j + 1).last() == k);
            }
            self.poll(ConsumerEvent::ChunkRemoval(k));
            j = j + 1;
        }
        proof {
            assert(p_removals@.take(p_removals@.len() as int) =~= p_removals@);
        }
        r
    }
}

/// What a client is made from when it does not authenticate. Times are in milliseconds.
pub struct UnsecureConsumerBuilder {
    pub client_overriding_current_time_millis: Option<u64>,
    pub client_overriding_protocol_id: Option<u64>,
    pub client_user_data: Option<[u8; 256]>,
    pub connection_available_bytes_per_tick: u64,
    pub poll_interval_millis: u64,
    pub blocking_poll_interval_millis: u64,
}

impl UnsecureConsumerBuilder {
    /// No overrides, 60000 bytes per tick, polls every 16 milliseconds.
    pub open spec fn has_default_settings(&self) -> bool {
        &&& self.client_overriding_current_time_millis is None
        &&& self.client_overriding_protocol_id is None
        &&& self.client_user_data is None
        &&& self.connection_available_bytes_per_tick == 60_000
        &&& self.poll_interval_millis == 16
        &&& self.blocking_poll_interval_millis == 16
    }
}

impl Default for UnsecureConsumerBuilder {
    /// No overrides, 60000 bytes per tick, polls every 16 milliseconds.
    fn default() -> (r: UnsecureConsumerBuilder)
        ensures
            r.has_default_settings(),
    {
        UnsecureConsumerBuilder {
            client_overriding_current_time_millis: None,
            client_overriding_protocol_id: None,
            client_user_data: None,
            connection_available_bytes_per_tick: 60_000,
            poll_interval_millis: 16,
            blocking_poll_interval_millis: 16,
        }
    }
}

impl UnsecureConsumerBuilder {
    /// The settings of the client's connection: its bytes per tick, the server sending on the
    /// provider channels and the client on the consumer channels.
    pub fn connection_config(&self) -> (r: ConnectionConfig)
        ensures
            r.available_bytes_per_tick == self.connection_available_bytes_per_tick,
            r.server_channels_config@ == provider_channels(),
            r.client_channels_config@ == consumer_channels(),
    {
        ConnectionConfig {
            available_bytes_per_tick: self.connection_available_bytes_per_tick,
            server_channels_config: ProviderChannel::channels_config(),
            client_channels_config: ConsumerChannel::channels_config(),
        }
    }
}

/// What a client does next to obtain the kinds of cubes over the request-and-answer channels.
#[derive(Clone, Copy, Debug, PartialEq, Eq, Structural)]
pub enum CubeRegistryStep {
    /// Not connected: nothing, and no kinds of cubes yet.
    Wait,
    /// Send a request for the kinds of cubes on the cube-registry channel; none yet.
    SendRequest,
    /// A request is out: read the cube-registry channel and hand what came to
    /// `Consumer::cube_registry_received`.
    Receive,
}

/// A client of the request-and-answer protocol: whether its request for the kinds of cubes is
/// out.
pub struct Consumer {
    is_cube_registry_requested: bool,
}

impl Consumer {
    /// Whether a request for the kinds of cubes is out and not answered.
    pub closed spec fn cube_registry_requested(&self) -> bool {
        self.is_cube_registry_requested
    }

    /// A client with no request out.
    pub fn new() -> (r: Consumer)
        ensures
            !r.cube_registry_requested(),
    {
        Consumer { is_cube_registry_requested: false }
    }

    /// The next step towards the kinds of cubes: nothing while not connected; a request when
    /// none is out, which is then out; else a read of the answer.
    pub fn cube_registry(&mut self, p_connected: bool) -> (r: CubeRegistryStep)
        ensures
            !p_connected ==> r == CubeRegistryStep::Wait && final(self).cube_registry_requested() == old(
                self,
            ).cube_registry_requested(),
            p_connected && !old(self).cube_registry_requested() ==> r == CubeRegistryStep::SendRequest
                && final(self).cube_registry_requested(),
            p_connected && old(self).cube_registry_requested() ==> r == CubeRegistryStep::Receive
                && final(self).cube_registry_requested(),
    {
        if !p_connected {
            return CubeRegistryStep::Wait;
        }
        if !self.is_cube_registry_requested {
            self.is_cube_registry_requested = true;
            return CubeRegistryStep::SendRequest;
        }
        CubeRegistryStep::Receive
    }

    /// Takes what the read of the cube-registry channel gave: an answer gives its kinds of
    /// cubes and closes the request; nothing gives nothing and leaves the request out.
    pub fn cube_registry_received(&mut self, p_message: Option<CubeRegistryOutputMessage>) -> (r: Option<
        CubeRegistry,
    >)
        ensures
            match p_message {
                Some(m) => r == Some(m.cube_registry) && !final(self).cube_registry_requested(),
                None => r is None && final(self).cube_registry_requested() == old(
                    self,
                ).cube_registry_requested(),
            },
    {
        match p_message {
            Some(message) => {
                self.is_cube_registry_requested = false;
                Some(message.cube_registry)
            },
            None => None,
        }
    }
}

} // verus!
