use vstd::prelude::*;
use crate::biosphere::{Player, Spatial};
use crate::geosphere::chunk::{Chunk, ChunkKey};
use crate::geosphere::cube::CubeRegistry;
use crate::net::channel_config_builder::{
    channel_config_large, channel_config_reliable_unordered, channel_config_unreliable,
    memory_budget, ChannelConfig, Message, ReliableOrderedMessage, ReliableUnorderedMessage,
    SendType, DEFAULT_RESEND_TIME_MILLIS,
};
use crate::net::large_parcel::LargeParcelMessage;

verus! {

/// What a new client receives first: the kinds of cubes, the chunks around it, and itself.
pub struct PrepareMessage {
    pub cube_registry: CubeRegistry,
    pub chunk_updates: Vec<ChunkUpdateMessage>,
    pub self_insertion: PlayerInsertionMessage,
}

/// Preparation messages a channel holds at most.
pub const PREPARE_MAX_COUNT: usize = 512;

impl Message for PrepareMessage {
    fn max_count() -> (r: usize) {
        PREPARE_MAX_COUNT
    }

    open spec fn spec_max_count() -> usize {
        PREPARE_MAX_COUNT
    }
}

impl ReliableUnorderedMessage for PrepareMessage {
    fn resend_time_millis() -> (r: u64) {
        DEFAULT_RESEND_TIME_MILLIS
    }

    open spec fn spec_resend_time_millis() -> u64 {
        DEFAULT_RESEND_TIME_MILLIS
    }
}

impl ReliableOrderedMessage for PrepareMessage {}

/// A chunk, sent whole.
#[derive(Clone, Copy, Debug)]
pub struct ChunkUpdateMessage {
    pub key: ChunkKey,
    pub chunk: Chunk,
}

/// Chunk messages a channel holds at most.
pub const CHUNK_UPDATE_MAX_COUNT: usize = 512;

impl Message for ChunkUpdateMessage {
    fn max_count() -> (r: usize) {
        CHUNK_UPDATE_MAX_COUNT
    }

    open spec fn spec_max_count() -> usize {
        CHUNK_UPDATE_MAX_COUNT
    }
}

impl ReliableUnorderedMessage for ChunkUpdateMessage {
    fn resend_time_millis() -> (r: u64) {
        DEFAULT_RESEND_TIME_MILLIS
    }

    open spec fn spec_resend_time_millis() -> u64 {
        DEFAULT_RESEND_TIME_MILLIS
    }
}

/// A player that joined, and where it is.
pub struct PlayerInsertionMessage {
    pub player: Player,
    pub spatial: Spatial,
}

/// Player insertion messages a channel holds at most.
pub const PLAYER_INSERTION_MAX_COUNT: usize = 256;

impl Message for PlayerInsertionMessage {
    fn max_count() -> (r: usize) {
        PLAYER_INSERTION_MAX_COUNT
    }

    open spec fn spec_max_count() -> usize {
        PLAYER_INSERTION_MAX_COUNT
    }
}

impl ReliableUnorderedMessage for PlayerInsertionMessage {
    fn resend_time_millis() -> (r: u64) {
        DEFAULT_RESEND_TIME_MILLIS
    }

    open spec fn spec_resend_time_millis() -> u64 {
        DEFAULT_RESEND_TIME_MILLIS
    }
}

/// Where a player is now.
pub struct PlayerUpdateMessage {
    pub player: Player,
    pub spatial: Spatial,
}

/// Player update messages a channel holds at most.
pub const PLAYER_UPDATE_MAX_COUNT: usize = 1024;

impl Message for PlayerUpdateMessage {
    fn max_count() -> (r: usize) {
        PLAYER_UPDATE_MAX_COUNT
    }

    open spec fn spec_max_count() -> usize {
        PLAYER_UPDATE_MAX_COUNT
    }
}

/// The settings of the server's channels, in order.
pub open spec fn provider_channels() -> Seq<ChannelConfig> {
    seq![
        ChannelConfig {
            channel_id: 0,
            max_memory_usage_bytes: memory_budget(vstd::layout::size_of::<LargeParcelMessage>(), PREPARE_MAX_COUNT as nat),
            send_type: SendType::ReliableOrdered { resend_time_millis: DEFAULT_RESEND_TIME_MILLIS },
        },
        ChannelConfig {
            channel_id: 1,
            max_memory_usage_bytes: memory_budget(vstd::layout::size_of::<ChunkUpdateMessage>(), CHUNK_UPDATE_MAX_COUNT as nat),
            send_type: SendType::ReliableUnordered { resend_time_millis: DEFAULT_RESEND_TIME_MILLIS },
        },
        ChannelConfig {
            channel_id: 2,
            max_memory_usage_bytes: memory_budget(vstd::layout::size_of::<PlayerInsertionMessage>(), PLAYER_INSERTION_MAX_COUNT as nat),
            send_type: SendType::ReliableUnordered { resend_time_millis: DEFAULT_RESEND_TIME_MILLIS },
        },
        ChannelConfig {
            channel_id: 3,
            max_memory_usage_bytes: memory_budget(vstd::layout::size_of::<PlayerUpdateMessage>(), PLAYER_UPDATE_MAX_COUNT as nat),
            send_type: SendType::Unreliable,
        },
    ]
}

/// The channels on which the server sends.
#[derive(Clone, Copy, Debug, PartialEq, Eq, Structural)]
pub enum Channel {
    PrepareMessage,
    ChunkUpdate,
    PlayerInsertion,
    PlayerUpdate,
}

impl Channel {
    /// The number of the channel.
    pub open spec fn spec_channel_id(&self) -> u8 {
        match self {
            Channel::PrepareMessage => 0,
            Channel::ChunkUpdate => 1,
            Channel::PlayerInsertion => 2,
            Channel::PlayerUpdate => 3,
        }
    }

    /// The number of the channel: 0 to 3 in the order of the variants.
    pub fn channel_id(&self) -> (r: u8)
        ensures
            r == self.spec_channel_id(),
    {
        match self {
            Self::PrepareMessage => 0,
            Self::ChunkUpdate => 1,
            Self::PlayerInsertion => 2,
            Self::PlayerUpdate => 3,
        }
    }

    /// The settings of the server's channels: preparation in large parcels, chunks and player
    /// insertions reliable, player updates unreliable.
    pub fn channels_config() -> (r: Vec<ChannelConfig>)
        ensures
            r@ == provider_channels(),
    {
        let mut r: Vec<ChannelConfig> = Vec::new();
        r.push(channel_config_large::<PrepareMessage>(u8::from(Self::PrepareMessage)));
        r.push(channel_config_reliable_unordered::<ChunkUpdateMessage>(u8::from(Self::ChunkUpdate)));
        r.push(channel_config_reliable_unordered::<PlayerInsertionMessage>(u8::from(Self::PlayerInsertion)));
        r.push(channel_config_unreliable::<PlayerUpdateMessage>(u8::from(Self::PlayerUpdate)));
        r
    }
}

impl From<Channel> for u8 {
    fn from(p_value: Channel) -> (r: u8) {
        p_value.channel_id()
    }
}

impl vstd::std_specs::convert::FromSpecImpl<Channel> for u8 {
    open spec fn obeys_from_spec() -> bool {
        true
    }

    open spec fn from_spec(v: Channel) -> u8 {
        v.spec_channel_id()
    }
}

} // verus!
