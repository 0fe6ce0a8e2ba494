use vstd::prelude::*;
use crate::net::channel_config_builder::{
    channel_config_reliable_ordered, channel_config_unreliable, memory_budget, ChannelConfig,
    Message, ReliableOrderedMessage, ReliableUnorderedMessage, SendType, DEFAULT_MAX_COUNT,
    DEFAULT_RESEND_TIME_MILLIS,
};

verus! {

/// Sent by a client once it has taken in the world it was prepared with.
#[derive(Clone, Copy, Debug)]
pub struct ReadyMessage {}

impl Message for ReadyMessage {
    fn max_count() -> (r: usize) {
        DEFAULT_MAX_COUNT
    }

    open spec fn spec_max_count() -> usize {
        DEFAULT_MAX_COUNT
    }
}

impl ReliableUnorderedMessage for ReadyMessage {
    fn resend_time_millis() -> (r: u64) {
        DEFAULT_RESEND_TIME_MILLIS
    }

    open spec fn spec_resend_time_millis() -> u64 {
        DEFAULT_RESEND_TIME_MILLIS
    }
}

impl ReliableOrderedMessage for ReadyMessage {}

/// The direction in which a player wants to move.
#[derive(Clone, Copy, Debug)]
pub struct PlayerInputMessage {
    pub direction: glam::Vec3,
}

/// Messages of player input a channel holds at most.
pub const PLAYER_INPUT_MAX_COUNT: usize = 1024;

impl Message for PlayerInputMessage {
    fn max_count() -> (r: usize) {
        PLAYER_INPUT_MAX_COUNT
    }

    open spec fn spec_max_count() -> usize {
        PLAYER_INPUT_MAX_COUNT
    }
}

/// The settings of the client's channels, in order.
pub open spec fn consumer_channels() -> Seq<ChannelConfig> {
    seq![
        ChannelConfig {
            channel_id: 0,
            max_memory_usage_bytes: memory_budget(vstd::layout::size_of::<ReadyMessage>(), DEFAULT_MAX_COUNT as nat),
            send_type: SendType::ReliableOrdered { resend_time_millis: DEFAULT_RESEND_TIME_MILLIS },
        },
        ChannelConfig {
            channel_id: 1,
            max_memory_usage_bytes: memory_budget(vstd::layout::size_of::<PlayerInputMessage>(), PLAYER_INPUT_MAX_COUNT as nat),
            send_type: SendType::Unreliable,
        },
    ]
}

/// The channels on which a client sends.
#[derive(Clone, Copy, Debug, PartialEq, Eq, Structural)]
pub enum Channel {
    Ready,
    PlayerInput,
}

impl Channel {
    /// The number of the channel.
    pub open spec fn spec_channel_id(&self) -> u8 {
        match self {
            Channel::Ready => 0,
            Channel::PlayerInput => 1,
        }
    }

    /// The number of the channel: 0 for readiness, 1 for player input.
    pub fn channel_id(&self) -> (r: u8)
        ensures
            r == self.spec_channel_id(),
    {
        match self {
            Channel::Ready => 0,
            Channel::PlayerInput => 1,
        }
    }

    /// The settings of the client's channels: readiness reliable and ordered, player input
    /// unreliable.
    pub fn channels_config() -> (r: Vec<ChannelConfig>)
        ensures
            r@ == consumer_channels(),
    {
        let mut r: Vec<ChannelConfig> = Vec::new();
        r.push(channel_config_reliable_ordered::<ReadyMessage>(u8::from(Channel::Ready)));
        r.push(channel_config_unreliable::<PlayerInputMessage>(u8::from(Channel::PlayerInput)));
        r
    }
}

impl From<Channel> for u8 {
    fn from(p_value: Channel) -> (r: u8) {
        p_value.channel_id()
    }
}

impl vstd::std_specs::convert::FromSpecImpl<Channel> for u8 {
    open spec fn obeys_from_spec() -> bool {
        true
    }

    open spec fn from_spec(v: Channel) -> u8 {
        v.spec_channel_id()
    }
}

} // verus!
