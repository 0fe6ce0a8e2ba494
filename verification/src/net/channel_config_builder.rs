use vstd::prelude::*;
use std::marker::PhantomData;
use crate::net::large_parcel::LargeParcelMessage;

verus! {

/// How a channel delivers its messages; resend times are in milliseconds.
#[derive(Clone, Copy, Debug, PartialEq, Eq, Structural)]
pub enum SendType {
    Unreliable,
    ReliableUnordered { resend_time_millis: u64 },
    ReliableOrdered { resend_time_millis: u64 },
}

/// The settings of one network channel.
#[derive(Clone, Copy, Debug, PartialEq, Eq, Structural)]
pub struct ChannelConfig {
    pub channel_id: u8,
    pub max_memory_usage_bytes: usize,
    pub send_type: SendType,
}

/// The settings of a connection: the bytes it may send per tick and the channels each side
/// sends on.
pub struct ConnectionConfig {
    pub available_bytes_per_tick: u64,
    pub server_channels_config: Vec<ChannelConfig>,
    pub client_channels_config: Vec<ChannelConfig>,
}

/// A message type that a channel carries.
pub trait Message {
    /// How many messages of this type a channel holds at most.
    fn max_count() -> (r: usize)
        ensures
            r == Self::spec_max_count(),
    ;

    spec fn spec_max_count() -> usize;
}

/// A message type that a channel resends until it arrives.
pub trait ReliableUnorderedMessage: Message {
    /// How long to wait, in milliseconds, before sending a message again.
    fn resend_time_millis() -> (r: u64)
        ensures
            r == Self::spec_resend_time_millis(),
    ;

    spec fn spec_resend_time_millis() -> u64;
}

/// A message type that a channel resends until it arrives, and hands out in order.
pub trait ReliableOrderedMessage: ReliableUnorderedMessage {}

/// The number of messages that a channel holds unless a message type says otherwise.
pub const DEFAULT_MAX_COUNT: usize = 10;

/// The resend time, in milliseconds, unless a message type says otherwise.
pub const DEFAULT_RESEND_TIME_MILLIS: u64 = 500;

/// `size * count` wrapped to the width of `usize`.
pub open spec fn memory_budget(size: nat, count: nat) -> usize {
    ((size * count) % (usize::MAX as nat + 1)) as usize
}

fn budget(size: usize, count: usize) -> (r: usize)
    ensures
        r == memory_budget(size as nat, count as nat),
        size * count <= usize::MAX ==> r == size * count,
{
    proof {
        if size * count <= usize::MAX {
            assert((size as nat * count as nat) % (usize::MAX as nat + 1) == size * count) by (nonlinear_arith)
                requires
                    size * count <= usize::MAX,
            ;
        }
    }
    size.wrapping_mul(count)
}

/// Builds the settings of the channel `channel` for messages of type `M`; the memory limit is
/// the size of `M` times its maximum count.
pub struct ChannelConfigBuilder<M: Message> {
    pub channel: u8,
    pub message_phantom: PhantomData<M>,
}

impl<M: Message> ChannelConfigBuilder<M> {
    pub fn new(p_channel: u8) -> (r: Self)
        ensures
            r.channel == p_channel,
    {
        Self { channel: p_channel, message_phantom: PhantomData }
    }

    /// An unreliable channel.
    pub fn build_unreliable(self) -> (r: ChannelConfig)
        ensures
            r.channel_id == self.channel,
            r.max_memory_usage_bytes == memory_budget(
                vstd::layout::size_of::<M>(),
                M::spec_max_count() as nat,
            ),
            r.send_type == SendType::Unreliable,
    {
        ChannelConfig {
            channel_id: self.channel,
            max_memory_usage_bytes: budget(core::mem::size_of::<M>(), M::max_count()),
            send_type: SendType::Unreliable,
        }
    }
}

impl<M: ReliableUnorderedMessage> ChannelConfigBuilder<M> {
    /// A channel that resends until delivery, in any order.
    pub fn build_reliable_unordered(self) -> (r: ChannelConfig)
        ensures
            r.channel_id == self.channel,
            r.max_memory_usage_bytes == memory_budget(
                vstd::layout::size_of::<M>(),
                M::spec_max_count() as nat,
            ),
            r.send_type == (SendType::ReliableUnordered {
                resend_time_millis: M::spec_resend_time_millis(),
            }),
    {
        ChannelConfig {
            channel_id: self.channel,
            max_memory_usage_bytes: budget(core::mem::size_of::<M>(), M::max_count()),
            send_type: SendType::ReliableUnordered { resend_time_millis: M::resend_time_millis() },
        }
    }
}

impl<M: ReliableOrderedMessage> ChannelConfigBuilder<M> {
    /// A channel that resends until delivery and delivers in order.
    pub fn build_reliable_ordered(self) -> (r: ChannelConfig)
        ensures
            r.channel_id == self.channel,
            r.max_memory_usage_bytes == memory_budget(
                vstd::layout::size_of::<M>(),
                M::spec_max_count() as nat,
            ),
            r.send_type == (SendType::ReliableOrdered {
                resend_time_millis: M::spec_resend_time_millis(),
            }),
    {
        ChannelConfig {
            channel_id: self.channel,
            max_memory_usage_bytes: budget(core::mem::size_of::<M>(), M::max_count()),
            send_type: SendType::ReliableOrdered { resend_time_millis: M::resend_time_millis() },
        }
    }

    /// An ordered reliable channel that carries `M` cut into large parcels: the memory limit is
    /// the size of a parcel message times the maximum count of `M`.
    pub fn build_large(self) -> (r: ChannelConfig)
        ensures
            r.channel_id == self.channel,
            r.max_memory_usage_bytes == memory_budget(
                vstd::layout::size_of::<LargeParcelMessage>(),
                M::spec_max_count() as nat,
            ),
            r.send_type == (SendType::ReliableOrdered {
                resend_time_millis: M::spec_resend_time_millis(),
            }),
    {
        ChannelConfig {
            channel_id: self.channel,
            max_memory_usage_bytes: budget(core::mem::size_of::<LargeParcelMessage>(), M::max_count()),
            send_type: SendType::ReliableOrdered { resend_time_millis: M::resend_time_millis() },
        }
    }
}

/// An unreliable channel for `M` on `p_channel_id`.
pub fn channel_config_unreliable<M: Message>(p_channel_id: u8) -> (r: ChannelConfig)
    ensures
        r.channel_id == p_channel_id,
        r.max_memory_usage_bytes == memory_budget(vstd::layout::size_of::<M>(), M::spec_max_count() as nat),
        r.send_type == SendType::Unreliable,
{
    ChannelConfigBuilder::<M>::new(p_channel_id).build_unreliable()
}

/// A reliable unordered channel for `M` on `p_channel_id`.
pub fn channel_config_reliable_unordered<M: ReliableUnorderedMessage>(p_channel_id: u8) -> (r: ChannelConfig)
    ensures
        r.channel_id == p_channel_id,
        r.max_memory_usage_bytes == memory_budget(vstd::layout::size_of::<M>(), M::spec_max_count() as nat),
        r.send_type == (SendType::ReliableUnordered { resend_time_millis: M::spec_resend_time_millis() }),
{
    ChannelConfigBuilder::<M>::new(p_channel_id).build_reliable_unordered()
}

/// A reliable ordered channel for `M` on `p_channel_id`.
pub fn channel_config_reliable_ordered<M: ReliableOrderedMessage>(p_channel_id: u8) -> (r: ChannelConfig)
    ensures
        r.channel_id == p_channel_id,
        r.max_memory_usage_bytes == memory_budget(vstd::layout::size_of::<M>(), M::spec_max_count() as nat),
        r.send_type == (SendType::ReliableOrdered { resend_time_millis: M::spec_resend_time_millis() }),
{
    ChannelConfigBuilder::<M>::new(p_channel_id).build_reliable_ordered()
}

/// A reliable ordered channel that carries `M` in large parcels on `p_channel_id`.
pub fn channel_config_large<M: ReliableOrderedMessage>(p_channel_id: u8) -> (r: ChannelConfig)
    ensures
        r.channel_id == p_channel_id,
        r.max_memory_usage_bytes == memory_budget(
            vstd::layout::size_of::<LargeParcelMessage>(),
            M::spec_max_count() as nat,
        ),
        r.send_type == (SendType::ReliableOrdered { resend_time_millis: M::spec_resend_time_millis() }),
{
    ChannelConfigBuilder::<M>::new(p_channel_id).build_large()
}

} // verus!
