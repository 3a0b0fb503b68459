//! Logical channels of the replication protocol and their delivery policies.
//!
//! Each direction has a fixed, ordered list of channels. A channel's numeric
//! identifier is part of the wire contract and never changes.

use vstd::prelude::*;

verus! {

/// Identifier that both peers must present for a connection to be accepted.
pub const PROTOCOL_ID: u64 = 7;

/// Bytes that a connection may send per tick, over all of its channels.
pub const AVAILABLE_BYTES_PER_TICK: u64 = 1048576;

/// In-flight memory budget of every client-to-server channel.
pub const CLIENT_CHANNEL_BUDGET: usize = 5242880;

/// In-flight memory budget of every server-to-client channel.
pub const SERVER_CHANNEL_BUDGET: usize = 10485760;

/// Minimum resend interval of lifecycle messages, in milliseconds.
pub const SERVER_MESSAGES_RESEND_MILLIS: u64 = 200;

/// Channels on which a client sends to the server.
#[derive(Clone, Copy, Debug, PartialEq, Eq, Structural)]
pub enum ClientChannel {
    Input,
    Command,
    Position,
}

/// Channels on which the server sends to its clients.
#[derive(Clone, Copy, Debug, PartialEq, Eq, Structural)]
pub enum ServerChannel {
    ServerMessages,
    NetworkedEntities,
}

/// Delivery guarantee of a channel.
#[derive(Clone, Copy, Debug, PartialEq, Eq, Structural)]
pub enum SendType {
    /// Messages may be lost or arrive out of order.
    Unreliable,
    /// Messages arrive, and in the order in which they were sent; a lost
    /// message is sent again no sooner than `resend_time_millis` after the
    /// last attempt.
    ReliableOrdered { resend_time_millis: u64 },
}

/// One channel of a connection.
#[derive(Clone, Copy, Debug, PartialEq, Eq, Structural)]
pub struct ChannelConfig {
    /// Identifier of the channel, unique within its direction.
    pub channel_id: u8,
    /// Bytes the channel may hold unacknowledged before it is full.
    pub max_memory_usage_bytes: usize,
    /// Delivery guarantee of the channel.
    pub send_type: SendType,
}

/// The channels of a connection, in both directions.
pub struct ConnectionConfig {
    pub available_bytes_per_tick: u64,
    pub client_channels_config: Vec<ChannelConfig>,
    pub server_channels_config: Vec<ChannelConfig>,
}

/// No two channels of `channels` share an identifier.
pub open spec fn distinct_channel_ids(channels: Seq<ChannelConfig>) -> bool {
    forall|i: int, j: int|
        0 <= i < j < channels.len() ==> channels[i].channel_id != channels[j].channel_id
}

/// Some channel of `channels` has the identifier `id`.
pub open spec fn has_channel(channels: Seq<ChannelConfig>, id: u8) -> bool {
    exists|i: int| 0 <= i < channels.len() && #[trigger] channels[i].channel_id == id
}

impl ClientChannel {
    /// The channel's identifier on the wire.
    pub open spec fn spec_id(self) -> u8 {
        match self {
            ClientChannel::Command => 0,
            ClientChannel::Input => 1,
            ClientChannel::Position => 3,
        }
    }

    /// The client-to-server channels, in priority order.
    pub open spec fn spec_channels_config() -> Seq<ChannelConfig> {
        seq![
            ChannelConfig {
                channel_id: 1,
                max_memory_usage_bytes: CLIENT_CHANNEL_BUDGET,
                send_type: SendType::ReliableOrdered { resend_time_millis: 0 },
            },
            ChannelConfig {
                channel_id: 0,
                max_memory_usage_bytes: CLIENT_CHANNEL_BUDGET,
                send_type: SendType::ReliableOrdered { resend_time_millis: 0 },
            },
            ChannelConfig {
                channel_id: 3,
                max_memory_usage_bytes: CLIENT_CHANNEL_BUDGET,
                send_type: SendType::ReliableOrdered { resend_time_millis: 0 },
            },
        ]
    }

    /// The channel's identifier on the wire.
    pub fn id(self) -> (id: u8)
        ensures
            id == self.spec_id(),
    {
        match self {
            ClientChannel::Command => 0,
            ClientChannel::Input => 1,
            ClientChannel::Position => 3,
        }
    }

    /// The client-to-server channels: `Input`, `Command` and `Position`, in
    /// this order, all reliable and ordered.
    pub fn channels_config() -> (channels: Vec<ChannelConfig>)
        ensures
            channels@ == Self::spec_channels_config(),
    {
        let reliable = SendType::ReliableOrdered { resend_time_millis: 0 };
        let mut channels: Vec<ChannelConfig> = Vec::new();
        channels.push(
            ChannelConfig {
                channel_id: ClientChannel::Input.id(),
                max_memory_usage_bytes: CLIENT_CHANNEL_BUDGET,
                send_type: reliable,
            },
        );
        channels.push(
            ChannelConfig {
                channel_id: ClientChannel::Command.id(),
                max_memory_usage_bytes: CLIENT_CHANNEL_BUDGET,
                send_type: reliable,
            },
        );
        channels.push(
            ChannelConfig {
                channel_id: ClientChannel::Position.id(),
                max_memory_usage_bytes: CLIENT_CHANNEL_BUDGET,
                send_type: reliable,
            },
        );
        assert(channels@ =~= Self::spec_channels_config());
        channels
    }
}

impl From<ClientChannel> for u8 {
    fn from(channel_id: ClientChannel) -> (id: u8) {
        channel_id.id()
    }
}

impl vstd::std_specs::convert::FromSpecImpl<ClientChannel> for u8 {
    open spec fn obeys_from_spec() -> bool {
        true
    }

    open spec fn from_spec(channel_id: ClientChannel) -> u8 {
        channel_id.spec_id()
    }
}

impl ServerChannel {
    /// The channel's identifier on the wire.
    pub open spec fn spec_id(self) -> u8 {
        match self {
            ServerChannel::NetworkedEntities => 0,
            ServerChannel::ServerMessages => 1,
        }
    }

    /// The server-to-client channels, in priority order.
    pub open spec fn spec_channels_config() -> Seq<ChannelConfig> {
        seq![
            ChannelConfig {
                channel_id: 0,
                max_memory_usage_bytes: SERVER_CHANNEL_BUDGET,
                send_type: SendType::Unreliable,
            },
            ChannelConfig {
                channel_id: 1,
                max_memory_usage_bytes: SERVER_CHANNEL_BUDGET,
                send_type: SendType::ReliableOrdered {
                    resend_time_millis: SERVER_MESSAGES_RESEND_MILLIS,
                },
            },
        ]
    }

    /// The channel's identifier on the wire.
    pub fn id(self) -> (id: u8)
        ensures
            id == self.spec_id(),
    {
        match self {
            ServerChannel::NetworkedEntities => 0,
            ServerChannel::ServerMessages => 1,
        }
    }

    /// The server-to-client channels: `NetworkedEntities`, unreliable, then
    /// `ServerMessages`, reliable and ordered with a bounded resend interval.
    pub fn channels_config() -> (channels: Vec<ChannelConfig>)
        ensures
            channels@ == Self::spec_channels_config(),
    {
        let mut channels: Vec<ChannelConfig> = Vec::new();
        channels.push(
            ChannelConfig {
                channel_id: ServerChannel::NetworkedEntities.id(),
                max_memory_usage_bytes: SERVER_CHANNEL_BUDGET,
                send_type: SendType::Unreliable,
            },
        );
        channels.push(
            ChannelConfig {
                channel_id: ServerChannel::ServerMessages.id(),
                max_memory_usage_bytes: SERVER_CHANNEL_BUDGET,
                send_type: SendType::ReliableOrdered {
                    resend_time_millis: SERVER_MESSAGES_RESEND_MILLIS,
                },
            },
        );
        assert(channels@ =~= Self::spec_channels_config());
        channels
    }
}

impl From<ServerChannel> for u8 {
    fn from(channel_id: ServerChannel) -> (id: u8) {
        channel_id.id()
    }
}

impl vstd::std_specs::convert::FromSpecImpl<ServerChannel> for u8 {
    open spec fn obeys_from_spec() -> bool {
        true
    }

    open spec fn from_spec(channel_id: ServerChannel) -> u8 {
        channel_id.spec_id()
    }
}

impl ConnectionConfig {
    /// The configuration that `connection_config` returns.
    pub open spec fn is_protocol(&self) -> bool {
        &&& self.available_bytes_per_tick == AVAILABLE_BYTES_PER_TICK
        &&& self.client_channels_config@ == ClientChannel::spec_channels_config()
        &&& self.server_channels_config@ == ServerChannel::spec_channels_config()
    }

    /// No direction lists a channel identifier twice.
    pub open spec fn wf(&self) -> bool {
        &&& distinct_channel_ids(self.client_channels_config@)
        &&& distinct_channel_ids(self.server_channels_config@)
    }
}

/// The connection configuration of the protocol, the same on both peers.
pub fn connection_config() -> (config: ConnectionConfig)
    ensures
        config.is_protocol(),
{
    ConnectionConfig {
        available_bytes_per_tick: AVAILABLE_BYTES_PER_TICK,
        client_channels_config: ClientChannel::channels_config(),
        server_channels_config: ServerChannel::channels_config(),
    }
}

/// Every channel of the protocol is configured exactly once in its
/// direction: the identifiers of a direction are pairwise distinct, and each
/// member of `ClientChannel` and of `ServerChannel` names one of them.
pub proof fn lemma_protocol_channels(
    config: ConnectionConfig,
    client: ClientChannel,
    server: ServerChannel,
)
    requires
        config.is_protocol(),
    ensures
        config.wf(),
        has_channel(config.client_channels_config@, client.spec_id()),
        has_channel(config.server_channels_config@, server.spec_id()),
        config.client_channels_config@.len() == 3,
        config.server_channels_config@.len() == 2,
{
    let cs = config.client_channels_config@;
    let ss = config.server_channels_config@;
    match client {
        ClientChannel::Input => {
            assert(cs[0].channel_id == client.spec_id());
        },
        ClientChannel::Command => {
            assert(cs[1].channel_id == client.spec_id());
        },
        ClientChannel::Position => {
            assert(cs[2].channel_id == client.spec_id());
        },
    }
    match server {
        ServerChannel::NetworkedEntities => {
            assert(ss[0].channel_id == server.spec_id());
        },
        ServerChannel::ServerMessages => {
            assert(ss[1].channel_id == server.spec_id());
        },
    }
}

/// Lifecycle messages travel reliably and in order; entity snapshots travel
/// unreliably; everything a client sends travels reliably and in order.
pub proof fn lemma_delivery_policies(config: ConnectionConfig, i: int)
    requires
        config.is_protocol(),
    ensures
        0 <= i < 3 ==> config.client_channels_config@[i].send_type
            == (SendType::ReliableOrdered { resend_time_millis: 0 }),
        config.server_channels_config@[0].channel_id == ServerChannel::NetworkedEntities.spec_id(),
        config.server_channels_config@[0].send_type == SendType::Unreliable,
        config.server_channels_config@[1].channel_id == ServerChannel::ServerMessages.spec_id(),
        config.server_channels_config@[1].send_type == (SendType::ReliableOrdered {
            resend_time_millis: SERVER_MESSAGES_RESEND_MILLIS,
        }),
{
}

} // verus!
