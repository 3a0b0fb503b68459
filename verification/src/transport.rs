//! The transport session: what the replication components hand to and take
//! from the connection layer, once per tick.
//!
//! A tick takes everything that is ready from the connection first, applies
//! it, and sends last. Nothing here touches a socket: the connection values
//! queue messages in memory, and whoever owns the socket moves packets
//! between them.

use crate::channel::{
    connection_config, ChannelConfig, ClientChannel, ConnectionConfig, SendType, ServerChannel,
};
use crate::client::{ClientMirror, Reconciled};
use crate::server::{
    addressed_to, lemma_absorb_client, payloads, snapshot_of, ConnectionEvent, Outgoing,
    Recipient, ServerAuthority,
};
use crate::spawn::{in_spawn_region, spawn_translation};
use crate::wire::{PlayerInput, PlayerPosition, Translation};
use vstd::prelude::*;

verus! {

/// A client's end of a connection: `renet::RenetClient`.
#[verifier::external_type_specification]
#[verifier::external_body]
pub struct ExRenetClient(renet::RenetClient);

/// The server's end of all its connections: `renet::RenetServer`.
#[verifier::external_type_specification]
#[verifier::external_body]
pub struct ExRenetServer(renet::RenetServer);

/// The messages that `client` holds ready for delivery on the receive
/// channel `channel`, in the order in which `receive_message` hands them
/// out. A disconnected client hands out nothing: its queues are empty.
pub uninterp spec fn client_inbox(client: renet::RenetClient, channel: u8) -> Seq<Seq<u8>>;

/// The messages that `client` holds queued on the send channel `channel`,
/// oldest first: on a reliable channel those that await acknowledgement, on
/// an unreliable one those that await their packet.
pub uninterp spec fn client_outbox(client: renet::RenetClient, channel: u8) -> Seq<Seq<u8>>;

/// Whether the status of `client` is connected.
pub uninterp spec fn client_connected(client: renet::RenetClient) -> bool;

/// Whether `client` was made with the protocol's channels: it sends on the
/// client channels and receives on the server channels.
pub uninterp spec fn client_speaks_protocol(client: renet::RenetClient) -> bool;

/// The messages from `client_id` that `server` holds ready for delivery on
/// the receive channel `channel`, in the order in which `receive_message`
/// hands them out. The queues of a client without a connection, or with a
/// connection that is no longer up, are empty.
pub uninterp spec fn server_inbox(server: renet::RenetServer, client_id: u64, channel: u8) -> Seq<
    Seq<u8>,
>;

/// The messages for `client_id` that `server` holds queued on the send
/// channel `channel`, oldest first: on a reliable channel those that await
/// acknowledgement, on an unreliable one those that await their packet. A
/// client without a connection has none.
pub uninterp spec fn server_outbox(server: renet::RenetServer, client_id: u64, channel: u8) -> Seq<
    Seq<u8>,
>;

/// The connection events that `server` holds, oldest first.
pub uninterp spec fn server_events(server: renet::RenetServer) -> Seq<ConnectionEvent>;

/// The clients whose connection to `server` is up.
pub uninterp spec fn server_clients(server: renet::RenetServer) -> Set<u64>;

/// Whether `server` was made with the protocol's channels: each of its
/// connections sends on the server channels and receives on the client
/// channels.
pub uninterp spec fn server_speaks_protocol(server: renet::RenetServer) -> bool;

/// `id` identifies a client-to-server channel.
pub open spec fn is_client_channel(id: u8) -> bool {
    exists|channel: ClientChannel| id == channel.spec_id()
}

/// `id` identifies a server-to-client channel.
pub open spec fn is_server_channel(id: u8) -> bool {
    exists|channel: ServerChannel| id == channel.spec_id()
}

/// Everything that `server` holds ready for delivery, by client and channel.
pub open spec fn server_mail(server: renet::RenetServer) -> Map<(u64, u8), Seq<Seq<u8>>> {
    Map::new(|key: (u64, u8)| true, |key: (u64, u8)| server_inbox(server, key.0, key.1))
}

/// Everything that `server` holds queued for sending, by client and channel.
pub open spec fn server_queue(server: renet::RenetServer) -> Map<(u64, u8), Seq<Seq<u8>>> {
    Map::new(|key: (u64, u8)| true, |key: (u64, u8)| server_outbox(server, key.0, key.1))
}

/// What a send of `payload` to `client_id` on `channel` does to the queue
/// of that client and channel, and to its connection. A client whose
/// connection is not up is passed over. Otherwise the payload joins the
/// queue, or it exceeds the memory budget of the channel: then nothing is
/// queued, and a reliable channel takes the connection down.
pub open spec fn accepted(
    before: renet::RenetServer,
    after: renet::RenetServer,
    client_id: u64,
    channel: u8,
    payload: Seq<u8>,
) -> bool {
    let was = server_outbox(before, client_id, channel);
    let is = server_outbox(after, client_id, channel);
    let up = server_clients(after).contains(client_id);
    if server_clients(before).contains(client_id) {
        ||| up && is == was.push(payload)
        ||| is == was && (channel == ServerChannel::ServerMessages.spec_id() ==> !up)
    } else {
        is == was && !up
    }
}

/// What a send of `payload` on the reliable channel `channel` does to the
/// queue of that channel, and to the connection, of a client that is
/// connected: the payload joins the queue, or it exceeds the memory budget
/// of the channel, nothing is queued and the client is disconnected.
pub open spec fn handed_over(
    before: renet::RenetClient,
    after: renet::RenetClient,
    channel: u8,
    payload: Seq<u8>,
) -> bool {
    let was = client_outbox(before, channel);
    let is = client_outbox(after, channel);
    ||| client_connected(after) && is == was.push(payload)
    ||| !client_connected(after) && is == was
}

/// `renet::RenetClient::new`, on the protocol's configuration. The new
/// client is not connected yet, speaks the protocol and holds no message,
/// neither received nor to be sent.
/// The constructor panics where a direction lists a channel twice, which the
/// protocol's configuration does not.
#[verifier::external_body]
fn new_client(config: &ConnectionConfig) -> (client: renet::RenetClient)
    requires
        config.is_protocol(),
    ensures
        client_speaks_protocol(client),
        !client_connected(client),
        forall|channel: u8| (#[trigger] client_inbox(client, channel)).len() == 0,
        forall|channel: u8| (#[trigger] client_outbox(client, channel)).len() == 0,
{
    let convert = |c: &ChannelConfig| renet::ChannelConfig {
        channel_id: c.channel_id,
        max_memory_usage_bytes: c.max_memory_usage_bytes,
        send_type: match c.send_type {
            SendType::Unreliable => renet::SendType::Unreliable,
            SendType::ReliableOrdered { resend_time_millis } => renet::SendType::ReliableOrdered {
                resend_time: std::time::Duration::from_millis(resend_time_millis),
            },
        },
    };
    renet::RenetClient::new(renet::ConnectionConfig {
        available_bytes_per_tick: config.available_bytes_per_tick,
        client_channels_config: config.client_channels_config.iter().map(convert).collect(),
        server_channels_config: config.server_channels_config.iter().map(convert).collect(),
    })
}

/// `renet::RenetServer::new`, on the protocol's configuration. The new
/// server speaks the protocol and has no connection, no event and no
/// message.
#[verifier::external_body]
fn new_server(config: &ConnectionConfig) -> (server: renet::RenetServer)
    requires
        config.is_protocol(),
    ensures
        server_speaks_protocol(server),
        server_events(server) == Seq::<ConnectionEvent>::empty(),
        server_clients(server) == Set::<u64>::empty(),
        forall|client_id: u64, channel: u8|
            (#[trigger] server_inbox(server, client_id, channel)).len() == 0,
        forall|client_id: u64, channel: u8|
            (#[trigger] server_outbox(server, client_id, channel)).len() == 0,
{
    let convert = |c: &ChannelConfig| renet::ChannelConfig {
        channel_id: c.channel_id,
        max_memory_usage_bytes: c.max_memory_usage_bytes,
        send_type: match c.send_type {
            SendType::Unreliable => renet::SendType::Unreliable,
            SendType::ReliableOrdered { resend_time_millis } => renet::SendType::ReliableOrdered {
                resend_time: std::time::Duration::from_millis(resend_time_millis),
            },
        },
    };
    renet::RenetServer::new(renet::ConnectionConfig {
        available_bytes_per_tick: config.available_bytes_per_tick,
        client_channels_config: config.client_channels_config.iter().map(convert).collect(),
        server_channels_config: config.server_channels_config.iter().map(convert).collect(),
    })
}

/// `renet::RenetClient::is_connected`: whether the client's status is
/// connected.
#[verifier::external_body]
fn client_is_connected(client: &renet::RenetClient) -> (connected: bool)
    ensures
        connected == client_connected(*client),
{
    client.is_connected()
}

/// `renet::RenetClient::send_message`: queues `payload` on a send channel.
/// A disconnected client ignores the call. Every channel that a client of
/// the protocol sends on is reliable: a payload that exceeds the memory
/// budget of the channel is not queued and disconnects the client. The
/// other queues and the channels stay as they are. The call panics on a
/// channel that the client does not send on.
#[verifier::external_body]
fn client_send(client: &mut renet::RenetClient, channel: u8, payload: Vec<u8>)
    requires
        client_speaks_protocol(*old(client)),
        is_client_channel(channel),
    ensures
        client_speaks_protocol(*final(client)),
        forall|other: u8|
            other != channel ==> #[trigger] client_outbox(*final(client), other) == client_outbox(
                *old(client),
                other,
            ),
        client_connected(*old(client)) ==> handed_over(
            *old(client),
            *final(client),
            channel,
            payload@,
        ),
{
    client.send_message(channel, payload)
}

/// `renet::RenetClient::receive_message`: takes the next message that is
/// ready on a receive channel, if there is one. The other queues, the
/// status and the channels stay as they are. The call panics on a channel
/// that the client does not receive on.
#[verifier::external_body]
fn client_receive(client: &mut renet::RenetClient, channel: u8) -> (message: Option<Vec<u8>>)
    requires
        client_speaks_protocol(*old(client)),
        is_server_channel(channel),
    ensures
        client_speaks_protocol(*final(client)),
        client_connected(*final(client)) == client_connected(*old(client)),
        forall|other: u8|
            other != channel ==> #[trigger] client_inbox(*final(client), other) == client_inbox(
                *old(client),
                other,
            ),
        match message {
            Some(payload) => {
                &&& client_inbox(*old(client), channel).len() > 0
                &&& payload@ == client_inbox(*old(client), channel)[0]
                &&& client_inbox(*final(client), channel) == client_inbox(
                    *old(client),
                    channel,
                ).drop_first()
            },
            None => {
                &&& client_inbox(*old(client), channel).len() == 0
                &&& client_inbox(*final(client), channel) == client_inbox(*old(client), channel)
            },
        },
{
    client.receive_message(channel).map(|bytes| bytes.to_vec())
}

/// `renet::RenetServer::get_event`: takes the oldest connection event, if
/// there is one. Connections and their queues stay as they are.
#[verifier::external_body]
fn server_next_event(server: &mut renet::RenetServer) -> (event: Option<ConnectionEvent>)
    ensures
        server_speaks_protocol(*final(server)) == server_speaks_protocol(*old(server)),
        server_clients(*final(server)) == server_clients(*old(server)),
        forall|client_id: u64, channel: u8| #[trigger]
            server_inbox(*final(server), client_id, channel) == server_inbox(
                *old(server),
                client_id,
                channel,
            ),
        forall|client_id: u64, channel: u8| #[trigger]
            server_outbox(*final(server), client_id, channel) == server_outbox(
                *old(server),
                client_id,
                channel,
            ),
        match event {
            Some(e) => {
                &&& server_events(*old(server)).len() > 0
                &&& e == server_events(*old(server))[0]
                &&& server_events(*final(server)) == server_events(*old(server)).drop_first()
            },
            None => {
                &&& server_events(*old(server)).len() == 0
                &&& server_events(*final(server)) == server_events(*old(server))
            },
        },
{
    match server.get_event() {
        Some(renet::ServerEvent::ClientConnected { client_id }) => Some(
            ConnectionEvent::Connected { client_id: client_id.raw() },
        ),
        Some(renet::ServerEvent::ClientDisconnected { client_id, .. }) => Some(
            ConnectionEvent::Disconnected { client_id: client_id.raw() },
        ),
        None => None,
    }
}

/// `renet::RenetServer::clients_id`: the clients whose connection is up,
/// each once, in no particular order.
#[verifier::external_body]
fn server_connected_clients(server: &renet::RenetServer) -> (clients: Vec<u64>)
    ensures
        clients@.no_duplicates(),
        clients@.to_set() == server_clients(*server),
{
    server.clients_id().into_iter().map(|id| id.raw()).collect()
}

/// `renet::RenetServer::receive_message`: takes the next message that is
/// ready from a client on a receive channel, if there is one. The other
/// queues, the connections and the events stay as they are. The call panics
/// on a channel that the server does not receive on.
#[verifier::external_body]
fn server_receive(server: &mut renet::RenetServer, client_id: u64, channel: u8) -> (message:
    Option<Vec<u8>>)
    requires
        server_speaks_protocol(*old(server)),
        is_client_channel(channel),
    ensures
        server_speaks_protocol(*final(server)),
        server_events(*final(server)) == server_events(*old(server)),
        server_clients(*final(server)) == server_clients(*old(server)),
        forall|other: u64, on: u8|
            (other != client_id || on != channel) ==> #[trigger] server_inbox(
                *final(server),
                other,
                on,
            ) == server_inbox(*old(server), other, on),
        forall|other: u64, on: u8| #[trigger]
            server_outbox(*final(server), other, on) == server_outbox(*old(server), other, on),
        match message {
            Some(payload) => {
                &&& server_inbox(*old(server), client_id, channel).len() > 0
                &&& payload@ == server_inbox(*old(server), client_id, channel)[0]
                &&& server_inbox(*final(server), client_id, channel) == server_inbox(
                    *old(server),
                    client_id,
                    channel,
                ).drop_first()
            },
            None => {
                &&& server_inbox(*old(server), client_id, channel).len() == 0
                &&& server_inbox(*final(server), client_id, channel) == server_inbox(
                    *old(server),
                    client_id,
                    channel,
                )
            },
        },
{
    let from = renet::ClientId::from_raw(client_id);
    server.receive_message(from, channel).map(|bytes| bytes.to_vec())
}

/// `renet::RenetServer::send_message`: queues `payload` for one client on a
/// send channel. A client whose connection is not up is passed over. A
/// payload that exceeds the memory budget of the channel is not queued; a
/// reliable channel then takes the connection down, after which nothing of
/// that client is ready any more. No other queue changes, and no other
/// connection. The events and the channels stay as they are. The call
/// panics on a channel that the server does not send on.
#[verifier::external_body]
fn server_send(server: &mut renet::RenetServer, client_id: u64, channel: u8, payload: Vec<u8>)
    requires
        server_speaks_protocol(*old(server)),
        is_server_channel(channel),
    ensures
        server_speaks_protocol(*final(server)),
        server_events(*final(server)) == server_events(*old(server)),
        forall|other: u64, on: u8|
            #![trigger server_inbox(*final(server), other, on)]
            server_inbox(*final(server), other, on) == server_inbox(*old(server), other, on)
                || server_inbox(*final(server), other, on).len() == 0,
        forall|other: u64|
            other != client_id ==> #[trigger] server_clients(*final(server)).contains(other)
                == server_clients(*old(server)).contains(other),
        forall|other: u64, on: u8|
            (other != client_id || on != channel) ==> #[trigger] server_outbox(
                *final(server),
                other,
                on,
            ) == server_outbox(*old(server), other, on),
        accepted(*old(server), *final(server), client_id, channel, payload@),
{
    server.send_message(renet::ClientId::from_raw(client_id), channel, payload)
}

/// `renet::RenetServer::broadcast_message`: what `send_message` does, for
/// every client in turn. The queues of the other channels, the events and
/// the channels stay as they are. The call panics on a channel that the
/// server does not send on.
#[verifier::external_body]
fn server_broadcast(server: &mut renet::RenetServer, channel: u8, payload: Vec<u8>)
    requires
        server_speaks_protocol(*old(server)),
        is_server_channel(channel),
    ensures
        server_speaks_protocol(*final(server)),
        server_events(*final(server)) == server_events(*old(server)),
        forall|other: u64, on: u8|
            #![trigger server_inbox(*final(server), other, on)]
            server_inbox(*final(server), other, on) == server_inbox(*old(server), other, on)
                || server_inbox(*final(server), other, on).len() == 0,
        forall|other: u64, on: u8|
            on != channel ==> #[trigger] server_outbox(*final(server), other, on) == server_outbox(
                *old(server),
                other,
                on,
            ),
        forall|client_id: u64| #[trigger]
            accepted(*old(server), *final(server), client_id, channel, payload@),
{
    server.broadcast_message(channel, payload)
}

/// `fastrand::u32` over the full range: a number of the thread's generator.
#[verifier::external_body]
fn random_draw() -> u32 {
    fastrand::u32(..)
}

/// A client's end of a connection under the protocol's configuration, not
/// connected yet.
pub fn client_session() -> (client: renet::RenetClient)
    ensures
        client_speaks_protocol(client),
        !client_connected(client),
        forall|channel: u8| (#[trigger] client_inbox(client, channel)).len() == 0,
        forall|channel: u8| (#[trigger] client_outbox(client, channel)).len() == 0,
{
    let config = connection_config();
    new_client(&config)
}

/// The server's end under the protocol's configuration, with no connection
/// yet.
pub fn server_session() -> (server: renet::RenetServer)
    ensures
        server_speaks_protocol(server),
        server_events(server) == Seq::<ConnectionEvent>::empty(),
        server_clients(server) == Set::<u64>::empty(),
        forall|client_id: u64, channel: u8|
            (#[trigger] server_inbox(server, client_id, channel)).len() == 0,
        forall|client_id: u64, channel: u8|
            (#[trigger] server_outbox(server, client_id, channel)).len() == 0,
{
    let config = connection_config();
    new_server(&config)
}

/// Sends the input snapshot of this frame on the `Input` channel, unless
/// the client is not connected: then nothing is sent, and nothing queued for
/// later. Says whether the snapshot went to the connection, which queues it
/// or, its memory budget exhausted, disconnects.
pub fn client_send_input(client: &mut renet::RenetClient, input: &PlayerInput) -> (sent: bool)
    requires
        client_speaks_protocol(*old(client)),
    ensures
        client_speaks_protocol(*final(client)),
        sent == client_connected(*old(client)),
        !sent ==> *final(client) == *old(client),
        sent ==> handed_over(
            *old(client),
            *final(client),
            ClientChannel::Input.spec_id(),
            input.spec_encode(),
        ),
        forall|other: u8|
            other != ClientChannel::Input.spec_id() ==> #[trigger] client_outbox(
                *final(client),
                other,
            ) == client_outbox(*old(client), other),
{
    if !client_is_connected(client) {
        return false;
    }
    let channel = ClientChannel::Input;
    let id = channel.id();
    client_send(client, id, input.encode());
    true
}

/// Sends the position of this frame on the `Position` channel, unless the
/// client is not connected: then nothing is sent, and nothing queued for
/// later. Says whether the position went to the connection, which queues it
/// or, its memory budget exhausted, disconnects.
pub fn client_send_position(client: &mut renet::RenetClient, position: &PlayerPosition) -> (sent:
    bool)
    requires
        client_speaks_protocol(*old(client)),
    ensures
        client_speaks_protocol(*final(client)),
        sent == client_connected(*old(client)),
        !sent ==> *final(client) == *old(client),
        sent ==> handed_over(
            *old(client),
            *final(client),
            ClientChannel::Position.spec_id(),
            position.spec_encode(),
        ),
        forall|other: u8|
            other != ClientChannel::Position.spec_id() ==> #[trigger] client_outbox(
                *final(client),
                other,
            ) == client_outbox(*old(client), other),
{
    if !client_is_connected(client) {
        return false;
    }
    let channel = ClientChannel::Position;
    let id = channel.id();
    client_send(client, id, position.encode());
    true
}

/// Brings the mirror up to date with everything that is ready on the
/// connection: first the lifecycle messages, in order, then the position
/// snapshots, in order. Malformed payloads are dropped. Returns what the
/// lifecycle messages did, in order.
pub fn client_sync_players(client: &mut renet::RenetClient, mirror: &mut ClientMirror) -> (outcomes:
    Vec<Reconciled>)
    requires
        client_speaks_protocol(*old(client)),
        old(mirror).wf(),
    ensures
        client_speaks_protocol(*final(client)),
        client_connected(*final(client)) == client_connected(*old(client)),
        final(mirror).wf(),
        final(mirror)@ == old(mirror)@.deliver_all(
            client_inbox(*old(client), ServerChannel::ServerMessages.spec_id()),
        ).place_all(client_inbox(*old(client), ServerChannel::NetworkedEntities.spec_id())),
        outcomes@ == old(mirror)@.outcomes(
            client_inbox(*old(client), ServerChannel::ServerMessages.spec_id()),
        ),
        client_inbox(*final(client), ServerChannel::ServerMessages.spec_id()).len() == 0,
        client_inbox(*final(client), ServerChannel::NetworkedEntities.spec_id()).len() == 0,
{
    let lifecycle = ServerChannel::ServerMessages.id();
    let positions = ServerChannel::NetworkedEntities.id();
    let ghost before = mirror@;
    let ghost announced = client_inbox(*client, lifecycle);
    let ghost snapshots = client_inbox(*client, positions);
    let mut outcomes: Vec<Reconciled> = Vec::new();
    assert(outcomes@ + before.outcomes(announced) =~= before.outcomes(announced));
    loop
        invariant_except_break
            mirror@.deliver_all(client_inbox(*client, lifecycle)) == before.deliver_all(announced),
            outcomes@ + mirror@.outcomes(client_inbox(*client, lifecycle)) == before.outcomes(
                announced,
            ),
        invariant
            lifecycle == ServerChannel::ServerMessages.spec_id(),
            positions == ServerChannel::NetworkedEntities.spec_id(),
            client_speaks_protocol(*client),
            client_connected(*client) == client_connected(*old(client)),
            client_inbox(*client, positions) == snapshots,
            mirror.wf(),
        ensures
            client_inbox(*client, lifecycle).len() == 0,
            mirror@ == before.deliver_all(announced),
            outcomes@ == before.outcomes(announced),
        decreases client_inbox(*client, lifecycle).len(),
    {
        let ghost queue = client_inbox(*client, lifecycle);
        let ghost current = mirror@;
        let ghost collected = outcomes@;
        match client_receive(client, lifecycle) {
            Some(payload) => {
                match mirror.deliver(payload.as_slice()) {
                    Some(outcome) => {
                        outcomes.push(outcome);
                    },
                    None => {},
                }
                assert(outcomes@ + mirror@.outcomes(queue.drop_first()) =~= collected
                    + current.outcomes(queue));
            },
            None => {
                assert(outcomes@ + Seq::<Reconciled>::empty() =~= outcomes@);
                break;
            },
        }
    }
    let ghost delivered = mirror@;
    loop
        invariant_except_break
            mirror@.place_all(client_inbox(*client, positions)) == delivered.place_all(snapshots),
        invariant
            lifecycle == ServerChannel::ServerMessages.spec_id(),
            positions == ServerChannel::NetworkedEntities.spec_id(),
            client_speaks_protocol(*client),
            client_connected(*client) == client_connected(*old(client)),
            client_inbox(*client, lifecycle).len() == 0,
            mirror.wf(),
        ensures
            client_inbox(*client, positions).len() == 0,
            mirror@ == delivered.place_all(snapshots),
        decreases client_inbox(*client, positions).len(),
    {
        match client_receive(client, positions) {
            Some(payload) => {
                mirror.place_payload(payload.as_slice());
            },
            None => {
                break;
            },
        }
    }
    outcomes
}

/// The messages of one client that were ready in a tick.
pub struct ClientMail {
    pub client_id: u64,
    /// The payloads of the `Input` channel, in arrival order.
    pub inputs: Vec<Vec<u8>>,
    /// The payloads of the `Position` channel, in arrival order.
    pub positions: Vec<Vec<u8>>,
}

/// What a tick of the server took from the connections and sent.
pub struct ServerTick {
    /// The connection events, oldest first.
    pub events: Vec<ConnectionEvent>,
    /// Where the entity of event `i` was placed, if the event is a
    /// connection.
    pub spawns: Vec<Translation>,
    /// The lifecycle messages that were sent, in sending order.
    pub outgoing: Vec<Outgoing>,
}

/// Takes every connection event that `server` holds.
pub fn drain_events(server: &mut renet::RenetServer) -> (events: Vec<ConnectionEvent>)
    ensures
        events@ == server_events(*old(server)),
        server_events(*final(server)).len() == 0,
        server_speaks_protocol(*final(server)) == server_speaks_protocol(*old(server)),
        server_clients(*final(server)) == server_clients(*old(server)),
        server_mail(*final(server)) == server_mail(*old(server)),
        server_queue(*final(server)) == server_queue(*old(server)),
{
    let mut events: Vec<ConnectionEvent> = Vec::new();
    let ghost all = server_events(*server);
    assert(events@ + all =~= all);
    loop
        invariant_except_break
            events@ + server_events(*server) == all,
        invariant
            server_speaks_protocol(*server) == server_speaks_protocol(*old(server)),
            server_clients(*server) == server_clients(*old(server)),
            server_mail(*server) == server_mail(*old(server)),
            server_queue(*server) == server_queue(*old(server)),
        ensures
            events@ == all,
            server_events(*server).len() == 0,
        decreases server_events(*server).len(),
    {
        let ghost queue = server_events(*server);
        let ghost collected = events@;
        let ghost mail = server_mail(*server);
        let ghost queued = server_queue(*server);
        match server_next_event(server) {
            Some(event) => {
                events.push(event);
                assert(events@ + queue.drop_first() =~= collected + queue);
                assert(server_mail(*server) =~= mail);
                assert(server_queue(*server) =~= queued);
            },
            None => {
                assert(events@ + Seq::<ConnectionEvent>::empty() =~= events@);
                assert(server_mail(*server) =~= mail);
                assert(server_queue(*server) =~= queued);
                break;
            },
        }
    }
    events
}

/// Takes every message of `client_id` that is ready on `channel`.
pub fn drain_channel(
    server: &mut renet::RenetServer,
    client_id: u64,
    channel: ClientChannel,
) -> (messages: Vec<Vec<u8>>)
    requires
        server_speaks_protocol(*old(server)),
    ensures
        server_speaks_protocol(*final(server)),
        payloads(messages@) == server_inbox(*old(server), client_id, channel.spec_id()),
        server_inbox(*final(server), client_id, channel.spec_id()).len() == 0,
        forall|other: u64, on: u8|
            (other != client_id || on != channel.spec_id()) ==> #[trigger] server_inbox(
                *final(server),
                other,
                on,
            ) == server_inbox(*old(server), other, on),
        server_events(*final(server)) == server_events(*old(server)),
        server_clients(*final(server)) == server_clients(*old(server)),
        server_queue(*final(server)) == server_queue(*old(server)),
{
    let id = channel.id();
    let mut messages: Vec<Vec<u8>> = Vec::new();
    let ghost all = server_inbox(*server, client_id, id);
    assert(payloads(messages@) + all =~= all);
    loop
        invariant_except_break
            payloads(messages@) + server_inbox(*server, client_id, id) == all,
        invariant
            id == channel.spec_id(),
            server_speaks_protocol(*server),
            server_events(*server) == server_events(*old(server)),
            server_clients(*server) == server_clients(*old(server)),
            server_queue(*server) == server_queue(*old(server)),
            forall|other: u64, on: u8|
                (other != client_id || on != id) ==> #[trigger] server_inbox(*server, other, on)
                    == server_inbox(*old(server), other, on),
        ensures
            payloads(messages@) == all,
            server_inbox(*server, client_id, id).len() == 0,
        decreases server_inbox(*server, client_id, id).len(),
    {
        let ghost queue = server_inbox(*server, client_id, id);
        let ghost collected = payloads(messages@);
        let ghost queued = server_queue(*server);
        match server_receive(server, client_id, id) {
            Some(payload) => {
                messages.push(payload);
                assert(payloads(messages@) =~= collected.push(queue[0]));
                assert(payloads(messages@) + queue.drop_first() =~= collected + queue);
                assert(server_queue(*server) =~= queued);
            },
            None => {
                assert(payloads(messages@) + Seq::<Seq<u8>>::empty() =~= payloads(messages@));
                assert(server_queue(*server) =~= queued);
                break;
            },
        }
    }
    messages
}

/// Some mail of `mail` is that of `client_id`.
pub open spec fn has_mail(mail: Seq<ClientMail>, client_id: u64) -> bool {
    exists|i: int| 0 <= i < mail.len() && #[trigger] mail[i].client_id == client_id
}

/// Takes, for every client whose connection is up, the messages that are
/// ready on the `Input` and on the `Position` channel. Clients come in no
/// particular order, each once.
pub fn collect_mail(server: &mut renet::RenetServer) -> (mail: Vec<ClientMail>)
    requires
        server_speaks_protocol(*old(server)),
    ensures
        server_speaks_protocol(*final(server)),
        server_events(*final(server)) == server_events(*old(server)),
        server_clients(*final(server)) == server_clients(*old(server)),
        server_queue(*final(server)) == server_queue(*old(server)),
        forall|i: int, j: int|
            0 <= i < j < mail@.len() ==> mail@[i].client_id != mail@[j].client_id,
        forall|c: u64| server_clients(*old(server)).contains(c) <==> has_mail(mail@, c),
        forall|i: int|
            0 <= i < mail@.len() ==> {
                &&& payloads((#[trigger] mail@[i]).inputs@) == server_inbox(
                    *old(server),
                    mail@[i].client_id,
                    ClientChannel::Input.spec_id(),
                )
                &&& payloads(mail@[i].positions@) == server_inbox(
                    *old(server),
                    mail@[i].client_id,
                    ClientChannel::Position.spec_id(),
                )
            },
        forall|c: u64|
            server_clients(*old(server)).contains(c) ==> {
                &&& (#[trigger] server_inbox(
                    *final(server),
                    c,
                    ClientChannel::Input.spec_id(),
                )).len() == 0
                &&& server_inbox(*final(server), c, ClientChannel::Position.spec_id()).len() == 0
            },
{
    let clients = server_connected_clients(server);
    let mut mail: Vec<ClientMail> = Vec::new();
    let mut j: usize = 0;
    while j < clients.len()
        invariant
            j <= clients.len(),
            clients@.no_duplicates(),
            mail@.len() == j,
            server_speaks_protocol(*server),
            server_events(*server) == server_events(*old(server)),
            server_clients(*server) == server_clients(*old(server)),
            server_queue(*server) == server_queue(*old(server)),
            forall|i: int| 0 <= i < j ==> (#[trigger] mail@[i]).client_id == clients@[i],
            forall|i: int|
                0 <= i < j ==> {
                    &&& payloads((#[trigger] mail@[i]).inputs@) == server_inbox(
                        *old(server),
                        mail@[i].client_id,
                        ClientChannel::Input.spec_id(),
                    )
                    &&& payloads(mail@[i].positions@) == server_inbox(
                        *old(server),
                        mail@[i].client_id,
                        ClientChannel::Position.spec_id(),
                    )
                },
            forall|i: int, on: u8|
                j <= i < clients@.len() ==> #[trigger] server_inbox(*server, clients@[i], on)
                    == server_inbox(*old(server), clients@[i], on),
            forall|i: int|
                0 <= i < j ==> {
                    &&& (#[trigger] server_inbox(
                        *server,
                        clients@[i],
                        ClientChannel::Input.spec_id(),
                    )).len() == 0
                    &&& server_inbox(*server, clients@[i], ClientChannel::Position.spec_id()).len()
                        == 0
                },
        decreases clients.len() - j,
    {
        let client_id = clients[j];
        let ghost entering = *server;
        let inputs = drain_channel(server, client_id, ClientChannel::Input);
        let ghost between = *server;
        let positions = drain_channel(server, client_id, ClientChannel::Position);
        proof {
            assert(server_inbox(between, client_id, ClientChannel::Position.spec_id())
                == server_inbox(entering, client_id, ClientChannel::Position.spec_id()));
            assert forall|i: int| 0 <= i < j implies {
                &&& (#[trigger] server_inbox(
                    *server,
                    clients@[i],
                    ClientChannel::Input.spec_id(),
                )).len() == 0
                &&& server_inbox(*server, clients@[i], ClientChannel::Position.spec_id()).len()
                    == 0
            } by {
                assert(clients@[i] != clients@[j as int]);
                assert(server_inbox(between, clients@[i], ClientChannel::Input.spec_id())
                    == server_inbox(entering, clients@[i], ClientChannel::Input.spec_id()));
                assert(server_inbox(between, clients@[i], ClientChannel::Position.spec_id())
                    == server_inbox(entering, clients@[i], ClientChannel::Position.spec_id()));
            }
            assert(server_inbox(*server, client_id, ClientChannel::Input.spec_id())
                == server_inbox(between, client_id, ClientChannel::Input.spec_id()));
            assert forall|i: int, on: u8| j + 1 <= i < clients@.len() implies #[trigger] server_inbox(
                *server,
                clients@[i],
                on,
            ) == server_inbox(*old(server), clients@[i], on) by {
                assert(clients@[i] != clients@[j as int]);
                assert(server_inbox(between, clients@[i], on) == server_inbox(
                    entering,
                    clients@[i],
                    on,
                ));
            }
        }
        mail.push(ClientMail { client_id, inputs, positions });
        j = j + 1;
    }
    proof {
        assert forall|c: u64| server_clients(*old(server)).contains(c) <==> has_mail(
            mail@,
            c,
        ) by {
            if server_clients(*old(server)).contains(c) {
                assert(clients@.to_set().contains(c));
                assert(clients@.contains(c));
                let i = choose|i: int| 0 <= i < clients@.len() && clients@[i] == c;
                assert(mail@[i].client_id == c);
            }
            if has_mail(mail@, c) {
                let i = choose|i: int| 0 <= i < mail@.len() && #[trigger] mail@[i].client_id == c;
                assert(clients@[i] == c);
                assert(clients@.contains(c));
            }
        }
        assert forall|c: u64| server_clients(*old(server)).contains(c) implies {
            &&& (#[trigger] server_inbox(*server, c, ClientChannel::Input.spec_id())).len() == 0
            &&& server_inbox(*server, c, ClientChannel::Position.spec_id()).len() == 0
        } by {
            assert(clients@.to_set().contains(c));
            assert(clients@.contains(c));
            let i = choose|i: int| 0 <= i < clients@.len() && clients@[i] == c;
            assert(server_inbox(*server, clients@[i], ClientChannel::Input.spec_id()).len() == 0);
        }
    }
    mail
}

/// Handles `events` in order, each connection at a spawn point drawn at
/// random, and returns the spawn points and what is to be sent.
fn welcome(authority: &mut ServerAuthority, events: &Vec<ConnectionEvent>) -> (drawn: (
    Vec<Translation>,
    Vec<Outgoing>,
))
    requires
        old(authority).wf(),
    ensures
        final(authority).wf(),
        drawn.0@.len() == events@.len(),
        forall|i: int| 0 <= i < drawn.0@.len() ==> in_spawn_region(#[trigger] drawn.0@[i]),
        final(authority)@ == old(authority)@.handle_all(events@, drawn.0@),
        drawn.1@ == old(authority)@.outgoing_all(events@, drawn.0@),
{
    let ghost before = authority@;
    let mut spawns: Vec<Translation> = Vec::new();
    let mut outgoing: Vec<Outgoing> = Vec::new();
    let mut i: usize = 0;
    assert(events@.take(0) =~= Seq::<ConnectionEvent>::empty());
    while i < events.len()
        invariant
            i <= events.len(),
            authority.wf(),
            spawns@.len() == i,
            forall|k: int| 0 <= k < i ==> in_spawn_region(#[trigger] spawns@[k]),
            authority@ == before.handle_all(events@.take(i as int), spawns@),
            outgoing@ == before.outgoing_all(events@.take(i as int), spawns@),
        decreases events.len() - i,
    {
        let spawn = spawn_translation(random_draw(), random_draw());
        let ghost drawn = spawns@;
        let mut sent = authority.handle_event(events[i], spawn);
        spawns.push(spawn);
        outgoing.append(&mut sent);
        proof {
            let upto = events@.take(i + 1);
            assert(upto.drop_last() =~= events@.take(i as int));
            assert(spawns@.drop_last() =~= drawn);
            assert(upto.last() == events@[i as int]);
        }
        i = i + 1;
    }
    assert(events@.take(i as int) =~= events@);
    (spawns, outgoing)
}

/// Hands what each client sent to the authority, client by client: inputs
/// first, then positions.
fn absorb(
    authority: &mut ServerAuthority,
    mail: &Vec<ClientMail>,
    Ghost(inbox): Ghost<Map<(u64, u8), Seq<Seq<u8>>>>,
    Ghost(clients): Ghost<Set<u64>>,
)
    requires
        old(authority).wf(),
        forall|i: int, j: int|
            0 <= i < j < mail@.len() ==> mail@[i].client_id != mail@[j].client_id,
        forall|c: u64| clients.contains(c) <==> has_mail(mail@, c),
        forall|i: int|
            0 <= i < mail@.len() ==> {
                &&& payloads((#[trigger] mail@[i]).inputs@) == inbox[(
                    mail@[i].client_id,
                    ClientChannel::Input.spec_id(),
                )]
                &&& payloads(mail@[i].positions@) == inbox[(
                    mail@[i].client_id,
                    ClientChannel::Position.spec_id(),
                )]
            },
    ensures
        final(authority).wf(),
        final(authority)@ == old(authority)@.absorbed(clients, inbox),
{
    let ghost before = authority@;
    let ghost mut done: Set<u64> = Set::empty();
    let mut j: usize = 0;
    proof {
        assert(before.absorbed(done, inbox).entities =~= before.entities);
    }
    while j < mail.len()
        invariant
            j <= mail.len(),
            before.wf(),
            authority.wf(),
            authority@ == before.absorbed(done, inbox),
            forall|c: u64| done.contains(c) <==> has_mail(mail@.take(j as int), c),
            forall|i: int, k: int|
                0 <= i < k < mail@.len() ==> mail@[i].client_id != mail@[k].client_id,
            forall|i: int|
                0 <= i < mail@.len() ==> {
                    &&& payloads((#[trigger] mail@[i]).inputs@) == inbox[(
                        mail@[i].client_id,
                        ClientChannel::Input.spec_id(),
                    )]
                    &&& payloads(mail@[i].positions@) == inbox[(
                        mail@[i].client_id,
                        ClientChannel::Position.spec_id(),
                    )]
                },
        decreases mail.len() - j,
    {
        let client_id = mail[j].client_id;
        proof {
            if done.contains(client_id) {
                let i = choose|i: int|
                    0 <= i < mail@.take(j as int).len() && #[trigger] mail@.take(
                        j as int,
                    )[i].client_id == client_id;
                assert(mail@[i].client_id == mail@[j as int].client_id);
            }
            lemma_absorb_client(before, done, inbox, client_id);
        }
        authority.receive_inputs(client_id, &mail[j].inputs);
        authority.receive_positions(client_id, &mail[j].positions);
        proof {
            let ghost grown = done.insert(client_id);
            assert forall|c: u64| grown.contains(c) <==> has_mail(mail@.take(j + 1), c) by {
                if grown.contains(c) {
                    if c == client_id {
                        assert(mail@.take(j + 1)[j as int].client_id == c);
                    } else {
                        let i = choose|i: int|
                            0 <= i < mail@.take(j as int).len() && #[trigger] mail@.take(
                                j as int,
                            )[i].client_id == c;
                        assert(mail@.take(j + 1)[i].client_id == c);
                    }
                }
                if has_mail(mail@.take(j + 1), c) {
                    let i = choose|i: int|
                        0 <= i < mail@.take(j + 1).len() && #[trigger] mail@.take(
                            j + 1,
                        )[i].client_id == c;
                    if i < j {
                        assert(mail@.take(j as int)[i].client_id == c);
                    }
                }
            }
            done = grown;
        }
        j = j + 1;
    }
    proof {
        assert(mail@.take(j as int) =~= mail@);
        assert(done =~= clients);
    }
}

/// The payloads of those of `outgoing` that go to `client_id`, in order.
pub open spec fn deliveries(outgoing: Seq<Outgoing>, client_id: u64) -> Seq<Seq<u8>>
    decreases outgoing.len(),
{
    if outgoing.len() == 0 {
        Seq::empty()
    } else {
        let earlier = deliveries(outgoing.drop_last(), client_id);
        if addressed_to(outgoing.last(), client_id) {
            earlier.push(outgoing.last().message.spec_encode())
        } else {
            earlier
        }
    }
}

/// Of the payloads `due` to `client_id`, the first `taken` joined the queue
/// of lifecycle messages between `before` and `after`, and no other. All
/// did if the connection is up afterwards; none did if it was not up
/// before.
pub open spec fn delivered(
    before: renet::RenetServer,
    after: renet::RenetServer,
    client_id: u64,
    due: Seq<Seq<u8>>,
    taken: int,
) -> bool {
    let channel = ServerChannel::ServerMessages.spec_id();
    &&& 0 <= taken <= due.len()
    &&& server_outbox(after, client_id, channel) == server_outbox(before, client_id, channel)
        + due.take(taken)
    &&& server_clients(after).contains(client_id) ==> server_clients(before).contains(client_id)
        && taken == due.len()
    &&& !server_clients(before).contains(client_id) ==> taken == 0
}

/// Some first payloads of `due` joined the queue of lifecycle messages of
/// `client_id` between `before` and `after`, as `delivered` says.
pub open spec fn reached(
    before: renet::RenetServer,
    after: renet::RenetServer,
    client_id: u64,
    due: Seq<Seq<u8>>,
) -> bool {
    exists|taken: int| delivered(before, after, client_id, due, taken)
}

/// Hands `outgoing` to the connections, in order, on the reliable channel
/// of lifecycle messages. Each client's queue grows by its payloads, in
/// order, up to the one, if any, that takes its connection down.
fn dispatch(server: &mut renet::RenetServer, outgoing: &Vec<Outgoing>)
    requires
        server_speaks_protocol(*old(server)),
    ensures
        server_speaks_protocol(*final(server)),
        server_events(*final(server)) == server_events(*old(server)),
        forall|other: u64, on: u8|
            #![trigger server_inbox(*final(server), other, on)]
            server_inbox(*final(server), other, on) == server_inbox(*old(server), other, on)
                || server_inbox(*final(server), other, on).len() == 0,
        forall|other: u64, on: u8|
            on != ServerChannel::ServerMessages.spec_id() ==> #[trigger] server_outbox(
                *final(server),
                other,
                on,
            ) == server_outbox(*old(server), other, on),
        forall|client_id: u64| #[trigger]
            reached(*old(server), *final(server), client_id, deliveries(outgoing@, client_id)),
{
    let channel = ServerChannel::ServerMessages.id();
    let ghost mut taken: Map<u64, int> = Map::new(|c: u64| true, |c: u64| 0int);
    let mut i: usize = 0;
    proof {
        assert(outgoing@.take(0) =~= Seq::<Outgoing>::empty());
        assert forall|c: u64|
            delivered(
                *old(server),
                *server,
                c,
                deliveries(outgoing@.take(0), c),
                #[trigger] taken[c],
            ) by {
            assert(server_outbox(*server, c, channel) + Seq::<Seq<u8>>::empty().take(0)
                =~= server_outbox(*server, c, channel));
        }
    }
    while i < outgoing.len()
        invariant
            i <= outgoing.len(),
            channel == ServerChannel::ServerMessages.spec_id(),
            server_speaks_protocol(*server),
            server_events(*server) == server_events(*old(server)),
            forall|other: u64, on: u8|
                #![trigger server_inbox(*server, other, on)]
                server_inbox(*server, other, on) == server_inbox(*old(server), other, on)
                    || server_inbox(*server, other, on).len() == 0,
            forall|other: u64, on: u8|
                on != channel ==> #[trigger] server_outbox(*server, other, on) == server_outbox(
                    *old(server),
                    other,
                    on,
                ),
            forall|c: u64|
                delivered(
                    *old(server),
                    *server,
                    c,
                    deliveries(outgoing@.take(i as int), c),
                    #[trigger] taken[c],
                ),
        decreases outgoing.len() - i,
    {
        let ghost entering = *server;
        let ghost sofar = taken;
        let payload = outgoing[i].message.encode();
        match outgoing[i].to {
            Recipient::Client(client_id) => {
                server_send(server, client_id, channel, payload);
            },
            Recipient::Everyone => {
                server_broadcast(server, channel, payload);
            },
        }
        proof {
            let sent = outgoing@[i as int];
            let encoded = sent.message.spec_encode();
            assert(outgoing@.take(i + 1).drop_last() =~= outgoing@.take(i as int));
            assert(outgoing@.take(i + 1).last() == sent);
            taken =
            Map::new(
                |c: u64| true,
                |c: u64|
                    if addressed_to(sent, c) && server_outbox(*server, c, channel)
                        == server_outbox(entering, c, channel).push(encoded) {
                        sofar[c] + 1
                    } else {
                        sofar[c]
                    },
            );
            assert forall|c: u64|
                delivered(
                    *old(server),
                    *server,
                    c,
                    deliveries(outgoing@.take(i + 1), c),
                    #[trigger] taken[c],
                ) by {
                let due = deliveries(outgoing@.take(i as int), c);
                let was = server_outbox(entering, c, channel);
                let is = server_outbox(*server, c, channel);
                assert(delivered(*old(server), entering, c, due, sofar[c]));
                if addressed_to(sent, c) {
                    let grown = due.push(encoded);
                    assert(deliveries(outgoing@.take(i + 1), c) == grown);
                    assert(accepted(entering, *server, c, channel, encoded));
                    assert(was.push(encoded).len() == was.len() + 1);
                    if is == was.push(encoded) {
                        assert(server_clients(entering).contains(c));
                        assert(sofar[c] == due.len());
                        assert(grown.take(sofar[c] + 1) =~= grown);
                        assert(due.take(sofar[c]) =~= due);
                        assert(is =~= server_outbox(*old(server), c, channel) + grown.take(
                            sofar[c] + 1,
                        ));
                    } else {
                        assert(is == was);
                        assert(grown.take(sofar[c]) =~= due.take(sofar[c]));
                    }
                } else {
                    assert(deliveries(outgoing@.take(i + 1), c) == due);
                    assert(is == was);
                    assert(server_clients(*server).contains(c) == server_clients(
                        entering,
                    ).contains(c));
                }
            }
        }
        i = i + 1;
    }
    proof {
        assert(outgoing@.take(i as int) =~= outgoing@);
        assert forall|c: u64| #[trigger]
            reached(*old(server), *server, c, deliveries(outgoing@, c)) by {
            assert(delivered(*old(server), *server, c, deliveries(outgoing@, c), taken[c]));
        }
    }
}

/// One tick of the server's lifecycle handling.
///
/// Everything that is ready is taken from the connections first: the
/// connection events, and the inputs and positions of every client whose
/// connection is up. Then the events are handled in order, each connecting
/// client being placed at a random point of the spawn square; then each
/// client's inputs and positions reach its entity, the last well-formed one
/// of each kind standing. Last, the lifecycle messages go out.
pub fn server_update_system(
    server: &mut renet::RenetServer,
    authority: &mut ServerAuthority,
) -> (tick: ServerTick)
    requires
        server_speaks_protocol(*old(server)),
        old(authority).wf(),
    ensures
        server_speaks_protocol(*final(server)),
        server_events(*final(server)).len() == 0,
        final(authority).wf(),
        tick.events@ == server_events(*old(server)),
        tick.spawns@.len() == tick.events@.len(),
        forall|i: int| 0 <= i < tick.spawns@.len() ==> in_spawn_region(#[trigger] tick.spawns@[i]),
        tick.outgoing@ == old(authority)@.outgoing_all(tick.events@, tick.spawns@),
        final(authority)@ == old(authority)@.handle_all(tick.events@, tick.spawns@).absorbed(
            server_clients(*old(server)),
            server_mail(*old(server)),
        ),
        forall|c: u64|
            server_clients(*old(server)).contains(c) ==> {
                &&& (#[trigger] server_inbox(
                    *final(server),
                    c,
                    ClientChannel::Input.spec_id(),
                )).len() == 0
                &&& server_inbox(*final(server), c, ClientChannel::Position.spec_id()).len() == 0
            },
        forall|other: u64, on: u8|
            on != ServerChannel::ServerMessages.spec_id() ==> #[trigger] server_outbox(
                *final(server),
                other,
                on,
            ) == server_outbox(*old(server), other, on),
        forall|client_id: u64| #[trigger]
            reached(
                *old(server),
                *final(server),
                client_id,
                deliveries(tick.outgoing@, client_id),
            ),
{
    let ghost clients = server_clients(*server);
    let ghost inbox = server_mail(*server);
    let events = drain_events(server);
    let ghost drained = *server;
    let mail = collect_mail(server);
    assert forall|i: int| 0 <= i < mail@.len() implies {
        &&& payloads((#[trigger] mail@[i]).inputs@) == inbox[(
            mail@[i].client_id,
            ClientChannel::Input.spec_id(),
        )]
        &&& payloads(mail@[i].positions@) == inbox[(
            mail@[i].client_id,
            ClientChannel::Position.spec_id(),
        )]
    } by {
        let c = mail@[i].client_id;
        assert(server_mail(drained)[(c, ClientChannel::Input.spec_id())] == inbox[(
            c,
            ClientChannel::Input.spec_id(),
        )]);
        assert(server_mail(drained)[(c, ClientChannel::Position.spec_id())] == inbox[(
            c,
            ClientChannel::Position.spec_id(),
        )]);
    }
    let ghost collected = *server;
    let (spawns, outgoing) = welcome(authority, &events);
    absorb(authority, &mail, Ghost(inbox), Ghost(clients));
    dispatch(server, &outgoing);
    assert forall|c: u64| clients.contains(c) implies {
        &&& (#[trigger] server_inbox(*server, c, ClientChannel::Input.spec_id())).len() == 0
        &&& server_inbox(*server, c, ClientChannel::Position.spec_id()).len() == 0
    } by {
        assert(server_inbox(collected, c, ClientChannel::Input.spec_id()).len() == 0);
        assert(server_inbox(collected, c, ClientChannel::Position.spec_id()).len() == 0);
    }
    assert forall|other: u64, on: u8|
        on != ServerChannel::ServerMessages.spec_id() implies #[trigger] server_outbox(
        *server,
        other,
        on,
    ) == server_outbox(*old(server), other, on) by {
        assert(server_queue(collected)[(other, on)] == server_queue(*old(server))[(other, on)]);
    }
    assert forall|c: u64| #[trigger]
        reached(*old(server), *server, c, deliveries(outgoing@, c)) by {
        assert(reached(collected, *server, c, deliveries(outgoing@, c)));
        let k = choose|k: int| delivered(collected, *server, c, deliveries(outgoing@, c), k);
        assert(server_queue(collected)[(c, ServerChannel::ServerMessages.spec_id())]
            == server_queue(*old(server))[(c, ServerChannel::ServerMessages.spec_id())]);
        assert(delivered(*old(server), *server, c, deliveries(outgoing@, c), k));
    }
    ServerTick { events, spawns, outgoing }
}

/// The per-tick broadcast: the snapshot of every live entity goes to every
/// client on the unreliable channel. Returns the payload that went out:
/// the queue of each client whose connection is up holds it, unless the
/// channel's memory budget is exhausted.
pub fn server_network_sync(
    server: &mut renet::RenetServer,
    authority: &ServerAuthority,
) -> (payload: Vec<u8>)
    requires
        server_speaks_protocol(*old(server)),
        authority.wf(),
    ensures
        server_speaks_protocol(*final(server)),
        server_events(*final(server)) == server_events(*old(server)),
        payload@ == snapshot_of(authority@.entities).spec_encode(),
        forall|other: u64, on: u8|
            on != ServerChannel::NetworkedEntities.spec_id() ==> #[trigger] server_outbox(
                *final(server),
                other,
                on,
            ) == server_outbox(*old(server), other, on),
        forall|client_id: u64| #[trigger]
            accepted(
                *old(server),
                *final(server),
                client_id,
                ServerChannel::NetworkedEntities.spec_id(),
                payload@,
            ),
{
    let snapshot = authority.snapshot();
    let payload = snapshot.encode();
    let ghost sent = payload@;
    let copy = payload.clone();
    assert(copy@ =~= sent) by {
        assert(copy@.len() == sent.len());
    }
    server_broadcast(server, ServerChannel::NetworkedEntities.id(), copy);
    payload
}

} // verus!
