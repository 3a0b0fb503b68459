//! The server's side of replication: the authority over every player entity.
//!
//! The authority owns the canonical state. It keeps the live entities in the
//! order in which they were spawned, and a lobby that maps each connected
//! client to the one entity it controls. Identifiers of entities are handed
//! out in increasing order and never reused.

use crate::channel::ClientChannel;
use crate::snapshot::{NetworkedEntities, NetworkedEntitiesView};
use crate::wire::{PlayerInput, PlayerPosition, ServerMessages, Translation};
use std::collections::HashMap;
use vstd::prelude::*;

verus! {

broadcast use vstd::std_specs::hash::group_hash_axioms;

/// The client that controls an entity.
#[derive(Clone, Copy, Debug, PartialEq, Eq, Structural)]
pub struct Player {
    pub id: u64,
}

/// A live entity of the authority.
#[derive(Clone, Copy, Debug, PartialEq, Eq, Structural)]
pub struct PlayerEntity {
    /// Identifier of the entity on the server.
    pub entity: u64,
    /// The client that controls it.
    pub player: Player,
    /// Where it stands.
    pub position: PlayerPosition,
    /// The directional intent that its client sent last.
    pub input: PlayerInput,
}

/// The server's table of connected clients: client identifier to the
/// identifier of the entity that the client controls.
pub struct ServerLobby {
    pub players: HashMap<u64, u64>,
}

impl View for ServerLobby {
    type V = Map<u64, u64>;

    open spec fn view(&self) -> Map<u64, u64> {
        self.players@
    }
}

/// What the authority did on a connection.
pub struct Admission {
    /// The entity spawned for the client.
    pub entity: u64,
    /// The entity that the client controlled before, now despawned.
    pub replaced: Option<u64>,
    /// For the new client alone: one `PlayerCreate` per entity that was live
    /// before it joined, in spawn order.
    pub catch_up: Vec<ServerMessages>,
    /// For every client, the new one included: the `PlayerCreate` of the new
    /// entity.
    pub announce: ServerMessages,
}

/// What the authority did on a disconnection.
pub struct Departure {
    /// The entity that the client controlled, now despawned.
    pub despawned: Option<u64>,
    /// For every remaining client: the `PlayerRemove` of the client.
    pub announce: ServerMessages,
}

/// What the transport reports of a client.
#[derive(Clone, Copy, Debug, PartialEq, Eq, Structural)]
pub enum ConnectionEvent {
    Connected { client_id: u64 },
    Disconnected { client_id: u64 },
}

/// To whom a lifecycle message goes.
#[derive(Clone, Copy, Debug, PartialEq, Eq, Structural)]
pub enum Recipient {
    Client(u64),
    Everyone,
}

/// A lifecycle message on its way to the reliable channel.
#[derive(Clone, Copy, Debug, PartialEq, Eq, Structural)]
pub struct Outgoing {
    pub to: Recipient,
    pub message: ServerMessages,
}

/// Entity `i` of `entities` belongs to `client_id`.
pub open spec fn owns(entities: Seq<PlayerEntity>, client_id: u64, i: int) -> bool {
    0 <= i < entities.len() && entities[i].player.id == client_id
}

/// Some entity of `entities` belongs to `client_id`.
pub open spec fn has_client(entities: Seq<PlayerEntity>, client_id: u64) -> bool {
    exists|i: int| owns(entities, client_id, i)
}

/// The index of an entity of `client_id`.
pub open spec fn index_of_client(entities: Seq<PlayerEntity>, client_id: u64) -> int {
    choose|i: int| owns(entities, client_id, i)
}

/// `entities` without the entity of `client_id`.
pub open spec fn without_client(entities: Seq<PlayerEntity>, client_id: u64) -> Seq<PlayerEntity> {
    if has_client(entities, client_id) {
        entities.remove(index_of_client(entities, client_id))
    } else {
        entities
    }
}

/// The entity of `client_id` in `lobby`, if it has one.
pub open spec fn lobby_entity(lobby: Map<u64, u64>, client_id: u64) -> Option<u64> {
    if lobby.contains_key(client_id) {
        Some(lobby[client_id])
    } else {
        None
    }
}

/// The message that announces `e`.
pub open spec fn announcement(e: PlayerEntity) -> ServerMessages {
    ServerMessages::PlayerCreate {
        entity: e.entity,
        id: e.player.id,
        translation: e.position.transform,
    }
}

/// `message`, for `client_id` alone.
pub open spec fn addressed(client_id: u64, message: ServerMessages) -> Outgoing {
    Outgoing { to: Recipient::Client(client_id), message }
}

/// `outgoing` goes to `client_id`: it is addressed to the client alone or
/// to everyone.
pub open spec fn addressed_to(outgoing: Outgoing, client_id: u64) -> bool {
    outgoing.to == Recipient::Everyone || outgoing.to == Recipient::Client(client_id)
}

/// The messages of `outgoing` that go to `client_id`, in order.
pub open spec fn received(outgoing: Seq<Outgoing>, client_id: u64) -> Seq<ServerMessages>
    decreases outgoing.len(),
{
    if outgoing.len() == 0 {
        Seq::empty()
    } else {
        let earlier = received(outgoing.drop_last(), client_id);
        if addressed_to(outgoing.last(), client_id) {
            earlier.push(outgoing.last().message)
        } else {
            earlier
        }
    }
}

/// One announcement per entity, in order.
pub open spec fn announcements(entities: Seq<PlayerEntity>) -> Seq<ServerMessages> {
    entities.map_values(|e: PlayerEntity| announcement(e))
}

/// The snapshot of `entities`: each with its translation, in order.
pub open spec fn snapshot_of(entities: Seq<PlayerEntity>) -> NetworkedEntitiesView {
    NetworkedEntitiesView {
        entities: entities.map_values(|e: PlayerEntity| e.entity),
        translation: entities.map_values(|e: PlayerEntity| e.position.transform),
    }
}

/// Entities stand in spawn order under identifiers below `next`, each client
/// controls at most one of them, and `lobby` maps exactly the clients that
/// control an entity, each to its entity.
pub open spec fn consistent(entities: Seq<PlayerEntity>, lobby: Map<u64, u64>, next: u64) -> bool {
    &&& forall|i: int, j: int|
        0 <= i < j < entities.len() ==> entities[i].entity < entities[j].entity
    &&& forall|i: int| 0 <= i < entities.len() ==> entities[i].entity < next
    &&& forall|i: int, j: int|
        0 <= i < j < entities.len() ==> entities[i].player.id != entities[j].player.id
    &&& forall|i: int|
        0 <= i < entities.len() ==> lobby.contains_key(#[trigger] entities[i].player.id)
            && lobby[entities[i].player.id] == entities[i].entity
    &&& forall|c: u64| #[trigger] lobby.contains_key(c) ==> has_client(entities, c)
}

/// The last payload of `messages` that decodes to a position.
pub open spec fn spec_latest_position(messages: Seq<Seq<u8>>) -> Option<PlayerPosition>
    decreases messages.len(),
{
    if messages.len() == 0 {
        None
    } else {
        match PlayerPosition::spec_decode(messages.last()) {
            Some(position) => Some(position),
            None => spec_latest_position(messages.drop_last()),
        }
    }
}

/// The last payload of `messages` that decodes to an input snapshot.
pub open spec fn spec_latest_input(messages: Seq<Seq<u8>>) -> Option<PlayerInput>
    decreases messages.len(),
{
    if messages.len() == 0 {
        None
    } else {
        match PlayerInput::spec_decode(messages.last()) {
            Some(input) => Some(input),
            None => spec_latest_input(messages.drop_last()),
        }
    }
}

/// The payloads of `messages`.
pub open spec fn payloads(messages: Seq<Vec<u8>>) -> Seq<Seq<u8>> {
    messages.map_values(|m: Vec<u8>| m@)
}

/// What an authority holds.
pub struct AuthorityView {
    pub entities: Seq<PlayerEntity>,
    pub lobby: Map<u64, u64>,
    pub next_entity: u64,
}

impl AuthorityView {
    /// The invariant of the authority.
    pub open spec fn wf(self) -> bool {
        consistent(self.entities, self.lobby, self.next_entity)
    }

    /// The entity spawned for `client_id` at `translation`.
    pub open spec fn spawned(self, client_id: u64, translation: Translation) -> PlayerEntity {
        PlayerEntity {
            entity: self.next_entity,
            player: Player { id: client_id },
            position: PlayerPosition { transform: translation },
            input: PlayerInput::spec_idle(),
        }
    }

    /// The authority after the connection of `client_id`; unchanged once
    /// every entity identifier has been handed out.
    pub open spec fn connect(self, client_id: u64, translation: Translation) -> AuthorityView {
        if self.next_entity == u64::MAX {
            self
        } else {
            AuthorityView {
                entities: without_client(self.entities, client_id).push(
                    self.spawned(client_id, translation),
                ),
                lobby: self.lobby.insert(client_id, self.next_entity),
                next_entity: (self.next_entity + 1) as u64,
            }
        }
    }

    /// What is sent on the connection of `client_id`: to the new client one
    /// announcement per entity of the others, then to everyone the
    /// announcement of the new entity.
    pub open spec fn connect_outgoing(self, client_id: u64, translation: Translation) -> Seq<
        Outgoing,
    > {
        if self.next_entity == u64::MAX {
            Seq::empty()
        } else {
            announcements(without_client(self.entities, client_id)).map_values(
                |m: ServerMessages| addressed(client_id, m),
            ).push(
                Outgoing {
                    to: Recipient::Everyone,
                    message: announcement(self.spawned(client_id, translation)),
                },
            )
        }
    }

    /// The authority after the disconnection of `client_id`.
    pub open spec fn disconnect(self, client_id: u64) -> AuthorityView {
        AuthorityView {
            entities: without_client(self.entities, client_id),
            lobby: self.lobby.remove(client_id),
            next_entity: self.next_entity,
        }
    }

    /// The authority after `event`; `spawn` is where a new entity stands.
    pub open spec fn handle(self, event: ConnectionEvent, spawn: Translation) -> AuthorityView {
        match event {
            ConnectionEvent::Connected { client_id } => self.connect(client_id, spawn),
            ConnectionEvent::Disconnected { client_id } => self.disconnect(client_id),
        }
    }

    /// What is sent on `event`.
    pub open spec fn outgoing(self, event: ConnectionEvent, spawn: Translation) -> Seq<Outgoing> {
        match event {
            ConnectionEvent::Connected { client_id } => self.connect_outgoing(client_id, spawn),
            ConnectionEvent::Disconnected { client_id } => seq![
                Outgoing {
                    to: Recipient::Everyone,
                    message: ServerMessages::PlayerRemove { id: client_id },
                },
            ],
        }
    }

    /// The authority after `events` in order, event `i` with `spawns[i]`.
    pub open spec fn handle_all(
        self,
        events: Seq<ConnectionEvent>,
        spawns: Seq<Translation>,
    ) -> AuthorityView
        decreases events.len(),
    {
        if events.len() == 0 {
            self
        } else {
            self.handle_all(events.drop_last(), spawns.drop_last()).handle(
                events.last(),
                spawns.last(),
            )
        }
    }

    /// What is sent on `events` in order.
    pub open spec fn outgoing_all(
        self,
        events: Seq<ConnectionEvent>,
        spawns: Seq<Translation>,
    ) -> Seq<Outgoing>
        decreases events.len(),
    {
        if events.len() == 0 {
            Seq::empty()
        } else {
            self.outgoing_all(events.drop_last(), spawns.drop_last()) + self.handle_all(
                events.drop_last(),
                spawns.drop_last(),
            ).outgoing(events.last(), spawns.last())
        }
    }

    /// The authority with the entity of `client_id` at `position`; unchanged
    /// where the client controls none.
    pub open spec fn with_position(
        self,
        client_id: u64,
        position: PlayerPosition,
    ) -> AuthorityView {
        if self.lobby.contains_key(client_id) {
            let i = index_of_client(self.entities, client_id);
            AuthorityView {
                entities: self.entities.update(i, PlayerEntity { position, ..self.entities[i] }),
                ..self
            }
        } else {
            self
        }
    }

    /// The authority with the entity of `client_id` steered by `input`;
    /// unchanged where the client controls none.
    pub open spec fn with_input(self, client_id: u64, input: PlayerInput) -> AuthorityView {
        if self.lobby.contains_key(client_id) {
            let i = index_of_client(self.entities, client_id);
            AuthorityView {
                entities: self.entities.update(i, PlayerEntity { input, ..self.entities[i] }),
                ..self
            }
        } else {
            self
        }
    }

    /// The authority after the `Position` payloads `messages` of
    /// `client_id`, in order: the last well-formed one stands, a malformed
    /// one is dropped.
    pub open spec fn positions_received(
        self,
        client_id: u64,
        messages: Seq<Seq<u8>>,
    ) -> AuthorityView {
        match spec_latest_position(messages) {
            Some(position) => self.with_position(client_id, position),
            None => self,
        }
    }

    /// The authority after the `Input` payloads `messages` of `client_id`,
    /// in order: the last well-formed one stands, a malformed one is
    /// dropped.
    pub open spec fn inputs_received(
        self,
        client_id: u64,
        messages: Seq<Seq<u8>>,
    ) -> AuthorityView {
        match spec_latest_input(messages) {
            Some(input) => self.with_input(client_id, input),
            None => self,
        }
    }
}

/// `e` after what its client sent: the last well-formed input snapshot and
/// the last well-formed position among the payloads that `inbox` holds for
/// the client, by channel.
pub open spec fn heard(e: PlayerEntity, inbox: Map<(u64, u8), Seq<Seq<u8>>>) -> PlayerEntity {
    PlayerEntity {
        input: match spec_latest_input(inbox[(e.player.id, ClientChannel::Input.spec_id())]) {
            Some(input) => input,
            None => e.input,
        },
        position: match spec_latest_position(
            inbox[(e.player.id, ClientChannel::Position.spec_id())],
        ) {
            Some(position) => position,
            None => e.position,
        },
        ..e
    }
}

impl AuthorityView {
    /// The authority after what the clients of `clients` sent.
    pub open spec fn absorbed(
        self,
        clients: Set<u64>,
        inbox: Map<(u64, u8), Seq<Seq<u8>>>,
    ) -> AuthorityView {
        AuthorityView {
            entities: self.entities.map_values(
                |e: PlayerEntity|
                    if clients.contains(e.player.id) {
                        heard(e, inbox)
                    } else {
                        e
                    },
            ),
            ..self
        }
    }
}

/// Entities that keep their identifiers and their clients keep the state
/// consistent.
pub proof fn lemma_same_identities(
    entities: Seq<PlayerEntity>,
    after: Seq<PlayerEntity>,
    lobby: Map<u64, u64>,
    next: u64,
)
    requires
        consistent(entities, lobby, next),
        after.len() == entities.len(),
        forall|k: int|
            0 <= k < entities.len() ==> (#[trigger] after[k]).entity == entities[k].entity
                && after[k].player == entities[k].player,
    ensures
        consistent(after, lobby, next),
{
    assert forall|c: u64| #[trigger] lobby.contains_key(c) implies has_client(after, c) by {
        let k = index_of_client(entities, c);
        assert(owns(entities, c, k));
        assert(owns(after, c, k));
    }
    assert forall|k: int| 0 <= k < after.len() implies lobby.contains_key(
        #[trigger] after[k].player.id,
    ) && lobby[after[k].player.id] == after[k].entity by {
        assert(lobby.contains_key(entities[k].player.id));
    }
    assert forall|i: int, j: int| 0 <= i < j < after.len() implies after[i].entity
        < after[j].entity && after[i].player.id != after[j].player.id by {
        assert(entities[i].entity < entities[j].entity);
        assert(entities[i].player.id != entities[j].player.id);
    }
    assert forall|i: int| 0 <= i < after.len() implies after[i].entity < next by {
        assert(entities[i].entity < next);
    }
}

/// Hearing one more client is hearing its inputs, then its positions: the
/// order in which clients are heard does not matter.
pub proof fn lemma_absorb_client(
    v: AuthorityView,
    done: Set<u64>,
    inbox: Map<(u64, u8), Seq<Seq<u8>>>,
    client_id: u64,
)
    requires
        v.wf(),
        !done.contains(client_id),
    ensures
        v.absorbed(done, inbox).wf(),
        v.absorbed(done, inbox).inputs_received(
            client_id,
            inbox[(client_id, ClientChannel::Input.spec_id())],
        ).wf(),
        v.absorbed(done, inbox).inputs_received(
            client_id,
            inbox[(client_id, ClientChannel::Input.spec_id())],
        ).positions_received(client_id, inbox[(client_id, ClientChannel::Position.spec_id())])
            == v.absorbed(done.insert(client_id), inbox),
{
    let a = v.absorbed(done, inbox);
    lemma_same_identities(v.entities, a.entities, v.lobby, v.next_entity);
    let b = a.inputs_received(client_id, inbox[(client_id, ClientChannel::Input.spec_id())]);
    let c = b.positions_received(client_id, inbox[(client_id, ClientChannel::Position.spec_id())]);
    let target = v.absorbed(done.insert(client_id), inbox);
    lemma_without_client(v.entities, v.lobby, v.next_entity, client_id);
    if v.lobby.contains_key(client_id) {
        let i = index_of_client(v.entities, client_id);
        assert(owns(v.entities, client_id, i));
        assert(owns(a.entities, client_id, i));
        lemma_one_entity_per_client(a.entities, a.lobby, a.next_entity, client_id, i);
        lemma_same_identities(a.entities, b.entities, v.lobby, v.next_entity);
        assert(owns(b.entities, client_id, i));
        lemma_one_entity_per_client(b.entities, b.lobby, b.next_entity, client_id, i);
        assert forall|k: int| 0 <= k < target.entities.len() implies c.entities[k]
            == target.entities[k] by {
            if k != i {
                if k < i {
                    assert(v.entities[k].player.id != v.entities[i].player.id);
                } else {
                    assert(v.entities[i].player.id != v.entities[k].player.id);
                }
            }
        }
        assert(c.entities =~= target.entities);
    } else {
        assert forall|k: int| 0 <= k < target.entities.len() implies c.entities[k]
            == target.entities[k] by {
            if v.entities[k].player.id == client_id {
                assert(owns(v.entities, client_id, k));
            }
        }
        assert(c.entities =~= target.entities);
    }
}

/// Every event leaves the authority consistent.
pub proof fn lemma_handle_wf(v: AuthorityView, event: ConnectionEvent, spawn: Translation)
    requires
        v.wf(),
    ensures
        v.handle(event, spawn).wf(),
{
    let client_id = match event {
        ConnectionEvent::Connected { client_id } => client_id,
        ConnectionEvent::Disconnected { client_id } => client_id,
    };
    lemma_without_client(v.entities, v.lobby, v.next_entity, client_id);
    match event {
        ConnectionEvent::Connected { client_id } => {
            if v.next_entity < u64::MAX {
                lemma_spawn_consistent(
                    without_client(v.entities, client_id),
                    v.lobby.remove(client_id),
                    v.next_entity,
                    v.spawned(client_id, spawn),
                );
                assert(v.lobby.remove(client_id).insert(client_id, v.next_entity)
                    =~= v.lobby.insert(client_id, v.next_entity));
            }
        },
        ConnectionEvent::Disconnected { client_id } => {},
    }
}

/// Every sequence of events leaves the authority consistent, wherever the
/// new entities stand.
pub proof fn lemma_handle_all_wf(
    v: AuthorityView,
    events: Seq<ConnectionEvent>,
    spawns: Seq<Translation>,
)
    requires
        v.wf(),
    ensures
        v.handle_all(events, spawns).wf(),
    decreases events.len(),
{
    if events.len() > 0 {
        lemma_handle_all_wf(v, events.drop_last(), spawns.drop_last());
        lemma_handle_wf(
            v.handle_all(events.drop_last(), spawns.drop_last()),
            events.last(),
            spawns.last(),
        );
    }
}

/// The disconnection of a client that controls no entity changes nothing,
/// so a second disconnection leaves what the first left.
pub proof fn lemma_disconnect_unknown(v: AuthorityView, client_id: u64)
    requires
        v.wf(),
    ensures
        !v.lobby.contains_key(client_id) ==> v.disconnect(client_id) == v,
        v.disconnect(client_id).disconnect(client_id) == v.disconnect(client_id),
{
    lemma_without_client(v.entities, v.lobby, v.next_entity, client_id);
    let once = v.disconnect(client_id);
    assert(once.lobby.remove(client_id) =~= once.lobby);
    if !v.lobby.contains_key(client_id) {
        assert(v.lobby.remove(client_id) =~= v.lobby);
    }
}

/// Despawning the entity of a client, if it controls one, and striking the
/// client from the lobby keeps the state consistent.
pub proof fn lemma_without_client(
    entities: Seq<PlayerEntity>,
    lobby: Map<u64, u64>,
    next: u64,
    client_id: u64,
)
    requires
        consistent(entities, lobby, next),
    ensures
        consistent(without_client(entities, client_id), lobby.remove(client_id), next),
        !has_client(without_client(entities, client_id), client_id),
        has_client(entities, client_id) == lobby.contains_key(client_id),
{
    if has_client(entities, client_id) {
        let i = index_of_client(entities, client_id);
        assert(owns(entities, client_id, i));
        lemma_remove_consistent(entities, lobby, next, i);
        assert(lobby.contains_key(entities[i].player.id));
    } else {
        assert(lobby.remove(client_id) =~= lobby);
    }
}

/// A client's entity stands at one index only.
pub proof fn lemma_one_entity_per_client(
    entities: Seq<PlayerEntity>,
    lobby: Map<u64, u64>,
    next: u64,
    client_id: u64,
    i: int,
)
    requires
        consistent(entities, lobby, next),
        owns(entities, client_id, i),
    ensures
        has_client(entities, client_id),
        index_of_client(entities, client_id) == i,
        lobby.contains_key(client_id),
        lobby[client_id] == entities[i].entity,
{
    let k = index_of_client(entities, client_id);
    assert(owns(entities, client_id, k));
    if k < i {
        assert(entities[k].player.id != entities[i].player.id);
    } else if i < k {
        assert(entities[i].player.id != entities[k].player.id);
    }
}

/// Despawning a client's entity and striking the client from the lobby
/// keeps the state consistent.
pub proof fn lemma_remove_consistent(
    entities: Seq<PlayerEntity>,
    lobby: Map<u64, u64>,
    next: u64,
    i: int,
)
    requires
        consistent(entities, lobby, next),
        0 <= i < entities.len(),
    ensures
        consistent(entities.remove(i), lobby.remove(entities[i].player.id), next),
        !has_client(entities.remove(i), entities[i].player.id),
{
    let after = entities.remove(i);
    let client_id = entities[i].player.id;
    let lobby_after = lobby.remove(client_id);
    assert forall|k: int| 0 <= k < after.len() implies after[k] == entities[if k < i {
        k
    } else {
        k + 1
    }] by {}
    assert forall|k: int| 0 <= k < after.len() implies after[k].player.id != client_id by {
        let from = if k < i {
            k
        } else {
            k + 1
        };
        if from < i {
            assert(entities[from].player.id != entities[i].player.id);
        } else {
            assert(entities[i].player.id != entities[from].player.id);
        }
    }
    assert forall|c: u64| #[trigger] lobby_after.contains_key(c) implies has_client(after, c) by {
        assert(lobby.contains_key(c));
        let k = index_of_client(entities, c);
        assert(owns(entities, c, k));
        if k < i {
            assert(owns(after, c, k));
        } else {
            assert(owns(after, c, k - 1));
        }
    }
    assert(!has_client(after, client_id)) by {
        if has_client(after, client_id) {
            let k = index_of_client(after, client_id);
            assert(owns(after, client_id, k));
        }
    }
}

/// Spawning an entity under the next identifier, for a client that controls
/// none, and entering the client in the lobby keeps the state consistent.
pub proof fn lemma_spawn_consistent(
    entities: Seq<PlayerEntity>,
    lobby: Map<u64, u64>,
    next: u64,
    e: PlayerEntity,
)
    requires
        consistent(entities, lobby, next),
        !has_client(entities, e.player.id),
        e.entity == next,
        next < u64::MAX,
    ensures
        consistent(entities.push(e), lobby.insert(e.player.id, e.entity), (next + 1) as u64),
{
    let after = entities.push(e);
    let lobby_after = lobby.insert(e.player.id, e.entity);
    assert forall|i: int, j: int| 0 <= i < j < after.len() implies after[i].player.id
        != after[j].player.id by {
        if j == entities.len() {
            assert(!owns(entities, e.player.id, i));
        }
    }
    assert forall|c: u64| #[trigger] lobby_after.contains_key(c) implies has_client(after, c) by {
        if c == e.player.id {
            assert(owns(after, c, entities.len() as int));
        } else {
            let k = index_of_client(entities, c);
            assert(owns(entities, c, k));
            assert(owns(after, c, k));
        }
    }
    assert forall|i: int| 0 <= i < after.len() implies lobby_after.contains_key(
        #[trigger] after[i].player.id,
    ) && lobby_after[after[i].player.id] == after[i].entity by {
        if i < entities.len() {
            assert(!owns(entities, e.player.id, i));
            assert(lobby.contains_key(entities[i].player.id));
        }
    }
}

/// The server replication authority.
pub struct ServerAuthority {
    lobby: ServerLobby,
    entities: Vec<PlayerEntity>,
    next_entity: u64,
}

impl View for ServerAuthority {
    type V = AuthorityView;

    closed spec fn view(&self) -> AuthorityView {
        AuthorityView {
            entities: self.entities@,
            lobby: self.lobby@,
            next_entity: self.next_entity,
        }
    }
}

/// The last payload of `messages` that decodes to a position.
pub fn latest_position(messages: &Vec<Vec<u8>>) -> (latest: Option<PlayerPosition>)
    ensures
        latest == spec_latest_position(payloads(messages@)),
{
    let mut i: usize = messages.len();
    assert(payloads(messages@).take(i as int) =~= payloads(messages@));
    while i > 0
        invariant
            i <= messages.len(),
            spec_latest_position(payloads(messages@)) == spec_latest_position(
                payloads(messages@).take(i as int),
            ),
        decreases i,
    {
        let ghost upto = payloads(messages@).take(i as int);
        assert(upto.last() == messages@[i - 1]@);
        assert(upto.drop_last() =~= payloads(messages@).take(i - 1));
        match PlayerPosition::decode(messages[i - 1].as_slice()) {
            Some(position) => {
                return Some(position);
            },
            None => {},
        }
        i = i - 1;
    }
    assert(payloads(messages@).take(0).len() == 0);
    None
}

/// The last payload of `messages` that decodes to an input snapshot.
pub fn latest_input(messages: &Vec<Vec<u8>>) -> (latest: Option<PlayerInput>)
    ensures
        latest == spec_latest_input(payloads(messages@)),
{
    let mut i: usize = messages.len();
    assert(payloads(messages@).take(i as int) =~= payloads(messages@));
    while i > 0
        invariant
            i <= messages.len(),
            spec_latest_input(payloads(messages@)) == spec_latest_input(
                payloads(messages@).take(i as int),
            ),
        decreases i,
    {
        let ghost upto = payloads(messages@).take(i as int);
        assert(upto.last() == messages@[i - 1]@);
        assert(upto.drop_last() =~= payloads(messages@).take(i - 1));
        match PlayerInput::decode(messages[i - 1].as_slice()) {
            Some(input) => {
                return Some(input);
            },
            None => {},
        }
        i = i - 1;
    }
    assert(payloads(messages@).take(0).len() == 0);
    None
}

impl ServerAuthority {
    /// The invariant of the authority.
    pub open spec fn wf(&self) -> bool {
        self@.wf()
    }

    /// An authority with no client and no entity.
    pub fn new() -> (authority: ServerAuthority)
        ensures
            authority.wf(),
            authority@.entities == Seq::<PlayerEntity>::empty(),
            authority@.lobby == Map::<u64, u64>::empty(),
            authority@.next_entity == 0,
    {
        let authority = ServerAuthority {
            lobby: ServerLobby { players: HashMap::new() },
            entities: Vec::new(),
            next_entity: 0,
        };
        assert forall|c: u64| #[trigger] authority@.lobby.contains_key(c) implies has_client(
            authority@.entities,
            c,
        ) by {}
        authority
    }

    /// The index at which the entity of `client_id` stands.
    fn find_client(&self, client_id: u64) -> (found: Option<usize>)
        requires
            self.wf(),
        ensures
            match found {
                Some(i) => owns(self@.entities, client_id, i as int) && i as int
                    == index_of_client(self@.entities, client_id),
                None => !has_client(self@.entities, client_id),
            },
            found is Some <==> self@.lobby.contains_key(client_id),
    {
        proof {
            lemma_without_client(self@.entities, self@.lobby, self@.next_entity, client_id);
        }
        if !self.lobby.players.contains_key(&client_id) {
            return None;
        }
        let ghost at = index_of_client(self@.entities, client_id);
        assert(owns(self@.entities, client_id, at));
        let mut i: usize = 0;
        while i < self.entities.len()
            invariant
                i <= at < self.entities.len(),
                self.wf(),
                owns(self@.entities, client_id, at),
                forall|k: int| 0 <= k < i ==> self@.entities[k].player.id != client_id,
            decreases self.entities.len() - i,
        {
            if self.entities[i].player.id == client_id {
                proof {
                    lemma_one_entity_per_client(
                        self@.entities,
                        self@.lobby,
                        self@.next_entity,
                        client_id,
                        i as int,
                    );
                }
                return Some(i);
            }
            i = i + 1;
        }
        None
    }

    /// Despawns the entity of `client_id`, if it has one.
    fn remove_client(&mut self, client_id: u64) -> (despawned: Option<u64>)
        requires
            old(self).wf(),
        ensures
            final(self).wf(),
            final(self)@ == old(self)@.disconnect(client_id),
            despawned == lobby_entity(old(self)@.lobby, client_id),
    {
        proof {
            lemma_without_client(self@.entities, self@.lobby, self@.next_entity, client_id);
        }
        match self.find_client(client_id) {
            Some(i) => {
                proof {
                    lemma_one_entity_per_client(
                        self@.entities,
                        self@.lobby,
                        self@.next_entity,
                        client_id,
                        i as int,
                    );
                }
                let e = self.entities.remove(i);
                self.lobby.players.remove(&client_id);
                Some(e.entity)
            },
            None => {
                assert(self@.lobby.remove(client_id) =~= self@.lobby);
                None
            },
        }
    }

    /// Handles the connection of `client_id`.
    ///
    /// An entity that the client still controlled is despawned first. Then
    /// every live entity is announced to the new client, a new entity is
    /// spawned at `translation` with no direction held, the client is entered
    /// in the lobby, and the new entity is announced to everyone.
    ///
    /// Nothing happens, and nothing is returned, once every entity identifier
    /// has been handed out.
    pub fn connect(&mut self, client_id: u64, translation: Translation) -> (admission: Option<
        Admission,
    >)
        requires
            old(self).wf(),
        ensures
            final(self).wf(),
            final(self)@ == old(self)@.connect(client_id, translation),
            admission is None <==> old(self)@.next_entity == u64::MAX,
            admission matches Some(a) ==> {
                &&& a.entity == old(self)@.next_entity
                &&& a.replaced == lobby_entity(old(self)@.lobby, client_id)
                &&& a.catch_up@ == announcements(without_client(old(self)@.entities, client_id))
                &&& a.announce == announcement(old(self)@.spawned(client_id, translation))
            },
    {
        if self.next_entity == u64::MAX {
            return None;
        }
        proof {
            lemma_handle_wf(self@, ConnectionEvent::Connected { client_id }, translation);
        }
        let replaced = self.remove_client(client_id);
        let catch_up = self.catch_up();
        let entity = self.next_entity;
        let spawned = PlayerEntity {
            entity,
            player: Player { id: client_id },
            position: PlayerPosition { transform: translation },
            input: PlayerInput { up: false, down: false, left: false, right: false },
        };
        self.entities.push(spawned);
        self.lobby.players.insert(client_id, entity);
        self.next_entity = entity + 1;
        assert(self@.lobby =~= old(self)@.lobby.insert(client_id, entity));
        Some(
            Admission {
                entity,
                replaced,
                catch_up,
                announce: ServerMessages::PlayerCreate { entity, id: client_id, translation },
            },
        )
    }

    /// Handles the disconnection of `client_id`: its entity, if it has one,
    /// is despawned and the client leaves the lobby. The removal is announced
    /// whether or not the client was known.
    pub fn disconnect(&mut self, client_id: u64) -> (departure: Departure)
        requires
            old(self).wf(),
        ensures
            final(self).wf(),
            final(self)@ == old(self)@.disconnect(client_id),
            departure.despawned == lobby_entity(old(self)@.lobby, client_id),
            departure.announce == (ServerMessages::PlayerRemove { id: client_id }),
    {
        let despawned = self.remove_client(client_id);
        Departure { despawned, announce: ServerMessages::PlayerRemove { id: client_id } }
    }

    /// Handles one event of the transport, and returns what is to be sent
    /// for it, in sending order. `spawn` is where the entity of a connecting
    /// client is placed.
    pub fn handle_event(&mut self, event: ConnectionEvent, spawn: Translation) -> (outgoing: Vec<
        Outgoing,
    >)
        requires
            old(self).wf(),
        ensures
            final(self).wf(),
            final(self)@ == old(self)@.handle(event, spawn),
            outgoing@ == old(self)@.outgoing(event, spawn),
    {
        let mut outgoing: Vec<Outgoing> = Vec::new();
        match event {
            ConnectionEvent::Connected { client_id } => {
                match self.connect(client_id, spawn) {
                    Some(admission) => {
                        let mut i: usize = 0;
                        while i < admission.catch_up.len()
                            invariant
                                i <= admission.catch_up.len(),
                                outgoing@ == admission.catch_up@.take(i as int).map_values(
                                    |m: ServerMessages| addressed(client_id, m),
                                ),
                            decreases admission.catch_up.len() - i,
                        {
                            outgoing.push(
                                Outgoing {
                                    to: Recipient::Client(client_id),
                                    message: admission.catch_up[i],
                                },
                            );
                            assert(outgoing@ =~= admission.catch_up@.take(i + 1).map_values(
                                |m: ServerMessages| addressed(client_id, m),
                            ));
                            i = i + 1;
                        }
                        assert(admission.catch_up@.take(i as int) =~= admission.catch_up@);
                        outgoing.push(
                            Outgoing { to: Recipient::Everyone, message: admission.announce },
                        );
                        assert(outgoing@ =~= old(self)@.outgoing(event, spawn));
                    },
                    None => {},
                }
            },
            ConnectionEvent::Disconnected { client_id } => {
                let departure = self.disconnect(client_id);
                outgoing.push(Outgoing { to: Recipient::Everyone, message: departure.announce });
                assert(outgoing@ =~= old(self)@.outgoing(event, spawn));
            },
        }
        outgoing
    }

    /// One `PlayerCreate` per live entity, in spawn order.
    pub fn catch_up(&self) -> (messages: Vec<ServerMessages>)
        ensures
            messages@ == announcements(self@.entities),
    {
        let mut messages: Vec<ServerMessages> = Vec::new();
        let mut i: usize = 0;
        while i < self.entities.len()
            invariant
                i <= self.entities.len(),
                messages@ == announcements(self@.entities.take(i as int)),
            decreases self.entities.len() - i,
        {
            let e = self.entities[i];
            messages.push(
                ServerMessages::PlayerCreate {
                    entity: e.entity,
                    id: e.player.id,
                    translation: e.position.transform,
                },
            );
            assert(messages@ =~= announcements(self@.entities.take(i + 1)));
            i = i + 1;
        }
        assert(self@.entities.take(i as int) =~= self@.entities);
        messages
    }

    /// Overwrites the position of the entity of `client_id` with the one the
    /// client reports. Says whether the client controls an entity; nothing
    /// changes where it does not.
    pub fn set_position(&mut self, client_id: u64, position: PlayerPosition) -> (known: bool)
        requires
            old(self).wf(),
        ensures
            final(self).wf(),
            known == old(self)@.lobby.contains_key(client_id),
            final(self)@ == old(self)@.with_position(client_id, position),
    {
        match self.find_client(client_id) {
            Some(i) => {
                let e = self.entities[i];
                let moved = PlayerEntity { position, ..e };
                proof {
                    lemma_same_identities(
                        self@.entities,
                        self@.entities.update(i as int, moved),
                        self@.lobby,
                        self@.next_entity,
                    );
                }
                self.entities.set(i, moved);
                true
            },
            None => false,
        }
    }

    /// Replaces the directional intent of the entity of `client_id`. Says
    /// whether the client controls an entity; nothing changes where it does
    /// not.
    pub fn set_input(&mut self, client_id: u64, input: PlayerInput) -> (known: bool)
        requires
            old(self).wf(),
        ensures
            final(self).wf(),
            known == old(self)@.lobby.contains_key(client_id),
            final(self)@ == old(self)@.with_input(client_id, input),
    {
        match self.find_client(client_id) {
            Some(i) => {
                let e = self.entities[i];
                let steered = PlayerEntity { input, ..e };
                proof {
                    lemma_same_identities(
                        self@.entities,
                        self@.entities.update(i as int, steered),
                        self@.lobby,
                        self@.next_entity,
                    );
                }
                self.entities.set(i, steered);
                true
            },
            None => false,
        }
    }

    /// Handles the `Position` payloads that arrived from `client_id`, in
    /// arrival order. Each well-formed one overwrites the position of the
    /// client's entity, so the last one stands; a malformed one is dropped.
    pub fn receive_positions(&mut self, client_id: u64, messages: &Vec<Vec<u8>>)
        requires
            old(self).wf(),
        ensures
            final(self).wf(),
            final(self)@ == old(self)@.positions_received(client_id, payloads(messages@)),
    {
        match latest_position(messages) {
            Some(position) => {
                self.set_position(client_id, position);
            },
            None => {},
        }
    }

    /// Handles the `Input` payloads that arrived from `client_id`, in
    /// arrival order. Each well-formed one replaces the directional intent
    /// of the client's entity, so the last one stands; a malformed one is
    /// dropped.
    pub fn receive_inputs(&mut self, client_id: u64, messages: &Vec<Vec<u8>>)
        requires
            old(self).wf(),
        ensures
            final(self).wf(),
            final(self)@ == old(self)@.inputs_received(client_id, payloads(messages@)),
    {
        match latest_input(messages) {
            Some(input) => {
                self.set_input(client_id, input);
            },
            None => {},
        }
    }

    /// The full state of this tick: every live entity with its translation,
    /// in spawn order.
    pub fn snapshot(&self) -> (s: NetworkedEntities)
        requires
            self.wf(),
        ensures
            s@.wf(),
            s@ == snapshot_of(self@.entities),
    {
        let mut entities: Vec<u64> = Vec::new();
        let mut translation: Vec<Translation> = Vec::new();
        let mut i: usize = 0;
        while i < self.entities.len()
            invariant
                i <= self.entities.len(),
                entities@ == snapshot_of(self@.entities.take(i as int)).entities,
                translation@ == snapshot_of(self@.entities.take(i as int)).translation,
            decreases self.entities.len() - i,
        {
            let e = self.entities[i];
            entities.push(e.entity);
            translation.push(e.position.transform);
            assert(entities@ =~= snapshot_of(self@.entities.take(i + 1)).entities);
            assert(translation@ =~= snapshot_of(self@.entities.take(i + 1)).translation);
            i = i + 1;
        }
        proof {
            assert(self@.entities.take(i as int) =~= self@.entities);
            lemma_snapshot_aligned(self@.entities, self@.lobby, self@.next_entity);
        }
        NetworkedEntities::assemble(entities, translation)
    }

    /// The number of live entities.
    pub fn len(&self) -> (n: usize)
        ensures
            n == self@.entities.len(),
    {
        self.entities.len()
    }

    /// The live entities, in spawn order.
    pub fn players(&self) -> (players: &Vec<PlayerEntity>)
        ensures
            players@ == self@.entities,
    {
        &self.entities
    }

    /// The entity that `client_id` controls.
    pub fn entity_of(&self, client_id: u64) -> (entity: Option<u64>)
        ensures
            entity == lobby_entity(self@.lobby, client_id),
    {
        match self.lobby.players.get(&client_id) {
            Some(entity) => Some(*entity),
            None => None,
        }
    }

    /// The lobby.
    pub fn server_lobby(&self) -> (lobby: &ServerLobby)
        ensures
            lobby@ == self@.lobby,
    {
        &self.lobby
    }
}

/// The snapshot of a consistent state is aligned: as many translations as
/// entities, and no entity twice.
pub proof fn lemma_snapshot_aligned(entities: Seq<PlayerEntity>, lobby: Map<u64, u64>, next: u64)
    requires
        consistent(entities, lobby, next),
        entities.len() <= u64::MAX,
    ensures
        snapshot_of(entities).wf(),
{
    let s = snapshot_of(entities);
    assert forall|i: int, j: int|
        0 <= i < s.entities.len() && 0 <= j < s.entities.len() && i != j implies s.entities[i]
        != s.entities[j] by {
        if i < j {
            assert(entities[i].entity < entities[j].entity);
        } else {
            assert(entities[j].entity < entities[i].entity);
        }
    }
}

} // verus!
