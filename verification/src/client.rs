//! The client's side of replication: a mirror of the server's entities.
//!
//! The mirror keeps three tables that always agree: the lobby (client
//! identifier to the pair of a local and a server entity), the mapping
//! (server entity to local entity) by which position snapshots are routed,
//! and the local representations themselves. Local entities get identifiers
//! in increasing order, never reused.

use crate::snapshot::{spec_decode, NetworkedEntities, NetworkedEntitiesView};
use crate::wire::{ServerMessages, Translation};
use std::collections::HashMap;
use vstd::prelude::*;

verus! {

broadcast use vstd::std_specs::hash::group_hash_axioms;

/// The identifier under which this client is connected.
#[derive(Clone, Copy, Debug, PartialEq, Eq, Structural)]
pub struct CurrentClientId(pub u64);

/// The two entities that stand for one player on a client.
#[derive(Clone, Copy, Debug, PartialEq, Eq, Structural)]
pub struct PlayerInfo {
    pub client_entity: u64,
    pub server_entity: u64,
}

/// The local representation of a player.
#[derive(Clone, Copy, Debug, PartialEq, Eq, Structural)]
pub struct Replica {
    /// The client that controls the player.
    pub owner: u64,
    /// Where the player stands, as far as this client knows.
    pub translation: Translation,
    /// Whether this client controls the player itself.
    pub controllable: bool,
}

/// The client's table of players: client identifier to the player's
/// entities.
pub struct ClientLobby {
    pub players: HashMap<u64, PlayerInfo>,
}

impl View for ClientLobby {
    type V = Map<u64, PlayerInfo>;

    open spec fn view(&self) -> Map<u64, PlayerInfo> {
        self.players@
    }
}

/// Server entity to local entity.
pub struct NetworkMapping(pub HashMap<u64, u64>);

impl View for NetworkMapping {
    type V = Map<u64, u64>;

    open spec fn view(&self) -> Map<u64, u64> {
        self.0@
    }
}

/// What became of the player that a `PlayerCreate` names.
#[derive(Clone, Copy, Debug, PartialEq, Eq, Structural)]
pub enum Created {
    /// A local representation was made for the player.
    Spawned { client_entity: u64 },
    /// The player was known: its representation was brought up to date.
    Updated { client_entity: u64 },
    /// The player is unknown and every local identifier has been handed
    /// out: nothing changed.
    Ignored,
}

/// What the mirror did on a `PlayerCreate`.
#[derive(Clone, Copy, Debug, PartialEq, Eq, Structural)]
pub struct CreateOutcome {
    /// The local entity of another player that held the announced server
    /// entity until now, destroyed.
    pub evicted: Option<u64>,
    pub created: Created,
}

/// What the mirror did on a lifecycle message.
#[derive(Clone, Copy, Debug, PartialEq, Eq, Structural)]
pub enum Reconciled {
    Created(CreateOutcome),
    /// The local entity of the removed player, destroyed; none where the
    /// player was unknown.
    Removed { client_entity: Option<u64> },
}

/// What a mirror holds.
pub struct MirrorView {
    pub client_id: u64,
    pub lobby: Map<u64, PlayerInfo>,
    pub mapping: Map<u64, u64>,
    pub replicas: Map<u64, Replica>,
    pub next_entity: u64,
}

impl MirrorView {
    /// The three tables agree: each player of the lobby is mapped and
    /// represented, each mapped server entity and each representation
    /// belongs to a player of the lobby, and a representation is
    /// controllable exactly when its player is this client.
    pub open spec fn wf(self) -> bool {
        &&& forall|c: u64| #[trigger]
            self.lobby.contains_key(c) ==> {
                let info = self.lobby[c];
                &&& self.mapping.contains_key(info.server_entity)
                &&& self.mapping[info.server_entity] == info.client_entity
                &&& self.replicas.contains_key(info.client_entity)
                &&& self.replicas[info.client_entity].owner == c
                &&& self.replicas[info.client_entity].controllable == (c == self.client_id)
            }
        &&& forall|s: u64| #[trigger]
            self.mapping.contains_key(s) ==> {
                let e = self.mapping[s];
                &&& self.replicas.contains_key(e)
                &&& self.lobby.contains_key(self.replicas[e].owner)
                &&& self.lobby[self.replicas[e].owner].server_entity == s
            }
        &&& forall|e: u64| #[trigger]
            self.replicas.contains_key(e) ==> {
                &&& self.lobby.contains_key(self.replicas[e].owner)
                &&& self.lobby[self.replicas[e].owner].client_entity == e
                &&& e < self.next_entity
            }
    }

    /// The client whose player holds the server entity `entity`.
    pub open spec fn holder(self, entity: u64) -> Option<u64> {
        if self.mapping.contains_key(entity) {
            Some(self.replicas[self.mapping[entity]].owner)
        } else {
            None
        }
    }

    /// The local entity of the player of `id`.
    pub open spec fn local_entity(self, id: u64) -> Option<u64> {
        if self.lobby.contains_key(id) {
            Some(self.lobby[id].client_entity)
        } else {
            None
        }
    }

    /// The mirror after a `PlayerRemove` of `id`: the player leaves all
    /// three tables at once; an unknown player changes nothing.
    pub open spec fn remove(self, id: u64) -> MirrorView {
        if self.lobby.contains_key(id) {
            let info = self.lobby[id];
            MirrorView {
                lobby: self.lobby.remove(id),
                mapping: self.mapping.remove(info.server_entity),
                replicas: self.replicas.remove(info.client_entity),
                ..self
            }
        } else {
            self
        }
    }

    /// The player, other than that of `id`, that holds `entity`.
    pub open spec fn rival(self, entity: u64, id: u64) -> Option<u64> {
        match self.holder(entity) {
            Some(other) => if other != id {
                Some(other)
            } else {
                None
            },
            None => None,
        }
    }

    /// The mirror without the rival of `id` for `entity`.
    pub open spec fn evict(self, entity: u64, id: u64) -> MirrorView {
        match self.rival(entity, id) {
            Some(other) => self.remove(other),
            None => self,
        }
    }

    /// A `PlayerCreate` of `id` cannot be honoured: the player is unknown
    /// and no local identifier is left.
    pub open spec fn exhausted(self, id: u64) -> bool {
        !self.lobby.contains_key(id) && self.next_entity == u64::MAX
    }

    /// The mirror after a `PlayerCreate`. A rival for the server entity is
    /// evicted. A known player keeps its local entity, which is mapped from
    /// `entity` and moved to `translation`. An unknown player gets a new
    /// local entity at `translation`, controllable where `id` is this
    /// client.
    pub open spec fn create(self, entity: u64, id: u64, translation: Translation) -> MirrorView {
        if self.exhausted(id) {
            self
        } else {
            let s = self.evict(entity, id);
            if s.lobby.contains_key(id) {
                let info = s.lobby[id];
                MirrorView {
                    lobby: s.lobby.insert(
                        id,
                        PlayerInfo { client_entity: info.client_entity, server_entity: entity },
                    ),
                    mapping: s.mapping.remove(info.server_entity).insert(
                        entity,
                        info.client_entity,
                    ),
                    replicas: s.replicas.insert(
                        info.client_entity,
                        Replica { translation, ..s.replicas[info.client_entity] },
                    ),
                    ..s
                }
            } else {
                let e = s.next_entity;
                MirrorView {
                    lobby: s.lobby.insert(id, PlayerInfo { client_entity: e, server_entity: entity }),
                    mapping: s.mapping.insert(entity, e),
                    replicas: s.replicas.insert(
                        e,
                        Replica { owner: id, translation, controllable: id == s.client_id },
                    ),
                    next_entity: (e + 1) as u64,
                    ..s
                }
            }
        }
    }

    /// The mirror after a lifecycle message.
    pub open spec fn apply(self, message: ServerMessages) -> MirrorView {
        match message {
            ServerMessages::PlayerCreate { entity, id, translation } => self.create(
                entity,
                id,
                translation,
            ),
            ServerMessages::PlayerRemove { id } => self.remove(id),
        }
    }

    /// What a `PlayerCreate` does, besides changing the mirror.
    pub open spec fn create_outcome(self, entity: u64, id: u64) -> CreateOutcome {
        if self.exhausted(id) {
            CreateOutcome { evicted: None, created: Created::Ignored }
        } else {
            CreateOutcome {
                evicted: match self.rival(entity, id) {
                    Some(other) => self.local_entity(other),
                    None => None,
                },
                created: if self.lobby.contains_key(id) {
                    Created::Updated { client_entity: self.lobby[id].client_entity }
                } else {
                    Created::Spawned { client_entity: self.next_entity }
                },
            }
        }
    }

    /// What a lifecycle message does, besides changing the mirror.
    pub open spec fn outcome(self, message: ServerMessages) -> Reconciled {
        match message {
            ServerMessages::PlayerCreate { entity, id, translation } => Reconciled::Created(
                self.create_outcome(entity, id),
            ),
            ServerMessages::PlayerRemove { id } => Reconciled::Removed {
                client_entity: self.local_entity(id),
            },
        }
    }

    /// The mirror after the payload of a lifecycle message; a malformed
    /// payload is dropped.
    pub open spec fn deliver(self, payload: Seq<u8>) -> MirrorView {
        match ServerMessages::spec_decode(payload) {
            Some(message) => self.apply(message),
            None => self,
        }
    }

    /// The mirror after the payloads of lifecycle messages, in order.
    pub open spec fn deliver_all(self, payloads: Seq<Seq<u8>>) -> MirrorView
        decreases payloads.len(),
    {
        if payloads.len() == 0 {
            self
        } else {
            self.deliver(payloads[0]).deliver_all(payloads.drop_first())
        }
    }

    /// What the well-formed ones among the payloads of lifecycle messages
    /// do, in order.
    pub open spec fn outcomes(self, payloads: Seq<Seq<u8>>) -> Seq<Reconciled>
        decreases payloads.len(),
    {
        if payloads.len() == 0 {
            Seq::empty()
        } else {
            match ServerMessages::spec_decode(payloads[0]) {
                Some(message) => seq![self.outcome(message)] + self.apply(message).outcomes(
                    payloads.drop_first(),
                ),
                None => self.outcomes(payloads.drop_first()),
            }
        }
    }

    /// The mirror after the payload of a position snapshot; a malformed
    /// payload is dropped.
    pub open spec fn place_payload(self, payload: Seq<u8>) -> MirrorView {
        match spec_decode(payload) {
            Some(snapshot) => self.place(snapshot),
            None => self,
        }
    }

    /// The mirror after the payloads of position snapshots, in order.
    pub open spec fn place_all(self, payloads: Seq<Seq<u8>>) -> MirrorView
        decreases payloads.len(),
    {
        if payloads.len() == 0 {
            self
        } else {
            self.place_payload(payloads[0]).place_all(payloads.drop_first())
        }
    }

    /// Index `i` of `snapshot` names the server entity of the local entity
    /// `e`.
    pub open spec fn hits(self, snapshot: NetworkedEntitiesView, i: int, e: u64) -> bool {
        &&& 0 <= i < snapshot.entities.len()
        &&& self.mapping.contains_key(snapshot.entities[i])
        &&& self.mapping[snapshot.entities[i]] == e
    }

    /// The mirror after a position snapshot: each representation whose
    /// server entity the snapshot names stands at the translation of that
    /// index; the others, and the lobby and the mapping, are as before.
    /// Indices that name an unmapped entity are skipped.
    pub open spec fn place(self, snapshot: NetworkedEntitiesView) -> MirrorView {
        MirrorView {
            replicas: Map::new(
                |e: u64| self.replicas.contains_key(e),
                |e: u64|
                    if exists|i: int| self.hits(snapshot, i, e) {
                        let i = choose|i: int| self.hits(snapshot, i, e);
                        Replica { translation: snapshot.translation[i], ..self.replicas[e] }
                    } else {
                        self.replicas[e]
                    },
            ),
            ..self
        }
    }
}

/// A lifecycle message leaves the tables in agreement.
pub proof fn lemma_apply_wf(v: MirrorView, message: ServerMessages)
    requires
        v.wf(),
    ensures
        v.apply(message).wf(),
{
    match message {
        ServerMessages::PlayerCreate { entity, id, translation } => {
            lemma_create_wf(v, entity, id, translation);
        },
        ServerMessages::PlayerRemove { id } => {
            lemma_remove_wf(v, id);
        },
    }
}

/// A `PlayerRemove` leaves the tables in agreement.
pub proof fn lemma_remove_wf(v: MirrorView, id: u64)
    requires
        v.wf(),
    ensures
        v.remove(id).wf(),
        !v.remove(id).lobby.contains_key(id),
        v.remove(id).next_entity == v.next_entity,
        v.remove(id).client_id == v.client_id,
{
    if v.lobby.contains_key(id) {
        let info = v.lobby[id];
        let after = v.remove(id);
        assert forall|c: u64| #[trigger] after.lobby.contains_key(c) implies {
            let i = after.lobby[c];
            &&& after.mapping.contains_key(i.server_entity)
            &&& after.mapping[i.server_entity] == i.client_entity
            &&& after.replicas.contains_key(i.client_entity)
            &&& after.replicas[i.client_entity].owner == c
            &&& after.replicas[i.client_entity].controllable == (c == after.client_id)
        } by {
            assert(v.lobby.contains_key(c));
        }
        assert forall|s: u64| #[trigger] after.mapping.contains_key(s) implies {
            let e = after.mapping[s];
            &&& after.replicas.contains_key(e)
            &&& after.lobby.contains_key(after.replicas[e].owner)
            &&& after.lobby[after.replicas[e].owner].server_entity == s
        } by {
            assert(v.mapping.contains_key(s));
        }
        assert forall|e: u64| #[trigger] after.replicas.contains_key(e) implies {
            &&& after.lobby.contains_key(after.replicas[e].owner)
            &&& after.lobby[after.replicas[e].owner].client_entity == e
            &&& e < after.next_entity
        } by {
            assert(v.replicas.contains_key(e));
        }
    }
}

/// Evicting the rival leaves the tables in agreement, and leaves the server
/// entity free or with the player of `id`.
pub proof fn lemma_evict_wf(v: MirrorView, entity: u64, id: u64)
    requires
        v.wf(),
    ensures
        v.evict(entity, id).wf(),
        v.evict(entity, id).rival(entity, id) is None,
        v.evict(entity, id).lobby.contains_key(id) == v.lobby.contains_key(id),
        v.evict(entity, id).next_entity == v.next_entity,
        v.evict(entity, id).client_id == v.client_id,
        v.lobby.contains_key(id) ==> v.evict(entity, id).lobby[id] == v.lobby[id],
{
    match v.rival(entity, id) {
        Some(other) => {
            lemma_remove_wf(v, other);
            assert(v.mapping.contains_key(entity));
            assert(v.lobby.contains_key(other));
            assert(v.lobby[other].server_entity == entity);
        },
        None => {},
    }
}

/// A `PlayerCreate` leaves the tables in agreement.
pub proof fn lemma_create_wf(v: MirrorView, entity: u64, id: u64, translation: Translation)
    requires
        v.wf(),
    ensures
        v.create(entity, id, translation).wf(),
{
    if !v.exhausted(id) {
        lemma_evict_wf(v, entity, id);
        let s = v.evict(entity, id);
        let after = v.create(entity, id, translation);
        if s.mapping.contains_key(entity) {
            assert(s.holder(entity) == Some(id));
            assert(s.lobby.contains_key(id));
            assert(s.lobby[id].server_entity == entity);
        }
        if s.lobby.contains_key(id) {
            let info = s.lobby[id];
            assert forall|c: u64| #[trigger] after.lobby.contains_key(c) implies {
                let i = after.lobby[c];
                &&& after.mapping.contains_key(i.server_entity)
                &&& after.mapping[i.server_entity] == i.client_entity
                &&& after.replicas.contains_key(i.client_entity)
                &&& after.replicas[i.client_entity].owner == c
                &&& after.replicas[i.client_entity].controllable == (c == after.client_id)
            } by {
                if c != id {
                    assert(s.lobby.contains_key(c));
                    assert(s.mapping.contains_key(s.lobby[c].server_entity));
                }
            }
            assert forall|m: u64| #[trigger] after.mapping.contains_key(m) implies {
                let e = after.mapping[m];
                &&& after.replicas.contains_key(e)
                &&& after.lobby.contains_key(after.replicas[e].owner)
                &&& after.lobby[after.replicas[e].owner].server_entity == m
            } by {
                if m != entity {
                    assert(s.mapping.contains_key(m));
                }
            }
            assert forall|e: u64| #[trigger] after.replicas.contains_key(e) implies {
                &&& after.lobby.contains_key(after.replicas[e].owner)
                &&& after.lobby[after.replicas[e].owner].client_entity == e
                &&& e < after.next_entity
            } by {
                if e != info.client_entity {
                    assert(s.replicas.contains_key(e));
                }
            }
        } else {
            let fresh = s.next_entity;
            assert(!s.replicas.contains_key(fresh)) by {
                if s.replicas.contains_key(fresh) {
                    assert(fresh < s.next_entity);
                }
            }
            assert(!s.mapping.contains_key(entity));
            assert forall|c: u64| #[trigger] after.lobby.contains_key(c) implies {
                let i = after.lobby[c];
                &&& after.mapping.contains_key(i.server_entity)
                &&& after.mapping[i.server_entity] == i.client_entity
                &&& after.replicas.contains_key(i.client_entity)
                &&& after.replicas[i.client_entity].owner == c
                &&& after.replicas[i.client_entity].controllable == (c == after.client_id)
            } by {
                if c != id {
                    assert(s.lobby.contains_key(c));
                    assert(s.mapping.contains_key(s.lobby[c].server_entity));
                    assert(s.replicas.contains_key(s.lobby[c].client_entity));
                }
            }
            assert forall|m: u64| #[trigger] after.mapping.contains_key(m) implies {
                let e = after.mapping[m];
                &&& after.replicas.contains_key(e)
                &&& after.lobby.contains_key(after.replicas[e].owner)
                &&& after.lobby[after.replicas[e].owner].server_entity == m
            } by {
                if m != entity {
                    assert(s.mapping.contains_key(m));
                    assert(s.replicas.contains_key(s.mapping[m]));
                }
            }
            assert forall|e: u64| #[trigger] after.replicas.contains_key(e) implies {
                &&& after.lobby.contains_key(after.replicas[e].owner)
                &&& after.lobby[after.replicas[e].owner].client_entity == e
                &&& e < after.next_entity
            } by {
                if e != fresh {
                    assert(s.replicas.contains_key(e));
                }
            }
        }
    }
}

/// In a mirror whose tables agree, distinct server entities map to distinct
/// local entities.
pub proof fn lemma_mapping_injective(v: MirrorView, s1: u64, s2: u64)
    requires
        v.wf(),
        v.mapping.contains_key(s1),
        v.mapping.contains_key(s2),
        v.mapping[s1] == v.mapping[s2],
    ensures
        s1 == s2,
{
}

/// A position snapshot leaves the tables in agreement.
pub proof fn lemma_place_wf(v: MirrorView, snapshot: NetworkedEntitiesView)
    requires
        v.wf(),
    ensures
        v.place(snapshot).wf(),
{
    let after = v.place(snapshot);
    assert forall|c: u64| #[trigger] after.lobby.contains_key(c) implies {
        let i = after.lobby[c];
        &&& after.mapping.contains_key(i.server_entity)
        &&& after.mapping[i.server_entity] == i.client_entity
        &&& after.replicas.contains_key(i.client_entity)
        &&& after.replicas[i.client_entity].owner == c
        &&& after.replicas[i.client_entity].controllable == (c == after.client_id)
    } by {
        assert(v.replicas.contains_key(v.lobby[c].client_entity));
    }
    assert forall|s: u64| #[trigger] after.mapping.contains_key(s) implies {
        let e = after.mapping[s];
        &&& after.replicas.contains_key(e)
        &&& after.lobby.contains_key(after.replicas[e].owner)
        &&& after.lobby[after.replicas[e].owner].server_entity == s
    } by {
        assert(v.replicas.contains_key(v.mapping[s]));
    }
}

/// The first `n` indices of `snapshot`.
pub open spec fn prefix(snapshot: NetworkedEntitiesView, n: int) -> NetworkedEntitiesView {
    NetworkedEntitiesView {
        entities: snapshot.entities.take(n),
        translation: snapshot.translation.take(n),
    }
}

/// An aligned snapshot names the server entity of a local entity at one
/// index at most.
pub proof fn lemma_hit_once(v: MirrorView, snapshot: NetworkedEntitiesView, i: int, j: int, e: u64)
    requires
        v.wf(),
        snapshot.wf(),
        v.hits(snapshot, i, e),
        v.hits(snapshot, j, e),
    ensures
        i == j,
{
    lemma_mapping_injective(v, snapshot.entities[i], snapshot.entities[j]);
}

/// Placing one more index of a snapshot moves the representation that the
/// index names, if it names one, and nothing else.
pub proof fn lemma_place_step(v: MirrorView, snapshot: NetworkedEntitiesView, i: int)
    requires
        v.wf(),
        snapshot.wf(),
        0 <= i < snapshot.entities.len(),
    ensures
        v.place(prefix(snapshot, i + 1)).replicas == if v.mapping.contains_key(
            snapshot.entities[i],
        ) {
            let e = v.mapping[snapshot.entities[i]];
            v.place(prefix(snapshot, i)).replicas.insert(
                e,
                Replica {
                    translation: snapshot.translation[i],
                    ..v.place(prefix(snapshot, i)).replicas[e]
                },
            )
        } else {
            v.place(prefix(snapshot, i)).replicas
        },
{
    let p = prefix(snapshot, i);
    let q = prefix(snapshot, i + 1);
    let before = v.place(p).replicas;
    let after = v.place(q).replicas;
    let expected = if v.mapping.contains_key(snapshot.entities[i]) {
        let e = v.mapping[snapshot.entities[i]];
        before.insert(e, Replica { translation: snapshot.translation[i], ..before[e] })
    } else {
        before
    };
    assert forall|e: u64| after.contains_key(e) == expected.contains_key(e) by {
        if v.mapping.contains_key(snapshot.entities[i]) {
            assert(v.replicas.contains_key(v.mapping[snapshot.entities[i]]));
        }
    }
    assert forall|e: u64| #[trigger] after.contains_key(e) implies after[e] == expected[e] by {
        if v.hits(q, i, e) {
            let k = choose|k: int| v.hits(q, k, e);
            assert(v.hits(snapshot, k, e) && v.hits(snapshot, i, e));
            lemma_hit_once(v, snapshot, k, i, e);
        } else if exists|k: int| v.hits(q, k, e) {
            let k = choose|k: int| v.hits(q, k, e);
            assert(k != i);
            assert(v.hits(p, k, e));
            let m = choose|m: int| v.hits(p, m, e);
            assert(v.hits(snapshot, k, e) && v.hits(snapshot, m, e));
            lemma_hit_once(v, snapshot, k, m, e);
        } else {
            if exists|m: int| v.hits(p, m, e) {
                let m = choose|m: int| v.hits(p, m, e);
                assert(v.hits(q, m, e));
            }
        }
    }
    assert(after =~= expected);
}

/// The mirror after the lifecycle messages `messages`, in order.
pub open spec fn replay(v: MirrorView, messages: Seq<ServerMessages>) -> MirrorView
    decreases messages.len(),
{
    if messages.len() == 0 {
        v
    } else {
        replay(v.apply(messages[0]), messages.drop_first())
    }
}

/// The mirror of `client_id` before any message.
pub open spec fn empty_mirror(client_id: u64) -> MirrorView {
    MirrorView {
        client_id,
        lobby: Map::empty(),
        mapping: Map::empty(),
        replicas: Map::empty(),
        next_entity: 0,
    }
}

/// Lobby and mapping are consistent in every mirror whose tables agree: a
/// player of the lobby has one mapping entry, keyed by its server entity and
/// leading to its local entity; a mapping entry belongs to one player of the
/// lobby.
pub proof fn lemma_lobby_mapping_consistent(v: MirrorView)
    requires
        v.wf(),
    ensures
        forall|c: u64| #[trigger]
            v.lobby.contains_key(c) ==> v.mapping.contains_key(v.lobby[c].server_entity)
                && v.mapping[v.lobby[c].server_entity] == v.lobby[c].client_entity,
        forall|s: u64| #[trigger]
            v.mapping.contains_key(s) ==> exists|c: u64| #[trigger]
                v.lobby.contains_key(c) && v.lobby[c].server_entity == s
                    && v.lobby[c].client_entity == v.mapping[s],
        forall|c1: u64, c2: u64|
            v.lobby.contains_key(c1) && v.lobby.contains_key(c2) && v.lobby[c1].server_entity
                == v.lobby[c2].server_entity ==> c1 == c2,
{
    assert forall|s: u64| #[trigger] v.mapping.contains_key(s) implies exists|c: u64| #[trigger]
        v.lobby.contains_key(c) && v.lobby[c].server_entity == s && v.lobby[c].client_entity
            == v.mapping[s] by {
        let c = v.replicas[v.mapping[s]].owner;
        assert(v.lobby.contains_key(c));
    }
}

/// The tables agree after any sequence of lifecycle messages.
pub proof fn lemma_replay_wf(v: MirrorView, messages: Seq<ServerMessages>)
    requires
        v.wf(),
    ensures
        replay(v, messages).wf(),
        replay(v, messages).client_id == v.client_id,
    decreases messages.len(),
{
    if messages.len() > 0 {
        lemma_apply_wf(v, messages[0]);
        match messages[0] {
            ServerMessages::PlayerCreate { entity, id, translation } => {
                lemma_evict_wf(v, entity, id);
            },
            ServerMessages::PlayerRemove { id } => {
                lemma_remove_wf(v, id);
            },
        }
        lemma_replay_wf(v.apply(messages[0]), messages.drop_first());
    }
}

/// The tables agree after any sequence of payloads, of lifecycle messages
/// or of position snapshots, malformed ones included.
pub proof fn lemma_payloads_wf(v: MirrorView, payloads: Seq<Seq<u8>>)
    requires
        v.wf(),
    ensures
        v.deliver_all(payloads).wf(),
        v.place_all(payloads).wf(),
    decreases payloads.len(),
{
    if payloads.len() > 0 {
        match ServerMessages::spec_decode(payloads[0]) {
            Some(message) => {
                lemma_apply_wf(v, message);
            },
            None => {},
        }
        match spec_decode(payloads[0]) {
            Some(snapshot) => {
                lemma_place_wf(v, snapshot);
            },
            None => {},
        }
        lemma_payloads_wf(v.deliver(payloads[0]), payloads.drop_first());
        lemma_payloads_wf(v.place_payload(payloads[0]), payloads.drop_first());
    }
}

/// A player leaves the lobby and the mapping in the same step, on a
/// `PlayerRemove` as on an eviction, and nobody else leaves with it.
pub proof fn lemma_leave_together(v: MirrorView, id: u64)
    requires
        v.wf(),
        v.lobby.contains_key(id),
    ensures
        !v.remove(id).lobby.contains_key(id),
        !v.remove(id).mapping.contains_key(v.lobby[id].server_entity),
        !v.remove(id).replicas.contains_key(v.lobby[id].client_entity),
        forall|c: u64|
            c != id && v.lobby.contains_key(c) ==> #[trigger] v.remove(id).lobby.contains_key(c)
                && v.remove(id).lobby[c] == v.lobby[c] && v.remove(id).mapping.contains_key(
                v.lobby[c].server_entity,
            ),
{
    lemma_remove_wf(v, id);
}

/// In a mirror whose tables agree at most one representation is
/// controllable, a representation is controllable exactly when this client
/// controls its player, and there is a controllable one exactly when this
/// client has a player in the lobby.
pub proof fn lemma_one_controllable(v: MirrorView)
    requires
        v.wf(),
    ensures
        forall|e1: u64, e2: u64|
            v.replicas.contains_key(e1) && v.replicas.contains_key(e2)
                && v.replicas[e1].controllable && v.replicas[e2].controllable ==> e1 == e2,
        forall|e: u64| #[trigger]
            v.replicas.contains_key(e) ==> (v.replicas[e].controllable <==> v.replicas[e].owner
                == v.client_id),
        (exists|e: u64| #[trigger] v.replicas.contains_key(e) && v.replicas[e].controllable)
            <==> v.lobby.contains_key(v.client_id),
{
    assert forall|e: u64| #[trigger] v.replicas.contains_key(e) implies (
    v.replicas[e].controllable <==> v.replicas[e].owner == v.client_id) by {
        assert(v.lobby.contains_key(v.replicas[e].owner));
    }
    if v.lobby.contains_key(v.client_id) {
        let e = v.lobby[v.client_id].client_entity;
        assert(v.replicas.contains_key(e) && v.replicas[e].controllable);
    }
}

/// After any sequence of lifecycle messages, starting from nothing, at most
/// one representation is controllable, and one is exactly when this client
/// has a player in the lobby.
pub proof fn lemma_controllable_after_messages(client_id: u64, messages: Seq<ServerMessages>)
    ensures
        ({
            let v = replay(empty_mirror(client_id), messages);
            &&& v.wf()
            &&& v.client_id == client_id
            &&& forall|e1: u64, e2: u64|
                v.replicas.contains_key(e1) && v.replicas.contains_key(e2)
                    && v.replicas[e1].controllable && v.replicas[e2].controllable ==> e1 == e2
            &&& (exists|e: u64| #[trigger]
                v.replicas.contains_key(e) && v.replicas[e].controllable)
                <==> v.lobby.contains_key(client_id)
        }),
{
    let start = empty_mirror(client_id);
    lemma_replay_wf(start, messages);
    lemma_one_controllable(replay(start, messages));
}

/// A `PlayerRemove` of an unknown player changes nothing.
pub proof fn lemma_remove_unknown(v: MirrorView, id: u64)
    requires
        !v.lobby.contains_key(id),
    ensures
        v.remove(id) == v,
{
}

/// A second `PlayerCreate` of a known player keeps the player's local
/// entity and makes no new representation; the same `PlayerCreate` twice
/// leaves what the first left.
pub proof fn lemma_create_known(v: MirrorView, entity: u64, id: u64, translation: Translation)
    requires
        v.wf(),
    ensures
        v.lobby.contains_key(id) ==> {
            let after = v.create(entity, id, translation);
            &&& after.lobby.contains_key(id)
            &&& after.lobby[id].client_entity == v.lobby[id].client_entity
            &&& after.lobby[id].server_entity == entity
            &&& after.replicas[v.lobby[id].client_entity].translation == translation
            &&& after.replicas.dom().subset_of(v.replicas.dom())
            &&& after.next_entity == v.next_entity
        },
        v.create(entity, id, translation).create(entity, id, translation) == v.create(
            entity,
            id,
            translation,
        ),
{
    lemma_evict_wf(v, entity, id);
    let first = v.create(entity, id, translation);
    lemma_create_wf(v, entity, id, translation);
    if v.lobby.contains_key(id) {
        match v.rival(entity, id) {
            Some(other) => {
                lemma_remove_wf(v, other);
            },
            None => {},
        }
        assert(first.replicas.dom().subset_of(v.replicas.dom()));
    }
    if !v.exhausted(id) {
        assert(first.lobby.contains_key(id));
        assert(first.mapping.contains_key(entity));
        assert(first.holder(entity) == Some(id));
        assert(first.rival(entity, id) is None);
        let second = first.create(entity, id, translation);
        assert(second.lobby =~= first.lobby);
        assert(second.mapping =~= first.mapping);
        assert(second.replicas =~= first.replicas);
        assert(second =~= first);
    }
}

/// The client replication mirror.
pub struct ClientMirror {
    client_id: CurrentClientId,
    lobby: ClientLobby,
    mapping: NetworkMapping,
    replicas: HashMap<u64, Replica>,
    next_entity: u64,
}

impl View for ClientMirror {
    type V = MirrorView;

    closed spec fn view(&self) -> MirrorView {
        MirrorView {
            client_id: self.client_id.0,
            lobby: self.lobby@,
            mapping: self.mapping@,
            replicas: self.replicas@,
            next_entity: self.next_entity,
        }
    }
}

impl ClientMirror {
    /// The invariant of the mirror: its tables agree.
    pub open spec fn wf(&self) -> bool {
        self@.wf()
    }

    /// The mirror of `client_id`, with no player.
    pub fn new(client_id: CurrentClientId) -> (mirror: ClientMirror)
        ensures
            mirror.wf(),
            mirror@ == empty_mirror(client_id.0),
    {
        ClientMirror {
            client_id,
            lobby: ClientLobby { players: HashMap::new() },
            mapping: NetworkMapping(HashMap::new()),
            replicas: HashMap::new(),
            next_entity: 0,
        }
    }

    /// The client whose player holds the server entity `entity`.
    fn holder_of(&self, entity: u64) -> (holder: Option<u64>)
        requires
            self.wf(),
        ensures
            holder == self@.holder(entity),
    {
        match self.mapping.0.get(&entity) {
            Some(local) => {
                match self.replicas.get(local) {
                    Some(replica) => Some(replica.owner),
                    None => {
                        assert(self@.mapping.contains_key(entity));
                        assert(false);
                        None
                    },
                }
            },
            None => None,
        }
    }

    /// Handles a `PlayerRemove`: the player of `id` leaves the lobby, the
    /// mapping and the representations at once, and its local entity is
    /// returned for destruction. An unknown player changes nothing.
    pub fn apply_player_remove(&mut self, id: u64) -> (destroyed: Option<u64>)
        requires
            old(self).wf(),
        ensures
            final(self).wf(),
            final(self)@ == old(self)@.remove(id),
            destroyed == old(self)@.local_entity(id),
    {
        proof {
            lemma_remove_wf(self@, id);
        }
        match self.lobby.players.remove(&id) {
            Some(info) => {
                assert(info == old(self)@.lobby[id]);
                self.mapping.0.remove(&info.server_entity);
                self.replicas.remove(&info.client_entity);
                Some(info.client_entity)
            },
            None => {
                assert(self@.lobby =~= old(self)@.lobby);
                assert(self@ =~= old(self)@);
                None
            },
        }
    }

    /// Handles a `PlayerCreate`.
    ///
    /// Another player that held the server entity `entity` is evicted first.
    /// A player already in the lobby is brought up to date and keeps its
    /// local entity; an unknown player gets a local representation at
    /// `translation`, controllable where `id` is this client. Where the
    /// player is unknown and no local identifier is left, nothing changes.
    pub fn apply_player_create(
        &mut self,
        entity: u64,
        id: u64,
        translation: Translation,
    ) -> (outcome: CreateOutcome)
        requires
            old(self).wf(),
        ensures
            final(self).wf(),
            final(self)@ == old(self)@.create(entity, id, translation),
            outcome == old(self)@.create_outcome(entity, id),
    {
        proof {
            lemma_create_wf(self@, entity, id, translation);
            lemma_evict_wf(self@, entity, id);
        }
        let known = self.lobby.players.contains_key(&id);
        if !known && self.next_entity == u64::MAX {
            return CreateOutcome { evicted: None, created: Created::Ignored };
        }
        let mut evicted: Option<u64> = None;
        match self.holder_of(entity) {
            Some(other) => {
                if other != id {
                    evicted = self.apply_player_remove(other);
                }
            },
            None => {},
        }
        assert(self@ == old(self)@.evict(entity, id));
        let ghost s = self@;
        let found = match self.lobby.players.get(&id) {
            Some(info) => Some(*info),
            None => None,
        };
        match found {
            Some(info) => {
                let local = info.client_entity;
                let current = match self.replicas.get(&local) {
                    Some(replica) => *replica,
                    None => {
                        assert(false);
                        Replica { owner: id, translation, controllable: false }
                    },
                };
                self.lobby.players.insert(
                    id,
                    PlayerInfo { client_entity: local, server_entity: entity },
                );
                self.mapping.0.remove(&info.server_entity);
                self.mapping.0.insert(entity, local);
                self.replicas.insert(local, Replica { translation, ..current });
                assert(self@ =~= s.create(entity, id, translation));
                CreateOutcome { evicted, created: Created::Updated { client_entity: local } }
            },
            None => {
                let local = self.next_entity;
                self.lobby.players.insert(
                    id,
                    PlayerInfo { client_entity: local, server_entity: entity },
                );
                self.mapping.0.insert(entity, local);
                self.replicas.insert(
                    local,
                    Replica { owner: id, translation, controllable: id == self.client_id.0 },
                );
                self.next_entity = local + 1;
                assert(self@ =~= s.create(entity, id, translation));
                CreateOutcome { evicted, created: Created::Spawned { client_entity: local } }
            },
        }
    }

    /// Handles a lifecycle message.
    pub fn apply_server_message(&mut self, message: ServerMessages) -> (outcome: Reconciled)
        requires
            old(self).wf(),
        ensures
            final(self).wf(),
            final(self)@ == old(self)@.apply(message),
            outcome == old(self)@.outcome(message),
    {
        match message {
            ServerMessages::PlayerCreate { entity, id, translation } => Reconciled::Created(
                self.apply_player_create(entity, id, translation),
            ),
            ServerMessages::PlayerRemove { id } => Reconciled::Removed {
                client_entity: self.apply_player_remove(id),
            },
        }
    }

    /// Handles the payload of a lifecycle message. A malformed payload is
    /// dropped: nothing changes and nothing is returned.
    pub fn deliver(&mut self, payload: &[u8]) -> (outcome: Option<Reconciled>)
        requires
            old(self).wf(),
        ensures
            final(self).wf(),
            final(self)@ == old(self)@.deliver(payload@),
            outcome == match ServerMessages::spec_decode(payload@) {
                Some(message) => Some(old(self)@.outcome(message)),
                None => None,
            },
            forall|message: ServerMessages| #[trigger]
                message.spec_encode() == payload@ ==> final(self)@ == old(self)@.apply(message)
                    && outcome == Some(old(self)@.outcome(message)),
    {
        match ServerMessages::decode(payload) {
            Some(message) => Some(self.apply_server_message(message)),
            None => None,
        }
    }

    /// Handles the payload of a position snapshot, and says whether it was
    /// well-formed. A malformed payload is dropped: nothing changes.
    pub fn place_payload(&mut self, payload: &[u8]) -> (placed: bool)
        requires
            old(self).wf(),
        ensures
            final(self).wf(),
            final(self)@ == old(self)@.place_payload(payload@),
            placed == spec_decode(payload@) is Some,
            forall|snapshot: NetworkedEntitiesView|
                snapshot.wf() && #[trigger] snapshot.spec_encode() == payload@ ==> placed
                    && final(self)@ == old(self)@.place(snapshot),
    {
        match NetworkedEntities::decode(payload) {
            Some(snapshot) => {
                self.apply_snapshot(&snapshot);
                true
            },
            None => false,
        }
    }

    /// The identifier under which this client is connected.
    pub fn client_id(&self) -> (id: CurrentClientId)
        ensures
            id.0 == self@.client_id,
    {
        self.client_id
    }

    /// The lobby.
    pub fn client_lobby(&self) -> (lobby: &ClientLobby)
        ensures
            lobby@ == self@.lobby,
    {
        &self.lobby
    }

    /// The mapping from server entities to local entities.
    pub fn network_mapping(&self) -> (mapping: &NetworkMapping)
        ensures
            mapping@ == self@.mapping,
    {
        &self.mapping
    }

    /// The entities of the player of `id`.
    pub fn player(&self, id: u64) -> (info: Option<PlayerInfo>)
        ensures
            info == (if self@.lobby.contains_key(id) {
                Some(self@.lobby[id])
            } else {
                None
            }),
    {
        match self.lobby.players.get(&id) {
            Some(info) => Some(*info),
            None => None,
        }
    }

    /// The local entity that stands for the server entity `entity`.
    pub fn local_of(&self, entity: u64) -> (local: Option<u64>)
        ensures
            local == (if self@.mapping.contains_key(entity) {
                Some(self@.mapping[entity])
            } else {
                None
            }),
    {
        match self.mapping.0.get(&entity) {
            Some(local) => Some(*local),
            None => None,
        }
    }

    /// The local representation `entity`.
    pub fn replica(&self, entity: u64) -> (replica: Option<Replica>)
        ensures
            replica == (if self@.replicas.contains_key(entity) {
                Some(self@.replicas[entity])
            } else {
                None
            }),
    {
        match self.replicas.get(&entity) {
            Some(replica) => Some(*replica),
            None => None,
        }
    }

    /// The local entity that this client controls: that of its own player.
    pub fn controlled(&self) -> (entity: Option<u64>)
        requires
            self.wf(),
        ensures
            entity == self@.local_entity(self@.client_id),
            forall|e: u64| #[trigger]
                self@.replicas.contains_key(e) ==> (self@.replicas[e].controllable <==> entity
                    == Some(e)),
    {
        proof {
            lemma_one_controllable(self@);
            assert forall|e: u64| #[trigger] self@.replicas.contains_key(e) implies (
            self@.replicas[e].controllable <==> self@.local_entity(self@.client_id) == Some(
                e,
            )) by {
                assert(self@.lobby.contains_key(self@.replicas[e].owner));
            }
        }
        match self.lobby.players.get(&self.client_id.0) {
            Some(info) => Some(info.client_entity),
            None => None,
        }
    }

    /// Handles a position snapshot: each index whose server entity is mapped
    /// overwrites the translation of the local representation; an index
    /// whose entity is not mapped is skipped.
    pub fn apply_snapshot(&mut self, snapshot: &NetworkedEntities)
        requires
            old(self).wf(),
        ensures
            final(self).wf(),
            final(self)@ == old(self)@.place(snapshot@),
    {
        let entities = snapshot.entities();
        let translations = snapshot.translation();
        let n = entities.len();
        let ghost before = self@;
        let mut i: usize = 0;
        proof {
            lemma_place_wf(before, snapshot@);
            assert(before.place(prefix(snapshot@, 0)).replicas =~= before.replicas);
            assert(self@ =~= before.place(prefix(snapshot@, 0)));
        }
        while i < n
            invariant
                i <= n,
                n == snapshot@.entities.len(),
                entities@ == snapshot@.entities,
                translations@ == snapshot@.translation,
                snapshot@.wf(),
                before.wf(),
                self@ == before.place(prefix(snapshot@, i as int)),
            decreases n - i,
        {
            let server_entity = entities[i];
            let found = match self.mapping.0.get(&server_entity) {
                Some(local) => Some(*local),
                None => None,
            };
            proof {
                lemma_place_step(before, snapshot@, i as int);
            }
            match found {
                Some(local) => {
                    let current = match self.replicas.get(&local) {
                        Some(replica) => *replica,
                        None => {
                            assert(before.replicas.contains_key(local));
                            assert(false);
                            Replica {
                                owner: 0,
                                translation: translations[i],
                                controllable: false,
                            }
                        },
                    };
                    self.replicas.insert(
                        local,
                        Replica { translation: translations[i], ..current },
                    );
                },
                None => {},
            }
            proof {
                let ghost target = before.place(prefix(snapshot@, i + 1));
                assert(self@.mapping == before.mapping);
                assert(self@.lobby == before.lobby);
                assert(self@.replicas =~= target.replicas);
                assert(self@ =~= target);
            }
            i = i + 1;
        }
        proof {
            assert(snapshot@.entities.take(n as int) =~= snapshot@.entities);
            assert(snapshot@.translation.take(n as int) =~= snapshot@.translation);
            assert(prefix(snapshot@, n as int) =~= snapshot@);
        }
    }
}

} // verus!
