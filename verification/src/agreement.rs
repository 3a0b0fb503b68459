//! The agreement of a mirror with the authority that it follows.
//!
//! Lifecycle messages travel reliably and in order. These laws say what that
//! buys: a client that has handled every lifecycle message sent to it knows
//! exactly the players that the authority knows, each under the server entity
//! that the authority gave it, and a position snapshot then puts every
//! representation where its entity stands.

use crate::client::{
    empty_mirror, lemma_apply_wf, lemma_hit_once, lemma_place_wf, lemma_remove_wf, replay,
    MirrorView,
};
use crate::server::{
    addressed, addressed_to, announcement, announcements, consistent, has_client,
    index_of_client, lemma_handle_wf, lemma_snapshot_aligned, lemma_without_client, owns,
    received, snapshot_of, without_client, AuthorityView, ConnectionEvent, Outgoing,
    PlayerEntity,
};
use crate::wire::{ServerMessages, Translation};
use vstd::prelude::*;

verus! {

/// The mirror `m` knows the players of the authority `a`, and no other, each
/// under its server entity.
pub open spec fn follows(m: MirrorView, a: AuthorityView) -> bool {
    &&& m.wf()
    &&& a.wf()
    &&& forall|c: u64|
        #![trigger m.lobby.contains_key(c)]
        #![trigger a.lobby.contains_key(c)]
        m.lobby.contains_key(c) == a.lobby.contains_key(c)
    &&& forall|c: u64| #[trigger] m.lobby.contains_key(c) ==> m.lobby[c].server_entity == a.lobby[c]
}

/// Handling one more message is handling it last.
pub proof fn lemma_replay_push(v: MirrorView, messages: Seq<ServerMessages>, last: ServerMessages)
    ensures
        replay(v, messages.push(last)) == replay(v, messages).apply(last),
    decreases messages.len(),
{
    if messages.len() == 0 {
        assert(messages.push(last).drop_first() =~= Seq::<ServerMessages>::empty());
        assert(replay(v.apply(last), Seq::<ServerMessages>::empty()) == v.apply(last));
    } else {
        assert(messages.push(last).drop_first() =~= messages.drop_first().push(last));
        lemma_replay_push(v.apply(messages[0]), messages.drop_first(), last);
    }
}

/// Every entity of a consistent authority bears an identifier below the
/// next one, and the lobby holds no other identifier.
pub proof fn lemma_lobby_below_next(a: AuthorityView, client_id: u64)
    requires
        a.wf(),
        a.lobby.contains_key(client_id),
    ensures
        a.lobby[client_id] < a.next_entity,
{
    let i = index_of_client(a.entities, client_id);
    assert(has_client(a.entities, client_id));
    assert(owns(a.entities, client_id, i));
    assert(a.lobby.contains_key(a.entities[i].player.id));
}

/// What the announcements of `entities`, addressed to `to`, bring to
/// `client_id`: all of them if it is `to`, none otherwise.
pub proof fn lemma_received_catch_up(entities: Seq<PlayerEntity>, to: u64, client_id: u64)
    ensures
        received(
            announcements(entities).map_values(|m: ServerMessages| addressed(to, m)),
            client_id,
        ) == if client_id == to {
            announcements(entities)
        } else {
            Seq::<ServerMessages>::empty()
        },
    decreases entities.len(),
{
    let sent = announcements(entities).map_values(|m: ServerMessages| addressed(to, m));
    if entities.len() > 0 {
        let earlier = announcements(entities.drop_last()).map_values(
            |m: ServerMessages| addressed(to, m),
        );
        assert(sent.drop_last() =~= earlier);
        lemma_received_catch_up(entities.drop_last(), to, client_id);
        if client_id == to {
            assert(received(sent, client_id) =~= announcements(entities));
        }
    } else {
        assert(received(sent, client_id) =~= Seq::<ServerMessages>::empty());
        assert(announcements(entities) =~= Seq::<ServerMessages>::empty());
    }
}

/// A client that follows the authority still follows it after an event,
/// once it has handled the lifecycle messages that the event sent to it.
/// The event is not the client's own connection, which starts a mirror
/// anew, and the client has a local identifier left.
pub proof fn lemma_follows_event(
    m: MirrorView,
    a: AuthorityView,
    event: ConnectionEvent,
    spawn: Translation,
)
    requires
        follows(m, a),
        m.next_entity < u64::MAX,
        event != (ConnectionEvent::Connected { client_id: m.client_id }),
    ensures
        follows(replay(m, received(a.outgoing(event, spawn), m.client_id)), a.handle(event, spawn)),
{
    lemma_handle_wf(a, event, spawn);
    let out = a.outgoing(event, spawn);
    let got = received(out, m.client_id);
    match event {
        ConnectionEvent::Connected { client_id } => {
            if a.next_entity == u64::MAX {
                assert(got =~= Seq::<ServerMessages>::empty());
            } else {
                let kept = without_client(a.entities, client_id);
                let announce = announcement(a.spawned(client_id, spawn));
                let caught = announcements(kept).map_values(
                    |x: ServerMessages| addressed(client_id, x),
                );
                assert(out.drop_last() =~= caught);
                lemma_received_catch_up(kept, client_id, m.client_id);
                assert(got =~= seq![announce]);
                assert(seq![announce] =~= Seq::<ServerMessages>::empty().push(announce));
                lemma_replay_push(m, Seq::<ServerMessages>::empty(), announce);
                let after = m.apply(announce);
                assert(replay(m, got) == after);
                lemma_apply_wf(m, announce);
                assert(!m.mapping.contains_key(a.next_entity)) by {
                    if m.mapping.contains_key(a.next_entity) {
                        let owner = m.replicas[m.mapping[a.next_entity]].owner;
                        assert(m.lobby.contains_key(owner));
                        lemma_lobby_below_next(a, owner);
                    }
                }
                assert(m.evict(a.next_entity, client_id) == m);
            }
        },
        ConnectionEvent::Disconnected { client_id } => {
            let announce = ServerMessages::PlayerRemove { id: client_id };
            assert(out.drop_last() =~= Seq::<Outgoing>::empty());
            assert(received(Seq::<Outgoing>::empty(), m.client_id)
                =~= Seq::<ServerMessages>::empty());
            assert(addressed_to(out.last(), m.client_id));
            assert(got =~= Seq::<ServerMessages>::empty().push(announce));
            lemma_replay_push(m, Seq::<ServerMessages>::empty(), announce);
            lemma_remove_wf(m, client_id);
        },
    }
}

/// A mirror that has handled the announcements of the first `k` of
/// `entities`, and nothing else, knows exactly their clients.
pub open spec fn caught_up(m: MirrorView, entities: Seq<PlayerEntity>, k: int) -> bool {
    &&& m.wf()
    &&& m.next_entity == k
    &&& forall|i: int|
        0 <= i < k ==> m.lobby.contains_key(#[trigger] entities[i].player.id)
            && m.lobby[entities[i].player.id].server_entity == entities[i].entity
    &&& forall|c: u64| #[trigger]
        m.lobby.contains_key(c) ==> exists|i: int| 0 <= i < k && owns(entities, c, i)
}

/// Catching up with entities that bear distinct identifiers and belong to
/// distinct clients spawns one representation for each.
pub proof fn lemma_catch_up(start: MirrorView, entities: Seq<PlayerEntity>, k: int)
    requires
        start == empty_mirror(start.client_id),
        0 <= k <= entities.len(),
        entities.len() < u64::MAX,
        forall|i: int, j: int|
            0 <= i < j < entities.len() ==> entities[i].entity != entities[j].entity
                && entities[i].player.id != entities[j].player.id,
    ensures
        caught_up(replay(start, announcements(entities.take(k))), entities, k),
    decreases k,
{
    if k == 0 {
        assert(announcements(entities.take(0)) =~= Seq::<ServerMessages>::empty());
    } else {
        lemma_catch_up(start, entities, k - 1);
        let before = replay(start, announcements(entities.take(k - 1)));
        let e = entities[k - 1];
        let message = announcement(e);
        assert(announcements(entities.take(k)) =~= announcements(entities.take(k - 1)).push(
            message,
        ));
        lemma_replay_push(start, announcements(entities.take(k - 1)), message);
        lemma_apply_wf(before, message);
        let after = before.apply(message);
        assert(!before.lobby.contains_key(e.player.id)) by {
            if before.lobby.contains_key(e.player.id) {
                let i = choose|i: int| 0 <= i < k - 1 && owns(entities, e.player.id, i);
                assert(entities[i].player.id != entities[k - 1].player.id);
            }
        }
        assert(!before.mapping.contains_key(e.entity)) by {
            if before.mapping.contains_key(e.entity) {
                let owner = before.replicas[before.mapping[e.entity]].owner;
                assert(before.lobby.contains_key(owner));
                let i = choose|i: int| 0 <= i < k - 1 && owns(entities, owner, i);
                assert(before.lobby[entities[i].player.id].server_entity == entities[i].entity);
                assert(entities[i].entity != entities[k - 1].entity);
            }
        }
        assert(before.evict(e.entity, e.player.id) == before);
        assert forall|i: int| 0 <= i < k implies after.lobby.contains_key(
            #[trigger] entities[i].player.id,
        ) && after.lobby[entities[i].player.id].server_entity == entities[i].entity by {
            if i < k - 1 {
                assert(before.lobby.contains_key(entities[i].player.id));
                assert(entities[i].player.id != entities[k - 1].player.id);
            }
        }
        assert forall|c: u64| #[trigger] after.lobby.contains_key(c) implies exists|i: int|
            0 <= i < k && owns(entities, c, i) by {
            if c == e.player.id {
                assert(owns(entities, c, k - 1));
            } else {
                assert(before.lobby.contains_key(c));
                let i = choose|i: int| 0 <= i < k - 1 && owns(entities, c, i);
                assert(0 <= i < k && owns(entities, c, i));
            }
        }
    }
}

/// A client that starts a mirror on connecting follows the authority as
/// soon as it has handled the lifecycle messages that its connection sent
/// to it: the announcements of the players that were there, then its own.
pub proof fn lemma_follows_connection(a: AuthorityView, client_id: u64, spawn: Translation)
    requires
        a.wf(),
        a.next_entity < u64::MAX,
    ensures
        follows(
            replay(
                empty_mirror(client_id),
                received(
                    a.outgoing(ConnectionEvent::Connected { client_id }, spawn),
                    client_id,
                ),
            ),
            a.handle(ConnectionEvent::Connected { client_id }, spawn),
        ),
{
    let event = ConnectionEvent::Connected { client_id };
    let start = empty_mirror(client_id);
    let kept = without_client(a.entities, client_id);
    let own = a.spawned(client_id, spawn);
    let announce = announcement(own);
    let out = a.outgoing(event, spawn);
    let after = a.handle(event, spawn);
    lemma_handle_wf(a, event, spawn);
    lemma_without_client(a.entities, a.lobby, a.next_entity, client_id);
    let caught = announcements(kept).map_values(|x: ServerMessages| addressed(client_id, x));
    assert(out.drop_last() =~= caught);
    lemma_received_catch_up(kept, client_id, client_id);
    assert(received(out, client_id) =~= announcements(kept).push(announce));
    lemma_replay_push(start, announcements(kept), announce);
    lemma_entities_below_next(kept, a.lobby.remove(client_id), a.next_entity, kept.len() as int);
    assert(kept.take(kept.len() as int) =~= kept);
    lemma_catch_up(start, kept, kept.len() as int);
    let before = replay(start, announcements(kept));
    lemma_apply_wf(before, announce);
    let m = before.apply(announce);
    assert(!before.lobby.contains_key(client_id)) by {
        if before.lobby.contains_key(client_id) {
            let i = choose|i: int| 0 <= i < kept.len() && owns(kept, client_id, i);
            assert(has_client(kept, client_id));
        }
    }
    assert(!before.mapping.contains_key(a.next_entity)) by {
        if before.mapping.contains_key(a.next_entity) {
            let owner = before.replicas[before.mapping[a.next_entity]].owner;
            assert(before.lobby.contains_key(owner));
            let i = choose|i: int| 0 <= i < kept.len() && owns(kept, owner, i);
            assert(before.lobby[kept[i].player.id].server_entity == kept[i].entity);
            assert(kept[i].entity < a.next_entity);
        }
    }
    assert(before.evict(a.next_entity, client_id) == before);
    assert forall|c: u64| m.lobby.contains_key(c) == after.lobby.contains_key(c) by {
        if c != client_id {
            if before.lobby.contains_key(c) {
                let i = choose|i: int| 0 <= i < kept.len() && owns(kept, c, i);
                assert(a.lobby.remove(client_id).contains_key(kept[i].player.id));
            }
            if a.lobby.contains_key(c) {
                assert(a.lobby.remove(client_id).contains_key(c));
                assert(has_client(kept, c));
                let i = index_of_client(kept, c);
                assert(owns(kept, c, i));
                assert(before.lobby.contains_key(kept[i].player.id));
            }
        }
    }
    assert forall|c: u64| #[trigger] m.lobby.contains_key(c) implies m.lobby[c].server_entity
        == after.lobby[c] by {
        if c != client_id {
            assert(before.lobby.contains_key(c));
            let i = choose|i: int| 0 <= i < kept.len() && owns(kept, c, i);
            assert(before.lobby[kept[i].player.id].server_entity == kept[i].entity);
            assert(a.lobby.remove(client_id).contains_key(kept[i].player.id));
        }
    }
}

/// The first `k` entities of a consistent state are fewer than the
/// identifiers handed out: entity `i` bears an identifier of at least `i`.
pub proof fn lemma_entities_below_next(
    entities: Seq<PlayerEntity>,
    lobby: Map<u64, u64>,
    next: u64,
    k: int,
)
    requires
        consistent(entities, lobby, next),
        0 <= k <= entities.len(),
    ensures
        k <= next,
        k > 0 ==> entities[k - 1].entity >= k - 1,
    decreases k,
{
    if k > 1 {
        lemma_entities_below_next(entities, lobby, next, k - 1);
        assert(entities[k - 2].entity < entities[k - 1].entity);
    }
    if k > 0 {
        assert(entities[k - 1].entity < next);
    }
}

/// A position snapshot of the authority puts every representation of a
/// mirror that follows it where its entity stands.
pub proof fn lemma_snapshot_places(m: MirrorView, a: AuthorityView, i: int)
    requires
        follows(m, a),
        a.entities.len() <= u64::MAX,
        0 <= i < a.entities.len(),
    ensures
        follows(m.place(snapshot_of(a.entities)), a),
        m.lobby.contains_key(a.entities[i].player.id),
        ({
            let local = m.lobby[a.entities[i].player.id].client_entity;
            m.place(snapshot_of(a.entities)).replicas[local].translation
                == a.entities[i].position.transform
        }),
{
    let snapshot = snapshot_of(a.entities);
    let e = a.entities[i];
    lemma_place_wf(m, snapshot);
    lemma_snapshot_aligned(a.entities, a.lobby, a.next_entity);
    assert(a.lobby.contains_key(a.entities[i].player.id));
    let local = m.lobby[e.player.id].client_entity;
    assert(m.hits(snapshot, i, local));
    let k = choose|k: int| m.hits(snapshot, k, local);
    lemma_hit_once(m, snapshot, k, i, local);
}

} // verus!
