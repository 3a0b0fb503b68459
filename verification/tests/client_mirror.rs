use game_replication::client::{
    ClientMirror, CreateOutcome, Created, CurrentClientId, PlayerInfo, Reconciled, Replica,
};
use game_replication::snapshot::NetworkedEntities;
use game_replication::wire::{ServerMessages, Translation};

fn at(x: f32, y: f32) -> Translation {
    Translation { x: x.to_bits(), y: y.to_bits(), z: 0.0f32.to_bits() }
}

fn assert_tables_agree(mirror: &ClientMirror) {
    let lobby = &mirror.client_lobby().players;
    let mapping = &mirror.network_mapping().0;
    assert_eq!(lobby.len(), mapping.len());
    for (client, info) in lobby {
        assert_eq!(mapping.get(&info.server_entity), Some(&info.client_entity));
        let replica = mirror.replica(info.client_entity).unwrap();
        assert_eq!(replica.owner, *client);
        assert_eq!(replica.controllable, *client == mirror.client_id().0);
    }
    for (server_entity, client_entity) in mapping {
        let owners = lobby
            .iter()
            .filter(|(_, info)| info.server_entity == *server_entity)
            .collect::<Vec<_>>();
        assert_eq!(owners.len(), 1);
        assert_eq!(owners[0].1.client_entity, *client_entity);
    }
    let controllable = lobby
        .values()
        .filter(|info| mirror.replica(info.client_entity).unwrap().controllable)
        .count();
    assert_eq!(controllable == 1, lobby.contains_key(&mirror.client_id().0));
    assert!(controllable <= 1);
}

#[test]
fn new_mirror_is_empty() {
    let mirror = ClientMirror::new(CurrentClientId(1000));
    assert_eq!(mirror.client_id(), CurrentClientId(1000));
    assert!(mirror.client_lobby().players.is_empty());
    assert!(mirror.network_mapping().0.is_empty());
    assert_eq!(mirror.controlled(), None);
    assert_eq!(mirror.player(1000), None);
    assert_eq!(mirror.local_of(0), None);
    assert_eq!(mirror.replica(0), None);
}

#[test]
fn client_mirrors_its_own_player() {
    let mut mirror = ClientMirror::new(CurrentClientId(1000));
    let e1 = 77;
    let outcome = mirror.apply_player_create(e1, 1000, at(3.0, 4.0));
    let c1 = match outcome.created {
        Created::Spawned { client_entity } => client_entity,
        other => panic!("expected a spawn, got {:?}", other),
    };
    assert_eq!(outcome.evicted, None);
    assert_eq!(mirror.player(1000), Some(PlayerInfo { client_entity: c1, server_entity: e1 }));
    assert_eq!(mirror.local_of(e1), Some(c1));
    assert_eq!(mirror.client_lobby().players.len(), 1);
    assert_eq!(mirror.network_mapping().0.len(), 1);
    assert_eq!(
        mirror.replica(c1),
        Some(Replica { owner: 1000, translation: at(3.0, 4.0), controllable: true })
    );
    assert_eq!(mirror.controlled(), Some(c1));
    assert_tables_agree(&mirror);
}

#[test]
fn both_clients_hold_two_entries() {
    let e1 = 5;
    let e2 = 6;
    let mut a = ClientMirror::new(CurrentClientId(1000));
    let mut b = ClientMirror::new(CurrentClientId(2000));
    // A was alone at first.
    a.apply_player_create(e1, 1000, at(1.0, 1.0));
    // B joins: catch-up for B, then the announcement for both.
    b.apply_player_create(e1, 1000, at(1.0, 1.0));
    a.apply_player_create(e2, 2000, at(2.0, 2.0));
    b.apply_player_create(e2, 2000, at(2.0, 2.0));
    for mirror in [&a, &b] {
        assert_eq!(mirror.client_lobby().players.len(), 2);
        assert_eq!(mirror.network_mapping().0.len(), 2);
        assert_eq!(mirror.player(1000).unwrap().server_entity, e1);
        assert_eq!(mirror.player(2000).unwrap().server_entity, e2);
        assert_tables_agree(mirror);
    }
    assert_eq!(a.controlled(), Some(a.player(1000).unwrap().client_entity));
    assert_eq!(b.controlled(), Some(b.player(2000).unwrap().client_entity));
    assert!(!a.replica(a.player(2000).unwrap().client_entity).unwrap().controllable);
    assert!(!b.replica(b.player(1000).unwrap().client_entity).unwrap().controllable);
}

#[test]
fn client_drops_removed_player() {
    let e1 = 5;
    let e2 = 6;
    let mut b = ClientMirror::new(CurrentClientId(2000));
    b.apply_player_create(e1, 1000, at(1.0, 1.0));
    b.apply_player_create(e2, 2000, at(2.0, 2.0));
    let c1 = b.player(1000).unwrap().client_entity;
    let destroyed = b.apply_player_remove(1000);
    assert_eq!(destroyed, Some(c1));
    assert_eq!(b.player(1000), None);
    assert_eq!(b.local_of(e1), None);
    assert_eq!(b.replica(c1), None);
    assert_eq!(b.client_lobby().players.len(), 1);
    assert_eq!(b.network_mapping().0.len(), 1);
    assert_eq!(b.player(2000).unwrap().server_entity, e2);
    assert_tables_agree(&b);
}

#[test]
fn snapshot_skips_unmapped_entities() {
    let mut mirror = ClientMirror::new(CurrentClientId(1000));
    mirror.apply_player_create(5, 1000, at(1.0, 1.0));
    let c1 = mirror.player(1000).unwrap().client_entity;
    let snapshot = NetworkedEntities::from_parts(
        vec![99, 5, 100],
        vec![at(50.0, 50.0), at(7.0, -7.0), at(60.0, 60.0)],
    )
    .unwrap();
    mirror.apply_snapshot(&snapshot);
    assert_eq!(mirror.replica(c1).unwrap().translation, at(7.0, -7.0));
    assert_eq!(mirror.client_lobby().players.len(), 1);
    assert_eq!(mirror.network_mapping().0.len(), 1);
    assert_eq!(mirror.local_of(99), None);
    assert_eq!(mirror.local_of(100), None);
    assert_tables_agree(&mirror);
    // A snapshot that names nothing known changes nothing.
    let strangers = NetworkedEntities::from_parts(vec![1, 2], vec![at(0.0, 0.0), at(1.0, 1.0)]);
    mirror.apply_snapshot(&strangers.unwrap());
    assert_eq!(mirror.replica(c1).unwrap().translation, at(7.0, -7.0));
    // Nor does one that arrives before any player is known.
    let mut early = ClientMirror::new(CurrentClientId(1));
    early.apply_snapshot(&snapshot);
    assert!(early.client_lobby().players.is_empty());
}

#[test]
fn snapshot_moves_each_mapped_replica_and_no_other() {
    let mut mirror = ClientMirror::new(CurrentClientId(1000));
    mirror.apply_player_create(5, 1000, at(1.0, 1.0));
    mirror.apply_player_create(6, 2000, at(2.0, 2.0));
    mirror.apply_player_create(7, 3000, at(3.0, 3.0));
    let local = |m: &ClientMirror, id| m.player(id).unwrap().client_entity;
    let snapshot =
        NetworkedEntities::from_parts(vec![7, 5], vec![at(30.0, 0.0), at(10.0, 0.0)]).unwrap();
    mirror.apply_snapshot(&snapshot);
    assert_eq!(mirror.replica(local(&mirror, 1000)).unwrap().translation, at(10.0, 0.0));
    assert_eq!(mirror.replica(local(&mirror, 2000)).unwrap().translation, at(2.0, 2.0));
    assert_eq!(mirror.replica(local(&mirror, 3000)).unwrap().translation, at(30.0, 0.0));
    assert!(mirror.replica(local(&mirror, 1000)).unwrap().controllable);
    assert_eq!(mirror.replica(local(&mirror, 3000)).unwrap().owner, 3000);
    assert_tables_agree(&mirror);
}

#[test]
fn remove_of_unknown_player_is_a_no_op() {
    let mut mirror = ClientMirror::new(CurrentClientId(1000));
    assert_eq!(mirror.apply_player_remove(1000), None);
    mirror.apply_player_create(5, 1000, at(1.0, 1.0));
    let before = mirror.player(1000);
    assert_eq!(mirror.apply_player_remove(4242), None);
    assert_eq!(mirror.player(1000), before);
    assert_eq!(mirror.client_lobby().players.len(), 1);
    assert_eq!(mirror.network_mapping().0.len(), 1);
    assert_tables_agree(&mirror);
}

#[test]
fn second_create_updates_rather_than_duplicates() {
    let mut mirror = ClientMirror::new(CurrentClientId(1000));
    let first = mirror.apply_player_create(5, 1000, at(1.0, 1.0));
    let c1 = mirror.player(1000).unwrap().client_entity;
    assert_eq!(first.created, Created::Spawned { client_entity: c1 });
    // The same message again.
    let echo = mirror.apply_player_create(5, 1000, at(1.0, 1.0));
    assert_eq!(
        echo,
        CreateOutcome { evicted: None, created: Created::Updated { client_entity: c1 } }
    );
    assert_eq!(mirror.client_lobby().players.len(), 1);
    assert_eq!(mirror.network_mapping().0.len(), 1);
    assert_eq!(mirror.player(1000), Some(PlayerInfo { client_entity: c1, server_entity: 5 }));
    // The same client under another server entity, elsewhere.
    let moved = mirror.apply_player_create(8, 1000, at(9.0, 9.0));
    assert_eq!(moved.created, Created::Updated { client_entity: c1 });
    assert_eq!(mirror.player(1000), Some(PlayerInfo { client_entity: c1, server_entity: 8 }));
    assert_eq!(mirror.local_of(5), None);
    assert_eq!(mirror.local_of(8), Some(c1));
    assert_eq!(mirror.replica(c1).unwrap().translation, at(9.0, 9.0));
    assert!(mirror.replica(c1).unwrap().controllable);
    assert_eq!(mirror.controlled(), Some(c1));
    assert_tables_agree(&mirror);
}

#[test]
fn create_evicts_the_previous_holder_of_a_server_entity() {
    let mut mirror = ClientMirror::new(CurrentClientId(1000));
    mirror.apply_player_create(5, 1000, at(1.0, 1.0));
    mirror.apply_player_create(6, 2000, at(2.0, 2.0));
    let c2 = mirror.player(2000).unwrap().client_entity;
    let outcome = mirror.apply_player_create(6, 3000, at(3.0, 3.0));
    assert_eq!(outcome.evicted, Some(c2));
    let c3 = match outcome.created {
        Created::Spawned { client_entity } => client_entity,
        other => panic!("expected a spawn, got {:?}", other),
    };
    assert_ne!(c3, c2);
    assert_eq!(mirror.player(2000), None);
    assert_eq!(mirror.replica(c2), None);
    assert_eq!(mirror.local_of(6), Some(c3));
    assert_eq!(mirror.client_lobby().players.len(), 2);
    assert_tables_agree(&mirror);
    // A known player that takes over the entity of another keeps its own
    // local entity.
    let c1 = mirror.player(1000).unwrap().client_entity;
    let outcome = mirror.apply_player_create(6, 1000, at(4.0, 4.0));
    assert_eq!(
        outcome,
        CreateOutcome { evicted: Some(c3), created: Created::Updated { client_entity: c1 } }
    );
    assert_eq!(mirror.client_lobby().players.len(), 1);
    assert_eq!(mirror.local_of(5), None);
    assert_eq!(mirror.local_of(6), Some(c1));
    assert_tables_agree(&mirror);
}

#[test]
fn at_most_one_replica_is_controllable_after_any_messages() {
    let messages = vec![
        ServerMessages::PlayerCreate { entity: 1, id: 7, translation: at(0.0, 0.0) },
        ServerMessages::PlayerCreate { entity: 2, id: 1000, translation: at(0.0, 1.0) },
        ServerMessages::PlayerCreate { entity: 3, id: 1000, translation: at(0.0, 2.0) },
        ServerMessages::PlayerRemove { id: 7 },
        ServerMessages::PlayerCreate { entity: 3, id: 8, translation: at(0.0, 3.0) },
        ServerMessages::PlayerRemove { id: 1000 },
        ServerMessages::PlayerCreate { entity: 4, id: 1000, translation: at(0.0, 4.0) },
        ServerMessages::PlayerCreate { entity: 4, id: 1000, translation: at(0.0, 4.0) },
        ServerMessages::PlayerRemove { id: 8 },
        ServerMessages::PlayerRemove { id: 8 },
    ];
    let mut mirror = ClientMirror::new(CurrentClientId(1000));
    for message in messages {
        mirror.apply_server_message(message);
        assert_tables_agree(&mirror);
        let own = mirror.player(1000).map(|info| info.client_entity);
        assert_eq!(mirror.controlled(), own);
    }
    assert_eq!(mirror.client_lobby().players.len(), 1);
    assert!(mirror.controlled().is_some());
}

#[test]
fn lifecycle_messages_report_what_they_did() {
    let mut mirror = ClientMirror::new(CurrentClientId(1000));
    let created = mirror.apply_server_message(ServerMessages::PlayerCreate {
        entity: 5,
        id: 2000,
        translation: at(1.0, 1.0),
    });
    assert_eq!(
        created,
        Reconciled::Created(CreateOutcome {
            evicted: None,
            created: Created::Spawned { client_entity: 0 }
        })
    );
    let removed = mirror.apply_server_message(ServerMessages::PlayerRemove { id: 2000 });
    assert_eq!(removed, Reconciled::Removed { client_entity: Some(0) });
    let again = mirror.apply_server_message(ServerMessages::PlayerRemove { id: 2000 });
    assert_eq!(again, Reconciled::Removed { client_entity: None });
    // Local identifiers are not reused.
    let next = mirror.apply_player_create(5, 2000, at(1.0, 1.0));
    assert_eq!(next.created, Created::Spawned { client_entity: 1 });
}

#[test]
fn malformed_payloads_are_dropped() {
    let mut mirror = ClientMirror::new(CurrentClientId(1000));
    let create =
        ServerMessages::PlayerCreate { entity: 5, id: 1000, translation: at(1.0, 1.0) }.encode();
    assert_eq!(mirror.deliver(&create[..31]), None);
    assert_eq!(mirror.deliver(&[2, 0, 0, 0, 1, 0, 0, 0, 0, 0, 0, 0]), None);
    assert!(mirror.client_lobby().players.is_empty());
    assert!(mirror.deliver(&create).is_some());
    let c1 = mirror.player(1000).unwrap().client_entity;
    let snapshot = NetworkedEntities::from_parts(vec![5], vec![at(4.0, 4.0)]).unwrap().encode();
    assert!(!mirror.place_payload(&snapshot[..snapshot.len() - 1]));
    assert_eq!(mirror.replica(c1).unwrap().translation, at(1.0, 1.0));
    assert!(mirror.place_payload(&snapshot));
    assert_eq!(mirror.replica(c1).unwrap().translation, at(4.0, 4.0));
    assert_tables_agree(&mirror);
}
