use game_replication::server::{
    latest_input, latest_position, ConnectionEvent, Outgoing, Player, PlayerEntity, Recipient,
    ServerAuthority,
};
use game_replication::wire::{PlayerInput, PlayerPosition, ServerMessages, Translation};

fn at(x: f32, y: f32) -> Translation {
    Translation { x: x.to_bits(), y: y.to_bits(), z: 0.0f32.to_bits() }
}

fn idle() -> PlayerInput {
    PlayerInput { up: false, down: false, left: false, right: false }
}

#[test]
fn new_authority_is_empty() {
    let authority = ServerAuthority::new();
    assert_eq!(authority.len(), 0);
    assert!(authority.players().is_empty());
    assert!(authority.server_lobby().players.is_empty());
    assert!(authority.catch_up().is_empty());
    assert_eq!(authority.snapshot().len(), 0);
}

#[test]
fn server_admits_first_client() {
    let mut authority = ServerAuthority::new();
    let spawn = at(3.5, -7.25);
    let admission = authority.connect(1000, spawn).unwrap();
    let e1 = admission.entity;
    assert_eq!(admission.replaced, None);
    assert!(admission.catch_up.is_empty());
    assert_eq!(
        admission.announce,
        ServerMessages::PlayerCreate { entity: e1, id: 1000, translation: spawn }
    );
    assert_eq!(authority.entity_of(1000), Some(e1));
    assert_eq!(authority.server_lobby().players.len(), 1);
    assert_eq!(authority.server_lobby().players.get(&1000), Some(&e1));
    assert_eq!(
        authority.players(),
        &vec![PlayerEntity {
            entity: e1,
            player: Player { id: 1000 },
            position: PlayerPosition { transform: spawn },
            input: idle(),
        }]
    );
}

#[test]
fn server_catches_up_second_client() {
    let mut authority = ServerAuthority::new();
    let first = at(1.0, 2.0);
    let second = at(-4.0, 8.0);
    let e1 = authority.connect(1000, first).unwrap().entity;
    let admission = authority.connect(2000, second).unwrap();
    let e2 = admission.entity;
    assert_ne!(e1, e2);
    assert_eq!(
        admission.catch_up,
        vec![ServerMessages::PlayerCreate { entity: e1, id: 1000, translation: first }]
    );
    assert_eq!(
        admission.announce,
        ServerMessages::PlayerCreate { entity: e2, id: 2000, translation: second }
    );
    assert_eq!(authority.len(), 2);
    assert_eq!(authority.entity_of(1000), Some(e1));
    assert_eq!(authority.entity_of(2000), Some(e2));
}

#[test]
fn catch_up_uses_the_current_position() {
    let mut authority = ServerAuthority::new();
    let e1 = authority.connect(1000, at(1.0, 2.0)).unwrap().entity;
    let moved = PlayerPosition { transform: at(5.0, 6.0) };
    assert!(authority.set_position(1000, moved));
    let admission = authority.connect(2000, at(0.0, 0.0)).unwrap();
    assert_eq!(
        admission.catch_up,
        vec![ServerMessages::PlayerCreate { entity: e1, id: 1000, translation: at(5.0, 6.0) }]
    );
}

#[test]
fn server_removes_disconnected_client() {
    let mut authority = ServerAuthority::new();
    let e1 = authority.connect(1000, at(1.0, 2.0)).unwrap().entity;
    let e2 = authority.connect(2000, at(3.0, 4.0)).unwrap().entity;
    let departure = authority.disconnect(1000);
    assert_eq!(departure.despawned, Some(e1));
    assert_eq!(departure.announce, ServerMessages::PlayerRemove { id: 1000 });
    assert_eq!(authority.entity_of(1000), None);
    assert_eq!(authority.entity_of(2000), Some(e2));
    assert_eq!(authority.len(), 1);
    assert_eq!(authority.players()[0].entity, e2);
    assert_eq!(authority.server_lobby().players.len(), 1);
}

#[test]
fn disconnect_of_unknown_client_changes_nothing_but_is_announced() {
    let mut authority = ServerAuthority::new();
    let e1 = authority.connect(1000, at(1.0, 2.0)).unwrap().entity;
    let before = authority.players().clone();
    let departure = authority.disconnect(4242);
    assert_eq!(departure.despawned, None);
    assert_eq!(departure.announce, ServerMessages::PlayerRemove { id: 4242 });
    assert_eq!(authority.players(), &before);
    assert_eq!(authority.entity_of(1000), Some(e1));
    // Twice is once.
    authority.disconnect(1000);
    let departure = authority.disconnect(1000);
    assert_eq!(departure.despawned, None);
    assert_eq!(authority.len(), 0);
}

#[test]
fn reconnecting_client_replaces_its_entity() {
    let mut authority = ServerAuthority::new();
    let e1 = authority.connect(1000, at(1.0, 2.0)).unwrap().entity;
    let e2 = authority.connect(2000, at(3.0, 4.0)).unwrap().entity;
    let admission = authority.connect(1000, at(9.0, 9.0)).unwrap();
    assert_eq!(admission.replaced, Some(e1));
    assert_ne!(admission.entity, e1);
    assert_ne!(admission.entity, e2);
    assert_eq!(
        admission.catch_up,
        vec![ServerMessages::PlayerCreate { entity: e2, id: 2000, translation: at(3.0, 4.0) }]
    );
    assert_eq!(authority.len(), 2);
    assert_eq!(authority.entity_of(1000), Some(admission.entity));
    assert_eq!(authority.players()[0].entity, e2);
    assert_eq!(authority.players()[1].entity, admission.entity);
}

#[test]
fn entity_identifiers_are_never_reused() {
    let mut authority = ServerAuthority::new();
    let mut seen = Vec::new();
    for round in 0..5u64 {
        let entity = authority.connect(round % 2, at(0.0, 0.0)).unwrap().entity;
        assert!(!seen.contains(&entity));
        seen.push(entity);
        if round % 3 == 0 {
            authority.disconnect(round % 2);
        }
    }
    assert_eq!(seen, vec![0, 1, 2, 3, 4]);
}

#[test]
fn lobby_and_entities_agree_after_every_step() {
    let mut authority = ServerAuthority::new();
    let steps: Vec<(bool, u64)> = vec![
        (true, 1),
        (true, 2),
        (false, 1),
        (true, 3),
        (true, 2),
        (false, 9),
        (false, 3),
        (true, 1),
    ];
    for (connect, client) in steps {
        if connect {
            authority.connect(client, at(client as f32, 0.0));
        } else {
            authority.disconnect(client);
        }
        let players = authority.players();
        assert_eq!(players.len(), authority.server_lobby().players.len());
        for (i, p) in players.iter().enumerate() {
            assert_eq!(authority.server_lobby().players.get(&p.player.id), Some(&p.entity));
            for q in &players[i + 1..] {
                assert!(p.entity < q.entity);
                assert_ne!(p.player.id, q.player.id);
            }
        }
    }
}

#[test]
fn position_report_overwrites_the_entity_of_the_client_only() {
    let mut authority = ServerAuthority::new();
    authority.connect(1000, at(1.0, 2.0));
    authority.connect(2000, at(3.0, 4.0));
    let reported = PlayerPosition { transform: at(-8.0, 8.0) };
    assert!(authority.set_position(2000, reported));
    assert_eq!(authority.players()[0].position.transform, at(1.0, 2.0));
    assert_eq!(authority.players()[1].position, reported);
    assert!(!authority.set_position(3000, reported));
    assert_eq!(authority.players()[0].position.transform, at(1.0, 2.0));
}

#[test]
fn input_replaces_the_previous_snapshot() {
    let mut authority = ServerAuthority::new();
    authority.connect(1000, at(1.0, 2.0));
    let left = PlayerInput { up: false, down: false, left: true, right: false };
    let up_right = PlayerInput { up: true, down: false, left: false, right: true };
    assert!(authority.set_input(1000, left));
    assert_eq!(authority.players()[0].input, left);
    assert_eq!(authority.players()[0].input.direction(), (-1, 0));
    assert!(authority.set_input(1000, up_right));
    assert_eq!(authority.players()[0].input, up_right);
    assert_eq!(authority.players()[0].input.direction(), (1, 1));
    assert!(!authority.set_input(7, left));
    assert_eq!(authority.players()[0].position.transform, at(1.0, 2.0));
}

#[test]
fn last_well_formed_payload_stands() {
    let a = PlayerPosition { transform: at(1.0, 1.0) };
    let b = PlayerPosition { transform: at(2.0, 2.0) };
    assert_eq!(latest_position(&vec![]), None);
    assert_eq!(latest_position(&vec![a.encode(), b.encode()]), Some(b));
    assert_eq!(latest_position(&vec![a.encode(), vec![1, 2, 3]]), Some(a));
    assert_eq!(latest_position(&vec![vec![], vec![0; 13]]), None);
    let left = PlayerInput { up: false, down: false, left: true, right: false };
    assert_eq!(latest_input(&vec![left.encode(), vec![2, 0, 0, 0]]), Some(left));
    assert_eq!(latest_input(&vec![left.encode(), idle().encode()]), Some(idle()));
    assert_eq!(latest_input(&vec![vec![0; 5]]), None);
}

#[test]
fn received_payloads_reach_the_entity() {
    let mut authority = ServerAuthority::new();
    authority.connect(1000, at(1.0, 2.0));
    let a = PlayerPosition { transform: at(5.0, 5.0) };
    let b = PlayerPosition { transform: at(6.0, 6.0) };
    authority.receive_positions(1000, &vec![a.encode(), b.encode(), vec![9; 3]]);
    assert_eq!(authority.players()[0].position, b);
    authority.receive_positions(1000, &vec![vec![0; 11]]);
    assert_eq!(authority.players()[0].position, b);
    authority.receive_positions(2000, &vec![a.encode()]);
    assert_eq!(authority.players()[0].position, b);
    let held = PlayerInput { up: true, down: true, left: false, right: true };
    authority.receive_inputs(1000, &vec![vec![3, 0, 0, 0], held.encode()]);
    assert_eq!(authority.players()[0].input, held);
}

#[test]
fn snapshot_lists_every_live_entity_once() {
    let mut authority = ServerAuthority::new();
    let e1 = authority.connect(1000, at(1.0, 2.0)).unwrap().entity;
    let e2 = authority.connect(2000, at(3.0, 4.0)).unwrap().entity;
    let e3 = authority.connect(3000, at(5.0, 6.0)).unwrap().entity;
    authority.disconnect(2000);
    let snapshot = authority.snapshot();
    assert_eq!(snapshot.entities(), &vec![e1, e3]);
    assert_eq!(snapshot.translation(), &vec![at(1.0, 2.0), at(5.0, 6.0)]);
    assert_eq!(snapshot.entities().len(), snapshot.translation().len());
    assert_ne!(e1, e2);
}

#[test]
fn events_yield_what_is_to_be_sent_in_order() {
    let mut authority = ServerAuthority::new();
    let first =
        authority.handle_event(ConnectionEvent::Connected { client_id: 1000 }, at(1.0, 1.0));
    assert_eq!(
        first,
        vec![Outgoing {
            to: Recipient::Everyone,
            message: ServerMessages::PlayerCreate {
                entity: 0,
                id: 1000,
                translation: at(1.0, 1.0)
            },
        }]
    );
    let second =
        authority.handle_event(ConnectionEvent::Connected { client_id: 2000 }, at(2.0, 2.0));
    assert_eq!(
        second,
        vec![
            Outgoing {
                to: Recipient::Client(2000),
                message: ServerMessages::PlayerCreate {
                    entity: 0,
                    id: 1000,
                    translation: at(1.0, 1.0)
                },
            },
            Outgoing {
                to: Recipient::Everyone,
                message: ServerMessages::PlayerCreate {
                    entity: 1,
                    id: 2000,
                    translation: at(2.0, 2.0)
                },
            },
        ]
    );
    let third =
        authority.handle_event(ConnectionEvent::Disconnected { client_id: 1000 }, at(0.0, 0.0));
    assert_eq!(
        third,
        vec![Outgoing {
            to: Recipient::Everyone,
            message: ServerMessages::PlayerRemove { id: 1000 }
        }]
    );
    assert_eq!(authority.len(), 1);
}
