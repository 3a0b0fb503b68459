use std::collections::HashMap;

use game_replication::client::{ClientMirror, CurrentClientId};
use game_replication::server::{ConnectionEvent, Recipient, ServerAuthority};
use game_replication::wire::{PlayerPosition, Translation};

fn at(x: f32, y: f32) -> Translation {
    Translation { x: x.to_bits(), y: y.to_bits(), z: 0.0f32.to_bits() }
}

fn assert_follows(mirror: &ClientMirror, authority: &ServerAuthority) {
    let lobby = &authority.server_lobby().players;
    assert_eq!(mirror.client_lobby().players.len(), lobby.len());
    for (client, entity) in lobby {
        assert_eq!(mirror.player(*client).unwrap().server_entity, *entity);
    }
}

/// The server and every connected client, with lifecycle messages handed
/// over at once and in order.
fn play(events: &[ConnectionEvent]) -> (ServerAuthority, HashMap<u64, ClientMirror>) {
    let mut authority = ServerAuthority::new();
    let mut mirrors: HashMap<u64, ClientMirror> = HashMap::new();
    for (step, event) in events.iter().enumerate() {
        match event {
            ConnectionEvent::Connected { client_id } => {
                mirrors.insert(*client_id, ClientMirror::new(CurrentClientId(*client_id)));
            }
            ConnectionEvent::Disconnected { client_id } => {
                mirrors.remove(client_id);
            }
        }
        for outgoing in authority.handle_event(*event, at(step as f32, -(step as f32))) {
            for (client, mirror) in mirrors.iter_mut() {
                if outgoing.to == Recipient::Everyone || outgoing.to == Recipient::Client(*client) {
                    mirror.apply_server_message(outgoing.message);
                }
            }
        }
        for mirror in mirrors.values() {
            assert_follows(mirror, &authority);
        }
    }
    (authority, mirrors)
}

#[test]
fn every_mirror_follows_the_authority() {
    let connected = |client_id| ConnectionEvent::Connected { client_id };
    let disconnected = |client_id| ConnectionEvent::Disconnected { client_id };
    let (authority, mirrors) = play(&[
        connected(1000),
        connected(2000),
        connected(3000),
        disconnected(2000),
        connected(4000),
        disconnected(9999),
        connected(2000),
        disconnected(1000),
        connected(5000),
    ]);
    assert_eq!(authority.len(), 4);
    assert_eq!(mirrors.len(), 4);
    for (client, mirror) in &mirrors {
        assert_eq!(mirror.client_lobby().players.len(), 4);
        assert_eq!(mirror.controlled(), mirror.player(*client).map(|info| info.client_entity));
    }
}

#[test]
fn a_snapshot_puts_every_replica_where_its_entity_stands() {
    let connected = |client_id| ConnectionEvent::Connected { client_id };
    let (mut authority, mut mirrors) =
        play(&[connected(1), connected(2), connected(3), ConnectionEvent::Disconnected {
            client_id: 2,
        }]);
    authority.set_position(1, PlayerPosition { transform: at(10.0, 11.0) });
    authority.set_position(3, PlayerPosition { transform: at(-30.0, 31.0) });
    let snapshot = authority.snapshot();
    for mirror in mirrors.values_mut() {
        mirror.apply_snapshot(&snapshot);
        for player in authority.players() {
            let local = mirror.player(player.player.id).unwrap().client_entity;
            assert_eq!(mirror.replica(local).unwrap().translation, player.position.transform);
        }
    }
}
