use game_replication::snapshot::{all_distinct, NetworkedEntities};
use game_replication::wire::Translation;

fn translation(x: f32, y: f32, z: f32) -> Translation {
    Translation { x: x.to_bits(), y: y.to_bits(), z: z.to_bits() }
}

#[test]
fn empty_snapshot_is_two_zero_counts() {
    let snapshot = NetworkedEntities::new();
    assert_eq!(snapshot.len(), 0);
    assert_eq!(snapshot.encode(), vec![0; 16]);
    assert_eq!(NetworkedEntities::default().encode(), vec![0; 16]);
}

#[test]
fn snapshot_keeps_entities_and_translations_aligned() {
    let entities = vec![7, 3, 11];
    let translations =
        vec![translation(1.0, 2.0, 0.0), translation(-1.0, 0.5, 0.0), translation(0.0, 0.0, 0.0)];
    let snapshot = NetworkedEntities::from_parts(entities.clone(), translations.clone()).unwrap();
    assert_eq!(snapshot.len(), 3);
    assert_eq!(snapshot.entities(), &entities);
    assert_eq!(snapshot.translation(), &translations);
    assert_eq!(snapshot.entities().len(), snapshot.translation().len());
}

#[test]
fn snapshot_refuses_unequal_lengths() {
    assert!(NetworkedEntities::from_parts(vec![1, 2], vec![translation(0.0, 0.0, 0.0)]).is_none());
    assert!(NetworkedEntities::from_parts(vec![], vec![translation(0.0, 0.0, 0.0)]).is_none());
}

#[test]
fn snapshot_refuses_duplicate_entities() {
    let t = translation(0.0, 0.0, 0.0);
    assert!(NetworkedEntities::from_parts(vec![1, 2, 1], vec![t, t, t]).is_none());
    assert!(NetworkedEntities::from_parts(vec![5, 5], vec![t, t]).is_none());
    assert!(NetworkedEntities::from_parts(vec![1, 2, 3], vec![t, t, t]).is_some());
}

#[test]
fn all_distinct_finds_repeats() {
    assert!(all_distinct(&vec![]));
    assert!(all_distinct(&vec![4]));
    assert!(all_distinct(&vec![4, 1, 9, 0]));
    assert!(!all_distinct(&vec![4, 1, 9, 4]));
    assert!(!all_distinct(&vec![0, 0]));
}

#[test]
fn snapshot_encoding_matches_bincode() {
    let entities: Vec<u64> = vec![1, 2, 4294967296];
    let positions: Vec<[f32; 3]> = vec![[1.0, 2.0, 0.0], [-3.5, 4.25, 0.0], [0.0, -0.0, 7.0]];
    let translations =
        positions.iter().map(|p| translation(p[0], p[1], p[2])).collect::<Vec<Translation>>();
    let snapshot = NetworkedEntities::from_parts(entities.clone(), translations).unwrap();
    let expected = bincode::serialize(&(entities, positions)).unwrap();
    assert_eq!(snapshot.encode(), expected);
    assert_eq!(expected.len(), 16 + 20 * 3);
}

#[test]
fn snapshot_encoding_is_exact() {
    let snapshot =
        NetworkedEntities::from_parts(vec![258], vec![Translation { x: 1, y: 2, z: 3 }]).unwrap();
    assert_eq!(
        snapshot.encode(),
        vec![
            1, 0, 0, 0, 0, 0, 0, 0, // one entity
            2, 1, 0, 0, 0, 0, 0, 0, // entity 258
            1, 0, 0, 0, 0, 0, 0, 0, // one translation
            1, 0, 0, 0, 2, 0, 0, 0, 3, 0, 0, 0,
        ]
    );
}

#[test]
fn snapshot_round_trips() {
    let entities = vec![10, 20, 30, 40];
    let translations = (0..4)
        .map(|i| translation(i as f32, -(i as f32), 0.5 * i as f32))
        .collect::<Vec<Translation>>();
    let snapshot = NetworkedEntities::from_parts(entities.clone(), translations.clone()).unwrap();
    let decoded = NetworkedEntities::decode(&snapshot.encode()).unwrap();
    assert_eq!(decoded.entities(), &entities);
    assert_eq!(decoded.translation(), &translations);
    assert_eq!(decoded.encode(), snapshot.encode());
}

#[test]
fn snapshot_decoding_rejects_malformed_payloads() {
    let t = Translation { x: 1, y: 2, z: 3 };
    let good = NetworkedEntities::from_parts(vec![1, 2], vec![t, t]).unwrap().encode();
    assert!(NetworkedEntities::decode(&good).is_some());
    assert!(NetworkedEntities::decode(&[]).is_none());
    assert!(NetworkedEntities::decode(&[0; 15]).is_none());
    assert!(NetworkedEntities::decode(&good[..good.len() - 1]).is_none());
    let mut longer = good.clone();
    longer.push(0);
    assert!(NetworkedEntities::decode(&longer).is_none());
    // The entity count claims more than the payload holds.
    let mut greedy = good.clone();
    greedy[0] = 3;
    assert!(NetworkedEntities::decode(&greedy).is_none());
    let mut huge = good.clone();
    huge[7] = 0xff;
    assert!(NetworkedEntities::decode(&huge).is_none());
    // The two counts differ.
    let mut uneven = good.clone();
    uneven[8 + 16] = 1;
    assert!(NetworkedEntities::decode(&uneven).is_none());
    // The same entity twice.
    let mut twice = good.clone();
    twice[16] = 1;
    assert!(NetworkedEntities::decode(&twice).is_none());
}

#[test]
fn snapshot_decoding_accepts_what_bincode_wrote() {
    let entities: Vec<u64> = vec![9, 8];
    let positions: Vec<[f32; 3]> = vec![[0.5, 0.25, 0.0], [100.0, -100.0, 1.0]];
    let bytes = bincode::serialize(&(entities.clone(), positions.clone())).unwrap();
    let decoded = NetworkedEntities::decode(&bytes).unwrap();
    assert_eq!(decoded.entities(), &entities);
    for (i, p) in positions.iter().enumerate() {
        let t = decoded.translation()[i];
        assert_eq!([f32::from_bits(t.x), f32::from_bits(t.y), f32::from_bits(t.z)], *p);
    }
}
