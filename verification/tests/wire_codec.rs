use game_replication::wire::{PlayerInput, PlayerPosition, ServerMessages, Translation};

fn translation(x: f32, y: f32, z: f32) -> Translation {
    Translation { x: x.to_bits(), y: y.to_bits(), z: z.to_bits() }
}

#[test]
fn input_encodes_one_byte_per_flag() {
    let input = PlayerInput { up: true, down: false, left: true, right: true };
    assert_eq!(input.encode(), vec![1, 0, 1, 1]);
    assert_eq!(PlayerInput::default().encode(), vec![0, 0, 0, 0]);
}

#[test]
fn input_encoding_matches_bincode() {
    for bits in 0u8..16 {
        let input = PlayerInput {
            up: bits & 1 != 0,
            down: bits & 2 != 0,
            left: bits & 4 != 0,
            right: bits & 8 != 0,
        };
        let expected =
            bincode::serialize(&(input.up, input.down, input.left, input.right)).unwrap();
        assert_eq!(input.encode(), expected);
        assert_eq!(PlayerInput::decode(&expected), Some(input));
    }
}

#[test]
fn input_decoding_rejects_malformed_payloads() {
    assert_eq!(PlayerInput::decode(&[]), None);
    assert_eq!(PlayerInput::decode(&[1, 0, 1]), None);
    assert_eq!(PlayerInput::decode(&[1, 0, 1, 1, 0]), None);
    assert_eq!(PlayerInput::decode(&[1, 0, 2, 1]), None);
    assert_eq!(PlayerInput::decode(&[255, 0, 0, 0]), None);
    assert!(bincode::deserialize::<(bool, bool, bool, bool)>(&[1, 0, 2, 1]).is_err());
}

#[test]
fn opposed_directions_cancel() {
    let input = |up, down, left, right| PlayerInput { up, down, left, right };
    assert_eq!(input(false, false, false, false).direction(), (0, 0));
    assert_eq!(input(true, false, false, false).direction(), (0, 1));
    assert_eq!(input(false, true, false, false).direction(), (0, -1));
    assert_eq!(input(false, false, true, false).direction(), (-1, 0));
    assert_eq!(input(false, false, false, true).direction(), (1, 0));
    assert_eq!(input(true, true, false, false).direction(), (0, 0));
    assert_eq!(input(false, false, true, true).direction(), (0, 0));
    assert_eq!(input(true, true, true, true).direction(), (0, 0));
    assert_eq!(input(true, false, false, true).direction(), (1, 1));
    assert_eq!(input(false, true, true, false).direction(), (-1, -1));
    assert_eq!(input(true, true, false, true).direction(), (1, 0));
}

#[test]
fn direction_matches_the_signed_flag_difference() {
    for bits in 0u8..16 {
        let input = PlayerInput {
            up: bits & 1 != 0,
            down: bits & 2 != 0,
            left: bits & 4 != 0,
            right: bits & 8 != 0,
        };
        let x = input.right as i8 - input.left as i8;
        let y = input.up as i8 - input.down as i8;
        assert_eq!(input.direction(), (x, y));
    }
}

#[test]
fn position_encodes_three_little_endian_coordinates() {
    let position = PlayerPosition { transform: translation(1.0, -2.5, 0.0) };
    assert_eq!(
        position.encode(),
        vec![0x00, 0x00, 0x80, 0x3f, 0x00, 0x00, 0x20, 0xc0, 0x00, 0x00, 0x00, 0x00]
    );
    assert_eq!(position.encode(), bincode::serialize(&[1.0f32, -2.5, 0.0]).unwrap());
    assert_eq!(PlayerPosition::default().encode(), vec![0; 12]);
}

#[test]
fn position_round_trips() {
    let position = PlayerPosition { transform: translation(12.25, -7.5, 3.0) };
    assert_eq!(PlayerPosition::decode(&position.encode()), Some(position));
    let decoded = PlayerPosition::decode(&position.encode()).unwrap();
    assert_eq!(f32::from_bits(decoded.transform.x), 12.25);
    assert_eq!(f32::from_bits(decoded.transform.y), -7.5);
    assert_eq!(f32::from_bits(decoded.transform.z), 3.0);
}

#[test]
fn position_decoding_rejects_other_lengths() {
    assert_eq!(PlayerPosition::decode(&[0; 11]), None);
    assert_eq!(PlayerPosition::decode(&[0; 13]), None);
    assert_eq!(PlayerPosition::decode(&[]), None);
    assert_eq!(
        PlayerPosition::decode(&[0; 12]),
        Some(PlayerPosition { transform: Translation { x: 0, y: 0, z: 0 } })
    );
}

#[test]
fn player_create_encodes_tag_then_fields() {
    let message = ServerMessages::PlayerCreate {
        entity: 0x0102030405060708,
        id: 1000,
        translation: translation(1.0, 2.0, 0.0),
    };
    let bytes = message.encode();
    assert_eq!(bytes.len(), 32);
    assert_eq!(&bytes[0..4], &[0, 0, 0, 0]);
    assert_eq!(&bytes[4..12], &[8, 7, 6, 5, 4, 3, 2, 1]);
    assert_eq!(&bytes[12..20], &[0xe8, 0x03, 0, 0, 0, 0, 0, 0]);
    assert_eq!(&bytes[20..24], &[0x00, 0x00, 0x80, 0x3f]);
    assert_eq!(&bytes[24..28], &[0x00, 0x00, 0x00, 0x40]);
    assert_eq!(&bytes[28..32], &[0, 0, 0, 0]);
    let expected =
        bincode::serialize(&(0u32, 0x0102030405060708u64, 1000u64, [1.0f32, 2.0, 0.0])).unwrap();
    assert_eq!(bytes, expected);
}

#[test]
fn player_remove_encodes_tag_then_client() {
    let message = ServerMessages::PlayerRemove { id: 2000 };
    assert_eq!(message.encode(), vec![1, 0, 0, 0, 0xd0, 0x07, 0, 0, 0, 0, 0, 0]);
    assert_eq!(message.encode(), bincode::serialize(&(1u32, 2000u64)).unwrap());
}

#[test]
fn server_messages_round_trip() {
    let create = ServerMessages::PlayerCreate {
        entity: u64::MAX,
        id: 0,
        translation: translation(-19.5, 19.5, 0.0),
    };
    let remove = ServerMessages::PlayerRemove { id: u64::MAX };
    assert_eq!(ServerMessages::decode(&create.encode()), Some(create));
    assert_eq!(ServerMessages::decode(&remove.encode()), Some(remove));
}

#[test]
fn server_message_decoding_rejects_malformed_payloads() {
    let create = ServerMessages::PlayerCreate {
        entity: 1,
        id: 2,
        translation: Translation { x: 3, y: 4, z: 5 },
    }
    .encode();
    let remove = ServerMessages::PlayerRemove { id: 9 }.encode();
    assert_eq!(ServerMessages::decode(&[]), None);
    assert_eq!(ServerMessages::decode(&[0, 0, 0]), None);
    assert_eq!(ServerMessages::decode(&create[..31]), None);
    assert_eq!(ServerMessages::decode(&remove[..11]), None);
    let mut longer = create.clone();
    longer.push(0);
    assert_eq!(ServerMessages::decode(&longer), None);
    let mut unknown = remove.clone();
    unknown[0] = 2;
    assert_eq!(ServerMessages::decode(&unknown), None);
    let mut high = remove.clone();
    high[3] = 1;
    assert_eq!(ServerMessages::decode(&high), None);
    // A create tag on a remove-sized payload, and the other way round.
    let mut crossed = remove.clone();
    crossed[0] = 0;
    assert_eq!(ServerMessages::decode(&crossed), None);
    let mut crossed = create.clone();
    crossed[0] = 1;
    assert_eq!(ServerMessages::decode(&crossed), None);
}

#[test]
fn translation_origin_is_all_zero() {
    assert_eq!(Translation::origin(), Translation { x: 0, y: 0, z: 0 });
    assert_eq!(Translation::default(), Translation::origin());
    assert_eq!(f32::from_bits(Translation::origin().x), 0.0);
}
