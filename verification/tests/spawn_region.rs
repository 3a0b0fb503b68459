use game_replication::spawn::{
    coordinate, spawn_translation, SPAWN_HALF_STEPS, SPAWN_STEPS, STEPS_PER_UNIT, TWENTY,
};

#[test]
fn twenty_is_the_bit_pattern_of_twenty() {
    assert_eq!(TWENTY, 20.0f32.to_bits());
    assert_eq!(SPAWN_HALF_STEPS, 20 * STEPS_PER_UNIT);
    assert_eq!(SPAWN_STEPS, 2 * SPAWN_HALF_STEPS);
}

#[test]
fn coordinate_bits_are_those_of_the_quotient() {
    assert_eq!(coordinate(SPAWN_HALF_STEPS), 0);
    assert_eq!(coordinate(SPAWN_HALF_STEPS + 1), (1.0f32 / 1024.0).to_bits());
    assert_eq!(coordinate(SPAWN_HALF_STEPS + 1024), 0x3f800000);
    assert_eq!(coordinate(SPAWN_HALF_STEPS + 1536), 1.5f32.to_bits());
    assert_eq!(coordinate(SPAWN_HALF_STEPS - 1536), 0xbfc00000);
    assert_eq!(coordinate(0), 0xc1a00000);
    assert_eq!(coordinate(0) & 0x7fffffff, TWENTY);
    for steps in 0..SPAWN_HALF_STEPS {
        let expected = steps as f32 / 1024.0;
        assert_eq!(coordinate(SPAWN_HALF_STEPS + steps), expected.to_bits());
        let below = -((steps + 1) as f32) / 1024.0;
        assert_eq!(coordinate(SPAWN_HALF_STEPS - steps - 1), below.to_bits());
    }
}

#[test]
fn coordinates_cover_the_square_and_stay_inside() {
    assert_eq!(f32::from_bits(coordinate(0)), -20.0);
    assert_eq!(f32::from_bits(coordinate(SPAWN_HALF_STEPS)), 0.0);
    assert_eq!(f32::from_bits(coordinate(SPAWN_HALF_STEPS + 1024)), 1.0);
    assert_eq!(f32::from_bits(coordinate(SPAWN_HALF_STEPS - 512)), -0.5);
    assert_eq!(f32::from_bits(coordinate(SPAWN_STEPS - 1)), 20.0 - 1.0 / 1024.0);
    assert_eq!(coordinate(SPAWN_STEPS), coordinate(0));
    for draw in 0..SPAWN_STEPS {
        let value = f32::from_bits(coordinate(draw));
        assert_eq!(value, (draw as f32 - 20480.0) / 1024.0);
        assert!((-20.0..20.0).contains(&value));
    }
    for draw in [u32::MAX, u32::MAX - 1, 1 << 31, 123456789, 40961] {
        let value = f32::from_bits(coordinate(draw));
        assert!((-20.0..20.0).contains(&value));
        assert_eq!(value, ((draw % 40960) as f32 - 20480.0) / 1024.0);
    }
}

#[test]
fn spawn_points_lie_flat_in_the_square() {
    let t = spawn_translation(0, SPAWN_STEPS - 1);
    assert_eq!(f32::from_bits(t.x), -20.0);
    assert_eq!(f32::from_bits(t.y), 20.0 - 1.0 / 1024.0);
    assert_eq!(t.z, 0);
    let t = spawn_translation(20480 + 3 * 1024, 20480 - 7 * 1024);
    assert_eq!((f32::from_bits(t.x), f32::from_bits(t.y), f32::from_bits(t.z)), (3.0, -7.0, 0.0));
}
