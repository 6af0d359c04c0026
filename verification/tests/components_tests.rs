use merge_tiles::components::{pow2_u64, Block};

#[test]
fn tile_value_is_two_to_the_level() {
    assert_eq!(Block { level: 1 }.score(), 2);
    assert_eq!(Block { level: 2 }.score(), 4);
    assert_eq!(Block { level: 5 }.score(), 32);
    assert_eq!(Block { level: 31 }.score(), 2147483648);
}

#[test]
fn a_fresh_tile_starts_at_level_one() {
    let b = Block::default();
    assert_eq!(b.level, 1);
}

#[test]
fn pow2_matches_the_shifted_bit() {
    assert_eq!(pow2_u64(0), 1);
    assert_eq!(pow2_u64(10), 1024);
    assert_eq!(pow2_u64(32), 1u64 << 32);
    assert_eq!(pow2_u64(63), 1u64 << 63);
}
