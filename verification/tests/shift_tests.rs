use merge_tiles::components::{Block, Direction, Position, Tile};
use merge_tiles::shift::{shift_tiles, should_merge, MergeStatus};

fn tile(x: u8, y: u8, level: u32) -> Tile {
    (Position { x, y }, Block { level })
}

fn levels_at(tiles: &[Tile], x: u8, y: u8) -> Vec<u32> {
    tiles
        .iter()
        .filter(|t| t.0.x == x && t.0.y == y)
        .map(|t| t.1.level)
        .collect()
}

fn mass(tiles: &[Tile]) -> u64 {
    tiles.iter().map(|t| 1u64 << t.1.level).sum()
}

#[test]
fn simple_merge_left() {
    let tiles = vec![tile(0, 0, 1), tile(1, 0, 1)];
    let r = shift_tiles(&tiles, Direction::Left, 4);
    assert_eq!(r.tiles.len(), 1);
    assert_eq!(r.tiles[0], tile(0, 0, 2));
    assert_eq!(r.score_delta, 4);
    assert!(r.changed);
}

#[test]
fn triple_same_level_no_leapfrog() {
    // handed over out of order: the engine must sort before scanning
    let tiles = vec![tile(2, 0, 1), tile(0, 0, 1), tile(1, 0, 1)];
    let r = shift_tiles(&tiles, Direction::Left, 4);
    assert_eq!(r.tiles.len(), 2);
    assert_eq!(levels_at(&r.tiles, 0, 0), vec![2]);
    assert_eq!(levels_at(&r.tiles, 1, 0), vec![1]);
    assert_eq!(r.score_delta, 4);
    assert!(r.changed);
}

#[test]
fn two_pairs_merge_in_one_row() {
    let tiles = vec![tile(0, 0, 1), tile(1, 0, 1), tile(2, 0, 1), tile(3, 0, 1)];
    let before = mass(&tiles);
    let r = shift_tiles(&tiles, Direction::Left, 4);
    assert_eq!(r.tiles.len(), 2);
    assert_eq!(levels_at(&r.tiles, 0, 0), vec![2]);
    assert_eq!(levels_at(&r.tiles, 1, 0), vec![2]);
    assert_eq!(r.score_delta, 8);
    // two merges: the tile count fell by two, the value mass is unchanged
    assert_eq!(before, mass(&r.tiles));
}

#[test]
fn merge_right_rests_at_far_wall() {
    let tiles = vec![tile(0, 0, 1), tile(1, 0, 1)];
    let r = shift_tiles(&tiles, Direction::Right, 4);
    assert_eq!(r.tiles.len(), 1);
    assert_eq!(r.tiles[0], tile(3, 0, 2));
    assert_eq!(r.score_delta, 4);
}

#[test]
fn merge_up_rests_at_top() {
    let tiles = vec![tile(0, 0, 1), tile(0, 1, 1)];
    let r = shift_tiles(&tiles, Direction::Up, 4);
    assert_eq!(r.tiles.len(), 1);
    assert_eq!(r.tiles[0], tile(0, 3, 2));
}

#[test]
fn merge_down_rests_at_bottom() {
    let tiles = vec![tile(0, 2, 3), tile(0, 3, 3)];
    let r = shift_tiles(&tiles, Direction::Down, 4);
    assert_eq!(r.tiles.len(), 1);
    assert_eq!(r.tiles[0], tile(0, 0, 4));
    assert_eq!(r.score_delta, 16);
}

#[test]
fn blocked_row_is_a_no_op() {
    let tiles = vec![tile(0, 0, 1), tile(1, 0, 2)];
    let r = shift_tiles(&tiles, Direction::Left, 4);
    assert_eq!(r.tiles.len(), 2);
    assert_eq!(levels_at(&r.tiles, 0, 0), vec![1]);
    assert_eq!(levels_at(&r.tiles, 1, 0), vec![2]);
    assert_eq!(r.score_delta, 0);
    assert!(!r.changed);
}

#[test]
fn equal_levels_on_different_rows_do_not_merge() {
    let tiles = vec![tile(0, 0, 1), tile(0, 1, 1)];
    let r = shift_tiles(&tiles, Direction::Left, 4);
    assert_eq!(r.tiles.len(), 2);
    assert_eq!(levels_at(&r.tiles, 0, 0), vec![1]);
    assert_eq!(levels_at(&r.tiles, 0, 1), vec![1]);
    assert!(!r.changed);
}

#[test]
fn empty_board_is_a_no_op() {
    let tiles: Vec<Tile> = Vec::new();
    let r = shift_tiles(&tiles, Direction::Left, 4);
    assert!(r.tiles.is_empty());
    assert_eq!(r.score_delta, 0);
    assert!(!r.changed);
}

#[test]
fn single_tile_slides_to_the_wall() {
    let tiles = vec![tile(2, 1, 3)];
    let r = shift_tiles(&tiles, Direction::Left, 4);
    assert_eq!(r.tiles.len(), 1);
    assert_eq!(r.tiles[0], tile(0, 1, 3));
    assert_eq!(r.score_delta, 0);
    assert!(r.changed);
}

#[test]
fn merged_tile_does_not_absorb_a_third() {
    // after 2 and 2 merge to 4, the trailing 4 must not be absorbed too
    let tiles = vec![tile(0, 0, 1), tile(1, 0, 1), tile(2, 0, 2)];
    let r = shift_tiles(&tiles, Direction::Left, 4);
    assert_eq!(r.tiles.len(), 2);
    assert_eq!(levels_at(&r.tiles, 0, 0), vec![2]);
    assert_eq!(levels_at(&r.tiles, 1, 0), vec![2]);
    assert_eq!(r.score_delta, 4);
}

#[test]
fn scan_runs_in_sorted_order_not_input_order() {
    // handed over back to front: scanned as given, the level-2 pair
    // would split and nothing would merge
    let tiles = vec![tile(2, 0, 2), tile(0, 0, 1), tile(1, 0, 2)];
    let r = shift_tiles(&tiles, Direction::Left, 4);
    assert_eq!(r.tiles.len(), 2);
    assert_eq!(levels_at(&r.tiles, 0, 0), vec![1]);
    assert_eq!(levels_at(&r.tiles, 1, 0), vec![3]);
    assert_eq!(r.score_delta, 8);
}

#[test]
fn should_merge_splits_the_three_cases() {
    assert!(matches!(
        should_merge((1, 0), (1, 1)),
        MergeStatus::DifferentRows
    ));
    assert!(matches!(
        should_merge((1, 0), (2, 0)),
        MergeStatus::DifferentValues
    ));
    assert!(matches!(should_merge((3, 2), (3, 2)), MergeStatus::Merge));
}
