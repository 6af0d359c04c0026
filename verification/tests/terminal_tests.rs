use merge_tiles::components::{Block, Position, Tile};
use merge_tiles::terminal::check_terminal;

fn tile(x: u8, y: u8, level: u32) -> Tile {
    (Position { x, y }, Block { level })
}

/// A full 4-by-4 board whose levels alternate like a checkerboard:
/// no two orthogonal neighbours are equal.
fn checkerboard() -> Vec<Tile> {
    let mut tiles = Vec::new();
    for x in 0u8..4 {
        for y in 0u8..4 {
            tiles.push(tile(x, y, ((x + y) % 2 + 1) as u32));
        }
    }
    tiles
}

#[test]
fn full_board_without_equal_neighbours_is_terminal() {
    let tiles = checkerboard();
    assert!(check_terminal(&tiles, 4));
}

#[test]
fn full_board_with_one_equal_pair_still_has_a_move() {
    let mut tiles = checkerboard();
    // make (1, 0) equal to its left neighbour (0, 0)
    for t in tiles.iter_mut() {
        if t.0.x == 1 && t.0.y == 0 {
            t.1.level = 1;
        }
    }
    assert!(!check_terminal(&tiles, 4));
}

#[test]
fn vertical_equal_pair_counts_as_a_move() {
    let mut tiles = checkerboard();
    // make (2, 3) equal to its lower neighbour (2, 2)
    for t in tiles.iter_mut() {
        if t.0.x == 2 && t.0.y == 3 {
            t.1.level = 1;
        }
    }
    assert!(!check_terminal(&tiles, 4));
}
