use merge_tiles::components::{Block, Board, Direction, Position, RunState, Tile};
use merge_tiles::game::Game;

fn tile(x: u8, y: u8, level: u32) -> Tile {
    (Position { x, y }, Block { level })
}

fn game_with(tiles: Vec<Tile>) -> Game {
    Game {
        board: Board { size: 4 },
        tiles,
        score: 0,
        score_best: 0,
        run_state: RunState::Playing,
    }
}

fn distinct_in_bounds(tiles: &[Tile], size: u8) -> bool {
    for (i, a) in tiles.iter().enumerate() {
        if a.0.x >= size || a.0.y >= size {
            return false;
        }
        for b in tiles.iter().skip(i + 1) {
            if a.0 == b.0 {
                return false;
            }
        }
    }
    true
}

#[test]
fn new_game_opens_with_two_level_one_tiles() {
    for _ in 0..25 {
        let g = Game::new(4);
        assert_eq!(g.tiles.len(), 2);
        assert!(g.tiles.iter().all(|t| t.1.level == 1));
        assert!(distinct_in_bounds(&g.tiles, 4));
        assert_eq!(g.score, 0);
        assert_eq!(g.score_best, 0);
        assert_eq!(g.run_state, RunState::Playing);
    }
}

#[test]
fn step_merges_scores_and_spawns() {
    let mut g = game_with(vec![tile(0, 0, 1), tile(1, 0, 1)]);
    let out = g.step(Direction::Left);
    assert!(out.tiles_changed);
    assert_eq!(out.score_delta, 4);
    assert_eq!(g.score, 4);
    assert_eq!(g.score_best, 4);
    // one tile merged away, one tile spawned
    assert_eq!(g.tiles.len(), 2);
    assert!(g
        .tiles
        .iter()
        .any(|t| t.0 == Position { x: 0, y: 0 } && t.1.level == 2));
    assert!(distinct_in_bounds(&g.tiles, 4));
    assert_eq!(g.run_state, RunState::Playing);
}

#[test]
fn no_op_step_requests_no_spawn() {
    let mut g = game_with(vec![tile(0, 0, 1), tile(1, 0, 2)]);
    let out = g.step(Direction::Left);
    assert!(!out.tiles_changed);
    assert_eq!(out.score_delta, 0);
    assert_eq!(g.score, 0);
    assert_eq!(g.tiles.len(), 2);
    let mut resting: Vec<(u8, u8, u32)> = g
        .tiles
        .iter()
        .map(|t| (t.0.x, t.0.y, t.1.level))
        .collect();
    resting.sort();
    assert_eq!(resting, vec![(0, 0, 1), (1, 0, 2)]);
}

#[test]
fn reset_after_moves_restores_the_opening() {
    let mut g = game_with(vec![tile(0, 0, 1), tile(1, 0, 1)]);
    g.step(Direction::Left);
    g.step(Direction::Down);
    g.step(Direction::Right);
    let best = g.score_best;
    g.reset();
    assert_eq!(g.tiles.len(), 2);
    assert!(g.tiles.iter().all(|t| t.1.level == 1));
    assert!(distinct_in_bounds(&g.tiles, 4));
    assert_eq!(g.score, 0);
    assert_eq!(g.score_best, best);
    assert_eq!(g.run_state, RunState::Playing);
}

#[test]
fn game_over_ignores_input_until_reset() {
    let mut g = game_with(vec![tile(0, 0, 1), tile(1, 0, 1)]);
    g.end_game();
    assert_eq!(g.run_state, RunState::GameOver);
    let out = g.step(Direction::Left);
    assert!(!out.tiles_changed);
    assert_eq!(out.score_delta, 0);
    assert_eq!(g.tiles.len(), 2);
    assert_eq!(g.score, 0);
    g.reset();
    assert_eq!(g.run_state, RunState::Playing);
}

#[test]
fn spawn_fills_the_single_free_cell() {
    // every cell but (3, 3) is occupied: the spawn has no choice
    let mut tiles = Vec::new();
    for x in 0u8..4 {
        for y in 0u8..4 {
            if !(x == 3 && y == 3) {
                tiles.push(tile(x, y, ((x + y) % 2 + 1) as u32));
            }
        }
    }
    let mut g = game_with(tiles);
    let spawned = g.request_spawn();
    assert!(spawned);
    assert_eq!(g.tiles.len(), 16);
    let last = g.tiles.last().unwrap();
    assert_eq!(last.0, Position { x: 3, y: 3 });
    assert_eq!(last.1.level, 1);
}

#[test]
fn spawn_on_a_full_board_does_nothing() {
    let mut tiles = Vec::new();
    for x in 0u8..4 {
        for y in 0u8..4 {
            tiles.push(tile(x, y, ((x + y) % 2 + 1) as u32));
        }
    }
    let mut g = game_with(tiles);
    let spawned = g.request_spawn();
    assert!(!spawned);
    assert_eq!(g.tiles.len(), 16);
}

#[test]
fn dead_full_board_ends_the_game_on_the_next_step() {
    // a full checkerboard: nothing can move or merge in any direction
    let mut tiles = Vec::new();
    for x in 0u8..4 {
        for y in 0u8..4 {
            tiles.push(tile(x, y, ((x + y) % 2 + 1) as u32));
        }
    }
    let mut g = game_with(tiles);
    let out = g.step(Direction::Left);
    assert!(!out.tiles_changed);
    assert_eq!(g.run_state, RunState::GameOver);
}

#[test]
fn session_score_saturates_instead_of_wrapping() {
    let mut g = game_with(vec![tile(0, 0, 1), tile(1, 0, 1)]);
    g.score = u64::MAX - 2;
    g.score_best = u64::MAX - 2;
    let out = g.step(Direction::Left);
    assert_eq!(out.score_delta, 4);
    assert_eq!(g.score, u64::MAX);
    assert_eq!(g.score_best, u64::MAX);
}

#[test]
fn check_terminal_reads_the_current_grid() {
    let mut tiles = Vec::new();
    for x in 0u8..4 {
        for y in 0u8..4 {
            tiles.push(tile(x, y, ((x + y) % 2 + 1) as u32));
        }
    }
    let g = game_with(tiles);
    assert!(g.check_terminal());
}
