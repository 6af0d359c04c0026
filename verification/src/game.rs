//! The game facade: one value owning the board, the tile set, the score
//! counters, and the run state, with the operations a presentation layer
//! drives — apply a move, request a spawn, check for the end, reset.

use crate::components::{
    levels_at_most, levels_positive, occupies, pos_in_bounds, tiles_distinct, tiles_in_bounds,
    Board, Direction, MoveOutcome, RunState, Tile, MAX_LEVEL,
};
use crate::shift::{shift_changed, shift_out, shift_placement, shift_tiles};
use crate::spawn::{board_full, initial_tiles, spawn_step, spawn_tile};
use crate::terminal::has_adjacent_equal;
use vstd::prelude::*;

verus! {

/// A session of the puzzle.
pub struct Game {
    /// The board description; fixed for the session.
    pub board: Board,
    /// The tiles standing on the board, one per occupied cell.
    pub tiles: Vec<Tile>,
    /// The session score.
    pub score: u64,
    /// The high-water mark of the score, kept across resets.
    pub score_best: u64,
    /// Whether the session still accepts moves.
    pub run_state: RunState,
}

impl Game {
    /// The game's invariant: every tile inside the board, at most one
    /// tile per cell, every level at least 1, and the best score never
    /// below the session score.
    pub open spec fn wf(self) -> bool {
        &&& 1 <= self.board.size
        &&& tiles_in_bounds(self.tiles@, self.board.size as int)
        &&& tiles_distinct(self.tiles@)
        &&& levels_positive(self.tiles@)
        &&& self.score <= self.score_best
    }

    /// A fresh session on a `size`-by-`size` board: two opening tiles,
    /// nothing scored yet.
    pub fn new(size: u8) -> (g: Game)
        requires
            size >= 1,
        ensures
            g.wf(),
            g.board.size == size,
            g.score == 0,
            g.score_best == 0,
            g.run_state == RunState::Playing,
            g.tiles@.len() == if (size as int) * (size as int) < 2 {
                (size as int) * (size as int)
            } else {
                2int
            },
            forall|i: int| 0 <= i < g.tiles@.len() ==> (#[trigger] g.tiles@[i]).1.level == 1,
    {
        Game {
            board: Board { size },
            tiles: initial_tiles(size),
            score: 0,
            score_best: 0,
            run_state: RunState::Playing,
        }
    }

    /// Slide and merge the tiles in the given direction, add the score
    /// the move gained — saturating only at the top of the 64-bit
    /// counter — and keep the best score the high-water mark.  The
    /// outcome reports the gain and whether anything moved or merged; a
    /// spawn is owed exactly when it did.
    pub fn apply_move(&mut self, dir: Direction) -> (out: MoveOutcome)
        requires
            old(self).wf(),
            levels_at_most(old(self).tiles@, MAX_LEVEL as int),
        ensures
            final(self).wf(),
            final(self).board == old(self).board,
            final(self).run_state == old(self).run_state,
            final(self).tiles@ == shift_placement(
                old(self).tiles@,
                dir,
                old(self).board.size as int,
            ),
            out.score_delta as int == shift_out(
                old(self).tiles@,
                dir,
                old(self).board.size as int,
            ).score,
            out.tiles_changed == shift_changed(
                old(self).tiles@,
                dir,
                old(self).board.size as int,
            ),
            final(self).score as int == (if old(self).score + out.score_delta <= u64::MAX {
                old(self).score + out.score_delta
            } else {
                u64::MAX as int
            }),
            final(self).score_best as int == (if old(self).score_best >= final(self).score {
                old(self).score_best as int
            } else {
                final(self).score as int
            }),
            levels_at_most(final(self).tiles@, MAX_LEVEL as int + 1),
            !out.tiles_changed ==> final(self).tiles@.to_multiset() == old(self).tiles@.to_multiset(),
    {
        let size = self.board.size;
        proof {
            crate::laws::lemma_no_duplicate_positions(self.tiles@, dir, size as int);
        }
        let r = shift_tiles(&self.tiles, dir, size);
        self.tiles = r.tiles;
        let delta = r.score_delta;
        if delta <= u64::MAX - self.score {
            self.score = self.score + delta;
        } else {
            self.score = u64::MAX;
        }
        if self.score_best < self.score {
            self.score_best = self.score;
        }
        MoveOutcome { tiles_changed: r.changed, score_delta: delta }
    }

    /// Put one fresh level-1 tile on a uniformly random free cell; a
    /// full board spawns nothing.
    pub fn request_spawn(&mut self) -> (spawned: bool)
        requires
            old(self).wf(),
        ensures
            final(self).wf(),
            final(self).board == old(self).board,
            final(self).run_state == old(self).run_state,
            final(self).score == old(self).score,
            final(self).score_best == old(self).score_best,
            spawned == !board_full(old(self).tiles@, old(self).board.size as int),
            spawn_step(old(self).tiles@, final(self).tiles@, old(self).board.size as int),
            levels_at_most(old(self).tiles@, MAX_LEVEL as int + 1) ==> levels_at_most(
                final(self).tiles@,
                MAX_LEVEL as int + 1,
            ),
    {
        let size = self.board.size;
        let ghost pre = self.tiles@;
        let spawned = spawn_tile(&mut self.tiles, size);
        proof {
            if spawned {
                assert forall|i: int, j: int|
                    #![trigger self.tiles@[i], self.tiles@[j]]
                    0 <= i < j < self.tiles@.len() implies self.tiles@[i].0 != self.tiles@[j].0 by {
                    if j < pre.len() {
                        assert(self.tiles@[i] == pre[i]);
                        assert(self.tiles@[j] == pre[j]);
                    } else {
                        assert(self.tiles@[i] == pre[i]);
                        assert(self.tiles@[j] == self.tiles@.last());
                        if self.tiles@[i].0 == self.tiles@[j].0 {
                            assert(occupies(
                                pre,
                                self.tiles@.last().0.x as int,
                                self.tiles@.last().0.y as int,
                            ));
                        }
                    }
                }
                assert forall|i: int| 0 <= i < self.tiles@.len() implies pos_in_bounds(
                    (#[trigger] self.tiles@[i]).0,
                    self.board.size as int,
                ) && self.tiles@[i].1.level >= 1 by {
                    if i < pre.len() {
                        assert(self.tiles@[i] == pre[i]);
                    } else {
                        assert(self.tiles@[i] == self.tiles@.last());
                    }
                }
                assert forall|i: int|
                    levels_at_most(pre, MAX_LEVEL as int + 1) && 0 <= i
                        < self.tiles@.len() implies (#[trigger] self.tiles@[i]).1.level as int
                    <= MAX_LEVEL as int + 1 by {
                    if i < pre.len() {
                        assert(self.tiles@[i] == pre[i]);
                    } else {
                        assert(self.tiles@[i] == self.tiles@.last());
                    }
                }
            }
        }
        spawned
    }

    /// With the board full, has the game ended?  True exactly when no
    /// two orthogonally adjacent cells hold one level, so that no slide
    /// can merge anything.
    pub fn check_terminal(&self) -> (r: bool)
        ensures
            r == !has_adjacent_equal(self.tiles@, self.board.size as int),
    {
        crate::terminal::check_terminal(&self.tiles, self.board.size)
    }

    /// Clear the board, zero the session score, place two fresh opening
    /// tiles and return to play.  The best score stays where it was.
    pub fn reset(&mut self)
        requires
            old(self).wf(),
        ensures
            final(self).wf(),
            final(self).board == old(self).board,
            final(self).score == 0,
            final(self).score_best == old(self).score_best,
            final(self).run_state == RunState::Playing,
            final(self).tiles@.len() == (if (old(self).board.size as int) * (
            old(self).board.size as int) < 2 {
                (old(self).board.size as int) * (old(self).board.size as int)
            } else {
                2int
            }),
            forall|i: int|
                0 <= i < final(self).tiles@.len() ==> (#[trigger] final(self).tiles@[i]).1.level
                    == 1,
    {
        self.tiles = initial_tiles(self.board.size);
        self.score = 0;
        self.run_state = RunState::Playing;
    }

    /// End the session by hand: the explicit toggle to `GameOver`.
    pub fn end_game(&mut self)
        ensures
            final(self).board == old(self).board,
            final(self).tiles@ == old(self).tiles@,
            final(self).score == old(self).score,
            final(self).score_best == old(self).score_best,
            final(self).run_state == RunState::GameOver,
    {
        self.run_state = RunState::GameOver;
    }

    /// One full player action: shift and merge, spawn one tile if the
    /// board changed, and — once every cell is occupied — end the game
    /// when no legal move remains.  A session already over ignores the
    /// input.
    pub fn step(&mut self, dir: Direction) -> (out: MoveOutcome)
        requires
            old(self).wf(),
            levels_at_most(old(self).tiles@, MAX_LEVEL as int),
        ensures
            final(self).wf(),
            final(self).board == old(self).board,
            final(self).score_best >= old(self).score_best,
            levels_at_most(final(self).tiles@, MAX_LEVEL as int + 1),
            old(self).run_state == RunState::GameOver ==> *final(self) == *old(self) && out
                == (MoveOutcome { tiles_changed: false, score_delta: 0u64 }),
            old(self).run_state == RunState::Playing ==> {
                let size = old(self).board.size as int;
                let pre = old(self).tiles@;
                let placed = shift_placement(pre, dir, size);
                &&& out.score_delta as int == shift_out(pre, dir, size).score
                &&& out.tiles_changed == shift_changed(pre, dir, size)
                &&& final(self).score as int == (if old(self).score + out.score_delta
                    <= u64::MAX {
                    old(self).score + out.score_delta
                } else {
                    u64::MAX as int
                })
                &&& final(self).score_best as int == (if old(self).score_best
                    >= final(self).score {
                    old(self).score_best as int
                } else {
                    final(self).score as int
                })
                &&& (if out.tiles_changed {
                    spawn_step(placed, final(self).tiles@, size)
                } else {
                    final(self).tiles@ == placed
                })
                &&& final(self).run_state == (if final(self).tiles@.len() == size * size
                    && !has_adjacent_equal(final(self).tiles@, size) {
                    RunState::GameOver
                } else {
                    RunState::Playing
                })
            },
    {
        if self.run_state == RunState::GameOver {
            return MoveOutcome { tiles_changed: false, score_delta: 0 };
        }
        let out = self.apply_move(dir);
        if out.tiles_changed {
            self.request_spawn();
        }
        let size = self.board.size;
        proof {
            assert((size as int) * (size as int) <= 0x10000) by (nonlinear_arith)
                requires
                    0 <= size as int <= 256,
            {}
        }
        let full = self.tiles.len() == (size as usize) * (size as usize);
        if full && self.check_terminal() {
            self.run_state = RunState::GameOver;
        }
        out
    }
}

} // verus!
