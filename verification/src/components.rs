//! The data model: positions, tiles, the board, run state, and the small
//! value types the engine reports with.

use vstd::arithmetic::power2::{lemma2_to64, lemma_pow2_strictly_increases, lemma_pow2_unfold, pow2};
use vstd::prelude::*;

verus! {

/// A cell coordinate on the square board; both components lie in
/// `[0, board size)` whenever the position belongs to a well-formed grid.
#[derive(PartialEq, Eq, Structural, Debug, Clone, Copy)]
pub struct Position {
    pub x: u8,
    pub y: u8,
}

/// One tile on the board.  `level` is the exponent of the tile's displayed
/// value `2^level`; it starts at 1 and grows by exactly 1 on each merge.
#[derive(PartialEq, Eq, Structural, Debug, Clone, Copy)]
pub struct Block {
    pub level: u32,
}

/// The board description: the grid is `size` cells wide and `size` cells
/// high.  Created once per session and never mutated.
#[derive(PartialEq, Eq, Structural, Debug, Clone, Copy)]
pub struct Board {
    pub size: u8,
}

/// Whether the session still accepts moves.
#[derive(PartialEq, Eq, Structural, Debug, Clone, Copy)]
pub enum RunState {
    Playing,
    GameOver,
}

/// A directional intent, already decoded from whatever input produced it.
#[derive(PartialEq, Eq, Structural, Debug, Clone, Copy)]
pub enum Direction {
    Left,
    Right,
    Up,
    Down,
}

/// What a single move reports back to its caller.
#[derive(PartialEq, Eq, Structural, Debug, Clone, Copy)]
pub struct MoveOutcome {
    /// True when at least one tile ended on a new cell or merged.  A spawn
    /// is requested exactly in that case.
    pub tiles_changed: bool,
    /// The score the move gained: the sum of `2^level` over the merged
    /// tiles' new levels.
    pub score_delta: u64,
}

/// The largest tile level a move accepts.  A merge raises a level by one,
/// and the displayed value `2^level` of a merged tile must still fit the
/// 32 bits a tile value is rendered with.
pub const MAX_LEVEL: u32 = 31;

/// One entry of the working tile set: a cell and the tile standing on it.
pub type Tile = (Position, Block);

/// The position lies inside the `size`-by-`size` grid.
pub open spec fn pos_in_bounds(p: Position, size: int) -> bool {
    (p.x as int) < size && (p.y as int) < size
}

/// Every tile of the set sits inside the grid.
pub open spec fn tiles_in_bounds(tiles: Seq<Tile>, size: int) -> bool {
    forall|i: int| 0 <= i < tiles.len() ==> pos_in_bounds(#[trigger] tiles[i].0, size)
}

/// No two tiles of the set share a cell.
pub open spec fn tiles_distinct(tiles: Seq<Tile>) -> bool {
    forall|i: int, j: int|
        #![trigger tiles[i], tiles[j]]
        0 <= i < j < tiles.len() ==> tiles[i].0 != tiles[j].0
}

/// Every tile's level is at least 1.
pub open spec fn levels_positive(tiles: Seq<Tile>) -> bool {
    forall|i: int| 0 <= i < tiles.len() ==> (#[trigger] tiles[i].1.level) >= 1
}

/// Every tile's level is at most `cap`.
pub open spec fn levels_at_most(tiles: Seq<Tile>, cap: int) -> bool {
    forall|i: int| 0 <= i < tiles.len() ==> (#[trigger] tiles[i].1.level as int) <= cap
}

/// Some tile of the set occupies the cell `(x, y)`.
pub open spec fn occupies(tiles: Seq<Tile>, x: int, y: int) -> bool {
    exists|i: int|
        0 <= i < tiles.len() && (#[trigger] tiles[i]).0.x as int == x && tiles[i].0.y as int == y
}

/// `2^e` as a 64-bit value.
pub fn pow2_u64(e: u32) -> (r: u64)
    requires
        e <= 63,
    ensures
        r as nat == pow2(e as nat),
{
    let mut r: u64 = 1;
    let mut i: u32 = 0;
    proof {
        lemma2_to64();
    }
    while i < e
        invariant
            i <= e <= 63,
            r as nat == pow2(i as nat),
        decreases e - i,
    {
        proof {
            lemma_pow2_unfold((i + 1) as nat);
            if i + 1 < 64 {
                lemma_pow2_strictly_increases((i + 1) as nat, 64);
            }
            lemma2_to64();
        }
        r = r * 2;
        i = i + 1;
    }
    r
}

impl Block {
    /// The tile's displayed value, `2^level`.
    pub fn score(&self) -> (r: u32)
        requires
            self.level <= MAX_LEVEL,
        ensures
            r as nat == pow2(self.level as nat),
    {
        let wide = pow2_u64(self.level);
        proof {
            if self.level < 32 {
                lemma_pow2_strictly_increases(self.level as nat, 32);
            }
            lemma2_to64();
        }
        wide as u32
    }
}

impl Default for Block {
    /// A fresh tile starts at level 1.
    fn default() -> (r: Self)
        ensures
            r.level == 1,
    {
        Block { level: 1 }
    }
}

} // verus!
