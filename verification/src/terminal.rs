//! The terminal detector: once every cell of the grid is occupied, decide
//! whether any legal move remains.  A legal move exists exactly when some
//! cell has an orthogonal neighbour of its own level — such a pair would
//! merge on an appropriate slide.

use crate::components::Tile;
use vstd::prelude::*;

verus! {

/// The level recorded for cell `(x, y)` in the grid snapshot: the level
/// of the tile standing there, or 0 for an empty cell.  Later entries of
/// the tile set override earlier ones, as rebuilding the snapshot does;
/// on a well-formed set at most one entry speaks for a cell.
pub open spec fn level_at(tiles: Seq<Tile>, x: int, y: int) -> int
    decreases tiles.len(),
{
    if tiles.len() == 0 {
        0
    } else if tiles.last().0.x as int == x && tiles.last().0.y as int == y {
        tiles.last().1.level as int
    } else {
        level_at(tiles.drop_last(), x, y)
    }
}

/// Cell `(x, y)` has a right or an upper neighbour of its own level.
/// Checking each pair once — toward larger `x` and larger `y` — covers
/// all four neighbours of every cell.
pub open spec fn pair_at(tiles: Seq<Tile>, size: int, x: int, y: int) -> bool {
    (x + 1 < size && level_at(tiles, x, y) == level_at(tiles, x + 1, y)) || (y + 1 < size
        && level_at(tiles, x, y) == level_at(tiles, x, y + 1))
}

/// Two orthogonally adjacent cells of the grid hold one level.
pub open spec fn has_adjacent_equal(tiles: Seq<Tile>, size: int) -> bool {
    exists|x: int, y: int|
        0 <= x < size && 0 <= y < size && #[trigger] pair_at(tiles, size, x, y)
}

/// The level standing on cell `(x, y)`, or 0 when the cell is empty.
pub fn snapshot_level(tiles: &Vec<Tile>, x: u8, y: u8) -> (r: u32)
    ensures
        r as int == level_at(tiles@, x as int, y as int),
{
    let mut i: usize = 0;
    let mut r: u32 = 0;
    while i < tiles.len()
        invariant
            i <= tiles@.len(),
            r as int == level_at(tiles@.take(i as int), x as int, y as int),
        decreases tiles@.len() - i,
    {
        let t = tiles[i];
        if t.0.x == x && t.0.y == y {
            r = t.1.level;
        }
        proof {
            let pre = tiles@.take(i as int + 1);
            assert(pre.drop_last() =~= tiles@.take(i as int));
            assert(pre.last() == tiles@[i as int]);
        }
        i = i + 1;
    }
    proof {
        assert(tiles@.take(tiles@.len() as int) =~= tiles@);
    }
    r
}

/// Decide whether a full grid has no legal move left: true exactly when
/// no two orthogonally adjacent cells hold the same level.  The caller
/// runs this only once the tile count equals the board capacity; with an
/// empty cell left, a legal move trivially exists and the check is
/// skipped.
pub fn check_terminal(tiles: &Vec<Tile>, size: u8) -> (r: bool)
    ensures
        r == !has_adjacent_equal(tiles@, size as int),
{
    let mut x: u8 = 0;
    while x < size
        invariant
            x <= size,
            forall|a: int, b: int|
                0 <= a < x && 0 <= b < size ==> !(#[trigger] pair_at(tiles@, size as int, a, b)),
        decreases size - x,
    {
        let mut y: u8 = 0;
        while y < size
            invariant
                x < size,
                y <= size,
                forall|a: int, b: int|
                    0 <= a < x && 0 <= b < size ==> !(#[trigger] pair_at(
                        tiles@,
                        size as int,
                        a,
                        b,
                    )),
                forall|b: int|
                    0 <= b < y ==> !(#[trigger] pair_at(tiles@, size as int, x as int, b)),
            decreases size - y,
        {
            let here = snapshot_level(tiles, x, y);
            if x + 1 < size {
                let right = snapshot_level(tiles, x + 1, y);
                if here == right {
                    proof {
                        assert(pair_at(tiles@, size as int, x as int, y as int));
                    }
                    return false;
                }
            }
            if y + 1 < size {
                let above = snapshot_level(tiles, x, y + 1);
                if here == above {
                    proof {
                        assert(pair_at(tiles@, size as int, x as int, y as int));
                    }
                    return false;
                }
            }
            proof {
                assert(!pair_at(tiles@, size as int, x as int, y as int));
            }
            y = y + 1;
        }
        x = x + 1;
    }
    true
}

} // verus!
