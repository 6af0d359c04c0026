//! The spawner: after a move that changed the board it adds one level-1
//! tile on a uniformly random free cell; at the start of a session it
//! places two opening tiles on two distinct random cells.  The random
//! choice itself comes from the rand crate; everything around it is
//! verified for every outcome the choice can take.

use crate::components::{occupies, pos_in_bounds, tiles_distinct, Block, Position, Tile};
use rand::seq::SliceRandom;
use vstd::prelude::*;

verus! {

/// Every cell of the grid is occupied.
pub open spec fn board_full(tiles: Seq<Tile>, size: int) -> bool {
    forall|x: int, y: int| 0 <= x < size && 0 <= y < size ==> occupies(tiles, x, y)
}

/// All cells of the `size`-by-`size` grid, each exactly once.
fn all_cells(size: u8) -> (r: Vec<Position>)
    ensures
        r@.len() == (size as int) * (size as int),
        forall|i: int| 0 <= i < r@.len() ==> pos_in_bounds(#[trigger] r@[i], size as int),
        forall|i: int, j: int| #![trigger r@[i], r@[j]] 0 <= i < j < r@.len() ==> r@[i] != r@[j],
{
    let mut r: Vec<Position> = Vec::new();
    let mut x: u8 = 0;
    while x < size
        invariant
            x <= size,
            r@.len() == (x as int) * (size as int),
            forall|i: int| 0 <= i < r@.len() ==> pos_in_bounds(#[trigger] r@[i], size as int),
            forall|i: int| 0 <= i < r@.len() ==> ((#[trigger] r@[i]).x as int) < x as int,
            forall|i: int, j: int|
                #![trigger r@[i], r@[j]]
                0 <= i < j < r@.len() ==> r@[i] != r@[j],
        decreases size - x,
    {
        let mut y: u8 = 0;
        while y < size
            invariant
                x < size,
                y <= size,
                r@.len() == (x as int) * (size as int) + y as int,
                forall|i: int| 0 <= i < r@.len() ==> pos_in_bounds(#[trigger] r@[i], size as int),
                forall|i: int|
                    0 <= i < r@.len() ==> (((#[trigger] r@[i]).x as int) < x as int || (r@[i].x
                        == x && (r@[i].y as int) < y as int)),
                forall|i: int, j: int|
                    #![trigger r@[i], r@[j]]
                    0 <= i < j < r@.len() ==> r@[i] != r@[j],
            decreases size - y,
        {
            r.push(Position { x, y });
            y = y + 1;
        }
        proof {
            assert((x as int + 1) * (size as int) == (x as int) * (size as int) + (size as int))
                by (nonlinear_arith);
        }
        x = x + 1;
    }
    r
}

/// Whether some tile stands on cell `(x, y)`.
fn cell_occupied(tiles: &Vec<Tile>, x: u8, y: u8) -> (r: bool)
    ensures
        r == occupies(tiles@, x as int, y as int),
{
    let mut i: usize = 0;
    while i < tiles.len()
        invariant
            i <= tiles@.len(),
            forall|k: int|
                0 <= k < i ==> !((#[trigger] tiles@[k]).0.x as int == x as int && tiles@[k].0.y
                    as int == y as int),
        decreases tiles@.len() - i,
    {
        let t = tiles[i];
        if t.0.x == x && t.0.y == y {
            return true;
        }
        i = i + 1;
    }
    false
}

/// The unoccupied cells of the grid, each exactly once; an empty result
/// means the board is full.
fn free_cells(tiles: &Vec<Tile>, size: u8) -> (r: Vec<Position>)
    ensures
        forall|i: int|
            0 <= i < r@.len() ==> pos_in_bounds(#[trigger] r@[i], size as int) && !occupies(
                tiles@,
                r@[i].x as int,
                r@[i].y as int,
            ),
        forall|i: int, j: int| #![trigger r@[i], r@[j]] 0 <= i < j < r@.len() ==> r@[i] != r@[j],
        r@.len() == 0 ==> board_full(tiles@, size as int),
{
    let mut r: Vec<Position> = Vec::new();
    let mut x: u8 = 0;
    while x < size
        invariant
            x <= size,
            forall|i: int|
                0 <= i < r@.len() ==> pos_in_bounds(#[trigger] r@[i], size as int) && !occupies(
                    tiles@,
                    r@[i].x as int,
                    r@[i].y as int,
                ),
            forall|i: int| 0 <= i < r@.len() ==> ((#[trigger] r@[i]).x as int) < x as int,
            forall|i: int, j: int|
                #![trigger r@[i], r@[j]]
                0 <= i < j < r@.len() ==> r@[i] != r@[j],
            r@.len() == 0 ==> forall|a: int, b: int|
                0 <= a < x as int && 0 <= b < size as int ==> occupies(tiles@, a, b),
        decreases size - x,
    {
        let mut y: u8 = 0;
        while y < size
            invariant
                x < size,
                y <= size,
                forall|i: int|
                    0 <= i < r@.len() ==> pos_in_bounds(#[trigger] r@[i], size as int) && !occupies(
                        tiles@,
                        r@[i].x as int,
                        r@[i].y as int,
                    ),
                forall|i: int|
                    0 <= i < r@.len() ==> (((#[trigger] r@[i]).x as int) < x as int || (r@[i].x
                        == x && (r@[i].y as int) < y as int)),
                forall|i: int, j: int|
                    #![trigger r@[i], r@[j]]
                    0 <= i < j < r@.len() ==> r@[i] != r@[j],
                r@.len() == 0 ==> forall|a: int, b: int|
                    0 <= a < x as int && 0 <= b < size as int ==> occupies(tiles@, a, b),
                r@.len() == 0 ==> forall|b: int|
                    0 <= b < y as int ==> occupies(tiles@, x as int, b),
            decreases size - y,
        {
            if !cell_occupied(tiles, x, y) {
                r.push(Position { x, y });
            }
            y = y + 1;
        }
        x = x + 1;
    }
    r
}

/// Relies on rand's `SliceRandom::choose`: `None` exactly on an empty
/// slice, otherwise one element of the slice, picked uniformly.
#[verifier::external_body]
fn choose_cell(cells: &Vec<Position>) -> (r: Option<Position>)
    ensures
        match r {
            Option::Some(p) => cells@.contains(p),
            Option::None => cells@.len() == 0,
        },
{
    cells.as_slice().choose(&mut rand::thread_rng()).copied()
}

/// Relies on rand's `SliceRandom::choose_multiple`: it returns
/// `min(2, len)` elements drawn at distinct indices of the slice,
/// without repetition.
#[verifier::external_body]
fn choose_two_cells(cells: &Vec<Position>) -> (r: Vec<Position>)
    ensures
        r@.len() == if cells@.len() < 2 {
            cells@.len() as int
        } else {
            2int
        },
        forall|i: int| 0 <= i < r@.len() ==> cells@.contains(#[trigger] r@[i]),
        (forall|i: int, j: int|
            #![trigger cells@[i], cells@[j]]
            0 <= i < j < cells@.len() ==> cells@[i] != cells@[j]) ==> (forall|i: int, j: int|
            #![trigger r@[i], r@[j]]
            0 <= i < j < r@.len() ==> r@[i] != r@[j]),
{
    cells.as_slice().choose_multiple(&mut rand::thread_rng(), 2).copied().collect()
}

/// How one spawn relates the tile set before to the one after: a full
/// board stays as it is; otherwise exactly one level-1 tile appears, on
/// a cell inside the grid that nothing occupied.
pub open spec fn spawn_step(pre: Seq<Tile>, post: Seq<Tile>, size: int) -> bool {
    if board_full(pre, size) {
        post == pre
    } else {
        post.len() == pre.len() + 1 && post.take(pre.len() as int) == pre && post.last().1.level
            == 1 && pos_in_bounds(post.last().0, size) && !occupies(
            pre,
            post.last().0.x as int,
            post.last().0.y as int,
        )
    }
}

/// Add one level-1 tile on a uniformly random free cell; with no free
/// cell left the spawn silently does nothing.
pub fn spawn_tile(tiles: &mut Vec<Tile>, size: u8) -> (spawned: bool)
    ensures
        spawned == !board_full(old(tiles)@, size as int),
        spawn_step(old(tiles)@, final(tiles)@, size as int),
{
    let fc = free_cells(tiles, size);
    match choose_cell(&fc) {
        Option::Some(p) => {
            proof {
                let k = choose|k: int| 0 <= k < fc@.len() && fc@[k] == p;
                assert(pos_in_bounds(p, size as int));
                assert(!occupies(old(tiles)@, p.x as int, p.y as int));
                assert(fc@.len() > 0);
                assert(!board_full(old(tiles)@, size as int));
            }
            tiles.push((p, Block { level: 1 }));
            proof {
                assert(tiles@.take(old(tiles)@.len() as int) =~= old(tiles)@);
            }
            true
        },
        Option::None => {
            false
        },
    }
}

/// The two opening tiles of a session: level 1 each, on two distinct
/// uniformly random cells of the grid.  (A one-cell board opens with a
/// single tile.)
pub fn initial_tiles(size: u8) -> (r: Vec<Tile>)
    requires
        size >= 1,
    ensures
        r@.len() == if (size as int) * (size as int) < 2 {
            (size as int) * (size as int)
        } else {
            2int
        },
        forall|i: int|
            0 <= i < r@.len() ==> pos_in_bounds((#[trigger] r@[i]).0, size as int) && r@[i].1.level
                == 1,
        tiles_distinct(r@),
{
    let cells = all_cells(size);
    let picked = choose_two_cells(&cells);
    let mut r: Vec<Tile> = Vec::new();
    let mut i: usize = 0;
    while i < picked.len()
        invariant
            i <= picked@.len(),
            r@.len() == i as int,
            forall|k: int| 0 <= k < picked@.len() ==> cells@.contains(#[trigger] picked@[k]),
            forall|k: int| 0 <= k < cells@.len() ==> pos_in_bounds(#[trigger] cells@[k], size as int),
            forall|k: int, l: int|
                #![trigger picked@[k], picked@[l]]
                0 <= k < l < picked@.len() ==> picked@[k] != picked@[l],
            forall|k: int| 0 <= k < i ==> (#[trigger] r@[k]).0 == picked@[k] && r@[k].1.level == 1,
        decreases picked@.len() - i,
    {
        let p = picked[i];
        r.push((p, Block { level: 1 }));
        i = i + 1;
    }
    proof {
        assert forall|k: int| 0 <= k < r@.len() implies pos_in_bounds(
            (#[trigger] r@[k]).0,
            size as int,
        ) && r@[k].1.level == 1 by {
            assert(cells@.contains(picked@[k]));
            let m = choose|m: int| 0 <= m < cells@.len() && cells@[m] == picked@[k];
            assert(pos_in_bounds(cells@[m], size as int));
        }
        assert forall|k: int, l: int|
            #![trigger r@[k], r@[l]]
            0 <= k < l < r@.len() implies r@[k].0 != r@[l].0 by {
            assert(picked@[k] != picked@[l]);
        }
    }
    r
}

} // verus!
