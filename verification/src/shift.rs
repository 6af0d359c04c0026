//! The shift engine: given a direction and the current tile set it computes
//! the unique post-shift layout in one scan over the tiles, sorted so that
//! the scan visits each line from the wall the tiles slide toward.
//!
//! All four directions run through one algorithm over move-relative
//! coordinates: `line` is the coordinate perpendicular to the move and
//! `slide` the distance from the wall.  `do_shift` is the mathematical
//! model of the scan; the executable functions are proved against it.

use crate::components::{
    levels_at_most, levels_positive, pos_in_bounds, pow2_u64, tiles_distinct, tiles_in_bounds,
    Block, Direction, Position, Tile, MAX_LEVEL,
};
use vstd::arithmetic::power2::pow2;
use vstd::prelude::*;
use vstd::relations::{sorted_by, total_ordering};
use vstd::seq_lib::lemma_sorted_unique;

verus! {

// ------------------------------------------------------------------
// The merge decision
// ------------------------------------------------------------------

/// Why two consecutive tiles of the sorted scan do or do not merge.
#[derive(PartialEq, Eq, Structural, Debug, Clone, Copy)]
pub enum MergeStatus {
    Merge,
    DifferentRows,
    DifferentValues,
}

/// The merge decision for two consecutive tiles of the scan.  Each tile is
/// given as `(level, line)`, where the line is the coordinate
/// perpendicular to the move: tiles on different lines never collide,
/// tiles of different levels collide without merging.
pub fn should_merge(block: (u32, u8), block_next: (u32, u8)) -> (r: MergeStatus)
    ensures
        r == (if block.1 != block_next.1 {
            MergeStatus::DifferentRows
        } else if block.0 != block_next.0 {
            MergeStatus::DifferentValues
        } else {
            MergeStatus::Merge
        }),
{
    if block.1 != block_next.1 {
        MergeStatus::DifferentRows
    } else if block.0 != block_next.0 {
        MergeStatus::DifferentValues
    } else {
        MergeStatus::Merge
    }
}

// ------------------------------------------------------------------
// The mathematical model of the scan
// ------------------------------------------------------------------

/// A tile in move-relative coordinates.
pub struct LTile {
    pub line: int,
    pub slide: int,
    pub level: int,
}

/// Where a tile came to rest, at which level, and whether it absorbed
/// another tile on the way.
pub struct Placed {
    pub line: int,
    pub slide: int,
    pub level: int,
    pub merged: bool,
}

/// The outcome of one scan: the placed tiles and the score gained.
pub struct ShiftOut {
    pub placed: Seq<Placed>,
    pub score: int,
}

/// The resting record for the head tile of the scan: it keeps its line,
/// rests at the running coordinate, and gains a level when it merged.
pub open spec fn rest_at(t: LTile, slide: int, merged: bool) -> Placed {
    Placed {
        line: t.line,
        slide,
        level: if merged {
            t.level + 1
        } else {
            t.level
        },
        merged,
    }
}

/// One pass of the shift engine over tiles sorted by `(line, slide)`.
///
/// The scan looks at the head tile and its successor.  A successor on a
/// different line ends the current run: the head rests at the running
/// coordinate `c` and the coordinate restarts at the wall.  A successor on
/// the same line but of a different level cannot merge: the head rests at
/// `c` and the coordinate steps inward.  A successor of equal line and
/// level is absorbed: both tiles leave the scan, the merged tile rests at
/// `c` with its level raised by one, and `2^(level+1)` is scored.  A tile
/// consumed by a merge is gone and can neither absorb nor be absorbed
/// again in the same pass.
pub open spec fn do_shift(s: Seq<LTile>, c: int) -> ShiftOut
    decreases s.len(),
{
    if s.len() == 0 {
        ShiftOut { placed: Seq::empty(), score: 0 }
    } else if s.len() == 1 {
        ShiftOut { placed: seq![rest_at(s[0], c, false)], score: 0 }
    } else if s[0].line != s[1].line {
        let rest = do_shift(s.drop_first(), 0);
        ShiftOut { placed: seq![rest_at(s[0], c, false)] + rest.placed, score: rest.score }
    } else if s[0].level != s[1].level {
        let rest = do_shift(s.drop_first(), c + 1);
        ShiftOut { placed: seq![rest_at(s[0], c, false)] + rest.placed, score: rest.score }
    } else {
        let tail = s.subrange(2, s.len() as int);
        let c2 = if tail.len() > 0 && tail[0].line == s[0].line {
            c + 1
        } else {
            0
        };
        let rest = do_shift(tail, c2);
        ShiftOut {
            placed: seq![rest_at(s[0], c, true)] + rest.placed,
            score: rest.score + pow2((s[0].level + 1) as nat),
        }
    }
}

/// The placed tiles without their merge annotations.
pub open spec fn strip(p: Seq<Placed>) -> Seq<LTile> {
    p.map_values(|q: Placed| LTile { line: q.line, slide: q.slide, level: q.level })
}

/// How many of the placed tiles absorbed another tile.
pub open spec fn merge_count(p: Seq<Placed>) -> int
    decreases p.len(),
{
    if p.len() == 0 {
        0
    } else {
        (if p[0].merged {
            1int
        } else {
            0int
        }) + merge_count(p.drop_first())
    }
}

// ------------------------------------------------------------------
// Move-relative coordinates
// ------------------------------------------------------------------

/// The coordinate perpendicular to the move.
pub open spec fn line_of(dir: Direction, size: int, p: Position) -> int {
    match dir {
        Direction::Left => p.y as int,
        Direction::Right => p.y as int,
        Direction::Down => p.x as int,
        Direction::Up => p.x as int,
    }
}

/// The distance from the wall the tiles slide toward.
pub open spec fn slide_of(dir: Direction, size: int, p: Position) -> int {
    match dir {
        Direction::Left => p.x as int,
        Direction::Right => size - 1 - p.x as int,
        Direction::Down => p.y as int,
        Direction::Up => size - 1 - p.y as int,
    }
}

/// The cell a move-relative coordinate pair stands for.
pub open spec fn pos_of(dir: Direction, size: int, line: int, slide: int) -> Position {
    match dir {
        Direction::Left => Position { x: slide as u8, y: line as u8 },
        Direction::Right => Position { x: (size - 1 - slide) as u8, y: line as u8 },
        Direction::Down => Position { x: line as u8, y: slide as u8 },
        Direction::Up => Position { x: line as u8, y: (size - 1 - slide) as u8 },
    }
}

/// An encoded tile as the executable scan handles it:
/// `(line, slide, level)`.
pub type STile = (u8, u8, u32);

/// The mathematical reading of an encoded tile.
pub open spec fn view_stile(t: STile) -> LTile {
    LTile { line: t.0 as int, slide: t.1 as int, level: t.2 as int }
}

/// The mathematical reading of a sequence of encoded tiles.
pub open spec fn view_stiles(s: Seq<STile>) -> Seq<LTile> {
    s.map_values(|t: STile| view_stile(t))
}

/// The move-relative encoding of one tile.
pub open spec fn encode_spec(dir: Direction, size: int, t: Tile) -> STile {
    (line_of(dir, size, t.0) as u8, slide_of(dir, size, t.0) as u8, t.1.level)
}

/// The cell and tile an encoded triple stands for.
pub open spec fn decode_spec(dir: Direction, size: int, t: STile) -> Tile {
    (pos_of(dir, size, t.0 as int, t.1 as int), Block { level: t.2 })
}

/// For tiles inside the grid, decoding inverts encoding.
pub proof fn lemma_decode_encode(dir: Direction, size: int, t: Tile)
    requires
        1 <= size <= 256,
        pos_in_bounds(t.0, size),
    ensures
        decode_spec(dir, size, encode_spec(dir, size, t)) == t,
{
}

// ------------------------------------------------------------------
// The scan order, through the outside sort
// ------------------------------------------------------------------

/// The order the scan visits encoded tiles in: lexicographic on
/// `(line, slide, level)` — the order `Ord` gives these integer triples.
pub open spec fn stile_le(a: STile, b: STile) -> bool {
    a.0 < b.0 || (a.0 == b.0 && (a.1 < b.1 || (a.1 == b.1 && a.2 <= b.2)))
}

/// The scan order as a relation value, for the sorting lemmas.
pub open spec fn stile_leq() -> spec_fn(STile, STile) -> bool {
    |a: STile, b: STile| stile_le(a, b)
}

/// The scan order is a total order.
pub proof fn lemma_stile_le_total()
    ensures
        total_ordering(stile_leq()),
{
    let leq = stile_leq();
    assert forall|x: STile, y: STile| #[trigger] leq(x, y) && #[trigger] leq(y, x) implies x == y by {
        assert(x.0 == y.0 && x.1 == y.1 && x.2 == y.2);
    }
}

/// Relies on itertools' `Itertools::sorted`: it returns all elements of
/// the iterator, sorted ascending by `Ord` — for these integer triples the
/// lexicographic order on `(line, slide, level)`.
#[verifier::external_body]
fn sort_stiles(v: Vec<STile>) -> (r: Vec<STile>)
    ensures
        r@.to_multiset() == v@.to_multiset(),
        sorted_by(r@, stile_leq()),
{
    itertools::Itertools::sorted(v.into_iter()).collect()
}

/// The sorted scan order of a sequence of encoded tiles.
pub open spec fn sorted_stiles(s: Seq<STile>) -> Seq<STile> {
    s.sort_by(stile_leq())
}

/// A sorted permutation of a sequence is its unique sorted form.
pub proof fn lemma_sort_deterministic(v: Seq<STile>, r: Seq<STile>)
    requires
        r.to_multiset() == v.to_multiset(),
        sorted_by(r, stile_leq()),
    ensures
        r == sorted_stiles(v),
{
    lemma_stile_le_total();
    v.lemma_sort_by_ensures(stile_leq());
    lemma_sorted_unique(r, sorted_stiles(v), stile_leq());
}

// ------------------------------------------------------------------
// Distinct cells give distinct scan keys
// ------------------------------------------------------------------

/// Strict lexicographic order on the `(line, slide)` part of the key.
pub open spec fn key_lt(a: STile, b: STile) -> bool {
    a.0 < b.0 || (a.0 == b.0 && a.1 < b.1)
}

/// No two encoded tiles share a `(line, slide)` pair.
pub open spec fn keys_unique(s: Seq<STile>) -> bool {
    forall|i: int, j: int|
        #![trigger s[i], s[j]]
        0 <= i < j < s.len() ==> !(s[i].0 == s[j].0 && s[i].1 == s[j].1)
}

/// `(line, slide)` pairs strictly grow along the sequence.
pub open spec fn strictly_sorted(s: Seq<STile>) -> bool {
    forall|i: int, j: int|
        #![trigger s[i], s[j]]
        0 <= i < j < s.len() ==> key_lt(s[i], s[j])
}

/// A sorted sequence with pairwise distinct keys is strictly sorted.
pub proof fn lemma_sorted_strict(s: Seq<STile>)
    requires
        sorted_by(s, stile_leq()),
        keys_unique(s),
    ensures
        strictly_sorted(s),
{
    assert forall|i: int, j: int|
        #![trigger s[i], s[j]]
        0 <= i < j < s.len() implies key_lt(s[i], s[j]) by {
        assert(stile_leq()(s[i], s[j]));
    }
}

/// Encoding tiles on distinct cells yields pairwise distinct keys.
pub proof fn lemma_encode_keys_unique(tiles: Seq<Tile>, dir: Direction, size: int)
    requires
        1 <= size <= 256,
        tiles_in_bounds(tiles, size),
        tiles_distinct(tiles),
    ensures
        keys_unique(tiles.map_values(|t: Tile| encode_spec(dir, size, t))),
{
    let enc = tiles.map_values(|t: Tile| encode_spec(dir, size, t));
    assert forall|i: int, j: int|
        #![trigger enc[i], enc[j]]
        0 <= i < j < enc.len() implies !(enc[i].0 == enc[j].0 && enc[i].1 == enc[j].1) by {
        if enc[i].0 == enc[j].0 && enc[i].1 == enc[j].1 {
            lemma_decode_encode(dir, size, tiles[i]);
            lemma_decode_encode(dir, size, tiles[j]);
            assert(pos_of(dir, size, enc[i].0 as int, enc[i].1 as int) == tiles[i].0);
            assert(pos_of(dir, size, enc[j].0 as int, enc[j].1 as int) == tiles[j].0);
        }
    }
}

/// A sequence somewhere in a multiset-preserving shuffle of `v` keeps
/// `v`'s key distinctness.
pub proof fn lemma_perm_keys_unique(v: Seq<STile>, r: Seq<STile>)
    requires
        r.to_multiset() == v.to_multiset(),
        keys_unique(v),
    ensures
        keys_unique(r),
{
    broadcast use vstd::seq_lib::group_to_multiset_ensures;

    assert forall|i: int, j: int|
        #![trigger r[i], r[j]]
        0 <= i < j < r.len() implies !(r[i].0 == r[j].0 && r[i].1 == r[j].1) by {
        if r[i].0 == r[j].0 && r[i].1 == r[j].1 {
            if r[i] == r[j] {
                // the same triple occurs twice in r, hence twice in v
                assert(r.remove(i).to_multiset() =~= r.to_multiset().remove(r[i]));
                assert(r.remove(i)[j - 1] == r[j]);
                assert(r.remove(i).contains(r[j]));
                assert(r.remove(i).to_multiset().count(r[j]) > 0);
                assert(v.to_multiset().count(r[i]) >= 2);
                assert(v.contains(r[i]));
                let k = choose|k: int| 0 <= k < v.len() && v[k] == r[i];
                assert(v.remove(k).to_multiset() =~= v.to_multiset().remove(v[k]));
                assert(v.remove(k).to_multiset().count(r[i]) > 0);
                assert(v.remove(k).contains(r[i]));
                let l0 = choose|l0: int| 0 <= l0 < v.remove(k).len() && v.remove(k)[l0] == r[i];
                let l = if l0 < k {
                    l0
                } else {
                    l0 + 1
                };
                assert(v[l] == r[i] && l != k);
            } else {
                // two different triples with the same key occur in r, hence in v
                assert(r.contains(r[i]));
                assert(r.contains(r[j]));
                assert(v.to_multiset().count(r[i]) > 0);
                assert(v.to_multiset().count(r[j]) > 0);
                assert(v.contains(r[i]));
                assert(v.contains(r[j]));
                let k = choose|k: int| 0 <= k < v.len() && v[k] == r[i];
                let l = choose|l: int| 0 <= l < v.len() && v[l] == r[j];
                assert(v[k] != v[l]);
            }
        }
    }
}

// ------------------------------------------------------------------
// A set of distinct tiles inside the grid is no larger than the grid
// ------------------------------------------------------------------

/// Distinct in-bounds positions number at most `size * size`.
pub proof fn lemma_tile_count_bound(tiles: Seq<Tile>, size: int)
    requires
        1 <= size <= 256,
        tiles_in_bounds(tiles, size),
        tiles_distinct(tiles),
    ensures
        tiles.len() <= size * size,
{
    let cell = |t: Tile| (t.0.x as int) * size + (t.0.y as int);
    let cells = tiles.map_values(cell);
    assert forall|i: int, j: int|
        #![trigger cells[i], cells[j]]
        0 <= i < j < cells.len() implies cells[i] != cells[j] by {
        let (xi, yi) = ((tiles[i].0.x as int), (tiles[i].0.y as int));
        let (xj, yj) = ((tiles[j].0.x as int), (tiles[j].0.y as int));
        assert(xi * size + yi != xj * size + yj) by (nonlinear_arith)
            requires
                0 <= xi < size,
                0 <= yi < size,
                0 <= xj < size,
                0 <= yj < size,
                !(xi == xj && yi == yj),
        {}
    }
    assert(cells.no_duplicates());
    cells.unique_seq_to_set();
    assert forall|c: int| cells.to_set().contains(c) implies vstd::set_lib::set_int_range(
        0,
        size * size,
    ).contains(c) by {
        let i = choose|i: int| 0 <= i < cells.len() && cells[i] == c;
        let (xi, yi) = ((tiles[i].0.x as int), (tiles[i].0.y as int));
        assert(0 <= xi * size + yi < size * size) by (nonlinear_arith)
            requires
                0 <= xi < size,
                0 <= yi < size,
        {}
    }
    vstd::set_lib::lemma_int_range(0, size * size);
    vstd::set_lib::lemma_len_subset(cells.to_set(), vstd::set_lib::set_int_range(0, size * size));
}

// ------------------------------------------------------------------
// Encoding and decoding, executably
// ------------------------------------------------------------------

/// Encode every tile of the set into move-relative coordinates.
fn encode_tiles(tiles: &Vec<Tile>, dir: Direction, size: u8) -> (r: Vec<STile>)
    requires
        size >= 1,
        tiles_in_bounds(tiles@, size as int),
    ensures
        r@ == tiles@.map_values(|t: Tile| encode_spec(dir, size as int, t)),
{
    let ghost goal = tiles@.map_values(|t: Tile| encode_spec(dir, size as int, t));
    let mut r: Vec<STile> = Vec::new();
    let mut i: usize = 0;
    while i < tiles.len()
        invariant
            i <= tiles@.len(),
            size >= 1,
            tiles_in_bounds(tiles@, size as int),
            goal == tiles@.map_values(|t: Tile| encode_spec(dir, size as int, t)),
            r@ == goal.take(i as int),
        decreases tiles@.len() - i,
    {
        let p = tiles[i].0;
        let lvl = tiles[i].1.level;
        let enc: STile = match dir {
            Direction::Left => (p.y, p.x, lvl),
            Direction::Right => (p.y, size - 1 - p.x, lvl),
            Direction::Down => (p.x, p.y, lvl),
            Direction::Up => (p.x, size - 1 - p.y, lvl),
        };
        r.push(enc);
        proof {
            assert(goal[i as int] == encode_spec(dir, size as int, tiles@[i as int]));
            assert(r@ =~= goal.take(i as int + 1));
        }
        i = i + 1;
    }
    proof {
        assert(goal.take(goal.len() as int) =~= goal);
    }
    r
}

/// Decode every placed triple back into a cell and its tile.
fn decode_tiles(v: &Vec<STile>, dir: Direction, size: u8) -> (r: Vec<Tile>)
    requires
        size >= 1,
        forall|i: int| 0 <= i < v@.len() ==> (#[trigger] v@[i]).0 < size && v@[i].1 < size,
    ensures
        r@ == v@.map_values(|t: STile| decode_spec(dir, size as int, t)),
{
    let ghost goal = v@.map_values(|t: STile| decode_spec(dir, size as int, t));
    let mut r: Vec<Tile> = Vec::new();
    let mut i: usize = 0;
    while i < v.len()
        invariant
            i <= v@.len(),
            size >= 1,
            forall|k: int| 0 <= k < v@.len() ==> (#[trigger] v@[k]).0 < size && v@[k].1 < size,
            goal == v@.map_values(|t: STile| decode_spec(dir, size as int, t)),
            r@ == goal.take(i as int),
        decreases v@.len() - i,
    {
        let t = v[i];
        let p: Position = match dir {
            Direction::Left => Position { x: t.1, y: t.0 },
            Direction::Right => Position { x: size - 1 - t.1, y: t.0 },
            Direction::Down => Position { x: t.0, y: t.1 },
            Direction::Up => Position { x: t.0, y: size - 1 - t.1 },
        };
        r.push((p, Block { level: t.2 }));
        proof {
            assert(goal[i as int] == decode_spec(dir, size as int, v@[i as int]));
            assert(r@ =~= goal.take(i as int + 1));
        }
        i = i + 1;
    }
    proof {
        assert(goal.take(goal.len() as int) =~= goal);
    }
    r
}

// ------------------------------------------------------------------
// The executable scan
// ------------------------------------------------------------------

/// `2^e` stays within the 33-bit bound the score accounting uses.
proof fn lemma_pow2_within_33_bits(e: nat)
    requires
        e <= 32,
    ensures
        pow2(e) <= 0x1_0000_0000,
{
    vstd::arithmetic::power2::lemma2_to64();
    if e < 32 {
        vstd::arithmetic::power2::lemma_pow2_strictly_increases(e, 32);
    }
}

/// Run the scan over the sorted encoded tiles: place every tile at its
/// line's running coordinate, merge equal neighbours, and accumulate the
/// score.  The result is exactly what `do_shift` describes.
fn scan_tiles(v: &Vec<STile>, size: u8) -> (out: (Vec<STile>, u64))
    requires
        size >= 1,
        v@.len() <= 0x10000,
        strictly_sorted(v@),
        forall|i: int| 0 <= i < v@.len() ==> (#[trigger] v@[i]).0 < size && v@[i].1 < size,
        forall|i: int| 0 <= i < v@.len() ==> 1 <= (#[trigger] v@[i]).2 <= MAX_LEVEL,
    ensures
        view_stiles(out.0@) == strip(do_shift(view_stiles(v@), 0).placed),
        out.1 as int == do_shift(view_stiles(v@), 0).score,
        forall|i: int|
            0 <= i < out.0@.len() ==> (#[trigger] out.0@[i]).0 < size && out.0@[i].1 < size,
        forall|i: int| 0 <= i < out.0@.len() ==> 1 <= (#[trigger] out.0@[i]).2 <= MAX_LEVEL + 1,
{
    let ghost full = view_stiles(v@);
    let ghost total = do_shift(full, 0);
    let mut out: Vec<STile> = Vec::new();
    let mut score: u64 = 0;
    let mut c: u8 = 0;
    let mut i: usize = 0;
    proof {
        assert(full.skip(0) =~= full);
        assert(view_stiles(out@) =~= Seq::<LTile>::empty());
        assert(strip(total.placed) =~= view_stiles(out@) + strip(do_shift(full, 0).placed));
    }
    while i < v.len()
        invariant
            i <= v@.len(),
            v@.len() <= 0x10000,
            size >= 1,
            full == view_stiles(v@),
            total == do_shift(full, 0),
            strictly_sorted(v@),
            forall|k: int| 0 <= k < v@.len() ==> (#[trigger] v@[k]).0 < size && v@[k].1 < size,
            forall|k: int| 0 <= k < v@.len() ==> 1 <= (#[trigger] v@[k]).2 <= MAX_LEVEL,
            i < v@.len() ==> c <= v@[i as int].1,
            strip(total.placed) == view_stiles(out@) + strip(
                do_shift(full.skip(i as int), c as int).placed,
            ),
            total.score == score as int + do_shift(full.skip(i as int), c as int).score,
            score as int <= (i as int) * 0x1_0000_0000,
            forall|k: int| 0 <= k < out@.len() ==> (#[trigger] out@[k]).0 < size && out@[k].1 < size,
            forall|k: int| 0 <= k < out@.len() ==> 1 <= (#[trigger] out@[k]).2 <= MAX_LEVEL + 1,
        decreases v@.len() - i,
    {
        let ghost rem = full.skip(i as int);
        let ghost out0 = out@;
        let t = v[i];
        proof {
            assert(rem[0] == view_stile(v@[i as int]));
        }
        if i + 1 == v.len() {
            // no lookahead left: the tile rests at the running coordinate
            out.push((t.0, c, t.2));
            proof {
                assert(rem.len() == 1);
                assert(do_shift(rem, c as int).placed == seq![rest_at(rem[0], c as int, false)]);
                assert(full.skip(i as int + 1) =~= Seq::<LTile>::empty());
                assert(view_stiles(out@) =~= view_stiles(out0).push(view_stile((t.0, c, t.2))));
                assert(strip(do_shift(full.skip(i as int + 1), c as int).placed) =~= Seq::<
                    LTile,
                >::empty());
                assert(view_stiles(out0) + strip(do_shift(rem, c as int).placed) =~= view_stiles(
                    out@,
                ) + strip(do_shift(full.skip(i as int + 1), c as int).placed));
            }
            i = i + 1;
        } else {
            let u = v[i + 1];
            proof {
                assert(rem.len() >= 2);
                assert(rem[1] == view_stile(v@[i as int + 1]));
                assert(rem.drop_first() =~= full.skip(i as int + 1));
                assert(key_lt(v@[i as int], v@[i as int + 1]));
            }
            match should_merge((t.2, t.0), (u.2, u.0)) {
                MergeStatus::DifferentRows => {
                    // the successor starts a new line: close this run
                    out.push((t.0, c, t.2));
                    proof {
                        assert(do_shift(rem, c as int).placed == seq![
                            rest_at(rem[0], c as int, false),
                        ] + do_shift(rem.drop_first(), 0).placed);
                        assert(view_stiles(out@) =~= view_stiles(out0).push(
                            view_stile((t.0, c, t.2)),
                        ));
                        assert(view_stiles(out0) + strip(do_shift(rem, c as int).placed)
                            =~= view_stiles(out@) + strip(
                            do_shift(full.skip(i as int + 1), 0).placed,
                        ));
                    }
                    c = 0;
                    i = i + 1;
                }
                MergeStatus::DifferentValues => {
                    // same line, different level: the tiles only stack up
                    out.push((t.0, c, t.2));
                    proof {
                        assert(do_shift(rem, c as int).placed == seq![
                            rest_at(rem[0], c as int, false),
                        ] + do_shift(rem.drop_first(), c as int + 1).placed);
                        assert(view_stiles(out@) =~= view_stiles(out0).push(
                            view_stile((t.0, c, t.2)),
                        ));
                        assert(view_stiles(out0) + strip(do_shift(rem, c as int).placed)
                            =~= view_stiles(out@) + strip(
                            do_shift(full.skip(i as int + 1), c as int + 1).placed,
                        ));
                        // the running coordinate never passes the tile it places
                        assert(v@[i as int].1 < v@[i as int + 1].1);
                    }
                    c = c + 1;
                    i = i + 1;
                }
                MergeStatus::Merge => {
                    // same line and level: the head absorbs its successor
                    let lvl = t.2 + 1;
                    out.push((t.0, c, lvl));
                    let gain = pow2_u64(lvl);
                    proof {
                        let ghost tail = rem.subrange(2, rem.len() as int);
                        assert(tail =~= full.skip(i as int + 2));
                        let ghost c2: int = if tail.len() > 0 && tail[0].line == rem[0].line {
                            c as int + 1
                        } else {
                            0
                        };
                        assert(do_shift(rem, c as int).placed == seq![
                            rest_at(rem[0], c as int, true),
                        ] + do_shift(tail, c2).placed);
                        assert(do_shift(rem, c as int).score == do_shift(tail, c2).score + pow2(
                            (rem[0].level + 1) as nat,
                        ));
                        assert(view_stiles(out@) =~= view_stiles(out0).push(
                            view_stile((t.0, c, lvl)),
                        ));
                        assert(view_stiles(out0) + strip(do_shift(rem, c as int).placed)
                            =~= view_stiles(out@) + strip(do_shift(full.skip(i as int + 2), c2).placed));
                        lemma_pow2_within_33_bits((t.2 + 1) as nat);
                        // slides grow strictly along a line, so the running
                        // coordinate keeps below the next tile of the run
                        if i + 2 < v.len() {
                            assert(key_lt(v@[i as int + 1], v@[i as int + 2]));
                            assert(tail[0] == view_stile(v@[i as int + 2]));
                        }
                    }
                    score = score + gain;
                    if i + 2 < v.len() && v[i + 2].0 == t.0 {
                        c = c + 1;
                    } else {
                        c = 0;
                    }
                    i = i + 2;
                }
            }
        }
    }
    proof {
        assert(full.skip(v@.len() as int) =~= Seq::<LTile>::empty());
        assert(strip(do_shift(full.skip(v@.len() as int), c as int).placed) =~= Seq::<
            LTile,
        >::empty());
        assert(view_stiles(out@) + Seq::<LTile>::empty() =~= view_stiles(out@));
    }
    (out, score)
}

// ------------------------------------------------------------------
// The complete shift
// ------------------------------------------------------------------

/// The order the scan visits a tile set in for a move: encode every tile
/// into move-relative coordinates, then sort.
pub open spec fn scan_order(tiles: Seq<Tile>, dir: Direction, size: int) -> Seq<STile> {
    sorted_stiles(tiles.map_values(|t: Tile| encode_spec(dir, size, t)))
}

/// The complete shift of a tile set, in move-relative coordinates.
pub open spec fn shift_out(tiles: Seq<Tile>, dir: Direction, size: int) -> ShiftOut {
    do_shift(view_stiles(scan_order(tiles, dir, size)), 0)
}

/// The resting layout of the shift, as cells and tiles.
pub open spec fn shift_placement(tiles: Seq<Tile>, dir: Direction, size: int) -> Seq<Tile> {
    shift_out(tiles, dir, size).placed.map_values(
        |q: Placed| (pos_of(dir, size, q.line, q.slide), Block { level: q.level as u32 }),
    )
}

/// A move changes the board exactly when some tile's resting place or
/// level differs from its place in the scan order.
pub open spec fn shift_changed(tiles: Seq<Tile>, dir: Direction, size: int) -> bool {
    strip(shift_out(tiles, dir, size).placed) != view_stiles(scan_order(tiles, dir, size))
}

/// Equal views come only from equal encoded-tile sequences.
proof fn lemma_view_stiles_injective(a: Seq<STile>, b: Seq<STile>)
    requires
        view_stiles(a) == view_stiles(b),
    ensures
        a == b,
{
    assert(view_stiles(a).len() == a.len());
    assert(view_stiles(b).len() == b.len());
    assert(a.len() == b.len());
    assert forall|k: int| 0 <= k < a.len() implies a[k] == b[k] by {
        assert(view_stiles(a)[k] == view_stile(a[k]));
        assert(view_stiles(b)[k] == view_stile(b[k]));
        assert(view_stile(a[k]) == view_stile(b[k]));
        assert(a[k].0 == b[k].0 && a[k].1 == b[k].1 && a[k].2 == b[k].2);
    }
    assert(a =~= b);
}

/// Mapping two multiset-equal sequences gives multiset-equal images.
pub(crate) proof fn lemma_map_values_multiset<A, B>(a: Seq<A>, b: Seq<A>, f: spec_fn(A) -> B)
    requires
        a.to_multiset() == b.to_multiset(),
    ensures
        a.map_values(f).to_multiset() == b.map_values(f).to_multiset(),
    decreases a.len(),
{
    broadcast use vstd::seq_lib::group_to_multiset_ensures;

    if a.len() == 0 {
        assert(b.to_multiset().len() == 0);
        assert(b.len() == 0);
        assert(a.map_values(f) =~= b.map_values(f));
    } else {
        assert(a.to_multiset().count(a[0]) > 0);
        assert(b.contains(a[0]));
        let k = choose|k: int| 0 <= k < b.len() && b[k] == a[0];
        assert(a.remove(0).to_multiset() =~= a.to_multiset().remove(a[0]));
        assert(b.remove(k).to_multiset() =~= b.to_multiset().remove(b[k]));
        assert(a.remove(0) =~= a.drop_first());
        lemma_map_values_multiset(a.drop_first(), b.remove(k), f);
        assert(a.map_values(f).remove(0) =~= a.drop_first().map_values(f));
        assert(b.map_values(f).remove(k) =~= b.remove(k).map_values(f));
        assert(a.map_values(f).remove(0).to_multiset() =~= a.map_values(f).to_multiset().remove(
            a.map_values(f)[0],
        ));
        assert(b.map_values(f).remove(k).to_multiset() =~= b.map_values(f).to_multiset().remove(
            b.map_values(f)[k],
        ));
        assert(a.map_values(f)[0] == f(a[0]));
        assert(b.map_values(f)[k] == f(a[0]));
        let x = f(a[0]);
        let ma = a.map_values(f).to_multiset();
        let mb = b.map_values(f).to_multiset();
        assert(ma.remove(x) == mb.remove(x));
        assert(a.map_values(f).contains(x));
        assert(b.map_values(f).contains(x));
        assert(ma.count(x) > 0);
        assert(mb.count(x) > 0);
        assert(ma =~= ma.remove(x).insert(x));
        assert(mb =~= mb.remove(x).insert(x));
        assert(ma =~= mb);
    }
}

/// Compare two encoded-tile vectors entry by entry.
fn stiles_equal(a: &Vec<STile>, b: &Vec<STile>) -> (r: bool)
    ensures
        r == (a@ == b@),
{
    if a.len() != b.len() {
        return false;
    }
    let mut i: usize = 0;
    while i < a.len()
        invariant
            i <= a@.len(),
            a@.len() == b@.len(),
            forall|k: int| 0 <= k < i ==> a@[k] == b@[k],
        decreases a@.len() - i,
    {
        let x = a[i];
        let y = b[i];
        if x.0 != y.0 || x.1 != y.1 || x.2 != y.2 {
            proof {
                assert(a@[i as int] != b@[i as int]);
            }
            return false;
        }
        i = i + 1;
    }
    proof {
        assert(a@ =~= b@);
    }
    true
}

/// The executable shift result: the resting layout, the score the move
/// gained, and whether anything moved or merged.
pub struct ShiftResult {
    pub tiles: Vec<Tile>,
    pub score_delta: u64,
    pub changed: bool,
}

/// Shift the whole tile set in the given direction: sort the tiles into
/// scan order through the outside sort, run the scan, and decode the
/// resting layout back into cells.
pub fn shift_tiles(tiles: &Vec<Tile>, dir: Direction, size: u8) -> (r: ShiftResult)
    requires
        size >= 1,
        tiles_in_bounds(tiles@, size as int),
        tiles_distinct(tiles@),
        levels_positive(tiles@),
        levels_at_most(tiles@, MAX_LEVEL as int),
    ensures
        r.tiles@ == shift_placement(tiles@, dir, size as int),
        r.score_delta as int == shift_out(tiles@, dir, size as int).score,
        r.changed == shift_changed(tiles@, dir, size as int),
        tiles_in_bounds(r.tiles@, size as int),
        levels_positive(r.tiles@),
        levels_at_most(r.tiles@, MAX_LEVEL as int + 1),
        !r.changed ==> r.tiles@.to_multiset() == tiles@.to_multiset(),
{
    broadcast use vstd::seq_lib::group_to_multiset_ensures;

    let ghost encs = tiles@.map_values(|t: Tile| encode_spec(dir, size as int, t));
    let enc = encode_tiles(tiles, dir, size);
    let sorted = sort_stiles(enc);
    proof {
        lemma_encode_keys_unique(tiles@, dir, size as int);
        lemma_sort_deterministic(encs, sorted@);
        lemma_perm_keys_unique(encs, sorted@);
        lemma_sorted_strict(sorted@);
        lemma_tile_count_bound(tiles@, size as int);
        assert((size as int) * (size as int) <= 0x10000) by (nonlinear_arith)
            requires
                0 <= size as int <= 256,
        {}
        assert(sorted@.to_multiset().len() == encs.to_multiset().len());
        assert(sorted@.len() == encs.len());
        assert forall|k: int| 0 <= k < sorted@.len() implies (#[trigger] sorted@[k]).0 < size
            && sorted@[k].1 < size && 1 <= sorted@[k].2 <= MAX_LEVEL by {
            assert(sorted@.contains(sorted@[k]));
            assert(sorted@.to_multiset().count(sorted@[k]) > 0);
            assert(encs.contains(sorted@[k]));
            let j = choose|j: int| 0 <= j < encs.len() && encs[j] == sorted@[k];
            assert(encs[j] == encode_spec(dir, size as int, tiles@[j]));
            assert(pos_in_bounds(tiles@[j].0, size as int));
        }
    }
    let (placed, score) = scan_tiles(&sorted, size);
    let changed = !stiles_equal(&sorted, &placed);
    let new_tiles = decode_tiles(&placed, dir, size);
    proof {
        let gsize = size as int;
        let ghost spec_out = shift_out(tiles@, dir, gsize);
        // the decoded layout is the specified placement
        assert(view_stiles(placed@) == strip(spec_out.placed));
        assert(new_tiles@ =~= shift_placement(tiles@, dir, gsize)) by {
            assert(new_tiles@.len() == placed@.len());
            assert(strip(spec_out.placed).len() == spec_out.placed.len());
            assert forall|k: int| 0 <= k < new_tiles@.len() implies new_tiles@[k]
                == shift_placement(tiles@, dir, gsize)[k] by {
                assert(view_stiles(placed@)[k] == strip(spec_out.placed)[k]);
                assert(view_stile(placed@[k]) == LTile {
                    line: spec_out.placed[k].line,
                    slide: spec_out.placed[k].slide,
                    level: spec_out.placed[k].level,
                });
                assert(new_tiles@[k] == decode_spec(dir, gsize, placed@[k]));
            }
        }
        // the change flag matches the specification
        if placed@ == sorted@ {
            assert(!shift_changed(tiles@, dir, gsize));
        } else {
            assert(view_stiles(placed@) != view_stiles(sorted@)) by {
                if view_stiles(placed@) == view_stiles(sorted@) {
                    lemma_view_stiles_injective(placed@, sorted@);
                }
            }
            assert(shift_changed(tiles@, dir, gsize));
        }
        // an unchanged board keeps its tiles
        if !changed {
            let dec = |t: STile| decode_spec(dir, gsize, t);
            lemma_map_values_multiset(sorted@, encs, dec);
            assert(new_tiles@ =~= sorted@.map_values(dec));
            assert(encs.map_values(dec) =~= tiles@) by {
                assert forall|k: int| 0 <= k < tiles@.len() implies encs.map_values(dec)[k]
                    == tiles@[k] by {
                    lemma_decode_encode(dir, gsize, tiles@[k]);
                }
            }
        }
        // bounds and levels of the decoded layout
        assert forall|k: int| 0 <= k < new_tiles@.len() implies pos_in_bounds(
            (#[trigger] new_tiles@[k]).0,
            gsize,
        ) && 1 <= new_tiles@[k].1.level <= MAX_LEVEL + 1 by {
            assert(new_tiles@[k] == decode_spec(dir, gsize, placed@[k]));
            assert(placed@[k].0 < size && placed@[k].1 < size);
            assert(1 <= placed@[k].2 <= MAX_LEVEL + 1);
        }
    }
    ShiftResult { tiles: new_tiles, score_delta: score, changed }
}

} // verus!
