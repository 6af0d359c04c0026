//! The laws the shift engine obeys, stated over its mathematical model
//! and proved once and for all: no two tiles rest on one cell, merges
//! conserve the value mass and account one-to-one for the tiles read,
//! levels rise only on a merge and only by one, and a settled board is
//! left exactly as it stands.

use crate::components::{pos_in_bounds, tiles_distinct, tiles_in_bounds, Direction, Tile};
use crate::shift::{
    decode_spec, do_shift, encode_spec, lemma_decode_encode, lemma_encode_keys_unique,
    lemma_map_values_multiset, lemma_perm_keys_unique, lemma_sorted_strict, lemma_stile_le_total,
    merge_count, pos_of, scan_order, shift_changed, shift_out, shift_placement, sorted_stiles,
    stile_leq, strip, view_stile, view_stiles, LTile, Placed, STile,
};
use vstd::arithmetic::power2::{lemma_pow2_unfold, pow2};
use vstd::prelude::*;

verus! {

// ------------------------------------------------------------------
// Orders and bounds over the model
// ------------------------------------------------------------------

/// `(line, slide)` pairs strictly grow along the scan order.
pub open spec fn scan_sorted(s: Seq<LTile>) -> bool {
    forall|i: int, j: int|
        #![trigger s[i], s[j]]
        0 <= i < j < s.len() ==> (s[i].line < s[j].line || (s[i].line == s[j].line && s[i].slide
            < s[j].slide))
}

/// Lines and slides lie inside the grid.
pub open spec fn scan_bounds(s: Seq<LTile>, size: int) -> bool {
    forall|i: int|
        0 <= i < s.len() ==> 0 <= (#[trigger] s[i]).line < size && 0 <= s[i].slide < size
}

/// Resting places strictly grow along the placement.
pub open spec fn placed_sorted(p: Seq<Placed>) -> bool {
    forall|i: int, j: int|
        #![trigger p[i], p[j]]
        0 <= i < j < p.len() ==> (p[i].line < p[j].line || (p[i].line == p[j].line && p[i].slide
            < p[j].slide))
}

/// Resting places lie inside the grid.
pub open spec fn placed_bounds(p: Seq<Placed>, size: int) -> bool {
    forall|i: int|
        0 <= i < p.len() ==> 0 <= (#[trigger] p[i]).line < size && 0 <= p[i].slide < size
}

// ------------------------------------------------------------------
// Distinct resting places
// ------------------------------------------------------------------

/// The scan rests its tiles on strictly growing `(line, slide)` pairs
/// inside the grid, so no two tiles share a cell; the first resting
/// record keeps the head tile's line and sits exactly at the running
/// coordinate.
pub proof fn lemma_scan_places_distinct(s: Seq<LTile>, c: int, size: int)
    requires
        scan_sorted(s),
        scan_bounds(s, size),
        0 <= c,
        s.len() > 0 ==> c <= s[0].slide,
    ensures
        placed_sorted(do_shift(s, c).placed),
        placed_bounds(do_shift(s, c).placed, size),
        do_shift(s, c).placed.len() > 0 <==> s.len() > 0,
        s.len() > 0 ==> do_shift(s, c).placed[0].line == s[0].line && do_shift(
            s,
            c,
        ).placed[0].slide == c,
    decreases s.len(),
{
    let out = do_shift(s, c);
    if s.len() == 0 {
    } else if s.len() == 1 {
    } else if s[0].line != s[1].line {
        let t = s.drop_first();
        assert forall|i: int, j: int|
            #![trigger t[i], t[j]]
            0 <= i < j < t.len() implies (t[i].line < t[j].line || (t[i].line == t[j].line
            && t[i].slide < t[j].slide)) by {
            assert(t[i] == s[i + 1]);
            assert(t[j] == s[j + 1]);
        }
        assert forall|i: int| 0 <= i < t.len() implies 0 <= (#[trigger] t[i]).line < size && 0
            <= t[i].slide < size by {
            assert(t[i] == s[i + 1]);
        }
        lemma_scan_places_distinct(t, 0, size);
        let rest = do_shift(t, 0).placed;
        assert(out.placed == seq![crate::shift::rest_at(s[0], c, false)] + rest);
        assert forall|i: int, j: int|
            #![trigger out.placed[i], out.placed[j]]
            0 <= i < j < out.placed.len() implies (out.placed[i].line < out.placed[j].line || (
        out.placed[i].line == out.placed[j].line && out.placed[i].slide
            < out.placed[j].slide)) by {
            if i > 0 {
                assert(out.placed[i] == rest[i - 1]);
                assert(out.placed[j] == rest[j - 1]);
            } else {
                assert(out.placed[j] == rest[j - 1]);
                assert(rest[0].line == t[0].line);
                if j - 1 > 0 {
                    assert((rest[0].line < rest[j - 1].line || (rest[0].line == rest[j - 1].line
                        && rest[0].slide < rest[j - 1].slide)));
                }
                assert(s[0].line < t[0].line);
            }
        }
    } else if s[0].level != s[1].level {
        let t = s.drop_first();
        assert forall|i: int, j: int|
            #![trigger t[i], t[j]]
            0 <= i < j < t.len() implies (t[i].line < t[j].line || (t[i].line == t[j].line
            && t[i].slide < t[j].slide)) by {
            assert(t[i] == s[i + 1]);
            assert(t[j] == s[j + 1]);
        }
        assert forall|i: int| 0 <= i < t.len() implies 0 <= (#[trigger] t[i]).line < size && 0
            <= t[i].slide < size by {
            assert(t[i] == s[i + 1]);
        }
        assert(c + 1 <= t[0].slide);
        lemma_scan_places_distinct(t, c + 1, size);
        let rest = do_shift(t, c + 1).placed;
        assert(out.placed == seq![crate::shift::rest_at(s[0], c, false)] + rest);
        assert forall|i: int, j: int|
            #![trigger out.placed[i], out.placed[j]]
            0 <= i < j < out.placed.len() implies (out.placed[i].line < out.placed[j].line || (
        out.placed[i].line == out.placed[j].line && out.placed[i].slide
            < out.placed[j].slide)) by {
            if i > 0 {
                assert(out.placed[i] == rest[i - 1]);
                assert(out.placed[j] == rest[j - 1]);
            } else {
                assert(out.placed[j] == rest[j - 1]);
                assert(rest[0].line == t[0].line && rest[0].slide == c + 1);
                if j - 1 > 0 {
                    assert((rest[0].line < rest[j - 1].line || (rest[0].line == rest[j - 1].line
                        && rest[0].slide < rest[j - 1].slide)));
                }
            }
        }
    } else {
        let t = s.subrange(2, s.len() as int);
        assert forall|i: int, j: int|
            #![trigger t[i], t[j]]
            0 <= i < j < t.len() implies (t[i].line < t[j].line || (t[i].line == t[j].line
            && t[i].slide < t[j].slide)) by {
            assert(t[i] == s[i + 2]);
            assert(t[j] == s[j + 2]);
        }
        assert forall|i: int| 0 <= i < t.len() implies 0 <= (#[trigger] t[i]).line < size && 0
            <= t[i].slide < size by {
            assert(t[i] == s[i + 2]);
        }
        let c2: int = if t.len() > 0 && t[0].line == s[0].line {
            c + 1
        } else {
            0
        };
        if t.len() > 0 {
            assert(t[0] == s[2]);
            if t[0].line == s[0].line {
                assert(s[1].slide < s[2].slide);
                assert(c2 <= t[0].slide);
            }
        }
        lemma_scan_places_distinct(t, c2, size);
        let rest = do_shift(t, c2).placed;
        assert(out.placed == seq![crate::shift::rest_at(s[0], c, true)] + rest);
        assert forall|i: int, j: int|
            #![trigger out.placed[i], out.placed[j]]
            0 <= i < j < out.placed.len() implies (out.placed[i].line < out.placed[j].line || (
        out.placed[i].line == out.placed[j].line && out.placed[i].slide
            < out.placed[j].slide)) by {
            if i > 0 {
                assert(out.placed[i] == rest[i - 1]);
                assert(out.placed[j] == rest[j - 1]);
            } else {
                assert(out.placed[j] == rest[j - 1]);
                assert(rest[0].line == t[0].line && rest[0].slide == c2);
                if j - 1 > 0 {
                    assert((rest[0].line < rest[j - 1].line || (rest[0].line == rest[j - 1].line
                        && rest[0].slide < rest[j - 1].slide)));
                }
                if t[0].line != s[0].line {
                    assert(s[0].line < t[0].line);
                }
            }
        }
    }
}

// ------------------------------------------------------------------
// Counting: merges and resting tiles
// ------------------------------------------------------------------

/// A scan with `m` merges rests exactly `m` tiles fewer than it read.
pub proof fn lemma_scan_count(s: Seq<LTile>, c: int)
    ensures
        0 <= merge_count(do_shift(s, c).placed),
        do_shift(s, c).placed.len() + merge_count(do_shift(s, c).placed) == s.len(),
    decreases s.len(),
{
    let out = do_shift(s, c);
    if s.len() == 0 {
    } else if s.len() == 1 {
        assert(out.placed.drop_first() =~= Seq::<Placed>::empty());
        assert(merge_count(out.placed) == (if out.placed[0].merged {
            1int
        } else {
            0int
        }) + merge_count(out.placed.drop_first()));
    } else if s[0].line != s[1].line {
        lemma_scan_count(s.drop_first(), 0);
        assert(out.placed.drop_first() =~= do_shift(s.drop_first(), 0).placed);
        assert(merge_count(out.placed) == (if out.placed[0].merged {
            1int
        } else {
            0int
        }) + merge_count(out.placed.drop_first()));
    } else if s[0].level != s[1].level {
        lemma_scan_count(s.drop_first(), c + 1);
        assert(out.placed.drop_first() =~= do_shift(s.drop_first(), c + 1).placed);
        assert(merge_count(out.placed) == (if out.placed[0].merged {
            1int
        } else {
            0int
        }) + merge_count(out.placed.drop_first()));
    } else {
        let t = s.subrange(2, s.len() as int);
        let c2: int = if t.len() > 0 && t[0].line == s[0].line {
            c + 1
        } else {
            0
        };
        lemma_scan_count(t, c2);
        assert(out.placed.drop_first() =~= do_shift(t, c2).placed);
        assert(merge_count(out.placed) == (if out.placed[0].merged {
            1int
        } else {
            0int
        }) + merge_count(out.placed.drop_first()));
    }
}

// ------------------------------------------------------------------
// Mass and score
// ------------------------------------------------------------------

/// The total value mass of a sequence of levels: the sum of `2^level`.
pub open spec fn levels_mass(ls: Seq<int>) -> int
    decreases ls.len(),
{
    if ls.len() == 0 {
        0
    } else {
        pow2(ls[0] as nat) + levels_mass(ls.drop_first())
    }
}

/// The levels the scan reads, in scan order.
pub open spec fn scan_levels(s: Seq<LTile>) -> Seq<int> {
    s.map_values(|t: LTile| t.level)
}

/// The levels at rest, in placement order.
pub open spec fn placed_levels(p: Seq<Placed>) -> Seq<int> {
    p.map_values(|q: Placed| q.level)
}

/// The score a scan earns: `2^level` for each tile that absorbed another.
pub open spec fn merged_gain(p: Seq<Placed>) -> int
    decreases p.len(),
{
    if p.len() == 0 {
        0
    } else {
        (if p[0].merged {
            pow2(p[0].level as nat) as int
        } else {
            0int
        }) + merged_gain(p.drop_first())
    }
}

/// Prepending one level adds its value to the mass.
proof fn lemma_levels_mass_prepend(x: int, ls: Seq<int>)
    ensures
        levels_mass(seq![x] + ls) == pow2(x as nat) + levels_mass(ls),
{
    assert((seq![x] + ls)[0] == x);
    assert((seq![x] + ls).drop_first() =~= ls);
}

/// A scan conserves the total value mass — two merged tiles weigh
/// together exactly as much as the one tile a level higher they become —
/// and its score is exactly the merged tiles' gain.
pub proof fn lemma_scan_mass_score(s: Seq<LTile>, c: int)
    requires
        forall|i: int| 0 <= i < s.len() ==> (#[trigger] s[i]).level >= 0,
    ensures
        levels_mass(placed_levels(do_shift(s, c).placed)) == levels_mass(scan_levels(s)),
        do_shift(s, c).score == merged_gain(do_shift(s, c).placed),
    decreases s.len(),
{
    let out = do_shift(s, c);
    if s.len() == 0 {
        assert(placed_levels(out.placed) =~= Seq::<int>::empty());
        assert(scan_levels(s) =~= Seq::<int>::empty());
    } else if s.len() == 1 {
        assert(placed_levels(out.placed) =~= seq![s[0].level] + Seq::<int>::empty());
        assert(scan_levels(s) =~= seq![s[0].level] + Seq::<int>::empty());
        lemma_levels_mass_prepend(s[0].level, Seq::<int>::empty());
        assert(merged_gain(out.placed) == (if out.placed[0].merged {
            pow2(out.placed[0].level as nat) as int
        } else {
            0int
        }) + merged_gain(out.placed.drop_first()));
        assert(out.placed.drop_first() =~= Seq::<Placed>::empty());
    } else if s[0].line != s[1].line || s[0].level != s[1].level {
        let t = s.drop_first();
        let c2: int = if s[0].line != s[1].line {
            0
        } else {
            c + 1
        };
        assert forall|i: int| 0 <= i < t.len() implies (#[trigger] t[i]).level >= 0 by {
            assert(t[i] == s[i + 1]);
        }
        lemma_scan_mass_score(t, c2);
        let rest = do_shift(t, c2).placed;
        assert(placed_levels(out.placed) =~= seq![s[0].level] + placed_levels(rest));
        assert(scan_levels(s) =~= seq![s[0].level] + scan_levels(t));
        lemma_levels_mass_prepend(s[0].level, placed_levels(rest));
        lemma_levels_mass_prepend(s[0].level, scan_levels(t));
        assert(out.placed.drop_first() =~= rest);
        assert(merged_gain(out.placed) == (if out.placed[0].merged {
            pow2(out.placed[0].level as nat) as int
        } else {
            0int
        }) + merged_gain(out.placed.drop_first()));
    } else {
        let t = s.subrange(2, s.len() as int);
        let c2: int = if t.len() > 0 && t[0].line == s[0].line {
            c + 1
        } else {
            0
        };
        assert forall|i: int| 0 <= i < t.len() implies (#[trigger] t[i]).level >= 0 by {
            assert(t[i] == s[i + 2]);
        }
        lemma_scan_mass_score(t, c2);
        let rest = do_shift(t, c2).placed;
        assert(placed_levels(out.placed) =~= seq![s[0].level + 1] + placed_levels(rest));
        assert(scan_levels(s) =~= seq![s[0].level] + (seq![s[1].level] + scan_levels(t)));
        lemma_levels_mass_prepend(s[0].level + 1, placed_levels(rest));
        lemma_levels_mass_prepend(s[0].level, seq![s[1].level] + scan_levels(t));
        lemma_levels_mass_prepend(s[1].level, scan_levels(t));
        lemma_pow2_unfold((s[0].level + 1) as nat);
        assert(out.placed.drop_first() =~= rest);
        assert(merged_gain(out.placed) == (if out.placed[0].merged {
            pow2(out.placed[0].level as nat) as int
        } else {
            0int
        }) + merged_gain(out.placed.drop_first()));
    }
}

/// The merge count is never negative.
pub proof fn lemma_merge_count_nonneg(p: Seq<Placed>)
    ensures
        merge_count(p) >= 0,
    decreases p.len(),
{
    if p.len() > 0 {
        lemma_merge_count_nonneg(p.drop_first());
    }
}

/// Without a merge there is no gain.
pub proof fn lemma_no_merge_no_gain(p: Seq<Placed>)
    requires
        merge_count(p) == 0,
    ensures
        merged_gain(p) == 0,
    decreases p.len(),
{
    if p.len() > 0 {
        lemma_merge_count_nonneg(p.drop_first());
        assert(!p[0].merged);
        lemma_no_merge_no_gain(p.drop_first());
    }
}

// ------------------------------------------------------------------
// Provenance: where each resting tile came from
// ------------------------------------------------------------------

/// Each resting tile's ancestry: an unmerged tile contributes the one
/// level it kept, a merged tile the two equal levels it rose from.
pub open spec fn source_levels(p: Seq<Placed>) -> Seq<int>
    decreases p.len(),
{
    if p.len() == 0 {
        Seq::empty()
    } else {
        (if p[0].merged {
            seq![p[0].level - 1, p[0].level - 1]
        } else {
            seq![p[0].level]
        }) + source_levels(p.drop_first())
    }
}

/// A tile's level rises only on a merge, and then by exactly one, and no
/// tile absorbs twice: the sources of the resting tiles account for
/// every level the scan read — one level kept for an unmerged tile, two
/// equal levels one below the new one for a merged tile, never a third.
pub proof fn lemma_scan_provenance(s: Seq<LTile>, c: int)
    ensures
        source_levels(do_shift(s, c).placed).to_multiset() == scan_levels(s).to_multiset(),
    decreases s.len(),
{
    broadcast use vstd::seq_lib::group_to_multiset_ensures;

    let out = do_shift(s, c);
    if s.len() == 0 {
        assert(source_levels(out.placed) =~= Seq::<int>::empty());
        assert(scan_levels(s) =~= Seq::<int>::empty());
    } else if s.len() == 1 {
        assert(out.placed.drop_first() =~= Seq::<Placed>::empty());
        assert(source_levels(Seq::<Placed>::empty()) =~= Seq::<int>::empty());
        assert(source_levels(out.placed) == seq![out.placed[0].level] + source_levels(
            out.placed.drop_first(),
        ));
        assert(source_levels(out.placed) =~= seq![s[0].level]);
        assert(scan_levels(s) =~= seq![s[0].level]);
    } else if s[0].line != s[1].line || s[0].level != s[1].level {
        let t = s.drop_first();
        let c2: int = if s[0].line != s[1].line {
            0
        } else {
            c + 1
        };
        lemma_scan_provenance(t, c2);
        let rest = do_shift(t, c2).placed;
        assert(out.placed.drop_first() =~= rest);
        assert(source_levels(out.placed) == seq![s[0].level] + source_levels(rest));
        assert(scan_levels(s) =~= seq![s[0].level] + scan_levels(t));
        vstd::seq_lib::lemma_multiset_commutative(seq![s[0].level], source_levels(rest));
        vstd::seq_lib::lemma_multiset_commutative(seq![s[0].level], scan_levels(t));
        assert(source_levels(out.placed).to_multiset() =~= scan_levels(s).to_multiset());
    } else {
        let t = s.subrange(2, s.len() as int);
        let c2: int = if t.len() > 0 && t[0].line == s[0].line {
            c + 1
        } else {
            0
        };
        lemma_scan_provenance(t, c2);
        let rest = do_shift(t, c2).placed;
        assert(out.placed.drop_first() =~= rest);
        assert(out.placed[0].level - 1 == s[0].level);
        assert(source_levels(out.placed) == seq![s[0].level, s[0].level] + source_levels(rest));
        assert(scan_levels(s) =~= seq![s[0].level, s[0].level] + scan_levels(t));
        vstd::seq_lib::lemma_multiset_commutative(
            seq![s[0].level, s[0].level],
            source_levels(rest),
        );
        vstd::seq_lib::lemma_multiset_commutative(seq![s[0].level, s[0].level], scan_levels(t));
        assert(source_levels(out.placed).to_multiset() =~= scan_levels(s).to_multiset());
    }
}

// ------------------------------------------------------------------
// A settled board
// ------------------------------------------------------------------

/// A tile set at rest for its direction, seen from running coordinate
/// `c`: the head tile of the current run sits exactly at the coordinate,
/// its followers pack the next cells one by one, each new line starts
/// packed against the wall, and no two neighbours of a line share a
/// level — no tile can move or merge.
pub open spec fn settled(s: Seq<LTile>, c: int) -> bool
    decreases s.len(),
{
    if s.len() == 0 {
        true
    } else if s.len() == 1 {
        s[0].slide == c
    } else {
        s[0].slide == c && (if s[1].line == s[0].line {
            s[1].level != s[0].level && settled(s.drop_first(), c + 1)
        } else {
            settled(s.drop_first(), 0)
        })
    }
}

/// A scan over a settled tile set puts every tile back where it stood,
/// merges nothing, and scores nothing.
pub proof fn lemma_settled_scan_identity(s: Seq<LTile>, c: int)
    requires
        settled(s, c),
    ensures
        strip(do_shift(s, c).placed) == s,
        do_shift(s, c).score == 0,
        merge_count(do_shift(s, c).placed) == 0,
    decreases s.len(),
{
    let out = do_shift(s, c);
    if s.len() == 0 {
        assert(strip(out.placed) =~= s);
    } else if s.len() == 1 {
        assert(out.placed.drop_first() =~= Seq::<Placed>::empty());
        assert(merge_count(Seq::<Placed>::empty()) == 0);
        assert(merge_count(out.placed) == (if out.placed[0].merged {
            1int
        } else {
            0int
        }) + merge_count(out.placed.drop_first()));
        assert(strip(out.placed) =~= s);
    } else {
        let t = s.drop_first();
        let c2: int = if s[0].line != s[1].line {
            0
        } else {
            c + 1
        };
        lemma_settled_scan_identity(t, c2);
        let rest = do_shift(t, c2).placed;
        assert(out.placed.drop_first() =~= rest);
        assert(merge_count(out.placed) == (if out.placed[0].merged {
            1int
        } else {
            0int
        }) + merge_count(out.placed.drop_first()));
        assert(strip(out.placed) =~= s) by {
            assert(strip(out.placed).len() == 1 + strip(rest).len());
            assert forall|k: int| 0 <= k < strip(out.placed).len() implies strip(out.placed)[k]
                == s[k] by {
                if k == 0 {
                    assert(strip(out.placed)[0] == LTile {
                        line: s[0].line,
                        slide: c,
                        level: s[0].level,
                    });
                } else {
                    assert(strip(out.placed)[k] == strip(rest)[k - 1]);
                    assert(strip(rest)[k - 1] == t[k - 1]);
                }
            }
        }
    }
}

// ------------------------------------------------------------------
// The laws carried up to tile sets
// ------------------------------------------------------------------

/// The levels of a tile set.
pub open spec fn tile_levels(tiles: Seq<Tile>) -> Seq<int> {
    tiles.map_values(|t: Tile| t.1.level as int)
}

/// The scan order of a tile set on distinct cells is strictly sorted,
/// stays inside the grid, and reads exactly the set's levels.
pub proof fn lemma_scan_order_wf(tiles: Seq<Tile>, dir: Direction, size: int)
    requires
        1 <= size <= 256,
        tiles_in_bounds(tiles, size),
        tiles_distinct(tiles),
    ensures
        scan_sorted(view_stiles(scan_order(tiles, dir, size))),
        scan_bounds(view_stiles(scan_order(tiles, dir, size)), size),
        scan_order(tiles, dir, size).len() == tiles.len(),
        forall|i: int|
            0 <= i < tiles.len() ==> (#[trigger] view_stiles(scan_order(tiles, dir, size))[i]).level
                >= 0,
        scan_levels(view_stiles(scan_order(tiles, dir, size))).to_multiset() == tile_levels(
            tiles,
        ).to_multiset(),
{
    broadcast use vstd::seq_lib::group_to_multiset_ensures;

    let encs = tiles.map_values(|t: Tile| encode_spec(dir, size, t));
    let so = scan_order(tiles, dir, size);
    lemma_stile_le_total();
    encs.lemma_sort_by_ensures(stile_leq());
    assert(so == sorted_stiles(encs));
    assert(so.to_multiset() =~= encs.to_multiset());
    lemma_encode_keys_unique(tiles, dir, size);
    lemma_perm_keys_unique(encs, so);
    lemma_sorted_strict(so);
    assert(so.to_multiset().len() == encs.to_multiset().len());
    let sv = view_stiles(so);
    assert forall|k: int| 0 <= k < so.len() implies (#[trigger] so[k]).0 < size && so[k].1
        < size by {
        assert(so.contains(so[k]));
        assert(so.to_multiset().count(so[k]) > 0);
        assert(encs.contains(so[k]));
        let j = choose|j: int| 0 <= j < encs.len() && encs[j] == so[k];
        assert(encs[j] == encode_spec(dir, size, tiles[j]));
        assert(pos_in_bounds(tiles[j].0, size));
        lemma_decode_encode(dir, size, tiles[j]);
    }
    assert forall|i: int, j: int|
        #![trigger sv[i], sv[j]]
        0 <= i < j < sv.len() implies (sv[i].line < sv[j].line || (sv[i].line == sv[j].line
        && sv[i].slide < sv[j].slide)) by {
        assert(crate::shift::key_lt(so[i], so[j]));
        assert(sv[i] == view_stile(so[i]));
        assert(sv[j] == view_stile(so[j]));
    }
    assert forall|i: int| 0 <= i < sv.len() implies 0 <= (#[trigger] sv[i]).line < size && 0
        <= sv[i].slide < size by {
        assert(sv[i] == view_stile(so[i]));
        assert(so[i].0 < size && so[i].1 < size);
    }
    let lvl_of = |st: STile| st.2 as int;
    lemma_map_values_multiset(so, encs, lvl_of);
    assert(scan_levels(sv) =~= so.map_values(lvl_of));
    assert(encs.map_values(lvl_of) =~= tile_levels(tiles));
}

/// Two distinct move-relative coordinate pairs never decode to one cell.
proof fn lemma_pos_of_injective(dir: Direction, size: int, l1: int, s1: int, l2: int, s2: int)
    requires
        1 <= size <= 256,
        0 <= l1 < size,
        0 <= s1 < size,
        0 <= l2 < size,
        0 <= s2 < size,
        pos_of(dir, size, l1, s1) == pos_of(dir, size, l2, s2),
    ensures
        l1 == l2 && s1 == s2,
{
}

/// After any move every occupied cell holds at most one tile, and every
/// tile still lies inside the grid.
pub proof fn lemma_no_duplicate_positions(tiles: Seq<Tile>, dir: Direction, size: int)
    requires
        1 <= size <= 256,
        tiles_in_bounds(tiles, size),
        tiles_distinct(tiles),
    ensures
        tiles_distinct(shift_placement(tiles, dir, size)),
        tiles_in_bounds(shift_placement(tiles, dir, size), size),
{
    lemma_scan_order_wf(tiles, dir, size);
    let sv = view_stiles(scan_order(tiles, dir, size));
    lemma_scan_places_distinct(sv, 0, size);
    let placed = shift_out(tiles, dir, size).placed;
    let sp = shift_placement(tiles, dir, size);
    assert forall|i: int, j: int|
        #![trigger sp[i], sp[j]]
        0 <= i < j < sp.len() implies sp[i].0 != sp[j].0 by {
        assert(placed[i].line < placed[j].line || (placed[i].line == placed[j].line
            && placed[i].slide < placed[j].slide));
        assert(0 <= placed[i].line < size && 0 <= placed[i].slide < size);
        assert(0 <= placed[j].line < size && 0 <= placed[j].slide < size);
        if sp[i].0 == sp[j].0 {
            assert(sp[i].0 == pos_of(dir, size, placed[i].line, placed[i].slide));
            assert(sp[j].0 == pos_of(dir, size, placed[j].line, placed[j].slide));
            lemma_pos_of_injective(
                dir,
                size,
                placed[i].line,
                placed[i].slide,
                placed[j].line,
                placed[j].slide,
            );
        }
    }
    assert forall|i: int| 0 <= i < sp.len() implies pos_in_bounds((#[trigger] sp[i]).0, size) by {
        assert(0 <= placed[i].line < size && 0 <= placed[i].slide < size);
        assert(sp[i].0 == pos_of(dir, size, placed[i].line, placed[i].slide));
    }
}

/// Removing one level removes exactly its value from the mass.
proof fn lemma_levels_mass_remove(ls: Seq<int>, k: int)
    requires
        0 <= k < ls.len(),
    ensures
        levels_mass(ls) == pow2(ls[k] as nat) + levels_mass(ls.remove(k)),
    decreases k,
{
    if k == 0 {
        assert(ls.remove(0) =~= ls.drop_first());
    } else {
        lemma_levels_mass_remove(ls.drop_first(), k - 1);
        assert(ls.remove(k).drop_first() =~= ls.drop_first().remove(k - 1));
        assert(ls.remove(k)[0] == ls[0]);
        assert(ls.drop_first()[k - 1] == ls[k]);
    }
}

/// Equal level multisets weigh the same.
proof fn lemma_levels_mass_perm(a: Seq<int>, b: Seq<int>)
    requires
        a.to_multiset() == b.to_multiset(),
    ensures
        levels_mass(a) == levels_mass(b),
    decreases a.len(),
{
    broadcast use vstd::seq_lib::group_to_multiset_ensures;

    if a.len() == 0 {
        assert(b.to_multiset().len() == 0);
        assert(b.len() == 0);
    } else {
        assert(a.to_multiset().count(a[0]) > 0);
        assert(b.contains(a[0]));
        let k = choose|k: int| 0 <= k < b.len() && b[k] == a[0];
        assert(a.remove(0).to_multiset() =~= a.to_multiset().remove(a[0]));
        assert(b.remove(k).to_multiset() =~= b.to_multiset().remove(b[k]));
        assert(a.remove(0) =~= a.drop_first());
        lemma_levels_mass_perm(a.drop_first(), b.remove(k));
        lemma_levels_mass_remove(b, k);
    }
}

/// Mass conservation with merges: a move with `m` merges rests exactly
/// `m` tiles fewer than it read, its score is exactly the merged tiles'
/// gain — `2^level` over the new levels — and the total value mass
/// `sum of 2^level` of the board is unchanged.
pub proof fn lemma_mass_conservation(tiles: Seq<Tile>, dir: Direction, size: int)
    requires
        1 <= size <= 256,
        tiles_in_bounds(tiles, size),
        tiles_distinct(tiles),
    ensures
        shift_out(tiles, dir, size).placed.len() + merge_count(shift_out(tiles, dir, size).placed)
            == tiles.len(),
        levels_mass(placed_levels(shift_out(tiles, dir, size).placed)) == levels_mass(
            tile_levels(tiles),
        ),
        shift_out(tiles, dir, size).score == merged_gain(shift_out(tiles, dir, size).placed),
    decreases tiles.len(),
{
    lemma_scan_order_wf(tiles, dir, size);
    let sv = view_stiles(scan_order(tiles, dir, size));
    lemma_scan_count(sv, 0);
    lemma_scan_mass_score(sv, 0);
    lemma_levels_mass_perm(scan_levels(sv), tile_levels(tiles));
}

/// Monotonic level on merge, and no second merge: the sources of the
/// resting tiles account one-to-one for the levels the move read — an
/// unmerged tile keeps its level, a merged tile rose exactly one level
/// above the two equal levels it absorbed, and never absorbs a third.
pub proof fn lemma_merge_provenance(tiles: Seq<Tile>, dir: Direction, size: int)
    requires
        1 <= size <= 256,
        tiles_in_bounds(tiles, size),
        tiles_distinct(tiles),
    ensures
        source_levels(shift_out(tiles, dir, size).placed).to_multiset() == tile_levels(
            tiles,
        ).to_multiset(),
{
    lemma_scan_order_wf(tiles, dir, size);
    lemma_scan_provenance(view_stiles(scan_order(tiles, dir, size)), 0);
}

/// A move that changes nothing merges nothing and scores nothing.
pub proof fn lemma_unchanged_no_score(tiles: Seq<Tile>, dir: Direction, size: int)
    requires
        1 <= size <= 256,
        tiles_in_bounds(tiles, size),
        tiles_distinct(tiles),
        !shift_changed(tiles, dir, size),
    ensures
        shift_out(tiles, dir, size).score == 0,
        merge_count(shift_out(tiles, dir, size).placed) == 0,
{
    lemma_scan_order_wf(tiles, dir, size);
    let sv = view_stiles(scan_order(tiles, dir, size));
    let placed = shift_out(tiles, dir, size).placed;
    assert(strip(placed) == sv);
    assert(strip(placed).len() == placed.len());
    assert(sv.len() == tiles.len());
    lemma_scan_count(sv, 0);
    lemma_scan_mass_score(sv, 0);
    lemma_no_merge_no_gain(placed);
}

/// Idempotence of a no-op move: where no tile can move or merge — every
/// line packed against its wall, no two neighbours of a line sharing a
/// level — the move leaves the tile set unchanged, scores nothing, and
/// reports no change, so no spawn is requested.
pub proof fn lemma_noop_move(tiles: Seq<Tile>, dir: Direction, size: int)
    requires
        1 <= size <= 256,
        tiles_in_bounds(tiles, size),
        tiles_distinct(tiles),
        settled(view_stiles(scan_order(tiles, dir, size)), 0),
    ensures
        !shift_changed(tiles, dir, size),
        shift_out(tiles, dir, size).score == 0,
        shift_placement(tiles, dir, size).to_multiset() == tiles.to_multiset(),
{
    broadcast use vstd::seq_lib::group_to_multiset_ensures;

    lemma_scan_order_wf(tiles, dir, size);
    let so = scan_order(tiles, dir, size);
    let sv = view_stiles(so);
    lemma_settled_scan_identity(sv, 0);
    let placed = shift_out(tiles, dir, size).placed;
    let sp = shift_placement(tiles, dir, size);
    let dec = |st: STile| decode_spec(dir, size, st);
    assert(sp =~= so.map_values(dec)) by {
        assert(strip(placed).len() == placed.len());
        assert(sp.len() == so.len());
        assert forall|k: int| 0 <= k < sp.len() implies sp[k] == so.map_values(dec)[k] by {
            assert(strip(placed)[k] == sv[k]);
            assert(sv[k] == view_stile(so[k]));
            assert(placed[k].line == so[k].0 as int);
            assert(placed[k].slide == so[k].1 as int);
            assert(placed[k].level == so[k].2 as int);
        }
    }
    let encs = tiles.map_values(|t: Tile| encode_spec(dir, size, t));
    lemma_stile_le_total();
    encs.lemma_sort_by_ensures(stile_leq());
    lemma_map_values_multiset(so, encs, dec);
    assert(encs.map_values(dec) =~= tiles) by {
        assert forall|k: int| 0 <= k < tiles.len() implies encs.map_values(dec)[k] == tiles[k] by {
            lemma_decode_encode(dir, size, tiles[k]);
        }
    }
}

} // verus!
