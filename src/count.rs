//! Counting tiles that satisfy a predicate, and how the count moves when one
//! tile changes.
use vstd::prelude::*;

use crate::board::Tile;

verus! {

/// The number of tiles of `s` for which `f` holds.
pub open spec fn count_tiles(s: Seq<Tile>, f: spec_fn(Tile) -> bool) -> nat
    decreases s.len(),
{
    if s.len() == 0 {
        0
    } else {
        count_tiles(s.drop_last(), f) + if f(s.last()) { 1nat } else { 0nat }
    }
}

pub proof fn lemma_count_le_len(s: Seq<Tile>, f: spec_fn(Tile) -> bool)
    ensures
        count_tiles(s, f) <= s.len(),
    decreases s.len(),
{
    if s.len() > 0 {
        lemma_count_le_len(s.drop_last(), f);
    }
}

/// Replacing one tile changes the count by the difference of the two tiles.
pub proof fn lemma_count_update(s: Seq<Tile>, f: spec_fn(Tile) -> bool, i: int, t: Tile)
    requires
        0 <= i < s.len(),
    ensures
        count_tiles(s.update(i, t), f) + (if f(s[i]) { 1int } else { 0int }) == count_tiles(s, f)
            + (if f(t) { 1int } else { 0int }),
    decreases s.len(),
{
    let u = s.update(i, t);
    if i == s.len() - 1 {
        assert(u.drop_last() =~= s.drop_last());
    } else {
        assert(u.drop_last() =~= s.drop_last().update(i, t));
        lemma_count_update(s.drop_last(), f, i, t);
    }
}

/// Tiles that agree on `f` everywhere give the same count.
pub proof fn lemma_count_same(s: Seq<Tile>, u: Seq<Tile>, f: spec_fn(Tile) -> bool)
    requires
        s.len() == u.len(),
        forall|i: int| 0 <= i < s.len() ==> f(s[i]) == f(u[i]),
    ensures
        count_tiles(s, f) == count_tiles(u, f),
    decreases s.len(),
{
    if s.len() > 0 {
        lemma_count_same(s.drop_last(), u.drop_last(), f);
    }
}

/// When no tile satisfies `f`, the count is zero.
pub proof fn lemma_count_none(s: Seq<Tile>, f: spec_fn(Tile) -> bool)
    requires
        forall|i: int| 0 <= i < s.len() ==> !f(s[i]),
    ensures
        count_tiles(s, f) == 0,
    decreases s.len(),
{
    if s.len() > 0 {
        lemma_count_none(s.drop_last(), f);
    }
}

} // verus!
