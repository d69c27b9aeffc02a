//! Counting over the flat cell array: how many mines, how many unopened
//! cells, and how many mines a coordinate sees among its neighbors.

use vstd::prelude::*;

use crate::cell::{Cell, CellType};
use crate::codec::unflat;
use crate::grid::is_nbr;

verus! {

/// How many of the first `upto` cells are mines.
pub open spec fn count_mines(s: Seq<Cell>, upto: int) -> int
    decreases upto,
{
    if upto <= 0 {
        0
    } else {
        count_mines(s, upto - 1) + if s[upto - 1].typ is Mine {
            1int
        } else {
            0int
        }
    }
}

/// How many of the first `upto` cells are not yet opened.
pub open spec fn count_unopened(s: Seq<Cell>, upto: int) -> int
    decreases upto,
{
    if upto <= 0 {
        0
    } else {
        count_unopened(s, upto - 1) + if s[upto - 1].opened {
            0int
        } else {
            1int
        }
    }
}

/// The flat indices of the mine cells.
pub open spec fn mine_set(s: Seq<Cell>) -> Set<int> {
    Set::new(|k: int| 0 <= k < s.len() && s[k].typ is Mine)
}

/// How many of the first `upto` flat indices hold a mine neighboring `at`.
pub open spec fn count_adj(ms: Set<int>, dims: Seq<usize>, at: Seq<usize>, upto: int) -> int
    decreases upto,
{
    if upto <= 0 {
        0
    } else {
        count_adj(ms, dims, at, upto - 1) + if ms.contains(upto - 1) && is_nbr(
            unflat(upto - 1, dims),
            at,
        ) {
            1int
        } else {
            0int
        }
    }
}

pub proof fn lemma_count_unopened_bounds(s: Seq<Cell>, upto: int)
    ensures
        0 <= count_unopened(s, upto) <= if upto >= 0 {
            upto
        } else {
            0
        },
    decreases upto,
{
    if upto > 0 {
        lemma_count_unopened_bounds(s, upto - 1);
    }
}

/// Updating one cell shifts the mine count exactly by the change at that
/// index; an update at or past `upto` leaves it unchanged.
pub proof fn lemma_count_mines_update(s: Seq<Cell>, k: int, c: Cell, upto: int)
    requires
        0 <= k < s.len(),
        upto <= s.len(),
    ensures
        k < upto ==> count_mines(s.update(k, c), upto) == count_mines(s, upto) - (
        if s[k].typ is Mine {
            1int
        } else {
            0int
        }) + (
        if c.typ is Mine {
            1int
        } else {
            0int
        }),
        k >= upto ==> count_mines(s.update(k, c), upto) == count_mines(s, upto),
    decreases upto,
{
    if upto > 0 {
        lemma_count_mines_update(s, k, c, upto - 1);
    }
}

/// Updating one cell shifts the unopened count exactly by the change at that
/// index; an update at or past `upto` leaves it unchanged.
pub proof fn lemma_count_unopened_update(s: Seq<Cell>, k: int, c: Cell, upto: int)
    requires
        0 <= k < s.len(),
        upto <= s.len(),
    ensures
        k < upto ==> count_unopened(s.update(k, c), upto) == count_unopened(s, upto) - (
        if s[k].opened {
            0int
        } else {
            1int
        }) + (
        if c.opened {
            0int
        } else {
            1int
        }),
        k >= upto ==> count_unopened(s.update(k, c), upto) == count_unopened(s, upto),
    decreases upto,
{
    if upto > 0 {
        lemma_count_unopened_update(s, k, c, upto - 1);
    }
}

/// A mine count short of the cell count leaves some cell mine-free.
pub proof fn lemma_count_mines_missing(s: Seq<Cell>, upto: int)
    requires
        count_mines(s, upto) < upto,
    ensures
        exists|k: int| 0 <= k < upto && !((#[trigger] s[k]).typ is Mine),
    decreases upto,
{
    if upto > 0 {
        if s[upto - 1].typ is Mine {
            lemma_count_mines_missing(s, upto - 1);
            let k = choose|k: int| 0 <= k < upto - 1 && !((#[trigger] s[k]).typ is Mine);
            assert(0 <= k < upto && !(s[k].typ is Mine));
        } else {
            assert(0 <= upto - 1 < upto && !(s[upto - 1].typ is Mine));
        }
    }
}

/// Two boards mined at the same indices count the same mines.
pub proof fn lemma_count_mines_agree(a: Seq<Cell>, b: Seq<Cell>, upto: int)
    requires
        forall|k: int|
            0 <= k < upto ==> ((#[trigger] a[k]).typ is Mine <==> (#[trigger] b[k]).typ is Mine),
    ensures
        count_mines(a, upto) == count_mines(b, upto),
    decreases upto,
{
    if upto > 0 {
        lemma_count_mines_agree(a, b, upto - 1);
    }
}

/// A board without mines counts zero of them.
pub proof fn lemma_count_mines_none(s: Seq<Cell>, upto: int)
    requires
        forall|k: int| 0 <= k < upto ==> !((#[trigger] s[k]).typ is Mine),
    ensures
        count_mines(s, upto) == 0,
    decreases upto,
{
    if upto > 0 {
        lemma_count_mines_none(s, upto - 1);
    }
}

/// When every cell is a mine, the mine count is the cell count.
pub proof fn lemma_count_mines_full(s: Seq<Cell>, upto: int)
    requires
        0 <= upto,
        forall|k: int| 0 <= k < upto ==> (#[trigger] s[k]).typ is Mine,
    ensures
        count_mines(s, upto) == upto,
    decreases upto,
{
    if upto > 0 {
        lemma_count_mines_full(s, upto - 1);
    }
}

/// A neighboring mine below `upto` makes the adjacency count positive.
pub proof fn lemma_count_adj_pos(ms: Set<int>, dims: Seq<usize>, at: Seq<usize>, k: int, upto: int)
    requires
        0 <= k < upto,
        ms.contains(k),
        is_nbr(unflat(k, dims), at),
    ensures
        count_adj(ms, dims, at, upto) >= 1,
    decreases upto,
{
    lemma_count_adj_nonneg(ms, dims, at, upto - 1);
    if k < upto - 1 {
        lemma_count_adj_pos(ms, dims, at, k, upto - 1);
    }
}

pub proof fn lemma_count_adj_nonneg(ms: Set<int>, dims: Seq<usize>, at: Seq<usize>, upto: int)
    ensures
        count_adj(ms, dims, at, upto) >= 0,
    decreases upto,
{
    if upto > 0 {
        lemma_count_adj_nonneg(ms, dims, at, upto - 1);
    }
}

/// The adjacency count never exceeds the number of indices counted.
pub proof fn lemma_count_adj_le(ms: Set<int>, dims: Seq<usize>, at: Seq<usize>, upto: int)
    ensures
        count_adj(ms, dims, at, upto) <= if upto >= 0 {
            upto
        } else {
            0
        },
    decreases upto,
{
    if upto > 0 {
        lemma_count_adj_le(ms, dims, at, upto - 1);
    }
}

} // verus!
