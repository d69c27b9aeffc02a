//! The mathematical mirror of mine placement: which flat indices end up
//! holding mines, as a function of the board shape, the mine count and the
//! generator's seed alone. Placement draws one candidate coordinate per mine
//! — each axis uniform through the generator — and, when the candidate is
//! already a mine, walks forward cyclically to the next free cell, so a
//! round never takes more than one pass over the board.

use vstd::prelude::*;

use crate::codec::{flat, total};
use crate::rand::rng_iter;

verus! {

/// The coordinate one placement round draws from generator state `s`: one
/// draw per axis, reduced to the axis size.
pub open spec fn draw_coord(size: Seq<usize>, s: u64) -> Seq<usize> {
    Seq::new(size.len(), |i: int| (rng_iter(s, (i + 1) as nat) % (size[i] as u64)) as usize)
}

/// The first index of `[from, upto)` outside `ms`, if any.
pub open spec fn probe_from(ms: Set<int>, from: int, upto: int) -> Option<int>
    decreases upto - from,
{
    if from >= upto {
        None
    } else if !ms.contains(from) {
        Some(from)
    } else {
        probe_from(ms, from + 1, upto)
    }
}

/// The first index outside `ms` at or cyclically after `start` (`start` when
/// the board has no mine-free cell at all, which placement never allows).
pub open spec fn probe(ms: Set<int>, start: int, n: int) -> int {
    match probe_from(ms, start, n) {
        Some(k) => k,
        None => match probe_from(ms, 0, start) {
            Some(k) => k,
            None => start,
        },
    }
}

/// One placement round from mine set `ms` and generator state `s`: the new
/// mine set and the generator state after the round's draws.
pub open spec fn place_step(ms: Set<int>, size: Seq<usize>, s: u64) -> (Set<int>, u64) {
    let c = draw_coord(size, s);
    let k = probe(ms, flat(c, size) as int, total(size) as int);
    (ms.insert(k), rng_iter(s, size.len()))
}

/// The mine set and generator state after placing `m` mines from seed `s`.
pub open spec fn mines_after(size: Seq<usize>, m: nat, s: u64) -> (Set<int>, u64)
    decreases m,
{
    if m == 0 {
        (Set::empty(), s)
    } else {
        let prev = mines_after(size, (m - 1) as nat, s);
        place_step(prev.0, size, prev.1)
    }
}

/// A probe over a fully mined range finds nothing.
pub proof fn lemma_probe_from_none(ms: Set<int>, from: int, upto: int)
    requires
        forall|t: int| from <= t < upto ==> ms.contains(t),
    ensures
        probe_from(ms, from, upto) is None,
    decreases upto - from,
{
    if from < upto {
        lemma_probe_from_none(ms, from + 1, upto);
    }
}

/// A probe lands on the first index outside `ms`.
pub proof fn lemma_probe_from_some(ms: Set<int>, from: int, j: int, upto: int)
    requires
        from <= j < upto,
        forall|t: int| from <= t < j ==> ms.contains(t),
        !ms.contains(j),
    ensures
        probe_from(ms, from, upto) == Some(j),
    decreases j - from,
{
    if from < j {
        lemma_probe_from_some(ms, from + 1, j, upto);
    }
}

} // verus!
