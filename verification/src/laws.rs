//! Engine-wide laws proved from the public contracts: a fixed seed fixes
//! the board bit for bit, and flagging twice undoes itself.

use vstd::prelude::*;

use crate::codec::{flat, lemma_flat_bound};
use crate::counts::mine_set;
use crate::game::{flag_step, fresh_game, open_step, Game};

verus! {

/// Determinism of construction: two games built over the same shape, mine
/// count and seed hold bit-identical boards — the same mines in the same
/// cells, the same numbers everywhere else, nothing opened or flagged.
pub proof fn lemma_layout_deterministic(
    g1: Game,
    g2: Game,
    size: Seq<usize>,
    mines: usize,
    s: u64,
)
    requires
        fresh_game(g1, size, mines, s),
        fresh_game(g2, size, mines, s),
    ensures
        g1.cells@ == g2.cells@,
{
    assert(mine_set(g1.cells@) == mine_set(g2.cells@));
    assert forall|k: int| 0 <= k < g1.cells@.len() implies #[trigger] g1.cells@[k]
        == g2.cells@[k] by {
        if g1.cells@[k].typ is Mine {
            assert(mine_set(g1.cells@).contains(k));
            assert(g2.cells@[k].typ is Mine);
        } else {
            assert(!mine_set(g1.cells@).contains(k));
            assert(!(g2.cells@[k].typ is Mine));
        }
        assert(g1.cells@[k] == g1.cells@[k]);
        assert(g2.cells@[k] == g2.cells@[k]);
    }
    assert(g1.cells@ =~= g2.cells@);
}

/// Opening an already opened — or flagged — cell changes nothing at all:
/// no state transition, no dirty entry, no cell touched.
pub proof fn lemma_open_noop(pre: Game, post: Game)
    requires
        open_step(pre, post),
        pre.cell_at(pre.selected@).opened || pre.cell_at(pre.selected@).flagged,
    ensures
        post == pre,
{
}

/// Toggling the flag twice on the same cell restores the board exactly:
/// the two dirty entries aside, the game is back where it started.
pub proof fn lemma_flag_twice(a: Game, b: Game, c: Game)
    requires
        a.wf(),
        flag_step(a, b),
        flag_step(b, c),
    ensures
        c.cells@ == a.cells@,
        c.state == a.state,
        c.selected@ == a.selected@,
        c.size@ == a.size@,
{
    let i = flat(a.selected@, a.size@) as int;
    lemma_flat_bound(a.selected@, a.size@);
    assert(b.cells@[i].flagged == !a.cells@[i].flagged);
    assert(c.cells@ =~= a.cells@);
}

} // verus!
