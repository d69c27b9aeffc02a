//! The game engine: one board of cells over an N-dimensional shape, a
//! cursor, the Normal/Dead/Won state machine, and the dirty-cell list the
//! renderer consumes for incremental redraw.

use vstd::prelude::*;
use vstd::slice::slice_to_vec;

use crate::cell::{Cell, CellType, GameState};
use crate::codec::{flat, flat_index, in_box, shape_ok, total, unflat, lemma_flat_bound,
    lemma_total_push, lemma_total_take_le, lemma_unflat, lemma_unflat_flat};
use crate::counts::{count_adj, count_mines, count_unopened, mine_set, lemma_count_adj_le,
    lemma_count_adj_nonneg, lemma_count_adj_pos, lemma_count_mines_agree, lemma_count_mines_full,
    lemma_count_mines_missing, lemma_count_mines_none, lemma_count_mines_update,
    lemma_count_unopened_bounds, lemma_count_unopened_update};
use crate::error::GameError;
use crate::grid::{cells, is_neighbour_of, is_nbr, neighbours};
use crate::place::{draw_coord, mines_after, place_step, probe, probe_from, lemma_probe_from_none,
    lemma_probe_from_some};
use crate::rand::{rng_iter, Rand};

verus! {

/// The adjacency numbers are faithful: every non-mine cell holds the count
/// of mines among its neighbors.
pub open spec fn numbers_correct(cells: Seq<Cell>, size: Seq<usize>) -> bool {
    forall|k: int| #![trigger cells[k]]
        0 <= k < cells.len() && !(cells[k].typ is Mine) ==> cells[k].typ == CellType::Number(
            count_adj(mine_set(cells), size, unflat(k, size), total(size) as int) as usize,
        )
}

/// A kind-preserving rewrite of the cell array keeps the adjacency numbers
/// faithful.
proof fn lemma_numbers_preserved(pre: Seq<Cell>, post: Seq<Cell>, size: Seq<usize>)
    requires
        post.len() == pre.len(),
        forall|k: int| 0 <= k < pre.len() ==> (#[trigger] post[k]).typ == pre[k].typ,
        numbers_correct(pre, size),
    ensures
        numbers_correct(post, size),
{
    assert(mine_set(post) =~= mine_set(pre));
    assert forall|k: int|
        0 <= k < post.len() && !((#[trigger] post[k]).typ is Mine) implies post[k].typ
        == CellType::Number(
        count_adj(mine_set(post), size, unflat(k, size), total(size) as int) as usize,
    ) by {
        assert(pre[k].typ == post[k].typ);
        assert(pre[k] == pre[k]);
    }
}

/// One game: the board, the cursor, the state machine, the dirty-cell list,
/// and the generator the mines were drawn from.
pub struct Game {
    pub cells: Vec<Cell>,
    pub size: Vec<usize>,
    pub selected: Vec<usize>,
    pub state: GameState,
    pub updated_cells: Vec<Vec<usize>>,
    pub rng: Rand,
}

impl Game {
    /// Builds a game over the given shape: a board of fresh cells, `mines`
    /// mines drawn from the generator, adjacency numbers computed, the
    /// cursor at the origin, play in `Normal`. Rejects a shape with no
    /// axes, a zero axis, a cell count beyond the machine, or too many
    /// mines.
    #[verifier::loop_isolation(false)]
    pub fn new(size: Vec<usize>, mines: usize, rng: Rand) -> (r: Result<Game, GameError>)
        ensures
            valid_config(size@, mines) ==> r is Ok,
            !valid_config(size@, mines) ==> r == Result::<Game, GameError>::Err(
                GameError::InvalidConfiguration,
            ),
            r is Ok ==> fresh_game(r->Ok_0, size@, mines, rng.state),
    {
        let d = size.len();
        if d == 0 {
            return Err(GameError::InvalidConfiguration);
        }
        let mut sz: usize = 1;
        let mut i: usize = 0;
        while i < d
            invariant
                i <= d,
                forall|j: int| 0 <= j < i ==> #[trigger] size@[j] >= 1,
                sz as nat == total(size@.take(i as int)),
            decreases d - i,
        {
            let s = size[i];
            if s == 0 {
                return Err(GameError::InvalidConfiguration);
            }
            proof {
                assert(size@.take(i + 1) =~= size@.take(i as int).push(size@[i as int]));
                lemma_total_push(size@.take(i as int), size@[i as int]);
            }
            sz = match sz.checked_mul(s) {
                Some(v) => v,
                None => {
                    proof {
                        if forall|j: int| 0 <= j < d ==> #[trigger] size@[j] >= 1 {
                            lemma_total_take_le(size@, i + 1);
                        }
                    }
                    return Err(GameError::InvalidConfiguration);
                },
            };
            i += 1;
        }
        proof {
            assert(size@.take(d as int) =~= size@);
        }
        if mines >= sz {
            return Err(GameError::InvalidConfiguration);
        }
        let mut board: Vec<Cell> = Vec::new();
        let mut k: usize = 0;
        while k < sz
            invariant
                k <= sz,
                board@.len() == k,
                forall|j: int|
                    0 <= j < k ==> #[trigger] board@[j] == (Cell {
                        typ: CellType::Number(0usize),
                        flagged: false,
                        opened: false,
                    }),
            decreases sz - k,
        {
            board.push(Cell { typ: CellType::Number(0), flagged: false, opened: false });
            k += 1;
        }
        let mut origin: Vec<usize> = Vec::new();
        let mut a: usize = 0;
        while a < d
            invariant
                a <= d,
                origin@.len() == a,
                forall|j: int| 0 <= j < a ==> #[trigger] origin@[j] == 0,
            decreases d - a,
        {
            origin.push(0);
            a += 1;
        }
        let mut g = Game {
            cells: board,
            size,
            selected: origin,
            state: GameState::Normal,
            updated_cells: Vec::new(),
            rng,
        };
        proof {
            assert(in_box(g.selected@, g.size@));
        }
        g.scramble(mines);
        g.update();
        proof {
            lemma_count_mines_missing(g.cells@, g.cells@.len() as int);
            let w = choose|k: int|
                0 <= k < g.cells@.len() && !((#[trigger] g.cells@[k]).typ is Mine);
            assert(!g.cells@[w].opened);
            assert(!g.board_cleared());
        }
        Ok(g)
    }

    /// The cell the coordinate `c` addresses.
    pub open spec fn cell_at(self, c: Seq<usize>) -> Cell {
        self.cells@[flat(c, self.size@) as int]
    }

    /// Every cell that is not a mine is opened: the winning condition.
    pub open spec fn board_cleared(self) -> bool {
        forall|k: int|
            0 <= k < self.cells@.len() ==> (#[trigger] self.cells@[k]).opened
                || self.cells@[k].typ is Mine
    }

    /// Every cell is opened and none is flagged: the board as win or loss
    /// reveals it.
    pub open spec fn all_revealed(self) -> bool {
        forall|k: int|
            0 <= k < self.cells@.len() ==> (#[trigger] self.cells@[k]).opened
                && !self.cells@[k].flagged
    }

    /// The game's structural invariant: a positive-dimensional shape whose
    /// cell count fits the machine, a board of exactly that many cells, a
    /// cursor on the board, faithful adjacency numbers, a win not yet
    /// reached while play goes on, and a fully opened board once it ends.
    pub open spec fn wf(self) -> bool {
        &&& self.size@.len() >= 1
        &&& shape_ok(self.size@)
        &&& self.cells@.len() == total(self.size@)
        &&& in_box(self.selected@, self.size@)
        &&& numbers_correct(self.cells@, self.size@)
        &&& (self.state is Normal ==> !self.board_cleared())
        &&& (!(self.state is Normal) ==> forall|k: int|
            0 <= k < self.cells@.len() ==> (#[trigger] self.cells@[k]).opened)
    }

    /// Bounds-checked access to the cell a coordinate addresses; `None`
    /// reports a malformed coordinate, a caller bug.
    pub fn get(&self, at: &[usize]) -> (r: Option<&Cell>)
        requires
            self.wf(),
        ensures
            match r {
                Some(c) => in_box(at@, self.size@) && *c == self.cell_at(at@),
                None => !in_box(at@, self.size@),
            },
    {
        match crate::codec::flatten(at, self.size.as_slice()) {
            Ok(k) => {
                proof {
                    lemma_flat_bound(at@, self.size@);
                }
                Some(&self.cells[k])
            },
            Err(_) => None,
        }
    }

    /// Opens every cell and clears every flag, as the transition to `Dead`
    /// or `Won` demands.
    fn reveal_all(&mut self)
        ensures
            final(self).cells@.len() == old(self).cells@.len(),
            forall|k: int|
                0 <= k < final(self).cells@.len() ==> #[trigger] final(self).cells@[k] == (Cell {
                    typ: old(self).cells@[k].typ,
                    flagged: false,
                    opened: true,
                }),
            final(self).size == old(self).size,
            final(self).selected == old(self).selected,
            final(self).state == old(self).state,
            final(self).updated_cells == old(self).updated_cells,
            final(self).rng == old(self).rng,
    {
        let ghost pre: Game = *self;
        let n = self.cells.len();
        let mut k: usize = 0;
        while k < n
            invariant
                n == pre.cells@.len(),
                self.cells@.len() == n,
                k <= n,
                forall|j: int|
                    0 <= j < k ==> #[trigger] self.cells@[j] == (Cell {
                        typ: pre.cells@[j].typ,
                        flagged: false,
                        opened: true,
                    }),
                forall|j: int| k <= j < n ==> #[trigger] self.cells@[j] == pre.cells@[j],
                self.size == pre.size,
                self.selected == pre.selected,
                self.state == pre.state,
                self.updated_cells == pre.updated_cells,
                self.rng == pre.rng,
                pre == *old(self),
            decreases n - k,
        {
            let c = self.cells[k];
            self.cells[k] = Cell { typ: c.typ, flagged: false, opened: true };
            k += 1;
        }
    }

    /// Whether every non-mine cell is opened.
    fn is_cleared(&self) -> (r: bool)
        ensures
            r == self.board_cleared(),
    {
        let n = self.cells.len();
        let mut k: usize = 0;
        while k < n
            invariant
                n == self.cells@.len(),
                k <= n,
                forall|j: int|
                    0 <= j < k ==> (#[trigger] self.cells@[j]).opened || self.cells@[j].typ
                        is Mine,
            decreases n - k,
        {
            let c = &self.cells[k];
            if !c.opened && !(matches!(c.typ, CellType::Mine)) {
                return false;
            }
            k += 1;
        }
        true
    }

    /// Opens the selected cell. A flagged or already opened selection is a
    /// no-op. A mine ends the game and reveals the board. Anything else
    /// opens the cell and — when it shows zero neighboring mines — floods
    /// outward through an explicit work list rather than the call stack,
    /// then transitions to `Won`, revealing the board, exactly when no
    /// non-mine cell is left closed.
    #[verifier::loop_isolation(false)]
    #[verifier::rlimit(100)]
    pub fn open(&mut self)
        requires
            old(self).wf(),
        ensures
            final(self).wf(),
            open_step(*old(self), *final(self)),
    {
        let ghost g0: Game = *self;
        let ghost o: Seq<usize> = self.selected@;
        let ghost n: int = self.cells@.len() as int;
        proof {
            lemma_flat_bound(o, self.size@);
        }
        let i0 = flat_index(self.selected.as_slice(), self.size.as_slice());
        if self.cells[i0].flagged || self.cells[i0].opened {
            return;
        }
        proof {
            assert(self.state is Normal);
        }
        if matches!(self.cells[i0].typ, CellType::Mine) {
            let sel = slice_to_vec(self.selected.as_slice());
            self.updated_cells.push(sel);
            self.state = GameState::Dead;
            self.reveal_all();
            proof {
                lemma_numbers_preserved(g0.cells@, self.cells@, self.size@);
            }
            return;
        }
        let mut work: Vec<Vec<usize>> = Vec::new();
        let sel = slice_to_vec(self.selected.as_slice());
        work.push(sel);
        proof {
            assert((work@[0])@ == o);
            assert(in_list(work@, o));
            lemma_cascade_init(g0, o, work@);
        }
        while work.len() > 0
            invariant
                self.size == g0.size,
                self.selected == g0.selected,
                self.state == g0.state,
                self.rng == g0.rng,
                self.cells@.len() == n,
                marks_ok(g0, self.cells@),
                opened_sound(g0, o, self.cells@),
                work_ok(g0, o, work@),
                closure_ok(g0, self.cells@, work@),
                self.cells@[flat(o, g0.size@) as int].opened || in_list(work@, o),
                dirty_ok(g0, self.cells@, self.updated_cells@),
            decreases count_unopened(self.cells@, n), work@.len(),
        {
            proof {
                lemma_count_unopened_bounds(self.cells@, n);
            }
            let ghost w0: Seq<Vec<usize>> = work@;
            proof {
                lemma_work_pop(g0, o, w0);
            }
            let c = work.pop().unwrap();
            proof {
                assert(in_box(c@, g0.size@) && reaches(g0, o, c@));
            }
            let ci = flat_index(c.as_slice(), self.size.as_slice());
            proof {
                lemma_flat_bound(c@, g0.size@);
            }
            if !self.cells[ci].flagged && !self.cells[ci].opened {
                let ghost cells_pre: Seq<Cell> = self.cells@;
                let ghost upd_pre: Seq<Vec<usize>> = self.updated_cells@;
                let cc = self.cells[ci];
                self.cells[ci] = Cell { typ: cc.typ, flagged: cc.flagged, opened: true };
                let copy = slice_to_vec(c.as_slice());
                self.updated_cells.push(copy);
                proof {
                    lemma_open_cell(
                        g0,
                        o,
                        cells_pre,
                        self.cells@,
                        c@,
                        upd_pre,
                        self.updated_cells@,
                    );
                }
                if matches!(self.cells[ci].typ, CellType::Number(0)) {
                    let ghost w1: Seq<Vec<usize>> = work@;
                    let nbrs = neighbours(c.as_slice(), self.size.as_slice());
                    let mut q: usize = 0;
                    while q < nbrs.len()
                        invariant
                            q <= nbrs@.len(),
                            work@.len() >= w1.len(),
                            forall|j: int| 0 <= j < w1.len() ==> work@[j] == #[trigger] w1[j],
                            work_ok(g0, o, work@),
                            forall|t: int| 0 <= t < q ==> in_list(work@, (#[trigger] nbrs@[t])@),
                        decreases nbrs@.len() - q,
                    {
                        let ghost wb: Seq<Vec<usize>> = work@;
                        let row: &Vec<usize> = &nbrs[q];
                        let nbv = slice_to_vec(row.as_slice());
                        work.push(nbv);
                        proof {
                            assert(expands(g0, c@));
                            lemma_reach_extend(g0, o, c@, nbrs@[q as int]@);
                            let e = work@[work@.len() - 1];
                            assert(work@ == wb.push(e));
                            lemma_work_push(g0, o, wb, e);
                            assert forall|t: int|
                                0 <= t < q + 1 implies in_list(work@, (#[trigger] nbrs@[t])@) by {
                                if t < q {
                                    let j = choose|j: int|
                                        0 <= j < wb.len() && (#[trigger] wb[j])@ == nbrs@[t]@;
                                    assert((work@[j])@ == nbrs@[t]@);
                                } else {
                                    assert((work@[work@.len() - 1])@ == nbrs@[t]@);
                                }
                            }
                        }
                        q += 1;
                    }
                    proof {
                        assert forall|j: int| 0 <= j < w0.len() - 1 implies work@[j] == #[trigger] w0[j] by {
                            assert(work@[j] == w1[j]);
                            assert(w0.drop_last()[j] == w0[j]);
                        }
                        lemma_step_open(
                            g0,
                            o,
                            cells_pre,
                            self.cells@,
                            c@,
                            w0,
                            work@,
                            nbrs@,
                        );
                        lemma_count_unopened_bounds(self.cells@, n);
                    }
                } else {
                    proof {
                        assert forall|j: int| 0 <= j < w0.len() - 1 implies work@[j] == #[trigger] w0[j] by {
                            assert(w0.drop_last()[j] == w0[j]);
                        }
                        lemma_step_open(
                            g0,
                            o,
                            cells_pre,
                            self.cells@,
                            c@,
                            w0,
                            work@,
                            Seq::<Vec<usize>>::empty(),
                        );
                        lemma_count_unopened_bounds(self.cells@, n);
                    }
                }
            } else {
                proof {
                    assert(!g0.cell_at(o).flagged);
                    assert(self.cells@[ci as int].opened || self.cells@[ci as int].flagged);
                    lemma_step_skip(g0, o, self.cells@, w0);
                    assert(work@ == w0.drop_last());
                }
            }
        }
        let ghost mid: Game = *self;
        proof {
            assert(work@ =~= Seq::<Vec<usize>>::empty());
            assert(mid.cells@[flat(o, g0.size@) as int].opened);
            assert(!g0.cell_at(o).flagged);
            lemma_cascade_post(g0, o, mid.cells@, mid.updated_cells@);
        }
        if self.is_cleared() {
            self.state = GameState::Won;
            self.reveal_all();
            proof {
                lemma_numbers_preserved(g0.cells@, self.cells@, self.size@);
            }
        }
        proof {
            if !(self.state is Won) {
                assert(*self == mid);
                lemma_numbers_preserved(g0.cells@, self.cells@, self.size@);
                assert(!self.board_cleared());
            } else {
                assert forall|k: int|
                    0 <= k < self.cells@.len() implies (#[trigger] self.cells@[k]).opened by {}
            }
            assert(dirty_extended_by_cascade(g0, *self));
            assert(self.wf());
        }
    }

    /// Toggles the flag on the selected cell — even an opened one — and
    /// records the cell as dirty; nothing else moves.
    pub fn flag(&mut self)
        requires
            old(self).wf(),
        ensures
            final(self).wf(),
            flag_step(*old(self), *final(self)),
    {
        proof {
            lemma_flat_bound(self.selected@, self.size@);
        }
        let i = flat_index(self.selected.as_slice(), self.size.as_slice());
        let c = self.cells[i];
        self.cells[i] = Cell { typ: c.typ, flagged: !c.flagged, opened: c.opened };
        let sel = slice_to_vec(self.selected.as_slice());
        self.updated_cells.push(sel);
        proof {
            lemma_numbers_preserved(old(self).cells@, self.cells@, self.size@);
            assert forall|k: int| 0 <= k < self.cells@.len() implies (#[trigger] self.cells@[k]).opened
                == old(self).cells@[k].opened && self.cells@[k].typ == old(self).cells@[k].typ by {}
            if self.state is Normal {
                assert(!old(self).board_cleared());
                let k = choose|k: int|
                    0 <= k < old(self).cells@.len() && !((#[trigger] old(self).cells@[k]).opened
                        || old(self).cells@[k].typ is Mine);
                assert(!(self.cells@[k].opened || self.cells@[k].typ is Mine));
                assert(!self.board_cleared());
            } else {
                assert forall|k: int| 0 <= k < self.cells@.len() implies (
                #[trigger] self.cells@[k]).opened by {
                    assert(old(self).cells@[k].opened);
                }
            }
        }
    }

    /// Places `mines` mines. Each round draws one candidate coordinate —
    /// one generator draw per axis, reduced to the axis size — and, when
    /// the candidate already holds a mine, takes the next mine-free cell
    /// cyclically after it, so a round never makes more than one pass over
    /// the board.
    #[verifier::loop_isolation(false)]
    fn scramble(&mut self, mines: usize)
        requires
            old(self).size@.len() >= 1,
            shape_ok(old(self).size@),
            old(self).cells@.len() == total(old(self).size@),
            mines < total(old(self).size@),
            forall|k: int|
                0 <= k < old(self).cells@.len() ==> !((#[trigger] old(self).cells@[k]).typ
                    is Mine),
        ensures
            final(self).cells@.len() == old(self).cells@.len(),
            final(self).size == old(self).size,
            final(self).selected == old(self).selected,
            final(self).state == old(self).state,
            final(self).updated_cells == old(self).updated_cells,
            count_mines(final(self).cells@, final(self).cells@.len() as int) == mines as int,
            mine_set(final(self).cells@) == mines_after(
                old(self).size@,
                mines as nat,
                old(self).rng.state,
            ).0,
            final(self).rng.state == mines_after(
                old(self).size@,
                mines as nat,
                old(self).rng.state,
            ).1,
            forall|k: int|
                0 <= k < final(self).cells@.len() ==> (#[trigger] final(self).cells@[k]).flagged
                    == old(self).cells@[k].flagged && final(self).cells@[k].opened == old(
                    self,
                ).cells@[k].opened,
            forall|k: int|
                0 <= k < final(self).cells@.len() && !((#[trigger] final(self).cells@[k]).typ
                    is Mine) ==> final(self).cells@[k].typ == old(self).cells@[k].typ,
    {
        let ghost s0: u64 = self.rng.state;
        let n = self.cells.len();
        let d = self.size.len();
        proof {
            lemma_count_mines_none(self.cells@, n as int);
            assert(mine_set(self.cells@) =~= mines_after(self.size@, 0, s0).0);
        }
        let mut i: usize = 0;
        while i < mines
            invariant
                i <= mines,
                self.size == old(self).size,
                self.selected == old(self).selected,
                self.state == old(self).state,
                self.updated_cells == old(self).updated_cells,
                self.cells@.len() == n,
                count_mines(self.cells@, n as int) == i as int,
                mine_set(self.cells@) == mines_after(self.size@, i as nat, s0).0,
                self.rng.state == mines_after(self.size@, i as nat, s0).1,
                forall|k: int|
                    0 <= k < n ==> (#[trigger] self.cells@[k]).flagged == old(
                        self,
                    ).cells@[k].flagged && self.cells@[k].opened == old(self).cells@[k].opened,
                forall|k: int|
                    0 <= k < n && !((#[trigger] self.cells@[k]).typ is Mine) ==> self.cells@[k].typ
                        == old(self).cells@[k].typ,
            decreases mines - i,
        {
            let ghost s_start: u64 = self.rng.state;
            let ghost ms: Set<int> = mine_set(self.cells@);
            let ghost pre_cells: Seq<Cell> = self.cells@;
            let mut coord: Vec<usize> = Vec::new();
            let mut ax: usize = 0;
            while ax < d
                invariant
                    ax <= d,
                    coord@.len() == ax,
                    self.rng.state == rng_iter(s_start, ax as nat),
                    self.cells@ == pre_cells,
                    self.size == old(self).size,
                    self.selected == old(self).selected,
                    self.state == old(self).state,
                    self.updated_cells == old(self).updated_cells,
                    forall|j: int|
                        0 <= j < ax ==> #[trigger] coord@[j] == draw_coord(self.size@, s_start)[j],
                decreases d - ax,
            {
                let r = self.rng.rand();
                let sz = self.size[ax];
                assert(sz >= 1);
                coord.push((r % (sz as u64)) as usize);
                ax += 1;
            }
            proof {
                assert(coord@ =~= draw_coord(self.size@, s_start));
                assert forall|j: int| 0 <= j < d implies #[trigger] coord@[j] < self.size@[j] by {
                    assert(self.size@[j] >= 1);
                }
                assert(in_box(coord@, self.size@));
            }
            let start = flat_index(coord.as_slice(), self.size.as_slice());
            proof {
                lemma_flat_bound(coord@, self.size@);
            }
            let mut target: usize = 0;
            let mut found = false;
            let mut j = start;
            while j < n && !found
                invariant
                    start <= j <= n,
                    !found ==> forall|t: int| start <= t < j ==> ms.contains(t),
                    found ==> target < n && !ms.contains(target as int) && probe_from(
                        ms,
                        start as int,
                        n as int,
                    ) == Some(target as int),
                decreases n - j,
            {
                if !(matches!(self.cells[j].typ, CellType::Mine)) {
                    target = j;
                    found = true;
                    proof {
                        assert(!ms.contains(j as int));
                        lemma_probe_from_some(ms, start as int, j as int, n as int);
                    }
                }
                j += 1;
            }
            if !found {
                proof {
                    lemma_probe_from_none(ms, start as int, n as int);
                }
                let mut j2: usize = 0;
                while j2 < start && !found
                    invariant
                        j2 <= start,
                        probe_from(ms, start as int, n as int) is None,
                        !found ==> forall|t: int| 0 <= t < j2 ==> ms.contains(t),
                        found ==> target < n && !ms.contains(target as int) && probe_from(
                            ms,
                            0,
                            start as int,
                        ) == Some(target as int),
                    decreases start - j2,
                {
                    if !(matches!(self.cells[j2].typ, CellType::Mine)) {
                        target = j2;
                        found = true;
                        proof {
                            assert(!ms.contains(j2 as int));
                            lemma_probe_from_some(ms, 0, j2 as int, start as int);
                        }
                    }
                    j2 += 1;
                }
                if !found {
                    proof {
                        lemma_probe_from_none(ms, 0, start as int);
                        assert forall|t: int| 0 <= t < n implies (#[trigger] self.cells@[t]).typ
                            is Mine by {
                            assert(ms.contains(t));
                        }
                        lemma_count_mines_full(self.cells@, n as int);
                        assert(false);
                    }
                }
            }
            proof {
                assert(found);
                assert(probe(ms, start as int, n as int) == target as int);
                assert(!(self.cells@[target as int].typ is Mine));
            }
            let c = self.cells[target];
            let newcell = Cell { typ: CellType::Mine, flagged: c.flagged, opened: c.opened };
            self.cells[target] = newcell;
            proof {
                lemma_count_mines_update(pre_cells, target as int, newcell, n as int);
                assert(count_mines(self.cells@, n as int) == i + 1);
                assert(mine_set(self.cells@) =~= ms.insert(target as int));
                assert(flat(coord@, self.size@) == start as int);
                assert(total(self.size@) == n as int);
                assert(place_step(ms, self.size@, s_start).0 == ms.insert(target as int));
                assert(self.rng.state == rng_iter(s_start, d as nat));
                assert(place_step(ms, self.size@, s_start).1 == self.rng.state);
                assert(mines_after(self.size@, (i + 1) as nat, s0) == place_step(
                    mines_after(self.size@, i as nat, s0).0,
                    self.size@,
                    mines_after(self.size@, i as nat, s0).1,
                ));
                assert forall|k: int|
                    0 <= k < n implies (#[trigger] self.cells@[k]).flagged == old(
                    self,
                ).cells@[k].flagged && self.cells@[k].opened == old(self).cells@[k].opened by {
                    assert(pre_cells[k].flagged == old(self).cells@[k].flagged);
                    assert(pre_cells[k].opened == old(self).cells@[k].opened);
                }
                assert forall|k: int|
                    0 <= k < n && !((#[trigger] self.cells@[k]).typ is Mine) implies self
                    .cells@[k].typ == old(self).cells@[k].typ by {
                    assert(k != target as int);
                    assert(self.cells@[k].typ == pre_cells[k].typ);
                }
            }
            i += 1;
        }
    }

    /// Rewrites every non-mine cell's number to the count of mines among
    /// its neighbors, leaving mines, marks and everything else untouched.
    #[verifier::loop_isolation(false)]
    fn update(&mut self)
        requires
            old(self).size@.len() >= 1,
            shape_ok(old(self).size@),
            old(self).cells@.len() == total(old(self).size@),
        ensures
            final(self).cells@.len() == old(self).cells@.len(),
            final(self).size == old(self).size,
            final(self).selected == old(self).selected,
            final(self).state == old(self).state,
            final(self).updated_cells == old(self).updated_cells,
            final(self).rng == old(self).rng,
            forall|k: int|
                0 <= k < final(self).cells@.len() ==> (#[trigger] final(self).cells@[k]).flagged
                    == old(self).cells@[k].flagged && final(self).cells@[k].opened == old(
                    self,
                ).cells@[k].opened,
            forall|k: int|
                0 <= k < final(self).cells@.len() ==> ((#[trigger] final(self).cells@[k]).typ
                    is Mine <==> old(self).cells@[k].typ is Mine),
            mine_set(final(self).cells@) == mine_set(old(self).cells@),
            count_mines(final(self).cells@, final(self).cells@.len() as int) == count_mines(
                old(self).cells@,
                old(self).cells@.len() as int,
            ),
            numbers_correct(final(self).cells@, final(self).size@),
    {
        let all = cells(self.size.as_slice());
        let n = self.cells.len();
        let ghost ms0: Set<int> = mine_set(old(self).cells@);
        let mut k: usize = 0;
        while k < n
            invariant
                k <= n,
                self.cells@.len() == n,
                self.size == old(self).size,
                self.selected == old(self).selected,
                self.state == old(self).state,
                self.updated_cells == old(self).updated_cells,
                self.rng == old(self).rng,
                mine_set(self.cells@) == ms0,
                forall|j: int|
                    0 <= j < n ==> (#[trigger] self.cells@[j]).flagged == old(
                        self,
                    ).cells@[j].flagged && self.cells@[j].opened == old(self).cells@[j].opened,
                forall|j: int|
                    0 <= j < n ==> ((#[trigger] self.cells@[j]).typ is Mine <==> old(
                        self,
                    ).cells@[j].typ is Mine),
                forall|j: int|
                    0 <= j < k && !((#[trigger] self.cells@[j]).typ is Mine)
                        ==> self.cells@[j].typ == CellType::Number(
                        count_adj(ms0, self.size@, unflat(j, self.size@), n as int) as usize,
                    ),
            decreases n - k,
        {
            if !(matches!(self.cells[k].typ, CellType::Mine)) {
                let coord: &Vec<usize> = &all[k];
                let mut cnt: usize = 0;
                let mut t: usize = 0;
                while t < n
                    invariant
                        t <= n,
                        cnt <= t,
                        cnt as int == count_adj(ms0, self.size@, coord@, t as int),
                    decreases n - t,
                {
                    let tmine = matches!(self.cells[t].typ, CellType::Mine);
                    let row: &Vec<usize> = &all[t];
                    let nb = is_neighbour_of(row.as_slice(), coord.as_slice());
                    proof {
                        lemma_unflat_flat(all@[t as int]@, self.size@);
                        assert(row@.take(row@.len() as int) =~= row@);
                        assert(coord@.take(coord@.len() as int) =~= coord@);
                        assert(nb == is_nbr(unflat(t as int, self.size@), coord@));
                        assert(tmine == ms0.contains(t as int));
                    }
                    if tmine && nb {
                        cnt += 1;
                    }
                    t += 1;
                }
                let c = self.cells[k];
                self.cells[k] = Cell { typ: CellType::Number(cnt), flagged: c.flagged, opened: c.opened };
                proof {
                    assert(mine_set(self.cells@) =~= ms0);
                    lemma_unflat_flat(all@[k as int]@, self.size@);
                    assert(unflat(k as int, self.size@) == coord@);
                }
            }
            k += 1;
        }
        proof {
            lemma_count_mines_agree(self.cells@, old(self).cells@, n as int);
            assert forall|j: int|
                0 <= j < n && !((#[trigger] self.cells@[j]).typ is Mine) implies self.cells@[j].typ
                == CellType::Number(
                count_adj(
                    mine_set(self.cells@),
                    self.size@,
                    unflat(j, self.size@),
                    total(self.size@) as int,
                ) as usize,
            ) by {
                assert(self.cells@[j].typ == CellType::Number(
                    count_adj(ms0, self.size@, unflat(j, self.size@), n as int) as usize,
                ));
            }
        }
    }

    /// Clamps one cursor component a step along an axis; the board and the
    /// dirty list stay untouched.
    pub fn move_cursor(&mut self, axis: usize, forward: bool)
        requires
            old(self).wf(),
            axis < old(self).size@.len(),
        ensures
            final(self).wf(),
            final(self).cells == old(self).cells,
            final(self).size == old(self).size,
            final(self).state == old(self).state,
            final(self).updated_cells == old(self).updated_cells,
            final(self).rng == old(self).rng,
            final(self).selected@ == old(self).selected@.update(
                axis as int,
                moved_component(*old(self), axis as int, forward),
            ),
    {
        let v = self.selected[axis];
        if forward {
            if v + 1 < self.size[axis] {
                self.selected[axis] = v + 1;
            }
        } else {
            if v > 0 {
                self.selected[axis] = v - 1;
            }
        }
        proof {
            assert(self.selected@ =~= old(self).selected@.update(
                axis as int,
                moved_component(*old(self), axis as int, forward),
            ));
        }
    }
}

/// Where the cursor component lands when nudged along `axis`: one step,
/// clamped into the axis.
pub open spec fn moved_component(pre: Game, axis: int, forward: bool) -> usize {
    let v = pre.selected@[axis];
    if forward {
        if v + 1 < pre.size@[axis] {
            (v + 1) as usize
        } else {
            v
        }
    } else {
        if v > 0 {
            (v - 1) as usize
        } else {
            0
        }
    }
}

/// A cell the cascade opens and keeps expanding through: unflagged, not yet
/// opened, and showing zero neighboring mines.
pub open spec fn expands(g: Game, c: Seq<usize>) -> bool {
    let cell = g.cell_at(c);
    &&& !cell.flagged
    &&& !cell.opened
    &&& cell.typ == CellType::Number(0usize)
}

/// A flood-fill path through the pre-state `g`: consecutive neighbors on
/// the board, every step but the last a cell the cascade expands through.
pub open spec fn chain_ok(g: Game, p: Seq<Seq<usize>>) -> bool {
    &&& p.len() >= 1
    &&& (forall|k: int| 0 <= k < p.len() ==> in_box(#[trigger] p[k], g.size@))
    &&& (forall|k: int| 0 <= k < p.len() - 1 ==> is_nbr(p[k + 1], #[trigger] p[k]))
    &&& (forall|k: int| 0 <= k < p.len() - 1 ==> expands(g, #[trigger] p[k]))
}

/// The cascade started at `o` in pre-state `g` touches `c`: some flood-fill
/// path leads there. The origin touches itself by the one-step path.
pub open spec fn reaches(g: Game, o: Seq<usize>, c: Seq<usize>) -> bool {
    exists|p: Seq<Seq<usize>>| chain_ok(g, p) && p[0] == o && p.last() == c
}

/// The cells one `open` at `o` actually opens: touched by the cascade, not
/// flagged, not already open.
pub open spec fn cascade_opens(g: Game, o: Seq<usize>, c: Seq<usize>) -> bool {
    &&& in_box(c, g.size@)
    &&& reaches(g, o, c)
    &&& !g.cell_at(c).flagged
    &&& !g.cell_at(c).opened
}

/// Some entry of the list views as the coordinate `c`.
pub open spec fn in_list(l: Seq<Vec<usize>>, c: Seq<usize>) -> bool {
    exists|j: int| 0 <= j < l.len() && (#[trigger] l[j])@ == c
}

/// The cascade touches its own origin.
proof fn lemma_reach_self(g: Game, o: Seq<usize>)
    requires
        in_box(o, g.size@),
    ensures
        reaches(g, o, o),
{
    let p: Seq<Seq<usize>> = seq![o];
    assert(chain_ok(g, p) && p[0] == o && p.last() == o);
}

/// A cell the cascade expands through carries it on to each of its
/// neighbors.
proof fn lemma_reach_extend(g: Game, o: Seq<usize>, c: Seq<usize>, nxt: Seq<usize>)
    requires
        reaches(g, o, c),
        expands(g, c),
        in_box(c, g.size@),
        in_box(nxt, g.size@),
        is_nbr(nxt, c),
    ensures
        reaches(g, o, nxt),
{
    let p = choose|p: Seq<Seq<usize>>| chain_ok(g, p) && p[0] == o && p.last() == c;
    let p2 = p.push(nxt);
    assert forall|k: int| 0 <= k < p2.len() implies in_box(#[trigger] p2[k], g.size@) by {
        if k < p.len() {
            assert(p2[k] == p[k]);
        }
    }
    assert forall|k: int| 0 <= k < p2.len() - 1 implies is_nbr(p2[k + 1], #[trigger] p2[k]) by {
        if k < p.len() - 1 {
            assert(p2[k] == p[k] && p2[k + 1] == p[k + 1]);
        } else {
            assert(p2[k] == p.last() && p2[k + 1] == nxt);
        }
    }
    assert forall|k: int| 0 <= k < p2.len() - 1 implies expands(g, #[trigger] p2[k]) by {
        if k < p.len() - 1 {
            assert(p2[k] == p[k]);
        } else {
            assert(p2[k] == p.last());
        }
    }
    assert(chain_ok(g, p2) && p2[0] == o && p2.last() == nxt);
}

/// The cascade never touches a mine beyond a mine at its very origin: every
/// later cell neighbors a zero cell, and zero cells have no mine neighbors.
pub proof fn lemma_reaches_no_mine(g: Game, o: Seq<usize>, c: Seq<usize>)
    requires
        g.wf(),
        in_box(o, g.size@),
        in_box(c, g.size@),
        !(g.cell_at(o).typ is Mine),
        reaches(g, o, c),
    ensures
        !(g.cell_at(c).typ is Mine),
{
    let p = choose|p: Seq<Seq<usize>>| chain_ok(g, p) && p[0] == o && p.last() == c;
    if p.len() == 1 {
        assert(c == o);
    } else {
        let d = p[p.len() - 2];
        assert(expands(g, d));
        assert(in_box(d, g.size@));
        let kd = flat(d, g.size@) as int;
        proof_zero_has_no_mine_neighbor(g, d, c);
    }
}

/// A zero-numbered cell has no mine among its neighbors.
proof fn proof_zero_has_no_mine_neighbor(g: Game, d: Seq<usize>, c: Seq<usize>)
    requires
        g.wf(),
        in_box(d, g.size@),
        in_box(c, g.size@),
        g.cell_at(d).typ == CellType::Number(0usize),
        is_nbr(c, d),
    ensures
        !(g.cell_at(c).typ is Mine),
{
    let ms = mine_set(g.cells@);
    let kd = flat(d, g.size@) as int;
    lemma_flat_bound(d, g.size@);
    lemma_unflat_flat(d, g.size@);
    assert(g.cells@[kd].typ == CellType::Number(
        count_adj(ms, g.size@, unflat(kd, g.size@), total(g.size@) as int) as usize,
    ));
    lemma_count_adj_le(ms, g.size@, d, total(g.size@) as int);
    lemma_count_adj_nonneg(ms, g.size@, d, total(g.size@) as int);
    assert(count_adj(ms, g.size@, d, total(g.size@) as int) == 0);
    if g.cell_at(c).typ is Mine {
        let kc = flat(c, g.size@) as int;
        lemma_flat_bound(c, g.size@);
        lemma_unflat_flat(c, g.size@);
        assert(ms.contains(kc));
        assert(is_nbr(unflat(kc, g.size@), d));
        lemma_count_adj_pos(ms, g.size@, d, kc, total(g.size@) as int);
    }
}

/// Once the cascade is at rest — the origin open, every newly opened zero
/// cell's neighbors open or flagged — each flood-fill path from the origin
/// to an unflagged cell ends on an opened cell.
proof fn lemma_cascade_complete(g0: Game, cur: Seq<Cell>, o: Seq<usize>, p: Seq<Seq<usize>>)
    requires
        g0.wf(),
        cur.len() == g0.cells@.len(),
        g0.cells@.len() == total(g0.size@),
        in_box(o, g0.size@),
        forall|k: int| 0 <= k < cur.len() ==> (#[trigger] cur[k]).typ == g0.cells@[k].typ,
        forall|k: int| 0 <= k < cur.len() ==> (#[trigger] cur[k]).flagged == g0.cells@[k].flagged,
        forall|k: int| 0 <= k < cur.len() && (#[trigger] g0.cells@[k]).opened ==> cur[k].opened,
        forall|k: int, c: Seq<usize>|
            #![trigger is_nbr(c, unflat(k, g0.size@))]
            0 <= k < cur.len() && (cur[k]).opened && !(g0.cells@[k]).opened && cur[k].typ
                == CellType::Number(0usize) && in_box(c, g0.size@) && is_nbr(
                c,
                unflat(k, g0.size@),
            ) ==> cur[flat(c, g0.size@) as int].opened || g0.cells@[flat(
                c,
                g0.size@,
            ) as int].flagged,
        cur[flat(o, g0.size@) as int].opened,
        chain_ok(g0, p),
        p[0] == o,
        !g0.cell_at(p.last()).flagged,
    ensures
        cur[flat(p.last(), g0.size@) as int].opened,
    decreases p.len(),
{
    if p.len() == 1 {
        assert(p.last() == o);
    } else {
        let q = p.drop_last();
        let d = q.last();
        assert(d == p[p.len() - 2]);
        assert(expands(g0, d));
        assert forall|k: int| 0 <= k < q.len() implies in_box(#[trigger] q[k], g0.size@) by {
            assert(q[k] == p[k]);
        }
        assert forall|k: int| 0 <= k < q.len() - 1 implies is_nbr(q[k + 1], #[trigger] q[k]) by {
            assert(q[k] == p[k] && q[k + 1] == p[k + 1]);
        }
        assert forall|k: int| 0 <= k < q.len() - 1 implies expands(g0, #[trigger] q[k]) by {
            assert(q[k] == p[k]);
        }
        assert(chain_ok(g0, q));
        lemma_cascade_complete(g0, cur, o, q);
        let kd = flat(d, g0.size@) as int;
        lemma_flat_bound(d, g0.size@);
        lemma_unflat_flat(d, g0.size@);
        let c = p.last();
        lemma_flat_bound(c, g0.size@);
        assert(is_nbr(c, unflat(kd, g0.size@)));
        assert(cur[kd].opened && !g0.cells@[kd].opened);
        assert(cur[kd].typ == CellType::Number(0usize));
        assert(cur[flat(c, g0.size@) as int].opened || g0.cells@[flat(
            c,
            g0.size@,
        ) as int].flagged);
    }
}

/// A shape and mine count the engine accepts: at least one axis, every axis
/// positive, a cell count the machine can hold, and fewer mines than cells.
pub open spec fn valid_config(size: Seq<usize>, mines: usize) -> bool {
    &&& size.len() >= 1
    &&& (forall|i: int| 0 <= i < size.len() ==> #[trigger] size[i] >= 1)
    &&& total(size) <= usize::MAX
    &&& (mines as nat) < total(size)
}

/// Exactly what construction yields: a well-formed `Normal` game over the
/// given shape, cursor at the origin, nothing dirty, no cell opened or
/// flagged, exactly `mines` mines, laid out as the seed dictates.
pub open spec fn fresh_game(g: Game, size: Seq<usize>, mines: usize, s: u64) -> bool {
    &&& g.wf()
    &&& g.size@ == size
    &&& g.state is Normal
    &&& g.selected@.len() == size.len()
    &&& (forall|i: int| 0 <= i < size.len() ==> #[trigger] g.selected@[i] == 0)
    &&& g.updated_cells@.len() == 0
    &&& g.cells@.len() == total(size)
    &&& (forall|k: int|
        0 <= k < g.cells@.len() ==> !(#[trigger] g.cells@[k]).flagged && !g.cells@[k].opened)
    &&& count_mines(g.cells@, g.cells@.len() as int) == mines as int
    &&& mine_set(g.cells@) == mines_after(size, mines as nat, s).0
    &&& g.rng.state == mines_after(size, mines as nat, s).1
}

/// While the cascade runs: kinds and flags still read as in the pre-state
/// `g0`, and no opened cell has closed again.
#[verifier::opaque]
pub open spec fn marks_ok(g0: Game, cur: Seq<Cell>) -> bool {
    &&& cur.len() == g0.cells@.len()
    &&& (forall|k: int| 0 <= k < cur.len() ==> (#[trigger] cur[k]).typ == g0.cells@[k].typ)
    &&& (forall|k: int| 0 <= k < cur.len() ==> (#[trigger] cur[k]).flagged == g0.cells@[k].flagged)
    &&& (forall|k: int| 0 <= k < cur.len() && (#[trigger] g0.cells@[k]).opened ==> cur[k].opened)
}

/// While the cascade runs: every cell opened so far is one the cascade
/// opens.
#[verifier::opaque]
pub open spec fn opened_sound(g0: Game, o: Seq<usize>, cur: Seq<Cell>) -> bool {
    forall|k: int|
        0 <= k < cur.len() && (#[trigger] cur[k]).opened && !g0.cells@[k].opened ==> cascade_opens(
            g0,
            o,
            unflat(k, g0.size@),
        )
}

/// While the cascade runs: every pending coordinate lies on the board and
/// is touched by the cascade.
#[verifier::opaque]
pub open spec fn work_ok(g0: Game, o: Seq<usize>, work: Seq<Vec<usize>>) -> bool {
    forall|j: int|
        0 <= j < work.len() ==> in_box((#[trigger] work[j])@, g0.size@) && reaches(
            g0,
            o,
            (work[j])@,
        )
}

/// While the cascade runs: each neighbor of a newly opened zero cell is
/// already open, was flagged, or still waits in the work list.
#[verifier::opaque]
pub open spec fn closure_ok(g0: Game, cur: Seq<Cell>, work: Seq<Vec<usize>>) -> bool {
    forall|k: int, c: Seq<usize>|
        #![trigger is_nbr(c, unflat(k, g0.size@))]
        0 <= k < cur.len() && (cur[k]).opened && !(g0.cells@[k]).opened && cur[k].typ
            == CellType::Number(0usize) && in_box(c, g0.size@) && is_nbr(c, unflat(k, g0.size@))
            ==> cur[flat(c, g0.size@) as int].opened || g0.cells@[flat(c, g0.size@) as int].flagged
            || in_list(work, c)
}

/// While the cascade runs: the dirty list keeps its old entries and grew by
/// exactly the newly opened coordinates, each once.
#[verifier::opaque]
pub open spec fn dirty_ok(g0: Game, cur: Seq<Cell>, upd: Seq<Vec<usize>>) -> bool {
    let dl = g0.updated_cells@.len() as int;
    &&& upd.len() >= dl
    &&& (forall|j: int| 0 <= j < dl ==> upd[j] == #[trigger] g0.updated_cells@[j])
    &&& (forall|j: int|
        dl <= j < upd.len() ==> in_box((#[trigger] upd[j])@, g0.size@) && cur[flat(
            (upd[j])@,
            g0.size@,
        ) as int].opened && !g0.cells@[flat((upd[j])@, g0.size@) as int].opened)
    &&& (forall|k: int|
        0 <= k < cur.len() && (#[trigger] cur[k]).opened && !g0.cells@[k].opened ==> exists|j: int|
            dl <= j < upd.len() && (#[trigger] upd[j])@ == unflat(k, g0.size@))
    &&& (forall|j1: int, j2: int|
        dl <= j1 < j2 < upd.len() ==> (#[trigger] upd[j1])@ != (#[trigger] upd[j2])@)
}

/// Opening one pending unflagged, unopened cell keeps the marks frame, the
/// soundness of the opened set, and the dirty bookkeeping.
proof fn lemma_open_cell(
    g0: Game,
    o: Seq<usize>,
    cur0: Seq<Cell>,
    cur1: Seq<Cell>,
    cc: Seq<usize>,
    upd0: Seq<Vec<usize>>,
    upd1: Seq<Vec<usize>>,
)
    requires
        in_box(cc, g0.size@),
        in_box(o, g0.size@),
        cur0.len() == g0.cells@.len(),
        g0.cells@.len() == total(g0.size@),
        marks_ok(g0, cur0),
        opened_sound(g0, o, cur0),
        dirty_ok(g0, cur0, upd0),
        reaches(g0, o, cc),
        !cur0[flat(cc, g0.size@) as int].opened,
        !cur0[flat(cc, g0.size@) as int].flagged,
        cur1 == cur0.update(
            flat(cc, g0.size@) as int,
            Cell {
                typ: cur0[flat(cc, g0.size@) as int].typ,
                flagged: cur0[flat(cc, g0.size@) as int].flagged,
                opened: true,
            },
        ),
        upd1.len() == upd0.len() + 1,
        forall|j: int| 0 <= j < upd0.len() ==> upd1[j] == #[trigger] upd0[j],
        (upd1.last())@ == cc,
    ensures
        marks_ok(g0, cur1),
        opened_sound(g0, o, cur1),
        dirty_ok(g0, cur1, upd1),
        count_unopened(cur1, cur1.len() as int) == count_unopened(cur0, cur0.len() as int) - 1,
        cascade_opens(g0, o, cc),
        cur1[flat(cc, g0.size@) as int].typ == CellType::Number(0usize) ==> expands(g0, cc),
{
    reveal(marks_ok);
    reveal(opened_sound);
    reveal(dirty_ok);
    let kc = flat(cc, g0.size@) as int;
    lemma_flat_bound(cc, g0.size@);
    lemma_unflat_flat(cc, g0.size@);
    lemma_count_unopened_update(cur0, kc, cur1[kc], cur0.len() as int);
    assert(cascade_opens(g0, o, cc));
    assert forall|k: int|
        0 <= k < cur1.len() && (#[trigger] cur1[k]).opened && !g0.cells@[k].opened
        implies cascade_opens(g0, o, unflat(k, g0.size@)) by {
        if k != kc {
            assert(cur0[k].opened);
        }
    }
    let dl = g0.updated_cells@.len() as int;
    assert forall|j: int|
        dl <= j < upd1.len() implies in_box((#[trigger] upd1[j])@, g0.size@) && cur1[flat(
        (upd1[j])@,
        g0.size@,
    ) as int].opened && !g0.cells@[flat((upd1[j])@, g0.size@) as int].opened by {
        if j < upd0.len() {
            assert(upd1[j] == upd0[j]);
            lemma_flat_bound((upd0[j])@, g0.size@);
            assert(cur0[flat((upd0[j])@, g0.size@) as int].opened);
        } else {
            assert((upd1[j])@ == cc);
            assert(!g0.cells@[kc].opened);
        }
    }
    assert forall|k: int|
        0 <= k < cur1.len() && (#[trigger] cur1[k]).opened && !g0.cells@[k].opened
        implies exists|j: int|
        dl <= j < upd1.len() && (#[trigger] upd1[j])@ == unflat(k, g0.size@) by {
        if k == kc {
            assert((upd1[upd1.len() - 1])@ == unflat(k, g0.size@));
        } else {
            assert(cur0[k].opened);
            let j = choose|j: int|
                dl <= j < upd0.len() && (#[trigger] upd0[j])@ == unflat(k, g0.size@);
            assert((upd1[j])@ == unflat(k, g0.size@));
        }
    }
    assert forall|j1: int, j2: int|
        dl <= j1 < j2 < upd1.len() implies (#[trigger] upd1[j1])@ != (#[trigger] upd1[j2])@ by {
        if j2 == upd1.len() - 1 {
            assert(upd1[j1] == upd0[j1]);
            lemma_flat_bound((upd0[j1])@, g0.size@);
            assert(cur0[flat((upd0[j1])@, g0.size@) as int].opened);
            assert(!cur0[kc].opened);
        } else {
            assert(upd1[j1] == upd0[j1] && upd1[j2] == upd0[j2]);
        }
    }
}

/// Dropping a pending coordinate that turned out open or flagged keeps the
/// closure and the origin's coverage.
proof fn lemma_step_skip(g0: Game, o: Seq<usize>, cur: Seq<Cell>, w0: Seq<Vec<usize>>)
    requires
        in_box(o, g0.size@),
        cur.len() == g0.cells@.len(),
        g0.cells@.len() == total(g0.size@),
        marks_ok(g0, cur),
        closure_ok(g0, cur, w0),
        w0.len() >= 1,
        in_box((w0.last())@, g0.size@),
        cur[flat((w0.last())@, g0.size@) as int].opened || cur[flat(
            (w0.last())@,
            g0.size@,
        ) as int].flagged,
        cur[flat(o, g0.size@) as int].opened || in_list(w0, o),
        !g0.cell_at(o).flagged,
    ensures
        closure_ok(g0, cur, w0.drop_last()),
        cur[flat(o, g0.size@) as int].opened || in_list(w0.drop_last(), o),
{
    reveal(marks_ok);
    reveal(closure_ok);
    let cc = (w0.last())@;
    let w1 = w0.drop_last();
    assert forall|k: int, c: Seq<usize>|
        #![trigger is_nbr(c, unflat(k, g0.size@))]
        0 <= k < cur.len() && (cur[k]).opened && !(g0.cells@[k]).opened && cur[k].typ
            == CellType::Number(0usize) && in_box(c, g0.size@) && is_nbr(c, unflat(k, g0.size@))
        implies cur[flat(c, g0.size@) as int].opened || g0.cells@[flat(
        c,
        g0.size@,
    ) as int].flagged || in_list(w1, c) by {
        lemma_flat_bound(c, g0.size@);
        if !(cur[flat(c, g0.size@) as int].opened || g0.cells@[flat(c, g0.size@) as int].flagged) {
            assert(in_list(w0, c));
            let j = choose|j: int| 0 <= j < w0.len() && (#[trigger] w0[j])@ == c;
            if j < w0.len() - 1 {
                assert((w1[j])@ == c);
            } else {
                assert(c == cc);
                assert(cur[flat(c, g0.size@) as int].flagged == g0.cells@[flat(
                    c,
                    g0.size@,
                ) as int].flagged);
            }
        }
    }
    if !cur[flat(o, g0.size@) as int].opened {
        lemma_flat_bound(o, g0.size@);
        assert(in_list(w0, o));
        let j = choose|j: int| 0 <= j < w0.len() && (#[trigger] w0[j])@ == o;
        if j < w0.len() - 1 {
            assert((w1[j])@ == o);
        } else {
            assert(o == cc);
            assert(cur[flat(o, g0.size@) as int].flagged == g0.cell_at(o).flagged);
        }
    }
}

/// Opening a zero cell and queuing its whole neighborhood restores the
/// closure; opening any other number needs no queuing at all.
proof fn lemma_step_open(
    g0: Game,
    o: Seq<usize>,
    cur0: Seq<Cell>,
    cur1: Seq<Cell>,
    cc: Seq<usize>,
    w0: Seq<Vec<usize>>,
    w2: Seq<Vec<usize>>,
    nbrs: Seq<Vec<usize>>,
)
    requires
        in_box(o, g0.size@),
        in_box(cc, g0.size@),
        cur0.len() == g0.cells@.len(),
        g0.cells@.len() == total(g0.size@),
        marks_ok(g0, cur0),
        closure_ok(g0, cur0, w0),
        w0.len() >= 1,
        (w0.last())@ == cc,
        !cur0[flat(cc, g0.size@) as int].opened,
        cur1 == cur0.update(
            flat(cc, g0.size@) as int,
            Cell {
                typ: cur0[flat(cc, g0.size@) as int].typ,
                flagged: cur0[flat(cc, g0.size@) as int].flagged,
                opened: true,
            },
        ),
        cur0[flat(o, g0.size@) as int].opened || in_list(w0, o),
        w2.len() >= w0.len() - 1,
        forall|j: int| 0 <= j < w0.len() - 1 ==> w2[j] == #[trigger] w0[j],
        cur1[flat(cc, g0.size@) as int].typ == CellType::Number(0usize) ==> {
            &&& (forall|t: int| 0 <= t < nbrs.len() ==> in_list(w2, (#[trigger] nbrs[t])@))
            &&& (forall|c2: Seq<usize>|
                in_box(c2, g0.size@) && is_nbr(c2, cc) ==> exists|t: int|
                    0 <= t < nbrs.len() && (#[trigger] nbrs[t])@ == c2)
        },
    ensures
        closure_ok(g0, cur1, w2),
        cur1[flat(o, g0.size@) as int].opened || in_list(w2, o),
{
    reveal(marks_ok);
    reveal(closure_ok);
    let kc = flat(cc, g0.size@) as int;
    lemma_flat_bound(cc, g0.size@);
    lemma_unflat_flat(cc, g0.size@);
    assert forall|k: int, c: Seq<usize>|
        #![trigger is_nbr(c, unflat(k, g0.size@))]
        0 <= k < cur1.len() && (cur1[k]).opened && !(g0.cells@[k]).opened && cur1[k].typ
            == CellType::Number(0usize) && in_box(c, g0.size@) && is_nbr(c, unflat(k, g0.size@))
        implies cur1[flat(c, g0.size@) as int].opened || g0.cells@[flat(
        c,
        g0.size@,
    ) as int].flagged || in_list(w2, c) by {
        lemma_flat_bound(c, g0.size@);
        if k == kc {
            assert(is_nbr(c, cc));
            let t = choose|t: int| 0 <= t < nbrs.len() && (#[trigger] nbrs[t])@ == c;
            assert(in_list(w2, c));
        } else {
            assert(cur0[k] == cur1[k]);
            if !(cur0[flat(c, g0.size@) as int].opened || g0.cells@[flat(
                c,
                g0.size@,
            ) as int].flagged) {
                assert(in_list(w0, c));
                let j = choose|j: int| 0 <= j < w0.len() && (#[trigger] w0[j])@ == c;
                if j < w0.len() - 1 {
                    assert((w2[j])@ == c);
                } else {
                    assert(c == cc);
                    assert(cur1[flat(c, g0.size@) as int].opened);
                }
            } else {
                if cur0[flat(c, g0.size@) as int].opened {
                    assert(cur1[flat(c, g0.size@) as int].opened);
                }
            }
        }
    }
    if !cur1[flat(o, g0.size@) as int].opened {
        lemma_flat_bound(o, g0.size@);
        assert(!cur0[flat(o, g0.size@) as int].opened);
        assert(in_list(w0, o));
        let j = choose|j: int| 0 <= j < w0.len() && (#[trigger] w0[j])@ == o;
        if j < w0.len() - 1 {
            assert((w2[j])@ == o);
        } else {
            assert(o == cc);
            assert(cur1[kc].opened);
        }
    }
}

/// When the work list is spent, the opened set is exactly the cascade, the
/// dirty suffix lists it exactly, and clearing the board now is the same as
/// the cascade having cleared it.
proof fn lemma_cascade_post(g0: Game, o: Seq<usize>, cur: Seq<Cell>, upd: Seq<Vec<usize>>)
    requires
        g0.wf(),
        in_box(o, g0.size@),
        cur.len() == g0.cells@.len(),
        marks_ok(g0, cur),
        opened_sound(g0, o, cur),
        closure_ok(g0, cur, Seq::<Vec<usize>>::empty()),
        dirty_ok(g0, cur, upd),
        cur[flat(o, g0.size@) as int].opened,
        !g0.cell_at(o).flagged,
    ensures
        forall|k: int| 0 <= k < cur.len() ==> (#[trigger] cur[k]).typ == g0.cells@[k].typ,
        forall|k: int| 0 <= k < cur.len() ==> (#[trigger] cur[k]).flagged == g0.cells@[k].flagged,
        forall|k: int|
            0 <= k < cur.len() ==> ((#[trigger] cur[k]).opened <==> g0.cells@[k].opened
                || cascade_opens(g0, o, unflat(k, g0.size@))),
        forall|j: int|
            g0.updated_cells@.len() <= j < upd.len() ==> cascade_opens(
                g0,
                o,
                (#[trigger] upd[j])@,
            ),
        forall|c: Seq<usize>|
            #![trigger cascade_opens(g0, o, c)]
            cascade_opens(g0, o, c) ==> exists|j: int|
                g0.updated_cells@.len() <= j < upd.len() && (#[trigger] upd[j])@ == c,
        upd.len() >= g0.updated_cells@.len(),
        forall|j: int|
            0 <= j < g0.updated_cells@.len() ==> upd[j] == #[trigger] g0.updated_cells@[j],
        forall|j1: int, j2: int|
            g0.updated_cells@.len() <= j1 < j2 < upd.len() ==> (#[trigger] upd[j1])@ != (
            #[trigger] upd[j2])@,
        (forall|k: int|
            0 <= k < cur.len() ==> (#[trigger] cur[k]).opened || cur[k].typ is Mine) <==> (
        forall|k: int|
            0 <= k < g0.cells@.len() ==> (#[trigger] g0.cells@[k]).typ is Mine
                || g0.cells@[k].opened || cascade_opens(g0, o, unflat(k, g0.size@))),
{
    reveal(marks_ok);
    reveal(opened_sound);
    reveal(closure_ok);
    reveal(dirty_ok);
    assert forall|k: int|
        0 <= k < cur.len() && cascade_opens(g0, o, unflat(k, g0.size@)) implies (
    #[trigger] cur[k]).opened by {
        lemma_unflat(k, g0.size@);
        let c = unflat(k, g0.size@);
        if !g0.cells@[k].opened {
            let p = choose|p: Seq<Seq<usize>>| chain_ok(g0, p) && p[0] == o && p.last() == c;
            assert(in_list(Seq::<Vec<usize>>::empty(), c) == false);
            lemma_cascade_complete(g0, cur, o, p);
        }
    }
    let dl = g0.updated_cells@.len() as int;
    assert forall|j: int|
        dl <= j < upd.len() implies cascade_opens(g0, o, (#[trigger] upd[j])@) by {
        let e = (upd[j])@;
        lemma_flat_bound(e, g0.size@);
        lemma_unflat_flat(e, g0.size@);
        let k = flat(e, g0.size@) as int;
        assert(cur[k].opened && !g0.cells@[k].opened);
        assert(cascade_opens(g0, o, unflat(k, g0.size@)));
    }
    assert forall|c: Seq<usize>|
        #![trigger cascade_opens(g0, o, c)]
        cascade_opens(g0, o, c) implies exists|j: int|
        dl <= j < upd.len() && (#[trigger] upd[j])@ == c by {
        let k = flat(c, g0.size@) as int;
        lemma_flat_bound(c, g0.size@);
        lemma_unflat_flat(c, g0.size@);
        assert(cascade_opens(g0, o, unflat(k, g0.size@)));
        assert(cur[k].opened && !g0.cells@[k].opened);
    }
    if forall|k: int| 0 <= k < cur.len() ==> (#[trigger] cur[k]).opened || cur[k].typ is Mine {
        assert forall|k: int|
            0 <= k < g0.cells@.len() implies (#[trigger] g0.cells@[k]).typ is Mine
            || g0.cells@[k].opened || cascade_opens(g0, o, unflat(k, g0.size@)) by {
            assert(cur[k].opened || cur[k].typ is Mine);
        }
    }
}

/// At the cascade's start nothing has been opened or recorded yet, and only
/// the origin is pending.
proof fn lemma_cascade_init(g0: Game, o: Seq<usize>, w: Seq<Vec<usize>>)
    requires
        g0.wf(),
        in_box(o, g0.size@),
        w.len() == 1,
        (w[0])@ == o,
    ensures
        marks_ok(g0, g0.cells@),
        opened_sound(g0, o, g0.cells@),
        work_ok(g0, o, w),
        closure_ok(g0, g0.cells@, w),
        dirty_ok(g0, g0.cells@, g0.updated_cells@),
{
    reveal(marks_ok);
    reveal(opened_sound);
    reveal(work_ok);
    reveal(closure_ok);
    reveal(dirty_ok);
    lemma_reach_self(g0, o);
}

/// A pending coordinate popped off the work list lies on the board and is
/// touched by the cascade; the rest stays a valid work list.
proof fn lemma_work_pop(g0: Game, o: Seq<usize>, w: Seq<Vec<usize>>)
    requires
        work_ok(g0, o, w),
        w.len() >= 1,
    ensures
        work_ok(g0, o, w.drop_last()),
        in_box((w.last())@, g0.size@),
        reaches(g0, o, (w.last())@),
{
    reveal(work_ok);
    assert(w[w.len() - 1] == w.last());
    assert forall|j: int|
        0 <= j < w.drop_last().len() implies in_box(
        (#[trigger] w.drop_last()[j])@,
        g0.size@,
    ) && reaches(g0, o, (w.drop_last()[j])@) by {
        assert(w.drop_last()[j] == w[j]);
    }
}

/// Queuing one more coordinate the cascade touches keeps the work list
/// valid.
proof fn lemma_work_push(g0: Game, o: Seq<usize>, w: Seq<Vec<usize>>, e: Vec<usize>)
    requires
        work_ok(g0, o, w),
        in_box(e@, g0.size@),
        reaches(g0, o, e@),
    ensures
        work_ok(g0, o, w.push(e)),
{
    reveal(work_ok);
    assert forall|j: int|
        0 <= j < w.push(e).len() implies in_box((#[trigger] w.push(e)[j])@, g0.size@) && reaches(
        g0,
        o,
        (w.push(e)[j])@,
    ) by {
        if j < w.len() {
            assert(w.push(e)[j] == w[j]);
        } else {
            assert(w.push(e)[j] == e);
        }
    }
}

/// The dirty list grew by exactly the selected coordinate.
pub open spec fn dirty_extended_by_selected(pre: Game, post: Game) -> bool {
    &&& post.updated_cells@.len() == pre.updated_cells@.len() + 1
    &&& (forall|j: int|
        0 <= j < pre.updated_cells@.len() ==> post.updated_cells@[j] == #[trigger] pre.updated_cells@[j])
    &&& post.updated_cells@.last()@ == pre.selected@
}

/// The dirty list grew by exactly the cells the cascade opened, each once.
pub open spec fn dirty_extended_by_cascade(pre: Game, post: Game) -> bool {
    let pl = pre.updated_cells@.len() as int;
    let u = post.updated_cells@;
    &&& u.len() >= pl
    &&& (forall|j: int| 0 <= j < pl ==> u[j] == #[trigger] pre.updated_cells@[j])
    &&& (forall|j: int|
        pl <= j < u.len() ==> cascade_opens(pre, pre.selected@, (#[trigger] u[j])@))
    &&& (forall|c: Seq<usize>|
        #![trigger cascade_opens(pre, pre.selected@, c)]
        cascade_opens(pre, pre.selected@, c) ==> exists|j: int|
            pl <= j < u.len() && (#[trigger] u[j])@ == c)
    &&& (forall|j1: int, j2: int|
        pl <= j1 < j2 < u.len() ==> (#[trigger] u[j1])@ != (#[trigger] u[j2])@)
}

/// Exactly what one `open` call does, by cases on the selected cell: a
/// flagged or opened selection is a no-op; a mine kills the game and
/// reveals the board; anything else opens exactly what the cascade reaches,
/// then wins — and reveals — precisely when that leaves no non-mine cell
/// closed. Kinds never change; the cursor and generator never move.
pub open spec fn open_step(pre: Game, post: Game) -> bool {
    let o = pre.selected@;
    let c0 = pre.cell_at(o);
    &&& post.size@ == pre.size@
    &&& post.selected@ == pre.selected@
    &&& post.rng == pre.rng
    &&& post.cells@.len() == pre.cells@.len()
    &&& (forall|k: int|
        0 <= k < post.cells@.len() ==> (#[trigger] post.cells@[k]).typ == pre.cells@[k].typ)
    &&& ((c0.flagged || c0.opened) ==> post == pre)
    &&& ((!c0.flagged && !c0.opened && c0.typ is Mine) ==> {
        &&& post.state is Dead
        &&& post.all_revealed()
        &&& dirty_extended_by_selected(pre, post)
    })
    &&& ((!c0.flagged && !c0.opened && !(c0.typ is Mine)) ==> {
        &&& (post.state is Won || post.state is Normal)
        &&& (post.state is Won <==> post.board_cleared())
        &&& (post.state is Won <==> (forall|k: int|
            0 <= k < pre.cells@.len() ==> (#[trigger] pre.cells@[k]).typ is Mine
                || pre.cells@[k].opened || cascade_opens(pre, o, unflat(k, pre.size@))))
        &&& (post.state is Normal ==> {
            &&& (forall|k: int|
                0 <= k < post.cells@.len() ==> ((#[trigger] post.cells@[k]).opened
                    <==> pre.cells@[k].opened || cascade_opens(pre, o, unflat(k, pre.size@))))
            &&& (forall|k: int|
                0 <= k < post.cells@.len() ==> (#[trigger] post.cells@[k]).flagged
                    == pre.cells@[k].flagged)
        })
        &&& (post.state is Won ==> post.all_revealed())
        &&& dirty_extended_by_cascade(pre, post)
    })
}

/// Exactly what one `flag` call does: the selected cell's flag toggled, the
/// cell recorded dirty, everything else unchanged.
pub open spec fn flag_step(pre: Game, post: Game) -> bool {
    let i = flat(pre.selected@, pre.size@) as int;
    &&& post.size@ == pre.size@
    &&& post.selected@ == pre.selected@
    &&& post.state == pre.state
    &&& post.rng == pre.rng
    &&& post.cells@ == pre.cells@.update(
        i,
        Cell {
            typ: pre.cells@[i].typ,
            flagged: !pre.cells@[i].flagged,
            opened: pre.cells@[i].opened,
        },
    )
    &&& post.updated_cells@.len() == pre.updated_cells@.len() + 1
    &&& (forall|j: int|
        0 <= j < pre.updated_cells@.len() ==> post.updated_cells@[j] == #[trigger] pre.updated_cells@[j])
    &&& post.updated_cells@.last()@ == pre.selected@
}

} // verus!
