use vstd::prelude::*;

use rand::Rng;

use crate::flood::{
    covered, fill_reaches, flagged_among, fresh_among, is_closed, is_fill_path, is_fresh,
    is_least_safe, lemma_covered_again, lemma_extend, lemma_fresh_among_prefix,
    lemma_only_discovers_maps, lemma_only_discovers_trans, lemma_path_discovered,
    lemma_reach_earlier, lemma_reach_later, lemma_reach_trans, lemma_stale_reaches_nothing, newly,
    only_discovers, only_flags,
};
use crate::grid::{
    at, blank, bomb_map, bombs_among, count_true, flag_map, hidden_map, in_bounds, init_blank_cell,
    is_adjacent, lemma_count_true_all_false, lemma_count_true_update, lemma_maps_put,
    lemma_neighbors, lemma_no_bombs_among, neighbors, put, shaped, Cell, Pos,
};
use crate::layout::{cell_at, find_column, find_row, lemma_cell_at_in_bounds};
use crate::theme::{
    get_theme, is_named_theme, next_palette, next_theme_name, palette_view, rotate_theme_color,
    rotate_theme_name, Theme,
};

verus! {

/// Where a game stands.
#[derive(Clone, Copy, Debug, PartialEq, Eq, Structural)]
pub enum GameCompletionStatus {
    GameIsOnGoing,
    CompletedAsWin,
    CompletedAsLost,
}

/// A game in play: the grid, its bomb and flag counters, the selection
/// cursor, the theme it is drawn with and the last known outcome.
pub struct Board {
    pub theme: Theme,
    pub size: (usize, usize),
    pub cells: Vec<Vec<Cell>>,
    pub number_of_bombs: usize,
    pub remaining_flags: usize,
    pub selected_cell: Option<(usize, usize)>,
    pub game_completion_status: GameCompletionStatus,
    pub need_to_draw: bool,
}

/// A covered cell without a bomb that has `m` bombs around it.
pub open spec fn is_least_candidate(g: Seq<Seq<Cell>>, m: u8, q: Pos) -> bool {
    &&& !at(g, q).is_bomb
    &&& !at(g, q).is_discovered
    &&& at(g, q).number_of_adjusted_bombs == m
}

/// Relies on rand's `Rng::gen_range` on the thread-local generator: a number
/// below `n` (it panics on an empty range, which `requires` rules out).
#[verifier::external_body]
fn random_below(n: usize) -> (r: usize)
    requires
        n > 0,
    ensures
        r < n,
{
    rand::thread_rng().gen_range(0..n)
}

impl Board {
    /// The grid as a sequence of rows.
    pub open spec fn grid(&self) -> Seq<Seq<Cell>> {
        self.cells@.map_values(|row: Vec<Cell>| row@)
    }

    pub open spec fn cell(&self, p: Pos) -> Cell {
        at(self.grid(), p)
    }

    /// Each cell's count is the number of bombs around it.
    pub open spec fn counts_match(&self) -> bool {
        forall|p: Pos|
            in_bounds(p, self.size) ==> (#[trigger] at(self.grid(), p)).number_of_adjusted_bombs
                == bombs_among(bomb_map(self.grid()), neighbors(p, self.size))
    }

    /// No cell is both discovered and flagged.
    pub open spec fn flags_exclusive(&self) -> bool {
        forall|p: Pos|
            in_bounds(p, self.size) ==> !((#[trigger] at(self.grid(), p)).is_discovered && at(
                self.grid(),
                p,
            ).is_flagged)
    }

    /// The board's invariant.
    pub open spec fn wf(&self) -> bool {
        &&& self.size.0 >= 1 && self.size.1 >= 1
        &&& shaped(self.grid(), self.size)
        &&& self.flags_exclusive()
        &&& self.counts_match()
        &&& count_true(bomb_map(self.grid())) == self.number_of_bombs
        &&& self.remaining_flags + count_true(flag_map(self.grid())) == self.number_of_bombs
        &&& match self.selected_cell {
            Some(p) => in_bounds(p, self.size),
            None => true,
        }
    }

    /// Number of flags on the board.
    pub open spec fn flag_count(&self) -> nat {
        count_true(flag_map(self.grid()))
    }

    /// Everything but the cells stays.
    pub open spec fn same_frame(&self, other: &Board) -> bool {
        &&& self.theme == other.theme
        &&& self.size == other.size
        &&& self.number_of_bombs == other.number_of_bombs
        &&& self.selected_cell == other.selected_cell
        &&& self.game_completion_status == other.game_completion_status
    }

    fn get_adjusted_indices(&self, p: (usize, usize)) -> (r: Vec<(usize, usize)>)
        requires
            in_bounds(p, self.size),
        ensures
            r@ == neighbors(p, self.size),
    {
        let (row, column) = p;
        let mut result: Vec<(usize, usize)> = Vec::new();
        // the row above
        if row > 0 {
            if column > 0 {
                result.push((row - 1, column - 1));
            }
            result.push((row - 1, column));
            if column + 1 < self.size.1 {
                result.push((row - 1, column + 1));
            }
        }
        // the two sides
        if column > 0 {
            result.push((row, column - 1));
        }
        if column + 1 < self.size.1 {
            result.push((row, column + 1));
        }
        // the row below
        if row + 1 < self.size.0 {
            if column > 0 {
                result.push((row + 1, column - 1));
            }
            result.push((row + 1, column));
            if column + 1 < self.size.1 {
                result.push((row + 1, column + 1));
            }
        }
        assert(result@ =~= neighbors(p, self.size));
        result
    }

    /// The grid after revealing `p` on `self`: the cells that the reveal
    /// reaches get discovered, nothing else changes.
    pub open spec fn revealed(&self, next: &Board, p: Pos) -> bool {
        &&& next.same_frame(self)
        &&& next.remaining_flags == self.remaining_flags
        &&& shaped(next.grid(), self.size)
        &&& only_discovers(self.grid(), next.grid(), self.size)
        &&& forall|q: Pos|
            in_bounds(q, self.size) ==> (#[trigger] at(next.grid(), q).is_discovered <==> (at(
                self.grid(),
                q,
            ).is_discovered || fill_reaches(self.grid(), self.size, p, q)))
    }

    /// Discovers the cell at `p`, and when no bomb lies around it, goes on
    /// with every fresh cell around it in turn, as far as the bomb-free area
    /// reaches. A discovered or flagged cell stays as it is.
    #[verifier::rlimit(60)]
    pub fn discover_cell(&mut self, p: (usize, usize))
        requires
            old(self).wf(),
            in_bounds(p, old(self).size),
        ensures
            final(self).wf(),
            old(self).revealed(final(self), p),
    {
        let ghost g0 = self.grid();
        let ghost size = self.size;
        assert(self.grid()[p.0 as int].len() == self.size.1);
        let c = self.cells[p.0][p.1];
        if c.is_discovered || c.is_flagged {
            proof {
                lemma_stale_reaches_nothing(g0, size, p);
                assert(only_discovers(g0, self.grid(), size));
            }
            return;
        }
        proof {
            let path = seq![p];
            assert(is_fill_path(g0, size, path) && path[0] == p && path.last() == p);
        }
        assert(c == self.cell(p));
        self.open_cell(p);
        let mut stack: Vec<(usize, usize)> = Vec::new();
        stack.push(p);
        while stack.len() > 0
            invariant
                self.same_frame(old(self)),
                self.remaining_flags == old(self).remaining_flags,
                self.size == size,
                shaped(self.grid(), size),
                self.flags_exclusive(),
                size.0 >= 1 && size.1 >= 1,
                only_discovers(g0, self.grid(), size),
                at(self.grid(), p).is_discovered,
                forall|q: Pos|
                    in_bounds(q, size) && newly(g0, self.grid(), q) ==> #[trigger] fill_reaches(
                        g0,
                        size,
                        p,
                        q,
                    ),
                forall|i: int|
                    0 <= i < stack.len() ==> in_bounds(#[trigger] stack@[i], size) && newly(
                        g0,
                        self.grid(),
                        stack@[i],
                    ),
                forall|q: Pos|
                    in_bounds(q, size) && newly(g0, self.grid(), q) && at(
                        self.grid(),
                        q,
                    ).number_of_adjusted_bombs == 0 && !stack@.contains(q) ==> #[trigger] is_closed(
                        self.grid(),
                        size,
                        q,
                    ),
            decreases 2 * count_true(hidden_map(self.grid())) + stack.len(),
        {
            let ghost before_pop = stack@;
            let m = stack.pop().unwrap();
            proof {
                assert(before_pop.last() == m);
                assert forall|q: Pos| before_pop.contains(q) && q != m implies stack@.contains(q) by {
                    let i = choose|i: int| 0 <= i < before_pop.len() && before_pop[i] == q;
                    assert(stack@[i] == q);
                }
            }
            assert(self.grid()[m.0 as int].len() == size.1);
            if self.cells[m.0][m.1].number_of_adjusted_bombs == 0 {
                let nbrs = self.get_adjusted_indices(m);
                proof {
                    lemma_neighbors(m, size);
                }
                let ghost bound = 2 * count_true(hidden_map(self.grid())) + stack.len();
                let mut j: usize = 0;
                while j < nbrs.len()
                    invariant
                        self.same_frame(old(self)),
                        self.remaining_flags == old(self).remaining_flags,
                        self.size == size,
                        shaped(self.grid(), size),
                        self.flags_exclusive(),
                        only_discovers(g0, self.grid(), size),
                        at(self.grid(), p).is_discovered,
                        in_bounds(m, size),
                        newly(g0, self.grid(), m),
                        at(self.grid(), m).number_of_adjusted_bombs == 0,
                        nbrs@ == neighbors(m, size),
                        forall|q: Pos| #[trigger]
                            neighbors(m, size).contains(q) <==> is_adjacent(m, q, size),
                        j <= nbrs.len(),
                        2 * count_true(hidden_map(self.grid())) + stack.len() <= bound,
                        forall|q: Pos|
                            in_bounds(q, size) && newly(g0, self.grid(), q) ==> #[trigger] fill_reaches(
                                g0,
                                size,
                                p,
                                q,
                            ),
                        forall|i: int|
                            0 <= i < stack.len() ==> in_bounds(#[trigger] stack@[i], size) && newly(
                                g0,
                                self.grid(),
                                stack@[i],
                            ),
                        forall|q: Pos|
                            in_bounds(q, size) && newly(g0, self.grid(), q) && at(
                                self.grid(),
                                q,
                            ).number_of_adjusted_bombs == 0 && !stack@.contains(q) && q != m
                                ==> #[trigger] is_closed(self.grid(), size, q),
                        forall|k: int|
                            0 <= k < j ==> at(self.grid(), #[trigger] nbrs@[k]).is_discovered || at(
                                self.grid(),
                                nbrs@[k],
                            ).is_flagged,
                    decreases nbrs.len() - j,
                {
                    let n = nbrs[j];
                    assert(nbrs@.contains(n));
                    assert(self.grid()[n.0 as int].len() == size.1);
                    let cn = self.cells[n.0][n.1];
                    assert(cn == at(self.grid(), n));
                    if !cn.is_discovered && !cn.is_flagged {
                        let ghost g = self.grid();
                        assert(at(g0, n).is_flagged == cn.is_flagged);
                        let ghost old_stack = stack@;
                        proof {
                            lemma_extend(g0, size, p, m, n);
                        }
                        self.open_cell(n);
                        stack.push(n);
                        proof {
                            let g1 = self.grid();
                            lemma_only_discovers_trans(g0, g, g1, size);
                            assert(stack@[stack@.len() - 1] == n);
                            assert forall|q: Pos|
                                in_bounds(q, size) && newly(g0, g1, q) && at(
                                    g1,
                                    q,
                                ).number_of_adjusted_bombs == 0 && !stack@.contains(q) && q != m
                                    implies #[trigger] is_closed(g1, size, q) by {
                                assert(q != n);
                                assert(!old_stack.contains(q)) by {
                                    if old_stack.contains(q) {
                                        let i = choose|i: int|
                                            0 <= i < old_stack.len() && old_stack[i] == q;
                                        assert(stack@[i] == q);
                                    }
                                }
                                assert(at(g1, q) == at(g, q));
                                assert(is_closed(g, size, q));
                                assert forall|x: Pos| #[trigger]
                                    is_adjacent(q, x, size) implies at(g1, x).is_discovered || at(
                                    g1,
                                    x,
                                ).is_flagged by {
                                    assert(is_adjacent(q, x, size));
                                }
                            }
                            assert forall|i: int|
                                0 <= i < stack.len() implies in_bounds(#[trigger] stack@[i], size)
                                && newly(g0, g1, stack@[i]) by {
                                if i < old_stack.len() {
                                    assert(stack@[i] == old_stack[i]);
                                }
                            }
                        }
                    }
                    j += 1;
                }
                proof {
                    let g = self.grid();
                    assert forall|x: Pos| #[trigger]
                        is_adjacent(m, x, size) implies at(g, x).is_discovered || at(
                        g,
                        x,
                    ).is_flagged by {
                        assert(neighbors(m, size).contains(x));
                        let k = choose|k: int| 0 <= k < nbrs@.len() && nbrs@[k] == x;
                    }
                    assert(is_closed(g, size, m));
                }
            }
        }
        proof {
            let g = self.grid();
            assert forall|q: Pos|
                in_bounds(q, size) && newly(g0, g, q) && at(g, q).number_of_adjusted_bombs == 0
                    implies #[trigger] is_closed(g, size, q) by {
                assert(!stack@.contains(q));
            }
            assert forall|q: Pos|
                in_bounds(q, size) implies (#[trigger] at(g, q).is_discovered <==> (at(
                    g0,
                    q,
                ).is_discovered || fill_reaches(g0, size, p, q))) by {
                if fill_reaches(g0, size, p, q) && !at(g0, q).is_discovered {
                    let path = choose|path: Seq<Pos>|
                        is_fill_path(g0, size, path) && path[0] == p && path.last() == q;
                    lemma_path_discovered(g0, g, size, path);
                }
            }
            old(self).lemma_discovered_wf(self);
        }
    }

    /// Discovering cells, with no cell both discovered and flagged, keeps
    /// the invariant.
    pub proof fn lemma_discovered_wf(&self, next: &Board)
        requires
            self.wf(),
            shaped(next.grid(), self.size),
            next.same_frame(self),
            next.remaining_flags == self.remaining_flags,
            only_discovers(self.grid(), next.grid(), self.size),
            next.flags_exclusive(),
        ensures
            next.wf(),
    {
        lemma_only_discovers_maps(self.grid(), next.grid(), self.size);
        assert forall|p: Pos| in_bounds(p, next.size) implies #[trigger] next.cell(
            p,
        ).number_of_adjusted_bombs == bombs_among(bomb_map(next.grid()), neighbors(p, next.size)) by {
            assert(at(next.grid(), p) == next.cell(p));
            assert(self.cell(p).number_of_adjusted_bombs == bombs_among(
                bomb_map(self.grid()),
                neighbors(p, self.size),
            ));
        }
    }

    /// The board after asking for the flag on `p` to be `flag`: a new flag
    /// takes one from the budget and is not placed when none is left; taking
    /// a flag away returns it to the budget.
    pub open spec fn flag_set(&self, next: &Board, p: Pos, flag: bool) -> bool {
        &&& next.same_frame(self)
        &&& if flag && self.remaining_flags == 0 {
            &&& next.grid() == self.grid()
            &&& next.remaining_flags == 0
        } else {
            &&& next.grid() == put(self.grid(), p, Cell { is_flagged: flag, ..self.cell(p) })
            &&& next.remaining_flags == if flag {
                self.remaining_flags - 1
            } else {
                self.remaining_flags + 1
            }
        }
    }

    /// Puts a flag on `p` or takes it away. Placing one when the budget is
    /// spent does nothing.
    pub fn set_cell_flag(&mut self, p: (usize, usize), flag: bool)
        requires
            old(self).wf(),
            in_bounds(p, old(self).size),
            old(self).cell(p).is_flagged != flag,
            flag ==> !old(self).cell(p).is_discovered,
        ensures
            final(self).wf(),
            old(self).flag_set(final(self), p, flag),
    {
        assert(self.grid()[p.0 as int].len() == self.size.1);
        let c = self.cells[p.0][p.1];
        assert(c == self.cell(p));
        self.need_to_draw = true;
        if flag && self.remaining_flags == 0 {
            return;
        }
        let x = Cell { is_flagged: flag, ..c };
        let ghost g0 = self.grid();
        proof {
            lemma_maps_put(g0, p, x);
            lemma_count_true_update(flag_map(g0), p, flag);
            assert(put(bomb_map(g0), p, c.is_bomb) =~~= bomb_map(g0));
        }
        self.put_cell(p, x);
        if flag {
            self.remaining_flags = self.remaining_flags - 1;
        } else {
            self.remaining_flags = self.remaining_flags + 1;
        }
        proof {
            let g = self.grid();
            assert forall|q: Pos| in_bounds(q, self.size) implies {
                &&& !((#[trigger] at(g, q)).is_discovered && at(g, q).is_flagged)
                &&& at(g, q).number_of_adjusted_bombs == bombs_among(
                    bomb_map(g),
                    neighbors(q, self.size),
                )
            } by {
                assert(at(g0, q).number_of_adjusted_bombs == bombs_among(
                    bomb_map(g0),
                    neighbors(q, self.size),
                ));
                if q != p {
                    assert(at(g, q) == at(g0, q));
                }
            }
        }
    }

    /// The board after chording on `p`, with `nb` the cells around it: when
    /// the flags around `p` match its count, every cell around it is
    /// revealed; when the covered, unflagged cells around it must all be
    /// bombs, they get flagged as long as flags are left; otherwise nothing
    /// happens.
    pub open spec fn chorded(&self, next: &Board, p: Pos) -> bool {
        let g = self.grid();
        let nb = neighbors(p, self.size);
        let count = self.cell(p).number_of_adjusted_bombs as nat;
        &&& next.same_frame(self)
        &&& shaped(next.grid(), self.size)
        &&& if count == flagged_among(g, nb) {
            &&& next.remaining_flags == self.remaining_flags
            &&& only_discovers(g, next.grid(), self.size)
            &&& forall|q: Pos|
                in_bounds(q, self.size) ==> (#[trigger] at(next.grid(), q).is_discovered <==> (
                at(g, q).is_discovered || exists|k: int|
                    0 <= k < nb.len() && fill_reaches(g, self.size, #[trigger] nb[k], q)))
        } else if count == flagged_among(g, nb) + fresh_among(g, nb) {
            &&& only_flags(g, next.grid(), self.size)
            &&& forall|q: Pos|
                in_bounds(q, self.size) && #[trigger] at(next.grid(), q).is_flagged && !at(
                    g,
                    q,
                ).is_flagged ==> nb.contains(q) && is_fresh(at(g, q))
            &&& forall|k: int|
                0 <= k < nb.len() && is_fresh(at(g, #[trigger] nb[k])) ==> at(
                    next.grid(),
                    nb[k],
                ).is_flagged || next.remaining_flags == 0
            &&& self.remaining_flags >= fresh_among(g, nb) ==> {
                &&& next.remaining_flags + fresh_among(g, nb) == self.remaining_flags
                &&& forall|k: int|
                    0 <= k < nb.len() && is_fresh(at(g, #[trigger] nb[k])) ==> at(
                        next.grid(),
                        nb[k],
                    ).is_flagged
            }
        } else {
            &&& next.grid() == g
            &&& next.remaining_flags == self.remaining_flags
        }
    }

    /// Uses the count of a cell to settle the cells around it: reveals them
    /// all when enough flags surround it, or flags all the covered ones when
    /// they must all be bombs.
    #[verifier::rlimit(100)]
    pub fn discover_or_flag_adjusted_cells(&mut self, p: (usize, usize))
        requires
            old(self).wf(),
            in_bounds(p, old(self).size),
        ensures
            final(self).wf(),
            old(self).chorded(final(self), p),
    {
        let ghost g0 = self.grid();
        let ghost size = self.size;
        let adjusted_indices = self.get_adjusted_indices(p);
        proof {
            lemma_neighbors(p, size);
        }
        let mut number_of_unknown_adjusted_cells: usize = 0;
        let mut number_of_flagged_adjusted_cells: usize = 0;
        let mut i: usize = 0;
        while i < adjusted_indices.len()
            invariant
                self.wf(),
                self.grid() == g0,
                self.size == size,
                adjusted_indices@ == neighbors(p, size),
                adjusted_indices@.len() <= 8,
                forall|q: Pos| #[trigger] neighbors(p, size).contains(q) ==> in_bounds(q, size),
                i <= adjusted_indices.len(),
                number_of_unknown_adjusted_cells == fresh_among(g0, adjusted_indices@.take(i as int)),
                number_of_flagged_adjusted_cells == flagged_among(g0, adjusted_indices@.take(i as int)),
                number_of_unknown_adjusted_cells <= i,
                number_of_flagged_adjusted_cells <= i,
            decreases adjusted_indices.len() - i,
        {
            let n = adjusted_indices[i];
            assert(adjusted_indices@.contains(n));
            assert(self.grid()[n.0 as int].len() == size.1);
            let c = self.cells[n.0][n.1];
            assert(c == at(g0, n));
            assert(adjusted_indices@.take(i + 1).drop_last() =~= adjusted_indices@.take(i as int));
            if !c.is_discovered && !c.is_flagged {
                number_of_unknown_adjusted_cells += 1;
            }
            if c.is_flagged {
                number_of_flagged_adjusted_cells += 1;
            }
            i += 1;
        }
        assert(adjusted_indices@.take(i as int) =~= adjusted_indices@);
        assert(self.grid()[p.0 as int].len() == size.1);
        let count = self.cells[p.0][p.1].number_of_adjusted_bombs as usize;
        if count == number_of_flagged_adjusted_cells {
            let mut k: usize = 0;
            while k < adjusted_indices.len()
                invariant
                    self.wf(),
                    self.same_frame(old(self)),
                    self.remaining_flags == old(self).remaining_flags,
                    self.size == size,
                    adjusted_indices@ == neighbors(p, size),
                    forall|q: Pos| #[trigger] neighbors(p, size).contains(q) ==> in_bounds(q, size),
                    k <= adjusted_indices.len(),
                    only_discovers(g0, self.grid(), size),
                    forall|q: Pos|
                        in_bounds(q, size) ==> (#[trigger] at(self.grid(), q).is_discovered <==> (
                        at(g0, q).is_discovered || exists|j: int|
                            0 <= j < k && fill_reaches(g0, size, #[trigger] adjusted_indices@[j], q))),
                decreases adjusted_indices.len() - k,
            {
                let n = adjusted_indices[k];
                assert(adjusted_indices@.contains(n));
                let ghost b = *self;
                self.discover_cell(n);
                proof {
                    let gb = b.grid();
                    let g = self.grid();
                    lemma_only_discovers_trans(g0, gb, g, size);
                    assert forall|q: Pos| in_bounds(q, size) implies (#[trigger] at(
                        g,
                        q,
                    ).is_discovered <==> (at(g0, q).is_discovered || exists|j: int|
                        0 <= j < k + 1 && fill_reaches(g0, size, #[trigger] adjusted_indices@[j], q))) by {
                        if at(g, q).is_discovered && !at(gb, q).is_discovered {
                            assert(fill_reaches(gb, size, n, q));
                            lemma_reach_earlier(g0, gb, size, n, q);
                            assert(adjusted_indices@[k as int] == n);
                        }
                        if !at(gb, q).is_discovered && fill_reaches(g0, size, n, q) {
                            lemma_reach_later(g0, gb, size, n, q);
                            if !fill_reaches(gb, size, n, q) {
                                let x = choose|x: Pos|
                                    in_bounds(x, size) && #[trigger] newly(g0, gb, x) && at(
                                        g0,
                                        x,
                                    ).number_of_adjusted_bombs == 0 && fill_reaches(g0, size, x, q);
                                assert(at(gb, x).is_discovered);
                                let j = choose|j: int|
                                    0 <= j < k && fill_reaches(
                                        g0,
                                        size,
                                        #[trigger] adjusted_indices@[j],
                                        x,
                                    );
                                lemma_reach_trans(g0, size, adjusted_indices@[j], x, q);
                                assert(false);
                            }
                        }
                        if exists|j: int|
                            0 <= j < k + 1 && fill_reaches(g0, size, #[trigger] adjusted_indices@[j], q) {
                            let j = choose|j: int|
                                0 <= j < k + 1 && fill_reaches(
                                    g0,
                                    size,
                                    #[trigger] adjusted_indices@[j],
                                    q,
                                );
                            if j == k {
                                assert(adjusted_indices@[j] == n);
                            }
                        }
                    }
                }
                k += 1;
            }
        } else if count == number_of_flagged_adjusted_cells + number_of_unknown_adjusted_cells {
            let mut k: usize = 0;
            while k < adjusted_indices.len()
                invariant
                    self.wf(),
                    self.same_frame(old(self)),
                    self.size == size,
                    adjusted_indices@ == neighbors(p, size),
                    adjusted_indices@.no_duplicates(),
                    forall|q: Pos| #[trigger] neighbors(p, size).contains(q) ==> in_bounds(q, size),
                    k <= adjusted_indices.len(),
                    only_flags(g0, self.grid(), size),
                    forall|q: Pos|
                        in_bounds(q, size) && #[trigger] at(self.grid(), q).is_flagged && !at(
                            g0,
                            q,
                        ).is_flagged ==> exists|j: int|
                            0 <= j < k && adjusted_indices@[j] == q && is_fresh(at(g0, q)),
                    forall|j: int|
                        0 <= j < k && is_fresh(at(g0, #[trigger] adjusted_indices@[j])) ==> at(
                            self.grid(),
                            adjusted_indices@[j],
                        ).is_flagged || self.remaining_flags == 0,
                    old(self).remaining_flags >= fresh_among(g0, adjusted_indices@) ==> {
                        &&& self.remaining_flags + fresh_among(
                            g0,
                            adjusted_indices@.take(k as int),
                        ) == old(self).remaining_flags
                        &&& forall|j: int|
                            0 <= j < k && is_fresh(at(g0, #[trigger] adjusted_indices@[j])) ==> at(
                                self.grid(),
                                adjusted_indices@[j],
                            ).is_flagged
                    },
                decreases adjusted_indices.len() - k,
            {
                let n = adjusted_indices[k];
                assert(adjusted_indices@.contains(n));
                assert(self.grid()[n.0 as int].len() == size.1);
                let c = self.cells[n.0][n.1];
                assert(c == at(self.grid(), n));
                let ghost b = *self;
                proof {
                    assert(adjusted_indices@[k as int] == n);
                    assert(adjusted_indices@.take(k + 1).drop_last() =~= adjusted_indices@.take(
                        k as int,
                    ));
                    lemma_fresh_among_prefix(g0, adjusted_indices@, k + 1);
                    if at(self.grid(), n).is_flagged && !at(g0, n).is_flagged {
                        let j = choose|j: int|
                            0 <= j < k && adjusted_indices@[j] == n && is_fresh(at(g0, n));
                    }
                    assert(is_fresh(c) == is_fresh(at(g0, n)));
                }
                if !c.is_discovered && !c.is_flagged {
                    self.set_cell_flag(n, true);
                }
                proof {
                    let gb = b.grid();
                    let g = self.grid();
                    assert(adjusted_indices@[k as int] == n);
                    assert forall|q: Pos| in_bounds(q, size) && q != n implies #[trigger] at(g, q)
                        == at(gb, q) by {}
                    assert(forall|j: int|
                        0 <= j < k ==> #[trigger] adjusted_indices@[j] != n);
                }
                k += 1;
            }
            proof {
                assert forall|q: Pos|
                    in_bounds(q, size) && #[trigger] at(self.grid(), q).is_flagged && !at(
                        g0,
                        q,
                    ).is_flagged implies neighbors(p, size).contains(q) && is_fresh(at(g0, q)) by {
                    let j = choose|j: int|
                        0 <= j < k && adjusted_indices@[j] == q && is_fresh(at(g0, q));
                }
            }
        }
    }

    /// The board after the player acts on the cell `p`: a discovered cell is
    /// chorded; otherwise the main action takes a flag away or reveals, and
    /// the other action places a flag.
    pub open spec fn interacted(&self, next: &Board, p: Pos, alternate_key: bool) -> bool {
        if self.cell(p).is_discovered {
            self.chorded(next, p)
        } else if !alternate_key {
            if self.cell(p).is_flagged {
                self.flag_set(next, p, false)
            } else {
                self.revealed(next, p)
            }
        } else if !self.cell(p).is_flagged {
            self.flag_set(next, p, true)
        } else {
            self.unchanged(next)
        }
    }

    /// The cells, the flag budget and the frame are as they were.
    pub open spec fn unchanged(&self, next: &Board) -> bool {
        &&& next.same_frame(self)
        &&& next.grid() == self.grid()
        &&& next.remaining_flags == self.remaining_flags
    }

    /// Acts on the cell at `(row, column)`, as a click on it does.
    pub fn intract_with_cell(&mut self, row: usize, column: usize, alternate_key: bool)
        requires
            old(self).wf(),
            in_bounds((row, column), old(self).size),
        ensures
            final(self).wf(),
            old(self).interacted(final(self), (row, column), alternate_key),
    {
        assert(self.grid()[row as int].len() == self.size.1);
        let c = self.cells[row][column];
        assert(c == self.cell((row, column)));
        if c.is_discovered {
            // settle the cells around it, if its count allows
            self.discover_or_flag_adjusted_cells((row, column));
        } else {
            if !alternate_key {
                // discover, or take the flag away
                if c.is_flagged {
                    self.set_cell_flag((row, column), false);
                } else {
                    self.discover_cell((row, column));
                }
            } else {
                // flag the cell
                if !c.is_flagged {
                    self.set_cell_flag((row, column), true);
                }
            }
        }
    }

    /// Toggles the flag on the selected cell, if it is covered.
    pub fn flag_selected(&mut self)
        requires
            old(self).wf(),
        ensures
            final(self).wf(),
            match old(self).selected_cell {
                Some(p) => if old(self).cell(p).is_discovered {
                    old(self).unchanged(final(self))
                } else {
                    old(self).flag_set(final(self), p, !old(self).cell(p).is_flagged)
                },
                None => old(self).unchanged(final(self)),
            },
    {
        if let Some((r, c)) = self.selected_cell {
            assert(self.grid()[r as int].len() == self.size.1);
            let cell = self.cells[r][c];
            assert(cell == self.cell((r, c)));
            if !cell.is_discovered {
                let flag = !cell.is_flagged;
                self.set_cell_flag((r, c), flag);
                self.need_to_draw = true;
            }
        }
    }

    /// Acts on the selected cell with the main action.
    pub fn open_selected(&mut self)
        requires
            old(self).wf(),
        ensures
            final(self).wf(),
            match old(self).selected_cell {
                Some(p) => old(self).interacted(final(self), p, false),
                None => old(self).unchanged(final(self)),
            },
    {
        if let Some((r, c)) = self.selected_cell {
            self.intract_with_cell(r, c, false);
        }
    }

    /// Some bomb has been discovered.
    pub open spec fn is_lost(&self) -> bool {
        exists|q: Pos|
            in_bounds(q, self.size) && (#[trigger] at(self.grid(), q)).is_bomb && at(
                self.grid(),
                q,
            ).is_discovered
    }

    /// Every bomb carries a flag.
    pub open spec fn all_bombs_flagged(&self) -> bool {
        forall|q: Pos|
            in_bounds(q, self.size) && (#[trigger] at(self.grid(), q)).is_bomb ==> at(
                self.grid(),
                q,
            ).is_flagged
    }

    /// Every cell without a bomb is discovered.
    pub open spec fn all_safe_discovered(&self) -> bool {
        forall|q: Pos|
            in_bounds(q, self.size) && !(#[trigger] at(self.grid(), q)).is_bomb ==> at(
                self.grid(),
                q,
            ).is_discovered
    }

    /// Where the game stands, from the cells alone.
    pub open spec fn outcome(&self) -> GameCompletionStatus {
        if self.is_lost() {
            GameCompletionStatus::CompletedAsLost
        } else if self.all_bombs_flagged() || self.all_safe_discovered() {
            GameCompletionStatus::CompletedAsWin
        } else {
            GameCompletionStatus::GameIsOnGoing
        }
    }

    /// Scans the board: lost when a bomb is discovered, won when every bomb
    /// is flagged or every other cell discovered, on going otherwise.
    pub fn status(&self) -> (r: GameCompletionStatus)
        requires
            self.wf(),
        ensures
            r == self.outcome(),
    {
        let ghost g = self.grid();
        let mut bomb_without_flag = false;
        let mut covered_safe_cell = false;
        let mut row: usize = 0;
        while row < self.size.0
            invariant
                self.wf(),
                g == self.grid(),
                row <= self.size.0,
                forall|q: Pos|
                    q.0 < row && q.1 < self.size.1 ==> !((#[trigger] at(g, q)).is_bomb && at(
                        g,
                        q,
                    ).is_discovered),
                bomb_without_flag <==> exists|q: Pos|
                    q.0 < row && q.1 < self.size.1 && (#[trigger] at(g, q)).is_bomb && !at(
                        g,
                        q,
                    ).is_flagged,
                covered_safe_cell <==> exists|q: Pos|
                    q.0 < row && q.1 < self.size.1 && !(#[trigger] at(g, q)).is_bomb && !at(
                        g,
                        q,
                    ).is_discovered,
            decreases self.size.0 - row,
        {
            assert(g[row as int].len() == self.size.1);
            let mut column: usize = 0;
            while column < self.size.1
                invariant
                    self.wf(),
                    g == self.grid(),
                    row < self.size.0,
                    column <= self.size.1,
                    self.cells@[row as int]@.len() == self.size.1,
                    forall|q: Pos|
                        (q.0 < row && q.1 < self.size.1) || (q.0 == row && q.1 < column) ==> !((
                        #[trigger] at(g, q)).is_bomb && at(g, q).is_discovered),
                    bomb_without_flag <==> exists|q: Pos|
                        ((q.0 < row && q.1 < self.size.1) || (q.0 == row && q.1 < column)) && (
                        #[trigger] at(g, q)).is_bomb && !at(g, q).is_flagged,
                    covered_safe_cell <==> exists|q: Pos|
                        ((q.0 < row && q.1 < self.size.1) || (q.0 == row && q.1 < column)) && !(
                        #[trigger] at(g, q)).is_bomb && !at(g, q).is_discovered,
                decreases self.size.1 - column,
            {
                let cell = self.cells[row][column];
                assert(cell == at(g, (row, column)));
                if cell.is_bomb && cell.is_discovered {
                    return GameCompletionStatus::CompletedAsLost;
                }
                if cell.is_bomb && !cell.is_flagged {
                    bomb_without_flag = true;
                }
                if !cell.is_bomb && !cell.is_discovered {
                    covered_safe_cell = true;
                }
                column += 1;
            }
            row += 1;
        }
        if !bomb_without_flag || !covered_safe_cell {
            GameCompletionStatus::CompletedAsWin
        } else {
            GameCompletionStatus::GameIsOnGoing
        }
    }

    /// Records where the game stands.
    pub fn update(&mut self)
        requires
            old(self).wf(),
        ensures
            final(self).wf(),
            final(self).game_completion_status == old(self).outcome(),
            final(self).grid() == old(self).grid(),
            final(self).remaining_flags == old(self).remaining_flags,
            final(self).selected_cell == old(self).selected_cell,
    {
        self.game_completion_status = self.status();
    }

    /// The cell drawn at terminal line `mouse_row`, column `mouse_column`;
    /// none on a border line or outside the board.
    pub fn convert_mouse_to_index(&self, mouse_row: usize, mouse_column: usize) -> (r: Option<
        (usize, usize),
    >)
        ensures
            r == cell_at(&self.theme, self.size, mouse_row as int, mouse_column as int),
    {
        let column = find_column(&self.theme, self.size.1, mouse_column);
        let row = find_row(&self.theme, self.size.0, mouse_row);
        if let Some(r) = row {
            if let Some(c) = column {
                return Some((r, c));
            }
        }
        None
    }

    /// Selects the cell under the mouse, if there is one.
    pub fn mouse_hover(&mut self, mouse_row: usize, mouse_column: usize)
        requires
            old(self).wf(),
        ensures
            final(self).wf(),
            final(self).grid() == old(self).grid(),
            final(self).remaining_flags == old(self).remaining_flags,
            final(self).selected_cell == match cell_at(
                &old(self).theme,
                old(self).size,
                mouse_row as int,
                mouse_column as int,
            ) {
                Some(p) => Some(p),
                None => old(self).selected_cell,
            },
    {
        let index = self.convert_mouse_to_index(mouse_row, mouse_column);
        if let Some((row, column)) = index {
            proof {
                lemma_cell_at_in_bounds(&self.theme, self.size, mouse_row as int, mouse_column as int);
            }
            if self.selected_cell != Some((row, column)) {
                self.selected_cell = Some((row, column));
                self.need_to_draw = true;
            }
        }
    }

    /// Acts on the cell under the mouse: a left click with the main action,
    /// another button with the other.
    pub fn mouse_down(&mut self, mouse_row: usize, mouse_column: usize, left_key: bool)
        requires
            old(self).wf(),
        ensures
            final(self).wf(),
            match cell_at(&old(self).theme, old(self).size, mouse_row as int, mouse_column as int) {
                Some(p) => old(self).interacted(final(self), p, !left_key),
                None => old(self).unchanged(final(self)),
            },
    {
        let index = self.convert_mouse_to_index(mouse_row, mouse_column);
        if let Some((row, column)) = index {
            proof {
                lemma_cell_at_in_bounds(&self.theme, self.size, mouse_row as int, mouse_column as int);
            }
            self.intract_with_cell(row, column, !left_key);
        }
    }

    /// A cell not worth stopping on while moving the selection: discovered,
    /// with no bomb around it.
    pub open spec fn is_blank(&self, r: int, c: int) -> bool {
        let cell = at(self.grid(), (r as usize, c as usize));
        cell.is_discovered && cell.number_of_adjusted_bombs == 0
    }

    /// Where a walk from `(r, c)` in steps of `(dr, dc)` stops: the first
    /// cell on the way that is not blank, or none when it leaves the board.
    pub open spec fn landing(&self, r: int, c: int, dr: int, dc: int) -> Option<Pos>
        decreases (if dr > 0 {
            self.size.0 - r
        } else if dr < 0 {
            r + 1
        } else {
            0
        }) + (if dc > 0 {
            self.size.1 - c
        } else if dc < 0 {
            c + 1
        } else {
            0
        }),
    {
        let nr = r + dr;
        let nc = c + dc;
        if !(0 <= nr < self.size.0 && 0 <= nc < self.size.1) || (dr == 0 && dc == 0) {
            None
        } else if self.is_blank(nr, nc) {
            if 0 <= r < self.size.0 && 0 <= c < self.size.1 {
                self.landing(nr, nc, dr, dc)
            } else {
                None
            }
        } else {
            Some((nr as usize, nc as usize))
        }
    }

    /// Moves the selection one step by `(dr, dc)`, and on past the blank
    /// cells, stopping at the board's edge. With no selection the walk
    /// starts from the top left cell.
    #[verifier::rlimit(40)]
    pub fn move_selection(&mut self, dr: isize, dc: isize)
        requires
            old(self).wf(),
            -1 <= dr <= 1,
            -1 <= dc <= 1,
            dr != 0 || dc != 0,
        ensures
            final(self).wf(),
            final(self).grid() == old(self).grid(),
            final(self).remaining_flags == old(self).remaining_flags,
            ({
                let start: Pos = match old(self).selected_cell {
                    Some(p) => p,
                    None => (0, 0),
                };
                final(self).selected_cell == match old(self).landing(
                    start.0 as int,
                    start.1 as int,
                    dr as int,
                    dc as int,
                ) {
                    Some(p) => Some(p),
                    None => old(self).selected_cell,
                }
            }),
    {
        let start: (usize, usize) = match self.selected_cell {
            Some(p) => p,
            None => (0, 0),
        };
        let ghost first = self.landing(start.0 as int, start.1 as int, dr as int, dc as int);
        let mut r: usize = start.0;
        let mut c: usize = start.1;
        loop
            invariant_except_break
                self.selected_cell == old(self).selected_cell,
            invariant
                self.wf(),
                self.grid() == old(self).grid(),
                self.remaining_flags == old(self).remaining_flags,
                r < self.size.0,
                c < self.size.1,
                -1 <= dr <= 1,
                -1 <= dc <= 1,
                dr != 0 || dc != 0,
                first == self.landing(r as int, c as int, dr as int, dc as int),
            ensures
                self.selected_cell == match first {
                    Some(p) => Some(p),
                    None => old(self).selected_cell,
                },
            decreases (if dr > 0 {
                self.size.0 - r
            } else if dr < 0 {
                r + 1
            } else {
                0
            }) + (if dc > 0 {
                self.size.1 - c
            } else if dc < 0 {
                c + 1
            } else {
                0
            }),
        {
            // the next cell in the direction, unless the walk leaves the board
            if (dr < 0 && r == 0) || (dr > 0 && r + 1 >= self.size.0) || (dc < 0 && c == 0) || (dc
                > 0 && c + 1 >= self.size.1) {
                break;
            }
            let nr: usize = if dr < 0 {
                r - 1
            } else if dr > 0 {
                r + 1
            } else {
                r
            };
            let nc: usize = if dc < 0 {
                c - 1
            } else if dc > 0 {
                c + 1
            } else {
                c
            };
            assert(self.grid()[nr as int].len() == self.size.1);
            let cell = self.cells[nr][nc];
            assert(cell == at(self.grid(), (nr, nc)));
            if cell.is_discovered && cell.number_of_adjusted_bombs == 0 {
                r = nr;
                c = nc;
            } else {
                self.selected_cell = Some((nr, nc));
                self.need_to_draw = true;
                break;
            }
        }
    }

    /// Switches to the next theme of the rotation.
    pub fn change_theme(&mut self)
        requires
            old(self).wf(),
        ensures
            final(self).wf(),
            final(self).grid() == old(self).grid(),
            final(self).remaining_flags == old(self).remaining_flags,
            final(self).selected_cell == old(self).selected_cell,
            final(self).size == old(self).size,
            is_named_theme(&final(self).theme, next_theme_name(old(self).theme.name@)),
    {
        if let Some(theme) = get_theme(&rotate_theme_name(&self.theme.name)) {
            self.theme = theme;
            self.need_to_draw = true;
        }
    }

    /// Switches the coloring of the counts to the next one of the rotation.
    pub fn change_theme_color(&mut self)
        requires
            old(self).wf(),
        ensures
            final(self).wf(),
            final(self).grid() == old(self).grid(),
            final(self).remaining_flags == old(self).remaining_flags,
            final(self).selected_cell == old(self).selected_cell,
            palette_view(final(self).theme.number_colors) == next_palette(
                palette_view(old(self).theme.number_colors),
            ),
            final(self).theme == (Theme {
                number_colors: final(self).theme.number_colors,
                ..old(self).theme
            }),
    {
        self.theme.number_colors = rotate_theme_color(&self.theme.number_colors);
        self.need_to_draw = true;
    }

    /// A board of `size` cells, all blank.
    fn blank_board(size: (usize, usize), theme: Theme) -> (b: Board)
        requires
            size.0 >= 1 && size.1 >= 1,
        ensures
            b.size == size,
            b.theme == theme,
            shaped(b.grid(), size),
            forall|q: Pos| in_bounds(q, size) ==> #[trigger] at(b.grid(), q) == blank(),
            count_true(bomb_map(b.grid())) == 0,
            count_true(flag_map(b.grid())) == 0,
            b.number_of_bombs == 0,
            b.remaining_flags == 0,
            b.selected_cell.is_none(),
            b.game_completion_status == GameCompletionStatus::GameIsOnGoing,
    {
        let mut cells: Vec<Vec<Cell>> = Vec::new();
        let mut r: usize = 0;
        while r < size.0
            invariant
                r <= size.0,
                cells@.len() == r,
                forall|i: int| 0 <= i < r ==> (#[trigger] cells@[i])@.len() == size.1,
                forall|i: int, j: int|
                    0 <= i < r && 0 <= j < size.1 ==> #[trigger] cells@[i]@[j] == blank(),
            decreases size.0 - r,
        {
            let mut row: Vec<Cell> = Vec::new();
            let mut c: usize = 0;
            while c < size.1
                invariant
                    c <= size.1,
                    row@.len() == c,
                    forall|j: int| 0 <= j < c ==> #[trigger] row@[j] == blank(),
                decreases size.1 - c,
            {
                row.push(init_blank_cell());
                c += 1;
            }
            cells.push(row);
            r += 1;
        }
        let b = Board {
            theme,
            size,
            cells,
            number_of_bombs: 0,
            remaining_flags: 0,
            selected_cell: None,
            game_completion_status: GameCompletionStatus::GameIsOnGoing,
            need_to_draw: true,
        };
        proof {
            let g = b.grid();
            assert forall|i: int| 0 <= i < size.0 implies #[trigger] g[i].len() == size.1 by {
                assert(g[i] == b.cells@[i]@);
            }
            assert forall|q: Pos| in_bounds(q, size) implies #[trigger] at(g, q) == blank() by {
                assert(g[q.0 as int] == b.cells@[q.0 as int]@);
            }
            assert forall|i: int, j: int|
                0 <= i < bomb_map(g).len() && 0 <= j < bomb_map(g)[i].len() implies !#[trigger] bomb_map(
                g,
            )[i][j] by {
                assert(at(g, (i as usize, j as usize)) == blank());
            }
            assert forall|i: int, j: int|
                0 <= i < flag_map(g).len() && 0 <= j < flag_map(g)[i].len() implies !#[trigger] flag_map(
                g,
            )[i][j] by {
                assert(at(g, (i as usize, j as usize)) == blank());
            }
            lemma_count_true_all_false(bomb_map(g));
            lemma_count_true_all_false(flag_map(g));
        }
        b
    }

    /// Puts a bomb on `p`.
    fn place_bomb(&mut self, p: (usize, usize))
        requires
            shaped(old(self).grid(), old(self).size),
            in_bounds(p, old(self).size),
        ensures
            final(self).grid() == put(
                old(self).grid(),
                p,
                Cell { is_bomb: true, ..at(old(self).grid(), p) },
            ),
            shaped(final(self).grid(), old(self).size),
            final(self).same_frame(old(self)),
            final(self).remaining_flags == old(self).remaining_flags,
            count_true(bomb_map(final(self).grid())) == count_true(bomb_map(old(self).grid())) + (
            if at(old(self).grid(), p).is_bomb {
                0int
            } else {
                1int
            }),
            flag_map(final(self).grid()) == flag_map(old(self).grid()),
    {
        assert(self.grid()[p.0 as int].len() == self.size.1);
        let c = self.cells[p.0][p.1];
        assert(c == at(self.grid(), p));
        let x = Cell { is_bomb: true, ..c };
        proof {
            lemma_maps_put(self.grid(), p, x);
            lemma_count_true_update(bomb_map(self.grid()), p, true);
            assert(put(flag_map(self.grid()), p, c.is_flagged) =~~= flag_map(self.grid()));
        }
        self.put_cell(p, x);
    }

    /// Writes in every cell how many bombs lie around it.
    fn fill_numbers(&mut self)
        requires
            shaped(old(self).grid(), old(self).size),
        ensures
            shaped(final(self).grid(), old(self).size),
            final(self).same_frame(old(self)),
            final(self).remaining_flags == old(self).remaining_flags,
            final(self).counts_match(),
            bomb_map(final(self).grid()) == bomb_map(old(self).grid()),
            flag_map(final(self).grid()) == flag_map(old(self).grid()),
            forall|q: Pos|
                in_bounds(q, old(self).size) ==> {
                    &&& (#[trigger] at(final(self).grid(), q)).is_bomb == at(
                        old(self).grid(),
                        q,
                    ).is_bomb
                    &&& at(final(self).grid(), q).is_flagged == at(old(self).grid(), q).is_flagged
                    &&& at(final(self).grid(), q).is_discovered == at(
                        old(self).grid(),
                        q,
                    ).is_discovered
                },
    {
        let ghost g0 = self.grid();
        let ghost size = self.size;
        let mut row: usize = 0;
        while row < self.size.0
            invariant
                self.size == size,
                shaped(self.grid(), size),
                self.same_frame(old(self)),
                self.remaining_flags == old(self).remaining_flags,
                row <= size.0,
                bomb_map(self.grid()) == bomb_map(g0),
                flag_map(self.grid()) == flag_map(g0),
                forall|q: Pos|
                    in_bounds(q, size) ==> {
                        &&& (#[trigger] at(self.grid(), q)).is_bomb == at(g0, q).is_bomb
                        &&& at(self.grid(), q).is_flagged == at(g0, q).is_flagged
                        &&& at(self.grid(), q).is_discovered == at(g0, q).is_discovered
                    },
                forall|q: Pos|
                    in_bounds(q, size) && q.0 < row ==> (#[trigger] at(
                        self.grid(),
                        q,
                    )).number_of_adjusted_bombs == bombs_among(bomb_map(g0), neighbors(q, size)),
            decreases size.0 - row,
        {
            let mut column: usize = 0;
            while column < self.size.1
                invariant
                    self.size == size,
                    shaped(self.grid(), size),
                    self.same_frame(old(self)),
                    self.remaining_flags == old(self).remaining_flags,
                    row < size.0,
                    column <= size.1,
                    bomb_map(self.grid()) == bomb_map(g0),
                    flag_map(self.grid()) == flag_map(g0),
                    forall|q: Pos|
                        in_bounds(q, size) ==> {
                            &&& (#[trigger] at(self.grid(), q)).is_bomb == at(g0, q).is_bomb
                            &&& at(self.grid(), q).is_flagged == at(g0, q).is_flagged
                            &&& at(self.grid(), q).is_discovered == at(g0, q).is_discovered
                        },
                    forall|q: Pos|
                        in_bounds(q, size) && (q.0 < row || (q.0 == row && q.1 < column)) ==> (
                        #[trigger] at(self.grid(), q)).number_of_adjusted_bombs == bombs_among(
                            bomb_map(g0),
                            neighbors(q, size),
                        ),
                decreases size.1 - column,
            {
                let p = (row, column);
                let nbrs = self.get_adjusted_indices(p);
                proof {
                    lemma_neighbors(p, size);
                }
                let mut count: u8 = 0;
                let mut k: usize = 0;
                while k < nbrs.len()
                    invariant
                        self.size == size,
                        shaped(self.grid(), size),
                        bomb_map(self.grid()) == bomb_map(g0),
                        nbrs@ == neighbors(p, size),
                        nbrs@.len() <= 8,
                        forall|q: Pos| #[trigger] neighbors(p, size).contains(q) ==> in_bounds(q, size),
                        k <= nbrs.len(),
                        count == bombs_among(bomb_map(g0), nbrs@.take(k as int)),
                        count <= k,
                    decreases nbrs.len() - k,
                {
                    let n = nbrs[k];
                    assert(nbrs@.contains(n));
                    assert(self.grid()[n.0 as int].len() == size.1);
                    let is_bomb = self.cells[n.0][n.1].is_bomb;
                    assert(is_bomb == at(bomb_map(g0), n)) by {
                        assert(bomb_map(self.grid())[n.0 as int][n.1 as int] == at(self.grid(), n).is_bomb);
                    }
                    assert(nbrs@.take(k + 1).drop_last() =~= nbrs@.take(k as int));
                    if is_bomb {
                        count = count + 1;
                    }
                    k += 1;
                }
                assert(nbrs@.take(k as int) =~= nbrs@);
                assert(self.grid()[row as int].len() == size.1);
                let c = self.cells[row][column];
                assert(c == at(self.grid(), p));
                let x = Cell { number_of_adjusted_bombs: count, ..c };
                let ghost g = self.grid();
                proof {
                    lemma_maps_put(g, p, x);
                    assert(put(bomb_map(g), p, c.is_bomb) =~~= bomb_map(g));
                    assert(put(flag_map(g), p, c.is_flagged) =~~= flag_map(g));
                }
                self.put_cell(p, x);
                proof {
                    assert forall|q: Pos| in_bounds(q, size) && q != p implies #[trigger] at(
                        self.grid(),
                        q,
                    ) == at(g, q) by {}
                }
                column += 1;
            }
            row += 1;
        }
        proof {
            assert forall|q: Pos| in_bounds(q, size) implies (#[trigger] at(
                self.grid(),
                q,
            )).number_of_adjusted_bombs == bombs_among(bomb_map(self.grid()), neighbors(q, size)) by {
                assert(q.0 < row);
            }
        }
    }



    /// A cell that a hint may open: covered, with no bomb, and with no other
    /// such cell having fewer bombs around it.
    pub open spec fn is_hint_choice(&self, q: Pos) -> bool {
        &&& in_bounds(q, self.size)
        &&& !at(self.grid(), q).is_bomb
        &&& !at(self.grid(), q).is_discovered
        &&& forall|q2: Pos|
            in_bounds(q2, self.size) && !(#[trigger] at(self.grid(), q2)).is_bomb && !at(
                self.grid(),
                q2,
            ).is_discovered ==> at(self.grid(), q).number_of_adjusted_bombs <= at(
                self.grid(),
                q2,
            ).number_of_adjusted_bombs
    }

    /// Some covered cell has no bomb.
    pub open spec fn has_covered_safe_cell(&self) -> bool {
        exists|q: Pos|
            in_bounds(q, self.size) && !(#[trigger] at(self.grid(), q)).is_bomb && !at(
                self.grid(),
                q,
            ).is_discovered
    }

    /// The cells that a hint chooses among: the covered cells without a bomb
    /// that have the fewest bombs around them.
    pub fn hint_candidates(&self) -> (r: Vec<(usize, usize)>)
        requires
            self.wf(),
        ensures
            forall|q: Pos| #[trigger] r@.contains(q) <==> self.is_hint_choice(q),
            self.has_covered_safe_cell() ==> r@.len() > 0,
    {
        let ghost g = self.grid();
        // the fewest bombs around a covered cell without a bomb
        let mut least: Option<u8> = None;
        let mut row: usize = 0;
        while row < self.size.0
            invariant
                self.wf(),
                g == self.grid(),
                row <= self.size.0,
                match least {
                    None => forall|q: Pos|
                        q.0 < row && q.1 < self.size.1 ==> (#[trigger] at(g, q)).is_bomb || at(
                            g,
                            q,
                        ).is_discovered,
                    Some(m) => (exists|q: Pos|
                        q.0 < row && q.1 < self.size.1 && !(#[trigger] at(g, q)).is_bomb && !at(
                            g,
                            q,
                        ).is_discovered && at(g, q).number_of_adjusted_bombs == m) && (forall|q: Pos|
                        q.0 < row && q.1 < self.size.1 && !(#[trigger] at(g, q)).is_bomb && !at(
                            g,
                            q,
                        ).is_discovered ==> m <= at(g, q).number_of_adjusted_bombs),
                },
            decreases self.size.0 - row,
        {
            assert(g[row as int].len() == self.size.1);
            let mut column: usize = 0;
            while column < self.size.1
                invariant
                    self.wf(),
                    g == self.grid(),
                    row < self.size.0,
                    column <= self.size.1,
                    self.cells@[row as int]@.len() == self.size.1,
                    match least {
                        None => forall|q: Pos|
                            ((q.0 < row && q.1 < self.size.1) || (q.0 == row && q.1 < column))
                                ==> (#[trigger] at(g, q)).is_bomb || at(g, q).is_discovered,
                        Some(m) => (exists|q: Pos|
                            ((q.0 < row && q.1 < self.size.1) || (q.0 == row && q.1 < column))
                                && !(#[trigger] at(g, q)).is_bomb && !at(g, q).is_discovered && at(
                                g,
                                q,
                            ).number_of_adjusted_bombs == m) && (forall|q: Pos|
                            ((q.0 < row && q.1 < self.size.1) || (q.0 == row && q.1 < column))
                                && !(#[trigger] at(g, q)).is_bomb && !at(g, q).is_discovered ==> m
                                <= at(g, q).number_of_adjusted_bombs),
                    },
                decreases self.size.1 - column,
            {
                let cell = self.cells[row][column];
                assert(cell == at(g, (row, column)));
                if !cell.is_bomb && !cell.is_discovered {
                    match least {
                        None => {
                            least = Some(cell.number_of_adjusted_bombs);
                        },
                        Some(m) => {
                            if cell.number_of_adjusted_bombs < m {
                                least = Some(cell.number_of_adjusted_bombs);
                            }
                        },
                    }
                }
                column += 1;
            }
            row += 1;
        }
        let mut result: Vec<(usize, usize)> = Vec::new();
        if let Some(m) = least {
            let mut row: usize = 0;
            while row < self.size.0
                invariant
                    self.wf(),
                    g == self.grid(),
                    row <= self.size.0,
                    forall|q: Pos|
                        in_bounds(q, self.size) && !(#[trigger] at(g, q)).is_bomb && !at(
                            g,
                            q,
                        ).is_discovered ==> m <= at(g, q).number_of_adjusted_bombs,
                    exists|q: Pos|
                        in_bounds(q, self.size) && !(#[trigger] at(g, q)).is_bomb && !at(
                            g,
                            q,
                        ).is_discovered && at(g, q).number_of_adjusted_bombs == m && (q.0 >= row
                            || result@.len() > 0),
                    forall|q: Pos|
                        #![trigger result@.contains(q)]
                        #![trigger at(g, q)]
                        result@.contains(q) <==> (q.0 < row && q.1 < self.size.1
                            && is_least_candidate(g, m, q)),
                decreases self.size.0 - row,
            {
                assert(g[row as int].len() == self.size.1);
                let mut column: usize = 0;
                while column < self.size.1
                    invariant
                        self.wf(),
                        g == self.grid(),
                        row < self.size.0,
                        column <= self.size.1,
                        self.cells@[row as int]@.len() == self.size.1,
                        forall|q: Pos|
                            in_bounds(q, self.size) && !(#[trigger] at(g, q)).is_bomb && !at(
                                g,
                                q,
                            ).is_discovered ==> m <= at(g, q).number_of_adjusted_bombs,
                        exists|q: Pos|
                            in_bounds(q, self.size) && !(#[trigger] at(g, q)).is_bomb && !at(
                                g,
                                q,
                            ).is_discovered && at(g, q).number_of_adjusted_bombs == m && (q.0 > row
                                || (q.0 == row && q.1 >= column) || result@.len() > 0),
                        forall|q: Pos|
                            #![trigger result@.contains(q)]
                            #![trigger at(g, q)]
                            result@.contains(q) <==> (((q.0 < row && q.1 < self.size.1) || (q.0
                                == row && q.1 < column)) && is_least_candidate(g, m, q)),
                    decreases self.size.1 - column,
                {
                    let cell = self.cells[row][column];
                    assert(cell == at(g, (row, column)));
                    let ghost before = result@;
                    if !cell.is_bomb && !cell.is_discovered && cell.number_of_adjusted_bombs == m {
                        result.push((row, column));
                        proof {
                            assert(result@ == before.push((row, column)));
                            assert forall|q: Pos| result@.contains(q) <==> before.contains(q) || q == (
                                row,
                                column,
                            ) by {
                                if result@.contains(q) {
                                    let j = choose|j: int| 0 <= j < result@.len() && result@[j] == q;
                                    if j < before.len() {
                                        assert(before[j] == q);
                                    }
                                }
                                if before.contains(q) {
                                    let j = choose|j: int| 0 <= j < before.len() && before[j] == q;
                                    assert(result@[j] == q);
                                }
                                if q == (row, column) {
                                    assert(result@[before.len() as int] == q);
                                }
                            }
                        }
                    }
                    proof {
                        assert forall|q: Pos|
                            #![trigger result@.contains(q)]
                            #![trigger at(g, q)]
                            result@.contains(q) <==> (((q.0 < row && q.1 < self.size.1) || (q.0
                                == row && q.1 < column + 1)) && is_least_candidate(g, m, q)) by {
                            if q != (row, column) {
                                assert(before.contains(q) <==> (((q.0 < row && q.1 < self.size.1)
                                    || (q.0 == row && q.1 < column)) && is_least_candidate(g, m, q)));
                            }
                        }
                    }
                    column += 1;
                }
                row += 1;
            }
        }
        proof {
            assert forall|q: Pos| result@.contains(q) <==> self.is_hint_choice(q) by {
                if self.is_hint_choice(q) && least is Some {
                    let m = least->Some_0;
                    let w = choose|w: Pos|
                        in_bounds(w, self.size) && !(#[trigger] at(g, w)).is_bomb && !at(
                            g,
                            w,
                        ).is_discovered && at(g, w).number_of_adjusted_bombs == m;
                    assert(at(g, q).number_of_adjusted_bombs <= at(g, w).number_of_adjusted_bombs);
                }
                if self.is_hint_choice(q) && least is None {
                    assert(q.0 < self.size.0);
                }
            }
        }
        result
    }

    /// Opens one of the hint cells, chosen at random; does nothing when no
    /// covered cell is free of a bomb.
    pub fn hint(&mut self)
        requires
            old(self).wf(),
        ensures
            final(self).wf(),
            !old(self).has_covered_safe_cell() ==> old(self).unchanged(final(self)),
            old(self).has_covered_safe_cell() ==> exists|q: Pos|
                old(self).is_hint_choice(q) && #[trigger] old(self).revealed(final(self), q),
    {
        let non_bomb_cells = self.hint_candidates();
        if non_bomb_cells.len() > 0 {
            let i = random_below(non_bomb_cells.len());
            let q = non_bomb_cells[i];
            assert(non_bomb_cells@.contains(q));
            let ghost b = *self;
            self.discover_cell(q);
            assert(b.revealed(self, q));
        } else {
            proof {
                if self.has_covered_safe_cell() {
                    assert(false);
                }
            }
        }
    }

    /// A reveal spreads only through cells without bombs around them, so
    /// starting from a cell without a bomb it never reaches one.
    pub proof fn lemma_fill_path_safe(&self, path: Seq<Pos>)
        requires
            self.wf(),
            is_fill_path(self.grid(), self.size, path),
            !at(self.grid(), path[0]).is_bomb,
        ensures
            forall|i: int| 0 <= i < path.len() ==> !at(self.grid(), #[trigger] path[i]).is_bomb,
        decreases path.len(),
    {
        let g = self.grid();
        if path.len() > 1 {
            let prefix = path.drop_last();
            assert forall|i: int| 0 <= i < prefix.len() - 1 implies at(
                g,
                #[trigger] prefix[i],
            ).number_of_adjusted_bombs == 0 && is_adjacent(prefix[i], prefix[i + 1], self.size) by {
                assert(prefix[i] == path[i] && prefix[i + 1] == path[i + 1]);
            }
            assert forall|i: int| 0 <= i < prefix.len() implies in_bounds(#[trigger] prefix[i], self.size)
                && is_fresh(at(g, prefix[i])) by {
                assert(prefix[i] == path[i]);
            }
            self.lemma_fill_path_safe(prefix);
            let k = path.len() - 2;
            let m = path[k];
            let x = path[k + 1];
            assert(in_bounds(m, self.size) && at(g, m).number_of_adjusted_bombs == 0);
            assert(is_adjacent(m, x, self.size));
            lemma_neighbors(m, self.size);
            assert(neighbors(m, self.size).contains(x));
            lemma_no_bombs_among(bomb_map(g), neighbors(m, self.size));
            let j = choose|j: int| 0 <= j < neighbors(m, self.size).len() && neighbors(m, self.size)[j] == x;
            assert(!at(bomb_map(g), x));
            assert(g[x.0 as int].len() == self.size.1);
            assert(at(bomb_map(g), x) == at(g, x).is_bomb);
            assert forall|i: int| 0 <= i < path.len() implies !at(g, #[trigger] path[i]).is_bomb by {
                if i < path.len() - 1 {
                    assert(path[i] == prefix[i]);
                }
            }
        }
    }

    /// Revealing a cell without a bomb on a game not lost leaves it not lost.
    pub proof fn lemma_safe_reveal(&self, next: &Board, q: Pos)
        requires
            self.wf(),
            in_bounds(q, self.size),
            !at(self.grid(), q).is_bomb,
            !self.is_lost(),
            self.revealed(next, q),
        ensures
            !next.is_lost(),
    {
        let g = self.grid();
        if next.is_lost() {
            let x = choose|x: Pos|
                in_bounds(x, next.size) && (#[trigger] at(next.grid(), x)).is_bomb && at(
                    next.grid(),
                    x,
                ).is_discovered;
            assert(at(g, x).is_bomb);
            assert(fill_reaches(g, self.size, q, x));
            let path = choose|path: Seq<Pos>|
                is_fill_path(g, self.size, path) && path[0] == q && path.last() == x;
            self.lemma_fill_path_safe(path);
            assert(!at(g, path[path.len() - 1]).is_bomb);
        }
    }



    /// Discovers the single cell `n`.
    fn open_cell(&mut self, n: (usize, usize))
        requires
            shaped(old(self).grid(), old(self).size),
            in_bounds(n, old(self).size),
            !old(self).cell(n).is_discovered,
            !old(self).cell(n).is_flagged,
            old(self).flags_exclusive(),
        ensures
            final(self).same_frame(old(self)),
            final(self).remaining_flags == old(self).remaining_flags,
            final(self).need_to_draw,
            shaped(final(self).grid(), old(self).size),
            final(self).flags_exclusive(),
            only_discovers(old(self).grid(), final(self).grid(), old(self).size),
            final(self).cell(n).is_discovered,
            forall|q: Pos|
                in_bounds(q, old(self).size) && q != n ==> #[trigger] at(final(self).grid(), q) == at(
                    old(self).grid(),
                    q,
                ),
            count_true(hidden_map(final(self).grid())) + 1 == count_true(
                hidden_map(old(self).grid()),
            ),
    {
        assert(self.grid()[n.0 as int].len() == self.size.1);
        let c = self.cells[n.0][n.1];
        assert(c == self.cell(n));
        let x = Cell { is_discovered: true, ..c };
        proof {
            lemma_maps_put(self.grid(), n, x);
            lemma_count_true_update(hidden_map(self.grid()), n, false);
        }
        self.put_cell(n, x);
        self.need_to_draw = true;
        assert forall|q: Pos| in_bounds(q, self.size) implies !(#[trigger] self.cell(q).is_discovered
            && self.cell(q).is_flagged) by {
            if q != n {
                assert(old(self).cell(q) == at(old(self).grid(), q));
            }
        }
        assert(forall|q: Pos|
            in_bounds(q, self.size) && q != n ==> #[trigger] at(self.grid(), q) == at(
                old(self).grid(),
                q,
            ));
    }

    /// Replaces one cell.
    fn put_cell(&mut self, p: (usize, usize), x: Cell)
        requires
            shaped(old(self).grid(), old(self).size),
            in_bounds(p, old(self).size),
        ensures
            final(self).grid() == put(old(self).grid(), p, x),
            final(self).same_frame(old(self)),
            final(self).remaining_flags == old(self).remaining_flags,
            final(self).need_to_draw == old(self).need_to_draw,
    {
        assert(self.grid()[p.0 as int].len() == self.size.1);
        self.cells[p.0][p.1] = x;
        assert(self.grid() =~~= put(old(self).grid(), p, x));
    }
}

/// A new game of `size` with `number_of_bombs` bombs (at most one on
/// every cell) placed at random, and a first hint already opened, which
/// is never a bomb: what is open is the reveal of a safe cell with the
/// fewest bombs around it, on the board with every cell covered.
pub fn init_random_game(size: (usize, usize), number_of_bombs: usize, theme: Theme) -> (b:
    Board)
    requires
        size.0 >= 1 && size.1 >= 1,
        size.0 * size.1 <= usize::MAX,
    ensures
        b.wf(),
        b.size == size,
        b.theme == theme,
        b.number_of_bombs == if number_of_bombs <= size.0 * size.1 {
            number_of_bombs as int
        } else {
            size.0 * size.1
        },
        b.remaining_flags == b.number_of_bombs,
        forall|q: Pos| in_bounds(q, size) ==> !(#[trigger] at(b.grid(), q)).is_flagged,
        !b.is_lost(),
        b.number_of_bombs < size.0 * size.1 ==> exists|q: Pos|
            in_bounds(q, size) && (#[trigger] at(b.grid(), q)).is_discovered,
        b.number_of_bombs < size.0 * size.1 ==> exists|q: Pos|
            #[trigger] is_least_safe(covered(b.grid()), size, q) && forall|x: Pos|
                in_bounds(x, size) ==> (#[trigger] at(b.grid(), x).is_discovered <==> fill_reaches(
                    covered(b.grid()),
                    size,
                    q,
                    x,
                )),
        b.number_of_bombs == size.0 * size.1 ==> forall|x: Pos|
            in_bounds(x, size) ==> !(#[trigger] at(b.grid(), x)).is_discovered,
        b.selected_cell.is_none(),
        b.game_completion_status == GameCompletionStatus::GameIsOnGoing,
{
    let cell_count: usize = size.0 * size.1;
    let bombs: usize = if number_of_bombs <= cell_count {
        number_of_bombs
    } else {
        cell_count
    };
    let mut b = Board::blank_board(size, theme);
    // every cell still free of a bomb
    let mut free: Vec<(usize, usize)> = Vec::new();
    let mut r: usize = 0;
    while r < size.0
        invariant
            size.0 >= 1 && size.1 >= 1,
            r <= size.0,
            size.0 * size.1 <= usize::MAX,
            free@.len() == r * size.1,
            free@.no_duplicates(),
            forall|q: Pos| #[trigger] free@.contains(q) <==> (q.0 < r && q.1 < size.1),
        decreases size.0 - r,
    {
        assert(r * size.1 + size.1 <= size.0 * size.1) by (nonlinear_arith)
            requires
                r + 1 <= size.0,
        ;
        let mut c: usize = 0;
        while c < size.1
            invariant
                r < size.0,
                c <= size.1,
                free@.len() == r * size.1 + c,
                r * size.1 + size.1 <= size.0 * size.1,
                size.0 * size.1 <= usize::MAX,
                free@.no_duplicates(),
                forall|q: Pos| #[trigger]
                    free@.contains(q) <==> ((q.0 < r && q.1 < size.1) || (q.0 == r && q.1 < c)),
            decreases size.1 - c,
        {
            let ghost before = free@;
            free.push((r, c));
            proof {
                assert forall|q: Pos| #[trigger]
                    free@.contains(q) <==> (before.contains(q) || q == (r, c)) by {
                    if free@.contains(q) {
                        let j = choose|j: int| 0 <= j < free@.len() && free@[j] == q;
                        if j < before.len() {
                            assert(before[j] == q);
                        }
                    }
                    if before.contains(q) {
                        let j = choose|j: int| 0 <= j < before.len() && before[j] == q;
                        assert(free@[j] == q);
                    }
                    if q == (r, c) {
                        assert(free@[before.len() as int] == q);
                    }
                }
                assert forall|x: int, y: int| 0 <= x < y < free@.len() implies free@[x]
                    != free@[y] by {
                    if y == before.len() {
                        assert(before.contains(before[x]));
                    } else {
                        assert(free@[x] == before[x] && free@[y] == before[y]);
                    }
                }
            }
            c += 1;
        }
        proof {
            assert((r + 1) * size.1 == r * size.1 + size.1) by (nonlinear_arith);
            assert(r + 1 <= size.0);
            assert((r + 1) * size.1 <= size.0 * size.1) by (nonlinear_arith)
                requires
                    r + 1 <= size.0,
            ;
        }
        r += 1;
    }
    let mut placed: usize = 0;
    while placed < bombs
        invariant
            b.size == size,
            b.theme == theme,
            shaped(b.grid(), size),
            bombs <= size.0 * size.1,
            placed <= bombs,
            free@.len() + placed == size.0 * size.1,
            free@.no_duplicates(),
            forall|q: Pos| #[trigger]
                free@.contains(q) <==> (in_bounds(q, size) && !at(b.grid(), q).is_bomb),
            forall|q: Pos|
                in_bounds(q, size) ==> !(#[trigger] at(b.grid(), q)).is_flagged && !at(
                    b.grid(),
                    q,
                ).is_discovered,
            count_true(bomb_map(b.grid())) == placed,
            count_true(flag_map(b.grid())) == 0,
            b.number_of_bombs == 0,
            b.remaining_flags == 0,
            b.selected_cell.is_none(),
            b.game_completion_status == GameCompletionStatus::GameIsOnGoing,
        decreases bombs - placed,
    {
        let i = random_below(free.len());
        let ghost before = free@;
        let p = free.remove(i);
        assert(before.contains(p)) by {
            assert(before[i as int] == p);
        }
        let ghost g = b.grid();
        b.place_bomb(p);
        proof {
            assert forall|q: Pos| #[trigger]
                free@.contains(q) <==> (before.contains(q) && q != p) by {
                if free@.contains(q) {
                    let j = choose|j: int| 0 <= j < free@.len() && free@[j] == q;
                    if j < i {
                        assert(before[j] == q);
                    } else {
                        assert(before[j + 1] == q);
                    }
                }
                if before.contains(q) && q != p {
                    let j = choose|j: int| 0 <= j < before.len() && before[j] == q;
                    if j < i {
                        assert(free@[j] == q);
                    } else {
                        assert(free@[j - 1] == q);
                    }
                }
            }
            assert forall|q: Pos| in_bounds(q, size) && q != p implies #[trigger] at(
                b.grid(),
                q,
            ) == at(g, q) by {}
            assert forall|x: int, y: int| 0 <= x < y < free@.len() implies free@[x] != free@[y] by {
                let x2 = if x < i { x } else { x + 1 };
                let y2 = if y < i { y } else { y + 1 };
                assert(free@[x] == before[x2] && free@[y] == before[y2]);
            }
        }
        placed = placed + 1;
    }
    let ghost spare = free@;
    b.fill_numbers();
    b.number_of_bombs = bombs;
    b.remaining_flags = bombs;
    proof {
        assert forall|q: Pos| in_bounds(q, size) implies !((#[trigger] at(b.grid(), q)).is_discovered
            && at(b.grid(), q).is_flagged) by {}
        assert(!b.is_lost());
        if bombs < size.0 * size.1 {
            let w = spare[0];
            assert(spare.contains(w));
            assert(in_bounds(w, size) && !at(b.grid(), w).is_bomb && !at(b.grid(), w).is_discovered);
            assert(b.has_covered_safe_cell());
        }
    }
    let ghost b0 = b;
    b.hint();
    proof {
        if bombs < size.0 * size.1 {
            let q = choose|q: Pos| b0.is_hint_choice(q) && #[trigger] b0.revealed(&b, q);
            b0.lemma_safe_reveal(&b, q);
            let path = seq![q];
            assert(is_fill_path(b0.grid(), size, path) && path[0] == q && path.last() == q);
            assert(at(b.grid(), q).is_discovered);
            assert(forall|x: Pos| in_bounds(x, size) ==> !(#[trigger] at(b0.grid(), x)).is_discovered);
            lemma_covered_again(b0.grid(), b.grid(), size);
            assert(is_least_safe(covered(b.grid()), size, q));
        } else {
            assert(!b0.has_covered_safe_cell()) by {
                if b0.has_covered_safe_cell() {
                    let w = choose|w: Pos|
                        in_bounds(w, size) && !(#[trigger] at(b0.grid(), w)).is_bomb && !at(
                            b0.grid(),
                            w,
                        ).is_discovered;
                    assert(spare.contains(w));
                }
            }
        }
        assert forall|q: Pos| in_bounds(q, size) implies !(#[trigger] at(b.grid(), q)).is_flagged by {
            assert(!at(b0.grid(), q).is_flagged);
        }
    }
    b
}

/// A board of `size` with bombs on the cells `bomb_cells` and nothing
/// discovered or flagged yet.
pub fn init_game_with_bombs(
    size: (usize, usize),
    bomb_cells: &Vec<(usize, usize)>,
    theme: Theme,
) -> (b: Board)
    requires
        size.0 >= 1 && size.1 >= 1,
        forall|i: int| 0 <= i < bomb_cells@.len() ==> in_bounds(#[trigger] bomb_cells@[i], size),
    ensures
        b.wf(),
        b.size == size,
        b.theme == theme,
        forall|q: Pos|
            in_bounds(q, size) ==> {
                &&& (#[trigger] at(b.grid(), q)).is_bomb == bomb_cells@.contains(q)
                &&& !at(b.grid(), q).is_flagged
                &&& !at(b.grid(), q).is_discovered
            },
        b.remaining_flags == b.number_of_bombs,
        bomb_cells@.no_duplicates() ==> b.number_of_bombs == bomb_cells@.len(),
        b.selected_cell.is_none(),
        b.game_completion_status == GameCompletionStatus::GameIsOnGoing,
{
    let mut b = Board::blank_board(size, theme);
    let mut placed: usize = 0;
    let mut i: usize = 0;
    while i < bomb_cells.len()
        invariant
            b.size == size,
            b.theme == theme,
            shaped(b.grid(), size),
            i <= bomb_cells@.len(),
            forall|i: int| 0 <= i < bomb_cells@.len() ==> in_bounds(#[trigger] bomb_cells@[i], size),
            b.number_of_bombs == 0,
            b.remaining_flags == 0,
            b.selected_cell.is_none(),
            b.game_completion_status == GameCompletionStatus::GameIsOnGoing,
            count_true(bomb_map(b.grid())) == placed,
            placed <= i,
            bomb_cells@.no_duplicates() ==> placed == i,
            count_true(flag_map(b.grid())) == 0,
            forall|q: Pos|
                in_bounds(q, size) ==> {
                    &&& (#[trigger] at(b.grid(), q)).is_bomb == bomb_cells@.take(
                        i as int,
                    ).contains(q)
                    &&& !at(b.grid(), q).is_flagged
                    &&& !at(b.grid(), q).is_discovered
                    &&& at(b.grid(), q).number_of_adjusted_bombs == 0
                },
        decreases bomb_cells@.len() - i,
    {
        let p = bomb_cells[i];
        assert(in_bounds(p, size));
        assert(b.grid()[p.0 as int].len() == size.1);
        let was_bomb = b.cells[p.0][p.1].is_bomb;
        let ghost s = bomb_cells@.take(i as int);
        proof {
            if bomb_cells@.no_duplicates() && s.contains(p) {
                let j = choose|j: int| 0 <= j < s.len() && s[j] == p;
                assert(bomb_cells@[j] == bomb_cells@[i as int]);
            }
        }
        assert(was_bomb == at(b.grid(), p).is_bomb);
        let ghost g = b.grid();
        b.place_bomb(p);
        if !was_bomb {
            placed = placed + 1;
        }
        proof {
            let t = bomb_cells@.take(i + 1);
            assert(t =~= s.push(p));
            assert forall|q: Pos| in_bounds(q, size) implies {
                &&& (#[trigger] at(b.grid(), q)).is_bomb == t.contains(q)
                &&& !at(b.grid(), q).is_flagged
                &&& !at(b.grid(), q).is_discovered
                &&& at(b.grid(), q).number_of_adjusted_bombs == 0
            } by {
                if q != p {
                    assert(at(b.grid(), q) == at(g, q));
                    if s.contains(q) {
                        let j = choose|j: int| 0 <= j < s.len() && s[j] == q;
                        assert(t[j] == q);
                    }
                    if t.contains(q) {
                        let j = choose|j: int| 0 <= j < t.len() && t[j] == q;
                        assert(s[j] == q);
                    }
                } else {
                    assert(t[s.len() as int] == p);
                }
            }
        }
        i += 1;
    }
    assert(bomb_cells@.take(i as int) =~= bomb_cells@);
    b.fill_numbers();
    b.number_of_bombs = placed;
    b.remaining_flags = placed;
    b
}

/// Revealing a fresh cell with no bomb around it opens it and every fresh
/// cell around it; with the exact contract of `discover_cell` (a cell opens
/// exactly when a fill path reaches it), the opened area is the connected
/// bomb-free region with its numbered rim, and nothing beyond.
pub proof fn lemma_zero_reveal_opens_around(b: &Board, next: &Board, p: Pos)
    requires
        b.wf(),
        in_bounds(p, b.size),
        is_fresh(at(b.grid(), p)),
        at(b.grid(), p).number_of_adjusted_bombs == 0,
        b.revealed(next, p),
    ensures
        at(next.grid(), p).is_discovered,
        forall|n: Pos|
            is_adjacent(p, n, b.size) && is_fresh(at(b.grid(), n)) ==> #[trigger] at(
                next.grid(),
                n,
            ).is_discovered,
{
    let g = b.grid();
    let single = seq![p];
    assert(is_fill_path(g, b.size, single) && single[0] == p && single.last() == p);
    assert forall|n: Pos|
        is_adjacent(p, n, b.size) && is_fresh(at(g, n)) implies #[trigger] at(
        next.grid(),
        n,
    ).is_discovered by {
        let pair = seq![p, n];
        assert(is_fill_path(g, b.size, pair) && pair[0] == p && pair.last() == n);
    }
}

/// The flags left to place and the flags on the board always add up to the
/// number of bombs, so the budget never exceeds it. Every operation keeps
/// `wf`, so this holds in every state of a game.
pub proof fn lemma_flag_budget(b: &Board)
    requires
        b.wf(),
    ensures
        b.remaining_flags + b.flag_count() == b.number_of_bombs,
        b.remaining_flags <= b.number_of_bombs,
{
}

/// A discovered cell is never flagged, and a flagged cell never discovered,
/// in every state of a game.
pub proof fn lemma_discovered_or_flagged(b: &Board, q: Pos)
    requires
        b.wf(),
        in_bounds(q, b.size),
    ensures
        at(b.grid(), q).is_discovered ==> !at(b.grid(), q).is_flagged,
        at(b.grid(), q).is_flagged ==> !at(b.grid(), q).is_discovered,
{
}

} // verus!
