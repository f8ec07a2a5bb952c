use vstd::prelude::*;

use crate::theme::{decimal, number_color, shows, Theme};

verus! {

/// One square of the board.
#[derive(Clone, Copy, Debug, PartialEq, Eq, Structural)]
pub struct Cell {
    pub is_bomb: bool,
    pub number_of_adjusted_bombs: u8,
    pub is_flagged: bool,
    pub is_discovered: bool,
}

/// The cell with no bomb, no count, no flag, not discovered.
pub open spec fn blank() -> Cell {
    Cell { is_bomb: false, number_of_adjusted_bombs: 0, is_flagged: false, is_discovered: false }
}

/// A cell with no bomb, no count, no flag, not discovered.
pub fn init_blank_cell() -> (r: Cell)
    ensures
        r == blank(),
{
    Cell { is_bomb: false, number_of_adjusted_bombs: 0, is_flagged: false, is_discovered: false }
}

/// A grid position `(row, column)`.
pub type Pos = (usize, usize);

pub open spec fn in_bounds(p: Pos, size: Pos) -> bool {
    p.0 < size.0 && p.1 < size.1
}

/// `g` is a `size.0 x size.1` rectangle.
pub open spec fn shaped<A>(g: Seq<Seq<A>>, size: Pos) -> bool {
    &&& g.len() == size.0
    &&& forall|r: int| 0 <= r < size.0 ==> #[trigger] g[r].len() == size.1
}

pub open spec fn at<A>(g: Seq<Seq<A>>, p: Pos) -> A {
    g[p.0 as int][p.1 as int]
}

/// `g` with the entry at `p` replaced by `x`.
pub open spec fn put<A>(g: Seq<Seq<A>>, p: Pos, x: A) -> Seq<Seq<A>> {
    g.update(p.0 as int, g[p.0 as int].update(p.1 as int, x))
}

/// Which cells hold a bomb.
pub open spec fn bomb_map(g: Seq<Seq<Cell>>) -> Seq<Seq<bool>> {
    g.map_values(|row: Seq<Cell>| row.map_values(|c: Cell| c.is_bomb))
}

/// Which cells carry a flag.
pub open spec fn flag_map(g: Seq<Seq<Cell>>) -> Seq<Seq<bool>> {
    g.map_values(|row: Seq<Cell>| row.map_values(|c: Cell| c.is_flagged))
}

/// Which cells are still covered.
pub open spec fn hidden_map(g: Seq<Seq<Cell>>) -> Seq<Seq<bool>> {
    g.map_values(|row: Seq<Cell>| row.map_values(|c: Cell| !c.is_discovered))
}

/// Number of `true` entries in a row.
pub open spec fn count_row(row: Seq<bool>) -> nat
    decreases row.len(),
{
    if row.len() == 0 {
        0
    } else {
        count_row(row.drop_last()) + if row.last() {
            1nat
        } else {
            0nat
        }
    }
}

/// Number of `true` entries in a grid.
pub open spec fn count_true(m: Seq<Seq<bool>>) -> nat
    decreases m.len(),
{
    if m.len() == 0 {
        0
    } else {
        count_true(m.drop_last()) + count_row(m.last())
    }
}

pub proof fn lemma_count_row_update(row: Seq<bool>, i: int, v: bool)
    requires
        0 <= i < row.len(),
    ensures
        count_row(row.update(i, v)) + (if row[i] {
            1int
        } else {
            0int
        }) == count_row(row) + (if v {
            1int
        } else {
            0int
        }),
    decreases row.len(),
{
    let u = row.update(i, v);
    if i == row.len() - 1 {
        assert(u.drop_last() =~= row.drop_last());
    } else {
        assert(u.drop_last() =~= row.drop_last().update(i, v));
        lemma_count_row_update(row.drop_last(), i, v);
    }
}

pub proof fn lemma_count_true_update(m: Seq<Seq<bool>>, p: Pos, v: bool)
    requires
        p.0 < m.len(),
        p.1 < m[p.0 as int].len(),
    ensures
        count_true(put(m, p, v)) + (if at(m, p) {
            1int
        } else {
            0int
        }) == count_true(m) + (if v {
            1int
        } else {
            0int
        }),
    decreases m.len(),
{
    let u = put(m, p, v);
    lemma_count_row_update(m[p.0 as int], p.1 as int, v);
    if p.0 == m.len() - 1 {
        assert(u.drop_last() =~= m.drop_last());
    } else {
        assert(u.drop_last() =~= put(m.drop_last(), p, v));
        lemma_count_true_update(m.drop_last(), p, v);
    }
}

/// The map of cell flags after one cell of the grid is replaced.
pub proof fn lemma_maps_put(g: Seq<Seq<Cell>>, p: Pos, x: Cell)
    requires
        p.0 < g.len(),
        p.1 < g[p.0 as int].len(),
    ensures
        bomb_map(put(g, p, x)) == put(bomb_map(g), p, x.is_bomb),
        flag_map(put(g, p, x)) == put(flag_map(g), p, x.is_flagged),
        hidden_map(put(g, p, x)) == put(hidden_map(g), p, !x.is_discovered),
{
    assert(bomb_map(put(g, p, x)) =~~= put(bomb_map(g), p, x.is_bomb));
    assert(flag_map(put(g, p, x)) =~~= put(flag_map(g), p, x.is_flagged));
    assert(hidden_map(put(g, p, x)) =~~= put(hidden_map(g), p, !x.is_discovered));
}

/// `(r2, c2)` touches `(r, c)`: one of the up to eight cells around it.
pub open spec fn is_adjacent(p: Pos, q: Pos, size: Pos) -> bool {
    &&& in_bounds(q, size)
    &&& q != p
    &&& p.0 <= q.0 + 1 && q.0 <= p.0 + 1
    &&& p.1 <= q.1 + 1 && q.1 <= p.1 + 1
}

/// The cells around `p`, in reading order: the row above, the two sides,
/// the row below.
pub open spec fn neighbors(p: Pos, size: Pos) -> Seq<Pos> {
    let r = p.0;
    let c = p.1;
    let left = c > 0;
    let right = c + 1 < size.1;
    let row_of = |rr: usize|
        (if left {
            seq![(rr, (c - 1) as usize)]
        } else {
            Seq::<Pos>::empty()
        }) + seq![(rr, c)] + (if right {
            seq![(rr, (c + 1) as usize)]
        } else {
            Seq::<Pos>::empty()
        });
    let top = if r > 0 {
        row_of((r - 1) as usize)
    } else {
        Seq::<Pos>::empty()
    };
    let side = (if left {
        seq![(r, (c - 1) as usize)]
    } else {
        Seq::<Pos>::empty()
    }) + (if right {
        seq![(r, (c + 1) as usize)]
    } else {
        Seq::<Pos>::empty()
    });
    let bottom = if r + 1 < size.0 {
        row_of((r + 1) as usize)
    } else {
        Seq::<Pos>::empty()
    };
    top + side + bottom
}

#[verifier::rlimit(50)]
pub proof fn lemma_neighbors(p: Pos, size: Pos)
    requires
        in_bounds(p, size),
    ensures
        forall|q: Pos| #[trigger] neighbors(p, size).contains(q) <==> is_adjacent(p, q, size),
        neighbors(p, size).no_duplicates(),
        neighbors(p, size).len() <= 8,
{
    let s = neighbors(p, size);
    let r = p.0;
    let c = p.1;
    let lf: int = if c > 0 { 1 } else { 0 };
    let rt: int = if c + 1 < size.1 { 1 } else { 0 };
    let t: int = if r > 0 { lf + 1 + rt } else { 0 };
    let sd: int = lf + rt;
    assert(s.len() == t + sd + (if r + 1 < size.0 { lf + 1 + rt } else { 0 }));
    assert forall|q: Pos| is_adjacent(p, q, size) implies #[trigger] s.contains(q) by {
        if q.0 + 1 == r {
            if q.1 + 1 == c {
                assert(s[0] == q);
            } else if q.1 == c {
                assert(s[lf] == q);
            } else {
                assert(s[lf + 1] == q);
            }
        } else if q.0 == r {
            if q.1 + 1 == c {
                assert(s[t] == q);
            } else {
                assert(s[t + lf] == q);
            }
        } else {
            if q.1 + 1 == c {
                assert(s[t + sd] == q);
            } else if q.1 == c {
                assert(s[t + sd + lf] == q);
            } else {
                assert(s[t + sd + lf + 1] == q);
            }
        }
    }
    assert forall|i: int| 0 <= i < s.len() implies is_adjacent(p, #[trigger] s[i], size) by {}
    assert forall|i: int, j: int| 0 <= i < j < s.len() implies #[trigger] s[i] != #[trigger] s[j] by {}
}

/// How many of the cells `s` hold a bomb, in the bomb map `b`.
pub open spec fn bombs_among(b: Seq<Seq<bool>>, s: Seq<Pos>) -> nat
    decreases s.len(),
{
    if s.len() == 0 {
        0
    } else {
        bombs_among(b, s.drop_last()) + if at(b, s.last()) {
            1nat
        } else {
            0nat
        }
    }
}

pub proof fn lemma_count_row_all_false(row: Seq<bool>)
    requires
        forall|i: int| 0 <= i < row.len() ==> !#[trigger] row[i],
    ensures
        count_row(row) == 0,
    decreases row.len(),
{
    if row.len() > 0 {
        lemma_count_row_all_false(row.drop_last());
    }
}

/// A grid with no `true` entry counts none.
pub proof fn lemma_count_true_all_false(m: Seq<Seq<bool>>)
    requires
        forall|r: int, c: int| 0 <= r < m.len() && 0 <= c < m[r].len() ==> !#[trigger] m[r][c],
    ensures
        count_true(m) == 0,
    decreases m.len(),
{
    if m.len() > 0 {
        lemma_count_true_all_false(m.drop_last());
        let last = m.last();
        assert forall|c: int| 0 <= c < last.len() implies !#[trigger] last[c] by {
            assert(last[c] == m[m.len() - 1][c]);
        }
        lemma_count_row_all_false(last);
    }
}

/// No cell of `s` holds a bomb when they count none.
pub proof fn lemma_no_bombs_among(b: Seq<Seq<bool>>, s: Seq<Pos>)
    requires
        bombs_among(b, s) == 0,
    ensures
        forall|i: int| 0 <= i < s.len() ==> !at(b, #[trigger] s[i]),
    decreases s.len(),
{
    if s.len() > 0 {
        lemma_no_bombs_among(b, s.drop_last());
        assert forall|i: int| 0 <= i < s.len() implies !at(b, #[trigger] s[i]) by {
            if i < s.len() - 1 {
                assert(s[i] == s.drop_last()[i]);
            }
        }
    }
}

/// What a cell shows under `t`, as the glyph `r`: a discovered cell its
/// bomb, its count or the empty glyph; a covered one its flag or the
/// covered glyph.
pub open spec fn shows_cell(c: Cell, t: &Theme, selected: bool, r: Seq<char>) -> bool {
    if c.is_discovered {
        if c.is_bomb {
            r == t.bomb@
        } else if c.number_of_adjusted_bombs == 0 {
            r == t.empty@
        } else {
            shows(
                r,
                decimal(c.number_of_adjusted_bombs as nat),
                number_color(t, c.number_of_adjusted_bombs, selected),
            )
        }
    } else if c.is_flagged {
        r == t.flag@
    } else {
        r == t.unknown@
    }
}

impl Cell {
    /// The glyph that stands for this cell under `theme`.
    pub fn content_to_show(&self, theme: &Theme, selected: bool) -> (r: String)
        ensures
            shows_cell(*self, theme, selected, r@),
    {
        if self.is_discovered {
            if self.is_bomb {
                theme.bomb.clone()
            } else if self.number_of_adjusted_bombs == 0 {
                theme.empty.clone()
            } else {
                theme.format_number_of_adjusted_bombs(self.number_of_adjusted_bombs, selected)
            }
        } else if self.is_flagged {
            theme.flag.clone()
        } else {
            theme.unknown.clone()
        }
    }
}

} // verus!
