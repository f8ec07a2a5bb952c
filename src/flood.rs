use vstd::prelude::*;

use crate::grid::{at, bomb_map, flag_map, in_bounds, is_adjacent, shaped, Cell, Pos};

verus! {

/// Neither discovered nor flagged: a cell that a reveal may still open.
pub open spec fn is_fresh(c: Cell) -> bool {
    !c.is_discovered && !c.is_flagged
}

/// `path` is a chain of fresh cells, each one adjacent to the one before,
/// where every cell but the last has no bomb around it: the way a reveal
/// spreads from `path[0]`.
pub open spec fn is_fill_path(g: Seq<Seq<Cell>>, size: Pos, path: Seq<Pos>) -> bool {
    &&& path.len() >= 1
    &&& forall|i: int|
        0 <= i < path.len() ==> in_bounds(#[trigger] path[i], size) && is_fresh(at(g, path[i]))
    &&& forall|i: int|
        0 <= i < path.len() - 1 ==> at(g, #[trigger] path[i]).number_of_adjusted_bombs == 0
            && is_adjacent(path[i], path[i + 1], size)
}

/// Revealing `p` on `g` opens `q`.
pub open spec fn fill_reaches(g: Seq<Seq<Cell>>, size: Pos, p: Pos, q: Pos) -> bool {
    exists|path: Seq<Pos>| #[trigger]
        is_fill_path(g, size, path) && path[0] == p && path.last() == q
}

/// Every cell around `q` is discovered or flagged.
pub open spec fn is_closed(g: Seq<Seq<Cell>>, size: Pos, q: Pos) -> bool {
    forall|n: Pos| #[trigger]
        is_adjacent(q, n, size) ==> at(g, n).is_discovered || at(g, n).is_flagged
}

/// `g` differs from `g0` only in which cells are discovered, and only by
/// discovering more.
pub open spec fn only_discovers(g0: Seq<Seq<Cell>>, g: Seq<Seq<Cell>>, size: Pos) -> bool {
    forall|q: Pos|
        in_bounds(q, size) ==> {
            &&& (#[trigger] at(g, q)).is_bomb == at(g0, q).is_bomb
            &&& at(g, q).number_of_adjusted_bombs == at(g0, q).number_of_adjusted_bombs
            &&& at(g, q).is_flagged == at(g0, q).is_flagged
            &&& (at(g0, q).is_discovered ==> at(g, q).is_discovered)
        }
}

/// Discovered in `g` but not in `g0`.
pub open spec fn newly(g0: Seq<Seq<Cell>>, g: Seq<Seq<Cell>>, q: Pos) -> bool {
    at(g, q).is_discovered && !at(g0, q).is_discovered
}

/// Nothing is reached from a cell that is not fresh.
pub proof fn lemma_stale_reaches_nothing(g: Seq<Seq<Cell>>, size: Pos, p: Pos)
    requires
        !is_fresh(at(g, p)),
    ensures
        forall|q: Pos| !fill_reaches(g, size, p, q),
{
    assert forall|q: Pos| !fill_reaches(g, size, p, q) by {
        if fill_reaches(g, size, p, q) {
            let path = choose|path: Seq<Pos>|
                is_fill_path(g, size, path) && path[0] == p && path.last() == q;
            assert(is_fresh(at(g, path[0])));
        }
    }
}

/// A fill path extended by one fresh cell next to its last, bomb-free cell.
pub proof fn lemma_extend(g: Seq<Seq<Cell>>, size: Pos, p: Pos, m: Pos, n: Pos)
    requires
        fill_reaches(g, size, p, m),
        at(g, m).number_of_adjusted_bombs == 0,
        is_adjacent(m, n, size),
        is_fresh(at(g, n)),
    ensures
        fill_reaches(g, size, p, n),
{
    let path = choose|path: Seq<Pos>|
        is_fill_path(g, size, path) && path[0] == p && path.last() == m;
    let np = path.push(n);
    assert forall|i: int| 0 <= i < np.len() - 1 implies at(
        g,
        #[trigger] np[i],
    ).number_of_adjusted_bombs == 0 && is_adjacent(np[i], np[i + 1], size) by {
        if i == np.len() - 2 {
            assert(np[i] == m);
        } else {
            assert(np[i] == path[i] && np[i + 1] == path[i + 1]);
        }
    }
    assert forall|i: int| 0 <= i < np.len() implies in_bounds(#[trigger] np[i], size) && is_fresh(
        at(g, np[i]),
    ) by {
        if i < path.len() {
            assert(np[i] == path[i]);
        }
    }
    assert(is_fill_path(g, size, np) && np[0] == p && np.last() == n);
}

/// When every newly discovered bomb-free cell is closed and the start of a
/// fill path is discovered, so is its end.
pub proof fn lemma_path_discovered(
    g0: Seq<Seq<Cell>>,
    g: Seq<Seq<Cell>>,
    size: Pos,
    path: Seq<Pos>,
)
    requires
        is_fill_path(g0, size, path),
        only_discovers(g0, g, size),
        at(g, path[0]).is_discovered,
        forall|q: Pos|
            in_bounds(q, size) && newly(g0, g, q) && at(g, q).number_of_adjusted_bombs == 0
                ==> #[trigger] is_closed(g, size, q),
    ensures
        at(g, path.last()).is_discovered,
    decreases path.len(),
{
    if path.len() > 1 {
        let prefix = path.drop_last();
        assert forall|i: int| 0 <= i < prefix.len() - 1 implies at(
            g0,
            #[trigger] prefix[i],
        ).number_of_adjusted_bombs == 0 && is_adjacent(prefix[i], prefix[i + 1], size) by {
            assert(prefix[i] == path[i] && prefix[i + 1] == path[i + 1]);
        }
        assert forall|i: int| 0 <= i < prefix.len() implies in_bounds(#[trigger] prefix[i], size)
            && is_fresh(at(g0, prefix[i])) by {
            assert(prefix[i] == path[i]);
        }
        lemma_path_discovered(g0, g, size, prefix);
        let k = path.len() - 2;
        let m = path[k];
        assert(prefix.last() == m);
        assert(in_bounds(m, size) && is_fresh(at(g0, m)));
        assert(at(g0, m).number_of_adjusted_bombs == 0 && is_adjacent(m, path[k + 1], size));
        assert(at(g, m).number_of_adjusted_bombs == 0 && newly(g0, g, m));
        assert(is_closed(g, size, m));
        assert(path[k + 1] == path.last());
        assert(at(g, path.last()).is_flagged == at(g0, path.last()).is_flagged);
        assert(in_bounds(path.last(), size) && is_fresh(at(g0, path.last())));
    }
}

/// Discovering cells leaves the bombs and the flags where they were.
pub proof fn lemma_only_discovers_maps(g0: Seq<Seq<Cell>>, g: Seq<Seq<Cell>>, size: Pos)
    requires
        shaped(g0, size),
        shaped(g, size),
        only_discovers(g0, g, size),
    ensures
        bomb_map(g) == bomb_map(g0),
        flag_map(g) == flag_map(g0),
{
    assert forall|r: int| 0 <= r < size.0 implies bomb_map(g)[r] =~= bomb_map(g0)[r]
        && flag_map(g)[r] =~= flag_map(g0)[r] by {
        assert(g[r].len() == size.1 && g0[r].len() == size.1);
        assert forall|c: int| 0 <= c < size.1 implies bomb_map(g)[r][c] == bomb_map(g0)[r][c]
            && flag_map(g)[r][c] == flag_map(g0)[r][c] by {
            let q = (r as usize, c as usize);
            assert(at(g, q) == g[r][c]);
        }
    }
    assert(bomb_map(g) =~= bomb_map(g0));
    assert(flag_map(g) =~= flag_map(g0));
}

pub proof fn lemma_only_discovers_trans(
    g0: Seq<Seq<Cell>>,
    g1: Seq<Seq<Cell>>,
    g2: Seq<Seq<Cell>>,
    size: Pos,
)
    requires
        only_discovers(g0, g1, size),
        only_discovers(g1, g2, size),
    ensures
        only_discovers(g0, g2, size),
{
    assert forall|q: Pos| in_bounds(q, size) implies {
        &&& (#[trigger] at(g2, q)).is_bomb == at(g0, q).is_bomb
        &&& at(g2, q).number_of_adjusted_bombs == at(g0, q).number_of_adjusted_bombs
        &&& at(g2, q).is_flagged == at(g0, q).is_flagged
        &&& (at(g0, q).is_discovered ==> at(g2, q).is_discovered)
    } by {
        assert(at(g1, q) == at(g1, q));
    }
}

/// Joining a fill path to `x` with one from `x`, when `x` has no bomb around it.
pub proof fn lemma_reach_trans(g: Seq<Seq<Cell>>, size: Pos, a: Pos, x: Pos, q: Pos)
    requires
        fill_reaches(g, size, a, x),
        at(g, x).number_of_adjusted_bombs == 0,
        fill_reaches(g, size, x, q),
    ensures
        fill_reaches(g, size, a, q),
{
    let head = choose|path: Seq<Pos>|
        is_fill_path(g, size, path) && path[0] == a && path.last() == x;
    let rest = choose|path: Seq<Pos>|
        is_fill_path(g, size, path) && path[0] == x && path.last() == q;
    let tail = rest.subrange(1, rest.len() as int);
    let path = head + tail;
    assert forall|i: int| 0 <= i < path.len() implies in_bounds(#[trigger] path[i], size)
        && is_fresh(at(g, path[i])) by {
        if i >= head.len() {
            assert(path[i] == rest[i - head.len() + 1]);
        }
    }
    assert forall|i: int| 0 <= i < path.len() - 1 implies at(
        g,
        #[trigger] path[i],
    ).number_of_adjusted_bombs == 0 && is_adjacent(path[i], path[i + 1], size) by {
        if i < head.len() - 1 {
            assert(path[i] == head[i] && path[i + 1] == head[i + 1]);
        } else if i == head.len() - 1 {
            assert(path[i] == x && path[i + 1] == rest[1]);
            assert(rest[0] == x);
        } else {
            assert(path[i] == rest[i - head.len() + 1] && path[i + 1] == rest[i - head.len() + 2]);
        }
    }
    if rest.len() == 1 {
        assert(path =~= head);
    } else {
        assert(path.last() == rest.last());
    }
    assert(is_fill_path(g, size, path) && path[0] == a && path.last() == q);
}

/// A fill path on `g0` that ends on a cell still covered in a later grid `g`
/// either is a fill path on `g` too, or passes a bomb-free cell discovered
/// since, from which the rest of it is a fill path.
pub proof fn lemma_reach_later(g0: Seq<Seq<Cell>>, g: Seq<Seq<Cell>>, size: Pos, n: Pos, q: Pos)
    requires
        only_discovers(g0, g, size),
        fill_reaches(g0, size, n, q),
        !at(g, q).is_discovered,
    ensures
        fill_reaches(g, size, n, q) || exists|x: Pos|
            in_bounds(x, size) && #[trigger] newly(g0, g, x) && at(g0, x).number_of_adjusted_bombs
                == 0 && fill_reaches(g0, size, x, q),
{
    let path = choose|path: Seq<Pos>|
        is_fill_path(g0, size, path) && path[0] == n && path.last() == q;
    if exists|i: int| 0 <= i < path.len() && #[trigger] at(g, path[i]).is_discovered {
        let i = choose|i: int| 0 <= i < path.len() && #[trigger] at(g, path[i]).is_discovered;
        let x = path[i];
        let rest = path.subrange(i, path.len() as int);
        assert(in_bounds(x, size) && is_fresh(at(g0, x)));
        assert(i != path.len() - 1);
        assert forall|k: int| 0 <= k < rest.len() implies in_bounds(#[trigger] rest[k], size)
            && is_fresh(at(g0, rest[k])) by {
            assert(rest[k] == path[i + k]);
        }
        assert forall|k: int| 0 <= k < rest.len() - 1 implies at(
            g0,
            #[trigger] rest[k],
        ).number_of_adjusted_bombs == 0 && is_adjacent(rest[k], rest[k + 1], size) by {
            assert(rest[k] == path[i + k] && rest[k + 1] == path[i + k + 1]);
        }
        assert(is_fill_path(g0, size, rest) && rest[0] == x && rest.last() == q);
        assert(newly(g0, g, x));
    } else {
        assert forall|k: int| 0 <= k < path.len() implies in_bounds(#[trigger] path[k], size)
            && is_fresh(at(g, path[k])) by {
            assert(!at(g, path[k]).is_discovered);
        }
        assert forall|k: int| 0 <= k < path.len() - 1 implies at(
            g,
            #[trigger] path[k],
        ).number_of_adjusted_bombs == 0 && is_adjacent(path[k], path[k + 1], size) by {
            assert(in_bounds(path[k], size));
        }
        assert(is_fill_path(g, size, path));
    }
}

/// A fill path on a later grid is one on the earlier grid.
pub proof fn lemma_reach_earlier(g0: Seq<Seq<Cell>>, g: Seq<Seq<Cell>>, size: Pos, n: Pos, q: Pos)
    requires
        only_discovers(g0, g, size),
        fill_reaches(g, size, n, q),
    ensures
        fill_reaches(g0, size, n, q),
{
    let path = choose|path: Seq<Pos>|
        is_fill_path(g, size, path) && path[0] == n && path.last() == q;
    assert forall|k: int| 0 <= k < path.len() implies in_bounds(#[trigger] path[k], size)
        && is_fresh(at(g0, path[k])) by {
        assert(in_bounds(path[k], size));
    }
    assert forall|k: int| 0 <= k < path.len() - 1 implies at(
        g0,
        #[trigger] path[k],
    ).number_of_adjusted_bombs == 0 && is_adjacent(path[k], path[k + 1], size) by {
        assert(in_bounds(path[k], size));
    }
    assert(is_fill_path(g0, size, path));
}

/// How many of the cells `s` carry a flag.
pub open spec fn flagged_among(g: Seq<Seq<Cell>>, s: Seq<Pos>) -> nat
    decreases s.len(),
{
    if s.len() == 0 {
        0
    } else {
        flagged_among(g, s.drop_last()) + if at(g, s.last()).is_flagged {
            1nat
        } else {
            0nat
        }
    }
}

/// How many of the cells `s` are fresh.
pub open spec fn fresh_among(g: Seq<Seq<Cell>>, s: Seq<Pos>) -> nat
    decreases s.len(),
{
    if s.len() == 0 {
        0
    } else {
        fresh_among(g, s.drop_last()) + if is_fresh(at(g, s.last())) {
            1nat
        } else {
            0nat
        }
    }
}

/// `g` differs from `g0` only by flags placed on cells.
pub open spec fn only_flags(g0: Seq<Seq<Cell>>, g: Seq<Seq<Cell>>, size: Pos) -> bool {
    forall|q: Pos|
        in_bounds(q, size) ==> {
            &&& (#[trigger] at(g, q)).is_bomb == at(g0, q).is_bomb
            &&& at(g, q).number_of_adjusted_bombs == at(g0, q).number_of_adjusted_bombs
            &&& at(g, q).is_discovered == at(g0, q).is_discovered
            &&& (at(g0, q).is_flagged ==> at(g, q).is_flagged)
        }
}

/// A prefix of `s` has no more fresh cells than `s`.
pub proof fn lemma_fresh_among_prefix(g: Seq<Seq<Cell>>, s: Seq<Pos>, i: int)
    requires
        0 <= i <= s.len(),
    ensures
        fresh_among(g, s.take(i)) <= fresh_among(g, s),
    decreases s.len(),
{
    if i < s.len() {
        assert(s.take(i) =~= s.drop_last().take(i));
        lemma_fresh_among_prefix(g, s.drop_last(), i);
    } else {
        assert(s.take(i) =~= s);
    }
}

/// `g` with every cell covered again.
pub open spec fn covered(g: Seq<Seq<Cell>>) -> Seq<Seq<Cell>> {
    g.map_values(|row: Seq<Cell>| row.map_values(|c: Cell| Cell { is_discovered: false, ..c }))
}

/// `q` is a covered cell without a bomb, and no covered cell without a bomb
/// has fewer bombs around it.
pub open spec fn is_least_safe(g: Seq<Seq<Cell>>, size: Pos, q: Pos) -> bool {
    &&& in_bounds(q, size)
    &&& !at(g, q).is_bomb
    &&& !at(g, q).is_discovered
    &&& forall|q2: Pos|
        in_bounds(q2, size) && !(#[trigger] at(g, q2)).is_bomb && !at(g, q2).is_discovered
            ==> at(g, q).number_of_adjusted_bombs <= at(g, q2).number_of_adjusted_bombs
}

/// Discovering cells on a fully covered grid: covering them again gives the
/// grid back.
pub proof fn lemma_covered_again(g0: Seq<Seq<Cell>>, g: Seq<Seq<Cell>>, size: Pos)
    requires
        shaped(g0, size),
        shaped(g, size),
        only_discovers(g0, g, size),
        forall|q: Pos| in_bounds(q, size) ==> !(#[trigger] at(g0, q)).is_discovered,
    ensures
        covered(g) == g0,
{
    assert forall|r: int| 0 <= r < size.0 implies covered(g)[r] =~= g0[r] by {
        assert(g[r].len() == size.1 && g0[r].len() == size.1);
        assert forall|c: int| 0 <= c < size.1 implies covered(g)[r][c] == g0[r][c] by {
            let q = (r as usize, c as usize);
            assert(at(g, q) == g[r][c] && at(g0, q) == g0[r][c]);
        }
    }
    assert(covered(g) =~= g0);
}

} // verus!
