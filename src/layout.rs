use vstd::prelude::*;

use crate::theme::Theme;

verus! {

// The renderer lays the grid out in bands: a band per column (and per row),
// made of an optional border line and then the cell's content. A column's
// content is one glyph, with one space of padding on each side when the
// theme pads cells; a row's content is one line.

/// 1 when a vertical border line stands before column `c`.
pub open spec fn column_border(t: &Theme, c: int) -> int {
    if (c == 0 && t.outer_border_enabled) || (c != 0 && t.inner_border_column_enabled) {
        1
    } else {
        0
    }
}

/// 1 when a horizontal border line stands above row `r`.
pub open spec fn row_border(t: &Theme, r: int) -> int {
    if (r == 0 && t.outer_border_enabled) || (r != 0 && t.inner_border_row_enabled) {
        1
    } else {
        0
    }
}

/// Terminal columns taken by a cell's content.
pub open spec fn cell_width(t: &Theme) -> int {
    if t.cell_horizontal_padding_enabled {
        3
    } else {
        1
    }
}

/// The terminal column where the band of column `c` begins.
pub open spec fn column_offset(t: &Theme, c: nat) -> int
    decreases c,
{
    if c == 0 {
        0
    } else {
        column_offset(t, (c - 1) as nat) + column_border(t, c - 1) + cell_width(t)
    }
}

/// The terminal line where the band of row `r` begins.
pub open spec fn row_offset(t: &Theme, r: nat) -> int
    decreases r,
{
    if r == 0 {
        0
    } else {
        row_offset(t, (r - 1) as nat) + row_border(t, r - 1) + 1
    }
}

/// Terminal column `x` lies on the content of grid column `c`.
pub open spec fn in_column_content(t: &Theme, c: nat, x: int) -> bool {
    column_offset(t, c) + column_border(t, c as int) <= x < column_offset(t, c + 1)
}

/// Terminal line `y` lies on the content of grid row `r`.
pub open spec fn in_row_content(t: &Theme, r: nat, y: int) -> bool {
    row_offset(t, r) + row_border(t, r as int) <= y < row_offset(t, r + 1)
}

/// The grid column whose content covers terminal column `x`, if any.
pub open spec fn column_at(t: &Theme, columns: nat, x: int) -> Option<nat> {
    if exists|c: nat| c < columns && #[trigger] in_column_content(t, c, x) {
        Some(choose|c: nat| c < columns && #[trigger] in_column_content(t, c, x))
    } else {
        None
    }
}

/// The grid row whose content covers terminal line `y`, if any.
pub open spec fn row_at(t: &Theme, rows: nat, y: int) -> Option<nat> {
    if exists|r: nat| r < rows && #[trigger] in_row_content(t, r, y) {
        Some(choose|r: nat| r < rows && #[trigger] in_row_content(t, r, y))
    } else {
        None
    }
}

/// The cell drawn at terminal line `y`, column `x`, if any.
pub open spec fn cell_at(t: &Theme, size: (usize, usize), y: int, x: int) -> Option<(usize, usize)> {
    match (row_at(t, size.0 as nat, y), column_at(t, size.1 as nat, x)) {
        (Some(r), Some(c)) => Some((r as usize, c as usize)),
        _ => None,
    }
}

pub proof fn lemma_column_offset_grows(t: &Theme, a: nat, b: nat)
    requires
        a <= b,
    ensures
        column_offset(t, a) + (b - a) <= column_offset(t, b),
    decreases b - a,
{
    if a < b {
        lemma_column_offset_grows(t, a, (b - 1) as nat);
    }
}

pub proof fn lemma_row_offset_grows(t: &Theme, a: nat, b: nat)
    requires
        a <= b,
    ensures
        row_offset(t, a) + (b - a) <= row_offset(t, b),
    decreases b - a,
{
    if a < b {
        lemma_row_offset_grows(t, a, (b - 1) as nat);
    }
}

/// No two columns share a terminal column.
pub proof fn lemma_column_content_unique(t: &Theme, c1: nat, c2: nat, x: int)
    requires
        in_column_content(t, c1, x),
        in_column_content(t, c2, x),
    ensures
        c1 == c2,
{
    if c1 < c2 {
        lemma_column_offset_grows(t, c1 + 1, c2);
    } else if c2 < c1 {
        lemma_column_offset_grows(t, c2 + 1, c1);
    }
}

/// No two rows share a terminal line.
pub proof fn lemma_row_content_unique(t: &Theme, r1: nat, r2: nat, y: int)
    requires
        in_row_content(t, r1, y),
        in_row_content(t, r2, y),
    ensures
        r1 == r2,
{
    if r1 < r2 {
        lemma_row_offset_grows(t, r1 + 1, r2);
    } else if r2 < r1 {
        lemma_row_offset_grows(t, r2 + 1, r1);
    }
}

/// Finds the grid column drawn at terminal column `x`.
pub fn find_column(theme: &Theme, columns: usize, x: usize) -> (r: Option<usize>)
    ensures
        r == match column_at(theme, columns as nat, x as int) {
            Some(c) => Some(c as usize),
            None => None::<usize>,
        },
{
    let width: usize = if theme.cell_horizontal_padding_enabled {
        3
    } else {
        1
    };
    let mut rest: usize = x;
    let mut c: usize = 0;
    while c < columns
        invariant
            c <= columns,
            width as int == cell_width(theme),
            rest as int + column_offset(theme, c as nat) == x as int,
            forall|c2: nat| c2 < c ==> !#[trigger] in_column_content(theme, c2, x as int),
        decreases columns - c,
    {
        if (c == 0 && theme.outer_border_enabled) || (c != 0 && theme.inner_border_column_enabled) {
            if rest == 0 {
                // on a border line
                proof {
                    assert forall|c2: nat| c2 < columns implies !#[trigger] in_column_content(
                        theme,
                        c2,
                        x as int,
                    ) by {
                        if c2 > c {
                            lemma_column_offset_grows(theme, c as nat, c2);
                        }
                    }
                }
                return None;
            }
            rest = rest - 1;
        }
        if rest < width {
            proof {
                assert(in_column_content(theme, c as nat, x as int));
                assert forall|c2: nat|
                    c2 < columns && #[trigger] in_column_content(theme, c2, x as int) implies c2
                        == c by {
                    lemma_column_content_unique(theme, c2, c as nat, x as int);
                }
            }
            return Some(c);
        }
        rest = rest - width;
        proof {
            assert forall|c2: nat| c2 < c + 1 implies !#[trigger] in_column_content(theme, c2, x as int) by {
                if c2 == c {
                    assert(!in_column_content(theme, c as nat, x as int));
                }
            }
        }
        c += 1;
    }
    None
}

/// Finds the grid row drawn at terminal line `y`.
pub fn find_row(theme: &Theme, rows: usize, y: usize) -> (r: Option<usize>)
    ensures
        r == match row_at(theme, rows as nat, y as int) {
            Some(c) => Some(c as usize),
            None => None::<usize>,
        },
{
    let mut rest: usize = y;
    let mut r: usize = 0;
    while r < rows
        invariant
            r <= rows,
            rest as int + row_offset(theme, r as nat) == y as int,
            forall|r2: nat| r2 < r ==> !#[trigger] in_row_content(theme, r2, y as int),
        decreases rows - r,
    {
        if (r == 0 && theme.outer_border_enabled) || (r != 0 && theme.inner_border_row_enabled) {
            if rest == 0 {
                // on a border line
                proof {
                    assert forall|r2: nat| r2 < rows implies !#[trigger] in_row_content(
                        theme,
                        r2,
                        y as int,
                    ) by {
                        if r2 > r {
                            lemma_row_offset_grows(theme, r as nat, r2);
                        }
                    }
                }
                return None;
            }
            rest = rest - 1;
        }
        if rest < 1 {
            proof {
                assert(in_row_content(theme, r as nat, y as int));
                assert forall|r2: nat|
                    r2 < rows && #[trigger] in_row_content(theme, r2, y as int) implies r2
                        == r by {
                    lemma_row_content_unique(theme, r2, r as nat, y as int);
                }
            }
            return Some(r);
        }
        rest = rest - 1;
        proof {
            assert forall|r2: nat| r2 < r + 1 implies !#[trigger] in_row_content(theme, r2, y as int) by {
                if r2 == r {
                    assert(!in_row_content(theme, r as nat, y as int));
                }
            }
        }
        r += 1;
    }
    None
}

/// Every terminal position on the content of the cell `(r, c)` is mapped
/// back to that very cell: the mapping inverts the layout.
pub proof fn lemma_cell_at_inverts_layout(t: &Theme, size: (usize, usize), r: usize, c: usize, y: int, x: int)
    requires
        r < size.0,
        c < size.1,
        in_row_content(t, r as nat, y),
        in_column_content(t, c as nat, x),
    ensures
        cell_at(t, size, y, x) == Some((r, c)),
{
    let rc = choose|r2: nat| r2 < size.0 && #[trigger] in_row_content(t, r2, y);
    lemma_row_content_unique(t, rc, r as nat, y);
    let cc = choose|c2: nat| c2 < size.1 && #[trigger] in_column_content(t, c2, x);
    lemma_column_content_unique(t, cc, c as nat, x);
}

/// A terminal column on the vertical border line before grid column `c`
/// belongs to no cell, and neither does a line on the horizontal border
/// line above grid row `r`.
pub proof fn lemma_border_maps_to_nothing(t: &Theme, size: (usize, usize), r: nat, c: nat, y: int, x: int)
    ensures
        column_border(t, c as int) == 1 && x == column_offset(t, c) ==> cell_at(t, size, y, x)
            is None,
        row_border(t, r as int) == 1 && y == row_offset(t, r) ==> cell_at(t, size, y, x) is None,
{
    if column_border(t, c as int) == 1 && x == column_offset(t, c) {
        assert forall|c2: nat| !#[trigger] in_column_content(t, c2, x) by {
            if c2 > c {
                lemma_column_offset_grows(t, c, c2);
            } else if c2 < c {
                lemma_column_offset_grows(t, c2 + 1, c);
            }
        }
    }
    if row_border(t, r as int) == 1 && y == row_offset(t, r) {
        assert forall|r2: nat| !#[trigger] in_row_content(t, r2, y) by {
            if r2 > r {
                lemma_row_offset_grows(t, r, r2);
            } else if r2 < r {
                lemma_row_offset_grows(t, r2 + 1, r);
            }
        }
    }
}

/// A cell found at a terminal position lies on the board.
pub proof fn lemma_cell_at_in_bounds(t: &Theme, size: (usize, usize), y: int, x: int)
    ensures
        cell_at(t, size, y, x) matches Some(p) ==> p.0 < size.0 && p.1 < size.1,
{
}

} // verus!
