use vstd::prelude::*;
use vstd::string::StringExecFns;

use crate::board::Board;
use crate::grid::{at, shows_cell, Cell};
use crate::layout::{column_border, lemma_row_offset_grows, row_border, row_offset};
use crate::theme::{border_color, content_color, shows, Theme};

verus! {

/// The padding a theme puts on each side of a cell's glyph.
pub open spec fn padding(t: &Theme) -> Seq<char> {
    if t.cell_horizontal_padding_enabled {
        t.cell_horizontal_padding@
    } else {
        Seq::empty()
    }
}

/// `piece` is made of the parts `border`, `glyph`, `shown` that draw column
/// `c` of a content line: the border line before the column when the theme
/// draws one there (lit when this cell or the one on its left is selected),
/// then the cell's glyph, highlighted when selected, between paddings.
pub open spec fn cell_piece_parts(
    t: &Theme,
    cell: Cell,
    c: int,
    selected: bool,
    left_selected: bool,
    piece: Seq<char>,
    border: Seq<char>,
    glyph: Seq<char>,
    shown: Seq<char>,
) -> bool {
    &&& piece == border + padding(t) + shown + padding(t)
    &&& if column_border(t, c) == 1 {
        shows(border, t.line_vertical@, border_color(t, selected || left_selected))
    } else {
        border.len() == 0
    }
    &&& shows_cell(cell, t, selected, glyph)
    &&& shows(shown, glyph, content_color(selected))
}

/// `piece` draws column `c` of a content line, with some parts.
pub open spec fn is_cell_piece(
    t: &Theme,
    cell: Cell,
    c: int,
    selected: bool,
    left_selected: bool,
    piece: Seq<char>,
) -> bool {
    exists|border: Seq<char>, glyph: Seq<char>, shown: Seq<char>| #[trigger]
        cell_piece_parts(t, cell, c, selected, left_selected, piece, border, glyph, shown)
}

/// The joint glyph at column `c` of the border line above row `row`, on a
/// board of `rows` rows (`row == rows` is the line below the last row).
pub open spec fn joint_glyph(t: &Theme, row: int, c: int, rows: int) -> Seq<char> {
    if row == 0 && c == 0 {
        t.corner_top_left@
    } else if row == 0 {
        t.edge_top@
    } else if row == rows && c == 0 {
        t.corner_bottom_left@
    } else if row == rows {
        t.edge_bottom@
    } else if c == 0 {
        t.edge_left@
    } else {
        t.line_cross@
    }
}

/// The glyph that closes the border line above row `row` on the right.
pub open spec fn end_glyph(t: &Theme, row: int, rows: int) -> Seq<char> {
    if row == 0 {
        t.corner_top_right@
    } else if row == rows {
        t.corner_bottom_right@
    } else {
        t.edge_right@
    }
}

impl Board {
    /// The selection is on `(r, c)`.
    pub open spec fn selects(&self, r: int, c: int) -> bool {
        self.selected_cell == Some((r as usize, c as usize))
    }

    /// `line` draws row `row`: one piece per column, then the outer border
    /// when the theme draws one.
    pub open spec fn is_content_line(&self, row: int, line: Seq<char>) -> bool {
        exists|pieces: Seq<Seq<char>>, end: Seq<char>| #[trigger]
            self.content_line_parts(row, line, pieces, end)
    }

    /// `line` is made of `pieces`, one per column, and `end`.
    pub open spec fn content_line_parts(
        &self,
        row: int,
        line: Seq<char>,
        pieces: Seq<Seq<char>>,
        end: Seq<char>,
    ) -> bool {
        &&& pieces.len() == self.size.1
        &&& line == pieces.flatten_alt() + end
        &&& forall|c: int|
            0 <= c < self.size.1 ==> is_cell_piece(
                &self.theme,
                at(self.grid(), (row as usize, c as usize)),
                c,
                self.selects(row, c),
                c > 0 && self.selects(row, c - 1),
                #[trigger] pieces[c],
            )
        &&& if self.theme.outer_border_enabled {
            shows(
                end,
                self.theme.line_vertical@,
                border_color(&self.theme, self.selects(row, self.size.1 - 1)),
            )
        } else {
            end.len() == 0
        }
    }

    fn is_selected(&self, row: usize, column: usize) -> (r: bool)
        ensures
            r == (self.selected_cell == Some((row, column))),
    {
        match self.selected_cell {
            Some((r, c)) => r == row && c == column,
            None => false,
        }
    }

    /// A cell just below or just above the border line over row `row`, in
    /// column `c`, is selected.
    pub open spec fn touches(&self, row: int, c: int) -> bool {
        (row < self.size.0 && self.selects(row, c)) || (row > 0 && self.selects(row - 1, c))
    }

    /// `piece` is made of `joint` and `stroke`, which draw column `c` of the
    /// border line above `row`: the joint before the column (lit only when
    /// the theme lights corners), then the horizontal line over the cell and
    /// its padding.
    pub open spec fn border_piece_parts(
        &self,
        row: int,
        c: int,
        piece: Seq<char>,
        joint: Seq<char>,
        stroke: Seq<char>,
    ) -> bool {
        let t = &self.theme;
        &&& piece == joint + if t.cell_horizontal_padding_enabled {
            stroke + stroke + stroke
        } else {
            stroke
        }
        &&& shows(
            joint,
            joint_glyph(t, row, c, self.size.0 as int),
            border_color(
                t,
                t.highlight_corner_on_selection && (self.touches(row, c) || (c > 0 && self.touches(
                    row,
                    c - 1,
                ))),
            ),
        )
        &&& shows(stroke, t.line_horizontal@, border_color(t, self.touches(row, c)))
    }

    /// `piece` draws column `c` of the border line above `row`.
    pub open spec fn is_border_piece(&self, row: int, c: int, piece: Seq<char>) -> bool {
        exists|joint: Seq<char>, stroke: Seq<char>| #[trigger]
            self.border_piece_parts(row, c, piece, joint, stroke)
    }

    /// `line` is the border line above row `row` (below the last row when
    /// `row == size.0`): one piece per column, then the closing glyph.
    pub open spec fn is_border_line(&self, row: int, line: Seq<char>) -> bool {
        exists|pieces: Seq<Seq<char>>, end: Seq<char>| #[trigger]
            self.border_line_parts(row, line, pieces, end)
    }

    /// `line` is made of `pieces`, one per column, and `end`.
    pub open spec fn border_line_parts(
        &self,
        row: int,
        line: Seq<char>,
        pieces: Seq<Seq<char>>,
        end: Seq<char>,
    ) -> bool {
        &&& pieces.len() == self.size.1
        &&& line == pieces.flatten_alt() + end
        &&& forall|c: int| 0 <= c < self.size.1 ==> self.is_border_piece(row, c, #[trigger] pieces[c])
        &&& shows(
            end,
            end_glyph(&self.theme, row, self.size.0 as int),
            border_color(
                &self.theme,
                self.theme.highlight_corner_on_selection && self.touches(row, self.size.1 - 1),
            ),
        )
    }

    /// The border line drawn above `row` (or below the last row, for
    /// `row == size.0`).
    fn border_line(&self, row: usize) -> (r: String)
        requires
            self.wf(),
            row <= self.size.0,
        ensures
            self.is_border_line(row as int, r@),
    {
        let last_row = row == self.size.0;
        let mut line = String::new();
        let ghost mut pieces: Seq<Seq<char>> = Seq::empty();
        let mut column: usize = 0;
        while column < self.size.1
            invariant
                self.wf(),
                row <= self.size.0,
                last_row == (row == self.size.0),
                column <= self.size.1,
                pieces.len() == column,
                line@ == pieces.flatten_alt(),
                forall|c: int|
                    0 <= c < column ==> self.is_border_piece(row as int, c, #[trigger] pieces[c]),
            decreases self.size.1 - column,
        {
            let ghost start = line@;
            // a cell touches this line from below, or from above for the last line
            let below = !last_row && self.is_selected(row, column);
            let above = row > 0 && self.is_selected(row - 1, column);
            let below_left = !last_row && column > 0 && self.is_selected(row, column - 1);
            let above_left = row > 0 && column > 0 && self.is_selected(row - 1, column - 1);
            let joint = if row == 0 && column == 0 {
                self.theme.format_corner_top_left(below)
            } else if row == 0 {
                self.theme.format_edge_top(below || below_left)
            } else if last_row && column == 0 {
                self.theme.format_corner_bottom_left(above)
            } else if last_row {
                self.theme.format_edge_bottom(above || above_left)
            } else if column == 0 {
                self.theme.format_edge_left(below || above)
            } else {
                self.theme.format_cross(below || below_left || above || above_left)
            };
            line.append(joint.as_str());
            // the line over the content, and over its padding
            let lit = below || above;
            let stroke = self.theme.format_horizontal_border(lit);
            line.append(stroke.as_str());
            if self.theme.cell_horizontal_padding_enabled {
                line.append(stroke.as_str());
                line.append(stroke.as_str());
            }
            proof {
                let piece = joint@ + if self.theme.cell_horizontal_padding_enabled {
                    stroke@ + stroke@ + stroke@
                } else {
                    stroke@
                };
                assert(line@ =~= start + piece);
                assert(self.border_piece_parts(row as int, column as int, piece, joint@, stroke@));
                let old_pieces = pieces;
                pieces = pieces.push(piece);
                assert(pieces.drop_last() == old_pieces);
                assert forall|c: int| 0 <= c < column + 1 implies self.is_border_piece(
                    row as int,
                    c,
                    #[trigger] pieces[c],
                ) by {
                    if c < column {
                        assert(pieces[c] == old_pieces[c]);
                    }
                }
            }
            column += 1;
        }
        let last_column = self.size.1 - 1;
        let below = !last_row && self.is_selected(row, last_column);
        let above = row > 0 && self.is_selected(row - 1, last_column);
        let end = if row == 0 {
            self.theme.format_corner_top_right(below)
        } else if last_row {
            self.theme.format_corner_bottom_right(above)
        } else {
            self.theme.format_edge_right(below || above)
        };
        line.append(end.as_str());
        proof {
            assert(line@ =~= pieces.flatten_alt() + end@);
            assert(self.border_line_parts(row as int, line@, pieces, end@));
        }
        line
    }

    /// The line that shows the cells of `row`.
    fn content_line(&self, row: usize) -> (r: String)
        requires
            self.wf(),
            row < self.size.0,
        ensures
            self.is_content_line(row as int, r@),
    {
        let mut line = String::new();
        assert(self.grid()[row as int].len() == self.size.1);
        let ghost mut pieces: Seq<Seq<char>> = Seq::empty();
        let mut column: usize = 0;
        while column < self.size.1
            invariant
                self.wf(),
                row < self.size.0,
                self.cells@[row as int]@.len() == self.size.1,
                column <= self.size.1,
                pieces.len() == column,
                line@ == pieces.flatten_alt(),
                forall|c: int|
                    0 <= c < column ==> is_cell_piece(
                        &self.theme,
                        at(self.grid(), (row, c as usize)),
                        c,
                        self.selects(row as int, c),
                        c > 0 && self.selects(row as int, c - 1),
                        #[trigger] pieces[c],
                    ),
            decreases self.size.1 - column,
        {
            let ghost start = line@;
            let selected = self.is_selected(row, column);
            let selected_on_left = column > 0 && self.is_selected(row, column - 1);
            let ghost mut border: Seq<char> = Seq::empty();
            if (column == 0 && self.theme.outer_border_enabled) || (column != 0
                && self.theme.inner_border_column_enabled) {
                let b = self.theme.format_vertical_border(selected || selected_on_left);
                line.append(b.as_str());
                proof {
                    border = b@;
                }
            }
            if self.theme.cell_horizontal_padding_enabled {
                line.append(self.theme.cell_horizontal_padding.as_str());
            }
            let cell = self.cells[row][column];
            assert(cell == at(self.grid(), (row, column)));
            let glyph = cell.content_to_show(&self.theme, selected);
            let shown = self.theme.format_cell_content(glyph.as_str(), selected);
            line.append(shown.as_str());
            if self.theme.cell_horizontal_padding_enabled {
                line.append(self.theme.cell_horizontal_padding.as_str());
            }
            proof {
                let piece = border + padding(&self.theme) + shown@ + padding(&self.theme);
                assert(line@ =~= start + piece);
                assert(cell_piece_parts(
                    &self.theme,
                    cell,
                    column as int,
                    selected,
                    selected_on_left,
                    piece,
                    border,
                    glyph@,
                    shown@,
                ));
                let old_pieces = pieces;
                pieces = pieces.push(piece);
                assert(pieces.drop_last() == old_pieces);
                assert forall|c: int| 0 <= c < column + 1 implies is_cell_piece(
                    &self.theme,
                    at(self.grid(), (row, c as usize)),
                    c,
                    self.selects(row as int, c),
                    c > 0 && self.selects(row as int, c - 1),
                    #[trigger] pieces[c],
                ) by {
                    if c < column {
                        assert(pieces[c] == old_pieces[c]);
                    }
                }
            }
            column += 1;
        }
        let ghost body = line@;
        let ghost mut end: Seq<char> = Seq::empty();
        if self.theme.outer_border_enabled {
            let selected = self.is_selected(row, self.size.1 - 1);
            let b = self.theme.format_vertical_border(selected);
            line.append(b.as_str());
            proof {
                end = b@;
            }
        }
        proof {
            assert(line@ =~= pieces.flatten_alt() + end);
            assert(self.content_line_parts(row as int, line@, pieces, end));
        }
        line
    }

    /// The picture of the board, line by line: for each row the border line
    /// above it (when the theme draws one there) and its content line, then
    /// the outer border below the last row.
    pub fn frame_lines(&self) -> (lines: Vec<String>)
        requires
            self.wf(),
        ensures
            lines@.len() == row_offset(&self.theme, self.size.0 as nat) + if self.theme.outer_border_enabled {
                1int
            } else {
                0int
            },
            self.frame_rows_drawn(lines@, self.size.0 as int),
            self.theme.outer_border_enabled ==> self.is_border_line(
                self.size.0 as int,
                lines@.last()@,
            ),
    {
        let mut lines: Vec<String> = Vec::new();
        let mut row: usize = 0;
        while row < self.size.0
            invariant
                self.wf(),
                row <= self.size.0,
                lines@.len() == row_offset(&self.theme, row as nat),
                self.frame_rows_drawn(lines@, row as int),
            decreases self.size.0 - row,
        {
            let ghost before = lines@;
            if (row == 0 && self.theme.outer_border_enabled) || (row != 0
                && self.theme.inner_border_row_enabled) {
                lines.push(self.border_line(row));
            }
            lines.push(self.content_line(row));
            proof {
                self.lemma_frame_rows_kept(before, lines@, row as int);
            }
            row += 1;
        }
        assert(row == self.size.0);
        if self.theme.outer_border_enabled {
            let ghost before = lines@;
            lines.push(self.border_line(self.size.0));
            proof {
                self.lemma_frame_rows_kept(before, lines@, self.size.0 as int);
            }
        }
        lines
    }

    /// In `lines`, each of the first `rows` rows has its content line where
    /// the layout puts it, and its border line just above when the theme
    /// draws one there.
    pub open spec fn frame_rows_drawn(&self, lines: Seq<String>, rows: int) -> bool {
        forall|r: int|
            0 <= r < rows ==> {
                &&& self.is_content_line(
                    r,
                    (#[trigger] lines[row_offset(&self.theme, r as nat) + row_border(&self.theme, r)])@,
                )
                &&& row_border(&self.theme, r) == 1 ==> self.is_border_line(
                    r,
                    lines[row_offset(&self.theme, r as nat)]@,
                )
            }
    }

    /// Lines added after the first `rows` rows leave those rows in place.
    proof fn lemma_frame_rows_kept(&self, before: Seq<String>, after: Seq<String>, rows: int)
        requires
            0 <= rows,
            before.len() == row_offset(&self.theme, rows as nat),
            self.frame_rows_drawn(before, rows),
            before.len() <= after.len(),
            forall|i: int| 0 <= i < before.len() ==> after[i] == before[i],
            rows < self.size.0 ==> {
                &&& after.len() == row_offset(&self.theme, (rows + 1) as nat)
                &&& self.is_content_line(rows, after.last()@)
                &&& row_border(&self.theme, rows) == 1 ==> self.is_border_line(
                    rows,
                    after[before.len() as int]@,
                )
            },
        ensures
            self.frame_rows_drawn(after, if rows < self.size.0 {
                rows + 1
            } else {
                rows
            }),
    {
        let top = if rows < self.size.0 {
            rows + 1
        } else {
            rows
        };
        assert forall|r: int| 0 <= r < top implies {
            &&& self.is_content_line(
                r,
                (#[trigger] after[row_offset(&self.theme, r as nat) + row_border(&self.theme, r)])@,
            )
            &&& row_border(&self.theme, r) == 1 ==> self.is_border_line(
                r,
                after[row_offset(&self.theme, r as nat)]@,
            )
        } by {
            lemma_row_offset_grows(&self.theme, 0, r as nat);
            assert(row_offset(&self.theme, (r + 1) as nat) == row_offset(&self.theme, r as nat)
                + row_border(&self.theme, r) + 1);
            if r < rows {
                lemma_row_offset_grows(&self.theme, (r + 1) as nat, rows as nat);
                assert(after[row_offset(&self.theme, r as nat) + row_border(&self.theme, r)]
                    == before[row_offset(&self.theme, r as nat) + row_border(&self.theme, r)]);
                assert(after[row_offset(&self.theme, r as nat)] == before[row_offset(
                    &self.theme,
                    r as nat,
                )]);
            }
        }
    }

    /// The picture of the board when something changed since the last one;
    /// `None` when nothing did.
    pub fn draw(&mut self) -> (r: Option<Vec<String>>)
        requires
            old(self).wf(),
        ensures
            final(self).wf(),
            old(self).unchanged(final(self)),
            final(self).theme == old(self).theme,
            !final(self).need_to_draw,
            r is Some <==> old(self).need_to_draw,
            r matches Some(lines) ==> lines@.len() == row_offset(
                &old(self).theme,
                old(self).size.0 as nat,
            ) + if old(self).theme.outer_border_enabled {
                1int
            } else {
                0int
            },
            r matches Some(lines) ==> old(self).frame_rows_drawn(lines@, old(self).size.0 as int),
            r matches Some(lines) ==> (old(self).theme.outer_border_enabled ==> old(
                self,
            ).is_border_line(old(self).size.0 as int, lines@.last()@)),
    {
        if !self.need_to_draw {
            return None;
        }
        let lines = self.frame_lines();
        self.need_to_draw = false;
        Some(lines)
    }
}

} // verus!
