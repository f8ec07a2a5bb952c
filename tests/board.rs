use minesweeper::board::{init_game_with_bombs, init_random_game, Board, GameCompletionStatus};
use minesweeper::grid::init_blank_cell;
use minesweeper::theme::{border_theme, borderless_theme};

// a 3x3 board with its only bomb in the top left corner
fn corner_board() -> Board {
    init_game_with_bombs((3, 3), &vec![(0, 0)], border_theme())
}

fn discovered(b: &Board) -> Vec<(usize, usize)> {
    let mut out = Vec::new();
    for r in 0..b.size.0 {
        for c in 0..b.size.1 {
            if b.cells[r][c].is_discovered {
                out.push((r, c));
            }
        }
    }
    out
}

fn flagged(b: &Board) -> usize {
    b.cells.iter().flatten().filter(|c| c.is_flagged).count()
}

#[test]
fn convet_mouse_to_index() {
    let game_board = init_random_game((5, 10), 15, border_theme());

    assert_eq!(game_board.convert_mouse_to_index(0, 0), None);
    assert_eq!(game_board.convert_mouse_to_index(0, 1), None);
    assert_eq!(game_board.convert_mouse_to_index(0, 2), None);
    assert_eq!(game_board.convert_mouse_to_index(0, 3), None);
    assert_eq!(game_board.convert_mouse_to_index(0, 4), None);

    assert_eq!(game_board.convert_mouse_to_index(1, 0), None);
    assert_eq!(game_board.convert_mouse_to_index(1, 1), Some((0, 0)));
    assert_eq!(game_board.convert_mouse_to_index(1, 2), Some((0, 0)));
    assert_eq!(game_board.convert_mouse_to_index(1, 3), Some((0, 0)));
    assert_eq!(game_board.convert_mouse_to_index(1, 4), None);
    assert_eq!(game_board.convert_mouse_to_index(1, 5), Some((0, 1)));
    assert_eq!(game_board.convert_mouse_to_index(1, 6), Some((0, 1)));
    assert_eq!(game_board.convert_mouse_to_index(1, 7), Some((0, 1)));
    assert_eq!(game_board.convert_mouse_to_index(1, 8), None);
}

#[test]
fn borderless_mouse_mapping() {
    let b = init_game_with_bombs((2, 3), &vec![], borderless_theme());
    // no outer border and no row lines; one space between columns
    assert_eq!(b.convert_mouse_to_index(0, 0), Some((0, 0)));
    assert_eq!(b.convert_mouse_to_index(0, 1), None);
    assert_eq!(b.convert_mouse_to_index(0, 2), Some((0, 1)));
    assert_eq!(b.convert_mouse_to_index(1, 4), Some((1, 2)));
    assert_eq!(b.convert_mouse_to_index(1, 5), None);
    assert_eq!(b.convert_mouse_to_index(2, 0), None);
}

#[test]
fn bordered_mouse_mapping_rows() {
    let b = init_game_with_bombs((2, 2), &vec![], border_theme());
    assert_eq!(b.convert_mouse_to_index(2, 2), None);
    assert_eq!(b.convert_mouse_to_index(3, 2), Some((1, 0)));
    assert_eq!(b.convert_mouse_to_index(3, 6), Some((1, 1)));
    assert_eq!(b.convert_mouse_to_index(4, 6), None);
    assert_eq!(b.convert_mouse_to_index(3, 8), None);
}

#[test]
fn blank_cell_is_blank() {
    let c = init_blank_cell();
    assert!(!c.is_bomb && !c.is_flagged && !c.is_discovered);
    assert_eq!(c.number_of_adjusted_bombs, 0);
}

#[test]
fn corner_bomb_counts() {
    let b = corner_board();
    assert!(b.cells[0][0].is_bomb);
    assert_eq!(b.cells[0][1].number_of_adjusted_bombs, 1);
    assert_eq!(b.cells[1][0].number_of_adjusted_bombs, 1);
    assert_eq!(b.cells[1][1].number_of_adjusted_bombs, 1);
    for (r, c) in [(0, 2), (1, 2), (2, 0), (2, 1), (2, 2)] {
        assert_eq!(b.cells[r][c].number_of_adjusted_bombs, 0);
    }
    assert_eq!(b.number_of_bombs, 1);
    assert_eq!(b.remaining_flags, 1);
    assert!(discovered(&b).is_empty());
    assert_eq!(b.status(), GameCompletionStatus::GameIsOnGoing);
}

#[test]
fn reveal_opens_the_empty_area_and_wins() {
    let mut b = corner_board();
    b.discover_cell((2, 2));
    let open = discovered(&b);
    assert_eq!(open.len(), 8);
    assert!(!b.cells[0][0].is_discovered);
    assert_eq!(b.status(), GameCompletionStatus::CompletedAsWin);
    b.update();
    assert_eq!(b.game_completion_status, GameCompletionStatus::CompletedAsWin);
}

#[test]
fn revealing_the_bomb_loses() {
    let mut b = corner_board();
    b.discover_cell((0, 0));
    // the bomb has no bomb around it, so the reveal spreads as for any such cell
    assert!(b.cells[0][0].is_discovered);
    assert_eq!(b.status(), GameCompletionStatus::CompletedAsLost);
}

#[test]
fn reveal_of_a_numbered_cell_opens_only_it() {
    let mut b = corner_board();
    b.discover_cell((1, 1));
    assert_eq!(discovered(&b), vec![(1, 1)]);
    assert_eq!(b.status(), GameCompletionStatus::GameIsOnGoing);
}

#[test]
fn reveal_stops_at_flags() {
    // bombs along the left column of a 3x4 board
    let mut b = init_game_with_bombs((3, 4), &vec![(0, 0), (1, 0), (2, 0)], border_theme());
    b.set_cell_flag((1, 2), true);
    b.discover_cell((0, 3));
    // column 3 and column 2 but the flag, stopping at the count cells of column 1
    assert!(b.cells[0][3].is_discovered && b.cells[2][3].is_discovered);
    assert!(!b.cells[1][2].is_discovered && b.cells[1][2].is_flagged);
    assert!(b.cells[0][1].is_discovered && b.cells[2][1].is_discovered);
    assert!(!b.cells[0][0].is_discovered);
    // a flagged cell is not opened by a reveal
    b.discover_cell((1, 2));
    assert!(!b.cells[1][2].is_discovered);
}

#[test]
fn hint_picks_a_cell_with_the_fewest_bombs_around() {
    let b = corner_board();
    let mut candidates = b.hint_candidates();
    candidates.sort();
    assert_eq!(candidates, vec![(0, 2), (1, 2), (2, 0), (2, 1), (2, 2)]);
    for _ in 0..20 {
        let mut g = corner_board();
        g.hint();
        // any zero cell opens the whole safe area
        assert_eq!(discovered(&g).len(), 8);
        assert!(!g.cells[0][0].is_discovered);
    }
}

#[test]
fn hint_with_no_safe_cell_does_nothing() {
    let mut b = init_game_with_bombs((1, 2), &vec![(0, 0), (0, 1)], border_theme());
    assert!(b.hint_candidates().is_empty());
    b.hint();
    assert!(discovered(&b).is_empty());
}

#[test]
fn hint_prefers_fewest_bombs_over_zero_free_boards() {
    // every safe cell touches a bomb: the ones touching one are chosen
    let b = init_game_with_bombs((1, 4), &vec![(0, 0), (0, 2)], border_theme());
    // (0,1) touches two bombs, (0,3) one
    assert_eq!(b.hint_candidates(), vec![(0, 3)]);
}

#[test]
fn chord_reveals_when_flags_match() {
    // (1,1) has bombs at (0,0) and (0,1) around it
    let mut b = init_game_with_bombs((2, 2), &vec![(0, 0), (0, 1)], border_theme());
    b.discover_cell((1, 1));
    assert_eq!(b.cells[1][1].number_of_adjusted_bombs, 2);
    b.intract_with_cell(0, 0, true);
    b.intract_with_cell(0, 1, true);
    assert_eq!(b.remaining_flags, 0);
    b.discover_or_flag_adjusted_cells((1, 1));
    assert!(b.cells[1][0].is_discovered);
    assert!(!b.cells[0][0].is_discovered && !b.cells[0][1].is_discovered);
    assert_eq!(b.status(), GameCompletionStatus::CompletedAsWin);
}

#[test]
fn chord_flags_when_the_rest_must_be_bombs() {
    let mut b = init_game_with_bombs((2, 2), &vec![(0, 0), (0, 1)], border_theme());
    b.discover_cell((1, 1));
    b.discover_cell((1, 0));
    b.intract_with_cell(0, 0, true);
    // one flag and one unknown cell around a count of two
    b.intract_with_cell(1, 1, false);
    assert!(b.cells[0][1].is_flagged);
    assert_eq!(b.remaining_flags, 0);
}

#[test]
fn chord_does_nothing_otherwise() {
    let mut b = corner_board();
    b.discover_cell((1, 1));
    // count one, no flag, three unknown cells around
    b.discover_or_flag_adjusted_cells((1, 1));
    assert_eq!(discovered(&b), vec![(1, 1)]);
    assert_eq!(flagged(&b), 0);
}

#[test]
fn flag_budget_is_a_soft_cap() {
    let mut b = corner_board();
    b.set_cell_flag((2, 2), true);
    assert_eq!(b.remaining_flags, 0);
    b.set_cell_flag((2, 1), true);
    assert!(!b.cells[2][1].is_flagged);
    assert_eq!(b.remaining_flags, 0);
    b.set_cell_flag((2, 2), false);
    assert_eq!(b.remaining_flags, 1);
    assert_eq!(flagged(&b), 0);
}

#[test]
fn flagging_every_bomb_wins() {
    let mut b = corner_board();
    b.intract_with_cell(0, 0, true);
    assert!(b.cells[0][0].is_flagged);
    assert_eq!(b.status(), GameCompletionStatus::CompletedAsWin);
}

#[test]
fn main_action_on_a_flag_takes_it_away() {
    let mut b = corner_board();
    b.intract_with_cell(2, 2, true);
    assert!(b.cells[2][2].is_flagged);
    // the other action on a flagged cell does nothing
    b.intract_with_cell(2, 2, true);
    assert!(b.cells[2][2].is_flagged);
    b.intract_with_cell(2, 2, false);
    assert!(!b.cells[2][2].is_flagged && !b.cells[2][2].is_discovered);
    assert_eq!(b.remaining_flags, 1);
}

#[test]
fn selection_moves_and_skips_blank_cells() {
    let mut b = init_game_with_bombs((1, 5), &vec![(0, 4)], border_theme());
    assert_eq!(b.selected_cell, None);
    // from no selection the walk starts at (0,0)
    b.move_selection(0, 1);
    assert_eq!(b.selected_cell, Some((0, 1)));
    b.discover_cell((0, 0));
    // (0,0)..(0,2) are blank, (0,3) counts one bomb
    assert!(b.cells[0][2].is_discovered && b.cells[0][3].is_discovered);
    b.move_selection(0, -1);
    assert_eq!(b.selected_cell, Some((0, 1)));
    b.selected_cell = Some((0, 0));
    b.move_selection(0, 1);
    assert_eq!(b.selected_cell, Some((0, 3)));
    b.move_selection(0, 1);
    assert_eq!(b.selected_cell, Some((0, 4)));
    // the edge stops the walk
    b.move_selection(0, 1);
    assert_eq!(b.selected_cell, Some((0, 4)));
    b.move_selection(1, 0);
    assert_eq!(b.selected_cell, Some((0, 4)));
}

#[test]
fn selected_cell_actions() {
    let mut b = corner_board();
    b.flag_selected();
    b.open_selected();
    assert_eq!(flagged(&b), 0);
    assert!(discovered(&b).is_empty());
    b.selected_cell = Some((2, 2));
    b.flag_selected();
    assert!(b.cells[2][2].is_flagged);
    b.flag_selected();
    assert!(!b.cells[2][2].is_flagged);
    b.open_selected();
    assert_eq!(discovered(&b).len(), 8);
}

#[test]
fn mouse_selects_and_acts() {
    let mut b = corner_board();
    b.mouse_hover(1, 5);
    assert_eq!(b.selected_cell, Some((0, 1)));
    b.mouse_hover(0, 0);
    assert_eq!(b.selected_cell, Some((0, 1)));
    // a right click flags
    b.mouse_down(5, 9, false);
    assert!(b.cells[2][2].is_flagged);
    // a left click takes the flag away, a second one reveals
    b.mouse_down(5, 9, true);
    assert!(!b.cells[2][2].is_flagged);
    b.mouse_down(5, 9, true);
    assert!(b.cells[2][2].is_discovered);
}

#[test]
fn random_game_places_the_bombs_and_opens_a_safe_cell() {
    for _ in 0..10 {
        let b = init_random_game((4, 6), 5, border_theme());
        let bombs = b.cells.iter().flatten().filter(|c| c.is_bomb).count();
        assert_eq!(bombs, 5);
        assert_eq!(b.number_of_bombs, 5);
        assert_eq!(b.remaining_flags, 5);
        assert!(!discovered(&b).is_empty());
        assert_ne!(b.status(), GameCompletionStatus::CompletedAsLost);
        for r in 0..4 {
            for c in 0..6 {
                let cell = &b.cells[r][c];
                let mut around = 0;
                for dr in -1i32..=1 {
                    for dc in -1i32..=1 {
                        let (nr, nc) = (r as i32 + dr, c as i32 + dc);
                        if (dr, dc) != (0, 0) && (0..4).contains(&nr) && (0..6).contains(&nc)
                            && b.cells[nr as usize][nc as usize].is_bomb
                        {
                            around += 1;
                        }
                    }
                }
                assert_eq!(cell.number_of_adjusted_bombs, around);
            }
        }
    }
}

#[test]
fn random_game_with_every_cell_a_bomb() {
    let b = init_random_game((2, 3), 100, border_theme());
    assert_eq!(b.number_of_bombs, 6);
    assert!(discovered(&b).is_empty());
    assert_eq!(b.status(), GameCompletionStatus::CompletedAsWin);
}

#[test]
fn frame_has_a_line_per_row_and_border() {
    let mut b = corner_board();
    let lines = b.draw().unwrap();
    // three border lines above the rows, three content lines, one bottom line
    assert_eq!(lines.len(), 7);
    assert_eq!(lines[0], "\u{250c}\u{2500}\u{2500}\u{2500}\u{252c}\u{2500}\u{2500}\u{2500}\u{252c}\u{2500}\u{2500}\u{2500}\u{2510}");
    assert_eq!(lines[1], "\u{2502} \u{2588} \u{2502} \u{2588} \u{2502} \u{2588} \u{2502}");
    assert!(b.draw().is_none());
    b.change_theme();
    assert_eq!(b.theme.name, "dark_border");
    let again = b.draw().unwrap();
    assert_eq!(again.len(), 7);
    b.change_theme();
    assert_eq!(b.theme.name, "borderless");
    assert_eq!(b.draw().unwrap().len(), 3);
}

#[test]
fn borderless_frame_shows_counts() {
    let mut b = init_game_with_bombs((1, 3), &vec![(0, 0)], borderless_theme());
    b.discover_cell((0, 2));
    let lines = b.frame_lines();
    assert_eq!(lines.len(), 1);
    assert!(lines[0].starts_with("- "));
    assert!(lines[0].ends_with("1\u{1b}[0m  "));
}

#[test]
fn theme_color_rotation_on_board() {
    let mut b = corner_board();
    let first = b.theme.number_colors;
    b.change_theme_color();
    b.change_theme_color();
    b.change_theme_color();
    assert_eq!(b.theme.number_colors, first);
}

#[test]
fn repeated_bomb_cells_count_once() {
    let b = init_game_with_bombs((2, 2), &vec![(1, 1), (1, 1)], border_theme());
    assert_eq!(b.number_of_bombs, 1);
    assert_eq!(b.remaining_flags, 1);
    assert_eq!(b.cells[0][0].number_of_adjusted_bombs, 1);
}

#[test]
fn theme_switch_brings_the_whole_theme() {
    let mut b = corner_board();
    b.change_theme();
    assert_eq!(b.theme.name, "dark_border");
    assert_eq!(b.theme.line_color, Some(minesweeper::theme::Color::DarkGrey));
    b.change_theme();
    assert_eq!(b.theme.name, "borderless");
    assert!(!b.theme.outer_border_enabled && !b.theme.cell_horizontal_padding_enabled);
    assert_eq!(b.theme.unknown, "-");
    b.change_theme();
    assert_eq!(b.theme.name, "border");
    assert!(b.theme.outer_border_enabled && b.theme.line_color.is_none());
}

#[test]
fn chord_flags_only_as_far_as_the_budget() {
    // three bombs, one of them flagged elsewhere by mistake
    let mut b = init_game_with_bombs((2, 3), &vec![(0, 0), (0, 1), (1, 2)], border_theme());
    b.set_cell_flag((0, 2), true);
    b.discover_cell((1, 0));
    b.discover_cell((1, 1));
    // (1,0) counts two around it, both covered: only two flags are left
    b.discover_or_flag_adjusted_cells((1, 0));
    assert!(b.cells[0][0].is_flagged && b.cells[0][1].is_flagged);
    assert_eq!(b.remaining_flags, 0);
}
