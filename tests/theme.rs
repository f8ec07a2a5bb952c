use minesweeper::grid::init_blank_cell;
use minesweeper::theme::{
    border_theme, borderless_theme, dark_border_theme, get_theme, rotate_theme_color,
    pastel_palette, rotate_theme_name, standard_palette, Color,
};

#[test]
fn theme_names_rotate() {
    assert_eq!(rotate_theme_name(&"dark_border".to_string()), "borderless");
    assert_eq!(rotate_theme_name(&"borderless".to_string()), "border");
    assert_eq!(rotate_theme_name(&"border".to_string()), "dark_border");
    assert_eq!(rotate_theme_name(&"plain".to_string()), "dark_border");
}

#[test]
fn themes_by_name() {
    assert_eq!(get_theme(&"border".to_string()).unwrap().name, "border");
    assert_eq!(get_theme(&"dark_border".to_string()).unwrap().name, "dark_border");
    assert_eq!(get_theme(&"borderless".to_string()).unwrap().name, "borderless");
    assert!(get_theme(&"neon".to_string()).is_none());
}

#[test]
fn palettes_rotate() {
    let standard = standard_palette();
    let pastel = pastel_palette();
    assert_eq!(rotate_theme_color(&None), Some(standard));
    assert_eq!(rotate_theme_color(&Some(standard)), Some(pastel));
    assert_eq!(rotate_theme_color(&Some(pastel)), None);
    // a palette of one's own goes back to the standard one
    let own = [Color::Yellow; 6];
    assert_eq!(rotate_theme_color(&Some(own)), Some(standard));
}

#[test]
fn palette_colors() {
    let standard = standard_palette();
    assert_eq!(standard[0], Color::Blue);
    assert_eq!(standard[2], Color::Red);
    assert_eq!(standard[5], Color::DarkMagenta);
    assert_eq!(pastel_palette()[1], Color::Rgb { r: 120, g: 218, b: 116 });
}

#[test]
fn plain_numbers() {
    let t = borderless_theme();
    // borderless keeps a selected count plain
    assert_eq!(t.format_number_of_adjusted_bombs(3, true), "3");
    assert_eq!(t.format_number_of_adjusted_bombs(12, true), "12");
    let mut off = border_theme();
    off.number_colors = None;
    assert_eq!(off.format_number_of_adjusted_bombs(7, false), "7");
}

#[test]
fn colored_numbers() {
    let t = border_theme();
    let s = t.format_number_of_adjusted_bombs(2, false);
    assert!(s.starts_with("\u{1b}["));
    assert!(s.ends_with("2\u{1b}[0m"));
}

#[test]
fn borders_and_content() {
    let t = border_theme();
    assert_eq!(t.format_vertical_border(false), "\u{2502}");
    assert_eq!(t.format_horizontal_border(false), "\u{2500}");
    // corners stay plain when the theme does not highlight them
    assert_eq!(t.format_cross(true), "\u{253c}");
    assert_eq!(t.format_corner_top_left(true), "\u{250c}");
    assert_eq!(t.format_corner_top_right(true), "\u{2510}");
    assert_eq!(t.format_corner_bottom_left(true), "\u{2514}");
    assert_eq!(t.format_corner_bottom_right(true), "\u{2518}");
    assert_eq!(t.format_edge_top(true), "\u{252c}");
    assert_eq!(t.format_edge_bottom(true), "\u{2534}");
    assert_eq!(t.format_edge_left(true), "\u{251c}");
    assert_eq!(t.format_edge_right(true), "\u{2524}");
    let lit = t.format_vertical_border(true);
    assert!(lit.starts_with("\u{1b}[") && lit.ends_with("\u{2502}\u{1b}[0m"));
    assert_eq!(t.format_cell_content("x", false), "x");
    let sel = t.format_cell_content("x", true);
    assert!(sel.starts_with("\u{1b}[") && sel.ends_with("x\u{1b}[0m"));
}

#[test]
fn dark_border_colors_lines_and_flag() {
    let t = dark_border_theme();
    let line = t.format_horizontal_border(false);
    assert!(line.starts_with("\u{1b}[") && line.ends_with("\u{2500}\u{1b}[0m"));
    assert!(t.flag.starts_with("\u{1b}[") && t.flag.ends_with("F\u{1b}[0m"));
    assert!(t.outer_border_enabled && t.cell_horizontal_padding_enabled);
}

#[test]
fn cell_glyphs() {
    let t = border_theme();
    let mut c = init_blank_cell();
    assert_eq!(c.content_to_show(&t, false), "\u{2588}");
    c.is_flagged = true;
    assert_eq!(c.content_to_show(&t, false), "F");
    c.is_flagged = false;
    c.is_discovered = true;
    assert_eq!(c.content_to_show(&t, false), " ");
    c.number_of_adjusted_bombs = 4;
    assert!(c.content_to_show(&t, false).ends_with("4\u{1b}[0m"));
}

#[test]
fn counts_take_their_palette_color() {
    let t = border_theme();
    let two = t.format_number_of_adjusted_bombs(2, false);
    assert!(two == "\u{1b}[38;5;10m2\u{1b}[0m" || two == "\u{1b}[m2\u{1b}[0m");
    let six = t.format_number_of_adjusted_bombs(6, true);
    assert!(six == "\u{1b}[38;5;5m6\u{1b}[0m" || six == "\u{1b}[m6\u{1b}[0m");
    let mut soft = border_theme();
    soft.number_colors = Some(pastel_palette());
    let one = soft.format_number_of_adjusted_bombs(1, false);
    assert!(one == "\u{1b}[38;2;105;201;250m1\u{1b}[0m" || one == "\u{1b}[m1\u{1b}[0m");
    // eight and above take the sixth color
    let eight = t.format_number_of_adjusted_bombs(8, false);
    assert!(eight == "\u{1b}[38;5;5m8\u{1b}[0m" || eight == "\u{1b}[m8\u{1b}[0m");
}

#[test]
fn selected_borders_are_yellow() {
    let t = dark_border_theme();
    let lit = t.format_vertical_border(true);
    assert!(lit == "\u{1b}[38;5;11m\u{2502}\u{1b}[0m" || lit == "\u{1b}[m\u{2502}\u{1b}[0m");
    let dim = t.format_vertical_border(false);
    assert!(dim == "\u{1b}[38;5;8m\u{2502}\u{1b}[0m" || dim == "\u{1b}[m\u{2502}\u{1b}[0m");
    assert!(t.flag == "\u{1b}[48;5;8mF\u{1b}[0m" || t.flag == "\u{1b}[mF\u{1b}[0m");
}

#[test]
fn named_themes_are_complete() {
    let b = get_theme(&"borderless".to_string()).unwrap();
    assert!(!b.cell_horizontal_padding_enabled && !b.outer_border_enabled);
    assert!(!b.inner_border_row_enabled && b.inner_border_column_enabled);
    assert_eq!(b.line_vertical, " ");
    assert_eq!(b.unknown, "-");
    let d = get_theme(&"dark_border".to_string()).unwrap();
    assert_eq!(d.line_color, Some(Color::DarkGrey));
    assert_eq!(d.line_cross, "\u{253c}");
    assert_eq!(d.unknown, "\u{2588}");
}
