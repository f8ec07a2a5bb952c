use vstd::prelude::*;
use vstd::string::StringExecFns;

use crossterm::style::Color as TermColor;

verus! {

/// A terminal color, as far as the themes of this game use one.
#[derive(Clone, Copy, Debug, PartialEq, Eq, Structural)]
pub enum Color {
    Blue,
    Green,
    Red,
    DarkBlue,
    DarkRed,
    DarkMagenta,
    DarkGrey,
    Yellow,
    Rgb { r: u8, g: u8, b: u8 },
}

/// The terminal's standard colors for the counts.
pub open spec fn standard_colors() -> Seq<Color> {
    seq![
        Color::Blue,
        Color::Green,
        Color::Red,
        Color::DarkBlue,
        Color::DarkRed,
        Color::DarkMagenta,
    ]
}

/// Soft true-color tones for the counts.
pub open spec fn pastel_colors() -> Seq<Color> {
    seq![
        Color::Rgb { r: 105, g: 201, b: 250 },
        Color::Rgb { r: 120, g: 218, b: 116 },
        Color::Rgb { r: 238, g: 127, b: 110 },
        Color::Rgb { r: 111, g: 191, b: 228 },
        Color::Rgb { r: 235, g: 129, b: 114 },
        Color::Rgb { r: 207, g: 152, b: 198 },
    ]
}

/// The palette of the counts, one color each for the counts one to five
/// and one for all the others.
pub fn standard_palette() -> (r: [Color; 6])
    ensures
        r@ == standard_colors(),
{
    let r = [
        Color::Blue,
        Color::Green,
        Color::Red,
        Color::DarkBlue,
        Color::DarkRed,
        Color::DarkMagenta,
    ];
    assert(r@ =~= standard_colors());
    r
}

/// The soft palette of the counts.
pub fn pastel_palette() -> (r: [Color; 6])
    ensures
        r@ == pastel_colors(),
{
    let r = [
        Color::Rgb { r: 105, g: 201, b: 250 },
        Color::Rgb { r: 120, g: 218, b: 116 },
        Color::Rgb { r: 238, g: 127, b: 110 },
        Color::Rgb { r: 111, g: 191, b: 228 },
        Color::Rgb { r: 235, g: 129, b: 114 },
        Color::Rgb { r: 207, g: 152, b: 198 },
    ];
    assert(r@ =~= pastel_colors());
    r
}

/// The entry of a palette that the count `n` takes: 1 to 5 have their own,
/// any other count takes the sixth.
pub open spec fn palette_index(n: u8) -> int {
    if 1 <= n <= 5 {
        n - 1
    } else {
        5
    }
}

/// The colors of an optional palette, as a sequence.
pub open spec fn palette_view(p: Option<[Color; 6]>) -> Option<Seq<Color>> {
    match p {
        Some(a) => Some(a@),
        None => None,
    }
}

/// The palette that follows `p` in the rotation: standard, pastel, none;
/// any other palette goes to the standard one.
pub open spec fn next_palette(p: Option<Seq<Color>>) -> Option<Seq<Color>> {
    match p {
        Some(c) => if c == standard_colors() {
            Some(pastel_colors())
        } else if c == pastel_colors() {
            None
        } else {
            Some(standard_colors())
        },
        None => Some(standard_colors()),
    }
}

/// The two palettes hold the same colors.
fn same_colors(a: &[Color; 6], b: &[Color; 6]) -> (r: bool)
    ensures
        r == (a@ == b@),
{
    let mut i: usize = 0;
    while i < 6
        invariant
            i <= 6,
            a@.len() == 6,
            b@.len() == 6,
            forall|j: int| 0 <= j < i ==> a@[j] == b@[j],
        decreases 6 - i,
    {
        if a[i] != b[i] {
            return false;
        }
        i += 1;
    }
    assert(a@ =~= b@);
    true
}

/// Moves the number coloring one step along the rotation.
pub fn rotate_theme_color(theme_color: &Option<[Color; 6]>) -> (r: Option<[Color; 6]>)
    ensures
        palette_view(r) == next_palette(palette_view(*theme_color)),
{
    match theme_color {
        Some(colors) => {
            if same_colors(colors, &standard_palette()) {
                Some(pastel_palette())
            } else if same_colors(colors, &pastel_palette()) {
                None
            } else {
                Some(standard_palette())
            }
        },
        None => Some(standard_palette()),
    }
}

/// The theme name that follows `n` in the rotation:
/// dark_border, borderless, border, and any unknown name goes to dark_border.
pub open spec fn next_theme_name(n: Seq<char>) -> Seq<char> {
    if n == "dark_border"@ {
        "borderless"@
    } else if n == "borderless"@ {
        "border"@
    } else {
        "dark_border"@
    }
}

/// `s` holds exactly the text `lit`.
fn same_text(s: &String, lit: &str) -> (r: bool)
    ensures
        r == (s@ == lit@),
{
    let t = String::from_str(lit);
    s.eq(&t)
}

/// The name of the theme that comes after the one called `theme_name`.
pub fn rotate_theme_name(theme_name: &String) -> (r: String)
    ensures
        r@ == next_theme_name(theme_name@),
{
    if same_text(theme_name, "dark_border") {
        String::from_str("borderless")
    } else if same_text(theme_name, "borderless") {
        String::from_str("border")
    } else {
        String::from_str("dark_border")
    }
}

/// How a theme draws the board: the layout switches that decide where each
/// cell lands on the terminal, the glyphs, and the colors.
pub struct Theme {
    pub name: String,
    // every glyph below takes at most one terminal column
    pub cell_horizontal_padding_enabled: bool,
    pub cell_horizontal_padding: String,
    pub outer_border_enabled: bool,
    pub inner_border_row_enabled: bool,
    pub inner_border_column_enabled: bool,
    pub line_horizontal: String,
    pub line_vertical: String,
    pub line_cross: String,
    pub corner_top_left: String,
    pub corner_top_right: String,
    pub corner_bottom_left: String,
    pub corner_bottom_right: String,
    pub edge_top: String,
    pub edge_bottom: String,
    pub edge_left: String,
    pub edge_right: String,
    pub bomb: String,
    pub flag: String,
    pub empty: String,
    pub unknown: String,
    pub number_colors: Option<[Color; 6]>,
    pub colored_numbers_on_selection: bool,
    pub highlight_corner_on_selection: bool,
    pub line_color: Option<Color>,
}

/// The escape sequence that resets the terminal's colors.
pub open spec fn reset_seq() -> Seq<char> {
    seq!['\x1b', '[', '0', 'm']
}

/// A select-graphic-rendition escape: `ESC [`, `params`, `m`.
pub open spec fn sgr(params: Seq<char>) -> Seq<char> {
    seq!['\x1b', '['] + params + seq!['m']
}

/// How a color is written inside such an escape.
pub open spec fn color_params(c: Color) -> Seq<char> {
    match c {
        Color::Blue => seq!['5', ';', '1', '2'],
        Color::Green => seq!['5', ';', '1', '0'],
        Color::Red => seq!['5', ';', '9'],
        Color::DarkBlue => seq!['5', ';', '4'],
        Color::DarkRed => seq!['5', ';', '1'],
        Color::DarkMagenta => seq!['5', ';', '5'],
        Color::DarkGrey => seq!['5', ';', '8'],
        Color::Yellow => seq!['5', ';', '1', '1'],
        Color::Rgb { r, g, b } => seq!['2', ';'] + decimal(r as nat) + seq![';'] + decimal(
            g as nat,
        ) + seq![';'] + decimal(b as nat),
    }
}

/// The escape that sets the text color to `c`.
pub open spec fn foreground_seq(c: Color) -> Seq<char> {
    sgr(seq!['3', '8', ';'] + color_params(c))
}

/// The escape that sets the background color to `c`.
pub open spec fn background_seq(c: Color) -> Seq<char> {
    sgr(seq!['4', '8', ';'] + color_params(c))
}

/// `r` is `body` drawn after the escape `code` and followed by a reset; or,
/// when the environment turns colors off (NO_COLOR), after an empty escape.
pub open spec fn in_color(r: Seq<char>, body: Seq<char>, code: Seq<char>) -> bool {
    r == code + body + reset_seq() || r == sgr(Seq::empty()) + body + reset_seq()
}

/// `r` shows `body` in the text color `color`, or plain for `None`.
pub open spec fn shows(r: Seq<char>, body: Seq<char>, color: Option<Color>) -> bool {
    match color {
        Some(c) => in_color(r, body, foreground_seq(c)),
        None => r == body,
    }
}

/// Relies on the `Display` of crossterm's `ResetColor`, which writes
/// `ESC [ 0 m` on every terminal that takes ANSI escapes (a Windows console
/// without them gets nothing written).
#[verifier::external_body]
fn reset_escape() -> (r: String)
    ensures
        r@ == reset_seq(),
{
    crossterm::style::ResetColor.to_string()
}

/// Relies on the `Display` of crossterm's `SetForegroundColor`, which writes
/// `ESC [ 38 ;`, the color's code and `m`, or `ESC [ m` when the environment
/// sets NO_COLOR (on every terminal that takes ANSI escapes; a Windows
/// console without them gets nothing written).
#[verifier::external_body]
fn foreground_escape(c: Color) -> (r: String)
    ensures
        r@ == foreground_seq(c) || r@ == sgr(Seq::empty()),
{
    let t = match c {
        Color::Blue => TermColor::Blue,
        Color::Green => TermColor::Green,
        Color::Red => TermColor::Red,
        Color::DarkBlue => TermColor::DarkBlue,
        Color::DarkRed => TermColor::DarkRed,
        Color::DarkMagenta => TermColor::DarkMagenta,
        Color::DarkGrey => TermColor::DarkGrey,
        Color::Yellow => TermColor::Yellow,
        Color::Rgb { r, g, b } => TermColor::Rgb { r, g, b },
    };
    crossterm::style::SetForegroundColor(t).to_string()
}

/// Relies on the `Display` of crossterm's `SetBackgroundColor`, which writes
/// `ESC [ 48 ;`, the color's code and `m`, or `ESC [ m` when the environment
/// sets NO_COLOR (on every terminal that takes ANSI escapes; a Windows
/// console without them gets nothing written).
#[verifier::external_body]
fn background_escape(c: Color) -> (r: String)
    ensures
        r@ == background_seq(c) || r@ == sgr(Seq::empty()),
{
    let t = match c {
        Color::Blue => TermColor::Blue,
        Color::Green => TermColor::Green,
        Color::Red => TermColor::Red,
        Color::DarkBlue => TermColor::DarkBlue,
        Color::DarkRed => TermColor::DarkRed,
        Color::DarkMagenta => TermColor::DarkMagenta,
        Color::DarkGrey => TermColor::DarkGrey,
        Color::Yellow => TermColor::Yellow,
        Color::Rgb { r, g, b } => TermColor::Rgb { r, g, b },
    };
    crossterm::style::SetBackgroundColor(t).to_string()
}

/// `body` between the escape `code` and a reset.
fn paint(code: String, body: &str) -> (r: String)
    ensures
        r@ == code@ + body@ + reset_seq(),
{
    let reset = reset_escape();
    code.concat(body).concat(reset.as_str())
}

/// `body` in the text color `c`.
fn paint_foreground(c: Color, body: &str) -> (r: String)
    ensures
        in_color(r@, body@, foreground_seq(c)),
{
    paint(foreground_escape(c), body)
}

/// The layout switches and padding of the two boxed themes.
pub open spec fn is_border_layout(t: &Theme) -> bool {
    &&& t.cell_horizontal_padding_enabled
    &&& t.cell_horizontal_padding@ == " "@
    &&& t.outer_border_enabled
    &&& t.inner_border_row_enabled
    &&& t.inner_border_column_enabled
}

/// The box-drawing glyphs of the two boxed themes.
pub open spec fn has_box_glyphs(t: &Theme) -> bool {
    &&& t.line_horizontal@ == "\u{2500}"@
    &&& t.line_vertical@ == "\u{2502}"@
    &&& t.line_cross@ == "\u{253c}"@
    &&& t.corner_top_left@ == "\u{250c}"@
    &&& t.corner_top_right@ == "\u{2510}"@
    &&& t.corner_bottom_left@ == "\u{2514}"@
    &&& t.corner_bottom_right@ == "\u{2518}"@
    &&& t.edge_top@ == "\u{252c}"@
    &&& t.edge_bottom@ == "\u{2534}"@
    &&& t.edge_left@ == "\u{251c}"@
    &&& t.edge_right@ == "\u{2524}"@
}

/// Every field of the border theme.
pub open spec fn is_border_theme(t: &Theme) -> bool {
    &&& t.name@ == "border"@
    &&& is_border_layout(t)
    &&& has_box_glyphs(t)
    &&& t.bomb@ == "B"@
    &&& t.flag@ == "F"@
    &&& t.empty@ == " "@
    &&& t.unknown@ == "\u{2588}"@
    &&& palette_view(t.number_colors) == Some(standard_colors())
    &&& t.colored_numbers_on_selection
    &&& !t.highlight_corner_on_selection
    &&& t.line_color.is_none()
}

/// Every field of the dark border theme: the border theme with dark grey
/// lines, its own name, and the flag on a dark grey background.
pub open spec fn is_dark_border_theme(t: &Theme) -> bool {
    &&& t.name@ == "dark_border"@
    &&& is_border_layout(t)
    &&& has_box_glyphs(t)
    &&& t.bomb@ == "B"@
    &&& in_color(t.flag@, "F"@, background_seq(Color::DarkGrey))
    &&& t.empty@ == " "@
    &&& t.unknown@ == "\u{2588}"@
    &&& palette_view(t.number_colors) == Some(standard_colors())
    &&& t.colored_numbers_on_selection
    &&& !t.highlight_corner_on_selection
    &&& t.line_color == Some(Color::DarkGrey)
}

/// Every field of the borderless theme.
pub open spec fn is_borderless_theme(t: &Theme) -> bool {
    &&& t.name@ == "borderless"@
    &&& !t.cell_horizontal_padding_enabled
    &&& t.cell_horizontal_padding@ == Seq::<char>::empty()
    &&& !t.outer_border_enabled
    &&& !t.inner_border_row_enabled
    &&& t.inner_border_column_enabled
    &&& t.line_horizontal@ == Seq::<char>::empty()
    &&& t.line_vertical@ == " "@
    &&& t.line_cross@ == Seq::<char>::empty()
    &&& t.corner_top_left@ == Seq::<char>::empty()
    &&& t.corner_top_right@ == Seq::<char>::empty()
    &&& t.corner_bottom_left@ == Seq::<char>::empty()
    &&& t.corner_bottom_right@ == Seq::<char>::empty()
    &&& t.edge_top@ == Seq::<char>::empty()
    &&& t.edge_bottom@ == Seq::<char>::empty()
    &&& t.edge_left@ == Seq::<char>::empty()
    &&& t.edge_right@ == Seq::<char>::empty()
    &&& t.bomb@ == "B"@
    &&& t.flag@ == "F"@
    &&& t.empty@ == " "@
    &&& t.unknown@ == "-"@
    &&& palette_view(t.number_colors) == Some(standard_colors())
    &&& !t.colored_numbers_on_selection
    &&& !t.highlight_corner_on_selection
    &&& t.line_color.is_none()
}

/// `t` is the theme called `n`; no theme has any other name.
pub open spec fn is_named_theme(t: &Theme, n: Seq<char>) -> bool {
    if n == "border"@ {
        is_border_theme(t)
    } else if n == "dark_border"@ {
        is_dark_border_theme(t)
    } else if n == "borderless"@ {
        is_borderless_theme(t)
    } else {
        false
    }
}

/// The theme with box-drawing borders around every cell.
pub fn border_theme() -> (r: Theme)
    ensures
        is_border_theme(&r),
{
    Theme {
        name: String::from_str("border"),
        cell_horizontal_padding_enabled: true,
        cell_horizontal_padding: String::from_str(" "),
        outer_border_enabled: true,
        inner_border_row_enabled: true,
        inner_border_column_enabled: true,
        line_horizontal: String::from_str("\u{2500}"),
        line_vertical: String::from_str("\u{2502}"),
        line_cross: String::from_str("\u{253c}"),
        corner_top_left: String::from_str("\u{250c}"),
        corner_top_right: String::from_str("\u{2510}"),
        corner_bottom_left: String::from_str("\u{2514}"),
        corner_bottom_right: String::from_str("\u{2518}"),
        edge_top: String::from_str("\u{252c}"),
        edge_bottom: String::from_str("\u{2534}"),
        edge_left: String::from_str("\u{251c}"),
        edge_right: String::from_str("\u{2524}"),
        bomb: String::from_str("B"),
        flag: String::from_str("F"),
        empty: String::from_str(" "),
        unknown: String::from_str("\u{2588}"),
        number_colors: Some(standard_palette()),
        colored_numbers_on_selection: true,
        highlight_corner_on_selection: false,
        line_color: None,
    }
}

/// The compact theme: no padding, no horizontal lines, a space between
/// columns.
pub fn borderless_theme() -> (r: Theme)
    ensures
        is_borderless_theme(&r),
{
    Theme {
        name: String::from_str("borderless"),
        cell_horizontal_padding_enabled: false,
        cell_horizontal_padding: String::new(),
        outer_border_enabled: false,
        inner_border_row_enabled: false,
        inner_border_column_enabled: true,
        line_horizontal: String::new(),
        line_vertical: String::from_str(" "),
        line_cross: String::new(),
        corner_top_left: String::new(),
        corner_top_right: String::new(),
        corner_bottom_left: String::new(),
        corner_bottom_right: String::new(),
        edge_top: String::new(),
        edge_bottom: String::new(),
        edge_left: String::new(),
        edge_right: String::new(),
        bomb: String::from_str("B"),
        flag: String::from_str("F"),
        empty: String::from_str(" "),
        unknown: String::from_str("-"),
        number_colors: Some(standard_palette()),
        colored_numbers_on_selection: false,
        highlight_corner_on_selection: false,
        line_color: None,
    }
}

/// The border theme with dark grey lines and a shaded flag.
pub fn dark_border_theme() -> (r: Theme)
    ensures
        is_dark_border_theme(&r),
{
    let mut t = border_theme();
    t.name = String::from_str("dark_border");
    t.line_color = Some(Color::DarkGrey);
    t.flag = paint(background_escape(Color::DarkGrey), t.flag.as_str());
    t
}

/// The theme called `theme_name`, if there is one.
pub fn get_theme(theme_name: &String) -> (r: Option<Theme>)
    ensures
        r.is_some() <==> (theme_name@ == "border"@ || theme_name@ == "dark_border"@
            || theme_name@ == "borderless"@),
        r matches Some(t) ==> is_named_theme(&t, theme_name@),
{
    if same_text(theme_name, "border") {
        Some(border_theme())
    } else if same_text(theme_name, "dark_border") {
        Some(dark_border_theme())
    } else if same_text(theme_name, "borderless") {
        Some(borderless_theme())
    } else {
        None
    }
}

/// The decimal digit `d`.
pub open spec fn digit(d: nat) -> char {
    seq!['0', '1', '2', '3', '4', '5', '6', '7', '8', '9'][d as int]
}

/// The decimal writing of `n`.
pub open spec fn decimal(n: nat) -> Seq<char>
    decreases n,
{
    if n < 10 {
        seq![digit(n)]
    } else {
        decimal(n / 10).push(digit(n % 10))
    }
}

/// Relies on the `Display` of `u8` (through `to_string`): its decimal digits.
#[verifier::external_body]
fn u8_text(n: u8) -> (r: String)
    ensures
        r@ == decimal(n as nat),
{
    n.to_string()
}

/// The color that the count `n` is drawn with under `t`: the palette's,
/// unless the palette is off, or the cell is selected and the theme keeps
/// selected counts plain.
pub open spec fn number_color(t: &Theme, n: u8, selected: bool) -> Option<Color> {
    match t.number_colors {
        Some(p) => if !selected || t.colored_numbers_on_selection {
            Some(p@[palette_index(n)])
        } else {
            None
        },
        None => None,
    }
}

/// The color of a border glyph: highlighted when `lit`, else the theme's
/// line color, if any.
pub open spec fn border_color(t: &Theme, lit: bool) -> Option<Color> {
    if lit {
        Some(Color::Yellow)
    } else {
        t.line_color
    }
}

/// The color of a cell's glyph: highlighted when selected, plain otherwise.
pub open spec fn content_color(selected: bool) -> Option<Color> {
    if selected {
        Some(Color::Yellow)
    } else {
        None
    }
}

impl Theme {
    /// The count `number_of_adjusted_bombs`, in the color of its palette.
    pub fn format_number_of_adjusted_bombs(&self, number_of_adjusted_bombs: u8, selected: bool) -> (r:
        String)
        ensures
            shows(
                r@,
                decimal(number_of_adjusted_bombs as nat),
                number_color(self, number_of_adjusted_bombs, selected),
            ),
    {
        let use_color = self.number_colors.is_some() && (!selected
            || self.colored_numbers_on_selection);
        let text = u8_text(number_of_adjusted_bombs);
        if use_color {
            let palette = self.number_colors.unwrap();
            let index: usize = if 1 <= number_of_adjusted_bombs && number_of_adjusted_bombs <= 5 {
                (number_of_adjusted_bombs - 1) as usize
            } else {
                5
            };
            let color = palette[index];
            paint_foreground(color, text.as_str())
        } else {
            text
        }
    }

    /// A border glyph: highlighted when selected, else in the line color
    /// if the theme has one.
    fn format_border(&self, symbol: &str, selected: bool) -> (r: String)
        ensures
            shows(r@, symbol@, border_color(self, selected)),
    {
        if selected {
            paint_foreground(Color::Yellow, symbol)
        } else if let Some(color) = self.line_color {
            paint_foreground(color, symbol)
        } else {
            String::from_str(symbol)
        }
    }

    /// The vertical line between columns.
    pub fn format_vertical_border(&self, selected: bool) -> (r: String)
        ensures
            shows(r@, self.line_vertical@, border_color(self, selected)),
    {
        self.format_border(self.line_vertical.as_str(), selected)
    }

    /// The horizontal line between rows.
    pub fn format_horizontal_border(&self, selected: bool) -> (r: String)
        ensures
            shows(r@, self.line_horizontal@, border_color(self, selected)),
    {
        self.format_border(self.line_horizontal.as_str(), selected)
    }

    /// A joint of the border, highlighted only when the theme highlights
    /// corners.
    fn format_joint(&self, symbol: &str, selected: bool) -> (r: String)
        ensures
            shows(
                r@,
                symbol@,
                border_color(self, self.highlight_corner_on_selection && selected),
            ),
    {
        self.format_border(symbol, self.highlight_corner_on_selection && selected)
    }

    pub fn format_cross(&self, selected: bool) -> (r: String)
        ensures
            shows(
                r@,
                self.line_cross@,
                border_color(self, self.highlight_corner_on_selection && selected),
            ),
    {
        self.format_joint(self.line_cross.as_str(), selected)
    }

    pub fn format_corner_top_left(&self, selected: bool) -> (r: String)
        ensures
            shows(
                r@,
                self.corner_top_left@,
                border_color(self, self.highlight_corner_on_selection && selected),
            ),
    {
        self.format_joint(self.corner_top_left.as_str(), selected)
    }

    pub fn format_corner_top_right(&self, selected: bool) -> (r: String)
        ensures
            shows(
                r@,
                self.corner_top_right@,
                border_color(self, self.highlight_corner_on_selection && selected),
            ),
    {
        self.format_joint(self.corner_top_right.as_str(), selected)
    }

    pub fn format_corner_bottom_left(&self, selected: bool) -> (r: String)
        ensures
            shows(
                r@,
                self.corner_bottom_left@,
                border_color(self, self.highlight_corner_on_selection && selected),
            ),
    {
        self.format_joint(self.corner_bottom_left.as_str(), selected)
    }

    pub fn format_corner_bottom_right(&self, selected: bool) -> (r: String)
        ensures
            shows(
                r@,
                self.corner_bottom_right@,
                border_color(self, self.highlight_corner_on_selection && selected),
            ),
    {
        self.format_joint(self.corner_bottom_right.as_str(), selected)
    }

    pub fn format_edge_top(&self, selected: bool) -> (r: String)
        ensures
            shows(
                r@,
                self.edge_top@,
                border_color(self, self.highlight_corner_on_selection && selected),
            ),
    {
        self.format_joint(self.edge_top.as_str(), selected)
    }

    pub fn format_edge_bottom(&self, selected: bool) -> (r: String)
        ensures
            shows(
                r@,
                self.edge_bottom@,
                border_color(self, self.highlight_corner_on_selection && selected),
            ),
    {
        self.format_joint(self.edge_bottom.as_str(), selected)
    }

    pub fn format_edge_left(&self, selected: bool) -> (r: String)
        ensures
            shows(
                r@,
                self.edge_left@,
                border_color(self, self.highlight_corner_on_selection && selected),
            ),
    {
        self.format_joint(self.edge_left.as_str(), selected)
    }

    pub fn format_edge_right(&self, selected: bool) -> (r: String)
        ensures
            shows(
                r@,
                self.edge_right@,
                border_color(self, self.highlight_corner_on_selection && selected),
            ),
    {
        self.format_joint(self.edge_right.as_str(), selected)
    }

    /// A cell's glyph, highlighted when the cell is selected.
    pub fn format_cell_content(&self, content: &str, selected: bool) -> (r: String)
        ensures
            shows(r@, content@, content_color(selected)),
    {
        if selected {
            paint_foreground(Color::Yellow, content)
        } else {
            String::from_str(content)
        }
    }
}

} // verus!
