//! Drawing the screen on the real terminal.
use crate::cells::row_text;
use crate::highlight::color_rows;
use crate::model::{
    CellView, DisplayColor, Rgb, StyledCell, TerminalState, cell_views, row_views,
};
use crate::svg::{highlight_at, highlight_color};
use crate::text::{decimal, push_decimal};
use vstd::prelude::*;
use vstd::string::StringExecFns;

verus! {

broadcast use vstd::string::group_string_axioms;

/// The style that the real terminal draws in. Until something is drawn its
/// colours are not known.
#[derive(Debug, Clone, Copy, PartialEq, Eq, Structural)]
pub struct DrawStyle {
    pub fg: Option<DisplayColor>,
    pub bg: Option<DisplayColor>,
    pub bold: bool,
    pub dim: bool,
    pub italic: bool,
    pub underline: bool,
}

/// The style before anything is drawn.
pub open spec fn initial_style() -> DrawStyle {
    DrawStyle { fg: None, bg: None, bold: false, dim: false, italic: false, underline: false }
}

impl Default for DrawStyle {
    /// The style before anything is drawn.
    fn default() -> (r: DrawStyle)
        ensures
            r == initial_style(),
    {
        DrawStyle { fg: None, bg: None, bold: false, dim: false, italic: false, underline: false }
    }
}

/// The colours that a cell is drawn in: a highlight takes the place of the
/// background, and an inverse cell swaps its colours.
pub open spec fn drawn_colors(cell: CellView, highlight: Option<Rgb>) -> (
    DisplayColor,
    DisplayColor,
) {
    let bg = match highlight {
        Some(rgb) => DisplayColor::Rgb(rgb),
        None => cell.bg,
    };
    if cell.inverse {
        (bg, cell.fg)
    } else {
        (cell.fg, bg)
    }
}

/// The colours that a cell is drawn in.
pub fn resolved_colors(cell: &StyledCell, highlight_bg: Option<Rgb>) -> (r: (
    DisplayColor,
    DisplayColor,
))
    ensures
        r == drawn_colors(cell@, highlight_bg),
{
    let bg = match highlight_bg {
        Some(rgb) => DisplayColor::Rgb(rgb),
        None => cell.bg,
    };
    if cell.inverse {
        (bg, cell.fg)
    } else {
        (cell.fg, bg)
    }
}

/// The escape sequence that selects a colour.
pub open spec fn color_code(color: DisplayColor, foreground: bool) -> Seq<char> {
    match color {
        DisplayColor::Default => if foreground {
            "\u{1b}[39m"@
        } else {
            "\u{1b}[49m"@
        },
        DisplayColor::Indexed(idx) => (if foreground {
            "\u{1b}[38;5;"@
        } else {
            "\u{1b}[48;5;"@
        }) + decimal(idx as nat) + "m"@,
        DisplayColor::Rgb(rgb) => (if foreground {
            "\u{1b}[38;2;"@
        } else {
            "\u{1b}[48;2;"@
        }) + decimal(rgb.0 as nat) + ";"@ + decimal(rgb.1 as nat) + ";"@ + decimal(rgb.2 as nat)
            + "m"@,
    }
}

/// Appends the escape sequence that selects a colour.
pub fn write_color(out: &mut String, color: DisplayColor, foreground: bool)
    ensures
        final(out)@ == old(out)@ + color_code(color, foreground),
{
    let code = match color {
        DisplayColor::Default => {
            if foreground {
                "\u{1b}[39m".to_string()
            } else {
                "\u{1b}[49m".to_string()
            }
        },
        DisplayColor::Indexed(idx) => {
            let mut code = if foreground {
                "\u{1b}[38;5;".to_string()
            } else {
                "\u{1b}[48;5;".to_string()
            };
            push_decimal(&mut code, idx as u128);
            code.append("m");
            code
        },
        DisplayColor::Rgb(rgb) => {
            let mut code = if foreground {
                "\u{1b}[38;2;".to_string()
            } else {
                "\u{1b}[48;2;".to_string()
            };
            push_decimal(&mut code, rgb.0 as u128);
            code.append(";");
            push_decimal(&mut code, rgb.1 as u128);
            code.append(";");
            push_decimal(&mut code, rgb.2 as u128);
            code.append("m");
            code
        },
    };
    out.append(code.as_str());
}

/// The style that a cell is drawn in.
pub open spec fn cell_style(cell: CellView, highlight: Option<Rgb>) -> DrawStyle {
    let (fg, bg) = drawn_colors(cell, highlight);
    DrawStyle {
        fg: Some(fg),
        bg: Some(bg),
        bold: cell.bold,
        dim: cell.dim,
        italic: cell.italic,
        underline: cell.underline,
    }
}

/// A text, or nothing.
pub open spec fn only_if(wanted: bool, text: Seq<char>) -> Seq<char> {
    if wanted {
        text
    } else {
        Seq::empty()
    }
}

/// The escape sequences that select the style of a cell.
pub open spec fn style_code(cell: CellView, highlight: Option<Rgb>) -> Seq<char> {
    let (fg, bg) = drawn_colors(cell, highlight);
    "\u{1b}[0m"@ + color_code(fg, true) + color_code(bg, false) + only_if(
        cell.bold,
        "\u{1b}[1m"@,
    ) + only_if(cell.dim, "\u{1b}[2m"@) + only_if(cell.italic, "\u{1b}[3m"@) + only_if(
        cell.underline,
        "\u{1b}[4m"@,
    )
}

fn append_if(out: &mut String, wanted: bool, text: &str)
    ensures
        final(out)@ == old(out)@ + only_if(wanted, text@),
{
    if wanted {
        out.append(text);
    } else {
        assert(out@ + Seq::<char>::empty() == out@);
    }
}

fn style_codes(cell: &StyledCell, highlight_bg: Option<Rgb>) -> (r: String)
    ensures
        r@ == style_code(cell@, highlight_bg),
{
    let (fg, bg) = resolved_colors(cell, highlight_bg);
    let mut code = "\u{1b}[0m".to_string();
    write_color(&mut code, fg, true);
    write_color(&mut code, bg, false);
    append_if(&mut code, cell.bold, "\u{1b}[1m");
    append_if(&mut code, cell.dim, "\u{1b}[2m");
    append_if(&mut code, cell.italic, "\u{1b}[3m");
    append_if(&mut code, cell.underline, "\u{1b}[4m");
    code
}

/// What is sent for a cell while the terminal draws in `style`: its text, and
/// before it its style where that is another one.
pub open spec fn drawn_cell(
    cell: CellView,
    highlight: Option<Rgb>,
    style: DrawStyle,
) -> Seq<char> {
    only_if(style != cell_style(cell, highlight), style_code(cell, highlight)) + cell.text
}

/// Appends a cell, and the escape sequences for its style where the terminal
/// does not draw in it yet.
pub fn write_cell(
    out: &mut String,
    cell: &StyledCell,
    highlight_bg: Option<Rgb>,
    style_state: &mut DrawStyle,
)
    ensures
        final(out)@ == old(out)@ + drawn_cell(cell@, highlight_bg, *old(style_state)),
        *final(style_state) == cell_style(cell@, highlight_bg),
{
    let (fg, bg) = resolved_colors(cell, highlight_bg);
    let target = DrawStyle {
        fg: Some(fg),
        bg: Some(bg),
        bold: cell.bold,
        dim: cell.dim,
        italic: cell.italic,
        underline: cell.underline,
    };
    let mut piece = String::new();
    if *style_state != target {
        piece = style_codes(cell, highlight_bg);
        *style_state = target;
    }
    piece.append(cell.text.as_str());
    out.append(piece.as_str());
}

/// Cells in the same style follow one another without escape sequences.
pub proof fn law_same_style_is_not_repeated(cell: CellView, highlight: Option<Rgb>)
    ensures
        drawn_cell(cell, highlight, cell_style(cell, highlight)) == cell.text,
{
}

/// What is sent for the first `n` cells of a row, and the style after them;
/// continuations are left out.
pub open spec fn drawn_row(
    row: Seq<CellView>,
    colors: Seq<Seq<Option<Rgb>>>,
    y: int,
    n: int,
    style: DrawStyle,
) -> (Seq<char>, DrawStyle)
    decreases n,
{
    if n <= 0 {
        (Seq::empty(), style)
    } else {
        let (text, now) = drawn_row(row, colors, y, n - 1, style);
        let cell = row[n - 1];
        if cell.wide_continuation {
            (text, now)
        } else {
            let highlight = highlight_at(colors, y, n - 1);
            (text + drawn_cell(cell, highlight, now), cell_style(cell, highlight))
        }
    }
}

/// What is sent for the first `n` rows, and the style after them. Rows are parted
/// by line breaks.
pub open spec fn drawn_rows(
    rows: Seq<Seq<CellView>>,
    colors: Seq<Seq<Option<Rgb>>>,
    n: int,
) -> (Seq<char>, DrawStyle)
    decreases n,
{
    if n <= 0 {
        (Seq::empty(), initial_style())
    } else {
        let (text, style) = drawn_rows(rows, colors, n - 1);
        let (own, after) = drawn_row(
            rows[n - 1],
            colors,
            n - 1,
            rows[n - 1].len() as int,
            style,
        );
        (text + own + only_if(n < rows.len(), "\r\n"@), after)
    }
}

/// What is sent to a cleared terminal, with the cursor in its corner, to show the
/// screen.
pub open spec fn drawn_screen(
    rows: Seq<Seq<CellView>>,
    colors: Seq<Seq<Option<Rgb>>>,
) -> Seq<char> {
    drawn_rows(rows, colors, rows.len() as int).0 + "\u{1b}[0m"@
}

/// How to show the screen.
#[derive(Debug)]
pub struct Frame {
    /// What to send to a cleared terminal with the cursor in its corner.
    pub text: String,
    /// The column and row of the cursor; without them it is hidden.
    pub cursor: Option<(u16, u16)>,
}

/// A frame, over plain text.
#[verifier::ext_equal]
pub struct FrameView {
    pub text: Seq<char>,
    pub cursor: Option<(u16, u16)>,
}

impl View for Frame {
    type V = FrameView;

    open spec fn view(&self) -> FrameView {
        FrameView { text: self.text@, cursor: self.cursor }
    }
}

/// The frame that shows these cells.
pub open spec fn frame_of(
    rows: Seq<Seq<CellView>>,
    colors: Seq<Seq<Option<Rgb>>>,
    state: TerminalState,
) -> FrameView {
    FrameView {
        text: drawn_screen(rows, colors),
        cursor: if state.cursor_visible {
            Some((state.cursor_col, state.cursor_row))
        } else {
            None
        },
    }
}

fn write_row(
    out: &mut String,
    row: &Vec<StyledCell>,
    colors: &[Vec<Option<Rgb>>],
    y: usize,
    style: &mut DrawStyle,
)
    ensures
        ({
            let (text, after) = drawn_row(
                cell_views(row@),
                color_rows(colors@),
                y as int,
                row@.len() as int,
                *old(style),
            );
            final(out)@ == old(out)@ + text && *final(style) == after
        }),
{
    let ghost cells = cell_views(row@);
    let ghost marks = color_rows(colors@);
    let mut i: usize = 0;
    assert(out@ + Seq::<char>::empty() == out@);
    while i < row.len()
        invariant
            cells == cell_views(row@),
            marks == color_rows(colors@),
            i <= row@.len(),
            out@ == old(out)@ + drawn_row(cells, marks, y as int, i as int, *old(style)).0,
            *style == drawn_row(cells, marks, y as int, i as int, *old(style)).1,
        decreases row@.len() - i,
    {
        assert(cells[i as int] == row@[i as int]@);
        if !row[i].wide_continuation {
            let highlight = highlight_color(colors, y, i);
            write_cell(out, &row[i], highlight, style);
            assert(out@ == old(out)@ + drawn_row(cells, marks, y as int, i + 1, *old(style)).0);
        }
        i = i + 1;
    }
}

/// Draws the screen.
pub fn draw_screen(
    cells: &[Vec<StyledCell>],
    highlight_colors: &[Vec<Option<Rgb>>],
    state: &TerminalState,
) -> (r: Frame)
    ensures
        r@ == frame_of(row_views(cells@), color_rows(highlight_colors@), *state),
{
    let ghost rows = row_views(cells@);
    let ghost marks = color_rows(highlight_colors@);
    let mut out = String::new();
    let mut style = DrawStyle::default();
    let mut i: usize = 0;
    while i < cells.len()
        invariant
            rows == row_views(cells@),
            marks == color_rows(highlight_colors@),
            i <= cells@.len(),
            out@ == drawn_rows(rows, marks, i as int).0,
            style == drawn_rows(rows, marks, i as int).1,
        decreases cells@.len() - i,
    {
        assert(rows[i as int] == cell_views(cells@[i as int]@));
        write_row(&mut out, &cells[i], highlight_colors, i, &mut style);
        if i + 1 < cells.len() {
            out.append("\r\n");
        }
        assert(out@ == drawn_rows(rows, marks, i + 1).0);
        i = i + 1;
    }
    out.append("\u{1b}[0m");
    let cursor = if state.cursor_visible {
        Some((state.cursor_col, state.cursor_row))
    } else {
        None
    };
    Frame { text: out, cursor }
}

/// What is sent for the first `n` rows in the colours of a flash.
pub open spec fn flashed_rows(rows: Seq<Seq<CellView>>, n: int) -> Seq<char>
    decreases n,
{
    if n <= 0 {
        Seq::empty()
    } else {
        flashed_rows(rows, n - 1) + "\u{1b}[38;2;16;16;16m\u{1b}[48;2;245;245;245m"@
            + row_text(rows[n - 1], rows[n - 1].len() as int) + "\u{1b}[0m"@
            + only_if(n < rows.len(), "\r\n"@)
    }
}

/// Draws the screen in the colours of a flash: what is sent to a cleared terminal
/// with the cursor in its corner.
pub fn flash_screen(cells: &[Vec<StyledCell>]) -> (r: String)
    ensures
        r@ == flashed_rows(row_views(cells@), cells@.len() as int),
{
    let ghost rows = row_views(cells@);
    let mut out = String::new();
    let mut i: usize = 0;
    while i < cells.len()
        invariant
            rows == row_views(cells@),
            i <= cells@.len(),
            out@ == flashed_rows(rows, i as int),
        decreases cells@.len() - i,
    {
        let ghost before = out@;
        let row = &cells[i];
        let ghost own = cell_views(row@);
        assert(rows[i as int] == own);
        out.append("\u{1b}[38;2;16;16;16m\u{1b}[48;2;245;245;245m");
        let ghost lead = out@;
        let mut k: usize = 0;
        assert(out@ == lead + row_text(own, 0));
        while k < row.len()
            invariant
                own == cell_views(row@),
                k <= row@.len(),
                out@ == lead + row_text(own, k as int),
            decreases row@.len() - k,
        {
            assert(own[k as int] == row@[k as int]@);
            if !row[k].wide_continuation {
                out.append(row[k].text.as_str());
                assert(out@ == lead + row_text(own, k + 1));
            }
            k = k + 1;
        }
        out.append("\u{1b}[0m");
        if i + 1 < cells.len() {
            out.append("\r\n");
        }
        assert(out@ == flashed_rows(rows, i + 1));
        i = i + 1;
    }
    out
}

/// A frame shows the cursor where it stands, column first, and only while it is
/// visible.
pub proof fn law_frame_places_the_cursor(
    rows: Seq<Seq<CellView>>,
    colors: Seq<Seq<Option<Rgb>>>,
    state: TerminalState,
)
    ensures
        frame_of(rows, colors, state).text == drawn_screen(rows, colors),
        frame_of(rows, colors, state).cursor is Some <==> state.cursor_visible,
        state.cursor_visible ==> frame_of(rows, colors, state).cursor->Some_0.0 == state.cursor_col
            && frame_of(rows, colors, state).cursor->Some_0.1 == state.cursor_row,
{
}

} // verus!
