//! Screenshots.
use crate::color::{pair_value, rgb_cuts, rgb_digits, rgb_read, without_hashes};
use crate::error::RgbError;
use crate::highlight::color_rows;
use crate::model::{CellView, DisplayColor, Rgb, StyledCell, cell_views, row_views};
use crate::text::{
    chars_of, decimal, hex_byte, hex_char, hex_value, lemma_joining_associates, push_decimal,
    push_hex_byte, same_text, trimmed, upper_char, upper_text,
};
use vstd::prelude::*;
use vstd::string::StringExecFns;
use vstd::utf8::*;

verus! {

broadcast use vstd::string::group_string_axioms;

/// The width of a cell in a screenshot.
pub const CELL_WIDTH: usize = 9;

/// The height of a cell in a screenshot.
pub const CELL_HEIGHT: usize = 18;

/// A colour as a hash sign and six hexadecimal digits.
pub open spec fn rgb_text(rgb: Rgb) -> Seq<char> {
    "#"@ + hex_byte(rgb.0) + hex_byte(rgb.1) + hex_byte(rgb.2)
}

/// Writes a colour as a hash sign and six hexadecimal digits.
pub fn rgb_hex(rgb: Rgb) -> (r: String)
    ensures
        r@ == rgb_text(rgb),
{
    let mut out = "#".to_string();
    push_hex_byte(&mut out, rgb.0);
    push_hex_byte(&mut out, rgb.1);
    push_hex_byte(&mut out, rgb.2);
    out
}

/// The six digits of a colour.
pub open spec fn rgb_digit_text(rgb: Rgb) -> Seq<char> {
    hex_byte(rgb.0) + hex_byte(rgb.1) + hex_byte(rgb.2)
}

/// A colour that was written is read as itself, with or without the hash sign and
/// in small letters or capitals.
pub proof fn law_rgb_reads_back(rgb: Rgb)
    ensures
        rgb_text(rgb) == "#"@ + rgb_digit_text(rgb),
        !rgb_cuts(rgb_text(rgb)),
        rgb_read(rgb_text(rgb)) == Ok::<Rgb, RgbError>(rgb),
        !rgb_cuts(rgb_digit_text(rgb)),
        rgb_read(rgb_digit_text(rgb)) == Ok::<Rgb, RgbError>(rgb),
        !rgb_cuts(upper_text(rgb_text(rgb))),
        rgb_read(upper_text(rgb_text(rgb))) == Ok::<Rgb, RgbError>(rgb),
        !rgb_cuts(upper_text(rgb_digit_text(rgb))),
        rgb_read(upper_text(rgb_digit_text(rgb))) == Ok::<Rgb, RgbError>(rgb),
{
    reveal_strlit("#");
    let none = Seq::<char>::empty();
    assert("#"@ == seq!['#']);
    let small = rgb_digit_text(rgb);
    let large = upper_text(small);
    lemma_hex_byte_reads_back(rgb.0);
    lemma_hex_byte_reads_back(rgb.1);
    lemma_hex_byte_reads_back(rgb.2);
    assert(small[0] == hex_byte(rgb.0)[0] && small[1] == hex_byte(rgb.0)[1]);
    assert(small[2] == hex_byte(rgb.1)[0] && small[3] == hex_byte(rgb.1)[1]);
    assert(small[4] == hex_byte(rgb.2)[0] && small[5] == hex_byte(rgb.2)[1]);
    assert(rgb_text(rgb) == "#"@ + small);
    assert(upper_text(rgb_text(rgb)) == "#"@ + large);
    assert(none + small == small);
    assert(none + large == large);
    lemma_digits_read("#"@, small, rgb);
    lemma_digits_read(none, small, rgb);
    lemma_digits_read("#"@, large, rgb);
    lemma_digits_read(none, large, rgb);
}

/// Whether a character is a hexadecimal digit.
pub open spec fn hex_digit_char(c: char) -> bool {
    '0' <= c <= '9' || 'a' <= c <= 'f' || 'A' <= c <= 'F'
}

proof fn lemma_digits_read(lead: Seq<char>, digits: Seq<char>, rgb: Rgb)
    requires
        lead.len() == 0 || lead == seq!['#'],
        digits.len() == 6,
        forall|i: int| 0 <= i < 6 ==> hex_digit_char(#[trigger] digits[i]),
        pair_value(digits[0], digits[1]) == Some(rgb.0 as int),
        pair_value(digits[2], digits[3]) == Some(rgb.1 as int),
        pair_value(digits[4], digits[5]) == Some(rgb.2 as int),
    ensures
        !rgb_cuts(lead + digits),
        rgb_read(lead + digits) == Ok::<Rgb, RgbError>(rgb),
{
    let text = lead + digits;
    assert(text.last() == digits[5]);
    assert(hex_digit_char(digits[5]));
    assert(hex_digit_char(digits[0]));
    assert(text[0] == '#' || text[0] == digits[0]);
    assert(trimmed(text) == text);
    assert(without_hashes(digits) == digits);
    if lead.len() == 0 {
        assert(text == digits);
    } else {
        assert(text.drop_first() == digits);
    }
    assert(rgb_digits(text) == digits);
    assert(is_ascii_chars(digits));
    is_ascii_chars_encode_utf8(digits);
    encode_utf8_valid_utf8(digits);
    let bytes = encode_utf8(digits);
    assert(bytes[2] == digits[2] as u8);
    assert(bytes[4] == digits[4] as u8);
    assert(hex_digit_char(digits[2]) && hex_digit_char(digits[4]));
    is_char_boundary_iff_not_is_continuation_byte(bytes, 2);
    is_char_boundary_iff_not_is_continuation_byte(bytes, 4);
}

proof fn lemma_hex_byte_reads_back(b: u8)
    ensures
        hex_byte(b).len() == 2,
        pair_value(hex_byte(b)[0], hex_byte(b)[1]) == Some(b as int),
        pair_value(upper_char(hex_byte(b)[0]), upper_char(hex_byte(b)[1])) == Some(b as int),
        forall|i: int|
            0 <= i < 2 ==> hex_digit_char(#[trigger] hex_byte(b)[i]) && hex_digit_char(
                upper_char(hex_byte(b)[i]),
            ),
{
    lemma_hex_digit_reads_back(b as int / 16);
    lemma_hex_digit_reads_back(b as int % 16);
}

proof fn lemma_hex_digit_reads_back(d: int)
    requires
        0 <= d < 16,
    ensures
        hex_value(hex_char(d)) == Some(d),
        hex_value(upper_char(hex_char(d))) == Some(d),
        hex_digit_char(hex_char(d)),
        hex_digit_char(upper_char(hex_char(d))),
{
}

/// The colours of the palette; everything behind the first fifteen is white.
pub open spec fn palette(idx: u8) -> Rgb {
    if idx == 0 {
        Rgb(0, 0, 0)
    } else if idx == 1 {
        Rgb(205, 49, 49)
    } else if idx == 2 {
        Rgb(13, 188, 121)
    } else if idx == 3 {
        Rgb(229, 229, 16)
    } else if idx == 4 {
        Rgb(36, 114, 200)
    } else if idx == 5 {
        Rgb(188, 63, 188)
    } else if idx == 6 {
        Rgb(17, 168, 205)
    } else if idx == 7 {
        Rgb(229, 229, 229)
    } else if idx == 8 {
        Rgb(102, 102, 102)
    } else if idx == 9 {
        Rgb(241, 76, 76)
    } else if idx == 10 {
        Rgb(35, 209, 139)
    } else if idx == 11 {
        Rgb(245, 245, 67)
    } else if idx == 12 {
        Rgb(59, 142, 234)
    } else if idx == 13 {
        Rgb(214, 112, 214)
    } else if idx == 14 {
        Rgb(41, 184, 219)
    } else {
        Rgb(255, 255, 255)
    }
}

/// The colour at a place of the palette.
pub fn indexed_to_rgb(idx: u8) -> (r: Rgb)
    ensures
        r == palette(idx),
{
    match idx {
        0 => Rgb(0, 0, 0),
        1 => Rgb(205, 49, 49),
        2 => Rgb(13, 188, 121),
        3 => Rgb(229, 229, 16),
        4 => Rgb(36, 114, 200),
        5 => Rgb(188, 63, 188),
        6 => Rgb(17, 168, 205),
        7 => Rgb(229, 229, 229),
        8 => Rgb(102, 102, 102),
        9 => Rgb(241, 76, 76),
        10 => Rgb(35, 209, 139),
        11 => Rgb(245, 245, 67),
        12 => Rgb(59, 142, 234),
        13 => Rgb(214, 112, 214),
        14 => Rgb(41, 184, 219),
        _ => Rgb(255, 255, 255),
    }
}

/// How a colour is written, with a text for the default one.
pub open spec fn color_text(color: DisplayColor, default: Seq<char>) -> Seq<char> {
    match color {
        DisplayColor::Default => default,
        DisplayColor::Indexed(idx) => rgb_text(palette(idx)),
        DisplayColor::Rgb(rgb) => rgb_text(rgb),
    }
}

/// Writes the colour of a text.
pub fn display_color_hex(color: DisplayColor) -> (r: String)
    ensures
        r@ == color_text(color, "#d0d0d0"@),
{
    match color {
        DisplayColor::Default => "#d0d0d0".to_string(),
        DisplayColor::Indexed(idx) => rgb_hex(indexed_to_rgb(idx)),
        DisplayColor::Rgb(rgb) => rgb_hex(rgb),
    }
}

/// Writes the colour of a background.
pub fn display_bg_hex(color: DisplayColor) -> (r: String)
    ensures
        r@ == color_text(color, "#00000000"@),
{
    match color {
        DisplayColor::Default => "#00000000".to_string(),
        DisplayColor::Indexed(idx) => rgb_hex(indexed_to_rgb(idx)),
        DisplayColor::Rgb(rgb) => rgb_hex(rgb),
    }
}

/// A character as it stands in the text of an element.
pub open spec fn escaped_char(c: char) -> Seq<char> {
    if c == '&' {
        "&amp;"@
    } else if c == '<' {
        "&lt;"@
    } else if c == '>' {
        "&gt;"@
    } else {
        seq![c]
    }
}

/// A text as it stands in an element.
pub open spec fn escaped(text: Seq<char>) -> Seq<char>
    decreases text.len(),
{
    if text.len() == 0 {
        text
    } else {
        escaped(text.drop_last()) + escaped_char(text.last())
    }
}

/// Escapes the characters of a text that would be taken for markup.
pub fn svg_escape(text: &str) -> (r: String)
    ensures
        r@ == escaped(text@),
{
    let chars = chars_of(text);
    let mut out = String::new();
    let mut i: usize = 0;
    assert(escaped(text@.take(0)) == Seq::<char>::empty());
    while i < chars.len()
        invariant
            chars@ == text@,
            i <= chars@.len(),
            out@ == escaped(text@.take(i as int)),
        decreases chars@.len() - i,
    {
        let c: char = chars[i];
        proof {
            assert(text@.take(i + 1).drop_last() == text@.take(i as int));
            assert(text@.take(i + 1).last() == c);
        }
        if c == '&' {
            out.append("&amp;");
        } else if c == '<' {
            out.append("&lt;");
        } else if c == '>' {
            out.append("&gt;");
        } else {
            let ghost before = out@;
            out.push(c);
            assert(out@ == before + seq![c]);
        }
        i = i + 1;
    }
    assert(text@.take(i as int) == text@);
    out
}

/// Escaping a text is escaping its parts.
pub proof fn law_parts_are_escaped_alone(a: Seq<char>, b: Seq<char>)
    ensures
        escaped(a + b) == escaped(a) + escaped(b),
    decreases b.len(),
{
    if b.len() == 0 {
        assert(a + b == a);
        assert(escaped(a) + escaped(b) == escaped(a));
    } else {
        law_parts_are_escaped_alone(a, b.drop_last());
        assert((a + b).drop_last() == a + b.drop_last());
        assert((a + b).last() == b.last());
        assert(escaped(a) + escaped(b.drop_last()) + escaped_char(b.last()) == escaped(a)
            + escaped(b));
    }
}

/// An escaped text cannot be taken for markup.
pub proof fn law_escaped_holds_no_markup(text: Seq<char>)
    ensures
        forall|i: int|
            0 <= i < escaped(text).len() ==> (#[trigger] escaped(text)[i]) != '<' && escaped(
                text,
            )[i] != '>',
    decreases text.len(),
{
    if text.len() > 0 {
        law_escaped_holds_no_markup(text.drop_last());
        reveal_strlit("&amp;");
        reveal_strlit("&lt;");
        reveal_strlit("&gt;");
        let before = escaped(text.drop_last());
        let last = escaped_char(text.last());
        assert forall|i: int| 0 <= i < escaped(text).len() implies (#[trigger] escaped(text)[i])
            != '<' && escaped(text)[i] != '>' by {
            if i < before.len() {
                assert(escaped(text)[i] == before[i]);
            } else {
                assert(escaped(text)[i] == last[i - before.len()]);
            }
        }
    }
}

/// The highlight colour of a cell, where there is one.
pub open spec fn highlight_at(colors: Seq<Seq<Option<Rgb>>>, row: int, col: int) -> Option<Rgb> {
    if 0 <= row < colors.len() && 0 <= col < colors[row].len() {
        colors[row][col]
    } else {
        None
    }
}

/// Looks up the highlight colour of a cell.
pub fn highlight_color(colors: &[Vec<Option<Rgb>>], row: usize, col: usize) -> (r: Option<Rgb>)
    ensures
        r == highlight_at(color_rows(colors@), row as int, col as int),
{
    if row < colors.len() && col < colors[row].len() {
        colors[row][col]
    } else {
        None
    }
}

/// The background of a cell in a screenshot.
pub open spec fn cell_background(cell: CellView, highlight: Option<Rgb>) -> Seq<char> {
    match highlight {
        Some(rgb) => rgb_text(rgb),
        None => color_text(cell.bg, "#00000000"@),
    }
}

/// The rectangle behind a cell of a screenshot.
pub open spec fn svg_rect(x: nat, y: nat, bg: Seq<char>) -> Seq<char> {
    "<rect x=\""@ + decimal(x) + "\" y=\""@ + decimal(y) + "\" width=\""@ + decimal(
        CELL_WIDTH as nat,
    ) + "\" height=\""@ + decimal(CELL_HEIGHT as nat) + "\" fill=\""@ + bg + "\"/>"@
}

/// One cell of a screenshot: a rectangle, unless the background is black or not
/// set, and the text.
pub open spec fn svg_cell(cell: CellView, x: nat, y: nat, highlight: Option<Rgb>) -> Seq<char> {
    let bg = cell_background(cell, highlight);
    let rect = if bg != "#00000000"@ && bg != "#000000"@ {
        svg_rect(x, y, bg)
    } else {
        Seq::empty()
    };
    rect + "<text x=\""@ + decimal(x) + "\" y=\""@ + decimal(y) + "\" fill=\""@ + color_text(
        cell.fg,
        "#d0d0d0"@,
    ) + "\">"@ + escaped(cell.text) + "</text>"@
}

/// The first `n` cells of a row in a screenshot; continuations are left out.
pub open spec fn svg_row(
    row: Seq<CellView>,
    colors: Seq<Seq<Option<Rgb>>>,
    y: int,
    n: int,
) -> Seq<char>
    decreases n,
{
    if n <= 0 {
        Seq::empty()
    } else if row[n - 1].wide_continuation {
        svg_row(row, colors, y, n - 1)
    } else {
        svg_row(row, colors, y, n - 1) + svg_cell(
            row[n - 1],
            ((n - 1) * CELL_WIDTH) as nat,
            (y * CELL_HEIGHT) as nat,
            highlight_at(colors, y, n - 1),
        )
    }
}

/// The first `n` rows of a screenshot.
pub open spec fn svg_rows(
    rows: Seq<Seq<CellView>>,
    colors: Seq<Seq<Option<Rgb>>>,
    n: int,
) -> Seq<char>
    decreases n,
{
    if n <= 0 {
        Seq::empty()
    } else {
        svg_rows(rows, colors, n - 1) + svg_row(
            rows[n - 1],
            colors,
            n - 1,
            rows[n - 1].len() as int,
        )
    }
}

/// How many cells wide a screenshot is: as wide as its first row.
pub open spec fn screen_width(rows: Seq<Seq<CellView>>) -> nat {
    if rows.len() == 0 {
        0
    } else {
        rows[0].len()
    }
}

/// What a screenshot of this size starts with.
pub open spec fn svg_head(width: nat, height: nat) -> Seq<char> {
    "<svg xmlns=\"http://www.w3.org/2000/svg\" width=\""@ + decimal(width) + "\" height=\""@
        + decimal(height) + "\" viewBox=\"0 0 "@ + decimal(width) + " "@ + decimal(height) + "\">"@
        + "<rect width=\"100%\" height=\"100%\" fill=\"#101010\"/>"@
        + "<g font-family=\"monospace\" font-size=\"14\" dominant-baseline=\"hanging\">"@
}

/// A screenshot of the cells with their highlight colours.
pub open spec fn screenshot(
    rows: Seq<Seq<CellView>>,
    colors: Seq<Seq<Option<Rgb>>>,
) -> Seq<char> {
    svg_head(screen_width(rows) * CELL_WIDTH as nat, rows.len() * CELL_HEIGHT as nat) + svg_rows(
        rows,
        colors,
        rows.len() as int,
    ) + "</g></svg>"@
}

/// Whether every place on a screenshot of these cells can be counted.
pub open spec fn screen_fits(rows: Seq<Seq<CellView>>) -> bool {
    &&& rows.len() * CELL_HEIGHT <= usize::MAX
    &&& forall|i: int| 0 <= i < rows.len() ==> (#[trigger] rows[i]).len() * CELL_WIDTH <= usize::MAX
}

/// The highlight colours that may be given.
pub open spec fn given_colors(colors: Option<&[Vec<Option<Rgb>>]>) -> Seq<Seq<Option<Rgb>>> {
    match colors {
        Some(rows) => color_rows(rows@),
        None => Seq::empty(),
    }
}

fn push_number(out: &mut String, n: usize)
    ensures
        final(out)@ == old(out)@ + decimal(n as nat),
{
    push_decimal(out, n as u128);
}

fn cell_rect(x: usize, y: usize, bg: &str) -> (r: String)
    ensures
        r@ == svg_rect(x as nat, y as nat, bg@),
{
    let mut out = "<rect x=\"".to_string();
    push_number(&mut out, x);
    out.append("\" y=\"");
    push_number(&mut out, y);
    out.append("\" width=\"");
    push_number(&mut out, CELL_WIDTH);
    out.append("\" height=\"");
    push_number(&mut out, CELL_HEIGHT);
    out.append("\" fill=\"");
    out.append(bg);
    out.append("\"/>");
    out
}

fn cell_svg(cell: &StyledCell, x: usize, y: usize, highlight: Option<Rgb>) -> (r: String)
    ensures
        r@ == svg_cell(cell@, x as nat, y as nat, highlight),
{
    let bg = match highlight {
        Some(rgb) => rgb_hex(rgb),
        None => display_bg_hex(cell.bg),
    };
    let mut out = String::new();
    if !same_text(bg.as_str(), "#00000000") && !same_text(bg.as_str(), "#000000") {
        out = cell_rect(x, y, bg.as_str());
    }
    out.append("<text x=\"");
    push_number(&mut out, x);
    out.append("\" y=\"");
    push_number(&mut out, y);
    out.append("\" fill=\"");
    out.append(display_color_hex(cell.fg).as_str());
    out.append("\">");
    out.append(svg_escape(cell.text.as_str()).as_str());
    out.append("</text>");
    out
}

fn push_row(out: &mut String, row: &Vec<StyledCell>, colors: &[Vec<Option<Rgb>>], y: usize)
    requires
        row@.len() * CELL_WIDTH <= usize::MAX,
        y * CELL_HEIGHT <= usize::MAX,
    ensures
        final(out)@ == old(out)@ + svg_row(
            cell_views(row@),
            color_rows(colors@),
            y as int,
            row@.len() as int,
        ),
{
    let ghost cells = cell_views(row@);
    let ghost marks = color_rows(colors@);
    let mut i: usize = 0;
    assert(out@ == old(out)@ + svg_row(cells, marks, y as int, 0));
    while i < row.len()
        invariant
            cells == cell_views(row@),
            marks == color_rows(colors@),
            i <= row@.len(),
            row@.len() * CELL_WIDTH <= usize::MAX,
            y * CELL_HEIGHT <= usize::MAX,
            out@ == old(out)@ + svg_row(cells, marks, y as int, i as int),
        decreases row@.len() - i,
    {
        let ghost before = out@;
        assert(cells[i as int] == row@[i as int]@);
        if !row[i].wide_continuation {
            let cell = cell_svg(
                &row[i],
                i * CELL_WIDTH,
                y * CELL_HEIGHT,
                highlight_color(colors, y, i),
            );
            out.append(cell.as_str());
            assert(out@ == old(out)@ + svg_row(cells, marks, y as int, i + 1));
        }
        i = i + 1;
    }
}

/// Draws the cells of the screen, with their highlight colours, as SVG.
pub fn screen_to_svg(
    cells: &[Vec<StyledCell>],
    highlight_colors: Option<&[Vec<Option<Rgb>>]>,
) -> (r: String)
    requires
        screen_fits(row_views(cells@)),
    ensures
        r@ == screenshot(row_views(cells@), given_colors(highlight_colors)),
{
    let ghost rows = row_views(cells@);
    let none: Vec<Vec<Option<Rgb>>> = Vec::new();
    let colors: &[Vec<Option<Rgb>>] = match highlight_colors {
        Some(given) => given,
        None => none.as_slice(),
    };
    let ghost marks = given_colors(highlight_colors);
    assert(color_rows(colors@) == marks);
    let first: usize = if cells.len() > 0 {
        assert(rows[0].len() == cells@[0]@.len());
        cells[0].len()
    } else {
        0
    };
    let width: usize = first * CELL_WIDTH;
    let height: usize = cells.len() * CELL_HEIGHT;
    let mut svg = "<svg xmlns=\"http://www.w3.org/2000/svg\" width=\"".to_string();
    push_number(&mut svg, width);
    svg.append("\" height=\"");
    push_number(&mut svg, height);
    svg.append("\" viewBox=\"0 0 ");
    push_number(&mut svg, width);
    svg.append(" ");
    push_number(&mut svg, height);
    svg.append("\">");
    svg.append("<rect width=\"100%\" height=\"100%\" fill=\"#101010\"/>");
    svg.append("<g font-family=\"monospace\" font-size=\"14\" dominant-baseline=\"hanging\">");
    let ghost head = svg_head(width as nat, height as nat);
    assert(svg@ == head);
    let mut i: usize = 0;
    assert(svg@ == head + svg_rows(rows, marks, 0));
    while i < cells.len()
        invariant
            rows == row_views(cells@),
            screen_fits(rows),
            marks == color_rows(colors@),
            i <= cells@.len(),
            svg@ == head + svg_rows(rows, marks, i as int),
        decreases cells@.len() - i,
    {
        assert(rows[i as int] == cell_views(cells@[i as int]@));
        push_row(&mut svg, &cells[i], colors, i);
        assert(svg@ == head + svg_rows(rows, marks, i + 1));
        i = i + 1;
    }
    svg.append("</g></svg>");
    svg
}

proof fn lemma_cell_in_row(
    row: Seq<CellView>,
    colors: Seq<Seq<Option<Rgb>>>,
    y: int,
    c: int,
    n: int,
) -> (behind: Seq<char>)
    requires
        0 <= c < n <= row.len(),
        !row[c].wide_continuation,
    ensures
        svg_row(row, colors, y, n) == svg_row(row, colors, y, c) + svg_cell(
            row[c],
            (c * 9) as nat,
            (y * 18) as nat,
            highlight_at(colors, y, c),
        ) + behind,
    decreases n,
{
    let upto = svg_row(row, colors, y, c) + svg_cell(
        row[c],
        (c * 9) as nat,
        (y * 18) as nat,
        highlight_at(colors, y, c),
    );
    if n == c + 1 {
        assert(upto + Seq::<char>::empty() == upto);
        Seq::empty()
    } else {
        let behind = lemma_cell_in_row(row, colors, y, c, n - 1);
        if row[n - 1].wide_continuation {
            behind
        } else {
            let last = svg_cell(
                row[n - 1],
                ((n - 1) * CELL_WIDTH) as nat,
                (y * CELL_HEIGHT) as nat,
                highlight_at(colors, y, n - 1),
            );
            assert((upto + behind) + last == upto + (behind + last));
            behind + last
        }
    }
}

proof fn lemma_row_in_rows(
    rows: Seq<Seq<CellView>>,
    colors: Seq<Seq<Option<Rgb>>>,
    y: int,
    n: int,
) -> (behind: Seq<char>)
    requires
        0 <= y < n <= rows.len(),
    ensures
        svg_rows(rows, colors, n) == svg_rows(rows, colors, y) + svg_row(
            rows[y],
            colors,
            y,
            rows[y].len() as int,
        ) + behind,
    decreases n,
{
    let upto = svg_rows(rows, colors, y) + svg_row(rows[y], colors, y, rows[y].len() as int);
    if n == y + 1 {
        assert(upto + Seq::<char>::empty() == upto);
        Seq::empty()
    } else {
        let behind = lemma_row_in_rows(rows, colors, y, n - 1);
        let last = svg_row(rows[n - 1], colors, n - 1, rows[n - 1].len() as int);
        assert((upto + behind) + last == upto + (behind + last));
        behind + last
    }
}

/// Every visible cell stands in a screenshot at its own column and row, in its own
/// highlight.
pub proof fn law_cell_stands_at_its_place(
    rows: Seq<Seq<CellView>>,
    colors: Seq<Seq<Option<Rgb>>>,
    y: int,
    c: int,
) -> (around: (Seq<char>, Seq<char>))
    requires
        0 <= y < rows.len(),
        0 <= c < rows[y].len(),
        !rows[y][c].wide_continuation,
    ensures
        screenshot(rows, colors) == around.0 + svg_cell(
            rows[y][c],
            (c * 9) as nat,
            (y * 18) as nat,
            highlight_at(colors, y, c),
        ) + around.1,
{
    let row = rows[y];
    let head = svg_head(screen_width(rows) * CELL_WIDTH as nat, rows.len() * CELL_HEIGHT as nat);
    let cell = svg_cell(row[c], (c * 9) as nat, (y * 18) as nat, highlight_at(colors, y, c));
    let in_row = lemma_cell_in_row(row, colors, y, c, row.len() as int);
    let in_rows = lemma_row_in_rows(rows, colors, y, rows.len() as int);
    let above = svg_rows(rows, colors, y);
    let left = svg_row(row, colors, y, c);
    let before = head + above + left;
    let behind = in_row + in_rows + "</g></svg>"@;
    assert(screenshot(rows, colors) == before + cell + behind) by {
        broadcast use lemma_joining_associates;

    }
    (before, behind)
}

/// A screenshot grows cell by cell and row by row: a visible cell adds what it looks
/// like at its own column, and a continuation adds nothing.
pub proof fn law_screenshot_holds_its_cells_in_order(
    rows: Seq<Seq<CellView>>,
    colors: Seq<Seq<Option<Rgb>>>,
    y: int,
    n: int,
)
    requires
        0 <= y < rows.len(),
        0 <= n < rows[y].len(),
    ensures
        svg_row(rows[y], colors, y, 0) == Seq::<char>::empty(),
        rows[y][n].wide_continuation ==> svg_row(rows[y], colors, y, n + 1) == svg_row(
            rows[y],
            colors,
            y,
            n,
        ),
        !rows[y][n].wide_continuation ==> svg_row(rows[y], colors, y, n + 1) == svg_row(
            rows[y],
            colors,
            y,
            n,
        ) + svg_cell(rows[y][n], (n * 9) as nat, (y * 18) as nat, highlight_at(colors, y, n)),
        svg_rows(rows, colors, 0) == Seq::<char>::empty(),
        svg_rows(rows, colors, y + 1) == svg_rows(rows, colors, y) + svg_row(
            rows[y],
            colors,
            y,
            rows[y].len() as int,
        ),
{
}

/// A screenshot is nine units wide for each cell of its first row and eighteen high
/// for each row.
pub proof fn law_screenshot_has_the_size_of_its_cells(
    rows: Seq<Seq<CellView>>,
    colors: Seq<Seq<Option<Rgb>>>,
)
    ensures
        ({
            let width = decimal(if rows.len() == 0 { 0 } else { rows[0].len() * 9 });
            let height = decimal(rows.len() * 18);
            screenshot(rows, colors) == "<svg xmlns=\"http://www.w3.org/2000/svg\" width=\""@ + width
                + "\" height=\""@ + height + "\" viewBox=\"0 0 "@ + width + " "@ + height + "\">"@
                + "<rect width=\"100%\" height=\"100%\" fill=\"#101010\"/>"@
                + "<g font-family=\"monospace\" font-size=\"14\" dominant-baseline=\"hanging\">"@
                + svg_rows(rows, colors, rows.len() as int) + "</g></svg>"@
        }),
{
}

/// The colour behind a cell that can be seen: the highlight, or the cell's own
/// background, unless it is black or not set.
pub open spec fn seen_background(cell: CellView, highlight: Option<Rgb>) -> Option<Rgb> {
    let behind = if highlight is Some {
        highlight
    } else if cell.bg is Rgb {
        Some(cell.bg->Rgb_0)
    } else if cell.bg is Indexed {
        Some(palette(cell.bg->Indexed_0))
    } else {
        None
    };
    if behind == Some(Rgb(0, 0, 0)) {
        None
    } else {
        behind
    }
}

/// A cell is its text, escaped, in its own colour, on a rectangle of the size of a
/// cell in the colour behind it where that can be seen.
pub proof fn law_cell_is_text_on_background(
    cell: CellView,
    x: nat,
    y: nat,
    highlight: Option<Rgb>,
)
    ensures
        ({
            let place = " x=\""@ + decimal(x) + "\" y=\""@ + decimal(y) + "\""@;
            let color = if cell.fg is Default {
                "#d0d0d0"@
            } else if cell.fg is Rgb {
                rgb_text(cell.fg->Rgb_0)
            } else {
                rgb_text(palette(cell.fg->Indexed_0))
            };
            let text = "<text"@ + place + " fill=\""@ + color + "\">"@ + escaped(cell.text)
                + "</text>"@;
            svg_cell(cell, x, y, highlight) == match seen_background(cell, highlight) {
                Some(rgb) => "<rect"@ + place + " width=\"9\" height=\"18\" fill=\""@ + rgb_text(rgb)
                    + "\"/>"@ + text,
                None => text,
            }
        }),
{
    lemma_text_element(x, y, color_text(cell.fg, "#d0d0d0"@), escaped(cell.text));
    lemma_seen_background(cell, highlight);
    let place = " x=\""@ + decimal(x) + "\" y=\""@ + decimal(y) + "\""@;
    let color = color_text(cell.fg, "#d0d0d0"@);
    let text = "<text"@ + place + " fill=\""@ + color + "\">"@ + escaped(cell.text) + "</text>"@;
    let bg = cell_background(cell, highlight);
    match seen_background(cell, highlight) {
        Some(rgb) => {
            lemma_rect_element(x, y, bg);
            assert(svg_cell(cell, x, y, highlight) == svg_rect(x, y, bg) + text) by {
                broadcast use lemma_joining_associates;

            }
        },
        None => {
            assert(svg_cell(cell, x, y, highlight) == Seq::<char>::empty() + text) by {
                broadcast use lemma_joining_associates;

            }
            assert(Seq::<char>::empty() + text == text);
        },
    }
}

proof fn lemma_text_element(x: nat, y: nat, color: Seq<char>, text: Seq<char>)
    ensures
        ({
            let place = " x=\""@ + decimal(x) + "\" y=\""@ + decimal(y) + "\""@;
            "<text x=\""@ + decimal(x) + "\" y=\""@ + decimal(y) + "\" fill=\""@ + color + "\">"@
                + text + "</text>"@ == "<text"@ + place + " fill=\""@ + color + "\">"@ + text
                + "</text>"@
        }),
{
    broadcast use lemma_joining_associates;

    reveal_strlit("<text x=\"");
    reveal_strlit("<text");
    reveal_strlit(" x=\"");
    reveal_strlit("\"");
    reveal_strlit("\" fill=\"");
    reveal_strlit(" fill=\"");
    assert("<text x=\""@ == "<text"@ + " x=\""@);
    assert("\" fill=\""@ == "\""@ + " fill=\""@);
}

proof fn lemma_rect_element(x: nat, y: nat, bg: Seq<char>)
    ensures
        ({
            let place = " x=\""@ + decimal(x) + "\" y=\""@ + decimal(y) + "\""@;
            svg_rect(x, y, bg) == "<rect"@ + place + " width=\"9\" height=\"18\" fill=\""@ + bg
                + "\"/>"@
        }),
{
    let size = "\" width=\""@ + decimal(9) + "\" height=\""@ + decimal(18) + "\" fill=\""@;
    reveal_strlit("<rect x=\"");
    reveal_strlit("<rect");
    reveal_strlit(" x=\"");
    reveal_strlit("\"");
    assert("<rect x=\""@ == "<rect"@ + " x=\""@);
    assert(size == "\""@ + " width=\"9\" height=\"18\" fill=\""@) by {
        reveal_strlit("\" width=\"");
        reveal_strlit("\" height=\"");
        reveal_strlit("\" fill=\"");
        reveal_strlit(" width=\"9\" height=\"18\" fill=\"");
        reveal_with_fuel(decimal, 3);
        assert(decimal(9) == seq!['9']);
        assert(decimal(18) == seq!['1', '8']);
    }
    let start = "<rect x=\""@ + decimal(x) + "\" y=\""@ + decimal(y);
    assert(svg_rect(x, y, bg) == start + size + bg + "\"/>"@) by {
        broadcast use lemma_joining_associates;

    }
    assert(start + size + bg + "\"/>"@ == "<rect"@ + (" x=\""@ + decimal(x) + "\" y=\""@ + decimal(
        y,
    ) + "\""@) + " width=\"9\" height=\"18\" fill=\""@ + bg + "\"/>"@) by {
        broadcast use lemma_joining_associates;

    }
}

proof fn lemma_seen_background(cell: CellView, highlight: Option<Rgb>)
    ensures
        ({
            let bg = cell_background(cell, highlight);
            match seen_background(cell, highlight) {
                Some(rgb) => bg == rgb_text(rgb) && bg != "#000000"@ && bg != "#00000000"@,
                None => bg == "#000000"@ || bg == "#00000000"@,
            }
        }),
{
    reveal_strlit("#000000");
    reveal_strlit("#00000000");
    reveal_strlit("#");
    let black = Rgb(0, 0, 0);
    assert(rgb_text(black) == "#000000"@);
    law_rgb_reads_back(black);
    match seen_background(cell, highlight) {
        Some(rgb) => {
            law_rgb_reads_back(rgb);
            assert(rgb_text(rgb).len() == 7);
            assert("#00000000"@.len() == 9);
        },
        None => {},
    }
}

/// The characters that markup is made of are replaced, and every other character
/// stays as it is.
pub proof fn law_single_characters_are_escaped(c: char)
    ensures
        escaped(seq!['&']) == "&amp;"@,
        escaped(seq!['<']) == "&lt;"@,
        escaped(seq!['>']) == "&gt;"@,
        c != '&' && c != '<' && c != '>' ==> escaped(seq![c]) == seq![c],
        escaped(Seq::<char>::empty()) == Seq::<char>::empty(),
{
    reveal_with_fuel(escaped, 2);
    assert(seq![c].drop_last() == Seq::<char>::empty());
    assert(seq!['&'].drop_last() == Seq::<char>::empty());
    assert(seq!['<'].drop_last() == Seq::<char>::empty());
    assert(seq!['>'].drop_last() == Seq::<char>::empty());
    assert(Seq::<char>::empty() + "&amp;"@ == "&amp;"@);
    assert(Seq::<char>::empty() + "&lt;"@ == "&lt;"@);
    assert(Seq::<char>::empty() + "&gt;"@ == "&gt;"@);
    assert(Seq::<char>::empty() + seq![c] == seq![c]);
}

/// Each number below fifteen has its own colour, and all others are white.
pub proof fn law_palette(idx: u8)
    ensures
        ({
            let table = seq![
                Rgb(0, 0, 0),
                Rgb(205, 49, 49),
                Rgb(13, 188, 121),
                Rgb(229, 229, 16),
                Rgb(36, 114, 200),
                Rgb(188, 63, 188),
                Rgb(17, 168, 205),
                Rgb(229, 229, 229),
                Rgb(102, 102, 102),
                Rgb(241, 76, 76),
                Rgb(35, 209, 139),
                Rgb(245, 245, 67),
                Rgb(59, 142, 234),
                Rgb(214, 112, 214),
                Rgb(41, 184, 219),
            ];
            palette(idx) == if idx < 15 {
                table[idx as int]
            } else {
                Rgb(255, 255, 255)
            }
        }),
{
}

/// A cell has the highlight that stands at its own row and column, and none outside
/// of what is given.
pub proof fn law_highlight_is_looked_up(colors: Seq<Seq<Option<Rgb>>>, row: int, col: int)
    ensures
        0 <= row < colors.len() && 0 <= col < colors[row].len() ==> highlight_at(colors, row, col)
            == colors[row][col],
        !(0 <= row < colors.len() && 0 <= col < colors[row].len()) ==> highlight_at(
            colors,
            row,
            col,
        ) is None,
{
}

} // verus!
