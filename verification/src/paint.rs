//! What a terminal shows of the text that is sent to it: the escape sequences that
//! select colours and styles are obeyed, and everything else is shown.
use crate::cells::row_text;
use crate::draw::{
    cell_style, color_code, drawn_cell, drawn_colors, drawn_row, drawn_rows, drawn_screen,
    flashed_rows, only_if, style_code, DrawStyle,
};
use crate::model::{CellView, DisplayColor, Rgb};
use crate::svg::highlight_at;
use crate::text::{
    decimal, find_char, law_decimal_reads_back, lemma_find_char, lemma_find_char_bounds,
    lemma_joining_associates, number,
};
use vstd::prelude::*;

verus! {

/// How a terminal draws.
pub struct Pen {
    pub fg: DisplayColor,
    pub bg: DisplayColor,
    pub bold: bool,
    pub dim: bool,
    pub italic: bool,
    pub underline: bool,
}

/// How a terminal draws after a reset.
pub open spec fn plain_pen() -> Pen {
    Pen {
        fg: DisplayColor::Default,
        bg: DisplayColor::Default,
        bold: false,
        dim: false,
        italic: false,
        underline: false,
    }
}

/// The numbers in a list with semicolons between them.
pub open spec fn numbers(list: Seq<char>) -> Seq<nat>
    decreases list.len(),
    via numbers_shrink
{
    let k = find_char(list, ';');
    if k >= list.len() {
        seq![number(list)]
    } else {
        seq![number(list.take(k))] + numbers(list.skip(k + 1))
    }
}

#[via_fn]
proof fn numbers_shrink(list: Seq<char>) {
    lemma_find_char_bounds(list, ';');
}

/// How a terminal draws after it was told to select these renditions.
pub open spec fn selected(pen: Pen, codes: Seq<nat>) -> Pen {
    if codes.len() == 1 && codes[0] == 0 {
        plain_pen()
    } else if codes.len() == 1 && codes[0] == 1 {
        Pen { bold: true, ..pen }
    } else if codes.len() == 1 && codes[0] == 2 {
        Pen { dim: true, ..pen }
    } else if codes.len() == 1 && codes[0] == 3 {
        Pen { italic: true, ..pen }
    } else if codes.len() == 1 && codes[0] == 4 {
        Pen { underline: true, ..pen }
    } else if codes.len() == 1 && codes[0] == 39 {
        Pen { fg: DisplayColor::Default, ..pen }
    } else if codes.len() == 1 && codes[0] == 49 {
        Pen { bg: DisplayColor::Default, ..pen }
    } else if codes.len() == 3 && codes[0] == 38 && codes[1] == 5 {
        Pen { fg: DisplayColor::Indexed(codes[2] as u8), ..pen }
    } else if codes.len() == 3 && codes[0] == 48 && codes[1] == 5 {
        Pen { bg: DisplayColor::Indexed(codes[2] as u8), ..pen }
    } else if codes.len() == 5 && codes[0] == 38 && codes[1] == 2 {
        Pen {
            fg: DisplayColor::Rgb(Rgb(codes[2] as u8, codes[3] as u8, codes[4] as u8)),
            ..pen
        }
    } else if codes.len() == 5 && codes[0] == 48 && codes[1] == 2 {
        Pen {
            bg: DisplayColor::Rgb(Rgb(codes[2] as u8, codes[3] as u8, codes[4] as u8)),
            ..pen
        }
    } else {
        pen
    }
}

/// What a terminal that draws with `pen` shows of a text: its characters, each with
/// how it is drawn. Line breaks move the cursor and are drawn in no way.
pub open spec fn interpreted(text: Seq<char>, pen: Pen) -> Seq<(char, Option<Pen>)>
    decreases text.len(),
    via interpreted_shrinks
{
    if text.len() == 0 {
        Seq::empty()
    } else if text[0] == '\u{1b}' && text.len() > 1 && text[1] == '[' {
        let rest = text.skip(2);
        let k = find_char(rest, 'm');
        if k >= rest.len() {
            Seq::empty()
        } else {
            interpreted(rest.skip(k + 1), selected(pen, numbers(rest.take(k))))
        }
    } else {
        let how = if text[0] == '\r' || text[0] == '\n' {
            None
        } else {
            Some(pen)
        };
        seq![(text[0], how)] + interpreted(text.drop_first(), pen)
    }
}

#[via_fn]
proof fn interpreted_shrinks(text: Seq<char>, pen: Pen) {
    if text.len() > 1 {
        lemma_find_char_bounds(text.skip(2), 'm');
    }
}

/// A text that is shown as it stands.
pub open spec fn printable(text: Seq<char>) -> bool {
    forall|i: int|
        0 <= i < text.len() ==> (#[trigger] text[i]) != '\u{1b}' && text[i] != '\r' && text[i]
            != '\n'
}

/// The characters of a text, drawn with a pen.
pub open spec fn glyphs(text: Seq<char>, pen: Pen) -> Seq<(char, Option<Pen>)>
    decreases text.len(),
{
    if text.len() == 0 {
        Seq::empty()
    } else {
        seq![(text[0], Some(pen))] + glyphs(text.drop_first(), pen)
    }
}

/// How a cell looks: in its own colours and styles, with the highlight in the place
/// of its background, and with its colours exchanged where it is inverse.
pub open spec fn cell_pen(cell: CellView, highlight: Option<Rgb>) -> Pen {
    let behind = if highlight is Some {
        DisplayColor::Rgb(highlight->Some_0)
    } else {
        cell.bg
    };
    Pen {
        fg: if cell.inverse {
            behind
        } else {
            cell.fg
        },
        bg: if cell.inverse {
            cell.fg
        } else {
            behind
        },
        bold: cell.bold,
        dim: cell.dim,
        italic: cell.italic,
        underline: cell.underline,
    }
}

/// The first `n` cells of a row as they look; continuations show nothing.
pub open spec fn painted_row(
    row: Seq<CellView>,
    colors: Seq<Seq<Option<Rgb>>>,
    y: int,
    n: int,
) -> Seq<(char, Option<Pen>)>
    decreases n,
{
    if n <= 0 {
        Seq::empty()
    } else if row[n - 1].wide_continuation {
        painted_row(row, colors, y, n - 1)
    } else {
        painted_row(row, colors, y, n - 1) + glyphs(
            row[n - 1].text,
            cell_pen(row[n - 1], highlight_at(colors, y, n - 1)),
        )
    }
}

/// The first `n` rows of a screen as they look, with a new line before each but the
/// first.
pub open spec fn painted(
    rows: Seq<Seq<CellView>>,
    colors: Seq<Seq<Option<Rgb>>>,
    n: int,
) -> Seq<(char, Option<Pen>)>
    decreases n,
{
    if n <= 0 {
        Seq::empty()
    } else {
        painted(rows, colors, n - 1) + painted_row(
            rows[n - 1],
            colors,
            n - 1,
            rows[n - 1].len() as int,
        ) + if n < rows.len() {
            seq![('\r', None), ('\n', None)]
        } else {
            Seq::empty()
        }
    }
}

/// Whether the texts of all visible cells of a row are shown as they stand.
pub open spec fn printable_row(row: Seq<CellView>) -> bool {
    forall|i: int|
        0 <= i < row.len() && !(#[trigger] row[i]).wide_continuation ==> printable(row[i].text)
}

/// Whether the style that is kept track of, where it is known, is how the terminal
/// draws.
pub open spec fn tracks(style: DrawStyle, pen: Pen) -> bool {
    style.fg is Some && style.bg is Some ==> pen == (Pen {
        fg: style.fg->Some_0,
        bg: style.bg->Some_0,
        bold: style.bold,
        dim: style.dim,
        italic: style.italic,
        underline: style.underline,
    })
}

/// `code` is the escape sequence with this list of numbers.
pub open spec fn is_code(code: Seq<char>, list: Seq<char>) -> bool {
    code == seq!['\u{1b}', '['] + list + seq!['m'] && !list.contains('m')
}

proof fn lemma_code_is_obeyed(code: Seq<char>, list: Seq<char>, rest: Seq<char>, pen: Pen)
    requires
        is_code(code, list),
    ensures
        interpreted(code + rest, pen) == interpreted(rest, selected(pen, numbers(list))),
{
    let text = code + rest;
    let tail = text.skip(2);
    assert(tail == list + seq!['m'] + rest);
    assert forall|i: int| 0 <= i < list.len() implies tail[i] != 'm' by {
        assert(list.contains(list[i]));
    }
    lemma_find_char(tail, 'm', list.len() as int);
    assert(tail.take(list.len() as int) == list);
    assert(tail.skip(list.len() as int + 1) == rest);
}

proof fn lemma_text_is_shown(text: Seq<char>, rest: Seq<char>, pen: Pen)
    requires
        printable(text),
    ensures
        interpreted(text + rest, pen) == glyphs(text, pen) + interpreted(rest, pen),
    decreases text.len(),
{
    if text.len() == 0 {
        assert(text + rest == rest);
        assert(glyphs(text, pen) + interpreted(rest, pen) == interpreted(rest, pen));
    } else {
        let less = text.drop_first();
        assert(printable(less)) by {
            assert forall|i: int| 0 <= i < less.len() implies (#[trigger] less[i]) != '\u{1b}'
                && less[i] != '\r' && less[i] != '\n' by {
                assert(less[i] == text[i + 1]);
            }
        }
        lemma_text_is_shown(less, rest, pen);
        assert((text + rest).drop_first() == less + rest);
        assert(text[0] != '\u{1b}');
        let first = (text[0], Some(pen));
        assert((text + rest)[0] == text[0]);
        assert(interpreted(text + rest, pen) == seq![first] + interpreted(less + rest, pen));
        assert(glyphs(text, pen) == seq![first] + glyphs(less, pen));
        assert(glyphs(text, pen) + interpreted(rest, pen) == interpreted(text + rest, pen)) by {
            broadcast use lemma_joining_associates;

        }
    }
}

proof fn lemma_first_number(a: Seq<char>, rest: Seq<char>)
    requires
        !a.contains(';'),
    ensures
        numbers(a + seq![';'] + rest) == seq![number(a)] + numbers(rest),
        numbers(a) == seq![number(a)],
{
    let list = a + seq![';'] + rest;
    assert forall|i: int| 0 <= i < a.len() implies a[i] != ';' && list[i] != ';' by {
        assert(a.contains(a[i]));
    }
    lemma_find_char(list, ';', a.len() as int);
    lemma_find_char(a, ';', a.len() as int);
    assert(list.take(a.len() as int) == a);
    assert(list.skip(a.len() as int + 1) == rest);
}

proof fn lemma_decimal_chars(n: nat)
    ensures
        !decimal(n).contains(';'),
        !decimal(n).contains('m'),
        number(decimal(n)) == n,
{
    law_decimal_reads_back(n);
}

proof fn lemma_two_digits(a: char, b: char)
    requires
        '0' <= a <= '9',
        '0' <= b <= '9',
    ensures
        number(seq![a, b]) == (a as int - '0' as int) * 10 + (b as int - '0' as int),
        number(seq![a]) == a as int - '0' as int,
        !seq![a, b].contains(';'),
        !seq![a].contains(';'),
{
    reveal_with_fuel(number, 3);
    assert(seq![a, b].drop_last() == seq![a]);
    assert(seq![a].drop_last() == Seq::<char>::empty());
    assert(seq![a, b].last() == b);
    assert(seq![a].last() == a);
}

proof fn lemma_numbers_of_one(a: Seq<char>)
    requires
        !a.contains(';'),
    ensures
        numbers(a) == seq![number(a)],
{
    lemma_first_number(a, Seq::empty());
}

/// Turns the foreground or the background of a pen into a colour.
pub open spec fn colored(pen: Pen, color: DisplayColor, foreground: bool) -> Pen {
    if foreground {
        Pen { fg: color, ..pen }
    } else {
        Pen { bg: color, ..pen }
    }
}

proof fn lemma_default_code(foreground: bool) -> (list: Seq<char>)
    ensures
        is_code(color_code(DisplayColor::Default, foreground), list),
        numbers(list) == seq![if foreground { 39nat } else { 49nat }],
{
    reveal_strlit("\u{1b}[39m");
    reveal_strlit("\u{1b}[49m");
    let a = if foreground {
        '3'
    } else {
        '4'
    };
    let list = seq![a, '9'];
    lemma_two_digits(a, '9');
    lemma_numbers_of_one(list);
    assert(color_code(DisplayColor::Default, foreground) == seq!['\u{1b}', '['] + list + seq!['m']);
    list
}

proof fn lemma_indexed_code(idx: u8, foreground: bool) -> (list: Seq<char>)
    ensures
        is_code(color_code(DisplayColor::Indexed(idx), foreground), list),
        numbers(list) == seq![if foreground { 38nat } else { 48nat }, 5nat, idx as nat],
{
    reveal_strlit("\u{1b}[38;5;");
    reveal_strlit("\u{1b}[48;5;");
    reveal_strlit("m");
    let a = if foreground {
        '3'
    } else {
        '4'
    };
    let n = decimal(idx as nat);
    let tail = seq!['5'] + seq![';'] + n;
    let list = seq![a, '8'] + seq![';'] + tail;
    lemma_two_digits(a, '8');
    lemma_two_digits('5', '5');
    lemma_decimal_chars(idx as nat);
    lemma_numbers_of_one(n);
    lemma_first_number(seq!['5'], n);
    lemma_first_number(seq![a, '8'], tail);
    assert(color_code(DisplayColor::Indexed(idx), foreground) == seq!['\u{1b}', '['] + list + seq![
        'm',
    ]);
    assert(!list.contains('m')) by {
        assert forall|i: int| 0 <= i < list.len() implies list[i] != 'm' by {
            if i >= 5 {
                assert(list[i] == n[i - 5]);
                assert(n.contains(n[i - 5]));
            }
        }
    }
    assert(numbers(list) == seq![if foreground { 38nat } else { 48nat }] + (seq![5nat] + seq![
        idx as nat,
    ]));
    list
}

proof fn lemma_rgb_code(rgb: Rgb, foreground: bool) -> (list: Seq<char>)
    ensures
        is_code(color_code(DisplayColor::Rgb(rgb), foreground), list),
        numbers(list) == seq![
            if foreground { 38nat } else { 48nat },
            2nat,
            rgb.0 as nat,
            rgb.1 as nat,
            rgb.2 as nat,
        ],
{
    reveal_strlit("\u{1b}[38;2;");
    reveal_strlit("\u{1b}[48;2;");
    reveal_strlit(";");
    reveal_strlit("m");
    let a = if foreground {
        '3'
    } else {
        '4'
    };
    let red = decimal(rgb.0 as nat);
    let green = decimal(rgb.1 as nat);
    let blue = decimal(rgb.2 as nat);
    let from_green = green + seq![';'] + blue;
    let from_red = red + seq![';'] + from_green;
    let tail = seq!['2'] + seq![';'] + from_red;
    let list = seq![a, '8'] + seq![';'] + tail;
    lemma_two_digits(a, '8');
    lemma_two_digits('2', '2');
    lemma_decimal_chars(rgb.0 as nat);
    lemma_decimal_chars(rgb.1 as nat);
    lemma_decimal_chars(rgb.2 as nat);
    lemma_numbers_of_one(blue);
    lemma_first_number(green, blue);
    lemma_first_number(red, from_green);
    lemma_first_number(seq!['2'], from_red);
    lemma_first_number(seq![a, '8'], tail);
    assert(color_code(DisplayColor::Rgb(rgb), foreground) == seq!['\u{1b}', '['] + list + seq![
        'm',
    ]) by {
        broadcast use lemma_joining_associates;

        let head = seq!['\u{1b}', '['] + (seq![a, '8'] + (seq![';'] + (seq!['2'] + seq![';'])));
        if foreground {
            assert("\u{1b}[38;2;"@ == head);
        } else {
            assert("\u{1b}[48;2;"@ == head);
        }
        assert(";"@ == seq![';']);
        assert("m"@ == seq!['m']);
    }
    lemma_no_m(green, seq![';'], blue);
    lemma_no_m(red, seq![';'], from_green);
    lemma_no_m(seq!['2'], seq![';'], from_red);
    lemma_no_m(seq![a, '8'], seq![';'], tail);
    assert(numbers(list) == seq![if foreground { 38nat } else { 48nat }] + (seq![2nat] + (seq![
        rgb.0 as nat,
    ] + (seq![rgb.1 as nat] + seq![rgb.2 as nat]))));
    list
}

proof fn lemma_no_m(a: Seq<char>, b: Seq<char>, c: Seq<char>)
    requires
        !a.contains('m'),
        !b.contains('m'),
        !c.contains('m'),
    ensures
        !(a + b + c).contains('m'),
{
    let all = a + b + c;
    assert forall|i: int| 0 <= i < all.len() implies all[i] != 'm' by {
        if i < a.len() {
            assert(a.contains(a[i]));
        } else if i < a.len() + b.len() {
            assert(b.contains(b[i - a.len()]));
        } else {
            assert(c.contains(c[i - a.len() - b.len()]));
        }
    }
}

/// The escape sequence for a colour makes a terminal draw in that colour and
/// changes nothing else.
pub proof fn law_color_is_selected(
    color: DisplayColor,
    foreground: bool,
    rest: Seq<char>,
    pen: Pen,
)
    ensures
        interpreted(color_code(color, foreground) + rest, pen) == interpreted(
            rest,
            colored(pen, color, foreground),
        ),
{
    let list = match color {
        DisplayColor::Default => lemma_default_code(foreground),
        DisplayColor::Indexed(idx) => lemma_indexed_code(idx, foreground),
        DisplayColor::Rgb(rgb) => lemma_rgb_code(rgb, foreground),
    };
    lemma_code_is_obeyed(color_code(color, foreground), list, rest, pen);
    assert(selected(pen, numbers(list)) == colored(pen, color, foreground));
}

proof fn lemma_short_code(digit: char, rest: Seq<char>, pen: Pen)
    requires
        '0' <= digit <= '9',
    ensures
        interpreted(seq!['\u{1b}', '[', digit, 'm'] + rest, pen) == interpreted(
            rest,
            selected(pen, seq![(digit as int - '0' as int) as nat]),
        ),
{
    let list = seq![digit];
    lemma_two_digits(digit, digit);
    lemma_numbers_of_one(list);
    let code = seq!['\u{1b}', '[', digit, 'm'];
    assert(code == seq!['\u{1b}', '['] + list + seq!['m']);
    lemma_code_is_obeyed(code, list, rest, pen);
}

proof fn lemma_attribute(wanted: bool, digit: char, rest: Seq<char>, pen: Pen)
    requires
        '0' <= digit <= '9',
    ensures
        interpreted(only_if(wanted, seq!['\u{1b}', '[', digit, 'm']) + rest, pen) == interpreted(
            rest,
            if wanted {
                selected(pen, seq![(digit as int - '0' as int) as nat])
            } else {
                pen
            },
        ),
{
    if wanted {
        lemma_short_code(digit, rest, pen);
    } else {
        assert(only_if(wanted, seq!['\u{1b}', '[', digit, 'm']) + rest == rest);
    }
}

proof fn lemma_attribute_codes()
    ensures
        "\u{1b}[0m"@ == seq!['\u{1b}', '[', '0', 'm'],
        "\u{1b}[1m"@ == seq!['\u{1b}', '[', '1', 'm'],
        "\u{1b}[2m"@ == seq!['\u{1b}', '[', '2', 'm'],
        "\u{1b}[3m"@ == seq!['\u{1b}', '[', '3', 'm'],
        "\u{1b}[4m"@ == seq!['\u{1b}', '[', '4', 'm'],
{
    reveal_strlit("\u{1b}[0m");
    reveal_strlit("\u{1b}[1m");
    reveal_strlit("\u{1b}[2m");
    reveal_strlit("\u{1b}[3m");
    reveal_strlit("\u{1b}[4m");
}

proof fn lemma_reset(rest: Seq<char>, pen: Pen)
    ensures
        interpreted("\u{1b}[0m"@ + rest, pen) == interpreted(rest, plain_pen()),
{
    lemma_attribute_codes();
    lemma_short_code('0', rest, pen);
}

/// The escape sequences for the style of a cell make a terminal draw as the cell
/// looks, however it drew before.
pub proof fn law_style_is_selected(
    cell: CellView,
    highlight: Option<Rgb>,
    rest: Seq<char>,
    pen: Pen,
)
    ensures
        interpreted(style_code(cell, highlight) + rest, pen) == interpreted(
            rest,
            cell_pen(cell, highlight),
        ),
{
    lemma_attribute_codes();
    let (fg, bg) = drawn_colors(cell, highlight);
    let underline = only_if(cell.underline, "\u{1b}[4m"@);
    let italic = only_if(cell.italic, "\u{1b}[3m"@);
    let dim = only_if(cell.dim, "\u{1b}[2m"@);
    let bold = only_if(cell.bold, "\u{1b}[1m"@);
    let r4 = underline + rest;
    let r3 = italic + r4;
    let r2 = dim + r3;
    let r1 = bold + r2;
    let rb = color_code(bg, false) + r1;
    let rf = color_code(fg, true) + rb;
    assert(style_code(cell, highlight) + rest == "\u{1b}[0m"@ + rf) by {
        broadcast use lemma_joining_associates;

    }
    lemma_reset(rf, pen);
    let p0 = plain_pen();
    law_color_is_selected(fg, true, rb, p0);
    let p1 = colored(p0, fg, true);
    law_color_is_selected(bg, false, r1, p1);
    let p2 = colored(p1, bg, false);
    lemma_attribute(cell.bold, '1', r2, p2);
    let p3 = Pen { bold: cell.bold, ..p2 };
    assert(p3 == if cell.bold {
        selected(p2, seq![1nat])
    } else {
        p2
    });
    lemma_attribute(cell.dim, '2', r3, p3);
    let p4 = Pen { dim: cell.dim, ..p3 };
    assert(p4 == if cell.dim {
        selected(p3, seq![2nat])
    } else {
        p3
    });
    lemma_attribute(cell.italic, '3', r4, p4);
    let p5 = Pen { italic: cell.italic, ..p4 };
    assert(p5 == if cell.italic {
        selected(p4, seq![3nat])
    } else {
        p4
    });
    lemma_attribute(cell.underline, '4', rest, p5);
    let p6 = Pen { underline: cell.underline, ..p5 };
    assert(p6 == if cell.underline {
        selected(p5, seq![4nat])
    } else {
        p5
    });
    assert(p6 == cell_pen(cell, highlight));
}

/// A cell is shown in its own colours and styles, whatever was drawn before it, as
/// long as the style that was kept track of is how the terminal draws; and that
/// holds again after it.
pub proof fn law_cell_is_shown_as_it_looks(
    cell: CellView,
    highlight: Option<Rgb>,
    style: DrawStyle,
    rest: Seq<char>,
    pen: Pen,
)
    requires
        printable(cell.text),
        tracks(style, pen),
    ensures
        interpreted(drawn_cell(cell, highlight, style) + rest, pen) == glyphs(
            cell.text,
            cell_pen(cell, highlight),
        ) + interpreted(rest, cell_pen(cell, highlight)),
        tracks(cell_style(cell, highlight), cell_pen(cell, highlight)),
{
    let own = cell_pen(cell, highlight);
    let (fg, bg) = drawn_colors(cell, highlight);
    assert(cell_style(cell, highlight).fg == Some(fg));
    assert(tracks(cell_style(cell, highlight), own));
    let code = only_if(style != cell_style(cell, highlight), style_code(cell, highlight));
    assert(drawn_cell(cell, highlight, style) + rest == code + (cell.text + rest));
    if style != cell_style(cell, highlight) {
        law_style_is_selected(cell, highlight, cell.text + rest, pen);
    } else {
        assert(code + (cell.text + rest) == cell.text + rest);
        assert(pen == own);
    }
    lemma_text_is_shown(cell.text, rest, own);
}

/// A cell whose style differs in any way from the one that the terminal draws in
/// is sent with its whole style; any other is sent as its text alone.
pub proof fn law_any_change_of_style_is_sent(
    cell: CellView,
    highlight: Option<Rgb>,
    style: DrawStyle,
)
    ensures
        style != cell_style(cell, highlight) ==> drawn_cell(cell, highlight, style) == style_code(
            cell,
            highlight,
        ) + cell.text,
        style == cell_style(cell, highlight) ==> drawn_cell(cell, highlight, style) == cell.text,
        style == cell_style(cell, highlight) <==> tracks(
            style,
            cell_pen(cell, highlight),
        ) && style.fg is Some && style.bg is Some,
{
    assert(Seq::<char>::empty() + cell.text == cell.text);
}

proof fn lemma_row_is_shown(
    row: Seq<CellView>,
    colors: Seq<Seq<Option<Rgb>>>,
    y: int,
    n: int,
    style: DrawStyle,
    rest: Seq<char>,
    pen: Pen,
) -> (after: Pen)
    requires
        0 <= n <= row.len(),
        printable_row(row),
        tracks(style, pen),
    ensures
        interpreted(drawn_row(row, colors, y, n, style).0 + rest, pen) == painted_row(
            row,
            colors,
            y,
            n,
        ) + interpreted(rest, after),
        tracks(drawn_row(row, colors, y, n, style).1, after),
    decreases n,
{
    if n <= 0 {
        assert(Seq::<char>::empty() + rest == rest);
        assert(Seq::<(char, Option<Pen>)>::empty() + interpreted(rest, pen) == interpreted(rest, pen));
        pen
    } else {
        let (text, now) = drawn_row(row, colors, y, n - 1, style);
        let cell = row[n - 1];
        if cell.wide_continuation {
            lemma_row_is_shown(row, colors, y, n - 1, style, rest, pen)
        } else {
            let highlight = highlight_at(colors, y, n - 1);
            let own = drawn_cell(cell, highlight, now);
            let between = lemma_row_is_shown(row, colors, y, n - 1, style, own + rest, pen);
            assert((text + own) + rest == text + (own + rest));
            law_cell_is_shown_as_it_looks(cell, highlight, now, rest, between);
            let after = cell_pen(cell, highlight);
            assert(painted_row(row, colors, y, n - 1) + (glyphs(cell.text, after) + interpreted(
                rest,
                after,
            )) == painted_row(row, colors, y, n) + interpreted(rest, after));
            after
        }
    }
}

proof fn lemma_break_is_shown(rest: Seq<char>, pen: Pen)
    ensures
        interpreted("\r\n"@ + rest, pen) == seq![('\r', None), ('\n', None)]
            + interpreted(rest, pen),
{
    reveal_strlit("\r\n");
    let text = "\r\n"@ + rest;
    let less = text.drop_first();
    assert(less[0] == '\n');
    assert(less.drop_first() == rest);
    assert(interpreted(less, pen) == seq![('\n', None)] + interpreted(rest, pen));
    assert(seq![('\r', None)] + (seq![('\n', None)] + interpreted(rest, pen)) == seq![
        ('\r', None),
        ('\n', None),
    ] + interpreted(rest, pen));
}

proof fn lemma_rows_are_shown(
    rows: Seq<Seq<CellView>>,
    colors: Seq<Seq<Option<Rgb>>>,
    n: int,
    rest: Seq<char>,
    pen: Pen,
) -> (after: Pen)
    requires
        0 <= n <= rows.len(),
        forall|y: int| 0 <= y < rows.len() ==> printable_row(#[trigger] rows[y]),
    ensures
        interpreted(drawn_rows(rows, colors, n).0 + rest, pen) == painted(rows, colors, n)
            + interpreted(rest, after),
        tracks(drawn_rows(rows, colors, n).1, after),
    decreases n,
{
    if n <= 0 {
        assert(Seq::<char>::empty() + rest == rest);
        assert(Seq::<(char, Option<Pen>)>::empty() + interpreted(rest, pen) == interpreted(rest, pen));
        pen
    } else {
        let (text, style) = drawn_rows(rows, colors, n - 1);
        let row = rows[n - 1];
        let (own, _) = drawn_row(row, colors, n - 1, row.len() as int, style);
        let end = only_if(n < rows.len(), "\r\n"@);
        let breaks = if n < rows.len() {
            seq![('\r', None), ('\n', None)]
        } else {
            Seq::empty()
        };
        assert((text + own + end) + rest == text + (own + (end + rest))) by {
            broadcast use lemma_joining_associates;

        }
        let between = lemma_rows_are_shown(rows, colors, n - 1, own + (end + rest), pen);
        let after = lemma_row_is_shown(
            row,
            colors,
            n - 1,
            row.len() as int,
            style,
            end + rest,
            between,
        );
        if n < rows.len() {
            lemma_break_is_shown(rest, after);
        } else {
            assert(end + rest == rest);
            assert(breaks + interpreted(rest, after) == interpreted(rest, after));
        }
        let shown = painted_row(row, colors, n - 1, row.len() as int);
        assert(painted(rows, colors, n - 1) + (shown + (breaks + interpreted(rest, after)))
            == painted(rows, colors, n) + interpreted(rest, after)) by {
            broadcast use lemma_joining_associates;

        }
        after
    }
}

/// What is sent for a screen shows every visible cell of it, row by row, in exactly
/// its own colours and styles, and leaves the terminal as after a reset.
pub proof fn law_screen_is_shown_as_it_looks(
    rows: Seq<Seq<CellView>>,
    colors: Seq<Seq<Option<Rgb>>>,
    rest: Seq<char>,
    pen: Pen,
)
    requires
        forall|y: int| 0 <= y < rows.len() ==> printable_row(#[trigger] rows[y]),
    ensures
        interpreted(drawn_screen(rows, colors) + rest, pen) == painted(
            rows,
            colors,
            rows.len() as int,
        ) + interpreted(rest, plain_pen()),
{
    let text = drawn_rows(rows, colors, rows.len() as int).0;
    assert(drawn_screen(rows, colors) + rest == text + ("\u{1b}[0m"@ + rest));
    let after = lemma_rows_are_shown(
        rows,
        colors,
        rows.len() as int,
        "\u{1b}[0m"@ + rest,
        pen,
    );
    lemma_reset(rest, after);
}

/// How a terminal draws during a flash.
pub open spec fn flash_pen() -> Pen {
    Pen {
        fg: DisplayColor::Rgb(Rgb(16, 16, 16)),
        bg: DisplayColor::Rgb(Rgb(245, 245, 245)),
        ..plain_pen()
    }
}

/// The texts of the visible cells among the first `n` of a row, in the colours of a
/// flash.
pub open spec fn flash_painted_row(row: Seq<CellView>, n: int) -> Seq<(char, Option<Pen>)>
    decreases n,
{
    if n <= 0 {
        Seq::empty()
    } else if row[n - 1].wide_continuation {
        flash_painted_row(row, n - 1)
    } else {
        flash_painted_row(row, n - 1) + glyphs(row[n - 1].text, flash_pen())
    }
}

/// The first `n` rows of a screen in the colours of a flash.
pub open spec fn flash_painted(rows: Seq<Seq<CellView>>, n: int) -> Seq<(char, Option<Pen>)>
    decreases n,
{
    if n <= 0 {
        Seq::empty()
    } else {
        flash_painted(rows, n - 1) + flash_painted_row(rows[n - 1], rows[n - 1].len() as int)
            + if n < rows.len() {
            seq![('\r', None), ('\n', None)]
        } else {
            Seq::empty()
        }
    }
}

proof fn lemma_flash_row(row: Seq<CellView>, n: int, rest: Seq<char>)
    requires
        0 <= n <= row.len(),
        printable_row(row),
    ensures
        interpreted(row_text(row, n) + rest, flash_pen()) == flash_painted_row(row, n)
            + interpreted(rest, flash_pen()),
    decreases n,
{
    broadcast use lemma_joining_associates;

    if n <= 0 {
        assert(row_text(row, n) + rest == rest);
        assert(flash_painted_row(row, n) + interpreted(rest, flash_pen()) == interpreted(
            rest,
            flash_pen(),
        ));
    } else if row[n - 1].wide_continuation {
        lemma_flash_row(row, n - 1, rest);
    } else {
        lemma_flash_row(row, n - 1, row[n - 1].text + rest);
        lemma_text_is_shown(row[n - 1].text, rest, flash_pen());
    }
}

proof fn lemma_flash_code(rest: Seq<char>)
    ensures
        interpreted("\u{1b}[38;2;16;16;16m\u{1b}[48;2;245;245;245m"@ + rest, plain_pen())
            == interpreted(rest, flash_pen()),
{
    reveal_strlit("\u{1b}[38;2;16;16;16m\u{1b}[48;2;245;245;245m");
    reveal_strlit("\u{1b}[38;2;");
    reveal_strlit("\u{1b}[48;2;");
    reveal_strlit(";");
    reveal_strlit("m");
    reveal_with_fuel(decimal, 4);
    let dark = Rgb(16, 16, 16);
    let light = Rgb(245, 245, 245);
    let fg = color_code(DisplayColor::Rgb(dark), true);
    let bg = color_code(DisplayColor::Rgb(light), false);
    assert(decimal(16) == seq!['1', '6']);
    assert(decimal(245) == seq!['2', '4', '5']);
    assert(fg == seq!['\u{1b}', '[', '3', '8', ';', '2', ';', '1', '6', ';', '1', '6', ';', '1', '6', 'm']);
    assert(bg == seq![
        '\u{1b}', '[', '4', '8', ';', '2', ';', '2', '4', '5', ';', '2', '4', '5', ';', '2', '4', '5',
        'm',
    ]);
    assert("\u{1b}[38;2;16;16;16m\u{1b}[48;2;245;245;245m"@ == fg + bg);
    assert((fg + bg) + rest == fg + (bg + rest));
    law_color_is_selected(DisplayColor::Rgb(dark), true, bg + rest, plain_pen());
    law_color_is_selected(
        DisplayColor::Rgb(light),
        false,
        rest,
        colored(plain_pen(), DisplayColor::Rgb(dark), true),
    );
}

/// A flash shows the text of every visible cell, row by row, dark on light.
pub proof fn law_flash_shows_every_cell(rows: Seq<Seq<CellView>>, n: int, rest: Seq<char>)
    requires
        0 <= n <= rows.len(),
        forall|y: int| 0 <= y < rows.len() ==> printable_row(#[trigger] rows[y]),
    ensures
        interpreted(flashed_rows(rows, n) + rest, plain_pen()) == flash_painted(rows, n)
            + interpreted(rest, plain_pen()),
    decreases n,
{
    if n <= 0 {
        assert(flashed_rows(rows, n) + rest == rest);
        assert(flash_painted(rows, n) + interpreted(rest, plain_pen()) == interpreted(
            rest,
            plain_pen(),
        ));
    } else {
        let row = rows[n - 1];
        let code = "\u{1b}[38;2;16;16;16m\u{1b}[48;2;245;245;245m"@;
        let own = row_text(row, row.len() as int);
        let end = only_if(n < rows.len(), "\r\n"@);
        let behind = "\u{1b}[0m"@ + (end + rest);
        assert(flashed_rows(rows, n) + rest == flashed_rows(rows, n - 1) + (code + (own + behind)))
            by {
            broadcast use lemma_joining_associates;

        }
        law_flash_shows_every_cell(rows, n - 1, code + (own + behind));
        lemma_flash_code(own + behind);
        lemma_flash_row(row, row.len() as int, behind);
        lemma_reset(end + rest, flash_pen());
        let breaks = if n < rows.len() {
            seq![('\r', None), ('\n', None)]
        } else {
            Seq::empty()
        };
        if n < rows.len() {
            lemma_break_is_shown(rest, plain_pen());
        } else {
            assert(end + rest == rest);
            assert(breaks + interpreted(rest, plain_pen()) == interpreted(rest, plain_pen()));
        }
        let shown = flash_painted_row(row, row.len() as int);
        let last = interpreted(rest, plain_pen());
        assert(flash_painted(rows, n) + last == flash_painted(rows, n - 1) + (shown + (breaks
            + last))) by {
            broadcast use lemma_joining_associates;

        }
    }
}

} // verus!
