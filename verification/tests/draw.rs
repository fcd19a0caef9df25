use twrap::draw::{DrawStyle, draw_screen, flash_screen, resolved_colors, write_cell, write_color};
use twrap::model::{DisplayColor, Rgb, StyledCell, TerminalState};
use twrap::svg::{
    display_bg_hex, display_color_hex, highlight_color, indexed_to_rgb, rgb_hex, screen_to_svg,
    svg_escape,
};

fn cell(text: &str) -> StyledCell {
    let mut cell = StyledCell::blank();
    cell.text = text.to_string();
    cell
}

fn continuation() -> StyledCell {
    let mut cell = cell("");
    cell.wide_continuation = true;
    cell
}

#[test]
fn colors_as_escape_sequences() {
    let code = |color: DisplayColor, foreground: bool| {
        let mut out = "x".to_string();
        write_color(&mut out, color, foreground);
        out
    };
    assert_eq!(code(DisplayColor::Default, true), "x\x1b[39m");
    assert_eq!(code(DisplayColor::Default, false), "x\x1b[49m");
    assert_eq!(code(DisplayColor::Indexed(200), true), "x\x1b[38;5;200m");
    assert_eq!(code(DisplayColor::Indexed(7), false), "x\x1b[48;5;7m");
    assert_eq!(
        code(DisplayColor::Rgb(Rgb(1, 20, 255)), true),
        "x\x1b[38;2;1;20;255m"
    );
    assert_eq!(
        code(DisplayColor::Rgb(Rgb(0, 0, 0)), false),
        "x\x1b[48;2;0;0;0m"
    );
}

#[test]
fn highlights_and_inverse_cells() {
    let mut shown = cell("x");
    shown.fg = DisplayColor::Indexed(1);
    shown.bg = DisplayColor::Indexed(2);
    let mark = Rgb(9, 9, 9);
    assert_eq!(
        resolved_colors(&shown, None),
        (DisplayColor::Indexed(1), DisplayColor::Indexed(2))
    );
    assert_eq!(
        resolved_colors(&shown, Some(mark)),
        (DisplayColor::Indexed(1), DisplayColor::Rgb(mark))
    );
    shown.inverse = true;
    assert_eq!(
        resolved_colors(&shown, Some(mark)),
        (DisplayColor::Rgb(mark), DisplayColor::Indexed(1))
    );
}

#[test]
fn styles_are_sent_when_they_change() {
    let mut out = String::new();
    let mut style = DrawStyle::default();
    write_cell(&mut out, &cell("a"), None, &mut style);
    write_cell(&mut out, &cell("b"), None, &mut style);
    let mut loud = cell("c");
    loud.bold = true;
    loud.dim = true;
    loud.italic = true;
    loud.underline = true;
    write_cell(&mut out, &loud, None, &mut style);
    assert_eq!(
        out,
        "\x1b[0m\x1b[39m\x1b[49mab\x1b[0m\x1b[39m\x1b[49m\x1b[1m\x1b[2m\x1b[3m\x1b[4mc"
    );
    assert!(style.bold && style.underline);
}

fn cursor(visible: bool) -> TerminalState {
    TerminalState {
        cursor_row: 1,
        cursor_col: 2,
        cursor_visible: visible,
    }
}

#[test]
fn screens_are_drawn_row_by_row() {
    let cells = vec![
        vec![cell("界"), continuation(), cell("x")],
        vec![cell("y")],
    ];
    let colors = vec![vec![None, None, Some(Rgb(1, 2, 3))]];
    let frame = draw_screen(&cells, &colors, &cursor(true));
    assert_eq!(
        frame.text,
        "\x1b[0m\x1b[39m\x1b[49m界\x1b[0m\x1b[39m\x1b[48;2;1;2;3mx\r\n\x1b[0m\x1b[39m\x1b[49my\x1b[0m"
    );
    assert_eq!(frame.cursor, Some((2, 1)));

    let frame = draw_screen(&[], &[], &cursor(false));
    assert_eq!(frame.text, "\x1b[0m");
    assert_eq!(frame.cursor, None);
}

#[test]
fn flashes_show_the_text_in_one_colour() {
    let cells = vec![
        vec![cell("界"), continuation(), cell("x")],
        vec![cell("y")],
    ];
    let colors = "\x1b[38;2;16;16;16m\x1b[48;2;245;245;245m";
    assert_eq!(
        flash_screen(&cells),
        format!("{colors}界x\x1b[0m\r\n{colors}y\x1b[0m")
    );
}

#[test]
fn palette_colors() {
    assert_eq!(indexed_to_rgb(0), Rgb(0, 0, 0));
    assert_eq!(indexed_to_rgb(1), Rgb(205, 49, 49));
    assert_eq!(indexed_to_rgb(8), Rgb(102, 102, 102));
    assert_eq!(indexed_to_rgb(14), Rgb(41, 184, 219));
    assert_eq!(indexed_to_rgb(15), Rgb(255, 255, 255));
    assert_eq!(indexed_to_rgb(255), Rgb(255, 255, 255));
    assert_eq!(rgb_hex(Rgb(0, 10, 255)), "#000aff");
    assert_eq!(display_color_hex(DisplayColor::Default), "#d0d0d0");
    assert_eq!(display_bg_hex(DisplayColor::Default), "#00000000");
    assert_eq!(display_color_hex(DisplayColor::Indexed(1)), "#cd3131");
    assert_eq!(display_bg_hex(DisplayColor::Rgb(Rgb(1, 2, 3))), "#010203");
}

#[test]
fn markup_is_escaped() {
    assert_eq!(svg_escape("<a&b>&lt;"), "&lt;a&amp;b&gt;&amp;lt;");
    assert_eq!(svg_escape("\"'"), "\"'");
    assert_eq!(
        svg_escape("a<b&c"),
        format!("{}{}", svg_escape("a<"), svg_escape("b&c"))
    );
}

#[test]
fn highlight_colors_are_looked_up() {
    let colors = vec![vec![None, Some(Rgb(1, 1, 1))]];
    assert_eq!(highlight_color(&colors, 0, 1), Some(Rgb(1, 1, 1)));
    assert_eq!(highlight_color(&colors, 0, 0), None);
    assert_eq!(highlight_color(&colors, 0, 2), None);
    assert_eq!(highlight_color(&colors, 1, 0), None);
}

#[test]
fn screenshots_show_cells_and_backgrounds() {
    let mut marked = cell("<");
    marked.fg = DisplayColor::Indexed(1);
    let mut black = cell("b");
    black.bg = DisplayColor::Indexed(0);
    let cells = vec![vec![cell("a"), marked], vec![black, continuation()]];
    let colors = vec![vec![None, Some(Rgb(255, 0, 0))]];
    let head = concat_head(18, 36);
    assert_eq!(
        screen_to_svg(&cells, Some(&colors)),
        format!(
            "{head}\
<text x=\"0\" y=\"0\" fill=\"#d0d0d0\">a</text>\
<rect x=\"9\" y=\"0\" width=\"9\" height=\"18\" fill=\"#ff0000\"/>\
<text x=\"9\" y=\"0\" fill=\"#cd3131\">&lt;</text>\
<text x=\"0\" y=\"18\" fill=\"#d0d0d0\">b</text>\
</g></svg>"
        )
    );
    let empty = concat_head(0, 0);
    assert_eq!(screen_to_svg(&[], None), format!("{empty}</g></svg>"));
}

fn concat_head(width: usize, height: usize) -> String {
    format!(
        "<svg xmlns=\"http://www.w3.org/2000/svg\" width=\"{width}\" height=\"{height}\" \
viewBox=\"0 0 {width} {height}\">\
<rect width=\"100%\" height=\"100%\" fill=\"#101010\"/>\
<g font-family=\"monospace\" font-size=\"14\" dominant-baseline=\"hanging\">"
    )
}
