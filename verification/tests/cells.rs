use regex::Regex;
use twrap::cells::{
    apply_transforms_to_cells, place_cursor, screen_line_from_row, screen_lines, style_cell,
};
use twrap::model::{
    DisplayColor, OutputTransformKind, OutputTransformRule, StyledCell, TerminalState,
};

#[test]
fn screen_line_from_row_tracks_wide_character_columns() {
    let row = vec![
        StyledCell {
            text: "界".to_string(),
            fg: DisplayColor::Default,
            bg: DisplayColor::Default,
            bold: false,
            dim: false,
            italic: false,
            underline: false,
            inverse: false,
            wide_continuation: false,
        },
        StyledCell {
            text: String::new(),
            fg: DisplayColor::Default,
            bg: DisplayColor::Default,
            bold: false,
            dim: false,
            italic: false,
            underline: false,
            inverse: false,
            wide_continuation: true,
        },
        StyledCell {
            text: "B".to_string(),
            fg: DisplayColor::Default,
            bg: DisplayColor::Default,
            bold: false,
            dim: false,
            italic: false,
            underline: false,
            inverse: false,
            wide_continuation: false,
        },
    ];

    let line = screen_line_from_row(&row);
    assert_eq!(line.text, "界B");
    assert_eq!(line.char_spans, vec![(0, 2), (2, 3)]);
    assert_eq!(line.cell_count, 3);
}

fn cell(text: &str) -> StyledCell {
    let mut cell = StyledCell::blank();
    cell.text = text.to_string();
    cell
}

fn continuation() -> StyledCell {
    let mut cell = cell("");
    cell.wide_continuation = true;
    cell
}

fn rule(pattern: &str, kind: OutputTransformKind) -> OutputTransformRule {
    OutputTransformRule {
        regex: Regex::new(pattern).expect("regex should compile"),
        kind,
    }
}

fn texts(row: &[StyledCell]) -> Vec<&str> {
    row.iter().map(|cell| cell.text.as_str()).collect()
}

#[test]
fn blank_cells() {
    let blank = StyledCell::blank();
    assert_eq!(blank.text, " ");
    assert_eq!(blank.fg, DisplayColor::Default);
    assert_eq!(blank.bg, DisplayColor::Default);
    assert!(!blank.bold && !blank.inverse && !blank.wide_continuation);
    assert_eq!(style_cell(None), blank);
}

#[test]
fn empty_cells_hold_a_space() {
    let mut empty = cell("");
    empty.bold = true;
    let styled = style_cell(Some(empty));
    assert_eq!(styled.text, " ");
    assert!(styled.bold);
    assert_eq!(style_cell(Some(cell("x"))), cell("x"));
}

#[test]
fn spaces_at_the_end_of_a_line_do_not_count() {
    let lines = screen_lines(&[
        vec![cell("a"), cell(" "), cell("b"), cell(" "), cell(" ")],
        vec![cell(" "), cell(" ")],
        Vec::new(),
    ]);
    assert_eq!(lines[0].text, "a b");
    assert_eq!(lines[0].char_spans, vec![(0, 1), (1, 2), (2, 3)]);
    assert_eq!(lines[0].cell_count, 5);
    assert_eq!(lines[1].text, "");
    assert_eq!(lines[1].char_spans, vec![]);
    assert_eq!(lines[1].cell_count, 2);
    assert_eq!(lines[2].cell_count, 0);
}

#[test]
fn combining_characters_take_no_columns() {
    let line = screen_line_from_row(&[cell("e\u{301}"), cell("x")]);
    assert_eq!(line.text, "e\u{301}x");
    assert_eq!(line.char_spans, vec![(0, 1), (1, 1), (1, 2)]);
}

#[test]
fn characters_do_not_reach_beyond_their_cell() {
    let line = screen_line_from_row(&[cell("界"), cell("x")]);
    assert_eq!(line.char_spans, vec![(0, 1), (1, 2)]);
    assert_eq!(line.cell_count, 2);
}

#[test]
fn without_rules_cells_stay() {
    let mut cells = vec![vec![cell("界"), cell("xy")]];
    apply_transforms_to_cells(&mut cells, &[]);
    assert_eq!(texts(&cells[0]), vec!["界", "xy"]);
}

#[test]
fn rules_rewrite_visible_cells_only() {
    let mut cells = vec![
        vec![cell("界"), continuation(), cell("a"), cell("b")],
        vec![cell("n"), cell("o")],
    ];
    cells[0][2].bold = true;
    let rules = [rule("a", OutputTransformKind::Replace("Z".to_string()))];
    apply_transforms_to_cells(&mut cells, &rules);
    assert_eq!(texts(&cells[0]), vec!["界", "", "Z", "b"]);
    assert!(cells[0][1].wide_continuation);
    assert!(cells[0][2].bold);
    assert_eq!(texts(&cells[1]), vec!["n", "o"]);
}

#[test]
fn masks_cover_wide_cells() {
    let mut cells = vec![vec![cell("界"), continuation(), cell("x")]];
    apply_transforms_to_cells(&mut cells, &[rule("界", OutputTransformKind::Mask('*'))]);
    assert_eq!(texts(&cells[0]), vec!["**", "", "x"]);
}

#[test]
fn the_cursor_stays_on_the_screen() {
    assert_eq!(
        place_cursor((5, 80), true, 24, 80),
        TerminalState {
            cursor_row: 5,
            cursor_col: 79,
            cursor_visible: false,
        }
    );
    assert_eq!(
        place_cursor((30, 3), false, 24, 80),
        TerminalState {
            cursor_row: 23,
            cursor_col: 3,
            cursor_visible: true,
        }
    );
    assert_eq!(place_cursor((1, 1), false, 0, 0).cursor_row, 0);
}

#[test]
fn rows_without_matches_stay() {
    let row = vec![cell("\u{301}e"), cell("界"), continuation(), cell("**"), continuation()];
    let mut cells = vec![row.clone()];
    apply_transforms_to_cells(&mut cells, &[rule("zzz", OutputTransformKind::Mask('#'))]);
    assert_eq!(cells[0], row);
}

#[test]
fn a_combining_character_behind_its_cell_moves_on() {
    let mut cells = vec![vec![cell("e\u{301}"), cell("x")]];
    apply_transforms_to_cells(&mut cells, &[rule("zzz", OutputTransformKind::Mask('#'))]);
    assert_eq!(texts(&cells[0]), vec!["e", "\u{301}x"]);
}
