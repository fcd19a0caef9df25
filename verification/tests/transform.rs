use regex::Regex;
use twrap::model::{OutputTransformKind, OutputTransformRule};
use twrap::transform::{
    char_columns, display_width, fit_to_width, replace_spans, split_cells_by_display_width,
    transform_line, width_preserving_text,
};
use unicode_width::UnicodeWidthStr;

fn replace_rule(pattern: &str, replacement: &str) -> OutputTransformRule {
    OutputTransformRule {
        regex: Regex::new(pattern).expect("regex should compile"),
        kind: OutputTransformKind::Replace(replacement.to_string()),
    }
}

fn mask_rule(pattern: &str, mask_char: char) -> OutputTransformRule {
    OutputTransformRule {
        regex: Regex::new(pattern).expect("regex should compile"),
        kind: OutputTransformKind::Mask(mask_char),
    }
}

#[test]
fn replace_rule_pads_to_match_width() {
    let out = transform_line("token=abcdef", &[replace_rule("abcdef", "ok")]);
    assert_eq!(out, "token=ok    ");
}

#[test]
fn replace_rule_truncates_to_match_width() {
    let out = transform_line("token=abc", &[replace_rule("abc", "REDACTED")]);
    assert_eq!(out, "token=RED");
}

#[test]
fn mask_rule_preserves_width() {
    let out = transform_line("secret-1234", &[mask_rule(r"1234", '*')]);
    assert_eq!(out, "secret-****");
}

#[test]
fn replace_rule_preserves_display_width_for_wide_text() {
    let out = transform_line("name=山田", &[replace_rule("山田", "AB")]);
    assert_eq!(out, "name=AB  ");
    assert_eq!(
        UnicodeWidthStr::width(out.as_str()),
        UnicodeWidthStr::width("name=山田")
    );
}

#[test]
fn replace_rule_keeps_wide_replacement_when_it_fits_display_width() {
    let out = transform_line("id=ab", &[replace_rule("ab", "界")]);
    assert_eq!(out, "id=界");
    assert_eq!(
        UnicodeWidthStr::width(out.as_str()),
        UnicodeWidthStr::width("id=ab")
    );
}

#[test]
fn split_cells_respects_display_width_boundaries() {
    let cells = split_cells_by_display_width("A界B", &[1, 2, 1]);
    assert_eq!(
        cells,
        vec!["A".to_string(), "界".to_string(), "B".to_string()]
    );
}

#[test]
fn rules_work_on_what_the_rules_before_left() {
    let rules = [replace_rule("abc", "xyz"), mask_rule("y", '#')];
    assert_eq!(transform_line("-abc-", &rules), "-x#z-");
    assert_eq!(transform_line("-abc-", &[]), "-abc-");
}

#[test]
fn empty_matches_change_nothing() {
    assert_eq!(transform_line("bab", &[replace_rule("a*", "-")]), "b-b");
}

#[test]
fn a_wide_character_that_does_not_fit_is_left_out() {
    assert_eq!(transform_line("x1y", &[replace_rule("1", "界")]), "x y");
    let fitted: String = fit_to_width("a界b", 2).into_iter().collect();
    assert_eq!(fitted, "a ");
}

#[test]
fn a_mask_has_one_character_for_each_column() {
    let kind = OutputTransformKind::Mask('*');
    let masked: String = width_preserving_text("山x", &kind).into_iter().collect();
    assert_eq!(masked, "***");
}

#[test]
fn given_ranges_are_replaced() {
    let kind = OutputTransformKind::Replace("Z".to_string());
    let out = replace_spans("aéb", &vec![(0, 0), (1, 3), (4, 4)], &kind);
    assert_eq!(out, "aZb");
}

#[test]
fn short_text_is_filled_up_with_spaces() {
    let cells = split_cells_by_display_width("A", &[1, 2, 1]);
    assert_eq!(
        cells,
        vec!["A".to_string(), "  ".to_string(), " ".to_string()]
    );
}

#[test]
fn a_character_that_is_too_wide_for_its_cell_is_dropped() {
    let cells = split_cells_by_display_width("界B", &[1, 1]);
    assert_eq!(cells, vec![" ".to_string(), "B".to_string()]);
}

#[test]
fn ideographs_take_two_columns() {
    for range in [
        '\u{3400}'..='\u{4dbf}',
        '\u{4e00}'..='\u{9fff}',
        '\u{f900}'..='\u{faff}',
        '\u{20000}'..='\u{2fffd}',
        '\u{30000}'..='\u{3fffd}',
    ] {
        for c in range.clone() {
            assert_eq!(char_columns(c), 2);
        }
        let all: String = range.collect();
        assert_eq!(display_width(&all), 2 * all.chars().count());
    }
    assert_eq!(char_columns('~'), 1);
    assert_eq!(char_columns('\n'), 0);
    assert_eq!(display_width("a山~田"), 6);
}

#[test]
fn lines_of_ascii_and_ideographs_keep_their_width() {
    let rules = [
        replace_rule("山.", "界x界"),
        mask_rule("[a-c]|田", '*'),
        replace_rule("x+", ""),
    ];
    for line in ["", "abc山田xx川", "山山山", "xa田bx", "~ 川~"] {
        let out = transform_line(line, &rules);
        assert_eq!(display_width(&out), display_width(line));
    }
}

#[test]
fn rules_can_be_applied_one_after_the_other() {
    let (first, second) = (replace_rule("ab", "cd"), mask_rule("d", '#'));
    let line = "xabdx";
    let parts = transform_line(
        &transform_line(line, &[replace_rule("ab", "cd")]),
        &[mask_rule("d", '#')],
    );
    assert_eq!(transform_line(line, &[first, second]), parts);
    assert_eq!(parts, "xc##x");
}
