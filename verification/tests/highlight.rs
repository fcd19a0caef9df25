use regex::Regex;
use std::collections::hash_map::DefaultHasher;
use std::hash::{Hash, Hasher};
use twrap::highlight::{
    HighlightTrigger, char_range_to_cell_range, evaluate_lines, evaluate_matches, fingerprint,
};
use twrap::model::{HighlightRule, Rgb, ScreenLine};
use twrap::trigger::{TriggerState, filter_new_triggers};

#[test]
fn evaluate_lines_marks_matching_ranges() {
    let rules = vec![HighlightRule {
        key: "error".to_string(),
        pattern: "error".to_string(),
        regex: Regex::new("error").expect("regex should compile"),
        color: Rgb(1, 2, 3),
        command: None,
        capture_tui_screenshot: false,
    }];

    let evaluation = evaluate_lines(
        &[ScreenLine {
            text: "an error happened".to_string(),
            char_spans: (0..17).map(|idx| (idx, idx + 1)).collect(),
            cell_count: 17,
        }],
        &rules,
    );
    assert_eq!(evaluation.triggers.len(), 1);
    assert_eq!(evaluation.colors[0][3], Some(Rgb(1, 2, 3)));
}

#[test]
fn evaluate_lines_marks_wide_char_matches_on_the_right_cells() {
    let rules = vec![HighlightRule {
        key: "warn".to_string(),
        pattern: "B".to_string(),
        regex: Regex::new("B").expect("regex should compile"),
        color: Rgb(9, 9, 9),
        command: None,
        capture_tui_screenshot: false,
    }];

    let evaluation = evaluate_lines(
        &[ScreenLine {
            text: "界B".to_string(),
            char_spans: vec![(0, 2), (2, 3)],
            cell_count: 3,
        }],
        &rules,
    );

    assert_eq!(evaluation.colors[0], vec![None, None, Some(Rgb(9, 9, 9))]);
}

fn rule(pattern: &str, color: Rgb) -> HighlightRule {
    HighlightRule {
        key: pattern.to_string(),
        pattern: pattern.to_string(),
        regex: Regex::new(pattern).expect("regex should compile"),
        color,
        command: Some(vec!["run".to_string()]),
        capture_tui_screenshot: true,
    }
}

fn line(text: &str) -> ScreenLine {
    let count = text.chars().count();
    ScreenLine {
        text: text.to_string(),
        char_spans: (0..count).map(|idx| (idx, idx + 1)).collect(),
        cell_count: count,
    }
}

#[test]
fn the_last_rule_decides_and_other_cells_stay_plain() {
    let (red, blue) = (Rgb(9, 0, 0), Rgb(0, 0, 9));
    let evaluation = evaluate_lines(&[line("xaby")], &[rule("ab", red), rule("b", blue)]);
    assert_eq!(
        evaluation.colors[0],
        vec![None, Some(red), Some(blue), None]
    );
}

#[test]
fn triggers_hold_the_matches_of_all_lines_in_order() {
    let evaluation = evaluate_lines(
        &[line("b1 b2"), line("-"), line("b3")],
        &[rule("b.", Rgb(1, 1, 1)), rule("q", Rgb(2, 2, 2))],
    );
    assert_eq!(evaluation.triggers.len(), 1);
    let trigger = &evaluation.triggers[0];
    assert_eq!(trigger.key, "b.");
    assert_eq!(trigger.pattern, "b.");
    assert_eq!(trigger.matched_texts, vec!["b1", "b2", "b3"]);
    assert_eq!(trigger.command, Some(vec!["run".to_string()]));
    assert!(trigger.capture_tui_screenshot);
    assert_eq!(
        trigger.fingerprint,
        fingerprint("b.", &trigger.matched_texts)
    );
}

#[test]
fn empty_matches_trigger_without_a_colour() {
    let evaluation = evaluate_lines(&[line("x")], &[rule("z*", Rgb(1, 1, 1))]);
    assert_eq!(evaluation.triggers[0].matched_texts, vec!["", ""]);
    assert_eq!(evaluation.colors[0], vec![None]);
}

#[test]
fn given_matches_are_evaluated() {
    let evaluation = evaluate_matches(
        &[line("aéb")],
        &[rule("é", Rgb(7, 7, 7))],
        &vec![vec![vec![(1, 3)]]],
    );
    assert_eq!(evaluation.colors[0], vec![None, Some(Rgb(7, 7, 7)), None]);
    assert_eq!(evaluation.triggers[0].matched_texts, vec!["é"]);
}

#[test]
fn columns_of_character_ranges() {
    let line = ScreenLine {
        text: "界B".to_string(),
        char_spans: vec![(0, 2), (2, 3)],
        cell_count: 3,
    };
    assert_eq!(char_range_to_cell_range(&line, 0, 2), Some((0, 3)));
    assert_eq!(char_range_to_cell_range(&line, 1, 2), Some((2, 3)));
    assert_eq!(char_range_to_cell_range(&line, 1, 1), None);
    assert_eq!(char_range_to_cell_range(&line, 1, 3), None);
    assert_eq!(char_range_to_cell_range(&line, 2, 3), None);
}

#[test]
fn fingerprints_tell_keys_and_matches_apart() {
    let one = ["a".to_string()];
    let other = ["b".to_string()];
    assert_eq!(fingerprint("k", &one), fingerprint("k", &one));
    assert_ne!(fingerprint("k", &one), fingerprint("k", &other));
    assert_ne!(fingerprint("k", &one), fingerprint("l", &one));
    assert_ne!(fingerprint("k", &one), fingerprint("k", &[]));
}

#[test]
fn fingerprints_are_those_of_the_standard_hasher() {
    let matches = vec!["x".to_string(), "yz".to_string()];
    let mut hasher = DefaultHasher::new();
    "key".hash(&mut hasher);
    for matched in &matches {
        matched.hash(&mut hasher);
    }
    assert_eq!(fingerprint("key", &matches), hasher.finish());
}

fn trigger(key: &str, fingerprint: u64) -> HighlightTrigger {
    HighlightTrigger {
        key: key.to_string(),
        pattern: key.to_string(),
        matched_texts: Vec::new(),
        command: None,
        capture_tui_screenshot: false,
        fingerprint,
    }
}

fn reported(triggers: &[HighlightTrigger]) -> Vec<(String, u64)> {
    triggers
        .iter()
        .map(|trigger| (trigger.key.clone(), trigger.fingerprint))
        .collect()
}

#[test]
fn only_changes_are_reported() {
    let mut state = TriggerState::default();
    let fresh = filter_new_triggers(&mut state, vec![trigger("a", 1), trigger("b", 2)]);
    assert_eq!(
        reported(&fresh),
        vec![("a".to_string(), 1), ("b".to_string(), 2)]
    );
    let fresh = filter_new_triggers(&mut state, vec![trigger("a", 1), trigger("b", 2)]);
    assert!(fresh.is_empty());
    let fresh = filter_new_triggers(&mut state, vec![trigger("a", 1), trigger("b", 3)]);
    assert_eq!(reported(&fresh), vec![("b".to_string(), 3)]);
    let fresh = filter_new_triggers(&mut state, vec![trigger("b", 2)]);
    assert_eq!(reported(&fresh), vec![("b".to_string(), 2)]);
}

#[test]
fn a_key_that_comes_and_goes_is_reported_once() {
    let mut state = TriggerState::default();
    assert_eq!(filter_new_triggers(&mut state, vec![trigger("a", 1)]).len(), 1);
    assert_eq!(filter_new_triggers(&mut state, Vec::new()).len(), 0);
    assert_eq!(filter_new_triggers(&mut state, vec![trigger("a", 1)]).len(), 0);
}

#[test]
fn an_unchanged_screen_reports_nothing() {
    let rules = [rule("b.", Rgb(1, 1, 1)), rule("b.", Rgb(2, 2, 2))];
    let lines = [line("b1"), line("b2")];
    let mut state = TriggerState::default();
    let first = filter_new_triggers(&mut state, evaluate_lines(&lines, &rules).triggers);
    assert_eq!(first.len(), 1);
    let again = filter_new_triggers(&mut state, evaluate_lines(&lines, &rules).triggers);
    assert!(again.is_empty());
}
