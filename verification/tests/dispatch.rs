use twrap::dispatch::{
    DispatchAction, DispatchEvent, dispatch_tui_triggers, expand_command_part, plan_command,
    takes_screenshot, trigger_manifest,
};
use twrap::highlight::HighlightTrigger;

fn trigger(key: &str, capture: bool, command: Option<&[&str]>) -> HighlightTrigger {
    HighlightTrigger {
        key: key.to_string(),
        pattern: format!("{key}+"),
        matched_texts: vec!["one".to_string(), "t\"wo".to_string()],
        command: command.map(|words| words.iter().map(|word| word.to_string()).collect()),
        capture_tui_screenshot: capture,
        fingerprint: 0,
    }
}

/// Runs the triggers through and writes down what is done for them.
fn steps(triggers: &[HighlightTrigger]) -> Vec<String> {
    let mut done = Vec::new();
    let mut event = DispatchEvent::Begun;
    loop {
        event = match dispatch_tui_triggers(triggers, event) {
            DispatchAction::Capture(index) => {
                done.push(format!("capture {index}"));
                DispatchEvent::Captured(index, format!("c{index}"))
            }
            DispatchAction::Note(index, capture) => {
                done.push(format!("note {index} {capture:?}"));
                DispatchEvent::Noted(index, format!("n{index}"), capture)
            }
            DispatchAction::Start(index, note, capture) => {
                done.push(format!("start {index} {note} {capture:?}"));
                DispatchEvent::Started(index)
            }
            DispatchAction::Finish => return done,
        };
    }
}

#[test]
fn triggers_are_dealt_with_in_order() {
    let triggers = [
        trigger("a", true, Some(&["run"])),
        trigger("b", false, None),
        trigger("c", false, Some(&["go"])),
        trigger("d", true, Some(&[])),
    ];
    assert_eq!(
        steps(&triggers),
        vec![
            "capture 0",
            "note 0 Some(\"c0\")",
            "start 0 n0 Some(\"c0\")",
            "note 1 None",
            "note 2 None",
            "start 2 n2 None",
            "capture 3",
            "note 3 Some(\"c3\")",
        ]
    );
    assert!(steps(&[]).is_empty());
}

#[test]
fn screenshots_are_wanted_where_a_trigger_asks_for_one() {
    assert!(takes_screenshot(&[
        trigger("a", false, None),
        trigger("b", true, None)
    ]));
    assert!(!takes_screenshot(&[trigger("a", false, None)]));
    assert!(!takes_screenshot(&[]));
}

#[test]
fn manifests_tell_of_their_triggers() {
    let manifest = trigger_manifest(&trigger("a", true, None), "tui", Some("c".to_string()));
    assert_eq!(manifest.backend, "tui");
    assert_eq!(manifest.key, "a");
    assert_eq!(manifest.pattern, "a+");
    assert_eq!(manifest.matches, vec!["one", "t\"wo"]);
    assert_eq!(manifest.capture_path.as_deref(), Some("c"));
}

#[test]
fn command_parts_are_filled_in() {
    let template = "{backend} {key} {pattern} {matches_json} {event_json} {capture_path} {x}";
    assert_eq!(
        expand_command_part(template, "tui", "k", "p", "[]", "e", Some("c")),
        "tui k p [] e c {x}"
    );
    assert_eq!(
        expand_command_part("{capture_path}", "tui", "k", "p", "[]", "e", None),
        "{capture_path}"
    );
}

#[test]
fn commands_are_planned() {
    let asked = trigger("a", true, Some(&["run", "{matches_json}", "{event_json}"]));
    let plan = plan_command(&asked, "tui", "e.json", Some("c.svg")).expect("there is a command");
    assert_eq!(plan.words, vec!["run", "[\"one\",\"t\\\"wo\"]", "e.json"]);
    let pair = |name: &str, value: &str| (name.to_string(), value.to_string());
    assert_eq!(
        plan.variables,
        vec![
            pair("TWRAP_HIGHLIGHT_BACKEND", "tui"),
            pair("TWRAP_HIGHLIGHT_KEY", "a"),
            pair("TWRAP_HIGHLIGHT_PATTERN", "a+"),
            pair("TWRAP_HIGHLIGHT_MATCHES_JSON", "[\"one\",\"t\\\"wo\"]"),
        ]
    );
    assert_eq!(plan.event_variable, "TWRAP_HIGHLIGHT_EVENT_JSON");
    assert_eq!(
        plan.capture_variable.as_deref(),
        Some("TWRAP_HIGHLIGHT_CAPTURE_PATH")
    );
    let plan = plan_command(&asked, "tui", "e.json", None).expect("there is a command");
    assert_eq!(plan.event_variable, "TWRAP_HIGHLIGHT_EVENT_JSON");
    assert_eq!(plan.capture_variable, None);
    assert!(plan_command(&trigger("a", true, None), "tui", "e", None).is_none());
    assert!(plan_command(&trigger("a", true, Some(&[])), "tui", "e", None).is_none());
}
