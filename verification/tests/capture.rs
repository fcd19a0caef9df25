use twrap::capture::{
    capture_file_name, event_file_name, highlight_file_name, manual_file_name,
    render_output_prefix, sanitize_segment,
};

fn no_variables(_name: &str) -> Option<String> {
    None
}

fn home(name: &str) -> Option<String> {
    if name == "HOME" {
        Some("/root/x y".to_string())
    } else {
        None
    }
}

#[test]
fn render_output_prefix_replaces_tokens() {
    let rendered = render_output_prefix(
        Some("shot-{backend}-{capture_kind}-{key}-{timestamp}-"),
        "warn",
        "tui",
        "manual_svg",
        "svg",
        42,
        &no_variables,
    );

    assert_eq!(rendered, "shot-tui-manual_svg-warn-42-");
}

#[test]
fn without_a_template_there_is_no_prefix() {
    assert_eq!(
        render_output_prefix(None, "k", "tui", "event", "json", 1, &no_variables),
        ""
    );
}

#[test]
fn variables_are_looked_up_and_sanitized() {
    let render = |template: &str| {
        render_output_prefix(Some(template), "a/b", "tui", "event", "json", 1, &home)
    };
    assert_eq!(render("{env:HOME}"), "_root_x_y");
    assert_eq!(render("{env:NONE}"), "_env_NONE_");
    assert_eq!(render("{key}.{ext}"), "a_b_json");
    assert_eq!(render("{other}"), "_other_");
}

#[test]
fn sanitized_segments() {
    assert_eq!(sanitize_segment("aZ0-_./ é"), "aZ0-_____");
    let once = sanitize_segment("x y");
    assert_eq!(sanitize_segment(&once), once);
}

#[test]
fn file_names() {
    assert_eq!(
        capture_file_name(Some("p-"), "a b", "tui", "kind", "svg", 12, &no_variables),
        "p-a_b-12.svg"
    );
    assert_eq!(
        highlight_file_name(
            Some("{capture_kind}-"),
            "k",
            u128::MAX,
            &no_variables
        ),
        "highlight_svg-k-340282366920938463463374607431768211455.svg"
    );
    assert_eq!(
        event_file_name(Some("{capture_kind}.{ext}-"), "k", "tui", 0, &no_variables),
        "event_json-k-0-event.json"
    );
    assert_eq!(
        manual_file_name(Some("{capture_kind}-{key}-"), 7, &no_variables),
        "manual_svg-manual-manual-7.svg"
    );
    assert_eq!(manual_file_name(None, 7, &no_variables), "manual-7.svg");
}
