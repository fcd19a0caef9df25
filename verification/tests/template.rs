use twrap::template::{expand_template, fill_template, template_tokens};

#[test]
fn expand_template_preserves_unknown_tokens() {
    let rendered = expand_template("a-{known}-{unknown}", |token| match token {
        "known" => Some("ok".to_string()),
        _ => None,
    });

    assert_eq!(rendered, "a-ok-{unknown}");
}

#[test]
fn expand_template_preserves_unclosed_token() {
    let rendered = expand_template("a-{broken", |_| Some("x".to_string()));
    assert_eq!(rendered, "a-{broken");
}

#[test]
fn values_are_not_expanded_again() {
    let rendered = expand_template("{a}{b}", |token| match token {
        "a" => Some("{b}".to_string()),
        "b" => Some("B".to_string()),
        _ => None,
    });
    assert_eq!(rendered, "{b}B");
}

#[test]
fn tokens_reach_to_the_next_closing_brace() {
    let rendered = expand_template("{a{b}}{}", |token| Some(format!("<{token}>")));
    assert_eq!(rendered, "<a{b>}<>");
}

#[test]
fn without_values_a_template_stays() {
    assert_eq!(expand_template("x{y}z{", |_| None), "x{y}z{");
    assert_eq!(expand_template("", |_| None), "");
}

#[test]
fn each_token_is_asked_for_once_and_in_order() {
    let mut questions = Vec::new();
    let rendered = expand_template("x{a}{b}{a}{", |token| {
        questions.push(token.to_string());
        Some(format!("{{{}}}", questions.len()))
    });
    assert_eq!(rendered, "x{1}{2}{3}{");
    assert_eq!(questions, vec!["a", "b", "a"]);
}

#[test]
fn tokens_and_their_values() {
    assert_eq!(template_tokens("x{a}{b{}{}y{open"), vec!["a", "b{", ""]);
    assert!(template_tokens("none").is_empty());
    let given = vec![Some("1".to_string()), None, Some(String::new())];
    assert_eq!(
        fill_template("x{a}{b{}{}y{open", &given),
        "x1{b{}y{open"
    );
}

#[test]
fn the_first_token_is_filled_by_itself() {
    let value = |token: &str| if token == "k" { Some("v".to_string()) } else { None };
    let whole = expand_template("lit}{k}re{st}{k}", value);
    assert_eq!(whole, format!("lit}}v{}", expand_template("re{st}{k}", value)));
}
