use regex::Regex;
use twrap::config::{Options, Runtime, build_runtime, compile_highlight_rules};
use twrap::model::{OutputTransformKind, OutputTransformRule, ScreenshotKey};
use twrap::session::{
    ReadErrorKind, ReadStep, SessionAction, SessionEvent, StartupCapture, is_transient_read_error,
    preferred_term, read_step, terminal_size_fits,
};

fn runtime(patterns: &[&str], capture: bool) -> Runtime {
    let options = Options {
        highlight: patterns.iter().map(|pattern| pattern.to_string()).collect(),
        highlight_color: "#0000ff".to_string(),
        highlight_command: None,
        highlight_capture_tui_screenshot: capture,
        screenshot_prefix: None,
        screenshot_key: ScreenshotKey::CtrlG,
        bind: Vec::new(),
        replace: Vec::new(),
        mask: Vec::new(),
        mask_char: "*".to_string(),
        startup_capture_ms: 0,
    };
    let rules = compile_highlight_rules(&options).expect("rules should compile");
    build_runtime(options, rules).expect("runtime should build")
}

const PLAIN: &str = "\x1b[0m\x1b[39m\x1b[49m";

#[test]
fn an_empty_session_shows_blank_cells() {
    let startup = StartupCapture::new(2, 4).finish(&runtime(&["x"], false));
    assert!(startup.passed.is_empty());
    assert!(startup.news.triggers.is_empty());
    assert!(startup.news.svg.is_none());
    assert!(!startup.news.flash);
    let frame = startup.session.frame();
    assert_eq!(frame.text, format!("{PLAIN}    \r\n    \x1b[0m"));
    assert_eq!(frame.cursor, Some((0, 0)));
}

#[test]
fn captured_output_is_on_the_first_screen() {
    let rt = runtime(&["h."], true);
    let mut capture = StartupCapture::new(2, 4);
    capture.take(b"\x1b[?1000h\x1b[1mh");
    capture.take(b"i\x1b[?25l");
    let startup = capture.finish(&rt);
    assert_eq!(startup.passed, b"\x1b[?1000h");
    assert_eq!(startup.news.triggers.len(), 1);
    assert_eq!(startup.news.triggers[0].matched_texts, vec!["hi"]);
    assert!(startup.news.flash);
    let svg = startup.news.svg.expect("a screenshot belongs to a match");
    assert_eq!(svg, startup.session.screenshot());
    assert!(svg.contains("fill=\"#0000ff\""));
    let frame = startup.session.frame();
    assert!(frame.text.starts_with("\x1b[0m\x1b[39m\x1b[48;2;0;0;255m\x1b[1mhi\x1b[0m"));
    assert_eq!(frame.cursor, None);
}

#[test]
fn colors_and_styles_come_from_the_output() {
    let rt = runtime(&[], false);
    let mut capture = StartupCapture::new(2, 6);
    capture.take("\x1b[31;42;2;3;4;7ma\x1b[0;38;5;99mb\x1b[0;38;2;1;2;3mc\x1b[0m界".as_bytes());
    let frame = capture.finish(&rt).session.frame();
    let expected = format!(
        "\x1b[0m\x1b[48;5;1mX\x1b[0m\x1b[38;5;99m\x1b[49mb\
\x1b[0m\x1b[38;2;1;2;3m\x1b[49mc{PLAIN}界 \r\n      \x1b[0m"
    )
    .replace("\x1b[48;5;1mX", "\x1b[38;5;2m\x1b[48;5;1m\x1b[2m\x1b[3m\x1b[4ma");
    assert_eq!(frame.text, expected);
    assert_eq!(frame.cursor, Some((5, 0)));
}

#[test]
fn output_is_passed_on_reported_and_drawn() {
    let rt = runtime(&["err."], true);
    let mut session = StartupCapture::new(2, 8).finish(&rt).session;
    let mut actions = session.handle(SessionEvent::Output(b"err1\x1b= ".to_vec()), &rt);
    assert_eq!(actions.len(), 4);
    let SessionAction::Draw(frame) = actions.pop().unwrap() else {
        panic!("the screen should be drawn last");
    };
    assert_eq!(frame.text, session.frame().text);
    let SessionAction::Flash(text, again) = actions.pop().unwrap() else {
        panic!("a screenshot should be shown by a flash");
    };
    assert_eq!(text, session.flash());
    assert_eq!(again.text, frame.text);
    let SessionAction::Report(triggers, svg) = actions.pop().unwrap() else {
        panic!("new matches should be reported");
    };
    assert_eq!(triggers[0].matched_texts, vec!["err1"]);
    assert_eq!(svg, session.screenshot());
    let SessionAction::Pass(bytes) = actions.pop().unwrap() else {
        panic!("the terminal should be told first");
    };
    assert_eq!(bytes, b"\x1b=");

    let actions = session.handle(SessionEvent::Output(b"\x1b[H".to_vec()), &rt);
    assert_eq!(actions.len(), 2);
    let actions = session.handle(SessionEvent::Output(b"err2".to_vec()), &rt);
    assert_eq!(actions.len(), 4);
}

#[test]
fn matches_without_screenshots_do_not_flash() {
    let rt = runtime(&["err."], false);
    let mut session = StartupCapture::new(2, 8).finish(&rt).session;
    let actions = session.handle(SessionEvent::Output(b"err1".to_vec()), &rt);
    assert_eq!(actions.len(), 3);
    assert!(matches!(actions[1], SessionAction::Report(_, _)));
    assert!(matches!(actions[2], SessionAction::Draw(_)));
}

#[test]
fn keys_take_screenshots_and_the_end_stops() {
    let rt = runtime(&[], false);
    let mut session = StartupCapture::new(2, 4).finish(&rt).session;
    let actions = session.handle(SessionEvent::ScreenshotKey, &rt);
    assert_eq!(actions.len(), 2);
    let SessionAction::Save(svg) = &actions[0] else {
        panic!("the screenshot should be saved");
    };
    assert_eq!(*svg, session.screenshot());
    assert!(matches!(actions[1], SessionAction::Flash(_, _)));
    assert!(session.handle(SessionEvent::Idle, &rt).is_empty());
    let actions = session.handle(SessionEvent::Ended, &rt);
    assert_eq!(actions.len(), 1);
    assert!(matches!(actions[0], SessionAction::Stop));
}

#[test]
fn sequences_that_are_cut_by_the_first_screen_are_passed_on() {
    let rt = runtime(&[], false);
    let mut capture = StartupCapture::new(2, 4);
    capture.take(b"\x1b[?10");
    let startup = capture.finish(&rt);
    assert!(startup.passed.is_empty());
    let mut session = startup.session;
    let actions = session.handle(SessionEvent::Output(b"06h".to_vec()), &rt);
    let SessionAction::Pass(bytes) = &actions[0] else {
        panic!("the terminal should be told first");
    };
    assert_eq!(bytes, b"\x1b[?1006h");
}

#[test]
fn transforms_come_before_matches() {
    let mut rt = runtime(&["SECRET", r"\*+"], false);
    rt.output_transforms.push(OutputTransformRule {
        regex: Regex::new("SECRET").expect("regex should compile"),
        kind: OutputTransformKind::Mask('*'),
    });
    let mut capture = StartupCapture::new(2, 10);
    capture.take(b"a SECRET b");
    let startup = capture.finish(&rt);
    assert_eq!(startup.news.triggers.len(), 1);
    assert_eq!(startup.news.triggers[0].matched_texts, vec!["******"]);
    assert!(!startup.session.frame().text.contains("SECRET"));
}

#[test]
fn sizes_that_can_be_wrapped() {
    assert!(terminal_size_fits(24, 80));
    assert!(terminal_size_fits(2, 3));
    assert!(!terminal_size_fits(1, 80));
    assert!(!terminal_size_fits(24, 2));
    assert!(!terminal_size_fits(24, 65528));
}

#[test]
fn the_smallest_screen_takes_any_output() {
    let rt = runtime(&[], false);
    let mut session = StartupCapture::new(2, 3).finish(&rt).session;
    let text = "界界界\u{17d8}e\u{301}\tabc\r\n\x1b[5@\x1b[3P\x1b[9L\x1b[9M\x1b[r\x1b[1;1r\x1b[8;1;1tx";
    for _ in 0..3 {
        let actions = session.handle(SessionEvent::Output(text.as_bytes().to_vec()), &rt);
        assert!(matches!(actions.last(), Some(SessionAction::Draw(_))));
    }
}

#[test]
fn read_steps() {
    assert_eq!(read_step(Ok(0)), ReadStep::Stop);
    assert_eq!(read_step(Ok(7)), ReadStep::Take(7));
    assert_eq!(read_step(Err(ReadErrorKind::Interrupted)), ReadStep::Retry);
    assert_eq!(read_step(Err(ReadErrorKind::WouldBlock)), ReadStep::Pause);
    assert_eq!(read_step(Err(ReadErrorKind::TimedOut)), ReadStep::Pause);
    assert_eq!(read_step(Err(ReadErrorKind::Other)), ReadStep::Stop);
    assert!(is_transient_read_error(ReadErrorKind::TimedOut));
    assert!(!is_transient_read_error(ReadErrorKind::Interrupted));
}

#[test]
fn terminals_for_the_wrapped_program() {
    assert_eq!(preferred_term(Some("screen".to_string())), "screen");
    assert_eq!(preferred_term(Some("dumb".to_string())), "xterm-256color");
    assert_eq!(preferred_term(Some(String::new())), "xterm-256color");
    assert_eq!(preferred_term(None), "xterm-256color");
}

#[test]
fn the_smallest_capture_shows_one_blank_cell() {
    let rt = runtime(&[], false);
    let startup = StartupCapture::new(1, 1).finish(&rt);
    assert!(startup.passed.is_empty());
    assert!(startup.news.triggers.is_empty());
    let mut session = startup.session;
    assert_eq!(session.frame().text, format!("{PLAIN} \x1b[0m"));
    assert_eq!(session.frame().cursor, Some((0, 0)));
    assert_eq!(session.handle(SessionEvent::ScreenshotKey, &rt).len(), 2);
    assert!(session.handle(SessionEvent::Idle, &rt).is_empty());
}

#[test]
fn captures_without_output_are_blank_at_any_size() {
    let rt = runtime(&["never"], true);
    for (rows, cols) in [(1, 80), (24, 1), (3, 2), (2, 0)] {
        let startup = StartupCapture::new(rows, cols).finish(&rt);
        let row = " ".repeat(usize::from(cols));
        let body = vec![row; usize::from(rows)].join("\r\n");
        let style = if cols == 0 { "" } else { PLAIN };
        assert_eq!(
            startup.session.frame().text,
            format!("{style}{body}\x1b[0m")
        );
        assert_eq!(startup.session.frame().cursor, Some((0, 0)));
        assert!(startup.news.svg.is_none());
    }
}
