use twrap::bindings::{compile_key_bindings, parse_binding_action};
use twrap::color::{parse_rgb, rgb_cuts_character};
use twrap::config::{
    DirectoryStep, Options, build_runtime, command_from_words, compile_highlight_rules,
    compile_output_transforms, directory_step, parse_highlight_command, parse_mask_char,
};
use twrap::error::{
    BindError, CommandError, HighlightError, KeyError, MaskError, RgbError, RuntimeError,
    TransformError,
};
use twrap::keys::{parse_ctrl_key, parse_key_chord, parse_literal_key, screenshot_key_to_chord};
use twrap::model::{BindingAction, OutputTransformKind, Rgb, ScreenshotKey};
use twrap::svg::rgb_hex;

#[test]
fn parse_rgb_accepts_hash_prefix() {
    let rgb = parse_rgb("#12abef").expect("color should parse");
    assert_eq!(rgb, Rgb(0x12, 0xab, 0xef));
}

#[test]
fn compile_key_bindings_adds_default_screenshot_binding() {
    let bindings =
        compile_key_bindings(&[], ScreenshotKey::CtrlG).expect("bindings should compile");

    assert_eq!(bindings.len(), 1);
    assert_eq!(bindings[0].action, BindingAction::Screenshot);
    assert_eq!(bindings[0].trigger.bytes, vec![0x07]);
}

#[test]
fn compile_key_bindings_parses_send_and_screenshot_actions() {
    let bindings = compile_key_bindings(
        &[
            "j=down".to_string(),
            "ctrl-t=screenshot".to_string(),
            "g=text:gg".to_string(),
        ],
        ScreenshotKey::CtrlG,
    )
    .expect("bindings should compile");

    assert!(
        bindings
            .iter()
            .any(|binding| binding.action == BindingAction::Screenshot)
    );
    assert!(
        bindings
            .iter()
            .any(|binding| binding.action == BindingAction::Send(b"\x1b[B".to_vec()))
    );
    assert!(
        bindings
            .iter()
            .any(|binding| binding.action == BindingAction::Send(b"gg".to_vec()))
    );
}

#[test]
fn compile_output_transforms_parses_replace_and_mask() {
    let rules = compile_output_transforms(
        &["secret".to_string(), "xxxxx".to_string()],
        &["token=[^ ]+".to_string()],
        "#",
    )
    .expect("rules should compile");

    assert_eq!(rules.len(), 2);
    assert_eq!(
        rules[0].kind,
        OutputTransformKind::Replace("xxxxx".to_string())
    );
    assert_eq!(rules[1].kind, OutputTransformKind::Mask('#'));
}

fn texts(items: &[&str]) -> Vec<String> {
    items.iter().map(|item| item.to_string()).collect()
}

#[test]
fn rgb_ignores_space_and_case_and_takes_a_plus_for_a_digit() {
    assert_eq!(parse_rgb("  ##FFf59d\t"), Ok(Rgb(0xff, 0xf5, 0x9d)));
    assert_eq!(parse_rgb("+1+2+f"), Ok(Rgb(1, 2, 15)));
}

#[test]
fn rgb_errors() {
    assert_eq!(parse_rgb("#12345"), Err(RgbError::Length));
    assert_eq!(parse_rgb(""), Err(RgbError::Length));
    assert_eq!(parse_rgb("12345g"), Err(RgbError::Digit));
    assert_eq!(parse_rgb("-1-2-3"), Err(RgbError::Digit));
    assert_eq!(parse_rgb("ééé"), Err(RgbError::Digit));
    assert_eq!(RgbError::Length.message(), "expected 6-digit hex color");
    assert_eq!(RgbError::Digit.message(), "invalid digit found in string");
}

#[test]
fn rgb_cuts_are_found() {
    assert!(rgb_cuts_character("aébcd"));
    assert!(rgb_cuts_character("abcéd"));
    assert!(!rgb_cuts_character("zzcéd"));
    assert!(!rgb_cuts_character("ééé"));
    assert!(!rgb_cuts_character("#123456"));
    assert!(!rgb_cuts_character("aé"));
}

#[test]
fn written_colors_read_back() {
    for rgb in [Rgb(0, 0, 0), Rgb(0x12, 0xab, 0xef), Rgb(255, 9, 160)] {
        let text = rgb_hex(rgb);
        assert_eq!(parse_rgb(&text), Ok(rgb));
        assert_eq!(parse_rgb(&text[1..]), Ok(rgb));
        assert_eq!(parse_rgb(&text.to_ascii_uppercase()), Ok(rgb));
        assert_eq!(parse_rgb(&text[1..].to_ascii_uppercase()), Ok(rgb));
    }
    assert_eq!(rgb_hex(Rgb(0x12, 0xab, 0xef)), "#12abef");
}

#[test]
fn named_keys_send_their_sequences() {
    let expected: [(&str, &[u8]); 27] = [
        ("up", b"\x1b[A"),
        ("down", b"\x1b[B"),
        ("right", b"\x1b[C"),
        ("left", b"\x1b[D"),
        ("home", b"\x1b[H"),
        ("end", b"\x1b[F"),
        ("pageup", b"\x1b[5~"),
        ("pagedown", b"\x1b[6~"),
        ("insert", b"\x1b[2~"),
        ("delete", b"\x1b[3~"),
        ("enter", b"\r"),
        ("tab", b"\t"),
        ("esc", b"\x1b"),
        ("space", b" "),
        ("backspace", b"\x7f"),
        ("f1", b"\x1bOP"),
        ("f2", b"\x1bOQ"),
        ("f3", b"\x1bOR"),
        ("f4", b"\x1bOS"),
        ("f5", b"\x1b[15~"),
        ("f6", b"\x1b[17~"),
        ("f7", b"\x1b[18~"),
        ("f8", b"\x1b[19~"),
        ("f9", b"\x1b[20~"),
        ("f10", b"\x1b[21~"),
        ("f11", b"\x1b[23~"),
        ("f12", b"\x1b[24~"),
    ];
    for (name, bytes) in expected {
        let chord = parse_key_chord(name).expect("key should parse");
        assert_eq!(chord.label, name);
        assert_eq!(chord.bytes, bytes);
    }
}

#[test]
fn key_names_ignore_space_and_ascii_case() {
    let chord = parse_key_chord("  Ctrl-A ").expect("key should parse");
    assert_eq!(chord.label, "ctrl-a");
    assert_eq!(chord.bytes, vec![1]);
    assert_eq!(parse_key_chord("X").unwrap().bytes, b"x");
    assert_eq!(parse_key_chord("Ä").unwrap().bytes, "Ä".as_bytes());
}

#[test]
fn control_keys() {
    assert_eq!(parse_ctrl_key("ctrl-a"), Ok(vec![1]));
    assert_eq!(parse_ctrl_key("ctrl-Z"), Ok(vec![26]));
    assert_eq!(parse_ctrl_key("ctrl-["), Ok(vec![0x1b]));
    assert_eq!(parse_ctrl_key("ctrl-\\"), Ok(vec![0x1c]));
    assert_eq!(parse_ctrl_key("ctrl-]"), Ok(vec![0x1d]));
    assert_eq!(
        parse_ctrl_key("ctrl-"),
        Err(KeyError::CtrlLength("ctrl-".to_string()))
    );
    assert_eq!(
        parse_ctrl_key("ctrl-ab"),
        Err(KeyError::CtrlLength("ctrl-ab".to_string()))
    );
    assert_eq!(
        parse_ctrl_key("ctrl-1"),
        Err(KeyError::CtrlCharacter("ctrl-1".to_string()))
    );
}

#[test]
fn literal_keys() {
    assert_eq!(parse_literal_key("é"), Ok("é".as_bytes().to_vec()));
    assert_eq!(
        parse_literal_key("ab"),
        Err(KeyError::Unknown("ab".to_string()))
    );
    assert_eq!(parse_literal_key(""), Err(KeyError::Unknown(String::new())));
}

#[test]
fn key_errors_in_words() {
    let message = |name: &str| parse_key_chord(name).unwrap_err().message();
    assert_eq!(message("  "), "key binding token must not be empty");
    assert_eq!(
        message("ctrl-xy"),
        "ctrl binding must have one character: ctrl-xy"
    );
    assert_eq!(message("ctrl-%"), "unsupported ctrl binding: ctrl-%");
    assert_eq!(message("F13"), "unsupported key binding token: f13");
}

#[test]
fn binding_actions() {
    assert_eq!(
        parse_binding_action("ScreenShot"),
        Ok(BindingAction::Screenshot)
    );
    assert_eq!(
        parse_binding_action("text: a,b"),
        Ok(BindingAction::Send(b" a,b".to_vec()))
    );
    assert_eq!(
        parse_binding_action("send: up , x,ctrl-c"),
        Ok(BindingAction::Send(b"\x1b[Ax\x03".to_vec()))
    );
    assert_eq!(
        parse_binding_action("x,,y"),
        Err(KeyError::Empty)
    );
    assert_eq!(
        parse_binding_action("x,nokey,ctrl-1"),
        Err(KeyError::Unknown("nokey".to_string()))
    );
}

#[test]
fn screenshot_keys_are_what_their_names_say() {
    for (name, key) in [
        ("ctrl-g", ScreenshotKey::CtrlG),
        ("ctrl-t", ScreenshotKey::CtrlT),
        ("ctrl-\\", ScreenshotKey::CtrlBackslash),
    ] {
        assert_eq!(ScreenshotKey::from_str(name), Ok(key));
        assert_eq!(screenshot_key_to_chord(key), parse_key_chord(name).unwrap());
    }
    assert_eq!(
        ScreenshotKey::from_str("ctrl-x"),
        Err("supported values: ctrl-g, ctrl-t, ctrl-\\".to_string())
    );
}

#[test]
fn a_binding_of_the_screenshot_key_takes_its_place() {
    let bindings = compile_key_bindings(&texts(&["ctrl-g=up"]), ScreenshotKey::CtrlG).unwrap();
    assert_eq!(bindings.len(), 1);
    assert_eq!(bindings[0].action, BindingAction::Send(b"\x1b[A".to_vec()));

    let bindings = compile_key_bindings(&texts(&["a = b = c"]), ScreenshotKey::CtrlT);
    assert_eq!(
        bindings.unwrap_err().message(),
        "unsupported key binding token: b = c"
    );
}

#[test]
fn binding_errors() {
    let error = compile_key_bindings(&texts(&["j=down", "oops"]), ScreenshotKey::CtrlG);
    let error = error.unwrap_err();
    assert_eq!(error, BindError::NoSeparator("oops".to_string()));
    assert_eq!(error.message(), "binding must be FROM=TO: oops");

    let error = compile_key_bindings(&texts(&["=down"]), ScreenshotKey::CtrlG).unwrap_err();
    assert_eq!(error, BindError::Key(KeyError::Empty));
}

#[test]
fn mask_characters() {
    assert_eq!(parse_mask_char("界"), Ok('界'));
    assert_eq!(parse_mask_char(""), Err(MaskError::Empty));
    assert_eq!(parse_mask_char("ab"), Err(MaskError::Long));
    assert_eq!(MaskError::Empty.message(), "mask char must not be empty");
    assert_eq!(
        MaskError::Long.message(),
        "mask char must be a single character"
    );
}

#[test]
fn transform_errors_come_in_order() {
    let message = |replace: &[&str], mask: &[&str], with: &str| {
        compile_output_transforms(&texts(replace), &texts(mask), with)
            .unwrap_err()
            .message()
    };
    assert_eq!(message(&["a"], &["("], ""), "mask char must not be empty");
    assert_eq!(
        message(&["("], &["("], "*"),
        "--replace expects PATTERN TEXT pairs"
    );
    assert_eq!(message(&["(", "x"], &["["], "*"), "invalid replace regex: (");
    assert_eq!(message(&["a", "x"], &["["], "*"), "invalid mask regex: [");
}

fn options() -> Options {
    Options {
        highlight: texts(&["error", "warn"]),
        highlight_color: "#fff59d".to_string(),
        highlight_command: Some("notify 'a b' {key}".to_string()),
        highlight_capture_tui_screenshot: true,
        screenshot_prefix: Some("p".to_string()),
        screenshot_key: ScreenshotKey::CtrlT,
        bind: texts(&["j=down"]),
        replace: texts(&["a", "b"]),
        mask: texts(&["c"]),
        mask_char: "*".to_string(),
        startup_capture_ms: 7,
    }
}

#[test]
fn highlight_rules_follow_the_patterns() {
    let rules = compile_highlight_rules(&options()).expect("rules should compile");
    assert_eq!(rules.len(), 2);
    assert_eq!(rules[1].key, "warn");
    assert_eq!(rules[1].pattern, "warn");
    assert_eq!(rules[1].regex.as_str(), "warn");
    assert_eq!(rules[0].color, Rgb(0xff, 0xf5, 0x9d));
    assert_eq!(
        rules[0].command,
        Some(texts(&["notify", "a b", "{key}"]))
    );
    assert!(rules[0].capture_tui_screenshot);
}

#[test]
fn highlight_errors() {
    let mut wrong = options();
    wrong.highlight_color = "red".to_string();
    wrong.highlight = texts(&["("]);
    let error = compile_highlight_rules(&wrong).unwrap_err();
    assert!(matches!(error, HighlightError::Color(RgbError::Length)));
    assert_eq!(error.message(), "invalid --highlight-color");

    let mut wrong = options();
    wrong.highlight = texts(&["("]);
    wrong.highlight_command = Some("'".to_string());
    let error = compile_highlight_rules(&wrong).unwrap_err();
    assert!(matches!(error, HighlightError::Pattern(_, _)));
    assert_eq!(error.message(), "invalid highlight regex: (");

    let mut wrong = options();
    wrong.highlight_command = Some("'".to_string());
    let error = compile_highlight_rules(&wrong).unwrap_err();
    assert!(matches!(
        error,
        HighlightError::Command(CommandError::Syntax(_))
    ));
    assert_eq!(error.message(), "invalid --highlight-command");

    wrong.highlight = Vec::new();
    assert_eq!(compile_highlight_rules(&wrong).unwrap().len(), 0);
}

#[test]
fn highlight_commands() {
    assert!(matches!(parse_highlight_command(None), Ok(None)));
    assert_eq!(
        parse_highlight_command(Some("run \"x y\"")).unwrap(),
        Some(texts(&["run", "x y"]))
    );
    let error = parse_highlight_command(Some("  ")).unwrap_err();
    assert!(matches!(error, CommandError::Empty));
    assert_eq!(error.message(), "command must not be empty");
    let error = parse_highlight_command(Some("\"")).unwrap_err();
    assert_eq!(error.message(), "missing closing quote");
    let CommandError::Syntax(cause) = error else {
        panic!("an open quote should be a syntax error");
    };
    assert_eq!(cause.to_string(), "missing closing quote");
    assert!(command_from_words(Vec::new()).is_err());
    assert_eq!(command_from_words(texts(&["a"])).unwrap(), texts(&["a"]));
}

#[test]
fn directory_steps() {
    assert_eq!(directory_step(false, false), DirectoryStep::Create);
    assert_eq!(directory_step(true, true), DirectoryStep::Use);
    assert_eq!(directory_step(true, false), DirectoryStep::Reject);
}

#[test]
fn runtimes() {
    let options_given = options();
    let rules = compile_highlight_rules(&options_given).unwrap();
    let runtime = build_runtime(options_given, rules).expect("runtime should build");
    assert_eq!(runtime.startup_capture_ms, 7);
    assert_eq!(runtime.screenshot_prefix.as_deref(), Some("p"));
    assert_eq!(runtime.highlight_rules.len(), 2);
    assert_eq!(runtime.key_bindings.len(), 2);
    assert_eq!(runtime.key_bindings[1].trigger.bytes, vec![0x14]);
    assert_eq!(runtime.output_transforms.len(), 2);

    let mut wrong = options();
    wrong.bind = texts(&["x"]);
    wrong.mask_char = String::new();
    let error = build_runtime(wrong, Vec::new()).unwrap_err();
    assert!(matches!(error, RuntimeError::Bindings(_)));
    assert_eq!(error.message(), "failed to compile --bind");

    let mut wrong = options();
    wrong.mask_char = String::new();
    let error = build_runtime(wrong, Vec::new()).unwrap_err();
    assert!(matches!(
        error,
        RuntimeError::Transforms(TransformError::Mask(MaskError::Empty))
    ));
    assert_eq!(error.message(), "failed to compile replace/mask rules");
}
