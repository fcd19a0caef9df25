use twrap::input::{InputEvent, forward_input, process_pending_input};
use twrap::model::{BindingAction, KeyBinding, KeyChord};
use twrap::passthrough::{LivePassthrough, longest_passthrough_suffix, passthrough_match};

fn binding(bytes: &[u8], action: BindingAction) -> KeyBinding {
    KeyBinding {
        trigger: KeyChord {
            label: "key".to_string(),
            bytes: bytes.to_vec(),
        },
        action,
    }
}

fn send(bytes: &[u8]) -> BindingAction {
    BindingAction::Send(bytes.to_vec())
}

#[test]
fn bound_keys_are_exchanged_and_others_go_through() {
    let bindings = [
        binding(b"j", send(b"\x1b[B")),
        binding(b"\x07", BindingAction::Screenshot),
    ];
    let mut pending = b"aj\x07b".to_vec();
    let actions = process_pending_input(&mut pending, &bindings, false);
    assert_eq!(
        actions,
        vec![
            send(b"a"),
            send(b"\x1b[B"),
            BindingAction::Screenshot,
            send(b"b"),
        ]
    );
    assert!(pending.is_empty());
}

#[test]
fn parts_of_a_trigger_wait_until_they_are_flushed() {
    let bindings = [binding(b"\x1b[A", send(b"k"))];
    let mut pending = b"x\x1b[".to_vec();
    assert_eq!(
        process_pending_input(&mut pending, &bindings, false),
        vec![send(b"x")]
    );
    assert_eq!(pending, b"\x1b[");
    pending.push(b'A');
    assert_eq!(
        process_pending_input(&mut pending, &bindings, false),
        vec![send(b"k")]
    );
    pending.extend_from_slice(b"\x1b[");
    assert_eq!(
        process_pending_input(&mut pending, &bindings, true),
        vec![send(b"\x1b"), send(b"[")]
    );
    assert!(pending.is_empty());
}

#[test]
fn the_first_binding_that_fits_counts() {
    let bindings = [binding(b"a", send(b"1")), binding(b"ab", send(b"2"))];
    let mut pending = b"ab".to_vec();
    assert_eq!(
        process_pending_input(&mut pending, &bindings, false),
        vec![send(b"1"), send(b"b")]
    );
}

#[test]
fn input_events() {
    let bindings = [binding(b"\x1b[A", send(b"k"))];
    let mut pending = Vec::new();
    let (actions, ended) = forward_input(
        &mut pending,
        &bindings,
        InputEvent::Chunk(b"\x1b".to_vec()),
    );
    assert!(actions.is_empty() && !ended);
    assert_eq!(pending, b"\x1b");
    let (actions, ended) = forward_input(&mut pending, &bindings, InputEvent::Timeout);
    assert_eq!(actions, vec![send(b"\x1b")]);
    assert!(!ended && pending.is_empty());
    pending.push(b'z');
    let (actions, ended) = forward_input(&mut pending, &bindings, InputEvent::Disconnected);
    assert_eq!(actions, vec![send(b"z")]);
    assert!(ended && pending.is_empty());
}

#[test]
fn two_reads_are_one() {
    let bindings = [binding(b"\x1b[A", send(b"k")), binding(b"q", send(b"r"))];
    let all = b"ab\x1b[Aq\x1bx";
    let mut whole = all.to_vec();
    let expected = process_pending_input(&mut whole, &bindings, false);
    for cut in 0..all.len() {
        let mut pending = all[..cut].to_vec();
        let mut actions = process_pending_input(&mut pending, &bindings, false);
        pending.extend_from_slice(&all[cut..]);
        actions.extend(process_pending_input(&mut pending, &bindings, false));
        assert_eq!(actions, expected);
        assert_eq!(pending, whole);
    }
}

#[test]
fn control_sequences_are_recognised() {
    let all: [&[u8]; 23] = [
        b"\x1b[?1049h",
        b"\x1b[?1047h",
        b"\x1b[?47h",
        b"\x1b[?1000h",
        b"\x1b[?1002h",
        b"\x1b[?1003h",
        b"\x1b[?1005h",
        b"\x1b[?1006h",
        b"\x1b[?1007h",
        b"\x1b[?1015h",
        b"\x1b[?1000l",
        b"\x1b[?1002l",
        b"\x1b[?1003l",
        b"\x1b[?1005l",
        b"\x1b[?1006l",
        b"\x1b[?1007l",
        b"\x1b[?1015l",
        b"\x1b[?1h",
        b"\x1b=",
        b"\x1b[?1l",
        b"\x1b>",
        b"\x1b[?2004h",
        b"\x1b[?2004l",
    ];
    for sequence in all {
        let mut text = sequence.to_vec();
        text.extend_from_slice(b"tail");
        assert_eq!(passthrough_match(&text).as_deref(), Some(sequence));
        assert_eq!(longest_passthrough_suffix(&sequence[..1]), 1);
    }
    assert_eq!(passthrough_match(b"\x1b[?1049l"), None);
    assert_eq!(passthrough_match(b"x\x1b="), None);
    assert_eq!(passthrough_match(b""), None);
}

#[test]
fn only_control_sequences_are_passed_on() {
    let mut passthrough = LivePassthrough::default();
    assert_eq!(
        passthrough.feed(b"a\x1b[?1049hb\x1b[31mc\x1b=d"),
        b"\x1b[?1049h\x1b="
    );
    assert_eq!(passthrough.feed(b"plain text"), b"");
}

#[test]
fn chunks_make_no_difference() {
    let all = b"a\x1b[?1049hb\x1b[?1000hc\x1b[31m\x1b=\x1b[?2004l\x1b[?1";
    let whole = LivePassthrough::default().feed(all);
    assert_eq!(whole, b"\x1b[?1049h\x1b[?1000h\x1b=\x1b[?2004l");
    for size in 1..all.len() {
        let mut passthrough = LivePassthrough::default();
        let mut passed = Vec::new();
        for chunk in all.chunks(size) {
            passed.extend(passthrough.feed(chunk));
        }
        assert_eq!(passed, whole);
    }
}

#[test]
fn only_the_longest_sequences_do_not_wait_at_the_end() {
    let mut passthrough = LivePassthrough::default();
    assert_eq!(passthrough.feed(b"\x1b[?2004h"), b"\x1b[?2004h");
    assert_eq!(passthrough.feed(b"\x1b="), b"");
    assert_eq!(passthrough.feed(b"x"), b"\x1b=");
    assert_eq!(longest_passthrough_suffix(b"abc\x1b[?10"), 5);
    assert_eq!(longest_passthrough_suffix(b"abc"), 0);
}

#[test]
fn a_shorter_trigger_behind_a_longer_one_cuts_it_short() {
    let bindings = [binding(b"ab", send(b"1")), binding(b"a", send(b"2"))];
    let mut pending = b"ab".to_vec();
    assert_eq!(
        process_pending_input(&mut pending, &bindings, false),
        vec![send(b"1")]
    );
    pending.push(b'a');
    assert_eq!(
        process_pending_input(&mut pending, &bindings, false),
        vec![send(b"2")]
    );
}
