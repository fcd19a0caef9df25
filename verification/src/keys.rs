//! The names of keys and the bytes that a terminal sends for them.
use crate::error::{KeyError, KeyErrorView};
use crate::model::{KeyChord, ScreenshotKey, screenshot_key_named};
use crate::text::{
    bytes_of, law_trimming_takes_white_space, lemma_encode_boundary, lemma_encode_concat, lower_text,
    same_text, strip_prefix, to_lower, trim, trimmed, white_space,
};
use vstd::prelude::*;
use vstd::string::StrSliceExecFns;
use vstd::utf8::*;

verus! {

broadcast use vstd::string::group_string_axioms;

/// The bytes of a key that has a name of its own.
pub open spec fn named_key(name: Seq<char>) -> Option<Seq<u8>> {
    if name == "up"@ {
        Some(seq![0x1bu8, 0x5b, 0x41])
    } else if name == "down"@ {
        Some(seq![0x1bu8, 0x5b, 0x42])
    } else if name == "right"@ {
        Some(seq![0x1bu8, 0x5b, 0x43])
    } else if name == "left"@ {
        Some(seq![0x1bu8, 0x5b, 0x44])
    } else if name == "home"@ {
        Some(seq![0x1bu8, 0x5b, 0x48])
    } else if name == "end"@ {
        Some(seq![0x1bu8, 0x5b, 0x46])
    } else if name == "pageup"@ {
        Some(seq![0x1bu8, 0x5b, 0x35, 0x7e])
    } else if name == "pagedown"@ {
        Some(seq![0x1bu8, 0x5b, 0x36, 0x7e])
    } else if name == "insert"@ {
        Some(seq![0x1bu8, 0x5b, 0x32, 0x7e])
    } else if name == "delete"@ {
        Some(seq![0x1bu8, 0x5b, 0x33, 0x7e])
    } else if name == "enter"@ {
        Some(seq![0x0du8])
    } else if name == "tab"@ {
        Some(seq![0x09u8])
    } else if name == "esc"@ {
        Some(seq![0x1bu8])
    } else if name == "space"@ {
        Some(seq![0x20u8])
    } else if name == "backspace"@ {
        Some(seq![0x7fu8])
    } else if name == "f1"@ {
        Some(seq![0x1bu8, 0x4f, 0x50])
    } else if name == "f2"@ {
        Some(seq![0x1bu8, 0x4f, 0x51])
    } else if name == "f3"@ {
        Some(seq![0x1bu8, 0x4f, 0x52])
    } else if name == "f4"@ {
        Some(seq![0x1bu8, 0x4f, 0x53])
    } else if name == "f5"@ {
        Some(seq![0x1bu8, 0x5b, 0x31, 0x35, 0x7e])
    } else if name == "f6"@ {
        Some(seq![0x1bu8, 0x5b, 0x31, 0x37, 0x7e])
    } else if name == "f7"@ {
        Some(seq![0x1bu8, 0x5b, 0x31, 0x38, 0x7e])
    } else if name == "f8"@ {
        Some(seq![0x1bu8, 0x5b, 0x31, 0x39, 0x7e])
    } else if name == "f9"@ {
        Some(seq![0x1bu8, 0x5b, 0x32, 0x30, 0x7e])
    } else if name == "f10"@ {
        Some(seq![0x1bu8, 0x5b, 0x32, 0x31, 0x7e])
    } else if name == "f11"@ {
        Some(seq![0x1bu8, 0x5b, 0x32, 0x33, 0x7e])
    } else if name == "f12"@ {
        Some(seq![0x1bu8, 0x5b, 0x32, 0x34, 0x7e])
    } else {
        None
    }
}

fn find_named_key(name: &str) -> (r: Option<Vec<u8>>)
    ensures
        match r {
            Some(bytes) => named_key(name@) == Some(bytes@),
            None => named_key(name@) is None,
        },
{
    if same_text(name, "up") {
        Some(vec![0x1bu8, 0x5b, 0x41])
    } else if same_text(name, "down") {
        Some(vec![0x1bu8, 0x5b, 0x42])
    } else if same_text(name, "right") {
        Some(vec![0x1bu8, 0x5b, 0x43])
    } else if same_text(name, "left") {
        Some(vec![0x1bu8, 0x5b, 0x44])
    } else if same_text(name, "home") {
        Some(vec![0x1bu8, 0x5b, 0x48])
    } else if same_text(name, "end") {
        Some(vec![0x1bu8, 0x5b, 0x46])
    } else if same_text(name, "pageup") {
        Some(vec![0x1bu8, 0x5b, 0x35, 0x7e])
    } else if same_text(name, "pagedown") {
        Some(vec![0x1bu8, 0x5b, 0x36, 0x7e])
    } else if same_text(name, "insert") {
        Some(vec![0x1bu8, 0x5b, 0x32, 0x7e])
    } else if same_text(name, "delete") {
        Some(vec![0x1bu8, 0x5b, 0x33, 0x7e])
    } else if same_text(name, "enter") {
        Some(vec![0x0du8])
    } else if same_text(name, "tab") {
        Some(vec![0x09u8])
    } else if same_text(name, "esc") {
        Some(vec![0x1bu8])
    } else if same_text(name, "space") {
        Some(vec![0x20u8])
    } else if same_text(name, "backspace") {
        Some(vec![0x7fu8])
    } else if same_text(name, "f1") {
        Some(vec![0x1bu8, 0x4f, 0x50])
    } else if same_text(name, "f2") {
        Some(vec![0x1bu8, 0x4f, 0x51])
    } else if same_text(name, "f3") {
        Some(vec![0x1bu8, 0x4f, 0x52])
    } else if same_text(name, "f4") {
        Some(vec![0x1bu8, 0x4f, 0x53])
    } else if same_text(name, "f5") {
        Some(vec![0x1bu8, 0x5b, 0x31, 0x35, 0x7e])
    } else if same_text(name, "f6") {
        Some(vec![0x1bu8, 0x5b, 0x31, 0x37, 0x7e])
    } else if same_text(name, "f7") {
        Some(vec![0x1bu8, 0x5b, 0x31, 0x38, 0x7e])
    } else if same_text(name, "f8") {
        Some(vec![0x1bu8, 0x5b, 0x31, 0x39, 0x7e])
    } else if same_text(name, "f9") {
        Some(vec![0x1bu8, 0x5b, 0x32, 0x30, 0x7e])
    } else if same_text(name, "f10") {
        Some(vec![0x1bu8, 0x5b, 0x32, 0x31, 0x7e])
    } else if same_text(name, "f11") {
        Some(vec![0x1bu8, 0x5b, 0x32, 0x33, 0x7e])
    } else if same_text(name, "f12") {
        Some(vec![0x1bu8, 0x5b, 0x32, 0x34, 0x7e])
    } else {
        None
    }
}

/// The byte that the control key makes of a letter or of one of `[`, `\\` and
/// `]`.
pub open spec fn control_byte(b: u8) -> Option<u8> {
    if 0x41 <= b <= 0x5d {
        Some((b - 0x40) as u8)
    } else if 0x61 <= b <= 0x7a {
        Some((b - 0x60) as u8)
    } else {
        None
    }
}

/// The bytes of a control key, named by five bytes and one more.
pub open spec fn ctrl_key(name: Seq<char>) -> Result<Seq<u8>, KeyErrorView> {
    let tail = encode_utf8(name).skip(5);
    if tail.len() != 1 {
        Err(KeyErrorView::CtrlLength(name))
    } else {
        match control_byte(tail[0]) {
            Some(b) => Ok(seq![b]),
            None => Err(KeyErrorView::CtrlCharacter(name)),
        }
    }
}

/// The bytes of a key that is named by the character it types.
pub open spec fn literal_key(name: Seq<char>) -> Result<Seq<u8>, KeyErrorView> {
    if name.len() == 1 {
        Ok(encode_utf8(name))
    } else {
        Err(KeyErrorView::Unknown(name))
    }
}

/// The bytes of the key with the given name.
pub open spec fn key_bytes(name: Seq<char>) -> Result<Seq<u8>, KeyErrorView> {
    if name.len() == 0 {
        Err(KeyErrorView::Empty)
    } else {
        match named_key(name) {
            Some(bytes) => Ok(bytes),
            None => if "ctrl-"@.is_prefix_of(name) {
                ctrl_key(name)
            } else {
                literal_key(name)
            },
        }
    }
}

/// The name of the key that a text stands for.
pub open spec fn key_name(value: Seq<char>) -> Seq<char> {
    lower_text(trimmed(value))
}

/// What is read as the bytes of a key, or its error.
pub open spec fn bytes_outcome(r: Result<Vec<u8>, KeyError>) -> Result<Seq<u8>, KeyErrorView> {
    match r {
        Ok(bytes) => Ok(bytes@),
        Err(error) => Err(error@),
    }
}

/// Reads a control key: the byte behind the first five, which stand for `ctrl-`,
/// has to be a letter or one of `[`, `\\` and `]`.
pub fn parse_ctrl_key(value: &str) -> (r: Result<Vec<u8>, KeyError>)
    requires
        is_char_boundary(encode_utf8(value@), 5),
    ensures
        bytes_outcome(r) == ctrl_key(value@),
{
    let bytes = value.as_bytes();
    proof {
        encode_utf8_valid_utf8(value@);
        reveal_with_fuel(is_char_boundary, 2);
    }
    if bytes.len() != 6 {
        return Err(KeyError::CtrlLength(value.to_string()));
    }
    let b: u8 = bytes[5];
    assert(encode_utf8(value@).skip(5) == seq![b]);
    if 0x41 <= b && b <= 0x5d {
        let key = vec![b - 0x40];
        assert(key@ == seq![(b - 0x40) as u8]);
        Ok(key)
    } else if 0x61 <= b && b <= 0x7a {
        let key = vec![b - 0x60];
        assert(key@ == seq![(b - 0x60) as u8]);
        Ok(key)
    } else {
        Err(KeyError::CtrlCharacter(value.to_string()))
    }
}

/// Reads a key that is named by the character it types.
pub fn parse_literal_key(value: &str) -> (r: Result<Vec<u8>, KeyError>)
    ensures
        bytes_outcome(r) == literal_key(value@),
{
    if value.unicode_len() != 1 {
        return Err(KeyError::Unknown(value.to_string()));
    }
    Ok(bytes_of(value))
}

/// Reads the name of a key. White space around it and the case of its ASCII
/// letters do not matter.
pub fn parse_key_chord(value: &str) -> (r: Result<KeyChord, KeyError>)
    ensures
        match r {
            Ok(chord) => chord.label@ == key_name(value@) && key_bytes(key_name(value@)) == Ok::<
                Seq<u8>,
                KeyErrorView,
            >(chord.bytes@),
            Err(error) => key_bytes(key_name(value@)) == Err::<Seq<u8>, KeyErrorView>(error@),
        },
{
    let name = to_lower(trim(value));
    if name.as_str().unicode_len() == 0 {
        return Err(KeyError::Empty);
    }
    let bytes = match find_named_key(name.as_str()) {
        Some(bytes) => bytes,
        None => {
            let read = match strip_prefix(name.as_str(), "ctrl-") {
                Some(rest) => {
                    proof {
                        reveal_strlit("ctrl-");
                        lemma_encode_boundary("ctrl-"@, rest@);
                        is_ascii_chars_encode_utf8("ctrl-"@);
                        assert("ctrl-"@.is_prefix_of(name@));
                    }
                    parse_ctrl_key(name.as_str())
                },
                None => parse_literal_key(name.as_str()),
            };
            match read {
                Ok(bytes) => bytes,
                Err(error) => {
                    return Err(error);
                },
            }
        },
    };
    Ok(KeyChord { label: name, bytes })
}

/// The name of the key that takes screenshots.
pub open spec fn screenshot_key_label(key: ScreenshotKey) -> Seq<char> {
    match key {
        ScreenshotKey::CtrlG => "ctrl-g"@,
        ScreenshotKey::CtrlT => "ctrl-t"@,
        ScreenshotKey::CtrlBackslash => "ctrl-\\"@,
    }
}

/// The byte of the key that takes screenshots.
pub open spec fn screenshot_key_byte(key: ScreenshotKey) -> u8 {
    match key {
        ScreenshotKey::CtrlG => 0x07,
        ScreenshotKey::CtrlT => 0x14,
        ScreenshotKey::CtrlBackslash => 0x1c,
    }
}

/// The key that takes screenshots.
pub fn screenshot_key_to_chord(key: ScreenshotKey) -> (r: KeyChord)
    ensures
        r.label@ == screenshot_key_label(key),
        r.bytes@ == seq![screenshot_key_byte(key)],
{
    match key {
        ScreenshotKey::CtrlG => KeyChord { label: "ctrl-g".to_string(), bytes: vec![0x07] },
        ScreenshotKey::CtrlT => KeyChord { label: "ctrl-t".to_string(), bytes: vec![0x14] },
        ScreenshotKey::CtrlBackslash => KeyChord {
            label: "ctrl-\\".to_string(),
            bytes: vec![0x1c],
        },
    }
}

/// No key with a name of its own is a control key.
proof fn lemma_ctrl_is_no_name(name: Seq<char>)
    requires
        "ctrl-"@.is_prefix_of(name),
    ensures
        named_key(name) is None,
{
    reveal_strlit("ctrl-");
    assert(name.subrange(0, 5)[0] == 'c');
    reveal_strlit("up");
    reveal_strlit("down");
    reveal_strlit("right");
    reveal_strlit("left");
    reveal_strlit("home");
    reveal_strlit("end");
    reveal_strlit("pageup");
    reveal_strlit("pagedown");
    reveal_strlit("insert");
    reveal_strlit("delete");
    reveal_strlit("enter");
    reveal_strlit("tab");
    reveal_strlit("esc");
    reveal_strlit("space");
    reveal_strlit("backspace");
    reveal_strlit("f1");
    reveal_strlit("f2");
    reveal_strlit("f3");
    reveal_strlit("f4");
    reveal_strlit("f5");
    reveal_strlit("f6");
    reveal_strlit("f7");
    reveal_strlit("f8");
    reveal_strlit("f9");
    reveal_strlit("f10");
    reveal_strlit("f11");
    reveal_strlit("f12");
}

/// The screenshot key sends what its name says: reading the name of the key as
/// the name of any other key gives the same byte.
pub proof fn law_screenshot_key_reads_back(key: ScreenshotKey)
    ensures
        key_name(screenshot_key_label(key)) == screenshot_key_label(key),
        key_bytes(screenshot_key_label(key)) == Ok::<Seq<u8>, KeyErrorView>(
            seq![screenshot_key_byte(key)],
        ),
{
    let label = screenshot_key_label(key);
    reveal_strlit("ctrl-");
    reveal_strlit("ctrl-g");
    reveal_strlit("ctrl-t");
    reveal_strlit("ctrl-\\");
    assert("ctrl-"@.is_prefix_of(label));
    lemma_ctrl_is_no_name(label);
    assert(trimmed(label) == label);
    assert(lower_text(label) == label);
    is_ascii_chars_encode_utf8(label);
    assert(encode_utf8(label).skip(5) == seq![label[5] as u8]);
}

/// A control key sends its character's place in the alphabet, in capitals or not;
/// other characters make no control key.
pub proof fn law_control_keys_send_one_byte(c: char)
    requires
        (c as int) < 128,
    ensures
        'A' <= c <= ']' || 'a' <= c <= 'z' ==> key_bytes("ctrl-"@ + seq![c]) == Ok::<
            Seq<u8>,
            KeyErrorView,
        >(seq![(c as int % 32) as u8]),
        !('A' <= c <= ']' || 'a' <= c <= 'z') ==> key_bytes("ctrl-"@ + seq![c]) == Err::<
            Seq<u8>,
            KeyErrorView,
        >(KeyErrorView::CtrlCharacter("ctrl-"@ + seq![c])),
{
    let name = "ctrl-"@ + seq![c];
    reveal_strlit("ctrl-");
    assert("ctrl-"@ =~= name.subrange(0, 5));
    assert("ctrl-"@.is_prefix_of(name));
    lemma_ctrl_is_no_name(name);
    assert(is_ascii_chars(name));
    is_ascii_chars_encode_utf8(name);
    assert(encode_utf8(name).skip(5) == seq![c as u8]);
}

/// A control key is made with exactly one more byte.
pub proof fn law_control_keys_take_one_byte(rest: Seq<char>)
    requires
        encode_utf8(rest).len() != 1,
    ensures
        key_bytes("ctrl-"@ + rest) == Err::<Seq<u8>, KeyErrorView>(
            KeyErrorView::CtrlLength("ctrl-"@ + rest),
        ),
{
    let name = "ctrl-"@ + rest;
    reveal_strlit("ctrl-");
    assert("ctrl-"@ =~= name.subrange(0, 5));
    assert("ctrl-"@.is_prefix_of(name));
    lemma_ctrl_is_no_name(name);
    assert(is_ascii_chars("ctrl-"@));
    is_ascii_chars_encode_utf8("ctrl-"@);
    lemma_encode_concat("ctrl-"@, rest);
    assert(encode_utf8(name).skip(5) == encode_utf8(rest));
}

/// A key that is named by a single character sends that character, and a longer name
/// that is neither known nor that of a control key stands for nothing.
pub proof fn law_characters_type_themselves(c: char, name: Seq<char>)
    ensures
        key_bytes(seq![c]) == Ok::<Seq<u8>, KeyErrorView>(encode_utf8(seq![c])),
        name.len() > 1 && named_key(name) is None && !"ctrl-"@.is_prefix_of(name) ==> key_bytes(
            name,
        ) == Err::<Seq<u8>, KeyErrorView>(KeyErrorView::Unknown(name)),
        key_bytes(Seq::<char>::empty()) == Err::<Seq<u8>, KeyErrorView>(KeyErrorView::Empty),
{
    reveal_strlit("ctrl-");
    assert(seq![c].len() == 1);
    reveal_strlit("up");
    reveal_strlit("down");
    reveal_strlit("right");
    reveal_strlit("left");
    reveal_strlit("home");
    reveal_strlit("end");
    reveal_strlit("pageup");
    reveal_strlit("pagedown");
    reveal_strlit("insert");
    reveal_strlit("delete");
    reveal_strlit("enter");
    reveal_strlit("tab");
    reveal_strlit("esc");
    reveal_strlit("space");
    reveal_strlit("backspace");
    reveal_strlit("f1");
    reveal_strlit("f2");
    reveal_strlit("f3");
    reveal_strlit("f4");
    reveal_strlit("f5");
    reveal_strlit("f6");
    reveal_strlit("f7");
    reveal_strlit("f8");
    reveal_strlit("f9");
    reveal_strlit("f10");
    reveal_strlit("f11");
    reveal_strlit("f12");
}

/// The name of a key is what stands between the white space around it, in small
/// letters.
pub proof fn law_key_names_ignore_case_and_space(value: Seq<char>) -> (range: (int, int))
    ensures
        0 <= range.0 <= range.1 <= value.len(),
        key_name(value) == lower_text(value.subrange(range.0, range.1)),
        forall|i: int| 0 <= i < range.0 ==> white_space(#[trigger] value[i]),
        forall|i: int| range.1 <= i < value.len() ==> white_space(#[trigger] value[i]),
        range.0 < range.1 ==> !white_space(value[range.0]) && !white_space(value[range.1 - 1]),
{
    law_trimming_takes_white_space(value)
}

proof fn lemma_names_are_spelled()
    ensures
        "up"@.len() == 2,
        "up"@[0] == 'u',
        "up"@[1] == 'p',
        "down"@.len() == 4,
        "down"@[0] == 'd',
        "down"@[1] == 'o',
        "right"@.len() == 5,
        "right"@[0] == 'r',
        "right"@[1] == 'i',
        "right"@[4] == 't',
        "left"@.len() == 4,
        "left"@[0] == 'l',
        "left"@[1] == 'e',
        "home"@.len() == 4,
        "home"@[0] == 'h',
        "home"@[1] == 'o',
        "end"@.len() == 3,
        "end"@[0] == 'e',
        "end"@[1] == 'n',
        "pageup"@.len() == 6,
        "pageup"@[0] == 'p',
        "pageup"@[1] == 'a',
        "pageup"@[4] == 'u',
        "pagedown"@.len() == 8,
        "pagedown"@[0] == 'p',
        "pagedown"@[1] == 'a',
        "pagedown"@[4] == 'd',
        "insert"@.len() == 6,
        "insert"@[0] == 'i',
        "insert"@[1] == 'n',
        "insert"@[4] == 'r',
        "delete"@.len() == 6,
        "delete"@[0] == 'd',
        "delete"@[1] == 'e',
        "delete"@[4] == 't',
        "enter"@.len() == 5,
        "enter"@[0] == 'e',
        "enter"@[1] == 'n',
        "enter"@[4] == 'r',
        "tab"@.len() == 3,
        "tab"@[0] == 't',
        "tab"@[1] == 'a',
        "esc"@.len() == 3,
        "esc"@[0] == 'e',
        "esc"@[1] == 's',
        "space"@.len() == 5,
        "space"@[0] == 's',
        "space"@[1] == 'p',
        "space"@[4] == 'e',
        "backspace"@.len() == 9,
        "backspace"@[0] == 'b',
        "backspace"@[1] == 'a',
        "backspace"@[4] == 's',
        "f1"@.len() == 2,
        "f1"@[0] == 'f',
        "f1"@[1] == '1',
        "f2"@.len() == 2,
        "f2"@[0] == 'f',
        "f2"@[1] == '2',
        "f3"@.len() == 2,
        "f3"@[0] == 'f',
        "f3"@[1] == '3',
        "f4"@.len() == 2,
        "f4"@[0] == 'f',
        "f4"@[1] == '4',
        "f5"@.len() == 2,
        "f5"@[0] == 'f',
        "f5"@[1] == '5',
        "f6"@.len() == 2,
        "f6"@[0] == 'f',
        "f6"@[1] == '6',
        "f7"@.len() == 2,
        "f7"@[0] == 'f',
        "f7"@[1] == '7',
        "f8"@.len() == 2,
        "f8"@[0] == 'f',
        "f8"@[1] == '8',
        "f9"@.len() == 2,
        "f9"@[0] == 'f',
        "f9"@[1] == '9',
        "f10"@.len() == 3,
        "f10"@[0] == 'f',
        "f10"@[1] == '1',
        "f10"@[2] == '0',
        "f11"@.len() == 3,
        "f11"@[0] == 'f',
        "f11"@[1] == '1',
        "f11"@[2] == '1',
        "f12"@.len() == 3,
        "f12"@[0] == 'f',
        "f12"@[1] == '1',
        "f12"@[2] == '2',
{
    reveal_strlit("up");
    reveal_strlit("down");
    reveal_strlit("right");
    reveal_strlit("left");
    reveal_strlit("home");
    reveal_strlit("end");
    reveal_strlit("pageup");
    reveal_strlit("pagedown");
    reveal_strlit("insert");
    reveal_strlit("delete");
    reveal_strlit("enter");
    reveal_strlit("tab");
    reveal_strlit("esc");
    reveal_strlit("space");
    reveal_strlit("backspace");
    reveal_strlit("f1");
    reveal_strlit("f2");
    reveal_strlit("f3");
    reveal_strlit("f4");
    reveal_strlit("f5");
    reveal_strlit("f6");
    reveal_strlit("f7");
    reveal_strlit("f8");
    reveal_strlit("f9");
    reveal_strlit("f10");
    reveal_strlit("f11");
    reveal_strlit("f12");
}

/// The keys that move the cursor send their escape sequences.
pub proof fn law_arrow_keys()
    ensures
        key_bytes("up"@) == Ok::<Seq<u8>, KeyErrorView>(seq![0x1bu8, 0x5b, 0x41]),
        key_bytes("down"@) == Ok::<Seq<u8>, KeyErrorView>(seq![0x1bu8, 0x5b, 0x42]),
        key_bytes("right"@) == Ok::<Seq<u8>, KeyErrorView>(seq![0x1bu8, 0x5b, 0x43]),
        key_bytes("left"@) == Ok::<Seq<u8>, KeyErrorView>(seq![0x1bu8, 0x5b, 0x44]),
        key_bytes("home"@) == Ok::<Seq<u8>, KeyErrorView>(seq![0x1bu8, 0x5b, 0x48]),
        key_bytes("end"@) == Ok::<Seq<u8>, KeyErrorView>(seq![0x1bu8, 0x5b, 0x46]),
{
    lemma_names_are_spelled();
}

/// The keys that page and edit send their escape sequences.
pub proof fn law_editing_keys()
    ensures
        key_bytes("pageup"@) == Ok::<Seq<u8>, KeyErrorView>(seq![0x1bu8, 0x5b, 0x35, 0x7e]),
        key_bytes("pagedown"@) == Ok::<Seq<u8>, KeyErrorView>(seq![0x1bu8, 0x5b, 0x36, 0x7e]),
        key_bytes("insert"@) == Ok::<Seq<u8>, KeyErrorView>(seq![0x1bu8, 0x5b, 0x32, 0x7e]),
        key_bytes("delete"@) == Ok::<Seq<u8>, KeyErrorView>(seq![0x1bu8, 0x5b, 0x33, 0x7e]),
{
    lemma_names_are_spelled();
}

/// The keys that type a control character or a space send that.
pub proof fn law_typing_keys()
    ensures
        key_bytes("enter"@) == Ok::<Seq<u8>, KeyErrorView>(seq![0x0du8]),
        key_bytes("tab"@) == Ok::<Seq<u8>, KeyErrorView>(seq![0x09u8]),
        key_bytes("esc"@) == Ok::<Seq<u8>, KeyErrorView>(seq![0x1bu8]),
        key_bytes("space"@) == Ok::<Seq<u8>, KeyErrorView>(seq![0x20u8]),
        key_bytes("backspace"@) == Ok::<Seq<u8>, KeyErrorView>(seq![0x7fu8]),
{
    lemma_names_are_spelled();
}

/// The first four function keys send their escape sequences.
pub proof fn law_first_function_keys()
    ensures
        key_bytes("f1"@) == Ok::<Seq<u8>, KeyErrorView>(seq![0x1bu8, 0x4f, 0x50]),
        key_bytes("f2"@) == Ok::<Seq<u8>, KeyErrorView>(seq![0x1bu8, 0x4f, 0x51]),
        key_bytes("f3"@) == Ok::<Seq<u8>, KeyErrorView>(seq![0x1bu8, 0x4f, 0x52]),
        key_bytes("f4"@) == Ok::<Seq<u8>, KeyErrorView>(seq![0x1bu8, 0x4f, 0x53]),
{
    lemma_names_are_spelled();
}

/// The further function keys send their escape sequences.
pub proof fn law_further_function_keys()
    ensures
        key_bytes("f5"@) == Ok::<Seq<u8>, KeyErrorView>(seq![0x1bu8, 0x5b, 0x31, 0x35, 0x7e]),
        key_bytes("f6"@) == Ok::<Seq<u8>, KeyErrorView>(seq![0x1bu8, 0x5b, 0x31, 0x37, 0x7e]),
        key_bytes("f7"@) == Ok::<Seq<u8>, KeyErrorView>(seq![0x1bu8, 0x5b, 0x31, 0x38, 0x7e]),
        key_bytes("f8"@) == Ok::<Seq<u8>, KeyErrorView>(seq![0x1bu8, 0x5b, 0x31, 0x39, 0x7e]),
        key_bytes("f9"@) == Ok::<Seq<u8>, KeyErrorView>(seq![0x1bu8, 0x5b, 0x32, 0x30, 0x7e]),
        key_bytes("f10"@) == Ok::<Seq<u8>, KeyErrorView>(seq![0x1bu8, 0x5b, 0x32, 0x31, 0x7e]),
        key_bytes("f11"@) == Ok::<Seq<u8>, KeyErrorView>(seq![0x1bu8, 0x5b, 0x32, 0x33, 0x7e]),
        key_bytes("f12"@) == Ok::<Seq<u8>, KeyErrorView>(seq![0x1bu8, 0x5b, 0x32, 0x34, 0x7e]),
{
    lemma_names_are_spelled();
}

/// A screenshot key is found by its name, and by no other text.
pub proof fn law_screenshot_key_is_found_by_its_name(key: ScreenshotKey, name: Seq<char>)
    ensures
        screenshot_key_named(screenshot_key_label(key)) == Some(key),
        screenshot_key_named(name) == Some(key) ==> name == screenshot_key_label(key),
{
    reveal_strlit("ctrl-g");
    reveal_strlit("ctrl-t");
    reveal_strlit("ctrl-\\");
    assert("ctrl-g"@[5] == 'g');
    assert("ctrl-t"@[5] == 't');
    assert("ctrl-\\"@[5] == '\\');
}

} // verus!
