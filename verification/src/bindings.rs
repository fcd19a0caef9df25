//! Key bindings on the command line: `FROM=TO`.
use crate::error::{BindError, BindErrorView, KeyError, KeyErrorView};
use crate::input::{bindings_wait, law_bound_key_is_obeyed, processed};
use crate::keys::{
    key_bytes, key_name, named_key, parse_key_chord, screenshot_key_byte, screenshot_key_label,
    screenshot_key_to_chord,
};
use crate::model::{
    ActionView, BindingAction, BindingView, KeyBinding, ScreenshotKey, binding_views, texts,
};
use crate::text::{
    bytes_of, chars_of, find_char, find_char_from, lemma_find_char, lemma_find_char_bounds, lower_text, same_text,
    strip_prefix, to_lower, trim, trimmed,
};
use vstd::prelude::*;
use vstd::string::StrSliceExecFns;
use vstd::utf8::*;

verus! {

broadcast use vstd::string::group_string_axioms;

/// The bytes of the keys in a list with commas between them, or the error of the
/// first key that has none.
pub open spec fn keys_sent(list: Seq<char>) -> Result<Seq<u8>, KeyErrorView>
    decreases list.len(),
    via keys_sent_shrinks
{
    let k = find_char(list, ',');
    match key_bytes(key_name(trimmed(list.take(k)))) {
        Err(error) => Err(error),
        Ok(bytes) => if k >= list.len() {
            Ok(bytes)
        } else {
            followed_by(bytes, keys_sent(list.skip(k + 1)))
        },
    }
}

#[via_fn]
proof fn keys_sent_shrinks(list: Seq<char>) {
    lemma_find_char_bounds(list, ',');
}

/// `bytes` before the bytes of an outcome, or the outcome's error.
pub open spec fn followed_by(
    bytes: Seq<u8>,
    outcome: Result<Seq<u8>, KeyErrorView>,
) -> Result<Seq<u8>, KeyErrorView> {
    match outcome {
        Ok(rest) => Ok(bytes + rest),
        Err(error) => Err(error),
    }
}

/// The action that the right side of a binding asks for: a screenshot, a text
/// behind `text:`, or keys, with or without `send:` before them.
pub open spec fn action_of(value: Seq<char>) -> Result<ActionView, KeyErrorView> {
    if lower_text(value) == "screenshot"@ {
        Ok(ActionView::Screenshot)
    } else if "text:"@.is_prefix_of(value) {
        Ok(ActionView::Send(encode_utf8(value.skip("text:"@.len() as int))))
    } else {
        let list = if "send:"@.is_prefix_of(value) {
            value.skip("send:"@.len() as int)
        } else {
            value
        };
        match keys_sent(list) {
            Ok(bytes) => Ok(ActionView::Send(bytes)),
            Err(error) => Err(error),
        }
    }
}

/// The binding that a text describes.
pub open spec fn binding_of(binding: Seq<char>) -> Result<BindingView, BindErrorView> {
    let k = find_char(binding, '=');
    let name = key_name(trimmed(binding.take(k)));
    if k >= binding.len() {
        Err(BindErrorView::NoSeparator(binding))
    } else {
        match (key_bytes(name), action_of(trimmed(binding.skip(k + 1)))) {
            (Err(error), _) => Err(BindErrorView::Key(error)),
            (_, Err(error)) => Err(BindErrorView::Key(error)),
            (Ok(trigger), Ok(action)) => Ok(BindingView { label: name, trigger, action }),
        }
    }
}

/// The bindings that texts describe, or the error of the first that describes
/// none.
pub open spec fn bindings_of(bindings: Seq<Seq<char>>) -> Result<Seq<BindingView>, BindErrorView>
    decreases bindings.len(),
{
    if bindings.len() == 0 {
        Ok(Seq::empty())
    } else {
        match binding_of(bindings[0]) {
            Err(error) => Err(error),
            Ok(first) => bound_before(seq![first], bindings_of(bindings.drop_first())),
        }
    }
}

/// `bindings` before the bindings of an outcome, or the outcome's error.
pub open spec fn bound_before(
    bindings: Seq<BindingView>,
    outcome: Result<Seq<BindingView>, BindErrorView>,
) -> Result<Seq<BindingView>, BindErrorView> {
    match outcome {
        Ok(rest) => Ok(bindings + rest),
        Err(error) => Err(error),
    }
}

/// The binding of the key that takes screenshots.
pub open spec fn screenshot_binding(key: ScreenshotKey) -> BindingView {
    BindingView {
        label: screenshot_key_label(key),
        trigger: seq![screenshot_key_byte(key)],
        action: ActionView::Screenshot,
    }
}

/// Whether a binding waits for exactly these bytes.
pub open spec fn is_bound(trigger: Seq<u8>, bindings: Seq<BindingView>) -> bool {
    exists|i: int| 0 <= i < bindings.len() && (#[trigger] bindings[i]).trigger == trigger
}

/// The given bindings and, unless its key is bound already, the one that takes
/// screenshots.
pub open spec fn with_screenshot_key(
    bindings: Seq<BindingView>,
    key: ScreenshotKey,
) -> Seq<BindingView> {
    if is_bound(seq![screenshot_key_byte(key)], bindings) {
        bindings
    } else {
        bindings.push(screenshot_binding(key))
    }
}

/// A text is sent as it stands, whatever it holds.
pub proof fn law_text_is_sent_as_it_stands(text: Seq<char>)
    ensures
        action_of("text:"@ + text) == Ok::<ActionView, KeyErrorView>(
            ActionView::Send(encode_utf8(text)),
        ),
{
    let value = "text:"@ + text;
    reveal_strlit("text:");
    reveal_strlit("screenshot");
    assert(lower_text(value)[0] == 't');
    assert("text:"@.is_prefix_of(value));
    assert(value.skip("text:"@.len() as int) == text);
}

/// The keys of a list are sent in order: first the one before the first comma,
/// then those behind it.
pub proof fn law_keys_are_sent_in_order(first: Seq<char>, rest: Seq<char>)
    requires
        !first.contains(','),
    ensures
        keys_sent(first) == key_bytes(key_name(trimmed(first))),
        keys_sent(first + seq![','] + rest) == match key_bytes(key_name(trimmed(first))) {
            Ok(bytes) => followed_by(bytes, keys_sent(rest)),
            Err(error) => Err(error),
        },
{
    let list = first + seq![','] + rest;
    lemma_find_char(first, ',', first.len() as int);
    lemma_find_char(list, ',', first.len() as int);
    assert(first.take(first.len() as int) == first);
    assert(list.take(first.len() as int) == first);
    assert(list.skip(first.len() as int + 1) == rest);
}

/// Whatever else is bound, the screenshot key is, and no other binding is lost.
pub proof fn law_screenshot_key_is_bound(bindings: Seq<BindingView>, key: ScreenshotKey)
    ensures
        is_bound(seq![screenshot_key_byte(key)], with_screenshot_key(bindings, key)),
        bindings.is_prefix_of(with_screenshot_key(bindings, key)),
{
    let bound = with_screenshot_key(bindings, key);
    assert(bound.take(bindings.len() as int) == bindings);
    if !is_bound(seq![screenshot_key_byte(key)], bindings) {
        assert(bound[bindings.len() as int] == screenshot_binding(key));
    }
}

/// A key that can be bound sends at least one byte.
pub proof fn lemma_keys_send(name: Seq<char>)
    ensures
        key_bytes(name) is Ok ==> key_bytes(name)->Ok_0.len() > 0,
{
    lemma_named_key_sends(name);
    if name.len() == 1 {
        lemma_encoding_is_longer(name);
    }
}

proof fn lemma_named_key_sends(name: Seq<char>)
    ensures
        named_key(name) is Some ==> named_key(name)->Some_0.len() > 0,
{
}

proof fn lemma_encoding_is_longer(text: Seq<char>)
    requires
        text.len() > 0,
    ensures
        encode_utf8(text).len() > 0,
{
}

/// Reads the right side of a binding.
pub fn parse_binding_action(value: &str) -> (r: Result<BindingAction, KeyError>)
    ensures
        match r {
            Ok(action) => action_of(value@) == Ok::<ActionView, KeyErrorView>(action@),
            Err(error) => action_of(value@) == Err::<ActionView, KeyErrorView>(error@),
        },
{
    if same_text(to_lower(value).as_str(), "screenshot") {
        return Ok(BindingAction::Screenshot);
    }
    if let Some(text) = strip_prefix(value, "text:") {
        assert("text:"@.is_prefix_of(value@));
        assert(value@.skip("text:"@.len() as int) == text@);
        return Ok(BindingAction::Send(bytes_of(text)));
    }
    let list = match strip_prefix(value, "send:") {
        Some(keys) => {
            assert("send:"@.is_prefix_of(value@));
            assert(value@.skip("send:"@.len() as int) == keys@);
            keys
        },
        None => value,
    };
    let chars = chars_of(list);
    let mut bytes: Vec<u8> = Vec::new();
    let mut start: usize = 0;
    assert(list@.skip(0) == list@);
    assert(keys_sent(list@) == followed_by(Seq::empty(), keys_sent(list@)));
    loop
        invariant_except_break
            chars@ == list@,
            start <= chars@.len(),
            keys_sent(list@) == followed_by(bytes@, keys_sent(list@.skip(start as int))),
            action_of(value@) == (match keys_sent(list@) {
                Ok(all) => Ok::<ActionView, KeyErrorView>(ActionView::Send(all)),
                Err(error) => Err(error),
            }),
        ensures
            action_of(value@) == Ok::<ActionView, KeyErrorView>(ActionView::Send(bytes@)),
        decreases chars@.len() - start,
    {
        let end: usize = find_char_from(chars.as_slice(), ',', start);
        let item = list.substring_char(start, end);
        assert(list@.skip(start as int).take(end - start) == item@);
        let chord = match parse_key_chord(trim(item)) {
            Ok(chord) => chord,
            Err(error) => {
                return Err(error);
            },
        };
        let ghost before = bytes@;
        bytes.extend_from_slice(chord.bytes.as_slice());
        assert(bytes@ == before + chord.bytes@);
        if end == chars.len() {
            break;
        }
        proof {
            let rest = list@.skip(start as int);
            assert(rest.skip(end - start + 1) == list@.skip(end + 1));
            assert forall|tail: Seq<u8>| #[trigger]
                (before + (chord.bytes@ + tail)) == bytes@ + tail by {}
        }
        start = end + 1;
    }
    Ok(BindingAction::Send(bytes))
}

/// Reads one binding.
fn parse_binding(binding: &String) -> (r: Result<KeyBinding, BindError>)
    ensures
        match r {
            Ok(bound) => binding_of(binding@) == Ok::<BindingView, BindErrorView>(bound@),
            Err(error) => binding_of(binding@) == Err::<BindingView, BindErrorView>(error@),
        },
{
    let text = binding.as_str();
    let chars = chars_of(text);
    let k: usize = find_char_from(chars.as_slice(), '=', 0);
    assert(chars@.skip(0) == chars@);
    if k == chars.len() {
        return Err(BindError::NoSeparator(text.to_string()));
    }
    let left = text.substring_char(0, k);
    let right = text.substring_char(k + 1, chars.len());
    assert(left@ == binding@.take(k as int));
    assert(right@ == binding@.skip(k + 1));
    let trigger = match parse_key_chord(trim(left)) {
        Ok(chord) => chord,
        Err(error) => {
            return Err(BindError::Key(error));
        },
    };
    match parse_binding_action(trim(right)) {
        Ok(action) => Ok(KeyBinding { trigger, action }),
        Err(error) => Err(BindError::Key(error)),
    }
}

fn same_bytes(a: &Vec<u8>, b: &Vec<u8>) -> (r: bool)
    ensures
        r == (a@ == b@),
{
    if a.len() != b.len() {
        return false;
    }
    let mut i: usize = 0;
    while i < a.len()
        invariant
            i <= a@.len() == b@.len(),
            forall|j: int| 0 <= j < i ==> a@[j] == b@[j],
        decreases a@.len() - i,
    {
        if a[i] != b[i] {
            return false;
        }
        i = i + 1;
    }
    assert(a@ == b@);
    true
}

/// Reads the bindings in order and adds the one of the screenshot key, unless
/// that key is bound to something else.
pub fn compile_key_bindings(
    bind_specs: &[String],
    screenshot_key: ScreenshotKey,
) -> (r: Result<Vec<KeyBinding>, BindError>)
    ensures
        match r {
            Ok(bindings) => bindings_of(texts(bind_specs@)) is Ok && binding_views(bindings@)
                == with_screenshot_key(bindings_of(texts(bind_specs@))->Ok_0, screenshot_key)
                && bindings_wait(binding_views(bindings@)),
            Err(error) => bindings_of(texts(bind_specs@)) == Err::<Seq<BindingView>, BindErrorView>(
                error@,
            ),
        },
{
    let mut bindings: Vec<KeyBinding> = Vec::new();
    let ghost all = texts(bind_specs@);
    let mut i: usize = 0;
    proof {
        assert(all.skip(0) == all);
        assert(binding_views(bindings@) == Seq::<BindingView>::empty());
        assert(bindings_of(all) == bound_before(Seq::empty(), bindings_of(all)));
    }
    while i < bind_specs.len()
        invariant
            all == texts(bind_specs@),
            i <= bind_specs@.len(),
            bindings_of(all) == bound_before(
                binding_views(bindings@),
                bindings_of(all.skip(i as int)),
            ),
            bindings_wait(binding_views(bindings@)),
        decreases bind_specs@.len() - i,
    {
        let ghost before = binding_views(bindings@);
        proof {
            assert(all.skip(i as int)[0] == bind_specs@[i as int]@);
            assert(all.skip(i as int).drop_first() == all.skip(i + 1));
        }
        match parse_binding(&bind_specs[i]) {
            Ok(bound) => {
                proof {
                    lemma_keys_send(bound@.label);
                }
                bindings.push(bound);
                proof {
                    assert(binding_views(bindings@) == before + seq![bound@]);
                    assert forall|tail: Seq<BindingView>| #[trigger]
                        (before + (seq![bound@] + tail)) == binding_views(bindings@) + tail by {}
                }
            },
            Err(error) => {
                return Err(error);
            },
        }
        i = i + 1;
    }
    assert(bindings_of(all.skip(i as int)) == Ok::<Seq<BindingView>, BindErrorView>(Seq::empty()));
    let ghost read = binding_views(bindings@);
    assert(read + Seq::<BindingView>::empty() == read);
    let default_trigger = screenshot_key_to_chord(screenshot_key);
    let mut j: usize = 0;
    let mut has_override = false;
    while j < bindings.len()
        invariant
            j <= bindings@.len(),
            read == binding_views(bindings@),
            has_override == exists|i: int|
                0 <= i < j && (#[trigger] read[i]).trigger == default_trigger.bytes@,
        decreases bindings@.len() - j,
    {
        assert(read[j as int].trigger == bindings@[j as int].trigger.bytes@);
        if same_bytes(&bindings[j].trigger.bytes, &default_trigger.bytes) {
            has_override = true;
        }
        j = j + 1;
    }
    if !has_override {
        bindings.push(KeyBinding { trigger: default_trigger, action: BindingAction::Screenshot });
        assert(binding_views(bindings@) == read.push(screenshot_binding(screenshot_key)));
    }
    Ok(bindings)
}

/// A binding has the key on its left side, with all of its bytes, and the action on
/// its right side.
pub proof fn law_binding_is_key_and_action(left: Seq<char>, right: Seq<char>)
    requires
        !left.contains('='),
    ensures
        binding_of(left + seq!['='] + right) == match key_bytes(key_name(trimmed(left))) {
            Err(error) => Err::<BindingView, BindErrorView>(BindErrorView::Key(error)),
            Ok(bytes) => match action_of(trimmed(right)) {
                Err(error) => Err(BindErrorView::Key(error)),
                Ok(action) => Ok(
                    BindingView {
                        label: key_name(trimmed(left)),
                        trigger: bytes,
                        action,
                    },
                ),
            },
        },
        binding_of(left) == Err::<BindingView, BindErrorView>(BindErrorView::NoSeparator(left)),
{
    let n = left.len() as int;
    let binding = left + seq!['='] + right;
    assert forall|i: int| 0 <= i < n implies left[i] != '=' && binding[i] != '=' by {
        assert(left.contains(left[i]));
    }
    lemma_find_char(left, '=', n);
    lemma_find_char(binding, '=', n);
    assert(binding.take(n) == left);
    assert(binding.skip(n + 1) == right);
}

/// Whoever presses exactly the key on the left side of the first binding gets
/// exactly the action on its right side, and nothing waits for more.
pub proof fn law_pressed_key_does_what_it_is_bound_to(
    left: Seq<char>,
    right: Seq<char>,
    others: Seq<BindingView>,
    rest: Seq<u8>,
    flush: bool,
)
    requires
        !left.contains('='),
        binding_of(left + seq!['='] + right) is Ok,
        bindings_wait(others),
    ensures
        ({
            let bindings = seq![binding_of(left + seq!['='] + right)->Ok_0] + others;
            let key = key_bytes(key_name(trimmed(left)))->Ok_0;
            let action = action_of(trimmed(right))->Ok_0;
            let (actions, after) = processed(rest, bindings, flush);
            &&& key_bytes(key_name(trimmed(left))) is Ok
            &&& action_of(trimmed(right)) is Ok
            &&& bindings_wait(bindings)
            &&& processed(key, bindings, flush) == (seq![action], Seq::<u8>::empty())
            &&& processed(key + rest, bindings, flush) == (seq![action] + actions, after)
        }),
{
    law_binding_is_key_and_action(left, right);
    lemma_keys_send(key_name(trimmed(left)));
    let bindings = seq![binding_of(left + seq!['='] + right)->Ok_0] + others;
    assert forall|i: int| 0 <= i < bindings.len() implies (#[trigger] bindings[i]).trigger.len()
        > 0 by {
        if i > 0 {
            assert(bindings[i] == others[i - 1]);
        }
    }
    law_bound_key_is_obeyed(rest, bindings, 0, flush);
    law_bound_key_is_obeyed(Seq::empty(), bindings, 0, flush);
}

/// Each text describes its own binding, in order; the first that describes none
/// decides the error.
pub proof fn law_bindings_are_read_in_order(bindings: Seq<Seq<char>>, i: int)
    requires
        0 <= i < bindings.len(),
    ensures
        bindings_of(bindings) is Ok ==> {
            let read = bindings_of(bindings)->Ok_0;
            &&& read.len() == bindings.len()
            &&& binding_of(bindings[i]) == Ok::<BindingView, BindErrorView>(read[i])
        },
        (forall|j: int| 0 <= j < i ==> binding_of(#[trigger] bindings[j]) is Ok) && binding_of(
            bindings[i],
        ) is Err ==> bindings_of(bindings) == Err::<Seq<BindingView>, BindErrorView>(
            binding_of(bindings[i])->Err_0,
        ),
        (forall|j: int| 0 <= j < bindings.len() ==> binding_of(#[trigger] bindings[j]) is Ok)
            ==> bindings_of(bindings) is Ok,
    decreases bindings.len(),
{
    let rest = bindings.drop_first();
    assert(forall|j: int| 0 <= j < rest.len() ==> #[trigger] rest[j] == bindings[j + 1]);
    if i > 0 {
        law_bindings_are_read_in_order(rest, i - 1);
        assert(rest[i - 1] == bindings[i]);
    } else if rest.len() > 0 {
        law_bindings_are_read_in_order(rest, 0);
    } else {
        assert(bindings_of(rest) == Ok::<Seq<BindingView>, BindErrorView>(Seq::empty()));
    }
    assert forall|j: int| 0 <= j < rest.len() && (forall|k: int|
        0 <= k < bindings.len() ==> binding_of(#[trigger] bindings[k]) is Ok) implies binding_of(
        #[trigger] rest[j],
    ) is Ok by {
        assert(rest[j] == bindings[j + 1]);
    }
    assert forall|j: int| 0 <= j < i - 1 && (forall|k: int|
        0 <= k < i ==> binding_of(#[trigger] bindings[k]) is Ok) implies binding_of(
        #[trigger] rest[j],
    ) is Ok by {
        assert(rest[j] == bindings[j + 1]);
    }
    if i > 0 {
        assert(bindings_of(rest) is Err || bindings_of(rest) is Ok);
    }
}

/// The word for a screenshot asks for one however it is written; keys can be named
/// with or without `send:` before them.
pub proof fn law_actions_are_told_apart(value: Seq<char>)
    ensures
        lower_text(value) == "screenshot"@ ==> action_of(value) == Ok::<ActionView, KeyErrorView>(
            ActionView::Screenshot,
        ),
        action_of("send:"@ + value) == match keys_sent(value) {
            Ok(bytes) => Ok::<ActionView, KeyErrorView>(ActionView::Send(bytes)),
            Err(error) => Err(error),
        },
        lower_text(value) != "screenshot"@ && !("text:"@.is_prefix_of(value)) && !(
        "send:"@.is_prefix_of(value)) ==> action_of(value) == action_of("send:"@ + value),
        action_of(value) == Ok::<ActionView, KeyErrorView>(ActionView::Screenshot) ==> lower_text(
            value,
        ) == "screenshot"@,
{
    let sent = "send:"@ + value;
    reveal_strlit("text:");
    reveal_strlit("send:");
    reveal_strlit("screenshot");
    assert(sent[0] == 's' && sent[1] == 'e');
    assert(lower_text(sent)[1] == 'e');
    assert("screenshot"@[1] == 'c');
    assert("text:"@[0] == 't');
    assert(!"text:"@.is_prefix_of(sent)) by {
        if "text:"@.is_prefix_of(sent) {
            assert("text:"@[0] == sent.subrange(0, 5)[0]);
        }
    }
    assert("send:"@.is_prefix_of(sent)) by {
        assert("send:"@ =~= sent.subrange(0, 5));
    }
    assert(sent.skip(5) == value);
}

/// Unless its key is bound to something else, the screenshot key takes a screenshot
/// when nothing else starts with its byte.
pub proof fn law_screenshot_key_takes_a_screenshot(
    bindings: Seq<BindingView>,
    key: ScreenshotKey,
    flush: bool,
)
    requires
        bindings_wait(bindings),
        forall|j: int|
            0 <= j < bindings.len() ==> (#[trigger] bindings[j]).trigger != seq![
                screenshot_key_byte(key),
            ],
    ensures
        with_screenshot_key(bindings, key).len() == bindings.len() + 1,
        processed(
            seq![screenshot_key_byte(key)],
            with_screenshot_key(bindings, key),
            flush,
        ) == (seq![ActionView::Screenshot], Seq::<u8>::empty()),
        bindings_wait(with_screenshot_key(bindings, key)),
{
    let b = seq![screenshot_key_byte(key)];
    let bound = with_screenshot_key(bindings, key);
    let n = bindings.len() as int;
    assert(!is_bound(b, bindings));
    assert(bound[n] == screenshot_binding(key));
    assert forall|i: int| 0 <= i < bound.len() implies (#[trigger] bound[i]).trigger.len() > 0 by {
        if i < n {
            assert(bound[i] == bindings[i]);
        }
    }
    assert forall|j: int| 0 <= j < n implies !(#[trigger] bound[j]).trigger.is_prefix_of(
        bound[n].trigger + Seq::<u8>::empty(),
    ) by {
        assert(bound[j] == bindings[j]);
        let u = bindings[j].trigger;
        assert(bound[n].trigger + Seq::<u8>::empty() == b);
        if u.is_prefix_of(b) {
            assert(u.len() == 1);
            assert(u =~= b.subrange(0, 1));
            assert(u == b);
        }
    }
    law_bound_key_is_obeyed(Seq::empty(), bound, n, flush);
}

} // verus!
