//! Templates with `{token}` places.
use crate::model::texts;
use crate::text::{
    chars_of, find_char, find_char_from, lemma_find_char, lemma_find_char_bounds,
};
use vstd::prelude::*;
use vstd::string::{StrSliceExecFns, StringExecFns};

verus! {

/// Whether `out` is `template` with its tokens filled in. `resolves` relates a
/// token to the values that it may have; a token without a value stays as it
/// stands, braces included. A brace that is never closed ends the search.
pub open spec fn expands(
    template: Seq<char>,
    resolves: spec_fn(Seq<char>, Option<Seq<char>>) -> bool,
    out: Seq<char>,
) -> bool
    decreases template.len(),
    via expands_shrinks
{
    if template.len() == 0 {
        out.len() == 0
    } else if template[0] != '{' {
        &&& out.len() > 0
        &&& out[0] == template[0]
        &&& expands(template.drop_first(), resolves, out.drop_first())
    } else {
        let rest = template.drop_first();
        let k = find_char(rest, '}');
        if k >= rest.len() {
            out == template
        } else {
            exists|value: Option<Seq<char>>|
                #![trigger resolves(rest.take(k), value)]
                resolves(rest.take(k), value) && {
                    let piece = filled(rest.take(k), value);
                    &&& piece.is_prefix_of(out)
                    &&& expands(rest.skip(k + 1), resolves, out.skip(piece.len() as int))
                }
        }
    }
}

#[via_fn]
proof fn expands_shrinks(
    template: Seq<char>,
    resolves: spec_fn(Seq<char>, Option<Seq<char>>) -> bool,
    out: Seq<char>,
) {
    lemma_find_char_bounds(template.drop_first(), '}');
}

/// What stands in the place of a token.
pub open spec fn filled(token: Seq<char>, value: Option<Seq<char>>) -> Seq<char> {
    match value {
        Some(text) => text,
        None => seq!['{'] + token + seq!['}'],
    }
}

/// `template` with the value of each token filled in.
pub open spec fn expanded(
    template: Seq<char>,
    value: spec_fn(Seq<char>) -> Option<Seq<char>>,
) -> Seq<char>
    decreases template.len(),
    via expanded_shrinks
{
    if template.len() == 0 {
        template
    } else if template[0] != '{' {
        seq![template[0]] + expanded(template.drop_first(), value)
    } else {
        let rest = template.drop_first();
        let k = find_char(rest, '}');
        if k >= rest.len() {
            template
        } else {
            filled(rest.take(k), value(rest.take(k))) + expanded(rest.skip(k + 1), value)
        }
    }
}

#[via_fn]
proof fn expanded_shrinks(
    template: Seq<char>,
    value: spec_fn(Seq<char>) -> Option<Seq<char>>,
) {
    lemma_find_char_bounds(template.drop_first(), '}');
}

/// The text of an optional string.
pub open spec fn optional_text(value: Option<String>) -> Option<Seq<char>> {
    match value {
        Some(text) => Some(text@),
        None => None,
    }
}

/// The text of a string slice that may be absent.
pub open spec fn optional_str(value: Option<&str>) -> Option<Seq<char>> {
    match value {
        Some(text) => Some(text@),
        None => None,
    }
}

/// Whether `resolve` may answer `token` with `value`.
pub open spec fn answers<F: FnMut(&str) -> Option<String>>(
    resolve: F,
    token: Seq<char>,
    value: Option<Seq<char>>,
) -> bool {
    exists|t: &str, v: Option<String>|
        #[trigger] call_ensures(resolve, (t,), v) && t@ == token && optional_text(v) == value
}

/// The answers of `resolve`, as a relation.
pub open spec fn answers_of<F: FnMut(&str) -> Option<String>>(resolve: F) -> spec_fn(
    Seq<char>,
    Option<Seq<char>>,
) -> bool {
    |token: Seq<char>, value: Option<Seq<char>>| answers(resolve, token, value)
}

/// A relation that admits more values admits the same expansions.
pub proof fn lemma_expands_weaker(
    template: Seq<char>,
    resolves: spec_fn(Seq<char>, Option<Seq<char>>) -> bool,
    weaker: spec_fn(Seq<char>, Option<Seq<char>>) -> bool,
    out: Seq<char>,
)
    requires
        forall|token: Seq<char>, v: Option<Seq<char>>| #[trigger]
            resolves(token, v) ==> weaker(token, v),
        expands(template, resolves, out),
    ensures
        expands(template, weaker, out),
    decreases template.len(),
{
    if template.len() > 0 {
        if template[0] != '{' {
            lemma_expands_weaker(template.drop_first(), resolves, weaker, out.drop_first());
        } else {
            let rest = template.drop_first();
            let k = find_char(rest, '}');
            lemma_find_char_bounds(rest, '}');
            if k < rest.len() {
                let token = rest.take(k);
                let v = choose|v: Option<Seq<char>>|
                    #![trigger resolves(token, v)]
                    resolves(token, v) && {
                        let piece = filled(token, v);
                        &&& piece.is_prefix_of(out)
                        &&& expands(rest.skip(k + 1), resolves, out.skip(piece.len() as int))
                    };
                let piece = filled(token, v);
                lemma_expands_weaker(
                    rest.skip(k + 1),
                    resolves,
                    weaker,
                    out.skip(piece.len() as int),
                );
                assert(weaker(token, v));
            }
        }
    }
}

/// Where every token has one value, the expansion is the template with those
/// values filled in.
pub proof fn law_values_decide_expansion(
    template: Seq<char>,
    resolves: spec_fn(Seq<char>, Option<Seq<char>>) -> bool,
    value: spec_fn(Seq<char>) -> Option<Seq<char>>,
    out: Seq<char>,
)
    requires
        forall|token: Seq<char>, v: Option<Seq<char>>|
            #[trigger] resolves(token, v) ==> v == value(token),
        expands(template, resolves, out),
    ensures
        out == expanded(template, value),
    decreases template.len(),
{
    if template.len() > 0 {
        if template[0] != '{' {
            law_values_decide_expansion(template.drop_first(), resolves, value, out.drop_first());
            assert(out == seq![out[0]] + out.drop_first());
        } else {
            let rest = template.drop_first();
            let k = find_char(rest, '}');
            lemma_find_char_bounds(rest, '}');
            if k < rest.len() {
                let token = rest.take(k);
                let v = choose|v: Option<Seq<char>>|
                    #![trigger resolves(token, v)]
                    resolves(token, v) && {
                        let piece = filled(token, v);
                        &&& piece.is_prefix_of(out)
                        &&& expands(rest.skip(k + 1), resolves, out.skip(piece.len() as int))
                    };
                let piece = filled(token, v);
                law_values_decide_expansion(
                    rest.skip(k + 1),
                    resolves,
                    value,
                    out.skip(piece.len() as int),
                );
                assert(out == piece + out.skip(piece.len() as int));
            }
        }
    } else {
        assert(out == template);
    }
}

/// Where no token has a value, the template comes out as it went in.
pub proof fn law_unknown_tokens_stay(
    template: Seq<char>,
    resolves: spec_fn(Seq<char>, Option<Seq<char>>) -> bool,
    out: Seq<char>,
)
    requires
        forall|token: Seq<char>, v: Option<Seq<char>>|
            #[trigger] resolves(token, v) ==> v is None,
        expands(template, resolves, out),
    ensures
        out == template,
{
    law_values_decide_expansion(template, resolves, |token: Seq<char>| None, out);
    lemma_nothing_filled(template);
}

proof fn lemma_nothing_filled(template: Seq<char>)
    ensures
        expanded(template, |token: Seq<char>| None) == template,
    decreases template.len(),
{
    let none = |token: Seq<char>| None::<Seq<char>>;
    if template.len() > 0 {
        let rest = template.drop_first();
        if template[0] != '{' {
            lemma_nothing_filled(rest);
            assert(seq![template[0]] + rest == template);
        } else {
            let k = find_char(rest, '}');
            lemma_find_char_bounds(rest, '}');
            if k < rest.len() {
                lemma_nothing_filled(rest.skip(k + 1));
                assert(seq!['{'] + rest.take(k) + seq!['}'] + rest.skip(k + 1) == template);
            }
        }
    }
}

/// The template made of a plain text, a token and the rest.
pub open spec fn with_token(lit: Seq<char>, token: Seq<char>, rest: Seq<char>) -> Seq<char> {
    lit + seq!['{'] + token + seq!['}'] + rest
}

/// The first token of a template is filled in by itself: before it stands the text
/// before it, behind it the expansion of the rest. Text without tokens, and a token
/// that is never closed, stay.
pub proof fn law_first_token_is_filled(
    lit: Seq<char>,
    token: Seq<char>,
    rest: Seq<char>,
    value: spec_fn(Seq<char>) -> Option<Seq<char>>,
)
    requires
        !lit.contains('{'),
        !token.contains('}'),
    ensures
        expanded(with_token(lit, token, rest), value) == lit + filled(token, value(token))
            + expanded(rest, value),
        expanded(lit, value) == lit,
        expanded(lit + seq!['{'] + token, value) == lit + seq!['{'] + token,
    decreases lit.len(),
{
    let whole = with_token(lit, token, rest);
    let open = lit + seq!['{'] + token;
    if lit.len() == 0 {
        lemma_token_ends(lit, token, rest);
        assert(lit + filled(token, value(token)) == filled(token, value(token)));
    } else {
        let less = lit.drop_first();
        lemma_shorter_lit(lit, token, rest);
        law_first_token_is_filled(less, token, rest, value);
        assert(seq![lit[0]] + less == lit);
        assert(seq![lit[0]] + (less + filled(token, value(token)) + expanded(rest, value)) == lit
            + filled(token, value(token)) + expanded(rest, value));
        assert(seq![lit[0]] + (less + seq!['{'] + token) == open);
    }
}

proof fn lemma_token_ends(lit: Seq<char>, token: Seq<char>, rest: Seq<char>)
    requires
        lit.len() == 0,
        !token.contains('}'),
    ensures
        ({
            let whole = with_token(lit, token, rest);
            let tail = whole.drop_first();
            &&& whole.len() > 0 && whole[0] == '{'
            &&& find_char(tail, '}') == token.len() < tail.len()
            &&& tail.take(token.len() as int) == token
            &&& tail.skip(token.len() as int + 1) == rest
        }),
        ({
            let open = lit + seq!['{'] + token;
            &&& open.len() > 0 && open[0] == '{'
            &&& find_char(open.drop_first(), '}') == open.drop_first().len()
        }),
{
    let tail = with_token(lit, token, rest).drop_first();
    let open = (lit + seq!['{'] + token).drop_first();
    assert(tail == token + seq!['}'] + rest);
    assert(open == token);
    lemma_find_char(tail, '}', token.len() as int);
    lemma_find_char(open, '}', token.len() as int);
    assert(tail.take(token.len() as int) == token);
    assert(tail.skip(token.len() as int + 1) == rest);
}

proof fn lemma_shorter_lit(lit: Seq<char>, token: Seq<char>, rest: Seq<char>)
    requires
        lit.len() > 0,
        !lit.contains('{'),
    ensures
        lit[0] != '{',
        !lit.drop_first().contains('{'),
        with_token(lit, token, rest).len() > 0,
        with_token(lit, token, rest)[0] == lit[0],
        with_token(lit, token, rest).drop_first() == with_token(lit.drop_first(), token, rest),
        (lit + seq!['{'] + token)[0] == lit[0],
        (lit + seq!['{'] + token).drop_first() == lit.drop_first() + seq!['{'] + token,
{
    assert(lit.contains(lit[0]));
    let less = lit.drop_first();
    assert forall|i: int| 0 <= i < less.len() implies less[i] != '{' by {
        assert(lit.contains(lit[i + 1]));
    }
    assert(with_token(lit, token, rest).drop_first() == with_token(less, token, rest));
    assert((lit + seq!['{'] + token).drop_first() == less + seq!['{'] + token);
}

/// The same where a token may have several values: the first token gets one of its
/// own, and nothing is asked about text without tokens.
pub proof fn law_first_token_is_asked(
    lit: Seq<char>,
    token: Seq<char>,
    rest: Seq<char>,
    resolves: spec_fn(Seq<char>, Option<Seq<char>>) -> bool,
    out: Seq<char>,
)
    requires
        !lit.contains('{'),
        !token.contains('}'),
    ensures
        expands(with_token(lit, token, rest), resolves, out) == exists|v: Option<Seq<char>>|
            #![trigger resolves(token, v)]
            resolves(token, v) && (lit + filled(token, v)).is_prefix_of(out) && expands(
                rest,
                resolves,
                out.skip((lit + filled(token, v)).len() as int),
            ),
        expands(lit, resolves, out) == (out == lit),
        expands(lit + seq!['{'] + token, resolves, out) == (out == lit + seq!['{'] + token),
    decreases lit.len(),
{
    let open = lit + seq!['{'] + token;
    if lit.len() == 0 {
        lemma_token_ends(lit, token, rest);
        assert forall|v: Option<Seq<char>>| lit + filled(token, v) == #[trigger] filled(
            token,
            v,
        ) by {}
        assert(expands(lit, resolves, out) == (out == lit)) by {
            if out.len() == 0 {
                assert(out == lit);
            }
        }
    } else {
        let less = lit.drop_first();
        let tail = out.drop_first();
        lemma_shorter_lit(lit, token, rest);
        law_first_token_is_asked(less, token, rest, resolves, tail);
        assert(seq![lit[0]] + less == lit);
        assert(seq![lit[0]] + (less + seq!['{'] + token) == open);
        if out.len() > 0 && out[0] == lit[0] {
            assert(seq![lit[0]] + tail == out);
            assert forall|v: Option<Seq<char>>| #[trigger] resolves(token, v) implies (lit
                + filled(token, v)).is_prefix_of(out) == (less + filled(token, v)).is_prefix_of(
                tail,
            ) && ((lit + filled(token, v)).is_prefix_of(out) ==> out.skip(
                (lit + filled(token, v)).len() as int,
            ) == tail.skip((less + filled(token, v)).len() as int)) by {
                lemma_prefix_behind_first(lit, filled(token, v), out);
            }
        } else {
            assert forall|v: Option<Seq<char>>| #[trigger] resolves(token, v) implies !(lit
                + filled(token, v)).is_prefix_of(out) by {
                let lead = lit + filled(token, v);
                if lead.is_prefix_of(out) {
                    assert(out.subrange(0, lead.len() as int)[0] == lead[0]);
                }
            }
        }
    }
}

proof fn lemma_prefix_behind_first(lit: Seq<char>, piece: Seq<char>, out: Seq<char>)
    requires
        lit.len() > 0,
        out.len() > 0,
        out[0] == lit[0],
    ensures
        (lit + piece).is_prefix_of(out) == (lit.drop_first() + piece).is_prefix_of(
            out.drop_first(),
        ),
        (lit + piece).is_prefix_of(out) ==> out.skip((lit + piece).len() as int)
            == out.drop_first().skip((lit.drop_first() + piece).len() as int),
{
    let lead = lit + piece;
    let less = lit.drop_first() + piece;
    let tail = out.drop_first();
    assert(lead.drop_first() == less);
    if lead.is_prefix_of(out) {
        assert(less =~= tail.subrange(0, less.len() as int)) by {
            assert forall|i: int| 0 <= i < less.len() implies less[i] == tail[i] by {
                assert(out.subrange(0, lead.len() as int)[i + 1] == lead[i + 1]);
            }
        }
    }
    if less.is_prefix_of(tail) {
        assert(lead =~= out.subrange(0, lead.len() as int)) by {
            assert forall|i: int| 0 <= i < lead.len() implies lead[i] == out[i] by {
                if i > 0 {
                    assert(tail.subrange(0, less.len() as int)[i - 1] == less[i - 1]);
                }
            }
        }
    }
    if lead.len() <= out.len() {
        assert(out.skip(lead.len() as int) == tail.skip(less.len() as int));
    }
}

/// The tokens of a template, in order. A token that occurs twice is there twice.
pub open spec fn asked(template: Seq<char>) -> Seq<Seq<char>>
    decreases template.len(),
    via asked_shrinks
{
    if template.len() == 0 {
        Seq::empty()
    } else if template[0] != '{' {
        asked(template.drop_first())
    } else {
        let rest = template.drop_first();
        let k = find_char(rest, '}');
        if k >= rest.len() {
            Seq::empty()
        } else {
            seq![rest.take(k)] + asked(rest.skip(k + 1))
        }
    }
}

#[via_fn]
proof fn asked_shrinks(template: Seq<char>) {
    lemma_find_char_bounds(template.drop_first(), '}');
}

/// `template` with the given values in the places of its tokens, in order.
pub open spec fn filled_with(template: Seq<char>, given: Seq<Option<Seq<char>>>) -> Seq<char>
    decreases template.len(),
    via filled_with_shrinks
{
    if template.len() == 0 {
        template
    } else if template[0] != '{' {
        seq![template[0]] + filled_with(template.drop_first(), given)
    } else {
        let rest = template.drop_first();
        let k = find_char(rest, '}');
        if k >= rest.len() {
            template
        } else {
            filled(rest.take(k), given[0]) + filled_with(rest.skip(k + 1), given.drop_first())
        }
    }
}

#[via_fn]
proof fn filled_with_shrinks(template: Seq<char>, given: Seq<Option<Seq<char>>>) {
    lemma_find_char_bounds(template.drop_first(), '}');
}

/// Whether `given` holds one value for each token.
pub open spec fn all_answered(
    tokens: Seq<Seq<char>>,
    resolves: spec_fn(Seq<char>, Option<Seq<char>>) -> bool,
    given: Seq<Option<Seq<char>>>,
) -> bool {
    &&& given.len() == tokens.len()
    &&& forall|i: int|
        #![trigger tokens[i]]
        #![trigger given[i]]
        0 <= i < tokens.len() ==> resolves(tokens[i], given[i])
}

/// An expansion takes one value for each token of the template, in order, and none
/// for the text that it fills in.
pub proof fn law_one_value_for_each_token(
    template: Seq<char>,
    resolves: spec_fn(Seq<char>, Option<Seq<char>>) -> bool,
    out: Seq<char>,
)
    ensures
        expands(template, resolves, out) == exists|given: Seq<Option<Seq<char>>>|
            all_answered(asked(template), resolves, given) && out == #[trigger] filled_with(
                template,
                given,
            ),
{
    if expands(template, resolves, out) {
        let given = lemma_values_taken(template, resolves, out);
        assert(out == filled_with(template, given));
    }
    if exists|given: Seq<Option<Seq<char>>>|
        all_answered(asked(template), resolves, given) && out == #[trigger] filled_with(
            template,
            given,
        ) {
        let given = choose|given: Seq<Option<Seq<char>>>|
            all_answered(asked(template), resolves, given) && out == #[trigger] filled_with(
                template,
                given,
            );
        lemma_filled_with_expands(template, resolves, given);
    }
}

proof fn lemma_values_taken(
    template: Seq<char>,
    resolves: spec_fn(Seq<char>, Option<Seq<char>>) -> bool,
    out: Seq<char>,
) -> (given: Seq<Option<Seq<char>>>)
    requires
        expands(template, resolves, out),
    ensures
        all_answered(asked(template), resolves, given),
        out == filled_with(template, given),
    decreases template.len(),
{
    if template.len() == 0 {
        assert(out == template);
        Seq::empty()
    } else if template[0] != '{' {
        let given = lemma_values_taken(template.drop_first(), resolves, out.drop_first());
        assert(out == seq![out[0]] + out.drop_first());
        given
    } else {
        let rest = template.drop_first();
        let k = find_char(rest, '}');
        lemma_find_char_bounds(rest, '}');
        if k >= rest.len() {
            Seq::empty()
        } else {
            let token = rest.take(k);
            let v = choose|v: Option<Seq<char>>|
                #![trigger resolves(token, v)]
                resolves(token, v) && {
                    let piece = filled(token, v);
                    &&& piece.is_prefix_of(out)
                    &&& expands(rest.skip(k + 1), resolves, out.skip(piece.len() as int))
                };
            let piece = filled(token, v);
            let later = lemma_values_taken(
                rest.skip(k + 1),
                resolves,
                out.skip(piece.len() as int),
            );
            let given = seq![v] + later;
            assert(given.drop_first() == later);
            assert(out == piece + out.skip(piece.len() as int));
            let tokens = asked(template);
            assert forall|i: int|
                #![trigger tokens[i]]
                #![trigger given[i]]
                0 <= i < tokens.len() implies resolves(tokens[i], given[i]) by {
                if i > 0 {
                    assert(tokens[i] == asked(rest.skip(k + 1))[i - 1]);
                    assert(given[i] == later[i - 1]);
                }
            }
            given
        }
    }
}

proof fn lemma_filled_with_expands(
    template: Seq<char>,
    resolves: spec_fn(Seq<char>, Option<Seq<char>>) -> bool,
    given: Seq<Option<Seq<char>>>,
)
    requires
        all_answered(asked(template), resolves, given),
    ensures
        expands(template, resolves, filled_with(template, given)),
    decreases template.len(),
{
    let out = filled_with(template, given);
    if template.len() > 0 {
        let rest = template.drop_first();
        if template[0] != '{' {
            lemma_filled_with_expands(rest, resolves, given);
            assert(out.drop_first() == filled_with(rest, given));
        } else {
            let k = find_char(rest, '}');
            lemma_find_char_bounds(rest, '}');
            if k < rest.len() {
                let later = asked(rest.skip(k + 1));
                let tail = given.drop_first();
                let tokens = asked(template);
                assert forall|i: int|
                    #![trigger later[i]]
                    #![trigger tail[i]]
                    0 <= i < later.len() implies resolves(later[i], tail[i]) by {
                    assert(tokens[i + 1] == later[i]);
                    assert(given[i + 1] == tail[i]);
                }
                lemma_filled_with_expands(rest.skip(k + 1), resolves, tail);
                let piece = filled(rest.take(k), given[0]);
                assert(tokens[0] == rest.take(k));
                assert(resolves(rest.take(k), given[0]));
                assert(out.subrange(0, piece.len() as int) == piece);
                assert(out.skip(piece.len() as int) == filled_with(rest.skip(k + 1), tail));
            }
        }
    }
}

/// The tokens of a template are those of its parts, in order.
pub proof fn law_tokens_in_order(lit: Seq<char>, token: Seq<char>, rest: Seq<char>)
    requires
        !lit.contains('{'),
        !token.contains('}'),
    ensures
        asked(with_token(lit, token, rest)) == seq![token] + asked(rest),
        asked(lit) == Seq::<Seq<char>>::empty(),
        asked(lit + seq!['{'] + token) == Seq::<Seq<char>>::empty(),
    decreases lit.len(),
{
    if lit.len() == 0 {
        lemma_token_ends(lit, token, rest);
    } else {
        lemma_shorter_lit(lit, token, rest);
        law_tokens_in_order(lit.drop_first(), token, rest);
    }
}

/// The texts of values that may be absent.
pub open spec fn values_of(given: Seq<Option<String>>) -> Seq<Option<Seq<char>>> {
    given.map_values(|value: Option<String>| optional_text(value))
}

/// The tokens of a template, in order.
pub fn template_tokens(template: &str) -> (r: Vec<String>)
    ensures
        texts(r@) == asked(template@),
{
    let chars = chars_of(template);
    let ghost text = template@;
    let mut tokens: Vec<String> = Vec::new();
    let mut i: usize = 0;
    assert(text.skip(0) == text);
    assert(texts(tokens@) + asked(text) == asked(text));
    loop
        invariant_except_break
            text == template@,
            chars@ == text,
            i <= text.len(),
            texts(tokens@) + asked(text.skip(i as int)) == asked(text),
        ensures
            texts(tokens@) == asked(text),
        decreases text.len() - i,
    {
        let ghost here = text.skip(i as int);
        let ghost before = texts(tokens@);
        let ghost rest = here.drop_first();
        if i == chars.len() {
            assert(before + Seq::<Seq<char>>::empty() == before);
            break;
        }
        assert(rest == text.skip(i + 1));
        if chars[i] != '{' {
            i = i + 1;
        } else {
            let close: usize = find_char_from(chars.as_slice(), '}', i + 1);
            if close == chars.len() {
                assert(before + Seq::<Seq<char>>::empty() == before);
                break;
            }
            let token = template.substring_char(i + 1, close).to_owned();
            tokens.push(token);
            proof {
                let k = close - i - 1;
                let later = asked(text.skip(close + 1));
                assert(token@ == rest.take(k));
                assert(rest.skip(k + 1) == text.skip(close + 1));
                assert(texts(tokens@) == before.push(token@));
                assert(before + (seq![token@] + later) == texts(tokens@) + later);
            }
            i = close + 1;
        }
    }
    tokens
}

/// Puts values in the places of the tokens of a template, in order. Tokens without
/// a value, and an opening brace that is never closed, stay as they are.
pub fn fill_template(template: &str, given: &Vec<Option<String>>) -> (r: String)
    requires
        given@.len() == asked(template@).len(),
    ensures
        r@ == filled_with(template@, values_of(given@)),
{
    let chars = chars_of(template);
    let ghost text = template@;
    let ghost values = values_of(given@);
    let ghost whole = filled_with(text, values);
    let mut out = String::new();
    let mut i: usize = 0;
    let mut n: usize = 0;
    assert(text.skip(0) == text);
    assert(values.skip(0) == values);
    assert(out@ + whole == whole);
    loop
        invariant_except_break
            text == template@,
            values == values_of(given@),
            chars@ == text,
            i <= text.len(),
            n + asked(text.skip(i as int)).len() == given@.len(),
            out@ + filled_with(text.skip(i as int), values.skip(n as int)) == whole,
        ensures
            out@ == whole,
        decreases text.len() - i,
    {
        let ghost here = text.skip(i as int);
        let ghost left = values.skip(n as int);
        let ghost before = out@;
        let ghost rest = here.drop_first();
        if i == chars.len() {
            assert(here == Seq::<char>::empty());
            assert(before + here == before);
            break;
        }
        assert(rest == text.skip(i + 1));
        if chars[i] != '{' {
            out.push(chars[i]);
            assert(before + (seq![here[0]] + filled_with(rest, left)) == out@ + filled_with(
                rest,
                left,
            ));
            i = i + 1;
        } else {
            let close: usize = find_char_from(chars.as_slice(), '}', i + 1);
            if close == chars.len() {
                out.append(template.substring_char(i, chars.len()));
                assert(here == text.subrange(i as int, text.len() as int));
                break;
            }
            let token = template.substring_char(i + 1, close);
            proof {
                let k = close - i - 1;
                assert(token@ == rest.take(k));
                assert(rest.skip(k + 1) == text.skip(close + 1));
                assert(left[0] == optional_text(given@[n as int]));
                assert(left.drop_first() == values.skip(n + 1));
            }
            match &given[n] {
                Some(value) => {
                    out.append(value.as_str());
                },
                None => {
                    out.push('{');
                    out.append(token);
                    out.push('}');
                },
            }
            proof {
                let piece = filled(token@, left[0]);
                let later = filled_with(text.skip(close + 1), values.skip(n + 1));
                assert(out@ == before + piece);
                assert(before + (piece + later) == out@ + later);
            }
            assert(n < given.len());
            n = n + 1;
            i = close + 1;
        }
    }
    out
}

/// Fills in the tokens of a template: `resolve` is asked for the value of each, in
/// order. What Verus knows of a call of `resolve` is its argument and its answer, so
/// that it is called once for each token stands in the body and not in the contract.
pub fn expand_template<F: FnMut(&str) -> Option<String>>(
    template: &str,
    mut resolve: F,
) -> (r: String)
    requires
        forall|token: &str| call_requires(resolve, (token,)),
    ensures
        expands(template@, answers_of(resolve), r@),
{
    let tokens = template_tokens(template);
    let ghost relation = answers_of(resolve);
    let mut given: Vec<Option<String>> = Vec::new();
    let mut i: usize = 0;
    while i < tokens.len()
        invariant
            i <= tokens@.len(),
            given@.len() == i,
            relation == answers_of(resolve),
            forall|token: &str| call_requires(resolve, (token,)),
            forall|k: int|
                0 <= k < i ==> relation(tokens@[k]@, optional_text(#[trigger] given@[k])),
        decreases tokens@.len() - i,
    {
        let token = tokens[i].as_str();
        let value = resolve(token);
        assert(answers(resolve, token@, optional_text(value)));
        given.push(value);
        i = i + 1;
    }
    proof {
        let values = values_of(given@);
        let questions = asked(template@);
        assert(questions.len() == tokens@.len());
        assert forall|k: int|
            #![trigger questions[k]]
            #![trigger values[k]]
            0 <= k < questions.len() implies relation(questions[k], values[k]) by {
            assert(questions[k] == tokens@[k]@);
            assert(values[k] == optional_text(given@[k]));
        }
        lemma_filled_with_expands(template@, relation, values);
    }
    fill_template(template, &given)
}

/// A token that has a value gives way to the whole value, whatever it holds; one that
/// has none stays in its braces.
pub proof fn law_token_gives_way_to_its_value(token: Seq<char>, text: Seq<char>)
    ensures
        filled(token, Some(text)) == text,
        filled(token, None) == seq!['{'] + token + seq!['}'],
{
}

} // verus!
