//! Rewriting matches on a line without moving what stands behind them, and
//! cutting a line back into terminal cells.
use crate::boundary::{
    char_width, find_spans, measure_char, measure_str, printable_ascii, regex_spans, spans_fit,
    steady, steady_text, steady_text_width, steady_width, str_width,
};
use crate::model::{KindView, OutputTransformKind, OutputTransformRule, texts};
use crate::text::{
    byte_to_char_idx, chars_before, chars_of, lemma_chars_before, lemma_chars_before_order,
    lemma_encode_concat,
};
use vstd::prelude::*;
use vstd::string::StrSliceExecFns;
use vstd::utf8::*;

verus! {

broadcast use vstd::string::group_string_axioms;

/// The columns that a character takes on the screen; a control character takes
/// none.
pub open spec fn columns(c: char) -> nat {
    if steady(c) {
        steady_width(c)
    } else {
        match char_width(c) {
            Some(w) => w as nat,
            None => 0,
        }
    }
}

/// The columns of the characters of a text, added up.
pub open spec fn total_columns(text: Seq<char>) -> nat
    decreases text.len(),
{
    if text.len() == 0 {
        0
    } else {
        columns(text[0]) + total_columns(text.drop_first())
    }
}

/// The width of a text as a whole.
pub open spec fn text_width(text: Seq<char>) -> nat {
    if steady_text(text) {
        steady_text_width(text)
    } else {
        str_width(text) as nat
    }
}

/// A run of spaces.
pub open spec fn spaces(n: nat) -> Seq<char> {
    Seq::new(n, |i: int| ' ')
}

/// As much of `text` as fits into `width` columns, filled up with spaces.
pub open spec fn fitted(text: Seq<char>, width: nat) -> Seq<char>
    decreases text.len(),
{
    if text.len() == 0 || columns(text[0]) > width {
        spaces(width)
    } else {
        seq![text[0]] + fitted(text.drop_first(), (width - columns(text[0])) as nat)
    }
}

/// What takes the place of a match.
pub open spec fn rewritten(matched: Seq<char>, kind: KindView) -> Seq<char> {
    match kind {
        KindView::Replace(text) => fitted(text, text_width(matched)),
        KindView::Mask(c) => Seq::new(text_width(matched), |i: int| c),
    }
}

/// Byte ranges as character ranges.
pub open spec fn char_ranges(text: Seq<char>, spans: Seq<(usize, usize)>) -> Seq<(int, int)> {
    spans.map_values(
        |m: (usize, usize)|
            (chars_before(text, m.0 as int) as int, chars_before(text, m.1 as int) as int),
    )
}

/// `text` from position `from` on, with every non-empty range replaced.
pub open spec fn replaced(
    text: Seq<char>,
    ranges: Seq<(int, int)>,
    kind: KindView,
    from: int,
) -> Seq<char>
    decreases ranges.len(),
{
    if ranges.len() == 0 {
        text.skip(from)
    } else {
        let (start, end) = ranges[0];
        let piece = if start < end {
            rewritten(text.subrange(start, end), kind)
        } else {
            Seq::empty()
        };
        text.subrange(from, start) + piece + replaced(text, ranges.drop_first(), kind, end)
    }
}

/// A line after one rule.
pub open spec fn transformed_by(text: Seq<char>, rule: OutputTransformRule) -> Seq<char> {
    replaced(text, char_ranges(text, regex_spans(rule.regex, text)), rule.kind@, 0)
}

/// A line after all rules, each working on what the rules before it left.
pub open spec fn transformed(text: Seq<char>, rules: Seq<OutputTransformRule>) -> Seq<char>
    decreases rules.len(),
{
    if rules.len() == 0 {
        text
    } else {
        transformed_by(transformed(text, rules.drop_last()), rules.last())
    }
}

/// Whether what takes the place of a match has the columns of its characters: the
/// match is as wide as its characters together, and with a mask every column of
/// it is one mask character.
pub open spec fn keeps_columns(matched: Seq<char>, kind: KindView) -> bool {
    match kind {
        KindView::Replace(_) => text_width(matched) == total_columns(matched),
        KindView::Mask(c) => text_width(matched) * columns(c) == total_columns(matched),
    }
}

/// Printable ASCII and ideographs, rewritten by a text or by a mask that is one
/// column wide, keep their columns.
pub proof fn law_steady_matches_keep_columns(matched: Seq<char>, kind: KindView)
    requires
        steady_text(matched),
        kind matches KindView::Mask(c) ==> columns(c) == 1,
    ensures
        keeps_columns(matched, kind),
        total_columns(rewritten(matched, kind)) == text_width(matched),
{
    lemma_steady_columns(matched);
    lemma_rewritten_columns(matched, kind);
}

/// A text of steady characters is as wide as its columns.
pub proof fn lemma_steady_columns(text: Seq<char>)
    requires
        steady_text(text),
    ensures
        total_columns(text) == steady_text_width(text),
        total_columns(text) == text_width(text),
    decreases text.len(),
{
    if text.len() > 0 {
        let rest = text.drop_first();
        assert forall|i: int| 0 <= i < rest.len() implies steady(#[trigger] rest[i]) by {
            assert(rest[i] == text[i + 1]);
        }
        lemma_steady_columns(rest);
    }
}

/// Whether what a rule puts in the place of a match is made of printable ASCII and
/// ideographs; a mask has to be printable ASCII.
pub open spec fn steady_kind(kind: KindView) -> bool {
    match kind {
        KindView::Replace(text) => steady_text(text),
        KindView::Mask(c) => printable_ascii(c),
    }
}

/// The same of all rules.
pub open spec fn steady_rules(rules: Seq<OutputTransformRule>) -> bool {
    forall|i: int| 0 <= i < rules.len() ==> steady_kind((#[trigger] rules[i]).kind@)
}

/// The rules of two lists, one behind the other, rewrite a line as the first list
/// and then the second do.
pub proof fn law_rules_one_after_the_other(
    text: Seq<char>,
    a: Seq<OutputTransformRule>,
    b: Seq<OutputTransformRule>,
)
    ensures
        transformed(text, a + b) == transformed(transformed(text, a), b),
    decreases b.len(),
{
    if b.len() == 0 {
        assert(a + b == a);
    } else {
        law_rules_one_after_the_other(text, a, b.drop_last());
        assert((a + b).drop_last() == a + b.drop_last());
        assert((a + b).last() == b.last());
    }
}

/// Every match that a rule finds in `text` is rewritten to the columns of its
/// characters.
pub open spec fn rule_keeps_columns(text: Seq<char>, rule: OutputTransformRule) -> bool {
    forall|i: int|
        #![trigger char_ranges(text, regex_spans(rule.regex, text))[i]]
        0 <= i < regex_spans(rule.regex, text).len() ==> {
            let (start, end) = char_ranges(text, regex_spans(rule.regex, text))[i];
            keeps_columns(text.subrange(start, end), rule.kind@)
        }
}

/// The same of all rules, each on what the rules before it left.
pub open spec fn rules_keep_columns(text: Seq<char>, rules: Seq<OutputTransformRule>) -> bool
    decreases rules.len(),
{
    rules.len() == 0 || (rules_keep_columns(text, rules.drop_last()) && rule_keeps_columns(
        transformed(text, rules.drop_last()),
        rules.last(),
    ))
}

/// Columns add up over parts.
pub proof fn lemma_total_columns_concat(a: Seq<char>, b: Seq<char>)
    ensures
        total_columns(a + b) == total_columns(a) + total_columns(b),
    decreases a.len(),
{
    if a.len() == 0 {
        assert(a + b == b);
    } else {
        lemma_total_columns_concat(a.drop_first(), b);
        assert((a + b).drop_first() == a.drop_first() + b);
    }
}

proof fn lemma_columns_of_run(c: char, n: nat)
    ensures
        total_columns(Seq::new(n, |i: int| c)) == n * columns(c),
    decreases n,
{
    let run = Seq::new(n, |i: int| c);
    if n > 0 {
        let less = (n - 1) as nat;
        lemma_columns_of_run(c, less);
        assert(run.drop_first() == Seq::new(less, |i: int| c));
        assert(n * columns(c) == columns(c) + less * columns(c)) by (nonlinear_arith)
            requires
                less == n - 1,
                n > 0,
        ;
    } else {
        assert(n * columns(c) == 0) by (nonlinear_arith)
            requires
                n == 0,
        ;
    }
}

/// A run of spaces is as wide as it is long.
pub proof fn lemma_columns_of_spaces(n: nat)
    ensures
        total_columns(spaces(n)) == n,
{
    lemma_columns_of_run(' ', n);
    let one = columns(' ');
    assert(n * one == n) by (nonlinear_arith)
        requires
            one == 1,
    ;
    assert(spaces(n) == Seq::new(n, |i: int| ' '));
}

/// Text that is fitted to a width takes exactly that many columns.
pub proof fn lemma_fitted_columns(text: Seq<char>, width: nat)
    ensures
        total_columns(fitted(text, width)) == width,
    decreases text.len(),
{
    if text.len() == 0 || columns(text[0]) > width {
        lemma_columns_of_spaces(width);
    } else {
        let rest = fitted(text.drop_first(), (width - columns(text[0])) as nat);
        lemma_fitted_columns(text.drop_first(), (width - columns(text[0])) as nat);
        assert(fitted(text, width).drop_first() == rest);
    }
}

/// A rewritten match takes the columns of its characters, where those make up
/// its width and a mask is one column wide.
pub proof fn lemma_rewritten_columns(matched: Seq<char>, kind: KindView)
    requires
        keeps_columns(matched, kind),
    ensures
        total_columns(rewritten(matched, kind)) == total_columns(matched),
{
    match kind {
        KindView::Replace(text) => {
            lemma_fitted_columns(text, text_width(matched));
        },
        KindView::Mask(c) => {
            lemma_columns_of_run(c, text_width(matched));
        },
    }
}

/// Ranges that lie in a text one behind the other, from `from` on.
pub open spec fn ranges_follow(ranges: Seq<(int, int)>, from: int, len: int) -> bool {
    &&& forall|i: int|
        0 <= i < ranges.len() ==> from <= (#[trigger] ranges[i]).0 <= ranges[i].1 <= len
    &&& forall|i: int, j: int| 0 <= i < j < ranges.len() ==> ranges[i].1 <= ranges[j].0
}

proof fn lemma_char_ranges_follow(text: Seq<char>, spans: Seq<(usize, usize)>)
    requires
        spans_fit(text, spans),
    ensures
        ranges_follow(char_ranges(text, spans), 0, text.len() as int),
{
    let ranges = char_ranges(text, spans);
    assert forall|i: int| 0 <= i < ranges.len() implies 0 <= (#[trigger] ranges[i]).0
        <= ranges[i].1 <= text.len() by {
        lemma_chars_before_order(text, spans[i].0 as int, spans[i].1 as int);
    }
    assert forall|i: int, j: int| 0 <= i < j < ranges.len() implies ranges[i].1 <= ranges[j].0 by {
        lemma_chars_before_order(text, spans[i].1 as int, spans[j].0 as int);
    }
}

proof fn lemma_replaced_columns(
    text: Seq<char>,
    ranges: Seq<(int, int)>,
    kind: KindView,
    from: int,
)
    requires
        0 <= from <= text.len(),
        ranges_follow(ranges, from, text.len() as int),
        forall|i: int|
            0 <= i < ranges.len() ==> keeps_columns(
                text.subrange((#[trigger] ranges[i]).0, ranges[i].1),
                kind,
            ),
    ensures
        total_columns(replaced(text, ranges, kind, from)) == total_columns(text.skip(from)),
    decreases ranges.len(),
{
    if ranges.len() > 0 {
        let (start, end) = ranges[0];
        let rest = ranges.drop_first();
        assert forall|i: int| 0 <= i < rest.len() implies end <= (#[trigger] rest[i]).0
            <= rest[i].1 <= text.len() by {
            assert(ranges[0].1 <= ranges[i + 1].0);
        }
        assert forall|i: int| 0 <= i < rest.len() implies keeps_columns(
            text.subrange((#[trigger] rest[i]).0, rest[i].1),
            kind,
        ) by {
            assert(rest[i] == ranges[i + 1]);
        }
        lemma_replaced_columns(text, rest, kind, end);
        let matched = text.subrange(start, end);
        let piece = if start < end {
            rewritten(matched, kind)
        } else {
            Seq::empty()
        };
        assert(keeps_columns(text.subrange(ranges[0].0, ranges[0].1), kind));
        if start < end {
            lemma_rewritten_columns(matched, kind);
        } else {
            assert(matched == Seq::<char>::empty());
        }
        let lead = text.subrange(from, start);
        let tail = replaced(text, rest, kind, end);
        lemma_total_columns_concat(lead + piece, tail);
        lemma_total_columns_concat(lead, piece);
        lemma_total_columns_concat(lead + matched, text.skip(end));
        lemma_total_columns_concat(lead, matched);
        assert(text.skip(from) == lead + matched + text.skip(end));
    }
}

proof fn lemma_steady_fitted(text: Seq<char>, width: nat)
    requires
        steady_text(text),
    ensures
        steady_text(fitted(text, width)),
    decreases text.len(),
{
    if text.len() > 0 && columns(text[0]) <= width {
        let tail = text.drop_first();
        assert forall|i: int| 0 <= i < tail.len() implies steady(#[trigger] tail[i]) by {
            assert(tail[i] == text[i + 1]);
        }
        let left = (width - columns(text[0])) as nat;
        lemma_steady_fitted(tail, left);
        assert(steady(text[0]));
        lemma_steady_join(seq![text[0]], fitted(tail, left));
    }
}

proof fn lemma_steady_join(a: Seq<char>, b: Seq<char>)
    requires
        steady_text(a),
        steady_text(b),
    ensures
        steady_text(a + b),
{
    assert forall|i: int| 0 <= i < (a + b).len() implies steady(#[trigger] (a + b)[i]) by {
        if i < a.len() {
            assert(steady(a[i]));
        } else {
            assert(steady(b[i - a.len()]));
        }
    }
}

proof fn lemma_steady_part(text: Seq<char>, from: int, to: int)
    requires
        steady_text(text),
        0 <= from <= to <= text.len(),
    ensures
        steady_text(text.subrange(from, to)),
{
    let part = text.subrange(from, to);
    assert forall|i: int| 0 <= i < part.len() implies steady(#[trigger] part[i]) by {
        assert(steady(text[from + i]));
    }
}

proof fn lemma_steady_rewritten(matched: Seq<char>, kind: KindView)
    requires
        steady_kind(kind),
    ensures
        steady_text(rewritten(matched, kind)),
{
    match kind {
        KindView::Replace(text) => {
            lemma_steady_fitted(text, text_width(matched));
        },
        KindView::Mask(c) => {},
    }
}

proof fn lemma_steady_replaced(
    text: Seq<char>,
    ranges: Seq<(int, int)>,
    kind: KindView,
    from: int,
)
    requires
        0 <= from <= text.len(),
        ranges_follow(ranges, from, text.len() as int),
        steady_text(text),
        steady_kind(kind),
    ensures
        steady_text(replaced(text, ranges, kind, from)),
        total_columns(replaced(text, ranges, kind, from)) == total_columns(text.skip(from)),
    decreases ranges.len(),
{
    assert forall|i: int| 0 <= i < ranges.len() implies keeps_columns(
        text.subrange((#[trigger] ranges[i]).0, ranges[i].1),
        kind,
    ) by {
        lemma_steady_part(text, ranges[i].0, ranges[i].1);
        law_steady_matches_keep_columns(text.subrange(ranges[i].0, ranges[i].1), kind);
    }
    lemma_replaced_columns(text, ranges, kind, from);
    if ranges.len() == 0 {
        lemma_steady_part(text, from, text.len() as int);
        assert(text.skip(from) == text.subrange(from, text.len() as int));
    } else {
        let (start, end) = ranges[0];
        let rest = ranges.drop_first();
        assert forall|i: int| 0 <= i < rest.len() implies end <= (#[trigger] rest[i]).0
            <= rest[i].1 <= text.len() by {
            assert(ranges[0].1 <= ranges[i + 1].0);
        }
        lemma_steady_replaced(text, rest, kind, end);
        let piece = if start < end {
            rewritten(text.subrange(start, end), kind)
        } else {
            Seq::empty()
        };
        lemma_steady_rewritten(text.subrange(start, end), kind);
        lemma_steady_part(text, from, start);
        lemma_steady_join(text.subrange(from, start), piece);
        lemma_steady_join(text.subrange(from, start) + piece, replaced(text, rest, kind, end));
    }
}

/// The columns of one character.
pub fn char_columns(c: char) -> (r: usize)
    ensures
        r == columns(c),
{
    match measure_char(c) {
        Some(w) => w,
        None => 0,
    }
}

/// The width of a text as a whole.
pub fn display_width(text: &str) -> (r: usize)
    ensures
        r == str_width(text@),
        r == text_width(text@),
{
    measure_str(text)
}

/// `n` times the same character.
fn run_of(c: char, n: usize) -> (r: Vec<char>)
    ensures
        r@ == Seq::new(n as nat, |i: int| c),
{
    let mut out: Vec<char> = Vec::new();
    while out.len() < n
        invariant
            out@.len() <= n,
            out@ == Seq::new(out@.len(), |i: int| c),
        decreases n - out@.len(),
    {
        out.push(c);
    }
    out
}

/// Cuts or pads `text` to exactly `width` columns.
pub fn fit_to_width(text: &str, width: usize) -> (r: Vec<char>)
    ensures
        r@ == fitted(text@, width as nat),
        total_columns(r@) == width,
{
    let chars = chars_of(text);
    let mut out: Vec<char> = Vec::new();
    let mut left: usize = width;
    let mut i: usize = 0;
    assert(text@.skip(0) == text@);
    assert(out@ + fitted(text@.skip(0), left as nat) == fitted(text@, width as nat));
    while i < chars.len()
        invariant
            chars@ == text@,
            i <= chars@.len(),
            out@ + fitted(text@.skip(i as int), left as nat) == fitted(text@, width as nat),
        ensures
            out@ + spaces(left as nat) == fitted(text@, width as nat),
        decreases chars@.len() - i,
    {
        let c = chars[i];
        let w: usize = char_columns(c);
        let ghost rest = text@.skip(i as int);
        if w > left {
            break;
        }
        proof {
            assert(rest[0] == c);
            assert(rest.drop_first() == text@.skip(i + 1));
            assert(out@ + (seq![c] + fitted(text@.skip(i + 1), (left - w) as nat)) == out@.push(c)
                + fitted(text@.skip(i + 1), (left - w) as nat));
        }
        out.push(c);
        left = left - w;
        i = i + 1;
    }
    let ghost text_part = out@;
    let ghost pad = left;
    while left > 0
        invariant
            left <= pad,
            out@ == text_part + spaces((pad - left) as nat),
        decreases left,
    {
        out.push(' ');
        left = left - 1;
        assert(spaces((pad - left) as nat) == spaces((pad - left - 1) as nat).push(' '));
    }
    proof {
        lemma_fitted_columns(text@, width as nat);
    }
    out
}

/// What takes the place of a match of the given kind of rule.
pub fn width_preserving_text(matched: &str, kind: &OutputTransformKind) -> (r: Vec<char>)
    ensures
        r@ == rewritten(matched@, kind@),
        keeps_columns(matched@, kind@) ==> total_columns(r@) == total_columns(matched@),
{
    let width: usize = display_width(matched);
    proof {
        if keeps_columns(matched@, kind@) {
            lemma_rewritten_columns(matched@, kind@);
        }
    }
    match kind {
        OutputTransformKind::Replace(text) => fit_to_width(text.as_str(), width),
        OutputTransformKind::Mask(c) => run_of(*c, width),
    }
}

/// Replaces the given byte ranges of a text; empty ranges are left alone.
pub fn replace_spans(
    text: &str,
    spans: &Vec<(usize, usize)>,
    kind: &OutputTransformKind,
) -> (r: String)
    requires
        spans_fit(text@, spans@),
    ensures
        r@ == replaced(text@, char_ranges(text@, spans@), kind@, 0),
{
    let chars = chars_of(text);
    let ghost ranges = char_ranges(text@, spans@);
    proof {
        lemma_char_ranges_follow(text@, spans@);
    }
    let mut out = String::new();
    let mut from: usize = 0;
    let mut i: usize = 0;
    assert(ranges.skip(0) == ranges);
    assert(out@ + replaced(text@, ranges, kind@, 0) == replaced(text@, ranges, kind@, 0));
    while i < spans.len()
        invariant
            chars@ == text@,
            spans_fit(text@, spans@),
            ranges == char_ranges(text@, spans@),
            ranges_follow(ranges, 0, text@.len() as int),
            i <= spans@.len() == ranges.len(),
            from <= text@.len(),
            forall|j: int| i <= j < ranges.len() ==> from <= (#[trigger] ranges[j]).0,
            out@ + replaced(text@, ranges.skip(i as int), kind@, from as int) == replaced(
                text@,
                ranges,
                kind@,
                0,
            ),
        decreases spans@.len() - i,
    {
        let start: usize = byte_to_char_idx(text, spans[i].0);
        let end: usize = byte_to_char_idx(text, spans[i].1);
        proof {
            assert(spans@[i as int].0 <= spans@[i as int].1 <= encode_utf8(text@).len());
            lemma_boundary_end(text@);
            assert(ranges[i as int] == (start as int, end as int));
            assert(ranges.skip(i as int)[0] == ranges[i as int]);
            assert(ranges.skip(i as int).drop_first() == ranges.skip(i + 1));
        }
        let ghost before = out@;
        push_chars(&mut out, &chars, from, start);
        if start < end {
            let matched = text.substring_char(start, end);
            let piece = width_preserving_text(matched, kind);
            push_chars(&mut out, &piece, 0, piece.len());
            assert(piece@.subrange(0, piece@.len() as int) == piece@);
        }
        proof {
            let tail = replaced(text@, ranges.skip(i + 1), kind@, end as int);
            let piece = if start < end {
                rewritten(text@.subrange(start as int, end as int), kind@)
            } else {
                Seq::empty()
            };
            assert(out@ == before + text@.subrange(from as int, start as int) + piece);
            assert(before + (text@.subrange(from as int, start as int) + piece + tail) == out@
                + tail);
            assert forall|j: int| i + 1 <= j < ranges.len() implies end <= (
            #[trigger] ranges[j]).0 by {
                assert(ranges[i as int].1 <= ranges[j].0);
            }
        }
        from = end;
        i = i + 1;
    }
    push_chars(&mut out, &chars, from, chars.len());
    assert(text@.subrange(from as int, text@.len() as int) == text@.skip(from as int));
    assert(ranges.skip(i as int).len() == 0);
    out
}

proof fn lemma_boundary_end(text: Seq<char>)
    ensures
        chars_before(text, encode_utf8(text).len() as int) == text.len(),
{
    let bytes = encode_utf8(text);
    assert(bytes.subrange(0, bytes.len() as int) == bytes);
    encode_utf8_decode_utf8(text);
}

/// Appends the characters from `from` up to `to`.
fn push_chars(out: &mut String, chars: &Vec<char>, from: usize, to: usize)
    requires
        from <= to <= chars@.len(),
    ensures
        final(out)@ == old(out)@ + chars@.subrange(from as int, to as int),
{
    let mut i: usize = from;
    let ghost before = out@;
    assert(before + chars@.subrange(from as int, from as int) == before);
    while i < to
        invariant
            from <= i <= to <= chars@.len(),
            out@ == before + chars@.subrange(from as int, i as int),
        decreases to - i,
    {
        out.push(chars[i]);
        assert(chars@.subrange(from as int, i + 1) == chars@.subrange(from as int, i as int).push(
            chars@[i as int],
        ));
        i = i + 1;
    }
}

/// Applies the rules to a line, one after the other. Where every match is as
/// wide as its characters and masks are one column wide, the line keeps its
/// columns.
pub fn transform_line(line: &str, rules: &[OutputTransformRule]) -> (r: String)
    ensures
        r@ == transformed(line@, rules@),
        rules_keep_columns(line@, rules@) ==> total_columns(r@) == total_columns(line@),
        steady_text(line@) && steady_rules(rules@) ==> steady_text(r@) && text_width(r@)
            == text_width(line@),
{
    let mut current = line.to_owned();
    let mut i: usize = 0;
    assert(rules@.take(0).len() == 0);
    while i < rules.len()
        invariant
            i <= rules@.len(),
            current@ == transformed(line@, rules@.take(i as int)),
            rules_keep_columns(line@, rules@.take(i as int)) ==> total_columns(current@)
                == total_columns(line@),
            steady_text(line@) && steady_rules(rules@) ==> steady_text(current@)
                && total_columns(current@) == total_columns(line@),
        decreases rules@.len() - i,
    {
        let rule = &rules[i];
        let spans = find_spans(&rule.regex, current.as_str());
        let ghost before = current@;
        let next = replace_spans(current.as_str(), &spans, &rule.kind);
        proof {
            let done = rules@.take(i + 1);
            assert(done.drop_last() == rules@.take(i as int));
            assert(done.last() == *rule);
            lemma_char_ranges_follow(before, spans@);
            if rules_keep_columns(line@, done) {
                let ranges = char_ranges(before, spans@);
                assert forall|k: int| 0 <= k < ranges.len() implies keeps_columns(
                    before.subrange((#[trigger] ranges[k]).0, ranges[k].1),
                    rule.kind@,
                ) by {
                    assert(rule_keeps_columns(before, *rule));
                }
                lemma_replaced_columns(before, ranges, rule.kind@, 0);
                assert(before.skip(0) == before);
            }
            if steady_text(line@) && steady_rules(rules@) {
                assert(steady_kind(rules@[i as int].kind@));
                lemma_steady_replaced(before, char_ranges(before, spans@), rule.kind@, 0);
                assert(before.skip(0) == before);
            }
        }
        current = next;
        i = i + 1;
    }
    assert(rules@.take(rules@.len() as int) == rules@);
    proof {
        if steady_text(line@) && steady_rules(rules@) {
            lemma_steady_columns(line@);
            lemma_steady_columns(current@);
        }
    }
    current
}

/// The text of a cell of `target` columns of which `used` are taken, and the
/// characters that are left for the cells behind it. A character that is too
/// wide for the whole cell is dropped.
pub open spec fn fill_cell(chars: Seq<char>, target: nat, used: nat) -> (Seq<char>, Seq<char>)
    decreases chars.len(),
{
    if chars.len() == 0 {
        (spaces((target - used) as nat), chars)
    } else {
        let c = chars[0];
        let w = columns(c);
        let rest = chars.drop_first();
        if w > 0 && used + w > target {
            (spaces((target - used) as nat), if used == 0 { rest } else { chars })
        } else if w > 0 && used + w == target {
            (seq![c], rest)
        } else {
            let (cell, left) = fill_cell(rest, target, used + w);
            (seq![c] + cell, left)
        }
    }
}

/// A text cut into cells of the given widths.
pub open spec fn cell_texts(chars: Seq<char>, widths: Seq<usize>) -> Seq<Seq<char>>
    decreases widths.len(),
{
    if widths.len() == 0 {
        Seq::empty()
    } else {
        let (cell, rest) = fill_cell(chars, widths[0] as nat, 0);
        seq![cell] + cell_texts(rest, widths.drop_first())
    }
}

/// A filled cell takes exactly its columns.
pub proof fn lemma_fill_cell_columns(chars: Seq<char>, target: nat, used: nat)
    requires
        used <= target,
    ensures
        total_columns(fill_cell(chars, target, used).0) + used == target,
        fill_cell(chars, target, used).1.len() <= chars.len(),
    decreases chars.len(),
{
    if chars.len() == 0 {
        lemma_columns_of_spaces((target - used) as nat);
    } else {
        let c = chars[0];
        let w = columns(c);
        let rest = chars.drop_first();
        if w > 0 && used + w > target {
            lemma_columns_of_spaces((target - used) as nat);
        } else if w > 0 && used + w == target {
            assert(seq![c].drop_first() == Seq::<char>::empty());
            assert(total_columns(Seq::<char>::empty()) == 0);
            assert(total_columns(seq![c]) == w);
        } else {
            lemma_fill_cell_columns(rest, target, used + w);
            let cell = fill_cell(rest, target, used + w).0;
            assert((seq![c] + cell).drop_first() == cell);
        }
    }
}

/// Each cell of a text that is cut to widths takes exactly its columns.
pub proof fn lemma_cell_texts_columns(chars: Seq<char>, widths: Seq<usize>)
    ensures
        cell_texts(chars, widths).len() == widths.len(),
        forall|i: int|
            0 <= i < widths.len() ==> total_columns(#[trigger] cell_texts(chars, widths)[i])
                == widths[i],
    decreases widths.len(),
{
    if widths.len() > 0 {
        let (cell, rest) = fill_cell(chars, widths[0] as nat, 0);
        let later = cell_texts(rest, widths.drop_first());
        lemma_fill_cell_columns(chars, widths[0] as nat, 0);
        lemma_cell_texts_columns(rest, widths.drop_first());
        assert forall|i: int| 0 <= i < widths.len() implies total_columns(
            #[trigger] cell_texts(chars, widths)[i],
        ) == widths[i] by {
            if i > 0 {
                assert(cell_texts(chars, widths)[i] == later[i - 1]);
            }
        }
    }
}

/// Cuts a text into one cell for each width; every cell is filled up to its
/// width.
pub fn split_cells_by_display_width(transformed: &str, cell_widths: &[usize]) -> (r: Vec<String>)
    ensures
        texts(r@) == cell_texts(transformed@, cell_widths@),
        r@.len() == cell_widths@.len(),
        forall|i: int| 0 <= i < r@.len() ==> total_columns((#[trigger] r@[i])@) == cell_widths@[i],
{
    let chars = chars_of(transformed);
    let mut cells: Vec<String> = Vec::new();
    let mut pos: usize = 0;
    let mut i: usize = 0;
    assert(chars@.skip(0) == chars@);
    assert(cell_widths@.skip(0) == cell_widths@);
    assert(texts(cells@) + cell_texts(chars@, cell_widths@) == cell_texts(chars@, cell_widths@));
    while i < cell_widths.len()
        invariant
            chars@ == transformed@,
            pos <= chars@.len(),
            i <= cell_widths@.len(),
            cells@.len() == i,
            texts(cells@) + cell_texts(chars@.skip(pos as int), cell_widths@.skip(i as int))
                == cell_texts(chars@, cell_widths@),
            forall|j: int|
                0 <= j < i ==> total_columns((#[trigger] cells@[j])@) == cell_widths@[j],
        decreases cell_widths@.len() - i,
    {
        let target: usize = cell_widths[i];
        let ghost before = chars@.skip(pos as int);
        let (cell, next) = take_cell(&chars, pos, target);
        proof {
            lemma_fill_cell_columns(before, target as nat, 0);
            assert(cell_widths@.skip(i as int)[0] == target);
            assert(cell_widths@.skip(i as int).drop_first() == cell_widths@.skip(i + 1));
            let tail = cell_texts(chars@.skip(next as int), cell_widths@.skip(i + 1));
            assert(texts(cells@.push(cell)) == texts(cells@).push(cell@));
            assert(texts(cells@) + (seq![cell@] + tail) == texts(cells@).push(cell@) + tail);
        }
        cells.push(cell);
        pos = next;
        i = i + 1;
    }
    assert(cell_widths@.skip(i as int).len() == 0);
    assert(texts(cells@) + Seq::<Seq<char>>::empty() == texts(cells@));
    cells
}

/// Fills one cell from the characters at `pos` on; returns its text and the
/// position behind what it took.
fn take_cell(chars: &Vec<char>, pos: usize, target: usize) -> (r: (String, usize))
    requires
        pos <= chars@.len(),
    ensures
        pos <= r.1 <= chars@.len(),
        (r.0@, chars@.skip(r.1 as int)) == fill_cell(chars@.skip(pos as int), target as nat, 0),
{
    let mut cell = String::new();
    let mut used: usize = 0;
    let mut at: usize = pos;
    let ghost whole = fill_cell(chars@.skip(pos as int), target as nat, 0);
    assert(Seq::<char>::empty() + whole.0 == whole.0);
    while at < chars.len()
        invariant_except_break
            pos <= at <= chars@.len(),
            used <= target,
            ({
                let (cell_rest, left) = fill_cell(
                    chars@.skip(at as int),
                    target as nat,
                    used as nat,
                );
                &&& cell@ + cell_rest == whole.0
                &&& left == whole.1
            }),
        ensures
            pos <= at <= chars@.len(),
            used <= target,
            cell@ + spaces((target - used) as nat) == whole.0,
            chars@.skip(at as int) == whole.1,
        decreases chars@.len() - at,
    {
        let c = chars[at];
        let w: usize = char_columns(c);
        let ghost here = chars@.skip(at as int);
        proof {
            assert(here[0] == c);
            assert(here.drop_first() == chars@.skip(at + 1));
        }
        if w > 0 && w > target - used {
            if used == 0 {
                at = at + 1;
            }
            break;
        }
        proof {
            let (cell_rest, left) = fill_cell(here, target as nat, used as nat);
            let inner = fill_cell(chars@.skip(at + 1), target as nat, (used + w) as nat).0;
            assert(cell@ + (seq![c] + inner) == cell@.push(c) + inner);
            assert(cell@ + seq![c] == cell@.push(c));
            assert(cell@.push(c) + spaces(0) == cell@.push(c));
        }
        cell.push(c);
        at = at + 1;
        used = used + w;
        if w > 0 && used == target {
            break;
        }
    }
    let ghost filled = cell@;
    let ghost taken = used;
    while used < target
        invariant
            taken <= used <= target,
            cell@ == filled + spaces((used - taken) as nat),
        decreases target - used,
    {
        cell.push(' ');
        used = used + 1;
        assert(spaces((used - taken) as nat) == spaces((used - 1 - taken) as nat).push(' '));
    }
    (cell, at)
}

/// The texts of cells, joined.
pub open spec fn joined_text(cells: Seq<Seq<char>>) -> Seq<char>
    decreases cells.len(),
{
    if cells.len() == 0 {
        Seq::empty()
    } else {
        cells[0] + joined_text(cells.drop_first())
    }
}

/// Whether a text takes exactly the columns of a cell, up to its last character.
pub open spec fn fills(text: Seq<char>, width: nat) -> bool {
    text.len() > 0 && columns(text.last()) > 0 && total_columns(text) == width
}

/// Cells that their texts fill come back unchanged when the texts are joined and
/// cut again.
pub proof fn law_joined_cells_split_back(cells: Seq<Seq<char>>, widths: Seq<usize>)
    requires
        cells.len() == widths.len(),
        forall|i: int| 0 <= i < cells.len() ==> fills(#[trigger] cells[i], widths[i] as nat),
    ensures
        cell_texts(joined_text(cells), widths) == cells,
    decreases widths.len(),
{
    if widths.len() > 0 {
        let later = cells.drop_first();
        assert forall|i: int| 0 <= i < later.len() implies fills(
            #[trigger] later[i],
            widths.drop_first()[i] as nat,
        ) by {
            assert(later[i] == cells[i + 1]);
        }
        law_joined_cells_split_back(later, widths.drop_first());
        assert(fills(cells[0], widths[0] as nat));
        lemma_fill_exactly(cells[0], joined_text(later), widths[0] as nat, 0);
        assert(seq![cells[0]] + later == cells);
    } else {
        assert(cells == Seq::<Seq<char>>::empty());
    }
}

proof fn lemma_fill_exactly(text: Seq<char>, rest: Seq<char>, target: nat, used: nat)
    requires
        fills(text, (target - used) as nat),
        used <= target,
    ensures
        fill_cell(text + rest, target, used) == (text, rest),
    decreases text.len(),
{
    let all = text + rest;
    let tail = text.drop_first();
    assert(all.drop_first() == tail + rest);
    if tail.len() == 0 {
        assert(total_columns(tail) == 0);
        assert(text == seq![text[0]]);
    } else {
        assert(tail.last() == text.last());
        lemma_last_counts(tail);
        lemma_fill_exactly(tail, rest, target, used + columns(text[0]));
        assert(seq![text[0]] + tail == text);
    }
}

proof fn lemma_last_counts(text: Seq<char>)
    requires
        text.len() > 0,
    ensures
        total_columns(text) >= columns(text.last()),
{
    lemma_total_columns_concat(text.drop_last(), seq![text.last()]);
    assert(text.drop_last() + seq![text.last()] == text);
    assert(seq![text.last()].drop_first() == Seq::<char>::empty());
    assert(total_columns(Seq::<char>::empty()) == 0);
}

/// Joining one more text appends it.
pub proof fn lemma_joined_push(cells: Seq<Seq<char>>, text: Seq<char>)
    ensures
        joined_text(cells.push(text)) == joined_text(cells) + text,
    decreases cells.len(),
{
    let more = cells.push(text);
    if cells.len() == 0 {
        assert(more.drop_first() == cells);
        assert(joined_text(cells) == Seq::<char>::empty());
        assert(text + Seq::<char>::empty() == Seq::<char>::empty() + text);
    } else {
        assert(more.drop_first() == cells.drop_first().push(text));
        lemma_joined_push(cells.drop_first(), text);
        assert(cells[0] + (joined_text(cells.drop_first()) + text) == joined_text(cells) + text);
    }
}

/// The same ranges in a text that starts `by` characters later.
pub open spec fn moved_back(ranges: Seq<(int, int)>, by: int) -> Seq<(int, int)> {
    ranges.map_values(|range: (int, int)| (range.0 - by, range.1 - by))
}

/// Matches before and behind a cut do not know of one another: replacing in the
/// whole text is replacing in the text before the cut and in the text behind it.
pub proof fn law_matches_are_replaced_apart(
    text: Seq<char>,
    a: Seq<(int, int)>,
    b: Seq<(int, int)>,
    kind: KindView,
    cut: int,
)
    requires
        0 <= cut <= text.len(),
        ranges_follow(a, 0, cut),
        ranges_follow(b, cut, text.len() as int),
    ensures
        replaced(text, a + b, kind, 0) == replaced(text.take(cut), a, kind, 0) + replaced(
            text.skip(cut),
            moved_back(b, cut),
            kind,
            0,
        ),
{
    lemma_replaced_split(text, a, b, kind, 0, cut);
    lemma_replaced_moved(text, b, kind, cut, cut);
}

/// Every match is rewritten: the text before it and the text behind it, with the
/// matches in them replaced, stand around what takes its place. Without matches a
/// text stays.
pub proof fn law_every_match_is_rewritten(
    text: Seq<char>,
    ranges: Seq<(int, int)>,
    kind: KindView,
    i: int,
)
    requires
        ranges_follow(ranges, 0, text.len() as int),
        0 <= i < ranges.len(),
    ensures
        ({
            let (start, end) = ranges[i];
            let piece = if start < end {
                rewritten(text.subrange(start, end), kind)
            } else {
                Seq::empty()
            };
            replaced(text, ranges, kind, 0) == replaced(
                text.take(start),
                ranges.take(i),
                kind,
                0,
            ) + piece + replaced(
                text.skip(end),
                moved_back(ranges.skip(i + 1), end),
                kind,
                0,
            )
        }),
        replaced(text, Seq::empty(), kind, 0) == text,
{
    let (start, end) = ranges[i];
    let before = ranges.take(i);
    let own = ranges.skip(i).take(1);
    let behind = ranges.skip(i + 1);
    assert forall|k: int| 0 <= k < before.len() implies 0 <= (#[trigger] before[k]).0
        <= before[k].1 <= start by {
        assert(before[k] == ranges[k]);
        assert(ranges[k].1 <= ranges[i].0);
    }
    assert forall|k: int| 0 <= k < behind.len() implies end <= (#[trigger] behind[k]).0
        <= behind[k].1 <= text.len() by {
        assert(behind[k] == ranges[i + 1 + k]);
        assert(ranges[i].1 <= ranges[i + 1 + k].0);
    }
    let rest = ranges.skip(i);
    assert forall|k: int| 0 <= k < rest.len() implies start <= (#[trigger] rest[k]).0
        <= rest[k].1 <= text.len() by {
        assert(rest[k] == ranges[i + k]);
        if k > 0 {
            assert(ranges[i].1 <= ranges[i + k].0);
        }
    }
    assert(before + rest == ranges);
    lemma_replaced_split(text, before, rest, kind, 0, start);
    assert(rest.drop_first() == behind);
    lemma_replaced_moved(text, behind, kind, end, end);
    let piece = if start < end {
        rewritten(text.subrange(start, end), kind)
    } else {
        Seq::empty()
    };
    let tail = replaced(text, behind, kind, end);
    let lead = replaced(text.take(start), before, kind, 0);
    assert(rest[0] == ranges[i]);
    assert(text.subrange(start, start) + piece + tail == piece + tail);
    assert(lead + (piece + tail) == lead + piece + tail);
    assert(text.skip(0) == text);
}

proof fn lemma_replaced_split(
    text: Seq<char>,
    a: Seq<(int, int)>,
    b: Seq<(int, int)>,
    kind: KindView,
    from: int,
    cut: int,
)
    requires
        0 <= from <= cut <= text.len(),
        ranges_follow(a, from, cut),
        ranges_follow(b, cut, text.len() as int),
    ensures
        replaced(text, a + b, kind, from) == replaced(text.take(cut), a, kind, from) + replaced(
            text,
            b,
            kind,
            cut,
        ),
    decreases a.len(),
{
    let head = text.take(cut);
    let tail = replaced(text, b, kind, cut);
    if a.len() == 0 {
        assert(a + b == b);
        assert(head.skip(from) == text.subrange(from, cut));
        if b.len() == 0 {
            assert(text.skip(from) == text.subrange(from, cut) + text.skip(cut));
        } else {
            let (start, end) = b[0];
            let piece = if start < end {
                rewritten(text.subrange(start, end), kind)
            } else {
                Seq::empty()
            };
            let rest = replaced(text, b.drop_first(), kind, end);
            assert(text.subrange(from, start) == text.subrange(from, cut) + text.subrange(
                cut,
                start,
            ));
            assert(text.subrange(from, start) + piece + rest == text.subrange(from, cut) + (
            text.subrange(cut, start) + piece + rest));
        }
    } else {
        let (start, end) = a[0];
        let later = a.drop_first();
        assert forall|i: int| 0 <= i < later.len() implies end <= (#[trigger] later[i]).0
            <= later[i].1 <= cut by {
            assert(a[0].1 <= a[i + 1].0);
        }
        lemma_replaced_split(text, later, b, kind, end, cut);
        assert((a + b).drop_first() == later + b);
        assert(head.subrange(from, start) == text.subrange(from, start));
        assert(head.subrange(start, end) == text.subrange(start, end));
        let piece = if start < end {
            rewritten(text.subrange(start, end), kind)
        } else {
            Seq::empty()
        };
        let lead = text.subrange(from, start) + piece;
        let rest = replaced(head, later, kind, end);
        assert(lead + (rest + tail) == lead + rest + tail);
    }
}

proof fn lemma_replaced_moved(
    text: Seq<char>,
    b: Seq<(int, int)>,
    kind: KindView,
    from: int,
    cut: int,
)
    requires
        0 <= cut <= from <= text.len(),
        ranges_follow(b, from, text.len() as int),
    ensures
        replaced(text.skip(cut), moved_back(b, cut), kind, from - cut) == replaced(
            text,
            b,
            kind,
            from,
        ),
    decreases b.len(),
{
    let part = text.skip(cut);
    if b.len() == 0 {
        assert(part.skip(from - cut) == text.skip(from));
    } else {
        let (start, end) = b[0];
        let later = b.drop_first();
        assert forall|i: int| 0 <= i < later.len() implies end <= (#[trigger] later[i]).0
            <= later[i].1 <= text.len() by {
            assert(b[0].1 <= b[i + 1].0);
        }
        lemma_replaced_moved(text, later, kind, end, cut);
        assert(moved_back(b, cut).drop_first() == moved_back(later, cut));
        assert(moved_back(b, cut)[0] == (start - cut, end - cut));
        assert(part.subrange(from - cut, start - cut) == text.subrange(from, start));
        assert(part.subrange(start - cut, end - cut) == text.subrange(start, end));
    }
}

/// A rule rewrites the matches that its pattern has in the line, and no rules
/// rewrite nothing.
pub proof fn law_a_rule_rewrites_its_matches(text: Seq<char>, rule: OutputTransformRule)
    ensures
        transformed(text, Seq::empty()) == text,
        transformed(text, seq![rule]) == replaced(
            text,
            char_ranges(text, regex_spans(rule.regex, text)),
            rule.kind@,
            0,
        ),
{
    reveal_with_fuel(transformed, 2);
    assert(seq![rule].drop_last() == Seq::<OutputTransformRule>::empty());
    assert(seq![rule].last() == rule);
}

/// A character range holds the bytes of the byte range that it stands for.
pub proof fn law_character_ranges_hold_their_bytes(
    text: Seq<char>,
    spans: Seq<(usize, usize)>,
    i: int,
)
    requires
        spans_fit(text, spans),
        0 <= i < spans.len(),
    ensures
        char_ranges(text, spans).len() == spans.len(),
        ({
            let (start, end) = char_ranges(text, spans)[i];
            &&& 0 <= start <= end <= text.len()
            &&& encode_utf8(text.take(start)) == encode_utf8(text).take(spans[i].0 as int)
            &&& encode_utf8(text.subrange(start, end)) == encode_utf8(text).subrange(
                spans[i].0 as int,
                spans[i].1 as int,
            )
        }),
{
    let (a, b) = (spans[i].0 as int, spans[i].1 as int);
    let (start, end) = char_ranges(text, spans)[i];
    lemma_chars_before(text, a);
    lemma_chars_before(text, b);
    lemma_chars_before_order(text, a, b);
    assert(text.take(end) == text.take(start) + text.subrange(start, end));
    lemma_encode_concat(text.take(start), text.subrange(start, end));
    let bytes = encode_utf8(text);
    assert(bytes.subrange(0, a) == bytes.take(a));
    assert(bytes.subrange(0, b) == bytes.subrange(0, a) + encode_utf8(text.subrange(start, end)));
    assert(encode_utf8(text.subrange(start, end)) == bytes.subrange(a, b)) by {
        let own = encode_utf8(text.subrange(start, end));
        assert(own.len() == b - a);
        assert forall|k: int| 0 <= k < own.len() implies own[k] == bytes.subrange(a, b)[k] by {
            assert((bytes.subrange(0, a) + own)[a + k] == bytes.subrange(0, b)[a + k]);
        }
    }
}

/// A replacement is the beginning of its text, as much of it as fits, and spaces
/// for the rest of the width.
pub proof fn law_replacement_is_cut_and_filled(text: Seq<char>, width: nat) -> (k: int)
    ensures
        0 <= k <= text.len(),
        total_columns(text.take(k)) <= width,
        k < text.len() ==> total_columns(text.take(k + 1)) > width,
        fitted(text, width) == text.take(k) + Seq::new(
            (width - total_columns(text.take(k))) as nat,
            |i: int| ' ',
        ),
    decreases text.len(),
{
    if text.len() == 0 || columns(text[0]) > width {
        assert(text.take(0) == Seq::<char>::empty());
        assert(total_columns(text.take(0)) == 0);
        if text.len() > 0 {
            assert(text.take(1).drop_first() == text.take(0));
            assert(total_columns(text.take(1)) == columns(text[0]));
        }
        assert(fitted(text, width) == text.take(0) + Seq::new(width, |i: int| ' '));
        0
    } else {
        let rest = text.drop_first();
        let left = (width - columns(text[0])) as nat;
        let k = law_replacement_is_cut_and_filled(rest, left);
        assert(text.take(k + 1).drop_first() == rest.take(k));
        assert(text.take(k + 1) == seq![text[0]] + rest.take(k));
        if k < rest.len() {
            assert(text.take(k + 2).drop_first() == rest.take(k + 1));
        }
        assert(fitted(text, width) == text.take(k + 1) + Seq::new(
            (width - total_columns(text.take(k + 1))) as nat,
            |i: int| ' ',
        ));
        k + 1
    }
}

/// What takes the place of a match: a text that is cut and filled to the width of
/// the match, or the mask, once for each column.
pub proof fn law_matches_are_replaced_or_masked(matched: Seq<char>, text: Seq<char>, mask: char)
    ensures
        rewritten(matched, KindView::Replace(text)) == fitted(text, text_width(matched)),
        rewritten(matched, KindView::Mask(mask)).len() == text_width(matched),
        forall|i: int|
            0 <= i < text_width(matched) ==> #[trigger] rewritten(
                matched,
                KindView::Mask(mask),
            )[i] == mask,
{
}

/// A cell takes as many characters as fit into its columns, in order, and is filled
/// up with spaces. The characters behind are left, but for one that is wider than
/// the whole cell where nothing else with columns came before it.
pub proof fn law_a_cell_takes_what_fits(chars: Seq<char>, target: nat) -> (k: int)
    requires
        target > 0,
    ensures
        0 <= k <= chars.len(),
        ({
            let taken = total_columns(chars.take(k));
            let (cell, rest) = fill_cell(chars, target, 0);
            let dropped = k < chars.len() && taken == 0 && columns(chars[k]) > target;
            &&& taken <= target
            &&& cell == chars.take(k) + Seq::new((target - taken) as nat, |i: int| ' ')
            &&& rest == chars.skip(if dropped {
                k + 1
            } else {
                k
            })
            &&& taken == target ==> k > 0 && columns(chars[k - 1]) > 0
            &&& taken < target && k < chars.len() ==> taken + columns(chars[k]) > target
        }),
{
    lemma_fill_takes(chars, target, 0)
}

proof fn lemma_fill_takes(chars: Seq<char>, target: nat, used: nat) -> (k: int)
    requires
        used < target,
    ensures
        0 <= k <= chars.len(),
        ({
            let taken = used + total_columns(chars.take(k));
            let (cell, rest) = fill_cell(chars, target, used);
            let dropped = k < chars.len() && taken == 0 && columns(chars[k]) > target;
            &&& taken <= target
            &&& cell == chars.take(k) + Seq::new((target - taken) as nat, |i: int| ' ')
            &&& rest == chars.skip(if dropped {
                k + 1
            } else {
                k
            })
            &&& taken == target ==> k > 0 && columns(chars[k - 1]) > 0
            &&& taken < target && k < chars.len() ==> taken + columns(chars[k]) > target
        }),
    decreases chars.len(),
{
    assert(chars.take(0) == Seq::<char>::empty());
    assert(total_columns(chars.take(0)) == 0);
    assert(chars.skip(0) == chars);
    if chars.len() == 0 {
        assert(fill_cell(chars, target, used).0 == chars.take(0) + Seq::new(
            (target - used) as nat,
            |i: int| ' ',
        ));
        0
    } else {
        let c = chars[0];
        let w = columns(c);
        let rest = chars.drop_first();
        assert(chars.skip(1) == rest);
        assert(chars.take(1).drop_first() == Seq::<char>::empty());
        assert(total_columns(chars.take(1)) == w);
        if w > 0 && used + w > target {
            assert(fill_cell(chars, target, used).0 == chars.take(0) + Seq::new(
                (target - used) as nat,
                |i: int| ' ',
            ));
            0
        } else if w > 0 && used + w == target {
            assert(fill_cell(chars, target, used).0 == chars.take(1) + Seq::new(
                0,
                |i: int| ' ',
            ));
            1
        } else {
            let k = lemma_fill_takes(rest, target, used + w);
            assert(chars.take(k + 1).drop_first() == rest.take(k));
            assert(chars.take(k + 1) == seq![c] + rest.take(k));
            assert(chars.skip(k + 1) == rest.skip(k));
            if k < rest.len() {
                assert(chars[k + 1] == rest[k]);
                assert(chars.skip(k + 2) == rest.skip(k + 1));
            }
            let taken = used + total_columns(chars.take(k + 1));
            assert(fill_cell(chars, target, used).0 == chars.take(k + 1) + Seq::new(
                (target - taken) as nat,
                |i: int| ' ',
            ));
            k + 1
        }
    }
}

/// Cells are filled one after the other, each with what the cells before it left.
pub proof fn law_cells_are_filled_in_order(chars: Seq<char>, widths: Seq<usize>)
    ensures
        cell_texts(chars, Seq::empty()) == Seq::<Seq<char>>::empty(),
        widths.len() > 0 ==> cell_texts(chars, widths).len() == widths.len() && cell_texts(
            chars,
            widths,
        )[0] == fill_cell(chars, widths[0] as nat, 0).0 && cell_texts(chars, widths).skip(1)
            == cell_texts(fill_cell(chars, widths[0] as nat, 0).1, widths.skip(1)),
{
    lemma_cell_texts_columns(chars, widths);
    if widths.len() > 0 {
        let rest = cell_texts(fill_cell(chars, widths[0] as nat, 0).1, widths.drop_first());
        assert(widths.skip(1) == widths.drop_first());
        assert(cell_texts(chars, widths).skip(1) == rest);
    }
}

/// The columns of a text are those of its parts together, and those of its characters
/// in the end.
pub proof fn law_columns_add_up(a: Seq<char>, b: Seq<char>, c: char)
    ensures
        total_columns(a + b) == total_columns(a) + total_columns(b),
        total_columns(seq![c]) == columns(c),
        total_columns(Seq::<char>::empty()) == 0,
{
    reveal_with_fuel(total_columns, 2);
    assert(seq![c].drop_first() == Seq::<char>::empty());
    lemma_total_columns_concat(a, b);
}

/// Printable ASCII takes one column, and an ideograph two.
pub proof fn law_columns_of_common_characters(c: char)
    ensures
        ' ' <= c <= '~' ==> columns(c) == 1,
        '\u{4e00}' <= c <= '\u{9fff}' || '\u{3400}' <= c <= '\u{4dbf}' || '\u{f900}' <= c
            <= '\u{faff}' ==> columns(c) == 2,
        '\u{20000}' <= c <= '\u{2fffd}' || '\u{30000}' <= c <= '\u{3fffd}' ==> columns(c) == 2,
{
}

} // verus!
