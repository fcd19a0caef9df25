//! Looking for patterns on the screen.
use crate::boundary::{find_spans, hash_str, regex_spans, spans_fit, str_hash_writes};
use crate::model::{HighlightRule, LineView, Rgb, ScreenLine, line_views, optional_texts, texts};
use crate::text::{byte_to_char_idx, chars_before, lemma_chars_before_order};
use crate::transform::law_character_ranges_hold_their_bytes;
use std::collections::hash_map::DefaultHasher;
use std::hash::Hasher;
use vstd::prelude::*;
use vstd::std_specs::hash::DefaultHasherAdditionalSpecFns;
use vstd::string::StrSliceExecFns;
use vstd::utf8::*;

verus! {

/// What was found on the screen: the colour of each cell that a match covers,
/// and one trigger for each rule that matched.
#[derive(Debug)]
pub struct HighlightEvaluation {
    pub colors: Vec<Vec<Option<Rgb>>>,
    pub triggers: Vec<HighlightTrigger>,
}

/// A rule that matched, with the texts of its matches.
#[derive(Debug)]
pub struct HighlightTrigger {
    pub key: String,
    pub pattern: String,
    pub matched_texts: Vec<String>,
    pub command: Option<Vec<String>>,
    pub capture_tui_screenshot: bool,
    pub fingerprint: u64,
}

/// A trigger, over plain text.
#[verifier::ext_equal]
pub struct TriggerView {
    pub key: Seq<char>,
    pub pattern: Seq<char>,
    pub matches: Seq<Seq<char>>,
    pub command: Option<Seq<Seq<char>>>,
    pub capture: bool,
    pub fingerprint: u64,
}

impl View for HighlightTrigger {
    type V = TriggerView;

    open spec fn view(&self) -> TriggerView {
        TriggerView {
            key: self.key@,
            pattern: self.pattern@,
            matches: texts(self.matched_texts@),
            command: optional_texts(self.command),
            capture: self.capture_tui_screenshot,
            fingerprint: self.fingerprint,
        }
    }
}

/// The views of a list of triggers.
pub open spec fn trigger_views(triggers: Seq<HighlightTrigger>) -> Seq<TriggerView> {
    triggers.map_values(|t: HighlightTrigger| t@)
}

/// The columns that a range of characters covers: from the first column of its
/// first character to the last of its last. An empty range covers none.
pub open spec fn cell_range(
    char_spans: Seq<(usize, usize)>,
    start: int,
    end: int,
) -> Option<(usize, usize)> {
    if start < end && start < char_spans.len() && end <= char_spans.len() {
        Some((char_spans[start].0, char_spans[end - 1].1))
    } else {
        None
    }
}

/// The columns that a range of characters covers.
pub fn char_range_to_cell_range(
    line: &ScreenLine,
    start_char: usize,
    end_char: usize,
) -> (r: Option<(usize, usize)>)
    ensures
        r == cell_range(line.char_spans@, start_char as int, end_char as int),
{
    if start_char >= end_char {
        return None;
    }
    if start_char >= line.char_spans.len() || end_char > line.char_spans.len() {
        return None;
    }
    let start: usize = line.char_spans[start_char].0;
    let end: usize = line.char_spans[end_char - 1].1;
    Some((start, end))
}

/// Whether a match, given by its bytes, covers a column of the line.
pub open spec fn covers(line: LineView, span: (usize, usize), col: int) -> bool {
    match cell_range(
        line.char_spans,
        chars_before(line.text, span.0 as int) as int,
        chars_before(line.text, span.1 as int) as int,
    ) {
        Some((start, end)) => start <= col < end,
        None => false,
    }
}

/// Whether one of the matches covers a column of the line.
pub open spec fn marked(line: LineView, spans: Seq<(usize, usize)>, col: int) -> bool {
    exists|i: int| 0 <= i < spans.len() && covers(line, #[trigger] spans[i], col)
}

/// The text of a match that is given by its bytes.
pub open spec fn match_text(text: Seq<char>, span: (usize, usize)) -> Seq<char> {
    text.subrange(
        chars_before(text, span.0 as int) as int,
        chars_before(text, span.1 as int) as int,
    )
}

/// The texts of the matches in one line.
pub open spec fn line_texts(text: Seq<char>, spans: Seq<(usize, usize)>) -> Seq<Seq<char>> {
    spans.map_values(|span: (usize, usize)| match_text(text, span))
}

/// The texts of the matches in the first `n` lines.
pub open spec fn rule_texts(
    lines: Seq<LineView>,
    found: Seq<Seq<(usize, usize)>>,
    n: int,
) -> Seq<Seq<char>>
    decreases n,
{
    if n <= 0 {
        Seq::empty()
    } else {
        rule_texts(lines, found, n - 1) + line_texts(lines[n - 1].text, found[n - 1])
    }
}

/// The colour of a cell by the first `n` rules: where several rules match, the
/// last one counts. `found[r][row]` are the matches of rule `r` in a row.
pub open spec fn color_at(
    lines: Seq<LineView>,
    rules: Seq<HighlightRule>,
    found: Seq<Seq<Seq<(usize, usize)>>>,
    row: int,
    col: int,
    n: int,
) -> Option<Rgb>
    decreases n,
{
    if n <= 0 {
        None
    } else if marked(lines[row], found[n - 1][row], col) {
        Some(rules[n - 1].color)
    } else {
        color_at(lines, rules, found, row, col, n - 1)
    }
}

/// Where matches of several rules lie over one another, the last of the rules
/// decides the colour.
pub proof fn law_last_matching_rule_colors(
    lines: Seq<LineView>,
    rules: Seq<HighlightRule>,
    found: Seq<Seq<Seq<(usize, usize)>>>,
    row: int,
    col: int,
    k: int,
    n: int,
)
    requires
        0 <= k < n,
        marked(lines[row], found[k][row], col),
        forall|j: int| k < j < n ==> !marked(lines[row], (#[trigger] found[j])[row], col),
    ensures
        color_at(lines, rules, found, row, col, n) == Some(rules[k].color),
    decreases n,
{
    if k < n - 1 {
        assert(!marked(lines[row], found[n - 1][row], col));
        law_last_matching_rule_colors(lines, rules, found, row, col, k, n - 1);
    }
}

/// A cell that no match covers keeps its own colour.
pub proof fn law_unmatched_cells_stay_plain(
    lines: Seq<LineView>,
    rules: Seq<HighlightRule>,
    found: Seq<Seq<Seq<(usize, usize)>>>,
    row: int,
    col: int,
    n: int,
)
    requires
        forall|j: int| 0 <= j < n ==> !marked(lines[row], (#[trigger] found[j])[row], col),
    ensures
        color_at(lines, rules, found, row, col, n) is None,
    decreases n,
{
    if n > 0 {
        assert(!marked(lines[row], found[n - 1][row], col));
        law_unmatched_cells_stay_plain(lines, rules, found, row, col, n - 1);
    }
}

/// What is fed to the hasher for a list of texts.
pub open spec fn hash_writes(items: Seq<Seq<char>>) -> Seq<Seq<u8>>
    decreases items.len(),
{
    if items.len() == 0 {
        Seq::empty()
    } else {
        hash_writes(items.drop_last()) + str_hash_writes(items.last())
    }
}

/// The number by which the matches of a rule are recognised.
pub open spec fn fingerprint_of(key: Seq<char>, matches: Seq<Seq<char>>) -> u64 {
    DefaultHasher::spec_finish(str_hash_writes(key) + hash_writes(matches))
}

/// The trigger of a rule with these matches.
pub open spec fn trigger_of(rule: HighlightRule, matches: Seq<Seq<char>>) -> TriggerView {
    TriggerView {
        key: rule.key@,
        pattern: rule.pattern@,
        matches,
        command: optional_texts(rule.command),
        capture: rule.capture_tui_screenshot,
        fingerprint: fingerprint_of(rule.key@, matches),
    }
}

/// The triggers of the first `n` rules: one for each that has a match.
pub open spec fn triggers_of(
    lines: Seq<LineView>,
    rules: Seq<HighlightRule>,
    found: Seq<Seq<Seq<(usize, usize)>>>,
    n: int,
) -> Seq<TriggerView>
    decreases n,
{
    if n <= 0 {
        Seq::empty()
    } else {
        let before = triggers_of(lines, rules, found, n - 1);
        let matches = rule_texts(lines, found[n - 1], lines.len() as int);
        if matches.len() == 0 {
            before
        } else {
            before.push(trigger_of(rules[n - 1], matches))
        }
    }
}

/// The colours of all cells.
pub open spec fn colors_of(
    lines: Seq<LineView>,
    rules: Seq<HighlightRule>,
    found: Seq<Seq<Seq<(usize, usize)>>>,
) -> Seq<Seq<Option<Rgb>>> {
    Seq::new(
        lines.len(),
        |row: int|
            Seq::new(
                lines[row].cell_count,
                |col: int| color_at(lines, rules, found, row, col, rules.len() as int),
            ),
    )
}

/// The contents of rows of colours.
pub open spec fn color_rows(colors: Seq<Vec<Option<Rgb>>>) -> Seq<Seq<Option<Rgb>>> {
    colors.map_values(|row: Vec<Option<Rgb>>| row@)
}

/// Whether an evaluation is what the matches amount to.
pub open spec fn evaluated(
    evaluation: HighlightEvaluation,
    lines: Seq<LineView>,
    rules: Seq<HighlightRule>,
    found: Seq<Seq<Seq<(usize, usize)>>>,
) -> bool {
    &&& color_rows(evaluation.colors@) == colors_of(lines, rules, found)
    &&& trigger_views(evaluation.triggers@) == triggers_of(
        lines,
        rules,
        found,
        rules.len() as int,
    )
}

/// The matches of every rule in every line.
pub open spec fn all_spans(
    lines: Seq<LineView>,
    rules: Seq<HighlightRule>,
) -> Seq<Seq<Seq<(usize, usize)>>> {
    rules.map_values(
        |rule: HighlightRule|
            lines.map_values(|line: LineView| regex_spans(rule.regex, line.text)),
    )
}

/// The contents of a nested list.
pub open spec fn nested(found: Seq<Vec<Vec<(usize, usize)>>>) -> Seq<Seq<Seq<(usize, usize)>>> {
    found.map_values(
        |rule: Vec<Vec<(usize, usize)>>| rule@.map_values(|line: Vec<(usize, usize)>| line@),
    )
}

/// Whether the matches of a rule are given for every line, and lie in it.
pub open spec fn rule_spans_fit(lines: Seq<LineView>, found: Seq<Vec<(usize, usize)>>) -> bool {
    &&& found.len() == lines.len()
    &&& forall|row: int|
        0 <= row < lines.len() ==> spans_fit(lines[row].text, (#[trigger] found[row])@)
}

/// The number by which the matches of a rule are recognised: the hash of its key
/// and of the texts, in order.
pub fn fingerprint(key: &str, matches: &[String]) -> (r: u64)
    ensures
        r == fingerprint_of(key@, texts(matches@)),
{
    let mut hasher = DefaultHasher::new();
    hash_str(&mut hasher, key);
    let ghost all = texts(matches@);
    let mut i: usize = 0;
    assert(all.take(0) == Seq::<Seq<char>>::empty());
    assert(hasher@ == str_hash_writes(key@) + hash_writes(all.take(0)));
    while i < matches.len()
        invariant
            all == texts(matches@),
            i <= matches@.len(),
            hasher@ == str_hash_writes(key@) + hash_writes(all.take(i as int)),
        decreases matches@.len() - i,
    {
        hash_str(&mut hasher, matches[i].as_str());
        proof {
            assert(all.take(i + 1).drop_last() == all.take(i as int));
            assert(all.take(i + 1).last() == matches@[i as int]@);
            assert(hasher@ == str_hash_writes(key@) + hash_writes(all.take(i + 1)));
        }
        i = i + 1;
    }
    assert(all.take(i as int) == all);
    hasher.finish()
}

fn mark_matches(
    colors: &mut Vec<Option<Rgb>>,
    line: &ScreenLine,
    spans: &Vec<(usize, usize)>,
    color: Rgb,
)
    requires
        spans_fit(line.text@, spans@),
    ensures
        final(colors)@.len() == old(colors)@.len(),
        forall|col: int|
            0 <= col < old(colors)@.len() ==> #[trigger] final(colors)@[col] == if marked(
                line@,
                spans@,
                col,
            ) {
                Some(color)
            } else {
                old(colors)@[col]
            },
{
    let mut i: usize = 0;
    assert(spans@.take(0) == Seq::<(usize, usize)>::empty());
    while i < spans.len()
        invariant
            i <= spans@.len(),
            spans_fit(line.text@, spans@),
            colors@.len() == old(colors)@.len(),
            forall|col: int|
                0 <= col < colors@.len() ==> #[trigger] colors@[col] == if marked(
                    line@,
                    spans@.take(i as int),
                    col,
                ) {
                    Some(color)
                } else {
                    old(colors)@[col]
                },
        decreases spans@.len() - i,
    {
        let (first, last) = spans[i];
        let ghost before = colors@;
        proof {
            lemma_end_chars(line.text@, first as int);
            lemma_end_chars(line.text@, last as int);
        }
        let start: usize = byte_to_char_idx(line.text.as_str(), first);
        let end: usize = byte_to_char_idx(line.text.as_str(), last);
        if let Some((start_col, end_col)) = char_range_to_cell_range(line, start, end) {
            let limit: usize = if end_col < colors.len() {
                end_col
            } else {
                colors.len()
            };
            let mut col: usize = start_col;
            while col < limit
                invariant
                    limit <= colors@.len(),
                    limit == end_col || limit == colors@.len(),
                    limit <= end_col,
                    start_col <= col,
                    col <= limit || col == start_col,
                    colors@.len() == before.len(),
                    forall|c: int|
                        0 <= c < colors@.len() ==> #[trigger] colors@[c] == if start_col <= c < col
                        {
                            Some(color)
                        } else {
                            before[c]
                        },
                decreases limit - col,
            {
                colors.set(col, Some(color));
                col = col + 1;
            }
        }
        proof {
            assert forall|col: int| 0 <= col < colors@.len() implies #[trigger] colors@[col]
                == if marked(line@, spans@.take(i + 1), col) {
                Some(color)
            } else {
                old(colors)@[col]
            } by {
                lemma_marked_next(line@, spans@, i as int, col);
                assert(before[col] == if marked(line@, spans@.take(i as int), col) {
                    Some(color)
                } else {
                    old(colors)@[col]
                });
            }
        }
        i = i + 1;
    }
    assert(spans@.take(i as int) == spans@);
}

proof fn lemma_marked_next(line: LineView, spans: Seq<(usize, usize)>, i: int, col: int)
    requires
        0 <= i < spans.len(),
    ensures
        marked(line, spans.take(i + 1), col) == (marked(line, spans.take(i), col) || covers(
            line,
            spans[i],
            col,
        )),
{
    let now = spans.take(i);
    let next = spans.take(i + 1);
    if marked(line, now, col) {
        let j = choose|j: int| 0 <= j < now.len() && covers(line, #[trigger] now[j], col);
        assert(next[j] == now[j]);
    }
    if covers(line, spans[i], col) {
        assert(next[i] == spans[i]);
    }
    if marked(line, next, col) {
        let j = choose|j: int| 0 <= j < next.len() && covers(line, #[trigger] next[j], col);
        if j < i {
            assert(now[j] == next[j]);
        }
    }
}

/// At the end of a text all of its characters lie before.
proof fn lemma_end_chars(text: Seq<char>, byte: int)
    ensures
        byte == encode_utf8(text).len() ==> chars_before(text, byte) == text.len(),
{
    encode_utf8_decode_utf8(text);
    assert(encode_utf8(text).subrange(0, encode_utf8(text).len() as int) == encode_utf8(text));
}

fn collect_texts(found: &mut Vec<String>, text: &str, spans: &Vec<(usize, usize)>)
    requires
        spans_fit(text@, spans@),
    ensures
        texts(final(found)@) == texts(old(found)@) + line_texts(text@, spans@),
{
    let mut i: usize = 0;
    assert(texts(found@) == texts(old(found)@) + line_texts(text@, spans@.take(0)));
    while i < spans.len()
        invariant
            i <= spans@.len(),
            spans_fit(text@, spans@),
            texts(found@) == texts(old(found)@) + line_texts(text@, spans@.take(i as int)),
        decreases spans@.len() - i,
    {
        let ghost before = found@;
        let (first, last) = spans[i];
        proof {
            lemma_end_chars(text@, first as int);
            lemma_end_chars(text@, last as int);
            lemma_chars_before_order(text@, first as int, last as int);
        }
        let start: usize = byte_to_char_idx(text, first);
        let end: usize = byte_to_char_idx(text, last);
        let piece = text.substring_char(start, end).to_owned();
        found.push(piece);
        proof {
            assert(texts(found@) == texts(before).push(piece@));
            assert(line_texts(text@, spans@.take(i + 1)) == line_texts(
                text@,
                spans@.take(i as int),
            ).push(match_text(text@, spans@[i as int])));
        }
        i = i + 1;
    }
    assert(spans@.take(i as int) == spans@);
}

pub(crate) fn copy_strings(items: &Vec<String>) -> (r: Vec<String>)
    ensures
        texts(r@) == texts(items@),
{
    let mut out: Vec<String> = Vec::new();
    let mut i: usize = 0;
    while i < items.len()
        invariant
            i <= items@.len(),
            texts(out@) == texts(items@).take(i as int),
        decreases items@.len() - i,
    {
        let ghost before = out@;
        out.push(items[i].as_str().to_owned());
        assert(texts(out@) == texts(before).push(items@[i as int]@));
        assert(texts(items@).take(i + 1) == texts(items@).take(i as int).push(items@[i as int]@));
        i = i + 1;
    }
    assert(texts(items@).take(i as int) == texts(items@));
    out
}

fn copy_command(command: &Option<Vec<String>>) -> (r: Option<Vec<String>>)
    ensures
        optional_texts(r) == optional_texts(*command),
{
    match command {
        Some(words) => Some(copy_strings(words)),
        None => None,
    }
}

fn no_colors(lines: &[ScreenLine]) -> (r: Vec<Vec<Option<Rgb>>>)
    ensures
        r@.len() == lines@.len(),
        forall|row: int|
            0 <= row < lines@.len() ==> (#[trigger] r@[row])@ == Seq::new(
                lines@[row].cell_count as nat,
                |col: int| None::<Rgb>,
            ),
{
    let mut colors: Vec<Vec<Option<Rgb>>> = Vec::new();
    let mut row: usize = 0;
    while row < lines.len()
        invariant
            row <= lines@.len(),
            colors@.len() == row,
            forall|k: int|
                0 <= k < row ==> (#[trigger] colors@[k])@ == Seq::new(
                    lines@[k].cell_count as nat,
                    |col: int| None::<Rgb>,
                ),
        decreases lines@.len() - row,
    {
        let mut cells: Vec<Option<Rgb>> = Vec::new();
        let mut col: usize = 0;
        while col < lines[row].cell_count
            invariant
                row < lines@.len(),
                col <= lines@[row as int].cell_count,
                cells@ == Seq::new(col as nat, |c: int| None::<Rgb>),
            decreases lines@[row as int].cell_count - col,
        {
            cells.push(None);
            assert(cells@ == Seq::new((col + 1) as nat, |c: int| None::<Rgb>));
            col = col + 1;
        }
        colors.push(cells);
        row = row + 1;
    }
    colors
}

fn apply_rule(
    colors: &mut Vec<Vec<Option<Rgb>>>,
    lines: &[ScreenLine],
    color: Rgb,
    found: &Vec<Vec<(usize, usize)>>,
) -> (r: Vec<String>)
    requires
        rule_spans_fit(line_views(lines@), found@),
        old(colors)@.len() == lines@.len(),
    ensures
        final(colors)@.len() == lines@.len(),
        forall|row: int|
            0 <= row < lines@.len() ==> (#[trigger] final(colors)@[row])@.len()
                == old(colors)@[row]@.len(),
        forall|row: int, col: int|
            0 <= row < lines@.len() && 0 <= col < old(colors)@[row]@.len()
                ==> #[trigger] final(colors)@[row]@[col] == if marked(
                lines@[row]@,
                found@[row]@,
                col,
            ) {
                Some(color)
            } else {
                old(colors)@[row]@[col]
            },
        texts(r@) == rule_texts(
            line_views(lines@),
            found@.map_values(|line: Vec<(usize, usize)>| line@),
            lines@.len() as int,
        ),
{
    let ghost spans = found@.map_values(|line: Vec<(usize, usize)>| line@);
    let mut matched: Vec<String> = Vec::new();
    let mut row: usize = 0;
    assert(texts(matched@) == rule_texts(line_views(lines@), spans, 0));
    while row < lines.len()
        invariant
            spans == found@.map_values(|line: Vec<(usize, usize)>| line@),
            rule_spans_fit(line_views(lines@), found@),
            row <= lines@.len(),
            colors@.len() == lines@.len() == old(colors)@.len(),
            forall|k: int|
                0 <= k < lines@.len() ==> (#[trigger] colors@[k])@.len() == old(
                    colors,
                )@[k]@.len(),
            forall|k: int, col: int|
                0 <= k < row && 0 <= col < old(colors)@[k]@.len()
                    ==> #[trigger] colors@[k]@[col] == if marked(lines@[k]@, found@[k]@, col) {
                    Some(color)
                } else {
                    old(colors)@[k]@[col]
                },
            forall|k: int| row <= k < lines@.len() ==> #[trigger] colors@[k] == old(colors)@[k],
            texts(matched@) == rule_texts(line_views(lines@), spans, row as int),
        decreases lines@.len() - row,
    {
        collect_texts(&mut matched, lines[row].text.as_str(), &found[row]);
        mark_matches(&mut colors[row], &lines[row], &found[row], color);
        row = row + 1;
    }
    matched
}

/// Puts together what the matches of the rules amount to. `found[r][row]` are
/// the bytes of the matches of rule `r` in a row.
pub fn evaluate_matches(
    lines: &[ScreenLine],
    rules: &[HighlightRule],
    found: &Vec<Vec<Vec<(usize, usize)>>>,
) -> (r: HighlightEvaluation)
    requires
        found@.len() == rules@.len(),
        forall|i: int| 0 <= i < found@.len() ==> rule_spans_fit(line_views(lines@), (#[trigger] found@[i])@),
    ensures
        evaluated(r, line_views(lines@), rules@, nested(found@)),
{
    let ghost all = nested(found@);
    let mut colors = no_colors(lines);
    let mut triggers: Vec<HighlightTrigger> = Vec::new();
    let mut n: usize = 0;
    assert(trigger_views(triggers@) == triggers_of(line_views(lines@), rules@, all, 0));
    while n < rules.len()
        invariant
            all == nested(found@),
            found@.len() == rules@.len(),
            forall|i: int|
                0 <= i < found@.len() ==> rule_spans_fit(line_views(lines@), (#[trigger] found@[i])@),
            n <= rules@.len(),
            colors@.len() == lines@.len(),
            forall|row: int|
                0 <= row < lines@.len() ==> (#[trigger] colors@[row])@.len()
                    == lines@[row].cell_count,
            forall|row: int, col: int|
                0 <= row < lines@.len() && 0 <= col < lines@[row].cell_count
                    ==> #[trigger] colors@[row]@[col] == color_at(
                    line_views(lines@),
                    rules@,
                    all,
                    row,
                    col,
                    n as int,
                ),
            trigger_views(triggers@) == triggers_of(line_views(lines@), rules@, all, n as int),
        decreases rules@.len() - n,
    {
        let rule = &rules[n];
        let ghost before = triggers@;
        let ghost shown = colors@;
        let matched = apply_rule(&mut colors, lines, rule.color, &found[n]);
        proof {
            assert(all[n as int] == found@[n as int]@.map_values(|line: Vec<(usize, usize)>| line@));
            assert forall|row: int, col: int|
                0 <= row < lines@.len() && 0 <= col < lines@[row].cell_count implies
                #[trigger] colors@[row]@[col] == color_at(
                line_views(lines@),
                rules@,
                all,
                row,
                col,
                n + 1,
            ) by {
                assert(shown[row]@[col] == color_at(line_views(lines@), rules@, all, row, col, n as int));
                assert(all[n as int][row] == found@[n as int]@[row]@);
            }
        }
        let ghost matches = texts(matched@);
        if matched.len() != 0 {
            let trigger = HighlightTrigger {
                key: rule.key.as_str().to_owned(),
                pattern: rule.pattern.as_str().to_owned(),
                fingerprint: fingerprint(rule.key.as_str(), matched.as_slice()),
                matched_texts: matched,
                command: copy_command(&rule.command),
                capture_tui_screenshot: rule.capture_tui_screenshot,
            };
            triggers.push(trigger);
            assert(trigger@ == trigger_of(rules@[n as int], matches));
            assert(trigger_views(triggers@) == trigger_views(before).push(trigger@));
        }
        n = n + 1;
    }
    proof {
        let wanted = colors_of(line_views(lines@), rules@, all);
        assert forall|row: int| 0 <= row < lines@.len() implies #[trigger] color_rows(colors@)[row]
            == wanted[row] by {
            assert(colors@[row]@ == wanted[row]);
        }
        assert(color_rows(colors@) == wanted);
    }
    HighlightEvaluation { colors, triggers }
}

/// Looks for the patterns of the rules in the lines of the screen.
pub fn evaluate_lines(lines: &[ScreenLine], rules: &[HighlightRule]) -> (r: HighlightEvaluation)
    ensures
        evaluated(r, line_views(lines@), rules@, all_spans(line_views(lines@), rules@)),
{
    let mut found: Vec<Vec<Vec<(usize, usize)>>> = Vec::new();
    let mut n: usize = 0;
    while n < rules.len()
        invariant
            n <= rules@.len(),
            found@.len() == n,
            forall|i: int| 0 <= i < n ==> rule_spans_fit(line_views(lines@), (#[trigger] found@[i])@),
            forall|i: int, row: int|
                0 <= i < n && 0 <= row < lines@.len() ==> (#[trigger] found@[i]@[row])@
                    == regex_spans(rules@[i].regex, lines@[row].text@),
        decreases rules@.len() - n,
    {
        let mut per_line: Vec<Vec<(usize, usize)>> = Vec::new();
        let mut row: usize = 0;
        while row < lines.len()
            invariant
                n < rules@.len(),
                row <= lines@.len(),
                per_line@.len() == row,
                forall|k: int|
                    0 <= k < row ==> spans_fit(lines@[k].text@, (#[trigger] per_line@[k])@),
                forall|k: int|
                    0 <= k < row ==> (#[trigger] per_line@[k])@ == regex_spans(
                        rules@[n as int].regex,
                        lines@[k].text@,
                    ),
            decreases lines@.len() - row,
        {
            per_line.push(find_spans(&rules[n].regex, lines[row].text.as_str()));
            row = row + 1;
        }
        found.push(per_line);
        n = n + 1;
    }
    proof {
        let all = all_spans(line_views(lines@), rules@);
        assert forall|i: int| 0 <= i < rules@.len() implies #[trigger] nested(found@)[i]
            == all[i] by {
            assert(nested(found@)[i] == all[i]);
        }
        assert(nested(found@) == all);
    }
    evaluate_matches(lines, rules, &found)
}

/// How many of the first `n` rules have a match.
pub open spec fn matching_before(
    lines: Seq<LineView>,
    found: Seq<Seq<Seq<(usize, usize)>>>,
    n: int,
) -> nat
    decreases n,
{
    if n <= 0 {
        0
    } else {
        matching_before(lines, found, n - 1) + if rule_texts(
            lines,
            found[n - 1],
            lines.len() as int,
        ).len() > 0 {
            1nat
        } else {
            0nat
        }
    }
}

/// Every rule that has a match has its own trigger, the triggers stand in the order
/// of their rules, and there are no others.
pub proof fn law_every_matching_rule_triggers(
    lines: Seq<LineView>,
    rules: Seq<HighlightRule>,
    found: Seq<Seq<Seq<(usize, usize)>>>,
    n: int,
    k: int,
)
    requires
        0 <= k < n,
    ensures
        triggers_of(lines, rules, found, n).len() == matching_before(lines, found, n),
        rule_texts(lines, found[k], lines.len() as int).len() > 0 ==> matching_before(
            lines,
            found,
            k,
        ) < matching_before(lines, found, n) && triggers_of(lines, rules, found, n)[matching_before(
            lines,
            found,
            k,
        ) as int] == trigger_of(rules[k], rule_texts(lines, found[k], lines.len() as int)),
    decreases n,
{
    if k < n - 1 {
        law_every_matching_rule_triggers(lines, rules, found, n - 1, k);
    } else {
        lemma_trigger_count(lines, rules, found, n - 1);
    }
}

proof fn lemma_trigger_count(
    lines: Seq<LineView>,
    rules: Seq<HighlightRule>,
    found: Seq<Seq<Seq<(usize, usize)>>>,
    n: int,
)
    ensures
        triggers_of(lines, rules, found, n).len() == matching_before(lines, found, n),
    decreases n,
{
    if n > 0 {
        lemma_trigger_count(lines, rules, found, n - 1);
    }
}

/// A trigger tells of its rule and of all matches.
pub proof fn law_a_trigger_tells_of_its_rule(rule: HighlightRule, matches: Seq<Seq<char>>)
    ensures
        trigger_of(rule, matches).key == rule.key@,
        trigger_of(rule, matches).pattern == rule.pattern@,
        trigger_of(rule, matches).matches == matches,
        trigger_of(rule, matches).command == optional_texts(rule.command),
        trigger_of(rule, matches).capture == rule.capture_tui_screenshot,
        trigger_of(rule, matches).fingerprint == fingerprint_of(rule.key@, matches),
{
}

/// The fingerprint is the hash of the key and of every match, in order.
pub proof fn law_a_fingerprint_hashes_every_match(
    key: Seq<char>,
    a: Seq<Seq<char>>,
    b: Seq<Seq<char>>,
    text: Seq<char>,
)
    ensures
        fingerprint_of(key, a) == DefaultHasher::spec_finish(
            str_hash_writes(key) + hash_writes(a),
        ),
        hash_writes(a + b) == hash_writes(a) + hash_writes(b),
        hash_writes(seq![text]) == str_hash_writes(text),
        hash_writes(Seq::empty()) == Seq::<Seq<u8>>::empty(),
    decreases b.len(),
{
    reveal_with_fuel(hash_writes, 2);
    assert(seq![text].drop_last() == Seq::<Seq<char>>::empty());
    assert(Seq::<Seq<u8>>::empty() + str_hash_writes(text) == str_hash_writes(text));
    if b.len() == 0 {
        assert(a + b == a);
        assert(hash_writes(a) + hash_writes(b) == hash_writes(a));
    } else {
        law_a_fingerprint_hashes_every_match(key, a, b.drop_last(), text);
        assert((a + b).drop_last() == a + b.drop_last());
        assert((a + b).last() == b.last());
        assert(hash_writes(a) + hash_writes(b.drop_last()) + str_hash_writes(b.last())
            == hash_writes(a) + hash_writes(b));
    }
}

/// The matches of a rule are those of its lines, from the first line to the last.
pub proof fn law_matches_of_lines_in_order(
    a: Seq<LineView>,
    b: Seq<LineView>,
    in_a: Seq<Seq<(usize, usize)>>,
    in_b: Seq<Seq<(usize, usize)>>,
)
    requires
        a.len() == in_a.len(),
        b.len() == in_b.len(),
    ensures
        rule_texts(a + b, in_a + in_b, (a + b).len() as int) == rule_texts(
            a,
            in_a,
            a.len() as int,
        ) + rule_texts(b, in_b, b.len() as int),
{
    lemma_texts_of_prefix(a, b, in_a, in_b, a.len() as int);
    lemma_texts_of_suffix(a, b, in_a, in_b, b.len() as int);
}

proof fn lemma_texts_of_prefix(
    a: Seq<LineView>,
    b: Seq<LineView>,
    in_a: Seq<Seq<(usize, usize)>>,
    in_b: Seq<Seq<(usize, usize)>>,
    n: int,
)
    requires
        a.len() == in_a.len(),
        0 <= n <= a.len(),
    ensures
        rule_texts(a + b, in_a + in_b, n) == rule_texts(a, in_a, n),
    decreases n,
{
    if n > 0 {
        lemma_texts_of_prefix(a, b, in_a, in_b, n - 1);
    }
}

proof fn lemma_texts_of_suffix(
    a: Seq<LineView>,
    b: Seq<LineView>,
    in_a: Seq<Seq<(usize, usize)>>,
    in_b: Seq<Seq<(usize, usize)>>,
    n: int,
)
    requires
        a.len() == in_a.len(),
        b.len() == in_b.len(),
        0 <= n <= b.len(),
    ensures
        rule_texts(a + b, in_a + in_b, a.len() + n) == rule_texts(a, in_a, a.len() as int)
            + rule_texts(b, in_b, n),
    decreases n,
{
    let first = rule_texts(a, in_a, a.len() as int);
    if n == 0 {
        lemma_texts_of_prefix(a, b, in_a, in_b, a.len() as int);
        assert(first + Seq::<Seq<char>>::empty() == first);
    } else {
        lemma_texts_of_suffix(a, b, in_a, in_b, n - 1);
        let own = line_texts(b[n - 1].text, in_b[n - 1]);
        assert(first + rule_texts(b, in_b, n - 1) + own == first + (rule_texts(b, in_b, n - 1)
            + own));
    }
}

/// Each match in a line is reported, in order, with the bytes that it has in the
/// line.
pub proof fn law_every_match_is_reported(line: LineView, spans: Seq<(usize, usize)>, i: int)
    requires
        spans_fit(line.text, spans),
        0 <= i < spans.len(),
    ensures
        rule_texts(seq![line], seq![spans], 1).len() == spans.len(),
        encode_utf8(rule_texts(seq![line], seq![spans], 1)[i]) == encode_utf8(
            line.text,
        ).subrange(spans[i].0 as int, spans[i].1 as int),
{
    reveal_with_fuel(rule_texts, 2);
    let texts = line_texts(line.text, spans);
    assert(rule_texts(seq![line], seq![spans], 1) == Seq::<Seq<char>>::empty() + texts);
    assert(Seq::<Seq<char>>::empty() + texts == texts);
    assert(texts[i] == match_text(line.text, spans[i]));
    law_character_ranges_hold_their_bytes(line.text, spans, i);
}

/// Whether the columns of the characters of a line follow one another.
pub open spec fn columns_follow(line: LineView) -> bool {
    &&& forall|i: int|
        0 <= i < line.char_spans.len() ==> (#[trigger] line.char_spans[i]).0
            <= line.char_spans[i].1
    &&& forall|i: int, j: int|
        0 <= i < j < line.char_spans.len() ==> (#[trigger] line.char_spans[i]).1 <= (
        #[trigger] line.char_spans[j]).0
}

/// A match covers the columns of each of its characters, and none before its first
/// or behind its last.
pub proof fn law_a_match_covers_its_characters(
    line: LineView,
    span: (usize, usize),
    k: int,
    col: int,
)
    requires
        columns_follow(line),
        chars_before(line.text, span.1 as int) <= line.char_spans.len(),
    ensures
        ({
            let start = chars_before(line.text, span.0 as int) as int;
            let end = chars_before(line.text, span.1 as int) as int;
            &&& start <= k < end && line.char_spans[k].0 <= col < line.char_spans[k].1 ==> covers(
                line,
                span,
                col,
            )
            &&& covers(line, span, col) == (start < end && line.char_spans[start].0 <= col
                < line.char_spans[end - 1].1)
        }),
{
    let start = chars_before(line.text, span.0 as int) as int;
    let end = chars_before(line.text, span.1 as int) as int;
    if start <= k < end {
        let spans = line.char_spans;
        assert(spans[start].0 <= spans[start].1);
        assert(spans[end - 1].0 <= spans[end - 1].1);
        if start < k {
            assert(spans[start].1 <= spans[k].0);
        }
        if k < end - 1 {
            assert(spans[k].1 <= spans[end - 1].0);
        }
    }
}

/// A column is marked where one of the matches covers it.
pub proof fn law_any_match_marks(
    line: LineView,
    a: Seq<(usize, usize)>,
    b: Seq<(usize, usize)>,
    span: (usize, usize),
    col: int,
)
    ensures
        marked(line, a + b, col) == (marked(line, a, col) || marked(line, b, col)),
        marked(line, seq![span], col) == covers(line, span, col),
        !marked(line, Seq::empty(), col),
{
    let both = a + b;
    if marked(line, a, col) {
        let i = choose|i: int| 0 <= i < a.len() && covers(line, #[trigger] a[i], col);
        assert(both[i] == a[i]);
    }
    if marked(line, b, col) {
        let i = choose|i: int| 0 <= i < b.len() && covers(line, #[trigger] b[i], col);
        assert(both[a.len() + i] == b[i]);
    }
    if marked(line, both, col) {
        let i = choose|i: int| 0 <= i < both.len() && covers(line, #[trigger] both[i], col);
        if i < a.len() {
            assert(a[i] == both[i]);
        } else {
            assert(b[i - a.len()] == both[i]);
        }
    }
    if covers(line, span, col) {
        assert(seq![span][0] == span);
    }
}

/// Every cell of every line has its colour, and every rule is looked for in every
/// line.
pub proof fn law_every_cell_and_line_is_looked_at(
    lines: Seq<LineView>,
    rules: Seq<HighlightRule>,
    found: Seq<Seq<Seq<(usize, usize)>>>,
    rule: int,
    row: int,
    col: int,
)
    requires
        0 <= row < lines.len(),
    ensures
        colors_of(lines, rules, found).len() == lines.len(),
        colors_of(lines, rules, found)[row].len() == lines[row].cell_count,
        0 <= col < lines[row].cell_count ==> colors_of(lines, rules, found)[row][col] == color_at(
            lines,
            rules,
            found,
            row,
            col,
            rules.len() as int,
        ),
        all_spans(lines, rules).len() == rules.len(),
        0 <= rule < rules.len() ==> all_spans(lines, rules)[rule].len() == lines.len()
            && all_spans(lines, rules)[rule][row] == regex_spans(
            rules[rule].regex,
            lines[row].text,
        ),
{
}

/// The view of a trigger holds everything that is told of it.
pub proof fn law_trigger_view_is_whole(triggers: Seq<HighlightTrigger>, i: int)
    requires
        0 <= i < triggers.len(),
    ensures
        trigger_views(triggers).len() == triggers.len(),
        trigger_views(triggers)[i] == triggers[i]@,
        triggers[i]@.key == triggers[i].key@,
        triggers[i]@.pattern == triggers[i].pattern@,
        triggers[i]@.matches == texts(triggers[i].matched_texts@),
        triggers[i]@.capture == triggers[i].capture_tui_screenshot,
        triggers[i]@.fingerprint == triggers[i].fingerprint,
        match triggers[i].command {
            Some(words) => triggers[i]@.command == Some(texts(words@)),
            None => triggers[i]@.command is None,
        },
{
}

/// The contents of rows of colours, and of nested lists of matches, are those of every
/// row and every list.
pub proof fn law_lists_are_whole(
    colors: Seq<Vec<Option<Rgb>>>,
    found: Seq<Vec<Vec<(usize, usize)>>>,
    i: int,
    row: int,
)
    ensures
        color_rows(colors).len() == colors.len(),
        0 <= i < colors.len() ==> color_rows(colors)[i] == colors[i]@,
        nested(found).len() == found.len(),
        0 <= i < found.len() ==> nested(found)[i].len() == found[i]@.len(),
        0 <= i < found.len() && 0 <= row < found[i]@.len() ==> nested(found)[i][row]
            == found[i]@[row]@,
{
}

} // verus!
