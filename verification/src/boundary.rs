//! The calls into other crates. Nothing here is proved: each contract states
//! what the called function is documented, or read, to do.
use crate::model::{CellView, DisplayColor, Rgb, StyledCell, texts};
use std::collections::hash_map::DefaultHasher;
use std::hash::Hash;
use unicode_width::{UnicodeWidthChar, UnicodeWidthStr};
use vstd::prelude::*;
use vstd::utf8::*;

verus! {

/// `regex::Regex`: a compiled pattern, of which nothing is known but what the
/// functions below say.
#[verifier::external_type_specification]
#[verifier::external_body]
pub struct ExRegex(regex::Regex);

/// `regex::Error`: why a pattern was refused; it is only handed on.
#[verifier::external_type_specification]
#[verifier::external_body]
pub struct ExRegexError(regex::Error);

/// `shell_words::ParseError`: it is only handed on.
#[verifier::external_type_specification]
#[verifier::external_body]
pub struct ExShellParseError(shell_words::ParseError);

/// `serde_json::Error`: it is only handed on.
#[verifier::external_type_specification]
#[verifier::external_body]
pub struct ExJsonError(serde_json::Error);

/// What `Regex::new` makes of a pattern.
pub uninterp spec fn regex_compiled(pattern: Seq<char>) -> Result<regex::Regex, regex::Error>;

/// Compiles a pattern with `Regex::new`. Whether that succeeds, and what comes
/// of it, depends on the pattern alone.
#[verifier::external_body]
pub(crate) fn compile_regex(pattern: &str) -> (r: Result<regex::Regex, regex::Error>)
    ensures
        r == regex_compiled(pattern@),
{
    regex::Regex::new(pattern)
}

/// The byte ranges of the matches that `Regex::find_iter` yields, in order.
pub uninterp spec fn regex_spans(regex: regex::Regex, text: Seq<char>) -> Seq<(usize, usize)>;

/// Byte ranges that lie in a text, start and end between characters, and follow
/// one another without overlap.
pub open spec fn spans_fit(text: Seq<char>, spans: Seq<(usize, usize)>) -> bool {
    &&& forall|i: int|
        0 <= i < spans.len() ==> (#[trigger] spans[i]).0 <= spans[i].1 <= encode_utf8(text).len()
            && is_char_boundary(encode_utf8(text), spans[i].0 as int) && is_char_boundary(
            encode_utf8(text),
            spans[i].1 as int,
        )
    &&& forall|i: int, j: int| 0 <= i < j < spans.len() ==> spans[i].1 <= spans[j].0
}

/// Collects the matches of `Regex::find_iter` as byte ranges. The ranges lie on
/// character boundaries of the text and are successive and non-overlapping.
#[verifier::external_body]
pub(crate) fn find_spans(regex: &regex::Regex, text: &str) -> (r: Vec<(usize, usize)>)
    ensures
        r@ == regex_spans(*regex, text@),
        spans_fit(text@, r@),
{
    regex.find_iter(text).map(|m| (m.start(), m.end())).collect()
}

/// What `UnicodeWidthChar::width` returns for a character.
pub uninterp spec fn char_width(c: char) -> Option<usize>;

/// The printable characters of ASCII, space included.
pub open spec fn printable_ascii(c: char) -> bool {
    ' ' <= c <= '~'
}

/// The ideographs of Chinese, Japanese and Korean: the unified and the
/// compatibility ones and the two planes that are set aside for more of them.
pub open spec fn ideograph(c: char) -> bool {
    ||| '\u{3400}' <= c <= '\u{4dbf}'
    ||| '\u{4e00}' <= c <= '\u{9fff}'
    ||| '\u{f900}' <= c <= '\u{faff}'
    ||| '\u{20000}' <= c <= '\u{2fffd}'
    ||| '\u{30000}' <= c <= '\u{3fffd}'
}

/// The characters whose width is the same wherever they stand among their like:
/// printable ASCII and ideographs.
pub open spec fn steady(c: char) -> bool {
    printable_ascii(c) || ideograph(c)
}

/// The width of a steady character.
pub open spec fn steady_width(c: char) -> nat {
    if printable_ascii(c) {
        1
    } else {
        2
    }
}

/// Whether a text holds steady characters only.
pub open spec fn steady_text(text: Seq<char>) -> bool {
    forall|i: int| 0 <= i < text.len() ==> steady(#[trigger] text[i])
}

/// The widths of the characters of a steady text, added up.
pub open spec fn steady_text_width(text: Seq<char>) -> nat
    decreases text.len(),
{
    if text.len() == 0 {
        0
    } else {
        steady_width(text[0]) + steady_text_width(text.drop_first())
    }
}

/// The width of a character by `UnicodeWidthChar::width`: `None` for a control
/// character. The printable characters of ASCII are one column wide and the
/// ideographs two.
#[verifier::external_body]
pub(crate) fn measure_char(c: char) -> (r: Option<usize>)
    ensures
        r == char_width(c),
        printable_ascii(c) ==> r == Some(1usize),
        ideograph(c) ==> r == Some(2usize),
{
    UnicodeWidthChar::width(c)
}

/// What `UnicodeWidthStr::width` returns for a text.
pub uninterp spec fn str_width(text: Seq<char>) -> usize;

/// The width of a text by `UnicodeWidthStr::width`. A text of printable ASCII and
/// ideographs is as wide as its characters together; of other characters the
/// width may depend on what stands next to them.
#[verifier::external_body]
pub(crate) fn measure_str(text: &str) -> (r: usize)
    ensures
        r == str_width(text@),
        steady_text(text@) ==> r == steady_text_width(text@),
{
    UnicodeWidthStr::width(text)
}

/// The words that `shell_words::split` finds, or the error where a quote is left
/// open.
pub uninterp spec fn shell_split(line: Seq<char>) -> Result<
    Seq<Seq<char>>,
    shell_words::ParseError,
>;

/// The characters that part the words of a command line.
pub open spec fn shell_delimiter(c: char) -> bool {
    c == ' ' || c == '\t' || c == '\n'
}

/// The characters that `shell_words::split` takes for themselves wherever they
/// stand.
pub open spec fn shell_plain(c: char) -> bool {
    !shell_delimiter(c) && c != '\'' && c != '"' && c != '\\' && c != '#'
}

/// Splits a command line with `shell_words::split`. Only a line with an open
/// quote is an error. A line of delimiters has no words, and a run of plain
/// characters is one word.
#[verifier::external_body]
pub(crate) fn split_command(line: &str) -> (r: Result<Vec<String>, shell_words::ParseError>)
    ensures
        r is Ok ==> shell_split(line@) == Ok::<Seq<Seq<char>>, shell_words::ParseError>(
            texts(r->Ok_0@),
        ),
        r is Err ==> shell_split(line@) == Err::<Seq<Seq<char>>, shell_words::ParseError>(
            r->Err_0,
        ),
        (forall|i: int| 0 <= i < line@.len() ==> shell_delimiter(#[trigger] line@[i])) ==> r is Ok
            && r->Ok_0@.len() == 0,
        line@.len() > 0 && (forall|i: int|
            0 <= i < line@.len() ==> shell_plain(#[trigger] line@[i])) ==> r is Ok && texts(
            r->Ok_0@,
        ) == seq![line@],
{
    shell_words::split(line)
}

/// The JSON array that `serde_json::to_string` writes for a list of strings.
pub uninterp spec fn json_strings(items: Seq<Seq<char>>) -> Seq<char>;

/// Writes a list of strings as JSON with `serde_json::to_string`, which cannot
/// fail for strings.
#[verifier::external_body]
pub(crate) fn strings_to_json(items: &Vec<String>) -> (r: Result<String, serde_json::Error>)
    ensures
        r is Ok,
        r->Ok_0@ == json_strings(texts(items@)),
{
    serde_json::to_string(items)
}

/// What the `Hash` implementation of `str` writes to a hasher.
pub uninterp spec fn str_hash_writes(text: Seq<char>) -> Seq<Seq<u8>>;

/// Feeds a text to a hasher with `str::hash`: what is written depends on the
/// text alone.
#[verifier::external_body]
pub(crate) fn hash_str(state: &mut DefaultHasher, text: &str)
    ensures
        final(state)@ == old(state)@ + str_hash_writes(text@),
{
    text.hash(state)
}

/// A terminal that interprets the output of a program: a `vt100::Parser` without
/// scrollback.
#[verifier::external_body]
pub struct Terminal {
    parser: vt100::Parser,
}

/// The rows and columns that a terminal was made with.
pub uninterp spec fn terminal_size(terminal: Terminal) -> (u16, u16);

/// The pieces of output that a terminal was fed with, in order.
pub uninterp spec fn terminal_fed(terminal: Terminal) -> Seq<Seq<u8>>;

/// What `Screen::cell` shows at a position of a terminal of this size that was
/// fed with these pieces.
pub uninterp spec fn shown_cell(
    size: (u16, u16),
    fed: Seq<Seq<u8>>,
    row: u16,
    col: u16,
) -> Option<CellView>;

/// Where `Screen::cursor_position` finds the cursor of such a terminal.
pub uninterp spec fn shown_cursor(size: (u16, u16), fed: Seq<Seq<u8>>) -> (u16, u16);

/// Whether `Screen::hide_cursor` says that the cursor of such a terminal is
/// hidden.
pub uninterp spec fn cursor_hidden(size: (u16, u16), fed: Seq<Seq<u8>>) -> bool;

/// A cell that nothing was written to.
pub open spec fn empty_cell() -> CellView {
    CellView {
        text: Seq::empty(),
        fg: DisplayColor::Default,
        bg: DisplayColor::Default,
        bold: false,
        dim: false,
        italic: false,
        underline: false,
        inverse: false,
        wide_continuation: false,
    }
}

/// Whether such a terminal shows empty cells only, with the cursor in the upper
/// left corner and not hidden.
pub open spec fn fresh_screen(size: (u16, u16), fed: Seq<Seq<u8>>) -> bool {
    &&& forall|row: u16, col: u16|
        on_screen(size, row, col) ==> #[trigger] shown_cell(size, fed, row, col) == Some(
            empty_cell(),
        )
    &&& shown_cursor(size, fed) == (0u16, 0u16)
    &&& !cursor_hidden(size, fed)
}

/// The sizes at which a `vt100::Parser` takes every input: with a single row a
/// line that wraps, and with fewer than three columns a character that is wider
/// than the screen, makes it panic; in the last columns of the widest screens a
/// tab does.
pub open spec fn terminal_fits(rows: u16, cols: u16) -> bool {
    2 <= rows && 3 <= cols < 65528
}

/// Whether a position lies on a screen of this size.
pub open spec fn on_screen(size: (u16, u16), row: u16, col: u16) -> bool {
    row < size.0 && col < size.1
}

/// The view of a cell that may be absent.
pub open spec fn optional_cell(cell: Option<StyledCell>) -> Option<CellView> {
    match cell {
        Some(shown) => Some(shown@),
        None => None,
    }
}

impl Terminal {
    /// Makes a terminal with `vt100::Parser::new`. Nothing was fed to it yet, all of
    /// its cells are empty, and its cursor stands in the corner. Without a row
    /// `Parser::new` panics.
    #[verifier::external_body]
    pub(crate) fn create(rows: u16, cols: u16) -> (r: Terminal)
        requires
            1 <= rows,
        ensures
            terminal_size(r) == (rows, cols),
            terminal_fed(r) == Seq::<Seq<u8>>::empty(),
            fresh_screen(terminal_size(r), terminal_fed(r)),
    {
        Terminal { parser: vt100::Parser::new(rows, cols, 0) }
    }

    /// Feeds output to the terminal with `vt100::Parser::process`, which keeps
    /// its size.
    #[verifier::external_body]
    pub(crate) fn feed(&mut self, bytes: &[u8])
        requires
            terminal_fits(terminal_size(*old(self)).0, terminal_size(*old(self)).1),
        ensures
            terminal_size(*final(self)) == terminal_size(*old(self)),
            terminal_fed(*final(self)) == terminal_fed(*old(self)).push(bytes@),
    {
        self.parser.process(bytes)
    }

    /// The size by `vt100::Screen::size`: the rows and columns that the terminal
    /// was made with.
    #[verifier::external_body]
    pub(crate) fn dimensions(&self) -> (r: (u16, u16))
        ensures
            r == terminal_size(*self),
    {
        self.parser.screen().size()
    }

    /// The cell at a position by `vt100::Screen::cell`, as plain values. There is
    /// one at every position on the screen and none outside. What it shows
    /// depends on the size of the terminal and on what it was fed with.
    #[verifier::external_body]
    pub(crate) fn cell_at(&self, row: u16, col: u16) -> (r: Option<StyledCell>)
        ensures
            optional_cell(r) == shown_cell(terminal_size(*self), terminal_fed(*self), row, col),
            r is Some == on_screen(terminal_size(*self), row, col),
    {
        let color = |color: vt100::Color| match color {
            vt100::Color::Default => DisplayColor::Default,
            vt100::Color::Idx(index) => DisplayColor::Indexed(index),
            vt100::Color::Rgb(r, g, b) => DisplayColor::Rgb(Rgb(r, g, b)),
        };
        self.parser.screen().cell(row, col).map(|cell| StyledCell {
            text: cell.contents().to_string(),
            fg: color(cell.fgcolor()),
            bg: color(cell.bgcolor()),
            bold: cell.bold(), dim: cell.dim(), italic: cell.italic(),
            underline: cell.underline(), inverse: cell.inverse(),
            wide_continuation: cell.is_wide_continuation(),
        })
    }

    /// The row and column of the cursor by `vt100::Screen::cursor_position`.
    #[verifier::external_body]
    pub(crate) fn cursor(&self) -> (r: (u16, u16))
        ensures
            r == shown_cursor(terminal_size(*self), terminal_fed(*self)),
    {
        self.parser.screen().cursor_position()
    }

    /// Whether the cursor is hidden, by `vt100::Screen::hide_cursor`.
    #[verifier::external_body]
    pub(crate) fn hides_cursor(&self) -> (r: bool)
        ensures
            r == cursor_hidden(terminal_size(*self), terminal_fed(*self)),
    {
        self.parser.screen().hide_cursor()
    }
}

} // verus!
