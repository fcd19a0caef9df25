//! The plain data that the rest of the library works on.
use crate::text::same_text;
use vstd::prelude::*;

verus! {

broadcast use vstd::string::group_string_axioms;

/// A colour with eight bits for each channel.
#[derive(Debug, Clone, Copy, PartialEq, Eq, Structural)]
pub struct Rgb(pub u8, pub u8, pub u8);

/// The keys that can take a screenshot without a binding of their own.
#[derive(Debug, Clone, Copy, PartialEq, Eq, Structural)]
pub enum ScreenshotKey {
    CtrlG,
    CtrlT,
    CtrlBackslash,
}

/// The screenshot key that a name stands for.
pub open spec fn screenshot_key_named(name: Seq<char>) -> Option<ScreenshotKey> {
    if name == "ctrl-g"@ {
        Some(ScreenshotKey::CtrlG)
    } else if name == "ctrl-t"@ {
        Some(ScreenshotKey::CtrlT)
    } else if name == "ctrl-\\"@ {
        Some(ScreenshotKey::CtrlBackslash)
    } else {
        None
    }
}

impl ScreenshotKey {
    /// Reads the name of a screenshot key. Any other text is answered with the
    /// list of the names.
    pub fn from_str(value: &str) -> (r: Result<ScreenshotKey, String>)
        ensures
            match r {
                Ok(key) => screenshot_key_named(value@) == Some(key),
                Err(message) => screenshot_key_named(value@) is None && message@
                    == "supported values: ctrl-g, ctrl-t, ctrl-\\"@,
            },
    {
        if same_text(value, "ctrl-g") {
            Ok(ScreenshotKey::CtrlG)
        } else if same_text(value, "ctrl-t") {
            Ok(ScreenshotKey::CtrlT)
        } else if same_text(value, "ctrl-\\") {
            Ok(ScreenshotKey::CtrlBackslash)
        } else {
            Err("supported values: ctrl-g, ctrl-t, ctrl-\\".to_string())
        }
    }
}

/// A pattern to look for on the screen, and what to do about its matches.
#[derive(Debug)]
pub struct HighlightRule {
    pub key: String,
    pub pattern: String,
    pub regex: regex::Regex,
    pub color: Rgb,
    pub command: Option<Vec<String>>,
    pub capture_tui_screenshot: bool,
}

/// What to do when the bytes of a key arrive.
#[derive(Debug, Clone, PartialEq, Eq)]
pub struct KeyBinding {
    pub trigger: KeyChord,
    pub action: BindingAction,
}

/// A key and the bytes that a terminal sends for it.
#[derive(Debug, Clone, PartialEq, Eq)]
pub struct KeyChord {
    pub label: String,
    pub bytes: Vec<u8>,
}

/// What a bound key does.
#[derive(Debug, Clone, PartialEq, Eq)]
pub enum BindingAction {
    Send(Vec<u8>),
    Screenshot,
}

/// A pattern whose matches are rewritten before they are shown.
#[derive(Debug)]
pub struct OutputTransformRule {
    pub regex: regex::Regex,
    pub kind: OutputTransformKind,
}

/// How a match is rewritten.
#[derive(Debug, Clone, PartialEq, Eq)]
pub enum OutputTransformKind {
    Replace(String),
    Mask(char),
}

/// The text of one screen row, with the columns that each character covers.
#[derive(Debug, Clone, PartialEq, Eq)]
pub struct ScreenLine {
    pub text: String,
    pub char_spans: Vec<(usize, usize)>,
    pub cell_count: usize,
}

/// A line, over plain values.
#[verifier::ext_equal]
pub struct LineView {
    pub text: Seq<char>,
    pub char_spans: Seq<(usize, usize)>,
    pub cell_count: nat,
}

impl View for ScreenLine {
    type V = LineView;

    open spec fn view(&self) -> LineView {
        LineView {
            text: self.text@,
            char_spans: self.char_spans@,
            cell_count: self.cell_count as nat,
        }
    }
}

/// The views of a list of lines.
pub open spec fn line_views(lines: Seq<ScreenLine>) -> Seq<LineView> {
    lines.map_values(|line: ScreenLine| line@)
}

/// A colour as a terminal knows it.
#[derive(Debug, Clone, Copy, PartialEq, Eq, Structural)]
pub enum DisplayColor {
    Default,
    Indexed(u8),
    Rgb(Rgb),
}

/// One cell of the screen: its text and how it is shown.
#[derive(Debug, Clone, PartialEq, Eq)]
pub struct StyledCell {
    pub text: String,
    pub fg: DisplayColor,
    pub bg: DisplayColor,
    pub bold: bool,
    pub dim: bool,
    pub italic: bool,
    pub underline: bool,
    pub inverse: bool,
    pub wide_continuation: bool,
}

/// A cell, over plain text.
#[verifier::ext_equal]
pub struct CellView {
    pub text: Seq<char>,
    pub fg: DisplayColor,
    pub bg: DisplayColor,
    pub bold: bool,
    pub dim: bool,
    pub italic: bool,
    pub underline: bool,
    pub inverse: bool,
    pub wide_continuation: bool,
}

impl View for StyledCell {
    type V = CellView;

    open spec fn view(&self) -> CellView {
        CellView {
            text: self.text@,
            fg: self.fg,
            bg: self.bg,
            bold: self.bold,
            dim: self.dim,
            italic: self.italic,
            underline: self.underline,
            inverse: self.inverse,
            wide_continuation: self.wide_continuation,
        }
    }
}

/// The views of a row of cells.
pub open spec fn cell_views(row: Seq<StyledCell>) -> Seq<CellView> {
    row.map_values(|cell: StyledCell| cell@)
}

/// The views of rows of cells.
pub open spec fn row_views(rows: Seq<Vec<StyledCell>>) -> Seq<Seq<CellView>> {
    rows.map_values(|row: Vec<StyledCell>| cell_views(row@))
}

/// Where the cursor stands and whether it is shown.
#[derive(Debug, Clone, Copy, PartialEq, Eq, Structural)]
pub struct TerminalState {
    pub cursor_row: u16,
    pub cursor_col: u16,
    pub cursor_visible: bool,
}

/// The action of a key binding.
#[verifier::ext_equal]
pub enum ActionView {
    Send(Seq<u8>),
    Screenshot,
}

impl View for BindingAction {
    type V = ActionView;

    open spec fn view(&self) -> ActionView {
        match self {
            BindingAction::Send(bytes) => ActionView::Send(bytes@),
            BindingAction::Screenshot => ActionView::Screenshot,
        }
    }
}

/// A key binding: the name of its key, the bytes that trigger it and its action.
#[verifier::ext_equal]
pub struct BindingView {
    pub label: Seq<char>,
    pub trigger: Seq<u8>,
    pub action: ActionView,
}

impl View for KeyBinding {
    type V = BindingView;

    open spec fn view(&self) -> BindingView {
        BindingView {
            label: self.trigger.label@,
            trigger: self.trigger.bytes@,
            action: self.action@,
        }
    }
}

/// How a match is rewritten, over plain text.
#[verifier::ext_equal]
pub enum KindView {
    Replace(Seq<char>),
    Mask(char),
}

impl View for OutputTransformKind {
    type V = KindView;

    open spec fn view(&self) -> KindView {
        match self {
            OutputTransformKind::Replace(text) => KindView::Replace(text@),
            OutputTransformKind::Mask(c) => KindView::Mask(*c),
        }
    }
}

/// A highlight rule, over plain text.
#[verifier::ext_equal]
pub struct RuleView {
    pub key: Seq<char>,
    pub pattern: Seq<char>,
    pub regex: regex::Regex,
    pub color: Rgb,
    pub command: Option<Seq<Seq<char>>>,
    pub capture: bool,
}

impl View for HighlightRule {
    type V = RuleView;

    open spec fn view(&self) -> RuleView {
        RuleView {
            key: self.key@,
            pattern: self.pattern@,
            regex: self.regex,
            color: self.color,
            command: optional_texts(self.command),
            capture: self.capture_tui_screenshot,
        }
    }
}

/// An output transform, over plain text.
#[verifier::ext_equal]
pub struct TransformView {
    pub regex: regex::Regex,
    pub kind: KindView,
}

impl View for OutputTransformRule {
    type V = TransformView;

    open spec fn view(&self) -> TransformView {
        TransformView { regex: self.regex, kind: self.kind@ }
    }
}

/// The views of a list of highlight rules.
pub open spec fn rule_views(rules: Seq<HighlightRule>) -> Seq<RuleView> {
    rules.map_values(|r: HighlightRule| r@)
}

/// The views of a list of output transforms.
pub open spec fn transform_views(rules: Seq<OutputTransformRule>) -> Seq<TransformView> {
    rules.map_values(|r: OutputTransformRule| r@)
}

/// The texts of a list of strings that may be absent.
pub open spec fn optional_texts(items: Option<Vec<String>>) -> Option<Seq<Seq<char>>> {
    match items {
        Some(list) => Some(texts(list@)),
        None => None,
    }
}

/// The texts of a list of strings.
pub open spec fn texts(items: Seq<String>) -> Seq<Seq<char>> {
    items.map_values(|s: String| s@)
}

/// The views of a list of bindings.
pub open spec fn binding_views(bindings: Seq<KeyBinding>) -> Seq<BindingView> {
    bindings.map_values(|b: KeyBinding| b@)
}

/// The view of a cell holds all of its text, its colours and its styles.
pub proof fn law_cell_view_is_whole(row: Seq<StyledCell>, i: int)
    requires
        0 <= i < row.len(),
    ensures
        cell_views(row).len() == row.len(),
        cell_views(row)[i] == row[i]@,
        row[i]@.text == row[i].text@,
        row[i]@.fg == row[i].fg,
        row[i]@.bg == row[i].bg,
        row[i]@.bold == row[i].bold,
        row[i]@.dim == row[i].dim,
        row[i]@.italic == row[i].italic,
        row[i]@.underline == row[i].underline,
        row[i]@.inverse == row[i].inverse,
        row[i]@.wide_continuation == row[i].wide_continuation,
{
}

/// The view of a list of rows holds every row.
pub proof fn law_row_views_are_whole(rows: Seq<Vec<StyledCell>>, i: int)
    requires
        0 <= i < rows.len(),
    ensures
        row_views(rows).len() == rows.len(),
        row_views(rows)[i] == cell_views(rows[i]@),
{
}

/// The view of a binding holds all bytes of its key and all of its action.
pub proof fn law_binding_view_is_whole(bindings: Seq<KeyBinding>, i: int)
    requires
        0 <= i < bindings.len(),
    ensures
        binding_views(bindings).len() == bindings.len(),
        binding_views(bindings)[i] == bindings[i]@,
        bindings[i]@.label == bindings[i].trigger.label@,
        bindings[i]@.trigger == bindings[i].trigger.bytes@,
        match bindings[i].action {
            BindingAction::Send(bytes) => bindings[i]@.action == ActionView::Send(bytes@),
            BindingAction::Screenshot => bindings[i]@.action == ActionView::Screenshot,
        },
{
}

/// The view of a highlight rule holds everything that it asks for.
pub proof fn law_rule_view_is_whole(rules: Seq<HighlightRule>, i: int)
    requires
        0 <= i < rules.len(),
    ensures
        rule_views(rules).len() == rules.len(),
        rule_views(rules)[i] == rules[i]@,
        rules[i]@.key == rules[i].key@,
        rules[i]@.pattern == rules[i].pattern@,
        rules[i]@.regex == rules[i].regex,
        rules[i]@.color == rules[i].color,
        rules[i]@.capture == rules[i].capture_tui_screenshot,
        match rules[i].command {
            Some(words) => rules[i]@.command == Some(texts(words@)),
            None => rules[i]@.command is None,
        },
{
}

/// The view of an output transform holds its pattern and what it does.
pub proof fn law_transform_view_is_whole(rules: Seq<OutputTransformRule>, i: int)
    requires
        0 <= i < rules.len(),
    ensures
        transform_views(rules).len() == rules.len(),
        transform_views(rules)[i] == rules[i]@,
        rules[i]@.regex == rules[i].regex,
        match rules[i].kind {
            OutputTransformKind::Replace(text) => rules[i]@.kind == KindView::Replace(text@),
            OutputTransformKind::Mask(c) => rules[i]@.kind == KindView::Mask(c),
        },
{
}

/// The view of a line holds all of its text and its columns, and that of a list of
/// texts every text.
pub proof fn law_line_view_is_whole(lines: Seq<ScreenLine>, items: Seq<String>, i: int)
    ensures
        line_views(lines).len() == lines.len(),
        texts(items).len() == items.len(),
        0 <= i < lines.len() ==> {
            let view = line_views(lines)[i];
            &&& view.text == lines[i].text@
            &&& view.char_spans == lines[i].char_spans@
            &&& view.cell_count == lines[i].cell_count
        },
        0 <= i < items.len() ==> texts(items)[i] == items[i]@,
{
}

} // verus!
