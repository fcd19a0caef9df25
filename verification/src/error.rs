//! What can be wrong with the command line, and how it is put in words.
use vstd::prelude::*;
use vstd::string::StringExecFns;

verus! {

broadcast use vstd::string::group_string_axioms;

/// A colour that is not six hexadecimal digits.
#[derive(Debug, Clone, Copy, PartialEq, Eq, Structural)]
pub enum RgbError {
    /// The text is not six bytes long.
    Length,
    /// Two bytes of the text are no hexadecimal number.
    Digit,
}

impl RgbError {
    /// The text of the message.
    pub open spec fn text(self) -> Seq<char> {
        match self {
            RgbError::Length => "expected 6-digit hex color"@,
            RgbError::Digit => "invalid digit found in string"@,
        }
    }

    /// The error in words.
    pub fn message(&self) -> (r: String)
        ensures
            r@ == self.text(),
    {
        match self {
            RgbError::Length => "expected 6-digit hex color".to_string(),
            RgbError::Digit => "invalid digit found in string".to_string(),
        }
    }
}

/// A key that cannot be bound. Each variant carries the key's name.
#[derive(Debug, PartialEq, Eq)]
pub enum KeyError {
    /// There is no name.
    Empty,
    /// `ctrl-` is not followed by exactly one byte.
    CtrlLength(String),
    /// `ctrl-` is followed by a character that has no control byte.
    CtrlCharacter(String),
    /// The name is not known and is not a single character.
    Unknown(String),
}

/// A key error, over plain text.
#[verifier::ext_equal]
pub enum KeyErrorView {
    Empty,
    CtrlLength(Seq<char>),
    CtrlCharacter(Seq<char>),
    Unknown(Seq<char>),
}

impl View for KeyError {
    type V = KeyErrorView;

    open spec fn view(&self) -> KeyErrorView {
        match self {
            KeyError::Empty => KeyErrorView::Empty,
            KeyError::CtrlLength(name) => KeyErrorView::CtrlLength(name@),
            KeyError::CtrlCharacter(name) => KeyErrorView::CtrlCharacter(name@),
            KeyError::Unknown(name) => KeyErrorView::Unknown(name@),
        }
    }
}

fn with_detail(lead: &str, detail: &String) -> (r: String)
    ensures
        r@ == lead@ + detail@,
{
    let mut out = lead.to_owned();
    out.append(detail.as_str());
    out
}

impl KeyError {
    /// The text of the message.
    pub open spec fn text(self) -> Seq<char> {
        match self {
            KeyError::Empty => "key binding token must not be empty"@,
            KeyError::CtrlLength(name) => "ctrl binding must have one character: "@ + name@,
            KeyError::CtrlCharacter(name) => "unsupported ctrl binding: "@ + name@,
            KeyError::Unknown(name) => "unsupported key binding token: "@ + name@,
        }
    }

    /// The error in words.
    pub fn message(&self) -> (r: String)
        ensures
            r@ == self.text(),
    {
        match self {
            KeyError::Empty => "key binding token must not be empty".to_string(),
            KeyError::CtrlLength(name) => with_detail(
                "ctrl binding must have one character: ",
                name,
            ),
            KeyError::CtrlCharacter(name) => with_detail("unsupported ctrl binding: ", name),
            KeyError::Unknown(name) => with_detail("unsupported key binding token: ", name),
        }
    }
}

/// A binding that cannot be read.
#[derive(Debug, PartialEq, Eq)]
pub enum BindError {
    /// There is no `=` in the binding.
    NoSeparator(String),
    /// One of its keys cannot be bound.
    Key(KeyError),
}

/// A binding error, over plain text.
#[verifier::ext_equal]
pub enum BindErrorView {
    NoSeparator(Seq<char>),
    Key(KeyErrorView),
}

impl View for BindError {
    type V = BindErrorView;

    open spec fn view(&self) -> BindErrorView {
        match self {
            BindError::NoSeparator(binding) => BindErrorView::NoSeparator(binding@),
            BindError::Key(error) => BindErrorView::Key(error@),
        }
    }
}

impl BindError {
    /// The text of the message.
    pub open spec fn text(self) -> Seq<char> {
        match self {
            BindError::NoSeparator(binding) => "binding must be FROM=TO: "@ + binding@,
            BindError::Key(error) => error.text(),
        }
    }

    /// The error in words.
    pub fn message(&self) -> (r: String)
        ensures
            r@ == self.text(),
    {
        match self {
            BindError::NoSeparator(binding) => with_detail("binding must be FROM=TO: ", binding),
            BindError::Key(error) => error.message(),
        }
    }
}

/// A mask that is not exactly one character.
#[derive(Debug, Clone, Copy, PartialEq, Eq, Structural)]
pub enum MaskError {
    Empty,
    Long,
}

impl MaskError {
    /// The text of the message.
    pub open spec fn text(self) -> Seq<char> {
        match self {
            MaskError::Empty => "mask char must not be empty"@,
            MaskError::Long => "mask char must be a single character"@,
        }
    }

    /// The error in words.
    pub fn message(&self) -> (r: String)
        ensures
            r@ == self.text(),
    {
        match self {
            MaskError::Empty => "mask char must not be empty".to_string(),
            MaskError::Long => "mask char must be a single character".to_string(),
        }
    }
}

/// Replace and mask rules that cannot be built.
#[derive(Debug)]
pub enum TransformError {
    /// The mask is not one character.
    Mask(MaskError),
    /// The last pattern to replace has no text to put in its place.
    Pairs,
    /// A pattern to replace is no regular expression.
    ReplacePattern(String, regex::Error),
    /// A pattern to mask is no regular expression.
    MaskPattern(String, regex::Error),
}

/// A transform error, over plain text.
#[verifier::ext_equal]
pub enum TransformErrorView {
    Mask(MaskError),
    Pairs,
    ReplacePattern(Seq<char>, regex::Error),
    MaskPattern(Seq<char>, regex::Error),
}

impl View for TransformError {
    type V = TransformErrorView;

    open spec fn view(&self) -> TransformErrorView {
        match self {
            TransformError::Mask(error) => TransformErrorView::Mask(*error),
            TransformError::Pairs => TransformErrorView::Pairs,
            TransformError::ReplacePattern(pattern, cause) => TransformErrorView::ReplacePattern(
                pattern@,
                *cause,
            ),
            TransformError::MaskPattern(pattern, cause) => TransformErrorView::MaskPattern(
                pattern@,
                *cause,
            ),
        }
    }
}

impl TransformError {
    /// The text of the message.
    pub open spec fn text(self) -> Seq<char> {
        match self {
            TransformError::Mask(error) => error.text(),
            TransformError::Pairs => "--replace expects PATTERN TEXT pairs"@,
            TransformError::ReplacePattern(pattern, _) => "invalid replace regex: "@ + pattern@,
            TransformError::MaskPattern(pattern, _) => "invalid mask regex: "@ + pattern@,
        }
    }

    /// The error in words, without the cause that the regular expression gave.
    pub fn message(&self) -> (r: String)
        ensures
            r@ == self.text(),
    {
        match self {
            TransformError::Mask(error) => error.message(),
            TransformError::Pairs => "--replace expects PATTERN TEXT pairs".to_string(),
            TransformError::ReplacePattern(pattern, _) => with_detail(
                "invalid replace regex: ",
                pattern,
            ),
            TransformError::MaskPattern(pattern, _) => with_detail(
                "invalid mask regex: ",
                pattern,
            ),
        }
    }
}

/// A highlight command that cannot be run.
#[derive(Debug)]
pub enum CommandError {
    /// The command line has an open quote.
    Syntax(shell_words::ParseError),
    /// The command line has no words.
    Empty,
}

/// A command error, over plain values.
pub enum CommandErrorView {
    Syntax(shell_words::ParseError),
    Empty,
}

impl View for CommandError {
    type V = CommandErrorView;

    open spec fn view(&self) -> CommandErrorView {
        match self {
            CommandError::Syntax(cause) => CommandErrorView::Syntax(*cause),
            CommandError::Empty => CommandErrorView::Empty,
        }
    }
}

impl CommandError {
    /// The text of the message.
    pub open spec fn text(self) -> Seq<char> {
        match self {
            CommandError::Syntax(_) => "missing closing quote"@,
            CommandError::Empty => "command must not be empty"@,
        }
    }

    /// The error in words.
    pub fn message(&self) -> (r: String)
        ensures
            r@ == self.text(),
    {
        match self {
            CommandError::Syntax(_) => "missing closing quote".to_string(),
            CommandError::Empty => "command must not be empty".to_string(),
        }
    }
}

/// Highlight rules that cannot be built.
#[derive(Debug)]
pub enum HighlightError {
    /// The colour is wrong.
    Color(RgbError),
    /// A pattern is no regular expression.
    Pattern(String, regex::Error),
    /// The command is wrong.
    Command(CommandError),
}

/// A highlight error, over plain text.
#[verifier::ext_equal]
pub enum HighlightErrorView {
    Color(RgbError),
    Pattern(Seq<char>, regex::Error),
    Command(CommandErrorView),
}

impl View for HighlightError {
    type V = HighlightErrorView;

    open spec fn view(&self) -> HighlightErrorView {
        match self {
            HighlightError::Color(error) => HighlightErrorView::Color(*error),
            HighlightError::Pattern(pattern, cause) => HighlightErrorView::Pattern(
                pattern@,
                *cause,
            ),
            HighlightError::Command(error) => HighlightErrorView::Command(error@),
        }
    }
}

impl HighlightError {
    /// The text of the message.
    pub open spec fn text(self) -> Seq<char> {
        match self {
            HighlightError::Color(_) => "invalid --highlight-color"@,
            HighlightError::Pattern(pattern, _) => "invalid highlight regex: "@ + pattern@,
            HighlightError::Command(_) => "invalid --highlight-command"@,
        }
    }

    /// The error in words, without its cause.
    pub fn message(&self) -> (r: String)
        ensures
            r@ == self.text(),
    {
        match self {
            HighlightError::Color(_) => "invalid --highlight-color".to_string(),
            HighlightError::Pattern(pattern, _) => with_detail(
                "invalid highlight regex: ",
                pattern,
            ),
            HighlightError::Command(_) => "invalid --highlight-command".to_string(),
        }
    }
}

/// Bindings or rules that cannot be built.
#[derive(Debug)]
pub enum RuntimeError {
    Bindings(BindError),
    Transforms(TransformError),
}

/// A runtime error, over plain text.
#[verifier::ext_equal]
pub enum RuntimeErrorView {
    Bindings(BindErrorView),
    Transforms(TransformErrorView),
}

impl View for RuntimeError {
    type V = RuntimeErrorView;

    open spec fn view(&self) -> RuntimeErrorView {
        match self {
            RuntimeError::Bindings(error) => RuntimeErrorView::Bindings(error@),
            RuntimeError::Transforms(error) => RuntimeErrorView::Transforms(error@),
        }
    }
}

impl RuntimeError {
    /// The text of the message.
    pub open spec fn text(self) -> Seq<char> {
        match self {
            RuntimeError::Bindings(_) => "failed to compile --bind"@,
            RuntimeError::Transforms(_) => "failed to compile replace/mask rules"@,
        }
    }

    /// The error in words, without its cause.
    pub fn message(&self) -> (r: String)
        ensures
            r@ == self.text(),
    {
        match self {
            RuntimeError::Bindings(_) => "failed to compile --bind".to_string(),
            RuntimeError::Transforms(_) => "failed to compile replace/mask rules".to_string(),
        }
    }
}

/// A message about a key or a binding says what is wrong and ends with the text that
/// is wrong.
pub proof fn law_messages_name_the_key(error: KeyError, binding: String)
    ensures
        match error {
            KeyError::Empty => error.text() == "key binding token must not be empty"@,
            KeyError::CtrlLength(name) => error.text() == "ctrl binding must have one character: "@
                + name@,
            KeyError::CtrlCharacter(name) => error.text() == "unsupported ctrl binding: "@ + name@,
            KeyError::Unknown(name) => error.text() == "unsupported key binding token: "@ + name@,
        },
        BindError::Key(error).text() == error.text(),
        BindError::NoSeparator(binding).text() == "binding must be FROM=TO: "@ + binding@,
        BindError::Key(error)@ == BindErrorView::Key(error@),
        BindError::NoSeparator(binding)@ == BindErrorView::NoSeparator(binding@),
{
}

/// A message about a rule says what is wrong, and one about a pattern ends with the
/// pattern.
pub proof fn law_messages_name_the_pattern(
    pattern: String,
    cause: regex::Error,
    mask: MaskError,
    transform: TransformError,
    command: CommandError,
)
    ensures
        TransformError::ReplacePattern(pattern, cause).text() == "invalid replace regex: "@
            + pattern@,
        TransformError::MaskPattern(pattern, cause).text() == "invalid mask regex: "@ + pattern@,
        TransformError::Mask(mask).text() == mask.text(),
        TransformError::Pairs.text() == "--replace expects PATTERN TEXT pairs"@,
        MaskError::Empty.text() == "mask char must not be empty"@,
        MaskError::Long.text() == "mask char must be a single character"@,
        HighlightError::Pattern(pattern, cause).text() == "invalid highlight regex: "@ + pattern@,
        HighlightError::Command(command).text() == "invalid --highlight-command"@,
        RuntimeError::Transforms(transform).text() == "failed to compile replace/mask rules"@,
        command is Empty ==> command.text() == "command must not be empty"@,
        command is Syntax ==> command.text() == "missing closing quote"@,
{
}

/// A message about a colour says whether its length or one of its digits is wrong, and
/// that of the options that it came from which option it was.
pub proof fn law_messages_name_the_option(color: RgbError, error: BindError)
    ensures
        RgbError::Length.text() == "expected 6-digit hex color"@,
        RgbError::Digit.text() == "invalid digit found in string"@,
        HighlightError::Color(color).text() == "invalid --highlight-color"@,
        RuntimeError::Bindings(error).text() == "failed to compile --bind"@,
{
}

} // verus!
