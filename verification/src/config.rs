//! From the options on the command line to the rules that a session runs by.
use crate::bindings::{bindings_of, compile_key_bindings, with_screenshot_key};
use crate::boundary::{compile_regex, regex_compiled, shell_split, split_command};
use crate::color::{parse_rgb, rgb_cuts, rgb_read};
use crate::error::{
    CommandError, CommandErrorView, HighlightError, HighlightErrorView, MaskError, RuntimeError,
    RuntimeErrorView, TransformError, TransformErrorView,
};
use crate::input::bindings_wait;
use crate::model::{
    HighlightRule, KeyBinding, KindView, OutputTransformKind, OutputTransformRule,
    Rgb, RuleView, ScreenshotKey, TransformView, binding_views, optional_texts, rule_views, texts,
    transform_views,
};
use crate::template::{optional_str, optional_text};
use crate::text::chars_of;
use vstd::prelude::*;

verus! {

broadcast use vstd::string::group_string_axioms;

/// The options that decide how a session behaves.
#[derive(Debug)]
pub struct Options {
    pub highlight: Vec<String>,
    pub highlight_color: String,
    pub highlight_command: Option<String>,
    pub highlight_capture_tui_screenshot: bool,
    pub screenshot_prefix: Option<String>,
    pub screenshot_key: ScreenshotKey,
    pub bind: Vec<String>,
    pub replace: Vec<String>,
    pub mask: Vec<String>,
    pub mask_char: String,
    pub startup_capture_ms: u64,
}

/// What a session runs by.
#[derive(Debug)]
pub struct Runtime {
    pub startup_capture_ms: u64,
    pub screenshot_prefix: Option<String>,
    pub highlight_rules: Vec<HighlightRule>,
    pub key_bindings: Vec<KeyBinding>,
    pub output_transforms: Vec<OutputTransformRule>,
}

/// The words of a command, which has to have some.
pub open spec fn nonempty_command(words: Seq<Seq<char>>) -> Result<
    Seq<Seq<char>>,
    CommandErrorView,
> {
    if words.len() == 0 {
        Err(CommandErrorView::Empty)
    } else {
        Ok(words)
    }
}

/// The command that an option asks for.
pub open spec fn command_of(value: Option<Seq<char>>) -> Result<
    Option<Seq<Seq<char>>>,
    CommandErrorView,
> {
    match value {
        None => Ok(None),
        Some(line) => match shell_split(line) {
            Err(cause) => Err(CommandErrorView::Syntax(cause)),
            Ok(words) => match nonempty_command(words) {
                Ok(command) => Ok(Some(command)),
                Err(error) => Err(error),
            },
        },
    }
}

/// Takes the words of a command line for a command, unless there are none.
pub fn command_from_words(words: Vec<String>) -> (r: Result<Vec<String>, CommandError>)
    ensures
        match r {
            Ok(command) => nonempty_command(texts(words@)) == Ok::<
                Seq<Seq<char>>,
                CommandErrorView,
            >(texts(command@)),
            Err(error) => nonempty_command(texts(words@)) == Err::<
                Seq<Seq<char>>,
                CommandErrorView,
            >(error@),
        },
{
    if words.len() == 0 {
        Err(CommandError::Empty)
    } else {
        Ok(words)
    }
}

/// Reads the command that is run for a match.
pub fn parse_highlight_command(value: Option<&str>) -> (r: Result<
    Option<Vec<String>>,
    CommandError,
>)
    ensures
        match r {
            Ok(command) => command_of(optional_str(value)) == Ok::<
                Option<Seq<Seq<char>>>,
                CommandErrorView,
            >(optional_texts(command)),
            Err(error) => command_of(optional_str(value)) == Err::<
                Option<Seq<Seq<char>>>,
                CommandErrorView,
            >(error@),
        },
{
    let line = match value {
        Some(line) => line,
        None => {
            return Ok(None);
        },
    };
    let words = match split_command(line) {
        Ok(words) => words,
        Err(error) => {
            return Err(CommandError::Syntax(error));
        },
    };
    match command_from_words(words) {
        Ok(command) => Ok(Some(command)),
        Err(error) => Err(error),
    }
}

/// The rules for patterns, in order, or the first error. The command is looked
/// at behind each pattern, so a wrong command without patterns is no error.
pub open spec fn highlights_of(
    patterns: Seq<Seq<char>>,
    color: Rgb,
    command: Option<Seq<char>>,
    capture: bool,
) -> Result<Seq<RuleView>, HighlightErrorView>
    decreases patterns.len(),
{
    if patterns.len() == 0 {
        Ok(Seq::empty())
    } else {
        match (regex_compiled(patterns[0]), command_of(command)) {
            (Err(cause), _) => Err(HighlightErrorView::Pattern(patterns[0], cause)),
            (_, Err(error)) => Err(HighlightErrorView::Command(error)),
            (Ok(regex), Ok(words)) => {
                let rule = RuleView {
                    key: patterns[0],
                    pattern: patterns[0],
                    regex,
                    color,
                    command: words,
                    capture,
                };
                rules_before(
                    seq![rule],
                    highlights_of(patterns.drop_first(), color, command, capture),
                )
            },
        }
    }
}

/// `rules` before the rules of an outcome, or the outcome's error.
pub open spec fn rules_before(
    rules: Seq<RuleView>,
    outcome: Result<Seq<RuleView>, HighlightErrorView>,
) -> Result<Seq<RuleView>, HighlightErrorView> {
    match outcome {
        Ok(rest) => Ok(rules + rest),
        Err(error) => Err(error),
    }
}

/// The highlight rules that options ask for: the colour is looked at first.
pub open spec fn highlights_asked(options: Options) -> Result<Seq<RuleView>, HighlightErrorView> {
    match rgb_read(options.highlight_color@) {
        Err(error) => Err(HighlightErrorView::Color(error)),
        Ok(color) => highlights_of(
            texts(options.highlight@),
            color,
            optional_text(options.highlight_command),
            options.highlight_capture_tui_screenshot,
        ),
    }
}

fn highlight_rule(
    pattern: &String,
    color: Rgb,
    command: Option<&str>,
    capture: bool,
) -> (r: Result<HighlightRule, HighlightError>)
    ensures
        ({
            let outcome = highlights_of(seq![pattern@], color, optional_str(command), capture);
            match r {
                Ok(rule) => outcome == Ok::<Seq<RuleView>, HighlightErrorView>(seq![rule@]),
                Err(error) => outcome == Err::<Seq<RuleView>, HighlightErrorView>(error@),
            }
        }),
{
    proof {
        reveal_with_fuel(highlights_of, 2);
        assert(seq![pattern@].drop_first() == Seq::<Seq<char>>::empty());
    }
    let regex = match compile_regex(pattern.as_str()) {
        Ok(regex) => regex,
        Err(cause) => {
            return Err(HighlightError::Pattern(pattern.as_str().to_owned(), cause));
        },
    };
    let command = match parse_highlight_command(command) {
        Ok(command) => command,
        Err(error) => {
            return Err(HighlightError::Command(error));
        },
    };
    let rule = HighlightRule {
        key: pattern.as_str().to_owned(),
        pattern: pattern.as_str().to_owned(),
        regex,
        color,
        command,
        capture_tui_screenshot: capture,
    };
    assert(seq![rule@] + Seq::<RuleView>::empty() == seq![rule@]);
    Ok(rule)
}

/// Reads the highlight options.
pub fn compile_highlight_rules(options: &Options) -> (r: Result<
    Vec<HighlightRule>,
    HighlightError,
>)
    requires
        !rgb_cuts(options.highlight_color@),
    ensures
        match r {
            Ok(rules) => highlights_asked(*options) == Ok::<Seq<RuleView>, HighlightErrorView>(
                rule_views(rules@),
            ),
            Err(error) => highlights_asked(*options) == Err::<Seq<RuleView>, HighlightErrorView>(
                error@,
            ),
        },
{
    let color = match parse_rgb(options.highlight_color.as_str()) {
        Ok(color) => color,
        Err(error) => {
            return Err(HighlightError::Color(error));
        },
    };
    let command: Option<&str> = match &options.highlight_command {
        Some(line) => Some(line.as_str()),
        None => None,
    };
    let capture = options.highlight_capture_tui_screenshot;
    let ghost all = texts(options.highlight@);
    let ghost line = optional_str(command);
    let mut rules: Vec<HighlightRule> = Vec::new();
    let mut i: usize = 0;
    proof {
        assert(all.skip(0) == all);
        assert(rule_views(rules@) == Seq::<RuleView>::empty());
        let outcome = highlights_of(all, color, line, capture);
        assert(outcome == rules_before(Seq::empty(), outcome));
    }
    while i < options.highlight.len()
        invariant
            all == texts(options.highlight@),
            line == optional_str(command),
            i <= options.highlight@.len(),
            highlights_of(all, color, line, capture) == rules_before(
                rule_views(rules@),
                highlights_of(all.skip(i as int), color, line, capture),
            ),
            highlights_asked(*options) == highlights_of(all, color, line, capture),
        decreases options.highlight@.len() - i,
    {
        let ghost before = rule_views(rules@);
        proof {
            reveal_with_fuel(highlights_of, 2);
            assert(all.skip(i as int)[0] == options.highlight@[i as int]@);
            assert(all.skip(i as int).drop_first() == all.skip(i + 1));
            assert(seq![all[i as int]].drop_first() == Seq::<Seq<char>>::empty());
        }
        match highlight_rule(&options.highlight[i], color, command, capture) {
            Ok(rule) => {
                rules.push(rule);
                proof {
                    assert(rule_views(rules@) == before + seq![rule@]);
                    assert forall|tail: Seq<RuleView>| #[trigger]
                        (before + (seq![rule@] + tail)) == rule_views(rules@) + tail by {}
                    lemma_single_rule(all[i as int], color, line, capture, rule@);
                }
            },
            Err(error) => {
                return Err(error);
            },
        }
        i = i + 1;
    }
    assert(rule_views(rules@) + Seq::<RuleView>::empty() == rule_views(rules@));
    Ok(rules)
}

proof fn lemma_single_rule(
    pattern: Seq<char>,
    color: Rgb,
    command: Option<Seq<char>>,
    capture: bool,
    rule: RuleView,
)
    requires
        highlights_of(seq![pattern], color, command, capture) == Ok::<
            Seq<RuleView>,
            HighlightErrorView,
        >(seq![rule]),
    ensures
        regex_compiled(pattern) is Ok,
        command_of(command) is Ok,
        rule == (RuleView {
            key: pattern,
            pattern,
            regex: regex_compiled(pattern)->Ok_0,
            color,
            command: command_of(command)->Ok_0,
            capture,
        }),
{
    reveal_with_fuel(highlights_of, 2);
    assert(seq![pattern].drop_first() == Seq::<Seq<char>>::empty());
    let built = RuleView {
        key: pattern,
        pattern,
        regex: regex_compiled(pattern)->Ok_0,
        color,
        command: command_of(command)->Ok_0,
        capture,
    };
    assert((seq![built] + Seq::<RuleView>::empty())[0] == built);
    assert(seq![rule][0] == rule);
}

/// There is a rule for each pattern, in order. It looks for the pattern, its key
/// is the pattern, and it has the colour, the command and the choice that all
/// rules share.
pub proof fn law_rules_follow_patterns(
    patterns: Seq<Seq<char>>,
    color: Rgb,
    command: Option<Seq<char>>,
    capture: bool,
)
    requires
        highlights_of(patterns, color, command, capture) is Ok,
    ensures
        ({
            let rules = highlights_of(patterns, color, command, capture)->Ok_0;
            &&& rules.len() == patterns.len()
            &&& forall|i: int|
                0 <= i < rules.len() ==> (#[trigger] rules[i]).key == patterns[i]
                    && rules[i].pattern == patterns[i] && regex_compiled(patterns[i]) == Ok::<
                    regex::Regex,
                    regex::Error,
                >(rules[i].regex) && rules[i].color == color && rules[i].capture == capture
                    && command_of(command) == Ok::<Option<Seq<Seq<char>>>, CommandErrorView>(
                    rules[i].command,
                )
        }),
    decreases patterns.len(),
{
    if patterns.len() > 0 {
        let later = patterns.drop_first();
        law_rules_follow_patterns(later, color, command, capture);
        let rest = highlights_of(later, color, command, capture)->Ok_0;
        let rules = highlights_of(patterns, color, command, capture)->Ok_0;
        assert forall|i: int| 0 <= i < rules.len() implies (#[trigger] rules[i]).key == patterns[i]
            && rules[i].pattern == patterns[i] && regex_compiled(patterns[i]) == Ok::<
            regex::Regex,
            regex::Error,
        >(rules[i].regex) && rules[i].color == color && rules[i].capture == capture && command_of(
            command,
        ) == Ok::<Option<Seq<Seq<char>>>, CommandErrorView>(rules[i].command) by {
            if i > 0 {
                assert(rules[i] == rest[i - 1]);
                assert(patterns[i] == later[i - 1]);
            }
        }
    }
}

/// What is to be done about the directory for screenshots.
#[derive(Debug, Clone, Copy, PartialEq, Eq, Structural)]
pub enum DirectoryStep {
    /// It is not there yet.
    Create,
    /// It is there.
    Use,
    /// Something else stands in its place.
    Reject,
}

/// What is to be done about the directory, by whether something is there and
/// whether it is a directory.
pub open spec fn directory_step_of(exists: bool, is_dir: bool) -> DirectoryStep {
    if !exists {
        DirectoryStep::Create
    } else if is_dir {
        DirectoryStep::Use
    } else {
        DirectoryStep::Reject
    }
}

/// Decides what is to be done about the directory for screenshots.
pub fn directory_step(exists: bool, is_dir: bool) -> (r: DirectoryStep)
    ensures
        r == directory_step_of(exists, is_dir),
{
    if !exists {
        DirectoryStep::Create
    } else if !is_dir {
        DirectoryStep::Reject
    } else {
        DirectoryStep::Use
    }
}

/// The character that a mask is made of.
pub open spec fn mask_of(value: Seq<char>) -> Result<char, MaskError> {
    if value.len() == 0 {
        Err(MaskError::Empty)
    } else if value.len() > 1 {
        Err(MaskError::Long)
    } else {
        Ok(value[0])
    }
}

/// Reads the mask, which has to be a single character.
pub fn parse_mask_char(value: &str) -> (r: Result<char, MaskError>)
    ensures
        r == mask_of(value@),
{
    let chars = chars_of(value);
    if chars.len() == 0 {
        return Err(MaskError::Empty);
    }
    if chars.len() > 1 {
        return Err(MaskError::Long);
    }
    Ok(chars[0])
}

/// The rules for pairs of a pattern and the text that replaces its matches, in
/// order, or the first error.
pub open spec fn replaces_of(pairs: Seq<Seq<char>>) -> Result<
    Seq<TransformView>,
    TransformErrorView,
>
    decreases pairs.len(),
{
    if pairs.len() < 2 {
        Ok(Seq::empty())
    } else {
        match regex_compiled(pairs[0]) {
            Err(cause) => Err(TransformErrorView::ReplacePattern(pairs[0], cause)),
            Ok(regex) => transforms_before(
                seq![TransformView { regex, kind: KindView::Replace(pairs[1]) }],
                replaces_of(pairs.skip(2)),
            ),
        }
    }
}

/// The rules for patterns whose matches are masked, in order, or the first
/// error.
pub open spec fn masks_of(patterns: Seq<Seq<char>>, mask: char) -> Result<
    Seq<TransformView>,
    TransformErrorView,
>
    decreases patterns.len(),
{
    if patterns.len() == 0 {
        Ok(Seq::empty())
    } else {
        match regex_compiled(patterns[0]) {
            Err(cause) => Err(TransformErrorView::MaskPattern(patterns[0], cause)),
            Ok(regex) => transforms_before(
                seq![TransformView { regex, kind: KindView::Mask(mask) }],
                masks_of(patterns.drop_first(), mask),
            ),
        }
    }
}

/// `rules` before the rules of an outcome, or the outcome's error.
pub open spec fn transforms_before(
    rules: Seq<TransformView>,
    outcome: Result<Seq<TransformView>, TransformErrorView>,
) -> Result<Seq<TransformView>, TransformErrorView> {
    match outcome {
        Ok(rest) => Ok(rules + rest),
        Err(error) => Err(error),
    }
}

/// The output transforms that options ask for: first the replacements, behind
/// them the masks. The mask is looked at first, even where nothing is masked.
pub open spec fn transforms_of(
    replace: Seq<Seq<char>>,
    mask: Seq<Seq<char>>,
    mask_char: Seq<char>,
) -> Result<Seq<TransformView>, TransformErrorView> {
    match mask_of(mask_char) {
        Err(error) => Err(TransformErrorView::Mask(error)),
        Ok(c) => if replace.len() % 2 != 0 {
            Err(TransformErrorView::Pairs)
        } else {
            match replaces_of(replace) {
                Err(error) => Err(error),
                Ok(rules) => transforms_before(rules, masks_of(mask, c)),
            }
        },
    }
}

fn push_replaces(rules: &mut Vec<OutputTransformRule>, pairs: &[String]) -> (r: Result<
    (),
    TransformError,
>)
    requires
        pairs@.len() % 2 == 0,
        old(rules)@.len() == 0,
    ensures
        match r {
            Ok(()) => replaces_of(texts(pairs@)) == Ok::<Seq<TransformView>, TransformErrorView>(
                transform_views(final(rules)@),
            ),
            Err(error) => replaces_of(texts(pairs@)) == Err::<
                Seq<TransformView>,
                TransformErrorView,
            >(error@),
        },
{
    let ghost all = texts(pairs@);
    let mut i: usize = 0;
    proof {
        assert(all.skip(0) == all);
        assert(transform_views(rules@) == Seq::<TransformView>::empty());
        assert(replaces_of(all) == transforms_before(Seq::empty(), replaces_of(all)));
    }
    while i < pairs.len()
        invariant
            all == texts(pairs@),
            i <= pairs@.len(),
            i % 2 == 0,
            pairs@.len() % 2 == 0,
            replaces_of(all) == transforms_before(
                transform_views(rules@),
                replaces_of(all.skip(i as int)),
            ),
        decreases pairs@.len() - i,
    {
        let ghost before = transform_views(rules@);
        proof {
            assert(all.skip(i as int)[0] == pairs@[i as int]@);
            assert(all.skip(i as int)[1] == pairs@[i + 1]@);
            assert(all.skip(i as int).skip(2) == all.skip(i + 2));
        }
        let pattern = pairs[i].as_str();
        let regex = match compile_regex(pattern) {
            Ok(regex) => regex,
            Err(cause) => {
                return Err(TransformError::ReplacePattern(pattern.to_owned(), cause));
            },
        };
        let rule = OutputTransformRule {
            regex,
            kind: OutputTransformKind::Replace(pairs[i + 1].as_str().to_owned()),
        };
        rules.push(rule);
        proof {
            assert(transform_views(rules@) == before + seq![rule@]);
            assert forall|tail: Seq<TransformView>| #[trigger]
                (before + (seq![rule@] + tail)) == transform_views(rules@) + tail by {}
        }
        i = i + 2;
    }
    assert(transform_views(rules@) + Seq::<TransformView>::empty() == transform_views(rules@));
    Ok(())
}

fn push_masks(rules: &mut Vec<OutputTransformRule>, patterns: &[String], mask: char) -> (r: Result<
    (),
    TransformError,
>)
    ensures
        ({
            let outcome = transforms_before(
                transform_views(old(rules)@),
                masks_of(texts(patterns@), mask),
            );
            match r {
                Ok(()) => outcome == Ok::<Seq<TransformView>, TransformErrorView>(
                    transform_views(final(rules)@),
                ),
                Err(error) => outcome == Err::<Seq<TransformView>, TransformErrorView>(error@),
            }
        }),
{
    let ghost all = texts(patterns@);
    let ghost goal = transforms_before(transform_views(rules@), masks_of(all, mask));
    let mut i: usize = 0;
    assert(all.skip(0) == all);
    while i < patterns.len()
        invariant
            all == texts(patterns@),
            goal == transforms_before(transform_views(old(rules)@), masks_of(all, mask)),
            i <= patterns@.len(),
            goal == transforms_before(transform_views(rules@), masks_of(all.skip(i as int), mask)),
        decreases patterns@.len() - i,
    {
        let ghost before = transform_views(rules@);
        proof {
            assert(all.skip(i as int)[0] == patterns@[i as int]@);
            assert(all.skip(i as int).drop_first() == all.skip(i + 1));
        }
        let pattern = patterns[i].as_str();
        let regex = match compile_regex(pattern) {
            Ok(regex) => regex,
            Err(cause) => {
                return Err(TransformError::MaskPattern(pattern.to_owned(), cause));
            },
        };
        let rule = OutputTransformRule { regex, kind: OutputTransformKind::Mask(mask) };
        rules.push(rule);
        proof {
            assert(transform_views(rules@) == before + seq![rule@]);
            assert forall|tail: Seq<TransformView>| #[trigger]
                (before + (seq![rule@] + tail)) == transform_views(rules@) + tail by {}
        }
        i = i + 1;
    }
    assert(transform_views(rules@) + Seq::<TransformView>::empty() == transform_views(rules@));
    Ok(())
}

/// Reads the options that replace or mask output.
pub fn compile_output_transforms(
    replace_specs: &[String],
    mask_specs: &[String],
    mask_char: &str,
) -> (r: Result<Vec<OutputTransformRule>, TransformError>)
    ensures
        ({
            let outcome = transforms_of(texts(replace_specs@), texts(mask_specs@), mask_char@);
            match r {
                Ok(rules) => outcome == Ok::<Seq<TransformView>, TransformErrorView>(
                    transform_views(rules@),
                ),
                Err(error) => outcome == Err::<Seq<TransformView>, TransformErrorView>(error@),
            }
        }),
{
    let mask = match parse_mask_char(mask_char) {
        Ok(mask) => mask,
        Err(error) => {
            return Err(TransformError::Mask(error));
        },
    };
    if replace_specs.len() % 2 != 0 {
        return Err(TransformError::Pairs);
    }
    let mut rules: Vec<OutputTransformRule> = Vec::new();
    match push_replaces(&mut rules, replace_specs) {
        Ok(()) => {},
        Err(error) => {
            return Err(error);
        },
    }
    match push_masks(&mut rules, mask_specs, mask) {
        Ok(()) => Ok(rules),
        Err(error) => Err(error),
    }
}

/// The output transforms that options ask for.
pub open spec fn transforms_asked(options: Options) -> Result<
    Seq<TransformView>,
    TransformErrorView,
> {
    transforms_of(texts(options.replace@), texts(options.mask@), options.mask_char@)
}

/// What is wrong with the key bindings or, behind them, the output transforms.
pub open spec fn runtime_failure(options: Options) -> Option<RuntimeErrorView> {
    match (bindings_of(texts(options.bind@)), transforms_asked(options)) {
        (Err(error), _) => Some(RuntimeErrorView::Bindings(error)),
        (_, Err(error)) => Some(RuntimeErrorView::Transforms(error)),
        _ => None,
    }
}

/// Why a session cannot be set up.
#[verifier::ext_equal]
pub enum SetupFailure {
    Highlights(HighlightErrorView),
    DirectoryNotCreated,
    NotADirectory,
    Runtime(RuntimeErrorView),
}

/// What comes of setting up a session in three steps: `compile_highlight_rules`, the
/// directory for screenshots, and `build_runtime`. `created` tells whether a
/// directory that has to be created can be. A step that fails is the last.
pub open spec fn setup_failure(
    options: Options,
    exists: bool,
    is_dir: bool,
    created: bool,
) -> Option<SetupFailure> {
    if let Err(error) = highlights_asked(options) {
        Some(SetupFailure::Highlights(error))
    } else if directory_step_of(exists, is_dir) is Reject {
        Some(SetupFailure::NotADirectory)
    } else if directory_step_of(exists, is_dir) is Create && !created {
        Some(SetupFailure::DirectoryNotCreated)
    } else {
        match runtime_failure(options) {
            Some(error) => Some(SetupFailure::Runtime(error)),
            None => None,
        }
    }
}

/// What is wrong is told in order: the colour first; then the patterns and the
/// command; then the directory; then the key bindings; the output transforms last.
/// Whatever comes behind an error makes no difference, and where nothing is wrong the
/// session is set up.
pub proof fn law_setup_fails_in_order(options: Options, exists: bool, is_dir: bool, created: bool)
    ensures
        ({
            let failure = setup_failure(options, exists, is_dir, created);
            let color = rgb_read(options.highlight_color@);
            let highlights = highlights_asked(options);
            let bindings = bindings_of(texts(options.bind@));
            let transforms = transforms_asked(options);
            let ready = if exists {
                is_dir
            } else {
                created
            };
            &&& color is Err ==> failure == Some(
                SetupFailure::Highlights(HighlightErrorView::Color(color->Err_0)),
            )
            &&& highlights is Err ==> failure == Some(SetupFailure::Highlights(highlights->Err_0))
            &&& highlights is Ok && exists && !is_dir ==> failure == Some(
                SetupFailure::NotADirectory,
            )
            &&& highlights is Ok && !exists && !created ==> failure == Some(
                SetupFailure::DirectoryNotCreated,
            )
            &&& highlights is Ok && ready && bindings is Err ==> failure == Some(
                SetupFailure::Runtime(RuntimeErrorView::Bindings(bindings->Err_0)),
            )
            &&& highlights is Ok && ready && bindings is Ok && transforms is Err ==> failure
                == Some(SetupFailure::Runtime(RuntimeErrorView::Transforms(transforms->Err_0)))
            &&& failure is None <==> highlights is Ok && ready && bindings is Ok && transforms is Ok
        }),
{
}

/// Puts together what a session runs by. The highlight rules are read before;
/// key bindings come next, and output transforms last.
pub fn build_runtime(options: Options, highlight_rules: Vec<HighlightRule>) -> (r: Result<
    Runtime,
    RuntimeError,
>)
    ensures
        ({
            let bindings = bindings_of(texts(options.bind@));
            let transforms = transforms_asked(options);
            match r {
                Ok(runtime) => {
                    &&& runtime_failure(options) is None
                    &&& runtime.startup_capture_ms == options.startup_capture_ms
                    &&& runtime.screenshot_prefix == options.screenshot_prefix
                    &&& runtime.highlight_rules == highlight_rules
                    &&& binding_views(runtime.key_bindings@) == with_screenshot_key(
                        bindings->Ok_0,
                        options.screenshot_key,
                    )
                    &&& bindings_wait(binding_views(runtime.key_bindings@))
                    &&& transform_views(runtime.output_transforms@) == transforms->Ok_0
                },
                Err(error) => runtime_failure(options) == Some(error@),
            }
        }),
{
    let key_bindings = match compile_key_bindings(
        options.bind.as_slice(),
        options.screenshot_key,
    ) {
        Ok(bindings) => bindings,
        Err(error) => {
            return Err(RuntimeError::Bindings(error));
        },
    };
    let output_transforms = match compile_output_transforms(
        options.replace.as_slice(),
        options.mask.as_slice(),
        options.mask_char.as_str(),
    ) {
        Ok(transforms) => transforms,
        Err(error) => {
            return Err(RuntimeError::Transforms(error));
        },
    };
    Ok(
        Runtime {
            startup_capture_ms: options.startup_capture_ms,
            screenshot_prefix: options.screenshot_prefix,
            highlight_rules,
            key_bindings,
            output_transforms,
        },
    )
}

proof fn lemma_replaces(pairs: Seq<Seq<char>>)
    requires
        replaces_of(pairs) is Ok,
    ensures
        ({
            let rules = replaces_of(pairs)->Ok_0;
            &&& rules.len() == pairs.len() / 2
            &&& forall|i: int|
                0 <= i < rules.len() ==> regex_compiled(pairs[2 * i]) == Ok::<
                    regex::Regex,
                    regex::Error,
                >((#[trigger] rules[i]).regex) && rules[i].kind == KindView::Replace(
                    pairs[2 * i + 1],
                )
        }),
    decreases pairs.len(),
{
    if pairs.len() >= 2 {
        let later = pairs.skip(2);
        lemma_replaces(later);
        let rest = replaces_of(later)->Ok_0;
        let rules = replaces_of(pairs)->Ok_0;
        assert forall|i: int| 0 <= i < rules.len() implies regex_compiled(pairs[2 * i]) == Ok::<
            regex::Regex,
            regex::Error,
        >((#[trigger] rules[i]).regex) && rules[i].kind == KindView::Replace(pairs[2 * i + 1]) by {
            if i > 0 {
                assert(rules[i] == rest[i - 1]);
                assert(later[2 * (i - 1)] == pairs[2 * i]);
                assert(later[2 * (i - 1) + 1] == pairs[2 * i + 1]);
            }
        }
    }
}

proof fn lemma_masks(patterns: Seq<Seq<char>>, mask: char)
    requires
        masks_of(patterns, mask) is Ok,
    ensures
        ({
            let rules = masks_of(patterns, mask)->Ok_0;
            &&& rules.len() == patterns.len()
            &&& forall|i: int|
                0 <= i < rules.len() ==> regex_compiled(patterns[i]) == Ok::<
                    regex::Regex,
                    regex::Error,
                >((#[trigger] rules[i]).regex) && rules[i].kind == KindView::Mask(mask)
        }),
    decreases patterns.len(),
{
    if patterns.len() > 0 {
        let later = patterns.drop_first();
        lemma_masks(later, mask);
        let rest = masks_of(later, mask)->Ok_0;
        let rules = masks_of(patterns, mask)->Ok_0;
        assert forall|i: int| 0 <= i < rules.len() implies regex_compiled(patterns[i]) == Ok::<
            regex::Regex,
            regex::Error,
        >((#[trigger] rules[i]).regex) && rules[i].kind == KindView::Mask(mask) by {
            if i > 0 {
                assert(rules[i] == rest[i - 1]);
                assert(patterns[i] == later[i - 1]);
            }
        }
    }
}

/// There is a rule for each pair of a pattern and its replacement, and behind those
/// one for each pattern that is masked, all in order, and all masks are made of the
/// one mask character.
pub proof fn law_transforms_follow_options(
    replace: Seq<Seq<char>>,
    mask: Seq<Seq<char>>,
    mask_char: Seq<char>,
)
    requires
        transforms_of(replace, mask, mask_char) is Ok,
    ensures
        ({
            let rules = transforms_of(replace, mask, mask_char)->Ok_0;
            let n = replace.len() / 2;
            &&& mask_char.len() == 1
            &&& replace.len() == 2 * n
            &&& rules.len() == n + mask.len()
            &&& forall|i: int|
                0 <= i < n ==> regex_compiled(replace[2 * i]) == Ok::<regex::Regex, regex::Error>(
                    (#[trigger] rules[i]).regex,
                ) && rules[i].kind == KindView::Replace(replace[2 * i + 1])
            &&& forall|i: int|
                n <= i < rules.len() ==> regex_compiled(mask[i - n]) == Ok::<
                    regex::Regex,
                    regex::Error,
                >((#[trigger] rules[i]).regex) && rules[i].kind == KindView::Mask(mask_char[0])
        }),
{
    lemma_replaces(replace);
    lemma_masks(mask, mask_char[0]);
    let first = replaces_of(replace)->Ok_0;
    let second = masks_of(mask, mask_char[0])->Ok_0;
    let rules = transforms_of(replace, mask, mask_char)->Ok_0;
    assert(rules == first + second);
    assert forall|i: int| first.len() <= i < rules.len() implies regex_compiled(
        mask[i - first.len()],
    ) == Ok::<regex::Regex, regex::Error>((#[trigger] rules[i]).regex) && rules[i].kind
        == KindView::Mask(mask_char[0]) by {
        assert(rules[i] == second[i - first.len()]);
    }
    assert forall|i: int| 0 <= i < first.len() implies regex_compiled(replace[2 * i]) == Ok::<
        regex::Regex,
        regex::Error,
    >((#[trigger] rules[i]).regex) && rules[i].kind == KindView::Replace(replace[2 * i + 1]) by {
        assert(rules[i] == first[i]);
    }
}

/// Transforms are refused for a mask that is not one character, first of all, next for
/// a pattern without a replacement, and otherwise only for a pattern that cannot be
/// compiled: the first of them, replacements before masks.
pub proof fn law_transforms_fail_in_order(
    replace: Seq<Seq<char>>,
    mask: Seq<Seq<char>>,
    mask_char: Seq<char>,
)
    ensures
        ({
            let outcome = transforms_of(replace, mask, mask_char);
            &&& mask_char.len() == 0 ==> outcome == Err::<Seq<TransformView>, TransformErrorView>(
                TransformErrorView::Mask(MaskError::Empty),
            )
            &&& mask_char.len() > 1 ==> outcome == Err::<Seq<TransformView>, TransformErrorView>(
                TransformErrorView::Mask(MaskError::Long),
            )
            &&& mask_char.len() == 1 && replace.len() % 2 != 0 ==> outcome == Err::<
                Seq<TransformView>,
                TransformErrorView,
            >(TransformErrorView::Pairs)
            &&& mask_char.len() == 1 && replace.len() % 2 == 0 && (forall|i: int|
                0 <= i < replace.len() && i % 2 == 0 ==> regex_compiled(
                    #[trigger] replace[i],
                ) is Ok) && (forall|i: int|
                0 <= i < mask.len() ==> regex_compiled(#[trigger] mask[i]) is Ok) ==> outcome is Ok
            &&& forall|k: int|
                mask_char.len() == 1 && replace.len() % 2 == 0 && 0 <= k < replace.len() && k % 2
                    == 0 && regex_compiled(#[trigger] replace[k]) is Err && (forall|i: int|
                    0 <= i < k && i % 2 == 0 ==> regex_compiled(#[trigger] replace[i]) is Ok)
                    ==> outcome == Err::<Seq<TransformView>, TransformErrorView>(
                    TransformErrorView::ReplacePattern(
                        replace[k],
                        regex_compiled(replace[k])->Err_0,
                    ),
                )
            &&& forall|k: int|
                mask_char.len() == 1 && replace.len() % 2 == 0 && 0 <= k < mask.len()
                    && regex_compiled(#[trigger] mask[k]) is Err && (forall|i: int|
                    0 <= i < k ==> regex_compiled(#[trigger] mask[i]) is Ok) && (forall|i: int|
                    0 <= i < replace.len() && i % 2 == 0 ==> regex_compiled(
                        #[trigger] replace[i],
                    ) is Ok) ==> outcome == Err::<Seq<TransformView>, TransformErrorView>(
                    TransformErrorView::MaskPattern(mask[k], regex_compiled(mask[k])->Err_0),
                )
        }),
{
    if mask_char.len() == 1 && replace.len() % 2 == 0 {
        if forall|i: int|
            0 <= i < replace.len() && i % 2 == 0 ==> regex_compiled(#[trigger] replace[i]) is Ok {
            lemma_replaces_succeed(replace);
        }
        assert forall|k: int|
            0 <= k < replace.len() && k % 2 == 0 && regex_compiled(#[trigger] replace[k]) is Err && (
            forall|i: int|
                0 <= i < k && i % 2 == 0 ==> regex_compiled(
                    #[trigger] replace[i],
                ) is Ok) implies replaces_of(replace) == Err::<
            Seq<TransformView>,
            TransformErrorView,
        >(
            TransformErrorView::ReplacePattern(replace[k], regex_compiled(replace[k])->Err_0),
        ) by {
            lemma_replaces_fail(replace, k);
        }
        lemma_masks_fail(mask, mask_char[0]);
    }
}

proof fn lemma_replaces_succeed(pairs: Seq<Seq<char>>)
    requires
        forall|i: int|
            0 <= i < pairs.len() && i % 2 == 0 ==> regex_compiled(#[trigger] pairs[i]) is Ok,
    ensures
        replaces_of(pairs) is Ok,
    decreases pairs.len(),
{
    if pairs.len() >= 2 {
        let later = pairs.skip(2);
        assert(regex_compiled(pairs[0]) is Ok);
        assert forall|i: int| 0 <= i < later.len() && i % 2 == 0 implies regex_compiled(
            #[trigger] later[i],
        ) is Ok by {
            assert(later[i] == pairs[i + 2]);
        }
        lemma_replaces_succeed(later);
    }
}

proof fn lemma_replaces_fail(pairs: Seq<Seq<char>>, k: int)
    requires
        pairs.len() % 2 == 0,
        0 <= k < pairs.len(),
        k % 2 == 0,
        regex_compiled(pairs[k]) is Err,
        forall|i: int| 0 <= i < k && i % 2 == 0 ==> regex_compiled(#[trigger] pairs[i]) is Ok,
    ensures
        replaces_of(pairs) == Err::<Seq<TransformView>, TransformErrorView>(
            TransformErrorView::ReplacePattern(pairs[k], regex_compiled(pairs[k])->Err_0),
        ),
    decreases pairs.len(),
{
    if k > 0 {
        let later = pairs.skip(2);
        assert(regex_compiled(pairs[0]) is Ok);
        assert(later[k - 2] == pairs[k]);
        assert forall|i: int| 0 <= i < k - 2 && i % 2 == 0 implies regex_compiled(
            #[trigger] later[i],
        ) is Ok by {
            assert(later[i] == pairs[i + 2]);
        }
        lemma_replaces_fail(later, k - 2);
    }
}

proof fn lemma_masks_fail(patterns: Seq<Seq<char>>, mask: char)
    ensures
        (forall|i: int| 0 <= i < patterns.len() ==> regex_compiled(#[trigger] patterns[i]) is Ok)
            ==> masks_of(patterns, mask) is Ok,
        forall|k: int|
            0 <= k < patterns.len() && regex_compiled(#[trigger] patterns[k]) is Err && (forall|
                i: int,
            |
                0 <= i < k ==> regex_compiled(#[trigger] patterns[i]) is Ok) ==> masks_of(
                patterns,
                mask,
            ) == Err::<Seq<TransformView>, TransformErrorView>(
                TransformErrorView::MaskPattern(patterns[k], regex_compiled(patterns[k])->Err_0),
            ),
    decreases patterns.len(),
{
    if patterns.len() > 0 {
        let later = patterns.drop_first();
        lemma_masks_fail(later, mask);
        assert(forall|i: int| 0 <= i < later.len() ==> #[trigger] later[i] == patterns[i + 1]);
        if forall|i: int|
            0 <= i < patterns.len() ==> regex_compiled(#[trigger] patterns[i]) is Ok {
            assert(regex_compiled(patterns[0]) is Ok);
        }
        assert forall|k: int|
            0 <= k < patterns.len() && regex_compiled(#[trigger] patterns[k]) is Err && (forall|
                i: int,
            |
                0 <= i < k ==> regex_compiled(#[trigger] patterns[i]) is Ok) implies masks_of(
            patterns,
            mask,
        ) == Err::<Seq<TransformView>, TransformErrorView>(
            TransformErrorView::MaskPattern(patterns[k], regex_compiled(patterns[k])->Err_0),
        ) by {
            if k > 0 {
                assert(regex_compiled(patterns[0]) is Ok);
                assert(later[k - 1] == patterns[k]);
            }
        }
    }
}

/// Highlight rules are refused for the first pattern that cannot be compiled, except
/// that a wrong command is told of as soon as one pattern is right; without patterns
/// there is nothing to refuse.
pub proof fn law_rules_fail_in_order(
    patterns: Seq<Seq<char>>,
    color: Rgb,
    command: Option<Seq<char>>,
    capture: bool,
    k: int,
)
    ensures
        ({
            let outcome = highlights_of(patterns, color, command, capture);
            &&& patterns.len() == 0 ==> outcome == Ok::<Seq<RuleView>, HighlightErrorView>(
                Seq::empty(),
            )
            &&& patterns.len() > 0 && regex_compiled(patterns[0]) is Ok && command_of(
                command,
            ) is Err ==> outcome == Err::<Seq<RuleView>, HighlightErrorView>(
                HighlightErrorView::Command(command_of(command)->Err_0),
            )
            &&& 0 <= k < patterns.len() && regex_compiled(patterns[k]) is Err && (k > 0
                ==> command_of(command) is Ok) && (forall|i: int|
                0 <= i < k ==> regex_compiled(#[trigger] patterns[i]) is Ok) ==> outcome == Err::<
                Seq<RuleView>,
                HighlightErrorView,
            >(HighlightErrorView::Pattern(patterns[k], regex_compiled(patterns[k])->Err_0))
            &&& command_of(command) is Ok && (forall|i: int|
                0 <= i < patterns.len() ==> regex_compiled(#[trigger] patterns[i]) is Ok)
                ==> outcome is Ok
        }),
    decreases patterns.len(),
{
    if patterns.len() > 0 {
        let later = patterns.drop_first();
        law_rules_fail_in_order(later, color, command, capture, k - 1);
        if forall|i: int| 0 <= i < patterns.len() ==> regex_compiled(#[trigger] patterns[i]) is Ok {
            assert(regex_compiled(patterns[0]) is Ok);
            assert forall|i: int| 0 <= i < later.len() implies regex_compiled(
                #[trigger] later[i],
            ) is Ok by {
                assert(later[i] == patterns[i + 1]);
            }
        }
        if 0 < k < patterns.len() && forall|i: int|
            0 <= i < k ==> regex_compiled(#[trigger] patterns[i]) is Ok {
            assert(regex_compiled(patterns[0]) is Ok);
            assert(later[k - 1] == patterns[k]);
            assert forall|i: int| 0 <= i < k - 1 implies regex_compiled(
                #[trigger] later[i],
            ) is Ok by {
                assert(later[i] == patterns[i + 1]);
            }
        }
    }
}

/// A command line is split into words, of which there has to be one; without a command
/// line there is no command.
pub proof fn law_command_has_words(line: Seq<char>)
    ensures
        command_of(None) == Ok::<Option<Seq<Seq<char>>>, CommandErrorView>(None),
        match shell_split(line) {
            Err(cause) => command_of(Some(line)) == Err::<
                Option<Seq<Seq<char>>>,
                CommandErrorView,
            >(CommandErrorView::Syntax(cause)),
            Ok(words) => if words.len() > 0 {
                command_of(Some(line)) == Ok::<Option<Seq<Seq<char>>>, CommandErrorView>(
                    Some(words),
                )
            } else {
                command_of(Some(line)) == Err::<Option<Seq<Seq<char>>>, CommandErrorView>(
                    CommandErrorView::Empty,
                )
            },
        },
{
}

/// The options that ask for rules are those that are named for it.
pub proof fn law_options_ask_for_rules(options: Options)
    ensures
        transforms_asked(options) == transforms_of(
            texts(options.replace@),
            texts(options.mask@),
            options.mask_char@,
        ),
        match rgb_read(options.highlight_color@) {
            Err(error) => highlights_asked(options) == Err::<Seq<RuleView>, HighlightErrorView>(
                HighlightErrorView::Color(error),
            ),
            Ok(color) => highlights_asked(options) == highlights_of(
                texts(options.highlight@),
                color,
                match options.highlight_command {
                    Some(line) => Some(line@),
                    None => None,
                },
                options.highlight_capture_tui_screenshot,
            ),
        },
{
}

} // verus!
