//! What is done about new matches: a screenshot, a file that tells of them, and
//! a command.
use crate::boundary::{json_strings, strings_to_json};
use crate::highlight::{HighlightTrigger, TriggerView, copy_strings, trigger_views};
use crate::model::texts;
use crate::template::{
    answers_of, expand_template, expanded, law_values_decide_expansion, optional_str,
    optional_text,
};
use crate::text::same_text;
use vstd::prelude::*;

verus! {

broadcast use vstd::string::group_string_axioms;

/// What has been done for the triggers so far.
#[derive(Debug)]
pub enum DispatchEvent {
    /// Nothing yet.
    Begun,
    /// The screenshot of a trigger was written to this path.
    Captured(usize, String),
    /// The file that tells of a trigger was written to the first path; the
    /// second is that of its screenshot.
    Noted(usize, String, Option<String>),
    /// The command of a trigger was started.
    Started(usize),
}

/// What is to be done next for the triggers.
#[derive(Debug)]
pub enum DispatchAction {
    /// Write the screenshot of a trigger.
    Capture(usize),
    /// Write the file that tells of a trigger, with the path of its screenshot.
    Note(usize, Option<String>),
    /// Start the command of a trigger, with the path of the file that tells of
    /// it and of its screenshot.
    Start(usize, String, Option<String>),
    /// Nothing is left.
    Finish,
}

/// An event, over plain text.
#[verifier::ext_equal]
pub enum EventView {
    Begun,
    Captured(int, Seq<char>),
    Noted(int, Seq<char>, Option<Seq<char>>),
    Started(int),
}

/// An action, over plain text.
#[verifier::ext_equal]
pub enum DispatchView {
    Capture(int),
    Note(int, Option<Seq<char>>),
    Start(int, Seq<char>, Option<Seq<char>>),
    Finish,
}

impl View for DispatchEvent {
    type V = EventView;

    open spec fn view(&self) -> EventView {
        match self {
            DispatchEvent::Begun => EventView::Begun,
            DispatchEvent::Captured(i, path) => EventView::Captured(*i as int, path@),
            DispatchEvent::Noted(i, path, capture) => EventView::Noted(
                *i as int,
                path@,
                optional_text(*capture),
            ),
            DispatchEvent::Started(i) => EventView::Started(*i as int),
        }
    }
}

impl View for DispatchAction {
    type V = DispatchView;

    open spec fn view(&self) -> DispatchView {
        match self {
            DispatchAction::Capture(i) => DispatchView::Capture(*i as int),
            DispatchAction::Note(i, capture) => DispatchView::Note(
                *i as int,
                optional_text(*capture),
            ),
            DispatchAction::Start(i, path, capture) => DispatchView::Start(
                *i as int,
                path@,
                optional_text(*capture),
            ),
            DispatchAction::Finish => DispatchView::Finish,
        }
    }
}

/// Whether a trigger starts a command.
pub open spec fn has_command(trigger: TriggerView) -> bool {
    trigger.command is Some && trigger.command->Some_0.len() > 0
}

/// What is done first for the trigger at a position.
pub open spec fn first_action(triggers: Seq<TriggerView>, i: int) -> DispatchView {
    if i >= triggers.len() {
        DispatchView::Finish
    } else if triggers[i].capture {
        DispatchView::Capture(i)
    } else {
        DispatchView::Note(i, None)
    }
}

/// What is done after an event: the triggers are taken in order; a screenshot
/// comes first, where one is wanted, then the file that tells of the trigger,
/// then the command, where there is one.
pub open spec fn next_action(triggers: Seq<TriggerView>, event: EventView) -> DispatchView {
    match event {
        EventView::Begun => first_action(triggers, 0),
        EventView::Captured(i, path) => DispatchView::Note(i, Some(path)),
        EventView::Noted(i, path, capture) => if has_command(triggers[i]) {
            DispatchView::Start(i, path, capture)
        } else {
            first_action(triggers, i + 1)
        },
        EventView::Started(i) => first_action(triggers, i + 1),
    }
}

/// Whether an event speaks of a trigger that there is.
pub open spec fn event_fits(triggers: Seq<TriggerView>, event: EventView) -> bool {
    match event {
        EventView::Begun => true,
        EventView::Captured(i, _) => 0 <= i < triggers.len(),
        EventView::Noted(i, _, _) => 0 <= i < triggers.len(),
        EventView::Started(i) => 0 <= i < triggers.len(),
    }
}

fn begin_trigger(triggers: &[HighlightTrigger], i: usize) -> (r: DispatchAction)
    ensures
        r@ == first_action(trigger_views(triggers@), i as int),
{
    if i >= triggers.len() {
        DispatchAction::Finish
    } else if triggers[i].capture_tui_screenshot {
        DispatchAction::Capture(i)
    } else {
        DispatchAction::Note(i, None)
    }
}

/// Decides what is to be done next for the triggers.
pub fn dispatch_tui_triggers(
    triggers: &[HighlightTrigger],
    event: DispatchEvent,
) -> (r: DispatchAction)
    requires
        event_fits(trigger_views(triggers@), event@),
    ensures
        r@ == next_action(trigger_views(triggers@), event@),
{
    match event {
        DispatchEvent::Begun => begin_trigger(triggers, 0),
        DispatchEvent::Captured(i, path) => DispatchAction::Note(i, Some(path)),
        DispatchEvent::Noted(i, path, capture) => {
            let starts = match &triggers[i].command {
                Some(words) => words.len() > 0,
                None => false,
            };
            if starts {
                DispatchAction::Start(i, path, capture)
            } else {
                begin_trigger(triggers, i + 1)
            }
        },
        DispatchEvent::Started(i) => {
            assert(i < triggers.len());
            begin_trigger(triggers, i + 1)
        },
    }
}

/// The event that an action leads to, where it succeeds and `path` is the file
/// that it wrote.
pub open spec fn done(action: DispatchView, path: Seq<char>) -> EventView {
    match action {
        DispatchView::Capture(i) => EventView::Captured(i, path),
        DispatchView::Note(i, capture) => EventView::Noted(i, path, capture),
        DispatchView::Start(i, _, _) => EventView::Started(i),
        DispatchView::Finish => EventView::Begun,
    }
}

/// How many steps are left at most.
pub open spec fn steps_left(triggers: Seq<TriggerView>, action: DispatchView) -> int {
    match action {
        DispatchView::Capture(i) => 3 * (triggers.len() - i),
        DispatchView::Note(i, _) => 3 * (triggers.len() - i) - 1,
        DispatchView::Start(i, _, _) => 3 * (triggers.len() - i) - 2,
        DispatchView::Finish => 0,
    }
}

/// Whether an action speaks of a trigger that there is.
pub open spec fn action_fits(triggers: Seq<TriggerView>, action: DispatchView) -> bool {
    match action {
        DispatchView::Capture(i) => 0 <= i < triggers.len(),
        DispatchView::Note(i, _) => 0 <= i < triggers.len(),
        DispatchView::Start(i, _, _) => 0 <= i < triggers.len(),
        DispatchView::Finish => true,
    }
}

/// Every step is about a trigger that there is and leaves fewer steps to do,
/// three for each trigger at most.
pub proof fn law_dispatch_ends(triggers: Seq<TriggerView>, action: DispatchView, path: Seq<char>)
    requires
        action_fits(triggers, action),
    ensures
        action_fits(triggers, next_action(triggers, EventView::Begun)),
        steps_left(triggers, next_action(triggers, EventView::Begun)) <= 3 * triggers.len(),
        action !is Finish ==> {
            let event = done(action, path);
            let next = next_action(triggers, event);
            &&& event_fits(triggers, event)
            &&& action_fits(triggers, next)
            &&& 0 <= steps_left(triggers, next) < steps_left(triggers, action)
        },
{
}

/// The actions for the triggers from position `i` on, where `paths` gives the
/// path that each step writes.
pub open spec fn actions_from(
    triggers: Seq<TriggerView>,
    action: DispatchView,
    paths: spec_fn(DispatchView) -> Seq<char>,
) -> Seq<DispatchView>
    decreases steps_left(triggers, action),
    when action_fits(triggers, action)
    via actions_shrink
{
    if action is Finish {
        Seq::empty()
    } else {
        seq![action] + actions_from(
            triggers,
            next_action(triggers, done(action, paths(action))),
            paths,
        )
    }
}

#[via_fn]
proof fn actions_shrink(
    triggers: Seq<TriggerView>,
    action: DispatchView,
    paths: spec_fn(DispatchView) -> Seq<char>,
) {
    law_dispatch_ends(triggers, action, paths(action));
}

/// The actions for one trigger.
pub open spec fn actions_for(
    triggers: Seq<TriggerView>,
    i: int,
    paths: spec_fn(DispatchView) -> Seq<char>,
) -> Seq<DispatchView> {
    let capture = if triggers[i].capture {
        Some(paths(DispatchView::Capture(i)))
    } else {
        None
    };
    let note = DispatchView::Note(i, capture);
    let head = if triggers[i].capture {
        seq![DispatchView::Capture(i), note]
    } else {
        seq![note]
    };
    if has_command(triggers[i]) {
        head + seq![DispatchView::Start(i, paths(note), capture)]
    } else {
        head
    }
}

/// The triggers are dealt with one after the other: the actions from a trigger
/// on are its own, followed by those from the next trigger on.
pub proof fn law_triggers_in_order(
    triggers: Seq<TriggerView>,
    i: int,
    paths: spec_fn(DispatchView) -> Seq<char>,
)
    requires
        0 <= i < triggers.len(),
    ensures
        actions_from(triggers, first_action(triggers, i), paths) == actions_for(triggers, i, paths)
            + actions_from(triggers, first_action(triggers, i + 1), paths),
{
    reveal_with_fuel(actions_from, 4);
    let rest = actions_from(triggers, first_action(triggers, i + 1), paths);
    assert(actions_from(triggers, first_action(triggers, i), paths) == actions_for(
        triggers,
        i,
        paths,
    ) + rest);
}

/// Whether a screenshot is taken for one of the triggers.
pub fn takes_screenshot(triggers: &[HighlightTrigger]) -> (r: bool)
    ensures
        r == exists|i: int|
            0 <= i < triggers@.len() && (#[trigger] triggers@[i]).capture_tui_screenshot,
{
    let mut i: usize = 0;
    while i < triggers.len()
        invariant
            i <= triggers@.len(),
            forall|k: int| 0 <= k < i ==> !(#[trigger] triggers@[k]).capture_tui_screenshot,
        decreases triggers@.len() - i,
    {
        if triggers[i].capture_tui_screenshot {
            return true;
        }
        i = i + 1;
    }
    false
}

/// The file that tells of a trigger.
#[derive(Debug)]
pub struct TriggerManifest {
    pub backend: String,
    pub key: String,
    pub pattern: String,
    pub matches: Vec<String>,
    pub capture_path: Option<String>,
}

/// What the file that tells of a trigger says.
pub fn trigger_manifest(
    trigger: &HighlightTrigger,
    backend: &str,
    capture_path: Option<String>,
) -> (r: TriggerManifest)
    ensures
        r.backend@ == backend@,
        r.key@ == trigger.key@,
        r.pattern@ == trigger.pattern@,
        texts(r.matches@) == texts(trigger.matched_texts@),
        r.capture_path == capture_path,
{
    TriggerManifest {
        backend: backend.to_owned(),
        key: trigger.key.as_str().to_owned(),
        pattern: trigger.pattern.as_str().to_owned(),
        matches: copy_strings(&trigger.matched_texts),
        capture_path,
    }
}

/// What the tokens of a command stand for.
#[verifier::ext_equal]
pub struct CommandTokens {
    pub backend: Seq<char>,
    pub key: Seq<char>,
    pub pattern: Seq<char>,
    pub matches_json: Seq<char>,
    pub event_json: Seq<char>,
    pub capture_path: Option<Seq<char>>,
}

/// The value of a token of a command.
pub open spec fn command_value(tokens: CommandTokens, token: Seq<char>) -> Option<Seq<char>> {
    if token == "backend"@ {
        Some(tokens.backend)
    } else if token == "key"@ {
        Some(tokens.key)
    } else if token == "pattern"@ {
        Some(tokens.pattern)
    } else if token == "matches_json"@ {
        Some(tokens.matches_json)
    } else if token == "event_json"@ {
        Some(tokens.event_json)
    } else if token == "capture_path"@ {
        tokens.capture_path
    } else {
        None
    }
}

/// A part of a command with its tokens filled in.
pub open spec fn command_part(template: Seq<char>, tokens: CommandTokens) -> Seq<char> {
    expanded(template, |token: Seq<char>| command_value(tokens, token))
}

/// What the tokens of a command stand for, from the values themselves.
pub open spec fn tokens_of(
    backend: &str,
    key: &str,
    pattern: &str,
    matches_json: &str,
    event_json: &str,
    capture_path: Option<&str>,
) -> CommandTokens {
    CommandTokens {
        backend: backend@,
        key: key@,
        pattern: pattern@,
        matches_json: matches_json@,
        event_json: event_json@,
        capture_path: optional_str(capture_path),
    }
}

fn command_token(
    token: &str,
    backend: &str,
    key: &str,
    pattern: &str,
    matches_json: &str,
    event_json: &str,
    capture_path: Option<&str>,
) -> (r: Option<String>)
    ensures
        optional_text(r) == command_value(
            tokens_of(backend, key, pattern, matches_json, event_json, capture_path),
            token@,
        ),
{
    if same_text(token, "backend") {
        Some(backend.to_owned())
    } else if same_text(token, "key") {
        Some(key.to_owned())
    } else if same_text(token, "pattern") {
        Some(pattern.to_owned())
    } else if same_text(token, "matches_json") {
        Some(matches_json.to_owned())
    } else if same_text(token, "event_json") {
        Some(event_json.to_owned())
    } else if same_text(token, "capture_path") {
        match capture_path {
            Some(path) => Some(path.to_owned()),
            None => None,
        }
    } else {
        None
    }
}

/// Fills in the tokens in a part of a command.
pub fn expand_command_part(
    template: &str,
    backend: &str,
    key: &str,
    pattern: &str,
    matches_json: &str,
    event_json: &str,
    capture_path: Option<&str>,
) -> (r: String)
    ensures
        r@ == command_part(
            template@,
            tokens_of(backend, key, pattern, matches_json, event_json, capture_path),
        ),
{
    let resolve = |token: &str| -> (value: Option<String>)
        ensures
            optional_text(value) == command_value(
                tokens_of(backend, key, pattern, matches_json, event_json, capture_path),
                token@,
            ),
        {
            command_token(
                token,
                backend,
                key,
                pattern,
                matches_json,
                event_json,
                capture_path,
            )
        };
    let r = expand_template(template, resolve);
    proof {
        let tokens = tokens_of(backend, key, pattern, matches_json, event_json, capture_path);
        law_values_decide_expansion(
            template@,
            answers_of(resolve),
            |token: Seq<char>| command_value(tokens, token),
            r@,
        );
    }
    r
}

/// A command to start.
#[derive(Debug)]
pub struct CommandPlan {
    /// Its words, the program first.
    pub words: Vec<String>,
    /// The variables to set.
    pub variables: Vec<(String, String)>,
    /// The variable to set to the path of the file that tells of the match.
    pub event_variable: String,
    /// The variable to set to the path of the screenshot, where there is one.
    pub capture_variable: Option<String>,
}

/// The names and values of variables.
pub open spec fn pairs(variables: Seq<(String, String)>) -> Seq<(Seq<char>, Seq<char>)> {
    variables.map_values(|v: (String, String)| (v.0@, v.1@))
}

/// What the tokens stand for in the command of a trigger.
pub open spec fn trigger_tokens(
    trigger: TriggerView,
    backend: Seq<char>,
    event_json: Seq<char>,
    capture_path: Option<Seq<char>>,
) -> CommandTokens {
    CommandTokens {
        backend,
        key: trigger.key,
        pattern: trigger.pattern,
        matches_json: json_strings(trigger.matches),
        event_json,
        capture_path,
    }
}

/// The words of a command with their tokens filled in.
pub open spec fn command_words(words: Seq<Seq<char>>, tokens: CommandTokens) -> Seq<Seq<char>> {
    words.map_values(|word: Seq<char>| command_part(word, tokens))
}

/// The variables that the command of a trigger finds.
pub open spec fn command_variables(tokens: CommandTokens) -> Seq<(Seq<char>, Seq<char>)> {
    seq![
        ("TWRAP_HIGHLIGHT_BACKEND"@, tokens.backend),
        ("TWRAP_HIGHLIGHT_KEY"@, tokens.key),
        ("TWRAP_HIGHLIGHT_PATTERN"@, tokens.pattern),
        ("TWRAP_HIGHLIGHT_MATCHES_JSON"@, tokens.matches_json),
    ]
}

/// The variable that holds the path of a screenshot, where there is one.
pub open spec fn capture_variable_of(tokens: CommandTokens) -> Option<Seq<char>> {
    if tokens.capture_path is Some {
        Some("TWRAP_HIGHLIGHT_CAPTURE_PATH"@)
    } else {
        None
    }
}

/// Plans the command of a trigger, where it has one. The paths themselves need not
/// be text: the plan names the variables, and whoever starts the command sets them.
pub fn plan_command(
    trigger: &HighlightTrigger,
    backend: &str,
    event_json: &str,
    capture_path: Option<&str>,
) -> (r: Option<CommandPlan>)
    ensures
        ({
            let tokens = trigger_tokens(
                trigger@,
                backend@,
                event_json@,
                optional_str(capture_path),
            );
            match r {
                Some(plan) => has_command(trigger@) && texts(plan.words@) == command_words(
                    trigger@.command->Some_0,
                    tokens,
                ) && pairs(plan.variables@) == command_variables(tokens)
                    && plan.event_variable@ == "TWRAP_HIGHLIGHT_EVENT_JSON"@ && optional_text(
                    plan.capture_variable,
                ) == capture_variable_of(tokens),
                None => !has_command(trigger@),
            }
        }),
{
    let command = match &trigger.command {
        Some(command) => command,
        None => {
            return None;
        },
    };
    if command.len() == 0 {
        return None;
    }
    let matches_json = match strings_to_json(&trigger.matched_texts) {
        Ok(json) => json,
        Err(_) => {
            assert(false);
            String::new()
        },
    };
    let key = trigger.key.as_str();
    let pattern = trigger.pattern.as_str();
    let json = matches_json.as_str();
    let ghost tokens = tokens_of(backend, key, pattern, json, event_json, capture_path);
    let ghost source = texts(command@);
    let mut words: Vec<String> = Vec::new();
    let mut i: usize = 0;
    assert(texts(words@) == command_words(source.take(0), tokens));
    while i < command.len()
        invariant
            source == texts(command@),
            tokens == tokens_of(backend, key, pattern, json, event_json, capture_path),
            i <= command@.len(),
            texts(words@) == command_words(source.take(i as int), tokens),
        decreases command@.len() - i,
    {
        let ghost before = words@;
        let word = expand_command_part(
            command[i].as_str(),
            backend,
            key,
            pattern,
            json,
            event_json,
            capture_path,
        );
        words.push(word);
        proof {
            assert(texts(words@) == texts(before).push(word@));
            assert(command_words(source.take(i + 1), tokens) == command_words(
                source.take(i as int),
                tokens,
            ).push(command_part(source[i as int], tokens)));
        }
        i = i + 1;
    }
    assert(source.take(i as int) == source);
    let mut variables: Vec<(String, String)> = Vec::new();
    variables.push(("TWRAP_HIGHLIGHT_BACKEND".to_owned(), backend.to_owned()));
    variables.push(("TWRAP_HIGHLIGHT_KEY".to_owned(), key.to_owned()));
    variables.push(("TWRAP_HIGHLIGHT_PATTERN".to_owned(), pattern.to_owned()));
    variables.push(("TWRAP_HIGHLIGHT_MATCHES_JSON".to_owned(), json.to_owned()));
    assert(pairs(variables@) == command_variables(tokens));
    let capture_variable = match capture_path {
        Some(_) => Some("TWRAP_HIGHLIGHT_CAPTURE_PATH".to_owned()),
        None => None,
    };
    Some(
        CommandPlan {
            words,
            variables,
            event_variable: "TWRAP_HIGHLIGHT_EVENT_JSON".to_owned(),
            capture_variable,
        },
    )
}

/// Each token of a command stands for its own value, and any other token for nothing.
pub proof fn law_command_tokens(tokens: CommandTokens, token: Seq<char>)
    ensures
        command_value(tokens, "backend"@) == Some(tokens.backend),
        command_value(tokens, "key"@) == Some(tokens.key),
        command_value(tokens, "pattern"@) == Some(tokens.pattern),
        command_value(tokens, "matches_json"@) == Some(tokens.matches_json),
        command_value(tokens, "event_json"@) == Some(tokens.event_json),
        command_value(tokens, "capture_path"@) == tokens.capture_path,
        token != "backend"@ && token != "key"@ && token != "pattern"@ && token != "matches_json"@
            && token != "event_json"@ && token != "capture_path"@ ==> command_value(
            tokens,
            token,
        ) is None,
{
    reveal_strlit("backend");
    reveal_strlit("key");
    reveal_strlit("pattern");
    reveal_strlit("matches_json");
    reveal_strlit("event_json");
    reveal_strlit("capture_path");
    assert("backend"@[0] == 'b');
    assert("key"@[0] == 'k');
    assert("pattern"@[0] == 'p');
    assert("matches_json"@[0] == 'm');
    assert("event_json"@[0] == 'e');
    assert("capture_path"@[0] == 'c');
}

/// The command of a trigger has a word for each word of its rule, in order, with the
/// tokens filled in by what is known of the trigger, and finds the same in its
/// variables.
pub proof fn law_command_tells_of_its_trigger(
    trigger: TriggerView,
    backend: Seq<char>,
    event_json: Seq<char>,
    capture_path: Option<Seq<char>>,
    words: Seq<Seq<char>>,
    i: int,
)
    requires
        0 <= i < words.len(),
    ensures
        ({
            let tokens = trigger_tokens(trigger, backend, event_json, capture_path);
            let filled = command_words(words, tokens);
            &&& filled.len() == words.len()
            &&& filled[i] == expanded(words[i], |token: Seq<char>| command_value(tokens, token))
            &&& tokens.backend == backend
            &&& tokens.key == trigger.key
            &&& tokens.pattern == trigger.pattern
            &&& tokens.matches_json == json_strings(trigger.matches)
            &&& tokens.event_json == event_json
            &&& tokens.capture_path == capture_path
            &&& command_variables(tokens) == seq![
                ("TWRAP_HIGHLIGHT_BACKEND"@, backend),
                ("TWRAP_HIGHLIGHT_KEY"@, trigger.key),
                ("TWRAP_HIGHLIGHT_PATTERN"@, trigger.pattern),
                ("TWRAP_HIGHLIGHT_MATCHES_JSON"@, json_strings(trigger.matches)),
            ]
            &&& capture_variable_of(tokens) == if capture_path is Some {
                Some("TWRAP_HIGHLIGHT_CAPTURE_PATH"@)
            } else {
                None
            }
        }),
{
}

} // verus!
