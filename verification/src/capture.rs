//! The names of the files that a session writes.
use crate::template::{
    answers, answers_of, expand_template, expands, law_values_decide_expansion,
    lemma_expands_weaker, optional_str, optional_text,
};
use crate::text::{
    chars_of, decimal, digit_char, law_decimal_reads_back, push_decimal, same_text, strip_prefix,
};
use vstd::prelude::*;
use vstd::string::StringExecFns;

verus! {

broadcast use vstd::string::group_string_axioms;

/// The characters that a file name may hold as they are.
pub open spec fn safe_char(c: char) -> bool {
    ||| 'a' <= c <= 'z'
    ||| 'A' <= c <= 'Z'
    ||| '0' <= c <= '9'
    ||| c == '-'
    ||| c == '_'
}

/// A text with an underscore for each character that is not safe.
pub open spec fn sanitized(text: Seq<char>) -> Seq<char> {
    text.map_values(
        |c: char|
            if safe_char(c) {
                c
            } else {
                '_'
            },
    )
}

/// Puts an underscore in the place of each character that is not safe.
pub fn sanitize_segment(value: &str) -> (r: String)
    ensures
        r@ == sanitized(value@),
{
    let chars = chars_of(value);
    let mut out = String::new();
    let mut i: usize = 0;
    while i < chars.len()
        invariant
            chars@ == value@,
            i <= chars@.len(),
            out@ == sanitized(value@.take(i as int)),
        decreases chars@.len() - i,
    {
        let c: char = chars[i];
        if ('a' <= c && c <= 'z') || ('A' <= c && c <= 'Z') || ('0' <= c && c <= '9') || c == '-'
            || c == '_' {
            out.push(c);
        } else {
            out.push('_');
        }
        assert(out@ == sanitized(value@.take(i + 1)));
        i = i + 1;
    }
    assert(value@.take(i as int) == value@);
    out
}

/// A sanitized text is as long as the text, holds safe characters only, and stays
/// as it is when it is sanitized again.
pub proof fn law_sanitized_is_safe(text: Seq<char>)
    ensures
        sanitized(text).len() == text.len(),
        forall|i: int| 0 <= i < text.len() ==> safe_char(#[trigger] sanitized(text)[i]),
        sanitized(sanitized(text)) == sanitized(text),
        (forall|i: int| 0 <= i < text.len() ==> safe_char(#[trigger] text[i])) ==> sanitized(text)
            == text,
{
    assert(sanitized(sanitized(text)) == sanitized(text));
    if forall|i: int| 0 <= i < text.len() ==> safe_char(#[trigger] text[i]) {
        assert(sanitized(text) == text);
    }
}

/// What a file name is about.
#[verifier::ext_equal]
pub struct Subject {
    pub key: Seq<char>,
    pub backend: Seq<char>,
    pub kind: Seq<char>,
    pub ext: Seq<char>,
    pub timestamp: nat,
}

/// What a file name is about, from the values that it is made of.
pub open spec fn subject_of(
    key: &str,
    backend: &str,
    kind: &str,
    ext: &str,
    timestamp: u128,
) -> Subject {
    Subject {
        key: key@,
        backend: backend@,
        kind: kind@,
        ext: ext@,
        timestamp: timestamp as nat,
    }
}

/// The name of the variable that a token asks for.
pub open spec fn variable_of(token: Seq<char>) -> Option<Seq<char>> {
    if "env:"@.is_prefix_of(token) {
        Some(token.skip("env:"@.len() as int))
    } else {
        None
    }
}

/// Whether a variable may have a value that gives `value` when it is sanitized.
pub open spec fn variable_value(
    env: spec_fn(Seq<char>, Option<Seq<char>>) -> bool,
    name: Seq<char>,
    value: Option<Seq<char>>,
) -> bool {
    exists|found: Option<Seq<char>>| #[trigger]
        env(name, found) && value == sanitized_optional(found)
}

/// A text that may be absent, sanitized.
pub open spec fn sanitized_optional(text: Option<Seq<char>>) -> Option<Seq<char>> {
    match text {
        Some(value) => Some(sanitized(value)),
        None => None,
    }
}

proof fn lemma_variable_value(
    env: spec_fn(Seq<char>, Option<Seq<char>>) -> bool,
    name: Seq<char>,
    found: Option<Seq<char>>,
)
    requires
        env(name, found),
    ensures
        variable_value(env, name, sanitized_optional(found)),
{
}

/// The values that a token of a prefix may have. `env` relates the name of an
/// environment variable to the values that it may have.
pub open spec fn prefix_value(
    subject: Subject,
    env: spec_fn(Seq<char>, Option<Seq<char>>) -> bool,
    token: Seq<char>,
    value: Option<Seq<char>>,
) -> bool {
    if token == "key"@ {
        value == Some(sanitized(subject.key))
    } else if token == "backend"@ {
        value == Some(subject.backend)
    } else if token == "capture_kind"@ {
        value == Some(subject.kind)
    } else if token == "ext"@ {
        value == Some(subject.ext)
    } else if token == "timestamp"@ {
        value == Some(decimal(subject.timestamp))
    } else {
        match variable_of(token) {
            Some(name) => variable_value(env, name, value),
            None => value is None,
        }
    }
}

/// Whether `prefix` is what a template for prefixes may give. Without a template
/// there is no prefix.
pub open spec fn prefix_rendered(
    template: Option<Seq<char>>,
    subject: Subject,
    env: spec_fn(Seq<char>, Option<Seq<char>>) -> bool,
    prefix: Seq<char>,
) -> bool {
    match template {
        None => prefix.len() == 0,
        Some(text) => exists|rendered: Seq<char>|
            #![trigger sanitized(rendered)]
            expands(
                text,
                |token: Seq<char>, value: Option<Seq<char>>|
                    prefix_value(subject, env, token, value),
                rendered,
            ) && prefix == sanitized(rendered),
    }
}

/// Whether a lookup has one answer for each name.
pub open spec fn one_answer(env: spec_fn(Seq<char>, Option<Seq<char>>) -> bool) -> bool {
    forall|name: Seq<char>, a: Option<Seq<char>>, b: Option<Seq<char>>| #[trigger]
        env(name, a) && #[trigger] env(name, b) ==> a == b
}

/// While the environment does not change, a template gives one prefix.
pub proof fn law_prefix_is_decided(
    template: Option<Seq<char>>,
    subject: Subject,
    env: spec_fn(Seq<char>, Option<Seq<char>>) -> bool,
    a: Seq<char>,
    b: Seq<char>,
)
    requires
        one_answer(env),
        prefix_rendered(template, subject, env, a),
        prefix_rendered(template, subject, env, b),
    ensures
        a == b,
{
    match template {
        None => {
            assert(a == b);
        },
        Some(text) => {
            let resolves = |token: Seq<char>, value: Option<Seq<char>>|
                prefix_value(subject, env, token, value);
            let value = |token: Seq<char>|
                choose|value: Option<Seq<char>>| prefix_value(subject, env, token, value);
            assert forall|token: Seq<char>, v: Option<Seq<char>>| #[trigger]
                resolves(token, v) implies v == value(token) by {
                lemma_one_value(subject, env, token, v, value(token));
            }
            let x = choose|rendered: Seq<char>|
                #![trigger sanitized(rendered)]
                expands(text, resolves, rendered) && a == sanitized(rendered);
            let y = choose|rendered: Seq<char>|
                #![trigger sanitized(rendered)]
                expands(text, resolves, rendered) && b == sanitized(rendered);
            law_values_decide_expansion(text, resolves, value, x);
            law_values_decide_expansion(text, resolves, value, y);
        },
    }
}

proof fn lemma_one_value(
    subject: Subject,
    env: spec_fn(Seq<char>, Option<Seq<char>>) -> bool,
    token: Seq<char>,
    a: Option<Seq<char>>,
    b: Option<Seq<char>>,
)
    requires
        one_answer(env),
        prefix_value(subject, env, token, a),
        prefix_value(subject, env, token, b),
    ensures
        a == b,
{
    if let Some(name) = variable_of(token) {
        if variable_value(env, name, a) && variable_value(env, name, b) {
            let x = choose|found: Option<Seq<char>>| #[trigger]
                env(name, found) && a == sanitized_optional(found);
            let y = choose|found: Option<Seq<char>>| #[trigger]
                env(name, found) && b == sanitized_optional(found);
            assert(x == y);
        }
    }
}

/// The values that a lookup may answer with.
pub open spec fn environment<E: Fn(&str) -> Option<String>>(env: &E) -> spec_fn(
    Seq<char>,
    Option<Seq<char>>,
) -> bool {
    |name: Seq<char>, value: Option<Seq<char>>| answers(*env, name, value)
}

/// Whether a lookup can be asked for any name.
pub open spec fn answers_all<E: Fn(&str) -> Option<String>>(env: &E) -> bool {
    forall|name: &str| call_requires(*env, (name,))
}

fn prefix_token<E: Fn(&str) -> Option<String>>(
    token: &str,
    key: &str,
    backend: &str,
    capture_kind: &str,
    ext: &str,
    timestamp: u128,
    env: &E,
) -> (r: Option<String>)
    requires
        answers_all(env),
    ensures
        prefix_value(
            subject_of(key, backend, capture_kind, ext, timestamp),
            environment(env),
            token@,
            optional_text(r),
        ),
{
    if same_text(token, "key") {
        Some(sanitize_segment(key))
    } else if same_text(token, "backend") {
        Some(backend.to_owned())
    } else if same_text(token, "capture_kind") {
        Some(capture_kind.to_owned())
    } else if same_text(token, "ext") {
        Some(ext.to_owned())
    } else if same_text(token, "timestamp") {
        let mut digits = String::new();
        push_decimal(&mut digits, timestamp);
        assert(digits@ == decimal(timestamp as nat));
        Some(digits)
    } else {
        match strip_prefix(token, "env:") {
            Some(name) => {
                assert("env:"@.is_prefix_of(token@));
                assert(token@.skip("env:"@.len() as int) == name@);
                let found = env(name);
                proof {
                    lemma_variable_value(environment(env), name@, optional_text(found));
                }
                match found {
                    Some(value) => Some(sanitize_segment(value.as_str())),
                    None => None,
                }
            },
            None => None,
        }
    }
}

/// Fills in the template of a prefix. `env` looks up environment variables.
pub fn render_output_prefix<E: Fn(&str) -> Option<String>>(
    template: Option<&str>,
    key: &str,
    backend: &str,
    capture_kind: &str,
    ext: &str,
    timestamp: u128,
    env: &E,
) -> (r: String)
    requires
        answers_all(env),
    ensures
        prefix_rendered(
            optional_str(template),
            subject_of(key, backend, capture_kind, ext, timestamp),
            environment(env),
            r@,
        ),
{
    let text = match template {
        Some(text) => text,
        None => {
            return String::new();
        },
    };
    let resolve = |token: &str| -> (value: Option<String>)
        requires
            answers_all(env),
        ensures
            prefix_value(
                subject_of(key, backend, capture_kind, ext, timestamp),
                environment(env),
                token@,
                optional_text(value),
            ),
        {
            prefix_token(token, key, backend, capture_kind, ext, timestamp, env)
        };
    let rendered = expand_template(text, resolve);
    proof {
        let subject = subject_of(key, backend, capture_kind, ext, timestamp);
        let lookup = environment(env);
        lemma_expands_weaker(
            text@,
            answers_of(resolve),
            |token: Seq<char>, value: Option<Seq<char>>|
                prefix_value(subject, lookup, token, value),
            rendered@,
        );
    }
    sanitize_segment(rendered.as_str())
}

/// The name of a screenshot file.
pub open spec fn capture_name(prefix: Seq<char>, subject: Subject) -> Seq<char> {
    prefix + sanitized(subject.key) + "-"@ + decimal(subject.timestamp) + "."@ + subject.ext
}

/// The name of a file that tells of a match.
pub open spec fn event_name(prefix: Seq<char>, subject: Subject) -> Seq<char> {
    prefix + sanitized(subject.key) + "-"@ + decimal(subject.timestamp) + "-event.json"@
}

/// Names a screenshot file.
pub fn capture_file_name<E: Fn(&str) -> Option<String>>(
    output_prefix: Option<&str>,
    key: &str,
    backend: &str,
    capture_kind: &str,
    ext: &str,
    timestamp: u128,
    env: &E,
) -> (r: String)
    requires
        answers_all(env),
    ensures
        ({
            let subject = subject_of(key, backend, capture_kind, ext, timestamp);
            exists|prefix: Seq<char>|
                #![trigger capture_name(prefix, subject)]
                prefix_rendered(optional_str(output_prefix), subject, environment(env), prefix)
                    && r@ == capture_name(prefix, subject)
        }),
{
    let prefix = render_output_prefix(
        output_prefix,
        key,
        backend,
        capture_kind,
        ext,
        timestamp,
        env,
    );
    let ghost subject = subject_of(key, backend, capture_kind, ext, timestamp);
    let ghost lead = prefix@;
    let mut name = prefix;
    name.append(sanitize_segment(key).as_str());
    name.append("-");
    push_decimal(&mut name, timestamp);
    name.append(".");
    name.append(ext);
    assert(name@ == capture_name(lead, subject));
    name
}

/// Names the file of a screenshot that is taken for a match.
pub fn highlight_file_name<E: Fn(&str) -> Option<String>>(
    output_prefix: Option<&str>,
    key: &str,
    timestamp: u128,
    env: &E,
) -> (r: String)
    requires
        answers_all(env),
    ensures
        ({
            let subject = subject_of(key, "tui", "highlight_svg", "svg", timestamp);
            exists|prefix: Seq<char>|
                #![trigger capture_name(prefix, subject)]
                prefix_rendered(optional_str(output_prefix), subject, environment(env), prefix)
                    && r@ == capture_name(prefix, subject)
        }),
{
    capture_file_name(output_prefix, key, "tui", "highlight_svg", "svg", timestamp, env)
}

/// Names the file that tells of a match.
pub fn event_file_name<E: Fn(&str) -> Option<String>>(
    output_prefix: Option<&str>,
    key: &str,
    backend: &str,
    timestamp: u128,
    env: &E,
) -> (r: String)
    requires
        answers_all(env),
    ensures
        ({
            let subject = subject_of(key, backend, "event", "json", timestamp);
            exists|prefix: Seq<char>|
                #![trigger event_name(prefix, subject)]
                prefix_rendered(optional_str(output_prefix), subject, environment(env), prefix)
                    && r@ == event_name(prefix, subject)
        }),
{
    let prefix = render_output_prefix(
        output_prefix,
        key,
        backend,
        "event",
        "json",
        timestamp,
        env,
    );
    let ghost subject = subject_of(key, backend, "event", "json", timestamp);
    let ghost lead = prefix@;
    let mut name = prefix;
    name.append(sanitize_segment(key).as_str());
    name.append("-");
    push_decimal(&mut name, timestamp);
    name.append("-event.json");
    assert(name@ == event_name(lead, subject));
    name
}

/// Names the file of a screenshot that was asked for by key.
pub fn manual_file_name<E: Fn(&str) -> Option<String>>(
    output_prefix: Option<&str>,
    timestamp: u128,
    env: &E,
) -> (r: String)
    requires
        answers_all(env),
    ensures
        ({
            let subject = subject_of("manual", "tui", "manual_svg", "svg", timestamp);
            exists|prefix: Seq<char>|
                #![trigger capture_name(prefix, subject)]
                prefix_rendered(optional_str(output_prefix), subject, environment(env), prefix)
                    && r@ == capture_name(prefix, subject)
        }),
{
    capture_file_name(output_prefix, "manual", "tui", "manual_svg", "svg", timestamp, env)
}

/// Whether a text holds safe characters and dots only, so that it names a file in
/// the directory it is joined to.
pub open spec fn plain_name(name: Seq<char>) -> bool {
    forall|i: int| 0 <= i < name.len() ==> safe_char(#[trigger] name[i]) || name[i] == '.'
}

/// Whatever the template of the prefix and the environment hold, the files that
/// a session writes lie directly in its directory.
pub proof fn law_files_stay_in_directory(
    template: Option<Seq<char>>,
    subject: Subject,
    env: spec_fn(Seq<char>, Option<Seq<char>>) -> bool,
    prefix: Seq<char>,
)
    requires
        prefix_rendered(template, subject, env, prefix),
        plain_name(subject.ext),
    ensures
        plain_name(capture_name(prefix, subject)),
        plain_name(event_name(prefix, subject)),
{
    match template {
        Some(text) => {
            let rendered = choose|rendered: Seq<char>|
                #![trigger sanitized(rendered)]
                expands(
                    text,
                    |token: Seq<char>, value: Option<Seq<char>>|
                        prefix_value(subject, env, token, value),
                    rendered,
                ) && prefix == sanitized(rendered);
            law_sanitized_is_safe(rendered);
            assert(plain_name(prefix));
        },
        None => {},
    }
    law_sanitized_is_safe(subject.key);
    lemma_decimal_is_plain(subject.timestamp);
    reveal_strlit("-");
    reveal_strlit(".");
    reveal_strlit("-event.json");
    let key = sanitized(subject.key);
    let time = decimal(subject.timestamp);
    lemma_plain_names_join(prefix, key);
    lemma_plain_names_join(prefix + key, "-"@);
    lemma_plain_names_join(prefix + key + "-"@, time);
    lemma_plain_names_join(prefix + key + "-"@ + time, "."@);
    lemma_plain_names_join(prefix + key + "-"@ + time + "."@, subject.ext);
    lemma_plain_names_join(prefix + key + "-"@ + time, "-event.json"@);
}

proof fn lemma_plain_names_join(a: Seq<char>, b: Seq<char>)
    requires
        plain_name(a),
        plain_name(b),
    ensures
        plain_name(a + b),
{
    assert forall|i: int| 0 <= i < (a + b).len() implies safe_char(#[trigger] (a + b)[i]) || (a
        + b)[i] == '.' by {
        if i < a.len() {
            assert((a + b)[i] == a[i]);
        } else {
            assert((a + b)[i] == b[i - a.len()]);
        }
    }
}

proof fn lemma_decimal_is_plain(n: nat)
    ensures
        plain_name(decimal(n)),
    decreases n,
{
    if n >= 10 {
        lemma_decimal_is_plain(n / 10);
        assert(decimal(n) == decimal(n / 10) + seq![digit_char(n % 10)]);
        lemma_plain_names_join(decimal(n / 10), seq![digit_char(n % 10)]);
    }
}

/// A safe character stays, and any other becomes an underscore.
pub proof fn law_unsafe_characters_become_underscores(text: Seq<char>, i: int)
    requires
        0 <= i < text.len(),
    ensures
        ('a' <= text[i] <= 'z' || 'A' <= text[i] <= 'Z' || '0' <= text[i] <= '9' || text[i] == '-'
            || text[i] == '_') ==> sanitized(text)[i] == text[i],
        !('a' <= text[i] <= 'z' || 'A' <= text[i] <= 'Z' || '0' <= text[i] <= '9' || text[i] == '-'
            || text[i] == '_') ==> sanitized(text)[i] == '_',
{
}

/// The files that are written about one key at different times have different names,
/// each of which starts with the prefix and the key and ends as its kind asks for.
pub proof fn law_names_tell_the_time(prefix: Seq<char>, a: Subject, b: Subject)
    requires
        a.key == b.key,
        a.ext == b.ext,
    ensures
        capture_name(prefix, a) == capture_name(prefix, b) <==> a.timestamp == b.timestamp,
        event_name(prefix, a) == event_name(prefix, b) <==> a.timestamp == b.timestamp,
        ({
            let start = prefix + sanitized(a.key) + "-"@;
            &&& capture_name(prefix, a) == start + decimal(a.timestamp) + ("."@ + a.ext)
            &&& event_name(prefix, a) == start + decimal(a.timestamp) + "-event.json"@
        }),
{
    let start = prefix + sanitized(a.key) + "-"@;
    let x = decimal(a.timestamp);
    let y = decimal(b.timestamp);
    law_decimal_reads_back(a.timestamp);
    law_decimal_reads_back(b.timestamp);
    lemma_same_middle(start, x, y, "."@ + a.ext);
    lemma_same_middle(start, x, y, "-event.json"@);
    assert(start + x + "."@ + a.ext == start + x + ("."@ + a.ext));
    assert(start + y + "."@ + b.ext == start + y + ("."@ + a.ext));
}

proof fn lemma_same_middle(start: Seq<char>, x: Seq<char>, y: Seq<char>, end: Seq<char>)
    ensures
        start + x + end == start + y + end ==> x == y,
{
    let a = start + x + end;
    let b = start + y + end;
    if a == b {
        assert(a.len() == b.len());
        assert forall|i: int| 0 <= i < x.len() implies x[i] == y[i] by {
            assert(a[start.len() + i] == x[i]);
            assert(b[start.len() + i] == y[i]);
        }
        assert(x == y);
    }
}

/// Each token of a prefix stands for its own part of the subject, `env:` for a
/// variable, and any other token for nothing.
pub proof fn law_prefix_tokens(
    subject: Subject,
    env: spec_fn(Seq<char>, Option<Seq<char>>) -> bool,
    name: Seq<char>,
    value: Option<Seq<char>>,
)
    ensures
        prefix_value(subject, env, "key"@, value) == (value == Some(sanitized(subject.key))),
        prefix_value(subject, env, "backend"@, value) == (value == Some(subject.backend)),
        prefix_value(subject, env, "capture_kind"@, value) == (value == Some(subject.kind)),
        prefix_value(subject, env, "ext"@, value) == (value == Some(subject.ext)),
        prefix_value(subject, env, "timestamp"@, value) == (value == Some(
            decimal(subject.timestamp),
        )),
        prefix_value(subject, env, "env:"@ + name, value) == variable_value(env, name, value),
        env(name, value) ==> variable_value(env, name, sanitized_optional(value)),
        name != "key"@ && name != "backend"@ && name != "capture_kind"@ && name != "ext"@ && name
            != "timestamp"@ && !"env:"@.is_prefix_of(name) ==> prefix_value(
            subject,
            env,
            name,
            value,
        ) == (value is None),
{
    reveal_strlit("key");
    reveal_strlit("backend");
    reveal_strlit("capture_kind");
    reveal_strlit("ext");
    reveal_strlit("timestamp");
    reveal_strlit("env:");
    assert("key"@[0] == 'k');
    assert("backend"@[0] == 'b');
    assert("capture_kind"@[0] == 'c');
    assert("ext"@[0] == 'e' && "ext"@.len() == 3);
    assert("timestamp"@[0] == 't');
    let token = "env:"@ + name;
    assert(token[0] == 'e' && token.len() >= 4);
    assert("env:"@ =~= token.subrange(0, 4));
    assert(token.skip(4) == name);
}

} // verus!
