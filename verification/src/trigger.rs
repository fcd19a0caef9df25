//! Telling new matches from those that were there before.
use crate::boundary::regex_compiled;
use crate::highlight::{
    HighlightTrigger, TriggerView, all_spans, rule_texts, trigger_of, trigger_views, triggers_of,
};
use crate::model::{HighlightRule, LineView};
use vstd::hash_map::StringHashMap;
use vstd::prelude::*;

verus! {

/// The fingerprint that was last reported for each key.
pub struct TriggerState {
    seen: StringHashMap<u64>,
}

impl View for TriggerState {
    type V = Map<Seq<char>, u64>;

    closed spec fn view(&self) -> Map<Seq<char>, u64> {
        self.seen@
    }
}

impl Default for TriggerState {
    /// Nothing was reported yet.
    fn default() -> (r: TriggerState)
        ensures
            r@ == Map::<Seq<char>, u64>::empty(),
    {
        TriggerState { seen: StringHashMap::new() }
    }
}

/// Whether a trigger differs from what was last reported for its key.
pub open spec fn is_new(seen: Map<Seq<char>, u64>, trigger: TriggerView) -> bool {
    !(seen.contains_key(trigger.key) && seen[trigger.key] == trigger.fingerprint)
}

/// What is remembered after the triggers, and those of them that are new, in
/// order.
pub open spec fn filtered(seen: Map<Seq<char>, u64>, triggers: Seq<TriggerView>) -> (
    Map<Seq<char>, u64>,
    Seq<TriggerView>,
)
    decreases triggers.len(),
{
    if triggers.len() == 0 {
        (seen, Seq::empty())
    } else if is_new(seen, triggers[0]) {
        let (after, fresh) = filtered(
            seen.insert(triggers[0].key, triggers[0].fingerprint),
            triggers.drop_first(),
        );
        (after, seq![triggers[0]] + fresh)
    } else {
        filtered(seen, triggers.drop_first())
    }
}

/// Keeps the triggers that differ from what was last reported for their keys,
/// and remembers them.
pub fn filter_new_triggers(
    state: &mut TriggerState,
    triggers: Vec<HighlightTrigger>,
) -> (r: Vec<HighlightTrigger>)
    ensures
        (final(state)@, trigger_views(r@)) == filtered(old(state)@, trigger_views(triggers@)),
{
    let ghost all = trigger_views(triggers@);
    let ghost goal = filtered(state@, all);
    let mut fresh: Vec<HighlightTrigger> = Vec::new();
    proof {
        assert(all.skip(0) == all);
        assert(trigger_views(fresh@) + goal.1 == goal.1);
    }
    for trigger in it: triggers
        invariant
            it.seq() == triggers@,
            all == trigger_views(triggers@),
            ({
                let (seen, rest) = filtered(state@, all.skip(it.index() as int));
                goal == (seen, trigger_views(fresh@) + rest)
            }),
    {
        let ghost before = trigger_views(fresh@);
        let ghost i = it.index() as int;
        assert(all.skip(i)[0] == trigger@);
        assert(all.skip(i).drop_first() == all.skip(i + 1));
        let changed = match state.seen.get(trigger.key.as_str()) {
            Some(previous) => *previous != trigger.fingerprint,
            None => true,
        };
        if changed {
            state.seen.insert(trigger.key.as_str().to_owned(), trigger.fingerprint);
            fresh.push(trigger);
            proof {
                let rest = filtered(state@, all.skip(i + 1)).1;
                assert(trigger_views(fresh@) == before.push(trigger@));
                assert(before + (seq![trigger@] + rest) == trigger_views(fresh@) + rest);
            }
        }
    }
    proof {
        assert(all.skip(all.len() as int) == Seq::<TriggerView>::empty());
        assert(trigger_views(fresh@) + Seq::<TriggerView>::empty() == trigger_views(fresh@));
    }
    fresh
}

/// Whether triggers with the same key also have the same fingerprint.
pub open spec fn keys_decide(triggers: Seq<TriggerView>) -> bool {
    forall|i: int, j: int|
        0 <= i < triggers.len() && 0 <= j < triggers.len() && (#[trigger] triggers[i]).key == (
        #[trigger] triggers[j]).key ==> triggers[i].fingerprint == triggers[j].fingerprint
}

/// Triggers that were just reported, or found to be known, are not reported
/// again while nothing changes.
pub proof fn law_unchanged_triggers_stay_quiet(
    seen: Map<Seq<char>, u64>,
    triggers: Seq<TriggerView>,
)
    requires
        keys_decide(triggers),
    ensures
        ({
            let after = filtered(seen, triggers).0;
            filtered(after, triggers) == (after, Seq::<TriggerView>::empty())
        }),
{
    let after = filtered(seen, triggers).0;
    lemma_remembered(seen, triggers);
    lemma_known_stay_quiet(after, triggers);
}

/// The trigger of a key whose fingerprint differs from what was last reported is
/// reported, provided that no trigger before it has the same key.
pub proof fn law_changed_trigger_is_reported(
    seen: Map<Seq<char>, u64>,
    triggers: Seq<TriggerView>,
    i: int,
)
    requires
        0 <= i < triggers.len(),
        is_new(seen, triggers[i]),
        forall|j: int| 0 <= j < i ==> (#[trigger] triggers[j]).key != triggers[i].key,
    ensures
        filtered(seen, triggers).1.contains(triggers[i]),
    decreases triggers.len(),
{
    let rest = triggers.drop_first();
    if i == 0 {
        assert(filtered(seen, triggers).1[0] == triggers[0]);
    } else {
        assert(triggers[0].key != triggers[i].key);
        assert(rest[i - 1] == triggers[i]);
        assert forall|j: int| 0 <= j < i - 1 implies (#[trigger] rest[j]).key != rest[i
            - 1].key by {
            assert(triggers[j + 1].key != triggers[i].key);
        }
        let next = if is_new(seen, triggers[0]) {
            seen.insert(triggers[0].key, triggers[0].fingerprint)
        } else {
            seen
        };
        law_changed_trigger_is_reported(next, rest, i - 1);
        let fresh = filtered(next, rest).1;
        let k = choose|k: int| 0 <= k < fresh.len() && fresh[k] == triggers[i];
        if is_new(seen, triggers[0]) {
            assert((seq![triggers[0]] + fresh)[k + 1] == triggers[i]);
        }
    }
}

/// Whether each rule looks for the pattern that is its key.
pub open spec fn keys_are_patterns(rules: Seq<HighlightRule>) -> bool {
    forall|i: int|
        0 <= i < rules.len() ==> regex_compiled((#[trigger] rules[i]).key@) == Ok::<
            regex::Regex,
            regex::Error,
        >(rules[i].regex)
}

/// A screen that was looked at once reports nothing when it is looked at again.
pub proof fn law_unchanged_screen_stays_quiet(
    seen: Map<Seq<char>, u64>,
    lines: Seq<LineView>,
    rules: Seq<HighlightRule>,
)
    requires
        keys_are_patterns(rules),
    ensures
        ({
            let found = all_spans(lines, rules);
            let triggers = triggers_of(lines, rules, found, rules.len() as int);
            let after = filtered(seen, triggers).0;
            filtered(after, triggers) == (after, Seq::<TriggerView>::empty())
        }),
{
    let found = all_spans(lines, rules);
    let triggers = triggers_of(lines, rules, found, rules.len() as int);
    assert forall|i: int, j: int|
        0 <= i < triggers.len() && 0 <= j < triggers.len() && (#[trigger] triggers[i]).key == (
        #[trigger] triggers[j]).key implies triggers[i].fingerprint == triggers[j].fingerprint by {
        let a = lemma_trigger_of_rule(lines, rules, found, rules.len() as int, i);
        let b = lemma_trigger_of_rule(lines, rules, found, rules.len() as int, j);
        assert(rules[a].regex == rules[b].regex);
        assert(found[a] == found[b]);
    }
    law_unchanged_triggers_stay_quiet(seen, triggers);
}

proof fn lemma_trigger_of_rule(
    lines: Seq<LineView>,
    rules: Seq<HighlightRule>,
    found: Seq<Seq<Seq<(usize, usize)>>>,
    n: int,
    i: int,
) -> (k: int)
    requires
        0 <= n <= rules.len(),
        0 <= i < triggers_of(lines, rules, found, n).len(),
    ensures
        0 <= k < n,
        triggers_of(lines, rules, found, n)[i] == trigger_of(
            rules[k],
            rule_texts(lines, found[k], lines.len() as int),
        ),
    decreases n,
{
    let before = triggers_of(lines, rules, found, n - 1);
    if n > 0 && i < before.len() {
        lemma_trigger_of_rule(lines, rules, found, n - 1, i)
    } else {
        n - 1
    }
}

proof fn lemma_remembered(seen: Map<Seq<char>, u64>, triggers: Seq<TriggerView>)
    requires
        keys_decide(triggers),
    ensures
        ({
            let after = filtered(seen, triggers).0;
            &&& forall|i: int|
                0 <= i < triggers.len() ==> !is_new(after, #[trigger] triggers[i])
            &&& forall|key: Seq<char>|
                (forall|i: int| 0 <= i < triggers.len() ==> (#[trigger] triggers[i]).key != key)
                    ==> (#[trigger] after.contains_key(key)) == seen.contains_key(key) && (
                after.contains_key(key) ==> after[key] == seen[key])
        }),
    decreases triggers.len(),
{
    if triggers.len() > 0 {
        let first = triggers[0];
        let rest = triggers.drop_first();
        let next = if is_new(seen, first) {
            seen.insert(first.key, first.fingerprint)
        } else {
            seen
        };
        assert forall|i: int, j: int|
            0 <= i < rest.len() && 0 <= j < rest.len() && (#[trigger] rest[i]).key == (
            #[trigger] rest[j]).key implies rest[i].fingerprint == rest[j].fingerprint by {
            assert(triggers[i + 1] == rest[i]);
            assert(triggers[j + 1] == rest[j]);
        }
        lemma_remembered(next, rest);
        let after = filtered(seen, triggers).0;
        assert(after == filtered(next, rest).0);
        assert forall|i: int| 0 <= i < triggers.len() implies !is_new(
            after,
            #[trigger] triggers[i],
        ) by {
            if i > 0 {
                assert(rest[i - 1] == triggers[i]);
            } else if exists|j: int| 0 <= j < rest.len() && (#[trigger] rest[j]).key == first.key {
                let j = choose|j: int| 0 <= j < rest.len() && (#[trigger] rest[j]).key == first.key;
                assert(triggers[j + 1] == rest[j]);
                assert(!is_new(after, rest[j]));
            } else {
                assert(forall|j: int| 0 <= j < rest.len() ==> (#[trigger] rest[j]).key != first.key);
                assert(after.contains_key(first.key) == next.contains_key(first.key));
            }
        }
        assert forall|key: Seq<char>|
            (forall|i: int| 0 <= i < triggers.len() ==> (#[trigger] triggers[i]).key != key) implies
            (#[trigger] after.contains_key(key)) == seen.contains_key(key) && (
        after.contains_key(key) ==> after[key] == seen[key]) by {
            assert forall|i: int| 0 <= i < rest.len() implies (#[trigger] rest[i]).key != key by {
                assert(triggers[i + 1] == rest[i]);
            }
            assert(triggers[0].key != key);
            assert(after.contains_key(key) == next.contains_key(key));
        }
    }
}

proof fn lemma_known_stay_quiet(seen: Map<Seq<char>, u64>, triggers: Seq<TriggerView>)
    requires
        forall|i: int| 0 <= i < triggers.len() ==> !is_new(seen, #[trigger] triggers[i]),
    ensures
        filtered(seen, triggers) == (seen, Seq::<TriggerView>::empty()),
    decreases triggers.len(),
{
    if triggers.len() > 0 {
        let rest = triggers.drop_first();
        assert forall|i: int| 0 <= i < rest.len() implies !is_new(seen, #[trigger] rest[i]) by {
            assert(triggers[i + 1] == rest[i]);
        }
        assert(!is_new(seen, triggers[0]));
        lemma_known_stay_quiet(seen, rest);
    }
}

/// Triggers are filtered one after the other: what was remembered of the first ones
/// counts for those behind them, and none is passed over.
pub proof fn law_triggers_are_filtered_in_turn(
    seen: Map<Seq<char>, u64>,
    a: Seq<TriggerView>,
    b: Seq<TriggerView>,
)
    ensures
        ({
            let (between, first) = filtered(seen, a);
            let (after, second) = filtered(between, b);
            filtered(seen, a + b) == (after, first + second)
        }),
    decreases a.len(),
{
    let (between, first) = filtered(seen, a);
    let (after, second) = filtered(between, b);
    if a.len() == 0 {
        assert(a + b == b);
        assert(first + second == second);
    } else {
        let all = a + b;
        assert(all[0] == a[0]);
        assert(all.drop_first() == a.drop_first() + b);
        let next = if is_new(seen, a[0]) {
            seen.insert(a[0].key, a[0].fingerprint)
        } else {
            seen
        };
        law_triggers_are_filtered_in_turn(next, a.drop_first(), b);
        if is_new(seen, a[0]) {
            let rest = filtered(next, a.drop_first()).1;
            assert(seq![a[0]] + (rest + second) == (seq![a[0]] + rest) + second);
        }
    }
}

/// A trigger is reported and remembered unless the same fingerprint was the last to
/// be reported for its key; one that is not reported changes nothing.
pub proof fn law_trigger_is_reported_once(seen: Map<Seq<char>, u64>, trigger: TriggerView)
    ensures
        seen.contains_key(trigger.key) && seen[trigger.key] == trigger.fingerprint ==> filtered(
            seen,
            seq![trigger],
        ) == (seen, Seq::<TriggerView>::empty()),
        !seen.contains_key(trigger.key) || seen[trigger.key] != trigger.fingerprint ==> filtered(
            seen,
            seq![trigger],
        ) == (seen.insert(trigger.key, trigger.fingerprint), seq![trigger]),
        filtered(seen, Seq::<TriggerView>::empty()) == (seen, Seq::<TriggerView>::empty()),
{
    reveal_with_fuel(filtered, 2);
    assert(seq![trigger].drop_first() == Seq::<TriggerView>::empty());
    assert(seq![trigger] + Seq::<TriggerView>::empty() == seq![trigger]);
}

} // verus!
