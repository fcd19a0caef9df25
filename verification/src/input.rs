//! Key input: which bytes trigger a binding, which go through to the wrapped
//! program, and which have to wait for more.
use crate::model::{ActionView, BindingAction, BindingView, KeyBinding, binding_views};
use crate::passthrough::bytes_start_with;
use vstd::prelude::*;

verus! {

/// The first binding, from number `k` on, whose trigger `pending` starts with.
pub open spec fn triggered(pending: Seq<u8>, bindings: Seq<BindingView>, k: int) -> Option<int>
    decreases bindings.len() - k,
{
    if k < 0 || k >= bindings.len() {
        None
    } else if bindings[k].trigger.is_prefix_of(pending) {
        Some(k)
    } else {
        triggered(pending, bindings, k + 1)
    }
}

/// Whether `pending` could still become the trigger of a binding.
pub open spec fn could_trigger(pending: Seq<u8>, bindings: Seq<BindingView>) -> bool {
    exists|i: int|
        0 <= i < bindings.len() && pending.is_prefix_of((#[trigger] bindings[i]).trigger)
}

/// Bindings that wait for at least one byte.
pub open spec fn bindings_wait(bindings: Seq<BindingView>) -> bool {
    forall|i: int| 0 <= i < bindings.len() ==> (#[trigger] bindings[i]).trigger.len() > 0
}

/// The actions that `pending` gives rise to, and the bytes that are left. Where
/// several bindings fit, the first one counts. Bytes that belong to no trigger
/// are sent on one by one; unless `flush` is set, bytes that could become a
/// trigger stay.
pub open spec fn processed(
    pending: Seq<u8>,
    bindings: Seq<BindingView>,
    flush: bool,
) -> (Seq<ActionView>, Seq<u8>)
    decreases pending.len(),
    when bindings_wait(bindings)
    via processed_shrinks
{
    if pending.len() == 0 {
        (Seq::empty(), pending)
    } else {
        match triggered(pending, bindings, 0) {
            Some(i) => {
                let (actions, rest) = processed(
                    pending.skip(bindings[i].trigger.len() as int),
                    bindings,
                    flush,
                );
                (seq![bindings[i].action] + actions, rest)
            },
            None => if could_trigger(pending, bindings) && !flush {
                (Seq::empty(), pending)
            } else {
                let (actions, rest) = processed(pending.drop_first(), bindings, flush);
                (seq![ActionView::Send(seq![pending[0]])] + actions, rest)
            },
        }
    }
}

#[via_fn]
proof fn processed_shrinks(pending: Seq<u8>, bindings: Seq<BindingView>, flush: bool) {
    lemma_triggered(pending, bindings, 0);
}

/// What `triggered` finds is the first binding that fits.
pub proof fn lemma_triggered(pending: Seq<u8>, bindings: Seq<BindingView>, k: int)
    requires
        0 <= k,
    ensures
        match triggered(pending, bindings, k) {
            Some(i) => k <= i < bindings.len() && bindings[i].trigger.is_prefix_of(pending)
                && forall|j: int|
                k <= j < i ==> !(#[trigger] bindings[j]).trigger.is_prefix_of(pending),
            None => forall|j: int|
                k <= j < bindings.len() ==> !(#[trigger] bindings[j]).trigger.is_prefix_of(
                    pending,
                ),
        },
    decreases bindings.len() - k,
{
    if k < bindings.len() && !bindings[k].trigger.is_prefix_of(pending) {
        lemma_triggered(pending, bindings, k + 1);
    }
}

proof fn lemma_triggered_is(pending: Seq<u8>, bindings: Seq<BindingView>, k: int, i: int)
    requires
        0 <= k <= i < bindings.len(),
        bindings[i].trigger.is_prefix_of(pending),
        forall|j: int| k <= j < i ==> !(#[trigger] bindings[j]).trigger.is_prefix_of(pending),
    ensures
        triggered(pending, bindings, k) == Some(i),
    decreases i - k,
{
    if k < i {
        lemma_triggered_is(pending, bindings, k + 1, i);
    }
}

proof fn lemma_triggered_none(pending: Seq<u8>, bindings: Seq<BindingView>, k: int)
    requires
        0 <= k,
        forall|j: int|
            k <= j < bindings.len() ==> !(#[trigger] bindings[j]).trigger.is_prefix_of(pending),
    ensures
        triggered(pending, bindings, k) is None,
    decreases bindings.len() - k,
{
    if k < bindings.len() {
        lemma_triggered_none(pending, bindings, k + 1);
    }
}

/// Whether a text is the beginning of a trigger, but not all of it.
pub open spec fn begins_trigger(text: Seq<u8>, bindings: Seq<BindingView>) -> bool {
    exists|i: int|
        0 <= i < bindings.len() && text.is_prefix_of((#[trigger] bindings[i]).trigger)
            && text.len() < bindings[i].trigger.len()
}

/// What is left is the end of the input. After a flush nothing is left; otherwise
/// what is left starts with no trigger, and is the beginning of one that is longer.
pub proof fn law_what_is_left(pending: Seq<u8>, bindings: Seq<BindingView>, flush: bool)
    requires
        bindings_wait(bindings),
    ensures
        ({
            let rest = processed(pending, bindings, flush).1;
            &&& rest.len() <= pending.len()
            &&& rest == pending.skip(pending.len() - rest.len())
            &&& flush ==> rest.len() == 0
            &&& rest.len() > 0 ==> triggered(rest, bindings, 0) is None && begins_trigger(
                rest,
                bindings,
            )
        }),
    decreases pending.len(),
{
    let rest = processed(pending, bindings, flush).1;
    if pending.len() == 0 {
        assert(rest == pending.skip(0));
    } else {
        lemma_triggered(pending, bindings, 0);
        match triggered(pending, bindings, 0) {
            Some(i) => {
                let n = bindings[i].trigger.len() as int;
                assert(n > 0);
                law_what_is_left(pending.skip(n), bindings, flush);
                assert(rest == pending.skip(pending.len() - rest.len()));
            },
            None => {
                if could_trigger(pending, bindings) && !flush {
                    let i = choose|i: int|
                        0 <= i < bindings.len() && pending.is_prefix_of(
                            (#[trigger] bindings[i]).trigger,
                        );
                    let t = bindings[i].trigger;
                    if pending.len() == t.len() {
                        assert(t.subrange(0, t.len() as int) == t);
                        assert(t.is_prefix_of(pending));
                    }
                    assert(rest == pending.skip(0));
                } else {
                    law_what_is_left(pending.drop_first(), bindings, flush);
                    assert(rest == pending.skip(pending.len() - rest.len()));
                }
            },
        }
    }
}

/// Where a trigger is the beginning of an earlier one, it never gets its turn,
/// because a binding before both takes its bytes.
#[verifier::opaque]
pub open spec fn beginnings_first(bindings: Seq<BindingView>) -> bool {
    forall|i: int, j: int|
        0 <= i < j < bindings.len() && (#[trigger] bindings[j]).trigger.is_prefix_of(
            (#[trigger] bindings[i]).trigger,
        ) && bindings[j].trigger.len() < bindings[i].trigger.len() ==> exists|k: int|
            0 <= k < i && (#[trigger] bindings[k]).trigger.is_prefix_of(bindings[j].trigger)
}

proof fn lemma_first_stays(a: Seq<u8>, b: Seq<u8>, bindings: Seq<BindingView>, i: int)
    requires
        beginnings_first(bindings),
        triggered(a, bindings, 0) == Some(i),
    ensures
        triggered(a + b, bindings, 0) == Some(i),
        bindings[i].trigger.is_prefix_of(a),
{
    reveal(beginnings_first);
    lemma_triggered(a, bindings, 0);
    let ab = a + b;
    let t = bindings[i].trigger;
    assert(t =~= ab.subrange(0, t.len() as int)) by {
        assert(t =~= a.subrange(0, t.len() as int));
    }
    assert forall|j: int| 0 <= j < i implies !(#[trigger] bindings[j]).trigger.is_prefix_of(
        ab,
    ) by {
        let u = bindings[j].trigger;
        if u.is_prefix_of(ab) {
            if u.len() <= a.len() {
                assert(u =~= a.subrange(0, u.len() as int));
            } else {
                assert(t =~= u.subrange(0, t.len() as int));
                assert(bindings[i].trigger.is_prefix_of(bindings[j].trigger));
                let k = choose|k: int|
                    0 <= k < j && (#[trigger] bindings[k]).trigger.is_prefix_of(t);
                let v = bindings[k].trigger;
                assert(v =~= t.subrange(0, v.len() as int));
                assert(v =~= a.subrange(0, v.len() as int));
            }
        }
    }
    lemma_triggered_is(ab, bindings, 0, i);
}

/// Keys mean the same whether their bytes arrive at once or in two pieces with
/// no pause between them, provided that no trigger is cut short by a later one.
pub proof fn law_two_reads_are_one(a: Seq<u8>, b: Seq<u8>, bindings: Seq<BindingView>)
    requires
        bindings_wait(bindings),
        beginnings_first(bindings),
    ensures
        ({
            let (first, left) = processed(a, bindings, false);
            let (second, rest) = processed(left + b, bindings, false);
            processed(a + b, bindings, false) == (first + second, rest)
        }),
    decreases a.len(),
{
    let ab = a + b;
    let (first, left) = processed(a, bindings, false);
    let (second, rest) = processed(left + b, bindings, false);
    if a.len() == 0 {
        assert(left + b == ab);
        assert(first + second == second);
    } else {
        lemma_triggered(a, bindings, 0);
        match triggered(a, bindings, 0) {
            Some(i) => {
                let t = bindings[i].trigger;
                assert(t.len() > 0);
                lemma_first_stays(a, b, bindings, i);
                let tail = a.skip(t.len() as int);
                law_two_reads_are_one(tail, b, bindings);
                assert(ab.skip(t.len() as int) == tail + b);
                let act = bindings[i].action;
                let more = processed(tail, bindings, false).0;
                assert(seq![act] + (more + second) == seq![act] + more + second);
            },
            None => {
                if could_trigger(a, bindings) {
                    assert(first + second == second);
                } else {
                    assert forall|j: int|
                        0 <= j < bindings.len() implies !(
                    #[trigger] bindings[j]).trigger.is_prefix_of(ab) by {
                        let u = bindings[j].trigger;
                        if u.is_prefix_of(ab) {
                            if u.len() <= a.len() {
                                assert(u =~= a.subrange(0, u.len() as int));
                            } else {
                                assert(a =~= u.subrange(0, a.len() as int));
                                assert(a.is_prefix_of(u));
                            }
                        }
                    }
                    lemma_triggered_none(ab, bindings, 0);
                    if could_trigger(ab, bindings) {
                        let j = choose|j: int|
                            0 <= j < bindings.len() && ab.is_prefix_of(
                                (#[trigger] bindings[j]).trigger,
                            );
                        let u = bindings[j].trigger;
                        assert(a =~= u.subrange(0, a.len() as int)) by {
                            assert(ab =~= u.subrange(0, ab.len() as int));
                        }
                        assert(a.is_prefix_of(u));
                    }
                    let tail = a.drop_first();
                    law_two_reads_are_one(tail, b, bindings);
                    assert(ab.drop_first() == tail + b);
                    let act = ActionView::Send(seq![a[0]]);
                    let more = processed(tail, bindings, false).0;
                    assert(seq![act] + (more + second) == seq![act] + more + second);
                }
            },
        }
    }
}

/// Without bindings every byte is sent on as it came.
pub proof fn law_unbound_input_goes_through(pending: Seq<u8>, flush: bool)
    ensures
        processed(pending, Seq::empty(), flush) == (
            pending.map_values(|b: u8| ActionView::Send(seq![b])),
            Seq::<u8>::empty(),
        ),
    decreases pending.len(),
{
    let none = Seq::<BindingView>::empty();
    let sent = pending.map_values(|b: u8| ActionView::Send(seq![b]));
    if pending.len() > 0 {
        law_unbound_input_goes_through(pending.drop_first(), flush);
        assert(seq![ActionView::Send(seq![pending[0]])] + pending.drop_first().map_values(
            |b: u8| ActionView::Send(seq![b]),
        ) == sent);
    } else {
        assert(processed(pending, none, flush).0 == sent);
    }
}

/// The actions of a list, over plain data.
pub open spec fn action_views(actions: Seq<BindingAction>) -> Seq<ActionView> {
    actions.map_values(|a: BindingAction| a@)
}

fn copy_action(action: &BindingAction) -> (r: BindingAction)
    ensures
        r@ == action@,
{
    match action {
        BindingAction::Send(bytes) => BindingAction::Send(copy_bytes(bytes)),
        BindingAction::Screenshot => BindingAction::Screenshot,
    }
}

fn copy_bytes(bytes: &Vec<u8>) -> (r: Vec<u8>)
    ensures
        r@ == bytes@,
{
    let mut out: Vec<u8> = Vec::new();
    out.extend_from_slice(bytes.as_slice());
    assert(out@ == bytes@);
    out
}

fn find_trigger(pending: &[u8], key_bindings: &[KeyBinding]) -> (r: Option<usize>)
    ensures
        match r {
            Some(i) => triggered(pending@, binding_views(key_bindings@), 0) == Some(i as int),
            None => triggered(pending@, binding_views(key_bindings@), 0) is None,
        },
{
    let ghost views = binding_views(key_bindings@);
    let mut k: usize = 0;
    while k < key_bindings.len()
        invariant
            k <= key_bindings@.len(),
            views == binding_views(key_bindings@),
            triggered(pending@, views, k as int) == triggered(pending@, views, 0),
        decreases key_bindings@.len() - k,
    {
        assert(views[k as int] == key_bindings@[k as int]@);
        if bytes_start_with(pending, key_bindings[k].trigger.bytes.as_slice()) {
            return Some(k);
        }
        k = k + 1;
    }
    None
}

fn may_trigger(pending: &[u8], key_bindings: &[KeyBinding]) -> (r: bool)
    ensures
        r == could_trigger(pending@, binding_views(key_bindings@)),
{
    let ghost views = binding_views(key_bindings@);
    let mut k: usize = 0;
    while k < key_bindings.len()
        invariant
            k <= key_bindings@.len(),
            views == binding_views(key_bindings@),
            forall|i: int| 0 <= i < k ==> !pending@.is_prefix_of((#[trigger] views[i]).trigger),
        decreases key_bindings@.len() - k,
    {
        assert(views[k as int] == key_bindings@[k as int]@);
        if bytes_start_with(key_bindings[k].trigger.bytes.as_slice(), pending) {
            assert(pending@.is_prefix_of(views[k as int].trigger));
            return true;
        }
        k = k + 1;
    }
    false
}

/// Works off the bytes that have arrived and returns what they ask for, in
/// order. Bytes that could still become a trigger stay in `pending` unless
/// `flush_partial` is set.
pub fn process_pending_input(
    pending: &mut Vec<u8>,
    key_bindings: &[KeyBinding],
    flush_partial: bool,
) -> (r: Vec<BindingAction>)
    requires
        bindings_wait(binding_views(key_bindings@)),
    ensures
        (action_views(r@), final(pending)@) == processed(
            old(pending)@,
            binding_views(key_bindings@),
            flush_partial,
        ),
        flush_partial ==> final(pending)@.len() == 0,
{
    let ghost views = binding_views(key_bindings@);
    let ghost whole = processed(pending@, views, flush_partial);
    let mut actions: Vec<BindingAction> = Vec::new();
    let mut at: usize = 0;
    assert(pending@.skip(0) == pending@);
    assert(action_views(actions@) + whole.0 == whole.0);
    while at < pending.len()
        invariant_except_break
            views == binding_views(key_bindings@),
            bindings_wait(views),
            at <= pending@.len(),
            ({
                let (more, rest) = processed(pending@.skip(at as int), views, flush_partial);
                &&& action_views(actions@) + more == whole.0
                &&& rest == whole.1
            }),
        ensures
            at <= pending@.len(),
            action_views(actions@) == whole.0,
            pending@.skip(at as int) == whole.1,
        decreases pending@.len() - at,
    {
        let here = vstd::slice::slice_subrange(pending.as_slice(), at, pending.len());
        let ghost text = pending@.skip(at as int);
        assert(here@ == text);
        proof {
            lemma_triggered(text, views, 0);
        }
        match find_trigger(here, key_bindings) {
            Some(i) => {
                let action = copy_action(&key_bindings[i].action);
                let n: usize = key_bindings[i].trigger.bytes.len();
                proof {
                    assert(views[i as int] == key_bindings@[i as int]@);
                    assert(text.skip(n as int) == pending@.skip(at + n));
                    let more = processed(pending@.skip(at + n), views, flush_partial).0;
                    assert(action_views(actions@.push(action)) == action_views(actions@).push(
                        action@,
                    ));
                    assert(action_views(actions@) + (seq![action@] + more) == action_views(
                        actions@,
                    ).push(action@) + more);
                }
                actions.push(action);
                at = at + n;
            },
            None => {
                if !flush_partial && may_trigger(here, key_bindings) {
                    assert(action_views(actions@) + Seq::<ActionView>::empty() == action_views(
                        actions@,
                    ));
                    break;
                }
                let mut single: Vec<u8> = Vec::new();
                single.push(pending[at]);
                let action = BindingAction::Send(single);
                proof {
                    assert(single@ == seq![text[0]]);
                    assert(text.drop_first() == pending@.skip(at + 1));
                    let more = processed(pending@.skip(at + 1), views, flush_partial).0;
                    assert(action_views(actions@.push(action)) == action_views(actions@).push(
                        action@,
                    ));
                    assert(action_views(actions@) + (seq![action@] + more) == action_views(
                        actions@,
                    ).push(action@) + more);
                }
                actions.push(action);
                at = at + 1;
            },
        }
    }
    let rest = pending.split_off(at);
    *pending = rest;
    proof {
        law_what_is_left(old(pending)@, views, flush_partial);
    }
    actions
}

/// What can happen while keys are waited for.
#[derive(Debug)]
pub enum InputEvent {
    /// Bytes arrived.
    Chunk(Vec<u8>),
    /// Nothing arrived for a while.
    Timeout,
    /// Nothing will arrive any more.
    Disconnected,
}

/// The bytes to be worked off after an event.
pub open spec fn arrived(pending: Seq<u8>, event: InputEvent) -> Seq<u8> {
    match event {
        InputEvent::Chunk(bytes) => pending + bytes@,
        _ => pending,
    }
}

/// Works off what is pending after an event. Only while bytes arrive can a part
/// of a trigger wait for the rest of it. The flag tells whether that was all.
pub fn forward_input(
    pending: &mut Vec<u8>,
    key_bindings: &[KeyBinding],
    event: InputEvent,
) -> (r: (Vec<BindingAction>, bool))
    requires
        bindings_wait(binding_views(key_bindings@)),
    ensures
        (action_views(r.0@), final(pending)@) == processed(
            arrived(old(pending)@, event),
            binding_views(key_bindings@),
            !(event is Chunk),
        ),
        r.1 == (event is Disconnected),
        !(event is Chunk) ==> final(pending)@.len() == 0,
{
    match event {
        InputEvent::Chunk(bytes) => {
            pending.extend_from_slice(bytes.as_slice());
            assert(pending@ == old(pending)@ + bytes@);
            (process_pending_input(pending, key_bindings, false), false)
        },
        InputEvent::Timeout => (process_pending_input(pending, key_bindings, true), false),
        InputEvent::Disconnected => (process_pending_input(pending, key_bindings, true), true),
    }
}

/// The bytes of a bound key ask for what the key is bound to, and what follows is
/// worked off as if it stood alone. Where several bindings fit, the first counts.
pub proof fn law_bound_key_is_obeyed(
    rest: Seq<u8>,
    bindings: Seq<BindingView>,
    i: int,
    flush: bool,
)
    requires
        bindings_wait(bindings),
        0 <= i < bindings.len(),
        forall|j: int|
            0 <= j < i ==> !(#[trigger] bindings[j]).trigger.is_prefix_of(
                bindings[i].trigger + rest,
            ),
    ensures
        ({
            let (actions, left) = processed(rest, bindings, flush);
            processed(bindings[i].trigger + rest, bindings, flush) == (
                seq![bindings[i].action] + actions,
                left,
            )
        }),
        rest.len() == 0 ==> processed(bindings[i].trigger, bindings, flush) == (
            seq![bindings[i].action],
            Seq::<u8>::empty(),
        ),
{
    let t = bindings[i].trigger;
    let pending = t + rest;
    assert(t =~= pending.subrange(0, t.len() as int));
    lemma_triggered_is(pending, bindings, 0, i);
    assert(pending.skip(t.len() as int) == rest);
    if rest.len() == 0 {
        assert(pending == t);
        assert(rest == Seq::<u8>::empty());
        assert(seq![bindings[i].action] + Seq::<ActionView>::empty() == seq![bindings[i].action]);
    }
}

/// Where the input starts with no trigger, and could not become one or is not waited
/// for, its first byte is sent on, and what follows is worked off as if it stood alone.
pub proof fn law_other_bytes_are_sent(
    b: u8,
    rest: Seq<u8>,
    bindings: Seq<BindingView>,
    flush: bool,
)
    requires
        bindings_wait(bindings),
        forall|j: int|
            0 <= j < bindings.len() ==> !(#[trigger] bindings[j]).trigger.is_prefix_of(
                seq![b] + rest,
            ) && (flush || !(seq![b] + rest).is_prefix_of(bindings[j].trigger)),
    ensures
        ({
            let (actions, left) = processed(rest, bindings, flush);
            processed(seq![b] + rest, bindings, flush) == (
                seq![ActionView::Send(seq![b])] + actions,
                left,
            )
        }),
{
    let pending = seq![b] + rest;
    assert(pending[0] == b);
    lemma_triggered_none(pending, bindings, 0);
    assert(pending.drop_first() == rest);
}

/// A byte that no trigger starts with is sent on at once.
pub proof fn law_unbound_byte_is_sent(
    b: u8,
    rest: Seq<u8>,
    bindings: Seq<BindingView>,
    flush: bool,
)
    requires
        bindings_wait(bindings),
        forall|j: int| 0 <= j < bindings.len() ==> (#[trigger] bindings[j]).trigger[0] != b,
    ensures
        ({
            let (actions, left) = processed(rest, bindings, flush);
            processed(seq![b] + rest, bindings, flush) == (
                seq![ActionView::Send(seq![b])] + actions,
                left,
            )
        }),
{
    let pending = seq![b] + rest;
    assert(pending[0] == b);
    assert forall|j: int| 0 <= j < bindings.len() implies !(
    #[trigger] bindings[j]).trigger.is_prefix_of(pending) && !pending.is_prefix_of(
        bindings[j].trigger,
    ) by {
        let u = bindings[j].trigger;
        assert(u.len() > 0);
        if u.is_prefix_of(pending) {
            assert(u[0] == pending.subrange(0, u.len() as int)[0]);
        }
        if pending.is_prefix_of(u) {
            assert(pending[0] == u.subrange(0, pending.len() as int)[0]);
        }
    }
    law_other_bytes_are_sent(b, rest, bindings, flush);
}

/// The beginning of a trigger waits for the rest of it, and a flush sends its first
/// byte and works off the others.
pub proof fn law_beginnings_wait(pending: Seq<u8>, bindings: Seq<BindingView>)
    requires
        bindings_wait(bindings),
        pending.len() > 0,
        begins_trigger(pending, bindings),
        forall|j: int|
            0 <= j < bindings.len() ==> !(#[trigger] bindings[j]).trigger.is_prefix_of(pending),
    ensures
        processed(pending, bindings, false) == (Seq::<ActionView>::empty(), pending),
        processed(pending, bindings, true).0 == seq![ActionView::Send(seq![pending[0]])]
            + processed(pending.drop_first(), bindings, true).0,
{
    lemma_triggered_none(pending, bindings, 0);
    let i = choose|i: int|
        0 <= i < bindings.len() && pending.is_prefix_of((#[trigger] bindings[i]).trigger)
            && pending.len() < bindings[i].trigger.len();
    assert(pending.is_prefix_of(bindings[i].trigger));
    assert(could_trigger(pending, bindings));
}

/// A flush does what would be done without it, and works off what was left.
pub proof fn law_flush_works_off_what_is_left(pending: Seq<u8>, bindings: Seq<BindingView>)
    requires
        bindings_wait(bindings),
    ensures
        ({
            let (actions, left) = processed(pending, bindings, false);
            processed(pending, bindings, true) == (
                actions + processed(left, bindings, true).0,
                Seq::<u8>::empty(),
            )
        }),
    decreases pending.len(),
{
    let (actions, left) = processed(pending, bindings, false);
    law_what_is_left(pending, bindings, true);
    assert(processed(pending, bindings, true).1 == Seq::<u8>::empty());
    if pending.len() == 0 {
        assert(actions + processed(left, bindings, true).0 == Seq::<ActionView>::empty());
    } else {
        lemma_triggered(pending, bindings, 0);
        match triggered(pending, bindings, 0) {
            Some(i) => {
                let n = bindings[i].trigger.len() as int;
                assert(n > 0);
                law_flush_works_off_what_is_left(pending.skip(n), bindings);
                let more = processed(pending.skip(n), bindings, false).0;
                let last = processed(left, bindings, true).0;
                assert(seq![bindings[i].action] + (more + last) == seq![bindings[i].action] + more
                    + last);
            },
            None => {
                if could_trigger(pending, bindings) {
                    assert(actions + processed(left, bindings, true).0 == processed(
                        left,
                        bindings,
                        true,
                    ).0);
                } else {
                    law_flush_works_off_what_is_left(pending.drop_first(), bindings);
                    let act = ActionView::Send(seq![pending[0]]);
                    let more = processed(pending.drop_first(), bindings, false).0;
                    let last = processed(left, bindings, true).0;
                    assert(seq![act] + (more + last) == seq![act] + more + last);
                }
            },
        }
    }
}

/// Bytes that arrive stand behind those that waited, and other events add none; the
/// views of actions hold what each action asks for.
pub proof fn law_bytes_arrive_in_order(
    pending: Seq<u8>,
    event: InputEvent,
    actions: Seq<BindingAction>,
    i: int,
)
    ensures
        match event {
            InputEvent::Chunk(bytes) => arrived(pending, event) == pending + bytes@,
            InputEvent::Timeout => arrived(pending, event) == pending,
            InputEvent::Disconnected => arrived(pending, event) == pending,
        },
        action_views(actions).len() == actions.len(),
        0 <= i < actions.len() ==> action_views(actions)[i] == actions[i]@,
{
}

} // verus!
