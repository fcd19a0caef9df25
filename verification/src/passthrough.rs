//! Terminal modes that the wrapped program switches on or off and that the
//! outer terminal has to learn of: their control sequences are picked out of
//! the program's output, however the output is cut into chunks.
use crate::text::{decimal, digit_char};
use vstd::prelude::*;

verus! {

/// How many control sequences are passed on.
pub const SEQUENCE_COUNT: usize = 23;

/// The length of the longest of them.
pub const LONGEST_SEQUENCE: usize = 8;

/// The control sequences that are passed on: entering the alternate screen,
/// mouse reporting on and off, cursor keys, keypad and bracketed paste.
pub open spec fn sequence(i: int) -> Seq<u8>
    recommends
        0 <= i < SEQUENCE_COUNT,
{
    if i == 0 {
        // ESC [?1049h
        seq![0x1bu8, 0x5b, 0x3f, 0x31, 0x30, 0x34, 0x39, 0x68]
    } else if i == 1 {
        // ESC [?1047h
        seq![0x1bu8, 0x5b, 0x3f, 0x31, 0x30, 0x34, 0x37, 0x68]
    } else if i == 2 {
        // ESC [?47h
        seq![0x1bu8, 0x5b, 0x3f, 0x34, 0x37, 0x68]
    } else if i == 3 {
        // ESC [?1000h
        seq![0x1bu8, 0x5b, 0x3f, 0x31, 0x30, 0x30, 0x30, 0x68]
    } else if i == 4 {
        // ESC [?1002h
        seq![0x1bu8, 0x5b, 0x3f, 0x31, 0x30, 0x30, 0x32, 0x68]
    } else if i == 5 {
        // ESC [?1003h
        seq![0x1bu8, 0x5b, 0x3f, 0x31, 0x30, 0x30, 0x33, 0x68]
    } else if i == 6 {
        // ESC [?1005h
        seq![0x1bu8, 0x5b, 0x3f, 0x31, 0x30, 0x30, 0x35, 0x68]
    } else if i == 7 {
        // ESC [?1006h
        seq![0x1bu8, 0x5b, 0x3f, 0x31, 0x30, 0x30, 0x36, 0x68]
    } else if i == 8 {
        // ESC [?1007h
        seq![0x1bu8, 0x5b, 0x3f, 0x31, 0x30, 0x30, 0x37, 0x68]
    } else if i == 9 {
        // ESC [?1015h
        seq![0x1bu8, 0x5b, 0x3f, 0x31, 0x30, 0x31, 0x35, 0x68]
    } else if i == 10 {
        // ESC [?1000l
        seq![0x1bu8, 0x5b, 0x3f, 0x31, 0x30, 0x30, 0x30, 0x6c]
    } else if i == 11 {
        // ESC [?1002l
        seq![0x1bu8, 0x5b, 0x3f, 0x31, 0x30, 0x30, 0x32, 0x6c]
    } else if i == 12 {
        // ESC [?1003l
        seq![0x1bu8, 0x5b, 0x3f, 0x31, 0x30, 0x30, 0x33, 0x6c]
    } else if i == 13 {
        // ESC [?1005l
        seq![0x1bu8, 0x5b, 0x3f, 0x31, 0x30, 0x30, 0x35, 0x6c]
    } else if i == 14 {
        // ESC [?1006l
        seq![0x1bu8, 0x5b, 0x3f, 0x31, 0x30, 0x30, 0x36, 0x6c]
    } else if i == 15 {
        // ESC [?1007l
        seq![0x1bu8, 0x5b, 0x3f, 0x31, 0x30, 0x30, 0x37, 0x6c]
    } else if i == 16 {
        // ESC [?1015l
        seq![0x1bu8, 0x5b, 0x3f, 0x31, 0x30, 0x31, 0x35, 0x6c]
    } else if i == 17 {
        // ESC [?1h
        seq![0x1bu8, 0x5b, 0x3f, 0x31, 0x68]
    } else if i == 18 {
        // ESC =
        seq![0x1bu8, 0x3d]
    } else if i == 19 {
        // ESC [?1l
        seq![0x1bu8, 0x5b, 0x3f, 0x31, 0x6c]
    } else if i == 20 {
        // ESC >
        seq![0x1bu8, 0x3e]
    } else if i == 21 {
        // ESC [?2004h
        seq![0x1bu8, 0x5b, 0x3f, 0x32, 0x30, 0x30, 0x34, 0x68]
    } else {
        // ESC [?2004l
        seq![0x1bu8, 0x5b, 0x3f, 0x32, 0x30, 0x30, 0x34, 0x6c]
    }
}

fn sequence_bytes(i: usize) -> (r: Vec<u8>)
    requires
        i < SEQUENCE_COUNT,
    ensures
        r@ == sequence(i as int),
{
    if i == 0 {
        vec![0x1b, 0x5b, 0x3f, 0x31, 0x30, 0x34, 0x39, 0x68]
    } else if i == 1 {
        vec![0x1b, 0x5b, 0x3f, 0x31, 0x30, 0x34, 0x37, 0x68]
    } else if i == 2 {
        vec![0x1b, 0x5b, 0x3f, 0x34, 0x37, 0x68]
    } else if i == 3 {
        vec![0x1b, 0x5b, 0x3f, 0x31, 0x30, 0x30, 0x30, 0x68]
    } else if i == 4 {
        vec![0x1b, 0x5b, 0x3f, 0x31, 0x30, 0x30, 0x32, 0x68]
    } else if i == 5 {
        vec![0x1b, 0x5b, 0x3f, 0x31, 0x30, 0x30, 0x33, 0x68]
    } else if i == 6 {
        vec![0x1b, 0x5b, 0x3f, 0x31, 0x30, 0x30, 0x35, 0x68]
    } else if i == 7 {
        vec![0x1b, 0x5b, 0x3f, 0x31, 0x30, 0x30, 0x36, 0x68]
    } else if i == 8 {
        vec![0x1b, 0x5b, 0x3f, 0x31, 0x30, 0x30, 0x37, 0x68]
    } else if i == 9 {
        vec![0x1b, 0x5b, 0x3f, 0x31, 0x30, 0x31, 0x35, 0x68]
    } else if i == 10 {
        vec![0x1b, 0x5b, 0x3f, 0x31, 0x30, 0x30, 0x30, 0x6c]
    } else if i == 11 {
        vec![0x1b, 0x5b, 0x3f, 0x31, 0x30, 0x30, 0x32, 0x6c]
    } else if i == 12 {
        vec![0x1b, 0x5b, 0x3f, 0x31, 0x30, 0x30, 0x33, 0x6c]
    } else if i == 13 {
        vec![0x1b, 0x5b, 0x3f, 0x31, 0x30, 0x30, 0x35, 0x6c]
    } else if i == 14 {
        vec![0x1b, 0x5b, 0x3f, 0x31, 0x30, 0x30, 0x36, 0x6c]
    } else if i == 15 {
        vec![0x1b, 0x5b, 0x3f, 0x31, 0x30, 0x30, 0x37, 0x6c]
    } else if i == 16 {
        vec![0x1b, 0x5b, 0x3f, 0x31, 0x30, 0x31, 0x35, 0x6c]
    } else if i == 17 {
        vec![0x1b, 0x5b, 0x3f, 0x31, 0x68]
    } else if i == 18 {
        vec![0x1b, 0x3d]
    } else if i == 19 {
        vec![0x1b, 0x5b, 0x3f, 0x31, 0x6c]
    } else if i == 20 {
        vec![0x1b, 0x3e]
    } else if i == 21 {
        vec![0x1b, 0x5b, 0x3f, 0x32, 0x30, 0x30, 0x34, 0x68]
    } else {
        vec![0x1b, 0x5b, 0x3f, 0x32, 0x30, 0x30, 0x34, 0x6c]
    }
}

/// The first control sequence, from number `k` on, that `s` starts with.
pub open spec fn sequence_at(s: Seq<u8>, k: int) -> Option<Seq<u8>>
    decreases SEQUENCE_COUNT - k,
{
    if k >= SEQUENCE_COUNT {
        None
    } else if sequence(k).is_prefix_of(s) {
        Some(sequence(k))
    } else {
        sequence_at(s, k + 1)
    }
}

/// The control sequences that stand in `s`, one behind the other; everything
/// else is left out.
pub open spec fn extracted(s: Seq<u8>) -> Seq<u8>
    decreases s.len(),
    via extracted_shrinks
{
    if s.len() == 0 {
        Seq::empty()
    } else {
        match sequence_at(s, 0) {
            Some(p) => p + extracted(s.skip(p.len() as int)),
            None => extracted(s.drop_first()),
        }
    }
}

#[via_fn]
proof fn extracted_shrinks(s: Seq<u8>) {
    lemma_sequence_at(s, 0);
}

/// Whether `s` could be the beginning of a control sequence.
pub open spec fn could_begin(s: Seq<u8>) -> bool {
    exists|i: int| 0 <= i < SEQUENCE_COUNT && s.is_prefix_of(#[trigger] sequence(i))
}

/// The longest end of `s`, of at most `len` bytes, that could be the beginning
/// of a control sequence.
pub open spec fn held_up_to(s: Seq<u8>, len: nat) -> nat
    decreases len,
{
    if len == 0 || could_begin(s.skip(s.len() - len)) {
        len
    } else {
        held_up_to(s, (len - 1) as nat)
    }
}

/// How many bytes at the end of `s` have to wait for more input.
pub open spec fn held(s: Seq<u8>) -> nat {
    held_up_to(
        s,
        if s.len() < LONGEST_SEQUENCE {
            s.len()
        } else {
            (LONGEST_SEQUENCE - 1) as nat
        },
    )
}

/// The bytes at the end of `s` that have to wait for more input.
pub open spec fn waiting(s: Seq<u8>) -> Seq<u8> {
    s.skip(s.len() - held(s))
}

/// What can be passed on of `s` without waiting.
pub open spec fn passed_on(s: Seq<u8>) -> Seq<u8> {
    extracted(s.take(s.len() - held(s)))
}

proof fn lemma_sequence_shape(i: int)
    requires
        0 <= i < SEQUENCE_COUNT,
    ensures
        2 <= sequence(i).len() <= LONGEST_SEQUENCE,
        sequence(i)[0] == 0x1b,
        forall|j: int| 0 < j < sequence(i).len() ==> sequence(i)[j] != 0x1b,
{
}

proof fn lemma_sequence_at(s: Seq<u8>, k: int)
    requires
        0 <= k,
    ensures
        match sequence_at(s, k) {
            Some(p) => p.is_prefix_of(s) && 2 <= p.len() <= s.len() && exists|i: int|
                k <= i < SEQUENCE_COUNT && p == #[trigger] sequence(i),
            None => forall|i: int|
                k <= i < SEQUENCE_COUNT ==> !(#[trigger] sequence(i)).is_prefix_of(s),
        },
    decreases SEQUENCE_COUNT - k,
{
    if k < SEQUENCE_COUNT {
        lemma_sequence_shape(k);
        if !sequence(k).is_prefix_of(s) {
            lemma_sequence_at(s, k + 1);
        }
    }
}

proof fn lemma_held_up_to(s: Seq<u8>, len: nat)
    requires
        len <= s.len(),
    ensures
        held_up_to(s, len) <= len,
        held_up_to(s, len) > 0 ==> could_begin(s.skip(s.len() - held_up_to(s, len))),
        forall|l: int|
            held_up_to(s, len) < l <= len ==> !could_begin(#[trigger] s.skip(s.len() - l)),
    decreases len,
{
    if !(len == 0 || could_begin(s.skip(s.len() - len))) {
        lemma_held_up_to(s, (len - 1) as nat);
    }
}

/// What `held` means: it is the longest end that could begin a sequence and is
/// shorter than the longest sequence.
pub proof fn lemma_held(s: Seq<u8>)
    ensures
        held(s) <= s.len(),
        held(s) < LONGEST_SEQUENCE,
        held(s) > 0 ==> could_begin(waiting(s)),
        forall|l: int|
            held(s) < l <= s.len() && l < LONGEST_SEQUENCE ==> !could_begin(
                #[trigger] s.skip(s.len() - l),
            ),
{
    let limit = if s.len() < LONGEST_SEQUENCE {
        s.len()
    } else {
        (LONGEST_SEQUENCE - 1) as nat
    };
    lemma_held_up_to(s, limit);
}

/// `s` starts with the same sequence as `s + t` as long as no sequence at the
/// start of `s + t` reaches into `t`.
proof fn lemma_sequence_at_concat(s: Seq<u8>, t: Seq<u8>, k: int)
    requires
        0 <= k,
        forall|i: int|
            0 <= i < SEQUENCE_COUNT && (#[trigger] sequence(i)).is_prefix_of(s + t)
                ==> sequence(i).len() <= s.len(),
    ensures
        sequence_at(s + t, k) == sequence_at(s, k),
    decreases SEQUENCE_COUNT - k,
{
    if k < SEQUENCE_COUNT {
        let p = sequence(k);
        if p.is_prefix_of(s + t) {
            assert(p =~= s.subrange(0, p.len() as int)) by {
                assert(p =~= (s + t).subrange(0, p.len() as int));
            }
        } else if p.is_prefix_of(s) {
            assert(p =~= (s + t).subrange(0, p.len() as int));
        }
        lemma_sequence_at_concat(s, t, k + 1);
    }
}

/// Whether some sequence starts in `s` and ends in `t`.
spec fn crosses(s: Seq<u8>, t: Seq<u8>) -> bool {
    exists|at: int, i: int|
        0 <= at < s.len() && 0 <= i < SEQUENCE_COUNT && #[trigger] sequence(i).is_prefix_of(
            #[trigger] (s + t).skip(at),
        ) && at + sequence(i).len() > s.len()
}

proof fn lemma_extracted_concat(s: Seq<u8>, t: Seq<u8>)
    requires
        !crosses(s, t),
    ensures
        extracted(s + t) == extracted(s) + extracted(t),
    decreases s.len(),
{
    if s.len() == 0 {
        assert(s + t == t);
        assert(extracted(s) + extracted(t) == extracted(t));
    } else {
        assert((s + t).skip(0) == s + t);
        assert forall|i: int|
            0 <= i < SEQUENCE_COUNT && (#[trigger] sequence(i)).is_prefix_of(
                s + t,
            ) implies sequence(i).len() <= s.len() by {
            if sequence(i).len() > s.len() {
                assert(sequence(i).is_prefix_of((s + t).skip(0)));
                assert(crosses(s, t));
            }
        }
        lemma_sequence_at_concat(s, t, 0);
        lemma_sequence_at(s, 0);
        let step: int = match sequence_at(s, 0) {
            Some(p) => p.len() as int,
            None => 1,
        };
        let rest = s.skip(step);
        assert((s + t).skip(step) == rest + t);
        assert(s.drop_first() == s.skip(1));
        assert((s + t).drop_first() == (s + t).skip(1));
        if crosses(rest, t) {
            let (at, i) = choose|at: int, i: int|
                0 <= at < rest.len() && 0 <= i < SEQUENCE_COUNT && #[trigger] sequence(
                    i,
                ).is_prefix_of(#[trigger] (rest + t).skip(at)) && at + sequence(i).len()
                    > rest.len();
            assert((s + t).skip(at + step) == (rest + t).skip(at));
            assert(sequence(i).is_prefix_of((s + t).skip(at + step)));
            assert(crosses(s, t));
        }
        lemma_extracted_concat(rest, t);
        match sequence_at(s, 0) {
            Some(p) => {
                assert(p + (extracted(rest) + extracted(t)) == p + extracted(rest) + extracted(t));
            },
            None => {},
        }
    }
}

/// What has to wait depends only on what waited before and on the new bytes.
pub proof fn lemma_held_of_tail(s: Seq<u8>, more: Seq<u8>)
    ensures
        held(s + more) == held(waiting(s) + more),
        waiting(s + more) == waiting(waiting(s) + more),
{
    let all = s + more;
    let tail = waiting(s) + more;
    lemma_held(s);
    lemma_held(all);
    lemma_held(tail);
    let split = s.len() - held(s);
    assert(tail == all.skip(split));
    assert forall|l: int| 0 <= l <= tail.len() implies tail.skip(tail.len() - l) == #[trigger] all.skip(
        all.len() - l,
    ) by {
        assert(tail.skip(tail.len() - l) =~= all.skip(all.len() - l));
    }
    if held(all) > tail.len() {
        let l = held(all) as int;
        let own = l - more.len();
        assert(could_begin(all.skip(all.len() - l)));
        let i = choose|i: int|
            0 <= i < SEQUENCE_COUNT && all.skip(all.len() - l).is_prefix_of(#[trigger] sequence(i));
        assert(s.skip(s.len() - own) =~= all.skip(all.len() - l).subrange(0, own));
        assert(s.skip(s.len() - own).is_prefix_of(sequence(i)));
        assert(could_begin(s.skip(s.len() - own)));
        assert(false);
    }
    if held(all) > held(tail) {
        let l = held(all) as int;
        assert(tail.skip(tail.len() - l) == all.skip(all.len() - l));
        assert(could_begin(tail.skip(tail.len() - l)));
    }
    if held(tail) > held(all) {
        let l = held(tail) as int;
        assert(tail.skip(tail.len() - l) == all.skip(all.len() - l));
        assert(could_begin(all.skip(all.len() - l)));
    }
    assert(tail.skip(tail.len() - held(tail)) == all.skip(all.len() - held(all)));
}

proof fn lemma_no_crossing(s: Seq<u8>, more: Seq<u8>, cut: int)
    requires
        s.len() - held(s) <= cut <= s.len() + more.len(),
    ensures
        !crosses(s.take(s.len() - held(s)), (s + more).subrange(s.len() - held(s), cut)),
{
    lemma_held(s);
    let split = s.len() - held(s);
    let all = s + more;
    let x = s.take(split);
    let y = all.subrange(split, cut);
    assert(x + y == all.take(cut));
    if crosses(x, y) {
        let (at, i) = choose|at: int, i: int|
            0 <= at < x.len() && 0 <= i < SEQUENCE_COUNT && #[trigger] sequence(i).is_prefix_of(
                #[trigger] (x + y).skip(at),
            ) && at + sequence(i).len() > x.len();
        let q = sequence(i);
        lemma_sequence_shape(i);
        assert forall|j: int| 0 <= j < q.len() implies #[trigger] q[j] == all[at + j] by {
            assert(q =~= (x + y).skip(at).subrange(0, q.len() as int));
            assert((x + y).skip(at).subrange(0, q.len() as int)[j] == all[at + j]);
        }
        if at + q.len() <= s.len() {
            assert(held(s) > 0);
            let w = waiting(s);
            let k = choose|k: int|
                0 <= k < SEQUENCE_COUNT && w.is_prefix_of(#[trigger] sequence(k));
            lemma_sequence_shape(k);
            assert(w[0] == sequence(k)[0]);
            assert(q[split - at] == all[split]);
            assert(all[split] == w[0]);
            assert(false);
        } else {
            let l = s.len() - at;
            assert(s.skip(at) =~= q.subrange(0, l)) by {
                assert forall|j: int| 0 <= j < l implies s.skip(at)[j] == q.subrange(0, l)[j] by {
                    assert(q[j] == all[at + j]);
                }
            }
            assert(s.skip(at).is_prefix_of(q));
            assert(could_begin(s.skip(s.len() - l)));
            assert(false);
        }
    }
}

/// Output that arrives in two chunks is passed on as if it had come at once:
/// what waits in between is taken up again, and nothing is lost or doubled.
pub proof fn law_two_chunks_are_one(s: Seq<u8>, more: Seq<u8>)
    ensures
        passed_on(s + more) == passed_on(s) + passed_on(waiting(s) + more),
        waiting(s + more) == waiting(waiting(s) + more),
{
    lemma_held(s);
    lemma_held_of_tail(s, more);
    let all = s + more;
    let tail = waiting(s) + more;
    lemma_held(all);
    lemma_held(tail);
    let split = s.len() - held(s);
    let cut = all.len() - held(all);
    lemma_no_crossing(s, more, cut);
    let x = s.take(split);
    let y = all.subrange(split, cut);
    lemma_extracted_concat(x, y);
    assert(all.take(cut) == x + y);
    assert(tail.take(tail.len() - held(tail)) == y);
}

/// All bytes of a list of chunks.
pub open spec fn joined(chunks: Seq<Seq<u8>>) -> Seq<u8>
    decreases chunks.len(),
{
    if chunks.len() == 0 {
        Seq::empty()
    } else {
        joined(chunks.drop_last()) + chunks.last()
    }
}

/// What is passed on, and what waits, after a list of chunks was fed.
pub open spec fn after_chunks(chunks: Seq<Seq<u8>>) -> (Seq<u8>, Seq<u8>)
    decreases chunks.len(),
{
    if chunks.len() == 0 {
        (Seq::empty(), Seq::empty())
    } else {
        let (out, kept) = after_chunks(chunks.drop_last());
        let all = kept + chunks.last();
        (out + passed_on(all), waiting(all))
    }
}

/// How the output is cut into chunks makes no difference: what is passed on,
/// and what still waits, is that of the whole output in one piece.
pub proof fn law_chunking_does_not_matter(chunks: Seq<Seq<u8>>)
    ensures
        after_chunks(chunks) == (passed_on(joined(chunks)), waiting(joined(chunks))),
    decreases chunks.len(),
{
    if chunks.len() == 0 {
        let none = Seq::<u8>::empty();
        lemma_held(none);
        assert(waiting(none) == none);
        assert(none.take(0) == none);
        assert(passed_on(none) == none);
    } else {
        law_chunking_does_not_matter(chunks.drop_last());
        law_two_chunks_are_one(joined(chunks.drop_last()), chunks.last());
    }
}

/// Output without an escape byte passes nothing on and leaves nothing waiting.
pub proof fn law_plain_output_passes_nothing(s: Seq<u8>)
    requires
        forall|i: int| 0 <= i < s.len() ==> s[i] != 0x1b,
    ensures
        passed_on(s) == Seq::<u8>::empty(),
        waiting(s) == Seq::<u8>::empty(),
{
    lemma_held(s);
    if held(s) > 0 {
        let w = waiting(s);
        let k = choose|k: int| 0 <= k < SEQUENCE_COUNT && w.is_prefix_of(#[trigger] sequence(k));
        lemma_sequence_shape(k);
        assert(w[0] == sequence(k)[0]);
    }
    assert(s.take(s.len() as int) == s);
    lemma_nothing_extracted(s);
    assert(waiting(s) == Seq::<u8>::empty());
}

proof fn lemma_nothing_extracted(s: Seq<u8>)
    requires
        forall|i: int| 0 <= i < s.len() ==> s[i] != 0x1b,
    ensures
        extracted(s) == Seq::<u8>::empty(),
    decreases s.len(),
{
    if s.len() > 0 {
        lemma_sequence_at(s, 0);
        if sequence_at(s, 0) is Some {
            let p = sequence_at(s, 0)->0;
            let i = choose|i: int| 0 <= i < SEQUENCE_COUNT && p == #[trigger] sequence(i);
            lemma_sequence_shape(i);
            assert(p[0] == s[0]);
        }
        lemma_nothing_extracted(s.drop_first());
    }
}

/// Tells whether `s` starts with `prefix`.
pub fn bytes_start_with(s: &[u8], prefix: &[u8]) -> (r: bool)
    ensures
        r == prefix@.is_prefix_of(s@),
{
    if prefix.len() > s.len() {
        return false;
    }
    let mut i: usize = 0;
    while i < prefix.len()
        invariant
            i <= prefix@.len() <= s@.len(),
            forall|j: int| 0 <= j < i ==> prefix@[j] == s@[j],
        decreases prefix@.len() - i,
    {
        if prefix[i] != s[i] {
            assert(prefix@[i as int] != s@.subrange(0, prefix@.len() as int)[i as int]);
            return false;
        }
        i = i + 1;
    }
    assert(prefix@ =~= s@.subrange(0, prefix@.len() as int));
    true
}

/// The control sequence that `bytes` starts with, if it starts with one that is
/// passed on.
pub fn passthrough_match(bytes: &[u8]) -> (r: Option<Vec<u8>>)
    ensures
        match r {
            Some(p) => sequence_at(bytes@, 0) == Some(p@),
            None => sequence_at(bytes@, 0) is None,
        },
{
    if bytes.len() == 0 || bytes[0] != 0x1b {
        proof {
            lemma_sequence_at(bytes@, 0);
            if sequence_at(bytes@, 0) is Some {
                let p = sequence_at(bytes@, 0)->0;
                let i = choose|i: int| 0 <= i < SEQUENCE_COUNT && p == #[trigger] sequence(i);
                lemma_sequence_shape(i);
                assert(p[0] == bytes@[0]);
            }
        }
        return None;
    }
    let mut k: usize = 0;
    while k < SEQUENCE_COUNT
        invariant
            k <= SEQUENCE_COUNT,
            sequence_at(bytes@, k as int) == sequence_at(bytes@, 0),
        decreases SEQUENCE_COUNT - k,
    {
        let p = sequence_bytes(k);
        if bytes_start_with(bytes, p.as_slice()) {
            return Some(p);
        }
        k = k + 1;
    }
    None
}

fn may_begin(bytes: &[u8]) -> (r: bool)
    requires
        bytes@.len() > 0,
    ensures
        r == could_begin(bytes@),
{
    if bytes[0] != 0x1b {
        proof {
            if could_begin(bytes@) {
                let k = choose|k: int|
                    0 <= k < SEQUENCE_COUNT && bytes@.is_prefix_of(#[trigger] sequence(k));
                lemma_sequence_shape(k);
                assert(bytes@[0] == sequence(k)[0]);
            }
        }
        return false;
    }
    let mut k: usize = 0;
    while k < SEQUENCE_COUNT
        invariant
            k <= SEQUENCE_COUNT,
            forall|i: int| 0 <= i < k ==> !bytes@.is_prefix_of(#[trigger] sequence(i)),
        decreases SEQUENCE_COUNT - k,
    {
        let p = sequence_bytes(k);
        if bytes_start_with(p.as_slice(), bytes) {
            assert(bytes@.is_prefix_of(sequence(k as int)));
            return true;
        }
        k = k + 1;
    }
    false
}

/// How many bytes at the end of `bytes` could be the beginning of a control
/// sequence that is passed on.
pub fn longest_passthrough_suffix(bytes: &[u8]) -> (r: usize)
    ensures
        r == held(bytes@),
        r <= bytes@.len(),
{
    let mut len: usize = bytes.len();
    if len >= LONGEST_SEQUENCE {
        len = LONGEST_SEQUENCE - 1;
    }
    while len > 0
        invariant
            len <= bytes@.len(),
            held_up_to(bytes@, len as nat) == held(bytes@),
        decreases len,
    {
        let suffix = vstd::slice::slice_subrange(bytes, bytes.len() - len, bytes.len());
        assert(suffix@ == bytes@.skip(bytes@.len() - len));
        if may_begin(suffix) {
            return len;
        }
        len = len - 1;
    }
    0
}

/// Picks the control sequences out of a stream of chunks.
#[derive(Debug)]
pub struct LivePassthrough {
    pending: Vec<u8>,
}

impl View for LivePassthrough {
    type V = Seq<u8>;

    closed spec fn view(&self) -> Seq<u8> {
        self.pending@
    }
}

impl Default for LivePassthrough {
    fn default() -> (r: Self)
        ensures
            r@ == Seq::<u8>::empty(),
    {
        LivePassthrough { pending: Vec::new() }
    }
}

impl LivePassthrough {
    /// Takes a chunk of output and returns what is to be passed on; the end of
    /// the chunk waits as long as it could still become a control sequence.
    pub fn feed(&mut self, bytes: &[u8]) -> (r: Vec<u8>)
        ensures
            r@ == passed_on(old(self)@ + bytes@),
            final(self)@ == waiting(old(self)@ + bytes@),
    {
        let ghost all = self.pending@ + bytes@;
        self.pending.extend_from_slice(bytes);
        assert(self.pending@ == all);
        let keep: usize = longest_passthrough_suffix(self.pending.as_slice());
        let split_at: usize = self.pending.len() - keep;
        let kept = self.pending.split_off(split_at);
        let mut scan: Vec<u8> = Vec::new();
        scan.append(&mut self.pending);
        self.pending = kept;
        assert(scan@ == all.take(split_at as int));
        let mut out: Vec<u8> = Vec::new();
        let mut i: usize = 0;
        assert(scan@.skip(0) == scan@);
        assert(out@ + extracted(scan@) == extracted(scan@));
        while i < scan.len()
            invariant
                i <= scan@.len(),
                out@ + extracted(scan@.skip(i as int)) == extracted(scan@),
            decreases scan@.len() - i,
        {
            let rest = vstd::slice::slice_subrange(scan.as_slice(), i, scan.len());
            assert(rest@ == scan@.skip(i as int));
            proof {
                lemma_sequence_at(rest@, 0);
            }
            match passthrough_match(rest) {
                Some(pattern) => {
                    let mut found = pattern;
                    let n: usize = found.len();
                    proof {
                        assert(rest@.skip(n as int) == scan@.skip(i + n));
                        assert(out@ + (found@ + extracted(scan@.skip(i + n))) == out@ + found@
                            + extracted(scan@.skip(i + n)));
                    }
                    out.append(&mut found);
                    i = i + n;
                },
                None => {
                    assert(rest@.drop_first() == scan@.skip(i + 1));
                    i = i + 1;
                },
            }
        }
        assert(scan@.skip(i as int).len() == 0);
        assert(out@ + Seq::<u8>::empty() == out@);
        out
    }
}

proof fn lemma_sequence_ends(i: int)
    requires
        0 <= i < SEQUENCE_COUNT,
    ensures
        ({
            let s = sequence(i);
            let n = s.len() as int;
            &&& n >= 2
            &&& s[n - 1] == 0x68 || s[n - 1] == 0x6c || s[n - 1] == 0x3d || s[n - 1] == 0x3e
            &&& forall|j: int|
                0 <= j < n - 1 ==> (#[trigger] s[j]) != 0x68 && s[j] != 0x6c && s[j] != 0x3d
                    && s[j] != 0x3e
        }),
{
}

/// Where a control sequence stands it is passed on whole, and what follows it is
/// looked at as if it stood alone.
pub proof fn law_control_sequence_is_passed_on(i: int, rest: Seq<u8>)
    requires
        0 <= i < SEQUENCE_COUNT,
    ensures
        extracted(sequence(i) + rest) == sequence(i) + extracted(rest),
{
    let p = sequence(i);
    let s = p + rest;
    lemma_sequence_at(s, 0);
    lemma_sequence_ends(i);
    assert(p =~= s.subrange(0, p.len() as int));
    assert(p.is_prefix_of(s));
    let found = sequence_at(s, 0)->Some_0;
    let k = choose|k: int| 0 <= k < SEQUENCE_COUNT && found == #[trigger] sequence(k);
    lemma_sequence_ends(k);
    assert(found =~= s.subrange(0, found.len() as int));
    if found.len() < p.len() {
        let j = found.len() - 1;
        assert(found[j] == s.subrange(0, found.len() as int)[j]);
        assert(p[j] == s[j]);
    } else if p.len() < found.len() {
        let j = p.len() - 1;
        assert(found[j] == s.subrange(0, found.len() as int)[j]);
        assert(p[j] == s[j]);
    } else {
        assert(found == p);
    }
    assert(s.skip(p.len() as int) == rest);
}

/// A byte at which no control sequence stands is not passed on.
pub proof fn law_other_output_is_left_out(b: u8, rest: Seq<u8>)
    requires
        forall|i: int|
            0 <= i < SEQUENCE_COUNT ==> !(#[trigger] sequence(i)).is_prefix_of(seq![b] + rest),
    ensures
        extracted(seq![b] + rest) == extracted(rest),
        extracted(Seq::<u8>::empty()) == Seq::<u8>::empty(),
{
    let s = seq![b] + rest;
    lemma_sequence_at(s, 0);
    if sequence_at(s, 0) is Some {
        let p = sequence_at(s, 0)->Some_0;
        let k = choose|k: int| 0 <= k < SEQUENCE_COUNT && p == #[trigger] sequence(k);
        assert(sequence(k).is_prefix_of(s));
    }
    assert(s.drop_first() == rest);
}

/// Output is either looked at or waits: what waits is the end of it, and all before
/// it is looked at.
pub proof fn law_output_is_looked_at_or_waits(s: Seq<u8>) -> (looked: Seq<u8>)
    ensures
        s == looked + waiting(s),
        passed_on(s) == extracted(looked),
        waiting(s).len() < LONGEST_SEQUENCE,
        waiting(s).len() > 0 ==> could_begin(waiting(s)),
        forall|l: int|
            waiting(s).len() < l <= s.len() && l < LONGEST_SEQUENCE ==> !could_begin(
                #[trigger] s.skip(s.len() - l),
            ),
{
    lemma_held(s);
    let looked = s.take(s.len() - held(s));
    assert(s == looked + waiting(s));
    looked
}

/// The control sequence that switches a private mode on or off: escape, `[?`, the
/// number of the mode, and `h` or `l`.
pub open spec fn mode_sequence(mode: nat, on: bool) -> Seq<u8> {
    seq![0x1bu8, 0x5b, 0x3f] + decimal(mode).map_values(|c: char| c as u8) + seq![
        if on {
            0x68u8
        } else {
            0x6cu8
        },
    ]
}

proof fn lemma_four_digits(n: nat)
    requires
        1000 <= n < 10000,
    ensures
        decimal(n) == seq![
            digit_char(n / 1000),
            digit_char(n / 100 % 10),
            digit_char(n / 10 % 10),
            digit_char(n % 10),
        ],
{
    reveal_with_fuel(decimal, 5);
    assert(n / 10 / 10 == n / 100);
    assert(n / 10 / 10 / 10 == n / 1000);
}

/// What is passed on: entering an alternate screen, switching the ways to report the
/// mouse, the mode of the cursor keys, the keypad and bracketed paste on and off, and
/// nothing else.
pub proof fn law_modes_that_are_passed_on(i: int)
    ensures
        SEQUENCE_COUNT == 23,
        sequence(0) == mode_sequence(1049, true),
        sequence(1) == mode_sequence(1047, true),
        sequence(2) == mode_sequence(47, true),
        0 <= i < 7 ==> {
            let mode = seq![1000nat, 1002, 1003, 1005, 1006, 1007, 1015][i];
            sequence(3 + i) == mode_sequence(mode, true) && sequence(10 + i) == mode_sequence(
                mode,
                false,
            )
        },
        sequence(17) == mode_sequence(1, true),
        sequence(18) == seq![0x1bu8, 0x3d],
        sequence(19) == mode_sequence(1, false),
        sequence(20) == seq![0x1bu8, 0x3e],
        sequence(21) == mode_sequence(2004, true),
        sequence(22) == mode_sequence(2004, false),
{
    lemma_four_digits(1049);
    lemma_four_digits(1047);
    lemma_four_digits(2004);
    assert(decimal(1) == seq!['1']);
    assert(decimal(47) == seq!['4', '7']) by {
        reveal_with_fuel(decimal, 3);
    }
    assert(sequence(0) == mode_sequence(1049, true));
    assert(sequence(1) == mode_sequence(1047, true));
    assert(sequence(2) == mode_sequence(47, true));
    assert(sequence(17) == mode_sequence(1, true));
    assert(sequence(19) == mode_sequence(1, false));
    assert(sequence(21) == mode_sequence(2004, true));
    assert(sequence(22) == mode_sequence(2004, false));
    if 0 <= i < 7 {
        lemma_mouse_modes(i);
    }
}

proof fn lemma_mouse_modes(i: int)
    requires
        0 <= i < 7,
    ensures
        ({
            let mode = seq![1000nat, 1002, 1003, 1005, 1006, 1007, 1015][i];
            sequence(3 + i) == mode_sequence(mode, true) && sequence(10 + i) == mode_sequence(
                mode,
                false,
            )
        }),
{
    let mode = seq![1000nat, 1002, 1003, 1005, 1006, 1007, 1015][i];
    lemma_four_digits(mode);
    assert(sequence(3 + i) == mode_sequence(mode, true));
    assert(sequence(10 + i) == mode_sequence(mode, false));
}

} // verus!
