//! Escape sequences in device output.
use vstd::prelude::*;

verus! {

/// The escape byte, which starts every sequence.
pub const ESC: u8 = 0x1b;

/// Whether `b` ends a control sequence.
pub open spec fn ends_csi(b: u8) -> bool {
    0x40 <= b <= 0x7e
}

/// Whether `b` after an escape starts a string that runs up to a terminator.
pub open spec fn starts_string(b: u8) -> bool {
    b == 0x5d || b == 0x50 || b == 0x58 || b == 0x5e || b == 0x5f
}

/// The position after the final byte of a control sequence whose parameters start
/// at `i`, or the end of `s` when there is no final byte.
pub open spec fn csi_end(s: Seq<u8>, i: int) -> int
    decreases s.len() - i,
{
    if i >= s.len() {
        s.len() as int
    } else if ends_csi(s[i]) {
        i + 1
    } else {
        csi_end(s, i + 1)
    }
}

/// The position after the terminator (BEL, or escape and backslash) of a string
/// whose contents start at `i`, or the end of `s` when there is no terminator.
pub open spec fn string_end(s: Seq<u8>, i: int) -> int
    decreases s.len() - i,
{
    if i >= s.len() {
        s.len() as int
    } else if s[i] == 0x07 {
        i + 1
    } else if s[i] == ESC && i + 1 < s.len() && s[i + 1] == 0x5c {
        i + 2
    } else {
        string_end(s, i + 1)
    }
}

/// The position after the escape sequence that starts at `i`.
pub open spec fn sequence_end(s: Seq<u8>, i: int) -> int {
    if i + 1 >= s.len() {
        s.len() as int
    } else if s[i + 1] == 0x5b {
        csi_end(s, i + 2)
    } else if starts_string(s[i + 1]) {
        string_end(s, i + 2)
    } else if i + 3 <= s.len() {
        i + 3
    } else {
        s.len() as int
    }
}

/// The bytes of `s` from `i` on that belong to no escape sequence.
pub open spec fn stripped_from(s: Seq<u8>, i: int) -> Seq<u8>
    decreases s.len() - i,
    via stripped_from_shrinks
{
    if !(0 <= i < s.len()) {
        Seq::empty()
    } else if s[i] != ESC {
        seq![s[i]] + stripped_from(s, i + 1)
    } else {
        stripped_from(s, sequence_end(s, i))
    }
}

#[via_fn]
proof fn stripped_from_shrinks(s: Seq<u8>, i: int) {
    if 0 <= i < s.len() {
        lemma_sequence_end(s, i);
    }
}

/// The bytes of `s` that belong to no escape sequence.
pub open spec fn stripped(s: Seq<u8>) -> Seq<u8> {
    stripped_from(s, 0)
}

/// Whether no byte of `s` is an escape.
pub open spec fn escape_free(s: Seq<u8>) -> bool {
    forall|i: int| 0 <= i < s.len() ==> #[trigger] s[i] != ESC
}

proof fn lemma_csi_end(s: Seq<u8>, i: int)
    requires
        0 <= i <= s.len(),
    ensures
        i <= csi_end(s, i) <= s.len(),
    decreases s.len() - i,
{
    if i < s.len() && !ends_csi(s[i]) {
        lemma_csi_end(s, i + 1);
    }
}

proof fn lemma_string_end(s: Seq<u8>, i: int)
    requires
        0 <= i <= s.len(),
    ensures
        i <= string_end(s, i) <= s.len(),
    decreases s.len() - i,
{
    if i < s.len() {
        lemma_string_end(s, i + 1);
    }
}

proof fn lemma_sequence_end(s: Seq<u8>, i: int)
    requires
        0 <= i < s.len(),
    ensures
        i < sequence_end(s, i) <= s.len(),
{
    if i + 1 < s.len() {
        lemma_csi_end(s, i + 2);
        lemma_string_end(s, i + 2);
    }
}

/// Removes escape sequences so log files and regex filters see plain text.
pub fn strip(input: &[u8]) -> (out: Vec<u8>)
    ensures
        out@ == stripped(input@),
{
    let mut out: Vec<u8> = Vec::with_capacity(input.len());
    let mut i: usize = 0;
    while i < input.len()
        invariant
            i <= input@.len(),
            out@ + stripped_from(input@, i as int) == stripped(input@),
        decreases input@.len() - i,
    {
        let ghost before = out@;
        if input[i] != ESC {
            out.push(input[i]);
            assert(before + stripped_from(input@, i as int) =~= out@ + stripped_from(
                input@,
                i + 1,
            ));
            i += 1;
        } else {
            proof {
                lemma_sequence_end(input@, i as int);
            }
            i = skip_sequence(input, i);
        }
    }
    assert(stripped_from(input@, i as int) =~= Seq::empty());
    assert(out@ =~= stripped(input@));
    out
}

fn skip_sequence(input: &[u8], at: usize) -> (end: usize)
    requires
        at < input@.len(),
    ensures
        end == sequence_end(input@, at as int),
{
    let n: usize = input.len();
    if n - at < 2 {
        return n;
    }
    let kind = input[at + 1];
    let mut i: usize = at + 2;
    if kind == 0x5b {
        while i < n && !(0x40 <= input[i] && input[i] <= 0x7e)
            invariant
                i <= n == input@.len(),
                csi_end(input@, at + 2) == csi_end(input@, i as int),
            decreases n - i,
        {
            i += 1;
        }
        if i < n {
            i + 1
        } else {
            n
        }
    } else if kind == 0x5d || kind == 0x50 || kind == 0x58 || kind == 0x5e || kind == 0x5f {
        while i < n
            invariant
                i <= n == input@.len(),
                at + 1 < n,
                input@[at + 1] == kind,
                starts_string(kind),
                kind != 0x5b,
                string_end(input@, at + 2) == string_end(input@, i as int),
            decreases n - i,
        {
            if input[i] == 0x07 {
                return i + 1;
            }
            if input[i] == ESC && n - i > 1 && input[i + 1] == 0x5c {
                return i + 2;
            }
            i += 1;
        }
        n
    } else if n - at < 3 {
        n
    } else {
        at + 3
    }
}

proof fn lemma_stripped_from_escape_free(s: Seq<u8>, i: int)
    requires
        0 <= i <= s.len(),
    ensures
        escape_free(stripped_from(s, i)),
        stripped_from(s, i).len() <= s.len() - i,
    decreases s.len() - i,
{
    if i < s.len() {
        if s[i] != ESC {
            lemma_stripped_from_escape_free(s, i + 1);
        } else {
            lemma_sequence_end(s, i);
            lemma_stripped_from_escape_free(s, sequence_end(s, i));
        }
    }
}

/// Stripped text holds no escape byte and is no longer than what it came from.
pub proof fn stripped_is_escape_free(s: Seq<u8>)
    ensures
        escape_free(stripped(s)),
        stripped(s).len() <= s.len(),
{
    lemma_stripped_from_escape_free(s, 0);
}

proof fn lemma_plain_kept(s: Seq<u8>, i: int)
    requires
        escape_free(s),
        0 <= i <= s.len(),
    ensures
        stripped_from(s, i) == s.skip(i),
    decreases s.len() - i,
{
    if i < s.len() {
        lemma_plain_kept(s, i + 1);
        assert(seq![s[i]] + s.skip(i + 1) =~= s.skip(i));
    } else {
        assert(s.skip(i) =~= Seq::empty());
    }
}

/// Text without escape bytes comes through unchanged, control characters included.
pub proof fn plain_text_is_kept(s: Seq<u8>)
    requires
        escape_free(s),
    ensures
        stripped(s) == s,
{
    lemma_plain_kept(s, 0);
    assert(s.skip(0) =~= s);
}

/// Stripping what was stripped before changes nothing.
pub proof fn strip_is_idempotent(s: Seq<u8>)
    ensures
        stripped(stripped(s)) == stripped(s),
{
    stripped_is_escape_free(s);
    plain_text_is_kept(stripped(s));
}

proof fn lemma_ends_shift(head: Seq<u8>, tail: Seq<u8>, i: int)
    requires
        0 <= i <= tail.len(),
    ensures
        csi_end(head + tail, head.len() + i) == head.len() + csi_end(tail, i),
        string_end(head + tail, head.len() + i) == head.len() + string_end(tail, i),
    decreases tail.len() - i,
{
    let s = head + tail;
    if i < tail.len() {
        assert(s[head.len() + i] == tail[i]);
        if i + 1 < tail.len() {
            assert(s[head.len() + i + 1] == tail[i + 1]);
        }
        lemma_ends_shift(head, tail, i + 1);
    }
}

proof fn lemma_stripped_shift(head: Seq<u8>, tail: Seq<u8>, i: int)
    requires
        0 <= i <= tail.len(),
    ensures
        stripped_from(head + tail, head.len() + i) == stripped_from(tail, i),
    decreases tail.len() - i,
{
    let s = head + tail;
    if i < tail.len() {
        assert(s[head.len() + i] == tail[i]);
        if tail[i] != ESC {
            lemma_stripped_shift(head, tail, i + 1);
        } else {
            if i + 1 < tail.len() {
                assert(s[head.len() + i + 1] == tail[i + 1]);
                lemma_ends_shift(head, tail, i + 2);
            }
            lemma_sequence_end(tail, i);
            lemma_stripped_shift(head, tail, sequence_end(tail, i));
        }
    }
}

/// Plain text in front of anything is kept, and does not change what is stripped
/// from the rest.
pub proof fn plain_text_in_front_is_kept(head: Seq<u8>, tail: Seq<u8>)
    requires
        escape_free(head),
    ensures
        stripped(head + tail) == head + stripped(tail),
    decreases head.len(),
{
    if head.len() == 0 {
        assert(head + tail =~= tail);
        assert(head + stripped(tail) =~= stripped(tail));
    } else {
        let first = seq![head[0]];
        let rest = head.skip(1);
        assert(head + tail =~= first + (rest + tail));
        assert((head + tail)[0] == head[0]);
        lemma_stripped_shift(first, rest + tail, 0);
        plain_text_in_front_is_kept(rest, tail);
        assert(head + stripped(tail) =~= first + (rest + stripped(tail)));
    }
}

proof fn lemma_csi_end_found(s: Seq<u8>, i: int, k: int)
    requires
        0 <= i <= k <= s.len(),
        forall|j: int| i <= j < k ==> !(0x40 <= #[trigger] s[j] <= 0x7e),
        k < s.len() ==> 0x40 <= s[k] <= 0x7e,
    ensures
        csi_end(s, i) == if k < s.len() {
            k + 1
        } else {
            k
        },
    decreases k - i,
{
    if i < k {
        lemma_csi_end_found(s, i + 1, k);
    }
}

/// A control sequence vanishes whole, whatever its parameters are, and what follows
/// is stripped as if the sequence had never been there. It runs from the escape and
/// the bracket to the first byte between `@` and `~`.
pub proof fn control_sequences_vanish(params: Seq<u8>, last: u8, tail: Seq<u8>)
    requires
        forall|i: int| 0 <= i < params.len() ==> !(0x40 <= #[trigger] params[i] <= 0x7e),
        0x40 <= last <= 0x7e,
    ensures
        stripped(seq![0x1b, 0x5b] + params + seq![last] + tail) == stripped(tail),
{
    let head = seq![0x1bu8, 0x5b] + params + seq![last];
    let s = head + tail;
    assert(head.len() == params.len() + 3);
    assert forall|j: int| 2 <= j < params.len() + 2 implies !(0x40 <= #[trigger] s[j] <= 0x7e) by {
        assert(s[j] == params[j - 2]);
    }
    assert(s[0] == 0x1b && s[1] == 0x5b && s[params.len() as int + 2] == last);
    lemma_csi_end_found(s, 2, params.len() as int + 2);
    lemma_stripped_shift(head, tail, 0);
}

proof fn lemma_string_end_found(s: Seq<u8>, i: int, k: int)
    requires
        0 <= i <= k <= s.len(),
        forall|j: int|
            i <= j < k ==> #[trigger] s[j] != 0x07 && !(s[j] == 0x1b && j + 1 < s.len() && s[j + 1]
                == 0x5c),
        k < s.len() ==> s[k] == 0x07 || (s[k] == 0x1b && k + 1 < s.len() && s[k + 1] == 0x5c),
    ensures
        string_end(s, i) == if k == s.len() {
            k
        } else if s[k] == 0x07 {
            k + 1
        } else {
            k + 2
        },
    decreases k - i,
{
    if i < k {
        lemma_string_end_found(s, i + 1, k);
    }
}

/// Whether `body` neither holds a BEL nor an escape in front of a backslash, and so
/// ends no string.
pub open spec fn ends_no_string(body: Seq<u8>) -> bool {
    forall|i: int|
        0 <= i < body.len() ==> #[trigger] body[i] != 0x07 && !(body[i] == 0x1b && i + 1
            < body.len() && body[i + 1] == 0x5c)
}

/// A string such as a window title vanishes whole, whichever of the two terminators
/// ends it, and what follows is stripped as if the string had never been there.
pub proof fn strings_vanish(kind: u8, body: Seq<u8>, tail: Seq<u8>)
    requires
        kind == 0x5d || kind == 0x50 || kind == 0x58 || kind == 0x5e || kind == 0x5f,
        ends_no_string(body),
    ensures
        stripped(seq![0x1b, kind] + body + seq![0x07] + tail) == stripped(tail),
        stripped(seq![0x1b, kind] + body + seq![0x1b, 0x5c] + tail) == stripped(tail),
{
    let k = body.len() as int + 2;
    let h = seq![0x1bu8, kind] + body + seq![0x07];
    let s = h + tail;
    assert forall|j: int| 2 <= j < k implies #[trigger] s[j] != 0x07 && !(s[j] == 0x1b && j + 1
        < s.len() && s[j + 1] == 0x5c) by {
        assert(s[j] == body[j - 2]);
        if j + 1 < k {
            assert(s[j + 1] == body[j - 1]);
        }
    }
    assert(s[0] == 0x1b && s[1] == kind && s[k] == 0x07);
    lemma_string_end_found(s, 2, k);
    lemma_stripped_shift(h, tail, 0);
    let h = seq![0x1bu8, kind] + body + seq![0x1b, 0x5c];
    let s = h + tail;
    assert forall|j: int| 2 <= j < k implies #[trigger] s[j] != 0x07 && !(s[j] == 0x1b && j + 1
        < s.len() && s[j + 1] == 0x5c) by {
        assert(s[j] == body[j - 2]);
        if j + 1 < k {
            assert(s[j + 1] == body[j - 1]);
        }
    }
    assert(s[0] == 0x1b && s[1] == kind && s[k] == 0x1b && s[k + 1] == 0x5c);
    lemma_string_end_found(s, 2, k);
    lemma_stripped_shift(h, tail, 0);
}

/// An escape that starts neither a control sequence nor a string takes two more bytes
/// with it, such as the two that select a character set, and nothing else.
pub proof fn short_sequences_vanish(a: u8, b: u8, tail: Seq<u8>)
    requires
        a != 0x5b && a != 0x5d && a != 0x50 && a != 0x58 && a != 0x5e && a != 0x5f,
    ensures
        stripped(seq![0x1b, a, b] + tail) == stripped(tail),
{
    let head = seq![0x1bu8, a, b];
    assert((head + tail)[0] == 0x1b && (head + tail)[1] == a);
    lemma_stripped_shift(head, tail, 0);
}

/// A sequence that is cut off before its end vanishes as far as it goes.
pub proof fn cut_off_sequences_vanish(a: u8, rest: Seq<u8>)
    requires
        a == 0x5b ==> forall|i: int|
            0 <= i < rest.len() ==> !(0x40 <= #[trigger] rest[i] <= 0x7e),
        a == 0x5d || a == 0x50 || a == 0x58 || a == 0x5e || a == 0x5f ==> ends_no_string(rest),
        a != 0x5b && a != 0x5d && a != 0x50 && a != 0x58 && a != 0x5e && a != 0x5f ==> rest.len()
            == 0,
    ensures
        stripped(seq![0x1b]) == Seq::<u8>::empty(),
        stripped(seq![0x1b, a] + rest) == Seq::<u8>::empty(),
{
    let s = seq![0x1bu8, a] + rest;
    assert(s[0] == 0x1b && s[1] == a);
    if a == 0x5b {
        assert forall|j: int| 2 <= j < s.len() implies !(0x40 <= #[trigger] s[j] <= 0x7e) by {
            assert(s[j] == rest[j - 2]);
        }
        lemma_csi_end_found(s, 2, s.len() as int);
    } else if rest.len() > 0 {
        assert forall|j: int| 2 <= j < s.len() implies #[trigger] s[j] != 0x07 && !(s[j] == 0x1b
            && j + 1 < s.len() && s[j + 1] == 0x5c) by {
            assert(s[j] == rest[j - 2]);
            if j + 1 < s.len() {
                assert(s[j + 1] == rest[j - 1]);
            }
        }
        lemma_string_end_found(s, 2, s.len() as int);
    }
    assert(sequence_end(s, 0) == s.len());
    assert(stripped_from(s, s.len() as int) == Seq::<u8>::empty());
    let lone = seq![0x1bu8];
    assert(lone[0] == ESC);
    assert(sequence_end(lone, 0) == 1);
    assert(stripped_from(lone, 1) == Seq::<u8>::empty());
}

} // verus!
