//! Keys decoded from the raw input bytes.
use crate::ansi;
use crate::text;
use vstd::prelude::*;
use vstd::utf8::*;

verus! {

#[derive(Copy, Clone, Debug, PartialEq, Eq, Structural)]
pub enum Key {
    Char(char),
    Ctrl(char),
    Enter,
    Esc,
    Tab,
    Backspace,
    Delete,
    Up,
    Down,
    Left,
    Right,
    Home,
    End,
    PageUp,
    PageDown,
    Unknown,
}

/// The position of the first byte from `i` on that ends a control sequence.
pub open spec fn final_at(s: Seq<u8>, i: int) -> Option<int>
    decreases s.len() - i,
{
    if i >= s.len() {
        None
    } else if ansi::ends_csi(s[i]) {
        Some(i)
    } else {
        final_at(s, i + 1)
    }
}

/// The key named by the letter that ends a cursor sequence.
pub open spec fn letter_key(b: u8) -> Option<Key> {
    if b == 0x41 {
        Some(Key::Up)
    } else if b == 0x42 {
        Some(Key::Down)
    } else if b == 0x43 {
        Some(Key::Right)
    } else if b == 0x44 {
        Some(Key::Left)
    } else if b == 0x48 {
        Some(Key::Home)
    } else if b == 0x46 {
        Some(Key::End)
    } else {
        None
    }
}

/// The key that a number in front of a tilde stands for.
pub open spec fn tilde_key(params: Seq<u8>) -> Key {
    if params.len() != 1 {
        Key::Unknown
    } else if params[0] == 0x31 || params[0] == 0x37 {
        Key::Home
    } else if params[0] == 0x34 || params[0] == 0x38 {
        Key::End
    } else if params[0] == 0x33 {
        Key::Delete
    } else if params[0] == 0x35 {
        Key::PageUp
    } else if params[0] == 0x36 {
        Key::PageDown
    } else {
        Key::Unknown
    }
}

/// The key that a control sequence stands for.
pub open spec fn csi_key(params: Seq<u8>, last: u8) -> Key {
    match letter_key(last) {
        Some(k) => k,
        None => if last == 0x7e {
            tilde_key(params)
        } else {
            Key::Unknown
        },
    }
}

/// What a sequence that starts with an escape decodes to, and its length.
pub open spec fn decoded_escape(buf: Seq<u8>) -> Option<(Key, nat)> {
    if buf.len() < 2 {
        None
    } else if buf[1] == 0x5b {
        match final_at(buf, 2) {
            None => None,
            Some(end) => Some((csi_key(buf.subrange(2, end), buf[end]), (end + 1) as nat)),
        }
    } else if buf[1] == 0x4f {
        if buf.len() < 3 {
            None
        } else {
            match letter_key(buf[2]) {
                Some(k) => Some((k, 3)),
                None => Some((Key::Unknown, 3)),
            }
        }
    } else {
        Some((Key::Unknown, 2))
    }
}

/// The length of the character that starts with `first`, if any does.
pub open spec fn encoded_len(first: u8) -> Option<nat> {
    if first <= 0x7f {
        Some(1)
    } else if 0xc0 <= first <= 0xdf {
        Some(2)
    } else if 0xe0 <= first <= 0xef {
        Some(3)
    } else if 0xf0 <= first <= 0xf7 {
        Some(4)
    } else {
        None
    }
}

/// What a character decodes to, and its length. A byte that starts no character is
/// passed over.
pub open spec fn decoded_char(buf: Seq<u8>) -> Option<(Key, nat)> {
    match encoded_len(buf[0]) {
        None => Some((Key::Unknown, 1)),
        Some(len) => if buf.len() < len {
            None
        } else if valid_utf8(buf.take(len as int)) {
            Some((Key::Char(decode_utf8(buf.take(len as int))[0]), len))
        } else {
            Some((Key::Unknown, 1))
        },
    }
}

/// The first key in `buf` and the number of bytes it takes, or nothing while more
/// bytes have to come.
pub open spec fn decoded(buf: Seq<u8>) -> Option<(Key, nat)> {
    if buf.len() == 0 {
        None
    } else if buf[0] == 0x1b {
        decoded_escape(buf)
    } else if buf[0] == 0x0d || buf[0] == 0x0a {
        Some((Key::Enter, 1))
    } else if buf[0] == 0x09 {
        Some((Key::Tab, 1))
    } else if buf[0] == 0x7f || buf[0] == 0x08 {
        Some((Key::Backspace, 1))
    } else if 0x01 <= buf[0] <= 0x1a {
        Some((Key::Ctrl((96 + buf[0]) as char), 1))
    } else if buf[0] <= 0x1f {
        Some((Key::Unknown, 1))
    } else {
        decoded_char(buf)
    }
}

/// All keys in `buf` that are complete.
pub open spec fn all_decoded(buf: Seq<u8>) -> Seq<Key>
    decreases buf.len(),
    via all_decoded_shrinks
{
    match decoded(buf) {
        None => Seq::empty(),
        Some((k, n)) => seq![k] + all_decoded(buf.skip(n as int)),
    }
}

#[via_fn]
proof fn all_decoded_shrinks(buf: Seq<u8>) {
    keys_take_what_is_there(buf);
}

/// Turns the raw input byte stream into keys for the scrollback view. Passthrough
/// mode never uses this: there, bytes go to the port untouched.
pub struct KeyDecoder {
    buf: Vec<u8>,
}

impl View for KeyDecoder {
    type V = Seq<u8>;

    closed spec fn view(&self) -> Seq<u8> {
        self.buf@
    }
}

impl Default for KeyDecoder {
    fn default() -> (d: Self)
        ensures
            d@ == Seq::<u8>::empty(),
    {
        KeyDecoder { buf: Vec::new() }
    }
}

impl KeyDecoder {
    pub fn push(&mut self, data: &[u8])
        ensures
            final(self)@ == old(self)@ + data@,
    {
        self.buf.extend_from_slice(data);
        assert(self@ =~= old(self)@ + data@);
    }

    /// Takes all that is left off the buffer, as it came.
    pub fn take_all(&mut self) -> (r: Vec<u8>)
        ensures
            r@ == old(self)@,
            final(self)@ == Seq::<u8>::empty(),
    {
        let mut r: Vec<u8> = Vec::new();
        std::mem::swap(&mut r, &mut self.buf);
        r
    }

    /// A lone ESC is only known to be ESC once no continuation arrives.
    pub fn flush_escape(&mut self) -> (r: Option<Key>)
        ensures
            old(self)@ == seq![0x1bu8] ==> r == Some(Key::Esc) && final(self)@ == Seq::<u8>::empty(),
            old(self)@ != seq![0x1bu8] ==> r is None && final(self)@ == old(self)@,
    {
        if self.buf.len() == 1 && self.buf[0] == 0x1b {
            assert(self@ =~= seq![0x1bu8]);
            self.buf.clear();
            return Some(Key::Esc);
        }
        None
    }

    /// Takes the first complete key off the buffer.
    pub fn next_key(&mut self) -> (r: Option<Key>)
        ensures
            match decoded(old(self)@) {
                None => r is None && final(self)@ == old(self)@,
                Some((k, n)) => r == Some(k) && final(self)@ == old(self)@.skip(n as int),
            },
    {
        if self.buf.len() == 0 {
            return None;
        }
        let first = self.buf[0];
        match first {
            0x1b => self.decode_escape(),
            0x0d | 0x0a => self.take(1, Key::Enter),
            0x09 => self.take(1, Key::Tab),
            0x7f | 0x08 => self.take(1, Key::Backspace),
            0x01..=0x1a => {
                let c = (0x61u8 + first - 1) as char;
                self.take(1, Key::Ctrl(c))
            },
            0x00..=0x1f => self.take(1, Key::Unknown),
            _ => self.decode_utf8(),
        }
    }

    fn take(&mut self, n: usize, key: Key) -> (r: Option<Key>)
        requires
            n <= old(self)@.len(),
        ensures
            r == Some(key),
            final(self)@ == old(self)@.skip(n as int),
    {
        let rest = self.buf.split_off(n);
        self.buf = rest;
        assert(self@ =~= old(self)@.skip(n as int));
        Some(key)
    }

    fn letter(b: u8) -> (r: Option<Key>)
        ensures
            r == letter_key(b),
    {
        match b {
            0x41 => Some(Key::Up),
            0x42 => Some(Key::Down),
            0x43 => Some(Key::Right),
            0x44 => Some(Key::Left),
            0x48 => Some(Key::Home),
            0x46 => Some(Key::End),
            _ => None,
        }
    }

    fn decode_escape(&mut self) -> (r: Option<Key>)
        requires
            old(self)@.len() > 0,
        ensures
            match decoded_escape(old(self)@) {
                None => r is None && final(self)@ == old(self)@,
                Some((k, n)) => r == Some(k) && final(self)@ == old(self)@.skip(n as int),
            },
    {
        if self.buf.len() < 2 {
            return None;
        }
        let kind = self.buf[1];
        if kind == 0x5b {
            let mut end: usize = 2;
            while end < self.buf.len() && !(0x40 <= self.buf[end] && self.buf[end] <= 0x7e)
                invariant
                    2 <= end <= self@.len(),
                    self@ == self.buf@,
                    self@ == old(self)@,
                    final_at(self@, 2) == final_at(self@, end as int),
                decreases self@.len() - end,
            {
                end += 1;
            }
            if end == self.buf.len() {
                return None;
            }
            let last = self.buf[end];
            let ghost params = self@.subrange(2, end as int);
            let key = match Self::letter(last) {
                Some(k) => k,
                None => if last == 0x7e && end == 3 {
                    match self.buf[2] {
                        0x31 | 0x37 => Key::Home,
                        0x34 | 0x38 => Key::End,
                        0x33 => Key::Delete,
                        0x35 => Key::PageUp,
                        0x36 => Key::PageDown,
                        _ => Key::Unknown,
                    }
                } else {
                    Key::Unknown
                },
            };
            assert(key == csi_key(params, last));
            self.take(end + 1, key)
        } else if kind == 0x4f {
            if self.buf.len() < 3 {
                return None;
            }
            let key = match Self::letter(self.buf[2]) {
                Some(k) => k,
                None => Key::Unknown,
            };
            self.take(3, key)
        } else {
            // Alt-modified keys and anything else two bytes long
            self.take(2, Key::Unknown)
        }
    }

    fn decode_utf8(&mut self) -> (r: Option<Key>)
        requires
            old(self)@.len() > 0,
        ensures
            match decoded_char(old(self)@) {
                None => r is None && final(self)@ == old(self)@,
                Some((k, n)) => r == Some(k) && final(self)@ == old(self)@.skip(n as int),
            },
    {
        let first = self.buf[0];
        let len: usize = match first {
            0x00..=0x7f => 1,
            0xc0..=0xdf => 2,
            0xe0..=0xef => 3,
            0xf0..=0xf7 => 4,
            _ => return self.take(1, Key::Unknown),
        };
        if self.buf.len() < len {
            return None;
        }
        let bytes = vstd::slice::slice_subrange(self.buf.as_slice(), 0, len);
        assert(bytes@ =~= self@.take(len as int));
        match text::from_utf8(bytes) {
            Some(s) => {
                let c = s.as_str().get_char(0);
                self.take(len, Key::Char(c))
            },
            None => self.take(1, Key::Unknown),
        }
    }
}

proof fn lemma_final_at(s: Seq<u8>, i: int)
    requires
        0 <= i,
    ensures
        final_at(s, i) matches Some(e) ==> i <= e < s.len(),
    decreases s.len() - i,
{
    if i < s.len() && !ansi::ends_csi(s[i]) {
        lemma_final_at(s, i + 1);
    }
}

/// A key takes at least one byte and no more than there are.
pub proof fn keys_take_what_is_there(buf: Seq<u8>)
    ensures
        decoded(buf) matches Some((k, n)) ==> 1 <= n <= buf.len(),
{
    lemma_final_at(buf, 2);
}

proof fn lemma_final_at_extends(a: Seq<u8>, b: Seq<u8>, i: int)
    requires
        0 <= i,
        final_at(a, i) is Some,
    ensures
        final_at(a + b, i) == final_at(a, i),
    decreases a.len() - i,
{
    assert((a + b)[i] == a[i]);
    if !ansi::ends_csi(a[i]) {
        lemma_final_at_extends(a, b, i + 1);
    }
}

/// Bytes that come later never change a key that is complete.
pub proof fn later_bytes_change_no_key(a: Seq<u8>, b: Seq<u8>)
    requires
        decoded(a) is Some,
    ensures
        decoded(a + b) == decoded(a),
{
    let s = a + b;
    assert(s[0] == a[0]);
    if a[0] == 0x1b {
        assert(s[1] == a[1]);
        if a[1] == 0x5b {
            lemma_final_at_extends(a, b, 2);
            lemma_final_at(a, 2);
            let end = final_at(a, 2)->0;
            assert(s.subrange(2, end) =~= a.subrange(2, end));
            assert(s[end] == a[end]);
        } else if a[1] == 0x4f {
            assert(s[2] == a[2]);
        }
    } else {
        match encoded_len(a[0]) {
            None => {},
            Some(len) => {
                if len <= a.len() {
                    assert(s.take(len as int) =~= a.take(len as int));
                }
            },
        }
    }
}

/// Whether a character is typed as text: neither a control character nor DEL.
pub open spec fn typed(c: char) -> bool {
    c as u32 >= 0x20 && c as u32 != 0x7f
}

/// One key for each character.
pub open spec fn char_keys(s: Seq<char>) -> Seq<Key>
    decreases s.len(),
{
    if s.len() == 0 {
        Seq::empty()
    } else {
        seq![Key::Char(s[0])] + char_keys(s.drop_first())
    }
}

/// Typed text decodes to its characters, one key each, whatever the script.
pub proof fn typed_text_decodes_to_itself(s: Seq<char>)
    requires
        forall|i: int| 0 <= i < s.len() ==> typed(#[trigger] s[i]),
    ensures
        all_decoded(encode_utf8(s)) == char_keys(s),
    decreases s.len(),
{
    let bytes = encode_utf8(s);
    let keys = char_keys(s);
    if s.len() == 0 {
        assert(decoded(bytes) is None);
        assert(all_decoded(bytes) =~= keys);
    } else {
        let rest = s.drop_first();
        let head = seq![s[0]];
        assert(typed(s[0]));
        assert forall|i: int| 0 <= i < rest.len() implies typed(#[trigger] rest[i]) by {
            assert(rest[i] == s[i + 1]);
        }
        typed_text_decodes_to_itself(rest);
        encode_utf8_first_scalar(s);
        let n = encode_scalar(s[0] as u32).len();
        encode_utf8_first_scalar(head);
        encode_utf8_valid_utf8(head);
        encode_utf8_decode_utf8(head);
        assert(head.drop_first() =~= Seq::<char>::empty());
        reveal_with_fuel(encode_utf8, 2);
        assert(encode_utf8(head) =~= encode_scalar(s[0] as u32));
        assert(bytes.take(n as int) =~= encode_scalar(s[0] as u32));
        assert(bytes.skip(n as int) =~= encode_utf8(rest));
        assert(decode_first_scalar(bytes) == s[0] as u32);
        lemma_narrow_first(bytes);
        assert(decoded(bytes) == Some((Key::Char(s[0]), n)));
        assert(all_decoded(bytes) == seq![Key::Char(s[0])] + all_decoded(bytes.skip(n as int)));
        assert(all_decoded(bytes) =~= keys);
    }
}

proof fn lemma_narrow_first(bytes: Seq<u8>)
    requires
        valid_first_scalar(bytes),
    ensures
        bytes[0] <= 0x7f ==> decode_first_scalar(bytes) == bytes[0] as u32,
{
    let b = bytes[0];
    if b <= 0x7f {
        assert(b & 0x7f == b) by (bit_vector)
            requires
                b <= 0x7f,
        ;
    }
}

proof fn lemma_final_found(s: Seq<u8>, i: int, k: int)
    requires
        0 <= i <= k <= s.len(),
        forall|j: int| i <= j < k ==> !(0x40 <= #[trigger] s[j] <= 0x7e),
        k < s.len() ==> 0x40 <= s[k] <= 0x7e,
    ensures
        final_at(s, i) == if k < s.len() {
            Some(k)
        } else {
            None
        },
    decreases k - i,
{
    if i < k {
        lemma_final_found(s, i + 1, k);
    }
}

/// A control sequence is one key and is taken whole, whatever its parameters are and
/// whatever follows it. Its last byte names the cursor keys; a tilde leaves it to the
/// number in front.
pub proof fn a_control_sequence_is_one_key(params: Seq<u8>, last: u8, tail: Seq<u8>)
    requires
        forall|i: int| 0 <= i < params.len() ==> !(0x40 <= #[trigger] params[i] <= 0x7e),
        0x40 <= last <= 0x7e,
    ensures
        ({
            let d = decoded(seq![0x1b, 0x5b] + params + seq![last] + tail);
            &&& d is Some
            &&& (d->0).1 == params.len() + 3
            &&& last == 0x41 <==> (d->0).0 == Key::Up
            &&& last == 0x42 <==> (d->0).0 == Key::Down
            &&& last == 0x43 <==> (d->0).0 == Key::Right
            &&& last == 0x44 <==> (d->0).0 == Key::Left
            &&& (d->0).0 == Key::Home <==> last == 0x48 || (last == 0x7e && (params == seq![0x31u8]
                || params == seq![0x37u8]))
            &&& (d->0).0 == Key::End <==> last == 0x46 || (last == 0x7e && (params == seq![0x34u8]
                || params == seq![0x38u8]))
            &&& (d->0).0 == Key::Delete <==> last == 0x7e && params == seq![0x33u8]
            &&& (d->0).0 == Key::PageUp <==> last == 0x7e && params == seq![0x35u8]
            &&& (d->0).0 == Key::PageDown <==> last == 0x7e && params == seq![0x36u8]
            &&& !((d->0).0 is Char || (d->0).0 is Ctrl || (d->0).0 is Enter || (d->0).0 is Esc || (
            d->0).0 is Tab || (d->0).0 is Backspace)
        }),
{
    let s = seq![0x1bu8, 0x5b] + params + seq![last] + tail;
    let k = params.len() as int + 2;
    assert(s[0] == 0x1b && s[1] == 0x5b && s[k] == last);
    assert forall|j: int| 2 <= j < k implies !(0x40 <= #[trigger] s[j] <= 0x7e) by {
        assert(s[j] == params[j - 2]);
    }
    lemma_final_found(s, 2, k);
    assert(s.subrange(2, k) =~= params);
    if params.len() == 1 {
        assert(params =~= seq![params[0]]);
    }
    assert(seq![0x31u8][0] == 0x31 && seq![0x37u8][0] == 0x37 && seq![0x34u8][0] == 0x34
        && seq![0x38u8][0] == 0x38 && seq![0x33u8][0] == 0x33 && seq![0x35u8][0] == 0x35
        && seq![0x36u8][0] == 0x36);
}

/// The cursor keys of a terminal in application mode are the same keys, and any other
/// letter there is none.
pub proof fn application_keys_are_the_same(letter: u8, tail: Seq<u8>)
    ensures
        ({
            let d = decoded(seq![0x1b, 0x4f, letter] + tail);
            &&& d is Some
            &&& (d->0).1 == 3
            &&& 0x40 <= letter < 0x7e ==> (d->0).0 == (decoded(seq![0x1b, 0x5b, letter])->0).0
            &&& !(0x40 <= letter < 0x7e) ==> (d->0).0 == Key::Unknown
        }),
{
    let s = seq![0x1bu8, 0x4f, letter] + tail;
    assert(s[0] == 0x1b && s[1] == 0x4f && s[2] == letter);
    if 0x40 <= letter < 0x7e {
        let t = seq![0x1bu8, 0x5b, letter];
        lemma_final_found(t, 2, 2);
    }
}

/// Nothing is taken while a sequence is still open: a lone escape, a control sequence
/// without its last byte, or a character that is cut off.
pub proof fn open_sequences_wait(params: Seq<u8>)
    requires
        forall|i: int| 0 <= i < params.len() ==> !(0x40 <= #[trigger] params[i] <= 0x7e),
    ensures
        decoded(Seq::<u8>::empty()) is None,
        decoded(seq![0x1b]) is None,
        decoded(seq![0x1b, 0x4f]) is None,
        decoded(seq![0x1b, 0x5b] + params) is None,
{
    let s = seq![0x1bu8, 0x5b] + params;
    assert(s[0] == 0x1b && s[1] == 0x5b);
    assert forall|j: int| 2 <= j < s.len() implies !(0x40 <= #[trigger] s[j] <= 0x7e) by {
        assert(s[j] == params[j - 2]);
    }
    lemma_final_found(s, 2, s.len() as int);
}

/// An escape in front of any other byte is a key that means nothing here, and takes
/// both.
pub proof fn other_escapes_mean_nothing(b: u8, tail: Seq<u8>)
    requires
        b != 0x5b,
        b != 0x4f,
    ensures
        decoded(seq![0x1b, b] + tail) == Some((Key::Unknown, 2nat)),
{
    let s = seq![0x1bu8, b] + tail;
    assert(s[0] == 0x1b && s[1] == b);
}

/// Every control byte is one key of its own. Those with a key on the keyboard are that
/// key; the others up to 26 are Ctrl with the letter of that number.
pub proof fn control_bytes_are_keys(b: u8, tail: Seq<u8>)
    requires
        b < 0x20 || b == 0x7f,
        b != 0x1b,
    ensures
        ({
            let d = decoded(seq![b] + tail);
            &&& d is Some
            &&& (d->0).1 == 1
            &&& b == 0x0d || b == 0x0a <==> (d->0).0 == Key::Enter
            &&& b == 0x09 <==> (d->0).0 == Key::Tab
            &&& b == 0x7f || b == 0x08 <==> (d->0).0 == Key::Backspace
            &&& b == 0 || b > 0x1a && b != 0x7f <==> (d->0).0 == Key::Unknown
            &&& (d->0).0 matches Key::Ctrl(c) ==> 'a' <= c <= 'z' && c as u32 - 'a' as u32 + 1 == b
        }),
{
    assert((seq![b] + tail)[0] == b);
}

/// A byte that starts no character is passed over alone, so that what follows it is
/// still decoded.
pub proof fn a_stray_byte_is_passed_over(b: u8, tail: Seq<u8>)
    requires
        0x80 <= b < 0xc0 || b >= 0xf8,
    ensures
        decoded(seq![b] + tail) == Some((Key::Unknown, 1nat)),
        all_decoded(seq![b] + tail) == seq![Key::Unknown] + all_decoded(tail),
{
    let s = seq![b] + tail;
    assert(s[0] == b);
    assert(s.skip(1) =~= tail);
}

/// Keys are decoded one after the other: what one complete key leaves is decoded as if
/// it had come alone.
pub proof fn keys_are_decoded_one_by_one(key: Seq<u8>, tail: Seq<u8>)
    requires
        decoded(key) matches Some((k, n)) && n == key.len(),
    ensures
        all_decoded(key + tail) == seq![(decoded(key)->0).0] + all_decoded(tail),
{
    later_bytes_change_no_key(key, tail);
    assert((key + tail).skip(key.len() as int) =~= tail);
}

/// The first byte of a character tells how many bytes it takes: nothing is taken while
/// some of them are still to come, and if they then make no character, the first byte
/// alone is passed over.
pub proof fn a_cut_off_character_waits(buf: Seq<u8>)
    requires
        buf.len() > 0,
        0xc0 <= buf[0] <= 0xf7,
    ensures
        ({
            let len = if buf[0] < 0xe0 {
                2int
            } else if buf[0] < 0xf0 {
                3
            } else {
                4
            };
            &&& buf.len() < len <==> decoded(buf) is None
            &&& buf.len() >= len && !valid_utf8(buf.take(len)) ==> decoded(buf) == Some(
                (Key::Unknown, 1nat),
            )
            &&& buf.len() >= len && valid_utf8(buf.take(len)) ==> decoded(buf) == Some(
                (Key::Char(decode_utf8(buf.take(len))[0]), len as nat),
            )
        }),
{
}

} // verus!
