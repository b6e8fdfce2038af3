//! Text helpers: numbers as text, padding, searching and trimming, and the few
//! std string operations the rest of the crate relies on.
use vstd::prelude::*;
use vstd::utf8::*;

verus! {

/// `String::push` appends one character and changes nothing else.
pub assume_specification[ String::push ](s: &mut String, c: char)
    ensures
        final(s)@ == old(s)@.push(c),
;

/// `String::pop` removes the last character, if there is one.
pub assume_specification[ String::pop ](s: &mut String) -> (r: Option<char>)
    ensures
        old(s)@.len() == 0 ==> r is None && final(s)@ == old(s)@,
        old(s)@.len() > 0 ==> r == Some(old(s)@.last()) && final(s)@ == old(s)@.drop_last(),
;

/// Whether a character has Unicode's `White_Space` property.
pub open spec fn white_space(c: char) -> bool {
    let n = c as u32;
    ||| 0x09 <= n <= 0x0d
    ||| n == 0x20
    ||| n == 0x85
    ||| n == 0xa0
    ||| n == 0x1680
    ||| 0x2000 <= n <= 0x200a
    ||| n == 0x2028
    ||| n == 0x2029
    ||| n == 0x202f
    ||| n == 0x205f
    ||| n == 0x3000
}

/// `char::is_whitespace` tests for the `White_Space` property of the Unicode
/// Character Database, which the characters listed above have.
pub assume_specification[ char::is_whitespace ](c: char) -> (r: bool)
    ensures
        r == white_space(c),
;

/// What `String::from_utf8_lossy` makes of a byte sequence.
pub uninterp spec fn utf8_lossy(bytes: Seq<u8>) -> Seq<char>;

/// `String::from_utf8_lossy`: the text the bytes encode, with replacement
/// characters in place of whatever is not UTF-8. Valid UTF-8 is decoded as it is.
#[verifier::external_body]
pub(crate) fn from_utf8_lossy(bytes: &[u8]) -> (s: String)
    ensures
        s@ == utf8_lossy(bytes@),
        valid_utf8(bytes@) ==> s@ == decode_utf8(bytes@),
{
    String::from_utf8_lossy(bytes).into_owned()
}

/// The text of a byte sequence: what it encodes, with replacement characters where it
/// is not UTF-8.
pub open spec fn lossy_text(bytes: Seq<u8>) -> Seq<char> {
    if valid_utf8(bytes) {
        decode_utf8(bytes)
    } else {
        utf8_lossy(bytes)
    }
}

/// `str::from_utf8` accepts exactly the valid UTF-8 sequences and gives the text
/// they encode.
#[verifier::external_body]
pub(crate) fn from_utf8(bytes: &[u8]) -> (r: Option<String>)
    ensures
        r is Some <==> valid_utf8(bytes@),
        r matches Some(s) ==> s@ == decode_utf8(bytes@),
{
    std::str::from_utf8(bytes).ok().map(String::from)
}

/// The text that `{:?}` prints for a string.
pub uninterp spec fn debug_str(s: Seq<char>) -> Seq<char>;

/// `<str as Debug>::fmt`: the string in quotes, with escapes. The text depends on
/// the string alone.
#[verifier::external_body]
pub(crate) fn quoted(s: &str) -> (r: String)
    ensures
        r@ == debug_str(s@),
{
    format!("{:?}", s)
}

/// The text that `{:?}` prints for a character.
pub uninterp spec fn debug_char(c: char) -> Seq<char>;

/// `<char as Debug>::fmt`: the character in single quotes, with escapes. The text
/// depends on the character alone.
#[verifier::external_body]
pub(crate) fn quoted_char(c: char) -> (r: String)
    ensures
        r@ == debug_char(c),
{
    format!("{:?}", c)
}

/// The decimal digit `d`.
pub open spec fn digit(d: nat) -> char {
    (48 + d) as char
}

/// `n` in decimal, without leading zeros.
pub open spec fn decimal(n: nat) -> Seq<char>
    decreases n,
{
    if n < 10 {
        seq![digit(n)]
    } else {
        decimal(n / 10).push(digit(n % 10))
    }
}

/// The last two digits of `n`.
pub open spec fn two_digits(n: nat) -> Seq<char> {
    seq![digit(n / 10 % 10), digit(n % 10)]
}

/// The last three digits of `n`.
pub open spec fn three_digits(n: nat) -> Seq<char> {
    seq![digit(n / 100 % 10), digit(n / 10 % 10), digit(n % 10)]
}

/// The lower-case hexadecimal digit `d`.
pub open spec fn hex_digit(d: nat) -> char {
    if d < 10 {
        (48 + d) as char
    } else {
        (87 + d) as char
    }
}

/// `n` as four lower-case hexadecimal digits.
pub open spec fn hex4(n: nat) -> Seq<char> {
    seq![
        hex_digit(n / 4096 % 16),
        hex_digit(n / 256 % 16),
        hex_digit(n / 16 % 16),
        hex_digit(n % 16),
    ]
}

/// `n` blanks.
pub open spec fn blanks(n: nat) -> Seq<char> {
    Seq::new(n, |i: int| ' ')
}

/// `s` moved to the right edge of a field of `width` characters.
pub open spec fn right_aligned(s: Seq<char>, width: nat) -> Seq<char> {
    if s.len() >= width {
        s
    } else {
        blanks((width - s.len()) as nat) + s
    }
}

/// `s` at the left edge of a field of `width` characters.
pub open spec fn left_aligned(s: Seq<char>, width: nat) -> Seq<char> {
    if s.len() >= width {
        s
    } else {
        s + blanks((width - s.len()) as nat)
    }
}

/// What follows the last `/`, or all of `path` when there is none.
pub open spec fn leaf(path: Seq<char>) -> Seq<char>
    decreases path.len(),
{
    if path.len() == 0 || path.last() == '/' {
        Seq::empty()
    } else {
        leaf(path.drop_last()).push(path.last())
    }
}

/// Whether `needle` occurs in `hay`.
pub open spec fn occurs(needle: Seq<char>, hay: Seq<char>) -> bool {
    exists|i: int|
        0 <= i <= hay.len() - needle.len() && #[trigger] hay.subrange(i, i + needle.len())
            == needle
}

/// `s` without leading white space.
pub open spec fn trim_front(s: Seq<char>) -> Seq<char>
    decreases s.len(),
{
    if s.len() > 0 && white_space(s[0]) {
        trim_front(s.skip(1))
    } else {
        s
    }
}

/// `s` without trailing white space.
pub open spec fn trim_back(s: Seq<char>) -> Seq<char>
    decreases s.len(),
{
    if s.len() > 0 && white_space(s.last()) {
        trim_back(s.drop_last())
    } else {
        s
    }
}

/// `s` without white space at either end.
pub open spec fn trimmed(s: Seq<char>) -> Seq<char> {
    trim_back(trim_front(s))
}

/// Whether `c` is one of `0` to `9`.
pub open spec fn is_digit(c: char) -> bool {
    '0' <= c <= '9'
}

/// The number that a run of decimal digits stands for.
pub open spec fn digits_value(s: Seq<char>) -> nat
    decreases s.len(),
{
    if s.len() == 0 {
        0
    } else {
        digits_value(s.drop_last()) * 10 + (s.last() as nat - 48) as nat
    }
}

/// The digits of a number written with an optional leading `+`.
pub open spec fn unsigned_digits(s: Seq<char>) -> Seq<char> {
    if s.len() > 0 && s[0] == '+' {
        s.skip(1)
    } else {
        s
    }
}

/// The unsigned machine integer that `s` spells: an optional `+`, then one or more
/// digits, with a value that fits.
pub open spec fn parsed_usize(s: Seq<char>) -> Option<usize> {
    let d = unsigned_digits(s);
    if d.len() > 0 && (forall|i: int| 0 <= i < d.len() ==> is_digit(#[trigger] d[i]))
        && digits_value(d) <= usize::MAX {
        Some(digits_value(d) as usize)
    } else {
        None
    }
}

/// `items` with `sep` between each two.
pub open spec fn joined(items: Seq<Seq<char>>, sep: Seq<char>) -> Seq<char>
    decreases items.len(),
{
    if items.len() == 0 {
        Seq::empty()
    } else if items.len() == 1 {
        items[0]
    } else {
        joined(items.drop_last(), sep) + sep + items.last()
    }
}

/// The text given, if any.
pub open spec fn given(s: Option<&str>) -> Option<Seq<char>> {
    match s {
        Some(t) => Some(t@),
        None => None,
    }
}

/// The views of a sequence of strings.
pub open spec fn texts(items: Seq<String>) -> Seq<Seq<char>> {
    items.map_values(|s: String| s@)
}

/// A copy of some bytes.
pub fn copied(data: &[u8]) -> (v: Vec<u8>)
    ensures
        v@ == data@,
{
    let mut v: Vec<u8> = Vec::new();
    v.extend_from_slice(data);
    assert(v@ =~= data@);
    v
}

/// Appends `n` in decimal.
pub fn push_decimal(out: &mut String, n: u64)
    ensures
        final(out)@ == old(out)@ + decimal(n as nat),
    decreases n,
{
    if n >= 10 {
        push_decimal(out, n / 10);
    }
    out.push((48u8 + (n % 10) as u8) as char);
}

/// Appends the last two digits of `n`.
pub fn push_two_digits(out: &mut String, n: u64)
    ensures
        final(out)@ == old(out)@ + two_digits(n as nat),
{
    out.push((48u8 + (n / 10 % 10) as u8) as char);
    out.push((48u8 + (n % 10) as u8) as char);
}

/// Appends the last three digits of `n`.
pub fn push_three_digits(out: &mut String, n: u64)
    ensures
        final(out)@ == old(out)@ + three_digits(n as nat),
{
    out.push((48u8 + (n / 100 % 10) as u8) as char);
    out.push((48u8 + (n / 10 % 10) as u8) as char);
    out.push((48u8 + (n % 10) as u8) as char);
}

fn hex_char(d: u16) -> (c: char)
    requires
        d < 16,
    ensures
        c == hex_digit(d as nat),
{
    if d < 10 {
        (48u8 + d as u8) as char
    } else {
        (87u8 + d as u8) as char
    }
}

/// Appends `n` as four hexadecimal digits.
pub fn push_hex4(out: &mut String, n: u16)
    ensures
        final(out)@ == old(out)@ + hex4(n as nat),
{
    out.push(hex_char(n / 4096 % 16));
    out.push(hex_char(n / 256 % 16));
    out.push(hex_char(n / 16 % 16));
    out.push(hex_char(n % 16));
}

/// Appends `n` blanks.
pub fn push_blanks(out: &mut String, n: usize)
    ensures
        final(out)@ == old(out)@ + blanks(n as nat),
{
    let mut i: usize = 0;
    while i < n
        invariant
            i <= n,
            out@ == old(out)@ + blanks(i as nat),
        decreases n - i,
    {
        out.push(' ');
        i += 1;
        assert(out@ =~= old(out)@ + blanks(i as nat));
    }
}

/// Appends `s` at the right edge of a field of `width` characters.
pub fn push_right_aligned(out: &mut String, s: &str, width: usize)
    ensures
        final(out)@ == old(out)@ + right_aligned(s@, width as nat),
{
    let n = s.unicode_len();
    if n < width {
        push_blanks(out, width - n);
    }
    out.append(s);
    assert(out@ =~= old(out)@ + right_aligned(s@, width as nat));
}

/// Appends `s` at the left edge of a field of `width` characters.
pub fn push_left_aligned(out: &mut String, s: &str, width: usize)
    ensures
        final(out)@ == old(out)@ + left_aligned(s@, width as nat),
{
    let n = s.unicode_len();
    out.append(s);
    if n < width {
        push_blanks(out, width - n);
    }
    assert(out@ =~= old(out)@ + left_aligned(s@, width as nat));
}

/// The characters of `s`.
pub fn chars_of(s: &str) -> (v: Vec<char>)
    ensures
        v@ == s@,
{
    let mut v: Vec<char> = Vec::new();
    for c in it: s.chars()
        invariant
            v@ == it.seq().take(it.index() as int),
            it.seq() == s@,
    {
        v.push(c);
    }
    v
}

/// The string made of the characters of `chars` from `from` up to `to`.
pub fn string_of(chars: &[char], from: usize, to: usize) -> (s: String)
    requires
        from <= to <= chars@.len(),
    ensures
        s@ == chars@.subrange(from as int, to as int),
{
    let mut s = String::new();
    let mut i: usize = from;
    while i < to
        invariant
            from <= i <= to <= chars@.len(),
            s@ == chars@.subrange(from as int, i as int),
        decreases to - i,
    {
        s.push(chars[i]);
        i += 1;
    }
    s
}

/// Whether two strings hold the same characters.
pub fn same_text(a: &str, b: &str) -> (r: bool)
    ensures
        r == (a@ == b@),
{
    let x = chars_of(a);
    let y = chars_of(b);
    if x.len() != y.len() {
        return false;
    }
    let mut i: usize = 0;
    while i < x.len()
        invariant
            i <= x@.len(),
            x@.len() == y@.len(),
            x@ == a@,
            y@ == b@,
            forall|j: int| 0 <= j < i ==> x@[j] == y@[j],
        decreases x@.len() - i,
    {
        if x[i] != y[i] {
            return false;
        }
        i += 1;
    }
    assert(a@ =~= b@);
    true
}

proof fn lemma_leaf_of_suffix(path: Seq<char>, i: int)
    requires
        0 <= i <= path.len(),
        i > 0 ==> path[i - 1] == '/',
        forall|j: int| i <= j < path.len() ==> path[j] != '/',
    ensures
        leaf(path) == path.skip(i),
    decreases path.len(),
{
    if i < path.len() {
        lemma_leaf_of_suffix(path.drop_last(), i);
        assert(path.drop_last().skip(i).push(path.last()) =~= path.skip(i));
    } else {
        assert(path.skip(i) =~= Seq::empty());
    }
}

/// The leaf name of a path.
pub fn leaf_of(path: &str) -> (s: String)
    ensures
        s@ == leaf(path@),
{
    let v = chars_of(path);
    let mut i: usize = v.len();
    while i > 0 && v[i - 1] != '/'
        invariant
            i <= v@.len(),
            forall|j: int| i <= j < v@.len() ==> v@[j] != '/',
        decreases i,
    {
        i -= 1;
    }
    proof {
        lemma_leaf_of_suffix(v@, i as int);
        assert(v@.skip(i as int) =~= v@.subrange(i as int, v@.len() as int));
    }
    string_of(v.as_slice(), i, v.len())
}

fn occurs_at(needle: &[char], hay: &[char], at: usize) -> (r: bool)
    requires
        at + needle@.len() <= hay@.len(),
    ensures
        r == (hay@.subrange(at as int, at + needle@.len()) == needle@),
{
    let total: usize = hay.len();
    let mut j: usize = 0;
    while j < needle.len()
        invariant
            j <= needle@.len(),
            total == hay@.len(),
            at + needle@.len() <= total,
            forall|k: int| 0 <= k < j ==> hay@[at + k] == needle@[k],
        decreases needle@.len() - j,
    {
        if hay[at + j] != needle[j] {
            assert(hay@.subrange(at as int, at + needle@.len())[j as int] != needle@[j as int]);
            return false;
        }
        j += 1;
    }
    assert(hay@.subrange(at as int, at + needle@.len()) =~= needle@);
    true
}

/// Whether `needle` occurs in `hay`.
pub fn contains_text(hay: &str, needle: &str) -> (r: bool)
    ensures
        r == occurs(needle@, hay@),
{
    let h = chars_of(hay);
    let n = chars_of(needle);
    if n.len() > h.len() {
        return false;
    }
    let last: usize = h.len() - n.len();
    let mut i: usize = 0;
    while i <= last
        invariant
            i <= last + 1,
            last < usize::MAX || i <= last,
            last + n@.len() == h@.len(),
            h@ == hay@,
            n@ == needle@,
            forall|k: int| 0 <= k < i ==> #[trigger] h@.subrange(k, k + n@.len()) != n@,
        decreases last + 1 - i,
    {
        if occurs_at(n.as_slice(), h.as_slice(), i) {
            return true;
        }
        if i == last {
            return false;
        }
        i += 1;
    }
    false
}

/// Whether `s` starts with `head`; the rest, if so.
pub fn after_prefix(s: &str, head: &str) -> (r: Option<String>)
    ensures
        r is Some <==> head@.is_prefix_of(s@),
        r matches Some(rest) ==> rest@ == s@.skip(head@.len() as int),
{
    let v = chars_of(s);
    let h = chars_of(head);
    if h.len() > v.len() {
        return None;
    }
    if occurs_at(h.as_slice(), v.as_slice(), 0) {
        assert(v@.subrange(h@.len() as int, v@.len() as int) =~= v@.skip(h@.len() as int));
        Some(string_of(v.as_slice(), h.len(), v.len()))
    } else {
        None
    }
}

fn trim_range(v: &[char], to: usize) -> (r: (usize, usize))
    requires
        to <= v@.len(),
    ensures
        r.0 <= r.1 <= v@.len(),
        v@.subrange(r.0 as int, r.1 as int) == trimmed(v@.take(to as int)),
{
    let ghost all = v@.take(to as int);
    let mut i: usize = 0;
    assert(all.skip(0) =~= all);
    while i < to && v[i].is_whitespace()
        invariant
            i <= to <= v@.len(),
            all == v@.take(to as int),
            trim_front(all) == trim_front(all.skip(i as int)),
        decreases to - i,
    {
        assert(all.skip(i as int).skip(1) =~= all.skip(i + 1));
        i += 1;
    }
    let mut j: usize = to;
    assert(all.skip(i as int) =~= v@.subrange(i as int, to as int));
    while j > i && v[j - 1].is_whitespace()
        invariant
            i <= j <= to <= v@.len(),
            trimmed(all) == trim_back(v@.subrange(i as int, j as int)),
        decreases j - i,
    {
        assert(v@.subrange(i as int, j as int).drop_last() =~= v@.subrange(i as int, j - 1));
        j -= 1;
    }
    (i, j)
}

/// `s` without white space at either end.
pub fn trim(s: &str) -> (r: String)
    ensures
        r@ == trimmed(s@),
{
    let v = chars_of(s);
    let (i, j) = trim_range(v.as_slice(), v.len());
    assert(v@.take(v@.len() as int) =~= v@);
    string_of(v.as_slice(), i, j)
}

/// The characters of `s` before its first line feed; a carriage return directly
/// before that line feed belongs to the line ending.
pub open spec fn first_line_text(s: Seq<char>) -> Seq<char> {
    if !s.contains('\n') {
        s
    } else {
        let n = s.index_of_first('\n')->0;
        if n > 0 && s[n - 1] == '\r' {
            s.take(n - 1)
        } else {
            s.take(n)
        }
    }
}

/// The first line of `s`, without white space at either end.
pub fn first_line(s: &str) -> (r: String)
    ensures
        r@ == trimmed(first_line_text(s@)),
{
    let v = chars_of(s);
    let mut n: usize = 0;
    while n < v.len() && v[n] != '\n'
        invariant
            n <= v@.len(),
            forall|j: int| 0 <= j < n ==> v@[j] != '\n',
        decreases v@.len() - n,
    {
        n += 1;
    }
    let mut end = n;
    proof {
        v@.index_of_first_ensures('\n');
        if n < v@.len() {
            assert(v@[n as int] == '\n');
            assert(v@.contains('\n'));
            assert(v@.index_of_first('\n') == Some(n as int));
        } else {
            assert(!v@.contains('\n'));
            assert(v@.take(n as int) =~= v@);
        }
    }
    if n < v.len() && n > 0 && v[n - 1] == '\r' {
        end = n - 1;
    }
    let (i, j) = trim_range(v.as_slice(), end);
    string_of(v.as_slice(), i, j)
}

proof fn lemma_digits_value_grows(s: Seq<char>, n: int)
    requires
        0 <= n <= s.len(),
        forall|i: int| 0 <= i < s.len() ==> is_digit(#[trigger] s[i]),
    ensures
        digits_value(s.take(n)) <= digits_value(s),
    decreases s.len(),
{
    if n < s.len() {
        lemma_digits_value_grows(s.drop_last(), n);
        assert(s.drop_last().take(n) =~= s.take(n));
    } else {
        assert(s.take(n) =~= s);
    }
}

/// Reads an unsigned number as `str::parse` does: an optional `+` and decimal digits.
pub fn parse_usize(s: &str) -> (r: Option<usize>)
    ensures
        r == parsed_usize(s@),
{
    let v = chars_of(s);
    let from: usize = if v.len() > 0 && v[0] == '+' { 1 } else { 0 };
    let ghost d = unsigned_digits(s@);
    assert(d =~= v@.skip(from as int));
    if from == v.len() {
        return None;
    }
    let mut i: usize = from;
    let mut n: usize = 0;
    while i < v.len()
        invariant
            from <= i <= v@.len(),
            v@ == s@,
            d == unsigned_digits(s@),
            d == v@.skip(from as int),
            forall|j: int| 0 <= j < i - from ==> is_digit(#[trigger] d[j]),
            n == digits_value(d.take(i - from)),
        decreases v@.len() - i,
    {
        let c = v[i];
        assert(d[i - from] == c);
        if c < '0' || c > '9' {
            return None;
        }
        let ghost k = i - from;
        assert(d.take(k + 1).drop_last() =~= d.take(k));
        proof {
            if forall|j: int| 0 <= j < d.len() ==> is_digit(#[trigger] d[j]) {
                lemma_digits_value_grows(d, k + 1);
            }
        }
        let x: usize = (c as u32 - 48) as usize;
        match n.checked_mul(10) {
            Some(m) => match m.checked_add(x) {
                Some(sum) => {
                    n = sum;
                },
                None => {
                    return None;
                },
            },
            None => {
                return None;
            },
        }
        i += 1;
    }
    assert(d.take(d.len() as int) =~= d);
    Some(n)
}

/// `items` with `sep` between each two.
pub fn join(items: &[String], sep: &str) -> (r: String)
    ensures
        r@ == joined(texts(items@), sep@),
{
    let mut r = String::new();
    let ghost all = texts(items@);
    let mut i: usize = 0;
    assert(all.take(0) =~= Seq::empty());
    while i < items.len()
        invariant
            i <= items@.len(),
            all == texts(items@),
            r@ == joined(all.take(i as int), sep@),
        decreases items@.len() - i,
    {
        if i > 0 {
            r.append(sep);
        }
        r.append(items[i].as_str());
        assert(all.take(i + 1).drop_last() =~= all.take(i as int));
        assert(all.take(i + 1).last() == items@[i as int]@);
        i += 1;
        assert(r@ =~= joined(all.take(i as int), sep@));
    }
    assert(all.take(all.len() as int) =~= all);
    r
}

/// Encoding a text piece by piece gives the same bytes.
pub proof fn encoding_joins(a: Seq<char>, b: Seq<char>)
    ensures
        encode_utf8(a + b) == encode_utf8(a) + encode_utf8(b),
    decreases a.len(),
{
    if a.len() == 0 {
        assert(a + b =~= b);
        assert(encode_utf8(a) =~= Seq::<u8>::empty());
        assert(encode_utf8(a) + encode_utf8(b) =~= encode_utf8(b));
    } else {
        encoding_joins(a.drop_first(), b);
        assert((a + b).drop_first() =~= a.drop_first() + b);
        assert(encode_utf8(a + b) =~= encode_utf8(a) + encode_utf8(b));
    }
}

/// The name of a file is what follows the last slash of its path, and a name alone is
/// its own.
pub proof fn a_path_ends_with_its_name(dir: Seq<char>, name: Seq<char>)
    requires
        !name.contains('/'),
    ensures
        leaf(dir + seq!['/'] + name) == name,
        leaf(name) == name,
    decreases name.len(),
{
    let path = dir + seq!['/'] + name;
    if name.len() == 0 {
        assert(path.last() == '/');
        assert(leaf(path) =~= name);
        assert(leaf(name) =~= name);
    } else {
        let head = name.drop_last();
        assert forall|i: int| 0 <= i < head.len() implies head[i] != '/' by {
            assert(name.contains(name[i]));
        }
        a_path_ends_with_its_name(dir, head);
        assert(path.drop_last() =~= dir + seq!['/'] + head);
        assert(path.last() == name.last());
        assert(name.contains(name.last()));
        assert(head.push(name.last()) =~= name);
    }
}

/// A number in decimal is made of digits, one at least, whose value is the number, and
/// has no zero in front.
pub proof fn decimal_digits_keep_the_value(n: nat)
    ensures
        decimal(n).len() > 0,
        forall|i: int| 0 <= i < decimal(n).len() ==> '0' <= #[trigger] decimal(n)[i] <= '9',
        digits_value(decimal(n)) == n,
        n > 0 ==> decimal(n)[0] != '0',
    decreases n,
{
    reveal_with_fuel(digits_value, 2);
    if n >= 10 {
        decimal_digits_keep_the_value(n / 10);
        assert(decimal(n).drop_last() =~= decimal(n / 10));
        assert forall|i: int| 0 <= i < decimal(n).len() implies '0' <= #[trigger] decimal(n)[i]
            <= '9' by {
            if i < decimal(n / 10).len() {
                assert(decimal(n)[i] == decimal(n / 10)[i]);
            }
        }
    } else {
        assert(decimal(n).drop_last() =~= Seq::empty());
    }
}

/// A number that was printed reads back as the same number: it is all digits, and
/// nothing stands in front of it. A sign in front of it makes no difference.
pub proof fn a_printed_number_reads_back(n: nat)
    requires
        n <= usize::MAX,
    ensures
        parsed_usize(decimal(n)) == Some(n as usize),
        parsed_usize(seq!['+'] + decimal(n)) == Some(n as usize),
        forall|i: int| 0 <= i < decimal(n).len() ==> '0' <= #[trigger] decimal(n)[i] <= '9',
        n > 0 ==> decimal(n)[0] != '0',
{
    decimal_digits_keep_the_value(n);
    assert('0' <= decimal(n)[0] <= '9');
    assert(unsigned_digits(decimal(n)) == decimal(n));
    assert((seq!['+'] + decimal(n)).skip(1) =~= decimal(n));
}

/// A text with anything but digits after an optional sign is no number, and neither is
/// one with no digit at all.
pub proof fn only_digits_make_a_number(s: Seq<char>, i: int)
    requires
        s.len() == 0 || s == seq!['+'] || (0 <= i < s.len() && !('0' <= s[i] <= '9') && !(i == 0
            && s[0] == '+')),
    ensures
        parsed_usize(s) is None,
{
    if s.len() > 0 && s != seq!['+'] {
        let d = unsigned_digits(s);
        if s[0] == '+' {
            assert(d[i - 1] == s[i]);
        }
    } else if s.len() > 0 {
        assert(unsigned_digits(s).len() == 0);
    }
}

proof fn lemma_one_more_digit(s: Seq<char>, d: nat)
    requires
        d < 10,
    ensures
        digits_value(s.push(digit(d))) == digits_value(s) * 10 + d,
{
    assert(s.push(digit(d)).drop_last() =~= s);
}

proof fn lemma_places(n: nat)
    ensures
        10 * (n / 10 % 10) + n % 10 == n % 100,
        100 * (n / 100 % 10) + n % 100 == n % 1000,
{
    assert(n / 10 == 10 * (n / 100) + n / 10 % 10);
    assert(n == 100 * (n / 100) + n % 100);
    assert(n / 100 == 10 * (n / 1000) + n / 100 % 10);
}

/// Padded digits keep the value: two of them that of the last two places.
pub proof fn two_digits_keep_the_value(n: nat)
    ensures
        digits_value(two_digits(n)) == n % 100,
{
    let e = Seq::<char>::empty();
    let (t, u) = (n / 10 % 10, n % 10);
    lemma_one_more_digit(e, t);
    lemma_one_more_digit(e.push(digit(t)), u);
    assert(two_digits(n) =~= e.push(digit(t)).push(digit(u)));
    lemma_places(n);
}

/// Padded digits keep the value: three of them that of the last three places.
pub proof fn three_digits_keep_the_value(n: nat)
    ensures
        digits_value(three_digits(n)) == n % 1000,
{
    let e = Seq::<char>::empty();
    let (h, t, u) = (n / 100 % 10, n / 10 % 10, n % 10);
    lemma_one_more_digit(e, h);
    lemma_one_more_digit(e.push(digit(h)), t);
    lemma_one_more_digit(e.push(digit(h)).push(digit(t)), u);
    assert(three_digits(n) =~= e.push(digit(h)).push(digit(t)).push(digit(u)));
    lemma_places(n);
}

proof fn lemma_hex4_value(n: nat)
    requires
        n < 0x10000,
    ensures
        n == 4096 * (n / 4096 % 16) + 256 * (n / 256 % 16) + 16 * (n / 16 % 16) + n % 16,
{
    assert(n / 16 == 16 * (n / 256) + n / 16 % 16);
    assert(n / 256 == 16 * (n / 4096) + n / 256 % 16);
    assert(n / 4096 < 16);
}

/// Four hexadecimal digits tell any two 16-bit numbers apart.
pub proof fn hex_digits_tell_numbers_apart(a: nat, b: nat)
    requires
        a < 0x10000,
        b < 0x10000,
        hex4(a) == hex4(b),
    ensures
        a == b,
{
    lemma_hex4_value(a);
    lemma_hex4_value(b);
    assert(hex4(a)[0] == hex4(b)[0]);
    assert(hex4(a)[1] == hex4(b)[1]);
    assert(hex4(a)[2] == hex4(b)[2]);
    assert(hex4(a)[3] == hex4(b)[3]);
    lemma_hex_digit_apart(a / 4096 % 16, b / 4096 % 16);
    lemma_hex_digit_apart(a / 256 % 16, b / 256 % 16);
    lemma_hex_digit_apart(a / 16 % 16, b / 16 % 16);
    lemma_hex_digit_apart(a % 16, b % 16);
}

proof fn lemma_hex_digit_apart(a: nat, b: nat)
    requires
        a < 16,
        b < 16,
        hex_digit(a) == hex_digit(b),
    ensures
        a == b,
{
}

/// Each hexadecimal digit is the one that stands at the place of its value.
pub proof fn hex_digits_count_up(d: nat)
    requires
        d < 16,
    ensures
        hex_digit(d) == "0123456789abcdef"@[d as int],
{
    reveal_strlit("0123456789abcdef");
}

/// A text put into a field is still there whole, at the edge it was moved to, and
/// blanks fill the field.
pub proof fn alignment_only_adds_blanks(s: Seq<char>, width: nat)
    ensures
        s.is_suffix_of(right_aligned(s, width)),
        s.is_prefix_of(left_aligned(s, width)),
        right_aligned(s, width).len() == left_aligned(s, width).len() == (if s.len() > width {
            s.len()
        } else {
            width
        }),
        forall|i: int|
            0 <= i < width - s.len() ==> #[trigger] right_aligned(s, width)[i] == ' ',
        forall|i: int|
            s.len() <= i < width ==> #[trigger] left_aligned(s, width)[i] == ' ',
{
    let r = right_aligned(s, width);
    assert(r.subrange(r.len() - s.len(), r.len() as int) =~= s);
    assert(left_aligned(s, width).subrange(0, s.len() as int) =~= s);
}

/// A text is found wherever it stands, and is not found in what is shorter.
pub proof fn a_text_is_found_wherever_it_stands(
    front: Seq<char>,
    needle: Seq<char>,
    back: Seq<char>,
    hay: Seq<char>,
)
    ensures
        occurs(needle, front + needle + back),
        hay.len() < needle.len() ==> !occurs(needle, hay),
{
    let s = front + needle + back;
    let i = front.len() as int;
    assert(s.subrange(i, i + needle.len()) =~= needle);
}

/// Of the characters below 128, the blank and those from the tab to the carriage
/// return are white space.
pub proof fn blanks_and_breaks_are_white_space(c: char)
    requires
        (c as u32) < 128,
    ensures
        white_space(c) <==> c == ' ' || 9 <= c as u32 <= 13,
{
}

proof fn lemma_trim_front(front: Seq<char>, s: Seq<char>)
    requires
        forall|i: int| 0 <= i < front.len() ==> white_space(#[trigger] front[i]),
        s.len() == 0 || !white_space(s[0]),
    ensures
        trim_front(front + s) == s,
    decreases front.len(),
{
    if front.len() == 0 {
        assert(front + s =~= s);
    } else {
        let rest = front.skip(1);
        assert forall|i: int| 0 <= i < rest.len() implies white_space(#[trigger] rest[i]) by {
            assert(rest[i] == front[i + 1]);
        }
        lemma_trim_front(rest, s);
        assert((front + s)[0] == front[0]);
        assert((front + s).skip(1) =~= rest + s);
    }
}

proof fn lemma_trim_back(s: Seq<char>, back: Seq<char>)
    requires
        forall|i: int| 0 <= i < back.len() ==> white_space(#[trigger] back[i]),
        s.len() == 0 || !white_space(s.last()),
    ensures
        trim_back(s + back) == s,
    decreases back.len(),
{
    if back.len() == 0 {
        assert(s + back =~= s);
    } else {
        lemma_trim_back(s, back.drop_last());
        assert((s + back).last() == back[back.len() - 1]);
        assert((s + back).drop_last() =~= s + back.drop_last());
    }
}

/// Trimming takes all white space off both ends and nothing else.
pub proof fn trimming_takes_white_space_off_both_ends(
    front: Seq<char>,
    s: Seq<char>,
    back: Seq<char>,
)
    requires
        forall|i: int| 0 <= i < front.len() ==> white_space(#[trigger] front[i]),
        forall|i: int| 0 <= i < back.len() ==> white_space(#[trigger] back[i]),
        s.len() > 0 ==> !white_space(s[0]) && !white_space(s.last()),
    ensures
        trimmed(front + s + back) == s,
{
    if s.len() > 0 {
        assert(front + s + back =~= front + (s + back));
        assert((s + back)[0] == s[0]);
        lemma_trim_front(front, s + back);
        lemma_trim_back(s, back);
    } else {
        let all = front + s + back;
        assert forall|i: int| 0 <= i < all.len() implies white_space(#[trigger] all[i]) by {
            if i < front.len() {
                assert(all[i] == front[i]);
            } else {
                assert(all[i] == back[i - front.len()]);
            }
        }
        lemma_trim_front(all, s);
        assert(all + s =~= all);
        lemma_trim_back(s, Seq::empty());
        assert(s + Seq::<char>::empty() =~= s);
    }
}

/// The first line of a text is all that comes before its first line break, whichever
/// of the two it is, and the whole text where there is none.
pub proof fn the_first_line_ends_at_the_first_break(line: Seq<char>, rest: Seq<char>)
    requires
        !line.contains('\n'),
        line.len() > 0 ==> line.last() != '\r',
    ensures
        first_line_text(line) == line,
        first_line_text(line + seq!['\n'] + rest) == line,
        first_line_text(line + seq!['\r', '\n'] + rest) == line,
{
    let a = line + seq!['\n'] + rest;
    let n = line.len() as int;
    assert(a[n] == '\n');
    a.index_of_first_ensures('\n');
    assert(a.contains('\n'));
    let k = a.index_of_first('\n')->0;
    if k < n {
        assert(a[k] == line[k]);
        assert(line.contains(line[k]));
    }
    assert(a.take(n) =~= line);
    if n > 0 {
        assert(a[n - 1] == line.last());
    }
    let b = line + seq!['\r', '\n'] + rest;
    assert(b[n + 1] == '\n' && b[n] == '\r');
    b.index_of_first_ensures('\n');
    assert(b.contains('\n'));
    let k = b.index_of_first('\n')->0;
    if k < n {
        assert(b[k] == line[k]);
        assert(line.contains(line[k]));
    }
    assert(b.take(n) =~= line);
}

/// Outside the first 128 characters, white space is the next-line character, the
/// no-break space, and the spaces and separators that Unicode lists as such.
pub proof fn unicode_white_space(c: char)
    requires
        c as u32 >= 128,
    ensures
        white_space(c) <==> c as u32 == 0x85 || c as u32 == 0xa0 || c as u32 == 0x1680 || 0x2000
            <= c as u32 <= 0x200a || c as u32 == 0x2028 || c as u32 == 0x2029 || c as u32 == 0x202f
            || c as u32 == 0x205f || c as u32 == 0x3000,
{
}

/// Bytes that are valid UTF-8 come through as the text they encode, and only then is
/// anything replaced.
pub proof fn valid_bytes_are_kept(bytes: Seq<u8>)
    requires
        valid_utf8(bytes),
    ensures
        encode_utf8(lossy_text(bytes)) == bytes,
{
    decode_utf8_encode_utf8(bytes);
}

/// Joined texts have the separator between each two of them and nowhere else.
pub proof fn separators_stand_between(a: Seq<Seq<char>>, b: Seq<Seq<char>>, sep: Seq<char>)
    requires
        a.len() > 0,
        b.len() > 0,
    ensures
        joined(a + b, sep) == joined(a, sep) + sep + joined(b, sep),
        a.len() == 1 ==> joined(a, sep) == a[0],
    decreases b.len(),
{
    let all = a + b;
    if b.len() == 1 {
        assert(all.drop_last() =~= a);
        assert(all.last() == b[0]);
    } else {
        separators_stand_between(a, b.drop_last(), sep);
        assert(all.drop_last() =~= a + b.drop_last());
        assert(all.last() == b.last());
        assert(joined(a, sep) + sep + joined(b.drop_last(), sep) + sep + b.last() =~= joined(a, sep)
            + sep + (joined(b.drop_last(), sep) + sep + b.last()));
    }
}

/// A digit put behind a number makes it ten times as large and adds its own value.
pub proof fn a_digit_more_is_ten_times_as_much(s: Seq<char>, c: char)
    requires
        '0' <= c <= '9',
    ensures
        digits_value(s.push(c)) == 10 * digits_value(s) + (c as u32 - '0' as u32),
        digits_value(Seq::empty()) == 0,
{
    assert(s.push(c).drop_last() =~= s);
}

} // verus!
