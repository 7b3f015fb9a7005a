//! Small text and byte helpers shared by the other modules.

use vstd::prelude::*;
use vstd::slice::slice_subrange;
use vstd::utf8::*;

verus! {

/// `String::push` appends the given character to the end of the string.
pub assume_specification[ String::push ](s: &mut String, c: char)
    ensures
        final(s)@ == old(s)@.push(c),
;

/// `str::from_utf8` accepts a byte slice exactly when it is valid UTF-8, and
/// then hands it back as the string with those bytes.
#[verifier::external_body]
pub(crate) fn str_from_utf8<'a>(bytes: &'a [u8]) -> (r: Option<&'a str>)
    ensures
        r is Some <==> valid_utf8(bytes@),
        r matches Some(s) ==> s@ == decode_utf8(bytes@) && encode_utf8(s@) == bytes@,
{
    std::str::from_utf8(bytes).ok()
}

/// The lower case of a text that is not all ASCII.
pub uninterp spec fn unicode_lowercase(s: Seq<char>) -> Seq<char>;

/// The lower case of an ASCII letter; any other character itself.
pub open spec fn ascii_lower(c: char) -> char {
    if 'A' <= c <= 'Z' {
        ((c as u32) + 32) as char
    } else {
        c
    }
}

/// A text in lower case.
pub open spec fn lower_text(s: Seq<char>) -> Seq<char> {
    if is_ascii_chars(s) {
        s.map_values(|c: char| ascii_lower(c))
    } else {
        unicode_lowercase(s)
    }
}

/// `str::to_lowercase` gives the Unicode lower case of a text; in ASCII that is
/// one letter for another. What it is beyond ASCII is not stated.
#[verifier::external_body]
pub(crate) fn str_to_lowercase(s: &str) -> (r: String)
    ensures
        r@ == if is_ascii_chars(s@) {
            s@.map_values(|c: char| ascii_lower(c))
        } else {
            unicode_lowercase(s@)
        },
{
    s.to_lowercase()
}

/// The decimal digit that stands for `n`, for `n` below ten.
pub open spec fn digit_char(n: nat) -> char {
    (('0' as nat) + n) as char
}

/// The decimal notation of `n`, without leading zeros.
pub open spec fn dec(n: nat) -> Seq<char>
    decreases n,
{
    if n < 10 {
        seq![digit_char(n)]
    } else {
        dec(n / 10).push(digit_char(n % 10))
    }
}

/// The decimal notation of `n`, with a minus sign when `n` is negative.
pub open spec fn signed_dec(n: int) -> Seq<char> {
    if n < 0 {
        seq!['-'] + dec((-n) as nat)
    } else {
        dec(n as nat)
    }
}

/// The digit character of `n`.
pub fn digit(n: u64) -> (c: char)
    requires
        n < 10,
    ensures
        c == digit_char(n as nat),
{
    (('0' as u8) + (n as u8)) as char
}

/// Appends the decimal notation of `n`.
pub fn push_dec(buf: &mut String, n: u64)
    ensures
        final(buf)@ == old(buf)@ + dec(n as nat),
    decreases n,
{
    if n < 10 {
        buf.push(digit(n));
    } else {
        push_dec(buf, n / 10);
        buf.push(digit(n % 10));
    }
    assert(buf@ =~= old(buf)@ + dec(n as nat));
}

/// Appends the decimal notation of `n` with its sign.
pub fn push_signed(buf: &mut String, n: i64)
    ensures
        final(buf)@ == old(buf)@ + signed_dec(n as int),
{
    if n < 0 {
        buf.push('-');
        let m: u64 = (-(n as i128)) as u64;
        push_dec(buf, m);
        assert(buf@ =~= old(buf)@ + signed_dec(n as int));
    } else {
        push_dec(buf, n as u64);
    }
}

/// The decimal notation of `n` as a string.
pub fn dec_string(n: u64) -> (s: String)
    ensures
        s@ == dec(n as nat),
{
    let mut s = String::new();
    push_dec(&mut s, n);
    assert(s@ =~= dec(n as nat));
    s
}

/// The part of `s` that starts at character `n`.
pub fn rest<'a>(s: &'a str, n: usize) -> (r: &'a str)
    requires
        n <= s@.len(),
    ensures
        r@ == s@.skip(n as int),
{
    let r = s.substring_char(n, s.unicode_len());
    assert(r@ =~= s@.skip(n as int));
    r
}

/// The first `n` characters of `s`.
pub fn front<'a>(s: &'a str, n: usize) -> (r: &'a str)
    requires
        n <= s@.len(),
    ensures
        r@ == s@.take(n as int),
{
    let r = s.substring_char(0, n);
    assert(r@ =~= s@.take(n as int));
    r
}

/// Whether two strings hold the same characters.
pub fn same_str(a: &str, b: &str) -> (r: bool)
    ensures
        r == (a@ == b@),
{
    let x = a.to_owned();
    let y = b.to_owned();
    x == y
}

/// Whether `s` starts with `prefix`.
pub fn has_prefix(s: &str, prefix: &str) -> (r: bool)
    ensures
        r == prefix@.is_prefix_of(s@),
{
    let n = prefix.unicode_len();
    if s.unicode_len() < n {
        return false;
    }
    let head = front(s, n);
    let r = same_str(head, prefix);
    proof {
        if prefix@.is_prefix_of(s@) {
            assert(head@ =~= prefix@);
        }
        if head@ == prefix@ {
            assert(prefix@ =~= s@.subrange(0, prefix@.len() as int));
        }
    }
    r
}

/// Whether `s` holds the character `c`.
pub fn has_char(s: &str, c: char) -> (r: bool)
    ensures
        r == s@.contains(c),
{
    let n = s.unicode_len();
    let mut i: usize = 0;
    while i < n
        invariant
            n == s@.len(),
            i <= n,
            forall|j: int| 0 <= j < i ==> s@[j] != c,
        decreases n - i,
    {
        if s.get_char(i) == c {
            assert(s@[i as int] == c);
            return true;
        }
        i = i + 1;
    }
    false
}

/// Whether a character beyond ASCII is white space.
pub uninterp spec fn unicode_whitespace(c: char) -> bool;

/// Whether a character is white space.
pub open spec fn is_white(c: char) -> bool {
    if (c as u32) < 128 {
        c == ' ' || ('\u{9}' <= c <= '\u{d}')
    } else {
        unicode_whitespace(c)
    }
}

/// `char::is_whitespace` accepts the blanks and line breaks of ASCII and the
/// characters that Unicode calls white space; of the latter nothing is stated
/// but that the character decides.
pub assume_specification[ char::is_whitespace ](c: char) -> (r: bool)
    ensures
        r == if (c as u32) < 128 {
            c == ' ' || ('\u{9}' <= c <= '\u{d}')
        } else {
            unicode_whitespace(c)
        },
;

/// A text without the white space that it starts with.
pub open spec fn trimmed_start(s: Seq<char>) -> Seq<char>
    decreases s.len(),
{
    if s.len() > 0 && is_white(s[0]) {
        trimmed_start(s.skip(1))
    } else {
        s
    }
}

/// A text without the white space that it ends with.
pub open spec fn trimmed_end(s: Seq<char>) -> Seq<char>
    decreases s.len(),
{
    if s.len() > 0 && is_white(s.last()) {
        trimmed_end(s.drop_last())
    } else {
        s
    }
}

/// A text without white space around it.
pub open spec fn trimmed(s: Seq<char>) -> Seq<char> {
    trimmed_end(trimmed_start(s))
}

/// Leaves out the white space around a text.
pub fn trim<'a>(s: &'a str) -> (r: &'a str)
    ensures
        r@ == trimmed(s@),
{
    let mut t = s;
    while t.unicode_len() > 0 && t.get_char(0).is_whitespace()
        invariant
            trimmed_start(t@) == trimmed_start(s@),
        ensures
            t@ == trimmed_start(s@),
        decreases t@.len(),
    {
        t = rest(t, 1);
    }
    let ghost u = t@;
    while t.unicode_len() > 0 && t.get_char(t.unicode_len() - 1).is_whitespace()
        invariant
            trimmed_end(t@) == trimmed_end(u),
        ensures
            t@ == trimmed_end(u),
        decreases t@.len(),
    {
        let n = t.unicode_len();
        let ghost before = t@;
        t = front(t, n - 1);
        assert(t@ =~= before.drop_last());
    }
    t
}

/// The text with another character in place of one.
pub open spec fn replaced(s: Seq<char>, from: char, to: char) -> Seq<char> {
    s.map_values(|c: char| if c == from { to } else { c })
}

/// Puts one character in place of another.
pub fn replace_char(s: &str, from: char, to: char) -> (r: String)
    ensures
        r@ == replaced(s@, from, to),
{
    let n = s.unicode_len();
    let mut r = String::new();
    let mut i: usize = 0;
    while i < n
        invariant
            n == s@.len(),
            i <= n,
            r@ == replaced(s@.take(i as int), from, to),
        decreases n - i,
    {
        let c = s.get_char(i);
        r.push(
            if c == from {
                to
            } else {
                c
            },
        );
        i = i + 1;
        assert(r@ =~= replaced(s@.take(i as int), from, to));
    }
    assert(s@.take(n as int) =~= s@);
    r
}

/// Appends a slice of bytes.
pub fn push_bytes(buf: &mut Vec<u8>, bytes: &[u8])
    ensures
        final(buf)@ == old(buf)@ + bytes@,
{
    let n = bytes.len();
    let mut i: usize = 0;
    while i < n
        invariant
            n == bytes@.len(),
            i <= n,
            buf@ == old(buf)@ + bytes@.take(i as int),
        decreases n - i,
    {
        buf.push(bytes[i]);
        i = i + 1;
        assert(bytes@.take(i as int) =~= bytes@.take(i - 1).push(bytes@[i - 1]));
        assert(buf@ =~= old(buf)@ + bytes@.take(i as int));
    }
    assert(bytes@.take(n as int) =~= bytes@);
}

/// The bytes of `s` from position `n` on.
pub fn bytes_from<'a>(s: &'a [u8], n: usize) -> (r: &'a [u8])
    requires
        n <= s@.len(),
    ensures
        r@ == s@.skip(n as int),
{
    let r = slice_subrange(s, n, s.len());
    assert(r@ =~= s@.skip(n as int));
    r
}

/// The big-endian 16-bit number at position `i`.
pub open spec fn be16(s: Seq<u8>, i: int) -> int {
    s[i] * 256 + s[i + 1]
}

/// The big-endian 16-bit number at position `i`.
pub fn read_be16(s: &[u8], i: usize) -> (n: usize)
    requires
        i + 1 < s@.len(),
    ensures
        n == be16(s@, i as int),
        n < 65536,
{
    (s[i] as usize) * 256 + (s[i + 1] as usize)
}

/// The two big-endian bytes of `n`.
pub open spec fn be_bytes(n: u16) -> Seq<u8> {
    seq![(n / 256) as u8, (n % 256) as u8]
}

/// Appends the two big-endian bytes of `n`.
pub fn push_be16(buf: &mut Vec<u8>, n: u16)
    ensures
        final(buf)@ == old(buf)@ + be_bytes(n),
{
    buf.push((n / 256) as u8);
    buf.push((n % 256) as u8);
    assert(buf@ =~= old(buf)@ + be_bytes(n));
}

/// A number is read back from its big-endian bytes.
pub proof fn lemma_be16_of_bytes(n: u16)
    ensures
        be16(be_bytes(n), 0) == n,
{
}

/// Capital letters of ASCII become small ones, and every other character of
/// ASCII stays as it is.
pub proof fn lemma_lower_case(s: Seq<char>, i: int)
    requires
        is_ascii_chars(s),
        0 <= i < s.len(),
    ensures
        lower_text(s).len() == s.len(),
        'A' <= s[i] && s[i] <= 'Z' ==> lower_text(s)[i] as int == s[i] as int + 32,
        !('A' <= s[i] && s[i] <= 'Z') ==> lower_text(s)[i] == s[i],
        lower_text(lower_text(s)) == lower_text(s),
{
    let t = lower_text(s);
    assert(is_ascii_chars(t)) by {
        assert forall|j: int| 0 <= j < t.len() implies (#[trigger] t[j] as u32) < 128 by {
            assert(t[j] == ascii_lower(s[j]));
        }
    }
    assert(lower_text(t) =~= t) by {
        assert forall|j: int| 0 <= j < t.len() implies #[trigger] lower_text(t)[j] == t[j] by {
            assert(t[j] == ascii_lower(s[j]));
        }
    }
}

proof fn lemma_trimmed_start(space: Seq<char>, s: Seq<char>)
    requires
        forall|i: int| 0 <= i < space.len() ==> is_white(#[trigger] space[i]),
        s.len() > 0 ==> !is_white(s[0]),
    ensures
        trimmed_start(space + s) == s,
    decreases space.len(),
{
    if space.len() == 0 {
        assert(space + s =~= s);
    } else {
        assert((space + s)[0] == space[0]);
        assert((space + s).skip(1) =~= space.skip(1) + s);
        assert forall|i: int| 0 <= i < space.skip(1).len() implies is_white(
            #[trigger] space.skip(1)[i],
        ) by {
            assert(space.skip(1)[i] == space[i + 1]);
        }
        lemma_trimmed_start(space.skip(1), s);
    }
}

proof fn lemma_trimmed_end(s: Seq<char>, space: Seq<char>)
    requires
        forall|i: int| 0 <= i < space.len() ==> is_white(#[trigger] space[i]),
        s.len() > 0 ==> !is_white(s.last()),
    ensures
        trimmed_end(s + space) == s,
    decreases space.len(),
{
    if space.len() == 0 {
        assert(s + space =~= s);
    } else {
        let fewer = space.drop_last();
        assert((s + space).last() == space[space.len() - 1]);
        assert((s + space).drop_last() =~= s + fewer);
        assert forall|i: int| 0 <= i < fewer.len() implies is_white(#[trigger] fewer[i]) by {
            assert(fewer[i] == space[i]);
        }
        lemma_trimmed_end(s, fewer);
    }
}

/// White space around a text is left out, and nothing else of it.
pub proof fn lemma_white_space_is_left_out(before: Seq<char>, s: Seq<char>, after: Seq<char>)
    requires
        forall|i: int| 0 <= i < before.len() ==> is_white(#[trigger] before[i]),
        forall|i: int| 0 <= i < after.len() ==> is_white(#[trigger] after[i]),
        s.len() > 0,
        !is_white(s[0]),
        !is_white(s.last()),
    ensures
        trimmed(before + (s + after)) == s,
        trimmed(s) == s,
{
    assert((s + after)[0] == s[0]);
    lemma_trimmed_start(before, s + after);
    lemma_trimmed_end(s, after);
    lemma_trimmed_start(Seq::empty(), s);
    lemma_trimmed_end(s, Seq::empty());
    assert(Seq::<char>::empty() + s =~= s);
    assert(s + Seq::<char>::empty() =~= s);
}

/// A number is written with its higher byte first.
pub proof fn lemma_higher_byte_first(high: u8, low: u8)
    ensures
        be_bytes((high * 256 + low) as u16) == seq![high, low],
        be16(seq![high, low], 0) == high * 256 + low,
{
    let n = (high * 256 + low) as u16;
    assert(n / 256 == high && n % 256 == low);
}

/// A negative number is written with a minus sign before its size.
pub proof fn lemma_sign(n: nat)
    requires
        n > 0,
    ensures
        signed_dec(-(n as int)) == seq!['-'] + dec(n),
        signed_dec(n as int) == dec(n),
{
}

} // verus!
