//! Numbers in text.

use crate::text::{rest, same_str};
use vstd::prelude::*;

verus! {

/// The value of a digit in bases up to sixteen.
pub open spec fn digit_value(c: char, radix: nat) -> Option<nat> {
    let v = if '0' <= c <= '9' {
        (c as nat - '0' as nat) as nat
    } else if 'a' <= c <= 'f' {
        (c as nat - 'a' as nat + 10) as nat
    } else if 'A' <= c <= 'F' {
        (c as nat - 'A' as nat + 10) as nat
    } else {
        16
    };
    if v < radix && v < 16 {
        Some(v)
    } else {
        None
    }
}

/// How many digits a text starts with.
pub open spec fn digit_run(s: Seq<char>, radix: nat) -> nat
    decreases s.len(),
{
    if s.len() == 0 || digit_value(s[0], radix) is None {
        0
    } else {
        1 + digit_run(s.skip(1), radix)
    }
}

/// The number that a run of digits stands for.
pub open spec fn digits_value(s: Seq<char>, radix: nat) -> nat
    decreases s.len(),
{
    if s.len() == 0 {
        0
    } else {
        digits_value(s.drop_last(), radix) * radix + digit_value(s.last(), radix).unwrap_or(0)
    }
}

/// The number that a text starts with: how many digits it has and its value,
/// where there is a digit and the value is no larger than `limit`.
pub open spec fn number_at(s: Seq<char>, radix: nat, limit: nat) -> Option<(nat, nat)> {
    let n = digit_run(s, radix);
    let v = digits_value(s.take(n as int), radix);
    if n == 0 || v > limit {
        None
    } else {
        Some((n, v))
    }
}

/// The run of digits ends at the first character that is none.
pub proof fn lemma_digit_run(s: Seq<char>, radix: nat)
    ensures
        digit_run(s, radix) <= s.len(),
        forall|i: int|
            0 <= i < digit_run(s, radix) ==> digit_value(#[trigger] s[i], radix) is Some,
        digit_run(s, radix) < s.len() ==> digit_value(
            s[digit_run(s, radix) as int],
            radix,
        ) is None,
    decreases s.len(),
{
    if s.len() > 0 && digit_value(s[0], radix) is Some {
        lemma_digit_run(s.skip(1), radix);
        assert forall|i: int| 0 <= i < digit_run(s, radix) implies digit_value(
            #[trigger] s[i],
            radix,
        ) is Some by {
            if i > 0 {
                assert(s[i] == s.skip(1)[i - 1]);
            }
        }
    }
}

/// A prefix of digits that no digit follows is the whole run.
pub proof fn lemma_digit_run_is(s: Seq<char>, radix: nat, n: nat)
    requires
        n <= s.len(),
        forall|i: int| 0 <= i < n ==> digit_value(#[trigger] s[i], radix) is Some,
        n < s.len() ==> digit_value(s[n as int], radix) is None,
    ensures
        digit_run(s, radix) == n,
{
    lemma_digit_run(s, radix);
    let m = digit_run(s, radix);
    if m < n {
        assert(digit_value(s[m as int], radix) is Some);
    }
    if n < m {
        assert(digit_value(s[n as int], radix) is Some);
    }
}

proof fn lemma_longer_is_larger(s: Seq<char>, radix: nat, n: int, m: int)
    requires
        0 <= n <= m <= s.len(),
        radix >= 1,
    ensures
        digits_value(s.take(n), radix) <= digits_value(s.take(m), radix),
    decreases m - n,
{
    if n < m {
        lemma_longer_is_larger(s, radix, n, m - 1);
        assert(s.take(m).drop_last() =~= s.take(m - 1));
        let v = digits_value(s.take(m - 1), radix);
        assert(v <= v * radix) by (nonlinear_arith)
            requires
                radix >= 1,
        ;
    }
}

/// The value of one digit.
pub fn digit_of(c: char, radix: u64) -> (r: Option<u64>)
    ensures
        match digit_value(c, radix as nat) {
            Some(v) => r == Some(v as u64) && v < 16,
            None => r is None,
        },
{
    let v: u64 = if '0' <= c && c <= '9' {
        (c as u64) - ('0' as u64)
    } else if 'a' <= c && c <= 'f' {
        (c as u64) - ('a' as u64) + 10
    } else if 'A' <= c && c <= 'F' {
        (c as u64) - ('A' as u64) + 10
    } else {
        16
    };
    if v < radix && v < 16 {
        Some(v)
    } else {
        None
    }
}

/// Reads the number that `s` starts with, up to `limit`.
pub fn read_number(s: &str, radix: u64, limit: u64) -> (r: Option<(usize, u64)>)
    requires
        2 <= radix <= 16,
    ensures
        match number_at(s@, radix as nat, limit as nat) {
            Some((n, v)) => r matches Some((m, w)) && m == n && w == v && n <= s@.len() && v <= limit,
            None => r is None,
        },
{
    let len = s.unicode_len();
    let mut value: u64 = 0;
    let mut i: usize = 0;
    proof {
        lemma_digit_run(s@, radix as nat);
        assert(s@.take(0) =~= Seq::<char>::empty());
    }
    while i < len
        invariant
            len == s@.len(),
            i <= len,
            2 <= radix <= 16,
            value <= limit,
            value == digits_value(s@.take(i as int), radix as nat),
            forall|j: int| 0 <= j < i ==> digit_value(#[trigger] s@[j], radix as nat) is Some,
            digit_run(s@, radix as nat) <= s@.len(),
            forall|j: int|
                0 <= j < digit_run(s@, radix as nat) ==> digit_value(
                    #[trigger] s@[j],
                    radix as nat,
                ) is Some,
            digit_run(s@, radix as nat) < s@.len() ==> digit_value(
                s@[digit_run(s@, radix as nat) as int],
                radix as nat,
            ) is None,
        decreases len - i,
    {
        match digit_of(s.get_char(i), radix) {
            None => {
                proof {
                    lemma_digit_run_is(s@, radix as nat, i as nat);
                }
                return if i == 0 {
                    None
                } else {
                    Some((i, value))
                };
            },
            Some(d) => {
                assert(value * radix <= u64::MAX * 16) by (nonlinear_arith)
                    requires
                        value <= u64::MAX,
                        radix <= 16,
                ;
                let next: u128 = (value as u128) * (radix as u128) + (d as u128);
                proof {
                    assert(s@.take(i + 1).drop_last() =~= s@.take(i as int));
                    assert(s@.take(i + 1).last() == s@[i as int]);
                }
                if next > (limit as u128) {
                    proof {
                        let n = digit_run(s@, radix as nat);
                        if n <= i {
                            assert(digit_value(s@[n as int], radix as nat) is Some);
                        }
                        lemma_longer_is_larger(s@, radix as nat, i + 1, n as int);
                    }
                    return None;
                }
                value = next as u64;
            },
        }
        i = i + 1;
    }
    proof {
        lemma_digit_run_is(s@, radix as nat, len as nat);
    }
    if len == 0 {
        None
    } else {
        Some((len, value))
    }
}

/// A text that is nothing but an unsigned number up to `limit`, with or without
/// a plus sign.
pub open spec fn unsigned_text(s: Seq<char>, limit: nat) -> Option<nat> {
    let t = if s.len() > 0 && s[0] == '+' {
        s.skip(1)
    } else {
        s
    };
    match number_at(t, 10, limit) {
        Some((n, v)) => if n == t.len() {
            Some(v)
        } else {
            None
        },
        None => None,
    }
}

/// A text that is nothing but a 32-bit signed number, with or without a sign.
pub open spec fn signed_text(s: Seq<char>) -> Option<int> {
    if s.len() > 0 && s[0] == '-' {
        match number_at(s.skip(1), 10, 0x8000_0000) {
            Some((n, v)) => if n == s.len() - 1 {
                Some(-v)
            } else {
                None
            },
            None => None,
        }
    } else {
        match unsigned_text(s, 0x7fff_ffff) {
            Some(v) => Some(v as int),
            None => None,
        }
    }
}

/// A text that is nothing but a truth value.
pub open spec fn bool_text(s: Seq<char>) -> Option<bool> {
    if s == "true"@ {
        Some(true)
    } else if s == "false"@ {
        Some(false)
    } else {
        None
    }
}

/// Reads a whole text as an unsigned number up to `limit`.
pub fn parse_unsigned(s: &str, limit: u64) -> (r: Option<u64>)
    ensures
        match unsigned_text(s@, limit as nat) {
            Some(v) => r == Some(v as u64) && v <= limit,
            None => r is None,
        },
{
    let t = if s.unicode_len() > 0 && s.get_char(0) == '+' {
        rest(s, 1)
    } else {
        s
    };
    match read_number(t, 10, limit) {
        Some((n, v)) => if n == t.unicode_len() {
            Some(v)
        } else {
            None
        },
        None => None,
    }
}

/// Reads a whole text as a 32-bit signed number.
pub fn parse_i32(s: &str) -> (r: Option<i32>)
    ensures
        match signed_text(s@) {
            Some(v) => r == Some(v as i32) && i32::MIN <= v <= i32::MAX,
            None => r is None,
        },
{
    if s.unicode_len() > 0 && s.get_char(0) == '-' {
        let t = rest(s, 1);
        match read_number(t, 10, 0x8000_0000) {
            Some((n, v)) => if n == t.unicode_len() {
                Some((-(v as i64)) as i32)
            } else {
                None
            },
            None => None,
        }
    } else {
        match parse_unsigned(s, 0x7fff_ffff) {
            Some(v) => Some(v as i32),
            None => None,
        }
    }
}

/// Reads a whole text as a truth value.
pub fn parse_bool(s: &str) -> (r: Option<bool>)
    ensures
        r == bool_text(s@),
{
    if same_str(s, "true") {
        Some(true)
    } else if same_str(s, "false") {
        proof {
            reveal_strlit("true");
            reveal_strlit("false");
        }
        Some(false)
    } else {
        None
    }
}

/// The decimal notation of a number is made of digits that spell it.
pub proof fn lemma_dec_digits(n: nat)
    ensures
        crate::text::dec(n).len() > 0,
        forall|i: int|
            0 <= i < crate::text::dec(n).len() ==> digit_value(
                #[trigger] crate::text::dec(n)[i],
                10,
            ) is Some,
        digits_value(crate::text::dec(n), 10) == n,
    decreases n,
{
    let s = crate::text::dec(n);
    reveal_with_fuel(digits_value, 2);
    if n < 10 {
        assert(s.drop_last() =~= Seq::<char>::empty());
        assert(s.last() == crate::text::digit_char(n));
    } else {
        lemma_dec_digits(n / 10);
        assert(s.drop_last() =~= crate::text::dec(n / 10));
        assert(s.last() == crate::text::digit_char(n % 10));
        assert forall|i: int| 0 <= i < s.len() implies digit_value(#[trigger] s[i], 10) is Some by {
            if i < s.len() - 1 {
                assert(s[i] == crate::text::dec(n / 10)[i]);
            }
        }
    }
}

/// A number is read back from its decimal notation, whatever follows it.
pub proof fn lemma_number_read_back(n: nat, tail: Seq<char>, limit: nat)
    requires
        n <= limit,
        tail.len() > 0 ==> digit_value(tail[0], 10) is None,
    ensures
        number_at(crate::text::dec(n) + tail, 10, limit) == Some((crate::text::dec(n).len(), n)),
{
    let digits = crate::text::dec(n);
    let s = digits + tail;
    lemma_dec_digits(n);
    assert forall|i: int| 0 <= i < digits.len() implies digit_value(#[trigger] s[i], 10) is Some by {
        assert(s[i] == digits[i]);
    }
    lemma_digit_run_is(s, 10, digits.len());
    assert(s.take(digits.len() as int) =~= digits);
}

/// What spells a number, with or without a plus sign, is read as that number
/// where it is no larger than the limit, and not at all where it is larger.
pub proof fn lemma_unsigned_read_back(n: nat, limit: nat)
    ensures
        n <= limit ==> unsigned_text(crate::text::dec(n), limit) == Some(n),
        n <= limit ==> unsigned_text(seq!['+'] + crate::text::dec(n), limit) == Some(n),
        n > limit ==> unsigned_text(crate::text::dec(n), limit) is None,
        unsigned_text(seq!['-'] + crate::text::dec(n), limit) is None,
        unsigned_text(Seq::empty(), limit) is None,
{
    let digits = crate::text::dec(n);
    lemma_dec_digits(n);
    assert(digit_value(digits[0], 10) is Some);
    assert((seq!['+'] + digits).skip(1) =~= digits);
    assert(digits + Seq::<char>::empty() =~= digits);
    lemma_digit_run_is(digits, 10, digits.len());
    assert(digits.take(digits.len() as int) =~= digits);
    assert(digit_value((seq!['-'] + digits)[0], 10) is None);
}

/// A text with a character that is no digit, but for a plus sign before the
/// others, is no number.
pub proof fn lemma_only_digits_are_read(s: Seq<char>, i: int, limit: nat)
    requires
        0 <= i < s.len(),
        !('0' <= s[i] && s[i] <= '9'),
        i > 0 || s[i] != '+',
    ensures
        unsigned_text(s, limit) is None,
{
    let t = if s[0] == '+' {
        s.skip(1)
    } else {
        s
    };
    let k = if s[0] == '+' {
        i - 1
    } else {
        i
    };
    if k >= 0 {
        assert(t[k] == s[i]);
        lemma_digit_run(t, 10);
        if digit_run(t, 10) == t.len() {
            assert(digit_value(t[k], 10) is Some);
        }
    }
}

/// A number is read back from its notation with a minus sign where it is
/// negative, as far as 32 bits hold it; a larger one is not read.
pub proof fn lemma_signed_read_back(n: int)
    ensures
        i32::MIN <= n <= i32::MAX ==> signed_text(crate::text::signed_dec(n)) == Some(n),
        !(i32::MIN <= n <= i32::MAX) ==> signed_text(crate::text::signed_dec(n)) is None,
{
    if n < 0 {
        let digits = crate::text::dec((-n) as nat);
        let s = seq!['-'] + digits;
        assert(s.skip(1) =~= digits);
        lemma_dec_digits((-n) as nat);
        lemma_digit_run_is(digits, 10, digits.len());
        assert(digits.take(digits.len() as int) =~= digits);
    } else {
        lemma_unsigned_read_back(n as nat, 0x7fff_ffff);
        lemma_dec_digits(n as nat);
    }
}

/// Only two words are truth values.
pub proof fn lemma_truth_values(s: Seq<char>)
    ensures
        bool_text(s) == Some(true) <==> s == seq!['t', 'r', 'u', 'e'],
        bool_text(s) == Some(false) <==> s == seq!['f', 'a', 'l', 's', 'e'],
{
    reveal_strlit("true");
    reveal_strlit("false");
    assert("true"@ =~= seq!['t', 'r', 'u', 'e']);
    assert("false"@ =~= seq!['f', 'a', 'l', 's', 'e']);
}

/// The digits of a base are those of the decimal system and behind them letters,
/// small or capital ones.
pub proof fn lemma_digits_of_base(c: char)
    ensures
        '0' <= c && c <= '9' ==> digit_value(c, 10) == Some((c as int - '0' as int) as nat)
            && digit_value(c, 16) == Some((c as int - '0' as int) as nat),
        'a' <= c && c <= 'f' ==> digit_value(c, 16) == Some((c as int - 'a' as int + 10) as nat),
        'A' <= c && c <= 'F' ==> digit_value(c, 16) == Some((c as int - 'A' as int + 10) as nat),
        !('0' <= c && c <= '9') ==> digit_value(c, 10) is None,
        !('0' <= c && c <= '9') && !('a' <= c && c <= 'f') && !('A' <= c && c <= 'F')
            ==> digit_value(c, 16) is None,
{
}

} // verus!
