//! Decimal numerals, as written in and read from `content-length` headers.

use crate::buffer::bytes_of;
use bytes::BytesMut;
use vstd::prelude::*;

verus! {

/// The ASCII digit for `n` (0 ..= 9).
pub open spec fn ascii_digit(n: int) -> u8 {
    (48 + n) as u8
}

/// The shortest decimal numeral of `n`.
pub open spec fn decimal(n: nat) -> Seq<u8>
    decreases n,
{
    if n < 10 {
        seq![ascii_digit(n as int)]
    } else {
        decimal(n / 10).push(ascii_digit((n % 10) as int))
    }
}

pub open spec fn is_ascii_digit(b: u8) -> bool {
    48 <= b <= 57
}

/// Value of a non-empty run of ASCII digits.
pub open spec fn digits_value(s: Seq<u8>) -> nat
    decreases s.len(),
{
    if s.len() == 0 {
        0
    } else {
        digits_value(s.drop_last()) * 10 + (s.last() - 48) as nat
    }
}

/// The digits of a numeral: the bytes after an optional leading `+`.
pub open spec fn numeral_digits(s: Seq<u8>) -> Seq<u8> {
    if s.len() > 0 && s[0] == 43 {
        s.drop_first()
    } else {
        s
    }
}

pub open spec fn all_digits(s: Seq<u8>) -> bool {
    forall|i: int| 0 <= i < s.len() ==> is_ascii_digit(#[trigger] s[i])
}

/// What `usize::from_str` accepts: an optional `+` and one or more ASCII digits.
pub open spec fn is_unsigned_numeral(s: Seq<u8>) -> bool {
    numeral_digits(s).len() > 0 && all_digits(numeral_digits(s))
}

/// The value of an unsigned numeral (optional `+` dropped).
pub open spec fn numeral_value(s: Seq<u8>) -> nat {
    digits_value(numeral_digits(s))
}

/// What `str::parse::<usize>` gives for the bytes `s`: the value of an
/// unsigned numeral that fits in a `usize`, else nothing.
pub open spec fn parse_usize_spec(s: Seq<u8>) -> Option<usize> {
    if is_unsigned_numeral(s) && numeral_value(s) <= usize::MAX {
        Some(numeral_value(s) as usize)
    } else {
        None
    }
}

/// Appends the decimal numeral of `n` to `buf`.
pub fn push_decimal(buf: &mut BytesMut, n: usize)
    requires
        bytes_of(*old(buf)).len() + 20 <= isize::MAX,
    ensures
        bytes_of(*final(buf)) == bytes_of(*old(buf)) + decimal(n as nat),
        decimal(n as nat).len() <= 20,
    decreases n,
{
    if n >= 10 {
        push_decimal(buf, n / 10);
    }
    let d: [u8; 1] = [48u8 + (n % 10) as u8];
    proof {
        lemma_decimal_len(n as nat);
    }
    buf.extend_from_slice(d.as_slice());
    assert(d@ =~= seq![ascii_digit((n % 10) as int)]);
}

pub proof fn lemma_decimal_len(n: nat)
    requires
        n <= usize::MAX,
    ensures
        1 <= decimal(n).len() <= 20,
{
    reveal_with_fuel(pow10, 21);
    assert(pow10(20) == 100000000000000000000);
    lemma_decimal_pow(n, 20);
}

/// `decimal(n)` has at most `k` digits when `n < 10^k`.
proof fn lemma_decimal_pow(n: nat, k: nat)
    requires
        k >= 1,
        n < pow10(k),
    ensures
        1 <= decimal(n).len() <= k,
    decreases k,
{
    if n >= 10 {
        assert(pow10(k) == 10 * pow10((k - 1) as nat));
        assert(n / 10 < pow10((k - 1) as nat));
        if k > 1 {
            lemma_decimal_pow(n / 10, (k - 1) as nat);
        } else {
            assert(pow10(0) == 1);
        }
    }
}

pub open spec fn pow10(k: nat) -> nat
    decreases k,
{
    if k == 0 {
        1
    } else {
        10 * pow10((k - 1) as nat)
    }
}

/// Reads the bytes `s` as `str::parse::<usize>` would.
pub fn parse_usize(s: &[u8]) -> (v: Option<usize>)
    ensures
        v == parse_usize_spec(s@),
{
    let len = s.len();
    let mut start: usize = 0;
    if len > 0 && s[0] == 43 {
        start = 1;
    }
    let ghost digits = s@.skip(start as int);
    if start >= len {
        return None;
    }
    let mut value: usize = 0;
    let mut i: usize = start;
    while i < len
        invariant
            start <= i <= len,
            len == s@.len(),
            digits == s@.skip(start as int),
            start == 0 || start == 1,
            start == 1 <==> (len > 0 && s@[0] == 43),
            start < len,
            forall|j: int| start <= j < i ==> is_ascii_digit(#[trigger] s@[j]),
            value == digits_value(s@.subrange(start as int, i as int)),
        decreases len - i,
    {
        let b = s[i];
        if b < 48 || b > 57 {
            proof {
                lemma_numeral_digits(s@, start as int);
                assert(digits[i - start] == s@[i as int]);
                assert(!is_ascii_digit(digits[i - start]));
            }
            return None;
        }
        let d: usize = (b - 48) as usize;
        proof {
            assert(s@.subrange(start as int, i + 1).drop_last() =~= s@.subrange(
                start as int,
                i as int,
            ));
        }
        if value > (usize::MAX - d) / 10 {
            proof {
                lemma_numeral_digits(s@, start as int);
                assert(value * 10 + d > usize::MAX) by (nonlinear_arith)
                    requires
                        value > (usize::MAX - d) / 10,
                        d <= 9,
                ;
                if is_unsigned_numeral(s@) {
                    lemma_digits_value_monotone(digits, (i - start + 1) as int);
                    assert(digits.take((i - start + 1) as int) =~= s@.subrange(
                        start as int,
                        i + 1,
                    ));
                }
            }
            return None;
        }
        value = value * 10 + d;
        i = i + 1;
    }
    proof {
        assert(s@.subrange(start as int, len as int) =~= digits);
        lemma_numeral_digits(s@, start as int);
        assert forall|j: int| 0 <= j < digits.len() implies is_ascii_digit(#[trigger] digits[j]) by {
            assert(digits[j] == s@[j + start]);
        }
        assert(all_digits(digits));
    }
    Some(value)
}

proof fn lemma_numeral_digits(s: Seq<u8>, start: int)
    requires
        start == 1 <==> (s.len() > 0 && s[0] == 43),
        start == 0 || start == 1,
    ensures
        numeral_digits(s) == s.skip(start),
{
    if start == 1 {
        assert(s.drop_first() =~= s.skip(1));
    } else {
        assert(s =~= s.skip(0));
    }
}

/// A longer run of digits is worth at least as much as its prefix.
proof fn lemma_digits_value_monotone(s: Seq<u8>, k: int)
    requires
        0 <= k <= s.len(),
        all_digits(s),
    ensures
        digits_value(s.take(k)) <= digits_value(s),
    decreases s.len() - k,
{
    if k < s.len() {
        lemma_digits_value_monotone(s, k + 1);
        assert(s.take(k + 1).drop_last() =~= s.take(k));
    } else {
        assert(s.take(k) =~= s);
    }
}

proof fn lemma_decimal_digits(n: nat)
    ensures
        all_digits(decimal(n)),
        decimal(n).len() >= 1,
        digits_value(decimal(n)) == n,
    decreases n,
{
    if n >= 10 {
        lemma_decimal_digits(n / 10);
        vstd::arithmetic::div_mod::lemma_fundamental_div_mod(n as int, 10);
        let s = decimal(n);
        assert(s.last() == ascii_digit((n % 10) as int));
        assert(s.last() - 48 == n % 10);
        assert(digits_value(s) == digits_value(s.drop_last()) * 10 + (s.last() - 48) as nat);
        assert(s.drop_last() =~= decimal(n / 10));
        assert forall|i: int| 0 <= i < s.len() implies is_ascii_digit(#[trigger] s[i]) by {
            if i < s.len() - 1 {
                assert(s[i] == decimal(n / 10)[i]);
            }
        }
    } else {
        let s = decimal(n);
        assert(s.drop_last() =~= Seq::<u8>::empty());
        assert(digits_value(s.drop_last()) == 0);
        assert(s.last() - 48 == n);
    }
}

/// Reading back a written decimal numeral gives the number that was written:
/// a `content-length` this library writes is the length its reader parses.
pub proof fn lemma_decimal_round_trip(n: usize)
    ensures
        parse_usize_spec(decimal(n as nat)) == Some(n),
{
    lemma_decimal_digits(n as nat);
    let s = decimal(n as nat);
    assert(is_ascii_digit(s[0]));
    assert(numeral_digits(s) == s);
}

/// `z` ASCII zeros.
pub open spec fn zeros(z: nat) -> Seq<u8> {
    Seq::new(z, |i: int| 48u8)
}

proof fn lemma_zeros_value(z: nat, d: Seq<u8>)
    ensures
        digits_value(zeros(z) + d) == digits_value(d),
    decreases d.len(), z,
{
    if d.len() > 0 {
        assert((zeros(z) + d).drop_last() =~= zeros(z) + d.drop_last());
        lemma_zeros_value(z, d.drop_last());
    } else if z > 0 {
        assert((zeros(z) + d).drop_last() =~= zeros((z - 1) as nat) + d);
        lemma_zeros_value((z - 1) as nat, d);
    } else {
        assert(zeros(z) + d =~= Seq::<u8>::empty());
    }
}

/// A `content-length` value may carry a leading `+` and leading zeros: the
/// decimal numeral of `n` reads as `n` with any number of zeros before it,
/// and with a `+` before those.
pub proof fn lemma_numeral_forms(n: usize, z: nat)
    ensures
        parse_usize_spec(zeros(z) + decimal(n as nat)) == Some(n),
        parse_usize_spec(seq![43u8] + zeros(z) + decimal(n as nat)) == Some(n),
{
    lemma_decimal_digits(n as nat);
    lemma_zeros_value(z, decimal(n as nat));
    let a = zeros(z) + decimal(n as nat);
    let b = seq![43u8] + a;
    assert(a.len() > 0);
    assert(a[0] != 43u8) by {
        if z > 0 {
            assert(a[0] == 48u8);
        } else {
            assert(a[0] == decimal(n as nat)[0]);
        }
    }
    assert(numeral_digits(a) == a);
    assert(all_digits(a)) by {
        assert forall|i: int| 0 <= i < a.len() implies is_ascii_digit(#[trigger] a[i]) by {
            if i >= z {
                assert(a[i] == decimal(n as nat)[i - z]);
            }
        }
    }
    assert(b.drop_first() =~= a);
    assert(seq![43u8] + zeros(z) + decimal(n as nat) =~= b);
}

/// What is not a numeral reads as nothing: the empty value, a lone `+`,
/// and any value with a byte other than a digit (a `+` in front aside); so
/// does the numeral of a number beyond `usize`.
pub proof fn lemma_numeral_rejects(s: Seq<u8>, n: nat)
    ensures
        s.len() == 0 ==> parse_usize_spec(s) is None,
        s == seq![43u8] ==> parse_usize_spec(s) is None,
        (exists|i: int| 0 <= i < s.len() && !(48 <= #[trigger] s[i] <= 57) && !(i == 0 && s[i] == 43))
            ==> parse_usize_spec(s) is None,
        n > usize::MAX ==> parse_usize_spec(decimal(n)) is None,
{
    if exists|i: int| 0 <= i < s.len() && !(48 <= #[trigger] s[i] <= 57) && !(i == 0 && s[i] == 43) {
        let i = choose|i: int| 0 <= i < s.len() && !(48 <= #[trigger] s[i] <= 57) && !(i == 0 && s[i]
            == 43);
        if s.len() > 0 && s[0] == 43 {
            assert(numeral_digits(s)[i - 1] == s[i]);
        } else {
            assert(numeral_digits(s)[i] == s[i]);
        }
    }
    if s == seq![43u8] {
        assert(numeral_digits(s).len() == 0);
    }
    lemma_decimal_digits(n);
    if decimal(n).len() > 0 && decimal(n)[0] == 43 {
        assert(is_ascii_digit(decimal(n)[0]));
    }
}

} // verus!
