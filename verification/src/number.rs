//! Decimal integers in text: reading them as `str::parse` does for the
//! integer types, and writing them as `to_string` does.
use vstd::prelude::*;

verus! {

pub open spec fn is_digit(c: char) -> bool {
    '0' <= c && c <= '9'
}

pub open spec fn digit_value(c: char) -> int {
    c as int - '0' as int
}

pub open spec fn all_digits(s: Seq<char>) -> bool {
    forall|i: int| 0 <= i < s.len() ==> is_digit(#[trigger] s[i])
}

/// The number that a string of decimal digits denotes.
pub open spec fn digits_value(s: Seq<char>) -> int
    decreases s.len(),
{
    if s.len() == 0 {
        0
    } else {
        digits_value(s.drop_last()) * 10 + digit_value(s.last())
    }
}

/// What `str::parse` gives for an integer type whose values run from `min`
/// to `max`: an optional `+` (or `-` where the type is signed), then one or
/// more decimal digits, denoting a value in range; anything else fails.
pub open spec fn parse_int(s: Seq<char>, min: int, max: int) -> Option<int> {
    if s.len() == 0 {
        None
    } else {
        let neg = s[0] == '-' && min < 0;
        let digits = if s[0] == '+' || neg {
            s.skip(1)
        } else {
            s
        };
        if digits.len() == 0 || !all_digits(digits) {
            None
        } else {
            let v = if neg {
                -digits_value(digits)
            } else {
                digits_value(digits)
            };
            if min <= v && v <= max {
                Some(v)
            } else {
                None
            }
        }
    }
}

pub open spec fn parse_i64_spec(s: Seq<char>) -> Option<int> {
    parse_int(s, i64::MIN as int, i64::MAX as int)
}

pub open spec fn parse_u32_spec(s: Seq<char>) -> Option<int> {
    parse_int(s, 0, u32::MAX as int)
}

pub open spec fn parse_u64_spec(s: Seq<char>) -> Option<int> {
    parse_int(s, 0, u64::MAX as int)
}

pub open spec fn opt_i64(r: Option<i64>) -> Option<int> {
    match r {
        Some(v) => Some(v as int),
        None => None,
    }
}

pub open spec fn opt_u32(r: Option<u32>) -> Option<int> {
    match r {
        Some(v) => Some(v as int),
        None => None,
    }
}

pub open spec fn opt_u64(r: Option<u64>) -> Option<int> {
    match r {
        Some(v) => Some(v as int),
        None => None,
    }
}

/// The character of a decimal digit.
pub open spec fn digit_char(d: nat) -> char {
    (d + 48) as char
}

/// The decimal digits of `n`, most significant first, with no leading zero.
pub open spec fn decimal(n: nat) -> Seq<char>
    decreases n,
{
    if n < 10 {
        seq![digit_char(n)]
    } else {
        decimal(n / 10).push(digit_char(n % 10))
    }
}

/// `n` written in decimal, with a leading `-` where it is negative.
pub open spec fn decimal_int(n: int) -> Seq<char> {
    if n < 0 {
        seq!['-'] + decimal((-n) as nat)
    } else {
        decimal(n as nat)
    }
}

/// A prefix of a digit string denotes no more than the whole.
pub proof fn lemma_digits_prefix_le(s: Seq<char>, j: int)
    requires
        all_digits(s),
        0 <= j <= s.len(),
    ensures
        digits_value(s.take(j)) <= digits_value(s),
        0 <= digits_value(s.take(j)),
    decreases s.len(),
{
    if s.len() > 0 {
        if j == s.len() {
            assert(s.take(j) =~= s);
            lemma_digits_nonneg(s);
        } else {
            let init = s.drop_last();
            assert(all_digits(init));
            lemma_digits_prefix_le(init, j);
            assert(init.take(j) =~= s.take(j));
            lemma_digits_nonneg(init);
        }
    }
}

pub proof fn lemma_digits_nonneg(s: Seq<char>)
    requires
        all_digits(s),
    ensures
        0 <= digits_value(s),
    decreases s.len(),
{
    if s.len() > 0 {
        let init = s.drop_last();
        assert(all_digits(init));
        lemma_digits_nonneg(init);
    }
}

/// The decimal form of `n` is a non-empty digit string that denotes `n`.
pub proof fn lemma_decimal_digits(n: nat)
    ensures
        decimal(n).len() >= 1,
        all_digits(decimal(n)),
        digits_value(decimal(n)) == n,
    decreases n,
{
    assert(digit_value(digit_char(n % 10)) == n % 10);
    if n < 10 {
        assert(decimal(n).drop_last() =~= Seq::<char>::empty());
    }
    if n >= 10 {
        lemma_decimal_digits(n / 10);
        let d = decimal(n);
        assert(d.drop_last() =~= decimal(n / 10));
        assert(all_digits(d)) by {
            assert forall|i: int| 0 <= i < d.len() implies is_digit(#[trigger] d[i]) by {
                if i < d.len() - 1 {
                    assert(d[i] == decimal(n / 10)[i]);
                }
            }
        }
        assert(d.last() == digit_char(n % 10));
        assert(digits_value(d) == digits_value(decimal(n / 10)) * 10 + digit_value(d.last()));
        assert(n == (n / 10) * 10 + n % 10);
        assert(digits_value(d) == n);
    } else {
        assert(digits_value(decimal(n).drop_last()) == 0);
        assert(digits_value(decimal(n)) == n);
        assert(decimal(n).last() == digit_char(n));
        assert(digit_value(digit_char(n)) == n);
        assert(is_digit(decimal(n)[0]));
    }
}

/// Reading back what `decimal_int` writes gives the number again, for every
/// number that the integer type can hold.
pub proof fn lemma_parse_decimal_roundtrip(n: int, min: int, max: int)
    requires
        min <= n <= max,
        min <= 0,
    ensures
        parse_int(decimal_int(n), min, max) == Some(n),
{
    if n < 0 {
        let m = (-n) as nat;
        lemma_decimal_digits(m);
        let s = decimal_int(n);
        assert(s.skip(1) =~= decimal(m));
    } else {
        lemma_decimal_digits(n as nat);
    }
}

/// What reads as an integer is in range, ends in a digit and has nothing but
/// digits after its first character; a decimal with a leading `+` reads as
/// its number; the empty text reads as nothing.
pub proof fn lemma_parse_int_shape(s: Seq<char>, min: int, max: int, n: nat)
    ensures
        parse_int(s, min, max) matches Some(v) ==> {
            &&& min <= v <= max
            &&& s.len() >= 1
            &&& is_digit(s.last())
            &&& forall|i: int| 1 <= i < s.len() ==> is_digit(#[trigger] s[i])
        },
        (min <= 0 && n <= max) ==> parse_int(seq!['+'] + decimal(n), min, max) == Some(n as int),
        parse_int(Seq::<char>::empty(), min, max) is None,
{
    if parse_int(s, min, max) is Some {
        let neg = s[0] == '-' && min < 0;
        if s[0] == '+' || neg {
            let d = s.skip(1);
            assert(s.last() == d[d.len() - 1]);
            assert forall|i: int| 1 <= i < s.len() implies is_digit(#[trigger] s[i]) by {
                assert(s[i] == d[i - 1]);
            }
        } else {
            assert(s.last() == s[s.len() - 1]);
        }
    }
    if min <= 0 && n <= max {
        lemma_decimal_digits(n);
        let t = seq!['+'] + decimal(n);
        assert(t.skip(1) =~= decimal(n));
        assert(t[0] == '+');
    }
}

/// The value of the digit string that starts at `start` in `s`, where it
/// is all digits and no more than `limit`.
fn parse_magnitude(s: &Vec<char>, start: usize, limit: u64) -> (r: Option<u64>)
    requires
        start <= s.len(),
    ensures
        ({
            let d = s@.skip(start as int);
            match r {
                Some(v) => d.len() > 0 && all_digits(d) && digits_value(d) == v && v <= limit,
                None => d.len() == 0 || !all_digits(d) || digits_value(d) > limit,
            }
        }),
{
    let n = s.len();
    if start == n {
        return None;
    }
    let mut acc: u64 = 0;
    let mut i: usize = start;
    let ghost d = s@.skip(start as int);
    assert(s@.subrange(start as int, start as int) =~= Seq::<char>::empty());
    while i < n
        invariant
            start <= i <= n == s.len(),
            d == s@.skip(start as int),
            all_digits(s@.subrange(start as int, i as int)),
            acc as int == digits_value(s@.subrange(start as int, i as int)),
            acc <= limit,
        decreases n - i,
    {
        let c = s[i];
        if c < '0' || c > '9' {
            assert(d[i - start] == c);
            return None;
        }
        let digit: u64 = (c as u32 - '0' as u32) as u64;
        let next: u128 = acc as u128 * 10 + digit as u128;
        let ghost pre = s@.subrange(start as int, (i + 1) as int);
        assert(pre.drop_last() =~= s@.subrange(start as int, i as int));
        assert(all_digits(pre)) by {
            assert forall|j: int| 0 <= j < pre.len() implies is_digit(#[trigger] pre[j]) by {
                if j < pre.len() - 1 {
                    assert(pre[j] == s@.subrange(start as int, i as int)[j]);
                }
            }
        }
        assert(digits_value(pre) == next);
        if next > limit as u128 {
            assert(pre =~= d.take((i + 1 - start) as int));
            proof {
                if all_digits(d) {
                    lemma_digits_prefix_le(d, (i + 1 - start) as int);
                }
            }
            return None;
        }
        acc = next as u64;
        i = i + 1;
    }
    assert(s@.subrange(start as int, n as int) =~= d);
    Some(acc)
}

/// Reads an `i64` as `str::parse::<i64>` does.
pub fn parse_i64(s: &Vec<char>) -> (r: Option<i64>)
    ensures
        opt_i64(r) == parse_i64_spec(s@),
{
    if s.len() == 0 {
        return None;
    }
    let neg = s[0] == '-';
    let start: usize = if s[0] == '+' || neg {
        1
    } else {
        0
    };
    assert(start == 0 ==> s@.skip(0) =~= s@);
    if neg {
        match parse_magnitude(s, start, 0x8000_0000_0000_0000u64) {
            Some(m) => {
                if m == 0x8000_0000_0000_0000u64 {
                    Some(i64::MIN)
                } else {
                    Some(0i64 - m as i64)
                }
            },
            None => None,
        }
    } else {
        match parse_magnitude(s, start, 0x7fff_ffff_ffff_ffffu64) {
            Some(m) => Some(m as i64),
            None => None,
        }
    }
}

/// Reads a `u32` as `str::parse::<u32>` does.
pub fn parse_u32(s: &Vec<char>) -> (r: Option<u32>)
    ensures
        opt_u32(r) == parse_u32_spec(s@),
{
    if s.len() == 0 {
        return None;
    }
    let start: usize = if s[0] == '+' {
        1
    } else {
        0
    };
    assert(start == 0 ==> s@.skip(0) =~= s@);
    match parse_magnitude(s, start, 0xffff_ffffu64) {
        Some(m) => Some(m as u32),
        None => None,
    }
}

/// Reads a `u64` as `str::parse::<u64>` does.
pub fn parse_u64(s: &Vec<char>) -> (r: Option<u64>)
    ensures
        opt_u64(r) == parse_u64_spec(s@),
{
    if s.len() == 0 {
        return None;
    }
    let start: usize = if s[0] == '+' {
        1
    } else {
        0
    };
    assert(start == 0 ==> s@.skip(0) =~= s@);
    match parse_magnitude(s, start, 0xffff_ffff_ffff_ffffu64) {
        Some(m) => Some(m),
        None => None,
    }
}

fn digit_to_char(d: u64) -> (c: char)
    requires
        d < 10,
    ensures
        c == digit_char(d as nat),
{
    let b: u8 = d as u8 + 48u8;
    b as char
}

fn push_decimal(n: u64, out: &mut Vec<char>)
    ensures
        final(out)@ == old(out)@ + decimal(n as nat),
    decreases n,
{
    if n < 10 {
        out.push(digit_to_char(n));
    } else {
        push_decimal(n / 10, out);
        out.push(digit_to_char(n % 10));
    }
}

/// `n` in decimal, as `u64::to_string` writes it.
pub fn u64_decimal(n: u64) -> (r: Vec<char>)
    ensures
        r@ == decimal(n as nat),
{
    let mut out: Vec<char> = Vec::new();
    push_decimal(n, &mut out);
    assert(out@ =~= decimal(n as nat));
    out
}

/// `n` in decimal, as `i64::to_string` writes it.
pub fn i64_decimal(n: i64) -> (r: Vec<char>)
    ensures
        r@ == decimal_int(n as int),
{
    let mut out: Vec<char> = Vec::new();
    if n < 0 {
        out.push('-');
        let m: u64 = (0i128 - n as i128) as u64;
        push_decimal(m, &mut out);
    } else {
        push_decimal(n as u64, &mut out);
        assert(out@ =~= decimal(n as nat));
    }
    out
}

} // verus!
