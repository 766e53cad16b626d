//! Decimal numbers as text.
use crate::text::chars_of;
use vstd::prelude::*;
use vstd::string::*;

verus! {

/// The digit of a number below ten.
pub open spec fn digit(d: int) -> char {
    (48 + d) as char
}

/// The decimal digits of a number.
pub open spec fn decimal(n: nat) -> Seq<char>
    decreases n,
{
    if n < 10 {
        seq![digit(n as int)]
    } else {
        decimal(n / 10).push(digit((n % 10) as int))
    }
}

/// An integer in decimal, with its sign if it is negative.
pub open spec fn decimal_int(i: int) -> Seq<char> {
    if i < 0 {
        seq!['-'] + decimal((-i) as nat)
    } else {
        decimal(i as nat)
    }
}

/// A number in decimal, with zeros before it up to the width.
pub open spec fn padded(n: nat, width: nat) -> Seq<char> {
    let d = decimal(n);
    if d.len() < width {
        Seq::new((width - d.len()) as nat, |i: int| '0') + d
    } else {
        d
    }
}

/// The character is one of `0` to `9`.
pub open spec fn is_digit(c: char) -> bool {
    '0' <= c <= '9'
}

/// Every character is one of `0` to `9`.
pub open spec fn all_digits(s: Seq<char>) -> bool {
    forall|i: int| 0 <= i < s.len() ==> is_digit(#[trigger] s[i])
}

/// The number that decimal digits stand for.
pub open spec fn value(s: Seq<char>) -> nat
    decreases s.len(),
{
    if s.len() == 0 {
        0
    } else {
        10 * value(s.drop_last()) + (s.last() as nat - 48) as nat
    }
}

/// The integer that a text stands for: an optional sign, then one digit or more, for an integer
/// between `low` and `high`; a minus sign is read only where `low` is negative.
pub open spec fn parse_int(s: Seq<char>, low: int, high: int) -> Option<int> {
    let negative = s.len() > 0 && s[0] == '-' && low < 0;
    let digits = if negative || (s.len() > 0 && s[0] == '+') {
        s.skip(1)
    } else {
        s
    };
    let v = if negative {
        -(value(digits) as int)
    } else {
        value(digits) as int
    };
    if digits.len() > 0 && all_digits(digits) && low <= v <= high {
        Some(v)
    } else {
        None
    }
}

/// The digits of a number are digits, and stand for that number.
pub proof fn lemma_decimal(n: nat)
    ensures
        decimal(n).len() > 0,
        all_digits(decimal(n)),
        value(decimal(n)) == n,
    decreases n,
{
    if n < 10 {
        reveal_with_fuel(value, 2);
        assert(decimal(n).drop_last() == Seq::<char>::empty());
        assert(decimal(n).last() == digit(n as int));
    } else {
        lemma_decimal(n / 10);
        assert(decimal(n).drop_last() == decimal(n / 10));
        assert(decimal(n).last() == digit((n % 10) as int));
    }
}

/// Reading back the decimal text of an integer gives the integer.
pub proof fn lemma_parse_decimal_int(i: int, low: int, high: int)
    requires
        low <= i <= high,
    ensures
        parse_int(decimal_int(i), low, high) == Some(i),
{
    let s = decimal_int(i);
    if i < 0 {
        lemma_decimal((-i) as nat);
        assert(s.skip(1) == decimal((-i) as nat));
    } else {
        lemma_decimal(i as nat);
        assert(is_digit(s[0]));
    }
}

/// More digits stand for a number at least as great.
pub proof fn lemma_value_prefix(s: Seq<char>, k: int)
    requires
        0 <= k <= s.len(),
    ensures
        value(s.take(k)) <= value(s),
    decreases s.len() - k,
{
    if k < s.len() {
        lemma_value_prefix(s, k + 1);
        assert(s.take(k + 1).drop_last() == s.take(k));
    } else {
        assert(s.take(k) == s);
    }
}

/// Padding keeps the number and makes the text as long as the width.
pub proof fn lemma_padded(n: nat, width: nat)
    ensures
        padded(n, width).len() >= width,
        all_digits(padded(n, width)),
        value(padded(n, width)) == n,
        decimal(n).len() <= width ==> padded(n, width).len() == width,
{
    lemma_decimal(n);
    let d = decimal(n);
    if d.len() < width {
        let z = Seq::new((width - d.len()) as nat, |i: int| '0');
        lemma_value_zeros(z, d);
    }
}

proof fn lemma_value_zeros(z: Seq<char>, d: Seq<char>)
    requires
        forall|i: int| 0 <= i < z.len() ==> z[i] == '0',
    ensures
        value(z + d) == value(d),
    decreases d.len(), z.len(),
{
    if d.len() > 0 {
        assert((z + d).drop_last() == z + d.drop_last());
        lemma_value_zeros(z, d.drop_last());
    } else if z.len() > 0 {
        assert((z + d).drop_last() == z.drop_last() + d);
        lemma_value_zeros(z.drop_last(), d);
    } else {
        assert(z + d == d);
    }
}

/// Numbers below a hundred take at most two digits, and so on.
pub proof fn lemma_decimal_len(n: nat)
    ensures
        n < 100 ==> decimal(n).len() <= 2,
        n < 10000 ==> decimal(n).len() <= 4,
        n < 1000000 ==> decimal(n).len() <= 6,
{
    reveal_with_fuel(decimal, 7);
}

/// The decimal digits of a number.
pub fn decimal_text(n: u128) -> (r: String)
    ensures
        r@ == decimal(n as nat),
    decreases n,
{
    if n < 10 {
        let mut r = String::new();
        r.push((48u8 + n as u8) as char);
        assert(r@ == decimal(n as nat));
        r
    } else {
        let mut r = decimal_text(n / 10);
        r.push((48u8 + (n % 10) as u8) as char);
        r
    }
}

/// An integer in decimal, with its sign if it is negative.
pub fn decimal_int_text(i: i64) -> (r: String)
    ensures
        r@ == decimal_int(i as int),
{
    if i < 0 {
        let magnitude: u128 = (-(i as i128)) as u128;
        let mut r = String::new();
        r.push('-');
        let d = decimal_text(magnitude);
        r.append(d.as_str());
        assert(r@ == decimal_int(i as int));
        r
    } else {
        decimal_text(i as u128)
    }
}

/// A number in decimal, with zeros before it up to the width.
pub fn padded_text(n: u128, width: usize) -> (r: String)
    ensures
        r@ == padded(n as nat, width as nat),
{
    let d = decimal_text(n);
    let len = d.as_str().unicode_len();
    let mut r = String::new();
    let mut i: usize = len;
    while i < width
        invariant
            len == d@.len(),
            len <= i,
            i <= width || i == len,
            r@ == Seq::new((i - len) as nat, |j: int| '0'),
        decreases width - i,
    {
        r.push('0');
        assert(r@ == Seq::new((i + 1 - len) as nat, |j: int| '0'));
        i += 1;
    }
    r.append(d.as_str());
    assert(r@ == padded(n as nat, width as nat));
    r
}

/// The number that the digits `chars[from..]` stand for, if there are any, all are digits, and
/// the number is at most `high`.
fn parse_digits(chars: &[char], from: usize, high: u64) -> (r: Option<u64>)
    requires
        from <= chars@.len(),
    ensures
        match r {
            Some(n) => {
                &&& chars@.skip(from as int).len() > 0
                &&& all_digits(chars@.skip(from as int))
                &&& n == value(chars@.skip(from as int))
                &&& n <= high
            },
            None => {
                ||| chars@.skip(from as int).len() == 0
                ||| !all_digits(chars@.skip(from as int))
                ||| value(chars@.skip(from as int)) > high
            },
        },
{
    let n = chars.len();
    let ghost s = chars@.skip(from as int);
    if from == n {
        return None;
    }
    let mut acc: u128 = 0;
    let mut i: usize = from;
    while i < n
        invariant
            n == chars@.len(),
            from <= i <= n,
            s == chars@.skip(from as int),
            all_digits(s.take(i - from)),
            acc == value(s.take(i - from)),
            acc <= high,
        decreases n - i,
    {
        let c = chars[i];
        assert(s[i - from] == c);
        if !('0' <= c && c <= '9') {
            assert(!is_digit(s[i - from]));
            return None;
        }
        assert(s.take(i + 1 - from).drop_last() == s.take(i - from));
        acc = acc * 10 + (c as u32 - 48) as u128;
        assert forall|j: int| 0 <= j < i + 1 - from implies is_digit(#[trigger] s.take(i + 1 - from)[j]) by {
            if j < i - from {
                assert(is_digit(s.take(i - from)[j]));
            }
        }
        if acc > high as u128 {
            proof {
                lemma_value_prefix(s, i + 1 - from);
            }
            return None;
        }
        i += 1;
    }
    assert(s.take(i - from) == s);
    Some(acc as u64)
}

/// The unsigned integer that a text stands for.
pub fn parse_u64(s: &str) -> (r: Option<u64>)
    ensures
        match r {
            Some(n) => parse_int(s@, 0, u64::MAX as int) == Some(n as int),
            None => parse_int(s@, 0, u64::MAX as int) is None,
        },
{
    let chars = chars_of(s);
    assert(s@.skip(0) == s@);
    if chars.len() > 0 && chars[0] == '+' {
        parse_digits(chars.as_slice(), 1, u64::MAX)
    } else {
        parse_digits(chars.as_slice(), 0, u64::MAX)
    }
}

/// The signed integer that a text stands for.
pub fn parse_i64(s: &str) -> (r: Option<i64>)
    ensures
        match r {
            Some(n) => parse_int(s@, i64::MIN as int, i64::MAX as int) == Some(n as int),
            None => parse_int(s@, i64::MIN as int, i64::MAX as int) is None,
        },
{
    let chars = chars_of(s);
    assert(s@.skip(0) == s@);
    if chars.len() > 0 && chars[0] == '-' {
        match parse_digits(chars.as_slice(), 1, 0x8000_0000_0000_0000) {
            Some(n) => Some((-(n as i128)) as i64),
            None => None,
        }
    } else {
        let from: usize = if chars.len() > 0 && chars[0] == '+' {
            1
        } else {
            0
        };
        match parse_digits(chars.as_slice(), from, 0x7fff_ffff_ffff_ffff) {
            Some(n) => Some(n as i64),
            None => None,
        }
    }
}

} // verus!
