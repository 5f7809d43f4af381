//! Numbers as text.
use vstd::prelude::*;
use vstd::slice::slice_subrange;
use crate::text;

verus! {

/// The decimal digit of a number below ten.
pub open spec fn digit(n: int) -> char {
    ('0' as u32 + n) as char
}

/// A number in decimal, without leading zeros.
pub open spec fn decimal(n: int) -> Seq<char>
    decreases n,
{
    if n < 10 {
        seq![digit(n)]
    } else {
        decimal(n / 10).push(digit(n % 10))
    }
}

/// The decimal digit of a number below ten.
fn digit_char(n: u64) -> (r: char)
    requires
        n < 10,
    ensures
        r == digit(n as int),
{
    (0x30u8 + n as u8) as char
}

/// A number in decimal, without leading zeros.
pub fn to_decimal(n: u64) -> (r: String)
    ensures
        r@ == decimal(n as int),
    decreases n,
{
    if n < 10 {
        let mut s = String::new();
        s.push(digit_char(n));
        assert(s@ =~= seq![digit(n as int)]);
        s
    } else {
        let mut s = to_decimal(n / 10);
        s.push(digit_char(n % 10));
        s
    }
}

/// A text with zeros put before it until it has `width` characters.
pub open spec fn zero_padded(s: Seq<char>, width: int) -> Seq<char> {
    if s.len() < width {
        Seq::new((width - s.len()) as nat, |i: int| '0') + s
    } else {
        s
    }
}

/// A number in decimal with at least `width` digits.
pub fn to_padded_decimal(n: u64, width: usize) -> (r: String)
    ensures
        r@ == zero_padded(decimal(n as int), width as int),
{
    let s = text::chars_of(to_decimal(n).as_str());
    let mut out = String::new();
    let len: usize = s.len();
    if len < width {
        let missing: usize = width - len;
        for i in 0..missing
            invariant
                out@ == Seq::new(i as nat, |k: int| '0'),
        {
            out.push('0');
            assert(out@ =~= Seq::new((i + 1) as nat, |k: int| '0'));
        }
    } else {
        assert(out@ + s@ =~= s@);
    }
    let ghost pad = out@;
    for i in 0..s.len()
        invariant
            out@ == pad + s@.take(i as int),
    {
        out.push(s[i]);
        assert(s@.take(i + 1) =~= s@.take(i as int).push(s@[i as int]));
    }
    assert(s@.take(s@.len() as int) =~= s@);
    out
}

/// Whether a character is a decimal digit.
pub open spec fn is_digit(c: char) -> bool {
    '0' <= c && c <= '9'
}

/// The number that decimal digits write.
pub open spec fn digits_value(s: Seq<char>) -> int
    decreases s.len(),
{
    if s.len() == 0 {
        0
    } else {
        10 * digits_value(s.drop_last()) + (s.last() as u32 - '0' as u32)
    }
}

/// Whether every character is a decimal digit.
pub open spec fn all_digits(s: Seq<char>) -> bool {
    forall|i: int| 0 <= i < s.len() ==> is_digit(#[trigger] s[i])
}

/// The number that a run of decimal digits writes, at least one digit and of a
/// value that 64 bits hold.
pub open spec fn digits_u64(s: Seq<char>) -> Option<u64> {
    if s.len() > 0 && all_digits(s) && digits_value(s) <= u64::MAX {
        Some(digits_value(s) as u64)
    } else {
        None
    }
}

/// The number that a text writes: decimal digits, perhaps behind a plus sign.
pub open spec fn written_u64(s: Seq<char>) -> Option<u64> {
    if s.len() > 0 && s[0] == '+' {
        digits_u64(s.skip(1))
    } else {
        digits_u64(s)
    }
}

proof fn lemma_value_grows(s: Seq<char>, n: int)
    requires
        0 <= n <= s.len(),
        all_digits(s),
    ensures
        0 <= digits_value(s.take(n)) <= digits_value(s),
    decreases s.len(),
{
    if s.len() == 0 {
        assert(s.take(n) =~= s);
    } else if n == s.len() {
        assert(s.take(n) =~= s);
        lemma_value_grows(s.drop_last(), n - 1);
        assert(is_digit(s[s.len() - 1]));
    } else {
        assert(s.drop_last().take(n) =~= s.take(n));
        lemma_value_grows(s.drop_last(), n);
        assert(is_digit(s[s.len() - 1]));
    }
}

/// Reads a run of decimal digits.
fn parse_digits(digits: &[char]) -> (r: Option<u64>)
    ensures
        r == digits_u64(digits@),
{
    let ghost all = digits@;
    if digits.len() == 0 {
        return None;
    }
    for i in 0..digits.len()
        invariant
            digits@ == all,
            forall|k: int| 0 <= k < i ==> is_digit(#[trigger] all[k]),
    {
        if digits[i] < '0' || digits[i] > '9' {
            assert(!is_digit(all[i as int]));
            return None;
        }
    }
    let mut value: u64 = 0;
    for i in 0..digits.len()
        invariant
            digits@ == all,
            all_digits(all),
            value == digits_value(all.take(i as int)),
    {
        let c: char = digits[i];
        assert(is_digit(all[i as int]));
        let d: u64 = (c as u32 - '0' as u32) as u64;
        assert(all.take(i + 1).drop_last() =~= all.take(i as int));
        proof {
            lemma_value_grows(all, i + 1);
        }
        match value.checked_mul(10) {
            None => {
                return None;
            },
            Some(v) => match v.checked_add(d) {
                None => {
                    return None;
                },
                Some(w) => {
                    value = w;
                },
            },
        }
    }
    assert(all.take(all.len() as int) =~= all);
    Some(value)
}

/// Reads a number in decimal.
pub fn parse_u64(s: &str) -> (r: Option<u64>)
    ensures
        r == written_u64(s@),
{
    let chars = text::chars_of(s);
    if chars.len() > 0 && chars[0] == '+' {
        let digits = slice_subrange(&chars, 1, chars.len());
        assert(digits@ =~= s@.skip(1));
        parse_digits(digits)
    } else {
        parse_digits(&chars)
    }
}

/// Writing a number in decimal and reading it gives the number.
pub proof fn law_decimal_round_trip(n: u64)
    ensures
        written_u64(decimal(n as int)) == Some(n),
{
    lemma_decimal(n as int);
    let s = decimal(n as int);
    assert(is_digit(s[0]));
}

/// A number in decimal is digits, at least one, that write the number.
pub proof fn lemma_decimal(n: int)
    requires
        0 <= n,
    ensures
        decimal(n).len() > 0,
        all_digits(decimal(n)),
        digits_value(decimal(n)) == n,
    decreases n,
{
    if n < 10 {
        assert(decimal(n).drop_last() =~= Seq::empty());
        reveal_with_fuel(digits_value, 2);
    } else {
        lemma_decimal(n / 10);
        assert(decimal(n).drop_last() =~= decimal(n / 10));
        assert(decimal(n).last() == digit(n % 10));
        assert forall|i: int| 0 <= i < decimal(n).len() implies is_digit(#[trigger] decimal(n)[i]) by {
            if i < decimal(n / 10).len() {
                assert(decimal(n)[i] == decimal(n / 10)[i]);
            }
        }
    }
}

/// The hexadecimal digit of a number below sixteen, with small letters.
pub open spec fn hex_digit(n: int) -> char {
    if n < 10 {
        digit(n)
    } else {
        ('a' as u32 + n - 10) as char
    }
}

/// The last `width` hexadecimal digits of a number.
pub open spec fn hex(n: int, width: int) -> Seq<char>
    decreases width,
{
    if width <= 0 {
        Seq::empty()
    } else {
        hex(n / 16, width - 1).push(hex_digit(n % 16))
    }
}

/// The last `width` hexadecimal digits of a number.
pub fn to_hex(n: u64, width: usize) -> (r: String)
    ensures
        r@ == hex(n as int, width as int),
    decreases width,
{
    if width == 0 {
        String::new()
    } else {
        let mut s = to_hex(n / 16, width - 1);
        let d: u64 = n % 16;
        if d < 10 {
            s.push(digit_char(d));
        } else {
            s.push((0x61u8 + (d - 10) as u8) as char);
        }
        s
    }
}

/// A number in decimal is its digits from the highest to the lowest: all but the last
/// are those of its tenth, and the last is its remainder.
pub proof fn law_decimal(tens: int, ones: int)
    requires
        0 <= tens,
        0 <= ones < 10,
    ensures
        decimal(ones) == seq!["0123456789"@[ones]],
        tens > 0 ==> decimal(10 * tens + ones) == decimal(tens).push("0123456789"@[ones]),
{
    reveal_strlit("0123456789");
}

/// Zeros are put before a text until it is as wide as asked, and a text that is as
/// wide stays as it is. They leave the number that digits write as it is.
pub proof fn law_zero_padded(s: Seq<char>, width: int)
    requires
        0 <= width,
    ensures
        s.len() <= width ==> zero_padded(s, width).len() == width,
        s.len() >= width ==> zero_padded(s, width) == s,
        zero_padded(s, width).skip(zero_padded(s, width).len() - s.len()) == s,
        forall|i: int|
            0 <= i < width - s.len() ==> #[trigger] zero_padded(s, width)[i] == '0',
        digits_value(zero_padded(s, width)) == digits_value(s),
{
    let z = zero_padded(s, width);
    assert(z.skip(z.len() - s.len()) =~= s);
    if s.len() < width {
        lemma_zeros(s, (width - s.len()) as nat);
    }
}

proof fn lemma_zeros(s: Seq<char>, n: nat)
    ensures
        digits_value(Seq::new(n, |i: int| '0') + s) == digits_value(s),
    decreases n + s.len(),
{
    let zeros = Seq::new(n, |i: int| '0');
    if s.len() > 0 {
        lemma_zeros(s.drop_last(), n);
        assert((zeros + s).drop_last() =~= zeros + s.drop_last());
    } else if n > 0 {
        let fewer = Seq::new((n - 1) as nat, |i: int| '0');
        lemma_zeros(s, (n - 1) as nat);
        assert((zeros + s).drop_last() =~= fewer + s);
        assert((zeros + s).last() == '0');
    } else {
        assert(zeros + s =~= s);
    }
}

/// A text writes a number exactly where it is digits, at least one, perhaps behind a
/// plus sign, of a value that 64 bits hold.
pub proof fn law_written(s: Seq<char>, i: int)
    ensures
        written_u64(Seq::empty()) is None,
        s.len() > 0 && all_digits(s) && digits_value(s) <= 18446744073709551615 ==> {
            &&& written_u64(s) == Some(digits_value(s) as u64)
            &&& written_u64(seq!['+'] + s) == Some(digits_value(s) as u64)
        },
        all_digits(s) && digits_value(s) > 18446744073709551615 ==> written_u64(s) is None,
        0 <= i < s.len() && !('0' <= s[i] && s[i] <= '9') && !(i == 0 && s[i] == '+')
            ==> written_u64(s) is None,
        written_u64(seq!['+']) is None,
{
    let plus = seq!['+'] + s;
    assert(plus.skip(1) =~= s);
    if s.len() > 0 && all_digits(s) {
        assert(is_digit(s[0]));
    }
    if 0 <= i < s.len() && !is_digit(s[i]) && !(i == 0 && s[i] == '+') {
        if s[0] == '+' {
            assert(s.skip(1)[i - 1] == s[i]);
        }
    }
    assert(seq!['+'].skip(1) =~= Seq::<char>::empty());
}

/// Digits write ten times what they write without the last, and the last.
pub proof fn law_digits_value(s: Seq<char>, ones: int)
    requires
        0 <= ones < 10,
    ensures
        digits_value(Seq::empty()) == 0,
        digits_value(s.push("0123456789"@[ones])) == 10 * digits_value(s) + ones,
{
    reveal_strlit("0123456789");
    assert(s.push("0123456789"@[ones]).drop_last() =~= s);
}

/// A number in hexadecimal is its digits from the highest to the lowest: all but the
/// last are those of its sixteenth, and the last is its remainder.
pub proof fn law_hex(high: int, low: int, width: int)
    requires
        0 <= high,
        0 <= low < 16,
        0 <= width,
    ensures
        hex(high, 0) == Seq::<char>::empty(),
        hex(16 * high + low, width + 1) == hex(high, width).push("0123456789abcdef"@[low]),
{
    reveal_strlit("0123456789abcdef");
    assert((16 * high + low) / 16 == high);
    assert((16 * high + low) % 16 == low);
}

} // verus!
