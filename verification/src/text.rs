//! Text as sequences of characters: numerals, trimming, splitting.
use vstd::prelude::*;

verus! {

/// `String::push`: the character goes behind the text.
pub assume_specification[ std::string::String::push ](s: &mut std::string::String, c: char)
    ensures
        final(s)@ == old(s)@.push(c),
;

/// The character of a digit below sixteen, in lower case.
pub open spec fn digit_char(d: int) -> char {
    if d < 10 {
        (48 + d) as char
    } else {
        (87 + d) as char
    }
}

/// The numeral of `n` in the given base, without leading zeros.
pub open spec fn numeral(n: nat, base: nat) -> Seq<char>
    decreases n,
{
    if n < base || base < 2 {
        seq![digit_char(n as int)]
    } else {
        proof {
            vstd::arithmetic::div_mod::lemma_div_decreases(n as int, base as int);
        }
        numeral(n / base, base).push(digit_char((n % base) as int))
    }
}

/// The decimal numeral of `n`.
pub open spec fn decimal(n: nat) -> Seq<char> {
    numeral(n, 10)
}

/// The hexadecimal numeral of `n`.
pub open spec fn hexadecimal(n: nat) -> Seq<char> {
    numeral(n, 16)
}

/// The decimal numeral of an integer, with a sign only where it is negative.
pub open spec fn signed_decimal(n: int) -> Seq<char> {
    if n < 0 {
        seq!['-'] + decimal((-n) as nat)
    } else {
        decimal(n as nat)
    }
}

fn push_numeral(out: &mut String, n: u64, base: u64)
    requires
        2 <= base <= 16,
    ensures
        final(out)@ == old(out)@ + numeral(n as nat, base as nat),
    decreases n,
{
    if n >= base {
        proof {
            vstd::arithmetic::div_mod::lemma_div_decreases(n as int, base as int);
        }
        push_numeral(out, n / base, base);
    }
    proof {
        vstd::arithmetic::div_mod::lemma_mod_bound(n as int, base as int);
        if n < base {
            vstd::arithmetic::div_mod::lemma_small_mod(n as nat, base as nat);
        }
    }
    let d: u8 = (n % base) as u8;
    let c: char = if d < 10 { (48 + d) as char } else { (87 + d) as char };
    out.push(c);
    assert(out@ =~= old(out)@ + numeral(n as nat, base as nat));
}

/// Appends the decimal numeral of `n`.
pub fn push_decimal(out: &mut String, n: u64)
    ensures
        final(out)@ == old(out)@ + decimal(n as nat),
{
    push_numeral(out, n, 10);
}

/// Appends the hexadecimal numeral of `n`.
pub fn push_hexadecimal(out: &mut String, n: u64)
    ensures
        final(out)@ == old(out)@ + hexadecimal(n as nat),
{
    push_numeral(out, n, 16);
}

/// Appends the decimal numeral of a signed number.
pub fn push_signed_decimal(out: &mut String, n: i32)
    ensures
        final(out)@ == old(out)@ + signed_decimal(n as int),
{
    if n < 0 {
        out.push('-');
        push_decimal(out, (-(n as i64)) as u64);
    } else {
        push_decimal(out, n as u64);
    }
    assert(out@ =~= old(out)@ + signed_decimal(n as int));
}

/// A decimal numeral holds nothing but digits.
pub proof fn decimal_digits(n: nat)
    ensures
        decimal(n).len() > 0,
        forall|i: int| 0 <= i < decimal(n).len() ==> is_digit(#[trigger] decimal(n)[i]),
    decreases n,
{
    if n >= 10 {
        decimal_digits(n / 10);
        let rest = decimal(n / 10);
        assert forall|i: int| 0 <= i < decimal(n).len() implies is_digit(#[trigger] decimal(n)[i]) by {
            if i < rest.len() {
                assert(decimal(n)[i] == rest[i]);
            }
        }
    }
}

/// A decimal numeral stands for the number that it was made of.
pub proof fn decimal_value(n: nat)
    ensures
        digits_value(decimal(n)) == n,
    decreases n,
{
    decimal_digits(n);
    if n >= 10 {
        decimal_value(n / 10);
        assert(decimal(n).drop_last() =~= decimal(n / 10));
    } else {
        reveal_with_fuel(digits_value, 2);
    }
}

/// Different numbers have different decimal numerals.
pub proof fn decimal_tells_apart(a: nat, b: nat)
    requires
        decimal(a) == decimal(b),
    ensures
        a == b,
{
    decimal_value(a);
    decimal_value(b);
}

/// Different integers have different decimal numerals.
pub proof fn signed_decimal_tells_apart(a: int, b: int)
    requires
        signed_decimal(a) == signed_decimal(b),
    ensures
        a == b,
{
    decimal_digits(a as nat);
    decimal_digits(b as nat);
    if a < 0 && b < 0 {
        assert(decimal((-a) as nat) =~= signed_decimal(a).skip(1));
        assert(decimal((-b) as nat) =~= signed_decimal(b).skip(1));
        decimal_tells_apart((-a) as nat, (-b) as nat);
    } else if a >= 0 && b >= 0 {
        decimal_tells_apart(a as nat, b as nat);
    } else if a < 0 {
        assert(signed_decimal(a)[0] == '-');
        assert(is_digit(decimal(b as nat)[0]));
    } else {
        assert(signed_decimal(b)[0] == '-');
        assert(is_digit(decimal(a as nat)[0]));
    }
}

/// Reading the decimal numeral of a number gives the number back, if it is not too large.
pub proof fn number_of_decimal(n: nat, max: nat)
    requires
        n <= max,
    ensures
        number(decimal(n), max) == Ok::<nat, NumberFault>(n),
{
    decimal_digits(n);
    decimal_value(n);
    assert(is_digit(decimal(n)[0]));
}

/// A power of ten.
pub open spec fn ten_to(exponent: nat) -> nat
    decreases exponent,
{
    if exponent == 0 {
        1
    } else {
        10 * ten_to((exponent - 1) as nat)
    }
}

/// A number below a power of ten has no more digits than the exponent says.
pub proof fn decimal_length(n: nat, digits: nat)
    requires
        0 < digits,
        n < ten_to(digits),
    ensures
        decimal(n).len() <= digits,
    decreases digits,
{
    reveal_with_fuel(ten_to, 2);
    if n >= 10 {
        decimal_length(n / 10, (digits - 1) as nat);
    }
}

/// What is wrong with a numeral.
#[derive(Debug, Clone, Copy, PartialEq, Eq, Structural)]
pub enum NumberFault {
    /// There is nothing to read.
    Empty,
    /// A character is no digit.
    InvalidDigit,
    /// The number is larger than what it is read for can hold.
    TooLarge,
}

impl NumberFault {
    pub open spec fn text(self) -> Seq<char> {
        match self {
            NumberFault::Empty => "cannot parse integer from empty string"@,
            NumberFault::InvalidDigit => "invalid digit found in string"@,
            NumberFault::TooLarge => "number too large to fit in target type"@,
        }
    }

    pub fn to_string(&self) -> (result: String)
        ensures
            result@ == self.text(),
    {
        match self {
            NumberFault::Empty => "cannot parse integer from empty string".to_string(),
            NumberFault::InvalidDigit => "invalid digit found in string".to_string(),
            NumberFault::TooLarge => "number too large to fit in target type".to_string(),
        }
    }
}

pub open spec fn is_digit(c: char) -> bool {
    48 <= c as int <= 57
}

/// The number that decimal digits stand for.
pub open spec fn digits_value(digits: Seq<char>) -> nat
    decreases digits.len(),
{
    if digits.len() == 0 {
        0
    } else {
        10 * digits_value(digits.drop_last()) + (if is_digit(digits.last()) {
            (digits.last() as int - 48) as nat
        } else {
            0
        })
    }
}

/// The text without a plus sign before it.
pub open spec fn unsigned_part(s: Seq<char>) -> Seq<char> {
    if s.len() > 1 && s[0] == '+' {
        s.skip(1)
    } else {
        s
    }
}

/// There is no digit at the place, and the number before it is not yet larger than `max`.
pub open spec fn stops_at(digits: Seq<char>, i: int, max: nat) -> bool {
    0 <= i < digits.len() && !is_digit(digits[i]) && digits_value(digits.take(i)) <= max
}

/// The decimal number, up to `max`, that a text is read as.
///
/// A plus sign may stand before the digits. Of two faults the one that comes first in the text
/// counts.
pub open spec fn number(s: Seq<char>, max: nat) -> Result<nat, NumberFault> {
    let digits = unsigned_part(s);
    if s.len() == 0 {
        Err(NumberFault::Empty)
    } else if (forall|i: int| 0 <= i < digits.len() ==> is_digit(#[trigger] digits[i]))
        && digits_value(digits) <= max {
        Ok(digits_value(digits))
    } else if exists|i: int| #[trigger] stops_at(digits, i, max) {
        Err(NumberFault::InvalidDigit)
    } else {
        Err(NumberFault::TooLarge)
    }
}

/// A number that is read is not larger than `max`.
pub proof fn number_bounds(s: Seq<char>, max: nat)
    ensures
        number(s, max) matches Ok(n) ==> n <= max,
{
}

/// More digits never make a smaller number.
proof fn digits_value_grows(digits: Seq<char>, i: int, j: int)
    requires
        0 <= i <= j <= digits.len(),
    ensures
        digits_value(digits.take(i)) <= digits_value(digits.take(j)),
    decreases j - i,
{
    if i < j {
        digits_value_grows(digits, i, j - 1);
        assert(digits.take(j).drop_last() =~= digits.take(j - 1));
    }
}

/// Reads a decimal number up to `max`.
pub fn parse_number(s: &[char], max: u64) -> (result: Result<u64, NumberFault>)
    ensures
        match (result, number(s@, max as nat)) {
            (Ok(n), Ok(model)) => n == model,
            (Err(fault), Err(model)) => fault == model,
            _ => false,
        },
{
    if s.len() == 0 {
        return Err(NumberFault::Empty);
    }
    let from: usize = if s.len() > 1 && s[0] == '+' { 1 } else { 0 };
    let ghost digits = s@.skip(from as int);
    proof {
        assert(s@.skip(0) =~= s@);
        assert(digits.take(0) =~= Seq::empty());
    }
    let mut value: u64 = 0;
    let mut i: usize = from;
    while i < s.len()
        invariant
            from <= i <= s.len(),
            s.len() > 0,
            digits == s@.skip(from as int),
            digits == unsigned_part(s@),
            value <= max,
            value == digits_value(digits.take(i - from)),
            forall|k: int| 0 <= k < i - from ==> is_digit(#[trigger] digits[k]),
        decreases s.len() - i,
    {
        let ghost at = i - from;
        let c: char = s[i];
        assert(digits[at] == c);
        if c < '0' || c > '9' {
            assert(stops_at(digits, at, max as nat));
            return Err(NumberFault::InvalidDigit);
        }
        proof {
            assert(digits.take(at + 1).drop_last() =~= digits.take(at));
            assert(digits.take(at + 1).last() == c);
        }
        let next: u128 = value as u128 * 10 + (c as u32 - 48) as u128;
        if next > max as u128 {
            proof {
                assert forall|k: int| !#[trigger] stops_at(digits, k, max as nat) by {
                    if at < k < digits.len() {
                        digits_value_grows(digits, at + 1, k);
                    }
                }
                digits_value_grows(digits, at + 1, digits.len() as int);
                assert(digits.take(digits.len() as int) =~= digits);
            }
            return Err(NumberFault::TooLarge);
        }
        value = next as u64;
        i += 1;
    }
    proof {
        assert(digits.take(digits.len() as int) =~= digits);
    }
    Ok(value)
}

/// The characters of a text, one by one.
pub fn characters(s: &str) -> (result: Vec<char>)
    ensures
        result@ == s@,
{
    let mut result: Vec<char> = Vec::new();
    for c in it: s.chars()
        invariant
            it.seq() == s@,
            result@ == s@.take(it.index()),
    {
        result.push(c);
        assert(result@ =~= s@.take(it.index() + 1));
    }
    assert(s@.take(s@.len() as int) =~= s@);
    result
}

/// The text made of the given characters.
pub fn from_characters(chars: &[char]) -> (result: String)
    ensures
        result@ == chars@,
{
    let mut result = String::new();
    let mut i: usize = 0;
    while i < chars.len()
        invariant
            i <= chars.len(),
            result@ == chars@.take(i as int),
        decreases chars.len() - i,
    {
        result.push(chars[i]);
        assert(result@ =~= chars@.take(i + 1));
        i += 1;
    }
    assert(chars@.take(chars@.len() as int) =~= chars@);
    result
}

/// The first place of a character in a text; the length of the text where it is not in it.
pub open spec fn place_of(s: Seq<char>, c: char) -> int
    decreases s.len(),
{
    if s.len() == 0 || s[0] == c {
        0
    } else {
        1 + place_of(s.drop_first(), c)
    }
}

/// The pieces between the places of a separator. There is at least one, which may be empty.
pub open spec fn pieces(s: Seq<char>, separator: char) -> Seq<Seq<char>>
    decreases s.len(),
{
    let p = place_of(s, separator);
    if 0 <= p < s.len() {
        seq![s.take(p)] + pieces(s.skip(p + 1), separator)
    } else {
        seq![s]
    }
}

/// The first place of a character is the first at which it stands.
pub proof fn place_is_first(s: Seq<char>, c: char)
    ensures
        0 <= place_of(s, c) <= s.len(),
        place_of(s, c) < s.len() ==> s[place_of(s, c)] == c,
        forall|i: int| 0 <= i < place_of(s, c) ==> s[i] != c,
    decreases s.len(),
{
    if s.len() > 0 && s[0] != c {
        place_is_first(s.drop_first(), c);
        let p = place_of(s.drop_first(), c);
        assert forall|i: int| 0 <= i < 1 + p implies s[i] != c by {
            if i > 0 {
                assert(s[i] == s.drop_first()[i - 1]);
            }
        }
    }
}

/// The first place of a character.
pub fn find_char(s: &[char], c: char) -> (result: usize)
    ensures
        result == place_of(s@, c),
        result <= s.len(),
{
    let mut i: usize = 0;
    assert(s@.skip(0) =~= s@);
    while i < s.len() && s[i] != c
        invariant
            i <= s.len(),
            place_of(s@, c) == i + place_of(s@.skip(i as int), c),
        decreases s.len() - i,
    {
        assert(s@.skip(i as int).drop_first() =~= s@.skip(i + 1));
        i += 1;
    }
    i
}

/// The characters that Unicode counts as white space.
pub open spec fn white_space(c: char) -> bool {
    let n = c as int;
    ||| 0x9 <= n <= 0xD
    ||| n == 0x20
    ||| n == 0x85
    ||| n == 0xA0
    ||| n == 0x1680
    ||| 0x2000 <= n <= 0x200A
    ||| n == 0x2028
    ||| n == 0x2029
    ||| n == 0x202F
    ||| n == 0x205F
    ||| n == 0x3000
}

/// Whether Unicode counts the character as white space.
pub fn is_white_space(c: char) -> (result: bool)
    ensures
        result == white_space(c),
{
    let n: u32 = c as u32;
    (0x9 <= n && n <= 0xD) || n == 0x20 || n == 0x85 || n == 0xA0 || n == 0x1680 || (0x2000 <= n && n
        <= 0x200A) || n == 0x2028 || n == 0x2029 || n == 0x202F || n == 0x205F || n == 0x3000
}

/// The text without the white space that it begins with.
pub open spec fn trimmed_start(s: Seq<char>) -> Seq<char>
    decreases s.len(),
{
    if s.len() > 0 && white_space(s[0]) {
        trimmed_start(s.drop_first())
    } else {
        s
    }
}

/// The text without the white space that it ends with.
pub open spec fn trimmed_end(s: Seq<char>) -> Seq<char>
    decreases s.len(),
{
    if s.len() > 0 && white_space(s.last()) {
        trimmed_end(s.drop_last())
    } else {
        s
    }
}

/// The text without the white space around it.
pub open spec fn trimmed(s: Seq<char>) -> Seq<char> {
    trimmed_end(trimmed_start(s))
}

/// The text without the white space around it.
pub fn trim(s: &[char]) -> (result: &[char])
    ensures
        result@ == trimmed(s@),
{
    let mut start: usize = 0;
    assert(s@.skip(0) =~= s@);
    while start < s.len() && is_white_space(s[start])
        invariant
            start <= s.len(),
            trimmed_start(s@) == trimmed_start(s@.skip(start as int)),
        decreases s.len() - start,
    {
        assert(s@.skip(start as int).drop_first() =~= s@.skip(start + 1));
        start += 1;
    }
    let ghost front = s@.skip(start as int);
    assert(trimmed_start(s@) == front);
    let mut end: usize = s.len();
    assert(s@.subrange(start as int, end as int) =~= front);
    while end > start && is_white_space(s[end - 1])
        invariant
            start <= end <= s.len(),
            trimmed_end(front) == trimmed_end(s@.subrange(start as int, end as int)),
        decreases end,
    {
        let ghost now = s@.subrange(start as int, end as int);
        assert(now.drop_last() =~= s@.subrange(start as int, end - 1));
        assert(now.last() == s@[end - 1]);
        end -= 1;
    }
    vstd::slice::slice_subrange(s, start, end)
}

} // verus!
