//! What numerals, pieces and trimmed texts are.
use crate::text::{
    decimal, digits_value, hexadecimal, is_digit, number, numeral, pieces, place_is_first, place_of,
    signed_decimal, stops_at, trimmed, trimmed_end, trimmed_start, white_space, NumberFault,
};
use vstd::prelude::*;

verus! {

/// What a character counts as a digit: `0` to `9`, then `a` to `f`.
pub open spec fn digit_worth(c: char) -> int {
    if '0' <= c <= '9' {
        c as int - '0' as int
    } else if 'a' <= c <= 'f' {
        c as int - 'a' as int + 10
    } else {
        -1
    }
}

/// The number that a numeral stands for: the last digit counts once, the one before it as often as
/// the base says, and so on.
pub open spec fn worth(digits: Seq<char>, base: int) -> int
    decreases digits.len(),
{
    if digits.len() == 0 {
        0
    } else {
        worth(digits.drop_last(), base) * base + digit_worth(digits.last())
    }
}

/// A numeral stands for its number, holds digits of its base alone, and does not begin with a zero
/// unless the number is zero.
pub proof fn numerals_are_positional(n: nat, base: nat)
    requires
        2 <= base <= 16,
    ensures
        worth(numeral(n, base), base as int) == n,
        numeral(n, base).len() > 0,
        n > 0 ==> numeral(n, base)[0] != '0',
        forall|i: int|
            0 <= i < numeral(n, base).len() ==> 0 <= digit_worth(#[trigger] numeral(n, base)[i])
                < base,
    decreases n,
{
    reveal_with_fuel(worth, 2);
    if n >= base {
        vstd::arithmetic::div_mod::lemma_div_decreases(n as int, base as int);
        vstd::arithmetic::div_mod::lemma_fundamental_div_mod(n as int, base as int);
        vstd::arithmetic::div_mod::lemma_mod_bound(n as int, base as int);
        assert(n / base > 0) by (nonlinear_arith)
            requires
                n >= base,
                base >= 2,
        ;
        numerals_are_positional(n / base, base);
        let front = numeral(n / base, base);
        let all = numeral(n, base);
        assert(all.drop_last() =~= front);
        assert((n / base) * base == base * (n / base)) by (nonlinear_arith);
        assert forall|i: int| 0 <= i < all.len() implies 0 <= digit_worth(#[trigger] all[i])
            < base by {
            if i < front.len() {
                assert(all[i] == front[i]);
            }
        }
        assert(all[0] == front[0]);
    }
}

/// Decimal numerals are to base ten, hexadecimal ones to base sixteen; a minus sign stands before
/// those of negative numbers only.
pub proof fn numerals_have_their_base(n: nat, i: int)
    ensures
        worth(decimal(n), 10) == n,
        worth(hexadecimal(n), 16) == n,
        i >= 0 ==> worth(signed_decimal(i), 10) == i,
        i < 0 ==> signed_decimal(i)[0] == '-' && worth(signed_decimal(i).skip(1), 10) == -i,
{
    numerals_are_positional(n, 10);
    numerals_are_positional(n, 16);
    if i >= 0 {
        numerals_are_positional(i as nat, 10);
    } else {
        numerals_are_positional((-i) as nat, 10);
        assert(signed_decimal(i).skip(1) =~= decimal((-i) as nat));
    }
}

/// The text is made of digits.
pub open spec fn all_digits(s: Seq<char>) -> bool {
    forall|i: int| 0 <= i < s.len() ==> '0' <= #[trigger] s[i] <= '9'
}

proof fn digits_are_worth(s: Seq<char>)
    requires
        all_digits(s),
    ensures
        digits_value(s) == worth(s, 10),
    decreases s.len(),
{
    if s.len() > 0 {
        let front = s.drop_last();
        assert forall|i: int| 0 <= i < front.len() implies '0' <= #[trigger] front[i] <= '9' by {
            assert(front[i] == s[i]);
        }
        digits_are_worth(front);
        assert(s.last() == s[s.len() - 1]);
    }
}

/// A text is read as a number if and only if it is made of digits, at least one, with or without a
/// plus sign before them, and the number that they stand for is not too large; and it is read as
/// that number.
pub proof fn numbers_are_read(s: Seq<char>, max: nat, n: nat)
    ensures
        number(s, max) == Ok::<nat, NumberFault>(n) <==> {
            let digits = if s.len() > 1 && s[0] == '+' {
                s.skip(1)
            } else {
                s
            };
            s.len() > 0 && all_digits(digits) && worth(digits, 10) == n && n <= max
        },
{
    let digits = if s.len() > 1 && s[0] == '+' {
        s.skip(1)
    } else {
        s
    };
    if all_digits(digits) {
        digits_are_worth(digits);
        assert forall|i: int| 0 <= i < digits.len() implies is_digit(#[trigger] digits[i]) by {}
    }
    if forall|i: int| 0 <= i < digits.len() ==> is_digit(#[trigger] digits[i]) {
        assert forall|i: int| 0 <= i < digits.len() implies '0' <= #[trigger] digits[i] <= '9' by {
            assert(is_digit(digits[i]));
        }
    }
}

/// What is wrong with a text that is no number: there is nothing in it; or it is a number but too
/// large; or a character is no digit, before the digits stand for too large a number.
pub proof fn numbers_are_refused(s: Seq<char>, max: nat, i: int)
    ensures
        number(Seq::empty(), max) == Err::<nat, NumberFault>(NumberFault::Empty),
        s.len() > 0 && all_digits(s) && worth(s, 10) > max ==> number(s, max) == Err::<
            nat,
            NumberFault,
        >(NumberFault::TooLarge),
        0 <= i < s.len() && !('0' <= s[i] <= '9') && s[0] != '+' && all_digits(s.take(i)) && worth(s.take(i), 10) <= max ==> number(s, max)
            == Err::<nat, NumberFault>(NumberFault::InvalidDigit),
{
    if s.len() > 0 && all_digits(s) && worth(s, 10) > max {
        digits_are_worth(s);
        assert(s[0] != '+');
        assert forall|k: int| !#[trigger] stops_at(s, k, max) by {
            if 0 <= k < s.len() {
                assert('0' <= s[k] <= '9');
            }
        }
    }
    if 0 <= i < s.len() && !('0' <= s[i] <= '9') && s[0] != '+' && all_digits(s.take(i)) && worth(
        s.take(i),
        10,
    ) <= max {
        digits_are_worth(s.take(i));
        assert(stops_at(s, i, max));
        assert(!is_digit(s[i]));
    }
}

/// The pieces with the separator between them.
pub open spec fn put_together(parts: Seq<Seq<char>>, separator: char) -> Seq<char>
    decreases parts.len(),
{
    if parts.len() == 0 {
        Seq::empty()
    } else if parts.len() == 1 {
        parts[0]
    } else {
        parts[0].push(separator) + put_together(parts.drop_first(), separator)
    }
}

/// The pieces of a text, with the separator between them, make up the text, and none holds the
/// separator.
pub proof fn pieces_make_up_text(s: Seq<char>, separator: char)
    ensures
        pieces(s, separator).len() > 0,
        put_together(pieces(s, separator), separator) == s,
        forall|k: int|
            0 <= k < pieces(s, separator).len() ==> !(#[trigger] pieces(s, separator)[k]).contains(
                separator,
            ),
    decreases s.len(),
{
    let p = place_of(s, separator);
    let all = pieces(s, separator);
    place_is_first(s, separator);
    if p < s.len() {
        let rest = pieces(s.skip(p + 1), separator);
        pieces_make_up_text(s.skip(p + 1), separator);
        assert(all.drop_first() =~= rest);
        assert(put_together(all, separator) =~= s.take(p).push(separator) + s.skip(p + 1));
        assert(s.take(p).push(separator) + s.skip(p + 1) =~= s);
        assert forall|k: int| 0 <= k < all.len() implies !(#[trigger] all[k]).contains(
            separator,
        ) by {
            if k > 0 {
                assert(all[k] == rest[k - 1]);
            }
        }
    }
}

/// The text is white space.
pub open spec fn blank(s: Seq<char>) -> bool {
    forall|i: int| 0 <= i < s.len() ==> white_space(#[trigger] s[i])
}

/// A trimmed text is the text but for white space before and behind it, and neither begins nor ends
/// with white space.
pub proof fn trimming_takes_white_space(s: Seq<char>) -> (around: (Seq<char>, Seq<char>))
    ensures
        s == around.0 + trimmed(s) + around.1,
        blank(around.0),
        blank(around.1),
        trimmed(s).len() > 0 ==> !white_space(trimmed(s)[0]) && !white_space(trimmed(s).last()),
{
    let before = start_is_taken(s);
    let mid = trimmed_start(s);
    let behind = end_is_taken(mid);
    assert(s =~= before + trimmed(s) + behind);
    if trimmed(s).len() > 0 {
        assert(mid[0] == trimmed(s)[0]);
    }
    (before, behind)
}

proof fn start_is_taken(s: Seq<char>) -> (before: Seq<char>)
    ensures
        s == before + trimmed_start(s),
        blank(before),
        trimmed_start(s).len() > 0 ==> !white_space(trimmed_start(s)[0]),
    decreases s.len(),
{
    if s.len() > 0 && white_space(s[0]) {
        let rest = start_is_taken(s.drop_first());
        let before = seq![s[0]] + rest;
        let inner = s.drop_first();
        assert(inner == rest + trimmed_start(s));
        assert(s =~= seq![s[0]] + inner);
        assert(seq![s[0]] + (rest + trimmed_start(s)) =~= before + trimmed_start(s));
        before
    } else {
        assert(s =~= Seq::<char>::empty() + s);
        Seq::empty()
    }
}

proof fn end_is_taken(s: Seq<char>) -> (behind: Seq<char>)
    ensures
        s == trimmed_end(s) + behind,
        blank(behind),
        trimmed_end(s).len() > 0 ==> !white_space(trimmed_end(s).last()),
    decreases s.len(),
{
    if s.len() > 0 && white_space(s.last()) {
        let rest = end_is_taken(s.drop_last());
        let behind = rest.push(s.last());
        let inner = s.drop_last();
        assert(inner == trimmed_end(s) + rest);
        assert(s =~= inner.push(s.last()));
        assert((trimmed_end(s) + rest).push(s.last()) =~= trimmed_end(s) + behind);
        behind
    } else {
        assert(s =~= s + Seq::<char>::empty());
        Seq::empty()
    }
}

/// The white space among the characters up to the end of Latin-1: tabulators, line ends, blanks.
pub proof fn white_space_is_what_it_is(c: char)
    ensures
        (c as int) < 0x100 ==> (white_space(c) <==> c == '\t' || c == '\n' || c == '\r' || c == ' '
            || c as int == 0xB || c as int == 0xC || c as int == 0x85 || c as int == 0xA0),
        white_space(c) ==> !('0' <= c <= '9') && !('a' <= c <= 'z') && !('A' <= c <= 'Z'),
{
}

} // verus!
