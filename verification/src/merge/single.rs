//! Single precision arithmetic on shares and counts, in integers.
//!
//! A number is held in units of `2^-90` and rounded after each operation to 24 significant bits,
//! to the nearest and in doubt to the even one. Shares of counts below `2^32` are never so small
//! that the unit cuts into their 24 bits, nor so large that the integer overflows.
use vstd::arithmetic::power2::{lemma2_to64, lemma_pow2_adds, lemma_pow2_pos, lemma_pow2_unfold, pow2};
use vstd::prelude::*;

verus! {

/// One, in units of the representation: `2^90`.
pub const ONE: u128 = 0x400_0000_0000_0000_0000_0000;

/// The significant bits take numbers up to this one: `2^24`.
pub const MANTISSA: u128 = 0x100_0000;

/// The weight of the last of the 24 significant bits of `k`.
pub open spec fn ulp(k: nat) -> nat
    decreases k,
{
    if k < MANTISSA {
        1
    } else {
        2 * ulp(k / 2)
    }
}

/// `k` rounded to 24 significant bits. `more` says that the number lies a little above `k`.
pub open spec fn rounded(k: nat, more: bool) -> nat {
    let p = ulp(k);
    let q = k / p;
    let r = k % p;
    if 2 * r > p || (2 * r == p && (more || q % 2 == 1)) {
        (q + 1) * p
    } else {
        q * p
    }
}

/// The count `n`, rounded.
pub open spec fn count_rounded(n: nat) -> nat {
    rounded(n, false)
}

/// The number `a` (in units) over the count `n`.
pub open spec fn over_count(a: nat, n: nat) -> nat {
    rounded(a / count_rounded(n), a % count_rounded(n) != 0)
}

/// The share of `n` counts among `of` counts (in units).
pub open spec fn share(n: nat, of: nat) -> nat {
    over_count(count_rounded(n) * ONE as nat, of)
}

/// The number `a` (in units) times the count `n`.
pub open spec fn times_count(a: nat, n: nat) -> nat {
    rounded(a * count_rounded(n), false)
}

/// The whole number nearest to `a` (in units), the higher one in doubt.
pub open spec fn nearest_whole(a: nat) -> nat {
    (a + ONE as nat / 2) / (ONE as nat)
}

proof fn half_of_even(k: nat, c: nat)
    ensures
        k < 2 * c ==> k / 2 < c,
        2 * (k / 2) <= k,
{
}

pub proof fn constants()
    ensures
        pow2(24) == MANTISSA,
        pow2(90) == ONE,
        pow2(32) == 0x1_0000_0000,
        pow2(114) == MANTISSA * ONE,
        pow2(122) == 0x1_0000_0000 * ONE,
{
    lemma2_to64();
    lemma_pow2_adds(64, 26);
    lemma_pow2_adds(24, 90);
    lemma_pow2_adds(32, 90);
    assert(pow2(64) * pow2(26) == 0x1_0000_0000_0000_0000 * 0x400_0000);
}

pub proof fn ulp_positive(k: nat)
    ensures
        1 <= ulp(k),
        k >= MANTISSA ==> ulp(k) * 0x80_0000 <= k < ulp(k) * MANTISSA,
        k < MANTISSA ==> ulp(k) == 1,
    decreases k,
{
    if k >= MANTISSA {
        ulp_positive(k / 2);
        let h = ulp(k / 2);
        if k / 2 < MANTISSA {
            assert(h == 1);
        }
        assert(ulp(k) == 2 * h);
    }
}

/// The last significant bit of a number below `2^(24 + m)` divides `2^m`.
proof fn ulp_divides(k: nat, m: nat) -> (c: nat)
    requires
        k < pow2(24 + m),
    ensures
        pow2(m) == c * ulp(k),
    decreases m,
{
    lemma_pow2_pos(m);
    if k < MANTISSA {
        assert(pow2(m) * 1 == pow2(m));
        pow2(m)
    } else {
        if m == 0 {
            constants();
        }
        lemma_pow2_unfold(m);
        lemma_pow2_unfold(24 + m);
        half_of_even(k, pow2((24 + m - 1) as nat));
        let c = ulp_divides(k / 2, (m - 1) as nat);
        assert(2 * (c * ulp(k / 2)) == c * (2 * ulp(k / 2))) by (nonlinear_arith);
        c
    }
}

/// Rounding does not lead beyond a multiple of the last significant bit.
pub proof fn rounded_below(k: nat, more: bool, c: nat)
    requires
        k <= c * ulp(k),
    ensures
        rounded(k, more) <= c * ulp(k),
        rounded(k, more) <= k + ulp(k),
        k == c * ulp(k) ==> rounded(k, more) == k,
        rounded(k, more) + ulp(k) >= k,
{
    let p = ulp(k);
    ulp_positive(k);
    vstd::arithmetic::div_mod::lemma_fundamental_div_mod(k as int, p as int);
    vstd::arithmetic::div_mod::lemma_mod_bound(k as int, p as int);
    let q = k / p;
    let r = k % p;
    assert((q + 1) * p == q * p + p) by (nonlinear_arith);
    assert(p * q == q * p) by (nonlinear_arith);
    assert(q <= c) by (nonlinear_arith)
        requires
            k <= c * p,
            k == p * q + r,
            r >= 0,
            p >= 1,
    ;
    if q == c {
        assert(r == 0);
    } else {
        assert((q + 1) * p <= c * p) by (nonlinear_arith)
            requires
                q + 1 <= c,
                p >= 1,
        ;
    }
    if k == c * p {
        assert(q == c) by (nonlinear_arith)
            requires
                k == c * p,
                k == p * q + r,
                0 <= r < p,
        ;
    }
}

/// Rounding a number below a power of two does not lead beyond that power.
pub proof fn rounded_within(k: nat, more: bool, m: nat)
    requires
        k <= pow2(24 + m),
    ensures
        rounded(k, more) <= pow2(24 + m),
{
    if k < pow2(24 + m) {
        let c = ulp_divides(k, m);
        lemma_pow2_adds(24, m);
        assert(pow2(24) * pow2(m) == (pow2(24) * c) * ulp(k)) by (nonlinear_arith)
            requires
                pow2(m) == c * ulp(k),
        ;
        rounded_below(k, more, pow2(24) * c);
    } else {
        lemma_pow2_unfold(24 + m + 1);
        lemma_pow2_pos(24 + m);
        let c = ulp_divides(k, m + 1);
        lemma_pow2_adds(23, m + 1);
        assert(pow2(23) * pow2(m + 1) == (pow2(23) * c) * ulp(k)) by (nonlinear_arith)
            requires
                pow2(m + 1) == c * ulp(k),
        ;
        rounded_below(k, more, pow2(23) * c);
    }
}

pub proof fn count_rounded_bounds(n: nat)
    requires
        n <= u32::MAX,
    ensures
        count_rounded(n) <= 0x1_0000_0000,
        n < MANTISSA ==> count_rounded(n) == n,
        n >= MANTISSA ==> count_rounded(n) >= MANTISSA,
        n > 0 ==> count_rounded(n) > 0,
{
    constants();
    rounded_within(n, false, 8);
    ulp_positive(n);
    let p = ulp(n);
    let q = n / p;
    if n < MANTISSA {
        assert(n / 1 == n);
        assert(n % 1 == 0);
    } else {
        ulp_positive(n / 2);
        assert(p >= 2);
        vstd::arithmetic::div_mod::lemma_fundamental_div_mod(n as int, p as int);
        vstd::arithmetic::div_mod::lemma_mod_bound(n as int, p as int);
        let r = n % p;
        if q < 0x80_0000 {
            assert(p * (q + 1) <= p * 0x80_0000) by (nonlinear_arith)
                requires
                    q + 1 <= 0x80_0000,
            ;
            assert(p * (q + 1) == p * q + p) by (nonlinear_arith);
            assert(false);
        }
        assert(q * p >= 0x80_0000 * 2) by (nonlinear_arith)
            requires
                q >= 0x80_0000,
                p >= 2,
        ;
        assert((q + 1) * p == q * p + p) by (nonlinear_arith);
    }
}

/// The share of a part in a whole is at most one.
proof fn share_bounds(n: nat, of: nat)
    requires
        n <= of <= u32::MAX,
        0 < of,
    ensures
        share(n, of) <= 2 * ONE,
{
    count_rounded_bounds(n);
    count_rounded_bounds(of);
    constants();
    lemma_pow2_unfold(91);
    let a = count_rounded(n);
    let b = count_rounded(of);
    let k = (a * ONE as nat) / b;
    count_close(n, of);
    assert(a * ONE as nat <= (2 * ONE as nat) * b) by (nonlinear_arith)
        requires
            a <= 2 * b,
    ;
    vstd::arithmetic::div_mod::lemma_fundamental_div_mod((a * ONE as nat) as int, b as int);
    vstd::arithmetic::div_mod::lemma_mod_bound((a * ONE as nat) as int, b as int);
    let r = (a * ONE as nat) % b;
    assert(k <= 2 * ONE) by (nonlinear_arith)
        requires
            a * ONE as nat <= (2 * ONE as nat) * b,
            a * ONE as nat == b * k + r,
            r >= 0,
            b > 0,
    ;
    rounded_within(k, r != 0, 67);
}

/// The share of a small part in a small whole is at most one.
proof fn small_share_bounds(n: nat, of: nat)
    requires
        n <= of < MANTISSA,
        0 < of,
    ensures
        share(n, of) <= ONE,
{
    count_rounded_bounds(n);
    count_rounded_bounds(of);
    constants();
    let a = n * ONE as nat;
    let k = a / of;
    let r = a % of;
    vstd::arithmetic::div_mod::lemma_fundamental_div_mod(a as int, of as int);
    vstd::arithmetic::div_mod::lemma_mod_bound(a as int, of as int);
    assert(k <= ONE) by (nonlinear_arith)
        requires
            a == n * ONE as nat,
            a == of * k + r,
            r >= 0,
            0 < of,
            n <= of,
    ;
    rounded_within(k, r != 0, 66);
}

/// Two counts of which one is the greater are rounded to counts of which it is at least the half.
proof fn count_close(n: nat, of: nat)
    requires
        n <= of <= u32::MAX,
    ensures
        count_rounded(n) <= 2 * count_rounded(of),
{
    count_rounded_bounds(n);
    count_rounded_bounds(of);
    ulp_positive(n);
    ulp_positive(of);
    let pn = ulp(n);
    let po = ulp(of);
    vstd::arithmetic::div_mod::lemma_fundamental_div_mod(n as int, pn as int);
    vstd::arithmetic::div_mod::lemma_fundamental_div_mod(of as int, po as int);
    vstd::arithmetic::div_mod::lemma_mod_bound(n as int, pn as int);
    vstd::arithmetic::div_mod::lemma_mod_bound(of as int, po as int);
    assert((n / pn + 1) * pn == pn * (n / pn) + pn) by (nonlinear_arith);
    assert((of / po + 1) * po == po * (of / po) + po) by (nonlinear_arith);
    assert((of / po) * po == po * (of / po)) by (nonlinear_arith);
    assert((n / pn) * pn == pn * (n / pn)) by (nonlinear_arith);
    if n >= MANTISSA {
        assert(count_rounded(n) <= n + pn);
        assert(count_rounded(of) + po >= of);
    }
}

/// The least of `c` and the number of counts up to which sums of shares are exact.
spec fn capped(c: nat) -> nat {
    if c < MANTISSA {
        c
    } else {
        MANTISSA as nat
    }
}

/// What the sum of `c` shares stays under.
pub closed spec fn sum_bound(c: nat) -> nat {
    capped(c) * (2 * ONE as nat)
}

pub proof fn ulp_known(k: nat, m: nat)
    requires
        pow2(23 + m) <= k < pow2(24 + m),
    ensures
        ulp(k) == pow2(m),
    decreases m,
{
    if m == 0 {
        constants();
        lemma2_to64();
    } else {
        constants();
        lemma_pow2_unfold(m);
        lemma_pow2_unfold(23 + m);
        lemma_pow2_unfold(24 + m);
        half_of_even(k, pow2((24 + m - 1) as nat));
        vstd::arithmetic::power2::lemma_pow2_strictly_increases(23, 23 + m);
        lemma2_to64();
        assert(k >= MANTISSA) by {
            if m > 1 {
                vstd::arithmetic::power2::lemma_pow2_strictly_increases(24, 23 + m);
            }
        }
        ulp_known(k / 2, (m - 1) as nat);
    }
}

/// One more share keeps the sum of shares in its bound.
proof fn sum_stays_bounded(sum: nat, v: nat, c: nat)
    requires
        sum <= sum_bound(c),
        v <= 2 * ONE,
    ensures
        rounded(sum + v, false) <= sum_bound(c + 1),
        sum_bound(c) <= pow2(115),
        sum_bound(c + 1) <= pow2(115),
{
    constants();
    lemma_pow2_unfold(91);
    lemma_pow2_adds(24, 91);
    let unit = 2 * ONE as nat;
    let k = sum + v;
    assert(pow2(115) == MANTISSA as nat * unit);
    assert(capped(c) * unit <= MANTISSA as nat * unit) by (nonlinear_arith)
        requires
            capped(c) <= MANTISSA,
    ;
    assert(capped(c + 1) * unit <= MANTISSA as nat * unit) by (nonlinear_arith)
        requires
            capped(c + 1) <= MANTISSA,
    ;
    if c < MANTISSA {
        assert((c + 1) * unit == c * unit + unit) by (nonlinear_arith);
        assert(capped(c + 1) == c + 1);
        if k < pow2(115) {
            let d = ulp_divides(k, 91);
            assert((c + 1) * unit == ((c + 1) * d) * ulp(k)) by (nonlinear_arith)
                requires
                    unit == d * ulp(k),
            ;
            rounded_below(k, false, (c + 1) * d);
        } else {
            rounded_within(k, false, 91);
            assert(k == pow2(115));
        }
    } else if k <= pow2(115) {
        rounded_within(k, false, 91);
    } else {
        lemma_pow2_unfold(116);
        lemma_pow2_unfold(92);
        lemma_pow2_adds(23, 92);
        lemma2_to64();
        lemma_pow2_adds(1, 91);
        assert(2 * ONE < pow2(115)) by {
            vstd::arithmetic::power2::lemma_pow2_strictly_increases(91, 115);
        }
        ulp_known(k, 92);
        let p = ulp(k);
        assert(p == 2 * unit);
        let r = (k - pow2(115)) as nat;
        assert(k == p * 0x80_0000 + r);
        vstd::arithmetic::div_mod::lemma_fundamental_div_mod_converse(
            k as int,
            p as int,
            0x80_0000,
            r as int,
        );
        assert(k / p == 0x80_0000);
        assert(k % p == r);
        assert(2 * r <= p);
    }
}

/// The average of shares is in the bound of one share.
proof fn average_bounds(sum: nat, c: nat)
    requires
        0 < c <= u32::MAX,
        sum <= sum_bound(c),
    ensures
        over_count(sum, c) <= 2 * ONE,
{
    constants();
    count_rounded_bounds(c);
    lemma_pow2_unfold(91);
    let b = count_rounded(c);
    let unit = 2 * ONE as nat;
    assert(capped(c) <= b);
    assert(sum <= unit * b) by (nonlinear_arith)
        requires
            sum <= capped(c) * unit,
            capped(c) <= b,
    ;
    let k = sum / b;
    let r = sum % b;
    vstd::arithmetic::div_mod::lemma_fundamental_div_mod(sum as int, b as int);
    vstd::arithmetic::div_mod::lemma_mod_bound(sum as int, b as int);
    assert(k <= unit) by (nonlinear_arith)
        requires
            sum <= unit * b,
            sum == b * k + r,
            r >= 0,
            b > 0,
    ;
    rounded_within(k, r != 0, 67);
}

fn round(k: u128, more: bool) -> (result: u128)
    requires
        k <= 0x4000_0000_0000_0000_0000_0000_0000_0000,
    ensures
        result == rounded(k as nat, more),
{
    let mut p: u128 = 1;
    let mut q: u128 = k;
    proof {
        ulp_positive(k as nat);
    }
    while q >= MANTISSA
        invariant
            p >= 1,
            ulp(k as nat) == p * ulp(q as nat),
            p * q <= k,
            k <= 0x4000_0000_0000_0000_0000_0000_0000_0000,
        decreases q,
    {
        proof {
            ulp_positive(q as nat / 2);
            assert(p * (2 * ulp(q as nat / 2)) == (2 * p) * ulp(q as nat / 2)) by (nonlinear_arith);
            assert((2 * p) * (q / 2) <= p * q) by (nonlinear_arith)
                requires
                    2 * (q / 2) <= q,
            ;
            assert(2 * p <= p * q) by (nonlinear_arith)
                requires
                    q >= 2,
                    p >= 1,
            ;
        }
        p = 2 * p;
        q = q / 2;
    }
    proof {
        ulp_positive(q as nat);
        assert(p * 1 == p);
    }
    let whole: u128 = k / p;
    let rest: u128 = k % p;
    proof {
        vstd::arithmetic::div_mod::lemma_fundamental_div_mod(k as int, p as int);
        vstd::arithmetic::div_mod::lemma_mod_bound(k as int, p as int);
        assert(p * whole == whole * p) by (nonlinear_arith);
        assert((whole + 1) * p == whole * p + p) by (nonlinear_arith);
        assert(p <= k || k < MANTISSA) by {
            if k >= MANTISSA {
                ulp_positive(k as nat);
            }
        }
        assert(whole <= k) by (nonlinear_arith)
            requires
                k == p * whole + rest,
                p >= 1,
                rest >= 0,
                whole >= 0,
        ;
    }
    if 2 * rest > p || (2 * rest == p && (more || whole % 2 == 1)) {
        (whole + 1) * p
    } else {
        whole * p
    }
}

/// A number in single precision, not negative.
#[derive(Debug, Clone, Copy, PartialEq, Eq, Structural)]
pub struct Single {
    pub units: u128,
}

impl Single {
    /// The share of `n` counts among `of` counts.
    pub fn ratio(n: u32, of: u32) -> (result: Self)
        requires
            0 < of,
        ensures
            result.units == share(n as nat, of as nat),
            n <= of ==> result.units <= 2 * ONE,
            n <= of < MANTISSA ==> result.units <= ONE,
    {
        proof {
            constants();
            count_rounded_bounds(n as nat);
            count_rounded_bounds(of as nat);
            if n <= of {
                share_bounds(n as nat, of as nat);
            }
            if n <= of < MANTISSA {
                small_share_bounds(n as nat, of as nat);
            }
        }
        let a: u128 = round(n as u128, false);
        let b: u128 = round(of as u128, false);
        proof {
            assert(a * ONE <= 0x1_0000_0000 * ONE) by (nonlinear_arith)
                requires
                    a <= 0x1_0000_0000,
            ;
            assert((a * ONE) / (b as int) <= a * ONE) by (nonlinear_arith)
                requires
                    b >= 1,
                    a >= 0,
            ;
        }
        let scaled: u128 = a * ONE;
        Single { units: round(scaled / b, scaled % b != 0) }
    }

    /// Whether the number is not less than `other`.
    pub fn at_least(&self, other: &Single) -> (result: bool)
        ensures
            result == (self.units >= other.units),
    {
        self.units >= other.units
    }

    /// One more share in a sum of `c` shares.
    pub(crate) fn plus(&self, v: &Single, Ghost(c): Ghost<nat>) -> (result: Single)
        requires
            self.units <= sum_bound(c),
            v.units <= 2 * ONE,
        ensures
            result.units == rounded((self.units + v.units) as nat, false),
            result.units <= sum_bound(c + 1),
    {
        proof {
            sum_stays_bounded(self.units as nat, v.units as nat, c);
            constants();
            lemma_pow2_adds(114, 1);
            lemma2_to64();
        }
        Single { units: round(self.units + v.units, false) }
    }

    /// The average of a sum of `c` shares.
    pub fn over(&self, c: u32) -> (result: Single)
        requires
            0 < c,
            self.units <= sum_bound(c as nat),
        ensures
            result.units == over_count(self.units as nat, c as nat),
            result.units <= 2 * ONE,
    {
        proof {
            constants();
            count_rounded_bounds(c as nat);
            average_bounds(self.units as nat, c as nat);
            sum_stays_bounded(self.units as nat, 0, c as nat);
            lemma_pow2_adds(114, 1);
            lemma2_to64();
        }
        let b: u128 = round(c as u128, false);
        proof {
            assert(self.units as int / (b as int) <= self.units) by (nonlinear_arith)
                requires
                    b >= 1,
                    self.units >= 0,
            ;
        }
        Single { units: round(self.units / b, self.units % b != 0) }
    }

    /// The whole number nearest to a share of `len`, the higher one in doubt.
    pub fn of_count(&self, len: u32) -> (result: u128)
        requires
            self.units <= 2 * ONE,
        ensures
            result == nearest_whole(times_count(self.units as nat, len as nat)),
    {
        proof {
            constants();
            count_rounded_bounds(len as nat);
            product_bounds(self.units as nat, len as nat);
        }
        let l: u128 = round(len as u128, false);
        let product: u128 = round(self.units * l, false);
        (product + ONE / 2) / ONE
    }
}

proof fn product_bounds(a: nat, len: nat)
    requires
        a <= 2 * ONE,
        len <= u32::MAX,
    ensures
        a * count_rounded(len) <= 0x1000_0000_0000_0000_0000_0000_0000_0000,
        times_count(a, len) <= 0x1000_0000_0000_0000_0000_0000_0000_0000,
{
    constants();
    count_rounded_bounds(len);
    lemma_pow2_unfold(91);
    lemma_pow2_adds(91, 32);
    let l = count_rounded(len);
    assert(a * l <= (2 * ONE as nat) * 0x1_0000_0000) by (nonlinear_arith)
        requires
            a <= 2 * ONE,
            l <= 0x1_0000_0000,
    ;
    rounded_within(a * l, false, 99);
}

/// A single share is in the bound of a sum of one.
pub proof fn first_share_bounded(v: nat)
    requires
        v <= 2 * ONE,
    ensures
        v <= sum_bound(1),
{
    assert(capped(1) == 1);
}

} // verus!
