//! Numbers as doubles have them, computed with integers.

use vstd::arithmetic::power2::{lemma_pow2_pos, lemma_pow2_strictly_increases, lemma2_to64, pow2};
use vstd::prelude::*;

verus! {

/// `n` over `d`, rounded to the nearest integer; halfway, to the even one.
pub open spec fn round_half_even(n: nat, d: nat) -> nat {
    let q = n / d;
    let r = n % d;
    if 2 * r < d || (2 * r == d && q % 2 == 0) {
        q
    } else {
        q + 1
    }
}

/// How many of its lowest bits a number has to lose to have at most 53.
pub open spec fn excess_bits(n: nat) -> nat
    decreases n,
{
    if n < 0x20_0000_0000_0000 {
        0
    } else {
        1 + excess_bits(n / 2)
    }
}

/// The double that is nearest to `n`.
pub open spec fn nearest_double(n: nat) -> nat {
    let unit = pow2(excess_bits(n));
    round_half_even(n, unit) * unit
}

/// The exponent of the greatest power of two that is at most `n`.
pub open spec fn floor_log2(n: nat) -> nat
    decreases n,
{
    if n < 2 {
        0
    } else {
        1 + floor_log2(n / 2)
    }
}

/// The bits of the double nearest to `n`.
pub open spec fn double_bits_of(n: nat) -> nat {
    let m = nearest_double(n);
    if m == 0 {
        0
    } else {
        let e = floor_log2(m);
        (1022 + e) * 0x10_0000_0000_0000 + m * 0x10_0000_0000_0000 / pow2(e)
    }
}

/// What orders doubles by their bits: the magnitude, with the sign. Both zeros
/// are equal.
pub open spec fn double_key(bits: u64) -> int {
    if bits < 0x8000_0000_0000_0000 {
        bits as int
    } else {
        -(bits - 0x8000_0000_0000_0000)
    }
}

/// What orders doubles by their bits.
pub fn key_of_double(bits: u64) -> (r: i64)
    ensures
        r == double_key(bits),
{
    if bits < 0x8000_0000_0000_0000 {
        bits as i64
    } else {
        -((bits - 0x8000_0000_0000_0000) as i64)
    }
}

/// `n` over `d`, rounded to the nearest integer; halfway, to the even one.
pub fn rounded_quotient(n: u128, d: u128) -> (r: u128)
    requires
        0 < d <= 0x1_0000_0000_0000_0000,
        n < 0x1_0000_0000_0000_0000_0000_0000_0000,
    ensures
        r == round_half_even(n as nat, d as nat),
        r <= n + 1,
{
    let q: u128 = n / d;
    let r: u128 = n % d;
    assert(q <= n) by (nonlinear_arith)
        requires
            q == n / d,
            d > 0,
    ;
    if 2 * r < d || (2 * r == d && q % 2 == 0) {
        q
    } else {
        q + 1
    }
}

proof fn lemma_excess(n: nat)
    requires
        n < 0x1_0000_0000_0000_0000,
    ensures
        excess_bits(n) <= 11,
        pow2(excess_bits(n)) <= 2048,
{
    reveal_with_fuel(excess_bits, 12);
    lemma2_to64();
    let e = excess_bits(n);
    if e < 11 {
        lemma_pow2_strictly_increases(e, 11);
    }
}

fn excess(n: u64) -> (r: u128)
    ensures
        r == pow2(excess_bits(n as nat)),
        0 < r <= 0x1_0000_0000_0000_0000,
    decreases n,
{
    proof {
        lemma2_to64();
        lemma_excess(n as nat);
        lemma_pow2_pos(excess_bits(n as nat));
    }
    if n < 0x20_0000_0000_0000 {
        1
    } else {
        proof {
            vstd::arithmetic::power2::lemma_pow2_unfold(excess_bits(n as nat));
            lemma_excess((n / 2) as nat);
        }
        2 * excess(n / 2)
    }
}

proof fn lemma_nearest_bound(n: nat)
    requires
        n < 0x1_0000_0000_0000_0000,
    ensures
        nearest_double(n) <= 0x1_0000_0000_0000_0000,
        n > 0 ==> nearest_double(n) > 0,
        n < 0x20_0000_0000_0000 ==> nearest_double(n) == n,
{
    lemma_excess(n);
    lemma2_to64();
    let s = excess_bits(n);
    let unit = pow2(s);
    lemma_pow2_pos(s);
    let q = round_half_even(n, unit);
    if s == 0 {
        assert(unit == 1);
        assert(n / 1 == n && n % 1 == 0);
        assert(q == n);
        assert(q * 1 == q);
    } else {
        lemma_excess_top(n);
        let top = 0x20_0000_0000_0000nat;
        assert(n / unit < top);
        assert(n / unit >= 1);
        assert(q <= top);
        assert(q >= 1);
        assert(q * unit <= top * 2048) by (nonlinear_arith)
            requires
                q <= top,
                unit <= 2048,
        ;
        assert(q * unit > 0) by (nonlinear_arith)
            requires
                q >= 1,
                unit > 0,
        ;
    }
}

/// A number without its excess bits has 53.
proof fn lemma_excess_top(n: nat)
    requires
        n >= 0x20_0000_0000_0000,
    ensures
        0x10_0000_0000_0000 <= n / pow2(excess_bits(n)) < 0x20_0000_0000_0000,
    decreases n,
{
    let s = excess_bits(n);
    lemma2_to64();
    lemma_pow2_pos((s - 1) as nat);
    vstd::arithmetic::power2::lemma_pow2_unfold(s);
    let p = pow2((s - 1) as nat);
    assert(pow2(s) == 2 * p);
    assert(n / (2 * p) == (n / 2) / p) by {
        vstd::arithmetic::div_mod::lemma_div_denominator(n as int, 2, p as int);
    }
    if n / 2 >= 0x20_0000_0000_0000 {
        lemma_excess_top(n / 2);
    } else {
        assert(excess_bits(n / 2) == 0);
        assert(p == 1);
    }
}

/// The double that is nearest to `n`.
pub fn as_double(n: u64) -> (r: u128)
    ensures
        r == nearest_double(n as nat),
        r <= 0x1_0000_0000_0000_0000,
        n > 0 ==> r > 0,
{
    proof {
        lemma_nearest_bound(n as nat);
        lemma_excess(n as nat);
    }
    let unit: u128 = excess(n);
    let q: u128 = rounded_quotient(n as u128, unit);
    assert(q * unit == nearest_double(n as nat));
    q * unit
}

fn log2(n: u128) -> (r: u64)
    ensures
        r == floor_log2(n as nat),
        r <= n,
    decreases n,
{
    if n < 2 {
        0
    } else {
        assert(n / 2 < n);
        let half: u64 = log2(n / 2);
        assert(half < u64::MAX) by {
            lemma_log2_small((n / 2) as nat);
        }
        1 + half
    }
}

proof fn lemma_log2_small(n: nat)
    requires
        n < 0x1_0000_0000_0000_0000_0000_0000_0000_0000,
    ensures
        floor_log2(n) < 128,
        n > 0 ==> pow2(floor_log2(n)) <= n < 2 * pow2(floor_log2(n)),
{
    lemma_log2_bound(n, 128);
    lemma2_to64();
    vstd::arithmetic::power2::lemma_pow2_adds(64, 64);
    if n > 0 {
        lemma_log2(n);
    }
}

proof fn lemma_log2_bound(n: nat, k: nat)
    requires
        k > 0,
        n < pow2(k) || k >= 128 && n < 0x1_0000_0000_0000_0000_0000_0000_0000_0000,
    ensures
        floor_log2(n) < k,
    decreases n,
{
    lemma2_to64();
    if n >= 2 {
        if n < pow2(k) {
            vstd::arithmetic::power2::lemma_pow2_unfold(k);
            if k == 1 {
                assert(false);
            }
            lemma_log2_bound(n / 2, (k - 1) as nat);
        } else {
            vstd::arithmetic::power2::lemma_pow2_adds(64, 64);
            if k > 128 {
                lemma_pow2_strictly_increases(128, k);
            }
            assert(pow2(128) == 0x1_0000_0000_0000_0000nat * 0x1_0000_0000_0000_0000nat);
            assert(false);
        }
    }
}

proof fn lemma_log2(n: nat)
    requires
        n > 0,
    ensures
        pow2(floor_log2(n)) <= n < 2 * pow2(floor_log2(n)),
    decreases n,
{
    lemma2_to64();
    if n >= 2 {
        lemma_log2(n / 2);
        vstd::arithmetic::power2::lemma_pow2_unfold(floor_log2(n));
    }
}

fn power_of_two(e: u64) -> (r: u128)
    requires
        e <= 64,
    ensures
        r == pow2(e as nat),
        0 < r <= 0x1_0000_0000_0000_0000,
    decreases e,
{
    proof {
        lemma2_to64();
        lemma_pow2_pos(e as nat);
        if e < 64 {
            lemma_pow2_strictly_increases(e as nat, 64);
        }
    }
    if e == 0 {
        1
    } else {
        proof {
            vstd::arithmetic::power2::lemma_pow2_unfold(e as nat);
            lemma_pow2_strictly_increases((e - 1) as nat, e as nat);
        }
        2 * power_of_two(e - 1)
    }
}

/// The bits of the double nearest to `n`.
pub fn double_bits(n: u64) -> (r: u64)
    ensures
        r == double_bits_of(n as nat),
{
    let m: u128 = as_double(n);
    if m == 0 {
        return 0;
    }
    let e: u64 = log2(m);
    proof {
        lemma_log2(m as nat);
        lemma2_to64();
        if e > 64 {
            lemma_pow2_strictly_increases(64, e as nat);
        }
    }
    let p: u128 = power_of_two(e);
    assert((m * 0x10_0000_0000_0000) / (p as int) < 0x20_0000_0000_0000) by (nonlinear_arith)
        requires
            0 < p,
            m < 2 * p,
    ;
    let fraction: u128 = m * 0x10_0000_0000_0000 / p;
    (1022 + e) * 0x10_0000_0000_0000 + fraction as u64
}

/// How far apart two numbers are.
pub open spec fn distance(a: int, b: int) -> int {
    if a < b {
        b - a
    } else {
        a - b
    }
}

/// A rounded quotient is at most half a unit off, and even where it is half a
/// unit off.
pub proof fn law_a_quotient_is_rounded_to_the_nearest(n: nat, d: nat)
    requires
        d > 0,
    ensures
        2 * distance((round_half_even(n, d) * d) as int, n as int) <= d,
        2 * distance((round_half_even(n, d) * d) as int, n as int) == d ==> round_half_even(n, d) % 2 == 0,
{
    let q = n / d;
    vstd::arithmetic::div_mod::lemma_fundamental_div_mod(n as int, d as int);
    assert(d * q == q * d) by (nonlinear_arith);
    assert((q + 1) * d == q * d + d) by (nonlinear_arith);
}

/// The double nearest to a number is a multiple of the unit by which it is
/// written with 53 bits, and at most half that unit off. A number of at most 53
/// bits is a double itself.
pub proof fn law_the_nearest_double_is_within_half_a_unit(n: nat, k: nat)
    requires
        n < 0x1_0000_0000_0000_0000,
        k > 0 ==> pow2(52 + k) <= n,
        n < pow2(53 + k),
    ensures
        nearest_double(n) % pow2(k) == 0,
        2 * distance(nearest_double(n) as int, n as int) <= pow2(k),
        n < 0x20_0000_0000_0000 ==> nearest_double(n) == n,
{
    lemma_nearest_bound(n);
    lemma_excess_is(n, k);
    lemma_pow2_pos(k);
    let unit = pow2(k);
    let q = round_half_even(n, unit);
    law_a_quotient_is_rounded_to_the_nearest(n, unit);
    vstd::arithmetic::div_mod::lemma_mod_multiples_basic(q as int, unit as int);
}

proof fn lemma_fifty_two_bits()
    ensures
        pow2(52) == 0x10_0000_0000_0000,
        pow2(53) == 0x20_0000_0000_0000,
{
    lemma2_to64();
    vstd::arithmetic::power2::lemma_pow2_adds(32, 20);
    vstd::arithmetic::power2::lemma_pow2_unfold(53);
}

proof fn lemma_excess_is(n: nat, k: nat)
    requires
        k > 0 ==> pow2(52 + k) <= n,
        n < pow2(53 + k),
    ensures
        excess_bits(n) == k,
    decreases k,
{
    lemma_fifty_two_bits();
    vstd::arithmetic::power2::lemma_pow2_unfold(53 + k);
    if k > 0 {
        vstd::arithmetic::power2::lemma_pow2_unfold(52 + k);
        if k > 1 {
            lemma_pow2_strictly_increases(53, 52 + k);
        }
        assert(53 + (k - 1) as nat == 52 + k);
        if k > 1 {
            assert(52 + (k - 1) as nat == 51 + k);
        }
        lemma_excess_is(n / 2, (k - 1) as nat);
    }
}

/// The bits of a double give the number back: the exponent above the 52 bits of
/// the fraction, and the fraction below a leading one.
pub proof fn law_the_bits_of_a_double_give_its_number(n: nat)
    requires
        0 < n < 0x1_0000_0000_0000_0000,
    ensures
        ({
            let exponent = double_bits_of(n) / 0x10_0000_0000_0000;
            let fraction = double_bits_of(n) % 0x10_0000_0000_0000;
            &&& 1023 <= exponent <= 1087
            &&& (0x10_0000_0000_0000 + fraction) * pow2((exponent - 1023) as nat) / pow2(52)
                == nearest_double(n)
        }),
        double_bits_of(0) == 0,
{
    lemma_nearest_bound(n);
    lemma_nearest_bound(0);
    lemma2_to64();
    lemma_fifty_two_bits();
    let m = nearest_double(n);
    let e = floor_log2(m);
    lemma_log2(m);
    if e > 64 {
        lemma_pow2_strictly_increases(64, e);
    }
    let p = pow2(e);
    let c = 0x10_0000_0000_0000nat;
    assert(pow2(52) == c);
    lemma_pow2_pos(e);
    let whole = m * c / p;
    assert(c <= whole < 2 * c) by (nonlinear_arith)
        requires
            p <= m < 2 * p,
            p > 0,
            c > 0,
            whole == m * c / p,
    ;
    lemma_double_is_exact(n);
    assert(whole * p == m * c) by {
        vstd::arithmetic::div_mod::lemma_fundamental_div_mod((m * c) as int, p as int);
        assert(p * whole == whole * p) by (nonlinear_arith);
    }
    let bits = double_bits_of(n);
    assert(bits == (1022 + e) * c + whole);
    assert(bits / c == 1023 + e && bits % c == whole - c) by {
        assert(bits == (1023 + e) * c + (whole - c)) by (nonlinear_arith)
            requires
                bits == (1022 + e) * c + whole,
        ;
        vstd::arithmetic::div_mod::lemma_fundamental_div_mod_converse(
            bits as int,
            c as int,
            (1023 + e) as int,
            whole - c,
        );
    }
    assert((m * c) / c == m) by {
        vstd::arithmetic::div_mod::lemma_div_by_multiple(m as int, c as int);
    }
}

/// The number that a double holds has no bits below the 52nd behind its leading
/// one.
proof fn lemma_double_is_exact(n: nat)
    requires
        0 < n < 0x1_0000_0000_0000_0000,
    ensures
        (nearest_double(n) * 0x10_0000_0000_0000) % pow2(floor_log2(nearest_double(n))) == 0,
{
    let c = 0x10_0000_0000_0000nat;
    lemma2_to64();
    lemma_fifty_two_bits();
    lemma_nearest_bound(n);
    let m = nearest_double(n);
    let e = floor_log2(m);
    lemma_log2(m);
    let s = excess_bits(n);
    let unit = pow2(s);
    lemma_pow2_pos(s);
    let q = round_half_even(n, unit);
    assert(m == q * unit);
    if n >= 0x20_0000_0000_0000 {
        lemma_excess_top(n);
    } else {
        assert(unit == 1);
        assert(n / 1 == n && n % 1 == 0);
    }
    assert(q <= 2 * c);
    assert(m <= 2 * c * unit) by (nonlinear_arith)
        requires
            m == q * unit,
            q <= 2 * c,
    ;
    vstd::arithmetic::power2::lemma_pow2_adds(53, s);
    assert(pow2(53 + s) == 2 * c * unit);
    if e > 53 + s {
        lemma_pow2_strictly_increases(53 + s, e);
    }
    if e <= 52 {
        let d = (52 - e) as nat;
        vstd::arithmetic::power2::lemma_pow2_adds(e, d);
        let p = pow2(e);
        let o = pow2(d);
        assert(m * c == (m * o) * p) by (nonlinear_arith)
            requires
                c == p * o,
        ;
        lemma_pow2_pos(e);
        vstd::arithmetic::div_mod::lemma_mod_multiples_basic((m * o) as int, p as int);
    } else if e <= 52 + s {
        let d = (52 + s - e) as nat;
        vstd::arithmetic::power2::lemma_pow2_adds(e, d);
        vstd::arithmetic::power2::lemma_pow2_adds(52, s);
        let p = pow2(e);
        let o = pow2(d);
        assert(m * c == (q * o) * p) by (nonlinear_arith)
            requires
                m == q * unit,
                c * unit == p * o,
        ;
        lemma_pow2_pos(e);
        vstd::arithmetic::div_mod::lemma_mod_multiples_basic((q * o) as int, p as int);
    } else {
        let p = pow2(e);
        assert(e == 53 + s);
        assert(m == p);
        assert(m * c == c * p) by (nonlinear_arith)
            requires
                m == p,
        ;
        lemma_pow2_pos(e);
        vstd::arithmetic::div_mod::lemma_mod_multiples_basic(c as int, p as int);
    }
}

/// Doubles are ordered by their magnitude, those with a sign the other way round
/// and before those without; the two zeros are equal.
pub proof fn law_doubles_are_ordered_by_sign_and_magnitude(a: u64, b: u64)
    requires
        a < 0x8000_0000_0000_0000,
        b < 0x8000_0000_0000_0000,
    ensures
        a < b <==> double_key(a) < double_key(b),
        a < b <==> double_key((b + 0x8000_0000_0000_0000) as u64) < double_key(
            (a + 0x8000_0000_0000_0000) as u64,
        ),
        a > 0 || b > 0 <==> double_key((a + 0x8000_0000_0000_0000) as u64) < double_key(b),
        double_key(0x8000_0000_0000_0000) == double_key(0),
{
}

} // verus!
