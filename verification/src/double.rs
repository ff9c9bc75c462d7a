//! Whole numbers rounded to the nearest IEEE double.
use vstd::arithmetic::power2::{lemma2_to64, lemma_pow2_unfold, pow2};
use vstd::prelude::*;

verus! {

/// Two to the power of 53: below it, every whole number is a double.
pub const EXACT_LIMIT: u128 = 9007199254740992;

/// How far apart the doubles of the size of `n` lie: one below `EXACT_LIMIT`, and twice as far with
/// every bit more.
pub open spec fn spacing(n: nat) -> nat
    decreases n,
{
    if n < EXACT_LIMIT {
        1
    } else {
        2 * spacing(n / 2)
    }
}

/// The double nearest to `n`; of two that are equally near, the one whose last bit is zero.
pub open spec fn nearest_double(n: nat) -> nat {
    let unit = spacing(n);
    let below = n / unit;
    let over = n % unit;
    if 2 * over > unit || (2 * over == unit && below % 2 == 1) {
        (below + 1) * unit
    } else {
        below * unit
    }
}

/// Two to the power of 52.
pub const FRACTION_SCALE: u128 = 4503599627370496;

/// A number of 53 bits or more has 53 bits in front of the spacing.
pub proof fn lemma_spacing(n: nat)
    ensures
        spacing(n) >= 1,
        n >= FRACTION_SCALE ==> spacing(n) * FRACTION_SCALE <= n,
        n < spacing(n) * EXACT_LIMIT,
    decreases n,
{
    if n >= EXACT_LIMIT {
        lemma_spacing(n / 2);
        let s = spacing(n / 2);
        assert(2 * s * FRACTION_SCALE == 2 * (s * FRACTION_SCALE)) by (nonlinear_arith);
        assert(2 * s * EXACT_LIMIT == 2 * (s * EXACT_LIMIT)) by (nonlinear_arith);
    }
}

/// How far apart the doubles of the size of `n` lie.
fn spacing_of(n: u128) -> (r: u128)
    ensures
        r == spacing(n as nat),
        r >= 1,
        n >= FRACTION_SCALE ==> r * FRACTION_SCALE <= n,
    decreases n,
{
    proof {
        lemma_spacing(n as nat);
        lemma_spacing(n as nat / 2);
    }
    if n < EXACT_LIMIT {
        1
    } else {
        let half: u128 = spacing_of(n / 2);
        2 * half
    }
}

/// The double nearest to `n`.
pub fn nearest(n: u128) -> (r: u128)
    requires
        n <= 0x80000000000000000000000000000000,
    ensures
        r == nearest_double(n as nat),
{
    let unit: u128 = spacing_of(n);
    let below: u128 = n / unit;
    let over: u128 = n % unit;
    proof {
        lemma_spacing(n as nat);
        vstd::arithmetic::div_mod::lemma_fundamental_div_mod(n as int, unit as int);
        assert(unit * below == below * unit) by (nonlinear_arith);
        assert((below + 1) * unit == below * unit + unit) by (nonlinear_arith);
        assert(unit <= n || unit == 1);
    }
    if 2 * over > unit || (2 * over == unit && below % 2 == 1) {
        (below + 1) * unit
    } else {
        below * unit
    }
}

/// Rounding moves a number by half the spacing at most, and past no multiple of the spacing.
pub proof fn lemma_nearest(n: nat, k: nat)
    ensures
        2 * n <= 2 * nearest_double(n) + spacing(n),
        2 * nearest_double(n) <= 2 * n + spacing(n),
        k * spacing(n) <= n ==> k * spacing(n) <= nearest_double(n),
        n <= k * spacing(n) ==> nearest_double(n) <= k * spacing(n),
        n <= k * spacing(n) && 2 * (k * spacing(n) - n) < spacing(n) ==> nearest_double(n) == k
            * spacing(n),
{
    let unit = spacing(n);
    let below = n / unit;
    let over = n % unit;
    lemma_spacing(n);
    vstd::arithmetic::div_mod::lemma_fundamental_div_mod(n as int, unit as int);
    assert(n == below * unit + over) by (nonlinear_arith)
        requires
            n == unit * below + over,
    ;
    assert((below + 1) * unit == below * unit + unit) by (nonlinear_arith);
    if k * unit <= n {
        assert(k <= below) by (nonlinear_arith)
            requires
                k * unit <= n,
                n == below * unit + over,
                over < unit,
        ;
        assert(k * unit <= below * unit) by (nonlinear_arith)
            requires
                k <= below,
        ;
    }
    if n <= k * unit {
        if over > 0 {
            assert(below + 1 <= k) by (nonlinear_arith)
                requires
                    n <= k * unit,
                    n == below * unit + over,
                    0 < over,
            ;
            assert((below + 1) * unit <= k * unit) by (nonlinear_arith)
                requires
                    below + 1 <= k,
            ;
        }
        if 2 * (k * unit - n) < unit {
            let up = if over == 0 {
                below
            } else {
                below + 1
            };
            if k > up {
                assert(k * unit >= up * unit + unit) by (nonlinear_arith)
                    requires
                        k >= up + 1,
                ;
            }
            if k < up {
                assert(k * unit + unit <= up * unit) by (nonlinear_arith)
                    requires
                        k + 1 <= up,
                ;
            }
            assert(k == up);
        }
    }
}

/// The spacing of numbers below 2^(53 + e) divides 2^e.
pub proof fn lemma_spacing_divides(n: nat, e: nat) -> (k: nat)
    requires
        n < EXACT_LIMIT * pow2(e),
    ensures
        k * spacing(n) == pow2(e),
    decreases e,
{
    if n < EXACT_LIMIT {
        assert(spacing(n) == 1);
        assert(pow2(e) * 1 == pow2(e));
        pow2(e)
    } else {
        if e == 0 {
            lemma2_to64();
            assert(false);
        }
        lemma_pow2_unfold(e);
        let half = pow2((e - 1) as nat);
        assert(n / 2 < EXACT_LIMIT * half) by (nonlinear_arith)
            requires
                n < EXACT_LIMIT * (2 * half),
        ;
        let k = lemma_spacing_divides(n / 2, (e - 1) as nat);
        let s = spacing(n / 2);
        assert(spacing(n) == 2 * s);
        assert(k * spacing(n) == 2 * (k * s)) by (nonlinear_arith)
            requires
                spacing(n) == 2 * s,
        ;
        k
    }
}

/// Below 2^53 every whole number is a double. From 2^(52 + e) up to 2^(53 + e) the doubles are the
/// multiples of 2^e, and rounding gives the nearest of them; of two that are equally near, the even
/// multiple.
pub proof fn law_nearest_double(n: nat, e: nat)
    ensures
        n < 0x20_0000_0000_0000 ==> nearest_double(n) == n,
        0x10_0000_0000_0000 * pow2(e) <= n < 0x20_0000_0000_0000 * pow2(e) ==> {
            let unit = pow2(e);
            let r = nearest_double(n);
            &&& r % unit == 0
            &&& 2 * r <= 2 * n + unit
            &&& 2 * n <= 2 * r + unit
            &&& 2 * r == 2 * n + unit || 2 * n == 2 * r + unit ==> (r / unit) % 2 == 0
        },
{
    if n < 0x20_0000_0000_0000 {
        assert(spacing(n) == 1);
        lemma_nearest(n, n);
        assert(n * spacing(n) == n);
    }
    if 0x10_0000_0000_0000 * pow2(e) <= n < 0x20_0000_0000_0000 * pow2(e) {
        lemma_spacing_is_power(n, e);
        let unit = spacing(n);
        let below = n / unit;
        let over = n % unit;
        lemma_spacing(n);
        vstd::arithmetic::div_mod::lemma_fundamental_div_mod(n as int, unit as int);
        assert(n == below * unit + over) by (nonlinear_arith)
            requires
                n == unit * below + over,
        ;
        assert((below + 1) * unit == below * unit + unit) by (nonlinear_arith);
        let m = if 2 * over > unit || (2 * over == unit && below % 2 == 1) {
            below + 1
        } else {
            below
        };
        let r = nearest_double(n);
        assert(r == m * unit);
        assert(r % unit == 0 && r / unit == m) by {
            vstd::arithmetic::div_mod::lemma_fundamental_div_mod_converse(
                r as int,
                unit as int,
                m as int,
                0,
            );
        }
    }
}

proof fn lemma_spacing_is_power(n: nat, e: nat)
    requires
        0x10_0000_0000_0000 * pow2(e) <= n < 0x20_0000_0000_0000 * pow2(e),
    ensures
        spacing(n) == pow2(e),
    decreases e,
{
    lemma2_to64();
    if e > 0 {
        lemma_pow2_unfold(e);
        let half = pow2((e - 1) as nat);
        vstd::arithmetic::power2::lemma_pow2_pos((e - 1) as nat);
        assert(0x10_0000_0000_0000 * (2 * half) == 0x20_0000_0000_0000 * half) by (nonlinear_arith);
        assert(0x20_0000_0000_0000 * (2 * half) == 2 * (0x20_0000_0000_0000 * half))
            by (nonlinear_arith);
        lemma_spacing_is_power(n / 2, (e - 1) as nat);
    }
}

/// Rounding to a double moves a number by one part in 2^53 at most.
pub proof fn lemma_rounding_is_small(n: nat)
    ensures
        0x20_0000_0000_0000 * nearest_double(n) <= 0x20_0000_0000_0000 * n + n,
        0x20_0000_0000_0000 * n <= 0x20_0000_0000_0000 * nearest_double(n) + n,
{
    lemma_spacing(n);
    lemma_nearest(n, n);
    let r = nearest_double(n);
    let u = spacing(n);
    if n < FRACTION_SCALE {
        assert(u == 1);
        assert(n * u == n);
    } else {
        assert(u * 0x10_0000_0000_0000 <= n);
    }
}

} // verus!
