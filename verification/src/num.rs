//! Powers of two, and numbers rounded to them.

use vstd::arithmetic::power2::*;
use vstd::prelude::*;

verus! {

/// The exponent of the largest power of two that does not pass `n`.
pub open spec fn floor_log2(n: nat) -> nat
    decreases n,
{
    if n < 2 {
        0
    } else {
        1 + floor_log2(n / 2)
    }
}

/// Whether a number is a power of two.
pub open spec fn is_power_of_two(n: int) -> bool {
    n > 0 && n == pow2(floor_log2(n as nat))
}

/// A quotient rounded up.
pub open spec fn div_up(a: int, b: int) -> int {
    (a + b - 1) / b
}

/// A number lies between the power of two its logarithm names and the next.
pub proof fn lemma_floor_log2(n: nat)
    requires
        n > 0,
    ensures
        pow2(floor_log2(n)) <= n < 2 * pow2(floor_log2(n)),
    decreases n,
{
    lemma2_to64();
    if n >= 2 {
        lemma_floor_log2(n / 2);
        lemma_pow2_unfold(floor_log2(n));
    }
}

/// The logarithm of a power of two is its exponent.
pub proof fn lemma_log2_of_pow2(k: nat)
    ensures
        floor_log2(pow2(k)) == k,
        is_power_of_two(pow2(k) as int),
    decreases k,
{
    lemma2_to64();
    lemma_pow2_pos(k);
    if k > 0 {
        lemma_pow2_unfold(k);
        lemma_log2_of_pow2((k - 1) as nat);
        lemma_pow2_pos((k - 1) as nat);
        assert(pow2(k) / 2 == pow2((k - 1) as nat));
    }
}

/// Of two powers of two, the smaller divides the larger.
pub proof fn lemma_pow2_divides(a: nat, b: nat)
    requires
        a <= b,
    ensures
        pow2(b) == pow2((b - a) as nat) * pow2(a),
        pow2(b) % pow2(a) == 0,
        pow2(b) / pow2(a) == pow2((b - a) as nat),
        pow2(a) > 0,
{
    lemma_pow2_adds((b - a) as nat, a);
    lemma_pow2_pos(a);
    vstd::arithmetic::div_mod::lemma_mod_multiples_basic(
        pow2((b - a) as nat) as int,
        pow2(a) as int,
    );
    vstd::arithmetic::div_mod::lemma_div_multiples_vanish(
        pow2((b - a) as nat) as int,
        pow2(a) as int,
    );
    assert(pow2(a) * pow2((b - a) as nat) == pow2((b - a) as nat) * pow2(a)) by (nonlinear_arith);
}

/// A larger exponent gives a larger power, and the other way round.
pub proof fn lemma_pow2_ordered(a: nat, b: nat)
    ensures
        a < b <==> pow2(a) < pow2(b),
        a == b <==> pow2(a) == pow2(b),
{
    if a < b {
        lemma_pow2_strictly_increases(a, b);
    }
    if b < a {
        lemma_pow2_strictly_increases(b, a);
    }
}

/// The largest power of two that does not pass `n`, with its exponent.
pub fn floor_pow2(n: u32) -> (r: (u32, u32))
    requires
        n > 0,
    ensures
        r.0 == floor_log2(n as nat),
        r.1 == pow2(floor_log2(n as nat)),
        r.0 < 32,
{
    let mut k: u32 = 0;
    let mut p: u32 = 1;
    proof {
        lemma2_to64();
    }
    while n / 2 >= p
        invariant
            n > 0,
            p == pow2(k as nat),
            p <= n,
            k < 32,
        decreases n - p,
    {
        proof {
            lemma_pow2_unfold((k + 1) as nat);
            lemma2_to64();
            if k == 31 {
                assert(p == 0x8000_0000);
            }
        }
        p = p * 2;
        k = k + 1;
    }
    proof {
        assert(n < 2 * p);
        let j = floor_log2(n as nat);
        lemma_floor_log2(n as nat);
        lemma_pow2_unfold((k + 1) as nat);
        lemma_pow2_unfold((j + 1) as nat);
        lemma_pow2_ordered(k as nat, (j + 1) as nat);
        lemma_pow2_ordered(j, (k + 1) as nat);
    }
    (k, p)
}

/// A quotient rounded up.
pub fn div_ceil(a: u32, b: u32) -> (q: u32)
    requires
        b > 0,
    ensures
        q == div_up(a as int, b as int),
{
    let q: u32 = a / b;
    let ghost rem = a as int % b as int;
    proof {
        vstd::arithmetic::div_mod::lemma_fundamental_div_mod(a as int, b as int);
        assert(div_up(a as int, b as int) == if rem == 0 {
            q as int
        } else {
            q + 1
        }) by (nonlinear_arith)
            requires
                b > 0,
                a == b * q + rem,
                0 <= rem < b,
                div_up(a as int, b as int) == (a + b - 1) / b as int,
        ;
        if rem != 0 {
            assert(q < u32::MAX) by (nonlinear_arith)
                requires
                    a == b * q + rem,
                    0 < rem < b,
                    a <= 0xffff_ffff,
                    q >= 0,
            ;
        }
    }
    if a % b == 0 {
        q
    } else {
        q + 1
    }
}

/// A power of two is two to some power.
pub proof fn law_a_power_of_two_is_two_to_some_power(n: int)
    ensures
        is_power_of_two(n) <==> exists|k: nat| #[trigger] pow2(k) == n,
{
    if is_power_of_two(n) {
        assert(pow2(floor_log2(n as nat)) == n);
    }
    if exists|k: nat| #[trigger] pow2(k) == n {
        let k = choose|k: nat| #[trigger] pow2(k) == n;
        lemma_log2_of_pow2(k);
        vstd::arithmetic::power2::lemma_pow2_pos(k);
    }
}

/// A quotient rounded up is the least whole number that covers what is divided.
pub proof fn law_rounding_up_covers(a: int, b: int)
    requires
        b > 0,
    ensures
        div_up(a, b) * b >= a > (div_up(a, b) - 1) * b,
{
    let q = div_up(a, b);
    assert(q * b >= a > (q - 1) * b) by (nonlinear_arith)
        requires
            b > 0,
            q == (a + b - 1) / b,
    ;
}

} // verus!
