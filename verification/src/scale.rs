//! Products of integers by `f32` constants, computed exactly as IEEE-754
//! single precision does them (round to nearest, ties to even) and then
//! truncated to an integer, in integer arithmetic.
use vstd::prelude::*;
use vstd::arithmetic::power2::pow2;

verus! {

/// How many low bits of `p` fall below the 24 significant bits of an `f32`.
pub open spec fn f32_ulp_exp(p: nat) -> nat
    decreases p,
{
    if p < 0x100_0000 {
        0
    } else {
        1 + f32_ulp_exp(p / 2)
    }
}

/// `p` rounded to the nearest value with 24 significant bits, ties to even:
/// the value of `p as f32`.
pub open spec fn round_f32(p: nat) -> nat {
    let u = pow2(f32_ulp_exp(p));
    let q = p / u;
    let r = p % u;
    if 2 * r > u || (2 * r == u && q % 2 == 1) {
        (q + 1) * u
    } else {
        q * u
    }
}

/// `(v as f32 * c) as u32` for the `f32` constant `c = mant * 2^-shift`:
/// the product of the rounded operands rounded again, truncated towards
/// zero and saturated at `u32::MAX`.
pub open spec fn f32_scale(v: nat, mant: nat, shift: nat) -> nat {
    let t = round_f32(round_f32(v) * mant) / pow2(shift);
    if t > u32::MAX {
        u32::MAX as nat
    } else {
        t
    }
}

proof fn lemma_ulp_step(p: nat, x: nat, u: nat, k: nat)
    requires
        u == pow2(k),
        x == p / u,
        x >= 0x100_0000,
    ensures
        x / 2 == p / (u * 2),
        pow2(k + 1) == u * 2,
        f32_ulp_exp(x) == 1 + f32_ulp_exp(x / 2),
        u * 2 <= p,
{
    vstd::arithmetic::power2::lemma_pow2_pos(k);
    vstd::arithmetic::div_mod::lemma_div_denominator(p as int, u as int, 2);
    vstd::arithmetic::power2::lemma_pow2_unfold(k + 1);
    vstd::arithmetic::div_mod::lemma_fundamental_div_mod(p as int, u as int);
    vstd::arithmetic::div_mod::lemma_mod_bound(p as int, u as int);
    assert(u * 2 <= p) by (nonlinear_arith)
        requires
            p == u * x + p % u,
            0 <= p % u,
            x >= 0x100_0000,
            u > 0,
    ;
}

/// `p` rounded to 24 significant bits, ties to even.
pub fn round_f32_exec(p: u64) -> (r: u64)
    requires
        p < 0x1000_0000_0000_0000,
    ensures
        r == round_f32(p as nat),
        r <= 2 * p,
{
    let mut x: u64 = p;
    let mut u: u64 = 1;
    let ghost mut k: nat = 0;
    proof {
        vstd::arithmetic::power2::lemma2_to64();
    }
    while x >= 0x100_0000
        invariant
            p < 0x1000_0000_0000_0000,
            u == pow2(k),
            u >= 1,
            x == p as nat / u as nat,
            u <= p || u == 1,
            f32_ulp_exp(p as nat) == k + f32_ulp_exp(x as nat),
        decreases x,
    {
        proof {
            lemma_ulp_step(p as nat, x as nat, u as nat, k);
        }
        x = x / 2;
        u = u * 2;
        proof {
            k = k + 1;
        }
    }
    assert(f32_ulp_exp(x as nat) == 0);
    let q = p / u;
    let r = p % u;
    proof {
        vstd::arithmetic::div_mod::lemma_fundamental_div_mod(p as int, u as int);
        vstd::arithmetic::div_mod::lemma_mod_bound(p as int, u as int);
        assert(q * u <= p) by (nonlinear_arith)
            requires
                p == u * q + r,
                0 <= r,
        ;
        assert((q + 1) * u == q * u + u) by (nonlinear_arith);
    }
    if 2 * r > u || (2 * r == u && q % 2 == 1) {
        (q + 1) * u
    } else {
        q * u
    }
}

/// `(v as f32 * c) as u32` for the `f32` constant `c = mant * 2^-shift`.
pub fn f32_scale_exec(v: u32, mant: u64, shift: u64) -> (r: u32)
    requires
        mant < 0x100_0000,
        shift < 64,
    ensures
        r == f32_scale(v as nat, mant as nat, shift as nat),
{
    let a = round_f32_exec(v as u64);
    assert(a * mant <= 0x2_0000_0000 * 0x100_0000) by (nonlinear_arith)
        requires
            a <= 2 * v,
            v <= u32::MAX,
            mant < 0x100_0000,
    ;
    let b = round_f32_exec(a * mant);
    let t = b >> shift;
    proof {
        vstd::bits::lemma_u64_shr_is_div(b, shift);
    }
    if t > u32::MAX as u64 {
        u32::MAX
    } else {
        t as u32
    }
}


proof fn lemma_ulp_facts(p: nat)
    ensures
        p / pow2(f32_ulp_exp(p)) < 0x100_0000,
        f32_ulp_exp(p) > 0 ==> p >= pow2(f32_ulp_exp(p)) * 0x80_0000,
    decreases p,
{
    vstd::arithmetic::power2::lemma_pow2_pos(f32_ulp_exp(p));
    if p >= 0x100_0000 {
        let e1 = f32_ulp_exp(p / 2);
        lemma_ulp_facts(p / 2);
        vstd::arithmetic::power2::lemma_pow2_pos(e1);
        vstd::arithmetic::power2::lemma_pow2_unfold(e1 + 1);
        vstd::arithmetic::div_mod::lemma_div_denominator(p as int, 2, pow2(e1) as int);
        assert(pow2(e1) * 2 == 2 * pow2(e1));
        if e1 == 0 {
            assert(pow2(0) == 1) by {
                vstd::arithmetic::power2::lemma2_to64();
            }
        } else {
            assert(p >= pow2(e1 + 1) * 0x80_0000) by (nonlinear_arith)
                requires
                    p / 2 >= pow2(e1) * 0x80_0000,
                    pow2(e1 + 1) == 2 * pow2(e1),
            ;
        }
    } else {
        assert(pow2(0) == 1) by {
            vstd::arithmetic::power2::lemma2_to64();
        }
    }
}

proof fn lemma_round_f32_upper(p: nat)
    ensures
        round_f32(p) * 0x100_0000 <= p * 0x100_0001,
{
    let e = f32_ulp_exp(p);
    let u = pow2(e);
    lemma_ulp_facts(p);
    vstd::arithmetic::power2::lemma_pow2_pos(e);
    let q = p / u;
    let r = p % u;
    vstd::arithmetic::div_mod::lemma_fundamental_div_mod(p as int, u as int);
    vstd::arithmetic::div_mod::lemma_mod_bound(p as int, u as int);
    if e == 0 {
        assert(u == 1) by {
            vstd::arithmetic::power2::lemma2_to64();
        }
        assert(p / u == p / 1 && p % u == p % 1);
        assert(p / 1 == p && p % 1 == 0);
        assert(round_f32(p) == p);
    } else {
        assert(round_f32(p) * 0x100_0000 <= p * 0x100_0001) by (nonlinear_arith)
            requires
                p == u * q + r,
                0 <= r < u,
                p >= u * 0x80_0000,
                round_f32(p) == (if 2 * r > u || (2 * r == u && q % 2 == 1) {
                    (q + 1) * u
                } else {
                    q * u
                }),
        ;
    }
}

/// `p` has `e` low bits below its 24 significant ones when `p / 2^e` has
/// exactly 24 bits (or `e` is zero and `p` has at most 24).
pub proof fn lemma_ulp_exp_at(p: nat, e: nat)
    requires
        p / pow2(e) < 0x100_0000,
        p / pow2(e) >= 0x80_0000 || e == 0,
    ensures
        f32_ulp_exp(p) == e,
    decreases e,
{
    vstd::arithmetic::power2::lemma_pow2_pos(e);
    if e == 0 {
        vstd::arithmetic::power2::lemma2_to64();
    } else {
        let e1 = (e - 1) as nat;
        vstd::arithmetic::power2::lemma_pow2_unfold(e);
        vstd::arithmetic::power2::lemma_pow2_pos(e1);
        vstd::arithmetic::div_mod::lemma_div_denominator(p as int, 2, pow2(e1) as int);
        assert(pow2(e) == 2 * pow2(e1));
        assert(p >= 0x100_0000) by {
            vstd::arithmetic::div_mod::lemma_fundamental_div_mod(p as int, pow2(e) as int);
            vstd::arithmetic::div_mod::lemma_mod_bound(p as int, pow2(e) as int);
            assert(pow2(e) * (p / pow2(e)) >= 2 * 0x80_0000) by (nonlinear_arith)
                requires
                    pow2(e) >= 2,
                    p / pow2(e) >= 0x80_0000,
            ;
        }
        lemma_ulp_exp_at(p / 2, e1);
    }
}

/// A product by an `f32` constant below one of an integer below 2^24
/// never exceeds the integer.
pub proof fn lemma_scale_below_one(v: nat, mant: nat, shift: nat)
    requires
        mant < pow2(shift),
        v < 0x100_0000,
    ensures
        f32_scale(v, mant, shift) <= v,
{
    assert(f32_ulp_exp(v) == 0);
    assert(pow2(0) == 1) by {
        vstd::arithmetic::power2::lemma2_to64();
    }
    assert(round_f32(v) == v);
    let prod = v * mant;
    lemma_round_f32_upper(prod);
    let d = pow2(shift);
    vstd::arithmetic::power2::lemma_pow2_pos(shift);
    let rp = round_f32(prod);
    assert(rp < (v + 1) * d) by (nonlinear_arith)
        requires
            rp * 0x100_0000 <= prod * 0x100_0001,
            prod == v * mant,
            mant + 1 <= d,
            v < 0x100_0000,
    ;
    vstd::arithmetic::div_mod::lemma_fundamental_div_mod(rp as int, d as int);
    vstd::arithmetic::div_mod::lemma_mod_bound(rp as int, d as int);
    assert(rp / d <= v) by (nonlinear_arith)
        requires
            rp < (v + 1) * d,
            rp == d * (rp / d) + rp % d,
            0 <= rp % d,
            d > 0,
    ;
}

/// A product by an `f32` constant at most `k` of an integer below 2^24
/// is at most `2 * k` times the integer.
pub proof fn lemma_scale_at_most(v: nat, mant: nat, shift: nat, k: nat)
    requires
        mant <= k * pow2(shift),
        v < 0x100_0000,
    ensures
        f32_scale(v, mant, shift) <= 2 * k * v,
{
    assert(f32_ulp_exp(v) == 0);
    assert(pow2(0) == 1) by {
        vstd::arithmetic::power2::lemma2_to64();
    }
    assert(round_f32(v) == v);
    let prod = v * mant;
    lemma_round_f32_upper(prod);
    let d = pow2(shift);
    vstd::arithmetic::power2::lemma_pow2_pos(shift);
    let rp = round_f32(prod);
    assert(rp <= 2 * k * v * d) by (nonlinear_arith)
        requires
            rp * 0x100_0000 <= prod * 0x100_0001,
            prod == v * mant,
            mant <= k * d,
    ;
    vstd::arithmetic::div_mod::lemma_fundamental_div_mod(rp as int, d as int);
    vstd::arithmetic::div_mod::lemma_mod_bound(rp as int, d as int);
    assert(rp / d <= 2 * k * v) by (nonlinear_arith)
        requires
            rp <= 2 * k * v * d,
            rp == d * (rp / d) + rp % d,
            0 <= rp % d,
            d > 0,
    ;
}

} // verus!
