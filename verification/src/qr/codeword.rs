//! Reed–Solomon codewords as polynomials over GF(2^8): the data followed by
//! its error-correction codewords vanishes at every root of the generator.
use vstd::prelude::*;
use crate::qr::gf::{
    gf_exp_spec, gf_mul_spec, lemma_mul_assoc, lemma_mul_comm, lemma_mul_dist_left, lemma_mul_dist_right,
    lemma_mul_one_left, lemma_mul_zero_left, lemma_xor_zero, rs_division_buffer, rs_division_step, rs_ec_spec,
    rs_generator_spec, times_linear, times_linear_coef,
};

verus! {

/// The value at `x` of the polynomial with coefficients `p`, highest
/// degree first (Horner's rule).
pub open spec fn poly_eval(p: Seq<u8>, x: u8) -> u8
    decreases p.len(),
{
    if p.len() == 0 {
        0u8
    } else {
        gf_mul_spec(poly_eval(p.drop_last(), x), x) ^ p.last()
    }
}

/// `n` zero coefficients.
pub open spec fn zeros(n: nat) -> Seq<u8> {
    Seq::new(n, |k: int| 0u8)
}

/// The coefficient-wise sum of two polynomials of the same length.
pub open spec fn poly_xor(p: Seq<u8>, q: Seq<u8>) -> Seq<u8> {
    Seq::new(p.len(), |k: int| p[k] ^ q[k])
}

/// The polynomial `p` times the constant `c`.
pub open spec fn poly_scale(p: Seq<u8>, c: u8) -> Seq<u8> {
    Seq::new(p.len(), |k: int| gf_mul_spec(p[k], c))
}

proof fn lemma_eval_push(p: Seq<u8>, v: u8, x: u8)
    ensures
        poly_eval(p.push(v), x) == gf_mul_spec(poly_eval(p, x), x) ^ v,
{
    assert(p.push(v).drop_last() =~= p);
}

proof fn lemma_xor4(a: u8, b: u8, c: u8, d: u8)
    ensures
        (a ^ b) ^ (c ^ d) == (a ^ c) ^ (b ^ d),
        a ^ 0u8 == a,
        0u8 ^ a == a,
        a ^ a == 0u8,
{
    assert((a ^ b) ^ (c ^ d) == (a ^ c) ^ (b ^ d)) by (bit_vector);
    assert(a ^ 0u8 == a) by (bit_vector);
    assert(0u8 ^ a == a) by (bit_vector);
    assert(a ^ a == 0u8) by (bit_vector);
}

/// The value of a sum is the sum of the values.
proof fn lemma_eval_xor(p: Seq<u8>, q: Seq<u8>, x: u8)
    requires
        p.len() == q.len(),
    ensures
        poly_eval(poly_xor(p, q), x) == poly_eval(p, x) ^ poly_eval(q, x),
    decreases p.len(),
{
    if p.len() == 0 {
        lemma_xor4(0u8, 0u8, 0u8, 0u8);
    } else {
        let s = poly_xor(p, q);
        assert(s.drop_last() =~= poly_xor(p.drop_last(), q.drop_last()));
        lemma_eval_xor(p.drop_last(), q.drop_last(), x);
        let a = poly_eval(p.drop_last(), x);
        let b = poly_eval(q.drop_last(), x);
        lemma_mul_dist_left(a, b, x);
        lemma_xor4(gf_mul_spec(a, x), gf_mul_spec(b, x), p.last(), q.last());
    }
}

/// Zero coefficients in front change no value.
proof fn lemma_eval_leading_zeros(n: nat, p: Seq<u8>, x: u8)
    ensures
        poly_eval(zeros(n) + p, x) == poly_eval(p, x),
    decreases n + p.len(),
{
    if p.len() == 0 {
        assert(zeros(n) + p =~= zeros(n));
        if n > 0 {
            assert(zeros(n).drop_last() =~= zeros((n - 1) as nat));
            lemma_eval_leading_zeros((n - 1) as nat, Seq::empty(), x);
            assert(zeros((n - 1) as nat) + Seq::<u8>::empty() =~= zeros((n - 1) as nat));
            lemma_mul_zero_left(x);
            lemma_xor4(0u8, 0u8, 0u8, 0u8);
        }
    } else {
        assert((zeros(n) + p).drop_last() =~= zeros(n) + p.drop_last());
        lemma_eval_leading_zeros(n, p.drop_last(), x);
    }
}

/// Zero coefficients appended keep a zero value zero.
proof fn lemma_eval_trailing_zeros(p: Seq<u8>, t: nat, x: u8)
    requires
        poly_eval(p, x) == 0u8,
    ensures
        poly_eval(p + zeros(t), x) == 0u8,
    decreases t,
{
    if t == 0 {
        assert(p + zeros(0) =~= p);
    } else {
        assert((p + zeros(t)).drop_last() =~= p + zeros((t - 1) as nat));
        lemma_eval_trailing_zeros(p, (t - 1) as nat, x);
        lemma_mul_zero_left(x);
        lemma_xor4(0u8, 0u8, 0u8, 0u8);
    }
}

/// Scaling the coefficients scales the value.
proof fn lemma_eval_scale(p: Seq<u8>, c: u8, x: u8)
    ensures
        poly_eval(poly_scale(p, c), x) == gf_mul_spec(poly_eval(p, x), c),
    decreases p.len(),
{
    if p.len() == 0 {
        lemma_mul_zero_left(c);
    } else {
        assert(poly_scale(p, c).drop_last() =~= poly_scale(p.drop_last(), c));
        lemma_eval_scale(p.drop_last(), c, x);
        let e = poly_eval(p.drop_last(), x);
        // (e * c) * x == (e * x) * c
        lemma_mul_assoc(e, c, x);
        lemma_mul_comm(c, x);
        lemma_mul_assoc(e, x, c);
        lemma_mul_dist_left(gf_mul_spec(e, x), p.last(), c);
    }
}

/// The prefixes of `g * (x + c)`: the first `k` coefficients take the
/// value of `g`'s first `k`, plus `c` times that of its first `k - 1`.
proof fn lemma_times_linear_prefix(g: Seq<u8>, c: u8, x: u8, k: nat)
    requires
        1 <= k <= g.len(),
    ensures
        poly_eval(times_linear(g, c).subrange(0, k as int), x) == poly_eval(g.subrange(0, k as int), x) ^ gf_mul_spec(
            poly_eval(g.subrange(0, k - 1), x),
            c,
        ),
    decreases k,
{
    let s = times_linear(g, c);
    if k == 1 {
        assert(s.subrange(0, 1) =~= Seq::<u8>::empty().push(s[0]));
        assert(g.subrange(0, 1) =~= Seq::<u8>::empty().push(g[0]));
        assert(g.subrange(0, 0) =~= Seq::<u8>::empty());
        lemma_eval_push(Seq::empty(), s[0], x);
        lemma_eval_push(Seq::empty(), g[0], x);
        lemma_mul_zero_left(x);
        lemma_mul_zero_left(c);
        lemma_xor4(g[0], 0u8, 0u8, 0u8);
    } else {
        let j = (k - 1) as int;
        lemma_times_linear_prefix(g, c, x, (k - 1) as nat);
        assert(s.subrange(0, k as int) =~= s.subrange(0, j).push(s[j]));
        assert(g.subrange(0, k as int) =~= g.subrange(0, j).push(g[j]));
        assert(g.subrange(0, j) =~= g.subrange(0, j - 1).push(g[j - 1]));
        let a = poly_eval(g.subrange(0, j), x);
        let b = poly_eval(g.subrange(0, j - 1), x);
        lemma_eval_push(s.subrange(0, j), s[j], x);
        lemma_eval_push(g.subrange(0, j), g[j], x);
        lemma_eval_push(g.subrange(0, j - 1), g[j - 1], x);
        assert(s[j] == times_linear_coef(g, c, j));
        // (a ^ b*c) * x == a*x ^ (b*x)*c
        lemma_mul_dist_left(a, gf_mul_spec(b, c), x);
        lemma_mul_assoc(b, c, x);
        lemma_mul_comm(c, x);
        lemma_mul_assoc(b, x, c);
        lemma_mul_dist_left(gf_mul_spec(b, x), g[j - 1], c);
        lemma_xor4(gf_mul_spec(a, x), gf_mul_spec(gf_mul_spec(b, x), c), g[j], gf_mul_spec(g[j - 1], c));
    }
}

/// The value of `g * (x + c)` is the value of `g` times `x + c`.
proof fn lemma_times_linear_eval(g: Seq<u8>, c: u8, x: u8)
    requires
        g.len() >= 1,
    ensures
        poly_eval(times_linear(g, c), x) == gf_mul_spec(poly_eval(g, x), x ^ c),
{
    let s = times_linear(g, c);
    let m = g.len() as int;
    lemma_times_linear_prefix(g, c, x, m as nat);
    assert(s =~= s.subrange(0, m).push(s[m]));
    assert(g.subrange(0, m) =~= g);
    assert(g =~= g.subrange(0, m - 1).push(g[m - 1]));
    let a = poly_eval(g, x);
    let b = poly_eval(g.subrange(0, m - 1), x);
    lemma_eval_push(s.subrange(0, m), s[m], x);
    lemma_eval_push(g.subrange(0, m - 1), g[m - 1], x);
    assert(s[m] == times_linear_coef(g, c, m));
    lemma_xor4(gf_mul_spec(g[m - 1], c), 0u8, 0u8, 0u8);
    lemma_mul_dist_left(a, gf_mul_spec(b, c), x);
    lemma_mul_assoc(b, c, x);
    lemma_mul_comm(c, x);
    lemma_mul_assoc(b, x, c);
    lemma_mul_dist_left(gf_mul_spec(b, x), g[m - 1], c);
    lemma_mul_dist_right(a, x, c);
    lemma_xor4(gf_mul_spec(a, x), gf_mul_spec(gf_mul_spec(b, x), c), gf_mul_spec(g[m - 1], c), 0u8);
    assert((gf_mul_spec(a, x) ^ gf_mul_spec(gf_mul_spec(b, x), c)) ^ gf_mul_spec(g[m - 1], c) == gf_mul_spec(a, x)
        ^ (gf_mul_spec(gf_mul_spec(b, x), c) ^ gf_mul_spec(g[m - 1], c))) by {
        let p = gf_mul_spec(a, x);
        let q = gf_mul_spec(gf_mul_spec(b, x), c);
        let r = gf_mul_spec(g[m - 1], c);
        assert((p ^ q) ^ r == p ^ (q ^ r)) by (bit_vector);
    }
}

/// The generator has `degree + 1` coefficients, the first being 1.
proof fn lemma_generator_shape(degree: nat)
    ensures
        rs_generator_spec(degree).len() == degree + 1,
        rs_generator_spec(degree)[0] == 1u8,
    decreases degree,
{
    if degree > 0 {
        lemma_generator_shape((degree - 1) as nat);
        let g = rs_generator_spec((degree - 1) as nat);
        lemma_xor4(g[0], 0u8, 0u8, 0u8);
        assert(times_linear_coef(g, gf_exp_spec((degree - 1) as nat), 0) == g[0]);
    }
}

/// The generator of degree `degree` vanishes at `2^j` for `j < degree`.
proof fn lemma_generator_roots(degree: nat, j: nat)
    requires
        j < degree,
    ensures
        poly_eval(rs_generator_spec(degree), gf_exp_spec(j)) == 0u8,
    decreases degree,
{
    let x = gf_exp_spec(j);
    let prev = rs_generator_spec((degree - 1) as nat);
    let c = gf_exp_spec((degree - 1) as nat);
    lemma_generator_shape((degree - 1) as nat);
    lemma_times_linear_eval(prev, c, x);
    if j == degree - 1 {
        lemma_xor4(x, 0u8, 0u8, 0u8);
        assert(gf_mul_spec(poly_eval(prev, x), 0u8) == 0u8);
    } else {
        lemma_generator_roots((degree - 1) as nat, j);
        lemma_mul_zero_left(x ^ c);
    }
}

/// The division buffer with its first `i` positions cleared.
pub open spec fn cleared(buf: Seq<u8>, i: int) -> Seq<u8> {
    Seq::new(buf.len(), |k: int| if k < i { 0u8 } else { buf[k] })
}

proof fn lemma_division_len(data: Seq<u8>, gen: Seq<u8>, n: nat, i: nat)
    ensures
        rs_division_buffer(data, gen, n, i).len() == data.len() + n,
    decreases i,
{
    if i > 0 {
        lemma_division_len(data, gen, n, (i - 1) as nat);
    }
}

/// One division step takes away `c * x^t * gen` with `c` the cleared
/// coefficient, which keeps the value at every root of `gen`.
proof fn lemma_division_step_eval(buf: Seq<u8>, gen: Seq<u8>, i: int, n: nat, x: u8)
    requires
        gen.len() == n + 1,
        gen[0] == 1u8,
        0 <= i,
        i + n < buf.len(),
        poly_eval(gen, x) == 0u8,
    ensures
        poly_eval(cleared(rs_division_step(buf, gen, i, n), i + 1), x) == poly_eval(cleared(buf, i), x),
{
    let next = rs_division_step(buf, gen, i, n);
    let c = buf[i];
    let t = (buf.len() - i - n - 1) as nat;
    let d = zeros(i as nat) + poly_scale(gen, c) + zeros(t);
    assert(d.len() == buf.len());
    assert(cleared(buf, i) =~= poly_xor(cleared(next, i + 1), d)) by {
        assert forall|k: int| 0 <= k < buf.len() implies #[trigger] cleared(buf, i)[k] == poly_xor(cleared(next, i + 1), d)[k] by {
            if k < i {
                lemma_xor4(0u8, 0u8, 0u8, 0u8);
            } else if k == i {
                lemma_mul_comm(gen[0], c);
                lemma_mul_one_left(c);
                lemma_xor4(c, 0u8, 0u8, 0u8);
            } else if k <= i + n {
                let v = buf[k];
                let w = gf_mul_spec(gen[k - i], c);
                assert((v ^ w) ^ w == v) by (bit_vector);
            } else {
                lemma_xor4(buf[k], 0u8, 0u8, 0u8);
            }
        }
    }
    lemma_eval_xor(cleared(next, i + 1), d, x);
    lemma_eval_scale(gen, c, x);
    lemma_mul_zero_left(c);
    lemma_eval_trailing_zeros(poly_scale(gen, c), t, x);
    assert(zeros(i as nat) + poly_scale(gen, c) + zeros(t) =~= zeros(i as nat) + (poly_scale(gen, c) + zeros(t)));
    lemma_eval_leading_zeros(i as nat, poly_scale(gen, c) + zeros(t), x);
    lemma_xor4(poly_eval(cleared(next, i + 1), x), 0u8, 0u8, 0u8);
}

/// After `i` steps the cleared buffer keeps the value of `data * x^n` at
/// every root of `gen`.
proof fn lemma_division_eval(data: Seq<u8>, gen: Seq<u8>, n: nat, i: nat, x: u8)
    requires
        gen.len() == n + 1,
        gen[0] == 1u8,
        i <= data.len(),
        poly_eval(gen, x) == 0u8,
    ensures
        poly_eval(cleared(rs_division_buffer(data, gen, n, i), i as int), x) == poly_eval(data + zeros(n), x),
    decreases i,
{
    if i == 0 {
        assert(cleared(rs_division_buffer(data, gen, n, 0), 0) =~= data + zeros(n));
    } else {
        lemma_division_eval(data, gen, n, (i - 1) as nat, x);
        lemma_division_len(data, gen, n, (i - 1) as nat);
        lemma_division_step_eval(rs_division_buffer(data, gen, n, (i - 1) as nat), gen, i - 1, n, x);
    }
}

/// Reed–Solomon error correction is right: the codeword made of `data`
/// followed by its `n` error-correction codewords, read as a polynomial
/// over GF(2^8), vanishes at `2^j` for every `j < n`.
pub proof fn law_rs_codeword_roots(data: Seq<u8>, n: nat, j: nat)
    requires
        j < n,
    ensures
        poly_eval(data + rs_ec_spec(data, n), gf_exp_spec(j)) == 0u8,
{
    let x = gf_exp_spec(j);
    let gen = rs_generator_spec(n);
    let len = data.len();
    lemma_generator_shape(n);
    lemma_generator_roots(n, j);
    lemma_division_eval(data, gen, n, len, x);
    lemma_division_len(data, gen, n, len);
    let buf = rs_division_buffer(data, gen, n, len);
    let ec = rs_ec_spec(data, n);
    assert(cleared(buf, len as int) =~= zeros(len) + ec);
    lemma_eval_leading_zeros(len, ec, x);
    assert(data + ec =~= poly_xor(data + zeros(n), zeros(len) + ec)) by {
        assert forall|k: int| 0 <= k < len + n implies #[trigger] (data + ec)[k] == poly_xor(data + zeros(n), zeros(len) + ec)[k] by {
            if k < len {
                lemma_xor4(data[k], 0u8, 0u8, 0u8);
            } else {
                lemma_xor4(ec[k - len], 0u8, 0u8, 0u8);
            }
        }
    }
    lemma_eval_xor(data + zeros(n), zeros(len) + ec, x);
    lemma_xor4(poly_eval(ec, x), 0u8, 0u8, 0u8);
}

} // verus!
