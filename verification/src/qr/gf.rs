//! Arithmetic in GF(2^8) with the reduction polynomial x^8 + x^4 + x^3 + x^2 + 1
//! (0x11D) and Reed-Solomon error correction over that field.
use vstd::prelude::*;

verus! {

/// Multiplication by the generator element 2 (the polynomial x), reduced by 0x11D.
pub open spec fn xtime(a: u8) -> u8 {
    if a & 0x80u8 == 0 {
        a << 1u8
    } else {
        (a << 1u8) ^ 0x1Du8
    }
}

/// Field product of `a` and `b`: the sum over the set bits `2^k` of `b`
/// of `a * x^k`, each reduced by 0x11D.
pub open spec fn gf_mul_spec(a: u8, b: u8) -> u8
    decreases b,
{
    if b == 0 {
        0
    } else {
        let rest = gf_mul_spec(xtime(a), b / 2);
        if b % 2 == 1 {
            a ^ rest
        } else {
            rest
        }
    }
}

/// The `k`-th power of the generator element 2.
pub open spec fn gf_pow2(k: nat) -> u8
    decreases k,
{
    if k == 0 {
        1
    } else {
        xtime(gf_pow2((k - 1) as nat))
    }
}

/// The exponential table lookup: `2^(n mod 255)`.
pub open spec fn gf_exp_spec(n: nat) -> u8 {
    gf_pow2(n % 255)
}

/// Zero is the neutral element of XOR.
pub proof fn lemma_xor_zero(v: u8)
    ensures
        0u8 ^ v == v,
        v ^ 0u8 == v,
{
    assert(0u8 ^ v == v) by (bit_vector);
    assert(v ^ 0u8 == v) by (bit_vector);
}

// ─── Field laws ──────────────────────────────────────────────────────────────

/// One step of the product: the low bit of `b`, then `x * a` times `b / 2`.
pub proof fn lemma_mul_unfold(a: u8, b: u8)
    ensures
        gf_mul_spec(a, b) == (if b % 2 == 1 { a } else { 0u8 }) ^ gf_mul_spec(xtime(a), b / 2),
{
    if b == 0 {
        assert(gf_mul_spec(xtime(a), 0) == 0u8);
        assert(0u8 ^ 0u8 == 0u8) by (bit_vector);
    } else if b % 2 == 0 {
        lemma_xor_zero(gf_mul_spec(xtime(a), b / 2));
    }
}

/// Multiplying by `x` distributes over XOR.
pub proof fn lemma_xtime_xor(a: u8, b: u8)
    ensures
        xtime(a ^ b) == xtime(a) ^ xtime(b),
        xtime(0u8) == 0u8,
{
    assert(xtime(a ^ b) == xtime(a) ^ xtime(b)) by (bit_vector);
    assert(xtime(0u8) == 0u8) by (bit_vector);
}

/// Zero times anything is zero.
pub proof fn lemma_mul_zero_left(b: u8)
    ensures
        gf_mul_spec(0u8, b) == 0u8,
    decreases b,
{
    if b != 0 {
        lemma_xtime_xor(0u8, 0u8);
        lemma_mul_zero_left(b / 2);
        lemma_xor_zero(0u8);
    }
}

/// The product distributes over XOR in its first argument.
pub proof fn lemma_mul_dist_left(a1: u8, a2: u8, b: u8)
    ensures
        gf_mul_spec(a1 ^ a2, b) == gf_mul_spec(a1, b) ^ gf_mul_spec(a2, b),
    decreases b,
{
    if b == 0 {
        assert(0u8 ^ 0u8 == 0u8) by (bit_vector);
    } else {
        lemma_xtime_xor(a1, a2);
        lemma_mul_dist_left(xtime(a1), xtime(a2), b / 2);
        lemma_mul_unfold(a1 ^ a2, b);
        lemma_mul_unfold(a1, b);
        lemma_mul_unfold(a2, b);
        let m1 = gf_mul_spec(xtime(a1), b / 2);
        let m2 = gf_mul_spec(xtime(a2), b / 2);
        if b % 2 == 1 {
            assert((a1 ^ a2) ^ (m1 ^ m2) == (a1 ^ m1) ^ (a2 ^ m2)) by (bit_vector);
        } else {
            assert(0u8 ^ (m1 ^ m2) == (0u8 ^ m1) ^ (0u8 ^ m2)) by (bit_vector);
        }
    }
}

/// The product distributes over XOR in its second argument.
pub proof fn lemma_mul_dist_right(a: u8, b1: u8, b2: u8)
    ensures
        gf_mul_spec(a, b1 ^ b2) == gf_mul_spec(a, b1) ^ gf_mul_spec(a, b2),
    decreases b1 + b2,
{
    assert((b1 ^ b2) % 2 == 1 <==> (b1 % 2 == 1) != (b2 % 2 == 1)) by (bit_vector);
    assert((b1 ^ b2) / 2 == (b1 / 2) ^ (b2 / 2)) by (bit_vector);
    if b1 == 0 && b2 == 0 {
        assert(0u8 ^ 0u8 == 0u8) by (bit_vector);
    } else {
        lemma_mul_dist_right(xtime(a), b1 / 2, b2 / 2);
        lemma_mul_unfold(a, b1 ^ b2);
        lemma_mul_unfold(a, b1);
        lemma_mul_unfold(a, b2);
        let m1 = gf_mul_spec(xtime(a), b1 / 2);
        let m2 = gf_mul_spec(xtime(a), b2 / 2);
        let t1 = if b1 % 2 == 1 { a } else { 0u8 };
        let t2 = if b2 % 2 == 1 { a } else { 0u8 };
        let t = if (b1 ^ b2) % 2 == 1 { a } else { 0u8 };
        assert(t == t1 ^ t2) by {
            assert(a ^ 0u8 == a && 0u8 ^ a == a && a ^ a == 0u8 && 0u8 ^ 0u8 == 0u8) by (bit_vector);
        }
        assert((t1 ^ t2) ^ (m1 ^ m2) == (t1 ^ m1) ^ (t2 ^ m2)) by (bit_vector);
    }
}

/// Multiplying a product by `x` multiplies its first factor by `x`.
pub proof fn lemma_xtime_mul(a: u8, b: u8)
    ensures
        xtime(gf_mul_spec(a, b)) == gf_mul_spec(xtime(a), b),
    decreases b,
{
    if b == 0 {
        lemma_xtime_xor(0u8, 0u8);
    } else {
        lemma_xtime_mul(xtime(a), b / 2);
        lemma_mul_unfold(a, b);
        lemma_mul_unfold(xtime(a), b);
        let t = if b % 2 == 1 { a } else { 0u8 };
        lemma_xtime_xor(t, gf_mul_spec(xtime(a), b / 2));
    }
}

/// `x^8 = x^4 + x^3 + x^2 + 1` in this field.
proof fn lemma_x8(a: u8)
    ensures
        xtime(xtime(xtime(xtime(xtime(xtime(xtime(xtime(a)))))))) == a ^ (xtime(xtime(a)) ^ (xtime(xtime(xtime(a))) ^ (
        xtime(xtime(xtime(xtime(a)))) ^ 0u8))),
{
    let a1 = xtime(a);
    let a2 = xtime(a1);
    let a3 = xtime(a2);
    let a4 = xtime(a3);
    let a5 = xtime(a4);
    let a6 = xtime(a5);
    let a7 = xtime(a6);
    let a8 = xtime(a7);
    assert(a8 == a ^ (a2 ^ (a3 ^ (a4 ^ 0u8)))) by (bit_vector)
        requires
            a1 == xtime(a),
            a2 == xtime(a1),
            a3 == xtime(a2),
            a4 == xtime(a3),
            a5 == xtime(a4),
            a6 == xtime(a5),
            a7 == xtime(a6),
            a8 == xtime(a7),
    ;
}

/// Multiplying the second factor by `x` is multiplying the first.
pub proof fn lemma_mul_xtime_right(a: u8, b: u8)
    ensures
        gf_mul_spec(a, xtime(b)) == gf_mul_spec(xtime(a), b),
{
    let lo = b & 0x7fu8;
    let hi = b & 0x80u8;
    let e = (lo << 1u8) as u8;
    let r: u8 = if hi == 0 { 0u8 } else { 0x1du8 };
    assert(b == lo ^ hi) by (bit_vector)
        requires
            lo == b & 0x7fu8,
            hi == b & 0x80u8,
    ;
    assert(xtime(b) == e ^ r && e % 2 == 0 && e / 2 == lo && (hi == 0u8 || hi == 0x80u8)) by (bit_vector)
        requires
            lo == b & 0x7fu8,
            hi == b & 0x80u8,
            e == (lo << 1u8) as u8,
            r == if hi == 0 { 0u8 } else { 0x1du8 },
    ;
    lemma_mul_dist_right(a, e, r);
    lemma_mul_unfold(a, e);
    lemma_xor_zero(gf_mul_spec(xtime(a), lo));
    lemma_mul_dist_right(xtime(a), lo, hi);
    if hi == 0 {
        assert(gf_mul_spec(a, 0u8) == 0u8);
        assert(gf_mul_spec(xtime(a), 0u8) == 0u8);
    } else {
        let a1 = xtime(a);
        let a2 = xtime(a1);
        let a3 = xtime(a2);
        let a4 = xtime(a3);
        let a5 = xtime(a4);
        let a6 = xtime(a5);
        let a7 = xtime(a6);
        let a8 = xtime(a7);
        lemma_mul_unfold(a1, 128);
        lemma_mul_unfold(a2, 64);
        lemma_mul_unfold(a3, 32);
        lemma_mul_unfold(a4, 16);
        lemma_mul_unfold(a5, 8);
        lemma_mul_unfold(a6, 4);
        lemma_mul_unfold(a7, 2);
        lemma_mul_unfold(a8, 1);
        lemma_xor_zero(gf_mul_spec(a2, 64));
        lemma_xor_zero(gf_mul_spec(a3, 32));
        lemma_xor_zero(gf_mul_spec(a4, 16));
        lemma_xor_zero(gf_mul_spec(a5, 8));
        lemma_xor_zero(gf_mul_spec(a6, 4));
        lemma_xor_zero(gf_mul_spec(a7, 2));
        lemma_xor_zero(gf_mul_spec(a8, 1));
        lemma_mul_unfold(a, 29);
        lemma_mul_unfold(a1, 14);
        lemma_mul_unfold(a2, 7);
        lemma_mul_unfold(a3, 3);
        lemma_mul_unfold(a4, 1);
        lemma_xor_zero(gf_mul_spec(a2, 7));
        lemma_xor_zero(a8);
        lemma_xor_zero(a4);
        assert(gf_mul_spec(xtime(a8), 0) == 0u8);
        assert(gf_mul_spec(a5, 0) == 0u8);
        assert(gf_mul_spec(a8, 1) == a8);
        assert(gf_mul_spec(a1, 128) == a8);
        lemma_x8(a);
        assert(gf_mul_spec(xtime(a), 0x80u8) == gf_mul_spec(a, 0x1du8));
    }
}

/// One is neutral on the left.
pub proof fn lemma_mul_one_left(a: u8)
    ensures
        gf_mul_spec(1u8, a) == a,
    decreases a,
{
    if a != 0 {
        lemma_mul_one_left(a / 2);
        lemma_mul_unfold(1u8, a);
        lemma_xtime_mul(1u8, a / 2);
        assert(xtime(1u8) == 2u8) by (bit_vector);
        let h = a / 2;
        assert((if a % 2 == 1 { 1u8 } else { 0u8 }) ^ xtime(h) == a) by (bit_vector)
            requires
                h == a / 2,
        ;
    }
}

/// The product is associative.
pub proof fn lemma_mul_assoc(a: u8, b: u8, c: u8)
    ensures
        gf_mul_spec(gf_mul_spec(a, b), c) == gf_mul_spec(a, gf_mul_spec(b, c)),
    decreases c,
{
    if c == 0 {
        assert(gf_mul_spec(a, 0u8) == 0u8);
    } else {
        lemma_mul_assoc(a, xtime(b), c / 2);
        lemma_mul_unfold(gf_mul_spec(a, b), c);
        lemma_xtime_mul(a, b);
        lemma_mul_xtime_right(a, b);
        lemma_mul_unfold(b, c);
        let t = if c % 2 == 1 { b } else { 0u8 };
        lemma_mul_dist_right(a, t, gf_mul_spec(xtime(b), c / 2));
        assert(gf_mul_spec(a, 0u8) == 0u8);
    }
}

/// The product is commutative.
pub proof fn lemma_mul_comm(a: u8, b: u8)
    ensures
        gf_mul_spec(a, b) == gf_mul_spec(b, a),
    decreases b,
{
    if b == 0 {
        lemma_mul_zero_left(a);
    } else {
        let h = b / 2;
        lemma_mul_comm(xtime(a), h);
        lemma_mul_unfold(a, b);
        lemma_mul_xtime_right(h, a);
        let lo = b & 1u8;
        let rest = xtime(h);
        assert(b == lo ^ rest && (lo == 0u8 || lo == 1u8) && (lo == 1u8 <==> b % 2 == 1)) by (bit_vector)
            requires
                h == b / 2,
                lo == b & 1u8,
                rest == xtime(h),
        ;
        lemma_mul_dist_left(lo, rest, a);
        if lo == 1u8 {
            lemma_mul_one_left(a);
        } else {
            lemma_mul_zero_left(a);
        }
    }
}

fn xtime_exec(a: u8) -> (r: u8)
    ensures
        r == xtime(a),
{
    if a & 0x80u8 == 0 {
        a << 1u8
    } else {
        (a << 1u8) ^ 0x1Du8
    }
}

pub fn gf_mul(a: u8, b: u8) -> (r: u8)
    ensures
        r == gf_mul_spec(a, b),
{
    let mut x = a;
    let mut y = b;
    let mut acc: u8 = 0;
    proof {
        lemma_xor_zero(gf_mul_spec(a, b));
    }
    while y != 0
        invariant
            gf_mul_spec(a, b) == acc ^ gf_mul_spec(x, y),
        decreases y,
    {
        let ghost rest = gf_mul_spec(xtime(x), y / 2);
        assert(y & 1u8 == 1u8 <==> y % 2 == 1) by (bit_vector);
        assert(y >> 1u8 == y / 2) by (bit_vector);
        if y & 1u8 == 1u8 {
            assert(acc ^ (x ^ rest) == (acc ^ x) ^ rest) by (bit_vector);
            acc = acc ^ x;
        }
        x = xtime_exec(x);
        y = y >> 1u8;
    }
    proof {
        lemma_xor_zero(acc);
    }
    acc
}

pub fn gf_exp(n: usize) -> (r: u8)
    ensures
        r == gf_exp_spec(n as nat),
{
    let k = n % 255;
    let mut i: usize = 0;
    let mut v: u8 = 1;
    while i < k
        invariant
            i <= k,
            k == n % 255,
            v == gf_pow2(i as nat),
        decreases k - i,
    {
        v = xtime_exec(v);
        i = i + 1;
    }
    v
}


/// Coefficient `k` of `g(x) * (x + c)` where `g` is given highest degree first.
pub open spec fn times_linear_coef(g: Seq<u8>, c: u8, k: int) -> u8 {
    (if k < g.len() { g[k] } else { 0u8 }) ^ (if k >= 1 { gf_mul_spec(g[k - 1], c) } else { 0u8 })
}

/// The polynomial `g(x) * (x + c)`, coefficients highest degree first.
pub open spec fn times_linear(g: Seq<u8>, c: u8) -> Seq<u8> {
    Seq::new(g.len() + 1, |k: int| times_linear_coef(g, c, k))
}

/// The Reed-Solomon generator polynomial of the given degree:
/// the product of `(x + 2^i)` for `i` in `0..degree`, highest degree first.
pub open spec fn rs_generator_spec(degree: nat) -> Seq<u8>
    decreases degree,
{
    if degree == 0 {
        seq![1u8]
    } else {
        times_linear(rs_generator_spec((degree - 1) as nat), gf_exp_spec((degree - 1) as nat))
    }
}

/// One step of synthetic division: eliminate position `i` of `buf` with the
/// generator `generator` of degree `n`.
pub open spec fn rs_division_step(buf: Seq<u8>, generator: Seq<u8>, i: int, n: nat) -> Seq<u8> {
    Seq::new(
        buf.len(),
        |k: int|
            if i + 1 <= k && k <= i + n {
                buf[k] ^ gf_mul_spec(generator[k - i], buf[i])
            } else {
                buf[k]
            },
    )
}

/// The division buffer after the first `i` steps, starting from
/// `data` followed by `n` zero bytes.
pub open spec fn rs_division_buffer(data: Seq<u8>, generator: Seq<u8>, n: nat, i: nat) -> Seq<u8>
    decreases i,
{
    if i == 0 {
        data + Seq::new(n, |k: int| 0u8)
    } else {
        rs_division_step(rs_division_buffer(data, generator, n, (i - 1) as nat), generator, i - 1, n)
    }
}

/// The `n` error-correction codewords of `data`: the remainder of
/// `data(x) * x^n` divided by the generator polynomial of degree `n`.
pub open spec fn rs_ec_spec(data: Seq<u8>, n: nat) -> Seq<u8> {
    rs_division_buffer(data, rs_generator_spec(n), n, data.len()).subrange(
        data.len() as int,
        (data.len() + n) as int,
    )
}

/// XOR is commutative.
pub proof fn lemma_xor_comm(a: u8, b: u8)
    ensures
        a ^ b == b ^ a,
{
    assert(a ^ b == b ^ a) by (bit_vector);
}

/// The generator polynomial of degree `degree`, highest degree first.
pub fn rs_generator(degree: usize) -> (g: Vec<u8>)
    requires
        degree < usize::MAX,
    ensures
        g@ == rs_generator_spec(degree as nat),
        g@.len() == degree + 1,
{
    let mut g: Vec<u8> = vec![1u8];
    assert(g@ =~= seq![1u8]);
    let mut i: usize = 0;
    while i < degree
        invariant
            i <= degree,
            degree < usize::MAX,
            g@ == rs_generator_spec(i as nat),
            g@.len() == i + 1,
        decreases degree - i,
    {
        let c = gf_exp(i);
        let n = g.len();
        let mut res: Vec<u8> = Vec::new();
        let mut z: usize = 0;
        while z < n + 1
            invariant
                n < usize::MAX,
                z <= n + 1,
                res@.len() == z,
                forall|k: int| 0 <= k < z ==> res@[k] == 0u8,
            decreases n + 1 - z,
        {
            res.push(0u8);
            z = z + 1;
        }
        let mut j: usize = 0;
        while j < n
            invariant
                n == g@.len(),
                j <= n,
                res@.len() == n + 1,
                forall|k: int| 0 <= k < j ==> res@[k] == times_linear_coef(g@, c, k),
                res@[j as int] == (if j >= 1 { gf_mul_spec(g@[j - 1], c) } else { 0u8 }),
                forall|k: int| j < k <= n ==> res@[k] == 0u8,
            decreases n - j,
        {
            let gj = g[j];
            let m = gf_mul(gj, c);
            let cur = res[j];
            proof {
                lemma_xor_comm(cur, gj);
                lemma_xor_zero(m);
            }
            res.set(j, cur ^ gj);
            let next = res[j + 1];
            res.set(j + 1, next ^ m);
            j = j + 1;
        }
        proof {
            lemma_xor_zero(res@[n as int]);
            assert(times_linear_coef(g@, c, n as int) == res@[n as int]);
            assert(res@ =~= times_linear(g@, c));
        }
        g = res;
        i = i + 1;
    }
    g
}

/// The `num_ec` Reed-Solomon error-correction codewords of `data`.
pub fn rs_ec_codewords(data: &[u8], num_ec: usize) -> (ec: Vec<u8>)
    requires
        data@.len() + num_ec < usize::MAX,
    ensures
        ec@ == rs_ec_spec(data@, num_ec as nat),
        ec@.len() == num_ec,
{
    let generator = rs_generator(num_ec);
    let ghost gs = generator@;
    let len = data.len();
    let mut buf: Vec<u8> = Vec::new();
    let mut k: usize = 0;
    while k < len
        invariant
            k <= len,
            len == data@.len(),
            buf@ == data@.subrange(0, k as int),
        decreases len - k,
    {
        buf.push(data[k]);
        k = k + 1;
    }
    let mut z: usize = 0;
    while z < num_ec
        invariant
            z <= num_ec,
            len == data@.len(),
            buf@ == data@ + Seq::new(z as nat, |q: int| 0u8),
        decreases num_ec - z,
    {
        buf.push(0u8);
        z = z + 1;
        assert(buf@ =~= data@ + Seq::new(z as nat, |q: int| 0u8));
    }
    assert(buf@ =~= rs_division_buffer(data@, gs, num_ec as nat, 0));
    let mut i: usize = 0;
    while i < len
        invariant
            i <= len,
            len == data@.len(),
            len + num_ec < usize::MAX,
            generator@ == gs,
            gs.len() == num_ec + 1,
            buf@ == rs_division_buffer(data@, gs, num_ec as nat, i as nat),
            buf@.len() == len + num_ec,
        decreases len - i,
    {
        let ghost before = buf@;
        let coef = buf[i];
        if coef != 0 {
            let mut j: usize = 0;
            while j < num_ec
                invariant
                    i < len,
                    len + num_ec < usize::MAX,
                    j <= num_ec,
                    generator@ == gs,
                    gs.len() == num_ec + 1,
                    before.len() == len + num_ec,
                    coef == before[i as int],
                    buf@.len() == before.len(),
                    forall|q: int|
                        0 <= q < before.len() ==> buf@[q] == if i + 1 <= q && q <= i + j {
                            before[q] ^ gf_mul_spec(gs[q - i], coef)
                        } else {
                            before[q]
                        },
                decreases num_ec - j,
            {
                let m = gf_mul(generator[j + 1], coef);
                let cur = buf[i + 1 + j];
                buf.set(i + 1 + j, cur ^ m);
                j = j + 1;
            }
        } else {
            assert forall|b: u8| #[trigger] gf_mul_spec(b, coef) == 0u8 by {
            }
            assert forall|q: int| 0 <= q < before.len() implies before[q] ^ 0u8 == before[q] by {
                lemma_xor_zero(before[q]);
            }
        }
        assert(buf@ =~= rs_division_step(before, gs, i as int, num_ec as nat));
        i = i + 1;
    }
    let mut ec: Vec<u8> = Vec::new();
    let mut t: usize = 0;
    while t < num_ec
        invariant
            t <= num_ec,
            len + num_ec < usize::MAX,
            buf@.len() == len + num_ec,
            ec@ == buf@.subrange(len as int, (len + t) as int),
        decreases num_ec - t,
    {
        ec.push(buf[len + t]);
        t = t + 1;
        assert(ec@ =~= buf@.subrange(len as int, (len + t) as int));
    }
    ec
}

} // verus!
