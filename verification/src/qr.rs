//! A small QR encoder for otpauth URIs: QR Version 5 at error-correction
//! level L (37x37 modules, one block of 108 data and 26 error-correction
//! codewords, byte mode, fixed mask 0), without a third-party dependency.
use vstd::prelude::*;
use vstd::arithmetic::div_mod::lemma_fundamental_div_mod_converse;
use vstd::string::StringSliceAdditionalSpecFns;
use crate::text::{decimal, decimal_string, push_char};

verus! {

broadcast use vstd::std_specs::bits::axiom_u32_leading_zeros;

// ---------------------------------------------------------------------------
// GF(2^8) arithmetic with the QR field polynomial x^8 + x^4 + x^3 + x^2 + 1.

/// Multiplication by `x` in GF(2^8), reducing by `0x11d`.
pub open spec fn xtime(x: u8) -> u8 {
    if x & 0x80 != 0 {
        (x << 1u8) ^ 0x1du8
    } else {
        x << 1u8
    }
}

/// Product of `x` and `y` in GF(2^8): the sum of `x * 2^i` over the set bits `i` of `y`.
pub open spec fn gf_mul_spec(x: u8, y: u8) -> u8
    decreases y,
{
    if y == 0 {
        0
    } else {
        (if y % 2 == 1 {
            x
        } else {
            0u8
        }) ^ gf_mul_spec(xtime(x), y / 2)
    }
}

fn gf_mul(x: u8, y: u8) -> (r: u8)
    ensures
        r == gf_mul_spec(x, y),
{
    let mut r: u8 = 0;
    let mut x = x;
    let mut y = y;
    let ghost x0 = x;
    let ghost y0 = y;
    proof {
        let t = gf_mul_spec(x, y);
        assert(0u8 ^ t == t) by (bit_vector);
    }
    while y != 0
        invariant
            gf_mul_spec(x0, y0) == r ^ gf_mul_spec(x, y),
        decreases y,
    {
        let ghost xs = x;
        let ghost ys = y;
        let ghost rs = r;
        assert(ys & 1 != 0 <==> ys % 2 == 1) by (bit_vector);
        assert(ys >> 1 == ys / 2) by (bit_vector);
        if y & 1 != 0 {
            r ^= x;
        }
        x = if x & 0x80 != 0 {
            (x << 1u8) ^ 0x1d
        } else {
            x << 1u8
        };
        y >>= 1;
        proof {
            let a: u8 = if ys % 2 == 1 {
                xs
            } else {
                0u8
            };
            let rest = gf_mul_spec(x, y);
            assert(rs ^ (a ^ rest) == (rs ^ a) ^ rest) by (bit_vector);
            assert(rs ^ 0u8 == rs) by (bit_vector);
        }
    }
    assert(r ^ 0u8 == r) by (bit_vector);
    r
}

/// `^` on bytes: zero is neutral, every byte is its own inverse, and the
/// operation is associative and commutative.
proof fn lemma_xor_u8(a: u8, b: u8, c: u8)
    by (bit_vector)
    ensures
        a ^ 0u8 == a,
        0u8 ^ a == a,
        a ^ a == 0u8,
        (a ^ b) ^ c == a ^ (b ^ c),
        a ^ b == b ^ a,
{
}

/// Regrouping a sum of four bytes.
proof fn lemma_xor_swap(a: u8, b: u8, c: u8, d: u8)
    by (bit_vector)
    ensures
        (a ^ b) ^ (c ^ d) == (a ^ c) ^ (b ^ d),
{
}

/// The product written out over the eight bits of `y`: the sum of
/// `x * 2^i` for each set bit `i`, without recursion.
pub open spec fn gf_mul_bits(x: u8, y: u8) -> u8 {
    let x1 = xtime(x);
    let x2 = xtime(x1);
    let x3 = xtime(x2);
    let x4 = xtime(x3);
    let x5 = xtime(x4);
    let x6 = xtime(x5);
    let x7 = xtime(x6);
    (if y & 1 != 0 { x } else { 0u8 }) ^ (if y & 2 != 0 { x1 } else { 0u8 }) ^ (if y & 4 != 0 {
        x2
    } else {
        0u8
    }) ^ (if y & 8 != 0 { x3 } else { 0u8 }) ^ (if y & 16 != 0 { x4 } else { 0u8 }) ^ (if y & 32
        != 0 {
        x5
    } else {
        0u8
    }) ^ (if y & 64 != 0 { x6 } else { 0u8 }) ^ (if y & 128 != 0 { x7 } else { 0u8 })
}

proof fn lemma_gf_step(x: u8, y: u8)
    ensures
        gf_mul_spec(x, y) == (if y % 2 == 1 {
            x
        } else {
            0u8
        }) ^ gf_mul_spec(xtime(x), y / 2),
{
    if y == 0 {
        lemma_xor_u8(0, 0, 0);
    }
}

proof fn lemma_gf_mul_bits(x: u8, y: u8)
    ensures
        gf_mul_spec(x, y) == gf_mul_bits(x, y),
{
    let x1 = xtime(x);
    let x2 = xtime(x1);
    let x3 = xtime(x2);
    let x4 = xtime(x3);
    let x5 = xtime(x4);
    let x6 = xtime(x5);
    let x7 = xtime(x6);
    let x8 = xtime(x7);
    let y1 = y / 2;
    let y2 = y1 / 2;
    let y3 = y2 / 2;
    let y4 = y3 / 2;
    let y5 = y4 / 2;
    let y6 = y5 / 2;
    let y7 = y6 / 2;
    let y8 = y7 / 2;
    lemma_gf_step(x, y);
    lemma_gf_step(x1, y1);
    lemma_gf_step(x2, y2);
    lemma_gf_step(x3, y3);
    lemma_gf_step(x4, y4);
    lemma_gf_step(x5, y5);
    lemma_gf_step(x6, y6);
    lemma_gf_step(x7, y7);
    assert(y8 == 0);
    let r0 = gf_mul_spec(x, y);
    let r1 = gf_mul_spec(x1, y1);
    let r2 = gf_mul_spec(x2, y2);
    let r3 = gf_mul_spec(x3, y3);
    let r4 = gf_mul_spec(x4, y4);
    let r5 = gf_mul_spec(x5, y5);
    let r6 = gf_mul_spec(x6, y6);
    let r7 = gf_mul_spec(x7, y7);
    let r8 = gf_mul_spec(x8, y8);
    assert(r8 == 0);
    assert(r0 == gf_mul_bits(x, y)) by (bit_vector)
        requires
            x1 == xtime(x),
            x2 == xtime(x1),
            x3 == xtime(x2),
            x4 == xtime(x3),
            x5 == xtime(x4),
            x6 == xtime(x5),
            x7 == xtime(x6),
            y1 == y / 2,
            y2 == y1 / 2,
            y3 == y2 / 2,
            y4 == y3 / 2,
            y5 == y4 / 2,
            y6 == y5 / 2,
            y7 == y6 / 2,
            r0 == (if y % 2 == 1 { x } else { 0u8 }) ^ r1,
            r1 == (if y1 % 2 == 1 { x1 } else { 0u8 }) ^ r2,
            r2 == (if y2 % 2 == 1 { x2 } else { 0u8 }) ^ r3,
            r3 == (if y3 % 2 == 1 { x3 } else { 0u8 }) ^ r4,
            r4 == (if y4 % 2 == 1 { x4 } else { 0u8 }) ^ r5,
            r5 == (if y5 % 2 == 1 { x5 } else { 0u8 }) ^ r6,
            r6 == (if y6 % 2 == 1 { x6 } else { 0u8 }) ^ r7,
            r7 == (if y7 % 2 == 1 { x7 } else { 0u8 }) ^ r8,
            r8 == 0,
    ;
}

proof fn lemma_xtime_xor(u: u8, v: u8)
    ensures
        xtime(u ^ v) == xtime(u) ^ xtime(v),
        xtime(0) == 0,
{
    assert(xtime(u ^ v) == xtime(u) ^ xtime(v)) by (bit_vector);
    assert(xtime(0) == 0) by (bit_vector);
}

proof fn lemma_gf_units(a: u8)
    ensures
        gf_mul_spec(a, 0) == 0,
        gf_mul_spec(0, a) == 0,
        gf_mul_spec(a, 1) == a,
        gf_mul_spec(1, a) == a,
{
    lemma_gf_mul_bits(a, 0);
    lemma_gf_mul_bits(0, a);
    lemma_gf_mul_bits(a, 1);
    lemma_gf_mul_bits(1, a);
    assert(gf_mul_bits(a, 0) == 0) by (bit_vector);
    assert(gf_mul_bits(0, a) == 0) by (bit_vector);
    assert(gf_mul_bits(a, 1) == a) by (bit_vector);
    assert(gf_mul_bits(1, a) == a) by (bit_vector);
}

proof fn lemma_gf_left_linear(x: u8, z: u8, y: u8)
    ensures
        gf_mul_spec(x ^ z, y) == gf_mul_spec(x, y) ^ gf_mul_spec(z, y),
    decreases y,
{
    if y == 0 {
        lemma_xor_u8(0, 0, 0);
    } else {
        lemma_gf_step(x ^ z, y);
        lemma_gf_step(x, y);
        lemma_gf_step(z, y);
        lemma_xtime_xor(x, z);
        lemma_gf_left_linear(xtime(x), xtime(z), y / 2);
        let odd = y % 2 == 1;
        let p = gf_mul_spec(xtime(x), y / 2);
        let q = gf_mul_spec(xtime(z), y / 2);
        if odd {
            lemma_xor_swap(x, z, p, q);
        } else {
            lemma_xor_u8(p, q, 0);
            lemma_xor_u8(q, 0, 0);
            lemma_xor_u8(p ^ q, 0, 0);
        }
    }
}

proof fn lemma_gf_xtime_left(x: u8, y: u8)
    ensures
        gf_mul_spec(xtime(x), y) == xtime(gf_mul_spec(x, y)),
    decreases y,
{
    lemma_xtime_xor(0, 0);
    if y != 0 {
        lemma_gf_step(xtime(x), y);
        lemma_gf_step(x, y);
        lemma_gf_xtime_left(xtime(x), y / 2);
        let bx: u8 = if y % 2 == 1 { x } else { 0u8 };
        lemma_xtime_xor(bx, gf_mul_spec(xtime(x), y / 2));
    }
}

proof fn lemma_gf_commutes(a: u8, b: u8)
    ensures
        gf_mul_spec(a, b) == gf_mul_spec(b, a),
    decreases b,
{
    lemma_gf_units(a);
    if b != 0 {
        let h = b / 2;
        let bit: u8 = if b % 2 == 1 { 1u8 } else { 0u8 };
        lemma_gf_step(a, b);
        lemma_gf_xtime_left(a, h);
        lemma_gf_commutes(a, h);
        lemma_gf_xtime_left(h, a);
        assert(b == bit ^ xtime(h)) by (bit_vector)
            requires
                h == b / 2,
                bit == (if b % 2 == 1 { 1u8 } else { 0u8 }),
        ;
        lemma_gf_left_linear(bit, xtime(h), a);
    }
}

proof fn lemma_gf_xtime_right(a: u8, b: u8)
    ensures
        gf_mul_spec(a, xtime(b)) == xtime(gf_mul_spec(a, b)),
{
    lemma_gf_commutes(a, xtime(b));
    lemma_gf_xtime_left(b, a);
    lemma_gf_commutes(b, a);
}

proof fn lemma_gf_distributes(a: u8, b: u8, c: u8)
    ensures
        gf_mul_spec(a, b ^ c) == gf_mul_spec(a, b) ^ gf_mul_spec(a, c),
{
    lemma_gf_mul_bits(a, b);
    lemma_gf_mul_bits(a, c);
    lemma_gf_mul_bits(a, b ^ c);
    assert(gf_mul_bits(a, b ^ c) == gf_mul_bits(a, b) ^ gf_mul_bits(a, c)) by (bit_vector);
}

proof fn lemma_gf_associates(a: u8, b: u8, c: u8)
    ensures
        gf_mul_spec(gf_mul_spec(a, b), c) == gf_mul_spec(a, gf_mul_spec(b, c)),
    decreases c,
{
    if c != 0 {
        let ab = gf_mul_spec(a, b);
        let bit_b: u8 = if c % 2 == 1 { b } else { 0u8 };
        let bit_ab: u8 = if c % 2 == 1 { ab } else { 0u8 };
        lemma_gf_step(ab, c);
        lemma_gf_step(b, c);
        // a * (bit_b + xtime(b) * (c / 2)) = a * bit_b + (a * xtime(b)) * (c / 2)
        lemma_gf_distributes(a, bit_b, gf_mul_spec(xtime(b), c / 2));
        lemma_gf_associates(a, xtime(b), c / 2);
        lemma_gf_xtime_right(a, b);
        lemma_gf_units(a);
        assert(gf_mul_spec(a, bit_b) == bit_ab);
    }
}

/// `GF(2^8)` with this product is a field: the product is commutative and
/// associative, distributes over `^` (addition), has `1` as unit and `0` as
/// zero, and has no zero divisors.
pub proof fn gf_field_laws(a: u8, b: u8, c: u8)
    ensures
        gf_mul_spec(a, b) == gf_mul_spec(b, a),
        gf_mul_spec(a, gf_mul_spec(b, c)) == gf_mul_spec(gf_mul_spec(a, b), c),
        gf_mul_spec(a, b ^ c) == gf_mul_spec(a, b) ^ gf_mul_spec(a, c),
        gf_mul_spec(a, 1) == a,
        gf_mul_spec(a, 0) == 0,
        a != 0 && b != 0 ==> gf_mul_spec(a, b) != 0,
{
    lemma_gf_mul_bits(a, b);
    assert(a != 0 && b != 0 ==> gf_mul_bits(a, b) != 0) by (bit_vector);
    lemma_gf_units(a);
    lemma_gf_commutes(a, b);
    lemma_gf_associates(a, b, c);
    lemma_gf_distributes(a, b, c);
}

/// `alpha^k` for the generator `alpha = 2` of GF(2^8).
pub open spec fn alpha_pow(k: nat) -> u8
    decreases k,
{
    if k == 0 {
        1
    } else {
        gf_mul_spec(alpha_pow((k - 1) as nat), 2)
    }
}

/// `p(x) * (x + r)` for a polynomial given by its coefficients, highest degree first.
pub open spec fn mul_linear(p: Seq<u8>, r: u8) -> Seq<u8> {
    Seq::new(
        p.len() + 1,
        |i: int|
            (if i < p.len() {
                p[i]
            } else {
                0u8
            }) ^ (if i >= 1 {
                gf_mul_spec(p[i - 1], r)
            } else {
                0u8
            }),
    )
}

/// The Reed-Solomon generator polynomial `(x + alpha^0) ... (x + alpha^(k-1))`,
/// highest degree first.
pub open spec fn generator_poly(k: nat) -> Seq<u8>
    decreases k,
{
    if k == 0 {
        seq![1u8]
    } else {
        mul_linear(generator_poly((k - 1) as nat), alpha_pow((k - 1) as nat))
    }
}

/// Number of error-correction codewords of Version 5-L.
pub const EC_LEN: usize = 26;

/// One step of the division shift register: feed data codeword `v`.
pub open spec fn rs_step(rem: Seq<u8>, g: Seq<u8>, v: u8) -> Seq<u8> {
    let f = v ^ rem[0];
    Seq::new(
        26,
        |i: int|
            (if i < 25 {
                rem[i + 1]
            } else {
                0u8
            }) ^ gf_mul_spec(g[i + 1], f),
    )
}

/// The shift register after feeding every codeword of `data`.
pub open spec fn rs_fold(rem: Seq<u8>, g: Seq<u8>, data: Seq<u8>) -> Seq<u8>
    decreases data.len(),
{
    if data.len() == 0 {
        rem
    } else {
        rs_fold(rs_step(rem, g, data[0]), g, data.drop_first())
    }
}

/// The remainder of the polynomial `m` modulo the monic polynomial `g`
/// (coefficients highest degree first) by long division: while `m` is at
/// least as long as `g`, add `m[0]` times `g`, aligned to the top, and drop
/// the leading term, which that cancels.
pub open spec fn poly_rem(m: Seq<u8>, g: Seq<u8>) -> Seq<u8>
    decreases m.len(),
{
    if g.len() == 0 || m.len() < g.len() {
        m
    } else {
        poly_rem(
            Seq::new(
                (m.len() - 1) as nat,
                |i: int|
                    m[i + 1] ^ (if i + 1 < g.len() {
                        gf_mul_spec(g[i + 1], m[0])
                    } else {
                        0u8
                    }),
            ),
            g,
        )
    }
}

/// The 26 error-correction codewords of `data`: the remainder of
/// `data(x) * x^26` modulo the generator polynomial of degree 26.
pub open spec fn rs_remainder(data: Seq<u8>) -> Seq<u8> {
    poly_rem(data + Seq::new(26, |i: int| 0u8), generator_poly(26))
}

/// The dividend while the register `rem` holds the partial remainder and
/// `d` is still to be fed: `d(x) * x^26` with `rem` added at the top.
pub open spec fn overlay(d: Seq<u8>, rem: Seq<u8>) -> Seq<u8> {
    Seq::new(
        d.len() + 26,
        |i: int|
            (if i < d.len() {
                d[i]
            } else {
                0u8
            }) ^ (if i < 26 {
                rem[i]
            } else {
                0u8
            }),
    )
}

proof fn lemma_rs_fold_divides(rem: Seq<u8>, g: Seq<u8>, d: Seq<u8>)
    requires
        rem.len() == 26,
        g.len() == 27,
    ensures
        rs_fold(rem, g, d) == poly_rem(overlay(d, rem), g),
    decreases d.len(),
{
    let m = overlay(d, rem);
    if d.len() == 0 {
        assert forall|i: int| 0 <= i < 26 implies m[i] == rem[i] by {
            lemma_xor_u8(rem[i], 0, 0);
        }
        assert(m =~= rem);
    } else {
        let v = d[0];
        let nr = rs_step(rem, g, v);
        let next = Seq::new(
            (m.len() - 1) as nat,
            |i: int|
                m[i + 1] ^ (if i + 1 < g.len() {
                    gf_mul_spec(g[i + 1], m[0])
                } else {
                    0u8
                }),
        );
        let target = overlay(d.drop_first(), nr);
        assert(m[0] == v ^ rem[0]);
        assert forall|i: int| 0 <= i < next.len() implies next[i] == target[i] by {
            let a: u8 = if i + 1 < d.len() { d[i + 1] } else { 0u8 };
            let b: u8 = if i + 1 < 26 { rem[i + 1] } else { 0u8 };
            assert(m[i + 1] == a ^ b);
            if i < 26 {
                let t = gf_mul_spec(g[i + 1], v ^ rem[0]);
                assert(nr[i] == b ^ t);
                lemma_xor_u8(a, b, t);
            } else {
                assert(b == 0u8);
                lemma_xor_u8(a, 0, 0);
            }
        }
        assert(next =~= target);
        lemma_rs_fold_divides(nr, g, d.drop_first());
    }
}

proof fn lemma_rs_remainder_register(data: Seq<u8>)
    ensures
        rs_remainder(data) == rs_fold(Seq::new(26, |i: int| 0u8), generator_poly(26), data),
{
    let z = Seq::new(26, |i: int| 0u8);
    lemma_generator_len(26);
    lemma_rs_fold_divides(z, generator_poly(26), data);
    assert forall|i: int| 0 <= i < data.len() + 26 implies overlay(data, z)[i] == (data + z)[i] by {
        let x: u8 = if i < data.len() { data[i] } else { 0u8 };
        lemma_xor_u8(x, 0, 0);
    }
    assert(overlay(data, z) =~= data + z);
}

proof fn lemma_generator_len(k: nat)
    ensures
        generator_poly(k).len() == k + 1,
    decreases k,
{
    if k > 0 {
        lemma_generator_len((k - 1) as nat);
    }
}

/// The generator polynomial of degree 26.
fn generator() -> (g: Vec<u8>)
    ensures
        g@ == generator_poly(26),
{
    let mut g: Vec<u8> = vec![1u8];
    assert(g@ == seq![1u8]);
    let mut root: u8 = 1;
    let mut k: usize = 0;
    while k < 26
        invariant
            k <= 26,
            g@ == generator_poly(k as nat),
            root == alpha_pow(k as nat),
        decreases 26 - k,
    {
        proof {
            lemma_generator_len(k as nat);
        }
        let len = g.len();
        let mut next: Vec<u8> = Vec::new();
        let mut i: usize = 0;
        while i <= len
            invariant
                i <= len + 1,
                len == g@.len(),
                len == k + 1,
                k < 26,
                next@ == mul_linear(g@, root).take(i as int),
            decreases len + 1 - i,
        {
            let a: u8 = if i < len {
                g[i]
            } else {
                0
            };
            let b: u8 = if i >= 1 {
                gf_mul(g[i - 1], root)
            } else {
                0
            };
            next.push(a ^ b);
            i += 1;
            assert(next@ == mul_linear(g@, root).take(i as int));
        }
        assert(next@ == mul_linear(g@, root));
        g = next;
        root = gf_mul(root, 2);
        k += 1;
    }
    g
}

/// The error-correction codewords of `data`.
fn ec_codewords(data: &Vec<u8>) -> (rem: Vec<u8>)
    ensures
        rem@ == rs_remainder(data@),
        rem@.len() == 26,
{
    let g = generator();
    proof {
        lemma_generator_len(26);
    }
    let mut rem: Vec<u8> = vec![0u8; 26];
    assert(rem@ == Seq::new(26, |i: int| 0u8));
    proof {
        lemma_rs_remainder_register(data@);
    }
    let n = data.len();
    let mut j: usize = 0;
    assert(data@.skip(0) == data@);
    while j < n
        invariant
            j <= n,
            n == data@.len(),
            g@ == generator_poly(26),
            g@.len() == 27,
            rem@.len() == 26,
            rs_remainder(data@) == rs_fold(rem@, g@, data@.skip(j as int)),
        decreases n - j,
    {
        let factor = data[j] ^ rem[0];
        let mut next: Vec<u8> = Vec::new();
        let mut i: usize = 0;
        while i < 26
            invariant
                i <= 26,
                rem@.len() == 26,
                g@.len() == 27,
                factor == data@[j as int] ^ rem@[0],
                next@ == rs_step(rem@, g@, data@[j as int]).take(i as int),
            decreases 26 - i,
        {
            let a: u8 = if i < 25 {
                rem[i + 1]
            } else {
                0
            };
            next.push(a ^ gf_mul(g[i + 1], factor));
            i += 1;
            assert(next@ == rs_step(rem@, g@, data@[j as int]).take(i as int));
        }
        assert(next@ == rs_step(rem@, g@, data@[j as int]));
        assert(data@.skip(j as int).drop_first() == data@.skip(j + 1));
        rem = next;
        j += 1;
    }
    rem
}

/// Bytewise `^` of two sequences, as long as the first.
pub open spec fn xor_bytes(a: Seq<u8>, b: Seq<u8>) -> Seq<u8> {
    Seq::new(a.len(), |i: int| a[i] ^ b[i])
}

proof fn lemma_rs_step_linear(r1: Seq<u8>, r2: Seq<u8>, g: Seq<u8>, v1: u8, v2: u8)
    requires
        r1.len() == 26,
        r2.len() == 26,
        g.len() == 27,
    ensures
        rs_step(xor_bytes(r1, r2), g, v1 ^ v2) == xor_bytes(rs_step(r1, g, v1), rs_step(r2, g, v2)),
{
    let r = xor_bytes(r1, r2);
    let f = (v1 ^ v2) ^ r[0];
    let f1 = v1 ^ r1[0];
    let f2 = v2 ^ r2[0];
    let x1 = r1[0];
    let x2 = r2[0];
    assert(f == f1 ^ f2) by (bit_vector)
        requires
            f == (v1 ^ v2) ^ (x1 ^ x2),
            f1 == v1 ^ x1,
            f2 == v2 ^ x2,
    ;
    let lhs = rs_step(r, g, v1 ^ v2);
    let rhs = xor_bytes(rs_step(r1, g, v1), rs_step(r2, g, v2));
    assert forall|i: int| 0 <= i < 26 implies lhs[i] == rhs[i] by {
        lemma_gf_distributes(g[i + 1], f1, f2);
        let m1 = gf_mul_spec(g[i + 1], f1);
        let m2 = gf_mul_spec(g[i + 1], f2);
        let a1: u8 = if i < 25 { r1[i + 1] } else { 0u8 };
        let a2: u8 = if i < 25 { r2[i + 1] } else { 0u8 };
        assert(i < 25 ==> r[i + 1] == a1 ^ a2);
        lemma_xor_u8(0, 0, 0);
        lemma_xor_swap(a1, a2, m1, m2);
    }
    assert(lhs =~= rhs);
}

proof fn lemma_rs_fold_linear(r1: Seq<u8>, r2: Seq<u8>, g: Seq<u8>, d1: Seq<u8>, d2: Seq<u8>)
    requires
        r1.len() == 26,
        r2.len() == 26,
        g.len() == 27,
        d1.len() == d2.len(),
    ensures
        rs_fold(xor_bytes(r1, r2), g, xor_bytes(d1, d2)) == xor_bytes(
            rs_fold(r1, g, d1),
            rs_fold(r2, g, d2),
        ),
    decreases d1.len(),
{
    let d = xor_bytes(d1, d2);
    if d1.len() > 0 {
        lemma_rs_step_linear(r1, r2, g, d1[0], d2[0]);
        assert(d.drop_first() =~= xor_bytes(d1.drop_first(), d2.drop_first()));
        lemma_rs_fold_linear(
            rs_step(r1, g, d1[0]),
            rs_step(r2, g, d2[0]),
            g,
            d1.drop_first(),
            d2.drop_first(),
        );
    }
}

proof fn lemma_rs_fold_zero(g: Seq<u8>, n: nat)
    requires
        g.len() == 27,
    ensures
        rs_fold(Seq::new(26, |i: int| 0u8), g, Seq::new(n, |i: int| 0u8)) == Seq::new(26, |i: int| 0u8),
    decreases n,
{
    let z = Seq::new(26, |i: int| 0u8);
    if n > 0 {
        lemma_xor_u8(0, 0, 0);
        assert forall|i: int| 0 <= i < 26 implies #[trigger] rs_step(z, g, 0u8)[i] == 0u8 by {
            lemma_gf_units(g[i + 1]);
        }
        assert(rs_step(z, g, 0u8) =~= z);
        assert(Seq::new(n, |i: int| 0u8).drop_first() =~= Seq::new((n - 1) as nat, |i: int| 0u8));
        lemma_rs_fold_zero(g, (n - 1) as nat);
    }
}

/// The error-correction codewords are linear in the data: those of the
/// bytewise sum of two equally long messages are the bytewise sum of theirs,
/// and all-zero data has all-zero codewords.
pub proof fn ec_codewords_linear(a: Seq<u8>, b: Seq<u8>)
    requires
        a.len() == b.len(),
    ensures
        rs_remainder(xor_bytes(a, b)) == xor_bytes(rs_remainder(a), rs_remainder(b)),
        rs_remainder(Seq::new(a.len(), |i: int| 0u8)) == Seq::new(26, |i: int| 0u8),
{
    let z = Seq::new(26, |i: int| 0u8);
    lemma_generator_len(26);
    lemma_xor_u8(0, 0, 0);
    assert(xor_bytes(z, z) =~= z);
    lemma_rs_fold_linear(z, z, generator_poly(26), a, b);
    lemma_rs_fold_zero(generator_poly(26), a.len());
    lemma_rs_remainder_register(a);
    lemma_rs_remainder_register(b);
    lemma_rs_remainder_register(xor_bytes(a, b));
    lemma_rs_remainder_register(Seq::new(a.len(), |i: int| 0u8));
}

/// One step of long division, as `poly_rem` takes it.
pub open spec fn div_step(m: Seq<u8>, g: Seq<u8>) -> Seq<u8> {
    Seq::new(
        (m.len() - 1) as nat,
        |i: int|
            m[i + 1] ^ (if i + 1 < g.len() {
                gf_mul_spec(g[i + 1], m[0])
            } else {
                0u8
            }),
    )
}

proof fn lemma_poly_rem_unfold(m: Seq<u8>, g: Seq<u8>)
    requires
        g.len() > 0,
        m.len() >= g.len(),
    ensures
        poly_rem(m, g) == poly_rem(div_step(m, g), g),
{
}

proof fn lemma_poly_rem_linear(m1: Seq<u8>, m2: Seq<u8>, g: Seq<u8>)
    requires
        m1.len() == m2.len(),
        g.len() > 0,
    ensures
        poly_rem(xor_bytes(m1, m2), g) == xor_bytes(poly_rem(m1, g), poly_rem(m2, g)),
    decreases m1.len(),
{
    let m = xor_bytes(m1, m2);
    if m1.len() >= g.len() {
        lemma_poly_rem_unfold(m, g);
        lemma_poly_rem_unfold(m1, g);
        lemma_poly_rem_unfold(m2, g);
        let n = div_step(m, g);
        let n1 = div_step(m1, g);
        let n2 = div_step(m2, g);
        assert forall|i: int| 0 <= i < n.len() implies n[i] == xor_bytes(n1, n2)[i] by {
            let a1 = m1[i + 1];
            let a2 = m2[i + 1];
            if i + 1 < g.len() {
                lemma_gf_distributes(g[i + 1], m1[0], m2[0]);
                let t1 = gf_mul_spec(g[i + 1], m1[0]);
                let t2 = gf_mul_spec(g[i + 1], m2[0]);
                lemma_xor_swap(a1, a2, t1, t2);
            } else {
                lemma_xor_u8(a1, 0, 0);
                lemma_xor_u8(a2, 0, 0);
                lemma_xor_u8(a1 ^ a2, 0, 0);
            }
        }
        assert(n =~= xor_bytes(n1, n2));
        lemma_poly_rem_linear(n1, n2, g);
    }
}

proof fn lemma_poly_rem_leading_zeros(n: nat, r: Seq<u8>, g: Seq<u8>)
    requires
        g.len() > 0,
        r.len() + 1 == g.len(),
    ensures
        poly_rem(Seq::new(n, |i: int| 0u8) + r, g) == r,
    decreases n,
{
    let m = Seq::new(n, |i: int| 0u8) + r;
    if m.len() >= g.len() {
        lemma_poly_rem_unfold(m, g);
        let next = div_step(m, g);
        let rest = Seq::new((n - 1) as nat, |i: int| 0u8) + r;
        assert forall|i: int| 0 <= i < next.len() implies next[i] == rest[i] by {
            let a = m[i + 1];
            assert(a == rest[i]);
            if i + 1 < g.len() {
                lemma_gf_units(g[i + 1]);
            }
            lemma_xor_u8(a, 0, 0);
        }
        assert(next =~= rest);
        lemma_poly_rem_leading_zeros((n - 1) as nat, r, g);
    } else {
        assert(n == 0);
        assert(m =~= r);
    }
}

/// Data followed by its error-correction codewords is a multiple of the
/// generator polynomial: its remainder is zero.
pub proof fn codeword_divisible(data: Seq<u8>)
    ensures
        rs_remainder(data).len() == 26,
        poly_rem(data + rs_remainder(data), generator_poly(26)) == Seq::new(26, |i: int| 0u8),
{
    let g = generator_poly(26);
    let z = Seq::new(26, |i: int| 0u8);
    let r = rs_remainder(data);
    lemma_generator_len(26);
    lemma_rs_remainder_register(data);
    lemma_rs_fold_len(z, g, data);
    let zn = Seq::new(data.len(), |i: int| 0u8);
    let m1 = data + z;
    let m2 = zn + r;
    assert forall|i: int| 0 <= i < m1.len() implies xor_bytes(m1, m2)[i] == (data + r)[i] by {
        if i < data.len() {
            lemma_xor_u8(data[i], 0, 0);
        } else {
            lemma_xor_u8(r[i - data.len()], 0, 0);
        }
    }
    assert(xor_bytes(m1, m2) =~= data + r);
    lemma_poly_rem_linear(m1, m2, g);
    lemma_poly_rem_leading_zeros(data.len(), r, g);
    assert forall|i: int| 0 <= i < 26 implies xor_bytes(r, r)[i] == 0u8 by {
        lemma_xor_u8(r[i], 0, 0);
    }
    assert(xor_bytes(r, r) =~= z);
}

proof fn lemma_rs_fold_len(rem: Seq<u8>, g: Seq<u8>, d: Seq<u8>)
    requires
        rem.len() == 26,
    ensures
        rs_fold(rem, g, d).len() == 26,
    decreases d.len(),
{
    if d.len() > 0 {
        lemma_rs_fold_len(rs_step(rem, g, d[0]), g, d.drop_first());
    }
}

// ---------------------------------------------------------------------------
// BCH code of the format information.

/// Number of significant bits of `x`.
pub open spec fn width(x: u32) -> u32 {
    (32 - x.leading_zeros()) as u32
}

/// Remainder of the GF(2) polynomial `x` modulo `p`, by long division
/// with at most `fuel` steps.
pub open spec fn poly_mod(x: u32, p: u32, fuel: nat) -> u32
    decreases fuel,
{
    if fuel == 0 || width(x) < width(p) {
        x
    } else {
        poly_mod(x ^ (p << ((width(x) - width(p)) as u32)), p, (fuel - 1) as nat)
    }
}

/// The BCH remainder of `v` modulo the generator `poly` (both GF(2) polynomials).
pub open spec fn bch_spec(v: u16, poly: u16) -> u16 {
    poly_mod(v as u32, poly as u32, width(v as u32) as nat) as u16
}

proof fn lemma_width_bound(x: u32)
    requires
        x < 0x10000,
    ensures
        width(x) <= 16,
        x == 0 <==> width(x) == 0,
{
    let lz = x.leading_zeros();
    if lz < 16 {
        assert(x < 0x10000 && lz < 16 ==> (x >> ((31 - lz) as u32)) & 1u32 == 0u32) by (bit_vector);
    }
}

proof fn lemma_step_width(x: u32, p: u32)
    requires
        x < 0x10000,
        p < 0x10000,
        p != 0,
        width(p) <= width(x),
    ensures
        width(x ^ (p << ((width(x) - width(p)) as u32))) < width(x),
        x ^ (p << ((width(x) - width(p)) as u32)) < 0x10000,
{
    lemma_width_bound(x);
    lemma_width_bound(p);
    let l = width(x);
    let q = width(p);
    let lzx = x.leading_zeros();
    let lzp = p.leading_zeros();
    assert(l == 32 - lzx && q == 32 - lzp);
    let y = x ^ (p << ((l - q) as u32));
    assert((x >> ((31 - lzx) as u32)) & 1u32 != 0u32);
    assert((p >> ((31 - lzp) as u32)) & 1u32 != 0u32);
    assert(x >> ((32 - lzx) as u32) == 0);
    assert(p >> ((32 - lzp) as u32) == 0);
    assert(y >> ((l - 1) as u32) == 0 && y < 0x10000) by (bit_vector)
        requires
            y == x ^ (p << ((l - q) as u32)),
            1 <= q <= l <= 16,
            (x >> ((l - 1) as u32)) & 1u32 != 0u32,
            (p >> ((q - 1) as u32)) & 1u32 != 0u32,
            x >> l == 0,
            p >> q == 0,
    ;
    let lzy = y.leading_zeros();
    if lzy < 32 && 31 - lzy >= l - 1 {
        assert((y >> ((31 - lzy) as u32)) & 1u32 != 0u32);
        let s = (l - 1) as u32;
        let t = (31 - lzy) as u32;
        assert(y >> s == 0 && t >= s && t < 32 ==> (y >> t) & 1u32 == 0u32) by (bit_vector);
    }
}

proof fn lemma_poly_mod_fuel(x: u32, p: u32, f: nat)
    requires
        x < 0x10000,
        p < 0x10000,
        p != 0,
        f >= width(x),
    ensures
        poly_mod(x, p, f) == poly_mod(x, p, width(x) as nat),
        poly_mod(x, p, f) < 0x10000,
        width(poly_mod(x, p, f)) < width(p),
    decreases f,
{
    lemma_width_bound(x);
    lemma_width_bound(p);
    if width(x) >= width(p) {
        lemma_step_width(x, p);
        let y = x ^ (p << ((width(x) - width(p)) as u32));
        lemma_poly_mod_fuel(y, p, (f - 1) as nat);
        lemma_poly_mod_fuel(y, p, (width(x) - 1) as nat);
    }
}

/// The BCH remainder of `v` modulo `poly`.
fn bch(v: u16, poly: u16) -> (r: u16)
    requires
        poly != 0,
    ensures
        r == bch_spec(v, poly),
        width(r as u32) < width(poly as u32),
{
    let top = poly as u32;
    let mut x = v as u32;
    proof {
        lemma_poly_mod_fuel(x, top, width(x) as nat);
    }
    while (32 - x.leading_zeros()) >= (32 - top.leading_zeros())
        invariant
            x < 0x10000,
            top == poly as u32,
            top != 0,
            poly_mod(v as u32, top, width(v as u32) as nat) == poly_mod(x, top, width(x) as nat),
        decreases width(x),
    {
        proof {
            lemma_step_width(x, top);
            let y = x ^ (top << ((width(x) - width(top)) as u32));
            lemma_poly_mod_fuel(y, top, (width(x) - 1) as nat);
        }
        x ^= top << ((32 - x.leading_zeros()) - (32 - top.leading_zeros()));
    }
    proof {
        lemma_poly_mod_fuel(x, top, width(x) as nat);
    }
    x as u16
}

// ---------------------------------------------------------------------------
// Symbol layout.

/// Modules per side of a Version 5 symbol.
pub const SIZE: usize = 37;

/// Bytes of text that fit in byte mode at Version 5-L.
pub const CAPACITY: usize = 106;

/// Number of data codewords of Version 5-L.
pub const DATA_LEN: usize = 108;

/// Module `(dy, dx)` of a 7x7 finder pattern: dark ring, light ring, dark 3x3 core.
pub open spec fn finder_at(dy: int, dx: int) -> bool {
    dx == 0 || dx == 6 || dy == 0 || dy == 6 || (2 <= dx <= 4 && 2 <= dy <= 4)
}

/// Module `(dy, dx)` of a 5x5 alignment pattern: dark ring, light ring, dark centre.
pub open spec fn alignment_at(dy: int, dx: int) -> bool {
    dx == 0 || dx == 4 || dy == 0 || dy == 4 || (dx == 2 && dy == 2)
}

/// Whether module `(y, x)` (row, column) belongs to a function pattern or to
/// the format information, and so carries no data: the three finder patterns
/// with their separators and format areas (9x9 at the top left, 9x8 and 8x9
/// at the other two corners), the timing row and column 6, and the one
/// alignment pattern of Version 5, centred on (30, 30).
pub open spec fn is_reserved(y: int, x: int) -> bool {
    ||| y < 9 && x < 9
    ||| y < 9 && x >= 29
    ||| y >= 29 && x < 9
    ||| y == 6
    ||| x == 6
    ||| 28 <= y <= 32 && 28 <= x <= 32
}

/// Which bit of the 15-bit format word module `(y, x)` carries, if any:
/// the first copy around the top-left finder, the second split between the
/// top-right and bottom-left finders.
pub open spec fn format_index(y: int, x: int) -> Option<int> {
    if x == 8 && 0 <= y <= 5 {
        Some(y)
    } else if x == 8 && y == 7 {
        Some(6)
    } else if x == 8 && y == 8 {
        Some(7)
    } else if y == 8 && x == 7 {
        Some(8)
    } else if y == 8 && 0 <= x <= 5 {
        Some(14 - x)
    } else if y == 8 && 29 <= x <= 36 {
        Some(36 - x)
    } else if x == 8 && 30 <= y <= 36 {
        Some(y - 22)
    } else {
        None
    }
}

/// The format word for error-correction level L and mask 0: the five data
/// bits `01000`, their BCH(15,5) check bits, XORed with `0x5412`.
pub open spec fn format_word() -> u16 {
    (0x2000u16 | bch_spec(0x2000u16, 0x537u16)) ^ 0x5412u16
}

/// The value of a reserved module `(y, x)` given the format word.
pub open spec fn function_module(y: int, x: int, format: u16) -> bool {
    match format_index(y, x) {
        Some(b) => (format >> (b as u16)) & 1u16 == 1u16,
        None => if y == 29 && x == 8 {
            true
        } else if y < 7 && x < 7 {
            finder_at(y, x)
        } else if y < 7 && x >= 30 {
            finder_at(y, x - 30)
        } else if y >= 30 && x < 7 {
            finder_at(y - 30, x)
        } else if (y < 8 && x < 8) || (y < 8 && x >= 29) || (y >= 29 && x < 8) {
            false
        } else if y == 6 {
            x % 2 == 0
        } else if x == 6 {
            y % 2 == 0
        } else if 28 <= y <= 32 && 28 <= x <= 32 {
            alignment_at(y - 28, x - 28)
        } else {
            false
        },
    }
}

/// Module of step `k` of the placement walk: column pairs from the right
/// (skipping the timing column 6), alternately upwards and downwards, the
/// right module of a pair before the left one. There are 18 pairs of 74 steps.
pub open spec fn walk_pos(k: int) -> (int, int) {
    let p = k / 74;
    let w = k % 74;
    let right = if p <= 14 {
        36 - 2 * p
    } else {
        35 - 2 * p
    };
    let x = right - w % 2;
    let y = if p % 2 == 0 {
        36 - w / 2
    } else {
        w / 2
    };
    (y, x)
}

/// The step of the placement walk that visits module `(y, x)` (`x != 6`).
pub open spec fn walk_index(y: int, x: int) -> int {
    let p = if x > 6 {
        (36 - x) / 2
    } else {
        15 + (5 - x) / 2
    };
    let right = if p <= 14 {
        36 - 2 * p
    } else {
        35 - 2 * p
    };
    let yi = if p % 2 == 0 {
        36 - y
    } else {
        y
    };
    74 * p + 2 * yi + (right - x)
}

/// Number of data modules among the first `k` steps of the walk.
pub open spec fn count_data(k: nat) -> nat
    decreases k,
{
    if k == 0 {
        0
    } else {
        let (y, x) = walk_pos(k - 1);
        count_data((k - 1) as nat) + if is_reserved(y, x) {
            0nat
        } else {
            1nat
        }
    }
}

/// The data codeword stream of `text` in byte mode: mode `0100`, an 8-bit
/// length, the bytes, a 4-bit terminator, all packed across byte
/// boundaries, then the pad codewords `0xEC`, `0x11` alternately.
pub open spec fn data_codewords_spec(text: Seq<u8>) -> Seq<u8> {
    let n = text.len();
    Seq::new(
        108,
        |k: int|
            if k == 0 {
                0x40u8 | ((n as u8) >> 4u8)
            } else if k <= n + 1 {
                ((stream_byte(text, k - 1) & 15u8) << 4u8) | (stream_byte(text, k) >> 4u8)
            } else if (k - n - 2) % 2 == 0 {
                0xECu8
            } else {
                0x11u8
            },
    )
}

/// The byte-aligned view of the stream after the mode indicator: the length,
/// then the text, then zeros.
pub open spec fn stream_byte(text: Seq<u8>, j: int) -> u8 {
    if j == 0 {
        text.len() as u8
    } else if j <= text.len() {
        text[j - 1]
    } else {
        0u8
    }
}

/// All 134 codewords: the data codewords followed by their error correction.
pub open spec fn codewords_spec(text: Seq<u8>) -> Seq<u8> {
    data_codewords_spec(text) + rs_remainder(data_codewords_spec(text))
}

proof fn lemma_nibbles(a: u8, b: u8, c: u8)
    by (bit_vector)
    ensures
        ((((((a & 15u8) << 4u8) | (b >> 4u8)) & 15u8) << 4u8) | ((((b & 15u8) << 4u8) | (c >> 4u8))
            >> 4u8)) == b,
        (0x40u8 | (b >> 4u8)) >> 4u8 == 4u8,
        ((((0x40u8 | (b >> 4u8)) & 15u8) << 4u8) | ((((b & 15u8) << 4u8) | (c >> 4u8)) >> 4u8)) == b,
        (((a & 15u8) << 4u8) | (0u8 >> 4u8)) & 15u8 == 0u8,
{
}

/// What a reader of the symbol finds in the data codewords of `text`: the
/// byte-mode indicator `0100`, then the length of `text` as an 8-bit count,
/// then each byte of `text` in order (each straddling two codewords, four
/// bits in each), then a zero terminator nibble, then the pad codewords
/// `0xEC`, `0x11` alternately up to the 108th codeword.
pub proof fn data_codewords_carry_text(text: Seq<u8>)
    requires
        text.len() <= 106,
    ensures
        codewords_spec(text).len() == 134,
        codewords_spec(text)[0] >> 4u8 == 4u8,
        ((codewords_spec(text)[0] & 15u8) << 4u8) | (codewords_spec(text)[1] >> 4u8) == text.len(),
        forall|k: int|
            0 <= k < text.len() ==> ((codewords_spec(text)[k + 1] & 15u8) << 4u8) | (
            codewords_spec(text)[k + 2] >> 4u8) == #[trigger] text[k],
        codewords_spec(text)[text.len() + 1int] & 15u8 == 0u8,
        forall|k: int|
            text.len() + 2 <= k < 108 ==> #[trigger] codewords_spec(text)[k] == if (k - text.len())
                % 2 == 0 {
                0xECu8
            } else {
                0x11u8
            },
{
    let n: int = text.len() as int;
    let d = data_codewords_spec(text);
    let c = codewords_spec(text);
    lemma_generator_len(26);
    lemma_rs_remainder_register(d);
    lemma_rs_fold_len(Seq::new(26, |i: int| 0u8), generator_poly(26), d);
    assert(c.len() == 134);
    assert forall|k: int| 0 <= k < 108 implies c[k] == d[k] by {}
    let n8 = n as u8;
    assert(stream_byte(text, 0) == n8);
    lemma_nibbles(4u8, n8, stream_byte(text, 1));
    assert forall|k: int| 0 <= k < n implies ((c[k + 1] & 15u8) << 4u8) | (c[k + 2] >> 4u8)
        == #[trigger] text[k] by {
        assert(c[k + 1] == d[k + 1]);
        assert(c[k + 2] == d[k + 2]);
        lemma_nibbles(stream_byte(text, k), stream_byte(text, k + 1), stream_byte(text, k + 2));
    }
    assert(c[n + 1] == d[n + 1]);
    lemma_nibbles(stream_byte(text, n), 0u8, 0u8);
    assert forall|k: int| n + 2 <= k < 108 implies #[trigger] c[k] == if (k - n) % 2 == 0 {
        0xECu8
    } else {
        0x11u8
    } by {
        assert(c[k] == d[k]);
        assert((k - n - 2) % 2 == (k - n) % 2);
    }
}

/// Bit `j` of the codeword sequence, most significant bit first; the
/// remainder bits after the last codeword are light.
pub open spec fn cw_bit(cw: Seq<u8>, j: int) -> bool {
    j < 1072 && (cw[j / 8] >> ((7 - j % 8) as u8)) & 1u8 == 1u8
}

/// Module `(y, x)` of the QR symbol for `text` (dark is `true`): function
/// patterns and format information where reserved, elsewhere the next
/// codeword bit in walk order, inverted where `(y + x)` is even (mask 0).
pub open spec fn module_at(text: Seq<u8>, y: int, x: int) -> bool {
    if is_reserved(y, x) {
        function_module(y, x, format_word())
    } else {
        cw_bit(codewords_spec(text), count_data(walk_index(y, x) as nat) as int) != ((y + x) % 2 == 0)
    }
}

/// The QR symbol for `text` as 37 rows of 37 modules.
pub open spec fn symbol_spec(text: Seq<u8>) -> Seq<Seq<bool>> {
    Seq::new(37, |y: int| Seq::new(37, |x: int| module_at(text, y, x)))
}

/// The value of a module after the first `k` steps of data placement.
pub open spec fn placed(text: Seq<u8>, y: int, x: int, k: int) -> bool {
    if is_reserved(y, x) {
        function_module(y, x, format_word())
    } else if walk_index(y, x) < k {
        module_at(text, y, x)
    } else {
        false
    }
}

proof fn lemma_flat(y: int, x: int)
    requires
        0 <= y < 37,
        0 <= x < 37,
    ensures
        (y * 37 + x) / 37 == y,
        (y * 37 + x) % 37 == x,
        0 <= y * 37 + x < 1369,
{
    lemma_fundamental_div_mod_converse(y * 37 + x, 37, y, x);
}

proof fn lemma_unflat(i: int)
    requires
        0 <= i < 1369,
    ensures
        0 <= i / 37 < 37,
        0 <= i % 37 < 37,
        i == (i / 37) * 37 + i % 37,
{
}

proof fn lemma_walk_pos(k: int)
    requires
        0 <= k < 1332,
    ensures
        0 <= walk_pos(k).0 < 37,
        0 <= walk_pos(k).1 < 37,
        walk_pos(k).1 != 6,
        walk_index(walk_pos(k).0, walk_pos(k).1) == k,
{
    let p = k / 74;
    let w = k % 74;
    assert(k == 74 * p + w);
    assert(0 <= p < 18);
}

proof fn lemma_walk_index(y: int, x: int)
    requires
        0 <= y < 37,
        0 <= x < 37,
        x != 6,
    ensures
        0 <= walk_index(y, x) < 1332,
        walk_pos(walk_index(y, x)) == (y, x),
{
    let p = if x > 6 {
        (36 - x) / 2
    } else {
        15 + (5 - x) / 2
    };
    let right = if p <= 14 {
        36 - 2 * p
    } else {
        35 - 2 * p
    };
    let yi = if p % 2 == 0 {
        36 - y
    } else {
        y
    };
    let w = 2 * yi + (right - x);
    assert(0 <= right - x <= 1);
    assert(0 <= w < 74);
    lemma_fundamental_div_mod_converse(74 * p + w, 74, p, w);
    lemma_fundamental_div_mod_converse(w, 2, yi, right - x);
}

/// Module `(dy, dx)` of a finder pattern.
fn finder(dy: usize, dx: usize) -> (b: bool)
    ensures
        b == finder_at(dy as int, dx as int),
{
    dx == 0 || dx == 6 || dy == 0 || dy == 6 || (dx >= 2 && dx <= 4 && dy >= 2 && dy <= 4)
}

fn is_reserved_exec(y: usize, x: usize) -> (b: bool)
    ensures
        b == is_reserved(y as int, x as int),
{
    (y < 9 && x < 9) || (y < 9 && x >= 29) || (y >= 29 && x < 9) || y == 6 || x == 6 || (28 <= y
        && y <= 32 && 28 <= x && x <= 32)
}

/// The reservation map of the symbol, row by row: which modules carry no data.
fn reserved() -> (r: Vec<bool>)
    ensures
        r@.len() == 1369,
        forall|i: int| 0 <= i < 1369 ==> #[trigger] r@[i] == is_reserved(i / 37, i % 37),
{
    let mut r: Vec<bool> = Vec::new();
    let mut i: usize = 0;
    while i < 1369
        invariant
            i <= 1369,
            r@.len() == i,
            forall|j: int| 0 <= j < i ==> #[trigger] r@[j] == is_reserved(j / 37, j % 37),
        decreases 1369 - i,
    {
        r.push(is_reserved_exec(i / 37, i % 37));
        i += 1;
    }
    r
}

fn format_index_exec(y: usize, x: usize) -> (r: Option<u16>)
    requires
        y < 37,
        x < 37,
    ensures
        match format_index(y as int, x as int) {
            Some(b) => r == Some(b as u16),
            None => r is None,
        },
{
    if x == 8 && y <= 5 {
        Some(y as u16)
    } else if x == 8 && y == 7 {
        Some(6)
    } else if x == 8 && y == 8 {
        Some(7)
    } else if y == 8 && x == 7 {
        Some(8)
    } else if y == 8 && x <= 5 {
        Some((14 - x) as u16)
    } else if y == 8 && x >= 29 {
        Some((36 - x) as u16)
    } else if x == 8 && y >= 30 {
        Some((y - 22) as u16)
    } else {
        None
    }
}

/// The value of reserved module `(y, x)`.
fn function_module_exec(y: usize, x: usize, format: u16) -> (b: bool)
    requires
        y < 37,
        x < 37,
    ensures
        b == function_module(y as int, x as int, format),
{
    match format_index_exec(y, x) {
        Some(b) => (format >> b) & 1 == 1,
        None => if y == 29 && x == 8 {
            true
        } else if y < 7 && x < 7 {
            finder(y, x)
        } else if y < 7 && x >= 30 {
            finder(y, x - 30)
        } else if y >= 30 && x < 7 {
            finder(y - 30, x)
        } else if (y < 8 && x < 8) || (y < 8 && x >= 29) || (y >= 29 && x < 8) {
            false
        } else if y == 6 {
            x % 2 == 0
        } else if x == 6 {
            y % 2 == 0
        } else if 28 <= y && y <= 32 && 28 <= x && x <= 32 {
            let dy = y - 28;
            let dx = x - 28;
            dx == 0 || dx == 4 || dy == 0 || dy == 4 || (dx == 2 && dy == 2)
        } else {
            false
        },
    }
}

fn walk_position(k: usize) -> (r: (usize, usize))
    requires
        k < 1332,
    ensures
        r.0 as int == walk_pos(k as int).0,
        r.1 as int == walk_pos(k as int).1,
{
    let p = k / 74;
    let w = k % 74;
    let right = if p <= 14 {
        36 - 2 * p
    } else {
        35 - 2 * p
    };
    let x = right - w % 2;
    let y = if p % 2 == 0 {
        36 - w / 2
    } else {
        w / 2
    };
    (y, x)
}

fn stream_byte_exec(bytes: &[u8], j: usize) -> (b: u8)
    requires
        bytes@.len() <= 106,
    ensures
        b == stream_byte(bytes@, j as int),
{
    if j == 0 {
        bytes.len() as u8
    } else if j <= bytes.len() {
        bytes[j - 1]
    } else {
        0
    }
}

/// The 108 data codewords of `bytes`.
fn data_codewords(bytes: &[u8]) -> (data: Vec<u8>)
    requires
        bytes@.len() <= 106,
    ensures
        data@ == data_codewords_spec(bytes@),
{
    let n = bytes.len();
    let mut data: Vec<u8> = Vec::new();
    let mut k: usize = 0;
    while k < 108
        invariant
            k <= 108,
            n == bytes@.len(),
            n <= 106,
            data@ == data_codewords_spec(bytes@).take(k as int),
        decreases 108 - k,
    {
        let c: u8 = if k == 0 {
            0x40u8 | ((n as u8) >> 4u8)
        } else if k <= n + 1 {
            ((stream_byte_exec(bytes, k - 1) & 15u8) << 4u8) | (stream_byte_exec(bytes, k) >> 4u8)
        } else if (k - n - 2) % 2 == 0 {
            0xEC
        } else {
            0x11
        };
        data.push(c);
        k += 1;
        assert(data@ == data_codewords_spec(bytes@).take(k as int));
    }
    data
}

fn codeword_bit(cw: &Vec<u8>, j: usize) -> (b: bool)
    requires
        cw@.len() == 134,
    ensures
        b == cw_bit(cw@, j as int),
{
    if j < 1072 {
        (cw[j / 8] >> ((7 - j % 8) as u8)) & 1u8 == 1u8
    } else {
        false
    }
}

/// Encodes `text` as a Version 5-L QR symbol: 37 rows of 37 modules, dark
/// as `true`. Text longer than 106 bytes does not fit and is refused.
pub fn encode(text: &str) -> (r: Result<Vec<Vec<bool>>, String>)
    ensures
        match r {
            Ok(m) => text.spec_bytes().len() <= 106 && m@.len() == 37 && (forall|y: int|
                0 <= y < 37 ==> #[trigger] m@[y]@ == symbol_spec(text.spec_bytes())[y]),
            Err(e) => text.spec_bytes().len() > 106 && e@
                == "otpauth URI is too long for QR Version 5-L"@,
        },
{
    let bytes = text.as_bytes();
    if bytes.len() > 106 {
        return Err(String::from_str("otpauth URI is too long for QR Version 5-L"));
    }
    let ghost t = bytes@;
    let mut cw = data_codewords(bytes);
    let ec = ec_codewords(&cw);
    let mut e: usize = 0;
    let ghost dc = cw@;
    while e < 26
        invariant
            e <= 26,
            ec@.len() == 26,
            dc.len() == 108,
            cw@ == dc + ec@.take(e as int),
        decreases 26 - e,
    {
        cw.push(ec[e]);
        e += 1;
        assert(cw@ == dc + ec@.take(e as int));
    }
    assert(cw@ == codewords_spec(t));
    let format: u16 = (0x2000u16 | bch(0x2000u16, 0x537u16)) ^ 0x5412u16;
    let r = reserved();
    // Function patterns and format information; data modules start light.
    let mut m: Vec<bool> = Vec::new();
    let mut i: usize = 0;
    while i < 1369
        invariant
            i <= 1369,
            m@.len() == i,
            r@.len() == 1369,
            format == format_word(),
            forall|j: int| 0 <= j < 1369 ==> #[trigger] r@[j] == is_reserved(j / 37, j % 37),
            forall|j: int| 0 <= j < i ==> #[trigger] m@[j] == placed(t, j / 37, j % 37, 0),
        decreases 1369 - i,
    {
        let v = if r[i] {
            function_module_exec(i / 37, i % 37, format)
        } else {
            false
        };
        proof {
            let ii = i as int;
            lemma_unflat(ii);
            if !is_reserved(ii / 37, ii % 37) {
                lemma_walk_index(ii / 37, ii % 37);
            }
        }
        m.push(v);
        i += 1;
    }
    // Data placement along the walk.
    let mut at: usize = 0;
    let mut k: usize = 0;
    while k < 1332
        invariant
            k <= 1332,
            at == count_data(k as nat),
            at <= k,
            m@.len() == 1369,
            r@.len() == 1369,
            cw@ == codewords_spec(t),
            cw@.len() == 134,
            forall|j: int| 0 <= j < 1369 ==> #[trigger] r@[j] == is_reserved(j / 37, j % 37),
            forall|j: int| 0 <= j < 1369 ==> #[trigger] m@[j] == placed(t, j / 37, j % 37, k as int),
        decreases 1332 - k,
    {
        let (y, x) = walk_position(k);
        proof {
            lemma_walk_pos(k as int);
            lemma_flat(y as int, x as int);
        }
        let p = y * 37 + x;
        let ghost old_m = m@;
        if !r[p] {
            let bit = codeword_bit(&cw, at);
            m.set(p, bit != ((y + x) % 2 == 0));
            at += 1;
        }
        proof {
            assert forall|j: int| 0 <= j < 1369 implies #[trigger] m@[j] == placed(
                t,
                j / 37,
                j % 37,
                k + 1,
            ) by {
                lemma_unflat(j);
                let yy = j / 37;
                let xx = j % 37;
                if j == p {
                } else {
                    assert(m@[j] == old_m[j]);
                    if !is_reserved(yy, xx) {
                        lemma_walk_index(yy, xx);
                        if walk_index(yy, xx) == k {
                            assert(yy == y && xx == x);
                        }
                    }
                }
            }
        }
        k += 1;
    }
    // Rows of the symbol.
    let mut rows: Vec<Vec<bool>> = Vec::new();
    let mut y: usize = 0;
    while y < 37
        invariant
            y <= 37,
            rows@.len() == y,
            m@.len() == 1369,
            forall|j: int| 0 <= j < 1369 ==> #[trigger] m@[j] == placed(t, j / 37, j % 37, 1332),
            forall|yy: int| 0 <= yy < y ==> #[trigger] rows@[yy]@ == symbol_spec(t)[yy],
        decreases 37 - y,
    {
        let mut row: Vec<bool> = Vec::new();
        let mut x: usize = 0;
        while x < 37
            invariant
                x <= 37,
                y < 37,
                row@.len() == x,
                m@.len() == 1369,
                forall|j: int| 0 <= j < 1369 ==> #[trigger] m@[j] == placed(t, j / 37, j % 37, 1332),
                forall|xx: int| 0 <= xx < x ==> #[trigger] row@[xx] == module_at(t, y as int, xx),
            decreases 37 - x,
        {
            proof {
                lemma_flat(y as int, x as int);
                if !is_reserved(y as int, x as int) {
                    lemma_walk_index(y as int, x as int);
                }
            }
            row.push(m[y * 37 + x]);
            x += 1;
        }
        assert(row@ == symbol_spec(t)[y as int]);
        rows.push(row);
        y += 1;
    }
    Ok(rows)
}

// ---------------------------------------------------------------------------
// Rendering.

/// Whether module `(y, x)` of `m` is dark; modules outside `m` are light.
pub open spec fn dark_at(m: Seq<Seq<bool>>, y: int, x: int) -> bool {
    0 <= y < m.len() && 0 <= x < m[y].len() && m[y][x]
}

/// The SVG path segment that draws the unit square of module `(y, x)`,
/// offset by the 4-module quiet zone.
pub open spec fn svg_square(y: int, x: int) -> Seq<char> {
    "M"@ + decimal((x + 4) as nat) + " "@ + decimal((y + 4) as nat) + "h1v1H"@ + decimal(
        (x + 4) as nat,
    ) + "z"@
}

/// The path segments of the first `k` modules of an `n`-wide matrix, row by row.
pub open spec fn svg_path(m: Seq<Seq<bool>>, n: int, k: int) -> Seq<char>
    decreases k,
{
    if k <= 0 || n <= 0 {
        seq![]
    } else {
        svg_path(m, n, k - 1) + if dark_at(m, (k - 1) / n, (k - 1) % n) {
            svg_square((k - 1) / n, (k - 1) % n)
        } else {
            seq![]
        }
    }
}

/// The SVG document for an `n`x`n` matrix: a white background with the
/// dark modules as one black path, and a 4-module quiet zone.
pub open spec fn svg_doc(m: Seq<Seq<bool>>) -> Seq<char> {
    let n = m.len() as int;
    "<svg xmlns=\"http://www.w3.org/2000/svg\" viewBox=\"0 0 "@ + decimal((n + 8) as nat) + " "@
        + decimal((n + 8) as nat)
        + "\" shape-rendering=\"crispEdges\"><rect width=\"100%\" height=\"100%\" fill=\"white\"/><path fill=\"black\" d=\""@
        + svg_path(m, n, n * n) + "\"/></svg>"@
}

fn append_decimal(s: &mut String, v: usize)
    ensures
        final(s)@ == old(s)@ + decimal(v as nat),
{
    let d = decimal_string(v as u128);
    s.append(d.as_str());
}

/// The QR symbol for `text` as an SVG document; text that does not fit is
/// refused as by `encode`.
pub fn svg(text: &str) -> (r: Result<String, String>)
    ensures
        match r {
            Ok(s) => text.spec_bytes().len() <= 106 && s@ == svg_doc(symbol_spec(text.spec_bytes())),
            Err(e) => text.spec_bytes().len() > 106 && e@
                == "otpauth URI is too long for QR Version 5-L"@,
        },
{
    let m = match encode(text) {
        Ok(m) => m,
        Err(e) => return Err(e),
    };
    let ghost sym = symbol_spec(text.spec_bytes());
    assert(m@.len() == sym.len());
    let n = m.len();
    let mut s = String::from_str(
        "<svg xmlns=\"http://www.w3.org/2000/svg\" viewBox=\"0 0 ",
    );
    append_decimal(&mut s, n + 8);
    s.append(" ");
    append_decimal(&mut s, n + 8);
    s.append(
        "\" shape-rendering=\"crispEdges\"><rect width=\"100%\" height=\"100%\" fill=\"white\"/><path fill=\"black\" d=\"",
    );
    let ghost head = s@;
    let ghost mm = m@.map_values(|row: Vec<bool>| row@);
    assert(mm == sym);
    let mut y: usize = 0;
    while y < n
        invariant
            y <= n,
            n == 37,
            n == m@.len(),
            mm == m@.map_values(|row: Vec<bool>| row@),
            forall|yy: int| 0 <= yy < 37 ==> #[trigger] mm[yy].len() == 37,
            s@ == head + svg_path(mm, 37, (y * 37) as int),
        decreases n - y,
    {
        let row = &m[y];
        assert(row@ == mm[y as int]);
        let mut x: usize = 0;
        while x < 37
            invariant
                x <= 37,
                y < 37,
                row@ == mm[y as int],
                row@.len() == 37,
                mm.len() == 37,
                s@ == head + svg_path(mm, 37, (y * 37 + x) as int),
            decreases 37 - x,
        {
            proof {
                lemma_flat(y as int, x as int);
            }
            let ghost before = s@;
            let ghost k = (y * 37 + x) as int;
            if row[x] {
                s.append("M");
                append_decimal(&mut s, x + 4);
                s.append(" ");
                append_decimal(&mut s, y + 4);
                s.append("h1v1H");
                append_decimal(&mut s, x + 4);
                s.append("z");
                assert(s@ == before + svg_square(y as int, x as int));
            }
            assert(dark_at(mm, k / 37, k % 37) == row@[x as int]);
            assert(svg_path(mm, 37, k + 1) == svg_path(mm, 37, k) + if dark_at(mm, k / 37, k % 37) {
                svg_square(k / 37, k % 37)
            } else {
                seq![]
            });
            x += 1;
        }
        y += 1;
    }
    s.append("\"/></svg>");
    Ok(s)
}

/// The character that shows module `top` over module `bottom` in one
/// terminal cell (dark drawn in the foreground colour).
pub open spec fn half_block(top: bool, bottom: bool) -> char {
    if top && bottom {
        '\u{2588}'
    } else if top {
        '\u{2580}'
    } else if bottom {
        '\u{2584}'
    } else {
        ' '
    }
}

/// One terminal line: modules rows `2 * line - 4` and `2 * line - 3` of
/// `m` (with the quiet zone around the symbol), black on white.
pub open spec fn terminal_line(m: Seq<Seq<bool>>, line: int) -> Seq<char> {
    let w = m.len() + 8;
    "\u{1b}[30;47m"@ + Seq::new(
        w as nat,
        |c: int| half_block(dark_at(m, 2 * line - 4, c - 4), dark_at(m, 2 * line - 3, c - 4)),
    ) + "\u{1b}[0m\n"@
}

/// The first `k` terminal lines.
pub open spec fn terminal_lines(m: Seq<Seq<bool>>, k: int) -> Seq<char>
    decreases k,
{
    if k <= 0 {
        seq![]
    } else {
        terminal_lines(m, k - 1) + terminal_line(m, k - 1)
    }
}

/// Terminal rendering of the matrix `m`: two module rows per text line with
/// half-block characters, a 4-module quiet zone, fixed black on white.
pub open spec fn terminal_doc(m: Seq<Seq<bool>>) -> Seq<char> {
    terminal_lines(m, ((m.len() + 9) / 2) as int)
}

fn dark(m: &Vec<Vec<bool>>, y: usize, x: usize) -> (b: bool)
    ensures
        b == dark_at(m@.map_values(|row: Vec<bool>| row@), y - 4, x - 4),
{
    if y >= 4 && x >= 4 && y - 4 < m.len() && x - 4 < m[y - 4].len() {
        m[y - 4][x - 4]
    } else {
        false
    }
}

/// Renders `m` for a terminal, as `terminal_doc` describes.
pub fn terminal(m: &Vec<Vec<bool>>) -> (s: String)
    requires
        m@.len() <= usize::MAX - 9,
    ensures
        s@ == terminal_doc(m@.map_values(|row: Vec<bool>| row@)),
{
    let ghost mm = m@.map_values(|row: Vec<bool>| row@);
    let n = m.len();
    let w = n + 8;
    let lines = (n + 9) / 2;
    let mut s = String::new();
    let mut line: usize = 0;
    while line < lines
        invariant
            line <= lines,
            lines == (n + 9) / 2,
            n == m@.len(),
            n <= usize::MAX - 9,
            w == n + 8,
            mm == m@.map_values(|row: Vec<bool>| row@),
            s@ == terminal_lines(mm, line as int),
        decreases lines - line,
    {
        let ghost before = s@;
        s.append("\u{1b}[30;47m");
        let ghost start = s@;
        let mut c: usize = 0;
        while c < w
            invariant
                c <= w,
                w == n + 8,
                n == m@.len(),
                n <= usize::MAX - 9,
                line < lines,
                lines == (n + 9) / 2,
                mm == m@.map_values(|row: Vec<bool>| row@),
                s@ == start + Seq::new(
                    c as nat,
                    |cc: int|
                        half_block(
                            dark_at(mm, 2 * line - 4, cc - 4),
                            dark_at(mm, 2 * line - 3, cc - 4),
                        ),
                ),
            decreases w - c,
        {
            let top = dark(m, 2 * line, c);
            let bottom = dark(m, 2 * line + 1, c);
            let ch = if top && bottom {
                '\u{2588}'
            } else if top {
                '\u{2580}'
            } else if bottom {
                '\u{2584}'
            } else {
                ' '
            };
            push_char(&mut s, ch);
            c += 1;
            assert(s@ == start + Seq::new(
                c as nat,
                |cc: int|
                    half_block(dark_at(mm, 2 * line - 4, cc - 4), dark_at(mm, 2 * line - 3, cc - 4)),
            ));
        }
        s.append("\u{1b}[0m\n");
        assert(s@ == before + terminal_line(mm, line as int));
        line += 1;
    }
    s
}

} // verus!
