//! The field GF(2⁸): its product as a specification, and the laws of the field.
//!
//! A byte stands for a polynomial over GF(2) of degree below eight, bit `i` being the
//! coefficient of `x^i`. Addition is exclusive or. Multiplication is polynomial
//! multiplication modulo `x⁸ + x⁴ + x³ + x + 1`.

use vstd::prelude::*;

verus! {

/// `a` times the polynomial `x`, reduced.
pub open spec fn gf_xtime(a: u8) -> u8 {
    (a << 1) ^ (if a & 0x80 != 0 { 0x1b } else { 0u8 })
}

/// `v` where bit `i` of `b` is set, zero elsewhere.
pub open spec fn gf_select(b: u8, i: u8, v: u8) -> u8 {
    if b & (1u8 << i) != 0 {
        v
    } else {
        0u8
    }
}

/// The field product: the sum of `x^i · a` over the bits `i` that are set in `b`.
#[verifier::opaque]
pub open spec fn gf_product(a: u8, b: u8) -> u8 {
    let a1 = gf_xtime(a);
    let a2 = gf_xtime(a1);
    let a3 = gf_xtime(a2);
    let a4 = gf_xtime(a3);
    let a5 = gf_xtime(a4);
    let a6 = gf_xtime(a5);
    let a7 = gf_xtime(a6);
    gf_select(b, 0, a) ^ gf_select(b, 1, a1) ^ gf_select(b, 2, a2) ^ gf_select(b, 3, a3)
        ^ gf_select(b, 4, a4) ^ gf_select(b, 5, a5) ^ gf_select(b, 6, a6) ^ gf_select(b, 7, a7)
}

/// `n`-th power of the generator `g = x + 1`, that is of the byte 3.
pub open spec fn gf_power(n: nat) -> u8
    decreases n,
{
    if n == 0 {
        1
    } else {
        gf_product(gf_power((n - 1) as nat), 3)
    }
}

/// Addition commutes.
pub proof fn lemma_add_commutes(a: u8, b: u8)
    ensures
        a ^ b == b ^ a,
{
    assert(a ^ b == b ^ a) by (bit_vector);
}

/// Addition associates.
pub proof fn lemma_add_associates(a: u8, b: u8, c: u8)
    ensures
        (a ^ b) ^ c == a ^ (b ^ c),
{
    assert((a ^ b) ^ c == a ^ (b ^ c)) by (bit_vector);
}

/// Zero is neutral for addition, and every element is its own negative.
pub proof fn lemma_add_zero(a: u8)
    ensures
        a ^ 0 == a,
        0 ^ a == a,
        a ^ a == 0,
{
    assert(a ^ 0 == a && 0 ^ a == a && a ^ a == 0) by (bit_vector);
}

/// Adding the same element twice changes nothing; a sum is zero only for equal terms.
pub proof fn lemma_add_cancels(a: u8, b: u8)
    ensures
        (a ^ b) ^ b == a,
        a ^ b == 0 <==> a == b,
{
    assert((a ^ b) ^ b == a && (a ^ b == 0 <==> a == b)) by (bit_vector);
}

/// The four terms of a sum of two sums may be regrouped.
pub proof fn lemma_add_regroup(a: u8, b: u8, c: u8, d: u8)
    ensures
        (a ^ b) ^ (c ^ d) == (a ^ c) ^ (b ^ d),
{
    assert((a ^ b) ^ (c ^ d) == (a ^ c) ^ (b ^ d)) by (bit_vector);
}

/// Multiplication commutes.
pub proof fn lemma_mul_commutes(a: u8, b: u8)
    ensures
        gf_product(a, b) == gf_product(b, a),
{
    reveal(gf_product);
    assert(gf_product(a, b) == gf_product(b, a)) by (bit_vector);
}

/// Multiplication distributes over addition on the right.
pub proof fn lemma_mul_distributes(a: u8, b: u8, c: u8)
    ensures
        gf_product(a, b ^ c) == gf_product(a, b) ^ gf_product(a, c),
{
    reveal(gf_product);
    assert(gf_product(a, b ^ c) == gf_product(a, b) ^ gf_product(a, c)) by (bit_vector);
}

/// Multiplication distributes over addition on the left.
pub proof fn lemma_mul_distributes_left(a: u8, b: u8, c: u8)
    ensures
        gf_product(a ^ b, c) == gf_product(a, c) ^ gf_product(b, c),
{
    lemma_mul_commutes(a ^ b, c);
    lemma_mul_commutes(a, c);
    lemma_mul_commutes(b, c);
    lemma_mul_distributes(c, a, b);
}

/// One is neutral for multiplication.
pub proof fn lemma_mul_one(a: u8)
    ensures
        gf_product(a, 1) == a,
        gf_product(1, a) == a,
{
    reveal(gf_product);
    assert(gf_product(a, 1) == a && gf_product(1, a) == a) by (bit_vector);
}

/// Zero annihilates.
pub proof fn lemma_mul_zero(a: u8)
    ensures
        gf_product(a, 0) == 0,
        gf_product(0, a) == 0,
{
    reveal(gf_product);
    assert(gf_product(a, 0) == 0 && gf_product(0, a) == 0) by (bit_vector);
}

/// Multiplying by `x` commutes with multiplying by anything.
proof fn lemma_mul_xtime(a: u8, b: u8)
    ensures
        gf_product(a, gf_xtime(b)) == gf_xtime(gf_product(a, b)),
{
    reveal(gf_product);
    assert(gf_product(a, gf_xtime(b)) == gf_xtime(gf_product(a, b))) by (bit_vector);
}

/// Multiplication of a selected value is the selection of the product.
proof fn lemma_mul_select(a: u8, b: u8, i: u8, v: u8)
    ensures
        gf_product(a, gf_select(b, i, v)) == gf_select(b, i, gf_product(a, v)),
{
    lemma_mul_zero(a);
}

/// Multiplication associates.
pub proof fn lemma_mul_associates(a: u8, b: u8, c: u8)
    ensures
        gf_product(gf_product(a, b), c) == gf_product(a, gf_product(b, c)),
{
    let b1 = gf_xtime(b);
    let b2 = gf_xtime(b1);
    let b3 = gf_xtime(b2);
    let b4 = gf_xtime(b3);
    let b5 = gf_xtime(b4);
    let b6 = gf_xtime(b5);
    let b7 = gf_xtime(b6);
    let s0 = gf_select(c, 0, b);
    let s1 = gf_select(c, 1, b1);
    let s2 = gf_select(c, 2, b2);
    let s3 = gf_select(c, 3, b3);
    let s4 = gf_select(c, 4, b4);
    let s5 = gf_select(c, 5, b5);
    let s6 = gf_select(c, 6, b6);
    let s7 = gf_select(c, 7, b7);
    let q1 = s0 ^ s1;
    let q2 = q1 ^ s2;
    let q3 = q2 ^ s3;
    let q4 = q3 ^ s4;
    let q5 = q4 ^ s5;
    let q6 = q5 ^ s6;
    let q7 = q6 ^ s7;
    assert(gf_product(b, c) == q7) by {
        reveal(gf_product);
    }
    lemma_mul_distributes(a, s0, s1);
    lemma_mul_distributes(a, q1, s2);
    lemma_mul_distributes(a, q2, s3);
    lemma_mul_distributes(a, q3, s4);
    lemma_mul_distributes(a, q4, s5);
    lemma_mul_distributes(a, q5, s6);
    lemma_mul_distributes(a, q6, s7);
    lemma_mul_xtime(a, b);
    lemma_mul_xtime(a, b1);
    lemma_mul_xtime(a, b2);
    lemma_mul_xtime(a, b3);
    lemma_mul_xtime(a, b4);
    lemma_mul_xtime(a, b5);
    lemma_mul_xtime(a, b6);
    lemma_mul_select(a, c, 0, b);
    lemma_mul_select(a, c, 1, b1);
    lemma_mul_select(a, c, 2, b2);
    lemma_mul_select(a, c, 3, b3);
    lemma_mul_select(a, c, 4, b4);
    lemma_mul_select(a, c, 5, b5);
    lemma_mul_select(a, c, 6, b6);
    lemma_mul_select(a, c, 7, b7);
    let p = gf_product(a, b);
    assert(gf_product(p, c) == gf_product(a, q7)) by {
        reveal(gf_product);
    }
}

/// Exponents of the generator add up under multiplication.
pub proof fn lemma_power_adds(i: nat, j: nat)
    ensures
        gf_product(gf_power(i), gf_power(j)) == gf_power(i + j),
    decreases j,
{
    if j == 0 {
        lemma_mul_one(gf_power(i));
    } else {
        let m = (j - 1) as nat;
        lemma_power_adds(i, m);
        lemma_mul_associates(gf_power(i), gf_power(m), 3);
        assert(i + j == (i + m) + 1);
    }
}

/// A product splits off the lowest bit of its second factor.
pub proof fn lemma_mul_halves(a: u8, b: u8)
    ensures
        gf_product(a, b) == gf_select(b, 0, a) ^ gf_product(gf_xtime(a), b >> 1),
{
    reveal(gf_product);
    assert(gf_product(a, b) == gf_select(b, 0, a) ^ gf_product(gf_xtime(a), b >> 1))
        by (bit_vector);
}

}
