//! Products of wide integers, exact in twice the width.

use vstd::prelude::*;

verus! {

/// The number that a pair of wide integers stands for: `hi` times two to the
/// hundred and twenty-eighth, plus `lo`.
pub open spec fn wide(hi: u128, lo: u128) -> int {
    hi * 0x1_0000_0000_0000_0000_0000_0000_0000_0000 + lo
}

/// The exact product of two wide integers, as a pair.
pub fn mul_wide(a: u128, b: u128) -> (r: (u128, u128))
    ensures
        wide(r.0, r.1) == a * b,
{
    let a0: u128 = a % 0x1_0000_0000_0000_0000;
    let a1: u128 = a / 0x1_0000_0000_0000_0000;
    let b0: u128 = b % 0x1_0000_0000_0000_0000;
    let b1: u128 = b / 0x1_0000_0000_0000_0000;
    proof {
        lemma_half_product(a0 as int, b0 as int);
        lemma_half_product(a0 as int, b1 as int);
        lemma_half_product(a1 as int, b0 as int);
        lemma_half_product(a1 as int, b1 as int);
    }
    let p00: u128 = a0 * b0;
    let p01: u128 = a0 * b1;
    let p10: u128 = a1 * b0;
    let p11: u128 = a1 * b1;
    let t: u128 = p00 / 0x1_0000_0000_0000_0000 + p01 % 0x1_0000_0000_0000_0000 + p10
        % 0x1_0000_0000_0000_0000;
    let lo: u128 = (t % 0x1_0000_0000_0000_0000) * 0x1_0000_0000_0000_0000 + p00
        % 0x1_0000_0000_0000_0000;
    let hi: u128 = p11 + p01 / 0x1_0000_0000_0000_0000 + p10 / 0x1_0000_0000_0000_0000 + t
        / 0x1_0000_0000_0000_0000;
    proof {
        lemma_split_product(a as int, b as int, a1 as int, a0 as int, b1 as int, b0 as int);
    }
    (hi, lo)
}

/// The product of two halves fits a wide integer, and its upper half is
/// below the largest half by one.
proof fn lemma_half_product(x: int, y: int)
    requires
        0 <= x < 0x1_0000_0000_0000_0000,
        0 <= y < 0x1_0000_0000_0000_0000,
    ensures
        0 <= x * y <= 0xffff_ffff_ffff_fffe_0000_0000_0000_0001,
{
    assert(0 <= x * y <= 0xffff_ffff_ffff_ffff * 0xffff_ffff_ffff_ffff) by (nonlinear_arith)
        requires
            0 <= x <= 0xffff_ffff_ffff_ffff,
            0 <= y <= 0xffff_ffff_ffff_ffff,
    ;
}

/// The product of two numbers from the products of their halves.
proof fn lemma_split_product(a: int, b: int, a1: int, a0: int, b1: int, b0: int)
    requires
        a == a1 * 0x1_0000_0000_0000_0000 + a0,
        b == b1 * 0x1_0000_0000_0000_0000 + b0,
    ensures
        a * b == (a1 * b1) * 0x1_0000_0000_0000_0000_0000_0000_0000_0000 + (a0 * b1 + a1 * b0)
            * 0x1_0000_0000_0000_0000 + a0 * b0,
{
    lemma_expand(a1, a0, b1, b0, 0x1_0000_0000_0000_0000);
    assert(0x1_0000_0000_0000_0000int * 0x1_0000_0000_0000_0000int
        == 0x1_0000_0000_0000_0000_0000_0000_0000_0000int) by (nonlinear_arith);
}

/// The product of two numbers written in a base `m`, term by term.
proof fn lemma_expand(a1: int, a0: int, b1: int, b0: int, m: int)
    ensures
        (a1 * m + a0) * (b1 * m + b0) == (a1 * b1) * (m * m) + (a0 * b1 + a1 * b0) * m + a0 * b0,
{
    let x = a1 * m;
    let y = b1 * m;
    assert((x + a0) * (y + b0) == x * y + x * b0 + a0 * y + a0 * b0) by (nonlinear_arith);
    assert(x * y == (a1 * b1) * (m * m)) by (nonlinear_arith)
        requires
            x == a1 * m,
            y == b1 * m,
    ;
    assert(x * b0 == (a1 * b0) * m) by (nonlinear_arith)
        requires
            x == a1 * m,
    ;
    assert(a0 * y == (a0 * b1) * m) by (nonlinear_arith)
        requires
            y == b1 * m,
    ;
    assert((a0 * b1 + a1 * b0) * m == (a0 * b1) * m + (a1 * b0) * m) by (nonlinear_arith);
}

/// Whether the product of `a` and `b` is at least that of `c` and `d`.
pub fn product_at_least(a: u128, b: u128, c: u128, d: u128) -> (r: bool)
    ensures
        r == (a * b >= c * d),
{
    let (hi, lo) = mul_wide(a, b);
    let (other_hi, other_lo) = mul_wide(c, d);
    hi > other_hi || (hi == other_hi && lo >= other_lo)
}

} // verus!
