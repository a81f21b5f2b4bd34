//! Bitwise and comparison instruction semantics: signed comparisons, zero
//! test, complement, byte extraction, and logical/arithmetic shifts.

use vstd::prelude::*;
use crate::primitive_types::{U256, p64, p255, p256, sval, to_rep, lemma_pow2_consts};
use vstd::arithmetic::power2::{pow2, lemma_pow2_adds, lemma_pow2_pos};
use vstd::arithmetic::div_mod::{
    lemma_small_mod, lemma_mod_multiples_vanish, lemma_fundamental_div_mod,
    lemma_fundamental_div_mod_converse, lemma_mul_mod_noop_right,
    lemma_mod_add_multiples_vanish,
};
use vstd::arithmetic::mul::{lemma_mul_inequality, lemma_mul_strict_inequality};

verus! {

/// The sign of a word: 1 exactly when its top bit is set, that is when the
/// signed reading is negative.
pub proof fn lemma_top_bit(a: nat)
    requires
        a < p256(),
    ensures
        (a / p255() == 1) <==> (a >= p255()),
        a / p255() <= 1,
        (a / p255() == 1) <==> sval(a) < 0,
{
    lemma_fundamental_div_mod(a as int, p255() as int);
    let t = a / p255();
    if t >= 2 {
        lemma_mul_inequality(2, t as int, p255() as int);
        assert(p255() * t == t * p255()) by (nonlinear_arith);
    }
}

/// What SLT pushes: 1 exactly when `a` is below `b` as signed words.
pub open spec fn slt_spec(a: nat, b: nat) -> nat {
    if sval(a) < sval(b) {
        1
    } else {
        0
    }
}

/// What SGT pushes: 1 exactly when `a` is above `b` as signed words.
pub open spec fn sgt_spec(a: nat, b: nat) -> nat {
    if sval(a) > sval(b) {
        1
    } else {
        0
    }
}

/// Signed (two's-complement) less-than.
pub fn slt(op1: U256, op2: U256) -> (r: U256)
    ensures
        r.as_nat() == slt_spec(op1.as_nat(), op2.as_nat()),
{
    let at = op1.top_bit();
    let bt = op2.top_bit();
    proof {
        lemma_top_bit(op1.as_nat());
        lemma_top_bit(op2.as_nat());
    }
    let below = if at != bt {
        at == 1
    } else {
        op1.lt(&op2)
    };
    if below {
        U256::one()
    } else {
        U256::zero()
    }
}

/// Signed (two's-complement) greater-than.
pub fn sgt(op1: U256, op2: U256) -> (r: U256)
    ensures
        r.as_nat() == sgt_spec(op1.as_nat(), op2.as_nat()),
{
    slt(op2, op1)
}

/// Zero test: pushes 1 for zero, 0 otherwise.
pub fn iszero(op1: U256) -> (r: U256)
    ensures
        r.as_nat() == (if op1.as_nat() == 0 { 1nat } else { 0nat }),
{
    if op1.is_zero() {
        U256::one()
    } else {
        U256::zero()
    }
}

/// Bitwise complement.
pub fn not(op1: U256) -> (r: U256)
    ensures
        r.as_nat() == p256() - 1 - op1.as_nat(),
{
    op1.not()
}

/// What BYTE pushes: the `i`-th byte counting from the most significant
/// byte as index 0; any index past the word is 0.
pub open spec fn byte_spec(i: nat, x: nat) -> nat {
    if i >= 32 {
        0
    } else {
        (x / pow2((8 * (31 - i)) as nat)) % 256
    }
}

/// Byte extraction, most significant byte first.
pub fn byte(op1: U256, op2: U256) -> (r: U256)
    ensures
        r.as_nat() == byte_spec(op1.as_nat(), op2.as_nat()),
{
    let t32 = U256::from_u64(32);
    if !op1.lt(&t32) {
        return U256::zero();
    }
    let i = op1.w0;
    let s: u64 = 8 * (31 - i);
    let y = shr_by(op2, s as usize);
    let lo = y.w0 & 0xFFu64;
    proof {
        let y0 = y.w0;
        assert(y0 & 0xFFu64 == y0 % 256) by (bit_vector);
        let hi = (y.w1 + y.w2 * 0x1_0000_0000_0000_0000
            + y.w3 * 0x1_0000_0000_0000_0000_0000_0000_0000_0000) as int;
        assert(y.as_nat() == 256 * (hi * 0x0100_0000_0000_0000) + y0) by (nonlinear_arith)
            requires
                y.as_nat() == y0 + hi * 0x1_0000_0000_0000_0000,
        {
        }
        lemma_mod_multiples_vanish(
            hi * 0x0100_0000_0000_0000, y0 as int, 256);
        lemma_small_mod((y0 % 256) as nat, 256);
        assert(y.as_nat() % 256 == y0 % 256);
    }
    U256::from_u64(lo)
}

/// Logical shift right by a small amount: the value becomes `x / 2^s`.
pub fn shr_by(x: U256, s: usize) -> (r: U256)
    requires
        s < 256,
    ensures
        r.as_nat() == x.as_nat() / pow2(s as nat),
{
    let mut cur = x;
    let mut i: usize = 0;
    proof {
        lemma_pow2_consts();
    }
    while i < s
        invariant
            i <= s,
            s < 256,
            cur.as_nat() == x.as_nat() / pow2(i as nat),
        decreases s - i,
    {
        let ghost c0 = cur.as_nat();
        cur = cur.shr1();
        proof {
            lemma_pow2_consts();
            lemma_pow2_adds(i as nat, 1);
            lemma_pow2_pos(i as nat);
            vstd::arithmetic::div_mod::lemma_div_denominator(
                x.as_nat() as int, pow2(i as nat) as int, 2);
        }
        i = i + 1;
    }
    cur
}

/// Logical shift left by a small amount: `(x * 2^s) mod 2^256`.
pub fn shl_by(x: U256, s: usize) -> (r: U256)
    requires
        s < 256,
    ensures
        r.as_nat() == (x.as_nat() * pow2(s as nat)) % p256(),
{
    let mut cur = x;
    let mut i: usize = 0;
    proof {
        lemma_pow2_consts();
        assert(x.as_nat() * pow2(0) == x.as_nat()) by (nonlinear_arith)
            requires pow2(0) == 1
        {
        }
        lemma_small_mod(x.as_nat(), p256());
    }
    while i < s
        invariant
            i <= s,
            s < 256,
            cur.as_nat() == (x.as_nat() * pow2(i as nat)) % p256(),
        decreases s - i,
    {
        cur = cur.shl1_or(0);
        proof {
            lemma_pow2_consts();
            lemma_pow2_adds(1, i as nat);
            let m = p256() as int;
            let xv = x.as_nat() as int;
            let pi = pow2(i as nat) as int;
            lemma_mul_mod_noop_right(2, xv * pi, m);
            assert(2 * (xv * pi) == xv * pow2((i + 1) as nat)) by (nonlinear_arith)
                requires pow2((i + 1) as nat) == 2 * pi
            {
            }
        }
        i = i + 1;
    }
    cur
}

/// Floor division of a signed value by two stays a floor division after
/// the sign bit is copied back in.
proof fn lemma_sar1_signed(c: nat)
    requires
        c < p256(),
    ensures
        (c / 2 + (c / p255()) * p255()) < p256(),
        sval((c / 2 + (c / p255()) * p255()) as nat) == sval(c) / 2,
{
    lemma_top_bit(c);
    let n = (c / 2 + (c / p255()) * p255()) as nat;
    if c >= p255() {
        assert(n == c / 2 + p255());
        lemma_fundamental_div_mod(c as int, 2);
        assert(sval(n) == c / 2 - p255());
        lemma_fundamental_div_mod_converse(
            c - p256(), 2, c / 2 - p255(), (c % 2) as int);
    } else {
        assert(n == c / 2);
    }
}

/// Dividing twice by powers of two composes, for any integer dividend.
proof fn lemma_signed_halving(v: int, i: nat)
    ensures
        (v / (pow2(i) as int)) / 2 == v / (pow2((i + 1) as nat) as int),
{
    lemma_pow2_pos(i);
    lemma_pow2_adds(1, i);
    lemma_pow2_consts();
    let pi = pow2(i) as int;
    lemma_fundamental_div_mod(v, pi);
    let q1 = v / pi;
    let r1 = v % pi;
    lemma_fundamental_div_mod(q1, 2);
    let q2 = q1 / 2;
    let b = q1 % 2;
    assert(v == (2 * pi) * q2 + (b * pi + r1)) by (nonlinear_arith)
        requires
            v == pi * q1 + r1,
            q1 == 2 * q2 + b,
    {
    }
    assert(0 <= b * pi + r1 < 2 * pi) by (nonlinear_arith)
        requires
            0 <= r1 < pi,
            0 <= b <= 1,
            pi > 0,
    {
    }
    lemma_fundamental_div_mod_converse(v, 2 * pi, q2, b * pi + r1);
}

/// What SAR pushes: the signed value divided by `2^s`, rounding toward
/// minus infinity; a shift of 256 or more leaves only the sign.
pub open spec fn sar_spec(s: nat, x: nat) -> nat {
    if s >= 256 {
        if sval(x) < 0 {
            (p256() - 1) as nat
        } else {
            0
        }
    } else {
        to_rep(sval(x) / (pow2(s) as int))
    }
}

/// Arithmetic shift right by a small amount.
pub fn sar_by(x: U256, s: usize) -> (r: U256)
    requires
        s < 256,
    ensures
        r.as_nat() == to_rep(sval(x.as_nat()) / (pow2(s as nat) as int)),
{
    let mut cur = x;
    let mut i: usize = 0;
    proof {
        lemma_pow2_consts();
        assert(sval(x.as_nat()) / (pow2(0) as int) == sval(x.as_nat()));
        assert(to_rep(sval(x.as_nat())) == x.as_nat()) by {
            lemma_mod_add_multiples_vanish(sval(x.as_nat()), p256() as int);
            lemma_small_mod(x.as_nat(), p256());
        }
    }
    while i < s
        invariant
            i <= s,
            s < 256,
            cur.as_nat() < p256(),
            sval(cur.as_nat()) == sval(x.as_nat()) / (pow2(i as nat) as int),
        decreases s - i,
    {
        let ghost c0 = cur.as_nat();
        cur = cur.sar1();
        proof {
            lemma_sar1_signed(c0);
            lemma_signed_halving(sval(x.as_nat()), i as nat);
        }
        i = i + 1;
    }
    proof {
        let v = sval(cur.as_nat());
        lemma_mod_add_multiples_vanish(v, p256() as int);
        lemma_small_mod(cur.as_nat(), p256());
    }
    cur
}

/// Word below 256 read out as a small shift amount.
fn small_shift(op: &U256) -> (r: Option<usize>)
    ensures
        r matches Some(s) ==> s == op.as_nat() && s < 256,
        r is None ==> op.as_nat() >= 256,
{
    let t256 = U256::from_u64(256);
    if op.lt(&t256) {
        Some(op.w0 as usize)
    } else {
        None
    }
}

/// Logical shift left: `(x * 2^s) mod 2^256`; a shift of 256 or more
/// clears the word.
pub open spec fn shl_spec(s: nat, x: nat) -> nat {
    if s >= 256 {
        0
    } else {
        (x * pow2(s)) % p256()
    }
}

pub fn shl(op1: U256, op2: U256) -> (r: U256)
    ensures
        r.as_nat() == shl_spec(op1.as_nat(), op2.as_nat()),
{
    match small_shift(&op1) {
        Some(s) => shl_by(op2, s),
        None => U256::zero(),
    }
}

/// Logical shift right: `x / 2^s`; a shift of 256 or more clears the word.
pub open spec fn shr_spec(s: nat, x: nat) -> nat {
    if s >= 256 {
        0
    } else {
        x / pow2(s)
    }
}

pub fn shr(op1: U256, op2: U256) -> (r: U256)
    ensures
        r.as_nat() == shr_spec(op1.as_nat(), op2.as_nat()),
{
    match small_shift(&op1) {
        Some(s) => shr_by(op2, s),
        None => U256::zero(),
    }
}

/// Arithmetic shift right, preserving the sign bit.
pub fn sar(op1: U256, op2: U256) -> (r: U256)
    ensures
        r.as_nat() == sar_spec(op1.as_nat(), op2.as_nat()),
{
    match small_shift(&op1) {
        Some(s) => sar_by(op2, s),
        None => {
            let t = op2.top_bit();
            proof {
                lemma_top_bit(op2.as_nat());
            }
            if t == 1 {
                U256::zero().not()
            } else {
                U256::zero()
            }
        },
    }
}

} // verus!
