//! Arithmetic instruction semantics: division, modulo, their signed
//! variants, wide modular add/multiply, exponentiation, and sign extension.

use vstd::prelude::*;
use crate::primitive_types::{
    U256, U512, p255, p256, sval, to_rep, mul_full, div_rem_wide,
};
use crate::bitwise::{lemma_top_bit, shl_by, sar_by};
use vstd::arithmetic::power::{pow, lemma_pow0, lemma_pow1, lemma_pow_adds, lemma_pow_multiplies, lemma_pow_mod_noop};
use vstd::arithmetic::power2::{pow2, lemma_pow2_adds, lemma_pow2_pos};
use vstd::arithmetic::div_mod::{
    lemma_small_mod, lemma_mod_multiples_vanish, lemma_fundamental_div_mod,
    lemma_fundamental_div_mod_converse, lemma_mul_mod_noop_right,
    lemma_mul_mod_noop_general, lemma_mod_add_multiples_vanish, lemma_div_by_multiple,
};
use vstd::arithmetic::mul::{lemma_mul_strict_inequality, lemma_mul_is_commutative};

verus! {

/// What DIV pushes: unsigned quotient, with division by zero giving 0.
pub open spec fn div_spec(a: nat, b: nat) -> nat {
    if b == 0 {
        0
    } else {
        a / b
    }
}

/// What MOD pushes: unsigned remainder, with modulo by zero giving 0.
pub open spec fn rem_spec(a: nat, b: nat) -> nat {
    if b == 0 {
        0
    } else {
        a % b
    }
}

/// Magnitude of a signed value.
pub open spec fn abs_int(v: int) -> nat {
    if v < 0 {
        (-v) as nat
    } else {
        v as nat
    }
}

/// Signed division truncating toward zero.
pub open spec fn trunc_div(x: int, y: int) -> int {
    if (x < 0) != (y < 0) {
        -(abs_int(x) / abs_int(y))
    } else {
        (abs_int(x) / abs_int(y)) as int
    }
}

/// What SDIV pushes: two's-complement quotient truncated toward zero;
/// division by zero gives 0, and the minimum value divided by minus one
/// wraps back to the minimum value.
pub open spec fn sdiv_spec(a: nat, b: nat) -> nat {
    if b == 0 {
        0
    } else {
        to_rep(trunc_div(sval(a), sval(b)))
    }
}

/// What SMOD pushes: remainder taking the sign of the dividend;
/// modulo by zero gives 0.
pub open spec fn srem_spec(a: nat, b: nat) -> nat {
    if b == 0 {
        0
    } else if sval(a) < 0 {
        to_rep(-((abs_int(sval(a)) % abs_int(sval(b))) as int))
    } else {
        to_rep((abs_int(sval(a)) % abs_int(sval(b))) as int)
    }
}

/// What ADDMOD pushes: `(a + b) mod n` over the exact sum; modulus 0 gives 0.
pub open spec fn addmod_spec(a: nat, b: nat, n: nat) -> nat {
    if n == 0 {
        0
    } else {
        (a + b) % n
    }
}

/// What MULMOD pushes: `(a * b) mod n` over the exact product; modulus 0 gives 0.
pub open spec fn mulmod_spec(a: nat, b: nat, n: nat) -> nat {
    if n == 0 {
        0
    } else {
        (a * b) % n
    }
}

/// What EXP pushes: `a^b mod 2^256`, with `0^0 = 1`.
pub open spec fn exp_spec(a: nat, b: nat) -> nat {
    (pow(a as int, b) % (p256() as int)) as nat
}

/// What SIGNEXTEND pushes: for byte index `k`, the bit at position `8k+7`
/// replicated into all higher bits; `k` of 31 or more leaves the word as is.
pub open spec fn signextend_spec(k: nat, x: nat) -> nat {
    if k >= 31 {
        x
    } else {
        let t = (8 * k + 7) as nat;
        let low = x % pow2((t + 1) as nat);
        if (x / pow2(t)) % 2 == 1 {
            (low + (p256() - pow2((t + 1) as nat))) as nat
        } else {
            low
        }
    }
}

/// Two's-complement negation: `(-x) mod 2^256`.
fn neg(x: U256) -> (r: U256)
    ensures
        r.as_nat() == to_rep(-(x.as_nat() as int)),
{
    U256::zero().overflowing_sub(x).0
}

/// Magnitude and sign of the two's-complement reading of a word.
fn abs_signed(x: U256) -> (r: (U256, bool))
    ensures
        r.1 == (sval(x.as_nat()) < 0),
        r.0.as_nat() == abs_int(sval(x.as_nat())),
{
    let t = x.top_bit();
    proof {
        lemma_top_bit(x.as_nat());
    }
    if t == 1 {
        let n = neg(x);
        proof {
            let xv = x.as_nat() as int;
            lemma_mod_add_multiples_vanish(-xv, p256() as int);
            lemma_small_mod((p256() - xv) as nat, p256());
        }
        (n, true)
    } else {
        (x, false)
    }
}

/// Unsigned division; division by zero yields 0.
pub fn div(op1: U256, op2: U256) -> (r: U256)
    ensures
        r.as_nat() == div_spec(op1.as_nat(), op2.as_nat()),
{
    if op2.is_zero() {
        U256::zero()
    } else {
        op1.div_rem(&op2).0
    }
}

/// Unsigned remainder; modulo by zero yields 0.
pub fn rem(op1: U256, op2: U256) -> (r: U256)
    ensures
        r.as_nat() == rem_spec(op1.as_nat(), op2.as_nat()),
{
    if op2.is_zero() {
        U256::zero()
    } else {
        op1.div_rem(&op2).1
    }
}

/// Signed division truncating toward zero; division by zero yields 0.
pub fn sdiv(op1: U256, op2: U256) -> (r: U256)
    ensures
        r.as_nat() == sdiv_spec(op1.as_nat(), op2.as_nat()),
{
    if op2.is_zero() {
        return U256::zero();
    }
    let (ua, na) = abs_signed(op1);
    let (ub, nb) = abs_signed(op2);
    proof {
        assert(ub.as_nat() > 0);
    }
    let (q, _) = ua.div_rem(&ub);
    if na != nb {
        let nq = neg(q);
        proof {
            let qv = q.as_nat() as int;
            assert(nq.as_nat() == to_rep(-qv));
        }
        nq
    } else {
        proof {
            lemma_small_mod(q.as_nat(), p256());
            vstd::arithmetic::div_mod::lemma_div_nonincreasing(
                ua.as_nat() as int, ub.as_nat() as int);
        }
        q
    }
}

/// Signed remainder taking the sign of the dividend; modulo by zero yields 0.
pub fn srem(op1: U256, op2: U256) -> (r: U256)
    ensures
        r.as_nat() == srem_spec(op1.as_nat(), op2.as_nat()),
{
    if op2.is_zero() {
        return U256::zero();
    }
    let (ua, na) = abs_signed(op1);
    let (ub, _) = abs_signed(op2);
    let (_, rr) = ua.div_rem(&ub);
    if na {
        neg(rr)
    } else {
        proof {
            lemma_small_mod(rr.as_nat(), p256());
        }
        rr
    }
}

/// Modular addition over the exact 257-bit sum; modulus 0 yields 0.
pub fn addmod(op1: U256, op2: U256, op3: U256) -> (r: U256)
    ensures
        r.as_nat() == addmod_spec(op1.as_nat(), op2.as_nat(), op3.as_nat()),
{
    if op3.is_zero() {
        return U256::zero();
    }
    let (s, carry) = op1.overflowing_add(op2);
    let c: u64 = if carry {
        1
    } else {
        0
    };
    let wide = U512 { v0: s.w0, v1: s.w1, v2: s.w2, v3: s.w3, v4: c, v5: 0, v6: 0, v7: 0 };
    proof {
        let t = (op1.as_nat() + op2.as_nat()) as int;
        if carry {
            lemma_mod_add_multiples_vanish(t - p256(), p256() as int);
            lemma_small_mod((t - p256()) as nat, p256());
        } else {
            lemma_small_mod(t as nat, p256());
        }
        assert(wide.as_nat() == op1.as_nat() + op2.as_nat());
    }
    div_rem_wide(wide, &op3).1
}

/// Modular multiplication over the exact 512-bit product; modulus 0 yields 0.
pub fn mulmod(op1: U256, op2: U256, op3: U256) -> (r: U256)
    ensures
        r.as_nat() == mulmod_spec(op1.as_nat(), op2.as_nat(), op3.as_nat()),
{
    if op3.is_zero() {
        return U256::zero();
    }
    let wide = mul_full(&op1, &op2);
    div_rem_wide(wide, &op3).1
}

/// Modular exponentiation modulo 2^256 by square and multiply.
pub fn exp(op1: U256, op2: U256) -> (r: U256)
    ensures
        r.as_nat() == exp_spec(op1.as_nat(), op2.as_nat()),
{
    let mut base = op1;
    let mut e = op2;
    let mut acc = U256::one();
    let ghost m = p256() as int;
    proof {
        assert(1 * pow(base.as_nat() as int, e.as_nat())
            == pow(op1.as_nat() as int, op2.as_nat())) by (nonlinear_arith)
            requires
                base.as_nat() == op1.as_nat(),
                e.as_nat() == op2.as_nat(),
        {
        }
    }
    while !e.is_zero()
        invariant
            m == p256() as int,
            (acc.as_nat() * pow(base.as_nat() as int, e.as_nat())) % m
                == pow(op1.as_nat() as int, op2.as_nat()) % m,
        decreases e.as_nat(),
    {
        let ghost a0 = acc.as_nat() as int;
        let ghost b0 = base.as_nat() as int;
        let ghost e0 = e.as_nat();
        let odd = e.w0 & 1u64;
        proof {
            let w = e.w0;
            assert((w & 1u64) == w % 2) by (bit_vector);
            let hi = (e.w1 * 0x8000_0000_0000_0000
                + e.w2 * 0x8000_0000_0000_0000_0000_0000_0000_0000
                + e.w3 * 0x8000_0000_0000_0000_0000_0000_0000_0000_0000_0000_0000_0000) as int;
            assert(e0 == 2 * hi + w);
            lemma_mod_multiples_vanish(hi, w as int, 2);
            lemma_small_mod((w % 2) as nat, 2);
            assert(e0 % 2 == odd);
        }
        if odd == 1 {
            acc = acc.overflowing_mul(base).0;
        }
        let ghost a1 = acc.as_nat() as int;
        base = base.overflowing_mul(base).0;
        e = e.shr1();
        proof {
            let b1 = base.as_nat() as int;
            let e1 = e.as_nat();
            lemma_pow1(b0);
            lemma_pow_adds(b0, 1, 1);
            assert(pow(b0, 2) == b0 * b0);
            lemma_pow_multiplies(b0, 2, e1);
            assert(pow(b1, e1) % m == pow(b0 * b0, e1) % m) by {
                lemma_pow_mod_noop(b0 * b0, e1, m);
            }
            if e0 % 2 == 0 {
                assert(2 * e1 == e0);
                assert(pow(b0, e0) == pow(b0 * b0, e1)) by {
                    assert(pow(pow(b0, 2), e1) == pow(b0, 2 * e1));
                }
                lemma_mul_mod_noop_right(a0, pow(b1, e1), m);
                lemma_mul_mod_noop_right(a0, pow(b0, e0), m);
                assert((a1 * pow(b1, e1)) % m == (a0 * pow(b0, e0)) % m);
            } else {
                assert(2 * e1 + 1 == e0);
                lemma_pow_adds(b0, 1, 2 * e1);
                assert(pow(b0, e0) == b0 * pow(b0, 2 * e1));
                assert(pow(b0, 2 * e1) == pow(b0 * b0, e1)) by {
                    assert(pow(pow(b0, 2), e1) == pow(b0, 2 * e1));
                }
                lemma_mul_mod_noop_general(a0 * b0, pow(b0 * b0, e1), m);
                lemma_mul_mod_noop_general(a0 * b0, pow(b1, e1), m);
                assert((a1 * pow(b1, e1)) % m == ((a0 * b0) % m * (pow(b1, e1) % m)) % m);
                assert((a0 * b0) * pow(b0 * b0, e1) == a0 * pow(b0, e0)) by (nonlinear_arith)
                    requires
                        pow(b0, e0) == b0 * pow(b0 * b0, e1),
                {
                }
                assert((a1 * pow(b1, e1)) % m == (a0 * pow(b0, e0)) % m);
            }
            assert(e1 < e0) by {
                lemma_fundamental_div_mod(e0 as int, 2);
            }
        }
    }
    proof {
        lemma_pow0(base.as_nat() as int);
        assert(acc.as_nat() * 1 == acc.as_nat());
        lemma_small_mod(acc.as_nat(), p256());
    }
    acc
}

/// Sign extension as a shift pair: pushing the kept byte to the top of the
/// word and arithmetically shifting it back replicates its top bit.
proof fn lemma_signextend_compose(k: nat, x: nat, y: nat, r: nat)
    requires
        k <= 30,
        x < p256(),
        y == (x * pow2((248 - 8 * k) as nat)) % p256(),
        r == to_rep(sval(y) / (pow2((248 - 8 * k) as nat) as int)),
    ensures
        r == signextend_spec(k, x),
{
    let s = (248 - 8 * k) as nat;
    let t = (8 * k + 7) as nat;
    let tt = pow2((t + 1) as nat);
    lemma_pow2_pos(s);
    lemma_pow2_pos(t);
    lemma_pow2_pos((t + 1) as nat);
    lemma_pow2_adds(s, (t + 1) as nat);
    lemma_pow2_adds(s, t);
    lemma_pow2_adds(1, t);
    crate::primitive_types::lemma_pow2_consts();
    assert(pow2(s) * tt == p256());
    assert(pow2(s) * pow2(t) == p255()) by {
        assert(s + t == 255);
    }
    assert(pow2(s) >= 2) by {
        lemma_pow2_adds((s - 1) as nat, 1);
        lemma_pow2_pos((s - 1) as nat);
        vstd::arithmetic::mul::lemma_mul_inequality(1, pow2((s - 1) as nat) as int, 2);
    }
    assert(tt <= p255()) by {
        vstd::arithmetic::mul::lemma_mul_inequality(2, pow2(s) as int, pow2(t) as int);
        assert(pow2(s) * pow2(t) == p255());
    }
    let a = x / tt;
    let mm = x % tt;
    lemma_fundamental_div_mod(x as int, tt as int);
    assert(x == tt * a + mm);
    // y is the kept low bytes moved to the top of the word
    assert(x * pow2(s) == p256() * a + pow2(s) * mm) by (nonlinear_arith)
        requires
            x == tt * a + mm,
            pow2(s) * tt == p256(),
    {
    }
    assert(pow2(s) * mm < p256()) by {
        lemma_mul_strict_inequality(mm as int, tt as int, pow2(s) as int);
        assert(pow2(s) * mm == mm * pow2(s)) by (nonlinear_arith);
        assert(tt * pow2(s) == pow2(s) * tt) by (nonlinear_arith);
    }
    assert(y == pow2(s) * mm) by {
        lemma_mod_multiples_vanish(a as int, (pow2(s) * mm) as int, p256() as int);
        lemma_small_mod((pow2(s) * mm) as nat, p256());
    }
    // the kept byte's top bit
    let b = mm / pow2(t);
    let mlow = mm % pow2(t);
    lemma_fundamental_div_mod(mm as int, pow2(t) as int);
    assert(b <= 1) by {
        if b >= 2 {
            vstd::arithmetic::mul::lemma_mul_inequality(2, b as int, pow2(t) as int);
            assert(pow2(t) * b == b * pow2(t)) by (nonlinear_arith);
        }
    }
    // the spec's bit is the same bit
    assert((x / pow2(t)) % 2 == b) by {
        assert(x == (2 * a + b) * pow2(t) + mlow) by (nonlinear_arith)
            requires
                x == tt * a + mm,
                mm == pow2(t) * b + mlow,
                tt == 2 * pow2(t),
        {
        }
        lemma_fundamental_div_mod_converse(
            x as int, pow2(t) as int, (2 * a + b) as int, mlow as int);
        lemma_mod_multiples_vanish(a as int, b as int, 2);
        lemma_small_mod(b, 2);
    }
    if b == 0 {
        assert(pow2(t) * b == 0) by (nonlinear_arith)
            requires b == 0
        {
        }
        assert(mm == mlow && mm < pow2(t));
        assert(y < p255()) by {
            lemma_mul_strict_inequality(mm as int, pow2(t) as int, pow2(s) as int);
            assert(pow2(s) * mm == mm * pow2(s)) by (nonlinear_arith);
            assert(pow2(t) * pow2(s) == pow2(s) * pow2(t)) by (nonlinear_arith);
        }
        assert(sval(y) == y);
        assert(sval(y) / (pow2(s) as int) == mm) by {
            lemma_div_by_multiple(mm as int, pow2(s) as int);
            assert(pow2(s) * mm == mm * pow2(s)) by (nonlinear_arith);
        }
        assert(r == to_rep(mm as int));
        assert(tt <= p256());
        lemma_small_mod(mm, p256());
    } else {
        assert(b == 1);
        assert(pow2(t) * b == pow2(t)) by (nonlinear_arith)
            requires b == 1
        {
        }
        assert(mm >= pow2(t));
        assert(y >= p255()) by {
            vstd::arithmetic::mul::lemma_mul_inequality(
                pow2(t) as int, mm as int, pow2(s) as int);
            assert(pow2(s) * mm == mm * pow2(s)) by (nonlinear_arith);
            assert(pow2(t) * pow2(s) == pow2(s) * pow2(t)) by (nonlinear_arith);
        }
        assert(sval(y) == y - p256());
        let w = mm - tt;
        assert(sval(y) == pow2(s) * w) by (nonlinear_arith)
            requires
                sval(y) == pow2(s) * mm - p256(),
                p256() == pow2(s) * tt,
                w == mm - tt,
        {
        }
        assert(sval(y) / (pow2(s) as int) == w) by {
            lemma_fundamental_div_mod_converse(sval(y), pow2(s) as int, w, 0);
            assert(pow2(s) * w == w * pow2(s)) by (nonlinear_arith);
        }
        assert(r == to_rep(w));
        lemma_mod_add_multiples_vanish(w, p256() as int);
        assert(tt <= p255());
        lemma_small_mod((w + p256()) as nat, p256());
        assert(r == mm + p256() - tt);
        assert(signextend_spec(k, x) == mlow + pow2(t) + (p256() - tt));
    }
}

/// Sign extension: replicate bit `8k+7` into all higher bits; `k >= 31`
/// leaves the word unchanged.
pub fn signextend(op1: U256, op2: U256) -> (r: U256)
    ensures
        r.as_nat() == signextend_spec(op1.as_nat(), op2.as_nat()),
{
    let t31 = U256::from_u64(31);
    if op1.lt(&t31) {
        let k = op1.w0;
        let s: u64 = 248 - 8 * k;
        let y = shl_by(op2, s as usize);
        let r = sar_by(y, s as usize);
        proof {
            lemma_signextend_compose(k as nat, op2.as_nat(), y.as_nat(), r.as_nat());
        }
        r
    } else {
        op2
    }
}

} // verus!
