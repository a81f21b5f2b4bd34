//! The algebraic guarantees of the instruction semantics, stated once and
//! proved for every input.

use vstd::prelude::*;
use crate::primitive_types::{U256, be_val, lemma_from_nat, p255, p256, sval};
use crate::arithmetic::{div_spec, rem_spec, sdiv_spec, addmod_spec, mulmod_spec,
    signextend_spec, abs_int, trunc_div};
use crate::bitwise::{byte_spec, shl_spec, shr_spec, sar_spec};
use crate::machine::{next_boundary, is_boundary, valid_jumpdest, lemma_boundary_split};
use vstd::arithmetic::div_mod::{
    lemma_small_mod, lemma_add_mod_noop, lemma_mul_mod_noop,
    lemma_div_by_self, lemma_fundamental_div_mod_converse,
};
use vstd::arithmetic::power2::pow2;

verus! {

/// Wraparound addition and multiplication are commutative and associative
/// under reduction modulo 2^256.
pub proof fn lemma_wraparound_algebra(a: nat, b: nat, c: nat)
    requires
        a < p256(),
        b < p256(),
        c < p256(),
    ensures
        (a + b) % p256() == (b + a) % p256(),
        (a * b) % p256() == (b * a) % p256(),
        (((a + b) % p256()) + c) % p256() == (a + ((b + c) % p256())) % p256(),
        ((((a * b) % p256()) * c) % p256()) == ((a * ((b * c) % p256())) % p256()),
{
    let m = p256() as int;
    assert(a * b == b * a) by (nonlinear_arith);
    lemma_add_mod_noop((a + b) as int, c as int, m);
    lemma_small_mod((a + b) as nat % p256(), p256());
    lemma_small_mod(c, p256());
    lemma_add_mod_noop(a as int, (b + c) as int, m);
    lemma_small_mod(a, p256());
    assert((a + b + c) as int % m == (a + (b + c)) as int % m);
    lemma_mul_mod_noop((a * b) as int, c as int, m);
    lemma_mul_mod_noop(a as int, (b * c) as int, m);
    assert((a * b) * c == a * (b * c)) by (nonlinear_arith);
}

/// Division and modulo treat a zero divisor as a total case: the result
/// is 0, never an error.
pub proof fn lemma_zero_divisor(a: nat, b: nat)
    ensures
        div_spec(a, 0) == 0,
        rem_spec(a, 0) == 0,
        addmod_spec(a, b, 0) == 0,
        mulmod_spec(a, b, 0) == 0,
        sdiv_spec(a, 0) == 0,
{
}

/// Signed division of the minimum representable value by minus one wraps
/// back to the minimum value instead of failing.
pub proof fn lemma_sdiv_min_by_minus_one()
    ensures
        sdiv_spec(p255(), (p256() - 1) as nat) == p255(),
{
    let a = p255();
    let b = (p256() - 1) as nat;
    assert(sval(a) == -(p255() as int));
    assert(sval(b) == -1);
    assert(abs_int(sval(a)) == p255());
    assert(abs_int(sval(b)) == 1);
    lemma_div_by_self(1);
    assert(p255() as int / 1int == p255()) by {
        lemma_fundamental_div_mod_converse(p255() as int, 1, p255() as int, 0);
    }
    assert(trunc_div(sval(a), sval(b)) == p255());
    lemma_small_mod(p255(), p256());
}

/// Sign extension from byte index 31 or above leaves the word unchanged.
pub proof fn lemma_signextend_high(k: nat, x: nat)
    requires
        k >= 31,
    ensures
        signextend_spec(k, x) == x,
{
}

/// Byte extraction past the word is zero, and index 0 names the most
/// significant byte.
pub proof fn lemma_byte_edges(i: nat, x: nat)
    ensures
        i >= 32 ==> byte_spec(i, x) == 0,
        byte_spec(0, x) == (x / pow2(248)) % 256,
{
}

/// Shifts of 256 or more clear the word, except the arithmetic right
/// shift, which leaves only the sign.
pub proof fn lemma_shift_saturation(s: nat, x: nat)
    requires
        s >= 256,
        x < p256(),
    ensures
        shl_spec(s, x) == 0,
        shr_spec(s, x) == 0,
        x < p255() ==> sar_spec(s, x) == 0,
        x >= p255() ==> sar_spec(s, x) == p256() - 1,
{
}

/// The canonical 32-byte big-endian form determines the word: decoding
/// what a word encodes gives back that word, for every representable value.
pub proof fn lemma_codec_round_trip(x: U256, s: Seq<u8>, y: U256)
    requires
        be_val(s) == x.as_nat(),
        y.as_nat() == be_val(s),
    ensures
        y == x,
{
    lemma_from_nat(x);
}

/// A byte inside a PUSH immediate is never a valid jump target, whatever
/// its value.
pub proof fn lemma_immediate_not_target(code: Seq<u8>, b: nat, q: nat)
    requires
        is_boundary(code, 0, b),
        b < code.len(),
        b < q < next_boundary(code, b),
    ensures
        !valid_jumpdest(code, q),
{
    if is_boundary(code, 0, q) {
        lemma_boundary_split(code, 0, b, q);
        assert(is_boundary(code, b, q));
        assert(is_boundary(code, next_boundary(code, b), q));
    }
}

} // verus!
