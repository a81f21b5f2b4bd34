//! 256-bit and 512-bit unsigned integers with modulo-2^N wraparound
//! arithmetic, stored as little-endian 64-bit limbs, together with the
//! canonical big-endian byte interchange format.

use vstd::prelude::*;
use vstd::arithmetic::div_mod::{
    lemma_small_mod, lemma_mod_multiples_vanish, lemma_add_mod_noop,
    lemma_mod_add_multiples_vanish, lemma_fundamental_div_mod_converse,
    lemma_fundamental_div_mod, lemma_basic_div, lemma_fundamental_div_mod_converse_mod,
    lemma_mod_multiples_basic, lemma_div_by_multiple,
};
use vstd::arithmetic::mul::{
    lemma_mul_upper_bound, lemma_mul_is_distributive_add, lemma_mul_is_associative,
    lemma_mul_strict_inequality, lemma_mul_inequality,
};
use vstd::arithmetic::power2::{pow2, lemma2_to64, lemma_pow2_adds, lemma_pow2_pos};

verus! {

/// 2^64 as a mathematical integer.
pub open spec fn p64() -> nat {
    0x1_0000_0000_0000_0000nat
}

/// 2^128 as a mathematical integer.
pub open spec fn p128() -> nat {
    0x1_0000_0000_0000_0000_0000_0000_0000_0000nat
}

/// 2^192 as a mathematical integer.
pub open spec fn p192() -> nat {
    0x1_0000_0000_0000_0000_0000_0000_0000_0000_0000_0000_0000_0000nat
}

/// 2^256 as a mathematical integer.
pub open spec fn p256() -> nat {
    0x1_0000_0000_0000_0000_0000_0000_0000_0000_0000_0000_0000_0000_0000_0000_0000_0000nat
}

/// 2^255 as a mathematical integer.
pub open spec fn p255() -> nat {
    0x8000_0000_0000_0000_0000_0000_0000_0000_0000_0000_0000_0000_0000_0000_0000_0000nat
}

/// 256-bit unsigned integer, little-endian limbs: value is
/// `w0 + w1*2^64 + w2*2^128 + w3*2^192`.
#[derive(Clone, Copy, Debug, PartialEq, Eq, Structural)]
pub struct U256 {
    pub w0: u64,
    pub w1: u64,
    pub w2: u64,
    pub w3: u64,
}

impl U256 {
    /// The mathematical value of this word, in `[0, 2^256)`.
    pub open spec fn as_nat(self) -> nat {
        (self.w0 + self.w1 * p64() + self.w2 * p128() + self.w3 * p192()) as nat
    }

    pub fn zero() -> (r: U256)
        ensures
            r.as_nat() == 0,
    {
        U256 { w0: 0, w1: 0, w2: 0, w3: 0 }
    }

    pub fn one() -> (r: U256)
        ensures
            r.as_nat() == 1,
    {
        U256 { w0: 1, w1: 0, w2: 0, w3: 0 }
    }

    pub fn from_u64(v: u64) -> (r: U256)
        ensures
            r.as_nat() == v,
    {
        U256 { w0: v, w1: 0, w2: 0, w3: 0 }
    }

    pub fn from_usize(v: usize) -> (r: U256)
        ensures
            r.as_nat() == v,
    {
        U256 { w0: v as u64, w1: 0, w2: 0, w3: 0 }
    }

    /// The value as an address-sized integer, where it fits.
    pub fn try_to_usize(&self) -> (r: Option<usize>)
        ensures
            r matches Some(v) ==> v == self.as_nat(),
            r is None ==> self.as_nat() > usize::MAX,
    {
        if self.w1 == 0 && self.w2 == 0 && self.w3 == 0 && self.w0 <= usize::MAX as u64 {
            Some(self.w0 as usize)
        } else {
            None
        }
    }

    pub fn is_zero(&self) -> (r: bool)
        ensures
            r == (self.as_nat() == 0),
    {
        self.w0 == 0 && self.w1 == 0 && self.w2 == 0 && self.w3 == 0
    }

    /// Addition discarding overflow, with an overflow flag:
    /// the wraparound sum modulo 2^256.
    pub fn overflowing_add(self, other: U256) -> (r: (U256, bool))
        ensures
            r.0.as_nat() == (self.as_nat() + other.as_nat()) % p256(),
            r.1 == (self.as_nat() + other.as_nat() >= p256()),
    {
        let s0: u128 = self.w0 as u128 + other.w0 as u128;
        let d0: u64 = (s0 % 0x1_0000_0000_0000_0000u128) as u64;
        let c0: u128 = s0 / 0x1_0000_0000_0000_0000u128;
        let s1: u128 = self.w1 as u128 + other.w1 as u128 + c0;
        let d1: u64 = (s1 % 0x1_0000_0000_0000_0000u128) as u64;
        let c1: u128 = s1 / 0x1_0000_0000_0000_0000u128;
        let s2: u128 = self.w2 as u128 + other.w2 as u128 + c1;
        let d2: u64 = (s2 % 0x1_0000_0000_0000_0000u128) as u64;
        let c2: u128 = s2 / 0x1_0000_0000_0000_0000u128;
        let s3: u128 = self.w3 as u128 + other.w3 as u128 + c2;
        let d3: u64 = (s3 % 0x1_0000_0000_0000_0000u128) as u64;
        let c3: u128 = s3 / 0x1_0000_0000_0000_0000u128;
        let r = U256 { w0: d0, w1: d1, w2: d2, w3: d3 };
        proof {
            assert(r.as_nat() + p256() * c3 == self.as_nat() + other.as_nat());
            lemma_mod_multiples_vanish(c3 as int, r.as_nat() as int, p256() as int);
            lemma_small_mod(r.as_nat(), p256());
        }
        (r, c3 != 0)
    }

    /// Multiplication discarding overflow, with an overflow flag:
    /// the wraparound product modulo 2^256.
    pub fn overflowing_mul(self, other: U256) -> (r: (U256, bool))
        ensures
            r.0.as_nat() == (self.as_nat() * other.as_nat()) % p256(),
            r.1 == (self.as_nat() * other.as_nat() >= p256()),
    {
        let p = mul_full(&self, &other);
        let lo = p.low_u256();
        let hi_zero = p.v4 == 0 && p.v5 == 0 && p.v6 == 0 && p.v7 == 0;
        proof {
            if hi_zero {
                assert(p.as_nat() < p256());
            } else {
                assert(p.as_nat() >= p256());
            }
        }
        (lo, !hi_zero)
    }

    /// Euclidean division by a nonzero word.
    pub fn div_rem(self, d: &U256) -> (qr: (U256, U256))
        requires
            d.as_nat() > 0,
        ensures
            qr.0.as_nat() == self.as_nat() / d.as_nat(),
            qr.1.as_nat() == self.as_nat() % d.as_nat(),
    {
        let (q5, r) = div_rem_wide(U512::from(self), d);
        let q = q5.low_u256();
        proof {
            vstd::arithmetic::div_mod::lemma_div_nonincreasing(
                self.as_nat() as int, d.as_nat() as int);
            lemma_small_mod(q5.as_nat(), p256());
        }
        (q, r)
    }

    /// Bitwise complement: the value is `2^256 - 1 - self`.
    pub fn not(self) -> (r: U256)
        ensures
            r.as_nat() == p256() - 1 - self.as_nat(),
            r.w0 == !self.w0 && r.w1 == !self.w1 && r.w2 == !self.w2 && r.w3 == !self.w3,
    {
        proof {
            let x0 = self.w0;
            let x1 = self.w1;
            let x2 = self.w2;
            let x3 = self.w3;
            assert(!x0 == 0xFFFF_FFFF_FFFF_FFFFu64 - x0) by (bit_vector);
            assert(!x1 == 0xFFFF_FFFF_FFFF_FFFFu64 - x1) by (bit_vector);
            assert(!x2 == 0xFFFF_FFFF_FFFF_FFFFu64 - x2) by (bit_vector);
            assert(!x3 == 0xFFFF_FFFF_FFFF_FFFFu64 - x3) by (bit_vector);
        }
        U256 { w0: !self.w0, w1: !self.w1, w2: !self.w2, w3: !self.w3 }
    }

    /// Subtraction discarding underflow, with a borrow flag:
    /// the wraparound difference modulo 2^256.
    pub fn overflowing_sub(self, other: U256) -> (r: (U256, bool))
        ensures
            r.0.as_nat() == (self.as_nat() - other.as_nat()) % (p256() as int),
            r.1 == (self.as_nat() < other.as_nat()),
    {
        let (s1, _) = self.overflowing_add(other.not());
        let (s2, _) = s1.overflowing_add(U256::one());
        let borrow = self.lt(&other);
        proof {
            let a = self.as_nat() as int;
            let b = other.as_nat() as int;
            let m = p256() as int;
            assert(s1.as_nat() == (a + (m - 1 - b)) % m);
            lemma_small_mod(1nat, p256());
            lemma_add_mod_noop(a + (m - 1 - b), 1, m);
            assert(s2.as_nat() == (a + m - b) % m);
            lemma_mod_add_multiples_vanish(a - b, m);
            assert(s2.as_nat() == (a - b) % m);
        }
        (s2, borrow)
    }

    /// Unsigned less-than on the mathematical values.
    pub fn lt(&self, other: &U256) -> (r: bool)
        ensures
            r == (self.as_nat() < other.as_nat()),
    {
        if self.w3 != other.w3 {
            self.w3 < other.w3
        } else if self.w2 != other.w2 {
            self.w2 < other.w2
        } else if self.w1 != other.w1 {
            self.w1 < other.w1
        } else {
            self.w0 < other.w0
        }
    }

    /// Unsigned greater-than on the mathematical values.
    pub fn gt(&self, other: &U256) -> (r: bool)
        ensures
            r == (self.as_nat() > other.as_nat()),
    {
        other.lt(self)
    }

    /// Bitwise and, limb by limb.
    pub fn bitand(self, other: U256) -> (r: U256)
        ensures
            r.w0 == (self.w0 & other.w0) && r.w1 == (self.w1 & other.w1)
                && r.w2 == (self.w2 & other.w2) && r.w3 == (self.w3 & other.w3),
    {
        U256 {
            w0: self.w0 & other.w0,
            w1: self.w1 & other.w1,
            w2: self.w2 & other.w2,
            w3: self.w3 & other.w3,
        }
    }

    /// Bitwise or, limb by limb.
    pub fn bitor(self, other: U256) -> (r: U256)
        ensures
            r.w0 == (self.w0 | other.w0) && r.w1 == (self.w1 | other.w1)
                && r.w2 == (self.w2 | other.w2) && r.w3 == (self.w3 | other.w3),
    {
        U256 {
            w0: self.w0 | other.w0,
            w1: self.w1 | other.w1,
            w2: self.w2 | other.w2,
            w3: self.w3 | other.w3,
        }
    }

    /// Bitwise exclusive or, limb by limb.
    pub fn bitxor(self, other: U256) -> (r: U256)
        ensures
            r.w0 == (self.w0 ^ other.w0) && r.w1 == (self.w1 ^ other.w1)
                && r.w2 == (self.w2 ^ other.w2) && r.w3 == (self.w3 ^ other.w3),
    {
        U256 {
            w0: self.w0 ^ other.w0,
            w1: self.w1 ^ other.w1,
            w2: self.w2 ^ other.w2,
            w3: self.w3 ^ other.w3,
        }
    }

    /// The most significant bit: `value / 2^255`, either 0 or 1.
    pub fn top_bit(&self) -> (r: u64)
        ensures
            r == self.as_nat() / p255(),
            r == 0 || r == 1,
    {
        let t = self.w3 >> 63;
        proof {
            let x3 = self.w3;
            assert(x3 >> 63 == x3 / 0x8000_0000_0000_0000u64) by (bit_vector);
            let low = (self.w0 + self.w1 * p64() + self.w2 * p128()) as int;
            let q = x3 / 0x8000_0000_0000_0000;
            let rr = x3 % 0x8000_0000_0000_0000;
            assert(self.as_nat() == (p255() * q + (low + rr * p192())) as nat);
            assert(low + rr * p192() < p255());
            lemma_fundamental_div_mod_converse(
                self.as_nat() as int, p255() as int, q as int, low + rr * p192());
        }
        t
    }

    /// Shift left by one and set the low bit to `bit`:
    /// the value becomes `(2*self + bit) mod 2^256`.
    pub fn shl1_or(self, bit: u64) -> (r: U256)
        requires
            bit <= 1,
        ensures
            r.as_nat() == (2 * self.as_nat() + bit) % (p256() as int),
    {
        let x0 = self.w0;
        let x1 = self.w1;
        let x2 = self.w2;
        let x3 = self.w3;
        let d0: u64 = (x0 << 1u64) | bit;
        let d1: u64 = (x1 << 1u64) | (x0 >> 63u64);
        let d2: u64 = (x2 << 1u64) | (x1 >> 63u64);
        let d3: u64 = (x3 << 1u64) | (x2 >> 63u64);
        let r = U256 { w0: d0, w1: d1, w2: d2, w3: d3 };
        proof {
            let b = bit;
            assert(b <= 1 ==> (x0 << 1u64) | b == 2 * (x0 % 0x8000_0000_0000_0000u64) + b)
                by (bit_vector);
            assert((x1 << 1u64) | (x0 >> 63u64)
                == 2 * (x1 % 0x8000_0000_0000_0000u64) + x0 / 0x8000_0000_0000_0000u64)
                by (bit_vector);
            assert((x2 << 1u64) | (x1 >> 63u64)
                == 2 * (x2 % 0x8000_0000_0000_0000u64) + x1 / 0x8000_0000_0000_0000u64)
                by (bit_vector);
            assert((x3 << 1u64) | (x2 >> 63u64)
                == 2 * (x3 % 0x8000_0000_0000_0000u64) + x2 / 0x8000_0000_0000_0000u64)
                by (bit_vector);
            let t = x3 / 0x8000_0000_0000_0000;
            assert(r.as_nat() + p256() * t == 2 * self.as_nat() + bit);
            lemma_mod_multiples_vanish(t as int, r.as_nat() as int, p256() as int);
            lemma_small_mod(r.as_nat(), p256());
        }
        r
    }

    /// Shift right by one: the value becomes `self / 2`.
    pub fn shr1(self) -> (r: U256)
        ensures
            r.as_nat() == self.as_nat() / 2,
    {
        let x0 = self.w0;
        let x1 = self.w1;
        let x2 = self.w2;
        let x3 = self.w3;
        let d0: u64 = (x0 >> 1u64) | (x1 << 63u64);
        let d1: u64 = (x1 >> 1u64) | (x2 << 63u64);
        let d2: u64 = (x2 >> 1u64) | (x3 << 63u64);
        let d3: u64 = x3 >> 1u64;
        let r = U256 { w0: d0, w1: d1, w2: d2, w3: d3 };
        proof {
            assert((x0 >> 1u64) | (x1 << 63u64)
                == x0 / 2 + (x1 % 2) * 0x8000_0000_0000_0000u64) by (bit_vector);
            assert((x1 >> 1u64) | (x2 << 63u64)
                == x1 / 2 + (x2 % 2) * 0x8000_0000_0000_0000u64) by (bit_vector);
            assert((x2 >> 1u64) | (x3 << 63u64)
                == x2 / 2 + (x3 % 2) * 0x8000_0000_0000_0000u64) by (bit_vector);
            assert(x3 >> 1u64 == x3 / 2) by (bit_vector);
            assert(self.as_nat() == 2 * r.as_nat() + x0 % 2);
            lemma_fundamental_div_mod_converse(
                self.as_nat() as int, 2, r.as_nat() as int, (x0 % 2) as int);
        }
        r
    }

    /// Arithmetic shift right by one: `self / 2` with the top bit kept.
    pub fn sar1(self) -> (r: U256)
        ensures
            r.as_nat() == self.as_nat() / 2 + (self.as_nat() / p255()) * p255(),
    {
        let t = self.top_bit();
        let s = self.shr1();
        if t == 1 {
            let r = U256 { w0: s.w0, w1: s.w1, w2: s.w2, w3: s.w3 | 0x8000_0000_0000_0000u64 };
            proof {
                let y3 = s.w3;
                assert(s.as_nat() < p255());
                assert(y3 < 0x8000_0000_0000_0000u64);
                assert(y3 < 0x8000_0000_0000_0000u64
                    ==> (y3 | 0x8000_0000_0000_0000u64) == y3 + 0x8000_0000_0000_0000u64)
                    by (bit_vector);
                assert(r.as_nat() == s.as_nat() + 0x8000_0000_0000_0000 * p192());
            }
            r
        } else {
            s
        }
    }
}

/// The value of a big-endian byte string: the first byte is the most
/// significant.
pub open spec fn be_val(s: Seq<u8>) -> nat
    decreases s.len(),
{
    if s.len() == 0 {
        0
    } else {
        (be_val(s.drop_last()) * 256 + s.last()) as nat
    }
}

/// A big-endian byte string of length n has a value below 2^(8n).
pub proof fn lemma_be_val_bound(s: Seq<u8>)
    ensures
        be_val(s) < pow2((8 * s.len()) as nat),
    decreases s.len(),
{
    if s.len() == 0 {
        lemma2_to64();
    } else {
        lemma_be_val_bound(s.drop_last());
        lemma_pow2_adds((8 * (s.len() - 1)) as nat, 8);
        lemma2_to64();
        let h = be_val(s.drop_last());
        let p = pow2((8 * (s.len() - 1)) as nat);
        assert(h * 256 + 255 < p * 256) by (nonlinear_arith)
            requires h < p
        {
        }
    }
}

/// One limb appended to a big-endian byte string as eight bytes.
fn push_limb_be(v: &mut Vec<u8>, limb: u64)
    ensures
        final(v)@.len() == old(v)@.len() + 8,
        be_val(final(v)@) == be_val(old(v)@) * p64() + limb,
{
    let ghost base = v@;
    let l = limb;
    proof {
        assert(((l >> 56u64) & 0xFFu64) * 0x100_0000_0000_0000u64
            + ((l >> 48u64) & 0xFFu64) * 0x1_0000_0000_0000u64
            + ((l >> 40u64) & 0xFFu64) * 0x100_0000_0000u64
            + ((l >> 32u64) & 0xFFu64) * 0x1_0000_0000u64
            + ((l >> 24u64) & 0xFFu64) * 0x100_0000u64
            + ((l >> 16u64) & 0xFFu64) * 0x1_0000u64
            + ((l >> 8u64) & 0xFFu64) * 0x100u64
            + (l & 0xFFu64) == l) by (bit_vector);
        assert((l >> 56u64) & 0xFFu64 <= 0xFF) by (bit_vector);
        assert((l >> 48u64) & 0xFFu64 <= 0xFF) by (bit_vector);
        assert((l >> 40u64) & 0xFFu64 <= 0xFF) by (bit_vector);
        assert((l >> 32u64) & 0xFFu64 <= 0xFF) by (bit_vector);
        assert((l >> 24u64) & 0xFFu64 <= 0xFF) by (bit_vector);
        assert((l >> 16u64) & 0xFFu64 <= 0xFF) by (bit_vector);
        assert((l >> 8u64) & 0xFFu64 <= 0xFF) by (bit_vector);
        assert(l & 0xFFu64 <= 0xFF) by (bit_vector);
    }
    v.push(((l >> 56u64) & 0xFFu64) as u8);
    v.push(((l >> 48u64) & 0xFFu64) as u8);
    v.push(((l >> 40u64) & 0xFFu64) as u8);
    v.push(((l >> 32u64) & 0xFFu64) as u8);
    v.push(((l >> 24u64) & 0xFFu64) as u8);
    v.push(((l >> 16u64) & 0xFFu64) as u8);
    v.push(((l >> 8u64) & 0xFFu64) as u8);
    v.push((l & 0xFFu64) as u8);
    proof {
        let b0 = ((l >> 56u64) & 0xFFu64) as u8;
        let b1 = ((l >> 48u64) & 0xFFu64) as u8;
        let b2 = ((l >> 40u64) & 0xFFu64) as u8;
        let b3 = ((l >> 32u64) & 0xFFu64) as u8;
        let b4 = ((l >> 24u64) & 0xFFu64) as u8;
        let b5 = ((l >> 16u64) & 0xFFu64) as u8;
        let b6 = ((l >> 8u64) & 0xFFu64) as u8;
        let b7 = (l & 0xFFu64) as u8;
        let s1 = base.push(b0);
        let s2 = s1.push(b1);
        let s3 = s2.push(b2);
        let s4 = s3.push(b3);
        let s5 = s4.push(b4);
        let s6 = s5.push(b5);
        let s7 = s6.push(b6);
        let s8 = s7.push(b7);
        assert(v@ == s8);
        assert(s1.drop_last() =~= base);
        assert(s2.drop_last() =~= s1);
        assert(s3.drop_last() =~= s2);
        assert(s4.drop_last() =~= s3);
        assert(s5.drop_last() =~= s4);
        assert(s6.drop_last() =~= s5);
        assert(s7.drop_last() =~= s6);
        assert(s8.drop_last() =~= s7);
        assert(be_val(s1) == be_val(base) * 256 + b0);
        assert(be_val(s2) == be_val(s1) * 256 + b1);
        assert(be_val(s3) == be_val(s2) * 256 + b2);
        assert(be_val(s4) == be_val(s3) * 256 + b3);
        assert(be_val(s5) == be_val(s4) * 256 + b4);
        assert(be_val(s6) == be_val(s5) * 256 + b5);
        assert(be_val(s7) == be_val(s6) * 256 + b6);
        assert(be_val(s8) == be_val(s7) * 256 + b7);
        assert(b0 * 0x100_0000_0000_0000 + b1 * 0x1_0000_0000_0000 + b2 * 0x100_0000_0000
            + b3 * 0x1_0000_0000 + b4 * 0x100_0000 + b5 * 0x1_0000 + b6 * 0x100 + b7 == l);
        assert(be_val(s8) == be_val(base) * p64() + l);
    }
}

impl U256 {
    /// The canonical 32-byte big-endian interchange form of this word.
    pub fn to_big_endian(&self) -> (r: Vec<u8>)
        ensures
            r@.len() == 32,
            be_val(r@) == self.as_nat(),
    {
        let mut v: Vec<u8> = Vec::new();
        push_limb_be(&mut v, self.w3);
        push_limb_be(&mut v, self.w2);
        push_limb_be(&mut v, self.w1);
        push_limb_be(&mut v, self.w0);
        v
    }

    /// Write the canonical 32-byte big-endian form into the start of a
    /// buffer of at least 32 bytes, leaving the rest of the buffer alone.
    pub fn into_big_endian_fast(self, buffer: &mut Vec<u8>)
        requires
            old(buffer)@.len() >= 32,
        ensures
            final(buffer)@.len() == old(buffer)@.len(),
            be_val(final(buffer)@.subrange(0, 32)) == self.as_nat(),
            final(buffer)@.skip(32) == old(buffer)@.skip(32),
    {
        let bytes = self.to_big_endian();
        let mut i: usize = 0;
        while i < 32
            invariant
                i <= 32,
                bytes@.len() == 32,
                be_val(bytes@) == self.as_nat(),
                buffer@.len() == old(buffer)@.len(),
                old(buffer)@.len() >= 32,
                buffer@.subrange(0, i as int) == bytes@.subrange(0, i as int),
                buffer@.skip(32) == old(buffer)@.skip(32),
            decreases 32 - i,
        {
            let b = bytes[i];
            buffer.set(i, b);
            i = i + 1;
            proof {
                assert(buffer@.subrange(0, i as int) =~= bytes@.subrange(0, i as int));
                assert(buffer@.skip(32) =~= old(buffer)@.skip(32));
            }
        }
        proof {
            assert(buffer@.subrange(0, 32) =~= bytes@);
        }
    }

    /// Read a word from up to 32 big-endian bytes.
    pub fn from_big_endian_fast(buffer: &[u8]) -> (r: U256)
        requires
            buffer@.len() <= 32,
        ensures
            r.as_nat() == be_val(buffer@),
    {
        let n = buffer.len();
        let mut cur = U256::zero();
        let mut i: usize = 0;
        proof {
            assert(buffer@.take(0) =~= Seq::<u8>::empty());
            lemma_pow2_consts();
        }
        while i < n
            invariant
                i <= n,
                n == buffer@.len() <= 32,
                cur.as_nat() == be_val(buffer@.take(i as int)),
                cur.as_nat() < pow2((8 * i) as nat),
            decreases n - i,
        {
            let ghost pre = buffer@.take(i as int);
            let b = buffer[i];
            let (shifted, _) = cur.overflowing_mul(U256::from_u64(256));
            let (next, _) = shifted.overflowing_add(U256::from_u64(b as u64));
            proof {
                lemma_pow2_consts();
                lemma_pow2_adds((8 * i) as nat, 8);
                lemma2_to64();
                assert(pow2((8 * (i + 1)) as nat) <= p256()) by {
                    lemma_pow2_adds((8 * (i + 1)) as nat, (256 - 8 * (i + 1)) as nat);
                    lemma_pow2_pos((256 - 8 * (i + 1)) as nat);
                    lemma_mul_inequality(
                        1,
                        pow2((256 - 8 * (i + 1)) as nat) as int,
                        pow2((8 * (i + 1)) as nat) as int);
                }
                assert(cur.as_nat() * 256 + b < pow2((8 * (i + 1)) as nat)) by (nonlinear_arith)
                    requires
                        cur.as_nat() < pow2((8 * i) as nat),
                        b < 256,
                        pow2((8 * (i + 1)) as nat) == pow2((8 * i) as nat) * 256,
                {
                }
                lemma_small_mod((cur.as_nat() * 256) as nat, p256());
                lemma_small_mod((cur.as_nat() * 256 + b) as nat, p256());
                assert(next.as_nat() == cur.as_nat() * 256 + b);
                assert(buffer@.take((i + 1) as int).drop_last() =~= pre);
                assert(buffer@.take((i + 1) as int).last() == b);
            }
            cur = next;
            i = i + 1;
        }
        proof {
            assert(buffer@.take(n as int) =~= buffer@);
        }
        cur
    }
}

/// The two's-complement signed reading of a 256-bit representative:
/// an integer in `[-2^255, 2^255)`.
pub open spec fn sval(a: nat) -> int {
    if a >= p255() {
        a - p256()
    } else {
        a as int
    }
}

/// The 256-bit two's-complement representative of an integer.
pub open spec fn to_rep(v: int) -> nat {
    (v % (p256() as int)) as nat
}

/// The unique word with the given mathematical value below 2^256.
pub open spec fn from_nat(x: nat) -> U256 {
    U256 {
        w0: (x % p64()) as u64,
        w1: ((x / p64()) % p64()) as u64,
        w2: ((x / p128()) % p64()) as u64,
        w3: ((x / p192()) % p64()) as u64,
    }
}

/// Two words with the same mathematical value have the same limbs, and
/// `from_nat` is the inverse of `as_nat`.
pub proof fn lemma_from_nat(a: U256)
    ensures
        from_nat(a.as_nat()) == a,
        forall|b: U256| a.as_nat() == b.as_nat() ==> a == b,
{
    lemma_limbs_determined(a);
    assert forall|b: U256| a.as_nat() == b.as_nat() implies a == b by {
        lemma_limbs_determined(b);
    }
}

proof fn lemma_limbs_determined(a: U256)
    ensures
        a.as_nat() % p64() == a.w0,
        (a.as_nat() / p64()) % p64() == a.w1,
        (a.as_nat() / p128()) % p64() == a.w2,
        (a.as_nat() / p192()) % p64() == a.w3,
        from_nat(a.as_nat()) == a,
{
    let x = a.as_nat() as int;
    let r1 = (a.w1 + a.w2 * p64() + a.w3 * p128()) as int;
    lemma_fundamental_div_mod_converse(x, p64() as int, r1, a.w0 as int);
    let r2 = (a.w2 + a.w3 * p64()) as int;
    lemma_fundamental_div_mod_converse(x, p128() as int, r2, (a.w0 + a.w1 * p64()) as int);
    lemma_fundamental_div_mod_converse(
        x, p192() as int, a.w3 as int, (a.w0 + a.w1 * p64() + a.w2 * p128()) as int);
    lemma_fundamental_div_mod_converse(r1, p64() as int, r2, a.w1 as int);
    lemma_fundamental_div_mod_converse(r2, p64() as int, a.w3 as int, a.w2 as int);
    lemma_small_mod(a.w0 as nat, p64());
}

/// 2^320 as a mathematical integer.
pub open spec fn p320() -> nat {
    0x1_0000_0000_0000_0000_0000_0000_0000_0000_0000_0000_0000_0000_0000_0000_0000_0000_0000_0000_0000_0000nat
}

/// 2^384 as a mathematical integer.
pub open spec fn p384() -> nat {
    0x1_0000_0000_0000_0000_0000_0000_0000_0000_0000_0000_0000_0000_0000_0000_0000_0000_0000_0000_0000_0000_0000_0000_0000_0000nat
}

/// 2^448 as a mathematical integer.
pub open spec fn p448() -> nat {
    0x1_0000_0000_0000_0000_0000_0000_0000_0000_0000_0000_0000_0000_0000_0000_0000_0000_0000_0000_0000_0000_0000_0000_0000_0000_0000_0000_0000_0000nat
}

/// 2^512 as a mathematical integer.
pub open spec fn p512() -> nat {
    0x1_0000_0000_0000_0000_0000_0000_0000_0000_0000_0000_0000_0000_0000_0000_0000_0000_0000_0000_0000_0000_0000_0000_0000_0000_0000_0000_0000_0000_0000_0000_0000_0000nat
}

/// 2^511 as a mathematical integer.
pub open spec fn p511() -> nat {
    0x8000_0000_0000_0000_0000_0000_0000_0000_0000_0000_0000_0000_0000_0000_0000_0000_0000_0000_0000_0000_0000_0000_0000_0000_0000_0000_0000_0000_0000_0000_0000_0000nat
}

/// Concrete values for the powers of two that the 512-bit proofs use.
pub proof fn lemma_pow2_consts()
    ensures
        pow2(0) == 1,
        pow2(1) == 2,
        pow2(64) == p64(),
        pow2(128) == p128(),
        pow2(192) == p192(),
        pow2(255) == p255(),
        pow2(256) == p256(),
        pow2(511) == p511(),
        pow2(512) == p512(),
{
    lemma2_to64();
    vstd::arithmetic::power2::lemma2_to64_rest();
    lemma_pow2_adds(64, 64);
    lemma_pow2_adds(128, 64);
    lemma_pow2_adds(192, 63);
    lemma_pow2_adds(192, 64);
    lemma_pow2_adds(256, 255);
    lemma_pow2_adds(256, 256);
    assert(p256() * p255() == p511()) by (nonlinear_arith);
    assert(p256() * p256() == p512()) by (nonlinear_arith);
}

/// 512-bit unsigned integer, little-endian limbs.
#[derive(Clone, Copy, Debug, PartialEq, Eq, Structural)]
pub struct U512 {
    pub v0: u64,
    pub v1: u64,
    pub v2: u64,
    pub v3: u64,
    pub v4: u64,
    pub v5: u64,
    pub v6: u64,
    pub v7: u64,
}

/// Error type for conversion.
#[derive(Debug, PartialEq, Eq, Structural)]
pub enum Error {
    /// Overflow encountered.
    Overflow,
}

impl U512 {
    /// The mathematical value of this word, in `[0, 2^512)`.
    pub open spec fn as_nat(self) -> nat {
        (self.v0 + self.v1 * p64() + self.v2 * p128() + self.v3 * p192() + self.v4 * p256()
            + self.v5 * p320() + self.v6 * p384() + self.v7 * p448()) as nat
    }

    pub fn zero() -> (r: U512)
        ensures
            r.as_nat() == 0,
    {
        U512 { v0: 0, v1: 0, v2: 0, v3: 0, v4: 0, v5: 0, v6: 0, v7: 0 }
    }

    /// The most significant bit: `value / 2^511`, either 0 or 1.
    pub fn top_bit(&self) -> (r: u64)
        ensures
            r == self.as_nat() / p511(),
            r <= 1,
    {
        let t = self.v7 >> 63u64;
        proof {
            let x7 = self.v7;
            assert(x7 >> 63u64 == x7 / 0x8000_0000_0000_0000u64) by (bit_vector);
            let q = x7 / 0x8000_0000_0000_0000;
            let rr = x7 % 0x8000_0000_0000_0000;
            let low = self.as_nat() - self.v7 * p448();
            assert(self.as_nat() == p511() * q + (low + rr * p448()));
            assert(low + rr * p448() < p511());
            lemma_fundamental_div_mod_converse(
                self.as_nat() as int, p511() as int, q as int, low + rr * p448());
        }
        t
    }

    /// Shift left by one and set the low bit to `bit`:
    /// the value becomes `(2*self + bit) mod 2^512`.
    pub fn shl1_or(self, bit: u64) -> (r: U512)
        requires
            bit <= 1,
        ensures
            r.as_nat() == (2 * self.as_nat() + bit) % (p512() as int),
    {
        let d0 = shl1_limb(self.v0, bit);
        let d1 = shl1_limb(self.v1, hi_bit(self.v0));
        let d2 = shl1_limb(self.v2, hi_bit(self.v1));
        let d3 = shl1_limb(self.v3, hi_bit(self.v2));
        let d4 = shl1_limb(self.v4, hi_bit(self.v3));
        let d5 = shl1_limb(self.v5, hi_bit(self.v4));
        let d6 = shl1_limb(self.v6, hi_bit(self.v5));
        let d7 = shl1_limb(self.v7, hi_bit(self.v6));
        let r = U512 { v0: d0, v1: d1, v2: d2, v3: d3, v4: d4, v5: d5, v6: d6, v7: d7 };
        proof {
            let t = self.v7 / 0x8000_0000_0000_0000;
            assert(r.as_nat() + p512() * t == 2 * self.as_nat() + bit);
            lemma_mod_multiples_vanish(t as int, r.as_nat() as int, p512() as int);
            lemma_small_mod(r.as_nat(), p512());
        }
        r
    }

    /// The low 256 bits as a word.
    pub fn low_u256(&self) -> (r: U256)
        ensures
            r.as_nat() == self.as_nat() % p256(),
    {
        let r = U256 { w0: self.v0, w1: self.v1, w2: self.v2, w3: self.v3 };
        proof {
            let hi = (self.v4 + self.v5 * p64() + self.v6 * p128() + self.v7 * p192()) as int;
            assert(self.as_nat() == p256() * hi + r.as_nat());
            lemma_mod_multiples_vanish(hi, r.as_nat() as int, p256() as int);
            lemma_small_mod(r.as_nat(), p256());
        }
        r
    }

}

impl U256 {
    /// Narrowing conversion: succeeds exactly when the value fits in 256 bits.
    pub fn try_from(value: U512) -> (r: Result<U256, Error>)
        ensures
            value.as_nat() < p256() ==> r is Ok,
            value.as_nat() >= p256() ==> r == Result::<U256, Error>::Err(Error::Overflow),
            r matches Ok(w) ==> w.as_nat() == value.as_nat(),
    {
        if value.v4 | value.v5 | value.v6 | value.v7 != 0 {
            proof {
                let (a, b, c, d) = (value.v4, value.v5, value.v6, value.v7);
                assert(a | b | c | d != 0 ==> !(a == 0 && b == 0 && c == 0 && d == 0))
                    by (bit_vector);
            }
            return Err(Error::Overflow);
        }
        proof {
            let (a, b, c, d) = (value.v4, value.v5, value.v6, value.v7);
            assert(a | b | c | d == 0 ==> a == 0 && b == 0 && c == 0 && d == 0)
                by (bit_vector);
            assert(value.as_nat() == value.v0 + value.v1 * p64() + value.v2 * p128()
                + value.v3 * p192());
            assert(value.as_nat() < p256());
        }
        Ok(U256 { w0: value.v0, w1: value.v1, w2: value.v2, w3: value.v3 })
    }
}

impl From<U256> for U512 {
    /// Widening conversion: the value is unchanged.
    fn from(value: U256) -> (r: U512)
        ensures
            r.as_nat() == value.as_nat(),
    {
        U512 {
            v0: value.w0,
            v1: value.w1,
            v2: value.w2,
            v3: value.w3,
            v4: 0,
            v5: 0,
            v6: 0,
            v7: 0,
        }
    }
}

impl vstd::std_specs::convert::FromSpecImpl<U256> for U512 {
    open spec fn obeys_from_spec() -> bool {
        true
    }

    open spec fn from_spec(value: U256) -> U512 {
        U512 {
            v0: value.w0,
            v1: value.w1,
            v2: value.w2,
            v3: value.w3,
            v4: 0,
            v5: 0,
            v6: 0,
            v7: 0,
        }
    }
}

/// One limb shifted left by one bit, with `carry` as the new low bit.
fn shl1_limb(x: u64, carry: u64) -> (r: u64)
    requires
        carry <= 1,
    ensures
        r == 2 * (x % 0x8000_0000_0000_0000) + carry,
{
    proof {
        let c = carry;
        assert(c <= 1 ==> ((x << 1u64) | c) == 2 * (x % 0x8000_0000_0000_0000u64) + c)
            by (bit_vector);
    }
    (x << 1u64) | carry
}

/// The top bit of one limb.
fn hi_bit(x: u64) -> (r: u64)
    ensures
        r == x / 0x8000_0000_0000_0000,
        r <= 1,
{
    proof {
        assert(x >> 63u64 == x / 0x8000_0000_0000_0000u64) by (bit_vector);
    }
    x >> 63u64
}

/// Product of two limbs, exactly, in 128 bits.
fn mul64(x: u64, y: u64) -> (r: u128)
    ensures
        r == x * y,
        r <= 0xFFFF_FFFF_FFFF_FFFE_0000_0000_0000_0001u128,
{
    proof {
        lemma_mul_upper_bound(
            x as int, 0xFFFF_FFFF_FFFF_FFFF, y as int, 0xFFFF_FFFF_FFFF_FFFF);
    }
    (x as u128) * (y as u128)
}

/// One limb times a word: a 320-bit product as five limbs.
fn mul_limb(a: u64, b: &U256) -> (r: (u64, u64, u64, u64, u64))
    ensures
        r.0 + r.1 * p64() + r.2 * p128() + r.3 * p192() + r.4 * p256() == a * b.as_nat(),
{
    let p0 = mul64(a, b.w0);
    let l0: u64 = (p0 % 0x1_0000_0000_0000_0000u128) as u64;
    let c0: u128 = p0 / 0x1_0000_0000_0000_0000u128;
    let p1 = mul64(a, b.w1);
    let s1 = p1 + c0;
    let l1: u64 = (s1 % 0x1_0000_0000_0000_0000u128) as u64;
    let c1: u128 = s1 / 0x1_0000_0000_0000_0000u128;
    let p2 = mul64(a, b.w2);
    let s2 = p2 + c1;
    let l2: u64 = (s2 % 0x1_0000_0000_0000_0000u128) as u64;
    let c2: u128 = s2 / 0x1_0000_0000_0000_0000u128;
    let p3 = mul64(a, b.w3);
    let s3 = p3 + c2;
    let l3: u64 = (s3 % 0x1_0000_0000_0000_0000u128) as u64;
    let c3: u128 = s3 / 0x1_0000_0000_0000_0000u128;
    let l4: u64 = c3 as u64;
    proof {
        lemma_mul_is_distributive_add(
            a as int,
            b.w0 as int,
            b.w1 * p64() + b.w2 * p128() + b.w3 * p192());
        lemma_mul_is_distributive_add(
            a as int,
            b.w1 * p64() as int,
            b.w2 * p128() + b.w3 * p192());
        lemma_mul_is_distributive_add(a as int, b.w2 * p128() as int, b.w3 * p192() as int);
        lemma_mul_is_associative(a as int, b.w1 as int, p64() as int);
        lemma_mul_is_associative(a as int, b.w2 as int, p128() as int);
        lemma_mul_is_associative(a as int, b.w3 as int, p192() as int);
        assert(a * b.as_nat() == a * b.w0 + (a * b.w1) * p64() + (a * b.w2) * p128()
            + (a * b.w3) * p192());
    }
    (l0, l1, l2, l3, l4)
}

/// Full 256x256 -> 512 bit product, exactly.
#[verifier::rlimit(100)]
pub fn mul_full(a: &U256, b: &U256) -> (r: U512)
    ensures
        r.as_nat() == a.as_nat() * b.as_nat(),
{
    let (x0, x1, x2, x3, x4) = mul_limb(a.w0, b);
    let (y0, y1, y2, y3, y4) = mul_limb(a.w1, b);
    let (z0, z1, z2, z3, z4) = mul_limb(a.w2, b);
    let (t0, t1, t2, t3, t4) = mul_limb(a.w3, b);
    let col1: u128 = x1 as u128 + y0 as u128;
    let d1: u64 = (col1 % 0x1_0000_0000_0000_0000u128) as u64;
    let k1: u128 = col1 / 0x1_0000_0000_0000_0000u128;
    let col2: u128 = x2 as u128 + y1 as u128 + z0 as u128 + k1;
    let d2: u64 = (col2 % 0x1_0000_0000_0000_0000u128) as u64;
    let k2: u128 = col2 / 0x1_0000_0000_0000_0000u128;
    let col3: u128 = x3 as u128 + y2 as u128 + z1 as u128 + t0 as u128 + k2;
    let d3: u64 = (col3 % 0x1_0000_0000_0000_0000u128) as u64;
    let k3: u128 = col3 / 0x1_0000_0000_0000_0000u128;
    let col4: u128 = x4 as u128 + y3 as u128 + z2 as u128 + t1 as u128 + k3;
    let d4: u64 = (col4 % 0x1_0000_0000_0000_0000u128) as u64;
    let k4: u128 = col4 / 0x1_0000_0000_0000_0000u128;
    let col5: u128 = y4 as u128 + z3 as u128 + t2 as u128 + k4;
    let d5: u64 = (col5 % 0x1_0000_0000_0000_0000u128) as u64;
    let k5: u128 = col5 / 0x1_0000_0000_0000_0000u128;
    let col6: u128 = z4 as u128 + t3 as u128 + k5;
    let d6: u64 = (col6 % 0x1_0000_0000_0000_0000u128) as u64;
    let k6: u128 = col6 / 0x1_0000_0000_0000_0000u128;
    let col7: u128 = t4 as u128 + k6;
    let d7: u64 = (col7 % 0x1_0000_0000_0000_0000u128) as u64;
    let k7: u128 = col7 / 0x1_0000_0000_0000_0000u128;
    let r = U512 { v0: x0, v1: d1, v2: d2, v3: d3, v4: d4, v5: d5, v6: d6, v7: d7 };
    proof {
        let an = a.as_nat() as int;
        let bn = b.as_nat() as int;
        lemma_mul_is_distributive_add(
            bn, a.w0 as int, a.w1 * p64() + a.w2 * p128() + a.w3 * p192());
        lemma_mul_is_distributive_add(bn, a.w1 * p64() as int, a.w2 * p128() + a.w3 * p192());
        lemma_mul_is_distributive_add(bn, a.w2 * p128() as int, a.w3 * p192() as int);
        assert(an * bn == (a.w0 * bn) + (a.w1 * bn) * p64() + (a.w2 * bn) * p128()
            + (a.w3 * bn) * p192()) by {
            assert(bn * an == bn * a.w0 + bn * (a.w1 * p64()) + bn * (a.w2 * p128())
                + bn * (a.w3 * p192()));
            assert(bn * (a.w1 * p64()) == (a.w1 * bn) * p64()) by (nonlinear_arith);
            assert(bn * (a.w2 * p128()) == (a.w2 * bn) * p128()) by (nonlinear_arith);
            assert(bn * (a.w3 * p192()) == (a.w3 * bn) * p192()) by (nonlinear_arith);
        }
        let r1: int = a.w1 * bn;
        let r2: int = a.w2 * bn;
        let r3: int = a.w3 * bn;
        assert(r1 * p64() == y0 * p64() + y1 * p128() + y2 * p192() + y3 * p256()
            + y4 * p320()) by (nonlinear_arith)
            requires r1 == y0 + y1 * p64() + y2 * p128() + y3 * p192() + y4 * p256()
        {
        }
        assert(r2 * p128() == z0 * p128() + z1 * p192() + z2 * p256() + z3 * p320()
            + z4 * p384()) by (nonlinear_arith)
            requires r2 == z0 + z1 * p64() + z2 * p128() + z3 * p192() + z4 * p256()
        {
        }
        assert(r3 * p192() == t0 * p192() + t1 * p256() + t2 * p320() + t3 * p384()
            + t4 * p448()) by (nonlinear_arith)
            requires r3 == t0 + t1 * p64() + t2 * p128() + t3 * p192() + t4 * p256()
        {
        }
        assert(an * bn == x0 + (x1 + y0) * p64() + (x2 + y1 + z0) * p128()
            + (x3 + y2 + z1 + t0) * p192() + (x4 + y3 + z2 + t1) * p256()
            + (y4 + z3 + t2) * p320() + (z4 + t3) * p384() + t4 * p448());
        assert(r.as_nat() + p512() * k7 == an * bn);
        lemma_mul_upper_bound(an, p256() - 1, bn, p256() - 1);
        assert(k7 == 0);
    }
    r
}

/// One round of binary long division: shifting the dividend register left by
/// one bit moves its top bit into the running head `h` of the division.
proof fn lemma_div_shift_step(x0: nat, k: nat, xo: nat, xn: nat, b: nat, h: nat)
    requires
        k < 512,
        xo < p512(),
        xo % pow2(k) == 0,
        b == xo / p511(),
        xn as int == (2 * xo as int) % (p512() as int),
        x0 == h * pow2((512 - k) as nat) + xo / pow2(k),
    ensures
        b <= 1,
        xn < p512(),
        xn % pow2((k + 1) as nat) == 0,
        x0 == (2 * h + b) * pow2((511 - k) as nat) + xn / pow2((k + 1) as nat),
{
    lemma_pow2_consts();
    lemma_fundamental_div_mod(xo as int, p511() as int);
    let m = xo % p511();
    assert(xo == p511() * b + m);
    assert(b <= 1) by {
        if b >= 2 {
            lemma_mul_inequality(2, b as int, p511() as int);
        }
    }
    assert(xn == 2 * xo - p512() * b) by {
        lemma_fundamental_div_mod_converse_mod(
            2 * xo as int, p512() as int, b as int, 2 * xo - p512() * b);
    }
    let pk = pow2(k);
    let pq = pow2((511 - k) as nat);
    lemma_pow2_pos(k);
    lemma_pow2_pos((511 - k) as nat);
    lemma_pow2_pos((k + 1) as nat);
    lemma_pow2_adds(1, k);
    lemma_pow2_adds((k + 1) as nat, (511 - k) as nat);
    lemma_pow2_adds(k, (511 - k) as nat);
    lemma_pow2_adds(1, (511 - k) as nat);
    assert(pow2((k + 1) as nat) == 2 * pk);
    assert(p512() == 2 * pk * pq) by {
        assert(pow2((k + 1) as nat) * pq == p512());
    }
    assert(p511() == pk * pq);
    let u = xo / pk;
    lemma_fundamental_div_mod(xo as int, pk as int);
    assert(xo == pk * u);
    assert(b == 1 ==> u >= pq) by {
        if b == 1 && u < pq {
            lemma_mul_strict_inequality(u as int, pq as int, pk as int);
            assert(xo == u * pk) by (nonlinear_arith)
                requires xo == pk * u
            {
            }
            assert(xo < pq * pk);
            assert(pk * pq == pq * pk) by (nonlinear_arith);
            assert(xo < p511());
        }
    }
    let w = u - pq * b;
    assert(xn == 2 * pk * w) by (nonlinear_arith)
        requires
            xn == 2 * xo - p512() * b,
            xo == pk * u,
            p512() == 2 * pk * pq,
            w == u - pq * b,
    {
    }
    assert(w >= 0);
    assert(xn % pow2((k + 1) as nat) == 0) by {
        lemma_mod_multiples_basic(w, pow2((k + 1) as nat) as int);
        assert(w * (2 * pk) == (2 * pk) * w) by (nonlinear_arith);
    }
    assert(xn / pow2((k + 1) as nat) == w) by {
        lemma_div_by_multiple(w, (2 * pk) as int);
        assert(w * (2 * pk) == (2 * pk) * w) by (nonlinear_arith);
    }
    assert(x0 == (2 * h + b) * pq + w) by (nonlinear_arith)
        requires
            x0 == h * pow2((512 - k) as nat) + u,
            pow2((512 - k) as nat) == 2 * pq,
            w == u - pq * b,
    {
    }
}

/// Euclidean division of a 512-bit value by a nonzero word, by binary
/// long division: 512 shift-subtract rounds.
pub fn div_rem_wide(x: U512, d: &U256) -> (qr: (U512, U256))
    requires
        d.as_nat() > 0,
    ensures
        qr.0.as_nat() == x.as_nat() / d.as_nat(),
        qr.1.as_nat() == x.as_nat() % d.as_nat(),
{
    let mut xs = x;
    let mut q = U512::zero();
    let mut r = U256::zero();
    let mut k: usize = 0;
    proof {
        lemma_pow2_consts();
        assert(xs.as_nat() % pow2(0) == 0);
        assert(xs.as_nat() / pow2(0) == xs.as_nat());
        assert(q.as_nat() * d.as_nat() == 0) by (nonlinear_arith)
            requires q.as_nat() == 0
        {
        }
        assert((q.as_nat() * d.as_nat() + r.as_nat()) * pow2((512 - 0) as nat) == 0)
            by (nonlinear_arith)
            requires q.as_nat() * d.as_nat() + r.as_nat() == 0
        {
        }
    }
    while k < 512
        invariant
            k <= 512,
            d.as_nat() > 0,
            xs.as_nat() % pow2(k as nat) == 0,
            r.as_nat() < d.as_nat(),
            q.as_nat() < pow2(k as nat),
            x.as_nat() == (q.as_nat() * d.as_nat() + r.as_nat()) * pow2((512 - k) as nat)
                + xs.as_nat() / pow2(k as nat),
        decreases 512 - k,
    {
        let ghost xo = xs.as_nat();
        let ghost qo = q.as_nat();
        let ghost ro = r.as_nat();
        let ghost dn = d.as_nat();
        let ghost kk = k as nat;
        let b = xs.top_bit();
        xs = xs.shl1_or(0);
        let rt = r.top_bit();
        let r2 = r.shl1_or(b);
        let ghost rv = 2 * ro + b;
        proof {
            lemma_pow2_consts();
            lemma_div_shift_step(
                x.as_nat(), kk, xo, xs.as_nat(), b as nat, (qo * dn + ro) as nat);
            lemma_pow2_adds(1, kk);
            lemma_pow2_pos(kk);
            assert(pow2(kk) <= p511()) by {
                lemma_pow2_adds(kk, (511 - kk) as nat);
                lemma_pow2_pos((511 - kk) as nat);
                lemma_mul_inequality(1, pow2((511 - kk) as nat) as int, pow2(kk) as int);
                assert(pow2(kk) * pow2((511 - kk) as nat)
                    == pow2((511 - kk) as nat) * pow2(kk)) by (nonlinear_arith);
            }
            assert(2 * qo + 1 < p512());
            if rt == 1 {
                lemma_fundamental_div_mod(ro as int, p255() as int);
                assert(ro >= p255());
                assert(rv >= p256() && rv < 2 * p256());
                lemma_mod_add_multiples_vanish(rv - p256(), p256() as int);
                lemma_small_mod((rv - p256()) as nat, p256());
                assert(r2.as_nat() == rv - p256());
            } else {
                lemma_fundamental_div_mod(ro as int, p255() as int);
                assert(ro < p255());
                lemma_small_mod(rv as nat, p256());
                assert(r2.as_nat() == rv);
            }
        }
        let sub_now = rt == 1 || !r2.lt(d);
        if sub_now {
            let (r3, _) = r2.overflowing_sub(*d);
            proof {
                let dn_ = d.as_nat() as int;
                if rt == 1 {
                    assert(rv >= p256());
                    assert(rv - dn_ >= 0);
                } else {
                    assert(r2.as_nat() >= d.as_nat());
                }
                assert(rv < 2 * dn_);
                lemma_mod_add_multiples_vanish(rv - p256() - dn_, p256() as int);
                lemma_small_mod((rv - dn_) as nat, p256());
                assert(r3.as_nat() == rv - dn_);
            }
            r = r3;
            q = q.shl1_or(1);
            proof {
                lemma_small_mod((2 * qo + 1) as nat, p512());
                assert(q.as_nat() == 2 * qo + 1);
                assert(q.as_nat() * d.as_nat() + r.as_nat()
                    == 2 * (qo * d.as_nat() + ro) + b) by (nonlinear_arith)
                    requires
                        q.as_nat() == 2 * qo + 1,
                        r.as_nat() == 2 * ro + b - d.as_nat(),
                {
                }
            }
        } else {
            r = r2;
            q = q.shl1_or(0);
            proof {
                lemma_small_mod((2 * qo) as nat, p512());
                assert(q.as_nat() == 2 * qo);
                assert(q.as_nat() * d.as_nat() + r.as_nat()
                    == 2 * (qo * d.as_nat() + ro) + b) by (nonlinear_arith)
                    requires
                        q.as_nat() == 2 * qo,
                        r.as_nat() == 2 * ro + b,
                {
                }
            }
        }
        k = k + 1;
        proof {
            lemma_pow2_consts();
            lemma_pow2_adds(1, kk);
            assert(pow2((kk + 1) as nat) == 2 * pow2(kk));
            assert(q.as_nat() <= 2 * qo + 1);
            assert(k as nat == kk + 1);
            assert(q.as_nat() < pow2(k as nat));
        }
    }
    proof {
        lemma_pow2_consts();
        assert(xs.as_nat() < p512());
        lemma_basic_div(xs.as_nat() as int, pow2(512) as int);
        let h = (q.as_nat() * d.as_nat() + r.as_nat()) as nat;
        assert(h * pow2(0) == h) by (nonlinear_arith)
            requires pow2(0) == 1
        {
        }
        assert(x.as_nat() == q.as_nat() * d.as_nat() + r.as_nat());
        lemma_fundamental_div_mod_converse(
            x.as_nat() as int, d.as_nat() as int, q.as_nat() as int, r.as_nat() as int);
    }
    (q, r)
}

} // verus!
