//! The 256-bit unsigned word: the value type of the operand stack and of
//! memory word accesses.  A word is four 64-bit limbs, least significant
//! first; its mathematical value is `as_nat()`.  Arithmetic wraps modulo
//! 2^256 and is carried out by the `bigint` crate behind trusted wrappers.

use vstd::prelude::*;
use vstd::arithmetic::power2::{pow2, lemma_pow2_adds, lemma_pow2_pos, lemma2_to64, lemma2_to64_rest};
use vstd::arithmetic::div_mod::{
    lemma_mod_multiples_vanish, lemma_small_mod, lemma_div_denominator, lemma_mod_breakdown,
};
use vstd::arithmetic::mul::lemma_mul_inequality;
use vstd::arithmetic::power::{
    pow, lemma_pow_adds, lemma_pow_positive, lemma_pow_multiplies, lemma_pow0, lemma_pow1,
};
use bigint::U256;

verus! {

/// A 256-bit unsigned integer, `limb0` least significant.
#[derive(Clone, Copy, Debug, PartialEq, Eq, Structural)]
pub struct Word {
    pub limb0: u64,
    pub limb1: u64,
    pub limb2: u64,
    pub limb3: u64,
}

impl Word {
    /// The mathematical value of this word.
    pub open spec fn as_nat(self) -> nat {
        self.limb0 as nat + self.limb1 as nat * pow2(64) + self.limb2 as nat * pow2(128)
            + self.limb3 as nat * pow2(192)
    }

    /// The value of this word read as a two's-complement signed integer.
    pub open spec fn as_signed(self) -> int {
        signed_of(self.as_nat())
    }

    /// A word holding a 64-bit value.
    pub fn from_u64(x: u64) -> (r: Word)
        ensures
            r.as_nat() == x,
    {
        Word { limb0: x, limb1: 0, limb2: 0, limb3: 0 }
    }

    /// Whether this word is zero.
    pub fn is_zero(&self) -> (r: bool)
        ensures
            r == (self.as_nat() == 0),
    {
        proof {
            lemma_pow2_pos(64);
            lemma_pow2_pos(128);
            lemma_pow2_pos(192);
            if self.limb1 != 0 {
                lemma_mul_inequality(1, self.limb1 as int, pow2(64) as int);
            }
            if self.limb2 != 0 {
                lemma_mul_inequality(1, self.limb2 as int, pow2(128) as int);
            }
            if self.limb3 != 0 {
                lemma_mul_inequality(1, self.limb3 as int, pow2(192) as int);
            }
        }
        self.limb0 == 0 && self.limb1 == 0 && self.limb2 == 0 && self.limb3 == 0
    }

    /// Truncates the word to machine width, for use as an address or
    /// jump target.
    pub fn truncate_to_offset(&self) -> (r: u64)
        ensures
            r as nat == self.as_nat() % pow2(64),
    {
        proof {
            lemma_truncate_low_limb(*self);
        }
        self.limb0
    }

    /// The least significant byte of the word.
    pub fn low_byte(&self) -> (r: u8)
        ensures
            r as nat == self.as_nat() % 256,
    {
        proof {
            lemma_low_byte(*self);
        }
        (self.limb0 % 256) as u8
    }

    /// Unsigned comparison, limb by limb from the most significant.
    pub fn lt(&self, other: &Word) -> (r: bool)
        ensures
            r == (self.as_nat() < other.as_nat()),
    {
        proof {
            lemma_limb_order(*self, *other);
        }
        if self.limb3 != other.limb3 {
            self.limb3 < other.limb3
        } else if self.limb2 != other.limb2 {
            self.limb2 < other.limb2
        } else if self.limb1 != other.limb1 {
            self.limb1 < other.limb1
        } else {
            self.limb0 < other.limb0
        }
    }

    /// Signed comparison under the two's-complement reading.
    pub fn signed_lt(&self, other: &Word) -> (r: bool)
        ensures
            r == (self.as_signed() < other.as_signed()),
    {
        proof {
            lemma_top_bit(*self);
            lemma_top_bit(*other);
            lemma_word_bound(*self);
            lemma_word_bound(*other);
            lemma_pow2_pos(255);
        }
        let self_neg = self.limb3 >= 0x8000_0000_0000_0000;
        let other_neg = other.limb3 >= 0x8000_0000_0000_0000;
        if self_neg != other_neg {
            self_neg
        } else {
            self.lt(other)
        }
    }
}

/// The two's-complement reading of a 256-bit value.
pub open spec fn signed_of(n: nat) -> int {
    if n >= pow2(255) {
        n - pow2(256)
    } else {
        n as int
    }
}

/// Every word value fits in 256 bits.
pub proof fn lemma_word_bound(w: Word)
    ensures
        w.as_nat() < pow2(256),
{
    lemma_low_bound(w);
    lemma_u64_bound(w.limb3);
    lemma_split_bound(
        (w.limb0 as nat + w.limb1 as nat * pow2(64) + w.limb2 as nat * pow2(128)) as nat,
        w.limb3 as nat,
        pow2(192),
        pow2(64),
    );
    lemma_pow2_adds(192, 64);
}

/// The three low limbs together stay under 2^192.
proof fn lemma_low_bound(w: Word)
    ensures
        w.limb0 as nat + w.limb1 as nat * pow2(64) + w.limb2 as nat * pow2(128) < pow2(192),
{
    lemma_u64_bound(w.limb0);
    lemma_u64_bound(w.limb1);
    lemma_u64_bound(w.limb2);
    lemma_split_bound(w.limb0 as nat, w.limb1 as nat, pow2(64), pow2(64));
    lemma_pow2_adds(64, 64);
    lemma_split_bound(
        (w.limb0 as nat + w.limb1 as nat * pow2(64)) as nat,
        w.limb2 as nat,
        pow2(128),
        pow2(64),
    );
    lemma_pow2_adds(128, 64);
}

/// A 64-bit limb is below 2^64.
proof fn lemma_u64_bound(x: u64)
    ensures
        (x as nat) < pow2(64),
{
    lemma2_to64();
}

/// A low part below the place value plus a bounded high digit stays under
/// the next place value.
proof fn lemma_split_bound(low: nat, hi: nat, p: nat, q: nat)
    by (nonlinear_arith)
    requires
        low < p,
        hi < q,
    ensures
        low + hi * p < p * q,
{
}

/// Strict order on the high digit decides the order of the whole value.
proof fn lemma_place_lt(lowa: nat, hia: nat, lowb: nat, hib: nat, p: nat)
    by (nonlinear_arith)
    requires
        lowa < p,
        hia < hib,
    ensures
        lowa + hia * p < lowb + hib * p,
{
}

/// Lexicographic comparison of the limbs agrees with comparison of the
/// values.
proof fn lemma_limb_order(a: Word, b: Word)
    ensures
        a.limb3 < b.limb3 ==> a.as_nat() < b.as_nat(),
        b.limb3 < a.limb3 ==> b.as_nat() < a.as_nat(),
        a.limb3 == b.limb3 && a.limb2 < b.limb2 ==> a.as_nat() < b.as_nat(),
        a.limb3 == b.limb3 && b.limb2 < a.limb2 ==> b.as_nat() < a.as_nat(),
        a.limb3 == b.limb3 && a.limb2 == b.limb2 && a.limb1 < b.limb1 ==> a.as_nat()
            < b.as_nat(),
        a.limb3 == b.limb3 && a.limb2 == b.limb2 && b.limb1 < a.limb1 ==> b.as_nat()
            < a.as_nat(),
{
    lemma_limb_order_one_sided(a, b);
    lemma_limb_order_one_sided(b, a);
}

proof fn lemma_limb_order_one_sided(a: Word, b: Word)
    ensures
        a.limb3 < b.limb3 ==> a.as_nat() < b.as_nat(),
        a.limb3 == b.limb3 && a.limb2 < b.limb2 ==> a.as_nat() < b.as_nat(),
        a.limb3 == b.limb3 && a.limb2 == b.limb2 && a.limb1 < b.limb1 ==> a.as_nat()
            < b.as_nat(),
{
    lemma_low_bound(a);
    lemma_u64_bound(a.limb0);
    lemma_u64_bound(a.limb1);
    lemma_u64_bound(a.limb2);
    lemma_pow2_adds(64, 64);
    if a.limb3 < b.limb3 {
        lemma_place_lt(
            (a.limb0 as nat + a.limb1 as nat * pow2(64) + a.limb2 as nat * pow2(128)) as nat,
            a.limb3 as nat,
            (b.limb0 as nat + b.limb1 as nat * pow2(64) + b.limb2 as nat * pow2(128)) as nat,
            b.limb3 as nat,
            pow2(192),
        );
    } else if a.limb3 == b.limb3 && a.limb2 < b.limb2 {
        lemma_split_bound(a.limb0 as nat, a.limb1 as nat, pow2(64), pow2(64));
        lemma_place_lt(
            (a.limb0 as nat + a.limb1 as nat * pow2(64)) as nat,
            a.limb2 as nat,
            (b.limb0 as nat + b.limb1 as nat * pow2(64)) as nat,
            b.limb2 as nat,
            pow2(128),
        );
    } else if a.limb3 == b.limb3 && a.limb2 == b.limb2 && a.limb1 < b.limb1 {
        lemma_place_lt(a.limb0 as nat, a.limb1 as nat, b.limb0 as nat, b.limb1 as nat, pow2(64));
    }
}

/// The sign of the two's-complement reading is the top bit of the top limb.
proof fn lemma_top_bit(w: Word)
    ensures
        (w.as_nat() >= pow2(255)) == (w.limb3 >= 0x8000_0000_0000_0000),
{
    lemma_low_bound(w);
    lemma2_to64();
    lemma2_to64_rest();
    lemma_pow2_adds(63, 192);
    if w.limb3 >= 0x8000_0000_0000_0000 {
        lemma_mul_inequality(pow2(63) as int, w.limb3 as int, pow2(192) as int);
    } else {
        lemma_split_bound(
            (w.limb0 as nat + w.limb1 as nat * pow2(64) + w.limb2 as nat * pow2(128)) as nat,
            w.limb3 as nat,
            pow2(192),
            pow2(63),
        );
    }
}

/// The low limb is the value reduced modulo 2^64.
proof fn lemma_truncate_low_limb(w: Word)
    ensures
        w.as_nat() % pow2(64) == w.limb0 as nat,
{
    let rest = w.limb1 as nat + w.limb2 as nat * pow2(64) + w.limb3 as nat * pow2(128);
    lemma_pow2_adds(64, 64);
    lemma_pow2_adds(64, 128);
    assert(w.as_nat() == pow2(64) * rest + w.limb0 as nat) by (nonlinear_arith)
        requires
            pow2(128) == pow2(64) * pow2(64),
            pow2(192) == pow2(64) * pow2(128),
            rest == w.limb1 as nat + w.limb2 as nat * pow2(64) + w.limb3 as nat * pow2(128);
    lemma_pow2_pos(64);
    lemma_mod_multiples_vanish(rest as int, w.limb0 as int, pow2(64) as int);
    lemma_u64_bound(w.limb0);
    lemma_small_mod(w.limb0 as nat, pow2(64));
}

/// The low byte is the value reduced modulo 256.
proof fn lemma_low_byte(w: Word)
    ensures
        w.as_nat() % 256 == w.limb0 as nat % 256,
{
    let rest = w.limb1 as nat + w.limb2 as nat * pow2(64) + w.limb3 as nat * pow2(128);
    lemma_pow2_adds(64, 64);
    lemma_pow2_adds(64, 128);
    assert(w.as_nat() == pow2(64) * rest + w.limb0 as nat) by (nonlinear_arith)
        requires
            pow2(128) == pow2(64) * pow2(64),
            pow2(192) == pow2(64) * pow2(128),
            rest == w.limb1 as nat + w.limb2 as nat * pow2(64) + w.limb3 as nat * pow2(128);
    lemma2_to64();
    lemma2_to64_rest();
    lemma_pow2_adds(8, 56);
    assert(pow2(64) * rest == 256 * (pow2(56) * rest)) by (nonlinear_arith)
        requires
            pow2(64) == 256 * pow2(56);
    lemma_mod_multiples_vanish((pow2(56) * rest) as int, w.limb0 as int, 256);
}

/// Relies on `bigint`'s `U256::overflowing_add`: 256-bit addition whose
/// result wraps modulo 2^256.
#[verifier::external_body]
pub(crate) fn word_add(a: &Word, b: &Word) -> (r: Word)
    ensures
        r.as_nat() == (a.as_nat() + b.as_nat()) % pow2(256),
{
    let (s, _) = U256([a.limb0, a.limb1, a.limb2, a.limb3]).overflowing_add(
        U256([b.limb0, b.limb1, b.limb2, b.limb3]),
    );
    Word { limb0: s.0[0], limb1: s.0[1], limb2: s.0[2], limb3: s.0[3] }
}

/// Relies on `bigint`'s `U256::overflowing_sub`: 256-bit subtraction whose
/// result wraps modulo 2^256.
#[verifier::external_body]
pub(crate) fn word_sub(a: &Word, b: &Word) -> (r: Word)
    ensures
        r.as_nat() as int == (a.as_nat() - b.as_nat()) % (pow2(256) as int),
{
    let (s, _) = U256([a.limb0, a.limb1, a.limb2, a.limb3]).overflowing_sub(
        U256([b.limb0, b.limb1, b.limb2, b.limb3]),
    );
    Word { limb0: s.0[0], limb1: s.0[1], limb2: s.0[2], limb3: s.0[3] }
}

/// Relies on `bigint`'s `U256::overflowing_mul`: 256-bit multiplication
/// whose result wraps modulo 2^256.
#[verifier::external_body]
pub(crate) fn word_mul(a: &Word, b: &Word) -> (r: Word)
    ensures
        r.as_nat() == (a.as_nat() * b.as_nat()) % pow2(256),
{
    let (s, _) = U256([a.limb0, a.limb1, a.limb2, a.limb3]).overflowing_mul(
        U256([b.limb0, b.limb1, b.limb2, b.limb3]),
    );
    Word { limb0: s.0[0], limb1: s.0[1], limb2: s.0[2], limb3: s.0[3] }
}

/// The value of a byte sequence read as a big-endian integer.
pub open spec fn bytes_val(s: Seq<u8>) -> nat
    decreases s.len(),
{
    if s.len() == 0 {
        0
    } else {
        bytes_val(s.drop_last()) * 256 + s.last() as nat
    }
}

/// The 32-byte big-endian form of a value, most significant byte first.
pub open spec fn be_bytes32(n: nat) -> Seq<u8> {
    Seq::new(32, |i: int| ((n / pow2((8 * (31 - i)) as nat)) % 256) as u8)
}

/// A run of zero bytes reads as zero.
pub proof fn lemma_bytes_val_zeros(z: Seq<u8>)
    requires
        forall|i: int| 0 <= i < z.len() ==> z[i] == 0u8,
    ensures
        bytes_val(z) == 0,
    decreases z.len(),
{
    if z.len() > 0 {
        lemma_bytes_val_zeros(z.drop_last());
    }
}

/// Zero bytes on the most significant side do not change the value.
pub proof fn lemma_bytes_val_zero_prefix(z: Seq<u8>, s: Seq<u8>)
    requires
        forall|i: int| 0 <= i < z.len() ==> z[i] == 0u8,
    ensures
        bytes_val(z + s) == bytes_val(s),
    decreases s.len(),
{
    if s.len() == 0 {
        assert(z + s =~= z);
        lemma_bytes_val_zeros(z);
    } else {
        lemma_bytes_val_zero_prefix(z, s.drop_last());
        assert((z + s).drop_last() =~= z + s.drop_last());
        assert((z + s).last() == s.last());
    }
}

/// A power of 256 is the matching power of two.
proof fn lemma_pow256(j: nat)
    ensures
        pow(256, j) == pow2((8 * j) as nat),
{
    lemma2_to64();
    lemma_pow_positive(2, (8 * j) as nat);
    lemma_pow_positive(2, 8);
    lemma_pow_multiplies(2, 8, j);
}

/// The first `k` bytes of the big-endian form read back as the value's
/// top `k` base-256 digits.
proof fn lemma_be_prefix(n: nat, k: int)
    requires
        0 <= k <= 32,
    ensures
        bytes_val(be_bytes32(n).take(k)) == (n as int / pow(256, (32 - k) as nat)) % pow(
            256,
            k as nat,
        ),
    decreases k,
{
    lemma_pow_positive(256, (32 - k) as nat);
    lemma_pow_positive(256, k as nat);
    if k == 0 {
        assert(be_bytes32(n).take(0) =~= Seq::<u8>::empty());
        lemma_pow0(256);
    } else {
        lemma_be_prefix(n, k - 1);
        let s = be_bytes32(n);
        assert(s.take(k).drop_last() =~= s.take(k - 1));
        let d = pow(256, (32 - k) as nat);
        let m = n as int / d;
        lemma_pow256((32 - k) as nat);
        assert(s.take(k).last() as nat == (n as int / d) % 256);
        lemma_div_denominator(n as int, d, 256);
        lemma_pow_adds(256, (32 - k) as nat, 1);
        lemma_pow1(256);
        lemma_pow_positive(256, (k - 1) as nat);
        lemma_mod_breakdown(m, 256, pow(256, (k - 1) as nat));
        lemma_pow_adds(256, 1, (k - 1) as nat);
    }
}

/// Reading the 32-byte big-endian form of a 256-bit value gives the
/// value back.
pub proof fn lemma_be_bytes32_val(n: nat)
    requires
        n < pow2(256),
    ensures
        bytes_val(be_bytes32(n)) == n,
{
    lemma_be_prefix(n, 32);
    assert(be_bytes32(n).take(32) =~= be_bytes32(n));
    lemma_pow0(256);
    lemma_pow256(32);
    lemma_small_mod(n, pow2(256));
}

/// Relies on `bigint`'s `U256::from_big_endian`: reads 32 bytes as a
/// big-endian integer.
#[verifier::external_body]
pub(crate) fn word_from_be(bytes: &Vec<u8>) -> (r: Word)
    requires
        bytes@.len() == 32,
    ensures
        r.as_nat() == bytes_val(bytes@),
{
    let u = U256::from_big_endian(&bytes[..]);
    Word { limb0: u.0[0], limb1: u.0[1], limb2: u.0[2], limb3: u.0[3] }
}

/// Relies on `bigint`'s `U256::to_big_endian`: writes the 32-byte
/// big-endian form of the value.
#[verifier::external_body]
pub(crate) fn word_to_be(w: &Word) -> (r: Vec<u8>)
    ensures
        r@ == be_bytes32(w.as_nat()),
{
    let mut bytes = vec![0u8; 32];
    U256([w.limb0, w.limb1, w.limb2, w.limb3]).to_big_endian(&mut bytes);
    bytes
}

} // verus!
