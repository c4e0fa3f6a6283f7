//! The arbitrary-precision unsigned integer: a normalized little-endian
//! sequence of 64-bit chunks, together with its constructors and the
//! chunk-level queries.

use crate::model::{
    chunks_value, lemma_bit_of_value, lemma_mod_split_bit, lemma_value_drop_zero,
    lemma_value_single, lemma_value_snoc, lemma_value_top, lemma_value_update, wf_seq,
};
use vstd::arithmetic::power2::*;
use vstd::pervasive::VecAdditionalExecFns;
use vstd::prelude::*;

verus! {

/// Number of bits in one chunk. The whole implementation is written
/// against this width; changing it means changing the chunk type with it.
pub const CHUNK_BITS: usize = 64;

/// The numeral base of a parse, named in parse errors.
#[derive(Debug, Clone, Copy, PartialEq, Eq, Structural)]
pub enum Base {
    Binary,
    Decimal,
    Hex,
}

/// Everything that can go wrong in this library: a numeral with a
/// character outside its base's alphabet, or a division by zero.
#[derive(Debug, Clone, Copy, PartialEq, Eq, Structural)]
pub enum BigIntError {
    InvalidNumeral(Base),
    DivisionByZero,
}

/// An arbitrary-precision unsigned integer, least-significant chunk first.
#[derive(Debug)]
pub struct BigInt {
    pub chunks: Vec<u64>,
}

impl BigInt {
    /// The mathematical value this instance denotes.
    pub open spec fn value(&self) -> nat {
        chunks_value(self.chunks@)
    }

    /// Normalization invariant: at least one chunk, and no trailing
    /// (most-significant) zero chunk except the one-chunk form of zero.
    pub open spec fn wf(&self) -> bool {
        wf_seq(self.chunks@)
    }

    /// Builds the value of a single chunk.
    pub fn from(value: u64) -> (r: BigInt)
        ensures
            r.wf(),
            r.value() == value,
            r.chunks@.len() == 1,
    {
        let mut chunks: Vec<u64> = Vec::new();
        chunks.push(value);
        proof {
            assert(chunks@ =~= seq![value]);
            lemma_value_single(value);
        }
        BigInt { chunks }
    }

    /// Removes trailing zero chunks, keeping at least one chunk.
    pub fn trim(&mut self)
        requires
            old(self).chunks@.len() >= 1,
        ensures
            final(self).wf(),
            final(self).value() == old(self).value(),
    {
        trim(&mut self.chunks);
    }

    /// Parity is bit 0 of the least-significant chunk.
    pub fn is_even(&self) -> (r: bool)
        requires
            self.wf(),
        ensures
            r == (self.value() % 2 == 0),
    {
        let c = self.chunks[0];
        proof {
            lemma_even_head(self.chunks@);
            assert(c % 2 == 0 <==> c & 1 == 0) by (bit_vector);
        }
        c & 1 == 0
    }

    /// Reads the bit at `index`. The index must lie within the allocated
    /// bit capacity: reading past it has no meaning for a variable-length
    /// representation, so the contract rules it out.
    pub fn bit(&self, index: usize) -> (r: u64)
        requires
            index as int / 64 < self.chunks@.len(),
        ensures
            r == (self.value() / pow2(index as nat)) % 2,
            r <= 1,
    {
        let ci = index / 64;
        let bi: u64 = (index % 64) as u64;
        let chunk = self.chunks[ci];
        proof {
            lemma_bit_of_value(self.chunks@, ci as int, bi as nat);
            assert(64 * (ci as int) + bi as nat == index as int);
            vstd::bits::lemma_u64_shr_is_div(chunk, bi);
            lemma2_to64();
            assert((chunk >> bi) & 1 == (chunk >> bi) % 2) by (bit_vector)
                requires
                    bi < 64,
            ;
        }
        (chunk >> bi) & 1
    }

    /// Writes the bit at `index`, growing the chunk sequence with zero
    /// chunks on demand so that the index is covered; it never shrinks.
    pub fn set_bit(&mut self, index: usize, value: bool)
        ensures
            final(self).chunks@.len() == vstd::math::max(
                old(self).chunks@.len() as int,
                index as int / 64 + 1,
            ),
            final(self).value() == old(self).value() - ((old(self).value() / pow2(index as nat))
                % 2) * pow2(index as nat) + (if value {
                pow2(index as nat)
            } else {
                0nat
            }),
            old(self).wf() && value ==> final(self).wf(),
            old(self).wf() && !value && (index as int / 64 + 1 < old(self).chunks@.len() || (old(
                self,
            ).chunks@.len() == 1 && index < 64)) ==> final(self).wf(),
    {
        broadcast use vstd::arithmetic::mul::lemma_mul_by_zero_is_zero;
        broadcast use lemma_pow2_pos;

        let ghost orig = self.chunks@;
        let chunk_index = index / 64;
        let bit_index: u64 = (index % 64) as u64;
        while self.chunks.len() < chunk_index + 1
            invariant
                self.chunks@.len() >= orig.len(),
                self.chunks@.len() <= vstd::math::max(orig.len() as int, chunk_index as int + 1),
                chunks_value(self.chunks@) == chunks_value(orig),
                orig =~= self.chunks@.take(orig.len() as int),
                forall|t: int| orig.len() <= t < self.chunks@.len() ==> self.chunks@[t] == 0,
            decreases chunk_index + 1 - self.chunks@.len(),
        {
            let ghost before = self.chunks@;
            self.chunks.push(0);
            proof {
                lemma_value_snoc(before, 0);
                assert(before =~= self.chunks@.take(before.len() as int));
            }
        }
        let ghost grown = self.chunks@;
        let chunk = self.chunks[chunk_index];
        proof {
            lemma2_to64();
            vstd::bits::lemma_u64_pow2_no_overflow(bit_index as nat);
            vstd::bits::lemma_u64_shl_is_mul(1u64, bit_index);
        }
        let mask: u64 = 1u64 << bit_index;
        let updated: u64 = if value {
            proof {
                let x = chunk;
                let m = mask;
                let b = bit_index;
                assert(((x >> b) & 1 == 0 ==> (x | m) == x + m) && ((x >> b) & 1 == 1 ==> (x | m)
                    == x) && (x | m) != 0) by (bit_vector)
                    requires
                        m == 1u64 << b,
                        b < 64,
                ;
            }
            chunk | mask
        } else {
            proof {
                let x = chunk;
                let m = mask;
                let b = bit_index;
                assert(((x >> b) & 1 == 1 ==> (x & !m) == x - m && x >= m) && ((x >> b) & 1 == 0
                    ==> (x & !m) == x)) by (bit_vector)
                    requires
                        m == 1u64 << b,
                        b < 64,
                ;
            }
            chunk & !mask
        };
        proof {
            lemma_value_update(grown, chunk_index as int, updated);
            lemma_bit_of_value(grown, chunk_index as int, bit_index as nat);
            assert(64 * (chunk_index as int) + bit_index as nat == index as int);
            vstd::bits::lemma_u64_shr_is_div(chunk, bit_index);
            assert((chunk >> bit_index) & 1 == (chunk >> bit_index) % 2) by (bit_vector)
                requires
                    bit_index < 64,
            ;
            vstd::arithmetic::power2::lemma_pow2_adds(
                (64 * chunk_index as int) as nat,
                bit_index as nat,
            );
            let cp = pow2((64 * chunk_index as int) as nat);
            let m = pow2(bit_index as nat);
            assert(mask as nat == m);
            assert(cp * m == pow2(index as nat));
            assert(m * cp == cp * m) by (nonlinear_arith);
            assert(updated == chunk + mask ==> updated as nat * cp == chunk as nat * cp + m * cp)
                by (nonlinear_arith)
                requires
                    mask as nat == m,
            ;
            assert(updated == chunk - mask ==> updated as nat * cp == chunk as nat * cp - m * cp)
                by (nonlinear_arith)
                requires
                    mask as nat == m,
                    chunk >= mask || updated != chunk - mask,
            ;
            let ov = chunks_value(grown);
            let pi = pow2(index as nat);
            let ob = (ov / pi) % 2;
            assert(ob == 1 ==> ov >= pi) by {
                if ob == 1 {
                    vstd::arithmetic::div_mod::lemma_fundamental_div_mod(ov as int, pi as int);
                    assert(ov / pi >= 1);
                    assert(pi as int * (ov / pi) >= pi as int * 1) by (nonlinear_arith)
                        requires
                            ov / pi >= 1,
                            pi > 0,
                    ;
                }
            }
            assert(ob == 1 ==> ob * pi == pi) by (nonlinear_arith);
            assert(ob == 0 ==> ob * pi == 0) by (nonlinear_arith);
        }
        self.chunks.set(chunk_index, updated);
    }

    /// The bit length: chunk count times the chunk width, minus the
    /// leading zero bits of the most significant chunk; zero has length 0.
    pub fn len(&self) -> (r: usize)
        requires
            self.wf(),
            64 * self.chunks@.len() <= usize::MAX,
        ensures
            r == 0 <==> self.value() == 0,
            self.value() > 0 ==> pow2((r - 1) as nat) <= self.value() < pow2(r as nat),
            self.value() < pow2(r as nat),
            r <= 64 * self.chunks@.len(),
    {
        broadcast use lemma_pow2_pos;
        broadcast use vstd::arithmetic::mul::lemma_mul_by_zero_is_zero;

        let ghost a = self.chunks@;
        let n = self.chunks.len();
        let top = self.chunks[n - 1];
        if n == 1 && top == 0 {
            proof {
                lemma_zero_iff(a);
                lemma2_to64();
            }
            return 0;
        }
        proof {
            lemma_zero_iff(a);
        }
        let mut h: u64 = 0;
        let mut j: u64 = 0;
        proof {
            lemma2_to64();
        }
        while j < 64
            invariant
                j <= 64,
                h < 64,
                h < j || (h == 0 && j == 0),
                top as nat % pow2(j as nat) == 0 ==> h == 0,
                top as nat % pow2(j as nat) != 0 ==> pow2(h as nat) <= top as nat % pow2(j as nat)
                    < pow2((h + 1) as nat),
            decreases 64 - j,
        {
            proof {
                vstd::bits::lemma_u64_shr_is_div(top, j);
                assert((top >> j) & 1 == (top >> j) % 2) by (bit_vector)
                requires
                    j < 64,
            ;
                lemma_mod_split_bit(top as nat, j as nat);
                lemma2_to64();
            }
            if (top >> j) & 1 == 1 {
                proof {
                    assert(pow2(j as nat) <= top as nat % pow2((j + 1) as nat)) by {
                        assert(pow2(j as nat) * ((top as nat / pow2(j as nat)) % 2) == pow2(
                            j as nat,
                        )) by (nonlinear_arith)
                            requires
                                (top as nat / pow2(j as nat)) % 2 == 1,
                        ;
                    }
                    vstd::arithmetic::power2::lemma_pow2_adds(j as nat, 1);
                    lemma2_to64();
                }
                h = j;
            } else {
                proof {
                    assert(pow2(j as nat) * ((top as nat / pow2(j as nat)) % 2) == 0);
                    if h < j && top as nat % pow2(j as nat) != 0 {
                        vstd::arithmetic::power2::lemma_pow2_strictly_increases(
                            (h + 1) as nat,
                            (j + 1) as nat,
                        );
                    }
                }
            }
            j = j + 1;
        }
        proof {
            lemma2_to64();
            vstd::arithmetic::div_mod::lemma_small_mod(top as nat, pow2(64));
            assert(pow2(h as nat) <= top as nat && (top as nat) < pow2((h + 1) as nat));
            lemma_len_bounds(a, h as nat);
        }
        (n - 1) * 64 + (h as usize) + 1
    }

    /// Whether the value is zero; on a normalized instance this is one
    /// chunk equal to zero.
    pub fn is_zero(&self) -> (r: bool)
        requires
            self.wf(),
        ensures
            r == (self.value() == 0),
    {
        proof {
            lemma_zero_iff(self.chunks@);
        }
        self.chunks.len() == 1 && self.chunks[0] == 0
    }
}

impl PartialEq for BigInt {
    /// Representation equality; on normalized instances this is value
    /// equality.
    fn eq(&self, other: &BigInt) -> (r: bool) {
        let n = self.chunks.len();
        if n != other.chunks.len() {
            return false;
        }
        let mut i: usize = 0;
        while i < n
            invariant
                i <= n,
                n == self.chunks@.len(),
                n == other.chunks@.len(),
                forall|t: int| 0 <= t < i ==> self.chunks@[t] == other.chunks@[t],
            decreases n - i,
        {
            if self.chunks[i] != other.chunks[i] {
                return false;
            }
            i = i + 1;
        }
        proof {
            assert(self.chunks@ =~= other.chunks@);
        }
        true
    }
}

impl vstd::std_specs::cmp::PartialEqSpecImpl for BigInt {
    open spec fn obeys_eq_spec() -> bool {
        true
    }

    open spec fn eq_spec(&self, other: &BigInt) -> bool {
        self.chunks@ == other.chunks@
    }
}

/// Removes trailing zero chunks from a chunk sequence, but never below
/// one chunk.
pub fn trim(chunks: &mut Vec<u64>)
    requires
        old(chunks)@.len() >= 1,
    ensures
        wf_seq(final(chunks)@),
        chunks_value(final(chunks)@) == chunks_value(old(chunks)@),
{
    while chunks.len() > 1 && chunks[chunks.len() - 1] == 0
        invariant
            chunks@.len() >= 1,
            chunks_value(chunks@) == chunks_value(old(chunks)@),
        decreases chunks@.len(),
    {
        proof {
            lemma_value_drop_zero(chunks@);
        }
        let ghost before = chunks@;
        chunks.pop();
        proof {
            assert(chunks@ =~= before.drop_last());
        }
    }
}

/// The constant zero.
pub fn zero() -> (r: BigInt)
    ensures
        r.wf(),
        r.value() == 0,
{
    BigInt::from(0)
}

/// The constant one.
pub fn one() -> (r: BigInt)
    ensures
        r.wf(),
        r.value() == 1,
{
    BigInt::from(1)
}

/// The constant two.
pub fn two() -> (r: BigInt)
    ensures
        r.wf(),
        r.value() == 2,
{
    BigInt::from(2)
}

/// The constant ten.
pub fn ten() -> (r: BigInt)
    ensures
        r.wf(),
        r.value() == 10,
{
    BigInt::from(10)
}

/// A normalized sequence denotes zero exactly when it is the single zero
/// chunk.
pub proof fn lemma_zero_iff(s: Seq<u64>)
    requires
        wf_seq(s),
    ensures
        (chunks_value(s) == 0) <==> (s.len() == 1 && s[0] == 0),
{
    broadcast use lemma_pow2_pos;

    lemma2_to64();
    if s.len() == 1 {
        assert(s =~= seq![s[0]]);
        lemma_value_single(s[0]);
    } else {
        lemma_value_top(s);
    }
}

/// Pins the value of a normalized sequence between the powers of two
/// given by the highest set bit of its top chunk.
proof fn lemma_len_bounds(s: Seq<u64>, h: nat)
    requires
        wf_seq(s),
        h < 64,
        pow2(h) <= s.last() < pow2(h + 1),
    ensures
        pow2(64 * (s.len() - 1) as nat + h) <= chunks_value(s) < pow2(
            64 * (s.len() - 1) as nat + h + 1,
        ),
{
    broadcast use lemma_pow2_pos;

    let k = s.len() - 1;
    crate::model::lemma_value_split(s, k as int);
    crate::model::lemma_value_bound(s.take(k as int));
    assert(s.take(k as int).len() == k);
    let hi = s.skip(k as int);
    assert(hi =~= seq![s.last()]);
    lemma_value_single(s.last());
    let p = pow2((64 * k) as nat);
    let top = s.last() as nat;
    lemma_pow2_adds((64 * k) as nat, h);
    lemma_pow2_adds((64 * k) as nat, h + 1);
    assert(p * top >= p * pow2(h)) by (nonlinear_arith)
        requires
            top >= pow2(h),
            p > 0,
    ;
    assert(chunks_value(s.take(k as int)) + p * top < p * (top + 1)) by (nonlinear_arith)
        requires
            chunks_value(s.take(k as int)) < p,
    ;
    assert(p * (top + 1) <= p * pow2(h + 1)) by (nonlinear_arith)
        requires
            top + 1 <= pow2(h + 1),
            p > 0,
    ;
    assert(p * pow2(h) == pow2((64 * k) as nat + h));
    assert(p * pow2(h + 1) == pow2((64 * k) as nat + h + 1));
}

/// The parity of the value is the parity of the lowest chunk.
pub proof fn lemma_even_head(s: Seq<u64>)
    requires
        s.len() >= 1,
    ensures
        (chunks_value(s) % 2 == 0) <==> (s[0] % 2 == 0),
{
    broadcast use lemma_pow2_pos;

    lemma2_to64();
    let rest = chunks_value(s.skip(1));
    assert(chunks_value(s) == s[0] as nat + pow2(64) * rest);
    assert(pow2(64) * rest == 2 * (pow2(63) * rest)) by {
        lemma_pow2_adds(1, 63);
        assert(pow2(1) == 2);
        assert((2 * pow2(63)) * rest == 2 * (pow2(63) * rest)) by (nonlinear_arith);
    }
    let h = pow2(63) * rest;
    assert((s[0] as nat + 2 * h) % 2 == s[0] as nat % 2) by {
        vstd::arithmetic::div_mod::lemma_mod_multiples_vanish(h as int, s[0] as int, 2);
    }
}

} // verus!
