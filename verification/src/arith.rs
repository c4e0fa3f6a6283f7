//! Arithmetic core: chunk-wise addition with carry, subtraction with
//! borrow, and magnitude comparison.

use crate::big_int::BigInt;
use crate::model::{
    chunks_value, lemma_value_bound, lemma_value_snoc, lemma_value_take_succ, lemma_value_top,
    wf_seq,
};
use core::cmp::Ordering;
use vstd::arithmetic::power2::{lemma2_to64, lemma_pow2_adds, lemma_pow2_pos, pow2};
use vstd::math::{max, min};
use vstd::prelude::*;

verus! {

/// Splits a double-width intermediate into a low chunk and a high chunk.
pub(crate) fn split_chunk(x: u128) -> (r: (u64, u64))
    ensures
        x as nat == r.0 as nat + pow2(64) * r.1 as nat,
        r.0 as nat == x as nat % pow2(64),
        r.1 as nat == x as nat / pow2(64),
{
    proof {
        lemma2_to64();
        assert(x / 0x1_0000_0000_0000_0000u128 < 0x1_0000_0000_0000_0000u128) by (nonlinear_arith);
    }
    let lo = (x % 0x1_0000_0000_0000_0000u128) as u64;
    let hi = (x / 0x1_0000_0000_0000_0000u128) as u64;
    (lo, hi)
}

/// The carry-step identity: absorbing one chunk sum into the running
/// low part moves the carry one weight up.
proof fn lemma_carry_step(out_val: nat, lo: u64, hi: nat, carry: nat, av: nat, bv: nat, i: nat)
    requires
        av + bv + carry == lo + pow2(64) * hi,
    ensures
        (out_val + lo * pow2(64 * i)) + hi * pow2(64 * (i + 1)) == (out_val + carry * pow2(64 * i))
            + av * pow2(64 * i) + bv * pow2(64 * i),
{
    broadcast use lemma_pow2_pos;

    lemma_pow2_adds(64, 64 * i);
    assert(64 + 64 * i == 64 * (i + 1));
    let p = pow2(64 * i);
    let b = pow2(64);
    assert(hi * (b * p) == (b * hi) * p) by (nonlinear_arith);
    assert(lo * p + (b * hi) * p == (lo + b * hi) * p) by (nonlinear_arith);
    assert((av + bv + carry) * p == av * p + bv * p + carry * p) by (nonlinear_arith);
}

/// The borrow-step identity, the mirror image of the carry step.
proof fn lemma_borrow_step(out_val: nat, lo: u64, nb: nat, borrow: nat, av: nat, bv: nat, i: nat)
    requires
        av + nb * pow2(64) == lo + bv + borrow,
    ensures
        (out_val + lo * pow2(64 * i)) - nb * pow2(64 * (i + 1)) == (out_val - borrow * pow2(
            64 * i,
        )) + av * pow2(64 * i) - bv * pow2(64 * i),
{
    broadcast use lemma_pow2_pos;

    lemma_pow2_adds(64, 64 * i);
    assert(64 + 64 * i == 64 * (i + 1));
    let p = pow2(64 * i) as int;
    let b = pow2(64) as int;
    let lo_i = lo as int;
    let nb_i = nb as int;
    let av_i = av as int;
    let bv_i = bv as int;
    let bo_i = borrow as int;
    assert(lo_i - nb_i * b == av_i - bv_i - bo_i);
    assert(nb_i * (b * p) == (nb_i * b) * p) by (nonlinear_arith);
    assert(lo_i * p - (nb_i * b) * p == (lo_i - nb_i * b) * p) by (nonlinear_arith);
    assert((av_i - bv_i - bo_i) * p == av_i * p - bv_i * p - bo_i * p) by (nonlinear_arith);
}

impl BigInt {
    /// Chunk-wise sum with carry; a final carry is appended as a new
    /// most-significant chunk, so the result stays normalized.
    pub fn add(&self, other: &BigInt) -> (r: BigInt)
        requires
            self.wf(),
            other.wf(),
        ensures
            r.wf(),
            r.value() == self.value() + other.value(),
    {
        let ghost a = self.chunks@;
        let ghost b = other.chunks@;
        let len1 = self.chunks.len();
        let len2 = other.chunks.len();
        let max_len = if len1 > len2 {
            len1
        } else {
            len2
        };
        let mut out: Vec<u64> = Vec::new();
        let mut carry: u64 = 0;
        let mut i: usize = 0;
        while i < max_len
            invariant
                i <= max_len,
                carry <= 1,
                len1 == a.len(),
                len2 == b.len(),
                max_len == max(len1 as int, len2 as int),
                out@.len() == i,
                chunks_value(out@) + carry * pow2(64 * i as nat) == chunks_value(
                    a.take(min(i as int, len1 as int)),
                ) + chunks_value(b.take(min(i as int, len2 as int))),
            decreases max_len - i,
        {
            let av: u64 = if i < len1 {
                self.chunks[i]
            } else {
                0
            };
            let bv: u64 = if i < len2 {
                other.chunks[i]
            } else {
                0
            };
            let sum: u128 = av as u128 + bv as u128 + carry as u128;
            let (lo, hi) = split_chunk(sum);
            let ghost old_out = out@;
            out.push(lo);
            proof {
                lemma2_to64();
                assert((sum as nat) < 2 * pow2(64));
                assert(hi <= 1) by {
                    if hi >= 2 {
                        assert(pow2(64) * hi as nat >= pow2(64) * 2) by (nonlinear_arith)
                            requires
                                hi >= 2,
                                pow2(64) > 0,
                        ;
                    }
                }
                lemma_value_snoc(old_out, lo);
                if i < len1 {
                    lemma_value_take_succ(a, i as int);
                }
                if i < len2 {
                    lemma_value_take_succ(b, i as int);
                }
                lemma_carry_step(
                    chunks_value(old_out),
                    lo,
                    hi as nat,
                    carry as nat,
                    av as nat,
                    bv as nat,
                    i as nat,
                );
            }
            carry = hi;
            i = i + 1;
        }
        proof {
            assert(a.take(min(max_len as int, len1 as int)) =~= a);
            assert(b.take(min(max_len as int, len2 as int)) =~= b);
            assert(carry == 0 ==> carry as nat * pow2(64 * max_len as nat) == 0) by (nonlinear_arith);
        }
        if carry != 0 {
            let ghost old_out = out@;
            out.push(carry);
            proof {
                lemma_value_snoc(old_out, carry);
            }
            BigInt { chunks: out }
        } else {
            proof {
                lemma_add_top_nonzero(a, b, out@);
            }
            BigInt { chunks: out }
        }
    }

    /// Chunk-wise difference with borrow. The minuend must be at least
    /// the subtrahend: unsigned wraparound is ruled out by contract
    /// rather than silently produced.
    pub fn sub(&self, other: &BigInt) -> (r: BigInt)
        requires
            self.wf(),
            other.wf(),
            other.value() <= self.value(),
        ensures
            r.wf(),
            r.value() == self.value() - other.value(),
    {
        let ghost a = self.chunks@;
        let ghost b = other.chunks@;
        let len1 = self.chunks.len();
        let len2 = other.chunks.len();
        let max_len = if len1 > len2 {
            len1
        } else {
            len2
        };
        let mut out: Vec<u64> = Vec::new();
        let mut borrow: u64 = 0;
        let mut i: usize = 0;
        while i < max_len
            invariant
                i <= max_len,
                borrow <= 1,
                len1 == a.len(),
                len2 == b.len(),
                max_len == max(len1 as int, len2 as int),
                out@.len() == i,
                chunks_value(out@) - borrow * pow2(64 * i as nat) == chunks_value(
                    a.take(min(i as int, len1 as int)),
                ) - chunks_value(b.take(min(i as int, len2 as int))),
            decreases max_len - i,
        {
            let av: u64 = if i < len1 {
                self.chunks[i]
            } else {
                0
            };
            let bv: u64 = if i < len2 {
                other.chunks[i]
            } else {
                0
            };
            let sub_amt: u128 = bv as u128 + borrow as u128;
            let a128: u128 = av as u128;
            let lo: u64;
            let nb: u64;
            if a128 >= sub_amt {
                lo = (a128 - sub_amt) as u64;
                nb = 0;
            } else {
                proof {
                    lemma2_to64();
                }
                lo = (a128 + 0x1_0000_0000_0000_0000u128 - sub_amt) as u64;
                nb = 1;
            }
            let ghost old_out = out@;
            out.push(lo);
            proof {
                lemma2_to64();
                lemma_value_snoc(old_out, lo);
                if i < len1 {
                    lemma_value_take_succ(a, i as int);
                }
                if i < len2 {
                    lemma_value_take_succ(b, i as int);
                }
                lemma_borrow_step(
                    chunks_value(old_out),
                    lo,
                    nb as nat,
                    borrow as nat,
                    av as nat,
                    bv as nat,
                    i as nat,
                );
            }
            borrow = nb;
            i = i + 1;
        }
        proof {
            assert(a.take(min(max_len as int, len1 as int)) =~= a);
            assert(b.take(min(max_len as int, len2 as int)) =~= b);
            assert(borrow == 0 ==> borrow as nat * pow2(64 * max_len as nat) == 0) by (nonlinear_arith);
            assert(borrow == 1 ==> borrow as nat * pow2(64 * max_len as nat) == pow2(
                64 * max_len as nat,
            )) by (nonlinear_arith);
            if borrow != 0 {
                lemma_value_bound(out@);
                assert(false);
            }
        }
        let mut r = BigInt { chunks: out };
        r.trim();
        r
    }

    /// Compound addition in place.
    pub fn add_assign(&mut self, other: &BigInt)
        requires
            old(self).wf(),
            other.wf(),
        ensures
            final(self).wf(),
            final(self).value() == old(self).value() + other.value(),
    {
        let r = self.add(other);
        *self = r;
    }

    /// Compound subtraction in place; the minuend must be at least the
    /// subtrahend.
    pub fn sub_assign(&mut self, other: &BigInt)
        requires
            old(self).wf(),
            other.wf(),
            other.value() <= old(self).value(),
        ensures
            final(self).wf(),
            final(self).value() == old(self).value() - other.value(),
    {
        let r = self.sub(other);
        *self = r;
    }

    /// Magnitude comparison: longer normalized sequences rank greater;
    /// equal lengths compare chunk-wise from the most significant end.
    pub fn cmp_mag(&self, other: &BigInt) -> (r: Ordering)
        requires
            self.wf(),
            other.wf(),
        ensures
            r == Ordering::Less <==> self.value() < other.value(),
            r == Ordering::Equal <==> self.value() == other.value(),
            r == Ordering::Greater <==> self.value() > other.value(),
    {
        let ghost a = self.chunks@;
        let ghost b = other.chunks@;
        let len1 = self.chunks.len();
        let len2 = other.chunks.len();
        if len1 < len2 {
            proof {
                lemma_len_orders(a, b);
            }
            return Ordering::Less;
        }
        if len2 < len1 {
            proof {
                lemma_len_orders(b, a);
            }
            return Ordering::Greater;
        }
        let mut i: usize = len1;
        while i > 0
            invariant
                i <= len1,
                len1 == a.len(),
                len1 == len2,
                len2 == b.len(),
                forall|j: int| i <= j < len1 ==> a[j] == b[j],
            decreases i,
        {
            i = i - 1;
            if self.chunks[i] < other.chunks[i] {
                proof {
                    lemma_chunk_orders(a, b, i as int);
                }
                return Ordering::Less;
            }
            if other.chunks[i] < self.chunks[i] {
                proof {
                    lemma_chunk_orders(b, a, i as int);
                }
                return Ordering::Greater;
            }
        }
        proof {
            assert(a =~= b);
        }
        Ordering::Equal
    }
}

/// After a carry-free addition the top chunk cannot be zero: the sum is
/// at least as large as the longer normalized operand.
proof fn lemma_add_top_nonzero(a: Seq<u64>, b: Seq<u64>, out: Seq<u64>)
    requires
        wf_seq(a),
        wf_seq(b),
        out.len() == max(a.len() as int, b.len() as int),
        chunks_value(out) == chunks_value(a) + chunks_value(b),
    ensures
        wf_seq(out),
{
    broadcast use lemma_pow2_pos;

    if out.len() > 1 {
        if a.len() >= b.len() {
            lemma_value_top(a);
        } else {
            lemma_value_top(b);
        }
        assert(chunks_value(out) >= pow2((64 * (out.len() - 1)) as nat));
        lemma_top_nonzero_from_bound(out);
    }
}

/// A value at or above the weight of the top chunk forces that chunk to
/// be nonzero.
pub proof fn lemma_top_nonzero_from_bound(s: Seq<u64>)
    requires
        s.len() >= 1,
        chunks_value(s) >= pow2((64 * (s.len() - 1)) as nat),
    ensures
        s.last() != 0,
{
    if s.last() == 0 {
        crate::model::lemma_value_drop_zero(s);
        lemma_value_bound(s.drop_last());
        assert(false);
    }
}

/// A shorter normalized sequence denotes a strictly smaller value.
proof fn lemma_len_orders(a: Seq<u64>, b: Seq<u64>)
    requires
        wf_seq(a),
        wf_seq(b),
        a.len() < b.len(),
    ensures
        chunks_value(a) < chunks_value(b),
{
    broadcast use lemma_pow2_pos;

    lemma_value_bound(a);
    if b.len() > 1 {
        lemma_value_top(b);
        vstd::arithmetic::power2::lemma_pow2_strictly_increases(
            64 * a.len(),
            (64 * (b.len() - 1) as nat + 64) as nat,
        );
        lemma_pow2_adds(64 * (b.len() - 1) as nat, 64);
        assert(pow2(64 * a.len()) <= pow2((64 * (b.len() - 1)) as nat)) by {
            if a.len() < b.len() - 1 {
                vstd::arithmetic::power2::lemma_pow2_strictly_increases(
                    64 * a.len(),
                    (64 * (b.len() - 1)) as nat,
                );
            }
        }
    }
}

/// With equal lengths and equal chunks above index `i`, the sequence
/// with the smaller chunk at `i` denotes the smaller value.
proof fn lemma_chunk_orders(a: Seq<u64>, b: Seq<u64>, i: int)
    requires
        a.len() == b.len(),
        0 <= i < a.len(),
        a[i] < b[i],
        forall|j: int| i < j < a.len() ==> a[j] == b[j],
    ensures
        chunks_value(a) < chunks_value(b),
{
    broadcast use lemma_pow2_pos;

    crate::model::lemma_value_split(a, i + 1);
    crate::model::lemma_value_split(b, i + 1);
    assert(a.skip(i + 1) =~= b.skip(i + 1));
    lemma_value_take_succ(a, i);
    lemma_value_take_succ(b, i);
    lemma_value_bound(a.take(i));
    lemma_value_bound(b.take(i));
    assert(a.take(i).len() == i);
    assert(b.take(i).len() == i);
    let p = pow2(64 * i as nat);
    assert(a[i] as nat * p + p <= b[i] as nat * p) by (nonlinear_arith)
        requires
            a[i] < b[i],
            p > 0,
    ;
}

} // verus!
