//! Shift-and-add multiplication and squaring.

use crate::big_int::BigInt;
use crate::model::{lemma_bit_of_value, lemma_mod_split_bit, lemma_value_bound};
use vstd::arithmetic::div_mod::lemma_small_mod;
use vstd::arithmetic::mul::{lemma_mul_is_commutative, lemma_mul_by_zero_is_zero};
use vstd::arithmetic::power2::{lemma2_to64, lemma_pow2_adds, lemma_pow2_pos, pow2};
use vstd::prelude::*;

verus! {

impl Clone for BigInt {
    /// Copies the chunk sequence; the copy denotes the same value.
    fn clone(&self) -> (r: Self)
        ensures
            r.chunks@ == self.chunks@,
    {
        let mut chunks: Vec<u64> = Vec::new();
        let n = self.chunks.len();
        let mut i: usize = 0;
        while i < n
            invariant
                i <= n,
                n == self.chunks@.len(),
                chunks@ =~= self.chunks@.take(i as int),
            decreases n - i,
        {
            chunks.push(self.chunks[i]);
            proof {
                assert(chunks@ =~= self.chunks@.take(i + 1));
            }
            i = i + 1;
        }
        proof {
            assert(chunks@ =~= self.chunks@);
        }
        BigInt { chunks }
    }
}

impl BigInt {
    /// Shift-and-add product: scans every bit of the multiplier from the
    /// least significant end and adds the correspondingly shifted
    /// multiplicand into an accumulator.
    pub fn mul(&self, other: &BigInt) -> (r: BigInt)
        requires
            self.wf(),
            other.wf(),
        ensures
            r.wf(),
            r.value() == self.value() * other.value(),
    {
        broadcast use lemma_pow2_pos;
        broadcast use lemma_mul_by_zero_is_zero;

        let ghost a = self.chunks@;
        let ghost av = self.value();
        let ghost bv = other.value();
        let mut out = crate::big_int::zero();
        let mut sh = other.clone();
        let n = self.chunks.len();
        proof {
            lemma2_to64();
            lemma_small_mod(0, pow2(0));
            assert(bv * (av % pow2(0)) == 0) by (nonlinear_arith)
                requires
                    av % pow2(0) == 0,
            ;
            assert(bv * pow2(0) == bv) by (nonlinear_arith)
                requires
                    pow2(0) == 1,
            ;
        }
        let mut i: usize = 0;
        while i < n
            invariant
                i <= n,
                n == a.len(),
                self.wf(),
                a == self.chunks@,
                av == self.value(),
                bv == other.value(),
                out.wf(),
                sh.wf(),
                out.value() == bv * (av % pow2((64 * i) as nat)),
                sh.value() == bv * pow2((64 * i) as nat),
            decreases n - i,
        {
            let chunk = self.chunks[i];
            let mut j: u64 = 0;
            while j < 64
                invariant
                    j <= 64,
                    i < n,
                    n == a.len(),
                    self.wf(),
                    a == self.chunks@,
                    av == self.value(),
                    bv == other.value(),
                    chunk == a[i as int],
                    out.wf(),
                    sh.wf(),
                    out.value() == bv * (av % pow2((64 * i + j) as nat)),
                    sh.value() == bv * pow2((64 * i + j) as nat),
                decreases 64 - j,
            {
                let ghost p = (64 * i + j) as nat;
                proof {
                    lemma_bit_of_value(a, i as int, j as nat);
                    vstd::bits::lemma_u64_shr_is_div(chunk, j);
                    assert((chunk >> j) & 1 == (chunk >> j) % 2) by (bit_vector)
                        requires
                            j < 64,
                    ;
                    lemma_mod_split_bit(av, p);
                }
                if (chunk >> j) & 1 == 1 {
                    proof {
                        let x1 = av % pow2(p + 1);
                        let x0 = av % pow2(p);
                        let pp = pow2(p);
                        assert(x1 == x0 + pp * 1);
                        assert(bv * x1 == bv * x0 + bv * pp) by (nonlinear_arith)
                            requires
                                x1 == x0 + pp * 1,
                        ;
                    }
                    out = out.add(&sh);
                } else {
                    proof {
                        assert(av % pow2(p + 1) == av % pow2(p) + pow2(p) * 0);
                    }
                }
                let old_sh = sh;
                sh = old_sh.shl(1);
                proof {
                    lemma2_to64();
                    lemma_pow2_adds(p, 1);
                    assert((bv * pow2(p)) * pow2(1) == bv * (pow2(p) * pow2(1))) by (nonlinear_arith);
                    assert(64 * i + (j + 1) == p + 1);
                }
                j = j + 1;
            }
            proof {
                assert(64 * i + 64 == 64 * (i + 1));
            }
            i = i + 1;
        }
        proof {
            lemma_value_bound(a);
            lemma_small_mod(av, pow2((64 * n) as nat));
            lemma_mul_is_commutative(av as int, bv as int);
        }
        out
    }

    /// Compound multiplication in place.
    pub fn mul_assign(&mut self, other: &BigInt)
        requires
            old(self).wf(),
            other.wf(),
        ensures
            final(self).wf(),
            final(self).value() == old(self).value() * other.value(),
    {
        let r = self.mul(other);
        *self = r;
    }

    /// The square of the value: the identical shift-and-add scan with
    /// the operand multiplied by itself.
    pub fn sq(&self) -> (r: BigInt)
        requires
            self.wf(),
        ensures
            r.wf(),
            r.value() == self.value() * self.value(),
    {
        self.mul(self)
    }
}

} // verus!
