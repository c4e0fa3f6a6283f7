//! Left and right bit shifts: whole-chunk moves plus intra-chunk bit
//! propagation between neighbouring chunks.

use crate::arith::split_chunk;
use crate::big_int::BigInt;
use crate::model::{
    chunks_value, lemma_value_bound, lemma_value_skip_is_div, lemma_value_snoc,
    lemma_value_take_succ, lemma_value_zero,
};
use vstd::arithmetic::div_mod::{
    lemma_basic_div, lemma_div_denominator, lemma_fundamental_div_mod,
    lemma_fundamental_div_mod_converse,
};
use vstd::arithmetic::power2::{lemma2_to64, lemma_pow2_adds, lemma_pow2_pos, pow2};
use vstd::bits::{lemma_u64_low_bits_mask_is_mod, lemma_u64_pow2_no_overflow, lemma_u64_shl_is_mul,
    lemma_u64_shr_is_div, low_bits_mask};
use vstd::pervasive::VecAdditionalExecFns;
use vstd::prelude::*;

verus! {

/// One left-shift chunk step: the bits pushed out of a chunk's top
/// reappear one weight higher.
proof fn lemma_shl_step(
    out_val: nat,
    low_acc: nat,
    x: u64,
    m: nat,
    lo: u64,
    hi: u64,
    ov: u64,
    chunk: u64,
    i: nat,
)
    requires
        x as nat * m == lo + pow2(64) * hi,
        chunk == lo + ov,
        out_val + ov * pow2(64 * i) == low_acc * m,
    ensures
        (out_val + chunk * pow2(64 * i)) + hi * pow2(64 * (i + 1)) == (low_acc + x * pow2(64 * i))
            * m,
{
    broadcast use lemma_pow2_pos;

    lemma_pow2_adds(64, 64 * i);
    assert(64 + 64 * i == 64 * (i + 1));
    let p = pow2(64 * i);
    let b = pow2(64);
    assert(chunk * p == lo * p + ov * p) by (nonlinear_arith)
        requires
            chunk == lo + ov,
    ;
    assert(hi * (b * p) == (b * hi) * p) by (nonlinear_arith);
    assert(lo * p + (b * hi) * p == (lo + b * hi) * p) by (nonlinear_arith);
    assert((x as nat * m) * p == (x as nat * p) * m) by (nonlinear_arith);
    assert((low_acc + x as nat * p) * m == low_acc * m + (x as nat * p) * m) by (nonlinear_arith);
}

/// One right-shift chunk step: the bits pushed out of a chunk's bottom
/// reappear one weight lower.
proof fn lemma_shr_step(
    x: u64,
    under: u64,
    newu: u64,
    shifted: u64,
    rest: nat,
    old_suffix: nat,
    lo: nat,
)
    requires
        0 < lo < 64,
        newu as nat == x as nat % pow2(lo),
        shifted as nat == x as nat / pow2(lo) + under as nat * pow2((64 - lo) as nat),
        old_suffix == pow2(lo) * rest + under,
    ensures
        x as nat + pow2(64) * old_suffix == newu as nat + pow2(lo) * (shifted as nat + pow2(64)
            * rest),
{
    broadcast use lemma_pow2_pos;

    let m = pow2(lo);
    let b = pow2(64);
    let w = pow2((64 - lo) as nat);
    lemma_pow2_adds(lo, (64 - lo) as nat);
    assert(m * w == b);
    lemma_fundamental_div_mod(x as int, m as int);
    assert(m * (shifted as nat + b * rest) == m * (x as nat / m) + m * (under as nat * w) + m * (b
        * rest)) by (nonlinear_arith)
        requires
            shifted as nat == x as nat / m + under as nat * w,
    ;
    assert(m * (under as nat * w) == (m * w) * under as nat) by (nonlinear_arith);
    assert(m * (b * rest) == b * (m * rest)) by (nonlinear_arith);
    assert(b * (m * rest) + b * under as nat == b * (m * rest + under as nat)) by (nonlinear_arith);
    let dq = x as nat / m;
    let dr = x as nat % m;
    assert(m * dq == x as nat - dr) by (nonlinear_arith)
        requires
            x as nat == m * dq + dr,
    ;
}

impl BigInt {
    /// Shift left by `k` bits: the value is multiplied by `2^k`.
    pub fn shl(&self, k: u32) -> (r: BigInt)
        requires
            self.wf(),
        ensures
            r.wf(),
            r.value() == self.value() * pow2(k as nat),
    {
        let ghost a = self.chunks@;
        let big = (k / 64) as usize;
        let lo_off: u64 = (k % 64) as u64;
        proof {
            lemma2_to64();
            lemma_u64_pow2_no_overflow(lo_off as nat);
        }
        let m: u64 = 1u64 << lo_off;
        proof {
            lemma_u64_shl_is_mul(1u64, lo_off);
            assert(m as nat == pow2(lo_off as nat));
        }
        let n = self.chunks.len();
        let mut out: Vec<u64> = Vec::new();
        let mut ov: u64 = 0;
        let mut i: usize = 0;
        proof {
            broadcast use vstd::arithmetic::mul::lemma_mul_by_zero_is_zero;

            crate::model::lemma_value_empty();
            assert(a.take(0) =~= Seq::<u64>::empty());
        }
        while i < n
            invariant
                i <= n,
                out@.len() == i,
                ov as nat <= pow2(lo_off as nat) - 1,
                chunks_value(out@) + ov as nat * pow2(64 * i as nat) == chunks_value(
                    a.take(i as int),
                ) * m as nat,
            decreases n - i,
        {
            let x = self.chunks[i];
            proof {
                assert((x as nat) * (m as nat) < 0x1_0000_0000_0000_0000_0000_0000_0000_0000)
                    by (nonlinear_arith)
                    requires
                        (x as nat) < 0x1_0000_0000_0000_0000,
                        (m as nat) < 0x1_0000_0000_0000_0000,
                ;
            }
            let t: u128 = x as u128 * m as u128;
            let (lo, hi) = split_chunk(t);
            proof {
                broadcast use lemma_pow2_pos;

                lemma2_to64();
                // The low part is a multiple of 2^lo_off, so adding the
                // carried-in bits cannot overflow the chunk.
                vstd::arithmetic::div_mod::lemma_breakdown(
                    t as int,
                    pow2(lo_off as nat) as int,
                    pow2((64 - lo_off) as nat) as int,
                );
                lemma_pow2_adds(lo_off as nat, (64 - lo_off) as nat);
                vstd::arithmetic::div_mod::lemma_mod_multiples_basic(
                    x as int,
                    pow2(lo_off as nat) as int,
                );
                assert((lo as nat + ov as nat) < pow2(64)) by (nonlinear_arith)
                    requires
                        lo as nat == pow2(lo_off as nat) * ((t as nat / pow2(lo_off as nat)) % pow2(
                            (64 - lo_off) as nat,
                        )),
                        ov as nat <= pow2(lo_off as nat) - 1,
                        pow2(lo_off as nat) * pow2((64 - lo_off) as nat) == pow2(64),
                        pow2(lo_off as nat) >= 1,
                        pow2((64 - lo_off) as nat) >= 1,
                ;
                // The high part stays below 2^lo_off.
                assert(hi as nat <= pow2(lo_off as nat) - 1) by (nonlinear_arith)
                    requires
                        t as nat == x as nat * pow2(lo_off as nat),
                        (x as nat) < pow2(64),
                        t as nat == lo as nat + pow2(64) * hi as nat,
                        pow2(lo_off as nat) * pow2((64 - lo_off) as nat) == pow2(64),
                        pow2(lo_off as nat) >= 1,
                        pow2((64 - lo_off) as nat) >= 1,
                ;
            }
            let chunk = lo + ov;
            let ghost old_out = out@;
            out.push(chunk);
            proof {
                lemma_value_snoc(old_out, chunk);
                lemma_value_take_succ(a, i as int);
                lemma_shl_step(
                    chunks_value(old_out),
                    chunks_value(a.take(i as int)),
                    x,
                    m as nat,
                    lo,
                    hi,
                    ov,
                    chunk,
                    i as nat,
                );
            }
            ov = hi;
            i = i + 1;
        }
        proof {
            assert(a.take(n as int) =~= a);
        }
        if ov != 0 {
            let ghost old_out = out@;
            out.push(ov);
            proof {
                lemma_value_snoc(old_out, ov);
            }
        }
        proof {
            broadcast use vstd::arithmetic::mul::lemma_mul_by_zero_is_zero;

            assert(chunks_value(out@) == self.value() * m as nat);
        }
        // Prepend the whole-chunk offset as zero chunks.
        let mut res: Vec<u64> = Vec::new();
        let mut j: usize = 0;
        while j < big
            invariant
                j <= big,
                res@.len() == j,
                forall|t: int| 0 <= t < j ==> res@[t] == 0,
            decreases big - j,
        {
            res.push(0);
            j = j + 1;
        }
        let out_len = out.len();
        let ghost shifted_part = out@;
        let ghost zeros = res@;
        let mut j2: usize = 0;
        while j2 < out_len
            invariant
                j2 <= out_len,
                out_len == out@.len(),
                out@ == shifted_part,
                res@.len() == big + j2,
                res@ =~= zeros + shifted_part.take(j2 as int),
                zeros.len() == big,
                forall|t: int| 0 <= t < big ==> zeros[t] == 0,
            decreases out_len - j2,
        {
            res.push(out[j2]);
            proof {
                assert(res@ =~= zeros + shifted_part.take(j2 + 1));
            }
            j2 = j2 + 1;
        }
        proof {
            assert(res@.take(big as int) =~= zeros);
            assert(res@.skip(big as int) =~= shifted_part);
            crate::model::lemma_value_split(res@, big as int);
            lemma_value_zero(zeros);
            // Stack the two shift factors into one power of two.
            lemma_pow2_adds(64 * big as nat, lo_off as nat);
            assert(64 * big as nat + lo_off as nat == k as nat);
            assert(pow2(64 * big as nat) * (self.value() * pow2(lo_off as nat)) == self.value()
                * pow2(k as nat)) by (nonlinear_arith)
                requires
                    pow2(64 * big as nat) * pow2(lo_off as nat) == pow2(k as nat),
            ;
        }
        let mut r = BigInt { chunks: res };
        r.trim();
        r
    }

    /// Compound left shift: a scoped in-place mutation of a uniquely
    /// owned instance.
    pub fn shl_assign(&mut self, k: u32)
        requires
            old(self).wf(),
        ensures
            final(self).wf(),
            final(self).value() == old(self).value() * pow2(k as nat),
    {
        let r = self.shl(k);
        *self = r;
    }

    /// Shift right by `k` bits: the value is divided by `2^k`.
    pub fn shr(&self, k: u32) -> (r: BigInt)
        requires
            self.wf(),
        ensures
            r.wf(),
            r.value() == self.value() / pow2(k as nat),
    {
        broadcast use lemma_pow2_pos;

        let ghost a = self.chunks@;
        let big = (k / 64) as usize;
        let lo_off: u64 = (k % 64) as u64;
        let n = self.chunks.len();
        if big >= n {
            proof {
                lemma_value_bound(a);
                if (64 * n as nat) < (k as nat) {
                    vstd::arithmetic::power2::lemma_pow2_strictly_increases(64 * n as nat, k as nat);
                }
                lemma_basic_div(self.value() as int, pow2(k as nat) as int);
            }
            return crate::big_int::zero();
        }
        // Drop the lowest `big` chunks.
        let mut out: Vec<u64> = Vec::new();
        let mut j: usize = big;
        while j < n
            invariant
                big <= j <= n,
                n == a.len(),
                out@.len() == j - big,
                out@ =~= a.subrange(big as int, j as int),
            decreases n - j,
        {
            out.push(self.chunks[j]);
            proof {
                assert(out@ =~= a.subrange(big as int, j + 1));
            }
            j = j + 1;
        }
        proof {
            assert(out@ =~= a.skip(big as int));
            lemma_value_skip_is_div(a, big as int);
        }
        let ghost s = out@;
        let m_len = out.len();
        // Intra-chunk shift, most significant chunk first.
        if lo_off != 0 {
            proof {
                lemma_u64_pow2_no_overflow(lo_off as nat);
                lemma_u64_shl_is_mul(1u64, lo_off);
            }
            let mask: u64 = (1u64 << lo_off) - 1;
            let mut under: u64 = 0;
            let mut i: usize = m_len;
            proof {
                broadcast use vstd::arithmetic::mul::lemma_mul_by_zero_is_zero;

                crate::model::lemma_value_empty();
                assert(s.skip(m_len as int) =~= Seq::<u64>::empty());
                assert(out@.skip(m_len as int) =~= Seq::<u64>::empty());
            }
            while i > 0
                invariant
                    i <= m_len,
                    m_len == out@.len(),
                    m_len == s.len(),
                    0 < lo_off < 64,
                    (under as nat) < pow2(lo_off as nat),
                    forall|t: int| 0 <= t < i ==> out@[t] == s[t],
                    chunks_value(s.skip(i as int)) == pow2(lo_off as nat) * chunks_value(
                        out@.skip(i as int),
                    ) + under as nat,
                decreases i,
            {
                i = i - 1;
                let x = out[i];
                let newu = x & mask;
                proof {
                    assert(mask == low_bits_mask(lo_off as nat));
                    lemma_u64_low_bits_mask_is_mod(x, lo_off as nat);
                    lemma_u64_shr_is_div(x, lo_off);
                    lemma_u64_pow2_no_overflow((64 - lo_off) as nat);
                    assert(under as nat * pow2((64 - lo_off) as nat) <= (pow2(lo_off as nat) - 1)
                        * pow2((64 - lo_off) as nat)) by (nonlinear_arith)
                        requires
                            under as nat <= pow2(lo_off as nat) - 1,
                            pow2((64 - lo_off) as nat) >= 1,
                    ;
                    lemma_pow2_adds(lo_off as nat, (64 - lo_off) as nat);
                    assert((pow2(lo_off as nat) - 1) * pow2((64 - lo_off) as nat) == pow2(64)
                        - pow2((64 - lo_off) as nat)) by (nonlinear_arith)
                        requires
                            pow2(lo_off as nat) * pow2((64 - lo_off) as nat) == pow2(64),
                    ;
                    lemma2_to64();
                    assert(x as nat / pow2(lo_off as nat) < pow2((64 - lo_off) as nat)) by {
                        lemma_div_bound_for_shift(x as nat, lo_off as nat);
                    }
                    lemma_u64_shl_is_mul(under, (64 - lo_off) as u64);
                }
                let shifted = (x >> lo_off) + (under << ((64u64 - lo_off) as u64));
                let ghost old_out = out@;
                out.set(i, shifted);
                proof {
                    assert(out@.skip(i + 1) =~= old_out.skip(i + 1));
                    assert(out@.skip(i as int)[0] == shifted);
                    assert(out@.skip(i as int).skip(1) =~= out@.skip(i + 1));
                    assert(s.skip(i as int)[0] == s[i as int]);
                    assert(s.skip(i as int).skip(1) =~= s.skip(i + 1));
                    lemma_shr_step(
                        x,
                        under,
                        newu,
                        shifted,
                        chunks_value(out@.skip(i + 1)),
                        chunks_value(s.skip(i + 1)),
                        lo_off as nat,
                    );
                }
                under = newu;
            }
            proof {
                assert(s.skip(0) =~= s);
                assert(out@.skip(0) =~= out@);
                assert(pow2(lo_off as nat) * chunks_value(out@) == chunks_value(out@) * pow2(
                    lo_off as nat,
                )) by (nonlinear_arith);
                lemma_fundamental_div_mod_converse(
                    chunks_value(s) as int,
                    pow2(lo_off as nat) as int,
                    chunks_value(out@) as int,
                    under as int,
                );
            }
        } else {
            proof {
                lemma2_to64();
                vstd::arithmetic::div_mod::lemma_div_basics(chunks_value(s) as int);
            }
        }
        proof {
            // value / 2^(64 big) / 2^lo == value / 2^k
            lemma_div_denominator(
                self.value() as int,
                pow2(64 * big as nat) as int,
                pow2(lo_off as nat) as int,
            );
            lemma_pow2_adds(64 * big as nat, lo_off as nat);
            assert(64 * big as nat + lo_off as nat == k as nat);
        }
        let mut r = BigInt { chunks: out };
        r.trim();
        r
    }

    /// Compound right shift: a scoped in-place mutation of a uniquely
    /// owned instance.
    pub fn shr_assign(&mut self, k: u32)
        requires
            old(self).wf(),
        ensures
            final(self).wf(),
            final(self).value() == old(self).value() / pow2(k as nat),
    {
        let r = self.shr(k);
        *self = r;
    }
}

/// Dividing a chunk by `2^n` keeps it below `2^(64-n)`.
proof fn lemma_div_bound_for_shift(x: nat, n: nat)
    requires
        0 < n < 64,
        x < pow2(64),
    ensures
        x / pow2(n) < pow2((64 - n) as nat),
{
    broadcast use lemma_pow2_pos;

    lemma_pow2_adds(n, (64 - n) as nat);
    vstd::arithmetic::div_mod::lemma_multiply_divide_lt(
        x as int,
        pow2(n) as int,
        pow2((64 - n) as nat) as int,
    );
}

} // verus!
