//! Restoring binary long division: quotient and remainder in one pass
//! over the dividend's bits, most significant first.

use crate::big_int::{BigInt, BigIntError};
use crate::model::{lemma_bit_of_value, lemma_value_bound};
use core::cmp::Ordering;
use vstd::arithmetic::div_mod::{
    lemma_basic_div, lemma_div_basics, lemma_div_denominator, lemma_fundamental_div_mod,
    lemma_fundamental_div_mod_converse, lemma_small_mod,
};
use vstd::arithmetic::mul::lemma_mul_by_zero_is_zero;
use vstd::arithmetic::power2::{lemma2_to64, lemma_pow2_pos, lemma_pow2_unfold, pow2};
use vstd::prelude::*;

verus! {

/// One restoring-division step: feeding the next dividend bit into the
/// running remainder either fits below the divisor or calls for one
/// subtraction, and the quotient digit is decided accordingly.
proof fn lemma_div_step(u: nat, v: nat, b: nat, d: nat, rv: nat, qv: nat, r2: nat)
    requires
        d > 0,
        b <= 1,
        u == 2 * v + b,
        rv == v % d,
        qv == v / d,
        r2 == 2 * rv + b,
    ensures
        r2 < 2 * d,
        r2 >= d ==> u % d == r2 - d && u / d == 2 * qv + 1,
        r2 < d ==> u % d == r2 && u / d == 2 * qv,
{
    lemma_fundamental_div_mod(v as int, d as int);
    assert(u == 2 * (d * qv + rv) + b);
    assert(2 * (d * qv + rv) == (2 * qv) * d + 2 * rv) by (nonlinear_arith);
    if r2 >= d {
        assert(u == (2 * qv + 1) * d + (r2 - d)) by (nonlinear_arith)
            requires
                u == (2 * qv) * d + r2,
        ;
        lemma_fundamental_div_mod_converse(
            u as int,
            d as int,
            (2 * qv + 1) as int,
            (r2 - d) as int,
        );
    } else {
        lemma_fundamental_div_mod_converse(u as int, d as int, (2 * qv) as int, r2 as int);
    }
}

/// The running quotient is a multiple of the weight still to be
/// processed, so the quotient bit about to be set is still clear.
proof fn lemma_quo_scale(qp: nat, qv: nat, p: nat)
    requires
        qp == qv * pow2(p + 1),
    ensures
        qp == (2 * qv) * pow2(p),
        qp + pow2(p) == (2 * qv + 1) * pow2(p),
        (qp / pow2(p)) % 2 == 0,
{
    broadcast use lemma_pow2_pos;

    lemma_pow2_unfold(p + 1);
    assert(qv * (2 * pow2(p)) == (2 * qv) * pow2(p)) by (nonlinear_arith);
    assert((2 * qv) * pow2(p) + 1 * pow2(p) == (2 * qv + 1) * pow2(p)) by (nonlinear_arith);
    lemma_fundamental_div_mod_converse(qp as int, pow2(p) as int, (2 * qv) as int, 0);
    vstd::arithmetic::div_mod::lemma_mod_multiples_vanish(qv as int, 0, 2);
}

impl BigInt {
    /// Quotient and remainder in one pass. A zero divisor is reported as
    /// an explicit error; nothing is computed from it.
    pub fn div_rem(&self, other: &BigInt) -> (r: Result<(BigInt, BigInt), BigIntError>)
        requires
            self.wf(),
            other.wf(),
            64 * self.chunks@.len() <= usize::MAX,
        ensures
            other.value() == 0 <==> r is Err,
            r is Err ==> r == Err::<(BigInt, BigInt), BigIntError>(BigIntError::DivisionByZero),
            r matches Ok(qr) ==> qr.0.wf() && qr.1.wf() && qr.0.value() == self.value()
                / other.value() && qr.1.value() == self.value() % other.value(),
    {
        broadcast use lemma_pow2_pos;
        broadcast use lemma_mul_by_zero_is_zero;

        if other.is_zero() {
            return Err(BigIntError::DivisionByZero);
        }
        let ghost a = self.chunks@;
        let ghost nv = self.value();
        let ghost d = other.value();
        let n = self.chunks.len();
        let mut quo = crate::big_int::zero();
        let mut rem = crate::big_int::zero();
        proof {
            lemma_value_bound(a);
            lemma_basic_div(nv as int, pow2((64 * n) as nat) as int);
            lemma_small_mod(0, d);
            lemma_div_basics(d as int);
        }
        let mut i: usize = n;
        while i > 0
            invariant
                i <= n,
                n == a.len(),
                self.wf(),
                a == self.chunks@,
                nv == self.value(),
                d == other.value(),
                d > 0,
                other.wf(),
                quo.wf(),
                rem.wf(),
                rem.value() == (nv / pow2((64 * i) as nat)) % d,
                rem.value() < d,
                quo.value() == ((nv / pow2((64 * i) as nat)) / d) * pow2((64 * i) as nat),
            decreases i,
        {
            i = i - 1;
            let chunk = self.chunks[i];
            let mut j: u64 = 64;
            while j > 0
                invariant
                    j <= 64,
                    i < n,
                    n == a.len(),
                    self.wf(),
                    a == self.chunks@,
                    nv == self.value(),
                    d == other.value(),
                    d > 0,
                    other.wf(),
                    chunk == a[i as int],
                    quo.wf(),
                    rem.wf(),
                    rem.value() == (nv / pow2((64 * i + j) as nat)) % d,
                    rem.value() < d,
                    quo.value() == ((nv / pow2((64 * i + j) as nat)) / d) * pow2(
                        (64 * i + j) as nat,
                    ),
                decreases j,
            {
                j = j - 1;
                let ghost p = (64 * i + j) as nat;
                let b = (chunk >> j) & 1;
                proof {
                    lemma_bit_of_value(a, i as int, j as nat);
                    vstd::bits::lemma_u64_shr_is_div(chunk, j);
                    assert((chunk >> j) & 1 == (chunk >> j) % 2 && (chunk >> j) & 1
                        <= 1) by (bit_vector)
                        requires
                            j < 64,
                    ;
                    // The dividend prefix gains one bit.
                    lemma_pow2_unfold(p + 1);
                    lemma_div_denominator(nv as int, pow2(p) as int, 2);
                    lemma_fundamental_div_mod((nv / pow2(p)) as int, 2);
                }
                let ghost u = nv / pow2(p);
                let ghost v = nv / pow2(p + 1);
                let ghost rv = rem.value();
                let ghost qv = (nv / pow2(p + 1)) / d;
                let shifted = rem.shl(1);
                let bbig = BigInt::from(b);
                let rem2 = shifted.add(&bbig);
                proof {
                    lemma2_to64();
                    assert(shifted.value() == rv * 2) by (nonlinear_arith)
                        requires
                            shifted.value() == rv * pow2(1),
                            pow2(1) == 2,
                    ;
                    lemma_div_step(u, v, b as nat, d, rv, qv, rem2.value());
                    lemma_quo_scale(quo.value(), qv, p);
                }
                match rem2.cmp_mag(other) {
                    Ordering::Less => {
                        rem = rem2;
                    },
                    _ => {
                        rem = rem2.sub(other);
                        let ghost old_quo = quo.value();
                        let idx = i * 64 + (j as usize);
                        proof {
                            assert(idx as nat == p);
                        }
                        quo.set_bit(idx, true);
                        proof {
                            assert((old_quo / pow2(p)) % 2 == 0);
                            assert(quo.value() == old_quo - ((old_quo / pow2(p)) % 2) * pow2(p)
                                + pow2(p));
                            assert(((old_quo / pow2(p)) % 2) * pow2(p) == 0) by (nonlinear_arith)
                                requires
                                    (old_quo / pow2(p)) % 2 == 0,
                            ;
                            assert(quo.value() == old_quo + pow2(p));
                        }
                    },
                }
            }
        }
        proof {
            lemma2_to64();
            lemma_div_basics(nv as int);
            let q0 = nv / d;
            assert(q0 * pow2(0) == q0) by (nonlinear_arith)
                requires
                    pow2(0) == 1,
            ;
        }
        Ok((quo, rem))
    }

    /// The quotient; a zero divisor is an explicit error.
    pub fn div(&self, other: &BigInt) -> (r: Result<BigInt, BigIntError>)
        requires
            self.wf(),
            other.wf(),
            64 * self.chunks@.len() <= usize::MAX,
        ensures
            other.value() == 0 <==> r is Err,
            r is Err ==> r == Err::<BigInt, BigIntError>(BigIntError::DivisionByZero),
            r matches Ok(q) ==> q.wf() && q.value() == self.value() / other.value(),
    {
        match self.div_rem(other) {
            Ok(qr) => Ok(qr.0),
            Err(e) => Err(e),
        }
    }

    /// The remainder; a zero divisor is an explicit error.
    pub fn rem(&self, other: &BigInt) -> (r: Result<BigInt, BigIntError>)
        requires
            self.wf(),
            other.wf(),
            64 * self.chunks@.len() <= usize::MAX,
        ensures
            other.value() == 0 <==> r is Err,
            r is Err ==> r == Err::<BigInt, BigIntError>(BigIntError::DivisionByZero),
            r matches Ok(m) ==> m.wf() && m.value() == self.value() % other.value(),
    {
        match self.div_rem(other) {
            Ok(qr) => Ok(qr.1),
            Err(e) => Err(e),
        }
    }
}

} // verus!
