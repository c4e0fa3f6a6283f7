//! Square-and-multiply exponentiation, modular exponentiation, and the
//! Euclidean greatest common divisor.

use crate::big_int::{BigInt, BigIntError};
use crate::model::{chunks_value, lemma_value_bound, lemma_value_top, wf_seq};
use vstd::arithmetic::div_mod::{lemma_mod_bound, lemma_mul_mod_noop_general, lemma_small_mod};
use vstd::arithmetic::power2::{lemma2_to64, lemma_pow2_pos, pow2};
use vstd::prelude::*;

verus! {

/// The mathematical power function on naturals.
pub open spec fn pow_nat(b: nat, e: nat) -> nat
    decreases e,
{
    if e == 0 {
        1
    } else {
        b * pow_nat(b, (e - 1) as nat)
    }
}

/// The Euclidean greatest common divisor on naturals, recursing on its
/// first argument.
pub open spec fn gcd_nat(a: nat, b: nat) -> nat
    decreases a,
{
    if a == 0 {
        b
    } else {
        gcd_nat(b % a, a)
    }
}

/// Squaring the base halves the exponent.
pub proof fn lemma_pow_nat_square(b: nat, e: nat)
    ensures
        pow_nat(b * b, e) == pow_nat(b, 2 * e),
    decreases e,
{
    if e > 0 {
        lemma_pow_nat_square(b, (e - 1) as nat);
        assert((b * b) * pow_nat(b, (2 * e - 2) as nat) == b * (b * pow_nat(
            b,
            (2 * e - 2) as nat,
        ))) by (nonlinear_arith);
        assert(pow_nat(b, (2 * e - 1) as nat) == b * pow_nat(b, (2 * e - 2) as nat));
        assert(pow_nat(b, 2 * e) == b * pow_nat(b, (2 * e - 1) as nat));
    }
}

/// Reducing the base modulo `m` does not change the power modulo `m`.
pub proof fn lemma_pow_nat_mod(b: nat, e: nat, m: nat)
    requires
        m > 0,
    ensures
        pow_nat(b % m, e) % m == pow_nat(b, e) % m,
    decreases e,
{
    if e > 0 {
        lemma_pow_nat_mod(b, (e - 1) as nat, m);
        lemma_mul_mod_noop_general(b as int, pow_nat(b, (e - 1) as nat) as int, m as int);
        lemma_mul_mod_noop_general(
            (b % m) as int,
            pow_nat(b % m, (e - 1) as nat) as int,
            m as int,
        );
        lemma_mul_mod_noop_general(b as int, pow_nat(b % m, (e - 1) as nat) as int, m as int);
    }
}

/// A normalized value below `2^(64k)` fits in `k` chunks.
pub proof fn lemma_len_from_value(s: Seq<u64>, k: nat)
    requires
        wf_seq(s),
        k >= 1,
        chunks_value(s) < pow2(64 * k),
    ensures
        s.len() <= k,
{
    broadcast use lemma_pow2_pos;

    if s.len() > k {
        lemma_value_top(s);
        if (64 * k) < (64 * (s.len() - 1) as nat) {
            vstd::arithmetic::power2::lemma_pow2_strictly_increases(
                64 * k,
                (64 * (s.len() - 1)) as nat,
            );
        }
    }
}

impl BigInt {
    /// Square-and-multiply exponentiation with a machine-width exponent.
    pub fn pow(&self, n: u32) -> (r: BigInt)
        requires
            self.wf(),
        ensures
            r.wf(),
            r.value() == pow_nat(self.value(), n as nat),
    {
        if n == 0 {
            return crate::big_int::one();
        }
        let mut e = n;
        let mut y = crate::big_int::one();
        let mut x = self.clone();
        while e > 1
            invariant
                e >= 1,
                x.wf(),
                y.wf(),
                pow_nat(x.value(), e as nat) * y.value() == pow_nat(self.value(), n as nat),
            decreases e,
        {
            let ghost xv = x.value();
            let ghost yv = y.value();
            let ghost ev = e as nat;
            if e % 2 == 1 {
                y = y.mul(&x);
                e = e - 1;
                proof {
                    assert(pow_nat(xv, ev) == xv * pow_nat(xv, (ev - 1) as nat));
                    assert((xv * pow_nat(xv, (ev - 1) as nat)) * yv == pow_nat(
                        xv,
                        (ev - 1) as nat,
                    ) * (yv * xv)) by (nonlinear_arith);
                }
            }
            let ghost xv2 = x.value();
            let ghost yv2 = y.value();
            let ghost ev2 = e as nat;
            x = x.sq();
            e = e / 2;
            proof {
                lemma_pow_nat_square(xv2, (ev2 / 2) as nat);
                assert(2 * (ev2 / 2) == ev2);
            }
        }
        proof {
            assert(pow_nat(x.value(), 1) == x.value() * pow_nat(x.value(), 0));
            assert(x.value() * 1 == x.value()) by (nonlinear_arith);
        }
        x.mul(&y)
    }

    /// Modular exponentiation: square-and-multiply with every
    /// intermediate reduced modulo `modulus`. A zero modulus is an
    /// explicit error. Not constant-time: unsuitable for
    /// secret-dependent exponents or moduli.
    pub fn modpow(&self, n: &BigInt, modulus: &BigInt) -> (r: Result<BigInt, BigIntError>)
        requires
            self.wf(),
            n.wf(),
            modulus.wf(),
            64 * self.chunks@.len() <= usize::MAX,
            128 * modulus.chunks@.len() <= usize::MAX,
        ensures
            modulus.value() == 0 <==> r is Err,
            r is Err ==> r == Err::<BigInt, BigIntError>(BigIntError::DivisionByZero),
            r matches Ok(x) ==> x.wf() && x.value() == pow_nat(self.value(), n.value())
                % modulus.value(),
    {
        broadcast use lemma_pow2_pos;

        let ghost m = modulus.value();
        let ghost lm = modulus.chunks@.len();
        let mut base = match self.rem(modulus) {
            Ok(b) => b,
            Err(e) => {
                return Err(e);
            },
        };
        proof {
            lemma_mod_bound(self.value() as int, m as int);
        }
        let one_val = BigInt::from(1);
        let mut result = match one_val.rem(modulus) {
            Ok(x) => x,
            Err(_) => {
                proof {
                    assert(false);
                }
                vstd::pervasive::unreached()
            },
        };
        let mut exp = n.clone();
        proof {
            lemma_mod_bound(1, m as int);
            lemma_pow_nat_mod(self.value(), n.value(), m);
            lemma_mul_mod_noop_general(1, pow_nat(base.value(), n.value()) as int, m as int);
            assert(1 * pow_nat(base.value(), n.value()) == pow_nat(base.value(), n.value()));
            assert((1nat % m) * pow_nat(base.value(), n.value()) == result.value() * pow_nat(
                base.value(),
                n.value(),
            ));
        }
        while !exp.is_zero()
            invariant
                m == modulus.value(),
                m > 0,
                lm == modulus.chunks@.len(),
                128 * lm <= usize::MAX,
                modulus.wf(),
                base.wf(),
                result.wf(),
                exp.wf(),
                base.value() < m,
                result.value() < m,
                (result.value() * pow_nat(base.value(), exp.value())) % m == pow_nat(
                    self.value(),
                    n.value(),
                ) % m,
            decreases exp.value(),
        {
            let ghost bv = base.value();
            let ghost rv = result.value();
            let ghost ev = exp.value();
            proof {
                lemma_value_bound(modulus.chunks@);
                lemma_bound_product(rv, bv, m, lm);
            }
            if !exp.is_even() {
                let prod = result.mul(&base);
                proof {
                    lemma_len_from_value(prod.chunks@, 2 * lm);
                }
                result = match prod.rem(modulus) {
                    Ok(x) => x,
                    Err(_) => {
                        proof {
                            assert(false);
                        }
                        vstd::pervasive::unreached()
                    },
                };
                proof {
                    lemma_mod_bound((rv * bv) as int, m as int);
                    // Peel one factor of the base off the odd exponent.
                    assert(ev % 2 == 1);
                    assert(pow_nat(bv, ev) == bv * pow_nat(bv, (ev - 1) as nat));
                    lemma_mul_mod_noop_general(
                        (rv * bv) as int,
                        pow_nat(bv, (ev - 1) as nat) as int,
                        m as int,
                    );
                    assert((rv * bv) * pow_nat(bv, (ev - 1) as nat) == rv * (bv * pow_nat(
                        bv,
                        (ev - 1) as nat,
                    ))) by (nonlinear_arith);
                    assert((result.value() * pow_nat(bv, (ev - 1) as nat)) % m == (rv * pow_nat(
                        bv,
                        ev,
                    )) % m);
                }
            } else {
                proof {
                    assert(ev % 2 == 0);
                }
            }
            let ghost rv2 = result.value();
            let ghost ev2 = (if ev % 2 == 1 { (ev - 1) as nat } else { ev });
            let old_exp = exp;
            exp = old_exp.shr(1);
            proof {
                lemma2_to64();
                assert(exp.value() == ev / 2);
                vstd::arithmetic::div_mod::lemma_fundamental_div_mod(ev as int, 2);
                assert(ev2 == 2 * (ev / 2));
            }
            let sqr = base.sq();
            proof {
                lemma_value_bound(modulus.chunks@);
                lemma_bound_product(base.value(), base.value(), m, lm);
                lemma_len_from_value(sqr.chunks@, 2 * lm);
            }
            base = match sqr.rem(modulus) {
                Ok(x) => x,
                Err(_) => {
                    proof {
                        assert(false);
                    }
                    vstd::pervasive::unreached()
                },
            };
            proof {
                lemma_mod_bound((bv * bv) as int, m as int);
                // Rebase the remaining even exponent on the square.
                lemma_pow_nat_square(bv, ev / 2);
                lemma_pow_nat_mod(bv * bv, ev / 2, m);
                lemma_mul_mod_noop_general(rv2 as int, pow_nat(bv * bv, ev / 2) as int, m as int);
                lemma_mul_mod_noop_general(
                    rv2 as int,
                    pow_nat(base.value(), ev / 2) as int,
                    m as int,
                );
            }
        }
        proof {
            assert(pow_nat(base.value(), 0) == 1);
            assert(result.value() * 1 == result.value()) by (nonlinear_arith);
            lemma_small_mod(result.value(), m);
        }
        Ok(result)
    }

    /// Euclidean greatest common divisor, iterated so that stack use does
    /// not depend on the operands.
    pub fn gcd(a: BigInt, b: BigInt) -> (r: BigInt)
        requires
            a.wf(),
            b.wf(),
            64 * a.chunks@.len() <= usize::MAX,
            64 * b.chunks@.len() <= usize::MAX,
        ensures
            r.wf(),
            r.value() == gcd_nat(a.value(), b.value()),
    {
        broadcast use lemma_pow2_pos;

        let mut x = a;
        let mut y = b;
        while !x.is_zero()
            invariant
                x.wf(),
                y.wf(),
                64 * x.chunks@.len() <= usize::MAX,
                64 * y.chunks@.len() <= usize::MAX,
                gcd_nat(x.value(), y.value()) == gcd_nat(a.value(), b.value()),
            decreases x.value(),
        {
            let ghost xv = x.value();
            let ghost yv = y.value();
            let t = match y.rem(&x) {
                Ok(m) => m,
                Err(_) => {
                    proof {
                        assert(false);
                    }
                    vstd::pervasive::unreached()
                },
            };
            proof {
                lemma_mod_bound(yv as int, xv as int);
                crate::model::lemma_value_bound(x.chunks@);
                lemma_len_from_value(t.chunks@, x.chunks@.len());
            }
            y = x;
            x = t;
        }
        y
    }
}

/// The product of two values below the modulus fits under the weight of
/// twice the modulus's chunk count.
proof fn lemma_bound_product(x: nat, y: nat, m: nat, lm: nat)
    requires
        lm >= 1,
        x < m,
        y < m,
        m < pow2(64 * lm),
    ensures
        x * y < pow2(64 * (2 * lm)),
{
    broadcast use lemma_pow2_pos;

    vstd::arithmetic::power2::lemma_pow2_adds(64 * lm, 64 * lm);
    assert(64 * lm + 64 * lm == 64 * (2 * lm));
    assert(x * y < pow2(64 * lm) * pow2(64 * lm)) by (nonlinear_arith)
        requires
            x < pow2(64 * lm),
            y < pow2(64 * lm),
    ;
}

} // verus!
