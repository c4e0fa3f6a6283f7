//! The library's general laws, stated over the same spec functions that
//! the operations' contracts use and proved once and for all: round
//! trips between parser and formatter, algebraic identities of the
//! arithmetic, and the defining equations of the greatest common divisor.

use crate::big_int::BigInt;
use crate::model::lemma_unique_repr;
use crate::numeral::{
    digits_of, lemma_digits_of_pure, lemma_format_parse_roundtrip, lemma_radix_digits_are_digits,
    num_value, radix_digits_of, valid_run,
};
use crate::power::{gcd_nat, pow_nat};
use vstd::arithmetic::div_mod::{
    lemma_fundamental_div_mod, lemma_fundamental_div_mod_converse, lemma_mod_bound,
    lemma_small_mod,
};
use vstd::arithmetic::mul::lemma_mul_is_commutative;
use vstd::arithmetic::power2::{lemma_pow2_pos, pow2};
use vstd::prelude::*;

verus! {

/// The formatter's output is owed a successful parse: every digit string
/// it emits is a valid run of its base, and reading that run back gives
/// the value it came from.
pub proof fn lemma_format_output_parses(n: nat, radix: nat, upper: bool)
    requires
        radix == 2 || radix == 10 || radix == 16,
    ensures
        valid_run(radix_digits_of(n, radix, upper), radix),
        num_value(digits_of(radix_digits_of(n, radix, upper)), radix) == n,
{
    lemma_radix_digits_are_digits(n, radix, upper);
    lemma_digits_of_pure(radix_digits_of(n, radix, upper));
    lemma_format_parse_roundtrip(n, radix, upper);
}

/// Round trip: a value parsed back from its own numeral is the same
/// value, and, both being normalized, the identical chunk sequence.
pub proof fn lemma_parse_format_roundtrip(x: BigInt, y: BigInt, radix: nat, upper: bool)
    requires
        radix == 2 || radix == 10 || radix == 16,
        x.wf(),
        y.wf(),
        y.value() == num_value(digits_of(radix_digits_of(x.value(), radix, upper)), radix),
    ensures
        y.value() == x.value(),
        y.chunks@ == x.chunks@,
{
    lemma_format_output_parses(x.value(), radix, upper);
    lemma_unique_repr(y.chunks@, x.chunks@);
}

/// Addition is commutative: the two sums denote one value and, being
/// normalized, are the identical representation.
pub proof fn lemma_add_commutative(a: BigInt, b: BigInt, ab: BigInt, ba: BigInt)
    requires
        ab.wf(),
        ba.wf(),
        ab.value() == a.value() + b.value(),
        ba.value() == b.value() + a.value(),
    ensures
        ab.value() == ba.value(),
        ab.chunks@ == ba.chunks@,
{
    lemma_unique_repr(ab.chunks@, ba.chunks@);
}

/// Addition is associative.
pub proof fn lemma_add_associative(
    a: BigInt,
    b: BigInt,
    c: BigInt,
    ab_c: BigInt,
    a_bc: BigInt,
)
    requires
        ab_c.wf(),
        a_bc.wf(),
        ab_c.value() == (a.value() + b.value()) + c.value(),
        a_bc.value() == a.value() + (b.value() + c.value()),
    ensures
        ab_c.value() == a_bc.value(),
        ab_c.chunks@ == a_bc.chunks@,
{
    lemma_unique_repr(ab_c.chunks@, a_bc.chunks@);
}

/// Multiplication is commutative.
pub proof fn lemma_mul_commutative(a: BigInt, b: BigInt, ab: BigInt, ba: BigInt)
    requires
        ab.wf(),
        ba.wf(),
        ab.value() == a.value() * b.value(),
        ba.value() == b.value() * a.value(),
    ensures
        ab.value() == ba.value(),
        ab.chunks@ == ba.chunks@,
{
    lemma_mul_is_commutative(a.value() as int, b.value() as int);
    lemma_unique_repr(ab.chunks@, ba.chunks@);
}

/// Division-remainder identity: quotient times divisor plus remainder
/// restores the dividend, and the remainder lies below the divisor.
pub proof fn lemma_div_rem_identity(a: BigInt, b: BigInt, q: BigInt, r: BigInt)
    requires
        b.value() != 0,
        q.value() == a.value() / b.value(),
        r.value() == a.value() % b.value(),
    ensures
        q.value() * b.value() + r.value() == a.value(),
        r.value() < b.value(),
{
    lemma_fundamental_div_mod(a.value() as int, b.value() as int);
    lemma_mod_bound(a.value() as int, b.value() as int);
    lemma_mul_is_commutative(q.value() as int, b.value() as int);
}

/// Shift identity: shifting left and then right by the same amount
/// loses no information.
pub proof fn lemma_shift_round_trip(a: BigInt, l: BigInt, r: BigInt, k: nat)
    requires
        a.wf(),
        r.wf(),
        l.value() == a.value() * pow2(k),
        r.value() == l.value() / pow2(k),
    ensures
        r.value() == a.value(),
        r.chunks@ == a.chunks@,
{
    broadcast use lemma_pow2_pos;

    lemma_fundamental_div_mod_converse(
        l.value() as int,
        pow2(k) as int,
        a.value() as int,
        0,
    );
    lemma_unique_repr(r.chunks@, a.chunks@);
}

/// The two exponentiation paths agree: a modular power is the plain
/// power reduced by the modulus.
pub proof fn lemma_modpow_matches_pow(
    a: BigInt,
    e: u32,
    eb: BigInt,
    m: BigInt,
    p: BigInt,
    mp: BigInt,
)
    requires
        m.value() != 0,
        eb.value() == e as nat,
        p.value() == pow_nat(a.value(), e as nat),
        mp.value() == pow_nat(a.value(), eb.value()) % m.value(),
    ensures
        mp.value() == p.value() % m.value(),
{
}

/// Whether `d` divides `x`.
pub open spec fn divides(d: nat, x: nat) -> bool {
    exists|k: nat| x == #[trigger] (k * d)
}

/// A common divisor of `x` and a nonzero `y` divides `x % y`.
pub proof fn lemma_divides_mod(d: nat, x: nat, y: nat)
    requires
        y != 0,
        divides(d, x),
        divides(d, y),
    ensures
        divides(d, x % y),
{
    let kx = choose|k: nat| x == #[trigger] (k * d);
    let ky = choose|k: nat| y == #[trigger] (k * d);
    if d == 0 {
        assert(y == ky * 0) by (nonlinear_arith)
            requires
                y == ky * d,
                d == 0,
        ;
        assert(false);
    }
    lemma_fundamental_div_mod(x as int, y as int);
    let c = kx - (x / y) * ky;
    assert(c * d == x % y) by (nonlinear_arith)
        requires
            x == kx * d,
            y == ky * d,
            x % y == x - y * (x / y),
            c == kx - (x / y) * ky,
    ;
    assert(c >= 0) by (nonlinear_arith)
        requires
            c * d == x % y,
            x % y >= 0,
            d > 0,
    ;
    assert(x % y == (c as nat) * d);
}

/// A divisor of `y` and of `x % y` divides `x` itself.
pub proof fn lemma_divides_combine(d: nat, x: nat, y: nat)
    requires
        y != 0,
        divides(d, y),
        divides(d, x % y),
    ensures
        divides(d, x),
{
    let ky = choose|k: nat| y == #[trigger] (k * d);
    let kr = choose|k: nat| x % y == #[trigger] (k * d);
    lemma_fundamental_div_mod(x as int, y as int);
    let c = (x / y) * ky + kr;
    assert(c * d == x) by (nonlinear_arith)
        requires
            y == ky * d,
            x % y == kr * d,
            x == y * (x / y) + x % y,
            c == (x / y) * ky + kr,
    ;
    assert(c >= 0) by (nonlinear_arith)
        requires
            x / y >= 0,
            ky >= 0,
            kr >= 0,
            c == (x / y) * ky + kr,
    ;
    assert(x == (c as nat) * d);
}

/// The gcd divides both its arguments.
pub proof fn lemma_gcd_divides(a: nat, b: nat)
    ensures
        divides(gcd_nat(a, b), a),
        divides(gcd_nat(a, b), b),
    decreases a,
{
    if a == 0 {
        assert(a == 0 * gcd_nat(a, b)) by (nonlinear_arith)
            requires
                a == 0,
        ;
        assert(b == 1 * b) by (nonlinear_arith);
    } else {
        lemma_gcd_divides(b % a, a);
        lemma_divides_combine(gcd_nat(b % a, a), b, a);
    }
}

/// Every common divisor of the arguments divides the gcd.
pub proof fn lemma_gcd_greatest(a: nat, b: nat, d: nat)
    requires
        divides(d, a),
        divides(d, b),
    ensures
        divides(d, gcd_nat(a, b)),
    decreases a,
{
    if a != 0 {
        lemma_divides_mod(d, b, a);
        lemma_gcd_greatest(b % a, a, d);
    }
}

/// Two naturals that divide each other are equal.
pub proof fn lemma_divides_antisymmetric(x: nat, y: nat)
    requires
        divides(x, y),
        divides(y, x),
    ensures
        x == y,
{
    let k = choose|k: nat| y == #[trigger] (k * x);
    let m = choose|m: nat| x == #[trigger] (m * y);
    if x == 0 {
        assert(y == k * 0) by (nonlinear_arith)
            requires
                y == k * x,
                x == 0,
        ;
    } else {
        assert(x == y) by (nonlinear_arith)
            requires
                y == k * x,
                x == m * y,
                x != 0,
        ;
    }
}

/// The gcd of anything and zero is that thing.
pub proof fn lemma_gcd_with_zero(a: nat)
    ensures
        gcd_nat(a, 0) == a,
{
    reveal_with_fuel(gcd_nat, 2);
    if a != 0 {
        lemma_small_mod(0, a);
    }
}

/// The Euclidean step: for a nonzero second argument, the gcd is the
/// gcd of the divisor and the remainder.
pub proof fn lemma_gcd_step(a: nat, b: nat)
    requires
        b != 0,
    ensures
        gcd_nat(a, b) == gcd_nat(b, a % b),
{
    let g1 = gcd_nat(a, b);
    let g2 = gcd_nat(b, a % b);
    lemma_gcd_divides(a, b);
    lemma_divides_mod(g1, a, b);
    lemma_gcd_greatest(b, a % b, g1);
    lemma_gcd_divides(b, a % b);
    lemma_divides_combine(g2, a, b);
    lemma_gcd_greatest(a, b, g2);
    lemma_divides_antisymmetric(g1, g2);
}

} // verus!
