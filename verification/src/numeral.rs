//! The meaning of numeral strings: digit alphabets, digit values, the
//! value of a digit string in a radix, and the digit string of a value.
//! Parser and formatter are both specified against these functions.

use vstd::arithmetic::div_mod::lemma_fundamental_div_mod;
use vstd::prelude::*;

verus! {

/// A binary digit.
pub open spec fn is_bin_digit(c: char) -> bool {
    c == '0' || c == '1'
}

/// A decimal digit.
pub open spec fn is_dec_digit(c: char) -> bool {
    '0' <= c && c <= '9'
}

/// A hexadecimal digit, either case.
pub open spec fn is_hex_digit(c: char) -> bool {
    is_dec_digit(c) || ('a' <= c && c <= 'f') || ('A' <= c && c <= 'F')
}

/// The numeric value of a digit character.
pub open spec fn digit_val(c: char) -> nat {
    if is_dec_digit(c) {
        (c as u32 - '0' as u32) as nat
    } else if 'a' <= c && c <= 'f' {
        (c as u32 - 'a' as u32 + 10) as nat
    } else if 'A' <= c && c <= 'F' {
        (c as u32 - 'A' as u32 + 10) as nat
    } else {
        0
    }
}

/// A digit run is valid for a base when every character is a digit of
/// that base or an underscore separator.
pub open spec fn valid_run(s: Seq<char>, radix: nat) -> bool {
    forall|i: int|
        0 <= i < s.len() ==> (s[i] == '_' || (radix == 2 && is_bin_digit(s[i])) || (radix == 10
            && is_dec_digit(s[i])) || (radix == 16 && is_hex_digit(s[i])))
}

/// The digit characters of a run, with the underscore separators
/// dropped.
pub open spec fn digits_of(s: Seq<char>) -> Seq<char>
    decreases s.len(),
{
    if s.len() == 0 {
        Seq::<char>::empty()
    } else if s.last() == '_' {
        digits_of(s.drop_last())
    } else {
        digits_of(s.drop_last()).push(s.last())
    }
}

/// The value of a digit string, folded most-significant-first.
pub open spec fn num_value(ds: Seq<char>, radix: nat) -> nat
    decreases ds.len(),
{
    if ds.len() == 0 {
        0
    } else {
        num_value(ds.drop_last(), radix) * radix + digit_val(ds.last())
    }
}

/// The digit character of a value below sixteen.
pub open spec fn digit_char(d: nat, upper: bool) -> char {
    if d == 0 {
        '0'
    } else if d == 1 {
        '1'
    } else if d == 2 {
        '2'
    } else if d == 3 {
        '3'
    } else if d == 4 {
        '4'
    } else if d == 5 {
        '5'
    } else if d == 6 {
        '6'
    } else if d == 7 {
        '7'
    } else if d == 8 {
        '8'
    } else if d == 9 {
        '9'
    } else if d == 10 {
        if upper {
            'A'
        } else {
            'a'
        }
    } else if d == 11 {
        if upper {
            'B'
        } else {
            'b'
        }
    } else if d == 12 {
        if upper {
            'C'
        } else {
            'c'
        }
    } else if d == 13 {
        if upper {
            'D'
        } else {
            'd'
        }
    } else if d == 14 {
        if upper {
            'E'
        } else {
            'e'
        }
    } else if d == 15 {
        if upper {
            'F'
        } else {
            'f'
        }
    } else {
        '0'
    }
}

/// The digit string of a value in a radix, most significant digit
/// first and without leading zeros; zero is the single digit `0`.
pub open spec fn radix_digits_of(n: nat, radix: nat, upper: bool) -> Seq<char>
    decreases n,
    when radix >= 2
    via radix_digits_of_dec
{
    if n < radix {
        seq![digit_char(n, upper)]
    } else {
        radix_digits_of(n / radix, radix, upper).push(digit_char(n % radix, upper))
    }
}

#[via_fn]
proof fn radix_digits_of_dec(n: nat, radix: nat, upper: bool) {
    if radix >= 2 && n >= radix {
        vstd::arithmetic::div_mod::lemma_div_decreases(n as int, radix as int);
    }
}

/// A digit character and its value invert each other.
pub proof fn lemma_digit_roundtrip(d: nat, upper: bool)
    requires
        d < 16,
    ensures
        digit_val(digit_char(d, upper)) == d,
        is_hex_digit(digit_char(d, upper)),
        d < 10 ==> is_dec_digit(digit_char(d, upper)),
        d < 2 ==> is_bin_digit(digit_char(d, upper)),
        digit_char(d, upper) != '_',
{
}

/// The value of two concatenated digit runs.
pub proof fn lemma_num_value_concat(x: Seq<char>, y: Seq<char>, radix: nat)
    ensures
        num_value(x + y, radix) == num_value(x, radix) * crate::power::pow_nat(radix, y.len())
            + num_value(y, radix),
    decreases y.len(),
{
    if y.len() == 0 {
        assert(x + y =~= x);
        assert(crate::power::pow_nat(radix, 0) == 1);
        assert(num_value(x, radix) * 1 == num_value(x, radix)) by (nonlinear_arith);
    } else {
        assert((x + y).drop_last() =~= x + y.drop_last());
        assert((x + y).last() == y.last());
        lemma_num_value_concat(x, y.drop_last(), radix);
        let nx = num_value(x, radix);
        let nyd = num_value(y.drop_last(), radix);
        let p = crate::power::pow_nat(radix, (y.len() - 1) as nat);
        assert(crate::power::pow_nat(radix, y.len()) == radix * p);
        assert((nx * p + nyd) * radix == nx * (radix * p) + nyd * radix) by (nonlinear_arith);
    }
}

/// Splitting off the digits above the low `k`: a digit string is its
/// prefix weighted by the radix power of the suffix length, plus the
/// suffix.
pub proof fn lemma_num_value_split(ds: Seq<char>, k: int, radix: nat)
    requires
        0 <= k <= ds.len(),
    ensures
        num_value(ds, radix) == num_value(ds.take(k), radix) * crate::power::pow_nat(
            radix,
            (ds.len() - k) as nat,
        ) + num_value(ds.skip(k), radix),
{
    assert(ds =~= ds.take(k) + ds.skip(k));
    lemma_num_value_concat(ds.take(k), ds.skip(k), radix);
}

/// Dropped separators distribute over prepending one character.
pub proof fn lemma_digits_of_cons(c: char, s: Seq<char>)
    ensures
        digits_of(seq![c] + s) == if c == '_' {
            digits_of(s)
        } else {
            seq![c] + digits_of(s)
        },
    decreases s.len(),
{
    if s.len() == 0 {
        reveal_with_fuel(digits_of, 2);
        assert(seq![c] + s =~= seq![c]);
        assert(seq![c].drop_last() =~= Seq::<char>::empty());
        if c != '_' {
            assert(seq![c] + digits_of(s) =~= Seq::<char>::empty().push(c));
        }
    } else {
        assert((seq![c] + s).drop_last() =~= seq![c] + s.drop_last());
        assert((seq![c] + s).last() == s.last());
        lemma_digits_of_cons(c, s.drop_last());
        if s.last() == '_' {
            assert(digits_of(seq![c] + s) == digits_of(seq![c] + s.drop_last()));
        } else {
            if c != '_' {
                assert(digits_of(seq![c] + s) == digits_of(seq![c] + s.drop_last()).push(s.last()));
                assert((seq![c] + digits_of(s.drop_last())).push(s.last()) =~= seq![c] + digits_of(
                    s.drop_last(),
                ).push(s.last()));
                assert(digits_of(s) == digits_of(s.drop_last()).push(s.last()));
            } else {
                assert(digits_of(seq![c] + s) == digits_of(seq![c] + s.drop_last()).push(s.last()));
            }
        }
    }
}

/// Dropping separators never lengthens a run.
pub proof fn lemma_digits_len(s: Seq<char>)
    ensures
        digits_of(s).len() <= s.len(),
    decreases s.len(),
{
    if s.len() > 0 {
        lemma_digits_len(s.drop_last());
    }
}

/// On a run that is all digits, dropping separators changes nothing.
pub proof fn lemma_digits_of_pure(s: Seq<char>)
    requires
        forall|i: int| 0 <= i < s.len() ==> s[i] != '_',
    ensures
        digits_of(s) == s,
    decreases s.len(),
{
    if s.len() > 0 {
        lemma_digits_of_pure(s.drop_last());
        assert(digits_of(s) =~= s);
    }
}

/// Every character that the formatter emits is a digit, never a
/// separator, and fits the base.
pub proof fn lemma_radix_digits_are_digits(n: nat, radix: nat, upper: bool)
    requires
        radix == 2 || radix == 10 || radix == 16,
    ensures
        forall|i: int|
            0 <= i < radix_digits_of(n, radix, upper).len() ==> (#[trigger] radix_digits_of(
                n,
                radix,
                upper,
            )[i] != '_' && digit_val(radix_digits_of(n, radix, upper)[i]) < radix && (radix == 2
                ==> is_bin_digit(radix_digits_of(n, radix, upper)[i])) && (radix == 10
                ==> is_dec_digit(radix_digits_of(n, radix, upper)[i])) && (radix == 16
                ==> is_hex_digit(radix_digits_of(n, radix, upper)[i]))),
    decreases n,
{
    let ds = radix_digits_of(n, radix, upper);
    if n < radix {
        lemma_digit_roundtrip(n, upper);
        assert(forall|i: int| 0 <= i < ds.len() ==> ds[i] == digit_char(n, upper));
    } else {
        lemma_radix_digits_are_digits(n / radix, radix, upper);
        lemma_digit_roundtrip(n % radix, upper);
        let prefix = radix_digits_of(n / radix, radix, upper);
        assert forall|i: int| 0 <= i < ds.len() implies (ds[i] != '_' && digit_val(ds[i]) < radix
            && (radix == 2 ==> is_bin_digit(ds[i])) && (radix == 10 ==> is_dec_digit(ds[i])) && (
        radix == 16 ==> is_hex_digit(ds[i]))) by {
            if i < ds.len() - 1 {
                assert(ds[i] == prefix[i]);
            } else {
                assert(ds[i] == digit_char(n % radix, upper));
            }
        }
    }
}

/// A power of a power of two is a power of two.
pub proof fn lemma_pow_nat_pow2(w: nat, k: nat)
    ensures
        crate::power::pow_nat(vstd::arithmetic::power2::pow2(w), k)
            == vstd::arithmetic::power2::pow2(w * k),
    decreases k,
{
    if k == 0 {
        vstd::arithmetic::power2::lemma2_to64();
    } else {
        lemma_pow_nat_pow2(w, (k - 1) as nat);
        vstd::arithmetic::power2::lemma_pow2_adds(w, w * (k - 1) as nat);
        assert(w + w * (k - 1) as nat == w * k) by (nonlinear_arith)
            requires
                k >= 1,
        ;
    }
}

/// Parsing the formatter's output gives the value back.
pub proof fn lemma_format_parse_roundtrip(n: nat, radix: nat, upper: bool)
    requires
        radix == 2 || radix == 10 || radix == 16,
    ensures
        num_value(radix_digits_of(n, radix, upper), radix) == n,
    decreases n,
{
    let ds = radix_digits_of(n, radix, upper);
    if n < radix {
        lemma_digit_roundtrip(n, upper);
        assert(ds.drop_last() =~= Seq::<char>::empty());
        assert(num_value(Seq::<char>::empty(), radix) == 0);
        assert(ds.last() == digit_char(n, upper));
        assert(0 * radix == 0) by (nonlinear_arith);
    } else {
        lemma_format_parse_roundtrip(n / radix, radix, upper);
        lemma_digit_roundtrip(n % radix, upper);
        assert(ds.drop_last() =~= radix_digits_of(n / radix, radix, upper));
        assert(ds.last() == digit_char(n % radix, upper));
        lemma_fundamental_div_mod(n as int, radix as int);
        assert((n / radix) * radix == radix * (n / radix)) by (nonlinear_arith);
    }
}

} // verus!
