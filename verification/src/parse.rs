//! Parsing numeral strings: `0b` binary and `0x` hexadecimal runs are
//! packed into chunk-sized groups from the least significant end;
//! decimal runs are folded digit by digit through multiply-and-add.

use crate::big_int::{Base, BigInt, BigIntError};
use crate::model::{chunks_value, lemma_value_empty, lemma_value_snoc};
use crate::numeral::{
    digit_val, digits_of, is_bin_digit, is_dec_digit, is_hex_digit, lemma_digits_len,
    lemma_digits_of_cons, lemma_num_value_concat, lemma_num_value_split, lemma_pow_nat_pow2,
    num_value, valid_run,
};
use vstd::arithmetic::power2::{lemma2_to64, lemma_pow2_adds, lemma_pow2_pos, pow2};
use vstd::bits::{lemma_u64_pow2_no_overflow, lemma_u64_shl_is_mul};
use vstd::prelude::*;
use vstd::string::StrSliceExecFns;

verus! {

impl BigInt {
    /// The value of one hexadecimal digit character.
    pub fn hex_char(c: char) -> (r: u64)
        requires
            is_hex_digit(c),
        ensures
            r as nat == digit_val(c),
            r < 16,
    {
        let u = c as u32;
        if u >= 48 && u <= 57 {
            (u - 48) as u64
        } else if u >= 97 && u <= 102 {
            (u - 97 + 10) as u64
        } else {
            (u - 65 + 10) as u64
        }
    }

    /// Packs a validated binary digit run into chunks, one bit per
    /// character, least significant group first.
    pub fn bin_parse(bit_str: &str) -> (r: Vec<u64>)
        requires
            valid_run(bit_str@, 2),
        ensures
            chunks_value(r@) == num_value(digits_of(bit_str@), 2),
    {
        proof {
            lemma2_to64();
        }
        pack_digits(bit_str, 1)
    }

    /// Packs a validated hexadecimal digit run into chunks, four bits
    /// per character, least significant group first.
    pub fn hex_parse(hex_str: &str) -> (r: Vec<u64>)
        requires
            valid_run(hex_str@, 16),
        ensures
            chunks_value(r@) == num_value(digits_of(hex_str@), 16),
    {
        proof {
            lemma2_to64();
        }
        pack_digits(hex_str, 4)
    }

    /// Folds a validated decimal digit run left to right:
    /// `acc = acc * 10 + digit`.
    pub fn dec_parse(dec_str: &str) -> (r: BigInt)
        requires
            valid_run(dec_str@, 10),
        ensures
            r.wf(),
            r.value() == num_value(digits_of(dec_str@), 10),
    {
        let s = dec_str;
        let n = s.unicode_len();
        let ten_val = crate::big_int::ten();
        let mut acc = crate::big_int::zero();
        let mut i: usize = 0;
        proof {
            assert(s@.take(0) =~= Seq::<char>::empty());
        }
        while i < n
            invariant
                i <= n,
                n == s@.len(),
                valid_run(s@, 10),
                ten_val.wf(),
                ten_val.value() == 10,
                acc.wf(),
                acc.value() == num_value(digits_of(s@.take(i as int)), 10),
            decreases n - i,
        {
            let c = s.get_char(i);
            proof {
                assert(s@.take(i + 1).drop_last() =~= s@.take(i as int));
                assert(s@.take(i + 1).last() == c);
            }
            if c != '_' {
                let d = Self::hex_char(c);
                let ghost dsold = digits_of(s@.take(i as int));
                proof {
                    assert(digits_of(s@.take(i + 1)) == dsold.push(c));
                    assert(dsold.push(c).drop_last() =~= dsold);
                    assert(dsold.push(c).last() == c);
                }
                acc = acc.mul(&ten_val).add(&BigInt::from(d));
            }
            i = i + 1;
        }
        proof {
            assert(s@.take(n as int) =~= s@);
        }
        acc
    }

    /// Parses a numeral string: `0b` introduces binary, `0x` introduces
    /// hexadecimal, anything else is read as decimal. Underscores in the
    /// digit run are ignored; any other character outside the base's
    /// alphabet is an error, and nothing is partially computed.
    pub fn try_from(value: &str) -> (r: Result<BigInt, BigIntError>)
        ensures
            ({
                let s = value@;
                if s.len() >= 2 && s[0] == '0' && s[1] == 'b' {
                    &&& (valid_run(s.skip(2), 2) <==> r is Ok)
                    &&& (r matches Ok(x) ==> x.wf() && x.value() == num_value(
                        digits_of(s.skip(2)),
                        2,
                    ))
                    &&& (r is Err ==> r == Err::<BigInt, BigIntError>(
                        BigIntError::InvalidNumeral(Base::Binary),
                    ))
                } else if s.len() >= 2 && s[0] == '0' && s[1] == 'x' {
                    &&& (valid_run(s.skip(2), 16) <==> r is Ok)
                    &&& (r matches Ok(x) ==> x.wf() && x.value() == num_value(
                        digits_of(s.skip(2)),
                        16,
                    ))
                    &&& (r is Err ==> r == Err::<BigInt, BigIntError>(
                        BigIntError::InvalidNumeral(Base::Hex),
                    ))
                } else {
                    &&& (valid_run(s, 10) <==> r is Ok)
                    &&& (r matches Ok(x) ==> x.wf() && x.value() == num_value(digits_of(s), 10))
                    &&& (r is Err ==> r == Err::<BigInt, BigIntError>(
                        BigIntError::InvalidNumeral(Base::Decimal),
                    ))
                }
            }),
    {
        let n = value.unicode_len();
        if n >= 2 && value.get_char(0) == '0' && value.get_char(1) == 'b' {
            let body = value.substring_char(2, n);
            proof {
                assert(body@ =~= value@.skip(2));
            }
            if !check_run(body, 2) {
                return Err(BigIntError::InvalidNumeral(Base::Binary));
            }
            let mut chunks = Self::bin_parse(body);
            if chunks.len() == 0 {
                proof {
                    assert(chunks@ =~= Seq::<u64>::empty());
                    lemma_value_empty();
                }
                chunks.push(0);
                proof {
                    assert(chunks@ =~= seq![0u64]);
                    crate::model::lemma_value_single(0);
                }
            }
            let mut out = BigInt { chunks };
            out.trim();
            Ok(out)
        } else if n >= 2 && value.get_char(0) == '0' && value.get_char(1) == 'x' {
            let body = value.substring_char(2, n);
            proof {
                assert(body@ =~= value@.skip(2));
            }
            if !check_run(body, 16) {
                return Err(BigIntError::InvalidNumeral(Base::Hex));
            }
            let mut chunks = Self::hex_parse(body);
            if chunks.len() == 0 {
                proof {
                    assert(chunks@ =~= Seq::<u64>::empty());
                    lemma_value_empty();
                }
                chunks.push(0);
                proof {
                    assert(chunks@ =~= seq![0u64]);
                    crate::model::lemma_value_single(0);
                }
            }
            let mut out = BigInt { chunks };
            out.trim();
            Ok(out)
        } else {
            if !check_run(value, 10) {
                return Err(BigIntError::InvalidNumeral(Base::Decimal));
            }
            Ok(Self::dec_parse(value))
        }
    }
}

/// Checks every character of a digit run against the base's alphabet.
fn check_run(s: &str, radix: u64) -> (r: bool)
    requires
        radix == 2 || radix == 10 || radix == 16,
    ensures
        r == valid_run(s@, radix as nat),
{
    let n = s.unicode_len();
    let mut i: usize = 0;
    while i < n
        invariant
            i <= n,
            n == s@.len(),
            radix == 2 || radix == 10 || radix == 16,
            forall|t: int|
                0 <= t < i ==> (s@[t] == '_' || (radix == 2 && is_bin_digit(s@[t])) || (radix == 10
                    && is_dec_digit(s@[t])) || (radix == 16 && is_hex_digit(s@[t]))),
        decreases n - i,
    {
        let c = s.get_char(i);
        let ok = if c == '_' {
            true
        } else if radix == 2 {
            c == '0' || c == '1'
        } else if radix == 10 {
            c >= '0' && c <= '9'
        } else {
            (c >= '0' && c <= '9') || (c >= 'a' && c <= 'f') || (c >= 'A' && c <= 'F')
        };
        if !ok {
            return false;
        }
        i = i + 1;
    }
    true
}

/// Packs a digit run into 64-bit chunks from the least significant end,
/// `w` bits per digit; the most significant group may be short.
#[verifier::rlimit(100)]
fn pack_digits(s: &str, w: u64) -> (r: Vec<u64>)
    requires
        w == 1 || w == 4,
        valid_run(s@, pow2(w as nat)),
    ensures
        chunks_value(r@) == num_value(digits_of(s@), pow2(w as nat)),
{
    broadcast use lemma_pow2_pos;
    broadcast use vstd::arithmetic::mul::lemma_mul_by_zero_is_zero;

    let ghost radix: nat = pow2(w as nat);
    let dpc: usize = if w == 1 {
        64
    } else {
        16
    };
    proof {
        lemma2_to64();
        assert(w as nat * dpc as nat == 64);
    }
    let n = s.unicode_len();
    let mut chunks: Vec<u64> = Vec::new();
    let mut acc: u64 = 0;
    let mut cnt: usize = 0;
    let mut i: usize = n;
    proof {
        assert(s@.skip(n as int) =~= Seq::<char>::empty());
        lemma_value_empty();
        assert(digits_of(Seq::<char>::empty()) =~= Seq::<char>::empty());
        assert(s@.skip(n as int).len() == 0);
    }
    while i > 0
        invariant
            i <= n,
            n == s@.len(),
            w == 1 || w == 4,
            radix == pow2(w as nat),
            w as nat * dpc as nat == 64,
            valid_run(s@, radix),
            cnt == digits_of(s@.skip(i as int)).len(),
            chunks@.len() == cnt / dpc,
            (acc as nat) < pow2((w * ((cnt % dpc) as u64)) as nat),
            acc as nat == num_value(digits_of(s@.skip(i as int)).take((cnt % dpc) as int), radix),
            chunks_value(chunks@) == num_value(
                digits_of(s@.skip(i as int)).skip((cnt % dpc) as int),
                radix,
            ),
        decreases i,
    {
        i = i - 1;
        let c = s.get_char(i);
        let ghost old_ds = digits_of(s@.skip(i + 1));
        proof {
            assert(s@.skip(i as int) =~= seq![c] + s@.skip(i + 1));
            lemma_digits_of_cons(c, s@.skip(i + 1));
        }
        if c != '_' {
            let ghost ds = digits_of(s@.skip(i as int));
            proof {
                lemma2_to64();
                assert(ds == seq![c] + old_ds);
                lemma_digits_len(s@.skip(i as int));
            }
            let d = BigInt::hex_char(c);
            let q = cnt % dpc;
            proof {
                assert(w as nat * (q as nat) + w as nat <= 64) by (nonlinear_arith)
                    requires
                        q < dpc,
                        w as nat * dpc as nat == 64,
                        w >= 1,
                ;
            }
            let sh_amt: u64 = w * (q as u64);
            proof {
                lemma2_to64();
                lemma_u64_pow2_no_overflow(sh_amt as nat);
                lemma_u64_shl_is_mul(1u64, sh_amt);
                assert(digit_val(c) < radix);
                // The shifted digit and the accumulator occupy disjoint
                // bit ranges of the chunk.
                lemma_pow2_adds(sh_amt as nat, w as nat);
                assert((d as nat) * pow2(sh_amt as nat) + (acc as nat) < pow2(
                    (sh_amt + w) as nat,
                )) by (nonlinear_arith)
                    requires
                        (d as nat) < pow2(w as nat),
                        (acc as nat) < pow2(sh_amt as nat),
                        pow2((sh_amt + w) as nat) == pow2(sh_amt as nat) * pow2(w as nat),
                ;
                assert((sh_amt + w) as nat <= 64);
                if ((sh_amt + w) as nat) < 64 {
                    vstd::arithmetic::power2::lemma_pow2_strictly_increases((sh_amt + w) as nat, 64);
                }
            }
            proof {
                assert((d as nat) * pow2(sh_amt as nat) < pow2(64)) by (nonlinear_arith)
                    requires
                        (d as nat) < pow2(w as nat),
                        pow2(sh_amt as nat) * pow2(w as nat) <= pow2(64),
                        pow2(sh_amt as nat) >= 1,
                        pow2(w as nat) >= 1,
                ;
                lemma_u64_shl_is_mul(d, sh_amt);
            }
            let shifted: u64 = d << sh_amt;
            proof {
                assert(shifted as nat == (d as nat) * pow2(sh_amt as nat));
                vstd::arithmetic::div_mod::lemma_mod_decreases(cnt as nat, dpc as nat);
                // The new digit stands above the digits gathered so far.
                assert(ds.take(q + 1) =~= seq![c] + old_ds.take(q as int));
                lemma_num_value_concat(seq![c], old_ds.take(q as int), radix);
                assert(num_value(seq![c], radix) == digit_val(c)) by {
                    reveal_with_fuel(num_value, 2);
                    assert(seq![c].drop_last() =~= Seq::<char>::empty());
                    assert(0 * radix == 0) by (nonlinear_arith);
                }
                lemma_pow_nat_pow2(w as nat, q as nat);
                assert(w as nat * q as nat == sh_amt as nat);
                assert(old_ds.take(q as int).len() == q);
                assert(ds.take(q + 1).skip(1) =~= old_ds.take(q as int));
            }
            let acc2 = acc + shifted;
            cnt = cnt + 1;
            if cnt % dpc == 0 {
                // A full chunk: push it and start the next group.
                let ghost old_chunks = chunks@;
                chunks.push(acc2);
                acc = 0;
                proof {
                    lemma_value_snoc(old_chunks, acc2);
                    assert(q + 1 == dpc);
                    lemma_num_value_split(ds, dpc as int, radix);
                    assert(ds.skip(dpc as int) =~= old_ds.skip(q as int));
                    assert(ds.take(dpc as int) =~= ds.take(q + 1));
                    lemma_pow_nat_pow2(w as nat, (ds.len() - dpc) as nat);
                    // The weight of the completed group equals the weight
                    // of the chunk position it fills.
                    let k = cnt / dpc;
                    vstd::arithmetic::div_mod::lemma_fundamental_div_mod(cnt as int, dpc as int);
                    assert(cnt == dpc * k);
                    assert(k >= 1);
                    assert((k - 1) * dpc as int + (dpc - 1) == dpc as int * k - 1)
                        by (nonlinear_arith);
                    vstd::arithmetic::div_mod::lemma_fundamental_div_mod_converse(
                        cnt - 1,
                        dpc as int,
                        k - 1,
                        dpc - 1,
                    );
                    assert(old_chunks.len() == k - 1);
                    assert(w as nat * ((ds.len() - dpc) as nat) == 64 * old_chunks.len())
                        by (nonlinear_arith)
                        requires
                            ds.len() == cnt,
                            cnt == dpc * k,
                            k >= 1,
                            old_chunks.len() == k - 1,
                            w as nat * dpc as nat == 64,
                    ;
                    assert(ds.take(0).len() == 0);
                    assert(ds.take(0) =~= Seq::<char>::empty());
                    assert(ds.skip(0) =~= ds);
                }
            } else {
                acc = acc2;
                proof {
                    assert(cnt % dpc == q + 1);
                    assert(w as nat * ((q + 1) as nat) == w as nat * (q as nat) + w as nat)
                        by (nonlinear_arith);
                    assert(ds.take((cnt % dpc) as int) =~= ds.take(q + 1));
                    assert(ds.skip((cnt % dpc) as int) =~= old_ds.skip(q as int));
                }
            }
        }
        proof {
            assert(i >= 0);
        }
    }
    proof {
        assert(s@.skip(0) =~= s@);
    }
    let ghost ds = digits_of(s@);
    if cnt % dpc != 0 {
        let ghost old_chunks = chunks@;
        chunks.push(acc);
        proof {
            lemma_value_snoc(old_chunks, acc);
            lemma_num_value_split(ds, (cnt % dpc) as int, radix);
            lemma_pow_nat_pow2(w as nat, (ds.len() - (cnt % dpc)) as nat);
            assert(w as nat * ((ds.len() - (cnt % dpc)) as nat) == 64 * old_chunks.len())
                by (nonlinear_arith)
                requires
                    ds.len() == cnt,
                    old_chunks.len() == cnt as nat / dpc as nat,
                    w as nat * dpc as nat == 64,
                    cnt >= cnt % dpc,
                    w == 1 || w == 4,
                    dpc >= 1,
            ;
        }
    } else {
        proof {
            assert(ds.take(0) =~= Seq::<char>::empty());
            assert(ds.skip(0) =~= ds);
        }
    }
    chunks
}

} // verus!
