//! Formatting values as numeral strings. Decimal digits are extracted by
//! repeated division by ten; hexadecimal and binary render the chunks
//! most significant first, the top chunk without padding and every lower
//! chunk padded to the full chunk width, so that chunk boundaries stay
//! recoverable from the string.

use crate::big_int::BigInt;
use crate::model::{chunks_value, lemma_value_single, lemma_value_top, lemma_wf_small};
use crate::numeral::{digit_char, radix_digits_of};
use crate::power::lemma_len_from_value;
use vstd::arithmetic::div_mod::{
    lemma_div_basics, lemma_div_decreases, lemma_div_denominator, lemma_fundamental_div_mod,
    lemma_fundamental_div_mod_converse, lemma_small_mod,
};
use vstd::arithmetic::power2::{lemma2_to64, lemma_pow2_adds, lemma_pow2_pos, pow2};
use vstd::bits::{lemma_u64_low_bits_mask_is_mod, lemma_u64_shr_is_div, low_bits_mask};
use vstd::prelude::*;
use vstd::string::StringExecFns;

verus! {

/// A fixed-width digit group: exactly `k` digits of `w` bits each,
/// zero-padded at the most significant end.
pub open spec fn fixed_digits(v: nat, k: nat, w: nat, upper: bool) -> Seq<char>
    decreases k,
{
    if k == 0 {
        Seq::<char>::empty()
    } else {
        fixed_digits(v / pow2(w), (k - 1) as nat, w, upper).push(digit_char(v % pow2(w), upper))
    }
}

/// The digit chars of collected digit values, least significant first,
/// read back most significant first.
pub open spec fn rev_chars(ds: Seq<u64>, upper: bool) -> Seq<char>
    decreases ds.len(),
{
    if ds.len() == 0 {
        Seq::<char>::empty()
    } else {
        rev_chars(ds.skip(1), upper) + seq![digit_char(ds[0] as nat, upper)]
    }
}

/// Collecting one more digit prepends its character to the read-back.
proof fn lemma_rev_chars_push(ds: Seq<u64>, d: u64, upper: bool)
    ensures
        rev_chars(ds.push(d), upper) == seq![digit_char(d as nat, upper)] + rev_chars(ds, upper),
    decreases ds.len(),
{
    if ds.len() == 0 {
        reveal_with_fuel(rev_chars, 2);
        assert(ds.push(d).skip(1) =~= Seq::<u64>::empty());
        assert(ds.push(d)[0] == d);
        assert(rev_chars(ds.push(d), upper) =~= seq![digit_char(d as nat, upper)] + rev_chars(
            ds,
            upper,
        ));
    } else {
        assert(ds.push(d).skip(1) =~= ds.skip(1).push(d));
        lemma_rev_chars_push(ds.skip(1), d, upper);
        assert(ds.push(d)[0] == ds[0]);
        assert((seq![digit_char(d as nat, upper)] + rev_chars(ds.skip(1), upper)) + seq![
            digit_char(ds[0] as nat, upper),
        ] =~= seq![digit_char(d as nat, upper)] + (rev_chars(ds.skip(1), upper) + seq![
            digit_char(ds[0] as nat, upper),
        ]));
    }
}

/// Padding is exact: a value split into a high part and `k` low digits
/// renders as the high part's digits followed by the padded group.
proof fn lemma_padded(h: nat, v: nat, k: nat, w: nat, upper: bool)
    requires
        h >= 1,
        w == 1 || w == 4,
        v < pow2(w * k),
    ensures
        radix_digits_of(h * pow2(w * k) + v, pow2(w), upper) == radix_digits_of(h, pow2(w), upper)
            + fixed_digits(v, k, w, upper),
    decreases k,
{
    broadcast use lemma_pow2_pos;

    lemma2_to64();
    let r = pow2(w);
    if k == 0 {
        assert(v == 0);
        assert(h * pow2(0) + 0 == h) by (nonlinear_arith)
            requires
                pow2(0) == 1,
        ;
        assert(radix_digits_of(h, r, upper) + fixed_digits(0, 0, w, upper) =~= radix_digits_of(
            h,
            r,
            upper,
        ));
    } else {
        let n = h * pow2(w * k) + v;
        lemma_pow2_adds(w, (w * k - w) as nat);
        assert(w * k - w == w * (k - 1)) by (nonlinear_arith);
        let pk1 = pow2((w * (k - 1)) as nat);
        // n is at least the radix, so the formatter recurses.
        assert(h * pow2(w * k) >= pow2(w * k)) by (nonlinear_arith)
            requires
                h >= 1,
                pow2(w * k) >= 1,
        ;
        assert(pow2(w * k) == r * pk1);
        assert(r * pk1 >= r * 1) by (nonlinear_arith)
            requires
                pk1 >= 1,
                r >= 1,
        ;
        assert(n >= r);
        // One division step peels the lowest digit of v.
        lemma_fundamental_div_mod(v as int, r as int);
        assert(n == r * (h * pk1 + v / r) + v % r) by (nonlinear_arith)
            requires
                n == h * (r * pk1) + v,
                v == r * (v / r) + v % r,
        ;
        lemma_fundamental_div_mod_converse(
            n as int,
            r as int,
            (h * pk1 + v / r) as int,
            (v % r) as int,
        );
        assert(n / r == h * pk1 + v / r);
        assert(n % r == v % r);
        vstd::arithmetic::div_mod::lemma_multiply_divide_lt(v as int, r as int, pk1 as int);
        lemma_padded(h, v / r, (k - 1) as nat, w, upper);
        assert(radix_digits_of(n, r, upper) == radix_digits_of(n / r, r, upper).push(
            digit_char(n % r, upper),
        ));
        assert((radix_digits_of(h, r, upper) + fixed_digits(v / r, (k - 1) as nat, w, upper)).push(
            digit_char(v % r, upper),
        ) =~= radix_digits_of(h, r, upper) + fixed_digits(v / r, (k - 1) as nat, w, upper).push(
            digit_char(v % r, upper),
        ));
    }
}

/// Appends the character of one digit value to the output.
fn push_digit(out: &mut String, d: u64, upper: bool)
    requires
        d < 16,
    ensures
        final(out)@ == old(out)@ + seq![digit_char(d as nat, upper)],
{
    proof {
        reveal_strlit("0");
        reveal_strlit("1");
        reveal_strlit("2");
        reveal_strlit("3");
        reveal_strlit("4");
        reveal_strlit("5");
        reveal_strlit("6");
        reveal_strlit("7");
        reveal_strlit("8");
        reveal_strlit("9");
        reveal_strlit("a");
        reveal_strlit("b");
        reveal_strlit("c");
        reveal_strlit("d");
        reveal_strlit("e");
        reveal_strlit("f");
        reveal_strlit("A");
        reveal_strlit("B");
        reveal_strlit("C");
        reveal_strlit("D");
        reveal_strlit("E");
        reveal_strlit("F");
    }
    let lit: &str = if d == 0 {
        "0"
    } else if d == 1 {
        "1"
    } else if d == 2 {
        "2"
    } else if d == 3 {
        "3"
    } else if d == 4 {
        "4"
    } else if d == 5 {
        "5"
    } else if d == 6 {
        "6"
    } else if d == 7 {
        "7"
    } else if d == 8 {
        "8"
    } else if d == 9 {
        "9"
    } else if d == 10 {
        if upper {
            "A"
        } else {
            "a"
        }
    } else if d == 11 {
        if upper {
            "B"
        } else {
            "b"
        }
    } else if d == 12 {
        if upper {
            "C"
        } else {
            "c"
        }
    } else if d == 13 {
        if upper {
            "D"
        } else {
            "d"
        }
    } else if d == 14 {
        if upper {
            "E"
        } else {
            "e"
        }
    } else {
        if upper {
            "F"
        } else {
            "f"
        }
    };
    proof {
        assert(lit@ =~= seq![digit_char(d as nat, upper)]);
    }
    out.append(lit);
}

/// Appends the digits of one machine word, most significant first and
/// without leading zeros.
fn push_u64_digits(out: &mut String, v: u64, r: u64, upper: bool)
    requires
        r == 2 || r == 10 || r == 16,
        v > 0,
    ensures
        final(out)@ == old(out)@ + radix_digits_of(v as nat, r as nat, upper),
{
    broadcast use lemma_pow2_pos;

    let mut ds: Vec<u64> = Vec::new();
    let mut cur = v;
    while cur > 0
        invariant
            r == 2 || r == 10 || r == 16,
            cur > 0 ==> radix_digits_of(v as nat, r as nat, upper) == radix_digits_of(
                cur as nat,
                r as nat,
                upper,
            ) + rev_chars(ds@, upper),
            cur == 0 ==> ds@.len() > 0 && radix_digits_of(v as nat, r as nat, upper) == rev_chars(
                ds@,
                upper,
            ),
            forall|t: int| 0 <= t < ds@.len() ==> ds@[t] < 16,
        decreases cur,
    {
        let d = cur % r;
        let next = cur / r;
        proof {
            lemma_rev_chars_push(ds@, d, upper);
            if next > 0 {
                assert(cur >= r) by {
                    if cur < r {
                        vstd::arithmetic::div_mod::lemma_basic_div(cur as int, r as int);
                    }
                }
                assert(radix_digits_of(cur as nat, r as nat, upper) == radix_digits_of(
                    next as nat,
                    r as nat,
                    upper,
                ).push(digit_char(d as nat, upper)));
                assert(radix_digits_of(next as nat, r as nat, upper).push(
                    digit_char(d as nat, upper),
                ) + rev_chars(ds@, upper) =~= radix_digits_of(next as nat, r as nat, upper) + (seq![
                    digit_char(d as nat, upper),
                ] + rev_chars(ds@, upper)));
            } else {
                vstd::arithmetic::div_mod::lemma_small_div_converse(cur as int, r as int);
                assert(cur < r);
                lemma_small_mod(cur as nat, r as nat);
                assert(radix_digits_of(cur as nat, r as nat, upper) =~= seq![
                    digit_char(d as nat, upper),
                ]);
                assert(seq![digit_char(d as nat, upper)] + rev_chars(ds@, upper) =~= rev_chars(
                    ds@.push(d),
                    upper,
                ));
            }
            lemma_div_decreases(cur as int, r as int);
        }
        ds.push(d);
        cur = next;
    }
    let m = ds.len();
    let mut k: usize = m;
    proof {
        assert(ds@.skip(m as int) =~= Seq::<u64>::empty());
    }
    while k > 0
        invariant
            k <= m,
            m == ds@.len(),
            forall|t: int| 0 <= t < ds@.len() ==> ds@[t] < 16,
            out@ == old(out)@ + rev_chars(ds@.skip(m as int), upper) + rev_chars(
                ds@.skip(k as int),
                upper,
            ),
        decreases k,
    {
        k = k - 1;
        proof {
            assert(ds@.skip(k as int)[0] == ds@[k as int]);
            assert(ds@.skip(k as int).skip(1) =~= ds@.skip(k + 1));
        }
        push_digit(out, ds[k], upper);
    }
    proof {
        assert(ds@.skip(0) =~= ds@);
        assert(rev_chars(Seq::<u64>::empty(), upper) =~= Seq::<char>::empty());
        assert(out@ =~= old(out)@ + rev_chars(ds@, upper));
    }
}

/// Appends one lower chunk, zero-padded to the full chunk width.
fn push_padded(out: &mut String, chunk: u64, w: u64, upper: bool)
    requires
        w == 1 || w == 4,
    ensures
        final(out)@ == old(out)@ + fixed_digits(chunk as nat, (64u64 / w) as nat, w as nat, upper),
{
    broadcast use lemma_pow2_pos;

    let cnt: u64 = 64 / w;
    proof {
        lemma2_to64();
        assert(chunk as nat / pow2((w * cnt) as nat) == 0) by {
            vstd::arithmetic::div_mod::lemma_basic_div(
                chunk as int,
                pow2((w * cnt) as nat) as int,
            );
        }
        assert(fixed_digits(chunk as nat / pow2((w * cnt) as nat), 0, w as nat, upper)
            =~= Seq::<char>::empty());
    }
    let mask: u64 = if w == 1 {
        1
    } else {
        0xf
    };
    let mut j: u64 = 0;
    while j < cnt
        invariant
            j <= cnt,
            w == 1 || w == 4,
            cnt == 64u64 / w,
            mask == low_bits_mask(w as nat),
            out@ == old(out)@ + fixed_digits(
                chunk as nat / pow2((w * (cnt - j)) as nat),
                j as nat,
                w as nat,
                upper,
            ),
        decreases cnt - j,
    {
        let sh: u64 = w * (cnt - 1 - j);
        let d = (chunk >> sh) & mask;
        proof {
            lemma2_to64();
            lemma_u64_shr_is_div(chunk, sh);
            lemma_u64_low_bits_mask_is_mod(chunk >> sh, w as nat);
            assert(d as nat == (chunk as nat / pow2(sh as nat)) % pow2(w as nat));
            assert((d as nat) < pow2(w as nat));
            // Stepping the prefix down by one digit width.
            lemma_pow2_adds((w * (cnt - 1 - j)) as nat, w as nat);
            assert((w * (cnt - 1 - j)) as nat + w as nat == (w * (cnt - j)) as nat)
                by (nonlinear_arith)
                requires
                    j < cnt,
            ;
            lemma_div_denominator(
                chunk as int,
                pow2((w * (cnt - 1 - j)) as nat) as int,
                pow2(w as nat) as int,
            );
            let vhi = chunk as nat / pow2((w * (cnt - j)) as nat);
            let vlo = chunk as nat / pow2(sh as nat);
            assert(vlo / pow2(w as nat) == vhi);
            assert(fixed_digits(vlo, (j + 1) as nat, w as nat, upper) == fixed_digits(
                vhi,
                j as nat,
                w as nat,
                upper,
            ).push(digit_char(vlo % pow2(w as nat), upper)));
        }
        push_digit(out, d, upper);
        proof {
            assert(out@ =~= old(out)@ + fixed_digits(
                chunk as nat / pow2((w * (cnt - (j + 1))) as nat),
                (j + 1) as nat,
                w as nat,
                upper,
            ));
        }
        j = j + 1;
    }
    proof {
        lemma2_to64();
        lemma_div_basics(chunk as int);
        assert((w * (cnt - cnt)) as nat == 0);
        assert(chunk as nat / pow2(0) == chunk as nat);
    }
}

impl BigInt {
    /// The least significant decimal digit of the value.
    pub fn digit(&self) -> (r: u64)
        requires
            self.wf(),
            64 * self.chunks@.len() <= usize::MAX,
        ensures
            r as nat == self.value() % 10,
            r < 10,
    {
        let ten_val = crate::big_int::ten();
        let rem = match self.rem(&ten_val) {
            Ok(m) => m,
            Err(_) => {
                proof {
                    assert(false);
                }
                vstd::pervasive::unreached()
            },
        };
        proof {
            lemma2_to64();
            vstd::arithmetic::div_mod::lemma_mod_bound(self.value() as int, 10);
            lemma_wf_small(rem.chunks@);
        }
        rem.chunks[0]
    }

    /// The decimal numeral of the value: digits are extracted least
    /// significant first by division by ten and emitted in reverse.
    pub fn to_decimal(&self) -> (r: String)
        requires
            self.wf(),
            64 * self.chunks@.len() <= usize::MAX,
        ensures
            r@ == radix_digits_of(self.value(), 10, false),
    {
        broadcast use lemma_pow2_pos;

        let ghost v0 = self.value();
        if self.is_zero() {
            proof {
                reveal_strlit("0");
                assert("0"@ =~= radix_digits_of(0, 10, false));
            }
            let mut out = String::new();
            out.append("0");
            proof {
                assert(out@ =~= radix_digits_of(0, 10, false));
            }
            return out;
        }
        let ghost l0 = self.chunks@.len();
        let ten_val = crate::big_int::ten();
        let mut ds: Vec<u64> = Vec::new();
        let mut cur = self.clone();
        proof {
            crate::model::lemma_value_bound(self.chunks@);
        }
        while !cur.is_zero()
            invariant
                cur.wf(),
                ten_val.wf(),
                ten_val.value() == 10,
                l0 >= 1,
                64 * l0 <= usize::MAX,
                cur.value() < pow2((64 * l0) as nat),
                cur.value() > 0 ==> radix_digits_of(v0, 10, false) == radix_digits_of(
                    cur.value(),
                    10,
                    false,
                ) + rev_chars(ds@, false),
                cur.value() == 0 ==> ds@.len() > 0 && radix_digits_of(v0, 10, false) == rev_chars(
                    ds@,
                    false,
                ),
                forall|t: int| 0 <= t < ds@.len() ==> ds@[t] < 16,
            decreases cur.value(),
        {
            proof {
                lemma_len_from_value(cur.chunks@, l0);
            }
            let ghost cv = cur.value();
            let (q, rem) = match cur.div_rem(&ten_val) {
                Ok(p) => p,
                Err(_) => {
                    proof {
                        assert(false);
                    }
                    vstd::pervasive::unreached()
                },
            };
            proof {
                lemma2_to64();
                vstd::arithmetic::div_mod::lemma_mod_bound(cv as int, 10);
                lemma_wf_small(rem.chunks@);
            }
            let d = rem.chunks[0];
            proof {
                lemma_rev_chars_push(ds@, d, false);
                if q.value() > 0 {
                    assert(cv >= 10) by {
                        if cv < 10 {
                            vstd::arithmetic::div_mod::lemma_basic_div(cv as int, 10);
                        }
                    }
                    assert(radix_digits_of(cv, 10, false) == radix_digits_of(
                        q.value(),
                        10,
                        false,
                    ).push(digit_char(cv % 10, false)));
                    assert(radix_digits_of(q.value(), 10, false).push(digit_char(cv % 10, false))
                        + rev_chars(ds@, false) =~= radix_digits_of(q.value(), 10, false) + (seq![
                        digit_char(cv % 10, false),
                    ] + rev_chars(ds@, false)));
                } else {
                    vstd::arithmetic::div_mod::lemma_small_div_converse(cv as int, 10);
                    lemma_small_mod(cv, 10);
                    assert(radix_digits_of(cv, 10, false) =~= seq![digit_char(cv % 10, false)]);
                    assert(seq![digit_char(cv % 10, false)] + rev_chars(ds@, false) =~= rev_chars(
                        ds@.push(d),
                        false,
                    ));
                }
                vstd::arithmetic::div_mod::lemma_div_is_strictly_smaller(cv as int, 10);
            }
            ds.push(d);
            cur = q;
        }
        let m = ds.len();
        let mut k: usize = m;
        let mut out = String::new();
        proof {
            assert(ds@.skip(m as int) =~= Seq::<u64>::empty());
            assert(out@ =~= Seq::<char>::empty() + rev_chars(ds@.skip(m as int), false));
        }
        while k > 0
            invariant
                k <= m,
                m == ds@.len(),
                forall|t: int| 0 <= t < ds@.len() ==> ds@[t] < 16,
                out@ == rev_chars(ds@.skip(k as int), false),
            decreases k,
        {
            k = k - 1;
            proof {
                assert(ds@.skip(k as int)[0] == ds@[k as int]);
                assert(ds@.skip(k as int).skip(1) =~= ds@.skip(k + 1));
            }
            push_digit(&mut out, ds[k], false);
            proof {
                assert(out@ =~= rev_chars(ds@.skip(k as int), false));
            }
        }
        proof {
            assert(ds@.skip(0) =~= ds@);
        }
        out
    }

    /// The lowercase hexadecimal numeral of the value.
    pub fn to_hex_lower(&self) -> (r: String)
        requires
            self.wf(),
        ensures
            r@ == radix_digits_of(self.value(), 16, false),
    {
        proof {
            lemma2_to64();
        }
        self.format_chunked(4, false)
    }

    /// The uppercase hexadecimal numeral of the value.
    pub fn to_hex_upper(&self) -> (r: String)
        requires
            self.wf(),
        ensures
            r@ == radix_digits_of(self.value(), 16, true),
    {
        proof {
            lemma2_to64();
        }
        self.format_chunked(4, true)
    }

    /// The binary numeral of the value.
    pub fn to_binary(&self) -> (r: String)
        requires
            self.wf(),
        ensures
            r@ == radix_digits_of(self.value(), 2, false),
    {
        proof {
            lemma2_to64();
        }
        self.format_chunked(1, false)
    }

    /// Emits the chunks most significant first: the top chunk without
    /// leading zeros, every lower chunk padded to the chunk width.
    fn format_chunked(&self, w: u64, upper: bool) -> (r: String)
        requires
            self.wf(),
            w == 1 || w == 4,
        ensures
            r@ == radix_digits_of(self.value(), pow2(w as nat), upper),
    {
        broadcast use lemma_pow2_pos;

        let ghost a = self.chunks@;
        proof {
            lemma2_to64();
        }
        if self.is_zero() {
            proof {
                reveal_strlit("0");
                assert("0"@ =~= radix_digits_of(0, pow2(w as nat), upper));
            }
            let mut out = String::new();
            out.append("0");
            proof {
                assert(out@ =~= radix_digits_of(0, pow2(w as nat), upper));
            }
            return out;
        }
        let n = self.chunks.len();
        let top = self.chunks[n - 1];
        proof {
            crate::big_int::lemma_zero_iff(a);
            if n == 1 {
                lemma_value_single(top);
                assert(a =~= seq![top]);
            }
            assert(top != 0);
        }
        let mut out = String::new();
        let radix_exec: u64 = if w == 1 {
            2
        } else {
            16
        };
        push_u64_digits(&mut out, top, radix_exec, upper);
        proof {
            assert(a.skip(n - 1) =~= seq![top]);
            lemma_value_single(top);
            assert(out@ =~= Seq::<char>::empty() + radix_digits_of(
                chunks_value(a.skip(n - 1)),
                pow2(w as nat),
                upper,
            ));
        }
        let mut i: usize = n - 1;
        while i > 0
            invariant
                i < n,
                n == a.len(),
                a == self.chunks@,
                self.wf(),
                w == 1 || w == 4,
                top == a.last(),
                top != 0,
                out@ == Seq::<char>::empty() + radix_digits_of(
                    chunks_value(a.skip(i as int)),
                    pow2(w as nat),
                    upper,
                ),
            decreases i,
        {
            i = i - 1;
            let chunk = self.chunks[i];
            proof {
                lemma2_to64();
                let h = chunks_value(a.skip(i + 1));
                assert(a.skip(i + 1).last() == a.last());
                lemma_value_top(a.skip(i + 1));
                assert(h >= 1);
                assert(a.skip(i as int)[0] == a[i as int]);
                assert(a.skip(i as int).skip(1) =~= a.skip(i + 1));
                assert(chunks_value(a.skip(i as int)) == chunk as nat + pow2(64) * h);
                if w == 1 {
                    assert(64u64 / 1u64 == 64);
                } else {
                    assert(64u64 / 4u64 == 16);
                }
                assert((w * (64u64 / w)) as nat == 64);
                lemma_padded(h, chunk as nat, (64u64 / w) as nat, w as nat, upper);
                assert(h * pow2(64) == pow2(64) * h) by (nonlinear_arith);
            }
            push_padded(&mut out, chunk, w, upper);
            proof {
                assert(out@ =~= Seq::<char>::empty() + (radix_digits_of(
                    chunks_value(a.skip(i + 1)),
                    pow2(w as nat),
                    upper,
                ) + fixed_digits(chunk as nat, (64u64 / w) as nat, w as nat, upper)));
            }
        }
        proof {
            assert(a.skip(0) =~= a);
            assert(out@ =~= radix_digits_of(self.value(), pow2(w as nat), upper));
        }
        out
    }
}

} // verus!
