//! Mathematical model of the chunked representation: the value that a
//! little-endian sequence of 64-bit chunks denotes, and the lemmas that
//! relate that value to sequence operations.

use vstd::arithmetic::div_mod::*;
use vstd::arithmetic::mul::*;
use vstd::arithmetic::power2::*;
use vstd::prelude::*;

verus! {

/// The value denoted by a little-endian chunk sequence:
/// `s[0] + 2^64 * (s[1] + 2^64 * (...))`.
pub open spec fn chunks_value(s: Seq<u64>) -> nat
    decreases s.len(),
{
    if s.len() == 0 {
        0
    } else {
        s[0] as nat + pow2(64) * chunks_value(s.skip(1))
    }
}

/// A chunk sequence is normalized: at least one chunk, and no trailing
/// (most-significant) zero chunk except in the one-chunk form of zero.
pub open spec fn wf_seq(s: Seq<u64>) -> bool {
    &&& s.len() >= 1
    &&& (s.len() > 1 ==> s.last() != 0)
}

/// The empty sequence denotes zero.
pub proof fn lemma_value_empty()
    ensures
        chunks_value(Seq::<u64>::empty()) == 0,
{
}

/// A single chunk denotes itself.
pub proof fn lemma_value_single(x: u64)
    ensures
        chunks_value(seq![x]) == x,
{
    let s = seq![x];
    assert(s.len() == 1);
    assert(s[0] == x);
    assert(s.skip(1) =~= Seq::<u64>::empty());
    assert(chunks_value(s.skip(1)) == 0) by {
        lemma_value_empty();
    }
    assert(chunks_value(s) == s[0] as nat + pow2(64) * chunks_value(s.skip(1)));
    assert(pow2(64) * 0 == 0) by (nonlinear_arith);
}

/// Appending a most-significant chunk adds its value at the next weight.
pub proof fn lemma_value_snoc(s: Seq<u64>, x: u64)
    ensures
        chunks_value(s.push(x)) == chunks_value(s) + x * pow2(64 * s.len()),
    decreases s.len(),
{
    broadcast use lemma_pow2_pos;

    if s.len() == 0 {
        assert(s.push(x).skip(1) =~= Seq::<u64>::empty());
        assert(s.push(x)[0] == x);
        lemma_value_empty();
        lemma2_to64();
        assert(pow2(0) == 1);
        assert(x * pow2(0) == x) by (nonlinear_arith)
            requires
                pow2(0) == 1,
        ;
    } else {
        assert(s.push(x).skip(1) =~= s.skip(1).push(x));
        lemma_value_snoc(s.skip(1), x);
        let b = pow2(64);
        let p = pow2((64 * (s.len() - 1)) as nat);
        assert(chunks_value(s.push(x)) == s[0] as nat + b * (chunks_value(s.skip(1)) + x * p));
        assert(b * (chunks_value(s.skip(1)) + x * p) == b * chunks_value(s.skip(1)) + b * (x
            * p)) by (nonlinear_arith);
        assert(b * (x * p) == x * (b * p)) by (nonlinear_arith);
        lemma_pow2_adds(64, (64 * (s.len() - 1)) as nat);
        assert(64 + 64 * (s.len() - 1) == 64 * s.len());
    }
}

/// The value of a chunk sequence is below `2^(64 * len)`.
pub proof fn lemma_value_bound(s: Seq<u64>)
    ensures
        chunks_value(s) < pow2(64 * s.len()),
    decreases s.len(),
{
    broadcast use lemma_pow2_pos;

    if s.len() == 0 {
        lemma2_to64();
    } else {
        lemma_value_bound(s.skip(1));
        let b = pow2(64);
        let p = pow2((64 * (s.len() - 1)) as nat);
        assert(chunks_value(s.skip(1)) + 1 <= p);
        assert(b * chunks_value(s.skip(1)) + b <= b * p) by (nonlinear_arith)
            requires
                chunks_value(s.skip(1)) + 1 <= p,
                b > 0,
        ;
        lemma_pow2_adds(64, (64 * (s.len() - 1)) as nat);
        lemma2_to64();
        assert(s[0] < b);
        assert(chunks_value(s) < b * p);
        assert(64 + 64 * (s.len() - 1) == 64 * s.len());
    }
}

/// Taking one more chunk adds that chunk's value at its weight.
pub proof fn lemma_value_take_succ(s: Seq<u64>, i: int)
    requires
        0 <= i < s.len(),
    ensures
        chunks_value(s.take(i + 1)) == chunks_value(s.take(i)) + s[i] * pow2(64 * i as nat),
{
    assert(s.take(i + 1) =~= s.take(i).push(s[i]));
    lemma_value_snoc(s.take(i), s[i]);
}

/// Splitting a sequence at `k` splits its value at weight `2^(64k)`.
pub proof fn lemma_value_split(s: Seq<u64>, k: int)
    requires
        0 <= k <= s.len(),
    ensures
        chunks_value(s) == chunks_value(s.take(k)) + pow2(64 * k as nat) * chunks_value(s.skip(k)),
    decreases k,
{
    broadcast use lemma_pow2_pos;

    if k == 0 {
        assert(s.take(0) =~= Seq::<u64>::empty());
        assert(s.skip(0) =~= s);
        lemma2_to64();
    } else {
        lemma_value_split(s, k - 1);
        lemma_value_take_succ(s, k - 1);
        let b = pow2(64);
        let p = pow2(64 * (k - 1) as nat);
        let hi = s.skip(k - 1);
        assert(hi[0] == s[k - 1]);
        assert(hi.skip(1) =~= s.skip(k));
        assert(chunks_value(hi) == s[k - 1] as nat + b * chunks_value(s.skip(k)));
        assert(p * (s[k - 1] as nat + b * chunks_value(s.skip(k))) == s[k - 1] * p + p * (b
            * chunks_value(s.skip(k)))) by (nonlinear_arith);
        assert(p * (b * chunks_value(s.skip(k))) == (p * b) * chunks_value(s.skip(
            k,
        ))) by (nonlinear_arith);
        lemma_pow2_adds(64 * (k - 1) as nat, 64);
        assert(64 * (k - 1) as nat + 64 == 64 * k as nat);
    }
}

/// The value of the chunks from index `k` up is the whole value shifted
/// down by `64k` bits.
pub proof fn lemma_value_skip_is_div(s: Seq<u64>, k: int)
    requires
        0 <= k <= s.len(),
    ensures
        chunks_value(s.skip(k)) == chunks_value(s) / pow2(64 * k as nat),
{
    broadcast use lemma_pow2_pos;

    lemma_value_split(s, k);
    lemma_value_bound(s.take(k));
    assert(s.take(k).len() == k);
    let p = pow2(64 * k as nat) as int;
    assert(p * chunks_value(s.skip(k)) == chunks_value(s.skip(k)) * p) by (nonlinear_arith);
    lemma_fundamental_div_mod_converse(
        chunks_value(s) as int,
        p,
        chunks_value(s.skip(k)) as int,
        chunks_value(s.take(k)) as int,
    );
}

/// A nonzero most-significant chunk puts the value at or above its weight.
pub proof fn lemma_value_top(s: Seq<u64>)
    requires
        s.len() >= 1,
        s.last() != 0,
    ensures
        chunks_value(s) >= pow2(64 * (s.len() - 1) as nat),
{
    broadcast use lemma_pow2_pos;

    let k = s.len() - 1;
    lemma_value_split(s, k as int);
    let hi = s.skip(k as int);
    assert(hi.len() == 1);
    assert(hi[0] == s.last());
    assert(hi =~= seq![s.last()]);
    lemma_value_single(s.last());
    assert(chunks_value(hi) == s.last() as nat);
    let p = pow2(64 * k as nat);
    assert(p * chunks_value(hi) >= p * 1) by (nonlinear_arith)
        requires
            chunks_value(hi) >= 1,
            p > 0,
    ;
}

/// An all-zero sequence denotes zero.
pub proof fn lemma_value_zero(s: Seq<u64>)
    requires
        forall|i: int| 0 <= i < s.len() ==> s[i] == 0,
    ensures
        chunks_value(s) == 0,
    decreases s.len(),
{
    if s.len() > 0 {
        lemma_value_zero(s.skip(1));
        assert(pow2(64) * 0 == 0) by (nonlinear_arith);
    }
}

/// A trailing zero chunk contributes nothing.
pub proof fn lemma_value_drop_zero(s: Seq<u64>)
    requires
        s.len() >= 1,
        s.last() == 0,
    ensures
        chunks_value(s) == chunks_value(s.drop_last()),
{
    assert(s =~= s.drop_last().push(s.last()));
    lemma_value_snoc(s.drop_last(), s.last());
}

/// Replacing chunk `i` moves the value by the chunk difference at its
/// weight.
pub proof fn lemma_value_update(s: Seq<u64>, i: int, y: u64)
    requires
        0 <= i < s.len(),
    ensures
        chunks_value(s.update(i, y)) == chunks_value(s) + y * pow2((64 * i) as nat) - s[i] * pow2(
            (64 * i) as nat,
        ),
{
    broadcast use lemma_pow2_pos;

    let t = s.update(i, y);
    lemma_value_split(s, i);
    lemma_value_split(t, i);
    assert(t.take(i) =~= s.take(i));
    assert(t.skip(i)[0] == y);
    assert(s.skip(i)[0] == s[i]);
    assert(t.skip(i).skip(1) =~= s.skip(i).skip(1));
    let p = pow2((64 * i) as nat);
    let b = pow2(64);
    let r = chunks_value(s.skip(i).skip(1));
    assert(chunks_value(t.skip(i)) == y as nat + b * r);
    assert(chunks_value(s.skip(i)) == s[i] as nat + b * r);
    assert(p * (y as nat + b * r) == y * p + p * (b * r)) by (nonlinear_arith);
    assert(p * (s[i] as nat + b * r) == s[i] * p + p * (b * r)) by (nonlinear_arith);
}

/// One more bit of the low part: splitting off bit `j` of the value.
pub proof fn lemma_mod_split_bit(x: nat, j: nat)
    ensures
        x % pow2(j + 1) == x % pow2(j) + pow2(j) * ((x / pow2(j)) % 2),
{
    broadcast use lemma_pow2_pos;

    lemma_pow2_adds(j, 1);
    lemma2_to64();
    lemma_breakdown(x as int, pow2(j) as int, 2);
}

/// Bit `64*ci + bi` of the value is bit `bi` of chunk `ci`.
pub proof fn lemma_bit_of_value(s: Seq<u64>, ci: int, bi: nat)
    requires
        0 <= ci < s.len(),
        bi < 64,
    ensures
        (chunks_value(s) / pow2((64 * ci + bi) as nat)) % 2 == ((s[ci] as nat) / pow2(bi)) % 2,
{
    broadcast use lemma_pow2_pos;

    lemma_value_skip_is_div(s, ci);
    lemma_pow2_adds((64 * ci) as nat, bi);
    lemma_div_denominator(
        chunks_value(s) as int,
        pow2((64 * ci) as nat) as int,
        pow2(bi) as int,
    );
    let hi = s.skip(ci);
    let x = s[ci];
    let rest = chunks_value(hi.skip(1));
    assert(chunks_value(hi) == x as nat + pow2(64) * rest);
    let w = pow2((64 - bi) as nat);
    lemma_pow2_adds(bi, (64 - bi) as nat);
    assert(pow2(64) * rest == (w * rest) * pow2(bi)) by (nonlinear_arith)
        requires
            pow2(64) == pow2(bi) * w,
    ;
    lemma_hoist_over_denominator(x as int, (w * rest) as int, pow2(bi));
    assert(chunks_value(hi) / pow2(bi) == x as nat / pow2(bi) + w * rest);
    // w is even, so the added part does not change the parity.
    lemma_pow2_adds(1, (64 - bi - 1) as nat);
    lemma2_to64();
    assert(w * rest == 2 * (pow2((64 - bi - 1) as nat) * rest)) by (nonlinear_arith)
        requires
            w == 2 * pow2((64 - bi - 1) as nat),
    ;
    lemma_mod_multiples_vanish(
        (pow2((64 - bi - 1) as nat) * rest) as int,
        (x as nat / pow2(bi)) as int,
        2,
    );
}

/// A normalized sequence with a small value is a single chunk.
pub proof fn lemma_wf_small(s: Seq<u64>)
    requires
        wf_seq(s),
        chunks_value(s) < pow2(64),
    ensures
        s.len() == 1,
        s[0] == chunks_value(s),
{
    broadcast use lemma_pow2_pos;

    if s.len() > 1 {
        lemma_value_top(s);
        lemma_pow2_adds(64, 64 * (s.len() - 2) as nat);
        assert(64 * (s.len() - 1) as nat == 64 + 64 * (s.len() - 2) as nat);
        assert(pow2(64) * pow2(64 * (s.len() - 2) as nat) >= pow2(64) * 1) by (nonlinear_arith)
            requires
                pow2(64 * (s.len() - 2) as nat) >= 1,
                pow2(64) > 0,
        ;
        assert(false);
    }
    assert(s =~= seq![s[0]]);
    lemma_value_single(s[0]);
}

/// Two normalized sequences denoting the same value are the same sequence.
pub proof fn lemma_unique_repr(s: Seq<u64>, t: Seq<u64>)
    requires
        wf_seq(s),
        wf_seq(t),
        chunks_value(s) == chunks_value(t),
    ensures
        s =~= t,
    decreases s.len(),
{
    broadcast use lemma_pow2_pos;

    lemma2_to64();
    if chunks_value(s) < pow2(64) {
        lemma_wf_small(s);
        lemma_wf_small(t);
        assert(s =~= t);
    } else {
        assert(s.len() > 1) by {
            if s.len() == 1 {
                lemma_value_empty();
                assert(s.skip(1) =~= Seq::<u64>::empty());
                assert(chunks_value(s) == s[0] as nat);
            }
        }
        assert(t.len() > 1) by {
            if t.len() == 1 {
                lemma_value_empty();
                assert(t.skip(1) =~= Seq::<u64>::empty());
                assert(chunks_value(t) == t[0] as nat);
            }
        }
        let v = chunks_value(s);
        // The low chunk is the value mod 2^64 in both sequences.
        lemma_head_is_mod(s);
        lemma_head_is_mod(t);
        // The rest is the value div 2^64 in both sequences, and stays normalized.
        lemma_tail_is_div(s);
        lemma_tail_is_div(t);
        assert(s.skip(1).last() == s.last());
        assert(t.skip(1).last() == t.last());
        lemma_unique_repr(s.skip(1), t.skip(1));
        assert(s =~= seq![s[0]] + s.skip(1));
        assert(t =~= seq![t[0]] + t.skip(1));
    }
}

/// The lowest chunk is the value mod 2^64.
pub proof fn lemma_head_is_mod(s: Seq<u64>)
    requires
        s.len() >= 1,
    ensures
        s[0] == chunks_value(s) % pow2(64),
{
    broadcast use lemma_pow2_pos;

    lemma2_to64();
    lemma_mod_multiples_vanish(chunks_value(s.skip(1)) as int, s[0] as int, pow2(64) as int);
    lemma_small_mod(s[0] as nat, pow2(64));
}

/// The chunks above the lowest denote the value div 2^64.
pub proof fn lemma_tail_is_div(s: Seq<u64>)
    requires
        s.len() >= 1,
    ensures
        chunks_value(s.skip(1)) == chunks_value(s) / pow2(64),
{
    broadcast use lemma_pow2_pos;

    lemma2_to64();
    let b = pow2(64) as int;
    assert(b * chunks_value(s.skip(1)) == chunks_value(s.skip(1)) * b) by (nonlinear_arith);
    lemma_fundamental_div_mod_converse(
        chunks_value(s) as int,
        b,
        chunks_value(s.skip(1)) as int,
        s[0] as int,
    );
}

} // verus!
