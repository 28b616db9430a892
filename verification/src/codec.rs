//! Fixed-width base-N rendering of sequence counters, and its inverse.
//!
//! The encoder renders an unsigned integer as exactly `width` symbols of the
//! configured alphabet, most significant digit first, left-padded with the
//! symbol of digit value zero. The decoder recovers the integer from the
//! digits; the round-trip law at the end ties the two together.

use vstd::prelude::*;
use vstd::arithmetic::div_mod::{
    lemma_breakdown, lemma_div_denominator, lemma_div_is_ordered, lemma_div_multiples_vanish_fancy,
    lemma_fundamental_div_mod, lemma_mod_division_less_than_divisor, lemma_mod_multiples_vanish,
    lemma_multiply_divide_lt, lemma_small_mod,
};
use vstd::arithmetic::mul::{lemma_mul_inequality, lemma_mul_is_commutative};

use crate::alphabet::Alphabet;

verus! {

/// `b` raised to `e`, over naturals.
pub open spec fn pow_nat(b: nat, e: nat) -> nat
    decreases e,
{
    if e == 0 {
        1
    } else {
        b * pow_nat(b, (e - 1) as nat)
    }
}

pub proof fn lemma_pow_nat_pos(b: nat, e: nat)
    requires
        b >= 1,
    ensures
        pow_nat(b, e) >= 1,
    decreases e,
{
    if e > 0 {
        lemma_pow_nat_pos(b, (e - 1) as nat);
        lemma_mul_inequality(1, b as int, pow_nat(b, (e - 1) as nat) as int);
    }
}

pub proof fn lemma_pow_nat_increases(b: nat, e1: nat, e2: nat)
    requires
        b >= 1,
        e1 <= e2,
    ensures
        pow_nat(b, e1) <= pow_nat(b, e2),
    decreases e2,
{
    if e1 < e2 {
        lemma_pow_nat_increases(b, e1, (e2 - 1) as nat);
        lemma_mul_inequality(1, b as int, pow_nat(b, (e2 - 1) as nat) as int);
    }
}

/// The fixed-width numeral for `v`: `width` symbols, most significant digit
/// first. Digits above the width are discarded, so the numeral always shows
/// `v` modulo `base^width`.
pub open spec fn encode(alpha: Seq<u8>, width: nat, v: nat) -> Seq<u8>
    decreases width,
{
    if width == 0 {
        Seq::empty()
    } else {
        encode(alpha, (width - 1) as nat, v / alpha.len()).push(alpha[(v % alpha.len()) as int])
    }
}

/// The digit value of symbol `b`: its position in the alphabet.
pub open spec fn symbol_value(alpha: Seq<u8>, b: u8) -> nat
    decreases alpha.len(),
{
    if alpha.len() == 0 {
        0
    } else if alpha[0] == b {
        0
    } else {
        1 + symbol_value(alpha.drop_first(), b)
    }
}

/// The integer a numeral denotes: digits read most significant first.
pub open spec fn decode(alpha: Seq<u8>, digits: Seq<u8>) -> nat
    decreases digits.len(),
{
    if digits.len() == 0 {
        0
    } else {
        decode(alpha, digits.drop_last()) * alpha.len() + symbol_value(alpha, digits.last())
    }
}

/// In a duplicate-free alphabet, the digit value of the symbol at position
/// `d` is exactly `d`.
pub proof fn lemma_symbol_value_of_index(alpha: Seq<u8>, d: int)
    requires
        alpha.no_duplicates(),
        0 <= d < alpha.len(),
    ensures
        symbol_value(alpha, alpha[d]) == d,
    decreases alpha.len(),
{
    if d > 0 {
        let tail = alpha.drop_first();
        assert(alpha[0] != alpha[d]);
        assert forall|p: int, q: int|
            0 <= p < tail.len() && 0 <= q < tail.len() && p != q implies tail[p] != tail[q] by {
            assert(tail[p] == alpha[p + 1]);
            assert(tail[q] == alpha[q + 1]);
        }
        assert(tail.no_duplicates());
        assert(tail[d - 1] == alpha[d]);
        lemma_symbol_value_of_index(tail, d - 1);
    }
}

pub proof fn lemma_encode_len(alpha: Seq<u8>, width: nat, v: nat)
    requires
        alpha.len() >= 1,
    ensures
        encode(alpha, width, v).len() == width,
    decreases width,
{
    if width > 0 {
        lemma_encode_len(alpha, (width - 1) as nat, v / alpha.len());
    }
}

/// Every symbol of a numeral belongs to the alphabet.
pub proof fn lemma_encode_in_alpha(alpha: Seq<u8>, width: nat, v: nat)
    requires
        alpha.len() >= 1,
    ensures
        forall|t: int|
            0 <= t < width ==> alpha.contains(#[trigger] encode(alpha, width, v)[t]),
    decreases width,
{
    if width > 0 {
        let w1 = (width - 1) as nat;
        let b = alpha.len();
        lemma_encode_in_alpha(alpha, w1, v / b);
        lemma_encode_len(alpha, w1, v / b);
        lemma_mod_division_less_than_divisor(v as int, b as int);
        assert(alpha[(v % b) as int] == encode(alpha, width, v)[width - 1]);
        assert(alpha.contains(alpha[(v % b) as int]));
        assert forall|t: int|
            0 <= t < width implies alpha.contains(#[trigger] encode(alpha, width, v)[t]) by {
            if t < width - 1 {
                assert(encode(alpha, width, v)[t] == encode(alpha, w1, v / b)[t]);
            }
        }
    }
}

/// Peeling the most significant digit off a numeral of width `t + 1`.
pub proof fn lemma_encode_head(alpha: Seq<u8>, t: nat, v: nat)
    requires
        alpha.len() >= 1,
    ensures
        encode(alpha, (t + 1) as nat, v) =~= seq![
            alpha[((v / pow_nat(alpha.len(), t)) % alpha.len()) as int],
        ] + encode(alpha, t, v),
    decreases t,
{
    let b = alpha.len();
    lemma_encode_len(alpha, t, v);
    lemma_encode_len(alpha, (t + 1) as nat, v);
    if t == 0 {
        assert(pow_nat(b, 0) == 1);
        assert(v as int / 1int == v as int) by {
            lemma_fundamental_div_mod(v as int, 1int);
            lemma_small_mod(0nat, 1nat);
        }
    } else {
        let t1 = (t - 1) as nat;
        lemma_encode_head(alpha, t1, v / b);
        lemma_encode_len(alpha, t1, (v / b) / b);
        lemma_pow_nat_pos(b, t1);
        lemma_div_denominator(v as int, b as int, pow_nat(b, t1) as int);
        assert(b * pow_nat(b, t1) == pow_nat(b, t));
        assert((v / b) / pow_nat(b, t1) == v / pow_nat(b, t));
    }
}

/// Decoding a numeral of `v` recovers `v`, provided `v` fits the width.
pub proof fn lemma_round_trip(alpha: Seq<u8>, width: nat, v: nat)
    requires
        alpha.no_duplicates(),
        alpha.len() >= 1,
        v < pow_nat(alpha.len(), width),
    ensures
        decode(alpha, encode(alpha, width, v)) == v,
    decreases width,
{
    let b = alpha.len();
    if width == 0 {
        assert(v == 0);
    } else {
        let w1 = (width - 1) as nat;
        assert(pow_nat(b, width) == b * pow_nat(b, w1));
        lemma_multiply_divide_lt(v as int, b as int, pow_nat(b, w1) as int);
        lemma_round_trip(alpha, w1, v / b);
        lemma_mod_division_less_than_divisor(v as int, b as int);
        lemma_symbol_value_of_index(alpha, (v % b) as int);
        lemma_encode_len(alpha, width, v);
        let inner = encode(alpha, w1, v / b);
        let whole = encode(alpha, width, v);
        assert(whole == inner.push(alpha[(v % b) as int]));
        assert(whole.drop_last() =~= inner);
        assert(whole.last() == alpha[(v % b) as int]);
        assert(whole.len() == width);
        assert(decode(alpha, whole) == decode(alpha, whole.drop_last()) * b + symbol_value(
            alpha,
            whole.last(),
        ));
        assert(decode(alpha, whole.drop_last()) == v / b);
        assert(symbol_value(alpha, whole.last()) == v % b);
        lemma_fundamental_div_mod(v as int, b as int);
        lemma_mul_is_commutative((v / b) as int, b as int);
        assert(decode(alpha, whole) == (v / b) * b + (v % b));
        assert((v / b) * b + (v % b) == v);
    }
}

/// A numeral shows its value only up to `base^width`: the digits above the
/// width are discarded.
pub proof fn lemma_encode_mod(alpha: Seq<u8>, width: nat, v: nat)
    requires
        alpha.len() >= 1,
    ensures
        encode(alpha, width, v) == encode(alpha, width, v % pow_nat(alpha.len(), width)),
    decreases width,
{
    let b = alpha.len();
    if width > 0 {
        let w1 = (width - 1) as nat;
        let q = pow_nat(b, w1);
        lemma_pow_nat_pos(b, w1);
        assert(pow_nat(b, width) == b * q);
        lemma_breakdown(v as int, b as int, q as int);
        let vp = v % pow_nat(b, width);
        let hd = (v / b) % q;
        let r = v % b;
        lemma_mod_division_less_than_divisor(v as int, b as int);
        lemma_mod_division_less_than_divisor((v / b) as int, q as int);
        assert(vp == b * hd + r);
        lemma_div_multiples_vanish_fancy(hd as int, r as int, b as int);
        assert(vp / b == hd);
        lemma_mod_multiples_vanish(hd as int, r as int, b as int);
        lemma_small_mod(r, b);
        assert(vp % b == r);
        lemma_encode_mod(alpha, w1, v / b);
        assert(encode(alpha, width, vp) == encode(alpha, w1, hd).push(alpha[r as int]));
        assert(encode(alpha, width, v) == encode(alpha, w1, v / b).push(alpha[r as int]));
    }
}

/// Dictionary order of two symbol runs: at the first position where they
/// differ, the smaller digit value decides.
pub open spec fn lex_lt(alpha: Seq<u8>, a: Seq<u8>, b: Seq<u8>) -> bool
    decreases a.len(),
{
    if a.len() == 0 || b.len() == 0 {
        false
    } else if a[0] == b[0] {
        lex_lt(alpha, a.drop_first(), b.drop_first())
    } else {
        symbol_value(alpha, a[0]) < symbol_value(alpha, b[0])
    }
}

/// The fixed-width encoding preserves numeric order: of two values that fit
/// the width, the smaller renders as the lexicographically smaller numeral,
/// digits ordered by their position in the alphabet.
pub proof fn lemma_encode_preserves_order(alpha: Seq<u8>, width: nat, v1: nat, v2: nat)
    requires
        alpha.no_duplicates(),
        alpha.len() >= 1,
        v1 < v2,
        v2 < pow_nat(alpha.len(), width),
    ensures
        lex_lt(alpha, encode(alpha, width, v1), encode(alpha, width, v2)),
    decreases width,
{
    let b = alpha.len();
    let w1 = (width - 1) as nat;
    let p = pow_nat(b, w1);
    lemma_pow_nat_pos(b, w1);
    assert(pow_nat(b, width) == b * p);
    let h1 = v1 / p;
    let h2 = v2 / p;
    lemma_multiply_divide_lt(v1 as int, p as int, b as int);
    lemma_multiply_divide_lt(v2 as int, p as int, b as int);
    lemma_div_is_ordered(v1 as int, v2 as int, p as int);
    lemma_small_mod(h1, b);
    lemma_small_mod(h2, b);
    lemma_encode_head(alpha, w1, v1);
    lemma_encode_head(alpha, w1, v2);
    lemma_encode_len(alpha, width, v1);
    lemma_encode_len(alpha, width, v2);
    let e1 = encode(alpha, width, v1);
    let e2 = encode(alpha, width, v2);
    let t1 = encode(alpha, w1, v1);
    let t2 = encode(alpha, w1, v2);
    assert(e1[0] == alpha[h1 as int]);
    assert(e2[0] == alpha[h2 as int]);
    if h1 == h2 {
        lemma_fundamental_div_mod(v1 as int, p as int);
        lemma_fundamental_div_mod(v2 as int, p as int);
        lemma_mod_division_less_than_divisor(v1 as int, p as int);
        lemma_mod_division_less_than_divisor(v2 as int, p as int);
        let r1 = v1 % p;
        let r2 = v2 % p;
        assert(r1 < r2);
        lemma_encode_mod(alpha, w1, v1);
        lemma_encode_mod(alpha, w1, v2);
        lemma_encode_preserves_order(alpha, w1, r1, r2);
        assert(lex_lt(alpha, t1, t2));
        assert(e1.drop_first() =~= t1);
        assert(e2.drop_first() =~= t2);
    } else {
        assert(h1 < h2);
        lemma_symbol_value_of_index(alpha, h1 as int);
        lemma_symbol_value_of_index(alpha, h2 as int);
        assert(alpha[h1 as int] != alpha[h2 as int]);
    }
}

/// Distinct values that fit the width render as distinct numerals.
pub proof fn lemma_encode_injective(alpha: Seq<u8>, width: nat, v1: nat, v2: nat)
    requires
        alpha.no_duplicates(),
        alpha.len() >= 1,
        v1 < pow_nat(alpha.len(), width),
        v2 < pow_nat(alpha.len(), width),
        v1 != v2,
    ensures
        encode(alpha, width, v1) != encode(alpha, width, v2),
{
    if encode(alpha, width, v1) == encode(alpha, width, v2) {
        lemma_round_trip(alpha, width, v1);
        lemma_round_trip(alpha, width, v2);
    }
}

/// A numeral's value never shrinks when more digits are appended.
pub proof fn lemma_decode_prefix_le(alpha: Seq<u8>, digits: Seq<u8>, i: int, j: int)
    requires
        alpha.len() >= 1,
        0 <= i <= j <= digits.len(),
    ensures
        decode(alpha, digits.subrange(0, i)) <= decode(alpha, digits.subrange(0, j)),
    decreases j - i,
{
    if i < j {
        lemma_decode_prefix_le(alpha, digits, i, j - 1);
        let shorter = digits.subrange(0, j - 1);
        let longer = digits.subrange(0, j);
        assert(longer.drop_last() =~= shorter);
        let d = decode(alpha, shorter) as int;
        lemma_mul_inequality(1, alpha.len() as int, d);
        lemma_mul_is_commutative(d, alpha.len() as int);
        assert(decode(alpha, longer) == d * alpha.len() + symbol_value(alpha, longer.last()));
        assert(d * alpha.len() >= 1 * d);
        assert(decode(alpha, longer) >= decode(alpha, shorter));
    }
}

/// `base^exp`, or `None` when the result does not fit in `u64`.
pub fn pow_checked(base: u64, exp: usize) -> (r: Option<u64>)
    requires
        base >= 1,
    ensures
        match r {
            Some(v) => v == pow_nat(base as nat, exp as nat),
            None => pow_nat(base as nat, exp as nat) > u64::MAX,
        },
{
    let mut acc: u64 = 1;
    let mut k: usize = 0;
    while k < exp
        invariant
            base >= 1,
            k <= exp,
            acc == pow_nat(base as nat, k as nat),
        decreases exp - k,
    {
        acc = match acc.checked_mul(base) {
            Some(a) => a,
            None => {
                proof {
                    assert(pow_nat(base as nat, (k + 1) as nat) == base * pow_nat(
                        base as nat,
                        k as nat,
                    ));
                    lemma_pow_nat_increases(base as nat, (k + 1) as nat, exp as nat);
                }
                return None;
            },
        };
        k += 1;
    }
    Some(acc)
}

/// Renders `sequence` as `width` alphabet symbols into
/// `buffer[start..start + width]`, most significant digit first; the rest of
/// the buffer is untouched.
pub fn copy_sequence_into(
    alphabet: &Alphabet,
    buffer: &mut Vec<u8>,
    start: usize,
    width: usize,
    sequence: u64,
)
    requires
        alphabet.wf(),
        start + width <= old(buffer)@.len(),
    ensures
        final(buffer)@.len() == old(buffer)@.len(),
        final(buffer)@.subrange(start as int, (start + width) as int) =~= encode(
            alphabet@,
            width as nat,
            sequence as nat,
        ),
        forall|i: int|
            0 <= i < final(buffer)@.len() && !(start <= i < start + width) ==> final(buffer)@[i]
                == old(buffer)@[i],
{
    let n = buffer.len();
    let base_count = alphabet.base();
    let base = base_count as u64;
    let mut t: usize = 0;
    let mut cur: u64 = sequence;
    proof {
        lemma_pow_nat_pos(base as nat, 0);
        assert(buffer@.subrange((start + width) as int, (start + width) as int) =~= encode(
            alphabet@,
            0nat,
            sequence as nat,
        ));
        assert(sequence as int / 1int == sequence as int) by {
            lemma_fundamental_div_mod(sequence as int, 1int);
            lemma_small_mod(0nat, 1nat);
        }
    }
    while t < width
        invariant
            alphabet.wf(),
            base == alphabet@.len(),
            base == base_count as u64,
            base >= 1,
            t <= width,
            n == buffer@.len(),
            start + width <= n,
            buffer@.len() == old(buffer)@.len(),
            cur == sequence as nat / pow_nat(base as nat, t as nat),
            buffer@.subrange((start + width - t) as int, (start + width) as int) =~= encode(
                alphabet@,
                t as nat,
                sequence as nat,
            ),
            forall|i: int|
                0 <= i < buffer@.len() && !(start + width - t <= i < start + width)
                    ==> buffer@[i] == old(buffer)@[i],
        decreases width - t,
    {
        let ghost prev_buf = buffer@;
        let d64 = cur % base;
        let d = d64 as usize;
        proof {
            assert(d64 < base);
            assert(d == d64);
        }
        let sym = alphabet.symbol(d);
        let idx = start + (width - t - 1);
        buffer[idx] = sym;
        proof {
            let b = base as nat;
            let v = sequence as nat;
            lemma_encode_head(alphabet@, t as nat, v);
            lemma_encode_len(alphabet@, t as nat, v);
            lemma_encode_len(alphabet@, (t + 1) as nat, v);
            lemma_pow_nat_pos(b, t as nat);
            lemma_div_denominator(v as int, pow_nat(b, t as nat) as int, b as int);
            assert(pow_nat(b, (t + 1) as nat) == b * pow_nat(b, t as nat));
            assert((v / pow_nat(b, t as nat)) / b == v / pow_nat(b, (t + 1) as nat));
            assert(buffer@.subrange(idx as int, (start + width) as int) =~= encode(
                alphabet@,
                (t + 1) as nat,
                v,
            )) by {
                assert(buffer@[idx as int] == alpha_head(alphabet@, t as nat, v));
                assert(forall|q: int|
                    idx < q < start + width ==> buffer@[q] == #[trigger] prev_buf[q]);
                assert(prev_buf.subrange((start + width - t) as int, (start + width) as int)
                    =~= encode(alphabet@, t as nat, v));
            }
        }
        cur = cur / base;
        t += 1;
    }
}

/// The most significant symbol of the width `t + 1` numeral of `v`.
spec fn alpha_head(alpha: Seq<u8>, t: nat, v: nat) -> u8 {
    alpha[((v / pow_nat(alpha.len(), t)) % alpha.len()) as int]
}

/// Decodes a run of alphabet symbols back into the integer the encoder was
/// given. Returns `None` when a byte is not an alphabet symbol or the value
/// does not fit in `u64`.
pub fn decode_digits(alphabet: &Alphabet, digits: &Vec<u8>) -> (r: Option<u64>)
    requires
        alphabet.wf(),
    ensures
        match r {
            Some(v) => (forall|i: int|
                0 <= i < digits@.len() ==> alphabet@.contains(#[trigger] digits@[i])) && v
                == decode(alphabet@, digits@),
            None => (exists|i: int|
                0 <= i < digits@.len() && !alphabet@.contains(#[trigger] digits@[i])) || decode(
                alphabet@,
                digits@,
            ) > u64::MAX,
        },
{
    let base = alphabet.base() as u64;
    let mut acc: u64 = 0;
    let mut i: usize = 0;
    proof {
        assert(digits@.subrange(0, 0) =~= Seq::<u8>::empty());
    }
    while i < digits.len()
        invariant
            alphabet.wf(),
            base == alphabet@.len(),
            i <= digits@.len(),
            forall|k: int| 0 <= k < i ==> alphabet@.contains(#[trigger] digits@[k]),
            acc == decode(alphabet@, digits@.subrange(0, i as int)),
        decreases digits@.len() - i,
    {
        let b = digits[i];
        let d = match alphabet.symbol_index(b) {
            Some(d) => d,
            None => {
                return None;
            },
        };
        proof {
            lemma_symbol_value_of_index(alphabet@, d as int);
            assert(digits@.subrange(0, (i + 1) as int) =~= digits@.subrange(0, i as int).push(
                digits@[i as int],
            ));
            assert(digits@.subrange(0, (i + 1) as int).drop_last() =~= digits@.subrange(
                0,
                i as int,
            ));
        }
        let m = match acc.checked_mul(base) {
            Some(m) => m,
            None => {
                proof {
                    lemma_decode_prefix_le(alphabet@, digits@, i + 1, digits@.len() as int);
                    assert(digits@.subrange(0, digits@.len() as int) =~= digits@);
                }
                return None;
            },
        };
        let a2 = match m.checked_add(d as u64) {
            Some(a2) => a2,
            None => {
                proof {
                    lemma_decode_prefix_le(alphabet@, digits@, i + 1, digits@.len() as int);
                    assert(digits@.subrange(0, digits@.len() as int) =~= digits@);
                }
                return None;
            },
        };
        acc = a2;
        i += 1;
    }
    proof {
        assert(digits@.subrange(0, digits@.len() as int) =~= digits@);
    }
    Some(acc)
}

} // verus!


