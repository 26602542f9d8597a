//! Numbers: integer rendering, the whole-number test on a double's bit
//! pattern, normalization of whole doubles into integers, and the text a
//! number serializes to.
use vstd::prelude::*;
use crate::text::{decimal, push_decimal};
use crate::value::{RcNumber, NumView};

verus! {

/// 2^52, the implicit leading bit of a normal double's significand.
pub open spec fn hidden_bit() -> nat {
    0x10000000000000
}

/// 2^70, a bound above every magnitude the whole-number paths print exactly.
pub open spec fn small_bound() -> nat {
    0x400000000000000000
}

/// 10^21, below which a whole double prints as a plain integer.
pub open spec fn plain_bound() -> nat {
    1000000000000000000000
}

/// The biased exponent field of a double.
pub open spec fn f_exp(bits: u64) -> u64 {
    (bits >> 52u64) & 0x7ffu64
}

/// The fraction field of a double.
pub open spec fn f_mant(bits: u64) -> u64 {
    bits & 0xfffffffffffffu64
}

/// The sign bit of a double.
pub open spec fn f_neg(bits: u64) -> bool {
    (bits >> 63u64) == 1u64
}

/// `x * 2^k`.
pub open spec fn mul_pow2(x: nat, k: nat) -> nat
    decreases k,
{
    if k == 0 {
        x
    } else {
        2 * mul_pow2(x, (k - 1) as nat)
    }
}

/// `x / 2^k` when `2^k` divides `x`.
pub open spec fn exact_halve(x: nat, k: nat) -> Option<nat>
    decreases k,
{
    if k == 0 {
        Some(x)
    } else if x % 2 != 0 {
        None
    } else {
        exact_halve(x / 2, (k - 1) as nat)
    }
}

/// The magnitude of the double with bit pattern `bits` when that double is a
/// finite whole number, following the IEEE-754 binary64 layout.
pub open spec fn float_whole_magnitude(bits: u64) -> Option<nat> {
    let e = f_exp(bits) as nat;
    let m = f_mant(bits) as nat;
    if e == 2047 {
        None
    } else if e == 0 {
        if m == 0 {
            Some(0)
        } else {
            None
        }
    } else if e >= 1075 {
        Some(mul_pow2(m + hidden_bit(), (e - 1075) as nat))
    } else if e < 1023 {
        None
    } else {
        exact_halve(m + hidden_bit(), (1075 - e) as nat)
    }
}

proof fn lemma_mul_pow2_mono(x: nat, y: nat, k: nat)
    requires
        x <= y,
    ensures
        mul_pow2(x, k) <= mul_pow2(y, k),
    decreases k,
{
    if k > 0 {
        lemma_mul_pow2_mono(x, y, (k - 1) as nat);
    }
}

proof fn lemma_mul_pow2_grows(x: nat, k: nat, j: nat)
    requires
        j <= k,
    ensures
        mul_pow2(x, j) <= mul_pow2(x, k),
    decreases k,
{
    if j < k {
        lemma_mul_pow2_grows(x, (k - 1) as nat, j);
    }
}

/// The magnitude of a whole double when it is below 2^70.
pub fn whole_magnitude(bits: u64) -> (r: Option<u128>)
    ensures
        match r {
            Some(x) => float_whole_magnitude(bits) == Some(x as nat) && (x as nat) < small_bound(),
            None => float_whole_magnitude(bits) is None || float_whole_magnitude(bits)->0
                >= small_bound(),
        },
{
    let e: u64 = (bits >> 52u64) & 0x7ffu64;
    let m: u64 = bits & 0xfffffffffffffu64;
    assert(e <= 0x7ff) by (bit_vector)
        requires
            e == (bits >> 52u64) & 0x7ffu64,
    ;
    assert(m <= 0xfffffffffffff) by (bit_vector)
        requires
            m == bits & 0xfffffffffffffu64,
    ;
    if e == 2047 {
        return None;
    }
    if e == 0 {
        if m == 0 {
            return Some(0);
        }
        return None;
    }
    let sig: u128 = m as u128 + 0x10000000000000u128;
    if e >= 1075 {
        let k: u64 = e - 1075;
        if k > 17 {
            proof {
                lemma_mul_pow2_mono(hidden_bit(), sig as nat, k as nat);
                lemma_mul_pow2_grows(hidden_bit(), k as nat, 18);
                assert(mul_pow2(hidden_bit(), 18) == small_bound()) by {
                    reveal_with_fuel(mul_pow2, 19);
                }
            }
            return None;
        }
        let mut x: u128 = sig;
        let mut j: u64 = 0;
        while j < k
            invariant
                j <= k <= 17,
                x as nat == mul_pow2(sig as nat, j as nat),
                sig as nat == m as nat + hidden_bit(),
                m <= 0xfffffffffffff,
            decreases k - j,
        {
            proof {
                lemma_mul_pow2_mono(sig as nat, 0x20000000000000, j as nat);
                lemma_mul_pow2_grows(0x20000000000000, 17, j as nat);
                assert(mul_pow2(0x20000000000000, 17) == 0x400000000000000000) by {
                    reveal_with_fuel(mul_pow2, 18);
                }
            }
            x = 2 * x;
            j = j + 1;
        }
        proof {
            lemma_mul_pow2_mono(sig as nat, 0x1fffffffffffff, k as nat);
            lemma_mul_pow2_grows(0x1fffffffffffff, 17, k as nat);
            assert(mul_pow2(0x1fffffffffffff, 17) < small_bound()) by {
                reveal_with_fuel(mul_pow2, 18);
            }
        }
        return Some(x);
    }
    if e < 1023 {
        return None;
    }
    let k: u64 = 1075 - e;
    let mut x: u128 = sig;
    let mut j: u64 = 0;
    assert(float_whole_magnitude(bits) == exact_halve(sig as nat, k as nat));
    while j < k
        invariant
            j <= k,
            float_whole_magnitude(bits) == exact_halve(sig as nat, k as nat),
            sig < small_bound(),
            x <= sig,
            exact_halve(sig as nat, k as nat) == exact_halve(x as nat, (k - j) as nat),
        decreases k - j,
    {
        if x % 2 != 0 {
            return None;
        }
        x = x / 2;
        j = j + 1;
    }
    assert(sig < small_bound());
    Some(x)
}

/// Normalize a parsed number: a whole double that fits a 64-bit integer
/// becomes that integer. Non-negative values below 2^64 (and a negative zero)
/// become non-negative integers, negative values down to -2^63 become negative
/// integers. Every other number is unchanged.
pub open spec fn normalize_number_spec(n: NumView) -> NumView {
    match n {
        NumView::Float(bits, _) => match float_whole_magnitude(bits) {
            Some(mag) => if mag == 0 {
                NumView::PosInt(0)
            } else if !f_neg(bits) && mag < 0x10000000000000000 {
                NumView::PosInt(mag as u64)
            } else if f_neg(bits) && mag <= 0x8000000000000000 {
                NumView::NegInt((0 - mag) as i64)
            } else {
                n
            },
            None => n,
        },
        _ => n,
    }
}

/// Normalize a parsed number.
pub fn normalize_number(n: RcNumber) -> (r: RcNumber)
    ensures
        r@ == normalize_number_spec(n@),
{
    match n {
        RcNumber::Float(f) => {
            match whole_magnitude(f.bits) {
                Some(mag) => {
                    let neg = (f.bits >> 63u64) == 1u64;
                    if mag == 0 {
                        RcNumber::PosInt(0)
                    } else if !neg && mag < 0x10000000000000000u128 {
                        RcNumber::PosInt(mag as u64)
                    } else if neg && mag <= 0x8000000000000000u128 {
                        RcNumber::NegInt((0i128 - mag as i128) as i64)
                    } else {
                        RcNumber::Float(f)
                    }
                },
                None => RcNumber::Float(f),
            }
        },
        other => other,
    }
}

/// The decimal text of a signed integer.
pub open spec fn signed_decimal(neg: bool, mag: nat) -> Seq<char> {
    if neg {
        seq!['-'] + decimal(mag)
    } else {
        decimal(mag)
    }
}

/// The text a JSON serializer writes for a number: integers in decimal and
/// doubles as their shortest text.
pub open spec fn number_json(n: NumView) -> Seq<char> {
    match n {
        NumView::PosInt(u) => decimal(u as nat),
        NumView::NegInt(i) => if i < 0 {
            signed_decimal(true, (0 - i) as nat)
        } else {
            decimal(i as nat)
        },
        NumView::Float(_, text) => text,
    }
}

/// The text a number serializes to as a config value. A whole double below
/// 10^21 prints as a plain integer (a zero of either sign as `0`); every
/// other number prints as a JSON serializer writes it.
pub open spec fn encode_number(n: NumView) -> Seq<char> {
    match n {
        NumView::Float(bits, text) => match float_whole_magnitude(bits) {
            Some(mag) => if mag == 0 {
                seq!['0']
            } else if mag < plain_bound() {
                signed_decimal(f_neg(bits), mag)
            } else {
                text
            },
            None => text,
        },
        _ => number_json(n),
    }
}

/// Append the JSON text of a number.
pub fn push_number_json(out: &mut Vec<char>, n: &RcNumber)
    ensures
        final(out)@ == old(out)@ + number_json(n@),
{
    match n {
        RcNumber::PosInt(u) => push_decimal(out, *u as u128),
        RcNumber::NegInt(i) => {
            if *i < 0 {
                out.push('-');
                let mag: u128 = (0i128 - *i as i128) as u128;
                push_decimal(out, mag);
                assert(final(out)@ =~= old(out)@ + number_json(n@));
            } else {
                push_decimal(out, *i as u128);
            }
        },
        RcNumber::Float(f) => {
            let cs = crate::text::chars_of(f.text.as_str());
            let mut k: usize = 0;
            while k < cs.len()
                invariant
                    0 <= k <= cs@.len(),
                    out@ == old(out)@ + cs@.take(k as int),
                decreases cs@.len() - k,
            {
                out.push(cs[k]);
                k += 1;
                assert(out@ =~= old(out)@ + cs@.take(k as int));
            }
            assert(cs@.take(k as int) =~= cs@);
        },
    }
}

/// Append the config-value text of a number.
pub fn push_encoded_number(out: &mut Vec<char>, n: &RcNumber)
    ensures
        final(out)@ == old(out)@ + encode_number(n@),
{
    match n {
        RcNumber::Float(f) => {
            match whole_magnitude(f.bits) {
                Some(mag) => {
                    if mag == 0 {
                        out.push('0');
                        assert(final(out)@ =~= old(out)@ + encode_number(n@));
                        return;
                    }
                    if mag < 1000000000000000000000u128 {
                        if (f.bits >> 63u64) == 1u64 {
                            out.push('-');
                        }
                        push_decimal(out, mag);
                        assert(final(out)@ =~= old(out)@ + encode_number(n@));
                        return;
                    }
                },
                None => {},
            }
            proof {
                assert(float_whole_magnitude(f.bits) is None || float_whole_magnitude(f.bits)->0
                    >= plain_bound());
            }
            push_number_json(out, n);
        },
        _ => push_number_json(out, n),
    }
}

} // verus!
