//! IEEE 754 binary32/binary64 values held as their bit patterns. A float
//! field's value travels through the library as the bits of a binary64;
//! these conversions are done on the bits, in integer arithmetic.

use vstd::prelude::*;

use crate::codec::{pow2, pow2_exec, lemma_pow2_mono, lemma_pow2_64, lemma_pow2_127};

verus! {

/// The fields of a float format: significand bits, exponent bits and bias.
pub open spec fn exp_bits(wide: bool) -> nat { if wide { 11 } else { 8 } }
pub open spec fn man_bits(wide: bool) -> nat { if wide { 52 } else { 23 } }
/// The largest biased exponent (all ones: infinities and NaNs).
pub open spec fn exp_max(wide: bool) -> nat { if wide { 2047 } else { 255 } }
/// The exponent of the least significant significand bit of a subnormal.
pub open spec fn e_min(wide: bool) -> int { if wide { -1074 } else { -149 } }

/// A finite float as `(negative, m, e)`: its value is `(-1)^negative * m * 2^e`.
pub open spec fn finite_parts(negative: bool, biased: nat, frac: nat, wide: bool) -> (bool, nat, int) {
    if biased == 0 {
        (negative, frac, e_min(wide))
    } else {
        (negative, pow2(man_bits(wide)) + frac, biased + e_min(wide) - 1)
    }
}

/// The result of rounding `m * 2^-k` to an integer, ties to even.
pub open spec fn round_half_even(m: nat, k: nat) -> nat {
    let p = pow2(k);
    let q = m / p;
    let r = m % p;
    if k == 0 {
        m
    } else if 2 * r > p || (2 * r == p && q % 2 == 1) {
        q + 1
    } else {
        q
    }
}

/// The number of bits `m` needs (0 for 0).
pub open spec fn bit_len(m: nat) -> nat
    decreases m,
{
    if m == 0 { 0 } else { 1 + bit_len(m / 2) }
}

/// The exponent of the least significant kept bit when `m * 2^e` is
/// rounded to the target format: `prec` significant bits, no lower than
/// the format's subnormal exponent.
pub open spec fn target_exp(m: nat, e: int, wide: bool) -> int {
    let t = bit_len(m) + e - (man_bits(wide) + 1);
    if t < e_min(wide) { e_min(wide) } else { t }
}

/// The significand of `m * 2^e` at exponent `target_exp`, rounded to
/// nearest, ties to even (exact when the target exponent is not above `e`).
pub open spec fn rounded_sig(m: nat, e: int, wide: bool) -> nat {
    let t = target_exp(m, e, wide);
    if t <= e { m * pow2((e - t) as nat) } else { round_half_even(m, (t - e) as nat) }
}

/// The bits of the float nearest `(-1)^negative * m * 2^e` (ties to even):
/// infinity where it exceeds the format's range.
pub open spec fn encode_rounded(negative: bool, m: nat, e: int, wide: bool) -> nat {
    let sign: nat = if negative { pow2(exp_bits(wide) + man_bits(wide)) } else { 0 };
    if m == 0 {
        sign
    } else {
        let t = target_exp(m, e, wide);
        let q0 = rounded_sig(m, e, wide);
        let (q, t2) = if q0 == pow2(man_bits(wide) + 1) { (q0 / 2, t + 1) } else { (q0, t) };
        if q < pow2(man_bits(wide)) {
            sign + q
        } else {
            let biased = t2 - e_min(wide) + 1;
            if biased >= exp_max(wide) {
                sign + exp_max(wide) * pow2(man_bits(wide))
            } else {
                sign + (biased as nat) * pow2(man_bits(wide)) + (q - pow2(man_bits(wide))) as nat
            }
        }
    }
}

/// The bits of a binary32 widened to binary64: finite values and infinities
/// keep their value; a NaN keeps its sign and payload and is made quiet.
pub open spec fn widen_spec(b: u32) -> u64 {
    let negative = b >= 0x8000_0000;
    let biased = ((b / 0x80_0000) % 256) as nat;
    let frac = (b % 0x80_0000) as nat;
    let sign: nat = if negative { 0x8000_0000_0000_0000 } else { 0 };
    if biased == 255 {
        if frac == 0 {
            (sign + 0x7FF0_0000_0000_0000) as u64
        } else {
            (sign + 0x7FF0_0000_0000_0000 + (frac % 0x40_0000 + 0x40_0000) * 0x2000_0000) as u64
        }
    } else {
        let (n, m, e) = finite_parts(negative, biased, frac, false);
        encode_rounded(n, m, e, true) as u64
    }
}

/// The bits of a binary64 narrowed to binary32: rounded to nearest, ties to
/// even; too large a value becomes an infinity; a NaN keeps its sign and the
/// high bits of its payload and is made quiet.
pub open spec fn narrow_spec(b: u64) -> u32 {
    let negative = b >= 0x8000_0000_0000_0000;
    let biased = ((b / 0x10_0000_0000_0000) % 2048) as nat;
    let frac = (b % 0x10_0000_0000_0000) as nat;
    let sign: nat = if negative { 0x8000_0000 } else { 0 };
    if biased == 2047 {
        if frac == 0 {
            (sign + 0x7F80_0000) as u32
        } else {
            (sign + 0x7F80_0000 + ((frac / 0x2000_0000) % 0x40_0000 + 0x40_0000)) as u32
        }
    } else {
        let (n, m, e) = finite_parts(negative, biased, frac, true);
        encode_rounded(n, m, e, false) as u32
    }
}

/// The bits of the binary64 nearest an integer (ties to even).
pub open spec fn int_to_f64_spec(i: int) -> u64 {
    let m: nat = if i < 0 { (-i) as nat } else { i as nat };
    encode_rounded(i < 0, m, 0, true) as u64
}

fn bit_len_exec(m: u128) -> (n: u32)
    ensures
        n == bit_len(m as nat),
        n <= 128,
{
    let mut x = m;
    let mut n: u32 = 0;
    proof { lemma_pow2_127(); lemma_bit_len_bound(m as nat, 128); }
    while x > 0
        invariant
            bit_len(m as nat) == n + bit_len(x as nat),
            n + bit_len(x as nat) <= 128,
        decreases x,
    {
        proof { lemma_bit_len_step(x as nat); }
        x = x / 2;
        n = n + 1;
    }
    n
}

proof fn lemma_bit_len_step(x: nat)
    requires
        x > 0,
    ensures
        bit_len(x) == 1 + bit_len(x / 2),
{
}

proof fn lemma_bit_len_bound(m: nat, k: nat)
    requires
        m < pow2(k),
    ensures
        bit_len(m) <= k,
    decreases k,
{
    if m > 0 {
        lemma_bit_len_bound(m / 2, (k - 1) as nat);
    }
}

proof fn lemma_bit_len_lower(m: nat)
    requires
        m > 0,
    ensures
        pow2((bit_len(m) - 1) as nat) <= m < pow2(bit_len(m)),
    decreases m,
{
    let b = bit_len(m / 2);
    assert(bit_len(m) == b + 1);
    assert(pow2(b + 1) == 2 * pow2(b));
    if m / 2 > 0 {
        lemma_bit_len_lower(m / 2);
        assert(pow2(b) == 2 * pow2((b - 1) as nat));
    } else {
        assert(b == 0);
        assert(pow2(0) == 1);
    }
}

/// Rounds `(-1)^negative * m * 2^e` to the target format, for `m` at
/// most `2^127` and `e` in `-1074..=971`.
fn encode_rounded_exec(negative: bool, m: u128, e: i32, wide: bool) -> (r: u128)
    requires
        m <= pow2(127),
        -1074 <= e <= 971,
    ensures
        r == encode_rounded(negative, m as nat, e as int, wide),
{
    proof { lemma_pow2_64(); lemma_pow2_127(); lemma_pow2_mono(64, 127); }
    let mb: u32 = if wide { 52 } else { 23 };
    let eb: u32 = if wide { 11 } else { 8 };
    let emax: u128 = if wide { 2047 } else { 255 };
    let emin: i32 = if wide { -1074 } else { -149 };
    proof { lemma_pow2_mono(mb as nat + eb as nat, 63); lemma_pow2_mono(mb as nat + 1, 64); }
    let sign: u128 = if negative { pow2_exec(eb + mb) } else { 0 };
    if m == 0 {
        return sign;
    }
    let n = bit_len_exec(m);
    proof {
        lemma_pow2_mono(127, 128);
        lemma_bit_len_bound(m as nat, 128);
        lemma_bit_len_lower(m as nat);
    }
    let t0: i32 = n as i32 + e - (mb as i32 + 1);
    let t: i32 = if t0 < emin { emin } else { t0 };
    let q0: u128 = if t <= e {
        let k = (e - t) as u32;
        proof {
            lemma_pow2_mono((n + k) as nat, mb as nat + 1);
            lemma_pow2_mul(m as nat, n as nat, k as nat);
        }
        let r = m * pow2_exec(k);
        assert(r <= pow2(127));
        r
    } else {
        let k = (t - e) as u32;
        if k > 127 {
            proof {
                lemma_pow2_mono(128, k as nat);
                assert(pow2(128) == 2 * pow2(127));
                assert(m < pow2(k as nat));
                vstd::arithmetic::div_mod::lemma_basic_div(m as int, pow2(k as nat) as int);
                vstd::arithmetic::div_mod::lemma_small_mod(m as nat, pow2(k as nat));
            }
            0
        } else {
            proof { lemma_pow2_mono(k as nat, 127); assert(pow2(k as nat) == 2 * pow2((k - 1) as nat)); }
            let p = pow2_exec(k);
            let q = m / p;
            let rem = m % p;
            assert(rem < p);
            proof {
                vstd::arithmetic::div_mod::lemma_div_is_ordered_by_denominator(m as int, 1, p as int);
            }
            assert(q <= m);
            if 2 * rem > p || (2 * rem == p && q % 2 == 1) { q + 1 } else { q }
        }
    };
    assert(q0 <= pow2(127) + 1);
    assert(sign <= 0x8000_0000_0000_0000);
    let top = pow2_exec(mb + 1);
    let half = pow2_exec(mb);
    let (q, t2): (u128, i32) = if q0 == top { (q0 / 2, t + 1) } else { (q0, t) };
    if q < half {
        return sign + q;
    }
    let biased: i64 = t2 as i64 - emin as i64 + 1;
    proof { lemma_pow2_mono(mb as nat, 52); }
    assert(half <= 0x10_0000_0000_0000);
    if biased >= emax as i64 {
        sign + emax * half
    } else {
        let bu = biased as u128;
        assert(bu * half <= 2047 * 0x10_0000_0000_0000) by (nonlinear_arith)
            requires bu <= 2047, half <= 0x10_0000_0000_0000;
        sign + bu * half + (q - half)
    }
}

/// Widens a binary32 (as bits) to a binary64 (as bits), exactly.
pub fn widen_f32_bits(b: u32) -> (r: u64)
    ensures
        r == widen_spec(b),
{
    let negative = b >= 0x8000_0000;
    let biased: u32 = (b / 0x80_0000) % 256;
    let frac: u32 = b % 0x80_0000;
    assert(frac < 0x80_0000);
    let sign: u64 = if negative { 0x8000_0000_0000_0000 } else { 0 };
    assert(sign <= 0x8000_0000_0000_0000);
    if biased == 255 {
        if frac == 0 {
            sign + 0x7FF0_0000_0000_0000
        } else {
            let payload: u64 = ((frac as u64) % 0x40_0000 + 0x40_0000) * 0x2000_0000;
            assert(payload < 0x10_0000_0000_0000);
            sign + (0x7FF0_0000_0000_0000 + payload)
        }
    } else {
        proof { lemma_pow2_64(); lemma_pow2_127(); }
        let (m, e): (u128, i32) = if biased == 0 { (frac as u128, -149) } else { (0x80_0000 + frac as u128, biased as i32 - 150) };
        encode_rounded_exec(negative, m, e, true) as u64
    }
}

/// Narrows a binary64 (as bits) to a binary32 (as bits), rounding to
/// nearest, ties to even.
pub fn narrow_f64_bits(b: u64) -> (r: u32)
    ensures
        r == narrow_spec(b),
{
    let negative = b >= 0x8000_0000_0000_0000;
    let biased: u64 = (b / 0x10_0000_0000_0000) % 2048;
    let frac: u64 = b % 0x10_0000_0000_0000;
    assert(frac < 0x10_0000_0000_0000);
    assert(frac / 0x2000_0000 < 0x80_0000);
    let sign: u32 = if negative { 0x8000_0000 } else { 0 };
    assert(sign <= 0x8000_0000);
    if biased == 2047 {
        if frac == 0 {
            sign + 0x7F80_0000
        } else {
            let payload: u32 = ((frac / 0x2000_0000) % 0x40_0000 + 0x40_0000) as u32;
            assert(payload < 0x80_0000);
            sign + (0x7F80_0000 + payload)
        }
    } else {
        proof { lemma_pow2_64(); lemma_pow2_127(); }
        let (m, e): (u128, i32) = if biased == 0 {
            (frac as u128, -1074)
        } else {
            (0x10_0000_0000_0000 + frac as u128, biased as i32 - 1075)
        };
        encode_rounded_exec(negative, m, e, false) as u32
    }
}

/// The binary64 nearest an integer, as bits (ties to even).
pub fn i128_to_f64_bits(i: i128) -> (r: u64)
    ensures
        r == int_to_f64_spec(i as int),
{
    let m: u128 = if i < 0 {
        if i == i128::MIN { 0x8000_0000_0000_0000_0000_0000_0000_0000u128 } else { (-i) as u128 }
    } else {
        i as u128
    };
    proof { lemma_pow2_127(); }
    encode_rounded_exec(i < 0, m, 0, true) as u64
}

proof fn lemma_pow2_mul(m: nat, n: nat, k: nat)
    requires
        m < pow2(n),
    ensures
        m * pow2(k) < pow2(n + k),
    decreases k,
{
    if k > 0 {
        lemma_pow2_mul(m, n, (k - 1) as nat);
        let a = m * pow2((k - 1) as nat);
        assert(a < pow2((n + k - 1) as nat));
        assert(pow2(k) == 2 * pow2((k - 1) as nat));
        assert(pow2(n + k) == 2 * pow2((n + k - 1) as nat));
        assert(m * pow2(k) == 2 * a) by (nonlinear_arith)
            requires pow2(k) == 2 * pow2((k - 1) as nat), a == m * pow2((k - 1) as nat);
    } else {
        assert(pow2(0) == 1);
        assert(m * pow2(0) == m);
    }
}

// ---------- widening and narrowing back ----------

/// A binary32 that is not a signalling NaN (a NaN whose quiet bit is clear).
pub open spec fn not_signalling(b: u32) -> bool {
    let biased = (b / 0x80_0000) % 256;
    let frac = b % 0x80_0000;
    !(biased == 255 && 0 < frac < 0x40_0000)
}

/// A binary32's bits are its sign, exponent and fraction fields.
proof fn lemma_split32(b: u32)
    ensures
        b as int == (if b >= 0x8000_0000 { 0x8000_0000int } else { 0int }) + ((b / 0x80_0000) % 256) * 0x80_0000
            + b % 0x80_0000,
{
    let x = b as int;
    assert(x == (x / 0x80_0000) * 0x80_0000 + x % 0x80_0000) by (nonlinear_arith);
    assert(x / 0x80_0000 == (if x >= 0x8000_0000 { 256int } else { 0int }) + (x / 0x80_0000) % 256) by (nonlinear_arith)
        requires
            0 <= x < 0x1_0000_0000;
}

/// A binary64 built from a sign, an exponent field and a fraction field
/// reads back as those fields.
proof fn lemma_split64(neg: bool, bb: nat, ff: nat)
    requires
        bb < 2048,
        ff < 0x10_0000_0000_0000,
    ensures
        ({
            let x = (if neg { 0x8000_0000_0000_0000nat } else { 0nat }) + bb * 0x10_0000_0000_0000 + ff;
            &&& x < 0x1_0000_0000_0000_0000
            &&& (x >= 0x8000_0000_0000_0000) == neg
            &&& (x / 0x10_0000_0000_0000) % 2048 == bb
            &&& x % 0x10_0000_0000_0000 == ff
        }),
{
    let s: nat = if neg { 0x8000_0000_0000_0000nat } else { 0nat };
    let x = s + bb * 0x10_0000_0000_0000 + ff;
    assert(bb * 0x10_0000_0000_0000 + ff < 0x8000_0000_0000_0000) by (nonlinear_arith)
        requires
            bb < 2048,
            ff < 0x10_0000_0000_0000;
    assert(x / 0x10_0000_0000_0000 == (if neg { 2048nat } else { 0nat }) + bb) by (nonlinear_arith)
        requires
            x == s + bb * 0x10_0000_0000_0000 + ff,
            s == (if neg { 0x8000_0000_0000_0000nat } else { 0nat }),
            ff < 0x10_0000_0000_0000;
    assert(x % 0x10_0000_0000_0000 == ff) by (nonlinear_arith)
        requires
            x == s + bb * 0x10_0000_0000_0000 + ff,
            s == (if neg { 0x8000_0000_0000_0000nat } else { 0nat }),
            ff < 0x10_0000_0000_0000;
}

/// `m` needs exactly `l` bits.
proof fn lemma_bit_len_is(m: nat, l: nat)
    requires
        l >= 1,
        pow2((l - 1) as nat) <= m < pow2(l),
    ensures
        bit_len(m) == l,
{
    lemma_bit_len_bound(m, l);
    lemma_pow2_mono(0, (l - 1) as nat);
    lemma_bit_len_lower(m);
    if bit_len(m) < l {
        lemma_pow2_mono(bit_len(m), (l - 1) as nat);
    }
}

/// Rounding an exact multiple of `2^k` drops the zeros.
proof fn lemma_round_exact(q: nat, k: nat)
    requires
        k > 0,
    ensures
        round_half_even(q * pow2(k), k) == q,
{
    lemma_pow2_mono(0, k);
    let p = pow2(k);
    assert((q * p) / p == q && (q * p) % p == 0) by (nonlinear_arith)
        requires
            p > 0;
}

/// A normal binary32 widens exactly.
proof fn lemma_widen_normal(neg: bool, biased: nat, frac: nat)
    requires
        1 <= biased <= 254,
        frac < 0x80_0000,
    ensures
        encode_rounded(neg, 0x80_0000 + frac, biased - 150, true)
            == (if neg { 0x8000_0000_0000_0000nat } else { 0nat }) + (biased + 896) * 0x10_0000_0000_0000
            + frac * 0x2000_0000,
{
    lemma_pow2_64();
    let m: nat = 0x80_0000 + frac;
    lemma_bit_len_is(m, 24);
    let e = biased - 150;
    assert(target_exp(m, e, true) == biased - 179);
    assert(rounded_sig(m, e, true) == m * 0x2000_0000);
    assert(m * 0x2000_0000 < 0x20_0000_0000_0000 && m * 0x2000_0000 >= 0x10_0000_0000_0000) by (nonlinear_arith)
        requires
            0x80_0000 <= m < 0x100_0000;
    assert(m * 0x2000_0000 - 0x10_0000_0000_0000 == frac * 0x2000_0000) by (nonlinear_arith)
        requires
            m == 0x80_0000 + frac;
}

/// ... and narrows back.
proof fn lemma_narrow_normal(neg: bool, biased: nat, frac: nat)
    requires
        1 <= biased <= 254,
        frac < 0x80_0000,
    ensures
        encode_rounded(neg, 0x10_0000_0000_0000 + frac * 0x2000_0000, biased - 179, false)
            == (if neg { 0x8000_0000nat } else { 0nat }) + biased * 0x80_0000 + frac,
{
    lemma_pow2_64();
    let mm: nat = 0x10_0000_0000_0000 + frac * 0x2000_0000;
    let m: nat = 0x80_0000 + frac;
    assert(mm == m * 0x2000_0000) by (nonlinear_arith)
        requires
            mm == 0x10_0000_0000_0000 + frac * 0x2000_0000,
            m == 0x80_0000 + frac;
    assert(0x10_0000_0000_0000 <= mm < 0x20_0000_0000_0000) by (nonlinear_arith)
        requires
            mm == 0x10_0000_0000_0000 + frac * 0x2000_0000,
            frac < 0x80_0000;
    lemma_bit_len_is(mm, 53);
    let e = biased - 179;
    assert(target_exp(mm, e, false) == biased - 150);
    lemma_round_exact(m, 29);
    assert(rounded_sig(mm, e, false) == m);
}

/// A subnormal binary32's significand, shifted to the top of a binary64's:
/// `frac * 2^(53 - L)` for `L` its bit length lies in `[2^52, 2^53)`.
proof fn lemma_sub_scaled(frac: nat)
    requires
        0 < frac < 0x80_0000,
    ensures
        1 <= bit_len(frac) <= 23,
        0x10_0000_0000_0000 <= frac * pow2((53 - bit_len(frac)) as nat) < 0x20_0000_0000_0000,
{
    lemma_pow2_64();
    let l = bit_len(frac);
    lemma_bit_len_bound(frac, 23);
    lemma_bit_len_lower(frac);
    let k = (53 - l) as nat;
    crate::codec::lemma_pow2_add((l - 1) as nat, k);
    crate::codec::lemma_pow2_add(l, k);
    assert(((l - 1) as nat) + k == 52);
    assert(l + k == 53);
    let p = pow2(k);
    lemma_pow2_mono(0, k);
    assert(pow2((l - 1) as nat) * p <= frac * p && frac * p < pow2(l) * p) by (nonlinear_arith)
        requires
            pow2((l - 1) as nat) <= frac < pow2(l),
            p > 0;
}

/// A subnormal binary32 widens exactly, to a normal binary64.
proof fn lemma_widen_sub(neg: bool, frac: nat)
    requires
        0 < frac < 0x80_0000,
    ensures
        ({
            let l = bit_len(frac);
            let q = frac * pow2((53 - l) as nat);
            encode_rounded(neg, frac, -149, true)
                == (if neg { 0x8000_0000_0000_0000nat } else { 0nat }) + (l + 873) * 0x10_0000_0000_0000
                + (q - 0x10_0000_0000_0000)
        }),
{
    lemma_pow2_64();
    lemma_sub_scaled(frac);
    let l = bit_len(frac);
    assert(target_exp(frac, -149, true) == l - 202);
    assert(rounded_sig(frac, -149, true) == frac * pow2((53 - l) as nat));
}

/// ... and narrows back.
proof fn lemma_narrow_sub(neg: bool, frac: nat)
    requires
        0 < frac < 0x80_0000,
    ensures
        ({
            let l = bit_len(frac);
            let q = frac * pow2((53 - l) as nat);
            encode_rounded(neg, q, l - 202, false) == (if neg { 0x8000_0000nat } else { 0nat }) + frac
        }),
{
    lemma_pow2_64();
    lemma_sub_scaled(frac);
    let l = bit_len(frac);
    let q = frac * pow2((53 - l) as nat);
    lemma_bit_len_is(q, 53);
    assert(target_exp(q, l - 202, false) == -149);
    lemma_round_exact(frac, (53 - l) as nat);
    assert(rounded_sig(q, l - 202, false) == frac);
}

/// Widening a binary32 to a binary64 and narrowing it back gives the same
/// bits, for every binary32 but a signalling NaN (which widening makes
/// quiet).
pub proof fn lemma_widen_narrow(b: u32)
    requires
        not_signalling(b),
    ensures
        narrow_spec(widen_spec(b)) == b,
{
    lemma_split32(b);
    lemma_pow2_64();
    let neg = b >= 0x8000_0000;
    let biased = ((b / 0x80_0000) % 256) as nat;
    let frac = (b % 0x80_0000) as nat;
    let sign32: nat = if neg { 0x8000_0000nat } else { 0nat };
    if biased == 255 {
        if frac == 0 {
            lemma_split64(neg, 2047, 0);
        } else {
            let ff: nat = (frac % 0x40_0000 + 0x40_0000) * 0x2000_0000;
            assert(ff < 0x10_0000_0000_0000 && ff / 0x2000_0000 == frac % 0x40_0000 + 0x40_0000) by (nonlinear_arith)
                requires
                    ff == (frac % 0x40_0000 + 0x40_0000) * 0x2000_0000;
            assert(frac % 0x40_0000 + 0x40_0000 == frac) by (nonlinear_arith)
                requires
                    0x40_0000 <= frac < 0x80_0000;
            lemma_split64(neg, 2047, ff);
            assert(ff != 0);
        }
    } else if biased == 0 {
        if frac == 0 {
            lemma_split64(neg, 0, 0);
        } else {
            lemma_widen_sub(neg, frac);
            lemma_sub_scaled(frac);
            let l = bit_len(frac);
            let q = frac * pow2((53 - l) as nat);
            lemma_split64(neg, (l + 873) as nat, (q - 0x10_0000_0000_0000) as nat);
            lemma_narrow_sub(neg, frac);
        }
    } else {
        lemma_widen_normal(neg, biased, frac);
        assert(frac * 0x2000_0000 < 0x10_0000_0000_0000) by (nonlinear_arith)
            requires
                frac < 0x80_0000;
        lemma_split64(neg, biased + 896, frac * 0x2000_0000);
        lemma_narrow_normal(neg, biased, frac);
    }
}

} // verus!
