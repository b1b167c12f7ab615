//! Flags fields: what compiling guarantees of a flags field's masks, what
//! unpacking reads from its word, and that packing what was read writes
//! the word again.

use vstd::prelude::*;

use crate::codec::{
    lemma_pow256_values, lemma_pow2_is_vstd, lemma_pow2_mono, lemma_uint_roundtrip, lemma_uint_value_bound, pow2,
    uint_bytes, uint_value,
};
use crate::error::Kind;
use crate::pack::{flag_known, flag_width, flag_word, flags_raw, flags_value, ones, rest_word};
use crate::program::{FlagItem, IntPrim, RestPolicy};
use crate::value::{dict_get, lemma_dict_get_at, Value};

verus! {

/// A run of ones from bit 0: adding one carries through all of it.
pub open spec fn low_run(m: u64) -> bool {
    m == u64::MAX || m & ((m + 1) as u64) == 0
}

/// In a run of ones from bit 0, a set bit has every bit below it set, and
/// a clear bit nothing above it.
proof fn lemma_run_bits(m: u64, n: u64)
    requires
        low_run(m),
        n < 64,
    ensures
        (m >> n) & 1 == 1 ==> m & (((1u64 << n) - 1) as u64) == (((1u64 << n) - 1) as u64),
        (m >> n) & 1 != 1 ==> m >> n == 0,
{
    assert(((m == 0xFFFF_FFFF_FFFF_FFFFu64 || m & ((m + 1) as u64) == 0) && n < 64 && (m >> n) & 1 == 1)
        ==> m & (((1u64 << n) - 1) as u64) == (((1u64 << n) - 1) as u64)) by (bit_vector);
    assert(((m == 0xFFFF_FFFF_FFFF_FFFFu64 || m & ((m + 1) as u64) == 0) && n < 64 && (m >> n) & 1 != 1)
        ==> m >> n == 0) by (bit_vector);
}

/// `2^a == 2^b` only where `a == b`.
proof fn lemma_pow2_inj(a: nat, b: nat)
    requires
        pow2(a) == pow2(b),
    ensures
        a == b,
{
    if a < b {
        lemma_pow2_mono(a + 1, b);
        assert(pow2(a + 1) == 2 * pow2(a));
        lemma_pow2_mono(0, a);
    } else if b < a {
        lemma_pow2_mono(b + 1, a);
        assert(pow2(b + 1) == 2 * pow2(b));
        lemma_pow2_mono(0, b);
    }
}

/// The low `n` bits of a run of ones from bit 0 are the run's first
/// `ones(m, n)` ones: their value is one less than a power of two.
proof fn lemma_ones_run(m: u64, n: nat)
    requires
        low_run(m),
        n <= 64,
    ensures
        (m as nat) % pow2(n) + 1 == pow2(ones(m, n)),
    decreases n,
{
    if n == 0 {
        assert(pow2(0) == 1);
    } else {
        let j: nat = (n - 1) as nat;
        lemma_ones_run(m, j);
        lemma_pow2_mono(0, j);
        assert(pow2(n) == 2 * pow2(j));
        let pj = pow2(j);
        let x = m as nat;
        assert(x % (pj * 2) == pj * ((x / pj) % 2) + x % pj) by {
            vstd::arithmetic::div_mod::lemma_mod_breakdown(x as int, pj as int, 2);
        }
        assert(pj * 2 == pow2(n)) by (nonlinear_arith)
            requires
                pow2(n) == 2 * pj;
        // The bit at `j` is the quotient's parity.
        lemma_pow2_is_vstd(j);
        vstd::bits::lemma_u64_shr_is_div(m, j as u64);
        let q = m >> (j as u64);
        assert(q as nat == x / pj);
        assert(q & 1 == (q % 2) as u64) by (bit_vector);
        lemma_run_bits(m, j as u64);
        if q & 1 == 1 {
            // Every bit below `j` is set: the low `j` bits are 2^j - 1.
            vstd::bits::lemma_u64_low_bits_mask_is_mod(m, j);
            vstd::bits::lemma_u64_pow2_no_overflow(j);
            vstd::bits::lemma_u64_shl_is_mul(1, j as u64);
            assert(vstd::bits::low_bits_mask(j) == vstd::arithmetic::power2::pow2(j) - 1) by {
                vstd::arithmetic::power2::lemma_pow2_pos(j);
            }
            assert(x % pj == pj - 1);
            lemma_pow2_inj(j, ones(m, j));
            assert(ones(m, n) == ones(m, j) + 1);
            assert((x / pj) % 2 == 1);
            assert(pj * ((x / pj) % 2) == pj) by (nonlinear_arith)
                requires
                    (x / pj) % 2 == 1;
            assert(x % pow2(n) == x % (pj * 2));
            assert(x % pow2(n) == pj + (pj - 1));
            assert(pow2(ones(m, n)) == 2 * pow2(ones(m, j)));
        } else {
            assert(ones(m, n) == ones(m, j));
            assert((x / pj) % 2 == 0);
            assert(pj * ((x / pj) % 2) == 0) by (nonlinear_arith)
                requires
                    (x / pj) % 2 == 0;
            assert(x % pow2(n) == x % (pj * 2));
            assert(x % pow2(n) == x % pj);
        }
    }
}

/// A run of ones from bit 0 is `2^k - 1` for `k` its count of ones.
pub proof fn lemma_run_value(m: u64)
    requires
        low_run(m),
    ensures
        m as nat + 1 == pow2(ones(m, 64)),
{
    lemma_ones_run(m, 64);
    crate::codec::lemma_pow2_64();
    assert((m as nat) % pow2(64) == m as nat) by {
        vstd::arithmetic::div_mod::lemma_small_mod(m as nat, pow2(64));
    }
}

// ---------- what compiling guarantees ----------

/// The bits of an unsigned integer as wide as `prim`.
pub open spec fn base_mask(prim: IntPrim) -> u64 {
    if prim.spec_width() == 8 {
        0xFFFF_FFFF_FFFF_FFFFu64
    } else if prim.spec_width() == 4 {
        0xFFFF_FFFFu64
    } else if prim.spec_width() == 2 {
        0xFFFFu64
    } else {
        0xFFu64
    }
}

/// The bits the first `n` flags cover together.
pub open spec fn flags_union(items: Seq<FlagItem>, n: nat) -> u64
    decreases n,
{
    if n == 0 { 0u64 } else { flags_union(items, (n - 1) as nat) | items[n - 1].mask }
}

/// The union of the first `n` masks depends on those masks alone.
pub proof fn lemma_union_prefix(a: Seq<FlagItem>, b: Seq<FlagItem>, n: nat)
    requires
        n <= a.len(),
        n <= b.len(),
        forall|i: int| 0 <= i < n ==> (#[trigger] a[i]).mask == b[i].mask,
    ensures
        flags_union(a, n) == flags_union(b, n),
    decreases n,
{
    if n > 0 {
        lemma_union_prefix(a, b, (n - 1) as nat);
        assert(a[n - 1].mask == b[n - 1].mask);
    }
}

/// One flag as compiled: its mask one run of ones from bit `shift`, read
/// as a bool exactly when that run is one bit long.
pub open spec fn flag_shape(item: FlagItem) -> bool {
    &&& item.shift < 64
    &&& item.mask & (((1u64 << item.shift) - 1) as u64) == 0
    &&& low_run(item.mask >> item.shift)
    &&& item.is_bool == (ones(item.mask >> item.shift, 64) == 1)
}

/// A flags field as compiled: every flag shaped, names distinct and none
/// `_rest`, every mask inside the integer, and the rest mask the bits of
/// the integer no flag covers.
pub open spec fn flags_ok(items: Seq<FlagItem>, prim: IntPrim, rest_mask: u64) -> bool {
    &&& forall|i: int| 0 <= i < items.len() ==> flag_shape(#[trigger] items[i])
    &&& forall|i: int, j: int| 0 <= i < j < items.len() ==> (#[trigger] items[i]).key@ != (#[trigger] items[j]).key@
    &&& forall|i: int| 0 <= i < items.len() ==> (#[trigger] items[i]).key@ != "_rest"@
    &&& flags_union(items, items.len()) & !base_mask(prim) == 0
    &&& rest_mask == base_mask(prim) & !flags_union(items, items.len())
}

// ---------- what unpacking reads ----------

/// What one flag reads from the word `raw`: its bits shifted down, as a
/// bool or an integer.
pub open spec fn flag_read(item: FlagItem, raw: u64) -> Value {
    let ext: u64 = if item.shift < 64 { (raw & item.mask) >> item.shift } else { 0u64 };
    if item.is_bool { Value::Bool(ext != 0) } else { Value::Int(ext as i128) }
}

/// `fm` is the map a flags field reads from `raw`: each flag under its
/// name in order, then the leftover bits under `_rest` when kept.
pub open spec fn flags_read(fm: Seq<(String, Value)>, items: Seq<FlagItem>, rest: RestPolicy, rest_mask: u64, raw: u64) -> bool {
    &&& fm.len() == items.len() + (if rest is Keep { 1int } else { 0int })
    &&& forall|k: int| 0 <= k < items.len() ==> (#[trigger] fm[k]).0@ == items[k].key@ && fm[k].1 == flag_read(items[k], raw)
    &&& rest is Keep ==> fm[items.len() as int].0@ == "_rest"@
        && fm[items.len() as int].1 == Value::Int((raw & rest_mask) as i128)
}

// ---------- reading back what was read ----------

/// Packing what one flag read gives back the flag's bits of the word.
proof fn lemma_flag_word(item: FlagItem, raw: u64)
    requires
        flag_shape(item),
    ensures
        flag_word(item, Some(flag_read(item, raw))) == Ok::<u64, Kind>(raw & item.mask),
{
    let s = item.shift as u64;
    let mask = item.mask;
    let mk = mask >> s;
    let e = (raw & mask) >> s;
    assert(s < 64 && mask & (((1u64 << s) - 1) as u64) == 0 ==> (((raw & mask) >> s) << s) == raw & mask) by (bit_vector);
    assert(((raw & mask) >> s) <= (mask >> s)) by (bit_vector);
    lemma_run_value(mk);
    if item.is_bool {
        assert(pow2(0) == 1);
        assert(pow2(1) == 2);
        assert(mk == 1);
        assert(s < 64 && mask & (((1u64 << s) - 1) as u64) == 0 && mask >> s == 1 ==> mask == 1u64 << s) by (bit_vector);
        assert(s < 64 && mask == 1u64 << s ==> (((raw & mask) >> s != 0) == (raw & mask == mask))) by (bit_vector);
        assert(s < 64 && mask == 1u64 << s && raw & mask != mask ==> raw & mask == 0) by (bit_vector);
    } else {
        assert(flag_width(item) == ones(mk, 64));
        assert(e < pow2(flag_width(item)));
        assert(((e as i128) as int) as u64 == e);
    }
}

/// The first `n` flags of what was read pack to the word's bits under
/// their masks.
proof fn lemma_flags_raw(items: Seq<FlagItem>, fm: Seq<(String, Value)>, rest: RestPolicy, rest_mask: u64, raw: u64, n: nat)
    requires
        n <= items.len(),
        forall|i: int| 0 <= i < items.len() ==> flag_shape(#[trigger] items[i]),
        forall|i: int, j: int| 0 <= i < j < items.len() ==> (#[trigger] items[i]).key@ != (#[trigger] items[j]).key@,
        flags_read(fm, items, rest, rest_mask, raw),
    ensures
        flags_raw(items, fm, n) == Ok::<u64, Kind>(raw & flags_union(items, n)),
    decreases n,
{
    if n == 0 {
        assert(raw & 0u64 == 0u64) by (bit_vector);
    } else {
        let j = (n - 1) as int;
        lemma_flags_raw(items, fm, rest, rest_mask, raw, (n - 1) as nat);
        assert(fm[j].0@ == items[j].key@ && fm[j].1 == flag_read(items[j], raw));
        assert forall|i: int| 0 <= i < j implies fm[i].0@ != fm[j].0@ by {
            assert(fm[i].0@ == items[i].key@);
        }
        lemma_dict_get_at(fm, j);
        assert(flag_shape(items[j]));
        lemma_flag_word(items[j], raw);
        let u = flags_union(items, (n - 1) as nat);
        let m = items[j].mask;
        assert((raw & u) | (raw & m) == raw & (u | m)) by (bit_vector);
    }
}

/// Unpacking a flags word and packing the map that comes out gives the
/// word back: every key of the map is one the field knows, and the packed
/// word is the one read. Where the field drops its leftover bits, only a
/// word without them comes back.
pub proof fn lemma_flags_roundtrip(items: Seq<FlagItem>, prim: IntPrim, rest: RestPolicy, rest_mask: u64, raw: u64, fm: Seq<(String, Value)>)
    requires
        flags_ok(items, prim, rest_mask),
        raw & !base_mask(prim) == 0,
        flags_read(fm, items, rest, rest_mask, raw),
        rest is Keep || raw & rest_mask == 0,
    ensures
        forall|j: int| 0 <= j < fm.len() ==> flag_known(items, rest, #[trigger] fm[j].0@),
        flags_value(items, rest, rest_mask, fm) == Ok::<u64, Kind>(raw),
{
    assert forall|j: int| 0 <= j < fm.len() implies flag_known(items, rest, #[trigger] fm[j].0@) by {
        if j < items.len() {
            assert(fm[j].0@ == items[j].key@);
        }
    }
    lemma_flags_raw(items, fm, rest, rest_mask, raw, items.len());
    let u = flags_union(items, items.len());
    let b = base_mask(prim);
    if rest is Keep {
        let n = items.len() as int;
        assert forall|i: int| 0 <= i < n implies fm[i].0@ != fm[n].0@ by {
            assert(fm[i].0@ == items[i].key@);
        }
        lemma_dict_get_at(fm, n);
        let l = raw & rest_mask;
        assert((l as i128) as int == l as int);
        assert(l & !rest_mask == 0) by (bit_vector)
            requires
                l == raw & rest_mask;
        assert(rest_word(fm, rest_mask) == Ok::<u64, Kind>(l & rest_mask));
        assert(l & rest_mask == l) by (bit_vector)
            requires
                l == raw & rest_mask;
        assert((raw & u) | (raw & rest_mask) == raw) by (bit_vector)
            requires
                u & !b == 0,
                raw & !b == 0,
                rest_mask == b & !u;
    } else {
        assert(raw & u == raw) by (bit_vector)
            requires
                u & !b == 0,
                raw & !b == 0,
                rest_mask == b & !u,
                raw & rest_mask == 0;
    }
}

/// The same at the level of bytes: a flags field's bytes, unpacked and
/// packed again, come back as they were (with the same provision for
/// dropped leftover bits).
pub proof fn lemma_flags_bytes_roundtrip(items: Seq<FlagItem>, prim: IntPrim, rest: RestPolicy, rest_mask: u64, be: bool,
    b: Seq<u8>, fm: Seq<(String, Value)>)
    requires
        flags_ok(items, prim, rest_mask),
        b.len() == prim.spec_width(),
        flags_read(fm, items, rest, rest_mask, uint_value(b, be) as u64),
        rest is Keep || (uint_value(b, be) as u64) & rest_mask == 0,
    ensures
        forall|j: int| 0 <= j < fm.len() ==> flag_known(items, rest, #[trigger] fm[j].0@),
        flags_value(items, rest, rest_mask, fm) matches Ok(w) && uint_bytes(w as nat, prim.spec_width(), be) == b,
{
    lemma_uint_value_bound(b, be);
    lemma_pow256_values();
    let x = uint_value(b, be);
    let raw = x as u64;
    assert(raw as nat == x);
    if prim.spec_width() == 1 {
        assert(raw < 0x100 ==> raw & !0xFFu64 == 0) by (bit_vector);
    } else if prim.spec_width() == 2 {
        assert(raw < 0x1_0000 ==> raw & !0xFFFFu64 == 0) by (bit_vector);
    } else if prim.spec_width() == 4 {
        assert(raw < 0x1_0000_0000 ==> raw & !0xFFFF_FFFFu64 == 0) by (bit_vector);
    } else {
        assert(raw & !0xFFFF_FFFF_FFFF_FFFFu64 == 0) by (bit_vector);
    }
    lemma_flags_roundtrip(items, prim, rest, rest_mask, raw, fm);
    lemma_uint_roundtrip(0, b, be);
}

} // verus!
