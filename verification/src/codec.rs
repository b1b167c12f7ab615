use vstd::prelude::*;

use crate::program::IntPrim;

verus! {

/// `256^n`.
pub open spec fn pow256(n: nat) -> nat
    decreases n,
{
    if n == 0 { 1 } else { 256 * pow256((n - 1) as nat) }
}

/// The unsigned value of bytes read most significant first.
pub open spec fn be_value(s: Seq<u8>) -> nat
    decreases s.len(),
{
    if s.len() == 0 { 0 } else { be_value(s.drop_last()) * 256 + s.last() as nat }
}

/// The unsigned value of bytes read least significant first.
pub open spec fn le_value(s: Seq<u8>) -> nat
    decreases s.len(),
{
    if s.len() == 0 { 0 } else { s[0] as nat + 256 * le_value(s.drop_first()) }
}

/// The unsigned value of a field's bytes in the given byte order.
pub open spec fn uint_value(s: Seq<u8>, be: bool) -> nat {
    if be { be_value(s) } else { le_value(s) }
}

/// The low `w` bytes of `v`, most significant first.
pub open spec fn be_bytes(v: nat, w: nat) -> Seq<u8>
    decreases w,
{
    if w == 0 { Seq::empty() } else { be_bytes(v / 256, (w - 1) as nat).push((v % 256) as u8) }
}

/// The low `w` bytes of `v`, least significant first.
pub open spec fn le_bytes(v: nat, w: nat) -> Seq<u8>
    decreases w,
{
    if w == 0 { Seq::empty() } else { seq![(v % 256) as u8] + le_bytes(v / 256, (w - 1) as nat) }
}

/// The low `w` bytes of `v` in the given byte order.
pub open spec fn uint_bytes(v: nat, w: nat, be: bool) -> Seq<u8> {
    if be { be_bytes(v, w) } else { le_bytes(v, w) }
}

/// A signed value as its two's-complement pattern of `w` bytes.
pub open spec fn twos(v: int, w: nat) -> nat {
    if v < 0 { (v + pow256(w)) as nat } else { v as nat }
}

/// The bytes an integer field of type `prim` holds for `v`.
pub open spec fn int_bytes(prim: IntPrim, be: bool, v: int) -> Seq<u8> {
    uint_bytes(twos(v, prim.spec_width()), prim.spec_width(), be)
}

/// The two's-complement value of a field's bytes.
pub open spec fn sint_value(s: Seq<u8>, be: bool) -> int {
    let u = uint_value(s, be);
    if u * 2 >= pow256(s.len()) { u - pow256(s.len()) } else { u as int }
}

/// The value an integer field of type `prim` reads from its bytes.
pub open spec fn int_value(prim: IntPrim, be: bool, s: Seq<u8>) -> int {
    if prim.spec_signed() { sint_value(s, be) } else { uint_value(s, be) as int }
}

pub proof fn lemma_pow256_values()
    ensures
        pow256(0) == 1,
        pow256(1) == 0x100,
        pow256(2) == 0x1_0000,
        pow256(3) == 0x100_0000,
        pow256(4) == 0x1_0000_0000,
        pow256(5) == 0x100_0000_0000,
        pow256(6) == 0x1_0000_0000_0000,
        pow256(7) == 0x100_0000_0000_0000,
        pow256(8) == 0x1_0000_0000_0000_0000,
{
    reveal_with_fuel(pow256, 9);
}

proof fn lemma_be_value_bound(s: Seq<u8>)
    ensures
        be_value(s) < pow256(s.len()),
    decreases s.len(),
{
    if s.len() > 0 {
        lemma_be_value_bound(s.drop_last());
    }
}

proof fn lemma_le_value_bound(s: Seq<u8>)
    ensures
        le_value(s) < pow256(s.len()),
    decreases s.len(),
{
    if s.len() > 0 {
        lemma_le_value_bound(s.drop_first());
    }
}

/// A field's unsigned value fits its width.
pub proof fn lemma_uint_value_bound(s: Seq<u8>, be: bool)
    ensures
        uint_value(s, be) < pow256(s.len()),
{
    lemma_be_value_bound(s);
    lemma_le_value_bound(s);
}

proof fn lemma_be_bytes_len(v: nat, w: nat)
    ensures
        be_bytes(v, w).len() == w,
    decreases w,
{
    if w > 0 {
        lemma_be_bytes_len(v / 256, (w - 1) as nat);
    }
}

proof fn lemma_le_bytes_len(v: nat, w: nat)
    ensures
        le_bytes(v, w).len() == w,
    decreases w,
{
    if w > 0 {
        lemma_le_bytes_len(v / 256, (w - 1) as nat);
    }
}

pub proof fn lemma_uint_bytes_len(v: nat, w: nat, be: bool)
    ensures
        uint_bytes(v, w, be).len() == w,
{
    lemma_be_bytes_len(v, w);
    lemma_le_bytes_len(v, w);
}

proof fn lemma_div_mod_256(v: nat, n: nat)
    ensures
        (v % 256) + 256 * ((v / 256) % pow256(n)) == v % pow256(n + 1),
{
    let p = pow256(n);
    assert(pow256(n + 1) == 256 * p);
    assert(p > 0) by { lemma_pow256_pos(n); }
    vstd::arithmetic::div_mod::lemma_breakdown(v as int, 256, p as int);
}

proof fn lemma_pow256_pos(n: nat)
    ensures
        pow256(n) > 0,
    decreases n,
{
    if n > 0 {
        lemma_pow256_pos((n - 1) as nat);
    }
}

/// Reading the bytes written for `v` gives `v` back, modulo the width.
pub proof fn lemma_be_roundtrip_value(v: nat, w: nat)
    ensures
        be_value(be_bytes(v, w)) == v % pow256(w),
    decreases w,
{
    if w == 0 {
    } else {
        lemma_be_roundtrip_value(v / 256, (w - 1) as nat);
        let s = be_bytes(v, w);
        assert(s.drop_last() =~= be_bytes(v / 256, (w - 1) as nat));
        lemma_div_mod_256(v, (w - 1) as nat);
    }
}

pub proof fn lemma_le_roundtrip_value(v: nat, w: nat)
    ensures
        le_value(le_bytes(v, w)) == v % pow256(w),
    decreases w,
{
    if w == 0 {
    } else {
        lemma_le_roundtrip_value(v / 256, (w - 1) as nat);
        let s = le_bytes(v, w);
        assert(s.drop_first() =~= le_bytes(v / 256, (w - 1) as nat));
        lemma_div_mod_256(v, (w - 1) as nat);
    }
}

/// Writing the value read from some bytes gives the same bytes back.
pub proof fn lemma_be_roundtrip_bytes(s: Seq<u8>)
    ensures
        be_bytes(be_value(s), s.len()) == s,
    decreases s.len(),
{
    if s.len() > 0 {
        let v = be_value(s);
        let p = s.drop_last();
        lemma_be_roundtrip_bytes(p);
        assert(v / 256 == be_value(p)) by {
            vstd::arithmetic::div_mod::lemma_fundamental_div_mod_converse(v as int, 256, be_value(p) as int, s.last() as int);
        }
        assert(v % 256 == s.last()) by {
            vstd::arithmetic::div_mod::lemma_fundamental_div_mod_converse(v as int, 256, be_value(p) as int, s.last() as int);
        }
        assert(be_bytes(v, s.len()) =~= s);
    }
}

pub proof fn lemma_le_roundtrip_bytes(s: Seq<u8>)
    ensures
        le_bytes(le_value(s), s.len()) == s,
    decreases s.len(),
{
    if s.len() > 0 {
        let v = le_value(s);
        let t = s.drop_first();
        lemma_le_roundtrip_bytes(t);
        assert(v / 256 == le_value(t)) by {
            vstd::arithmetic::div_mod::lemma_fundamental_div_mod_converse(v as int, 256, le_value(t) as int, s[0] as int);
        }
        assert(v % 256 == s[0]) by {
            vstd::arithmetic::div_mod::lemma_fundamental_div_mod_converse(v as int, 256, le_value(t) as int, s[0] as int);
        }
        assert(le_bytes(v, s.len()) =~= s);
    }
}

/// An unsigned field: what is written is read back, and what is read is
/// written back unchanged.
pub proof fn lemma_uint_roundtrip(v: nat, s: Seq<u8>, be: bool)
    ensures
        uint_value(uint_bytes(v, s.len(), be), be) == v % pow256(s.len()),
        uint_bytes(uint_value(s, be), s.len(), be) == s,
{
    lemma_be_roundtrip_value(v, s.len());
    lemma_le_roundtrip_value(v, s.len());
    lemma_be_roundtrip_bytes(s);
    lemma_le_roundtrip_bytes(s);
}

/// The value read from the first `raw.len()` (at most 8) bytes of `raw`.
pub fn read_uint(raw: &[u8], be: bool) -> (v: u64)
    requires
        raw@.len() <= 8,
    ensures
        v == uint_value(raw@, be),
{
    let n = raw.len();
    let mut v: u64 = 0;
    proof { lemma_pow256_values(); }
    if be {
        let mut i: usize = 0;
        while i < n
            invariant
                n == raw@.len(),
                n <= 8,
                i <= n,
                v == be_value(raw@.subrange(0, i as int)),
                pow256(8) == 0x1_0000_0000_0000_0000,
            decreases n - i,
        {
            proof {
                lemma_be_value_bound(raw@.subrange(0, i as int));
                lemma_pow256_mono(i as nat, 7);
                assert(raw@.subrange(0, i + 1).drop_last() =~= raw@.subrange(0, i as int));
            }
            v = v * 256 + raw[i] as u64;
            i = i + 1;
        }
        proof { assert(raw@.subrange(0, n as int) =~= raw@); }
    } else {
        let mut j: usize = n;
        while j > 0
            invariant
                n == raw@.len(),
                n <= 8,
                j <= n,
                v == le_value(raw@.subrange(j as int, n as int)),
                pow256(8) == 0x1_0000_0000_0000_0000,
            decreases j,
        {
            proof {
                lemma_le_value_bound(raw@.subrange(j as int, n as int));
                lemma_pow256_mono((n - j) as nat, 7);
                assert(raw@.subrange(j - 1, n as int).drop_first() =~= raw@.subrange(j as int, n as int));
            }
            j = j - 1;
            v = raw[j] as u64 + 256 * v;
        }
        proof { assert(raw@.subrange(0, n as int) =~= raw@); }
    }
    v
}

proof fn lemma_pow256_mono(a: nat, b: nat)
    requires
        a <= b,
    ensures
        pow256(a) <= pow256(b),
    decreases b,
{
    if a < b {
        lemma_pow256_mono(a, (b - 1) as nat);
        lemma_pow256_pos((b - 1) as nat);
    }
}

/// `out` with `bytes` written over it starting at `pos`.
pub open spec fn splice(out: Seq<u8>, pos: int, bytes: Seq<u8>) -> Seq<u8> {
    out.subrange(0, pos) + bytes + out.subrange(pos + bytes.len(), out.len() as int)
}

/// Writes the low `w` bytes of `v` at `pos` in the given byte order.
pub fn write_uint_at(out: &mut [u8], pos: usize, w: usize, be: bool, v: u64)
    requires
        pos + w <= old(out)@.len(),
    ensures
        final(out)@ == splice(old(out)@, pos as int, uint_bytes(v as nat, w as nat, be)),
{
    let ghost v0 = v as nat;
    let ghost o = out@;
    let mut x: u64 = v;
    let mut k: usize = 0;
    let len = out.len();
    proof { lemma_uint_bytes_len(v0, w as nat, be); }
    if be {
        while k < w
            invariant
                len == out@.len(),
                o.len() == out@.len(),
                pos + w <= out@.len(),
                k <= w,
                be_bytes(v0, w as nat) == be_bytes(x as nat, (w - k) as nat) + out@.subrange(pos + w - k, pos + w),
                out@.subrange(0, pos as int) == o.subrange(0, pos as int),
                out@.subrange(pos + w, out@.len() as int) == o.subrange(pos + w, o.len() as int),
            decreases w - k,
        {
            let ghost before = out@;
            out[pos + w - 1 - k] = (x % 256) as u8;
            proof {
                let rest = (w - k) as nat;
                assert(be_bytes(x as nat, rest) == be_bytes((x / 256) as nat, (rest - 1) as nat).push((x % 256) as u8));
                assert(out@.subrange(pos + w - k - 1, pos + w) =~= seq![(x % 256) as u8] + before.subrange(pos + w - k, pos + w));
                assert(be_bytes(v0, w as nat) =~= be_bytes((x / 256) as nat, (rest - 1) as nat) + out@.subrange(pos + w - k - 1, pos + w));
                assert(out@.subrange(0, pos as int) =~= before.subrange(0, pos as int));
                assert(out@.subrange(pos + w, out@.len() as int) =~= before.subrange(pos + w, before.len() as int));
            }
            x = x / 256;
            k = k + 1;
        }
        proof {
            assert(be_bytes(0, 0) =~= Seq::<u8>::empty());
            assert(out@ =~= splice(o, pos as int, uint_bytes(v0, w as nat, be)));
        }
    } else {
        while k < w
            invariant
                len == out@.len(),
                o.len() == out@.len(),
                pos + w <= out@.len(),
                k <= w,
                le_bytes(v0, w as nat) == out@.subrange(pos as int, pos + k) + le_bytes(x as nat, (w - k) as nat),
                out@.subrange(0, pos as int) == o.subrange(0, pos as int),
                out@.subrange(pos + w, out@.len() as int) == o.subrange(pos + w, o.len() as int),
            decreases w - k,
        {
            let ghost before = out@;
            out[pos + k] = (x % 256) as u8;
            proof {
                let rest = (w - k) as nat;
                assert(le_bytes(x as nat, rest) == seq![(x % 256) as u8] + le_bytes((x / 256) as nat, (rest - 1) as nat));
                assert(out@.subrange(pos as int, pos + k + 1) =~= before.subrange(pos as int, pos + k).push((x % 256) as u8));
                assert(le_bytes(v0, w as nat) =~= out@.subrange(pos as int, pos + k + 1) + le_bytes((x / 256) as nat, (rest - 1) as nat));
                assert(out@.subrange(0, pos as int) =~= before.subrange(0, pos as int));
                assert(out@.subrange(pos + w, out@.len() as int) =~= before.subrange(pos + w, before.len() as int));
            }
            x = x / 256;
            k = k + 1;
        }
        proof {
            assert(le_bytes(x as nat, 0) =~= Seq::<u8>::empty());
            assert(out@ =~= splice(o, pos as int, uint_bytes(v0, w as nat, be)));
        }
    }
}

/// Writes the low `raw.len()` bytes of `v` in the given byte order.
pub fn write_uint_slice(raw: &mut [u8], be: bool, v: u64)
    ensures
        final(raw)@ == uint_bytes(v as nat, old(raw)@.len(), be),
{
    let w = raw.len();
    write_uint_at(raw, 0, w, be, v);
    proof {
        lemma_uint_bytes_len(v as nat, w as nat, be);
        assert(raw@ =~= uint_bytes(v as nat, w as nat, be));
    }
}

/// The two's-complement value of the first `raw.len()` (1 to 8) bytes.
pub fn read_sint(raw: &[u8], be: bool) -> (v: i128)
    requires
        1 <= raw@.len() <= 8,
    ensures
        v == sint_value(raw@, be),
{
    let u = read_uint(raw, be);
    let w = raw.len();
    proof {
        lemma_pow256_values();
        lemma_uint_value_bound(raw@, be);
    }
    let p: i128 = pow256_exec(w);
    if (u as i128) * 2 >= p {
        u as i128 - p
    } else {
        u as i128
    }
}

/// `256^w` for a width of at most 8 bytes.
pub fn pow256_exec(w: usize) -> (r: i128)
    requires
        w <= 8,
    ensures
        r == pow256(w as nat),
{
    proof { lemma_pow256_values(); }
    match w {
        0 => 1,
        1 => 0x100,
        2 => 0x1_0000,
        3 => 0x100_0000,
        4 => 0x1_0000_0000,
        5 => 0x100_0000_0000,
        6 => 0x1_0000_0000_0000,
        7 => 0x100_0000_0000_0000,
        _ => 0x1_0000_0000_0000_0000,
    }
}

/// `2^(8w) - 1`: the mask of the low `w` bytes (all ones from 8 on).
pub fn mask_bytes(w: usize) -> (r: u64)
    ensures
        r == (if w >= 8 { u64::MAX as nat } else { (pow256(w as nat) - 1) as nat }),
{
    proof { lemma_pow256_values(); }
    if w >= 8 {
        u64::MAX
    } else {
        (pow256_exec(w) - 1) as u64
    }
}

/// Writes `v` as an integer of type `prim` at `pos`, or fails with `Range`
/// where `v` does not fit the type.
pub fn write_int_at(out: &mut [u8], pos: usize, prim: IntPrim, be: bool, v: i128) -> (r: Result<(), crate::error::PackFail>)
    requires
        pos + prim.spec_width() <= old(out)@.len(),
    ensures
        match r {
            Ok(()) => prim.spec_min() <= v <= prim.spec_max()
                && final(out)@ == splice(old(out)@, pos as int, int_bytes(prim, be, v as int)),
            Err(e) => !(prim.spec_min() <= v <= prim.spec_max()) && e.kind == crate::error::Kind::Range
                && e.path@.len() == 0 && final(out)@ == old(out)@,
        },
{
    if v < prim.min() || v > prim.max() {
        return Err(crate::error::PackFail::new(crate::error::Kind::Range));
    }
    let w = prim.width();
    proof { lemma_pow256_values(); }
    let p = pow256_exec(w);
    let u: u64 = if v < 0 { (v + p) as u64 } else { v as u64 };
    write_uint_at(out, pos, w, be, u);
    Ok(())
}

/// An integer field: a value in range is read back as written, and bytes
/// read are written back unchanged.
pub proof fn lemma_int_roundtrip(prim: IntPrim, be: bool, v: int, s: Seq<u8>)
    requires
        prim.spec_min() <= v <= prim.spec_max(),
        s.len() == prim.spec_width(),
    ensures
        int_value(prim, be, int_bytes(prim, be, v)) == v,
        int_bytes(prim, be, int_value(prim, be, s)) == s,
{
    let w = prim.spec_width();
    lemma_pow256_values();
    lemma_uint_bytes_len(twos(v, w), w, be);
    lemma_uint_roundtrip(twos(v, w), int_bytes(prim, be, v), be);
    lemma_uint_roundtrip(twos(v, w), s, be);
    lemma_uint_value_bound(s, be);
    let u = uint_value(s, be);
    if prim.spec_signed() && u * 2 >= pow256(w) {
        assert(twos(u - pow256(w), w) == u);
    }
    assert(prim.spec_signed() ==> prim.spec_max() * 2 + 2 == pow256(w) && prim.spec_min() * 2 == -pow256(w));
    assert(!prim.spec_signed() ==> prim.spec_max() + 1 == pow256(w) && prim.spec_min() == 0);
    let t = twos(v, w);
    assert(t < pow256(w));
    assert(t % pow256(w) == t) by {
        vstd::arithmetic::div_mod::lemma_small_mod(t, pow256(w));
    }
}

/// A field's bytes read as a value of its type's range.
pub proof fn lemma_int_value_range(prim: IntPrim, be: bool, s: Seq<u8>)
    requires
        s.len() == prim.spec_width(),
    ensures
        prim.spec_min() <= int_value(prim, be, s) <= prim.spec_max(),
{
    let w = prim.spec_width();
    lemma_pow256_values();
    lemma_uint_value_bound(s, be);
    assert(prim.spec_signed() ==> prim.spec_max() * 2 + 2 == pow256(w) && prim.spec_min() * 2 == -pow256(w));
    assert(!prim.spec_signed() ==> prim.spec_max() + 1 == pow256(w) && prim.spec_min() == 0);
}

/// `2^n`.
pub open spec fn pow2(n: nat) -> nat
    decreases n,
{
    if n == 0 { 1 } else { 2 * pow2((n - 1) as nat) }
}

/// `2^n` for `n <= 127`.
pub fn pow2_exec(n: u32) -> (r: u128)
    requires
        n <= 127,
    ensures
        r == pow2(n as nat),
{
    let mut r: u128 = 1;
    let mut i: u32 = 0;
    while i < n
        invariant
            i <= n <= 127,
            r == pow2(i as nat),
        decreases n - i,
    {
        proof { lemma_pow2_mono(i as nat, 126); lemma_pow2_127(); }
        r = r * 2;
        i = i + 1;
    }
    r
}

pub proof fn lemma_pow2_add(a: nat, b: nat)
    ensures
        pow2(a + b) == pow2(a) * pow2(b),
    decreases b,
{
    if b > 0 {
        lemma_pow2_add(a, (b - 1) as nat);
        assert(pow2(a + b) == 2 * pow2((a + b - 1) as nat));
        assert(pow2(b) == 2 * pow2((b - 1) as nat));
        assert(pow2(a) * (2 * pow2((b - 1) as nat)) == 2 * (pow2(a) * pow2((b - 1) as nat))) by (nonlinear_arith);
    } else {
        assert(pow2(0) == 1);
    }
}

pub proof fn lemma_pow2_127()
    ensures
        pow2(126) == 0x4000_0000_0000_0000_0000_0000_0000_0000,
        pow2(127) == 0x8000_0000_0000_0000_0000_0000_0000_0000,
        pow2(128) == 0x1_0000_0000_0000_0000_0000_0000_0000_0000,
{
    lemma_pow2_64();
    lemma_pow2_add(62, 64);
    lemma_pow2_add(63, 64);
    lemma_pow2_add(64, 64);
}

pub proof fn lemma_pow2_64()
    ensures
        pow2(64) == 0x1_0000_0000_0000_0000,
        pow2(63) == 0x8000_0000_0000_0000,
        pow2(62) == 0x4000_0000_0000_0000,
        pow2(53) == 0x20_0000_0000_0000,
        pow2(52) == 0x10_0000_0000_0000,
        pow2(24) == 0x100_0000,
        pow2(23) == 0x80_0000,
        pow2(29) == 0x2000_0000,
        pow2(31) == 0x8000_0000,
{
    reveal_with_fuel(pow2, 65);
}

pub proof fn lemma_pow2_mono(a: nat, b: nat)
    requires
        a <= b,
    ensures
        0 < pow2(a) <= pow2(b),
    decreases b,
{
    if a < b {
        lemma_pow2_mono(a, (b - 1) as nat);
    } else if a > 0 {
        lemma_pow2_mono((a - 1) as nat, (a - 1) as nat);
    }
}

/// Bit `k` of a byte sequence read as one MSB-first bit stream.
pub open spec fn bit_of(s: Seq<u8>, k: int) -> u8 {
    (s[k / 8] >> ((7 - k % 8) as u8)) & 1
}

/// Bit `j` (0 = least significant) of `v`.
pub open spec fn vbit(v: u64, j: int) -> u8 {
    ((v >> (j as u64)) & 1) as u8
}

/// The unsigned value of the `n` bits starting at bit `start`, MSB-first.
pub open spec fn bits_uvalue(s: Seq<u8>, start: int, n: nat) -> nat
    decreases n,
{
    if n == 0 { 0 } else { bits_uvalue(s, start, (n - 1) as nat) * 2 + bit_of(s, start + n - 1) as nat }
}

/// The value of a bits field of `width` bits starting at bit `start`:
/// two's complement where `signed`.
pub open spec fn bits_value(s: Seq<u8>, start: int, width: nat, signed: bool) -> int {
    let u = bits_uvalue(s, start, width);
    if signed && u * 2 >= pow2(width) { u - pow2(width) } else { u as int }
}

/// Whether `v` fits a bits field of `width` bits.
pub open spec fn bits_fit(v: int, width: nat, signed: bool) -> bool {
    if signed { -pow2(width) <= 2 * v < pow2(width) } else { 0 <= v < pow2(width) }
}

/// The `width`-bit pattern that stands for `v` (two's complement if negative).
pub open spec fn bits_pattern(v: int, width: nat) -> nat {
    if v < 0 { (v + pow2(width)) as nat } else { v as nat }
}

proof fn lemma_bits_uvalue_bound(s: Seq<u8>, start: int, n: nat)
    ensures
        bits_uvalue(s, start, n) < pow2(n),
    decreases n,
{
    if n > 0 {
        lemma_bits_uvalue_bound(s, start, (n - 1) as nat);
        lemma_bit01(s[(start + n - 1) / 8], (7 - (start + n - 1) % 8) as u8);
    }
}

proof fn lemma_bit01(b: u8, q: u8)
    ensures
        (b >> q) & 1 <= 1,
        ((b >> q) & 1) | 1u8 == 1u8,
        ((b >> q) & 1) | 0u8 == (b >> q) & 1,
{
    assert((b >> q) & 1 <= 1) by (bit_vector);
    assert(((b >> q) & 1) | 1u8 == 1u8) by (bit_vector);
    assert(((b >> q) & 1) | 0u8 == (b >> q) & 1) by (bit_vector);
}

proof fn lemma_low_bit(v: u64, sh: u64)
    ensures
        (v >> sh) & 1 <= 1,
        (v >> sh) & 1 != 0 ==> ((v >> sh) & 1) as u8 == 1u8,
        (v >> sh) & 1 == 0 ==> ((v >> sh) & 1) as u8 == 0u8,
{
    assert((v >> sh) & 1 <= 1) by (bit_vector);
}

proof fn lemma_shift_step(x: u64, v: u64, b: u64)
    requires
        x < 0x8000_0000_0000_0000,
        b <= 1,
    ensures
        (x << 1u64) | b == x * 2 + b,
{
    assert((x << 1u64) | b == x * 2 + b) by (bit_vector)
        requires x < 0x8000_0000_0000_0000, b <= 1;
}

/// The value of the `width` bits at bit `bitpos` of the byte at `base`.
pub fn read_bits(buf: &[u8], base: usize, bitpos: u32, width: u8, signed: bool) -> (v: i128)
    requires
        1 <= width <= 64,
        (base + (bitpos + width + 7) / 8) <= buf@.len(),
        bitpos + width <= u32::MAX,
    ensures
        v == bits_value(buf@, base * 8 + bitpos, width as nat, signed),
{
    let mut v: u64 = 0;
    let mut i: u32 = 0;
    let w = width as u32;
    let ghost start = base * 8 + bitpos;
    let blen = buf.len();
    proof { lemma_pow2_64(); }
    while i < w
        invariant
            blen == buf@.len(),
            w == width as u32,
            1 <= width <= 64,
            i <= w,
            (base + (bitpos + width + 7) / 8) <= buf@.len(),
            bitpos + width <= u32::MAX,
            start == base * 8 + bitpos,
            v == bits_uvalue(buf@, start, i as nat),
            pow2(64) == 0x1_0000_0000_0000_0000,
        decreases w - i,
    {
        let bit_index: u32 = bitpos + i;
        let byte = buf[base + (bit_index / 8) as usize];
        let sh: u8 = (7 - bit_index % 8) as u8;
        let bit: u8 = (byte >> sh) & 1;
        proof {
            lemma_bits_uvalue_bound(buf@, start, i as nat);
            lemma_pow2_mono(i as nat, 63);
            assert(bit <= 1) by (bit_vector) requires bit == (byte >> sh) & 1;
            assert((start + i) / 8 == base + bit_index / 8);
            assert((start + i) % 8 == bit_index % 8);
            lemma_shift_step(v, v, bit as u64);
        }
        v = (v << 1) | (bit as u64);
        i = i + 1;
    }
    proof { lemma_bits_uvalue_bound(buf@, start, width as nat); }
    let p = pow2_exec(w);
    if signed && (v as u128) * 2 >= p {
        (v as i128) - (p as i128)
    } else {
        v as i128
    }
}

/// Whether `v` fits a bits field of `width` bits.
pub fn check_bits_range(v: i128, width: u8, signed: bool) -> (r: bool)
    requires
        1 <= width <= 64,
    ensures
        r == bits_fit(v as int, width as nat, signed),
{
    proof { lemma_pow2_64(); lemma_pow2_mono(width as nat, 64); }
    let p = pow2_exec(width as u32) as i128;
    let h = p / 2;
    proof { assert(pow2(width as nat) == 2 * pow2((width - 1) as nat)); }
    if signed {
        -h <= v && v < h
    } else {
        0 <= v && v < p
    }
}

proof fn lemma_set_bit(b: u8, p: u8, q: u8)
    requires
        p < 8,
        q < 8,
    ensures
        ((b | (1u8 << p)) >> q) & 1 == (if q == p { 1u8 } else { (b >> q) & 1 }),
{
    assert(((b | (1u8 << p)) >> q) & 1 == (if q == p { 1u8 } else { (b >> q) & 1 })) by (bit_vector)
        requires p < 8, q < 8;
}

/// The bits of `out` after ORing `v` (a `width`-bit value) in at bit
/// `start` of the stream: each bit in the field's range ORed with the
/// matching bit of `v` (most significant first), every other bit unchanged.
pub open spec fn bits_ored(old: Seq<u8>, new: Seq<u8>, start: int, width: nat, v: u64) -> bool {
    &&& new.len() == old.len()
    &&& forall|k: int| 0 <= k < 8 * old.len() ==> #[trigger] bit_of(new, k) == if start <= k < start + width {
        bit_of(old, k) | vbit(v, start + width - 1 - k)
    } else {
        bit_of(old, k)
    }
}

/// ORs a value of `width` bits, already masked, into the MSB-first bit
/// stream starting at bit `bit_off` of the byte at `base`.
pub fn or_bits(out: &mut [u8], base: usize, bit_off: u32, width: u8, v: u64)
    requires
        width <= 64,
        (base + (bit_off + width + 7) / 8) <= old(out)@.len(),
        bit_off + width <= u32::MAX,
    ensures
        bits_ored(old(out)@, final(out)@, base * 8 + bit_off, width as nat, v),
{
    let ghost o = out@;
    let ghost start = base * 8 + bit_off;
    let w = width as u32;
    let mut i: u32 = 0;
    let olen = out.len();
    while i < w
        invariant
            olen == out@.len(),
            w == width as u32,
            width <= 64,
            i <= w,
            (base + (bit_off + width + 7) / 8) <= out@.len(),
            bit_off + width <= u32::MAX,
            start == base * 8 + bit_off,
            out@.len() == o.len(),
            forall|k: int| 0 <= k < 8 * o.len() ==> #[trigger] bit_of(out@, k) == if start <= k < start + i {
                bit_of(o, k) | vbit(v, start + width - 1 - k)
            } else {
                bit_of(o, k)
            },
        decreases w - i,
    {
        let ghost before = out@;
        let sh: u64 = (w - 1 - i) as u64;
        let bit = (v >> sh) & 1;
        let idx = bit_off + i;
        let j = base + (idx / 8) as usize;
        let p: u8 = (7 - idx % 8) as u8;
        if bit != 0 {
            out[j] = out[j] | (1u8 << p);
        }
        proof {
            let kk = start + i;
            assert(kk / 8 == j);
            assert(kk % 8 == idx % 8);
            assert(vbit(v, start + width - 1 - kk) == ((v >> sh) & 1) as u8);
            lemma_low_bit(v, sh);
            assert(bit_of(before, kk) == bit_of(o, kk));
            assert forall|k: int| 0 <= k < 8 * o.len() implies #[trigger] bit_of(out@, k) == if start <= k < start + i + 1 {
                bit_of(o, k) | vbit(v, start + width - 1 - k)
            } else {
                bit_of(o, k)
            } by {
                assert(bit_of(before, k) == if start <= k < start + i {
                    bit_of(o, k) | vbit(v, start + width - 1 - k)
                } else {
                    bit_of(o, k)
                });
                lemma_bit01(o[k / 8], (7 - k % 8) as u8);
                if k / 8 != j {
                    assert(out@[k / 8] == before[k / 8]);
                    assert(k != kk);
                } else if bit != 0 {
                    lemma_set_bit(before[j as int], p, (7 - k % 8) as u8);
                    if k == kk {
                    } else {
                        assert(k % 8 != idx % 8);
                    }
                } else {
                    assert(out@ == before);
                }
            }
        }
        i = i + 1;
    }
}

pub proof fn lemma_pow2_is_vstd(n: nat)
    ensures
        pow2(n) == vstd::arithmetic::power2::pow2(n),
    decreases n,
{
    if n == 0 {
        vstd::arithmetic::power2::lemma2_to64();
    } else {
        vstd::arithmetic::power2::lemma_pow2_unfold(n);
        lemma_pow2_is_vstd((n - 1) as nat);
    }
}

/// Bit `j` of `v` is the parity of `v / 2^j`.
proof fn lemma_vbit_div(v: u64, j: nat)
    requires
        j < 64,
    ensures
        vbit(v, j as int) as nat == (v as nat / pow2(j)) % 2,
{
    lemma_pow2_is_vstd(j);
    vstd::bits::lemma_u64_shr_is_div(v, j as u64);
    let x = v >> (j as u64);
    assert(x & 1 == x % 2) by (bit_vector);
}

proof fn lemma_bits_prefix(new: Seq<u8>, start: int, w: nat, v: u64, n: nat)
    requires
        1 <= w <= 64,
        n <= w,
        v < pow2(w),
        forall|k: int| start <= k < start + w ==> #[trigger] bit_of(new, k) == vbit(v, start + w - 1 - k),
    ensures
        bits_uvalue(new, start, n) == v as nat / pow2((w - n) as nat),
    decreases n,
{
    lemma_pow2_mono(0, w);
    if n == 0 {
        vstd::arithmetic::div_mod::lemma_basic_div(v as int, pow2(w) as int);
    } else {
        lemma_bits_prefix(new, start, w, v, (n - 1) as nat);
        let j = (w - n) as nat;
        lemma_vbit_div(v, j);
        assert(bit_of(new, start + n - 1) == vbit(v, j as int));
        lemma_pow2_mono(0, j);
        assert(pow2(j + 1) == 2 * pow2(j));
        vstd::arithmetic::div_mod::lemma_div_denominator(v as int, pow2(j) as int, 2);
        let q = v as nat / pow2(j);
        vstd::arithmetic::div_mod::lemma_fundamental_div_mod(q as int, 2);
        assert(q / 2 == v as nat / pow2(j + 1));
    }
}

/// A bits field packed into zeroed bits reads back as the value packed:
/// ORing the pattern of `val` into a run of zero bits, then reading the same
/// `width` bits with the same signedness, gives `val`.
pub proof fn lemma_bits_roundtrip(old: Seq<u8>, new: Seq<u8>, start: int, width: nat, signed: bool, val: int)
    requires
        1 <= width <= 64,
        bits_fit(val, width, signed),
        start >= 0,
        start + width <= 8 * old.len(),
        forall|k: int| start <= k < start + width ==> #[trigger] bit_of(old, k) == 0,
        bits_ored(old, new, start, width, bits_pattern(val, width) as u64),
    ensures
        bits_value(new, start, width, signed) == val,
{
    let u = bits_pattern(val, width);
    lemma_pow2_64();
    lemma_pow2_mono(width, 64);
    assert(pow2(width) == 2 * pow2((width - 1) as nat));
    assert(u < pow2(width));
    assert forall|k: int| start <= k < start + width implies #[trigger] bit_of(new, k) == vbit(u as u64, start + width - 1 - k) by {
        let vb = vbit(u as u64, start + width - 1 - k);
        assert(0u8 | vb == vb) by (bit_vector);
    }
    assert((u as u64) as nat == u);
    lemma_bits_prefix(new, start, width, u as u64, width);
    assert(pow2(0) == 1);
    assert((width - width) as nat == 0);
    let uu = (u as u64) as nat;
    assert(uu / 1 == uu) by (nonlinear_arith);
    assert((u as u64) as nat / pow2(0) == u);
    assert(bits_uvalue(new, start, width) == u);
}

} // verus!
