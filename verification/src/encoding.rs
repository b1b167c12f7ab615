//! What packing a map against a program gives, as a function of the
//! program, the values and the bytes written so far: the meaning `pack` is
//! held to.
use vstd::prelude::*;

use crate::codec::{bit_of, bits_fit, bits_ored, bits_pattern, int_bytes, splice, uint_bytes};
use crate::decoding::{fresh_regs, fresh_spans, path_text, SegV};
use crate::digest::{algo_ok, crc_of, ip_of, md5_of, sha1_of, sha256_of, Algo};
use crate::error::Kind;
use crate::expr::{eval_spec, Expr, Ins, RegFrame};
use crate::floats::narrow_spec;
use crate::pack::{field_bool, field_float, field_int, flag_known, flags_value, inverse};
use crate::program::{BitItem, CountSrc, FixKind, FixedItem, FlagItem, Inv, IntPrim, Key, LenSrc, Op, Over, Program, RestPolicy};
use crate::text::encode_spec;
use crate::value::{dict_get, Value};

verus! {

/// Where a derived field's value goes once it is known.
#[derive(Clone, Copy)]
pub enum Slot {
    Int { pos: usize, prim: IntPrim, be: bool },
    Bits { base: usize, bit_off: u32, width: u8, signed: bool },
}

/// The reserved slot of a derived field, and the value written there once
/// known.
#[derive(Clone, Copy)]
pub struct Resv {
    pub slot: Slot,
    pub value: Option<i64>,
}

/// A packing failure: its kind and the path to the field, innermost first.
pub struct PFailV {
    pub kind: Kind,
    pub path: Seq<SegV>,
}

pub open spec fn pfail(k: Kind) -> PFailV {
    PFailV { kind: k, path: Seq::empty() }
}

pub open spec fn pseg(f: PFailV, s: SegV) -> PFailV {
    PFailV { kind: f.kind, path: f.path.push(s) }
}

/// The failure with the field's name added, if it has one.
pub open spec fn pkey(f: PFailV, key: Key) -> PFailV {
    match key {
        Key::Named(n) => pseg(f, SegV::Field(n@)),
        Key::Skip => f,
    }
}

/// The bytes written so far, and the registers, reservations and span
/// registers of every open scope, innermost last.
pub struct PkV {
    pub out: Seq<u8>,
    pub regs: Seq<RegFrame>,
    pub res: Seq<[Option<Resv>; 16]>,
    pub spans: Seq<[(usize, usize); 16]>,
}

pub open spec fn with_out(st: PkV, out: Seq<u8>) -> PkV {
    PkV { out, regs: st.regs, res: st.res, spans: st.spans }
}

/// `n` zero bytes appended.
pub open spec fn zeros(st: PkV, n: int) -> PkV {
    with_out(st, st.out + Seq::new(n as nat, |i: int| 0u8))
}

pub open spec fn fresh_res() -> [Option<Resv>; 16] {
    vstd::array::spec_array_fill_for_copy_type::<Option<Resv>, 16>(None)
}

pub open spec fn push_frame(st: PkV) -> PkV {
    PkV { out: st.out, regs: st.regs.push(fresh_regs()), res: st.res.push(fresh_res()), spans: st.spans.push(fresh_spans()) }
}

pub open spec fn pop_frame(st: PkV) -> PkV {
    PkV { out: st.out, regs: st.regs.drop_last(), res: st.res.drop_last(), spans: st.spans.drop_last() }
}

/// Register `idx` (if any) of the innermost scope set to `v` and known.
pub open spec fn set_reg(st: PkV, idx: Option<u8>, v: i64) -> PkV {
    match idx {
        Some(i) => {
            let n = st.regs.len();
            if n > 0 && (i as int) < 16 {
                let f = st.regs[n - 1];
                let g = RegFrame { regs: vstd::array::spec_array_update(f.regs, i as int, v), known: f.known | (1u16 << (i as u16)) };
                PkV { out: st.out, regs: st.regs.update(n - 1, g), res: st.res, spans: st.spans }
            } else {
                st
            }
        },
        None => st,
    }
}

/// Span register `idx` (if any) of the innermost scope set to `[start, end)`.
pub open spec fn set_span(st: PkV, idx: Option<u8>, start: usize, end: usize) -> PkV {
    match idx {
        Some(i) => {
            let n = st.spans.len();
            if n > 0 && (i as int) < 16 {
                let s = vstd::array::spec_array_update(st.spans[n - 1], i as int, (start, end));
                PkV { out: st.out, regs: st.regs, res: st.res, spans: st.spans.update(n - 1, s) }
            } else {
                st
            }
        },
        None => st,
    }
}

/// Register `reg` of the innermost scope reserved for a derived field.
pub open spec fn reserve(st: PkV, reg: u8, slot: Slot) -> PkV {
    let n = st.res.len();
    if n > 0 && (reg as int) < 16 {
        let row = vstd::array::spec_array_update(st.res[n - 1], reg as int, Some(Resv { slot, value: None }));
        PkV { out: st.out, regs: st.regs, res: st.res.update(n - 1, row), spans: st.spans }
    } else {
        st
    }
}

/// An expression over the registers known so far.
pub open spec fn eval(regs: Seq<RegFrame>, e: Expr) -> Result<i64, PFailV> {
    match eval_spec(e.0@, regs, true) {
        Ok(v) => Ok(v),
        Err(k) => Err(pfail(k)),
    }
}

/// The bytes `out` with a `width`-bit value ORed in at bit `start`.
pub open spec fn or_into(out: Seq<u8>, start: int, width: nat, v: u64) -> Seq<u8> {
    choose|new: Seq<u8>| bits_ored(out, new, start, width, v)
}

/// A byte is its eight bits.
proof fn lemma_byte_bits(a: u8, b: u8)
    requires
        (a >> 7u8) & 1 == (b >> 7u8) & 1,
        (a >> 6u8) & 1 == (b >> 6u8) & 1,
        (a >> 5u8) & 1 == (b >> 5u8) & 1,
        (a >> 4u8) & 1 == (b >> 4u8) & 1,
        (a >> 3u8) & 1 == (b >> 3u8) & 1,
        (a >> 2u8) & 1 == (b >> 2u8) & 1,
        (a >> 1u8) & 1 == (b >> 1u8) & 1,
        (a >> 0u8) & 1 == (b >> 0u8) & 1,
    ensures
        a == b,
{
    assert(a == b) by (bit_vector)
        requires
            (a >> 7u8) & 1 == (b >> 7u8) & 1,
            (a >> 6u8) & 1 == (b >> 6u8) & 1,
            (a >> 5u8) & 1 == (b >> 5u8) & 1,
            (a >> 4u8) & 1 == (b >> 4u8) & 1,
            (a >> 3u8) & 1 == (b >> 3u8) & 1,
            (a >> 2u8) & 1 == (b >> 2u8) & 1,
            (a >> 1u8) & 1 == (b >> 1u8) & 1,
            (a >> 0u8) & 1 == (b >> 0u8) & 1;
}

/// ORing bits in has one outcome: the bytes it gives are `or_into`.
pub proof fn lemma_or_into(out: Seq<u8>, new: Seq<u8>, start: int, width: nat, v: u64)
    requires
        bits_ored(out, new, start, width, v),
    ensures
        or_into(out, start, width, v) == new,
{
    let other = or_into(out, start, width, v);
    assert(bits_ored(out, other, start, width, v));
    assert forall|j: int| 0 <= j < new.len() implies other[j] == new[j] by {
        assert forall|b: int| 0 <= b < 8 implies #[trigger] bit_of(other, 8 * j + b) == bit_of(new, 8 * j + b) by {
            assert(bit_of(other, 8 * j + b) == bit_of(new, 8 * j + b));
        }
        assert(bit_of(other, 8 * j + 0) == bit_of(new, 8 * j + 0));
        assert(bit_of(other, 8 * j + 1) == bit_of(new, 8 * j + 1));
        assert(bit_of(other, 8 * j + 2) == bit_of(new, 8 * j + 2));
        assert(bit_of(other, 8 * j + 3) == bit_of(new, 8 * j + 3));
        assert(bit_of(other, 8 * j + 4) == bit_of(new, 8 * j + 4));
        assert(bit_of(other, 8 * j + 5) == bit_of(new, 8 * j + 5));
        assert(bit_of(other, 8 * j + 6) == bit_of(new, 8 * j + 6));
        assert(bit_of(other, 8 * j + 7) == bit_of(new, 8 * j + 7));
        lemma_byte_bits(other[j], new[j]);
    }
    assert(other =~= new);
}

/// A derived field given its value: `x` with `a*x + b == actual` is written
/// into its reserved slot (once; a later consumer must agree), or checked
/// against a register that is not derived.
pub open spec fn apply_inv(st: PkV, inv: Inv, actual: int) -> Result<PkV, PFailV> {
    match inverse(inv.a as int, inv.b as int, actual) {
        Err(k) => Err(pfail(k)),
        Ok(x) => {
            let depth = st.regs.len();
            let up = inv.reg.up as int;
            let idx = inv.reg.idx as int;
            if up >= depth || idx >= 16 {
                Err(pfail(Kind::Inconsistent))
            } else {
                let fi = depth - 1 - up;
                let rf = st.regs[fi];
                match st.res[fi][idx] {
                    None => if rf.is_known(idx) && rf.regs[idx] == x {
                        Ok(st)
                    } else {
                        Err(pfail(Kind::Inconsistent))
                    },
                    Some(rv) => match rv.value {
                        Some(prev) => if prev != x { Err(pfail(Kind::Inconsistent)) } else { Ok(st) },
                        None => {
                            let out = match rv.slot {
                                Slot::Int { pos, prim, be } => if prim.spec_min() <= x <= prim.spec_max() {
                                    Ok(splice(st.out, pos as int, int_bytes(prim, be, x)))
                                } else {
                                    Err(pfail(Kind::Range))
                                },
                                Slot::Bits { base, bit_off, width, signed } => if bits_fit(x, width as nat, signed) {
                                    Ok(or_into(st.out, base * 8 + bit_off, width as nat, bits_pattern(x, width as nat) as u64))
                                } else {
                                    Err(pfail(Kind::Range))
                                },
                            };
                            match out {
                                Ok(out) => {
                                    let row = vstd::array::spec_array_update(st.res[fi], idx, Some(Resv { slot: rv.slot, value: Some(x as i64) }));
                                    let g = RegFrame {
                                        regs: vstd::array::spec_array_update(rf.regs, idx, x as i64),
                                        known: rf.known | (1u16 << (idx as u16)),
                                    };
                                    Ok(PkV { out, regs: st.regs.update(fi, g), res: st.res.update(fi, row), spans: st.spans })
                                },
                                Err(f) => Err(f),
                            }
                        },
                    },
                }
            }
        },
    }
}

/// A count or length learning its value from what was written: an
/// inversion derives its field; otherwise the expression is a constant
/// that must equal `actual`.
pub open spec fn finish_count(st: PkV, e: Expr, inv: Option<Inv>, actual: int) -> Result<PkV, PFailV> {
    match inv {
        Some(inv) => if actual > i64::MAX { Err(pfail(Kind::Range)) } else { apply_inv(st, inv, actual) },
        None => if e.0@.len() == 1 && (e.0@[0] matches Ins::Imm(n) && n == actual) {
            Ok(st)
        } else {
            Err(pfail(Kind::Length))
        },
    }
}

pub open spec fn finish_len(st: PkV, len: LenSrc, actual: int) -> Result<PkV, PFailV> {
    match len {
        LenSrc::Greedy => Ok(st),
        LenSrc::Expr { expr, inv } => finish_count(st, expr, inv, actual),
    }
}

/// The input a key reads from a struct's map.
pub open spec fn lookup(values: Value, key: Key) -> Option<Value> {
    match (key, values) {
        (Key::Named(n), Value::Dict(m)) => dict_get(m@, n@),
        _ => None,
    }
}

/// An integer written at `pos`, if it is in the type's range.
pub open spec fn write_int(st: PkV, pos: int, prim: IntPrim, be: bool, v: int) -> Result<PkV, PFailV> {
    if prim.spec_min() <= v <= prim.spec_max() {
        Ok(with_out(st, splice(st.out, pos, int_bytes(prim, be, v))))
    } else {
        Err(pfail(Kind::Range))
    }
}

/// One item of a run of fixed fields that starts at `base` and ends at
/// `end` (zeroed already), from its input `v`.
pub open spec fn fixed_item(st: PkV, base: int, end: int, item: FixedItem, v: Option<Value>) -> Result<PkV, PFailV> {
    let w = item.kind.spec_width() as int;
    if item.off > end - base || w > end - base - item.off {
        Err(pfail(Kind::Length))
    } else {
        let pos = base + item.off;
        let vr = match v { Some(x) => Some(&x), None => None };
        match item.kind {
            FixKind::Int { prim, be, expected, derived } => {
                let st1 = match expected {
                    Some(x) => match write_int(st, pos, prim, be, x as int) {
                        Ok(s) => Ok(set_reg(s, item.reg, x as i64)),
                        Err(f) => Err(f),
                    },
                    None => if derived {
                        match item.reg {
                            Some(r) => Ok(reserve(st, r, Slot::Int { pos: pos as usize, prim, be })),
                            None => Err(pfail(Kind::Inconsistent)),
                        }
                    } else {
                        match field_int(vr, item.key) {
                            Ok(val) => match write_int(st, pos, prim, be, val) {
                                Ok(s) => Ok(set_reg(s, item.reg, val as i64)),
                                Err(f) => Err(f),
                            },
                            Err(k) => Err(pfail(k)),
                        }
                    },
                };
                match st1 {
                    Ok(s) => Ok(set_span(s, item.span, pos as usize, (pos + w) as usize)),
                    Err(f) => Err(f),
                }
            },
            FixKind::F32 { be } => match field_float(vr, item.key) {
                Ok(f) => Ok(set_span(with_out(st, splice(st.out, pos, uint_bytes(narrow_spec(f) as nat, 4, be))), item.span, pos as usize, (pos + 4) as usize)),
                Err(k) => Err(pfail(k)),
            },
            FixKind::F64 { be } => match field_float(vr, item.key) {
                Ok(f) => Ok(set_span(with_out(st, splice(st.out, pos, uint_bytes(f as nat, 8, be))), item.span, pos as usize, (pos + 8) as usize)),
                Err(k) => Err(pfail(k)),
            },
            FixKind::Bool { expected } => {
                let val = match expected {
                    Some(b) => Ok(b),
                    None => field_bool(vr, item.key),
                };
                match val {
                    Ok(b) => Ok(set_span(with_out(st, st.out.update(pos, if b { 1u8 } else { 0u8 })), item.span, pos as usize, (pos + 1) as usize)),
                    Err(k) => Err(pfail(k)),
                }
            },
            FixKind::Raw { len, expected } => {
                let out = match expected {
                    Some(x) => if x@.len() != len { Err(pfail(Kind::Length)) } else { Ok(splice(st.out, pos, x@)) },
                    None => match v {
                        Some(Value::Bytes(b)) => if b@.len() != len { Err(pfail(Kind::Length)) } else { Ok(splice(st.out, pos, b@)) },
                        Some(_) => Err(pfail(Kind::Type)),
                        None => if item.key is Named { Err(pfail(Kind::Missing)) } else { Ok(st.out) },
                    },
                };
                match out {
                    Ok(out) => Ok(set_span(with_out(st, out), item.span, pos as usize, (pos + len) as usize)),
                    Err(f) => Err(f),
                }
            },
        }
    }
}

/// The items of a run of fixed fields from the `k`-th on.
pub open spec fn fixed_items(st: PkV, base: int, end: int, items: Seq<FixedItem>, k: int, values: Value) -> Result<PkV, PFailV>
    decreases items.len() - k,
{
    if k < 0 || k >= items.len() {
        Ok(st)
    } else {
        match fixed_item(st, base, end, items[k], lookup(values, items[k].key)) {
            Ok(s) => fixed_items(s, base, end, items, k + 1, values),
            Err(f) => Err(pkey(f, items[k].key)),
        }
    }
}

/// One field of a run of bits fields: `width` bits at bit `bit_off` of the
/// run of `nbytes` bytes (zeroed already) at `base`.
pub open spec fn bit_item(st: PkV, base: int, nbytes: int, bit_off: int, item: BitItem, v: Option<Value>) -> Result<PkV, PFailV> {
    let w = item.width as int;
    if w < 1 || w > 64 || bit_off > 0x1000_0000 || (bit_off + w + 7) / 8 > nbytes {
        Err(pfail(Kind::Length))
    } else if item.derived {
        match item.reg {
            Some(r) => Ok(reserve(st, r, Slot::Bits { base: base as usize, bit_off: bit_off as u32, width: item.width, signed: item.signed })),
            None => Err(pfail(Kind::Inconsistent)),
        }
    } else {
        match field_int(match v { Some(x) => Some(&x), None => None }, item.key) {
            Ok(val) => if !bits_fit(val, w as nat, item.signed) {
                Err(pfail(Kind::Range))
            } else {
                let out = or_into(st.out, base * 8 + bit_off, w as nat, bits_pattern(val, w as nat) as u64);
                Ok(set_reg(with_out(st, out), item.reg, val as i64))
            },
            Err(k) => Err(pfail(k)),
        }
    }
}

/// The items of a run of bits fields from the `k`-th on, at bit `bit_off`.
pub open spec fn bit_items(st: PkV, base: int, nbytes: int, bit_off: int, items: Seq<BitItem>, k: int, values: Value) -> Result<PkV, PFailV>
    decreases items.len() - k,
{
    if k < 0 || k >= items.len() {
        Ok(st)
    } else if bit_off > 0x1000_0000 {
        Err(pkey(pfail(Kind::Length), items[k].key))
    } else {
        match bit_item(st, base, nbytes, bit_off, items[k], lookup(values, items[k].key)) {
            Ok(s) => bit_items(s, base, nbytes, bit_off + items[k].width, items, k + 1, values),
            Err(f) => Err(pkey(f, items[k].key)),
        }
    }
}

/// The bytes after a flags field packed from its map: every key must name a
/// flag (or be `_rest` where the rest is kept), then the word the flags make
/// is appended.
pub open spec fn flags_out(out: Seq<u8>, prim: IntPrim, be: bool, items: Seq<FlagItem>, rest: RestPolicy, rest_mask: u64, v: Value) -> Result<Seq<u8>, PFailV> {
    match v {
        Value::Dict(m) => if exists|j: int| 0 <= j < m@.len() && !flag_known(items, rest, #[trigger] m@[j].0@) {
            Err(pfail(Kind::UnknownFlag))
        } else {
            match flags_value(items, rest, rest_mask, m@) {
                Ok(raw) => Ok(out + uint_bytes(raw as nat, prim.spec_width(), be)),
                Err(k) => Err(pfail(k)),
            }
        },
        _ => Err(pfail(Kind::Type)),
    }
}

/// What a digest gives for `data`: a CRC or the Internet checksum as an
/// integer, a hash as bytes.
pub enum DigestOut {
    Int(u64),
    Bytes(Seq<u8>),
}

pub open spec fn digest_of(algo: Algo, data: Seq<u8>) -> DigestOut {
    match algo {
        Algo::Crc(s) => DigestOut::Int(crc_of(s, data)),
        Algo::IpChecksum => DigestOut::Int(ip_of(data)),
        Algo::Md5 => DigestOut::Bytes(md5_of(data)),
        Algo::Sha1 => DigestOut::Bytes(sha1_of(data)),
        Algo::Sha256 => DigestOut::Bytes(sha256_of(data)),
    }
}

/// A digest field of the scope being packed: zeros reserved at `pos`.
pub struct DigV {
    pub op: int,
    pub pos: int,
    pub width: int,
}

/// The bytes of span registers `idxs[k..]` of `out`, in order; `None` where
/// one is out of range.
pub open spec fn span_bytes(out: Seq<u8>, idxs: Seq<u8>, k: int, spans: [(usize, usize); 16]) -> Option<Seq<u8>>
    decreases idxs.len() - k,
{
    if k < 0 || k >= idxs.len() {
        Some(Seq::empty())
    } else {
        let i = idxs[k] as int;
        if i >= 16 {
            None
        } else {
            let (s, e) = spans[i];
            if !(s <= e && e <= out.len()) {
                None
            } else {
                match span_bytes(out, idxs, k + 1, spans) {
                    Some(rest) => Some(out.subrange(s as int, e as int) + rest),
                    None => None,
                }
            }
        }
    }
}

/// The scope's digests from the `k`-th on, each computed over the bytes as
/// they stand and written over its zeros.
pub open spec fn write_digests(prog: Program, out: Seq<u8>, scope_start: int, spans: [(usize, usize); 16], ds: Seq<DigV>, k: int) -> Result<Seq<u8>, PFailV>
    decreases ds.len() - k,
{
    if k < 0 || k >= ds.len() {
        Ok(out)
    } else {
        let d = ds[k];
        let scope_end = out.len() as int;
        if d.op >= prog.ops@.len() {
            Err(pfail(Kind::Length))
        } else {
            match prog.ops@[d.op] {
                Op::Digest { algo, over, be, .. } => if !algo_ok(algo) || d.pos > scope_end || d.width > scope_end - d.pos {
                    Err(pfail(Kind::Length))
                } else {
                    let data = match over {
                        Over::Star => Some(out.subrange(scope_start, scope_end)),
                        Over::Spans(idxs) => span_bytes(out, idxs@, 0, spans),
                    };
                    match data {
                        None => Err(pfail(Kind::Length)),
                        Some(data) => match digest_of(algo, data) {
                            DigestOut::Int(v) => write_digests(prog, splice(out, d.pos, uint_bytes(v as nat, d.width as nat, be)), scope_start, spans, ds, k + 1),
                            DigestOut::Bytes(b) => if b.len() != d.width {
                                Err(pfail(Kind::Length))
                            } else {
                                write_digests(prog, splice(out, d.pos, b), scope_start, spans, ds, k + 1)
                            },
                        },
                    }
                },
                _ => Err(pfail(Kind::Length)),
            }
        }
    }
}

/// The state after a struct field: the state and the digests so far.
pub type PkOut = (PkV, Seq<DigV>);

/// Packing a struct from its map: a new scope, its fields in order, then its
/// digests over the finished bytes.
pub open spec fn pack_struct(st: PkV, prog: Program, values: Value) -> Result<PkV, PFailV>
    decreases prog, 3nat, 0int,
{
    if !(values is Dict) {
        Err(pfail(Kind::Type))
    } else {
        let scope_start = st.out.len() as int;
        match pack_ops(push_frame(st), prog, 0, values, Seq::empty()) {
            Ok((st1, ds)) => match write_digests(prog, st1.out, scope_start, st1.spans.last(), ds, 0) {
                Ok(out) => Ok(with_out(pop_frame(st1), out)),
                Err(f) => Err(f),
            },
            Err(f) => Err(f),
        }
    }
}

/// The fields of a struct from the `i`-th on.
pub open spec fn pack_ops(st: PkV, prog: Program, i: int, values: Value, ds: Seq<DigV>) -> Result<PkOut, PFailV>
    decreases prog, 2nat, prog.ops@.len() - i,
{
    if i < 0 || i >= prog.ops@.len() {
        Ok((st, ds))
    } else {
        proof { assert(decreases_to!(prog => prog.ops@[i])); }
        match pack_op(st, prog.ops@[i], i, values, ds) {
            Ok((st1, ds1)) => pack_ops(st1, prog, i + 1, values, ds1),
            Err(f) => Err(f),
        }
    }
}

/// One field of a struct, from the struct's map.
pub open spec fn pack_op(st: PkV, op: Op, idx: int, values: Value, ds: Seq<DigV>) -> Result<PkOut, PFailV>
    decreases op, 2nat, 0int,
{
    let start = st.out.len() as int;
    match op {
        Op::Fixed { width, items } => match fixed_items(zeros(st, width as int), start, start + width, items@, 0, values) {
            Ok(s) => Ok((s, ds)),
            Err(f) => Err(f),
        },
        Op::BitRun { nbytes, items } => match bit_items(zeros(st, nbytes as int), start, nbytes as int, 0, items@, 0, values) {
            Ok(s) => Ok((s, ds)),
            Err(f) => Err(f),
        },
        Op::Digest { algo, c, .. } => {
            let w = algo.spec_width_bytes() as int;
            Ok((set_span(zeros(st, w), c.span, start as usize, (start + w) as usize), ds.push(DigV { op: idx, pos: start, width: w })))
        },
        Op::Cond { pred, then, c } => match eval(st.regs, pred) {
            Ok(p) => if p != 0 {
                match c.key {
                    Key::Named(n) => match lookup(values, c.key) {
                        Some(v) => match pack_value(st, *then, v) {
                            Ok(s) => Ok((set_span(s, c.span, start as usize, s.out.len() as usize), ds)),
                            Err(f) => Err(pkey(f, c.key)),
                        },
                        None => Err(pseg(pfail(Kind::Missing), SegV::Field(n@))),
                    },
                    Key::Skip => Err(pfail(Kind::Missing)),
                }
            } else {
                Ok((st, ds))
            },
            Err(f) => Err(f),
        },
        _ => {
            let c = op.spec_common()->Some_0;
            match c.key {
                Key::Named(n) => match lookup(values, c.key) {
                    Some(v) => match pack_value(st, op, v) {
                        Ok(s) => Ok((set_span(s, c.span, start as usize, s.out.len() as usize), ds)),
                        Err(f) => Err(pkey(f, c.key)),
                    },
                    None => Err(pseg(pfail(Kind::Missing), SegV::Field(n@))),
                },
                Key::Skip => Err(pfail(Kind::Missing)),
            }
        },
    }
}

/// The value of a single op: a struct field's, an array element's or a
/// switch branch's.
pub open spec fn pack_value(st: PkV, op: Op, v: Value) -> Result<PkV, PFailV>
    decreases op, 1nat, 0int,
{
    let start = st.out.len() as int;
    match op {
        Op::Fixed { width, items } => if items@.len() != 1 {
            Err(pfail(Kind::Length))
        } else {
            fixed_item(zeros(st, width as int), start, start + width, items@[0], Some(v))
        },
        Op::Bytes { len, max, .. } => match v {
            Value::Bytes(b) => if b@.len() > max {
                Err(pfail(Kind::Limit))
            } else {
                finish_len(with_out(st, st.out + b@), len, b@.len() as int)
            },
            _ => Err(pfail(Kind::Type)),
        },
        Op::Str { len, max, enc, .. } => match v {
            Value::Str(s) => match encode_spec(s@, enc) {
                Some(b) => if b.len() > max {
                    Err(pfail(Kind::Limit))
                } else {
                    finish_len(with_out(st, st.out + b), len, b.len() as int)
                },
                None => Err(pfail(Kind::Encode)),
            },
            _ => Err(pfail(Kind::Type)),
        },
        Op::CStr { max, enc, .. } => match v {
            Value::Str(s) => match encode_spec(s@, enc) {
                Some(b) => if b.contains(0u8) {
                    Err(pfail(Kind::NulInCstr))
                } else if b.len() > max {
                    Err(pfail(Kind::Limit))
                } else {
                    Ok(with_out(st, st.out + b + seq![0u8]))
                },
                None => Err(pfail(Kind::Encode)),
            },
            _ => Err(pfail(Kind::Type)),
        },
        Op::Flags { prim, be, items, rest, rest_mask, .. } => match flags_out(st.out, prim, be, items@, rest, rest_mask, v) {
            Ok(out) => Ok(with_out(st, out)),
            Err(f) => Err(f),
        },
        Op::Nest { prog, size, .. } => {
            proof { assert(decreases_to!(op => *prog)); }
            match pack_struct(st, *prog, v) {
                Ok(s) => match size {
                    None => Ok(s),
                    Some(len) => finish_len(s, len, s.out.len() - start),
                },
                Err(f) => Err(f),
            }
        },
        Op::Array { count, .. } => match v {
            Value::List(l) => match pack_elems(st, op, l@, 0) {
                Ok(s) => match count {
                    CountSrc::UntilEof => Ok(s),
                    CountSrc::Expr { expr, inv } => finish_count(s, expr, inv, l@.len() as int),
                },
                Err(f) => Err(f),
            },
            _ => Err(pfail(Kind::Type)),
        },
        Op::Switch { on, .. } => match eval(st.regs, on) {
            Ok(tag) => pack_case(st, op, tag, 0, v),
            Err(f) => Err(f),
        },
        Op::BitRun { .. } | Op::Digest { .. } | Op::Cond { .. } => Err(pfail(Kind::Type)),
    }
}

/// The elements of an array from the `i`-th on.
pub open spec fn pack_elems(st: PkV, op: Op, l: Seq<Value>, i: int) -> Result<PkV, PFailV>
    decreases op, 0nat, l.len() - i,
{
    match op {
        Op::Array { elem, .. } => if i < 0 || i >= l.len() {
            Ok(st)
        } else {
            proof { assert(decreases_to!(op => *elem)); }
            match pack_value(st, *elem, l[i]) {
                Ok(s) => pack_elems(s, op, l, i + 1),
                Err(f) => Err(pseg(f, SegV::Index(i as nat))),
            }
        },
        _ => Err(pfail(Kind::Type)),
    }
}

/// A switch from its `k`-th case on: the first case whose tag matches, else
/// the default, else `NoCase`.
pub open spec fn pack_case(st: PkV, op: Op, tag: i64, k: int, v: Value) -> Result<PkV, PFailV>
    decreases op, 0nat, if k < 0 { 0 } else { (op->Switch_cases)@.len() - k },
{
    match op {
        Op::Switch { cases, default, .. } => if 0 <= k < cases@.len() {
            if cases@[k].0 == tag {
                proof {
                    assert(decreases_to!(op => cases));
                    assert(decreases_to!(cases => cases@));
                    assert(decreases_to!(cases@ => cases@[k]));
                    assert(decreases_to!(cases@[k] => cases@[k].1));
                }
                pack_value(st, *cases@[k].1, v)
            } else {
                pack_case(st, op, tag, k + 1, v)
            }
        } else {
            match default {
                Some(d) => {
                    proof { assert(decreases_to!(op => *d)); }
                    pack_value(st, *d, v)
                },
                None => Err(pfail(Kind::NoCase)),
            }
        },
        _ => Err(pfail(Kind::Type)),
    }
}

/// What packing a map gives: its bytes, or the failure's kind and path.
pub enum PackedV {
    Packed(Seq<u8>),
    Failed(Kind, Seq<char>),
}

/// Packing `values` against `prog` from nothing.
pub open spec fn pack(prog: Program, values: Value) -> PackedV {
    match pack_struct(PkV { out: Seq::empty(), regs: Seq::empty(), res: Seq::empty(), spans: Seq::empty() }, prog, values) {
        Ok(st) => PackedV::Packed(st.out),
        Err(f) => PackedV::Failed(f.kind, path_text(f.path)),
    }
}

// ---------- keys no field reads ----------

/// `key` names `name`.
pub open spec fn key_is(key: Key, name: Seq<char>) -> bool {
    key matches Key::Named(n) && n@ == name
}

/// `name` is the key of a field of `op` in its scope: the op's own, or one
/// of its run's items'.
pub open spec fn op_has_key(op: Op, name: Seq<char>) -> bool {
    match op {
        Op::Fixed { items, .. } => exists|j: int| 0 <= j < items@.len() && key_is((#[trigger] items@[j]).key, name),
        Op::BitRun { items, .. } => exists|j: int| 0 <= j < items@.len() && key_is((#[trigger] items@[j]).key, name),
        _ => op.spec_common() matches Some(c) && key_is(c.key, name),
    }
}

/// `name` is the key of a field of the outermost scope of `prog`.
pub open spec fn scope_has_key(prog: Program, name: Seq<char>) -> bool {
    exists|k: int| 0 <= k < prog.ops@.len() && op_has_key(#[trigger] prog.ops@[k], name)
}

/// One more entry, under another key, leaves what a key finds.
proof fn lemma_dict_get_push(m: Seq<(String, Value)>, e: (String, Value), key: Seq<char>)
    requires
        e.0@ != key,
    ensures
        dict_get(m.push(e), key) == dict_get(m, key),
{
    let m2 = m.push(e);
    if exists|i: int| crate::value::first_with_key(m, i, key) {
        let i = choose|i: int| crate::value::first_with_key(m, i, key);
        assert(crate::value::first_with_key(m2, i, key));
        let j = choose|j: int| crate::value::first_with_key(m2, j, key);
        assert(j == i) by {
            if j < i {
                assert(m[j].0@ != key);
            } else if j > i {
                assert(m2[i].0@ != key);
            }
        }
    } else {
        assert forall|j: int| !crate::value::first_with_key(m2, j, key) by {
            if crate::value::first_with_key(m2, j, key) {
                assert(j < m.len());
                assert forall|x: int| 0 <= x < j implies m[x].0@ != key by {
                    assert(m2[x] == m[x]);
                }
                assert(m2[j] == m[j]);
                assert(crate::value::first_with_key(m, j, key));
            }
        }
    }
}

/// The two maps find the same under every key but `other`.
spec fn same_but(v: Value, w: Value, other: Seq<char>) -> bool {
    &&& v is Dict
    &&& w is Dict
    &&& forall|n: Seq<char>| n != other ==> #[trigger] dict_get(w->Dict_0@, n) == dict_get(v->Dict_0@, n)
}

proof fn lemma_fixed_items_same(st: PkV, base: int, end: int, items: Seq<FixedItem>, k: int, v: Value, w: Value, other: Seq<char>)
    requires
        same_but(v, w, other),
        forall|j: int| 0 <= j < items.len() ==> !key_is((#[trigger] items[j]).key, other),
    ensures
        fixed_items(st, base, end, items, k, w) == fixed_items(st, base, end, items, k, v),
    decreases items.len() - k,
{
    if 0 <= k < items.len() {
        assert(lookup(w, items[k].key) == lookup(v, items[k].key));
        if let Ok(s) = fixed_item(st, base, end, items[k], lookup(v, items[k].key)) {
            lemma_fixed_items_same(s, base, end, items, k + 1, v, w, other);
        }
    }
}

proof fn lemma_bit_items_same(st: PkV, base: int, nbytes: int, bit_off: int, items: Seq<BitItem>, k: int, v: Value, w: Value, other: Seq<char>)
    requires
        same_but(v, w, other),
        forall|j: int| 0 <= j < items.len() ==> !key_is((#[trigger] items[j]).key, other),
    ensures
        bit_items(st, base, nbytes, bit_off, items, k, w) == bit_items(st, base, nbytes, bit_off, items, k, v),
    decreases items.len() - k,
{
    if 0 <= k < items.len() && bit_off <= 0x1000_0000 {
        assert(lookup(w, items[k].key) == lookup(v, items[k].key));
        if let Ok(s) = bit_item(st, base, nbytes, bit_off, items[k], lookup(v, items[k].key)) {
            lemma_bit_items_same(s, base, nbytes, bit_off + items[k].width, items, k + 1, v, w, other);
        }
    }
}

proof fn lemma_pack_ops_same(st: PkV, prog: Program, i: int, v: Value, w: Value, ds: Seq<DigV>, other: Seq<char>)
    requires
        same_but(v, w, other),
        !scope_has_key(prog, other),
    ensures
        pack_ops(st, prog, i, w, ds) == pack_ops(st, prog, i, v, ds),
    decreases prog.ops@.len() - i,
{
    if 0 <= i < prog.ops@.len() {
        let op = prog.ops@[i];
        assert(!op_has_key(op, other));
        let start = st.out.len() as int;
        match op {
            Op::Fixed { width, items } => {
                lemma_fixed_items_same(zeros(st, width as int), start, start + width, items@, 0, v, w, other);
            },
            Op::BitRun { nbytes, items } => {
                lemma_bit_items_same(zeros(st, nbytes as int), start, nbytes as int, 0, items@, 0, v, w, other);
            },
            _ => {
                if let Some(c) = op.spec_common() {
                    assert(lookup(w, c.key) == lookup(v, c.key));
                }
            },
        }
        assert(pack_op(st, op, i, w, ds) == pack_op(st, op, i, v, ds));
        if let Ok((s1, d1)) = pack_op(st, op, i, v, ds) {
            lemma_pack_ops_same(s1, prog, i + 1, v, w, d1, other);
        }
    }
}

/// Packing ignores an entry whose key names no field of the outermost
/// scope: a map with one more such entry, whatever its value, packs to
/// the same bytes, or fails in the same way.
pub proof fn lemma_extra_key_ignored(prog: Program, v: Value, w: Value, e: (String, Value))
    requires
        v matches Value::Dict(a) && w matches Value::Dict(b) && b@ == a@.push(e),
        !scope_has_key(prog, e.0@),
    ensures
        pack(prog, w) == pack(prog, v),
{
    assert forall|n: Seq<char>| n != e.0@ implies #[trigger] dict_get(w->Dict_0@, n) == dict_get(v->Dict_0@, n) by {
        lemma_dict_get_push(v->Dict_0@, e, n);
    }
    let st = PkV { out: Seq::empty(), regs: Seq::empty(), res: Seq::empty(), spans: Seq::empty() };
    lemma_pack_ops_same(push_frame(st), prog, 0, v, w, Seq::empty(), e.0@);
}

} // verus!
