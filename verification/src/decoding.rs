//! What decoding a buffer against a program gives, as a function of the
//! program, the bytes and the registers: the meaning `unpack` is held to.
use vstd::prelude::*;

use crate::codec::{bits_value, int_value, uint_value};
use crate::digest::{crc_of, ip_of, md5_of, sha1_of, sha256_of, Algo};
use crate::error::{render_outer, render_step, Kind, Seg, UFail};
use crate::text::dec_chars;
use crate::expr::{eval_spec, Expr, RegFrame};
use crate::flags::flag_read;
use crate::floats::widen_spec;
use crate::program::{BitItem, CountSrc, FixKind, FixedItem, FlagItem, Key, LenSrc, Op, Over, Program, RestPolicy, MAX_DEPTH};
use crate::text::decode_spec;
use crate::unpack::{cstr_scan, first_nul};
use crate::value::ValueV;

verus! {

/// A step of the path to a failing field.
pub enum SegV {
    Field(Seq<char>),
    Index(nat),
}

/// A decoding failure: more bytes needed, or bad data of a kind at an
/// offset, with its path innermost first.
pub enum FailV {
    Short(nat),
    Bad(Kind, int, Seq<SegV>),
}

pub open spec fn seg_view(s: Seg) -> SegV {
    match s {
        Seg::Field(n) => SegV::Field(n@),
        Seg::Index(i) => SegV::Index(i as nat),
    }
}

/// A failure as the contracts see it.
pub open spec fn fail_view(e: UFail) -> FailV {
    match e {
        UFail::Incomplete { needed } => FailV::Short(needed as nat),
        UFail::Invalid(inv) => FailV::Bad(inv.kind, inv.offset as int, inv.path@.map_values(|s: Seg| seg_view(s))),
    }
}

/// A fresh `Invalid` is `bad` of its kind and offset.
pub proof fn lemma_fresh_fail(e: UFail)
    requires
        e matches UFail::Invalid(inv) && inv.path@.len() == 0,
    ensures
        fail_view(e) == bad(e->Invalid_0.kind, e->Invalid_0.offset as int),
{
    assert(e->Invalid_0.path@.map_values(|s: Seg| seg_view(s)) =~= Seq::<SegV>::empty());
}

/// Adding a path segment to a failure adds its view.
pub proof fn lemma_seg_fail(e: UFail, s: Seg, r: UFail)
    requires
        match e {
            UFail::Incomplete { needed } => r == UFail::Incomplete { needed },
            UFail::Invalid(inv) => r matches UFail::Invalid(out) && out.kind == inv.kind
                && out.offset == inv.offset && out.path@ == inv.path@.push(s),
        },
    ensures
        fail_view(r) == with_seg(fail_view(e), seg_view(s)),
{
    if let UFail::Invalid(inv) = e {
        assert(r->Invalid_0.path@.map_values(|x: Seg| seg_view(x)) =~= inv.path@.map_values(|x: Seg| seg_view(x)).push(seg_view(s)));
    }
}

/// A failure of kind `k` at `pos`, before any path is added.
pub open spec fn bad(k: Kind, pos: int) -> FailV {
    FailV::Bad(k, pos, Seq::empty())
}

/// The failure with one more (outer) path step; a shortage carries no path.
pub open spec fn with_seg(f: FailV, s: SegV) -> FailV {
    match f {
        FailV::Short(n) => FailV::Short(n),
        FailV::Bad(k, o, p) => FailV::Bad(k, o, p.push(s)),
    }
}

/// The failure with the field's name added, if it has one.
pub open spec fn with_key(f: FailV, key: Key) -> FailV {
    match key {
        Key::Named(n) => with_seg(f, SegV::Field(n@)),
        Key::Skip => f,
    }
}

/// The registers and span registers of every open scope, innermost last.
pub struct FrV {
    pub regs: Seq<RegFrame>,
    pub spans: Seq<[(usize, usize); 16]>,
}

/// The frame a new scope starts with: every register zero and unknown.
pub open spec fn fresh_regs() -> RegFrame {
    RegFrame { regs: vstd::array::spec_array_fill_for_copy_type::<i64, 16>(0i64), known: 0 }
}

pub open spec fn fresh_spans() -> [(usize, usize); 16] {
    vstd::array::spec_array_fill_for_copy_type::<(usize, usize), 16>((0usize, 0usize))
}

pub open spec fn push_frame(st: FrV) -> FrV {
    FrV { regs: st.regs.push(fresh_regs()), spans: st.spans.push(fresh_spans()) }
}

pub open spec fn pop_frame(st: FrV) -> FrV {
    FrV { regs: st.regs.drop_last(), spans: st.spans.drop_last() }
}

/// Register `idx` of the innermost frame set to `v` and marked known.
pub open spec fn set_reg(st: FrV, idx: u8, v: i64) -> FrV {
    let n = st.regs.len();
    if n > 0 && (idx as int) < 16 {
        let f = st.regs[n - 1];
        let g = RegFrame {
            regs: vstd::array::spec_array_update(f.regs, idx as int, v),
            known: f.known | (1u16 << (idx as u16)),
        };
        FrV { regs: st.regs.update(n - 1, g), spans: st.spans }
    } else {
        st
    }
}

/// Span register `idx` (if any) of the innermost frame set to `[start, end)`.
pub open spec fn set_span(st: FrV, idx: Option<u8>, start: usize, end: usize) -> FrV {
    match idx {
        Some(i) => {
            let n = st.spans.len();
            if n > 0 && (i as int) < 16 {
                let s = vstd::array::spec_array_update(st.spans[n - 1], i as int, (start, end));
                FrV { regs: st.regs, spans: st.spans.update(n - 1, s) }
            } else {
                st
            }
        },
        None => st,
    }
}

/// A map with one more entry, if the key has a name.
pub open spec fn put(map: Seq<(Seq<char>, ValueV)>, key: Key, v: ValueV) -> Seq<(Seq<char>, ValueV)> {
    match key {
        Key::Named(n) => map.push((n@, v)),
        Key::Skip => map,
    }
}

/// Bounds check of `n` bytes at `pos`: past the end of the buffer more
/// bytes are needed, past a window boundary the data is truncated.
pub open spec fn need(len: int, pos: int, limit: int, n: int) -> Option<FailV> {
    if pos + n <= limit {
        None
    } else if limit == len {
        Some(FailV::Short((pos + n - len) as nat))
    } else {
        Some(bad(Kind::Truncated, pos))
    }
}

pub open spec fn eval(st: FrV, e: Expr, pos: int) -> Result<i64, FailV> {
    match eval_spec(e.0@, st.regs, false) {
        Ok(v) => Ok(v),
        Err(k) => Err(bad(k, pos)),
    }
}

pub open spec fn eval_len(st: FrV, e: Expr, pos: int) -> Result<int, FailV> {
    match eval(st, e, pos) {
        Ok(v) => if v < 0 {
            Err(bad(Kind::NegativeLen, pos))
        } else if v > usize::MAX {
            Err(bad(Kind::Limit, pos))
        } else {
            Ok(v as int)
        },
        Err(f) => Err(f),
    }
}

/// A length: the rest of the window, or an expression; at most `max`.
pub open spec fn resolve_len(st: FrV, len: LenSrc, max: usize, pos: int, limit: int) -> Result<int, FailV> {
    let n = match len {
        LenSrc::Greedy => Ok(limit - pos),
        LenSrc::Expr { expr, .. } => eval_len(st, expr, pos),
    };
    match n {
        Ok(n) => if n > max { Err(bad(Kind::Limit, pos)) } else { Ok(n) },
        Err(f) => Err(f),
    }
}

/// One item of a fixed run that starts at `base` and ends at `end`.
pub open spec fn fixed_item(item: FixedItem, buf: Seq<u8>, st: FrV, base: int, end: int) -> Result<(ValueV, FrV), FailV> {
    let w = item.kind.spec_width() as int;
    if item.off > end - base || w > end - base - item.off {
        Err(bad(Kind::Truncated, base))
    } else {
        let pos = base + item.off;
        let raw = buf.subrange(pos, pos + w);
        match item.kind {
            FixKind::Int { prim, be, expected, .. } => {
                let v = int_value(prim, be, raw);
                if expected matches Some(x) && v != x {
                    Err(bad(Kind::Const, pos))
                } else {
                    let st1 = match item.reg {
                        Some(r) => if v < i64::MIN || v > i64::MAX { None } else { Some(set_reg(st, r, v as i64)) },
                        None => Some(st),
                    };
                    match st1 {
                        Some(st1) => Ok((ValueV::Int(v as i128), set_span(st1, item.span, pos as usize, (pos + w) as usize))),
                        None => Err(bad(Kind::Overflow, pos)),
                    }
                }
            },
            FixKind::F32 { be } => Ok((ValueV::Float(widen_spec(uint_value(raw, be) as u32)), set_span(st, item.span, pos as usize, (pos + 4) as usize))),
            FixKind::F64 { be } => Ok((ValueV::Float(uint_value(raw, be) as u64), set_span(st, item.span, pos as usize, (pos + 8) as usize))),
            FixKind::Bool { expected } => {
                let v = buf[pos] != 0;
                if expected matches Some(x) && v != x {
                    Err(bad(Kind::Const, pos))
                } else {
                    Ok((ValueV::Bool(v), set_span(st, item.span, pos as usize, (pos + 1) as usize)))
                }
            },
            FixKind::Raw { len, expected } => {
                if expected matches Some(x) && x@ != raw {
                    Err(bad(Kind::Const, pos))
                } else {
                    Ok((ValueV::Bytes(raw), set_span(st, item.span, pos as usize, (pos + len) as usize)))
                }
            },
        }
    }
}

/// The items of a fixed run from the `k`-th on, each read and put under its
/// name.
pub open spec fn fixed_items(items: Seq<FixedItem>, k: int, buf: Seq<u8>, st: FrV, base: int, end: int, map: Seq<(Seq<char>, ValueV)>) -> Result<(FrV, Seq<(Seq<char>, ValueV)>), FailV>
    decreases items.len() - k,
{
    if k < 0 || k >= items.len() {
        Ok((st, map))
    } else {
        match fixed_item(items[k], buf, st, base, end) {
            Ok((v, st1)) => fixed_items(items, k + 1, buf, st1, base, end, put(map, items[k].key, v)),
            Err(f) => Err(with_key(f, items[k].key)),
        }
    }
}

/// The items of a bit run from the `k`-th on, at bit `bitpos` of the run
/// that starts at `pos` and spans `nbytes` bytes.
pub open spec fn bit_items(items: Seq<BitItem>, k: int, bitpos: int, nbytes: int, buf: Seq<u8>, st: FrV, pos: int, map: Seq<(Seq<char>, ValueV)>) -> Result<(FrV, Seq<(Seq<char>, ValueV)>), FailV>
    decreases items.len() - k,
{
    if k < 0 || k >= items.len() {
        Ok((st, map))
    } else {
        let item = items[k];
        let w = item.width as int;
        if w < 1 || w > 64 || bitpos > 0x1000_0000 || (bitpos + w + 7) / 8 > nbytes {
            Err(with_key(bad(Kind::Truncated, pos), item.key))
        } else {
            let v = bits_value(buf, pos * 8 + bitpos, w as nat, item.signed);
            let st1 = match item.reg {
                Some(r) => if v < i64::MIN || v > i64::MAX { None } else { Some(set_reg(st, r, v as i64)) },
                None => Some(st),
            };
            match st1 {
                Some(st1) => bit_items(items, k + 1, bitpos + w, nbytes, buf, st1, pos, put(map, item.key, ValueV::Int(v as i128))),
                None => Err(with_key(bad(Kind::Overflow, pos), item.key)),
            }
        }
    }
}

/// A flags field's entries: each flag under its name, then the leftover
/// bits under `_rest` when kept.
pub open spec fn flag_entries(items: Seq<FlagItem>, rest: RestPolicy, rest_mask: u64, raw: u64) -> Seq<(Seq<char>, ValueV)> {
    let named = Seq::new(items.len(), |i: int| (items[i].key@, flag_read(items[i], raw).view()));
    if rest is Keep {
        named.push(("_rest"@, ValueV::Int((raw & rest_mask) as i128)))
    } else {
        named
    }
}

/// A C string at `pos`: the text before the first NUL within `max` bytes
/// and the window, and the NUL.
pub open spec fn cstr_value(buf: Seq<u8>, max: usize, enc: crate::program::Enc, pos: int, limit: int) -> Result<(ValueV, int), FailV> {
    match first_nul(buf, pos, 0, cstr_scan(max, pos as usize, limit as usize)) {
        Some(i) => match decode_spec(buf.subrange(pos, pos + i), enc) {
            Some(t) => Ok((ValueV::Str(t), pos + i + 1)),
            None => Err(bad(Kind::Decode, pos)),
        },
        None => if limit - pos > max {
            Err(bad(Kind::Limit, pos))
        } else if limit == buf.len() {
            Err(FailV::Short(1))
        } else {
            Err(bad(Kind::Unterminated, pos))
        },
    }
}

/// A flags field at `pos`: its word read, each flag taken from it, and the
/// leftover bits kept, refused or ignored.
pub open spec fn flags_value(buf: Seq<u8>, prim: crate::program::IntPrim, be: bool, items: Seq<FlagItem>, rest: RestPolicy, rest_mask: u64, pos: int, limit: int) -> Result<(ValueV, int), FailV> {
    let w = prim.spec_width() as int;
    match need(buf.len() as int, pos, limit, w) {
        Some(f) => Err(f),
        None => {
            let raw = uint_value(buf.subrange(pos, pos + w), be) as u64;
            if rest is Strict && raw & rest_mask != 0 {
                Err(bad(Kind::ReservedBits, pos))
            } else {
                Ok((ValueV::Dict(flag_entries(items, rest, rest_mask, raw)), pos + w))
            }
        },
    }
}

/// What a digest field read: an integer or bytes.
pub enum DigestV {
    Int(u64),
    Bytes(Seq<u8>),
}

/// A digest field read in a scope, checked when the scope ends.
pub struct DefV {
    pub op: int,
    pub read: DigestV,
    pub start: int,
    pub end: int,
    pub key: Seq<char>,
}

/// Whether `read` is what `algo` gives for `data`.
pub open spec fn digest_ok(algo: Algo, read: DigestV, data: Seq<u8>) -> bool {
    match algo {
        Algo::Crc(s) => read == DigestV::Int(crc_of(s, data)),
        Algo::IpChecksum => read == DigestV::Int(ip_of(data)),
        Algo::Md5 => read == DigestV::Bytes(md5_of(data)),
        Algo::Sha1 => read == DigestV::Bytes(sha1_of(data)),
        Algo::Sha256 => read == DigestV::Bytes(sha256_of(data)),
    }
}

/// The bytes of span registers `idxs[k..]`, in order; `None` where one is
/// out of range.
pub open spec fn span_bytes(buf: Seq<u8>, idxs: Seq<u8>, k: int, spans: [(usize, usize); 16]) -> Option<Seq<u8>>
    decreases idxs.len() - k,
{
    if k < 0 || k >= idxs.len() {
        Some(Seq::empty())
    } else {
        let i = idxs[k] as int;
        if i >= 16 {
            None
        } else {
            let (s, e) = spans[i];
            if !(s <= e && e <= buf.len()) {
                None
            } else {
                match span_bytes(buf, idxs, k + 1, spans) {
                    Some(rest) => Some(buf.subrange(s as int, e as int) + rest),
                    None => None,
                }
            }
        }
    }
}

/// The bytes a digest covers: the whole scope with the digest field read as
/// zeros, or the named fields' spans in order.
pub open spec fn digest_input(buf: Seq<u8>, over: Over, scope_start: int, scope_end: int, fs: int, fe: int, spans: [(usize, usize); 16]) -> Option<Seq<u8>> {
    match over {
        Over::Star => if scope_start <= fs <= fe <= scope_end && scope_end <= buf.len() {
            Some(buf.subrange(scope_start, fs) + Seq::new((fe - fs) as nat, |i: int| 0u8) + buf.subrange(fe, scope_end))
        } else {
            None
        },
        Over::Spans(idxs) => span_bytes(buf, idxs@, 0, spans),
    }
}

/// The scope's digests from the `k`-th on, each checked if it verifies.
pub open spec fn check_digests(prog: Program, buf: Seq<u8>, scope_start: int, scope_end: int, spans: [(usize, usize); 16], defs: Seq<DefV>, k: int) -> Option<FailV>
    decreases defs.len() - k,
{
    if k < 0 || k >= defs.len() {
        None
    } else {
        let d = defs[k];
        let fails = 0 <= d.op < prog.ops@.len() && match prog.ops@[d.op] {
            Op::Digest { algo, over, verify, .. } => verify && !(crate::digest::algo_ok(algo) && match digest_input(buf, over, scope_start, scope_end, d.start, d.end, spans) {
                Some(data) => digest_ok(algo, d.read, data),
                None => false,
            }),
            _ => false,
        };
        if fails {
            Some(FailV::Bad(Kind::Checksum, d.start, seq![SegV::Field(d.key)]))
        } else {
            check_digests(prog, buf, scope_start, scope_end, spans, defs, k + 1)
        }
    }
}

/// The state a struct field leaves: where it ends, the registers, the map
/// so far and the digests read so far.
pub type OpOut = (int, FrV, Seq<(Seq<char>, ValueV)>, Seq<DefV>);

/// Decoding a struct at `pos` within `[.., limit)`: a new frame, its fields
/// in order, then its digests checked.
pub open spec fn dec_struct(prog: Program, buf: Seq<u8>, st: FrV, pos: int, limit: int) -> Result<(ValueV, int, FrV), FailV>
    decreases prog, 3nat, 0int,
{
    if st.regs.len() >= MAX_DEPTH {
        Err(bad(Kind::Depth, pos))
    } else {
        match dec_ops(prog, 0, buf, push_frame(st), pos, pos, limit, Seq::empty(), Seq::empty()) {
            Ok((end, st1, map, defs)) => match check_digests(prog, buf, pos, end, st1.spans.last(), defs, 0) {
                Some(f) => Err(f),
                None => Ok((ValueV::Dict(map), end, pop_frame(st1))),
            },
            Err(f) => Err(f),
        }
    }
}

/// The fields of a struct from the `i`-th on.
pub open spec fn dec_ops(prog: Program, i: int, buf: Seq<u8>, st: FrV, start: int, pos: int, limit: int, map: Seq<(Seq<char>, ValueV)>, defs: Seq<DefV>) -> Result<OpOut, FailV>
    decreases prog, 2nat, prog.ops@.len() - i,
{
    if i < 0 || i >= prog.ops@.len() {
        Ok((pos, st, map, defs))
    } else {
        proof { assert(decreases_to!(prog => prog.ops@[i])); }
        match dec_op(prog.ops@[i], i, buf, st, pos, limit, map, defs) {
            Ok((end, st1, map1, defs1)) => dec_ops(prog, i + 1, buf, st1, start, end, limit, map1, defs1),
            Err(f) => Err(f),
        }
    }
}

/// One field of a struct: its value put under its name.
pub open spec fn dec_op(op: Op, idx: int, buf: Seq<u8>, st: FrV, pos: int, limit: int, map: Seq<(Seq<char>, ValueV)>, defs: Seq<DefV>) -> Result<OpOut, FailV>
    decreases op, 2nat, 0int,
{
    match op {
        Op::Fixed { width, items } => match need(buf.len() as int, pos, limit, width as int) {
            Some(f) => Err(f),
            None => match fixed_items(items@, 0, buf, st, pos, pos + width, map) {
                Ok((st1, map1)) => Ok((pos + width, st1, map1, defs)),
                Err(f) => Err(f),
            },
        },
        Op::BitRun { nbytes, items } => match need(buf.len() as int, pos, limit, nbytes as int) {
            Some(f) => Err(f),
            None => match bit_items(items@, 0, 0, nbytes as int, buf, st, pos, map) {
                Ok((st1, map1)) => Ok((pos + nbytes, st1, map1, defs)),
                Err(f) => Err(f),
            },
        },
        Op::Digest { algo, be, c, .. } => {
            let w = algo.spec_width_bytes() as int;
            match need(buf.len() as int, pos, limit, w) {
                Some(f) => Err(with_key(f, c.key)),
                None => {
                    let raw = buf.subrange(pos, pos + w);
                    let (value, read) = if (algo is Crc || algo is IpChecksum) && w <= 8 {
                        let u = uint_value(raw, be) as u64;
                        (ValueV::Int(u as i128), DigestV::Int(u))
                    } else {
                        (ValueV::Bytes(raw), DigestV::Bytes(raw))
                    };
                    let key = match c.key {
                        Key::Named(n) => n@,
                        Key::Skip => Seq::empty(),
                    };
                    let d = DefV { op: idx, read, start: pos, end: pos + w, key };
                    Ok((pos + w, set_span(st, c.span, pos as usize, (pos + w) as usize), put(map, c.key, value), defs.push(d)))
                },
            }
        },
        Op::Cond { pred, then, c } => match eval(st, pred, pos) {
            Ok(v) => if v != 0 {
                match dec_value(*then, buf, st, pos, limit) {
                    Ok((val, end, st1)) => Ok((end, set_span(st1, c.span, pos as usize, end as usize), put(map, c.key, val), defs)),
                    Err(f) => Err(with_key(f, c.key)),
                }
            } else {
                Ok((pos, st, map, defs))
            },
            Err(f) => Err(f),
        },
        _ => {
            let key = match op.spec_common() {
                Some(c) => c.key,
                None => Key::Skip,
            };
            let span = match op.spec_common() {
                Some(c) => c.span,
                None => None,
            };
            match dec_value(op, buf, st, pos, limit) {
                Ok((val, end, st1)) => Ok((end, set_span(st1, span, pos as usize, end as usize), put(map, key, val), defs)),
                Err(f) => Err(with_key(f, key)),
            }
        },
    }
}

/// The value of a single opcode at `pos`: a struct field's, an array
/// element's or a switch branch's.
pub open spec fn dec_value(op: Op, buf: Seq<u8>, st: FrV, pos: int, limit: int) -> Result<(ValueV, int, FrV), FailV>
    decreases op, 1nat, 0int,
{
    let len = buf.len() as int;
    match op {
        Op::Fixed { width, items } => match need(len, pos, limit, width as int) {
            Some(f) => Err(f),
            None => if items@.len() != 1 {
                Err(bad(Kind::Truncated, pos))
            } else {
                match fixed_item(items@[0], buf, st, pos, pos + width) {
                    Ok((v, st1)) => Ok((v, pos + width, st1)),
                    Err(f) => Err(f),
                }
            },
        },
        Op::Bytes { len: l, max, .. } => match resolve_len(st, l, max, pos, limit) {
            Ok(n) => match need(len, pos, limit, n) {
                Some(f) => Err(f),
                None => Ok((ValueV::Bytes(buf.subrange(pos, pos + n)), pos + n, st)),
            },
            Err(f) => Err(f),
        },
        Op::Str { len: l, max, enc, .. } => match resolve_len(st, l, max, pos, limit) {
            Ok(n) => match need(len, pos, limit, n) {
                Some(f) => Err(f),
                None => match decode_spec(buf.subrange(pos, pos + n), enc) {
                    Some(t) => Ok((ValueV::Str(t), pos + n, st)),
                    None => Err(bad(Kind::Decode, pos)),
                },
            },
            Err(f) => Err(f),
        },
        Op::CStr { max, enc, .. } => match cstr_value(buf, max, enc, pos, limit) {
            Ok((v, end)) => Ok((v, end, st)),
            Err(f) => Err(f),
        },
        Op::Flags { prim, be, items, rest, rest_mask, .. } => match flags_value(buf, prim, be, items@, rest, rest_mask, pos, limit) {
            Ok((v, end)) => Ok((v, end, st)),
            Err(f) => Err(f),
        },
        Op::Nest { prog, size, .. } => {
            proof { assert(decreases_to!(op => *prog)); }
            match size {
                None => dec_struct(*prog, buf, st, pos, limit),
                Some(LenSrc::Greedy) => Err(bad(Kind::Truncated, pos)),
                Some(LenSrc::Expr { expr, .. }) => match eval_len(st, expr, pos) {
                    Ok(sz) => match need(len, pos, limit, sz) {
                        Some(f) => Err(f),
                        None => match dec_struct(*prog, buf, st, pos, pos + sz) {
                            Ok((v, end, st1)) => if end != pos + sz {
                                Err(bad(Kind::Trailing, end))
                            } else {
                                Ok((v, pos + sz, st1))
                            },
                            Err(f) => Err(f),
                        },
                    },
                    Err(f) => Err(f),
                },
            }
        },
        Op::Array { count, max_count, .. } => match count {
            CountSrc::Expr { expr, .. } => match eval(st, expr, pos) {
                Ok(n) => if n < 0 {
                    Err(bad(Kind::NegativeLen, pos))
                } else if n > max_count {
                    Err(bad(Kind::Limit, pos))
                } else {
                    dec_elems(op, n as int, 0, buf, st, pos, limit, Seq::empty())
                },
                Err(f) => Err(f),
            },
            CountSrc::UntilEof => dec_until_end(op, 0, buf, st, pos, limit, Seq::empty()),
        },
        Op::Switch { on, .. } => match eval(st, on, pos) {
            Ok(tag) => dec_case(op, tag, 0, buf, st, pos, limit),
            Err(f) => Err(f),
        },
        Op::BitRun { .. } | Op::Digest { .. } | Op::Cond { .. } => Err(bad(Kind::Type, pos)),
    }
}

/// The elements of a counted array from the `i`-th of `n` on.
pub open spec fn dec_elems(op: Op, n: int, i: int, buf: Seq<u8>, st: FrV, pos: int, limit: int, acc: Seq<ValueV>) -> Result<(ValueV, int, FrV), FailV>
    decreases op, 0nat, n - i,
{
    match op {
        Op::Array { elem, .. } => if i >= n {
            Ok((ValueV::List(acc), pos, st))
        } else {
            proof { assert(decreases_to!(op => *elem)); }
            match dec_value(*elem, buf, st, pos, limit) {
                Ok((v, end, st1)) => dec_elems(op, n, i + 1, buf, st1, end, limit, acc.push(v)),
                Err(f) => Err(with_seg(f, SegV::Index(i as nat))),
            }
        },
        _ => Err(bad(Kind::Type, pos)),
    }
}

/// The elements of an array that runs to the end of its window, from the
/// `i`-th on.
pub open spec fn dec_until_end(op: Op, i: int, buf: Seq<u8>, st: FrV, pos: int, limit: int, acc: Seq<ValueV>) -> Result<(ValueV, int, FrV), FailV>
    decreases op, 0nat, limit - pos,
{
    match op {
        Op::Array { elem, max_count, .. } => if pos >= limit {
            Ok((ValueV::List(acc), pos, st))
        } else if i >= max_count {
            Err(bad(Kind::Limit, pos))
        } else {
            proof { assert(decreases_to!(op => *elem)); }
            match dec_value(*elem, buf, st, pos, limit) {
                Ok((v, end, st1)) => if pos < end <= limit {
                    dec_until_end(op, i + 1, buf, st1, end, limit, acc.push(v))
                } else {
                    // An element that consumes nothing would repeat forever.
                    Err(bad(Kind::Limit, pos))
                },
                Err(f) => Err(with_seg(f, SegV::Index(i as nat))),
            }
        },
        _ => Err(bad(Kind::Type, pos)),
    }
}

/// A switch from its `k`-th case on: the first case whose tag matches, else
/// the default, else `NoCase`.
pub open spec fn dec_case(op: Op, tag: i64, k: int, buf: Seq<u8>, st: FrV, pos: int, limit: int) -> Result<(ValueV, int, FrV), FailV>
    decreases op, 0nat, if k < 0 { 0 } else { (op->Switch_cases)@.len() - k },
{
    match op {
        Op::Switch { cases, default, .. } => if 0 <= k < cases@.len() {
            if cases@[k].0 == tag {
                proof {
                    assert(decreases_to!(op => cases));
                    assert(decreases_to!(cases => cases@));
                    assert(decreases_to!(cases@ => cases@[k]));
                    assert(decreases_to!(cases@[k] => cases@[k].1));
                }
                dec_value(*cases@[k].1, buf, st, pos, limit)
            } else {
                dec_case(op, tag, k + 1, buf, st, pos, limit)
            }
        } else {
            match default {
                Some(d) => {
                    proof { assert(decreases_to!(op => *d)); }
                    dec_value(*d, buf, st, pos, limit)
                },
                None => Err(bad(Kind::NoCase, pos)),
            }
        },
        _ => Err(bad(Kind::Type, pos)),
    }
}

/// What decoding a whole buffer gives.
pub enum OutcomeV {
    Decoded(ValueV, int),
    Incomplete(nat),
    Invalid(Kind, int, Seq<char>),
}

/// One step of rendering a path.
pub open spec fn step_text(out: Seq<char>, seg: SegV) -> Seq<char> {
    match seg {
        SegV::Field(name) => if out.len() == 0 { name } else { out.push('.') + name },
        SegV::Index(i) => out.push('[') + dec_chars(i) + seq![']'],
    }
}

/// The outermost `n` steps of a path (stored innermost first), rendered
/// outermost first.
pub open spec fn outer_text(path: Seq<SegV>, n: nat) -> Seq<char>
    decreases n,
{
    if n == 0 || n > path.len() {
        Seq::empty()
    } else {
        step_text(outer_text(path, (n - 1) as nat), path[path.len() - n])
    }
}

/// A path as text: `outer.items[1].name`.
pub open spec fn path_text(path: Seq<SegV>) -> Seq<char> {
    outer_text(path, path.len())
}

/// Rendering a path of segments is rendering their views.
pub proof fn lemma_path_text(path: Seq<Seg>, n: nat)
    requires
        n <= path.len(),
    ensures
        render_outer(path, n) == outer_text(path.map_values(|s: Seg| seg_view(s)), n),
    decreases n,
{
    if n > 0 {
        lemma_path_text(path, (n - 1) as nat);
    }
}

/// Decoding `buf` from `offset` (at most its length) against `prog`: with
/// `exact` the buffer must be used up, with `stream` a shortage is reported
/// as the number of bytes missing.
pub open spec fn unpack(prog: Program, buf: Seq<u8>, offset: int, exact: bool, stream: bool) -> OutcomeV {
    let start = if offset < buf.len() { offset } else { buf.len() as int };
    match dec_struct(prog, buf, FrV { regs: Seq::empty(), spans: Seq::empty() }, start, buf.len() as int) {
        Ok((v, pos, _)) => if exact && pos != buf.len() {
            OutcomeV::Invalid(Kind::Trailing, pos, Seq::empty())
        } else {
            OutcomeV::Decoded(v, pos)
        },
        Err(FailV::Short(n)) => if stream {
            OutcomeV::Incomplete(n)
        } else {
            OutcomeV::Invalid(Kind::Truncated, buf.len() as int, Seq::empty())
        },
        Err(FailV::Bad(k, o, p)) => OutcomeV::Invalid(k, o, path_text(p)),
    }
}

} // verus!
