//! Runs of fixed-width fields: what one reads from bytes, what one packs a
//! value into, and when the two undo each other.

use vstd::prelude::*;

use crate::codec::{int_bytes, int_value, uint_bytes, uint_value};
use crate::floats::{narrow_spec, not_signalling, widen_spec};
use crate::pack::{float_bits_of, int_of, truthy_of};
use crate::compile::{fixed_run_of, fixed_schema, item_for, lemma_fixed_schema_static, widths_upto};
use crate::program::{FixKind, FixedItem, Key, Op, Program};
use crate::schema::{ByteOrder, FieldIn, TypeIn};
use crate::value::{dict_get, lemma_dict_get_at, Value};

verus! {

/// Where item `k` of a tiled run starts: after the items before it.
pub open spec fn offset_sum(items: Seq<FixedItem>, k: nat) -> nat
    decreases k,
{
    if k == 0 { 0 } else { offset_sum(items, (k - 1) as nat) + items[k - 1].kind.spec_width() }
}

/// The items lie one after another from offset 0 and fill `width` bytes.
pub open spec fn items_tile(items: Seq<FixedItem>, width: nat) -> bool {
    &&& forall|k: int| 0 <= k < items.len() ==> #[trigger] items[k].off == offset_sum(items, k as nat)
    &&& offset_sum(items, items.len()) == width
}

/// Every item is named, no name twice, and none is a derived integer
/// without a constant (packing leaves those to a later length).
pub open spec fn items_plain(items: Seq<FixedItem>) -> bool {
    &&& forall|k: int| 0 <= k < items.len() ==> #[trigger] items[k].key is Named
    &&& forall|i: int, j: int| 0 <= i < j < items.len()
        ==> (#[trigger] items[i].key)->Named_0@ != (#[trigger] items[j].key)->Named_0@
    &&& forall|k: int| 0 <= k < items.len()
        ==> !(#[trigger] items[k].kind matches FixKind::Int { expected: None, derived: true, .. })
}

/// A program that is one run of plain fixed fields tiling it: what a
/// schema of only fixed-width named fields compiles to.
pub open spec fn static_run(prog: Program) -> bool {
    &&& prog.ops@.len() == 1
    &&& match prog.ops@[0] {
        Op::Fixed { width, items } => items_tile(items@, width as nat) && items_plain(items@),
        _ => false,
    }
}

/// The bytes item `item` of a run at `base` occupies.
pub open spec fn item_raw(buf: Seq<u8>, base: int, item: FixedItem) -> Seq<u8> {
    buf.subrange(base + item.off, base + item.off + item.kind.spec_width())
}

/// Decoding the item's bytes succeeds: a constant matches, and an integer
/// expressions read fits a register.
pub open spec fn item_reads(item: FixedItem, raw: Seq<u8>) -> bool {
    match item.kind {
        FixKind::Int { prim, be, expected, .. } => {
            &&& (expected matches Some(x) ==> x == int_value(prim, be, raw))
            &&& (item.reg is Some ==> i64::MIN <= int_value(prim, be, raw) <= i64::MAX)
        },
        FixKind::Bool { expected } => expected matches Some(b) ==> b == (raw[0] != 0),
        FixKind::Raw { expected, .. } => expected matches Some(e) ==> e@ == raw,
        _ => true,
    }
}

/// The value an item's bytes decode to.
pub open spec fn item_value(item: FixedItem, raw: Seq<u8>, v: Value) -> bool {
    match item.kind {
        FixKind::Int { prim, be, .. } => v == Value::Int(int_value(prim, be, raw) as i128),
        FixKind::F32 { be } => v == Value::Float(widen_spec(uint_value(raw, be) as u32)),
        FixKind::F64 { be } => v == Value::Float(uint_value(raw, be) as u64),
        FixKind::Bool { .. } => v == Value::Bool(raw[0] != 0),
        FixKind::Raw { .. } => v matches Value::Bytes(b) && b@ == raw,
    }
}

/// Packing what the item's bytes decode to writes those bytes again: it
/// does unless a bool byte is other than 0 or 1, or an f32 is a signalling
/// NaN (made quiet on the way).
pub open spec fn item_restores(item: FixedItem, raw: Seq<u8>) -> bool {
    match item.kind {
        FixKind::Bool { .. } => raw[0] <= 1,
        FixKind::F32 { be } => not_signalling(uint_value(raw, be) as u32),
        _ => true,
    }
}

/// The entries `m` (after the first `start`) are what the items of a run
/// at `base` decode to, in order, under their names.
pub open spec fn entries_are(items: Seq<FixedItem>, buf: Seq<u8>, base: int, m: Seq<(String, Value)>, start: int) -> bool {
    &&& m.len() == start + items.len()
    &&& forall|k: int| 0 <= k < items.len() ==> {
        &&& #[trigger] items[k].key == Key::Named(m[start + k].0)
        &&& item_value(items[k], item_raw(buf, base, items[k]), m[start + k].1)
    }
}

/// The bytes a plain item packs from its input `v` (the map's value under
/// its name), or `None` where packing fails.
pub open spec fn item_bytes(item: FixedItem, v: Option<Value>) -> Option<Seq<u8>> {
    match item.kind {
        FixKind::Int { prim, be, expected: Some(x), .. } => if prim.spec_min() <= x <= prim.spec_max() {
            Some(int_bytes(prim, be, x as int))
        } else {
            None
        },
        FixKind::Int { prim, be, .. } => match v {
            Some(x) => match int_of(x) {
                Some(i) => if prim.spec_min() <= i <= prim.spec_max() { Some(int_bytes(prim, be, i)) } else { None },
                None => None,
            },
            None => None,
        },
        FixKind::F64 { be } => match v {
            Some(x) => match float_bits_of(x) {
                Some(f) => Some(uint_bytes(f as nat, 8, be)),
                None => None,
            },
            None => None,
        },
        FixKind::F32 { be } => match v {
            Some(x) => match float_bits_of(x) {
                Some(f) => Some(uint_bytes(narrow_spec(f) as nat, 4, be)),
                None => None,
            },
            None => None,
        },
        FixKind::Bool { expected: Some(b) } => Some(seq![if b { 1u8 } else { 0u8 }]),
        FixKind::Bool { expected: None } => match v {
            Some(x) => match truthy_of(x) {
                Some(b) => Some(seq![if b { 1u8 } else { 0u8 }]),
                None => None,
            },
            None => None,
        },
        FixKind::Raw { len, expected: Some(e) } => if e@.len() == len { Some(e@) } else { None },
        FixKind::Raw { len, expected: None } => match v {
            Some(Value::Bytes(b)) => if b@.len() == len { Some(b@) } else { None },
            _ => None,
        },
    }
}

/// The bytes the first `k` items of a run pack from the map `m`, or
/// `None` where one fails.
pub open spec fn run_bytes(items: Seq<FixedItem>, m: Seq<(String, Value)>, k: nat) -> Option<Seq<u8>>
    decreases k,
{
    if k == 0 {
        Some(Seq::empty())
    } else {
        match run_bytes(items, m, (k - 1) as nat) {
            None => None,
            Some(prefix) => match item_bytes(items[k - 1], dict_get(m, items[k - 1].key->Named_0@)) {
                None => None,
                Some(b) => Some(prefix + b),
            },
        }
    }
}

/// What packing a static run's program from the map `m` writes, if it
/// succeeds.
pub open spec fn static_pack(prog: Program, m: Seq<(String, Value)>) -> Option<Seq<u8>> {
    match prog.ops@[0] {
        Op::Fixed { items, .. } => run_bytes(items@, m, items@.len()),
        _ => None,
    }
}

/// Offsets grow with the items before them.
pub proof fn lemma_offset_mono(items: Seq<FixedItem>, a: nat, b: nat)
    requires
        a <= b,
    ensures
        offset_sum(items, a) <= offset_sum(items, b),
    decreases b,
{
    if a < b {
        lemma_offset_mono(items, a, (b - 1) as nat);
    }
}

/// What an item packs fills exactly its width.
pub proof fn lemma_item_bytes_len(item: FixedItem, v: Option<Value>)
    ensures
        item_bytes(item, v) matches Some(b) ==> b.len() == item.kind.spec_width(),
{
    match item.kind {
        FixKind::Int { prim, be, expected, .. } => {
            match expected {
                Some(x) => crate::codec::lemma_uint_bytes_len(crate::codec::twos(x as int, prim.spec_width()), prim.spec_width(), be),
                None => match v {
                    Some(x) => match int_of(x) {
                        Some(i) => crate::codec::lemma_uint_bytes_len(crate::codec::twos(i, prim.spec_width()), prim.spec_width(), be),
                        None => {},
                    },
                    None => {},
                },
            }
        },
        FixKind::F64 { be } => match v {
            Some(x) => match float_bits_of(x) {
                Some(f) => crate::codec::lemma_uint_bytes_len(f as nat, 8, be),
                None => {},
            },
            None => {},
        },
        FixKind::F32 { be } => match v {
            Some(x) => match float_bits_of(x) {
                Some(f) => crate::codec::lemma_uint_bytes_len(narrow_spec(f) as nat, 4, be),
                None => {},
            },
            None => {},
        },
        _ => {},
    }
}

/// The first `k` items pack to bytes filling their offsets, where they
/// pack at all.
pub proof fn lemma_run_bytes_len(items: Seq<FixedItem>, m: Seq<(String, Value)>, k: nat)
    requires
        k <= items.len(),
    ensures
        run_bytes(items, m, k) matches Some(b) ==> b.len() == offset_sum(items, k),
    decreases k,
{
    if k > 0 {
        lemma_run_bytes_len(items, m, (k - 1) as nat);
        lemma_item_bytes_len(items[k - 1], dict_get(m, items[k - 1].key->Named_0@));
    }
}

/// Once an item fails to pack, the run does.
pub proof fn lemma_run_bytes_fails(items: Seq<FixedItem>, m: Seq<(String, Value)>, k: nat, t: nat)
    requires
        k <= t,
        run_bytes(items, m, k) is None,
    ensures
        run_bytes(items, m, t) is None,
    decreases t - k,
{
    if t > k {
        lemma_run_bytes_fails(items, m, k, (t - 1) as nat);
    }
}

/// One item: what its bytes decode to packs back to them.
proof fn lemma_item_restore(item: FixedItem, raw: Seq<u8>, v: Value)
    requires
        raw.len() == item.kind.spec_width(),
        !(item.kind matches FixKind::Int { expected: None, derived: true, .. }),
        item_reads(item, raw),
        item_value(item, raw, v),
        item_restores(item, raw),
    ensures
        item_bytes(item, Some(v)) == Some(raw),
{
    crate::codec::lemma_pow256_values();
    match item.kind {
        FixKind::Int { prim, be, .. } => {
            crate::codec::lemma_int_value_range(prim, be, raw);
            crate::codec::lemma_int_roundtrip(prim, be, int_value(prim, be, raw), raw);
        },
        FixKind::F64 { be } => {
            crate::codec::lemma_uint_value_bound(raw, be);
            crate::codec::lemma_uint_roundtrip(0, raw, be);
        },
        FixKind::F32 { be } => {
            crate::codec::lemma_uint_value_bound(raw, be);
            crate::codec::lemma_uint_roundtrip(0, raw, be);
            crate::floats::lemma_widen_narrow(uint_value(raw, be) as u32);
        },
        FixKind::Bool { .. } => {
            assert(seq![if raw[0] != 0 { 1u8 } else { 0u8 }] =~= raw);
        },
        FixKind::Raw { .. } => {},
    }
}

/// The first `k` items of a run whose bytes all decode and restore pack
/// back to the bytes they cover.
proof fn lemma_run_restores(items: Seq<FixedItem>, buf: Seq<u8>, m: Seq<(String, Value)>, k: nat)
    requires
        k <= items.len(),
        items_tile(items, buf.len()),
        items_plain(items),
        entries_are(items, buf, 0, m, 0),
        forall|j: int| 0 <= j < items.len() ==> #[trigger] item_reads(items[j], item_raw(buf, 0, items[j])),
        forall|j: int| 0 <= j < items.len() ==> #[trigger] item_restores(items[j], item_raw(buf, 0, items[j])),
    ensures
        offset_sum(items, k) <= buf.len(),
        run_bytes(items, m, k) == Some(buf.subrange(0, offset_sum(items, k) as int)),
    decreases k,
{
    lemma_offset_mono(items, k, items.len());
    if k > 0 {
        let j = (k - 1) as int;
        lemma_run_restores(items, buf, m, (k - 1) as nat);
        assert(items[j].key == Key::Named(m[j].0));
        assert forall|i: int| 0 <= i < j implies m[i].0@ != m[j].0@ by {
            assert(items[i].key == Key::Named(m[i].0));
            assert(items[i].key->Named_0@ != items[j].key->Named_0@);
        }
        lemma_dict_get_at(m, j);
        let raw = item_raw(buf, 0, items[j]);
        assert(items[j].off == offset_sum(items, j as nat));
        assert(item_reads(items[j], raw));
        assert(item_restores(items[j], raw));
        assert(!(items[j].kind matches FixKind::Int { expected: None, derived: true, .. }));
        lemma_item_restore(items[j], raw, m[j].1);
        assert(buf.subrange(0, offset_sum(items, k) as int)
            =~= buf.subrange(0, offset_sum(items, j as nat) as int) + raw);
    }
}

/// Unpacking the bytes of a static run and packing the map that comes out
/// writes the same bytes again, as long as every field's bytes decode (the
/// constants match) and restore (bool bytes are 0 or 1, and no f32 is a
/// signalling NaN).
pub proof fn lemma_static_roundtrip(prog: Program, buf: Seq<u8>, m: Seq<(String, Value)>)
    requires
        static_run(prog),
        prog.ops@[0] matches Op::Fixed { width, items } && {
            &&& buf.len() == width
            &&& forall|j: int| 0 <= j < items@.len() ==> #[trigger] item_reads(items@[j], item_raw(buf, 0, items@[j]))
            &&& forall|j: int| 0 <= j < items@.len() ==> #[trigger] item_restores(items@[j], item_raw(buf, 0, items@[j]))
            &&& entries_are(items@, buf, 0, m, 0)
        },
    ensures
        static_pack(prog, m) == Some(buf),
{
    match prog.ops@[0] {
        Op::Fixed { width, items } => {
            lemma_run_restores(items@, buf, m, items@.len());
            assert(buf.subrange(0, buf.len() as int) =~= buf);
        },
        _ => {},
    }
}

/// For a schema of plain fixed-width fields with distinct names, which
/// `compile` turns into one run of fixed fields: unpacking a buffer as wide
/// as the schema and packing the map that comes out writes the same buffer,
/// as long as every field's bytes decode and restore.
pub proof fn lemma_fixed_schema_roundtrip(fields: Seq<FieldIn>, bo: ByteOrder, prog: Program, buf: Seq<u8>, m: Seq<(String, Value)>)
    requires
        fixed_schema(fields),
        fixed_run_of(prog, fields, bo),
        buf.len() == widths_upto(fields, fields.len()),
        prog.ops@[0] matches Op::Fixed { items, .. } && {
            &&& forall|j: int| 0 <= j < items@.len() ==> #[trigger] item_reads(items@[j], item_raw(buf, 0, items@[j]))
            &&& forall|j: int| 0 <= j < items@.len() ==> #[trigger] item_restores(items@[j], item_raw(buf, 0, items@[j]))
            &&& entries_are(items@, buf, 0, m, 0)
        },
    ensures
        static_pack(prog, m) == Some(buf),
{
    lemma_fixed_schema_static(prog, fields, bo);
    lemma_static_roundtrip(prog, buf, m);
}

/// A field of an integer type with no constant.
pub open spec fn plain_int_field(f: FieldIn) -> bool {
    f.ty matches TypeIn::Int { const_: None, .. }
}

/// For a schema of integer fields with no constants and distinct names:
/// unpacking any buffer as wide as the schema and packing the map that
/// comes out writes the same buffer. Every byte pattern of an integer
/// decodes, and packs back to itself.
pub proof fn lemma_int_schema_roundtrip(fields: Seq<FieldIn>, bo: ByteOrder, prog: Program, buf: Seq<u8>, m: Seq<(String, Value)>)
    requires
        fixed_schema(fields),
        forall|k: int| 0 <= k < fields.len() ==> plain_int_field(#[trigger] fields[k]),
        fixed_run_of(prog, fields, bo),
        buf.len() == widths_upto(fields, fields.len()),
        prog.ops@[0] matches Op::Fixed { items, .. } && entries_are(items@, buf, 0, m, 0),
    ensures
        static_pack(prog, m) == Some(buf),
{
    if let Op::Fixed { items, .. } = prog.ops@[0] {
        assert forall|j: int| 0 <= j < items@.len() implies #[trigger] item_reads(items@[j], item_raw(buf, 0, items@[j])) by {
            assert(item_for(items@[j], fields[j], bo));
            assert(plain_int_field(fields[j]));
        }
        assert forall|j: int| 0 <= j < items@.len() implies #[trigger] item_restores(items@[j], item_raw(buf, 0, items@[j])) by {
            assert(item_for(items@[j], fields[j], bo));
            assert(plain_int_field(fields[j]));
        }
    }
    lemma_fixed_schema_roundtrip(fields, bo, prog, buf, m);
}

} // verus!
