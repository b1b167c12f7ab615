//! Packing what was unpacked gives the bytes back, for programs whose
//! lengths and counts are stated outright (no field derived from another)
//! and whose fields keep every byte they read.
use vstd::prelude::*;

use crate::codec::{int_bytes, int_value, lemma_int_roundtrip, lemma_int_value_range, lemma_uint_roundtrip, lemma_uint_value_bound, lemma_pow256_values, pow256, splice, uint_bytes, uint_value};
use crate::decoding::{self as dec, fixed_item, FrV};
use crate::streaming::{inner_elems, inner_op, inner_ops, inner_struct, inner_until, inner_value, lemma_spans_push, spans_le};
use crate::expr::{eval_spec, run_prefix, Ins};
use crate::encoding::{self as enc, PkV};
use crate::fixed::{items_tile, offset_sum};
use crate::program::{CountSrc, FixKind, FixedItem, Key, LenSrc, Op, Over, Program};
use crate::value::{entries_view, values_view, Value, ValueV};

verus! {

/// A length that is a constant the program states, or the rest of the
/// window.
pub open spec fn stated_len(len: LenSrc) -> bool {
    match len {
        LenSrc::Greedy => true,
        LenSrc::Expr { expr, inv } => inv is None && expr.0@.len() == 1 && expr.0@[0] is Imm,
    }
}

/// A count that is a constant the program states, or until the window ends.
pub open spec fn stated_count(count: CountSrc) -> bool {
    match count {
        CountSrc::UntilEof => true,
        CountSrc::Expr { expr, inv } => inv is None && expr.0@.len() == 1 && expr.0@[0] is Imm,
    }
}

/// A fixed item whose bytes come back from its value: a named integer,
/// double or raw field (not a derived one).
pub open spec fn item_back(item: FixedItem) -> bool {
    &&& item.key is Named
    &&& (item.kind is Int || item.kind is F64 || item.kind is Raw)
    &&& !(item.kind matches FixKind::Int { expected: None, derived: true, .. })
}

/// A run of such items tiling its width.
pub open spec fn run_back(width: usize, items: Seq<FixedItem>) -> bool {
    &&& items_tile(items, width as nat)
    &&& forall|k: int| 0 <= k < items.len() ==> #[trigger] item_back(items[k])
}

/// An op in a value position whose bytes come back from its value.
pub open spec fn back_value(op: Op) -> bool
    decreases op, 0nat,
{
    match op {
        Op::Fixed { width, items } => items@.len() == 1 && run_back(width, items@),
        Op::Bytes { len, .. } => stated_len(len),
        Op::Str { len, .. } => stated_len(len),
        Op::CStr { .. } => true,
        Op::Flags { prim, items, rest, rest_mask, .. } => crate::flags::flags_ok(items@, prim, rest_mask) && !(rest is Ignore),
        Op::Nest { prog, size, .. } => {
            proof { assert(decreases_to!(op => (*prog).ops@)); }
            &&& match size {
                None => true,
                Some(l) => l is Expr && stated_len(l),
            }
            &&& back_fields((*prog).ops@, (*prog).ops@.len())
            &&& names_from((*prog).ops@, 0).no_duplicates()
        },
        Op::Array { count, elem, .. } => stated_count(count) && back_value(*elem),
        _ => false,
    }
}

/// A struct field whose bytes come back from the struct's map.
pub open spec fn back_field(op: Op) -> bool
    decreases op, 1nat,
{
    match op {
        Op::Fixed { width, items } => run_back(width, items@),
        _ => back_value(op) && (op.spec_common() matches Some(c) && c.key is Named),
    }
}

/// The first `n` fields come back.
pub open spec fn back_fields(ops: Seq<Op>, n: nat) -> bool
    decreases ops, n,
{
    if n == 0 || n > ops.len() {
        true
    } else {
        proof { assert(decreases_to!(ops => ops[n - 1])); }
        back_fields(ops, (n - 1) as nat) && back_field(ops[n - 1])
    }
}

/// A program whose bytes come back: every field does, and no name is
/// used twice.
pub open spec fn back_prog(prog: Program) -> bool {
    &&& back_fields(prog.ops@, prog.ops@.len())
    &&& names_from(prog.ops@, 0).no_duplicates()
}

/// The names a field puts in the struct's map, in order.
pub open spec fn op_names(op: Op) -> Seq<Seq<char>> {
    match op {
        Op::Fixed { items, .. } => Seq::new(items@.len(), |t: int| items@[t].key->Named_0@),
        _ => match op.spec_common() {
            Some(c) => match c.key {
                Key::Named(n) => seq![n@],
                Key::Skip => Seq::empty(),
            },
            None => Seq::empty(),
        },
    }
}

/// The names the fields from the `k`-th on put in the map, in order.
pub open spec fn names_from(ops: Seq<Op>, k: int) -> Seq<Seq<char>>
    decreases ops.len() - k,
{
    if k < 0 || k >= ops.len() {
        Seq::empty()
    } else {
        op_names(ops[k]) + names_from(ops, k + 1)
    }
}

proof fn lemma_back_field_at(ops: Seq<Op>, n: nat, k: int)
    requires
        back_fields(ops, n),
        0 <= k < n <= ops.len(),
    ensures
        back_field(ops[k]),
    decreases n,
{
    if k < n - 1 {
        lemma_back_field_at(ops, (n - 1) as nat, k);
    }
}

// ---------- values and their views ----------

proof fn lemma_entries_index(m: Seq<(String, Value)>, n: nat, j: int)
    requires
        n <= m.len(),
        0 <= j < n,
    ensures
        entries_view(m, n).len() == n,
        entries_view(m, n)[j] == (m[j].0@, m[j].1@),
    decreases n,
{
    lemma_entries_len(m, (n - 1) as nat);
    if j < n - 1 {
        lemma_entries_index(m, (n - 1) as nat, j);
    }
}

proof fn lemma_entries_len(m: Seq<(String, Value)>, n: nat)
    requires
        n <= m.len(),
    ensures
        entries_view(m, n).len() == n,
    decreases n,
{
    if n > 0 {
        lemma_entries_len(m, (n - 1) as nat);
    }
}

proof fn lemma_values_index(l: Seq<Value>, n: nat, j: int)
    requires
        n <= l.len(),
        0 <= j < n,
    ensures
        values_view(l, n).len() == n,
        values_view(l, n)[j] == l[j]@,
    decreases n,
{
    lemma_values_len(l, (n - 1) as nat);
    if j < n - 1 {
        lemma_values_index(l, (n - 1) as nat, j);
    }
}

proof fn lemma_values_len(l: Seq<Value>, n: nat)
    requires
        n <= l.len(),
    ensures
        values_view(l, n).len() == n,
    decreases n,
{
    if n > 0 {
        lemma_values_len(l, (n - 1) as nat);
    }
}

/// Two values that view alike are alike where one is a bool or an integer.
proof fn lemma_scalar_view(a: Value, b: Value)
    requires
        a@ == b@,
        b is Int || b is Bool,
    ensures
        a == b,
{
    match a {
        Value::Int(_) => {},
        Value::Float(_) => {},
        Value::Bool(_) => {},
        Value::Bytes(_) => {},
        Value::Str(_) => {},
        Value::Dict(_) => {},
        Value::List(_) => {},
        Value::Unsupported => {},
    }
}

/// A map that views as the entries a flags field read from `raw` is the
/// map `flags_read` describes.
proof fn lemma_flags_view(m: Seq<(String, Value)>, items: Seq<crate::program::FlagItem>, rest: crate::program::RestPolicy, rest_mask: u64, raw: u64)
    requires
        entries_view(m, m.len()) == dec::flag_entries(items, rest, rest_mask, raw),
    ensures
        crate::flags::flags_read(m, items, rest, rest_mask, raw),
{
    lemma_entries_len(m, m.len());
    let fe = dec::flag_entries(items, rest, rest_mask, raw);
    assert forall|k: int| 0 <= k < items.len() implies (#[trigger] m[k]).0@ == items[k].key@
        && m[k].1 == crate::flags::flag_read(items[k], raw) by {
        lemma_entries_index(m, m.len(), k);
        assert(fe[k] == (items[k].key@, crate::flags::flag_read(items[k], raw)@));
        lemma_scalar_view(m[k].1, crate::flags::flag_read(items[k], raw));
    }
    if rest is Keep {
        let n = items.len() as int;
        lemma_entries_index(m, m.len(), n);
        assert(fe[n] == ("_rest"@, ValueV::Int((raw & rest_mask) as i128)));
        lemma_scalar_view(m[n].1, Value::Int((raw & rest_mask) as i128));
    }
}

// ---------- one fixed item ----------

/// Packing the value one item of a run read writes its bytes back.
proof fn lemma_item_back(item: FixedItem, buf: Seq<u8>, st: FrV, base: int, end: int, stp: PkV, pbase: int, x: Value)
    requires
        item_back(item),
        0 <= base <= end <= buf.len(),
        0 <= pbase,
        pbase + (end - base) <= stp.out.len(),
        fixed_item(item, buf, st, base, end) matches Ok((vv, _)) && x@ == vv,
    ensures
        enc::fixed_item(stp, pbase, pbase + (end - base), item, Some(x)) matches Ok(s)
            && s.out == splice(stp.out, pbase + item.off, buf.subrange(base + item.off, base + item.off + item.kind.spec_width())),
{
    let w = item.kind.spec_width() as int;
    let pos = base + item.off;
    let raw = buf.subrange(pos, pos + w);
    lemma_pow256_values();
    match item.kind {
        FixKind::Int { prim, be, expected, .. } => {
            let v = int_value(prim, be, raw);
            lemma_int_value_range(prim, be, raw);
            lemma_int_roundtrip(prim, be, v, raw);
            match x {
                Value::Int(i) => {},
                _ => {},
            }
        },
        FixKind::F64 { be } => {
            lemma_uint_value_bound(raw, be);
            lemma_uint_roundtrip(uint_value(raw, be), raw, be);
            match x {
                Value::Float(b) => {},
                _ => {},
            }
        },
        FixKind::Raw { len, expected } => {
            match x {
                Value::Bytes(b) => {},
                _ => {},
            }
        },
        _ => {},
    }
}

/// No two entries of a map view share a name.
pub open spec fn names_distinct(m: Seq<(Seq<char>, ValueV)>) -> bool {
    forall|i: int, j: int| 0 <= i < j < m.len() ==> (#[trigger] m[i]).0 != (#[trigger] m[j]).0
}

/// Where a map views as `mv` with distinct names, an entry of `mv` is
/// what a lookup of its name gives.
proof fn lemma_lookup_at(v: Value, mv: Seq<(Seq<char>, ValueV)>, j: int, key: Key)
    requires
        v is Dict,
        mv == entries_view(v->Dict_0@, v->Dict_0@.len()),
        names_distinct(mv),
        0 <= j < mv.len(),
        key matches Key::Named(n) && n@ == mv[j].0,
    ensures
        enc::lookup(v, key) matches Some(x) && x@ == mv[j].1,
{
    let m = v->Dict_0@;
    lemma_entries_len(m, m.len());
    lemma_entries_index(m, m.len(), j);
    assert forall|i: int| 0 <= i < j implies m[i].0@ != m[j].0@ by {
        lemma_entries_index(m, m.len(), i);
        assert(mv[i].0 != mv[j].0);
    }
    crate::value::lemma_dict_get_at(m, j);
}

/// Decoding the items of a run adds to the map and keeps what it held.
proof fn lemma_items_extend(items: Seq<FixedItem>, k: int, buf: Seq<u8>, st: FrV, base: int, end: int, map: Seq<(Seq<char>, ValueV)>)
    requires
        crate::decoding::fixed_items(items, k, buf, st, base, end, map) is Ok,
    ensures
        crate::decoding::fixed_items(items, k, buf, st, base, end, map) matches Ok((_, r))
            && r.len() >= map.len() && r.subrange(0, map.len() as int) == map,
    decreases items.len() - k,
{
    if 0 <= k < items.len() {
        let (v, st1) = fixed_item(items[k], buf, st, base, end)->Ok_0;
        let map1 = crate::decoding::put(map, items[k].key, v);
        lemma_items_extend(items, k + 1, buf, st1, base, end, map1);
        let r = crate::decoding::fixed_items(items, k + 1, buf, st1, base, end, map1)->Ok_0.1;
        assert(r.subrange(0, map.len() as int) =~= r.subrange(0, map1.len() as int).subrange(0, map.len() as int));
        assert(map1.subrange(0, map.len() as int) =~= map);
    } else {
        assert(map.subrange(0, map.len() as int) =~= map);
    }
}

/// Packing the values a run of items read, from the struct's map, writes
/// the run's bytes back over its zeros.
proof fn lemma_run_back(items: Seq<FixedItem>, width: usize, k: int, buf: Seq<u8>, st: FrV, base: int,
    map: Seq<(Seq<char>, ValueV)>, o: Seq<u8>, stp: PkV, v: Value, mv: Seq<(Seq<char>, ValueV)>)
    requires
        run_back(width, items),
        0 <= k <= items.len(),
        0 <= base,
        base + width <= buf.len(),
        crate::decoding::fixed_items(items, k, buf, st, base, base + width, map) matches Ok((_, r))
            && r.len() <= mv.len() && mv.subrange(0, r.len() as int) == r,
        map.len() + (items.len() - k) <= mv.len(),
        v is Dict,
        mv == entries_view(v->Dict_0@, v->Dict_0@.len()),
        names_distinct(mv),
        stp.out == o + buf.subrange(base, base + offset_sum(items, k as nat))
            + Seq::new((width - offset_sum(items, k as nat)) as nat, |i: int| 0u8),
    ensures
        enc::fixed_items(stp, o.len() as int, o.len() + width, items, k, v) matches Ok(s)
            && s.out == o + buf.subrange(base, base + width),
    decreases items.len() - k,
{
    crate::fixed::lemma_offset_mono(items, k as nat, items.len());
    if k < items.len() {
        let item = items[k];
        assert(item_back(item));
        assert(item.off == offset_sum(items, k as nat));
        crate::fixed::lemma_offset_mono(items, (k + 1) as nat, items.len());
        assert(offset_sum(items, (k + 1) as nat) == offset_sum(items, k as nat) + item.kind.spec_width());
        let (vk, st1) = fixed_item(item, buf, st, base, base + width)->Ok_0;
        let map1 = crate::decoding::put(map, item.key, vk);
        lemma_items_extend(items, k + 1, buf, st1, base, base + width, map1);
        let r = crate::decoding::fixed_items(items, k + 1, buf, st1, base, base + width, map1)->Ok_0.1;
        assert(mv[map.len() as int] == r[map.len() as int]);
        assert(r[map.len() as int] == map1[map.len() as int]);
        lemma_lookup_at(v, mv, map.len() as int, item.key);
        let x = enc::lookup(v, item.key)->Some_0;
        let pb = o.len() as int;
        lemma_item_back(item, buf, st, base, base + width, stp, pb, x);
        let s1 = enc::fixed_item(stp, pb, pb + width, item, Some(x))->Ok_0;
        let a = offset_sum(items, k as nat) as int;
        let b = offset_sum(items, (k + 1) as nat) as int;
        assert(s1.out =~= o + buf.subrange(base, base + b) + Seq::new((width - b) as nat, |i: int| 0u8));
        assert(map1.len() + (items.len() - (k + 1)) <= mv.len());
        lemma_run_back(items, width, k + 1, buf, st1, base, map1, o, s1, v, mv);
    } else {
        assert(offset_sum(items, k as nat) == width);
        assert(stp.out =~= o + buf.subrange(base, base + width));
    }
}

/// The names of a map view, in order.
pub open spec fn keys(m: Seq<(Seq<char>, ValueV)>) -> Seq<Seq<char>> {
    m.map_values(|e: (Seq<char>, ValueV)| e.0)
}

proof fn lemma_keys_distinct(m: Seq<(Seq<char>, ValueV)>)
    requires
        keys(m).no_duplicates(),
    ensures
        names_distinct(m),
{
    assert forall|i: int, j: int| 0 <= i < j < m.len() implies (#[trigger] m[i]).0 != (#[trigger] m[j]).0 by {
        assert(keys(m)[i] == m[i].0 && keys(m)[j] == m[j].0);
    }
}

/// A constant expression evaluates to its constant.
proof fn lemma_const_eval(c: i64, frames: Seq<crate::expr::RegFrame>, strict: bool, e: crate::expr::Expr)
    requires
        e.0@.len() == 1,
        e.0@[0] == Ins::Imm(c),
    ensures
        eval_spec(e.0@, frames, strict) == Ok::<i64, crate::error::Kind>(c),
{
    reveal_with_fuel(run_prefix, 2);
    assert(run_prefix(e.0@, 0, frames, strict) == Ok::<Seq<i64>, crate::error::Kind>(Seq::empty()));
    assert(Seq::<i64>::empty().push(c)[0] == c);
}

/// Decoding the items of a run puts each under its name, after what the
/// map held.
proof fn lemma_items_keys(items: Seq<FixedItem>, k: int, buf: Seq<u8>, st: FrV, base: int, end: int, map: Seq<(Seq<char>, ValueV)>)
    requires
        0 <= k <= items.len(),
        forall|t: int| 0 <= t < items.len() ==> (#[trigger] items[t]).key is Named,
        dec::fixed_items(items, k, buf, st, base, end, map) is Ok,
    ensures
        dec::fixed_items(items, k, buf, st, base, end, map) matches Ok((_, r))
            && keys(r) == keys(map) + Seq::new((items.len() - k) as nat, |t: int| items[k + t].key->Named_0@),
    decreases items.len() - k,
{
    if k < items.len() {
        let (v, st1) = fixed_item(items[k], buf, st, base, end)->Ok_0;
        let map1 = dec::put(map, items[k].key, v);
        lemma_items_keys(items, k + 1, buf, st1, base, end, map1);
        assert(keys(map1) =~= keys(map).push(items[k].key->Named_0@));
        let r = dec::fixed_items(items, k + 1, buf, st1, base, end, map1)->Ok_0.1;
        assert(keys(r) =~= keys(map) + Seq::new((items.len() - k) as nat, |t: int| items[k + t].key->Named_0@));
    } else {
        assert(keys(map) + Seq::new(0nat, |t: int| items[k + t].key->Named_0@) =~= keys(map));
    }
}

/// Decoding a field adds its names to the map, after what it held.
proof fn lemma_op_keys(op: Op, idx: int, buf: Seq<u8>, st: FrV, pos: int, limit: int, map: Seq<(Seq<char>, ValueV)>, defs: Seq<dec::DefV>)
    requires
        back_field(op),
        dec::dec_op(op, idx, buf, st, pos, limit, map, defs) is Ok,
    ensures
        dec::dec_op(op, idx, buf, st, pos, limit, map, defs) matches Ok((_, _, r, _))
            && keys(r) == keys(map) + op_names(op) && r.len() >= map.len() && r.subrange(0, map.len() as int) == map,
{
    match op {
        Op::Fixed { width, items } => {
            assert forall|t: int| 0 <= t < items@.len() implies (#[trigger] items@[t]).key is Named by {
                assert(item_back(items@[t]));
            }
            lemma_items_keys(items@, 0, buf, st, pos, pos + width, map);
            lemma_items_extend(items@, 0, buf, st, pos, pos + width, map);
            assert(Seq::new((items@.len() - 0) as nat, |t: int| items@[0 + t].key->Named_0@) =~= op_names(op));
        },
        _ => {
            let r = dec::dec_op(op, idx, buf, st, pos, limit, map, defs)->Ok_0.2;
            assert(keys(r) =~= keys(map) + op_names(op));
            assert(r.subrange(0, map.len() as int) =~= map);
        },
    }
}

/// Decoding the fields from the `k`-th on adds their names to the map.
proof fn lemma_ops_keys(prog: Program, k: int, buf: Seq<u8>, st: FrV, start: int, pos: int, limit: int, map: Seq<(Seq<char>, ValueV)>, defs: Seq<dec::DefV>)
    requires
        back_fields(prog.ops@, prog.ops@.len()),
        0 <= k,
        dec::dec_ops(prog, k, buf, st, start, pos, limit, map, defs) is Ok,
    ensures
        dec::dec_ops(prog, k, buf, st, start, pos, limit, map, defs) matches Ok((_, _, r, _))
            && keys(r) == keys(map) + names_from(prog.ops@, k) && r.len() >= map.len() && r.subrange(0, map.len() as int) == map,
    decreases prog.ops@.len() - k,
{
    if k < prog.ops@.len() {
        lemma_back_field_at(prog.ops@, prog.ops@.len(), k);
        lemma_op_keys(prog.ops@[k], k, buf, st, pos, limit, map, defs);
        let (end, st1, map1, defs1) = dec::dec_op(prog.ops@[k], k, buf, st, pos, limit, map, defs)->Ok_0;
        lemma_ops_keys(prog, k + 1, buf, st1, start, end, limit, map1, defs1);
        let r = dec::dec_ops(prog, k + 1, buf, st1, start, end, limit, map1, defs1)->Ok_0.2;
        assert(keys(r) =~= keys(map) + names_from(prog.ops@, k));
        assert(r.subrange(0, map.len() as int) =~= r.subrange(0, map1.len() as int).subrange(0, map.len() as int));
    } else {
        assert(keys(map) + names_from(prog.ops@, k) =~= keys(map));
        assert(map.subrange(0, map.len() as int) =~= map);
    }
}

/// Where a field decodes: it ends within its window and leaves the spans
/// before its end.
proof fn lemma_op_bounds(op: Op, idx: int, buf: Seq<u8>, st: FrV, pos: int, limit: int, map: Seq<(Seq<char>, ValueV)>, defs: Seq<dec::DefV>)
    requires
        0 <= pos <= limit <= buf.len() <= usize::MAX,
        spans_le(st, pos),
        st.regs.len() == st.spans.len(),
        st.regs.len() > 0,
        dec::dec_op(op, idx, buf, st, pos, limit, map, defs) is Ok,
    ensures
        dec::dec_op(op, idx, buf, st, pos, limit, map, defs) matches Ok((end, st2, _, _)) && pos <= end <= limit
            && spans_le(st2, end) && st2.regs.len() == st2.spans.len() && st2.regs.len() == st.regs.len(),
{
    inner_op(op, idx, buf, buf.len() as int, st, pos, limit, map, defs);
}

/// Where the fields from the `k`-th on decode: they end within the window.
proof fn lemma_ops_bounds(prog: Program, k: int, buf: Seq<u8>, st: FrV, start: int, pos: int, limit: int, map: Seq<(Seq<char>, ValueV)>, defs: Seq<dec::DefV>)
    requires
        0 <= pos <= limit <= buf.len() <= usize::MAX,
        spans_le(st, pos),
        st.regs.len() == st.spans.len(),
        st.regs.len() > 0,
        dec::dec_ops(prog, k, buf, st, start, pos, limit, map, defs) is Ok,
    ensures
        dec::dec_ops(prog, k, buf, st, start, pos, limit, map, defs) matches Ok((end, _, _, _)) && pos <= end <= limit,
{
    inner_ops(prog, k, buf, buf.len() as int, st, start, pos, limit, map, defs);
}

/// Where a value decodes: it ends within its window and leaves the spans
/// before its end.
proof fn lemma_value_bounds(op: Op, buf: Seq<u8>, st: FrV, pos: int, limit: int)
    requires
        0 <= pos <= limit <= buf.len() <= usize::MAX,
        spans_le(st, pos),
        st.regs.len() == st.spans.len(),
        st.regs.len() > 0,
        dec::dec_value(op, buf, st, pos, limit) is Ok,
    ensures
        dec::dec_value(op, buf, st, pos, limit) matches Ok((_, end, st2)) && pos <= end <= limit
            && spans_le(st2, end) && st2.regs.len() == st2.spans.len() && st2.regs.len() == st.regs.len(),
{
    inner_value(op, buf, buf.len() as int, st, pos, limit);
}

/// Decoding array elements adds to the list and keeps what it held.
proof fn lemma_elems_extend(op: Op, n: int, k: int, buf: Seq<u8>, st: FrV, pos: int, limit: int, acc: Seq<ValueV>)
    requires
        0 <= k <= n,
        dec::dec_elems(op, n, k, buf, st, pos, limit, acc) is Ok,
    ensures
        dec::dec_elems(op, n, k, buf, st, pos, limit, acc) matches Ok((ValueV::List(v), _, _))
            && v.len() == acc.len() + (n - k) && v.subrange(0, acc.len() as int) == acc,
    decreases n - k,
{
    if let Op::Array { elem, .. } = op {
        if k < n {
            let (v, end, st1) = dec::dec_value(*elem, buf, st, pos, limit)->Ok_0;
            lemma_elems_extend(op, n, k + 1, buf, st1, end, limit, acc.push(v));
            let r = dec::dec_elems(op, n, k + 1, buf, st1, end, limit, acc.push(v))->Ok_0.0->List_0;
            assert(r.subrange(0, acc.len() as int) =~= r.subrange(0, acc.len() + 1int).subrange(0, acc.len() as int));
            assert(acc.push(v).subrange(0, acc.len() as int) =~= acc);
        } else {
            assert(acc.subrange(0, acc.len() as int) =~= acc);
        }
    }
}

/// Decoding array elements to the end of the window adds to the list and
/// keeps what it held.
proof fn lemma_until_extend(op: Op, k: int, buf: Seq<u8>, st: FrV, pos: int, limit: int, acc: Seq<ValueV>)
    requires
        dec::dec_until_end(op, k, buf, st, pos, limit, acc) is Ok,
    ensures
        dec::dec_until_end(op, k, buf, st, pos, limit, acc) matches Ok((ValueV::List(v), _, _))
            && v.len() >= acc.len() && v.subrange(0, acc.len() as int) == acc,
    decreases limit - pos,
{
    if let Op::Array { elem, max_count, .. } = op {
        if pos < limit && k < max_count {
            let (v, end, st1) = dec::dec_value(*elem, buf, st, pos, limit)->Ok_0;
            if pos < end <= limit {
                lemma_until_extend(op, k + 1, buf, st1, end, limit, acc.push(v));
                let r = dec::dec_until_end(op, k + 1, buf, st1, end, limit, acc.push(v))->Ok_0.0->List_0;
                assert(r.subrange(0, acc.len() as int) =~= r.subrange(0, acc.len() + 1int).subrange(0, acc.len() as int));
                assert(acc.push(v).subrange(0, acc.len() as int) =~= acc);
            }
        } else {
            assert(acc.subrange(0, acc.len() as int) =~= acc);
        }
    }
}

/// Packing what a struct decoded to writes its bytes back.
proof fn rt_struct(prog: Program, buf: Seq<u8>, st: FrV, pos: int, limit: int, stp: PkV, x: Value)
    requires
        back_prog(prog),
        0 <= pos <= limit <= buf.len() <= usize::MAX,
        spans_le(st, pos),
        st.regs.len() == st.spans.len(),
        dec::dec_struct(prog, buf, st, pos, limit) matches Ok((vv, _, _)) && x@ == vv,
    ensures
        enc::pack_struct(stp, prog, x) matches Ok(s)
            && s.out == stp.out + buf.subrange(pos, dec::dec_struct(prog, buf, st, pos, limit)->Ok_0.1),
    decreases prog, 3nat, 0int,
{
    let st0 = dec::push_frame(st);
    lemma_spans_push(st, pos);
    let (end, st1, mv, defs) = dec::dec_ops(prog, 0, buf, st0, pos, pos, limit, Seq::empty(), Seq::empty())->Ok_0;
    lemma_ops_keys(prog, 0, buf, st0, pos, pos, limit, Seq::empty(), Seq::empty());
    assert(keys(Seq::<(Seq<char>, ValueV)>::empty()) + names_from(prog.ops@, 0) =~= names_from(prog.ops@, 0));
    lemma_keys_distinct(mv);
    match x {
        Value::Dict(m) => {},
        _ => {},
    }
    rt_ops(prog, 0, buf, st0, pos, pos, limit, Seq::empty(), Seq::empty(), mv, x, enc::push_frame(stp), Seq::empty());
}

/// Packing the fields from the `k`-th on from the map the struct decoded
/// to writes their bytes back.
#[verifier::rlimit(80)]
proof fn rt_ops(prog: Program, k: int, buf: Seq<u8>, st: FrV, start: int, pos: int, limit: int,
    map: Seq<(Seq<char>, ValueV)>, defs: Seq<dec::DefV>, mv: Seq<(Seq<char>, ValueV)>, x: Value, stp: PkV, ds: Seq<enc::DigV>)
    requires
        back_prog(prog),
        0 <= k,
        0 <= pos <= limit <= buf.len() <= usize::MAX,
        spans_le(st, pos),
        st.regs.len() == st.spans.len(),
        st.regs.len() > 0,
        dec::dec_ops(prog, k, buf, st, start, pos, limit, map, defs) matches Ok((_, _, r, _)) && r == mv,
        x is Dict,
        mv == entries_view(x->Dict_0@, x->Dict_0@.len()),
        names_distinct(mv),
    ensures
        enc::pack_ops(stp, prog, k, x, ds) matches Ok((s, ds2)) && ds2 == ds
            && s.out == stp.out + buf.subrange(pos, dec::dec_ops(prog, k, buf, st, start, pos, limit, map, defs)->Ok_0.0),
    decreases prog, 2nat, 2 * (prog.ops@.len() - k) + 1,
{
    if k < prog.ops@.len() {
        rt_step(prog, k, buf, st, start, pos, limit, map, defs, mv, x, stp, ds);
        let (e1, s1, m1, d1) = dec::dec_op(prog.ops@[k], k, buf, st, pos, limit, map, defs)->Ok_0;
        let p1 = enc::pack_op(stp, prog.ops@[k], k, x, ds)->Ok_0.0;
        rt_ops(prog, k + 1, buf, s1, start, e1, limit, m1, d1, mv, x, p1, ds);
        let end = dec::dec_ops(prog, k + 1, buf, s1, start, e1, limit, m1, d1)->Ok_0.0;
        lemma_ops_bounds(prog, k + 1, buf, s1, start, e1, limit, m1, d1);
        assert(stp.out + buf.subrange(pos, end) =~= stp.out + buf.subrange(pos, e1) + buf.subrange(e1, end));
    } else {
        assert(stp.out + buf.subrange(pos, pos) =~= stp.out);
    }
}

/// Packing field `k` from the map the struct decoded to writes its bytes
/// back, and both go on with the next field.
proof fn rt_step(prog: Program, k: int, buf: Seq<u8>, st: FrV, start: int, pos: int, limit: int,
    map: Seq<(Seq<char>, ValueV)>, defs: Seq<dec::DefV>, mv: Seq<(Seq<char>, ValueV)>, x: Value, stp: PkV, ds: Seq<enc::DigV>)
    requires
        back_prog(prog),
        0 <= k,
        0 <= pos <= limit <= buf.len() <= usize::MAX,
        spans_le(st, pos),
        st.regs.len() == st.spans.len(),
        st.regs.len() > 0,
        dec::dec_ops(prog, k, buf, st, start, pos, limit, map, defs) matches Ok((_, _, r, _)) && r == mv,
        x is Dict,
        mv == entries_view(x->Dict_0@, x->Dict_0@.len()),
        names_distinct(mv),
        k < prog.ops@.len(),
    ensures
        dec::dec_op(prog.ops@[k], k, buf, st, pos, limit, map, defs) is Ok,
        enc::pack_op(stp, prog.ops@[k], k, x, ds) is Ok,
        ({
            let (e1, s1, m1, d1) = dec::dec_op(prog.ops@[k], k, buf, st, pos, limit, map, defs)->Ok_0;
            let (p1, ds1) = enc::pack_op(stp, prog.ops@[k], k, x, ds)->Ok_0;
            &&& pos <= e1 <= limit
            &&& spans_le(s1, e1)
            &&& s1.regs.len() == s1.spans.len()
            &&& s1.regs.len() == st.regs.len()
            &&& dec::dec_ops(prog, k, buf, st, start, pos, limit, map, defs) == dec::dec_ops(prog, k + 1, buf, s1, start, e1, limit, m1, d1)
            &&& ds1 == ds
            &&& p1.out == stp.out + buf.subrange(pos, e1)
            &&& enc::pack_ops(stp, prog, k, x, ds) == enc::pack_ops(p1, prog, k + 1, x, ds)
        }),
    decreases prog, 2nat, 2 * (prog.ops@.len() - k),
{
    let op = prog.ops@[k];
    assert(decreases_to!(prog => prog.ops@[k]));
    lemma_back_field_at(prog.ops@, prog.ops@.len(), k);
    lemma_op_bounds(op, k, buf, st, pos, limit, map, defs);
    let (end1, st1, map1, defs1) = dec::dec_op(op, k, buf, st, pos, limit, map, defs)->Ok_0;
    lemma_op_keys(op, k, buf, st, pos, limit, map, defs);
    lemma_ops_keys(prog, k + 1, buf, st1, start, end1, limit, map1, defs1);
    rt_field(op, k, buf, st, pos, limit, map, defs, mv, x, stp, ds);
}

/// Packing one field from the map the struct decoded to writes its bytes
/// back.
proof fn rt_field(op: Op, k: int, buf: Seq<u8>, st: FrV, pos: int, limit: int,
    map: Seq<(Seq<char>, ValueV)>, defs: Seq<dec::DefV>, mv: Seq<(Seq<char>, ValueV)>, x: Value, stp: PkV, ds: Seq<enc::DigV>)
    requires
        back_field(op),
        0 <= pos <= limit <= buf.len() <= usize::MAX,
        spans_le(st, pos),
        st.regs.len() == st.spans.len(),
        st.regs.len() > 0,
        dec::dec_op(op, k, buf, st, pos, limit, map, defs) matches Ok((_, _, map1, _))
            && map1.len() <= mv.len() && mv.subrange(0, map1.len() as int) == map1
            && keys(map1) == keys(map) + op_names(op) && map1.subrange(0, map.len() as int) == map,
        x is Dict,
        mv == entries_view(x->Dict_0@, x->Dict_0@.len()),
        names_distinct(mv),
    ensures
        enc::pack_op(stp, op, k, x, ds) matches Ok((s, ds2)) && ds2 == ds
            && s.out == stp.out + buf.subrange(pos, dec::dec_op(op, k, buf, st, pos, limit, map, defs)->Ok_0.0),
    decreases op, 2nat, 0int,
{
    let map1 = dec::dec_op(op, k, buf, st, pos, limit, map, defs)->Ok_0.2;
    assert(keys(map1).len() == map1.len());
    assert(keys(map).len() == map.len());
    match op {
        Op::Fixed { width, items } => {
            assert(op_names(op).len() == items@.len());
            let z = enc::zeros(stp, width as int);
            assert(z.out =~= stp.out + buf.subrange(pos, pos + offset_sum(items@, 0))
                + Seq::new((width - offset_sum(items@, 0)) as nat, |i: int| 0u8));
            lemma_run_back(items@, width, 0, buf, st, pos, map, stp.out, z, x, mv);
        },
        _ => {
            let c = op.spec_common()->Some_0;
            let val = dec::dec_value(op, buf, st, pos, limit)->Ok_0.0;
            assert(map1 == map.push((c.key->Named_0@, val)));
            assert(mv[map.len() as int] == map1[map.len() as int]);
            lemma_lookup_at(x, mv, map.len() as int, c.key);
            let xv = enc::lookup(x, c.key)->Some_0;
            rt_value(op, buf, st, pos, limit, stp, xv);
        },
    }
}

/// Packing what a value decoded to writes its bytes back.
proof fn rt_value(op: Op, buf: Seq<u8>, st: FrV, pos: int, limit: int, stp: PkV, x: Value)
    requires
        back_value(op),
        0 <= pos <= limit <= buf.len() <= usize::MAX,
        spans_le(st, pos),
        st.regs.len() == st.spans.len(),
        st.regs.len() > 0,
        dec::dec_value(op, buf, st, pos, limit) matches Ok((vv, _, _)) && x@ == vv,
    ensures
        enc::pack_value(stp, op, x) matches Ok(s)
            && s.out == stp.out + buf.subrange(pos, dec::dec_value(op, buf, st, pos, limit)->Ok_0.1),
    decreases op, 1nat, 1int,
{
    match op {
        Op::Nest { .. } => rt_nest(op, buf, st, pos, limit, stp, x),
        Op::Array { .. } => rt_array(op, buf, st, pos, limit, stp, x),
        _ => rt_flat(op, buf, st, pos, limit, stp, x),
    }
}

proof fn rt_flat(op: Op, buf: Seq<u8>, st: FrV, pos: int, limit: int, stp: PkV, x: Value)
    requires
        back_value(op),
        !(op is Nest || op is Array),
        0 <= pos <= limit <= buf.len() <= usize::MAX,
        dec::dec_value(op, buf, st, pos, limit) matches Ok((vv, _, _)) && x@ == vv,
    ensures
        enc::pack_value(stp, op, x) matches Ok(s)
            && s.out == stp.out + buf.subrange(pos, dec::dec_value(op, buf, st, pos, limit)->Ok_0.1),
{
    let o = stp.out;
    match op {
        Op::Fixed { width, items } => {
            let item = items@[0];
            assert(item_back(item));
            assert(item.off == offset_sum(items@, 0));
            assert(offset_sum(items@, 1) == offset_sum(items@, 0) + item.kind.spec_width());
            let z = enc::zeros(stp, width as int);
            lemma_item_back(item, buf, st, pos, pos + width, z, o.len() as int, x);
            assert(splice(z.out, o.len() + item.off, buf.subrange(pos + item.off, pos + item.off + item.kind.spec_width()))
                =~= o + buf.subrange(pos, pos + width));
        },
        Op::Bytes { len, max, .. } => {
            match x {
                Value::Bytes(b) => {},
                _ => {},
            }
            if let LenSrc::Expr { expr, .. } = len {
                lemma_const_eval(expr.0@[0]->Imm_0, st.regs, false, expr);
            }
        },
        Op::Str { len, max, enc: e, .. } => {
            let n = dec::resolve_len(st, len, max, pos, limit)->Ok_0;
            crate::text::lemma_decode_encode(buf.subrange(pos, pos + n), e);
            match x {
                Value::Str(t) => {},
                _ => {},
            }
            if let LenSrc::Expr { expr, .. } = len {
                lemma_const_eval(expr.0@[0]->Imm_0, st.regs, false, expr);
            }
        },
        Op::CStr { max, enc: e, .. } => {
            let scan = crate::unpack::cstr_scan(max, pos as usize, limit as usize);
            let i = crate::unpack::first_nul(buf, pos, 0, scan)->Some_0;
            crate::unpack::lemma_first_nul(buf, pos, 0, scan);
            crate::unpack::lemma_cstr_roundtrip(buf, e, max, pos as usize, limit as usize, i);
            match x {
                Value::Str(t) => {},
                _ => {},
            }
            assert(o + buf.subrange(pos, pos + i) + seq![0u8] =~= o + buf.subrange(pos, pos + i + 1));
        },
        Op::Flags { prim, be, items, rest, rest_mask, .. } => {
            let w = prim.spec_width() as int;
            let b = buf.subrange(pos, pos + w);
            let raw = uint_value(b, be) as u64;
            match x {
                Value::Dict(m) => {
                    lemma_flags_view(m@, items@, rest, rest_mask, raw);
                    crate::flags::lemma_flags_bytes_roundtrip(items@, prim, rest, rest_mask, be, b, m@);
                },
                _ => {},
            }
        },
        _ => {},
    }
}

proof fn rt_nest(op: Op, buf: Seq<u8>, st: FrV, pos: int, limit: int, stp: PkV, x: Value)
    requires
        back_value(op),
        op is Nest,
        0 <= pos <= limit <= buf.len() <= usize::MAX,
        spans_le(st, pos),
        st.regs.len() == st.spans.len(),
        st.regs.len() > 0,
        dec::dec_value(op, buf, st, pos, limit) matches Ok((vv, _, _)) && x@ == vv,
    ensures
        enc::pack_value(stp, op, x) matches Ok(s)
            && s.out == stp.out + buf.subrange(pos, dec::dec_value(op, buf, st, pos, limit)->Ok_0.1),
    decreases op, 1nat, 0int,
{
    if let Op::Nest { prog, size, .. } = op {
        assert(decreases_to!(op => *prog));
        match size {
            None => { rt_struct(*prog, buf, st, pos, limit, stp, x); },
            Some(l) => {
                if let LenSrc::Expr { expr, .. } = l {
                    lemma_const_eval(expr.0@[0]->Imm_0, st.regs, false, expr);
                    let sz = dec::eval_len(st, expr, pos)->Ok_0;
                    rt_struct(*prog, buf, st, pos, pos + sz, stp, x);
                    inner_struct(*prog, buf, buf.len() as int, st, pos, pos + sz);
                }
            },
        }
    }
}

proof fn rt_array(op: Op, buf: Seq<u8>, st: FrV, pos: int, limit: int, stp: PkV, x: Value)
    requires
        back_value(op),
        op is Array,
        0 <= pos <= limit <= buf.len() <= usize::MAX,
        spans_le(st, pos),
        st.regs.len() == st.spans.len(),
        st.regs.len() > 0,
        dec::dec_value(op, buf, st, pos, limit) matches Ok((vv, _, _)) && x@ == vv,
    ensures
        enc::pack_value(stp, op, x) matches Ok(s)
            && s.out == stp.out + buf.subrange(pos, dec::dec_value(op, buf, st, pos, limit)->Ok_0.1),
    decreases op, 1nat, 0int,
{
    if let Op::Array { count, elem, .. } = op {
        match count {
            CountSrc::Expr { expr, .. } => {
                let n = dec::eval(st, expr, pos)->Ok_0;
                lemma_elems_extend(op, n as int, 0, buf, st, pos, limit, Seq::empty());
            },
            CountSrc::UntilEof => {
                lemma_until_extend(op, 0, buf, st, pos, limit, Seq::empty());
            },
        }
        match x {
            Value::List(l) => {
                match count {
                    CountSrc::Expr { expr, .. } => {
                        let c = expr.0@[0]->Imm_0;
                        lemma_const_eval(c, st.regs, false, expr);
                        let n = dec::eval(st, expr, pos)->Ok_0;
                        assert(n == c);
                        assert(dec::dec_value(op, buf, st, pos, limit) == dec::dec_elems(op, n as int, 0, buf, st, pos, limit, Seq::empty()));
                        lemma_elems_extend(op, n as int, 0, buf, st, pos, limit, Seq::empty());
                        lemma_values_len(l@, l@.len());
                        assert(l@.len() == n);
                        rt_elems(op, n as int, 0, buf, st, pos, limit, Seq::empty(), stp, l@);
                        let s = enc::pack_elems(stp, op, l@, 0)->Ok_0;
                        assert(enc::finish_count(s, expr, None, l@.len() as int) == Ok::<PkV, enc::PFailV>(s));
                        assert(enc::pack_value(stp, op, x) == Ok::<PkV, enc::PFailV>(s));
                    },
                    CountSrc::UntilEof => {
                        assert(dec::dec_value(op, buf, st, pos, limit) == dec::dec_until_end(op, 0, buf, st, pos, limit, Seq::empty()));
                        rt_until(op, 0, buf, st, pos, limit, Seq::empty(), stp, l@);
                        assert(enc::pack_value(stp, op, x) is Ok);
                    },
                }
            },
            _ => {},
        }
    }
}

/// Packing the elements from the `k`-th on writes their bytes back.
proof fn rt_elems(op: Op, n: int, k: int, buf: Seq<u8>, st: FrV, pos: int, limit: int, acc: Seq<ValueV>, stp: PkV, l: Seq<Value>)
    requires
        back_value(op),
        op is Array,
        0 <= k <= n,
        acc.len() == k,
        0 <= pos <= limit <= buf.len() <= usize::MAX,
        spans_le(st, pos),
        st.regs.len() == st.spans.len(),
        st.regs.len() > 0,
        dec::dec_elems(op, n, k, buf, st, pos, limit, acc) matches Ok((ValueV::List(v), _, _)) && v == values_view(l, l.len()),
    ensures
        enc::pack_elems(stp, op, l, k) matches Ok(s)
            && s.out == stp.out + buf.subrange(pos, dec::dec_elems(op, n, k, buf, st, pos, limit, acc)->Ok_0.1),
    decreases op, 0nat, n - k,
{
    lemma_values_len(l, l.len());
    lemma_elems_extend(op, n, k, buf, st, pos, limit, acc);
    if let Op::Array { elem, .. } = op {
        if k < n {
            assert(decreases_to!(op => *elem));
            lemma_value_bounds(*elem, buf, st, pos, limit);
            let (v, end1, st1) = dec::dec_value(*elem, buf, st, pos, limit)->Ok_0;
            lemma_elems_extend(op, n, k + 1, buf, st1, end1, limit, acc.push(v));
            let vs = dec::dec_elems(op, n, k + 1, buf, st1, end1, limit, acc.push(v))->Ok_0.0->List_0;
            assert(vs[k] == vs.subrange(0, k + 1)[k]);
            lemma_values_index(l, l.len(), k);
            rt_value(*elem, buf, st, pos, limit, stp, l[k]);
            let s1 = enc::pack_value(stp, *elem, l[k])->Ok_0;
            rt_elems(op, n, k + 1, buf, st1, end1, limit, acc.push(v), s1, l);
            let end = dec::dec_elems(op, n, k + 1, buf, st1, end1, limit, acc.push(v))->Ok_0.1;
            inner_elems(op, n, k + 1, buf, buf.len() as int, st1, end1, limit, acc.push(v));
            assert(stp.out + buf.subrange(pos, end) =~= stp.out + buf.subrange(pos, end1) + buf.subrange(end1, end));
        } else {
            assert(stp.out + buf.subrange(pos, pos) =~= stp.out);
        }
    }
}

/// Packing the elements of an array that ran to the end of its window
/// writes their bytes back.
proof fn rt_until(op: Op, k: int, buf: Seq<u8>, st: FrV, pos: int, limit: int, acc: Seq<ValueV>, stp: PkV, l: Seq<Value>)
    requires
        back_value(op),
        op is Array,
        0 <= k,
        acc.len() == k,
        0 <= pos <= limit <= buf.len() <= usize::MAX,
        spans_le(st, pos),
        st.regs.len() == st.spans.len(),
        st.regs.len() > 0,
        dec::dec_until_end(op, k, buf, st, pos, limit, acc) matches Ok((ValueV::List(v), _, _)) && v == values_view(l, l.len()),
    ensures
        enc::pack_elems(stp, op, l, k) matches Ok(s)
            && s.out == stp.out + buf.subrange(pos, dec::dec_until_end(op, k, buf, st, pos, limit, acc)->Ok_0.1),
    decreases op, 0nat, limit - pos,
{
    lemma_values_len(l, l.len());
    lemma_until_extend(op, k, buf, st, pos, limit, acc);
    if let Op::Array { elem, max_count, .. } = op {
        if pos < limit && k < max_count {
            assert(decreases_to!(op => *elem));
            lemma_value_bounds(*elem, buf, st, pos, limit);
            let (v, end1, st1) = dec::dec_value(*elem, buf, st, pos, limit)->Ok_0;
            lemma_until_extend(op, k + 1, buf, st1, end1, limit, acc.push(v));
            let vs = dec::dec_until_end(op, k + 1, buf, st1, end1, limit, acc.push(v))->Ok_0.0->List_0;
            assert(vs[k] == vs.subrange(0, k + 1)[k]);
            lemma_values_index(l, l.len(), k);
            rt_value(*elem, buf, st, pos, limit, stp, l[k]);
            let s1 = enc::pack_value(stp, *elem, l[k])->Ok_0;
            rt_until(op, k + 1, buf, st1, end1, limit, acc.push(v), s1, l);
            let end = dec::dec_until_end(op, k + 1, buf, st1, end1, limit, acc.push(v))->Ok_0.1;
            inner_until(op, k + 1, buf, buf.len() as int, st1, end1, limit, acc.push(v));
            assert(stp.out + buf.subrange(pos, end) =~= stp.out + buf.subrange(pos, end1) + buf.subrange(end1, end));
        } else {
            assert(stp.out + buf.subrange(pos, pos) =~= stp.out);
        }
    }
}

/// Packing what unpacking read gives the bytes back: where a buffer
/// decodes exactly against a program whose lengths and counts are stated
/// outright and whose fields keep every byte they read (`back_prog`: no
/// field derived from another, no bool, f32, bit, digest, switch or
/// conditional field, and flags that keep or refuse their leftover bits), packing a map that views as the decoded value gives
/// the buffer again.
pub proof fn lemma_pack_restores(prog: Program, buf: Seq<u8>, x: Value)
    requires
        back_prog(prog),
        buf.len() <= usize::MAX,
        dec::unpack(prog, buf, 0, true, false) matches dec::OutcomeV::Decoded(vv, _) && x@ == vv,
    ensures
        enc::pack(prog, x) == enc::PackedV::Packed(buf),
{
    let st = FrV { regs: Seq::empty(), spans: Seq::empty() };
    let stp = PkV { out: Seq::empty(), regs: Seq::empty(), res: Seq::empty(), spans: Seq::empty() };
    rt_struct(prog, buf, st, 0, buf.len() as int, stp, x);
    assert(Seq::<u8>::empty() + buf.subrange(0, buf.len() as int) =~= buf);
}

// ---------- digests ----------

/// What pack writes for an integer digest is what unpack reads there: the
/// value a CRC or an Internet checksum field gets when its scope is
/// packed, written in the field's byte order, reads back from the same
/// bytes as that value (modulo the field's width), so the check on
/// unpacking compares like with like.
pub proof fn lemma_digest_reads_back(prog: Program, out: Seq<u8>, ss: int, spans: [(usize, usize); 16], d: enc::DigV, v: u64,
    st: FrV, limit: int, map: Seq<(Seq<char>, ValueV)>, defs: Seq<dec::DefV>)
    requires
        enc::write_digests(prog, out, ss, spans, seq![d], 0) is Ok,
        0 <= d.op < prog.ops@.len(),
        prog.ops@[d.op] matches Op::Digest { algo, over, .. } && {
            &&& d.width == algo.spec_width_bytes()
            &&& (algo is Crc || algo is IpChecksum)
            &&& enc::digest_of(algo, match over {
                Over::Star => out.subrange(ss, out.len() as int),
                Over::Spans(idxs) => enc::span_bytes(out, idxs@, 0, spans)->Some_0,
            }) == enc::DigestOut::Int(v)
        },
        0 <= d.pos,
        d.pos + d.width <= limit <= out.len(),
    ensures
        dec::dec_op(prog.ops@[d.op], d.op, enc::write_digests(prog, out, ss, spans, seq![d], 0)->Ok_0, st, d.pos, limit, map, defs)
            matches Ok((_, _, _, defs2)) && defs2.len() > 0
            && defs2.last().read == dec::DigestV::Int((v as nat % pow256(d.width as nat)) as u64),
{
    let ds = seq![d];
    assert(ds[0] == d);
    if let Op::Digest { algo, over, be, .. } = prog.ops@[d.op] {
        let bytes = uint_bytes(v as nat, d.width as nat, be);
        crate::codec::lemma_uint_bytes_len(v as nat, d.width as nat, be);
        let out2 = splice(out, d.pos, bytes);
        assert(enc::write_digests(prog, out2, ss, spans, ds, 1) == Ok::<Seq<u8>, enc::PFailV>(out2));
        assert(enc::write_digests(prog, out, ss, spans, ds, 0) == Ok::<Seq<u8>, enc::PFailV>(out2));
        let raw = out2.subrange(d.pos, d.pos + d.width);
        assert forall|t: int| 0 <= t < d.width implies raw[t] == bytes[t] by {
            assert(raw[t] == out2[d.pos + t]);
        }
        assert(raw =~= bytes);
        crate::codec::lemma_uint_roundtrip(v as nat, raw, be);
        assert(algo.spec_width_bytes() <= 8);
    }
}

/// Likewise for a hash: the bytes pack writes for an MD5, SHA-1 or SHA-256
/// field are the bytes unpack reads back there.
pub proof fn lemma_hash_reads_back(prog: Program, out: Seq<u8>, ss: int, spans: [(usize, usize); 16], d: enc::DigV, b: Seq<u8>,
    st: FrV, limit: int, map: Seq<(Seq<char>, ValueV)>, defs: Seq<dec::DefV>)
    requires
        enc::write_digests(prog, out, ss, spans, seq![d], 0) is Ok,
        0 <= d.op < prog.ops@.len(),
        prog.ops@[d.op] matches Op::Digest { algo, over, .. } && {
            &&& d.width == algo.spec_width_bytes()
            &&& !(algo is Crc || algo is IpChecksum)
            &&& enc::digest_of(algo, match over {
                Over::Star => out.subrange(ss, out.len() as int),
                Over::Spans(idxs) => enc::span_bytes(out, idxs@, 0, spans)->Some_0,
            }) == enc::DigestOut::Bytes(b)
        },
        0 <= d.pos,
        d.pos + d.width <= limit <= out.len(),
    ensures
        dec::dec_op(prog.ops@[d.op], d.op, enc::write_digests(prog, out, ss, spans, seq![d], 0)->Ok_0, st, d.pos, limit, map, defs)
            matches Ok((_, _, _, defs2)) && defs2.len() > 0 && defs2.last().read == dec::DigestV::Bytes(b),
{
    let ds = seq![d];
    assert(ds[0] == d);
    if let Op::Digest { algo, over, be, .. } = prog.ops@[d.op] {
        let out2 = splice(out, d.pos, b);
        assert(enc::write_digests(prog, out2, ss, spans, ds, 1) == Ok::<Seq<u8>, enc::PFailV>(out2));
        assert(enc::write_digests(prog, out, ss, spans, ds, 0) == Ok::<Seq<u8>, enc::PFailV>(out2));
        let raw = out2.subrange(d.pos, d.pos + d.width);
        assert forall|t: int| 0 <= t < d.width implies raw[t] == b[t] by {
            assert(raw[t] == out2[d.pos + t]);
        }
        assert(raw =~= b);
    }
}

} // verus!
