//! Decoding a prefix of a buffer that decodes: more bytes are asked for, or
//! the same result comes back, never an error.
use vstd::prelude::*;

use crate::codec::{bit_of, bits_uvalue};
use crate::decoding::{check_digests, dec_case, dec_elems, dec_op, dec_ops, dec_struct, dec_until_end, dec_value, fixed_item, fixed_items, bit_items, cstr_value, flags_value, eval, eval_len, need, resolve_len, set_reg, set_span, push_frame, pop_frame, put, fresh_spans, span_bytes, unpack, DefV, FailV, FrV, OutcomeV};
use crate::program::{CountSrc, FixKind, LenSrc, Op, Over, Program};
use crate::unpack::{cstr_scan, first_nul, lemma_first_nul};
use crate::value::ValueV;

verus! {

/// Every span register of every frame ends at or before `p`.
pub open spec fn spans_le(st: FrV, p: int) -> bool {
    forall|f: int, j: int| 0 <= f < st.spans.len() && 0 <= j < 16 ==> #[trigger] st.spans[f]@[j].1 <= p
}

pub(crate) proof fn lemma_spans_set(st: FrV, idx: Option<u8>, start: usize, end: usize, p: int, q: int)
    requires
        spans_le(st, p),
        p <= q,
        end <= q,
    ensures
        spans_le(set_span(st, idx, start, end), q),
{
    let s2 = set_span(st, idx, start, end);
    if let Some(i) = idx {
        let n = st.spans.len();
        if n > 0 && (i as int) < 16 {
            assert forall|f: int, j: int| 0 <= f < s2.spans.len() && 0 <= j < 16 implies #[trigger] s2.spans[f]@[j].1 <= q by {
                if f == n - 1 {
                    assert(s2.spans[f]@ == st.spans[f]@.update(i as int, (start, end)));
                }
            }
        }
    }
}

pub(crate) proof fn lemma_spans_push(st: FrV, p: int)
    requires
        spans_le(st, p),
        0 <= p,
    ensures
        spans_le(push_frame(st), p),
{
    let s2 = push_frame(st);
    assert forall|f: int, j: int| 0 <= f < s2.spans.len() && 0 <= j < 16 implies #[trigger] s2.spans[f]@[j].1 <= p by {
        if f == st.spans.len() {
            assert(s2.spans[f] == fresh_spans());
            assert(fresh_spans()@[j] == (0usize, 0usize));
        } else {
            assert(s2.spans[f] == st.spans[f]);
        }
    }
}

pub(crate) proof fn lemma_spans_pop(st: FrV, p: int)
    requires
        spans_le(st, p),
        st.spans.len() > 0,
    ensures
        spans_le(pop_frame(st), p),
{
    let s2 = pop_frame(st);
    assert forall|f: int, j: int| 0 <= f < s2.spans.len() && 0 <= j < 16 implies #[trigger] s2.spans[f]@[j].1 <= p by {
        assert(s2.spans[f] == st.spans[f]);
    }
}

pub(crate) proof fn lemma_spans_mono(st: FrV, p: int, q: int)
    requires
        spans_le(st, p),
        p <= q,
    ensures
        spans_le(st, q),
{
}

// ---------- reads inside the prefix ----------

proof fn lemma_bits_prefix(full: Seq<u8>, i: int, start: int, n: nat)
    requires
        0 <= start,
        start + n <= 8 * i,
        i <= full.len(),
    ensures
        bits_uvalue(full.subrange(0, i), start, n) == bits_uvalue(full, start, n),
    decreases n,
{
    if n > 0 {
        lemma_bits_prefix(full, i, start, (n - 1) as nat);
        let k = start + n - 1;
        assert(k / 8 < i);
        assert(full.subrange(0, i)[k / 8] == full[k / 8]);
        assert(bit_of(full.subrange(0, i), k) == bit_of(full, k));
    }
}

proof fn lemma_nul_same(a: Seq<u8>, b: Seq<u8>, pos: int, k: int, n: int)
    requires
        0 <= pos,
        0 <= k,
        pos + n <= a.len(),
        pos + n <= b.len(),
        forall|x: int| pos + k <= x < pos + n ==> #[trigger] a[x] == b[x],
    ensures
        first_nul(a, pos, k, n) == first_nul(b, pos, k, n),
    decreases n - k,
{
    if k < n {
        lemma_nul_same(a, b, pos, k + 1, n);
    }
}

proof fn lemma_nul_shorter(s: Seq<u8>, pos: int, k: int, m: int, n: int)
    requires
        0 <= pos,
        0 <= k,
        k <= m <= n,
        pos + n <= s.len(),
    ensures
        match first_nul(s, pos, k, n) {
            Some(j) => first_nul(s, pos, k, m) == if j < m { Some(j) } else { None::<int> },
            None => first_nul(s, pos, k, m) is None,
        },
    decreases m - k,
{
    if k < m && s[pos + k] != 0 {
        lemma_nul_shorter(s, pos, k + 1, m, n);
    }
    lemma_first_nul(s, pos, k, n);
}

proof fn lemma_span_bytes_prefix(full: Seq<u8>, i: int, idxs: Seq<u8>, k: int, spans: [(usize, usize); 16])
    requires
        0 <= i <= full.len(),
        forall|j: int| 0 <= j < 16 ==> #[trigger] spans@[j].1 <= i,
    ensures
        span_bytes(full.subrange(0, i), idxs, k, spans) == span_bytes(full, idxs, k, spans),
    decreases idxs.len() - k,
{
    if 0 <= k < idxs.len() {
        lemma_span_bytes_prefix(full, i, idxs, k + 1, spans);
        let x = idxs[k] as int;
        if x < 16 {
            let (s, e) = spans[x];
            assert(spans@[x].1 <= i);
            if s <= e {
                assert(full.subrange(0, i).subrange(s as int, e as int) =~= full.subrange(s as int, e as int));
            }
        }
    }
}

proof fn lemma_digests_prefix(prog: Program, full: Seq<u8>, i: int, ss: int, se: int, spans: [(usize, usize); 16], defs: Seq<DefV>, k: int)
    requires
        0 <= ss <= se <= i <= full.len(),
        forall|j: int| 0 <= j < 16 ==> #[trigger] spans@[j].1 <= i,
    ensures
        check_digests(prog, full.subrange(0, i), ss, se, spans, defs, k) == check_digests(prog, full, ss, se, spans, defs, k),
    decreases defs.len() - k,
{
    if 0 <= k < defs.len() {
        lemma_digests_prefix(prog, full, i, ss, se, spans, defs, k + 1);
        let d = defs[k];
        if 0 <= d.op < prog.ops@.len() {
            if let Op::Digest { over, .. } = prog.ops@[d.op] {
                let pre = full.subrange(0, i);
                match over {
                    Over::Star => {
                        if ss <= d.start <= d.end <= se {
                            assert(pre.subrange(ss, d.start) =~= full.subrange(ss, d.start));
                            assert(pre.subrange(d.end, se) =~= full.subrange(d.end, se));
                        }
                    },
                    Over::Spans(idxs) => {
                        lemma_span_bytes_prefix(full, i, idxs@, 0, spans);
                    },
                }
            }
        }
    }
}

/// The spans of the innermost frame end at or before `i`.
proof fn lemma_last_spans(st: FrV, p: int, i: int)
    requires
        spans_le(st, p),
        p <= i,
        st.spans.len() > 0,
    ensures
        forall|j: int| 0 <= j < 16 ==> #[trigger] st.spans.last()@[j].1 <= i,
{
    assert forall|j: int| 0 <= j < 16 implies #[trigger] st.spans.last()@[j].1 <= i by {
        assert(st.spans.last() == st.spans[st.spans.len() - 1]);
    }
}

proof fn lemma_fixed_items_prefix(items: Seq<crate::program::FixedItem>, k: int, full: Seq<u8>, i: int, st: FrV, base: int, end: int, map: Seq<(Seq<char>, ValueV)>)
    requires
        0 <= base <= end <= i <= full.len() <= usize::MAX,
        spans_le(st, end),
        fixed_items(items, k, full, st, base, end, map) is Ok,
    ensures
        fixed_items(items, k, full.subrange(0, i), st, base, end, map) == fixed_items(items, k, full, st, base, end, map),
        fixed_items(items, k, full, st, base, end, map) matches Ok((st2, _)) && spans_le(st2, end)
            && st2.regs.len() == st.regs.len() && st2.spans.len() == st.spans.len(),
    decreases items.len() - k,
{
    if 0 <= k < items.len() {
        lemma_fixed_item_prefix(items[k], full, i, st, base, end);
        let (v, st1) = fixed_item(items[k], full, st, base, end)->Ok_0;
        lemma_fixed_items_prefix(items, k + 1, full, i, st1, base, end, put(map, items[k].key, v));
    }
}

/// An item of a run inside the prefix reads the same.
proof fn lemma_fixed_item_prefix(item: crate::program::FixedItem, full: Seq<u8>, i: int, st: FrV, base: int, end: int)
    requires
        0 <= base <= end <= i <= full.len() <= usize::MAX,
        spans_le(st, end),
        fixed_item(item, full, st, base, end) is Ok,
    ensures
        fixed_item(item, full.subrange(0, i), st, base, end) == fixed_item(item, full, st, base, end),
        fixed_item(item, full, st, base, end) matches Ok((_, st2)) && spans_le(st2, end)
            && st2.regs.len() == st.regs.len() && st2.spans.len() == st.spans.len(),
{
    let pre = full.subrange(0, i);
    let w = item.kind.spec_width() as int;
    let pos = base + item.off;
    assert(pre.subrange(pos, pos + w) =~= full.subrange(pos, pos + w));
    if let FixKind::Bool { .. } = item.kind {
        assert(pre[pos] == full[pos]);
    }
    match item.kind {
        FixKind::Int { prim, be, expected, .. } => {
            let v = crate::codec::int_value(prim, be, full.subrange(pos, pos + w));
            let st1 = match item.reg {
                Some(r) => set_reg(st, r, v as i64),
                None => st,
            };
            lemma_spans_set(st1, item.span, pos as usize, (pos + w) as usize, end, end);
        },
        FixKind::F32 { .. } => { lemma_spans_set(st, item.span, pos as usize, (pos + 4) as usize, end, end); },
        FixKind::F64 { .. } => { lemma_spans_set(st, item.span, pos as usize, (pos + 8) as usize, end, end); },
        FixKind::Bool { .. } => { lemma_spans_set(st, item.span, pos as usize, (pos + 1) as usize, end, end); },
        FixKind::Raw { len, .. } => { lemma_spans_set(st, item.span, pos as usize, (pos + len) as usize, end, end); },
    }
}

proof fn lemma_bit_items_prefix(items: Seq<crate::program::BitItem>, k: int, bitpos: int, nbytes: int, full: Seq<u8>, i: int, st: FrV, pos: int, map: Seq<(Seq<char>, ValueV)>)
    requires
        0 <= pos,
        0 <= bitpos,
        pos + nbytes <= i <= full.len(),
        bit_items(items, k, bitpos, nbytes, full, st, pos, map) is Ok,
    ensures
        bit_items(items, k, bitpos, nbytes, full.subrange(0, i), st, pos, map) == bit_items(items, k, bitpos, nbytes, full, st, pos, map),
        bit_items(items, k, bitpos, nbytes, full, st, pos, map) matches Ok((st2, _)) && st2.spans == st.spans
            && st2.regs.len() == st.regs.len(),
    decreases items.len() - k,
{
    if 0 <= k < items.len() {
        let item = items[k];
        let w = item.width as int;
        if !(w < 1 || w > 64 || bitpos > 0x1000_0000 || (bitpos + w + 7) / 8 > nbytes) {
            assert(pos * 8 + bitpos + w <= 8 * i);
            lemma_bits_prefix(full, i, pos * 8 + bitpos, w as nat);
            let v = crate::codec::bits_value(full, pos * 8 + bitpos, w as nat, item.signed);
            let st1 = match item.reg {
                Some(r) => set_reg(st, r, v as i64),
                None => st,
            };
            lemma_bit_items_prefix(items, k + 1, bitpos + w, nbytes, full, i, st1, pos, put(map, item.key, ValueV::Int(v as i128)));
        }
    }
}

// ---------- a window inside the prefix decodes the same ----------

pub(crate) proof fn inner_struct(prog: Program, full: Seq<u8>, i: int, st: FrV, pos: int, limit: int)
    requires
        0 <= pos <= limit <= i <= full.len() <= usize::MAX,
        spans_le(st, pos),
        st.regs.len() == st.spans.len(),
        dec_struct(prog, full, st, pos, limit) is Ok,
    ensures
        dec_struct(prog, full.subrange(0, i), st, pos, limit) == dec_struct(prog, full, st, pos, limit),
        dec_struct(prog, full, st, pos, limit) matches Ok((_, end, st2)) && pos <= end <= limit && spans_le(st2, end)
            && st2.regs.len() == st2.spans.len() && st2.regs.len() == st.regs.len(),
    decreases prog, 3nat, 0int,
{
    let st0 = push_frame(st);
    lemma_spans_push(st, pos);
    inner_ops(prog, 0, full, i, st0, pos, pos, limit, Seq::empty(), Seq::empty());
    let (end, st1, map, defs) = dec_ops(prog, 0, full, st0, pos, pos, limit, Seq::empty(), Seq::empty())->Ok_0;
    lemma_last_spans(st1, end, i);
    lemma_digests_prefix(prog, full, i, pos, end, st1.spans.last(), defs, 0);
    lemma_spans_pop(st1, end);
}

pub(crate) proof fn inner_ops(prog: Program, k: int, full: Seq<u8>, i: int, st: FrV, start: int, pos: int, limit: int, map: Seq<(Seq<char>, ValueV)>, defs: Seq<DefV>)
    requires
        0 <= pos <= limit <= i <= full.len() <= usize::MAX,
        spans_le(st, pos),
        st.regs.len() == st.spans.len(),
        st.regs.len() > 0,
        dec_ops(prog, k, full, st, start, pos, limit, map, defs) is Ok,
    ensures
        dec_ops(prog, k, full.subrange(0, i), st, start, pos, limit, map, defs) == dec_ops(prog, k, full, st, start, pos, limit, map, defs),
        dec_ops(prog, k, full, st, start, pos, limit, map, defs) matches Ok((end, st2, _, _)) && pos <= end <= limit
            && spans_le(st2, end) && st2.regs.len() == st2.spans.len() && st2.regs.len() == st.regs.len(),
    decreases prog, 2nat, prog.ops@.len() - k,
{
    if 0 <= k < prog.ops@.len() {
        assert(decreases_to!(prog => prog.ops@[k]));
        inner_op(prog.ops@[k], k, full, i, st, pos, limit, map, defs);
        assert(op_same(prog.ops@[k], k, full, i, st, pos, limit, map, defs));
        let (end, st1, map1, defs1) = dec_op(prog.ops@[k], k, full, st, pos, limit, map, defs)->Ok_0;
        inner_ops(prog, k + 1, full, i, st1, start, end, limit, map1, defs1);
    }
}

/// A struct field inside the prefix decodes the same, ends within its
/// window, and leaves the spans before its end.
pub(crate) open spec fn op_same(op: Op, idx: int, full: Seq<u8>, i: int, st: FrV, pos: int, limit: int, map: Seq<(Seq<char>, ValueV)>, defs: Seq<DefV>) -> bool {
    &&& dec_op(op, idx, full.subrange(0, i), st, pos, limit, map, defs) == dec_op(op, idx, full, st, pos, limit, map, defs)
    &&& dec_op(op, idx, full, st, pos, limit, map, defs) matches Ok((end, st2, _, _)) && pos <= end <= limit
        && spans_le(st2, end) && st2.regs.len() == st2.spans.len() && st2.regs.len() == st.regs.len()
}

pub(crate) proof fn inner_op(op: Op, idx: int, full: Seq<u8>, i: int, st: FrV, pos: int, limit: int, map: Seq<(Seq<char>, ValueV)>, defs: Seq<DefV>)
    requires
        0 <= pos <= limit <= i <= full.len() <= usize::MAX,
        spans_le(st, pos),
        st.regs.len() == st.spans.len(),
        st.regs.len() > 0,
        dec_op(op, idx, full, st, pos, limit, map, defs) is Ok,
    ensures
        op_same(op, idx, full, i, st, pos, limit, map, defs),
    decreases op, 2nat, 1int,
{
    match op {
        Op::Fixed { .. } => inner_op_fixed(op, idx, full, i, st, pos, limit, map, defs),
        Op::BitRun { .. } => inner_op_bits(op, idx, full, i, st, pos, limit, map, defs),
        Op::Digest { .. } => inner_op_digest(op, idx, full, i, st, pos, limit, map, defs),
        Op::Cond { .. } => inner_op_cond(op, idx, full, i, st, pos, limit, map, defs),
        _ => inner_op_field(op, idx, full, i, st, pos, limit, map, defs),
    }
}

proof fn inner_op_fixed(op: Op, idx: int, full: Seq<u8>, i: int, st: FrV, pos: int, limit: int, map: Seq<(Seq<char>, ValueV)>, defs: Seq<DefV>)
    requires
        op is Fixed,
        0 <= pos <= limit <= i <= full.len() <= usize::MAX,
        spans_le(st, pos),
        st.regs.len() == st.spans.len(),
        dec_op(op, idx, full, st, pos, limit, map, defs) is Ok,
    ensures
        op_same(op, idx, full, i, st, pos, limit, map, defs),
{
    if let Op::Fixed { width, items } = op {
        lemma_spans_mono(st, pos, pos + width);
        lemma_fixed_items_prefix(items@, 0, full, i, st, pos, pos + width, map);
    }
}

proof fn inner_op_bits(op: Op, idx: int, full: Seq<u8>, i: int, st: FrV, pos: int, limit: int, map: Seq<(Seq<char>, ValueV)>, defs: Seq<DefV>)
    requires
        op is BitRun,
        0 <= pos <= limit <= i <= full.len() <= usize::MAX,
        spans_le(st, pos),
        st.regs.len() == st.spans.len(),
        dec_op(op, idx, full, st, pos, limit, map, defs) is Ok,
    ensures
        op_same(op, idx, full, i, st, pos, limit, map, defs),
{
    if let Op::BitRun { nbytes, items } = op {
        lemma_bit_items_prefix(items@, 0, 0, nbytes as int, full, i, st, pos, map);
        lemma_spans_mono(st, pos, pos + nbytes);
    }
}

proof fn inner_op_digest(op: Op, idx: int, full: Seq<u8>, i: int, st: FrV, pos: int, limit: int, map: Seq<(Seq<char>, ValueV)>, defs: Seq<DefV>)
    requires
        op is Digest,
        0 <= pos <= limit <= i <= full.len() <= usize::MAX,
        spans_le(st, pos),
        st.regs.len() == st.spans.len(),
        dec_op(op, idx, full, st, pos, limit, map, defs) is Ok,
    ensures
        op_same(op, idx, full, i, st, pos, limit, map, defs),
{
    if let Op::Digest { algo, c, .. } = op {
        let w = algo.spec_width_bytes() as int;
        assert(full.subrange(0, i).subrange(pos, pos + w) =~= full.subrange(pos, pos + w));
        lemma_spans_set(st, c.span, pos as usize, (pos + w) as usize, pos, pos + w);
    }
}

proof fn inner_op_cond(op: Op, idx: int, full: Seq<u8>, i: int, st: FrV, pos: int, limit: int, map: Seq<(Seq<char>, ValueV)>, defs: Seq<DefV>)
    requires
        op is Cond,
        0 <= pos <= limit <= i <= full.len() <= usize::MAX,
        spans_le(st, pos),
        st.regs.len() == st.spans.len(),
        st.regs.len() > 0,
        dec_op(op, idx, full, st, pos, limit, map, defs) is Ok,
    ensures
        op_same(op, idx, full, i, st, pos, limit, map, defs),
    decreases op, 2nat, 0int,
{
    if let Op::Cond { pred, then, c } = op {
        if eval(st, pred, pos) matches Ok(v) && v != 0 {
            inner_value(*then, full, i, st, pos, limit);
            let (val, end, st1) = dec_value(*then, full, st, pos, limit)->Ok_0;
            lemma_spans_set(st1, c.span, pos as usize, end as usize, end, end);
        }
    }
}

proof fn inner_op_field(op: Op, idx: int, full: Seq<u8>, i: int, st: FrV, pos: int, limit: int, map: Seq<(Seq<char>, ValueV)>, defs: Seq<DefV>)
    requires
        !(op is Fixed || op is BitRun || op is Digest || op is Cond),
        0 <= pos <= limit <= i <= full.len() <= usize::MAX,
        spans_le(st, pos),
        st.regs.len() == st.spans.len(),
        st.regs.len() > 0,
        dec_op(op, idx, full, st, pos, limit, map, defs) is Ok,
    ensures
        op_same(op, idx, full, i, st, pos, limit, map, defs),
    decreases op, 2nat, 0int,
{
    inner_value(op, full, i, st, pos, limit);
    let (val, end, st1) = dec_value(op, full, st, pos, limit)->Ok_0;
    let span = match op.spec_common() {
        Some(c) => c.span,
        None => None,
    };
    lemma_spans_set(st1, span, pos as usize, end as usize, end, end);
}

/// A value inside the prefix decodes the same, ends within its window, and
/// leaves the spans before its end.
pub(crate) open spec fn val_same(op: Op, full: Seq<u8>, i: int, st: FrV, pos: int, limit: int) -> bool {
    &&& dec_value(op, full.subrange(0, i), st, pos, limit) == dec_value(op, full, st, pos, limit)
    &&& dec_value(op, full, st, pos, limit) matches Ok((_, end, st2)) && pos <= end <= limit
        && spans_le(st2, end) && st2.regs.len() == st2.spans.len() && st2.regs.len() == st.regs.len()
}

pub(crate) proof fn inner_value(op: Op, full: Seq<u8>, i: int, st: FrV, pos: int, limit: int)
    requires
        0 <= pos <= limit <= i <= full.len() <= usize::MAX,
        spans_le(st, pos),
        st.regs.len() == st.spans.len(),
        st.regs.len() > 0,
        dec_value(op, full, st, pos, limit) is Ok,
    ensures
        val_same(op, full, i, st, pos, limit),
    decreases op, 1nat, 1int,
{
    match op {
        Op::Nest { .. } => inner_val_nest(op, full, i, st, pos, limit),
        Op::Array { .. } => inner_val_array(op, full, i, st, pos, limit),
        Op::Switch { .. } => inner_val_switch(op, full, i, st, pos, limit),
        _ => inner_val_flat(op, full, i, st, pos, limit),
    }
}

proof fn inner_val_flat(op: Op, full: Seq<u8>, i: int, st: FrV, pos: int, limit: int)
    requires
        !(op is Nest || op is Array || op is Switch),
        0 <= pos <= limit <= i <= full.len() <= usize::MAX,
        spans_le(st, pos),
        st.regs.len() == st.spans.len(),
        st.regs.len() > 0,
        dec_value(op, full, st, pos, limit) is Ok,
    ensures
        val_same(op, full, i, st, pos, limit),
{
    let pre = full.subrange(0, i);
    match op {
        Op::Fixed { width, items } => {
            lemma_spans_mono(st, pos, pos + width);
            lemma_fixed_item_prefix(items@[0], full, i, st, pos, pos + width);
        },
        Op::Bytes { len, max, .. } => {
            let n = resolve_len(st, len, max, pos, limit)->Ok_0;
            assert(pre.subrange(pos, pos + n) =~= full.subrange(pos, pos + n));
        },
        Op::Str { len, max, .. } => {
            let n = resolve_len(st, len, max, pos, limit)->Ok_0;
            assert(pre.subrange(pos, pos + n) =~= full.subrange(pos, pos + n));
        },
        Op::CStr { max, enc, .. } => {
            let scan = cstr_scan(max, pos as usize, limit as usize);
            lemma_nul_same(pre, full, pos, 0, scan);
            let j = first_nul(full, pos, 0, scan)->Some_0;
            lemma_first_nul(full, pos, 0, scan);
            assert(pre.subrange(pos, pos + j) =~= full.subrange(pos, pos + j));
        },
        Op::Flags { prim, .. } => {
            let w = prim.spec_width() as int;
            assert(pre.subrange(pos, pos + w) =~= full.subrange(pos, pos + w));
        },
        _ => {},
    }
}

proof fn inner_val_nest(op: Op, full: Seq<u8>, i: int, st: FrV, pos: int, limit: int)
    requires
        op is Nest,
        0 <= pos <= limit <= i <= full.len() <= usize::MAX,
        spans_le(st, pos),
        st.regs.len() == st.spans.len(),
        st.regs.len() > 0,
        dec_value(op, full, st, pos, limit) is Ok,
    ensures
        val_same(op, full, i, st, pos, limit),
    decreases op, 1nat, 0int,
{
    if let Op::Nest { prog, size, .. } = op {
        assert(decreases_to!(op => *prog));
        match size {
            None => { inner_struct(*prog, full, i, st, pos, limit); },
            Some(LenSrc::Expr { expr, .. }) => {
                let sz = eval_len(st, expr, pos)->Ok_0;
                inner_struct(*prog, full, i, st, pos, pos + sz);
            },
            Some(LenSrc::Greedy) => {},
        }
    }
}

proof fn inner_val_array(op: Op, full: Seq<u8>, i: int, st: FrV, pos: int, limit: int)
    requires
        op is Array,
        0 <= pos <= limit <= i <= full.len() <= usize::MAX,
        spans_le(st, pos),
        st.regs.len() == st.spans.len(),
        st.regs.len() > 0,
        dec_value(op, full, st, pos, limit) is Ok,
    ensures
        val_same(op, full, i, st, pos, limit),
    decreases op, 1nat, 0int,
{
    if let Op::Array { count, .. } = op {
        match count {
            CountSrc::Expr { expr, .. } => {
                let n = eval(st, expr, pos)->Ok_0;
                inner_elems(op, n as int, 0, full, i, st, pos, limit, Seq::empty());
            },
            CountSrc::UntilEof => {
                inner_until(op, 0, full, i, st, pos, limit, Seq::empty());
            },
        }
    }
}

proof fn inner_val_switch(op: Op, full: Seq<u8>, i: int, st: FrV, pos: int, limit: int)
    requires
        op is Switch,
        0 <= pos <= limit <= i <= full.len() <= usize::MAX,
        spans_le(st, pos),
        st.regs.len() == st.spans.len(),
        st.regs.len() > 0,
        dec_value(op, full, st, pos, limit) is Ok,
    ensures
        val_same(op, full, i, st, pos, limit),
    decreases op, 1nat, 0int,
{
    if let Op::Switch { on, .. } = op {
        let tag = eval(st, on, pos)->Ok_0;
        inner_case(op, tag, 0, full, i, st, pos, limit);
    }
}

pub(crate) proof fn inner_elems(op: Op, n: int, k: int, full: Seq<u8>, i: int, st: FrV, pos: int, limit: int, acc: Seq<ValueV>)
    requires
        0 <= pos <= limit <= i <= full.len() <= usize::MAX,
        spans_le(st, pos),
        st.regs.len() == st.spans.len(),
        st.regs.len() > 0,
        dec_elems(op, n, k, full, st, pos, limit, acc) is Ok,
    ensures
        dec_elems(op, n, k, full.subrange(0, i), st, pos, limit, acc) == dec_elems(op, n, k, full, st, pos, limit, acc),
        dec_elems(op, n, k, full, st, pos, limit, acc) matches Ok((_, end, st2)) && pos <= end <= limit
            && spans_le(st2, end) && st2.regs.len() == st2.spans.len() && st2.regs.len() == st.regs.len(),
    decreases op, 0nat, n - k,
{
    if let Op::Array { elem, .. } = op {
        if k < n {
            assert(decreases_to!(op => *elem));
            inner_value(*elem, full, i, st, pos, limit);
            let (v, end, st1) = dec_value(*elem, full, st, pos, limit)->Ok_0;
            inner_elems(op, n, k + 1, full, i, st1, end, limit, acc.push(v));
        }
    }
}

pub(crate) proof fn inner_until(op: Op, k: int, full: Seq<u8>, i: int, st: FrV, pos: int, limit: int, acc: Seq<ValueV>)
    requires
        0 <= pos <= limit <= i <= full.len() <= usize::MAX,
        spans_le(st, pos),
        st.regs.len() == st.spans.len(),
        st.regs.len() > 0,
        dec_until_end(op, k, full, st, pos, limit, acc) is Ok,
    ensures
        dec_until_end(op, k, full.subrange(0, i), st, pos, limit, acc) == dec_until_end(op, k, full, st, pos, limit, acc),
        dec_until_end(op, k, full, st, pos, limit, acc) matches Ok((_, end, st2)) && pos <= end <= limit
            && spans_le(st2, end) && st2.regs.len() == st2.spans.len() && st2.regs.len() == st.regs.len(),
    decreases op, 0nat, limit - pos,
{
    if let Op::Array { elem, max_count, .. } = op {
        if pos < limit && k < max_count {
            assert(decreases_to!(op => *elem));
            inner_value(*elem, full, i, st, pos, limit);
            let (v, end, st1) = dec_value(*elem, full, st, pos, limit)->Ok_0;
            if pos < end <= limit {
                inner_until(op, k + 1, full, i, st1, end, limit, acc.push(v));
            }
        }
    }
}

proof fn inner_case(op: Op, tag: i64, k: int, full: Seq<u8>, i: int, st: FrV, pos: int, limit: int)
    requires
        0 <= pos <= limit <= i <= full.len() <= usize::MAX,
        spans_le(st, pos),
        st.regs.len() == st.spans.len(),
        st.regs.len() > 0,
        dec_case(op, tag, k, full, st, pos, limit) is Ok,
    ensures
        dec_case(op, tag, k, full.subrange(0, i), st, pos, limit) == dec_case(op, tag, k, full, st, pos, limit),
        dec_case(op, tag, k, full, st, pos, limit) matches Ok((_, end, st2)) && pos <= end <= limit
            && spans_le(st2, end) && st2.regs.len() == st2.spans.len() && st2.regs.len() == st.regs.len(),
    decreases op, 0nat, if k < 0 { 0 } else { (op->Switch_cases)@.len() - k },
{
    if let Op::Switch { cases, default, .. } = op {
        if 0 <= k < cases@.len() {
            if cases@[k].0 == tag {
                assert(decreases_to!(op => cases));
                assert(decreases_to!(cases => cases@));
                assert(decreases_to!(cases@ => cases@[k]));
                assert(decreases_to!(cases@[k] => cases@[k].1));
                inner_value(*cases@[k].1, full, i, st, pos, limit);
            } else {
                inner_case(op, tag, k + 1, full, i, st, pos, limit);
            }
        } else if let Some(d) = default {
            assert(decreases_to!(op => *d));
            inner_value(*d, full, i, st, pos, limit);
        }
    }
}

// ---------- the outermost window, cut short ----------

/// An op that reads no further than its own length says: no length that
/// runs to the end of the window, no array that runs until it ends, and
/// none inside it that does (a struct with a size of its own is a window of
/// its own).
pub open spec fn bounded(op: Op) -> bool
    decreases op, 0nat,
{
    match op {
        Op::Bytes { len, .. } => len is Expr,
        Op::Str { len, .. } => len is Expr,
        Op::Nest { prog, size, .. } => match size {
            None => {
                proof { assert(decreases_to!(op => (*prog).ops@)); }
                bounded_ops((*prog).ops@, (*prog).ops@.len())
            },
            Some(_) => true,
        },
        Op::Array { count, elem, .. } => count is Expr && bounded(*elem),
        Op::Switch { cases, default, .. } => {
            proof { assert(decreases_to!(op => cases@)); }
            bounded_cases(cases@, cases@.len()) && match default {
                Some(d) => bounded(*d),
                None => true,
            }
        },
        Op::Cond { then, .. } => bounded(*then),
        _ => true,
    }
}

/// The first `n` ops are bounded.
pub open spec fn bounded_ops(ops: Seq<Op>, n: nat) -> bool
    decreases ops, n,
{
    if n == 0 || n > ops.len() {
        true
    } else {
        proof { assert(decreases_to!(ops => ops[n - 1])); }
        bounded_ops(ops, (n - 1) as nat) && bounded(ops[n - 1])
    }
}

/// The first `n` cases are bounded.
pub open spec fn bounded_cases(cases: Seq<(i64, Box<Op>)>, n: nat) -> bool
    decreases cases, n,
{
    if n == 0 || n > cases.len() {
        true
    } else {
        proof {
            assert(decreases_to!(cases => cases[n - 1]));
            assert(decreases_to!(cases[n - 1] => cases[n - 1].1));
        }
        bounded_cases(cases, (n - 1) as nat) && bounded(*cases[n - 1].1)
    }
}

proof fn lemma_bounded_op_at(ops: Seq<Op>, n: nat, k: int)
    requires
        bounded_ops(ops, n),
        0 <= k < n <= ops.len(),
    ensures
        bounded(ops[k]),
    decreases n,
{
    if k < n - 1 {
        lemma_bounded_op_at(ops, (n - 1) as nat, k);
    }
}

proof fn lemma_bounded_case_at(cases: Seq<(i64, Box<Op>)>, n: nat, k: int)
    requires
        bounded_cases(cases, n),
        0 <= k < n <= cases.len(),
    ensures
        bounded(*cases[k].1),
    decreases n,
{
    if k < n - 1 {
        lemma_bounded_case_at(cases, (n - 1) as nat, k);
    }
}

/// Decoding a value at the top of the buffer, against decoding it at the
/// top of a prefix `i` bytes long: where the value ends within the prefix
/// the prefix decodes it alike, else it asks for more bytes, no more than
/// the value needs.
spec fn val_pre(op: Op, full: Seq<u8>, i: int, st: FrV, pos: int) -> bool {
    let r = dec_value(op, full, st, pos, full.len() as int);
    &&& r matches Ok((_, end, st2)) && pos <= end <= full.len()
        && spans_le(st2, end) && st2.regs.len() == st2.spans.len() && st2.regs.len() == st.regs.len()
    &&& if r->Ok_0.1 <= i {
        dec_value(op, full.subrange(0, i), st, pos, i) == r
    } else {
        dec_value(op, full.subrange(0, i), st, pos, i) matches Err(FailV::Short(n)) && n > 0 && i + n <= r->Ok_0.1
    }
}

spec fn op_pre(op: Op, idx: int, full: Seq<u8>, i: int, st: FrV, pos: int, map: Seq<(Seq<char>, ValueV)>, defs: Seq<DefV>) -> bool {
    let r = dec_op(op, idx, full, st, pos, full.len() as int, map, defs);
    &&& r matches Ok((end, st2, _, _)) && pos <= end <= full.len()
        && spans_le(st2, end) && st2.regs.len() == st2.spans.len() && st2.regs.len() == st.regs.len()
    &&& if r->Ok_0.0 <= i {
        dec_op(op, idx, full.subrange(0, i), st, pos, i, map, defs) == r
    } else {
        dec_op(op, idx, full.subrange(0, i), st, pos, i, map, defs) matches Err(FailV::Short(n)) && n > 0 && i + n <= r->Ok_0.0
    }
}

spec fn ops_pre(prog: Program, k: int, full: Seq<u8>, i: int, st: FrV, start: int, pos: int, map: Seq<(Seq<char>, ValueV)>, defs: Seq<DefV>) -> bool {
    let r = dec_ops(prog, k, full, st, start, pos, full.len() as int, map, defs);
    &&& r matches Ok((end, st2, _, _)) && pos <= end <= full.len()
        && spans_le(st2, end) && st2.regs.len() == st2.spans.len() && st2.regs.len() == st.regs.len()
    &&& if r->Ok_0.0 <= i {
        dec_ops(prog, k, full.subrange(0, i), st, start, pos, i, map, defs) == r
    } else {
        dec_ops(prog, k, full.subrange(0, i), st, start, pos, i, map, defs) matches Err(FailV::Short(n)) && n > 0 && i + n <= r->Ok_0.0
    }
}

spec fn struct_pre(prog: Program, full: Seq<u8>, i: int, st: FrV, pos: int) -> bool {
    let r = dec_struct(prog, full, st, pos, full.len() as int);
    &&& r matches Ok((_, end, st2)) && pos <= end <= full.len()
        && spans_le(st2, end) && st2.regs.len() == st2.spans.len() && st2.regs.len() == st.regs.len()
    &&& if r->Ok_0.1 <= i {
        dec_struct(prog, full.subrange(0, i), st, pos, i) == r
    } else {
        dec_struct(prog, full.subrange(0, i), st, pos, i) matches Err(FailV::Short(n)) && n > 0 && i + n <= r->Ok_0.1
    }
}

proof fn outer_struct(prog: Program, full: Seq<u8>, i: int, st: FrV, pos: int)
    requires
        0 <= pos <= i <= full.len() <= usize::MAX,
        spans_le(st, pos),
        st.regs.len() == st.spans.len(),
        bounded_ops(prog.ops@, prog.ops@.len()),
        dec_struct(prog, full, st, pos, full.len() as int) is Ok,
    ensures
        struct_pre(prog, full, i, st, pos),
    decreases prog, 3nat, 0int,
{
    let st0 = push_frame(st);
    lemma_spans_push(st, pos);
    outer_ops(prog, 0, full, i, st0, pos, pos, Seq::empty(), Seq::empty());
    let (end, st1, map, defs) = dec_ops(prog, 0, full, st0, pos, pos, full.len() as int, Seq::empty(), Seq::empty())->Ok_0;
    lemma_spans_pop(st1, end);
    if end <= i {
        lemma_last_spans(st1, end, i);
        lemma_digests_prefix(prog, full, i, pos, end, st1.spans.last(), defs, 0);
    }
}

proof fn outer_ops(prog: Program, k: int, full: Seq<u8>, i: int, st: FrV, start: int, pos: int, map: Seq<(Seq<char>, ValueV)>, defs: Seq<DefV>)
    requires
        0 <= pos <= i <= full.len() <= usize::MAX,
        spans_le(st, pos),
        st.regs.len() == st.spans.len(),
        st.regs.len() > 0,
        bounded_ops(prog.ops@, prog.ops@.len()),
        dec_ops(prog, k, full, st, start, pos, full.len() as int, map, defs) is Ok,
    ensures
        ops_pre(prog, k, full, i, st, start, pos, map, defs),
    decreases prog, 2nat, prog.ops@.len() - k,
{
    if 0 <= k < prog.ops@.len() {
        assert(decreases_to!(prog => prog.ops@[k]));
        lemma_bounded_op_at(prog.ops@, prog.ops@.len(), k);
        outer_op(prog.ops@[k], k, full, i, st, pos, map, defs);
        let (end, st1, map1, defs1) = dec_op(prog.ops@[k], k, full, st, pos, full.len() as int, map, defs)->Ok_0;
        if end <= i {
            outer_ops(prog, k + 1, full, i, st1, start, end, map1, defs1);
        } else {
            inner_ops_ok(prog, k + 1, full, st1, start, end, map1, defs1);
        }
    }
}

/// The fields after one leave the end no earlier than where it ended.
proof fn inner_ops_ok(prog: Program, k: int, full: Seq<u8>, st: FrV, start: int, pos: int, map: Seq<(Seq<char>, ValueV)>, defs: Seq<DefV>)
    requires
        0 <= pos <= full.len() <= usize::MAX,
        spans_le(st, pos),
        st.regs.len() == st.spans.len(),
        st.regs.len() > 0,
        dec_ops(prog, k, full, st, start, pos, full.len() as int, map, defs) is Ok,
    ensures
        dec_ops(prog, k, full, st, start, pos, full.len() as int, map, defs) matches Ok((end, st2, _, _)) && pos <= end <= full.len()
            && spans_le(st2, end) && st2.regs.len() == st2.spans.len() && st2.regs.len() == st.regs.len(),
{
    inner_ops(prog, k, full, full.len() as int, st, start, pos, full.len() as int, map, defs);
}

proof fn outer_op(op: Op, idx: int, full: Seq<u8>, i: int, st: FrV, pos: int, map: Seq<(Seq<char>, ValueV)>, defs: Seq<DefV>)
    requires
        0 <= pos <= i <= full.len() <= usize::MAX,
        spans_le(st, pos),
        st.regs.len() == st.spans.len(),
        st.regs.len() > 0,
        bounded(op),
        dec_op(op, idx, full, st, pos, full.len() as int, map, defs) is Ok,
    ensures
        op_pre(op, idx, full, i, st, pos, map, defs),
    decreases op, 2nat, 1int,
{
    inner_op(op, idx, full, full.len() as int, st, pos, full.len() as int, map, defs);
    assert(full.subrange(0, full.len() as int) =~= full);
    match op {
        Op::Fixed { width, items } => {
            if pos + width <= i {
                lemma_spans_mono(st, pos, pos + width);
                lemma_fixed_items_prefix(items@, 0, full, i, st, pos, pos + width, map);
            }
        },
        Op::BitRun { nbytes, items } => {
            if pos + nbytes <= i {
                lemma_bit_items_prefix(items@, 0, 0, nbytes as int, full, i, st, pos, map);
            }
        },
        Op::Digest { algo, .. } => {
            let w = algo.spec_width_bytes() as int;
            if pos + w <= i {
                assert(full.subrange(0, i).subrange(pos, pos + w) =~= full.subrange(pos, pos + w));
            }
        },
        Op::Cond { pred, then, c } => {
            if eval(st, pred, pos) matches Ok(v) && v != 0 {
                outer_value(*then, full, i, st, pos);
            }
        },
        _ => {
            outer_value(op, full, i, st, pos);
        },
    }
}

proof fn outer_value(op: Op, full: Seq<u8>, i: int, st: FrV, pos: int)
    requires
        0 <= pos <= i <= full.len() <= usize::MAX,
        spans_le(st, pos),
        st.regs.len() == st.spans.len(),
        st.regs.len() > 0,
        bounded(op),
        dec_value(op, full, st, pos, full.len() as int) is Ok,
    ensures
        val_pre(op, full, i, st, pos),
    decreases op, 1nat, 1int,
{
    inner_value(op, full, full.len() as int, st, pos, full.len() as int);
    assert(full.subrange(0, full.len() as int) =~= full);
    match op {
        Op::Nest { .. } => outer_val_nest(op, full, i, st, pos),
        Op::Array { .. } => outer_val_array(op, full, i, st, pos),
        Op::Switch { .. } => outer_val_switch(op, full, i, st, pos),
        Op::CStr { .. } => outer_val_cstr(op, full, i, st, pos),
        _ => outer_val_flat(op, full, i, st, pos),
    }
}

proof fn outer_val_flat(op: Op, full: Seq<u8>, i: int, st: FrV, pos: int)
    requires
        !(op is Nest || op is Array || op is Switch || op is CStr),
        0 <= pos <= i <= full.len() <= usize::MAX,
        spans_le(st, pos),
        st.regs.len() == st.spans.len(),
        st.regs.len() > 0,
        bounded(op),
        dec_value(op, full, st, pos, full.len() as int) is Ok,
        val_same(op, full, full.len() as int, st, pos, full.len() as int),
    ensures
        val_pre(op, full, i, st, pos),
{
    let pre = full.subrange(0, i);
    match op {
        Op::Fixed { width, items } => {
            if pos + width <= i {
                lemma_spans_mono(st, pos, pos + width);
                lemma_fixed_item_prefix(items@[0], full, i, st, pos, pos + width);
            }
        },
        Op::Bytes { len, max, .. } => {
            let n = resolve_len(st, len, max, pos, full.len() as int)->Ok_0;
            assert(resolve_len(st, len, max, pos, i) == resolve_len(st, len, max, pos, full.len() as int));
            if pos + n <= i {
                assert(pre.subrange(pos, pos + n) =~= full.subrange(pos, pos + n));
            }
        },
        Op::Str { len, max, .. } => {
            let n = resolve_len(st, len, max, pos, full.len() as int)->Ok_0;
            assert(resolve_len(st, len, max, pos, i) == resolve_len(st, len, max, pos, full.len() as int));
            if pos + n <= i {
                assert(pre.subrange(pos, pos + n) =~= full.subrange(pos, pos + n));
            }
        },
        Op::Flags { prim, .. } => {
            let w = prim.spec_width() as int;
            if pos + w <= i {
                assert(pre.subrange(pos, pos + w) =~= full.subrange(pos, pos + w));
            }
        },
        _ => {},
    }
}

proof fn outer_val_cstr(op: Op, full: Seq<u8>, i: int, st: FrV, pos: int)
    requires
        op is CStr,
        0 <= pos <= i <= full.len() <= usize::MAX,
        dec_value(op, full, st, pos, full.len() as int) is Ok,
        val_same(op, full, full.len() as int, st, pos, full.len() as int),
    ensures
        val_pre(op, full, i, st, pos),
{
    if let Op::CStr { max, enc, .. } = op {
        let pre = full.subrange(0, i);
        let scan_f = cstr_scan(max, pos as usize, full.len() as usize);
        let scan_p = cstr_scan(max, pos as usize, i as usize);
        let j = first_nul(full, pos, 0, scan_f)->Some_0;
        lemma_first_nul(full, pos, 0, scan_f);
        lemma_nul_shorter(full, pos, 0, scan_p, scan_f);
        lemma_nul_same(pre, full, pos, 0, scan_p);
        if pos + j + 1 <= i {
            assert(pre.subrange(pos, pos + j) =~= full.subrange(pos, pos + j));
        }
    }
}

proof fn outer_val_nest(op: Op, full: Seq<u8>, i: int, st: FrV, pos: int)
    requires
        op is Nest,
        0 <= pos <= i <= full.len() <= usize::MAX,
        spans_le(st, pos),
        st.regs.len() == st.spans.len(),
        st.regs.len() > 0,
        bounded(op),
        dec_value(op, full, st, pos, full.len() as int) is Ok,
        val_same(op, full, full.len() as int, st, pos, full.len() as int),
    ensures
        val_pre(op, full, i, st, pos),
    decreases op, 1nat, 0int,
{
    if let Op::Nest { prog, size, .. } = op {
        assert(decreases_to!(op => *prog));
        match size {
            None => { outer_struct(*prog, full, i, st, pos); },
            Some(LenSrc::Expr { expr, .. }) => {
                let sz = eval_len(st, expr, pos)->Ok_0;
                if pos + sz <= i {
                    inner_struct(*prog, full, i, st, pos, pos + sz);
                }
            },
            Some(LenSrc::Greedy) => {},
        }
    }
}

proof fn outer_val_array(op: Op, full: Seq<u8>, i: int, st: FrV, pos: int)
    requires
        op is Array,
        0 <= pos <= i <= full.len() <= usize::MAX,
        spans_le(st, pos),
        st.regs.len() == st.spans.len(),
        st.regs.len() > 0,
        bounded(op),
        dec_value(op, full, st, pos, full.len() as int) is Ok,
        val_same(op, full, full.len() as int, st, pos, full.len() as int),
    ensures
        val_pre(op, full, i, st, pos),
    decreases op, 1nat, 0int,
{
    if let Op::Array { count, .. } = op {
        if let CountSrc::Expr { expr, .. } = count {
            let n = eval(st, expr, pos)->Ok_0;
            outer_elems(op, n as int, 0, full, i, st, pos, Seq::empty());
        }
    }
}

proof fn outer_val_switch(op: Op, full: Seq<u8>, i: int, st: FrV, pos: int)
    requires
        op is Switch,
        0 <= pos <= i <= full.len() <= usize::MAX,
        spans_le(st, pos),
        st.regs.len() == st.spans.len(),
        st.regs.len() > 0,
        bounded(op),
        dec_value(op, full, st, pos, full.len() as int) is Ok,
        val_same(op, full, full.len() as int, st, pos, full.len() as int),
    ensures
        val_pre(op, full, i, st, pos),
    decreases op, 1nat, 0int,
{
    if let Op::Switch { on, .. } = op {
        let tag = eval(st, on, pos)->Ok_0;
        outer_case(op, tag, 0, full, i, st, pos);
    }
}

proof fn outer_elems(op: Op, n: int, k: int, full: Seq<u8>, i: int, st: FrV, pos: int, acc: Seq<ValueV>)
    requires
        op is Array,
        0 <= pos <= i <= full.len() <= usize::MAX,
        spans_le(st, pos),
        st.regs.len() == st.spans.len(),
        st.regs.len() > 0,
        bounded(op),
        dec_elems(op, n, k, full, st, pos, full.len() as int, acc) is Ok,
    ensures
        ({
            let r = dec_elems(op, n, k, full, st, pos, full.len() as int, acc);
            &&& r matches Ok((_, end, _)) && pos <= end
            &&& if r->Ok_0.1 <= i {
                dec_elems(op, n, k, full.subrange(0, i), st, pos, i, acc) == r
            } else {
                dec_elems(op, n, k, full.subrange(0, i), st, pos, i, acc) matches Err(FailV::Short(m)) && m > 0 && i + m <= r->Ok_0.1
            }
        }),
    decreases op, 0nat, n - k,
{
    inner_elems(op, n, k, full, full.len() as int, st, pos, full.len() as int, acc);
    assert(full.subrange(0, full.len() as int) =~= full);
    if let Op::Array { elem, .. } = op {
        if k < n {
            assert(decreases_to!(op => *elem));
            outer_value(*elem, full, i, st, pos);
            let (v, end, st1) = dec_value(*elem, full, st, pos, full.len() as int)->Ok_0;
            if end <= i {
                outer_elems(op, n, k + 1, full, i, st1, end, acc.push(v));
            } else {
                inner_elems(op, n, k + 1, full, full.len() as int, st1, end, full.len() as int, acc.push(v));
            }
        }
    }
}

proof fn outer_case(op: Op, tag: i64, k: int, full: Seq<u8>, i: int, st: FrV, pos: int)
    requires
        op is Switch,
        0 <= pos <= i <= full.len() <= usize::MAX,
        spans_le(st, pos),
        st.regs.len() == st.spans.len(),
        st.regs.len() > 0,
        bounded(op),
        dec_case(op, tag, k, full, st, pos, full.len() as int) is Ok,
    ensures
        ({
            let r = dec_case(op, tag, k, full, st, pos, full.len() as int);
            &&& r matches Ok((_, end, st2)) && pos <= end <= full.len()
                && spans_le(st2, end) && st2.regs.len() == st2.spans.len() && st2.regs.len() == st.regs.len()
            &&& if r->Ok_0.1 <= i {
                dec_case(op, tag, k, full.subrange(0, i), st, pos, i) == r
            } else {
                dec_case(op, tag, k, full.subrange(0, i), st, pos, i) matches Err(FailV::Short(m)) && m > 0 && i + m <= r->Ok_0.1
            }
        }),
    decreases op, 0nat, if k < 0 { 0 } else { (op->Switch_cases)@.len() - k },
{
    if let Op::Switch { cases, default, .. } = op {
        if 0 <= k < cases@.len() {
            if cases@[k].0 == tag {
                assert(decreases_to!(op => cases));
                assert(decreases_to!(cases => cases@));
                assert(decreases_to!(cases@ => cases@[k]));
                assert(decreases_to!(cases@[k] => cases@[k].1));
                lemma_bounded_case_at(cases@, cases@.len(), k);
                outer_value(*cases@[k].1, full, i, st, pos);
            } else {
                outer_case(op, tag, k + 1, full, i, st, pos);
            }
        } else if let Some(d) = default {
            assert(decreases_to!(op => *d));
            outer_value(*d, full, i, st, pos);
        }
    }
}

/// The streaming contract: a prefix of a buffer that decodes (streaming,
/// not exact) decodes to the same result, or asks for more bytes -- at
/// least one, and no more than the buffer holds beyond the prefix -- and is
/// never an error. It holds for programs whose fields read no further than
/// their own lengths say (`bounded`): a text field that runs to the end of
/// the buffer can end inside a character, and a digest over the whole
/// scope sees a different scope when an array runs to the end.
pub proof fn lemma_prefix_streams(prog: Program, full: Seq<u8>, i: int)
    requires
        bounded_ops(prog.ops@, prog.ops@.len()),
        0 <= i <= full.len() <= usize::MAX,
        unpack(prog, full, 0, false, true) is Decoded,
    ensures
        match unpack(prog, full.subrange(0, i), 0, false, true) {
            OutcomeV::Decoded(v, pos) => unpack(prog, full, 0, false, true) == OutcomeV::Decoded(v, pos),
            OutcomeV::Incomplete(n) => n > 0 && i + n <= full.len(),
            OutcomeV::Invalid(..) => false,
        },
{
    let st = FrV { regs: Seq::empty(), spans: Seq::empty() };
    outer_struct(prog, full, i, st, 0);
}

// ---------- a trailing field that reads to the end ----------

/// An op that reads to the end of the window: bytes with no length, or an
/// array of elements that read no further than their own lengths say,
/// repeated until the window ends.
pub open spec fn reads_to_end(op: Op) -> bool {
    ||| op matches Op::Bytes { len: LenSrc::Greedy, .. }
    ||| (op matches Op::Array { count: CountSrc::UntilEof, elem, .. } && bounded(*elem))
}

/// The last op of `prog` reads to the end of the window, every op before
/// it reads no further than its own length says, and none is a digest of
/// the scope.
pub open spec fn greedy_tail(prog: Program) -> bool {
    let n = prog.ops@.len();
    &&& n > 0
    &&& reads_to_end(prog.ops@[n - 1])
    &&& bounded_ops(prog.ops@, (n - 1) as nat)
    &&& forall|k: int| 0 <= k < n ==> !(#[trigger] prog.ops@[k] is Digest)
}

/// Elements repeated until the window ends, on a prefix: they decode too,
/// or ask for bytes the full buffer holds; on the full buffer they end at
/// its end.
proof fn outer_until_weak(op: Op, k: int, full: Seq<u8>, i: int, st: FrV, pos: int, acc: Seq<ValueV>)
    requires
        0 <= pos <= full.len() <= usize::MAX,
        0 <= i <= full.len(),
        spans_le(st, pos),
        st.regs.len() == st.spans.len(),
        st.regs.len() > 0,
        op matches Op::Array { elem, .. } && bounded(*elem),
        dec_until_end(op, k, full, st, pos, full.len() as int, acc) is Ok,
    ensures
        dec_until_end(op, k, full, st, pos, full.len() as int, acc)->Ok_0.1 == full.len(),
        pos <= i ==> match dec_until_end(op, k, full.subrange(0, i), st, pos, i, acc) {
            Ok(_) => true,
            Err(FailV::Short(n)) => n > 0 && i + n <= full.len(),
            Err(FailV::Bad(..)) => false,
        },
    decreases full.len() - pos,
{
    let l = full.len() as int;
    if let Op::Array { elem, max_count, .. } = op {
        if pos < l {
            assert(decreases_to!(op => *elem));
            let (v, end, st1) = dec_value(*elem, full, st, pos, l)->Ok_0;
            inner_value(*elem, full, l, st, pos, l);
            assert(full.subrange(0, l) =~= full);
            outer_until_weak(op, k + 1, full, i, st1, end, acc.push(v));
            if pos < i {
                outer_value(*elem, full, i, st, pos);
            }
        }
    }
}

/// With no digest among the ops, no digest check fails.
proof fn lemma_no_digests(prog: Program, buf: Seq<u8>, ss: int, se: int, spans: [(usize, usize); 16], defs: Seq<DefV>, k: int)
    requires
        forall|j: int| 0 <= j < prog.ops@.len() ==> !(#[trigger] prog.ops@[j] is Digest),
    ensures
        check_digests(prog, buf, ss, se, spans, defs, k) is None,
    decreases defs.len() - k,
{
    if 0 <= k < defs.len() {
        let d = defs[k];
        if 0 <= d.op < prog.ops@.len() {
            assert(!(prog.ops@[d.op] is Digest));
        }
        lemma_no_digests(prog, buf, ss, se, spans, defs, k + 1);
    }
}

/// What the ops from the `k`-th on give on a prefix: a result, or a
/// request for bytes the full buffer holds, never an error.
spec fn ops_weak(prog: Program, k: int, full: Seq<u8>, i: int, st: FrV, start: int, pos: int, map: Seq<(Seq<char>, ValueV)>, defs: Seq<DefV>) -> bool {
    let r = dec_ops(prog, k, full, st, start, pos, full.len() as int, map, defs);
    &&& r matches Ok((end, _, _, _)) && pos <= end <= full.len()
    &&& match dec_ops(prog, k, full.subrange(0, i), st, start, pos, i, map, defs) {
        Ok(_) => true,
        Err(FailV::Short(n)) => n > 0 && i + n <= r->Ok_0.0,
        Err(FailV::Bad(..)) => false,
    }
}

proof fn outer_ops_greedy(prog: Program, k: int, full: Seq<u8>, i: int, st: FrV, start: int, pos: int, map: Seq<(Seq<char>, ValueV)>, defs: Seq<DefV>)
    requires
        0 <= pos <= i <= full.len() <= usize::MAX,
        spans_le(st, pos),
        st.regs.len() == st.spans.len(),
        st.regs.len() > 0,
        greedy_tail(prog),
        0 <= k,
        dec_ops(prog, k, full, st, start, pos, full.len() as int, map, defs) is Ok,
    ensures
        ops_weak(prog, k, full, i, st, start, pos, map, defs),
    decreases prog.ops@.len() - k,
{
    let n = prog.ops@.len();
    if k < n - 1 {
        lemma_bounded_op_at(prog.ops@, (n - 1) as nat, k);
        outer_op(prog.ops@[k], k, full, i, st, pos, map, defs);
        let (end, st1, map1, defs1) = dec_op(prog.ops@[k], k, full, st, pos, full.len() as int, map, defs)->Ok_0;
        if end <= i {
            outer_ops_greedy(prog, k + 1, full, i, st1, start, end, map1, defs1);
        } else {
            inner_ops_ok(prog, k + 1, full, st1, start, end, map1, defs1);
        }
    } else if k == n - 1 {
        let op = prog.ops@[k];
        let l = full.len() as int;
        if op is Bytes {
            assert(dec_value(op, full, st, pos, l) is Ok);
            assert(dec_value(op, full.subrange(0, i), st, pos, i) is Ok);
        } else {
            outer_until_weak(op, 0, full, i, st, pos, Seq::empty());
        }
        let (end, st1, map1, defs1) = dec_op(op, k, full, st, pos, l, map, defs)->Ok_0;
        assert(end == l);
        assert(dec_ops(prog, k + 1, full, st1, start, end, l, map1, defs1) is Ok);
        if dec_op(op, k, full.subrange(0, i), st, pos, i, map, defs) is Ok {
            let (e2, s2, m2, d2) = dec_op(op, k, full.subrange(0, i), st, pos, i, map, defs)->Ok_0;
            assert(dec_ops(prog, k + 1, full.subrange(0, i), s2, start, e2, i, m2, d2) is Ok);
        }
    }
}

/// The streaming contract for a program that ends in a field read to the
/// end of the buffer (bytes with no length, or an array until the end): a
/// prefix of a buffer that decodes (streaming, not exact) decodes too, or
/// asks for more bytes -- at least one, and no more than the buffer holds
/// beyond the prefix -- and is never an error.
pub proof fn lemma_prefix_streams_greedy_tail(prog: Program, full: Seq<u8>, i: int)
    requires
        greedy_tail(prog),
        0 <= i <= full.len() <= usize::MAX,
        unpack(prog, full, 0, false, true) is Decoded,
    ensures
        match unpack(prog, full.subrange(0, i), 0, false, true) {
            OutcomeV::Decoded(..) => true,
            OutcomeV::Incomplete(n) => n > 0 && i + n <= full.len(),
            OutcomeV::Invalid(..) => false,
        },
{
    let st = FrV { regs: Seq::empty(), spans: Seq::empty() };
    let pre = full.subrange(0, i);
    assert(pre.len() == i);
    let st0 = push_frame(st);
    lemma_spans_push(st, 0);
    outer_ops_greedy(prog, 0, full, i, st0, 0, 0, Seq::empty(), Seq::empty());
    match dec_ops(prog, 0, pre, st0, 0, 0, i, Seq::empty(), Seq::empty()) {
        Ok((end, st1, map, defs)) => {
            lemma_no_digests(prog, pre, 0, end, st1.spans.last(), defs, 0);
        },
        Err(_) => {},
    }
}

} // verus!
