use vstd::prelude::*;

use crate::codec::{int_value, read_bits, read_sint, read_uint, sint_value, uint_value};
use crate::digest::{algo_ok, digest_is, Algo, DigestVal, Hasher};
use crate::error::{format_path, Kind, Seg, UFail};
use crate::expr::{Expr, RegFrame};
use crate::fixed::{entries_are, item_raw, item_reads, item_value, items_plain, items_tile, offset_sum, static_run};
use crate::flags::{flag_read, flags_read};
use crate::floats::widen_f32_bits;
use crate::program::{
    BitItem, CountSrc, Enc, FixKind, FixedItem, FlagItem, IntPrim, Key, LenSrc, Op, Over, Program,
    RestPolicy, MAX_DEPTH, MAX_REGS, MAX_SPANS,
};
use crate::text::{decode, decode_spec, string_of};
use crate::value::{entries_view, lemma_entries_push, lemma_values_push, values_view, Value, ValueV};
use crate::decoding::{self as dec, fail_view, FailV, FrV};

verus! {

/// The outcome of decoding.
#[derive(Debug)]
pub enum Outcome {
    Decoded { value: Value, pos: usize },
    Incomplete { needed: usize },
    Invalid { kind: Kind, offset: usize, path: String },
}

impl Outcome {
    pub open spec fn view(&self) -> dec::OutcomeV {
        match *self {
            Outcome::Decoded { value, pos } => dec::OutcomeV::Decoded(value@, pos as int),
            Outcome::Incomplete { needed } => dec::OutcomeV::Incomplete(needed as nat),
            Outcome::Invalid { kind, offset, path } => dec::OutcomeV::Invalid(kind, offset as int, path@),
        }
    }
}

/// The registers and span registers of every open struct scope, innermost
/// last.
struct Frames {
    regs: Vec<RegFrame>,
    spans: Vec<[(usize, usize); 16]>,
}

impl Frames {
    spec fn wf(&self) -> bool {
        self.regs@.len() == self.spans@.len()
    }

    spec fn depth(&self) -> nat {
        self.regs@.len()
    }

    spec fn view(&self) -> FrV {
        FrV { regs: self.regs@, spans: self.spans@ }
    }
}

/// A map's entries as the contracts see them.
pub open spec fn mview(m: Seq<(String, Value)>) -> Seq<(Seq<char>, ValueV)> {
    entries_view(m, m.len())
}

/// `r` is what the decoding spec gives (`s`), with `st` the frames after.
spec fn value_res(r: Result<(Value, usize), UFail>, st: FrV, s: Result<(ValueV, int, FrV), FailV>) -> bool {
    match s {
        Ok((vv, e, st2)) => r matches Ok((v, end)) && v@ == vv && end == e && st == st2,
        Err(f) => r matches Err(u) && fail_view(u) == f,
    }
}

/// A failure whose offset lies within the buffer.
pub open spec fn fail_in(e: UFail, len: nat) -> bool {
    match e {
        UFail::Incomplete { needed } => needed > 0,
        UFail::Invalid(inv) => inv.offset <= len,
    }
}

/// A fresh `Invalid` failure of `kind` at `offset`.
fn fail(kind: Kind, offset: usize) -> (r: UFail)
    ensures
        r matches UFail::Invalid(inv) && inv.kind == kind && inv.offset == offset && inv.path@.len() == 0,
        fail_view(r) == dec::bad(kind, offset as int),
{
    let r = UFail::invalid(kind, offset);
    proof { dec::lemma_fresh_fail(r); }
    r
}

/// Bounds check: running past the end of the buffer is `Incomplete`
/// (more data may come), running past a window boundary is `Invalid`
/// (`Truncated`).
fn need(buf: &[u8], pos: usize, limit: usize, n: usize) -> (r: Result<(), UFail>)
    requires
        pos <= limit <= buf@.len(),
    ensures
        r is Ok <==> pos + n <= limit,
        r matches Err(e) ==> fail_in(e, buf@.len()) && match e {
            UFail::Incomplete { needed } => limit == buf@.len() && needed == pos + n - buf@.len(),
            UFail::Invalid(inv) => limit != buf@.len() && inv.kind == Kind::Truncated && inv.offset == pos,
        },
        match dec::need(buf@.len() as int, pos as int, limit as int, n as int) {
            None => r is Ok,
            Some(f) => r matches Err(e) && fail_view(e) == f,
        },
{
    if n <= limit - pos {
        return Ok(());
    }
    if limit == buf.len() {
        Err(UFail::Incomplete { needed: n - (limit - pos) })
    } else {
        let e = fail(Kind::Truncated, pos);
        proof { dec::lemma_fresh_fail(e); }
        Err(e)
    }
}

fn set_reg(fr: &mut Frames, idx: u8, v: i64)
    requires
        old(fr).wf(),
    ensures
        final(fr).wf(),
        final(fr).depth() == old(fr).depth(),
        final(fr)@ == dec::set_reg(old(fr)@, idx, v),
{
    let n = fr.regs.len();
    if n > 0 && (idx as usize) < MAX_REGS {
        let mut f = fr.regs[n - 1];
        f.regs[idx as usize] = v;
        f.known = f.known | (1u16 << (idx as u16));
        proof {
            let g = old(fr).regs@[n - 1];
            assert(f.regs =~= vstd::array::spec_array_update(g.regs, idx as int, v));
        }
        fr.regs.set(n - 1, f);
    }
}

fn set_span(fr: &mut Frames, idx: Option<u8>, start: usize, end: usize)
    requires
        old(fr).wf(),
    ensures
        final(fr).wf(),
        final(fr).depth() == old(fr).depth(),
        final(fr)@ == dec::set_span(old(fr)@, idx, start, end),
{
    if let Some(i) = idx {
        let n = fr.spans.len();
        if n > 0 && (i as usize) < MAX_SPANS {
            let mut s = fr.spans[n - 1];
            s[i as usize] = (start, end);
            proof { assert(s =~= vstd::array::spec_array_update(old(fr).spans@[n - 1], i as int, (start, end))); }
            fr.spans.set(n - 1, s);
        }
    }
}

fn eval(fr: &Frames, expr: &Expr, pos: usize) -> (r: Result<i64, UFail>)
    ensures
        r matches Err(e) ==> e matches UFail::Invalid(inv) && inv.offset == pos,
        match dec::eval(fr@, *expr, pos as int) {
            Ok(v) => r == Ok::<i64, UFail>(v),
            Err(f) => r matches Err(e) && fail_view(e) == f,
        },
{
    match expr.eval(fr.regs.as_slice(), false) {
        Ok(v) => Ok(v),
        Err(k) => {
            let e = fail(k, pos);
            proof { dec::lemma_fresh_fail(e); }
            Err(e)
        },
    }
}

fn eval_len(fr: &Frames, expr: &Expr, pos: usize) -> (r: Result<usize, UFail>)
    ensures
        r matches Err(e) ==> e matches UFail::Invalid(inv) && inv.offset == pos,
        match dec::eval_len(fr@, *expr, pos as int) {
            Ok(n) => r matches Ok(m) && m == n,
            Err(f) => r matches Err(e) && fail_view(e) == f,
        },
{
    let v = eval(fr, expr, pos)?;
    if v < 0 {
        let e = fail(Kind::NegativeLen, pos);
        proof { dec::lemma_fresh_fail(e); }
        return Err(e);
    }
    if v as u64 > usize::MAX as u64 {
        let e = fail(Kind::Limit, pos);
        proof { dec::lemma_fresh_fail(e); }
        return Err(e);
    }
    Ok(v as usize)
}

fn push_key(e: UFail, key: &Key) -> (r: UFail)
    ensures
        forall|len: nat| fail_in(e, len) ==> fail_in(r, len),
        fail_view(r) == dec::with_key(fail_view(e), *key),
{
    match key {
        Key::Named(n) => {
            let s = Seg::Field(n.clone());
            let ghost e0 = e;
            let r = e.seg(s);
            proof { dec::lemma_seg_fail(e0, s, r); }
            r
        },
        Key::Skip => e,
    }
}

/// A failure with an array index added to its path.
fn push_index(e: UFail, i: usize) -> (r: UFail)
    ensures
        forall|len: nat| fail_in(e, len) ==> fail_in(r, len),
        fail_view(r) == dec::with_seg(fail_view(e), dec::SegV::Index(i as nat)),
{
    let s = Seg::Index(i);
    let ghost e0 = e;
    let r = e.seg(s);
    proof { dec::lemma_seg_fail(e0, s, r); }
    r
}

/// Decodes `buf` from `offset` against `prog`. With `exact`, the buffer must
/// be consumed to its end (a tail is `Trailing`); with `stream`, running out
/// of data gives `Incomplete` rather than `Truncated`.
pub fn run(prog: &Program, buf: &[u8], offset: usize, exact: bool, stream: bool) -> (r: Outcome)
    ensures
        match r {
            Outcome::Decoded { pos, .. } => (if offset < buf@.len() { offset as int } else { buf@.len() as int }) <= pos
                <= buf@.len() && (exact ==> pos == buf@.len()),
            Outcome::Incomplete { needed } => stream && needed > 0,
            Outcome::Invalid { offset: o, .. } => o <= buf@.len(),
        },
        static_run(*prog) ==> match prog.ops@[0] {
            Op::Fixed { width, items } => {
                &&& (offset == 0 && buf@.len() == width) ==> {
                    &&& (r is Decoded <==> forall|j: int| 0 <= j < items@.len()
                        ==> #[trigger] item_reads(items@[j], item_raw(buf@, 0, items@[j])))
                    &&& (r matches Outcome::Decoded { value, pos } ==> pos == width
                        && (value matches Value::Dict(m) && entries_are(items@, buf@, 0, m@, 0)))
                }
                &&& (offset == 0 && buf@.len() < width) ==> if stream {
                    r == Outcome::Incomplete { needed: (width - buf@.len()) as usize }
                } else {
                    r matches Outcome::Invalid { kind, offset: o, .. } && kind == Kind::Truncated && o == buf@.len()
                }
            },
            _ => true,
        },
        r@ == dec::unpack(*prog, buf@, offset as int, exact, stream),
{
    let mut fr = Frames { regs: Vec::new(), spans: Vec::new() };
    proof { assert(fr@ == FrV { regs: Seq::empty(), spans: Seq::empty() }); }
    let start = if offset < buf.len() { offset } else { buf.len() };
    match run_struct(buf, &mut fr, prog, start, buf.len()) {
        Ok((value, pos)) => {
            if exact && pos != buf.len() {
                Outcome::Invalid { kind: Kind::Trailing, offset: pos, path: String::new() }
            } else {
                Outcome::Decoded { value, pos }
            }
        },
        Err(UFail::Incomplete { needed }) => {
            if stream {
                Outcome::Incomplete { needed }
            } else {
                Outcome::Invalid { kind: Kind::Truncated, offset: buf.len(), path: String::new() }
            }
        },
        Err(UFail::Invalid(inv)) => {
            let path = format_path(inv.path.as_slice());
            proof { dec::lemma_path_text(inv.path@, inv.path@.len()); }
            Outcome::Invalid { kind: inv.kind, offset: inv.offset, path }
        },
    }
}

/// A digest field read in this scope, verified when the scope ends.
struct Deferred {
    op: usize,
    read: DigestVal,
    field_start: usize,
    field_end: usize,
    key: String,
}

spec fn digest_view(d: DigestVal) -> dec::DigestV {
    match d {
        DigestVal::Int(u) => dec::DigestV::Int(u),
        DigestVal::Bytes(b) => dec::DigestV::Bytes(b@),
    }
}

spec fn def_view(d: Deferred) -> dec::DefV {
    dec::DefV { op: d.op as int, read: digest_view(d.read), start: d.field_start as int, end: d.field_end as int, key: d.key@ }
}

spec fn defs_view(ds: Seq<Deferred>) -> Seq<dec::DefV> {
    ds.map_values(|d: Deferred| def_view(d))
}

/// Two digests are the same value of the same kind.
spec fn digest_same(a: DigestVal, b: DigestVal) -> bool {
    match (a, b) {
        (DigestVal::Int(x), DigestVal::Int(y)) => x == y,
        (DigestVal::Bytes(x), DigestVal::Bytes(y)) => x@ == y@,
        _ => false,
    }
}

fn digest_eq(a: &DigestVal, b: &DigestVal) -> (r: bool)
    ensures
        r == digest_same(*a, *b),
{
    match (a, b) {
        (DigestVal::Int(x), DigestVal::Int(y)) => *x == *y,
        (DigestVal::Bytes(x), DigestVal::Bytes(y)) => bytes_eq(x.as_slice(), y.as_slice()),
        _ => false,
    }
}

/// The digest a scope's bytes give: over the whole scope with the digest
/// field itself read as zeros, or over the named fields' spans in order.
fn compute_digest(
    buf: &[u8],
    algo: &Algo,
    over: &Over,
    scope_start: usize,
    scope_end: usize,
    field_start: usize,
    field_end: usize,
    spans: &[(usize, usize); 16],
) -> (r: Option<DigestVal>)
    requires
        algo_ok(*algo),
        scope_end <= buf@.len(),
    ensures
        match dec::digest_input(buf@, *over, scope_start as int, scope_end as int, field_start as int, field_end as int, *spans) {
            Some(data) => r matches Some(c) && digest_is(c, *algo, data),
            None => r is None,
        },
{
    let mut h = Hasher::new(algo);
    match over {
        Over::Star => {
            if !(scope_start <= field_start && field_start <= field_end && field_end <= scope_end) {
                return None;
            }
            h.update_range(buf, scope_start, field_start);
            h.update_zeros(field_end - field_start);
            h.update_range(buf, field_end, scope_end);
            proof {
                assert(h.fed() =~= buf@.subrange(scope_start as int, field_start as int)
                    + Seq::new((field_end - field_start) as nat, |i: int| 0u8)
                    + buf@.subrange(field_end as int, scope_end as int));
            }
        },
        Over::Spans(idxs) => {
            let mut k: usize = 0;
            proof {
                if let Some(rest) = dec::span_bytes(buf@, idxs@, 0, *spans) {
                    assert(h.fed() + rest =~= rest);
                }
            }
            while k < idxs.len()
                invariant
                    h.wf(),
                    h.algo() == *algo,
                    scope_end <= buf@.len(),
                    k <= idxs@.len(),
                    *over == Over::Spans(*idxs),
                    dec::span_bytes(buf@, idxs@, 0, *spans) == match dec::span_bytes(buf@, idxs@, k as int, *spans) {
                        Some(rest) => Some(h.fed() + rest),
                        None => None::<Seq<u8>>,
                    },
                decreases idxs@.len() - k,
            {
                let i = idxs[k] as usize;
                if i >= MAX_SPANS {
                    proof {
                        assert(dec::span_bytes(buf@, idxs@, k as int, *spans) is None);
                        assert(dec::span_bytes(buf@, idxs@, 0, *spans) is None);
                        assert(dec::digest_input(buf@, *over, scope_start as int, scope_end as int, field_start as int, field_end as int, *spans) is None);
                    }
                    return None;
                }
                let (s, e) = spans[i];
                if !(s <= e && e <= buf.len()) {
                    proof {
                        assert(dec::span_bytes(buf@, idxs@, k as int, *spans) is None);
                        assert(dec::span_bytes(buf@, idxs@, 0, *spans) is None);
                        assert(dec::digest_input(buf@, *over, scope_start as int, scope_end as int, field_start as int, field_end as int, *spans) is None);
                    }
                    return None;
                }
                let ghost f0 = h.fed();
                h.update_range(buf, s, e);
                proof {
                    if let Some(rest) = dec::span_bytes(buf@, idxs@, k + 1, *spans) {
                        assert(f0 + (buf@.subrange(s as int, e as int) + rest) =~= h.fed() + rest);
                    }
                }
                k = k + 1;
            }
            proof { assert(h.fed() + Seq::<u8>::empty() =~= h.fed()); }
        },
    }
    Some(h.finalize())
}

/// Comparing a computed digest with the one read is checking the one read.
proof fn lemma_digest_check(c: DigestVal, read: DigestVal, algo: Algo, data: Seq<u8>)
    requires
        digest_is(c, algo, data),
    ensures
        digest_same(c, read) == dec::digest_ok(algo, digest_view(read), data),
{
}

fn run_struct(buf: &[u8], fr: &mut Frames, prog: &Program, pos: usize, limit: usize) -> (r: Result<(Value, usize), UFail>)
    requires
        old(fr).wf(),
        pos <= limit <= buf@.len(),
    ensures
        final(fr).wf(),
        final(fr).depth() == old(fr).depth(),
        match r {
            Ok((_, end)) => pos <= end <= limit,
            Err(e) => fail_in(e, buf@.len()),
        },
        old(fr).depth() < MAX_DEPTH && static_run(*prog) ==> static_decodes(*prog, buf@, pos as int, limit as int, r),
        value_res(r, final(fr)@, dec::dec_struct(*prog, buf@, old(fr)@, pos as int, limit as int)),
    decreases prog, 1nat,
{
    if fr.regs.len() >= MAX_DEPTH {
        return Err(fail(Kind::Depth, pos));
    }
    let rf = RegFrame::new();
    proof { assert(rf.regs =~= dec::fresh_regs().regs); }
    fr.regs.push(rf);
    fr.spans.push([(0usize, 0usize); 16]);
    proof { assert(fr@ == dec::push_frame(old(fr)@)); }
    let r = run_struct_inner(buf, fr, prog, pos, limit);
    let ghost inner = fr@;
    fr.regs.pop();
    fr.spans.pop();
    proof { assert(fr@ == dec::pop_frame(inner)); }
    r
}

/// A static run decodes where every item's bytes read, into its items'
/// values under their names.
pub open spec fn static_decodes(prog: Program, buf: Seq<u8>, pos: int, limit: int, r: Result<(Value, usize), UFail>) -> bool {
    match prog.ops@[0] {
        Op::Fixed { width, items } => {
            &&& pos + width <= limit ==> {
                &&& (r is Ok <==> forall|j: int| 0 <= j < items@.len() ==> #[trigger] item_reads(items@[j], item_raw(buf, pos, items@[j])))
                &&& (r matches Ok((v, end)) ==> end == pos + width && (v matches Value::Dict(m) && entries_are(items@, buf, pos, m@, 0)))
            }
            &&& pos + width > limit ==> (r matches Err(e) && match e {
                UFail::Incomplete { needed } => limit == buf.len() && needed == pos + width - buf.len(),
                UFail::Invalid(inv) => limit != buf.len() && inv.kind == Kind::Truncated,
            })
        },
        _ => true,
    }
}

#[verifier::loop_isolation(false)]
fn run_struct_inner(buf: &[u8], fr: &mut Frames, prog: &Program, pos: usize, limit: usize) -> (r: Result<(Value, usize), UFail>)
    requires
        old(fr).wf(),
        old(fr).depth() > 0,
        pos <= limit <= buf@.len(),
    ensures
        final(fr).wf(),
        final(fr).depth() == old(fr).depth(),
        match r {
            Ok((_, end)) => pos <= end <= limit,
            Err(e) => fail_in(e, buf@.len()),
        },
        static_run(*prog) ==> static_decodes(*prog, buf@, pos as int, limit as int, r),
        match dec::dec_ops(*prog, 0, buf@, old(fr)@, pos as int, pos as int, limit as int, Seq::empty(), Seq::empty()) {
            Ok((end, st1, m, defs)) => match dec::check_digests(*prog, buf@, pos as int, end, st1.spans.last(), defs, 0) {
                Some(f) => r matches Err(e) && fail_view(e) == f,
                None => r matches Ok((v, e)) && v@ == ValueV::Dict(m) && e == end && final(fr)@ == st1,
            },
            Err(f) => r matches Err(e) && fail_view(e) == f,
        },
    decreases prog, 0nat,
{
    let scope_start = pos;
    let mut p = pos;
    let mut map: Vec<(String, Value)> = Vec::new();
    let mut deferred: Vec<Deferred> = Vec::new();
    let mut i: usize = 0;
    proof {
        assert(defs_view(deferred@) =~= Seq::<dec::DefV>::empty());
        assert(mview(map@) =~= Seq::<(Seq<char>, ValueV)>::empty());
    }
    while i < prog.ops.len()
        invariant
            fr.wf(),
            fr.depth() == old(fr).depth(),
            fr.depth() > 0,
            pos <= p <= limit <= buf@.len(),
            scope_start == pos,
            forall|j: int| 0 <= j < deferred@.len() ==> #[trigger] deferred@[j].field_start <= buf@.len(),
            i <= prog.ops@.len(),
            static_run(*prog) && i == 0 ==> map@.len() == 0 && p == pos && deferred@.len() == 0,
            dec::dec_ops(*prog, 0, buf@, old(fr)@, pos as int, pos as int, limit as int, Seq::empty(), Seq::empty())
                == dec::dec_ops(*prog, i as int, buf@, fr@, pos as int, p as int, limit as int, mview(map@), defs_view(deferred@)),
            static_run(*prog) && i == 1 ==> match prog.ops@[0] {
                Op::Fixed { width, items } => {
                    &&& pos + width <= limit
                    &&& p == pos + width
                    &&& deferred@.len() == 0
                    &&& forall|j: int| 0 <= j < items@.len() ==> #[trigger] item_reads(items@[j], item_raw(buf@, pos as int, items@[j]))
                    &&& entries_are(items@, buf@, pos as int, map@, 0)
                },
                _ => true,
            },
        decreases prog.ops@.len() - i,
    {
        proof { assert(decreases_to!(prog => prog.ops@[i as int])); }
        p = run_op(buf, fr, &prog.ops[i], i, p, limit, &mut map, &mut deferred)?;
        i = i + 1;
    }
    let ghost st1 = fr@;
    // Digests are verified on scope exit, in declaration order.
    let n = fr.spans.len();
    let spans = fr.spans[n - 1];
    let mut k: usize = 0;
    while k < deferred.len()
        invariant
            fr.wf(),
            fr.depth() == old(fr).depth(),
            pos <= p <= limit <= buf@.len(),
            scope_start == pos,
            forall|j: int| 0 <= j < deferred@.len() ==> #[trigger] deferred@[j].field_start <= buf@.len(),
            fr@ == st1,
            spans == st1.spans.last(),
            k <= deferred@.len(),
            dec::dec_ops(*prog, 0, buf@, old(fr)@, pos as int, pos as int, limit as int, Seq::empty(), Seq::empty())
                == Ok::<dec::OpOut, FailV>((p as int, st1, mview(map@), defs_view(deferred@))),
            dec::check_digests(*prog, buf@, pos as int, p as int, spans, defs_view(deferred@), 0)
                == dec::check_digests(*prog, buf@, pos as int, p as int, spans, defs_view(deferred@), k as int),
        decreases deferred@.len() - k,
    {
        let d = &deferred[k];
        proof { assert(defs_view(deferred@)[k as int] == def_view(*d)); }
        if d.op < prog.ops.len() {
            match &prog.ops[d.op] {
                Op::Digest { algo, over, verify, .. } => {
                    if *verify {
                        let ok = algo.runnable() && match compute_digest(buf, algo, over, scope_start, p, d.field_start, d.field_end, &spans) {
                            Some(computed) => {
                                proof {
                                    let data = dec::digest_input(buf@, *over, scope_start as int, p as int, d.field_start as int, d.field_end as int, spans)->Some_0;
                                    lemma_digest_check(computed, d.read, *algo, data);
                                }
                                digest_eq(&computed, &d.read)
                            },
                            None => false,
                        };
                        if !ok {
                            let e = fail(Kind::Checksum, d.field_start);
                            let sg = Seg::Field(d.key.clone());
                            let r = e.seg(sg);
                            proof {
                                dec::lemma_seg_fail(e, sg, r);
                                assert(Seq::<dec::SegV>::empty().push(dec::SegV::Field(d.key@)) =~= seq![dec::SegV::Field(d.key@)]);
                            }
                            return Err(r);
                        }
                    }
                },
                _ => {},
            }
        }
        k = k + 1;
    }
    Ok((Value::Dict(map), p))
}

fn insert(map: &mut Vec<(String, Value)>, key: &Key, v: Value)
    ensures
        match key {
            Key::Named(n) => final(map)@ == old(map)@.push((*n, v)),
            Key::Skip => final(map)@ == old(map)@,
        },
        mview(final(map)@) == dec::put(mview(old(map)@), *key, v@),
{
    if let Key::Named(n) = key {
        let ghost m0 = map@;
        let e = (n.clone(), v);
        map.push(e);
        proof { lemma_entries_push(m0, e); }
    }
}

#[verifier::loop_isolation(false)]
fn run_op(
    buf: &[u8],
    fr: &mut Frames,
    op: &Op,
    op_idx: usize,
    pos: usize,
    limit: usize,
    map: &mut Vec<(String, Value)>,
    deferred: &mut Vec<Deferred>,
) -> (r: Result<usize, UFail>)
    requires
        old(fr).wf(),
        old(fr).depth() > 0,
        pos <= limit <= buf@.len(),
        forall|j: int| 0 <= j < old(deferred)@.len() ==> #[trigger] old(deferred)@[j].field_start <= buf@.len(),
    ensures
        final(fr).wf(),
        final(fr).depth() == old(fr).depth(),
        match r {
            Ok(end) => pos <= end <= limit,
            Err(e) => fail_in(e, buf@.len()),
        },
        forall|j: int| 0 <= j < final(deferred)@.len() ==> #[trigger] final(deferred)@[j].field_start <= buf@.len(),
        op is Fixed ==> final(deferred)@ == old(deferred)@,
        match *op {
            Op::Fixed { width, .. } => pos + width > limit ==> (r matches Err(e) && match e {
                UFail::Incomplete { needed } => limit == buf@.len() && needed == pos + width - buf@.len(),
                UFail::Invalid(inv) => limit != buf@.len() && inv.kind == Kind::Truncated,
            }),
            _ => true,
        },
        match *op {
            Op::Fixed { width, items } => (items_tile(items@, width as nat) && items_plain(items@) && pos + width <= limit) ==> {
                &&& (r is Ok <==> forall|j: int| 0 <= j < items@.len() ==> #[trigger] item_reads(items@[j], item_raw(buf@, pos as int, items@[j])))
                &&& (r is Ok ==> r->Ok_0 == pos + width && final(map)@.subrange(0, old(map)@.len() as int) == old(map)@
                    && entries_are(items@, buf@, pos as int, final(map)@, old(map)@.len() as int))
            },
            _ => true,
        },
        match dec::dec_op(*op, op_idx as int, buf@, old(fr)@, pos as int, limit as int, mview(old(map)@), defs_view(old(deferred)@)) {
            Ok((end, st, m, d)) => r matches Ok(e) && e == end && final(fr)@ == st && mview(final(map)@) == m
                && defs_view(final(deferred)@) == d,
            Err(f) => r matches Err(e) && fail_view(e) == f,
        },
    decreases op, 2nat,
{
    match op {
        Op::Fixed { width, items } => run_fixed(buf, fr, *width, items, pos, limit, map),
        Op::BitRun { nbytes, items } => run_bits(buf, fr, *nbytes, items, pos, limit, map),
        Op::Digest { algo, be, c, .. } => {
            let w = algo.width_bytes();
            match need(buf, pos, limit, w) {
                Ok(()) => {},
                Err(e) => return Err(push_key(e, &c.key)),
            }
            let (value, read) = if algo.is_int() && w <= 8 {
                let u = read_uint_at(buf, pos, w, *be);
                (Value::Int(u as i128), DigestVal::Int(u))
            } else {
                let b = copy_range(buf, pos, pos + w);
                let b2 = copy_range(buf, pos, pos + w);
                (Value::Bytes(b), DigestVal::Bytes(b2))
            };
            let key = match &c.key {
                Key::Named(n) => n.clone(),
                Key::Skip => String::new(),
            };
            deferred.push(Deferred { op: op_idx, read, field_start: pos, field_end: pos + w, key });
            set_span(fr, c.span, pos, pos + w);
            insert(map, &c.key, value);
            Ok(pos + w)
        },
        Op::Cond { pred, then, c } => {
            if eval(fr, pred, pos)? != 0 {
                let (v, end) = match op_value(buf, fr, then, pos, limit) {
                    Ok(x) => x,
                    Err(e) => return Err(push_key(e, &c.key)),
                };
                set_span(fr, c.span, pos, end);
                insert(map, &c.key, v);
                Ok(end)
            } else {
                Ok(pos)
            }
        },
        Op::Bytes { c, .. } | Op::Str { c, .. } | Op::CStr { c, .. } | Op::Flags { c, .. }
        | Op::Nest { c, .. } | Op::Array { c, .. } | Op::Switch { c, .. } => {
            let (v, end) = match op_value(buf, fr, op, pos, limit) {
                Ok(x) => x,
                Err(e) => return Err(push_key(e, &c.key)),
            };
            set_span(fr, c.span, pos, end);
            insert(map, &c.key, v);
            Ok(end)
        },
    }
}

/// A run of fixed-width fields: one bounds check, then each item read and
/// put under its name.
#[verifier::loop_isolation(false)]
fn run_fixed(buf: &[u8], fr: &mut Frames, width: usize, items: &Vec<FixedItem>, pos: usize, limit: usize, map: &mut Vec<(String, Value)>) -> (r: Result<usize, UFail>)
    requires
        old(fr).wf(),
        old(fr).depth() > 0,
        pos <= limit <= buf@.len(),
    ensures
        final(fr).wf(),
        final(fr).depth() == old(fr).depth(),
        match r {
            Ok(end) => pos <= end <= limit,
            Err(e) => fail_in(e, buf@.len()),
        },
        pos + width > limit ==> (r matches Err(e) && match e {
            UFail::Incomplete { needed } => limit == buf@.len() && needed == pos + width - buf@.len(),
            UFail::Invalid(inv) => limit != buf@.len() && inv.kind == Kind::Truncated,
        }),
        (items_tile(items@, width as nat) && items_plain(items@) && pos + width <= limit) ==> {
            &&& (r is Ok <==> forall|j: int| 0 <= j < items@.len() ==> #[trigger] item_reads(items@[j], item_raw(buf@, pos as int, items@[j])))
            &&& (r is Ok ==> r->Ok_0 == pos + width && final(map)@.subrange(0, old(map)@.len() as int) == old(map)@
                && entries_are(items@, buf@, pos as int, final(map)@, old(map)@.len() as int))
        },
        match dec::need(buf@.len() as int, pos as int, limit as int, width as int) {
            Some(f) => r matches Err(e) && fail_view(e) == f,
            None => match dec::fixed_items(items@, 0, buf@, old(fr)@, pos as int, pos + width, mview(old(map)@)) {
                Ok((st, m)) => r matches Ok(e) && e == pos + width && final(fr)@ == st && mview(final(map)@) == m,
                Err(f) => r matches Err(e) && fail_view(e) == f,
            },
        },
{
    need(buf, pos, limit, width)?;
    let ghost plain = items_tile(items@, width as nat) && items_plain(items@);
    let ghost m0 = map@;
    let mut k: usize = 0;
    while k < items.len()
        invariant
            fr.wf(),
            fr.depth() == old(fr).depth(),
            pos + width <= limit <= buf@.len(),
            m0 == old(map)@,
            k <= items@.len(),
            dec::fixed_items(items@, 0, buf@, old(fr)@, pos as int, pos + width, mview(m0))
                == dec::fixed_items(items@, k as int, buf@, fr@, pos as int, pos + width, mview(map@)),
            plain == (items_tile(items@, width as nat) && items_plain(items@)),
            plain ==> map@.len() == m0.len() + k && map@.subrange(0, m0.len() as int) == m0,
            plain ==> forall|j: int| 0 <= j < k ==> #[trigger] item_reads(items@[j], item_raw(buf@, pos as int, items@[j])),
            plain ==> forall|j: int| 0 <= j < k ==> {
                &&& #[trigger] items@[j].key == Key::Named(map@[m0.len() + j].0)
                &&& item_value(items@[j], item_raw(buf@, pos as int, items@[j]), map@[m0.len() + j].1)
            },
        decreases items@.len() - k,
    {
        let item = &items[k];
        proof {
            if plain {
                crate::fixed::lemma_offset_mono(items@, (k + 1) as nat, items@.len());
                assert(items@[k as int].off == offset_sum(items@, k as nat));
            }
        }
        let ghost mk = map@;
        let v = match read_fixed_item(buf, fr, item, pos, pos + width) {
            Ok(v) => v,
            Err(e) => {
                proof {
                    if plain {
                        assert(!item_reads(items@[k as int], item_raw(buf@, pos as int, items@[k as int])));
                    }
                }
                return Err(push_key(e, &item.key));
            },
        };
        insert(map, &item.key, v);
        proof {
            if plain {
                assert(items@[k as int].key is Named);
                assert(map@ == mk.push((items@[k as int].key->Named_0, v)));
                assert(map@.subrange(0, m0.len() as int) =~= m0);
                assert forall|j: int| 0 <= j < k + 1 implies {
                    &&& #[trigger] items@[j].key == Key::Named(map@[m0.len() + j].0)
                    &&& item_value(items@[j], item_raw(buf@, pos as int, items@[j]), map@[m0.len() + j].1)
                } by {
                    if j < k {
                        assert(map@[m0.len() + j] == mk[m0.len() + j]);
                    }
                }
            }
        }
        k = k + 1;
    }
    proof {
        if plain {
            assert(entries_are(items@, buf@, pos as int, map@, m0.len() as int));
        }
    }
    Ok(pos + width)

}

/// A run of bit fields, MSB first: one bounds check, then each item read
/// and put under its name.
#[verifier::loop_isolation(false)]
fn run_bits(buf: &[u8], fr: &mut Frames, nbytes: usize, items: &Vec<BitItem>, pos: usize, limit: usize, map: &mut Vec<(String, Value)>) -> (r: Result<usize, UFail>)
    requires
        old(fr).wf(),
        old(fr).depth() > 0,
        pos <= limit <= buf@.len(),
    ensures
        final(fr).wf(),
        final(fr).depth() == old(fr).depth(),
        match r {
            Ok(end) => pos <= end <= limit,
            Err(e) => fail_in(e, buf@.len()),
        },
        match dec::need(buf@.len() as int, pos as int, limit as int, nbytes as int) {
            Some(f) => r matches Err(e) && fail_view(e) == f,
            None => match dec::bit_items(items@, 0, 0, nbytes as int, buf@, old(fr)@, pos as int, mview(old(map)@)) {
                Ok((st, m)) => r matches Ok(e) && e == pos + nbytes && final(fr)@ == st && mview(final(map)@) == m,
                Err(f) => r matches Err(e) && fail_view(e) == f,
            },
        },
{
    need(buf, pos, limit, nbytes)?;
    let mut bitpos: u32 = 0;
    let mut k: usize = 0;
    while k < items.len()
        invariant
            fr.wf(),
            fr.depth() == old(fr).depth(),
            pos + nbytes <= limit <= buf@.len(),
            k <= items@.len(),
            dec::bit_items(items@, 0, 0, nbytes as int, buf@, old(fr)@, pos as int, mview(old(map)@))
                == dec::bit_items(items@, k as int, bitpos as int, nbytes as int, buf@, fr@, pos as int, mview(map@)),
        decreases items@.len() - k,
    {
        let item = &items[k];
        let w = item.width;
        if w < 1 || w > 64 || bitpos > 0x1000_0000 || (bitpos as usize + w as usize + 7) / 8 > nbytes {
            return Err(push_key(fail(Kind::Truncated, pos), &item.key));
        }
        let v = read_bits(buf, pos, bitpos, w, item.signed);
        bitpos = bitpos + w as u32;
        if let Some(reg) = item.reg {
            if v < i64::MIN as i128 || v > i64::MAX as i128 {
                return Err(push_key(fail(Kind::Overflow, pos), &item.key));
            }
            set_reg(fr, reg, v as i64);
        }
        insert(map, &item.key, Value::Int(v));
        k = k + 1;
    }
    Ok(pos + nbytes)

}

/// A copy of `buf[start..end]`.
fn copy_range(buf: &[u8], start: usize, end: usize) -> (r: Vec<u8>)
    requires
        start <= end <= buf@.len(),
    ensures
        r@ == buf@.subrange(start as int, end as int),
{
    let mut out: Vec<u8> = Vec::new();
    let mut i = start;
    while i < end
        invariant
            start <= i <= end <= buf@.len(),
            out@ == buf@.subrange(start as int, i as int),
        decreases end - i,
    {
        out.push(buf[i]);
        proof { assert(out@ =~= buf@.subrange(start as int, i + 1)); }
        i = i + 1;
    }
    out
}

/// The unsigned value of the `w` (at most 8) bytes at `pos`.
fn read_uint_at(buf: &[u8], pos: usize, w: usize, be: bool) -> (v: u64)
    requires
        w <= 8,
        pos + w <= buf@.len(),
    ensures
        v == uint_value(buf@.subrange(pos as int, pos + w), be),
{
    let n = buf.len();
    let end = pos + w;
    let raw = copy_range(buf, pos, end);
    read_uint(raw.as_slice(), be)
}

/// The value of one fixed-width item of a run that starts at `base` and
/// ends at `end`. An integer reads as `int_value` of its bytes; one with an
/// expected value that differs fails with `Const`.
fn read_fixed_item(buf: &[u8], fr: &mut Frames, item: &FixedItem, base: usize, end: usize) -> (r: Result<Value, UFail>)
    requires
        old(fr).wf(),
        base <= end <= buf@.len(),
    ensures
        final(fr).wf(),
        final(fr).depth() == old(fr).depth(),
        r matches Err(e) ==> fail_in(e, buf@.len()),
        r is Ok ==> item.off + item.kind.spec_width() <= end - base,
        item.off + item.kind.spec_width() <= end - base ==> (r is Ok <==> item_reads(*item, item_raw(buf@, base as int, *item))),
        r matches Ok(v) ==> item_value(*item, item_raw(buf@, base as int, *item), v),
        match (item.kind, r) {
            (FixKind::Int { prim, be, expected, .. }, Ok(v)) => {
                let raw = buf@.subrange(base + item.off, base + item.off + prim.spec_width());
                v == Value::Int(int_value(prim, be, raw) as i128) && (expected matches Some(x) ==> x == int_value(prim, be, raw))
            },
            _ => true,
        },
        match dec::fixed_item(*item, buf@, old(fr)@, base as int, end as int) {
            Ok((vv, st)) => r matches Ok(v) && v@ == vv && final(fr)@ == st,
            Err(f) => r matches Err(e) && fail_view(e) == f,
        },
{
    let w = item.kind.width();
    if item.off > end - base || w > end - base - item.off {
        return Err(fail(Kind::Truncated, base));
    }
    let pos = base + item.off;
    match &item.kind {
        FixKind::Int { prim, be, expected, .. } => {
            let raw = copy_range(buf, pos, pos + w);
            let v: i128 = if prim.signed() {
                read_sint(raw.as_slice(), *be)
            } else {
                read_uint(raw.as_slice(), *be) as i128
            };
            if let Some(exp) = expected {
                if v != *exp {
                    return Err(fail(Kind::Const, pos));
                }
            }
            if let Some(reg) = item.reg {
                if v < i64::MIN as i128 || v > i64::MAX as i128 {
                    return Err(fail(Kind::Overflow, pos));
                }
                set_reg(fr, reg, v as i64);
            }
            set_span(fr, item.span, pos, pos + w);
            Ok(Value::Int(v))
        },
        FixKind::F32 { be } => {
            let b = read_uint_at(buf, pos, 4, *be) as u32;
            set_span(fr, item.span, pos, pos + 4);
            Ok(Value::Float(widen_f32_bits(b)))
        },
        FixKind::F64 { be } => {
            let b = read_uint_at(buf, pos, 8, *be);
            set_span(fr, item.span, pos, pos + 8);
            Ok(Value::Float(b))
        },
        FixKind::Bool { expected } => {
            let v = buf[pos] != 0;
            if let Some(exp) = expected {
                if v != *exp {
                    return Err(fail(Kind::Const, pos));
                }
            }
            set_span(fr, item.span, pos, pos + 1);
            Ok(Value::Bool(v))
        },
        FixKind::Raw { len, expected } => {
            let raw = copy_range(buf, pos, pos + *len);
            if let Some(exp) = expected {
                if !bytes_eq(raw.as_slice(), exp.as_slice()) {
                    return Err(fail(Kind::Const, pos));
                }
            }
            set_span(fr, item.span, pos, pos + *len);
            Ok(Value::Bytes(raw))
        },
    }
}

/// Whether two byte slices are equal.
pub fn bytes_eq(a: &[u8], b: &[u8]) -> (r: bool)
    ensures
        r == (a@ == b@),
{
    if a.len() != b.len() {
        return false;
    }
    let mut i: usize = 0;
    while i < a.len()
        invariant
            a@.len() == b@.len(),
            i <= a@.len(),
            forall|j: int| 0 <= j < i ==> a@[j] == b@[j],
        decreases a@.len() - i,
    {
        if a[i] != b[i] {
            return false;
        }
        i = i + 1;
    }
    proof { assert(a@ =~= b@); }
    true
}

/// The value of a single opcode, shared between struct fields and the
/// position of an array element or switch branch.
fn op_value(buf: &[u8], fr: &mut Frames, op: &Op, pos: usize, limit: usize) -> (r: Result<(Value, usize), UFail>)
    requires
        old(fr).wf(),
        old(fr).depth() > 0,
        pos <= limit <= buf@.len(),
    ensures
        final(fr).wf(),
        final(fr).depth() == old(fr).depth(),
        match r {
            Ok((_, end)) => pos <= end <= limit,
            Err(e) => fail_in(e, buf@.len()),
        },
        value_res(r, final(fr)@, dec::dec_value(*op, buf@, old(fr)@, pos as int, limit as int)),
    decreases op, 1nat,
{
    match op {
        Op::Fixed { width, items } => {
            need(buf, pos, limit, *width)?;
            if items.len() != 1 {
                return Err(fail(Kind::Truncated, pos));
            }
            let v = read_fixed_item(buf, fr, &items[0], pos, pos + *width)?;
            Ok((v, pos + *width))
        },
        Op::Bytes { len, max, .. } => {
            let n = resolve_len(fr, len, *max, pos, limit)?;
            need(buf, pos, limit, n)?;
            Ok((Value::Bytes(copy_range(buf, pos, pos + n)), pos + n))
        },
        Op::Str { len, max, enc, .. } => {
            let n = resolve_len(fr, len, *max, pos, limit)?;
            need(buf, pos, limit, n)?;
            let raw = copy_range(buf, pos, pos + n);
            match decode(raw.as_slice(), *enc) {
                Some(s) => Ok((Value::Str(s), pos + n)),
                None => Err(fail(Kind::Decode, pos)),
            }
        },
        Op::CStr { max, enc, .. } => do_cstr(buf, *max, *enc, pos, limit),
        Op::Flags { prim, be, items, rest, rest_mask, .. } => do_flags(buf, *prim, *be, items, *rest, *rest_mask, pos, limit),
        Op::Nest { prog, size, .. } => {
            proof { assert(decreases_to!(op => **prog)); }
            match size {
                None => run_struct(buf, fr, prog, pos, limit),
                Some(LenSrc::Greedy) => Err(fail(Kind::Truncated, pos)),
                Some(LenSrc::Expr { expr, .. }) => {
                    let sz = eval_len(fr, expr, pos)?;
                    need(buf, pos, limit, sz)?;
                    let wlimit = pos + sz;
                    let (v, end) = run_struct(buf, fr, prog, pos, wlimit)?;
                    if end != wlimit {
                        return Err(fail(Kind::Trailing, end));
                    }
                    Ok((v, wlimit))
                },
            }
        },
        Op::Array { count, max_count, elem, .. } => {
            proof { assert(decreases_to!(op => **elem)); }
            let mut p = pos;
            let mut out: Vec<Value> = Vec::new();
            match count {
                CountSrc::Expr { expr, .. } => {
                    let n = eval(fr, expr, p)?;
                    if n < 0 {
                        return Err(fail(Kind::NegativeLen, p));
                    }
                    if n as u64 > *max_count as u64 {
                        return Err(fail(Kind::Limit, p));
                    }
                    let n = n as usize;
                    let mut i: usize = 0;
                    proof { assert(values_view(out@, out@.len()) =~= Seq::<ValueV>::empty()); }
                    while i < n
                        invariant
                            fr.wf(),
                            fr.depth() == old(fr).depth(),
                            fr.depth() > 0,
                            pos <= p <= limit <= buf@.len(),
                            decreases_to!(op => **elem),
                            i <= n,
                            *op matches Op::Array { elem: e, .. } && e == *elem,
                            dec::dec_value(*op, buf@, old(fr)@, pos as int, limit as int)
                                == dec::dec_elems(*op, n as int, i as int, buf@, fr@, p as int, limit as int, values_view(out@, out@.len())),
                        decreases n - i,
                    {
                        let ghost o0 = out@;
                        let (v, np) = match op_value(buf, fr, elem, p, limit) {
                            Ok(x) => x,
                            Err(e) => return Err(push_index(e, i)),
                        };
                        out.push(v);
                        proof { lemma_values_push(o0, v); }
                        p = np;
                        i = i + 1;
                    }
                    Ok((Value::List(out), p))
                },
                CountSrc::UntilEof => {
                    let mut i: usize = 0;
                    proof { assert(values_view(out@, out@.len()) =~= Seq::<ValueV>::empty()); }
                    while p < limit
                        invariant
                            fr.wf(),
                            fr.depth() == old(fr).depth(),
                            fr.depth() > 0,
                            pos <= p <= limit <= buf@.len(),
                            decreases_to!(op => **elem),
                            *op matches Op::Array { elem: e, max_count: m, .. } && e == *elem && m == *max_count,
                            dec::dec_value(*op, buf@, old(fr)@, pos as int, limit as int)
                                == dec::dec_until_end(*op, i as int, buf@, fr@, p as int, limit as int, values_view(out@, out@.len())),
                        decreases limit - p,
                    {
                        if i >= *max_count {
                            return Err(fail(Kind::Limit, p));
                        }
                        let ghost o0 = out@;
                        let (v, np) = match op_value(buf, fr, elem, p, limit) {
                            Ok(x) => x,
                            Err(e) => return Err(push_index(e, i)),
                        };
                        if np == p {
                            // An element that consumes nothing would repeat forever.
                            return Err(fail(Kind::Limit, p));
                        }
                        out.push(v);
                        proof { lemma_values_push(o0, v); }
                        p = np;
                        i = i + 1;
                    }
                    Ok((Value::List(out), p))
                },
            }
        },
        Op::Switch { on, cases, default, .. } => {
            let tag = eval(fr, on, pos)?;
            proof {
                assert forall|j: int| 0 <= j < cases@.len() implies decreases_to!(op => *cases@[j].1) by {
                    assert(decreases_to!(op => *cases));
                    assert(decreases_to!(*cases => cases@));
                    assert(decreases_to!(cases@ => cases@[j]));
                    assert(decreases_to!(cases@[j] => cases@[j].1));
                }
            }
            let mut k: usize = 0;
            while k < cases.len()
                invariant
                    fr.wf(),
                    fr.depth() == old(fr).depth(),
                    fr.depth() > 0,
                    pos <= limit <= buf@.len(),
                    forall|j: int| 0 <= j < cases@.len() ==> decreases_to!(op => *cases@[j].1),
                    fr@ == old(fr)@,
                    *op matches Op::Switch { cases: cs, default: d, .. } && cs == *cases && d == *default,
                    dec::dec_value(*op, buf@, old(fr)@, pos as int, limit as int)
                        == dec::dec_case(*op, tag, k as int, buf@, fr@, pos as int, limit as int),
                decreases cases@.len() - k,
            {
                if cases[k].0 == tag {
                    proof { assert(decreases_to!(op => *cases@[k as int].1)); }
                    return op_value(buf, fr, &cases[k].1, pos, limit);
                }
                k = k + 1;
            }
            match default {
                Some(d) => {
                    proof { assert(decreases_to!(op => **d)); }
                    op_value(buf, fr, d, pos, limit)
                },
                None => Err(fail(Kind::NoCase, pos)),
            }
        },
        Op::BitRun { .. } | Op::Digest { .. } | Op::Cond { .. } => {
            // Not a value position: the compiler never puts these here.
            Err(fail(Kind::Type, pos))
        },
    }
}

fn resolve_len(fr: &Frames, len: &LenSrc, max: usize, pos: usize, limit: usize) -> (r: Result<usize, UFail>)
    requires
        pos <= limit,
    ensures
        r matches Ok(n) ==> n <= max,
        r matches Err(e) ==> e matches UFail::Invalid(inv) && inv.offset == pos,
        match dec::resolve_len(fr@, *len, max, pos as int, limit as int) {
            Ok(n) => r matches Ok(m) && m == n,
            Err(f) => r matches Err(e) && fail_view(e) == f,
        },
{
    let n = match len {
        LenSrc::Greedy => limit - pos,
        LenSrc::Expr { expr, .. } => eval_len(fr, expr, pos)?,
    };
    if n > max {
        let e = fail(Kind::Limit, pos);
        proof { dec::lemma_fresh_fail(e); }
        return Err(e);
    }
    Ok(n)
}

fn do_flags(
    buf: &[u8],
    prim: IntPrim,
    be: bool,
    items: &Vec<FlagItem>,
    rest: RestPolicy,
    rest_mask: u64,
    pos: usize,
    limit: usize,
) -> (r: Result<(Value, usize), UFail>)
    requires
        pos <= limit <= buf@.len(),
    ensures
        match r {
            Ok((_, end)) => pos <= end <= limit,
            Err(e) => fail_in(e, buf@.len()),
        },
        pos + prim.spec_width() > limit ==> r is Err,
        pos + prim.spec_width() <= limit ==> ({
            let raw = uint_value(buf@.subrange(pos as int, pos + prim.spec_width()), be) as u64;
            &&& (r is Ok <==> !(rest is Strict && raw & rest_mask != 0))
            &&& (r matches Ok((v, end)) ==> {
                &&& end == pos + prim.spec_width()
                &&& v matches Value::Dict(fm)
                &&& flags_read(fm@, items@, rest, rest_mask, raw)
            })
            &&& (r matches Err(e) ==> e matches UFail::Invalid(inv) && inv.kind == Kind::ReservedBits)
        }),
        match dec::flags_value(buf@, prim, be, items@, rest, rest_mask, pos as int, limit as int) {
            Ok((vv, e)) => r matches Ok((v, end)) && v@ == vv && end == e,
            Err(f) => r matches Err(u) && fail_view(u) == f,
        },
{
    let w = prim.width();
    need(buf, pos, limit, w)?;
    proof { assert(w <= 8); }
    let raw = read_uint_at(buf, pos, w, be);
    let mut fmap: Vec<(String, Value)> = Vec::new();
    let mut k: usize = 0;
    while k < items.len()
        invariant
            k <= items@.len(),
            fmap@.len() == k,
            forall|i: int| 0 <= i < k ==> (#[trigger] fmap@[i]).0@ == items@[i].key@
                && fmap@[i].1 == flag_read(items@[i], raw),
            mview(fmap@) == Seq::new(k as nat, |i: int| (items@[i].key@, flag_read(items@[i], raw).view())),
        decreases items@.len() - k,
    {
        let item = &items[k];
        let extracted = if item.shift < 64 { (raw & item.mask) >> (item.shift as u64) } else { 0 };
        let v = if item.is_bool { Value::Bool(extracted != 0) } else { Value::Int(extracted as i128) };
        proof { assert(v == flag_read(items@[k as int], raw)); }
        let ghost f0 = fmap@;
        let e = (item.key.clone(), v);
        fmap.push(e);
        proof {
            lemma_entries_push(f0, e);
            assert(mview(fmap@) =~= Seq::new((k + 1) as nat, |i: int| (items@[i].key@, flag_read(items@[i], raw).view())));
        }
        k = k + 1;
    }
    let leftover = raw & rest_mask;
    match rest {
        RestPolicy::Keep => {
            let ghost f0 = fmap@;
            let e = (string_of("_rest"), Value::Int(leftover as i128));
            fmap.push(e);
            proof {
                reveal_strlit("_rest");
                lemma_entries_push(f0, e);
            }
        },
        RestPolicy::Strict => {
            if leftover != 0 {
                return Err(fail(Kind::ReservedBits, pos));
            }
        },
        RestPolicy::Ignore => {},
    }
    Ok((Value::Dict(fmap), pos + w))
}

/// The first NUL among the `n - i` bytes of `buf` from `pos + i`, as an
/// offset from `pos`.
pub open spec fn first_nul(buf: Seq<u8>, pos: int, i: int, n: int) -> Option<int>
    decreases n - i,
{
    if i >= n {
        None
    } else if buf[pos + i] == 0 {
        Some(i)
    } else {
        first_nul(buf, pos, i + 1, n)
    }
}

/// How far a C string is searched for its NUL: up to `max` bytes and the
/// NUL, within the window.
pub open spec fn cstr_scan(max: usize, pos: usize, limit: usize) -> int {
    let window = limit - pos;
    if max < window { max + 1 } else { window }
}

fn do_cstr(buf: &[u8], max: usize, enc: Enc, pos: usize, limit: usize) -> (r: Result<(Value, usize), UFail>)
    requires
        pos <= limit <= buf@.len(),
    ensures
        match r {
            Ok((_, end)) => pos < end <= limit,
            Err(e) => fail_in(e, buf@.len()),
        },
        match first_nul(buf@, pos as int, 0, cstr_scan(max, pos, limit)) {
            Some(i) => match decode_spec(buf@.subrange(pos as int, pos + i), enc) {
                Some(t) => r matches Ok((v, end)) && end == pos + i + 1 && (v matches Value::Str(s) && s@ == t),
                None => r matches Err(e) && e matches UFail::Invalid(inv) && inv.kind == Kind::Decode,
            },
            None => if limit - pos > max {
                r matches Err(e) && e matches UFail::Invalid(inv) && inv.kind == Kind::Limit
            } else if limit == buf@.len() {
                r == Err::<(Value, usize), UFail>(UFail::Incomplete { needed: 1 })
            } else {
                r matches Err(e) && e matches UFail::Invalid(inv) && inv.kind == Kind::Unterminated
            },
        },
        match dec::cstr_value(buf@, max, enc, pos as int, limit as int) {
            Ok((vv, e)) => r matches Ok((v, end)) && v@ == vv && end == e,
            Err(f) => r matches Err(u) && fail_view(u) == f,
        },
{
    let window = limit - pos;
    let scan = if max < window { max + 1 } else { window };
    let mut i: usize = 0;
    while i < scan
        invariant
            scan <= window,
            window == limit - pos,
            scan == cstr_scan(max, pos, limit),
            pos <= limit <= buf@.len(),
            i <= scan,
            first_nul(buf@, pos as int, 0, scan as int) == first_nul(buf@, pos as int, i as int, scan as int),
        decreases scan - i,
    {
        if buf[pos + i] == 0 {
            let raw = copy_range(buf, pos, pos + i);
            return match decode(raw.as_slice(), enc) {
                Some(s) => Ok((Value::Str(s), pos + i + 1)),
                None => Err(fail(Kind::Decode, pos)),
            };
        }
        i = i + 1;
    }
    if window > max {
        Err(fail(Kind::Limit, pos))
    } else if limit == buf.len() {
        Err(UFail::Incomplete { needed: 1 })
    } else {
        Err(fail(Kind::Unterminated, pos))
    }
}

/// A C string read back packs to the bytes it was read from: the text
/// decoded from the bytes before the first NUL encodes to those bytes,
/// which hold no NUL and are no longer than `max` (so packing it writes
/// them and a NUL).
pub proof fn lemma_cstr_roundtrip(buf: Seq<u8>, enc: Enc, max: usize, pos: usize, limit: usize, i: int)
    requires
        pos <= limit <= buf.len(),
        first_nul(buf, pos as int, 0, cstr_scan(max, pos, limit)) == Some(i),
        decode_spec(buf.subrange(pos as int, pos + i), enc) is Some,
    ensures
        crate::text::encode_spec(decode_spec(buf.subrange(pos as int, pos + i), enc)->Some_0, enc)
            == Some(buf.subrange(pos as int, pos + i)),
        !buf.subrange(pos as int, pos + i).contains(0u8),
        i <= max,
        buf[pos + i] == 0,
{
    lemma_first_nul(buf, pos as int, 0, cstr_scan(max, pos, limit));
    assert forall|j: int| 0 <= j < i implies #[trigger] buf.subrange(pos as int, pos + i)[j] != 0u8 by {}
    crate::text::lemma_decode_encode(buf.subrange(pos as int, pos + i), enc);
}

/// What `first_nul` finds is a NUL with none before it, inside the search.
pub proof fn lemma_first_nul(buf: Seq<u8>, pos: int, i: int, n: int)
    requires
        0 <= i,
        0 <= pos,
        pos + n <= buf.len(),
    ensures
        first_nul(buf, pos, i, n) matches Some(k) ==> i <= k < n && buf[pos + k] == 0
            && forall|j: int| i <= j < k ==> #[trigger] buf.subrange(pos, pos + k)[j] != 0,
    decreases n - i,
{
    if i < n && buf[pos + i] != 0 {
        lemma_first_nul(buf, pos, i + 1, n);
        if let Some(k) = first_nul(buf, pos, i + 1, n) {
            assert forall|j: int| i <= j < k implies #[trigger] buf.subrange(pos, pos + k)[j] != 0 by {
                if j == i {
                    assert(buf.subrange(pos, pos + k)[j] == buf[pos + i]);
                }
            }
        }
    }
}

} // verus!
