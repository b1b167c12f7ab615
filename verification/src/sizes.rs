//! How many bytes a decode takes: an op or a program whose size is static
//! takes exactly that many bytes on every successful decode.
use vstd::prelude::*;

use crate::compile::{cases_min, cases_static, op_min_spec, op_static_spec, ops_min_sum, ops_static_sum, sat_add, sat_mul};
use crate::decoding::{dec_case, dec_elems, dec_op, dec_ops, dec_struct, dec_until_end, dec_value, eval, push_frame, unpack, DefV, FrV, OutcomeV};
use crate::expr::{eval_spec, run_prefix, Ins, RegFrame};
use crate::program::{CountSrc, LenSrc, Op, Program};
use crate::value::ValueV;

verus! {

/// Every program nested in `op` states its static size as the sum of its
/// ops' (where it states one) and its least size as the sum of theirs,
/// every array its element's least size, and so on all the way down.
pub open spec fn sizes_ok(op: Op) -> bool
    decreases op, 0nat,
{
    match op {
        Op::Nest { prog, .. } => {
            proof { assert(decreases_to!(op => (*prog).ops@)); }
            (prog.static_size matches Some(n) ==> ops_static_sum(prog.ops@) == Some(n as nat))
                && prog.min_size == ops_min_sum(prog.ops@)
                && sizes_ok_ops(prog.ops@, prog.ops@.len())
        },
        Op::Array { elem, elem_min, .. } => elem_min == op_min_spec(*elem) && sizes_ok(*elem),
        Op::Switch { cases, default, .. } => {
            proof { assert(decreases_to!(op => cases@)); }
            sizes_ok_cases(cases@, cases@.len()) && match default {
                Some(d) => sizes_ok(*d),
                None => true,
            }
        },
        Op::Cond { then, .. } => sizes_ok(*then),
        _ => true,
    }
}

/// The first `n` ops are `sizes_ok`.
pub open spec fn sizes_ok_ops(ops: Seq<Op>, n: nat) -> bool
    decreases ops, n,
{
    if n == 0 || n > ops.len() {
        true
    } else {
        proof { assert(decreases_to!(ops => ops[n - 1])); }
        sizes_ok_ops(ops, (n - 1) as nat) && sizes_ok(ops[n - 1])
    }
}

/// The first `n` cases are `sizes_ok`.
pub open spec fn sizes_ok_cases(cases: Seq<(i64, Box<Op>)>, n: nat) -> bool
    decreases cases, n,
{
    if n == 0 || n > cases.len() {
        true
    } else {
        proof {
            assert(decreases_to!(cases => cases[n - 1]));
            assert(decreases_to!(cases[n - 1] => cases[n - 1].1));
        }
        sizes_ok_cases(cases, (n - 1) as nat) && sizes_ok(*cases[n - 1].1)
    }
}

/// A program whose stated static and least sizes are the sums of its
/// ops', and whose nested programs are so too.
pub open spec fn prog_sizes_ok(prog: Program) -> bool {
    &&& prog.static_size matches Some(n) ==> ops_static_sum(prog.ops@) == Some(n as nat)
    &&& prog.min_size == ops_min_sum(prog.ops@)
    &&& sizes_ok_ops(prog.ops@, prog.ops@.len())
}

proof fn lemma_sizes_op_at(ops: Seq<Op>, n: nat, k: int)
    requires
        sizes_ok_ops(ops, n),
        0 <= k < n <= ops.len(),
    ensures
        sizes_ok(ops[k]),
    decreases n,
{
    if k < n - 1 {
        lemma_sizes_op_at(ops, (n - 1) as nat, k);
    }
}

proof fn lemma_sizes_case_at(cases: Seq<(i64, Box<Op>)>, n: nat, k: int)
    requires
        sizes_ok_cases(cases, n),
        0 <= k < n <= cases.len(),
    ensures
        sizes_ok(*cases[k].1),
    decreases n,
{
    if k < n - 1 {
        lemma_sizes_case_at(cases, (n - 1) as nat, k);
    }
}

proof fn lemma_case_static_at(cases: Seq<(i64, Box<Op>)>, f: nat, k: int)
    requires
        cases_static(cases, f),
        0 <= k < cases.len(),
    ensures
        op_static_spec(*cases[k].1) == Some(f),
    decreases cases.len(),
{
    if k < cases.len() - 1 {
        assert(cases.drop_last()[k] == cases[k]);
        lemma_case_static_at(cases.drop_last(), f, k);
    }
}

/// A prefix of ops with a static size has one too, and each op of it.
proof fn lemma_prefix_static(ops: Seq<Op>, k: int)
    requires
        ops_static_sum(ops) is Some,
        0 <= k <= ops.len(),
    ensures
        ops_static_sum(ops.subrange(0, k)) is Some,
        k < ops.len() ==> op_static_spec(ops[k]) is Some,
        k < ops.len() ==> ops_static_sum(ops.subrange(0, k + 1)) == Some(
            ops_static_sum(ops.subrange(0, k))->Some_0 + op_static_spec(ops[k])->Some_0),
    decreases ops.len() - k,
{
    if k == ops.len() {
        assert(ops.subrange(0, k) =~= ops);
    } else {
        lemma_prefix_static(ops, k + 1);
        let s1 = ops.subrange(0, k + 1);
        assert(s1.drop_last() =~= ops.subrange(0, k));
        assert(s1.last() == ops[k]);
    }
}

/// A program of one constant evaluates to that constant.
proof fn lemma_eval_imm(k: i64, frames: Seq<RegFrame>, strict: bool)
    ensures
        eval_spec(seq![Ins::Imm(k)], frames, strict) == Ok::<i64, crate::error::Kind>(k),
{
    let ins = seq![Ins::Imm(k)];
    assert(run_prefix(ins, 0, frames, strict) == Ok::<Seq<i64>, crate::error::Kind>(Seq::empty()));
    assert(Seq::<i64>::empty().push(k) =~= seq![k]);
    assert(run_prefix(ins, 1, frames, strict) == Ok::<Seq<i64>, crate::error::Kind>(seq![k]));
}

/// A value of an op with a static size takes exactly that many bytes.
pub proof fn lemma_value_static(op: Op, buf: Seq<u8>, st: FrV, pos: int, limit: int)
    requires
        sizes_ok(op),
        op_static_spec(op) is Some,
        dec_value(op, buf, st, pos, limit) is Ok,
    ensures
        dec_value(op, buf, st, pos, limit)->Ok_0.1 == pos + op_static_spec(op)->Some_0,
    decreases op, 1nat, 0int,
{
    match op {
        Op::Bytes { len, .. } => {
            if let LenSrc::Expr { expr, .. } = len {
                lemma_eval_imm(expr.0@[0]->Imm_0, st.regs, false);
                assert(expr.0@ =~= seq![Ins::Imm(expr.0@[0]->Imm_0)]);
            }
        },
        Op::Str { len, .. } => {
            if let LenSrc::Expr { expr, .. } = len {
                lemma_eval_imm(expr.0@[0]->Imm_0, st.regs, false);
                assert(expr.0@ =~= seq![Ins::Imm(expr.0@[0]->Imm_0)]);
            }
        },
        Op::Nest { prog, size, .. } => {
            assert(decreases_to!(op => *prog));
            match size {
                None => {
                    lemma_struct_static(*prog, buf, st, pos, limit);
                },
                Some(LenSrc::Expr { expr, .. }) => {
                    lemma_eval_imm(expr.0@[0]->Imm_0, st.regs, false);
                    assert(expr.0@ =~= seq![Ins::Imm(expr.0@[0]->Imm_0)]);
                },
                _ => {},
            }
        },
        Op::Array { count, elem, .. } => {
            if let CountSrc::Expr { expr, .. } = count {
                lemma_eval_imm(expr.0@[0]->Imm_0, st.regs, false);
                assert(expr.0@ =~= seq![Ins::Imm(expr.0@[0]->Imm_0)]);
                let n = expr.0@[0]->Imm_0;
                let w = op_static_spec(*elem)->Some_0;
                lemma_elems_static(op, n as int, 0, buf, st, pos, limit, Seq::empty());
                assert((n - 0) * w == (n as nat) * w);
            }
        },
        Op::Switch { on, cases, default, .. } => {
            let tag = eval(st, on, pos)->Ok_0;
            lemma_case_static(op, tag, 0, buf, st, pos, limit);
        },
        _ => {},
    }
}

/// Counted elements of a static size `w` take `w` bytes each.
proof fn lemma_elems_static(op: Op, n: int, i: int, buf: Seq<u8>, st: FrV, pos: int, limit: int, acc: Seq<ValueV>)
    requires
        op matches Op::Array { elem, .. } && sizes_ok(*elem) && op_static_spec(*elem) is Some,
        0 <= i <= n,
        dec_elems(op, n, i, buf, st, pos, limit, acc) is Ok,
    ensures
        dec_elems(op, n, i, buf, st, pos, limit, acc)->Ok_0.1 == pos + (n - i) * op_static_spec(*op->Array_elem)->Some_0,
    decreases op, 0nat, n - i,
{
    if let Op::Array { elem, .. } = op {
        if i < n {
            assert(decreases_to!(op => *elem));
            lemma_value_static(*elem, buf, st, pos, limit);
            let (v, end, st1) = dec_value(*elem, buf, st, pos, limit)->Ok_0;
            lemma_elems_static(op, n, i + 1, buf, st1, end, limit, acc.push(v));
            let w = op_static_spec(*elem)->Some_0 as int;
            assert(w + (n - (i + 1)) * w == (n - i) * w) by (nonlinear_arith);
        } else {
            let w = op_static_spec(*elem)->Some_0 as int;
            assert((n - i) * w == 0) by (nonlinear_arith)
                requires n - i == 0;
        }
    }
}

/// The branch a switch takes has the switch's static size.
proof fn lemma_case_static(op: Op, tag: i64, k: int, buf: Seq<u8>, st: FrV, pos: int, limit: int)
    requires
        op is Switch,
        sizes_ok(op),
        op_static_spec(op) is Some,
        0 <= k,
        dec_case(op, tag, k, buf, st, pos, limit) is Ok,
    ensures
        dec_case(op, tag, k, buf, st, pos, limit)->Ok_0.1 == pos + op_static_spec(op)->Some_0,
    decreases op, 0nat, if k < 0 { 0 } else { (op->Switch_cases)@.len() - k },
{
    if let Op::Switch { cases, default, .. } = op {
        let f = op_static_spec(*cases@[0].1)->Some_0;
        if k < cases@.len() {
            if cases@[k].0 == tag {
                assert(decreases_to!(op => cases));
                assert(decreases_to!(cases => cases@));
                assert(decreases_to!(cases@ => cases@[k]));
                assert(decreases_to!(cases@[k] => cases@[k].1));
                lemma_sizes_case_at(cases@, cases@.len(), k);
                lemma_case_static_at(cases@, f, k);
                lemma_value_static(*cases@[k].1, buf, st, pos, limit);
            } else {
                lemma_case_static(op, tag, k + 1, buf, st, pos, limit);
            }
        } else if let Some(d) = default {
            assert(decreases_to!(op => *d));
            lemma_value_static(*d, buf, st, pos, limit);
        }
    }
}

/// A field of an op with a static size takes exactly that many bytes.
pub proof fn lemma_op_static(op: Op, idx: int, buf: Seq<u8>, st: FrV, pos: int, limit: int, map: Seq<(Seq<char>, ValueV)>, defs: Seq<DefV>)
    requires
        sizes_ok(op),
        op_static_spec(op) is Some,
        dec_op(op, idx, buf, st, pos, limit, map, defs) is Ok,
    ensures
        dec_op(op, idx, buf, st, pos, limit, map, defs)->Ok_0.0 == pos + op_static_spec(op)->Some_0,
    decreases op, 2nat, 0int,
{
    match op {
        Op::Fixed { .. } | Op::BitRun { .. } | Op::Digest { .. } | Op::Cond { .. } => {},
        _ => {
            lemma_value_static(op, buf, st, pos, limit);
        },
    }
}

/// The ops of a program with a static size, from the `k`-th on, take what
/// is left of it after the ops before.
proof fn lemma_ops_static(prog: Program, k: int, buf: Seq<u8>, st: FrV, start: int, pos: int, limit: int, map: Seq<(Seq<char>, ValueV)>, defs: Seq<DefV>)
    requires
        sizes_ok_ops(prog.ops@, prog.ops@.len()),
        ops_static_sum(prog.ops@) is Some,
        0 <= k <= prog.ops@.len(),
        dec_ops(prog, k, buf, st, start, pos, limit, map, defs) is Ok,
    ensures
        ops_static_sum(prog.ops@.subrange(0, k)) is Some,
        dec_ops(prog, k, buf, st, start, pos, limit, map, defs)->Ok_0.0
            == pos + ops_static_sum(prog.ops@)->Some_0 - ops_static_sum(prog.ops@.subrange(0, k))->Some_0,
    decreases prog, 2nat, prog.ops@.len() - k,
{
    lemma_prefix_static(prog.ops@, k);
    if k < prog.ops@.len() {
        assert(decreases_to!(prog => prog.ops@[k]));
        lemma_sizes_op_at(prog.ops@, prog.ops@.len(), k);
        lemma_op_static(prog.ops@[k], k, buf, st, pos, limit, map, defs);
        let (end, st1, map1, defs1) = dec_op(prog.ops@[k], k, buf, st, pos, limit, map, defs)->Ok_0;
        lemma_ops_static(prog, k + 1, buf, st1, start, end, limit, map1, defs1);
    } else {
        assert(prog.ops@.subrange(0, k) =~= prog.ops@);
    }
}

/// A struct whose program states a static size takes exactly that many
/// bytes.
pub proof fn lemma_struct_static(prog: Program, buf: Seq<u8>, st: FrV, pos: int, limit: int)
    requires
        prog_sizes_ok(prog),
        prog.static_size is Some,
        dec_struct(prog, buf, st, pos, limit) is Ok,
    ensures
        dec_struct(prog, buf, st, pos, limit)->Ok_0.1 == pos + prog.static_size->Some_0,
    decreases prog, 3nat, 0int,
{
    lemma_ops_static(prog, 0, buf, push_frame(st), pos, pos, limit, Seq::empty(), Seq::empty());
    assert(prog.ops@.subrange(0, 0) =~= Seq::<Op>::empty());
}

/// A program's static size is exact: where it states one, every decode
/// that succeeds ends exactly that many bytes after where it started.
pub proof fn lemma_static_size_exact(prog: Program, buf: Seq<u8>, offset: int, exact: bool, stream: bool)
    requires
        prog_sizes_ok(prog),
        prog.static_size is Some,
        unpack(prog, buf, offset, exact, stream) is Decoded,
    ensures
        unpack(prog, buf, offset, exact, stream) matches OutcomeV::Decoded(_, end)
            && end == (if offset < buf.len() { offset } else { buf.len() as int }) + prog.static_size->Some_0,
{
    let start = if offset < buf.len() { offset } else { buf.len() as int };
    lemma_struct_static(prog, buf, FrV { regs: Seq::empty(), spans: Seq::empty() }, start, buf.len() as int);
}

// ---------- least sizes ----------

/// The sum of the ops' least sizes, not capped.
pub open spec fn min_total(ops: Seq<Op>) -> nat
    decreases ops.len(),
{
    if ops.len() == 0 { 0 } else { min_total(ops.drop_last()) + op_min_spec(ops.last()) }
}

proof fn lemma_min_sum_le(ops: Seq<Op>)
    ensures
        ops_min_sum(ops) <= min_total(ops),
    decreases ops.len(),
{
    if ops.len() > 0 {
        lemma_min_sum_le(ops.drop_last());
    }
}

proof fn lemma_min_prefix(ops: Seq<Op>, k: int)
    requires
        0 <= k < ops.len(),
    ensures
        min_total(ops.subrange(0, k + 1)) == min_total(ops.subrange(0, k)) + op_min_spec(ops[k]),
{
    let s1 = ops.subrange(0, k + 1);
    assert(s1.drop_last() =~= ops.subrange(0, k));
    assert(s1.last() == ops[k]);
}

proof fn lemma_cases_min_le(cases: Seq<(i64, Box<Op>)>, m: nat, k: int)
    ensures
        cases_min(cases, m) <= m,
        0 <= k < cases.len() ==> cases_min(cases, m) <= op_min_spec(*cases[k].1),
    decreases cases.len(),
{
    if cases.len() > 0 {
        lemma_cases_min_le(cases.drop_last(), m, k);
        if 0 <= k < cases.len() - 1 {
            assert(cases.drop_last()[k] == cases[k]);
        }
    }
}

proof fn lemma_first_nul_from(buf: Seq<u8>, pos: int, i: int, n: int)
    ensures
        crate::unpack::first_nul(buf, pos, i, n) matches Some(k) ==> i <= k < n,
    decreases n - i,
{
    if i < n && buf[pos + i] != 0 {
        lemma_first_nul_from(buf, pos, i + 1, n);
    }
}

/// A value takes at least its op's least size.
pub proof fn lemma_value_min(op: Op, buf: Seq<u8>, st: FrV, pos: int, limit: int)
    requires
        sizes_ok(op),
        0 <= pos <= limit <= usize::MAX,
        dec_value(op, buf, st, pos, limit) is Ok,
    ensures
        dec_value(op, buf, st, pos, limit)->Ok_0.1 >= pos + op_min_spec(op),
        dec_value(op, buf, st, pos, limit)->Ok_0.1 <= limit,
    decreases op, 1nat, 0int,
{
    match op {
        Op::Bytes { len, .. } => {
            if let LenSrc::Expr { expr, .. } = len {
                if expr.0@.len() == 1 && expr.0@[0] is Imm {
                    lemma_eval_imm(expr.0@[0]->Imm_0, st.regs, false);
                    assert(expr.0@ =~= seq![Ins::Imm(expr.0@[0]->Imm_0)]);
                }
            }
        },
        Op::Str { len, .. } => {
            if let LenSrc::Expr { expr, .. } = len {
                if expr.0@.len() == 1 && expr.0@[0] is Imm {
                    lemma_eval_imm(expr.0@[0]->Imm_0, st.regs, false);
                    assert(expr.0@ =~= seq![Ins::Imm(expr.0@[0]->Imm_0)]);
                }
            }
        },
        Op::CStr { max, .. } => {
            lemma_first_nul_from(buf, pos, 0, crate::unpack::cstr_scan(max, pos as usize, limit as usize));
        },
        Op::Nest { prog, size, .. } => {
            assert(decreases_to!(op => *prog));
            match size {
                None => {
                    lemma_struct_min(*prog, buf, st, pos, limit);
                },
                Some(LenSrc::Expr { expr, inv }) => {
                    if inv is None && expr.0@.len() == 1 && expr.0@[0] is Imm {
                        lemma_eval_imm(expr.0@[0]->Imm_0, st.regs, false);
                        assert(expr.0@ =~= seq![Ins::Imm(expr.0@[0]->Imm_0)]);
                    } else {
                        let sz = crate::decoding::eval_len(st, expr, pos)->Ok_0;
                        lemma_struct_min(*prog, buf, st, pos, pos + sz);
                    }
                },
                _ => {},
            }
        },
        Op::Array { count, elem, elem_min, max_count, .. } => {
            match count {
                CountSrc::Expr { expr, .. } => {
                    let n = eval(st, expr, pos)->Ok_0;
                    lemma_elems_min(op, n as int, 0, buf, st, pos, limit, Seq::empty());
                    if expr.0@.len() == 1 && expr.0@[0] is Imm {
                        lemma_eval_imm(expr.0@[0]->Imm_0, st.regs, false);
                        assert(expr.0@ =~= seq![Ins::Imm(expr.0@[0]->Imm_0)]);
                        assert(sat_mul(n as nat, elem_min as nat) <= (n as nat) * (elem_min as nat));
                    }
                },
                CountSrc::UntilEof => {
                    lemma_until_min(op, 0, buf, st, pos, limit, Seq::empty());
                },
            }
        },
        Op::Switch { on, cases, default, .. } => {
            let tag = eval(st, on, pos)->Ok_0;
            lemma_case_min(op, tag, 0, buf, st, pos, limit);
        },
        _ => {},
    }
}

/// Counted elements take at least their least size each.
proof fn lemma_elems_min(op: Op, n: int, i: int, buf: Seq<u8>, st: FrV, pos: int, limit: int, acc: Seq<ValueV>)
    requires
        op matches Op::Array { elem, .. } && sizes_ok(*elem),
        0 <= i,
        0 <= pos <= limit <= usize::MAX,
        dec_elems(op, n, i, buf, st, pos, limit, acc) is Ok,
    ensures
        dec_elems(op, n, i, buf, st, pos, limit, acc)->Ok_0.1 >= pos,
        dec_elems(op, n, i, buf, st, pos, limit, acc)->Ok_0.1 <= limit,
        i <= n ==> dec_elems(op, n, i, buf, st, pos, limit, acc)->Ok_0.1 >= pos + (n - i) * op_min_spec(*op->Array_elem),
    decreases op, 0nat, n - i,
{
    if let Op::Array { elem, .. } = op {
        let w = op_min_spec(*elem) as int;
        if i < n {
            assert(decreases_to!(op => *elem));
            lemma_value_min(*elem, buf, st, pos, limit);
            let (v, end, st1) = dec_value(*elem, buf, st, pos, limit)->Ok_0;
            lemma_elems_min(op, n, i + 1, buf, st1, end, limit, acc.push(v));
            assert(w + (n - (i + 1)) * w == (n - i) * w) by (nonlinear_arith);
        } else if i == n {
            assert((n - i) * w == 0) by (nonlinear_arith)
                requires n - i == 0;
        }
    }
}

/// Elements until the window ends end no earlier than they start.
proof fn lemma_until_min(op: Op, k: int, buf: Seq<u8>, st: FrV, pos: int, limit: int, acc: Seq<ValueV>)
    requires
        op matches Op::Array { elem, .. } && sizes_ok(*elem),
        0 <= pos <= limit <= usize::MAX,
        dec_until_end(op, k, buf, st, pos, limit, acc) is Ok,
    ensures
        dec_until_end(op, k, buf, st, pos, limit, acc)->Ok_0.1 >= pos,
        dec_until_end(op, k, buf, st, pos, limit, acc)->Ok_0.1 <= limit,
    decreases op, 0nat, limit - pos,
{
    if let Op::Array { elem, max_count, .. } = op {
        if pos < limit && k < max_count {
            assert(decreases_to!(op => *elem));
            lemma_value_min(*elem, buf, st, pos, limit);
            let (v, end, st1) = dec_value(*elem, buf, st, pos, limit)->Ok_0;
            lemma_until_min(op, k + 1, buf, st1, end, limit, acc.push(v));
        }
    }
}

/// The branch a switch takes takes at least the switch's least size.
proof fn lemma_case_min(op: Op, tag: i64, k: int, buf: Seq<u8>, st: FrV, pos: int, limit: int)
    requires
        op is Switch,
        sizes_ok(op),
        0 <= k,
        0 <= pos <= limit <= usize::MAX,
        dec_case(op, tag, k, buf, st, pos, limit) is Ok,
    ensures
        dec_case(op, tag, k, buf, st, pos, limit)->Ok_0.1 >= pos + op_min_spec(op),
        dec_case(op, tag, k, buf, st, pos, limit)->Ok_0.1 <= limit,
    decreases op, 0nat, if k < 0 { 0 } else { (op->Switch_cases)@.len() - k },
{
    if let Op::Switch { cases, default, .. } = op {
        let dm: nat = match default {
            Some(d) => if op_min_spec(*d) < usize::MAX { op_min_spec(*d) } else { usize::MAX as nat },
            None => usize::MAX as nat,
        };
        lemma_cases_min_le(cases@, dm, k);
        if k < cases@.len() {
            if cases@[k].0 == tag {
                assert(decreases_to!(op => cases));
                assert(decreases_to!(cases => cases@));
                assert(decreases_to!(cases@ => cases@[k]));
                assert(decreases_to!(cases@[k] => cases@[k].1));
                lemma_sizes_case_at(cases@, cases@.len(), k);
                lemma_value_min(*cases@[k].1, buf, st, pos, limit);
            } else {
                lemma_case_min(op, tag, k + 1, buf, st, pos, limit);
            }
        } else if let Some(d) = default {
            assert(decreases_to!(op => *d));
            lemma_value_min(*d, buf, st, pos, limit);
        }
    }
}

/// A field takes at least its op's least size.
pub proof fn lemma_op_min(op: Op, idx: int, buf: Seq<u8>, st: FrV, pos: int, limit: int, map: Seq<(Seq<char>, ValueV)>, defs: Seq<DefV>)
    requires
        sizes_ok(op),
        0 <= pos <= limit <= usize::MAX,
        dec_op(op, idx, buf, st, pos, limit, map, defs) is Ok,
    ensures
        dec_op(op, idx, buf, st, pos, limit, map, defs)->Ok_0.0 >= pos + op_min_spec(op),
        dec_op(op, idx, buf, st, pos, limit, map, defs)->Ok_0.0 <= limit,
    decreases op, 2nat, 0int,
{
    match op {
        Op::Fixed { .. } | Op::BitRun { .. } | Op::Digest { .. } => {},
        Op::Cond { pred, then, .. } => {
            if eval(st, pred, pos) matches Ok(v) && v != 0 {
                assert(decreases_to!(op => *then));
                lemma_value_min(*then, buf, st, pos, limit);
            }
        },
        _ => {
            lemma_value_min(op, buf, st, pos, limit);
        },
    }
}

proof fn lemma_ops_min(prog: Program, k: int, buf: Seq<u8>, st: FrV, start: int, pos: int, limit: int, map: Seq<(Seq<char>, ValueV)>, defs: Seq<DefV>)
    requires
        sizes_ok_ops(prog.ops@, prog.ops@.len()),
        0 <= k <= prog.ops@.len(),
        0 <= pos <= limit <= usize::MAX,
        dec_ops(prog, k, buf, st, start, pos, limit, map, defs) is Ok,
    ensures
        dec_ops(prog, k, buf, st, start, pos, limit, map, defs)->Ok_0.0
            >= pos + min_total(prog.ops@) - min_total(prog.ops@.subrange(0, k)),
        dec_ops(prog, k, buf, st, start, pos, limit, map, defs)->Ok_0.0 <= limit,
    decreases prog, 2nat, prog.ops@.len() - k,
{
    if k < prog.ops@.len() {
        assert(decreases_to!(prog => prog.ops@[k]));
        lemma_sizes_op_at(prog.ops@, prog.ops@.len(), k);
        lemma_op_min(prog.ops@[k], k, buf, st, pos, limit, map, defs);
        let (end, st1, map1, defs1) = dec_op(prog.ops@[k], k, buf, st, pos, limit, map, defs)->Ok_0;
        lemma_ops_min(prog, k + 1, buf, st1, start, end, limit, map1, defs1);
        lemma_min_prefix(prog.ops@, k);
    } else {
        assert(prog.ops@.subrange(0, k) =~= prog.ops@);
    }
}

/// A struct takes at least its program's least size.
pub proof fn lemma_struct_min(prog: Program, buf: Seq<u8>, st: FrV, pos: int, limit: int)
    requires
        prog_sizes_ok(prog),
        0 <= pos <= limit <= usize::MAX,
        dec_struct(prog, buf, st, pos, limit) is Ok,
    ensures
        dec_struct(prog, buf, st, pos, limit)->Ok_0.1 >= pos + prog.min_size,
        dec_struct(prog, buf, st, pos, limit)->Ok_0.1 <= limit,
    decreases prog, 3nat, 0int,
{
    lemma_ops_min(prog, 0, buf, push_frame(st), pos, pos, limit, Seq::empty(), Seq::empty());
    assert(prog.ops@.subrange(0, 0) =~= Seq::<Op>::empty());
    lemma_min_sum_le(prog.ops@);
}

/// A program's least size is a floor: every decode that succeeds ends at
/// least that many bytes after where it started.
pub proof fn lemma_min_size_floor(prog: Program, buf: Seq<u8>, offset: int, exact: bool, stream: bool)
    requires
        prog_sizes_ok(prog),
        0 <= offset,
        buf.len() <= usize::MAX,
        unpack(prog, buf, offset, exact, stream) is Decoded,
    ensures
        unpack(prog, buf, offset, exact, stream) matches OutcomeV::Decoded(_, end)
            && end >= (if offset < buf.len() { offset } else { buf.len() as int }) + prog.min_size,
{
    let start = if offset < buf.len() { offset } else { buf.len() as int };
    lemma_struct_min(prog, buf, FrV { regs: Seq::empty(), spans: Seq::empty() }, start, buf.len() as int);
}

} // verus!
