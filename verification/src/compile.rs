use vstd::prelude::*;

use crate::digest::{algos_table, Algo};
use crate::error::{Kind, SchemaError};
use crate::expr::{apply_bin, bin, Expr, Ins, EXPR_STACK};
use crate::names::first_match;
use crate::program::{
    encodings, BitItem, Common, CountSrc, Enc, FixKind, FixedItem, FlagItem, Inv, Key, LenSrc, Op,
    Over, Program, Reg, RestPolicy, MAX_DEPTH, MAX_REGS, MAX_SPANS,
};
use crate::schema::{BinOp, ByteOrder, CrcOverrides, ExprIn, FieldIn, OverIn, TypeIn};
use crate::sizes::{prog_sizes_ok, sizes_ok, sizes_ok_ops};
use crate::text::{debug_quoted, dec_chars, push_decimal, push_signed, push_str, quoted, str_eq, string_of};

verus! {

/// Compiler options.
#[derive(Debug, Clone, Copy)]
pub struct Options {
    pub byteorder: ByteOrder,
    /// The `max` of a bytes/str/cstr field that gives none.
    pub max_default: usize,
    /// The most elements an array decodes.
    pub max_count: usize,
}

impl Default for Options {
    fn default() -> (r: Self)
        ensures
            r.byteorder == ByteOrder::Big,
            r.max_default == 67_108_864,
            r.max_count == 16_777_216,
    {
        Options { byteorder: ByteOrder::Big, max_default: 67_108_864, max_count: 16_777_216 }
    }
}

fn err(msg: String) -> (r: SchemaError)
    ensures
        r.msg@ == msg@,
{
    SchemaError::new(msg)
}

fn err_str(msg: &str) -> (r: SchemaError)
    ensures
        r.msg@ == msg@,
{
    SchemaError::new(string_of(msg))
}

// ---------- expressions over field names ----------

/// The instruction a binary operator compiles to.
pub open spec fn bin_ins(op: BinOp) -> Ins {
    match op {
        BinOp::Add => Ins::Add,
        BinOp::Sub => Ins::Sub,
        BinOp::Mul => Ins::Mul,
        BinOp::Div => Ins::Div,
        BinOp::Shl => Ins::Shl,
        BinOp::Shr => Ins::Shr,
        BinOp::And => Ins::And,
        BinOp::Or => Ins::Or,
        BinOp::Xor => Ins::Xor,
        BinOp::Eq => Ins::Eq,
        BinOp::Ne => Ins::Ne,
        BinOp::Lt => Ins::Lt,
        BinOp::Le => Ins::Le,
        BinOp::Gt => Ins::Gt,
        BinOp::Ge => Ins::Ge,
    }
}

fn bin_ins_exec(op: BinOp) -> (r: Ins)
    ensures
        r == bin_ins(op),
{
    match op {
        BinOp::Add => Ins::Add,
        BinOp::Sub => Ins::Sub,
        BinOp::Mul => Ins::Mul,
        BinOp::Div => Ins::Div,
        BinOp::Shl => Ins::Shl,
        BinOp::Shr => Ins::Shr,
        BinOp::And => Ins::And,
        BinOp::Or => Ins::Or,
        BinOp::Xor => Ins::Xor,
        BinOp::Eq => Ins::Eq,
        BinOp::Ne => Ins::Ne,
        BinOp::Lt => Ins::Lt,
        BinOp::Le => Ins::Le,
        BinOp::Gt => Ins::Gt,
        BinOp::Ge => Ins::Ge,
    }
}

/// The value of a schema expression when each name reads `env` of it,
/// with the i64 arithmetic of compiled expressions (left operand first).
/// `*` has no value.
pub open spec fn ein_eval(e: ExprIn, env: spec_fn(Seq<char>) -> i64) -> Result<i64, Kind>
    decreases e,
{
    match e {
        ExprIn::Imm(n) => Ok(n),
        ExprIn::Greedy => Err(Kind::Type),
        ExprIn::Ref(name) => Ok(env(name@)),
        ExprIn::Bin(op, l, r) => match ein_eval(*l, env) {
            Err(k) => Err(k),
            Ok(a) => match ein_eval(*r, env) {
                Err(k) => Err(k),
                Ok(b) => apply_bin(bin_ins(op), a, b),
            },
        },
    }
}

/// The message a constant subexpression that cannot be computed gives.
pub open spec fn const_msg(op: BinOp, b: i64, k: Kind) -> Seq<char> {
    if k == Kind::DivZero {
        "division by a constant zero"@
    } else if (op == BinOp::Shl || op == BinOp::Shr) && !(0 <= b < 64) {
        "shift amount outside 0..63 in a constant subexpression"@
    } else {
        "i64 overflow in a constant subexpression"@
    }
}

/// The message `*` inside an expression gives.
pub open spec fn greedy_msg() -> Seq<char> {
    "\"*\" is only allowed as the whole of len/count, not inside an expression"@
}

/// An operator applied to two constants, as the compiler folds it.
pub fn apply_const(op: BinOp, a: i64, b: i64) -> (r: Result<i64, SchemaError>)
    ensures
        match apply_bin(bin_ins(op), a, b) {
            Ok(v) => r == Ok::<i64, SchemaError>(v),
            Err(k) => r matches Err(e) && e.msg@ == const_msg(op, b, k),
        },
{
    proof {
        reveal_strlit("division by a constant zero");
        reveal_strlit("shift amount outside 0..63 in a constant subexpression");
        reveal_strlit("i64 overflow in a constant subexpression");
    }
    match bin(bin_ins_exec(op), a, b) {
        Ok(v) => Ok(v),
        Err(k) => {
            if let Kind::DivZero = k {
                Err(err_str("division by a constant zero"))
            } else if (op == BinOp::Shl || op == BinOp::Shr) && !(0 <= b && b < 64) {
                Err(err_str("shift amount outside 0..63 in a constant subexpression"))
            } else {
                Err(err_str("i64 overflow in a constant subexpression"))
            }
        },
    }
}

/// Constant folding: every subexpression of constants replaced by its
/// value; an operation on constants that fails is a schema error.
pub open spec fn fold_spec(e: ExprIn) -> Result<ExprIn, Seq<char>>
    decreases e,
{
    match e {
        ExprIn::Imm(n) => Ok(ExprIn::Imm(n)),
        ExprIn::Ref(name) => Ok(ExprIn::Ref(name)),
        ExprIn::Greedy => Err(greedy_msg()),
        ExprIn::Bin(op, l, r) => match fold_spec(*l) {
            Err(m) => Err(m),
            Ok(fl) => match fold_spec(*r) {
                Err(m) => Err(m),
                Ok(fr) => match (fl, fr) {
                    (ExprIn::Imm(a), ExprIn::Imm(b)) => match apply_bin(bin_ins(op), a, b) {
                        Ok(v) => Ok(ExprIn::Imm(v)),
                        Err(k) => Err(const_msg(op, b, k)),
                    },
                    _ => Ok(ExprIn::Bin(op, Box::new(fl), Box::new(fr))),
                },
            },
        },
    }
}

fn fold(e: &ExprIn) -> (r: Result<ExprIn, SchemaError>)
    ensures
        match fold_spec(*e) {
            Ok(f) => r == Ok::<ExprIn, SchemaError>(f),
            Err(m) => r matches Err(x) && x.msg@ == m,
        },
    decreases e,
{
    match e {
        ExprIn::Imm(n) => Ok(ExprIn::Imm(*n)),
        ExprIn::Ref(name) => Ok(ExprIn::Ref(name.clone())),
        ExprIn::Greedy => {
            proof { reveal_strlit("\"*\" is only allowed as the whole of len/count, not inside an expression"); }
            Err(err_str("\"*\" is only allowed as the whole of len/count, not inside an expression"))
        },
        ExprIn::Bin(op, l, r) => {
            let fl = fold(l)?;
            let fr = fold(r)?;
            match (&fl, &fr) {
                (ExprIn::Imm(a), ExprIn::Imm(b)) => Ok(ExprIn::Imm(apply_const(*op, *a, *b)?)),
                _ => Ok(ExprIn::Bin(*op, Box::new(fl), Box::new(fr))),
            }
        },
    }
}

/// Folding never changes what an expression evaluates to: where folding
/// succeeds, the folded expression has the value (or the error) of the
/// expression as written, whatever the fields hold.
pub proof fn lemma_fold_preserves(e: ExprIn, env: spec_fn(Seq<char>) -> i64)
    ensures
        fold_spec(e) matches Ok(f) ==> ein_eval(f, env) == ein_eval(e, env),
    decreases e,
{
    match e {
        ExprIn::Bin(op, l, r) => {
            lemma_fold_preserves(*l, env);
            lemma_fold_preserves(*r, env);
        },
        _ => {},
    }
}

/// An expression in linear form: `a*ref + b`, or just `b` where no field
/// is named.
pub struct Lin {
    pub ref_: Option<(String, i64)>,
    pub b: i64,
}

/// What a linear form evaluates to when each name reads `env` of it.
pub open spec fn lin_value(lin: Lin, env: spec_fn(Seq<char>) -> i64) -> int {
    match lin.ref_ {
        Some((name, a)) => a * env(name@) + lin.b,
        None => lin.b as int,
    }
}

/// The linear form `a*ref + b` of an expression: the only form a derived
/// length can be inverted from. Every value the expression takes is the
/// value of its form.
#[verifier::spinoff_prover]
#[verifier::rlimit(40)]
pub fn linear(e: &ExprIn) -> (r: Option<Lin>)
    ensures
        r matches Some(lin) ==> forall|env: spec_fn(Seq<char>) -> i64| #[trigger] ein_eval(*e, env) matches Ok(v)
            ==> v == lin_value(lin, env),
        e is Imm || e is Ref ==> r is Some,
        e is Greedy ==> r is None,
        has_greedy(*e) ==> r is None,
        r matches Some(lin) ==> match lin.ref_ {
            None => refs_in(*e).len() == 0,
            Some((n, _)) => refs_in(*e) == seq![n@],
        },
        e matches ExprIn::Ref(n) ==> (r matches Some(lin) && lin.ref_ matches Some((m, a)) && m@ == n@ && a == 1 && lin.b == 0),
    decreases e,
{
    match e {
        ExprIn::Imm(n) => Some(Lin { ref_: None, b: *n }),
        ExprIn::Ref(name) => Some(Lin { ref_: Some((name.clone(), 1)), b: 0 }),
        ExprIn::Greedy => None,
        ExprIn::Bin(op, l, r) => {
            let ll = linear(l)?;
            let rr = linear(r)?;
            let ghost gl = ll;
            let ghost gr = rr;
            let res = match op {
                BinOp::Add => {
                    let b = ll.b.checked_add(rr.b)?;
                    let ref_ = match (ll.ref_, rr.ref_) {
                        (Some(_), Some(_)) => return None,
                        (Some(x), None) => Some(x),
                        (None, y) => y,
                    };
                    Lin { ref_, b }
                },
                BinOp::Sub => {
                    let ref_ = match (ll.ref_, rr.ref_) {
                        (Some(_), Some(_)) => return None,
                        (Some(x), None) => Some(x),
                        (None, Some((n, a))) => Some((n, 0i64.checked_sub(a)?)),
                        (None, None) => None,
                    };
                    let b = ll.b.checked_sub(rr.b)?;
                    Lin { ref_, b }
                },
                BinOp::Mul => {
                    let (with_ref, konst) = match (&ll.ref_, &rr.ref_) {
                        (Some(_), Some(_)) => return None,
                        (Some(_), None) => (ll, rr.b),
                        (None, _) => (rr, ll.b),
                    };
                    let ref_ = match with_ref.ref_ {
                        Some((n, a)) => Some((n, a.checked_mul(konst)?)),
                        None => None,
                    };
                    let b = with_ref.b.checked_mul(konst)?;
                    Lin { ref_, b }
                },
                _ => return None,
            };
            proof {
                assert(refs_in(*e) == refs_in(**l) + refs_in(**r));
                if gl.ref_ is None {
                    assert(refs_in(*e) =~= refs_in(**r));
                } else {
                    assert(refs_in(*e) =~= refs_in(**l));
                }
                assert forall|env: spec_fn(Seq<char>) -> i64| #[trigger] ein_eval(*e, env) is Ok
                    implies ein_eval(*e, env)->Ok_0 == lin_value(res, env) by {
                    let x = ein_eval(**l, env);
                    let y = ein_eval(**r, env);
                    assert(*e == ExprIn::Bin(*op, *l, *r));
                    assert(x is Ok && y is Ok);
                    if let (Ok(p), Ok(q)) = (x, y) {
                        assert(ein_eval(*e, env) == apply_bin(bin_ins(*op), p, q));
                        assert(p == lin_value(gl, env));
                        assert(q == lin_value(gr, env));
                        if *op == BinOp::Sub {
                            match gr.ref_ {
                                Some((n, a)) => {
                                    assert((0 - a) * env(n@) == -(a * env(n@))) by (nonlinear_arith);
                                },
                                None => {},
                            }
                        }
                        if *op == BinOp::Mul {
                            match gl.ref_ {
                                Some((n, a)) => lemma_lin_mul(env(n@) as int, a as int, gl.b as int, gr.b as int),
                                None => match gr.ref_ {
                                    Some((n, a)) => lemma_lin_mul(env(n@) as int, a as int, gr.b as int, gl.b as int),
                                    None => {},
                                },
                            }
                        }
                    }
                }
            }
            Some(res)
        },
    }
}

/// The names an expression reads, in order, each as often as it occurs.
pub open spec fn refs_in(e: ExprIn) -> Seq<Seq<char>>
    decreases e,
{
    match e {
        ExprIn::Ref(n) => seq![n@],
        ExprIn::Bin(_, l, r) => refs_in(*l) + refs_in(*r),
        _ => Seq::empty(),
    }
}

proof fn lemma_lin_mul(x: int, a: int, c: int, k: int)
    ensures
        (a * x + c) * k == (a * k) * x + c * k,
        k * (a * x + c) == (a * k) * x + c * k,
{
    assert((a * x + c) * k == (a * k) * x + c * k) by (nonlinear_arith);
    assert(k * (a * x + c) == (a * k) * x + c * k) by (nonlinear_arith);
}

/// Every value `e` takes is `a` times the field `name` plus `b`.
pub open spec fn linear_in(e: ExprIn, name: Seq<char>, a: int, b: int) -> bool {
    forall|env: spec_fn(Seq<char>) -> i64| #[trigger] ein_eval(e, env) matches Ok(v) ==> v == a * env(name) + b
}

/// A derived length is the inverse of its own expression: where a length
/// expression has the linear form `a*ref + b` and the inversion of the
/// packed length `actual` gives `x`, the expression evaluated with `x` in
/// the referenced field gives `actual` (or an i64 overflow).
pub proof fn lemma_derived_len_roundtrip(
    e: ExprIn,
    name: Seq<char>,
    a: i64,
    b: i64,
    actual: int,
    env: spec_fn(Seq<char>) -> i64,
)
    requires
        linear_in(e, name, a as int, b as int),
        crate::pack::inverse(a as int, b as int, actual) matches Ok(x) && env(name) == x,
    ensures
        ein_eval(e, env) matches Ok(v) ==> v == actual,
{
    crate::pack::lemma_inverse_solves(a as int, b as int, actual);
}

// ---------- sizes ----------

/// The most values an expression's postfix code holds on the stack at once.
pub open spec fn stack_peak(ins: Seq<Ins>, n: nat, depth: nat, peak: nat) -> nat
    decreases ins.len() - n,
{
    if n >= ins.len() {
        peak
    } else {
        let d = match ins[n as int] {
            Ins::Imm(_) | Ins::Reg(_) => depth + 1,
            _ => if depth > 0 { (depth - 1) as nat } else { 0 },
        };
        stack_peak(ins, n + 1, d, if d > peak { d } else { peak })
    }
}

fn postfix_depth(ins: &Vec<Ins>) -> (r: usize)
    ensures
        r == stack_peak(ins@, 0, 0, 0),
{
    let mut depth: usize = 0;
    let mut peak: usize = 0;
    let mut i: usize = 0;
    while i < ins.len()
        invariant
            i <= ins@.len(),
            depth <= i,
            peak <= i,
            stack_peak(ins@, 0, 0, 0) == stack_peak(ins@, i as nat, depth as nat, peak as nat),
        decreases ins@.len() - i,
    {
        match ins[i] {
            Ins::Imm(_) | Ins::Reg(_) => {
                depth = depth + 1;
            },
            _ => {
                if depth > 0 {
                    depth = depth - 1;
                }
            },
        }
        if depth > peak {
            peak = depth;
        }
        i = i + 1;
    }
    peak
}

/// The constant of a length that is one.
pub open spec fn len_const_spec(len: LenSrc) -> Option<usize> {
    match len {
        LenSrc::Expr { expr, inv: None } => if expr.0@.len() == 1 && expr.0@[0] is Imm {
            Some((expr.0@[0]->Imm_0) as usize)
        } else {
            None
        },
        _ => None,
    }
}

fn len_const(len: &LenSrc) -> (r: Option<usize>)
    ensures
        r == len_const_spec(*len),
{
    match len {
        LenSrc::Expr { expr, inv: None } => match expr.as_const() {
            Some(n) => Some(n as usize),
            None => None,
        },
        _ => None,
    }
}

/// The constant of a count that is one.
pub open spec fn count_const_spec(count: CountSrc) -> Option<usize> {
    match count {
        CountSrc::Expr { expr, inv: None } => if expr.0@.len() == 1 && expr.0@[0] is Imm {
            Some((expr.0@[0]->Imm_0) as usize)
        } else {
            None
        },
        _ => None,
    }
}

fn count_const(count: &CountSrc) -> (r: Option<usize>)
    ensures
        r == count_const_spec(*count),
{
    match count {
        CountSrc::Expr { expr, inv: None } => match expr.as_const() {
            Some(n) => Some(n as usize),
            None => None,
        },
        _ => None,
    }
}

pub open spec fn sat_add(a: nat, b: nat) -> nat {
    if a + b > usize::MAX { usize::MAX as nat } else { a + b }
}

pub open spec fn sat_mul(a: nat, b: nat) -> nat {
    if a * b > usize::MAX { usize::MAX as nat } else { a * b }
}

/// The fewest bytes an op occupies.
pub open spec fn op_min_spec(op: Op) -> nat
    decreases op, 1nat,
{
    match op {
        Op::Fixed { width, .. } => width as nat,
        Op::Bytes { len, .. } => match len_const_spec(len) { Some(n) => n as nat, None => 0 },
        Op::Str { len, .. } => match len_const_spec(len) { Some(n) => n as nat, None => 0 },
        Op::CStr { .. } => 1,
        Op::BitRun { nbytes, .. } => nbytes as nat,
        Op::Flags { prim, .. } => prim.spec_width(),
        Op::Digest { algo, .. } => algo.spec_width_bytes(),
        Op::Nest { prog, size, .. } => match size {
            Some(LenSrc::Expr { expr, inv: None }) => if expr.0@.len() == 1 && expr.0@[0] is Imm {
                ((expr.0@[0]->Imm_0) as usize) as nat
            } else {
                prog.min_size as nat
            },
            _ => prog.min_size as nat,
        },
        Op::Array { count, elem_min, .. } => match count_const_spec(count) {
            Some(n) => sat_mul(n as nat, elem_min as nat),
            None => 0,
        },
        Op::Switch { cases, default, .. } => {
            let m = cases_min(cases@, match default {
                Some(d) => if op_min_spec(*d) < usize::MAX { op_min_spec(*d) } else { usize::MAX as nat },
                None => usize::MAX as nat,
            });
            if m == usize::MAX { 0 } else { m }
        },
        Op::Cond { .. } => 0,
    }
}

/// The least of `m` and the fewest bytes of each case.
pub open spec fn cases_min(cases: Seq<(i64, Box<Op>)>, m: nat) -> nat
    decreases cases, 0nat,
{
    if cases.len() == 0 {
        m
    } else {
        let rest = cases_min(cases.drop_last(), m);
        let here = op_min_spec(*cases.last().1);
        if here < rest { here } else { rest }
    }
}

pub fn op_min(op: &Op) -> (r: usize)
    ensures
        r == op_min_spec(*op),
    decreases op,
{
    match op {
        Op::Fixed { width, .. } => *width,
        Op::Bytes { len, .. } | Op::Str { len, .. } => match len_const(len) {
            Some(n) => n,
            None => 0,
        },
        Op::CStr { .. } => 1,
        Op::BitRun { nbytes, .. } => *nbytes,
        Op::Flags { prim, .. } => prim.width(),
        Op::Digest { algo, .. } => algo.width_bytes(),
        Op::Nest { prog, size, .. } => match size {
            Some(LenSrc::Expr { expr, inv: None }) => match expr.as_const() {
                Some(n) => n as usize,
                None => prog.min_size,
            },
            _ => prog.min_size,
        },
        Op::Array { count, elem_min, .. } => match count_const(count) {
            Some(n) => match n.checked_mul(*elem_min) {
                Some(x) => x,
                None => usize::MAX,
            },
            None => 0,
        },
        Op::Switch { cases, default, .. } => {
            let mut m: usize = match default {
                Some(d) => {
                    proof { assert(decreases_to!(op => **d)); }
                    op_min(d)
                },
                None => usize::MAX,
            };
            let ghost m0 = m as nat;
            proof {
                assert forall|j: int| 0 <= j < cases@.len() implies decreases_to!(op => *cases@[j].1) by {
                    assert(decreases_to!(op => *cases));
                    assert(decreases_to!(*cases => cases@));
                    assert(decreases_to!(cases@ => cases@[j]));
                    assert(decreases_to!(cases@[j] => cases@[j].1));
                }
            }
            let mut k: usize = 0;
            while k < cases.len()
                invariant
                    k <= cases@.len(),
                    m == cases_min(cases@.subrange(0, k as int), m0),
                    forall|j: int| 0 <= j < cases@.len() ==> decreases_to!(op => *cases@[j].1),
                decreases cases@.len() - k,
            {
                proof { assert(decreases_to!(op => *cases@[k as int].1)); }
                let here = op_min(&cases[k].1);
                proof {
                    assert(cases@.subrange(0, k + 1).drop_last() =~= cases@.subrange(0, k as int));
                }
                if here < m {
                    m = here;
                }
                k = k + 1;
            }
            proof { assert(cases@.subrange(0, cases@.len() as int) =~= cases@); }
            if m == usize::MAX { 0 } else { m }
        },
        Op::Cond { .. } => 0,
    }
}

/// The size of an op when it is the same on every input.
pub open spec fn op_static_spec(op: Op) -> Option<nat>
    decreases op, 1nat,
{
    match op {
        Op::Fixed { width, .. } => Some(width as nat),
        Op::Bytes { len, .. } => match len_const_spec(len) { Some(n) => Some(n as nat), None => None },
        Op::Str { len, .. } => match len_const_spec(len) { Some(n) => Some(n as nat), None => None },
        Op::CStr { .. } => None,
        Op::BitRun { nbytes, .. } => Some(nbytes as nat),
        Op::Flags { prim, .. } => Some(prim.spec_width()),
        Op::Digest { algo, .. } => Some(algo.spec_width_bytes()),
        Op::Nest { prog, size, .. } => match size {
            Some(LenSrc::Expr { expr, inv: None }) => if expr.0@.len() == 1 && expr.0@[0] is Imm {
                Some(((expr.0@[0]->Imm_0) as usize) as nat)
            } else {
                None
            },
            Some(_) => None,
            None => match prog.static_size { Some(n) => Some(n as nat), None => None },
        },
        Op::Array { count, elem, .. } => match count_const_spec(count) {
            Some(n) => match op_static_spec(*elem) {
                Some(w) => if (n as nat) * w <= usize::MAX { Some((n as nat) * w) } else { None },
                None => None,
            },
            None => None,
        },
        Op::Switch { cases, default, .. } => if cases.len() == 0 {
            None
        } else {
            match op_static_spec(*cases@[0].1) {
                None => None,
                Some(f) => if cases_static(cases@, f) && match default {
                    Some(d) => op_static_spec(*d) == Some(f),
                    None => true,
                } {
                    Some(f)
                } else {
                    None
                },
            }
        },
        Op::Cond { .. } => None,
    }
}

/// Every case occupies exactly `f` bytes.
pub open spec fn cases_static(cases: Seq<(i64, Box<Op>)>, f: nat) -> bool
    decreases cases, 0nat,
{
    if cases.len() == 0 {
        true
    } else {
        cases_static(cases.drop_last(), f) && op_static_spec(*cases.last().1) == Some(f)
    }
}

#[verifier::loop_isolation(false)]
pub fn op_static(op: &Op) -> (r: Option<usize>)
    ensures
        match r {
            Some(x) => op_static_spec(*op) == Some(x as nat),
            None => op_static_spec(*op) is None,
        },
    decreases op,
{
    match op {
        Op::Fixed { width, .. } => Some(*width),
        Op::Bytes { len, .. } | Op::Str { len, .. } => len_const(len),
        Op::CStr { .. } => None,
        Op::BitRun { nbytes, .. } => Some(*nbytes),
        Op::Flags { prim, .. } => Some(prim.width()),
        Op::Digest { algo, .. } => Some(algo.width_bytes()),
        Op::Nest { prog, size, .. } => match size {
            Some(LenSrc::Expr { expr, inv: None }) => match expr.as_const() {
                Some(n) => Some(n as usize),
                None => None,
            },
            Some(_) => None,
            None => prog.static_size,
        },
        Op::Array { count, elem, .. } => match count_const(count) {
            Some(n) => {
                proof { assert(decreases_to!(op => **elem)); }
                match op_static(elem) {
                    Some(w) => n.checked_mul(w),
                    None => None,
                }
            },
            None => None,
        },
        Op::Switch { cases, default, .. } => {
            if cases.len() == 0 {
                return None;
            }
            proof {
                assert forall|j: int| 0 <= j < cases@.len() implies decreases_to!(op => *cases@[j].1) by {
                    assert(decreases_to!(op => *cases));
                    assert(decreases_to!(*cases => cases@));
                    assert(decreases_to!(cases@ => cases@[j]));
                    assert(decreases_to!(cases@[j] => cases@[j].1));
                }
                assert(decreases_to!(op => *cases@[0].1));
            }
            let first = match op_static(&cases[0].1) {
                Some(f) => f,
                None => return None,
            };
            let mut k: usize = 0;
            while k < cases.len()
                invariant
                    k <= cases@.len(),
                    op_static_spec(*cases@[0].1) == Some(first as nat),
                    cases_static(cases@.subrange(0, k as int), first as nat),
                    forall|j: int| 0 <= j < cases@.len() ==> decreases_to!(op => *cases@[j].1),
                decreases cases@.len() - k,
            {
                proof { assert(decreases_to!(op => *cases@[k as int].1)); }
                let here = op_static(&cases[k].1);
                proof {
                    assert(cases@.subrange(0, k + 1).drop_last() =~= cases@.subrange(0, k as int));
                }
                match here {
                    Some(s) => {
                        if s != first {
                            proof { lemma_cases_static_prefix(cases@, (k + 1) as nat, first as nat); }
                            return None;
                        }
                    },
                    None => {
                        proof { lemma_cases_static_prefix(cases@, (k + 1) as nat, first as nat); }
                        return None;
                    },
                }
                k = k + 1;
            }
            proof { assert(cases@.subrange(0, cases@.len() as int) =~= cases@); }
            match default {
                Some(d) => {
                    proof { assert(decreases_to!(op => **d)); }
                    match op_static(d) {
                        Some(s) => if s == first { Some(first) } else { None },
                        None => None,
                    }
                },
                None => Some(first),
            }
        },
        Op::Cond { .. } => None,
    }
}

/// Where a prefix of the cases is not all of size `f`, neither are all of
/// them.
proof fn lemma_cases_static_prefix(cases: Seq<(i64, Box<Op>)>, k: nat, f: nat)
    requires
        k <= cases.len(),
        !cases_static(cases.subrange(0, k as int), f),
    ensures
        !cases_static(cases, f),
    decreases cases.len() - k,
{
    if k < cases.len() {
        assert(cases.subrange(0, (k + 1) as int).drop_last() =~= cases.subrange(0, k as int));
        lemma_cases_static_prefix(cases, k + 1, f);
    } else {
        assert(cases.subrange(0, k as int) =~= cases);
    }
}

// ---------- nesting depth ----------

/// How many frames unpacking a program needs at its deepest: one for the
/// program and one more for each struct nested in it.
pub open spec fn prog_frames(p: Program) -> nat
    decreases p, 3nat,
{
    sat_add(1, ops_frames(p.ops@))
}

pub open spec fn ops_frames(ops: Seq<Op>) -> nat
    decreases ops, 2nat,
{
    if ops.len() == 0 {
        0
    } else {
        let a = ops_frames(ops.drop_last());
        let b = op_frames(ops.last());
        if a < b { b } else { a }
    }
}

/// The frames an op's own decoding needs: a nested struct costs its
/// program's frames; an array element, a switch branch and a `when` field
/// decode in the frame they are in.
pub open spec fn op_frames(op: Op) -> nat
    decreases op, 1nat,
{
    match op {
        Op::Nest { prog, .. } => prog_frames(*prog),
        Op::Array { elem, .. } => op_frames(*elem),
        Op::Cond { then, .. } => op_frames(*then),
        Op::Switch { cases, default, .. } => {
            let a = cases_frames(cases@);
            let b = match default {
                Some(d) => op_frames(*d),
                None => 0,
            };
            if a < b { b } else { a }
        },
        _ => 0,
    }
}

pub open spec fn cases_frames(cases: Seq<(i64, Box<Op>)>) -> nat
    decreases cases, 0nat,
{
    if cases.len() == 0 {
        0
    } else {
        let a = cases_frames(cases.drop_last());
        let b = op_frames(*cases.last().1);
        if a < b { b } else { a }
    }
}

fn frame_depth(prog: &Program) -> (r: usize)
    ensures
        r == prog_frames(*prog),
    decreases prog, 3nat,
{
    let mut m: usize = 0;
    let mut k: usize = 0;
    while k < prog.ops.len()
        invariant
            k <= prog.ops@.len(),
            m == ops_frames(prog.ops@.subrange(0, k as int)),
        decreases prog.ops@.len() - k,
    {
        proof { assert(decreases_to!(prog => prog.ops@[k as int])); }
        let here = op_depth(&prog.ops[k]);
        proof { assert(prog.ops@.subrange(0, k + 1).drop_last() =~= prog.ops@.subrange(0, k as int)); }
        if here > m {
            m = here;
        }
        k = k + 1;
    }
    proof { assert(prog.ops@.subrange(0, prog.ops@.len() as int) =~= prog.ops@); }
    if m == usize::MAX { usize::MAX } else { m + 1 }
}

fn op_depth(op: &Op) -> (r: usize)
    ensures
        r == op_frames(*op),
    decreases op, 1nat,
{
    match op {
        Op::Nest { prog, .. } => {
            proof { assert(decreases_to!(op => **prog)); }
            frame_depth(prog)
        },
        Op::Array { elem, .. } => {
            proof { assert(decreases_to!(op => **elem)); }
            op_depth(elem)
        },
        Op::Cond { then, .. } => {
            proof { assert(decreases_to!(op => **then)); }
            op_depth(then)
        },
        Op::Switch { cases, default, .. } => {
            proof {
                assert forall|j: int| 0 <= j < cases@.len() implies decreases_to!(op => *cases@[j].1) by {
                    assert(decreases_to!(op => *cases));
                    assert(decreases_to!(*cases => cases@));
                    assert(decreases_to!(cases@ => cases@[j]));
                    assert(decreases_to!(cases@[j] => cases@[j].1));
                }
            }
            let mut m: usize = 0;
            let mut k: usize = 0;
            while k < cases.len()
                invariant
                    k <= cases@.len(),
                    m == cases_frames(cases@.subrange(0, k as int)),
                    forall|j: int| 0 <= j < cases@.len() ==> decreases_to!(op => *cases@[j].1),
                decreases cases@.len() - k,
            {
                proof { assert(decreases_to!(op => *cases@[k as int].1)); }
                let here = op_depth(&cases[k].1);
                proof { assert(cases@.subrange(0, k + 1).drop_last() =~= cases@.subrange(0, k as int)); }
                if here > m {
                    m = here;
                }
                k = k + 1;
            }
            proof { assert(cases@.subrange(0, cases@.len() as int) =~= cases@); }
            let d = match default {
                Some(d) => {
                    proof { assert(decreases_to!(op => **d)); }
                    op_depth(d)
                },
                None => 0,
            };
            if m < d { d } else { m }
        },
        _ => 0,
    }
}

// ---------- names and messages ----------

/// How `{:?}` prints an integer type.
pub open spec fn prim_name(p: crate::program::IntPrim) -> Seq<char> {
    match p {
        crate::program::IntPrim::U8 => "U8"@,
        crate::program::IntPrim::I8 => "I8"@,
        crate::program::IntPrim::U16 => "U16"@,
        crate::program::IntPrim::I16 => "I16"@,
        crate::program::IntPrim::U32 => "U32"@,
        crate::program::IntPrim::I32 => "I32"@,
        crate::program::IntPrim::U64 => "U64"@,
        crate::program::IntPrim::I64 => "I64"@,
    }
}

fn prim_str(p: crate::program::IntPrim) -> (r: &'static str)
    ensures
        r@ == prim_name(p),
{
    proof {
        reveal_strlit("U8");
        reveal_strlit("I8");
        reveal_strlit("U16");
        reveal_strlit("I16");
        reveal_strlit("U32");
        reveal_strlit("I32");
        reveal_strlit("U64");
        reveal_strlit("I64");
    }
    match p {
        crate::program::IntPrim::U8 => "U8",
        crate::program::IntPrim::I8 => "I8",
        crate::program::IntPrim::U16 => "U16",
        crate::program::IntPrim::I16 => "I16",
        crate::program::IntPrim::U32 => "U32",
        crate::program::IntPrim::I32 => "I32",
        crate::program::IntPrim::U64 => "U64",
        crate::program::IntPrim::I64 => "I64",
    }
}

/// A message made of a head, a quoted name and a tail.
fn msg_q(head: &str, name: &str, tail: &str) -> (r: SchemaError)
    ensures
        r.msg@ == head@ + debug_quoted(name@) + tail@,
{
    let mut m = string_of(head);
    let q = quoted(name);
    push_str(&mut m, q.as_str());
    push_str(&mut m, tail);
    proof { assert(m@ =~= head@ + debug_quoted(name@) + tail@); }
    err(m)
}

/// The value of a name as an encoding: matched loosely against the
/// published names, then the aliases.
pub open spec fn enc_of(s: Seq<char>) -> Option<Enc> {
    match first_match(seq![("utf-8", Enc::Utf8), ("ascii", Enc::Ascii), ("latin-1", Enc::Latin1)], true, s, 0) {
        Some(e) => Some(e),
        None => first_match(seq![("us-ascii", Enc::Ascii), ("iso-8859-1", Enc::Latin1)], true, s, 0),
    }
}

/// The encoding a str/cstr field names. Only strict error handling exists.
fn parse_enc(encoding: &str, errors: &str) -> (r: Result<Enc, SchemaError>)
    ensures
        errors@ != "strict"@ ==> (r matches Err(e) && e.msg@ == "errors="@ + debug_quoted(errors@)
            + " is not supported by the v1 core (only \"strict\")"@),
        errors@ == "strict"@ ==> match enc_of(encoding@) {
            Some(x) => r == Ok::<Enc, SchemaError>(x),
            None => r matches Err(e) && e.msg@ == "encoding "@ + debug_quoted(encoding@)
                + " is not supported by the v1 core (utf-8/ascii/latin-1)"@,
        },
{
    if !str_eq(errors, "strict") {
        return Err(msg_q("errors=", errors, " is not supported by the v1 core (only \"strict\")"));
    }
    let set = encodings();
    match set.get(encoding) {
        Some(e) => Ok(e),
        None => Err(msg_q("encoding ", encoding, " is not supported by the v1 core (utf-8/ascii/latin-1)")),
    }
}

/// A CRC model with the given overrides applied.
pub open spec fn overridden(s: crate::digest::CrcSpec, ov: CrcOverrides) -> crate::digest::CrcSpec {
    crate::digest::CrcSpec {
        width: s.width,
        poly: match ov.poly { Some(p) => p, None => s.poly },
        init: match ov.init { Some(i) => i, None => s.init },
        xorout: match ov.xorout { Some(x) => x, None => s.xorout },
        refin: match ov.refin { Some(r) => r, None => s.refin },
        refout: match ov.refout { Some(r) => r, None => s.refout },
    }
}

/// The algorithm a digest field names, with a CRC's parameters
/// overridden where asked; a hash takes no overrides.
fn parse_algo(name: &str, ov: &CrcOverrides) -> (r: Result<Algo, SchemaError>)
    ensures
        match first_match(algos_table(), false, name@, 0) {
            None => r matches Err(e) && e.msg@ == "digest: unknown algo "@ + debug_quoted(name@) + ""@,
            Some(Algo::Crc(s)) => r == Ok::<Algo, SchemaError>(Algo::Crc(overridden(s, *ov))),
            Some(a) => if ov.poly is Some || ov.init is Some || ov.xorout is Some || ov.refin is Some
                || ov.refout is Some {
                r is Err
            } else {
                r == Ok::<Algo, SchemaError>(a)
            },
        },
{
    let algo = match Algo::preset(name) {
        Some(a) => a,
        None => return Err(msg_q("digest: unknown algo ", name, "")),
    };
    match algo {
        Algo::Crc(spec) => {
            let mut s = spec;
            if let Some(p) = ov.poly {
                s.poly = p;
            }
            if let Some(i) = ov.init {
                s.init = i;
            }
            if let Some(x) = ov.xorout {
                s.xorout = x;
            }
            if let Some(r) = ov.refin {
                s.refin = r;
            }
            if let Some(r) = ov.refout {
                s.refout = r;
            }
            Ok(Algo::Crc(s))
        },
        other => {
            if ov.any() {
                return Err(err_str(
                    "digest: poly/init/xorout/refin/refout overrides only apply to a CRC algo, not a hash",
                ));
            }
            Ok(other)
        },
    }
}

/// A field that must have a name.
fn named_only(name: Option<String>, what: &str) -> (r: Result<String, SchemaError>)
    ensures
        match name {
            Some(n) => r == Ok::<String, SchemaError>(n),
            None => r matches Err(e) && e.msg@ == what@
                + " cannot be unnamed (only fixed-width types, bits and raw may be unnamed)"@,
        },
{
    match name {
        Some(n) => Ok(n),
        None => {
            let mut m = string_of(what);
            push_str(&mut m, " cannot be unnamed (only fixed-width types, bits and raw may be unnamed)");
            Err(err(m))
        },
    }
}

/// An element position's op for a fixed-width type: one unnamed item.
fn fixed1(kind: FixKind) -> (r: Op)
    ensures
        r matches Op::Fixed { width, items } && width == kind.spec_width() && items@.len() == 1
            && items@[0].off == 0 && items@[0].kind == kind && items@[0].reg is None
            && items@[0].span is None && items@[0].key is Skip,
{
    let w = kind.width();
    Op::Fixed { width: w, items: vec![FixedItem { off: 0, kind, reg: None, span: None, key: Key::Skip }] }
}

// ---------- schemas of fixed-width fields ----------

/// A field the compiler places in a run of fixed-width fields as it stands:
/// named, and of a fixed-width type whose own checks pass.
pub open spec fn plain_fixed(f: FieldIn) -> bool {
    &&& f.name matches Some(n) && n@.len() > 0
    &&& match f.ty {
        TypeIn::Int { prim, const_, .. } => const_ matches Some(c) ==> prim.spec_min() <= c <= prim.spec_max(),
        TypeIn::Float { .. } => true,
        TypeIn::Bool { .. } => true,
        TypeIn::Raw { len, const_ } => match (len, const_) {
            (Some(l), Some(c)) => l == c@.len(),
            (None, None) => false,
            _ => true,
        },
        _ => false,
    }
}

/// The bytes a plain fixed field occupies.
pub open spec fn plain_width(t: TypeIn) -> nat {
    match t {
        TypeIn::Int { prim, .. } => prim.spec_width(),
        TypeIn::Float { is64, .. } => if is64 { 8 } else { 4 },
        TypeIn::Bool { .. } => 1,
        TypeIn::Raw { len, const_ } => match len {
            Some(l) => l as nat,
            None => match const_ {
                Some(c) => c@.len(),
                None => 0,
            },
        },
        _ => 0,
    }
}

/// Where the `k`-th of a run of plain fixed fields starts.
pub open spec fn widths_upto(fields: Seq<FieldIn>, k: nat) -> nat
    decreases k,
{
    if k == 0 { 0 } else { widths_upto(fields, (k - 1) as nat) + plain_width(fields[k - 1].ty) }
}

/// A field whose compilation depends on nothing around it: a plain fixed
/// field, a named C string in a supported encoding, a named flags field
/// whose masks and rest policy are valid, a named struct of fixed fields,
/// or a named array of scalars whose count needs no other field.
pub open spec fn simple_field(f: FieldIn) -> bool {
    ||| plain_fixed(f)
    ||| (f.name matches Some(n) && n@.len() > 0 && match f.ty {
        TypeIn::CStrT { encoding, errors, .. } => errors@ == "strict"@ && enc_of(encoding@) is Some,
        TypeIn::FlagsT { base, names, rest, .. } => !base.spec_signed() && policy_of(rest@) is Some
            && names_valid(base, names@),
        TypeIn::StructT { .. } => fixed_struct(f.ty),
        TypeIn::ArrayT { elem, count, until_eof } => plain_count(count, until_eof) && scalar_elem(*elem),
        _ => false,
    })
}

/// A struct of plain fixed fields with no size, or a constant size equal
/// to the body's.
pub open spec fn fixed_struct(t: TypeIn) -> bool {
    t matches TypeIn::StructT { fields, size, .. } && fixed_schema(fields@) && match size {
        None => true,
        Some(e) => fold_spec(e) matches Ok(ExprIn::Imm(k)) && k >= 0 && k == widths_upto(fields@, fields@.len()),
    }
}

/// The first `n` fields are such fields, with distinct names, whose fixed
/// widths fit in memory.
pub open spec fn simple_upto(fields: Seq<FieldIn>, n: nat) -> bool {
    &&& n <= fields.len()
    &&& forall|k: int| 0 <= k < n ==> #[trigger] simple_field(fields[k])
    &&& forall|i: int, j: int| 0 <= i < j < n
        ==> (#[trigger] fields[i].name)->Some_0@ != (#[trigger] fields[j].name)->Some_0@
    &&& widths_upto(fields, n) <= usize::MAX
}

/// A schema of such fields: one that always compiles.
pub open spec fn simple_schema(fields: Seq<FieldIn>) -> bool {
    simple_upto(fields, fields.len())
}

/// Field `k` joins the run of fixed fields the field before it is in.
pub open spec fn run_join(fields: Seq<FieldIn>, k: int) -> bool {
    k > 0 && plain_fixed(fields[k]) && plain_fixed(fields[k - 1])
}

/// The index of the op field `k` of such a schema compiles into: plain
/// fixed fields in a row share one run, every other field has an op.
pub open spec fn op_idx(fields: Seq<FieldIn>, k: int) -> int
    decreases k,
{
    if k <= 0 { 0 } else if run_join(fields, k) { op_idx(fields, k - 1) } else { op_idx(fields, k - 1) + 1 }
}

/// The index of a plain fixed field's item within its run.
pub open spec fn item_idx(fields: Seq<FieldIn>, k: int) -> int
    decreases k,
{
    if k <= 0 { 0 } else if run_join(fields, k) { item_idx(fields, k - 1) + 1 } else { 0 }
}

/// How many ops the first `n` fields of such a schema compile into.
pub open spec fn ops_for(fields: Seq<FieldIn>, n: int) -> int {
    if n <= 0 { 0 } else { op_idx(fields, n - 1) + 1 }
}

/// Field `k` of such a schema, compiled with options `opts` and scope
/// byte order `bo`, is where `op_idx` says in `ops`: an item of a run for
/// a plain fixed field, else its own named op, whose limit is the field's
/// or else the options' default.
pub open spec fn field_op(fields: Seq<FieldIn>, k: int, ops: Seq<Op>, bo: ByteOrder, opts: Options) -> bool {
    let f = fields[k];
    let op = ops[op_idx(fields, k)];
    &&& 0 <= op_idx(fields, k) < ops.len()
    &&& if plain_fixed(f) {
        op matches Op::Fixed { items, .. } && 0 <= item_idx(fields, k) < items@.len()
            && item_for(items@[item_idx(fields, k)], f, bo)
    } else {
        &&& named_common(op, f.name->Some_0@)
        &&& match f.ty {
            TypeIn::CStrT { max, encoding, .. } => op matches Op::CStr { max: m, enc, .. }
                && m == (match max { Some(x) => x, None => opts.max_default }) && enc_of(encoding@) == Some(enc),
            TypeIn::FlagsT { base, byteorder, names, rest } => flags_built(base, byteorder, names@, rest@, bo, op),
            TypeIn::StructT { fields: body, byteorder, .. } => op matches Op::Nest { prog, .. }
                && fixed_run_of(*prog, body@, match byteorder { Some(x) => x, None => bo }),
            TypeIn::ArrayT { .. } => array_plain_op(f.ty, bo, opts, op),
            _ => false,
        }
    }
}

proof fn lemma_idx_nonneg(fields: Seq<FieldIn>, k: int)
    ensures
        op_idx(fields, k) >= 0,
        item_idx(fields, k) >= 0,
    decreases k,
{
    if k > 0 {
        lemma_idx_nonneg(fields, k - 1);
    }
}

/// One more field of such a schema placed: where it extends the last run
/// or adds an op, every field placed so far stays where `field_op` says.
proof fn lemma_simple_placed(fields: Seq<FieldIn>, i: int, ob: Seq<Op>, nb: Seq<Op>, bo: ByteOrder, opts: Options)
    requires
        0 <= i < fields.len(),
        ob.len() == ops_for(fields, i),
        forall|k: int| 0 <= k < i ==> #[trigger] field_op(fields, k, ob, bo, opts),
        i > 0 ==> (plain_fixed(fields[i - 1]) <==> ob.last() is Fixed),
        i > 0 ==> (plain_fixed(fields[i - 1]) ==> (ob.last() matches Op::Fixed { items, .. }
            && items@.len() == item_idx(fields, i - 1) + 1)),
        i == 0 ==> ob.len() == 0,
        // a run extended
        (plain_fixed(fields[i]) && ob.len() > 0 && ob.last() is Fixed) ==> {
            &&& nb.len() == ob.len()
            &&& nb.drop_last() == ob.drop_last()
            &&& nb.last() matches Op::Fixed { items: it2, .. }
            &&& ob.last() matches Op::Fixed { items, .. }
            &&& it2@.len() == items@.len() + 1
            &&& it2@.drop_last() == items@
            &&& item_for(it2@.last(), fields[i], bo)
        },
        // a new run
        (plain_fixed(fields[i]) && !(ob.len() > 0 && ob.last() is Fixed)) ==> {
            &&& nb.len() == ob.len() + 1
            &&& nb.drop_last() == ob
            &&& nb.last() matches Op::Fixed { items, .. }
            &&& items@.len() == 1
            &&& item_for(items@[0], fields[i], bo)
        },
        // an op of its own
        !plain_fixed(fields[i]) ==> {
            &&& nb.len() == ob.len() + 1
            &&& nb.drop_last() == ob
            &&& !(nb.last() is Fixed)
            &&& named_common(nb.last(), fields[i].name->Some_0@)
            &&& match fields[i].ty {
                TypeIn::CStrT { max, encoding, .. } => nb.last() matches Op::CStr { max: m, enc, .. }
                    && m == (match max { Some(x) => x, None => opts.max_default }) && enc_of(encoding@) == Some(enc),
                TypeIn::FlagsT { base, byteorder, names, rest } => flags_built(base, byteorder, names@, rest@, bo, nb.last()),
                TypeIn::StructT { fields: body, byteorder, .. } => nb.last() matches Op::Nest { prog, .. }
                    && fixed_run_of(*prog, body@, match byteorder { Some(x) => x, None => bo }),
                TypeIn::ArrayT { .. } => array_plain_op(fields[i].ty, bo, opts, nb.last()),
                _ => false,
            }
        },
    ensures
        nb.len() == ops_for(fields, i + 1),
        forall|k: int| 0 <= k < i + 1 ==> #[trigger] field_op(fields, k, nb, bo, opts),
        plain_fixed(fields[i]) <==> nb.last() is Fixed,
        plain_fixed(fields[i]) ==> (nb.last() matches Op::Fixed { items, .. } && items@.len() == item_idx(fields, i) + 1),
{
    if i > 0 {
        lemma_idx_nonneg(fields, i - 1);
    }
    let ext = plain_fixed(fields[i]) && ob.len() > 0 && ob.last() is Fixed;
    if ext {
        assert(i > 0);
        assert(run_join(fields, i));
        assert(op_idx(fields, i) == op_idx(fields, i - 1));
        assert(item_idx(fields, i) == item_idx(fields, i - 1) + 1);
    } else if i > 0 {
        assert(!run_join(fields, i));
    }
    assert forall|k: int| 0 <= k < i + 1 implies #[trigger] field_op(fields, k, nb, bo, opts) by {
        if k < i {
            assert(field_op(fields, k, ob, bo, opts));
            let j = op_idx(fields, k);
            if j < ob.len() - 1 || !ext {
                if ext {
                    assert(nb[j] == nb.drop_last()[j]);
                    assert(ob[j] == ob.drop_last()[j]);
                } else {
                    assert(nb[j] == nb.drop_last()[j]);
                }
                assert(nb[j] == ob[j]);
            } else {
                assert(j == ob.len() - 1);
                assert(nb[j] == nb.last());
                assert(ob[j] == ob.last());
                if let Op::Fixed { items: it2, .. } = nb.last() {
                    if let Op::Fixed { items, .. } = ob.last() {
                        if plain_fixed(fields[k]) {
                            assert(it2@[item_idx(fields, k)] == it2@.drop_last()[item_idx(fields, k)]);
                        }
                    }
                }
            }
        }
    }
}

/// Field `j` repeats the name of an earlier field, and the fields before
/// it are such fields: the first place the schema breaks.
pub open spec fn dup_at(fields: Seq<FieldIn>, j: int) -> bool {
    &&& 0 <= j < fields.len()
    &&& simple_upto(fields, j as nat)
    &&& fields[j].name matches Some(n) && n@.len() > 0
    &&& exists|i: int| 0 <= i < j && (#[trigger] fields[i].name)->Some_0@ == fields[j].name->Some_0@
}

/// How many structs a schema nests below itself, where it is a chain: a
/// schema of plain fixed fields (none), or one named field holding a
/// struct, with no size, whose body is such a chain.
pub open spec fn nest_chain(fields: Seq<FieldIn>) -> Option<nat>
    decreases fields,
{
    if fixed_schema(fields) {
        Some(0)
    } else if fields.len() == 1 && (fields[0].name matches Some(n) && n@.len() > 0) {
        match fields[0].ty {
            TypeIn::StructT { fields: body, size: None, .. } => {
                proof {
                    assert(decreases_to!(fields => fields[0]));
                    assert(decreases_to!(fields[0] => fields[0].ty));
                    assert(decreases_to!(fields[0].ty => body));
                    assert(decreases_to!(body => body@));
                }
                match nest_chain(body@) {
                    Some(d) => Some(d + 1),
                    None => None,
                }
            },
            _ => None,
        }
    } else {
        None
    }
}

/// The program such a chain compiles to with scope byte order `bo`: a
/// run of fixed fields, or one named struct op holding the body's program.
pub open spec fn chain_prog(p: Program, fields: Seq<FieldIn>, bo: ByteOrder) -> bool
    decreases fields,
{
    if fixed_schema(fields) {
        fixed_run_of(p, fields, bo)
    } else if fields.len() == 1 && (fields[0].name matches Some(n) && n@.len() > 0) {
        match fields[0].ty {
            TypeIn::StructT { fields: body, size: None, byteorder } => {
                proof {
                    assert(decreases_to!(fields => fields[0]));
                    assert(decreases_to!(fields[0] => fields[0].ty));
                    assert(decreases_to!(fields[0].ty => body));
                    assert(decreases_to!(body => body@));
                }
                &&& p.ops@.len() == 1
                &&& named_common(p.ops@[0], fields[0].name->Some_0@)
                &&& p.ops@[0] matches Op::Nest { prog, size: None, .. }
                &&& chain_prog(*prog, body@, match byteorder { Some(b) => b, None => bo })
            },
            _ => false,
        }
    } else {
        false
    }
}

/// A struct with no size whose body is such a chain.
pub open spec fn chain_struct(t: TypeIn) -> bool {
    t matches TypeIn::StructT { fields: body, size: None, .. } && nest_chain(body@) is Some
}

/// The frames a chain `d` structs deep takes to unpack: one per level and
/// one for the schema itself (saturating).
pub open spec fn chain_frames(d: nat) -> nat {
    if d + 1 <= usize::MAX { d + 1 } else { usize::MAX as nat }
}

/// Field `j` comes after such fields, under a new name.
pub open spec fn fresh_after_simple(fields: Seq<FieldIn>, j: int) -> bool {
    &&& 0 <= j < fields.len()
    &&& simple_upto(fields, j as nat)
    &&& fields[j].name matches Some(n) && n@.len() > 0
    &&& forall|i: int| 0 <= i < j ==> (#[trigger] fields[i].name)->Some_0@ != fields[j].name->Some_0@
}

/// Field `j`, after such fields and under a new name, is a bytes field.
pub open spec fn bytes_after_simple(fields: Seq<FieldIn>, j: int) -> bool {
    fresh_after_simple(fields, j) && fields[j].ty is Bytes
}

/// Field `j`, after such fields and under a new name, is a struct of plain
/// fixed fields whose stated constant size differs from its body's.
pub open spec fn size_mismatch_at(fields: Seq<FieldIn>, j: int) -> bool {
    &&& fresh_after_simple(fields, j)
    &&& fields[j].ty matches TypeIn::StructT { fields: body, size: Some(e), .. } && fixed_schema(body@)
        && (fold_spec(e) matches Ok(ExprIn::Imm(k)) && k >= 0 && k != widths_upto(body@, body@.len()))
}

/// The message such a struct is refused with.
pub open spec fn size_mismatch_msg(t: TypeIn) -> Seq<char> {
    let body = t->StructT_fields@;
    "struct.size="@ + dec_chars(fold_spec(t->StructT_size->Some_0)->Ok_0->Imm_0 as nat)
        + " does not match the static body size "@ + dec_chars(widths_upto(body, body.len()))
}

/// What the length of a bytes field folds to.
pub open spec fn folded_len(f: FieldIn) -> Result<ExprIn, Seq<char>> {
    fold_spec(f.ty->Bytes_len)
}

/// Field `j` is such a bytes field whose length reads two or more fields.
pub open spec fn tangled_len_at(fields: Seq<FieldIn>, j: int) -> bool {
    bytes_after_simple(fields, j) && (folded_len(fields[j]) matches Ok(fl) && refs_in(fl).len() >= 2)
}

/// Field `j` is such a bytes field whose length is one name that no
/// earlier field has.
pub open spec fn forward_len_at(fields: Seq<FieldIn>, j: int) -> bool {
    &&& bytes_after_simple(fields, j)
    &&& folded_len(fields[j]) matches Ok(ExprIn::Ref(n))
        && forall|i: int| 0 <= i < j ==> (#[trigger] fields[i].name)->Some_0@ != n@
}

/// The name such a length reads.
pub open spec fn len_ref_name(f: FieldIn) -> Seq<char> {
    folded_len(f)->Ok_0->Ref_0@
}

proof fn lemma_simple_mono(fields: Seq<FieldIn>, n: nat, m: nat)
    requires
        simple_upto(fields, m),
        n <= m,
    ensures
        simple_upto(fields, n),
{
    lemma_widths_mono(fields, n, m);
}

proof fn lemma_dup_unique(fields: Seq<FieldIn>, a: int, b: int)
    requires
        dup_at(fields, a),
        dup_at(fields, b),
    ensures
        a == b,
{
    if a < b {
        let i = choose|i: int| 0 <= i < a && (#[trigger] fields[i].name)->Some_0@ == fields[a].name->Some_0@;
        assert(fields[i].name->Some_0@ != fields[a].name->Some_0@);
    } else if b < a {
        let i = choose|i: int| 0 <= i < b && (#[trigger] fields[i].name)->Some_0@ == fields[b].name->Some_0@;
        assert(fields[i].name->Some_0@ != fields[b].name->Some_0@);
    }
}

/// An op that nests at most one run of fixed fields: a run of fixed
/// fields, a C string, flags, a struct of one such run, or an array of
/// one fixed item.
pub open spec fn flat_op(op: Op) -> bool {
    ||| op is Fixed
    ||| op is CStr
    ||| op is Flags
    ||| (op matches Op::Nest { prog, .. } && prog.ops@.len() == 1 && prog.ops@[0] is Fixed)
    ||| (op matches Op::Array { elem, .. } && *elem is Fixed)
}

/// A flat op, or a bytes op.
pub open spec fn shallow_op(op: Op) -> bool {
    flat_op(op) || op is Bytes
}

proof fn lemma_shallow_frames(ops: Seq<Op>)
    requires
        forall|k: int| 0 <= k < ops.len() ==> shallow_op(#[trigger] ops[k]),
    ensures
        ops_frames(ops) <= 1,
    decreases ops.len(),
{
    if ops.len() > 0 {
        assert forall|k: int| 0 <= k < ops.drop_last().len() implies shallow_op(#[trigger] ops.drop_last()[k]) by {
            assert(ops.drop_last()[k] == ops[k]);
        }
        lemma_shallow_frames(ops.drop_last());
        assert(shallow_op(ops[ops.len() - 1]));
        if let Op::Nest { prog, .. } = ops.last() {
            let inner = prog.ops@;
            assert(inner.drop_last() =~= Seq::<Op>::empty());
            assert(ops_frames(inner.drop_last()) == 0);
            assert(op_frames(inner.last()) == 0);
            assert(ops_frames(inner) == 0);
            assert(prog_frames(*prog) == sat_add(1, 0));
            assert(op_frames(ops.last()) == prog_frames(*prog));
        }
        if let Op::Array { elem, .. } = ops.last() {
            assert(op_frames(*elem) == 0);
        }
        assert(op_frames(ops.last()) <= 1);
    }
}

proof fn lemma_flat_frames(ops: Seq<Op>)
    requires
        forall|k: int| 0 <= k < ops.len() ==> flat_op(#[trigger] ops[k]),
    ensures
        ops_frames(ops) <= 1,
    decreases ops.len(),
{
    if ops.len() > 0 {
        assert forall|k: int| 0 <= k < ops.drop_last().len() implies flat_op(#[trigger] ops.drop_last()[k]) by {
            assert(ops.drop_last()[k] == ops[k]);
        }
        lemma_flat_frames(ops.drop_last());
        assert(flat_op(ops[ops.len() - 1]));
        if let Op::Nest { prog, .. } = ops.last() {
            let inner = prog.ops@;
            assert(inner.drop_last() =~= Seq::<Op>::empty());
            assert(ops_frames(inner.drop_last()) == 0);
            assert(op_frames(inner.last()) == 0);
            assert(ops_frames(inner) == 0);
            assert(prog_frames(*prog) == sat_add(1, 0));
            assert(op_frames(ops.last()) == prog_frames(*prog));
        }
        if let Op::Array { elem, .. } = ops.last() {
            assert(op_frames(*elem) == 0);
        }
        assert(op_frames(ops.last()) <= 1);
    }
}

/// A non-empty schema of plain fixed fields with distinct names whose
/// widths fit in memory: what compiles to a single run of fixed fields.
pub open spec fn fixed_schema(fields: Seq<FieldIn>) -> bool {
    &&& fields.len() > 0
    &&& forall|k: int| 0 <= k < fields.len() ==> #[trigger] plain_fixed(fields[k])
    &&& forall|i: int, j: int| 0 <= i < j < fields.len()
        ==> (#[trigger] fields[i].name)->Some_0@ != (#[trigger] fields[j].name)->Some_0@
    &&& widths_upto(fields, fields.len()) <= usize::MAX
}

/// The byte order a field uses: its own, else its scope's.
pub open spec fn be_of(given: Option<ByteOrder>, scope: ByteOrder) -> bool {
    (match given { Some(b) => b, None => scope }) == ByteOrder::Big
}

/// The item kind a plain fixed field's type compiles to.
pub open spec fn kind_of(k: FixKind, t: TypeIn, bo: ByteOrder) -> bool {
    match t {
        TypeIn::Int { prim, byteorder, const_ } => k == FixKind::Int { prim, be: be_of(byteorder, bo), expected: const_, derived: false },
        TypeIn::Float { is64, byteorder } => k == if is64 { FixKind::F64 { be: be_of(byteorder, bo) } } else { FixKind::F32 { be: be_of(byteorder, bo) } },
        TypeIn::Bool { const_ } => k == FixKind::Bool { expected: const_ },
        TypeIn::Raw { const_, .. } => k matches FixKind::Raw { len, expected } && len == plain_width(t) && match (expected, const_) {
            (Some(e), Some(c)) => e@ == c@,
            (None, None) => true,
            _ => false,
        },
        _ => false,
    }
}

/// The item a plain fixed field compiles to: under its name, with the
/// kind its type gives.
pub open spec fn item_for(it: FixedItem, f: FieldIn, bo: ByteOrder) -> bool {
    &&& it.key matches Key::Named(n) && n@ == f.name->Some_0@
    &&& it.reg is None
    &&& kind_of(it.kind, f.ty, bo)
}

/// The first `i` fields, placed as one run of fixed fields: item `k` is
/// field `k`, at the widths of the fields before it.
pub open spec fn run_prefix(ops: Seq<Op>, fields: Seq<FieldIn>, i: nat, bo: ByteOrder) -> bool {
    &&& ops.len() == 1
    &&& ops[0] matches Op::Fixed { width, items }
    &&& width == widths_upto(fields, i)
    &&& items@.len() == i
    &&& forall|k: int| 0 <= k < i ==> (#[trigger] items@[k]).off == widths_upto(fields, k as nat)
        && item_for(items@[k], fields[k], bo)
}

/// What a schema of plain fixed fields compiles to: one run of fixed
/// fields, an item per field in order.
pub open spec fn fixed_run_of(p: Program, fields: Seq<FieldIn>, bo: ByteOrder) -> bool {
    run_prefix(p.ops@, fields, fields.len(), bo)
}

pub proof fn lemma_widths_mono(fields: Seq<FieldIn>, a: nat, b: nat)
    requires
        a <= b,
    ensures
        widths_upto(fields, a) <= widths_upto(fields, b),
    decreases b,
{
    if a < b {
        lemma_widths_mono(fields, a, (b - 1) as nat);
    }
}

/// An item's kind is as wide as its field.
proof fn lemma_kind_width(k: FixKind, t: TypeIn, bo: ByteOrder)
    requires
        kind_of(k, t, bo),
    ensures
        k.spec_width() == plain_width(t),
{
}

/// The items' offsets are the sums of the widths before them.
proof fn lemma_offsets(items: Seq<FixedItem>, fields: Seq<FieldIn>, bo: ByteOrder, k: nat)
    requires
        k <= items.len(),
        items.len() <= fields.len(),
        forall|j: int| 0 <= j < items.len() ==> item_for(#[trigger] items[j], fields[j], bo),
    ensures
        crate::fixed::offset_sum(items, k) == widths_upto(fields, k),
    decreases k,
{
    if k > 0 {
        lemma_offsets(items, fields, bo, (k - 1) as nat);
        assert(item_for(items[k - 1], fields[k - 1], bo));
        lemma_kind_width(items[k - 1].kind, fields[k - 1].ty, bo);
    }
}

/// A schema of plain fixed fields compiles to a static run: the shape the
/// laws of `fixed` speak of.
pub proof fn lemma_fixed_schema_static(p: Program, fields: Seq<FieldIn>, bo: ByteOrder)
    requires
        fixed_schema(fields),
        fixed_run_of(p, fields, bo),
    ensures
        crate::fixed::static_run(p),
{
    if let Op::Fixed { width, items } = p.ops@[0] {
        assert forall|k: int| 0 <= k < items@.len() implies item_for(#[trigger] items@[k], fields[k], bo) by {}
        lemma_offsets(items@, fields, bo, items@.len());
        assert forall|k: int| 0 <= k < items@.len() implies #[trigger] items@[k].off == crate::fixed::offset_sum(items@, k as nat) by {
            lemma_offsets(items@, fields, bo, k as nat);
        }
        assert forall|i: int, j: int| 0 <= i < j < items@.len()
            implies (#[trigger] items@[i].key)->Named_0@ != (#[trigger] items@[j].key)->Named_0@ by {
            assert(item_for(items@[i], fields[i], bo));
            assert(item_for(items@[j], fields[j], bo));
            assert(fields[i].name->Some_0@ != fields[j].name->Some_0@);
        }
        assert forall|k: int| 0 <= k < items@.len() implies #[trigger] items@[k].key is Named by {
            assert(item_for(items@[k], fields[k], bo));
        }
        assert forall|k: int| 0 <= k < items@.len()
            implies !(#[trigger] items@[k].kind matches FixKind::Int { expected: None, derived: true, .. }) by {
            assert(item_for(items@[k], fields[k], bo));
        }
    }
}

// ---------- the compiler's state ----------

/// Where a field lives among its scope's ops, for patching registers,
/// derived flags and spans in later.
#[derive(Clone, Copy)]
enum Loc {
    Fix { op: usize, item: usize },
    Bit { op: usize, item: usize },
    Op(usize),
}

/// A named field of a scope being compiled.
struct Sym {
    name: String,
    loc: Loc,
    /// An integer field: expressions may reference it.
    refable: bool,
    is_flags: bool,
    is_const: bool,
    /// A digest's `over` may name it.
    spannable: bool,
    reg: Option<u8>,
    span: Option<u8>,
    /// Decided once the scope is complete: packed from a later length,
    /// count or size rather than supplied.
    derived: bool,
    /// Some length, count or size references it.
    len_referenced: bool,
    /// Some switch reads it as its discriminant.
    used_in_on: bool,
}

/// A struct scope being compiled.
struct Scope {
    ops: Vec<Op>,
    syms: Vec<Sym>,
    nregs: u8,
    nspans: u8,
    /// Digest op index, its `over` and the digest field's name: resolved
    /// when the scope is complete.
    digests: Vec<(usize, OverIn, String)>,
}

fn new_scope() -> (r: Scope)
    ensures
        r.ops@.len() == 0,
        r.syms@.len() == 0,
        r.nregs == 0,
        r.nspans == 0,
        r.digests@.len() == 0,
{
    Scope { ops: Vec::new(), syms: Vec::new(), nregs: 0, nspans: 0, digests: Vec::new() }
}

/// Why an expression references a field.
#[derive(Clone, Copy)]
enum RefCtx {
    /// A length, count or size: the field may become derived.
    Len,
    /// A switch discriminant: the field stays one the caller supplies.
    On,
    /// A `when` predicate: a plain read.
    Pred,
}

struct C {
    opts: Options,
    /// The scopes being compiled, innermost last.
    scopes: Vec<Scope>,
}

/// The first field of `syms` named `name`: minimal, and the only one
/// that is.
spec fn is_first(syms: Seq<Sym>, name: Seq<char>, j: int) -> bool {
    &&& 0 <= j < syms.len()
    &&& syms[j].name@ == name
    &&& forall|k: int| 0 <= k < j ==> syms[k].name@ != name
}

/// The index of the first field of `syms` named `name`, if any.
spec fn first_sym(syms: Seq<Sym>, name: Seq<char>) -> Option<int> {
    if exists|j: int| #[trigger] is_first(syms, name, j) {
        Some(choose|j: int| #[trigger] is_first(syms, name, j))
    } else {
        None
    }
}

proof fn lemma_first_sym(syms: Seq<Sym>, name: Seq<char>, i: int)
    requires
        is_first(syms, name, i),
    ensures
        first_sym(syms, name) == Some(i),
{
    let j = choose|j: int| #[trigger] is_first(syms, name, j);
    assert(is_first(syms, name, j));
    if j < i {
        assert(syms[j].name@ != name);
    }
    if i < j {
        assert(syms[i].name@ != name);
    }
}

/// The index of the first symbol named `name`.
fn find_sym(syms: &Vec<Sym>, name: &str) -> (r: Option<usize>)
    ensures
        match r {
            Some(i) => i < syms@.len() && syms@[i as int].name@ == name@
                && forall|j: int| 0 <= j < i ==> syms@[j].name@ != name@,
            None => forall|j: int| 0 <= j < syms@.len() ==> syms@[j].name@ != name@,
        },
        r matches Some(i) ==> first_sym(syms@, name@) == Some(i as int),
        r is None ==> first_sym(syms@, name@) is None,
{
    let mut k: usize = 0;
    while k < syms.len()
        invariant
            k <= syms@.len(),
            forall|j: int| 0 <= j < k ==> syms@[j].name@ != name@,
        decreases syms@.len() - k,
    {
        if str_eq(syms[k].name.as_str(), name) {
            proof { lemma_first_sym(syms@, name@, k as int); }
            return Some(k);
        }
        k = k + 1;
    }
    None
}

/// The op index a location names.
spec fn loc_index(loc: Loc) -> int {
    match loc {
        Loc::Fix { op, .. } => op as int,
        Loc::Bit { op, .. } => op as int,
        Loc::Op(op) => op as int,
    }
}

/// A fixed item with its register (`what == 0`), derived mark (`1`) or
/// span register (otherwise) set.
pub open spec fn fix_patch(it: FixedItem, what: u8, idx: u8) -> FixedItem {
    if what == 0 {
        FixedItem { off: it.off, kind: it.kind, reg: Some(idx), span: it.span, key: it.key }
    } else if what == 1 {
        FixedItem { off: it.off, kind: derive_kind(it.kind), reg: it.reg, span: it.span, key: it.key }
    } else {
        FixedItem { off: it.off, kind: it.kind, reg: it.reg, span: Some(idx), key: it.key }
    }
}

/// An integer kind marked derived; other kinds as they are.
pub open spec fn derive_kind(k: FixKind) -> FixKind {
    match k {
        FixKind::Int { prim, be, expected, .. } => FixKind::Int { prim, be, expected, derived: true },
        _ => k,
    }
}

/// A bit item with its register (`what == 0`) set or marked derived.
pub open spec fn bit_patch(it: BitItem, what: u8, idx: u8) -> BitItem {
    if what == 0 {
        BitItem { width: it.width, signed: it.signed, reg: Some(idx), derived: it.derived, key: it.key }
    } else {
        BitItem { width: it.width, signed: it.signed, reg: it.reg, derived: true, key: it.key }
    }
}

/// An op that is not a run of items, with span register `idx`.
pub open spec fn spanned(op: Op, idx: u8) -> Op {
    match op {
        Op::Bytes { len, max, c } => Op::Bytes { len, max, c: Common { key: c.key, span: Some(idx) } },
        Op::Str { len, max, enc, c } => Op::Str { len, max, enc, c: Common { key: c.key, span: Some(idx) } },
        Op::CStr { max, enc, c } => Op::CStr { max, enc, c: Common { key: c.key, span: Some(idx) } },
        Op::Flags { prim, be, items, rest, rest_mask, c } => Op::Flags {
            prim, be, items, rest, rest_mask, c: Common { key: c.key, span: Some(idx) },
        },
        Op::Digest { algo, over, verify, be, c } => Op::Digest {
            algo, over, verify, be, c: Common { key: c.key, span: Some(idx) },
        },
        Op::Nest { prog, size, c } => Op::Nest { prog, size, c: Common { key: c.key, span: Some(idx) } },
        Op::Array { count, max_count, elem, elem_min, c } => Op::Array {
            count, max_count, elem, elem_min, c: Common { key: c.key, span: Some(idx) },
        },
        Op::Switch { on, cases, default, c } => Op::Switch {
            on, cases, default, c: Common { key: c.key, span: Some(idx) },
        },
        Op::Cond { pred, then, c } => Op::Cond { pred, then, c: Common { key: c.key, span: Some(idx) } },
        _ => op,
    }
}

/// `r` is `op` with the field at `loc` patched: its register set
/// (`what == 0`), marked derived (`1`) or its span register set
/// (otherwise) to `idx`. A location that names no item of the op leaves
/// it as it is; only a field that is an op of its own takes a span there.
spec fn patched(op: Op, loc: Loc, what: u8, idx: u8, r: Op) -> bool {
    match op {
        Op::Fixed { width, items } => match loc {
            Loc::Fix { item, .. } => if item < items@.len() {
                r matches Op::Fixed { width: w2, items: it2 }
                    && w2 == width && it2@ == items@.update(item as int, fix_patch(items@[item as int], what, idx))
            } else {
                r == op
            },
            _ => r == op,
        },
        Op::BitRun { nbytes, items } => match loc {
            Loc::Bit { item, .. } => if item < items@.len() && what < 2 {
                r matches Op::BitRun { nbytes: n2, items: it2 }
                    && n2 == nbytes && it2@ == items@.update(item as int, bit_patch(items@[item as int], what, idx))
            } else {
                r == op
            },
            _ => r == op,
        },
        _ => if what < 2 { r == op } else { r == spanned(op, idx) },
    }
}

/// `op` with the register of the item at `item` set to `idx`, where it is
/// a fixed or bits item.
fn with_item_reg(op: Op, loc: Loc, idx: u8) -> (r: Op)
    ensures
        patched(op, loc, 0, idx, r),
{
    match (op, loc) {
        (Op::Fixed { width, mut items }, Loc::Fix { item, .. }) => {
            let ghost old_items = items@;
            if item < items.len() {
                let mut it = items.remove(item);
                it.reg = Some(idx);
                items.insert(item, it);
                proof { assert(items@ =~= old_items.update(item as int, fix_patch(old_items[item as int], 0, idx))); }
            }
            Op::Fixed { width, items }
        },
        (Op::BitRun { nbytes, mut items }, Loc::Bit { item, .. }) => {
            let ghost old_items = items@;
            if item < items.len() {
                let mut it = items.remove(item);
                it.reg = Some(idx);
                items.insert(item, it);
                proof { assert(items@ =~= old_items.update(item as int, bit_patch(old_items[item as int], 0, idx))); }
            }
            Op::BitRun { nbytes, items }
        },
        (other, _) => other,
    }
}

/// `op` with the item at `loc` marked derived.
fn with_item_derived(op: Op, loc: Loc) -> (r: Op)
    ensures
        patched(op, loc, 1, 0, r),
{
    match (op, loc) {
        (Op::Fixed { width, mut items }, Loc::Fix { item, .. }) => {
            let ghost old_items = items@;
            if item < items.len() {
                let mut it = items.remove(item);
                it.kind = match it.kind {
                    FixKind::Int { prim, be, expected, .. } => FixKind::Int { prim, be, expected, derived: true },
                    k => k,
                };
                items.insert(item, it);
                proof { assert(items@ =~= old_items.update(item as int, fix_patch(old_items[item as int], 1, 0))); }
            }
            Op::Fixed { width, items }
        },
        (Op::BitRun { nbytes, mut items }, Loc::Bit { item, .. }) => {
            let ghost old_items = items@;
            if item < items.len() {
                let mut it = items.remove(item);
                it.derived = true;
                items.insert(item, it);
                proof { assert(items@ =~= old_items.update(item as int, bit_patch(old_items[item as int], 1, 0))); }
            }
            Op::BitRun { nbytes, items }
        },
        (other, _) => other,
    }
}

/// `op` with the span register of the field at `loc` set to `idx`.
fn with_span(op: Op, loc: Loc, idx: u8) -> (r: Op)
    ensures
        patched(op, loc, 2, idx, r),
{
    match (op, loc) {
        (Op::Fixed { width, mut items }, Loc::Fix { item, .. }) => {
            let ghost old_items = items@;
            if item < items.len() {
                let mut it = items.remove(item);
                it.span = Some(idx);
                items.insert(item, it);
                proof { assert(items@ =~= old_items.update(item as int, fix_patch(old_items[item as int], 2, idx))); }
            }
            Op::Fixed { width, items }
        },
        (Op::BitRun { nbytes, items }, _) => Op::BitRun { nbytes, items },
        (Op::Fixed { width, items }, _) => Op::Fixed { width, items },
        (Op::Bytes { len, max, c }, _) => Op::Bytes { len, max, c: Common { key: c.key, span: Some(idx) } },
        (Op::Str { len, max, enc, c }, _) => Op::Str { len, max, enc, c: Common { key: c.key, span: Some(idx) } },
        (Op::CStr { max, enc, c }, _) => Op::CStr { max, enc, c: Common { key: c.key, span: Some(idx) } },
        (Op::Flags { prim, be, items, rest, rest_mask, c }, _) => Op::Flags {
            prim, be, items, rest, rest_mask, c: Common { key: c.key, span: Some(idx) },
        },
        (Op::Digest { algo, over, verify, be, c }, _) => Op::Digest {
            algo, over, verify, be, c: Common { key: c.key, span: Some(idx) },
        },
        (Op::Nest { prog, size, c }, _) => Op::Nest { prog, size, c: Common { key: c.key, span: Some(idx) } },
        (Op::Array { count, max_count, elem, elem_min, c }, _) => Op::Array {
            count, max_count, elem, elem_min, c: Common { key: c.key, span: Some(idx) },
        },
        (Op::Switch { on, cases, default, c }, _) => Op::Switch {
            on, cases, default, c: Common { key: c.key, span: Some(idx) },
        },
        (Op::Cond { pred, then, c }, _) => Op::Cond { pred, then, c: Common { key: c.key, span: Some(idx) } },
    }
}

/// `ops` with the op at `i` patched as `patched` says; an index past the
/// end leaves them as they are.
spec fn ops_patched(ops: Seq<Op>, i: int, loc: Loc, what: u8, reg: u8, r: Seq<Op>) -> bool {
    &&& r.len() == ops.len()
    &&& forall|j: int| 0 <= j < ops.len() && j != i ==> #[trigger] r[j] == ops[j]
    &&& 0 <= i < ops.len() ==> patched(ops[i], loc, what, reg, r[i])
}

/// Patches the op at index `i`: its register (`what == 0`), derived mark
/// (`1`) or span register (otherwise).
fn update_op(ops: &mut Vec<Op>, i: usize, loc: Loc, what: u8, reg: u8)
    ensures
        ops_patched(old(ops)@, i as int, loc, what, reg, final(ops)@),
{
    if i < ops.len() {
        let op = ops.remove(i);
        let op2 = if what == 0 {
            with_item_reg(op, loc, reg)
        } else if what == 1 {
            with_item_derived(op, loc)
        } else {
            with_span(op, loc, reg)
        };
        ops.insert(i, op2);
    }
}

/// The op index a location names.
fn loc_op(loc: Loc) -> (r: usize)
    ensures
        r == loc_index(loc),
{
    match loc {
        Loc::Fix { op, .. } => op,
        Loc::Bit { op, .. } => op,
        Loc::Op(op) => op,
    }
}

/// Whether `b` is the byte order `Big` (the given one, else the scope's).
fn big_endian(given: Option<ByteOrder>, scope: ByteOrder) -> (r: bool)
    ensures
        r == (match given { Some(b) => b, None => scope } == ByteOrder::Big),
{
    let b = match given {
        Some(b) => b,
        None => scope,
    };
    match b {
        ByteOrder::Big => true,
        ByteOrder::Little => false,
    }
}

/// Scope `up` outward from the innermost holds a field named `name`,
/// and no scope inside it does.
spec fn site_at(scopes: Seq<Scope>, name: Seq<char>, up: int) -> bool {
    &&& 0 <= up < scopes.len()
    &&& first_sym(scopes[scopes.len() - 1 - up].syms@, name) is Some
    &&& forall|u: int| 0 <= u < up ==> (#[trigger] first_sym(scopes[scopes.len() - 1 - u].syms@, name)) is None
}

/// How many scopes outward from the innermost a reference to `name`
/// finds its field, if any scope holds one.
spec fn ref_up(scopes: Seq<Scope>, name: Seq<char>) -> Option<int> {
    if exists|u: int| #[trigger] site_at(scopes, name, u) {
        Some(choose|u: int| #[trigger] site_at(scopes, name, u))
    } else {
        None
    }
}

proof fn lemma_ref_up(scopes: Seq<Scope>, name: Seq<char>, up: int)
    requires
        site_at(scopes, name, up),
    ensures
        ref_up(scopes, name) == Some(up),
{
    let u = choose|u: int| #[trigger] site_at(scopes, name, u);
    assert(site_at(scopes, name, u));
    if u < up {
        assert(first_sym(scopes[scopes.len() - 1 - u].syms@, name) is None);
    }
    if up < u {
        assert(first_sym(scopes[scopes.len() - 1 - up].syms@, name) is None);
    }
}

/// The register of field `sym` of scope `sc`: its own, or the next free.
spec fn reg_of(sc: Scope, sym: Sym) -> u8 {
    match sym.reg {
        Some(i) => i,
        None => sc.nregs,
    }
}

/// A field once referenced in `ctx`: with register `idx`, marked
/// referenced by a length (a constant excepted) or read by a switch.
spec fn sym_ref(s: Sym, idx: u8, ctx: RefCtx) -> Sym {
    Sym {
        name: s.name,
        loc: s.loc,
        refable: s.refable,
        is_flags: s.is_flags,
        is_const: s.is_const,
        spannable: s.spannable,
        reg: Some(idx),
        span: s.span,
        derived: s.derived,
        len_referenced: if ctx is Len && !s.is_const { true } else { s.len_referenced },
        used_in_on: if ctx is On { true } else { s.used_in_on },
    }
}

/// `new` is `old` after field `pos` of scope `si` was referenced in
/// `ctx`: the field is updated, a register it had none of is allocated
/// and patched into its op, and nothing else changes.
spec fn referenced(old: Seq<Scope>, new: Seq<Scope>, si: int, pos: int, ctx: RefCtx) -> bool {
    let sc = old[si];
    let sym = sc.syms@[pos];
    let nsc = new[si];
    &&& new.len() == old.len()
    &&& forall|k: int| 0 <= k < old.len() && k != si ==> #[trigger] new[k] == old[k]
    &&& nsc.syms@ == sc.syms@.update(pos, sym_ref(sym, reg_of(sc, sym), ctx))
    &&& nsc.nspans == sc.nspans
    &&& nsc.digests == sc.digests
    &&& sym.reg is Some ==> nsc.ops@ == sc.ops@ && nsc.nregs == sc.nregs
    &&& sym.reg is None ==> nsc.nregs == sc.nregs + 1
        && ops_patched(sc.ops@, loc_index(sym.loc), sym.loc, 0, sc.nregs, nsc.ops@)
}

/// What a length taken from `e` is: the rest of the window for `*`, a
/// non-negative constant the expression folds to, or `a*ref + b` over
/// some field.
spec fn len_src_ok(e: ExprIn, expr: Expr, inv: Option<Inv>) -> bool {
    &&& !(e is Greedy)
    &&& match inv {
        None => expr.0@.len() == 1 && (expr.0@[0] matches Ins::Imm(n) && n >= 0
            && fold_spec(e) == Ok::<ExprIn, Seq<char>>(ExprIn::Imm(n))),
        Some(i) => exists|name: Seq<char>| #[trigger] linear_in(e, name, i.a as int, i.b as int),
    }
}

/// An array's count as compiled from `count` and `until_eof`.
spec fn count_src_ok(count: Option<ExprIn>, until_eof: bool, cs: CountSrc) -> bool {
    match cs {
        CountSrc::UntilEof => (until_eof && count is None) || (!until_eof && count matches Some(ExprIn::Greedy)),
        CountSrc::Expr { expr, inv } => !until_eof && (count matches Some(e) && len_src_ok(e, expr, inv)),
    }
}

/// A struct's size as compiled from `size`: none, or a length that is
/// not the rest of the window.
spec fn size_src_ok(size: Option<ExprIn>, src: Option<LenSrc>) -> bool {
    match src {
        None => size is None,
        Some(LenSrc::Greedy) => false,
        Some(LenSrc::Expr { expr, inv }) => size matches Some(e) && len_src_ok(e, expr, inv),
    }
}

/// A run of one fixed item of kind `kind`, at offset zero, unnamed and
/// with no register or span.
pub open spec fn one_item(op: Op, kind: FixKind) -> bool {
    op matches Op::Fixed { width, items } && width == kind.spec_width() && items@.len() == 1
        && items@[0].off == 0 && items@[0].kind == kind && items@[0].reg is None
        && items@[0].span is None && items@[0].key is Skip
}

/// A run of one raw item of `len` bytes, expecting `expected` if given.
spec fn raw_item(op: Op, len: usize, expected: Option<Seq<u8>>) -> bool {
    &&& op matches Op::Fixed { width, items }
    &&& width == len
    &&& items@.len() == 1
    &&& items@[0].off == 0
    &&& items@[0].reg is None
    &&& items@[0].span is None
    &&& items@[0].key is Skip
    &&& items@[0].kind matches FixKind::Raw { len: l, expected: x }
    &&& l == len
    &&& match (x, expected) {
        (Some(v), Some(w)) => v@ == w,
        (None, None) => true,
        _ => false,
    }
}

/// What compiling `ty` as an array element or a switch branch (unnamed,
/// self-contained) gives under options `opts`, scope byte order `bo`:
/// the op of each scalar kind, the errors each kind refuses with, and for
/// an array or a switch, the element or branch ops compiled the same way.
spec fn elem_result(ty: TypeIn, bo: ByteOrder, opts: Options, r: Result<Op, SchemaError>) -> bool
    decreases ty, 1nat, 0int,
{
    match ty {
        TypeIn::Int { prim, byteorder, const_ } => if const_ matches Some(c) && (c < prim.spec_min() || c > prim.spec_max()) {
            r matches Err(e) && e.msg@ == "const "@ + (if const_->Some_0 < 0 { seq!['-'] + dec_chars((-const_->Some_0) as nat) } else { dec_chars(const_->Some_0 as nat) })
                + " is out of range for "@ + prim_name(prim)
        } else {
            r matches Ok(op) && one_item(op, FixKind::Int { prim, be: be_of(byteorder, bo), expected: const_, derived: false })
        },
        TypeIn::Float { is64, byteorder } => r matches Ok(op) && one_item(op,
            if is64 { FixKind::F64 { be: be_of(byteorder, bo) } } else { FixKind::F32 { be: be_of(byteorder, bo) } }),
        TypeIn::Bool { const_ } => r matches Ok(op) && one_item(op, FixKind::Bool { expected: const_ }),
        TypeIn::Raw { len, const_ } => match (len, const_) {
            (Some(l), Some(c)) => if l != c@.len() {
                r matches Err(e) && e.msg@ == "raw: len does not match the length of const"@
            } else {
                r matches Ok(op) && raw_item(op, l, Some(c@))
            },
            (Some(l), None) => r matches Ok(op) && raw_item(op, l, None),
            (None, Some(c)) => r matches Ok(op) && raw_item(op, c@.len() as usize, Some(c@)),
            (None, None) => r matches Err(e) && e.msg@ == "raw: len or const is required"@,
        },
        TypeIn::Bytes { len, max } => {
            &&& (r matches Ok(op) ==> (op matches Op::Bytes { len: src, max: m, c }
                && len_of(len, src) && m == (match max { Some(x) => x, None => opts.max_default })
                && c.key is Skip && c.span is None))
            &&& (len is Greedy ==> r matches Ok(Op::Bytes { len: LenSrc::Greedy, .. }))
            &&& (fold_spec(len) matches Ok(ExprIn::Imm(n)) ==> (n >= 0 ==> (r matches Ok(Op::Bytes {
                len: LenSrc::Expr { expr, inv: None }, .. }) && expr.0@ == seq![Ins::Imm(n)])))
        },
        TypeIn::StrT { len, max, encoding, errors } => {
            &&& (r matches Ok(op) ==> (op matches Op::Str { len: src, max: m, enc, c }
                && len_of(len, src) && m == (match max { Some(x) => x, None => opts.max_default })
                && errors@ == "strict"@ && enc_of(encoding@) == Some(enc) && c.key is Skip && c.span is None))
            &&& ((errors@ == "strict"@ && enc_of(encoding@) is Some)
                ==> ((len is Greedy || (fold_spec(len) matches Ok(ExprIn::Imm(n)) && n >= 0)) ==> r is Ok))
        },
        TypeIn::CStrT { max, encoding, errors } => if errors@ == "strict"@ && enc_of(encoding@) is Some {
            r matches Ok(Op::CStr { max: m, enc, c }) && m == (match max { Some(x) => x, None => opts.max_default })
                && enc_of(encoding@) == Some(enc) && c.key is Skip && c.span is None
        } else {
            r is Err
        },
        TypeIn::FlagsT { base, byteorder, names, rest } => {
            &&& (!base.spec_signed() && policy_of(rest@) is Some && names_valid(base, names@)) ==> r is Ok
            &&& (base.spec_signed() || policy_of(rest@) is None) ==> r is Err
            &&& (r matches Ok(op) ==> flags_built(base, byteorder, names@, rest@, bo, op)
                && (op.spec_common() matches Some(cm) && cm.key is Skip && cm.span is None))
        },
        TypeIn::StructT { fields, byteorder, size } => (size is None && fixed_schema(fields@)) ==> (r matches Ok(Op::Nest { prog, size: None, c })
            && c.key is Skip && c.span is None && fixed_run_of(*prog, fields@, match byteorder { Some(b) => b, None => bo })),
        TypeIn::ArrayT { elem, count, until_eof } => {
            &&& (plain_count(count, until_eof) && scalar_elem(*elem)) ==> r is Ok
            &&& (r matches Ok(op) ==> (op matches Op::Array { count: cs, max_count, elem: eo, elem_min, c }
                && c.key is Skip && c.span is None && count_src_ok(count, until_eof, cs) && max_count == opts.max_count
                && elem_min == op_min_spec(*eo) && elem_result(*elem, bo, opts, Ok(*eo))))
            &&& (plain_count(count, until_eof) ==> (r matches Err(e) ==> elem_result(*elem, bo, opts, Err(e))))
        },
        TypeIn::SwitchT { on, cases, default } => r matches Ok(op) ==> (op matches Op::Switch { on: oe, cases: cs, default: d, c }
            && c.key is Skip && c.span is None && cs@.len() == cases@.len()
            && (d is Some <==> default is Some) && fold_spec(on) is Ok && stack_peak(oe.0@, 0, 0, 0) <= EXPR_STACK
            && cases_built(ty, 0, cs@, bo, opts)
            && (default matches Some(t) ==> elem_result(*t, bo, opts, Ok(*d->Some_0)))),
        TypeIn::Bits { .. } => r matches Err(e) && e.msg@ == "bits is only allowed as a struct field"@,
        TypeIn::DigestT { .. } => r matches Err(e) && e.msg@ == "digest is only allowed as a struct field"@,
        TypeIn::CondT { .. } => r matches Err(e) && e.msg@ == "when is only allowed as a struct field"@,
    }
}

/// The branches of switch type `ty` from the `k`-th on, compiled into
/// `cs`: each with its own tag and its type compiled as an element.
spec fn cases_built(ty: TypeIn, k: int, cs: Seq<(i64, Box<Op>)>, bo: ByteOrder, opts: Options) -> bool
    decreases ty, 0nat, if k < 0 { 0 } else { (ty->SwitchT_cases)@.len() - k },
{
    match ty {
        TypeIn::SwitchT { cases, .. } => if 0 <= k < cases@.len() && k < cs.len() {
            proof {
                assert(decreases_to!(ty => cases));
                assert(decreases_to!(cases => cases@));
                assert(decreases_to!(cases@ => cases@[k]));
                assert(decreases_to!(cases@[k] => cases@[k].1));
            }
            &&& cs[k].0 == cases@[k].0
            &&& elem_result(cases@[k].1, bo, opts, Ok(*cs[k].1))
            &&& cases_built(ty, k + 1, cs, bo, opts)
        } else {
            true
        },
        _ => true,
    }
}

/// Branches compiled one by one, each as an element, are what
/// `cases_built` describes.
proof fn lemma_cases_built(ty: TypeIn, k: int, cs: Seq<(i64, Box<Op>)>, bo: ByteOrder, opts: Options)
    requires
        ty is SwitchT,
        0 <= k,
        cs.len() == ty->SwitchT_cases@.len(),
        forall|i: int| k <= i < cs.len() ==> #[trigger] cs[i].0 == ty->SwitchT_cases@[i].0,
        forall|i: int| k <= i < cs.len() ==> elem_result(ty->SwitchT_cases@[i].1, bo, opts, Ok(*(#[trigger] cs[i]).1)),
    ensures
        cases_built(ty, k, cs, bo, opts),
    decreases cs.len() - k,
{
    if k < cs.len() {
        lemma_cases_built(ty, k + 1, cs, bo, opts);
    }
}

/// The algorithm a digest field named `name`, with CRC overrides `ov`,
/// compiles to: a preset by that name, a CRC with the overrides applied,
/// none for a hash given overrides.
pub open spec fn algo_parsed(name: Seq<char>, ov: CrcOverrides) -> Option<Algo> {
    match first_match(algos_table(), false, name, 0) {
        None => None,
        Some(Algo::Crc(s)) => Some(Algo::Crc(overridden(s, ov))),
        Some(a) => if ov.poly is Some || ov.init is Some || ov.xorout is Some || ov.refin is Some || ov.refout is Some {
            None
        } else {
            Some(a)
        },
    }
}

/// What a digest field named `dname` may cover: everything before it,
/// or a non-empty list of distinct names that leaves it out.
pub open spec fn over_ok(over: OverIn, dname: Seq<char>) -> bool {
    match over {
        OverIn::Star => true,
        OverIn::Names(ns) => {
            &&& ns@.len() > 0
            &&& forall|i: int, j: int| 0 <= i < j < ns@.len() ==> (#[trigger] ns@[i])@ != (#[trigger] ns@[j])@
            &&& forall|i: int| 0 <= i < ns@.len() ==> (#[trigger] ns@[i])@ != dname
        },
    }
}

/// The array op compiled from array type `ty`: its count, the element
/// compiled as `elem_result` says, the count limit of `opts`.
spec fn array_built(ty: TypeIn, bo: ByteOrder, opts: Options, op: Op) -> bool {
    &&& ty matches TypeIn::ArrayT { elem, count, until_eof }
    &&& op matches Op::Array { count: cs, max_count, elem: eo, elem_min, .. }
    &&& count_src_ok(ty->ArrayT_count, ty->ArrayT_until_eof, op->Array_count)
    &&& op->Array_max_count == opts.max_count
    &&& op->Array_elem_min == op_min_spec(*op->Array_elem)
    &&& elem_result(*ty->ArrayT_elem, bo, opts, Ok(*op->Array_elem))
}

/// The switch op compiled from switch type `ty`: its discriminator, one
/// branch per case with the same tag, each compiled as an element, and
/// the default likewise.
spec fn switch_built(ty: TypeIn, bo: ByteOrder, opts: Options, op: Op) -> bool {
    &&& ty matches TypeIn::SwitchT { on, cases, default }
    &&& op matches Op::Switch { on: oe, cases: cs, default: d, .. }
    &&& op->Switch_cases@.len() == ty->SwitchT_cases@.len()
    &&& (op->Switch_default is Some <==> ty->SwitchT_default is Some)
    &&& fold_spec(ty->SwitchT_on) is Ok
    &&& stack_peak(op->Switch_on.0@, 0, 0, 0) <= EXPR_STACK
    &&& cases_built(ty, 0, op->Switch_cases@, bo, opts)
    &&& (ty->SwitchT_default matches Some(t) ==> elem_result(*t, bo, opts, Ok(*op->Switch_default->Some_0)))
}

/// What compiling a digest field named `name` does, from state `a` to
/// state `b` with result `r`: an unknown algorithm or a bad list of
/// covered names is refused with nothing changed; otherwise one digest op
/// (with its spans still to fill), its field and its pending entry are
/// added.
spec fn digest_field_result(a: C, b: C, name: Seq<char>, algo: Seq<char>, ov: CrcOverrides, over: OverIn, verify: bool,
    bo: ByteOrder, r: Result<(), SchemaError>) -> bool {
    &&& r is Err ==> b == a
    &&& r is Ok <==> (algo_parsed(algo, ov) is Some && over_ok(over, name))
    &&& first_match(algos_table(), false, algo, 0) is None ==> (r matches Err(e)
        && e.msg@ == "digest: unknown algo "@ + debug_quoted(algo) + ""@)
    &&& algo_parsed(algo, ov) is Some ==> (over matches OverIn::Names(ns) ==> (ns@.len() == 0
        ==> (r matches Err(e) && e.msg@ == "digest: empty over"@)))
    &&& r is Ok ==> {
        let o = a.scopes@.last();
        let n = b.scopes@.last();
        &&& last_op_named(b, name, true)
        &&& b.opts == a.opts
        &&& b.scopes@.drop_last() == a.scopes@.drop_last()
        &&& n.ops@.drop_last() == o.ops@
        &&& n.nregs == o.nregs
        &&& n.nspans == o.nspans
        &&& n.syms@.drop_last() == o.syms@
        &&& n.digests@.len() == o.digests@.len() + 1
        &&& n.digests@.drop_last() == o.digests@
        &&& n.digests@.last().0 == o.ops@.len() as usize
        &&& n.digests@.last().2@ == name
        &&& n.ops@.last() matches Op::Digest { algo: x, over: Over::Spans(sp), verify: v, be, .. }
        &&& algo_parsed(algo, ov) == Some(n.ops@.last()->Digest_algo)
        &&& n.ops@.last()->Digest_over->Spans_0@.len() == 0
        &&& n.ops@.last()->Digest_verify == verify
        &&& n.ops@.last()->Digest_be == (bo is Big)
    }
}

/// The count source compiled from a count that needs no other field: to
/// the end of the input, or a constant.
pub open spec fn plain_count_src(count: Option<ExprIn>, until_eof: bool, cs: CountSrc) -> bool {
    match count {
        None => cs is UntilEof,
        Some(e) => if e is Greedy {
            cs is UntilEof
        } else {
            cs matches CountSrc::Expr { expr, inv: None } && fold_spec(e) matches Ok(ExprIn::Imm(k))
                && expr.0@ == seq![Ins::Imm(k)]
        },
    }
}

/// The op of one fixed item that scalar type `t` compiles to as an
/// element, in scope byte order `bo`.
pub open spec fn scalar_op(t: TypeIn, bo: ByteOrder, op: Op) -> bool {
    match t {
        TypeIn::Int { prim, byteorder, const_ } => one_item(op, FixKind::Int { prim, be: be_of(byteorder, bo), expected: const_, derived: false }),
        TypeIn::Float { is64, byteorder } => one_item(op,
            if is64 { FixKind::F64 { be: be_of(byteorder, bo) } } else { FixKind::F32 { be: be_of(byteorder, bo) } }),
        TypeIn::Bool { const_ } => one_item(op, FixKind::Bool { expected: const_ }),
        _ => false,
    }
}

/// The array op an array type with such a count and a scalar element
/// compiles to under options `opts`.
pub open spec fn array_plain_op(t: TypeIn, bo: ByteOrder, opts: Options, op: Op) -> bool {
    &&& t matches TypeIn::ArrayT { elem, count, until_eof }
    &&& op matches Op::Array { count: cs, max_count, elem: eo, elem_min, .. }
    &&& plain_count_src(t->ArrayT_count, t->ArrayT_until_eof, op->Array_count)
    &&& op->Array_max_count == opts.max_count
    &&& op->Array_elem_min == op_min_spec(*op->Array_elem)
    &&& scalar_op(*t->ArrayT_elem, bo, *op->Array_elem)
}

/// A length as compiled from `e`.
spec fn len_of(e: ExprIn, src: LenSrc) -> bool {
    match src {
        LenSrc::Greedy => e is Greedy,
        LenSrc::Expr { expr, inv } => len_src_ok(e, expr, inv),
    }
}

/// A field just added: named `name`, at `loc`, with the given roles, and
/// no register, span or mark yet.
spec fn fresh_sym(s: Sym, name: Seq<char>, loc: Loc, refable: bool, is_flags: bool, is_const: bool, spannable: bool) -> bool {
    &&& s.name@ == name
    &&& s.loc == loc
    &&& s.refable == refable
    &&& s.is_flags == is_flags
    &&& s.is_const == is_const
    &&& s.spannable == spannable
    &&& s.reg is None
    &&& s.span is None
    &&& !s.derived
    &&& !s.len_referenced
    &&& !s.used_in_on
}

/// `new` is `old` with one op appended to the innermost scope (the last
/// op of `new`'s innermost scope) and, for a named field, one field
/// `fresh_sym` describes.
spec fn op_added(a: C, b: C, name: Option<Seq<char>>, refable: bool, is_flags: bool, is_const: bool, spannable: bool) -> bool {
    let o = a.scopes@.last();
    let n = b.scopes@.last();
    &&& b.opts == a.opts
    &&& b.scopes@.len() == a.scopes@.len()
    &&& b.scopes@.drop_last() == a.scopes@.drop_last()
    &&& n.ops@.len() == o.ops@.len() + 1
    &&& n.ops@.drop_last() == o.ops@
    &&& n.nregs == o.nregs
    &&& n.nspans == o.nspans
    &&& n.digests == o.digests
    &&& match name {
        Some(nm) => n.syms@.len() == o.syms@.len() + 1 && n.syms@.drop_last() == o.syms@
            && fresh_sym(n.syms@.last(), nm, Loc::Op(o.ops@.len() as usize), refable, is_flags, is_const, spannable),
        None => n.syms@ == o.syms@,
    }
}

/// The innermost scope ends with an op of its own named `name`, and with
/// a new field of that name at that op, neither referenceable nor flags
/// nor constant, coverable by a digest as `spannable` says.
spec fn last_op_named(c: C, name: Seq<char>, spannable: bool) -> bool {
    let sc = c.scopes@.last();
    &&& sc.ops@.len() > 0
    &&& named_common(sc.ops@.last(), name)
    &&& sc.syms@.len() > 0
    &&& fresh_sym(sc.syms@.last(), name, Loc::Op((sc.ops@.len() - 1) as usize), false, false, false, spannable)
}

/// What compiling a struct field named `name` of type `ty` does, from
/// state `a` to state `b` with result `r`: a constant size that differs
/// from a fixed body's is refused; a chain of structs or a struct of fixed
/// fields (with a matching size, if any) compiles to one named struct op.
spec fn struct_field_result(a: C, b: C, name: Seq<char>, ty: TypeIn, bo: ByteOrder, r: Result<(), SchemaError>) -> bool {
    &&& ty matches TypeIn::StructT { fields, size: Some(e), .. } ==> (fixed_schema(fields@)
        ==> (fold_spec(e) matches Ok(ExprIn::Imm(k)) ==> (k >= 0 ==> (if k != widths_upto(fields@, fields@.len()) {
            r matches Err(x) && x.msg@ == "struct.size="@ + dec_chars(k as nat) + " does not match the static body size "@
                + dec_chars(widths_upto(fields@, fields@.len()))
        } else {
            r is Ok
        }))))
    &&& ty matches TypeIn::StructT { fields: body, size: None, byteorder } ==> (nest_chain(body@) is Some ==> (r is Ok
        && op_added(a, b, Some(name), false, false, false, true)
        && named_common(b.scopes@.last().ops@.last(), name)
        && (b.scopes@.last().ops@.last() matches Op::Nest { prog, size: None, .. }
            && prog_frames(*prog) == chain_frames(nest_chain(body@)->Some_0)
            && chain_prog(*prog, body@, match byteorder { Some(x) => x, None => bo }))))
    &&& fixed_struct(ty) ==> (r is Ok && op_added(a, b, Some(name), false, false, false, true)
        && named_common(b.scopes@.last().ops@.last(), name)
        && (b.scopes@.last().ops@.last() matches Op::Nest { prog, .. } && prog.ops@.len() == 1
            && prog.ops@[0] is Fixed
            && fixed_run_of(*prog, ty->StructT_fields@, match ty->StructT_byteorder { Some(x) => x, None => bo })))
}

/// A plain fixed field's type holds a constant it must read.
pub open spec fn fixed_const(t: TypeIn) -> bool {
    match t {
        TypeIn::Int { const_, .. } => const_ is Some,
        TypeIn::Bool { const_ } => const_ is Some,
        TypeIn::Raw { const_, .. } => const_ is Some,
        _ => false,
    }
}

/// A field's name that the innermost scope accepts: present, non-empty
/// and new there.
spec fn fresh_name(c: C, name: Option<String>) -> bool {
    name matches Some(n) && n@.len() > 0 && !(exists|j: int| 0 <= j < c.scopes@.last().syms@.len()
        && #[trigger] c.scopes@.last().syms@[j].name@ == n@)
}

/// The flags op compiled from a base, byte order, named masks and rest
/// policy (with the scope's byte order `bo`), its `Common` aside.
pub open spec fn flags_built(base: crate::program::IntPrim, byteorder: Option<ByteOrder>, names: Seq<(String, u64)>,
    rest: Seq<char>, bo: ByteOrder, op: Op) -> bool {
    &&& op matches Op::Flags { prim, be, items, rest: rp, rest_mask, .. }
    &&& crate::flags::flags_ok(items@, prim, rest_mask)
    &&& prim == base
    &&& items@.len() == names.len()
    &&& forall|i: int| 0 <= i < items@.len() ==> #[trigger] items@[i].mask == names[i].1 && items@[i].key@ == names[i].0@
    &&& policy_of(rest) == Some(rp)
    &&& be == be_of(byteorder, bo)
}

/// The message a reference to a name no open scope holds gives.
pub open spec fn unknown_ref_msg(name: Seq<char>) -> Seq<char> {
    "unknown name "@ + debug_quoted(name)
        + " in ref (references are backward-only: a field can only ref an already-decoded sibling or ancestor)"@
}

/// A type whose field must be named: every type that is an op of its own.
pub open spec fn needs_name(t: TypeIn) -> bool {
    t is Bytes || t is StrT || t is CStrT || t is FlagsT || t is DigestT || t is StructT || t is ArrayT
        || t is SwitchT || t is CondT
}

/// The word a type's messages name it by.
pub open spec fn kind_word(t: TypeIn) -> Seq<char> {
    match t {
        TypeIn::Bytes { .. } => "bytes"@,
        TypeIn::StrT { .. } => "str"@,
        TypeIn::CStrT { .. } => "cstr"@,
        TypeIn::FlagsT { .. } => "flags"@,
        TypeIn::DigestT { .. } => "digest"@,
        TypeIn::StructT { .. } => "struct"@,
        TypeIn::ArrayT { .. } => "array"@,
        TypeIn::SwitchT { .. } => "switch"@,
        TypeIn::CondT { .. } => "when"@,
        _ => Seq::empty(),
    }
}

/// An op whose `Common` names it `name`, with no span register yet.
pub open spec fn named_common(op: Op, name: Seq<char>) -> bool {
    op.spec_common() matches Some(cm) && cm.span is None && (cm.key matches Key::Named(k) && k@ == name)
}

/// No field of any of `scopes` is named `name`.
spec fn scopes_lack(scopes: Seq<Scope>, name: Seq<char>) -> bool {
    forall|k: int, p: int| 0 <= k < scopes.len() && 0 <= p < scopes[k].syms@.len()
        ==> (#[trigger] scopes[k].syms@[p]).name@ != name
}

proof fn lemma_no_ref(scopes: Seq<Scope>, name: Seq<char>)
    requires
        scopes_lack(scopes, name),
    ensures
        ref_up(scopes, name) is None,
{
    if ref_up(scopes, name) is Some {
        let u = choose|u: int| #[trigger] site_at(scopes, name, u);
        assert(site_at(scopes, name, u));
        let k = scopes.len() - 1 - u;
        let sy = scopes[k].syms@;
        let j = choose|j: int| #[trigger] is_first(sy, name, j);
        assert(is_first(sy, name, j));
        assert(scopes[k].syms@[j].name@ != name);
    }
}

/// A struct's stated size `k` against its static body size `st`: as a
/// field (`check`), a mismatch is refused; otherwise it compiles.
pub open spec fn size_verdict(r: Result<Op, SchemaError>, k: i64, st: nat, check: bool) -> bool {
    if check && k != st {
        r matches Err(e) && e.msg@ == "struct.size="@ + dec_chars(k as nat) + " does not match the static body size "@ + dec_chars(st)
    } else {
        r is Ok
    }
}

/// An array count that always compiles: to the end of the window, or a
/// non-negative constant.
pub open spec fn plain_count(count: Option<ExprIn>, until_eof: bool) -> bool {
    match count {
        None => until_eof,
        Some(e) => !until_eof && (e is Greedy || (fold_spec(e) matches Ok(ExprIn::Imm(k)) && k >= 0)),
    }
}

/// An element type of one fixed item that always compiles.
pub open spec fn scalar_elem(t: TypeIn) -> bool {
    match t {
        TypeIn::Int { prim, const_, .. } => const_ matches Some(c) ==> prim.spec_min() <= c <= prim.spec_max(),
        TypeIn::Float { .. } => true,
        TypeIn::Bool { .. } => true,
        _ => false,
    }
}

/// A field referenced once keeps its register: referencing it again finds
/// the same field and register and allocates no register in any scope.
proof fn lemma_ref_once(a: Seq<Scope>, b: Seq<Scope>, name: Seq<char>, up: int, ctx1: RefCtx, ctx2: RefCtx)
    requires
        ref_up(a, name) == Some(up),
        first_sym(a[a.len() - 1 - up].syms@, name) is Some,
        referenced(a, b, a.len() - 1 - up, first_sym(a[a.len() - 1 - up].syms@, name)->Some_0, ctx1),
    ensures
        ref_up(b, name) == Some(up),
        ({
            let si = a.len() - 1 - up;
            let pos = first_sym(a[si].syms@, name)->Some_0;
            &&& first_sym(b[si].syms@, name) == Some(pos)
            &&& b[si].syms@[pos].reg == Some(reg_of(a[si], a[si].syms@[pos]))
            &&& reg_of(b[si], b[si].syms@[pos]) == reg_of(a[si], a[si].syms@[pos])
            &&& forall|c: Seq<Scope>| #[trigger] referenced(b, c, si, pos, ctx2)
                ==> forall|k: int| 0 <= k < c.len() ==> (#[trigger] c[k]).nregs == b[k].nregs
        }),
{
    let si = a.len() - 1 - up;
    let pos = first_sym(a[si].syms@, name)->Some_0;
    let j = choose|j: int| #[trigger] is_first(a[si].syms@, name, j);
    assert(is_first(a[si].syms@, name, j));
    lemma_first_sym(a[si].syms@, name, j);
    assert forall|k: int| 0 <= k < a.len() implies {
        &&& (#[trigger] b[k]).syms@.len() == a[k].syms@.len()
        &&& b[k].nregs >= a[k].nregs
        &&& forall|p: int| 0 <= p < a[k].syms@.len() ==> sym_kept(a[k].syms@[p], #[trigger] b[k].syms@[p])
    } by {
        if k != si {
            assert(b[k] == a[k]);
        } else {
            assert forall|p: int| 0 <= p < a[k].syms@.len() implies sym_kept(a[k].syms@[p], #[trigger] b[k].syms@[p]) by {
                if p != pos {
                    assert(b[k].syms@[p] == a[k].syms@[p]);
                }
            }
        }
    }
    assert(keeps(a, b));
    lemma_keeps_site(a, b, name);
    assert forall|c: Seq<Scope>| #[trigger] referenced(b, c, si, pos, ctx2)
        implies forall|k: int| 0 <= k < c.len() ==> (#[trigger] c[k]).nregs == b[k].nregs by {
        assert forall|k: int| 0 <= k < c.len() implies (#[trigger] c[k]).nregs == b[k].nregs by {
            if k != si {
                assert(c[k] == b[k]);
            }
        }
    }
}

/// The scope, counted from the outermost, holding the field `name` finds.
spec fn ref_si(scopes: Seq<Scope>, name: Seq<char>) -> int {
    scopes.len() - 1 - ref_up(scopes, name)->Some_0
}

/// That field's index in its scope.
spec fn ref_pos(scopes: Seq<Scope>, name: Seq<char>) -> int {
    first_sym(scopes[ref_si(scopes, name)].syms@, name)->Some_0
}

/// That field.
spec fn ref_target(scopes: Seq<Scope>, name: Seq<char>) -> Sym {
    scopes[ref_si(scopes, name)].syms@[ref_pos(scopes, name)]
}

/// A reference to `name` succeeds: some open scope holds an integer field
/// of that name that is no flags field and has a register or can get one.
spec fn ref_ok(scopes: Seq<Scope>, name: Seq<char>) -> bool {
    &&& ref_up(scopes, name) is Some
    &&& !ref_target(scopes, name).is_flags
    &&& ref_target(scopes, name).refable
    &&& (ref_target(scopes, name).reg is Some || (scopes[ref_si(scopes, name)].nregs as usize) < MAX_REGS)
}

/// The register such a reference reads.
spec fn ref_reg(scopes: Seq<Scope>, name: Seq<char>) -> Reg {
    Reg { up: ref_up(scopes, name)->Some_0 as u8, idx: reg_of(scopes[ref_si(scopes, name)], ref_target(scopes, name)) }
}

/// A length read from field `name` as compiled, from scopes `a` to `b`:
/// its inversion is that field's register once, with nothing added, and
/// its code reads that register; the field then holds the register and,
/// unless constant, is marked referenced by a length.
spec fn ref_len(a: Seq<Scope>, b: Seq<Scope>, name: Seq<char>, r: Result<LenSrc, SchemaError>) -> bool {
    &&& r matches Ok(LenSrc::Expr { expr, inv: Some(iv) })
    &&& r->Ok_0->Expr_inv == Some(Inv { reg: ref_reg(a, name), a: 1, b: 0 })
    &&& r->Ok_0->Expr_expr.0@ == seq![Ins::Reg(ref_reg(a, name))]
    &&& b[ref_si(a, name)].syms@[ref_pos(a, name)].reg == Some(ref_reg(a, name).idx)
    &&& !ref_target(a, name).is_const ==> b[ref_si(a, name)].syms@[ref_pos(a, name)].len_referenced
}

/// `b` is the scopes `mid` with one named op of its own and its field
/// appended to the innermost scope, a field no digest must skip.
spec fn pushed_after(mid: Seq<Scope>, b: C, name: Seq<char>) -> bool {
    let m = mid.last();
    let n = b.scopes@.last();
    &&& mid.len() > 0
    &&& b.scopes@.len() == mid.len()
    &&& b.scopes@.drop_last() == mid.drop_last()
    &&& n.ops@.len() == m.ops@.len() + 1
    &&& n.ops@.drop_last() == m.ops@
    &&& n.syms@.len() == m.syms@.len() + 1
    &&& n.syms@.drop_last() == m.syms@
    &&& fresh_sym(n.syms@.last(), name, Loc::Op(m.ops@.len() as usize), false, false, false, true)
    &&& n.nregs == m.nregs
    &&& n.nspans == m.nspans
    &&& n.digests == m.digests
}

/// A field named `name` whose length reads field `n` was added: the read
/// field is referenced as a length does it, then the field's op and the
/// field itself are appended.
spec fn ref_field_added(a: C, b: C, n: Seq<char>, name: Seq<char>) -> bool {
    &&& b.opts == a.opts
    &&& exists|mid: Seq<Scope>| #[trigger] referenced(a.scopes@, mid, ref_si(a.scopes@, n), ref_pos(a.scopes@, n), RefCtx::Len)
        && pushed_after(mid, b, name)
}

/// Referencing a field twice in a row does what referencing it once does.
proof fn lemma_ref_compose(a: Seq<Scope>, b: Seq<Scope>, c: Seq<Scope>, si: int, pos: int)
    requires
        0 <= si < a.len(),
        0 <= pos < a[si].syms@.len(),
        referenced(a, b, si, pos, RefCtx::Len),
        referenced(b, c, si, pos, RefCtx::Len),
    ensures
        referenced(a, c, si, pos, RefCtx::Len),
{
    let t = a[si].syms@[pos];
    let idx = reg_of(a[si], t);
    let t1 = sym_ref(t, idx, RefCtx::Len);
    assert(b[si].syms@[pos] == t1);
    assert(reg_of(b[si], t1) == idx);
    assert(sym_ref(t1, idx, RefCtx::Len) == t1);
    assert(c[si].syms@ =~= a[si].syms@.update(pos, t1));
    assert forall|k: int| 0 <= k < a.len() && k != si implies #[trigger] c[k] == a[k] by {
        assert(c[k] == b[k]);
    }
}

/// Field `q` is the field the length of the last field reads: an integer
/// with no constant among the fields before it.
pub open spec fn tail_target(fields: Seq<FieldIn>, q: int) -> bool {
    &&& 0 <= q < fields.len() - 1
    &&& fields[q].name->Some_0@ == len_ref_name(fields.last())
    &&& fields[q].ty matches TypeIn::Int { const_: None, .. }
}

/// Such fields, then one named bytes field whose length is one of them.
pub open spec fn len_tail(fields: Seq<FieldIn>) -> bool {
    &&& fields.len() >= 1
    &&& bytes_after_simple(fields, fields.len() - 1)
    &&& folded_len(fields.last()) matches Ok(ExprIn::Ref(_))
    &&& exists|q: int| #[trigger] tail_target(fields, q)
}

/// The ops such a schema compiles to with options `opts`: every field but
/// the read one where `field_op` says; the read field's item given
/// register 0 and marked derived; then the bytes op, whose length reads
/// register 0 and is inverted through it.
pub open spec fn tail_ops(fields: Seq<FieldIn>, q: int, ops: Seq<Op>, bo: ByteOrder, opts: Options) -> bool {
    let l = fields.len() - 1;
    &&& ops.len() == ops_for(fields, l) + 1
    &&& forall|k: int| 0 <= k < l && k != q ==> #[trigger] field_op(fields, k, ops, bo, opts)
    &&& ops[op_idx(fields, q)] matches Op::Fixed { items, .. }
    &&& 0 <= item_idx(fields, q) < ops[op_idx(fields, q)]->Fixed_items@.len()
    &&& exists|it: FixedItem| #[trigger] item_for(it, fields[q], bo)
        && ops[op_idx(fields, q)]->Fixed_items@[item_idx(fields, q)] == fix_patch(fix_patch(it, 0, 0), 1, 0)
    &&& ops.last() matches Op::Bytes { len: LenSrc::Expr { expr, inv: Some(iv) }, max: mx, .. }
    &&& ops.last()->Bytes_len->Expr_expr.0@ == seq![Ins::Reg(Reg { up: 0, idx: 0 })]
    &&& ops.last()->Bytes_len->Expr_inv == Some(Inv { reg: Reg { up: 0, idx: 0 }, a: 1, b: 0 })
    &&& ops.last()->Bytes_max == (match fields.last().ty->Bytes_max { Some(x) => x, None => opts.max_default })
    &&& named_common(ops.last(), fields.last().name->Some_0@)
    &&& forall|j: int| 0 <= j < ops.len() ==> shallow_op(#[trigger] ops[j])
}

proof fn lemma_items_apart(fields: Seq<FieldIn>, a: int, b: int)
    requires
        0 <= a < b,
        op_idx(fields, a) == op_idx(fields, b),
    ensures
        item_idx(fields, a) < item_idx(fields, b),
    decreases b,
{
    lemma_idx_nonneg(fields, b - 1);
    lemma_op_idx_mono(fields, a, b - 1);
    if run_join(fields, b) {
        if a < b - 1 {
            lemma_items_apart(fields, a, b - 1);
        }
    } else {
        assert(op_idx(fields, b) == op_idx(fields, b - 1) + 1);
    }
}

proof fn lemma_op_idx_mono(fields: Seq<FieldIn>, a: int, b: int)
    requires
        a <= b,
    ensures
        op_idx(fields, a) <= op_idx(fields, b),
    decreases b - a,
{
    if a < b {
        lemma_op_idx_mono(fields, a, b - 1);
    }
}

/// The innermost scope after the last field of such a schema, before the
/// read field is marked derived.
spec fn tail_pre(fields: Seq<FieldIn>, q: int, sc: Scope, bo: ByteOrder, opts: Options) -> bool {
    let l = fields.len() - 1;
    let ops = sc.ops@;
    let syms = sc.syms@;
    &&& ops.len() == ops_for(fields, l) + 1
    &&& forall|k: int| 0 <= k < l && k != q ==> #[trigger] field_op(fields, k, ops, bo, opts)
    &&& ops[op_idx(fields, q)] matches Op::Fixed { items, .. }
    &&& 0 <= item_idx(fields, q) < ops[op_idx(fields, q)]->Fixed_items@.len()
    &&& exists|it: FixedItem| #[trigger] item_for(it, fields[q], bo)
        && ops[op_idx(fields, q)]->Fixed_items@[item_idx(fields, q)] == fix_patch(it, 0, 0)
    &&& ops.last() matches Op::Bytes { len: LenSrc::Expr { expr, inv: Some(iv) }, max: mx, .. }
    &&& ops.last()->Bytes_len->Expr_expr.0@ == seq![Ins::Reg(Reg { up: 0, idx: 0 })]
    &&& ops.last()->Bytes_len->Expr_inv == Some(Inv { reg: Reg { up: 0, idx: 0 }, a: 1, b: 0 })
    &&& ops.last()->Bytes_max == (match fields.last().ty->Bytes_max { Some(x) => x, None => opts.max_default })
    &&& named_common(ops.last(), fields.last().name->Some_0@)
    &&& forall|j: int| 0 <= j < ops.len() ==> !(#[trigger] ops[j] is BitRun) && shallow_op(ops[j])
    &&& syms.len() == l + 1
    &&& forall|j: int| 0 <= j < syms.len() && j != q ==> !(#[trigger] syms[j]).len_referenced
    &&& syms[q].loc == Loc::Fix { op: op_idx(fields, q) as usize, item: item_idx(fields, q) as usize }
    &&& derives(syms[q])
    &&& sc.nregs == 1
    &&& sc.digests@.len() == 0
}

/// Marking the read field derived turns what `tail_pre` says into what
/// `tail_ops` says.
proof fn lemma_tail_derived(fields: Seq<FieldIn>, q: int, sc: Scope, ops2: Seq<Op>, bo: ByteOrder, opts: Options)
    requires
        tail_target(fields, q),
        tail_pre(fields, q, sc, bo, opts),
        ops_derived(sc.ops@, sc.syms@, ops2),
        sc.ops@.len() <= usize::MAX,
    ensures
        tail_ops(fields, q, ops2, bo, opts),
{
    let ops = sc.ops@;
    let syms = sc.syms@;
    let l = fields.len() - 1;
    let oq = op_idx(fields, q);
    let iq = item_idx(fields, q);
    lemma_idx_nonneg(fields, q);
    lemma_idx_nonneg(fields, l - 1);
    lemma_op_idx_mono(fields, q, l - 1);
    assert(oq < ops.len());
    assert(ops.last() == ops[ops.len() - 1]);
    assert(sc.ops.len() == sc.ops@.len());
    if let Op::Fixed { items, .. } = ops[oq] {
        assert(items.len() == items@.len());
    }
    assert forall|o: int, t: int| 0 <= o < ops.len() && 0 <= t <= usize::MAX
        implies #[trigger] marked(syms, Loc::Fix { op: o as usize, item: t as usize }) == (o == oq && t == iq) by {
        if marked(syms, Loc::Fix { op: o as usize, item: t as usize }) {
            let j = choose|j: int| 0 <= j < syms.len() && derives(#[trigger] syms[j]) && syms[j].loc == Loc::Fix { op: o as usize, item: t as usize };
            if j != q {
                assert(!syms[j].len_referenced);
            }
        }
        if o == oq && t == iq {
            assert(derives(syms[q]));
        }
    }
    assert(op_derived(ops[oq], oq, syms, ops2[oq]));
    if let Op::Fixed { items, .. } = ops[oq] {
        assert(items.len() == items@.len());
        assert(marked(syms, Loc::Fix { op: oq as usize, item: iq as usize }));
    }
    assert forall|k: int| 0 <= k < l && k != q implies #[trigger] field_op(fields, k, ops2, bo, opts) by {
        assert(field_op(fields, k, ops, bo, opts));
        let ok = op_idx(fields, k);
        assert(op_derived(ops[ok], ok, syms, ops2[ok]));
        lemma_idx_nonneg(fields, k);
        if let Op::Fixed { items, .. } = ops[ok] {
            assert(items.len() == items@.len());
            if plain_fixed(fields[k]) {
                let ik = item_idx(fields, k);
                if ok == oq {
                    if k < q {
                        lemma_items_apart(fields, k, q);
                    } else {
                        lemma_items_apart(fields, q, k);
                    }
                }
                assert(!marked(syms, Loc::Fix { op: ok as usize, item: ik as usize }));
            }
        }
    }
    assert(op_derived(ops.last(), ops.len() - 1, syms, ops2[ops.len() - 1]));
    assert forall|j: int| 0 <= j < ops2.len() implies shallow_op(#[trigger] ops2[j]) by {
        assert(op_derived(ops[j], j, syms, ops2[j]));
        assert(shallow_op(ops[j]));
    }
}

/// Before the last field of such a schema, its length finds field `q` in
/// the innermost scope: register 0, unallocated yet.
proof fn lemma_tail_ready(scopes: Seq<Scope>, fields: Seq<FieldIn>, q: int)
    requires
        len_tail(fields),
        tail_target(fields, q),
        scopes.len() > 0,
        scopes.last().syms@.len() == fields.len() - 1,
        forall|k: int| 0 <= k < fields.len() - 1 ==> (#[trigger] scopes.last().syms@[k]).name@ == fields[k].name->Some_0@,
        forall|k: int| 0 <= k < fields.len() - 1 ==> (plain_fixed(fields[k]) ==> fresh_sym(#[trigger] scopes.last().syms@[k],
            fields[k].name->Some_0@, Loc::Fix { op: op_idx(fields, k) as usize, item: item_idx(fields, k) as usize },
            fields[k].ty is Int, false, fixed_const(fields[k].ty), true)),
        scopes.last().nregs == 0,
    ensures
        ref_ok(scopes, len_ref_name(fields.last())),
        ref_si(scopes, len_ref_name(fields.last())) == scopes.len() - 1,
        ref_pos(scopes, len_ref_name(fields.last())) == q,
        ref_reg(scopes, len_ref_name(fields.last())) == (Reg { up: 0, idx: 0 }),
        folded_len(fields.last()) == Ok::<ExprIn, Seq<char>>(ExprIn::Ref(fields.last().ty->Bytes_len->Ref_0)),
{
    let l = fields.len() - 1;
    let m = len_ref_name(fields.last());
    let sy = scopes.last().syms@;
    assert(simple_upto(fields, l as nat));
    assert forall|k: int| 0 <= k < q implies sy[k].name@ != m by {
        assert(fields[k].name->Some_0@ != fields[q].name->Some_0@);
    }
    assert(is_first(sy, m, q));
    lemma_first_sym(sy, m, q);
    assert(site_at(scopes, m, 0));
    lemma_ref_up(scopes, m, 0);
    assert(simple_field(fields[q]));
    assert(plain_fixed(fields[q]));
    assert(fresh_sym(sy[q], fields[q].name->Some_0@, Loc::Fix { op: op_idx(fields, q) as usize, item: item_idx(fields, q) as usize },
        true, false, false, true));
    assert(fields.last() == fields[l]);
    assert(fold_spec(fields[l].ty->Bytes_len) matches Ok(ExprIn::Ref(_)));
}

/// The last field of such a schema compiled, from compiler state `c0`
/// (scopes `sb`) to `c1`: the innermost scope is as `tail_pre` says.
proof fn lemma_tail_after(sb: Seq<Scope>, c0: C, c1: C, fields: Seq<FieldIn>, q: int, bo: ByteOrder, opts: Options)
    requires
        sb == c0.scopes@,
        len_tail(fields),
        tail_target(fields, q),
        sb.len() > 0,
        c0.opts == opts,
        sb.last().ops@.len() == ops_for(fields, fields.len() - 1),
        forall|k: int| 0 <= k < fields.len() - 1 ==> #[trigger] field_op(fields, k, sb.last().ops@, bo, opts),
        forall|k: int| 0 <= k < sb.last().ops@.len() ==> flat_op(#[trigger] sb.last().ops@[k]),
        sb.last().syms@.len() == fields.len() - 1,
        forall|k: int| 0 <= k < fields.len() - 1 ==> (#[trigger] sb.last().syms@[k]).name@ == fields[k].name->Some_0@
            && !sb.last().syms@[k].len_referenced,
        forall|k: int| 0 <= k < fields.len() - 1 ==> (plain_fixed(fields[k]) ==> fresh_sym(#[trigger] sb.last().syms@[k],
            fields[k].name->Some_0@, Loc::Fix { op: op_idx(fields, k) as usize, item: item_idx(fields, k) as usize },
            fields[k].ty is Int, false, fixed_const(fields[k].ty), true)),
        sb.last().nregs == 0,
        sb.last().digests@.len() == 0,
        ref_ok(sb, len_ref_name(fields.last())),
        ref_si(sb, len_ref_name(fields.last())) == sb.len() - 1,
        ref_pos(sb, len_ref_name(fields.last())) == q,
        ref_reg(sb, len_ref_name(fields.last())) == (Reg { up: 0, idx: 0 }),
        c1.scopes@.last().ops@.last() matches Op::Bytes { len: src, max: mx, .. },
        ref_len(sb, c1.scopes@, len_ref_name(fields.last()), Ok(c1.scopes@.last().ops@.last()->Bytes_len)),
        c1.scopes@.last().ops@.last()->Bytes_max == (match fields.last().ty->Bytes_max { Some(x) => x, None => opts.max_default }),
        last_op_named(c1, fields.last().name->Some_0@, true),
        ref_field_added(c0, c1, len_ref_name(fields.last()), fields.last().name->Some_0@),
    ensures
        tail_pre(fields, q, c1.scopes@.last(), bo, opts),
        c1.scopes@.drop_last() == sb.drop_last(),
{
    let n = len_ref_name(fields.last());
    let si = sb.len() - 1;
    let mid = choose|mid: Seq<Scope>| #[trigger] referenced(sb, mid, ref_si(sb, n), ref_pos(sb, n), RefCtx::Len)
        && pushed_after(mid, c1, fields.last().name->Some_0@);
    assert(referenced(sb, mid, si, q, RefCtx::Len));
    assert(pushed_after(mid, c1, fields.last().name->Some_0@));
    let a = sb.last();
    let m = mid.last();
    let b = c1.scopes@.last();
    assert(mid[si] == m);
    assert(sb[si] == a);
    assert(mid.drop_last() =~= sb.drop_last()) by {
        assert forall|k: int| 0 <= k < sb.len() - 1 implies mid.drop_last()[k] == sb.drop_last()[k] by {
            assert(mid[k] == sb[k]);
        }
    }
    assert(reg_of(a, a.syms@[q]) == 0);
    lemma_tail_step(fields, q, a, m, b, bo, opts);
}

/// The last field of such a schema placed: its length read field `q`,
/// which took register 0, then its op and field were appended.
proof fn lemma_tail_step(fields: Seq<FieldIn>, q: int, a: Scope, m: Scope, b: Scope, bo: ByteOrder, opts: Options)
    requires
        len_tail(fields),
        tail_target(fields, q),
        a.ops@.len() == ops_for(fields, fields.len() - 1),
        forall|k: int| 0 <= k < fields.len() - 1 ==> #[trigger] field_op(fields, k, a.ops@, bo, opts),
        forall|k: int| 0 <= k < a.ops@.len() ==> flat_op(#[trigger] a.ops@[k]),
        a.syms@.len() == fields.len() - 1,
        forall|k: int| 0 <= k < fields.len() - 1 ==> !(#[trigger] a.syms@[k]).len_referenced,
        forall|k: int| 0 <= k < fields.len() - 1 ==> (plain_fixed(fields[k]) ==> fresh_sym(#[trigger] a.syms@[k],
            fields[k].name->Some_0@, Loc::Fix { op: op_idx(fields, k) as usize, item: item_idx(fields, k) as usize },
            fields[k].ty is Int, false, fixed_const(fields[k].ty), true)),
        a.nregs == 0,
        a.digests@.len() == 0,
        // referencing field q as a length
        m.syms@ == a.syms@.update(q, sym_ref(a.syms@[q], reg_of(a, a.syms@[q]), RefCtx::Len)),
        m.nspans == a.nspans,
        m.digests == a.digests,
        a.syms@[q].reg is None ==> m.nregs == a.nregs + 1
            && ops_patched(a.ops@, loc_index(a.syms@[q].loc), a.syms@[q].loc, 0, a.nregs, m.ops@),
        // appending the bytes op and its field
        b.ops@.len() == m.ops@.len() + 1,
        b.ops@.drop_last() == m.ops@,
        b.syms@.len() == m.syms@.len() + 1,
        b.syms@.drop_last() == m.syms@,
        !b.syms@.last().len_referenced,
        b.nregs == m.nregs,
        b.digests == m.digests,
        b.ops@.last() matches Op::Bytes { len: LenSrc::Expr { expr, inv: Some(iv) }, max: mx, .. },
        b.ops@.last()->Bytes_len->Expr_expr.0@ == seq![Ins::Reg(Reg { up: 0, idx: 0 })],
        b.ops@.last()->Bytes_len->Expr_inv == Some(Inv { reg: Reg { up: 0, idx: 0 }, a: 1, b: 0 }),
        b.ops@.last()->Bytes_max == (match fields.last().ty->Bytes_max { Some(x) => x, None => opts.max_default }),
        named_common(b.ops@.last(), fields.last().name->Some_0@),
    ensures
        tail_pre(fields, q, b, bo, opts),
{
    let l = fields.len() - 1;
    let oq = op_idx(fields, q);
    let iq = item_idx(fields, q);
    lemma_idx_nonneg(fields, q);
    assert(plain_fixed(fields[q]) || !plain_fixed(fields[q]));
    assert(field_op(fields, q, a.ops@, bo, opts));
    assert(simple_field(fields[q]));
    assert(plain_fixed(fields[q]));
    assert(a.ops.len() == a.ops@.len());
    if let Op::Fixed { items, .. } = a.ops@[oq] {
        assert(items.len() == items@.len());
    }
    let t = a.syms@[q];
    assert(fresh_sym(t, fields[q].name->Some_0@, Loc::Fix { op: oq as usize, item: iq as usize }, true, false, false, true));
    assert(loc_index(t.loc) == oq);
    let aops = a.ops@;
    let mops = m.ops@;
    let bops = b.ops@;
    assert(patched(aops[oq], t.loc, 0, 0, mops[oq]));
    assert forall|j: int| 0 <= j < mops.len() implies #[trigger] bops[j] == mops[j] by {
        assert(bops.drop_last()[j] == bops[j]);
    }
    assert forall|k: int| 0 <= k < l && k != q implies #[trigger] field_op(fields, k, bops, bo, opts) by {
        assert(field_op(fields, k, aops, bo, opts));
        let ok = op_idx(fields, k);
        lemma_idx_nonneg(fields, k);
        if ok != oq {
            assert(mops[ok] == aops[ok]);
        } else if plain_fixed(fields[k]) {
            if k < q {
                lemma_items_apart(fields, k, q);
            } else {
                lemma_items_apart(fields, q, k);
            }
        }
    }
    assert forall|j: int| 0 <= j < bops.len() implies !(#[trigger] bops[j] is BitRun) && shallow_op(bops[j]) by {
        if j < mops.len() {
            if j != oq {
                assert(mops[j] == aops[j]);
            }
            assert(flat_op(aops[j]));
        }
    }
    assert forall|j: int| 0 <= j < b.syms@.len() && j != q implies !(#[trigger] b.syms@[j]).len_referenced by {
        if j < l {
            assert(b.syms@[j] == b.syms@.drop_last()[j]);
            assert(m.syms@[j] == a.syms@[j]);
        }
    }
    assert(b.syms@[q] == b.syms@.drop_last()[q]);
}

/// `new` keeps what `old` says of every field: the scopes and their
/// fields, each field's name, place and kind, and a register once given;
/// no scope has fewer registers.
/// Every op of the scope has its nested programs' sizes right.
spec fn scope_sized(sc: Scope) -> bool {
    forall|k: int| 0 <= k < sc.ops@.len() ==> sizes_ok(#[trigger] sc.ops@[k])
}

/// Each scope of `a` whose ops have their sizes right still has in `b`.
spec fn sized_kept(a: Seq<Scope>, b: Seq<Scope>) -> bool {
    forall|si: int| 0 <= si < a.len() && si < b.len() && scope_sized(a[si]) ==> scope_sized(#[trigger] b[si])
}

proof fn lemma_sized_trans(a: Seq<Scope>, b: Seq<Scope>, c: Seq<Scope>)
    requires
        sized_kept(a, b),
        sized_kept(b, c),
        a.len() == b.len(),
    ensures
        sized_kept(a, c),
{
    assert forall|si: int| 0 <= si < a.len() && si < c.len() && scope_sized(a[si]) implies scope_sized(#[trigger] c[si]) by {
        assert(scope_sized(b[si]));
    }
}

/// Patching a field keeps an op's nested programs as they are.
proof fn lemma_patched_sized(op: Op, loc: Loc, what: u8, idx: u8, r: Op)
    requires
        patched(op, loc, what, idx, r),
        sizes_ok(op),
    ensures
        sizes_ok(r),
{
    match op {
        Op::Fixed { .. } => {},
        Op::BitRun { .. } => {},
        _ => {
            if what >= 2 {
                assert(r == spanned(op, idx));
            }
        },
    }
}

proof fn lemma_ops_patched_sized(ops: Seq<Op>, i: int, loc: Loc, what: u8, reg: u8, r: Seq<Op>)
    requires
        ops_patched(ops, i, loc, what, reg, r),
        forall|k: int| 0 <= k < ops.len() ==> sizes_ok(#[trigger] ops[k]),
    ensures
        forall|k: int| 0 <= k < r.len() ==> sizes_ok(#[trigger] r[k]),
{
    if 0 <= i < ops.len() {
        lemma_patched_sized(ops[i], loc, what, reg, r[i]);
    }
    assert forall|k: int| 0 <= k < r.len() implies sizes_ok(#[trigger] r[k]) by {
        if k != i {
            assert(r[k] == ops[k]);
        }
    }
}

/// Referencing a field keeps every scope's sizes right.
proof fn lemma_referenced_sized(a: Seq<Scope>, b: Seq<Scope>, si: int, pos: int, ctx: RefCtx)
    requires
        0 <= si < a.len(),
        0 <= pos < a[si].syms@.len(),
        referenced(a, b, si, pos, ctx),
    ensures
        sized_kept(a, b),
{
    assert forall|x: int| 0 <= x < a.len() && x < b.len() && scope_sized(a[x]) implies scope_sized(#[trigger] b[x]) by {
        if x == si {
            let sym = a[si].syms@[pos];
            if sym.reg is None {
                lemma_ops_patched_sized(a[si].ops@, loc_index(sym.loc), sym.loc, 0, a[si].nregs, b[si].ops@);
            }
        }
    }
}

/// Marking fields derived keeps every op's nested programs as they are.
proof fn lemma_derived_sized(ops: Seq<Op>, syms: Seq<Sym>, r: Seq<Op>)
    requires
        ops_derived(ops, syms, r),
        forall|k: int| 0 <= k < ops.len() ==> sizes_ok(#[trigger] ops[k]),
    ensures
        forall|k: int| 0 <= k < r.len() ==> sizes_ok(#[trigger] r[k]),
{
    assert forall|k: int| 0 <= k < r.len() implies sizes_ok(#[trigger] r[k]) by {
        assert(op_derived(ops[k], k, syms, r[k]));
        assert(sizes_ok(ops[k]));
    }
}

/// Branches each with their sizes right are `sizes_ok_cases`.
proof fn lemma_sized_cases(cases: Seq<(i64, Box<Op>)>, n: nat)
    requires
        n <= cases.len(),
        forall|k: int| 0 <= k < cases.len() ==> sizes_ok(*(#[trigger] cases[k]).1),
    ensures
        crate::sizes::sizes_ok_cases(cases, n),
    decreases n,
{
    if n > 0 {
        lemma_sized_cases(cases, (n - 1) as nat);
    }
}

/// Ops each with their sizes right are `sizes_ok_ops`.
proof fn lemma_sized_ops(ops: Seq<Op>, n: nat)
    requires
        n <= ops.len(),
        forall|k: int| 0 <= k < ops.len() ==> sizes_ok(#[trigger] ops[k]),
    ensures
        sizes_ok_ops(ops, n),
    decreases n,
{
    if n > 0 {
        lemma_sized_ops(ops, (n - 1) as nat);
    }
}

spec fn keeps(old: Seq<Scope>, new: Seq<Scope>) -> bool {
    &&& new.len() == old.len()
    &&& sized_kept(old, new)
    &&& forall|k: int| 0 <= k < old.len() ==> {
        &&& (#[trigger] new[k]).syms@.len() == old[k].syms@.len()
        &&& new[k].nregs >= old[k].nregs
        &&& forall|p: int| 0 <= p < old[k].syms@.len() ==> sym_kept(old[k].syms@[p], #[trigger] new[k].syms@[p])
    }
}

spec fn sym_kept(a: Sym, b: Sym) -> bool {
    &&& b.name@ == a.name@
    &&& b.loc == a.loc
    &&& b.is_flags == a.is_flags
    &&& b.refable == a.refable
    &&& b.is_const == a.is_const
    &&& a.reg is Some ==> b.reg == a.reg
    &&& a.len_referenced ==> b.len_referenced
}

proof fn lemma_keeps_trans(a: Seq<Scope>, b: Seq<Scope>, c: Seq<Scope>)
    requires
        keeps(a, b),
        keeps(b, c),
    ensures
        keeps(a, c),
{
    lemma_sized_trans(a, b, c);
    assert forall|k: int| 0 <= k < a.len() implies {
        &&& (#[trigger] c[k]).syms@.len() == a[k].syms@.len()
        &&& c[k].nregs >= a[k].nregs
        &&& forall|p: int| 0 <= p < a[k].syms@.len() ==> sym_kept(a[k].syms@[p], #[trigger] c[k].syms@[p])
    } by {
        assert(b[k].syms@.len() == a[k].syms@.len());
        assert forall|p: int| 0 <= p < a[k].syms@.len() implies sym_kept(a[k].syms@[p], #[trigger] c[k].syms@[p]) by {
            assert(sym_kept(a[k].syms@[p], b[k].syms@[p]));
            assert(sym_kept(b[k].syms@[p], c[k].syms@[p]));
        }
    }
}

/// Where the fields keep their names, a name finds the same field.
proof fn lemma_keeps_site(a: Seq<Scope>, b: Seq<Scope>, name: Seq<char>)
    requires
        keeps(a, b),
    ensures
        ref_up(a, name) == ref_up(b, name),
        ref_up(a, name) matches Some(up) ==> first_sym(a[a.len() - 1 - up].syms@, name)
            == first_sym(b[b.len() - 1 - up].syms@, name),
{
    assert forall|k: int| 0 <= k < a.len() implies first_sym(#[trigger] a[k].syms@, name) == first_sym(b[k].syms@, name) by {
        let sa = a[k].syms@;
        let sb = b[k].syms@;
        assert(sb.len() == sa.len());
        assert forall|p: int| #![trigger sb[p]] #![trigger sa[p]] 0 <= p < sa.len() implies sb[p].name@ == sa[p].name@ by {
            assert(sym_kept(sa[p], sb[p]));
        }
        if first_sym(sa, name) is Some {
            let j = choose|j: int| #[trigger] is_first(sa, name, j);
            assert(is_first(sa, name, j));
            assert(is_first(sb, name, j));
            lemma_first_sym(sa, name, j);
            lemma_first_sym(sb, name, j);
        } else if first_sym(sb, name) is Some {
            let j = choose|j: int| #[trigger] is_first(sb, name, j);
            assert(is_first(sb, name, j));
            assert(is_first(sa, name, j));
        }
    }
    if ref_up(a, name) is Some {
        let u = choose|u: int| #[trigger] site_at(a, name, u);
        assert(site_at(a, name, u));
        assert(first_sym(a[a.len() - 1 - u].syms@, name) == first_sym(b[b.len() - 1 - u].syms@, name));
        assert forall|v: int| 0 <= v < u implies (#[trigger] first_sym(b[b.len() - 1 - v].syms@, name)) is None by {
            assert(first_sym(a[a.len() - 1 - v].syms@, name) is None);
            assert(first_sym(a[a.len() - 1 - v].syms@, name) == first_sym(b[b.len() - 1 - v].syms@, name));
        }
        assert(site_at(b, name, u));
        lemma_ref_up(a, name, u);
        lemma_ref_up(b, name, u);
    } else if ref_up(b, name) is Some {
        let u = choose|u: int| #[trigger] site_at(b, name, u);
        assert(site_at(b, name, u));
        assert(first_sym(a[a.len() - 1 - u].syms@, name) == first_sym(b[b.len() - 1 - u].syms@, name));
        assert forall|v: int| 0 <= v < u implies (#[trigger] first_sym(a[a.len() - 1 - v].syms@, name)) is None by {
            assert(first_sym(b[b.len() - 1 - v].syms@, name) is None);
            assert(first_sym(a[a.len() - 1 - v].syms@, name) == first_sym(b[b.len() - 1 - v].syms@, name));
        }
        assert(site_at(a, name, u));
    }
}

impl C {
    /// The scope fields are added to.
    spec fn ready(&self) -> bool {
        self.scopes@.len() > 0
    }

    /// A field name: absent, or non-empty and new in its scope.
    fn check_name(&mut self, name: &Option<String>) -> (r: Result<Option<String>, SchemaError>)
        requires
            old(self).ready(),
        ensures
            sized_kept(old(self).scopes@, final(self).scopes@),
            final(self).scopes@.len() == old(self).scopes@.len(),
            *final(self) == *old(self),
            match name {
                None => r == Ok::<Option<String>, SchemaError>(None),
                Some(n) => if n@.len() == 0 {
                    r matches Err(e) && e.msg@ == "field name must not be empty"@
                } else if exists|j: int| 0 <= j < old(self).scopes@.last().syms@.len()
                    && #[trigger] old(self).scopes@.last().syms@[j].name@ == n@ {
                    r matches Err(e) && e.msg@ == "duplicate field name "@ + debug_quoted(n@) + " in scope"@
                } else {
                    r matches Ok(Some(m)) && m@ == n@
                },
            },
    {
        match name {
            None => Ok(None),
            Some(n) => {
                proof { reveal_strlit(""); }
                if str_eq(n.as_str(), "") {
                    proof { assert(n@.len() == 0); }
                    return Err(err_str("field name must not be empty"));
                }
                proof { if n@.len() == 0 { assert(n@ =~= ""@); } }
                let last = self.scopes.len() - 1;
                match find_sym(&self.scopes[last].syms, n.as_str()) {
                    Some(j) => {
                        proof { assert(old(self).scopes@.last().syms@[j as int].name@ == n@); }
                        Err(msg_q("duplicate field name ", n.as_str(), " in scope"))
                    },
                    None => Ok(Some(n.clone())),
                }
            },
        }
    }

    fn add_sym(&mut self, name: Option<String>, loc: Loc, refable: bool, is_flags: bool, is_const: bool, spannable: bool)
        requires
            old(self).ready(),
        ensures
            sized_kept(old(self).scopes@, final(self).scopes@),
            final(self).scopes@.len() == old(self).scopes@.len(),
            final(self).opts == old(self).opts,
            final(self).scopes@.drop_last() == old(self).scopes@.drop_last(),
            final(self).scopes@.last().ops == old(self).scopes@.last().ops,
            final(self).scopes@.last().nregs == old(self).scopes@.last().nregs,
            final(self).scopes@.last().nspans == old(self).scopes@.last().nspans,
            final(self).scopes@.last().digests == old(self).scopes@.last().digests,
            match name {
                None => final(self).scopes@.last().syms == old(self).scopes@.last().syms,
                Some(n) => final(self).scopes@.last().syms@.drop_last() == old(self).scopes@.last().syms@
                    && final(self).scopes@.last().syms@.len() == old(self).scopes@.last().syms@.len() + 1
                    && final(self).scopes@.last().syms@.last().name == n
                    && !final(self).scopes@.last().syms@.last().len_referenced
                    && fresh_sym(final(self).scopes@.last().syms@.last(), n@, loc, refable, is_flags, is_const, spannable),
            },
    {
        if let Some(name) = name {
            let mut sc = self.scopes.pop().unwrap();
            sc.syms.push(Sym {
                name,
                loc,
                refable,
                is_flags,
                is_const,
                spannable,
                reg: None,
                span: None,
                derived: false,
                len_referenced: false,
                used_in_on: false,
            });
            self.scopes.push(sc);
            proof { assert(self.scopes@.drop_last() =~= old(self).scopes@.drop_last()); }
        }
    }

    /// Appends an op of its own to the innermost scope; its location.
    fn push_op(&mut self, op: Op) -> (r: Loc)
        requires
            sizes_ok(op),
            old(self).ready(),
        ensures
            sized_kept(old(self).scopes@, final(self).scopes@),
            final(self).scopes@.len() == old(self).scopes@.len(),
            final(self).opts == old(self).opts,
            final(self).scopes@.drop_last() == old(self).scopes@.drop_last(),
            final(self).scopes@.last().ops@ == old(self).scopes@.last().ops@.push(op),
            final(self).scopes@.last().syms == old(self).scopes@.last().syms,
            final(self).scopes@.last().nregs == old(self).scopes@.last().nregs,
            final(self).scopes@.last().nspans == old(self).scopes@.last().nspans,
            final(self).scopes@.last().digests == old(self).scopes@.last().digests,
            r == Loc::Op(old(self).scopes@.last().ops@.len() as usize),
    {
        let mut sc = self.scopes.pop().unwrap();
        sc.ops.push(op);
        let i = sc.ops.len() - 1;
        self.scopes.push(sc);
        proof { assert(self.scopes@.drop_last() =~= old(self).scopes@.drop_last()); }
        Loc::Op(i)
    }

    /// Adds a fixed-width item, to the run of fixed fields the scope ends
    /// with or to a new one.
    fn push_fixed(&mut self, kind: FixKind, key: Key) -> (r: Result<Loc, SchemaError>)
        requires
            old(self).ready(),
        ensures
            sized_kept(old(self).scopes@, final(self).scopes@),
            final(self).scopes@.len() == old(self).scopes@.len(),
            final(self).opts == old(self).opts,
            final(self).scopes@.drop_last() == old(self).scopes@.drop_last(),
            final(self).scopes@.last().syms == old(self).scopes@.last().syms,
            final(self).scopes@.last().nregs == old(self).scopes@.last().nregs,
            final(self).scopes@.last().nspans == old(self).scopes@.last().nspans,
            final(self).scopes@.last().digests == old(self).scopes@.last().digests,
            old(self).scopes@.last().ops@.len() == 0 ==> {
                &&& r is Ok
                &&& final(self).scopes@.last().ops@.len() == 1
                &&& final(self).scopes@.last().ops@[0] matches Op::Fixed { width, items }
                &&& width == kind.spec_width()
                &&& items@.len() == 1
                &&& items@[0].off == 0
                &&& items@[0].kind == kind
                &&& items@[0].key == key
                &&& items@[0].reg is None
            },
            r matches Ok(loc) ==> (final(self).scopes@.last().ops@.len() > 0
                && (final(self).scopes@.last().ops@.last() matches Op::Fixed { items, .. } && items@.len() > 0
                && loc == Loc::Fix { op: (final(self).scopes@.last().ops@.len() - 1) as usize, item: (items@.len() - 1) as usize })),
            !(old(self).scopes@.last().ops@.len() > 0 && old(self).scopes@.last().ops@.last() is Fixed) ==> {
                &&& r is Ok
                &&& final(self).scopes@.last().ops@.len() == old(self).scopes@.last().ops@.len() + 1
                &&& final(self).scopes@.last().ops@.drop_last() == old(self).scopes@.last().ops@
                &&& final(self).scopes@.last().ops@.last() matches Op::Fixed { width, items }
                &&& width == kind.spec_width()
                &&& items@.len() == 1
                &&& items@[0].off == 0
                &&& items@[0].kind == kind
                &&& items@[0].key == key
                &&& items@[0].reg is None
            },
            old(self).scopes@.last().ops@.len() > 0 ==> (old(self).scopes@.last().ops@.last() matches Op::Fixed { width, items }
                ==> (width + kind.spec_width() <= usize::MAX ==> {
                &&& r is Ok
                &&& final(self).scopes@.last().ops@.len() == old(self).scopes@.last().ops@.len()
                &&& final(self).scopes@.last().ops@.drop_last() == old(self).scopes@.last().ops@.drop_last()
                &&& final(self).scopes@.last().ops@.last() matches Op::Fixed { width: w2, items: it2 }
                &&& w2 == width + kind.spec_width()
                &&& it2@.len() == items@.len() + 1
                &&& it2@.drop_last() == items@
                &&& it2@.last().off == width
                &&& it2@.last().kind == kind
                &&& it2@.last().key == key
                &&& it2@.last().reg is None
            })),
    {
        let w = kind.width();
        let mut sc = self.scopes.pop().unwrap();
        let n = sc.ops.len();
        let mut res: Result<Loc, SchemaError> = Err(err_str("a run of fixed fields is too wide"));
        if n > 0 {
            let last = sc.ops.pop().unwrap();
            match last {
                Op::Fixed { width, mut items } => {
                    match width.checked_add(w) {
                        Some(nw) => {
                            items.push(FixedItem { off: width, kind, reg: None, span: None, key });
                            let item = items.len() - 1;
                            sc.ops.push(Op::Fixed { width: nw, items });
                            res = Ok(Loc::Fix { op: n - 1, item });
                        },
                        None => {
                            sc.ops.push(Op::Fixed { width, items });
                        },
                    }
                    self.scopes.push(sc);
                    proof { assert(self.scopes@.drop_last() =~= old(self).scopes@.drop_last()); }
                    return res;
                },
                other => {
                    sc.ops.push(other);
                },
            }
        }
        let ghost ops_before = sc.ops@;
        sc.ops.push(Op::Fixed { width: w, items: vec![FixedItem { off: 0, kind, reg: None, span: None, key }] });
        let i = sc.ops.len() - 1;
        self.scopes.push(sc);
        proof {
            assert(self.scopes@.drop_last() =~= old(self).scopes@.drop_last());
            assert(self.scopes@.last().ops@.drop_last() =~= ops_before);
        }
        Ok(Loc::Fix { op: i, item: 0 })
    }

    /// The register an expression reads for `name`: the innermost field of
    /// that name in the scopes open, given a register if it has none. A
    /// length, count or size marks the field referenced (unless it is a
    /// constant), a switch marks it read as a discriminant.
    fn resolve_ref(&mut self, name: &str, ctx: RefCtx) -> (r: Result<Reg, SchemaError>)
        ensures
            final(self).scopes@.len() == old(self).scopes@.len(),
            final(self).opts == old(self).opts,
            keeps(old(self).scopes@, final(self).scopes@),
            match ref_up(old(self).scopes@, name@) {
                None => r matches Err(e) && e.msg@ == unknown_ref_msg(name@) && *final(self) == *old(self),
                Some(up) => {
                    let si = old(self).scopes@.len() - 1 - up;
                    let sc = old(self).scopes@[si];
                    let pos = first_sym(sc.syms@, name@)->Some_0;
                    let sym = sc.syms@[pos];
                    if sym.is_flags {
                        r matches Err(e) && e.msg@ == "ref to flags field "@ + debug_quoted(name@) + " is forbidden; use bits instead"@
                            && *final(self) == *old(self)
                    } else if !sym.refable {
                        r matches Err(e) && e.msg@ == "ref "@ + debug_quoted(name@) + ": only integer fields can be referenced"@
                            && *final(self) == *old(self)
                    } else if sym.reg is None && sc.nregs as usize >= MAX_REGS {
                        r matches Err(e) && e.msg@ == "exceeded the limit of 16 registers per scope"@
                            && *final(self) == *old(self)
                    } else {
                        &&& r == Ok::<Reg, SchemaError>(Reg { up: up as u8, idx: reg_of(sc, sym) })
                        &&& referenced(old(self).scopes@, final(self).scopes@, si, pos, ctx)
                    }
                },
            },
    {
        let n = self.scopes.len();
        let mut up: usize = 0;
        while up < n
            invariant
                n == self.scopes@.len(),
                n == old(self).scopes@.len(),
                up <= n,
                *self == *old(self),
                forall|u: int| 0 <= u < up ==> (#[trigger] first_sym(old(self).scopes@[n - 1 - u].syms@, name@)) is None,
            decreases n - up,
        {
            let si = n - 1 - up;
            match find_sym(&self.scopes[si].syms, name) {
                None => {},
                Some(pos) => {
                    proof {
                        assert(site_at(old(self).scopes@, name@, up as int));
                        lemma_ref_up(old(self).scopes@, name@, up as int);
                    }
                    if self.scopes[si].syms[pos].is_flags {
                        return Err(msg_q("ref to flags field ", name, " is forbidden; use bits instead"));
                    }
                    if !self.scopes[si].syms[pos].refable {
                        return Err(msg_q("ref ", name, ": only integer fields can be referenced"));
                    }
                    if self.scopes[si].syms[pos].reg.is_none() && self.scopes[si].nregs as usize >= MAX_REGS {
                        return Err(err_str("exceeded the limit of 16 registers per scope"));
                    }
                    let ghost scopes0 = self.scopes@;
                    let mut sc = self.scopes.remove(si);
                    let ghost sc0 = sc;
                    let ghost syms0 = sc.syms@;
                    let mut sym = sc.syms.remove(pos);
                    let ghost sym0 = sym;
                    let idx = match sym.reg {
                        Some(i) => i,
                        None => {
                            let i = sc.nregs;
                            sc.nregs = sc.nregs + 1;
                            sym.reg = Some(i);
                            update_op(&mut sc.ops, loc_op(sym.loc), sym.loc, 0, i);
                            i
                        },
                    };
                    match ctx {
                        RefCtx::Len => {
                            if !sym.is_const {
                                sym.len_referenced = true;
                            }
                        },
                        RefCtx::On => {
                            sym.used_in_on = true;
                        },
                        RefCtx::Pred => {},
                    }
                    proof { assert(sym == sym_ref(sym0, idx, ctx)); }
                    sc.syms.insert(pos, sym);
                    proof { assert(sc.syms@ =~= syms0.update(pos as int, sym_ref(sym0, idx, ctx))); }
                    self.scopes.insert(si, sc);
                    proof {
                        assert(self.scopes@ =~= scopes0.update(si as int, sc));
                        assert(idx == reg_of(sc0, sym0));
                    }
                    return Ok(Reg { up: up as u8, idx });
                },
            }
            up = up + 1;
        }
        proof {
            if ref_up(old(self).scopes@, name@) is Some {
                let u = choose|u: int| #[trigger] site_at(old(self).scopes@, name@, u);
                assert(site_at(old(self).scopes@, name@, u));
                assert(first_sym(old(self).scopes@[n - 1 - u].syms@, name@) is None);
            }
        }
        Err(msg_q("unknown name ", name,
            " in ref (references are backward-only: a field can only ref an already-decoded sibling or ancestor)"))
    }

    /// A length, count or size: `*`, a constant, or `a*ref + b`, which
    /// packing inverts to derive the referenced field. Where an inversion
    /// is given, every value the expression takes is `a` times some field
    /// plus `b`.
    fn build_len(&mut self, e: &ExprIn, what: &str) -> (r: Result<LenSrc, SchemaError>)
        ensures
            final(self).scopes@.len() == old(self).scopes@.len(),
            e is Greedy ==> (r matches Ok(LenSrc::Greedy) && *final(self) == *old(self)),
            final(self).opts == old(self).opts,
            keeps(old(self).scopes@, final(self).scopes@),
            r matches Ok(LenSrc::Greedy) ==> e is Greedy,
            r matches Ok(LenSrc::Expr { inv: Some(inv), .. }) ==> exists|name: Seq<char>|
                #[trigger] linear_in(*e, name, inv.a as int, inv.b as int),
            r matches Ok(LenSrc::Expr { expr, inv: None }) ==> (expr.0@.len() == 1
                && (expr.0@[0] matches Ins::Imm(n) && n >= 0 && fold_spec(*e) == Ok::<ExprIn, Seq<char>>(ExprIn::Imm(n)))),
            r matches Ok(LenSrc::Expr { expr, inv: Some(_) }) ==> (fold_spec(*e) matches Ok(f)
                && postfix_of(f, final(self).scopes@, expr.0@)),
            !(e is Greedy) ==> (fold_spec(*e) matches Err(m) ==> (r matches Err(x) && x.msg@ == m)),
            fold_spec(*e) matches Ok(ExprIn::Imm(n)) ==> (if n < 0 {
                r matches Err(x) && x.msg@ == what@ + ": negative constant length "@ + seq!['-'] + dec_chars((-n) as nat)
            } else {
                r matches Ok(LenSrc::Expr { expr, inv: None }) && expr.0@ == seq![Ins::Imm(n)]
            }),
            fold_spec(*e) matches Ok(ExprIn::Imm(_)) ==> *final(self) == *old(self),
            fold_spec(*e) matches Ok(fl) ==> (refs_in(fl).len() >= 2 ==> (r matches Err(x)
                && x.msg@ == what@ + ": expression is not invertible (must have the form a*ref + b)"@ && *final(self) == *old(self))),
            fold_spec(*e) matches Ok(ExprIn::Ref(n)) ==> (ref_up(old(self).scopes@, n@) is None ==> (r matches Err(x)
                && x.msg@ == unknown_ref_msg(n@) && *final(self) == *old(self))),
            fold_spec(*e) matches Ok(ExprIn::Ref(n)) ==> (ref_ok(old(self).scopes@, n@) ==> (ref_len(old(self).scopes@,
                final(self).scopes@, n@, r) && referenced(old(self).scopes@, final(self).scopes@, ref_si(old(self).scopes@, n@),
                ref_pos(old(self).scopes@, n@), RefCtx::Len))),
    {
        if let ExprIn::Greedy = e {
            return Ok(LenSrc::Greedy);
        }
        let folded = fold(e)?;
        if let ExprIn::Imm(n) = folded {
            if n < 0 {
                let mut m = string_of(what);
                push_str(&mut m, ": negative constant length ");
                push_signed(&mut m, n as i128);
                return Err(err(m));
            }
            return Ok(LenSrc::Expr { expr: Expr::imm(n), inv: None });
        }
        let lin = match linear(&folded) {
            Some(l) => l,
            None => {
                let mut m = string_of(what);
                push_str(&mut m, ": expression is not invertible (must have the form a*ref + b)");
                return Err(err(m));
            },
        };
        let (ref_name, a) = match lin.ref_ {
            Some(x) => x,
            None => {
                let mut m = string_of(what);
                push_str(&mut m, ": expression is not invertible (must have the form a*ref + b)");
                return Err(err(m));
            },
        };
        if a == 0 {
            let mut m = string_of(what);
            push_str(&mut m, ": coefficient on ref is zero");
            return Err(err(m));
        }
        let ghost gname = ref_name@;
        proof {
            assert forall|env: spec_fn(Seq<char>) -> i64| #[trigger] ein_eval(*e, env) is Ok
                implies ein_eval(*e, env)->Ok_0 == a * env(gname) + lin.b by {
                lemma_fold_preserves(*e, env);
                assert(ein_eval(folded, env) == ein_eval(*e, env));
            }
        }
        proof { assert(linear_in(*e, gname, a as int, lin.b as int)); }
        let ghost s0 = self.scopes@;
        let reg = self.resolve_ref(ref_name.as_str(), RefCtx::Len)?;
        let ghost s1 = self.scopes@;
        proof {
            if folded is Ref {
                let n = folded->Ref_0@;
                assert(ref_name@ == n);
                if ref_ok(s0, n) {
                    lemma_keeps_site(s0, s1, n);
                    let si = ref_si(s0, n);
                    let pos = ref_pos(s0, n);
                    assert(s1[si].syms@[pos] == sym_ref(s0[si].syms@[pos], reg_of(s0[si], s0[si].syms@[pos]), RefCtx::Len));
                    assert(regs_set(folded, s1));
                    lemma_refs_kept(folded, s0, s1);
                }
            }
        }
        let expr = self.emit_expr(&folded, RefCtx::Len)?;
        let inv = Inv { reg, a, b: lin.b };
        let r = LenSrc::Expr { expr, inv: Some(inv) };
        proof {
            if folded is Ref {
                let n = folded->Ref_0@;
                if ref_ok(s0, n) {
                    let si = ref_si(s0, n);
                    let pos = ref_pos(s0, n);
                    lemma_keeps_site(s1, self.scopes@, n);
                    assert(sym_kept(s1[si].syms@[pos], self.scopes@[si].syms@[pos]));
                    let j = choose|j: int| #[trigger] is_first(s0[si].syms@, n, j);
                    assert(is_first(s0[si].syms@, n, j));
                    lemma_first_sym(s0[si].syms@, n, j);
                    assert(ref_si(s1, n) == si);
                    assert(ref_pos(s1, n) == pos);
                    lemma_ref_compose(s0, s1, self.scopes@, si, pos);
                }
            }
        }
        proof {
            assert(linear_in(*e, gname, inv.a as int, inv.b as int));
            assert(r matches LenSrc::Expr { inv: Some(i), .. } && i == inv);
            assert(exists|name: Seq<char>| #[trigger] linear_in(*e, name, inv.a as int, inv.b as int));
        }
        Ok(r)
    }

    /// An expression compiled to postfix code, which must fit the
    /// evaluation stack.
    fn emit_expr(&mut self, e: &ExprIn, ctx: RefCtx) -> (r: Result<Expr, SchemaError>)
        ensures
            final(self).scopes@.len() == old(self).scopes@.len(),
            final(self).opts == old(self).opts,
            keeps(old(self).scopes@, final(self).scopes@),
            r matches Ok(x) ==> stack_peak(x.0@, 0, 0, 0) <= EXPR_STACK && postfix_of(*e, final(self).scopes@, x.0@),
            has_greedy(*e) || !refs_ok(*e, old(self).scopes@) ==> r is Err,
            r is Err ==> has_greedy(*e) || !refs_ok(*e, old(self).scopes@) || some_full(*e, final(self).scopes@)
                || exists|s: Seq<Ins>| #[trigger] postfix_of(*e, final(self).scopes@, s) && stack_peak(s, 0, 0, 0) > EXPR_STACK,
            e is Ref ==> (regs_set(*e, old(self).scopes@) && refs_ok(*e, old(self).scopes@) ==> r is Ok),
            e matches ExprIn::Ref(n) ==> (r is Ok ==> ref_up(old(self).scopes@, n@) is Some
                && referenced(old(self).scopes@, final(self).scopes@, ref_si(old(self).scopes@, n@), ref_pos(old(self).scopes@, n@), ctx)),
    {
        let mut out: Vec<Ins> = Vec::new();
        self.emit_into(e, ctx, &mut out)?;
        proof {
            assert(out@.subrange(0, out@.len() as int) =~= out@);
            if e is Ref {
                assert(out@.len() == 1);
                assert(out@[0] is Reg);
                assert(stack_peak(out@, 1, 1, 1) == 1);
                assert(stack_peak(out@, 0, 0, 0) == stack_peak(out@, 1, 1, 1));
            }
        }
        if postfix_depth(&out) > EXPR_STACK {
            return Err(err_str("expression too deep (the expression evaluation stack holds at most 8 values)"));
        }
        Ok(Expr(out))
    }

    /// Appends `e` in postfix form to `out`, each reference compiled to the
    /// register of its field (allocated where it has none). It fails on a
    /// `*` inside the expression, on a name no open scope holds or whose
    /// field cannot be referenced, and where a scope runs out of registers.
    fn emit_into(&mut self, e: &ExprIn, ctx: RefCtx, out: &mut Vec<Ins>) -> (r: Result<(), SchemaError>)
        ensures
            final(self).scopes@.len() == old(self).scopes@.len(),
            final(self).opts == old(self).opts,
            keeps(old(self).scopes@, final(self).scopes@),
            r is Ok ==> {
                &&& final(out)@.len() == old(out)@.len() + ins_len(*e)
                &&& final(out)@.subrange(0, old(out)@.len() as int) == old(out)@
                &&& postfix_of(*e, final(self).scopes@, final(out)@.subrange(old(out)@.len() as int, final(out)@.len() as int))
            },
            has_greedy(*e) || !refs_ok(*e, old(self).scopes@) ==> r is Err,
            r is Err ==> has_greedy(*e) || !refs_ok(*e, old(self).scopes@) || some_full(*e, final(self).scopes@),
            regs_set(*e, old(self).scopes@) && !has_greedy(*e) && refs_ok(*e, old(self).scopes@) ==> r is Ok,
            e matches ExprIn::Ref(n) ==> (r is Ok ==> ref_up(old(self).scopes@, n@) is Some
                && referenced(old(self).scopes@, final(self).scopes@, ref_si(old(self).scopes@, n@), ref_pos(old(self).scopes@, n@), ctx)),
        decreases e,
    {
        match e {
            ExprIn::Imm(n) => {
                out.push(Ins::Imm(*n));
                proof {
                    assert(out@.subrange(0, old(out)@.len() as int) =~= old(out)@);
                    assert(out@.subrange(old(out)@.len() as int, out@.len() as int) =~= seq![Ins::Imm(*n)]);
                }
                Ok(())
            },
            ExprIn::Greedy => Err(err_str("\"*\" is only allowed as the whole of len/count, not inside an expression")),
            ExprIn::Ref(name) => {
                let reg = self.resolve_ref(name.as_str(), ctx)?;
                out.push(Ins::Reg(reg));
                proof {
                    assert(out@.subrange(0, old(out)@.len() as int) =~= old(out)@);
                    lemma_keeps_site(old(self).scopes@, self.scopes@, name@);
                    let up = ref_up(old(self).scopes@, name@)->Some_0;
                    let si = old(self).scopes@.len() - 1 - up;
                    let pos = first_sym(old(self).scopes@[si].syms@, name@)->Some_0;
                    assert(self.scopes@[si].syms@[pos] == sym_ref(old(self).scopes@[si].syms@[pos], reg.idx, ctx));
                    assert(out@.subrange(old(out)@.len() as int, out@.len() as int) =~= seq![Ins::Reg(reg)]);
                }
                Ok(())
            },
            ExprIn::Bin(op, l, r) => {
                let ghost s0 = self.scopes@;
                let ghost o0 = out@;
                let rl = self.emit_into(l, ctx, out);
                let ghost s1 = self.scopes@;
                let ghost o1 = out@;
                if rl.is_err() {
                    proof { lemma_refs_kept(**l, s0, s1); }
                    return rl;
                }
                proof {
                    lemma_refs_kept(**r, s0, s1);
                    if regs_set(**r, s0) {
                        lemma_regs_kept(**r, s0, s1);
                    }
                }
                let rr = self.emit_into(r, ctx, out);
                let ghost s2 = self.scopes@;
                let ghost o2 = out@;
                proof { lemma_keeps_trans(s0, s1, s2); }
                if rr.is_err() {
                    return rr;
                }
                out.push(bin_ins_exec(*op));
                proof {
                    lemma_postfix_kept(**l, s1, s2, o1.subrange(o0.len() as int, o1.len() as int));
                    let s = out@.subrange(o0.len() as int, out@.len() as int);
                    assert(s.take(ins_len(**l) as int) =~= o1.subrange(o0.len() as int, o1.len() as int));
                    assert(s.subrange(ins_len(**l) as int, (ins_len(**l) + ins_len(**r)) as int) =~= o2.subrange(o1.len() as int, o2.len() as int));
                    assert(out@.subrange(0, o0.len() as int) =~= o0);
                }
                Ok(())
            },
        }
    }
}

/// How many instructions an expression compiles to.
spec fn ins_len(e: ExprIn) -> nat
    decreases e,
{
    match e {
        ExprIn::Bin(_, l, r) => ins_len(*l) + ins_len(*r) + 1,
        _ => 1,
    }
}

/// A `*` stands somewhere in the expression.
pub open spec fn has_greedy(e: ExprIn) -> bool
    decreases e,
{
    match e {
        ExprIn::Greedy => true,
        ExprIn::Bin(_, l, r) => has_greedy(*l) || has_greedy(*r),
        _ => false,
    }
}

/// The field a name finds in `scopes`, if any.
spec fn ref_sym(scopes: Seq<Scope>, name: Seq<char>) -> Option<(int, Sym)> {
    match ref_up(scopes, name) {
        Some(up) => {
            let sc = scopes[scopes.len() - 1 - up];
            Some((up, sc.syms@[first_sym(sc.syms@, name)->Some_0]))
        },
        None => None,
    }
}

/// Every name in the expression finds an integer field that is not a
/// flags field.
spec fn refs_ok(e: ExprIn, scopes: Seq<Scope>) -> bool
    decreases e,
{
    match e {
        ExprIn::Ref(name) => ref_sym(scopes, name@) matches Some((_, sym)) && !sym.is_flags && sym.refable,
        ExprIn::Bin(_, l, r) => refs_ok(*l, scopes) && refs_ok(*r, scopes),
        _ => true,
    }
}

/// Every field the expression names has a register already.
spec fn regs_set(e: ExprIn, scopes: Seq<Scope>) -> bool
    decreases e,
{
    match e {
        ExprIn::Ref(name) => ref_sym(scopes, name@) matches Some((_, sym)) && sym.reg is Some,
        ExprIn::Bin(_, l, r) => regs_set(*l, scopes) && regs_set(*r, scopes),
        _ => true,
    }
}

/// Some field the expression names lives in a scope whose registers are
/// all taken.
spec fn some_full(e: ExprIn, scopes: Seq<Scope>) -> bool
    decreases e,
{
    match e {
        ExprIn::Ref(name) => ref_up(scopes, name@) matches Some(up)
            && scopes[scopes.len() - 1 - up].nregs as usize >= MAX_REGS,
        ExprIn::Bin(_, l, r) => some_full(*l, scopes) || some_full(*r, scopes),
        _ => false,
    }
}

/// `s` is `e` in postfix form, each name read from the register its field
/// has in `scopes`.
spec fn postfix_of(e: ExprIn, scopes: Seq<Scope>, s: Seq<Ins>) -> bool
    decreases e,
{
    match e {
        ExprIn::Imm(n) => s == seq![Ins::Imm(n)],
        ExprIn::Greedy => false,
        ExprIn::Ref(name) => ref_sym(scopes, name@) matches Some((up, sym))
            && sym.reg matches Some(idx) && s == seq![Ins::Reg(Reg { up: up as u8, idx })],
        ExprIn::Bin(op, l, r) => {
            &&& s.len() == ins_len(e)
            &&& postfix_of(*l, scopes, s.take(ins_len(*l) as int))
            &&& postfix_of(*r, scopes, s.subrange(ins_len(*l) as int, (ins_len(*l) + ins_len(*r)) as int))
            &&& s.last() == bin_ins(op)
        },
    }
}

proof fn lemma_ref_sym_kept(a: Seq<Scope>, b: Seq<Scope>, name: Seq<char>)
    requires
        keeps(a, b),
    ensures
        ref_sym(a, name) matches Some((up, sa)) ==> ref_sym(b, name) matches Some((u2, sb)) && u2 == up
            && sym_kept(sa, sb) && b[b.len() - 1 - up].nregs >= a[a.len() - 1 - up].nregs,
        ref_sym(a, name) is None ==> ref_sym(b, name) is None,
{
    lemma_keeps_site(a, b, name);
    if let Some(up) = ref_up(a, name) {
        let k = a.len() - 1 - up;
        let p = first_sym(a[k].syms@, name)->Some_0;
        let j = choose|j: int| #[trigger] is_first(a[k].syms@, name, j);
        assert(is_first(a[k].syms@, name, j));
        lemma_first_sym(a[k].syms@, name, j);
        assert(b[k].syms@.len() == a[k].syms@.len());
        assert(sym_kept(a[k].syms@[p], b[k].syms@[p]));
    }
}

proof fn lemma_refs_kept(e: ExprIn, a: Seq<Scope>, b: Seq<Scope>)
    requires
        keeps(a, b),
    ensures
        refs_ok(e, a) == refs_ok(e, b),
    decreases e,
{
    match e {
        ExprIn::Ref(name) => lemma_ref_sym_kept(a, b, name@),
        ExprIn::Bin(_, l, r) => {
            lemma_refs_kept(*l, a, b);
            lemma_refs_kept(*r, a, b);
        },
        _ => {},
    }
}

proof fn lemma_regs_kept(e: ExprIn, a: Seq<Scope>, b: Seq<Scope>)
    requires
        keeps(a, b),
        regs_set(e, a),
    ensures
        regs_set(e, b),
    decreases e,
{
    match e {
        ExprIn::Ref(name) => lemma_ref_sym_kept(a, b, name@),
        ExprIn::Bin(_, l, r) => {
            lemma_regs_kept(*l, a, b);
            lemma_regs_kept(*r, a, b);
        },
        _ => {},
    }
}

/// Registers once given stay, so compiled code stays what it reads.
proof fn lemma_postfix_kept(e: ExprIn, a: Seq<Scope>, b: Seq<Scope>, s: Seq<Ins>)
    requires
        keeps(a, b),
        postfix_of(e, a, s),
    ensures
        postfix_of(e, b, s),
    decreases e,
{
    match e {
        ExprIn::Ref(name) => lemma_ref_sym_kept(a, b, name@),
        ExprIn::Bin(_, l, r) => {
            lemma_postfix_kept(*l, a, b, s.take(ins_len(*l) as int));
            lemma_postfix_kept(*r, a, b, s.subrange(ins_len(*l) as int, (ins_len(*l) + ins_len(*r)) as int));
        },
        _ => {},
    }
}

// ---------- flags ----------

proof fn lemma_disjoint(a: u64, b: u64, u: u64)
    ensures
        (a & !u == 0 && b & u == 0) ==> a & b == 0,
        (a & !u == 0) ==> a & !(u | b) == 0,
        b & !(u | b) == 0,
        (a & !u == 0) ==> a & (u & !u) == 0,
{
    assert((a & !u == 0 && b & u == 0) ==> a & b == 0) by (bit_vector);
    assert((a & !u == 0) ==> a & !(u | b) == 0) by (bit_vector);
    assert(b & !(u | b) == 0) by (bit_vector);
    assert((a & !u == 0) ==> a & (u & !u) == 0) by (bit_vector);
}

proof fn lemma_rest_disjoint(a: u64, m: u64, u: u64)
    ensures
        (a & !u == 0) ==> a & (m & !u) == 0,
{
    assert((a & !u == 0) ==> a & (m & !u) == 0) by (bit_vector);
}

/// The trailing zero bits of a non-zero mask (at most 63).
fn trailing_zeros(mask: u64) -> (r: u32)
    ensures
        r < 64,
        mask & (((1u64 << r) - 1) as u64) == 0,
        mask != 0 ==> lowest_set(mask, r),
{
    let mut s: u32 = 0;
    assert(mask & (((1u64 << 0u64) - 1) as u64) == 0) by (bit_vector);
    while s < 63 && (mask >> (s as u64)) & 1 == 0
        invariant
            s <= 63,
            mask & (((1u64 << s) - 1) as u64) == 0,
        decreases 63 - s,
    {
        let ghost t = s as u64;
        assert(t < 63 && (mask >> t) & 1 == 0 && mask & (((1u64 << t) - 1) as u64) == 0
            ==> mask & (((1u64 << ((t + 1) as u64)) - 1) as u64) == 0) by (bit_vector);
        s = s + 1;
    }
    proof {
        let t = s as u64;
        assert(mask != 0 && t <= 63 && mask & (((1u64 << t) - 1) as u64) == 0 && (t == 63 || (mask >> t) & 1 != 0)
            ==> (mask >> t) & 1 == 1) by (bit_vector);
    }
    s
}

/// Bit `s` is the lowest bit set in `mask`.
pub open spec fn lowest_set(mask: u64, s: u32) -> bool {
    &&& s < 64
    &&& mask & (((1u64 << s) - 1) as u64) == 0
    &&& (mask >> s) & 1 == 1
}

/// The bits set in `mask` are one contiguous run.
pub open spec fn contiguous(mask: u64) -> bool {
    forall|s: u32| #[trigger] lowest_set(mask, s) ==> ((mask >> s) == u64::MAX
        || (mask >> s) & (((mask >> s) + 1) as u64) == 0)
}

/// The rest policy a name selects.
pub open spec fn policy_of(s: Seq<char>) -> Option<RestPolicy> {
    if s == "keep"@ {
        Some(RestPolicy::Keep)
    } else if s == "strict"@ {
        Some(RestPolicy::Strict)
    } else if s == "ignore"@ {
        Some(RestPolicy::Ignore)
    } else {
        None
    }
}

/// Named masks a flags field over `base` accepts: each name non-empty,
/// not `_rest` and used once; each mask non-zero, contiguous, inside the
/// integer and apart from every other.
pub open spec fn names_valid(base: crate::program::IntPrim, names: Seq<(String, u64)>) -> bool {
    &&& forall|i: int| 0 <= i < names.len() ==> {
        &&& (#[trigger] names[i]).0@ != ""@
        &&& names[i].0@ != "_rest"@
        &&& names[i].1 != 0
        &&& names[i].1 & !crate::flags::base_mask(base) == 0
        &&& contiguous(names[i].1)
    }
    &&& forall|i: int, j: int| 0 <= i < j < names.len() ==> (#[trigger] names[i]).0@ != (#[trigger] names[j]).0@
        && names[i].1 & names[j].1 == 0
}

proof fn lemma_union_apart(items: Seq<FlagItem>, k: nat, mask: u64)
    requires
        k <= items.len(),
        forall|i: int| 0 <= i < k ==> (#[trigger] items[i]).mask & mask == 0,
    ensures
        crate::flags::flags_union(items, k) & mask == 0,
        mask & crate::flags::flags_union(items, k) == 0,
    decreases k,
{
    let u = crate::flags::flags_union(items, k);
    if k > 0 {
        lemma_union_apart(items, (k - 1) as nat, mask);
        let a = crate::flags::flags_union(items, (k - 1) as nat);
        let b = items[k - 1].mask;
        assert(b & mask == 0);
        assert(u == a | b);
        assert(a & mask == 0 && b & mask == 0 ==> (a | b) & mask == 0 && mask & (a | b) == 0) by (bit_vector);
    } else {
        assert(u == 0u64);
        assert(0u64 & mask == 0 && mask & 0u64 == 0) by (bit_vector);
    }
}

/// A flags field's op: named masks of an unsigned integer, each non-zero,
/// contiguous, inside the integer and apart from every other; the bits no
/// name covers follow the rest policy.
fn compile_flags(
    base: crate::program::IntPrim,
    byteorder: Option<ByteOrder>,
    names: &Vec<(String, u64)>,
    rest: &String,
    bo: ByteOrder,
    c: Common,
) -> (r: Result<Op, SchemaError>)
    ensures
        base.spec_signed() ==> r is Err,
        r matches Ok(Op::Flags { prim, items, rest_mask, .. }) ==> {
            &&& crate::flags::flags_ok(items@, prim, rest_mask)
            &&& prim == base
            &&& items@.len() == names@.len()
            &&& forall|i: int| 0 <= i < items@.len() ==> #[trigger] items@[i].mask != 0
                && items@[i].mask == names@[i].1 && items@[i].key@ == names@[i].0@
            &&& forall|i: int, j: int| 0 <= i < j < items@.len() ==> #[trigger] items@[i].mask & #[trigger] items@[j].mask == 0
            &&& forall|i: int| 0 <= i < items@.len() ==> #[trigger] items@[i].mask & rest_mask == 0
        },
        r is Ok ==> r->Ok_0 is Flags,
        r matches Ok(Op::Flags { be, rest: rp, c: c2, .. }) ==> policy_of(rest@) == Some(rp)
            && be == be_of(byteorder, bo) && c2 == c,
        policy_of(rest@) is None ==> r is Err,
        !base.spec_signed() && policy_of(rest@) is Some && names_valid(base, names@) ==> r is Ok,
        r matches Ok(op) ==> flags_built(base, byteorder, names@, rest@, bo, op) && op.spec_common() == Some(c),
{
    let ghost valid = !base.spec_signed() && policy_of(rest@) is Some && names_valid(base, names@);
    if base.signed() {
        return Err(err_str("flags: base must be unsigned (u8..u64)"));
    }
    let be = big_endian(byteorder, bo);
    let w = base.width();
    let base_mask: u64 = if w == 8 {
        u64::MAX
    } else if w == 4 {
        0xFFFF_FFFF
    } else if w == 2 {
        0xFFFF
    } else {
        0xFF
    };
    let mut union: u64 = 0;
    let mut items: Vec<FlagItem> = Vec::new();
    let mut k: usize = 0;
    proof { reveal_strlit(""); reveal_strlit("_rest"); }
    assert(base_mask == crate::flags::base_mask(base));
    assert(0u64 & !base_mask == 0) by (bit_vector);
    while k < names.len()
        invariant
            k <= names@.len(),
            base_mask == crate::flags::base_mask(base),
            union == crate::flags::flags_union(items@, k as nat),
            union & !base_mask == 0,
            forall|i: int| 0 <= i < k ==> crate::flags::flag_shape(#[trigger] items@[i]),
            forall|i: int, j: int| 0 <= i < j < k ==> (#[trigger] items@[i]).key@ != (#[trigger] items@[j]).key@,
            forall|i: int| 0 <= i < k ==> (#[trigger] items@[i]).key@ != "_rest"@,
            items@.len() == k,
            forall|i: int| 0 <= i < k ==> #[trigger] items@[i].mask != 0 && items@[i].mask == names@[i].1
                && items@[i].key@ == names@[i].0@,
            forall|i: int| 0 <= i < k ==> #[trigger] items@[i].mask & !union == 0,
            forall|i: int, j: int| 0 <= i < j < k ==> #[trigger] items@[i].mask & #[trigger] items@[j].mask == 0,
            valid == (!base.spec_signed() && policy_of(rest@) is Some && names_valid(base, names@)),
        decreases names@.len() - k,
    {
        let fname = &names[k].0;
        let mask = names[k].1;
        proof {
            if valid {
                assert(names@[k as int].0@ != ""@);
                assert(names@[k as int].0@ != "_rest"@);
            }
        }
        if str_eq(fname.as_str(), "") || str_eq(fname.as_str(), "_rest") {
            return Err(msg_q("flags: invalid mask name ", fname.as_str(), ""));
        }
        let mut j: usize = 0;
        while j < items.len()
            invariant
                j <= items@.len(),
                items@.len() == k,
                k < names@.len(),
                fname@ == names@[k as int].0@,
                forall|i: int| 0 <= i < k ==> (#[trigger] items@[i]).key@ == names@[i].0@,
                valid == (!base.spec_signed() && policy_of(rest@) is Some && names_valid(base, names@)),
                forall|q: int| 0 <= q < j ==> (#[trigger] items@[q]).key@ != fname@,
            decreases items@.len() - j,
        {
            if str_eq(items[j].key.as_str(), fname.as_str()) {
                proof {
                    if valid {
                        assert(names@[j as int].0@ != names@[k as int].0@);
                    }
                }
                return Err(msg_q("flags: duplicate name ", fname.as_str(), ""));
            }
            j = j + 1;
        }
        if mask == 0 {
            return Err(msg_q("flags: zero mask ", fname.as_str(), ""));
        }
        if mask & !base_mask != 0 {
            let mut m = string_of("flags: mask ");
            let q = quoted(fname.as_str());
            push_str(&mut m, q.as_str());
            push_str(&mut m, " does not fit in ");
            push_str(&mut m, prim_str(base));
            return Err(err(m));
        }
        proof {
            if valid {
                assert forall|i: int| 0 <= i < k implies (#[trigger] items@[i]).mask & mask == 0 by {
                    assert(names@[i].1 & names@[k as int].1 == 0);
                }
                lemma_union_apart(items@, k as nat, mask);
            }
        }
        if mask & union != 0 {
            return Err(msg_q("flags: mask ", fname.as_str(), " overlaps another mask"));
        }
        let shift = trailing_zeros(mask);
        let m = mask >> (shift as u64);
        proof {
            if valid {
                assert(contiguous(names@[k as int].1));
                assert(lowest_set(mask, shift));
                let mm = mask >> shift;
                assert(mm == m);
                assert(mm == u64::MAX || mm & ((mm + 1) as u64) == 0);
                assert(m & vstd::wrapping::u64_specs::wrapping_add(m, 1) == 0) by (bit_vector)
                    requires
                        m == u64::MAX || m & ((m + 1) as u64) == 0;
            }
        }
        if m & m.wrapping_add(1) != 0 {
            return Err(msg_q("flags: non-contiguous mask ", fname.as_str(), ""));
        }
        proof {
            assert forall|i: int| 0 <= i < k implies #[trigger] items@[i].mask & mask == 0 by {
                lemma_disjoint(items@[i].mask, mask, union);
            }
            assert forall|i: int| 0 <= i < k implies #[trigger] items@[i].mask & !(union | mask) == 0 by {
                lemma_disjoint(items@[i].mask, mask, union);
            }
            lemma_disjoint(mask, mask, union);
        }
        let ghost old_items = items@;
        let ghost old_union = union;
        union = union | mask;
        let ones = crate::pack::count_ones(m);
        items.push(FlagItem { key: fname.clone(), mask, shift, is_bool: ones == 1 });
        proof {
            crate::flags::lemma_union_prefix(old_items, items@, k as nat);
            assert(items@[k as int].mask == mask);
            assert(union & !base_mask == 0) by (bit_vector)
                requires
                    old_union & !base_mask == 0,
                    mask & !base_mask == 0,
                    union == old_union | mask;
            let m1 = mask >> (shift as u64);
            assert(m == m1);
            assert(m1 == 0xFFFF_FFFF_FFFF_FFFFu64 || m1 & ((m1 + 1) as u64) == 0) by (bit_vector)
                requires
                    m1 & (if m1 + 1 > 0xFFFF_FFFF_FFFF_FFFFu64 { (m1 + 1 - 0x1_0000_0000_0000_0000) as u64 } else { (m1 + 1) as u64 }) == 0;
            assert(crate::flags::flag_shape(items@[k as int]));
            assert forall|i: int, j: int| 0 <= i < j < k + 1 implies (#[trigger] items@[i]).key@ != (#[trigger] items@[j]).key@ by {
                if j < k {
                    assert(items@[i] == old_items[i]);
                    assert(items@[j] == old_items[j]);
                } else {
                    assert(items@[i] == old_items[i]);
                }
            }
            assert forall|i: int| 0 <= i < k + 1 implies crate::flags::flag_shape(#[trigger] items@[i]) by {
                if i < k {
                    assert(items@[i] == old_items[i]);
                }
            }
            assert forall|i: int| 0 <= i < k + 1 implies (#[trigger] items@[i]).key@ != "_rest"@ by {
                if i < k {
                    assert(items@[i] == old_items[i]);
                }
            }
        }
        proof {
            assert forall|i: int| 0 <= i < k + 1 implies #[trigger] items@[i].mask & !union == 0 by {
                if i < k {
                    assert(items@[i] == old_items[i]);
                    lemma_disjoint(old_items[i].mask, mask, old_union);
                } else {
                    lemma_disjoint(mask, mask, old_union);
                }
            }
            assert forall|i: int, j: int| 0 <= i < j < k + 1 implies #[trigger] items@[i].mask & #[trigger] items@[j].mask == 0 by {
                if j < k {
                    assert(items@[i] == old_items[i]);
                    assert(items@[j] == old_items[j]);
                } else {
                    assert(items@[i] == old_items[i]);
                    lemma_disjoint(old_items[i].mask, mask, old_union);
                }
            }
        }
        k = k + 1;
    }
    proof {
        reveal_strlit("keep");
        reveal_strlit("strict");
        reveal_strlit("ignore");
    }
    let policy = if str_eq(rest.as_str(), "keep") {
        RestPolicy::Keep
    } else if str_eq(rest.as_str(), "strict") {
        RestPolicy::Strict
    } else if str_eq(rest.as_str(), "ignore") {
        RestPolicy::Ignore
    } else {
        return Err(msg_q("flags: unknown rest policy ", rest.as_str(), ""));
    };
    let rest_mask = base_mask & !union;
    proof {
        assert forall|i: int| 0 <= i < items@.len() implies #[trigger] items@[i].mask & rest_mask == 0 by {
            lemma_rest_disjoint(items@[i].mask, base_mask, union);
        }
    }
    Ok(Op::Flags { prim: base, be, items, rest: policy, rest_mask, c })
}

// ---------- sizes of a scope ----------

/// The fewest bytes a run of ops occupies (saturating).
pub open spec fn ops_min_sum(ops: Seq<Op>) -> nat
    decreases ops.len(),
{
    if ops.len() == 0 { 0 } else { sat_add(ops_min_sum(ops.drop_last()), op_min_spec(ops.last())) }
}

/// The size of a run of ops when every op has a static size.
pub open spec fn ops_static_sum(ops: Seq<Op>) -> Option<nat>
    decreases ops.len(),
{
    if ops.len() == 0 {
        Some(0)
    } else {
        match (ops_static_sum(ops.drop_last()), op_static_spec(ops.last())) {
            (Some(a), Some(b)) => if a + b <= usize::MAX { Some(a + b) } else { None },
            _ => None,
        }
    }
}

fn scope_sizes(ops: &Vec<Op>) -> (r: (usize, Option<usize>))
    ensures
        r.0 == ops_min_sum(ops@),
        match r.1 {
            Some(x) => ops_static_sum(ops@) == Some(x as nat),
            None => ops_static_sum(ops@) is None,
        },
{
    let mut min_size: usize = 0;
    let mut st: Option<usize> = Some(0);
    let mut i: usize = 0;
    while i < ops.len()
        invariant
            i <= ops@.len(),
            min_size == ops_min_sum(ops@.subrange(0, i as int)),
            match st {
                Some(x) => ops_static_sum(ops@.subrange(0, i as int)) == Some(x as nat),
                None => ops_static_sum(ops@.subrange(0, i as int)) is None,
            },
        decreases ops@.len() - i,
    {
        let m = op_min(&ops[i]);
        let s = op_static(&ops[i]);
        proof { assert(ops@.subrange(0, i + 1).drop_last() =~= ops@.subrange(0, i as int)); }
        min_size = match min_size.checked_add(m) {
            Some(x) => x,
            None => usize::MAX,
        };
        st = match (st, s) {
            (Some(a), Some(b)) => a.checked_add(b),
            _ => None,
        };
        i = i + 1;
    }
    proof { assert(ops@.subrange(0, ops@.len() as int) =~= ops@); }
    (min_size, st)
}

/// A field that becomes derived once its scope is complete: some length,
/// count or size references it, it is no constant, no switch reads it,
/// and it is not marked yet.
spec fn derives(s: Sym) -> bool {
    s.len_referenced && !s.used_in_on && !s.is_const && !s.derived
}

spec fn sym_derived(s: Sym) -> Sym {
    Sym {
        name: s.name,
        loc: s.loc,
        refable: s.refable,
        is_flags: s.is_flags,
        is_const: s.is_const,
        spannable: s.spannable,
        reg: s.reg,
        span: s.span,
        derived: true,
        len_referenced: s.len_referenced,
        used_in_on: s.used_in_on,
    }
}

/// Some field among `syms` that becomes derived lives at `loc`.
spec fn marked(syms: Seq<Sym>, loc: Loc) -> bool {
    exists|k: int| 0 <= k < syms.len() && derives(#[trigger] syms[k]) && syms[k].loc == loc
}

/// `r` is the op `op` (at index `j`) with every item that a field of
/// `syms` that becomes derived lives at marked derived.
spec fn op_derived(op: Op, j: int, syms: Seq<Sym>, r: Op) -> bool {
    match op {
        Op::Fixed { width, items } => r matches Op::Fixed { width: w2, items: it2 } && w2 == width
            && it2@.len() == items@.len()
            && forall|t: int| 0 <= t < items@.len() ==> #[trigger] it2@[t] == (if marked(syms, Loc::Fix { op: j as usize, item: t as usize }) {
                fix_patch(items@[t], 1, 0)
            } else {
                items@[t]
            }),
        Op::BitRun { nbytes, items } => r matches Op::BitRun { nbytes: n2, items: it2 } && n2 == nbytes
            && it2@.len() == items@.len()
            && forall|t: int| 0 <= t < items@.len() ==> #[trigger] it2@[t] == (if marked(syms, Loc::Bit { op: j as usize, item: t as usize }) {
                bit_patch(items@[t], 1, 0)
            } else {
                items@[t]
            }),
        _ => r == op,
    }
}

spec fn ops_derived(ops: Seq<Op>, syms: Seq<Sym>, r: Seq<Op>) -> bool {
    &&& r.len() == ops.len()
    &&& forall|j: int| 0 <= j < ops.len() ==> op_derived(ops[j], j, syms, #[trigger] r[j])
}

/// One more field considered: where it becomes derived, its item is
/// patched, which keeps the ops what the longer prefix of fields makes
/// them.
proof fn lemma_derive_step(ops: Seq<Op>, syms: Seq<Sym>, pos: int, prev: Seq<Op>, next: Seq<Op>)
    requires
        0 <= pos < syms.len(),
        ops.len() <= usize::MAX,
        ops_derived(ops, syms.take(pos), prev),
        derives(syms[pos]) ==> ops_patched(prev, loc_index(syms[pos].loc), syms[pos].loc, 1, 0, next),
        !derives(syms[pos]) ==> next == prev,
    ensures
        ops_derived(ops, syms.take(pos + 1), next),
{
    let a = syms.take(pos);
    let b = syms.take(pos + 1);
    let loc = syms[pos].loc;
    assert forall|l: Loc| #[trigger] marked(b, l) == (marked(a, l) || (derives(syms[pos]) && loc == l)) by {
        if marked(b, l) {
            let k = choose|k: int| 0 <= k < b.len() && derives(#[trigger] b[k]) && b[k].loc == l;
            if k < pos {
                assert(a[k] == b[k]);
            }
        }
        if marked(a, l) {
            let k = choose|k: int| 0 <= k < a.len() && derives(#[trigger] a[k]) && a[k].loc == l;
            assert(b[k] == a[k]);
        }
        if derives(syms[pos]) && loc == l {
            assert(b[pos] == syms[pos]);
        }
    }
    assert forall|j: int| 0 <= j < ops.len() implies op_derived(ops[j], j, b, #[trigger] next[j]) by {
        assert(op_derived(ops[j], j, a, prev[j]));
        match ops[j] {
            Op::Fixed { width, items } => {
                assert(items.len() == items@.len());
                if let Op::Fixed { width: w2, items: it2 } = next[j] {
                    if let Op::Fixed { width: w1, items: it1 } = prev[j] {
                        assert forall|t: int| 0 <= t < items@.len() implies #[trigger] it2@[t] == (if marked(b, Loc::Fix { op: j as usize, item: t as usize }) {
                            fix_patch(items@[t], 1, 0)
                        } else {
                            items@[t]
                        }) by {
                            assert(it1@[t] == (if marked(a, Loc::Fix { op: j as usize, item: t as usize }) {
                                fix_patch(items@[t], 1, 0)
                            } else {
                                items@[t]
                            }));
                            assert(marked(b, Loc::Fix { op: j as usize, item: t as usize }) == (marked(a, Loc::Fix { op: j as usize, item: t as usize })
                                || (derives(syms[pos]) && loc == Loc::Fix { op: j as usize, item: t as usize })));
                        }
                    }
                }
            },
            Op::BitRun { nbytes, items } => {
                assert(items.len() == items@.len());
                if let Op::BitRun { nbytes: n2, items: it2 } = next[j] {
                    if let Op::BitRun { nbytes: n1, items: it1 } = prev[j] {
                        assert forall|t: int| 0 <= t < items@.len() implies #[trigger] it2@[t] == (if marked(b, Loc::Bit { op: j as usize, item: t as usize }) {
                            bit_patch(items@[t], 1, 0)
                        } else {
                            items@[t]
                        }) by {
                            assert(it1@[t] == (if marked(a, Loc::Bit { op: j as usize, item: t as usize }) {
                                bit_patch(items@[t], 1, 0)
                            } else {
                                items@[t]
                            }));
                            assert(marked(b, Loc::Bit { op: j as usize, item: t as usize }) == (marked(a, Loc::Bit { op: j as usize, item: t as usize })
                                || (derives(syms[pos]) && loc == Loc::Bit { op: j as usize, item: t as usize })));
                        }
                    }
                }
            },
            _ => {},
        }
    }
}

/// Marks as derived every field some length, count or size references,
/// unless it is a constant or some switch reads it as its discriminant
/// (then the lengths only check it).
fn resolve_deferred_derives(scope: &mut Scope)
    ensures
        ops_derived(old(scope).ops@, old(scope).syms@, final(scope).ops@),
        final(scope).syms@.len() == old(scope).syms@.len(),
        forall|k: int| 0 <= k < old(scope).syms@.len() ==> #[trigger] final(scope).syms@[k] == (if derives(old(scope).syms@[k]) {
            sym_derived(old(scope).syms@[k])
        } else {
            old(scope).syms@[k]
        }),
        final(scope).nregs == old(scope).nregs,
        final(scope).nspans == old(scope).nspans,
        final(scope).digests == old(scope).digests,
        final(scope).ops@.len() == old(scope).ops@.len(),
        (forall|k: int| 0 <= k < old(scope).syms@.len() ==> !(#[trigger] old(scope).syms@[k]).len_referenced)
            ==> *final(scope) == *old(scope),
{
    let ghost none = forall|k: int| 0 <= k < old(scope).syms@.len() ==> !(#[trigger] old(scope).syms@[k]).len_referenced;
    let ghost ops0 = scope.ops@;
    let ghost syms0 = scope.syms@;
    proof {
        assert forall|j: int| 0 <= j < ops0.len() implies op_derived(ops0[j], j, syms0.take(0), #[trigger] ops0[j]) by {
            match ops0[j] {
                Op::Fixed { width, items } => {
                    assert forall|t: int| 0 <= t < items@.len() implies !#[trigger] marked(syms0.take(0), Loc::Fix { op: j as usize, item: t as usize }) by {}
                },
                Op::BitRun { nbytes, items } => {
                    assert forall|t: int| 0 <= t < items@.len() implies !#[trigger] marked(syms0.take(0), Loc::Bit { op: j as usize, item: t as usize }) by {}
                },
                _ => {},
            }
        }
    }
    let mut pos: usize = 0;
    while pos < scope.syms.len()
        invariant
            scope.syms@.len() == syms0.len(),
            ops0 == old(scope).ops@,
            syms0 == old(scope).syms@,
            pos <= scope.syms@.len(),
            ops_derived(ops0, syms0.take(pos as int), scope.ops@),
            forall|k: int| 0 <= k < pos ==> #[trigger] scope.syms@[k] == (if derives(syms0[k]) {
                sym_derived(syms0[k])
            } else {
                syms0[k]
            }),
            forall|k: int| pos <= k < syms0.len() ==> #[trigger] scope.syms@[k] == syms0[k],
            scope.nregs == old(scope).nregs,
            scope.nspans == old(scope).nspans,
            scope.digests == old(scope).digests,
            none == (forall|k: int| 0 <= k < old(scope).syms@.len() ==> !(#[trigger] old(scope).syms@[k]).len_referenced),
            none ==> *scope == *old(scope),
        decreases scope.syms@.len() - pos,
    {
        let ghost prev = scope.ops@;
        let ghost syms_before = scope.syms@;
        let s = &scope.syms[pos];
        if s.len_referenced && !s.used_in_on && !s.is_const && !s.derived {
            let loc = s.loc;
            update_op(&mut scope.ops, loc_op(loc), loc, 1, 0);
            let mut sym = scope.syms.remove(pos);
            sym.derived = true;
            scope.syms.insert(pos, sym);
            proof {
                assert(scope.syms@ =~= syms_before.update(pos as int, sym_derived(syms0[pos as int])));
            }
        }
        proof {
            assert(scope.ops.len() == prev.len());
            lemma_derive_step(ops0, syms0, pos as int, prev, scope.ops@);
        }
        pos = pos + 1;
    }
    proof { assert(syms0.take(syms0.len() as int) =~= syms0); }
}

/// A field given span register `idx`.
spec fn sym_spanned(s: Sym, idx: u8) -> Sym {
    Sym {
        name: s.name,
        loc: s.loc,
        refable: s.refable,
        is_flags: s.is_flags,
        is_const: s.is_const,
        spannable: s.spannable,
        reg: s.reg,
        span: Some(idx),
        derived: s.derived,
        len_referenced: s.len_referenced,
        used_in_on: s.used_in_on,
    }
}

/// The span register of the field `n` named by a digest `dname`,
/// allocated on first use: the field must be in the scope and one a
/// digest can cover, and a new register must be within the limit.
fn span_of(ops: &mut Vec<Op>, syms: &mut Vec<Sym>, nspans: &mut u8, dname: &str, n: &str) -> (r: Result<u8, SchemaError>)
    ensures
        final(ops)@.len() == old(ops)@.len(),
        final(syms)@.len() == old(syms)@.len(),
        match first_sym(old(syms)@, n@) {
            None => r matches Err(e) && e.msg@ == "digest "@ + debug_quoted(dname@) + ": unknown name "@ + debug_quoted(n@)
                + " in over (only the current scope is visible)"@ && *final(nspans) == *old(nspans),
            Some(pos) => {
                let sym = old(syms)@[pos];
                if !sym.spannable {
                    r matches Err(e) && e.msg@ == "digest "@ + debug_quoted(dname@) + ": field "@ + debug_quoted(n@)
                        + " cannot be covered (bits fields cannot)"@ && *final(nspans) == *old(nspans)
                } else {
                    match sym.span {
                        Some(i) => r == Ok::<u8, SchemaError>(i) && *final(nspans) == *old(nspans),
                        None => if *old(nspans) as usize >= MAX_SPANS {
                            r matches Err(e) && e.msg@ == "exceeded the limit of 16 span registers per scope"@
                                && *final(nspans) == *old(nspans)
                        } else {
                            &&& r == Ok::<u8, SchemaError>(*old(nspans))
                            &&& *final(nspans) == *old(nspans) + 1
                            &&& final(syms)@ == old(syms)@.update(pos, sym_spanned(sym, *old(nspans)))
                            &&& ops_patched(old(ops)@, loc_index(sym.loc), sym.loc, 2, *old(nspans), final(ops)@)
                        },
                    }
                }
            },
        },
        *final(nspans) == *old(nspans) ==> (final(ops)@ == old(ops)@ && final(syms)@ == old(syms)@),
        *final(nspans) != *old(nspans) ==> (first_sym(old(syms)@, n@) matches Some(pos)
            && ops_patched(old(ops)@, loc_index(old(syms)@[pos].loc), old(syms)@[pos].loc, 2, *old(nspans), final(ops)@)),
{
    let pos = match find_sym(syms, n) {
        Some(p) => p,
        None => {
            let mut m = string_of("digest ");
            let q = quoted(dname);
            push_str(&mut m, q.as_str());
            push_str(&mut m, ": unknown name ");
            let q2 = quoted(n);
            push_str(&mut m, q2.as_str());
            push_str(&mut m, " in over (only the current scope is visible)");
            return Err(err(m));
        },
    };
    if !syms[pos].spannable {
        let mut m = string_of("digest ");
        let q = quoted(dname);
        push_str(&mut m, q.as_str());
        push_str(&mut m, ": field ");
        let q2 = quoted(n);
        push_str(&mut m, q2.as_str());
        push_str(&mut m, " cannot be covered (bits fields cannot)");
        return Err(err(m));
    }
    match syms[pos].span {
        Some(i) => Ok(i),
        None => {
            if *nspans as usize >= MAX_SPANS {
                return Err(err_str("exceeded the limit of 16 span registers per scope"));
            }
            let idx = *nspans;
            *nspans = *nspans + 1;
            let ghost syms_before = syms@;
            let mut sym = syms.remove(pos);
            sym.span = Some(idx);
            let loc = sym.loc;
            syms.insert(pos, sym);
            proof { assert(syms@ =~= syms_before.update(pos as int, sym_spanned(syms_before[pos as int], idx))); }
            update_op(ops, loc_op(loc), loc, 2, idx);
            Ok(idx)
        },
    }
}

/// The bits a run of bit items occupies.
pub open spec fn bit_total(items: Seq<BitItem>) -> nat
    decreases items.len(),
{
    if items.len() == 0 {
        0
    } else {
        bit_total(items.drop_last()) + items.last().width as nat
    }
}

proof fn lemma_bit_total_prefix(items: Seq<BitItem>, k: int)
    requires
        0 <= k <= items.len(),
    ensures
        bit_total(items.take(k)) <= bit_total(items),
    decreases items.len(),
{
    if k < items.len() {
        assert(items.drop_last().take(k) =~= items.take(k));
        lemma_bit_total_prefix(items.drop_last(), k);
    } else {
        assert(items.take(k) =~= items);
    }
}

/// A bit run that is no whole number of bytes, or too long to lay out.
pub open spec fn run_bad(op: Op) -> bool {
    op matches Op::BitRun { items, .. } && (bit_total(items@) % 8 != 0 || bit_total(items@) > 0xFFFF_FFFF_FFFF
        || bit_total(items@) / 8 > usize::MAX)
}

/// A digest op set to cover its whole scope; any other op as it is.
pub open spec fn star_over(op: Op) -> Op {
    match op {
        Op::Digest { algo, over, verify, be, c } => Op::Digest { algo, over: Over::Star, verify, be, c },
        _ => op,
    }
}

/// One of the first `n` pending digests of a scope is op `k`.
pub open spec fn digest_marked(ds: Seq<(usize, OverIn, String)>, n: int, k: int) -> bool {
    exists|d: int| 0 <= d < n && (#[trigger] ds[d]).0 == k
}

/// Op `k` is the first such bit run of `ops`.
pub open spec fn first_bad(ops: Seq<Op>, k: int) -> bool {
    &&& 0 <= k < ops.len()
    &&& run_bad(ops[k])
    &&& forall|j: int| 0 <= j < k ==> !run_bad(#[trigger] ops[j])
}

/// Every bit run among `ops` has its byte count: its bits over eight.
pub open spec fn runs_sized(ops: Seq<Op>) -> bool {
    forall|k: int| 0 <= k < ops.len() ==> (#[trigger] ops[k] matches Op::BitRun { nbytes, items }
        ==> nbytes * 8 == bit_total(items@))
}

/// Patching a span leaves every op's kind, and a bit run untouched.
proof fn lemma_span_keeps_runs(ops: Seq<Op>, i: int, loc: Loc, reg: u8, r: Seq<Op>)
    requires
        ops_patched(ops, i, loc, 2, reg, r),
        runs_sized(ops),
    ensures
        runs_sized(r),
{
    assert forall|k: int| 0 <= k < r.len() implies (#[trigger] r[k] matches Op::BitRun { nbytes, items }
        ==> nbytes * 8 == bit_total(items@)) by {
        if k == i {
            assert(patched(ops[i], loc, 2, reg, r[i]));
            assert(ops[k] matches Op::BitRun { .. } ==> r[k] == ops[k]);
        } else {
            assert(r[k] == ops[k]);
        }
    }
}

/// Completes a scope: each bit run's byte count (a whole number of bytes),
/// each digest's spans, and the program's sizes.
#[verifier::loop_isolation(false)]
fn finish_scope(scope: Scope) -> (r: Result<Program, SchemaError>)
    ensures
        scope_sized(scope) ==> (r matches Ok(p) ==> sizes_ok_ops(p.ops@, p.ops@.len())),
        r matches Ok(p) ==> p.min_size == ops_min_sum(p.ops@) && match p.static_size {
            Some(x) => ops_static_sum(p.ops@) == Some(x as nat),
            None => ops_static_sum(p.ops@) is None,
        },
        r matches Ok(p) ==> p.nregs == scope.nregs && p.ops@.len() == scope.ops@.len() && runs_sized(p.ops@),
        (exists|k: int| 0 <= k < scope.ops@.len() && (#[trigger] scope.ops@[k] matches Op::BitRun { items, .. }
            && bit_total(items@) % 8 != 0)) ==> r is Err,
        (scope.digests@.len() == 0 && forall|k: int| 0 <= k < scope.ops@.len() ==> !(#[trigger] scope.ops@[k] is BitRun))
            ==> (r matches Ok(p) && p.ops@ == scope.ops@),
        forall|k: int| #[trigger] first_bad(scope.ops@, k) ==> (r matches Err(e)
            && (bit_total(scope.ops@[k]->BitRun_items@) <= 0xFFFF_FFFF_FFFF ==> e.msg@ == "bit_alignment: bit run occupies "@
                + dec_chars(bit_total(scope.ops@[k]->BitRun_items@)) + " bits, not a whole number of bytes"@)),
        (forall|k: int| 0 <= k < scope.ops@.len() ==> !run_bad(#[trigger] scope.ops@[k]))
            && (forall|d: int| 0 <= d < scope.digests@.len() ==> (#[trigger] scope.digests@[d]).1 is Star) ==> r is Ok,
        ((forall|k: int| 0 <= k < scope.ops@.len() ==> !(#[trigger] scope.ops@[k] is BitRun))
            && (forall|d: int| 0 <= d < scope.digests@.len() ==> (#[trigger] scope.digests@[d]).1 is Star))
            ==> (r matches Ok(p) && p.ops@.len() == scope.ops@.len() && forall|k: int| 0 <= k < p.ops@.len() ==>
                #[trigger] p.ops@[k] == (if digest_marked(scope.digests@, scope.digests@.len() as int, k) {
                    star_over(scope.ops@[k])
                } else {
                    scope.ops@[k]
                })),
{
    let ghost nb = forall|k: int| 0 <= k < scope.ops@.len() ==> !(#[trigger] scope.ops@[k] is BitRun);
    let ghost allstar = forall|d: int| 0 <= d < scope.digests@.len() ==> (#[trigger] scope.digests@[d]).1 is Star;
    let ghost plain = scope.digests@.len() == 0
        && forall|k: int| 0 <= k < scope.ops@.len() ==> !(#[trigger] scope.ops@[k] is BitRun);
    let ghost ops0 = scope.ops@;
    let ghost sz = scope_sized(scope);
    let Scope { mut ops, mut syms, nregs, mut nspans, digests } = scope;
    let mut i: usize = 0;
    while i < ops.len()
        invariant
            i <= ops@.len(),
            ops@.len() == ops0.len(),
            sz == (forall|k: int| 0 <= k < ops0.len() ==> sizes_ok(#[trigger] ops0[k])),
            sz ==> forall|k: int| 0 <= k < ops@.len() ==> sizes_ok(#[trigger] ops@[k]),
            plain == (digests@.len() == 0 && forall|k: int| 0 <= k < ops0.len() ==> !(#[trigger] ops0[k] is BitRun)),
            plain ==> ops@ == ops0,
            nb == (forall|k: int| 0 <= k < ops0.len() ==> !(#[trigger] ops0[k] is BitRun)),
            nb ==> ops@ == ops0,
            forall|k: int| i <= k < ops0.len() ==> #[trigger] ops@[k] == ops0[k],
            forall|k: int| 0 <= k < i ==> (#[trigger] ops@[k] matches Op::BitRun { nbytes, items }
                ==> nbytes * 8 == bit_total(items@)),
            forall|k: int| 0 <= k < i ==> (#[trigger] ops0[k] matches Op::BitRun { items, .. }
                ==> bit_total(items@) % 8 == 0),
            forall|k: int| 0 <= k < i ==> !run_bad(#[trigger] ops0[k]),
        decreases ops@.len() - i,
    {
        let ghost before = ops@;
        let op = ops.remove(i);
        proof {
            assert(op == ops0[i as int]);
            if plain || nb {
                assert(!(op is BitRun));
            }
        }
        let op2 = match op {
            Op::BitRun { items, .. } => {
                let mut total: u64 = 0;
                let mut k: usize = 0;
                let mut capped = false;
                while k < items.len()
                    invariant
                        k <= items@.len(),
                        total <= 255 * k,
                        total == bit_total(items@.take(k as int)),
                        capped ==> total > 0xFFFF_FFFF_FFFF,
                    decreases items@.len() - k,
                {
                    proof { assert(items@.len() <= usize::MAX); }
                    if total > 0xFFFF_FFFF_FFFF {
                        capped = true;
                        break;
                    }
                    proof {
                        assert(items@.take(k + 1).drop_last() =~= items@.take(k as int));
                    }
                    total = total + items[k].width as u64;
                    k = k + 1;
                }
                proof {
                    if !capped {
                        assert(items@.take(items@.len() as int) =~= items@);
                    } else {
                        lemma_bit_total_prefix(items@, k as int);
                    }
                }
                if total % 8 != 0 || total > 0xFFFF_FFFF_FFFF || total / 8 > usize::MAX as u64 {
                    let mut m = string_of("bit_alignment: bit run occupies ");
                    push_decimal(&mut m, total as u128);
                    push_str(&mut m, " bits, not a whole number of bytes");
                    proof {
                        assert(run_bad(ops0[i as int]));
                        assert forall|k: int| #[trigger] first_bad(ops0, k) implies k == i by {
                            if k < i {
                                assert(!run_bad(ops0[k]));
                            }
                            if k > i {
                                assert(!run_bad(ops0[i as int]));
                            }
                        }
                    }
                    return Err(err(m));
                }
                Op::BitRun { nbytes: (total / 8) as usize, items }
            },
            other => other,
        };
        ops.insert(i, op2);
        proof {
            assert(ops@ =~= before.update(i as int, op2));
            if plain || nb {
                assert(op2 == before[i as int]);
                assert(ops@ =~= before);
            }
        }
        i = i + 1;
    }
    proof {
        assert(runs_sized(ops@));
    }
    let mut d: usize = 0;
    while d < digests.len()
        invariant
            d <= digests@.len(),
            sz ==> forall|k: int| 0 <= k < ops@.len() ==> sizes_ok(#[trigger] ops@[k]),
            plain ==> digests@.len() == 0,
            plain ==> ops@ == ops0,
            ops@.len() == ops0.len(),
            runs_sized(ops@),
            allstar == (forall|x: int| 0 <= x < digests@.len() ==> (#[trigger] digests@[x]).1 is Star),
            (nb && allstar) ==> forall|k: int| 0 <= k < ops@.len() ==> #[trigger] ops@[k] == (if digest_marked(digests@, d as int, k) {
                star_over(ops0[k])
            } else {
                ops0[k]
            }),
        decreases digests@.len() - d,
    {
        let ghost ops_d = ops@;
        let (op_idx, over_in, dname) = (&digests[d].0, &digests[d].1, &digests[d].2);
        let over = match over_in {
            OverIn::Star => Over::Star,
            OverIn::Names(names) => {
                let mut spans: Vec<u8> = Vec::new();
                let mut k: usize = 0;
                while k < names.len()
                    invariant
                        k <= names@.len(),
                        ops@.len() == ops0.len(),
                        sz ==> forall|k: int| 0 <= k < ops@.len() ==> sizes_ok(#[trigger] ops@[k]),
                        runs_sized(ops@),
                    decreases names@.len() - k,
                {
                    let ghost ops_before = ops@;
                    let ghost syms_before = syms@;
                    let ghost ns_before = nspans;
                    let sp = span_of(&mut ops, &mut syms, &mut nspans, dname.as_str(), names[k].as_str())?;
                    proof {
                        if nspans != ns_before {
                            let pos = first_sym(syms_before, names@[k as int]@)->Some_0;
                            lemma_span_keeps_runs(ops_before, loc_index(syms_before[pos].loc), syms_before[pos].loc, ns_before, ops@);
                            if sz {
                                lemma_ops_patched_sized(ops_before, loc_index(syms_before[pos].loc), syms_before[pos].loc, 2, ns_before, ops@);
                            }
                        }
                    }
                    spans.push(sp);
                    k = k + 1;
                }
                Over::Spans(spans)
            },
        };
        if *op_idx < ops.len() {
            let ghost before = ops@;
            let op = ops.remove(*op_idx);
            let op2 = match op {
                Op::Digest { algo, verify, be, c, .. } => Op::Digest { algo, over, verify, be, c },
                other => other,
            };
            ops.insert(*op_idx, op2);
            proof {
                assert(ops@ =~= before.update(*op_idx as int, op2));
                assert(op2 matches Op::BitRun { .. } ==> op2 == before[*op_idx as int]);
                if sz {
                    assert forall|k: int| 0 <= k < ops@.len() implies sizes_ok(#[trigger] ops@[k]) by {
                        if k != *op_idx as int {
                            assert(ops@[k] == before[k]);
                        } else {
                            assert(sizes_ok(before[k]));
                        }
                    }
                }
            }
        }
        proof {
            if nb && allstar {
                assert(digests@[d as int].1 is Star);
                assert forall|k: int| 0 <= k < ops@.len() implies #[trigger] ops@[k] == (if digest_marked(digests@, d + 1, k) {
                    star_over(ops0[k])
                } else {
                    ops0[k]
                }) by {
                    if k == digests@[d as int].0 {
                        assert(digest_marked(digests@, d + 1, k));
                    } else {
                        assert(ops@[k] == ops_d[k]);
                        if digest_marked(digests@, d + 1, k) {
                            let x = choose|x: int| 0 <= x < d + 1 && (#[trigger] digests@[x]).0 == k;
                            assert(digest_marked(digests@, d as int, k));
                        }
                    }
                }
            }
        }
        d = d + 1;
    }
    proof {
        if sz {
            lemma_sized_ops(ops@, ops@.len());
        }
    }
    let (min_size, static_size) = scope_sizes(&ops);
    Ok(Program { ops, nregs, nspans, min_size, static_size })
}

// ---------- fields ----------

/// The message a constant out of its type's range gives.
fn const_range_msg(c: i128, prim: crate::program::IntPrim) -> (r: SchemaError)
    ensures
        r.msg@ == "const "@ + (if c < 0 { seq!['-'] + dec_chars((-c) as nat) } else { dec_chars(c as nat) })
            + " is out of range for "@ + prim_name(prim),
{
    let mut m = string_of("const ");
    push_signed(&mut m, c);
    push_str(&mut m, " is out of range for ");
    push_str(&mut m, prim_str(prim));
    proof {
        assert(m@ =~= "const "@ + (if c < 0 { seq!['-'] + dec_chars((-c) as nat) } else { dec_chars(c as nat) })
            + " is out of range for "@ + prim_name(prim));
    }
    err(m)
}

impl C {
    /// Compiles the fields of one struct scope into a program.
    #[verifier::loop_isolation(false)]
    #[verifier::spinoff_prover]
    #[verifier::rlimit(100)]
    fn compile_scope(&mut self, fields: &[FieldIn], bo: ByteOrder) -> (r: Result<Program, SchemaError>)
        ensures
            sized_kept(old(self).scopes@, final(self).scopes@),
            r matches Ok(p) ==> prog_sizes_ok(p),
            final(self).scopes@.len() == old(self).scopes@.len(),
            final(self).opts == old(self).opts,
            r matches Ok(p) ==> p.min_size == ops_min_sum(p.ops@) && match p.static_size {
                Some(x) => ops_static_sum(p.ops@) == Some(x as nat),
                None => ops_static_sum(p.ops@) is None,
            },
            r matches Ok(p) ==> runs_sized(p.ops@),
            fixed_schema(fields@) ==> (r matches Ok(p) && fixed_run_of(p, fields@, bo)),
            fixed_schema(fields@) ==> final(self).scopes@ == old(self).scopes@ && final(self).opts == old(self).opts,
            simple_schema(fields@) ==> (r matches Ok(p) && forall|k: int| 0 <= k < p.ops@.len() ==> flat_op(#[trigger] p.ops@[k])),
            simple_schema(fields@) ==> (r matches Ok(p) && p.ops@.len() == ops_for(fields@, fields@.len() as int)
                && forall|k: int| 0 <= k < fields@.len() ==> #[trigger] field_op(fields@, k, p.ops@, bo, old(self).opts)),
            forall|j: int| #[trigger] dup_at(fields@, j) ==> (r matches Err(e)
                && e.msg@ == "duplicate field name "@ + debug_quoted(fields@[j].name->Some_0@) + " in scope"@),
            forall|j: int| #[trigger] tangled_len_at(fields@, j) ==> (r matches Err(e)
                && e.msg@ == "bytes.len"@ + ": expression is not invertible (must have the form a*ref + b)"@),
            forall|j: int| #[trigger] forward_len_at(fields@, j) ==> (scopes_lack(old(self).scopes@, len_ref_name(fields@[j]))
                ==> (r matches Err(e) && e.msg@ == unknown_ref_msg(len_ref_name(fields@[j])))),
            forall|j: int| #[trigger] size_mismatch_at(fields@, j) ==> (r matches Err(e) && e.msg@ == size_mismatch_msg(fields@[j].ty)),
            len_tail(fields@) ==> (r matches Ok(p) && p.nregs == 1 && forall|q: int| #[trigger] tail_target(fields@, q)
                ==> tail_ops(fields@, q, p.ops@, bo, old(self).opts)),
            nest_chain(fields@) matches Some(d) ==> (r matches Ok(p) && prog_frames(p) == chain_frames(d)
                && chain_prog(p, fields@, bo)
                && final(self).scopes@ == old(self).scopes@ && final(self).opts == old(self).opts),
        decreases fields@, 3nat,
    {
        let ghost fs = fixed_schema(fields@);
        let ghost ss = simple_schema(fields@);
        let ghost ch = !fs && nest_chain(fields@) is Some;
        let ghost lt = len_tail(fields@);
        let ghost qq: int = if lt { choose|q: int| #[trigger] tail_target(fields@, q) } else { 0 };
        self.scopes.push(new_scope());
        let mut res: Result<(), SchemaError> = Ok(());
        let mut i: usize = 0;
        while i < fields.len()
            invariant
                self.scopes@.len() == old(self).scopes@.len() + 1,
                self.opts == old(self).opts,
                forall|si: int| 0 <= si < old(self).scopes@.len() && scope_sized(old(self).scopes@[si])
                    ==> scope_sized(#[trigger] self.scopes@[si]),
                scope_sized(self.scopes@.last()),
                i <= fields@.len(),
                fs == fixed_schema(fields@),
                fs ==> res is Ok,
                fs ==> self.scopes@.drop_last() == old(self).scopes@ && self.opts == old(self).opts,
                ch == (!fs && nest_chain(fields@) is Some),
                lt == len_tail(fields@),
                lt ==> tail_target(fields@, qq),
                lt ==> (i < fields@.len() ==> simple_upto(fields@, i as nat)),
                lt ==> (i == fields@.len() ==> res is Ok && tail_pre(fields@, qq, self.scopes@.last(), bo, old(self).opts)
                    && self.scopes@.drop_last() == old(self).scopes@),
                ch ==> fields@.len() == 1,
                ch ==> self.scopes@.drop_last() == old(self).scopes@ && self.opts == old(self).opts,
                ch ==> self.scopes@.last().digests@.len() == 0,
                ch ==> (i == 0 ==> self.scopes@.last().ops@.len() == 0 && self.scopes@.last().syms@.len() == 0),
                ch ==> (i == 1 ==> res is Ok && self.scopes@.last().ops@.len() == 1 && self.scopes@.last().syms@.len() == 1
                    && !self.scopes@.last().syms@[0].len_referenced
                    && named_common(self.scopes@.last().ops@[0], fields@[0].name->Some_0@)
                    && (self.scopes@.last().ops@[0] matches Op::Nest { prog, size: None, .. }
                        && prog_frames(*prog) == chain_frames((nest_chain(fields@)->Some_0 - 1) as nat)
                        && chain_prog(*prog, fields@[0].ty->StructT_fields@,
                            match fields@[0].ty->StructT_byteorder { Some(b) => b, None => bo }))),
                fs ==> self.scopes@.last().digests@.len() == 0,
                fs ==> self.scopes@.last().syms@.len() == i,
                fs ==> forall|k: int| 0 <= k < i ==> (#[trigger] self.scopes@.last().syms@[k]).name@ == fields@[k].name->Some_0@
                    && !self.scopes@.last().syms@[k].len_referenced,
                fs ==> (i == 0 ==> self.scopes@.last().ops@.len() == 0),
                fs ==> (i > 0 ==> run_prefix(self.scopes@.last().ops@, fields@, i as nat, bo)),
                ss == simple_schema(fields@),
                simple_upto(fields@, i as nat) ==> {
                    &&& res is Ok
                    &&& self.scopes@.last().digests@.len() == 0
                    &&& self.scopes@.drop_last() == old(self).scopes@
                    &&& self.scopes@.last().syms@.len() == i
                    &&& forall|k: int| 0 <= k < i ==> (#[trigger] self.scopes@.last().syms@[k]).name@ == fields@[k].name->Some_0@
                        && !self.scopes@.last().syms@[k].len_referenced
                    &&& forall|k: int| 0 <= k < self.scopes@.last().ops@.len() ==> flat_op(#[trigger] self.scopes@.last().ops@[k])
                    &&& self.scopes@.last().ops@.len() > 0 ==> (self.scopes@.last().ops@.last() matches Op::Fixed { width, .. }
                        ==> width <= widths_upto(fields@, i as nat))
                    &&& self.opts == old(self).opts
                    &&& self.scopes@.last().ops@.len() == ops_for(fields@, i as int)
                    &&& forall|k: int| 0 <= k < i ==> #[trigger] field_op(fields@, k, self.scopes@.last().ops@, bo, old(self).opts)
                    &&& i > 0 ==> (plain_fixed(fields@[i - 1]) <==> self.scopes@.last().ops@.last() is Fixed)
                    &&& i > 0 ==> (plain_fixed(fields@[i - 1]) ==> (self.scopes@.last().ops@.last() matches Op::Fixed { items, .. }
                        && items@.len() == item_idx(fields@, i - 1) + 1))
                    &&& self.scopes@.last().nregs == 0
                    &&& forall|k: int| 0 <= k < i ==> (plain_fixed(fields@[k]) ==> fresh_sym(#[trigger] self.scopes@.last().syms@[k],
                        fields@[k].name->Some_0@, Loc::Fix { op: op_idx(fields@, k) as usize, item: item_idx(fields@, k) as usize },
                        fields@[k].ty is Int, false, fixed_const(fields@[k].ty), true))
                },
                forall|k: int| 0 <= k < i ==> !#[trigger] dup_at(fields@, k),
                forall|k: int| 0 <= k < i ==> !#[trigger] tangled_len_at(fields@, k),
                forall|k: int| 0 <= k < i ==> !#[trigger] size_mismatch_at(fields@, k),
                forall|k: int| 0 <= k < i ==> !(#[trigger] forward_len_at(fields@, k)
                    && scopes_lack(old(self).scopes@, len_ref_name(fields@[k]))),
            decreases fields@.len() - i,
        {
            proof {
                assert(decreases_to!(fields@ => fields@[i as int]));
                if fs {
                    assert(plain_fixed(fields@[i as int]));
                    assert forall|j: int| 0 <= j < self.scopes@.last().syms@.len()
                        implies #[trigger] self.scopes@.last().syms@[j].name@ != fields@[i as int].name->Some_0@ by {
                        assert(fields@[j].name->Some_0@ != fields@[i as int].name->Some_0@);
                    }
                    lemma_widths_mono(fields@, (i + 1) as nat, fields@.len());
                }
            }
            proof {
                if simple_upto(fields@, (i + 1) as nat) {
                    lemma_simple_mono(fields@, i as nat, (i + 1) as nat);
                    assert(simple_field(fields@[i as int]));
                    assert forall|j: int| 0 <= j < self.scopes@.last().syms@.len()
                        implies #[trigger] self.scopes@.last().syms@[j].name@ != fields@[i as int].name->Some_0@ by {
                        assert(fields@[j].name->Some_0@ != fields@[i as int].name->Some_0@);
                    }
                    assert(widths_upto(fields@, (i + 1) as nat) == widths_upto(fields@, i as nat) + plain_width(fields@[i as int].ty));
                }
                if dup_at(fields@, i as int) {
                    let k = choose|k: int| 0 <= k < i && (#[trigger] fields@[k].name)->Some_0@ == fields@[i as int].name->Some_0@;
                    assert(self.scopes@.last().syms@[k].name@ == fields@[i as int].name->Some_0@);
                }
                if ch {
                    assert(fresh_name(*self, fields@[i as int].name));
                }
                if fresh_after_simple(fields@, i as int) {
                    assert forall|j: int| 0 <= j < self.scopes@.last().syms@.len()
                        implies #[trigger] self.scopes@.last().syms@[j].name@ != fields@[i as int].name->Some_0@ by {
                        assert(fields@[j].name->Some_0@ != fields@[i as int].name->Some_0@);
                    }
                    assert(fresh_name(*self, fields@[i as int].name));
                }
                if forward_len_at(fields@, i as int) && scopes_lack(old(self).scopes@, len_ref_name(fields@[i as int])) {
                    let nm = len_ref_name(fields@[i as int]);
                    assert forall|k: int, p: int| 0 <= k < self.scopes@.len() && 0 <= p < self.scopes@[k].syms@.len()
                        implies (#[trigger] self.scopes@[k].syms@[p]).name@ != nm by {
                        if k < self.scopes@.len() - 1 {
                            assert(self.scopes@[k] == self.scopes@.drop_last()[k]);
                            assert(self.scopes@[k] == old(self).scopes@[k]);
                            assert(old(self).scopes@[k].syms@[p].name@ != nm);
                        } else {
                            assert(simple_upto(fields@, i as nat));
                            assert(self.scopes@[k] == self.scopes@.last());
                            assert(self.scopes@.last().syms@[p].name@ == fields@[p].name->Some_0@);
                            assert(fields@[p].name->Some_0@ != nm);
                        }
                    }
                    lemma_no_ref(self.scopes@, nm);
                }
            }
            proof {
                if lt && i + 1 == fields@.len() {
                    lemma_simple_mono(fields@, i as nat, i as nat);
                    lemma_tail_ready(self.scopes@, fields@, qq);
                }
            }
            let ghost before = self.scopes@.last();
            let ghost sb = self.scopes@;
            let ghost cb = *self;
            match self.compile_field(&fields[i], bo) {
                Ok(()) => {},
                Err(e) => {
                    proof {
                        if lt && i + 1 == fields@.len() {
                            assert(false);
                        }
                        if lt && i + 1 < fields@.len() {
                            assert(simple_upto(fields@, (fields@.len() - 1) as nat));
                            lemma_simple_mono(fields@, (i + 1) as nat, (fields@.len() - 1) as nat);
                        }
                        if simple_upto(fields@, (i + 1) as nat) {
                            assert(false);
                        }
                        if ss {
                            lemma_simple_mono(fields@, (i + 1) as nat, fields@.len());
                        }
                        assert forall|j: int| #[trigger] dup_at(fields@, j) implies j == i by {
                            if j > i {
                                lemma_simple_mono(fields@, (i + 1) as nat, j as nat);
                            }
                            if j < i {
                                assert(!dup_at(fields@, j));
                            }
                        }
                        assert forall|j: int| #[trigger] tangled_len_at(fields@, j) implies j == i by {
                            if j > i {
                                lemma_simple_mono(fields@, (i + 1) as nat, j as nat);
                            }
                        }
                        assert forall|j: int| #[trigger] size_mismatch_at(fields@, j) implies j == i by {
                            if j > i {
                                lemma_simple_mono(fields@, (i + 1) as nat, j as nat);
                            }
                        }
                        assert forall|j: int| #[trigger] forward_len_at(fields@, j)
                            && scopes_lack(old(self).scopes@, len_ref_name(fields@[j])) implies j == i by {
                            if j > i {
                                lemma_simple_mono(fields@, (i + 1) as nat, j as nat);
                            }
                        }
                    }
                    res = Err(e);
                    break;
                },
            }
            proof {
                if dup_at(fields@, i as int) {
                    let k = choose|k: int| 0 <= k < i && (#[trigger] fields@[k].name)->Some_0@ == fields@[i as int].name->Some_0@;
                    assert(before.syms@[k].name@ == fields@[i as int].name->Some_0@);
                    assert(false);
                }
                if lt && i + 1 == fields@.len() {
                    lemma_tail_after(sb, cb, *self, fields@, qq, bo, old(self).opts);
                } else if lt {
                    lemma_simple_mono(fields@, (i + 1) as nat, (fields@.len() - 1) as nat);
                }
                if simple_upto(fields@, (i + 1) as nat) {
                    let sc = self.scopes@.last();
                    assert forall|k: int| 0 <= k < i + 1 implies (#[trigger] sc.syms@[k]).name@ == fields@[k].name->Some_0@
                        && !sc.syms@[k].len_referenced by {
                        if k < i {
                            assert(sc.syms@[k] == before.syms@[k]);
                        }
                    }
                    assert forall|k: int| 0 <= k < sc.ops@.len() implies flat_op(#[trigger] sc.ops@[k]) by {
                        if k < sc.ops@.len() - 1 {
                            assert(sc.ops@.drop_last()[k] == sc.ops@[k]);
                            if sc.ops@.len() == before.ops@.len() + 1 {
                                assert(sc.ops@.drop_last() == before.ops@);
                                assert(flat_op(before.ops@[k]));
                            } else {
                                assert(sc.ops@.drop_last() == before.ops@.drop_last());
                                assert(before.ops@.drop_last()[k] == before.ops@[k]);
                                assert(flat_op(before.ops@[k]));
                            }
                        }
                    }
                    lemma_simple_placed(fields@, i as int, before.ops@, sc.ops@, bo, old(self).opts);
                    assert forall|k: int| 0 <= k < i + 1 implies (plain_fixed(fields@[k]) ==> fresh_sym(#[trigger] sc.syms@[k],
                        fields@[k].name->Some_0@, Loc::Fix { op: op_idx(fields@, k) as usize, item: item_idx(fields@, k) as usize },
                        fields@[k].ty is Int, false, fixed_const(fields@[k].ty), true)) by {
                        if k < i {
                            assert(sc.syms@[k] == before.syms@[k]);
                        }
                    }
                }
                if fs {
                    let sc = self.scopes@.last();
                    assert(widths_upto(fields@, (i + 1) as nat) == widths_upto(fields@, i as nat) + plain_width(fields@[i as int].ty));
                    assert(widths_upto(fields@, 0) == 0);
                    assert forall|k: int| 0 <= k < i + 1 implies (#[trigger] sc.syms@[k]).name@ == fields@[k].name->Some_0@
                        && !sc.syms@[k].len_referenced by {
                        if k < i {
                            assert(sc.syms@[k] == before.syms@[k]);
                        }
                    }
                    if i > 0 {
                        assert(before.ops@.last() == before.ops@[0]);
                        if let Op::Fixed { width, items } = sc.ops@[0] {
                            assert(sc.ops@.last() == sc.ops@[0]);
                            if let Op::Fixed { width: w0, items: it0 } = before.ops@[0] {
                                assert forall|k: int| 0 <= k < i + 1 implies (#[trigger] items@[k]).off == widths_upto(fields@, k as nat)
                                    && item_for(items@[k], fields@[k], bo) by {
                                    if k < i {
                                        assert(items@[k] == it0@[k]);
                                    }
                                }
                            }
                        }
                    }
                }
            }
            i = i + 1;
        }
        let ghost sl = self.scopes@;
        let mut scope = self.scopes.pop().unwrap();
        proof {
            if res is Ok {
                assert forall|j: int| #[trigger] dup_at(fields@, j) implies false by {
                    assert(j < i);
                }
                assert forall|j: int| #[trigger] tangled_len_at(fields@, j) implies false by {
                    assert(j < i);
                }
                assert forall|j: int| #[trigger] size_mismatch_at(fields@, j) implies false by {
                    assert(j < i);
                }
                assert forall|j: int| #[trigger] forward_len_at(fields@, j)
                    && scopes_lack(old(self).scopes@, len_ref_name(fields@[j])) implies false by {
                    assert(j < i);
                }
            }
        }
        proof {
            if lt {
                assert(i == fields@.len());
            }
        }
        res?;
        let ghost pre = scope;
        resolve_deferred_derives(&mut scope);
        proof {
            assert(scope_sized(pre));
            lemma_derived_sized(pre.ops@, pre.syms@, scope.ops@);
            assert(scope_sized(scope));
            assert forall|si: int| 0 <= si < old(self).scopes@.len() && si < self.scopes@.len() && scope_sized(old(self).scopes@[si])
                implies scope_sized(#[trigger] self.scopes@[si]) by {
                assert(self.scopes@[si] == sl[si]);
            }
        }
        proof {
            if lt {
                assert(scope.ops.len() == scope.ops@.len());
                assert(pre.ops.len() == pre.ops@.len());
                lemma_tail_derived(fields@, qq, pre, scope.ops@, bo, old(self).opts);
                assert forall|k: int| 0 <= k < scope.ops@.len() implies !(#[trigger] scope.ops@[k] is BitRun) by {
                    assert(op_derived(pre.ops@[k], k, pre.syms@, scope.ops@[k]));
                    assert(!(pre.ops@[k] is BitRun));
                }
                assert forall|q: int| #[trigger] tail_target(fields@, q) implies q == qq by {
                    assert(simple_upto(fields@, (fields@.len() - 1) as nat));
                    if q != qq {
                        assert(fields@[q].name->Some_0@ == fields@[qq].name->Some_0@);
                    }
                }
            }
            if ch {
                assert forall|k: int| 0 <= k < scope.ops@.len() implies !(#[trigger] scope.ops@[k] is BitRun) by {}
            }
            if ss {
                assert forall|k: int| 0 <= k < scope.ops@.len() implies !(#[trigger] scope.ops@[k] is BitRun) by {
                    assert(flat_op(scope.ops@[k]));
                }
            }
            if fs {
                assert(scope.ops@.len() == 1);
                assert forall|k: int| 0 <= k < scope.ops@.len() implies !(#[trigger] scope.ops@[k] is BitRun) by {}
            }
        }
        finish_scope(scope)
    }

    /// A bytes field named `name`: its length compiled, then the op and
    /// the field added.
    fn field_bytes(&mut self, name: Option<String>, len: &ExprIn, max: &Option<usize>) -> (r: Result<(), SchemaError>)
        requires
            old(self).ready(),
        ensures
            sized_kept(old(self).scopes@, final(self).scopes@),
            final(self).scopes@.len() == old(self).scopes@.len(),
            final(self).opts == old(self).opts,
            name is None ==> (r matches Err(e) && e.msg@ == "bytes"@
                + " cannot be unnamed (only fixed-width types, bits and raw may be unnamed)"@ && *final(self) == *old(self)),
            name is Some ==> (fold_spec(*len) matches Ok(fl) ==> {
                &&& refs_in(fl).len() >= 2 ==> (r matches Err(x) && x.msg@ == "bytes.len"@
                    + ": expression is not invertible (must have the form a*ref + b)"@ && *final(self) == *old(self))
                &&& fl matches ExprIn::Ref(n) ==> (ref_up(old(self).scopes@, n@) is None ==> (r matches Err(x)
                    && x.msg@ == unknown_ref_msg(n@) && *final(self) == *old(self)))
            }),
            r is Ok ==> (name is Some && last_op_named(*final(self), name->Some_0@, true)
                && (final(self).scopes@.last().ops@.last() matches Op::Bytes { len: src, max: m, .. } && len_of(*len, src)
                    && m == (match max { Some(x) => *x, None => old(self).opts.max_default }))),
            name is Some ==> (fold_spec(*len) matches Ok(ExprIn::Ref(n)) ==> (ref_ok(old(self).scopes@, n@) ==> (r is Ok
                && (final(self).scopes@.last().ops@.last() matches Op::Bytes { len: src, .. }
                    && ref_len(old(self).scopes@, final(self).scopes@, n@, Ok(src)))
                && ref_field_added(*old(self), *final(self), n@, name->Some_0@)))),
    {
        let ghost elen = *len;
        let name = named_only(name, "bytes")?;
        let ghost s0 = self.scopes@;
        let len = self.build_len(len, "bytes.len")?;
        let ghost s1 = self.scopes@;
        let max = match max {
            Some(m) => *m,
            None => self.opts.max_default,
        };
        let loc = self.push_op(Op::Bytes { len, max, c: Common::named(name.clone()) });
        self.add_sym(Some(name), loc, false, false, false, true);
        proof {
            if fold_spec(elen) is Ok && fold_spec(elen)->Ok_0 is Ref {
                let n = fold_spec(elen)->Ok_0->Ref_0@;
                if ref_ok(s0, n) {
                    let si = ref_si(s0, n);
                    let pos = ref_pos(s0, n);
                    assert(self.scopes@.last().ops@.drop_last() =~= s1.last().ops@);
                    assert(pushed_after(s1, *self, name@));
                    assert(ref_field_added(*old(self), *self, n, name@));
                    if si < s1.len() - 1 {
                        assert(self.scopes@[si] == self.scopes@.drop_last()[si]);
                        assert(s1[si] == s1.drop_last()[si]);
                    } else {
                        let j = choose|j: int| #[trigger] is_first(s0[si].syms@, n, j);
                        assert(is_first(s0[si].syms@, n, j));
                        lemma_first_sym(s0[si].syms@, n, j);
                        assert(pos < s1[si].syms@.len());
                        assert(self.scopes@.last().syms@[pos] == self.scopes@.last().syms@.drop_last()[pos]);
                    }
                }
            }
        }
        Ok(())
    }

    /// A string field named `name`: its encoding and length compiled, then
    /// the op and the field added.
    fn field_str(&mut self, name: Option<String>, len: &ExprIn, max: &Option<usize>, encoding: &String, errors: &String)
        -> (r: Result<(), SchemaError>)
        requires
            old(self).ready(),
        ensures
            sized_kept(old(self).scopes@, final(self).scopes@),
            final(self).scopes@.len() == old(self).scopes@.len(),
            final(self).opts == old(self).opts,
            name is None ==> (r matches Err(e) && e.msg@ == "str"@
                + " cannot be unnamed (only fixed-width types, bits and raw may be unnamed)"@ && *final(self) == *old(self)),
            r is Ok ==> (name is Some && last_op_named(*final(self), name->Some_0@, true)
                && (final(self).scopes@.last().ops@.last() matches Op::Str { len: src, max: m, enc, .. } && len_of(*len, src)
                    && m == (match max { Some(x) => *x, None => old(self).opts.max_default })
                    && errors@ == "strict"@ && enc_of(encoding@) == Some(enc))),
    {
        let name = named_only(name, "str")?;
        let enc = parse_enc(encoding.as_str(), errors.as_str())?;
        let len = self.build_len(len, "str.len")?;
        let max = match max {
            Some(m) => *m,
            None => self.opts.max_default,
        };
        let loc = self.push_op(Op::Str { len, max, enc, c: Common::named(name.clone()) });
        self.add_sym(Some(name), loc, false, false, false, true);
        Ok(())
    }

    /// A struct field named `name`: its op compiled (a constant size
    /// checked against the body's), then the op and the field added.
    fn field_struct(&mut self, name: Option<String>, ty: &TypeIn, bo: ByteOrder) -> (r: Result<(), SchemaError>)
        requires
            old(self).ready(),
            ty is StructT,
        ensures
            sized_kept(old(self).scopes@, final(self).scopes@),
            final(self).scopes@.len() == old(self).scopes@.len(),
            final(self).opts == old(self).opts,
            name is None ==> (r matches Err(e) && e.msg@ == "struct"@
                + " cannot be unnamed (only fixed-width types, bits and raw may be unnamed)"@ && *final(self) == *old(self)),
            name matches Some(n) ==> struct_field_result(*old(self), *final(self), n@, *ty, bo, r),
            r is Ok ==> (name is Some && last_op_named(*final(self), name->Some_0@, true)
                && final(self).scopes@.last().ops@.last() is Nest),
        decreases ty, 2nat,
    {
        let name = named_only(name, "struct")?;
        let op = self.compile_nest(ty, bo, Common::named(name.clone()), true)?;
        let loc = self.push_op(op);
        self.add_sym(Some(name), loc, false, false, false, true);
        proof {
            if fixed_struct(*ty) || chain_struct(*ty) {
                assert(self.scopes@.last().ops@.drop_last() =~= old(self).scopes@.last().ops@);
            }
        }
        Ok(())
    }

    /// A bits field: a width outside 1..64 is refused; otherwise its item
    /// joins the bit run the scope ends with, or starts one.
    fn field_bits(&mut self, name: Option<String>, key: Key, width: u8, signed: bool) -> (r: Result<(), SchemaError>)
        requires
            old(self).ready(),
        ensures
            sized_kept(old(self).scopes@, final(self).scopes@),
            final(self).scopes@.len() == old(self).scopes@.len(),
            final(self).opts == old(self).opts,
            (width < 1 || width > 64) ==> (r matches Err(e) && e.msg@ == "bits: width "@ + dec_chars(width as nat)
                + " is outside 1..64"@ && *final(self) == *old(self)),
    {
        if width < 1 || width > 64 {
            let mut m = string_of("bits: width ");
            push_decimal(&mut m, width as u128);
            push_str(&mut m, " is outside 1..64");
            return Err(err(m));
        }
        let item = BitItem { width: width, signed: signed, reg: None, derived: false, key };
        let mut sc = self.scopes.pop().unwrap();
        let n = sc.ops.len();
        let mut loc: Loc = Loc::Op(0);
        let mut placed = false;
        if n > 0 {
            let last = sc.ops.pop().unwrap();
            match last {
                Op::BitRun { nbytes, mut items } => {
                    items.push(item);
                    loc = Loc::Bit { op: n - 1, item: items.len() - 1 };
                    sc.ops.push(Op::BitRun { nbytes, items });
                    placed = true;
                },
                other => {
                    sc.ops.push(other);
                    sc.ops.push(Op::BitRun { nbytes: 0, items: vec![item] });
                    loc = Loc::Bit { op: n, item: 0 };
                    placed = true;
                },
            }
        } else {
            sc.ops.push(Op::BitRun { nbytes: 0, items: vec![item] });
            loc = Loc::Bit { op: 0, item: 0 };
        }
        self.scopes.push(sc);
        self.add_sym(name, loc, true, false, false, false);
        Ok(())
    }

    /// A digest field named `name`: its algorithm, and the names it
    /// covers checked; the op, with its spans still to come, the field and
    /// the pending digest added.
    #[verifier::loop_isolation(false)]
    fn field_digest(&mut self, name: Option<String>, algo: &String, overrides: &CrcOverrides, over: &OverIn, verify: bool,
        bo: ByteOrder) -> (r: Result<(), SchemaError>)
        requires
            old(self).ready(),
        ensures
            sized_kept(old(self).scopes@, final(self).scopes@),
            final(self).scopes@.len() == old(self).scopes@.len(),
            final(self).opts == old(self).opts,
            name is None ==> (r matches Err(e) && e.msg@ == "digest"@
                + " cannot be unnamed (only fixed-width types, bits and raw may be unnamed)"@ && *final(self) == *old(self)),
            name matches Some(n) ==> digest_field_result(*old(self), *final(self), n@, algo@, *overrides, *over, verify, bo, r),
    {
        let name = named_only(name, "digest")?;
        let algo = parse_algo(algo.as_str(), overrides)?;
        if let OverIn::Names(names) = over {
            if names.len() == 0 {
                return Err(err_str("digest: empty over"));
            }
            let mut k: usize = 0;
            while k < names.len()
                invariant
                    k <= names@.len(),
                    forall|x: int, y: int| 0 <= x < y < k ==> (#[trigger] names@[x])@ != (#[trigger] names@[y])@,
                    forall|x: int| 0 <= x < k ==> (#[trigger] names@[x])@ != name@,
                decreases names@.len() - k,
            {
                let mut j: usize = 0;
                while j < k
                    invariant
                        j <= k < names@.len(),
                        forall|x: int| 0 <= x < j ==> (#[trigger] names@[x])@ != names@[k as int]@,
                    decreases k - j,
                {
                    if str_eq(names[j].as_str(), names[k].as_str()) {
                        return Err(msg_q("digest: duplicate ", names[k].as_str(), " in over"));
                    }
                    j = j + 1;
                }
                if str_eq(names[k].as_str(), name.as_str()) {
                    return Err(err_str("digest: a digest field cannot list itself by name in over"));
                }
                k = k + 1;
            }
        }
        let be = match bo {
            ByteOrder::Big => true,
            ByteOrder::Little => false,
        };
        let op = Op::Digest { algo, over: Over::Spans(Vec::new()), verify, be, c: Common::named(name.clone()) };
        let loc = self.push_op(op);
        let op_idx = loc_op(loc);
        let ghost mid = self.scopes@;
        let mut sc = self.scopes.pop().unwrap();
        sc.digests.push((op_idx, over.clone(), name.clone()));
        self.scopes.push(sc);
        proof {
            assert(self.scopes@.drop_last() =~= mid.drop_last());
            assert(self.scopes@.last().digests@.drop_last() =~= old(self).scopes@.last().digests@);
        }
        self.add_sym(Some(name), loc, false, false, false, true);
        proof {
            assert(self.scopes@.last().ops@.drop_last() =~= old(self).scopes@.last().ops@);
        }
        Ok(())
    }

    /// An array field named `name`: the array op, the field added.
    fn field_array(&mut self, name: Option<String>, ty: &TypeIn, bo: ByteOrder) -> (r: Result<(), SchemaError>)
        requires
            old(self).ready(),
            ty is ArrayT,
        ensures
            sized_kept(old(self).scopes@, final(self).scopes@),
            final(self).scopes@.len() == old(self).scopes@.len(),
            final(self).opts == old(self).opts,
            name is None ==> (r matches Err(e) && e.msg@ == "array"@
                + " cannot be unnamed (only fixed-width types, bits and raw may be unnamed)"@ && *final(self) == *old(self)),
            r is Ok ==> (name is Some && last_op_named(*final(self), name->Some_0@, true)
                && array_built(*ty, bo, old(self).opts, final(self).scopes@.last().ops@.last())),
            name is Some ==> (ty matches TypeIn::ArrayT { elem, count, until_eof } ==> (plain_count(*count, *until_eof) ==> {
                &&& scalar_elem(**elem) ==> (r is Ok && op_added(*old(self), *final(self), Some(name->Some_0@), false, false, false, true)
                    && named_common(final(self).scopes@.last().ops@.last(), name->Some_0@)
                    && array_plain_op(*ty, bo, old(self).opts, final(self).scopes@.last().ops@.last()))
                &&& r matches Err(e) ==> elem_result(**elem, bo, old(self).opts, Err(e))
            })),
        decreases ty, 2nat,
    {
        let name = named_only(name, "array")?;
        let op = self.compile_array(ty, bo, Common::named(name.clone()))?;
        let ghost mid = *self;
        let loc = self.push_op(op);
        self.add_sym(Some(name), loc, false, false, false, true);
        proof {
            assert(self.scopes@.last().ops@.drop_last() =~= mid.scopes@.last().ops@);
        }
        Ok(())
    }

    /// A switch field named `name`: the switch op, the field added.
    fn field_switch(&mut self, name: Option<String>, ty: &TypeIn, bo: ByteOrder) -> (r: Result<(), SchemaError>)
        requires
            old(self).ready(),
            ty is SwitchT,
        ensures
            sized_kept(old(self).scopes@, final(self).scopes@),
            final(self).scopes@.len() == old(self).scopes@.len(),
            final(self).opts == old(self).opts,
            name is None ==> (r matches Err(e) && e.msg@ == "switch"@
                + " cannot be unnamed (only fixed-width types, bits and raw may be unnamed)"@ && *final(self) == *old(self)),
            r is Ok ==> (name is Some && last_op_named(*final(self), name->Some_0@, true)
                && switch_built(*ty, bo, old(self).opts, final(self).scopes@.last().ops@.last())),
        decreases ty, 2nat,
    {
        let name = named_only(name, "switch")?;
        let op = self.compile_switch(ty, bo, Common::named(name.clone()))?;
        let loc = self.push_op(op);
        self.add_sym(Some(name), loc, false, false, false, true);
        Ok(())
    }

    /// A conditional field named `name`: its predicate, then its type
    /// compiled as an element; the op and the field added.
    fn field_cond(&mut self, name: Option<String>, pred: &ExprIn, then: &TypeIn, bo: ByteOrder) -> (r: Result<(), SchemaError>)
        requires
            old(self).ready(),
        ensures
            sized_kept(old(self).scopes@, final(self).scopes@),
            final(self).scopes@.len() == old(self).scopes@.len(),
            final(self).opts == old(self).opts,
            name is None ==> (r matches Err(e) && e.msg@ == "when"@
                + " cannot be unnamed (only fixed-width types, bits and raw may be unnamed)"@ && *final(self) == *old(self)),
            r is Ok ==> (name is Some && last_op_named(*final(self), name->Some_0@, false)
                && (final(self).scopes@.last().ops@.last() matches Op::Cond { then: t, .. }
                    && fold_spec(*pred) is Ok && elem_result(*then, bo, old(self).opts, Ok(*t)))),
        decreases then, 3nat,
    {
        let name = named_only(name, "when")?;
        let folded = fold(pred)?;
        let pred_expr = self.emit_expr(&folded, RefCtx::Pred)?;
        // Self-contained, like an array element: no register of its
        // own, and a digest cannot cover it.
        let then_op = self.compile_elem(then, bo)?;
        let loc = self.push_op(Op::Cond { pred: pred_expr, then: Box::new(then_op), c: Common::named(name.clone()) });
        self.add_sym(Some(name), loc, false, false, false, false);
        Ok(())
    }

    /// A field of a fixed-width type: its item added to the run of fixed
    /// fields the scope ends with (or a new one), then the field.
    #[verifier::spinoff_prover]
    #[verifier::rlimit(100)]
    fn field_fixed(&mut self, f: &FieldIn, name: Option<String>, key: Key, bo: ByteOrder) -> (r: Result<(), SchemaError>)
        requires
            old(self).ready(),
            f.ty is Int || f.ty is Float || f.ty is Bool || f.ty is Raw,
            match (name, f.name) {
                (Some(m), Some(n)) => m@ == n@ && n@.len() > 0 && (key matches Key::Named(k) && k@ == n@)
                    && !(exists|j: int| 0 <= j < old(self).scopes@.last().syms@.len()
                        && #[trigger] old(self).scopes@.last().syms@[j].name@ == n@),
                (None, None) => key is Skip,
                _ => false,
            },
        ensures
            final(self).scopes@.len() == old(self).scopes@.len(),
            final(self).opts == old(self).opts,
            sized_kept(old(self).scopes@, final(self).scopes@),
            (plain_fixed(*f) && !(exists|j: int| 0 <= j < old(self).scopes@.last().syms@.len()
                && #[trigger] old(self).scopes@.last().syms@[j].name@ == f.name->Some_0@)) ==> {
                &&& final(self).opts == old(self).opts
                &&& final(self).scopes@.drop_last() == old(self).scopes@.drop_last()
                &&& final(self).scopes@.last().nregs == old(self).scopes@.last().nregs
                &&& final(self).scopes@.last().nspans == old(self).scopes@.last().nspans
                &&& final(self).scopes@.last().digests == old(self).scopes@.last().digests
                &&& r is Ok ==> {
                    &&& final(self).scopes@.last().syms@.drop_last() == old(self).scopes@.last().syms@
                    &&& final(self).scopes@.last().syms@.len() == old(self).scopes@.last().syms@.len() + 1
                    &&& final(self).scopes@.last().syms@.last().name@ == f.name->Some_0@
                    &&& !final(self).scopes@.last().syms@.last().len_referenced
                    &&& final(self).scopes@.last().ops@.len() > 0
                    &&& final(self).scopes@.last().ops@.last() matches Op::Fixed { items, .. }
                    &&& items@.len() > 0
                    &&& fresh_sym(final(self).scopes@.last().syms@.last(), f.name->Some_0@, Loc::Fix {
                        op: (final(self).scopes@.last().ops@.len() - 1) as usize, item: (items@.len() - 1) as usize },
                        f.ty is Int, false, fixed_const(f.ty), true)
                }
                &&& old(self).scopes@.last().ops@.len() == 0 ==> {
                    &&& r is Ok
                    &&& final(self).scopes@.last().ops@.len() == 1
                    &&& final(self).scopes@.last().ops@[0] matches Op::Fixed { width, items }
                    &&& width == plain_width(f.ty)
                    &&& items@.len() == 1
                    &&& items@[0].off == 0
                    &&& item_for(items@[0], *f, bo)
                }
                &&& !(old(self).scopes@.last().ops@.len() > 0 && old(self).scopes@.last().ops@.last() is Fixed) ==> {
                    &&& r is Ok
                    &&& final(self).scopes@.last().ops@.len() == old(self).scopes@.last().ops@.len() + 1
                    &&& final(self).scopes@.last().ops@.drop_last() == old(self).scopes@.last().ops@
                    &&& final(self).scopes@.last().ops@.last() matches Op::Fixed { width, items }
                    &&& width == plain_width(f.ty)
                    &&& items@.len() == 1
                    &&& items@[0].off == 0
                    &&& item_for(items@[0], *f, bo)
                }
                &&& old(self).scopes@.last().ops@.len() > 0 ==> (old(self).scopes@.last().ops@.last() matches Op::Fixed { width, items }
                    ==> (width + plain_width(f.ty) <= usize::MAX ==> {
                    &&& r is Ok
                    &&& final(self).scopes@.last().ops@.len() == old(self).scopes@.last().ops@.len()
                    &&& final(self).scopes@.last().ops@.drop_last() == old(self).scopes@.last().ops@.drop_last()
                    &&& final(self).scopes@.last().ops@.last() matches Op::Fixed { width: w2, items: it2 }
                    &&& w2 == width + plain_width(f.ty)
                    &&& it2@.len() == items@.len() + 1
                    &&& it2@.drop_last() == items@
                    &&& it2@.last().off == width
                    &&& item_for(it2@.last(), *f, bo)
                }))
            },
            f.ty matches TypeIn::Int { prim, const_: Some(k), .. } ==> ((f.name is None || fresh_name(*old(self), f.name))
                ==> ((k < prim.spec_min() || k > prim.spec_max()) ==> (r matches Err(e) && e.msg@ == "const "@
                + (if k < 0 { seq!['-'] + dec_chars((-k) as nat) } else { dec_chars(k as nat) })
                + " is out of range for "@ + prim_name(prim) && *final(self) == *old(self)))),
    {
        match &f.ty {
            TypeIn::Int { prim, byteorder, const_ } => {
                if let Some(c) = const_ {
                    if *c < prim.min() || *c > prim.max() {
                        return Err(const_range_msg(*c, *prim));
                    }
                }
                let be = big_endian(*byteorder, bo);
                let loc = self.push_fixed(FixKind::Int { prim: *prim, be, expected: *const_, derived: false }, key)?;
                self.add_sym(name, loc, true, false, const_.is_some(), true);
            },
            TypeIn::Float { is64, byteorder } => {
                let be = big_endian(*byteorder, bo);
                let kind = if *is64 { FixKind::F64 { be } } else { FixKind::F32 { be } };
                let loc = self.push_fixed(kind, key)?;
                self.add_sym(name, loc, false, false, false, true);
            },
            TypeIn::Bool { const_ } => {
                let loc = self.push_fixed(FixKind::Bool { expected: *const_ }, key)?;
                self.add_sym(name, loc, false, false, const_.is_some(), true);
            },
            TypeIn::Raw { len, const_ } => {
                let n = match (len, const_) {
                    (Some(l), Some(c)) => {
                        if *l != c.len() {
                            let mut m = string_of("raw: len=");
                            push_decimal(&mut m, *l as u128);
                            push_str(&mut m, " does not match the length of const (");
                            push_decimal(&mut m, c.len() as u128);
                            push_str(&mut m, ")");
                            return Err(err(m));
                        }
                        *l
                    },
                    (Some(l), None) => *l,
                    (None, Some(c)) => c.len(),
                    (None, None) => return Err(err_str("raw: len or const is required")),
                };
                let expected = match const_ {
                    Some(c) => Some(c.clone()),
                    None => None,
                };
                let is_const = expected.is_some();
                let loc = self.push_fixed(FixKind::Raw { len: n, expected }, key)?;
                self.add_sym(name, loc, false, false, is_const, true);
            },
            _ => {},
        }
        Ok(())
    }

    /// Compiles one field into the innermost scope.
    #[verifier::loop_isolation(false)]
    #[verifier::spinoff_prover]
    #[verifier::rlimit(100)]
    fn compile_field(&mut self, f: &FieldIn, bo: ByteOrder) -> (r: Result<(), SchemaError>)
        requires
            old(self).ready(),
        ensures
            sized_kept(old(self).scopes@, final(self).scopes@),
            final(self).scopes@.len() == old(self).scopes@.len(),
            final(self).opts == old(self).opts,
            (plain_fixed(*f) && !(exists|j: int| 0 <= j < old(self).scopes@.last().syms@.len()
                && #[trigger] old(self).scopes@.last().syms@[j].name@ == f.name->Some_0@)) ==> {
                &&& final(self).opts == old(self).opts
                &&& final(self).scopes@.drop_last() == old(self).scopes@.drop_last()
                &&& final(self).scopes@.last().nregs == old(self).scopes@.last().nregs
                &&& final(self).scopes@.last().nspans == old(self).scopes@.last().nspans
                &&& final(self).scopes@.last().digests == old(self).scopes@.last().digests
                &&& r is Ok ==> {
                    &&& final(self).scopes@.last().syms@.drop_last() == old(self).scopes@.last().syms@
                    &&& final(self).scopes@.last().syms@.len() == old(self).scopes@.last().syms@.len() + 1
                    &&& final(self).scopes@.last().syms@.last().name@ == f.name->Some_0@
                    &&& !final(self).scopes@.last().syms@.last().len_referenced
                    &&& final(self).scopes@.last().ops@.len() > 0
                    &&& final(self).scopes@.last().ops@.last() matches Op::Fixed { items, .. }
                    &&& items@.len() > 0
                    &&& fresh_sym(final(self).scopes@.last().syms@.last(), f.name->Some_0@, Loc::Fix {
                        op: (final(self).scopes@.last().ops@.len() - 1) as usize, item: (items@.len() - 1) as usize },
                        f.ty is Int, false, fixed_const(f.ty), true)
                }
                &&& old(self).scopes@.last().ops@.len() == 0 ==> {
                    &&& r is Ok
                    &&& final(self).scopes@.last().ops@.len() == 1
                    &&& final(self).scopes@.last().ops@[0] matches Op::Fixed { width, items }
                    &&& width == plain_width(f.ty)
                    &&& items@.len() == 1
                    &&& items@[0].off == 0
                    &&& item_for(items@[0], *f, bo)
                }
                &&& !(old(self).scopes@.last().ops@.len() > 0 && old(self).scopes@.last().ops@.last() is Fixed) ==> {
                    &&& r is Ok
                    &&& final(self).scopes@.last().ops@.len() == old(self).scopes@.last().ops@.len() + 1
                    &&& final(self).scopes@.last().ops@.drop_last() == old(self).scopes@.last().ops@
                    &&& final(self).scopes@.last().ops@.last() matches Op::Fixed { width, items }
                    &&& width == plain_width(f.ty)
                    &&& items@.len() == 1
                    &&& items@[0].off == 0
                    &&& item_for(items@[0], *f, bo)
                }
                &&& old(self).scopes@.last().ops@.len() > 0 ==> (old(self).scopes@.last().ops@.last() matches Op::Fixed { width, items }
                    ==> (width + plain_width(f.ty) <= usize::MAX ==> {
                    &&& r is Ok
                    &&& final(self).scopes@.last().ops@.len() == old(self).scopes@.last().ops@.len()
                    &&& final(self).scopes@.last().ops@.drop_last() == old(self).scopes@.last().ops@.drop_last()
                    &&& final(self).scopes@.last().ops@.last() matches Op::Fixed { width: w2, items: it2 }
                    &&& w2 == width + plain_width(f.ty)
                    &&& it2@.len() == items@.len() + 1
                    &&& it2@.drop_last() == items@
                    &&& it2@.last().off == width
                    &&& item_for(it2@.last(), *f, bo)
                }))
            },
            f.name matches Some(n) ==> (n@.len() == 0 ==> (r matches Err(e) && e.msg@ == "field name must not be empty"@
                && *final(self) == *old(self))),
            f.name matches Some(n) ==> ((n@.len() > 0 && exists|j: int| 0 <= j < old(self).scopes@.last().syms@.len()
                && #[trigger] old(self).scopes@.last().syms@[j].name@ == n@) ==> (r matches Err(e)
                && e.msg@ == "duplicate field name "@ + debug_quoted(n@) + " in scope"@ && *final(self) == *old(self))),
            f.name is None && needs_name(f.ty) ==> (r matches Err(e) && e.msg@ == kind_word(f.ty)
                + " cannot be unnamed (only fixed-width types, bits and raw may be unnamed)"@ && *final(self) == *old(self)),
            f.ty matches TypeIn::Int { prim, const_: Some(k), .. } ==> ((f.name is None || fresh_name(*old(self), f.name))
                ==> ((k < prim.spec_min() || k > prim.spec_max()) ==> (r matches Err(e) && e.msg@ == "const "@
                + (if k < 0 { seq!['-'] + dec_chars((-k) as nat) } else { dec_chars(k as nat) })
                + " is out of range for "@ + prim_name(prim) && *final(self) == *old(self)))),
            f.ty matches TypeIn::Bits { width, .. } ==> ((f.name is None || fresh_name(*old(self), f.name))
                ==> ((width < 1 || width > 64) ==> (r matches Err(e) && e.msg@ == "bits: width "@ + dec_chars(width as nat)
                + " is outside 1..64"@ && *final(self) == *old(self)))),
            f.ty matches TypeIn::FlagsT { base, byteorder, names, rest } ==> (fresh_name(*old(self), f.name) ==> {
                &&& (!base.spec_signed() && policy_of(rest@) is Some && names_valid(base, names@)) ==> r is Ok
                &&& (base.spec_signed() || policy_of(rest@) is None) ==> r is Err
                &&& r is Err ==> *final(self) == *old(self)
                &&& r is Ok ==> op_added(*old(self), *final(self), Some(f.name->Some_0@), false, true, false, true)
                    && flags_built(base, byteorder, names@, rest@, bo, final(self).scopes@.last().ops@.last())
                    && named_common(final(self).scopes@.last().ops@.last(), f.name->Some_0@)
            }),
            f.ty matches TypeIn::Bytes { len, .. } ==> (fresh_name(*old(self), f.name) ==> (fold_spec(len) matches Ok(fl) ==> {
                &&& refs_in(fl).len() >= 2 ==> (r matches Err(x) && x.msg@ == "bytes.len"@
                    + ": expression is not invertible (must have the form a*ref + b)"@ && *final(self) == *old(self))
                &&& fl matches ExprIn::Ref(n) ==> (ref_up(old(self).scopes@, n@) is None ==> (r matches Err(x)
                    && x.msg@ == unknown_ref_msg(n@) && *final(self) == *old(self)))
                &&& fl matches ExprIn::Ref(n) ==> (ref_ok(old(self).scopes@, n@) ==> (r is Ok
                    && (final(self).scopes@.last().ops@.last() matches Op::Bytes { len: src, .. }
                        && ref_len(old(self).scopes@, final(self).scopes@, n@, Ok(src)))
                    && ref_field_added(*old(self), *final(self), n@, f.name->Some_0@)))
            })),
            f.ty is StructT ==> (fresh_name(*old(self), f.name) ==> struct_field_result(*old(self), *final(self),
                f.name->Some_0@, f.ty, bo, r)),
            f.ty matches TypeIn::Bytes { len, max } ==> (r is Ok ==> (last_op_named(*final(self), f.name->Some_0@, true)
                && (final(self).scopes@.last().ops@.last() matches Op::Bytes { len: src, max: m, .. } && len_of(len, src)
                    && m == (match max { Some(x) => x, None => old(self).opts.max_default })))),
            f.ty matches TypeIn::StrT { len, max, encoding, errors } ==> (r is Ok ==> (last_op_named(*final(self), f.name->Some_0@, true)
                && (final(self).scopes@.last().ops@.last() matches Op::Str { len: src, max: m, enc, .. } && len_of(len, src)
                    && m == (match max { Some(x) => x, None => old(self).opts.max_default })
                    && errors@ == "strict"@ && enc_of(encoding@) == Some(enc)))),
            f.ty is ArrayT ==> (r is Ok ==> (last_op_named(*final(self), f.name->Some_0@, true)
                && array_built(f.ty, bo, old(self).opts, final(self).scopes@.last().ops@.last()))),
            f.ty matches TypeIn::ArrayT { elem, count, until_eof } ==> (fresh_name(*old(self), f.name)
                ==> (plain_count(count, until_eof) ==> {
                &&& scalar_elem(*elem) ==> (r is Ok && op_added(*old(self), *final(self), Some(f.name->Some_0@), false, false, false, true)
                    && named_common(final(self).scopes@.last().ops@.last(), f.name->Some_0@)
                    && array_plain_op(f.ty, bo, old(self).opts, final(self).scopes@.last().ops@.last()))
                &&& r matches Err(e) ==> elem_result(*elem, bo, old(self).opts, Err(e))
            })),
            f.ty is SwitchT ==> (r is Ok ==> (last_op_named(*final(self), f.name->Some_0@, true)
                && switch_built(f.ty, bo, old(self).opts, final(self).scopes@.last().ops@.last()))),
            f.ty matches TypeIn::CondT { pred, then } ==> (r is Ok ==> (last_op_named(*final(self), f.name->Some_0@, false)
                && (final(self).scopes@.last().ops@.last() matches Op::Cond { then: t, .. }
                    && fold_spec(pred) is Ok && elem_result(*then, bo, old(self).opts, Ok(*t))))),
            f.ty matches TypeIn::DigestT { algo, overrides, over, verify } ==> (fresh_name(*old(self), f.name)
                ==> digest_field_result(*old(self), *final(self), f.name->Some_0@, algo@, overrides, over, verify, bo, r)),
            f.ty is StructT ==> (r is Ok ==> (last_op_named(*final(self), f.name->Some_0@, true)
                && final(self).scopes@.last().ops@.last() is Nest)),
            f.ty matches TypeIn::CStrT { max, encoding, errors } ==> (fresh_name(*old(self), f.name) ==> {
                &&& (errors@ == "strict"@ && enc_of(encoding@) is Some) ==> r is Ok
                &&& r is Err ==> *final(self) == *old(self)
                &&& r is Ok ==> op_added(*old(self), *final(self), Some(f.name->Some_0@), false, false, false, true)
                    && named_common(final(self).scopes@.last().ops@.last(), f.name->Some_0@)
                    && (final(self).scopes@.last().ops@.last() matches Op::CStr { max: m, enc, .. }
                    && m == (match max { Some(x) => x, None => old(self).opts.max_default })
                    && errors@ == "strict"@ && enc_of(encoding@) == Some(enc))
            }),
        decreases f, 2nat,
    {
        let name = self.check_name(&f.name)?;
        let key = match &name {
            Some(n) => Key::Named(n.clone()),
            None => Key::Skip,
        };
        match &f.ty {
            TypeIn::Int { .. } | TypeIn::Float { .. } | TypeIn::Bool { .. } | TypeIn::Raw { .. } => self.field_fixed(f, name, key, bo)?,
            TypeIn::Bytes { len, max } => self.field_bytes(name, len, max)?,
            TypeIn::StrT { len, max, encoding, errors } => self.field_str(name, len, max, encoding, errors)?,
            TypeIn::CStrT { max, encoding, errors } => {
                let name = named_only(name, "cstr")?;
                let enc = parse_enc(encoding.as_str(), errors.as_str())?;
                let max = match max {
                    Some(m) => *m,
                    None => self.opts.max_default,
                };
                let loc = self.push_op(Op::CStr { max, enc, c: Common::named(name.clone()) });
                self.add_sym(Some(name), loc, false, false, false, true);
                proof {
                    assert(self.scopes@.last().ops@.drop_last() =~= old(self).scopes@.last().ops@);
                }
            },
            TypeIn::Bits { width, signed } => self.field_bits(name, key, *width, *signed)?,
            TypeIn::FlagsT { base, byteorder, names, rest } => {
                let name = named_only(name, "flags")?;
                let op = compile_flags(*base, *byteorder, names, rest, bo, Common::named(name.clone()))?;
                let loc = self.push_op(op);
                self.add_sym(Some(name), loc, false, true, false, true);
                proof {
                    assert(self.scopes@.last().ops@.drop_last() =~= old(self).scopes@.last().ops@);
                }
            },
            TypeIn::DigestT { algo, overrides, over, verify } => self.field_digest(name, algo, overrides, over, *verify, bo)?,
            TypeIn::StructT { .. } => self.field_struct(name, &f.ty, bo)?,
            TypeIn::ArrayT { .. } => self.field_array(name, &f.ty, bo)?,
            TypeIn::SwitchT { .. } => self.field_switch(name, &f.ty, bo)?,
            TypeIn::CondT { pred, then } => self.field_cond(name, pred, then, bo)?,
        }
        Ok(())
    }

    /// A nested struct, with an optional size that makes it a window. As a
    /// field, a constant size must equal the body's static size.
    fn compile_nest(&mut self, ty: &TypeIn, bo: ByteOrder, c: Common, check_static: bool) -> (r: Result<Op, SchemaError>)
        ensures
            sized_kept(old(self).scopes@, final(self).scopes@),
            r matches Ok(op) ==> sizes_ok(op),
            final(self).scopes@.len() == old(self).scopes@.len(),
            final(self).opts == old(self).opts,
            !(ty is StructT) ==> (r matches Err(e) && e.msg@ == "struct: not a struct type"@),
            ty matches TypeIn::StructT { size: Some(ExprIn::Greedy), .. } ==> (r matches Err(e)
                && e.msg@ == "struct.size: \"*\" is not supported"@),
            r matches Ok(op) ==> (ty matches TypeIn::StructT { size: sz, .. } && op matches Op::Nest { prog, size, c: c2 } && {
                &&& c2 == c
                &&& size_src_ok(*sz, size)
                &&& prog.min_size == ops_min_sum(prog.ops@)
                &&& match prog.static_size {
                    Some(x) => ops_static_sum(prog.ops@) == Some(x as nat),
                    None => ops_static_sum(prog.ops@) is None,
                }
                &&& check_static ==> (size matches Some(LenSrc::Expr { expr, inv: None })
                    ==> (prog.static_size matches Some(st) ==> expr.0@ == seq![Ins::Imm(st as i64)]))
            }),
            ty matches TypeIn::StructT { fields, byteorder, size: None } ==> (fixed_schema(fields@) ==> (r matches Ok(Op::Nest { prog, size: None, c: c2 })
                && c2 == c && fixed_run_of(*prog, fields@, match byteorder { Some(b) => *b, None => bo }))),
            ty matches TypeIn::StructT { fields, size: Some(e), .. } ==> (fixed_schema(fields@)
                ==> (fold_spec(*e) matches Ok(ExprIn::Imm(k)) ==> (k >= 0 ==> size_verdict(r, k, widths_upto(fields@, fields@.len()), check_static)))),
            ty matches TypeIn::StructT { fields, size: None, byteorder } ==> (nest_chain(fields@) matches Some(d) ==> (r matches Ok(Op::Nest {
                prog, size: None, c: c2 }) && c2 == c && prog_frames(*prog) == chain_frames(d)
                && chain_prog(*prog, fields@, match byteorder { Some(b) => *b, None => bo })
                && final(self).scopes@ == old(self).scopes@ && final(self).opts == old(self).opts)),
            ty matches TypeIn::StructT { fields, byteorder, .. } ==> (fixed_schema(fields@) ==> (r matches Ok(Op::Nest { prog, .. })
                ==> fixed_run_of(*prog, fields@, match byteorder { Some(b) => *b, None => bo }))),
            ty matches TypeIn::StructT { fields, size, .. } ==> ((fixed_schema(fields@) && (size is None
                || (fold_spec(size->Some_0) matches Ok(ExprIn::Imm(k)) && k >= 0)))
                ==> (final(self).scopes@ == old(self).scopes@ && final(self).opts == old(self).opts)),
        decreases ty, 1nat,
    {
        match ty {
            TypeIn::StructT { fields, byteorder, size } => {
                let inner_bo = match byteorder {
                    Some(b) => *b,
                    None => bo,
                };
                let size = match size {
                    None => None,
                    Some(e) => {
                        let src = self.build_len(e, "struct.size")?;
                        if let LenSrc::Greedy = src {
                            return Err(err_str("struct.size: \"*\" is not supported"));
                        }
                        Some(src)
                    },
                };
                let body = fields.as_slice();
                proof {
                    assert(decreases_to!(*ty => *fields));
                    assert(decreases_to!(*fields => fields@));
                }
                let prog = self.compile_scope(body, inner_bo)?;
                proof {
                    if fixed_schema(fields@) {
                        let ops = prog.ops@;
                        assert(ops.drop_last() =~= Seq::<Op>::empty());
                        assert(ops_static_sum(ops.drop_last()) == Some(0nat));
                        assert(prog.static_size == Some(widths_upto(fields@, fields@.len()) as usize));
                    }
                }
                if check_static {
                    if let (Some(LenSrc::Expr { expr, inv: None }), Some(st)) = (&size, prog.static_size) {
                        if let Some(sz) = expr.as_const() {
                            if sz < 0 || sz as u64 != st as u64 {
                                let mut m = string_of("struct.size=");
                                push_signed(&mut m, sz as i128);
                                push_str(&mut m, " does not match the static body size ");
                                push_decimal(&mut m, st as u128);
                                return Err(err(m));
                            }
                        }
                    }
                }
                Ok(Op::Nest { prog: Box::new(prog), size, c })
            },
            _ => Err(err_str("struct: not a struct type")),
        }
    }

    /// An array's count: an expression, or `*`/`until_eof` to read to the
    /// end.
    fn count_of(&mut self, count: &Option<ExprIn>, until_eof: bool) -> (r: Result<CountSrc, SchemaError>)
        ensures
            sized_kept(old(self).scopes@, final(self).scopes@),
            final(self).scopes@.len() == old(self).scopes@.len(),
            final(self).opts == old(self).opts,
            count is Some && until_eof ==> (r matches Err(e) && e.msg@ == "array: count and until_eof are mutually exclusive"@),
            count is None && !until_eof ==> (r matches Err(e) && e.msg@ == "array: count or until_eof is required"@),
            count is None && until_eof ==> r matches Ok(CountSrc::UntilEof),
            plain_count(*count, until_eof) ==> (r matches Ok(cs)
                && plain_count_src(*count, until_eof, cs) && *final(self) == *old(self)),
            count matches Some(ExprIn::Greedy) && !until_eof ==> r matches Ok(CountSrc::UntilEof),
            r matches Ok(cs) ==> count_src_ok(*count, until_eof, cs),
            !until_eof ==> (count matches Some(e) ==> (!(e is Greedy) ==> (fold_spec(*e) matches Err(m)
                ==> (r matches Err(x) && x.msg@ == m)))),
            !until_eof ==> (count matches Some(e) ==> (fold_spec(*e) matches Ok(ExprIn::Imm(n)) ==> (if n < 0 {
                r matches Err(x) && x.msg@ == "array.count"@ + ": negative constant length "@ + seq!['-'] + dec_chars((-n) as nat)
            } else {
                r matches Ok(CountSrc::Expr { expr, inv: None }) && expr.0@ == seq![Ins::Imm(n)]
            }))),
    {
        match (count, until_eof) {
            (Some(_), true) => Err(err_str("array: count and until_eof are mutually exclusive")),
            (None, false) => Err(err_str("array: count or until_eof is required")),
            (None, true) => Ok(CountSrc::UntilEof),
            (Some(e), false) => match self.build_len(e, "array.count")? {
                LenSrc::Expr { expr, inv } => Ok(CountSrc::Expr { expr, inv }),
                LenSrc::Greedy => Ok(CountSrc::UntilEof),
            },
        }
    }

    /// An array: its count, its element compiled on its own, and the
    /// element's smallest size.
    fn compile_array(&mut self, ty: &TypeIn, bo: ByteOrder, c: Common) -> (r: Result<Op, SchemaError>)
        ensures
            sized_kept(old(self).scopes@, final(self).scopes@),
            r matches Ok(op) ==> sizes_ok(op),
            final(self).scopes@.len() == old(self).scopes@.len(),
            final(self).opts == old(self).opts,
            !(ty is ArrayT) ==> (r matches Err(e) && e.msg@ == "array: not an array type"@),
            ty matches TypeIn::ArrayT { count: Some(_), until_eof: true, .. } ==> (r matches Err(e)
                && e.msg@ == "array: count and until_eof are mutually exclusive"@),
            ty matches TypeIn::ArrayT { count: None, until_eof: false, .. } ==> (r matches Err(e)
                && e.msg@ == "array: count or until_eof is required"@),
            r matches Ok(op) ==> (ty matches TypeIn::ArrayT { count, until_eof, .. }
                && op matches Op::Array { count: cs, max_count, elem, elem_min, c: c2 } && {
                &&& c2 == c
                &&& max_count == old(self).opts.max_count
                &&& elem_min == op_min_spec(*elem)
                &&& count_src_ok(*count, *until_eof, cs)
            }),
            ty matches TypeIn::ArrayT { elem, count, until_eof } ==> ((plain_count(*count, *until_eof) && scalar_elem(**elem))
                ==> r is Ok),
            ty matches TypeIn::ArrayT { elem, count, until_eof } ==> (r matches Ok(Op::Array { elem: eo, .. })
                ==> elem_result(**elem, bo, old(self).opts, Ok(*eo))),
            ty matches TypeIn::ArrayT { elem, count, until_eof } ==> ((plain_count(*count, *until_eof) && scalar_elem(**elem))
                ==> (r matches Ok(op) && op.spec_common() == Some(c)
                && array_plain_op(*ty, bo, old(self).opts, op) && *final(self) == *old(self))),
            ty matches TypeIn::ArrayT { elem, count, until_eof } ==> (plain_count(*count, *until_eof)
                ==> (r matches Err(e) ==> elem_result(**elem, bo, old(self).opts, Err(e)))),
        decreases ty, 1nat,
    {
        let max_count = self.opts.max_count;
        match ty {
            TypeIn::ArrayT { elem, count, until_eof } => {
                let count_src = self.count_of(count, *until_eof)?;
                let elem_op = self.compile_elem(elem, bo)?;
                let elem_min = op_min(&elem_op);
                Ok(Op::Array { count: count_src, max_count, elem: Box::new(elem_op), elem_min, c })
            },
            _ => Err(err_str("array: not an array type")),
        }
    }

    #[verifier::loop_isolation(false)]
    fn compile_switch(&mut self, ty: &TypeIn, bo: ByteOrder, c: Common) -> (r: Result<Op, SchemaError>)
        ensures
            sized_kept(old(self).scopes@, final(self).scopes@),
            r matches Ok(op) ==> sizes_ok(op),
            final(self).scopes@.len() == old(self).scopes@.len(),
            final(self).opts == old(self).opts,
            r matches Ok(Op::Switch { cases, .. }) ==> forall|i: int, j: int| 0 <= i < j < cases@.len()
                ==> #[trigger] cases@[i].0 != #[trigger] cases@[j].0,
            !(ty is SwitchT) ==> (r matches Err(e) && e.msg@ == "switch: not a switch type"@),
            ty matches TypeIn::SwitchT { cases, default: None, .. } ==> (cases@.len() == 0 ==> (r matches Err(e)
                && e.msg@ == "switch: no branches at all"@)),
            ty matches TypeIn::SwitchT { cases, .. } ==> ((exists|i: int, j: int| 0 <= i < j < cases@.len()
                && #[trigger] cases@[i].0 == #[trigger] cases@[j].0) ==> r is Err),
            r matches Ok(op) ==> (ty matches TypeIn::SwitchT { on, cases, default }
                && op matches Op::Switch { on: oe, cases: cs, default: d, c: c2 } && {
                &&& c2 == c
                &&& cs@.len() == cases@.len()
                &&& forall|i: int| 0 <= i < cases@.len() ==> #[trigger] cs@[i].0 == cases@[i].0
                &&& (d is Some <==> default is Some)
                &&& fold_spec(*on) is Ok
                &&& stack_peak(oe.0@, 0, 0, 0) <= EXPR_STACK
                &&& cases_built(*ty, 0, cs@, bo, old(self).opts)
                &&& (default matches Some(t) ==> elem_result(**t, bo, old(self).opts, Ok(*d->Some_0)))
            }),
        decreases ty, 1nat,
    {
        match ty {
            TypeIn::SwitchT { on, cases, default } => {
                if cases.len() == 0 && default.is_none() {
                    return Err(err_str("switch: no branches at all"));
                }
                let folded = fold(on)?;
                let on_expr = self.emit_expr(&folded, RefCtx::On)?;
                let mut compiled: Vec<(i64, Box<Op>)> = Vec::new();
                let mut k: usize = 0;
                while k < cases.len()
                    invariant
                        self.scopes@.len() == old(self).scopes@.len(),
                        self.opts == old(self).opts,
                        sized_kept(old(self).scopes@, self.scopes@),
                        forall|i: int| 0 <= i < k ==> sizes_ok(*(#[trigger] compiled@[i]).1),
                        k <= cases@.len(),
                        compiled@.len() == k,
                        forall|i: int| 0 <= i < k ==> #[trigger] compiled@[i].0 == cases@[i].0,
                        forall|i: int| 0 <= i < k ==> elem_result(cases@[i].1, bo, old(self).opts, Ok(*(#[trigger] compiled@[i]).1)),
                        forall|i: int, j: int| 0 <= i < j < k ==> #[trigger] compiled@[i].0 != #[trigger] compiled@[j].0,
                    decreases cases@.len() - k,
                {
                    let tag = cases[k].0;
                    let mut j: usize = 0;
                    while j < k
                        invariant
                            j <= k <= cases@.len(),
                            compiled@.len() == k,
                            forall|i: int| 0 <= i < j ==> compiled@[i].0 != tag,
                        decreases k - j,
                    {
                        if compiled[j].0 == tag {
                            let mut m = string_of("switch: duplicate branch ");
                            push_signed(&mut m, tag as i128);
                            return Err(err(m));
                        }
                        j = j + 1;
                    }
                    proof {
                        assert(decreases_to!(*ty => *cases));
                        assert(decreases_to!(*cases => cases@));
                        assert(decreases_to!(cases@ => cases@[k as int]));
                        assert(decreases_to!(cases@[k as int] => cases@[k as int].1));
                    }
                    let ghost sb = self.scopes@;
                    let op = self.compile_elem(&cases[k].1, bo)?;
                    proof { lemma_sized_trans(old(self).scopes@, sb, self.scopes@); }
                    compiled.push((tag, Box::new(op)));
                    k = k + 1;
                }
                let ghost sd = self.scopes@;
                let default = match default {
                    Some(t) => Some(Box::new(self.compile_elem(t, bo)?)),
                    None => None,
                };
                proof {
                    lemma_sized_trans(old(self).scopes@, sd, self.scopes@);
                    lemma_sized_cases(compiled@, compiled@.len());
                }
                proof {
                    lemma_cases_built(*ty, 0, compiled@, bo, old(self).opts);
                    assert forall|i: int, j: int| 0 <= i < j < cases@.len() implies
                        #[trigger] cases@[i].0 != #[trigger] cases@[j].0 by {
                        assert(compiled@[i].0 == cases@[i].0);
                        assert(compiled@[j].0 == cases@[j].0);
                    }
                }
                Ok(Op::Switch { on: on_expr, cases: compiled, default, c })
            },
            _ => Err(err_str("switch: not a switch type")),
        }
    }

    /// A type in the position of an array element or a switch branch: one
    /// op, unnamed.
    fn compile_elem(&mut self, ty: &TypeIn, bo: ByteOrder) -> (r: Result<Op, SchemaError>)
        ensures
            sized_kept(old(self).scopes@, final(self).scopes@),
            r matches Ok(op) ==> sizes_ok(op),
            final(self).scopes@.len() == old(self).scopes@.len(),
            final(self).opts == old(self).opts,
            elem_result(*ty, bo, old(self).opts, r),
            (ty is Bits || ty is DigestT || ty is CondT || ty is Int || ty is Float || ty is Bool || ty is Raw
                || ty is CStrT || ty is FlagsT) ==> *final(self) == *old(self),
        decreases ty, 2nat,
    {
        let max_default = self.opts.max_default;
        match ty {
            TypeIn::Int { prim, byteorder, const_ } => {
                if let Some(c) = const_ {
                    if *c < prim.min() || *c > prim.max() {
                        return Err(const_range_msg(*c, *prim));
                    }
                }
                let be = big_endian(*byteorder, bo);
                Ok(fixed1(FixKind::Int { prim: *prim, be, expected: *const_, derived: false }))
            },
            TypeIn::Float { is64, byteorder } => {
                let be = big_endian(*byteorder, bo);
                Ok(fixed1(if *is64 { FixKind::F64 { be } } else { FixKind::F32 { be } }))
            },
            TypeIn::Bool { const_ } => Ok(fixed1(FixKind::Bool { expected: *const_ })),
            TypeIn::Raw { len, const_ } => {
                let n = match (len, const_) {
                    (Some(l), Some(c)) => {
                        if *l != c.len() {
                            return Err(err_str("raw: len does not match the length of const"));
                        }
                        *l
                    },
                    (Some(l), None) => *l,
                    (None, Some(c)) => c.len(),
                    (None, None) => return Err(err_str("raw: len or const is required")),
                };
                let expected = match const_ {
                    Some(c) => Some(c.clone()),
                    None => None,
                };
                Ok(fixed1(FixKind::Raw { len: n, expected }))
            },
            TypeIn::Bytes { len, max } => {
                let len = self.build_len(len, "bytes.len")?;
                let max = match max {
                    Some(m) => *m,
                    None => max_default,
                };
                Ok(Op::Bytes { len, max, c: Common::skip() })
            },
            TypeIn::StrT { len, max, encoding, errors } => {
                let len = self.build_len(len, "str.len")?;
                let max = match max {
                    Some(m) => *m,
                    None => max_default,
                };
                let enc = parse_enc(encoding.as_str(), errors.as_str())?;
                Ok(Op::Str { len, max, enc, c: Common::skip() })
            },
            TypeIn::CStrT { max, encoding, errors } => {
                let max = match max {
                    Some(m) => *m,
                    None => max_default,
                };
                let enc = parse_enc(encoding.as_str(), errors.as_str())?;
                Ok(Op::CStr { max, enc, c: Common::skip() })
            },
            TypeIn::FlagsT { base, byteorder, names, rest } => compile_flags(*base, *byteorder, names, rest, bo, Common::skip()),
            TypeIn::StructT { .. } => self.compile_nest(ty, bo, Common::skip(), false),
            TypeIn::ArrayT { .. } => self.compile_array(ty, bo, Common::skip()),
            TypeIn::SwitchT { .. } => self.compile_switch(ty, bo, Common::skip()),
            TypeIn::Bits { .. } => Err(err_str("bits is only allowed as a struct field")),
            TypeIn::DigestT { .. } => Err(err_str("digest is only allowed as a struct field")),
            TypeIn::CondT { .. } => Err(err_str("when is only allowed as a struct field")),
        }
    }
}

/// Compiles a schema into a program. Besides every field's own checks, a
/// schema nested deeper than unpacking allows is refused here.
pub fn compile(fields: &[FieldIn], opts: &Options) -> (r: Result<Program, SchemaError>)
    ensures
        r matches Ok(p) ==> prog_sizes_ok(p),
        r matches Ok(p) ==> prog_frames(p) <= MAX_DEPTH && p.min_size == ops_min_sum(p.ops@) && match p.static_size {
            Some(x) => ops_static_sum(p.ops@) == Some(x as nat),
            None => ops_static_sum(p.ops@) is None,
        },
        r matches Ok(p) ==> runs_sized(p.ops@),
        fixed_schema(fields@) ==> (r matches Ok(p) && fixed_run_of(p, fields@, opts.byteorder)
            && crate::fixed::static_run(p)),
        simple_schema(fields@) ==> (r matches Ok(p) && forall|k: int| 0 <= k < p.ops@.len() ==> flat_op(#[trigger] p.ops@[k])),
        simple_schema(fields@) ==> (r matches Ok(p) && p.ops@.len() == ops_for(fields@, fields@.len() as int)
            && forall|k: int| 0 <= k < fields@.len() ==> #[trigger] field_op(fields@, k, p.ops@, opts.byteorder, *opts)),
        len_tail(fields@) ==> (r matches Ok(p) && p.nregs == 1 && forall|q: int| #[trigger] tail_target(fields@, q)
            ==> tail_ops(fields@, q, p.ops@, opts.byteorder, *opts)),
        forall|j: int| #[trigger] dup_at(fields@, j) ==> (r matches Err(e)
            && e.msg@ == "duplicate field name "@ + debug_quoted(fields@[j].name->Some_0@) + " in scope"@),
        forall|j: int| #[trigger] tangled_len_at(fields@, j) ==> (r matches Err(e)
            && e.msg@ == "bytes.len"@ + ": expression is not invertible (must have the form a*ref + b)"@),
        forall|j: int| #[trigger] forward_len_at(fields@, j) ==> (r matches Err(e)
            && e.msg@ == unknown_ref_msg(len_ref_name(fields@[j]))),
        forall|j: int| #[trigger] size_mismatch_at(fields@, j) ==> (r matches Err(e) && e.msg@ == size_mismatch_msg(fields@[j].ty)),
        nest_chain(fields@) matches Some(d) ==> (if chain_frames(d) <= MAX_DEPTH {
            r matches Ok(p) && chain_prog(p, fields@, opts.byteorder)
        } else {
            r matches Err(e) && e.msg@ == "schema nests "@ + dec_chars(chain_frames(d))
                + " structs deep, more than the 64 unpacking allows (the schema itself is the outermost one)"@
        }),
{
    let mut c = C { opts: *opts, scopes: Vec::new() };
    proof {
        assert forall|j: int| #[trigger] forward_len_at(fields@, j) implies scopes_lack(c.scopes@, len_ref_name(fields@[j])) by {}
    }
    let prog = c.compile_scope(fields, opts.byteorder)?;
    proof {
        if simple_schema(fields@) {
            lemma_flat_frames(prog.ops@);
        }
        if len_tail(fields@) {
            let q = choose|q: int| #[trigger] tail_target(fields@, q);
            assert(tail_ops(fields@, q, prog.ops@, opts.byteorder, *opts));
            lemma_shallow_frames(prog.ops@);
        }
        if fixed_schema(fields@) {
            lemma_fixed_schema_static(prog, fields@, opts.byteorder);
            assert(prog.ops@.drop_last() =~= Seq::<Op>::empty());
            assert(ops_frames(Seq::<Op>::empty()) == 0);
            assert(op_frames(prog.ops@.last()) == 0);
            assert(ops_frames(prog.ops@) == 0);
        }
    }
    let frames = frame_depth(&prog);
    if frames > MAX_DEPTH {
        let mut m = string_of("schema nests ");
        push_decimal(&mut m, frames as u128);
        push_str(&mut m, " structs deep, more than the 64 unpacking allows (the schema itself is the outermost one)");
        return Err(err(m));
    }
    Ok(prog)
}

} // verus!
