use vstd::prelude::*;

use crate::error::Kind;
use crate::program::{Reg, MAX_REGS};

verus! {

/// One instruction of a postfix expression program. All arithmetic is i64.
#[derive(Debug, Clone, Copy, PartialEq)]
pub enum Ins {
    Imm(i64),
    Reg(Reg),
    Add,
    Sub,
    Mul,
    Div,
    Shl,
    Shr,
    And,
    Or,
    Xor,
    Eq,
    Ne,
    Lt,
    Le,
    Gt,
    Ge,
}

#[derive(Debug, Clone, PartialEq)]
pub struct Expr(pub Vec<Ins>);

/// How deep the evaluation stack of a compiled expression may grow.
pub const EXPR_STACK: usize = 8;

/// The registers of one scope: their values, and which of them are known
/// (bit `i` of `known` for register `i`).
#[derive(Debug, Clone, Copy)]
pub struct RegFrame {
    pub regs: [i64; 16],
    pub known: u16,
}

impl RegFrame {
    pub open spec fn is_known(&self, idx: int) -> bool {
        0 <= idx < 16 && (self.known >> (idx as u16)) & 1 == 1
    }

    pub fn new() -> (r: RegFrame)
        ensures
            r.regs@ == Seq::new(16, |i: int| 0i64),
            r.known == 0,
    {
        let r = RegFrame { regs: [0i64; 16], known: 0 };
        proof { assert(r.regs@ =~= Seq::new(16, |i: int| 0i64)); }
        r
    }
}

/// The value a register reads, if it can be read: the frame `up` levels
/// above the innermost one must exist, and, where `strict`, the register
/// must be known.
pub open spec fn reg_value(frames: Seq<RegFrame>, r: Reg, strict: bool) -> Option<i64> {
    if (r.up as int) < frames.len() && (r.idx as int) < MAX_REGS {
        let f = frames[frames.len() - 1 - r.up];
        if strict && !f.is_known(r.idx as int) {
            None
        } else {
            Some(f.regs[r.idx as int])
        }
    } else {
        None
    }
}

/// A binary operator applied to `a` (left) and `b` (right).
pub open spec fn apply_bin(ins: Ins, a: i64, b: i64) -> Result<i64, Kind> {
    match ins {
        Ins::Add => if i64::MIN <= a + b <= i64::MAX { Ok((a + b) as i64) } else { Err(Kind::Overflow) },
        Ins::Sub => if i64::MIN <= a - b <= i64::MAX { Ok((a - b) as i64) } else { Err(Kind::Overflow) },
        Ins::Mul => if i64::MIN <= a * b <= i64::MAX { Ok((a * b) as i64) } else { Err(Kind::Overflow) },
        Ins::Div => if b == 0 {
            Err(Kind::DivZero)
        } else {
            match a.checked_div(b) {
                Some(q) => Ok(q),
                None => Err(Kind::Overflow),
            }
        },
        Ins::Shl => if 0 <= b < 64 { Ok(a << (b as u64)) } else { Err(Kind::Overflow) },
        Ins::Shr => if 0 <= b < 64 { Ok(a >> (b as u64)) } else { Err(Kind::Overflow) },
        Ins::And => Ok(a & b),
        Ins::Or => Ok(a | b),
        Ins::Xor => Ok(a ^ b),
        Ins::Eq => Ok(if a == b { 1 } else { 0 }),
        Ins::Ne => Ok(if a != b { 1 } else { 0 }),
        Ins::Lt => Ok(if a < b { 1 } else { 0 }),
        Ins::Le => Ok(if a <= b { 1 } else { 0 }),
        Ins::Gt => Ok(if a > b { 1 } else { 0 }),
        Ins::Ge => Ok(if a >= b { 1 } else { 0 }),
        _ => Err(Kind::Overflow),
    }
}

/// The evaluation stack after running the first `n` instructions, or the
/// error the first failing instruction raises. An operator with fewer than
/// two operands below it (a program no compiler emits) fails with
/// `Overflow`; an unreadable register with `Missing`.
pub open spec fn run_prefix(ins: Seq<Ins>, n: nat, frames: Seq<RegFrame>, strict: bool) -> Result<Seq<i64>, Kind>
    decreases n,
{
    if n == 0 || n > ins.len() {
        Ok(Seq::empty())
    } else {
        match run_prefix(ins, (n - 1) as nat, frames, strict) {
            Err(k) => Err(k),
            Ok(st) => match ins[n - 1] {
                Ins::Imm(v) => Ok(st.push(v)),
                Ins::Reg(r) => match reg_value(frames, r, strict) {
                    Some(v) => Ok(st.push(v)),
                    None => Err(Kind::Missing),
                },
                op => if st.len() < 2 {
                    Err(Kind::Overflow)
                } else {
                    match apply_bin(op, st[st.len() - 2], st[st.len() - 1]) {
                        Ok(v) => Ok(st.subrange(0, st.len() - 2).push(v)),
                        Err(k) => Err(k),
                    }
                },
            },
        }
    }
}

/// The value of a postfix program: the bottom of the final stack (0 for an
/// empty program).
pub open spec fn eval_spec(ins: Seq<Ins>, frames: Seq<RegFrame>, strict: bool) -> Result<i64, Kind> {
    match run_prefix(ins, ins.len(), frames, strict) {
        Ok(st) => Ok(if st.len() > 0 { st[0] } else { 0 }),
        Err(k) => Err(k),
    }
}

/// The value of the program that pushes `a`, then `b`, then applies `op`.
pub open spec fn eval_pair(op: Ins, a: i64, b: i64) -> Result<i64, Kind> {
    eval_spec(seq![Ins::Imm(a), Ins::Imm(b), op], Seq::empty(), false)
}

/// Each comparison means its relation between the first operand and the
/// second: it gives 1 where the relation holds and 0 where it does not;
/// and addition, subtraction and multiplication give the exact result
/// where it fits in an `i64`, an overflow where it does not.
pub proof fn lemma_operators_mean_their_relations(a: i64, b: i64)
    ensures
        eval_pair(Ins::Eq, a, b) == Ok::<i64, Kind>(if a == b { 1 } else { 0 }),
        eval_pair(Ins::Ne, a, b) == Ok::<i64, Kind>(if a != b { 1 } else { 0 }),
        eval_pair(Ins::Lt, a, b) == Ok::<i64, Kind>(if a < b { 1 } else { 0 }),
        eval_pair(Ins::Le, a, b) == Ok::<i64, Kind>(if a <= b { 1 } else { 0 }),
        eval_pair(Ins::Gt, a, b) == Ok::<i64, Kind>(if a > b { 1 } else { 0 }),
        eval_pair(Ins::Ge, a, b) == Ok::<i64, Kind>(if a >= b { 1 } else { 0 }),
        eval_pair(Ins::Add, a, b) matches Ok(v) ==> v == a + b,
        eval_pair(Ins::Add, a, b) is Err <==> !(i64::MIN <= a + b <= i64::MAX),
        eval_pair(Ins::Sub, a, b) matches Ok(v) ==> v == a - b,
        eval_pair(Ins::Sub, a, b) is Err <==> !(i64::MIN <= a - b <= i64::MAX),
        eval_pair(Ins::Mul, a, b) matches Ok(v) ==> v == a * b,
        eval_pair(Ins::Mul, a, b) is Err <==> !(i64::MIN <= a * b <= i64::MAX),
{
    lemma_eval_pair(Ins::Eq, a, b);
    lemma_eval_pair(Ins::Ne, a, b);
    lemma_eval_pair(Ins::Lt, a, b);
    lemma_eval_pair(Ins::Le, a, b);
    lemma_eval_pair(Ins::Gt, a, b);
    lemma_eval_pair(Ins::Ge, a, b);
    lemma_eval_pair(Ins::Add, a, b);
    lemma_eval_pair(Ins::Sub, a, b);
    lemma_eval_pair(Ins::Mul, a, b);
}

/// Division truncates toward zero: by zero it is refused; otherwise the
/// quotient times the divisor lies between 0 and the dividend, less than
/// one divisor away from it, and only `i64::MIN / -1` overflows.
pub proof fn lemma_division_truncates(a: i64, b: i64)
    ensures
        b == 0 ==> eval_pair(Ins::Div, a, b) == Err::<i64, Kind>(Kind::DivZero),
        b != 0 ==> (eval_pair(Ins::Div, a, b) is Err <==> (a == i64::MIN && b == -1)),
        eval_pair(Ins::Div, a, b) matches Ok(q) ==> {
            &&& a >= 0 ==> 0 <= q * b <= a
            &&& a < 0 ==> a <= q * b <= 0
            &&& (if a - q * b >= 0 { a - q * b } else { q * b - a }) < (if b >= 0 { b as int } else { -b })
        },
{
    lemma_eval_pair(Ins::Div, a, b);
    if b != 0 {
        let x = a as int;
        let d = b as int;
        // |x| = |d| * m + r, 0 <= r < |d|; the quotient is m with the sign of x * d.
        let ax: int = if x >= 0 { x } else { -x };
        let ad: int = if d >= 0 { d } else { -d };
        vstd::arithmetic::div_mod::lemma_fundamental_div_mod(ax, ad);
        let m = ax / ad;
        let r = ax % ad;
        assert(0 <= r < ad);
        assert(ax == ad * m + r);
        assert(0 <= m) by (nonlinear_arith) requires ax >= 0, ad > 0, ax == ad * m + r, 0 <= r < ad;
        assert(m <= ax) by (nonlinear_arith) requires ax >= 0, ad > 0, ax == ad * m + r, 0 <= r < ad, 0 <= m;
        assert(ad >= 2 ==> 2 * m <= ax) by (nonlinear_arith) requires ax >= 0, ad > 0, ax == ad * m + r, 0 <= r < ad, 0 <= m;
        let out: int = if x == 0 { 0 } else if (x > 0) == (d > 0) { m } else { -m };
        if x > 0 && d > 0 {
            assert((x / d) == m);
        } else if x < 0 && d < 0 {
            assert((x * -1) / (d * -1) == m);
        } else if x < 0 {
            assert(((x * -1) / d) * -1 == -m);
        } else if x > 0 {
            assert((x / (d * -1)) * -1 == -m);
        } else {
            assert(m == 0) by (nonlinear_arith) requires ax == 0, ad > 0, ax == ad * m + r, 0 <= r < ad, 0 <= m;
        }
        assert(ad * m == ax - r);
        assert(out * d == (if (x >= 0) { ax - r } else { r - ax })) by (nonlinear_arith)
            requires out == (if x == 0 { 0 } else if (x > 0) == (d > 0) { m } else { -m }),
                ad == (if d >= 0 { d } else { -d }), ax == (if x >= 0 { x } else { -x }), ad * m == ax - r, d != 0,
                x == 0 ==> m == 0 && r == 0;
        if x == 0 {
            assert(r == 0) by (nonlinear_arith) requires ax == 0, ad > 0, ax == ad * m + r, 0 <= r < ad, 0 <= m;
        }
        if ad == 1 {
            assert(m == ax && r == 0) by (nonlinear_arith) requires ad == 1, ax == ad * m + r, 0 <= r < ad;
        }
        assert(i64::MIN <= out <= i64::MAX <==> !(a == i64::MIN && b == -1));
    }
}

proof fn lemma_eval_pair(op: Ins, a: i64, b: i64)
    requires
        !(op is Imm || op is Reg),
    ensures
        eval_pair(op, a, b) == apply_bin(op, a, b),
{
    let ins = seq![Ins::Imm(a), Ins::Imm(b), op];
    let fr = Seq::<RegFrame>::empty();
    assert(run_prefix(ins, 0, fr, false) == Ok::<Seq<i64>, Kind>(Seq::empty()));
    assert(Seq::<i64>::empty().push(a) =~= seq![a]);
    assert(seq![a].push(b) =~= seq![a, b]);
    assert(run_prefix(ins, 1, fr, false) == Ok::<Seq<i64>, Kind>(seq![a]));
    assert(run_prefix(ins, 2, fr, false) == Ok::<Seq<i64>, Kind>(seq![a, b]));
    let st = seq![a, b];
    if let Ok(v) = apply_bin(op, a, b) {
        assert(st.subrange(0, 0).push(v) =~= seq![v]);
        assert(run_prefix(ins, 3, fr, false) == Ok::<Seq<i64>, Kind>(seq![v]));
    }
}

fn read_reg(frames: &[RegFrame], r: Reg, strict: bool) -> (v: Option<i64>)
    ensures
        v == reg_value(frames@, r, strict),
{
    let up = r.up as usize;
    let idx = r.idx as usize;
    if up < frames.len() && idx < MAX_REGS {
        let f = &frames[frames.len() - 1 - up];
        let bit: u16 = (f.known >> (idx as u16)) & 1;
        if strict && bit != 1 {
            None
        } else {
            Some(f.regs[idx])
        }
    } else {
        None
    }
}

pub(crate) fn bin(ins: Ins, a: i64, b: i64) -> (r: Result<i64, Kind>)
    ensures
        r == apply_bin(ins, a, b),
{
    match ins {
        Ins::Add => match a.checked_add(b) {
            Some(v) => Ok(v),
            None => Err(Kind::Overflow),
        },
        Ins::Sub => match a.checked_sub(b) {
            Some(v) => Ok(v),
            None => Err(Kind::Overflow),
        },
        Ins::Mul => match a.checked_mul(b) {
            Some(v) => Ok(v),
            None => Err(Kind::Overflow),
        },
        Ins::Div => {
            if b == 0 {
                Err(Kind::DivZero)
            } else {
                match a.checked_div(b) {
                    Some(q) => Ok(q),
                    None => Err(Kind::Overflow),
                }
            }
        },
        Ins::Shl => {
            if 0 <= b && b < 64 {
                Ok(a << (b as u64))
            } else {
                Err(Kind::Overflow)
            }
        },
        Ins::Shr => {
            if 0 <= b && b < 64 {
                Ok(a >> (b as u64))
            } else {
                Err(Kind::Overflow)
            }
        },
        Ins::And => Ok(a & b),
        Ins::Or => Ok(a | b),
        Ins::Xor => Ok(a ^ b),
        Ins::Eq => Ok(if a == b { 1 } else { 0 }),
        Ins::Ne => Ok(if a != b { 1 } else { 0 }),
        Ins::Lt => Ok(if a < b { 1 } else { 0 }),
        Ins::Le => Ok(if a <= b { 1 } else { 0 }),
        Ins::Gt => Ok(if a > b { 1 } else { 0 }),
        Ins::Ge => Ok(if a >= b { 1 } else { 0 }),
        _ => Err(Kind::Overflow),
    }
}

impl Expr {
    pub fn imm(n: i64) -> (r: Expr)
        ensures
            r.0@ == seq![Ins::Imm(n)],
    {
        let mut v = Vec::new();
        v.push(Ins::Imm(n));
        Expr(v)
    }

    /// The constant value, if the expression is a single `Imm` (after
    /// constant folding in compile this covers all static lengths).
    pub fn as_const(&self) -> (r: Option<i64>)
        ensures
            match r {
                Some(n) => self.0@ == seq![Ins::Imm(n)],
                None => !(self.0@.len() == 1 && self.0@[0] is Imm),
            },
    {
        if self.0.len() == 1 {
            match self.0[0] {
                Ins::Imm(n) => {
                    proof { assert(self.0@ =~= seq![Ins::Imm(n)]); }
                    Some(n)
                },
                _ => None,
            }
        } else {
            None
        }
    }

    /// Evaluation against the register frames, innermost last. With
    /// `strict`, reading a register not yet known fails with `Missing`.
    pub fn eval(&self, frames: &[RegFrame], strict: bool) -> (r: Result<i64, Kind>)
        ensures
            r == eval_spec(self.0@, frames@, strict),
    {
        let ins = &self.0;
        let mut stack: Vec<i64> = Vec::new();
        let mut i: usize = 0;
        while i < ins.len()
            invariant
                ins@ == self.0@,
                i <= ins.len(),
                run_prefix(ins@, i as nat, frames@, strict) == Ok::<Seq<i64>, Kind>(stack@),
            decreases ins.len() - i,
        {
            let ghost prev = stack@;
            match ins[i] {
                Ins::Imm(n) => {
                    stack.push(n);
                },
                Ins::Reg(r) => {
                    match read_reg(frames, r, strict) {
                        Some(v) => stack.push(v),
                        None => {
                            proof {
                                assert(run_prefix(ins@, (i + 1) as nat, frames@, strict) == Err::<Seq<i64>, Kind>(Kind::Missing));
                                lemma_err_sticks(ins@, (i + 1) as nat, ins@.len(), frames@, strict);
                                assert(run_prefix(ins@, ins@.len(), frames@, strict) == Err::<Seq<i64>, Kind>(Kind::Missing));
                            }
                            return Err(Kind::Missing);
                        },
                    }
                },
                op => {
                    let len = stack.len();
                    if len < 2 {
                        proof {
                            assert(run_prefix(ins@, (i + 1) as nat, frames@, strict) == Err::<Seq<i64>, Kind>(Kind::Overflow));
                            lemma_err_sticks(ins@, (i + 1) as nat, ins@.len(), frames@, strict);
                            assert(run_prefix(ins@, ins@.len(), frames@, strict) == Err::<Seq<i64>, Kind>(Kind::Overflow));
                        }
                        return Err(Kind::Overflow);
                    }
                    let b = stack[len - 1];
                    let a = stack[len - 2];
                    match bin(op, a, b) {
                        Ok(v) => {
                            stack.pop();
                            stack.pop();
                            stack.push(v);
                            proof { assert(stack@ =~= prev.subrange(0, prev.len() - 2).push(v)); }
                        },
                        Err(k) => {
                            proof {
                                assert(run_prefix(ins@, (i + 1) as nat, frames@, strict) == Err::<Seq<i64>, Kind>(k));
                                lemma_err_sticks(ins@, (i + 1) as nat, ins@.len(), frames@, strict);
                            }
                            return Err(k);
                        },
                    }
                },
            }
            i = i + 1;
        }
        if stack.len() > 0 {
            Ok(stack[0])
        } else {
            Ok(0)
        }
    }
}

/// Once a prefix fails, every longer prefix fails the same way.
proof fn lemma_err_sticks(ins: Seq<Ins>, n: nat, m: nat, frames: Seq<RegFrame>, strict: bool)
    requires
        n <= m <= ins.len(),
        run_prefix(ins, n, frames, strict) is Err,
    ensures
        run_prefix(ins, m, frames, strict) == run_prefix(ins, n, frames, strict),
    decreases m - n,
{
    if m > n {
        lemma_err_sticks(ins, n, (m - 1) as nat, frames, strict);
    }
}

} // verus!
