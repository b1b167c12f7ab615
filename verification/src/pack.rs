use vstd::prelude::*;

use crate::codec::{
    bits_fit, bits_ored, bits_pattern, check_bits_range, int_bytes, lemma_pow2_64, lemma_pow2_mono,
    or_bits, pow2, pow2_exec, splice, uint_bytes, write_int_at, write_uint_at,
};
use crate::digest::{Algo, DigestVal, Hasher};
use crate::error::{format_path, Kind, PackFail, Seg};
use crate::expr::{eval_spec, Expr, RegFrame};
use crate::floats::{i128_to_f64_bits, int_to_f64_spec, narrow_f64_bits, narrow_spec};
use crate::program::{
    BitItem, CountSrc, Enc, FixKind, FixedItem, FlagItem, IntPrim, Inv, Key, LenSrc, Op, Over,
    Program, Reg, RestPolicy, MAX_REGS, MAX_SPANS,
};
use crate::text::{encode, encode_spec, str_eq, string_of};
use crate::value::{dict_get, Value};
use crate::encoding::{self as enc, PFailV, PkV, Resv, Slot};
use crate::decoding::{seg_view, SegV};
use crate::fixed::{item_bytes, items_plain, items_tile, offset_sum, run_bytes, static_pack, static_run};

verus! {

/// The outcome of packing.
#[derive(Debug)]
pub enum PackOutcome {
    Packed(Vec<u8>),
    Failed { kind: Kind, path: String },
}

impl PackOutcome {
    pub open spec fn view(&self) -> enc::PackedV {
        match *self {
            PackOutcome::Packed(b) => enc::PackedV::Packed(b@),
            PackOutcome::Failed { kind, path } => enc::PackedV::Failed(kind, path@),
        }
    }
}

// ---------- what a field reads from a value ----------

/// An integer field takes an int, or a bool as 0/1.
pub open spec fn int_of(v: Value) -> Option<int> {
    match v {
        Value::Int(i) => Some(i as int),
        Value::Bool(b) => Some(if b { 1int } else { 0int }),
        _ => None,
    }
}

/// A float field takes a float, or an int converted to the nearest double.
pub open spec fn float_bits_of(v: Value) -> Option<u64> {
    match v {
        Value::Float(f) => Some(f),
        Value::Int(i) => Some(int_to_f64_spec(i as int)),
        _ => None,
    }
}

/// Truthiness: a bool as it is, a number when non-zero (a float NaN
/// included), a string, bytes, list or map when non-empty.
pub open spec fn truthy_of(v: Value) -> Option<bool> {
    match v {
        Value::Bool(b) => Some(b),
        Value::Int(i) => Some(i != 0),
        Value::Float(f) => Some(f & 0x7FFF_FFFF_FFFF_FFFFu64 != 0),
        Value::Str(s) => Some(s@.len() > 0),
        Value::Bytes(b) => Some(b@.len() > 0),
        Value::List(l) => Some(l@.len() > 0),
        Value::Dict(m) => Some(m@.len() > 0),
        Value::Unsupported => None,
    }
}

pub fn as_int(v: &Value) -> (r: Option<i128>)
    ensures
        match int_of(*v) {
            Some(i) => r == Some(i as i128),
            None => r is None,
        },
{
    match v {
        Value::Int(i) => Some(*i),
        Value::Bool(b) => Some(if *b { 1i128 } else { 0i128 }),
        _ => None,
    }
}

pub fn as_float_bits(v: &Value) -> (r: Option<u64>)
    ensures
        r == float_bits_of(*v),
{
    match v {
        Value::Float(f) => Some(*f),
        Value::Int(i) => Some(i128_to_f64_bits(*i)),
        _ => None,
    }
}

pub fn truthy(v: &Value) -> (r: Option<bool>)
    ensures
        r == truthy_of(*v),
{
    match v {
        Value::Bool(b) => Some(*b),
        Value::Int(i) => Some(*i != 0),
        Value::Float(f) => Some(*f & 0x7FFF_FFFF_FFFF_FFFFu64 != 0),
        Value::Str(s) => {
            proof { reveal_strlit(""); }
            let e = str_eq(s.as_str(), "");
            proof {
                assert(""@.len() == 0);
                if s@.len() == 0 { assert(s@ =~= ""@); }
            }
            Some(!e)
        },
        Value::Bytes(b) => Some(b.len() > 0),
        Value::List(l) => Some(l.len() > 0),
        Value::Dict(m) => Some(m.len() > 0),
        Value::Unsupported => None,
    }
}

// ---------- inverting a derived length ----------

/// The value `x` a derived field must hold for `a*x + b` to equal
/// `actual`, or why there is none: `Range` where `actual - b` or the
/// quotient leaves `i64`, `Indivisible` where `a` does not divide
/// `actual - b` (or is zero).
pub open spec fn inverse(a: int, b: int, actual: int) -> Result<int, Kind> {
    if a == 0 {
        Err(Kind::Indivisible)
    } else if !(i64::MIN <= actual - b <= i64::MAX) {
        Err(Kind::Range)
    } else if (actual - b) % a != 0 {
        Err(Kind::Indivisible)
    } else if !(i64::MIN <= (actual - b) / a <= i64::MAX) {
        Err(Kind::Range)
    } else {
        Ok((actual - b) / a)
    }
}

/// A derived field solves its expression: where the inversion of
/// `value = a*x + b` gives `x`, then `a*x + b` is the value the field
/// describes.
pub proof fn lemma_inverse_solves(a: int, b: int, actual: int)
    ensures
        inverse(a, b, actual) matches Ok(x) ==> a * x + b == actual,
{
    if a != 0 {
        let d = actual - b;
        vstd::arithmetic::div_mod::lemma_fundamental_div_mod(d, a);
    }
}

/// The inversion fails only where no solution exists: whenever some `x` in
/// `i64` satisfies `a*x + b == actual` (with `actual - b` in `i64`), the
/// inversion gives exactly that `x`.
pub proof fn lemma_inverse_complete(a: int, b: int, actual: int, x: int)
    requires
        a != 0,
        a * x + b == actual,
        i64::MIN <= x <= i64::MAX,
        i64::MIN <= actual - b <= i64::MAX,
    ensures
        inverse(a, b, actual) == Ok::<int, Kind>(x),
{
    let d = actual - b;
    assert(d % a == 0 && d / a == x) by (nonlinear_arith)
        requires d == actual - b, a * x + b == actual, a != 0;
}

fn solve_inverse(a: i64, b: i64, actual: i64) -> (r: Result<i64, Kind>)
    ensures
        match inverse(a as int, b as int, actual as int) {
            Ok(x) => r == Ok::<i64, Kind>(x as i64),
            Err(k) => r == Err::<i64, Kind>(k),
        },
{
    if a == 0 {
        return Err(Kind::Indivisible);
    }
    let d = match actual.checked_sub(b) {
        Some(d) => d,
        None => return Err(Kind::Range),
    };
    if d == i64::MIN && a == -1 {
        // Divisible, but the quotient 2^63 leaves i64.
        proof {
            let di = d as int;
            let ai = a as int;
            assert(di % ai == 0 && di / ai == 0x8000_0000_0000_0000int) by (nonlinear_arith)
                requires di == -0x8000_0000_0000_0000int, ai == -1;
        }
        return Err(Kind::Range);
    }
    let rem = match d.checked_rem_euclid(a) {
        Some(r) => r,
        None => return Err(Kind::Range),
    };
    if rem != 0 {
        return Err(Kind::Indivisible);
    }
    match d.checked_div_euclid(a) {
        Some(x) => Ok(x),
        None => Err(Kind::Range),
    }
}


// ---------- the state of the scopes being packed ----------

/// A slot lies within an output of `len` bytes.
spec fn slot_fits(s: Slot, len: nat) -> bool {
    match s {
        Slot::Int { pos, prim, .. } => pos + prim.spec_width() <= len,
        Slot::Bits { base, bit_off, width, .. } => 1 <= width <= 64 && base + (bit_off + width + 7) / 8 <= len
            && bit_off + width <= u32::MAX,
    }
}

/// The registers, reservations and span registers of every open struct
/// scope, innermost last.
struct PFrames {
    regs: Vec<RegFrame>,
    res: Vec<[Option<Resv>; 16]>,
    spans: Vec<[(usize, usize); 16]>,
}

impl PFrames {
    /// The three stacks agree and every reservation lies within an output
    /// of `len` bytes.
    spec fn wf(&self, len: nat) -> bool {
        &&& self.regs@.len() == self.res@.len()
        &&& self.res@.len() == self.spans@.len()
        &&& forall|f: int, i: int| 0 <= f < self.res@.len() && 0 <= i < 16
            ==> (#[trigger] self.res@[f]@[i] matches Some(rv) ==> slot_fits(rv.slot, len))
    }

    spec fn depth(&self) -> nat {
        self.regs@.len()
    }
}

/// The state of a pack as the contracts see it.
spec fn pk(out: Seq<u8>, fr: PFrames) -> PkV {
    PkV { out, regs: fr.regs@, res: fr.res@, spans: fr.spans@ }
}

/// A failure as the contracts see it.
pub open spec fn pfail_view(e: PackFail) -> PFailV {
    PFailV { kind: e.kind, path: e.path@.map_values(|s: Seg| seg_view(s)) }
}

/// A fresh failure of `kind`.
fn fail(kind: Kind) -> (r: PackFail)
    ensures
        r.kind == kind,
        r.path@.len() == 0,
        pfail_view(r) == enc::pfail(kind),
{
    let r = PackFail::new(kind);
    proof { assert(r.path@.map_values(|s: Seg| seg_view(s)) =~= Seq::<SegV>::empty()); }
    r
}

/// A failure with one more (outer) path segment.
fn push_seg(e: PackFail, sg: Seg) -> (r: PackFail)
    ensures
        r.kind == e.kind,
        pfail_view(r) == enc::pseg(pfail_view(e), seg_view(sg)),
{
    let ghost e0 = e;
    let r = e.seg(sg);
    proof { assert(r.path@.map_values(|s: Seg| seg_view(s)) =~= e0.path@.map_values(|s: Seg| seg_view(s)).push(seg_view(sg))); }
    r
}

proof fn lemma_wf_grow(fr: PFrames, a: nat, b: nat)
    requires
        fr.wf(a),
        a <= b,
    ensures
        fr.wf(b),
{
    assert forall|f: int, i: int| 0 <= f < fr.res@.len() && 0 <= i < 16
        implies (#[trigger] fr.res@[f]@[i] matches Some(rv) ==> slot_fits(rv.slot, b)) by {
        if let Some(rv) = fr.res@[f]@[i] {
            assert(slot_fits(rv.slot, a));
        }
    }
}

proof fn lemma_known_bit(k: u16, i: u16)
    requires
        i < 16,
    ensures
        ((k | (1u16 << i)) >> i) & 1 == 1,
{
    assert(((k | (1u16 << i)) >> i) & 1 == 1) by (bit_vector) requires i < 16;
}

/// Writes register `idx` of the innermost scope and marks it known.
fn set_reg(fr: &mut PFrames, idx: Option<u8>, v: i64, Ghost(o): Ghost<Seq<u8>>)
    requires
        old(fr).wf(o.len()),
    ensures
        final(fr).wf(o.len()),
        pk(o, *final(fr)) == enc::set_reg(pk(o, *old(fr)), idx, v),
        final(fr).depth() == old(fr).depth(),
        final(fr).res@ == old(fr).res@,
        final(fr).spans@ == old(fr).spans@,
{
    if let Some(i) = idx {
        let n = fr.regs.len();
        if n > 0 && (i as usize) < MAX_REGS {
            let mut f = fr.regs[n - 1];
            f.regs[i as usize] = v;
            f.known = f.known | (1u16 << (i as u16));
            proof { assert(f.regs =~= vstd::array::spec_array_update(old(fr).regs@[n - 1].regs, i as int, v)); }
            fr.regs.set(n - 1, f);
        }
    }
}

/// Records span register `idx` of the innermost scope.
fn set_span(fr: &mut PFrames, idx: Option<u8>, start: usize, end: usize, Ghost(o): Ghost<Seq<u8>>)
    requires
        old(fr).wf(o.len()),
    ensures
        final(fr).wf(o.len()),
        pk(o, *final(fr)) == enc::set_span(pk(o, *old(fr)), idx, start, end),
        final(fr).depth() == old(fr).depth(),
        final(fr).regs@ == old(fr).regs@,
        final(fr).res@ == old(fr).res@,
{
    if let Some(i) = idx {
        let n = fr.spans.len();
        if n > 0 && (i as usize) < MAX_SPANS {
            let mut s = fr.spans[n - 1];
            s[i as usize] = (start, end);
            proof { assert(s =~= vstd::array::spec_array_update(old(fr).spans@[n - 1], i as int, (start, end))); }
            fr.spans.set(n - 1, s);
        }
    }
}

/// Reserves register `reg` of the innermost scope for a derived field.
fn reserve(fr: &mut PFrames, reg: u8, slot: Slot, Ghost(o): Ghost<Seq<u8>>)
    requires
        old(fr).wf(o.len()),
        slot_fits(slot, o.len()),
    ensures
        final(fr).wf(o.len()),
        pk(o, *final(fr)) == enc::reserve(pk(o, *old(fr)), reg, slot),
        final(fr).depth() == old(fr).depth(),
        final(fr).regs@ == old(fr).regs@,
        final(fr).spans@ == old(fr).spans@,
{
    let n = fr.res.len();
    if n > 0 && (reg as usize) < MAX_REGS {
        let mut row = fr.res[n - 1];
        row[reg as usize] = Some(Resv { slot, value: None });
        let ghost before = fr.res@;
        fr.res.set(n - 1, row);
        proof {
            assert(row =~= vstd::array::spec_array_update(before[n - 1], reg as int, Some(Resv { slot, value: None })));
            assert forall|f: int, i: int| 0 <= f < fr.res@.len() && 0 <= i < 16
                implies (#[trigger] fr.res@[f]@[i] matches Some(rv) ==> slot_fits(rv.slot, o.len())) by {
                if f != n - 1 || i != reg as int {
                    assert(fr.res@[f]@[i] == before[f]@[i]);
                }
            }
        }
    }
}

/// Evaluates `expr` against the registers known so far: reading one not
/// yet known fails with `Missing`.
fn eval(fr: &PFrames, expr: &Expr) -> (r: Result<i64, PackFail>)
    ensures
        match eval_spec(expr.0@, fr.regs@, true) {
            Ok(v) => r == Ok::<i64, PackFail>(v),
            Err(k) => r matches Err(e) && e.kind == k && e.path@.len() == 0 && pfail_view(e) == enc::pfail(k),
        },
        match enc::eval(fr.regs@, *expr) {
            Ok(v) => r == Ok::<i64, PackFail>(v),
            Err(f) => r matches Err(e) && pfail_view(e) == f,
        },
{
    match expr.eval(fr.regs.as_slice(), true) {
        Ok(v) => Ok(v),
        Err(k) => Err(fail(k)),
    }
}

/// The `width`-bit pattern of `v`.
fn bits_pattern_exec(v: i128, width: u8, signed: bool) -> (r: u64)
    requires
        1 <= width <= 64,
        bits_fit(v as int, width as nat, signed),
    ensures
        r == bits_pattern(v as int, width as nat),
{
    proof { lemma_pow2_64(); lemma_pow2_mono(width as nat, 64); }
    let p = pow2_exec(width as u32);
    if v < 0 {
        (v + p as i128) as u64
    } else {
        v as u64
    }
}

/// The bytes of `out` once a reserved slot holds `x`.
spec fn patched(old: Seq<u8>, new: Seq<u8>, slot: Slot, x: int) -> bool {
    match slot {
        Slot::Int { pos, prim, be } => new == splice(old, pos as int, int_bytes(prim, be, x)),
        Slot::Bits { base, bit_off, width, .. } => bits_ored(old, new, base * 8 + bit_off, width as nat,
            bits_pattern(x, width as nat) as u64),
    }
}

/// Gives a derived field its value: `x` with `a*x + b == actual`. The
/// register's reserved slot is written and the register becomes known; a
/// register already holding a value must hold `x`.
fn apply_inv(out: &mut Vec<u8>, fr: &mut PFrames, inv: &Inv, actual: i64) -> (r: Result<(), PackFail>)
    requires
        old(fr).wf(old(out)@.len()),
    ensures
        final(fr).wf(final(out)@.len()),
        final(fr).depth() == old(fr).depth(),
        final(fr).spans@ == old(fr).spans@,
        final(out)@.len() == old(out)@.len(),
        r is Ok ==> inverse(inv.a as int, inv.b as int, actual as int) is Ok,
        match inverse(inv.a as int, inv.b as int, actual as int) {
            Ok(x) => r is Ok ==> {
                let fi = old(fr).depth() - 1 - inv.reg.up;
                let i = inv.reg.idx as int;
                &&& 0 <= fi < old(fr).depth()
                &&& 0 <= i < 16
                &&& match old(fr).res@[fi]@[i] {
                    Some(rv) => match rv.value {
                        None => patched(old(out)@, final(out)@, rv.slot, x)
                            && final(fr).regs@[fi].regs[i] == x && final(fr).regs@[fi].is_known(i),
                        Some(p) => p == x && final(out)@ == old(out)@ && final(fr).regs@ == old(fr).regs@,
                    },
                    None => old(fr).regs@[fi].regs[i] == x && old(fr).regs@[fi].is_known(i)
                        && final(out)@ == old(out)@ && final(fr).regs@ == old(fr).regs@,
                }
            },
            Err(k) => r matches Err(e) && e.kind == k,
        },
        match enc::apply_inv(pk(old(out)@, *old(fr)), *inv, actual as int) {
            Ok(st) => r is Ok && pk(final(out)@, *final(fr)) == st,
            Err(f) => r matches Err(e) && pfail_view(e) == f,
        },
{
    let x = match solve_inverse(inv.a, inv.b, actual) {
        Ok(x) => x,
        Err(k) => return Err(fail(k)),
    };
    let depth = fr.regs.len();
    let up = inv.reg.up as usize;
    let idx = inv.reg.idx as usize;
    if up >= depth || idx >= MAX_REGS {
        return Err(fail(Kind::Inconsistent));
    }
    let fi = depth - 1 - up;
    let rf = fr.regs[fi];
    let row = fr.res[fi];
    match row[idx] {
        None => {
            // A target that is not derived (a const field): the values must match.
            if (rf.known >> (idx as u16)) & 1 == 1 && rf.regs[idx] == x {
                Ok(())
            } else {
                Err(fail(Kind::Inconsistent))
            }
        },
        Some(rv) => match rv.value {
            Some(prev) => {
                // Several consumers of one derived field must agree.
                if prev != x {
                    Err(fail(Kind::Inconsistent))
                } else {
                    Ok(())
                }
            },
            None => {
                proof { assert(slot_fits(rv.slot, out@.len())); }
                let ghost before = out@;
                match rv.slot {
                    Slot::Int { pos, prim, be } => {
                        match write_int_at(out.as_mut_slice(), pos, prim, be, x as i128) {
                            Ok(()) => {},
                            Err(_) => return Err(fail(Kind::Range)),
                        }
                    },
                    Slot::Bits { base, bit_off, width, signed } => {
                        if !check_bits_range(x as i128, width, signed) {
                            return Err(fail(Kind::Range));
                        }
                        let pat = bits_pattern_exec(x as i128, width, signed);
                        or_bits(out.as_mut_slice(), base, bit_off, width, pat);
                        proof { enc::lemma_or_into(before, out@, base * 8 + bit_off, width as nat, pat); }
                    },
                }
                proof {
                    match rv.slot {
                        Slot::Int { pos, prim, be } => {
                            crate::codec::lemma_uint_bytes_len(crate::codec::twos(x as int, prim.spec_width()), prim.spec_width(), be);
                        },
                        _ => {},
                    }
                    assert(out@.len() == before.len());
                }
                let mut row2 = row;
                row2[idx] = Some(Resv { slot: rv.slot, value: Some(x) });
                proof { assert(row2 =~= vstd::array::spec_array_update(row, idx as int, Some(Resv { slot: rv.slot, value: Some(x) }))); }
                let ghost res_before = fr.res@;
                fr.res.set(fi, row2);
                proof {
                    let len = out@.len();
                    assert forall|f: int, i: int| 0 <= f < fr.res@.len() && 0 <= i < 16
                        implies (#[trigger] fr.res@[f]@[i] matches Some(q) ==> slot_fits(q.slot, len)) by {
                        if f != fi as int || i != idx as int {
                            assert(fr.res@[f]@[i] == res_before[f]@[i]);
                        }
                    }
                }
                let mut f = rf;
                f.regs[idx] = x;
                f.known = f.known | (1u16 << (idx as u16));
                proof {
                    lemma_known_bit(rf.known, idx as u16);
                    assert(f.regs =~= vstd::array::spec_array_update(rf.regs, idx as int, x));
                }
                fr.regs.set(fi, f);
                Ok(())
            },
        },
    }
}


/// A length or count given by `expr` learns its value from what was
/// written, `actual` bytes or elements: with an inversion it derives its
/// field; without, the expression is a constant that must equal `actual`.
fn finish_count(out: &mut Vec<u8>, fr: &mut PFrames, expr: &Expr, inv: &Option<Inv>, actual: usize) -> (r: Result<(), PackFail>)
    requires
        old(fr).wf(old(out)@.len()),
    ensures
        final(fr).wf(final(out)@.len()),
        final(fr).depth() == old(fr).depth(),
        final(fr).spans@ == old(fr).spans@,
        final(out)@.len() == old(out)@.len(),
        match inv {
            None => final(out)@ == old(out)@ && (r is Ok <==> (expr.0@.len() == 1
                && (expr.0@[0] matches crate::expr::Ins::Imm(n) && n == actual))),
            Some(inv) => r is Ok ==> actual <= i64::MAX && inverse(inv.a as int, inv.b as int, actual as int) is Ok,
        },
        match enc::finish_count(pk(old(out)@, *old(fr)), *expr, *inv, actual as int) {
            Ok(st) => r is Ok && pk(final(out)@, *final(fr)) == st,
            Err(f) => r matches Err(e) && pfail_view(e) == f,
        },
{
    match inv {
        Some(inv) => {
            if actual as u64 > i64::MAX as u64 {
                return Err(fail(Kind::Range));
            }
            apply_inv(out, fr, inv, actual as i64)
        },
        None => {
            match expr.as_const() {
                Some(n) => {
                    if n < 0 || n as u64 != actual as u64 {
                        Err(fail(Kind::Length))
                    } else {
                        Ok(())
                    }
                },
                None => Err(fail(Kind::Length)),
            }
        },
    }
}

/// A length field learns its value from the bytes written (see
/// `finish_count`); a greedy length has nothing to learn.
fn finish_len(out: &mut Vec<u8>, fr: &mut PFrames, len: &LenSrc, actual: usize) -> (r: Result<(), PackFail>)
    requires
        old(fr).wf(old(out)@.len()),
    ensures
        final(fr).wf(final(out)@.len()),
        final(fr).depth() == old(fr).depth(),
        final(fr).spans@ == old(fr).spans@,
        final(out)@.len() == old(out)@.len(),
        match len {
            LenSrc::Greedy => r is Ok && final(out)@ == old(out)@,
            LenSrc::Expr { expr, inv: None } => final(out)@ == old(out)@ && (r is Ok <==> (expr.0@.len() == 1
                && (expr.0@[0] matches crate::expr::Ins::Imm(n) && n == actual))),
            LenSrc::Expr { inv: Some(inv), .. } => r is Ok ==> actual <= i64::MAX
                && inverse(inv.a as int, inv.b as int, actual as int) is Ok,
        },
        match enc::finish_len(pk(old(out)@, *old(fr)), *len, actual as int) {
            Ok(st) => r is Ok && pk(final(out)@, *final(fr)) == st,
            Err(f) => r matches Err(e) && pfail_view(e) == f,
        },
{
    match len {
        LenSrc::Greedy => Ok(()),
        LenSrc::Expr { expr, inv } => finish_count(out, fr, expr, inv, actual),
    }
}

// ---------- fields of fixed width ----------

/// The integer an integer or bits field takes from its input `v`: a
/// missing input is an error for a named field and 0 for an unnamed one.
pub open spec fn field_int(v: Option<&Value>, key: Key) -> Result<int, Kind> {
    match v {
        Some(x) => match int_of(*x) {
            Some(i) => Ok(i),
            None => Err(Kind::Type),
        },
        None => if key is Named { Err(Kind::Missing) } else { Ok(0) },
    }
}

/// The bits of the double a float field takes from its input.
pub open spec fn field_float(v: Option<&Value>, key: Key) -> Result<u64, Kind> {
    match v {
        Some(x) => match float_bits_of(*x) {
            Some(f) => Ok(f),
            None => Err(Kind::Type),
        },
        None => if key is Named { Err(Kind::Missing) } else { Ok(0) },
    }
}

/// The truth value a bool field takes from its input.
pub open spec fn field_bool(v: Option<&Value>, key: Key) -> Result<bool, Kind> {
    match v {
        Some(x) => match truthy_of(*x) {
            Some(b) => Ok(b),
            None => Err(Kind::Type),
        },
        None => if key is Named { Err(Kind::Missing) } else { Ok(false) },
    }
}

fn input_int(v: Option<&Value>, key: &Key) -> (r: Result<i128, PackFail>)
    ensures
        match field_int(v, *key) {
            Ok(i) => r == Ok::<i128, PackFail>(i as i128),
            Err(k) => r matches Err(e) && e.kind == k && e.path@.len() == 0 && pfail_view(e) == enc::pfail(k),
        },
{
    match v {
        Some(x) => match as_int(x) {
            Some(i) => Ok(i),
            None => Err(fail(Kind::Type)),
        },
        None => match key {
            Key::Named(_) => Err(fail(Kind::Missing)),
            Key::Skip => Ok(0),
        },
    }
}

fn input_float(v: Option<&Value>, key: &Key) -> (r: Result<u64, PackFail>)
    ensures
        match field_float(v, *key) {
            Ok(f) => r == Ok::<u64, PackFail>(f),
            Err(k) => r matches Err(e) && e.kind == k && e.path@.len() == 0 && pfail_view(e) == enc::pfail(k),
        },
{
    match v {
        Some(x) => match as_float_bits(x) {
            Some(f) => Ok(f),
            None => Err(fail(Kind::Type)),
        },
        None => match key {
            Key::Named(_) => Err(fail(Kind::Missing)),
            Key::Skip => Ok(0),
        },
    }
}

fn input_bool(v: Option<&Value>, key: &Key) -> (r: Result<bool, PackFail>)
    ensures
        match field_bool(v, *key) {
            Ok(b) => r == Ok::<bool, PackFail>(b),
            Err(k) => r matches Err(e) && e.kind == k && e.path@.len() == 0 && pfail_view(e) == enc::pfail(k),
        },
{
    match v {
        Some(x) => match truthy(x) {
            Some(b) => Ok(b),
            None => Err(fail(Kind::Type)),
        },
        None => match key {
            Key::Named(_) => Err(fail(Kind::Missing)),
            Key::Skip => Ok(false),
        },
    }
}

proof fn lemma_splice_len(out: Seq<u8>, pos: int, bytes: Seq<u8>)
    requires
        0 <= pos,
        pos + bytes.len() <= out.len(),
    ensures
        splice(out, pos, bytes).len() == out.len(),
{
}

proof fn lemma_int_bytes_len(prim: IntPrim, be: bool, v: int)
    ensures
        int_bytes(prim, be, v).len() == prim.spec_width(),
{
    crate::codec::lemma_uint_bytes_len(crate::codec::twos(v, prim.spec_width()), prim.spec_width(), be);
}

/// Appends `n` zero bytes.
fn push_zeros(out: &mut Vec<u8>, n: usize)
    ensures
        final(out)@ == old(out)@ + Seq::new(n as nat, |i: int| 0u8),
{
    let mut k: usize = 0;
    while k < n
        invariant
            k <= n,
            out@ == old(out)@ + Seq::new(k as nat, |i: int| 0u8),
        decreases n - k,
    {
        out.push(0);
        k = k + 1;
        proof { assert(out@ =~= old(out)@ + Seq::new(k as nat, |i: int| 0u8)); }
    }
}

/// Writes `bytes` over `out` starting at `pos`.
fn copy_into(out: &mut Vec<u8>, pos: usize, bytes: &[u8])
    requires
        pos + bytes@.len() <= old(out)@.len(),
    ensures
        final(out)@ == splice(old(out)@, pos as int, bytes@),
{
    let olen = out.len();
    let mut k: usize = 0;
    while k < bytes.len()
        invariant
            olen == out@.len(),
            k <= bytes@.len(),
            pos + bytes@.len() <= old(out)@.len(),
            out@.len() == old(out)@.len(),
            forall|j: int| 0 <= j < out@.len() ==> #[trigger] out@[j] == if pos <= j < pos + k {
                bytes@[j - pos]
            } else {
                old(out)@[j]
            },
        decreases bytes@.len() - k,
    {
        out.set(pos + k, bytes[k]);
        k = k + 1;
    }
    proof { assert(out@ =~= splice(old(out)@, pos as int, bytes@)); }
}

/// Packs one item of a run of fixed fields that starts at `base` and ends
/// at `end` (zeroed already), from its input `v`.
#[verifier::rlimit(50)]
fn pack_fixed_item(
    out: &mut Vec<u8>,
    fr: &mut PFrames,
    base: usize,
    end: usize,
    item: &FixedItem,
    v: Option<&Value>,
) -> (r: Result<(), PackFail>)
    requires
        old(fr).wf(old(out)@.len()),
        base <= end <= old(out)@.len(),
    ensures
        final(fr).wf(final(out)@.len()),
        final(fr).depth() == old(fr).depth(),
        final(out)@.len() == old(out)@.len(),
        r is Ok ==> item.off + item.kind.spec_width() <= end - base,
        ({
            let pos = base + item.off;
            match item.kind {
                FixKind::Int { prim, be, expected: Some(x), .. } => r is Ok ==> final(out)@ == splice(old(out)@, pos, int_bytes(prim, be, x as int)),
                FixKind::Int { prim, be, expected: None, derived: false } => {
                    &&& r is Ok ==> (field_int(v, item.key) matches Ok(i) && final(out)@ == splice(old(out)@, pos, int_bytes(prim, be, i)))
                    &&& (item.off + item.kind.spec_width() <= end - base && (field_int(v, item.key) matches Ok(i)
                        && prim.spec_min() <= i <= prim.spec_max())) ==> r is Ok
                    &&& item.off + item.kind.spec_width() <= end - base ==> (field_int(v, item.key) matches Err(k)
                        ==> (r matches Err(e) && e.kind == k))
                },
                FixKind::Int { expected: None, derived: true, .. } => final(out)@ == old(out)@,
                FixKind::F64 { be } => r is Ok ==> (field_float(v, item.key) matches Ok(f)
                    && final(out)@ == splice(old(out)@, pos, uint_bytes(f as nat, 8, be))),
                FixKind::F32 { be } => r is Ok ==> (field_float(v, item.key) matches Ok(f)
                    && final(out)@ == splice(old(out)@, pos, uint_bytes(narrow_spec(f) as nat, 4, be))),
                FixKind::Bool { expected: Some(b) } => r is Ok ==> final(out)@ == old(out)@.update(pos, if b { 1u8 } else { 0u8 }),
                FixKind::Bool { expected: None } => r is Ok ==> (field_bool(v, item.key) matches Ok(b)
                    && final(out)@ == old(out)@.update(pos, if b { 1u8 } else { 0u8 })),
                FixKind::Raw { expected: Some(x), .. } => r is Ok ==> final(out)@ == splice(old(out)@, pos, x@),
                FixKind::Raw { expected: None, .. } => r is Ok ==> match v {
                    Some(Value::Bytes(b)) => final(out)@ == splice(old(out)@, pos, b@),
                    None => item.key is Skip && final(out)@ == old(out)@,
                    _ => false,
                },
            }
        }),
        (item.key is Named && !(item.kind matches FixKind::Int { expected: None, derived: true, .. })
            && item.off + item.kind.spec_width() <= end - base) ==> {
            let bytes = item_bytes(*item, match v { Some(x) => Some(*x), None => None });
            &&& (r is Ok <==> bytes is Some)
            &&& (r is Ok ==> final(out)@ == splice(old(out)@, base + item.off, bytes->Some_0))
        },
        match enc::fixed_item(pk(old(out)@, *old(fr)), base as int, end as int, *item, match v { Some(x) => Some(*x), None => None }) {
            Ok(st) => r is Ok && pk(final(out)@, *final(fr)) == st,
            Err(f) => r matches Err(e) && pfail_view(e) == f,
        },
{
    let w = item.kind.width();
    if item.off > end - base || w > end - base - item.off {
        return Err(fail(Kind::Length));
    }
    let pos = base + item.off;
    let ghost len = out@.len();
    match &item.kind {
        FixKind::Int { prim, be, expected, derived } => {
            match expected {
                Some(x) => {
                    proof {
                        lemma_int_bytes_len(*prim, *be, *x as int);
                        lemma_splice_len(out@, pos as int, int_bytes(*prim, *be, *x as int));
                    }
                    match write_int_at(out.as_mut_slice(), pos, *prim, *be, *x) {
                        Ok(()) => {},
                        Err(_) => return Err(fail(Kind::Range)),
                    }
                    set_reg(fr, item.reg, *x as i64, Ghost(out@));
                },
                None => {
                    if *derived {
                        match item.reg {
                            Some(reg) => reserve(fr, reg, Slot::Int { pos, prim: *prim, be: *be }, Ghost(out@)),
                            None => return Err(fail(Kind::Inconsistent)),
                        }
                    } else {
                        let val = input_int(v, &item.key)?;
                        proof {
                            lemma_int_bytes_len(*prim, *be, val as int);
                            lemma_splice_len(out@, pos as int, int_bytes(*prim, *be, val as int));
                        }
                        match write_int_at(out.as_mut_slice(), pos, *prim, *be, val) {
                            Ok(()) => {},
                            Err(_) => return Err(fail(Kind::Range)),
                        }
                        set_reg(fr, item.reg, val as i64, Ghost(out@));
                    }
                },
            }
            proof {
                lemma_wf_grow(*fr, len, out@.len());
            }
            set_span(fr, item.span, pos, pos + w, Ghost(out@));
            Ok(())
        },
        FixKind::F32 { be } => {
            let f = input_float(v, &item.key)?;
            let b = narrow_f64_bits(f);
            proof {
                crate::codec::lemma_uint_bytes_len(b as nat, 4, *be);
                lemma_splice_len(out@, pos as int, uint_bytes(b as nat, 4, *be));
            }
            write_uint_at(out.as_mut_slice(), pos, 4, *be, b as u64);
            set_span(fr, item.span, pos, pos + 4, Ghost(out@));
            Ok(())
        },
        FixKind::F64 { be } => {
            let f = input_float(v, &item.key)?;
            proof {
                crate::codec::lemma_uint_bytes_len(f as nat, 8, *be);
                lemma_splice_len(out@, pos as int, uint_bytes(f as nat, 8, *be));
            }
            write_uint_at(out.as_mut_slice(), pos, 8, *be, f);
            set_span(fr, item.span, pos, pos + 8, Ghost(out@));
            Ok(())
        },
        FixKind::Bool { expected } => {
            let val = match expected {
                Some(b) => *b,
                None => input_bool(v, &item.key)?,
            };
            out.set(pos, if val { 1u8 } else { 0u8 });
            proof {
                assert(out@ =~= splice(old(out)@, pos as int, seq![if val { 1u8 } else { 0u8 }]));
            }
            set_span(fr, item.span, pos, pos + 1, Ghost(out@));
            Ok(())
        },
        FixKind::Raw { len: n, expected } => {
            match expected {
                Some(x) => {
                    if x.len() != *n {
                        return Err(fail(Kind::Length));
                    }
                    proof { lemma_splice_len(out@, pos as int, x@); }
                    copy_into(out, pos, x.as_slice());
                },
                None => match v {
                    Some(Value::Bytes(b)) => {
                        if b.len() != *n {
                            return Err(fail(Kind::Length));
                        }
                        proof { lemma_splice_len(out@, pos as int, b@); }
                        copy_into(out, pos, b.as_slice());
                    },
                    Some(_) => return Err(fail(Kind::Type)),
                    None => {
                        if let Key::Named(_) = &item.key {
                            return Err(fail(Kind::Missing));
                        }
                        // An unnamed raw field stays zeros.
                    },
                },
            }
            set_span(fr, item.span, pos, pos + *n, Ghost(out@));
            Ok(())
        },
    }
}


/// Packs one field of a run of bits fields: `width` bits at bit `bit_off`
/// of the run of `nbytes` bytes (zeroed already) at `base`.
fn pack_bit_item(
    out: &mut Vec<u8>,
    fr: &mut PFrames,
    base: usize,
    nbytes: usize,
    bit_off: u32,
    item: &BitItem,
    v: Option<&Value>,
) -> (r: Result<(), PackFail>)
    requires
        old(fr).wf(old(out)@.len()),
        base + nbytes <= old(out)@.len(),
    ensures
        final(fr).wf(final(out)@.len()),
        final(fr).depth() == old(fr).depth(),
        final(fr).spans@ == old(fr).spans@,
        final(out)@.len() == old(out)@.len(),
        r is Ok ==> 1 <= item.width <= 64 && bit_off + item.width <= 8 * nbytes,
        item.derived ==> final(out)@ == old(out)@,
        !item.derived ==> {
            &&& r is Ok ==> (field_int(v, item.key) matches Ok(i) && bits_fit(i, item.width as nat, item.signed)
                && bits_ored(old(out)@, final(out)@, base * 8 + bit_off, item.width as nat,
                    bits_pattern(i, item.width as nat) as u64))
            &&& (1 <= item.width <= 64 && bit_off + item.width <= 8 * nbytes && bit_off <= 0x1000_0000) ==> (
                field_int(v, item.key) matches Ok(i) ==> (bits_fit(i, item.width as nat, item.signed) <==> r is Ok))
        },
        match enc::bit_item(pk(old(out)@, *old(fr)), base as int, nbytes as int, bit_off as int, *item, match v { Some(x) => Some(*x), None => None }) {
            Ok(st) => r is Ok && pk(final(out)@, *final(fr)) == st,
            Err(f) => r matches Err(e) && pfail_view(e) == f,
        },
{
    let w = item.width;
    if w < 1 || w > 64 || bit_off > 0x1000_0000 || (bit_off as usize + w as usize + 7) / 8 > nbytes {
        return Err(fail(Kind::Length));
    }
    let ghost len = out@.len();
    if item.derived {
        match item.reg {
            Some(reg) => reserve(fr, reg, Slot::Bits { base, bit_off, width: w, signed: item.signed }, Ghost(out@)),
            None => return Err(fail(Kind::Inconsistent)),
        }
        return Ok(());
    }
    let val = input_int(v, &item.key)?;
    if !check_bits_range(val, w, item.signed) {
        return Err(fail(Kind::Range));
    }
    let pat = bits_pattern_exec(val, w, item.signed);
    let ghost before = out@;
    or_bits(out.as_mut_slice(), base, bit_off, w, pat);
    proof { enc::lemma_or_into(before, out@, base * 8 + bit_off, w as nat, pat); }
    proof { lemma_wf_grow(*fr, len, out@.len()); }
    set_reg(fr, item.reg, val as i64, Ghost(out@));
    Ok(())
}

// ---------- flags ----------

/// The number of set bits among the low `n` bits of `v`.
pub open spec fn ones(v: u64, n: nat) -> nat
    decreases n,
{
    if n == 0 { 0 } else { ones(v, (n - 1) as nat) + (if (v >> ((n - 1) as u64)) & 1 == 1 { 1nat } else { 0nat }) }
}

/// How many bits an integer flag spans: the set bits of its mask.
pub open spec fn flag_width(item: FlagItem) -> nat {
    if item.shift < 64 { ones(item.mask >> (item.shift as u64), 64) } else { 0 }
}

/// The bits one flag contributes, from its input `v`: a bool flag its mask
/// when truthy, an integer flag its value shifted into place (it must fit
/// the flag's width). A missing key counts as false or 0.
pub open spec fn flag_word(item: FlagItem, v: Option<Value>) -> Result<u64, Kind> {
    if item.is_bool {
        match v {
            None => Ok(0u64),
            Some(x) => match truthy_of(x) {
                Some(b) => Ok(if b { item.mask } else { 0u64 }),
                None => Err(Kind::Type),
            },
        }
    } else {
        let n = match v {
            None => Some(0int),
            Some(x) => int_of(x),
        };
        match n {
            None => Err(Kind::Type),
            Some(i) => if 0 <= i < pow2(flag_width(item)) && item.shift < 64 {
                Ok(((i as u64) << (item.shift as u64)) as u64)
            } else {
                Err(Kind::Range)
            },
        }
    }
}

/// The word the first `n` flags make together, or the first error.
pub open spec fn flags_raw(items: Seq<FlagItem>, m: Seq<(String, Value)>, n: nat) -> Result<u64, Kind>
    decreases n,
{
    if n == 0 {
        Ok(0u64)
    } else {
        match flags_raw(items, m, (n - 1) as nat) {
            Err(k) => Err(k),
            Ok(acc) => match flag_word(items[n - 1], dict_get(m, items[n - 1].key@)) {
                Err(k) => Err(k),
                Ok(w) => Ok(acc | w),
            },
        }
    }
}

/// The bits a kept rest (`_rest`) contributes: it must lie within the
/// rest mask.
pub open spec fn rest_word(m: Seq<(String, Value)>, rest_mask: u64) -> Result<u64, Kind> {
    let n = match dict_get(m, "_rest"@) {
        None => Some(0int),
        Some(x) => int_of(x),
    };
    match n {
        None => Err(Kind::Type),
        Some(l) => if 0 <= l <= u64::MAX && (l as u64) & !rest_mask == 0 {
            Ok((l as u64) & rest_mask)
        } else {
            Err(Kind::Range)
        },
    }
}

/// The word a flags field packs from the map `m`.
pub open spec fn flags_value(items: Seq<FlagItem>, rest: RestPolicy, rest_mask: u64, m: Seq<(String, Value)>) -> Result<u64, Kind> {
    match flags_raw(items, m, items.len()) {
        Err(k) => Err(k),
        Ok(raw) => if rest == RestPolicy::Keep {
            match rest_word(m, rest_mask) {
                Ok(w) => Ok(raw | w),
                Err(k) => Err(k),
            }
        } else {
            Ok(raw)
        },
    }
}

/// Whether a key may appear in a flags field's map.
pub open spec fn flag_known(items: Seq<FlagItem>, rest: RestPolicy, k: Seq<char>) -> bool {
    (exists|j: int| 0 <= j < items.len() && #[trigger] items[j].key@ == k) || (rest == RestPolicy::Keep && k == "_rest"@)
}

pub(crate) fn count_ones(v: u64) -> (r: u32)
    ensures
        r == ones(v, 64),
        r <= 64,
{
    let mut n: u32 = 0;
    let mut i: u32 = 0;
    while i < 64
        invariant
            i <= 64,
            n == ones(v, i as nat),
            n <= i,
        decreases 64 - i,
    {
        if (v >> (i as u64)) & 1 == 1 {
            n = n + 1;
        }
        i = i + 1;
    }
    n
}

fn flag_key_known(items: &Vec<FlagItem>, rest: RestPolicy, k: &str) -> (r: bool)
    ensures
        r == flag_known(items@, rest, k@),
{
    let mut j: usize = 0;
    while j < items.len()
        invariant
            j <= items@.len(),
            forall|i: int| 0 <= i < j ==> items@[i].key@ != k@,
        decreases items@.len() - j,
    {
        if str_eq(items[j].key.as_str(), k) {
            proof { assert(items@[j as int].key@ == k@); }
            return true;
        }
        j = j + 1;
    }
    match rest {
        RestPolicy::Keep => str_eq(k, "_rest"),
        _ => false,
    }
}

fn flag_word_exec(item: &FlagItem, v: Option<&Value>) -> (r: Result<u64, PackFail>)
    ensures
        match flag_word(*item, match v { Some(x) => Some(*x), None => None }) {
            Ok(w) => r == Ok::<u64, PackFail>(w),
            Err(k) => r matches Err(e) && e.kind == k && e.path@.len() == 0 && pfail_view(e) == enc::pfail(k),
        },
{
    if item.is_bool {
        match v {
            None => Ok(0),
            Some(x) => match truthy(x) {
                Some(b) => Ok(if b { item.mask } else { 0 }),
                None => Err(fail(Kind::Type)),
            },
        }
    } else {
        let n: Option<i128> = match v {
            None => Some(0),
            Some(x) => as_int(x),
        };
        match n {
            None => Err(fail(Kind::Type)),
            Some(i) => {
                if item.shift >= 64 {
                    return Err(fail(Kind::Range));
                }
                let width = count_ones(item.mask >> (item.shift as u64));
                proof { lemma_pow2_64(); lemma_pow2_mono(width as nat, 64); }
                if i < 0 || i as u128 >= pow2_exec(width) {
                    return Err(fail(Kind::Range));
                }
                Ok((i as u64) << (item.shift as u64))
            },
        }
    }
}

/// Packs a flags field from its map: every key of the map must name a flag
/// (or be `_rest` where the rest is kept), then the flags' bits are ORed
/// into one word of type `prim`.
fn pack_flags(
    out: &mut Vec<u8>,
    prim: IntPrim,
    be: bool,
    items: &Vec<FlagItem>,
    rest: RestPolicy,
    rest_mask: u64,
    v: &Value,
) -> (r: Result<(), PackFail>)
    ensures
        match *v {
            Value::Dict(m) => if exists|j: int| 0 <= j < m@.len() && !flag_known(items@, rest, #[trigger] m@[j].0@) {
                r matches Err(e) && e.kind == Kind::UnknownFlag && final(out)@ == old(out)@
            } else {
                match flags_value(items@, rest, rest_mask, m@) {
                    Ok(raw) => r is Ok && final(out)@ == old(out)@ + uint_bytes(raw as nat, prim.spec_width(), be),
                    Err(k) => r matches Err(e) && e.kind == k && final(out)@ == old(out)@,
                }
            },
            _ => r matches Err(e) && e.kind == Kind::Type && final(out)@ == old(out)@,
        },
        match enc::flags_out(old(out)@, prim, be, items@, rest, rest_mask, *v) {
            Ok(o) => r is Ok && final(out)@ == o,
            Err(f) => r matches Err(e) && pfail_view(e) == f,
        },
{
    let m = match v {
        Value::Dict(m) => m,
        _ => return Err(fail(Kind::Type)),
    };
    // A closed key set: an unknown key is an error here, the one place
    // where keys beyond the schema's matter.
    let mut j: usize = 0;
    while j < m.len()
        invariant
            j <= m@.len(),
            *v == Value::Dict(*m),
            forall|i: int| 0 <= i < j ==> flag_known(items@, rest, #[trigger] m@[i].0@),
        decreases m@.len() - j,
    {
        if !flag_key_known(items, rest, m[j].0.as_str()) {
            return Err(fail(Kind::UnknownFlag));
        }
        j = j + 1;
    }
    let mut raw: u64 = 0;
    let mut k: usize = 0;
    while k < items.len()
        invariant
            k <= items@.len(),
            *v == Value::Dict(*m),
            forall|i: int| 0 <= i < m@.len() ==> flag_known(items@, rest, #[trigger] m@[i].0@),
            flags_raw(items@, m@, k as nat) == Ok::<u64, Kind>(raw),
        decreases items@.len() - k,
    {
        let item = &items[k];
        let field = v.get(item.key.as_str());
        let w = match flag_word_exec(item, field) {
            Ok(w) => w,
            Err(e) => {
                proof {
                    assert(flags_raw(items@, m@, (k + 1) as nat) is Err);
                    lemma_flags_raw_err(items@, m@, (k + 1) as nat, items@.len());
                }
                return Err(e);
            },
        };
        raw = raw | w;
        k = k + 1;
    }
    if let RestPolicy::Keep = rest {
        proof { reveal_strlit("_rest"); }
        let l: Option<i128> = match v.get("_rest") {
            None => Some(0),
            Some(x) => as_int(x),
        };
        match l {
            None => return Err(fail(Kind::Type)),
            Some(l) => {
                if l < 0 || l > u64::MAX as i128 || (l as u64) & !rest_mask != 0 {
                    return Err(fail(Kind::Range));
                }
                raw = raw | ((l as u64) & rest_mask);
            },
        }
    }
    let w = prim.width();
    let pos = out.len();
    push_zeros(out, w);
    proof { crate::codec::lemma_uint_bytes_len(raw as nat, w as nat, be); }
    write_uint_at(out.as_mut_slice(), pos, w, be, raw);
    proof {
        assert(out@ =~= old(out)@ + uint_bytes(raw as nat, prim.spec_width(), be));
    }
    Ok(())
}

proof fn lemma_flags_raw_err(items: Seq<FlagItem>, m: Seq<(String, Value)>, n: nat, t: nat)
    requires
        n <= t,
        flags_raw(items, m, n) is Err,
    ensures
        flags_raw(items, m, t) == flags_raw(items, m, n),
    decreases t - n,
{
    if t > n {
        lemma_flags_raw_err(items, m, n, (t - 1) as nat);
    }
}


// ---------- structs, dynamic fields and the entry points ----------

/// A digest field of the scope being packed: its bytes are reserved as
/// zeros and written once the scope is complete.
struct PDigest {
    op: usize,
    pos: usize,
    width: usize,
}

spec fn digs_view(ds: Seq<PDigest>) -> Seq<enc::DigV> {
    ds.map_values(|d: PDigest| enc::DigV { op: d.op as int, pos: d.pos as int, width: d.width as int })
}

/// The field a key reads from the struct's map.
fn lookup<'a>(values: &'a Value, key: &Key) -> (r: Option<&'a Value>)
    ensures
        match (key, values) {
            (Key::Named(n), Value::Dict(m)) => match r {
                Some(x) => dict_get(m@, n@) == Some(*x),
                None => dict_get(m@, n@) is None,
            },
            _ => r is None,
        },
{
    match key {
        Key::Named(n) => values.get(n.as_str()),
        Key::Skip => None,
    }
}

fn seg_key(e: PackFail, key: &Key) -> (r: PackFail)
    ensures
        r.kind == e.kind,
        pfail_view(r) == enc::pkey(pfail_view(e), *key),
{
    match key {
        Key::Named(n) => push_seg(e, Seg::Field(n.clone())),
        Key::Skip => e,
    }
}

/// Appends `bytes`.
fn append(out: &mut Vec<u8>, bytes: &[u8])
    ensures
        final(out)@ == old(out)@ + bytes@,
{
    let mut k: usize = 0;
    while k < bytes.len()
        invariant
            k <= bytes@.len(),
            out@ == old(out)@ + bytes@.subrange(0, k as int),
        decreases bytes@.len() - k,
    {
        out.push(bytes[k]);
        proof { assert(bytes@.subrange(0, k + 1) =~= bytes@.subrange(0, k as int).push(bytes@[k as int])); }
        k = k + 1;
    }
    proof { assert(bytes@.subrange(0, bytes@.len() as int) =~= bytes@); }
}

/// Whether `bytes` holds a zero byte.
fn has_nul(bytes: &[u8]) -> (r: bool)
    ensures
        r == bytes@.contains(0u8),
{
    let mut k: usize = 0;
    while k < bytes.len()
        invariant
            k <= bytes@.len(),
            forall|j: int| 0 <= j < k ==> bytes@[j] != 0u8,
        decreases bytes@.len() - k,
    {
        if bytes[k] == 0 {
            proof { assert(bytes@[k as int] == 0u8); }
            return true;
        }
        k = k + 1;
    }
    false
}

/// The index of the first case whose tag is `tag`.
pub fn find_case(cases: &Vec<(i64, Box<Op>)>, tag: i64) -> (r: Option<usize>)
    ensures
        match r {
            Some(i) => i < cases@.len() && cases@[i as int].0 == tag
                && forall|j: int| 0 <= j < i ==> cases@[j].0 != tag,
            None => forall|j: int| 0 <= j < cases@.len() ==> cases@[j].0 != tag,
        },
{
    let mut k: usize = 0;
    while k < cases.len()
        invariant
            k <= cases@.len(),
            forall|j: int| 0 <= j < k ==> cases@[j].0 != tag,
        decreases cases@.len() - k,
    {
        if cases[k].0 == tag {
            return Some(k);
        }
        k = k + 1;
    }
    None
}

/// Cases whose tags differ from `tag` are passed over.
proof fn lemma_case_skip(st: PkV, op: Op, tag: i64, v: Value, j: int, k: int)
    requires
        op matches Op::Switch { cases, .. } && 0 <= j <= k <= cases@.len()
            && forall|i: int| j <= i < k ==> cases@[i].0 != tag,
    ensures
        enc::pack_case(st, op, tag, j, v) == enc::pack_case(st, op, tag, k, v),
    decreases k - j,
{
    if j < k {
        lemma_case_skip(st, op, tag, v, j + 1, k);
    }
}

/// Packs a struct scope from its map `values`: every op in order, then the
/// scope's digests over the finished bytes.
#[verifier::loop_isolation(false)]
#[verifier::rlimit(60)]
fn pack_struct(out: &mut Vec<u8>, fr: &mut PFrames, prog: &Program, values: &Value) -> (r: Result<(), PackFail>)
    requires
        old(fr).wf(old(out)@.len()),
    ensures
        final(fr).wf(final(out)@.len()),
        final(fr).depth() == old(fr).depth(),
        final(out)@.len() >= old(out)@.len(),
        !(*values is Dict) ==> (r matches Err(e) && e.kind == Kind::Type && final(out)@ == old(out)@ && *final(fr) == *old(fr)),
        (static_run(*prog) && *values is Dict) ==> {
            let bytes = static_pack(*prog, (*values)->Dict_0@);
            &&& (r is Ok <==> bytes is Some)
            &&& (r is Ok ==> final(out)@ == old(out)@ + bytes->Some_0)
        },
        match enc::pack_struct(pk(old(out)@, *old(fr)), *prog, *values) {
            Ok(st) => r is Ok && pk(final(out)@, *final(fr)) == st,
            Err(f) => r matches Err(e) && pfail_view(e) == f,
        },
    decreases prog, 1nat,
{
    if !matches!(values, Value::Dict(_)) {
        return Err(fail(Kind::Type));
    }
    let ghost len0 = out@.len();
    let ghost fr0 = *fr;
    let rf = RegFrame::new();
    proof { assert(rf.regs =~= crate::decoding::fresh_regs().regs); }
    fr.regs.push(rf);
    fr.res.push([None; 16]);
    fr.spans.push([(0usize, 0usize); 16]);
    proof { assert(pk(out@, *fr) == enc::push_frame(pk(old(out)@, *old(fr)))); }
    proof {
        assert forall|f: int, i: int| 0 <= f < fr.res@.len() && 0 <= i < 16
            implies (#[trigger] fr.res@[f]@[i] matches Some(rv) ==> slot_fits(rv.slot, len0)) by {
            if f < fr0.res@.len() {
                assert(fr.res@[f] == fr0.res@[f]);
            }
        }
    }
    let scope_start = out.len();
    let ghost st = static_run(*prog) && *values is Dict;
    let mut digests: Vec<PDigest> = Vec::new();
    let mut res: Result<(), PackFail> = Ok(());
    let mut i: usize = 0;
    proof { assert(digs_view(digests@) =~= Seq::<enc::DigV>::empty()); }
    while i < prog.ops.len()
        invariant
            fr.wf(out@.len()),
            fr.depth() == fr0.depth() + 1,
            out@.len() >= len0,
            scope_start == len0,
            st ==> digests@.len() == 0,
            st ==> (i == 0 ==> out@ == old(out)@),
            st ==> (i > 0 ==> (static_pack(*prog, (*values)->Dict_0@) matches Some(b) && out@ == old(out)@ + b)),
            res is Ok,
            i <= prog.ops@.len(),
            enc::pack_ops(enc::push_frame(pk(old(out)@, *old(fr))), *prog, 0, *values, Seq::empty())
                == enc::pack_ops(pk(out@, *fr), *prog, i as int, *values, digs_view(digests@)),
        decreases prog.ops@.len() - i,
    {
        proof { assert(decreases_to!(prog => prog.ops@[i as int])); }
        match pack_op(out, fr, &prog.ops[i], i, values, &mut digests) {
            Ok(()) => {},
            Err(e) => {
                res = Err(e);
                break;
            },
        }
        i = i + 1;
    }
    let n = fr.spans.len();
    let spans = fr.spans[n - 1];
    let ghost len1 = out@.len();
    let ghost st1 = pk(out@, *fr);
    fr.regs.pop();
    fr.res.pop();
    fr.spans.pop();
    res?;
    proof {
        assert(enc::pack_ops(enc::push_frame(pk(old(out)@, *old(fr))), *prog, 0, *values, Seq::empty())
            == Ok::<enc::PkOut, PFailV>((st1, digs_view(digests@))));
        assert(pk(out@, *fr) == enc::pop_frame(st1));
    }
    // This scope's digests run after every length patch, in field order.
    let scope_end = out.len();
    let mut k: usize = 0;
    while k < digests.len()
        invariant
            fr.wf(out@.len()),
            fr.depth() == old(fr).depth(),
            out@.len() == scope_end,
            scope_start <= scope_end,
            scope_start == old(out)@.len(),
            st ==> digests@.len() == 0,
            st ==> (static_pack(*prog, (*values)->Dict_0@) matches Some(b) && out@ == old(out)@ + b),
            k <= digests@.len(),
            spans == st1.spans.last(),
            pk(out@, *fr) == enc::with_out(enc::pop_frame(st1), out@),
            enc::write_digests(*prog, st1.out, scope_start as int, spans, digs_view(digests@), 0)
                == enc::write_digests(*prog, out@, scope_start as int, spans, digs_view(digests@), k as int),
        decreases digests@.len() - k,
    {
        let d = &digests[k];
        proof { assert(digs_view(digests@)[k as int] == enc::DigV { op: d.op as int, pos: d.pos as int, width: d.width as int }); }
        if d.op >= prog.ops.len() {
            return Err(fail(Kind::Length));
        }
        match &prog.ops[d.op] {
            Op::Digest { algo, over, be, .. } => {
                if !algo.runnable() || d.pos > scope_end || d.width > scope_end - d.pos {
                    return Err(fail(Kind::Length));
                }
                let mut h = Hasher::new(algo);
                match over {
                    Over::Star => {
                        // The zeros reserved for the digest itself are hashed as they stand.
                        h.update_range(out.as_slice(), scope_start, scope_end);
                    },
                    Over::Spans(idxs) => {
                        let mut t: usize = 0;
                        proof {
                            if let Some(rest) = enc::span_bytes(out@, idxs@, 0, spans) {
                                assert(h.fed() + rest =~= rest);
                            }
                        }
                        while t < idxs.len()
                            invariant
                                h.wf(),
                                h.algo() == *algo,
                                out@.len() == scope_end,
                                fr.wf(out@.len()),
                                fr.depth() == old(fr).depth(),
                                scope_start <= scope_end,
                                scope_start == old(out)@.len(),
                                t <= idxs@.len(),
                                *over == Over::Spans(*idxs),
                                enc::span_bytes(out@, idxs@, 0, spans) == match enc::span_bytes(out@, idxs@, t as int, spans) {
                                    Some(rest) => Some(h.fed() + rest),
                                    None => None::<Seq<u8>>,
                                },
                            decreases idxs@.len() - t,
                        {
                            let si = idxs[t] as usize;
                            if si >= MAX_SPANS {
                                proof { assert(enc::span_bytes(out@, idxs@, t as int, spans) is None); }
                                return Err(fail(Kind::Length));
                            }
                            let (a, b) = spans[si];
                            if !(a <= b && b <= out.len()) {
                                proof { assert(enc::span_bytes(out@, idxs@, t as int, spans) is None); }
                                return Err(fail(Kind::Length));
                            }
                            let ghost f0 = h.fed();
                            h.update_range(out.as_slice(), a, b);
                            proof {
                                if let Some(rest) = enc::span_bytes(out@, idxs@, t + 1, spans) {
                                    assert(f0 + (out@.subrange(a as int, b as int) + rest) =~= h.fed() + rest);
                                }
                            }
                            t = t + 1;
                        }
                        proof { assert(h.fed() + Seq::<u8>::empty() =~= h.fed()); }
                    },
                }
                match h.finalize() {
                    DigestVal::Int(v) => {
                        proof {
                            crate::codec::lemma_uint_bytes_len(v as nat, d.width as nat, *be);
                            lemma_splice_len(out@, d.pos as int, uint_bytes(v as nat, d.width as nat, *be));
                        }
                        write_uint_at(out.as_mut_slice(), d.pos, d.width, *be, v);
                    },
                    DigestVal::Bytes(b) => {
                        if b.len() != d.width {
                            return Err(fail(Kind::Length));
                        }
                        proof { lemma_splice_len(out@, d.pos as int, b@); }
                        copy_into(out, d.pos, b.as_slice());
                    },
                }
            },
            _ => return Err(fail(Kind::Length)),
        }
        k = k + 1;
    }
    Ok(())
}

/// Packs a run of fixed fields from the struct's map: zeros reserved, then
/// each item written over them.
#[verifier::loop_isolation(false)]
#[verifier::rlimit(60)]
fn pack_fixed(out: &mut Vec<u8>, fr: &mut PFrames, width: usize, items: &Vec<FixedItem>, values: &Value) -> (r: Result<(), PackFail>)
    requires
        old(fr).wf(old(out)@.len()),
        old(fr).depth() > 0,
    ensures
        final(fr).wf(final(out)@.len()),
        final(fr).depth() == old(fr).depth(),
        final(out)@.len() >= old(out)@.len(),
        match *values {
            Value::Dict(m) => (items_tile(items@, width as nat) && items_plain(items@)) ==> {
                &&& (r is Ok <==> run_bytes(items@, m@, items@.len()) is Some)
                &&& (r is Ok ==> final(out)@ == old(out)@ + run_bytes(items@, m@, items@.len())->Some_0)
            },
            _ => true,
        },
        match enc::fixed_items(enc::zeros(pk(old(out)@, *old(fr)), width as int), old(out)@.len() as int, old(out)@.len() + width, items@, 0, *values) {
            Ok(st) => r is Ok && pk(final(out)@, *final(fr)) == st,
            Err(f) => r matches Err(e) && pfail_view(e) == f,
        },
{
    let base = out.len();
    push_zeros(out, width);
    let end = out.len();
    proof { lemma_wf_grow(*fr, base as nat, out@.len()); }
    let ghost plain = items_tile(items@, width as nat) && items_plain(items@) && *values is Dict;
    let ghost m = match values { Value::Dict(m) => m@, _ => Seq::empty() };
    let mut k: usize = 0;
    while k < items.len()
        invariant
            fr.wf(out@.len()),
            fr.depth() == old(fr).depth(),
            out@.len() == end,
            base == old(out)@.len(),
            base <= end,
            end == base + width,
            k <= items@.len(),
            enc::fixed_items(enc::zeros(pk(old(out)@, *old(fr)), width as int), base as int, end as int, items@, 0, *values)
                == enc::fixed_items(pk(out@, *fr), base as int, end as int, items@, k as int, *values),
            plain == (items_tile(items@, width as nat) && items_plain(items@) && *values is Dict),
            plain ==> (*values matches Value::Dict(mm) && mm@ == m),
            plain ==> run_bytes(items@, m, k as nat) is Some,
            plain ==> out@ == old(out)@ + run_bytes(items@, m, k as nat)->Some_0
                + Seq::new((width - offset_sum(items@, k as nat)) as nat, |i: int| 0u8),
        decreases items@.len() - k,
    {
        let item = &items[k];
        let v = lookup(values, &item.key);
        proof {
            if plain {
                crate::fixed::lemma_offset_mono(items@, (k + 1) as nat, items@.len());
                crate::fixed::lemma_run_bytes_len(items@, m, k as nat);
                assert(items@[k as int].off == offset_sum(items@, k as nat));
                assert(items@[k as int].key is Named);
                assert(offset_sum(items@, (k + 1) as nat) == offset_sum(items@, k as nat) + items@[k as int].kind.spec_width());
                assert((match v { Some(x) => Some(*x), None => None }) == dict_get(m, items@[k as int].key->Named_0@));
            }
        }
        let ghost before = out@;
        match pack_fixed_item(out, fr, base, end, item, v) {
            Ok(()) => {},
            Err(e) => {
                proof {
                    if plain {
                        assert(run_bytes(items@, m, (k + 1) as nat) is None);
                        crate::fixed::lemma_run_bytes_fails(items@, m, (k + 1) as nat, items@.len());
                    }
                }
                return Err(seg_key(e, &item.key));
            },
        }
        proof {
            if plain {
                let prefix = run_bytes(items@, m, k as nat)->Some_0;
                let b = item_bytes(items@[k as int], dict_get(m, items@[k as int].key->Named_0@))->Some_0;
                crate::fixed::lemma_item_bytes_len(items@[k as int], dict_get(m, items@[k as int].key->Named_0@));
                crate::fixed::lemma_run_bytes_len(items@, m, (k + 1) as nat);
                let z0 = Seq::new((width - offset_sum(items@, k as nat)) as nat, |i: int| 0u8);
                let z1 = Seq::new((width - offset_sum(items@, (k + 1) as nat)) as nat, |i: int| 0u8);
                assert(out@ =~= old(out)@ + (prefix + b) + z1);
            }
        }
        k = k + 1;
    }
    proof {
        if plain {
            assert(out@ =~= old(out)@ + run_bytes(items@, m, items@.len())->Some_0);
        }
    }
    Ok(())
}

/// Packs a run of bits fields from the struct's map: zeros reserved, then
/// each field ORed in, MSB first.
#[verifier::loop_isolation(false)]
fn pack_bits(out: &mut Vec<u8>, fr: &mut PFrames, nbytes: usize, items: &Vec<BitItem>, values: &Value) -> (r: Result<(), PackFail>)
    requires
        old(fr).wf(old(out)@.len()),
        old(fr).depth() > 0,
    ensures
        final(fr).wf(final(out)@.len()),
        final(fr).depth() == old(fr).depth(),
        final(out)@.len() >= old(out)@.len(),
        match enc::bit_items(enc::zeros(pk(old(out)@, *old(fr)), nbytes as int), old(out)@.len() as int, nbytes as int, 0, items@, 0, *values) {
            Ok(st) => r is Ok && pk(final(out)@, *final(fr)) == st,
            Err(f) => r matches Err(e) && pfail_view(e) == f,
        },
{
    let base = out.len();
    push_zeros(out, nbytes);
    proof { lemma_wf_grow(*fr, base as nat, out@.len()); }
    let mut bit_off: u32 = 0;
    let mut k: usize = 0;
    while k < items.len()
        invariant
            fr.wf(out@.len()),
            fr.depth() == old(fr).depth(),
            out@.len() == base + nbytes,
            base == old(out)@.len(),
            bit_off <= 0x1000_0000 + 64,
            k <= items@.len(),
            enc::bit_items(enc::zeros(pk(old(out)@, *old(fr)), nbytes as int), base as int, nbytes as int, 0, items@, 0, *values)
                == enc::bit_items(pk(out@, *fr), base as int, nbytes as int, bit_off as int, items@, k as int, *values),
        decreases items@.len() - k,
    {
        let item = &items[k];
        let v = lookup(values, &item.key);
        if bit_off > 0x1000_0000 {
            return Err(seg_key(fail(Kind::Length), &item.key));
        }
        match pack_bit_item(out, fr, base, nbytes, bit_off, item, v) {
            Ok(()) => {},
            Err(e) => return Err(seg_key(e, &item.key)),
        }
        bit_off = bit_off + item.width as u32;
        k = k + 1;
    }
    Ok(())
}

#[verifier::loop_isolation(false)]
fn pack_op(
    out: &mut Vec<u8>,
    fr: &mut PFrames,
    op: &Op,
    op_idx: usize,
    values: &Value,
    digests: &mut Vec<PDigest>,
) -> (r: Result<(), PackFail>)
    requires
        old(fr).wf(old(out)@.len()),
        old(fr).depth() > 0,
    ensures
        final(fr).wf(final(out)@.len()),
        final(fr).depth() == old(fr).depth(),
        final(out)@.len() >= old(out)@.len(),
        op is Fixed ==> final(digests)@ == old(digests)@,
        match (*op, *values) {
            (Op::Fixed { width, items }, Value::Dict(m)) => (items_tile(items@, width as nat) && items_plain(items@)) ==> {
                &&& (r is Ok <==> run_bytes(items@, m@, items@.len()) is Some)
                &&& (r is Ok ==> final(out)@ == old(out)@ + run_bytes(items@, m@, items@.len())->Some_0)
            },
            _ => true,
        },
        match enc::pack_op(pk(old(out)@, *old(fr)), *op, op_idx as int, *values, digs_view(old(digests)@)) {
            Ok((st, ds)) => r is Ok && pk(final(out)@, *final(fr)) == st && digs_view(final(digests)@) == ds,
            Err(f) => r matches Err(e) && pfail_view(e) == f,
        },
    decreases op, 2nat,
{
    match op {
        Op::Fixed { width, items } => pack_fixed(out, fr, *width, items, values),
        Op::BitRun { nbytes, items } => pack_bits(out, fr, *nbytes, items, values),
        Op::Digest { algo, c, .. } => {
            // Whatever the map holds for a digest is ignored: zeros are
            // reserved and the digest written when the scope is complete.
            let w = algo.width_bytes();
            let pos = out.len();
            push_zeros(out, w);
            let end = out.len();
            proof { lemma_wf_grow(*fr, pos as nat, out@.len()); }
            set_span(fr, c.span, pos, end, Ghost(out@));
            let ghost d0 = digests@;
            digests.push(PDigest { op: op_idx, pos, width: w });
            proof { assert(digs_view(digests@) =~= digs_view(d0).push(enc::DigV { op: op_idx as int, pos: pos as int, width: w as int })); }
            Ok(())
        },
        Op::Cond { pred, then, c } => {
            // Absent: nothing written and nothing looked up.
            if eval(fr, pred)? != 0 {
                let name = match &c.key {
                    Key::Named(n) => n,
                    Key::Skip => return Err(fail(Kind::Missing)),
                };
                let v = match values.get(name.as_str()) {
                    Some(v) => v,
                    None => return Err(push_seg(fail(Kind::Missing), Seg::Field(name.clone()))),
                };
                let start = out.len();
                match pack_value(out, fr, then, v) {
                    Ok(()) => {},
                    Err(e) => return Err(seg_key(e, &c.key)),
                }
                let end = out.len();
                set_span(fr, c.span, start, end, Ghost(out@));
            }
            Ok(())
        },
        Op::Bytes { c, .. } | Op::Str { c, .. } | Op::CStr { c, .. } | Op::Flags { c, .. }
        | Op::Nest { c, .. } | Op::Array { c, .. } | Op::Switch { c, .. } => {
            let name = match &c.key {
                Key::Named(n) => n,
                Key::Skip => return Err(fail(Kind::Missing)),
            };
            let v = match values.get(name.as_str()) {
                Some(v) => v,
                None => return Err(push_seg(fail(Kind::Missing), Seg::Field(name.clone()))),
            };
            let start = out.len();
            match pack_value(out, fr, op, v) {
                Ok(()) => {},
                Err(e) => return Err(seg_key(e, &c.key)),
            }
            let end = out.len();
            set_span(fr, c.span, start, end, Ghost(out@));
            Ok(())
        },
    }
}

/// Packs the value of a single op: a struct field, an array element or a
/// switch branch.
#[verifier::loop_isolation(false)]
#[verifier::spinoff_prover]
#[verifier::rlimit(80)]
fn pack_value(out: &mut Vec<u8>, fr: &mut PFrames, op: &Op, v: &Value) -> (r: Result<(), PackFail>)
    requires
        old(fr).wf(old(out)@.len()),
        old(fr).depth() > 0,
    ensures
        final(fr).wf(final(out)@.len()),
        final(fr).depth() == old(fr).depth(),
        final(out)@.len() >= old(out)@.len(),
        match op {
            Op::Bytes { max, .. } => match *v {
                Value::Bytes(b) => b@.len() > *max ==> (r matches Err(e) && e.kind == Kind::Limit && (final(out)@ == old(out)@ && *final(fr) == *old(fr))),
                _ => r matches Err(e) && e.kind == Kind::Type && (final(out)@ == old(out)@ && *final(fr) == *old(fr)),
            },
            Op::Str { enc, max, .. } => match *v {
                Value::Str(s) => match encode_spec(s@, *enc) {
                    None => r matches Err(e) && e.kind == Kind::Encode && (final(out)@ == old(out)@ && *final(fr) == *old(fr)),
                    Some(b) => b.len() > *max ==> (r matches Err(e) && e.kind == Kind::Limit && (final(out)@ == old(out)@ && *final(fr) == *old(fr))),
                },
                _ => r matches Err(e) && e.kind == Kind::Type && (final(out)@ == old(out)@ && *final(fr) == *old(fr)),
            },
            Op::CStr { enc, max, .. } => match *v {
                Value::Str(s) => match encode_spec(s@, *enc) {
                    None => r matches Err(e) && e.kind == Kind::Encode && (final(out)@ == old(out)@ && *final(fr) == *old(fr)),
                    Some(b) => if b.contains(0u8) {
                        r matches Err(e) && e.kind == Kind::NulInCstr && (final(out)@ == old(out)@ && *final(fr) == *old(fr))
                    } else if b.len() > *max {
                        r matches Err(e) && e.kind == Kind::Limit && (final(out)@ == old(out)@ && *final(fr) == *old(fr))
                    } else {
                        r is Ok && final(out)@ == old(out)@ + b + seq![0u8]
                    },
                },
                _ => r matches Err(e) && e.kind == Kind::Type && (final(out)@ == old(out)@ && *final(fr) == *old(fr)),
            },
            Op::Array { .. } => !(*v is List) ==> (r matches Err(e) && e.kind == Kind::Type && (final(out)@ == old(out)@ && *final(fr) == *old(fr))),
            Op::Nest { .. } => !(*v is Dict) ==> (r matches Err(e) && e.kind == Kind::Type && (final(out)@ == old(out)@ && *final(fr) == *old(fr))),
            _ => true,
        },
        match enc::pack_value(pk(old(out)@, *old(fr)), *op, *v) {
            Ok(st) => r is Ok && pk(final(out)@, *final(fr)) == st,
            Err(f) => r matches Err(e) && pfail_view(e) == f,
        },
    decreases op, 1nat,
{
    let ghost len0 = out@.len();
    match op {
        Op::Fixed { width, items } => {
            if items.len() != 1 {
                return Err(fail(Kind::Length));
            }
            let base = out.len();
            push_zeros(out, *width);
            let end = out.len();
            proof { lemma_wf_grow(*fr, base as nat, out@.len()); }
            pack_fixed_item(out, fr, base, end, &items[0], Some(v))
        },
        Op::Bytes { len, max, .. } => {
            let b = match v {
                Value::Bytes(b) => b,
                _ => return Err(fail(Kind::Type)),
            };
            if b.len() > *max {
                return Err(fail(Kind::Limit));
            }
            append(out, b.as_slice());
            proof { lemma_wf_grow(*fr, len0, out@.len()); }
            finish_len(out, fr, len, b.len())
        },
        Op::Str { len, max, enc, .. } => {
            let s = match v {
                Value::Str(s) => s,
                _ => return Err(fail(Kind::Type)),
            };
            let b = match encode(s.as_str(), *enc) {
                Some(b) => b,
                None => return Err(fail(Kind::Encode)),
            };
            if b.len() > *max {
                return Err(fail(Kind::Limit));
            }
            // The length comes from the encoded byte count.
            append(out, b.as_slice());
            proof { lemma_wf_grow(*fr, len0, out@.len()); }
            finish_len(out, fr, len, b.len())
        },
        Op::CStr { max, enc, .. } => {
            let s = match v {
                Value::Str(s) => s,
                _ => return Err(fail(Kind::Type)),
            };
            let b = match encode(s.as_str(), *enc) {
                Some(b) => b,
                None => return Err(fail(Kind::Encode)),
            };
            if has_nul(b.as_slice()) {
                return Err(fail(Kind::NulInCstr));
            }
            if b.len() > *max {
                return Err(fail(Kind::Limit));
            }
            append(out, b.as_slice());
            let ghost ob = out@;
            out.push(0);
            proof { assert(out@ =~= old(out)@ + b@ + seq![0u8]); }
            proof { lemma_wf_grow(*fr, len0, out@.len()); }
            Ok(())
        },
        Op::Flags { prim, be, items, rest, rest_mask, .. } => {
            let r = pack_flags(out, *prim, *be, items, *rest, *rest_mask, v);
            proof { lemma_wf_grow(*fr, len0, out@.len()); }
            r
        },
        Op::Nest { prog, size, .. } => {
            proof { assert(decreases_to!(op => **prog)); }
            let start = out.len();
            pack_struct(out, fr, prog, v)?;
            let sz = out.len() - start;
            match size {
                None => Ok(()),
                Some(len) => finish_len(out, fr, len, sz),
            }
        },
        Op::Array { count, elem, .. } => {
            proof { assert(decreases_to!(op => **elem)); }
            let list = match v {
                Value::List(l) => l,
                _ => return Err(fail(Kind::Type)),
            };
            let mut i: usize = 0;
            while i < list.len()
                invariant
                    fr.wf(out@.len()),
                    fr.depth() == old(fr).depth(),
                    fr.depth() > 0,
                    out@.len() >= len0,
                    len0 == old(out)@.len(),
                    decreases_to!(op => **elem),
                    i <= list@.len(),
                    *op matches Op::Array { elem: e, .. } && e == *elem,
                    enc::pack_elems(pk(old(out)@, *old(fr)), *op, list@, 0) == enc::pack_elems(pk(out@, *fr), *op, list@, i as int),
                decreases list@.len() - i,
            {
                match pack_value(out, fr, elem, &list[i]) {
                    Ok(()) => {},
                    Err(e) => return Err(push_seg(e, Seg::Index(i))),
                }
                i = i + 1;
            }
            match count {
                CountSrc::UntilEof => Ok(()),
                CountSrc::Expr { expr, inv } => finish_count(out, fr, expr, inv, list.len()),
            }
        },
        Op::Switch { on, cases, default, .. } => {
            let tag = eval(fr, on)?;
            proof {
                assert forall|j: int| 0 <= j < cases@.len() implies decreases_to!(op => *cases@[j].1) by {
                    assert(decreases_to!(op => *cases));
                    assert(decreases_to!(*cases => cases@));
                    assert(decreases_to!(cases@ => cases@[j]));
                    assert(decreases_to!(cases@[j] => cases@[j].1));
                }
            }
            if let Some(k) = find_case(cases, tag) {
                proof {
                    assert(decreases_to!(op => *cases@[k as int].1));
                    lemma_case_skip(pk(out@, *fr), *op, tag, *v, 0, k as int);
                }
                return pack_value(out, fr, &cases[k].1, v);
            }
            proof { lemma_case_skip(pk(out@, *fr), *op, tag, *v, 0, cases@.len() as int); }
            match default {
                Some(d) => {
                    proof { assert(decreases_to!(op => **d)); }
                    pack_value(out, fr, d, v)
                },
                None => Err(fail(Kind::NoCase)),
            }
        },
        Op::BitRun { .. } | Op::Digest { .. } | Op::Cond { .. } => {
            // Not a value position: the compiler never puts these here.
            Err(fail(Kind::Type))
        },
    }
}

/// Packs `values` (a map) against `prog`.
pub fn run(prog: &Program, values: &Value) -> (r: PackOutcome)
    ensures
        !(*values is Dict) ==> (r matches PackOutcome::Failed { kind, .. } && kind == Kind::Type),
        (static_run(*prog) && *values is Dict) ==> {
            let bytes = static_pack(*prog, (*values)->Dict_0@);
            &&& (r is Packed <==> bytes is Some)
            &&& (r matches PackOutcome::Packed(b) ==> b@ == bytes->Some_0)
        },
        r@ == enc::pack(*prog, *values),
{
    let mut out: Vec<u8> = Vec::new();
    let mut fr = PFrames { regs: Vec::new(), res: Vec::new(), spans: Vec::new() };
    proof { assert(pk(out@, fr) == PkV { out: Seq::empty(), regs: Seq::empty(), res: Seq::empty(), spans: Seq::empty() }); }
    match pack_struct(&mut out, &mut fr, prog, values) {
        Ok(()) => PackOutcome::Packed(out),
        Err(e) => {
            let path = format_path(e.path.as_slice());
            proof { crate::decoding::lemma_path_text(e.path@, e.path@.len()); }
            PackOutcome::Failed { kind: e.kind, path }
        },
    }
}

/// Packs `values` against `prog` into `dst` at `offset`: the bytes are
/// built first and copied only where they fit (else `Buffer`, with `dst`
/// unchanged).
pub fn run_into(prog: &Program, values: &Value, dst: &mut [u8], offset: usize) -> (r: PackOutcome)
    ensures
        match r {
            PackOutcome::Packed(b) => offset + b@.len() <= old(dst)@.len()
                && final(dst)@ == splice(old(dst)@, offset as int, b@),
            PackOutcome::Failed { .. } => final(dst)@ == old(dst)@,
        },
        !(*values is Dict) ==> (r matches PackOutcome::Failed { kind, .. } && kind == Kind::Type),
        (static_run(*prog) && *values is Dict) ==> {
            let bytes = static_pack(*prog, (*values)->Dict_0@);
            &&& (r is Packed ==> bytes is Some)
            &&& (r matches PackOutcome::Packed(b) ==> b@ == bytes->Some_0)
            &&& (bytes is None ==> final(dst)@ == old(dst)@)
        },
        match enc::pack(*prog, *values) {
            enc::PackedV::Packed(b) => if offset + b.len() <= old(dst)@.len() {
                r@ == enc::PackedV::Packed(b) && final(dst)@ == splice(old(dst)@, offset as int, b)
            } else {
                r@ == enc::PackedV::Failed(Kind::Buffer, Seq::empty()) && final(dst)@ == old(dst)@
            },
            enc::PackedV::Failed(k, p) => r@ == enc::PackedV::Failed(k, p) && final(dst)@ == old(dst)@,
        },
{
    match run(prog, values) {
        PackOutcome::Packed(bytes) => {
            if offset > dst.len() || dst.len() - offset < bytes.len() {
                return PackOutcome::Failed { kind: Kind::Buffer, path: String::new() };
            }
            let dlen = dst.len();
            let mut k: usize = 0;
            while k < bytes.len()
                invariant
                    dlen == dst@.len(),
                    k <= bytes@.len(),
                    offset + bytes@.len() <= old(dst)@.len(),
                    dst@.len() == old(dst)@.len(),
                    forall|j: int| 0 <= j < dst@.len() ==> #[trigger] dst@[j] == if offset <= j < offset + k {
                        bytes@[j - offset]
                    } else {
                        old(dst)@[j]
                    },
                decreases bytes@.len() - k,
            {
                dst[offset + k] = bytes[k];
                k = k + 1;
            }
            proof { assert(dst@ =~= splice(old(dst)@, offset as int, bytes@)); }
            PackOutcome::Packed(bytes)
        },
        PackOutcome::Failed { kind, path } => PackOutcome::Failed { kind, path },
    }
}

} // verus!
