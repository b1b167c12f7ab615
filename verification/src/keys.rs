//! The field names a compiled program reads and writes: every key a map it
//! packs from may be asked for, and every key a map it unpacks to may hold.
//! A caller that builds maps often can prepare each name once.

use vstd::prelude::*;

use crate::program::{BitItem, FixedItem, FlagItem, Key, Op, Program, RestPolicy};
use crate::text::string_of;

verus! {

/// The name a key stands for, if any.
pub open spec fn key_names(k: Key) -> Seq<Seq<char>> {
    match k {
        Key::Named(n) => seq![n@],
        Key::Skip => Seq::empty(),
    }
}

pub open spec fn fixed_keys(items: Seq<FixedItem>) -> Seq<Seq<char>>
    decreases items.len(),
{
    if items.len() == 0 { Seq::empty() } else { fixed_keys(items.drop_last()) + key_names(items.last().key) }
}

pub open spec fn bit_keys(items: Seq<BitItem>) -> Seq<Seq<char>>
    decreases items.len(),
{
    if items.len() == 0 { Seq::empty() } else { bit_keys(items.drop_last()) + key_names(items.last().key) }
}

pub open spec fn flag_keys(items: Seq<FlagItem>) -> Seq<Seq<char>>
    decreases items.len(),
{
    if items.len() == 0 { Seq::empty() } else { flag_keys(items.drop_last()) + seq![items.last().key@] }
}

/// Every name a program uses, in the order its ops come, nested programs,
/// array elements, switch branches and `when` fields included. A name used
/// twice is listed twice.
pub open spec fn prog_keys(p: Program) -> Seq<Seq<char>>
    decreases p, 3nat,
{
    ops_keys(p.ops@)
}

pub open spec fn ops_keys(ops: Seq<Op>) -> Seq<Seq<char>>
    decreases ops, 2nat,
{
    if ops.len() == 0 { Seq::empty() } else { ops_keys(ops.drop_last()) + op_keys(ops.last()) }
}

/// The names one op uses: its own, then those of what it holds.
pub open spec fn op_keys(op: Op) -> Seq<Seq<char>>
    decreases op, 1nat,
{
    match op {
        Op::Fixed { items, .. } => fixed_keys(items@),
        Op::BitRun { items, .. } => bit_keys(items@),
        Op::Flags { items, rest, c, .. } => key_names(c.key) + flag_keys(items@)
            + if rest is Keep { seq!["_rest"@] } else { Seq::empty() },
        Op::Digest { c, .. } => key_names(c.key),
        Op::Bytes { c, .. } => key_names(c.key),
        Op::Str { c, .. } => key_names(c.key),
        Op::CStr { c, .. } => key_names(c.key),
        Op::Nest { prog, c, .. } => key_names(c.key) + prog_keys(*prog),
        Op::Array { elem, c, .. } => key_names(c.key) + op_keys(*elem),
        Op::Switch { cases, default, c, .. } => key_names(c.key) + cases_keys(cases@) + match default {
            Some(d) => op_keys(*d),
            None => Seq::empty(),
        },
        Op::Cond { then, c, .. } => key_names(c.key) + op_keys(*then),
    }
}

pub open spec fn cases_keys(cases: Seq<(i64, Box<Op>)>) -> Seq<Seq<char>>
    decreases cases, 0nat,
{
    if cases.len() == 0 { Seq::empty() } else { cases_keys(cases.drop_last()) + op_keys(*cases.last().1) }
}

/// The text of each name in `v`.
pub open spec fn texts(v: Seq<String>) -> Seq<Seq<char>> {
    v.map_values(|s: String| s@)
}

fn push_key(out: &mut Vec<String>, k: &Key)
    ensures
        texts(final(out)@) == texts(old(out)@) + key_names(*k),
{
    match k {
        Key::Named(n) => {
            out.push(n.clone());
        },
        Key::Skip => {},
    }
    proof { assert(texts(out@) =~= texts(old(out)@) + key_names(*k)); }
}

fn push_op_keys(out: &mut Vec<String>, op: &Op)
    ensures
        texts(final(out)@) == texts(old(out)@) + op_keys(*op),
    decreases op, 1nat,
{
    let ghost start = texts(out@);
    match op {
        Op::Fixed { items, .. } => {
            let mut k: usize = 0;
            while k < items.len()
                invariant
                    k <= items@.len(),
                    texts(out@) == start + fixed_keys(items@.subrange(0, k as int)),
                decreases items@.len() - k,
            {
                push_key(out, &items[k].key);
                proof { assert(items@.subrange(0, k + 1).drop_last() =~= items@.subrange(0, k as int)); }
                k = k + 1;
            }
            proof { assert(items@.subrange(0, items@.len() as int) =~= items@); }
        },
        Op::BitRun { items, .. } => {
            let mut k: usize = 0;
            while k < items.len()
                invariant
                    k <= items@.len(),
                    texts(out@) == start + bit_keys(items@.subrange(0, k as int)),
                decreases items@.len() - k,
            {
                push_key(out, &items[k].key);
                proof { assert(items@.subrange(0, k + 1).drop_last() =~= items@.subrange(0, k as int)); }
                k = k + 1;
            }
            proof { assert(items@.subrange(0, items@.len() as int) =~= items@); }
        },
        Op::Flags { items, rest, c, .. } => {
            push_key(out, &c.key);
            let ghost mid = texts(out@);
            let mut k: usize = 0;
            while k < items.len()
                invariant
                    k <= items@.len(),
                    texts(out@) == mid + flag_keys(items@.subrange(0, k as int)),
                decreases items@.len() - k,
            {
                let ghost before = texts(out@);
                out.push(items[k].key.clone());
                proof {
                    assert(texts(out@) =~= before + seq![items@[k as int].key@]);
                    assert(items@.subrange(0, k + 1).drop_last() =~= items@.subrange(0, k as int));
                }
                k = k + 1;
            }
            proof { assert(items@.subrange(0, items@.len() as int) =~= items@); }
            let ghost before = texts(out@);
            match rest {
                RestPolicy::Keep => {
                    out.push(string_of("_rest"));
                    proof { assert(texts(out@) =~= before + seq!["_rest"@]); }
                },
                _ => {
                    proof { assert(texts(out@) =~= before + Seq::<Seq<char>>::empty()); }
                },
            }
            proof { assert(texts(out@) =~= start + op_keys(*op)); }
        },
        Op::Digest { c, .. } | Op::Bytes { c, .. } | Op::Str { c, .. } | Op::CStr { c, .. } => {
            push_key(out, &c.key);
        },
        Op::Nest { prog, c, .. } => {
            push_key(out, &c.key);
            push_prog_keys(out, prog);
            proof { assert(texts(out@) =~= start + op_keys(*op)); }
        },
        Op::Array { elem, c, .. } => {
            push_key(out, &c.key);
            push_op_keys(out, elem);
            proof { assert(texts(out@) =~= start + op_keys(*op)); }
        },
        Op::Switch { cases, default, c, .. } => {
            push_key(out, &c.key);
            let ghost mid = texts(out@);
            proof {
                assert forall|j: int| 0 <= j < cases@.len() implies decreases_to!(op => *cases@[j].1) by {
                    assert(decreases_to!(op => *cases));
                    assert(decreases_to!(*cases => cases@));
                    assert(decreases_to!(cases@ => cases@[j]));
                    assert(decreases_to!(cases@[j] => cases@[j].1));
                }
            }
            let mut k: usize = 0;
            while k < cases.len()
                invariant
                    k <= cases@.len(),
                    texts(out@) == mid + cases_keys(cases@.subrange(0, k as int)),
                    forall|j: int| 0 <= j < cases@.len() ==> decreases_to!(op => *cases@[j].1),
                decreases cases@.len() - k,
            {
                proof { assert(decreases_to!(op => *cases@[k as int].1)); }
                push_op_keys(out, &cases[k].1);
                proof { assert(cases@.subrange(0, k + 1).drop_last() =~= cases@.subrange(0, k as int)); }
                k = k + 1;
            }
            proof { assert(cases@.subrange(0, cases@.len() as int) =~= cases@); }
            let ghost before = texts(out@);
            match default {
                Some(d) => push_op_keys(out, d),
                None => {
                    proof { assert(texts(out@) =~= before + Seq::<Seq<char>>::empty()); }
                },
            }
            proof { assert(texts(out@) =~= start + op_keys(*op)); }
        },
        Op::Cond { then, c, .. } => {
            push_key(out, &c.key);
            push_op_keys(out, then);
            proof { assert(texts(out@) =~= start + op_keys(*op)); }
        },
    }
}

fn push_prog_keys(out: &mut Vec<String>, prog: &Program)
    ensures
        texts(final(out)@) == texts(old(out)@) + prog_keys(*prog),
    decreases prog, 3nat,
{
    let ghost start = texts(out@);
    let mut k: usize = 0;
    while k < prog.ops.len()
        invariant
            k <= prog.ops@.len(),
            texts(out@) == start + ops_keys(prog.ops@.subrange(0, k as int)),
        decreases prog.ops@.len() - k,
    {
        proof { assert(decreases_to!(prog => prog.ops@[k as int])); }
        push_op_keys(out, &prog.ops[k]);
        proof { assert(prog.ops@.subrange(0, k + 1).drop_last() =~= prog.ops@.subrange(0, k as int)); }
        k = k + 1;
    }
    proof { assert(prog.ops@.subrange(0, prog.ops@.len() as int) =~= prog.ops@); }
}

/// Every field name `prog` uses, in op order (see `prog_keys`).
pub fn program_keys(prog: &Program) -> (r: Vec<String>)
    ensures
        texts(r@) == prog_keys(*prog),
{
    let mut out: Vec<String> = Vec::new();
    proof { assert(texts(out@) =~= Seq::<Seq<char>>::empty()); }
    push_prog_keys(&mut out, prog);
    out
}

} // verus!
