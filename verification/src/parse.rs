//! The schema boundary: the untyped `(name, kind, opts)` form read into the
//! compiler's input (`schema::FieldIn`), every option of every kind taken
//! from the one table `options::options_table` publishes.

use vstd::prelude::*;

use crate::form::{
    agrees, at, bool_opt, byteorder_opt, bytes_opt, expr_opt, expr_view, form_int, form_items, form_repr, i128_opt,
    in_set, item_at, item_count, names_opt, names_view, opt_msg, over_opt, over_view, prim_opt, read_bool,
    read_byteorder, read_bytes, read_expr, read_i128, read_names, read_over, read_prim, read_str, read_u64,
    read_usize, read_width, repr, set_parse, str_opt, u64_opt, usize_opt, width_opt, ExprV, Form, OverV, Vocab,
    MAX_DEPTH,
};
use crate::options::{
    extent, has_location, is_known, known_key, located, options_table, path_of, prim_allowed, prim_table,
    prim_what, schema_path, unknown_msg, unknown_option, PathSeg,
};
use crate::program::IntPrim;
use crate::schema::{ByteOrder, CrcOverrides, ExprIn, FieldIn, TypeIn};
use crate::text::{dec_chars, push_str, str_eq, string_of};

verus! {

// ---------- what a parsed schema amounts to ----------

/// A field as text and numbers.
pub struct FieldV {
    pub name: Option<Seq<char>>,
    pub ty: TypeV,
}

/// A type as text and numbers: `schema::TypeIn` with its strings and
/// vectors seen as sequences.
pub enum TypeV {
    Int { prim: IntPrim, byteorder: Option<ByteOrder>, const_: Option<i128> },
    Float { is64: bool, byteorder: Option<ByteOrder> },
    Bool { const_: Option<bool> },
    Raw { len: Option<usize>, const_: Option<Seq<u8>> },
    Bytes { len: ExprV, max: Option<usize> },
    StrT { len: ExprV, max: Option<usize>, encoding: Seq<char>, errors: Seq<char> },
    CStrT { max: Option<usize>, encoding: Seq<char>, errors: Seq<char> },
    Bits { width: u8, signed: bool },
    FlagsT { base: IntPrim, byteorder: Option<ByteOrder>, names: Seq<(Seq<char>, u64)>, rest: Seq<char> },
    DigestT { algo: Seq<char>, overrides: CrcOverrides, over: OverV, verify: bool },
    StructT { fields: Seq<FieldV>, byteorder: Option<ByteOrder>, size: Option<ExprV> },
    ArrayT { elem: Box<TypeV>, count: Option<ExprV>, until_eof: bool },
    SwitchT { on: ExprV, cases: Seq<(i64, TypeV)>, default: Option<Box<TypeV>> },
    CondT { pred: ExprV, then: Box<TypeV> },
}

pub open spec fn opt_expr_view(e: Option<ExprIn>) -> Option<ExprV> {
    match e {
        Some(x) => Some(expr_view(x)),
        None => None,
    }
}

pub open spec fn type_view(t: TypeIn) -> TypeV
    decreases t, 1nat,
{
    match t {
        TypeIn::Int { prim, byteorder, const_ } => TypeV::Int { prim, byteorder, const_ },
        TypeIn::Float { is64, byteorder } => TypeV::Float { is64, byteorder },
        TypeIn::Bool { const_ } => TypeV::Bool { const_ },
        TypeIn::Raw { len, const_ } => TypeV::Raw {
            len,
            const_: match const_ {
                Some(b) => Some(b@),
                None => None,
            },
        },
        TypeIn::Bytes { len, max } => TypeV::Bytes { len: expr_view(len), max },
        TypeIn::StrT { len, max, encoding, errors } => TypeV::StrT {
            len: expr_view(len),
            max,
            encoding: encoding@,
            errors: errors@,
        },
        TypeIn::CStrT { max, encoding, errors } => TypeV::CStrT { max, encoding: encoding@, errors: errors@ },
        TypeIn::Bits { width, signed } => TypeV::Bits { width, signed },
        TypeIn::FlagsT { base, byteorder, names, rest } => TypeV::FlagsT {
            base,
            byteorder,
            names: names_view(names@),
            rest: rest@,
        },
        TypeIn::DigestT { algo, overrides, over, verify } => TypeV::DigestT {
            algo: algo@,
            overrides,
            over: over_view(over),
            verify,
        },
        TypeIn::StructT { fields, byteorder, size } => {
            proof {
                assert(decreases_to!(t => fields));
                assert(decreases_to!(fields => fields@));
            }
            TypeV::StructT { fields: fields_view(fields@), byteorder, size: opt_expr_view(size) }
        },
        TypeIn::ArrayT { elem, count, until_eof } => TypeV::ArrayT {
            elem: Box::new(type_view(*elem)),
            count: opt_expr_view(count),
            until_eof,
        },
        TypeIn::SwitchT { on, cases, default } => {
            proof {
                assert(decreases_to!(t => cases));
                assert(decreases_to!(cases => cases@));
            }
            TypeV::SwitchT {
                on: expr_view(on),
                cases: cases_view(cases@),
                default: match default {
                    Some(d) => Some(Box::new(type_view(*d))),
                    None => None,
                },
            }
        },
        TypeIn::CondT { pred, then } => TypeV::CondT { pred: expr_view(pred), then: Box::new(type_view(*then)) },
    }
}

pub open spec fn fields_view(s: Seq<FieldIn>) -> Seq<FieldV>
    decreases s, 0nat,
{
    if s.len() == 0 {
        Seq::empty()
    } else {
        proof {
            assert(decreases_to!(s => s[s.len() - 1]));
            assert(decreases_to!(s[s.len() - 1] => s[s.len() - 1].ty));
        }
        fields_view(s.drop_last()).push(FieldV {
            name: match s.last().name {
                Some(n) => Some(n@),
                None => None,
            },
            ty: type_view(s.last().ty),
        })
    }
}

pub open spec fn cases_view(s: Seq<(i64, TypeIn)>) -> Seq<(i64, TypeV)>
    decreases s, 0nat,
{
    if s.len() == 0 {
        Seq::empty()
    } else {
        proof {
            assert(decreases_to!(s => s[s.len() - 1]));
            assert(decreases_to!(s[s.len() - 1] => s[s.len() - 1].1));
        }
        cases_view(s.drop_last()).push((s.last().0, type_view(s.last().1)))
    }
}

// ---------- options of a kind ----------

/// Where in the entries `e` the key `key` first stands, from `i` on.
pub open spec fn key_index(e: Seq<(Form, Form)>, key: Seq<char>, i: nat) -> Option<int>
    decreases e.len() - i,
{
    if i >= e.len() {
        None
    } else if e[i as int].0 matches Form::Str(k) && k@ == key {
        Some(i as int)
    } else {
        key_index(e, key, i + 1)
    }
}

pub proof fn lemma_key_index(e: Seq<(Form, Form)>, key: Seq<char>, i: nat)
    ensures
        key_index(e, key, i) matches Some(j) ==> i <= j < e.len(),
    decreases e.len() - i,
{
    if i < e.len() {
        lemma_key_index(e, key, i + 1);
    }
}

/// An option's value: `None` where it is not given, or given as null.
pub open spec fn opt_of(e: Seq<(Form, Form)>, key: Seq<char>) -> Option<Form> {
    match key_index(e, key, 0) {
        Some(j) => if e[j].1 is Nothing { None } else { Some(e[j].1) },
        None => None,
    }
}

/// The message for the first key of `e` (among the first `k`) that is not
/// a string, or not one `allowed` names.
pub open spec fn keys_check(e: Seq<(Form, Form)>, allowed: Seq<&'static str>, kind: Seq<char>, k: nat) -> Option<Seq<char>>
    decreases k,
{
    if k == 0 {
        None
    } else {
        match keys_check(e, allowed, kind, (k - 1) as nat) {
            Some(m) => Some(m),
            None => match e[k - 1].0 {
                Form::Str(s) => if known_key(allowed, s@) { None } else { Some(unknown_msg(kind, s@, allowed)) },
                _ => Some(kind + ": opts keys must be str"@),
            },
        }
    }
}

/// An optional option read with `read`.
pub open spec fn optional<X>(v: Option<Form>, read: spec_fn(Form) -> Result<X, Seq<char>>) -> Result<Option<X>, Seq<char>> {
    match v {
        None => Ok(None),
        Some(f) => match read(f) {
            Ok(x) => Ok(Some(x)),
            Err(e) => Err(e),
        },
    }
}

/// A required option read with `read`.
pub open spec fn required<X>(v: Option<Form>, read: spec_fn(Form) -> Result<X, Seq<char>>, kind: Seq<char>, key: Seq<char>) -> Result<X, Seq<char>> {
    match v {
        None => Err(at(kind, key) + " is required"@),
        Some(f) => read(f),
    }
}

/// The group of the table whose kinds hold `kind`, from group `g` on.
pub open spec fn group_from(kind: Seq<char>, g: nat) -> Option<int>
    decreases options_table().len() - g,
{
    if g >= options_table().len() {
        None
    } else if exists|j: int| 0 <= j < options_table()[g as int].0.len() && #[trigger] options_table()[g as int].0[j]@ == kind {
        Some(g as int)
    } else {
        group_from(kind, g + 1)
    }
}

pub proof fn lemma_group_from(kind: Seq<char>, g: nat)
    ensures
        group_from(kind, g) matches Some(x) ==> g <= x < options_table().len(),
    decreases options_table().len() - g,
{
    if g < options_table().len() {
        lemma_group_from(kind, g + 1);
    }
}

/// A path one field further down: `.name`, or bare at the top.
pub open spec fn under(path: Seq<char>, name: Seq<char>) -> Seq<char> {
    if path.len() == 0 { name } else { path + seq!['.'] + name }
}

/// A message says where it came from, once.
pub open spec fn locate(msg: Seq<char>, path: Seq<char>) -> Seq<char> {
    if has_location(msg) { msg } else { msg + " (at "@ + path + seq![')'] }
}

pub open spec fn tag_text(tag: i64) -> Seq<char> {
    if tag < 0 { seq!['-'] + dec_chars((-tag) as nat) } else { dec_chars(tag as nat) }
}

// ---------- the kinds with no type inside ----------

/// Integers, floats, bools, raw, bytes, str, cstr, bits, flags, digest:
/// the options of group `g` read from `e`, and the type they build.
pub open spec fn plain_type(g: int, kind: Seq<char>, e: Seq<(Form, Form)>) -> Result<TypeV, Seq<char>> {
    let o = |k: Seq<char>| opt_of(e, k);
    if g == 0 {
        match optional(o("byteorder"@), |f: Form| read_byteorder(f, kind, "byteorder"@)) {
            Err(m) => Err(m),
            Ok(byteorder) => match optional(o("const"@), |f: Form| read_i128(f, kind, "const"@)) {
                Err(m) => Err(m),
                Ok(const_) => match in_set(prim_table(), prim_what(), prim_allowed(), kind) {
                    Err(m) => Err(m),
                    Ok(prim) => Ok(TypeV::Int { prim, byteorder, const_ }),
                },
            },
        }
    } else if g == 1 {
        match optional(o("byteorder"@), |f: Form| read_byteorder(f, kind, "byteorder"@)) {
            Err(m) => Err(m),
            Ok(byteorder) => Ok(TypeV::Float { is64: kind == "f64"@, byteorder }),
        }
    } else if g == 2 {
        match optional(o("const"@), |f: Form| read_bool(f, kind, "const"@)) {
            Err(m) => Err(m),
            Ok(const_) => Ok(TypeV::Bool { const_ }),
        }
    } else if g == 3 {
        match optional(o("len"@), |f: Form| read_usize(f, kind, "len"@)) {
            Err(m) => Err(m),
            Ok(len) => match optional(o("const"@), |f: Form| read_bytes(f, kind, "const"@)) {
                Err(m) => Err(m),
                Ok(const_) => Ok(TypeV::Raw { len, const_ }),
            },
        }
    } else if g == 4 {
        match required(o("len"@), |f: Form| read_expr(f, kind, "len"@, 0), kind, "len"@) {
            Err(m) => Err(m),
            Ok(len) => match optional(o("max"@), |f: Form| read_usize(f, kind, "max"@)) {
                Err(m) => Err(m),
                Ok(max) => Ok(TypeV::Bytes { len, max }),
            },
        }
    } else if g == 5 {
        match required(o("len"@), |f: Form| read_expr(f, kind, "len"@, 0), kind, "len"@) {
            Err(m) => Err(m),
            Ok(len) => match optional(o("max"@), |f: Form| read_usize(f, kind, "max"@)) {
                Err(m) => Err(m),
                Ok(max) => match optional(o("encoding"@), |f: Form| read_str(f, kind, "encoding"@)) {
                    Err(m) => Err(m),
                    Ok(encoding) => match optional(o("errors"@), |f: Form| read_str(f, kind, "errors"@)) {
                        Err(m) => Err(m),
                        Ok(errors) => Ok(TypeV::StrT {
                            len,
                            max,
                            encoding: match encoding { Some(s) => s, None => "utf-8"@ },
                            errors: match errors { Some(s) => s, None => "strict"@ },
                        }),
                    },
                },
            },
        }
    } else if g == 6 {
        match optional(o("max"@), |f: Form| read_usize(f, kind, "max"@)) {
            Err(m) => Err(m),
            Ok(max) => match optional(o("encoding"@), |f: Form| read_str(f, kind, "encoding"@)) {
                Err(m) => Err(m),
                Ok(encoding) => match optional(o("errors"@), |f: Form| read_str(f, kind, "errors"@)) {
                    Err(m) => Err(m),
                    Ok(errors) => Ok(TypeV::CStrT {
                        max,
                        encoding: match encoding { Some(s) => s, None => "utf-8"@ },
                        errors: match errors { Some(s) => s, None => "strict"@ },
                    }),
                },
            },
        }
    } else if g == 7 {
        match required(o("width"@), |f: Form| read_width(f, kind, "width"@), kind, "width"@) {
            Err(m) => Err(m),
            Ok(width) => match optional(o("signed"@), |f: Form| read_bool(f, kind, "signed"@)) {
                Err(m) => Err(m),
                Ok(signed) => Ok(TypeV::Bits { width, signed: match signed { Some(b) => b, None => false } }),
            },
        }
    } else if g == 8 {
        match required(o("base"@), |f: Form| read_prim(f, kind, "base"@), kind, "base"@) {
            Err(m) => Err(m),
            Ok(base) => match required(o("names"@), |f: Form| read_names(f), kind, "names"@) {
                Err(m) => Err(m),
                Ok(names) => match optional(o("rest"@), |f: Form| read_str(f, kind, "rest"@)) {
                    Err(m) => Err(m),
                    Ok(rest) => match optional(o("byteorder"@), |f: Form| read_byteorder(f, kind, "byteorder"@)) {
                        Err(m) => Err(m),
                        Ok(byteorder) => Ok(TypeV::FlagsT {
                            base,
                            byteorder,
                            names,
                            rest: match rest { Some(s) => s, None => "keep"@ },
                        }),
                    },
                },
            },
        }
    } else {
        match required(o("algo"@), |f: Form| read_str(f, kind, "algo"@), kind, "algo"@) {
            Err(m) => Err(m),
            Ok(algo) => match required(o("over"@), |f: Form| read_over(f), kind, "over"@) {
                Err(m) => Err(m),
                Ok(over) => match optional(o("verify"@), |f: Form| read_bool(f, kind, "verify"@)) {
                    Err(m) => Err(m),
                    Ok(verify) => match optional(o("poly"@), |f: Form| read_u64(f, kind, "poly"@)) {
                        Err(m) => Err(m),
                        Ok(poly) => match optional(o("init"@), |f: Form| read_u64(f, kind, "init"@)) {
                            Err(m) => Err(m),
                            Ok(init) => match optional(o("xorout"@), |f: Form| read_u64(f, kind, "xorout"@)) {
                                Err(m) => Err(m),
                                Ok(xorout) => match optional(o("refin"@), |f: Form| read_bool(f, kind, "refin"@)) {
                                    Err(m) => Err(m),
                                    Ok(refin) => match optional(o("refout"@), |f: Form| read_bool(f, kind, "refout"@)) {
                                        Err(m) => Err(m),
                                        Ok(refout) => Ok(TypeV::DigestT {
                                            algo,
                                            overrides: CrcOverrides { poly, init, xorout, refin, refout },
                                            over,
                                            verify: match verify { Some(b) => b, None => true },
                                        }),
                                    },
                                },
                            },
                        },
                    },
                },
            },
        }
    }
}

// ---------- the kinds with types inside, and the tuple forms ----------

/// An iterable's item that is a tuple is part of it.
pub proof fn lemma_item_smaller(f: Form, k: int)
    requires
        form_items(f) matches Some(s) && 0 <= k < s.len() && s[k] is Tuple,
    ensures
        decreases_to!(f => form_items(f)->Some_0[k]),
{
    match f {
        Form::Tuple(v, _) => {
            assert(decreases_to!(f => v));
            assert(decreases_to!(v => v@));
            assert(decreases_to!(v@ => v@[k]));
        },
        Form::List(v, _) => {
            assert(decreases_to!(f => v));
            assert(decreases_to!(v => v@));
            assert(decreases_to!(v@ => v@[k]));
        },
        Form::Iter(v, _) => {
            assert(decreases_to!(f => v));
            assert(decreases_to!(v => v@));
            assert(decreases_to!(v@ => v@[k]));
        },
        Form::Dict(e, _) => {
            assert(decreases_to!(f => e));
            assert(decreases_to!(e => e@));
            assert(decreases_to!(e@ => e@[k]));
            assert(decreases_to!(e@[k] => e@[k].0));
        },
        _ => {},
    }
}

/// An option's value is part of the options.
pub proof fn lemma_opt_smaller(opts: Form, key: Seq<char>)
    requires
        opts matches Form::Dict(e, _) && opt_of(e@, key) is Some,
    ensures
        decreases_to!(opts => opt_of(opts->Dict_0@, key)->Some_0),
{
    if let Form::Dict(e, _) = opts {
        lemma_key_index(e@, key, 0);
        let j = key_index(e@, key, 0)->Some_0;
        assert(decreases_to!(opts => e));
        assert(decreases_to!(e => e@));
        assert(decreases_to!(e@ => e@[j]));
        assert(decreases_to!(e@[j] => e@[j].1));
    }
}

pub open spec fn field_shape() -> Seq<char> {
    "a field must be a (name, kind, opts) tuple"@
}

pub open spec fn spec_shape() -> Seq<char> {
    "a type spec must be a (kind, opts) tuple"@
}

pub open spec fn case_shape() -> Seq<char> {
    "switch: a cases element must be a (int, (kind, opts)) tuple"@
}

pub open spec fn tag_msg() -> Seq<char> {
    "switch: a branch tag must be an int (i64)"@
}

/// A kind and its options dictionary: the type they describe, or the
/// message for the first thing wrong, checked in this order: the depth,
/// the kind, the option names, then each option in the order the table
/// lists it.
pub open spec fn read_type(kind: Seq<char>, opts: Form, depth: nat, path: Seq<char>) -> Result<TypeV, Seq<char>>
    decreases opts, 1nat, 0nat,
{
    if depth > MAX_DEPTH {
        Err("schema nests deeper than 128 levels"@)
    } else {
        match group_from(kind, 0) {
            None => Err("unknown kind '"@ + kind + seq!['\'']),
            Some(g) => match opts {
                Form::Dict(e, _) => match keys_check(e@, options_table()[g].1, kind, e@.len()) {
                    Some(m) => Err(m),
                    None => if g < 10 { plain_type(g, kind, e@) } else { nested_type(g, kind, opts, depth, path) },
                },
                _ => Err(kind + ": opts must be a dict"@),
            },
        }
    }
}

/// Struct, array, switch and cond: the kinds that hold types.
pub open spec fn nested_type(g: int, kind: Seq<char>, opts: Form, depth: nat, path: Seq<char>) -> Result<TypeV, Seq<char>>
    decreases opts, 0nat, 0nat,
{
    let e = opts->Dict_0@;
    let o = |k: Seq<char>| opt_of(e, k);
    if !(opts is Dict) {
        Err(kind + ": opts must be a dict"@)
    } else if g == 10 {
        let fields = match o("fields"@) {
            None => Err(at(kind, "fields"@) + " is required"@),
            Some(v) => {
                proof { lemma_opt_smaller(opts, "fields"@); }
                read_fields(v, depth + 1, path)
            },
        };
        match fields {
            Err(m) => Err(m),
            Ok(fields) => match optional(o("byteorder"@), |f: Form| read_byteorder(f, kind, "byteorder"@)) {
                Err(m) => Err(m),
                Ok(byteorder) => match optional(o("size"@), |f: Form| read_expr(f, kind, "size"@, 0)) {
                    Err(m) => Err(m),
                    Ok(size) => Ok(TypeV::StructT { fields, byteorder, size }),
                },
            },
        }
    } else if g == 11 {
        let elem = match o("elem"@) {
            None => Err(at(kind, "elem"@) + " is required"@),
            Some(v) => {
                proof { lemma_opt_smaller(opts, "elem"@); }
                read_spec(v, depth + 1, path + "[]"@)
            },
        };
        match elem {
            Err(m) => Err(m),
            Ok(elem) => match optional(o("count"@), |f: Form| read_expr(f, kind, "count"@, 0)) {
                Err(m) => Err(m),
                Ok(count) => match optional(o("until_eof"@), |f: Form| read_bool(f, kind, "until_eof"@)) {
                    Err(m) => Err(m),
                    Ok(until_eof) => match (count, match until_eof { Some(b) => b, None => false }) {
                        (Some(_), true) => Err("array: count and until_eof are mutually exclusive"@),
                        (None, false) => Err("array: count or until_eof is required"@),
                        (None, true) => Ok(TypeV::ArrayT { elem: Box::new(elem), count: Some(ExprV::Greedy), until_eof: false }),
                        (Some(c), false) => Ok(TypeV::ArrayT { elem: Box::new(elem), count: Some(c), until_eof: false }),
                    },
                },
            },
        }
    } else if g == 12 {
        match required(o("on"@), |f: Form| read_expr(f, kind, "on"@, 0), kind, "on"@) {
            Err(m) => Err(m),
            Ok(on) => {
                let cases = match o("cases"@) {
                    None => Err(at(kind, "cases"@) + " is required"@),
                    Some(v) => {
                        proof { lemma_opt_smaller(opts, "cases"@); }
                        read_cases(v, depth, path)
                    },
                };
                match cases {
                    Err(m) => Err(m),
                    Ok(cases) => {
                        let default = match o("default"@) {
                            None => Ok(None),
                            Some(v) => {
                                proof { lemma_opt_smaller(opts, "default"@); }
                                match read_spec(v, depth + 1, path + "?default"@) {
                                    Err(m) => Err(m),
                                    Ok(t) => Ok(Some(Box::new(t))),
                                }
                            },
                        };
                        match default {
                            Err(m) => Err(m),
                            Ok(default) => Ok(TypeV::SwitchT { on, cases, default }),
                        }
                    },
                }
            },
        }
    } else {
        match required(o("pred"@), |f: Form| read_expr(f, kind, "pred"@, 0), kind, "pred"@) {
            Err(m) => Err(m),
            Ok(pred) => {
                let then = match o("then"@) {
                    None => Err(at(kind, "then"@) + " is required"@),
                    Some(v) => {
                        proof { lemma_opt_smaller(opts, "then"@); }
                        read_spec(v, depth + 1, path)
                    },
                };
                match then {
                    Err(m) => Err(m),
                    Ok(then) => Ok(TypeV::CondT { pred, then: Box::new(then) }),
                }
            },
        }
    }
}

/// `(kind, opts)`: a type where a field's type is not named, as an array
/// element, a switch branch or a `when` field's type.
pub open spec fn read_spec(f: Form, depth: nat, path: Seq<char>) -> Result<TypeV, Seq<char>>
    decreases f, 2nat, 0nat,
{
    match f {
        Form::Tuple(v, _) => if v@.len() != 2 {
            Err(spec_shape())
        } else {
            proof {
                assert(decreases_to!(f => v));
                assert(decreases_to!(v => v@));
                assert(decreases_to!(v@ => v@[1]));
            }
            match v@[0] {
                Form::Str(kind) => match v@[1] {
                    Form::Dict(..) => read_type(kind@, v@[1], depth, path),
                    _ => Err(kind@ + ": opts must be a dict"@),
                },
                _ => Err("unknown kind "@ + form_repr(v@[0])),
            }
        },
        _ => Err(spec_shape()),
    }
}

/// `(name, kind, opts)`: one field. What goes wrong with its type is said
/// together with where the field is.
pub open spec fn read_field(f: Form, depth: nat, path: Seq<char>) -> Result<FieldV, Seq<char>>
    decreases f, 2nat, 0nat,
{
    match f {
        Form::Tuple(v, _) => if v@.len() != 3 {
            Err(field_shape())
        } else {
            let name: Result<Option<Seq<char>>, Seq<char>> = match v@[0] {
                Form::Nothing => Ok(None),
                Form::Str(s) => Ok(Some(s@)),
                _ => Err("field name must be a str or None"@),
            };
            match name {
                Err(m) => Err(m),
                Ok(name) => {
                    let here = under(path, match name { Some(s) => s, None => "<unnamed>"@ });
                    proof {
                        assert(decreases_to!(f => v));
                        assert(decreases_to!(v => v@));
                        assert(decreases_to!(v@ => v@[2]));
                    }
                    let ty = match v@[1] {
                        Form::Str(kind) => match v@[2] {
                            Form::Dict(..) => read_type(kind@, v@[2], depth, here),
                            _ => Err(kind@ + ": opts must be a dict"@),
                        },
                        _ => Err("unknown kind "@ + form_repr(v@[1])),
                    };
                    match ty {
                        Err(m) => Err(locate(m, here)),
                        Ok(ty) => Ok(FieldV { name, ty }),
                    }
                },
            }
        },
        _ => Err(field_shape()),
    }
}

/// An iterable of fields.
pub open spec fn read_fields(f: Form, depth: nat, path: Seq<char>) -> Result<Seq<FieldV>, Seq<char>>
    decreases f, 2nat, 0nat,
{
    match form_items(f) {
        None => Err("fields must be an iterable of (name, kind, opts) tuples"@),
        Some(items) => fields_upto(f, items.len(), depth, path),
    }
}

/// The first `k` items of an iterable of fields.
pub open spec fn fields_upto(f: Form, k: nat, depth: nat, path: Seq<char>) -> Result<Seq<FieldV>, Seq<char>>
    decreases f, 1nat, k,
{
    if k == 0 {
        Ok(Seq::empty())
    } else {
        match fields_upto(f, (k - 1) as nat, depth, path) {
            Err(m) => Err(m),
            Ok(fs) => if form_items(f) matches Some(items) && k - 1 < items.len() && items[k - 1] is Tuple {
                proof { lemma_item_smaller(f, k - 1); }
                match read_field(form_items(f)->Some_0[k - 1], depth, path) {
                    Err(m) => Err(m),
                    Ok(fv) => Ok(fs.push(fv)),
                }
            } else {
                Err(field_shape())
            },
        }
    }
}

/// `(tag, (kind, opts))`: one switch branch.
pub open spec fn read_case(f: Form, depth: nat, path: Seq<char>) -> Result<(i64, TypeV), Seq<char>>
    decreases f, 2nat, 0nat,
{
    match f {
        Form::Tuple(v, _) => if v@.len() != 2 {
            Err(case_shape())
        } else {
            match v@[0] {
                Form::Bool(_) => Err(tag_msg()),
                _ => match form_int(v@[0]) {
                    Some(t) => if i64::MIN <= t <= i64::MAX {
                        proof {
                            assert(decreases_to!(f => v));
                            assert(decreases_to!(v => v@));
                            assert(decreases_to!(v@ => v@[1]));
                        }
                        match read_spec(v@[1], depth + 1, path + seq!['?'] + tag_text(t as i64)) {
                            Err(m) => Err(m),
                            Ok(ty) => Ok((t as i64, ty)),
                        }
                    } else {
                        Err(tag_msg())
                    },
                    None => Err(tag_msg()),
                },
            }
        },
        _ => Err(case_shape()),
    }
}

/// An iterable of switch branches.
pub open spec fn read_cases(f: Form, depth: nat, path: Seq<char>) -> Result<Seq<(i64, TypeV)>, Seq<char>>
    decreases f, 2nat, 0nat,
{
    match form_items(f) {
        None => Err(case_shape()),
        Some(items) => cases_upto(f, items.len(), depth, path),
    }
}

pub open spec fn cases_upto(f: Form, k: nat, depth: nat, path: Seq<char>) -> Result<Seq<(i64, TypeV)>, Seq<char>>
    decreases f, 1nat, k,
{
    if k == 0 {
        Ok(Seq::empty())
    } else {
        match cases_upto(f, (k - 1) as nat, depth, path) {
            Err(m) => Err(m),
            Ok(cs) => if form_items(f) matches Some(items) && k - 1 < items.len() && items[k - 1] is Tuple {
                proof { lemma_item_smaller(f, k - 1); }
                match read_case(form_items(f)->Some_0[k - 1], depth, path) {
                    Err(m) => Err(m),
                    Ok(c) => Ok(cs.push(c)),
                }
            } else {
                Err(case_shape())
            },
        }
    }
}

// ---------- reading the form ----------

fn key_at(e: &Vec<(Form, Form)>, key: &str) -> (r: Option<usize>)
    ensures
        match key_index(e@, key@, 0) {
            Some(j) => r matches Some(i) && i as int == j,
            None => r is None,
        },
{
    let mut i: usize = 0;
    while i < e.len()
        invariant
            i <= e@.len(),
            key_index(e@, key@, 0) == key_index(e@, key@, i as nat),
        decreases e@.len() - i,
    {
        if let Form::Str(k) = &e[i].0 {
            if str_eq(k.as_str(), key) {
                return Some(i);
            }
        }
        i = i + 1;
    }
    None
}

/// An option's value, where it is given and not null.
fn opt_get<'a>(e: &'a Vec<(Form, Form)>, key: &str) -> (r: Option<&'a Form>)
    ensures
        match opt_of(e@, key@) {
            Some(v) => r matches Some(x) && *x == v,
            None => r is None,
        },
{
    proof { lemma_key_index(e@, key@, 0); }
    match key_at(e, key) {
        Some(j) => match &e[j].1 {
            Form::Nothing => None,
            v => Some(v),
        },
        None => None,
    }
}

pub proof fn lemma_keys_check_fail(e: Seq<(Form, Form)>, allowed: Seq<&'static str>, kind: Seq<char>, k: nat, t: nat)
    requires
        k <= t,
        keys_check(e, allowed, kind, k) is Some,
    ensures
        keys_check(e, allowed, kind, t) == keys_check(e, allowed, kind, k),
    decreases t - k,
{
    if t > k {
        lemma_keys_check_fail(e, allowed, kind, k, (t - 1) as nat);
    }
}

fn keys_ok(e: &Vec<(Form, Form)>, allowed: &Vec<&'static str>, kind: &str) -> (r: Result<(), String>)
    ensures
        match keys_check(e@, allowed@, kind@, e@.len()) {
            Some(m) => r matches Err(x) && x@ == m,
            None => r is Ok,
        },
{
    let mut i: usize = 0;
    while i < e.len()
        invariant
            i <= e@.len(),
            keys_check(e@, allowed@, kind@, i as nat) is None,
        decreases e@.len() - i,
    {
        match &e[i].0 {
            Form::Str(k) => {
                if !is_known(k.as_str(), allowed.as_slice()) {
                    let m = unknown_option(k.as_str(), allowed.as_slice(), kind);
                    proof { lemma_keys_check_fail(e@, allowed@, kind@, (i + 1) as nat, e@.len()); }
                    return Err(m);
                }
            },
            _ => {
                let mut m = string_of(kind);
                push_str(&mut m, ": opts keys must be str");
                proof { lemma_keys_check_fail(e@, allowed@, kind@, (i + 1) as nat, e@.len()); }
                return Err(m);
            },
        }
        i = i + 1;
    }
    Ok(())
}

fn group_of(kind: &str, voc: &Vocab) -> (r: Option<usize>)
    requires
        voc.wf(),
    ensures
        match group_from(kind@, 0) {
            Some(g) => r matches Some(x) && x as int == g,
            None => r is None,
        },
{
    let mut g: usize = 0;
    while g < voc.kinds.len()
        invariant
            voc.wf(),
            g <= voc.kinds@.len(),
            group_from(kind@, 0) == group_from(kind@, g as nat),
        decreases voc.kinds@.len() - g,
    {
        let names = &voc.kinds[g].0;
        proof { assert(voc.kinds@[g as int].0@ == options_table()[g as int].0); }
        let mut j: usize = 0;
        while j < names.len()
            invariant
                voc.wf(),
                g < voc.kinds@.len(),
                *names == voc.kinds@[g as int].0,
                names@ == options_table()[g as int].0,
                group_from(kind@, 0) == group_from(kind@, g as nat),
                j <= names@.len(),
                forall|q: int| 0 <= q < j ==> #[trigger] options_table()[g as int].0[q]@ != kind@,
            decreases names@.len() - j,
        {
            if str_eq(names[j], kind) {
                proof {
                    assert(options_table()[g as int].0[j as int]@ == kind@);
                    assert(exists|q: int| 0 <= q < options_table()[g as int].0.len()
                        && #[trigger] options_table()[g as int].0[q]@ == kind@);
                }
                return Some(g);
            }
            j = j + 1;
        }
        g = g + 1;
    }
    None
}

// ---------- the kinds with no type inside ----------

fn int_type(kind: &str, e: &Vec<(Form, Form)>, voc: &Vocab) -> (r: Result<TypeIn, String>)
    requires
        voc.wf(),
    ensures
        agrees(r, plain_type(0, kind@, e@), |t: TypeIn| type_view(t)),
{
    let byteorder = match opt_get(e, "byteorder") {
        Some(v) => Some(byteorder_opt(v, kind, "byteorder", voc)?),
        None => None,
    };
    let const_ = match opt_get(e, "const") {
        Some(v) => Some(i128_opt(v, kind, "const")?),
        None => None,
    };
    let prim = set_parse(&voc.prims, kind, Ghost(prim_table()), Ghost(prim_what()), Ghost(prim_allowed()))?;
    Ok(TypeIn::Int { prim, byteorder, const_ })
}

fn float_type(kind: &str, e: &Vec<(Form, Form)>, voc: &Vocab) -> (r: Result<TypeIn, String>)
    requires
        voc.wf(),
    ensures
        agrees(r, plain_type(1, kind@, e@), |t: TypeIn| type_view(t)),
{
    let byteorder = match opt_get(e, "byteorder") {
        Some(v) => Some(byteorder_opt(v, kind, "byteorder", voc)?),
        None => None,
    };
    Ok(TypeIn::Float { is64: str_eq(kind, "f64"), byteorder })
}

fn bool_type(kind: &str, e: &Vec<(Form, Form)>) -> (r: Result<TypeIn, String>)
    ensures
        agrees(r, plain_type(2, kind@, e@), |t: TypeIn| type_view(t)),
{
    let const_ = match opt_get(e, "const") {
        Some(v) => Some(bool_opt(v, kind, "const")?),
        None => None,
    };
    Ok(TypeIn::Bool { const_ })
}

fn raw_type(kind: &str, e: &Vec<(Form, Form)>) -> (r: Result<TypeIn, String>)
    ensures
        agrees(r, plain_type(3, kind@, e@), |t: TypeIn| type_view(t)),
{
    let len = match opt_get(e, "len") {
        Some(v) => Some(usize_opt(v, kind, "len")?),
        None => None,
    };
    let const_ = match opt_get(e, "const") {
        Some(v) => Some(bytes_opt(v, kind, "const")?),
        None => None,
    };
    Ok(TypeIn::Raw { len, const_ })
}

fn bytes_type(kind: &str, e: &Vec<(Form, Form)>, voc: &Vocab) -> (r: Result<TypeIn, String>)
    requires
        voc.wf(),
    ensures
        agrees(r, plain_type(4, kind@, e@), |t: TypeIn| type_view(t)),
{
    let len = match opt_get(e, "len") {
        Some(v) => expr_opt(v, kind, "len", 0, voc)?,
        None => return Err(opt_msg(kind, "len", " is required")),
    };
    let max = match opt_get(e, "max") {
        Some(v) => Some(usize_opt(v, kind, "max")?),
        None => None,
    };
    Ok(TypeIn::Bytes { len, max })
}

fn str_type(kind: &str, e: &Vec<(Form, Form)>, voc: &Vocab) -> (r: Result<TypeIn, String>)
    requires
        voc.wf(),
    ensures
        agrees(r, plain_type(5, kind@, e@), |t: TypeIn| type_view(t)),
{
    let len = match opt_get(e, "len") {
        Some(v) => expr_opt(v, kind, "len", 0, voc)?,
        None => return Err(opt_msg(kind, "len", " is required")),
    };
    let max = match opt_get(e, "max") {
        Some(v) => Some(usize_opt(v, kind, "max")?),
        None => None,
    };
    let encoding = match opt_get(e, "encoding") {
        Some(v) => str_opt(v, kind, "encoding")?,
        None => string_of("utf-8"),
    };
    let errors = match opt_get(e, "errors") {
        Some(v) => str_opt(v, kind, "errors")?,
        None => string_of("strict"),
    };
    Ok(TypeIn::StrT { len, max, encoding, errors })
}

fn cstr_type(kind: &str, e: &Vec<(Form, Form)>) -> (r: Result<TypeIn, String>)
    ensures
        agrees(r, plain_type(6, kind@, e@), |t: TypeIn| type_view(t)),
{
    let max = match opt_get(e, "max") {
        Some(v) => Some(usize_opt(v, kind, "max")?),
        None => None,
    };
    let encoding = match opt_get(e, "encoding") {
        Some(v) => str_opt(v, kind, "encoding")?,
        None => string_of("utf-8"),
    };
    let errors = match opt_get(e, "errors") {
        Some(v) => str_opt(v, kind, "errors")?,
        None => string_of("strict"),
    };
    Ok(TypeIn::CStrT { max, encoding, errors })
}

fn bits_type(kind: &str, e: &Vec<(Form, Form)>) -> (r: Result<TypeIn, String>)
    ensures
        agrees(r, plain_type(7, kind@, e@), |t: TypeIn| type_view(t)),
{
    let width = match opt_get(e, "width") {
        Some(v) => width_opt(v, kind, "width")?,
        None => return Err(opt_msg(kind, "width", " is required")),
    };
    let signed = match opt_get(e, "signed") {
        Some(v) => bool_opt(v, kind, "signed")?,
        None => false,
    };
    Ok(TypeIn::Bits { width, signed })
}

fn flags_type(kind: &str, e: &Vec<(Form, Form)>, voc: &Vocab) -> (r: Result<TypeIn, String>)
    requires
        voc.wf(),
    ensures
        agrees(r, plain_type(8, kind@, e@), |t: TypeIn| type_view(t)),
{
    let base = match opt_get(e, "base") {
        Some(v) => prim_opt(v, kind, "base", voc)?,
        None => return Err(opt_msg(kind, "base", " is required")),
    };
    let names = match opt_get(e, "names") {
        Some(v) => names_opt(v)?,
        None => return Err(opt_msg(kind, "names", " is required")),
    };
    let rest = match opt_get(e, "rest") {
        Some(v) => str_opt(v, kind, "rest")?,
        None => string_of("keep"),
    };
    let byteorder = match opt_get(e, "byteorder") {
        Some(v) => Some(byteorder_opt(v, kind, "byteorder", voc)?),
        None => None,
    };
    Ok(TypeIn::FlagsT { base, byteorder, names, rest })
}

fn digest_type(kind: &str, e: &Vec<(Form, Form)>) -> (r: Result<TypeIn, String>)
    ensures
        agrees(r, plain_type(9, kind@, e@), |t: TypeIn| type_view(t)),
{
    let algo = match opt_get(e, "algo") {
        Some(v) => str_opt(v, kind, "algo")?,
        None => return Err(opt_msg(kind, "algo", " is required")),
    };
    let over = match opt_get(e, "over") {
        Some(v) => over_opt(v)?,
        None => return Err(opt_msg(kind, "over", " is required")),
    };
    let verify = match opt_get(e, "verify") {
        Some(v) => bool_opt(v, kind, "verify")?,
        None => true,
    };
    let poly = match opt_get(e, "poly") {
        Some(v) => Some(u64_opt(v, kind, "poly")?),
        None => None,
    };
    let init = match opt_get(e, "init") {
        Some(v) => Some(u64_opt(v, kind, "init")?),
        None => None,
    };
    let xorout = match opt_get(e, "xorout") {
        Some(v) => Some(u64_opt(v, kind, "xorout")?),
        None => None,
    };
    let refin = match opt_get(e, "refin") {
        Some(v) => Some(bool_opt(v, kind, "refin")?),
        None => None,
    };
    let refout = match opt_get(e, "refout") {
        Some(v) => Some(bool_opt(v, kind, "refout")?),
        None => None,
    };
    Ok(TypeIn::DigestT { algo, overrides: CrcOverrides { poly, init, xorout, refin, refout }, over, verify })
}

// ---------- the kinds with types inside, and the tuple forms ----------

pub open spec fn field_view(f: FieldIn) -> FieldV {
    FieldV {
        name: match f.name {
            Some(n) => Some(n@),
            None => None,
        },
        ty: type_view(f.ty),
    }
}

pub proof fn lemma_fields_fail(f: Form, k: nat, t: nat, depth: nat, path: Seq<char>)
    requires
        k <= t,
        fields_upto(f, k, depth, path) is Err,
    ensures
        fields_upto(f, t, depth, path) == fields_upto(f, k, depth, path),
    decreases t - k,
{
    if t > k {
        lemma_fields_fail(f, k, (t - 1) as nat, depth, path);
    }
}

pub proof fn lemma_cases_fail(f: Form, k: nat, t: nat, depth: nat, path: Seq<char>)
    requires
        k <= t,
        cases_upto(f, k, depth, path) is Err,
    ensures
        cases_upto(f, t, depth, path) == cases_upto(f, k, depth, path),
    decreases t - k,
{
    if t > k {
        lemma_cases_fail(f, k, (t - 1) as nat, depth, path);
    }
}

/// Pushing a segment extends the path as `path_of` spells it.
proof fn lemma_path_push(segs: Seq<PathSeg>, seg: PathSeg)
    ensures
        path_of(segs.push(seg)) == match seg {
            PathSeg::Nothing => path_of(segs),
            PathSeg::Field(name) => under(path_of(segs), name@),
            PathSeg::Suffix(t) => path_of(segs) + t@,
            PathSeg::Case(tag) => path_of(segs) + seq!['?'] + tag_text(tag),
        },
{
    assert(segs.push(seg).drop_last() =~= segs);
}

fn unknown_kind_of(f: &Form) -> (r: String)
    ensures
        r@ == "unknown kind "@ + form_repr(*f),
{
    let mut m = string_of("unknown kind ");
    let rp = repr(f);
    push_str(&mut m, rp.as_str());
    m
}

fn not_a_dict(kind: &str) -> (r: String)
    ensures
        r@ == kind@ + ": opts must be a dict"@,
{
    let mut m = string_of(kind);
    push_str(&mut m, ": opts must be a dict");
    m
}

fn parse_type(kind: &str, opts: &Form, depth: usize, segs: &mut Vec<PathSeg>, voc: &Vocab) -> (r: Result<TypeIn, String>)
    requires
        voc.wf(),
        depth <= MAX_DEPTH + 1,
    ensures
        final(segs)@ == old(segs)@,
        agrees(r, read_type(kind@, *opts, depth as nat, path_of(old(segs)@)), |t: TypeIn| type_view(t)),
    decreases opts, 1nat, 0nat,
{
    if depth > MAX_DEPTH {
        return Err(string_of("schema nests deeper than 128 levels"));
    }
    let g = match group_of(kind, voc) {
        Some(g) => g,
        None => {
            let mut m = string_of("unknown kind '");
            push_str(&mut m, kind);
            crate::text::push_char(&mut m, '\'');
            proof { assert(m@ =~= "unknown kind '"@ + kind@ + seq!['\'']); }
            return Err(m);
        },
    };
    proof {
        lemma_group_from(kind@, 0);
        assert(voc.kinds@[g as int].0@ == options_table()[g as int].0);
        assert(voc.kinds@[g as int].1@ == options_table()[g as int].1);
    }
    let e = match opts {
        Form::Dict(e, _) => e,
        _ => return Err(not_a_dict(kind)),
    };
    keys_ok(e, &voc.kinds[g].1, kind)?;
    if g == 0 {
        int_type(kind, e, voc)
    } else if g == 1 {
        float_type(kind, e, voc)
    } else if g == 2 {
        bool_type(kind, e)
    } else if g == 3 {
        raw_type(kind, e)
    } else if g == 4 {
        bytes_type(kind, e, voc)
    } else if g == 5 {
        str_type(kind, e, voc)
    } else if g == 6 {
        cstr_type(kind, e)
    } else if g == 7 {
        bits_type(kind, e)
    } else if g == 8 {
        flags_type(kind, e, voc)
    } else if g == 9 {
        digest_type(kind, e)
    } else if g == 10 {
        struct_type(kind, opts, depth, segs, voc)
    } else if g == 11 {
        array_type(kind, opts, depth, segs, voc)
    } else if g == 12 {
        switch_type(kind, opts, depth, segs, voc)
    } else {
        cond_type(kind, opts, depth, segs, voc)
    }
}

fn struct_type(kind: &str, opts: &Form, depth: usize, segs: &mut Vec<PathSeg>, voc: &Vocab) -> (r: Result<TypeIn, String>)
    requires
        voc.wf(),
        depth <= MAX_DEPTH,
    ensures
        final(segs)@ == old(segs)@,
        agrees(r, nested_type(10, kind@, *opts, depth as nat, path_of(old(segs)@)), |t: TypeIn| type_view(t)),
    decreases opts, 0nat, 0nat,
{
    let e = match opts {
        Form::Dict(e, _) => e,
        _ => return Err(not_a_dict(kind)),
    };
    let fields = match opt_get(e, "fields") {
        Some(v) => {
            proof { lemma_opt_smaller(*opts, "fields"@); }
            fields_at(v, depth + 1, segs, voc)?
        },
        None => return Err(opt_msg(kind, "fields", " is required")),
    };
    let byteorder = match opt_get(e, "byteorder") {
        Some(v) => Some(byteorder_opt(v, kind, "byteorder", voc)?),
        None => None,
    };
    let size = match opt_get(e, "size") {
        Some(v) => Some(expr_opt(v, kind, "size", 0, voc)?),
        None => None,
    };
    Ok(TypeIn::StructT { fields, byteorder, size })
}

fn array_type(kind: &str, opts: &Form, depth: usize, segs: &mut Vec<PathSeg>, voc: &Vocab) -> (r: Result<TypeIn, String>)
    requires
        voc.wf(),
        depth <= MAX_DEPTH,
    ensures
        final(segs)@ == old(segs)@,
        agrees(r, nested_type(11, kind@, *opts, depth as nat, path_of(old(segs)@)), |t: TypeIn| type_view(t)),
    decreases opts, 0nat, 0nat,
{
    let e = match opts {
        Form::Dict(e, _) => e,
        _ => return Err(not_a_dict(kind)),
    };
    let elem = match opt_get(e, "elem") {
        Some(v) => {
            proof { lemma_opt_smaller(*opts, "elem"@); }
            let seg = PathSeg::Suffix(string_of("[]"));
            proof { lemma_path_push(segs@, seg); }
            segs.push(seg);
            let t = parse_spec(v, depth + 1, segs, voc);
            segs.pop();
            proof { assert(segs@ =~= old(segs)@); }
            t?
        },
        None => return Err(opt_msg(kind, "elem", " is required")),
    };
    let count = match opt_get(e, "count") {
        Some(v) => Some(expr_opt(v, kind, "count", 0, voc)?),
        None => None,
    };
    let until_eof = match opt_get(e, "until_eof") {
        Some(v) => bool_opt(v, kind, "until_eof")?,
        None => false,
    };
    let c = extent(count, until_eof)?;
    Ok(TypeIn::ArrayT { elem: Box::new(elem), count: Some(c), until_eof: false })
}

#[verifier::rlimit(40)]
fn switch_type(kind: &str, opts: &Form, depth: usize, segs: &mut Vec<PathSeg>, voc: &Vocab) -> (r: Result<TypeIn, String>)
    requires
        voc.wf(),
        depth <= MAX_DEPTH,
    ensures
        final(segs)@ == old(segs)@,
        agrees(r, nested_type(12, kind@, *opts, depth as nat, path_of(old(segs)@)), |t: TypeIn| type_view(t)),
    decreases opts, 0nat, 0nat,
{
    let e = match opts {
        Form::Dict(e, _) => e,
        _ => return Err(not_a_dict(kind)),
    };
    let on = match opt_get(e, "on") {
        Some(v) => expr_opt(v, kind, "on", 0, voc)?,
        None => return Err(opt_msg(kind, "on", " is required")),
    };
    let cases = match opt_get(e, "cases") {
        Some(v) => {
            proof { lemma_opt_smaller(*opts, "cases"@); }
            cases_at(v, depth, segs, voc)?
        },
        None => return Err(opt_msg(kind, "cases", " is required")),
    };
    let default = match opt_get(e, "default") {
        Some(v) => {
            proof { lemma_opt_smaller(*opts, "default"@); }
            let seg = PathSeg::Suffix(string_of("?default"));
            proof { lemma_path_push(segs@, seg); }
            segs.push(seg);
            let t = parse_spec(v, depth + 1, segs, voc);
            segs.pop();
            proof { assert(segs@ =~= old(segs)@); }
            Some(Box::new(t?))
        },
        None => None,
    };
    Ok(TypeIn::SwitchT { on, cases, default })
}

fn cond_type(kind: &str, opts: &Form, depth: usize, segs: &mut Vec<PathSeg>, voc: &Vocab) -> (r: Result<TypeIn, String>)
    requires
        voc.wf(),
        depth <= MAX_DEPTH,
    ensures
        final(segs)@ == old(segs)@,
        agrees(r, nested_type(13, kind@, *opts, depth as nat, path_of(old(segs)@)), |t: TypeIn| type_view(t)),
    decreases opts, 0nat, 0nat,
{
    let e = match opts {
        Form::Dict(e, _) => e,
        _ => return Err(not_a_dict(kind)),
    };
    let pred = match opt_get(e, "pred") {
        Some(v) => expr_opt(v, kind, "pred", 0, voc)?,
        None => return Err(opt_msg(kind, "pred", " is required")),
    };
    let then = match opt_get(e, "then") {
        Some(v) => {
            proof { lemma_opt_smaller(*opts, "then"@); }
            parse_spec(v, depth + 1, segs, voc)?
        },
        None => return Err(opt_msg(kind, "then", " is required")),
    };
    Ok(TypeIn::CondT { pred, then: Box::new(then) })
}

fn parse_spec(f: &Form, depth: usize, segs: &mut Vec<PathSeg>, voc: &Vocab) -> (r: Result<TypeIn, String>)
    requires
        voc.wf(),
        depth <= MAX_DEPTH + 1,
    ensures
        final(segs)@ == old(segs)@,
        agrees(r, read_spec(*f, depth as nat, path_of(old(segs)@)), |t: TypeIn| type_view(t)),
    decreases f, 2nat, 0nat,
{
    match f {
        Form::Tuple(v, _) => {
            if v.len() != 2 {
                return Err(string_of("a type spec must be a (kind, opts) tuple"));
            }
            proof {
                assert(decreases_to!(f => v));
                assert(decreases_to!(*v => v@));
                assert(decreases_to!(v@ => v@[1]));
            }
            match &v[0] {
                Form::Str(kind) => match &v[1] {
                    Form::Dict(..) => parse_type(kind.as_str(), &v[1], depth, segs, voc),
                    _ => Err(not_a_dict(kind.as_str())),
                },
                other => Err(unknown_kind_of(other)),
            }
        },
        _ => Err(string_of("a type spec must be a (kind, opts) tuple")),
    }
}

fn parse_field(f: &Form, depth: usize, segs: &mut Vec<PathSeg>, voc: &Vocab) -> (r: Result<FieldIn, String>)
    requires
        voc.wf(),
        depth <= MAX_DEPTH + 1,
    ensures
        final(segs)@ == old(segs)@,
        agrees(r, read_field(*f, depth as nat, path_of(old(segs)@)), |x: FieldIn| field_view(x)),
    decreases f, 2nat, 0nat,
{
    match f {
        Form::Tuple(v, _) => {
            if v.len() != 3 {
                return Err(string_of("a field must be a (name, kind, opts) tuple"));
            }
            let name: Option<String> = match &v[0] {
                Form::Nothing => None,
                Form::Str(s) => Some(s.clone()),
                _ => return Err(string_of("field name must be a str or None")),
            };
            let leaf = match &name {
                Some(s) => s.clone(),
                None => string_of("<unnamed>"),
            };
            proof {
                assert(decreases_to!(f => v));
                assert(decreases_to!(*v => v@));
                assert(decreases_to!(v@ => v@[2]));
            }
            let seg = PathSeg::Field(leaf);
            proof { lemma_path_push(segs@, seg); }
            segs.push(seg);
            let ty = match &v[1] {
                Form::Str(kind) => match &v[2] {
                    Form::Dict(..) => parse_type(kind.as_str(), &v[2], depth, segs, voc),
                    _ => Err(not_a_dict(kind.as_str())),
                },
                other => Err(unknown_kind_of(other)),
            };
            let r = match ty {
                Ok(t) => Ok(FieldIn { name, ty: t }),
                Err(m) => {
                    let p = schema_path(segs.as_slice());
                    Err(located(m.as_str(), p.as_str()))
                },
            };
            segs.pop();
            proof { assert(segs@ =~= old(segs)@); }
            r
        },
        _ => Err(string_of("a field must be a (name, kind, opts) tuple")),
    }
}

fn fields_at(f: &Form, depth: usize, segs: &mut Vec<PathSeg>, voc: &Vocab) -> (r: Result<Vec<FieldIn>, String>)
    requires
        voc.wf(),
        depth <= MAX_DEPTH + 1,
    ensures
        final(segs)@ == old(segs)@,
        agrees(r, read_fields(*f, depth as nat, path_of(old(segs)@)), |v: Vec<FieldIn>| fields_view(v@)),
    decreases f, 2nat, 0nat,
{
    let n = match item_count(f) {
        Some(n) => n,
        None => return Err(string_of("fields must be an iterable of (name, kind, opts) tuples")),
    };
    let ghost path = path_of(segs@);
    let ghost items = form_items(*f)->Some_0;
    let mut out: Vec<FieldIn> = Vec::new();
    proof { assert(fields_view(out@) =~= Seq::<FieldV>::empty()); }
    let mut i: usize = 0;
    while i < n
        invariant
            voc.wf(),
            depth <= MAX_DEPTH + 1,
            n == items.len(),
            form_items(*f) == Some(items),
            i <= n,
            segs@ == old(segs)@,
            path == path_of(old(segs)@),
            fields_upto(*f, i as nat, depth as nat, path) == Ok::<Seq<FieldV>, Seq<char>>(fields_view(out@)),
        decreases n - i,
    {
        let item = item_at(f, i);
        let x = match item {
            Some(x) => x,
            None => {
                proof { lemma_fields_fail(*f, (i + 1) as nat, n as nat, depth as nat, path); }
                return Err(string_of("a field must be a (name, kind, opts) tuple"));
            },
        };
        if !matches!(x, Form::Tuple(..)) {
            proof { lemma_fields_fail(*f, (i + 1) as nat, n as nat, depth as nat, path); }
            return Err(string_of("a field must be a (name, kind, opts) tuple"));
        }
        proof { lemma_item_smaller(*f, i as int); }
        match parse_field(x, depth, segs, voc) {
            Ok(fi) => {
                let ghost before = out@;
                out.push(fi);
                proof {
                    assert(out@.drop_last() =~= before);
                    assert(fields_view(out@) == fields_view(before).push(field_view(fi)));
                }
            },
            Err(m) => {
                proof { lemma_fields_fail(*f, (i + 1) as nat, n as nat, depth as nat, path); }
                return Err(m);
            },
        }
        i = i + 1;
    }
    Ok(out)
}

fn parse_case(f: &Form, depth: usize, segs: &mut Vec<PathSeg>, voc: &Vocab) -> (r: Result<(i64, TypeIn), String>)
    requires
        voc.wf(),
        depth <= MAX_DEPTH,
    ensures
        final(segs)@ == old(segs)@,
        agrees(r, read_case(*f, depth as nat, path_of(old(segs)@)), |c: (i64, TypeIn)| (c.0, type_view(c.1))),
    decreases f, 2nat, 0nat,
{
    match f {
        Form::Tuple(v, _) => {
            if v.len() != 2 {
                return Err(string_of("switch: a cases element must be a (int, (kind, opts)) tuple"));
            }
            let tag: i64 = match &v[0] {
                Form::Bool(_) => return Err(string_of("switch: a branch tag must be an int (i64)")),
                other => match crate::form::int_value(other) {
                    Some(t) => {
                        if t < i64::MIN as i128 || t > i64::MAX as i128 {
                            return Err(string_of("switch: a branch tag must be an int (i64)"));
                        }
                        t as i64
                    },
                    None => return Err(string_of("switch: a branch tag must be an int (i64)")),
                },
            };
            proof {
                assert(decreases_to!(f => v));
                assert(decreases_to!(*v => v@));
                assert(decreases_to!(v@ => v@[1]));
            }
            let seg = PathSeg::Case(tag);
            proof { lemma_path_push(segs@, seg); }
            segs.push(seg);
            let t = parse_spec(&v[1], depth + 1, segs, voc);
            segs.pop();
            proof { assert(segs@ =~= old(segs)@); }
            match t {
                Ok(t) => Ok((tag, t)),
                Err(m) => Err(m),
            }
        },
        _ => Err(string_of("switch: a cases element must be a (int, (kind, opts)) tuple")),
    }
}

fn cases_at(f: &Form, depth: usize, segs: &mut Vec<PathSeg>, voc: &Vocab) -> (r: Result<Vec<(i64, TypeIn)>, String>)
    requires
        voc.wf(),
        depth <= MAX_DEPTH,
    ensures
        final(segs)@ == old(segs)@,
        agrees(r, read_cases(*f, depth as nat, path_of(old(segs)@)), |v: Vec<(i64, TypeIn)>| cases_view(v@)),
    decreases f, 2nat, 0nat,
{
    let n = match item_count(f) {
        Some(n) => n,
        None => return Err(string_of("switch: a cases element must be a (int, (kind, opts)) tuple")),
    };
    let ghost path = path_of(segs@);
    let ghost items = form_items(*f)->Some_0;
    let mut out: Vec<(i64, TypeIn)> = Vec::new();
    proof { assert(cases_view(out@) =~= Seq::<(i64, TypeV)>::empty()); }
    let mut i: usize = 0;
    while i < n
        invariant
            voc.wf(),
            depth <= MAX_DEPTH,
            n == items.len(),
            form_items(*f) == Some(items),
            i <= n,
            segs@ == old(segs)@,
            path == path_of(old(segs)@),
            cases_upto(*f, i as nat, depth as nat, path) == Ok::<Seq<(i64, TypeV)>, Seq<char>>(cases_view(out@)),
        decreases n - i,
    {
        let item = item_at(f, i);
        let x = match item {
            Some(x) => x,
            None => {
                proof { lemma_cases_fail(*f, (i + 1) as nat, n as nat, depth as nat, path); }
                return Err(string_of("switch: a cases element must be a (int, (kind, opts)) tuple"));
            },
        };
        if !matches!(x, Form::Tuple(..)) {
            proof { lemma_cases_fail(*f, (i + 1) as nat, n as nat, depth as nat, path); }
            return Err(string_of("switch: a cases element must be a (int, (kind, opts)) tuple"));
        }
        proof { lemma_item_smaller(*f, i as int); }
        match parse_case(x, depth, segs, voc) {
            Ok(c) => {
                let ghost before = out@;
                out.push(c);
                proof {
                    assert(out@.drop_last() =~= before);
                    assert(cases_view(out@) == cases_view(before).push((c.0, type_view(c.1))));
                }
            },
            Err(m) => {
                proof { lemma_cases_fail(*f, (i + 1) as nat, n as nat, depth as nat, path); }
                return Err(m);
            },
        }
        i = i + 1;
    }
    Ok(out)
}

/// Reads a schema's field list from its untyped form: every field a
/// `(name, kind, opts)` tuple, every kind one the option table names,
/// every option one it lists for that kind, read in the table's order.
pub fn parse_fields(form: &Form) -> (r: Result<Vec<FieldIn>, String>)
    ensures
        agrees(r, read_fields(*form, 0, Seq::empty()), |v: Vec<FieldIn>| fields_view(v@)),
{
    let voc = Vocab::new();
    let mut segs: Vec<PathSeg> = Vec::new();
    proof { assert(path_of(segs@) =~= Seq::<char>::empty()); }
    fields_at(form, 0, &mut segs, &voc)
}

/// A byte order named at the top level.
pub fn byteorder(s: &str) -> (r: Result<ByteOrder, String>)
    ensures
        agrees(r, in_set(crate::options::byteorder_table(), crate::options::byteorder_what(),
            crate::options::byteorder_allowed(), s@), |b: ByteOrder| b),
{
    let set = crate::options::byteorders();
    set_parse(&set, s, Ghost(crate::options::byteorder_table()), Ghost(crate::options::byteorder_what()),
        Ghost(crate::options::byteorder_allowed()))
}

} // verus!
