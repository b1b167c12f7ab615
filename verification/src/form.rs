//! A schema as its caller wrote it, before anything is decided: the
//! untyped `(name, kind, opts)` form, held as plain values, and what each
//! option reads out of one.

use vstd::prelude::*;

use crate::names::{first_match, ClosedSet};
use crate::options::{binop_allowed, binop_table, binop_what, byteorder_allowed, byteorder_table,
    byteorder_what, options_table, prim_allowed, prim_table, prim_what};
use crate::program::IntPrim;
use crate::schema::{BinOp, ByteOrder, ExprIn, OverIn};
use crate::text::{debug_quoted, dec_chars, push_signed, push_str, str_eq, string_of};

verus! {

/// One value of the untyped form, as the host language holds it.
#[derive(Debug)]
pub enum Form {
    /// The host's null.
    Nothing,
    Bool(bool),
    /// An integer within `i128`.
    Int(i128),
    /// An integer outside `i128`, by its printed form.
    BigInt(String),
    Str(String),
    /// A byte string, and its printed form.
    Bytes(Vec<u8>, String),
    /// A tuple's items, and its printed form.
    Tuple(Vec<Form>, String),
    /// Any other sequence (a list, a range): its items and printed form.
    List(Vec<Form>, String),
    /// Any other iterable (a generator, a set, a view): what it yielded,
    /// and its printed form.
    Iter(Vec<Form>, String),
    /// A dictionary's entries in order, and its printed form.
    Dict(Vec<(Form, Form)>, String),
    /// Anything else, by its printed form.
    Other(String),
}

/// How a form prints, for a message that has to show one.
pub open spec fn form_repr(f: Form) -> Seq<char> {
    match f {
        Form::Nothing => "None"@,
        Form::Bool(b) => if b { "True"@ } else { "False"@ },
        Form::Int(i) => if i < 0 { seq!['-'] + dec_chars((-i) as nat) } else { dec_chars(i as nat) },
        Form::BigInt(r) => r@,
        Form::Str(s) => s@,
        Form::Bytes(_, r) => r@,
        Form::Tuple(_, r) => r@,
        Form::List(_, r) => r@,
        Form::Iter(_, r) => r@,
        Form::Dict(_, r) => r@,
        Form::Other(r) => r@,
    }
}

pub fn repr(f: &Form) -> (r: String)
    ensures
        r@ == form_repr(*f),
{
    match f {
        Form::Nothing => string_of("None"),
        Form::Bool(b) => if *b { string_of("True") } else { string_of("False") },
        Form::Int(i) => {
            let mut s = String::new();
            push_signed(&mut s, *i);
            proof { assert(s@ =~= form_repr(*f)); }
            s
        },
        Form::BigInt(r) | Form::Str(r) | Form::Bytes(_, r) | Form::Tuple(_, r) | Form::List(_, r)
        | Form::Iter(_, r) | Form::Dict(_, r) | Form::Other(r) => r.clone(),
    }
}

/// What iterating a form yields, or `None` where it is not iterable: a
/// dictionary yields its keys, a byte string its byte values. A string
/// yields its one-character strings; nothing that iterates a form reads
/// such an item as more than "not a tuple, not a string of its own", which
/// `Nothing` stands for here.
pub open spec fn form_items(f: Form) -> Option<Seq<Form>> {
    match f {
        Form::Tuple(v, _) => Some(v@),
        Form::List(v, _) => Some(v@),
        Form::Iter(v, _) => Some(v@),
        Form::Dict(e, _) => Some(e@.map_values(|p: (Form, Form)| p.0)),
        Form::Str(s) => Some(Seq::new(s@.len(), |i: int| Form::Nothing)),
        Form::Bytes(b, _) => Some(b@.map_values(|x: u8| Form::Int(x as i128))),
        _ => None,
    }
}

/// The number of items a form yields, where it is iterable.
pub fn item_count(f: &Form) -> (r: Option<usize>)
    ensures
        match form_items(*f) {
            Some(s) => r matches Some(n) && n == s.len(),
            None => r is None,
        },
{
    match f {
        Form::Tuple(v, _) | Form::List(v, _) | Form::Iter(v, _) => Some(v.len()),
        Form::Dict(e, _) => Some(e.len()),
        Form::Str(s) => Some(s.unicode_len()),
        Form::Bytes(b, _) => Some(b.len()),
        _ => None,
    }
}

/// Item `i` of an iterable form, where it is held as a form of its own
/// (a string's characters and a byte string's values are not: those are
/// neither tuples nor strings).
pub fn item_at(f: &Form, i: usize) -> (r: Option<&Form>)
    requires
        form_items(*f) matches Some(s) && i < s.len(),
    ensures
        match r {
            Some(x) => *x == form_items(*f)->Some_0[i as int],
            None => (f is Str || f is Bytes) && !(form_items(*f)->Some_0[i as int] is Tuple)
                && !(form_items(*f)->Some_0[i as int] is Str),
        },
{
    match f {
        Form::Tuple(v, _) | Form::List(v, _) | Form::Iter(v, _) => Some(&v[i]),
        Form::Dict(e, _) => Some(&e[i].0),
        _ => None,
    }
}

/// The integer a form converts to: an integer, or a bool as 0 or 1.
pub open spec fn form_int(f: Form) -> Option<int> {
    match f {
        Form::Int(i) => Some(i as int),
        Form::Bool(b) => Some(if b { 1int } else { 0int }),
        _ => None,
    }
}

pub fn int_value(f: &Form) -> (r: Option<i128>)
    ensures
        match form_int(*f) {
            Some(i) => r == Some(i as i128),
            None => r is None,
        },
{
    match f {
        Form::Int(i) => Some(*i),
        Form::Bool(b) => Some(if *b { 1 } else { 0 }),
        _ => None,
    }
}

/// `kind: key` at the head of an option's message.
pub open spec fn at(kind: Seq<char>, key: Seq<char>) -> Seq<char> {
    kind + ": "@ + key
}

/// `kind: key` followed by `tail`.
pub fn opt_msg(kind: &str, key: &str, tail: &str) -> (r: String)
    ensures
        r@ == at(kind@, key@) + tail@,
{
    let mut m = string_of(kind);
    push_str(&mut m, ": ");
    push_str(&mut m, key);
    push_str(&mut m, tail);
    m
}

/// An exec result and its spec counterpart say the same: the same error
/// text, or values that agree under `v`.
pub open spec fn agrees<A, B>(r: Result<A, String>, s: Result<B, Seq<char>>, v: spec_fn(A) -> B) -> bool {
    match (r, s) {
        (Ok(a), Ok(b)) => v(a) == b,
        (Err(e), Err(m)) => e@ == m,
        _ => false,
    }
}

// ---------- the scalar options ----------

pub open spec fn read_bool(f: Form, kind: Seq<char>, key: Seq<char>) -> Result<bool, Seq<char>> {
    match f {
        Form::Bool(b) => Ok(b),
        _ => Err(at(kind, key) + " must be a bool"@),
    }
}

pub fn bool_opt(f: &Form, kind: &str, key: &str) -> (r: Result<bool, String>)
    ensures
        agrees(r, read_bool(*f, kind@, key@), |b: bool| b),
{
    match f {
        Form::Bool(b) => Ok(*b),
        _ => Err(opt_msg(kind, key, " must be a bool")),
    }
}

pub open spec fn read_usize(f: Form, kind: Seq<char>, key: Seq<char>) -> Result<usize, Seq<char>> {
    match form_int(f) {
        Some(n) => if 0 <= n <= usize::MAX { Ok(n as usize) } else { Err(at(kind, key) + " must be a non-negative int"@) },
        None => Err(at(kind, key) + " must be a non-negative int"@),
    }
}

pub fn usize_opt(f: &Form, kind: &str, key: &str) -> (r: Result<usize, String>)
    ensures
        agrees(r, read_usize(*f, kind@, key@), |n: usize| n),
{
    match int_value(f) {
        Some(n) => if 0 <= n && n <= usize::MAX as i128 {
            Ok(n as usize)
        } else {
            Err(opt_msg(kind, key, " must be a non-negative int"))
        },
        None => Err(opt_msg(kind, key, " must be a non-negative int")),
    }
}

pub open spec fn read_u64(f: Form, kind: Seq<char>, key: Seq<char>) -> Result<u64, Seq<char>> {
    match form_int(f) {
        Some(n) => if 0 <= n <= u64::MAX { Ok(n as u64) } else { Err(at(kind, key) + " must be a non-negative int"@) },
        None => Err(at(kind, key) + " must be a non-negative int"@),
    }
}

pub fn u64_opt(f: &Form, kind: &str, key: &str) -> (r: Result<u64, String>)
    ensures
        agrees(r, read_u64(*f, kind@, key@), |n: u64| n),
{
    match int_value(f) {
        Some(n) => if 0 <= n && n <= u64::MAX as i128 {
            Ok(n as u64)
        } else {
            Err(opt_msg(kind, key, " must be a non-negative int"))
        },
        None => Err(opt_msg(kind, key, " must be a non-negative int")),
    }
}

pub open spec fn read_i128(f: Form, kind: Seq<char>, key: Seq<char>) -> Result<i128, Seq<char>> {
    match form_int(f) {
        Some(n) => Ok(n as i128),
        None => Err(at(kind, key) + " must be an int"@),
    }
}

pub fn i128_opt(f: &Form, kind: &str, key: &str) -> (r: Result<i128, String>)
    ensures
        agrees(r, read_i128(*f, kind@, key@), |n: i128| n),
{
    match int_value(f) {
        Some(n) => Ok(n),
        None => Err(opt_msg(kind, key, " must be an int")),
    }
}

pub open spec fn read_str(f: Form, kind: Seq<char>, key: Seq<char>) -> Result<Seq<char>, Seq<char>> {
    match f {
        Form::Str(s) => Ok(s@),
        _ => Err(at(kind, key) + " must be a str"@),
    }
}

pub fn str_opt(f: &Form, kind: &str, key: &str) -> (r: Result<String, String>)
    ensures
        agrees(r, read_str(*f, kind@, key@), |s: String| s@),
{
    match f {
        Form::Str(s) => Ok(s.clone()),
        _ => Err(opt_msg(kind, key, " must be a str")),
    }
}

/// The bytes of a byte string, or of a sequence of small integers (a
/// string is not taken, nor an iterable that is not a sequence).
pub open spec fn byte_items(items: Seq<Form>) -> bool {
    forall|i: int| 0 <= i < items.len() ==> (#[trigger] form_int(items[i]) matches Some(n) && 0 <= n <= 255)
}

pub open spec fn read_bytes(f: Form, kind: Seq<char>, key: Seq<char>) -> Result<Seq<u8>, Seq<char>> {
    let err = at(kind, key) + " must be bytes"@;
    match f {
        Form::Bytes(b, _) => Ok(b@),
        Form::Tuple(v, _) => if byte_items(v@) { Ok(v@.map_values(|x: Form| form_int(x)->Some_0 as u8)) } else { Err(err) },
        Form::List(v, _) => if byte_items(v@) { Ok(v@.map_values(|x: Form| form_int(x)->Some_0 as u8)) } else { Err(err) },
        _ => Err(err),
    }
}

fn small_ints(v: &Vec<Form>, kind: &str, key: &str) -> (r: Result<Vec<u8>, String>)
    ensures
        agrees(r, if byte_items(v@) { Ok(v@.map_values(|x: Form| form_int(x)->Some_0 as u8)) } else {
            Err(at(kind@, key@) + " must be bytes"@)
        }, |b: Vec<u8>| b@),
{
    let mut out: Vec<u8> = Vec::new();
    let mut i: usize = 0;
    while i < v.len()
        invariant
            i <= v@.len(),
            out@.len() == i,
            byte_items(v@.subrange(0, i as int)),
            forall|j: int| 0 <= j < i ==> out@[j] == form_int(v@[j])->Some_0 as u8,
        decreases v@.len() - i,
    {
        match int_value(&v[i]) {
            Some(n) => {
                if n < 0 || n > 255 {
                    proof { assert(!(form_int(v@[i as int]) matches Some(n) && 0 <= n <= 255)); }
                    return Err(opt_msg(kind, key, " must be bytes"));
                }
                out.push(n as u8);
            },
            None => {
                return Err(opt_msg(kind, key, " must be bytes"));
            },
        }
        proof {
            assert forall|j: int| 0 <= j < i + 1 implies
                (#[trigger] form_int(v@.subrange(0, i + 1)[j]) matches Some(n) && 0 <= n <= 255) by {
                if j < i {
                    assert(v@.subrange(0, i + 1)[j] == v@.subrange(0, i as int)[j]);
                }
            }
        }
        i = i + 1;
    }
    proof {
        assert(v@.subrange(0, v@.len() as int) =~= v@);
        assert(out@ =~= v@.map_values(|x: Form| form_int(x)->Some_0 as u8));
    }
    Ok(out)
}

pub fn bytes_opt(f: &Form, kind: &str, key: &str) -> (r: Result<Vec<u8>, String>)
    ensures
        agrees(r, read_bytes(*f, kind@, key@), |b: Vec<u8>| b@),
{
    match f {
        Form::Bytes(b, _) => Ok(b.clone()),
        Form::Tuple(v, _) | Form::List(v, _) => small_ints(v, kind, key),
        _ => Err(opt_msg(kind, key, " must be bytes")),
    }
}

/// The message a closed set gives a name it does not hold.
pub open spec fn set_msg(what: Seq<char>, allowed: Seq<char>, s: Seq<char>) -> Seq<char> {
    what + seq![' '] + debug_quoted(s) + " is not supported ("@ + allowed + seq![')']
}

/// `set` is the closed set built from `table`, spelled exactly.
pub open spec fn set_is<T>(set: ClosedSet<T>, table: Seq<(&'static str, T)>, what: Seq<char>, allowed: Seq<char>) -> bool {
    &&& set.names@ == table
    &&& set.aliases@.len() == 0
    &&& !set.loose
    &&& set.what@ == what
    &&& set.allowed@ == allowed
}

/// A name in a closed set: its value, or the set's message.
pub open spec fn in_set<T>(table: Seq<(&'static str, T)>, what: Seq<char>, allowed: Seq<char>, s: Seq<char>) -> Result<T, Seq<char>> {
    match first_match(table, false, s, 0) {
        Some(v) => Ok(v),
        None => Err(set_msg(what, allowed, s)),
    }
}

pub fn set_parse<T: Copy>(set: &ClosedSet<T>, s: &str, Ghost(table): Ghost<Seq<(&'static str, T)>>,
    Ghost(what): Ghost<Seq<char>>, Ghost(allowed): Ghost<Seq<char>>) -> (r: Result<T, String>)
    requires
        set_is(*set, table, what, allowed),
    ensures
        agrees(r, in_set(table, what, allowed, s@), |v: T| v),
{
    set.parse(s)
}

/// The closed sets the form reads names from, and the options each kind
/// takes.
pub struct Vocab {
    pub byteorders: ClosedSet<ByteOrder>,
    pub prims: ClosedSet<IntPrim>,
    pub ops: ClosedSet<BinOp>,
    pub kinds: Vec<(Vec<&'static str>, Vec<&'static str>)>,
}

impl Vocab {
    pub open spec fn wf(&self) -> bool {
        &&& set_is(self.byteorders, byteorder_table(), byteorder_what(), byteorder_allowed())
        &&& set_is(self.prims, prim_table(), prim_what(), prim_allowed())
        &&& set_is(self.ops, binop_table(), binop_what(), binop_allowed())
        &&& self.kinds@.len() == options_table().len()
        &&& forall|i: int| 0 <= i < self.kinds@.len() ==> #[trigger] self.kinds@[i].0@ == options_table()[i].0
            && self.kinds@[i].1@ == options_table()[i].1
    }

    pub fn new() -> (r: Vocab)
        ensures
            r.wf(),
    {
        Vocab {
            byteorders: crate::options::byteorders(),
            prims: crate::options::int_prims(),
            ops: crate::options::binops(),
            kinds: crate::options::options(),
        }
    }
}

pub open spec fn read_byteorder(f: Form, kind: Seq<char>, key: Seq<char>) -> Result<ByteOrder, Seq<char>> {
    match read_str(f, kind, key) {
        Ok(s) => in_set(byteorder_table(), byteorder_what(), byteorder_allowed(), s),
        Err(e) => Err(e),
    }
}

pub fn byteorder_opt(f: &Form, kind: &str, key: &str, voc: &Vocab) -> (r: Result<ByteOrder, String>)
    requires
        voc.wf(),
    ensures
        agrees(r, read_byteorder(*f, kind@, key@), |b: ByteOrder| b),
{
    match f {
        Form::Str(s) => set_parse(&voc.byteorders, s.as_str(), Ghost(byteorder_table()), Ghost(byteorder_what()),
            Ghost(byteorder_allowed())),
        _ => Err(opt_msg(kind, key, " must be a str")),
    }
}

pub open spec fn read_prim(f: Form, kind: Seq<char>, key: Seq<char>) -> Result<IntPrim, Seq<char>> {
    match read_str(f, kind, key) {
        Ok(s) => in_set(prim_table(), prim_what(), prim_allowed(), s),
        Err(e) => Err(e),
    }
}

pub fn prim_opt(f: &Form, kind: &str, key: &str, voc: &Vocab) -> (r: Result<IntPrim, String>)
    requires
        voc.wf(),
    ensures
        agrees(r, read_prim(*f, kind@, key@), |p: IntPrim| p),
{
    match f {
        Form::Str(s) => set_parse(&voc.prims, s.as_str(), Ghost(prim_table()), Ghost(prim_what()), Ghost(prim_allowed())),
        _ => Err(opt_msg(kind, key, " must be a str")),
    }
}

/// A bit width: an integer in `1..=64`.
pub open spec fn read_width(f: Form, kind: Seq<char>, key: Seq<char>) -> Result<u8, Seq<char>> {
    match form_int(f) {
        Some(n) => if !(i64::MIN <= n <= i64::MAX) {
            Err(at(kind, key) + " must be an int in 1..64"@)
        } else if 1 <= n <= 64 {
            Ok(n as u8)
        } else {
            Err(at(kind, key) + seq![' '] + (if n < 0 { seq!['-'] + dec_chars((-n) as nat) } else { dec_chars(n as nat) })
                + " is outside 1..64"@)
        },
        None => Err(at(kind, key) + " must be an int in 1..64"@),
    }
}

pub fn width_opt(f: &Form, kind: &str, key: &str) -> (r: Result<u8, String>)
    ensures
        agrees(r, read_width(*f, kind@, key@), |w: u8| w),
{
    match int_value(f) {
        Some(n) => {
            if n < i64::MIN as i128 || n > i64::MAX as i128 {
                Err(opt_msg(kind, key, " must be an int in 1..64"))
            } else if 1 <= n && n <= 64 {
                Ok(n as u8)
            } else {
                let mut m = opt_msg(kind, key, "");
                crate::text::push_char(&mut m, ' ');
                push_signed(&mut m, n);
                push_str(&mut m, " is outside 1..64");
                proof {
                    reveal_strlit("");
                    let d = if n < 0 { seq!['-'] + dec_chars((-n) as nat) } else { dec_chars(n as nat) };
                    assert(m@ =~= at(kind@, key@) + seq![' '] + d + " is outside 1..64"@);
                }
                Err(m)
            }
        },
        None => Err(opt_msg(kind, key, " must be an int in 1..64")),
    }
}

// ---------- expressions ----------

/// A parsed expression, as text and numbers.
pub enum ExprV {
    Imm(i64),
    Greedy,
    Ref(Seq<char>),
    Bin(BinOp, Box<ExprV>, Box<ExprV>),
}

pub open spec fn expr_view(e: ExprIn) -> ExprV
    decreases e,
{
    match e {
        ExprIn::Imm(i) => ExprV::Imm(i),
        ExprIn::Greedy => ExprV::Greedy,
        ExprIn::Ref(s) => ExprV::Ref(s@),
        ExprIn::Bin(op, a, b) => ExprV::Bin(op, Box::new(expr_view(*a)), Box::new(expr_view(*b))),
    }
}

/// How deeply a schema, and separately an expression, may nest.
pub const MAX_DEPTH: usize = 128;

pub open spec fn expected_expr(kind: Seq<char>, key: Seq<char>) -> Seq<char> {
    at(kind, key) + ": expected an int, '*', or a tuple starting with an operator"@
}

pub open spec fn ref_shape() -> Seq<char> {
    "(\"ref\", name): exactly two elements, name a str"@
}

/// `int | "*" | ("ref", name) | (op, a, b)`, nested at most `MAX_DEPTH`
/// deep; a bool is refused as a length.
pub open spec fn read_expr(f: Form, kind: Seq<char>, key: Seq<char>, depth: nat) -> Result<ExprV, Seq<char>>
    decreases f,
{
    if depth > MAX_DEPTH {
        Err(at(kind, key) + " nests deeper than 128 levels"@)
    } else {
        match f {
            Form::Bool(_) => Err(at(kind, key) + ": a bool is not a length; use an int, '*', or a reference"@),
            Form::Str(s) => if s@ == "*"@ { Ok(ExprV::Greedy) } else { Err(expected_expr(kind, key)) },
            Form::Int(i) => if i64::MIN <= i <= i64::MAX {
                Ok(ExprV::Imm(i as i64))
            } else {
                Err(at(kind, key) + " literal does not fit in i64"@)
            },
            Form::BigInt(_) => Err(at(kind, key) + " literal does not fit in i64"@),
            Form::Tuple(items, _) => if items@.len() == 0 {
                Err(expected_expr(kind, key))
            } else {
                match items@[0] {
                    Form::Str(head) => if head@ == "ref"@ {
                        if items@.len() != 2 {
                            Err(ref_shape())
                        } else {
                            match items@[1] {
                                Form::Str(n) => Ok(ExprV::Ref(n@)),
                                _ => Err(ref_shape()),
                            }
                        }
                    } else if items@.len() != 3 {
                        Err("(\""@ + head@ + "\", a, b): exactly three elements"@)
                    } else {
                        match in_set(binop_table(), binop_what(), binop_allowed(), head@) {
                            Err(e) => Err(e),
                            Ok(op) => {
                                proof {
                                    assert(decreases_to!(f => items));
                                    assert(decreases_to!(items => items@));
                                    assert(decreases_to!(items@ => items@[1]));
                                    assert(decreases_to!(items@ => items@[2]));
                                }
                                match read_expr(items@[1], kind, key, depth + 1) {
                                    Err(e) => Err(e),
                                    Ok(a) => match read_expr(items@[2], kind, key, depth + 1) {
                                        Err(e) => Err(e),
                                        Ok(b) => Ok(ExprV::Bin(op, Box::new(a), Box::new(b))),
                                    },
                                }
                            },
                        }
                    },
                    _ => Err(expected_expr(kind, key)),
                }
            },
            _ => Err(expected_expr(kind, key)),
        }
    }
}

pub fn expr_opt(f: &Form, kind: &str, key: &str, depth: usize, voc: &Vocab) -> (r: Result<ExprIn, String>)
    requires
        voc.wf(),
    ensures
        agrees(r, read_expr(*f, kind@, key@, depth as nat), |e: ExprIn| expr_view(e)),
    decreases f,
{
    if depth > MAX_DEPTH {
        return Err(opt_msg(kind, key, " nests deeper than 128 levels"));
    }
    match f {
        Form::Bool(_) => Err(opt_msg(kind, key, ": a bool is not a length; use an int, '*', or a reference")),
        Form::Str(s) => {
            proof { reveal_strlit("*"); }
            if str_eq(s.as_str(), "*") {
                Ok(ExprIn::Greedy)
            } else {
                Err(opt_msg(kind, key, ": expected an int, '*', or a tuple starting with an operator"))
            }
        },
        Form::Int(i) => {
            if *i < i64::MIN as i128 || *i > i64::MAX as i128 {
                Err(opt_msg(kind, key, " literal does not fit in i64"))
            } else {
                Ok(ExprIn::Imm(*i as i64))
            }
        },
        Form::BigInt(_) => Err(opt_msg(kind, key, " literal does not fit in i64")),
        Form::Tuple(items, _) => {
            if items.len() == 0 {
                return Err(opt_msg(kind, key, ": expected an int, '*', or a tuple starting with an operator"));
            }
            match &items[0] {
                Form::Str(head) => {
                    if str_eq(head.as_str(), "ref") {
                        if items.len() != 2 {
                            return Err(string_of("(\"ref\", name): exactly two elements, name a str"));
                        }
                        match &items[1] {
                            Form::Str(n) => Ok(ExprIn::Ref(n.clone())),
                            _ => Err(string_of("(\"ref\", name): exactly two elements, name a str")),
                        }
                    } else if items.len() != 3 {
                        let mut m = string_of("(\"");
                        push_str(&mut m, head.as_str());
                        push_str(&mut m, "\", a, b): exactly three elements");
                        Err(m)
                    } else {
                        let op = set_parse(&voc.ops, head.as_str(), Ghost(binop_table()), Ghost(binop_what()),
                            Ghost(binop_allowed()))?;
                        proof {
                            assert(decreases_to!(f => items));
                            assert(decreases_to!(*items => items@));
                            assert(decreases_to!(items@ => items@[1]));
                            assert(decreases_to!(items@ => items@[2]));
                        }
                        let a = expr_opt(&items[1], kind, key, depth + 1, voc)?;
                        let b = expr_opt(&items[2], kind, key, depth + 1, voc)?;
                        Ok(ExprIn::Bin(op, Box::new(a), Box::new(b)))
                    }
                },
                _ => Err(opt_msg(kind, key, ": expected an int, '*', or a tuple starting with an operator")),
            }
        },
        _ => Err(opt_msg(kind, key, ": expected an int, '*', or a tuple starting with an operator")),
    }
}

// ---------- digest coverage and flag names ----------

pub enum OverV {
    Star,
    Names(Seq<Seq<char>>),
}

pub open spec fn over_view(o: OverIn) -> OverV {
    match o {
        OverIn::Star => OverV::Star,
        OverIn::Names(v) => OverV::Names(v@.map_values(|s: String| s@)),
    }
}

pub open spec fn over_shape() -> Seq<char> {
    "digest: over is either \"*\" or a tuple of names"@
}

/// The names of an iterable's first `k` items, or the message for the
/// first that is not a string.
pub open spec fn str_items(items: Seq<Form>, k: nat) -> Result<Seq<Seq<char>>, Seq<char>>
    decreases k,
{
    if k == 0 {
        Ok(Seq::empty())
    } else {
        match str_items(items, (k - 1) as nat) {
            Err(e) => Err(e),
            Ok(names) => match items[k - 1] {
                Form::Str(s) => Ok(names.push(s@)),
                _ => Err("digest: names in over must be str"@),
            },
        }
    }
}

/// Once an item is refused, so is every longer prefix.
pub proof fn lemma_str_items_fail(items: Seq<Form>, k: nat, t: nat)
    requires
        k <= t,
        str_items(items, k) is Err,
    ensures
        str_items(items, t) == str_items(items, k),
    decreases t - k,
{
    if t > k {
        lemma_str_items_fail(items, k, (t - 1) as nat);
    }
}

/// `"*"`, or an iterable of names.
pub open spec fn read_over(f: Form) -> Result<OverV, Seq<char>> {
    match f {
        Form::Str(s) => if s@ == "*"@ { Ok(OverV::Star) } else { Err(over_shape()) },
        _ => match form_items(f) {
            None => Err(over_shape()),
            Some(items) => match str_items(items, items.len()) {
                Err(e) => Err(e),
                Ok(names) => Ok(OverV::Names(names)),
            },
        },
    }
}

pub fn over_opt(f: &Form) -> (r: Result<OverIn, String>)
    ensures
        agrees(r, read_over(*f), |o: OverIn| over_view(o)),
{
    if let Form::Str(s) = f {
        proof { reveal_strlit("*"); }
        if str_eq(s.as_str(), "*") {
            return Ok(OverIn::Star);
        }
        return Err(string_of("digest: over is either \"*\" or a tuple of names"));
    }
    let n = match item_count(f) {
        Some(n) => n,
        None => return Err(string_of("digest: over is either \"*\" or a tuple of names")),
    };
    let ghost items = form_items(*f)->Some_0;
    let mut names: Vec<String> = Vec::new();
    proof { assert(names@.map_values(|s: String| s@) =~= Seq::<Seq<char>>::empty()); }
    let mut i: usize = 0;
    while i < n
        invariant
            n == items.len(),
            form_items(*f) == Some(items),
            !(f is Str),
            i <= n,
            str_items(items, i as nat) == Ok::<Seq<Seq<char>>, Seq<char>>(names@.map_values(|s: String| s@)),
        decreases n - i,
    {
        match item_at(f, i) {
            Some(Form::Str(s)) => {
                let ghost before = names@;
                names.push(s.clone());
                proof {
                    assert(names@.map_values(|s: String| s@) =~= before.map_values(|s: String| s@).push(s@));
                }
            },
            _ => {
                proof { lemma_str_items_fail(items, (i + 1) as nat, n as nat); }
                return Err(string_of("digest: names in over must be str"));
            },
        }
        i = i + 1;
    }
    Ok(OverIn::Names(names))
}

pub open spec fn names_shape() -> Seq<char> {
    "flags: names must be a sequence of (str, int) pairs"@
}

/// A `(str, int)` pair whose int fits in `u64`.
pub open spec fn read_pair(f: Form) -> Option<(Seq<char>, u64)> {
    match f {
        Form::Tuple(v, _) => if v@.len() == 2 {
            match (v@[0], form_int(v@[1])) {
                (Form::Str(s), Some(n)) => if 0 <= n <= u64::MAX { Some((s@, n as u64)) } else { None },
                _ => None,
            }
        } else {
            None
        },
        _ => None,
    }
}

pub open spec fn pair_items(items: Seq<Form>, k: nat) -> Result<Seq<(Seq<char>, u64)>, Seq<char>>
    decreases k,
{
    if k == 0 {
        Ok(Seq::empty())
    } else {
        match pair_items(items, (k - 1) as nat) {
            Err(e) => Err(e),
            Ok(ps) => match read_pair(items[k - 1]) {
                Some(p) => Ok(ps.push(p)),
                None => Err(names_shape()),
            },
        }
    }
}

/// Once a pair is refused, so is every longer prefix.
pub proof fn lemma_pair_items_fail(items: Seq<Form>, k: nat, t: nat)
    requires
        k <= t,
        pair_items(items, k) is Err,
    ensures
        pair_items(items, t) == pair_items(items, k),
    decreases t - k,
{
    if t > k {
        lemma_pair_items_fail(items, k, (t - 1) as nat);
    }
}

/// An iterable of `(str, int)` pairs.
pub open spec fn read_names(f: Form) -> Result<Seq<(Seq<char>, u64)>, Seq<char>> {
    match form_items(f) {
        None => Err(names_shape()),
        Some(items) => pair_items(items, items.len()),
    }
}

pub open spec fn names_view(v: Seq<(String, u64)>) -> Seq<(Seq<char>, u64)> {
    v.map_values(|p: (String, u64)| (p.0@, p.1))
}

fn pair_of(f: &Form) -> (r: Option<(String, u64)>)
    ensures
        match read_pair(*f) {
            Some(p) => r matches Some(q) && q.0@ == p.0 && q.1 == p.1,
            None => r is None,
        },
{
    match f {
        Form::Tuple(v, _) => {
            if v.len() != 2 {
                return None;
            }
            match (&v[0], int_value(&v[1])) {
                (Form::Str(s), Some(n)) => if 0 <= n && n <= u64::MAX as i128 {
                    Some((s.clone(), n as u64))
                } else {
                    None
                },
                _ => None,
            }
        },
        _ => None,
    }
}

pub fn names_opt(f: &Form) -> (r: Result<Vec<(String, u64)>, String>)
    ensures
        agrees(r, read_names(*f), |v: Vec<(String, u64)>| names_view(v@)),
{
    let n = match item_count(f) {
        Some(n) => n,
        None => return Err(string_of("flags: names must be a sequence of (str, int) pairs")),
    };
    let ghost items = form_items(*f)->Some_0;
    let mut out: Vec<(String, u64)> = Vec::new();
    proof { assert(names_view(out@) =~= Seq::<(Seq<char>, u64)>::empty()); }
    let mut i: usize = 0;
    while i < n
        invariant
            n == items.len(),
            form_items(*f) == Some(items),
            i <= n,
            pair_items(items, i as nat) == Ok::<Seq<(Seq<char>, u64)>, Seq<char>>(names_view(out@)),
        decreases n - i,
    {
        let p = match item_at(f, i) {
            Some(x) => pair_of(x),
            None => None,
        };
        match p {
            Some(q) => {
                let ghost before = out@;
                out.push(q);
                proof { assert(names_view(out@) =~= names_view(before).push((q.0@, q.1))); }
            },
            None => {
                proof { lemma_pair_items_fail(items, (i + 1) as nat, n as nat); }
                return Err(string_of("flags: names must be a sequence of (str, int) pairs"));
            },
        }
        i = i + 1;
    }
    Ok(out)
}

} // verus!
