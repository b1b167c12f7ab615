use vstd::prelude::*;

use crate::text::{dec_chars, push_char, push_decimal, push_str};

verus! {

/// Machine names for data/value errors (a closed list).
#[derive(Debug, Clone, Copy, PartialEq, Eq, Structural)]
pub enum Kind {
    Truncated,
    Trailing,
    Range,
    NegativeLen,
    Overflow,
    DivZero,
    Unterminated,
    NulInCstr,
    NoCase,
    Decode,
    Limit,
    Depth,
    Checksum,
    Const,
    ReservedBits,
    Missing,
    Length,
    Indivisible,
    Inconsistent,
    Buffer,
    UnknownFlag,
    Type,
    Encode,
}

impl Kind {
    /// The wire spelling of each kind.
    pub open spec fn spec_name(self) -> Seq<char> {
        match self {
            Kind::Truncated => "truncated"@,
            Kind::Trailing => "trailing"@,
            Kind::Range => "range"@,
            Kind::NegativeLen => "negative_len"@,
            Kind::Overflow => "overflow"@,
            Kind::DivZero => "div_zero"@,
            Kind::Unterminated => "unterminated"@,
            Kind::NulInCstr => "nul_in_cstr"@,
            Kind::NoCase => "no_case"@,
            Kind::Decode => "decode"@,
            Kind::Limit => "limit"@,
            Kind::Depth => "depth"@,
            Kind::Checksum => "checksum"@,
            Kind::Const => "const"@,
            Kind::ReservedBits => "reserved_bits"@,
            Kind::Missing => "missing"@,
            Kind::Length => "length"@,
            Kind::Indivisible => "indivisible"@,
            Kind::Inconsistent => "inconsistent"@,
            Kind::Buffer => "buffer"@,
            Kind::UnknownFlag => "unknown_flag"@,
            Kind::Type => "type"@,
            Kind::Encode => "encode"@,
        }
    }

    pub fn as_str(self) -> (r: &'static str)
        ensures
            r@ == self.spec_name(),
    {
        match self {
            Kind::Truncated => "truncated",
            Kind::Trailing => "trailing",
            Kind::Range => "range",
            Kind::NegativeLen => "negative_len",
            Kind::Overflow => "overflow",
            Kind::DivZero => "div_zero",
            Kind::Unterminated => "unterminated",
            Kind::NulInCstr => "nul_in_cstr",
            Kind::NoCase => "no_case",
            Kind::Decode => "decode",
            Kind::Limit => "limit",
            Kind::Depth => "depth",
            Kind::Checksum => "checksum",
            Kind::Const => "const",
            Kind::ReservedBits => "reserved_bits",
            Kind::Missing => "missing",
            Kind::Length => "length",
            Kind::Indivisible => "indivisible",
            Kind::Inconsistent => "inconsistent",
            Kind::Buffer => "buffer",
            Kind::UnknownFlag => "unknown_flag",
            Kind::Type => "type",
            Kind::Encode => "encode",
        }
    }

    /// Every kind, in declaration order.
    pub open spec fn every() -> Seq<Kind> {
        seq![
            Kind::Truncated, Kind::Trailing, Kind::Range, Kind::NegativeLen, Kind::Overflow, Kind::DivZero, Kind::Unterminated, Kind::NulInCstr, Kind::NoCase, Kind::Decode, Kind::Limit, Kind::Depth, Kind::Checksum, Kind::Const, Kind::ReservedBits, Kind::Missing, Kind::Length, Kind::Indivisible, Kind::Inconsistent, Kind::Buffer, Kind::UnknownFlag, Kind::Type, Kind::Encode,
        ]
    }

    /// Every spelling `as_str` gives, in declaration order.
    pub fn all() -> (r: Vec<&'static str>)
        ensures
            r@.len() == Self::every().len(),
            forall|i: int| 0 <= i < r@.len() ==> #[trigger] r@[i]@ == Self::every()[i].spec_name(),
    {
        let ks = vec![Kind::Truncated, Kind::Trailing, Kind::Range, Kind::NegativeLen, Kind::Overflow, Kind::DivZero, Kind::Unterminated, Kind::NulInCstr, Kind::NoCase, Kind::Decode, Kind::Limit, Kind::Depth, Kind::Checksum, Kind::Const, Kind::ReservedBits, Kind::Missing, Kind::Length, Kind::Indivisible, Kind::Inconsistent, Kind::Buffer, Kind::UnknownFlag, Kind::Type, Kind::Encode];
        proof { assert(ks@ =~= Self::every()); }
        let mut out: Vec<&'static str> = Vec::new();
        let mut i: usize = 0;
        while i < ks.len()
            invariant
                ks@ == Self::every(),
                i <= ks@.len(),
                out@.len() == i,
                forall|j: int| 0 <= j < i ==> #[trigger] out@[j]@ == Self::every()[j].spec_name(),
            decreases ks@.len() - i,
        {
            out.push(ks[i].as_str());
            i = i + 1;
        }
        out
    }
}


/// A segment of the path to the field that failed. Segments are pushed from
/// innermost to outermost while unwinding; `format_path` reverses them.
#[derive(Debug, Clone)]
pub enum Seg {
    Field(String),
    Index(usize),
}

/// One step of rendering a path: the text so far, extended by one segment.
pub open spec fn render_step(out: Seq<char>, seg: Seg) -> Seq<char> {
    match seg {
        Seg::Field(name) => if out.len() == 0 { name@ } else { out.push('.') + name@ },
        Seg::Index(i) => out.push('[') + dec_chars(i as nat) + seq![']'],
    }
}

/// The rendering of the outermost `n` segments of `path` (those at indices
/// `path.len() - n ..`), outermost first.
pub open spec fn render_outer(path: Seq<Seg>, n: nat) -> Seq<char>
    decreases n,
{
    if n == 0 || n > path.len() {
        Seq::empty()
    } else {
        render_step(render_outer(path, (n - 1) as nat), path[path.len() - n])
    }
}

/// The whole path, outermost segment first: `outer.items[1].name`.
pub open spec fn path_text(path: Seq<Seg>) -> Seq<char> {
    render_outer(path, path.len())
}

pub fn format_path(path: &[Seg]) -> (out: String)
    ensures
        out@ == path_text(path@),
{
    let mut out = String::new();
    let mut n: usize = 0;
    while n < path.len()
        invariant
            n <= path.len(),
            out@ == render_outer(path@, n as nat),
        decreases path.len() - n,
    {
        let seg = &path[path.len() - 1 - n];
        match seg {
            Seg::Field(name) => {
                if !out.as_str().is_empty() {
                    push_char(&mut out, '.');
                }
                push_str(&mut out, name.as_str());
            },
            Seg::Index(i) => {
                push_char(&mut out, '[');
                push_decimal(&mut out, *i as u128);
                push_char(&mut out, ']');
            },
        }
        n = n + 1;
        proof {
            assert(render_outer(path@, n as nat) == render_step(render_outer(path@, (n - 1) as nat), path@[path@.len() - n]));
        }
    }
    out
}

#[derive(Debug, Clone)]
pub struct Invalid {
    pub kind: Kind,
    pub offset: usize,
    pub path: Vec<Seg>,
}

impl Invalid {
    pub fn new(kind: Kind, offset: usize) -> (r: Self)
        ensures
            r.kind == kind,
            r.offset == offset,
            r.path@.len() == 0,
    {
        Invalid { kind, offset, path: Vec::new() }
    }
}

/// Internal outcome of a failed unpack.
#[derive(Debug, Clone)]
pub enum UFail {
    Incomplete { needed: usize },
    Invalid(Invalid),
}

impl UFail {
    pub fn invalid(kind: Kind, offset: usize) -> (r: Self)
        ensures
            r matches UFail::Invalid(inv) && inv.kind == kind && inv.offset == offset && inv.path@.len() == 0,
    {
        UFail::Invalid(Invalid::new(kind, offset))
    }

    /// Adds one (outer) path segment to an `Invalid`; `Incomplete` carries no path.
    pub fn seg(self, seg: Seg) -> (r: Self)
        ensures
            match self {
                UFail::Incomplete { needed } => r == UFail::Incomplete { needed },
                UFail::Invalid(inv) => r matches UFail::Invalid(out) && out.kind == inv.kind
                    && out.offset == inv.offset && out.path@ == inv.path@.push(seg),
            },
    {
        match self {
            UFail::Incomplete { needed } => UFail::Incomplete { needed },
            UFail::Invalid(mut inv) => {
                inv.path.push(seg);
                UFail::Invalid(inv)
            },
        }
    }
}

#[derive(Debug, Clone)]
pub struct PackFail {
    pub kind: Kind,
    pub path: Vec<Seg>,
}

impl PackFail {
    pub fn new(kind: Kind) -> (r: Self)
        ensures
            r.kind == kind,
            r.path@.len() == 0,
    {
        PackFail { kind, path: Vec::new() }
    }

    /// Adds one (outer) path segment.
    pub fn seg(self, seg: Seg) -> (r: Self)
        ensures
            r.kind == self.kind,
            r.path@ == self.path@.push(seg),
    {
        let mut s = self;
        s.path.push(seg);
        s
    }
}

/// A `compile()` error.
#[derive(Debug, Clone)]
pub struct SchemaError {
    pub msg: String,
}

impl SchemaError {
    pub fn new(msg: String) -> (r: Self)
        ensures
            r.msg@ == msg@,
    {
        SchemaError { msg }
    }
}

} // verus!
