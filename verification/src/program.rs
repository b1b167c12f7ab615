use vstd::prelude::*;

use crate::digest::Algo;
use crate::expr::Expr;
use crate::names::ClosedSet;

verus! {

/// Registers per scope (frame).
pub const MAX_REGS: usize = 16;
/// Span registers per scope.
pub const MAX_SPANS: usize = 16;
/// Struct frames unpacking may open at once.
pub const MAX_DEPTH: usize = 64;

#[derive(Debug, Clone, Copy, PartialEq, Eq, Structural)]
pub enum IntPrim {
    U8,
    I8,
    U16,
    I16,
    U32,
    I32,
    U64,
    I64,
}

impl IntPrim {
    pub open spec fn spec_width(self) -> nat {
        match self {
            IntPrim::U8 | IntPrim::I8 => 1,
            IntPrim::U16 | IntPrim::I16 => 2,
            IntPrim::U32 | IntPrim::I32 => 4,
            IntPrim::U64 | IntPrim::I64 => 8,
        }
    }

    pub open spec fn spec_signed(self) -> bool {
        match self {
            IntPrim::I8 | IntPrim::I16 | IntPrim::I32 | IntPrim::I64 => true,
            _ => false,
        }
    }

    /// The smallest value of the type.
    pub open spec fn spec_min(self) -> int {
        match self {
            IntPrim::I8 => -0x80,
            IntPrim::I16 => -0x8000,
            IntPrim::I32 => -0x8000_0000,
            IntPrim::I64 => -0x8000_0000_0000_0000,
            _ => 0,
        }
    }

    /// The largest value of the type.
    pub open spec fn spec_max(self) -> int {
        match self {
            IntPrim::U8 => 0xff,
            IntPrim::I8 => 0x7f,
            IntPrim::U16 => 0xffff,
            IntPrim::I16 => 0x7fff,
            IntPrim::U32 => 0xffff_ffff,
            IntPrim::I32 => 0x7fff_ffff,
            IntPrim::U64 => 0xffff_ffff_ffff_ffff,
            IntPrim::I64 => 0x7fff_ffff_ffff_ffff,
        }
    }

    pub fn width(self) -> (r: usize)
        ensures
            r == self.spec_width(),
    {
        match self {
            IntPrim::U8 | IntPrim::I8 => 1,
            IntPrim::U16 | IntPrim::I16 => 2,
            IntPrim::U32 | IntPrim::I32 => 4,
            IntPrim::U64 | IntPrim::I64 => 8,
        }
    }

    pub fn signed(self) -> (r: bool)
        ensures
            r == self.spec_signed(),
    {
        match self {
            IntPrim::I8 | IntPrim::I16 | IntPrim::I32 | IntPrim::I64 => true,
            _ => false,
        }
    }

    /// `-2^(8w-1)` for a signed type, 0 otherwise.
    pub fn min(self) -> (r: i128)
        ensures
            r == self.spec_min(),
    {
        match self {
            IntPrim::I8 => -0x80,
            IntPrim::I16 => -0x8000,
            IntPrim::I32 => -0x8000_0000,
            IntPrim::I64 => -0x8000_0000_0000_0000,
            _ => 0,
        }
    }

    /// `2^(8w-1) - 1` for a signed type, `2^(8w) - 1` otherwise.
    pub fn max(self) -> (r: i128)
        ensures
            r == self.spec_max(),
    {
        match self {
            IntPrim::U8 => 0xff,
            IntPrim::I8 => 0x7f,
            IntPrim::U16 => 0xffff,
            IntPrim::I16 => 0x7fff,
            IntPrim::U32 => 0xffff_ffff,
            IntPrim::I32 => 0x7fff_ffff,
            IntPrim::U64 => 0xffff_ffff_ffff_ffff,
            IntPrim::I64 => 0x7fff_ffff_ffff_ffff,
        }
    }
}

/// A register: `up` frames above the current one, register number `idx`.
#[derive(Debug, Clone, Copy, PartialEq, Eq, Structural)]
pub struct Reg {
    pub up: u8,
    pub idx: u8,
}

#[derive(Debug, Clone)]
pub enum Key {
    Named(String),
    Skip,
}

impl Key {
    pub fn name(&self) -> (r: Option<&String>)
        ensures
            match self {
                Key::Named(n) => r == Some(n),
                Key::Skip => r is None,
            },
    {
        match self {
            Key::Named(n) => Some(n),
            Key::Skip => None,
        }
    }
}

/// The common part of dynamic opcodes: the result key and the span register
/// (written when the field is covered by some digest).
#[derive(Debug, Clone)]
pub struct Common {
    pub key: Key,
    pub span: Option<u8>,
}

impl Common {
    pub fn named(name: String) -> (r: Common)
        ensures
            r.key == Key::Named(name),
            r.span is None,
    {
        Common { key: Key::Named(name), span: None }
    }

    pub fn skip() -> (r: Common)
        ensures
            r.key is Skip,
            r.span is None,
    {
        Common { key: Key::Skip, span: None }
    }
}

#[derive(Debug, Clone, Copy, PartialEq, Eq, Structural)]
pub enum Enc {
    Utf8,
    Ascii,
    Latin1,
}

/// The text encodings a `str`/`cstr` field can use. Matched loosely, so
/// `"UTF-8"`, `"utf8"` and `"utf_8"` all land on the same member.
pub fn encodings() -> (r: ClosedSet<Enc>)
    ensures
        r.names@ == seq![("utf-8", Enc::Utf8), ("ascii", Enc::Ascii), ("latin-1", Enc::Latin1)],
        r.aliases@ == seq![("us-ascii", Enc::Ascii), ("iso-8859-1", Enc::Latin1)],
        r.loose,
{
    let names = vec![("utf-8", Enc::Utf8), ("ascii", Enc::Ascii), ("latin-1", Enc::Latin1)];
    let aliases = vec![("us-ascii", Enc::Ascii), ("iso-8859-1", Enc::Latin1)];
    proof {
        assert(names@ =~= seq![("utf-8", Enc::Utf8), ("ascii", Enc::Ascii), ("latin-1", Enc::Latin1)]);
        assert(aliases@ =~= seq![("us-ascii", Enc::Ascii), ("iso-8859-1", Enc::Latin1)]);
    }
    ClosedSet { what: "encoding", allowed: "utf-8/ascii/latin-1", loose: true, names, aliases }
}

#[derive(Debug, Clone, Copy, PartialEq, Eq, Structural)]
pub enum RestPolicy {
    Keep,
    Strict,
    Ignore,
}

/// What a `flags` field does with bits no name in it covers.
pub fn rest_policies() -> (r: ClosedSet<RestPolicy>)
    ensures
        r.names@ == seq![("keep", RestPolicy::Keep), ("strict", RestPolicy::Strict), ("ignore", RestPolicy::Ignore)],
        r.aliases@.len() == 0,
        !r.loose,
{
    let names = vec![("keep", RestPolicy::Keep), ("strict", RestPolicy::Strict), ("ignore", RestPolicy::Ignore)];
    proof {
        assert(names@ =~= seq![("keep", RestPolicy::Keep), ("strict", RestPolicy::Strict), ("ignore", RestPolicy::Ignore)]);
    }
    ClosedSet { what: "rest policy", allowed: "keep/strict/ignore", loose: false, names, aliases: Vec::new() }
}

/// Inversion of the linear expression `value = a*x + b`: during pack the
/// derived register `reg` receives `x = (value - b) / a`.
#[derive(Debug, Clone, Copy)]
pub struct Inv {
    pub reg: Reg,
    pub a: i64,
    pub b: i64,
}

#[derive(Debug, Clone)]
pub enum LenSrc {
    Expr { expr: Expr, inv: Option<Inv> },
    Greedy,
}

#[derive(Debug, Clone)]
pub enum CountSrc {
    Expr { expr: Expr, inv: Option<Inv> },
    UntilEof,
}

#[derive(Debug, Clone)]
pub enum FixKind {
    Int { prim: IntPrim, be: bool, expected: Option<i128>, derived: bool },
    F32 { be: bool },
    F64 { be: bool },
    Bool { expected: Option<bool> },
    Raw { len: usize, expected: Option<Vec<u8>> },
}

impl FixKind {
    pub open spec fn spec_width(&self) -> nat {
        match self {
            FixKind::Int { prim, .. } => prim.spec_width(),
            FixKind::F32 { .. } => 4,
            FixKind::F64 { .. } => 8,
            FixKind::Bool { .. } => 1,
            FixKind::Raw { len, .. } => *len as nat,
        }
    }

    pub fn width(&self) -> (r: usize)
        ensures
            r == self.spec_width(),
    {
        match self {
            FixKind::Int { prim, .. } => prim.width(),
            FixKind::F32 { .. } => 4,
            FixKind::F64 { .. } => 8,
            FixKind::Bool { .. } => 1,
            FixKind::Raw { len, .. } => *len,
        }
    }
}

#[derive(Debug, Clone)]
pub struct FixedItem {
    pub off: usize,
    pub kind: FixKind,
    /// Index of the value register in the field's own frame.
    pub reg: Option<u8>,
    pub span: Option<u8>,
    pub key: Key,
}

#[derive(Debug, Clone)]
pub struct BitItem {
    pub width: u8,
    pub signed: bool,
    pub reg: Option<u8>,
    pub derived: bool,
    pub key: Key,
}

#[derive(Debug, Clone)]
pub struct FlagItem {
    pub key: String,
    pub mask: u64,
    pub shift: u32,
    /// A single-bit mask: the value is a bool.
    pub is_bool: bool,
}

#[derive(Debug, Clone)]
pub enum Over {
    Star,
    /// Span registers in the order they appear in `over`.
    Spans(Vec<u8>),
}

#[derive(Debug)]
pub enum Op {
    /// A coalesced run of fixed fields: a single bounds check.
    Fixed { width: usize, items: Vec<FixedItem> },
    Bytes { len: LenSrc, max: usize, c: Common },
    Str { len: LenSrc, max: usize, enc: Enc, c: Common },
    CStr { max: usize, enc: Enc, c: Common },
    /// Merged bits fields; `nbytes * 8` bits, MSB-first.
    BitRun { nbytes: usize, items: Vec<BitItem> },
    Flags { prim: IntPrim, be: bool, items: Vec<FlagItem>, rest: RestPolicy, rest_mask: u64, c: Common },
    Digest { algo: Algo, over: Over, verify: bool, be: bool, c: Common },
    Nest { prog: Box<Program>, size: Option<LenSrc>, c: Common },
    Array { count: CountSrc, max_count: usize, elem: Box<Op>, elem_min: usize, c: Common },
    Switch { on: Expr, cases: Vec<(i64, Box<Op>)>, default: Option<Box<Op>>, c: Common },
    /// A conditionally present field: absent (no bytes, no key) when `pred`
    /// evaluates to 0, decoded/encoded as `then` otherwise.
    Cond { pred: Expr, then: Box<Op>, c: Common },
}

impl Op {
    pub open spec fn spec_common(&self) -> Option<Common> {
        match self {
            Op::Fixed { .. } | Op::BitRun { .. } => None,
            Op::Bytes { c, .. } => Some(*c),
            Op::Str { c, .. } => Some(*c),
            Op::CStr { c, .. } => Some(*c),
            Op::Flags { c, .. } => Some(*c),
            Op::Digest { c, .. } => Some(*c),
            Op::Nest { c, .. } => Some(*c),
            Op::Array { c, .. } => Some(*c),
            Op::Switch { c, .. } => Some(*c),
            Op::Cond { c, .. } => Some(*c),
        }
    }

    pub fn common(&self) -> (r: Option<&Common>)
        ensures
            match self.spec_common() {
                Some(c) => r == Some(&c),
                None => r is None,
            },
    {
        match self {
            Op::Fixed { .. } | Op::BitRun { .. } => None,
            Op::Bytes { c, .. } => Some(c),
            Op::Str { c, .. } => Some(c),
            Op::CStr { c, .. } => Some(c),
            Op::Flags { c, .. } => Some(c),
            Op::Digest { c, .. } => Some(c),
            Op::Nest { c, .. } => Some(c),
            Op::Array { c, .. } => Some(c),
            Op::Switch { c, .. } => Some(c),
            Op::Cond { c, .. } => Some(c),
        }
    }
}

#[derive(Debug)]
pub struct Program {
    pub ops: Vec<Op>,
    pub nregs: u8,
    pub nspans: u8,
    pub min_size: usize,
    pub static_size: Option<usize>,
}

} // verus!
