//! The vocabulary of the untyped schema form `(name, kind, opts)`: the
//! closed sets of names it takes, the options each kind reads, and the
//! near-miss hint an unknown option gets.

use vstd::prelude::*;

use crate::names::ClosedSet;
use crate::program::IntPrim;
use crate::schema::{BinOp, ByteOrder, ExprIn};
use crate::text::{push_char, push_str, str_eq, string_of};

verus! {

pub open spec fn byteorder_table() -> Seq<(&'static str, ByteOrder)> {
    seq![("big", ByteOrder::Big), ("network", ByteOrder::Big), ("little", ByteOrder::Little)]
}

pub open spec fn byteorder_what() -> Seq<char> {
    "byteorder"@
}

pub open spec fn byteorder_allowed() -> Seq<char> {
    "only \"big\"/\"little\"/\"network\"; \"native\" is forbidden, since it makes the wire format depend on the running machine"@
}

/// The byte orders `compile()` takes. `network` is a spelling of big of its
/// own, published as a member.
pub fn byteorders() -> (r: ClosedSet<ByteOrder>)
    ensures
        r.names@ == byteorder_table(),
        r.aliases@.len() == 0,
        !r.loose,
        r.what@ == byteorder_what(),
        r.allowed@ == byteorder_allowed(),
{
    let names = vec![("big", ByteOrder::Big), ("network", ByteOrder::Big), ("little", ByteOrder::Little)];
    proof {
        assert(names@ =~= seq![("big", ByteOrder::Big), ("network", ByteOrder::Big), ("little", ByteOrder::Little)]);
    }
    ClosedSet {
        what: "byteorder",
        allowed: "only \"big\"/\"little\"/\"network\"; \"native\" is forbidden, since it makes the wire format depend on the running machine",
        loose: false,
        names,
        aliases: Vec::new(),
    }
}

pub open spec fn prim_table() -> Seq<(&'static str, IntPrim)> {
    seq![
        ("u8", IntPrim::U8), ("i8", IntPrim::I8), ("u16", IntPrim::U16), ("i16", IntPrim::I16),
        ("u32", IntPrim::U32), ("i32", IntPrim::I32), ("u64", IntPrim::U64), ("i64", IntPrim::I64),
    ]
}

pub open spec fn prim_what() -> Seq<char> {
    "an integer kind"@
}

pub open spec fn prim_allowed() -> Seq<char> {
    "only \"u8\"/\"i8\" through \"u64\"/\"i64\""@
}

/// The fixed-width integer kinds.
pub fn int_prims() -> (r: ClosedSet<IntPrim>)
    ensures
        r.names@ == prim_table(),
        r.aliases@.len() == 0,
        !r.loose,
        r.what@ == prim_what(),
        r.allowed@ == prim_allowed(),
{
    let names = vec![
        ("u8", IntPrim::U8), ("i8", IntPrim::I8), ("u16", IntPrim::U16), ("i16", IntPrim::I16),
        ("u32", IntPrim::U32), ("i32", IntPrim::I32), ("u64", IntPrim::U64), ("i64", IntPrim::I64),
    ];
    proof {
        assert(names@ =~= seq![
            ("u8", IntPrim::U8), ("i8", IntPrim::I8), ("u16", IntPrim::U16), ("i16", IntPrim::I16),
            ("u32", IntPrim::U32), ("i32", IntPrim::I32), ("u64", IntPrim::U64), ("i64", IntPrim::I64),
        ]);
    }
    ClosedSet {
        what: "an integer kind",
        allowed: "only \"u8\"/\"i8\" through \"u64\"/\"i64\"",
        loose: false,
        names,
        aliases: Vec::new(),
    }
}

pub open spec fn binop_table() -> Seq<(&'static str, BinOp)> {
    seq![
        ("add", BinOp::Add), ("sub", BinOp::Sub), ("mul", BinOp::Mul), ("div", BinOp::Div),
        ("shl", BinOp::Shl), ("shr", BinOp::Shr), ("and", BinOp::And), ("or", BinOp::Or),
        ("xor", BinOp::Xor), ("eq", BinOp::Eq), ("ne", BinOp::Ne), ("lt", BinOp::Lt),
        ("le", BinOp::Le), ("gt", BinOp::Gt), ("ge", BinOp::Ge),
    ]
}

pub open spec fn binop_what() -> Seq<char> {
    "an operator"@
}

pub open spec fn binop_allowed() -> Seq<char> {
    "one of add/sub/mul/div/shl/shr/and/or/xor/eq/ne/lt/le/gt/ge"@
}

/// The operators an expression tuple can start with.
pub fn binops() -> (r: ClosedSet<BinOp>)
    ensures
        r.names@ == binop_table(),
        r.aliases@.len() == 0,
        !r.loose,
        r.what@ == binop_what(),
        r.allowed@ == binop_allowed(),
{
    let names = vec![
        ("add", BinOp::Add), ("sub", BinOp::Sub), ("mul", BinOp::Mul), ("div", BinOp::Div),
        ("shl", BinOp::Shl), ("shr", BinOp::Shr), ("and", BinOp::And), ("or", BinOp::Or),
        ("xor", BinOp::Xor), ("eq", BinOp::Eq), ("ne", BinOp::Ne), ("lt", BinOp::Lt),
        ("le", BinOp::Le), ("gt", BinOp::Gt), ("ge", BinOp::Ge),
    ];
    proof {
        assert(names@ =~= seq![
            ("add", BinOp::Add), ("sub", BinOp::Sub), ("mul", BinOp::Mul), ("div", BinOp::Div),
            ("shl", BinOp::Shl), ("shr", BinOp::Shr), ("and", BinOp::And), ("or", BinOp::Or),
            ("xor", BinOp::Xor), ("eq", BinOp::Eq), ("ne", BinOp::Ne), ("lt", BinOp::Lt),
            ("le", BinOp::Le), ("gt", BinOp::Gt), ("ge", BinOp::Ge),
        ]);
    }
    ClosedSet {
        what: "an operator",
        allowed: "one of add/sub/mul/div/shl/shr/and/or/xor/eq/ne/lt/le/gt/ge",
        loose: false,
        names,
        aliases: Vec::new(),
    }
}

// ---------- edit distance ----------

pub open spec fn min2(x: nat, y: nat) -> nat {
    if x < y { x } else { y }
}

/// The optimal-string-alignment distance between the first `i` characters
/// of `a` and the first `j` of `b`: insertions, deletions, substitutions
/// and swaps of two adjacent characters, each costing one.
pub open spec fn osa(a: Seq<char>, b: Seq<char>, i: nat, j: nat) -> nat
    decreases i + j,
{
    if i == 0 {
        j
    } else if j == 0 {
        i
    } else {
        let sub = osa(a, b, (i - 1) as nat, (j - 1) as nat) + (if a[i - 1] != b[j - 1] { 1nat } else { 0nat });
        let m = min2(min2(osa(a, b, (i - 1) as nat, j) + 1, osa(a, b, i, (j - 1) as nat) + 1), sub);
        if i > 1 && j > 1 && a[i - 1] == b[j - 2] && a[i - 2] == b[j - 1] {
            min2(m, osa(a, b, (i - 2) as nat, (j - 2) as nat) + 1)
        } else {
            m
        }
    }
}

/// The distance is never more than the longer length.
pub proof fn lemma_osa_bound(a: Seq<char>, b: Seq<char>, i: nat, j: nat)
    ensures
        osa(a, b, i, j) <= if i < j { j } else { i },
    decreases i + j,
{
    if i > 0 && j > 0 {
        lemma_osa_bound(a, b, (i - 1) as nat, (j - 1) as nat);
    }
}

/// The characters of a string, in order.
fn chars_of(s: &str) -> (r: Vec<char>)
    ensures
        r@ == s@,
{
    let n = s.unicode_len();
    let mut out: Vec<char> = Vec::new();
    let mut i: usize = 0;
    while i < n
        invariant
            n == s@.len(),
            i <= n,
            out@ == s@.subrange(0, i as int),
        decreases n - i,
    {
        out.push(s.get_char(i));
        proof { assert(out@ =~= s@.subrange(0, i + 1)); }
        i = i + 1;
    }
    proof { assert(s@.subrange(0, n as int) =~= s@); }
    out
}

/// Edit distance for the near-miss hint: optimal string alignment, so a
/// swapped pair of adjacent letters costs one edit, not two.
fn edits(a: &str, b: &str) -> (r: usize)
    ensures
        r == osa(a@, b@, a@.len(), b@.len()),
{
    let x = chars_of(a);
    let y = chars_of(b);
    let n = x.len();
    let m = y.len();
    // Rows i-2, i-1 and i of the table.
    let mut row2: Vec<u128> = Vec::new();
    let mut row1: Vec<u128> = Vec::new();
    row1.push(0);
    let mut j: usize = 0;
    while j < m
        invariant
            m == y@.len(),
            j <= m,
            row1@.len() == j + 1,
            forall|k: int| 0 <= k <= j ==> row1@[k] == osa(x@, y@, 0, k as nat),
        decreases m - j,
    {
        row1.push((j + 1) as u128);
        j = j + 1;
    }
    let mut i: usize = 0;
    while i < n
        invariant
            n == x@.len(),
            m == y@.len(),
            i <= n,
            row1@.len() == m + 1,
            forall|k: int| 0 <= k <= m ==> row1@[k] == osa(x@, y@, i as nat, k as nat),
            i >= 1 ==> row2@.len() == m + 1,
            i >= 1 ==> forall|k: int| 0 <= k <= m ==> row2@[k] == osa(x@, y@, (i - 1) as nat, k as nat),
        decreases n - i,
    {
        let ii = i + 1;
        let mut cur: Vec<u128> = Vec::new();
        cur.push(ii as u128);
        let mut j: usize = 0;
        while j < m
            invariant
                n == x@.len(),
                m == y@.len(),
                i < n,
                ii == i + 1,
                j <= m,
                cur@.len() == j + 1,
                row1@.len() == m + 1,
                forall|k: int| 0 <= k <= m ==> row1@[k] == osa(x@, y@, i as nat, k as nat),
                i >= 1 ==> row2@.len() == m + 1,
                i >= 1 ==> forall|k: int| 0 <= k <= m ==> row2@[k] == osa(x@, y@, (i - 1) as nat, k as nat),
                forall|k: int| 0 <= k <= j ==> cur@[k] == osa(x@, y@, ii as nat, k as nat),
            decreases m - j,
        {
            let jj = j + 1;
            proof {
                lemma_osa_bound(x@, y@, i as nat, jj as nat);
                lemma_osa_bound(x@, y@, ii as nat, j as nat);
                lemma_osa_bound(x@, y@, i as nat, j as nat);
                if i >= 1 && j >= 1 {
                    lemma_osa_bound(x@, y@, (i - 1) as nat, (j - 1) as nat);
                }
            }
            let del = row1[jj] + 1;
            let ins = cur[j] + 1;
            let sub = row1[j] + if x[i] != y[j] { 1 } else { 0 };
            let mut best = if del < ins { del } else { ins };
            if sub < best {
                best = sub;
            }
            if i >= 1 && j >= 1 && x[i] == y[j - 1] && x[i - 1] == y[j] {
                let swap = row2[j - 1] + 1;
                if swap < best {
                    best = swap;
                }
            }
            cur.push(best);
            j = j + 1;
        }
        row2 = row1;
        row1 = cur;
        i = i + 1;
    }
    proof { lemma_osa_bound(x@, y@, n as nat, m as nat); }
    row1[m] as usize
}

// ---------- the near-miss hint ----------

/// How close `c` is to `word`: twice the characters they share over their
/// combined length (`difflib`'s ratio), as the pair `(2*shared, total)`.
pub open spec fn shared(word: Seq<char>, c: Seq<char>) -> nat {
    let n = word.len();
    let m = c.len();
    let longest = if n < m { m } else { n };
    (longest - osa(word, c, n, m)) as nat
}

pub open spec fn total(word: Seq<char>, c: Seq<char>) -> nat {
    if word.len() + c.len() == 0 { 1 } else { word.len() + c.len() }
}

/// A candidate is close enough when its ratio is at least 0.6 (names
/// past four billion characters are never close).
pub open spec fn close_enough(word: Seq<char>, c: Seq<char>) -> bool {
    &&& word.len() <= 0xFFFF_FFFF
    &&& c.len() <= 0xFFFF_FFFF
    &&& 10 * shared(word, c) >= 3 * total(word, c)
}

/// The candidate the hint names among the first `k`: the closest one close
/// enough, the earliest of equals.
pub open spec fn pick(word: Seq<char>, cands: Seq<Seq<char>>, k: nat) -> Option<int>
    decreases k,
{
    if k == 0 {
        None
    } else {
        let prev = pick(word, cands, (k - 1) as nat);
        let c = cands[k - 1];
        let better = match prev {
            None => true,
            Some(p) => shared(word, c) * total(word, cands[p]) > shared(word, cands[p]) * total(word, c),
        };
        if close_enough(word, c) && better { Some(k - 1) } else { prev }
    }
}

proof fn lemma_pick_range(word: Seq<char>, cands: Seq<Seq<char>>, k: nat)
    requires
        k <= cands.len(),
    ensures
        pick(word, cands, k) matches Some(p) ==> 0 <= p < k,
    decreases k,
{
    if k > 0 {
        lemma_pick_range(word, cands, (k - 1) as nat);
    }
}

/// The closest accepted option to a misspelling, if any is close enough;
/// the first of equally close ones.
fn nearest(word: &str, allowed: &[&'static str]) -> (r: Option<&'static str>)
    ensures
        match pick(word@, allowed@.map_values(|s: &'static str| s@), allowed@.len()) {
            Some(p) => r == Some(allowed@[p]),
            None => r is None,
        },
{
    let ghost cands = allowed@.map_values(|s: &'static str| s@);
    let n = word.unicode_len();
    let mut best: Option<usize> = None;
    let mut best_s: u128 = 0;
    let mut best_t: u128 = 1;
    let mut k: usize = 0;
    while k < allowed.len()
        invariant
            n == word@.len(),
            k <= allowed@.len(),
            cands == allowed@.map_values(|s: &'static str| s@),
            pick(word@, cands, k as nat) == (match best { Some(b) => Some(b as int), None => None::<int> }),
            best matches Some(b) ==> b < k && best_s == shared(word@, cands[b as int])
                && best_t == total(word@, cands[b as int]) && close_enough(word@, cands[b as int])
                && best_s <= 0xFFFF_FFFF && best_t <= 0x2_0000_0000,
        decreases allowed@.len() - k,
    {
        let c = allowed[k];
        let m = c.unicode_len();
        if n > 0xFFFF_FFFF || m > 0xFFFF_FFFF {
            proof { assert(cands[k as int] == c@); }
            k = k + 1;
            continue;
        }
        let e = edits(word, c);
        proof { lemma_osa_bound(word@, c@, n as nat, m as nat); }
        let longest = if n < m { m } else { n };
        let s = (longest - e) as u128;
        let t: u128 = if n as u128 + m as u128 == 0 { 1 } else { n as u128 + m as u128 };
        proof {
            assert(cands[k as int] == c@);
            assert(s == shared(word@, c@));
            assert(t == total(word@, c@));
        }
        let close = 10 * s >= 3 * t;
        let better = match best {
            None => true,
            Some(_) => {
                proof {
                    assert(best_s * t <= 0xFFFF_FFFF * 0x2_0000_0000) by (nonlinear_arith)
                        requires best_s <= 0xFFFF_FFFF, t <= 0x2_0000_0000;
                    assert(s * best_t <= 0xFFFF_FFFF * 0x2_0000_0000) by (nonlinear_arith)
                        requires s <= 0xFFFF_FFFF, best_t <= 0x2_0000_0000;
                }
                s * best_t > best_s * t
            },
        };
        if close && better {
            best = Some(k);
            best_s = s;
            best_t = t;
        }
        k = k + 1;
    }
    match best {
        Some(b) => Some(allowed[b]),
        None => None,
    }
}

// ---------- options ----------

/// The options each kind reads, by the kinds that share them.
pub open spec fn options_table() -> Seq<(Seq<&'static str>, Seq<&'static str>)> {
    seq![
        (seq!["u8", "i8", "u16", "i16", "u32", "i32", "u64", "i64"], seq!["byteorder", "const"]),
        (seq!["f32", "f64"], seq!["byteorder"]),
        (seq!["bool"], seq!["const"]),
        (seq!["raw"], seq!["len", "const"]),
        (seq!["bytes"], seq!["len", "max"]),
        (seq!["str"], seq!["len", "max", "encoding", "errors"]),
        (seq!["cstr"], seq!["max", "encoding", "errors"]),
        (seq!["bits"], seq!["width", "signed"]),
        (seq!["flags"], seq!["base", "names", "rest", "byteorder"]),
        (seq!["digest"], seq!["algo", "over", "verify", "poly", "init", "xorout", "refin", "refout"]),
        (seq!["struct"], seq!["fields", "byteorder", "size"]),
        (seq!["array"], seq!["elem", "count", "until_eof"]),
        (seq!["switch"], seq!["on", "cases", "default"]),
        (seq!["cond"], seq!["pred", "then"]),
    ]
}

/// The options each kind reads, grouped by the kinds that share them.
pub fn options() -> (r: Vec<(Vec<&'static str>, Vec<&'static str>)>)
    ensures
        r@.len() == options_table().len(),
        forall|i: int| 0 <= i < r@.len() ==> r@[i].0@ == options_table()[i].0 && r@[i].1@ == options_table()[i].1,
{
    let r = vec![
        (vec!["u8", "i8", "u16", "i16", "u32", "i32", "u64", "i64"], vec!["byteorder", "const"]),
        (vec!["f32", "f64"], vec!["byteorder"]),
        (vec!["bool"], vec!["const"]),
        (vec!["raw"], vec!["len", "const"]),
        (vec!["bytes"], vec!["len", "max"]),
        (vec!["str"], vec!["len", "max", "encoding", "errors"]),
        (vec!["cstr"], vec!["max", "encoding", "errors"]),
        (vec!["bits"], vec!["width", "signed"]),
        (vec!["flags"], vec!["base", "names", "rest", "byteorder"]),
        (vec!["digest"], vec!["algo", "over", "verify", "poly", "init", "xorout", "refin", "refout"]),
        (vec!["struct"], vec!["fields", "byteorder", "size"]),
        (vec!["array"], vec!["elem", "count", "until_eof"]),
        (vec!["switch"], vec!["on", "cases", "default"]),
        (vec!["cond"], vec!["pred", "then"]),
    ];
    proof {
        assert forall|i: int| 0 <= i < r@.len() implies r@[i].0@ =~= options_table()[i].0 && r@[i].1@ =~= options_table()[i].1 by {}
    }
    r
}

/// `k` is one of the allowed names.
pub open spec fn known_key(allowed: Seq<&'static str>, k: Seq<char>) -> bool {
    exists|j: int| 0 <= j < allowed.len() && #[trigger] allowed[j]@ == k
}

/// The message an unknown option `k` of a `kind` gets: the closest known
/// one is named where one is close enough.
pub open spec fn unknown_msg(kind: Seq<char>, k: Seq<char>, allowed: Seq<&'static str>) -> Seq<char> {
    kind + ": unknown option '"@ + k + seq!['\'']
        + match pick(k, allowed.map_values(|s: &'static str| s@), allowed.len()) {
        Some(p) => " (did you mean '"@ + allowed[p]@ + "'?)"@,
        None => Seq::empty(),
    }
}

/// Whether `k` is one of the allowed names.
pub(crate) fn is_known(k: &str, allowed: &[&'static str]) -> (r: bool)
    ensures
        r == known_key(allowed@, k@),
{
    let mut j: usize = 0;
    while j < allowed.len()
        invariant
            j <= allowed@.len(),
            forall|q: int| 0 <= q < j ==> #[trigger] allowed@[q]@ != k@,
        decreases allowed@.len() - j,
    {
        if str_eq(allowed[j], k) {
            proof { assert(allowed@[j as int]@ == k@); }
            return true;
        }
        j = j + 1;
    }
    false
}

/// The message for an unknown option (see `unknown_msg`).
pub(crate) fn unknown_option(k: &str, allowed: &[&'static str], kind: &str) -> (r: String)
    ensures
        r@ == unknown_msg(kind@, k@, allowed@),
{
    let mut m = string_of(kind);
    push_str(&mut m, ": unknown option '");
    push_str(&mut m, k);
    push_char(&mut m, '\'');
    let ghost head = m@;
    match nearest(k, allowed) {
        Some(hint) => {
            push_str(&mut m, " (did you mean '");
            push_str(&mut m, hint);
            push_str(&mut m, "'?)");
            proof { assert(m@ =~= head + (" (did you mean '"@ + hint@ + "'?)"@)); }
        },
        None => {
            proof { assert(m@ =~= head + Seq::<char>::empty()); }
        },
    }
    m
}

/// Every key of a kind's options must be one it reads; the first unknown
/// one is named, with the closest known one where one is close enough.
pub fn check_keys(keys: &[String], allowed: &[&'static str], kind: &str) -> (r: Result<(), String>)
    ensures
        r is Ok <==> forall|i: int| 0 <= i < keys@.len() ==> known_key(allowed@, #[trigger] keys@[i]@),
        r matches Err(m) ==> exists|i: int| 0 <= i < keys@.len() && !known_key(allowed@, #[trigger] keys@[i]@)
            && (forall|p: int| 0 <= p < i ==> known_key(allowed@, #[trigger] keys@[p]@))
            && m@ == unknown_msg(kind@, keys@[i]@, allowed@),
{
    let mut i: usize = 0;
    while i < keys.len()
        invariant
            i <= keys@.len(),
            forall|p: int| 0 <= p < i ==> known_key(allowed@, #[trigger] keys@[p]@),
        decreases keys@.len() - i,
    {
        let k = keys[i].as_str();
        if !is_known(k, allowed) {
            let m = unknown_option(k, allowed, kind);
            proof { assert(!known_key(allowed@, keys@[i as int]@)); }
            return Err(m);
        }
        i = i + 1;
    }
    Ok(())
}

/// An array's `count=`/`until_eof=` as the one count expression the
/// compiler reads: reading to the end is a greedy count.
pub fn extent(count: Option<ExprIn>, until_eof: bool) -> (r: Result<ExprIn, String>)
    ensures
        match (count, until_eof) {
            (Some(_), true) => r matches Err(m) && m@ == "array: count and until_eof are mutually exclusive"@,
            (None, false) => r matches Err(m) && m@ == "array: count or until_eof is required"@,
            (None, true) => r == Ok::<ExprIn, String>(ExprIn::Greedy),
            (Some(c), false) => r == Ok::<ExprIn, String>(c),
        },
{
    match (count, until_eof) {
        (Some(_), true) => Err(string_of("array: count and until_eof are mutually exclusive")),
        (None, false) => Err(string_of("array: count or until_eof is required")),
        (None, true) => Ok(ExprIn::Greedy),
        (Some(c), false) => Ok(c),
    }
}

// ---------- where in a schema ----------

/// How one level of a schema spells itself in a path.
#[derive(Debug)]
pub enum PathSeg {
    /// Adds nothing: the root, or a nested field list, already under its
    /// field's name.
    Nothing,
    /// A field: `.name`, or bare with nothing before it.
    Field(String),
    /// Joined with no separator: `[]`, `?default`.
    Suffix(String),
    /// A switch branch, `?tag`.
    Case(i64),
}

/// The path the segments spell, outermost first: `frame.rows[].x`.
pub open spec fn path_of(segs: Seq<PathSeg>) -> Seq<char>
    decreases segs.len(),
{
    if segs.len() == 0 {
        Seq::empty()
    } else {
        let out = path_of(segs.drop_last());
        match segs.last() {
            PathSeg::Nothing => out,
            PathSeg::Field(name) => if out.len() == 0 { name@ } else { out + seq!['.'] + name@ },
            PathSeg::Suffix(t) => out + t@,
            PathSeg::Case(tag) => out + seq!['?'] + (if tag < 0 {
                seq!['-'] + crate::text::dec_chars((-tag) as nat)
            } else {
                crate::text::dec_chars(tag as nat)
            }),
        }
    }
}

/// Where a schema error came from, as a path.
pub fn schema_path(segs: &[PathSeg]) -> (r: String)
    ensures
        r@ == path_of(segs@),
{
    let mut out = String::new();
    let mut i: usize = 0;
    proof { assert(out@ =~= path_of(segs@.subrange(0, 0))); }
    while i < segs.len()
        invariant
            i <= segs@.len(),
            out@ == path_of(segs@.subrange(0, i as int)),
        decreases segs@.len() - i,
    {
        proof {
            assert(segs@.subrange(0, i + 1).drop_last() =~= segs@.subrange(0, i as int));
            assert(segs@.subrange(0, i + 1).last() == segs@[i as int]);
        }
        let ghost before = out@;
        match &segs[i] {
            PathSeg::Nothing => {},
            PathSeg::Field(name) => {
                proof { reveal_strlit(""); }
                let empty = str_eq(out.as_str(), "");
                if !empty {
                    push_char(&mut out, '.');
                    proof {
                        assert(""@.len() == 0);
                        if before.len() == 0 { assert(before =~= ""@); }
                    }
                } else {
                    proof { assert(before =~= Seq::<char>::empty()); }
                }
                push_str(&mut out, name.as_str());
                proof {
                    if before.len() == 0 {
                        assert(out@ =~= name@);
                    } else {
                        assert(out@ =~= before + seq!['.'] + name@);
                    }
                }
            },
            PathSeg::Suffix(t) => push_str(&mut out, t.as_str()),
            PathSeg::Case(tag) => {
                push_char(&mut out, '?');
                crate::text::push_signed(&mut out, *tag as i128);
            },
        }
        proof { assert(out@ =~= path_of(segs@.subrange(0, i + 1))); }
        i = i + 1;
    }
    proof { assert(segs@.subrange(0, segs@.len() as int) =~= segs@); }
    out
}

/// `msg` holds `" (at "`.
pub open spec fn has_location(msg: Seq<char>) -> bool {
    exists|i: int| 0 <= i && i + 5 <= msg.len() && #[trigger] msg.subrange(i, i + 5) == " (at "@
}

/// A schema error message said where it came from, once: one that already
/// names a place passes through unchanged.
pub fn located(msg: &str, path: &str) -> (r: String)
    ensures
        r@ == if has_location(msg@) { msg@ } else { msg@ + " (at "@ + path@ + seq![')'] },
{
    let cs = chars_of(msg);
    let pat = chars_of(" (at ");
    proof { reveal_strlit(" (at "); }
    let n = cs.len();
    let mut i: usize = 0;
    while n >= 5 && i <= n - 5
        invariant
            n == cs@.len(),
            cs@ == msg@,
            pat@ == " (at "@,
            pat@.len() == 5,
            forall|p: int| 0 <= p < i && p + 5 <= n ==> #[trigger] msg@.subrange(p, p + 5) != " (at "@,
        decreases n - i,
    {
        let mut same = true;
        let mut k: usize = 0;
        while k < 5
            invariant
                k <= 5,
                i + 5 <= n,
                n == cs@.len(),
                pat@.len() == 5,
                same <==> forall|q: int| 0 <= q < k ==> cs@[i + q] == pat@[q],
            decreases 5 - k,
        {
            if cs[i + k] != pat[k] {
                same = false;
            }
            k = k + 1;
        }
        if same {
            proof { assert(msg@.subrange(i as int, i + 5) =~= " (at "@); }
            return string_of(msg);
        }
        proof {
            let q = choose|q: int| 0 <= q < 5 && cs@[i + q] != pat@[q];
            assert(msg@.subrange(i as int, i + 5)[q] != " (at "@[q]);
        }
        i = i + 1;
    }
    let mut out = string_of(msg);
    push_str(&mut out, " (at ");
    push_str(&mut out, path);
    push_char(&mut out, ')');
    proof {
        assert forall|p: int| 0 <= p && p + 5 <= msg@.len() implies #[trigger] msg@.subrange(p, p + 5) != " (at "@ by {
            assert(p < i);
        }
        assert(out@ =~= msg@ + " (at "@ + path@ + seq![')']);
    }
    out
}

} // verus!
