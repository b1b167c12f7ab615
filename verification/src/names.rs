//! Closed sets of names: the table `parse` matches on is the table the
//! published names are read from, so the two cannot drift apart.

use vstd::prelude::*;

use crate::text::{push_str, quoted, str_eq, string_of};

verus! {

/// A byte with ASCII letters lowered.
pub open spec fn ascii_lower(c: u8) -> u8 {
    if 65 <= c <= 90 { (c + 32) as u8 } else { c }
}

/// The bytes of a name as compared loosely: `-` and `_` dropped, ASCII
/// letters lowered.
pub open spec fn loose_key(s: Seq<u8>) -> Seq<u8>
    decreases s.len(),
{
    if s.len() == 0 {
        Seq::empty()
    } else {
        let rest = loose_key(s.drop_last());
        let c = s.last();
        if c == 45 || c == 95 { rest } else { rest.push(ascii_lower(c)) }
    }
}

fn key_of(s: &str) -> (r: Vec<u8>)
    ensures
        r@ == loose_key(vstd::utf8::encode_utf8(s@)),
{
    let b = s.as_bytes();
    let mut out: Vec<u8> = Vec::new();
    let mut i: usize = 0;
    while i < b.len()
        invariant
            i <= b@.len(),
            out@ == loose_key(b@.subrange(0, i as int)),
        decreases b@.len() - i,
    {
        let c = b[i];
        proof { assert(b@.subrange(0, i + 1).drop_last() =~= b@.subrange(0, i as int)); }
        if c != 45 && c != 95 {
            let l = if 65 <= c && c <= 90 { c + 32 } else { c };
            out.push(l);
        }
        i = i + 1;
    }
    proof { assert(b@.subrange(0, b@.len() as int) =~= b@); }
    out
}

/// Equal ignoring ASCII case and any `-`/`_`.
pub fn loose_eq(a: &str, b: &str) -> (r: bool)
    ensures
        r == (loose_key(vstd::utf8::encode_utf8(a@)) == loose_key(vstd::utf8::encode_utf8(b@))),
{
    let x = key_of(a);
    let y = key_of(b);
    if x.len() != y.len() {
        return false;
    }
    let mut i: usize = 0;
    while i < x.len()
        invariant
            x@ == loose_key(vstd::utf8::encode_utf8(a@)),
            y@ == loose_key(vstd::utf8::encode_utf8(b@)),
            x@.len() == y@.len(),
            i <= x@.len(),
            forall|j: int| 0 <= j < i ==> x@[j] == y@[j],
        decreases x@.len() - i,
    {
        if x[i] != y[i] {
            return false;
        }
        i = i + 1;
    }
    proof { assert(x@ =~= y@); }
    true
}

/// A set of names the library recognises, and nothing else.
pub struct ClosedSet<T> {
    /// Names the thing in a message: `"encoding"`, `"rest policy"`.
    pub what: &'static str,
    /// What that message says is allowed instead.
    pub allowed: &'static str,
    /// Compare loosely (`loose_eq`) rather than exactly.
    pub loose: bool,
    /// One name per value: the published names.
    pub names: Vec<(&'static str, T)>,
    /// Spellings accepted without being published; searched only after
    /// `names` misses.
    pub aliases: Vec<(&'static str, T)>,
}

/// Whether `s` spells `name` under the set's comparison.
pub open spec fn spells(loose: bool, s: Seq<char>, name: Seq<char>) -> bool {
    if loose {
        loose_key(vstd::utf8::encode_utf8(s)) == loose_key(vstd::utf8::encode_utf8(name))
    } else {
        s == name
    }
}

/// The value of the first entry from `i` on that `s` spells.
pub open spec fn first_match<T>(table: Seq<(&'static str, T)>, loose: bool, s: Seq<char>, i: nat) -> Option<T>
    decreases table.len() - i,
{
    if i >= table.len() {
        None
    } else if spells(loose, s, table[i as int].0@) {
        Some(table[i as int].1)
    } else {
        first_match(table, loose, s, i + 1)
    }
}

impl<T: Copy> ClosedSet<T> {
    /// The value `s` stands for: the first published name it spells, else
    /// the first alias.
    pub open spec fn lookup(&self, s: Seq<char>) -> Option<T> {
        match first_match(self.names@, self.loose, s, 0) {
            Some(v) => Some(v),
            None => first_match(self.aliases@, self.loose, s, 0),
        }
    }

    fn find(table: &Vec<(&'static str, T)>, loose: bool, s: &str) -> (r: Option<T>)
        ensures
            r == first_match(table@, loose, s@, 0),
    {
        let mut i: usize = 0;
        while i < table.len()
            invariant
                i <= table@.len(),
                first_match(table@, loose, s@, 0) == first_match(table@, loose, s@, i as nat),
            decreases table@.len() - i,
        {
            let hit = if loose { loose_eq(s, table[i].0) } else { str_eq(s, table[i].0) };
            if hit {
                return Some(table[i].1);
            }
            i = i + 1;
        }
        None
    }

    /// The value `s` stands for, if any.
    pub fn get(&self, s: &str) -> (r: Option<T>)
        ensures
            r == self.lookup(s@),
    {
        match Self::find(&self.names, self.loose, s) {
            Some(v) => Some(v),
            None => Self::find(&self.aliases, self.loose, s),
        }
    }

    /// The published name of each value, in table order.
    pub fn names(&self) -> (r: Vec<&'static str>)
        ensures
            r@.len() == self.names@.len(),
            forall|i: int| 0 <= i < r@.len() ==> r@[i] == self.names@[i].0,
    {
        let mut out = Vec::new();
        let mut i: usize = 0;
        while i < self.names.len()
            invariant
                i <= self.names@.len(),
                out@.len() == i,
                forall|j: int| 0 <= j < i ==> out@[j] == self.names@[j].0,
            decreases self.names@.len() - i,
        {
            out.push(self.names[i].0);
            i = i + 1;
        }
        out
    }

    /// Every spelling `parse` accepts: the published names, then the aliases.
    pub fn accepted(&self) -> (r: Vec<&'static str>)
        ensures
            r@.len() == self.names@.len() + self.aliases@.len(),
            forall|i: int| 0 <= i < self.names@.len() ==> r@[i] == self.names@[i].0,
            forall|i: int| 0 <= i < self.aliases@.len() ==> r@[self.names@.len() + i] == self.aliases@[i].0,
    {
        let mut out = self.names();
        let n = out.len();
        let mut i: usize = 0;
        while i < self.aliases.len()
            invariant
                n == self.names@.len(),
                i <= self.aliases@.len(),
                out@.len() == n + i,
                forall|j: int| 0 <= j < n ==> out@[j] == self.names@[j].0,
                forall|j: int| 0 <= j < i ==> out@[n + j] == self.aliases@[j].0,
            decreases self.aliases@.len() - i,
        {
            out.push(self.aliases[i].0);
            i = i + 1;
        }
        out
    }

    /// The value a name stands for, or a message naming what was expected:
    /// `<what> "<s>" is not supported (<allowed>)`.
    pub fn parse(&self, s: &str) -> (r: Result<T, String>)
        ensures
            match self.lookup(s@) {
                Some(v) => r == Ok::<T, String>(v),
                None => r matches Err(msg) && msg@ == self.what@ + seq![' '] + crate::text::debug_quoted(s@)
                    + " is not supported ("@ + self.allowed@ + seq![')'],
            },
    {
        match Self::find(&self.names, self.loose, s) {
            Some(v) => Ok(v),
            None => match Self::find(&self.aliases, self.loose, s) {
                Some(v) => Ok(v),
                None => {
                    let mut msg = string_of(self.what);
                    crate::text::push_char(&mut msg, ' ');
                    let q = quoted(s);
                    push_str(&mut msg, q.as_str());
                    push_str(&mut msg, " is not supported (");
                    push_str(&mut msg, self.allowed);
                    crate::text::push_char(&mut msg, ')');
                    proof {
                        assert(msg@ =~= self.what@ + seq![' '] + crate::text::debug_quoted(s@)
                            + " is not supported ("@ + self.allowed@ + seq![')']);
                    }
                    Err(msg)
                },
            },
        }
    }
}

} // verus!
