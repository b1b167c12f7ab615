use vstd::prelude::*;

use crate::text::str_eq;

verus! {

/// The universal value the library packs from and unpacks into. A float is
/// held as the bits of an IEEE 754 binary64.
#[derive(Debug, PartialEq)]
pub enum Value {
    Int(i128),
    Float(u64),
    Bool(bool),
    Bytes(Vec<u8>),
    Str(String),
    /// An ordered map: insertion order matches field order.
    Dict(Vec<(String, Value)>),
    List(Vec<Value>),
    /// A value of a type the library does not know. Only an error if pack
    /// actually tries to use it (extra keys are ignored).
    Unsupported,
}

/// A value as the contracts see it: text as characters, bytes, entries and
/// items as sequences.
pub enum ValueV {
    Int(i128),
    Float(u64),
    Bool(bool),
    Bytes(Seq<u8>),
    Str(Seq<char>),
    Dict(Seq<(Seq<char>, ValueV)>),
    List(Seq<ValueV>),
    Unsupported,
}

impl Value {
    pub open spec fn view(&self) -> ValueV
        decreases *self, 0nat,
    {
        match *self {
            Value::Int(i) => ValueV::Int(i),
            Value::Float(b) => ValueV::Float(b),
            Value::Bool(b) => ValueV::Bool(b),
            Value::Bytes(b) => ValueV::Bytes(b@),
            Value::Str(s) => ValueV::Str(s@),
            Value::Dict(m) => {
                proof { assert(decreases_to!(*self => m)); }
                ValueV::Dict(entries_view(m@, m@.len()))
            },
            Value::List(l) => {
                proof { assert(decreases_to!(*self => l)); }
                ValueV::List(values_view(l@, l@.len()))
            },
            Value::Unsupported => ValueV::Unsupported,
        }
    }
}

/// The first `n` entries of a map, as the contracts see them.
pub open spec fn entries_view(m: Seq<(String, Value)>, n: nat) -> Seq<(Seq<char>, ValueV)>
    decreases m, n,
{
    if n == 0 || n > m.len() {
        Seq::empty()
    } else {
        proof { assert(decreases_to!(m => m[n - 1])); }
        entries_view(m, (n - 1) as nat).push((m[n - 1].0@, m[n - 1].1.view()))
    }
}

/// The first `n` items of a list, as the contracts see them.
pub open spec fn values_view(l: Seq<Value>, n: nat) -> Seq<ValueV>
    decreases l, n,
{
    if n == 0 || n > l.len() {
        Seq::empty()
    } else {
        proof { assert(decreases_to!(l => l[n - 1])); }
        values_view(l, (n - 1) as nat).push(l[n - 1].view())
    }
}

/// Viewing a map after one more entry: the view of the map before, and the
/// new entry.
pub proof fn lemma_entries_push(m: Seq<(String, Value)>, e: (String, Value))
    ensures
        entries_view(m.push(e), m.len() + 1) == entries_view(m, m.len()).push((e.0@, e.1.view())),
{
    assert(m.subrange(0, m.len() as int) =~= m.push(e).subrange(0, m.len() as int));
    lemma_entries_prefix(m, m.push(e), m.len());
}

/// The view of the first `n` entries depends on those entries alone.
pub proof fn lemma_entries_prefix(a: Seq<(String, Value)>, b: Seq<(String, Value)>, n: nat)
    requires
        n <= a.len(),
        n <= b.len(),
        a.subrange(0, n as int) == b.subrange(0, n as int),
    ensures
        entries_view(a, n) == entries_view(b, n),
    decreases n,
{
    if n > 0 {
        assert(a.subrange(0, n - 1) =~= a.subrange(0, n as int).subrange(0, n - 1));
        assert(b.subrange(0, n - 1) =~= b.subrange(0, n as int).subrange(0, n - 1));
        assert(a[n - 1] == a.subrange(0, n as int)[n - 1]);
        assert(b[n - 1] == b.subrange(0, n as int)[n - 1]);
        lemma_entries_prefix(a, b, (n - 1) as nat);
    }
}

/// Viewing a list after one more item.
pub proof fn lemma_values_push(l: Seq<Value>, v: Value)
    ensures
        values_view(l.push(v), l.len() + 1) == values_view(l, l.len()).push(v.view()),
{
    assert(l.subrange(0, l.len() as int) =~= l.push(v).subrange(0, l.len() as int));
    lemma_values_prefix(l, l.push(v), l.len());
}

/// The view of the first `n` items depends on those items alone.
pub proof fn lemma_values_prefix(a: Seq<Value>, b: Seq<Value>, n: nat)
    requires
        n <= a.len(),
        n <= b.len(),
        a.subrange(0, n as int) == b.subrange(0, n as int),
    ensures
        values_view(a, n) == values_view(b, n),
    decreases n,
{
    if n > 0 {
        assert(a.subrange(0, n - 1) =~= a.subrange(0, n as int).subrange(0, n - 1));
        assert(b.subrange(0, n - 1) =~= b.subrange(0, n as int).subrange(0, n - 1));
        assert(a[n - 1] == a.subrange(0, n as int)[n - 1]);
        assert(b[n - 1] == b.subrange(0, n as int)[n - 1]);
        lemma_values_prefix(a, b, (n - 1) as nat);
    }
}

/// Entry `i` of `m` is the first one with key `key`.
pub open spec fn first_with_key(m: Seq<(String, Value)>, i: int, key: Seq<char>) -> bool {
    &&& 0 <= i < m.len()
    &&& m[i].0@ == key
    &&& forall|j: int| 0 <= j < i ==> m[j].0@ != key
}

/// The value under `key` in `m`: that of the first entry with that key.
pub open spec fn dict_get(m: Seq<(String, Value)>, key: Seq<char>) -> Option<Value> {
    if exists|i: int| first_with_key(m, i, key) {
        Some(m[choose|i: int| first_with_key(m, i, key)].1)
    } else {
        None
    }
}

proof fn lemma_first_unique(m: Seq<(String, Value)>, key: Seq<char>, i: int, j: int)
    requires
        first_with_key(m, i, key),
        first_with_key(m, j, key),
    ensures
        i == j,
{
}

/// Under a key no earlier entry has, the map gives that entry's value.
pub proof fn lemma_dict_get_at(m: Seq<(String, Value)>, i: int)
    requires
        0 <= i < m.len(),
        forall|j: int| 0 <= j < i ==> m[j].0@ != m[i].0@,
    ensures
        dict_get(m, m[i].0@) == Some(m[i].1),
{
    assert(first_with_key(m, i, m[i].0@));
    let j = choose|j: int| first_with_key(m, j, m[i].0@);
    lemma_first_unique(m, m[i].0@, i, j);
}

/// The index of the first entry of `m` with key `key`.
fn find_key(m: &Vec<(String, Value)>, key: &str) -> (r: Option<usize>)
    ensures
        match r {
            Some(i) => first_with_key(m@, i as int, key@),
            None => forall|i: int| 0 <= i < m@.len() ==> m@[i].0@ != key@,
        },
{
    let mut i: usize = 0;
    while i < m.len()
        invariant
            i <= m@.len(),
            forall|j: int| 0 <= j < i ==> m@[j].0@ != key@,
        decreases m@.len() - i,
    {
        if str_eq(m[i].0.as_str(), key) {
            return Some(i);
        }
        i = i + 1;
    }
    None
}

impl Value {
    /// The value under `key` in a map: the first entry with that key.
    pub fn get(&self, key: &str) -> (r: Option<&Value>)
        ensures
            match self {
                Value::Dict(m) => match r {
                    Some(v) => dict_get(m@, key@) == Some(*v),
                    None => dict_get(m@, key@) is None,
                },
                _ => r is None,
            },
    {
        match self {
            Value::Dict(m) => match find_key(m, key) {
                Some(i) => {
                    proof {
                        let j = choose|j: int| first_with_key(m@, j, key@);
                        lemma_first_unique(m@, key@, i as int, j);
                    }
                    Some(&m[i].1)
                },
                None => {
                    proof {
                        if exists|j: int| first_with_key(m@, j, key@) {
                            let j = choose|j: int| first_with_key(m@, j, key@);
                            assert(m@[j].0@ == key@);
                        }
                    }
                    None
                },
            },
            _ => None,
        }
    }

    /// An empty map.
    pub fn map() -> (r: Value)
        ensures
            r matches Value::Dict(m) && m@.len() == 0,
    {
        Value::Dict(Vec::new())
    }

    /// Appends an entry to a map; does nothing to any other value.
    pub fn insert(&mut self, key: String, value: Value)
        ensures
            match *old(self) {
                Value::Dict(m) => *final(self) matches Value::Dict(n) && n@ == m@.push((key, value)),
                _ => *final(self) == *old(self),
            },
    {
        match self {
            Value::Dict(m) => m.push((key, value)),
            _ => {},
        }
    }
}

} // verus!
