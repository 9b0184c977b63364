//! The opaque structured argument value passed between slices, layer
//! defaults and bound methods: a tagged union with fallible accessors.
//!
//! Objects are kept as ordered key/value entry lists; lookup takes the first
//! entry with a matching key.  The mathematical model of a value is
//! [`SpecValue`], reached through the view operator `@`.

use vstd::prelude::*;

verus! {

/// Integer payload of a numeric [`Value`].
#[derive(Clone, Copy, Debug, PartialEq, Eq, Structural)]
pub enum Number {
    UnsignedInt(u64),
    Int(i64),
    Size(usize),
}

/// A dynamic argument value: null, boolean, number, text, array or object.
#[derive(Debug)]
pub enum Value {
    Null,
    Bool(bool),
    Number(Number),
    Text(String),
    Array(Vec<Value>),
    Object(Vec<(String, Value)>),
}

/// Mathematical model of a [`Value`]: text is a character sequence, arrays
/// and objects are sequences of models.
pub enum SpecValue {
    Null,
    Bool(bool),
    Number(Number),
    Text(Seq<char>),
    Array(Seq<SpecValue>),
    Object(Seq<(Seq<char>, SpecValue)>),
}

/// First entry in `entries` whose key is `key`, if any.
pub open spec fn sv_lookup(entries: Seq<(Seq<char>, SpecValue)>, key: Seq<char>) -> Option<
    SpecValue,
>
    decreases entries.len(),
{
    if entries.len() == 0 {
        None
    } else if entries[0].0 == key {
        Some(entries[0].1)
    } else {
        sv_lookup(entries.drop_first(), key)
    }
}

impl SpecValue {
    pub open spec fn entries(self) -> Seq<(Seq<char>, SpecValue)> {
        match self {
            SpecValue::Object(entries) => entries,
            _ => Seq::empty(),
        }
    }

    pub open spec fn elems(self) -> Seq<SpecValue> {
        match self {
            SpecValue::Array(elems) => elems,
            _ => Seq::empty(),
        }
    }

    /// Keyed lookup: first matching entry of an object, `None` otherwise.
    pub open spec fn get_key(self, key: Seq<char>) -> Option<SpecValue> {
        if self is Object {
            sv_lookup(self.entries(), key)
        } else {
            None
        }
    }

    pub open spec fn spec_as_bool(self) -> Option<bool> {
        match self {
            SpecValue::Bool(b) => Some(b),
            _ => None,
        }
    }

    pub open spec fn spec_as_size(self) -> Option<usize> {
        match self {
            SpecValue::Number(Number::Size(i)) => Some(i),
            SpecValue::Number(Number::Int(i)) => Some(i as usize),
            SpecValue::Number(Number::UnsignedInt(i)) => Some(i as usize),
            _ => None,
        }
    }

    pub open spec fn spec_as_u64(self) -> Option<u64> {
        match self {
            SpecValue::Number(Number::Size(i)) => Some(i as u64),
            SpecValue::Number(Number::Int(i)) => Some(i as u64),
            SpecValue::Number(Number::UnsignedInt(i)) => Some(i),
            _ => None,
        }
    }

    pub open spec fn spec_as_i64(self) -> Option<i64> {
        match self {
            SpecValue::Number(Number::Int(i)) => Some(i),
            _ => None,
        }
    }

    pub open spec fn spec_as_text(self) -> Option<Seq<char>> {
        match self {
            SpecValue::Text(s) => Some(s),
            _ => None,
        }
    }
}

/// Model of a value.
pub open spec fn value_view(v: Value) -> SpecValue
    decreases v,
{
    match v {
        Value::Null => SpecValue::Null,
        Value::Bool(b) => SpecValue::Bool(b),
        Value::Number(n) => SpecValue::Number(n),
        Value::Text(s) => SpecValue::Text(s@),
        Value::Array(a) => SpecValue::Array(elems_view(a@)),
        Value::Object(entries) => SpecValue::Object(entries_view(entries@)),
    }
}

/// Model of an array's element list.
pub open spec fn elems_view(s: Seq<Value>) -> Seq<SpecValue>
    decreases s,
{
    if s.len() == 0 {
        Seq::empty()
    } else {
        elems_view(s.drop_last()).push(value_view(s.last()))
    }
}

/// Model of an object's entry list.
pub open spec fn entries_view(s: Seq<(String, Value)>) -> Seq<(Seq<char>, SpecValue)>
    decreases s,
{
    if s.len() == 0 {
        Seq::empty()
    } else {
        entries_view(s.drop_last()).push((s.last().0@, value_view(s.last().1)))
    }
}

impl View for Value {
    type V = SpecValue;

    open spec fn view(&self) -> SpecValue {
        value_view(*self)
    }
}

pub broadcast proof fn lemma_elems_view_len(s: Seq<Value>)
    ensures
        #[trigger] elems_view(s).len() == s.len(),
    decreases s,
{
    if s.len() > 0 {
        lemma_elems_view_len(s.drop_last());
    }
}

pub broadcast proof fn lemma_elems_view_index(s: Seq<Value>, i: int)
    requires
        0 <= i < s.len(),
    ensures
        #[trigger] elems_view(s)[i] == value_view(s[i]),
    decreases s,
{
    lemma_elems_view_len(s);
    if s.len() > 0 {
        if i < s.len() - 1 {
            lemma_elems_view_len(s.drop_last());
            lemma_elems_view_index(s.drop_last(), i);
        }
    }
}

pub broadcast proof fn lemma_entries_view_len(s: Seq<(String, Value)>)
    ensures
        #[trigger] entries_view(s).len() == s.len(),
    decreases s,
{
    if s.len() > 0 {
        lemma_entries_view_len(s.drop_last());
    }
}

pub broadcast proof fn lemma_entries_view_index(s: Seq<(String, Value)>, i: int)
    requires
        0 <= i < s.len(),
    ensures
        #[trigger] entries_view(s)[i] == (s[i].0@, value_view(s[i].1)),
    decreases s,
{
    lemma_entries_view_len(s);
    if s.len() > 0 {
        if i < s.len() - 1 {
            lemma_entries_view_len(s.drop_last());
            lemma_entries_view_index(s.drop_last(), i);
        }
    }
}

/// Unfolds one step of `sv_lookup` over the suffix starting at `i`.
proof fn lemma_sv_lookup_step(entries: Seq<(Seq<char>, SpecValue)>, key: Seq<char>, i: int)
    requires
        0 <= i < entries.len(),
    ensures
        sv_lookup(entries.skip(i), key) == if entries[i].0 == key {
            Some(entries[i].1)
        } else {
            sv_lookup(entries.skip(i + 1), key)
        },
{
    assert(entries.skip(i).len() == entries.len() - i);
    assert(entries.skip(i)[0] == entries[i]);
    assert(entries.skip(i).drop_first() =~= entries.skip(i + 1));
}

/// Index of the first entry with key `key`, or a negative value if absent.
pub open spec fn sv_index(entries: Seq<(Seq<char>, SpecValue)>, key: Seq<char>) -> int
    decreases entries.len(),
{
    if entries.len() == 0 {
        -1
    } else if entries[0].0 == key {
        0
    } else if sv_index(entries.drop_first(), key) < 0 {
        -1
    } else {
        1 + sv_index(entries.drop_first(), key)
    }
}

/// `sv_index` finds the first matching entry and agrees with `sv_lookup`.
pub proof fn lemma_sv_index(entries: Seq<(Seq<char>, SpecValue)>, key: Seq<char>)
    ensures
        sv_index(entries, key) >= 0 ==> {
            let i = sv_index(entries, key);
            &&& 0 <= i < entries.len()
            &&& entries[i].0 == key
            &&& forall|j: int| 0 <= j < i ==> (#[trigger] entries[j]).0 != key
            &&& sv_lookup(entries, key) == Some(entries[i].1)
        },
        sv_index(entries, key) < 0 ==> (forall|j: int|
            0 <= j < entries.len() ==> (#[trigger] entries[j]).0 != key) && sv_lookup(
            entries,
            key,
        ) is None,
    decreases entries.len(),
{
    if entries.len() == 0 {
    } else if entries[0].0 == key {
        assert(sv_index(entries, key) == 0);
        assert(sv_lookup(entries, key) == Some(entries[0].1));
    } else {
        let rest = entries.drop_first();
        lemma_sv_index(rest, key);
        assert(sv_lookup(entries, key) == sv_lookup(rest, key));
        if sv_index(rest, key) < 0 {
            assert(sv_index(entries, key) < 0);
            assert forall|j: int| 0 <= j < entries.len() implies (#[trigger] entries[j]).0
                != key by {
                if j > 0 {
                    assert(rest[j - 1] == entries[j]);
                }
            }
        } else {
            let r = sv_index(rest, key);
            assert(sv_index(entries, key) == 1 + r);
            assert(rest[r] == entries[r + 1]);
            assert(entries[1 + r].0 == key);
            assert forall|j: int| 0 <= j < 1 + r implies (#[trigger] entries[j]).0 != key by {
                if j > 0 {
                    assert(rest[j - 1] == entries[j]);
                }
            }
            assert(sv_lookup(rest, key) == Some(rest[r].1));
        }
    }
}

/// Two entry lists with the same keys have the same first-match index.
pub proof fn lemma_sv_index_same_keys(
    a: Seq<(Seq<char>, SpecValue)>,
    b: Seq<(Seq<char>, SpecValue)>,
    key: Seq<char>,
)
    requires
        a.len() == b.len(),
        forall|j: int| 0 <= j < a.len() ==> (#[trigger] a[j]).0 == b[j].0,
    ensures
        sv_index(a, key) == sv_index(b, key),
    decreases a.len(),
{
    if a.len() > 0 {
        assert(a[0].0 == b[0].0);
        lemma_sv_index_same_keys(a.drop_first(), b.drop_first(), key);
        assert(forall|j: int|
            0 <= j < a.drop_first().len() ==> (#[trigger] a.drop_first()[j]) == a[j + 1]);
        assert(forall|j: int|
            0 <= j < b.drop_first().len() ==> (#[trigger] b.drop_first()[j]) == b[j + 1]);
    }
}

/// Lookup over an appended entry: an existing key wins, otherwise the new
/// entry is found.
pub proof fn lemma_sv_lookup_push(
    entries: Seq<(Seq<char>, SpecValue)>,
    p: (Seq<char>, SpecValue),
    key: Seq<char>,
)
    ensures
        sv_lookup(entries.push(p), key) == if sv_lookup(entries, key) is Some {
            sv_lookup(entries, key)
        } else if p.0 == key {
            Some(p.1)
        } else {
            None
        },
    decreases entries.len(),
{
    if entries.len() == 0 {
        assert(entries.push(p)[0] == p);
        assert(entries.push(p).drop_first() =~= Seq::<(Seq<char>, SpecValue)>::empty());
    } else {
        assert(entries.push(p)[0] == entries[0]);
        assert(entries.push(p).drop_first() =~= entries.drop_first().push(p));
        lemma_sv_lookup_push(entries.drop_first(), p, key);
    }
}

/// Last entry in `entries` whose key is `key`, if any: the value repeated
/// insertion of the entries would leave behind.
pub open spec fn sv_lookup_last(entries: Seq<(Seq<char>, SpecValue)>, key: Seq<char>) -> Option<
    SpecValue,
>
    decreases entries.len(),
{
    if entries.len() == 0 {
        None
    } else if entries.last().0 == key {
        Some(entries.last().1)
    } else {
        sv_lookup_last(entries.drop_last(), key)
    }
}

/// No two entries share a key.
pub open spec fn keys_unique(entries: Seq<(Seq<char>, SpecValue)>) -> bool {
    forall|i: int, j: int|
        0 <= i < j < entries.len() ==> (#[trigger] entries[i]).0 != (#[trigger] entries[j]).0
}

/// Removing an entry with a different key leaves a lookup unchanged.
pub proof fn lemma_sv_lookup_remove(
    entries: Seq<(Seq<char>, SpecValue)>,
    i: int,
    key: Seq<char>,
)
    requires
        0 <= i < entries.len(),
        entries[i].0 != key,
    ensures
        sv_lookup(entries.remove(i), key) == sv_lookup(entries, key),
    decreases entries.len(),
{
    if i == 0 {
        assert(entries.remove(0) =~= entries.drop_first());
    } else {
        assert(entries.remove(i)[0] == entries[0]);
        assert(entries.remove(i).len() == entries.len() - 1);
        assert(entries.remove(i).drop_first() =~= entries.drop_first().remove(i - 1));
        if entries[0].0 != key {
            lemma_sv_lookup_remove(entries.drop_first(), i - 1, key);
        }
    }
}

/// A first match at index `i` in an entry list carries over to its model.
pub proof fn lemma_first_match_index(entries: Seq<(String, Value)>, key: Seq<char>, i: int)
    requires
        0 <= i < entries.len(),
        entries[i].0@ == key,
        forall|j: int| 0 <= j < i ==> (#[trigger] entries[j].0)@ != key,
    ensures
        sv_index(entries_view(entries), key) == i,
        sv_lookup(entries_view(entries), key) == Some(value_view(entries[i].1)),
{
    let ev = entries_view(entries);
    lemma_entries_view_len(entries);
    lemma_entries_view_index(entries, i);
    assert(ev[i].0 == key);
    lemma_sv_index(ev, key);
    let x = sv_index(ev, key);
    if x < 0 {
        assert(ev[i].0 != key);
    } else if x < i {
        lemma_entries_view_index(entries, x);
        assert(entries[x].0@ != key);
        assert(ev[x].0 == key);
    } else if x > i {
        assert(ev[i].0 != key);
    }
    assert(x == i);
}

/// An entry list without the key has no match in its model.
pub proof fn lemma_no_match(entries: Seq<(String, Value)>, key: Seq<char>)
    requires
        forall|j: int| 0 <= j < entries.len() ==> (#[trigger] entries[j].0)@ != key,
    ensures
        sv_index(entries_view(entries), key) < 0,
        sv_lookup(entries_view(entries), key) is None,
{
    let ev = entries_view(entries);
    lemma_entries_view_len(entries);
    lemma_sv_index(ev, key);
    if sv_index(ev, key) >= 0 {
        let x = sv_index(ev, key);
        lemma_entries_view_index(entries, x);
        assert(entries[x].0@ != key);
        assert(ev[x].0 == key);
    }
}

/// Finds the first entry with the given key, handing back the value.
pub fn entries_get<'a>(entries: &'a Vec<(String, Value)>, key: &str) -> (r: Option<&'a Value>)
    ensures
        match r {
            Some(v) => sv_lookup(entries_view(entries@), key@) == Some(v@),
            None => sv_lookup(entries_view(entries@), key@) is None,
        },
{
    let ghost ev = entries_view(entries@);
    proof {
        lemma_entries_view_len(entries@);
        lemma_sv_index(ev, key@);
    }
    match crate::strutil::alist_find(entries, key) {
        Some(i) => {
            proof {
                lemma_entries_view_index(entries@, i as int);
                assert(ev[i as int].0 == key@);
                let x = sv_index(ev, key@);
                if x < 0 {
                    assert(ev[i as int].0 != key@);
                } else if x < i as int {
                    lemma_entries_view_index(entries@, x);
                    assert(entries@[x].0@ != key@);
                    assert(ev[x].0 == key@);
                } else if x > i as int {
                    assert(ev[i as int].0 != key@);
                }
                assert(x == i as int);
                assert(sv_lookup(ev, key@) == Some(ev[i as int].1));
            }
            Some(&entries[i].1)
        },
        None => {
            proof {
                if sv_index(ev, key@) >= 0 {
                    let x = sv_index(ev, key@);
                    lemma_entries_view_index(entries@, x);
                    assert(entries@[x].0@ != key@);
                    assert(ev[x].0 == key@);
                }
            }
            None
        },
    }
}

/// Stores `value` under `key` in an entry list, replacing the first entry
/// with that key or appending a new one.
pub fn entries_put(entries: &mut Vec<(String, Value)>, key: &str, value: Value)
    ensures
        sv_lookup(entries_view(final(entries)@), key@) == Some(value@),
        forall|k: Seq<char>|
            k != key@ ==> #[trigger] sv_lookup(entries_view(final(entries)@), k) == sv_lookup(
                entries_view(old(entries)@),
                k,
            ),
        entries_view(final(entries)@).len() == entries_view(old(entries)@).len() + (if sv_lookup(
            entries_view(old(entries)@),
            key@,
        ) is Some {
            0int
        } else {
            1int
        }),
        keys_unique(entries_view(old(entries)@)) ==> keys_unique(entries_view(final(entries)@)),
        sv_lookup(entries_view(old(entries)@), key@) is None ==> entries_view(final(entries)@)
            == entries_view(old(entries)@).push((key@, value@)),
{
    let ghost ents0 = entries@;
    let ghost ev0 = entries_view(ents0);
    let ghost vv = value@;
    proof {
        lemma_entries_view_len(ents0);
    }
    match crate::strutil::alist_find(entries, key) {
        Some(i) => {
            proof {
                lemma_first_match_index(ents0, key@, i as int);
            }
            let (k0, _) = entries.remove(i);
            entries.insert(i, (k0, value));
            proof {
                let ents1 = entries@;
                let fv = entries_view(ents1);
                assert(ents1 =~= ents0.update(i as int, (ents0[i as int].0, value)));
                lemma_entries_view_len(ents1);
                assert forall|j: int| 0 <= j < fv.len() implies #[trigger] fv[j] == (if j
                    == i as int {
                    (ev0[j].0, vv)
                } else {
                    ev0[j]
                }) by {
                    lemma_entries_view_index(ents1, j);
                    lemma_entries_view_index(ents0, j);
                }
                lemma_sv_index_same_keys(fv, ev0, key@);
                lemma_sv_index(fv, key@);
                assert forall|k: Seq<char>| k != key@ implies sv_lookup(fv, k) == sv_lookup(
                    ev0,
                    k,
                ) by {
                    lemma_sv_index_same_keys(fv, ev0, k);
                    lemma_sv_index(fv, k);
                    lemma_sv_index(ev0, k);
                    if sv_index(fv, k) >= 0 {
                        let x = sv_index(fv, k);
                        assert(fv[x].0 == k);
                        assert(x != i as int);
                    }
                }
            }
        },
        None => {
            proof {
                lemma_no_match(ents0, key@);
            }
            entries.push((key.to_owned(), value));
            proof {
                let ents1 = entries@;
                let fv = entries_view(ents1);
                assert(ents1.drop_last() =~= ents0);
                assert(fv == ev0.push((key@, vv)));
                assert forall|k: Seq<char>| k != key@ implies sv_lookup(fv, k) == sv_lookup(
                    ev0,
                    k,
                ) by {
                    lemma_sv_lookup_push(ev0, (key@, vv), k);
                }
                lemma_sv_lookup_push(ev0, (key@, vv), key@);
                if keys_unique(ev0) {
                    assert forall|a: int, b: int| 0 <= a < b < fv.len() implies (
                    #[trigger] fv[a]).0 != (#[trigger] fv[b]).0 by {
                        if b == fv.len() - 1 {
                            assert(ev0[a].0 != key@) by {
                                lemma_sv_index(ev0, key@);
                            }
                        }
                    }
                }
            }
        },
    }
}

impl Value {
    /// The canonical null value.
    pub fn null() -> (v: Value)
        ensures
            v@ == SpecValue::Null,
    {
        Value::Null
    }

    pub fn is_null(&self) -> (b: bool)
        ensures
            b == (self@ is Null),
    {
        matches!(self, Value::Null)
    }

    pub fn as_bool(&self) -> (r: Option<bool>)
        ensures
            r == self@.spec_as_bool(),
    {
        match self {
            Value::Bool(b) => Some(*b),
            _ => None,
        }
    }

    pub fn as_size(&self) -> (r: Option<usize>)
        ensures
            r == self@.spec_as_size(),
    {
        match self {
            Value::Number(Number::Size(i)) => Some(*i),
            Value::Number(Number::Int(i)) => Some(#[verifier::truncate] (*i as usize)),
            Value::Number(Number::UnsignedInt(i)) => Some(#[verifier::truncate] (*i as usize)),
            _ => None,
        }
    }

    pub fn as_u64(&self) -> (r: Option<u64>)
        ensures
            r == self@.spec_as_u64(),
    {
        match self {
            Value::Number(Number::Size(i)) => Some(#[verifier::truncate] (*i as u64)),
            Value::Number(Number::Int(i)) => Some(#[verifier::truncate] (*i as u64)),
            Value::Number(Number::UnsignedInt(i)) => Some(*i),
            _ => None,
        }
    }

    pub fn as_i64(&self) -> (r: Option<i64>)
        ensures
            r == self@.spec_as_i64(),
    {
        match self {
            Value::Number(Number::Int(i)) => Some(*i),
            _ => None,
        }
    }

    pub fn as_str(&self) -> (r: Option<&str>)
        ensures
            match r {
                Some(s) => self@.spec_as_text() == Some(s@),
                None => self@.spec_as_text() is None,
            },
    {
        match self {
            Value::Text(s) => Some(s.as_str()),
            _ => None,
        }
    }

    pub fn as_array(&self) -> (r: Option<&Vec<Value>>)
        ensures
            match r {
                Some(a) => self@ is Array && elems_view(a@) == self@.elems(),
                None => !(self@ is Array),
            },
    {
        match self {
            Value::Array(a) => Some(a),
            _ => None,
        }
    }

    pub fn as_object(&self) -> (r: Option<&Vec<(String, Value)>>)
        ensures
            match r {
                Some(entries) => self@ is Object && entries_view(entries@) == self@.entries(),
                None => !(self@ is Object),
            },
    {
        match self {
            Value::Object(entries) => Some(entries),
            _ => None,
        }
    }

    /// Keyed lookup on an object value; `None` for any other shape.
    pub fn get<'a>(&'a self, key: &str) -> (r: Option<&'a Value>)
        ensures
            match r {
                Some(v) => self@.get_key(key@) == Some(v@),
                None => self@.get_key(key@) is None,
            },
    {
        match self {
            Value::Object(entries) => {
                proof {
                    lemma_entries_view_len(entries@);
                    assert(entries_view(entries@).skip(0) =~= entries_view(entries@));
                }
                let ghost eview = entries_view(entries@);
                let n = entries.len();
                let mut i: usize = 0;
                while i < n
                    invariant
                        n == entries.len(),
                        i <= n,
                        eview == entries_view(entries@),
                        eview.len() == n,
                        *self == Value::Object(*entries),
                        sv_lookup(eview, key@) == sv_lookup(eview.skip(i as int), key@),
                    decreases n - i,
                {
                    proof {
                        lemma_sv_lookup_step(eview, key@, i as int);
                        lemma_entries_view_index(entries@, i as int);
                    }
                    if crate::strutil::str_eq(entries[i].0.as_str(), key) {
                        return Some(&entries[i].1);
                    }
                    i += 1;
                }
                proof {
                    assert(eview.skip(n as int) =~= Seq::<(Seq<char>, SpecValue)>::empty());
                }
                None
            },
            _ => None,
        }
    }

    /// Index into an array value; `None` for any other shape or out of range.
    pub fn get_index(&self, index: usize) -> (r: Option<&Value>)
        ensures
            match r {
                Some(v) => self@ is Array && index < self@.elems().len() && v@
                    == self@.elems()[index as int],
                None => !(self@ is Array) || index >= self@.elems().len(),
            },
    {
        match self {
            Value::Array(a) => {
                proof {
                    lemma_elems_view_len(a@);
                }
                if index < a.len() {
                    proof {
                        lemma_elems_view_index(a@, index as int);
                    }
                    Some(&a[index])
                } else {
                    None
                }
            },
            _ => None,
        }
    }

    /// A structurally equal copy of this value.
    pub fn deep_clone(&self) -> (res: Value)
        ensures
            res@ == self@,
        decreases *self,
    {
        match self {
            Value::Null => Value::Null,
            Value::Bool(b) => Value::Bool(*b),
            Value::Number(n) => Value::Number(*n),
            Value::Text(s) => Value::Text(s.clone()),
            Value::Array(arr) => {
                let n = arr.len();
                let mut out: Vec<Value> = Vec::new();
                let mut i: usize = 0;
                while i < n
                    invariant
                        n == arr.len(),
                        i <= n,
                        out@.len() == i,
                        forall|j: int| 0 <= j < i ==> value_view(#[trigger] out@[j]) == value_view(
                            arr@[j],
                        ),
                        *self == Value::Array(*arr),
                    decreases n - i,
                {
                    proof {
                        assert((*self)->Array_0 == *arr);
                        assert(decreases_to!(*self => (*self)->Array_0));
                        assert(decreases_to!((*self)->Array_0 => (*self)->Array_0@));
                        assert(decreases_to!((*self)->Array_0@ => (*self)->Array_0@[i as int]));
                        assert(decreases_to!(*self => arr@[i as int]));
                    }
                    out.push(arr[i].deep_clone());
                    i += 1;
                }
                proof {
                    lemma_view_of_pointwise_equal_elems(out@, arr@);
                }
                Value::Array(out)
            },
            Value::Object(entries) => {
                let n = entries.len();
                let mut out: Vec<(String, Value)> = Vec::new();
                let mut i: usize = 0;
                while i < n
                    invariant
                        n == entries.len(),
                        i <= n,
                        out@.len() == i,
                        forall|j: int|
                            0 <= j < i ==> (#[trigger] out@[j]).0@ == entries@[j].0@ && value_view(
                                out@[j].1,
                            ) == value_view(entries@[j].1),
                        *self == Value::Object(*entries),
                    decreases n - i,
                {
                    proof {
                        assert((*self)->Object_0 == *entries);
                        assert(decreases_to!(*self => (*self)->Object_0));
                        assert(decreases_to!((*self)->Object_0 => (*self)->Object_0@));
                        assert(decreases_to!((*self)->Object_0@ => (*self)->Object_0@[i as int]));
                        assert(decreases_to!(entries@[i as int] => entries@[i as int].1));
                        assert(decreases_to!(*self => entries@[i as int].1));
                    }
                    let key = entries[i].0.clone();
                    let val = entries[i].1.deep_clone();
                    out.push((key, val));
                    i += 1;
                }
                proof {
                    lemma_view_of_pointwise_equal_entries(out@, entries@);
                }
                Value::Object(out)
            },
        }
    }
}

/// Element lists with pointwise equal models have equal models.
proof fn lemma_view_of_pointwise_equal_elems(a: Seq<Value>, b: Seq<Value>)
    requires
        a.len() == b.len(),
        forall|j: int| 0 <= j < a.len() ==> value_view(#[trigger] a[j]) == value_view(b[j]),
    ensures
        elems_view(a) == elems_view(b),
    decreases a,
{
    if a.len() > 0 {
        lemma_view_of_pointwise_equal_elems(a.drop_last(), b.drop_last());
        assert(elems_view(a) =~= elems_view(b));
    } else {
        assert(elems_view(a) =~= elems_view(b));
    }
}

/// Entry lists with pointwise equal keys and models have equal models.
proof fn lemma_view_of_pointwise_equal_entries(a: Seq<(String, Value)>, b: Seq<(String, Value)>)
    requires
        a.len() == b.len(),
        forall|j: int|
            0 <= j < a.len() ==> (#[trigger] a[j]).0@ == b[j].0@ && value_view(a[j].1)
                == value_view(b[j].1),
    ensures
        entries_view(a) == entries_view(b),
    decreases a,
{
    if a.len() > 0 {
        lemma_view_of_pointwise_equal_entries(a.drop_last(), b.drop_last());
        assert(entries_view(a) =~= entries_view(b));
    } else {
        assert(entries_view(a) =~= entries_view(b));
    }
}

} // verus!
