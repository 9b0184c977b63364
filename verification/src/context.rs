//! The per-slice scratchpad: a key/value store created fresh for every slice
//! execution and visible to each of its method invocations in turn.
//!
//! Its model is the object entry list of [`crate::value`]; keys are unique.

use vstd::prelude::*;
use vstd::string::StringExecFns;

use crate::error::Error;
use crate::value::{
    entries_get, entries_view, keys_unique, lemma_entries_view_index, lemma_entries_view_len,
    lemma_first_match_index, lemma_no_match, lemma_sv_index, lemma_sv_index_same_keys,
    lemma_sv_lookup_push, lemma_sv_lookup_remove, sv_index, sv_lookup, SpecValue, Value,
};

verus! {

/// The shared scratchpad one slice's method invocations communicate through.
#[derive(Debug)]
pub struct Context {
    entries: Vec<(String, Value)>,
}

impl View for Context {
    type V = Seq<(Seq<char>, SpecValue)>;

    closed spec fn view(&self) -> Seq<(Seq<char>, SpecValue)> {
        entries_view(self.entries@)
    }
}

impl Context {
    #[verifier::type_invariant]
    spec fn wf(self) -> bool {
        keys_unique(self@)
    }

    /// What `get` returns for a key.
    pub open spec fn spec_get(&self, key: Seq<char>) -> Option<SpecValue> {
        sv_lookup(self@, key)
    }

    /// An empty scratchpad.
    pub fn new() -> (c: Context)
        ensures
            c@ == Seq::<(Seq<char>, SpecValue)>::empty(),
    {
        let c = Context { entries: Vec::new() };
        proof {
            assert(entries_view(c.entries@) =~= Seq::<(Seq<char>, SpecValue)>::empty());
        }
        c
    }

    /// A copy of the value stored under the key, if any.
    pub fn get(&self, key: &str) -> (r: Option<Value>)
        ensures
            match r {
                Some(v) => self.spec_get(key@) == Some(v@),
                None => self.spec_get(key@) is None,
            },
    {
        match entries_get(&self.entries, key) {
            Some(v) => Some(v.deep_clone()),
            None => None,
        }
    }

    /// Stores the value under the key, replacing any earlier value.
    pub fn set(&mut self, key: &str, value: Value)
        ensures
            final(self).spec_get(key@) == Some(value@),
            forall|k: Seq<char>|
                k != key@ ==> #[trigger] final(self).spec_get(k) == old(self).spec_get(k),
            final(self)@.len() == old(self)@.len() + (if old(self).spec_get(key@) is Some {
                0int
            } else {
                1int
            }),
    {
        proof {
            use_type_invariant(&*self);
        }
        let mut ents: Vec<(String, Value)> = Vec::new();
        proof {
            assert(entries_view(ents@) =~= Seq::<(Seq<char>, SpecValue)>::empty());
        }
        core::mem::swap(&mut ents, &mut self.entries);
        crate::value::entries_put(&mut ents, key, value);
        core::mem::swap(&mut ents, &mut self.entries);
    }

    /// Whether the key is present.
    pub fn contains(&self, key: &str) -> (b: bool)
        ensures
            b == (self.spec_get(key@) is Some),
    {
        entries_get(&self.entries, key).is_some()
    }

    /// Removes the key, handing back its value if it was present.
    pub fn remove(&mut self, key: &str) -> (r: Option<Value>)
        ensures
            match r {
                Some(v) => old(self).spec_get(key@) == Some(v@),
                None => old(self).spec_get(key@) is None,
            },
            final(self).spec_get(key@) is None,
            forall|k: Seq<char>|
                k != key@ ==> #[trigger] final(self).spec_get(k) == old(self).spec_get(k),
            final(self)@.len() == old(self)@.len() - (if old(self).spec_get(key@) is Some {
                1int
            } else {
                0int
            }),
    {
        proof {
            use_type_invariant(&*self);
        }
        let ghost ents0 = self.entries@;
        let ghost ev0 = entries_view(ents0);
        proof {
            lemma_entries_view_len(ents0);
        }
        let mut ents: Vec<(String, Value)> = Vec::new();
        proof {
            assert(entries_view(ents@) =~= Seq::<(Seq<char>, SpecValue)>::empty());
        }
        core::mem::swap(&mut ents, &mut self.entries);
        match crate::strutil::alist_find(&ents, key) {
            Some(i) => {
                proof {
                    lemma_first_match_index(ents0, key@, i as int);
                }
                let (_, v) = ents.remove(i);
                proof {
                    let ents1 = ents@;
                    let fv = entries_view(ents1);
                    assert(ents1 =~= ents0.remove(i as int));
                    lemma_entries_view_len(ents1);
                    assert forall|j: int| 0 <= j < fv.len() implies #[trigger] fv[j] == (if j
                        < i as int {
                        ev0[j]
                    } else {
                        ev0[j + 1]
                    }) by {
                        lemma_entries_view_index(ents1, j);
                        lemma_entries_view_index(ents0, if j < i as int {
                            j
                        } else {
                            j + 1
                        });
                    }
                    assert(fv =~= ev0.remove(i as int));
                    lemma_entries_view_index(ents0, i as int);
                    assert(ev0[i as int].0 == key@);
                    assert forall|k: Seq<char>| k != key@ implies sv_lookup(fv, k) == sv_lookup(
                        ev0,
                        k,
                    ) by {
                        lemma_sv_lookup_remove(ev0, i as int, k);
                    }
                    assert(sv_lookup(fv, key@) is None) by {
                        lemma_sv_index(fv, key@);
                        if sv_index(fv, key@) >= 0 {
                            let x = sv_index(fv, key@);
                            assert(fv[x].0 == key@);
                            if x < i as int {
                                assert(ev0[x].0 == key@);
                                assert(ev0[x].0 != ev0[i as int].0);
                            } else {
                                assert(ev0[x + 1].0 == key@);
                                assert(ev0[i as int].0 != ev0[x + 1].0);
                            }
                        }
                    }
                    assert(keys_unique(fv));
                }
                core::mem::swap(&mut ents, &mut self.entries);
                Some(v)
            },
            None => {
                proof {
                    lemma_no_match(ents0, key@);
                }
                core::mem::swap(&mut ents, &mut self.entries);
                None
            },
        }
    }

    /// The stored keys, in insertion order.
    pub fn keys(&self) -> (r: Vec<String>)
        ensures
            r@.len() == self@.len(),
            forall|j: int| 0 <= j < r@.len() ==> (#[trigger] r@[j])@ == self@[j].0,
    {
        let ghost ev = entries_view(self.entries@);
        proof {
            lemma_entries_view_len(self.entries@);
        }
        let n = self.entries.len();
        let mut r: Vec<String> = Vec::new();
        let mut i: usize = 0;
        while i < n
            invariant
                n == self.entries.len(),
                ev == entries_view(self.entries@),
                ev.len() == n,
                i <= n,
                r@.len() == i,
                forall|j: int| 0 <= j < i ==> (#[trigger] r@[j])@ == ev[j].0,
            decreases n - i,
        {
            proof {
                lemma_entries_view_index(self.entries@, i as int);
            }
            r.push(self.entries[i].0.clone());
            i += 1;
        }
        r
    }

    /// Empties the scratchpad.
    pub fn clear(&mut self)
        ensures
            final(self)@ == Seq::<(Seq<char>, SpecValue)>::empty(),
    {
        let mut ents: Vec<(String, Value)> = Vec::new();
        proof {
            assert(entries_view(ents@) =~= Seq::<(Seq<char>, SpecValue)>::empty());
        }
        core::mem::swap(&mut ents, &mut self.entries);
    }

    /// The number of stored keys.
    pub fn len(&self) -> (n: usize)
        ensures
            n == self@.len(),
    {
        proof {
            lemma_entries_view_len(self.entries@);
        }
        self.entries.len()
    }

    pub fn is_empty(&self) -> (b: bool)
        ensures
            b == (self@.len() == 0),
    {
        proof {
            lemma_entries_view_len(self.entries@);
        }
        self.entries.is_empty()
    }

    /// Decodes the value stored under the key through the argument codec.
    pub fn get_as<T: crate::traits::FromValue>(&self, key: &str) -> (r: Result<T, Error>)
        ensures
            self.spec_get(key@) is None ==> r is Err,
    {
        match self.get(key) {
            Some(v) => T::from_value(&v),
            None => {
                let mut s = "Key '".to_owned();
                s.append(key);
                s.append("' not found in context");
                Err(Error::ConfigError(s))
            },
        }
    }

    /// Encodes a typed datum and stores it under the key.
    pub fn set_from<T: crate::traits::ToValue>(&mut self, key: &str, value: &T)
        ensures
            final(self).spec_get(key@) is Some,
            forall|k: Seq<char>|
                k != key@ ==> #[trigger] final(self).spec_get(k) == old(self).spec_get(k),
    {
        self.set(key, value.to_value());
    }
}

} // verus!
