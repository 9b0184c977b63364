//! A named component grouping related methods.
//!
//! Every method carries a default argument value; a method may additionally
//! be bound to an executable capability, which is an error only at
//! invocation time if missing.

use vstd::prelude::*;

use crate::context::Context;
use crate::error::Error;
use crate::value::{
    entries_get, entries_put, entries_view, lemma_entries_view_index, lemma_entries_view_len,
    sv_lookup, SpecValue, Value,
};

verus! {

/// The capability bound to a method: one invocation on an argument value and
/// the slice's shared context.
pub trait MethodFn {
    fn invoke(&self, args: &Value, ctx: &mut Context) -> Result<Value, Error>;
}

/// A method declaration: its name and its default argument value.
#[derive(Debug)]
pub struct MethodConfig {
    pub name: String,
    pub default: Value,
}

/// A named component exposing methods with defaults and bound capabilities.
pub struct Layer<F> {
    name: String,
    methods: Vec<(String, Value)>,
    binds: Vec<(String, F)>,
}

impl<F: MethodFn> Layer<F> {
    pub closed spec fn spec_name(&self) -> Seq<char> {
        self.name@
    }

    /// The declared methods with their default argument models.
    pub closed spec fn defaults(&self) -> Seq<(Seq<char>, SpecValue)> {
        entries_view(self.methods@)
    }

    /// The default argument of a method, if the method is declared.
    pub open spec fn default_of(&self, method: Seq<char>) -> Option<SpecValue> {
        sv_lookup(self.defaults(), method)
    }

    /// The names of the bound methods.
    pub closed spec fn bind_keys(&self) -> Seq<Seq<char>> {
        self.binds@.map_values(|p: (String, F)| p.0@)
    }

    pub open spec fn spec_is_bound(&self, method: Seq<char>) -> bool {
        self.bind_keys().contains(method)
    }

    /// A layer with no methods.
    pub fn new(layer_name: String) -> (l: Layer<F>)
        ensures
            l.spec_name() == layer_name@,
            l.defaults() == Seq::<(Seq<char>, SpecValue)>::empty(),
            l.bind_keys() == Seq::<Seq<char>>::empty(),
    {
        let l = Layer { name: layer_name, methods: Vec::new(), binds: Vec::new() };
        proof {
            assert(entries_view(l.methods@) =~= Seq::<(Seq<char>, SpecValue)>::empty());
            assert(l.bind_keys() =~= Seq::<Seq<char>>::empty());
        }
        l
    }

    /// Declares a method, replacing an earlier declaration of the same name.
    pub fn with_method(self, method: MethodConfig) -> (l: Layer<F>)
        ensures
            l.spec_name() == self.spec_name(),
            l.bind_keys() == self.bind_keys(),
            l.default_of(method.name@) == Some(method.default@),
            forall|m: Seq<char>|
                m != method.name@ ==> #[trigger] l.default_of(m) == self.default_of(m),
    {
        let mut this = self;
        entries_put(&mut this.methods, method.name.as_str(), method.default);
        this
    }

    /// Binds a capability to a declared method; the method must exist.
    pub fn bind(&mut self, method_name: &str, func: F) -> (r: Result<(), Error>)
        ensures
            old(self).default_of(method_name@) is Some ==> {
                &&& r is Ok
                &&& final(self).spec_is_bound(method_name@)
                &&& forall|m: Seq<char>|
                    m != method_name@ ==> #[trigger] final(self).spec_is_bound(m) == old(
                        self,
                    ).spec_is_bound(m)
                &&& final(self).defaults() == old(self).defaults()
                &&& final(self).spec_name() == old(self).spec_name()
            },
            old(self).default_of(method_name@) is None ==> {
                &&& r matches Err(Error::MethodNotFound { method, layer }) && method@
                    == method_name@ && layer@ == old(self).spec_name()
                &&& final(self).defaults() == old(self).defaults()
                &&& final(self).bind_keys() == old(self).bind_keys()
                &&& final(self).spec_name() == old(self).spec_name()
            },
    {
        proof {
            lemma_entries_view_len(self.methods@);
        }
        if entries_get(&self.methods, method_name).is_none() {
            return Err(
                Error::MethodNotFound { method: method_name.to_owned(), layer: self.name.clone() },
            );
        }
        let ghost bk0 = self.bind_keys();
        match crate::strutil::alist_find(&self.binds, method_name) {
            Some(i) => {
                let (k0, _) = self.binds.remove(i);
                self.binds.insert(i, (k0, func));
                proof {
                    assert(self.binds@ =~= old(self).binds@.update(
                        i as int,
                        (old(self).binds@[i as int].0, func),
                    ));
                    assert(self.bind_keys() =~= bk0);
                    assert(bk0[i as int] == method_name@);
                    assert(self.bind_keys().contains(method_name@));
                }
            },
            None => {
                self.binds.push((method_name.to_owned(), func));
                proof {
                    assert(self.binds@.drop_last() =~= old(self).binds@);
                    assert(self.bind_keys() =~= bk0.push(method_name@));
                    assert(self.bind_keys()[bk0.len() as int] == method_name@);
                    assert(self.bind_keys().contains(method_name@));
                    assert forall|m: Seq<char>| m != method_name@ implies #[trigger] self
                        .bind_keys().contains(m) == bk0.contains(m) by {
                        if bk0.contains(m) {
                            let j = choose|j: int| 0 <= j < bk0.len() && bk0[j] == m;
                            assert(self.bind_keys()[j] == m);
                        } else if self.bind_keys().contains(m) {
                            let j = choose|j: int|
                                0 <= j < self.bind_keys().len() && self.bind_keys()[j] == m;
                            assert(j < bk0.len());
                            assert(bk0[j] == m);
                        }
                    }
                }
            },
        }
        Ok(())
    }

    /// Invokes the bound capability of a method with an explicit argument.
    pub fn execute(&self, method_name: &str, args: &Value, ctx: &mut Context) -> (r: Result<
        Value,
        Error,
    >)
        ensures
            !self.spec_is_bound(method_name@) ==> (r matches Err(Error::MethodNotBound(m, l))
                && m@ == method_name@ && l@ == self.spec_name()),
    {
        match crate::strutil::alist_find(&self.binds, method_name) {
            Some(i) => {
                proof {
                    assert(self.bind_keys()[i as int] == method_name@);
                    assert(self.spec_is_bound(method_name@));
                }
                self.binds[i].1.invoke(args, ctx)
            },
            None => {
                proof {
                    if self.spec_is_bound(method_name@) {
                        let j = choose|j: int|
                            0 <= j < self.bind_keys().len() && self.bind_keys()[j]
                                == method_name@;
                        assert(self.binds@[j].0@ == method_name@);
                    }
                }
                Err(Error::MethodNotBound(method_name.to_owned(), self.name.clone()))
            },
        }
    }

    /// Invokes the bound capability of a method with its declared default.
    pub fn execute_with_default(&self, method_name: &str, ctx: &mut Context) -> (r: Result<
        Value,
        Error,
    >)
        ensures
            !self.spec_is_bound(method_name@) ==> (r matches Err(Error::MethodNotBound(m, l))
                && m@ == method_name@ && l@ == self.spec_name()),
            self.spec_is_bound(method_name@) && self.default_of(method_name@) is None ==> (
            r matches Err(Error::ConfigError(msg)) && msg@
                == "method with no defaults called with null"@),
    {
        match crate::strutil::alist_find(&self.binds, method_name) {
            Some(i) => {
                proof {
                    assert(self.bind_keys()[i as int] == method_name@);
                }
                match entries_get(&self.methods, method_name) {
                    Some(default_args) => self.binds[i].1.invoke(default_args, ctx),
                    None => Err(
                        Error::ConfigError("method with no defaults called with null".to_owned()),
                    ),
                }
            },
            None => {
                proof {
                    if self.spec_is_bound(method_name@) {
                        let j = choose|j: int|
                            0 <= j < self.bind_keys().len() && self.bind_keys()[j]
                                == method_name@;
                        assert(self.binds@[j].0@ == method_name@);
                    }
                }
                Err(Error::MethodNotBound(method_name.to_owned(), self.name.clone()))
            },
        }
    }

    /// Whether a capability is bound to the method.
    pub fn is_bound(&self, method_name: &str) -> (b: bool)
        ensures
            b == self.spec_is_bound(method_name@),
    {
        match crate::strutil::alist_find(&self.binds, method_name) {
            Some(i) => {
                proof {
                    assert(self.bind_keys()[i as int] == method_name@);
                }
                true
            },
            None => {
                proof {
                    if self.spec_is_bound(method_name@) {
                        let j = choose|j: int|
                            0 <= j < self.bind_keys().len() && self.bind_keys()[j]
                                == method_name@;
                        assert(self.binds@[j].0@ == method_name@);
                    }
                }
                false
            },
        }
    }

    pub fn get_name(&self) -> (r: &str)
        ensures
            r@ == self.spec_name(),
    {
        self.name.as_str()
    }

    /// The declared method names, in declaration order.
    pub fn get_methods(&self) -> (r: Vec<String>)
        ensures
            r@.len() == self.defaults().len(),
            forall|j: int| 0 <= j < r@.len() ==> (#[trigger] r@[j])@ == self.defaults()[j].0,
    {
        proof {
            lemma_entries_view_len(self.methods@);
        }
        let n = self.methods.len();
        let mut r: Vec<String> = Vec::new();
        let mut i: usize = 0;
        while i < n
            invariant
                n == self.methods.len(),
                self.defaults().len() == n,
                i <= n,
                r@.len() == i,
                forall|j: int| 0 <= j < i ==> (#[trigger] r@[j])@ == self.defaults()[j].0,
            decreases n - i,
        {
            proof {
                lemma_entries_view_index(self.methods@, i as int);
            }
            r.push(self.methods[i].0.clone());
            i += 1;
        }
        r
    }

    /// The default argument value declared for the method.
    pub fn get_default_args(&self, method: &str) -> (r: Option<&Value>)
        ensures
            match r {
                Some(v) => self.default_of(method@) == Some(v@),
                None => self.default_of(method@) is None,
            },
    {
        entries_get(&self.methods, method)
    }
}

} // verus!
