//! One independent unit of work: for a subset of layers, which methods to
//! invoke and with what argument values.  A null argument means "use the
//! layer's declared default".

use vstd::prelude::*;

use crate::alist::{
    alist_get, alist_index, lemma_alist_first_match, lemma_alist_index, lemma_alist_index_same_keys,
    lemma_alist_no_match, lemma_alist_push,
};
use crate::error::Error;
use crate::value::{
    entries_get, entries_view, keys_unique, lemma_entries_view_index, lemma_entries_view_len,
    lemma_no_match, sv_lookup, sv_lookup_last, value_view, SpecValue, Value,
};

verus! {

/// The method arguments a slice supplies for one layer.
#[derive(Debug)]
pub struct LayerArgs {
    pub layer: String,
    pub methods_args: Vec<(String, Value)>,
}

/// A named unit of work over a subset of the registered layers.
#[derive(Debug)]
pub struct Slice {
    name: String,
    methods_per_layer: Vec<(String, Vec<(String, Value)>)>,
}

impl Slice {
    pub closed spec fn spec_name(&self) -> Seq<char> {
        self.name@
    }

    /// The raw layer table, for the bridging lemmas of this module.
    closed spec fn raw_layers(&self) -> Seq<(String, Vec<(String, Value)>)> {
        self.methods_per_layer@
    }

    /// The participating layers with their method-argument tables.
    pub closed spec fn layers_view(&self) -> Seq<(Seq<char>, Seq<(Seq<char>, SpecValue)>)> {
        self.methods_per_layer@.map_values(
            |p: (String, Vec<(String, Value)>)| (p.0@, entries_view(p.1@)),
        )
    }

    /// The method-argument table this slice supplies for a layer.
    pub open spec fn spec_layer_methods(&self, layer: Seq<char>) -> Option<
        Seq<(Seq<char>, SpecValue)>,
    > {
        alist_get(self.layers_view(), layer)
    }

    pub open spec fn spec_has_layer(&self, layer: Seq<char>) -> bool {
        self.spec_layer_methods(layer) is Some
    }

    /// The argument this slice supplies for a method of a layer.
    pub open spec fn spec_method_arg(&self, layer: Seq<char>, method: Seq<char>) -> Option<
        SpecValue,
    > {
        match self.spec_layer_methods(layer) {
            Some(methods) => sv_lookup(methods, method),
            None => None,
        }
    }

    /// A slice participating in no layer.
    pub fn new(name: String) -> (s: Slice)
        ensures
            s.spec_name() == name@,
            s.layers_view() == Seq::<(Seq<char>, Seq<(Seq<char>, SpecValue)>)>::empty(),
    {
        let s = Slice { name, methods_per_layer: Vec::new() };
        proof {
            assert(s.layers_view() =~= Seq::<(Seq<char>, Seq<(Seq<char>, SpecValue)>)>::empty());
        }
        s
    }

    /// Adds (or replaces) the arguments for one layer.  Duplicate method
    /// names in the given table collapse to one entry, the later value
    /// winning, as repeated insertion would leave them.
    pub fn with_layer(self, layer_args: LayerArgs) -> (s: Slice)
        ensures
            s.spec_name() == self.spec_name(),
            s.spec_layer_methods(layer_args.layer@) is Some,
            ({
                let ms = s.spec_layer_methods(layer_args.layer@)->Some_0;
                &&& keys_unique(ms)
                &&& forall|m: Seq<char>|
                    #![trigger sv_lookup(ms, m)]
                    sv_lookup(ms, m) == sv_lookup_last(entries_view(layer_args.methods_args@), m)
                &&& (keys_unique(entries_view(layer_args.methods_args@)) ==> ms == entries_view(
                    layer_args.methods_args@,
                ))
            }),
            forall|l: Seq<char>|
                l != layer_args.layer@ ==> #[trigger] s.spec_layer_methods(l)
                    == self.spec_layer_methods(l),
    {
        let mut this = self;
        let ghost orig = layer_args.methods_args@;
        let ghost origv = entries_view(orig);
        let mut rest = layer_args.methods_args;
        let mut table: Vec<(String, Value)> = Vec::new();
        proof {
            lemma_entries_view_len(orig);
            assert(entries_view(table@) =~= Seq::<(Seq<char>, SpecValue)>::empty());
            assert(orig.take(0) =~= Seq::<(String, Value)>::empty());
            assert(entries_view(orig.take(0)) =~= Seq::<(Seq<char>, SpecValue)>::empty());
        }
        while rest.len() > 0
            invariant
                orig.len() == rest@.len() + (orig.len() - rest@.len()),
                rest@.len() <= orig.len(),
                rest@ == orig.skip(orig.len() - rest@.len()),
                origv == entries_view(orig),
                origv.len() == orig.len(),
                keys_unique(entries_view(table@)),
                forall|m: Seq<char>|
                    #![trigger sv_lookup(entries_view(table@), m)]
                    sv_lookup(entries_view(table@), m) == sv_lookup_last(
                        entries_view(orig.take(orig.len() - rest@.len())),
                        m,
                    ),
                keys_unique(origv) ==> entries_view(table@) == entries_view(
                    orig.take(orig.len() - rest@.len()),
                ),
            decreases rest@.len(),
        {
            let ghost done = orig.len() - rest@.len();
            proof {
                assert(rest@[0] == orig[done as int]);
                assert(orig.take(done + 1) =~= orig.take(done as int).push(orig[done as int]));
                assert(orig.take(done + 1).drop_last() =~= orig.take(done as int));
            }
            let ghost tv0 = entries_view(table@);
            let (k, v) = rest.remove(0);
            let ghost kk = k@;
            let ghost vv = v@;
            proof {
                assert(rest@ =~= orig.skip(done + 1));
                assert((k, v) == orig[done as int]);
                if keys_unique(origv) {
                    // a duplicate-free table never revisits a key
                    assert forall|j: int|
                        0 <= j < orig.take(done as int).len() implies (#[trigger] orig.take(
                        done as int,
                    )[j].0)@ != k@ by {
                        lemma_entries_view_index(orig, j);
                        lemma_entries_view_index(orig, done as int);
                        assert(origv[j].0 != origv[done as int].0);
                    }
                    lemma_no_match(orig.take(done as int), k@);
                }
            }
            crate::value::entries_put(&mut table, k.as_str(), v);
            proof {
                let tv1 = entries_view(table@);
                let prev = entries_view(orig.take(done as int));
                let next = entries_view(orig.take(done + 1));
                assert(next == prev.push((orig[done as int].0@, value_view(
                    orig[done as int].1,
                ))));
                assert(next.last() == (kk, vv));
                assert(next.drop_last() =~= prev);
                assert forall|m: Seq<char>|
                    #![trigger sv_lookup(tv1, m)]
                    sv_lookup(tv1, m) == sv_lookup_last(next, m) by {
                    if m != kk {
                        assert(sv_lookup(tv1, m) == sv_lookup(tv0, m));
                        assert(sv_lookup_last(next, m) == sv_lookup_last(prev, m));
                    }
                }
            }
        }
        proof {
            assert(orig.take(orig.len() - rest@.len()) =~= orig);
        }
        let ghost mpl0 = this.methods_per_layer@;
        let ghost lv0 = this.layers_view();
        let ghost key = layer_args.layer@;
        let ghost newtab = entries_view(table@);
        match crate::strutil::alist_find(&this.methods_per_layer, layer_args.layer.as_str()) {
            Some(i) => {
                proof {
                    assert(lv0[i as int].0 == mpl0[i as int].0@);
                    assert forall|j: int| 0 <= j < i implies (#[trigger] lv0[j]).0 != key by {
                        assert(lv0[j].0 == mpl0[j].0@);
                    }
                }
                this.methods_per_layer.remove(i);
                this.methods_per_layer.insert(i, (layer_args.layer, table));
                proof {
                    let mpl1 = this.methods_per_layer@;
                    let lv1 = this.layers_view();
                    assert(mpl1 =~= mpl0.update(i as int, (layer_args.layer, table)));
                    assert(lv1.len() == lv0.len());
                    assert forall|j: int| 0 <= j < lv1.len() && j != i implies #[trigger] lv1[j]
                        == lv0[j] by {
                        assert(mpl1[j] == mpl0[j]);
                    }
                    assert(lv1[i as int] == (key, newtab));
                    assert(forall|j: int| 0 <= j < lv1.len() ==> (#[trigger] lv1[j]).0 == lv0[j].0);
                    assert forall|j: int| 0 <= j < i implies (#[trigger] lv1[j]).0 != key by {
                        assert(lv1[j].0 == lv0[j].0);
                    }
                    lemma_alist_first_match(lv1, key, i as int);
                    assert forall|l: Seq<char>| l != key implies #[trigger] alist_get(lv1, l)
                        == alist_get(lv0, l) by {
                        lemma_alist_index_same_keys(lv1, lv0, l);
                        lemma_alist_index(lv1, l);
                        lemma_alist_index(lv0, l);
                        if alist_index(lv1, l) >= 0 {
                            let x = alist_index(lv1, l);
                            assert(lv1[x].0 == l);
                            assert(x != i as int);
                        }
                    }
                }
            },
            None => {
                proof {
                    assert forall|j: int| 0 <= j < lv0.len() implies (#[trigger] lv0[j]).0
                        != key by {
                        assert(lv0[j].0 == mpl0[j].0@);
                    }
                }
                this.methods_per_layer.push((layer_args.layer, table));
                proof {
                    let lv1 = this.layers_view();
                    assert(this.methods_per_layer@ =~= mpl0.push((layer_args.layer, table)));
                    assert(lv1 =~= lv0.push((key, newtab)));
                    lemma_alist_no_match(lv0, key);
                    lemma_alist_push(lv0, (key, newtab), key);
                    assert forall|l: Seq<char>| l != key implies #[trigger] alist_get(lv1, l)
                        == alist_get(lv0, l) by {
                        lemma_alist_push(lv0, (key, newtab), l);
                    }
                }
            },
        }
        this
    }

    /// Whether this slice participates in the layer.
    pub fn has_layer(&self, layer: &str) -> (b: bool)
        ensures
            b == self.spec_has_layer(layer@),
    {
        match crate::strutil::alist_find(&self.methods_per_layer, layer) {
            Some(i) => {
                proof {
                    bridge_first_match(self, layer@, i as int);
                }
                true
            },
            None => {
                proof {
                    bridge_no_match(self, layer@);
                }
                false
            },
        }
    }

    /// The participating layer names, in insertion order.
    pub fn get_layer_names(&self) -> (r: Result<Vec<String>, Error>)
        ensures
            r matches Ok(v) && v@.len() == self.layers_view().len() && (forall|j: int|
                0 <= j < v@.len() ==> (#[trigger] v@[j])@ == self.layers_view()[j].0),
    {
        let n = self.methods_per_layer.len();
        let mut v: Vec<String> = Vec::new();
        let mut i: usize = 0;
        while i < n
            invariant
                n == self.methods_per_layer.len(),
                self.layers_view().len() == n,
                i <= n,
                v@.len() == i,
                forall|j: int| 0 <= j < i ==> (#[trigger] v@[j])@ == self.layers_view()[j].0,
            decreases n - i,
        {
            v.push(self.methods_per_layer[i].0.clone());
            i += 1;
        }
        Ok(v)
    }

    /// The methods this slice invokes on the layer, in insertion order.
    pub fn get_layer_methods(&self, layer: &str) -> (r: Result<Vec<String>, Error>)
        ensures
            match r {
                Ok(v) => self.spec_layer_methods(layer@) matches Some(methods) && v@.len()
                    == methods.len() && (forall|j: int|
                    0 <= j < v@.len() ==> (#[trigger] v@[j])@ == methods[j].0),
                Err(e) => !self.spec_has_layer(layer@) && (e matches Error::LayerNotFound(l)
                    && l@ == layer@),
            },
    {
        match crate::strutil::alist_find(&self.methods_per_layer, layer) {
            Some(i) => {
                proof {
                    bridge_first_match(self, layer@, i as int);
                    lemma_entries_view_len(self.methods_per_layer@[i as int].1@);
                }
                let table = &self.methods_per_layer[i].1;
                let m = table.len();
                let mut v: Vec<String> = Vec::new();
                let mut k: usize = 0;
                while k < m
                    invariant
                        m == table.len(),
                        entries_view(table@).len() == m,
                        self.spec_layer_methods(layer@) == Some(entries_view(table@)),
                        k <= m,
                        v@.len() == k,
                        forall|j: int|
                            0 <= j < k ==> (#[trigger] v@[j])@ == entries_view(table@)[j].0,
                    decreases m - k,
                {
                    proof {
                        lemma_entries_view_index(table@, k as int);
                    }
                    v.push(table[k].0.clone());
                    k += 1;
                }
                Ok(v)
            },
            None => {
                proof {
                    bridge_no_match(self, layer@);
                }
                Err(Error::LayerNotFound(layer.to_owned()))
            },
        }
    }

    /// The argument supplied for a method of a layer.
    pub fn get_method_arg(&self, layer: &str, method: &str) -> (r: Result<&Value, Error>)
        ensures
            match r {
                Ok(v) => self.spec_method_arg(layer@, method@) == Some(v@),
                Err(e) => match e {
                    Error::LayerNotFound(l) => !self.spec_has_layer(layer@) && l@ == layer@,
                    Error::MethodNotFound { method: m, layer: l } => self.spec_has_layer(layer@)
                        && self.spec_method_arg(layer@, method@) is None && m@ == method@ && l@
                        == layer@,
                    _ => false,
                },
            },
    {
        match crate::strutil::alist_find(&self.methods_per_layer, layer) {
            Some(i) => {
                proof {
                    bridge_first_match(self, layer@, i as int);
                }
                match entries_get(&self.methods_per_layer[i].1, method) {
                    Some(v) => Ok(v),
                    None => Err(
                        Error::MethodNotFound { method: method.to_owned(), layer: layer.to_owned() },
                    ),
                }
            },
            None => {
                proof {
                    bridge_no_match(self, layer@);
                }
                Err(Error::LayerNotFound(layer.to_owned()))
            },
        }
    }

    pub fn get_name(&self) -> (r: &str)
        ensures
            r@ == self.spec_name(),
    {
        self.name.as_str()
    }
}

/// Carries a first match found in the raw table over to the model.
proof fn bridge_first_match(s: &Slice, layer: Seq<char>, i: int)
    requires
        0 <= i < s.layers_view().len(),
        s.raw_layers()[i].0@ == layer,
        forall|j: int| 0 <= j < i ==> (#[trigger] s.raw_layers()[j].0)@ != layer,
    ensures
        s.spec_layer_methods(layer) == Some(s.layers_view()[i].1),
        s.layers_view()[i] == (layer, entries_view(s.raw_layers()[i].1@)),
{
    assert(s.layers_view()[i].0 == layer);
    assert forall|j: int| 0 <= j < i implies (#[trigger] s.layers_view()[j]).0 != layer by {
        assert(s.layers_view()[j].0 == s.raw_layers()[j].0@);
    }
    lemma_alist_first_match(s.layers_view(), layer, i);
}

/// Carries the absence of a key in the raw table over to the model.
proof fn bridge_no_match(s: &Slice, layer: Seq<char>)
    requires
        forall|j: int| 0 <= j < s.layers_view().len() ==> (#[trigger] s.raw_layers()[j].0)@
            != layer,
    ensures
        s.spec_layer_methods(layer) is None,
{
    assert forall|j: int| 0 <= j < s.layers_view().len() implies (
    #[trigger] s.layers_view()[j]).0 != layer by {
        assert(s.layers_view()[j].0 == s.raw_layers()[j].0@);
    }
    lemma_alist_no_match(s.layers_view(), layer);
}

} // verus!
