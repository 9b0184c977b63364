//! The execution engine: the layer registry, the dependency graph, the
//! global topological ordering, the per-slice wave computation, the
//! executor and the batch scheduler.

use vstd::prelude::*;

use crate::config::{EngineConfig, RunFlags};
use crate::context::Context;
use crate::error::Error;
use crate::events::{EngineEvent, EventSink, Observer};
use crate::layer::{Layer, MethodFn};
use crate::schedule::{
    acyclic_within, compute_rounds, contains_name, deps_of, drop_name, flat_rounds,
    flatten_rounds, graph_view, lemma_drop_name_head, lemma_init_first, lemma_rounds_multiset,
    lemma_rounds_none, lemma_rounds_order, lemma_rounds_some, names_view, order_respects,
    rounds_from, rounds_view, GraphV,
};
use crate::clock::elapsed_nanos;
use crate::results::RunResults;
use crate::results::SliceResults;
use crate::slice::Slice;
use crate::value::{
    entries_get, entries_view, lemma_entries_view_index, lemma_entries_view_len,
    lemma_sv_lookup_push, sv_lookup, value_view, SpecValue, Value,
};

use std::time::Instant;

use rayon::iter::IntoParallelRefIterator;
use rayon::iter::ParallelIterator;
use rayon::slice::ParallelSlice;

verus! {

/// The engine: layers, their dependency graph, the slices to run, the
/// observer, and the run configuration.
pub struct Engine<F, S> {
    slices: Vec<Slice>,
    layers: Vec<Layer<F>>,
    dependencies: Vec<(String, Vec<String>)>,
    init_layer: Option<String>,
    observer: Observer<S>,
    pub config: EngineConfig,
    pub flags: RunFlags,
}

/// First registered layer with the given name.
pub open spec fn find_layer_spec<F: MethodFn>(ls: Seq<Layer<F>>, name: Seq<char>) -> Option<
    Layer<F>,
>
    decreases ls.len(),
{
    if ls.len() == 0 {
        None
    } else if ls[0].spec_name() == name {
        Some(ls[0])
    } else {
        find_layer_spec(ls.drop_first(), name)
    }
}

/// A first match at index `i` pins down the registered layer.
proof fn lemma_find_layer_found<F: MethodFn>(ls: Seq<Layer<F>>, name: Seq<char>, i: int)
    requires
        0 <= i < ls.len(),
        ls[i].spec_name() == name,
        forall|j: int| 0 <= j < i ==> (#[trigger] ls[j]).spec_name() != name,
    ensures
        find_layer_spec(ls, name) == Some(ls[i]),
    decreases i,
{
    if i > 0 {
        let rest = ls.drop_first();
        assert(forall|j: int| 0 <= j < rest.len() ==> #[trigger] rest[j] == ls[j + 1]);
        lemma_find_layer_found(rest, name, i - 1);
    }
}

/// Without a registered layer of the name there is no match.
proof fn lemma_find_layer_absent<F: MethodFn>(ls: Seq<Layer<F>>, name: Seq<char>)
    requires
        forall|j: int| 0 <= j < ls.len() ==> (#[trigger] ls[j]).spec_name() != name,
    ensures
        find_layer_spec(ls, name) is None,
    decreases ls.len(),
{
    if ls.len() > 0 {
        let rest = ls.drop_first();
        assert(forall|j: int| 0 <= j < rest.len() ==> #[trigger] rest[j] == ls[j + 1]);
        lemma_find_layer_absent(rest, name);
    }
}

impl<F: MethodFn, S: EventSink> Engine<F, S> {
    /// The registered layers.
    pub closed spec fn layers_seq(&self) -> Seq<Layer<F>> {
        self.layers@
    }

    /// The registered layer names, in registration order.
    pub open spec fn layer_names(&self) -> Seq<Seq<char>> {
        self.layers_seq().map_values(|l: Layer<F>| l.spec_name())
    }

    /// The registered slices, in registration order.
    pub closed spec fn slices_seq(&self) -> Seq<Slice> {
        self.slices@
    }

    /// The dependency graph: layer name to the layers it depends on.
    pub closed spec fn graph(&self) -> GraphV {
        graph_view(self.dependencies@)
    }

    pub closed spec fn spec_init_layer(&self) -> Option<Seq<char>> {
        match self.init_layer {
            Some(ref n) => Some(n@),
            None => None,
        }
    }

    /// The registered observer's subscriptions.
    pub closed spec fn observer_subs(&self) -> Seq<(crate::events::EventKind, S)> {
        self.observer.subs()
    }

    /// The first registered layer of the name.
    pub open spec fn spec_layer(&self, name: Seq<char>) -> Option<Layer<F>> {
        find_layer_spec(self.layers_seq(), name)
    }

    pub closed spec fn spec_config(&self) -> EngineConfig {
        self.config
    }

    pub closed spec fn spec_flags(&self) -> RunFlags {
        self.flags
    }

    /// Validity: no two registered layers share a name.
    pub open spec fn wf(&self) -> bool {
        self.layer_names().no_duplicates()
    }

    /// An engine with no layers, no slices, no dependencies and default
    /// configuration.
    pub fn new() -> (e: Engine<F, S>)
        ensures
            e.wf(),
            e.layers_seq() == Seq::<Layer<F>>::empty(),
            e.slices_seq() == Seq::<Slice>::empty(),
            e.graph() == Seq::<(Seq<char>, Seq<Seq<char>>)>::empty(),
            e.spec_init_layer() is None,
            e.observer_subs().len() == 0,
            e.spec_config().num_threads is None,
            e.spec_config().stack_size is None,
            e.spec_config().batch_size is None,
            e.spec_config().chunk_size == 1,
            e.spec_flags().silent == false,
            e.spec_flags().with_observer == true,
    {
        let e = Engine {
            slices: Vec::new(),
            layers: Vec::new(),
            dependencies: Vec::new(),
            init_layer: None,
            observer: Observer::new(),
            config: EngineConfig::new(),
            flags: RunFlags::new(),
        };
        proof {
            assert(e.graph() =~= Seq::<(Seq<char>, Seq<Seq<char>>)>::empty());
            assert(e.layer_names() =~= Seq::<Seq<char>>::empty());
        }
        e
    }

    /// Finds the registered layer of the name.
    fn find_layer(&self, name: &str) -> (r: Option<&Layer<F>>)
        ensures
            match r {
                Some(l) => self.spec_layer(name@) == Some(*l) && l.spec_name() == name@
                    && self.layer_names().contains(name@),
                None => self.spec_layer(name@) is None && !self.layer_names().contains(name@),
            },
    {
        let n = self.layers.len();
        let mut i: usize = 0;
        while i < n
            invariant
                n == self.layers.len(),
            i <= n,
                forall|j: int| 0 <= j < i ==> (#[trigger] self.layers@[j]).spec_name() != name@,
            decreases n - i,
        {
            if crate::strutil::str_eq(self.layers[i].get_name(), name) {
                proof {
                    lemma_find_layer_found(self.layers@, name@, i as int);
                    assert(self.layer_names()[i as int] == name@);
                }
                return Some(&self.layers[i]);
            }
            i += 1;
        }
        proof {
            lemma_find_layer_absent(self.layers@, name@);
            if self.layer_names().contains(name@) {
                let j = choose|j: int|
                    0 <= j < self.layer_names().len() && self.layer_names()[j] == name@;
                assert(self.layers@[j].spec_name() == name@);
            }
        }
        None
    }

    /// Registers a layer; its name must be new.
    pub fn register_layer(&mut self, layer: Layer<F>) -> (r: Result<(), Error>)
        requires
            old(self).wf(),
        ensures
            final(self).wf(),
            old(self).layer_names().contains(layer.spec_name()) ==> {
                &&& r matches Err(Error::LayerAlreadyExists(n)) && n@ == layer.spec_name()
                &&& final(self).layers_seq() == old(self).layers_seq()
            },
            !old(self).layer_names().contains(layer.spec_name()) ==> {
                &&& r is Ok
                &&& final(self).layers_seq() == old(self).layers_seq().push(layer)
            },
            final(self).slices_seq() == old(self).slices_seq(),
            final(self).graph() == old(self).graph(),
            final(self).spec_init_layer() == old(self).spec_init_layer(),
            final(self).observer_subs() == old(self).observer_subs(),
            final(self).spec_config() == old(self).spec_config(),
            final(self).spec_flags() == old(self).spec_flags(),
    {
        if self.find_layer(layer.get_name()).is_some() {
            let name = layer.get_name().to_owned();
            return Err(Error::LayerAlreadyExists(name));
        }
        let ghost ls0 = self.layers@;
        self.layers.push(layer);
        proof {
            assert(self.layers@.drop_last() =~= ls0);
            assert(self.layer_names() =~= old(self).layer_names().push(layer.spec_name()));
            assert forall|a: int, b: int|
                0 <= a < b < self.layer_names().len() implies #[trigger] self.layer_names()[a]
                != #[trigger] self.layer_names()[b] by {
                if b == self.layer_names().len() - 1 {
                    assert(old(self).layer_names()[a] == self.layer_names()[a]);
                    if self.layer_names()[a] == layer.spec_name() {
                        assert(old(self).layer_names().contains(layer.spec_name()));
                    }
                }
            }
        }
        Ok(())
    }

    /// Registers a slice.
    pub fn register_slice(&mut self, slice: Slice)
        ensures
            final(self).slices_seq() == old(self).slices_seq().push(slice),
            final(self).layers_seq() == old(self).layers_seq(),
            final(self).graph() == old(self).graph(),
            final(self).spec_init_layer() == old(self).spec_init_layer(),
            final(self).observer_subs() == old(self).observer_subs(),
            final(self).spec_config() == old(self).spec_config(),
            final(self).spec_flags() == old(self).spec_flags(),
    {
        self.slices.push(slice);
    }

    /// Records that `layer` depends on `depends_on`.
    pub fn add_dependency(&mut self, layer: &str, depends_on: &str) -> (r: Result<(), Error>)
        ensures
            r is Ok,
            deps_of(final(self).graph(), layer@) == deps_of(old(self).graph(), layer@).push(
                depends_on@,
            ),
            forall|l: Seq<char>|
                l != layer@ ==> deps_of(#[trigger] final(self).graph(), l) == deps_of(
                    old(self).graph(),
                    l,
                ),
            final(self).layers_seq() == old(self).layers_seq(),
            final(self).slices_seq() == old(self).slices_seq(),
            final(self).spec_init_layer() == old(self).spec_init_layer(),
            final(self).observer_subs() == old(self).observer_subs(),
            final(self).spec_config() == old(self).spec_config(),
            final(self).spec_flags() == old(self).spec_flags(),
    {
        let ghost g0 = self.graph();
        let ghost d0 = self.dependencies@;
        match crate::strutil::alist_find(&self.dependencies, layer) {
            Some(i) => {
                proof {
                    assert(g0[i as int].0 == layer@);
                    assert forall|j: int| 0 <= j < i implies (#[trigger] g0[j]).0 != layer@ by {
                        assert(g0[j].0 == d0[j].0@);
                    }
                }
                let (k0, mut deps) = self.dependencies.remove(i);
                deps.push(depends_on.to_owned());
                self.dependencies.insert(i, (k0, deps));
                proof {
                    let g1 = self.graph();
                    assert(self.dependencies@ =~= d0.update(
                        i as int,
                        (d0[i as int].0, self.dependencies@[i as int].1),
                    ));
                    assert(g1.len() == g0.len());
                    assert(forall|j: int|
                        0 <= j < g1.len() && j != i ==> #[trigger] g1[j] == g0[j]);
                    assert(names_view(self.dependencies@[i as int].1@) =~= names_view(
                        d0[i as int].1@,
                    ).push(depends_on@));
                    assert(g1[i as int] == (layer@, g0[i as int].1.push(depends_on@)));
                    assert(forall|j: int| 0 <= j < g1.len() ==> (#[trigger] g1[j]).0 == g0[j].0);
                    lemma_deps_first_match(g1, layer@, i as int);
                    lemma_deps_first_match(g0, layer@, i as int);
                    assert forall|l: Seq<char>| l != layer@ implies deps_of(g1, l) == deps_of(
                        g0,
                        l,
                    ) by {
                        lemma_deps_same_keys_agree(g1, g0, l, i as int);
                    }
                }
                Ok(())
            },
            None => {
                proof {
                    assert forall|j: int| 0 <= j < g0.len() implies (#[trigger] g0[j]).0
                        != layer@ by {
                        assert(g0[j].0 == d0[j].0@);
                    }
                    lemma_deps_absent(g0, layer@);
                }
                let mut deps: Vec<String> = Vec::new();
                deps.push(depends_on.to_owned());
                self.dependencies.push((layer.to_owned(), deps));
                proof {
                    let g1 = self.graph();
                    assert(self.dependencies@.drop_last() =~= d0);
                    assert(names_view(self.dependencies@[self.dependencies@.len() - 1].1@)
                        =~= seq![depends_on@]);
                    assert(g1 =~~= g0.push((layer@, seq![depends_on@])));
                    lemma_deps_push(g0, (layer@, seq![depends_on@]), layer@);
                    assert(deps_of(g0, layer@).push(depends_on@) =~= seq![depends_on@]);
                    assert forall|l: Seq<char>| l != layer@ implies deps_of(g1, l) == deps_of(
                        g0,
                        l,
                    ) by {
                        lemma_deps_push(g0, (layer@, seq![depends_on@]), l);
                    }
                }
                Ok(())
            },
        }
    }

    /// Whether the engine can be scheduled: every dependency edge points at
    /// a registered layer and the graph is acyclic.
    pub open spec fn schedulable(&self) -> bool {
        self.all_deps_registered() && acyclic_within(self.graph(), self.layer_names().to_set())
    }

    /// The global ordering the engine runs with.
    pub open spec fn spec_order(&self) -> Seq<Seq<char>> {
        let flat = flat_rounds(
            rounds_from(self.graph(), self.layer_names(), Set::empty())->Some_0,
        );
        match self.spec_init_layer() {
            None => flat,
            Some(n) => seq![n] + drop_name(flat, n),
        }
    }

    /// Decides whether the engine is schedulable, by attempting the sort.
    pub fn can_schedule(&self) -> (b: bool)
        requires
            self.wf(),
        ensures
            b == self.schedulable(),
    {
        self.topological_sort().is_ok()
    }

    /// Replaces the observer.
    pub fn set_observer(&mut self, observer: Observer<S>)
        ensures
            final(self).observer_subs() == observer.subs(),
            final(self).layers_seq() == old(self).layers_seq(),
            final(self).slices_seq() == old(self).slices_seq(),
            final(self).graph() == old(self).graph(),
            final(self).spec_init_layer() == old(self).spec_init_layer(),
            final(self).spec_config() == old(self).spec_config(),
            final(self).spec_flags() == old(self).spec_flags(),
    {
        self.observer = observer;
    }

    /// Every dependency entry is recorded for a registered layer, and every
    /// edge points at a registered layer.
    pub open spec fn all_deps_registered(&self) -> bool {
        &&& forall|i: int|
            0 <= i < self.graph().len() ==> self.layer_names().contains(
                (#[trigger] self.graph()[i]).0,
            )
        &&& forall|i: int, k: int|
            0 <= i < self.graph().len() && 0 <= k < self.graph()[i].1.len()
                ==> self.layer_names().contains(#[trigger] self.graph()[i].1[k])
    }

    /// The implicit initializer edges are in place: the initializer has no
    /// dependencies of its own and every other layer depends on it.
    pub open spec fn init_edges_realized(&self) -> bool {
        match self.spec_init_layer() {
            None => true,
            Some(n) => self.layer_names().contains(n) && deps_of(self.graph(), n)
                == Seq::<Seq<char>>::empty() && forall|i: int|
                0 <= i < self.layer_names().len() && self.layer_names()[i] != n ==> deps_of(
                    self.graph(),
                    #[trigger] self.layer_names()[i],
                ).contains(n),
        }
    }

    /// Designates the initializer layer, which must be registered, and
    /// realizes its implicit edges: every other registered layer is made to
    /// depend on it.
    pub fn set_init_layer(&mut self, layer_name: &str) -> (r: Result<(), Error>)
        requires
            old(self).wf(),
        ensures
            final(self).wf(),
            !old(self).layer_names().contains(layer_name@) ==> {
                &&& r matches Err(Error::LayerNotFound(n)) && n@ == layer_name@
                &&& final(self).graph() == old(self).graph()
                &&& final(self).spec_init_layer() == old(self).spec_init_layer()
            },
            old(self).layer_names().contains(layer_name@) ==> {
                &&& r is Ok
                &&& final(self).spec_init_layer() == Some(layer_name@)
                &&& forall|i: int|
                    0 <= i < old(self).layer_names().len() && old(self).layer_names()[i]
                        != layer_name@ ==> deps_of(
                        final(self).graph(),
                        #[trigger] old(self).layer_names()[i],
                    ) == deps_of(old(self).graph(), old(self).layer_names()[i]).push(layer_name@)
                &&& forall|l: Seq<char>|
                    !old(self).layer_names().contains(l) || l == layer_name@ ==> deps_of(
                        #[trigger] final(self).graph(),
                        l,
                    ) == deps_of(old(self).graph(), l)
            },
            final(self).layers_seq() == old(self).layers_seq(),
            final(self).slices_seq() == old(self).slices_seq(),
            final(self).observer_subs() == old(self).observer_subs(),
            final(self).spec_config() == old(self).spec_config(),
            final(self).spec_flags() == old(self).spec_flags(),
    {
        if self.find_layer(layer_name).is_none() {
            return Err(Error::LayerNotFound(layer_name.to_owned()));
        }
        self.init_layer = Some(layer_name.to_owned());
        let names = self.get_layer_names();
        let ghost nv = old(self).layer_names();
        let ghost g0 = old(self).graph();
        let ghost initv = layer_name@;
        let n = names.len();
        let mut i: usize = 0;
        while i < n
            invariant
                n == names.len(),
                names_view(names@) == nv,
                nv == self.layer_names(),
                nv.no_duplicates(),
                initv == layer_name@,
                i <= n,
                self.layers@ == old(self).layers@,
                self.slices@ == old(self).slices@,
                self.observer.subs() == old(self).observer.subs(),
                self.config == old(self).config,
                self.flags == old(self).flags,
                self.spec_init_layer() == Some(initv),
                forall|j: int|
                    0 <= j < i && nv[j] != initv ==> deps_of(self.graph(), #[trigger] nv[j])
                        == deps_of(g0, nv[j]).push(initv),
                forall|l: Seq<char>|
                    !nv.take(i as int).contains(l) ==> deps_of(#[trigger] self.graph(), l)
                        == deps_of(g0, l),
                deps_of(self.graph(), initv) == deps_of(g0, initv),
            decreases n - i,
        {
            proof {
                assert(nv.take(i + 1) =~= nv.take(i as int).push(nv[i as int]));
                assert(names@[i as int]@ == nv[i as int]);
            }
            if !crate::strutil::str_eq(names[i].as_str(), layer_name) {
                let ghost gmid = self.graph();
                let _ = self.add_dependency(names[i].as_str(), layer_name);
                proof {
                    assert(deps_of(self.graph(), nv[i as int]) == deps_of(gmid, nv[i as int]).push(
                        initv,
                    ));
                    assert(!nv.take(i as int).contains(nv[i as int])) by {
                        if nv.take(i as int).contains(nv[i as int]) {
                            let j = choose|j: int| 0 <= j < i && nv.take(i as int)[j] == nv[
                                i as int];
                            assert(nv[j] == nv[i as int]);
                        }
                    }
                    assert(deps_of(gmid, nv[i as int]) == deps_of(g0, nv[i as int]));
                    assert forall|j: int| 0 <= j < i + 1 && nv[j] != initv implies deps_of(
                        self.graph(),
                        #[trigger] nv[j],
                    ) == deps_of(g0, nv[j]).push(initv) by {
                        if j < i {
                            assert(nv[j] != nv[i as int]);
                            assert(deps_of(self.graph(), nv[j]) == deps_of(gmid, nv[j]));
                        }
                    }
                    assert forall|l: Seq<char>| !nv.take(i + 1).contains(l) implies deps_of(
                        #[trigger] self.graph(),
                        l,
                    ) == deps_of(g0, l) by {
                        assert(!nv.take(i as int).contains(l)) by {
                            if nv.take(i as int).contains(l) {
                                let j = choose|j: int|
                                    0 <= j < i && nv.take(i as int)[j] == l;
                                assert(nv.take(i + 1)[j] == l);
                            }
                        }
                        assert(l != nv[i as int]) by {
                            assert(nv.take(i + 1)[i as int] == nv[i as int]);
                        }
                        assert(deps_of(gmid, l) == deps_of(g0, l));
                    }
                }
            } else {
                proof {
                    assert(nv[i as int] == initv);
                    assert forall|l: Seq<char>| !nv.take(i + 1).contains(l) implies deps_of(
                        #[trigger] self.graph(),
                        l,
                    ) == deps_of(g0, l) by {
                        assert(!nv.take(i as int).contains(l)) by {
                            if nv.take(i as int).contains(l) {
                                let j = choose|j: int|
                                    0 <= j < i && nv.take(i as int)[j] == l;
                                assert(nv.take(i + 1)[j] == l);
                            }
                        }
                    }
                }
            }
            i += 1;
        }
        proof {
            assert(nv.take(n as int) =~= nv);
        }
        Ok(())
    }

    /// The registered layer names, in registration order.
    pub fn get_layer_names(&self) -> (r: Vec<String>)
        ensures
            names_view(r@) == self.layer_names(),
    {
        let n = self.layers.len();
        let mut r: Vec<String> = Vec::new();
        let mut i: usize = 0;
        while i < n
            invariant
                n == self.layers.len(),
                i <= n,
                r@.len() == i,
                forall|j: int|
                    0 <= j < i ==> (#[trigger] r@[j])@ == self.layers@[j].spec_name(),
            decreases n - i,
        {
            r.push(self.layers[i].get_name().to_owned());
            i += 1;
        }
        proof {
            assert(names_view(r@) =~= self.layer_names());
        }
        r
    }

    /// One total ordering of the registered layers consistent with the
    /// dependency graph: every layer comes after the layers it depends on,
    /// and a designated initializer comes first.  Fails with `LayerNotFound`
    /// on an edge to an unregistered layer and with `ConfigError` on a
    /// cyclic graph.
    pub fn topological_sort(&self) -> (r: Result<Vec<String>, Error>)
        requires
            self.wf(),
        ensures
            r is Ok <==> self.all_deps_registered() && acyclic_within(
                self.graph(),
                self.layer_names().to_set(),
            ),
            r matches Err(e) ==> e is LayerNotFound || e is ConfigError,
            (r matches Err(Error::LayerNotFound(d)) ==> !self.layer_names().contains(d@) && ((
            exists|i: int| 0 <= i < self.graph().len() && (#[trigger] self.graph()[i]).0 == d@)
                || (exists|i: int, k: int|
                0 <= i < self.graph().len() && 0 <= k < self.graph()[i].1.len()
                    && #[trigger] self.graph()[i].1[k] == d@))),
            (r matches Err(Error::ConfigError(m)) ==> self.all_deps_registered()
                && !acyclic_within(self.graph(), self.layer_names().to_set()) && m@
                == "Circular dependency detected in layers"@),
            (r matches Ok(ov) ==> {
                let flat = flat_rounds(
                    rounds_from(self.graph(), self.layer_names(), Set::empty())->Some_0,
                );
                &&& (self.spec_init_layer() is None ==> names_view(ov@) == flat)
                &&& (self.spec_init_layer() matches Some(n) ==> ov@.len() > 0 && ov@[0]@ == n
                    && names_view(ov@) == seq![n] + drop_name(flat, n))
                &&& (self.init_edges_realized() ==> names_view(ov@) == flat)
                &&& ((self.spec_init_layer() is None || self.init_edges_realized()) ==> {
                    &&& names_view(ov@).to_multiset() == self.layer_names().to_multiset()
                    &&& order_respects(self.graph(), names_view(ov@), Set::empty())
                })
            }),
    {
        let ghost g = self.graph();
        let ghost ns = self.layer_names();
        let names = self.get_layer_names();
        let dn = self.dependencies.len();
        let mut i: usize = 0;
        while i < dn
            invariant
                g == self.graph(),
                ns == self.layer_names(),
                names_view(names@) == ns,
                dn == self.dependencies.len(),
                g.len() == dn,
                i <= dn,
                forall|i2: int| 0 <= i2 < i ==> ns.contains((#[trigger] g[i2]).0),
                forall|i2: int, k2: int|
                    0 <= i2 < i && 0 <= k2 < g[i2].1.len() ==> ns.contains(
                        #[trigger] g[i2].1[k2],
                    ),
            decreases dn - i,
        {
            proof {
                assert(g[i as int].0 == self.dependencies@[i as int].0@);
            }
            if !contains_name(&names, &self.dependencies[i].0) {
                let dep = self.dependencies[i].0.clone();
                proof {
                    assert(!ns.contains(dep@));
                    assert(g[i as int].0 == dep@);
                    assert(!self.all_deps_registered());
                }
                return Err(Error::LayerNotFound(dep));
            }
            let m = self.dependencies[i].1.len();
            let mut k: usize = 0;
            while k < m
                invariant
                    g == self.graph(),
                    ns == self.layer_names(),
                    names_view(names@) == ns,
                    dn == self.dependencies.len(),
                    g.len() == dn,
                    i < dn,
                    m == self.dependencies@[i as int].1.len(),
                    g[i as int].1.len() == m,
                    k <= m,
                    ns.contains(g[i as int].0),
                    forall|i2: int| 0 <= i2 < i ==> ns.contains((#[trigger] g[i2]).0),
                    forall|i2: int, k2: int|
                        0 <= i2 < i && 0 <= k2 < g[i2].1.len() ==> ns.contains(
                            #[trigger] g[i2].1[k2],
                        ),
                    forall|k2: int| 0 <= k2 < k ==> ns.contains(#[trigger] g[i as int].1[k2]),
                decreases m - k,
            {
                proof {
                    assert(g[i as int].1[k as int] == self.dependencies@[i as int].1@[k as int]@);
                }
                if !contains_name(&names, &self.dependencies[i].1[k]) {
                    let dep = self.dependencies[i].1[k].clone();
                    proof {
                        assert(!ns.contains(dep@));
                        assert(g[i as int].1[k as int] == dep@);
                        assert(!self.all_deps_registered());
                    }
                    return Err(Error::LayerNotFound(dep));
                }
                k += 1;
            }
            i += 1;
        }
        proof {
            assert(self.all_deps_registered());
        }
        match compute_rounds(&names, &self.dependencies) {
            None => {
                proof {
                    if acyclic_within(g, ns.to_set()) {
                        lemma_registered_closure(g, ns);
                        assert(forall|i2: int|
                            0 <= i2 < ns.len() ==> !Set::<Seq<char>>::empty().contains(
                                #[trigger] ns[i2],
                            ));
                        lemma_rounds_some(g, ns, Set::empty());
                    }
                }
                Err(Error::ConfigError("Circular dependency detected in layers".to_owned()))
            },
            Some(rs) => {
                let ghost rsv = rounds_view(rs@);
                proof {
                    if !acyclic_within(g, ns.to_set()) {
                        let nsset = ns.to_set();
                        assert(exists|s: Set<Seq<char>>|
                            #![trigger s.subset_of(nsset)]
                            s.subset_of(nsset) && s.finite() && s.len() > 0 && !(exists|
                                l: Seq<char>,
                            |
                                #![auto]
                                s.contains(l) && forall|k2: int|
                                    0 <= k2 < deps_of(g, l).len() ==> !s.contains(
                                        #[trigger] deps_of(g, l)[k2],
                                    )));
                        let s = choose|s: Set<Seq<char>>|
                            #![trigger s.subset_of(nsset)]
                            s.subset_of(nsset) && s.finite() && s.len() > 0 && !(exists|
                                l: Seq<char>,
                            |
                                #![auto]
                                s.contains(l) && forall|k2: int|
                                    0 <= k2 < deps_of(g, l).len() ==> !s.contains(
                                        #[trigger] deps_of(g, l)[k2],
                                    ));
                        assert forall|l: Seq<char>| #[trigger] s.contains(l) implies exists|
                            k2: int,
                        |
                            0 <= k2 < deps_of(g, l).len() && s.contains(
                                #[trigger] deps_of(g, l)[k2],
                            ) by {
                            if forall|k2: int|
                                0 <= k2 < deps_of(g, l).len() ==> !s.contains(
                                    #[trigger] deps_of(g, l)[k2],
                                ) {
                                assert(s.contains(l) && forall|k2: int|
                                    0 <= k2 < deps_of(g, l).len() ==> !s.contains(
                                        #[trigger] deps_of(g, l)[k2],
                                    ));
                            }
                        }
                        assert(forall|i2: int|
                            0 <= i2 < ns.len() ==> !Set::<Seq<char>>::empty().contains(
                                #[trigger] ns[i2],
                            ));
                        lemma_rounds_none(g, ns, Set::empty(), s);
                    }
                }
                let order = flatten_rounds(&rs);
                let ghost flat = flat_rounds(rsv);
                proof {
                    lemma_rounds_multiset(g, ns, Set::empty(), rsv);
                    lemma_rounds_order(g, ns, Set::empty(), rsv);
                }
                match &self.init_layer {
                    None => Ok(order),
                    Some(init_name) => {
                        let ghost initv = init_name@;
                        let mut out: Vec<String> = Vec::new();
                        out.push(init_name.clone());
                        proof {
                            assert(flat.take(0) =~= Seq::<Seq<char>>::empty());
                            assert(drop_name(flat.take(0), initv) == Seq::<Seq<char>>::empty());
                            assert(names_view(out@) =~= seq![initv] + drop_name(
                                flat.take(0),
                                initv,
                            ));
                        }
                        let n2 = order.len();
                        let mut j: usize = 0;
                        while j < n2
                            invariant
                                n2 == order.len(),
                                names_view(order@) == flat,
                                flat.len() == n2,
                                initv == init_name@,
                                j <= n2,
                                names_view(out@) == seq![initv] + drop_name(
                                    flat.take(j as int),
                                    initv,
                                ),
                                out@.len() >= 1,
                                out@[0]@ == initv,
                            decreases n2 - j,
                        {
                            proof {
                                assert(flat.take(j + 1) =~= flat.take(j as int).push(
                                    flat[j as int],
                                ));
                                assert(flat.take(j + 1).drop_last() =~= flat.take(j as int));
                                assert(order@[j as int]@ == flat[j as int]);
                            }
                            if !crate::strutil::str_eq(order[j].as_str(), init_name.as_str()) {
                                out.push(order[j].clone());
                                proof {
                                    assert(names_view(out@) =~= (seq![initv] + drop_name(
                                        flat.take(j as int),
                                        initv,
                                    )).push(flat[j as int]));
                                    assert((seq![initv] + drop_name(flat.take(j as int), initv))
                                        .push(flat[j as int]) =~= seq![initv] + drop_name(
                                        flat.take(j + 1),
                                        initv,
                                    ));
                                }
                            }
                            j += 1;
                        }
                        proof {
                            assert(flat.take(n2 as int) =~= flat);
                            if self.init_edges_realized() {
                                lemma_init_first(g, ns, initv, rsv);
                                broadcast use vstd::seq_lib::group_to_multiset_ensures;

                                ns.lemma_multiset_has_no_duplicates();
                                assert(forall|x: Seq<char>|
                                    flat.to_multiset().contains(x)
                                        ==> flat.to_multiset().count(x) == 1);
                                flat.lemma_multiset_has_no_duplicates_conv();
                                assert(!flat.drop_first().contains(initv)) by {
                                    if flat.drop_first().contains(initv) {
                                        let p = choose|p: int|
                                            0 <= p < flat.drop_first().len()
                                                && flat.drop_first()[p] == initv;
                                        assert(flat[p + 1] == initv);
                                        assert(flat[0] == initv);
                                    }
                                }
                                lemma_drop_name_head(flat, initv);
                                assert(seq![initv] + flat.drop_first() =~= flat);
                            }
                        }
                        Ok(out)
                    },
                }
            },
        }
    }

    /// Partitions the slice's (layer, method) pairs into ordered waves: all
    /// operations of a wave have every dependency layer in an earlier wave.
    /// Fails when some participating layers can never become ready.
    pub fn compute_method_waves(&self, slice: &Slice, execution_order: &Vec<String>) -> (r: Result<
        Vec<Vec<(String, String)>>,
        Error,
    >)
        ensures
            ({
                let parts = participating(names_view(execution_order@), *slice);
                &&& (r is Ok <==> rounds_from(self.graph(), parts, Set::empty()) is Some)
                &&& (r matches Ok(ws) ==> waves_view(ws@) == waves_of(
                    *slice,
                    rounds_from(self.graph(), parts, Set::empty())->Some_0,
                ))
                &&& (r matches Err(e) ==> e matches Error::ConfigError(m) && m@
                    == "Unable to compute method waves"@)
            }),
    {
        let ghost ov = names_view(execution_order@);
        let ghost parts_spec = participating(ov, *slice);
        let mut parts: Vec<String> = Vec::new();
        proof {
            assert(ov.take(0) =~= Seq::<Seq<char>>::empty());
            assert(names_view(parts@) =~= participating(ov.take(0), *slice));
        }
        let n = execution_order.len();
        let mut i: usize = 0;
        while i < n
            invariant
                n == execution_order.len(),
                ov == names_view(execution_order@),
                ov.len() == n,
                i <= n,
                names_view(parts@) == participating(ov.take(i as int), *slice),
            decreases n - i,
        {
            proof {
                assert(ov.take(i + 1) =~= ov.take(i as int).push(ov[i as int]));
                assert(ov.take(i + 1).drop_last() =~= ov.take(i as int));
                assert(execution_order@[i as int]@ == ov[i as int]);
            }
            if slice.has_layer(execution_order[i].as_str()) {
                let ghost p0 = parts@;
                parts.push(execution_order[i].clone());
                proof {
                    assert(names_view(parts@) =~= names_view(p0).push(ov[i as int]));
                }
            }
            i += 1;
        }
        proof {
            assert(ov.take(n as int) =~= ov);
        }
        match compute_rounds(&parts, &self.dependencies) {
            None => Err(Error::ConfigError("Unable to compute method waves".to_owned())),
            Some(rs) => {
                let ghost rsv = rounds_view(rs@);
                proof {
                    broadcast use vstd::seq_lib::group_to_multiset_ensures;

                    lemma_rounds_multiset(self.graph(), parts_spec, Set::empty(), rsv);
                    lemma_participating_members(ov, *slice);
                }
                let mut waves: Vec<Vec<(String, String)>> = Vec::new();
                proof {
                    assert(rsv.take(0) =~= Seq::<Seq<Seq<char>>>::empty());
                    assert(waves_view(waves@) =~= waves_of(*slice, rsv.take(0)));
                }
                let wn = rs.len();
                let mut wi: usize = 0;
                while wi < wn
                    invariant
                        wn == rs.len(),
                        rsv == rounds_view(rs@),
                        rsv.len() == wn,
                        wi <= wn,
                        waves_view(waves@) == waves_of(*slice, rsv.take(wi as int)),
                        flat_rounds(rsv).to_multiset() == parts_spec.to_multiset(),
                        forall|p: int|
                            0 <= p < parts_spec.len() ==> (*slice).spec_has_layer(
                                #[trigger] parts_spec[p],
                            ),
                    decreases wn - wi,
                {
                    proof {
                        assert(rsv.take(wi + 1) =~= rsv.take(wi as int).push(rsv[wi as int]));
                        assert(names_view(rs@[wi as int]@) == rsv[wi as int]);
                    }
                    let ghost roundv = rsv[wi as int];
                    let mut wave: Vec<(String, String)> = Vec::new();
                    proof {
                        assert(roundv.take(0) =~= Seq::<Seq<char>>::empty());
                        assert(pairs_view(wave@) =~= wave_of_round(*slice, roundv.take(0)));
                    }
                    let ln = rs[wi].len();
                    let mut li: usize = 0;
                    while li < ln
                        invariant
                            wn == rs.len(),
                            rsv == rounds_view(rs@),
                            rsv.len() == wn,
                            wi < wn,
                            roundv == rsv[wi as int],
                            ln == rs@[wi as int]@.len(),
                            roundv.len() == ln,
                            li <= ln,
                            pairs_view(wave@) == wave_of_round(*slice, roundv.take(li as int)),
                            flat_rounds(rsv).to_multiset() == parts_spec.to_multiset(),
                            forall|p: int|
                                0 <= p < parts_spec.len() ==> (*slice).spec_has_layer(
                                    #[trigger] parts_spec[p],
                                ),
                        decreases ln - li,
                    {
                        proof {
                            broadcast use vstd::seq_lib::group_to_multiset_ensures;

                            assert(roundv.take(li + 1) =~= roundv.take(li as int).push(
                                roundv[li as int],
                            ));
                            assert(roundv.take(li + 1).drop_last() =~= roundv.take(li as int));
                            assert(rs@[wi as int]@[li as int]@ == roundv[li as int]);
                            // the layer of this round participates in the slice
                            lemma_flat_membership(rsv, roundv[li as int]);
                            assert(rsv[wi as int][li as int] == roundv[li as int]);
                            assert(flat_rounds(rsv).contains(roundv[li as int]));
                            assert(flat_rounds(rsv).to_multiset().count(roundv[li as int]) > 0);
                            assert(parts_spec.to_multiset().count(roundv[li as int]) > 0);
                            assert(parts_spec.contains(roundv[li as int]));
                            let p = choose|p: int|
                                0 <= p < parts_spec.len() && parts_spec[p] == roundv[li as int];
                            assert((*slice).spec_has_layer(roundv[li as int]));
                        }
                        let layer_name = &rs[wi][li];
                        match slice.get_layer_methods(layer_name.as_str()) {
                            Ok(methods) => {
                                let ghost msv = (*slice).spec_layer_methods(
                                    roundv[li as int],
                                )->Some_0;
                                let ghost w0 = wave@;
                                let mn = methods.len();
                                let mut mi: usize = 0;
                                proof {
                                    assert(pairs_view(wave@) =~= wave_of_round(
                                        *slice,
                                        roundv.take(li as int),
                                    ) + pairs_of(*slice, roundv[li as int]).take(0));
                                }
                                while mi < mn
                                    invariant
                                        mn == methods.len(),
                                        msv == (*slice).spec_layer_methods(
                                            rsv[wi as int][li as int],
                                        )->Some_0,
                                        (*slice).spec_layer_methods(
                                            rsv[wi as int][li as int],
                                        ) is Some,
                                        msv.len() == mn,
                                        forall|j: int|
                                            0 <= j < mn ==> (#[trigger] methods@[j])@ == msv[j].0,
                                        wi < rs@.len(),
                                        li < rs@[wi as int]@.len(),
                                        rsv == rounds_view(rs@),
                                        roundv == rsv[wi as int],
                                        layer_name == &rs@[wi as int]@[li as int],
                                        layer_name@ == roundv[li as int],
                                        mi <= mn,
                                        pairs_view(wave@) == wave_of_round(
                                            *slice,
                                            roundv.take(li as int),
                                        ) + pairs_of(*slice, roundv[li as int]).take(mi as int),
                                    decreases mn - mi,
                                {
                                    let ghost wv0 = wave@;
                                    wave.push((layer_name.clone(), methods[mi].clone()));
                                    proof {
                                        assert(pairs_of(*slice, roundv[li as int]).len()
                                            == msv.len());
                                        assert(pairs_of(*slice, roundv[li as int])[mi as int] == (
                                        roundv[li as int], msv[mi as int].0));
                                        assert(pairs_of(*slice, roundv[li as int]).take(mi + 1)
                                            =~= pairs_of(*slice, roundv[li as int]).take(
                                            mi as int,
                                        ).push((roundv[li as int], msv[mi as int].0)));
                                        assert(pairs_view(wave@) =~= pairs_view(wv0).push(
                                            (roundv[li as int], msv[mi as int].0),
                                        ));
                                        assert(pairs_view(wave@) =~= wave_of_round(
                                            *slice,
                                            roundv.take(li as int),
                                        ) + pairs_of(*slice, roundv[li as int]).take(mi + 1));
                                    }
                                    mi += 1;
                                }
                                proof {
                                    assert(pairs_of(*slice, roundv[li as int]).take(mn as int)
                                        =~= pairs_of(*slice, roundv[li as int]));
                                    assert(wave_of_round(*slice, roundv.take(li + 1))
                                        == wave_of_round(*slice, roundv.take(li as int))
                                        + pairs_of(*slice, roundv[li as int]));
                                }
                            },
                            Err(e) => {
                                // unreachable: every scheduled layer
                                // participates in the slice
                                proof {
                                    assert(false);
                                }
                                return Err(e);
                            },
                        }
                        li += 1;
                    }
                    proof {
                        assert(roundv.take(ln as int) =~= roundv);
                    }
                    let ghost ws0 = waves@;
                    waves.push(wave);
                    proof {
                        assert(waves_view(waves@) =~= waves_view(ws0).push(
                            wave_of_round(*slice, roundv),
                        ));
                        assert(waves_of(*slice, rsv.take(wi + 1)) =~= waves_of(
                            *slice,
                            rsv.take(wi as int),
                        ).push(wave_of_round(*slice, rsv[wi as int])));
                    }
                    wi += 1;
                }
                proof {
                    assert(rsv.take(wn as int) =~= rsv);
                }
                Ok(waves)
            },
        }
    }

    /// Runs one slice: waves strictly in order, every (layer, method) pair
    /// of a wave dispatched, each pair's outcome recorded in its own result
    /// slot — one pair's failure never blocks another pair or wave.  The
    /// slice itself fails only when its waves cannot be computed.
    ///
    /// Pairs of one wave are dispatched in schedule order on the executing
    /// thread — one of the schedules the in-wave no-ordering guarantee
    /// admits; concurrency is across slices (see the batch runner).
    pub fn execute_slice(
        &self,
        slice: &Slice,
        execution_order: &Vec<String>,
        use_observer: bool,
    ) -> (r: Result<SliceResults, Error>)
        ensures
            slice_exec_post(self.graph(), names_view(execution_order@), *slice, r),
    {
        let slice_start = Instant::now();
        if use_observer {
            self.observer.emit(&EngineEvent::SliceStart { slice: slice.get_name().to_owned() });
        }
        let ghost ov = names_view(execution_order@);
        let ghost parts = participating(ov, *slice);
        let waves = match self.compute_method_waves(slice, execution_order) {
            Ok(w) => w,
            Err(e) => {
                return Err(e);
            },
        };
        let ghost rsv = rounds_from(self.graph(), parts, Set::empty())->Some_0;
        let ghost wsv = waves_view(waves@);
        proof {
            assert(wsv == waves_of(*slice, rsv));
        }
        let mut results = SliceResults::new();
        let mut ctx = Context::new();
        let wn = waves.len();
        let mut wi: usize = 0;
        proof {
            assert forall|l: Seq<char>, m: Seq<char>| #[trigger] results.spec_has(l, m)
                <==> pair_done(wsv, 0, 0, l, m) by {
                crate::alist::lemma_alist_no_match(results.results(), (l, m));
            }
        }
        while wi < wn
            invariant
                wn == waves.len(),
                wsv == waves_view(waves@),
                wsv.len() == wn,
                wi <= wn,
                forall|l: Seq<char>, m: Seq<char>| #[trigger]
                    results.spec_has(l, m) <==> pair_done(wsv, wi as int, 0, l, m),
            decreases wn - wi,
        {
            let pn = waves[wi].len();
            let mut pi: usize = 0;
            proof {
                assert forall|l: Seq<char>, m: Seq<char>| #[trigger] results.spec_has(l, m)
                    <==> pair_done(wsv, wi as int, pi as int, l, m) by {
                    lemma_pair_done_rollover(wsv, wi as int, l, m);
                }
            }
            while pi < pn
                invariant
                    wn == waves.len(),
                    wsv == waves_view(waves@),
                    wsv.len() == wn,
                    wi < wn,
                    pn == waves@[wi as int]@.len(),
                    wsv[wi as int].len() == pn,
                    pi <= pn,
                    forall|l: Seq<char>, m: Seq<char>| #[trigger]
                        results.spec_has(l, m) <==> pair_done(wsv, wi as int, pi as int, l, m),
                decreases pn - pi,
            {
                let layer_name = waves[wi][pi].0.clone();
                let method_name = waves[wi][pi].1.clone();
                let ghost pairv = (layer_name@, method_name@);
                proof {
                    assert(wsv[wi as int][pi as int] == pairv);
                }
                let res = if use_observer {
                    self.observe_execute_method(
                        slice,
                        layer_name.as_str(),
                        method_name.as_str(),
                        &mut ctx,
                    )
                } else {
                    self.execute_method(slice, layer_name.as_str(), method_name.as_str(), &mut ctx)
                };
                let ghost results0 = results;
                results.add_result(layer_name, method_name, res);
                proof {
                    assert forall|l: Seq<char>, m: Seq<char>| #[trigger] results.spec_has(l, m)
                        <==> pair_done(wsv, wi as int, pi + 1, l, m) by {
                        if (l, m) == pairv {
                            assert(results.spec_has(l, m));
                            assert(pair_done(wsv, wi as int, pi + 1, l, m));
                        } else {
                            assert(crate::alist::alist_get(results.results(), (l, m))
                                == crate::alist::alist_get(results0.results(), (l, m)));
                            assert(results.spec_has(l, m) == results0.spec_has(l, m));
                            if pair_done(wsv, wi as int, pi + 1, l, m) {
                                let (a, b) = choose|a: int, b: int|
                                    #![trigger wsv[a][b]]
                                    0 <= a < wsv.len() && 0 <= b < wsv[a].len() && (a < wi as int
                                        || (a == wi as int && b < pi + 1)) && wsv[a][b] == (l, m);
                                assert(!(a == wi as int && b == pi as int));
                                assert(pair_done(wsv, wi as int, pi as int, l, m));
                            }
                            if pair_done(wsv, wi as int, pi as int, l, m) {
                                let (a, b) = choose|a: int, b: int|
                                    #![trigger wsv[a][b]]
                                    0 <= a < wsv.len() && 0 <= b < wsv[a].len() && (a < wi as int
                                        || (a == wi as int && b < pi as int)) && wsv[a][b] == (
                                    l,
                                    m,
                                    );
                                assert(pair_done(wsv, wi as int, pi + 1, l, m));
                            }
                        }
                    }
                }
                pi += 1;
            }
            proof {
                assert forall|l: Seq<char>, m: Seq<char>| #[trigger] results.spec_has(l, m)
                    <==> pair_done(wsv, wi + 1, 0, l, m) by {
                    lemma_pair_done_rollover(wsv, wi + 1, l, m);
                    if pair_done(wsv, wi as int, pn as int, l, m) {
                        let (a, b) = choose|a: int, b: int|
                            #![trigger wsv[a][b]]
                            0 <= a < wsv.len() && 0 <= b < wsv[a].len() && (a < wi as int || (a
                                == wi as int && b < pn as int)) && wsv[a][b] == (l, m);
                        assert(pair_done(wsv, wi + 1, 0, l, m));
                    }
                    if pair_done(wsv, wi + 1, 0, l, m) {
                        let (a, b) = choose|a: int, b: int|
                            #![trigger wsv[a][b]]
                            0 <= a < wsv.len() && 0 <= b < wsv[a].len() && a < wi + 1 && wsv[a][b]
                                == (l, m);
                        assert(pair_done(wsv, wi as int, pn as int, l, m));
                    }
                }
            }
            wi += 1;
        }
        let ghost results_snap = results;
        if use_observer {
            let duration = elapsed_nanos(&slice_start);
            results.set_duration(duration);
            self.observer.emit(
                &EngineEvent::SliceComplete {
                    slice: slice.get_name().to_owned(),
                    duration_nanos: duration,
                },
            );
        }
        proof {
            lemma_rounds_multiset(self.graph(), parts, Set::empty(), rsv);
            assert forall|l: Seq<char>, m: Seq<char>| #[trigger] results.spec_has(l, m)
                <==> invoked_pair(parts, *slice, l, m) by {
                lemma_waves_pairs_iff(rsv, parts, *slice, l, m);
                assert(results.results() == results_snap.results());
                assert(results_snap.spec_has(l, m) <==> pair_done(wsv, wn as int, 0, l, m));
                assert(results.spec_has(l, m) <==> pair_done(wsv, wn as int, 0, l, m));
                if pair_done(wsv, wn as int, 0, l, m) {
                    let (a, b) = choose|a: int, b: int|
                        #![trigger wsv[a][b]]
                        0 <= a < wsv.len() && 0 <= b < wsv[a].len() && a < wn as int && wsv[a][b]
                            == (l, m);
                    assert(waves_pair_at(wsv, a, b, l, m));
                    assert(waves_has_pair(wsv, l, m));
                }
                if waves_has_pair(wsv, l, m) {
                    let (a, b) = choose|a: int, b: int|
                        #![trigger wsv[a][b]]
                        0 <= a < wsv.len() && 0 <= b < wsv[a].len() && wsv[a][b] == (l, m);
                    assert(pair_done(wsv, wn as int, 0, l, m));
                }
            }
        }
        Ok(results)
    }

    /// Resolves and invokes one (layer, method) pair of a slice: looks the
    /// layer up, resolves the argument against the declared default, and
    /// calls the bound capability with the slice's context.
    pub fn execute_method(
        &self,
        slice: &Slice,
        layer_name: &str,
        method_name: &str,
        ctx: &mut Context,
    ) -> (r: Result<Value, Error>)
        ensures
            !self.layer_names().contains(layer_name@) ==> (r matches Err(Error::LayerNotFound(l))
                && l@ == layer_name@),
            self.layer_names().contains(layer_name@) && !slice.spec_has_layer(layer_name@) ==> (
            r matches Err(Error::LayerNotFound(l)) && l@ == layer_name@),
            self.layer_names().contains(layer_name@) && slice.spec_has_layer(layer_name@)
                && slice.spec_method_arg(layer_name@, method_name@) is None ==> (r matches Err(
                Error::MethodNotFound { method, layer },
            ) && method@ == method_name@ && layer@ == layer_name@),
            self.layer_names().contains(layer_name@) && slice.spec_method_arg(
                layer_name@,
                method_name@,
            ) is Some && !self.spec_layer(layer_name@)->Some_0.spec_is_bound(method_name@) ==> (
            r matches Err(Error::MethodNotBound(m, l)) && m@ == method_name@ && l@ == layer_name@),
            self.layer_names().contains(layer_name@) && slice.spec_method_arg(
                layer_name@,
                method_name@,
            ) == Some(SpecValue::Null) && self.spec_layer(layer_name@)->Some_0.spec_is_bound(
                method_name@,
            ) && self.spec_layer(layer_name@)->Some_0.default_of(method_name@) is None ==> (
            r matches Err(Error::ConfigError(m)) && m@
                == "method with no defaults called with null"@),
    {
        let layer = match self.find_layer(layer_name) {
            Some(l) => l,
            None => {
                return Err(Error::LayerNotFound(layer_name.to_owned()));
            },
        };
        let slice_args = match slice.get_method_arg(layer_name, method_name) {
            Ok(v) => v,
            Err(e) => {
                return Err(e);
            },
        };
        if slice_args.is_null() {
            layer.execute_with_default(method_name, ctx)
        } else {
            match layer.get_default_args(method_name) {
                Some(default_args) => {
                    let merged = merge_args(default_args, slice_args);
                    layer.execute(method_name, &merged, ctx)
                },
                None => {
                    let verbatim = slice_args.deep_clone();
                    layer.execute(method_name, &verbatim, ctx)
                },
            }
        }
    }

    /// As `execute_method`, but surrounded by method lifecycle events and
    /// timing, with any failure wrapped once with its invocation context.
    pub fn observe_execute_method(
        &self,
        slice: &Slice,
        layer_name: &str,
        method_name: &str,
        ctx: &mut Context,
    ) -> (r: Result<Value, Error>)
        ensures
            r matches Err(e) ==> e is MethodExecutionFailed,
            !self.layer_names().contains(layer_name@) ==> (r matches Err(e)
                && e.spec_root_cause() matches Error::LayerNotFound(l) && l@ == layer_name@),
    {
        let start = Instant::now();
        let slice_name = slice.get_name().to_owned();
        self.observer.emit(
            &EngineEvent::MethodStart {
                slice: slice_name.clone(),
                layer: layer_name.to_owned(),
                method: method_name.to_owned(),
            },
        );
        let inner = self.execute_method(slice, layer_name, method_name, ctx);
        let result: Result<Value, Error> = match inner {
            Ok(v) => Ok(v),
            Err(e) => {
                if e.is_execution_error() {
                    Err(e)
                } else {
                    // wrap once with the invocation context
                    let args = match slice.get_method_arg(layer_name, method_name) {
                        Ok(v) => v.deep_clone(),
                        Err(_) => Value::null(),
                    };
                    let ghost cause = e;
                    let wrapped = e.with_context(
                        slice_name.as_str(),
                        layer_name,
                        method_name,
                        args,
                    );
                    proof {
                        assert(wrapped.spec_root_cause() == cause.spec_root_cause());
                    }
                    Err(wrapped)
                }
            },
        };
        match &result {
            Ok(_) => {
                self.observer.emit(
                    &EngineEvent::MethodComplete {
                        slice: slice_name,
                        layer: layer_name.to_owned(),
                        method: method_name.to_owned(),
                        duration_nanos: elapsed_nanos(&start),
                    },
                );
            },
            Err(e) => {
                self.observer.emit(
                    &EngineEvent::MethodFailed {
                        slice: slice_name,
                        layer: layer_name.to_owned(),
                        method: method_name.to_owned(),
                        error: e.describe(),
                    },
                );
            },
        }
        result
    }

    /// The registered slice names, in registration order.
    pub fn get_slice_names(&self) -> (r: Vec<String>)
        ensures
            r@.len() == self.slices_seq().len(),
            forall|j: int|
                0 <= j < r@.len() ==> (#[trigger] r@[j])@ == self.slices_seq()[j].spec_name(),
    {
        let n = self.slices.len();
        let mut r: Vec<String> = Vec::new();
        let mut i: usize = 0;
        while i < n
            invariant
                n == self.slices.len(),
                i <= n,
                r@.len() == i,
                forall|j: int|
                    0 <= j < i ==> (#[trigger] r@[j])@ == self.slices@[j].spec_name(),
            decreases n - i,
        {
            r.push(self.slices[i].get_name().to_owned());
            i += 1;
        }
        r
    }

    /// The recorded dependencies of a layer, if any were declared.
    pub fn get_dependencies(&self, layer: &str) -> (r: Option<&Vec<String>>)
        ensures
            match r {
                Some(v) => deps_of(self.graph(), layer@) == names_view(v@),
                None => deps_of(self.graph(), layer@) == Seq::<Seq<char>>::empty(),
            },
    {
        let ghost g = self.graph();
        match crate::strutil::alist_find(&self.dependencies, layer) {
            Some(i) => {
                proof {
                    assert(g[i as int].0 == layer@);
                    assert forall|j: int| 0 <= j < i implies (#[trigger] g[j]).0 != layer@ by {
                        assert(g[j].0 == self.dependencies@[j].0@);
                    }
                    lemma_deps_first_match(g, layer@, i as int);
                }
                Some(&self.dependencies[i].1)
            },
            None => {
                proof {
                    assert forall|j: int| 0 <= j < g.len() implies (#[trigger] g[j]).0
                        != layer@ by {
                        assert(g[j].0 == self.dependencies@[j].0@);
                    }
                    lemma_deps_absent(g, layer@);
                }
                None
            },
        }
    }
}

/// The layers of the ordering that the slice participates in, order kept.
pub open spec fn participating(order: Seq<Seq<char>>, s: Slice) -> Seq<Seq<char>>
    decreases order.len(),
{
    if order.len() == 0 {
        Seq::empty()
    } else {
        let rest = participating(order.drop_last(), s);
        if s.spec_has_layer(order.last()) {
            rest.push(order.last())
        } else {
            rest
        }
    }
}

/// Members of the participating list are participating layers of the order.
pub proof fn lemma_participating_members(order: Seq<Seq<char>>, s: Slice)
    ensures
        forall|i: int|
            0 <= i < participating(order, s).len() ==> s.spec_has_layer(
                #[trigger] participating(order, s)[i],
            ) && order.contains(participating(order, s)[i]),
    decreases order.len(),
{
    if order.len() > 0 {
        lemma_participating_members(order.drop_last(), s);
        let rest = participating(order.drop_last(), s);
        assert forall|i: int|
            0 <= i < participating(order, s).len() implies s.spec_has_layer(
            #[trigger] participating(order, s)[i],
        ) && order.contains(participating(order, s)[i]) by {
            if s.spec_has_layer(order.last()) && i == rest.len() {
                assert(participating(order, s)[i] == order.last());
                assert(order[order.len() - 1] == order.last());
            } else {
                assert(participating(order, s)[i] == rest[i]);
                assert(order.drop_last().contains(rest[i]));
                let j = choose|j: int|
                    0 <= j < order.drop_last().len() && order.drop_last()[j] == rest[i];
                assert(order[j] == rest[i]);
            }
        }
    }
}

/// The schedule entries a slice's round contributes for one layer.
pub open spec fn pairs_of(s: Slice, l: Seq<char>) -> Seq<(Seq<char>, Seq<char>)> {
    match s.spec_layer_methods(l) {
        Some(ms) => ms.map_values(|p: (Seq<char>, SpecValue)| (l, p.0)),
        None => Seq::empty(),
    }
}

/// All schedule entries of the layers of one round, in round order.
pub open spec fn wave_of_round(s: Slice, round: Seq<Seq<char>>) -> Seq<(Seq<char>, Seq<char>)>
    decreases round.len(),
{
    if round.len() == 0 {
        Seq::empty()
    } else {
        wave_of_round(s, round.drop_last()) + pairs_of(s, round.last())
    }
}

/// The waves of a slice: its rounds expanded to schedule entries.
pub open spec fn waves_of(s: Slice, rs: Seq<Seq<Seq<char>>>) -> Seq<Seq<(Seq<char>, Seq<char>)>> {
    rs.map_values(|round: Seq<Seq<char>>| wave_of_round(s, round))
}

/// Model of one wave.
pub open spec fn pairs_view(w: Seq<(String, String)>) -> Seq<(Seq<char>, Seq<char>)> {
    w.map_values(|p: (String, String)| (p.0@, p.1@))
}

/// Model of a list of waves.
pub open spec fn waves_view(ws: Seq<Vec<(String, String)>>) -> Seq<Seq<(Seq<char>, Seq<char>)>> {
    ws.map_values(|w: Vec<(String, String)>| pairs_view(w@))
}

/// The slice invokes the pair (l, m) somewhere in this round.
pub open spec fn round_invokes(s: Slice, round: Seq<Seq<char>>, l: Seq<char>, m: Seq<char>) -> bool {
    exists|li: int, mi: int|
        #![trigger round[li], (s.spec_layer_methods(l)->Some_0)[mi]]
        0 <= li < round.len() && round[li] == l && s.spec_layer_methods(l) is Some && 0 <= mi < (
        s.spec_layer_methods(l)->Some_0).len() && (s.spec_layer_methods(l)->Some_0)[mi].0 == m
}

/// A pair sits in a round's wave exactly when its layer sits in the round
/// and its method is one the slice invokes on that layer.
pub proof fn lemma_wave_membership(s: Slice, round: Seq<Seq<char>>, l: Seq<char>, m: Seq<char>)
    ensures
        wave_of_round(s, round).contains((l, m)) <==> round_invokes(s, round, l, m),
    decreases round.len(),
{
    if round.len() > 0 {
        lemma_wave_membership(s, round.drop_last(), l, m);
        let rest = wave_of_round(s, round.drop_last());
        let tail = pairs_of(s, round.last());
        if wave_of_round(s, round).contains((l, m)) {
            let i = choose|i: int|
                0 <= i < wave_of_round(s, round).len() && wave_of_round(s, round)[i] == (l, m);
            if i < rest.len() {
                assert(rest[i] == (l, m));
                assert(rest.contains((l, m)));
                assert(round_invokes(s, round.drop_last(), l, m));
                let (li, mi) = choose|li: int, mi: int|
                    #![trigger round.drop_last()[li], (s.spec_layer_methods(l)->Some_0)[mi]]
                    0 <= li < round.drop_last().len() && round.drop_last()[li] == l
                        && s.spec_layer_methods(l) is Some && 0 <= mi < (
                    s.spec_layer_methods(l)->Some_0).len() && (s.spec_layer_methods(
                        l,
                    )->Some_0)[mi].0 == m;
                assert(round[li] == l);
                assert(round_invokes(s, round, l, m));
            } else {
                let mi = i - rest.len();
                assert(tail[mi] == (l, m));
                assert(s.spec_layer_methods(round.last()) is Some);
                assert(round.last() == l);
                assert(round[round.len() - 1] == l);
                assert((s.spec_layer_methods(l)->Some_0)[mi].0 == m);
                assert(round_invokes(s, round, l, m));
            }
        }
        if round_invokes(s, round, l, m) {
            let (li, mi) = choose|li: int, mi: int|
                #![trigger round[li], (s.spec_layer_methods(l)->Some_0)[mi]]
                0 <= li < round.len() && round[li] == l && s.spec_layer_methods(l) is Some && 0
                    <= mi < (s.spec_layer_methods(l)->Some_0).len() && (s.spec_layer_methods(
                    l,
                )->Some_0)[mi].0 == m;
            if li < round.len() - 1 {
                assert(round.drop_last()[li] == l);
                assert(round_invokes(s, round.drop_last(), l, m));
                assert(rest.contains((l, m)));
                let i = choose|i: int| 0 <= i < rest.len() && rest[i] == (l, m);
                assert(wave_of_round(s, round)[i] == (l, m));
            } else {
                assert(round.last() == l);
                assert(tail[mi] == (l, m));
                assert(wave_of_round(s, round)[rest.len() + mi] == (l, m));
            }
            assert(wave_of_round(s, round).contains((l, m)));
        }
    }
}

/// An element of some round is in the flat ordering, and back.
pub proof fn lemma_flat_membership(rs: Seq<Seq<Seq<char>>>, l: Seq<char>)
    ensures
        flat_rounds(rs).contains(l) <==> exists|wi: int, li: int|
            #![trigger rs[wi][li]]
            0 <= wi < rs.len() && 0 <= li < rs[wi].len() && rs[wi][li] == l,
    decreases rs.len(),
{
    if rs.len() > 0 {
        lemma_flat_membership(rs.drop_first(), l);
        let head = rs.first();
        let rest = flat_rounds(rs.drop_first());
        assert(forall|j: int|
            0 <= j < rs.drop_first().len() ==> #[trigger] rs.drop_first()[j] == rs[j + 1]);
        if flat_rounds(rs).contains(l) {
            let i = choose|i: int|
                0 <= i < flat_rounds(rs).len() && flat_rounds(rs)[i] == l;
            if i < head.len() {
                assert(rs[0][i] == l);
            } else {
                assert(rest[i - head.len()] == l);
                assert(rest.contains(l));
                let (wi, li) = choose|wi: int, li: int|
                    #![trigger rs.drop_first()[wi][li]]
                    0 <= wi < rs.drop_first().len() && 0 <= li < rs.drop_first()[wi].len()
                        && rs.drop_first()[wi][li] == l;
                assert(rs[wi + 1][li] == l);
            }
        }
        if exists|wi: int, li: int|
            #![trigger rs[wi][li]]
            0 <= wi < rs.len() && 0 <= li < rs[wi].len() && rs[wi][li] == l {
            let (wi, li) = choose|wi: int, li: int|
                #![trigger rs[wi][li]]
                0 <= wi < rs.len() && 0 <= li < rs[wi].len() && rs[wi][li] == l;
            if wi == 0 {
                assert(flat_rounds(rs)[li] == l);
            } else {
                assert(rs.drop_first()[wi - 1][li] == l);
                assert(rest.contains(l));
                let i = choose|i: int| 0 <= i < rest.len() && rest[i] == l;
                assert(flat_rounds(rs)[head.len() + i] == l);
            }
            assert(flat_rounds(rs).contains(l));
        }
    }
}

/// The slice invokes method `m` on layer `l`, for a participating layer.
pub open spec fn invoked_pair(parts: Seq<Seq<char>>, s: Slice, l: Seq<char>, m: Seq<char>) -> bool {
    parts.contains(l) && s.spec_layer_methods(l) is Some && exists|mi: int|
        0 <= mi < (s.spec_layer_methods(l)->Some_0).len() && (#[trigger] (
        s.spec_layer_methods(l)->Some_0)[mi]).0 == m
}

/// The pair sits at position (a, b) of the waves.
pub open spec fn waves_pair_at(
    ws: Seq<Seq<(Seq<char>, Seq<char>)>>,
    a: int,
    b: int,
    l: Seq<char>,
    m: Seq<char>,
) -> bool {
    0 <= a < ws.len() && 0 <= b < ws[a].len() && ws[a][b] == (l, m)
}

/// The pair occurs somewhere in the waves.
pub open spec fn waves_has_pair(
    ws: Seq<Seq<(Seq<char>, Seq<char>)>>,
    l: Seq<char>,
    m: Seq<char>,
) -> bool {
    exists|a: int, b: int|
        #![trigger ws[a][b]]
        0 <= a < ws.len() && 0 <= b < ws[a].len() && ws[a][b] == (l, m)
}

/// The pair occurs in the waves before position (wi, pi).
pub open spec fn pair_done(
    ws: Seq<Seq<(Seq<char>, Seq<char>)>>,
    wi: int,
    pi: int,
    l: Seq<char>,
    m: Seq<char>,
) -> bool {
    exists|a: int, b: int|
        #![trigger ws[a][b]]
        0 <= a < ws.len() && 0 <= b < ws[a].len() && (a < wi || (a == wi && b < pi)) && ws[a][b]
            == (l, m)
}

/// The pairs before the start of wave `wi` are the pairs before the end of
/// wave `wi - 1`.
proof fn lemma_pair_done_rollover(
    ws: Seq<Seq<(Seq<char>, Seq<char>)>>,
    wi: int,
    l: Seq<char>,
    m: Seq<char>,
)
    ensures
        wi > 0 && wi <= ws.len() ==> (pair_done(ws, wi, 0, l, m) <==> pair_done(
            ws,
            wi - 1,
            ws[wi - 1].len() as int,
            l,
            m,
        )),
        wi == 0 ==> !pair_done(ws, 0, 0, l, m),
{
    if wi > 0 && wi <= ws.len() {
        if pair_done(ws, wi, 0, l, m) {
            let (a, b) = choose|a: int, b: int|
                #![trigger ws[a][b]]
                0 <= a < ws.len() && 0 <= b < ws[a].len() && a < wi && ws[a][b] == (l, m);
            assert(pair_done(ws, wi - 1, ws[wi - 1].len() as int, l, m));
        }
        if pair_done(ws, wi - 1, ws[wi - 1].len() as int, l, m) {
            let (a, b) = choose|a: int, b: int|
                #![trigger ws[a][b]]
                0 <= a < ws.len() && 0 <= b < ws[a].len() && (a < wi - 1 || (a == wi - 1 && b < ws[
                    wi - 1].len())) && ws[a][b] == (l, m);
            assert(pair_done(ws, wi, 0, l, m));
        }
    }
}

/// What running one slice guarantees: exactly the slice's invoked pairs get
/// a result slot when scheduling succeeds, and scheduling fails exactly
/// when the wave computation does, with a configuration error.
pub open spec fn slice_exec_post(
    g: GraphV,
    order_v: Seq<Seq<char>>,
    s: Slice,
    r: Result<crate::results::SliceResults, Error>,
) -> bool {
    match r {
        Ok(sr) => rounds_from(g, participating(order_v, s), Set::empty()) is Some && forall|
            l: Seq<char>,
            m: Seq<char>,
        | #[trigger] sr.spec_has(l, m) <==> invoked_pair(participating(order_v, s), s, l, m),
        Err(e) => rounds_from(g, participating(order_v, s), Set::empty()) is None
            && e is ConfigError,
    }
}

/// A pair occurs in the expanded waves exactly when the slice invokes it on
/// a participating layer.
proof fn lemma_waves_pairs_iff(
    rsv: Seq<Seq<Seq<char>>>,
    parts: Seq<Seq<char>>,
    s: Slice,
    l: Seq<char>,
    m: Seq<char>,
)
    requires
        flat_rounds(rsv).to_multiset() == parts.to_multiset(),
    ensures
        waves_has_pair(waves_of(s, rsv), l, m) <==> invoked_pair(parts, s, l, m),
{
    broadcast use vstd::seq_lib::group_to_multiset_ensures;

    let ws = waves_of(s, rsv);
    lemma_flat_membership(rsv, l);
    if waves_has_pair(ws, l, m) {
        let (a, b) = choose|a: int, b: int|
            #![trigger ws[a][b]]
            0 <= a < ws.len() && 0 <= b < ws[a].len() && ws[a][b] == (l, m);
        assert(ws[a] == wave_of_round(s, rsv[a]));
        assert(wave_of_round(s, rsv[a]).contains((l, m)));
        lemma_wave_membership(s, rsv[a], l, m);
        let (li, mi) = choose|li: int, mi: int|
            #![trigger rsv[a][li], (s.spec_layer_methods(l)->Some_0)[mi]]
            0 <= li < rsv[a].len() && rsv[a][li] == l && s.spec_layer_methods(l) is Some && 0 <= mi
                < (s.spec_layer_methods(l)->Some_0).len() && (s.spec_layer_methods(
                l,
            )->Some_0)[mi].0 == m;
        assert(flat_rounds(rsv).contains(l));
        assert(flat_rounds(rsv).to_multiset().count(l) > 0);
        assert(parts.to_multiset().count(l) > 0);
        assert(parts.contains(l));
        assert(invoked_pair(parts, s, l, m));
    }
    if invoked_pair(parts, s, l, m) {
        assert(parts.to_multiset().count(l) > 0);
        assert(flat_rounds(rsv).to_multiset().count(l) > 0);
        assert(flat_rounds(rsv).contains(l));
        let (a, li) = choose|a: int, li: int|
            #![trigger rsv[a][li]]
            0 <= a < rsv.len() && 0 <= li < rsv[a].len() && rsv[a][li] == l;
        lemma_wave_membership(s, rsv[a], l, m);
        let mi = choose|mi: int|
            0 <= mi < (s.spec_layer_methods(l)->Some_0).len() && (#[trigger] (
            s.spec_layer_methods(l)->Some_0)[mi]).0 == m;
        assert(round_invokes(s, rsv[a], l, m)) by {
            assert(rsv[a][li] == l && (s.spec_layer_methods(l)->Some_0)[mi].0 == m);
        }
        assert(wave_of_round(s, rsv[a]).contains((l, m)));
        let b = choose|b: int|
            0 <= b < wave_of_round(s, rsv[a]).len() && wave_of_round(s, rsv[a])[b] == (l, m);
        assert(ws[a][b] == (l, m));
        assert(waves_has_pair(ws, l, m));
    }
}

/// The declared defaults with every key the override table also carries
/// replaced by the override's value.
pub open spec fn updated_defaults(
    d: Seq<(Seq<char>, SpecValue)>,
    o: Seq<(Seq<char>, SpecValue)>,
) -> Seq<(Seq<char>, SpecValue)>
    decreases d.len(),
{
    if d.len() == 0 {
        Seq::empty()
    } else {
        updated_defaults(d.drop_last(), o).push(
            (
                d.last().0,
                if sv_lookup(o, d.last().0) is Some {
                    sv_lookup(o, d.last().0)->Some_0
                } else {
                    d.last().1
                },
            ),
        )
    }
}

/// The override entries whose keys the default table does not carry.
pub open spec fn extra_overrides(
    o: Seq<(Seq<char>, SpecValue)>,
    d: Seq<(Seq<char>, SpecValue)>,
) -> Seq<(Seq<char>, SpecValue)>
    decreases o.len(),
{
    if o.len() == 0 {
        Seq::empty()
    } else {
        let rest = extra_overrides(o.drop_last(), d);
        if sv_lookup(d, o.last().0) is None {
            rest.push(o.last())
        } else {
            rest
        }
    }
}

/// The entry list of a shallow key-by-key merge, overrides winning.
pub open spec fn merged_entries(
    d: Seq<(Seq<char>, SpecValue)>,
    o: Seq<(Seq<char>, SpecValue)>,
) -> Seq<(Seq<char>, SpecValue)> {
    updated_defaults(d, o) + extra_overrides(o, d)
}

/// The resolved argument: two objects merge shallowly with the override
/// winning key by key; a null override keeps the defaults; any other
/// override is taken verbatim.
pub open spec fn spec_merge(dv: SpecValue, ov: SpecValue) -> SpecValue {
    if dv is Object && ov is Object {
        SpecValue::Object(merged_entries(dv.entries(), ov.entries()))
    } else if ov is Null {
        dv
    } else {
        ov
    }
}

/// Lookup distributes over concatenation, first part winning.
proof fn lemma_sv_lookup_concat(
    a: Seq<(Seq<char>, SpecValue)>,
    b: Seq<(Seq<char>, SpecValue)>,
    k: Seq<char>,
)
    ensures
        sv_lookup(a + b, k) == if sv_lookup(a, k) is Some {
            sv_lookup(a, k)
        } else {
            sv_lookup(b, k)
        },
    decreases a.len(),
{
    if a.len() == 0 {
        assert(a + b =~= b);
    } else {
        assert((a + b)[0] == a[0]);
        assert((a + b).drop_first() =~= a.drop_first() + b);
        lemma_sv_lookup_concat(a.drop_first(), b, k);
    }
}

/// Lookup in the updated defaults: present exactly for default keys, with
/// the override's value when the override also carries the key.
proof fn lemma_updated_lookup(
    d: Seq<(Seq<char>, SpecValue)>,
    o: Seq<(Seq<char>, SpecValue)>,
    k: Seq<char>,
)
    ensures
        sv_lookup(updated_defaults(d, o), k) == (match sv_lookup(d, k) {
            Some(v) => Some(
                if sv_lookup(o, k) is Some {
                    sv_lookup(o, k)->Some_0
                } else {
                    v
                },
            ),
            None => None,
        }),
    decreases d.len(),
{
    if d.len() > 0 {
        lemma_updated_lookup(d.drop_last(), o, k);
        let p = (
            d.last().0,
            if sv_lookup(o, d.last().0) is Some {
                sv_lookup(o, d.last().0)->Some_0
            } else {
                d.last().1
            },
        );
        lemma_sv_lookup_push(updated_defaults(d.drop_last(), o), p, k);
        assert(d =~= d.drop_last().push(d.last()));
        lemma_sv_lookup_push(d.drop_last(), d.last(), k);
    }
}

/// Lookup in the extra overrides, for keys the defaults lack.
proof fn lemma_extras_lookup(
    o: Seq<(Seq<char>, SpecValue)>,
    d: Seq<(Seq<char>, SpecValue)>,
    k: Seq<char>,
)
    requires
        sv_lookup(d, k) is None,
    ensures
        sv_lookup(extra_overrides(o, d), k) == sv_lookup(o, k),
    decreases o.len(),
{
    if o.len() > 0 {
        lemma_extras_lookup(o.drop_last(), d, k);
        assert(o =~= o.drop_last().push(o.last()));
        lemma_sv_lookup_push(o.drop_last(), o.last(), k);
        if sv_lookup(d, o.last().0) is None {
            lemma_sv_lookup_push(extra_overrides(o.drop_last(), d), o.last(), k);
        } else {
            assert(o.last().0 != k);
        }
    }
}

/// The merge law: on two objects the resolved argument carries every key of
/// either side, the override's value winning key by key.
pub proof fn lemma_merge_object_get(dv: SpecValue, ov: SpecValue, k: Seq<char>)
    requires
        dv is Object,
        ov is Object,
    ensures
        spec_merge(dv, ov).get_key(k) == if ov.get_key(k) is Some {
            ov.get_key(k)
        } else {
            dv.get_key(k)
        },
{
    let d = dv.entries();
    let o = ov.entries();
    lemma_sv_lookup_concat(updated_defaults(d, o), extra_overrides(o, d), k);
    lemma_updated_lookup(d, o, k);
    if sv_lookup(d, k) is None {
        lemma_extras_lookup(o, d, k);
    }
}

/// Resolves the final argument of an invocation from the declared default
/// and the slice's override.
pub fn merge_args(defaults: &Value, overrides: &Value) -> (r: Value)
    ensures
        r@ == spec_merge(defaults@, overrides@),
{
    match (defaults, overrides) {
        (Value::Object(dents), Value::Object(oents)) => {
            let ghost dv = entries_view(dents@);
            let ghost ov = entries_view(oents@);
            proof {
                lemma_entries_view_len(dents@);
                lemma_entries_view_len(oents@);
            }
            let mut out: Vec<(String, Value)> = Vec::new();
            proof {
                assert(dv.take(0) =~= Seq::<(Seq<char>, SpecValue)>::empty());
                assert(entries_view(out@) =~= updated_defaults(dv.take(0), ov));
            }
            let dn = dents.len();
            let mut i: usize = 0;
            while i < dn
                invariant
                    dn == dents.len(),
                    dv == entries_view(dents@),
                    ov == entries_view(oents@),
                    dv.len() == dn,
                    i <= dn,
                    entries_view(out@) == updated_defaults(dv.take(i as int), ov),
                decreases dn - i,
            {
                proof {
                    assert(dv.take(i + 1) =~= dv.take(i as int).push(dv[i as int]));
                    assert(dv.take(i + 1).drop_last() =~= dv.take(i as int));
                    lemma_entries_view_index(dents@, i as int);
                }
                let ghost out0 = out@;
                let key = dents[i].0.clone();
                let newv = match entries_get(oents, key.as_str()) {
                    Some(v) => v.deep_clone(),
                    None => dents[i].1.deep_clone(),
                };
                out.push((key, newv));
                proof {
                    assert(out@.drop_last() =~= out0);
                    assert(entries_view(out@) == entries_view(out0).push(
                        (dv[i as int].0, newv@),
                    ));
                    assert(entries_view(out@) =~= updated_defaults(dv.take(i + 1), ov));
                }
                i += 1;
            }
            proof {
                assert(dv.take(dn as int) =~= dv);
                assert(ov.take(0) =~= Seq::<(Seq<char>, SpecValue)>::empty());
                assert(extra_overrides(ov.take(0), dv) == Seq::<(Seq<char>, SpecValue)>::empty());
                assert(entries_view(out@) =~= updated_defaults(dv, ov) + extra_overrides(
                    ov.take(0),
                    dv,
                ));
            }
            let on = oents.len();
            let mut k: usize = 0;
            while k < on
                invariant
                    on == oents.len(),
                    dv == entries_view(dents@),
                    ov == entries_view(oents@),
                    ov.len() == on,
                    k <= on,
                    entries_view(out@) == updated_defaults(dv, ov) + extra_overrides(
                        ov.take(k as int),
                        dv,
                    ),
                decreases on - k,
            {
                proof {
                    assert(ov.take(k + 1) =~= ov.take(k as int).push(ov[k as int]));
                    assert(ov.take(k + 1).drop_last() =~= ov.take(k as int));
                    lemma_entries_view_index(oents@, k as int);
                }
                let ghost out0 = out@;
                if entries_get(dents, oents[k].0.as_str()).is_none() {
                    out.push((oents[k].0.clone(), oents[k].1.deep_clone()));
                    proof {
                        assert(out@.drop_last() =~= out0);
                        assert(entries_view(out@) == entries_view(out0).push(ov[k as int]));
                        assert(entries_view(out@) =~= updated_defaults(dv, ov) + extra_overrides(
                            ov.take(k + 1),
                            dv,
                        ));
                    }
                } else {
                    proof {
                        assert(entries_view(out@) =~= updated_defaults(dv, ov) + extra_overrides(
                            ov.take(k + 1),
                            dv,
                        ));
                    }
                }
                k += 1;
            }
            proof {
                assert(ov.take(on as int) =~= ov);
            }
            Value::Object(out)
        },
        (_, Value::Null) => defaults.deep_clone(),
        _ => overrides.deep_clone(),
    }
}

impl<F: MethodFn + Send + Sync, S: EventSink + Send + Sync> Engine<F, S> {
    /// No two registered slices share a name.
    pub open spec fn slice_names_unique(&self) -> bool {
        forall|i: int, j: int|
            0 <= i < j < self.slices_seq().len() ==> (#[trigger] self.slices_seq()[i]).spec_name()
                != (#[trigger] self.slices_seq()[j]).spec_name()
    }

    /// What a run guarantees: every registered slice name has a recorded
    /// outcome; every slice that is the last of its name (on a collision
    /// the later slice wins; with unique names, every slice) has the
    /// outcome of its own execution, satisfying [`slice_exec_post`] under
    /// the engine's ordering; and the result holds outcomes only for
    /// registered slice names.
    pub open spec fn run_post(&self, rr: RunResults) -> bool {
        &&& forall|i: int|
            0 <= i < self.slices_seq().len() ==> rr.spec_get(
                (#[trigger] self.slices_seq()[i]).spec_name(),
            ) is Some
        &&& forall|i: int|
            #![trigger self.slices_seq()[i]]
            0 <= i < self.slices_seq().len() && (forall|j: int|
                i < j < self.slices_seq().len() ==> (#[trigger] self.slices_seq()[j]).spec_name()
                    != self.slices_seq()[i].spec_name()) ==> (rr.spec_get(
                self.slices_seq()[i].spec_name(),
            ) matches Some(res) && slice_exec_post(
                self.graph(),
                self.spec_order(),
                self.slices_seq()[i],
                res,
            ))
        &&& forall|j: int|
            #![trigger rr.slices_view()[j]]
            0 <= j < rr.slices_view().len() ==> exists|i: int|
                #![trigger self.slices_seq()[i]]
                0 <= i < self.slices_seq().len() && self.slices_seq()[i].spec_name()
                    == rr.slices_view()[j].0
    }

    /// Runs one batch of slices concurrently, on the dedicated pool when
    /// one was built, chunked when configured.
    fn run_batch(
        &self,
        order: &Vec<String>,
        start: usize,
        end: usize,
        use_observer: bool,
        pool: &Option<rayon::ThreadPool>,
    ) -> (r: Vec<(String, Result<SliceResults, Error>)>)
        requires
            start <= end <= self.slices_seq().len(),
        ensures
            r@.len() == end - start,
            forall|i: int|
                0 <= i < r@.len() ==> (#[trigger] r@[i]).0@ == self.slices_seq()[start
                    + i].spec_name() && slice_exec_post(
                    self.graph(),
                    names_view(order@),
                    self.slices_seq()[start + i],
                    r@[i].1,
                ),
    {
        let chunk = self.config.chunk_size;
        match pool {
            Some(p) => {
                if chunk > 1 {
                    par_slices_pooled_chunked(p, self, order, start, end, chunk, use_observer)
                } else {
                    par_slices_pooled(p, self, order, start, end, use_observer)
                }
            },
            None => {
                if chunk > 1 {
                    par_slices_chunked(self, order, start, end, chunk, use_observer)
                } else {
                    par_slices(self, order, start, end, use_observer)
                }
            },
        }
    }

    /// Runs every slice, batches strictly in sequence, slices of a batch
    /// concurrently, without progress rendering.
    pub fn run_silent(&self, use_observer: bool) -> (rr: RunResults)
        requires
            self.wf(),
            self.schedulable(),
            self.spec_config().batch_size != Some(0usize),
        ensures
            self.run_post(rr),
    {
        let mut tracker = crate::tracker::ProgressTracker::new(self.slices.len());
        self.run_batches(use_observer, false, &mut tracker)
    }

    /// Runs every slice with live progress rendering and a final summary.
    pub fn run_with_progress(&self, use_observer: bool) -> (rr: RunResults)
        requires
            self.wf(),
            self.schedulable(),
            self.spec_config().batch_size != Some(0usize),
        ensures
            self.run_post(rr),
    {
        let run_start = Instant::now();
        let mut tracker = crate::tracker::ProgressTracker::new(self.slices.len());
        tracker.print_header();
        let rr = self.run_batches(use_observer, true, &mut tracker);
        tracker.set_run_time(elapsed_nanos(&run_start));
        tracker.print_summary(&rr);
        rr
    }

    /// Runs every slice, batches strictly in sequence, slices of a batch
    /// concurrently; when tracking, the progress tracker counts each
    /// finished slice as its batch is drained.
    fn run_batches(
        &self,
        use_observer: bool,
        track: bool,
        tracker: &mut crate::tracker::ProgressTracker,
    ) -> (rr: RunResults)
        requires
            self.wf(),
            self.schedulable(),
            self.spec_config().batch_size != Some(0usize),
            old(tracker).spec_completed() == 0,
            old(tracker).spec_failed() == 0,
        ensures
            self.run_post(rr),
    {
        let pool = match self.config.build_thread_pool() {
            Ok(p) => Some(p),
            Err(_) => None,
        };
        let order = match self.topological_sort() {
            Ok(o) => o,
            Err(_) => {
                // unreachable: the caller guarantees a schedulable engine
                proof {
                    assert(false);
                }
                vstd::pervasive::unreached()
            },
        };
        proof {
            assert(names_view(order@) == self.spec_order());
        }
        let total = self.slices.len();
        let bsize: usize = match self.config.batch_size {
            Some(b) => b,
            None => if total == 0 {
                1
            } else {
                total
            },
        };
        let mut rr = RunResults::new();
        let mut start: usize = 0;
        while start < total
            invariant
                total == self.slices_seq().len(),
                names_view(order@) == self.spec_order(),
                bsize >= 1,
                start <= total,
                tracker.spec_completed() + tracker.spec_failed() <= start,
                forall|j: int|
                    0 <= j < start ==> rr.spec_get(
                        (#[trigger] self.slices_seq()[j]).spec_name(),
                    ) is Some,
                forall|i2: int|
                    #![trigger self.slices_seq()[i2]]
                    0 <= i2 < start && (forall|j2: int|
                        i2 < j2 < self.slices_seq().len() ==> (
                        #[trigger] self.slices_seq()[j2]).spec_name()
                            != self.slices_seq()[i2].spec_name()) ==> (rr.spec_get(
                        self.slices_seq()[i2].spec_name(),
                    ) matches Some(res) && slice_exec_post(
                        self.graph(),
                        self.spec_order(),
                        self.slices_seq()[i2],
                        res,
                    )),
                forall|j2: int|
                    #![trigger rr.slices_view()[j2]]
                    0 <= j2 < rr.slices_view().len() ==> exists|i2: int|
                        #![trigger self.slices_seq()[i2]]
                        0 <= i2 < start && self.slices_seq()[i2].spec_name()
                            == rr.slices_view()[j2].0,
            decreases total - start,
        {
            let end = if total - start < bsize {
                total
            } else {
                start + bsize
            };
            let mut batch = self.run_batch(&order, start, end, use_observer, &pool);
            let ghost batch0 = batch@;
            let mut k: usize = 0;
            let bn = batch.len();
            while k < bn
                invariant
                    total == self.slices_seq().len(),
                    names_view(order@) == self.spec_order(),
                    start <= end <= total,
                    bn == batch0.len(),
                    bn == end - start,
                    batch@ == batch0.skip(k as int),
                    k <= bn,
                    tracker.spec_completed() + tracker.spec_failed() <= start + k,
                    forall|i: int|
                        0 <= i < batch0.len() ==> (#[trigger] batch0[i]).0@ == self.slices_seq()[
                            start + i].spec_name() && slice_exec_post(
                            self.graph(),
                            self.spec_order(),
                            self.slices_seq()[start + i],
                            batch0[i].1,
                        ),
                    forall|j: int|
                        0 <= j < start + k ==> rr.spec_get(
                            (#[trigger] self.slices_seq()[j]).spec_name(),
                        ) is Some,
                    forall|i2: int|
                        #![trigger self.slices_seq()[i2]]
                        0 <= i2 < start + k && (forall|j2: int|
                            i2 < j2 < self.slices_seq().len() ==> (
                            #[trigger] self.slices_seq()[j2]).spec_name()
                                != self.slices_seq()[i2].spec_name()) ==> (rr.spec_get(
                            self.slices_seq()[i2].spec_name(),
                        ) matches Some(res) && slice_exec_post(
                            self.graph(),
                            self.spec_order(),
                            self.slices_seq()[i2],
                            res,
                        )),
                    forall|j2: int|
                        #![trigger rr.slices_view()[j2]]
                        0 <= j2 < rr.slices_view().len() ==> exists|i2: int|
                            #![trigger self.slices_seq()[i2]]
                            0 <= i2 < start + k && self.slices_seq()[i2].spec_name()
                                == rr.slices_view()[j2].0,
                decreases bn - k,
            {
                proof {
                    assert(batch@[0] == batch0[k as int]);
                }
                let (name, res) = batch.remove(0);
                if track && use_observer {
                    match &res {
                        Ok(_) => tracker.increment_completed(),
                        Err(_) => tracker.increment_failed(),
                    }
                }
                let ghost rr0 = rr;
                rr.insert(name, res);
                proof {
                    assert(batch@ =~= batch0.skip(k + 1));
                    let p = start + k;
                    assert(rr.spec_get(self.slices_seq()[p as int].spec_name()) == Some(
                        batch0[k as int].1,
                    ));
                    assert forall|j: int| 0 <= j < start + k + 1 implies rr.spec_get(
                        (#[trigger] self.slices_seq()[j]).spec_name(),
                    ) is Some by {
                        if j < start + k {
                            if self.slices_seq()[j].spec_name() != self.slices_seq()[
                                p as int].spec_name() {
                                assert(crate::alist::alist_get(
                                    rr.slices_view(),
                                    self.slices_seq()[j].spec_name(),
                                ) == crate::alist::alist_get(
                                    rr0.slices_view(),
                                    self.slices_seq()[j].spec_name(),
                                ));
                            }
                        }
                    }
                    assert forall|i2: int|
                        #![trigger self.slices_seq()[i2]]
                        0 <= i2 < start + k + 1 && (forall|j2: int|
                            i2 < j2 < self.slices_seq().len() ==> (
                            #[trigger] self.slices_seq()[j2]).spec_name()
                                != self.slices_seq()[i2].spec_name()) implies (rr.spec_get(
                        self.slices_seq()[i2].spec_name(),
                    ) matches Some(res2) && slice_exec_post(
                        self.graph(),
                        self.spec_order(),
                        self.slices_seq()[i2],
                        res2,
                    )) by {
                        if i2 < start + k {
                            assert(self.slices_seq()[p as int].spec_name()
                                != self.slices_seq()[i2].spec_name());
                            assert(crate::alist::alist_get(
                                rr.slices_view(),
                                self.slices_seq()[i2].spec_name(),
                            ) == crate::alist::alist_get(
                                rr0.slices_view(),
                                self.slices_seq()[i2].spec_name(),
                            ));
                        }
                    }
                    let ghost nm = batch0[k as int].0@;
                    assert(nm == self.slices_seq()[p as int].spec_name());
                    assert forall|j2: int|
                        #![trigger rr.slices_view()[j2]]
                        0 <= j2 < rr.slices_view().len() implies exists|i2: int|
                        #![trigger self.slices_seq()[i2]]
                        0 <= i2 < start + k + 1 && self.slices_seq()[i2].spec_name()
                            == rr.slices_view()[j2].0 by {
                        if rr0.spec_get(nm) is None {
                            assert(rr.slices_view() == rr0.slices_view().push(
                                (nm, batch0[k as int].1),
                            ));
                            if j2 < rr0.slices_view().len() {
                                assert(rr.slices_view()[j2] == rr0.slices_view()[j2]);
                                let i2 = choose|i2: int|
                                    #![trigger self.slices_seq()[i2]]
                                    0 <= i2 < start + k && self.slices_seq()[i2].spec_name()
                                        == rr0.slices_view()[j2].0;
                                assert(self.slices_seq()[i2].spec_name() == rr.slices_view()[
                                    j2].0);
                            } else {
                                assert(rr.slices_view()[j2].0 == nm);
                                assert(self.slices_seq()[p as int].spec_name()
                                    == rr.slices_view()[j2].0);
                            }
                        } else {
                            assert(rr.slices_view().len() == rr0.slices_view().len());
                            assert(rr.slices_view()[j2].0 == rr0.slices_view()[j2].0);
                            let i2 = choose|i2: int|
                                #![trigger self.slices_seq()[i2]]
                                0 <= i2 < start + k && self.slices_seq()[i2].spec_name()
                                    == rr0.slices_view()[j2].0;
                            assert(self.slices_seq()[i2].spec_name() == rr.slices_view()[j2].0);
                        }
                    }
                }
                k += 1;
            }
            start = end;
        }
        rr
    }

    /// Runs every registered slice and hands back one outcome per slice.
    pub fn run(&self, flags: RunFlags) -> (rr: RunResults)
        requires
            self.wf(),
            self.schedulable(),
            self.spec_config().batch_size != Some(0usize),
        ensures
            self.run_post(rr),
    {
        if flags.silent {
            self.run_silent(flags.with_observer)
        } else {
            self.run_with_progress(flags.with_observer)
        }
    }
}

/// Relies on rayon's `par_iter` over a slice range: one task per slice,
/// each calling the verified `execute_slice` and pairing its name with its
/// outcome, in input order.
#[verifier::external_body]
fn par_slices<F: MethodFn + Send + Sync, S: EventSink + Send + Sync>(
    engine: &Engine<F, S>,
    order: &Vec<String>,
    start: usize,
    end: usize,
    use_observer: bool,
) -> (r: Vec<(String, Result<SliceResults, Error>)>)
    requires
        start <= end <= engine.slices_seq().len(),
    ensures
        r@.len() == end - start,
        forall|i: int|
            0 <= i < r@.len() ==> (#[trigger] r@[i]).0@ == engine.slices_seq()[start
                + i].spec_name() && slice_exec_post(
                engine.graph(),
                names_view(order@),
                engine.slices_seq()[start + i],
                r@[i].1,
            ),
{
    engine.slices[start..end]
        .par_iter()
        .map(|s| (s.get_name().to_owned(), engine.execute_slice(s, order, use_observer)))
        .collect()
}

/// Relies on rayon's `par_chunks` and `flat_map`: as `par_slices`, with the
/// slices dispatched in chunks to reduce coordination overhead.
#[verifier::external_body]
fn par_slices_chunked<F: MethodFn + Send + Sync, S: EventSink + Send + Sync>(
    engine: &Engine<F, S>,
    order: &Vec<String>,
    start: usize,
    end: usize,
    chunk: usize,
    use_observer: bool,
) -> (r: Vec<(String, Result<SliceResults, Error>)>)
    requires
        start <= end <= engine.slices_seq().len(),
        chunk >= 1,
    ensures
        r@.len() == end - start,
        forall|i: int|
            0 <= i < r@.len() ==> (#[trigger] r@[i]).0@ == engine.slices_seq()[start
                + i].spec_name() && slice_exec_post(
                engine.graph(),
                names_view(order@),
                engine.slices_seq()[start + i],
                r@[i].1,
            ),
{
    engine.slices[start..end]
        .par_chunks(chunk)
        .flat_map(|c| {
            c.iter().map(
                |s| (s.get_name().to_owned(), engine.execute_slice(s, order, use_observer)),
            ).collect::<Vec<_>>()
        })
        .collect()
}

/// Relies on rayon's `ThreadPool::install` and `par_iter`: as `par_slices`,
/// on the dedicated pool.
#[verifier::external_body]
fn par_slices_pooled<F: MethodFn + Send + Sync, S: EventSink + Send + Sync>(
    pool: &rayon::ThreadPool,
    engine: &Engine<F, S>,
    order: &Vec<String>,
    start: usize,
    end: usize,
    use_observer: bool,
) -> (r: Vec<(String, Result<SliceResults, Error>)>)
    requires
        start <= end <= engine.slices_seq().len(),
    ensures
        r@.len() == end - start,
        forall|i: int|
            0 <= i < r@.len() ==> (#[trigger] r@[i]).0@ == engine.slices_seq()[start
                + i].spec_name() && slice_exec_post(
                engine.graph(),
                names_view(order@),
                engine.slices_seq()[start + i],
                r@[i].1,
            ),
{
    pool.install(|| {
        engine.slices[start..end]
            .par_iter()
            .map(|s| (s.get_name().to_owned(), engine.execute_slice(s, order, use_observer)))
            .collect()
    })
}

/// Relies on rayon's `ThreadPool::install`, `par_chunks` and `flat_map`:
/// as `par_slices_chunked`, on the dedicated pool.
#[verifier::external_body]
fn par_slices_pooled_chunked<F: MethodFn + Send + Sync, S: EventSink + Send + Sync>(
    pool: &rayon::ThreadPool,
    engine: &Engine<F, S>,
    order: &Vec<String>,
    start: usize,
    end: usize,
    chunk: usize,
    use_observer: bool,
) -> (r: Vec<(String, Result<SliceResults, Error>)>)
    requires
        start <= end <= engine.slices_seq().len(),
        chunk >= 1,
    ensures
        r@.len() == end - start,
        forall|i: int|
            0 <= i < r@.len() ==> (#[trigger] r@[i]).0@ == engine.slices_seq()[start
                + i].spec_name() && slice_exec_post(
                engine.graph(),
                names_view(order@),
                engine.slices_seq()[start + i],
                r@[i].1,
            ),
{
    pool.install(|| {
        engine.slices[start..end]
            .par_chunks(chunk)
            .flat_map(|c| {
                c.iter().map(
                    |s| (s.get_name().to_owned(), engine.execute_slice(s, order, use_observer)),
                ).collect::<Vec<_>>()
            })
            .collect()
    })
}

/// Two recorded outcomes agree: both present, same scheduling
/// classification, and on success the same recorded (layer, method) slots.
pub open spec fn outcomes_agree(
    o1: Option<Result<SliceResults, Error>>,
    o2: Option<Result<SliceResults, Error>>,
) -> bool {
    &&& o1 is Some
    &&& o2 is Some
    &&& ((o1->Some_0) is Ok <==> (o2->Some_0) is Ok)
    &&& ((o1->Some_0) is Ok && (o2->Some_0) is Ok ==> forall|l: Seq<char>, m: Seq<char>|
        #![trigger ((o1->Some_0)->Ok_0).spec_has(l, m)]
        ((o1->Some_0)->Ok_0).spec_has(l, m) == ((o2->Some_0)->Ok_0).spec_has(l, m))
}

/// Every layer of the ordering comes after each of its dependencies: each
/// dependency of the layer at position `j` occurs among the first `j`
/// positions.
pub open spec fn order_places_deps_first(g: GraphV, ov: Seq<Seq<char>>) -> bool {
    order_respects(g, ov, Set::empty())
}

/// On a schedulable engine whose initializer edges (if any) are realized,
/// the ordering is a permutation of the registered layers in which every
/// layer comes after each of its dependencies, and the initializer comes
/// first.
pub proof fn lemma_order_respects_dependencies<F: MethodFn, S: EventSink>(e: Engine<F, S>)
    requires
        e.wf(),
        e.schedulable(),
        e.spec_init_layer() is None || e.init_edges_realized(),
    ensures
        e.spec_order().to_multiset() == e.layer_names().to_multiset(),
        order_places_deps_first(e.graph(), e.spec_order()),
        e.spec_init_layer() matches Some(n) ==> e.spec_order().len() > 0 && e.spec_order()[0]
            == n,
{
    broadcast use vstd::seq_lib::group_to_multiset_ensures;

    let g = e.graph();
    let ns = e.layer_names();
    lemma_registered_closure(g, ns);
    assert(forall|i2: int|
        0 <= i2 < ns.len() ==> !Set::<Seq<char>>::empty().contains(#[trigger] ns[i2]));
    lemma_rounds_some(g, ns, Set::empty());
    let rs = rounds_from(g, ns, Set::empty())->Some_0;
    lemma_rounds_order(g, ns, Set::empty(), rs);
    lemma_rounds_multiset(g, ns, Set::empty(), rs);
    let flat = flat_rounds(rs);
    match e.spec_init_layer() {
        None => {
            assert(e.spec_order() == flat);
        },
        Some(n) => {
            lemma_init_first(g, ns, n, rs);
            ns.lemma_multiset_has_no_duplicates();
            assert(forall|x: Seq<char>|
                flat.to_multiset().contains(x) ==> flat.to_multiset().count(x) == 1);
            flat.lemma_multiset_has_no_duplicates_conv();
            assert(!flat.drop_first().contains(n)) by {
                if flat.drop_first().contains(n) {
                    let p = choose|p: int|
                        0 <= p < flat.drop_first().len() && flat.drop_first()[p] == n;
                    assert(flat[p + 1] == n);
                    assert(flat[0] == n);
                }
            }
            lemma_drop_name_head(flat, n);
            assert(seq![n] + flat.drop_first() =~= flat);
            assert(e.spec_order() == flat);
        },
    }
    assert(order_places_deps_first(g, flat));
    assert(order_places_deps_first(e.graph(), e.spec_order()));
}

/// A set of layers in which every member depends on another member is a
/// cycle: the engine refuses to schedule.
pub proof fn lemma_cycle_never_schedules<F: MethodFn, S: EventSink>(
    e: Engine<F, S>,
    s: Set<Seq<char>>,
)
    requires
        e.wf(),
        s.subset_of(e.layer_names().to_set()),
        s.finite(),
        s.len() > 0,
        forall|l: Seq<char>| #[trigger]
            s.contains(l) ==> exists|k: int|
                0 <= k < deps_of(e.graph(), l).len() && s.contains(
                    #[trigger] deps_of(e.graph(), l)[k],
                ),
    ensures
        !e.schedulable(),
        rounds_from(e.graph(), e.layer_names(), Set::empty()) is None,
{
    broadcast use vstd::set::group_set_axioms;

    let g = e.graph();
    let ns = e.layer_names();
    assert(forall|i2: int|
        0 <= i2 < ns.len() ==> !Set::<Seq<char>>::empty().contains(#[trigger] ns[i2]));
    lemma_rounds_none(g, ns, Set::empty(), s);
    if acyclic_within(g, ns.to_set()) {
        assert(s.subset_of(ns.to_set()));
        let l = choose|l: Seq<char>|
            #![auto]
            s.contains(l) && forall|k: int|
                0 <= k < deps_of(g, l).len() ==> !s.contains(#[trigger] deps_of(g, l)[k]);
        let k = choose|k: int|
            0 <= k < deps_of(g, l).len() && s.contains(#[trigger] deps_of(g, l)[k]);
        assert(false);
    }
}

/// Running the same immutable engine twice yields the same per-slice
/// scheduling classification and the same recorded (layer, method) slots.
pub proof fn lemma_rerun_matches<F: MethodFn + Send + Sync, S: EventSink + Send + Sync>(
    e: Engine<F, S>,
    r1: RunResults,
    r2: RunResults,
)
    requires
        e.slice_names_unique(),
        e.run_post(r1),
        e.run_post(r2),
    ensures
        forall|i: int|
            0 <= i < e.slices_seq().len() ==> outcomes_agree(
                r1.spec_get((#[trigger] e.slices_seq()[i]).spec_name()),
                r2.spec_get(e.slices_seq()[i].spec_name()),
            ),
{
    assert forall|i: int| 0 <= i < e.slices_seq().len() implies outcomes_agree(
        r1.spec_get((#[trigger] e.slices_seq()[i]).spec_name()),
        r2.spec_get(e.slices_seq()[i].spec_name()),
    ) by {
        assert(r1.spec_get(e.slices_seq()[i].spec_name()) is Some);
        assert(r2.spec_get(e.slices_seq()[i].spec_name()) is Some);
        let v1 = r1.spec_get(e.slices_seq()[i].spec_name())->Some_0;
        let v2 = r2.spec_get(e.slices_seq()[i].spec_name())->Some_0;
        assert(slice_exec_post(e.graph(), e.spec_order(), e.slices_seq()[i], v1));
        assert(slice_exec_post(e.graph(), e.spec_order(), e.slices_seq()[i], v2));
        if v1 is Ok && v2 is Ok {
            let a = v1->Ok_0;
            let b = v2->Ok_0;
            assert forall|l: Seq<char>, m: Seq<char>| #[trigger] a.spec_has(l, m) == b.spec_has(
                l,
                m,
            ) by {
                let parts = participating(e.spec_order(), e.slices_seq()[i]);
                assert(a.spec_has(l, m) <==> invoked_pair(parts, e.slices_seq()[i], l, m));
                assert(b.spec_has(l, m) <==> invoked_pair(parts, e.slices_seq()[i], l, m));
            }
        }
    }
}

/// Changing only the resource configuration — batch size, chunk size, pool
/// sizing — leaves a run's recorded outcomes' classification and slots
/// unchanged: batching is transparent.
pub proof fn lemma_batching_transparent<F: MethodFn + Send + Sync, S: EventSink + Send + Sync>(
    e1: Engine<F, S>,
    e2: Engine<F, S>,
    r1: RunResults,
    r2: RunResults,
)
    requires
        e1.graph() == e2.graph(),
        e1.layer_names() == e2.layer_names(),
        e1.slices_seq() == e2.slices_seq(),
        e1.spec_init_layer() == e2.spec_init_layer(),
        e1.slice_names_unique(),
        e1.run_post(r1),
        e2.run_post(r2),
    ensures
        forall|i: int|
            0 <= i < e1.slices_seq().len() ==> outcomes_agree(
                r1.spec_get((#[trigger] e1.slices_seq()[i]).spec_name()),
                r2.spec_get(e1.slices_seq()[i].spec_name()),
            ),
{
    assert(e1.spec_order() == e2.spec_order());
    assert forall|i: int| 0 <= i < e1.slices_seq().len() implies outcomes_agree(
        r1.spec_get((#[trigger] e1.slices_seq()[i]).spec_name()),
        r2.spec_get(e1.slices_seq()[i].spec_name()),
    ) by {
        assert(r1.spec_get(e1.slices_seq()[i].spec_name()) is Some);
        assert(r2.spec_get(e2.slices_seq()[i].spec_name()) is Some);
        let v1 = r1.spec_get(e1.slices_seq()[i].spec_name())->Some_0;
        let v2 = r2.spec_get(e2.slices_seq()[i].spec_name())->Some_0;
        assert(slice_exec_post(e1.graph(), e1.spec_order(), e1.slices_seq()[i], v1));
        assert(slice_exec_post(e2.graph(), e2.spec_order(), e2.slices_seq()[i], v2));
        if v1 is Ok && v2 is Ok {
            let a = v1->Ok_0;
            let b = v2->Ok_0;
            assert forall|l: Seq<char>, m: Seq<char>| #[trigger] a.spec_has(l, m) == b.spec_has(
                l,
                m,
            ) by {
                let parts = participating(e1.spec_order(), e1.slices_seq()[i]);
                assert(a.spec_has(l, m) <==> invoked_pair(parts, e1.slices_seq()[i], l, m));
                assert(b.spec_has(l, m) <==> invoked_pair(parts, e1.slices_seq()[i], l, m));
            }
        }
    }
}

/// A first match at index `i` pins down `deps_of`.
proof fn lemma_deps_first_match(g: GraphV, name: Seq<char>, i: int)
    requires
        0 <= i < g.len(),
        g[i].0 == name,
        forall|j: int| 0 <= j < i ==> (#[trigger] g[j]).0 != name,
    ensures
        deps_of(g, name) == g[i].1,
    decreases i,
{
    if i > 0 {
        let rest = g.drop_first();
        assert(forall|j: int| 0 <= j < rest.len() ==> #[trigger] rest[j] == g[j + 1]);
        lemma_deps_first_match(rest, name, i - 1);
    }
}

/// Without an entry for the name, `deps_of` is empty.
proof fn lemma_deps_absent(g: GraphV, name: Seq<char>)
    requires
        forall|j: int| 0 <= j < g.len() ==> (#[trigger] g[j]).0 != name,
    ensures
        deps_of(g, name) == Seq::<Seq<char>>::empty(),
    decreases g.len(),
{
    if g.len() > 0 {
        let rest = g.drop_first();
        assert(forall|j: int| 0 <= j < rest.len() ==> #[trigger] rest[j] == g[j + 1]);
        lemma_deps_absent(rest, name);
    }
}

/// `deps_of` over an appended entry: an existing entry wins, otherwise the
/// new entry is found.
proof fn lemma_deps_push(g: GraphV, p: (Seq<char>, Seq<Seq<char>>), name: Seq<char>)
    ensures
        deps_of(g.push(p), name) == (if exists|j: int| 0 <= j < g.len() && (#[trigger] g[j]).0
            == name {
            deps_of(g, name)
        } else if p.0 == name {
            p.1
        } else {
            deps_of(g, name)
        }),
    decreases g.len(),
{
    if g.len() == 0 {
        assert(g.push(p)[0] == p);
        assert(g.push(p).drop_first() =~= Seq::<(Seq<char>, Seq<Seq<char>>)>::empty());
        if p.0 != name {
            assert(deps_of(g.push(p), name) == deps_of(
                Seq::<(Seq<char>, Seq<Seq<char>>)>::empty(),
                name,
            ));
            assert(deps_of(g, name) == Seq::<Seq<char>>::empty());
        }
    } else {
        assert(g.push(p)[0] == g[0]);
        assert(g.push(p).drop_first() =~= g.drop_first().push(p));
        lemma_deps_push(g.drop_first(), p, name);
        if g[0].0 == name {
            assert(g.push(p)[0].0 == name);
        } else {
            let rest = g.drop_first();
            assert(forall|j: int| 0 <= j < rest.len() ==> #[trigger] rest[j] == g[j + 1]);
            if exists|j: int| 0 <= j < rest.len() && (#[trigger] rest[j]).0 == name {
                let j = choose|j: int| 0 <= j < rest.len() && (#[trigger] rest[j]).0 == name;
                assert(g[j + 1].0 == name);
            } else {
                if exists|j: int| 0 <= j < g.len() && (#[trigger] g[j]).0 == name {
                    let j = choose|j: int| 0 <= j < g.len() && (#[trigger] g[j]).0 == name;
                    assert(j > 0);
                    assert(rest[j - 1].0 == name);
                }
            }
        }
    }
}

/// Two graphs agreeing on keys everywhere, and on entries off `i`, agree on
/// `deps_of` for names other than the key at `i`.
proof fn lemma_deps_same_keys_agree(a: GraphV, b: GraphV, name: Seq<char>, i: int)
    requires
        a.len() == b.len(),
        0 <= i < a.len(),
        forall|j: int| 0 <= j < a.len() ==> (#[trigger] a[j]).0 == b[j].0,
        forall|j: int| 0 <= j < a.len() && j != i ==> #[trigger] a[j] == b[j],
        name != a[i].0,
    ensures
        deps_of(a, name) == deps_of(b, name),
    decreases a.len(),
{
    if a.len() > 0 {
        assert(a[0].0 == b[0].0);
        if a[0].0 != name {
            let ra = a.drop_first();
            let rb = b.drop_first();
            assert(forall|j: int| 0 <= j < ra.len() ==> #[trigger] ra[j] == a[j + 1]);
            assert(forall|j: int| 0 <= j < rb.len() ==> #[trigger] rb[j] == b[j + 1]);
            if i == 0 {
                assert(forall|j: int| 0 <= j < ra.len() ==> #[trigger] ra[j] == rb[j]);
                assert(deps_of(ra, name) =~= deps_of(rb, name)) by {
                    lemma_deps_equal(ra, rb, name);
                }
            } else {
                lemma_deps_same_keys_agree(ra, rb, name, i - 1);
            }
        } else {
            assert(i != 0);
            assert(a[0] == b[0]);
        }
    }
}

/// A nonempty dependency list comes from some graph entry.
proof fn lemma_deps_of_entry(g: GraphV, n: Seq<char>)
    ensures
        deps_of(g, n).len() == 0 || exists|j: int|
            0 <= j < g.len() && (#[trigger] g[j]).0 == n && g[j].1 == deps_of(g, n),
    decreases g.len(),
{
    if g.len() > 0 {
        if g[0].0 == n {
            assert(g[0].0 == n && g[0].1 == deps_of(g, n));
        } else {
            let rest = g.drop_first();
            assert(forall|j: int| 0 <= j < rest.len() ==> #[trigger] rest[j] == g[j + 1]);
            lemma_deps_of_entry(rest, n);
            if deps_of(g, n).len() > 0 {
                let j = choose|j: int|
                    0 <= j < rest.len() && (#[trigger] rest[j]).0 == n && rest[j].1 == deps_of(
                        rest,
                        n,
                    );
                assert(g[j + 1].0 == n && g[j + 1].1 == deps_of(g, n));
            }
        }
    }
}

/// When every edge points at a registered layer, every dependency of a
/// registered layer is registered.
proof fn lemma_registered_closure(g: GraphV, ns: Seq<Seq<char>>)
    requires
        forall|i: int, k: int|
            0 <= i < g.len() && 0 <= k < g[i].1.len() ==> ns.contains(#[trigger] g[i].1[k]),
    ensures
        forall|i: int, k: int|
            0 <= i < ns.len() && 0 <= k < deps_of(g, #[trigger] ns[i]).len() ==> Set::<
                Seq<char>,
            >::empty().contains(#[trigger] deps_of(g, ns[i])[k]) || ns.to_set().contains(
                deps_of(g, ns[i])[k],
            ),
{
    broadcast use vstd::set::group_set_axioms;

    assert forall|i: int, k: int|
        0 <= i < ns.len() && 0 <= k < deps_of(g, #[trigger] ns[i]).len() implies Set::<
        Seq<char>,
    >::empty().contains(#[trigger] deps_of(g, ns[i])[k]) || ns.to_set().contains(
        deps_of(g, ns[i])[k],
    ) by {
        lemma_deps_of_entry(g, ns[i]);
        let j = choose|j: int|
            0 <= j < g.len() && (#[trigger] g[j]).0 == ns[i] && g[j].1 == deps_of(g, ns[i]);
        assert(ns.contains(g[j].1[k]));
    }
}

/// Equal graphs have equal dependency lists.
proof fn lemma_deps_equal(a: GraphV, b: GraphV, name: Seq<char>)
    requires
        a.len() == b.len(),
        forall|j: int| 0 <= j < a.len() ==> #[trigger] a[j] == b[j],
    ensures
        deps_of(a, name) == deps_of(b, name),
{
    assert(a =~= b);
}

} // verus!
