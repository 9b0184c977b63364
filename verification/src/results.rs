//! Result aggregation: one result-or-error per (layer, method) pair of a
//! slice, and one slice result per slice of a run, with derived queries
//! computed by scanning.
//!
//! Durations are wall-clock nanoseconds; contracts never constrain them.

use vstd::prelude::*;
use vstd::string::StringExecFns;

use crate::alist::{
    alist_get, alist_index, lemma_alist_first_match, lemma_alist_index, lemma_alist_index_same_keys,
    lemma_alist_no_match, lemma_alist_push,
};
use crate::error::Error;
use crate::text::{dec_digits, fmt_u64, fmt_usize};
use crate::value::Value;

verus! {

/// The outcome of one slice: a result-or-error per invoked (layer, method)
/// pair, plus the slice's wall-clock duration.
#[derive(Debug)]
pub struct SliceResults {
    method_results: Vec<((String, String), Result<Value, Error>)>,
    duration_nanos: u64,
}

impl SliceResults {
    /// The recorded outcomes, keyed by (layer, method).
    pub closed spec fn results(&self) -> Seq<((Seq<char>, Seq<char>), Result<Value, Error>)> {
        self.method_results@.map_values(
            |p: ((String, String), Result<Value, Error>)| ((p.0.0@, p.0.1@), p.1),
        )
    }

    pub closed spec fn spec_duration(&self) -> u64 {
        self.duration_nanos
    }

    /// The recorded outcome for a pair, if any.
    pub open spec fn spec_get(&self, layer: Seq<char>, method: Seq<char>) -> Option<
        Result<Value, Error>,
    > {
        alist_get(self.results(), (layer, method))
    }

    pub open spec fn spec_has(&self, layer: Seq<char>, method: Seq<char>) -> bool {
        self.spec_get(layer, method) is Some
    }

    /// An empty result set.
    pub fn new() -> (r: SliceResults)
        ensures
            r.results() == Seq::<((Seq<char>, Seq<char>), Result<Value, Error>)>::empty(),
            r.spec_duration() == 0,
    {
        let r = SliceResults { method_results: Vec::new(), duration_nanos: 0 };
        proof {
            assert(r.results() =~= Seq::<((Seq<char>, Seq<char>), Result<Value, Error>)>::empty());
        }
        r
    }

    /// Records the outcome of one pair, replacing an earlier record.
    pub fn add_result(&mut self, layer: String, method: String, result: Result<Value, Error>)
        ensures
            final(self).spec_get(layer@, method@) == Some(result),
            forall|k: (Seq<char>, Seq<char>)|
                k != (layer@, method@) ==> #[trigger] alist_get(final(self).results(), k)
                    == alist_get(old(self).results(), k),
            final(self).spec_duration() == old(self).spec_duration(),
            old(self).spec_get(layer@, method@) is None ==> final(self).results() == old(
                self,
            ).results().push(((layer@, method@), result)),
    {
        let ghost rv0 = self.results();
        let ghost key = (layer@, method@);
        match find_pair(&self.method_results, layer.as_str(), method.as_str()) {
            Some(i) => {
                proof {
                    assert(rv0[i as int].0 == key);
                    assert forall|j: int| 0 <= j < i implies (#[trigger] rv0[j]).0 != key by {
                        assert(rv0[j].0 == (self.method_results@[j].0.0@,
                        self.method_results@[j].0.1@));
                    }
                    lemma_alist_first_match(rv0, key, i as int);
                }
                let ghost mr0 = self.method_results@;
                self.method_results.remove(i);
                self.method_results.insert(i, ((layer, method), result));
                proof {
                    let rv1 = self.results();
                    assert(self.method_results@ =~= mr0.update(
                        i as int,
                        ((layer, method), result),
                    ));
                    assert(rv1.len() == rv0.len());
                    assert(forall|j: int|
                        0 <= j < rv1.len() && j != i ==> #[trigger] rv1[j] == rv0[j]);
                    assert(rv1[i as int] == (key, result));
                    assert(forall|j: int| 0 <= j < rv1.len() ==> (#[trigger] rv1[j]).0 == rv0[j].0);
                    lemma_alist_first_match(rv1, key, i as int);
                    assert forall|k: (Seq<char>, Seq<char>)| k != key implies #[trigger] alist_get(
                        rv1,
                        k,
                    ) == alist_get(rv0, k) by {
                        lemma_alist_index_same_keys(rv1, rv0, k);
                        lemma_alist_index(rv1, k);
                        lemma_alist_index(rv0, k);
                        if alist_index(rv1, k) >= 0 {
                            let x = alist_index(rv1, k);
                            assert(rv1[x].0 == k);
                            assert(x != i as int);
                        }
                    }
                }
            },
            None => {
                proof {
                    assert forall|j: int| 0 <= j < rv0.len() implies (#[trigger] rv0[j]).0
                        != key by {
                        assert(rv0[j].0 == (self.method_results@[j].0.0@,
                        self.method_results@[j].0.1@));
                    }
                    lemma_alist_no_match(rv0, key);
                }
                let ghost mr0 = self.method_results@;
                self.method_results.push(((layer, method), result));
                proof {
                    let rv1 = self.results();
                    assert(self.method_results@ =~= mr0.push(((layer, method), result)));
                    assert(rv1 =~= rv0.push((key, result)));
                    lemma_alist_push(rv0, (key, result), key);
                    assert forall|k: (Seq<char>, Seq<char>)| k != key implies #[trigger] alist_get(
                        rv1,
                        k,
                    ) == alist_get(rv0, k) by {
                        lemma_alist_push(rv0, (key, result), k);
                    }
                }
            },
        }
    }

    /// Records the slice's wall-clock duration.
    pub fn set_duration(&mut self, nanos: u64)
        ensures
            final(self).spec_duration() == nanos,
            final(self).results() == old(self).results(),
    {
        self.duration_nanos = nanos;
    }

    /// The recorded outcome for a pair.
    pub fn get(&self, layer: &str, method: &str) -> (r: Option<&Result<Value, Error>>)
        ensures
            match r {
                Some(res) => self.spec_get(layer@, method@) == Some(*res),
                None => self.spec_get(layer@, method@) is None,
            },
    {
        let ghost rv = self.results();
        let ghost key = (layer@, method@);
        match find_pair(&self.method_results, layer, method) {
            Some(i) => {
                proof {
                    assert(rv[i as int].0 == key);
                    assert forall|j: int| 0 <= j < i implies (#[trigger] rv[j]).0 != key by {
                        assert(rv[j].0 == (self.method_results@[j].0.0@,
                        self.method_results@[j].0.1@));
                    }
                    lemma_alist_first_match(rv, key, i as int);
                }
                Some(&self.method_results[i].1)
            },
            None => {
                proof {
                    assert forall|j: int| 0 <= j < rv.len() implies (#[trigger] rv[j]).0
                        != key by {
                        assert(rv[j].0 == (self.method_results@[j].0.0@,
                        self.method_results@[j].0.1@));
                    }
                    lemma_alist_no_match(rv, key);
                }
                None
            },
        }
    }

    /// Whether the pair has a recorded outcome.
    pub fn contains(&self, layer: &str, method: &str) -> (b: bool)
        ensures
            b == self.spec_has(layer@, method@),
    {
        self.get(layer, method).is_some()
    }

    /// The number of recorded pairs.
    pub fn len(&self) -> (n: usize)
        ensures
            n == self.results().len(),
    {
        self.method_results.len()
    }

    /// The slice's wall-clock duration in nanoseconds.
    pub fn duration(&self) -> (n: u64)
        ensures
            n == self.spec_duration(),
    {
        self.duration_nanos
    }
}

/// Finds the first record keyed by this (layer, method) pair.
fn find_pair(
    v: &Vec<((String, String), Result<Value, Error>)>,
    layer: &str,
    method: &str,
) -> (r: Option<usize>)
    ensures
        match r {
            Some(i) => i < v@.len() && v@[i as int].0.0@ == layer@ && v@[i as int].0.1@ == method@
                && forall|j: int|
                0 <= j < i ==> ((#[trigger] v@[j]).0.0@, v@[j].0.1@) != (layer@, method@),
            None => forall|j: int|
                0 <= j < v@.len() ==> ((#[trigger] v@[j]).0.0@, v@[j].0.1@) != (layer@, method@),
        },
{
    let n = v.len();
    let mut i: usize = 0;
    while i < n
        invariant
            n == v.len(),
            i <= n,
            forall|j: int| 0 <= j < i ==> ((#[trigger] v@[j]).0.0@, v@[j].0.1@) != (layer@, method@),
        decreases n - i,
    {
        if crate::strutil::str_eq(v[i].0.0.as_str(), layer) && crate::strutil::str_eq(
            v[i].0.1.as_str(),
            method,
        ) {
            return Some(i);
        }
        i += 1;
    }
    None
}

/// Count of successful records in a slice's outcome table.
pub open spec fn n_ok_in(rs: Seq<((Seq<char>, Seq<char>), Result<Value, Error>)>) -> int
    decreases rs.len(),
{
    if rs.len() == 0 {
        0
    } else {
        n_ok_in(rs.drop_last()) + if rs.last().1 is Ok {
            1int
        } else {
            0int
        }
    }
}

pub proof fn lemma_n_ok_in_bounds(rs: Seq<((Seq<char>, Seq<char>), Result<Value, Error>)>)
    ensures
        0 <= n_ok_in(rs) <= rs.len(),
    decreases rs.len(),
{
    if rs.len() > 0 {
        lemma_n_ok_in_bounds(rs.drop_last());
    }
}

/// The outcome of a whole run, keyed by slice name.
#[derive(Debug)]
pub struct RunResults {
    entries: Vec<(String, Result<SliceResults, Error>)>,
}

/// Count of successfully scheduled slices.
pub open spec fn n_ok_slices(s: Seq<(Seq<char>, Result<SliceResults, Error>)>) -> int
    decreases s.len(),
{
    if s.len() == 0 {
        0
    } else {
        n_ok_slices(s.drop_last()) + if s.last().1 is Ok {
            1int
        } else {
            0int
        }
    }
}

/// Count of recorded method outcomes over all scheduled slices.
pub open spec fn n_methods_total(s: Seq<(Seq<char>, Result<SliceResults, Error>)>) -> int
    decreases s.len(),
{
    if s.len() == 0 {
        0
    } else {
        n_methods_total(s.drop_last()) + (match s.last().1 {
            Ok(sr) => sr.results().len() as int,
            Err(_) => 0int,
        })
    }
}

/// Count of successful method outcomes over all scheduled slices.
pub open spec fn n_methods_ok(s: Seq<(Seq<char>, Result<SliceResults, Error>)>) -> int
    decreases s.len(),
{
    if s.len() == 0 {
        0
    } else {
        n_methods_ok(s.drop_last()) + (match s.last().1 {
            Ok(sr) => n_ok_in(sr.results()),
            Err(_) => 0int,
        })
    }
}

/// The durations of the successfully scheduled slices.
pub open spec fn ok_durations(s: Seq<(Seq<char>, Result<SliceResults, Error>)>) -> Seq<u64>
    decreases s.len(),
{
    if s.len() == 0 {
        Seq::empty()
    } else {
        ok_durations(s.drop_last()) + (match s.last().1 {
            Ok(sr) => seq![sr.spec_duration()],
            Err(_) => Seq::<u64>::empty(),
        })
    }
}

pub open spec fn seq_sum(s: Seq<u64>) -> int
    decreases s.len(),
{
    if s.len() == 0 {
        0
    } else {
        seq_sum(s.drop_last()) + s.last()
    }
}

pub open spec fn seq_min(s: Seq<u64>) -> u64
    decreases s.len(),
{
    if s.len() <= 1 {
        if s.len() == 1 {
            s[0]
        } else {
            0
        }
    } else {
        let m = seq_min(s.drop_last());
        if s.last() < m {
            s.last()
        } else {
            m
        }
    }
}

pub open spec fn seq_max(s: Seq<u64>) -> u64
    decreases s.len(),
{
    if s.len() <= 1 {
        if s.len() == 1 {
            s[0]
        } else {
            0
        }
    } else {
        let m = seq_max(s.drop_last());
        if s.last() > m {
            s.last()
        } else {
            m
        }
    }
}

/// The (slice, layer, method, message) rows a slice's failed records
/// contribute, in recorded order.
pub open spec fn errors_of_results(
    rs: Seq<((Seq<char>, Seq<char>), Result<Value, Error>)>,
    slice_name: Seq<char>,
) -> Seq<(Seq<char>, Seq<char>, Seq<char>, Seq<char>)>
    decreases rs.len(),
{
    if rs.len() == 0 {
        Seq::empty()
    } else {
        let rest = errors_of_results(rs.drop_last(), slice_name);
        match rs.last().1 {
            Ok(_) => rest,
            Err(e) => rest.push((slice_name, rs.last().0.0, rs.last().0.1, e.spec_message())),
        }
    }
}

/// All failed rows of a run, slice by slice in recorded order.
pub open spec fn all_method_errors(s: Seq<(Seq<char>, Result<SliceResults, Error>)>) -> Seq<
    (Seq<char>, Seq<char>, Seq<char>, Seq<char>),
>
    decreases s.len(),
{
    if s.len() == 0 {
        Seq::empty()
    } else {
        all_method_errors(s.drop_last()) + (match s.last().1 {
            Ok(sr) => errors_of_results(sr.results(), s.last().0),
            Err(_) => Seq::<(Seq<char>, Seq<char>, Seq<char>, Seq<char>)>::empty(),
        })
    }
}

/// Model of a row list.
pub open spec fn rows_view(v: Seq<(String, String, String, String)>) -> Seq<
    (Seq<char>, Seq<char>, Seq<char>, Seq<char>),
> {
    v.map_values(|r: (String, String, String, String)| (r.0@, r.1@, r.2@, r.3@))
}

impl RunResults {
    /// The recorded slice outcomes, in insertion order.
    pub closed spec fn slices_view(&self) -> Seq<(Seq<char>, Result<SliceResults, Error>)> {
        self.entries@.map_values(|p: (String, Result<SliceResults, Error>)| (p.0@, p.1))
    }

    /// The recorded outcome of a slice, if any.
    pub open spec fn spec_get(&self, name: Seq<char>) -> Option<Result<SliceResults, Error>> {
        alist_get(self.slices_view(), name)
    }

    /// An empty run outcome.
    pub fn new() -> (r: RunResults)
        ensures
            r.slices_view() == Seq::<(Seq<char>, Result<SliceResults, Error>)>::empty(),
    {
        let r = RunResults { entries: Vec::new() };
        proof {
            assert(r.slices_view() =~= Seq::<(Seq<char>, Result<SliceResults, Error>)>::empty());
        }
        r
    }

    /// Records one slice's outcome, replacing an earlier record of the name.
    pub fn insert(&mut self, name: String, result: Result<SliceResults, Error>)
        ensures
            final(self).spec_get(name@) == Some(result),
            forall|k: Seq<char>|
                k != name@ ==> #[trigger] alist_get(final(self).slices_view(), k) == alist_get(
                    old(self).slices_view(),
                    k,
                ),
            old(self).spec_get(name@) is None ==> final(self).slices_view() == old(
                self,
            ).slices_view().push((name@, result)),
            old(self).spec_get(name@) is Some ==> final(self).slices_view().len() == old(
                self,
            ).slices_view().len() && (forall|j: int|
                0 <= j < final(self).slices_view().len() ==> (
                #[trigger] final(self).slices_view()[j]).0 == old(self).slices_view()[j].0),
    {
        let ghost sv0 = self.slices_view();
        let ghost key = name@;
        match crate::strutil::alist_find(&self.entries, name.as_str()) {
            Some(i) => {
                proof {
                    assert(sv0[i as int].0 == key);
                    assert forall|j: int| 0 <= j < i implies (#[trigger] sv0[j]).0 != key by {
                        assert(sv0[j].0 == self.entries@[j].0@);
                    }
                    lemma_alist_first_match(sv0, key, i as int);
                }
                let ghost e0 = self.entries@;
                self.entries.remove(i);
                self.entries.insert(i, (name, result));
                proof {
                    let sv1 = self.slices_view();
                    assert(self.entries@ =~= e0.update(i as int, (name, result)));
                    assert(sv1.len() == sv0.len());
                    assert(forall|j: int|
                        0 <= j < sv1.len() && j != i ==> #[trigger] sv1[j] == sv0[j]);
                    assert(sv1[i as int] == (key, result));
                    assert(forall|j: int| 0 <= j < sv1.len() ==> (#[trigger] sv1[j]).0 == sv0[j].0);
                    lemma_alist_first_match(sv1, key, i as int);
                    assert forall|k: Seq<char>| k != key implies #[trigger] alist_get(sv1, k)
                        == alist_get(sv0, k) by {
                        lemma_alist_index_same_keys(sv1, sv0, k);
                        lemma_alist_index(sv1, k);
                        lemma_alist_index(sv0, k);
                        if alist_index(sv1, k) >= 0 {
                            let x = alist_index(sv1, k);
                            assert(sv1[x].0 == k);
                            assert(x != i as int);
                        }
                    }
                }
            },
            None => {
                proof {
                    assert forall|j: int| 0 <= j < sv0.len() implies (#[trigger] sv0[j]).0
                        != key by {
                        assert(sv0[j].0 == self.entries@[j].0@);
                    }
                    lemma_alist_no_match(sv0, key);
                }
                let ghost e0 = self.entries@;
                self.entries.push((name, result));
                proof {
                    let sv1 = self.slices_view();
                    assert(self.entries@ =~= e0.push((name, result)));
                    assert(sv1 =~= sv0.push((key, result)));
                    lemma_alist_push(sv0, (key, result), key);
                    assert forall|k: Seq<char>| k != key implies #[trigger] alist_get(sv1, k)
                        == alist_get(sv0, k) by {
                        lemma_alist_push(sv0, (key, result), k);
                    }
                }
            },
        }
    }

    /// The recorded outcome for a slice.
    pub fn from_slice(&self, slice_name: &str) -> (r: Option<&Result<SliceResults, Error>>)
        ensures
            match r {
                Some(res) => self.spec_get(slice_name@) == Some(*res),
                None => self.spec_get(slice_name@) is None,
            },
    {
        let ghost sv = self.slices_view();
        match crate::strutil::alist_find(&self.entries, slice_name) {
            Some(i) => {
                proof {
                    assert(sv[i as int].0 == slice_name@);
                    assert forall|j: int| 0 <= j < i implies (#[trigger] sv[j]).0
                        != slice_name@ by {
                        assert(sv[j].0 == self.entries@[j].0@);
                    }
                    lemma_alist_first_match(sv, slice_name@, i as int);
                }
                Some(&self.entries[i].1)
            },
            None => {
                proof {
                    assert forall|j: int| 0 <= j < sv.len() implies (#[trigger] sv[j]).0
                        != slice_name@ by {
                        assert(sv[j].0 == self.entries@[j].0@);
                    }
                    lemma_alist_no_match(sv, slice_name@);
                }
                None
            },
        }
    }

    /// Whether the slice has a recorded outcome.
    pub fn contains_slice(&self, slice_name: &str) -> (b: bool)
        ensures
            b == (self.spec_get(slice_name@) is Some),
    {
        self.from_slice(slice_name).is_some()
    }

    /// The recorded slice names, in insertion order.
    pub fn slice_names(&self) -> (r: Vec<String>)
        ensures
            r@.len() == self.slices_view().len(),
            forall|j: int| 0 <= j < r@.len() ==> (#[trigger] r@[j])@ == self.slices_view()[j].0,
    {
        let n = self.entries.len();
        let mut r: Vec<String> = Vec::new();
        let mut i: usize = 0;
        while i < n
            invariant
                n == self.entries.len(),
                self.slices_view().len() == n,
                i <= n,
                r@.len() == i,
                forall|j: int| 0 <= j < i ==> (#[trigger] r@[j])@ == self.slices_view()[j].0,
            decreases n - i,
        {
            r.push(self.entries[i].0.clone());
            i += 1;
        }
        r
    }

    pub fn total_slices(&self) -> (n: usize)
        ensures
            n == self.slices_view().len(),
    {
        self.entries.len()
    }

    pub fn successful_slices(&self) -> (n: usize)
        ensures
            n == n_ok_slices(self.slices_view()),
    {
        let ghost sv = self.slices_view();
        let total = self.entries.len();
        let mut count: usize = 0;
        let mut i: usize = 0;
        proof {
            assert(sv.take(0) =~= Seq::<(Seq<char>, Result<SliceResults, Error>)>::empty());
        }
        while i < total
            invariant
                sv == self.slices_view(),
                total == self.entries.len(),
                sv.len() == total,
                i <= total,
                count <= i,
                count == n_ok_slices(sv.take(i as int)),
            decreases total - i,
        {
            proof {
                assert(sv.take(i + 1) =~= sv.take(i as int).push(sv[i as int]));
                assert(sv.take(i + 1).drop_last() =~= sv.take(i as int));
                assert(sv[i as int].1 == self.entries@[i as int].1);
            }
            if self.entries[i].1.is_ok() {
                count += 1;
            }
            i += 1;
        }
        proof {
            assert(sv.take(total as int) =~= sv);
        }
        count
    }

    pub fn failed_slices(&self) -> (n: usize)
        ensures
            n == self.slices_view().len() - n_ok_slices(self.slices_view()),
    {
        proof {
            lemma_n_ok_slices_bounds(self.slices_view());
        }
        let total = self.total_slices();
        let ok = self.successful_slices();
        total - ok
    }

    pub fn is_all_success(&self) -> (b: bool)
        requires
            n_methods_total(self.slices_view()) <= usize::MAX,
        ensures
            b == (n_ok_slices(self.slices_view()) == self.slices_view().len() && n_methods_ok(
                self.slices_view(),
            ) == n_methods_total(self.slices_view())),
    {
        let ok_slices = self.successful_slices();
        let total_slices = self.total_slices();
        let ok_methods = self.successful_methods();
        let total_methods = self.total_methods();
        ok_slices == total_slices && ok_methods == total_methods
    }

    pub fn has_failures(&self) -> (b: bool)
        requires
            n_methods_total(self.slices_view()) <= usize::MAX,
        ensures
            b == (n_ok_slices(self.slices_view()) != self.slices_view().len() || n_methods_ok(
                self.slices_view(),
            ) != n_methods_total(self.slices_view())),
    {
        !self.is_all_success()
    }

    pub fn total_methods(&self) -> (n: usize)
        requires
            n_methods_total(self.slices_view()) <= usize::MAX,
        ensures
            n == n_methods_total(self.slices_view()),
    {
        let ghost sv = self.slices_view();
        let total = self.entries.len();
        let mut count: usize = 0;
        let mut i: usize = 0;
        proof {
            assert(sv.take(0) =~= Seq::<(Seq<char>, Result<SliceResults, Error>)>::empty());
        }
        while i < total
            invariant
                sv == self.slices_view(),
                total == self.entries.len(),
                sv.len() == total,
                i <= total,
                count == n_methods_total(sv.take(i as int)),
                n_methods_total(sv) <= usize::MAX,
            decreases total - i,
        {
            proof {
                assert(sv.take(i + 1) =~= sv.take(i as int).push(sv[i as int]));
                assert(sv.take(i + 1).drop_last() =~= sv.take(i as int));
                assert(sv[i as int].1 == self.entries@[i as int].1);
                lemma_n_methods_prefix(sv, i + 1);
            }
            match &self.entries[i].1 {
                Ok(sr) => {
                    count += sr.len();
                },
                Err(_) => {
                },
            }
            i += 1;
        }
        proof {
            assert(sv.take(total as int) =~= sv);
        }
        count
    }

    pub fn successful_methods(&self) -> (n: usize)
        requires
            n_methods_total(self.slices_view()) <= usize::MAX,
        ensures
            n == n_methods_ok(self.slices_view()),
    {
        let ghost sv = self.slices_view();
        let total = self.entries.len();
        let mut count: usize = 0;
        let mut i: usize = 0;
        proof {
            assert(sv.take(0) =~= Seq::<(Seq<char>, Result<SliceResults, Error>)>::empty());
            lemma_n_methods_ok_le(sv, 0);
        }
        while i < total
            invariant
                sv == self.slices_view(),
                total == self.entries.len(),
                sv.len() == total,
                i <= total,
                count == n_methods_ok(sv.take(i as int)),
                n_methods_total(sv) <= usize::MAX,
            decreases total - i,
        {
            proof {
                assert(sv.take(i + 1) =~= sv.take(i as int).push(sv[i as int]));
                assert(sv.take(i + 1).drop_last() =~= sv.take(i as int));
                assert(sv[i as int].1 == self.entries@[i as int].1);
                lemma_n_methods_ok_le(sv, i + 1);
                lemma_n_methods_prefix(sv, i + 1);
            }
            match &self.entries[i].1 {
                Ok(sr) => {
                    let ok_here = SliceResults::count_ok_in(sr);
                    proof {
                        lemma_n_ok_in_bounds(sr.results());
                    }
                    count += ok_here;
                },
                Err(_) => {
                },
            }
            i += 1;
        }
        proof {
            assert(sv.take(total as int) =~= sv);
        }
        count
    }

    pub fn failed_methods(&self) -> (n: usize)
        requires
            n_methods_total(self.slices_view()) <= usize::MAX,
        ensures
            n == n_methods_total(self.slices_view()) - n_methods_ok(self.slices_view()),
    {
        proof {
            lemma_n_methods_ok_le(self.slices_view(), self.slices_view().len() as int);
            assert(self.slices_view().take(self.slices_view().len() as int) =~= self.slices_view());
        }
        let total = self.total_methods();
        let ok = self.successful_methods();
        total - ok
    }

    /// The total and successful method counts, wide enough never to
    /// overflow.
    pub fn methods_counts_wide(&self) -> (r: (u128, u128))
        ensures
            r.0 == n_methods_total(self.slices_view()),
            r.1 == n_methods_ok(self.slices_view()),
    {
        let ghost sv = self.slices_view();
        let total = self.entries.len();
        let mut count: u128 = 0;
        let mut okc: u128 = 0;
        let mut i: usize = 0;
        proof {
            assert(sv.take(0) =~= Seq::<(Seq<char>, Result<SliceResults, Error>)>::empty());
        }
        while i < total
            invariant
                sv == self.slices_view(),
                total == self.entries.len(),
                sv.len() == total,
                i <= total,
                count == n_methods_total(sv.take(i as int)),
                okc == n_methods_ok(sv.take(i as int)),
                count <= i * (usize::MAX as u128),
                okc <= count,
            decreases total - i,
        {
            proof {
                assert(sv.take(i + 1) =~= sv.take(i as int).push(sv[i as int]));
                assert(sv.take(i + 1).drop_last() =~= sv.take(i as int));
                assert(sv[i as int].1 == self.entries@[i as int].1);
                assert((i + 1) * (usize::MAX as u128) == i * (usize::MAX as u128) + (
                usize::MAX as u128)) by (nonlinear_arith);
                assert((i + 1) * (usize::MAX as u128) < u128::MAX) by (nonlinear_arith)
                    requires
                        i + 1 <= u64::MAX,
                ;
            }
            match &self.entries[i].1 {
                Ok(sr) => {
                    let here = sr.len();
                    let ok_here = SliceResults::count_ok_in(sr);
                    proof {
                        lemma_n_ok_in_bounds(sr.results());
                    }
                    count += here as u128;
                    okc += ok_here as u128;
                },
                Err(_) => {
                },
            }
            i += 1;
        }
        proof {
            assert(sv.take(total as int) =~= sv);
        }
        (count, okc)
    }

    /// One line of counts: slices and methods succeeded out of total.
    pub fn summary(&self) -> (s: String)
        requires
            n_methods_total(self.slices_view()) <= usize::MAX,
        ensures
            s@ == "Slices: "@ + dec_digits(n_ok_slices(self.slices_view()) as nat) + "/"@
                + dec_digits(self.slices_view().len() as nat) + " succeeded, Methods: "@
                + dec_digits(n_methods_ok(self.slices_view()) as nat) + "/"@ + dec_digits(
                n_methods_total(self.slices_view()) as nat,
            ) + " succeeded"@,
    {
        proof {
            lemma_n_ok_slices_bounds(self.slices_view());
            lemma_n_methods_ok_le(self.slices_view(), self.slices_view().len() as int);
            assert(self.slices_view().take(self.slices_view().len() as int) =~= self.slices_view());
        }
        let mut s = "Slices: ".to_owned();
        s.append(fmt_usize(self.successful_slices()).as_str());
        s.append("/");
        s.append(fmt_usize(self.total_slices()).as_str());
        s.append(" succeeded, Methods: ");
        s.append(fmt_usize(self.successful_methods()).as_str());
        s.append("/");
        s.append(fmt_usize(self.total_methods()).as_str());
        s.append(" succeeded");
        s
    }

    /// Every failed method outcome as (slice, layer, method, message), in
    /// recorded order.
    pub fn get_all_method_errors(&self) -> (r: Vec<(String, String, String, String)>)
        ensures
            rows_view(r@) == all_method_errors(self.slices_view()),
            r@.len() == n_methods_total(self.slices_view()) - n_methods_ok(self.slices_view()),
    {
        let ghost sv = self.slices_view();
        let total = self.entries.len();
        let mut r: Vec<(String, String, String, String)> = Vec::new();
        let mut i: usize = 0;
        proof {
            assert(sv.take(0) =~= Seq::<(Seq<char>, Result<SliceResults, Error>)>::empty());
        }
        proof {
            assert(rows_view(r@) =~= all_method_errors(sv.take(0)));
        }
        while i < total
            invariant
                sv == self.slices_view(),
                total == self.entries.len(),
                sv.len() == total,
                i <= total,
                rows_view(r@) == all_method_errors(sv.take(i as int)),
                r@.len() == n_methods_total(sv.take(i as int)) - n_methods_ok(sv.take(i as int)),
            decreases total - i,
        {
            proof {
                assert(sv.take(i + 1) =~= sv.take(i as int).push(sv[i as int]));
                assert(sv.take(i + 1).drop_last() =~= sv.take(i as int));
                assert(sv[i as int].1 == self.entries@[i as int].1);
                assert(sv[i as int].0 == self.entries@[i as int].0@);
                lemma_n_methods_ok_le(sv, i + 1);
            }
            match &self.entries[i].1 {
                Ok(sr) => {
                    sr.collect_errors(&self.entries[i].0, &mut r);
                },
                Err(_) => {
                    proof {
                        assert(all_method_errors(sv.take(i + 1)) =~= all_method_errors(
                            sv.take(i as int),
                        ));
                    }
                },
            }
            i += 1;
        }
        proof {
            assert(sv.take(total as int) =~= sv);
        }
        r
    }

    /// The minimum duration among successfully scheduled slices.
    pub fn min_slice_duration(&self) -> (r: Option<u64>)
        ensures
            r == (if ok_durations(self.slices_view()).len() == 0 {
                None::<u64>
            } else {
                Some(seq_min(ok_durations(self.slices_view())))
            }),
    {
        let ghost sv = self.slices_view();
        let total = self.entries.len();
        let mut best: Option<u64> = None;
        let mut i: usize = 0;
        proof {
            assert(sv.take(0) =~= Seq::<(Seq<char>, Result<SliceResults, Error>)>::empty());
        }
        while i < total
            invariant
                sv == self.slices_view(),
                total == self.entries.len(),
                sv.len() == total,
                i <= total,
                best == (if ok_durations(sv.take(i as int)).len() == 0 {
                    None::<u64>
                } else {
                    Some(seq_min(ok_durations(sv.take(i as int))))
                }),
            decreases total - i,
        {
            proof {
                assert(sv.take(i + 1) =~= sv.take(i as int).push(sv[i as int]));
                assert(sv.take(i + 1).drop_last() =~= sv.take(i as int));
                assert(sv[i as int].1 == self.entries@[i as int].1);
                lemma_ok_durations_snoc(sv.take(i as int), sv[i as int]);
                match sv[i as int].1 {
                    Ok(sr) => {
                        lemma_seq_min_snoc(ok_durations(sv.take(i as int)), sr.spec_duration());
                    },
                    Err(_) => {},
                }
            }
            match &self.entries[i].1 {
                Ok(sr) => {
                    let d = sr.duration();
                    best = match best {
                        None => Some(d),
                        Some(b) => if d < b {
                            Some(d)
                        } else {
                            Some(b)
                        },
                    };
                },
                Err(_) => {
                },
            }
            i += 1;
        }
        proof {
            assert(sv.take(total as int) =~= sv);
        }
        best
    }

    /// The maximum duration among successfully scheduled slices.
    pub fn max_slice_duration(&self) -> (r: Option<u64>)
        ensures
            r == (if ok_durations(self.slices_view()).len() == 0 {
                None::<u64>
            } else {
                Some(seq_max(ok_durations(self.slices_view())))
            }),
    {
        let ghost sv = self.slices_view();
        let total = self.entries.len();
        let mut best: Option<u64> = None;
        let mut i: usize = 0;
        proof {
            assert(sv.take(0) =~= Seq::<(Seq<char>, Result<SliceResults, Error>)>::empty());
        }
        while i < total
            invariant
                sv == self.slices_view(),
                total == self.entries.len(),
                sv.len() == total,
                i <= total,
                best == (if ok_durations(sv.take(i as int)).len() == 0 {
                    None::<u64>
                } else {
                    Some(seq_max(ok_durations(sv.take(i as int))))
                }),
            decreases total - i,
        {
            proof {
                assert(sv.take(i + 1) =~= sv.take(i as int).push(sv[i as int]));
                assert(sv.take(i + 1).drop_last() =~= sv.take(i as int));
                assert(sv[i as int].1 == self.entries@[i as int].1);
                lemma_ok_durations_snoc(sv.take(i as int), sv[i as int]);
                match sv[i as int].1 {
                    Ok(sr) => {
                        lemma_seq_max_snoc(ok_durations(sv.take(i as int)), sr.spec_duration());
                    },
                    Err(_) => {},
                }
            }
            match &self.entries[i].1 {
                Ok(sr) => {
                    let d = sr.duration();
                    best = match best {
                        None => Some(d),
                        Some(b) => if d > b {
                            Some(d)
                        } else {
                            Some(b)
                        },
                    };
                },
                Err(_) => {
                },
            }
            i += 1;
        }
        proof {
            assert(sv.take(total as int) =~= sv);
        }
        best
    }

    /// The mean duration among successfully scheduled slices.
    pub fn average_slice_duration(&self) -> (r: Option<u64>)
        ensures
            r == (if ok_durations(self.slices_view()).len() == 0 {
                None::<u64>
            } else {
                Some(
                    (seq_sum(ok_durations(self.slices_view())) / ok_durations(
                        self.slices_view(),
                    ).len() as int) as u64,
                )
            }),
    {
        let ghost sv = self.slices_view();
        let total = self.entries.len();
        let mut sum: u128 = 0;
        let mut count: usize = 0;
        let mut i: usize = 0;
        proof {
            assert(sv.take(0) =~= Seq::<(Seq<char>, Result<SliceResults, Error>)>::empty());
        }
        while i < total
            invariant
                sv == self.slices_view(),
                total == self.entries.len(),
                sv.len() == total,
                i <= total,
                count == ok_durations(sv.take(i as int)).len(),
                count <= i,
                sum == seq_sum(ok_durations(sv.take(i as int))),
                sum <= count * (u64::MAX as u128),
            decreases total - i,
        {
            proof {
                assert(sv.take(i + 1) =~= sv.take(i as int).push(sv[i as int]));
                assert(sv.take(i + 1).drop_last() =~= sv.take(i as int));
                assert(sv[i as int].1 == self.entries@[i as int].1);
                lemma_ok_durations_snoc(sv.take(i as int), sv[i as int]);
            }
            match &self.entries[i].1 {
                Ok(sr) => {
                    let d = sr.duration();
                    proof {
                        assert((count + 1) * (u64::MAX as u128) == count * (u64::MAX as u128) + (
                        u64::MAX as u128)) by (nonlinear_arith);
                        assert(count + 1 <= usize::MAX < u128::MAX) by {
                            assert(usize::MAX <= u64::MAX);
                        }
                        assert(sum + (d as u128) <= (count + 1) * (u64::MAX as u128));
                        assert((count + 1) * (u64::MAX as u128) < u128::MAX) by (nonlinear_arith)
                            requires
                                count + 1 <= u64::MAX,
                        ;
                    }
                    sum += d as u128;
                    count += 1;
                },
                Err(_) => {
                },
            }
            i += 1;
        }
        proof {
            assert(sv.take(total as int) =~= sv);
        }
        if count == 0 {
            None
        } else {
            proof {
                assert(sum / (count as u128) <= u64::MAX as u128) by (nonlinear_arith)
                    requires
                        count > 0,
                        sum <= count * (u64::MAX as u128),
                ;
            }
            let avg = sum / (count as u128);
            Some(avg as u64)
        }
    }

    /// One line of timings: mean, minimum and maximum slice duration in
    /// nanoseconds, zero when no slice was scheduled.
    pub fn timing_summary(&self) -> (s: String)
        ensures
            ({
                let durs = ok_durations(self.slices_view());
                let avg: u64 = if durs.len() == 0 {
                    0
                } else {
                    (seq_sum(durs) / durs.len() as int) as u64
                };
                let mn: u64 = if durs.len() == 0 {
                    0
                } else {
                    seq_min(durs)
                };
                let mx: u64 = if durs.len() == 0 {
                    0
                } else {
                    seq_max(durs)
                };
                s@ == "Avg: "@ + dec_digits(avg as nat) + "ns, Min: "@ + dec_digits(mn as nat)
                    + "ns, Max: "@ + dec_digits(mx as nat) + "ns"@
            }),
    {
        let avg = match self.average_slice_duration() {
            Some(d) => d,
            None => 0,
        };
        let mn = match self.min_slice_duration() {
            Some(d) => d,
            None => 0,
        };
        let mx = match self.max_slice_duration() {
            Some(d) => d,
            None => 0,
        };
        let mut s = "Avg: ".to_owned();
        s.append(fmt_u64(avg).as_str());
        s.append("ns, Min: ");
        s.append(fmt_u64(mn).as_str());
        s.append("ns, Max: ");
        s.append(fmt_u64(mx).as_str());
        s.append("ns");
        s
    }
}

impl SliceResults {
    /// Counts the successful records.
    fn count_ok_in(sr: &SliceResults) -> (n: usize)
        ensures
            n == n_ok_in(sr.results()),
    {
        let ghost rv = sr.results();
        let total = sr.method_results.len();
        let mut count: usize = 0;
        let mut i: usize = 0;
        proof {
            assert(rv.take(0) =~= Seq::<((Seq<char>, Seq<char>), Result<Value, Error>)>::empty());
        }
        while i < total
            invariant
                rv == sr.results(),
                total == sr.method_results.len(),
                rv.len() == total,
                i <= total,
                count <= i,
                count == n_ok_in(rv.take(i as int)),
            decreases total - i,
        {
            proof {
                assert(rv.take(i + 1) =~= rv.take(i as int).push(rv[i as int]));
                assert(rv.take(i + 1).drop_last() =~= rv.take(i as int));
                assert(rv[i as int].1 == sr.method_results@[i as int].1);
            }
            if sr.method_results[i].1.is_ok() {
                count += 1;
            }
            i += 1;
        }
        proof {
            assert(rv.take(total as int) =~= rv);
        }
        count
    }

    /// Appends this slice's failed records as (slice, layer, method, message).
    fn collect_errors(&self, slice_name: &String, out: &mut Vec<(String, String, String, String)>)
        ensures
            rows_view(final(out)@) == rows_view(old(out)@) + errors_of_results(
                self.results(),
                slice_name@,
            ),
            final(out)@.len() == old(out)@.len() + self.results().len() - n_ok_in(self.results()),
    {
        let ghost rv = self.results();
        let ghost out0 = old(out)@.len() as int;
        let total = self.method_results.len();
        let mut i: usize = 0;
        proof {
            assert(rv.take(0) =~= Seq::<((Seq<char>, Seq<char>), Result<Value, Error>)>::empty());
        }
        proof {
            assert(errors_of_results(rv.take(0), slice_name@) =~= Seq::<
                (Seq<char>, Seq<char>, Seq<char>, Seq<char>),
            >::empty());
            assert(rows_view(out@) =~= rows_view(old(out)@) + errors_of_results(
                rv.take(0),
                slice_name@,
            ));
        }
        while i < total
            invariant
                rv == self.results(),
                total == self.method_results.len(),
                rv.len() == total,
                i <= total,
                out0 == old(out)@.len() as int,
                rows_view(out@) == rows_view(old(out)@) + errors_of_results(
                    rv.take(i as int),
                    slice_name@,
                ),
                out@.len() == out0 + rv.take(i as int).len() - n_ok_in(rv.take(i as int)),
            decreases total - i,
        {
            proof {
                assert(rv.take(i + 1) =~= rv.take(i as int).push(rv[i as int]));
                assert(rv.take(i + 1).drop_last() =~= rv.take(i as int));
                assert(rv[i as int].1 == self.method_results@[i as int].1);
                assert(rv[i as int].0 == (self.method_results@[i as int].0.0@,
                self.method_results@[i as int].0.1@));
                lemma_n_ok_in_bounds(rv.take(i as int));
                lemma_n_ok_in_bounds(rv.take(i + 1));
            }
            match &self.method_results[i].1 {
                Ok(_) => {
                    proof {
                        assert(errors_of_results(rv.take(i + 1), slice_name@)
                            =~= errors_of_results(rv.take(i as int), slice_name@));
                    }
                },
                Err(e) => {
                    let ghost out_pre = out@;
                    out.push(
                        (
                            slice_name.clone(),
                            self.method_results[i].0.0.clone(),
                            self.method_results[i].0.1.clone(),
                            e.message(),
                        ),
                    );
                    proof {
                        assert(rows_view(out@) =~= rows_view(out_pre).push(
                            (slice_name@, rv[i as int].0.0, rv[i as int].0.1,
                            rv[i as int].1->Err_0.spec_message()),
                        ));
                        assert(rows_view(out@) =~= rows_view(old(out)@) + errors_of_results(
                            rv.take(i + 1),
                            slice_name@,
                        ));
                    }
                },
            }
            i += 1;
        }
        proof {
            assert(rv.take(total as int) =~= rv);
        }
    }
}

proof fn lemma_n_ok_slices_bounds(s: Seq<(Seq<char>, Result<SliceResults, Error>)>)
    ensures
        0 <= n_ok_slices(s) <= s.len(),
    decreases s.len(),
{
    if s.len() > 0 {
        lemma_n_ok_slices_bounds(s.drop_last());
    }
}

/// Prefix counts of methods never exceed the whole.
proof fn lemma_n_methods_prefix(s: Seq<(Seq<char>, Result<SliceResults, Error>)>, i: int)
    requires
        0 <= i <= s.len(),
    ensures
        0 <= n_methods_total(s.take(i)) <= n_methods_total(s),
    decreases s.len(),
{
    if s.len() == 0 {
        assert(s.take(i) =~= s);
        lemma_n_methods_nonneg(s);
    } else if i == s.len() {
        assert(s.take(i) =~= s);
        lemma_n_methods_nonneg(s);
    } else {
        assert(s.drop_last().take(i) =~= s.take(i));
        lemma_n_methods_prefix(s.drop_last(), i);
        match s.last().1 {
            Ok(sr) => {},
            Err(_) => {},
        }
    }
}

proof fn lemma_n_methods_nonneg(s: Seq<(Seq<char>, Result<SliceResults, Error>)>)
    ensures
        n_methods_total(s) >= 0,
    decreases s.len(),
{
    if s.len() > 0 {
        lemma_n_methods_nonneg(s.drop_last());
    }
}

/// Successful method counts stay below the method totals, prefix by prefix.
proof fn lemma_n_methods_ok_le(s: Seq<(Seq<char>, Result<SliceResults, Error>)>, i: int)
    requires
        0 <= i <= s.len(),
    ensures
        0 <= n_methods_ok(s.take(i)) <= n_methods_total(s.take(i)),
    decreases i,
{
    if i == 0 {
        assert(s.take(0) =~= Seq::<(Seq<char>, Result<SliceResults, Error>)>::empty());
    } else {
        lemma_n_methods_ok_le(s, i - 1);
        assert(s.take(i).drop_last() =~= s.take(i - 1));
        match s.take(i).last().1 {
            Ok(sr) => {
                lemma_n_ok_in_bounds(sr.results());
            },
            Err(_) => {},
        }
    }
}

/// Unfolds the snoc step for the duration helpers.
proof fn lemma_ok_durations_snoc(
    s: Seq<(Seq<char>, Result<SliceResults, Error>)>,
    p: (Seq<char>, Result<SliceResults, Error>),
)
    ensures
        ok_durations(s.push(p)) == (match p.1 {
            Ok(sr) => ok_durations(s).push(sr.spec_duration()),
            Err(_) => ok_durations(s),
        }),
        seq_sum(ok_durations(s.push(p))) == (match p.1 {
            Ok(sr) => seq_sum(ok_durations(s)) + sr.spec_duration(),
            Err(_) => seq_sum(ok_durations(s)),
        }),
{
    assert(s.push(p).drop_last() =~= s);
    match p.1 {
        Ok(sr) => {
            assert(ok_durations(s.push(p)) =~= ok_durations(s).push(sr.spec_duration()));
            let w = ok_durations(s).push(sr.spec_duration());
            assert(w.drop_last() =~= ok_durations(s));
        },
        Err(_) => {
            assert(ok_durations(s.push(p)) =~= ok_durations(s));
        },
    }
}

proof fn lemma_seq_min_snoc(w: Seq<u64>, x: u64)
    ensures
        seq_min(w.push(x)) == (if w.len() == 0 {
            x
        } else if x < seq_min(w) {
            x
        } else {
            seq_min(w)
        }),
{
    assert(w.push(x).drop_last() =~= w);
    assert(w.push(x).last() == x);
}

proof fn lemma_seq_max_snoc(w: Seq<u64>, x: u64)
    ensures
        seq_max(w.push(x)) == (if w.len() == 0 {
            x
        } else if x > seq_max(w) {
            x
        } else {
            seq_max(w)
        }),
{
    assert(w.push(x).drop_last() =~= w);
    assert(w.push(x).last() == x);
}

} // verus!
