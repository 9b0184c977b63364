//! Dependency-ordered scheduling.
//!
//! One round computation serves both consumers: the global topological
//! ordering of all layers and the per-slice wave computation.  A *round*
//! gathers every remaining layer whose dependencies have all been placed in
//! earlier rounds; scheduling fails when no layer is ready while some remain.

use vstd::multiset::Multiset;
use vstd::prelude::*;
use vstd::seq_lib::*;

verus! {

/// Model of a dependency table: ordered `(layer, layers it depends on)`
/// entries, keyed by the first matching entry.
pub type GraphV = Seq<(Seq<char>, Seq<Seq<char>>)>;

/// Model of a list of names.
pub open spec fn names_view(s: Seq<String>) -> Seq<Seq<char>> {
    s.map_values(|x: String| x@)
}

/// Model of a dependency table.
pub open spec fn graph_view(s: Seq<(String, Vec<String>)>) -> GraphV {
    s.map_values(|p: (String, Vec<String>)| (p.0@, names_view(p.1@)))
}

/// Dependencies recorded for `name`: the first matching entry, or none.
pub open spec fn deps_of(g: GraphV, name: Seq<char>) -> Seq<Seq<char>>
    decreases g.len(),
{
    if g.len() == 0 {
        Seq::empty()
    } else if g[0].0 == name {
        g[0].1
    } else {
        deps_of(g.drop_first(), name)
    }
}

/// Every dependency of `name` lies in `done`.
pub open spec fn deps_done(g: GraphV, name: Seq<char>, done: Set<Seq<char>>) -> bool {
    forall|k: int|
        0 <= k < deps_of(g, name).len() ==> done.contains(#[trigger] deps_of(g, name)[k])
}

/// The remaining layers whose dependencies are all done, in order.
pub open spec fn ready_part(g: GraphV, rem: Seq<Seq<char>>, done: Set<Seq<char>>) -> Seq<Seq<char>>
    decreases rem.len(),
{
    if rem.len() == 0 {
        Seq::empty()
    } else {
        let rest = ready_part(g, rem.drop_first(), done);
        if deps_done(g, rem[0], done) {
            seq![rem[0]] + rest
        } else {
            rest
        }
    }
}

/// The remaining layers with an outstanding dependency, in order.
pub open spec fn blocked_part(g: GraphV, rem: Seq<Seq<char>>, done: Set<Seq<char>>) -> Seq<
    Seq<char>,
>
    decreases rem.len(),
{
    if rem.len() == 0 {
        Seq::empty()
    } else {
        let rest = blocked_part(g, rem.drop_first(), done);
        if deps_done(g, rem[0], done) {
            rest
        } else {
            seq![rem[0]] + rest
        }
    }
}

/// Unfolds one step of `deps_of` over the suffix starting at `i`.
pub proof fn lemma_deps_of_step(g: GraphV, name: Seq<char>, i: int)
    requires
        0 <= i < g.len(),
    ensures
        deps_of(g.skip(i), name) == if g[i].0 == name {
            g[i].1
        } else {
            deps_of(g.skip(i + 1), name)
        },
{
    assert(g.skip(i).len() == g.len() - i);
    assert(g.skip(i)[0] == g[i]);
    assert(g.skip(i).drop_first() =~= g.skip(i + 1));
}

/// The two parts of a split over `s.push(x)` extend the parts over `s`.
pub proof fn lemma_split_snoc(g: GraphV, s: Seq<Seq<char>>, x: Seq<char>, done: Set<Seq<char>>)
    ensures
        ready_part(g, s.push(x), done) == if deps_done(g, x, done) {
            ready_part(g, s, done).push(x)
        } else {
            ready_part(g, s, done)
        },
        blocked_part(g, s.push(x), done) == if deps_done(g, x, done) {
            blocked_part(g, s, done)
        } else {
            blocked_part(g, s, done).push(x)
        },
    decreases s.len(),
{
    let sp = s.push(x);
    if s.len() == 0 {
        assert(sp.drop_first() =~= Seq::<Seq<char>>::empty());
        assert(sp.drop_first() == Seq::<Seq<char>>::empty());
        assert(sp[0] == x);
        assert(ready_part(g, Seq::<Seq<char>>::empty(), done) == Seq::<Seq<char>>::empty());
        assert(blocked_part(g, Seq::<Seq<char>>::empty(), done) == Seq::<Seq<char>>::empty());
        if deps_done(g, x, done) {
            assert(ready_part(g, sp, done) == seq![x] + Seq::<Seq<char>>::empty());
            assert(ready_part(g, sp, done) =~= ready_part(g, s, done).push(x));
            assert(blocked_part(g, sp, done) =~= blocked_part(g, s, done));
        } else {
            assert(blocked_part(g, sp, done) == seq![x] + Seq::<Seq<char>>::empty());
            assert(ready_part(g, sp, done) =~= ready_part(g, s, done));
            assert(blocked_part(g, sp, done) =~= blocked_part(g, s, done).push(x));
        }
    } else {
        assert(sp.drop_first() =~= s.drop_first().push(x));
        assert(sp[0] == s[0]);
        lemma_split_snoc(g, s.drop_first(), x, done);
        let r0 = ready_part(g, s.drop_first(), done);
        let b0 = blocked_part(g, s.drop_first(), done);
        if deps_done(g, x, done) {
            assert(ready_part(g, sp.drop_first(), done) == r0.push(x));
            assert(blocked_part(g, sp.drop_first(), done) == b0);
            if deps_done(g, s[0], done) {
                assert(ready_part(g, sp, done) == seq![s[0]] + r0.push(x));
                assert(seq![s[0]] + r0.push(x) =~= (seq![s[0]] + r0).push(x));
                assert(ready_part(g, s, done) == seq![s[0]] + r0);
                assert(blocked_part(g, sp, done) == b0);
                assert(blocked_part(g, s, done) == b0);
            } else {
                assert(ready_part(g, sp, done) == r0.push(x));
                assert(ready_part(g, s, done) == r0);
                assert(blocked_part(g, sp, done) == seq![s[0]] + b0);
                assert(blocked_part(g, s, done) == seq![s[0]] + b0);
            }
        } else {
            assert(ready_part(g, sp.drop_first(), done) == r0);
            assert(blocked_part(g, sp.drop_first(), done) == b0.push(x));
            if deps_done(g, s[0], done) {
                assert(ready_part(g, sp, done) == seq![s[0]] + r0);
                assert(ready_part(g, s, done) == seq![s[0]] + r0);
                assert(blocked_part(g, sp, done) == b0.push(x));
                assert(blocked_part(g, s, done) == b0);
            } else {
                assert(ready_part(g, sp, done) == r0);
                assert(ready_part(g, s, done) == r0);
                assert(blocked_part(g, sp, done) == seq![s[0]] + b0.push(x));
                assert(seq![s[0]] + b0.push(x) =~= (seq![s[0]] + b0).push(x));
                assert(blocked_part(g, s, done) == seq![s[0]] + b0);
            }
        }
    }
}

/// The split partitions `rem`: the parts' lengths sum to its length.
pub proof fn lemma_split_len(g: GraphV, rem: Seq<Seq<char>>, done: Set<Seq<char>>)
    ensures
        ready_part(g, rem, done).len() + blocked_part(g, rem, done).len() == rem.len(),
    decreases rem.len(),
{
    if rem.len() > 0 {
        lemma_split_len(g, rem.drop_first(), done);
    }
}

/// The split partitions `rem` as a multiset.
pub proof fn lemma_split_multiset(g: GraphV, rem: Seq<Seq<char>>, done: Set<Seq<char>>)
    ensures
        ready_part(g, rem, done).to_multiset().add(blocked_part(g, rem, done).to_multiset())
            =~= rem.to_multiset(),
    decreases rem.len(),
{
    broadcast use vstd::seq_lib::group_to_multiset_ensures;

    if rem.len() > 0 {
        lemma_split_multiset(g, rem.drop_first(), done);
        assert(rem =~= seq![rem[0]] + rem.drop_first());
        lemma_multiset_commutative(seq![rem[0]], rem.drop_first());
        if deps_done(g, rem[0], done) {
            lemma_multiset_commutative(seq![rem[0]], ready_part(g, rem.drop_first(), done));
        } else {
            lemma_multiset_commutative(seq![rem[0]], blocked_part(g, rem.drop_first(), done));
        }
        assert(seq![rem[0]].to_multiset() =~= Multiset::<Seq<char>>::empty().insert(rem[0]));
    }
}

/// Members of the ready part are remaining layers whose dependencies are
/// done; members of the blocked part are the others.
pub proof fn lemma_split_members(g: GraphV, rem: Seq<Seq<char>>, done: Set<Seq<char>>)
    ensures
        forall|i: int|
            0 <= i < ready_part(g, rem, done).len() ==> rem.contains(
                #[trigger] ready_part(g, rem, done)[i],
            ) && deps_done(g, ready_part(g, rem, done)[i], done),
        forall|i: int|
            0 <= i < blocked_part(g, rem, done).len() ==> rem.contains(
                #[trigger] blocked_part(g, rem, done)[i],
            ) && !deps_done(g, blocked_part(g, rem, done)[i], done),
    decreases rem.len(),
{
    if rem.len() > 0 {
        lemma_split_members(g, rem.drop_first(), done);
        let rest = rem.drop_first();
        let r0 = ready_part(g, rest, done);
        let b0 = blocked_part(g, rest, done);
        assert forall|x: Seq<char>| rest.contains(x) implies rem.contains(x) by {
            let j = choose|j: int| 0 <= j < rest.len() && rest[j] == x;
            assert(rem[j + 1] == x);
        }
        assert(rem.contains(rem[0]));
        assert forall|i: int|
            0 <= i < ready_part(g, rem, done).len() implies rem.contains(
            #[trigger] ready_part(g, rem, done)[i],
        ) && deps_done(g, ready_part(g, rem, done)[i], done) by {
            if deps_done(g, rem[0], done) {
                assert(ready_part(g, rem, done) == seq![rem[0]] + r0);
                if i == 0 {
                    assert(ready_part(g, rem, done)[0] == rem[0]);
                } else {
                    assert(ready_part(g, rem, done)[i] == r0[i - 1]);
                    assert(rest.contains(r0[i - 1]));
                }
            } else {
                assert(ready_part(g, rem, done) == r0);
                assert(rest.contains(r0[i]));
            }
        }
        assert forall|i: int|
            0 <= i < blocked_part(g, rem, done).len() implies rem.contains(
            #[trigger] blocked_part(g, rem, done)[i],
        ) && !deps_done(g, blocked_part(g, rem, done)[i], done) by {
            if !deps_done(g, rem[0], done) {
                assert(blocked_part(g, rem, done) == seq![rem[0]] + b0);
                if i == 0 {
                    assert(blocked_part(g, rem, done)[0] == rem[0]);
                } else {
                    assert(blocked_part(g, rem, done)[i] == b0[i - 1]);
                    assert(rest.contains(b0[i - 1]));
                }
            } else {
                assert(blocked_part(g, rem, done) == b0);
                assert(rest.contains(b0[i]));
            }
        }
    }
}

/// Looks up the name in the list, comparing by characters.
pub fn contains_name(v: &Vec<String>, name: &String) -> (b: bool)
    ensures
        b == names_view(v@).contains(name@),
{
    let n = v.len();
    let mut i: usize = 0;
    while i < n
        invariant
            n == v.len(),
            i <= n,
            forall|j: int| 0 <= j < i ==> names_view(v@)[j] != name@,
        decreases n - i,
    {
        if crate::strutil::str_eq(v[i].as_str(), name.as_str()) {
            proof {
                assert(names_view(v@)[i as int] == name@);
            }
            return true;
        }
        i += 1;
    }
    proof {
        assert forall|j: int| 0 <= j < names_view(v@).len() implies names_view(v@)[j]
            != name@ by {}
    }
    false
}

/// Tests whether every dependency recorded for `name` is in `done`.
pub fn deps_satisfied(deps: &Vec<(String, Vec<String>)>, name: &String, done: &Vec<String>) -> (b:
    bool)
    ensures
        b == deps_done(graph_view(deps@), name@, names_view(done@).to_set()),
{
    let ghost g = graph_view(deps@);
    let ghost ds = names_view(done@).to_set();
    proof {
        assert(g.skip(0) =~= g);
    }
    let n = deps.len();
    let mut i: usize = 0;
    while i < n
        invariant
            n == deps.len(),
            g == graph_view(deps@),
            ds == names_view(done@).to_set(),
            i <= n,
            deps_of(g, name@) == deps_of(g.skip(i as int), name@),
        decreases n - i,
    {
        proof {
            lemma_deps_of_step(g, name@, i as int);
        }
        if crate::strutil::str_eq(deps[i].0.as_str(), name.as_str()) {
            // found the entry for this layer: check each of its dependencies
            let entry = &deps[i].1;
            proof {
                assert(g[i as int] == (deps@[i as int].0@, names_view(deps@[i as int].1@)));
                assert(deps_of(g, name@) == names_view(entry@));
            }
            let m = entry.len();
            let mut k: usize = 0;
            while k < m
                invariant
                    m == entry.len(),
                    g == graph_view(deps@),
                    ds == names_view(done@).to_set(),
                    deps_of(g, name@) == names_view(entry@),
                    k <= m,
                    forall|j: int| 0 <= j < k ==> ds.contains(#[trigger] names_view(entry@)[j]),
                decreases m - k,
            {
                if !contains_name(done, &entry[k]) {
                    proof {
                        broadcast use vstd::set::group_set_axioms;

                        assert(names_view(entry@)[k as int] == entry@[k as int]@);
                        assert(!ds.contains(deps_of(g, name@)[k as int]));
                        assert(0 <= k < deps_of(g, name@).len());
                        assert(!deps_done(g, name@, ds));
                    }
                    return false;
                }
                proof {
                    assert(names_view(entry@)[k as int] == entry@[k as int]@);
                }
                k += 1;
            }
            return true;
        }
        i += 1;
    }
    proof {
        assert(g.skip(n as int) =~= Seq::<(Seq<char>, Seq<Seq<char>>)>::empty());
    }
    true
}

/// Splits the remaining layers into those ready to run and those blocked.
pub fn split_ready(
    remaining: &Vec<String>,
    deps: &Vec<(String, Vec<String>)>,
    done: &Vec<String>,
) -> (r: (Vec<String>, Vec<String>))
    ensures
        names_view(r.0@) == ready_part(
            graph_view(deps@),
            names_view(remaining@),
            names_view(done@).to_set(),
        ),
        names_view(r.1@) == blocked_part(
            graph_view(deps@),
            names_view(remaining@),
            names_view(done@).to_set(),
        ),
{
    let ghost g = graph_view(deps@);
    let ghost ds = names_view(done@).to_set();
    let ghost rv = names_view(remaining@);
    let mut rdy: Vec<String> = Vec::new();
    let mut blk: Vec<String> = Vec::new();
    let n = remaining.len();
    let mut i: usize = 0;
    proof {
        assert(rv.take(0) =~= Seq::<Seq<char>>::empty());
        assert(names_view(rdy@) =~= ready_part(g, rv.take(0), ds));
        assert(names_view(blk@) =~= blocked_part(g, rv.take(0), ds));
    }
    while i < n
        invariant
            n == remaining.len(),
            g == graph_view(deps@),
            ds == names_view(done@).to_set(),
            rv == names_view(remaining@),
            i <= n,
            names_view(rdy@) == ready_part(g, rv.take(i as int), ds),
            names_view(blk@) == blocked_part(g, rv.take(i as int), ds),
        decreases n - i,
    {
        proof {
            assert(rv.take(i + 1) =~= rv.take(i as int).push(rv[i as int]));
            lemma_split_snoc(g, rv.take(i as int), rv[i as int], ds);
            assert(remaining@[i as int]@ == rv[i as int]);
        }
        if deps_satisfied(deps, &remaining[i], done) {
            rdy.push(remaining[i].clone());
            proof {
                assert(names_view(rdy@) =~= ready_part(g, rv.take(i + 1), ds));
            }
        } else {
            blk.push(remaining[i].clone());
            proof {
                assert(names_view(blk@) =~= blocked_part(g, rv.take(i + 1), ds));
            }
        }
        i += 1;
    }
    proof {
        assert(rv.take(n as int) =~= rv);
    }
    (rdy, blk)
}

/// The rounds of a schedule: each round takes every remaining layer whose
/// dependencies are all done; `None` when some layers can never become ready.
pub open spec fn rounds_from(g: GraphV, rem: Seq<Seq<char>>, done: Set<Seq<char>>) -> Option<
    Seq<Seq<Seq<char>>>,
>
    decreases rem.len(),
    via rounds_from_decreases
{
    if rem.len() == 0 {
        Some(Seq::empty())
    } else {
        let rdy = ready_part(g, rem, done);
        if rdy.len() == 0 {
            None
        } else {
            match rounds_from(g, blocked_part(g, rem, done), done.union(rdy.to_set())) {
                Some(rs) => Some(seq![rdy] + rs),
                None => None,
            }
        }
    }
}

#[via_fn]
proof fn rounds_from_decreases(g: GraphV, rem: Seq<Seq<char>>, done: Set<Seq<char>>) {
    if rem.len() > 0 {
        lemma_split_len(g, rem, done);
    }
}

/// The rounds laid out as one flat ordering.
pub open spec fn flat_rounds(rs: Seq<Seq<Seq<char>>>) -> Seq<Seq<char>>
    decreases rs.len(),
{
    if rs.len() == 0 {
        Seq::empty()
    } else {
        rs.first() + flat_rounds(rs.drop_first())
    }
}

pub proof fn lemma_flat_cons(x: Seq<Seq<char>>, rs: Seq<Seq<Seq<char>>>)
    ensures
        flat_rounds(seq![x] + rs) == x + flat_rounds(rs),
{
    assert((seq![x] + rs).len() > 0);
    assert((seq![x] + rs).first() == x);
    assert((seq![x] + rs).drop_first() =~= rs);
}

/// Every remaining layer lands in one of the two parts of the split.
pub proof fn lemma_split_complete(g: GraphV, rem: Seq<Seq<char>>, done: Set<Seq<char>>)
    ensures
        forall|x: Seq<char>|
            rem.contains(x) ==> ready_part(g, rem, done).contains(x) || blocked_part(
                g,
                rem,
                done,
            ).contains(x),
    decreases rem.len(),
{
    if rem.len() > 0 {
        let rest = rem.drop_first();
        lemma_split_complete(g, rest, done);
        let r0 = ready_part(g, rest, done);
        let b0 = blocked_part(g, rest, done);
        assert forall|x: Seq<char>| rem.contains(x) implies ready_part(g, rem, done).contains(x)
            || blocked_part(g, rem, done).contains(x) by {
            let j = choose|j: int| 0 <= j < rem.len() && rem[j] == x;
            if j > 0 {
                assert(rest[j - 1] == x);
                assert(rest.contains(x));
                if r0.contains(x) {
                    let i = choose|i: int| 0 <= i < r0.len() && r0[i] == x;
                    if deps_done(g, rem[0], done) {
                        assert(ready_part(g, rem, done)[i + 1] == x);
                    } else {
                        assert(ready_part(g, rem, done)[i] == x);
                    }
                    assert(ready_part(g, rem, done).contains(x));
                } else {
                    let i = choose|i: int| 0 <= i < b0.len() && b0[i] == x;
                    if !deps_done(g, rem[0], done) {
                        assert(blocked_part(g, rem, done)[i + 1] == x);
                    } else {
                        assert(blocked_part(g, rem, done)[i] == x);
                    }
                    assert(blocked_part(g, rem, done).contains(x));
                }
            } else {
                if deps_done(g, rem[0], done) {
                    assert(ready_part(g, rem, done)[0] == x);
                    assert(ready_part(g, rem, done).contains(x));
                } else {
                    assert(blocked_part(g, rem, done)[0] == x);
                    assert(blocked_part(g, rem, done).contains(x));
                }
            }
        }
    }
}

/// On a duplicate-free remainder the two parts are duplicate-free and share
/// no layer.
pub proof fn lemma_split_no_dup(g: GraphV, rem: Seq<Seq<char>>, done: Set<Seq<char>>)
    requires
        rem.no_duplicates(),
    ensures
        ready_part(g, rem, done).no_duplicates(),
        blocked_part(g, rem, done).no_duplicates(),
    decreases rem.len(),
{
    if rem.len() > 0 {
        let rest = rem.drop_first();
        assert(rest.no_duplicates());
        lemma_split_no_dup(g, rest, done);
        lemma_split_members(g, rest, done);
        let r0 = ready_part(g, rest, done);
        let b0 = blocked_part(g, rest, done);
        assert(!rest.contains(rem[0])) by {
            if rest.contains(rem[0]) {
                let j = choose|j: int| 0 <= j < rest.len() && rest[j] == rem[0];
                assert(rem[j + 1] == rem[0]);
            }
        }
        if deps_done(g, rem[0], done) {
            assert(ready_part(g, rem, done) == seq![rem[0]] + r0);
            assert(ready_part(g, rem, done).no_duplicates()) by {
                let w = seq![rem[0]] + r0;
                assert forall|i: int, j: int| 0 <= i < j < w.len() implies w[i] != w[j] by {
                    if i == 0 {
                        assert(w[j] == r0[j - 1]);
                        assert(rest.contains(r0[j - 1]));
                    } else {
                        assert(w[i] == r0[i - 1] && w[j] == r0[j - 1]);
                    }
                }
            }
        } else {
            assert(blocked_part(g, rem, done) == seq![rem[0]] + b0);
            assert(blocked_part(g, rem, done).no_duplicates()) by {
                let w = seq![rem[0]] + b0;
                assert forall|i: int, j: int| 0 <= i < j < w.len() implies w[i] != w[j] by {
                    if i == 0 {
                        assert(w[j] == b0[j - 1]);
                        assert(rest.contains(b0[j - 1]));
                    } else {
                        assert(w[i] == b0[i - 1] && w[j] == b0[j - 1]);
                    }
                }
            }
        }
    }
}

/// Every dependency of each layer in `order` lies in `done0` or earlier in
/// `order`.
pub open spec fn order_respects(g: GraphV, order: Seq<Seq<char>>, done0: Set<Seq<char>>) -> bool {
    forall|i: int, k: int|
        0 <= i < order.len() && 0 <= k < deps_of(g, order[i]).len() ==> done0.contains(
            #[trigger] deps_of(g, #[trigger] order[i])[k],
        ) || order.take(i).contains(deps_of(g, order[i])[k])
}

/// A successful round computation orders every layer after its dependencies.
pub proof fn lemma_rounds_order(
    g: GraphV,
    rem: Seq<Seq<char>>,
    done: Set<Seq<char>>,
    rs: Seq<Seq<Seq<char>>>,
)
    requires
        rounds_from(g, rem, done) == Some(rs),
    ensures
        order_respects(g, flat_rounds(rs), done),
    decreases rem.len(),
{
    if rem.len() == 0 {
        assert(flat_rounds(rs).len() == 0);
    } else {
        let rdy = ready_part(g, rem, done);
        let blk = blocked_part(g, rem, done);
        let done1 = done.union(rdy.to_set());
        let rs1 = rounds_from(g, blk, done1)->Some_0;
        lemma_split_len(g, rem, done);
        lemma_rounds_order(g, blk, done1, rs1);
        lemma_split_members(g, rem, done);
        assert(rs == seq![rdy] + rs1);
        lemma_flat_cons(rdy, rs1);
        let f1 = flat_rounds(rs1);
        let flat = flat_rounds(rs);
        assert(flat == rdy + f1);
        assert forall|i: int, k: int|
            0 <= i < flat.len() && 0 <= k < deps_of(g, flat[i]).len() implies done.contains(
            deps_of(g, flat[i])[k],
        ) || flat.take(i).contains(deps_of(g, flat[i])[k]) by {
            if i < rdy.len() {
                assert(flat[i] == rdy[i]);
                assert(deps_done(g, rdy[i], done));
                assert(done.contains(deps_of(g, flat[i])[k]));
            } else {
                let j = i - rdy.len();
                assert(flat[i] == f1[j]);
                let dep = deps_of(g, f1[j])[k];
                assert(done1.contains(dep) || f1.take(j).contains(dep));
                if done1.contains(dep) && !done.contains(dep) {
                    // the dependency sits in the round just emitted
                    assert(rdy.to_set().contains(dep));
                    assert(rdy.contains(dep));
                    let p = choose|p: int| 0 <= p < rdy.len() && rdy[p] == dep;
                    assert(flat.take(i)[p] == dep);
                    assert(flat.take(i).contains(dep));
                } else if !done1.contains(dep) {
                    assert(f1.take(j).contains(dep));
                    let p = choose|p: int| 0 <= p < j && f1.take(j)[p] == dep;
                    assert(flat.take(i)[rdy.len() + p] == dep);
                    assert(flat.take(i).contains(dep));
                }
            }
        }
    }
}

/// A successful round computation is a permutation of the remaining layers.
pub proof fn lemma_rounds_multiset(
    g: GraphV,
    rem: Seq<Seq<char>>,
    done: Set<Seq<char>>,
    rs: Seq<Seq<Seq<char>>>,
)
    requires
        rounds_from(g, rem, done) == Some(rs),
    ensures
        flat_rounds(rs).to_multiset() == rem.to_multiset(),
    decreases rem.len(),
{
    if rem.len() == 0 {
        assert(flat_rounds(rs) =~= rem);
    } else {
        let rdy = ready_part(g, rem, done);
        let blk = blocked_part(g, rem, done);
        let done1 = done.union(rdy.to_set());
        let rs1 = rounds_from(g, blk, done1)->Some_0;
        lemma_split_len(g, rem, done);
        lemma_rounds_multiset(g, blk, done1, rs1);
        lemma_split_multiset(g, rem, done);
        assert(rs == seq![rdy] + rs1);
        lemma_flat_cons(rdy, rs1);
        lemma_multiset_commutative(rdy, flat_rounds(rs1));
        assert(flat_rounds(rs).to_multiset() =~= rem.to_multiset());
    }
}

/// Acyclicity of the dependency relation on a node set: every nonempty
/// subset holds a node none of whose dependencies lie in the subset.
pub open spec fn acyclic_within(g: GraphV, nodes: Set<Seq<char>>) -> bool {
    forall|s: Set<Seq<char>>|
        #![trigger s.subset_of(nodes)]
        s.subset_of(nodes) && s.finite() && s.len() > 0 ==> exists|l: Seq<char>|
            #![auto]
            s.contains(l) && forall|k: int|
                0 <= k < deps_of(g, l).len() ==> !s.contains(#[trigger] deps_of(g, l)[k])
}

/// On an acyclic graph whose dependencies stay inside `done` and the
/// remainder, the round computation succeeds.
pub proof fn lemma_rounds_some(g: GraphV, rem: Seq<Seq<char>>, done: Set<Seq<char>>)
    requires
        rem.no_duplicates(),
        forall|i: int| 0 <= i < rem.len() ==> !done.contains(#[trigger] rem[i]),
        forall|i: int, k: int|
            0 <= i < rem.len() && 0 <= k < deps_of(g, rem[i]).len() ==> done.contains(
                #[trigger] deps_of(g, #[trigger] rem[i])[k],
            ) || rem.to_set().contains(deps_of(g, rem[i])[k]),
        acyclic_within(g, rem.to_set()),
    ensures
        rounds_from(g, rem, done) is Some,
    decreases rem.len(),
{
    broadcast use vstd::set::group_set_axioms;

    if rem.len() > 0 {
        let rset = rem.to_set();
        assert(rset.subset_of(rset));
        rem.unique_seq_to_set();
        assert(rset.len() > 0);
        let l = choose|l: Seq<char>|
            #![auto]
            rset.contains(l) && forall|k: int|
                0 <= k < deps_of(g, l).len() ==> !rset.contains(#[trigger] deps_of(g, l)[k]);
        let li = choose|li: int| 0 <= li < rem.len() && rem[li] == l;
        assert(deps_done(g, l, done)) by {
            assert forall|k: int| 0 <= k < deps_of(g, l).len() implies done.contains(
                #[trigger] deps_of(g, l)[k],
            ) by {
                assert(deps_of(g, rem[li])[k] == deps_of(g, l)[k]);
            }
        }
        lemma_ready_complete(g, rem, done, l);
        let rdy = ready_part(g, rem, done);
        let blk = blocked_part(g, rem, done);
        assert(rdy.len() > 0);
        let done1 = done.union(rdy.to_set());
        lemma_split_len(g, rem, done);
        lemma_split_no_dup(g, rem, done);
        lemma_split_members(g, rem, done);
        lemma_split_complete(g, rem, done);
        lemma_split_multiset(g, rem, done);
        rem.lemma_multiset_has_no_duplicates();
        broadcast use vstd::seq_lib::group_to_multiset_ensures;

        // a layer cannot sit in both parts of the split
        assert forall|x: Seq<char>| blk.contains(x) implies !rdy.contains(x) by {
            if rdy.contains(x) && blk.contains(x) {
                assert(rdy.to_multiset().count(x) > 0);
                assert(blk.to_multiset().count(x) > 0);
                assert(rem.to_multiset().count(x) >= 2);
                assert(rem.contains(x));
            }
        }
        // the blocked part meets the preconditions again
        assert(forall|i: int| 0 <= i < blk.len() ==> !done1.contains(#[trigger] blk[i]));
        assert forall|i: int, k: int|
            0 <= i < blk.len() && 0 <= k < deps_of(g, blk[i]).len() implies done1.contains(
            #[trigger] deps_of(g, #[trigger] blk[i])[k],
        ) || blk.to_set().contains(deps_of(g, blk[i])[k]) by {
            assert(rem.contains(blk[i]));
            let p = choose|p: int| 0 <= p < rem.len() && rem[p] == blk[i];
            let dep = deps_of(g, rem[p])[k];
            assert(done.contains(dep) || rem.to_set().contains(dep));
            if !done.contains(dep) {
                assert(rem.contains(dep));
                if rdy.contains(dep) {
                    assert(done1.contains(dep));
                } else {
                    assert(blk.contains(dep));
                }
            }
        }
        assert(acyclic_within(g, blk.to_set())) by {
            assert forall|s: Set<Seq<char>>|
                #![trigger s.subset_of(blk.to_set())]
                s.subset_of(blk.to_set()) && s.finite() && s.len() > 0 implies exists|
                l: Seq<char>,
            |
                #![auto]
                s.contains(l) && forall|k: int|
                    0 <= k < deps_of(g, l).len() ==> !s.contains(
                        #[trigger] deps_of(g, l)[k],
                    ) by {
                assert(s.subset_of(rem.to_set()));
            }
        }
        lemma_rounds_some(g, blk, done1);
    }
}

/// A subset of the remainder in which every layer depends on another member
/// forces the round computation to fail.
pub proof fn lemma_rounds_none(
    g: GraphV,
    rem: Seq<Seq<char>>,
    done: Set<Seq<char>>,
    s: Set<Seq<char>>,
)
    requires
        rem.no_duplicates(),
        forall|i: int| 0 <= i < rem.len() ==> !done.contains(#[trigger] rem[i]),
        s.subset_of(rem.to_set()),
        s.finite(),
        s.len() > 0,
        forall|l: Seq<char>| #[trigger]
            s.contains(l) ==> exists|k: int|
                0 <= k < deps_of(g, l).len() && s.contains(#[trigger] deps_of(g, l)[k]),
    ensures
        rounds_from(g, rem, done) is None,
    decreases rem.len(),
{
    broadcast use vstd::set::group_set_axioms;
    broadcast use vstd::seq_lib::group_to_multiset_ensures;

    let witness = s.choose();
    assert(s.contains(witness));
    assert(rem.to_set().contains(witness));
    assert(rem.len() > 0);
    let rdy = ready_part(g, rem, done);
    let blk = blocked_part(g, rem, done);
    lemma_split_len(g, rem, done);
    lemma_split_no_dup(g, rem, done);
    lemma_split_members(g, rem, done);
    lemma_split_complete(g, rem, done);
    lemma_split_multiset(g, rem, done);
    rem.lemma_multiset_has_no_duplicates();
    // no member of `s` is ready: each has a dependency inside `s`, hence
    // inside the remainder, hence outside `done`
    assert forall|x: Seq<char>| s.contains(x) implies !rdy.contains(x) by {
        let k = choose|k: int|
            0 <= k < deps_of(g, x).len() && s.contains(#[trigger] deps_of(g, x)[k]);
        let dep = deps_of(g, x)[k];
        assert(rem.to_set().contains(dep));
        assert(rem.contains(dep));
        let p = choose|p: int| 0 <= p < rem.len() && rem[p] == dep;
        assert(!done.contains(dep));
        assert(!deps_done(g, x, done));
        if rdy.contains(x) {
            let q = choose|q: int| 0 <= q < rdy.len() && rdy[q] == x;
            assert(deps_done(g, rdy[q], done));
        }
    }
    if rdy.len() == 0 {
    } else {
        let done1 = done.union(rdy.to_set());
        // a layer cannot sit in both parts of the split
        assert forall|x: Seq<char>| blk.contains(x) implies !rdy.contains(x) by {
            if rdy.contains(x) && blk.contains(x) {
                assert(rdy.to_multiset().count(x) > 0);
                assert(blk.to_multiset().count(x) > 0);
                assert(rem.to_multiset().count(x) >= 2);
                assert(rem.contains(x));
            }
        }
        assert(forall|i: int| 0 <= i < blk.len() ==> !done1.contains(#[trigger] blk[i]));
        assert(s.subset_of(blk.to_set())) by {
            assert forall|x: Seq<char>| s.contains(x) implies blk.to_set().contains(x) by {
                assert(rem.contains(x));
                assert(!rdy.contains(x));
                assert(blk.contains(x));
            }
        }
        lemma_rounds_none(g, blk, done1, s);
    }
}

/// A remaining layer whose dependencies are done is in the ready part.
pub proof fn lemma_ready_complete(
    g: GraphV,
    rem: Seq<Seq<char>>,
    done: Set<Seq<char>>,
    l: Seq<char>,
)
    requires
        rem.contains(l),
        deps_done(g, l, done),
    ensures
        ready_part(g, rem, done).contains(l),
{
    lemma_split_complete(g, rem, done);
    lemma_split_members(g, rem, done);
    if blocked_part(g, rem, done).contains(l) {
        let i = choose|i: int|
            0 <= i < blocked_part(g, rem, done).len() && blocked_part(g, rem, done)[i] == l;
        assert(!deps_done(g, blocked_part(g, rem, done)[i], done));
    }
}

/// The list without every occurrence of `x`, order kept.
pub open spec fn drop_name(s: Seq<Seq<char>>, x: Seq<char>) -> Seq<Seq<char>>
    decreases s.len(),
{
    if s.len() == 0 {
        Seq::empty()
    } else {
        let rest = drop_name(s.drop_last(), x);
        if s.last() == x {
            rest
        } else {
            rest.push(s.last())
        }
    }
}

/// Dropping a name that occurs only at the head leaves the tail.
pub proof fn lemma_drop_name_head(s: Seq<Seq<char>>, x: Seq<char>)
    requires
        s.len() > 0,
        s[0] == x,
        !s.drop_first().contains(x),
    ensures
        drop_name(s, x) == s.drop_first(),
    decreases s.len(),
{
    if s.len() == 1 {
        assert(s.last() == x);
        assert(s.drop_last() =~= Seq::<Seq<char>>::empty());
        assert(s.drop_last() == Seq::<Seq<char>>::empty());
        assert(drop_name(Seq::<Seq<char>>::empty(), x) == Seq::<Seq<char>>::empty());
        assert(drop_name(s, x) == Seq::<Seq<char>>::empty());
        assert(s.drop_first() =~= Seq::<Seq<char>>::empty());
    } else {
        assert(s.drop_first()[s.len() - 2] == s.last());
        assert(s.drop_first().contains(s.last()) ==> s.last() != x);
        assert(s.drop_first().contains(s.last()));
        let sd = s.drop_last();
        assert(sd[0] == x);
        assert(sd.drop_first() =~= s.drop_first().drop_last());
        assert(!sd.drop_first().contains(x)) by {
            if sd.drop_first().contains(x) {
                let j = choose|j: int|
                    0 <= j < sd.drop_first().len() && sd.drop_first()[j] == x;
                assert(s.drop_first()[j] == x);
            }
        }
        lemma_drop_name_head(sd, x);
        assert(drop_name(s, x) == drop_name(sd, x).push(s.last()));
        assert(sd.drop_first().push(s.last()) =~= s.drop_first());
    }
}

/// With implicit initializer edges in place, the first scheduled layer is
/// the initializer.
pub proof fn lemma_init_first(
    g: GraphV,
    ns: Seq<Seq<char>>,
    n: Seq<char>,
    rs: Seq<Seq<Seq<char>>>,
)
    requires
        ns.no_duplicates(),
        ns.contains(n),
        deps_of(g, n).len() == 0,
        forall|i: int|
            0 <= i < ns.len() && ns[i] != n ==> deps_of(g, #[trigger] ns[i]).contains(n),
        rounds_from(g, ns, Set::empty()) == Some(rs),
    ensures
        flat_rounds(rs).len() == ns.len(),
        flat_rounds(rs)[0] == n,
{
    broadcast use vstd::set::group_set_axioms;
    broadcast use vstd::seq_lib::group_to_multiset_ensures;

    assert(ns.len() > 0);
    let done0 = Set::<Seq<char>>::empty();
    let rdy = ready_part(g, ns, done0);
    assert(deps_done(g, n, done0));
    lemma_ready_complete(g, ns, done0, n);
    lemma_split_members(g, ns, done0);
    lemma_split_no_dup(g, ns, done0);
    assert forall|i: int| 0 <= i < rdy.len() implies #[trigger] rdy[i] == n by {
        assert(ns.contains(rdy[i]));
        assert(deps_done(g, rdy[i], done0));
        if rdy[i] != n {
            let j = choose|j: int| 0 <= j < ns.len() && ns[j] == rdy[i];
            assert(deps_of(g, ns[j]).contains(n));
            let k = choose|k: int| 0 <= k < deps_of(g, ns[j]).len() && deps_of(g, ns[j])[k] == n;
            assert(done0.contains(deps_of(g, rdy[i])[k]));
        }
    }
    assert(rdy.contains(n));
    assert(rdy.len() >= 1);
    assert(rdy.len() <= 1) by {
        if rdy.len() >= 2 {
            assert(rdy[0] == n && rdy[1] == n);
        }
    }
    assert(rdy =~= seq![n]);
    let blk = blocked_part(g, ns, done0);
    let rs1 = rounds_from(g, blk, done0.union(rdy.to_set()))->Some_0;
    assert(rs == seq![rdy] + rs1);
    lemma_flat_cons(rdy, rs1);
    assert(flat_rounds(rs)[0] == n);
    lemma_rounds_multiset(g, ns, done0, rs);
    assert(flat_rounds(rs).to_multiset().len() == ns.to_multiset().len());
    assert(flat_rounds(rs).len() == ns.len());
}

/// When every remaining layer is ready, the round takes all of them.
pub proof fn lemma_all_ready(g: GraphV, rem: Seq<Seq<char>>, done: Set<Seq<char>>)
    requires
        forall|i: int| 0 <= i < rem.len() ==> deps_done(g, #[trigger] rem[i], done),
    ensures
        ready_part(g, rem, done) == rem,
        blocked_part(g, rem, done) == Seq::<Seq<char>>::empty(),
    decreases rem.len(),
{
    if rem.len() > 0 {
        let rest = rem.drop_first();
        assert(forall|j: int| 0 <= j < rest.len() ==> #[trigger] rest[j] == rem[j + 1]);
        lemma_all_ready(g, rest, done);
        assert(deps_done(g, rem[0], done));
        assert(ready_part(g, rem, done) =~= rem);
        assert(blocked_part(g, rem, done) =~= Seq::<Seq<char>>::empty());
    } else {
        assert(ready_part(g, rem, done) =~= rem);
        assert(blocked_part(g, rem, done) =~= Seq::<Seq<char>>::empty());
    }
}

/// Layers with no recorded dependencies schedule as one single round that
/// holds all of them, in order.
pub proof fn lemma_independent_layers_single_round(g: GraphV, parts: Seq<Seq<char>>)
    requires
        parts.len() > 0,
        forall|i: int| 0 <= i < parts.len() ==> deps_of(g, #[trigger] parts[i]).len() == 0,
    ensures
        rounds_from(g, parts, Set::empty()) == Some(seq![parts]),
{
    assert forall|i: int| 0 <= i < parts.len() implies deps_done(
        g,
        #[trigger] parts[i],
        Set::empty(),
    ) by {}
    lemma_all_ready(g, parts, Set::empty());
    assert(rounds_from(g, blocked_part(g, parts, Set::empty()), Set::empty().union(
        ready_part(g, parts, Set::empty()).to_set())) == Some(Seq::<Seq<Seq<char>>>::empty()));
    assert(seq![parts] + Seq::<Seq<Seq<char>>>::empty() =~= seq![parts]);
}

/// A linear three-layer chain schedules as three rounds of one layer each,
/// in dependency order.
pub proof fn lemma_chain_three_rounds(g: GraphV, a: Seq<char>, b: Seq<char>, c: Seq<char>)
    requires
        a != b && b != c && a != c,
        deps_of(g, a).len() == 0,
        deps_of(g, b) == seq![a],
        deps_of(g, c) == seq![b],
    ensures
        rounds_from(g, seq![a, b, c], Set::empty()) == Some(seq![seq![a], seq![b], seq![c]]),
{
    broadcast use vstd::set::group_set_axioms;

    let d0 = Set::<Seq<char>>::empty();
    let s3 = seq![a, b, c];
    assert(deps_done(g, a, d0));
    assert(deps_of(g, b)[0] == a);
    assert(!deps_done(g, b, d0));
    assert(deps_of(g, c)[0] == b);
    assert(!deps_done(g, c, d0));
    let e0 = Seq::<Seq<char>>::empty();
    assert(s3.drop_first() =~= seq![b, c]);
    assert(s3.drop_first() == seq![b, c]);
    assert(seq![b, c].drop_first() =~= seq![c]);
    assert(seq![b, c].drop_first() == seq![c]);
    assert(seq![c].drop_first() =~= e0);
    assert(seq![c].drop_first() == e0);
    assert(ready_part(g, e0, d0) == e0);
    assert(blocked_part(g, e0, d0) == e0);
    assert(ready_part(g, seq![c], d0) == e0);
    assert(blocked_part(g, seq![c], d0) =~= seq![c]);
    assert(ready_part(g, seq![b, c], d0) == ready_part(g, seq![c], d0));
    assert(blocked_part(g, seq![b, c], d0) =~= seq![b] + blocked_part(g, seq![c], d0));
    assert(seq![b] + seq![c] =~= seq![b, c]);
    let r1 = ready_part(g, s3, d0);
    let b1 = blocked_part(g, s3, d0);
    assert(r1 == seq![a] + ready_part(g, seq![b, c], d0));
    assert(r1 =~= seq![a]);
    assert(b1 == blocked_part(g, seq![b, c], d0));
    assert(b1 =~= seq![b, c]);
    assert(r1.to_set() =~= Set::<Seq<char>>::empty().insert(a));
    let d1 = d0.union(r1.to_set());
    assert(d1.contains(a) && !d1.contains(b) && !d1.contains(c));
    assert(deps_done(g, b, d1));
    assert(!deps_done(g, c, d1));
    assert(ready_part(g, e0, d1) == e0);
    assert(blocked_part(g, e0, d1) == e0);
    assert(ready_part(g, seq![c], d1) == e0);
    assert(blocked_part(g, seq![c], d1) =~= seq![c]);
    let r2 = ready_part(g, seq![b, c], d1);
    let b2 = blocked_part(g, seq![b, c], d1);
    assert(r2 == seq![b] + ready_part(g, seq![c], d1));
    assert(r2 =~= seq![b]);
    assert(b2 == blocked_part(g, seq![c], d1));
    assert(b2 =~= seq![c]);
    assert(r2.to_set() =~= Set::<Seq<char>>::empty().insert(b));
    let d2 = d1.union(r2.to_set());
    assert(d2.contains(b));
    assert(deps_done(g, c, d2));
    assert(ready_part(g, e0, d2) == e0);
    assert(blocked_part(g, e0, d2) == e0);
    let r3 = ready_part(g, seq![c], d2);
    let b3 = blocked_part(g, seq![c], d2);
    assert(r3 == seq![c] + ready_part(g, e0, d2));
    assert(r3 =~= seq![c]);
    assert(b3 == blocked_part(g, e0, d2));
    assert(b3 =~= Seq::<Seq<char>>::empty());
    let d3 = d2.union(r3.to_set());
    assert(rounds_from(g, b3, d3) == Some(Seq::<Seq<Seq<char>>>::empty()));
    assert(rounds_from(g, seq![c], d2) == Some(seq![seq![c]] + Seq::<Seq<Seq<char>>>::empty()));
    assert(seq![seq![c]] + Seq::<Seq<Seq<char>>>::empty() =~= seq![seq![c]]);
    assert(rounds_from(g, seq![b, c], d1) == Some(seq![seq![b]] + seq![seq![c]]));
    assert(seq![seq![b]] + seq![seq![c]] =~= seq![seq![b], seq![c]]);
    assert(rounds_from(g, s3, d0) == Some(seq![seq![a]] + seq![seq![b], seq![c]]));
    assert(seq![seq![a]] + seq![seq![b], seq![c]] =~= seq![seq![a], seq![b], seq![c]]);
}

/// Model of a list of rounds.
pub open spec fn rounds_view(rs: Seq<Vec<String>>) -> Seq<Seq<Seq<char>>> {
    rs.map_values(|v: Vec<String>| names_view(v@))
}

/// Concatenating name lists unions their sets.
pub proof fn lemma_concat_to_set(a: Seq<Seq<char>>, b: Seq<Seq<char>>)
    ensures
        (a + b).to_set() == a.to_set().union(b.to_set()),
{
    broadcast use vstd::set::group_set_axioms;

    assert forall|x: Seq<char>| (a + b).contains(x) implies a.to_set().union(
        b.to_set(),
    ).contains(x) by {
        let i = choose|i: int| 0 <= i < (a + b).len() && (a + b)[i] == x;
        if i < a.len() {
            assert(a[i] == x);
        } else {
            assert(b[i - a.len()] == x);
        }
    }
    assert forall|x: Seq<char>| a.to_set().union(b.to_set()).contains(x) implies (a
        + b).contains(x) by {
        if a.contains(x) {
            let i = choose|i: int| 0 <= i < a.len() && a[i] == x;
            assert((a + b)[i] == x);
        } else {
            let i = choose|i: int| 0 <= i < b.len() && b[i] == x;
            assert((a + b)[a.len() + i] == x);
        }
    }
    assert((a + b).to_set() =~= a.to_set().union(b.to_set()));
}

pub proof fn lemma_flat_snoc(s: Seq<Seq<Seq<char>>>, x: Seq<Seq<char>>)
    ensures
        flat_rounds(s.push(x)) == flat_rounds(s) + x,
    decreases s.len(),
{
    if s.len() == 0 {
        assert(s.push(x).first() == x);
        assert(s.push(x).drop_first() =~= Seq::<Seq<Seq<char>>>::empty());
        assert(flat_rounds(Seq::<Seq<Seq<char>>>::empty()) == Seq::<Seq<char>>::empty());
        assert(flat_rounds(s.push(x)) == x + Seq::<Seq<char>>::empty());
        assert(x + Seq::<Seq<char>>::empty() =~= x);
        assert(flat_rounds(s) + x =~= x);
    } else {
        assert(s.push(x).first() == s[0]);
        assert(s.push(x).drop_first() =~= s.drop_first().push(x));
        lemma_flat_snoc(s.drop_first(), x);
        assert(flat_rounds(s.push(x)) == s[0] + (flat_rounds(s.drop_first()) + x));
        assert(s[0] + (flat_rounds(s.drop_first()) + x) =~= (s[0] + flat_rounds(s.drop_first()))
            + x);
    }
}

/// Copies a list of names.
pub fn clone_names(v: &Vec<String>) -> (out: Vec<String>)
    ensures
        out@ == v@,
{
    let n = v.len();
    let mut out: Vec<String> = Vec::new();
    let mut i: usize = 0;
    while i < n
        invariant
            n == v.len(),
            i <= n,
            out@.len() == i,
            forall|j: int| 0 <= j < i ==> out@[j] == v@[j],
        decreases n - i,
    {
        out.push(v[i].clone());
        i += 1;
    }
    proof {
        assert(out@ =~= v@);
    }
    out
}

/// Computes the rounds of the schedule for the given layers: each round is
/// the set of layers whose dependencies all lie in earlier rounds.  Returns
/// `None` exactly when some layers remain that can never become ready.
pub fn compute_rounds(names: &Vec<String>, deps: &Vec<(String, Vec<String>)>) -> (r: Option<
    Vec<Vec<String>>,
>)
    ensures
        match r {
            Some(rs) => rounds_from(graph_view(deps@), names_view(names@), Set::empty()) == Some(
                rounds_view(rs@),
            ),
            None => rounds_from(graph_view(deps@), names_view(names@), Set::empty()) is None,
        },
{
    let ghost g = graph_view(deps@);
    let ghost nv0 = names_view(names@);
    let mut remaining = clone_names(names);
    let mut acc: Vec<Vec<String>> = Vec::new();
    let mut done_list: Vec<String> = Vec::new();
    proof {
        assert(names_view(done_list@).to_set() =~= Set::<Seq<char>>::empty());
        assert(rounds_view(acc@) =~= Seq::<Seq<Seq<char>>>::empty());
    }
    while remaining.len() > 0
        invariant
            g == graph_view(deps@),
            nv0 == names_view(names@),
            rounds_from(g, nv0, Set::empty()) == (match rounds_from(
                g,
                names_view(remaining@),
                names_view(done_list@).to_set(),
            ) {
                Some(rs) => Some(rounds_view(acc@) + rs),
                None => None,
            }),
        decreases remaining.len(),
    {
        let ghost rv = names_view(remaining@);
        let ghost ds = names_view(done_list@).to_set();
        let (rdy, blk) = split_ready(&remaining, deps, &done_list);
        let ghost rdyv = names_view(rdy@);
        let ghost blkv = names_view(blk@);
        proof {
            assert(rv.len() == remaining@.len());
            assert(rdyv == ready_part(g, rv, ds));
            assert(blkv == blocked_part(g, rv, ds));
        }
        if rdy.len() == 0 {
            proof {
                assert(rdyv.len() == 0);
                assert(rounds_from(g, rv, ds) is None);
            }
            return None;
        }
        proof {
            assert(rdyv.len() > 0);
        }
        let ghost old_acc = acc@;
        let ghost old_done = done_list@;
        let mut rdy2 = clone_names(&rdy);
        done_list.append(&mut rdy2);
        proof {
            assert(done_list@ == old_done + rdy@);
            assert(names_view(done_list@) =~= names_view(old_done) + rdyv);
            lemma_concat_to_set(names_view(old_done), rdyv);
        }
        acc.push(rdy);
        remaining = blk;
        proof {
            lemma_split_len(g, rv, ds);
            assert(rounds_view(acc@) =~= rounds_view(old_acc).push(rdyv));
            let ds1 = ds.union(rdyv.to_set());
            assert(names_view(done_list@).to_set() == ds1);
            assert(rounds_from(g, rv, ds) == (match rounds_from(g, blkv, ds1) {
                Some(rs1) => Some(seq![rdyv] + rs1),
                None => None,
            }));
            if rounds_from(g, blkv, ds1) is Some {
                let rs1 = rounds_from(g, blkv, ds1)->Some_0;
                assert(rounds_view(old_acc) + (seq![rdyv] + rs1) =~= rounds_view(acc@) + rs1);
            }
        }
    }
    proof {
        assert(names_view(remaining@).len() == 0);
        assert(rounds_from(g, names_view(remaining@), names_view(done_list@).to_set()) == Some(
            Seq::<Seq<Seq<char>>>::empty(),
        ));
        assert(rounds_view(acc@) + Seq::<Seq<Seq<char>>>::empty() =~= rounds_view(acc@));
    }
    Some(acc)
}

/// Lays the rounds out as one flat ordering.
pub fn flatten_rounds(rs: &Vec<Vec<String>>) -> (out: Vec<String>)
    ensures
        names_view(out@) == flat_rounds(rounds_view(rs@)),
{
    let n = rs.len();
    let mut out: Vec<String> = Vec::new();
    let mut i: usize = 0;
    proof {
        assert(rounds_view(rs@.take(0)) =~= Seq::<Seq<Seq<char>>>::empty());
        assert(names_view(out@) =~= flat_rounds(rounds_view(rs@.take(0))));
    }
    while i < n
        invariant
            n == rs.len(),
            i <= n,
            names_view(out@) == flat_rounds(rounds_view(rs@.take(i as int))),
        decreases n - i,
    {
        let mut part = clone_names(&rs[i]);
        let ghost out0 = out@;
        out.append(&mut part);
        proof {
            assert(rs@.take(i + 1) =~= rs@.take(i as int).push(rs@[i as int]));
            assert(rounds_view(rs@.take(i + 1)) =~= rounds_view(rs@.take(i as int)).push(
                names_view(rs@[i as int]@),
            ));
            lemma_flat_snoc(rounds_view(rs@.take(i as int)), names_view(rs@[i as int]@));
            assert(names_view(out@) =~= names_view(out0) + names_view(rs@[i as int]@));
        }
        i += 1;
    }
    proof {
        assert(rs@.take(n as int) =~= rs@);
    }
    out
}

} // verus!
