//! What stays true of a graph while it is built.

use vstd::prelude::*;
use crate::model::{
    absorb, absorb_named, acyclic, add_directs, closure_graph, declare, declared, declares,
    distinct_names, expand, expand_each, has_node, is_package, lemma_node_index,
    lemma_pending_update, links, node_index, pending, pop_work, reaches, same_names, seed,
    GraphState, Name, NodeState, PackageSpec, Witness,
};

verus! {

/// What a package knows at a later time, given what it knew before: its work
/// list has lost neighbours at its end and gained none, what it had found it
/// still has with the same witness, and what it found since is indirect.
pub open spec fn node_grows(before: NodeState, after: NodeState) -> bool {
    &&& after.name == before.name
    &&& after.work.len() <= before.work.len()
    &&& after.work == before.work.take(after.work.len() as int)
    &&& forall|d: Name| #[trigger]
        before.deps.dom().contains(d) ==> after.deps.dom().contains(d) && after.deps[d]
            == before.deps[d]
    &&& forall|d: Name| #[trigger]
        after.deps.dom().contains(d) && !before.deps.dom().contains(d) ==> after.deps[d] is Indirect
}

/// Every package of the later graph has grown out of its earlier state.
pub open spec fn grows(before: GraphState, after: GraphState) -> bool {
    &&& before.len() == after.len()
    &&& forall|i: int| 0 <= i < before.len() ==> node_grows(#[trigger] before[i], after[i])
}

/// A graph has grown out of itself.
pub proof fn lemma_grows_refl(s: GraphState)
    ensures
        grows(s, s),
{
    assert forall|i: int| 0 <= i < s.len() implies node_grows(#[trigger] s[i], s[i]) by {
        assert(s[i].work =~= s[i].work.take(s[i].work.len() as int));
    }
}

/// What has grown out of a graph that has grown out of another has grown
/// out of that one.
pub proof fn lemma_grows_trans(s: GraphState, t: GraphState, u: GraphState)
    requires
        grows(s, t),
        grows(t, u),
    ensures
        grows(s, u),
{
    assert forall|i: int| 0 <= i < s.len() implies node_grows(#[trigger] s[i], u[i]) by {
        assert(node_grows(s[i], t[i]));
        assert(node_grows(t[i], u[i]));
        assert(u[i].work =~= s[i].work.take(u[i].work.len() as int));
        assert forall|d: Name| #[trigger]
            u[i].deps.dom().contains(d) && !s[i].deps.dom().contains(d) implies u[i].deps[d] is Indirect by {
            if t[i].deps.dom().contains(d) {
            }
        }
    }
}

/// A graph that has grown out of another holds the same packages at the
/// same places.
pub proof fn lemma_grows_names(s: GraphState, t: GraphState)
    requires
        grows(s, t),
    ensures
        same_names(s, t),
        forall|a: Name| has_node(s, a) <==> has_node(t, a),
        distinct_names(s) ==> distinct_names(t),
        distinct_names(s) ==> forall|a: Name| has_node(s, a) ==> node_index(s, a) == node_index(t, a),
{
    assert forall|i: int| 0 <= i < s.len() implies (#[trigger] s[i]).name == t[i].name by {
        assert(node_grows(s[i], t[i]));
    }
    assert forall|a: Name| has_node(s, a) <==> has_node(t, a) by {
        if has_node(s, a) {
            let i = node_index(s, a);
            assert(t[i].name == a);
        }
        if has_node(t, a) {
            let i = node_index(t, a);
            assert(s[i].name == a);
        }
    }
    if distinct_names(s) {
        assert forall|i: int, j: int|
            0 <= i < t.len() && 0 <= j < t.len() && (#[trigger] t[i]).name == (#[trigger] t[j]).name implies i
            == j by {
            assert(s[i].name == s[j].name);
        }
        assert forall|a: Name| has_node(s, a) implies node_index(s, a) == node_index(t, a) by {
            let i = node_index(s, a);
            assert(t[i].name == a);
            lemma_node_index(t, i);
        }
    }
}

/// Taking a neighbour off a work list lets the graph grow, and one
/// neighbour less waits.
pub proof fn lemma_pop_work_grows(s: GraphState, i: int)
    requires
        0 <= i < s.len(),
        s[i].work.len() > 0,
    ensures
        grows(s, pop_work(s, i)),
        pending(pop_work(s, i)) == pending(s) - 1,
{
    let t = pop_work(s, i);
    lemma_pending_update(s, i, t[i]);
    assert forall|k: int| 0 <= k < s.len() implies node_grows(#[trigger] s[k], t[k]) by {
        assert(t[k].work =~= s[k].work.take(t[k].work.len() as int));
    }
}

/// Taking over the dependencies of a neighbour lets the graph grow, and as
/// many neighbours wait as before.
pub proof fn lemma_absorb_grows(s: GraphState, i: int, j: int)
    requires
        0 <= i < s.len(),
        0 <= j < s.len(),
    ensures
        grows(s, absorb(s, i, j)),
        pending(absorb(s, i, j)) == pending(s),
{
    let t = absorb(s, i, j);
    lemma_pending_update(s, i, t[i]);
    assert forall|k: int| 0 <= k < s.len() implies node_grows(#[trigger] s[k], t[k]) by {
        assert(t[k].work =~= s[k].work.take(t[k].work.len() as int));
    }
}

/// The same for a neighbour given by its name, be it a package or not.
pub proof fn lemma_absorb_named_grows(s: GraphState, i: int, hop: Name)
    requires
        0 <= i < s.len(),
    ensures
        grows(s, absorb_named(s, i, hop)),
        pending(absorb_named(s, i, hop)) == pending(s),
{
    if has_node(s, hop) {
        lemma_absorb_grows(s, i, node_index(s, hop));
    } else {
        lemma_grows_refl(s);
    }
}

/// Expanding a package takes nothing back: every package has grown, nothing
/// more waits than before, and the work list of the package itself is empty.
pub proof fn lemma_expand_grows(s: GraphState, key: Name)
    requires
        distinct_names(s),
    ensures
        grows(s, expand(s, key)),
        distinct_names(expand(s, key)),
        pending(expand(s, key)) <= pending(s),
        has_node(s, key) ==> expand(s, key)[node_index(s, key)].work.len() == 0,
    decreases pending(s),
{
    if !has_node(s, key) {
        lemma_grows_refl(s);
    } else {
        let i = node_index(s, key);
        if s[i].work.len() == 0 {
            lemma_grows_refl(s);
        } else {
            let hop = s[i].work.last();
            let popped = pop_work(s, i);
            lemma_pop_work_grows(s, i);
            lemma_grows_names(s, popped);
            let inner = expand(popped, hop);
            lemma_expand_grows(popped, hop);
            lemma_grows_names(popped, inner);
            let taken = absorb_named(inner, i, hop);
            lemma_absorb_named_grows(inner, i, hop);
            lemma_grows_names(inner, taken);
            lemma_grows_trans(s, popped, inner);
            lemma_grows_trans(s, inner, taken);
            lemma_grows_names(s, taken);
            lemma_expand_grows(taken, key);
            lemma_grows_trans(s, taken, expand(taken, key));
        }
    }
}

/// Whether `w` is a true witness of the dependency of `a` on `b`: direct
/// where `a` declares `b`, and else a path of at least one hop that leads
/// from `a` to `b`.
pub open spec fn witness_holds(ps: Seq<PackageSpec>, a: Name, w: Witness, b: Name) -> bool {
    match w {
        Witness::Direct => declares(ps, a, b),
        Witness::Indirect(path) => path.len() > 0 && links(ps, a, path, b) && !declares(ps, a, b),
    }
}

/// What a package knows is true of the lockfile: each witness holds, what
/// the package declares is among its dependencies, and only neighbours that
/// it declares wait in its work list.
pub open spec fn node_ok(ps: Seq<PackageSpec>, n: NodeState) -> bool {
    &&& forall|b: Name| #[trigger]
        n.deps.dom().contains(b) ==> witness_holds(ps, n.name, n.deps[b], b)
    &&& forall|b: Name| #[trigger] declares(ps, n.name, b) ==> n.deps.dom().contains(b)
    &&& forall|k: int| 0 <= k < n.work.len() ==> declares(ps, n.name, #[trigger] n.work[k])
}

/// The graph holds the packages of the lockfile, each once, and what each
/// knows is true of the lockfile.
pub open spec fn graph_of(ps: Seq<PackageSpec>, s: GraphState) -> bool {
    &&& distinct_names(s)
    &&& forall|a: Name| #[trigger] has_node(s, a) <==> is_package(ps, a)
    &&& forall|i: int| 0 <= i < s.len() ==> node_ok(ps, #[trigger] s[i])
}

/// A package as it is before anything is expanded: it knows what it declares
/// and nothing else, and all of that waits in its work list.
pub open spec fn node_seeded(ps: Seq<PackageSpec>, n: NodeState) -> bool {
    &&& forall|b: Name| #[trigger]
        n.deps.dom().contains(b) ==> declares(ps, n.name, b) && n.deps[b] == Witness::Direct
    &&& forall|b: Name| #[trigger] declares(ps, n.name, b) ==> n.deps.dom().contains(b) && n.work.contains(b)
    &&& forall|k: int| 0 <= k < n.work.len() ==> declares(ps, n.name, #[trigger] n.work[k])
    &&& n.work == declared(ps, n.name)
}

/// The graph holds the packages of the lockfile, each once and as it is
/// before anything is expanded.
pub open spec fn seeded(ps: Seq<PackageSpec>, s: GraphState) -> bool {
    &&& distinct_names(s)
    &&& forall|a: Name| #[trigger] has_node(s, a) <==> is_package(ps, a)
    &&& forall|i: int| 0 <= i < s.len() ==> node_seeded(ps, #[trigger] s[i])
}

/// What a package knows after it has declared a list of dependencies.
pub proof fn lemma_add_directs(n: NodeState, ds: Seq<Name>)
    ensures
        add_directs(n, ds).name == n.name,
        add_directs(n, ds).work == n.work + ds,
        forall|b: Name| #[trigger]
            add_directs(n, ds).deps.dom().contains(b) <==> n.deps.dom().contains(b) || ds.contains(b),
        forall|b: Name|
            ds.contains(b) ==> #[trigger] add_directs(n, ds).deps[b] == Witness::Direct,
        forall|b: Name|
            !ds.contains(b) ==> #[trigger] add_directs(n, ds).deps[b] == n.deps[b],
    decreases ds.len(),
{
    if ds.len() == 0 {
        assert(n.work + ds =~= n.work);
    } else {
        let less = ds.drop_last();
        lemma_add_directs(n, less);
        let m = add_directs(n, less);
        assert(m.work.push(ds.last()) =~= n.work + ds);
        assert(ds.contains(ds.last())) by {
            assert(ds[ds.len() - 1] == ds.last());
        }
        assert forall|b: Name| ds.contains(b) <==> less.contains(b) || b == ds.last() by {
            if ds.contains(b) {
                let k = choose|k: int| 0 <= k < ds.len() && ds[k] == b;
                if k < ds.len() - 1 {
                    assert(less[k] == b);
                }
            }
            if less.contains(b) {
                let k = choose|k: int| 0 <= k < less.len() && less[k] == b;
                assert(ds[k] == b);
            }
        }
    }
}

/// What a lockfile declares is what it declares without its last package,
/// and what that package declares.
proof fn lemma_declares_last(ps: Seq<PackageSpec>, a: Name, b: Name)
    requires
        ps.len() > 0,
    ensures
        declares(ps, a, b) <==> declares(ps.drop_last(), a, b) || (a == ps.last().name
            && ps.last().dependencies.contains(b)),
        is_package(ps, a) <==> is_package(ps.drop_last(), a) || a == ps.last().name,
{
    let less = ps.drop_last();
    if declares(ps, a, b) {
        let k = choose|k: int|
            0 <= k < ps.len() && (#[trigger] ps[k]).name == a && ps[k].dependencies.contains(b);
        if k < ps.len() - 1 {
            assert(less[k] == ps[k]);
        }
    }
    if declares(less, a, b) {
        let k = choose|k: int|
            0 <= k < less.len() && (#[trigger] less[k]).name == a && less[k].dependencies.contains(b);
        assert(ps[k] == less[k]);
    }
    if a == ps.last().name {
        assert(ps[ps.len() - 1].name == a);
    }
    if is_package(ps, a) {
        let k = choose|k: int| 0 <= k < ps.len() && (#[trigger] ps[k]).name == a;
        if k < ps.len() - 1 {
            assert(less[k] == ps[k]);
        }
    }
    if is_package(less, a) {
        let k = choose|k: int| 0 <= k < less.len() && (#[trigger] less[k]).name == a;
        assert(ps[k] == less[k]);
    }
}

/// What is no package of the lockfile declares nothing.
proof fn lemma_declared_none(ps: Seq<PackageSpec>, a: Name)
    requires
        !is_package(ps, a),
    ensures
        declared(ps, a) == Seq::<Name>::empty(),
    decreases ps.len(),
{
    if ps.len() > 0 {
        lemma_declares_last(ps, a, a);
        lemma_declared_none(ps.drop_last(), a);
    }
}

/// What a graph holds after a package has been made sure of.
pub proof fn lemma_declare(s: GraphState, name: Name)
    requires
        distinct_names(s),
    ensures
        distinct_names(declare(s, name)),
        has_node(declare(s, name), name),
        forall|a: Name| #[trigger] has_node(declare(s, name), a) <==> has_node(s, a) || a == name,
        declare(s, name).len() >= s.len(),
        forall|i: int| 0 <= i < s.len() ==> #[trigger] declare(s, name)[i] == s[i],
        !has_node(s, name) ==> declare(s, name).len() == s.len() + 1 && declare(s, name)[s.len() as int]
            == (NodeState { name, work: Seq::empty(), deps: Map::empty() }),
        has_node(s, name) ==> declare(s, name) == s,
{
    let t = declare(s, name);
    if !has_node(s, name) {
        assert(t[s.len() as int].name == name);
        assert forall|i: int, j: int|
            0 <= i < t.len() && 0 <= j < t.len() && (#[trigger] t[i]).name == (#[trigger] t[j]).name implies i
            == j by {
            if i < s.len() && j < s.len() {
                assert(s[i].name == s[j].name);
            } else if i < s.len() {
                assert(s[i].name == name);
            } else if j < s.len() {
                assert(s[j].name == name);
            }
        }
        assert forall|a: Name| #[trigger] has_node(t, a) <==> has_node(s, a) || a == name by {
            if has_node(t, a) {
                let i = node_index(t, a);
                if i < s.len() {
                    assert(s[i].name == a);
                }
            }
            if has_node(s, a) {
                let i = node_index(s, a);
                assert(t[i].name == a);
            }
        }
    }
}

/// The graph of the declared dependencies holds the packages of the
/// lockfile as they are before anything is expanded.
pub proof fn lemma_seed(ps: Seq<PackageSpec>)
    ensures
        seeded(ps, seed(ps)),
    decreases ps.len(),
{
    if ps.len() == 0 {
        let s = seed(ps);
        assert forall|a: Name| #[trigger] has_node(s, a) <==> is_package(ps, a) by {}
    } else {
        let less = ps.drop_last();
        let p = ps.last();
        lemma_seed(less);
        let before = seed(less);
        let t = declare(before, p.name);
        lemma_declare(before, p.name);
        let i = node_index(t, p.name);
        assert(t[i].name == p.name);
        let grown = add_directs(t[i], p.dependencies);
        lemma_add_directs(t[i], p.dependencies);
        let s = t.update(i, grown);
        assert(s == seed(ps));
        assert forall|k: int| 0 <= k < s.len() implies (#[trigger] s[k]).name == t[k].name by {}
        assert(distinct_names(s)) by {
            assert forall|a: int, b: int|
                0 <= a < s.len() && 0 <= b < s.len() && (#[trigger] s[a]).name == (#[trigger] s[b]).name implies a
                == b by {
                assert(t[a].name == t[b].name);
            }
        }
        assert forall|a: Name| #[trigger] has_node(s, a) <==> is_package(ps, a) by {
            lemma_declares_last(ps, a, a);
            if has_node(s, a) {
                let k = node_index(s, a);
                assert(t[k].name == a);
            }
            if has_node(t, a) {
                let k = node_index(t, a);
                assert(s[k].name == a);
            }
        }
        assert forall|k: int| 0 <= k < s.len() implies node_seeded(ps, #[trigger] s[k]) by {
            let old_node = if k < before.len() {
                before[k]
            } else {
                NodeState { name: p.name, work: Seq::empty(), deps: Map::empty() }
            };
            assert(t[k] == old_node);
            if k < before.len() {
                assert(node_seeded(less, before[k]));
            } else {
                assert(!has_node(before, p.name));
                assert(!is_package(less, p.name));
                assert forall|b: Name| !declares(less, p.name, b) by {
                    if declares(less, p.name, b) {
                        let m = choose|m: int|
                            0 <= m < less.len() && (#[trigger] less[m]).name == p.name
                                && less[m].dependencies.contains(b);
                        assert(is_package(less, p.name));
                    }
                }
            }
            assert(node_seeded(less, old_node)) by {
                if k >= before.len() {
                    lemma_declared_none(less, p.name);
                }
            }
            let n = s[k];
            assert(n.work =~= declared(ps, n.name)) by {
                if k == i {
                } else {
                    assert(n.name != p.name) by {
                        lemma_node_index(t, k);
                    }
                }
            }
            assert forall|b: Name| #[trigger] n.deps.dom().contains(b) implies declares(ps, n.name, b)
                && n.deps[b] == Witness::Direct by {
                lemma_declares_last(ps, n.name, b);
                if k == i {
                    if p.dependencies.contains(b) {
                    } else {
                        assert(old_node.deps.dom().contains(b));
                    }
                } else {
                    assert(old_node.deps.dom().contains(b));
                }
            }
            assert forall|b: Name| #[trigger] declares(ps, n.name, b) implies n.deps.dom().contains(b)
                && n.work.contains(b) by {
                lemma_declares_last(ps, n.name, b);
                if declares(less, n.name, b) {
                    assert(old_node.work.contains(b));
                    let m = choose|m: int| 0 <= m < old_node.work.len() && old_node.work[m] == b;
                    assert(n.work[m] == b);
                } else {
                    assert(k == i) by {
                        lemma_node_index(s, k);
                        lemma_node_index(t, k);
                    }
                    let m = choose|m: int| 0 <= m < p.dependencies.len() && p.dependencies[m] == b;
                    assert(n.work[old_node.work.len() + m] == b);
                }
            }
            assert forall|m: int| 0 <= m < n.work.len() implies declares(ps, n.name, #[trigger] n.work[m]) by {
                lemma_declares_last(ps, n.name, n.work[m]);
                if m < old_node.work.len() {
                    assert(n.work[m] == old_node.work[m]);
                } else {
                    assert(k == i);
                    assert(n.work[m] == p.dependencies[m - old_node.work.len()]);
                }
            }
        }
    }
}

/// What the packages know before anything is expanded is true of the
/// lockfile.
pub proof fn lemma_seeded_graph(ps: Seq<PackageSpec>, s: GraphState)
    requires
        seeded(ps, s),
    ensures
        graph_of(ps, s),
{
    assert forall|i: int| 0 <= i < s.len() implies node_ok(ps, #[trigger] s[i]) by {
        assert(node_seeded(ps, s[i]));
    }
}

/// Taking a neighbour off a work list teaches the graph nothing false.
pub proof fn lemma_pop_work_graph(ps: Seq<PackageSpec>, s: GraphState, i: int)
    requires
        graph_of(ps, s),
        0 <= i < s.len(),
        s[i].work.len() > 0,
    ensures
        graph_of(ps, pop_work(s, i)),
{
    let t = pop_work(s, i);
    lemma_pop_work_grows(s, i);
    lemma_grows_names(s, t);
    assert forall|k: int| 0 <= k < t.len() implies node_ok(ps, #[trigger] t[k]) by {
        assert(node_ok(ps, s[k]));
        if k == i {
            assert forall|m: int| 0 <= m < t[k].work.len() implies declares(
                ps,
                t[k].name,
                #[trigger] t[k].work[m],
            ) by {
                assert(t[k].work[m] == s[k].work[m]);
            }
        }
    }
}

/// A package that takes over the dependencies of a neighbour that it
/// declares learns nothing false.
pub proof fn lemma_absorb_graph(ps: Seq<PackageSpec>, s: GraphState, i: int, j: int)
    requires
        graph_of(ps, s),
        0 <= i < s.len(),
        0 <= j < s.len(),
        declares(ps, s[i].name, s[j].name),
    ensures
        graph_of(ps, absorb(s, i, j)),
{
    let t = absorb(s, i, j);
    lemma_absorb_grows(s, i, j);
    lemma_grows_names(s, t);
    assert forall|k: int| 0 <= k < t.len() implies node_ok(ps, #[trigger] t[k]) by {
        assert(node_ok(ps, s[k]));
        if k == i {
            let n = t[i];
            assert(node_ok(ps, s[j]));
            assert forall|b: Name| #[trigger] n.deps.dom().contains(b) implies witness_holds(
                ps,
                n.name,
                n.deps[b],
                b,
            ) by {
                if s[i].deps.dom().contains(b) {
                } else {
                    assert(s[j].deps.dom().contains(b));
                    assert(witness_holds(ps, s[j].name, s[j].deps[b], b));
                    let path = seq![s[j].name] + s[j].deps[b].hops();
                    assert(path.skip(1) =~= s[j].deps[b].hops());
                    assert(path[0] == s[j].name);
                    assert(links(ps, s[j].name, s[j].deps[b].hops(), b));
                    assert(links(ps, s[i].name, path, b));
                    assert(!declares(ps, s[i].name, b));
                }
            }
        }
    }
}

/// Expanding a package teaches the graph nothing false.
pub proof fn lemma_expand_graph(ps: Seq<PackageSpec>, s: GraphState, key: Name)
    requires
        graph_of(ps, s),
    ensures
        graph_of(ps, expand(s, key)),
    decreases pending(s),
{
    if has_node(s, key) {
        let i = node_index(s, key);
        if s[i].work.len() > 0 {
            let hop = s[i].work.last();
            assert(node_ok(ps, s[i]));
            assert(declares(ps, key, hop)) by {
                assert(s[i].work[s[i].work.len() - 1] == hop);
            }
            let popped = pop_work(s, i);
            lemma_pop_work_grows(s, i);
            lemma_pop_work_graph(ps, s, i);
            lemma_grows_names(s, popped);
            let inner = expand(popped, hop);
            lemma_expand_grows(popped, hop);
            lemma_expand_graph(ps, popped, hop);
            lemma_grows_names(popped, inner);
            let taken = absorb_named(inner, i, hop);
            lemma_absorb_named_grows(inner, i, hop);
            if has_node(inner, hop) {
                let j = node_index(inner, hop);
                assert(inner[i].name == key);
                lemma_absorb_graph(ps, inner, i, j);
            }
            lemma_expand_graph(ps, taken, key);
        }
    }
}

/// A path to `b` goes on to what `b` declares.
pub proof fn lemma_links_push(ps: Seq<PackageSpec>, a: Name, path: Seq<Name>, b: Name, c: Name)
    requires
        links(ps, a, path, b),
        declares(ps, b, c),
    ensures
        links(ps, a, path.push(b), c),
    decreases path.len(),
{
    let longer = path.push(b);
    if path.len() == 0 {
        assert(longer.skip(1) =~= Seq::<Name>::empty());
        assert(links(ps, b, longer.skip(1), c));
    } else {
        lemma_links_push(ps, path[0], path.skip(1), b, c);
        assert(longer.skip(1) =~= path.skip(1).push(b));
    }
}

/// What reaches `b`, or is `b`, reaches what `b` declares.
pub proof fn lemma_reaches_step(ps: Seq<PackageSpec>, a: Name, b: Name, c: Name)
    requires
        a == b || reaches(ps, a, b),
        declares(ps, b, c),
    ensures
        reaches(ps, a, c),
{
    if a == b {
        assert(links(ps, a, Seq::<Name>::empty(), c));
    } else {
        let path = choose|path: Seq<Name>| links(ps, a, path, b);
        lemma_links_push(ps, a, path, b, c);
    }
}

/// What declares `b` reaches `b` and what `b` reaches.
pub proof fn lemma_step_reaches(ps: Seq<PackageSpec>, a: Name, b: Name, c: Name)
    requires
        declares(ps, a, b),
        b == c || reaches(ps, b, c),
    ensures
        reaches(ps, a, c),
{
    if b == c {
        assert(links(ps, a, Seq::<Name>::empty(), c));
    } else {
        let path = choose|path: Seq<Name>| links(ps, b, path, c);
        let longer = seq![b] + path;
        assert(longer.skip(1) =~= path);
        assert(links(ps, a, longer, c));
    }
}

/// A dependency is declared, or it is a dependency of a package that is
/// declared.
pub proof fn lemma_reaches_first(ps: Seq<PackageSpec>, a: Name, d: Name)
    requires
        reaches(ps, a, d),
    ensures
        declares(ps, a, d) || exists|c: Name|
            #[trigger] declares(ps, a, c) && is_package(ps, c) && reaches(ps, c, d),
{
    let path = choose|path: Seq<Name>| links(ps, a, path, d);
    if path.len() > 0 {
        let c = path[0];
        assert(links(ps, c, path.skip(1), d));
        assert(is_package(ps, c)) by {
            if path.skip(1).len() == 0 {
                assert(declares(ps, c, d));
                let k = choose|k: int|
                    0 <= k < ps.len() && (#[trigger] ps[k]).name == c && ps[k].dependencies.contains(d);
                assert(ps[k].name == c);
            } else {
                assert(declares(ps, c, path.skip(1)[0]));
                let k = choose|k: int|
                    0 <= k < ps.len() && (#[trigger] ps[k]).name == c && ps[k].dependencies.contains(
                        path.skip(1)[0],
                    );
                assert(ps[k].name == c);
            }
        }
        assert(declares(ps, a, c) && is_package(ps, c) && reaches(ps, c, d));
    }
}

/// What a package has to know of a neighbour `b` once it has taken over what
/// `b` depends on: every dependency of `b` where `all` is set, and else
/// those that `b` declares.
pub open spec fn owed(ps: Seq<PackageSpec>, b: Name, d: Name, all: bool) -> bool {
    if all {
        reaches(ps, b, d)
    } else {
        declares(ps, b, d)
    }
}

/// The package knows what it has to know of its neighbour `b`.
pub open spec fn covered(ps: Seq<PackageSpec>, n: NodeState, b: Name, all: bool) -> bool {
    forall|d: Name| #[trigger] owed(ps, b, d, all) ==> n.deps.dom().contains(d)
}

/// Each neighbour that the package declares still waits in its work list,
/// or is being expanded for it, or has been taken over.
pub open spec fn node_settled(
    ps: Seq<PackageSpec>,
    n: NodeState,
    busy: Set<(Name, Name)>,
    all: bool,
) -> bool {
    forall|b: Name| #[trigger]
        declares(ps, n.name, b) && is_package(ps, b) ==> n.work.contains(b) || busy.contains(
            (n.name, b),
        ) || covered(ps, n, b, all)
}

/// Every package of the graph is settled.
pub open spec fn settled(
    ps: Seq<PackageSpec>,
    s: GraphState,
    busy: Set<(Name, Name)>,
    all: bool,
) -> bool {
    forall|i: int| 0 <= i < s.len() ==> node_settled(ps, #[trigger] s[i], busy, all)
}

/// Every neighbour that is being expanded was declared by the package that
/// waits for it, and is `key` or leads to it.
pub open spec fn busy_leads_to(ps: Seq<PackageSpec>, busy: Set<(Name, Name)>, key: Name) -> bool {
    forall|a: Name, b: Name| #[trigger]
        busy.contains((a, b)) ==> declares(ps, a, b) && (b == key || reaches(ps, b, key))
}

/// A package with an empty work list for which no neighbour is being
/// expanded knows all its dependencies.
pub proof fn lemma_closed(ps: Seq<PackageSpec>, n: NodeState, busy: Set<(Name, Name)>)
    requires
        node_ok(ps, n),
        node_settled(ps, n, busy, true),
        n.work.len() == 0,
        forall|c: Name| !busy.contains((n.name, c)),
    ensures
        forall|d: Name| #[trigger] reaches(ps, n.name, d) ==> n.deps.dom().contains(d),
{
    assert forall|d: Name| #[trigger] reaches(ps, n.name, d) implies n.deps.dom().contains(d) by {
        lemma_reaches_first(ps, n.name, d);
        if !declares(ps, n.name, d) {
            let c = choose|c: Name|
                #[trigger] declares(ps, n.name, c) && is_package(ps, c) && reaches(ps, c, d);
            assert(covered(ps, n, c, true));
            assert(owed(ps, c, d, true));
        }
    }
}

/// Expanding a package leaves every package settled. With `all` set, on a
/// lockfile without cycles, this speaks of every dependency; without it, of
/// the dependencies that a neighbour declares.
pub proof fn lemma_expand_settles(
    ps: Seq<PackageSpec>,
    s: GraphState,
    key: Name,
    busy: Set<(Name, Name)>,
    all: bool,
)
    requires
        graph_of(ps, s),
        settled(ps, s, busy, all),
        all ==> acyclic(ps) && busy_leads_to(ps, busy, key),
    ensures
        settled(ps, expand(s, key), busy, all),
    decreases pending(s),
{
    if has_node(s, key) {
        let i = node_index(s, key);
        if s[i].work.len() > 0 {
            let hop = s[i].work.last();
            assert(node_ok(ps, s[i]));
            assert(declares(ps, key, hop)) by {
                assert(s[i].work[s[i].work.len() - 1] == hop);
            }
            let waiting = busy.insert((key, hop));
            let popped = pop_work(s, i);
            lemma_pop_work_grows(s, i);
            lemma_pop_work_graph(ps, s, i);
            lemma_grows_names(s, popped);
            assert forall|k: int| 0 <= k < popped.len() implies node_settled(
                ps,
                #[trigger] popped[k],
                waiting,
                all,
            ) by {
                let n = popped[k];
                assert(node_settled(ps, s[k], busy, all));
                assert forall|b: Name| #[trigger]
                    declares(ps, n.name, b) && is_package(ps, b) implies n.work.contains(b)
                    || waiting.contains((n.name, b)) || covered(ps, n, b, all) by {
                    if s[k].work.contains(b) && k == i {
                        let m = choose|m: int| 0 <= m < s[k].work.len() && s[k].work[m] == b;
                        if m < s[k].work.len() - 1 {
                            assert(n.work[m] == b);
                        }
                    }
                }
            }
            if all {
                assert forall|a: Name, b: Name| #[trigger] waiting.contains((a, b)) implies declares(
                    ps,
                    a,
                    b,
                ) && (b == hop || reaches(ps, b, hop)) by {
                    if (a, b) != (key, hop) {
                        assert(busy.contains((a, b)));
                        lemma_reaches_step(ps, b, key, hop);
                    }
                }
            }
            let inner = expand(popped, hop);
            lemma_expand_grows(popped, hop);
            lemma_expand_graph(ps, popped, hop);
            lemma_expand_settles(ps, popped, hop, waiting, all);
            lemma_grows_names(popped, inner);
            let taken = absorb_named(inner, i, hop);
            lemma_absorb_named_grows(inner, i, hop);
            assert(inner[i].name == key);
            if has_node(inner, hop) {
                let j = node_index(inner, hop);
                lemma_absorb_graph(ps, inner, i, j);
                assert(node_ok(ps, inner[j]));
                assert(node_settled(ps, inner[j], waiting, all));
                assert(inner[j].work.len() == 0);
                if all {
                    assert forall|c: Name| !waiting.contains((hop, c)) by {
                        if waiting.contains((hop, c)) {
                            lemma_step_reaches(ps, hop, c, hop);
                        }
                    }
                    lemma_closed(ps, inner[j], waiting);
                }
                assert(covered(ps, taken[i], hop, all)) by {
                    assert forall|d: Name| #[trigger] owed(ps, hop, d, all) implies taken[i].deps.dom().contains(
                        d,
                    ) by {
                        assert(inner[j].deps.dom().contains(d));
                    }
                }
            } else {
                assert(!is_package(ps, hop));
            }
            assert forall|k: int| 0 <= k < taken.len() implies node_settled(
                ps,
                #[trigger] taken[k],
                busy,
                all,
            ) by {
                let n = taken[k];
                assert(node_settled(ps, inner[k], waiting, all));
                assert(node_grows(inner[k], n));
                assert forall|b: Name| #[trigger]
                    declares(ps, n.name, b) && is_package(ps, b) implies n.work.contains(b)
                    || busy.contains((n.name, b)) || covered(ps, n, b, all) by {
                    if inner[k].work.contains(b) {
                        assert(n.work =~= inner[k].work);
                    } else if waiting.contains((n.name, b)) {
                        if (n.name, b) == (key, hop) {
                            assert(k == i);
                        }
                    } else {
                        assert(covered(ps, inner[k], b, all));
                        assert forall|d: Name| #[trigger] owed(ps, b, d, all) implies n.deps.dom().contains(
                            d,
                        ) by {
                            assert(inner[k].deps.dom().contains(d));
                        }
                    }
                }
            }
            if has_node(inner, hop) {
                lemma_absorb_graph(ps, inner, i, node_index(inner, hop));
            }
            lemma_expand_settles(ps, taken, key, busy, all);
        }
    }
}

/// Every package has an empty work list.
pub open spec fn all_done(s: GraphState) -> bool {
    forall|i: int| 0 <= i < s.len() ==> (#[trigger] s[i]).work.len() == 0
}

/// What holds after the first `k` packages of the lockfile have been
/// expanded.
proof fn lemma_expand_each(ps: Seq<PackageSpec>, k: int, all: bool)
    requires
        0 <= k <= ps.len(),
        all ==> acyclic(ps),
    ensures
        graph_of(ps, expand_each(seed(ps), ps.take(k))),
        grows(seed(ps), expand_each(seed(ps), ps.take(k))),
        settled(ps, expand_each(seed(ps), ps.take(k)), Set::empty(), all),
        forall|m: int|
            0 <= m < k ==> expand_each(seed(ps), ps.take(k))[node_index(seed(ps), (#[trigger] ps[m]).name)].work.len()
                == 0,
    decreases k,
{
    let start = seed(ps);
    lemma_seed(ps);
    lemma_seeded_graph(ps, start);
    if k == 0 {
        lemma_grows_refl(start);
        assert(ps.take(0) =~= Seq::<PackageSpec>::empty());
        assert forall|i: int| 0 <= i < start.len() implies node_settled(
            ps,
            #[trigger] start[i],
            Set::empty(),
            all,
        ) by {
            assert(node_seeded(ps, start[i]));
        }
    } else {
        lemma_expand_each(ps, k - 1, all);
        assert(ps.take(k).drop_last() =~= ps.take(k - 1));
        assert(ps.take(k).last() == ps[k - 1]);
        let before = expand_each(start, ps.take(k - 1));
        let key = ps[k - 1].name;
        let after = expand(before, key);
        assert(after == expand_each(start, ps.take(k)));
        lemma_expand_graph(ps, before, key);
        lemma_expand_grows(before, key);
        lemma_grows_trans(start, before, after);
        lemma_expand_settles(ps, before, key, Set::empty(), all);
        lemma_grows_names(start, before);
        lemma_grows_names(before, after);
        assert forall|m: int| 0 <= m < k implies after[node_index(start, (#[trigger] ps[m]).name)].work.len()
            == 0 by {
            assert(is_package(ps, ps[m].name));
            assert(has_node(start, ps[m].name));
            let i = node_index(start, ps[m].name);
            assert(node_grows(before[i], after[i]));
        }
    }
}

/// The dependency graph of a lockfile holds the packages of the lockfile,
/// each with an empty work list; it has grown out of the declared
/// dependencies; what it knows is true; and every package knows the
/// dependencies that its neighbours declare, and on a lockfile without cycles
/// all its dependencies.
pub proof fn lemma_closure_graph(ps: Seq<PackageSpec>)
    ensures
        graph_of(ps, closure_graph(ps)),
        grows(seed(ps), closure_graph(ps)),
        all_done(closure_graph(ps)),
        settled(ps, closure_graph(ps), Set::empty(), false),
        acyclic(ps) ==> settled(ps, closure_graph(ps), Set::empty(), true),
{
    let g = closure_graph(ps);
    let n = ps.len() as int;
    assert(ps.take(n) =~= ps);
    lemma_expand_each(ps, n, false);
    if acyclic(ps) {
        lemma_expand_each(ps, n, true);
    }
    lemma_seed(ps);
    lemma_grows_names(seed(ps), g);
    assert forall|i: int| 0 <= i < g.len() implies (#[trigger] g[i]).work.len() == 0 by {
        assert(has_node(g, g[i].name));
        assert(is_package(ps, g[i].name));
        let m = choose|m: int| 0 <= m < ps.len() && (#[trigger] ps[m]).name == g[i].name;
        assert(seed(ps)[i].name == g[i].name);
        lemma_node_index(seed(ps), i);
    }
}

} // verus!
