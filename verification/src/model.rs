//! The mathematical model of a dependency graph under construction.

use vstd::prelude::*;

verus! {

/// A package name.
pub type Name = Seq<char>;

/// Why a package counts as a dependency of another.
pub enum Witness {
    /// The package declares the dependency itself.
    Direct,
    /// The dependency is reached through these packages, in order. The first
    /// is declared by the package itself, each declares the next, and the last
    /// declares the dependency.
    Indirect(Seq<Name>),
}

impl Witness {
    /// The packages between the origin and the dependency: none when direct.
    pub open spec fn hops(self) -> Seq<Name> {
        match self {
            Witness::Direct => Seq::empty(),
            Witness::Indirect(path) => path,
        }
    }
}

/// What is known of one package: the neighbours whose closure still has to be
/// taken over, and the dependencies found so far.
pub struct NodeState {
    pub name: Name,
    pub work: Seq<Name>,
    pub deps: Map<Name, Witness>,
}

/// The packages of a graph, in the order in which they were first declared.
pub type GraphState = Seq<NodeState>;

/// Whether `name` is a package of the graph.
pub open spec fn has_node(s: GraphState, name: Name) -> bool {
    exists|i: int| 0 <= i < s.len() && (#[trigger] s[i]).name == name
}

/// The place of the package `name` in the graph, where it has one.
pub open spec fn node_index(s: GraphState, name: Name) -> int {
    choose|i: int| 0 <= i < s.len() && (#[trigger] s[i]).name == name
}

/// No two packages of the graph share a name.
pub open spec fn distinct_names(s: GraphState) -> bool {
    forall|i: int, j: int|
        0 <= i < s.len() && 0 <= j < s.len() && (#[trigger] s[i]).name == (#[trigger] s[j]).name
            ==> i == j
}

/// Both graphs hold the same packages in the same places.
pub open spec fn same_names(s: GraphState, t: GraphState) -> bool {
    &&& s.len() == t.len()
    &&& forall|i: int| 0 <= i < s.len() ==> (#[trigger] s[i]).name == t[i].name
}

/// In a graph without shared names, a package is found at its own place.
pub proof fn lemma_node_index(s: GraphState, i: int)
    requires
        distinct_names(s),
        0 <= i < s.len(),
    ensures
        has_node(s, s[i].name),
        node_index(s, s[i].name) == i,
{
    let j = node_index(s, s[i].name);
    assert(s[j].name == s[i].name);
}

/// The number of neighbours that still wait in some work list.
pub open spec fn pending(s: GraphState) -> nat
    decreases s.len(),
{
    if s.len() == 0 {
        0
    } else {
        pending(s.drop_last()) + s.last().work.len()
    }
}

/// Replacing one package changes `pending` by the change of its work list.
pub proof fn lemma_pending_update(s: GraphState, i: int, n: NodeState)
    requires
        0 <= i < s.len(),
    ensures
        pending(s.update(i, n)) == pending(s) - s[i].work.len() + n.work.len(),
    decreases s.len(),
{
    if i == s.len() - 1 {
        assert(s.update(i, n).drop_last() =~= s.drop_last());
    } else {
        lemma_pending_update(s.drop_last(), i, n);
        assert(s.update(i, n).drop_last() =~= s.drop_last().update(i, n));
    }
}

/// A package of a lockfile: its name and the dependencies it declares, in the
/// order of the declaration.
pub struct PackageSpec {
    pub name: Name,
    pub dependencies: Seq<Name>,
}

/// Whether the lockfile has a package `a`.
pub open spec fn is_package(ps: Seq<PackageSpec>, a: Name) -> bool {
    exists|k: int| 0 <= k < ps.len() && (#[trigger] ps[k]).name == a
}

/// Whether the package `a` declares `b` as a dependency.
pub open spec fn declares(ps: Seq<PackageSpec>, a: Name, b: Name) -> bool {
    exists|k: int|
        0 <= k < ps.len() && (#[trigger] ps[k]).name == a && ps[k].dependencies.contains(b)
}

/// The dependencies that the package `a` declares, in the order of the
/// lockfile.
pub open spec fn declared(ps: Seq<PackageSpec>, a: Name) -> Seq<Name>
    decreases ps.len(),
{
    if ps.len() == 0 {
        Seq::empty()
    } else if ps.last().name == a {
        declared(ps.drop_last(), a) + ps.last().dependencies
    } else {
        declared(ps.drop_last(), a)
    }
}

/// The dependencies that the package `a` declares, each with a direct
/// witness.
pub open spec fn directs(ps: Seq<PackageSpec>, a: Name) -> Map<Name, Witness> {
    Map::new(|b: Name| declares(ps, a, b), |b: Name| Witness::Direct)
}

/// Whether `a` declares the first of `path`, each of `path` declares the
/// next, and the last declares `b`; for an empty path, whether `a` declares `b`.
pub open spec fn links(ps: Seq<PackageSpec>, a: Name, path: Seq<Name>, b: Name) -> bool
    decreases path.len(),
{
    if path.len() == 0 {
        declares(ps, a, b)
    } else {
        declares(ps, a, path[0]) && links(ps, path[0], path.skip(1), b)
    }
}

/// The same, hop by hop: `a` declares the first of `path`, each of `path`
/// declares the next, and the last declares `b`.
pub open spec fn path_follows(ps: Seq<PackageSpec>, a: Name, path: Seq<Name>, b: Name) -> bool {
    if path.len() == 0 {
        declares(ps, a, b)
    } else {
        &&& declares(ps, a, path[0])
        &&& forall|k: int| 0 <= k < path.len() - 1 ==> declares(ps, #[trigger] path[k], path[k + 1])
        &&& declares(ps, path.last(), b)
    }
}

/// Both ways of saying that a path leads from `a` to `b` agree.
pub proof fn lemma_links_follows(ps: Seq<PackageSpec>, a: Name, path: Seq<Name>, b: Name)
    ensures
        links(ps, a, path, b) <==> path_follows(ps, a, path, b),
    decreases path.len(),
{
    if path.len() > 0 {
        let rest = path.skip(1);
        lemma_links_follows(ps, path[0], rest, b);
        if rest.len() > 0 {
            assert(rest[0] == path[1]);
            assert(rest.last() == path.last());
            if path_follows(ps, path[0], rest, b) && declares(ps, a, path[0]) {
                assert forall|k: int| 0 <= k < path.len() - 1 implies declares(
                    ps,
                    #[trigger] path[k],
                    path[k + 1],
                ) by {
                    if k > 0 {
                        assert(rest[k - 1] == path[k]);
                        assert(rest[k] == path[k + 1]);
                    }
                }
            }
            if path_follows(ps, a, path, b) {
                assert(declares(ps, path[0], path[1]));
                assert forall|k: int| 0 <= k < rest.len() - 1 implies declares(
                    ps,
                    #[trigger] rest[k],
                    rest[k + 1],
                ) by {
                    assert(rest[k] == path[k + 1]);
                    assert(rest[k + 1] == path[k + 2]);
                    assert(declares(ps, path[k + 1], path[k + 2]));
                }
            }
        }
    }
}

/// Whether `b` is a dependency of `a`, declared by it or by a package that
/// it reaches.
pub open spec fn reaches(ps: Seq<PackageSpec>, a: Name, b: Name) -> bool {
    exists|path: Seq<Name>| links(ps, a, path, b)
}

/// No package of the lockfile is a dependency of itself.
pub open spec fn acyclic(ps: Seq<PackageSpec>) -> bool {
    forall|a: Name| !reaches(ps, a, a)
}

/// The graph with a package `name` in it: a new package has no dependencies.
pub open spec fn declare(s: GraphState, name: Name) -> GraphState {
    if has_node(s, name) {
        s
    } else {
        s.push(NodeState { name, work: Seq::empty(), deps: Map::empty() })
    }
}

/// The package after it has declared `d`: a direct dependency, whose own
/// dependencies it still has to take over.
pub open spec fn add_direct(n: NodeState, d: Name) -> NodeState {
    NodeState { name: n.name, work: n.work.push(d), deps: n.deps.insert(d, Witness::Direct) }
}

/// The package after it has declared each of `ds` in turn.
pub open spec fn add_directs(n: NodeState, ds: Seq<Name>) -> NodeState
    decreases ds.len(),
{
    if ds.len() == 0 {
        n
    } else {
        add_direct(add_directs(n, ds.drop_last()), ds.last())
    }
}

/// The graph after one more package of the lockfile has been read.
pub open spec fn seed_package(s: GraphState, p: PackageSpec) -> GraphState {
    let t = declare(s, p.name);
    let i = node_index(t, p.name);
    t.update(i, add_directs(t[i], p.dependencies))
}

/// The graph that holds the declared dependencies of the packages and
/// nothing else.
pub open spec fn seed(ps: Seq<PackageSpec>) -> GraphState
    decreases ps.len(),
{
    if ps.len() == 0 {
        Seq::empty()
    } else {
        seed_package(seed(ps.drop_last()), ps.last())
    }
}

/// The graph with the last neighbour of package `i`'s work list taken off.
pub open spec fn pop_work(s: GraphState, i: int) -> GraphState {
    s.update(i, NodeState { name: s[i].name, work: s[i].work.drop_last(), deps: s[i].deps })
}

/// A package's dependencies after it has taken over those of its neighbour
/// `via`: what it had stays as it was, and each dependency of the neighbour
/// that it lacked is added, reached through the neighbour.
pub open spec fn merged(mine: Map<Name, Witness>, via: Name, theirs: Map<Name, Witness>) -> Map<
    Name,
    Witness,
> {
    Map::new(
        |d: Name| mine.dom().contains(d) || theirs.dom().contains(d),
        |d: Name|
            if mine.dom().contains(d) {
                mine[d]
            } else {
                Witness::Indirect(seq![via] + theirs[d].hops())
            },
    )
}

/// The graph after package `i` has taken over the dependencies of package `j`.
pub open spec fn absorb(s: GraphState, i: int, j: int) -> GraphState {
    s.update(
        i,
        NodeState {
            name: s[i].name,
            work: s[i].work,
            deps: merged(s[i].deps, s[j].name, s[j].deps),
        },
    )
}

/// The graph after package `i` has taken over the dependencies of `via`, where
/// `via` is a package of the graph; else the graph as it is.
pub open spec fn absorb_named(s: GraphState, i: int, via: Name) -> GraphState {
    if has_node(s, via) {
        absorb(s, i, node_index(s, via))
    } else {
        s
    }
}

/// The graph after the work list of `key` has been emptied: for each
/// neighbour, last declared first, the neighbour's own work list is emptied
/// first, and then `key` takes over what the neighbour depends on.
///
/// The comparison of `pending` before the last call always holds, since
/// expanding a neighbour never adds to a work list; it is what makes the
/// definition terminate on graphs with cycles too.
pub open spec fn expand(s: GraphState, key: Name) -> GraphState
    decreases pending(s),
{
    if !has_node(s, key) {
        s
    } else {
        let i = node_index(s, key);
        if s[i].work.len() == 0 {
            s
        } else {
            let via = s[i].work.last();
            let popped = pop_work(s, i);
            proof {
                lemma_pending_update(s, i, popped[i]);
            }
            let inner = expand(popped, via);
            let taken = absorb_named(inner, i, via);
            if pending(taken) < pending(s) {
                expand(taken, key)
            } else {
                taken
            }
        }
    }
}

/// The graph after the work lists of the packages `ps` have been emptied, one
/// package after the other.
pub open spec fn expand_each(s: GraphState, ps: Seq<PackageSpec>) -> GraphState
    decreases ps.len(),
{
    if ps.len() == 0 {
        s
    } else {
        expand(expand_each(s, ps.drop_last()), ps.last().name)
    }
}

/// The dependency graph of a lockfile: for every package, what it depends
/// on, directly or through others.
pub open spec fn closure_graph(ps: Seq<PackageSpec>) -> GraphState {
    expand_each(seed(ps), ps)
}

} // verus!
