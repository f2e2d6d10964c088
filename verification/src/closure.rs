//! Which witnesses a package keeps, on a lockfile without cycles.

use vstd::prelude::*;
use crate::invariants::{
    busy_leads_to, graph_of, lemma_absorb_graph, lemma_absorb_named_grows, lemma_closure_graph,
    lemma_expand_graph, lemma_expand_grows, lemma_grows_names, lemma_pop_work_graph,
    lemma_pop_work_grows, lemma_reaches_step, lemma_seed, lemma_seeded_graph, lemma_step_reaches,
    node_grows, node_ok, node_seeded,
};
use crate::model::{
    absorb_named, acyclic, closure_graph, declared, declares, directs, expand, expand_each,
    has_node, is_package, lemma_node_index, merged, node_index, pending, pop_work, reaches, seed,
    GraphState, Name, NodeState, PackageSpec, Witness,
};
use crate::rules::closure_of;

verus! {

/// What a package with the dependencies `found` knows after it has taken
/// over the dependencies of each of `neighbours`, the last of them first:
/// what an earlier one brought stays, and a later one adds what is new.
pub open spec fn taken_over(s: GraphState, found: Map<Name, Witness>, neighbours: Seq<Name>) -> Map<
    Name,
    Witness,
>
    decreases neighbours.len(),
{
    if neighbours.len() == 0 {
        found
    } else {
        let rest = taken_over(s, found, neighbours.skip(1));
        if has_node(s, neighbours[0]) {
            merged(rest, neighbours[0], closure_of(s, neighbours[0]))
        } else {
            rest
        }
    }
}

/// Whether a neighbour is being expanded for the package `a`.
pub open spec fn waits(busy: Set<(Name, Name)>, a: Name) -> bool {
    exists|c: Name| busy.contains((a, c))
}

/// The package `a` has an empty work list and waits for no neighbour.
pub open spec fn finished(s: GraphState, busy: Set<(Name, Name)>, a: Name) -> bool {
    s[node_index(s, a)].work.len() == 0 && !waits(busy, a)
}

/// The place in the declared dependencies of a package from which on it has
/// taken them over.
pub open spec fn done_from(n: NodeState, busy: Set<(Name, Name)>) -> int {
    if waits(busy, n.name) {
        n.work.len() as int + 1
    } else {
        n.work.len() as int
    }
}

/// A package is in step with the lockfile: its work list is a start of what
/// it declares, it waits for the neighbour that follows, if for any, and it
/// knows what it declares and what it has taken over from the others, which
/// are finished.
pub open spec fn node_in_step(
    ps: Seq<PackageSpec>,
    s: GraphState,
    n: NodeState,
    busy: Set<(Name, Name)>,
) -> bool {
    let all = declared(ps, n.name);
    &&& done_from(n, busy) <= all.len()
    &&& n.work == all.take(n.work.len() as int)
    &&& forall|c: Name| #[trigger] busy.contains((n.name, c)) ==> c == all[n.work.len() as int]
    &&& n.deps == taken_over(s, directs(ps, n.name), all.skip(done_from(n, busy)))
    &&& forall|k: int|
        done_from(n, busy) <= k < all.len() && has_node(s, #[trigger] all[k]) ==> finished(
            s,
            busy,
            all[k],
        )
}

/// Every package of the graph is in step with the lockfile.
pub open spec fn in_step(ps: Seq<PackageSpec>, s: GraphState, busy: Set<(Name, Name)>) -> bool {
    forall|i: int| 0 <= i < s.len() ==> node_in_step(ps, s, #[trigger] s[i], busy)
}

/// What is taken over depends on the neighbours alone.
proof fn lemma_taken_over_frame(
    s: GraphState,
    t: GraphState,
    found: Map<Name, Witness>,
    neighbours: Seq<Name>,
)
    requires
        forall|k: int|
            0 <= k < neighbours.len() ==> (has_node(s, #[trigger] neighbours[k]) <==> has_node(
                t,
                neighbours[k],
            )) && (has_node(s, neighbours[k]) ==> closure_of(s, neighbours[k]) == closure_of(
                t,
                neighbours[k],
            )),
    ensures
        taken_over(s, found, neighbours) == taken_over(t, found, neighbours),
    decreases neighbours.len(),
{
    if neighbours.len() > 0 {
        let rest = neighbours.skip(1);
        assert forall|k: int| 0 <= k < rest.len() implies (has_node(s, #[trigger] rest[k]) <==> has_node(
            t,
            rest[k],
        )) && (has_node(s, rest[k]) ==> closure_of(s, rest[k]) == closure_of(t, rest[k])) by {
            assert(rest[k] == neighbours[k + 1]);
        }
        lemma_taken_over_frame(s, t, found, rest);
        assert(has_node(s, neighbours[0]) <==> has_node(t, neighbours[0]));
    }
}

/// A package declares each of the dependencies that the lockfile lists for
/// it.
proof fn lemma_declared(ps: Seq<PackageSpec>, a: Name, k: int)
    requires
        0 <= k < declared(ps, a).len(),
    ensures
        declares(ps, a, declared(ps, a)[k]),
    decreases ps.len(),
{
    if ps.len() > 0 {
        let less = ps.drop_last();
        let before = declared(less, a);
        if k < before.len() {
            lemma_declared(less, a, k);
            let m = choose|m: int|
                0 <= m < less.len() && (#[trigger] less[m]).name == a && less[m].dependencies.contains(
                    before[k],
                );
            assert(ps[m] == less[m]);
        } else {
            let p = ps.last();
            assert(ps[ps.len() - 1] == p);
            assert(p.dependencies[k - before.len()] == declared(ps, a)[k]);
        }
    }
}

/// On a lockfile without cycles, expanding a package keeps every package in
/// step.
proof fn lemma_expand_in_step(
    ps: Seq<PackageSpec>,
    s: GraphState,
    key: Name,
    busy: Set<(Name, Name)>,
)
    requires
        acyclic(ps),
        graph_of(ps, s),
        busy_leads_to(ps, busy, key),
        in_step(ps, s, busy),
    ensures
        in_step(ps, expand(s, key), busy),
    decreases pending(s),
{
    if has_node(s, key) {
        let i = node_index(s, key);
        if s[i].work.len() > 0 {
            let all = declared(ps, key);
            let w = s[i].work.len() as int;
            let hop = s[i].work.last();
            assert(node_ok(ps, s[i]));
            assert(node_in_step(ps, s, s[i], busy));
            assert(declares(ps, key, hop)) by {
                assert(s[i].work[w - 1] == hop);
            }
            assert(hop == all[w - 1]) by {
                assert(s[i].work[w - 1] == all.take(w)[w - 1]);
            }
            assert(!waits(busy, key)) by {
                if waits(busy, key) {
                    let c = choose|c: Name| busy.contains((key, c));
                    lemma_step_reaches(ps, key, c, key);
                }
            }
            assert(hop != key) by {
                if hop == key {
                    lemma_step_reaches(ps, key, key, key);
                }
            }
            let waiting = busy.insert((key, hop));
            let popped = pop_work(s, i);
            lemma_pop_work_grows(s, i);
            lemma_pop_work_graph(ps, s, i);
            lemma_grows_names(s, popped);
            assert forall|a: Name| has_node(s, a) implies #[trigger] closure_of(popped, a) == closure_of(
                s,
                a,
            ) by {
                assert(popped[node_index(s, a)].deps == s[node_index(s, a)].deps);
            }
            assert forall|a: Name| a != key implies (waits(waiting, a) <==> waits(busy, a)) by {
                if waits(waiting, a) {
                    let c = choose|c: Name| waiting.contains((a, c));
                    assert(busy.contains((a, c)));
                }
                if waits(busy, a) {
                    let c = choose|c: Name| busy.contains((a, c));
                    assert(waiting.contains((a, c)));
                }
            }
            assert(waits(waiting, key)) by {
                assert(waiting.contains((key, hop)));
            }
            assert forall|m: int| 0 <= m < popped.len() implies node_in_step(
                ps,
                popped,
                #[trigger] popped[m],
                waiting,
            ) by {
                let n = popped[m];
                let before = s[m];
                let mine = declared(ps, n.name);
                assert(node_in_step(ps, s, before, busy));
                if m == i {
                    assert(n.work =~= all.take(w - 1));
                } else {
                    assert(n.name != key) by {
                        lemma_node_index(s, m);
                    }
                }
                let from = done_from(n, waiting);
                assert(from == done_from(before, busy));
                assert forall|k: int| from <= k < mine.len() && has_node(popped, #[trigger] mine[k]) implies finished(
                    popped,
                    waiting,
                    mine[k],
                ) by {
                    assert(has_node(s, mine[k]));
                    assert(finished(s, busy, mine[k]));
                    assert(mine[k] != key);
                    let at = node_index(s, mine[k]);
                    assert(at != i);
                }
                assert forall|k: int| 0 <= k < mine.skip(from).len() implies (has_node(
                    s,
                    #[trigger] mine.skip(from)[k],
                ) <==> has_node(popped, mine.skip(from)[k])) && (has_node(s, mine.skip(from)[k])
                    ==> closure_of(s, mine.skip(from)[k]) == closure_of(popped, mine.skip(from)[k])) by {}
                lemma_taken_over_frame(s, popped, directs(ps, n.name), mine.skip(from));
            }
            assert forall|a: Name, b: Name| #[trigger] waiting.contains((a, b)) implies declares(
                ps,
                a,
                b,
            ) && (b == hop || reaches(ps, b, hop)) by {
                if (a, b) != (key, hop) {
                    assert(busy.contains((a, b)));
                    lemma_reaches_step(ps, b, key, hop);
                }
            }
            let inner = expand(popped, hop);
            lemma_expand_grows(popped, hop);
            lemma_expand_graph(ps, popped, hop);
            lemma_expand_in_step(ps, popped, hop, waiting);
            lemma_grows_names(popped, inner);
            let taken = absorb_named(inner, i, hop);
            lemma_absorb_named_grows(inner, i, hop);
            lemma_grows_names(inner, taken);
            assert(inner[i].name == key);
            assert(node_in_step(ps, inner, inner[i], waiting));
            let v = inner[i].work.len() as int;
            assert(hop == all[v]);
            assert(!waits(busy, hop)) by {
                if waits(busy, hop) {
                    let c = choose|c: Name| busy.contains((hop, c));
                    lemma_reaches_step(ps, c, key, hop);
                    lemma_step_reaches(ps, hop, c, hop);
                }
            }
            if has_node(inner, hop) {
                lemma_absorb_graph(ps, inner, i, node_index(inner, hop));
                assert(node_index(inner, hop) != i);
            }
            assert forall|a: Name| has_node(inner, a) && a != key implies #[trigger] closure_of(taken, a)
                == closure_of(inner, a) by {
                let at = node_index(inner, a);
                assert(at != i);
            }
            assert forall|m: int| 0 <= m < taken.len() implies node_in_step(
                ps,
                taken,
                #[trigger] taken[m],
                busy,
            ) by {
                let n = taken[m];
                let before = inner[m];
                let mine = declared(ps, n.name);
                assert(node_in_step(ps, inner, before, waiting));
                assert(node_grows(before, n));
                assert(n.work =~= before.work);
                if m != i {
                    assert(n.name != key) by {
                        lemma_node_index(inner, m);
                        lemma_node_index(inner, i);
                    }
                    assert(n == before);
                }
                let from = done_from(n, busy);
                assert(from == if m == i {
                    v
                } else {
                    done_from(before, waiting)
                });
                assert forall|c: Name| #[trigger] busy.contains((n.name, c)) implies c == mine[n.work.len() as int] by {
                    assert(waiting.contains((n.name, c)));
                }
                assert forall|k: int| from <= k < mine.len() && has_node(taken, #[trigger] mine[k]) implies finished(
                    taken,
                    busy,
                    mine[k],
                ) by {
                    assert(has_node(inner, mine[k]));
                    if m == i && k == v {
                        assert(inner[node_index(inner, hop)].work.len() == 0);
                    } else {
                        assert(finished(inner, waiting, mine[k]));
                        assert(mine[k] != key);
                        assert(node_index(inner, mine[k]) != i);
                    }
                }
                assert forall|k: int| 0 <= k < mine.skip(from).len() implies (has_node(
                    inner,
                    #[trigger] mine.skip(from)[k],
                ) <==> has_node(taken, mine.skip(from)[k])) && (has_node(inner, mine.skip(from)[k])
                    ==> closure_of(inner, mine.skip(from)[k]) == closure_of(taken, mine.skip(from)[k])) by {
                    let name = mine.skip(from)[k];
                    assert(name == mine[from + k]);
                    if has_node(inner, name) && name == key {
                        if m == i {
                            lemma_declared(ps, key, from + k);
                            lemma_step_reaches(ps, key, key, key);
                        } else {
                            assert(finished(inner, waiting, mine[from + k]));
                        }
                    }
                }
                lemma_taken_over_frame(inner, taken, directs(ps, n.name), mine.skip(from));
                if m == i {
                    assert(all.skip(v).skip(1) =~= all.skip(v + 1));
                    assert(all.skip(v)[0] == hop);
                    assert(n.deps == taken_over(inner, directs(ps, key), all.skip(v)));
                }
            }
            lemma_expand_in_step(ps, taken, key, busy);
        }
    }
}

/// What holds after the first `k` packages of a lockfile without cycles have
/// been expanded.
proof fn lemma_expand_each_in_step(ps: Seq<PackageSpec>, k: int)
    requires
        acyclic(ps),
        0 <= k <= ps.len(),
    ensures
        graph_of(ps, expand_each(seed(ps), ps.take(k))),
        in_step(ps, expand_each(seed(ps), ps.take(k)), Set::empty()),
    decreases k,
{
    let start = seed(ps);
    lemma_seed(ps);
    lemma_seeded_graph(ps, start);
    let none = Set::<(Name, Name)>::empty();
    if k == 0 {
        assert(ps.take(0) =~= Seq::<PackageSpec>::empty());
        assert forall|i: int| 0 <= i < start.len() implies node_in_step(
            ps,
            start,
            #[trigger] start[i],
            none,
        ) by {
            let n = start[i];
            let all = declared(ps, n.name);
            assert(node_seeded(ps, n));
            assert(!waits(none, n.name));
            assert(n.work =~= all.take(n.work.len() as int));
            assert(all.skip(all.len() as int) =~= Seq::<Name>::empty());
            assert(n.deps =~= directs(ps, n.name));
        }
    } else {
        lemma_expand_each_in_step(ps, k - 1);
        assert(ps.take(k).drop_last() =~= ps.take(k - 1));
        assert(ps.take(k).last() == ps[k - 1]);
        let before = expand_each(start, ps.take(k - 1));
        lemma_expand_graph(ps, before, ps[k - 1].name);
        lemma_expand_in_step(ps, before, ps[k - 1].name, none);
    }
}

/// On a lockfile without cycles, a package knows what it declares and what
/// it has taken over from the packages that it declares, the one declared
/// last first. So among the paths to a dependency that it does not declare,
/// the package keeps the one through the neighbour declared last, followed
/// by the path that this neighbour keeps.
pub proof fn law_closure_equation(ps: Seq<PackageSpec>, a: Name)
    requires
        acyclic(ps),
        is_package(ps, a),
    ensures
        closure_of(closure_graph(ps), a) == taken_over(
            closure_graph(ps),
            directs(ps, a),
            declared(ps, a),
        ),
{
    let g = closure_graph(ps);
    let n = ps.len() as int;
    assert(ps.take(n) =~= ps);
    lemma_expand_each_in_step(ps, n);
    lemma_closure_graph(ps);
    assert(has_node(g, a));
    let i = node_index(g, a);
    assert(node_in_step(ps, g, g[i], Set::empty()));
    assert(!waits(Set::<(Name, Name)>::empty(), a));
    assert(declared(ps, a).skip(0) =~= declared(ps, a));
}

/// Whether `k` is the place of the last of `neighbours` that is a package
/// with `d` among its dependencies.
pub open spec fn last_with(s: GraphState, neighbours: Seq<Name>, d: Name, k: int) -> bool {
    &&& 0 <= k < neighbours.len()
    &&& has_node(s, neighbours[k])
    &&& closure_of(s, neighbours[k]).dom().contains(d)
    &&& forall|m: int|
        k < m < neighbours.len() && has_node(s, #[trigger] neighbours[m]) ==> !closure_of(
            s,
            neighbours[m],
        ).dom().contains(d)
}

/// What is taken over for a dependency that was not there before comes from
/// the last neighbour that has it.
proof fn lemma_taken_over_last(
    s: GraphState,
    found: Map<Name, Witness>,
    neighbours: Seq<Name>,
    d: Name,
)
    requires
        !found.dom().contains(d),
    ensures
        taken_over(s, found, neighbours).dom().contains(d) <==> exists|k: int|
            last_with(s, neighbours, d, k),
        forall|k: int| #[trigger]
            last_with(s, neighbours, d, k) ==> taken_over(s, found, neighbours)[d] == Witness::Indirect(
                seq![neighbours[k]] + closure_of(s, neighbours[k])[d].hops(),
            ),
    decreases neighbours.len(),
{
    if neighbours.len() > 0 {
        let rest = neighbours.skip(1);
        lemma_taken_over_last(s, found, rest, d);
        let before = taken_over(s, found, rest);
        assert forall|k: int| last_with(s, rest, d, k) implies last_with(s, neighbours, d, k + 1) by {
            assert(rest[k] == neighbours[k + 1]);
            assert forall|m: int|
                k + 1 < m < neighbours.len() && has_node(s, #[trigger] neighbours[m]) implies !closure_of(
                s,
                neighbours[m],
            ).dom().contains(d) by {
                assert(rest[m - 1] == neighbours[m]);
            }
        }
        assert forall|k: int| k > 0 && last_with(s, neighbours, d, k) implies last_with(
            s,
            rest,
            d,
            k - 1,
        ) by {
            assert(rest[k - 1] == neighbours[k]);
            assert forall|m: int| k - 1 < m < rest.len() && has_node(s, #[trigger] rest[m]) implies !closure_of(
                s,
                rest[m],
            ).dom().contains(d) by {
                assert(rest[m] == neighbours[m + 1]);
            }
        }
        if before.dom().contains(d) {
            let k = choose|k: int| last_with(s, rest, d, k);
            assert(last_with(s, neighbours, d, k + 1));
            assert forall|j: int| #[trigger] last_with(s, neighbours, d, j) implies j > 0 by {
                if j == 0 {
                    assert(neighbours[k + 1] == rest[k]);
                }
            }
        } else {
            if has_node(s, neighbours[0]) && closure_of(s, neighbours[0]).dom().contains(d) {
                assert(last_with(s, neighbours, d, 0)) by {
                    assert forall|m: int|
                        0 < m < neighbours.len() && has_node(s, #[trigger] neighbours[m]) implies !closure_of(
                        s,
                        neighbours[m],
                    ).dom().contains(d) by {
                        if closure_of(s, neighbours[m]).dom().contains(d) {
                            lemma_last_exists(s, rest, d, m - 1);
                        }
                    }
                }
            }
            assert forall|j: int| #[trigger] last_with(s, neighbours, d, j) implies j == 0 by {
                if j > 0 {
                    assert(last_with(s, rest, d, j - 1));
                }
            }
        }
    }
}

/// Where one of the neighbours has the dependency, one of them is the last
/// that has it.
proof fn lemma_last_exists(s: GraphState, neighbours: Seq<Name>, d: Name, k: int)
    requires
        0 <= k < neighbours.len(),
        has_node(s, neighbours[k]),
        closure_of(s, neighbours[k]).dom().contains(d),
    ensures
        exists|j: int| last_with(s, neighbours, d, j),
    decreases neighbours.len() - k,
{
    if exists|m: int|
        k < m < neighbours.len() && has_node(s, #[trigger] neighbours[m]) && closure_of(
            s,
            neighbours[m],
        ).dom().contains(d) {
        let m = choose|m: int|
            k < m < neighbours.len() && has_node(s, #[trigger] neighbours[m]) && closure_of(
                s,
                neighbours[m],
            ).dom().contains(d);
        lemma_last_exists(s, neighbours, d, m);
    } else {
        assert(last_with(s, neighbours, d, k));
    }
}

/// On a lockfile without cycles, the witness that a package keeps for a
/// dependency that it does not declare leads through the neighbour that it
/// declares last among those that have the dependency, and goes on as the
/// witness of that neighbour. Where two neighbours share a dependency, the
/// package records it once, through the one that it declares last.
pub proof fn law_witness_through_last_neighbour(ps: Seq<PackageSpec>, a: Name, d: Name)
    requires
        acyclic(ps),
        is_package(ps, a),
        !declares(ps, a, d),
        closure_of(closure_graph(ps), a).dom().contains(d),
    ensures
        exists|k: int| last_with(closure_graph(ps), declared(ps, a), d, k),
        forall|k: int| #[trigger]
            last_with(closure_graph(ps), declared(ps, a), d, k) ==> closure_of(closure_graph(ps), a)[d]
                == Witness::Indirect(
                seq![declared(ps, a)[k]] + closure_of(closure_graph(ps), declared(ps, a)[k])[d].hops(),
            ),
{
    law_closure_equation(ps, a);
    lemma_taken_over_last(closure_graph(ps), directs(ps, a), declared(ps, a), d);
}

} // verus!
