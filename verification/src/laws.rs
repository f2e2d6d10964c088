//! What holds of every lockfile and of every set of rules.

use vstd::prelude::*;
use crate::deps::{lines_of, outcome_of, CargoLock, Lints, LookupError, Violation};
use crate::invariants::{
    all_done, covered, lemma_closed, lemma_closure_graph, lemma_expand_grows, lemma_grows_names,
    lemma_seed, node_grows, node_ok, node_settled, owed, witness_holds,
};
use crate::model::{
    acyclic, closure_graph, declares, distinct_names, expand, has_node, is_package,
    lemma_links_follows, links, node_index, path_follows, reaches, seed, GraphState, Name,
    PackageSpec, Witness,
};
use crate::rules::{
    closure_of, first_unknown, found, lemma_first_unknown, lemma_names_checked, lemma_one_rule,
    lemma_violations, lemma_violations_all, lint_lines, lint_outcome, names_checked, one_rule,
    rule_names, violation_line, violations, RuleSpec, ViolationSpec,
};

verus! {

/// The dependency graph of a lockfile holds the packages of the lockfile and
/// no others, each once and with nothing left in its work list.
pub proof fn law_graph_holds_the_packages(ps: Seq<PackageSpec>, a: Name)
    ensures
        has_node(closure_graph(ps), a) <==> is_package(ps, a),
        distinct_names(closure_graph(ps)),
        all_done(closure_graph(ps)),
{
    lemma_closure_graph(ps);
}

/// A package's witness for a dependency is direct where the package declares
/// the dependency, and only there.
pub proof fn law_declared_is_direct(ps: Seq<PackageSpec>, a: Name, b: Name)
    requires
        is_package(ps, a),
    ensures
        declares(ps, a, b) <==> closure_of(closure_graph(ps), a).dom().contains(b) && closure_of(
            closure_graph(ps),
            a,
        )[b] == Witness::Direct,
{
    let g = closure_graph(ps);
    lemma_node(ps, a);
    let i = node_index(g, a);
    if closure_of(g, a).dom().contains(b) {
        assert(witness_holds(ps, a, g[i].deps[b], b));
    }
}

/// Every witness is true: a direct one stands for a declared dependency, and
/// an indirect one holds at least one hop, the package declares the first
/// hop, each hop declares the next, and the last declares the dependency. So
/// a package that is no dependency of another is never recorded as one.
pub proof fn law_witness_is_a_path(ps: Seq<PackageSpec>, a: Name, b: Name)
    requires
        is_package(ps, a),
        closure_of(closure_graph(ps), a).dom().contains(b),
    ensures
        witness_holds(ps, a, closure_of(closure_graph(ps), a)[b], b),
        path_follows(ps, a, closure_of(closure_graph(ps), a)[b].hops(), b),
        reaches(ps, a, b),
{
    let g = closure_graph(ps);
    lemma_node(ps, a);
    let i = node_index(g, a);
    let w = g[i].deps[b];
    assert(witness_holds(ps, a, w, b));
    assert(links(ps, a, w.hops(), b));
    lemma_links_follows(ps, a, w.hops(), b);
}

/// A package depends on what the packages that it declares declare.
pub proof fn law_neighbours_dependencies(ps: Seq<PackageSpec>, a: Name, b: Name, c: Name)
    requires
        declares(ps, a, b),
        declares(ps, b, c),
    ensures
        closure_of(closure_graph(ps), a).dom().contains(c),
{
    let g = closure_graph(ps);
    lemma_declarer_is_package(ps, a, b);
    lemma_declarer_is_package(ps, b, c);
    lemma_node(ps, a);
    let i = node_index(g, a);
    assert(covered(ps, g[i], b, false));
    assert(owed(ps, b, c, false));
}

/// On a lockfile without cycles, the dependencies recorded for a package are
/// all the packages that it reaches, and no others.
pub proof fn law_closure_is_complete(ps: Seq<PackageSpec>, a: Name, d: Name)
    requires
        acyclic(ps),
        is_package(ps, a),
    ensures
        closure_of(closure_graph(ps), a).dom().contains(d) <==> reaches(ps, a, d),
{
    let g = closure_graph(ps);
    lemma_node(ps, a);
    let i = node_index(g, a);
    lemma_closed(ps, g[i], Set::empty());
    if closure_of(g, a).dom().contains(d) {
        law_witness_is_a_path(ps, a, d);
    }
}

/// Expanding a package keeps every witness that the graph holds: the first
/// path that was found for a dependency stays, whatever is found later.
pub proof fn law_found_stays(s: GraphState, key: Name, i: int, d: Name)
    requires
        distinct_names(s),
        0 <= i < s.len(),
        s[i].deps.dom().contains(d),
    ensures
        expand(s, key).len() == s.len(),
        expand(s, key)[i].name == s[i].name,
        expand(s, key)[i].deps.dom().contains(d),
        expand(s, key)[i].deps[d] == s[i].deps[d],
{
    lemma_expand_grows(s, key);
    assert(node_grows(s[i], expand(s, key)[i]));
}

/// What the graph holds for a package of the lockfile.
proof fn lemma_node(ps: Seq<PackageSpec>, a: Name)
    requires
        is_package(ps, a),
    ensures
        has_node(closure_graph(ps), a),
        has_node(seed(ps), a),
        node_index(seed(ps), a) == node_index(closure_graph(ps), a),
        0 <= node_index(closure_graph(ps), a) < closure_graph(ps).len(),
        closure_graph(ps).len() == seed(ps).len(),
        closure_graph(ps)[node_index(closure_graph(ps), a)].name == a,
        node_ok(ps, closure_graph(ps)[node_index(closure_graph(ps), a)]),
        node_settled(ps, closure_graph(ps)[node_index(closure_graph(ps), a)], Set::empty(), false),
        acyclic(ps) ==> node_settled(
            ps,
            closure_graph(ps)[node_index(closure_graph(ps), a)],
            Set::empty(),
            true,
        ),
        closure_graph(ps)[node_index(closure_graph(ps), a)].work.len() == 0,
        node_grows(
            seed(ps)[node_index(closure_graph(ps), a)],
            closure_graph(ps)[node_index(closure_graph(ps), a)],
        ),
{
    let g = closure_graph(ps);
    lemma_closure_graph(ps);
    lemma_seed(ps);
    lemma_grows_names(seed(ps), g);
    assert(has_node(g, a));
    assert(has_node(seed(ps), a));
    let i = node_index(g, a);
    assert(g[i].work.len() == 0);
}

/// What declares a dependency is a package of the lockfile.
proof fn lemma_declarer_is_package(ps: Seq<PackageSpec>, a: Name, b: Name)
    requires
        declares(ps, a, b),
    ensures
        is_package(ps, a),
{
    let k = choose|k: int|
        0 <= k < ps.len() && (#[trigger] ps[k]).name == a && ps[k].dependencies.contains(b);
    assert(ps[k].name == a);
}

/// A rule that forbids a package what it declares, where the forbidden name
/// is a package too, gives one violation, with an empty path: the line
/// `deny: `, the package, ` -> `, the dependency.
pub proof fn law_direct_violation(ps: Seq<PackageSpec>, p: Name, d: Name)
    requires
        declares(ps, p, d),
        is_package(ps, d),
    ensures
        lint_outcome(closure_graph(ps), one_rule(p, d)) == Ok::<Seq<ViolationSpec>, Name>(
            seq![ViolationSpec { origin: p, forbidden: d, path: Seq::empty() }],
        ),
        lint_lines(closure_graph(ps), one_rule(p, d)) == Ok::<Seq<Seq<char>>, Seq<char>>(
            seq!["deny: "@ + p + " -> "@ + d],
        ),
{
    let g = closure_graph(ps);
    lemma_declarer_is_package(ps, p, d);
    law_graph_holds_the_packages(ps, p);
    law_graph_holds_the_packages(ps, d);
    law_declared_is_direct(ps, p, d);
    lemma_one_rule(g, p, d);
    let v = ViolationSpec { origin: p, forbidden: d, path: Seq::empty() };
    assert(violation_line(v) =~= "deny: "@ + p + " -> "@ + d);
    assert(seq![v].map_values(|v: ViolationSpec| violation_line(v)) =~= seq![
        "deny: "@ + p + " -> "@ + d,
    ]);
}

/// Where `a` declares `b`, `b` declares `c` and `a` does not declare `c`, a
/// rule that forbids `c` to `a` gives one violation. Its path holds at least
/// one hop and leads from `a` to `c`; its first hop is `b` where `a` declares
/// nothing else.
pub proof fn law_indirect_violation(ps: Seq<PackageSpec>, a: Name, b: Name, c: Name)
    requires
        declares(ps, a, b),
        declares(ps, b, c),
        !declares(ps, a, c),
        is_package(ps, c),
    ensures
        lint_outcome(closure_graph(ps), one_rule(a, c)) is Ok,
        lint_outcome(closure_graph(ps), one_rule(a, c))->Ok_0.len() == 1,
        ({
            let v = lint_outcome(closure_graph(ps), one_rule(a, c))->Ok_0[0];
            &&& v.origin == a
            &&& v.forbidden == c
            &&& v.path.len() > 0
            &&& path_follows(ps, a, v.path, c)
            &&& (forall|x: Name| declares(ps, a, x) ==> x == b) ==> v.path[0] == b
        }),
{
    let g = closure_graph(ps);
    lemma_declarer_is_package(ps, a, b);
    law_graph_holds_the_packages(ps, a);
    law_graph_holds_the_packages(ps, c);
    law_neighbours_dependencies(ps, a, b, c);
    law_declared_is_direct(ps, a, c);
    law_witness_is_a_path(ps, a, c);
    lemma_one_rule(g, a, c);
}

/// A rule that forbids a package something that it does not reach gives no
/// violation, where both names are packages.
pub proof fn law_no_false_positive(ps: Seq<PackageSpec>, p: Name, d: Name)
    requires
        is_package(ps, p),
        is_package(ps, d),
        !reaches(ps, p, d),
    ensures
        lint_outcome(closure_graph(ps), one_rule(p, d)) == Ok::<Seq<ViolationSpec>, Name>(
            Seq::empty(),
        ),
{
    let g = closure_graph(ps);
    law_graph_holds_the_packages(ps, p);
    law_graph_holds_the_packages(ps, d);
    if closure_of(g, p).dom().contains(d) {
        law_witness_is_a_path(ps, p, d);
    }
    lemma_one_rule(g, p, d);
}

/// Whatever the rules, each violation is true: it comes from a rule that
/// forbids its name to its package, and its path leads from the package to
/// the forbidden name.
pub proof fn law_violations_are_true(ps: Seq<PackageSpec>, rs: Seq<RuleSpec>, k: int)
    requires
        lint_outcome(closure_graph(ps), rs) is Ok,
        0 <= k < lint_outcome(closure_graph(ps), rs)->Ok_0.len(),
    ensures
        ({
            let v = lint_outcome(closure_graph(ps), rs)->Ok_0[k];
            &&& exists|m: int|
                0 <= m < rs.len() && (#[trigger] rs[m]).name == v.origin && rs[m].dependencies.contains(
                    v.forbidden,
                )
            &&& path_follows(ps, v.origin, v.path, v.forbidden)
            &&& reaches(ps, v.origin, v.forbidden)
            &&& v.path.len() == 0 <==> declares(ps, v.origin, v.forbidden)
        }),
{
    let g = closure_graph(ps);
    let v = violations(g, rs)[k];
    lemma_violations(g, rs, k);
    let m = choose|m: int|
        0 <= m < rs.len() && (#[trigger] rs[m]).name == v.origin && rs[m].dependencies.contains(
            v.forbidden,
        );
    lemma_names_checked(rs, v.origin);
    lemma_first_unknown(g, names_checked(rs));
    let at = choose|at: int| 0 <= at < names_checked(rs).len() && names_checked(rs)[at] == v.origin;
    assert(has_node(g, names_checked(rs)[at]));
    law_graph_holds_the_packages(ps, v.origin);
    law_witness_is_a_path(ps, v.origin, v.forbidden);
    law_declared_is_direct(ps, v.origin, v.forbidden);
}

/// Whatever the rules, each breach is reported, where the graph has every
/// name of the rules: a forbidden name that the rule's package depends on
/// gives a violation with the hops of the recorded witness.
pub proof fn law_breaches_are_reported(s: GraphState, rs: Seq<RuleSpec>, m: int, d: int)
    requires
        lint_outcome(s, rs) is Ok,
        0 <= m < rs.len(),
        0 <= d < rs[m].dependencies.len(),
        closure_of(s, rs[m].name).dom().contains(rs[m].dependencies[d]),
    ensures
        lint_outcome(s, rs)->Ok_0.contains(
            ViolationSpec {
                origin: rs[m].name,
                forbidden: rs[m].dependencies[d],
                path: closure_of(s, rs[m].name)[rs[m].dependencies[d]].hops(),
            },
        ),
{
    lemma_violations_all(s, rs, m, d);
}

/// The rules end with an error where one of them names, as its package or
/// as a forbidden name, something that the graph does not have, and only
/// there. The error is the first such name in the order of the rules, and no
/// violation comes with it.
pub proof fn law_unknown_name_fails(s: GraphState, rs: Seq<RuleSpec>)
    ensures
        lint_outcome(s, rs) is Err <==> exists|m: int|
            0 <= m < rs.len() && (!has_node(s, (#[trigger] rs[m]).name) || exists|d: int|
                0 <= d < rs[m].dependencies.len() && !has_node(s, #[trigger] rs[m].dependencies[d])),
        lint_outcome(s, rs) is Err ==> exists|k: int|
            0 <= k < names_checked(rs).len() && #[trigger] names_checked(rs)[k] == lint_outcome(
                s,
                rs,
            )->Err_0 && !has_node(s, names_checked(rs)[k]) && forall|j: int|
                0 <= j < k ==> has_node(s, #[trigger] names_checked(rs)[j]),
{
    let names = names_checked(rs);
    lemma_first_unknown(s, names);
    if lint_outcome(s, rs) is Err {
        let name = first_unknown(s, names)->Some_0;
        assert(names.contains(name));
        lemma_names_checked(rs, name);
        let m = choose|m: int|
            0 <= m < rs.len() && ((#[trigger] rs[m]).name == name || rs[m].dependencies.contains(name));
        if rs[m].name != name {
            let d = choose|d: int| 0 <= d < rs[m].dependencies.len() && rs[m].dependencies[d] == name;
            assert(!has_node(s, rs[m].dependencies[d]));
        }
    }
    if exists|m: int|
        0 <= m < rs.len() && (!has_node(s, (#[trigger] rs[m]).name) || exists|d: int|
            0 <= d < rs[m].dependencies.len() && !has_node(s, #[trigger] rs[m].dependencies[d])) {
        let m = choose|m: int|
            0 <= m < rs.len() && (!has_node(s, (#[trigger] rs[m]).name) || exists|d: int|
                0 <= d < rs[m].dependencies.len() && !has_node(s, #[trigger] rs[m].dependencies[d]));
        let name = if !has_node(s, rs[m].name) {
            rs[m].name
        } else {
            let d = choose|d: int|
                0 <= d < rs[m].dependencies.len() && !has_node(s, #[trigger] rs[m].dependencies[d]);
            assert(rs[m].dependencies.contains(rs[m].dependencies[d]));
            rs[m].dependencies[d]
        };
        lemma_names_checked(rs, name);
        assert(names.contains(name));
        let k = choose|k: int| 0 <= k < names.len() && names[k] == name;
        assert(!has_node(s, names[k]));
    }
}

/// Rules that forbid nothing, and whose packages the graph has, give no
/// violation and no error; so do no rules at all.
pub proof fn law_nothing_forbidden(s: GraphState, rs: Seq<RuleSpec>)
    requires
        forall|m: int|
            0 <= m < rs.len() ==> has_node(s, (#[trigger] rs[m]).name) && rs[m].dependencies.len() == 0,
    ensures
        lint_outcome(s, rs) == Ok::<Seq<ViolationSpec>, Name>(Seq::empty()),
    decreases rs.len(),
{
    if rs.len() > 0 {
        let less = rs.drop_last();
        let r = rs.last();
        assert forall|m: int| 0 <= m < less.len() implies has_node(s, (#[trigger] less[m]).name)
            && less[m].dependencies.len() == 0 by {
            assert(less[m] == rs[m]);
        }
        law_nothing_forbidden(s, less);
        assert(rs[rs.len() - 1] == r);
        assert(rule_names(r) =~= seq![r.name]);
        assert(names_checked(rs).drop_last() =~= names_checked(less));
        assert(names_checked(rs).last() == r.name);
        assert(violations(s, rs) =~= Seq::<ViolationSpec>::empty());
    }
}

/// The outcome depends on the lockfile and the rules alone: two runs on the
/// same packages and the same rules give the same lines, or the same error.
pub proof fn law_same_input_same_lines(
    first_lock: CargoLock,
    first_lints: Lints,
    first: Result<Vec<String>, String>,
    second_lock: CargoLock,
    second_lints: Lints,
    second: Result<Vec<String>, String>,
)
    requires
        first_lock@ == second_lock@,
        first_lints@ == second_lints@,
        lines_of(first) == lint_lines(closure_graph(first_lock@), first_lints@),
        lines_of(second) == lint_lines(closure_graph(second_lock@), second_lints@),
    ensures
        lines_of(first) == lines_of(second),
{
}

/// Two evaluations of the same rules on graphs of the same packages give the
/// same violations, or the same error.
pub proof fn law_same_input_same_outcome(
    ps: Seq<PackageSpec>,
    rs: Seq<RuleSpec>,
    first: Result<Vec<Violation>, LookupError>,
    second: Result<Vec<Violation>, LookupError>,
)
    requires
        outcome_of(first) == lint_outcome(closure_graph(ps), rs),
        outcome_of(second) == lint_outcome(closure_graph(ps), rs),
    ensures
        outcome_of(first) == outcome_of(second),
{
}

} // verus!
