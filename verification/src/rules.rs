//! What the deny rules say of a dependency graph.

use vstd::prelude::*;
use crate::model::{has_node, node_index, GraphState, Name, Witness};

verus! {

/// A deny rule: the package `name` must not depend on any of `dependencies`,
/// neither directly nor through others.
pub struct RuleSpec {
    pub name: Name,
    pub dependencies: Seq<Name>,
}

/// A broken rule: `origin` depends on `forbidden` through `path`, which is
/// empty where the dependency is direct.
pub struct ViolationSpec {
    pub origin: Name,
    pub forbidden: Name,
    pub path: Seq<Name>,
}

/// What the package `name` depends on.
pub open spec fn closure_of(s: GraphState, name: Name) -> Map<Name, Witness> {
    s[node_index(s, name)].deps
}

/// The names that a rule refers to, in the order in which they are looked up.
pub open spec fn rule_names(r: RuleSpec) -> Seq<Name> {
    seq![r.name] + r.dependencies
}

/// The names that the rules refer to, in the order in which they are looked up.
pub open spec fn names_checked(rs: Seq<RuleSpec>) -> Seq<Name>
    decreases rs.len(),
{
    if rs.len() == 0 {
        Seq::empty()
    } else {
        names_checked(rs.drop_last()) + rule_names(rs.last())
    }
}

/// The first of `names` that is no package of the graph, if there is one.
pub open spec fn first_unknown(s: GraphState, names: Seq<Name>) -> Option<Name>
    decreases names.len(),
{
    if names.len() == 0 {
        None
    } else {
        match first_unknown(s, names.drop_last()) {
            Some(name) => Some(name),
            None => if has_node(s, names.last()) {
                None
            } else {
                Some(names.last())
            },
        }
    }
}

/// The violations of one rule: one for each forbidden name among the
/// dependencies `deps` of `origin`, in the order of the rule.
pub open spec fn found(deps: Map<Name, Witness>, origin: Name, forbidden: Seq<Name>) -> Seq<
    ViolationSpec,
>
    decreases forbidden.len(),
{
    if forbidden.len() == 0 {
        Seq::empty()
    } else {
        let earlier = found(deps, origin, forbidden.drop_last());
        let name = forbidden.last();
        if deps.dom().contains(name) {
            earlier.push(ViolationSpec { origin, forbidden: name, path: deps[name].hops() })
        } else {
            earlier
        }
    }
}

/// The violations of the rules, rule by rule.
pub open spec fn violations(s: GraphState, rs: Seq<RuleSpec>) -> Seq<ViolationSpec>
    decreases rs.len(),
{
    if rs.len() == 0 {
        Seq::empty()
    } else {
        violations(s, rs.drop_last()) + found(
            closure_of(s, rs.last().name),
            rs.last().name,
            rs.last().dependencies,
        )
    }
}

/// The outcome of the rules on a graph: the first name that the graph does
/// not have, or else the violations.
pub open spec fn lint_outcome(s: GraphState, rs: Seq<RuleSpec>) -> Result<Seq<ViolationSpec>, Name> {
    match first_unknown(s, names_checked(rs)) {
        Some(name) => Err(name),
        None => Ok(violations(s, rs)),
    }
}

/// The lines that report the outcome: one for each violation, or the one
/// that reports the name that the graph does not have.
pub open spec fn lint_lines(s: GraphState, rs: Seq<RuleSpec>) -> Result<Seq<Seq<char>>, Seq<char>> {
    match lint_outcome(s, rs) {
        Ok(vs) => Ok(vs.map_values(|v: ViolationSpec| violation_line(v))),
        Err(name) => Err(unknown_line(name)),
    }
}

/// The hops of a path, each behind an arrow.
pub open spec fn arrows(path: Seq<Name>) -> Seq<char>
    decreases path.len(),
{
    if path.len() == 0 {
        Seq::empty()
    } else {
        arrows(path.drop_last()) + " -> "@ + path.last()
    }
}

/// The line that reports a violation.
pub open spec fn violation_line(v: ViolationSpec) -> Seq<char> {
    "deny: "@ + v.origin + arrows(v.path) + " -> "@ + v.forbidden
}

/// The line that reports a name that the graph does not have.
pub open spec fn unknown_line(name: Name) -> Seq<char> {
    "unknown crate in lints: "@ + name
}

/// What `first_unknown` finds in a list of names stays the first unknown name
/// when more names follow.
pub proof fn lemma_first_unknown_prefix(s: GraphState, names: Seq<Name>, more: Seq<Name>)
    requires
        first_unknown(s, names) is Some,
    ensures
        first_unknown(s, names + more) == first_unknown(s, names),
    decreases more.len(),
{
    if more.len() == 0 {
        assert(names + more =~= names);
    } else {
        lemma_first_unknown_prefix(s, names, more.drop_last());
        assert((names + more).drop_last() =~= names + more.drop_last());
    }
}

/// The names of the first `k` rules, then the origin of rule `k` and the
/// first `d` names that it forbids.
pub open spec fn names_before(rs: Seq<RuleSpec>, k: int, d: int) -> Seq<Name> {
    names_checked(rs.take(k)) + rule_names(rs[k]).take(d + 1)
}

/// What was looked up before any point of the evaluation is the start of
/// what is looked up in all.
pub proof fn lemma_names_before(rs: Seq<RuleSpec>, k: int, d: int)
    requires
        0 <= k < rs.len(),
        0 <= d <= rs[k].dependencies.len(),
    ensures
        exists|more: Seq<Name>| names_checked(rs) == names_before(rs, k, d) + more,
    decreases rs.len(),
{
    if k == rs.len() - 1 {
        assert(rs.take(k) =~= rs.drop_last());
        let more = rule_names(rs[k]).skip(d + 1);
        assert(names_checked(rs) =~= names_before(rs, k, d) + more);
    } else {
        lemma_names_before(rs.drop_last(), k, d);
        let less = choose|more: Seq<Name>|
            names_checked(rs.drop_last()) == names_before(rs.drop_last(), k, d) + more;
        assert(rs.drop_last().take(k) =~= rs.take(k));
        let more = less + rule_names(rs.last());
        assert(names_checked(rs) =~= names_before(rs, k, d) + more);
    }
}

/// `first_unknown` finds nothing where the graph has every name, and else
/// the name at the first place where the graph has none.
pub proof fn lemma_first_unknown(s: GraphState, names: Seq<Name>)
    ensures
        match first_unknown(s, names) {
            None => forall|k: int| 0 <= k < names.len() ==> has_node(s, #[trigger] names[k]),
            Some(name) => exists|k: int|
                0 <= k < names.len() && #[trigger] names[k] == name && !has_node(s, name) && forall|m: int|
                    0 <= m < k ==> has_node(s, #[trigger] names[m]),
        },
    decreases names.len(),
{
    if names.len() > 0 {
        let less = names.drop_last();
        lemma_first_unknown(s, less);
        match first_unknown(s, less) {
            Some(name) => {
                let k = choose|k: int|
                    0 <= k < less.len() && #[trigger] less[k] == name && !has_node(s, name) && forall|m: int|
                        0 <= m < k ==> has_node(s, #[trigger] less[m]);
                assert(names[k] == name);
                assert forall|m: int| 0 <= m < k implies has_node(s, #[trigger] names[m]) by {
                    assert(less[m] == names[m]);
                }
            },
            None => {
                assert forall|m: int| 0 <= m < names.len() - 1 implies has_node(s, #[trigger] names[m]) by {
                    assert(less[m] == names[m]);
                }
                if !has_node(s, names.last()) {
                    assert(names[names.len() - 1] == names.last());
                }
            },
        }
    }
}

/// The names that the rules refer to are the origins of the rules and the
/// names that they forbid.
pub proof fn lemma_names_checked(rs: Seq<RuleSpec>, name: Name)
    ensures
        names_checked(rs).contains(name) <==> exists|m: int|
            0 <= m < rs.len() && ((#[trigger] rs[m]).name == name || rs[m].dependencies.contains(name)),
    decreases rs.len(),
{
    if rs.len() > 0 {
        let less = rs.drop_last();
        let r = rs.last();
        lemma_names_checked(less, name);
        let names = names_checked(rs);
        let head = names_checked(less);
        if names.contains(name) {
            let k = choose|k: int| 0 <= k < names.len() && names[k] == name;
            if k < head.len() {
                assert(head[k] == name);
                let m = choose|m: int|
                    0 <= m < less.len() && ((#[trigger] less[m]).name == name || less[m].dependencies.contains(
                        name,
                    ));
                assert(rs[m] == less[m]);
            } else if k == head.len() {
                assert(rs[rs.len() - 1].name == name);
            } else {
                assert(r.dependencies[k - head.len() - 1] == name);
                assert(rs[rs.len() - 1].dependencies.contains(name));
            }
        }
        if exists|m: int|
            0 <= m < rs.len() && ((#[trigger] rs[m]).name == name || rs[m].dependencies.contains(name)) {
            let m = choose|m: int|
                0 <= m < rs.len() && ((#[trigger] rs[m]).name == name || rs[m].dependencies.contains(name));
            if m < rs.len() - 1 {
                assert(less[m] == rs[m]);
                let k = choose|k: int| 0 <= k < head.len() && head[k] == name;
                assert(names[k] == name);
            } else if r.name == name {
                assert(names[head.len() as int] == name);
            } else {
                let d = choose|d: int| 0 <= d < r.dependencies.len() && r.dependencies[d] == name;
                assert(names[head.len() + 1 + d] == name);
            }
        }
    }
}

/// Each violation of a rule names the rule's package and one of the names
/// that the rule forbids, which is among the dependencies, and holds the hops
/// of its witness.
pub proof fn lemma_found(deps: Map<Name, Witness>, origin: Name, forbidden: Seq<Name>, k: int)
    requires
        0 <= k < found(deps, origin, forbidden).len(),
    ensures
        found(deps, origin, forbidden)[k].origin == origin,
        forbidden.contains(found(deps, origin, forbidden)[k].forbidden),
        deps.dom().contains(found(deps, origin, forbidden)[k].forbidden),
        found(deps, origin, forbidden)[k].path == deps[found(deps, origin, forbidden)[k].forbidden].hops(),
    decreases forbidden.len(),
{
    if forbidden.len() > 0 {
        let earlier = found(deps, origin, forbidden.drop_last());
        if k < earlier.len() {
            lemma_found(deps, origin, forbidden.drop_last(), k);
            let name = earlier[k].forbidden;
            let m = choose|m: int| 0 <= m < forbidden.len() - 1 && forbidden.drop_last()[m] == name;
            assert(forbidden[m] == name);
        } else {
            assert(forbidden[forbidden.len() - 1] == forbidden.last());
        }
    }
}

/// Each violation comes from a rule: it names the rule's package and one of
/// the names that the rule forbids, which is among the dependencies of that
/// package, and holds the hops of its witness.
pub proof fn lemma_violations(s: GraphState, rs: Seq<RuleSpec>, k: int)
    requires
        0 <= k < violations(s, rs).len(),
    ensures
        exists|m: int|
            0 <= m < rs.len() && (#[trigger] rs[m]).name == violations(s, rs)[k].origin
                && rs[m].dependencies.contains(violations(s, rs)[k].forbidden),
        closure_of(s, violations(s, rs)[k].origin).dom().contains(violations(s, rs)[k].forbidden),
        violations(s, rs)[k].path == closure_of(s, violations(s, rs)[k].origin)[violations(
            s,
            rs,
        )[k].forbidden].hops(),
    decreases rs.len(),
{
    if rs.len() > 0 {
        let less = rs.drop_last();
        let earlier = violations(s, less);
        if k < earlier.len() {
            lemma_violations(s, less, k);
            let m = choose|m: int|
                0 <= m < less.len() && (#[trigger] less[m]).name == earlier[k].origin
                    && less[m].dependencies.contains(earlier[k].forbidden);
            assert(rs[m] == less[m]);
        } else {
            let r = rs.last();
            lemma_found(closure_of(s, r.name), r.name, r.dependencies, k - earlier.len());
            assert(rs[rs.len() - 1] == r);
        }
    }
}

/// A forbidden name that is among the dependencies of a rule's package is
/// reported.
pub proof fn lemma_found_all(deps: Map<Name, Witness>, origin: Name, forbidden: Seq<Name>, d: int)
    requires
        0 <= d < forbidden.len(),
        deps.dom().contains(forbidden[d]),
    ensures
        found(deps, origin, forbidden).contains(
            ViolationSpec { origin, forbidden: forbidden[d], path: deps[forbidden[d]].hops() },
        ),
    decreases forbidden.len(),
{
    let v = ViolationSpec { origin, forbidden: forbidden[d], path: deps[forbidden[d]].hops() };
    let all = found(deps, origin, forbidden);
    let earlier = found(deps, origin, forbidden.drop_last());
    if d < forbidden.len() - 1 {
        assert(forbidden.drop_last()[d] == forbidden[d]);
        lemma_found_all(deps, origin, forbidden.drop_last(), d);
        let k = choose|k: int| 0 <= k < earlier.len() && earlier[k] == v;
        assert(all[k] == v);
    } else {
        assert(all[all.len() - 1] == v);
    }
}

/// A forbidden name that is among the dependencies of a rule's package is
/// reported.
pub proof fn lemma_violations_all(s: GraphState, rs: Seq<RuleSpec>, m: int, d: int)
    requires
        0 <= m < rs.len(),
        0 <= d < rs[m].dependencies.len(),
        closure_of(s, rs[m].name).dom().contains(rs[m].dependencies[d]),
    ensures
        violations(s, rs).contains(
            ViolationSpec {
                origin: rs[m].name,
                forbidden: rs[m].dependencies[d],
                path: closure_of(s, rs[m].name)[rs[m].dependencies[d]].hops(),
            },
        ),
    decreases rs.len(),
{
    let v = ViolationSpec {
        origin: rs[m].name,
        forbidden: rs[m].dependencies[d],
        path: closure_of(s, rs[m].name)[rs[m].dependencies[d]].hops(),
    };
    let all = violations(s, rs);
    let earlier = violations(s, rs.drop_last());
    if m < rs.len() - 1 {
        assert(rs.drop_last()[m] == rs[m]);
        lemma_violations_all(s, rs.drop_last(), m, d);
        let k = choose|k: int| 0 <= k < earlier.len() && earlier[k] == v;
        assert(all[k] == v);
    } else {
        let r = rs.last();
        let last = found(closure_of(s, r.name), r.name, r.dependencies);
        lemma_found_all(closure_of(s, r.name), r.name, r.dependencies, d);
        let k = choose|k: int| 0 <= k < last.len() && last[k] == v;
        assert(all[earlier.len() + k] == v);
    }
}

/// The one rule that forbids the package `origin` to depend on `name`.
pub open spec fn one_rule(origin: Name, name: Name) -> Seq<RuleSpec> {
    seq![RuleSpec { name: origin, dependencies: seq![name] }]
}

/// The outcome of one rule with one forbidden name, where the graph has both
/// names: the violation, if the package depends on the name, and else none.
pub proof fn lemma_one_rule(s: GraphState, origin: Name, name: Name)
    ensures
        lint_outcome(s, one_rule(origin, name)) == (if !has_node(s, origin) {
            Err::<Seq<ViolationSpec>, Name>(origin)
        } else if !has_node(s, name) {
            Err(name)
        } else if closure_of(s, origin).dom().contains(name) {
            Ok(
                seq![
                    ViolationSpec { origin, forbidden: name, path: closure_of(s, origin)[name].hops() },
                ],
            )
        } else {
            Ok(Seq::empty())
        }),
{
    let rs = one_rule(origin, name);
    let r = rs[0];
    assert(rs.drop_last() =~= Seq::<RuleSpec>::empty());
    assert(names_checked(rs.drop_last()) =~= Seq::<Name>::empty());
    let names = names_checked(rs);
    assert(names =~= seq![origin, name]);
    assert(names.drop_last() =~= seq![origin]);
    assert(names.drop_last().drop_last() =~= Seq::<Name>::empty());
    assert(first_unknown(s, names.drop_last().drop_last()) is None);
    assert(first_unknown(s, names.drop_last()) == if has_node(s, origin) {
        None::<Name>
    } else {
        Some(origin)
    });
    let deps = closure_of(s, origin);
    assert(r.dependencies.drop_last() =~= Seq::<Name>::empty());
    assert(found(deps, origin, r.dependencies.drop_last()) =~= Seq::<ViolationSpec>::empty());
    assert(violations(s, rs.drop_last()) =~= Seq::<ViolationSpec>::empty());
    if deps.dom().contains(name) {
        assert(violations(s, rs) =~= seq![
            ViolationSpec { origin, forbidden: name, path: deps[name].hops() },
        ]);
    } else {
        assert(violations(s, rs) =~= Seq::<ViolationSpec>::empty());
    }
}

} // verus!
