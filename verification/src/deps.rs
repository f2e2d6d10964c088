//! The dependency graph of a lockfile and the deny rules evaluated on it.

use vstd::prelude::*;
use vstd::string::StringExecFns;
use crate::rules::{
    arrows, closure_of, first_unknown, found, lemma_first_unknown_prefix, lemma_names_before,
    lint_lines, lint_outcome, names_before, names_checked, rule_names, unknown_line,
    violation_line, violations, RuleSpec, ViolationSpec,
};
use crate::model::{
    absorb, absorb_named, add_direct, add_directs, closure_graph, declare, distinct_names, expand,
    expand_each, has_node, lemma_node_index, lemma_pending_update, merged, node_index, pending,
    pop_work, same_names, seed, seed_package, GraphState, Name, NodeState, PackageSpec, Witness,
};

verus! {

/// A lockfile: the packages of a build.
#[derive(Debug, Clone, PartialEq, Eq)]
pub struct CargoLock {
    pub package: Option<Vec<Package>>,
}

/// One package of a lockfile, with the dependencies it declares.
#[derive(Debug, Clone, PartialEq, Eq)]
pub struct Package {
    pub name: String,
    pub dependencies: Option<Vec<String>>,
}

impl View for Package {
    type V = PackageSpec;

    open spec fn view(&self) -> PackageSpec {
        PackageSpec {
            name: self.name@,
            dependencies: match self.dependencies {
                Some(ds) => texts_of(ds@),
                None => Seq::empty(),
            },
        }
    }
}

impl View for CargoLock {
    type V = Seq<PackageSpec>;

    open spec fn view(&self) -> Seq<PackageSpec> {
        match self.package {
            Some(ps) => ps@.map_values(|p: Package| p@),
            None => Seq::empty(),
        }
    }
}

/// The texts that a vector of strings holds.
pub open spec fn texts_of(v: Seq<String>) -> Seq<Name> {
    v.map_values(|s: String| s@)
}

/// Why a package counts as a dependency of another.
#[derive(Debug, Clone, PartialEq, Eq)]
pub enum Dep {
    /// The package declares the dependency itself.
    Direct,
    /// The dependency is reached through these packages, in order.
    Indirect(Vec<String>),
}

impl View for Dep {
    type V = Witness;

    open spec fn view(&self) -> Witness {
        match self {
            Dep::Direct => Witness::Direct,
            Dep::Indirect(path) => Witness::Indirect(texts_of(path@)),
        }
    }
}

/// One dependency of a package, with its witness.
#[derive(Debug)]
struct DepEntry {
    name: String,
    dep: Dep,
}

/// The dependencies that a list of entries records: a later entry of a name
/// replaces an earlier one.
spec fn entries_map(es: Seq<DepEntry>) -> Map<Name, Witness>
    decreases es.len(),
{
    if es.len() == 0 {
        Map::empty()
    } else {
        entries_map(es.drop_last()).insert(es.last().name@, es.last().dep@)
    }
}

/// No two entries share a name.
spec fn distinct_entries(es: Seq<DepEntry>) -> bool {
    forall|i: int, j: int|
        0 <= i < es.len() && 0 <= j < es.len() && (#[trigger] es[i]).name@ == (#[trigger] es[j]).name@
            ==> i == j
}

/// No entry holds an indirect witness without a hop.
spec fn paths_nonempty(es: Seq<DepEntry>) -> bool {
    forall|i: int|
        0 <= i < es.len() ==> match (#[trigger] es[i]).dep {
            Dep::Direct => true,
            Dep::Indirect(path) => path@.len() > 0,
        }
}

/// The entries record a dependency on `k` where one of them bears that name.
proof fn lemma_entries_dom(es: Seq<DepEntry>, k: Name)
    ensures
        entries_map(es).dom().contains(k) <==> exists|i: int|
            0 <= i < es.len() && (#[trigger] es[i]).name@ == k,
    decreases es.len(),
{
    if es.len() > 0 {
        lemma_entries_dom(es.drop_last(), k);
        if entries_map(es).dom().contains(k) {
            if es.last().name@ == k {
                assert(es[es.len() - 1].name@ == k);
            } else {
                let i = choose|i: int| 0 <= i < es.len() - 1 && (#[trigger] es.drop_last()[i]).name@ == k;
                assert(es[i].name@ == k);
            }
        }
        if exists|i: int| 0 <= i < es.len() && (#[trigger] es[i]).name@ == k {
            let i = choose|i: int| 0 <= i < es.len() && (#[trigger] es[i]).name@ == k;
            if i < es.len() - 1 {
                assert(es.drop_last()[i].name@ == k);
            }
        }
    }
}

/// Where no two entries share a name, each entry is what the entries record
/// for its name.
proof fn lemma_entries_lookup(es: Seq<DepEntry>, i: int)
    requires
        distinct_entries(es),
        0 <= i < es.len(),
    ensures
        entries_map(es).dom().contains(es[i].name@),
        entries_map(es)[es[i].name@] == es[i].dep@,
    decreases es.len(),
{
    if i < es.len() - 1 {
        assert(es.drop_last()[i] == es[i]);
        assert(distinct_entries(es.drop_last())) by {
            assert forall|a: int, b: int|
                0 <= a < es.len() - 1 && 0 <= b < es.len() - 1 && (#[trigger] es.drop_last()[a]).name@ == (
                #[trigger] es.drop_last()[b]).name@ implies a == b by {
                assert(es[a].name@ == es[b].name@);
            }
        }
        lemma_entries_lookup(es.drop_last(), i);
        assert(es[es.len() - 1].name@ != es[i].name@);
    }
}

/// Replacing an entry by one of the same name replaces what the entries
/// record for that name.
proof fn lemma_entries_update(es: Seq<DepEntry>, k: int, e: DepEntry)
    requires
        distinct_entries(es),
        0 <= k < es.len(),
        e.name@ == es[k].name@,
    ensures
        entries_map(es.update(k, e)) == entries_map(es).insert(e.name@, e.dep@),
        distinct_entries(es.update(k, e)),
    decreases es.len(),
{
    let after = es.update(k, e);
    assert(distinct_entries(after)) by {
        assert forall|a: int, b: int|
            0 <= a < after.len() && 0 <= b < after.len() && (#[trigger] after[a]).name@ == (
            #[trigger] after[b]).name@ implies a == b by {
            assert(es[a].name@ == es[b].name@);
        }
    }
    if k == es.len() - 1 {
        assert(after.drop_last() =~= es.drop_last());
        assert(entries_map(after) =~= entries_map(es).insert(e.name@, e.dep@));
    } else {
        assert(after.drop_last() =~= es.drop_last().update(k, e));
        assert(distinct_entries(es.drop_last())) by {
            assert forall|a: int, b: int|
                0 <= a < es.len() - 1 && 0 <= b < es.len() - 1 && (#[trigger] es.drop_last()[a]).name@
                    == (#[trigger] es.drop_last()[b]).name@ implies a == b by {
                assert(es[a].name@ == es[b].name@);
            }
        }
        lemma_entries_update(es.drop_last(), k, e);
        assert(es[es.len() - 1].name@ != es[k].name@);
        assert(entries_map(after) =~= entries_map(es).insert(e.name@, e.dep@));
    }
}

/// The names of the entries, in their order.
spec fn entry_names(es: Seq<DepEntry>) -> Seq<Name> {
    es.map_values(|e: DepEntry| e.name@)
}

/// Where no two entries share a name, the entries record as many
/// dependencies as there are entries.
proof fn lemma_entries_len(es: Seq<DepEntry>)
    requires
        distinct_entries(es),
    ensures
        entries_map(es).dom().finite(),
        entries_map(es).dom().len() == es.len(),
{
    let names = entry_names(es);
    assert(names.no_duplicates()) by {
        assert forall|a: int, b: int| 0 <= a < names.len() && 0 <= b < names.len() && a != b implies names[a]
            != names[b] by {
            assert(es[a].name@ == names[a] && es[b].name@ == names[b]);
        }
    }
    assert forall|k: Name| names.to_set().contains(k) <==> entries_map(es).dom().contains(k) by {
        lemma_entries_dom(es, k);
        if names.to_set().contains(k) {
            let a = choose|a: int| 0 <= a < names.len() && names[a] == k;
            assert(es[a].name@ == k);
        }
        if entries_map(es).dom().contains(k) {
            let a = choose|a: int| 0 <= a < es.len() && (#[trigger] es[a]).name@ == k;
            assert(names[a] == k);
        }
    }
    assert(names.to_set() =~= entries_map(es).dom());
    names.unique_seq_to_set();
    vstd::seq_lib::seq_to_set_is_finite(names);
}

/// What is known of one package while the graph is built.
#[derive(Debug)]
pub struct PackageDeps {
    name: String,
    work: Vec<String>,
    deps: Vec<DepEntry>,
}

impl View for PackageDeps {
    type V = NodeState;

    closed spec fn view(&self) -> NodeState {
        NodeState { name: self.name@, work: texts_of(self.work@), deps: entries_map(self.deps@) }
    }
}

impl PackageDeps {
    /// Every dependency is recorded once, and every indirect witness has a hop.
    pub closed spec fn wf(&self) -> bool {
        &&& distinct_entries(self.deps@)
        &&& paths_nonempty(self.deps@)
    }

    /// The name of the package.
    pub fn name(&self) -> (r: &String)
        ensures
            r@ == self@.name,
    {
        &self.name
    }

    /// How many packages the package depends on.
    pub fn len(&self) -> (n: usize)
        requires
            self.wf(),
        ensures
            self@.deps.dom().finite(),
            n == self@.deps.dom().len(),
    {
        proof {
            lemma_entries_len(self.deps@);
        }
        self.deps.len()
    }

    /// How many neighbours still wait for their dependencies to be taken
    /// over.
    pub fn pending(&self) -> (n: usize)
        ensures
            n == self@.work.len(),
    {
        self.work.len()
    }

    /// The witness for `name`, if the package depends on it.
    pub fn dep(&self, name: &str) -> (r: Option<&Dep>)
        requires
            self.wf(),
        ensures
            match r {
                Some(dep) => self@.deps.dom().contains(name@) && dep@ == self@.deps[name@] && (dep@
                    is Indirect ==> dep@.hops().len() > 0),
                None => !self@.deps.dom().contains(name@),
            },
    {
        match self.find(&name.to_owned()) {
            Some(i) => {
                proof {
                    lemma_entries_lookup(self.deps@, i as int);
                }
                Some(&self.deps[i].dep)
            },
            None => None,
        }
    }

    /// The place of the entry for `name`, if the package depends on it.
    fn find(&self, name: &String) -> (r: Option<usize>)
        ensures
            match r {
                Some(i) => i < self.deps@.len() && self.deps@[i as int].name@ == name@,
                None => !self@.deps.dom().contains(name@),
            },
    {
        let n = self.deps.len();
        for i in 0..n
            invariant
                n == self.deps@.len(),
                forall|j: int| 0 <= j < i ==> (#[trigger] self.deps@[j]).name@ != name@,
        {
            if self.deps[i].name == *name {
                return Some(i);
            }
        }
        proof {
            lemma_entries_dom(self.deps@, name@);
        }
        None
    }
}

/// For every package of a lockfile, its dependencies.
#[derive(Debug)]
pub struct DepGraph {
    nodes: Vec<PackageDeps>,
}

impl View for DepGraph {
    type V = GraphState;

    closed spec fn view(&self) -> GraphState {
        self.nodes@.map_values(|n: PackageDeps| n@)
    }
}

impl DepGraph {
    /// No two packages share a name, and each package is well formed.
    pub closed spec fn wf(&self) -> bool {
        &&& distinct_names(self@)
        &&& forall|i: int| 0 <= i < self.nodes@.len() ==> (#[trigger] self.nodes@[i]).wf()
    }

    /// A graph without packages.
    pub fn new() -> (r: DepGraph)
        ensures
            r.wf(),
            r@ == Seq::<NodeState>::empty(),
    {
        let r = DepGraph { nodes: Vec::new() };
        assert(r@ =~= Seq::<NodeState>::empty());
        r
    }

    /// How many packages the graph has.
    pub fn len(&self) -> (n: usize)
        ensures
            n == self@.len(),
    {
        self.nodes.len()
    }

    /// The names of the packages, in the order in which the lockfile first
    /// names them.
    pub fn names(&self) -> (names: Vec<String>)
        ensures
            texts_of(names@) == self@.map_values(|n: NodeState| n.name),
    {
        let mut names: Vec<String> = Vec::new();
        let n = self.nodes.len();
        for k in 0..n
            invariant
                n == self.nodes@.len(),
                texts_of(names@) == self@.map_values(|n: NodeState| n.name).take(k as int),
        {
            let ghost before = names@;
            let name = self.nodes[k].name.clone();
            names.push(name);
            assert(texts_of(names@) =~= texts_of(before).push(name@));
            assert(texts_of(names@) =~= self@.map_values(|n: NodeState| n.name).take(k + 1));
        }
        assert(self@.map_values(|n: NodeState| n.name).take(n as int) =~= self@.map_values(
            |n: NodeState| n.name,
        ));
        names
    }

    /// What the graph knows of the package `name`, if it has it.
    pub fn get(&self, name: &str) -> (r: Option<&PackageDeps>)
        requires
            self.wf(),
        ensures
            match r {
                Some(package) => has_node(self@, name@) && package@ == self@[node_index(self@, name@)]
                    && package@.name == name@ && package.wf(),
                None => !has_node(self@, name@),
            },
    {
        match self.position(&name.to_owned()) {
            Some(i) => Some(&self.nodes[i]),
            None => None,
        }
    }

    /// The place of the package `name`, if the graph has it.
    fn position(&self, name: &String) -> (r: Option<usize>)
        requires
            self.wf(),
        ensures
            match r {
                Some(i) => has_node(self@, name@) && i == node_index(self@, name@) && i < self.nodes@.len(),
                None => !has_node(self@, name@),
            },
    {
        let n = self.nodes.len();
        for i in 0..n
            invariant
                self.wf(),
                n == self.nodes@.len(),
                forall|j: int| 0 <= j < i ==> (#[trigger] self@[j]).name != name@,
        {
            if self.nodes[i].name == *name {
                proof {
                    lemma_node_index(self@, i as int);
                }
                return Some(i);
            }
        }
        None
    }
}

impl DepGraph {
    /// The graph that holds the packages of a lockfile with the dependencies
    /// they declare, each of them still to be expanded.
    pub fn seed(cargo_lock: &CargoLock) -> (all: DepGraph)
        ensures
            all.wf(),
            all@ == seed(cargo_lock@),
    {
        let mut all = DepGraph::new();
        let packages = match &cargo_lock.package {
            Some(packages) => packages,
            None => {
                return all;
            },
        };
        let ghost specs = cargo_lock@;
        let n = packages.len();
        for k in 0..n
            invariant
                all.wf(),
                n == packages@.len(),
                specs == packages@.map_values(|p: Package| p@),
                all@ == seed(specs.take(k as int)),
        {
            let package = &packages[k];
            proof {
                assert(specs.take(k + 1).drop_last() =~= specs.take(k as int));
                assert(specs.take(k + 1).last() == package@);
            }
            let i = all.declare(&package.name);
            let ghost declared = all@;
            match &package.dependencies {
                Some(dependencies) => {
                    let m = dependencies.len();
                    let ghost names = texts_of(dependencies@);
                    assert(declared =~= declared.update(
                        i as int,
                        add_directs(declared[i as int], names.take(0)),
                    ));
                    for d in 0..m
                        invariant
                            all.wf(),
                            m == dependencies@.len(),
                            names == texts_of(dependencies@),
                            i < declared.len(),
                            i < all.nodes@.len(),
                            all@ == declared.update(
                                i as int,
                                add_directs(declared[i as int], names.take(d as int)),
                            ),
                    {
                        all.add_direct(i, &dependencies[d]);
                        proof {
                            assert(names.take(d + 1).drop_last() =~= names.take(d as int));
                            assert(all@ =~= declared.update(
                                i as int,
                                add_directs(declared[i as int], names.take(d + 1)),
                            ));
                        }
                    }
                    assert(names.take(m as int) =~= names);
                },
                None => {
                    assert(all@ =~= seed_package(seed(specs.take(k as int)), package@));
                },
            }
        }
        assert(specs.take(n as int) =~= specs);
        all
    }

    /// Makes sure that the graph has a package `name`, and gives its place.
    fn declare(&mut self, name: &String) -> (i: usize)
        requires
            old(self).wf(),
        ensures
            final(self).wf(),
            final(self)@ == declare(old(self)@, name@),
            i < final(self).nodes@.len(),
            i == node_index(final(self)@, name@),
            final(self)@[i as int].name == name@,
    {
        match self.position(name) {
            Some(i) => i,
            None => {
                let i = self.nodes.len();
                let node = PackageDeps { name: name.clone(), work: Vec::new(), deps: Vec::new() };
                assert(node@.work =~= Seq::<Name>::empty());
                self.nodes.push(node);
                assert(self@ =~= declare(old(self)@, name@));
                proof {
                    assert forall|a: int, b: int|
                        0 <= a < self@.len() && 0 <= b < self@.len() && (#[trigger] self@[a]).name == (
                        #[trigger] self@[b]).name implies a == b by {
                        if a < i {
                            assert(old(self)@[a].name == self@[a].name);
                        }
                        if b < i {
                            assert(old(self)@[b].name == self@[b].name);
                        }
                    }
                    lemma_node_index(self@, i as int);
                }
                i
            },
        }
    }

    /// Records that package `i` declares `dep`.
    fn add_direct(&mut self, i: usize, dep: &String)
        requires
            old(self).wf(),
            i < old(self).nodes@.len(),
        ensures
            final(self).wf(),
            final(self)@ == old(self)@.update(i as int, add_direct(old(self)@[i as int], dep@)),
    {
        let ghost entries = self.nodes@[i as int].deps@;
        let ghost work = self.nodes@[i as int].work@;
        match self.nodes[i].find(dep) {
            Some(k) => {
                self.nodes[i].deps[k].dep = Dep::Direct;
                proof {
                    lemma_entries_update(entries, k as int, self.nodes@[i as int].deps@[k as int]);
                    assert(self.nodes@[i as int].deps@ =~= entries.update(
                        k as int,
                        self.nodes@[i as int].deps@[k as int],
                    ));
                }
            },
            None => {
                let entry = DepEntry { name: dep.clone(), dep: Dep::Direct };
                self.nodes[i].deps.push(entry);
                proof {
                    assert(entries.push(entry).drop_last() =~= entries);
                    lemma_entries_dom(entries, dep@);
                }
            },
        }
        self.nodes[i].work.push(dep.clone());
        proof {
            assert(texts_of(self.nodes@[i as int].work@) =~= texts_of(work).push(dep@));
            assert(self@ =~= old(self)@.update(i as int, add_direct(old(self)@[i as int], dep@)));
        }
    }

    /// Package `i` takes over the dependencies of package `j`: each one that it
    /// lacks is added, with a witness path through `j`.
    fn absorb(&mut self, i: usize, j: usize)
        requires
            old(self).wf(),
            i < old(self).nodes@.len(),
            j < old(self).nodes@.len(),
        ensures
            final(self).wf(),
            final(self)@ == absorb(old(self)@, i as int, j as int),
    {
        let mut additions: Vec<DepEntry> = Vec::new();
        let n = self.nodes[j].deps.len();
        let ghost mine = self.nodes@[i as int].deps@;
        let ghost theirs = self.nodes@[j as int].deps@;
        let ghost hop = self.nodes@[j as int].name@;
        assert(mine + additions@ =~= mine);
        assert(entries_map(mine) =~= merged(entries_map(mine), hop, entries_map(theirs.take(0))));
        for k in 0..n
            invariant
                self.wf(),
                *self == *old(self),
                i < self.nodes@.len(),
                j < self.nodes@.len(),
                n == theirs.len(),
                mine == self.nodes@[i as int].deps@,
                theirs == self.nodes@[j as int].deps@,
                hop == self.nodes@[j as int].name@,
                distinct_entries(mine + additions@),
                paths_nonempty(mine + additions@),
                entries_map(mine + additions@) == merged(
                    entries_map(mine),
                    hop,
                    entries_map(theirs.take(k as int)),
                ),
                forall|a: int|
                    0 <= a < additions@.len() ==> exists|b: int|
                        0 <= b < k && (#[trigger] theirs[b]).name@ == (#[trigger] additions@[a]).name@,
        {
            let entry = &self.nodes[j].deps[k];
            let ghost before = mine + additions@;
            assert(theirs.take(k + 1).drop_last() =~= theirs.take(k as int));
            if self.nodes[i].find(&entry.name).is_none() {
                let path = path_through(&self.nodes[j].name, &entry.dep);
                let added = DepEntry { name: entry.name.clone(), dep: Dep::Indirect(path) };
                additions.push(added);
                proof {
                    assert(mine + additions@ =~= before.push(added));
                    assert(before.push(added).drop_last() =~= before);
                    lemma_entries_dom(mine, entry.name@);
                    assert(entries_map(mine + additions@) =~= merged(
                        entries_map(mine),
                        hop,
                        entries_map(theirs.take(k + 1)),
                    ));
                    assert forall|a: int|
                        0 <= a < additions@.len() implies exists|b: int|
                        0 <= b < k + 1 && (#[trigger] theirs[b]).name@ == (
                        #[trigger] additions@[a]).name@ by {
                        if a == additions@.len() - 1 {
                            assert(theirs[k as int].name@ == additions@[a].name@);
                        } else {
                            let b = choose|b: int|
                                0 <= b < k && (#[trigger] theirs[b]).name@ == before[mine.len() + a].name@;
                            assert(theirs[b].name@ == additions@[a].name@);
                        }
                    }
                    assert(distinct_entries(mine + additions@)) by {
                        let now = mine + additions@;
                        assert forall|a: int, b: int|
                            0 <= a < now.len() && 0 <= b < now.len() && (#[trigger] now[a]).name@ == (
                            #[trigger] now[b]).name@ implies a == b by {
                            assert(before =~= mine + additions@.drop_last());
                            if a < before.len() && b < before.len() {
                                assert(before[a].name@ == before[b].name@);
                            } else if a < before.len() {
                                lemma_fresh_name(mine, additions@.drop_last(), theirs, k as int, a);
                            } else if b < before.len() {
                                lemma_fresh_name(mine, additions@.drop_last(), theirs, k as int, b);
                            }
                        }
                    }
                }
            } else {
                proof {
                    lemma_entries_dom(mine, entry.name@);
                    assert(entries_map(mine + additions@) =~= merged(
                        entries_map(mine),
                        hop,
                        entries_map(theirs.take(k + 1)),
                    ));
                }
            }
        }
        assert(theirs.take(n as int) =~= theirs);
        let ghost grown = mine + additions@;
        self.nodes[i].deps.append(&mut additions);
        assert(self.nodes@[i as int].deps@ == grown);
        assert(self@ =~= absorb(old(self)@, i as int, j as int));
    }
}

/// The witness path of a dependency that is reached through `via`, which holds
/// `dep` as its own witness for it.
fn path_through(via: &String, dep: &Dep) -> (path: Vec<String>)
    ensures
        texts_of(path@) == seq![via@] + dep@.hops(),
        path@.len() > 0,
{
    let mut path: Vec<String> = Vec::new();
    path.push(via.clone());
    assert(texts_of(path@) =~= seq![via@]);
    match dep {
        Dep::Direct => {
            assert(texts_of(path@) =~= seq![via@] + dep@.hops());
        },
        Dep::Indirect(rest) => {
            let n = rest.len();
            for k in 0..n
                invariant
                    n == rest@.len(),
                    path@.len() == k + 1,
                    texts_of(path@) == seq![via@] + texts_of(rest@).take(k as int),
            {
                let ghost before = path@;
                let hop = rest[k].clone();
                path.push(hop);
                assert(hop@ == rest@[k as int]@);
                assert(texts_of(path@) =~= texts_of(before).push(hop@));
                assert(texts_of(rest@).take(k + 1) =~= texts_of(rest@).take(k as int).push(hop@));
                assert(texts_of(path@) =~= seq![via@] + texts_of(rest@).take(k + 1));
            }
            assert(texts_of(rest@).take(n as int) =~= texts_of(rest@));
        },
    }
    path
}

/// Builds the dependency graph of a lockfile: every package of it, with what
/// it depends on directly or through others. A lockfile without a package
/// list counts as one without packages, a package without a dependency list
/// as one without dependencies.
pub fn build_dep_graph(cargo_lock: &CargoLock) -> (all: DepGraph)
    ensures
        all.wf(),
        all@ == closure_graph(cargo_lock@),
{
    let mut all = DepGraph::seed(cargo_lock);
    let packages = match &cargo_lock.package {
        Some(packages) => packages,
        None => {
            return all;
        },
    };
    let ghost specs = cargo_lock@;
    let n = packages.len();
    for k in 0..n
        invariant
            all.wf(),
            n == packages@.len(),
            specs == packages@.map_values(|p: Package| p@),
            all@ == expand_each(seed(specs), specs.take(k as int)),
    {
        proof {
            assert(specs.take(k + 1).drop_last() =~= specs.take(k as int));
            assert(specs.take(k + 1).last() == packages@[k as int]@);
        }
        fill_transitive(&mut all, packages[k].name.as_str());
    }
    assert(specs.take(n as int) =~= specs);
    all
}

/// Empties the work list of the package `key`: each neighbour on it is
/// expanded first, and `key` then takes over what the neighbour depends on.
/// A name that the graph does not have is left alone.
pub fn fill_transitive(all: &mut DepGraph, key: &str)
    requires
        old(all).wf(),
    ensures
        final(all).wf(),
        final(all)@ == expand(old(all)@, key@),
        same_names(old(all)@, final(all)@),
        pending(final(all)@) <= pending(old(all)@),
    decreases pending(old(all)@),
{
    let i = match all.position(&key.to_owned()) {
        Some(i) => i,
        None => {
            return ;
        },
    };
    while all.nodes[i].work.len() > 0
        invariant
            all.wf(),
            i < all.nodes@.len(),
            all@[i as int].name == key@,
            same_names(old(all)@, all@),
            expand(all@, key@) == expand(old(all)@, key@),
            pending(all@) <= pending(old(all)@),
        decreases pending(all@),
    {
        let ghost start = all@;
        proof {
            lemma_node_index(start, i as int);
        }
        let hop = all.nodes[i].work.pop();
        let hop = match hop {
            Some(hop) => hop,
            None => {
                return ;
            },
        };
        proof {
            assert(all@[i as int].work =~= start[i as int].work.drop_last());
            assert(all@ =~= pop_work(start, i as int));
            lemma_pending_update(start, i as int, all@[i as int]);
            assert(same_names(start, all@));
        }
        let ghost popped = all@;
        fill_transitive(all, hop.as_str());
        let ghost inner = all@;
        assert(same_names(start, inner)) by {
            assert forall|k: int| 0 <= k < start.len() implies (#[trigger] start[k]).name
                == inner[k].name by {
                assert(popped[k].name == inner[k].name);
            }
        }
        match all.position(&hop) {
            Some(j) => {
                all.absorb(i, j);
            },
            None => {},
        }
        proof {
            assert(all@ == absorb_named(inner, i as int, hop@));
            lemma_pending_update(inner, i as int, all@[i as int]);
            assert(same_names(inner, all@));
            lemma_node_index(all@, i as int);
        }
    }
}

/// The deny rules of a project.
#[derive(Debug, Clone, PartialEq, Eq)]
pub struct Lints {
    pub deny: Option<Vec<Deny>>,
}

/// One deny rule: the package `name` must not depend on any of
/// `dependencies`, neither directly nor through others.
#[derive(Debug, Clone, PartialEq, Eq)]
pub struct Deny {
    pub name: String,
    pub dependencies: Option<Vec<String>>,
}

impl View for Deny {
    type V = RuleSpec;

    open spec fn view(&self) -> RuleSpec {
        RuleSpec {
            name: self.name@,
            dependencies: match self.dependencies {
                Some(ds) => texts_of(ds@),
                None => Seq::empty(),
            },
        }
    }
}

impl View for Lints {
    type V = Seq<RuleSpec>;

    open spec fn view(&self) -> Seq<RuleSpec> {
        match self.deny {
            Some(rs) => rs@.map_values(|r: Deny| r@),
            None => Seq::empty(),
        }
    }
}

/// A broken rule: `origin` depends on `forbidden` through `path`, which is
/// empty where the dependency is direct.
#[derive(Debug, Clone, PartialEq, Eq)]
pub struct Violation {
    pub origin: String,
    pub forbidden: String,
    pub path: Vec<String>,
}

impl View for Violation {
    type V = ViolationSpec;

    open spec fn view(&self) -> ViolationSpec {
        ViolationSpec { origin: self.origin@, forbidden: self.forbidden@, path: texts_of(self.path@) }
    }
}

/// The violations that a vector holds.
pub open spec fn violations_of(v: Seq<Violation>) -> Seq<ViolationSpec> {
    v.map_values(|x: Violation| x@)
}

impl Violation {
    /// The line that reports the violation: the origin, each hop of the path
    /// and the forbidden package, joined by arrows.
    pub fn message(&self) -> (line: String)
        ensures
            line@ == violation_line(self@),
    {
        let mut line = String::from_str("deny: ");
        line.append(self.origin.as_str());
        let n = self.path.len();
        let ghost path = texts_of(self.path@);
        for k in 0..n
            invariant
                n == self.path@.len(),
                path == texts_of(self.path@),
                line@ == "deny: "@ + self.origin@ + arrows(path.take(k as int)),
        {
            let ghost before = line@;
            line.append(" -> ");
            line.append(self.path[k].as_str());
            proof {
                assert(path.take(k + 1).drop_last() =~= path.take(k as int));
                assert(line@ =~= "deny: "@ + self.origin@ + arrows(path.take(k + 1)));
            }
        }
        assert(path.take(n as int) =~= path);
        line.append(" -> ");
        line.append(self.forbidden.as_str());
        line
    }
}

/// Why the rules could not be evaluated.
#[derive(Debug, Clone, PartialEq, Eq)]
pub enum LookupError {
    /// A rule names a package that the graph does not have.
    UnknownPackage(String),
}

impl LookupError {
    /// The name that was not found.
    pub open spec fn name(&self) -> Name {
        match self {
            LookupError::UnknownPackage(name) => name@,
        }
    }

    /// The line that reports the error.
    pub fn message(&self) -> (line: String)
        ensures
            line@ == unknown_line(self.name()),
    {
        let mut line = String::from_str("unknown crate in lints: ");
        match self {
            LookupError::UnknownPackage(name) => {
                line.append(name.as_str());
            },
        }
        line
    }
}

/// The outcome that a result of an evaluation stands for.
pub open spec fn outcome_of(r: Result<Vec<Violation>, LookupError>) -> Result<
    Seq<ViolationSpec>,
    Name,
> {
    match r {
        Ok(vs) => Ok(violations_of(vs@)),
        Err(e) => Err(e.name()),
    }
}

/// The lines that a result holds.
pub open spec fn lines_of(r: Result<Vec<String>, String>) -> Result<Seq<Seq<char>>, Seq<char>> {
    match r {
        Ok(lines) => Ok(texts_of(lines@)),
        Err(line) => Err(line@),
    }
}

/// A copy of the names.
fn clone_names(names: &Vec<String>) -> (copy: Vec<String>)
    ensures
        texts_of(copy@) == texts_of(names@),
{
    let mut copy: Vec<String> = Vec::new();
    let n = names.len();
    for k in 0..n
        invariant
            n == names@.len(),
            texts_of(copy@) == texts_of(names@).take(k as int),
    {
        let ghost before = copy@;
        let name = names[k].clone();
        copy.push(name);
        assert(texts_of(copy@) =~= texts_of(before).push(name@));
        assert(texts_of(copy@) =~= texts_of(names@).take(k + 1));
    }
    assert(texts_of(names@).take(n as int) =~= texts_of(names@));
    copy
}

/// Evaluates the deny rules on a dependency graph. Every name in the rules
/// is looked up, in the order of the rules; the first one that the graph does
/// not have ends the evaluation with an error. Else the result holds one
/// violation for each forbidden name that the rule's package depends on, in
/// the order of the rules.
pub fn evaluate(graph: &DepGraph, lints: &Lints) -> (r: Result<Vec<Violation>, LookupError>)
    requires
        graph.wf(),
    ensures
        outcome_of(r) == lint_outcome(graph@, lints@),
{
    let mut broken: Vec<Violation> = Vec::new();
    assert(violations_of(broken@) =~= Seq::<ViolationSpec>::empty());
    let rules = match &lints.deny {
        Some(rules) => rules,
        None => {
            return Ok(broken);
        },
    };
    let ghost rs = lints@;
    let n = rules.len();
    for k in 0..n
        invariant
            graph.wf(),
            n == rules@.len(),
            rs == lints@,
            rs == rules@.map_values(|r: Deny| r@),
            first_unknown(graph@, names_checked(rs.take(k as int))) is None,
            violations_of(broken@) == violations(graph@, rs.take(k as int)),
    {
        let rule = &rules[k];
        proof {
            assert(rs.take(k + 1).drop_last() =~= rs.take(k as int));
            assert(rs[k as int] == rule@);
            assert(names_before(rs, k as int, 0) =~= names_checked(rs.take(k as int)).push(rule@.name));
            assert(names_before(rs, k as int, 0).drop_last() =~= names_checked(rs.take(k as int)));
        }
        let package = match graph.get(rule.name.as_str()) {
            Some(package) => package,
            None => {
                let missing = rule.name.clone();
                proof {
                    lemma_stops_at(graph@, rs, k as int, 0);
                    assert(rule_names(rs[k as int])[0] == missing@);
                }
                return Err(LookupError::UnknownPackage(missing));
            },
        };
        let ghost closure = closure_of(graph@, rule@.name);
        let ghost earlier = violations(graph@, rs.take(k as int));
        let ghost forbidden = rule@.dependencies;
        let none: Vec<String> = Vec::new();
        let dependencies = match &rule.dependencies {
            Some(dependencies) => dependencies,
            None => &none,
        };
        let m = dependencies.len();
        assert(forbidden =~= texts_of(dependencies@));
        assert(violations_of(broken@) =~= earlier + found(closure, rule@.name, forbidden.take(0)));
        for d in 0..m
            invariant
                graph.wf(),
                package.wf(),
                package@.deps == closure,
                0 <= k < rs.len(),
                rs == lints@,
                rs[k as int] == rule@,
                forbidden == rule@.dependencies,
                forbidden == texts_of(dependencies@),
                m == dependencies@.len(),
                first_unknown(graph@, names_before(rs, k as int, d as int)) is None,
                violations_of(broken@) == earlier + found(closure, rule@.name, forbidden.take(d as int)),
        {
            let name = &dependencies[d];
            proof {
                assert(name@ == forbidden[d as int]);
                assert(names_before(rs, k as int, d + 1) =~= names_before(rs, k as int, d as int).push(
                    name@,
                ));
                assert(names_before(rs, k as int, d + 1).drop_last() =~= names_before(
                    rs,
                    k as int,
                    d as int,
                ));
                assert(forbidden.take(d + 1).drop_last() =~= forbidden.take(d as int));
            }
            if graph.get(name.as_str()).is_none() {
                let missing = name.clone();
                proof {
                    lemma_stops_at(graph@, rs, k as int, d + 1);
                    assert(rule_names(rs[k as int])[d + 1] == missing@);
                }
                return Err(LookupError::UnknownPackage(missing));
            }
            match package.dep(name.as_str()) {
                Some(dep) => {
                    let path = match dep {
                        Dep::Direct => Vec::new(),
                        Dep::Indirect(hops) => clone_names(hops),
                    };
                    assert(texts_of(path@) =~= closure[name@].hops());
                    let violation = Violation {
                        origin: rule.name.clone(),
                        forbidden: name.clone(),
                        path,
                    };
                    let ghost before = broken@;
                    broken.push(violation);
                    assert(violations_of(broken@) =~= violations_of(before).push(violation@));
                    assert(violations_of(broken@) =~= earlier + found(
                        closure,
                        rule@.name,
                        forbidden.take(d + 1),
                    ));
                },
                None => {},
            }
        }
        proof {
            assert(forbidden.take(m as int) =~= forbidden);
            assert(rule_names(rule@).take(m + 1) =~= rule_names(rule@));
        }
    }
    assert(rs.take(n as int) =~= rs);
    Ok(broken)
}

/// Where a name that the graph does not have is looked up after names that
/// it has, the rules end with that name as their error.
proof fn lemma_stops_at(s: GraphState, rs: Seq<RuleSpec>, k: int, d: int)
    requires
        0 <= k < rs.len(),
        0 <= d <= rs[k].dependencies.len(),
        first_unknown(s, names_before(rs, k, d).drop_last()) is None,
        !has_node(s, names_before(rs, k, d).last()),
    ensures
        lint_outcome(s, rs) == Err::<Seq<ViolationSpec>, Name>(rule_names(rs[k])[d]),
{
    lemma_names_before(rs, k, d);
    let more = choose|more: Seq<Name>| names_checked(rs) == names_before(rs, k, d) + more;
    lemma_first_unknown_prefix(s, names_before(rs, k, d), more);
}

/// Checks a lockfile against deny rules. Gives one line for each violation,
/// in the order of the rules, or the line that reports the first name in the
/// rules that is no package of the lockfile.
pub fn run_lints(cargo_lock: &CargoLock, lints: &Lints) -> (r: Result<Vec<String>, String>)
    ensures
        lines_of(r) == lint_lines(closure_graph(cargo_lock@), lints@),
{
    let all_deps = build_dep_graph(cargo_lock);
    match evaluate(&all_deps, lints) {
        Ok(broken) => {
            let mut lines: Vec<String> = Vec::new();
            let n = broken.len();
            let ghost specs = violations_of(broken@);
            for k in 0..n
                invariant
                    n == broken@.len(),
                    specs == violations_of(broken@),
                    texts_of(lines@) == specs.take(k as int).map_values(
                        |v: ViolationSpec| violation_line(v),
                    ),
            {
                let ghost before = lines@;
                let line = broken[k].message();
                lines.push(line);
                assert(texts_of(lines@) =~= texts_of(before).push(line@));
                assert(texts_of(lines@) =~= specs.take(k + 1).map_values(
                    |v: ViolationSpec| violation_line(v),
                ));
            }
            assert(specs.take(n as int) =~= specs);
            Ok(lines)
        },
        Err(e) => Err(e.message()),
    }
}

/// An entry of `mine` or of `fresh` does not bear the name of `theirs[k]`,
/// where `mine` lacks that name and each entry of `fresh` bears the name of an
/// earlier entry of `theirs`.
proof fn lemma_fresh_name(
    mine: Seq<DepEntry>,
    fresh: Seq<DepEntry>,
    theirs: Seq<DepEntry>,
    k: int,
    a: int,
)
    requires
        distinct_entries(theirs),
        0 <= k < theirs.len(),
        !entries_map(mine).dom().contains(theirs[k].name@),
        forall|a: int|
            0 <= a < fresh.len() ==> exists|b: int|
                0 <= b < k && (#[trigger] theirs[b]).name@ == (#[trigger] fresh[a]).name@,
        0 <= a < mine.len() + fresh.len(),
    ensures
        (mine + fresh)[a].name@ != theirs[k].name@,
{
    if a < mine.len() {
        lemma_entries_dom(mine, theirs[k].name@);
        assert(mine[a].name@ != theirs[k].name@);
    } else {
        let b = choose|b: int|
            0 <= b < k && (#[trigger] theirs[b]).name@ == (#[trigger] fresh[a - mine.len()]).name@;
        assert(theirs[b].name@ != theirs[k].name@);
    }
}

} // verus!
