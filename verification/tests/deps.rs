use cargo_deplint::{
    build_dep_graph, evaluate, fill_transitive, run_lints, CargoLock, Deny, Dep, DepGraph, Lints,
    LookupError, Package, Violation,
};

fn names(xs: &[&str]) -> Vec<String> {
    xs.iter().map(|x| x.to_string()).collect()
}

fn package(name: &str, dependencies: &[&str]) -> Package {
    Package {
        name: name.to_string(),
        dependencies: Some(names(dependencies)),
    }
}

fn lock(packages: Vec<Package>) -> CargoLock {
    CargoLock {
        package: Some(packages),
    }
}

fn deny(name: &str, dependencies: &[&str]) -> Deny {
    Deny {
        name: name.to_string(),
        dependencies: Some(names(dependencies)),
    }
}

fn lints(rules: Vec<Deny>) -> Lints {
    Lints { deny: Some(rules) }
}

fn report(cargo_lock: &CargoLock, lints: &Lints) -> String {
    let res = run_lints(cargo_lock, lints);
    match res {
        Ok(violations) if violations.is_empty() => "ok\n".into(),
        Ok(violations) => violations.into_iter().map(|x| format!("{}\n", x)).collect(),
        Err(err) => format!("error: {}\n", err),
    }
}

fn witness(graph: &DepGraph, origin: &str, dependency: &str) -> Option<Dep> {
    graph.get(origin).and_then(|p| p.dep(dependency)).cloned()
}

fn small_lock() -> CargoLock {
    lock(vec![
        package("app", &["libA", "libB"]),
        package("libA", &["libC"]),
        package("libB", &[]),
        package("libC", &[]),
    ])
}

#[test]
fn deps() {
    let cargo_lock = small_lock();
    assert_eq!(report(&cargo_lock, &lints(vec![])), "ok\n");
    assert_eq!(
        report(&cargo_lock, &lints(vec![deny("app", &["libC"])])),
        "deny: app -> libA -> libC\n"
    );
    assert_eq!(
        report(&cargo_lock, &lints(vec![deny("app", &["libB"])])),
        "deny: app -> libB\n"
    );
    assert_eq!(
        report(&cargo_lock, &lints(vec![deny("app", &["libD"])])),
        "error: unknown crate in lints: libD\n"
    );
    assert_eq!(
        report(&cargo_lock, &lints(vec![deny("libB", &["libA", "libC"])])),
        "ok\n"
    );
    assert_eq!(
        report(
            &cargo_lock,
            &lints(vec![deny("libA", &["libC"]), deny("app", &["libC", "libA"])])
        ),
        "deny: libA -> libC\ndeny: app -> libA -> libC\ndeny: app -> libA\n"
    );
}

#[test]
fn direct_dependency_is_reported_without_a_path() {
    let graph = build_dep_graph(&small_lock());
    assert_eq!(witness(&graph, "app", "libA"), Some(Dep::Direct));
    assert_eq!(witness(&graph, "app", "libB"), Some(Dep::Direct));
    assert_eq!(witness(&graph, "libA", "libC"), Some(Dep::Direct));
    let found = evaluate(&graph, &lints(vec![deny("libA", &["libC"])]));
    assert_eq!(
        found,
        Ok(vec![Violation {
            origin: "libA".to_string(),
            forbidden: "libC".to_string(),
            path: vec![],
        }])
    );
    assert_eq!(found.unwrap()[0].message(), "deny: libA -> libC");
}

#[test]
fn dependency_of_a_dependency_is_reported_with_its_path() {
    let graph = build_dep_graph(&small_lock());
    assert_eq!(
        witness(&graph, "app", "libC"),
        Some(Dep::Indirect(names(&["libA"])))
    );
    let found = evaluate(&graph, &lints(vec![deny("app", &["libC"])])).unwrap();
    assert_eq!(found.len(), 1);
    assert_eq!(found[0].path, names(&["libA"]));
    assert!(found[0].path.contains(&"libA".to_string()));
}

#[test]
fn long_chain_keeps_every_hop() {
    let cargo_lock = lock(vec![
        package("a", &["b"]),
        package("b", &["c"]),
        package("c", &["d"]),
        package("d", &["e"]),
        package("e", &[]),
    ]);
    assert_eq!(
        run_lints(&cargo_lock, &lints(vec![deny("a", &["e", "d", "c", "b"])])),
        Ok(names(&[
            "deny: a -> b -> c -> d -> e",
            "deny: a -> b -> c -> d",
            "deny: a -> b -> c",
            "deny: a -> b",
        ]))
    );
}

#[test]
fn packages_may_come_in_any_order() {
    let cargo_lock = lock(vec![
        package("e", &[]),
        package("c", &["d"]),
        package("a", &["b"]),
        package("d", &["e"]),
        package("b", &["c"]),
    ]);
    assert_eq!(
        run_lints(&cargo_lock, &lints(vec![deny("a", &["e"]), deny("c", &["e", "a"])])),
        Ok(names(&["deny: a -> b -> c -> d -> e", "deny: c -> d -> e"]))
    );
}

#[test]
fn unrelated_package_is_not_reported() {
    let cargo_lock = small_lock();
    let graph = build_dep_graph(&cargo_lock);
    assert_eq!(witness(&graph, "libB", "libC"), None);
    assert_eq!(witness(&graph, "libC", "app"), None);
    assert_eq!(witness(&graph, "libA", "app"), None);
    assert_eq!(
        evaluate(&graph, &lints(vec![deny("libC", &["app", "libA", "libB"])])),
        Ok(vec![])
    );
}

#[test]
fn unknown_origin_stops_the_evaluation() {
    let cargo_lock = small_lock();
    let graph = build_dep_graph(&cargo_lock);
    let rules = lints(vec![deny("app", &["libA"]), deny("nope", &["libA"])]);
    assert_eq!(
        evaluate(&graph, &rules),
        Err(LookupError::UnknownPackage("nope".to_string()))
    );
    assert_eq!(
        run_lints(&cargo_lock, &rules),
        Err("unknown crate in lints: nope".to_string())
    );
}

#[test]
fn unknown_forbidden_name_stops_the_evaluation() {
    let cargo_lock = small_lock();
    let graph = build_dep_graph(&cargo_lock);
    let rules = lints(vec![deny("app", &["libA", "typo", "libB"])]);
    assert_eq!(
        evaluate(&graph, &rules),
        Err(LookupError::UnknownPackage("typo".to_string()))
    );
    assert_eq!(
        LookupError::UnknownPackage("typo".to_string()).message(),
        "unknown crate in lints: typo"
    );
}

#[test]
fn first_unknown_name_is_the_one_reported() {
    let cargo_lock = small_lock();
    let rules = lints(vec![
        deny("libB", &["libC"]),
        deny("app", &["libA", "second"]),
        deny("first", &["third"]),
    ]);
    assert_eq!(
        run_lints(&cargo_lock, &rules),
        Err("unknown crate in lints: second".to_string())
    );
    let rules = lints(vec![deny("first", &["second"]), deny("app", &["libA"])]);
    assert_eq!(
        run_lints(&cargo_lock, &rules),
        Err("unknown crate in lints: first".to_string())
    );
}

#[test]
fn declared_dependency_that_is_no_package_is_an_unknown_name() {
    let cargo_lock = lock(vec![package("app", &["ghost"])]);
    let graph = build_dep_graph(&cargo_lock);
    assert_eq!(witness(&graph, "app", "ghost"), Some(Dep::Direct));
    assert!(graph.get("ghost").is_none());
    assert_eq!(
        run_lints(&cargo_lock, &lints(vec![deny("app", &["ghost"])])),
        Err("unknown crate in lints: ghost".to_string())
    );
}

#[test]
fn same_input_gives_the_same_lines() {
    let cargo_lock = lock(vec![
        package("a", &["b", "c"]),
        package("b", &["d"]),
        package("c", &["d"]),
        package("d", &[]),
    ]);
    let rules = lints(vec![deny("a", &["d", "c"]), deny("b", &["d"])]);
    let once = run_lints(&cargo_lock, &rules);
    let twice = run_lints(&cargo_lock, &rules);
    assert_eq!(once, twice);
    assert_eq!(
        once,
        Ok(names(&["deny: a -> c -> d", "deny: a -> c", "deny: b -> d"]))
    );
    let first = build_dep_graph(&cargo_lock);
    let second = build_dep_graph(&cargo_lock);
    assert_eq!(evaluate(&first, &rules), evaluate(&second, &rules));
    assert_eq!(evaluate(&first, &rules), evaluate(&first, &rules));
}

#[test]
fn shared_dependency_is_recorded_once() {
    let cargo_lock = lock(vec![
        package("a", &["b", "c"]),
        package("b", &["d"]),
        package("c", &["d"]),
        package("d", &[]),
    ]);
    let graph = build_dep_graph(&cargo_lock);
    // The neighbour declared last is taken first, and what it found stays.
    assert_eq!(witness(&graph, "a", "d"), Some(Dep::Indirect(names(&["c"]))));
    let a = graph.get("a").unwrap();
    assert_eq!(a.len(), 3);
    assert_eq!(witness(&graph, "a", "b"), Some(Dep::Direct));
    assert_eq!(witness(&graph, "a", "c"), Some(Dep::Direct));
    assert_eq!(
        run_lints(&cargo_lock, &lints(vec![deny("a", &["d"])])),
        Ok(names(&["deny: a -> c -> d"]))
    );
}

#[test]
fn no_rules_no_violations() {
    let cargo_lock = small_lock();
    assert_eq!(run_lints(&cargo_lock, &Lints { deny: None }), Ok(vec![]));
    assert_eq!(run_lints(&cargo_lock, &lints(vec![])), Ok(vec![]));
    assert_eq!(
        run_lints(
            &cargo_lock,
            &lints(vec![Deny {
                name: "app".to_string(),
                dependencies: None,
            }])
        ),
        Ok(vec![])
    );
    assert_eq!(run_lints(&cargo_lock, &lints(vec![deny("app", &[])])), Ok(vec![]));
}

#[test]
fn rule_without_forbidden_names_still_needs_a_known_origin() {
    let cargo_lock = small_lock();
    assert_eq!(
        run_lints(
            &cargo_lock,
            &lints(vec![Deny {
                name: "nope".to_string(),
                dependencies: None,
            }])
        ),
        Err("unknown crate in lints: nope".to_string())
    );
}

#[test]
fn lockfile_without_packages() {
    let cargo_lock = CargoLock { package: None };
    let graph = build_dep_graph(&cargo_lock);
    assert_eq!(graph.len(), 0);
    assert_eq!(run_lints(&cargo_lock, &lints(vec![])), Ok(vec![]));
    assert_eq!(
        run_lints(&cargo_lock, &lints(vec![deny("app", &[])])),
        Err("unknown crate in lints: app".to_string())
    );
    assert_eq!(run_lints(&lock(vec![]), &Lints { deny: None }), Ok(vec![]));
}

#[test]
fn package_without_a_dependency_list() {
    let cargo_lock = lock(vec![
        Package {
            name: "app".to_string(),
            dependencies: None,
        },
        package("lib", &["app"]),
    ]);
    let graph = build_dep_graph(&cargo_lock);
    assert_eq!(graph.get("app").unwrap().len(), 0);
    assert_eq!(
        run_lints(&cargo_lock, &lints(vec![deny("app", &["lib"]), deny("lib", &["app"])])),
        Ok(names(&["deny: lib -> app"]))
    );
}

#[test]
fn package_listed_twice_declares_both_lists() {
    let cargo_lock = lock(vec![
        package("app", &["x"]),
        package("x", &[]),
        package("app", &["y"]),
        package("y", &["z"]),
        package("z", &[]),
    ]);
    let graph = build_dep_graph(&cargo_lock);
    assert_eq!(graph.len(), 4);
    assert_eq!(
        run_lints(&cargo_lock, &lints(vec![deny("app", &["x", "y", "z"])])),
        Ok(names(&["deny: app -> x", "deny: app -> y", "deny: app -> y -> z"]))
    );
}

#[test]
fn dependency_declared_twice_is_recorded_once() {
    let cargo_lock = lock(vec![package("app", &["x", "x"]), package("x", &["y"]), package("y", &[])]);
    let graph = build_dep_graph(&cargo_lock);
    let app = graph.get("app").unwrap();
    assert_eq!(app.name(), "app");
    assert_eq!(app.len(), 2);
    assert_eq!(app.pending(), 0);
    assert_eq!(witness(&graph, "app", "x"), Some(Dep::Direct));
    assert_eq!(witness(&graph, "app", "y"), Some(Dep::Indirect(names(&["x"]))));
}

#[test]
fn cycle_ends_and_keeps_what_was_found() {
    let cargo_lock = lock(vec![package("a", &["b"]), package("b", &["a"])]);
    let graph = build_dep_graph(&cargo_lock);
    assert_eq!(witness(&graph, "a", "b"), Some(Dep::Direct));
    assert_eq!(witness(&graph, "a", "a"), Some(Dep::Indirect(names(&["b"]))));
    assert_eq!(witness(&graph, "b", "a"), Some(Dep::Direct));
    assert_eq!(witness(&graph, "b", "b"), Some(Dep::Indirect(names(&["a"]))));
    assert_eq!(
        run_lints(&cargo_lock, &lints(vec![deny("a", &["a"])])),
        Ok(names(&["deny: a -> b -> a"]))
    );
}

#[test]
fn package_that_depends_on_itself() {
    let cargo_lock = lock(vec![package("a", &["a"])]);
    let graph = build_dep_graph(&cargo_lock);
    assert_eq!(witness(&graph, "a", "a"), Some(Dep::Direct));
    assert_eq!(graph.get("a").unwrap().len(), 1);
}

#[test]
fn fill_transitive_expands_one_package_and_its_neighbours() {
    let cargo_lock = lock(vec![
        package("a", &["b"]),
        package("b", &["c"]),
        package("c", &[]),
        package("x", &["a"]),
    ]);
    let mut graph = DepGraph::seed(&cargo_lock);
    assert_eq!(graph.get("a").unwrap().pending(), 1);
    assert_eq!(witness(&graph, "a", "c"), None);
    fill_transitive(&mut graph, "a");
    assert_eq!(graph.get("a").unwrap().pending(), 0);
    assert_eq!(graph.get("b").unwrap().pending(), 0);
    assert_eq!(graph.get("x").unwrap().pending(), 1);
    assert_eq!(witness(&graph, "a", "c"), Some(Dep::Indirect(names(&["b"]))));
    assert_eq!(witness(&graph, "x", "c"), None);
    fill_transitive(&mut graph, "unknown");
    assert_eq!(graph.len(), 4);
    fill_transitive(&mut graph, "x");
    assert_eq!(
        witness(&graph, "x", "c"),
        Some(Dep::Indirect(names(&["a", "b"])))
    );
    assert_eq!(graph.names(), names(&["a", "b", "c", "x"]));
}

#[test]
fn names_with_arrows_in_them_are_kept_as_they_are() {
    let cargo_lock = lock(vec![package("a -> b", &["c d"]), package("c d", &[])]);
    assert_eq!(
        run_lints(&cargo_lock, &lints(vec![deny("a -> b", &["c d"])])),
        Ok(names(&["deny: a -> b -> c d"]))
    );
}
