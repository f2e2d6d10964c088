use cargo_deplint::{run_lints, summary, CargoLock, Deny, Lints, Package};

fn lines(n: usize) -> Vec<String> {
    (0..n).map(|k| format!("deny: a -> b{}", k)).collect()
}

#[test]
fn summary_of_a_clean_run() {
    assert_eq!(summary(&Vec::new()), Ok(()));
}

#[test]
fn summary_counts_the_violations() {
    assert_eq!(summary(&lines(1)), Err("1 dep lint violation(s)".to_string()));
    assert_eq!(summary(&lines(9)), Err("9 dep lint violation(s)".to_string()));
    assert_eq!(summary(&lines(10)), Err("10 dep lint violation(s)".to_string()));
    assert_eq!(summary(&lines(12)), Err("12 dep lint violation(s)".to_string()));
    assert_eq!(summary(&lines(100)), Err("100 dep lint violation(s)".to_string()));
    assert_eq!(summary(&lines(1203)), Err("1203 dep lint violation(s)".to_string()));
}

#[test]
fn summary_of_a_run_with_broken_rules() {
    let cargo_lock = CargoLock {
        package: Some(vec![
            Package {
                name: "a".to_string(),
                dependencies: Some(vec!["b".to_string()]),
            },
            Package {
                name: "b".to_string(),
                dependencies: None,
            },
        ]),
    };
    let lints = Lints {
        deny: Some(vec![Deny {
            name: "a".to_string(),
            dependencies: Some(vec!["b".to_string(), "b".to_string()]),
        }]),
    };
    let violations = run_lints(&cargo_lock, &lints).unwrap();
    assert_eq!(violations, vec!["deny: a -> b".to_string(), "deny: a -> b".to_string()]);
    assert_eq!(summary(&violations), Err("2 dep lint violation(s)".to_string()));
}
