use nodedir::package::{Issue, Package, PackageLock, PackageLockDependency, PackageTree};

fn pkg(name: &str, version: &str, deps: &[(&str, &str)]) -> Package {
    Package {
        name: name.to_string(),
        version: version.to_string(),
        description: None,
        dependencies: if deps.is_empty() {
            None
        } else {
            Some(deps.iter().map(|(n, r)| (n.to_string(), r.to_string())).collect())
        },
        root: None,
    }
}

fn lock_dep(version: &str) -> PackageLockDependency {
    PackageLockDependency {
        name: None,
        version: version.to_string(),
        resolved: String::new(),
        integrity: String::new(),
        requires: None,
    }
}

fn lock() -> PackageLock {
    match PackageLock::new("example".to_string(), "0.0.0".to_string(), 1, None) {
        Ok(l) => l,
        Err(_) => panic!("lockfile version 1 is known"),
    }
}

#[test]
fn finds_missing_deps_from_lock() {
    let p = pkg("example", "0.0.0", &[("edon-test-c", "1.0.0")]);
    let mut tree = PackageTree::new(pkg("example", "0.0.0", &[("edon-test-c", "1.0.0")]));
    tree.add_child(0, pkg("edon-test-c", "1.0.0", &[])).unwrap();
    let issues = p.validate(&tree, &lock());
    match &issues[0] {
        Issue::MissingPackageFromLock { ref package } => assert_eq!(package, "edon-test-c"),
        _ => panic!("invalid issue"),
    }
    assert_eq!(issues.len(), 1);
}

#[test]
fn finds_missing_subdeps_from_lock() {
    let p = pkg("example", "0.0.0", &[("edon-test-a", "0.0.1")]);
    let mut tree = PackageTree::new(pkg("example", "0.0.0", &[]));
    let a = tree.add_child(0, pkg("edon-test-a", "0.0.1", &[("edon-test-c", "^1.0.0")])).unwrap();
    tree.add_child(a, pkg("edon-test-c", "1.0.4", &[])).unwrap();
    let mut l = lock();
    l.add_dependency(0, "edon-test-a".to_string(), lock_dep("0.0.1")).unwrap();
    let issues = p.validate(&tree, &l);
    match &issues[0] {
        Issue::MissingPackageFromLock { ref package } => assert_eq!(package, "edon-test-c"),
        _ => panic!("invalid issue"),
    }
    assert_eq!(issues.len(), 1);
}

#[test]
fn does_not_error_if_no_deps() {
    let p = pkg("example", "0.0.0", &[]);
    let tree = PackageTree::new(pkg("example", "0.0.0", &[]));
    let issues = p.validate(&tree, &lock());
    assert_eq!(issues.len(), 0);
}

#[test]
fn wrong_package_installed_1() {
    let p = pkg("example", "0.0.0", &[("edon-test-c", "0.0.0")]);
    let mut tree = PackageTree::new(pkg("example", "0.0.0", &[]));
    tree.add_child(0, pkg("edon-test-c", "0.0.1", &[])).unwrap();
    let mut l = lock();
    l.add_dependency(0, "edon-test-c".to_string(), lock_dep("0.0.1")).unwrap();
    let issues = p.validate(&tree, &l);
    match &issues[0] {
        Issue::WrongVersionInstalled { ref package, ref expected_version, ref actual_version } => {
            assert_eq!(package, "edon-test-c");
            assert_eq!(expected_version, "0.0.0");
            assert_eq!(actual_version, "0.0.1");
        }
        _ => panic!("invalid issue"),
    }
    assert_eq!(issues.len(), 1);
}

#[test]
fn valid_multiple_versions() {
    // the project needs edon-test-c 1.x, edon-test-a needs its own 0.0.x copy
    let p = pkg("example", "0.0.0", &[("edon-test-a", "^0.0.1"), ("edon-test-c", "^1.0.0")]);
    let mut tree = PackageTree::new(pkg("example", "0.0.0", &[]));
    let a = tree.add_child(0, pkg("edon-test-a", "0.0.1", &[("edon-test-c", "0.0.0")])).unwrap();
    tree.add_child(0, pkg("edon-test-c", "1.0.4", &[])).unwrap();
    tree.add_child(a, pkg("edon-test-c", "0.0.0", &[])).unwrap();
    let mut l = lock();
    let la = l.add_dependency(0, "edon-test-a".to_string(), lock_dep("0.0.1")).unwrap();
    l.add_dependency(0, "edon-test-c".to_string(), lock_dep("1.0.4")).unwrap();
    l.add_dependency(la, "edon-test-c".to_string(), lock_dep("0.0.0")).unwrap();
    let issues = p.validate(&tree, &l);
    assert_eq!(issues.len(), 0);
}

#[test]
fn dep_not_installed_3() {
    let p = pkg("example", "0.0.0", &[("edon-test-c", "1.0.0")]);
    let tree = PackageTree::new(pkg("example", "0.0.0", &[]));
    let mut l = lock();
    l.add_dependency(0, "edon-test-c".to_string(), lock_dep("1.0.0")).unwrap();
    let issues = p.validate(&tree, &l);
    match &issues[0] {
        Issue::PackageNotInstalled { ref package } => assert_eq!(package, "edon-test-c"),
        _ => panic!("invalid issue"),
    }
    assert_eq!(issues.len(), 1);
}

#[test]
fn hoisted_dependency_is_found_from_nested_package() {
    // edon-test-a needs edon-test-c, which sits at the top of node_modules
    let p = pkg("example", "0.0.0", &[("edon-test-a", "^0.0.1")]);
    let mut tree = PackageTree::new(pkg("example", "0.0.0", &[]));
    tree.add_child(0, pkg("edon-test-a", "0.0.1", &[("edon-test-c", "^1.0.0")])).unwrap();
    tree.add_child(0, pkg("edon-test-c", "1.0.4", &[])).unwrap();
    let mut l = lock();
    l.add_dependency(0, "edon-test-a".to_string(), lock_dep("0.0.1")).unwrap();
    l.add_dependency(0, "edon-test-c".to_string(), lock_dep("1.0.4")).unwrap();
    assert_eq!(p.validate(&tree, &l).len(), 0);
}

#[test]
fn tree_lookup_prefers_deepest_copy() {
    let mut tree = PackageTree::new(pkg("example", "0.0.0", &[]));
    let a = tree.add_child(0, pkg("edon-test-a", "0.0.1", &[])).unwrap();
    let top_c = tree.add_child(0, pkg("edon-test-c", "1.0.4", &[])).unwrap();
    let nested_c = tree.add_child(a, pkg("edon-test-c", "0.0.0", &[])).unwrap();
    let c = "edon-test-c".to_string();
    assert_eq!(tree.get(&c, &vec!["edon-test-a".to_string()]), Some(nested_c));
    assert_eq!(tree.get(&c, &vec![]), Some(top_c));
    assert_eq!(tree.get(&"edon-test-x".to_string(), &vec!["edon-test-a".to_string()]), None);
}

#[test]
fn lock_lookup_walks_up() {
    let mut l = lock();
    let a = l.add_dependency(0, "edon-test-a".to_string(), lock_dep("0.0.1")).unwrap();
    l.add_dependency(0, "edon-test-c".to_string(), lock_dep("1.0.4")).unwrap();
    l.add_dependency(a, "edon-test-b".to_string(), lock_dep("0.0.0")).unwrap();
    let at = vec!["edon-test-a".to_string()];
    assert_eq!(l.get(&"edon-test-c".to_string(), &at).map(|d| d.version.clone()), Some("1.0.4".to_string()));
    assert_eq!(l.get(&"edon-test-b".to_string(), &at).map(|d| d.version.clone()), Some("0.0.0".to_string()));
    assert!(l.get(&"edon-test-b".to_string(), &vec![]).is_none());
}

#[test]
fn unknown_lockfile_version_is_refused() {
    assert!(PackageLock::new("x".to_string(), "1.0.0".to_string(), 9, None).is_err());
    assert!(PackageLock::new("x".to_string(), "1.0.0".to_string(), 2, None).is_ok());
}
