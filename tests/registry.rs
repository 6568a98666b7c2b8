use nodedir::refresh::{
    fetch_all_metadata, refresh, resolve_package, RefreshError, RegistryPackage, RegistryPackageVersion,
    RegistryPackageVersionDist, WalkStep,
};
use nodedir::package::Package;
use nodedir::version::{get_max_compatible_version, greatest, ParsedVersion, VersionKey, VersionRange};

fn version(name: &str, v: &str, deps: &[(&str, &str)]) -> (String, RegistryPackageVersion) {
    (
        v.to_string(),
        RegistryPackageVersion {
            name: name.to_string(),
            version: v.to_string(),
            dist: RegistryPackageVersionDist {
                tarball: format!("https://registry.npmjs.org/{}/-/{}-{}.tgz", name, name, v),
            },
            dependencies: if deps.is_empty() {
                None
            } else {
                Some(deps.iter().map(|(n, r)| (n.to_string(), r.to_string())).collect())
            },
        },
    )
}

fn registry(name: &str) -> RegistryPackage {
    let versions = match name {
        "edon-test-a" => vec![
            version("edon-test-a", "0.0.0", &[]),
            version("edon-test-a", "0.0.1", &[("edon-test-b", "^0.0.0"), ("edon-test-c", "^1.0.0")]),
        ],
        "edon-test-b" => vec![version("edon-test-b", "0.0.0", &[("edon-test-c", "^1.0.0")])],
        "edon-test-c" => vec![
            version("edon-test-c", "0.0.0", &[]),
            version("edon-test-c", "1.0.0", &[]),
            version("edon-test-c", "1.0.4", &[]),
        ],
        _ => vec![],
    };
    RegistryPackage { name: name.to_string(), versions }
}

fn strings(v: &[&str]) -> Vec<String> {
    v.iter().map(|s| s.to_string()).collect()
}

fn max(range: &str, versions: &[&str]) -> Option<String> {
    let r = VersionRange::parse(range).unwrap();
    get_max_compatible_version(&r, &strings(versions))
}

#[test]
fn test_fetch_all_metadata() {
    let mut m = fetch_all_metadata(&"edon-test-a".to_string(), &"^0.0.1".to_string());
    let mut fetched = vec![];
    loop {
        match m.step() {
            Ok(WalkStep::Need(n)) => {
                fetched.push(n.clone());
                m.supply(registry(&n));
            }
            Ok(WalkStep::Progress) => {}
            Ok(WalkStep::Done) => break,
            Err(_) => panic!("walk failed"),
        }
    }
    for i in m.docs.iter() {
        println!("{:?}", i.name);
    }
    let a = m.document(&"edon-test-a".to_string()).unwrap();
    let a0 = a.versions.iter().find(|(k, _)| k == "0.0.0").unwrap();
    assert_eq!(a0.1.version, "0.0.0");
    let b = m.document(&"edon-test-b".to_string()).unwrap();
    let b0 = b.versions.iter().find(|(k, _)| k == "0.0.0").unwrap();
    assert_eq!(b0.1.version, "0.0.0");
    // each document is fetched once, though edon-test-c is needed twice
    assert_eq!(fetched, strings(&["edon-test-a", "edon-test-b", "edon-test-c"]));
}

#[test]
fn picks_greatest_admitted_version() {
    assert_eq!(max("^1.0.0", &["1.0.0", "1.0.4", "0.0.0", "2.0.0"]), Some("1.0.4".to_string()));
    assert_eq!(max("^0.0.1", &["0.0.0", "0.0.1", "0.0.2"]), Some("0.0.1".to_string()));
    assert_eq!(max(">=1.0.0", &["1.10.0", "1.9.0", "not a version"]), Some("1.10.0".to_string()));
    assert_eq!(max("^3.0.0", &["1.0.0", "2.0.0"]), None);
    assert_eq!(max("^1.0.0", &[]), None);
}

#[test]
fn pre_releases_only_when_named() {
    assert_eq!(max("^1.0.0", &["1.0.0", "1.1.0-beta.1"]), Some("1.0.0".to_string()));
    assert_eq!(
        max(">=1.0.0-alpha", &["1.0.0-alpha", "1.0.0-alpha.1", "1.0.0-beta.2", "1.0.0-beta.11"]),
        Some("1.0.0-beta.11".to_string())
    );
    assert_eq!(max(">=1.0.0-alpha", &["1.0.0-alpha.1", "1.0.0", "1.0.0-rc.1"]), Some("1.0.0".to_string()));
}

#[test]
fn version_precedence() {
    let v = |s: &str| ParsedVersion::parse(s).unwrap();
    assert!(v("1.0.0-alpha").precedes(&v("1.0.0-alpha.1")));
    assert!(v("1.0.0-alpha.1").precedes(&v("1.0.0-alpha.beta")));
    assert!(v("1.0.0-beta.2").precedes(&v("1.0.0-beta.11")));
    assert!(v("1.0.0-rc.1").precedes(&v("1.0.0")));
    assert!(v("1.9.0").precedes(&v("1.10.0")));
    assert!(!v("1.0.0").precedes(&v("1.0.0")));
    assert!(ParsedVersion::parse("1.0").is_none());
    assert!(VersionRange::parse("not a range!").is_none());
}

#[test]
fn adding_versions_does_not_lower_the_pick() {
    let small = max("^1.0.0", &["1.0.0", "1.0.4"]).unwrap();
    let large = max("^1.0.0", &["1.0.0", "1.0.4", "1.2.0", "0.9.0"]).unwrap();
    assert_eq!(small, "1.0.4");
    assert_eq!(large, "1.2.0");
}

#[test]
fn refresh_plans_each_dependency() {
    let pkg = Package {
        name: "example".to_string(),
        version: "0.0.0".to_string(),
        description: None,
        dependencies: Some(vec![
            ("edon-test-a".to_string(), "^0.0.1".to_string()),
            ("edon-test-c".to_string(), "^9.0.0".to_string()),
            ("edon-test-b".to_string(), "what?".to_string()),
        ]),
        root: None,
    };
    let docs = vec![registry("edon-test-a"), registry("edon-test-c"), registry("edon-test-b")];
    let tasks = refresh(&pkg, &docs);
    assert_eq!(tasks.len(), 3);
    match &tasks[0] {
        Ok(t) => {
            assert_eq!(t.name, "edon-test-a");
            assert_eq!(t.version, "0.0.1");
            assert_eq!(t.tarball, "https://registry.npmjs.org/edon-test-a/-/edon-test-a-0.0.1.tgz");
        }
        Err(_) => panic!("expected a task"),
    }
    match &tasks[1] {
        Err(RefreshError::NoCompatibleVersion { name, range }) => {
            assert_eq!(name, "edon-test-c");
            assert_eq!(range, "^9.0.0");
        }
        _ => panic!("expected no compatible version"),
    }
    assert!(matches!(&tasks[2], Err(RefreshError::InvalidRange { .. })));
}

#[test]
fn greatest_key_is_found() {
    let k = |major: u64, minor: u64, patch: u64, pre: &str| VersionKey { major, minor, patch, pre: pre.as_bytes().to_vec() };
    let t = |n: usize| vec![Vec::<u8>::new(); n];
    assert_eq!(greatest(&vec![k(1, 0, 0, ""), k(2, 0, 0, ""), k(1, 5, 0, "")], &t(3)), Some(1));
    assert_eq!(greatest(&vec![k(1, 0, 0, "rc.1"), k(1, 0, 0, ""), k(1, 0, 0, "beta")], &t(3)), Some(1));
    assert_eq!(greatest(&vec![k(1, 0, 0, "alpha.10"), k(1, 0, 0, "alpha.9")], &t(2)), Some(0));
    assert_eq!(greatest(&vec![k(3, 1, 4, ""), k(3, 1, 4, "")], &t(2)), Some(0));
    let ties = vec![b"3.1.4+a".to_vec(), b"3.1.4+b".to_vec()];
    assert_eq!(greatest(&vec![k(3, 1, 4, ""), k(3, 1, 4, "")], &ties), Some(1));
    assert_eq!(greatest(&vec![], &vec![]), None);
}

#[test]
fn build_metadata_ties_do_not_depend_on_order() {
    assert_eq!(max("^1.0.0", &["1.0.0+a", "1.0.0+b"]), Some("1.0.0+b".to_string()));
    assert_eq!(max("^1.0.0", &["1.0.0+b", "1.0.0+a"]), Some("1.0.0+b".to_string()));
}

#[test]
fn walk_error_names_its_edge() {
    let mut m = fetch_all_metadata(&"edon-test-c".to_string(), &"^9.0.0".to_string());
    assert!(matches!(m.step(), Ok(WalkStep::Need(_))));
    m.supply(registry("edon-test-c"));
    match m.step() {
        Err(RefreshError::NoCompatibleVersion { name, range }) => {
            assert_eq!(name, "edon-test-c");
            assert_eq!(range, "^9.0.0");
        }
        _ => panic!("expected no compatible version"),
    }
    assert!(matches!(m.step(), Ok(WalkStep::Done)));
}

#[test]
fn transitive_dependencies_are_placed_nested() {
    let pkg = Package {
        name: "example".to_string(),
        version: "0.0.0".to_string(),
        description: None,
        dependencies: Some(vec![("edon-test-a".to_string(), "^0.0.1".to_string())]),
        root: None,
    };
    let mut m = resolve_package(&pkg);
    loop {
        match m.step() {
            Ok(WalkStep::Need(n)) => m.supply(registry(&n)),
            Ok(WalkStep::Progress) => {}
            Ok(WalkStep::Done) => break,
            Err(_) => panic!("walk failed"),
        }
    }
    let placed: Vec<(Vec<String>, String)> = m
        .placements()
        .into_iter()
        .flatten()
        .map(|t| (t.path, t.version))
        .collect();
    assert_eq!(
        placed,
        vec![
            (strings(&["edon-test-a"]), "0.0.1".to_string()),
            (strings(&["edon-test-a", "edon-test-b"]), "0.0.0".to_string()),
            (strings(&["edon-test-a", "edon-test-c"]), "1.0.4".to_string()),
            (strings(&["edon-test-a", "edon-test-b", "edon-test-c"]), "1.0.4".to_string()),
        ]
    );
}
