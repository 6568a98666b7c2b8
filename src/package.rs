use vstd::prelude::*;
use crate::tree::{Links, lookup_spec};
use crate::version::{admits, texts, ParsedVersion, VersionRange};

verus! {

/// A package manifest. `dependencies` maps a package name to a version range.
/// `root` is the directory it was read from, when it was read from one.
pub struct Package {
    pub name: String,
    pub version: String,
    pub description: Option<String>,
    pub dependencies: Option<Vec<(String, String)>>,
    pub root: Option<String>,
}

pub open spec fn pair_view(p: (String, String)) -> (Seq<char>, Seq<char>) {
    (p.0@, p.1@)
}

/// The declared dependencies, in order; none when the field is absent.
pub open spec fn deps_of(p: Package) -> Seq<(Seq<char>, Seq<char>)> {
    match p.dependencies {
        Some(d) => d@.map_values(|x: (String, String)| pair_view(x)),
        None => Seq::empty(),
    }
}

/// One entry of a lockfile.
pub struct PackageLockDependency {
    pub name: Option<String>,
    pub version: String,
    pub resolved: String,
    pub integrity: String,
    pub requires: Option<Vec<(String, String)>>,
}

/// A lockfile: its header, and its entries nested as the installed tree is.
/// Node `k` of `links` is described by `entries[k]`; node `0` stands for the
/// project itself.
pub struct PackageLock {
    pub name: String,
    pub version: String,
    pub lockfile_version: u8,
    pub description: Option<String>,
    pub links: Links,
    pub entries: Vec<PackageLockDependency>,
}

/// The installed tree: node `k` of `links` is the package directory whose
/// manifest is `packages[k]`; node `0` is the project.
pub struct PackageTree {
    pub links: Links,
    pub packages: Vec<Package>,
}

/// What the validator finds wrong with an installed tree.
pub enum Issue {
    MissingPackageFromLock { package: String },
    PackageNotInstalled { package: String },
    WrongVersionInstalled { package: String, expected_version: String, actual_version: String },
}

pub enum IssueView {
    MissingPackageFromLock(Seq<char>),
    PackageNotInstalled(Seq<char>),
    WrongVersionInstalled(Seq<char>, Seq<char>, Seq<char>),
}

impl View for Issue {
    type V = IssueView;

    open spec fn view(&self) -> IssueView {
        match self {
            Issue::MissingPackageFromLock { package } => IssueView::MissingPackageFromLock(package@),
            Issue::PackageNotInstalled { package } => IssueView::PackageNotInstalled(package@),
            Issue::WrongVersionInstalled { package, expected_version, actual_version } =>
                IssueView::WrongVersionInstalled(package@, expected_version@, actual_version@),
        }
    }
}

pub open spec fn issue_views(v: Seq<Issue>) -> Seq<IssueView> {
    v.map_values(|i: Issue| i@)
}

/// The lockfile formats that this reader knows.
pub open spec fn lockfile_version_known(v: u8) -> bool {
    v == 1 || v == 2
}

pub enum LockError {
    UnsupportedLockfileVersion { found: u8 },
}

impl PackageTree {
    pub open spec fn wf(&self) -> bool {
        &&& self.links.wf()
        &&& self.packages@.len() == self.links@.len()
    }

    /// The tree of the project alone.
    pub fn new(root: Package) -> (r: PackageTree)
        ensures
            r.wf(),
            r.links@ == seq![(0int, Seq::<char>::empty())],
            r.packages@ == seq![root],
    {
        let links = Links::new();
        let mut packages: Vec<Package> = Vec::new();
        packages.push(root);
        PackageTree { links, packages }
    }

    /// Adds `package` as an installed child of node `parent`, under its own
    /// name; returns the new node.
    pub fn add_child(&mut self, parent: usize, package: Package) -> (r: Option<usize>)
        requires
            old(self).wf(),
            parent < old(self).links@.len(),
        ensures
            final(self).wf(),
            r matches Some(c) ==> c == old(self).links@.len() && final(self).links@ == old(
                self,
            ).links@.push((parent as int, package.name@)) && final(self).packages@ == old(
                self,
            ).packages@.push(package),
            r is None ==> final(self).links@ == old(self).links@ && final(self).packages@ == old(
                self,
            ).packages@,
            old(self).links@.len() < usize::MAX ==> r is Some,
    {
        let name = package.name.clone();
        let r = self.links.add(parent, name);
        if r.is_some() {
            self.packages.push(package);
        }
        r
    }

    /// Hoisted lookup of `name` from the package that the path `at` leads to.
    pub fn get(&self, name: &String, at: &Vec<String>) -> (r: Option<usize>)
        requires
            self.wf(),
        ensures
            r matches Some(c) ==> lookup_spec(self.links@, texts(at@), name@) matches Some((n, _))
                && n == c,
            r is None ==> lookup_spec(self.links@, texts(at@), name@) is None,
            r matches Some(c) ==> c < self.packages@.len(),
    {
        match self.links.get(name, at) {
            Some((c, _)) => Some(c),
            None => None,
        }
    }
}

impl PackageLock {
    pub open spec fn wf(&self) -> bool {
        &&& self.links.wf()
        &&& self.entries@.len() == self.links@.len()
    }

    /// A lockfile with no entries yet; refused where its format is unknown.
    pub fn new(name: String, version: String, lockfile_version: u8, description: Option<String>) -> (r:
        Result<PackageLock, LockError>)
        ensures
            r is Ok <==> lockfile_version_known(lockfile_version),
            r matches Err(e) ==> e == (LockError::UnsupportedLockfileVersion { found: lockfile_version }),
            r matches Ok(l) ==> l.wf() && l.links@.len() == 1 && l.name == name && l.version
                == version && l.lockfile_version == lockfile_version,
    {
        if lockfile_version != 1 && lockfile_version != 2 {
            return Err(LockError::UnsupportedLockfileVersion { found: lockfile_version });
        }
        let top = PackageLockDependency {
            name: None,
            version: version.clone(),
            resolved: String::new(),
            integrity: String::new(),
            requires: None,
        };
        let mut entries: Vec<PackageLockDependency> = Vec::new();
        entries.push(top);
        Ok(PackageLock { name, version, lockfile_version, description, links: Links::new(), entries })
    }

    /// Adds `dep`, named `name`, nested under entry `parent`; returns the new entry.
    pub fn add_dependency(&mut self, parent: usize, name: String, dep: PackageLockDependency) -> (r:
        Option<usize>)
        requires
            old(self).wf(),
            parent < old(self).links@.len(),
        ensures
            final(self).wf(),
            r matches Some(c) ==> c == old(self).links@.len() && final(self).links@ == old(
                self,
            ).links@.push((parent as int, name@)),
            r is None ==> final(self).links@ == old(self).links@ && final(self).entries@ == old(
                self,
            ).entries@,
            r is Some ==> final(self).entries@ == old(self).entries@.push(dep),
            old(self).links@.len() < usize::MAX ==> r is Some,
            final(self).name == old(self).name,
            final(self).version == old(self).version,
            final(self).lockfile_version == old(self).lockfile_version,
            final(self).description == old(self).description,
    {
        let r = self.links.add(parent, name);
        if r.is_some() {
            self.entries.push(dep);
        }
        r
    }

    /// Hoisted lookup of `name` in the lockfile, seen from the entry that the
    /// path `at` leads to.
    pub fn get(&self, name: &String, at: &Vec<String>) -> (r: Option<&PackageLockDependency>)
        requires
            self.wf(),
        ensures
            r is None <==> lookup_spec(self.links@, texts(at@), name@) is None,
            r matches Some(d) ==> lookup_spec(self.links@, texts(at@), name@) matches Some((n, _))
                && *d == self.entries@[n],
    {
        match find_lock_dependency(self, name, at) {
            Some(c) => Some(&self.entries[c]),
            None => None,
        }
    }
}

/// The lockfile entry that `name` resolves to from the path `at`, by the
/// same hoisted rule as the installed tree.
pub fn find_lock_dependency(lock: &PackageLock, name: &String, at: &Vec<String>) -> (r: Option<usize>)
    requires
        lock.wf(),
    ensures
        r matches Some(c) ==> lookup_spec(lock.links@, texts(at@), name@) matches Some((n, _)) && n
            == c,
        r is None ==> lookup_spec(lock.links@, texts(at@), name@) is None,
        r matches Some(c) ==> c < lock.entries@.len(),
{
    match lock.links.get(name, at) {
        Some((c, _)) => Some(c),
        None => None,
    }
}

// ---- validation ----

/// The path of the node found at depth `d` of the chain that `at` leads
/// through: the first `d` names of `at`, then `name`.
pub open spec fn physical(at: Seq<Seq<char>>, d: int, name: Seq<char>) -> Seq<Seq<char>> {
    at.subrange(0, d).push(name)
}

/// Whether the range text `r` admits the version text `v`.
pub open spec fn satisfied(r: Seq<char>, v: Seq<char>) -> bool {
    crate::version::range_parses(r) && admits(r, v)
}

/// Issues of the presence check for `deps`, required by the package at path
/// `at`. A found package whose version the range refuses is reported and not
/// descended into; `fuel` bounds how deep dependencies are followed.
pub open spec fn installed_issues(
    t: PackageTree,
    at: Seq<Seq<char>>,
    deps: Seq<(Seq<char>, Seq<char>)>,
    fuel: nat,
) -> Seq<IssueView>
    decreases fuel, deps.len(),
{
    if deps.len() == 0 {
        Seq::empty()
    } else {
        installed_issues(t, at, deps.drop_last(), fuel) + installed_dep(t, at, deps.last(), fuel)
    }
}

pub open spec fn installed_dep(
    t: PackageTree,
    at: Seq<Seq<char>>,
    dep: (Seq<char>, Seq<char>),
    fuel: nat,
) -> Seq<IssueView>
    decreases fuel, 0nat,
{
    match lookup_spec(t.links@, at, dep.0) {
        None => seq![IssueView::PackageNotInstalled(dep.0)],
        Some((c, d)) => {
            let actual = t.packages@[c].version@;
            if !satisfied(dep.1, actual) {
                seq![IssueView::WrongVersionInstalled(dep.0, dep.1, actual)]
            } else if fuel == 0 {
                Seq::empty()
            } else {
                installed_issues(t, physical(at, d, dep.0), deps_of(t.packages@[c]), (fuel - 1) as nat)
            }
        },
    }
}

/// Issues of the lockfile check for `deps`, required by the package at path
/// `at`: each installed dependency must resolve in the lockfile by the same
/// hoisted rule, and its own dependencies are checked from there.
pub open spec fn lock_issues(
    t: PackageTree,
    l: PackageLock,
    at: Seq<Seq<char>>,
    deps: Seq<(Seq<char>, Seq<char>)>,
    fuel: nat,
) -> Seq<IssueView>
    decreases fuel, deps.len(),
{
    if deps.len() == 0 {
        Seq::empty()
    } else {
        lock_issues(t, l, at, deps.drop_last(), fuel) + lock_dep(t, l, at, deps.last(), fuel)
    }
}

pub open spec fn lock_dep(
    t: PackageTree,
    l: PackageLock,
    at: Seq<Seq<char>>,
    dep: (Seq<char>, Seq<char>),
    fuel: nat,
) -> Seq<IssueView>
    decreases fuel, 0nat,
{
    match lookup_spec(t.links@, at, dep.0) {
        None => Seq::empty(),
        Some((c, _)) => match lookup_spec(l.links@, at, dep.0) {
            None => seq![IssueView::MissingPackageFromLock(dep.0)],
            Some((_, d)) => if fuel == 0 {
                Seq::empty()
            } else {
                lock_issues(t, l, physical(at, d, dep.0), deps_of(t.packages@[c]), (fuel - 1) as nat)
            },
        },
    }
}

/// All issues of a project: the presence check, then the lockfile check,
/// each following dependencies as deep as the tree has nodes.
pub open spec fn validate_spec(p: Package, t: PackageTree, l: PackageLock) -> Seq<IssueView> {
    installed_issues(t, Seq::empty(), deps_of(p), t.links@.len() as nat) + lock_issues(
        t,
        l,
        Seq::empty(),
        deps_of(p),
        t.links@.len() as nat,
    )
}

fn path_to(at: &Vec<String>, d: usize, name: &String) -> (r: Vec<String>)
    requires
        d <= at@.len(),
    ensures
        texts(r@) == physical(texts(at@), d as int, name@),
{
    let mut r: Vec<String> = Vec::new();
    let mut i: usize = 0;
    while i < d
        invariant
            i <= d <= at@.len(),
            texts(r@) == texts(at@).subrange(0, i as int),
        decreases d - i,
    {
        let ghost before = r@;
        let s = at[i].clone();
        r.push(s);
        assert(r@ == before.push(s));
        assert(texts(r@) =~= texts(before).push(s@));
        assert(texts(r@) =~= texts(at@).subrange(0, i + 1));
        i = i + 1;
    }
    r.push(name.clone());
    assert(texts(r@) =~= physical(texts(at@), d as int, name@));
    r
}

fn version_satisfies(range: &String, version: &String) -> (r: bool)
    ensures
        r == satisfied(range@, version@),
{
    match VersionRange::parse(range.as_str()) {
        None => false,
        Some(rg) => match ParsedVersion::parse(version.as_str()) {
            None => false,
            Some(v) => v.satisfies(&rg),
        },
    }
}

fn check_installed(t: &PackageTree, at: &Vec<String>, deps: &Vec<(String, String)>, fuel: usize) -> (r:
    Vec<Issue>)
    requires
        t.wf(),
    ensures
        issue_views(r@) == installed_issues(
            *t,
            texts(at@),
            deps@.map_values(|x: (String, String)| pair_view(x)),
            fuel as nat,
        ),
    decreases fuel, deps@.len(),
{
    let ghost dv = deps@.map_values(|x: (String, String)| pair_view(x));
    let mut issues: Vec<Issue> = Vec::new();
    let mut i: usize = 0;
    assert(dv.subrange(0, 0) =~= Seq::<(Seq<char>, Seq<char>)>::empty());
    while i < deps.len()
        invariant
            0 <= i <= deps@.len(),
            t.wf(),
            dv == deps@.map_values(|x: (String, String)| pair_view(x)),
            issue_views(issues@) == installed_issues(*t, texts(at@), dv.subrange(0, i as int), fuel as nat),
        decreases deps@.len() - i,
    {
        let ghost before = issues@;
        let mut more = check_installed_dep(t, at, &deps[i].0, &deps[i].1, fuel);
        let ghost added = more@;
        issues.append(&mut more);
        proof {
            let pre = dv.subrange(0, i + 1);
            assert(pre.drop_last() =~= dv.subrange(0, i as int));
            assert(pre.last() == pair_view(deps@[i as int]));
            assert(issue_views(issues@) =~= issue_views(before) + issue_views(added));
        }
        i = i + 1;
    }
    assert(dv.subrange(0, deps@.len() as int) =~= dv);
    issues
}

fn check_installed_dep(t: &PackageTree, at: &Vec<String>, name: &String, range: &String, fuel: usize) -> (r:
    Vec<Issue>)
    requires
        t.wf(),
    ensures
        issue_views(r@) == installed_dep(*t, texts(at@), (name@, range@), fuel as nat),
    decreases fuel, 0nat,
{
    let mut issues: Vec<Issue> = Vec::new();
    match t.links.get(name, at) {
        None => {
            issues.push(Issue::PackageNotInstalled { package: name.clone() });
            assert(issue_views(issues@) =~= seq![IssueView::PackageNotInstalled(name@)]);
        },
        Some((c, d)) => {
            let found = &t.packages[c];
            if !version_satisfies(range, &found.version) {
                issues.push(
                    Issue::WrongVersionInstalled {
                        package: name.clone(),
                        expected_version: range.clone(),
                        actual_version: found.version.clone(),
                    },
                );
                assert(issue_views(issues@) =~= seq![
                    IssueView::WrongVersionInstalled(name@, range@, found.version@),
                ]);
            } else if fuel > 0 {
                let next = path_to(at, d, name);
                let empty: Vec<(String, String)> = Vec::new();
                assert(empty@.map_values(|x: (String, String)| pair_view(x)) =~= Seq::<(Seq<char>, Seq<char>)>::empty());
                let sub = match &found.dependencies {
                    Some(dd) => dd,
                    None => &empty,
                };
                issues = check_installed(t, &next, sub, fuel - 1);
            } else {
                assert(issue_views(issues@) =~= Seq::<IssueView>::empty());
            }
        },
    }
    issues
}

fn check_lock(t: &PackageTree, l: &PackageLock, at: &Vec<String>, deps: &Vec<(String, String)>, fuel: usize) -> (r:
    Vec<Issue>)
    requires
        t.wf(),
        l.wf(),
    ensures
        issue_views(r@) == lock_issues(
            *t,
            *l,
            texts(at@),
            deps@.map_values(|x: (String, String)| pair_view(x)),
            fuel as nat,
        ),
    decreases fuel, deps@.len(),
{
    let ghost dv = deps@.map_values(|x: (String, String)| pair_view(x));
    let mut issues: Vec<Issue> = Vec::new();
    let mut i: usize = 0;
    assert(dv.subrange(0, 0) =~= Seq::<(Seq<char>, Seq<char>)>::empty());
    while i < deps.len()
        invariant
            0 <= i <= deps@.len(),
            t.wf(),
            l.wf(),
            dv == deps@.map_values(|x: (String, String)| pair_view(x)),
            issue_views(issues@) == lock_issues(*t, *l, texts(at@), dv.subrange(0, i as int), fuel as nat),
        decreases deps@.len() - i,
    {
        let ghost before = issues@;
        let mut more = check_lock_dep(t, l, at, &deps[i].0, fuel);
        let ghost added = more@;
        issues.append(&mut more);
        proof {
            let pre = dv.subrange(0, i + 1);
            assert(pre.drop_last() =~= dv.subrange(0, i as int));
            assert(pre.last() == pair_view(deps@[i as int]));
            assert(issue_views(added) == lock_dep(*t, *l, texts(at@), (deps@[i as int].0@, deps@[i as int].1@), fuel as nat));
            assert(issue_views(issues@) =~= issue_views(before) + issue_views(added));
        }
        i = i + 1;
    }
    assert(dv.subrange(0, deps@.len() as int) =~= dv);
    issues
}

fn check_lock_dep(t: &PackageTree, l: &PackageLock, at: &Vec<String>, name: &String, fuel: usize) -> (r:
    Vec<Issue>)
    requires
        t.wf(),
        l.wf(),
    ensures
        forall|range: Seq<char>| issue_views(r@) == lock_dep(*t, *l, texts(at@), (name@, range), fuel as nat),
    decreases fuel, 0nat,
{
    let mut issues: Vec<Issue> = Vec::new();
    match t.get(name, at) {
        None => {
            assert(issue_views(issues@) =~= Seq::<IssueView>::empty());
        },
        Some(c) => match l.links.get(name, at) {
            None => {
                issues.push(Issue::MissingPackageFromLock { package: name.clone() });
                assert(issue_views(issues@) =~= seq![IssueView::MissingPackageFromLock(name@)]);
            },
            Some((_, d)) => {
                if fuel > 0 {
                    let next = path_to(at, d, name);
                    let empty: Vec<(String, String)> = Vec::new();
                    assert(empty@.map_values(|x: (String, String)| pair_view(x)) =~= Seq::<(Seq<char>, Seq<char>)>::empty());
                    let sub = match &t.packages[c].dependencies {
                        Some(dd) => dd,
                        None => &empty,
                    };
                    issues = check_lock(t, l, &next, sub, fuel - 1);
                } else {
                    assert(issue_views(issues@) =~= Seq::<IssueView>::empty());
                }
            },
        },
    }
    issues
}

impl Package {
    /// Checks the installed tree `tree` and the lockfile `lock` of this
    /// project against its declared dependencies: first whether each is
    /// installed where the hoisted rule finds it, in a version that its
    /// range admits; then whether each installed one has its lockfile entry.
    /// A range that does not parse admits no version. Dependencies are
    /// followed as many levels deep as the tree has nodes, which is as deep
    /// as an acyclic tree goes and stops a cycle.
    pub fn validate(&self, tree: &PackageTree, lock: &PackageLock) -> (r: Vec<Issue>)
        requires
            tree.wf(),
            lock.wf(),
        ensures
            issue_views(r@) == validate_spec(*self, *tree, *lock),
    {
        let top: Vec<String> = Vec::new();
        assert(texts(top@) =~= Seq::<Seq<char>>::empty());
        let empty: Vec<(String, String)> = Vec::new();
        assert(empty@.map_values(|x: (String, String)| pair_view(x)) =~= Seq::<(Seq<char>, Seq<char>)>::empty());
        let deps = match &self.dependencies {
            Some(dd) => dd,
            None => &empty,
        };
        let n = tree.links.len();
        let mut issues = check_installed(tree, &top, deps, n);
        let mut more = check_lock(tree, lock, &top, deps, n);
        let ghost before = issues@;
        let ghost added = more@;
        issues.append(&mut more);
        assert(issue_views(issues@) =~= issue_views(before) + issue_views(added));
        issues
    }
}

} // verus!
