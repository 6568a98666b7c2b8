use vstd::prelude::*;
use crate::package::{deps_of, pair_view, Package};
use crate::version::{
    admits, get_max_compatible_version, is_max_admitted, range_parses, texts, VersionRange,
};

verus! {

pub struct RegistryPackageVersionDist {
    pub tarball: String,
}

/// One published version in a registry document.
pub struct RegistryPackageVersion {
    pub name: String,
    pub version: String,
    pub dist: RegistryPackageVersionDist,
    pub dependencies: Option<Vec<(String, String)>>,
}

/// A registry document: every published version of one package, keyed by
/// its version text.
pub struct RegistryPackage {
    pub name: String,
    pub versions: Vec<(String, RegistryPackageVersion)>,
}

/// One package to install: the version picked, and where its archive is.
pub struct InstallTask {
    pub name: String,
    pub version: String,
    pub tarball: String,
}

pub enum RefreshError {
    InvalidRange { name: String, range: String },
    NoCompatibleVersion { name: String, range: String },
}

pub open spec fn keys_of(doc: RegistryPackage) -> Seq<Seq<char>> {
    doc.versions@.map_values(|e: (String, RegistryPackageVersion)| e.0@)
}

/// Whether `range` admits some published version of `doc`.
pub open spec fn has_admitted(doc: RegistryPackage, range: Seq<char>) -> bool {
    exists|j: int| 0 <= j < doc.versions@.len() && admits(range, #[trigger] doc.versions@[j].0@)
}

/// What installing `(name, range)` from `doc` yields: the greatest admitted
/// version with its archive, or the reason there is none.
pub open spec fn task_ok(
    doc: RegistryPackage,
    name: Seq<char>,
    range: Seq<char>,
    r: Result<InstallTask, RefreshError>,
) -> bool {
    if !range_parses(range) {
        r matches Err(RefreshError::InvalidRange { name: n, range: g }) && n@ == name && g@ == range
    } else if !has_admitted(doc, range) {
        r matches Err(RefreshError::NoCompatibleVersion { name: n, range: g }) && n@ == name && g@
            == range
    } else {
        r matches Ok(t) && {
            &&& t.name@ == name
            &&& is_max_admitted(range, keys_of(doc), t.version@)
            &&& exists|k: int|
                0 <= k < doc.versions@.len() && doc.versions@[k].0@ == t.version@
                    && doc.versions@[k].1.dist.tarball@ == t.tarball@
        }
    }
}

/// The version texts of a document.
pub fn version_keys(doc: &RegistryPackage) -> (r: Vec<String>)
    ensures
        texts(r@) == keys_of(*doc),
{
    let mut r: Vec<String> = Vec::new();
    let mut i: usize = 0;
    while i < doc.versions.len()
        invariant
            0 <= i <= doc.versions@.len(),
            texts(r@) == keys_of(*doc).subrange(0, i as int),
        decreases doc.versions@.len() - i,
    {
        let ghost before = r@;
        let s = doc.versions[i].0.clone();
        r.push(s);
        assert(texts(r@) =~= texts(before).push(s@));
        assert(texts(r@) =~= keys_of(*doc).subrange(0, i + 1));
        i = i + 1;
    }
    assert(keys_of(*doc).subrange(0, doc.versions@.len() as int) =~= keys_of(*doc));
    r
}

/// The index of the first entry of `doc` from `from` on whose version text is `v`.
pub open spec fn first_entry_from(doc: RegistryPackage, v: Seq<char>, from: int) -> int
    decreases doc.versions@.len() - from,
{
    if from < 0 || from >= doc.versions@.len() {
        -1
    } else if doc.versions@[from].0@ == v {
        from
    } else {
        first_entry_from(doc, v, from + 1)
    }
}

pub open spec fn first_entry(doc: RegistryPackage, v: Seq<char>) -> int {
    first_entry_from(doc, v, 0)
}

/// The dependencies declared by the published version `v` of `doc`.
pub open spec fn deps_of_version(doc: RegistryPackage, v: Seq<char>) -> Seq<(Seq<char>, Seq<char>)> {
    version_deps(doc.versions@[first_entry(doc, v)].1)
}

/// The entry of `doc` whose version text is `v`.
fn find_version(doc: &RegistryPackage, v: &String) -> (r: Option<usize>)
    ensures
        r matches Some(k) ==> k < doc.versions@.len() && doc.versions@[k as int].0@ == v@
            && first_entry(*doc, v@) == k as int,
        r is None ==> forall|k: int| 0 <= k < doc.versions@.len() ==> doc.versions@[k].0@ != v@,
{
    let mut i: usize = 0;
    while i < doc.versions.len()
        invariant
            0 <= i <= doc.versions@.len(),
            forall|k: int| 0 <= k < i ==> doc.versions@[k].0@ != v@,
            first_entry(*doc, v@) == first_entry_from(*doc, v@, i as int),
        decreases doc.versions@.len() - i,
    {
        if doc.versions[i].0 == *v {
            return Some(i);
        }
        i = i + 1;
    }
    None
}

/// Plans the install of `(name, range)` from its registry document.
pub fn plan_install(doc: &RegistryPackage, name: &String, range: &String) -> (r: Result<
    InstallTask,
    RefreshError,
>)
    ensures
        task_ok(*doc, name@, range@, r),
{
    let rg = match VersionRange::parse(range.as_str()) {
        Some(rg) => rg,
        None => {
            return Err(RefreshError::InvalidRange { name: name.clone(), range: range.clone() });
        },
    };
    let keys = version_keys(doc);
    assert(texts(keys@).len() == keys_of(*doc).len());
    match get_max_compatible_version(&rg, &keys) {
        None => {
            proof {
                assert forall|j: int| 0 <= j < doc.versions@.len() implies !admits(range@, #[trigger] doc.versions@[j].0@) by {
                    assert(texts(keys@)[j] == keys@[j]@);
                    assert(keys_of(*doc)[j] == doc.versions@[j].0@);
                }
            }
            Err(RefreshError::NoCompatibleVersion { name: name.clone(), range: range.clone() })
        },
        Some(best) => {
            proof {
                assert(texts(keys@) == keys_of(*doc));
                let i = choose|i: int| 0 <= i < keys_of(*doc).len() && keys_of(*doc)[i] == best@;
                assert(doc.versions@[i].0@ == best@);
            }
            match find_version(doc, &best) {
                Some(k) => {
                    let tarball = doc.versions[k].1.dist.tarball.clone();
                    Ok(InstallTask { name: name.clone(), version: best, tarball })
                },
                None => {
                    proof {
                        let i = choose|i: int| 0 <= i < keys_of(*doc).len() && keys_of(*doc)[i] == best@;
                        assert(doc.versions@[i].0@ == best@);
                    }
                    Err(RefreshError::NoCompatibleVersion { name: name.clone(), range: range.clone() })
                },
            }
        },
    }
}

/// Plans the install of each declared dependency of `pkg`, `docs[i]` being
/// the registry document of its `i`-th dependency. Each dependency gets its
/// own result, so that one failure leaves the others standing.
pub fn refresh(pkg: &Package, docs: &Vec<RegistryPackage>) -> (r: Vec<Result<InstallTask, RefreshError>>)
    requires
        docs@.len() == deps_of(*pkg).len(),
    ensures
        r@.len() == deps_of(*pkg).len(),
        forall|i: int|
            0 <= i < r@.len() ==> task_ok(docs@[i], deps_of(*pkg)[i].0, deps_of(*pkg)[i].1, #[trigger] r@[i]),
{
    let mut out: Vec<Result<InstallTask, RefreshError>> = Vec::new();
    match &pkg.dependencies {
        None => out,
        Some(deps) => {
            let mut i: usize = 0;
            while i < deps.len()
                invariant
                    0 <= i <= deps@.len(),
                    pkg.dependencies == Some(*deps),
                    docs@.len() == deps@.len(),
                    out@.len() == i,
                    forall|j: int|
                        0 <= j < i ==> task_ok(docs@[j], deps_of(*pkg)[j].0, deps_of(*pkg)[j].1, #[trigger] out@[j]),
                decreases deps@.len() - i,
            {
                assert(deps_of(*pkg)[i as int] == pair_view(deps@[i as int]));
                let t = plan_install(&docs[i], &deps[i].0, &deps[i].1);
                out.push(t);
                i = i + 1;
            }
            out
        },
    }
}

// ---- metadata walk ----

/// The first document of `docs` that is about `name`.
pub open spec fn doc_index(docs: Seq<RegistryPackage>, name: Seq<char>) -> Option<int>
    decreases docs.len(),
{
    if docs.len() == 0 {
        None
    } else {
        match doc_index(docs.drop_last(), name) {
            Some(i) => Some(i),
            None => if docs.last().name@ == name {
                Some(docs.len() - 1)
            } else {
                None
            },
        }
    }
}

pub open spec fn pairs(v: Seq<(String, String)>) -> Seq<(Seq<char>, Seq<char>)> {
    v.map_values(|x: (String, String)| pair_view(x))
}

/// The dependencies that a published version declares.
pub open spec fn version_deps(v: RegistryPackageVersion) -> Seq<(Seq<char>, Seq<char>)> {
    match v.dependencies {
        Some(d) => pairs(d@),
        None => Seq::empty(),
    }
}

pub open spec fn picked_here(w: MetadataWalk, p: int, name: Seq<char>, v: Seq<char>) -> bool {
    w.edges@[p].0@ == name && match w.picked@[p] {
        Some(t) => t.0@ == v,
        None => false,
    }
}

/// Whether the edge `p` or one of the edges that queued it picked version
/// `v` of `name`: queuing the dependencies of that pair again would loop.
pub open spec fn on_chain(w: MetadataWalk, p: int, name: Seq<char>, v: Seq<char>) -> bool
    decreases p,
{
    if p < 0 || p >= w.picked@.len() || p >= w.parents@.len() {
        false
    } else {
        picked_here(w, p, name, v) || match w.parents@[p] {
            Some(q) => if q < p {
                on_chain(w, q as int, name, v)
            } else {
                false
            },
            None => false,
        }
    }
}

/// The walk moved past its next edge `(name, range)` by picking `v`, the
/// greatest version that the range admits, with the archive of its first
/// entry: its dependencies are queued under this edge unless `(name, v)`
/// already sits on the chain of edges that led here.
pub open spec fn progressed(before: MetadataWalk, after: MetadataWalk, v: Seq<char>) -> bool {
    let n = before.next as int;
    let e = before.edges@[n];
    let doc = before.docs@[doc_index(before.docs@, e.0@).unwrap()];
    let up = match before.parents@[n] {
        Some(q) => q as int,
        None => -1,
    };
    &&& is_max_admitted(e.1@, keys_of(doc), v)
    &&& after.picked@.len() == before.picked@.len() + 1
    &&& after.picked@.subrange(0, n) == before.picked@
    &&& after.picked@[n] is Some
    &&& after.picked@[n]->Some_0.0@ == v
    &&& after.picked@[n]->Some_0.1@ == doc.versions@[first_entry(doc, v)].1.dist.tarball@
    &&& if on_chain(before, up, e.0@, v) {
        after.edges == before.edges && after.parents == before.parents
    } else {
        &&& pairs(after.edges@) == pairs(before.edges@) + deps_of_version(doc, v)
        &&& after.parents@ == before.parents@ + Seq::new(deps_of_version(doc, v).len(), |k: int| Some(before.next))
    }
}

/// What the walk asks of its driver.
pub enum WalkStep {
    /// Fetch the registry document of this package and hand it to `supply`.
    Need(String),
    Progress,
    Done,
}

/// Resolves a set of dependency edges to versions, gathering the registry
/// documents they need. Edges are taken in the order they were queued: the
/// document of a name is fetched once, the greatest admitted version is
/// picked, and the dependencies of that version are queued as edges under
/// this one. `parents[e]` is the edge that queued edge `e`, and `picked[e]`
/// the version and archive picked for it (`None` where it failed).
pub struct MetadataWalk {
    pub edges: Vec<(String, String)>,
    pub parents: Vec<Option<usize>>,
    pub next: usize,
    pub docs: Vec<RegistryPackage>,
    pub picked: Vec<Option<(String, String)>>,
}

impl MetadataWalk {
    pub open spec fn wf(&self) -> bool {
        &&& self.parents@.len() == self.edges@.len()
        &&& self.picked@.len() == self.next
        &&& self.next <= self.edges@.len()
        &&& forall|e: int|
            0 <= e < self.parents@.len() ==> (#[trigger] self.parents@[e] matches Some(q) ==> q < e)
    }
}

/// The walk for `name` at `range`, before anything was fetched.
pub fn fetch_all_metadata(name: &String, range: &String) -> (r: MetadataWalk)
    ensures
        r.wf(),
        pairs(r.edges@) == seq![(name@, range@)],
        r.parents@ == seq![None::<usize>],
        r.next == 0,
        r.docs@.len() == 0,
{
    let mut edges: Vec<(String, String)> = Vec::new();
    edges.push((name.clone(), range.clone()));
    let mut parents: Vec<Option<usize>> = Vec::new();
    parents.push(None);
    assert(pairs(edges@) =~= seq![(name@, range@)]);
    assert(parents@ =~= seq![None::<usize>]);
    MetadataWalk { edges, parents, next: 0, docs: Vec::new(), picked: Vec::new() }
}

/// The walk for the declared dependencies of `pkg`.
pub fn resolve_package(pkg: &Package) -> (r: MetadataWalk)
    ensures
        r.wf(),
        pairs(r.edges@) == deps_of(*pkg),
        forall|e: int| 0 <= e < r.parents@.len() ==> r.parents@[e] is None,
        r.next == 0,
        r.docs@.len() == 0,
{
    let mut edges: Vec<(String, String)> = Vec::new();
    let mut parents: Vec<Option<usize>> = Vec::new();
    match &pkg.dependencies {
        None => {
            assert(pairs(edges@) =~= deps_of(*pkg));
        },
        Some(deps) => {
            let mut j: usize = 0;
            while j < deps.len()
                invariant
                    0 <= j <= deps@.len(),
                    parents@.len() == edges@.len(),
                    forall|e: int| 0 <= e < parents@.len() ==> parents@[e] is None,
                    pairs(edges@) == pairs(deps@.subrange(0, j as int)),
                decreases deps@.len() - j,
            {
                let ghost prev = edges@;
                let item = (deps[j].0.clone(), deps[j].1.clone());
                edges.push(item);
                parents.push(None);
                assert(pairs(edges@) =~= pairs(prev).push(pair_view(item)));
                assert(pairs(deps@.subrange(0, j + 1)) =~= pairs(deps@.subrange(0, j as int)).push(
                    pair_view(deps@[j as int]),
                ));
                j = j + 1;
            }
            assert(deps@.subrange(0, deps@.len() as int) =~= deps@);
        },
    }
    MetadataWalk { edges, parents, next: 0, docs: Vec::new(), picked: Vec::new() }
}

fn find_doc(docs: &Vec<RegistryPackage>, name: &String) -> (r: Option<usize>)
    ensures
        r matches Some(i) ==> doc_index(docs@, name@) == Some(i as int) && i < docs@.len(),
        r is None ==> doc_index(docs@, name@) is None,
{
    let mut i: usize = 0;
    assert(docs@.subrange(0, 0) =~= Seq::<RegistryPackage>::empty());
    while i < docs.len()
        invariant
            0 <= i <= docs@.len(),
            doc_index(docs@.subrange(0, i as int), name@) is None,
        decreases docs@.len() - i,
    {
        let ghost pre = docs@.subrange(0, i + 1);
        assert(pre.drop_last() =~= docs@.subrange(0, i as int));
        if docs[i].name == *name {
            proof {
                lemma_doc_index_prefix(docs@, i as int + 1, name@);
            }
            return Some(i);
        }
        i = i + 1;
    }
    assert(docs@.subrange(0, docs@.len() as int) =~= docs@);
    None
}

proof fn lemma_doc_index_prefix(docs: Seq<RegistryPackage>, n: int, name: Seq<char>)
    requires
        0 <= n <= docs.len(),
        doc_index(docs.subrange(0, n), name) is Some,
    ensures
        doc_index(docs, name) == doc_index(docs.subrange(0, n), name),
    decreases docs.len() - n,
{
    if n < docs.len() {
        let m = n + 1;
        assert(docs.subrange(0, m).drop_last() =~= docs.subrange(0, n));
        lemma_doc_index_prefix(docs, m, name);
    } else {
        assert(docs.subrange(0, n) =~= docs);
    }
}

impl MetadataWalk {
    /// Hands over the document asked for by `Need`; a second document about
    /// the same package is ignored.
    pub fn supply(&mut self, doc: RegistryPackage)
        ensures
            final(self).edges == old(self).edges,
            final(self).next == old(self).next,
            final(self).parents == old(self).parents,
            final(self).picked == old(self).picked,
            doc_index(old(self).docs@, doc.name@) is None ==> final(self).docs@ == old(self).docs@.push(
                doc,
            ),
            doc_index(old(self).docs@, doc.name@) is Some ==> final(self).docs@ == old(self).docs@,
    {
        match find_doc(&self.docs, &doc.name) {
            Some(_) => {},
            None => {
                self.docs.push(doc);
            },
        }
    }

    /// The document gathered for `name`.
    pub fn document(&self, name: &String) -> (r: Option<&RegistryPackage>)
        ensures
            r is None <==> doc_index(self.docs@, name@) is None,
            r matches Some(d) ==> doc_index(self.docs@, name@) matches Some(i) && *d == self.docs@[i],
    {
        match find_doc(&self.docs, name) {
            Some(i) => Some(&self.docs[i]),
            None => None,
        }
    }

    /// Whether edge `p` or an edge that queued it picked `v` of `name`.
    fn chain_has(&self, start: Option<usize>, name: &String, v: &String) -> (r: bool)
        requires
            self.wf(),
            start matches Some(p) ==> p < self.picked@.len(),
        ensures
            r == on_chain(*self, match start { Some(p) => p as int, None => -1 }, name@, v@),
    {
        let mut cur = start;
        while cur.is_some()
            invariant
                self.wf(),
                cur matches Some(p) ==> p < self.picked@.len(),
                on_chain(*self, match start { Some(p) => p as int, None => -1 }, name@, v@) == on_chain(
                    *self,
                    match cur { Some(p) => p as int, None => -1 },
                    name@,
                    v@,
                ),
            decreases match cur { Some(p) => p + 1, None => 0 },
        {
            let p = match cur {
                Some(p) => p,
                None => 0,
            };
            let hit = match &self.picked[p] {
                Some(t) => self.edges[p].0 == *name && t.0 == *v,
                None => false,
            };
            if hit {
                return true;
            }
            cur = match self.parents[p] {
                Some(q) => if q < p {
                    Some(q)
                } else {
                    None
                },
                None => None,
            };
        }
        false
    }

    /// Takes the next edge. Asks for a document that is missing, without
    /// moving on; otherwise picks the version and moves on, queuing the
    /// dependencies of that version under this edge unless the same pair
    /// sits on the chain of edges that led here.
    pub fn step(&mut self) -> (r: Result<WalkStep, RefreshError>)
        requires
            old(self).wf(),
        ensures
            final(self).wf(),
            final(self).docs == old(self).docs,
            old(self).next >= old(self).edges@.len() ==> (r matches Ok(WalkStep::Done))
                && *final(self) == *old(self),
            r matches Ok(WalkStep::Done) ==> old(self).next >= old(self).edges@.len(),
            r matches Ok(WalkStep::Need(n)) ==> {
                &&& old(self).next < old(self).edges@.len()
                &&& n@ == old(self).edges@[old(self).next as int].0@
                &&& doc_index(old(self).docs@, n@) is None
                &&& *final(self) == *old(self)
            },
            r matches Ok(WalkStep::Progress) ==> {
                &&& final(self).next == old(self).next + 1
                &&& old(self).next < old(self).edges@.len()
                &&& doc_index(old(self).docs@, old(self).edges@[old(self).next as int].0@) is Some
                &&& exists|v: Seq<char>| #[trigger] progressed(*old(self), *final(self), v)
            },
            r is Err ==> {
                &&& final(self).next == old(self).next + 1
                &&& final(self).edges == old(self).edges
                &&& final(self).parents == old(self).parents
                &&& final(self).picked@ == old(self).picked@.push(None)
            },
            old(self).next < old(self).edges@.len() ==> {
                let e = old(self).edges@[old(self).next as int];
                match doc_index(old(self).docs@, e.0@) {
                    None => r matches Ok(WalkStep::Need(_)),
                    Some(i) => {
                        let doc = old(self).docs@[i];
                        &&& !range_parses(e.1@) ==> (r matches Err(
                            RefreshError::InvalidRange { name: n, range: g },
                        ) && n@ == e.0@ && g@ == e.1@)
                        &&& range_parses(e.1@) && !has_admitted(doc, e.1@) ==> (r matches Err(
                            RefreshError::NoCompatibleVersion { name: n, range: g },
                        ) && n@ == e.0@ && g@ == e.1@)
                        &&& range_parses(e.1@) && has_admitted(doc, e.1@) ==> (r matches Ok(
                            WalkStep::Progress,
                        ))
                    },
                }
            },
    {
        if self.next >= self.edges.len() {
            return Ok(WalkStep::Done);
        }
        let n = self.next;
        let name = self.edges[n].0.clone();
        let range = self.edges[n].1.clone();
        let i = match find_doc(&self.docs, &name) {
            Some(i) => i,
            None => {
                return Ok(WalkStep::Need(name));
            },
        };
        let task = plan_install(&self.docs[i], &name, &range);
        let task = match task {
            Ok(t) => t,
            Err(e) => {
                self.picked.push(None);
                self.next = n + 1;
                return Err(e);
            },
        };
        let ghost doc = self.docs@[i as int];
        assert(is_max_admitted(range@, keys_of(doc), task.version@));
        proof {
            let k = choose|k: int|
                0 <= k < doc.versions@.len() && doc.versions@[k].0@ == task.version@
                    && doc.versions@[k].1.dist.tarball@ == task.tarball@;
        }
        let k = match find_version(&self.docs[i], &task.version) {
            Some(k) => k,
            None => {
                proof {
                    let k = choose|k: int|
                        0 <= k < doc.versions@.len() && doc.versions@[k].0@ == task.version@
                            && doc.versions@[k].1.dist.tarball@ == task.tarball@;
                    assert(false);
                }
                return Err(RefreshError::NoCompatibleVersion { name, range });
            },
        };
        let up = self.parents[n];
        let looped = match up {
            Some(q) => {
                if q < n {
                    self.chain_has(Some(q), &name, &task.version)
                } else {
                    false
                }
            },
            None => false,
        };
        proof {
            if let Some(q) = up {
                assert(q < n);
            }
        }
        let ghost w0 = *self;
        let ghost before = self.edges@;
        let ghost parents0 = self.parents@;
        if !looped {
            match &self.docs[i].versions[k].1.dependencies {
                Some(deps) => {
                    let mut j: usize = 0;
                    while j < deps.len()
                        invariant
                            0 <= j <= deps@.len(),
                            self.docs == w0.docs,
                            self.next == n,
                            self.picked == w0.picked,
                            n < before.len(),
                            w0.wf(),
                            self.parents@.len() == self.edges@.len(),
                            pairs(self.edges@) == pairs(before) + pairs(deps@.subrange(0, j as int)),
                            self.parents@ == parents0 + Seq::new(j as nat, |x: int| Some(n)),
                        decreases deps@.len() - j,
                    {
                        let ghost prev = self.edges@;
                        let ghost prevp = self.parents@;
                        let item = (deps[j].0.clone(), deps[j].1.clone());
                        self.edges.push(item);
                        self.parents.push(Some(n));
                        assert(pairs(self.edges@) =~= pairs(prev).push(pair_view(item)));
                        assert(pairs(deps@.subrange(0, j + 1)) =~= pairs(deps@.subrange(0, j as int)).push(
                            pair_view(deps@[j as int]),
                        ));
                        assert(self.parents@ =~= parents0 + Seq::new((j + 1) as nat, |x: int| Some(n)));
                        j = j + 1;
                    }
                    assert(deps@.subrange(0, deps@.len() as int) =~= deps@);
                    assert(deps_of_version(doc, task.version@) == pairs(deps@));
                },
                None => {
                    assert(deps_of_version(doc, task.version@) == Seq::<(Seq<char>, Seq<char>)>::empty());
                    assert(pairs(self.edges@) =~= pairs(before) + Seq::<(Seq<char>, Seq<char>)>::empty());
                    assert(self.parents@ =~= parents0 + Seq::new(0, |x: int| Some(n)));
                },
            }
        }
        let tarball = self.docs[i].versions[k].1.dist.tarball.clone();
        let ghost picked = task.version@;
        let ghost tb = tarball@;
        self.picked.push(Some((task.version, tarball)));
        self.next = n + 1;
        proof {
            let e = old(self).edges@[n as int];
            assert(e.0@ == name@ && e.1@ == range@);
            assert(doc_index(old(self).docs@, e.0@) == Some(i as int));
            assert(self.picked@.subrange(0, n as int) =~= old(self).picked@);
            assert(forall|x: int| 0 <= x < self.parents@.len() ==> (#[trigger] self.parents@[x] matches Some(q) ==> q < x)) by {
                assert forall|x: int| 0 <= x < self.parents@.len() implies (#[trigger] self.parents@[x] matches Some(q) ==> q < x) by {
                    if x >= parents0.len() {
                        assert(self.parents@[x] == Some(n));
                    } else {
                        assert(self.parents@[x] == parents0[x]);
                    }
                }
            }
            assert(progressed(*old(self), *self, picked));
        }
        Ok(WalkStep::Progress)
    }
}

/// The names from a top edge down to edge `e`: the package of edge `e`
/// is installed at `node_modules/<n1>/node_modules/<n2>/...` of the project.
pub open spec fn path_of(w: MetadataWalk, e: int) -> Seq<Seq<char>>
    decreases e,
{
    if e < 0 || e >= w.edges@.len() || e >= w.parents@.len() {
        Seq::empty()
    } else {
        let own = seq![w.edges@[e].0@];
        match w.parents@[e] {
            Some(q) => if q < e {
                path_of(w, q as int) + own
            } else {
                own
            },
            None => own,
        }
    }
}

/// A resolved package and where it goes below the project.
pub struct PlacedTask {
    pub path: Vec<String>,
    pub name: String,
    pub version: String,
    pub tarball: String,
}

fn copy_names(v: &Vec<String>) -> (r: Vec<String>)
    ensures
        texts(r@) == texts(v@),
{
    let mut r: Vec<String> = Vec::new();
    let mut i: usize = 0;
    while i < v.len()
        invariant
            0 <= i <= v@.len(),
            texts(r@) == texts(v@).subrange(0, i as int),
        decreases v@.len() - i,
    {
        let ghost before = r@;
        let s = v[i].clone();
        r.push(s);
        assert(texts(r@) =~= texts(before).push(s@));
        assert(texts(r@) =~= texts(v@).subrange(0, i + 1));
        i = i + 1;
    }
    assert(texts(v@).subrange(0, v@.len() as int) =~= texts(v@));
    r
}

impl MetadataWalk {
    /// The install path of every edge, as names from the top.
    pub fn paths(&self) -> (r: Vec<Vec<String>>)
        requires
            self.wf(),
        ensures
            r@.len() == self.edges@.len(),
            forall|e: int| 0 <= e < r@.len() ==> texts(#[trigger] r@[e]@) == path_of(*self, e),
    {
        let mut r: Vec<Vec<String>> = Vec::new();
        let mut e: usize = 0;
        while e < self.edges.len()
            invariant
                self.wf(),
                0 <= e <= self.edges@.len(),
                r@.len() == e,
                forall|x: int| 0 <= x < e ==> texts(#[trigger] r@[x]@) == path_of(*self, x),
            decreases self.edges@.len() - e,
        {
            let mut p: Vec<String> = match self.parents[e] {
                Some(q) => if q < e {
                    copy_names(&r[q])
                } else {
                    Vec::new()
                },
                None => Vec::new(),
            };
            let ghost base = texts(p@);
            let s = self.edges[e].0.clone();
            p.push(s);
            proof {
                assert(texts(p@) =~= base.push(s@));
                assert(texts(p@) =~= base + seq![self.edges@[e as int].0@]);
                if let Some(q) = self.parents@[e as int] {
                    if q < e {
                        assert(base == path_of(*self, q as int));
                    } else {
                        assert(base =~= Seq::<Seq<char>>::empty());
                    }
                } else {
                    assert(base =~= Seq::<Seq<char>>::empty());
                }
            }
            r.push(p);
            e = e + 1;
        }
        r
    }

    /// The install plan of every edge taken so far: `Some` for each edge
    /// that got a version, with that version, its archive, and the path of
    /// the edge.
    pub fn placements(&self) -> (r: Vec<Option<PlacedTask>>)
        requires
            self.wf(),
        ensures
            r@.len() == self.next,
            forall|e: int| 0 <= e < r@.len() ==> (#[trigger] r@[e] is Some <==> self.picked@[e] is Some),
            forall|e: int| 0 <= e < r@.len() ==> (#[trigger] r@[e] matches Some(t) ==> {
                &&& texts(t.path@) == path_of(*self, e)
                &&& t.name@ == self.edges@[e].0@
                &&& t.version@ == self.picked@[e]->Some_0.0@
                &&& t.tarball@ == self.picked@[e]->Some_0.1@
            }),
    {
        let all = self.paths();
        let mut r: Vec<Option<PlacedTask>> = Vec::new();
        let mut e: usize = 0;
        while e < self.next
            invariant
                self.wf(),
                0 <= e <= self.next,
                all@.len() == self.edges@.len(),
                forall|x: int| 0 <= x < all@.len() ==> texts(#[trigger] all@[x]@) == path_of(*self, x),
                r@.len() == e,
                forall|x: int| 0 <= x < e ==> (#[trigger] r@[x] is Some <==> self.picked@[x] is Some),
                forall|x: int| 0 <= x < e ==> (#[trigger] r@[x] matches Some(t) ==> {
                    &&& texts(t.path@) == path_of(*self, x)
                    &&& t.name@ == self.edges@[x].0@
                    &&& t.version@ == self.picked@[x]->Some_0.0@
                    &&& t.tarball@ == self.picked@[x]->Some_0.1@
                }),
            decreases self.next - e,
        {
            let item = match &self.picked[e] {
                Some(t) => Some(
                    PlacedTask {
                        path: copy_names(&all[e]),
                        name: self.edges[e].0.clone(),
                        version: t.0.clone(),
                        tarball: t.1.clone(),
                    },
                ),
                None => None,
            };
            r.push(item);
            e = e + 1;
        }
        r
    }
}

} // verus!
