//! Lockfiles of either package manager behind one face: the resolved graph, and what a
//! package's declared dependency resolves to.
use crate::graph::{
    flat, key_of, limit_hit, materialized, nests_too_deep, overrides, placed, tells_of,
    EntryView, NestingLimit, PackageView, Packages,
};
use crate::npm::{npm_entries, npm_graph, npm_package, npm_packages, npm_resolution, NpmEntries};
use crate::json::{json_document, yaml_document};
use crate::package_json::{ManifestView, PackageManifest};
use crate::pnpm::{
    pnpm_graph, pnpm_package, pnpm_packages, pnpm_resolution, pnpm_sections, PnpmView,
};
use crate::sorted::{listing, StrMap};
use crate::text::{same, texts};
use vstd::prelude::*;

pub use crate::graph::{
    entries_agree_where_comparable, graph_key, Disagreement, ResolvedGraph, ResolvedPackage,
    TransitiveEntry,
};
pub use crate::npm::NpmLockfile;
pub use crate::pnpm::{split_pnpm_key, PnpmLockfile};
pub use crate::resolution::{DepResolution, LockfileError, ResolutionView};

verus! {

/// The package manager that a workspace uses.
#[derive(Clone, Copy, PartialEq, Eq, Structural, Debug)]
pub enum PkgManager {
    Npm,
    Pnpm,
}

/// A parsed lockfile.
#[derive(Debug)]
pub enum Lockfile {
    Npm(NpmLockfile),
    Pnpm(PnpmLockfile),
}

/// A lockfile as mathematical values.
pub enum LockView {
    Npm(NpmEntries),
    Pnpm(PnpmView),
}

impl View for Lockfile {
    type V = LockView;

    open spec fn view(&self) -> LockView {
        match self {
            Lockfile::Npm(l) => LockView::Npm(l@),
            Lockfile::Pnpm(l) => LockView::Pnpm(l@),
        }
    }
}

/// The lockfile that a text spells for a package manager; nothing when it spells none.
pub open spec fn lock_of(pkgmanager: PkgManager, contents: Seq<char>) -> Option<LockView> {
    match pkgmanager {
        PkgManager::Npm => match json_document(contents) {
            None => None,
            Some(t) => match npm_entries(t) {
                None => None,
                Some(es) => Some(LockView::Npm(es)),
            },
        },
        PkgManager::Pnpm => match yaml_document(contents) {
            None => None,
            Some(t) => match pnpm_sections(t) {
                None => None,
                Some(l) => if l.importers.dom() == Set::<Seq<char>>::empty() {
                    None
                } else {
                    Some(LockView::Pnpm(l))
                },
            },
        },
    }
}

/// What `name` resolves to when the package at `from` declares it.
pub open spec fn lock_resolution(l: LockView, from: Seq<char>, name: Seq<char>) -> Option<
    ResolutionView,
> {
    match l {
        LockView::Npm(es) => npm_resolution(es, from, name),
        LockView::Pnpm(s) => pnpm_resolution(s, from, name),
    }
}

/// The resolved graph of a lockfile; nothing when it disagrees with itself.
pub open spec fn lock_graph(l: LockView) -> Option<Packages> {
    match l {
        LockView::Npm(es) => npm_graph(es),
        LockView::Pnpm(s) => pnpm_graph(s),
    }
}

/// The package entries of a lockfile, in the order of their keys.
pub open spec fn lock_packages(l: LockView) -> Seq<PackageView> {
    match l {
        LockView::Npm(es) => npm_packages(es, listing(es.dom())),
        LockView::Pnpm(s) => pnpm_packages(s, listing(s.packages.dom())),
    }
}

/// The package entry of a lockfile at a key.
pub open spec fn lock_package(l: LockView, at: Seq<char>) -> Option<PackageView> {
    match l {
        LockView::Npm(es) => npm_package(es, at),
        LockView::Pnpm(s) => pnpm_package(s, at),
    }
}

impl Lockfile {
    /// Reads a lockfile of the format that the package manager uses.
    pub fn parse(pkgmanager: PkgManager, contents: &str) -> (r: Result<Self, LockfileError>)
        ensures
            r is Ok <==> lock_of(pkgmanager, contents@) is Some,
            r matches Ok(l) ==> lock_of(pkgmanager, contents@) == Some(l@),
            r matches Err(e) ==> (e is NoImporters <==> pkgmanager is Pnpm && (yaml_document(
                contents@,
            ) matches Some(t) && pnpm_sections(t) is Some)),
            r matches Err(e) ==> (e is NotADocument <==> (match pkgmanager {
                PkgManager::Npm => json_document(contents@) is None,
                PkgManager::Pnpm => yaml_document(contents@) is None,
            })),
    {
        match pkgmanager {
            PkgManager::Npm => match NpmLockfile::parse(contents) {
                Ok(l) => Ok(Lockfile::Npm(l)),
                Err(e) => Err(e),
            },
            PkgManager::Pnpm => match PnpmLockfile::parse(contents) {
                Ok(l) => Ok(Lockfile::Pnpm(l)),
                Err(e) => Err(e),
            },
        }
    }

    /// The file name of a package manager's lockfile.
    pub fn filename(pkgmanager: PkgManager) -> (r: &'static str)
        ensures
            r@ == (match pkgmanager {
                PkgManager::Npm => "package-lock.json"@,
                PkgManager::Pnpm => "pnpm-lock.yaml"@,
            }),
    {
        match pkgmanager {
            PkgManager::Npm => "package-lock.json",
            PkgManager::Pnpm => "pnpm-lock.yaml",
        }
    }

    /// The resolved graph of the lockfile.
    pub fn resolved_graph(&self) -> (r: Result<ResolvedGraph, Disagreement>)
        ensures
            r is Ok <==> lock_graph(self@) is Some,
            r matches Ok(g) ==> lock_graph(self@) == Some(g@),
            r matches Err(e) ==> (lock_package(self@, e.at@) matches Some(p) && p.name == e.name@
                && p.version == e.version@),
            r matches Err(e) ==> tells_of(e, lock_packages(self@)),
    {
        match self {
            Lockfile::Npm(l) => l.resolved_graph(),
            Lockfile::Pnpm(l) => l.resolved_graph(),
        }
    }

    /// What `name` resolves to when the package at `from_pkg` declares it; nothing when the
    /// lockfile has no resolution for it from there.
    pub fn resolve_dependency(&self, from_pkg: &str, name: &str) -> (r: Option<DepResolution>)
        ensures
            r is Some <==> lock_resolution(self@, from_pkg@, name@) is Some,
            r matches Some(d) ==> lock_resolution(self@, from_pkg@, name@) == Some(d@),
    {
        match self {
            Lockfile::Npm(l) => l.resolve_dependency(from_pkg, name),
            Lockfile::Pnpm(l) => l.resolve_dependency(from_pkg, name),
        }
    }
}

/// The names that a manifest declares: dependencies, then development dependencies, then peer
/// dependencies, each in order.
pub open spec fn declared_names(m: ManifestView) -> Seq<Seq<char>> {
    listing(m.dependencies.dom()) + listing(m.dev_dependencies.dom()) + listing(
        m.peer_dependencies.dom(),
    )
}

/// The graph keys of those of `names` that the lockfile resolves to a third-party package.
pub open spec fn third_party_keys(l: LockView, from: Seq<char>, names: Seq<Seq<char>>) -> Seq<
    Seq<char>,
>
    decreases names.len(),
{
    if names.len() == 0 {
        Seq::empty()
    } else {
        let before = third_party_keys(l, from, names.drop_last());
        match lock_resolution(l, from, names.last()) {
            Some(ResolutionView::ThirdParty { name, version }) => before.push(
                key_of(name, version),
            ),
            _ => before,
        }
    }
}

/// The graph keys of a manifest's own direct dependencies.
pub open spec fn seed_keys(l: LockView, from: Seq<char>, m: ManifestView) -> Seq<Seq<char>> {
    third_party_keys(l, from, declared_names(m))
}

/// Adds the graph keys of those of the names that resolve to a third-party package.
fn push_seed_keys(
    lockfile: &Lockfile,
    from_pkg: &str,
    names: &StrMap<String>,
    keys: &mut Vec<String>,
    before: Ghost<Seq<Seq<char>>>,
)
    requires
        texts(old(keys)@) == third_party_keys(lockfile@, from_pkg@, before@),
    ensures
        texts(final(keys)@) == third_party_keys(
            lockfile@,
            from_pkg@,
            before@ + listing(names@.dom()),
        ),
{
    names.facts();
    let ghost all = names.keys();
    let mut i: usize = 0;
    let n: usize = names.len();
    assert(before@ + all.take(0) =~= before@);
    while i < n
        invariant
            i <= n == all.len(),
            all == names.keys(),
            listing(names@.dom()) == all,
            texts(keys@) == third_party_keys(lockfile@, from_pkg@, before@ + all.take(i as int)),
        decreases n - i,
    {
        let name = names.key_at(i);
        proof {
            let t = before@ + all.take(i + 1);
            assert(t.drop_last() =~= before@ + all.take(i as int));
            assert(t.last() == name@);
        }
        let ghost was = texts(keys@);
        if let Some(DepResolution::ThirdParty { name, version }) = lockfile.resolve_dependency(
            from_pkg,
            name.as_str(),
        ) {
            keys.push(graph_key(name.as_str(), version.as_str()));
            assert(texts(keys@) =~= was.push(key_of(name@, version@)));
        }
        i = i + 1;
    }
    assert(all.take(i as int) =~= all);
}

/// The graph keys of the manifest's own direct dependencies, as the lockfile resolves them.
pub fn direct_dep_seed_keys(
    lockfile: &Lockfile,
    from_pkg: &str,
    manifest: &PackageManifest,
) -> (r: Vec<String>)
    ensures
        texts(r@) == seed_keys(lockfile@, from_pkg@, manifest@),
{
    let mut keys: Vec<String> = Vec::new();
    let ghost d = listing(manifest@.dependencies.dom());
    let ghost v = listing(manifest@.dev_dependencies.dom());
    assert(texts(keys@) =~= Seq::<Seq<char>>::empty());
    push_seed_keys(lockfile, from_pkg, &manifest.dependencies, &mut keys, Ghost(Seq::empty()));
    assert(Seq::<Seq<char>>::empty() + d =~= d);
    push_seed_keys(lockfile, from_pkg, &manifest.dev_dependencies, &mut keys, Ghost(d));
    push_seed_keys(lockfile, from_pkg, &manifest.peer_dependencies, &mut keys, Ghost(d + v));
    keys
}

/// What a name resolves to for a package: its direct resolution, or else the flat package of
/// that name among everything reachable from its direct dependencies.
pub open spec fn transitive_resolution(
    l: LockView,
    g: Packages,
    from: Seq<char>,
    m: ManifestView,
    name: Seq<char>,
    os: Seq<char>,
    arch: Seq<char>,
) -> Option<ResolutionView> {
    match lock_resolution(l, from, name) {
        Some(d) => Some(d),
        None => {
            let fm = flat(g, os, arch, seed_keys(l, from, m));
            if fm.dom().contains(name) {
                Some(ResolutionView::ThirdParty { name, version: g[fm[name]].version })
            } else {
                None
            }
        },
    }
}

/// Whether the search behind a name that has no direct resolution nests too deep.
pub open spec fn resolution_too_deep(
    l: LockView,
    g: Packages,
    from: Seq<char>,
    m: ManifestView,
    name: Seq<char>,
    os: Seq<char>,
    arch: Seq<char>,
) -> bool {
    lock_resolution(l, from, name) is None && nests_too_deep(
        g,
        flat(g, os, arch, seed_keys(l, from, m)),
        os,
        arch,
    )
}

/// What `name` resolves to for the package at `from_pkg`: its direct resolution when there is
/// one, otherwise the flat package of that name reachable from the manifest's own direct
/// dependencies.
pub fn resolve_transitive(
    lockfile: &Lockfile,
    resolved_graph: &ResolvedGraph,
    from_pkg: &str,
    manifest: &PackageManifest,
    name: &str,
    os: &str,
    arch: &str,
) -> (r: Result<Option<DepResolution>, NestingLimit>)
    ensures
        r is Err <==> resolution_too_deep(
            lockfile@,
            resolved_graph@,
            from_pkg@,
            manifest@,
            name@,
            os@,
            arch@,
        ),
        r matches Ok(d) ==> transitive_resolution(
            lockfile@,
            resolved_graph@,
            from_pkg@,
            manifest@,
            name@,
            os@,
            arch@,
        ) == opt_resolution(d),
        r matches Err(e) ==> limit_hit(
            resolved_graph@,
            flat(resolved_graph@, os@, arch@, seed_keys(lockfile@, from_pkg@, manifest@)),
            os@,
            arch@,
            e,
        ),
{
    if let Some(direct) = lockfile.resolve_dependency(from_pkg, name) {
        return Ok(Some(direct));
    }
    let seeds = direct_dep_seed_keys(lockfile, from_pkg, manifest);
    let ghost g = resolved_graph@;
    let ghost fm = flat(g, os@, arch@, texts(seeds@));
    let entries = match resolved_graph.transitive_reachable(&seeds, os, arch) {
        Ok(entries) => entries,
        Err(e) => {
            return Err(e);
        },
    };
    let ghost ev = crate::graph::entry_views(entries@);
    let mut i: usize = 0;
    while i < entries.len()
        invariant
            i <= entries.len(),
            ev == crate::graph::entry_views(entries@),
            forall|e: EntryView| #[trigger] ev.contains(e) <==> materialized(g, fm, os@, arch@, e),
            g == resolved_graph@,
            fm == flat(g, os@, arch@, seed_keys(lockfile@, from_pkg@, manifest@)),
            lock_resolution(lockfile@, from_pkg@, name@) is None,
            !nests_too_deep(g, fm, os@, arch@),
            forall|k: int|
                0 <= k < i ==> !((#[trigger] ev[k]).nested_under.len() == 0 && ev[k].name == name@),
        decreases entries.len() - i,
    {
        let e = &entries[i];
        assert(ev[i as int] == e@);
        assert(ev.contains(e@));
        if e.nested_under.len() == 0 && same(e.name.as_str(), name) {
            assert(texts(e.nested_under@).len() == 0);
            return Ok(
                Some(
                    DepResolution::ThirdParty { name: e.name.clone(), version: e.version.clone() },
                ),
            );
        }
        i = i + 1;
    }
    proof {
        if fm.dom().contains(name@) {
            let e = EntryView {
                name: name@,
                version: g[fm[name@]].version,
                nested_under: Seq::empty(),
            };
            assert(materialized(g, fm, os@, arch@, e));
            assert(ev.contains(e));
        }
    }
    Ok(None)
}

/// The value of an optional resolution.
pub open spec fn opt_resolution(d: Option<DepResolution>) -> Option<ResolutionView> {
    match d {
        Some(d) => Some(d@),
        None => None,
    }
}

/// Every name that the closure of a manifest's dependencies holds resolves for that manifest.
pub proof fn closure_names_resolve(
    l: LockView,
    g: Packages,
    from: Seq<char>,
    m: ManifestView,
    e: EntryView,
    os: Seq<char>,
    arch: Seq<char>,
)
    requires
        materialized(g, flat(g, os, arch, seed_keys(l, from, m)), os, arch, e),
    ensures
        transitive_resolution(l, g, from, m, e.name, os, arch) is Some,
{
    let fm = flat(g, os, arch, seed_keys(l, from, m));
    if e.nested_under.len() > 0 {
        let (parent, key) = choose|parent: Seq<char>, key: Seq<char>|
            placed(g, fm, os, arch, parent, e.nested_under.drop_last()) && g[parent].name
                == e.nested_under.last() && #[trigger] overrides(
                g,
                fm,
                os,
                arch,
                parent,
                e.name,
                key,
            ) && e.version == g[key].version;
        assert(fm.dom().contains(e.name));
    }
}

/// A direct resolution is never replaced by a transitive one.
pub proof fn direct_resolution_wins(
    l: LockView,
    g: Packages,
    from: Seq<char>,
    m: ManifestView,
    name: Seq<char>,
    os: Seq<char>,
    arch: Seq<char>,
)
    requires
        lock_resolution(l, from, name) is Some,
    ensures
        transitive_resolution(l, g, from, m, name, os, arch) == lock_resolution(l, from, name),
{
}

} // verus!
