//! Wiring a package's declared dependencies to target addresses: a workspace sibling, found by
//! name, or a third-party package, resolved through the lockfile.
use crate::address_laws::each_flat_package_has_one_address;
use crate::graph::{
    entry_views, flat, key_of, limit_hit, materialized, nests_too_deep, EntryView, NestingLimit,
    Packages, TransitiveEntry,
};
use crate::lockfile::{
    direct_dep_seed_keys, lock_resolution, resolution_too_deep, resolve_transitive, seed_keys,
    transitive_resolution, DepResolution, LockView, Lockfile, ResolutionView, ResolvedGraph,
};
use crate::package_json::{ManifestView, PackageManifest};
use crate::platform::{applies_to, matches_platform};
use crate::sorted::{listing, StrMap};
use crate::text::{decimal, digits, join, joined, opt_text, texts};
use crate::thirdparty::{node_modules_addr, node_modules_text};
use vstd::prelude::*;

verus! {

/// One resolved dependency: the group of the manifest that declares it, its declared name and
/// the address that it is wired to.
#[derive(Debug)]
pub struct ResolvedDep {
    pub group: &'static str,
    pub name: String,
    pub addr: String,
}

/// A resolved dependency as mathematical values.
pub struct DepView {
    pub group: Seq<char>,
    pub name: Seq<char>,
    pub addr: Seq<char>,
}

impl View for ResolvedDep {
    type V = DepView;

    open spec fn view(&self) -> DepView {
        DepView { group: self.group@, name: self.name@, addr: self.addr@ }
    }
}

/// Why a dependency that the package `pkg` declares cannot be wired.
#[derive(Debug)]
pub enum DepsError {
    /// The search for it nests too deep.
    TooDeep { pkg: String, name: String, limit: NestingLimit },
    /// The lockfile links it to a workspace member, but no member has its name.
    WorkspaceLink { pkg: String, name: String },
    /// It resolves to a package that does not apply to the platform.
    PlatformMismatch {
        pkg: String,
        name: String,
        resolved_name: String,
        version: String,
        os: Vec<String>,
        cpu: Vec<String>,
        goos: String,
        goarch: String,
    },
    /// It has no resolution; `known` is how many packages the lockfile resolves, if one was
    /// loaded.
    Unresolved { pkg: String, name: String, known: Option<usize> },
}

/// Why a dependency cannot be wired, as mathematical values.
pub enum DepFailure {
    TooDeep,
    WorkspaceLink,
    PlatformMismatch {
        resolved_name: Seq<char>,
        version: Seq<char>,
        os: Seq<Seq<char>>,
        cpu: Seq<Seq<char>>,
    },
    Unresolved { known: Option<nat> },
}

impl DepsError {
    /// The package that declares the dependency.
    pub open spec fn pkg(&self) -> Seq<char> {
        match self {
            DepsError::TooDeep { pkg, .. } => pkg@,
            DepsError::WorkspaceLink { pkg, .. } => pkg@,
            DepsError::PlatformMismatch { pkg, .. } => pkg@,
            DepsError::Unresolved { pkg, .. } => pkg@,
        }
    }

    /// The dependency that the error is about.
    pub open spec fn name(&self) -> Seq<char> {
        match self {
            DepsError::TooDeep { name, .. } => name@,
            DepsError::WorkspaceLink { name, .. } => name@,
            DepsError::PlatformMismatch { name, .. } => name@,
            DepsError::Unresolved { name, .. } => name@,
        }
    }

    /// What the error says apart from the names.
    pub open spec fn failure(&self) -> DepFailure {
        match self {
            DepsError::TooDeep { .. } => DepFailure::TooDeep,
            DepsError::WorkspaceLink { .. } => DepFailure::WorkspaceLink,
            DepsError::PlatformMismatch { resolved_name, version, os, cpu, .. } =>
                DepFailure::PlatformMismatch {
                resolved_name: resolved_name@,
                version: version@,
                os: texts(os@),
                cpu: texts(cpu@),
            },
            DepsError::Unresolved { known, .. } => DepFailure::Unresolved {
                known: match known {
                    Some(n) => Some(*n as nat),
                    None => None,
                },
            },
        }
    }

    /// The text of the error.
    pub open spec fn text(&self) -> Seq<char> {
        match self {
            DepsError::TooDeep { pkg, name, limit } => "resolving `"@ + name@ + "` declared by \""@
                + pkg@ + "\": "@ + limit.text(),
            DepsError::WorkspaceLink { pkg, name } => "\""@ + pkg@ + "\": `"@ + name@
                + "` resolves to a workspace link in the lockfile but no discovered workspace member has that name: is the workspace-member list stale?"@,
            DepsError::PlatformMismatch {
                pkg,
                name,
                resolved_name,
                version,
                os,
                cpu,
                goos,
                goarch,
            } => "\""@ + pkg@ + "\": `"@ + name@ + "` resolves to "@ + resolved_name@ + "@"@
                + version@ + ", which is restricted to os=["@ + joined(texts(os@), ", "@)
                + "] cpu=["@ + joined(texts(cpu@), ", "@)
                + "]: that does not include the current platform "@ + goos@ + "/"@ + goarch@,
            DepsError::Unresolved { pkg, name, known } => "\""@ + pkg@ + "\": `"@ + name@
                + "` is declared in package.json but has no lockfile resolution ("@ + (
            match known {
                Some(n) => "a lockfile loaded with "@ + digits(*n as nat)
                    + " resolved package(s)"@,
                None => "no lockfile was loaded at all"@,
            })
                + "): the lockfile is likely stale; re-run the package manager's install to regenerate it"@,
        }
    }

    /// The text of the error.
    pub fn message(&self) -> (r: String)
        ensures
            r@ == self.text(),
    {
        match self {
            DepsError::TooDeep { pkg, name, limit } => "resolving `".to_owned().concat(
                name.as_str(),
            ).concat("` declared by \"").concat(pkg.as_str()).concat("\": ").concat(
                limit.message().as_str(),
            ),
            DepsError::WorkspaceLink { pkg, name } => "\"".to_owned().concat(
                pkg.as_str(),
            ).concat("\": `").concat(name.as_str()).concat(
                "` resolves to a workspace link in the lockfile but no discovered workspace member has that name: is the workspace-member list stale?",
            ),
            DepsError::PlatformMismatch {
                pkg,
                name,
                resolved_name,
                version,
                os,
                cpu,
                goos,
                goarch,
            } => "\"".to_owned().concat(pkg.as_str()).concat("\": `").concat(
                name.as_str(),
            ).concat("` resolves to ").concat(resolved_name.as_str()).concat("@").concat(
                version.as_str(),
            ).concat(", which is restricted to os=[").concat(join(os, ", ").as_str()).concat(
                "] cpu=[",
            ).concat(join(cpu, ", ").as_str()).concat(
                "]: that does not include the current platform ",
            ).concat(goos.as_str()).concat("/").concat(goarch.as_str()),
            DepsError::Unresolved { pkg, name, known } => {
                let state = match known {
                    Some(n) => "a lockfile loaded with ".to_owned().concat(
                        decimal(*n).as_str(),
                    ).concat(" resolved package(s)"),
                    None => "no lockfile was loaded at all".to_owned(),
                };
                "\"".to_owned().concat(pkg.as_str()).concat("\": `").concat(
                    name.as_str(),
                ).concat("` is declared in package.json but has no lockfile resolution (").concat(
                    state.as_str(),
                ).concat(
                    "): the lockfile is likely stale; re-run the package manager's install to regenerate it",
                )
            },
        }
    }
}

/// What the lockfile resolves a name to: through the graph too when one is at hand.
pub open spec fn known_resolution(
    lockfile_pkg: Seq<char>,
    name: Seq<char>,
    m: ManifestView,
    lock: Option<LockView>,
    graph: Option<Packages>,
    os: Seq<char>,
    arch: Seq<char>,
) -> Option<ResolutionView> {
    match (lock, graph) {
        (Some(l), Some(g)) => transitive_resolution(l, g, lockfile_pkg, m, name, os, arch),
        (Some(l), None) => lock_resolution(l, lockfile_pkg, name),
        (None, _) => None,
    }
}

/// What the wiring of a package's dependencies depends on: the package, relative to the
/// workspace and to its lockfile's root, its manifest, the lockfile and its graph, the
/// addresses of the workspace members by name, and the platform.
pub struct WireContext {
    pub consuming_pkg: Seq<char>,
    pub lockfile_pkg: Seq<char>,
    pub m: ManifestView,
    pub lock: Option<LockView>,
    pub graph: Option<Packages>,
    pub members: Map<Seq<char>, Seq<char>>,
    pub os: Seq<char>,
    pub arch: Seq<char>,
}

/// Whether an error names the package that declares the dependency and the platform, and one
/// about the nesting limit tells of a package that hits it.
pub open spec fn told(c: WireContext, e: DepsError) -> bool {
    e.pkg() == c.lockfile_pkg && match e {
        DepsError::TooDeep { limit, .. } => limit_hit(
            c.graph->0,
            flat(c.graph->0, c.os, c.arch, seed_keys(c.lock->0, c.lockfile_pkg, c.m)),
            c.os,
            c.arch,
            limit,
        ),
        DepsError::PlatformMismatch { goos, goarch, .. } => goos@ == c.os && goarch@ == c.arch,
        _ => true,
    }
}

/// What becomes of a declared dependency: the address that it is wired to, nothing when it is
/// an optional one that does not apply, or a failure.
pub open spec fn dep_outcome(c: WireContext, name: Seq<char>) -> Result<
    Option<Seq<char>>,
    DepFailure,
> {
    let WireContext { consuming_pkg, lockfile_pkg, m, lock, graph, members, os, arch } = c;
    if members.dom().contains(name) {
        Ok(Some(members[name]))
    } else if lock is Some && graph is Some && resolution_too_deep(
        lock->0,
        graph->0,
        lockfile_pkg,
        m,
        name,
        os,
        arch,
    ) {
        Err(DepFailure::TooDeep)
    } else {
        match known_resolution(lockfile_pkg, name, m, lock, graph, os, arch) {
            Some(ResolutionView::Workspace) => Err(DepFailure::WorkspaceLink),
            Some(ResolutionView::ThirdParty { name: resolved_name, version }) => {
                let key = key_of(resolved_name, version);
                if graph is Some && graph->0.dom().contains(key) && !applies_to(
                    graph->0[key].os,
                    graph->0[key].cpu,
                    os,
                    arch,
                ) {
                    if m.optional_dependencies.dom().contains(resolved_name) {
                        Ok(None)
                    } else {
                        Err(
                            DepFailure::PlatformMismatch {
                                resolved_name,
                                version,
                                os: graph->0[key].os,
                                cpu: graph->0[key].cpu,
                            },
                        )
                    }
                } else {
                    Ok(
                        Some(
                            node_modules_text(
                                consuming_pkg,
                                name,
                                resolved_name,
                                version,
                                os,
                                arch,
                            ),
                        ),
                    )
                }
            },
            None => if m.optional_dependencies.dom().contains(name) {
                Ok(None)
            } else {
                Err(
                    DepFailure::Unresolved {
                        known: match graph {
                            Some(g) => Some(listing(g.dom()).len()),
                            None => None,
                        },
                    },
                )
            },
        }
    }
}

/// The value of an optional lockfile.
pub open spec fn opt_lock(l: Option<&Lockfile>) -> Option<LockView> {
    match l {
        Some(l) => Some(l@),
        None => None,
    }
}

/// The value of an optional graph.
pub open spec fn opt_graph(g: Option<&ResolvedGraph>) -> Option<Packages> {
    match g {
        Some(g) => Some(g@),
        None => None,
    }
}

/// Resolves one declared dependency to a target address. `lockfile_pkg` is the declaring
/// package's path relative to the lockfile's root, `consuming_pkg` relative to the workspace.
pub fn resolve_one_dependency(
    consuming_pkg: &str,
    lockfile_pkg: &str,
    name: &str,
    manifest: &PackageManifest,
    lockfile: Option<&Lockfile>,
    resolved_graph: Option<&ResolvedGraph>,
    member_addrs_by_name: &StrMap<String>,
    goos: &str,
    goarch: &str,
) -> (r: Result<Option<String>, DepsError>)
    ensures
        match dep_outcome(
            (WireContext {
                consuming_pkg: consuming_pkg@,
                lockfile_pkg: lockfile_pkg@,
                m: manifest@,
                lock: opt_lock(lockfile),
                graph: opt_graph(resolved_graph),
                members: member_addrs_by_name@,
                os: goos@,
                arch: goarch@,
            }),
            name@,
        ) {
            Ok(addr) => r matches Ok(a) && opt_text(a) == addr,
            Err(f) => r matches Err(e) && e.failure() == f && e.name() == name@,
        },
        r matches Err(e) ==> told(
            (WireContext {
                consuming_pkg: consuming_pkg@,
                lockfile_pkg: lockfile_pkg@,
                m: manifest@,
                lock: opt_lock(lockfile),
                graph: opt_graph(resolved_graph),
                members: member_addrs_by_name@,
                os: goos@,
                arch: goarch@,
            }),
            e,
        ),
{
    if let Some(addr) = member_addrs_by_name.get(name) {
        return Ok(Some(addr.clone()));
    }
    let resolution = match (lockfile, resolved_graph) {
        (Some(lf), Some(rg)) => match resolve_transitive(
            lf,
            rg,
            lockfile_pkg,
            manifest,
            name,
            goos,
            goarch,
        ) {
            Ok(d) => d,
            Err(limit) => {
                return Err(
                    DepsError::TooDeep {
                        pkg: lockfile_pkg.to_owned(),
                        name: name.to_owned(),
                        limit,
                    },
                );
            },
        },
        (Some(lf), None) => lf.resolve_dependency(lockfile_pkg, name),
        (None, _) => None,
    };
    match resolution {
        Some(DepResolution::Workspace) => Err(
            DepsError::WorkspaceLink { pkg: lockfile_pkg.to_owned(), name: name.to_owned() },
        ),
        Some(DepResolution::ThirdParty { name: resolved_name, version }) => {
            if let Some(g) = resolved_graph {
                if let Some(resolved) = g.get(resolved_name.as_str(), version.as_str()) {
                    if !matches_platform(
                        resolved.os.as_slice(),
                        resolved.cpu.as_slice(),
                        goos,
                        goarch,
                    ) {
                        if manifest.is_optional(resolved_name.as_str()) {
                            return Ok(None);
                        }
                        return Err(
                            DepsError::PlatformMismatch {
                                pkg: lockfile_pkg.to_owned(),
                                name: name.to_owned(),
                                os: crate::npm::copy_list(&resolved.os),
                                cpu: crate::npm::copy_list(&resolved.cpu),
                                resolved_name,
                                version,
                                goos: goos.to_owned(),
                                goarch: goarch.to_owned(),
                            },
                        );
                    }
                }
            }
            Ok(
                Some(
                    node_modules_addr(
                        consuming_pkg,
                        name,
                        resolved_name.as_str(),
                        version.as_str(),
                        goos,
                        goarch,
                    ),
                ),
            )
        },
        None => {
            if manifest.is_optional(name) {
                Ok(None)
            } else {
                let known = match resolved_graph {
                    Some(g) => {
                        g.packages.facts();
                        Some(g.packages.len())
                    },
                    None => None,
                };
                Err(
                    DepsError::Unresolved {
                        pkg: lockfile_pkg.to_owned(),
                        name: name.to_owned(),
                        known,
                    },
                )
            }
        },
    }
}

/// The declared dependencies that are wired, each with its group: those of `dependencies` in
/// order of name, then the development dependencies.
pub open spec fn wired_names(m: ManifestView) -> Seq<(Seq<char>, Seq<char>)> {
    in_group("dependencies"@, listing(m.dependencies.dom())) + in_group(
        "dev_dependencies"@,
        listing(m.dev_dependencies.dom()),
    )
}

/// Names paired with their group.
pub open spec fn in_group(group: Seq<char>, names: Seq<Seq<char>>) -> Seq<(Seq<char>, Seq<char>)> {
    names.map_values(|n: Seq<char>| (group, n))
}

/// The dependencies wired for a list of names, in order, or the first failure.
pub open spec fn wire_all(c: WireContext, items: Seq<(Seq<char>, Seq<char>)>) -> Result<
    Seq<DepView>,
    (Seq<char>, DepFailure),
>
    decreases items.len(),
{
    if items.len() == 0 {
        Ok(Seq::empty())
    } else {
        match wire_all(c, items.drop_last()) {
            Err(e) => Err(e),
            Ok(done) => {
                let (group, name) = items.last();
                match dep_outcome(c, name) {
                    Ok(Some(addr)) => Ok(done.push(DepView { group, name, addr })),
                    Ok(None) => Ok(done),
                    Err(f) => Err((name, f)),
                }
            },
        }
    }
}

/// The values of a list of resolved dependencies.
pub open spec fn dep_views(v: Seq<ResolvedDep>) -> Seq<DepView> {
    v.map_values(|d: ResolvedDep| d@)
}

/// A failure among the first names is the failure of all.
proof fn lemma_wire_fails(c: WireContext, items: Seq<(Seq<char>, Seq<char>)>, n: int)
    requires
        0 <= n <= items.len(),
        wire_all(c, items.take(n)) is Err,
    ensures
        wire_all(c, items) == wire_all(c, items.take(n)),
    decreases items.len() - n,
{
    if n == items.len() {
        assert(items.take(n) =~= items);
    } else {
        assert(items.take(n + 1).drop_last() =~= items.take(n));
        lemma_wire_fails(c, items, n + 1);
    }
}

/// Wires the names of one group.
fn wire_group(
    group: &'static str,
    names: &StrMap<String>,
    consuming_pkg: &str,
    lockfile_pkg: &str,
    manifest: &PackageManifest,
    lockfile: Option<&Lockfile>,
    resolved_graph: Option<&ResolvedGraph>,
    member_addrs_by_name: &StrMap<String>,
    goos: &str,
    goarch: &str,
    out: &mut Vec<ResolvedDep>,
    before: Ghost<Seq<(Seq<char>, Seq<char>)>>,
    c: Ghost<WireContext>,
) -> (r: Result<(), DepsError>)
    requires
        c@ == (WireContext {
            consuming_pkg: consuming_pkg@,
            lockfile_pkg: lockfile_pkg@,
            m: manifest@,
            lock: opt_lock(lockfile),
            graph: opt_graph(resolved_graph),
            members: member_addrs_by_name@,
            os: goos@,
            arch: goarch@,
        }),
        wire_all(c@, before@) == Ok::<Seq<DepView>, (Seq<char>, DepFailure)>(dep_views(old(out)@)),
    ensures
        match wire_all(c@, before@ + in_group(group@, listing(names@.dom()))) {
            Ok(v) => r is Ok && dep_views(final(out)@) == v,
            Err((n, f)) => r matches Err(e) && e.name() == n && e.failure() == f,
        },
        r matches Err(e) ==> told(c@, e),
{
    names.facts();
    let ghost all = in_group(group@, listing(names@.dom()));
    let mut i: usize = 0;
    let n: usize = names.len();
    assert(before@ + all.take(0) =~= before@);
    while i < n
        invariant
            i <= n == all.len(),
            names.keys() == listing(names@.dom()),
            all == in_group(group@, listing(names@.dom())),
            c@ == (WireContext {
                consuming_pkg: consuming_pkg@,
                lockfile_pkg: lockfile_pkg@,
                m: manifest@,
                lock: opt_lock(lockfile),
                graph: opt_graph(resolved_graph),
                members: member_addrs_by_name@,
                os: goos@,
                arch: goarch@,
            }),
            wire_all(c@, before@ + all.take(i as int)) == Ok::<
                Seq<DepView>,
                (Seq<char>, DepFailure),
            >(dep_views(out@)),
        decreases n - i,
    {
        let name = names.key_at(i);
        let ghost t = before@ + all.take(i + 1);
        proof {
            assert(t.drop_last() =~= before@ + all.take(i as int));
            assert(t.last() == (group@, name@));
        }
        match resolve_one_dependency(
            consuming_pkg,
            lockfile_pkg,
            name.as_str(),
            manifest,
            lockfile,
            resolved_graph,
            member_addrs_by_name,
            goos,
            goarch,
        ) {
            Ok(Some(addr)) => {
                let ghost was = dep_views(out@);
                let d = ResolvedDep { group, name: name.clone(), addr };
                let ghost dv = d@;
                out.push(d);
                assert(dep_views(out@) =~= was.push(dv));
            },
            Ok(None) => {},
            Err(e) => {
                proof {
                    let whole = before@ + all;
                    assert(whole.take(t.len() as int) =~= t);
                    lemma_wire_fails(c@, whole, t.len() as int);
                }
                return Err(e);
            },
        }
        i = i + 1;
    }
    assert(all.take(i as int) =~= all);
    Ok(())
}

/// Resolves every dependency that the manifest declares to a target address: a required
/// dependency without a resolution is an error, an optional one without a resolution, or for
/// another platform, is left out.
pub fn resolve_package_deps(
    consuming_pkg: &str,
    lockfile_pkg: &str,
    manifest: &PackageManifest,
    lockfile: Option<&Lockfile>,
    resolved_graph: Option<&ResolvedGraph>,
    member_addrs_by_name: &StrMap<String>,
    goos: &str,
    goarch: &str,
) -> (r: Result<Vec<ResolvedDep>, DepsError>)
    ensures
        match wire_all(
            (WireContext {
                consuming_pkg: consuming_pkg@,
                lockfile_pkg: lockfile_pkg@,
                m: manifest@,
                lock: opt_lock(lockfile),
                graph: opt_graph(resolved_graph),
                members: member_addrs_by_name@,
                os: goos@,
                arch: goarch@,
            }),
            wired_names(manifest@),
        ) {
            Ok(v) => r matches Ok(out) && dep_views(out@) == v,
            Err((n, f)) => r matches Err(e) && e.name() == n && e.failure() == f,
        },
        r matches Err(e) ==> told(
            (WireContext {
                consuming_pkg: consuming_pkg@,
                lockfile_pkg: lockfile_pkg@,
                m: manifest@,
                lock: opt_lock(lockfile),
                graph: opt_graph(resolved_graph),
                members: member_addrs_by_name@,
                os: goos@,
                arch: goarch@,
            }),
            e,
        ),
{
    let ghost c = WireContext {
        consuming_pkg: consuming_pkg@,
        lockfile_pkg: lockfile_pkg@,
        m: manifest@,
        lock: opt_lock(lockfile),
        graph: opt_graph(resolved_graph),
        members: member_addrs_by_name@,
        os: goos@,
        arch: goarch@,
    };
    let groups = manifest.dependency_groups();
    let mut out: Vec<ResolvedDep> = Vec::new();
    let ghost none = Seq::<(Seq<char>, Seq<char>)>::empty();
    let ghost first = in_group("dependencies"@, listing(manifest@.dependencies.dom()));
    let ghost second = in_group("dev_dependencies"@, listing(manifest@.dev_dependencies.dom()));
    assert(dep_views(out@) =~= Seq::<DepView>::empty());
    assert(none + first =~= first);
    if let Err(e) = wire_group(
        groups[0].0,
        groups[0].1,
        consuming_pkg,
        lockfile_pkg,
        manifest,
        lockfile,
        resolved_graph,
        member_addrs_by_name,
        goos,
        goarch,
        &mut out,
        Ghost(none),
        Ghost(c),
    ) {
        proof {
            assert((first + second).take(first.len() as int) =~= first);
            lemma_wire_fails(c, first + second, first.len() as int);
        }
        return Err(e);
    }
    if let Err(e) = wire_group(
        groups[1].0,
        groups[1].1,
        consuming_pkg,
        lockfile_pkg,
        manifest,
        lockfile,
        resolved_graph,
        member_addrs_by_name,
        goos,
        goarch,
        &mut out,
        Ghost(first),
        Ghost(c),
    ) {
        return Err(e);
    }
    Ok(out)
}

/// The version of each package of a flat placement.
pub open spec fn flat_versions(g: Packages, fm: Map<Seq<char>, Seq<char>>) -> Map<
    Seq<char>,
    Seq<char>,
> {
    fm.map_values(|key: Seq<char>| g[key].version)
}

/// The addresses that place one version of each name, in order of name.
pub open spec fn version_addrs(
    consuming_pkg: Seq<char>,
    versions: Map<Seq<char>, Seq<char>>,
    os: Seq<char>,
    arch: Seq<char>,
) -> Seq<Seq<char>> {
    listing(versions.dom()).map_values(
        |n: Seq<char>| node_modules_text(consuming_pkg, n, n, versions[n], os, arch),
    )
}

/// The versions of the flat ones among the entries of a closure.
fn versions_of(
    entries: &Vec<TransitiveEntry>,
    g: Ghost<Packages>,
    fm: Ghost<Map<Seq<char>, Seq<char>>>,
    os: Ghost<Seq<char>>,
    arch: Ghost<Seq<char>>,
) -> (r: StrMap<String>)
    requires
        forall|e: EntryView| #[trigger]
            entry_views(entries@).contains(e) <==> materialized(g@, fm@, os@, arch@, e),
    ensures
        r@ == flat_versions(g@, fm@),
{
    let ghost ev = entry_views(entries@);
    let ghost want = flat_versions(g@, fm@);
    let mut out: StrMap<String> = StrMap::new();
    let mut i: usize = 0;
    while i < entries.len()
        invariant
            i <= entries.len(),
            ev == entry_views(entries@),
            want == flat_versions(g@, fm@),
            forall|e: EntryView| #[trigger]
                ev.contains(e) <==> materialized(g@, fm@, os@, arch@, e),
            forall|n: Seq<char>| #[trigger]
                out@.dom().contains(n) ==> want.dom().contains(n) && out@[n] == want[n],
            forall|k: int|
                0 <= k < i && (#[trigger] ev[k]).nested_under.len() == 0 ==> out@.dom().contains(
                    ev[k].name,
                ),
        decreases entries.len() - i,
    {
        let e = &entries[i];
        assert(ev[i as int] == e@);
        assert(ev.contains(e@));
        if e.nested_under.len() == 0 {
            assert(texts(e.nested_under@).len() == 0);
            out.insert(e.name.clone(), e.version.clone());
        }
        i = i + 1;
    }
    proof {
        assert forall|n: Seq<char>| want.dom().contains(n) implies out@.dom().contains(n) by {
            let e = EntryView {
                name: n,
                version: g@[fm@[n]].version,
                nested_under: Seq::empty(),
            };
            assert(materialized(g@, fm@, os@, arch@, e));
            assert(ev.contains(e));
            let k = choose|k: int| 0 <= k < ev.len() && ev[k] == e;
            assert(ev[k].nested_under.len() == 0);
        }
        assert(out@ =~= want);
    }
    out
}

/// The addresses of every third-party package reachable from the manifest's own direct
/// dependencies, one for each name, in order of name.
pub fn resolve_transitive_closure(
    consuming_pkg: &str,
    lockfile_pkg: &str,
    manifest: &PackageManifest,
    lockfile: &Lockfile,
    resolved_graph: &ResolvedGraph,
    goos: &str,
    goarch: &str,
) -> (r: Result<Vec<String>, NestingLimit>)
    ensures
        r is Err <==> nests_too_deep(
            resolved_graph@,
            flat(
                resolved_graph@,
                goos@,
                goarch@,
                seed_keys(lockfile@, lockfile_pkg@, manifest@),
            ),
            goos@,
            goarch@,
        ),
        r matches Ok(v) ==> texts(v@) == version_addrs(
            consuming_pkg@,
            flat_versions(
                resolved_graph@,
                flat(
                    resolved_graph@,
                    goos@,
                    goarch@,
                    seed_keys(lockfile@, lockfile_pkg@, manifest@),
                ),
            ),
            goos@,
            goarch@,
        ),
        r matches Ok(v) ==> texts(v@).no_duplicates(),
        r matches Err(e) ==> limit_hit(
            resolved_graph@,
            flat(
                resolved_graph@,
                goos@,
                goarch@,
                seed_keys(lockfile@, lockfile_pkg@, manifest@),
            ),
            goos@,
            goarch@,
            e,
        ),
{
    let seeds = direct_dep_seed_keys(lockfile, lockfile_pkg, manifest);
    let ghost fm = flat(resolved_graph@, goos@, goarch@, texts(seeds@));
    let entries = match resolved_graph.transitive_reachable(&seeds, goos, goarch) {
        Ok(entries) => entries,
        Err(e) => {
            return Err(e);
        },
    };
    let versions = versions_of(
        &entries,
        Ghost(resolved_graph@),
        Ghost(fm),
        Ghost(goos@),
        Ghost(goarch@),
    );
    versions.facts();
    let mut out: Vec<String> = Vec::new();
    let mut i: usize = 0;
    let n: usize = versions.len();
    while i < n
        invariant
            i <= n == versions.keys().len(),
            versions.keys().len() == versions.values().len(),
            forall|k: int|
                0 <= k < versions.keys().len() ==> versions@.dom().contains(
                    #[trigger] versions.keys()[k],
                ) && versions@[versions.keys()[k]] == versions.values()[k],
            out@.len() == i,
            forall|k: int|
                0 <= k < i ==> (#[trigger] out@[k])@ == node_modules_text(
                    consuming_pkg@,
                    versions.keys()[k],
                    versions.keys()[k],
                    versions@[versions.keys()[k]],
                    goos@,
                    goarch@,
                ),
        decreases n - i,
    {
        let name = versions.key_at(i).as_str();
        let version = versions.value_at(i).as_str();
        out.push(node_modules_addr(consuming_pkg, name, name, version, goos, goarch));
        i = i + 1;
    }
    proof {
        assert(texts(out@) =~= version_addrs(consuming_pkg@, versions@, goos@, goarch@));
        each_flat_package_has_one_address(
            consuming_pkg@,
            resolved_graph@,
            goos@,
            goarch@,
            texts(seeds@),
        );
    }
    Ok(out)
}

/// A dependency that is no workspace member, is optional and has no resolution is left out,
/// never a failure.
pub proof fn unresolved_optional_is_left_out(c: WireContext, name: Seq<char>)
    requires
        !c.members.dom().contains(name),
        c.m.optional_dependencies.dom().contains(name),
        known_resolution(c.lockfile_pkg, name, c.m, c.lock, c.graph, c.os, c.arch) is None,
        !(c.lock is Some && c.graph is Some && resolution_too_deep(
            c.lock->0,
            c.graph->0,
            c.lockfile_pkg,
            c.m,
            name,
            c.os,
            c.arch,
        )),
    ensures
        dep_outcome(c, name) == Ok::<Option<Seq<char>>, DepFailure>(None),
{
}

/// A workspace member of the declared name wins over whatever the lockfile says.
pub proof fn workspace_members_win(c: WireContext, name: Seq<char>)
    requires
        c.members.dom().contains(name),
    ensures
        dep_outcome(c, name) == Ok::<Option<Seq<char>>, DepFailure>(Some(c.members[name])),
{
}

/// A required dependency that is no workspace member and has no resolution always fails.
pub proof fn unresolved_required_fails(c: WireContext, name: Seq<char>)
    requires
        !c.members.dom().contains(name),
        !c.m.optional_dependencies.dom().contains(name),
        known_resolution(c.lockfile_pkg, name, c.m, c.lock, c.graph, c.os, c.arch) is None,
    ensures
        dep_outcome(c, name) is Err,
{
}

/// A package that does not apply to the platform is never wired.
pub proof fn other_platforms_are_never_wired(c: WireContext, name: Seq<char>)
    requires
        !c.members.dom().contains(name),
        c.graph is Some,
        known_resolution(c.lockfile_pkg, name, c.m, c.lock, c.graph, c.os, c.arch) matches Some(
            ResolutionView::ThirdParty { name: n, version: v },
        ) && c.graph->0.dom().contains(key_of(n, v)) && !applies_to(
            c.graph->0[key_of(n, v)].os,
            c.graph->0[key_of(n, v)].cpu,
            c.os,
            c.arch,
        ),
    ensures
        !(dep_outcome(c, name) matches Ok(Some(_))),
{
}

} // verus!
