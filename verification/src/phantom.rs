//! Phantom dependencies: imports that land in a package which is not declared.
use crate::config_scan::BareView;
use crate::graph::{
    edges, entry_views, flat, materialized, nests_too_deep, overrides, placed, EntryView,
    ResolvedGraph,
};
use crate::importgraph::{edge_views, EdgeView, GraphView, ImportGraph, ResolvedEdge};
use crate::lockfile::{direct_dep_seed_keys, seed_keys, Lockfile};
use crate::package_json::{ManifestView, PackageManifest};
use crate::path::{
    after_node_modules, below, below_node_modules, join_path, lemma_parent, lies_within, names_same, parent, parent_of, same_path, slashed,
    strip_base, under, with_slashes, within,
};
use crate::sorted::{StrMap, StrSet};
use crate::text::{
    after_char, same, split_once, texts, to_chars, upto, upto_char,
};
use crate::tree::{file_at, is_directory, FileTree, FilesView};
use crate::workspace::{package_name_at, read_package_name};
use crate::PACKAGE_JSON;
use vstd::prelude::*;

verus! {

/// The names that a package may import: its dependencies of every kind, its peers, and its own
/// name.
pub open spec fn declared_names(m: ManifestView) -> Set<Seq<char>> {
    m.dependencies.dom().union(m.dev_dependencies.dom()).union(m.peer_dependencies.dom()).insert(
        m.name,
    )
}

/// Adds the keys of a map to a set.
fn add_keys(out: &mut StrSet, m: &StrMap<String>)
    ensures
        final(out)@ == old(out)@.union(m@.dom()),
{
    m.facts();
    let ghost keys = m.keys();
    let ghost start = out@;
    let mut i: usize = 0;
    assert(out@ =~= start.union(keys.take(0).to_set()));
    while i < m.len()
        invariant
            i <= keys.len(),
            keys == m.keys(),
            out@ == start.union(keys.take(i as int).to_set()),
        decreases keys.len() - i,
    {
        let added = out.insert(m.key_at(i).clone());
        proof {
            lemma_take_set(keys, i as int);
            assert(out@ =~= start.union(keys.take(i + 1).to_set()));
        }
        i = i + 1;
    }
    assert(keys.take(i as int) =~= keys);
}

/// One more element in a prefix is one more member in its set.
proof fn lemma_take_set(s: Seq<Seq<char>>, i: int)
    requires
        0 <= i < s.len(),
    ensures
        s.take(i + 1).to_set() == s.take(i).to_set().insert(s[i]),
{
    let t = s.take(i + 1);
    let h = s.take(i);
    assert forall|k: Seq<char>| t.to_set().contains(k) <==> h.to_set().insert(s[i]).contains(k) by {
        assert(t[i] == s[i]);
        if h.contains(k) {
            let m = choose|m: int| 0 <= m < h.len() && h[m] == k;
            assert(t[m] == k);
        }
        if t.contains(k) {
            let m = choose|m: int| 0 <= m < t.len() && t[m] == k;
            if m < i {
                assert(h[m] == k);
            }
        }
    }
    assert(t.to_set() =~= h.to_set().insert(s[i]));
}

/// The names that a package may import by its own manifest.
pub fn declared_closure(manifest: &PackageManifest) -> (r: StrSet)
    ensures
        r@ == declared_names(manifest@),
{
    let mut set = StrSet::new();
    add_keys(&mut set, &manifest.dependencies);
    add_keys(&mut set, &manifest.dev_dependencies);
    add_keys(&mut set, &manifest.peer_dependencies);
    let added = set.insert(manifest.name.clone());
    assert(set@ =~= declared_names(manifest@));
    set
}

/// The names that a package may import when the lockfile is taken into account: those that its
/// manifest declares and those of every package that its direct dependencies lead to. A graph
/// whose placement cannot be worked out adds none.
pub open spec fn widened_names(
    m: ManifestView,
    pkg: Seq<char>,
    l: crate::lockfile::LockView,
    g: crate::graph::Packages,
    os: Seq<char>,
    arch: Seq<char>,
) -> Set<Seq<char>> {
    let fm = flat(g, os, arch, seed_keys(l, pkg, m));
    if nests_too_deep(g, fm, os, arch) {
        declared_names(m)
    } else {
        declared_names(m).union(fm.dom())
    }
}

/// The names that a package may import: by its manifest, and with a lockfile also those of
/// every package that its direct dependencies lead to on the platform.
pub fn transitive_declared_closure(
    manifest: &PackageManifest,
    pkg: &str,
    lockfile: Option<&Lockfile>,
    resolved_graph: Option<&ResolvedGraph>,
    os: &str,
    arch: &str,
) -> (r: StrSet)
    ensures
        r@ == (match (lockfile, resolved_graph) {
            (Some(l), Some(g)) => widened_names(manifest@, pkg@, l@, g@, os@, arch@),
            _ => declared_names(manifest@),
        }),
{
    let mut set = declared_closure(manifest);
    let (lock, graph) = match (lockfile, resolved_graph) {
        (Some(l), Some(g)) => (l, g),
        _ => {
            return set;
        },
    };
    let seeds = direct_dep_seed_keys(lock, pkg, manifest);
    let entries = match graph.transitive_reachable(&seeds, os, arch) {
        Ok(entries) => entries,
        Err(_) => {
            return set;
        },
    };
    let ghost views = entry_views(entries@);
    let ghost names = views.map_values(|e: EntryView| e.name);
    let ghost start = set@;
    let mut i: usize = 0;
    assert(set@ =~= start.union(names.take(0).to_set()));
    while i < entries.len()
        invariant
            i <= entries.len(),
            views == entry_views(entries@),
            views.len() == entries@.len(),
            names == views.map_values(|e: EntryView| e.name),
            set@ == start.union(names.take(i as int).to_set()),
        decreases entries.len() - i,
    {
        let added = set.insert(entries[i].name.clone());
        proof {
            assert(names[i as int] == entries@[i as int].name@);
            lemma_take_set(names, i as int);
            assert(set@ =~= start.union(names.take(i + 1).to_set()));
        }
        i = i + 1;
    }
    proof {
        assert(names.take(i as int) =~= names);
        let g = graph@;
        let fm = flat(g, os@, arch@, texts(seeds@));
        assert forall|n: Seq<char>| names.to_set().contains(n) <==> fm.dom().contains(n) by {
            if names.contains(n) {
                let k = choose|k: int| 0 <= k < names.len() && names[k] == n;
                let e = views[k];
                assert(views.contains(e));
                assert(materialized(g, fm, os@, arch@, e));
                if e.nested_under.len() > 0 {
                    let (p, key) = choose|p: Seq<char>, key: Seq<char>|
                        placed(g, fm, os@, arch@, p, e.nested_under.drop_last()) && g[p].name
                            == e.nested_under.last() && #[trigger] overrides(
                            g,
                            fm,
                            os@,
                            arch@,
                            p,
                            e.name,
                            key,
                        ) && e.version == g[key].version;
                }
            }
            if fm.dom().contains(n) {
                let e = EntryView {
                    name: n,
                    version: g[fm[n]].version,
                    nested_under: Seq::empty(),
                };
                assert(materialized(g, fm, os@, arch@, e));
                assert(views.contains(e));
                let k = choose|k: int| 0 <= k < views.len() && views[k] == e;
                assert(names[k] == n);
            }
        }
        assert(names.to_set() =~= fm.dom());
    }
    set
}

/// The package of `node_modules` that a path lies in: the one after the last segment of that
/// name, with its scope.
pub open spec fn third_party(resolved: Seq<char>) -> Option<Seq<char>> {
    match below_node_modules(resolved) {
        None => None,
        Some(rest) => {
            let first = upto_char(rest, '/');
            if first.len() > 0 && first[0] == '@' {
                if rest.contains('/') {
                    Some(first + "/"@ + upto_char(after_char(rest, '/'), '/'))
                } else {
                    None
                }
            } else {
                Some(first)
            }
        },
    }
}

/// The package of `node_modules` that a path lies in.
pub fn thirdparty_pkg_name_from_path(resolved: &str) -> (r: Option<String>)
    ensures
        match r {
            Some(s) => third_party(resolved@) == Some(s@),
            None => third_party(resolved@) is None,
        },
{
    let rest = match after_node_modules(resolved) {
        Some(rest) => rest,
        None => {
            return None;
        },
    };
    let first = upto(rest.as_str(), '/');
    let v = to_chars(first.as_str());
    if v.len() > 0 && v[0] == '@' {
        match split_once(rest.as_str(), '/') {
            Some((scope, more)) => {
                let mut out = first;
                out.append("/");
                out.append(upto(more.as_str(), '/').as_str());
                Some(out)
            },
            None => None,
        }
    } else {
        Some(first)
    }
}

/// The nearest directory from `dir` up that has a manifest, seen from the root; none when the
/// way up leaves the workspace first.
pub open spec fn owner_from(fs: FilesView, root: Seq<char>, dir: Seq<char>) -> Option<Seq<char>>
    decreases dir.len(),
    via owner_climbs
{
    if file_at(fs, under(dir, PACKAGE_JSON@)) is Some {
        below(dir, root)
    } else if same_path(dir, root) {
        None
    } else {
        match parent_of(dir) {
            Some(q) => if within(q, root) {
                owner_from(fs, root, q)
            } else {
                None
            },
            None => None,
        }
    }
}

#[via_fn]
proof fn owner_climbs(fs: FilesView, root: Seq<char>, dir: Seq<char>) {
    lemma_parent(dir);
}

/// The directory of the first-party package that owns a path, seen from the root.
pub open spec fn first_party_owner(fs: FilesView, root: Seq<char>, resolved: Seq<char>) -> Option<
    Seq<char>,
> {
    if is_directory(fs, resolved) {
        owner_from(fs, root, resolved)
    } else {
        match parent_of(resolved) {
            Some(d) => owner_from(fs, root, d),
            None => None,
        }
    }
}

fn find_owner(files: &FileTree, root: &str, dir: &str) -> (r: Option<String>)
    ensures
        match r {
            Some(d) => owner_from(files@, root@, dir@) == Some(d@),
            None => owner_from(files@, root@, dir@) is None,
        },
    decreases dir@.len(),
{
    if files.is_file(join_path(dir, PACKAGE_JSON).as_str()) {
        return strip_base(dir, root);
    }
    if names_same(dir, root) {
        return None;
    }
    proof {
        lemma_parent(dir@);
    }
    match parent(dir) {
        Some(q) => if lies_within(q.as_str(), root) {
            find_owner(files, root, q.as_str())
        } else {
            None
        },
        None => None,
    }
}

/// The directory of the first-party package that owns a path, seen from the root; none when
/// the path lies outside of the workspace.
pub fn firstparty_owning_pkg_dir(files: &FileTree, resolved: &str, workspace_root: &str) -> (r:
    Option<String>)
    ensures
        match r {
            Some(d) => first_party_owner(files@, workspace_root@, resolved@) == Some(d@),
            None => first_party_owner(files@, workspace_root@, resolved@) is None,
        },
{
    if files.is_dir(resolved) {
        find_owner(files, workspace_root, resolved)
    } else {
        match parent(resolved) {
            Some(d) => find_owner(files, workspace_root, d.as_str()),
            None => None,
        }
    }
}

/// A phantom dependency, or an import of which it cannot be told.
#[derive(Debug)]
pub enum PhantomError {
    /// An import resolves into a third-party package that is not declared.
    ThirdParty { pkg: String, file: String, specifier: String, name: String },
    /// An import resolves into a workspace package that is not declared.
    Workspace {
        pkg: String,
        file: String,
        specifier: String,
        owner: String,
        name: String,
    },
    /// The name of the workspace package that an import resolves into cannot be read.
    UnnamedOwner { pkg: String, file: String, specifier: String, owner: String },
    /// An import resolves out of the workspace.
    Unclassified { pkg: String, file: String, specifier: String, resolved: String },
    /// An unresolved import names a package that is not declared.
    BareSpecifier { pkg: String, file: String, specifier: String, name: String },
}

/// What is wrong with an import, as mathematical values.
pub enum PhantomView {
    ThirdParty(EdgeView, Seq<char>),
    Workspace(EdgeView, Seq<char>, Seq<char>),
    UnnamedOwner(EdgeView, Seq<char>),
    Unclassified(EdgeView),
    BareSpecifier(BareView),
}

/// Whether an error tells what is wrong with an import of the package `pkg`.
pub open spec fn tells(e: PhantomError, pkg: Seq<char>, v: PhantomView) -> bool {
    match (e, v) {
        (
            PhantomError::ThirdParty { pkg: p, file, specifier, name },
            PhantomView::ThirdParty(edge, n),
        ) => p@ == pkg && file@ == edge.file && specifier@ == edge.specifier && name@ == n,
        (
            PhantomError::Workspace { pkg: p, file, specifier, owner, name },
            PhantomView::Workspace(edge, o, n),
        ) => p@ == pkg && file@ == edge.file && specifier@ == edge.specifier && owner@ == o
            && name@ == n,
        (
            PhantomError::UnnamedOwner { pkg: p, file, specifier, owner },
            PhantomView::UnnamedOwner(edge, o),
        ) => p@ == pkg && file@ == edge.file && specifier@ == edge.specifier && owner@ == o,
        (
            PhantomError::Unclassified { pkg: p, file, specifier, resolved },
            PhantomView::Unclassified(edge),
        ) => p@ == pkg && file@ == edge.file && specifier@ == edge.specifier && resolved@
            == edge.resolved,
        (
            PhantomError::BareSpecifier { pkg: p, file, specifier, name },
            PhantomView::BareSpecifier(site),
        ) => p@ == pkg && file@ == site.file && specifier@ == site.specifier && name@
            == site.package_name,
        _ => false,
    }
}

impl PhantomError {
    /// What the error says.
    pub open spec fn text(&self) -> Seq<char> {
        match self {
            PhantomError::ThirdParty { pkg, file, specifier, name } => pkg@ + ": "@ + file@
                + " imports `"@ + specifier@ + "`, which resolves to the third-party package `"@
                + name@ + "`, but it is not declared in package.json. This is a phantom dependency."@,
            PhantomError::Workspace { pkg, file, specifier, owner, name } => pkg@ + ": "@ + file@
                + " imports `"@ + specifier@ + "`, which resolves into workspace package `"@ + owner@
                + "` (package name `"@ + name@
                + "`), but it is not declared in package.json. This is a phantom dependency."@,
            PhantomError::UnnamedOwner { pkg, file, specifier, owner } => pkg@ + ": "@ + file@
                + " imports `"@ + specifier@ + "`: reading package name of "@ + owner@,
            PhantomError::Unclassified { pkg, file, specifier, resolved } => pkg@ + ": "@ + file@
                + " imports `"@ + specifier@ + "`, which resolved to "@ + resolved@
                + ", outside `node_modules` and outside the workspace root: cannot classify it"@,
            PhantomError::BareSpecifier { pkg, file, specifier, name } => pkg@ + ": "@ + file@
                + " imports `"@ + specifier@ + "`, which names the third-party package `"@ + name@
                + "`, but it is not declared in package.json"@,
        }
    }

    /// What the error says.
    pub fn message(&self) -> (r: String)
        ensures
            r@ == self.text(),
    {
        match self {
            PhantomError::ThirdParty { pkg, file, specifier, name } => {
                let mut out = pkg.clone();
                out.append(": ");
                out.append(file.as_str());
                out.append(" imports `");
                out.append(specifier.as_str());
                out.append("`, which resolves to the third-party package `");
                out.append(name.as_str());
                out.append(
                    "`, but it is not declared in package.json. This is a phantom dependency.",
                );
                out
            },
            PhantomError::Workspace { pkg, file, specifier, owner, name } => {
                let mut out = pkg.clone();
                out.append(": ");
                out.append(file.as_str());
                out.append(" imports `");
                out.append(specifier.as_str());
                out.append("`, which resolves into workspace package `");
                out.append(owner.as_str());
                out.append("` (package name `");
                out.append(name.as_str());
                out.append(
                    "`), but it is not declared in package.json. This is a phantom dependency.",
                );
                out
            },
            PhantomError::UnnamedOwner { pkg, file, specifier, owner } => {
                let mut out = pkg.clone();
                out.append(": ");
                out.append(file.as_str());
                out.append(" imports `");
                out.append(specifier.as_str());
                out.append("`: reading package name of ");
                out.append(owner.as_str());
                out
            },
            PhantomError::Unclassified { pkg, file, specifier, resolved } => {
                let mut out = pkg.clone();
                out.append(": ");
                out.append(file.as_str());
                out.append(" imports `");
                out.append(specifier.as_str());
                out.append("`, which resolved to ");
                out.append(resolved.as_str());
                out.append(
                    ", outside `node_modules` and outside the workspace root: cannot classify it",
                );
                out
            },
            PhantomError::BareSpecifier { pkg, file, specifier, name } => {
                let mut out = pkg.clone();
                out.append(": ");
                out.append(file.as_str());
                out.append(" imports `");
                out.append(specifier.as_str());
                out.append("`, which names the third-party package `");
                out.append(name.as_str());
                out.append("`, but it is not declared in package.json");
                out
            },
        }
    }
}

/// What is wrong with a resolved import of the package `pkg`, if anything. It has to land in a
/// declared third-party package, in a declared workspace package or in the package itself.
pub open spec fn edge_verdict(
    fs: FilesView,
    root: Seq<char>,
    pkg: Seq<char>,
    edge: EdgeView,
    declared: Set<Seq<char>>,
) -> Option<PhantomView> {
    match third_party(edge.resolved) {
        Some(name) => if declared.contains(name) {
            None
        } else {
            Some(PhantomView::ThirdParty(edge, name))
        },
        None => match first_party_owner(fs, root, edge.resolved) {
            Some(dir) => {
                let owner = slashed(dir);
                if owner == pkg {
                    None
                } else {
                    match package_name_at(fs, under(under(root, dir), PACKAGE_JSON@)) {
                        None => Some(PhantomView::UnnamedOwner(edge, owner)),
                        Some(name) => if declared.contains(name) {
                            None
                        } else {
                            Some(PhantomView::Workspace(edge, owner, name))
                        },
                    }
                }
            },
            None => Some(PhantomView::Unclassified(edge)),
        },
    }
}

/// The first thing that is wrong among some resolved imports.
pub open spec fn first_wrong_edge(
    fs: FilesView,
    root: Seq<char>,
    pkg: Seq<char>,
    edges: Seq<EdgeView>,
    declared: Set<Seq<char>>,
) -> Option<PhantomView>
    decreases edges.len(),
{
    if edges.len() == 0 {
        None
    } else {
        match edge_verdict(fs, root, pkg, edges[0], declared) {
            Some(v) => Some(v),
            None => first_wrong_edge(fs, root, pkg, edges.drop_first(), declared),
        }
    }
}

/// The first unresolved specifier that names a package which is not declared.
pub open spec fn first_wrong_site(sites: Seq<BareView>, declared: Set<Seq<char>>) -> Option<
    PhantomView,
>
    decreases sites.len(),
{
    if sites.len() == 0 {
        None
    } else if !declared.contains(sites[0].package_name) {
        Some(PhantomView::BareSpecifier(sites[0]))
    } else {
        first_wrong_site(sites.drop_first(), declared)
    }
}

/// The first thing that is wrong with the imports of a package: of its values, then of its
/// types, then those that did not resolve.
pub open spec fn first_phantom(
    fs: FilesView,
    root: Seq<char>,
    pkg: Seq<char>,
    g: GraphView,
    declared: Set<Seq<char>>,
) -> Option<PhantomView> {
    match first_wrong_edge(fs, root, pkg, g.runtime, declared) {
        Some(v) => Some(v),
        None => match first_wrong_edge(fs, root, pkg, g.types, declared) {
            Some(v) => Some(v),
            None => first_wrong_site(g.bare, declared),
        },
    }
}

/// Checks one resolved import of the package `pkg`.
pub fn check_one_edge(
    files: &FileTree,
    workspace_root: &str,
    pkg: &str,
    edge: &ResolvedEdge,
    declared: &StrSet,
) -> (r: Result<(), PhantomError>)
    ensures
        match r {
            Ok(_) => edge_verdict(files@, workspace_root@, pkg@, edge@, declared@) is None,
            Err(e) => edge_verdict(
                files@,
                workspace_root@,
                pkg@,
                edge@,
                declared@,
            ) matches Some(v) && tells(e, pkg@, v),
        },
{
    match thirdparty_pkg_name_from_path(edge.resolved.as_str()) {
        Some(name) => {
            if declared.contains(name.as_str()) {
                return Ok(());
            }
            return Err(
                PhantomError::ThirdParty {
                    pkg: pkg.to_owned(),
                    file: edge.file.clone(),
                    specifier: edge.specifier.clone(),
                    name,
                },
            );
        },
        None => {},
    }
    match firstparty_owning_pkg_dir(files, edge.resolved.as_str(), workspace_root) {
        Some(dir) => {
            let owner = with_slashes(dir.as_str());
            if same(owner.as_str(), pkg) {
                return Ok(());
            }
            let manifest = join_path(
                join_path(workspace_root, dir.as_str()).as_str(),
                PACKAGE_JSON,
            );
            match read_package_name(files, manifest.as_str()) {
                Err(_) => Err(
                    PhantomError::UnnamedOwner {
                        pkg: pkg.to_owned(),
                        file: edge.file.clone(),
                        specifier: edge.specifier.clone(),
                        owner,
                    },
                ),
                Ok(name) => if declared.contains(name.as_str()) {
                    Ok(())
                } else {
                    Err(
                        PhantomError::Workspace {
                            pkg: pkg.to_owned(),
                            file: edge.file.clone(),
                            specifier: edge.specifier.clone(),
                            owner,
                            name,
                        },
                    )
                },
            }
        },
        None => Err(
            PhantomError::Unclassified {
                pkg: pkg.to_owned(),
                file: edge.file.clone(),
                specifier: edge.specifier.clone(),
                resolved: edge.resolved.clone(),
            },
        ),
    }
}

fn check_edges(
    files: &FileTree,
    root: &str,
    pkg: &str,
    list: &Vec<ResolvedEdge>,
    declared: &StrSet,
) -> (r: Result<(), PhantomError>)
    ensures
        match r {
            Ok(_) => first_wrong_edge(files@, root@, pkg@, edge_views(list@), declared@) is None,
            Err(e) => first_wrong_edge(
                files@,
                root@,
                pkg@,
                edge_views(list@),
                declared@,
            ) matches Some(v) && tells(e, pkg@, v),
        },
{
    let ghost all = edge_views(list@);
    let mut i: usize = 0;
    assert(all.skip(0) =~= all);
    while i < list.len()
        invariant
            i <= list.len(),
            all == edge_views(list@),
            first_wrong_edge(files@, root@, pkg@, all.skip(i as int), declared@)
                == first_wrong_edge(files@, root@, pkg@, all, declared@),
        decreases list.len() - i,
    {
        proof {
            assert(all.skip(i as int)[0] == list@[i as int]@);
            assert(all.skip(i as int).drop_first() =~= all.skip(i + 1));
        }
        match check_one_edge(files, root, pkg, &list[i], declared) {
            Err(e) => {
                return Err(e);
            },
            Ok(_) => {},
        }
        i = i + 1;
    }
    Ok(())
}

/// Checks every import of the package `pkg` against the names that it may import. The root is
/// the canonical path of the workspace, since resolved paths are canonical.
pub fn check_phantom_dependencies(
    files: &FileTree,
    canonical_root: &str,
    pkg: &str,
    graph: &ImportGraph,
    declared: &StrSet,
) -> (r: Result<(), PhantomError>)
    ensures
        match r {
            Ok(_) => first_phantom(files@, canonical_root@, pkg@, graph.graph(), declared@) is None,
            Err(e) => first_phantom(
                files@,
                canonical_root@,
                pkg@,
                graph.graph(),
                declared@,
            ) matches Some(v) && tells(e, pkg@, v),
        },
{
    match check_edges(files, canonical_root, pkg, &graph.runtime_edges, declared) {
        Err(e) => {
            return Err(e);
        },
        Ok(_) => {},
    }
    match check_edges(files, canonical_root, pkg, &graph.type_edges, declared) {
        Err(e) => {
            return Err(e);
        },
        Ok(_) => {},
    }
    let list = &graph.unresolved_bare_specifiers;
    let ghost all = graph.graph().bare;
    let mut i: usize = 0;
    assert(all.skip(0) =~= all);
    while i < list.len()
        invariant
            i <= list.len(),
            list == graph.unresolved_bare_specifiers,
            all == graph.graph().bare,
            all.len() == list@.len(),
            first_wrong_site(all.skip(i as int), declared@) == first_wrong_site(all, declared@),
            first_phantom(files@, canonical_root@, pkg@, graph.graph(), declared@)
                == first_wrong_site(all, declared@),
        decreases list.len() - i,
    {
        let site = &list[i];
        proof {
            assert(all.skip(i as int)[0] == site@);
            assert(all.skip(i as int).drop_first() =~= all.skip(i + 1));
        }
        if !declared.contains(site.package_name.as_str()) {
            return Err(
                PhantomError::BareSpecifier {
                    pkg: pkg.to_owned(),
                    file: site.file.clone(),
                    specifier: site.specifier.clone(),
                    name: site.package_name.clone(),
                },
            );
        }
        i = i + 1;
    }
    Ok(())
}

/// When nothing is wrong with a package's imports, nothing is wrong with any one of them.
pub proof fn a_clean_package_has_clean_imports(
    fs: FilesView,
    root: Seq<char>,
    pkg: Seq<char>,
    g: GraphView,
    declared: Set<Seq<char>>,
)
    requires
        first_phantom(fs, root, pkg, g, declared) is None,
    ensures
        forall|i: int|
            0 <= i < g.runtime.len() ==> edge_verdict(
                fs,
                root,
                pkg,
                #[trigger] g.runtime[i],
                declared,
            ) is None,
        forall|i: int|
            0 <= i < g.types.len() ==> edge_verdict(
                fs,
                root,
                pkg,
                #[trigger] g.types[i],
                declared,
            ) is None,
        forall|i: int|
            0 <= i < g.bare.len() ==> declared.contains((#[trigger] g.bare[i]).package_name),
{
    lemma_clean_edges(fs, root, pkg, g.runtime, declared);
    lemma_clean_edges(fs, root, pkg, g.types, declared);
    lemma_clean_sites(g.bare, declared);
}

proof fn lemma_clean_edges(
    fs: FilesView,
    root: Seq<char>,
    pkg: Seq<char>,
    edges: Seq<EdgeView>,
    declared: Set<Seq<char>>,
)
    requires
        first_wrong_edge(fs, root, pkg, edges, declared) is None,
    ensures
        forall|i: int|
            0 <= i < edges.len() ==> edge_verdict(
                fs,
                root,
                pkg,
                #[trigger] edges[i],
                declared,
            ) is None,
    decreases edges.len(),
{
    if edges.len() > 0 {
        let rest = edges.drop_first();
        lemma_clean_edges(fs, root, pkg, rest, declared);
        assert forall|i: int| 0 <= i < edges.len() implies edge_verdict(
            fs,
            root,
            pkg,
            #[trigger] edges[i],
            declared,
        ) is None by {
            if i > 0 {
                assert(edges[i] == rest[i - 1]);
            }
        }
    }
}

proof fn lemma_clean_sites(sites: Seq<BareView>, declared: Set<Seq<char>>)
    requires
        first_wrong_site(sites, declared) is None,
    ensures
        forall|i: int|
            0 <= i < sites.len() ==> declared.contains((#[trigger] sites[i]).package_name),
    decreases sites.len(),
{
    if sites.len() > 0 {
        let rest = sites.drop_first();
        lemma_clean_sites(rest, declared);
        assert forall|i: int| 0 <= i < sites.len() implies declared.contains(
            (#[trigger] sites[i]).package_name,
        ) by {
            if i > 0 {
                assert(sites[i] == rest[i - 1]);
            }
        }
    }
}

/// Declaring more never makes an import wrong that was right.
pub proof fn declaring_more_is_safe(
    fs: FilesView,
    root: Seq<char>,
    pkg: Seq<char>,
    edge: EdgeView,
    declared: Set<Seq<char>>,
    more: Set<Seq<char>>,
)
    requires
        declared.subset_of(more),
        edge_verdict(fs, root, pkg, edge, declared) is None,
    ensures
        edge_verdict(fs, root, pkg, edge, more) is None,
{
}

/// The lockfile only ever adds to what the manifest declares.
pub proof fn the_lockfile_only_widens(
    m: ManifestView,
    pkg: Seq<char>,
    l: crate::lockfile::LockView,
    g: crate::graph::Packages,
    os: Seq<char>,
    arch: Seq<char>,
)
    ensures
        declared_names(m).subset_of(widened_names(m, pkg, l, g, os, arch)),
        widened_names(m, pkg, l, g, os, arch).contains(m.name),
{
}

} // verus!
