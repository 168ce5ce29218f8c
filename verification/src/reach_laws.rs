//! Which packages a lockfile resolves names to, which of them its graph holds, and which are
//! reached from others.
use crate::graph::{
    append_new, discovered, discovery, edges, first_named, flat, key_of, merged, pairs, targets,
    usable, PackageView, Packages,
};
use crate::graph_laws::{
    discovery_follows_every_edge, discovery_needs_an_edge, lemma_append_members,
    lemma_discovered_grows, lemma_discovery_ends, optional_edges_need_the_platform,
};
use crate::npm::{
    dir_above, npm_graph, npm_package, npm_packages, npm_resolution, the_nearest_install_wins,
    NpmEntries,
};
use crate::path::below_node_modules;
use crate::placement_laws::finite_sets_are_listed;
use crate::platform::applies_to;
use crate::pnpm::{key_parts, pnpm_graph, pnpm_package, pnpm_packages, pnpm_resolution, PnpmView};
use crate::resolution::ResolutionView;
use crate::sorted::listing;
use crate::text::{
    lemma_find_char, lemma_find_char_is, lemma_find_last_char, lemma_find_last_char_is, upto_char,
};
use vstd::prelude::*;

verus! {

/// A directory below another one is below nothing else on the way up; one without a `/` is below
/// the root.
proof fn lemma_above(a: Seq<char>, b: Seq<char>)
    requires
        !b.contains('/'),
    ensures
        dir_above(a + "/"@ + b) == a,
        dir_above(b) == Seq::<char>::empty(),
{
    reveal_strlit("/");
    let s = a + "/"@ + b;
    let n = a.len() as int;
    assert(s[n] == '/');
    assert forall|j: int| n < j < s.len() implies s[j] != '/' by {
        assert(s[j] == b[j - n - 1]);
        assert(b.contains(b[j - n - 1]));
    }
    lemma_find_last_char_is(s, '/', n);
    assert(s.take(n) =~= a);
    lemma_find_last_char(b, '/');
}

/// In a `package-lock.json` a name resolves to what is installed nearest: in the directory's own
/// `node_modules` if it is there, as a member of the workspace where it is a link, and else as
/// the recorded version.
pub proof fn npm_names_resolve_to_their_own_install(ps: NpmEntries, from: Seq<char>, name: Seq<char>)
    ensures
        ({
            let at = if from.len() == 0 {
                "node_modules/"@ + name
            } else {
                from + "/node_modules/"@ + name
            };
            ps.dom().contains(at) ==> {
                &&& ps[at].link ==> npm_resolution(ps, from, name) == Some(ResolutionView::Workspace)
                &&& !ps[at].link ==> (npm_resolution(ps, from, name) is Some
                    <==> ps[at].version is Some)
                &&& !ps[at].link && ps[at].version is Some ==> npm_resolution(ps, from, name)
                    == Some(ResolutionView::ThirdParty { name, version: ps[at].version->0 })
            }
        }),
        from.len() == 0 && !ps.dom().contains("node_modules/"@ + name) ==> npm_resolution(
            ps,
            from,
            name,
        ) is None,
{
    reveal_strlit("node_modules/");
    reveal_strlit("node_modules");
    reveal_strlit("/node_modules/");
    reveal_strlit("/node_modules");
    reveal_strlit("/");
    assert("node_modules"@ + "/"@ + name =~= "node_modules/"@ + name);
    assert(from + "/node_modules"@ + "/"@ + name =~= from + "/node_modules/"@ + name);
    if from.len() == 0 {
        let dirs = crate::npm::node_modules_dirs(from);
        assert(dirs[0] == "node_modules"@);
        assert(dirs.drop_first().len() == 0);
        assert(crate::npm::first_hit(ps, dirs.drop_first(), name) is None);
    } else {
        the_nearest_install_wins(ps, from, name);
    }
}

/// What is not installed in a directory's own `node_modules` is looked for from the directory
/// above it, up to the root.
pub proof fn npm_names_are_looked_for_above(
    ps: NpmEntries,
    a: Seq<char>,
    b: Seq<char>,
    name: Seq<char>,
)
    requires
        !b.contains('/'),
    ensures
        !ps.dom().contains(a + "/"@ + b + "/node_modules/"@ + name) ==> npm_resolution(
            ps,
            a + "/"@ + b,
            name,
        ) == npm_resolution(ps, a, name),
        b.len() > 0 && !ps.dom().contains(b + "/node_modules/"@ + name) ==> npm_resolution(
            ps,
            b,
            name,
        ) == npm_resolution(ps, Seq::empty(), name),
{
    reveal_strlit("/node_modules/");
    reveal_strlit("/node_modules");
    reveal_strlit("/");
    lemma_above(a, b);
    let from = a + "/"@ + b;
    assert(from + "/node_modules"@ + "/"@ + name =~= from + "/node_modules/"@ + name);
    assert(b + "/node_modules"@ + "/"@ + name =~= b + "/node_modules/"@ + name);
    the_nearest_install_wins(ps, from, name);
    if b.len() > 0 {
        the_nearest_install_wins(ps, b, name);
    }
}

/// An entry of a `package-lock.json` below a `node_modules` that is no link and has a version is
/// a package: of its own name, or else of the name of its directory, with all that is recorded
/// of it, and with an edge for each of its dependencies that is installed where it looks.
pub proof fn installed_npm_entries_are_packages(
    ps: NpmEntries,
    path: Seq<char>,
    suffix: Seq<char>,
    n: Seq<char>,
    version: Seq<char>,
)
    requires
        below_node_modules(path) == Some(suffix),
        ps[path].version is Some,
        !ps[path].link,
    ensures
        npm_package(ps, path) matches Some(p) && {
            let e = ps[path];
            &&& e.name == Some(n) ==> p.name == n
            &&& e.name is None ==> p.name == suffix
            &&& p.version == e.version->0
            &&& e.integrity == Some(n) ==> p.integrity == n
            &&& e.integrity is None ==> p.integrity.len() == 0
            &&& p.resolved == e.resolved
            &&& p.os == e.os
            &&& p.cpu == e.cpu
            &&& p.has_install_script == e.has_install_script
            &&& npm_resolution(ps, path, n) == Some(
                ResolutionView::ThirdParty { name: n, version },
            ) ==> {
                &&& e.dependencies.dom().contains(n) ==> p.dependencies.dom().contains(n)
                    && p.dependencies[n] == key_of(n, version)
                &&& e.optional_dependencies.dom().contains(n)
                    ==> p.optional_dependencies.dom().contains(n) && p.optional_dependencies[n]
                    == key_of(n, version)
            }
            &&& p.dependencies.dom().contains(n) ==> e.dependencies.dom().contains(n) && (
            npm_resolution(ps, path, n) matches Some(ResolutionView::ThirdParty { .. }))
            &&& p.optional_dependencies.dom().contains(n) ==> e.optional_dependencies.dom().contains(
                n,
            ) && (npm_resolution(ps, path, n) matches Some(ResolutionView::ThirdParty { .. }))
        },
{
}

/// Nothing else is a package.
pub proof fn only_installed_npm_entries_are_packages(ps: NpmEntries, path: Seq<char>)
    requires
        npm_package(ps, path) is Some,
    ensures
        below_node_modules(path) is Some,
        ps[path].version is Some,
        !ps[path].link,
{
}

proof fn lemma_merged_holds(list: Seq<PackageView>, i: int)
    requires
        merged(list) is Some,
        0 <= i < list.len(),
    ensures
        merged(list)->0.dom().contains(key_of(list[i].name, list[i].version)),
    decreases list.len(),
{
    if i < list.len() - 1 {
        lemma_merged_holds(list.drop_last(), i);
    }
}

proof fn lemma_npm_listed(ps: NpmEntries, paths: Seq<Seq<char>>, i: int) -> (j: int)
    requires
        0 <= i < paths.len(),
        npm_package(ps, paths[i]) is Some,
    ensures
        0 <= j < npm_packages(ps, paths).len(),
        npm_packages(ps, paths)[j] == npm_package(ps, paths[i])->0,
    decreases paths.len(),
{
    let before = npm_packages(ps, paths.drop_last());
    if i < paths.len() - 1 {
        lemma_npm_listed(ps, paths.drop_last(), i)
    } else {
        before.len() as int
    }
}

/// The graph of a `package-lock.json` holds every package of it under its name and version.
pub proof fn the_npm_graph_holds_every_package(ps: NpmEntries, path: Seq<char>)
    requires
        ps.dom().finite(),
        ps.dom().contains(path),
        npm_graph(ps) is Some,
        npm_package(ps, path) is Some,
    ensures
        npm_graph(ps)->0.dom().contains(
            key_of(npm_package(ps, path)->0.name, npm_package(ps, path)->0.version),
        ),
{
    finite_sets_are_listed(ps.dom());
    let paths = listing(ps.dom());
    assert(paths.to_set().contains(path));
    let i = choose|i: int| 0 <= i < paths.len() && paths[i] == path;
    let j = lemma_npm_listed(ps, paths, i);
    lemma_merged_holds(npm_packages(ps, paths), j);
}

proof fn lemma_npm_package_of(ps: NpmEntries, paths: Seq<Seq<char>>, j: int) -> (i: int)
    requires
        0 <= j < npm_packages(ps, paths).len(),
    ensures
        0 <= i < paths.len(),
        npm_package(ps, paths[i]) == Some(npm_packages(ps, paths)[j]),
    decreases paths.len(),
{
    let before = npm_packages(ps, paths.drop_last());
    if j < before.len() {
        lemma_npm_package_of(ps, paths.drop_last(), j)
    } else {
        paths.len() - 1
    }
}

/// The graph of a `package-lock.json` holds nothing else: each package of it is that of some
/// entry, under its name and version.
pub proof fn the_npm_graph_holds_only_packages(ps: NpmEntries, key: Seq<char>) -> (path: Seq<char>)
    requires
        ps.dom().finite(),
        npm_graph(ps) is Some,
        npm_graph(ps)->0.dom().contains(key),
    ensures
        ps.dom().contains(path),
        npm_package(ps, path) == Some(npm_graph(ps)->0[key]),
        key == key_of(npm_graph(ps)->0[key].name, npm_graph(ps)->0[key].version),
{
    finite_sets_are_listed(ps.dom());
    let paths = listing(ps.dom());
    let j = crate::graph::lemma_merged_entry(npm_packages(ps, paths), key);
    let i = lemma_npm_package_of(ps, paths, j);
    assert(paths.to_set().contains(paths[i]));
    paths[i]
}

/// In a `pnpm-lock.yaml` a name resolves to the version that the importer of the package records,
/// whichever of its groups declares it: a link or a file is a member of the workspace, and else
/// it is the package of that name and version. The importer of the root is called `.`.
pub proof fn pnpm_names_resolve_to_the_recorded_version(
    l: PnpmView,
    from: Seq<char>,
    name: Seq<char>,
    v: Seq<char>,
)
    requires
        ({
            let key = if from.len() == 0 {
                "."@
            } else {
                from
            };
            &&& l.importers.dom().contains(key)
            &&& {
                let i = l.importers[key];
                ||| i.dependencies.dom().contains(name) && i.dependencies[name] == v
                ||| !i.dependencies.dom().contains(name) && i.dev_dependencies.dom().contains(name)
                    && i.dev_dependencies[name] == v
                ||| !i.dependencies.dom().contains(name) && !i.dev_dependencies.dom().contains(name)
                    && i.optional_dependencies.dom().contains(name)
                    && i.optional_dependencies[name] == v
            }
        }),
    ensures
        "link:"@.is_prefix_of(v) || "file:"@.is_prefix_of(v) ==> pnpm_resolution(l, from, name)
            == Some(ResolutionView::Workspace),
        !"link:"@.is_prefix_of(v) && !"file:"@.is_prefix_of(v) && !v.contains('(')
            ==> pnpm_resolution(l, from, name) == Some(
            ResolutionView::ThirdParty { name, version: v },
        ),
        forall|a: Seq<char>, b: Seq<char>|
            !"link:"@.is_prefix_of(v) && !"file:"@.is_prefix_of(v) && !a.contains('(') && v
                == #[trigger] (a + "("@ + b) ==> pnpm_resolution(l, from, name) == Some(
                ResolutionView::ThirdParty { name, version: a },
            ),
{
    reveal_strlit("(");
    lemma_find_char(v, '(');
    assert(v.take(v.len() as int) =~= v);
    assert forall|a: Seq<char>, b: Seq<char>|
        !"link:"@.is_prefix_of(v) && !"file:"@.is_prefix_of(v) && !a.contains('(') && v
            == #[trigger] (a + "("@ + b) implies pnpm_resolution(l, from, name) == Some(
        ResolutionView::ThirdParty { name, version: a },
    ) by {
        assert forall|j: int| 0 <= j < a.len() implies v[j] != '(' by {
            assert(a.contains(a[j]));
        }
        assert(v[a.len() as int] == '(');
        lemma_find_char_is(v, '(', a.len() as int);
        assert(v.take(a.len() as int) =~= a);
    }
}

/// A name that no group of the importer declares has no resolution, nor has any of a package
/// without an importer.
pub proof fn undeclared_pnpm_names_have_no_resolution(l: PnpmView, from: Seq<char>, name: Seq<char>)
    requires
        ({
            let key = if from.len() == 0 {
                "."@
            } else {
                from
            };
            l.importers.dom().contains(key) ==> !l.importers[key].dependencies.dom().contains(name)
                && !l.importers[key].dev_dependencies.dom().contains(name)
                && !l.importers[key].optional_dependencies.dom().contains(name)
        }),
    ensures
        pnpm_resolution(l, from, name) is None,
{
}

/// An entry under `packages` of a `pnpm-lock.yaml` is the package that its key spells, with all
/// that is recorded of it, and with an edge for each dependency of its snapshot that leads to a
/// package of the lockfile.
pub proof fn pnpm_entries_are_packages(
    l: PnpmView,
    key: Seq<char>,
    name: Seq<char>,
    version: Seq<char>,
    n: Seq<char>,
    to: Seq<char>,
    other: Seq<char>,
    at: Seq<char>,
)
    requires
        key_parts(key) == Some((name, version)),
        key_parts(to) == Some((other, at)),
    ensures
        pnpm_package(l, key) matches Some(p) && {
            let e = l.packages[key];
            &&& p.name == name
            &&& p.version == version
            &&& e.integrity == Some(n) ==> p.integrity == n
            &&& e.integrity is None ==> p.integrity.len() == 0
            &&& p.resolved == e.tarball
            &&& p.os == e.os
            &&& p.cpu == e.cpu
            &&& p.has_install_script == e.requires_build
            &&& l.snapshots.dom().contains(key) && l.packages.dom().contains(to) ==> {
                let s = l.snapshots[key];
                &&& s.dependencies.dom().contains(n) && key_parts(key_of(n, s.dependencies[n]))
                    == key_parts(to) ==> p.dependencies.dom().contains(n) && p.dependencies[n]
                    == key_of(other, at)
                &&& s.optional_dependencies.dom().contains(n) && key_parts(
                    key_of(n, s.optional_dependencies[n]),
                ) == key_parts(to) ==> p.optional_dependencies.dom().contains(n)
                    && p.optional_dependencies[n] == key_of(other, at)
            }
            &&& p.dependencies.dom().contains(n) ==> l.snapshots.dom().contains(key)
                && l.snapshots[key].dependencies.dom().contains(n)
            &&& p.optional_dependencies.dom().contains(n) ==> l.snapshots.dom().contains(key)
                && l.snapshots[key].optional_dependencies.dom().contains(n)
        },
{
}

proof fn lemma_pnpm_listed(l: PnpmView, keys: Seq<Seq<char>>, i: int) -> (j: int)
    requires
        0 <= i < keys.len(),
        pnpm_package(l, keys[i]) is Some,
    ensures
        0 <= j < pnpm_packages(l, keys).len(),
        pnpm_packages(l, keys)[j] == pnpm_package(l, keys[i])->0,
    decreases keys.len(),
{
    let before = pnpm_packages(l, keys.drop_last());
    if i < keys.len() - 1 {
        lemma_pnpm_listed(l, keys.drop_last(), i)
    } else {
        before.len() as int
    }
}

proof fn lemma_pnpm_package_of(l: PnpmView, keys: Seq<Seq<char>>, j: int) -> (i: int)
    requires
        0 <= j < pnpm_packages(l, keys).len(),
    ensures
        0 <= i < keys.len(),
        pnpm_package(l, keys[i]) == Some(pnpm_packages(l, keys)[j]),
    decreases keys.len(),
{
    let before = pnpm_packages(l, keys.drop_last());
    if j < before.len() {
        lemma_pnpm_package_of(l, keys.drop_last(), j)
    } else {
        keys.len() - 1
    }
}

/// The graph of a `pnpm-lock.yaml` holds every package whose key spells a name and a version.
pub proof fn the_pnpm_graph_holds_every_package(
    l: PnpmView,
    key: Seq<char>,
    name: Seq<char>,
    version: Seq<char>,
)
    requires
        l.packages.dom().finite(),
        l.packages.dom().contains(key),
        pnpm_graph(l) is Some,
        key_parts(key) == Some((name, version)),
    ensures
        pnpm_graph(l)->0.dom().contains(key_of(name, version)),
{
    finite_sets_are_listed(l.packages.dom());
    let keys = listing(l.packages.dom());
    assert(keys.to_set().contains(key));
    let i = choose|i: int| 0 <= i < keys.len() && keys[i] == key;
    let j = lemma_pnpm_listed(l, keys, i);
    lemma_merged_holds(pnpm_packages(l, keys), j);
}

/// The graph of a `pnpm-lock.yaml` holds nothing else.
pub proof fn the_pnpm_graph_holds_only_packages(l: PnpmView, key: Seq<char>) -> (at: Seq<char>)
    requires
        l.packages.dom().finite(),
        pnpm_graph(l) is Some,
        pnpm_graph(l)->0.dom().contains(key),
    ensures
        l.packages.dom().contains(at),
        pnpm_package(l, at) == Some(pnpm_graph(l)->0[key]),
        key == key_of(pnpm_graph(l)->0[key].name, pnpm_graph(l)->0[key].version),
{
    finite_sets_are_listed(l.packages.dom());
    let keys = listing(l.packages.dom());
    let j = crate::graph::lemma_merged_entry(pnpm_packages(l, keys), key);
    let i = lemma_pnpm_package_of(l, keys, j);
    assert(keys.to_set().contains(keys[i]));
    keys[i]
}

proof fn lemma_pairs_hold(m: Map<Seq<char>, Seq<char>>, name: Seq<char>, key: Seq<char>)
    requires
        m.dom().finite(),
    ensures
        pairs(m).contains((name, key)) <==> m.dom().contains(name) && m[name] == key,
{
    finite_sets_are_listed(m.dom());
    let l = listing(m.dom());
    if m.dom().contains(name) {
        assert(l.to_set().contains(name));
        let i = choose|i: int| 0 <= i < l.len() && l[i] == name;
        assert(pairs(m)[i] == (name, m[name]));
    }
    if pairs(m).contains((name, key)) {
        let i = choose|i: int| 0 <= i < pairs(m).len() && pairs(m)[i] == (name, key);
        assert(pairs(m)[i] == (l[i], m[l[i]]));
        assert(l.to_set().contains(l[i]));
    }
}

/// Whatever a reached package depends on is reached: each dependency, and each optional one that
/// the graph holds and that applies to the platform.
pub proof fn dependencies_of_the_reached_are_reached(
    g: Packages,
    os: Seq<char>,
    arch: Seq<char>,
    seeds: Seq<Seq<char>>,
    parent: Seq<char>,
    name: Seq<char>,
)
    requires
        g.dom().finite(),
        g.dom().contains(parent),
        g[parent].dependencies.dom().finite(),
        g[parent].optional_dependencies.dom().finite(),
        discovery(g, os, arch, seeds).contains(parent),
    ensures
        g[parent].dependencies.dom().contains(name) ==> discovery(g, os, arch, seeds).contains(
            g[parent].dependencies[name],
        ),
        g[parent].optional_dependencies.dom().contains(name) && ({
            let key = g[parent].optional_dependencies[name];
            g.dom().contains(key) && applies_to(g[key].os, g[key].cpu, os, arch)
        }) ==> discovery(g, os, arch, seeds).contains(g[parent].optional_dependencies[name]),
{
    let p = g[parent];
    let f = |e: (Seq<char>, Seq<char>)| usable(g, e.1, os, arch);
    let required = pairs(p.dependencies);
    let optional = pairs(p.optional_dependencies);
    let es = edges(g, p, os, arch);
    if p.dependencies.dom().contains(name) {
        let e = (name, p.dependencies[name]);
        lemma_pairs_hold(p.dependencies, name, e.1);
        let i = choose|i: int| 0 <= i < required.len() && required[i] == e;
        assert(es[i] == e);
        discovery_follows_every_edge(g, os, arch, seeds, parent, name, e.1);
    }
    if p.optional_dependencies.dom().contains(name) {
        let e = (name, p.optional_dependencies[name]);
        if usable(g, e.1, os, arch) {
            lemma_pairs_hold(p.optional_dependencies, name, e.1);
            let i = choose|i: int| 0 <= i < optional.len() && optional[i] == e;
            optional.lemma_filter_contains(f, i);
            let kept = optional.filter(f);
            let k = choose|k: int| 0 <= k < kept.len() && kept[k] == e;
            assert(es[required.len() + k] == e);
            discovery_follows_every_edge(g, os, arch, seeds, parent, name, e.1);
        }
    }
}

/// Nothing else is reached: what is reached is a seed, or a dependency of something reached, or an
/// optional one of it that applies to the platform.
pub proof fn only_dependencies_are_reached(
    g: Packages,
    os: Seq<char>,
    arch: Seq<char>,
    seeds: Seq<Seq<char>>,
    key: Seq<char>,
)
    requires
        g.dom().finite(),
        forall|k: Seq<char>| #[trigger]
            g.dom().contains(k) ==> g[k].dependencies.dom().finite()
                && g[k].optional_dependencies.dom().finite(),
        discovery(g, os, arch, seeds).contains(key),
    ensures
        seeds.contains(key) || exists|parent: Seq<char>, name: Seq<char>|
            discovery(g, os, arch, seeds).contains(parent) && #[trigger] g.dom().contains(parent) && (
            #[trigger] g[parent].dependencies.dom().contains(name)
                && g[parent].dependencies[name] == key
                || g[parent].optional_dependencies.dom().contains(name)
                && g[parent].optional_dependencies[name] == key && g.dom().contains(key)
                && applies_to(g[key].os, g[key].cpu, os, arch)),
{
    discovery_needs_an_edge(g, os, arch, seeds, key);
    if !seeds.contains(key) {
        let parent = choose|parent: Seq<char>|
            discovery(g, os, arch, seeds).contains(parent) && g.dom().contains(parent)
                && #[trigger] targets(g, g[parent], os, arch).contains(key);
        let ts = targets(g, g[parent], os, arch);
        let es = edges(g, g[parent], os, arch);
        let i = choose|i: int| 0 <= i < ts.len() && ts[i] == key;
        let name = es[i].0;
        assert(es[i] == (name, key));
        optional_edges_need_the_platform(g, g[parent], os, arch, i);
        lemma_pairs_hold(g[parent].dependencies, name, key);
        lemma_pairs_hold(g[parent].optional_dependencies, name, key);
        assert(g.dom().contains(parent));
    }
}

proof fn lemma_first_named_is(g: Packages, order: Seq<Seq<char>>, name: Seq<char>, i: int)
    requires
        0 <= i < order.len(),
        g.dom().contains(order[i]),
        g[order[i]].name == name,
        forall|j: int|
            0 <= j < i ==> !(g.dom().contains(#[trigger] order[j]) && g[order[j]].name == name),
    ensures
        first_named(g, order, name) == Some(order[i]),
    decreases order.len(),
{
    let rest = order.drop_last();
    if i < rest.len() {
        lemma_first_named_is(g, rest, name, i);
    } else {
        lemma_first_named_none(g, rest, name);
    }
}

proof fn lemma_first_named_none(g: Packages, order: Seq<Seq<char>>, name: Seq<char>)
    requires
        forall|j: int|
            0 <= j < order.len() ==> !(g.dom().contains(#[trigger] order[j]) && g[order[j]].name
                == name),
    ensures
        first_named(g, order, name) is None,
    decreases order.len(),
{
    if order.len() > 0 {
        let rest = order.drop_last();
        assert forall|j: int| 0 <= j < rest.len() implies !(g.dom().contains(#[trigger] rest[j])
            && g[rest[j]].name == name) by {
            assert(order[j] == rest[j]);
        }
        assert(order[order.len() - 1] == order.last());
        lemma_first_named_none(g, rest, name);
    }
}

/// A package's own dependency is what is placed flat under its name, whatever versions of it
/// others need, where no other of its own dependencies has that name.
pub proof fn own_dependencies_are_placed_flat(
    g: Packages,
    os: Seq<char>,
    arch: Seq<char>,
    seeds: Seq<Seq<char>>,
    key: Seq<char>,
)
    requires
        g.dom().finite(),
        seeds.contains(key),
        g.dom().contains(key),
        forall|other: Seq<char>| #[trigger]
            seeds.contains(other) && g.dom().contains(other) && g[other].name == g[key].name
                ==> other == key,
    ensures
        flat(g, os, arch, seeds).dom().contains(g[key].name),
        flat(g, os, arch, seeds)[g[key].name] == key,
{
    let order = discovery(g, os, arch, seeds);
    let n = lemma_discovery_ends(g, os, arch, seeds);
    let first = append_new(Seq::empty(), seeds);
    lemma_append_members(Seq::empty(), seeds, key);
    lemma_discovered_grows(g, os, arch, seeds, 0, n);
    assert(discovered(g, os, arch, seeds, 0) == first);
    let k = choose|k: int| 0 <= k < first.len() && first[k] == key;
    let i = lemma_first_index(first, key);
    assert(order.take(first.len() as int) == first);
    assert(order[i] == order.take(first.len() as int)[i]);
    assert forall|j: int| 0 <= j < i implies !(g.dom().contains(#[trigger] order[j])
        && g[order[j]].name == g[key].name) by {
        assert(order[j] == order.take(first.len() as int)[j]);
        assert(first.contains(first[j]));
        lemma_append_members(Seq::empty(), seeds, first[j]);
    }
    lemma_first_named_is(g, order, g[key].name, i);
}

proof fn lemma_first_index(l: Seq<Seq<char>>, x: Seq<char>) -> (i: int)
    requires
        l.contains(x),
    ensures
        0 <= i < l.len(),
        l[i] == x,
        forall|j: int| 0 <= j < i ==> l[j] != x,
    decreases l.len(),
{
    if l[0] == x {
        0
    } else {
        let rest = l.drop_first();
        let k = choose|k: int| 0 <= k < l.len() && l[k] == x;
        assert(rest[k - 1] == x);
        let i = lemma_first_index(rest, x);
        assert forall|j: int| 0 <= j < i + 1 implies l[j] != x by {
            if j > 0 {
                assert(rest[j - 1] == l[j]);
            }
        }
        i + 1
    }
}

/// What a key or a version of a `pnpm-lock.yaml` says of peers, in parentheses, does not count.
pub proof fn peers_do_not_count(key: Seq<char>, peers: Seq<char>)
    requires
        !key.contains('('),
    ensures
        key_parts(key + seq!['('] + peers) == key_parts(key),
        upto_char(key + seq!['('] + peers, '(') == key,
{
    let s = key + seq!['('] + peers;
    let n = key.len() as int;
    assert(s[n] == '(');
    assert forall|j: int| 0 <= j < n implies s[j] != '(' by {
        assert(s[j] == key[j]);
        assert(key.contains(key[j]));
    }
    lemma_find_char_is(s, '(', n);
    lemma_find_char(key, '(');
    assert(s.take(n) =~= key);
    assert(key.take(n) =~= key);
}

} // verus!
