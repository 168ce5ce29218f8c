//! What a package's declared dependencies lead to: packages that are placed, and addresses that
//! are wired.
use crate::deps::{dep_outcome, wire_all, wired_names, DepFailure, DepView, WireContext};
use crate::graph::{flat, key_of, nests_too_deep, Packages};
use crate::graph_laws::{
    discovered_names_are_placed, flat_packages_have_their_name, seeds_are_discovered,
};
use crate::lockfile::{declared_names, lock_resolution, seed_keys, third_party_keys, LockView};
use crate::package_json::ManifestView;
use crate::placement_laws::finite_sets_are_listed;
use crate::platform::applies_to;
use crate::resolution::ResolutionView;
use crate::sorted::listing;
use crate::thirdparty::node_modules_text;
use vstd::prelude::*;

verus! {

/// Every text of a finite set is listed, and nothing else.
proof fn lemma_listed(s: Set<Seq<char>>, n: Seq<char>)
    requires
        s.finite(),
    ensures
        listing(s).contains(n) <==> s.contains(n),
{
    finite_sets_are_listed(s);
    assert(listing(s).to_set().contains(n) <==> listing(s).contains(n));
}

proof fn lemma_joined_contain(a: Seq<Seq<char>>, b: Seq<Seq<char>>, n: Seq<char>)
    ensures
        (a + b).contains(n) <==> a.contains(n) || b.contains(n),
{
    if a.contains(n) {
        let i = choose|i: int| 0 <= i < a.len() && a[i] == n;
        assert((a + b)[i] == n);
    }
    if b.contains(n) {
        let i = choose|i: int| 0 <= i < b.len() && b[i] == n;
        assert((a + b)[a.len() + i] == n);
    }
}

proof fn lemma_third_party(
    l: LockView,
    from: Seq<char>,
    names: Seq<Seq<char>>,
    name: Seq<char>,
    version: Seq<char>,
    declared: Seq<char>,
)
    requires
        names.contains(declared),
        lock_resolution(l, from, declared) == Some(ResolutionView::ThirdParty { name, version }),
    ensures
        third_party_keys(l, from, names).contains(key_of(name, version)),
    decreases names.len(),
{
    let rest = names.drop_last();
    let before = third_party_keys(l, from, rest);
    let now = third_party_keys(l, from, names);
    let key = key_of(name, version);
    if names.last() == declared {
        assert(now[before.len() as int] == key);
    } else {
        let i = choose|i: int| 0 <= i < names.len() && names[i] == declared;
        assert(rest[i] == declared);
        lemma_third_party(l, from, rest, name, version, declared);
        let k = choose|k: int| 0 <= k < before.len() && before[k] == key;
        assert(now[k] == key);
    }
}

proof fn lemma_only_third_party(
    l: LockView,
    from: Seq<char>,
    names: Seq<Seq<char>>,
    key: Seq<char>,
) -> (declared: Seq<char>)
    requires
        third_party_keys(l, from, names).contains(key),
    ensures
        names.contains(declared),
        lock_resolution(l, from, declared) matches Some(
            ResolutionView::ThirdParty { name, version },
        ) && key == key_of(name, version),
    decreases names.len(),
{
    let rest = names.drop_last();
    let before = third_party_keys(l, from, rest);
    let now = third_party_keys(l, from, names);
    let k = choose|k: int| 0 <= k < now.len() && now[k] == key;
    if k < before.len() {
        assert(before[k] == key);
        let declared = lemma_only_third_party(l, from, rest, key);
        let i = choose|i: int| 0 <= i < rest.len() && rest[i] == declared;
        assert(names[i] == declared);
        declared
    } else {
        assert(names[names.len() - 1] == names.last());
        names.last()
    }
}

/// A package that the lockfile resolves a declared dependency to, be it declared for use, for
/// development or as a peer, is a seed.
pub proof fn every_declared_package_is_a_seed(
    l: LockView,
    from: Seq<char>,
    m: ManifestView,
    declared: Seq<char>,
    name: Seq<char>,
    version: Seq<char>,
)
    requires
        m.dependencies.dom().finite(),
        m.dev_dependencies.dom().finite(),
        m.peer_dependencies.dom().finite(),
        m.dependencies.dom().contains(declared) || m.dev_dependencies.dom().contains(declared)
            || m.peer_dependencies.dom().contains(declared),
        lock_resolution(l, from, declared) == Some(ResolutionView::ThirdParty { name, version }),
    ensures
        seed_keys(l, from, m).contains(key_of(name, version)),
{
    let a = listing(m.dependencies.dom());
    let b = listing(m.dev_dependencies.dom());
    let c = listing(m.peer_dependencies.dom());
    lemma_listed(m.dependencies.dom(), declared);
    lemma_listed(m.dev_dependencies.dom(), declared);
    lemma_listed(m.peer_dependencies.dom(), declared);
    lemma_joined_contain(a, b, declared);
    lemma_joined_contain(a + b, c, declared);
    lemma_third_party(l, from, declared_names(m), name, version, declared);
}

/// Nothing else is a seed: each is the package that the lockfile resolves some declared
/// dependency to.
pub proof fn every_seed_is_a_declared_package(
    l: LockView,
    from: Seq<char>,
    m: ManifestView,
    key: Seq<char>,
) -> (declared: Seq<char>)
    requires
        m.dependencies.dom().finite(),
        m.dev_dependencies.dom().finite(),
        m.peer_dependencies.dom().finite(),
        seed_keys(l, from, m).contains(key),
    ensures
        m.dependencies.dom().contains(declared) || m.dev_dependencies.dom().contains(declared)
            || m.peer_dependencies.dom().contains(declared),
        lock_resolution(l, from, declared) matches Some(
            ResolutionView::ThirdParty { name, version },
        ) && key == key_of(name, version),
{
    let declared = lemma_only_third_party(l, from, declared_names(m), key);
    let a = listing(m.dependencies.dom());
    let b = listing(m.dev_dependencies.dom());
    let c = listing(m.peer_dependencies.dom());
    lemma_listed(m.dependencies.dom(), declared);
    lemma_listed(m.dev_dependencies.dom(), declared);
    lemma_listed(m.peer_dependencies.dom(), declared);
    lemma_joined_contain(a, b, declared);
    lemma_joined_contain(a + b, c, declared);
    declared
}

/// A package of the graph that a declared dependency resolves to, peers included, has its name
/// in the flat placement.
pub proof fn every_declared_package_is_placed(
    l: LockView,
    g: Packages,
    from: Seq<char>,
    m: ManifestView,
    os: Seq<char>,
    arch: Seq<char>,
    declared: Seq<char>,
    name: Seq<char>,
    version: Seq<char>,
)
    requires
        g.dom().finite(),
        m.dependencies.dom().finite(),
        m.dev_dependencies.dom().finite(),
        m.peer_dependencies.dom().finite(),
        m.dependencies.dom().contains(declared) || m.dev_dependencies.dom().contains(declared)
            || m.peer_dependencies.dom().contains(declared),
        lock_resolution(l, from, declared) == Some(ResolutionView::ThirdParty { name, version }),
        g.dom().contains(key_of(name, version)),
        g[key_of(name, version)].name == name,
    ensures
        flat(g, os, arch, seed_keys(l, from, m)).dom().contains(name),
        g[flat(g, os, arch, seed_keys(l, from, m))[name]].name == name,
{
    let seeds = seed_keys(l, from, m);
    every_declared_package_is_a_seed(l, from, m, declared, name, version);
    seeds_are_discovered(g, os, arch, seeds, key_of(name, version));
    discovered_names_are_placed(g, os, arch, seeds, key_of(name, version));
    flat_packages_have_their_name(g, os, arch, seeds, name);
}

proof fn lemma_wired(
    c: WireContext,
    items: Seq<(Seq<char>, Seq<char>)>,
    i: int,
)
    requires
        0 <= i < items.len(),
        wire_all(c, items) is Ok,
    ensures
        dep_outcome(c, items[i].1) is Ok,
        dep_outcome(c, items[i].1) matches Ok(Some(addr)) ==> wire_all(c, items)->Ok_0.contains(
            DepView { group: items[i].0, name: items[i].1, addr },
        ),
    decreases items.len(),
{
    let rest = items.drop_last();
    let done = wire_all(c, rest)->Ok_0;
    let now = wire_all(c, items)->Ok_0;
    if i < items.len() - 1 {
        lemma_wired(c, rest, i);
        assert(rest[i] == items[i]);
        if let Ok(Some(addr)) = dep_outcome(c, items[i].1) {
            let d = DepView { group: items[i].0, name: items[i].1, addr };
            let k = choose|k: int| 0 <= k < done.len() && done[k] == d;
            assert(now[k] == d);
        }
    } else if let Ok(Some(addr)) = dep_outcome(c, items[i].1) {
        assert(now[done.len() as int] == (DepView { group: items[i].0, name: items[i].1, addr }));
    }
}

proof fn lemma_only_wired(
    c: WireContext,
    items: Seq<(Seq<char>, Seq<char>)>,
    k: int,
)
    requires
        wire_all(c, items) is Ok,
        0 <= k < wire_all(c, items)->Ok_0.len(),
    ensures
        ({
            let d = wire_all(c, items)->Ok_0[k];
            &&& items.contains((d.group, d.name))
            &&& dep_outcome(c, d.name) == Ok::<Option<Seq<char>>, DepFailure>(Some(d.addr))
        }),
    decreases items.len(),
{
    let rest = items.drop_last();
    let done = wire_all(c, rest)->Ok_0;
    let d = wire_all(c, items)->Ok_0[k];
    if k < done.len() {
        lemma_only_wired(c, rest, k);
        let i = choose|i: int| 0 <= i < rest.len() && rest[i] == (d.group, d.name);
        assert(items[i] == (d.group, d.name));
    } else {
        assert(items[items.len() - 1] == (d.group, d.name));
    }
}

proof fn lemma_first_wiring_failure(c: WireContext, items: Seq<(Seq<char>, Seq<char>)>) -> (i: int)
    requires
        wire_all(c, items) is Err,
    ensures
        0 <= i < items.len(),
        wire_all(c, items)->Err_0.0 == items[i].1,
        dep_outcome(c, items[i].1) == Err::<Option<Seq<char>>, DepFailure>(
            wire_all(c, items)->Err_0.1,
        ),
    decreases items.len(),
{
    let rest = items.drop_last();
    if wire_all(c, rest) is Err {
        lemma_first_wiring_failure(c, rest)
    } else {
        items.len() - 1
    }
}

/// Every dependency that a manifest declares, for use or for development, is wired: a wiring
/// that succeeds holds it under its group with the address that becomes of it.
pub proof fn every_declared_dependency_is_wired(c: WireContext, name: Seq<char>, addr: Seq<char>)
    requires
        c.m.dependencies.dom().finite(),
        c.m.dev_dependencies.dom().finite(),
        wire_all(c, wired_names(c.m)) is Ok,
        dep_outcome(c, name) == Ok::<Option<Seq<char>>, DepFailure>(Some(addr)),
    ensures
        c.m.dependencies.dom().contains(name) ==> wire_all(c, wired_names(c.m))->Ok_0.contains(
            DepView { group: "dependencies"@, name, addr },
        ),
        c.m.dev_dependencies.dom().contains(name) ==> wire_all(c, wired_names(c.m))->Ok_0.contains(
            DepView { group: "dev_dependencies"@, name, addr },
        ),
{
    let items = wired_names(c.m);
    let a = listing(c.m.dependencies.dom());
    let b = listing(c.m.dev_dependencies.dom());
    lemma_listed(c.m.dependencies.dom(), name);
    lemma_listed(c.m.dev_dependencies.dom(), name);
    if a.contains(name) {
        let i = choose|i: int| 0 <= i < a.len() && a[i] == name;
        assert(items[i] == ("dependencies"@, name));
        lemma_wired(c, items, i);
    }
    if b.contains(name) {
        let i = choose|i: int| 0 <= i < b.len() && b[i] == name;
        assert(items[a.len() + i] == ("dev_dependencies"@, name));
        lemma_wired(c, items, a.len() + i);
    }
}

/// A declared dependency that cannot be wired, for use or for development, fails the whole.
pub proof fn a_dependency_that_cannot_be_wired_fails_the_whole(c: WireContext, name: Seq<char>)
    requires
        c.m.dependencies.dom().finite(),
        c.m.dev_dependencies.dom().finite(),
        c.m.dependencies.dom().contains(name) || c.m.dev_dependencies.dom().contains(name),
        dep_outcome(c, name) is Err,
    ensures
        wire_all(c, wired_names(c.m)) is Err,
{
    let items = wired_names(c.m);
    let a = listing(c.m.dependencies.dom());
    let b = listing(c.m.dev_dependencies.dom());
    lemma_listed(c.m.dependencies.dom(), name);
    lemma_listed(c.m.dev_dependencies.dom(), name);
    if wire_all(c, items) is Ok {
        if a.contains(name) {
            let i = choose|i: int| 0 <= i < a.len() && a[i] == name;
            assert(items[i] == ("dependencies"@, name));
            lemma_wired(c, items, i);
        } else {
            let i = choose|i: int| 0 <= i < b.len() && b[i] == name;
            assert(items[a.len() + i] == ("dev_dependencies"@, name));
            lemma_wired(c, items, a.len() + i);
        }
    }
}

/// Nothing else is wired: what a wiring holds is declared in the group that it names, and wired
/// to the address that becomes of it.
pub proof fn only_declared_dependencies_are_wired(c: WireContext, d: DepView)
    requires
        c.m.dependencies.dom().finite(),
        c.m.dev_dependencies.dom().finite(),
        wire_all(c, wired_names(c.m)) matches Ok(v) && v.contains(d),
    ensures
        d.group == "dependencies"@ && c.m.dependencies.dom().contains(d.name) || d.group
            == "dev_dependencies"@ && c.m.dev_dependencies.dom().contains(d.name),
        dep_outcome(c, d.name) == Ok::<Option<Seq<char>>, DepFailure>(Some(d.addr)),
{
    let items = wired_names(c.m);
    let v = wire_all(c, items)->Ok_0;
    let k = choose|k: int| 0 <= k < v.len() && v[k] == d;
    lemma_only_wired(c, items, k);
    let a = listing(c.m.dependencies.dom());
    let b = listing(c.m.dev_dependencies.dom());
    lemma_listed(c.m.dependencies.dom(), d.name);
    lemma_listed(c.m.dev_dependencies.dom(), d.name);
    let i = choose|i: int| 0 <= i < items.len() && items[i] == (d.group, d.name);
    if i < a.len() {
        assert(a[i] == d.name);
    } else {
        assert(b[i - a.len()] == d.name);
    }
}

/// A wiring fails only over a dependency that is declared and cannot be wired, and names it.
pub proof fn a_failed_wiring_names_a_declared_dependency(c: WireContext)
    requires
        c.m.dependencies.dom().finite(),
        c.m.dev_dependencies.dom().finite(),
        wire_all(c, wired_names(c.m)) is Err,
    ensures
        ({
            let (name, failure) = wire_all(c, wired_names(c.m))->Err_0;
            &&& c.m.dependencies.dom().contains(name) || c.m.dev_dependencies.dom().contains(name)
            &&& dep_outcome(c, name) == Err::<Option<Seq<char>>, DepFailure>(failure)
        }),
{
    let items = wired_names(c.m);
    let i = lemma_first_wiring_failure(c, items);
    let name = items[i].1;
    let a = listing(c.m.dependencies.dom());
    let b = listing(c.m.dev_dependencies.dom());
    lemma_listed(c.m.dependencies.dom(), name);
    lemma_listed(c.m.dev_dependencies.dom(), name);
    if i < a.len() {
        assert(a[i] == name);
    } else {
        assert(b[i - a.len()] == name);
    }
}

/// A declared dependency that the lockfile resolves to a package of its own, and that no member
/// of the workspace goes by, is wired to that package, placed under the name that it is declared
/// by, wherever the package applies to the platform.
pub proof fn resolved_packages_are_wired_under_their_declared_name(
    c: WireContext,
    declared: Seq<char>,
    name: Seq<char>,
    version: Seq<char>,
)
    requires
        !c.members.dom().contains(declared),
        c.lock is Some,
        lock_resolution(c.lock->0, c.lockfile_pkg, declared) == Some(
            ResolutionView::ThirdParty { name, version },
        ),
        c.graph matches Some(g) ==> (g.dom().contains(key_of(name, version)) ==> applies_to(
            g[key_of(name, version)].os,
            g[key_of(name, version)].cpu,
            c.os,
            c.arch,
        )),
    ensures
        dep_outcome(c, declared) == Ok::<Option<Seq<char>>, DepFailure>(
            Some(
                node_modules_text(c.consuming_pkg, declared, name, version, c.os, c.arch),
            ),
        ),
{
}

/// A declared dependency that the lockfile resolves to a package for another platform is left
/// out where that package is optional, and else a failure that tells the restrictions.
pub proof fn packages_for_other_platforms_must_be_optional(
    c: WireContext,
    declared: Seq<char>,
    name: Seq<char>,
    version: Seq<char>,
)
    requires
        !c.members.dom().contains(declared),
        c.lock is Some,
        c.graph is Some,
        lock_resolution(c.lock->0, c.lockfile_pkg, declared) == Some(
            ResolutionView::ThirdParty { name, version },
        ),
        c.graph->0.dom().contains(key_of(name, version)),
        !applies_to(
            c.graph->0[key_of(name, version)].os,
            c.graph->0[key_of(name, version)].cpu,
            c.os,
            c.arch,
        ),
    ensures
        c.m.optional_dependencies.dom().contains(name) ==> dep_outcome(c, declared) == Ok::<
            Option<Seq<char>>,
            DepFailure,
        >(None),
        !c.m.optional_dependencies.dom().contains(name) ==> dep_outcome(c, declared) == Err::<
            Option<Seq<char>>,
            DepFailure,
        >(
            DepFailure::PlatformMismatch {
                resolved_name: name,
                version,
                os: c.graph->0[key_of(name, version)].os,
                cpu: c.graph->0[key_of(name, version)].cpu,
            },
        ),
{
}

/// A declared dependency without a direct resolution is wired to the package of that name among
/// everything reachable, if there is one, the search ends, and it applies to the platform.
pub proof fn reachable_packages_are_wired(c: WireContext, declared: Seq<char>)
    requires
        !c.members.dom().contains(declared),
        c.lock is Some,
        c.graph is Some,
        lock_resolution(c.lock->0, c.lockfile_pkg, declared) is None,
        ({
            let g = c.graph->0;
            let fm = flat(g, c.os, c.arch, seed_keys(c.lock->0, c.lockfile_pkg, c.m));
            &&& !nests_too_deep(g, fm, c.os, c.arch)
            &&& fm.dom().contains(declared)
            &&& g.dom().contains(key_of(declared, g[fm[declared]].version)) ==> applies_to(
                g[key_of(declared, g[fm[declared]].version)].os,
                g[key_of(declared, g[fm[declared]].version)].cpu,
                c.os,
                c.arch,
            )
        }),
    ensures
        ({
            let g = c.graph->0;
            let fm = flat(g, c.os, c.arch, seed_keys(c.lock->0, c.lockfile_pkg, c.m));
            dep_outcome(c, declared) == Ok::<Option<Seq<char>>, DepFailure>(
                Some(
                    node_modules_text(
                        c.consuming_pkg,
                        declared,
                        declared,
                        g[fm[declared]].version,
                        c.os,
                        c.arch,
                    ),
                ),
            )
        }),
{
}

/// A declared dependency that the lockfile links to a member of the workspace must go by the
/// name of one.
pub proof fn links_need_a_member(c: WireContext, declared: Seq<char>)
    requires
        !c.members.dom().contains(declared),
        c.lock is Some,
        lock_resolution(c.lock->0, c.lockfile_pkg, declared) == Some(ResolutionView::Workspace),
    ensures
        dep_outcome(c, declared) == Err::<Option<Seq<char>>, DepFailure>(DepFailure::WorkspaceLink),
{
}

/// Without a lockfile only the members of the workspace can be wired; another dependency is left
/// out where it is optional, and else a failure.
pub proof fn without_a_lockfile_only_members_are_wired(c: WireContext, declared: Seq<char>)
    requires
        c.lock is None,
    ensures
        c.members.dom().contains(declared) <==> dep_outcome(c, declared) matches Ok(Some(_)),
        !c.members.dom().contains(declared) ==> (dep_outcome(c, declared) is Err
            <==> !c.m.optional_dependencies.dom().contains(declared)),
        dep_outcome(c, declared) matches Err(f) ==> f is Unresolved,
{
}

} // verus!
