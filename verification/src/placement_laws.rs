//! What the packages that are placed find when they look for the packages that they need.
use crate::graph::{
    edges, flat, materialized, overrides, pairs, placed, EntryView, PackageView, Packages,
};
use crate::graph_laws::{
    discovered_names_are_placed, discovery_follows_every_edge, flat_packages_have_their_name,
};
use crate::sorted::{
    before, increasing, lemma_before_total, lemma_before_transitive, lemma_insert_increasing,
    lemma_insert_members, listing,
};
use vstd::prelude::*;

verus! {

/// An entry for a name below a chain.
pub open spec fn entry(name: Seq<char>, version: Seq<char>, chain: Seq<Seq<char>>) -> EntryView {
    EntryView { name, version, nested_under: chain }
}

/// Whether the innermost package of a chain of `node_modules` directories finds `version` when
/// it looks for `name`: in the innermost directory that has the name at all.
pub open spec fn finds(
    g: Packages,
    fm: Map<Seq<char>, Seq<char>>,
    os: Seq<char>,
    arch: Seq<char>,
    chain: Seq<Seq<char>>,
    name: Seq<char>,
    version: Seq<char>,
) -> bool {
    exists|d: int|
        0 <= d <= chain.len() && #[trigger] materialized(
            g,
            fm,
            os,
            arch,
            entry(name, version, chain.take(d)),
        ) && nothing_below(g, fm, os, arch, chain, name, d)
}

/// Whether no directory of a chain below its first `d` has the name.
pub open spec fn nothing_below(
    g: Packages,
    fm: Map<Seq<char>, Seq<char>>,
    os: Seq<char>,
    arch: Seq<char>,
    chain: Seq<Seq<char>>,
    name: Seq<char>,
    d: int,
) -> bool {
    forall|k: int, v: Seq<char>|
        d < k <= chain.len() ==> !#[trigger] materialized(
            g,
            fm,
            os,
            arch,
            entry(name, v, chain.take(k)),
        )
}

/// Everything that is placed was discovered.
proof fn lemma_placed_is_discovered(
    g: Packages,
    os: Seq<char>,
    arch: Seq<char>,
    seeds: Seq<Seq<char>>,
    key: Seq<char>,
    path: Seq<Seq<char>>,
)
    requires
        g.dom().finite(),
        placed(g, flat(g, os, arch, seeds), os, arch, key, path),
    ensures
        g.dom().contains(key),
        crate::graph::discovery(g, os, arch, seeds).contains(key),
    decreases path.len(),
{
    let fm = flat(g, os, arch, seeds);
    if path.len() == 0 {
        let name = choose|name: Seq<char>| #[trigger] fm.dom().contains(name) && fm[name] == key;
        flat_packages_have_their_name(g, os, arch, seeds, name);
    } else {
        let (parent, name) = choose|parent: Seq<char>, name: Seq<char>|
            placed(g, fm, os, arch, parent, path.drop_last()) && g[parent].name == path.last()
                && #[trigger] overrides(g, fm, os, arch, parent, name, key);
        lemma_placed_is_discovered(g, os, arch, seeds, parent, path.drop_last());
        discovery_follows_every_edge(g, os, arch, seeds, parent, name, key);
    }
}

/// A package finds what it needs from where it is placed: what the lockfile resolves its
/// dependency to. Where that is the flat package of its name, no directory on the way up may
/// have another package of that name.
pub proof fn placed_packages_find_what_they_need(
    g: Packages,
    os: Seq<char>,
    arch: Seq<char>,
    seeds: Seq<Seq<char>>,
    parent: Seq<char>,
    path: Seq<Seq<char>>,
    name: Seq<char>,
    key: Seq<char>,
)
    requires
        g.dom().finite(),
        placed(g, flat(g, os, arch, seeds), os, arch, parent, path),
        edges(g, g[parent], os, arch).contains((name, key)),
        g.dom().contains(key),
        g[key].name == name,
        flat(g, os, arch, seeds)[name] == key ==> nothing_below(
            g,
            flat(g, os, arch, seeds),
            os,
            arch,
            path.push(g[parent].name),
            name,
            0,
        ),
    ensures
        finds(
            g,
            flat(g, os, arch, seeds),
            os,
            arch,
            path.push(g[parent].name),
            name,
            g[key].version,
        ),
{
    let fm = flat(g, os, arch, seeds);
    let chain = path.push(g[parent].name);
    lemma_placed_is_discovered(g, os, arch, seeds, parent, path);
    discovery_follows_every_edge(g, os, arch, seeds, parent, name, key);
    discovered_names_are_placed(g, os, arch, seeds, key);
    if fm[name] == key {
        assert(chain.take(0).len() == 0);
        assert(materialized(g, fm, os, arch, entry(name, g[key].version, chain.take(0))));
    } else {
        let d = chain.len() as int;
        assert(chain.take(d) =~= chain);
        assert(chain.drop_last() =~= path);
        assert(overrides(g, fm, os, arch, parent, name, key));
        assert(materialized(g, fm, os, arch, entry(name, g[key].version, chain.take(d))));
        assert(nothing_below(g, fm, os, arch, chain, name, d));
    }
}

/// A finite set of texts can be listed.
pub proof fn finite_sets_are_listed(s: Set<Seq<char>>)
    requires
        s.finite(),
    ensures
        increasing(listing(s)),
        listing(s).to_set() == s,
    decreases s.len(),
{
    if s.len() == 0 {
        let l = Seq::<Seq<char>>::empty();
        assert(s =~= Set::<Seq<char>>::empty());
        assert(l.to_set() =~= s);
        assert(increasing(l) && l.to_set() == s);
    } else {
        let k = s.choose();
        let rest = s.remove(k);
        finite_sets_are_listed(rest);
        let l = listing(rest);
        assert(!l.contains(k)) by {
            assert(l.to_set().contains(k) <==> l.contains(k));
        }
        let at = lemma_place(l, k);
        lemma_insert_increasing(l, at, k);
        lemma_insert_members(l, at, k);
        let t = l.insert(at, k);
        assert(t.to_set() =~= s);
        assert(increasing(t) && t.to_set() == s);
    }
}

/// Where a text goes in an increasing sequence.
proof fn lemma_place(l: Seq<Seq<char>>, k: Seq<char>) -> (at: int)
    requires
        increasing(l),
        !l.contains(k),
    ensures
        0 <= at <= l.len(),
        forall|i: int| 0 <= i < at ==> before(#[trigger] l[i], k),
        forall|i: int| at <= i < l.len() ==> before(k, #[trigger] l[i]),
    decreases l.len(),
{
    if l.len() == 0 {
        0
    } else {
        let last = l.last();
        assert(l[l.len() - 1] == last);
        lemma_before_total(last, k);
        if before(last, k) {
            assert forall|i: int| 0 <= i < l.len() implies before(#[trigger] l[i], k) by {
                if i < l.len() - 1 {
                    assert(before(l[i], l[l.len() - 1]));
                    lemma_before_transitive(l[i], last, k);
                }
            }
            l.len() as int
        } else {
            let head = l.drop_last();
            assert forall|i: int, j: int| 0 <= i < j < head.len() implies before(
                #[trigger] head[i],
                #[trigger] head[j],
            ) by {
                assert(before(l[i], l[j]));
            }
            assert(!head.contains(k)) by {
                if head.contains(k) {
                    let i = choose|i: int| 0 <= i < head.len() && head[i] == k;
                    assert(l[i] == k);
                }
            }
            let at = lemma_place(head, k);
            assert forall|i: int| 0 <= i < at implies before(#[trigger] l[i], k) by {
                assert(before(head[i], k));
            }
            assert forall|i: int| at <= i < l.len() implies before(k, #[trigger] l[i]) by {
                if i < head.len() {
                    assert(before(k, head[i]));
                }
            }
            at
        }
    }
}

/// The pairs of a map hold its keys with their values and nothing else.
proof fn lemma_pairs(m: Map<Seq<char>, Seq<char>>, name: Seq<char>, key: Seq<char>)
    requires
        m.dom().finite(),
        pairs(m).contains((name, key)),
    ensures
        m.dom().contains(name),
        m[name] == key,
{
    finite_sets_are_listed(m.dom());
    let l = listing(m.dom());
    let i = choose|i: int| 0 <= i < pairs(m).len() && pairs(m)[i] == (name, key);
    assert(pairs(m)[i] == (l[i], m[l[i]]));
    assert(l.contains(l[i]));
    assert(l.to_set().contains(l[i]));
}

/// An edge is one of the dependencies or of the optional dependencies.
proof fn lemma_edge(
    g: Packages,
    p: PackageView,
    os: Seq<char>,
    arch: Seq<char>,
    name: Seq<char>,
    key: Seq<char>,
)
    requires
        p.dependencies.dom().finite(),
        p.optional_dependencies.dom().finite(),
        edges(g, p, os, arch).contains((name, key)),
    ensures
        p.dependencies.dom().contains(name) && p.dependencies[name] == key
            || p.optional_dependencies.dom().contains(name) && p.optional_dependencies[name] == key,
{
    let es = edges(g, p, os, arch);
    let i = choose|i: int| 0 <= i < es.len() && es[i] == (name, key);
    crate::graph_laws::optional_edges_need_the_platform(g, p, os, arch, i);
    if pairs(p.dependencies).contains((name, key)) {
        lemma_pairs(p.dependencies, name, key);
    } else {
        lemma_pairs(p.optional_dependencies, name, key);
    }
}

/// A package that is placed flat always finds what it needs, unless it declares one name both
/// as a dependency and as an optional one.
pub proof fn flat_packages_find_what_they_need(
    g: Packages,
    os: Seq<char>,
    arch: Seq<char>,
    seeds: Seq<Seq<char>>,
    parent: Seq<char>,
    name: Seq<char>,
    key: Seq<char>,
)
    requires
        g.dom().finite(),
        placed(g, flat(g, os, arch, seeds), os, arch, parent, Seq::empty()),
        g[parent].dependencies.dom().finite(),
        g[parent].optional_dependencies.dom().finite(),
        !(g[parent].dependencies.dom().contains(name)
            && g[parent].optional_dependencies.dom().contains(name)),
        edges(g, g[parent], os, arch).contains((name, key)),
        g.dom().contains(key),
        g[key].name == name,
    ensures
        finds(
            g,
            flat(g, os, arch, seeds),
            os,
            arch,
            seq![g[parent].name],
            name,
            g[key].version,
        ),
{
    let fm = flat(g, os, arch, seeds);
    let none = Seq::<Seq<char>>::empty();
    let chain = seq![g[parent].name];
    assert(none.push(g[parent].name) =~= chain);
    if fm[name] == key {
        assert forall|k: int, v: Seq<char>| 0 < k <= chain.len() implies !#[trigger] materialized(
            g,
            fm,
            os,
            arch,
            entry(name, v, chain.take(k)),
        ) by {
            let e = entry(name, v, chain.take(k));
            if materialized(g, fm, os, arch, e) {
                assert(e.nested_under =~= chain);
                assert(e.nested_under.drop_last() =~= none);
                let (other, found) = choose|other: Seq<char>, found: Seq<char>|
                    placed(g, fm, os, arch, other, e.nested_under.drop_last()) && g[other].name
                        == e.nested_under.last() && #[trigger] overrides(
                        g,
                        fm,
                        os,
                        arch,
                        other,
                        e.name,
                        found,
                    ) && e.version == g[found].version;
                let a = choose|n: Seq<char>| #[trigger] fm.dom().contains(n) && fm[n] == other;
                let b = choose|n: Seq<char>| #[trigger] fm.dom().contains(n) && fm[n] == parent;
                flat_packages_have_their_name(g, os, arch, seeds, a);
                flat_packages_have_their_name(g, os, arch, seeds, b);
                assert(a == b);
                lemma_edge(g, g[parent], os, arch, name, key);
                lemma_edge(g, g[parent], os, arch, name, found);
            }
        }
    }
    placed_packages_find_what_they_need(g, os, arch, seeds, parent, none, name, key);
}

} // verus!
