//! What holds of every resolved graph and every walk over it.
use crate::graph::{
    agree, append_new, discovered, discovery, edges, first_named, flat, key_of, lemma_append_new,
    lemma_depth, lemma_discovered_stable, lemma_discovery, lemma_first_named, lemma_merged_entry,
    lemma_open_degree, materialized, merged, nests_too_deep, open_degree, overrides, pairs, placed,
    targets, usable, EntryView, PackageView, Packages,
};
use vstd::prelude::*;

verus! {

/// Everything appended is there, and everything there was there or was appended.
pub(crate) proof fn lemma_append_members(order: Seq<Seq<char>>, more: Seq<Seq<char>>, x: Seq<char>)
    ensures
        append_new(order, more).contains(x) <==> order.contains(x) || more.contains(x),
    decreases more.len(),
{
    if more.len() > 0 {
        let rest = more.drop_last();
        let so_far = append_new(order, rest);
        lemma_append_members(order, rest, x);
        assert(more.contains(x) <==> rest.contains(x) || more.last() == x) by {
            if more.contains(x) {
                let i = choose|i: int| 0 <= i < more.len() && more[i] == x;
                if i < more.len() - 1 {
                    assert(rest[i] == x);
                }
            }
            if rest.contains(x) {
                let i = choose|i: int| 0 <= i < rest.len() && rest[i] == x;
                assert(more[i] == x);
            }
            if more.last() == x {
                assert(more[more.len() - 1] == x);
            }
        }
        if !so_far.contains(more.last()) {
            let t = so_far.push(more.last());
            assert(t.contains(x) <==> so_far.contains(x) || x == more.last()) by {
                if t.contains(x) {
                    let i = choose|i: int| 0 <= i < t.len() && t[i] == x;
                    if i < so_far.len() {
                        assert(so_far[i] == x);
                    }
                }
                if so_far.contains(x) {
                    let i = choose|i: int| 0 <= i < so_far.len() && so_far[i] == x;
                    assert(t[i] == x);
                }
                assert(t[so_far.len() as int] == more.last());
            }
        }
    } else {
        assert(!more.contains(x));
    }
}

/// What was found stays found, at its place.
pub(crate) proof fn lemma_discovered_grows(
    g: Packages,
    os: Seq<char>,
    arch: Seq<char>,
    seeds: Seq<Seq<char>>,
    n: nat,
    m: nat,
)
    requires
        n <= m,
    ensures
        discovered(g, os, arch, seeds, n).len() <= discovered(g, os, arch, seeds, m).len(),
        discovered(g, os, arch, seeds, m).take(
            discovered(g, os, arch, seeds, n).len() as int,
        ) == discovered(g, os, arch, seeds, n),
    decreases m - n,
{
    let a = discovered(g, os, arch, seeds, n);
    if m == n {
        assert(a.take(a.len() as int) =~= a);
    } else {
        let b = discovered(g, os, arch, seeds, (m - 1) as nat);
        let c = discovered(g, os, arch, seeds, m);
        lemma_discovered_grows(g, os, arch, seeds, n, (m - 1) as nat);
        if m - 1 < b.len() && g.dom().contains(b[m - 1]) {
            lemma_append_new(b, targets(g, g[b[m - 1]], os, arch));
            assert(c.take(b.len() as int) == b);
            assert(c.take(a.len() as int) =~= b.take(a.len() as int));
        }
    }
}

/// No key is found twice.
proof fn lemma_discovered_distinct(
    g: Packages,
    os: Seq<char>,
    arch: Seq<char>,
    seeds: Seq<Seq<char>>,
    n: nat,
)
    ensures
        discovered(g, os, arch, seeds, n).no_duplicates(),
    decreases n,
{
    if n == 0 {
        lemma_append_new(Seq::empty(), seeds);
    } else {
        let b = discovered(g, os, arch, seeds, (n - 1) as nat);
        lemma_discovered_distinct(g, os, arch, seeds, (n - 1) as nat);
        if n - 1 < b.len() && g.dom().contains(b[n - 1]) {
            lemma_append_new(b, targets(g, g[b[n - 1]], os, arch));
        }
    }
}

/// The search over a finite graph ends.
proof fn lemma_search_ends(
    g: Packages,
    os: Seq<char>,
    arch: Seq<char>,
    seeds: Seq<Seq<char>>,
    keys: Seq<Seq<char>>,
    n: nat,
)
    requires
        keys.no_duplicates(),
        keys.to_set() == g.dom(),
        n <= discovered(g, os, arch, seeds, n).len(),
    ensures
        exists|m: nat| (#[trigger] discovered(g, os, arch, seeds, m)).len() <= m,
    decreases
            open_degree(
                g,
                os,
                arch,
                keys,
                discovered(g, os, arch, seeds, n).take(n as int).to_set(),
            ) + discovered(g, os, arch, seeds, n).len() - n,
{
    let found = discovered(g, os, arch, seeds, n);
    if found.len() > n {
        let now = discovered(g, os, arch, seeds, n + 1);
        let done = found.take(n as int).to_set();
        let key = found[n as int];
        lemma_discovered_distinct(g, os, arch, seeds, n);
        lemma_discovered_grows(g, os, arch, seeds, n, n + 1);
        assert(now.take(found.len() as int)[n as int] == key);
        assert(!done.contains(key)) by {
            let head = found.take(n as int);
            if head.contains(key) {
                let k = choose|k: int| 0 <= k < head.len() && head[k] == key;
                assert(found[k] == found[n as int]);
            }
        }
        lemma_open_degree(g, os, arch, keys, done, key);
        assert(keys.contains(key) <==> g.dom().contains(key)) by {
            assert(keys.to_set().contains(key) <==> keys.contains(key));
        }
        if g.dom().contains(key) {
            lemma_append_new(found, targets(g, g[key], os, arch));
        }
        let a = now.take((n + 1) as int);
        assert(a =~= found.take(n as int).push(key)) by {
            assert(now.take(found.len() as int) == found);
            assert forall|i: int| 0 <= i < n + 1 implies a[i] == found[i] by {
                assert(now.take(found.len() as int)[i] == now[i]);
            }
        }
        assert forall|x: Seq<char>| a.to_set().contains(x) <==> done.insert(key).contains(x) by {
            let h = found.take(n as int);
            if h.contains(x) {
                let k = choose|k: int| 0 <= k < h.len() && h[k] == x;
                assert(a[k] == x);
            }
            assert(a[n as int] == key);
        }
        assert(a.to_set() =~= done.insert(key));
        lemma_search_ends(g, os, arch, seeds, keys, n + 1);
    }
}

/// The members of a finite set, each once.
proof fn lemma_enumerate(s: Set<Seq<char>>) -> (keys: Seq<Seq<char>>)
    requires
        s.finite(),
    ensures
        keys.no_duplicates(),
        keys.to_set() == s,
    decreases s.len(),
{
    if s.len() == 0 {
        assert(Seq::<Seq<char>>::empty().to_set() =~= s);
        Seq::empty()
    } else {
        let x = s.choose();
        let rest = lemma_enumerate(s.remove(x));
        let keys = rest.push(x);
        assert forall|k: Seq<char>| keys.to_set().contains(k) <==> s.contains(k) by {
            assert(rest.to_set().contains(k) <==> rest.contains(k));
            assert(keys[rest.len() as int] == x);
            if rest.contains(k) {
                let i = choose|i: int| 0 <= i < rest.len() && rest[i] == k;
                assert(keys[i] == k);
            }
            if keys.contains(k) {
                let i = choose|i: int| 0 <= i < keys.len() && keys[i] == k;
                if i < rest.len() {
                    assert(rest[i] == k);
                }
            }
        }
        assert(keys.to_set() =~= s);
        assert(!rest.contains(x)) by {
            assert(!rest.to_set().contains(x));
        }
        assert(keys.no_duplicates());
        keys
    }
}

/// A finite graph's search ends, and the discovery is what it finds.
pub(crate) proof fn lemma_discovery_ends(
    g: Packages,
    os: Seq<char>,
    arch: Seq<char>,
    seeds: Seq<Seq<char>>,
) -> (n: nat)
    requires
        g.dom().finite(),
    ensures
        discovered(g, os, arch, seeds, n).len() <= n,
        discovery(g, os, arch, seeds) == discovered(g, os, arch, seeds, n),
{
    let keys = lemma_enumerate(g.dom());
    lemma_search_ends(g, os, arch, seeds, keys, 0);
    let n = choose|m: nat| (#[trigger] discovered(g, os, arch, seeds, m)).len() <= m;
    lemma_discovery(g, os, arch, seeds, n);
    n
}

/// Every seed is discovered.
pub proof fn seeds_are_discovered(
    g: Packages,
    os: Seq<char>,
    arch: Seq<char>,
    seeds: Seq<Seq<char>>,
    key: Seq<char>,
)
    requires
        g.dom().finite(),
        seeds.contains(key),
    ensures
        discovery(g, os, arch, seeds).contains(key),
{
    let n = lemma_discovery_ends(g, os, arch, seeds);
    let a = discovered(g, os, arch, seeds, 0);
    let b = discovered(g, os, arch, seeds, n);
    lemma_append_members(Seq::empty(), seeds, key);
    lemma_discovered_grows(g, os, arch, seeds, 0, n);
    let i = choose|i: int| 0 <= i < a.len() && a[i] == key;
    assert(b.take(a.len() as int)[i] == b[i]);
}

/// Whatever a discovered package of the graph leads to, by a dependency or by an optional
/// dependency that applies to the platform, is discovered too.
pub proof fn discovery_follows_every_edge(
    g: Packages,
    os: Seq<char>,
    arch: Seq<char>,
    seeds: Seq<Seq<char>>,
    parent: Seq<char>,
    name: Seq<char>,
    key: Seq<char>,
)
    requires
        g.dom().finite(),
        discovery(g, os, arch, seeds).contains(parent),
        g.dom().contains(parent),
        edges(g, g[parent], os, arch).contains((name, key)),
    ensures
        discovery(g, os, arch, seeds).contains(key),
{
    let n = lemma_discovery_ends(g, os, arch, seeds);
    let all = discovered(g, os, arch, seeds, n);
    let i = choose|i: int| 0 <= i < all.len() && all[i] == parent;
    let at = discovered(g, os, arch, seeds, i as nat);
    let after = discovered(g, os, arch, seeds, (i + 1) as nat);
    lemma_discovered_grows(g, os, arch, seeds, i as nat, n);
    lemma_discovered_grows(g, os, arch, seeds, (i + 1) as nat, n);
    let es = edges(g, g[parent], os, arch);
    let ts = targets(g, g[parent], os, arch);
    let e = choose|e: int| 0 <= e < es.len() && es[e] == (name, key);
    assert(ts[e] == key);
    assert(ts.contains(key));
    lemma_found_in_time(g, os, arch, seeds, i as nat, n);
    assert(all.take(at.len() as int)[i] == at[i]);
    lemma_append_members(at, ts, key);
    let k = choose|k: int| 0 <= k < after.len() && after[k] == key;
    assert(all.take(after.len() as int)[k] == after[k]);
}

/// A key that is found at position `i` is found before that position is expanded.
proof fn lemma_found_in_time(
    g: Packages,
    os: Seq<char>,
    arch: Seq<char>,
    seeds: Seq<Seq<char>>,
    i: nat,
    n: nat,
)
    requires
        i < discovered(g, os, arch, seeds, n).len(),
    ensures
        i < discovered(g, os, arch, seeds, i).len(),
{
    if discovered(g, os, arch, seeds, i).len() <= i {
        if n >= i {
            lemma_discovered_stable(g, os, arch, seeds, i, n);
        } else {
            lemma_discovered_grows(g, os, arch, seeds, n, i);
        }
    }
}

/// Nothing else is discovered: a discovered key is a seed, or a discovered package of the
/// graph leads to it.
pub proof fn discovery_needs_an_edge(
    g: Packages,
    os: Seq<char>,
    arch: Seq<char>,
    seeds: Seq<Seq<char>>,
    key: Seq<char>,
)
    requires
        g.dom().finite(),
        discovery(g, os, arch, seeds).contains(key),
    ensures
        seeds.contains(key) || exists|parent: Seq<char>|
            discovery(g, os, arch, seeds).contains(parent) && g.dom().contains(parent)
                && #[trigger] targets(g, g[parent], os, arch).contains(key),
{
    let n = lemma_discovery_ends(g, os, arch, seeds);
    lemma_discovered_needs(g, os, arch, seeds, key, n, n);
}

proof fn lemma_discovered_needs(
    g: Packages,
    os: Seq<char>,
    arch: Seq<char>,
    seeds: Seq<Seq<char>>,
    key: Seq<char>,
    m: nat,
    n: nat,
)
    requires
        m <= n,
        discovered(g, os, arch, seeds, m).contains(key),
    ensures
        seeds.contains(key) || exists|parent: Seq<char>|
            discovered(g, os, arch, seeds, n).contains(parent) && g.dom().contains(parent)
                && #[trigger] targets(g, g[parent], os, arch).contains(key),
    decreases m,
{
    if m == 0 {
        lemma_append_members(Seq::empty(), seeds, key);
    } else {
        let b = discovered(g, os, arch, seeds, (m - 1) as nat);
        if b.contains(key) {
            lemma_discovered_needs(g, os, arch, seeds, key, (m - 1) as nat, n);
        } else {
            let parent = b[m - 1];
            lemma_append_members(b, targets(g, g[parent], os, arch), key);
            lemma_discovered_grows(g, os, arch, seeds, (m - 1) as nat, n);
            let all = discovered(g, os, arch, seeds, n);
            assert(all.take(b.len() as int)[m - 1] == all[m - 1]);
            assert(all.contains(parent));
        }
    }
}

/// Every discovered package of the graph has its name in the flat placement.
pub proof fn discovered_names_are_placed(
    g: Packages,
    os: Seq<char>,
    arch: Seq<char>,
    seeds: Seq<Seq<char>>,
    key: Seq<char>,
)
    requires
        discovery(g, os, arch, seeds).contains(key),
        g.dom().contains(key),
    ensures
        flat(g, os, arch, seeds).dom().contains(g[key].name),
{
    let order = discovery(g, os, arch, seeds);
    let i = choose|i: int| 0 <= i < order.len() && order[i] == key;
    lemma_first_named_some(g, order, i);
}

proof fn lemma_first_named_some(g: Packages, order: Seq<Seq<char>>, i: int)
    requires
        0 <= i < order.len(),
        g.dom().contains(order[i]),
    ensures
        first_named(g, order, g[order[i]].name) is Some,
    decreases order.len(),
{
    if i < order.len() - 1 {
        lemma_first_named_some(g, order.drop_last(), i);
    }
}

/// The flat placement is sound: each of its keys is a discovered package of that name.
pub proof fn flat_packages_have_their_name(
    g: Packages,
    os: Seq<char>,
    arch: Seq<char>,
    seeds: Seq<Seq<char>>,
    name: Seq<char>,
)
    requires
        flat(g, os, arch, seeds).dom().contains(name),
    ensures
        g.dom().contains(flat(g, os, arch, seeds)[name]),
        g[flat(g, os, arch, seeds)[name]].name == name,
        discovery(g, os, arch, seeds).contains(flat(g, os, arch, seeds)[name]),
{
    lemma_first_named(g, discovery(g, os, arch, seeds), name);
}

/// A name has one flat entry.
pub proof fn one_flat_entry_for_a_name(
    g: Packages,
    fm: Map<Seq<char>, Seq<char>>,
    os: Seq<char>,
    arch: Seq<char>,
    a: EntryView,
    b: EntryView,
)
    requires
        materialized(g, fm, os, arch, a),
        materialized(g, fm, os, arch, b),
        a.nested_under.len() == 0,
        b.nested_under.len() == 0,
        a.name == b.name,
    ensures
        a == b,
{
    assert(a.nested_under =~= b.nested_under);
}

/// Where every edge of a placed package agrees with the flat placement, nothing nests.
pub proof fn agreement_keeps_everything_flat(
    g: Packages,
    fm: Map<Seq<char>, Seq<char>>,
    os: Seq<char>,
    arch: Seq<char>,
    e: EntryView,
)
    requires
        forall|parent: Seq<char>, name: Seq<char>, key: Seq<char>|
            g.dom().contains(parent) && #[trigger] edges(g, g[parent], os, arch).contains(
                (name, key),
            ) && fm.dom().contains(name) ==> fm[name] == key,
        materialized(g, fm, os, arch, e),
    ensures
        e.nested_under.len() == 0,
{
    if e.nested_under.len() > 0 {
        let (parent, key) = choose|parent: Seq<char>, key: Seq<char>|
            placed(g, fm, os, arch, parent, e.nested_under.drop_last()) && g[parent].name
                == e.nested_under.last() && #[trigger] overrides(
                g,
                fm,
                os,
                arch,
                parent,
                e.name,
                key,
            ) && e.version == g[key].version;
        assert(edges(g, g[parent], os, arch).contains((e.name, key)));
    }
}

/// Agreement does not depend on which entry comes first.
pub proof fn agreement_is_symmetric(a: PackageView, b: PackageView)
    ensures
        agree(a, b) == agree(b, a),
        agree(a, a),
{
}

/// The first entry for `key` in `list` that records a hash, or else the first entry for it.
pub open spec fn preferred(list: Seq<PackageView>, key: Seq<char>) -> Option<PackageView>
    decreases list.len(),
{
    if list.len() == 0 {
        None
    } else {
        let before = preferred(list.drop_last(), key);
        let p = list.last();
        if key_of(p.name, p.version) != key {
            before
        } else {
            match before {
                None => Some(p),
                Some(held) => if held.integrity.len() == 0 && p.integrity.len() > 0 {
                    Some(p)
                } else {
                    Some(held)
                },
            }
        }
    }
}

/// A graph holds for each key the first entry that records a hash, or the first entry when
/// none does: an entry without a hash never wins over one with a hash, wherever they stand.
pub proof fn entries_with_a_hash_win(list: Seq<PackageView>, key: Seq<char>)
    requires
        merged(list) is Some,
    ensures
        merged(list)->0.dom().contains(key) <==> preferred(list, key) is Some,
        preferred(list, key) matches Some(p) ==> merged(list)->0[key] == p,
    decreases list.len(),
{
    if list.len() > 0 {
        entries_with_a_hash_win(list.drop_last(), key);
    }
}

/// When some entry for a package records a hash, the graph's entry for it records one.
pub proof fn a_recorded_hash_is_kept(list: Seq<PackageView>, i: int)
    requires
        merged(list) is Some,
        0 <= i < list.len(),
        list[i].integrity.len() > 0,
    ensures
        merged(list)->0.dom().contains(key_of(list[i].name, list[i].version)),
        merged(list)->0[key_of(list[i].name, list[i].version)].integrity.len() > 0,
    decreases list.len(),
{
    if i < list.len() - 1 {
        a_recorded_hash_is_kept(list.drop_last(), i);
    }
}

/// Every package of a graph stands under its own key.
pub proof fn packages_stand_under_their_key(list: Seq<PackageView>, key: Seq<char>)
    requires
        merged(list) is Some,
        merged(list)->0.dom().contains(key),
    ensures
        key == key_of(merged(list)->0[key].name, merged(list)->0[key].version),
    decreases list.len(),
{
    if list.len() > 0 {
        if merged(list.drop_last())->0.dom().contains(key) {
            packages_stand_under_their_key(list.drop_last(), key);
        }
    }
}

/// A walk follows the dependencies of a package, and of its optional dependencies only those
/// that are in the graph and apply to the platform.
pub proof fn optional_edges_need_the_platform(
    g: Packages,
    p: PackageView,
    os: Seq<char>,
    arch: Seq<char>,
    i: int,
)
    requires
        0 <= i < edges(g, p, os, arch).len(),
    ensures
        ({
            let e = edges(g, p, os, arch)[i];
            ||| pairs(p.dependencies).contains(e)
            ||| pairs(p.optional_dependencies).contains(e) && usable(g, e.1, os, arch)
        }),
{
    let required = pairs(p.dependencies);
    let optional = pairs(p.optional_dependencies);
    let f = |e: (Seq<char>, Seq<char>)| usable(g, e.1, os, arch);
    let e = edges(g, p, os, arch)[i];
    if i < required.len() {
        assert(required[i] == e);
    } else {
        let kept = optional.filter(f);
        assert(kept[i - required.len()] == e);
        optional.lemma_filter_contains_rev(f, e);
    }
}

proof fn lemma_merged_tells(list: Seq<PackageView>, i: int)
    requires
        merged(list) is Some,
        0 <= i < list.len(),
    ensures
        ({
            let g = merged(list)->0;
            let key = key_of(list[i].name, list[i].version);
            &&& g.dom().contains(key)
            &&& g[key].has_install_script == list[i].has_install_script
            &&& list[i].integrity.len() > 0 ==> g[key].integrity == list[i].integrity
        }),
    decreases list.len(),
{
    if i < list.len() - 1 {
        lemma_merged_tells(list.drop_last(), i);
    }
}

/// Entries for one package that record different hashes, or of which one has an install script
/// and the other has none, make no graph.
pub proof fn entries_that_differ_are_refused(list: Seq<PackageView>, i: int, j: int)
    requires
        0 <= i < list.len(),
        0 <= j < list.len(),
        list[i].name == list[j].name,
        list[i].version == list[j].version,
        list[i].has_install_script != list[j].has_install_script || list[i].integrity.len() > 0
            && list[j].integrity.len() > 0 && list[i].integrity != list[j].integrity,
    ensures
        merged(list) is None,
{
    if merged(list) is Some {
        lemma_merged_tells(list, i);
        lemma_merged_tells(list, j);
    }
}

/// Whether two entries say nothing different of a package.
pub open spec fn compatible(a: PackageView, b: PackageView) -> bool {
    &&& a.has_install_script == b.has_install_script
    &&& a.integrity == b.integrity || a.integrity.len() == 0 || b.integrity.len() == 0
    &&& a.resolved == b.resolved || a.resolved is None || b.resolved is None
}

/// Entries make a graph where no two of them for one package say anything different.
pub proof fn compatible_entries_make_a_graph(list: Seq<PackageView>)
    requires
        forall|i: int, j: int|
            0 <= i < list.len() && 0 <= j < list.len() && key_of(
                (#[trigger] list[i]).name,
                list[i].version,
            ) == key_of((#[trigger] list[j]).name, list[j].version) ==> compatible(
                list[i],
                list[j],
            ),
    ensures
        merged(list) is Some,
    decreases list.len(),
{
    if list.len() > 0 {
        let rest = list.drop_last();
        assert forall|i: int, j: int|
            0 <= i < rest.len() && 0 <= j < rest.len() && key_of(
                (#[trigger] rest[i]).name,
                rest[i].version,
            ) == key_of((#[trigger] rest[j]).name, rest[j].version) implies compatible(
            rest[i],
            rest[j],
        ) by {
            assert(rest[i] == list[i] && rest[j] == list[j]);
        }
        compatible_entries_make_a_graph(rest);
        let key = key_of(list.last().name, list.last().version);
        if merged(rest)->0.dom().contains(key) {
            let k = lemma_merged_entry(rest, key);
            assert(rest[k] == list[k]);
            assert(list[list.len() - 1] == list.last());
            assert(compatible(list[k], list[list.len() - 1]));
        }
    }
}

/// Entries nest below sixteen others at most, where the graph can be placed at all; it cannot just
/// where a package that nests so deep needs another version of something.
pub proof fn entries_nest_so_deep_and_no_deeper(
    g: Packages,
    fm: Map<Seq<char>, Seq<char>>,
    os: Seq<char>,
    arch: Seq<char>,
    e: EntryView,
)
    requires
        materialized(g, fm, os, arch, e),
    ensures
        e.nested_under.len() > 16 ==> nests_too_deep(g, fm, os, arch),
        nests_too_deep(g, fm, os, arch) ==> exists|
            parent: Seq<char>,
            path: Seq<Seq<char>>,
            name: Seq<char>,
            key: Seq<char>,
        |
            path.len() == 16 && #[trigger] placed(g, fm, os, arch, parent, path)
                && #[trigger] overrides(g, fm, os, arch, parent, name, key),
{
    if e.nested_under.len() > 16 {
        let path = e.nested_under.drop_last();
        let (parent, key) = choose|parent: Seq<char>, key: Seq<char>|
            placed(g, fm, os, arch, parent, path) && g[parent].name == e.nested_under.last()
                && #[trigger] overrides(g, fm, os, arch, parent, e.name, key) && e.version
                == g[key].version;
        if path.len() > 16 {
            lemma_depth(g, fm, os, arch, parent, path);
        } else {
            assert(placed(g, fm, os, arch, parent, path) && overrides(
                g,
                fm,
                os,
                arch,
                parent,
                e.name,
                key,
            ));
        }
    }
}

} // verus!
