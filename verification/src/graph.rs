//! The resolved dependency graph and what is reachable in it.
use crate::platform::{applies_to, matches_platform};
use crate::ranked::{list_rank, list_texts, lists_increasing, ListSet};
use crate::sorted::{listing, Rank, StrMap, StrSet};
use crate::text::{decimal, digits, join, joined, opt_text, same, texts};
use vstd::prelude::*;

verus! {

/// One resolved package: an exact name and version, the hash that pins its content, and the
/// edges to its own resolved dependencies.
#[derive(Debug)]
pub struct ResolvedPackage {
    pub name: String,
    pub version: String,
    /// Subresource-integrity hash of the published tarball; empty when the lockfile records
    /// none.
    pub integrity: String,
    /// Tarball address, when the lockfile records one.
    pub resolved: Option<String>,
    /// Declared name to the graph key of the package that it resolves to.
    pub dependencies: StrMap<String>,
    /// The same for optional dependencies, which may miss.
    pub optional_dependencies: StrMap<String>,
    /// Operating systems that the package is restricted to; empty for all.
    pub os: Vec<String>,
    /// Processors that the package is restricted to; empty for all.
    pub cpu: Vec<String>,
    /// Whether the package declares a lifecycle script.
    pub has_install_script: bool,
}

/// A resolved package as mathematical values.
pub struct PackageView {
    pub name: Seq<char>,
    pub version: Seq<char>,
    pub integrity: Seq<char>,
    pub resolved: Option<Seq<char>>,
    pub dependencies: Map<Seq<char>, Seq<char>>,
    pub optional_dependencies: Map<Seq<char>, Seq<char>>,
    pub os: Seq<Seq<char>>,
    pub cpu: Seq<Seq<char>>,
    pub has_install_script: bool,
}

impl View for ResolvedPackage {
    type V = PackageView;

    open spec fn view(&self) -> PackageView {
        PackageView {
            name: self.name@,
            version: self.version@,
            integrity: self.integrity@,
            resolved: opt_text(self.resolved),
            dependencies: self.dependencies@,
            optional_dependencies: self.optional_dependencies@,
            os: texts(self.os@),
            cpu: texts(self.cpu@),
            has_install_script: self.has_install_script,
        }
    }
}

/// The key of a package in a graph: `name@version`.
pub open spec fn key_of(name: Seq<char>, version: Seq<char>) -> Seq<char> {
    name + "@"@ + version
}

/// The key of a package in a graph: `name@version`.
pub fn graph_key(name: &str, version: &str) -> (r: String)
    ensures
        r@ == key_of(name@, version@),
{
    name.to_owned().concat("@").concat(version)
}

/// The resolved dependency graph of a lockfile, whichever package manager wrote it.
#[derive(Debug)]
pub struct ResolvedGraph {
    pub packages: StrMap<ResolvedPackage>,
}

impl View for ResolvedGraph {
    type V = Map<Seq<char>, PackageView>;

    open spec fn view(&self) -> Map<Seq<char>, PackageView> {
        self.packages@
    }
}

/// One package to materialize. An empty `nested_under` places it flat in the consumer's own
/// `node_modules`; otherwise the chain names the packages that it nests inside, outermost
/// first.
#[derive(Debug, PartialEq, Eq)]
pub struct TransitiveEntry {
    pub name: String,
    pub version: String,
    pub nested_under: Vec<String>,
}

/// An entry as mathematical values.
pub struct EntryView {
    pub name: Seq<char>,
    pub version: Seq<char>,
    pub nested_under: Seq<Seq<char>>,
}

impl View for TransitiveEntry {
    type V = EntryView;

    open spec fn view(&self) -> EntryView {
        EntryView {
            name: self.name@,
            version: self.version@,
            nested_under: texts(self.nested_under@),
        }
    }
}

/// How many levels deep an entry may nest.
pub const MAX_NESTED_DEPTH: usize = 16;

/// A chain of conflicting versions that nests deeper than the limit.
#[derive(Debug)]
pub struct NestingLimit {
    /// The dependency that would have to nest too deep.
    pub name: String,
    /// The placement below which it would have to nest.
    pub path: Vec<String>,
}

impl NestingLimit {
    /// The text of the error.
    pub open spec fn text(&self) -> Seq<char> {
        "diamond-dependency conflict chain exceeds the "@ + digits(MAX_NESTED_DEPTH as nat)
            + "-level nesting limit while resolving `"@ + self.name@ + "` under ["@ + joined(
            texts(self.path@),
            ", "@,
        )
            + "]: this is almost certainly a cycle in the lockfile's own override structure; regenerate the lockfile"@
    }

    /// The text of the error.
    pub fn message(&self) -> (r: String)
        ensures
            r@ == self.text(),
    {
        "diamond-dependency conflict chain exceeds the ".to_owned().concat(
            decimal(MAX_NESTED_DEPTH).as_str(),
        ).concat("-level nesting limit while resolving `").concat(self.name.as_str()).concat(
            "` under [",
        ).concat(join(&self.path, ", ").as_str()).concat(
            "]: this is almost certainly a cycle in the lockfile's own override structure; regenerate the lockfile",
        )
    }
}

/// A graph, as its packages by key.
pub type Packages = Map<Seq<char>, PackageView>;

/// Whether `key` names a package of the graph that applies to the platform.
pub open spec fn usable(g: Packages, key: Seq<char>, os: Seq<char>, arch: Seq<char>) -> bool {
    g.dom().contains(key) && applies_to(g[key].os, g[key].cpu, os, arch)
}

/// The pairs of a map in the order of their keys.
pub open spec fn pairs(m: Map<Seq<char>, Seq<char>>) -> Seq<(Seq<char>, Seq<char>)> {
    listing(m.dom()).map_values(|n: Seq<char>| (n, m[n]))
}

/// The edges of a package that a walk follows: its dependencies in order of name, then those
/// of its optional dependencies that resolve and apply to the platform.
pub open spec fn edges(g: Packages, p: PackageView, os: Seq<char>, arch: Seq<char>) -> Seq<
    (Seq<char>, Seq<char>),
> {
    pairs(p.dependencies) + pairs(p.optional_dependencies).filter(
        |e: (Seq<char>, Seq<char>)| usable(g, e.1, os, arch),
    )
}

/// The keys that the edges of a package lead to.
pub open spec fn targets(g: Packages, p: PackageView, os: Seq<char>, arch: Seq<char>) -> Seq<
    Seq<char>,
> {
    edges(g, p, os, arch).map_values(|e: (Seq<char>, Seq<char>)| e.1)
}

/// `order` followed by those of `more` that it does not hold yet, each once.
pub open spec fn append_new(order: Seq<Seq<char>>, more: Seq<Seq<char>>) -> Seq<Seq<char>>
    decreases more.len(),
{
    if more.len() == 0 {
        order
    } else {
        let so_far = append_new(order, more.drop_last());
        if so_far.contains(more.last()) {
            so_far
        } else {
            so_far.push(more.last())
        }
    }
}

/// The keys found after expanding the first `n` of them, breadth first from the seeds.
pub open spec fn discovered(
    g: Packages,
    os: Seq<char>,
    arch: Seq<char>,
    seeds: Seq<Seq<char>>,
    n: nat,
) -> Seq<Seq<char>>
    decreases n,
{
    if n == 0 {
        append_new(Seq::empty(), seeds)
    } else {
        let found = discovered(g, os, arch, seeds, (n - 1) as nat);
        if n - 1 < found.len() && g.dom().contains(found[n - 1]) {
            append_new(found, targets(g, g[found[n - 1]], os, arch))
        } else {
            found
        }
    }
}

/// Every key reachable from the seeds, in breadth-first order.
pub open spec fn discovery(
    g: Packages,
    os: Seq<char>,
    arch: Seq<char>,
    seeds: Seq<Seq<char>>,
) -> Seq<Seq<char>> {
    let n = choose|n: nat| discovered(g, os, arch, seeds, n).len() <= n;
    discovered(g, os, arch, seeds, n)
}

/// The first key of `order` that leads to a package named `name`.
pub open spec fn first_named(g: Packages, order: Seq<Seq<char>>, name: Seq<char>) -> Option<
    Seq<char>,
>
    decreases order.len(),
{
    if order.len() == 0 {
        None
    } else {
        match first_named(g, order.drop_last(), name) {
            Some(key) => Some(key),
            None => if g.dom().contains(order.last()) && g[order.last()].name == name {
                Some(order.last())
            } else {
                None
            },
        }
    }
}

/// For each reachable name the key that is found first.
pub open spec fn flat_of(g: Packages, order: Seq<Seq<char>>) -> Map<Seq<char>, Seq<char>> {
    Map::new(
        |n: Seq<char>| first_named(g, order, n) is Some,
        |n: Seq<char>| first_named(g, order, n)->0,
    )
}

/// The flat placement: which key each name reachable from the seeds stands for.
pub open spec fn flat(
    g: Packages,
    os: Seq<char>,
    arch: Seq<char>,
    seeds: Seq<Seq<char>>,
) -> Map<Seq<char>, Seq<char>> {
    flat_of(g, discovery(g, os, arch, seeds))
}

/// Whether the edge from `parent` under the name `name` leads to `key`, and `key` is another
/// package than the flat one of that name.
pub open spec fn overrides(
    g: Packages,
    flat: Map<Seq<char>, Seq<char>>,
    os: Seq<char>,
    arch: Seq<char>,
    parent: Seq<char>,
    name: Seq<char>,
    key: Seq<char>,
) -> bool {
    &&& g.dom().contains(parent)
    &&& edges(g, g[parent], os, arch).contains((name, key))
    &&& g.dom().contains(key)
    &&& flat.dom().contains(name)
    &&& flat[name] != key
}

/// Whether the package `key` is placed below the chain `path`: flat when the chain is empty,
/// otherwise because the package that the chain ends in, placed one level up, needs it in
/// place of the flat one.
pub open spec fn placed(
    g: Packages,
    flat: Map<Seq<char>, Seq<char>>,
    os: Seq<char>,
    arch: Seq<char>,
    key: Seq<char>,
    path: Seq<Seq<char>>,
) -> bool
    decreases path.len(),
{
    if path.len() == 0 {
        exists|name: Seq<char>| #[trigger] flat.dom().contains(name) && flat[name] == key
    } else {
        exists|parent: Seq<char>, name: Seq<char>|
            placed(g, flat, os, arch, parent, path.drop_last()) && g[parent].name == path.last()
                && #[trigger] overrides(g, flat, os, arch, parent, name, key)
    }
}

/// Whether `e` is to be materialized: a flat package, or one that overrides the flat package
/// of its name for the package that it nests inside.
pub open spec fn materialized(
    g: Packages,
    flat: Map<Seq<char>, Seq<char>>,
    os: Seq<char>,
    arch: Seq<char>,
    e: EntryView,
) -> bool {
    if e.nested_under.len() == 0 {
        flat.dom().contains(e.name) && e.version == g[flat[e.name]].version
    } else {
        exists|parent: Seq<char>, key: Seq<char>|
            placed(g, flat, os, arch, parent, e.nested_under.drop_last()) && g[parent].name
                == e.nested_under.last() && #[trigger] overrides(
                g,
                flat,
                os,
                arch,
                parent,
                e.name,
                key,
            ) && e.version == g[key].version
    }
}

/// Whether some override would nest deeper than the limit.
pub open spec fn nests_too_deep(
    g: Packages,
    flat: Map<Seq<char>, Seq<char>>,
    os: Seq<char>,
    arch: Seq<char>,
) -> bool {
    exists|parent: Seq<char>, path: Seq<Seq<char>>, name: Seq<char>, key: Seq<char>|
        path.len() == MAX_NESTED_DEPTH && #[trigger] placed(g, flat, os, arch, parent, path)
            && #[trigger] overrides(g, flat, os, arch, parent, name, key)
}

/// An entry as one list, by which entries are ordered.
pub open spec fn entry_list(e: EntryView) -> Seq<Seq<char>> {
    seq![e.name, e.version] + e.nested_under
}

/// The entries of a result as mathematical values.
pub open spec fn entry_views(v: Seq<TransitiveEntry>) -> Seq<EntryView> {
    v.map_values(|e: TransitiveEntry| e@)
}

/// Whether entries stand in strictly increasing order of name, version and chain.
pub open spec fn entries_increasing(v: Seq<EntryView>) -> bool {
    lists_increasing(v.map_values(|e: EntryView| entry_list(e)))
}

/// Appending keeps what is there, holds no key twice and adds nothing else.
pub(crate) proof fn lemma_append_new(order: Seq<Seq<char>>, more: Seq<Seq<char>>)
    ensures
        order.len() <= append_new(order, more).len() <= order.len() + more.len(),
        append_new(order, more).take(order.len() as int) == order,
        order.no_duplicates() ==> append_new(order, more).no_duplicates(),
    decreases more.len(),
{
    if more.len() == 0 {
        assert(order.take(order.len() as int) =~= order);
    } else {
        let so_far = append_new(order, more.drop_last());
        lemma_append_new(order, more.drop_last());
        if !so_far.contains(more.last()) {
            assert(so_far.push(more.last()).take(order.len() as int) =~= so_far.take(
                order.len() as int,
            ));
        }
    }
}

/// Once every found key is expanded, further steps find nothing.
pub(crate) proof fn lemma_discovered_stable(
    g: Packages,
    os: Seq<char>,
    arch: Seq<char>,
    seeds: Seq<Seq<char>>,
    n: nat,
    m: nat,
)
    requires
        discovered(g, os, arch, seeds, n).len() <= n <= m,
    ensures
        discovered(g, os, arch, seeds, m) == discovered(g, os, arch, seeds, n),
    decreases m - n,
{
    if m > n {
        lemma_discovered_stable(g, os, arch, seeds, n, (m - 1) as nat);
    }
}

/// A finished search is the discovery.
pub(crate) proof fn lemma_discovery(
    g: Packages,
    os: Seq<char>,
    arch: Seq<char>,
    seeds: Seq<Seq<char>>,
    n: nat,
)
    requires
        discovered(g, os, arch, seeds, n).len() <= n,
    ensures
        discovery(g, os, arch, seeds) == discovered(g, os, arch, seeds, n),
{
    let k = choose|k: nat| discovered(g, os, arch, seeds, k).len() <= k;
    assert(discovered(g, os, arch, seeds, k).len() <= k);
    if k <= n {
        lemma_discovered_stable(g, os, arch, seeds, k, n);
    } else {
        lemma_discovered_stable(g, os, arch, seeds, n, k);
    }
}

/// What is left to expand: the sum of the out-degrees of the keys not yet expanded.
pub(crate) open spec fn open_degree(
    g: Packages,
    os: Seq<char>,
    arch: Seq<char>,
    keys: Seq<Seq<char>>,
    done: Set<Seq<char>>,
) -> nat
    decreases keys.len(),
{
    if keys.len() == 0 {
        0
    } else {
        let rest = open_degree(g, os, arch, keys.drop_last(), done);
        if done.contains(keys.last()) {
            rest
        } else {
            rest + targets(g, g[keys.last()], os, arch).len()
        }
    }
}

/// Expanding one more key takes its out-degree off the sum.
pub(crate) proof fn lemma_open_degree(
    g: Packages,
    os: Seq<char>,
    arch: Seq<char>,
    keys: Seq<Seq<char>>,
    done: Set<Seq<char>>,
    k: Seq<char>,
)
    requires
        keys.no_duplicates(),
        !done.contains(k),
    ensures
        open_degree(g, os, arch, keys, done) == open_degree(g, os, arch, keys, done.insert(k)) + (
        if keys.contains(k) {
            targets(g, g[k], os, arch).len()
        } else {
            0
        }),
    decreases keys.len(),
{
    if keys.len() > 0 {
        let rest = keys.drop_last();
        lemma_open_degree(g, os, arch, rest, done, k);
        if keys.last() == k {
            assert(!rest.contains(k)) by {
                if rest.contains(k) {
                    let i = choose|i: int| 0 <= i < rest.len() && rest[i] == k;
                    assert(keys[i] == keys[keys.len() - 1]);
                }
            }
            assert(keys.contains(k));
        } else {
            assert(keys.contains(k) == rest.contains(k)) by {
                if keys.contains(k) {
                    let i = choose|i: int| 0 <= i < keys.len() && keys[i] == k;
                    assert(rest[i] == k);
                }
                if rest.contains(k) {
                    let i = choose|i: int| 0 <= i < rest.len() && rest[i] == k;
                    assert(keys[i] == k);
                }
            }
        }
    }
}

/// Adds `key` to the found keys unless it is among them.
fn push_new(order: &mut Vec<String>, seen: &mut StrSet, key: &String)
    requires
        old(seen)@ == texts(old(order)@).to_set(),
    ensures
        final(seen)@ == texts(final(order)@).to_set(),
        texts(final(order)@) == (if texts(old(order)@).contains(key@) {
            texts(old(order)@)
        } else {
            texts(old(order)@).push(key@)
        }),
{
    let ghost was = texts(order@);
    if seen.insert(key.clone()) {
        order.push(key.clone());
        proof {
            assert(texts(order@) =~= was.push(key@));
            assert forall|x: Seq<char>|
                was.push(key@).to_set().contains(x) <==> was.to_set().insert(key@).contains(x) by {
                let t = was.push(key@);
                if was.contains(x) {
                    let i = choose|i: int| 0 <= i < was.len() && was[i] == x;
                    assert(t[i] == x);
                }
                assert(t[was.len() as int] == key@);
            }
            assert(was.push(key@).to_set() =~= was.to_set().insert(key@));
        }
    } else {
        assert(was.to_set().insert(key@) =~= was.to_set());
    }
}

/// Whether two entries for one name and version can stand for the same package: their hashes
/// agree unless one records none, their tarball addresses likewise, and both or neither have
/// a lifecycle script.
pub open spec fn agree(a: PackageView, b: PackageView) -> bool {
    &&& a.integrity.len() == 0 || b.integrity.len() == 0 || a.integrity == b.integrity
    &&& a.resolved is None || b.resolved is None || a.resolved == b.resolved
    &&& a.has_install_script == b.has_install_script
}

/// Whether two entries for one name and version can stand for the same package.
pub fn entries_agree_where_comparable(a: &ResolvedPackage, b: &ResolvedPackage) -> (r: bool)
    ensures
        r == agree(a@, b@),
{
    let integrity_agrees = a.integrity.as_str().is_empty() || b.integrity.as_str().is_empty()
        || same(a.integrity.as_str(), b.integrity.as_str());
    let resolved_agrees = match (&a.resolved, &b.resolved) {
        (Some(x), Some(y)) => same(x.as_str(), y.as_str()),
        _ => true,
    };
    integrity_agrees && resolved_agrees && a.has_install_script == b.has_install_script
}

/// The graph with one more entry: an entry for a key that is there must agree with the one
/// held, and takes its place only when it records a hash and the other does not.
pub open spec fn with_entry(g: Packages, p: PackageView) -> Option<Packages> {
    let key = key_of(p.name, p.version);
    if !g.dom().contains(key) {
        Some(g.insert(key, p))
    } else if !agree(g[key], p) {
        None
    } else if g[key].integrity.len() == 0 && p.integrity.len() > 0 {
        Some(g.insert(key, p))
    } else {
        Some(g)
    }
}

/// The graph of a list of entries, taken in order; nothing when two of them disagree.
pub open spec fn merged(list: Seq<PackageView>) -> Option<Packages>
    decreases list.len(),
{
    if list.len() == 0 {
        Some(Map::empty())
    } else {
        match merged(list.drop_last()) {
            None => None,
            Some(g) => with_entry(g, list.last()),
        }
    }
}

/// A lockfile with two disagreeing entries for one package.
#[derive(Debug)]
pub struct Disagreement {
    pub name: String,
    pub version: String,
    /// The lockfile key of the entry that disagrees.
    pub at: String,
    /// What the entry records that it disagrees with.
    pub held_integrity: String,
    pub held_resolved: Option<String>,
    /// What the entry itself records.
    pub integrity: String,
    pub resolved: Option<String>,
}

/// Whether an error tells of an entry that disagrees with another, and what both record.
pub open spec fn shows(e: Disagreement, held: PackageView, p: PackageView) -> bool {
    &&& !agree(held, p)
    &&& e.name@ == p.name
    &&& e.version@ == p.version
    &&& e.held_integrity@ == held.integrity
    &&& opt_text(e.held_resolved) == held.resolved
    &&& e.integrity@ == p.integrity
    &&& opt_text(e.resolved) == p.resolved
}

/// Whether an error tells of two entries of a list, for one package, that disagree.
pub open spec fn tells_of(e: Disagreement, list: Seq<PackageView>) -> bool {
    exists|i: int, j: int|
        0 <= i < list.len() && 0 <= j < list.len() && key_of(list[i].name, list[i].version)
            == key_of(list[j].name, list[j].version) && shows(
            e,
            #[trigger] list[i],
            #[trigger] list[j],
        )
}

/// Every package of a graph is one of the entries that it was made of.
pub proof fn lemma_merged_entry(list: Seq<PackageView>, key: Seq<char>) -> (i: int)
    requires
        merged(list) is Some,
        merged(list)->0.dom().contains(key),
    ensures
        0 <= i < list.len(),
        merged(list)->0[key] == list[i],
        key == key_of(list[i].name, list[i].version),
    decreases list.len(),
{
    let rest = list.drop_last();
    if merged(rest)->0.dom().contains(key) && merged(list)->0[key] == merged(rest)->0[key] {
        lemma_merged_entry(rest, key)
    } else {
        list.len() - 1
    }
}

/// The text of an address, or a dash where there is none.
pub open spec fn shown(o: Option<Seq<char>>) -> Seq<char> {
    match o {
        Some(s) => s,
        None => "-"@,
    }
}

fn show(o: &Option<String>) -> (r: String)
    ensures
        r@ == shown(opt_text(*o)),
{
    match o {
        Some(s) => s.clone(),
        None => "-".to_owned(),
    }
}

impl Disagreement {
    /// The text of the error.
    pub open spec fn text(&self) -> Seq<char> {
        self.name@ + "@"@ + self.version@
            + " has two disagreeing entries within the same lockfile: one records integrity `"@
            + self.held_integrity@ + "` resolved from `"@ + shown(opt_text(self.held_resolved))
            + "`, the one at `"@ + self.at@ + "` records integrity `"@ + self.integrity@
            + "` resolved from `"@ + shown(opt_text(self.resolved))
            + "`. This is not a cross-project ambiguity; the lockfile itself is inconsistent "@
            + "for this package; regenerate it"@
    }

    /// The text of the error.
    pub fn message(&self) -> (r: String)
        ensures
            r@ == self.text(),
    {
        self.name.clone().concat("@").concat(self.version.as_str()).concat(
            " has two disagreeing entries within the same lockfile: one records integrity `",
        ).concat(self.held_integrity.as_str()).concat("` resolved from `").concat(
            show(&self.held_resolved).as_str(),
        ).concat("`, the one at `").concat(self.at.as_str()).concat(
            "` records integrity `",
        ).concat(self.integrity.as_str()).concat("` resolved from `").concat(
            show(&self.resolved).as_str(),
        ).concat(
            "`. This is not a cross-project ambiguity; the lockfile itself is inconsistent ",
        ).concat("for this package; regenerate it")
    }
}

/// Adds an entry to the packages of a graph.
pub(crate) fn add_entry(
    packages: &mut StrMap<ResolvedPackage>,
    p: ResolvedPackage,
    at: &str,
) -> (r: Result<(), Disagreement>)
    ensures
        r is Ok <==> with_entry(old(packages)@, p@) is Some,
        r is Ok ==> with_entry(old(packages)@, p@) == Some(final(packages)@),
        r matches Err(e) ==> e.at@ == at@ && old(packages)@.dom().contains(
            key_of(p@.name, p@.version),
        ),
        r matches Err(e) ==> shows(e, old(packages)@[key_of(p@.name, p@.version)], p@),
{
    let key = graph_key(p.name.as_str(), p.version.as_str());
    let replace = match packages.get(key.as_str()) {
        None => true,
        Some(held) => {
            if !entries_agree_where_comparable(held, &p) {
                return Err(
                    Disagreement {
                        name: p.name.clone(),
                        version: p.version.clone(),
                        at: at.to_owned(),
                        held_integrity: held.integrity.clone(),
                        held_resolved: held.resolved.clone(),
                        integrity: p.integrity.clone(),
                        resolved: p.resolved.clone(),
                    },
                );
            }
            held.integrity.as_str().is_empty() && !p.integrity.as_str().is_empty()
        },
    };
    if replace {
        packages.insert(key, p);
    }
    Ok(())
}

/// A package and the chain that it is placed below, as mathematical values.
pub type Placement = (Seq<char>, Seq<Seq<char>>);

/// The placements of a level.
spec fn placements(level: Seq<(String, Vec<String>)>) -> Seq<Placement> {
    level.map_values(|p: (String, Vec<String>)| (p.0@, texts(p.1@)))
}

/// Whether `level` holds exactly the packages placed below chains of length `depth`.
spec fn is_level(
    g: Packages,
    flat: Map<Seq<char>, Seq<char>>,
    os: Seq<char>,
    arch: Seq<char>,
    level: Seq<Placement>,
    depth: nat,
) -> bool {
    forall|key: Seq<char>, path: Seq<Seq<char>>|
        level.contains((key, path)) <==> path.len() == depth && #[trigger] placed(
            g,
            flat,
            os,
            arch,
            key,
            path,
        )
}

/// Whether `entries` holds exactly what is materialized below chains of at most `depth`.
spec fn entries_upto(
    g: Packages,
    flat: Map<Seq<char>, Seq<char>>,
    os: Seq<char>,
    arch: Seq<char>,
    entries: Set<Seq<Seq<char>>>,
    depth: nat,
) -> bool {
    &&& forall|e: EntryView| #[trigger]
        entries.contains(entry_list(e)) <==> e.nested_under.len() <= depth && materialized(
            g,
            flat,
            os,
            arch,
            e,
        )
    &&& forall|l: Seq<Seq<char>>| #[trigger] entries.contains(l) ==> l.len() >= 2
}

/// Whether the override of `name` by `key` for the package `parent` placed below `path` is
/// among the entries and among the placements of the next level.
spec fn covered(
    g: Packages,
    entries: Set<Seq<Seq<char>>>,
    next: Seq<Placement>,
    parent: Seq<char>,
    path: Seq<Seq<char>>,
    name: Seq<char>,
    key: Seq<char>,
) -> bool {
    let below = path.push(g[parent].name);
    &&& entries.contains(
        entry_list(EntryView { name, version: g[key].version, nested_under: below }),
    )
    &&& next.contains((key, below))
}

/// An entry is told by its list.
proof fn lemma_entry_list(a: EntryView, b: EntryView)
    requires
        entry_list(a) == entry_list(b),
    ensures
        a == b,
{
    let x = entry_list(a);
    let y = entry_list(b);
    assert(x[0] == y[0] && x[1] == y[1]);
    assert(a.nested_under =~= x.skip(2));
    assert(b.nested_under =~= y.skip(2));
}

/// A placement deeper than the limit needs an override that nests too deep.
pub(crate) proof fn lemma_depth(
    g: Packages,
    flat: Map<Seq<char>, Seq<char>>,
    os: Seq<char>,
    arch: Seq<char>,
    key: Seq<char>,
    path: Seq<Seq<char>>,
)
    requires
        placed(g, flat, os, arch, key, path),
        path.len() > MAX_NESTED_DEPTH,
    ensures
        nests_too_deep(g, flat, os, arch),
    decreases path.len(),
{
    let (parent, name) = choose|parent: Seq<char>, name: Seq<char>|
        placed(g, flat, os, arch, parent, path.drop_last()) && g[parent].name == path.last()
            && #[trigger] overrides(g, flat, os, arch, parent, name, key);
    if path.len() > MAX_NESTED_DEPTH + 1 {
        lemma_depth(g, flat, os, arch, parent, path.drop_last());
    }
}

/// The packages of the flat placement are in the graph.
pub(crate) proof fn lemma_first_named(g: Packages, order: Seq<Seq<char>>, name: Seq<char>)
    ensures
        first_named(g, order, name) matches Some(key) ==> g.dom().contains(key) && g[key].name
            == name && order.contains(key),
    decreases order.len(),
{
    if order.len() > 0 {
        lemma_first_named(g, order.drop_last(), name);
        if let Some(key) = first_named(g, order.drop_last(), name) {
            let i = choose|i: int| 0 <= i < order.drop_last().len() && order.drop_last()[i] == key;
            assert(order[i] == key);
        }
    }
}

/// Whether the limit was hit where the error says: below its chain a placed package needs an
/// override of that name.
pub open spec fn limit_hit(
    g: Packages,
    flat: Map<Seq<char>, Seq<char>>,
    os: Seq<char>,
    arch: Seq<char>,
    e: NestingLimit,
) -> bool {
    exists|parent: Seq<char>, key: Seq<char>|
        texts(e.path@).len() == MAX_NESTED_DEPTH && placed(
            g,
            flat,
            os,
            arch,
            parent,
            texts(e.path@),
        ) && #[trigger] overrides(g, flat, os, arch, parent, e.name@, key)
}

/// Whether `level` holds the placement of `key` below `path`.
fn holds_placement(level: &Vec<(String, Vec<String>)>, key: &str, path: &Vec<String>) -> (r: bool)
    ensures
        r == placements(level@).contains((key@, texts(path@))),
{
    let ghost lv = placements(level@);
    let mut i: usize = 0;
    while i < level.len()
        invariant
            i <= level.len(),
            lv == placements(level@),
            forall|k: int| 0 <= k < i ==> #[trigger] lv[k] != (key@, texts(path@)),
        decreases level.len() - i,
    {
        assert(lv[i as int] == (level@[i as int].0@, texts(level@[i as int].1@)));
        if same(level[i].0.as_str(), key) && list_rank(&level[i].1, path) == Rank::Same {
            return true;
        }
        i = i + 1;
    }
    false
}

/// The entries that ordered lists spell.
fn entries_of_lists(lists: Vec<Vec<String>>) -> (r: Vec<TransitiveEntry>)
    requires
        forall|i: int| 0 <= i < lists@.len() ==> (#[trigger] lists@[i])@.len() >= 2,
        lists_increasing(list_texts(lists@)),
    ensures
        entries_increasing(entry_views(r@)),
        forall|e: EntryView| #[trigger]
            entry_views(r@).contains(e) <==> list_texts(lists@).to_set().contains(entry_list(e)),
{
    let ghost all = list_texts(lists@);
    let mut out: Vec<TransitiveEntry> = Vec::new();
    let mut i: usize = 0;
    while i < lists.len()
        invariant
            i <= lists.len(),
            all == list_texts(lists@),
            forall|k: int| 0 <= k < lists@.len() ==> (#[trigger] lists@[k])@.len() >= 2,
            out@.len() == i,
            forall|k: int| 0 <= k < i ==> entry_list((#[trigger] out@[k])@) == all[k],
        decreases lists.len() - i,
    {
        let list = &lists[i];
        assert(lists@[i as int]@.len() >= 2);
        let mut nested_under: Vec<String> = Vec::new();
        let mut j: usize = 2;
        assert(texts(nested_under@) =~= texts(list@).subrange(2, 2));
        while j < list.len()
            invariant
                2 <= j <= list.len(),
                texts(nested_under@) == texts(list@).subrange(2, j as int),
            decreases list.len() - j,
        {
            let ghost was = texts(nested_under@);
            nested_under.push(list[j].clone());
            assert(texts(nested_under@) =~= was.push(list@[j as int]@));
            assert(texts(nested_under@) =~= texts(list@).subrange(2, j + 1));
            j = j + 1;
        }
        let e = TransitiveEntry {
            name: list[0].clone(),
            version: list[1].clone(),
            nested_under,
        };
        assert(entry_list(e@) =~= all[i as int]) by {
            assert(all[i as int] == texts(list@));
        }
        out.push(e);
        i = i + 1;
    }
    proof {
        let ev = entry_views(out@);
        assert(ev.map_values(|e: EntryView| entry_list(e)) =~= all);
        assert forall|e: EntryView| #[trigger]
            ev.contains(e) <==> all.to_set().contains(entry_list(e)) by {
            if ev.contains(e) {
                let k = choose|k: int| 0 <= k < ev.len() && ev[k] == e;
                assert(entry_list(out@[k]@) == all[k]);
            }
            if all.contains(entry_list(e)) {
                let k = choose|k: int| 0 <= k < all.len() && all[k] == entry_list(e);
                assert(entry_list(out@[k]@) == all[k]);
                lemma_entry_list(out@[k]@, e);
                assert(ev[k] == e);
            }
        }
    }
    out
}

impl ResolvedGraph {
    /// The package of that name and version.
    pub fn get(&self, name: &str, version: &str) -> (r: Option<&ResolvedPackage>)
        ensures
            r is Some <==> self@.dom().contains(key_of(name@, version@)),
            r matches Some(p) ==> p@ == self@[key_of(name@, version@)],
    {
        self.packages.get(graph_key(name, version).as_str())
    }

    /// The edges of a package that a walk follows.
    fn edges_of(&self, pkg: &ResolvedPackage, os: &str, arch: &str) -> (r: Vec<(String, String)>)
        ensures
            r@.map_values(|e: (String, String)| (e.0@, e.1@)) == edges(self@, pkg@, os@, arch@),
    {
        let mut out: Vec<(String, String)> = Vec::new();
        let deps = &pkg.dependencies;
        deps.facts();
        let mut i: usize = 0;
        let n: usize = deps.len();
        let ghost view = |e: (String, String)| (e.0@, e.1@);
        let ghost all = pairs(deps@);
        while i < n
            invariant
                i <= n == deps.keys().len(),
                deps.keys().len() == deps.values().len(),
                listing(deps@.dom()) == deps.keys(),
                all == pairs(deps@),
                view == (|e: (String, String)| (e.0@, e.1@)),
                forall|k: int|
                    0 <= k < deps.keys().len() ==> deps@.dom().contains(#[trigger] deps.keys()[k])
                        && deps@[deps.keys()[k]] == deps.values()[k],
                out@.map_values(view) == all.take(i as int),
            decreases n - i,
        {
            let ghost was = out@;
            let name = deps.key_at(i);
            let key = deps.value_at(i);
            out.push((name.clone(), key.clone()));
            assert(deps.keys()[i as int] == name@);
            assert(out@.map_values(view) =~= was.map_values(view).push((name@, key@)));
            assert(out@.map_values(view) =~= all.take(i + 1));
            i = i + 1;
        }
        assert(all.take(i as int) =~= all);
        let optional = &pkg.optional_dependencies;
        optional.facts();
        let ghost may = |e: (Seq<char>, Seq<char>)| usable(self@, e.1, os@, arch@);
        let ghost opt = pairs(optional@);
        let mut j: usize = 0;
        let m: usize = optional.len();
        proof {
            reveal(Seq::filter);
            assert(opt.take(0).filter(may) =~= Seq::<(Seq<char>, Seq<char>)>::empty());
            assert(out@.map_values(view) =~= all + opt.take(0).filter(may));
        }
        while j < m
            invariant
                j <= m == optional.keys().len(),
                optional.keys().len() == optional.values().len(),
                listing(optional@.dom()) == optional.keys(),
                opt == pairs(optional@),
                view == (|e: (String, String)| (e.0@, e.1@)),
                may == (|e: (Seq<char>, Seq<char>)| usable(self@, e.1, os@, arch@)),
                forall|k: int|
                    0 <= k < optional.keys().len() ==> optional@.dom().contains(
                        #[trigger] optional.keys()[k],
                    ) && optional@[optional.keys()[k]] == optional.values()[k],
                out@.map_values(view) == all + opt.take(j as int).filter(may),
            decreases m - j,
        {
            let ghost was = out@;
            let name = optional.key_at(j);
            let key = optional.value_at(j);
            let ok = match self.packages.get(key.as_str()) {
                Some(p) => matches_platform(p.os.as_slice(), p.cpu.as_slice(), os, arch),
                None => false,
            };
            proof {
                reveal(Seq::filter);
                assert(optional.keys()[j as int] == name@);
                assert(opt[j as int] == (name@, key@));
                assert(opt.take(j + 1).drop_last() =~= opt.take(j as int));
                assert(opt.take(j + 1).last() == (name@, key@));
                assert(ok == may((name@, key@)));
            }
            if ok {
                out.push((name.clone(), key.clone()));
                assert(out@.map_values(view) =~= was.map_values(view).push((name@, key@)));
                assert(out@.map_values(view) =~= all + opt.take(j + 1).filter(may));
            }
            j = j + 1;
        }
        assert(opt.take(j as int) =~= opt);
        out
    }

    /// The keys reachable from the seeds, in breadth-first order.
    fn discover(&self, seed_keys: &Vec<String>, os: &str, arch: &str) -> (r: Vec<String>)
        ensures
            texts(r@) == discovery(self@, os@, arch@, texts(seed_keys@)),
    {
        let ghost g = self@;
        let ghost seeds = texts(seed_keys@);
        let mut order: Vec<String> = Vec::new();
        let mut seen = StrSet::new();
        let mut i: usize = 0;
        proof {
            assert(texts(order@) =~= Seq::<Seq<char>>::empty());
            assert(texts(order@).to_set() =~= Set::<Seq<char>>::empty());
            assert(seeds.take(0) =~= Seq::<Seq<char>>::empty());
        }
        while i < seed_keys.len()
            invariant
                i <= seed_keys.len(),
                seeds == texts(seed_keys@),
                seen@ == texts(order@).to_set(),
                texts(order@) == append_new(Seq::empty(), seeds.take(i as int)),
            decreases seed_keys.len() - i,
        {
            push_new(&mut order, &mut seen, &seed_keys[i]);
            assert(seeds.take(i + 1).drop_last() =~= seeds.take(i as int));
            assert(seeds.take(i + 1).last() == seed_keys@[i as int]@);
            i = i + 1;
        }
        proof {
            assert(seeds.take(i as int) =~= seeds);
            lemma_append_new(Seq::empty(), seeds);
        }
        self.packages.facts();
        let ghost keys = self.packages.keys();
        let mut next: usize = 0;
        let ghost mut done = Set::<Seq<char>>::empty();
        while next < order.len()
            invariant
                next <= order.len(),
                g == self@,
                keys == self.packages.keys(),
                keys.no_duplicates(),
                keys.to_set() == g.dom(),
                seen@ == texts(order@).to_set(),
                texts(order@).no_duplicates(),
                texts(order@) == discovered(g, os@, arch@, seeds, next as nat),
                done == texts(order@).take(next as int).to_set(),
            decreases open_degree(g, os@, arch@, keys, done) + order.len() - next,
        {
            let key = order[next].clone();
            let ghost found = texts(order@);
            assert(found[next as int] == key@);
            proof {
                let head = found.take(next as int);
                assert(!done.contains(key@)) by {
                    if head.contains(key@) {
                        let k = choose|k: int| 0 <= k < head.len() && head[k] == key@;
                        assert(found[k] == found[next as int]);
                    }
                }
                lemma_open_degree(g, os@, arch@, keys, done, key@);
                assert(keys.contains(key@) <==> g.dom().contains(key@)) by {
                    assert(keys.to_set().contains(key@) <==> keys.contains(key@));
                }
            }
            if let Some(pkg) = self.packages.get(key.as_str()) {
                let es = self.edges_of(pkg, os, arch);
                let ghost ts = targets(g, pkg@, os@, arch@);
                proof {
                    let ev = es@.map_values(|e: (String, String)| (e.0@, e.1@));
                    assert(ts.len() == es@.len());
                    assert forall|k: int| 0 <= k < ts.len() implies #[trigger] ts[k]
                        == es@[k].1@ by {
                        assert(ev[k] == (es@[k].0@, es@[k].1@));
                    }
                    assert(ts.take(0) =~= Seq::<Seq<char>>::empty());
                }
                let mut j: usize = 0;
                while j < es.len()
                    invariant
                        j <= es.len(),
                        ts.len() == es@.len(),
                        forall|k: int| 0 <= k < ts.len() ==> #[trigger] ts[k] == es@[k].1@,
                        seen@ == texts(order@).to_set(),
                        texts(order@) == append_new(found, ts.take(j as int)),
                    decreases es.len() - j,
                {
                    push_new(&mut order, &mut seen, &es[j].1);
                    assert(ts.take(j + 1).drop_last() =~= ts.take(j as int));
                    assert(ts.take(j + 1).last() == ts[j as int]);
                    j = j + 1;
                }
                proof {
                    assert(ts.take(j as int) =~= ts);
                    lemma_append_new(found, ts);
                }
            }
            proof {
                assert(texts(order@) == discovered(g, os@, arch@, seeds, (next + 1) as nat));
                let now = texts(order@);
                assert(now.take(next as int) =~= found.take(next as int)) by {
                    assert(now.take(found.len() as int) == found || now == found);
                }
                assert(now[next as int] == key@) by {
                    assert(now.take(found.len() as int)[next as int] == found[next as int]);
                }
                let a = now.take(next + 1);
                assert(a =~= found.take(next as int).push(key@));
                assert forall|x: Seq<char>|
                    a.to_set().contains(x) <==> done.insert(key@).contains(x) by {
                    let h = found.take(next as int);
                    if h.contains(x) {
                        let k = choose|k: int| 0 <= k < h.len() && h[k] == x;
                        assert(a[k] == x);
                    }
                    assert(a[next as int] == key@);
                }
                assert(a.to_set() =~= done.insert(key@));
                done = done.insert(key@);
            }
            next = next + 1;
        }
        proof {
            lemma_discovery(g, os@, arch@, seeds, next as nat);
        }
        order
    }

    /// For each reachable name the key that was found first.
    fn flat_map(&self, order: &Vec<String>) -> (r: StrMap<String>)
        ensures
            r@ == flat_of(self@, texts(order@)),
    {
        let ghost g = self@;
        let ghost all = texts(order@);
        let mut flat: StrMap<String> = StrMap::new();
        let mut i: usize = 0;
        assert(flat@ =~= flat_of(g, all.take(0)));
        while i < order.len()
            invariant
                i <= order.len(),
                g == self@,
                all == texts(order@),
                flat@ == flat_of(g, all.take(i as int)),
            decreases order.len() - i,
        {
            let ghost was = flat@;
            assert(all.take(i + 1).drop_last() =~= all.take(i as int));
            assert(all.take(i + 1).last() == order@[i as int]@);
            if let Some(pkg) = self.packages.get(order[i].as_str()) {
                flat.insert_if_absent(pkg.name.clone(), order[i].clone());
            }
            assert(flat@ =~= flat_of(g, all.take(i + 1)));
            i = i + 1;
        }
        assert(all.take(i as int) =~= all);
        flat
    }

    /// Walks the edges of every package placed at one depth: adds an entry for each override
    /// found there and returns the placements one level deeper.
    fn expand_level(
        &self,
        flat: &StrMap<String>,
        level: &Vec<(String, Vec<String>)>,
        depth: usize,
        os: &str,
        arch: &str,
        entries: &mut ListSet,
    ) -> (r: Result<Vec<(String, Vec<String>)>, NestingLimit>)
        requires
            depth <= MAX_NESTED_DEPTH,
            is_level(self@, flat@, os@, arch@, placements(level@), depth as nat),
            entries_upto(self@, flat@, os@, arch@, old(entries)@, depth as nat),
            forall|key: Seq<char>, path: Seq<Seq<char>>| #[trigger]
                placed(self@, flat@, os@, arch@, key, path) ==> self@.dom().contains(key),
        ensures
            match r {
                Ok(next) => {
                    &&& is_level(self@, flat@, os@, arch@, placements(next@), (depth + 1) as nat)
                    &&& entries_upto(
                        self@,
                        flat@,
                        os@,
                        arch@,
                        final(entries)@,
                        (depth + 1) as nat,
                    )
                    &&& depth == MAX_NESTED_DEPTH ==> !nests_too_deep(self@, flat@, os@, arch@)
                },
                Err(e) => depth == MAX_NESTED_DEPTH && limit_hit(self@, flat@, os@, arch@, e),
            },
    {
        let ghost g = self@;
        let ghost fm = flat@;
        let ghost osv = os@;
        let ghost av = arch@;
        let ghost lv = placements(level@);
        let ghost before = entries@;
        let mut next: Vec<(String, Vec<String>)> = Vec::new();
        let mut i: usize = 0;
        while i < level.len()
            invariant
                i <= level.len(),
                depth <= MAX_NESTED_DEPTH,
                g == self@,
                fm == flat@,
                osv == os@,
                av == arch@,
                lv == placements(level@),
                is_level(g, fm, osv, av, lv, depth as nat),
                entries_upto(g, fm, osv, av, before, depth as nat),
                forall|key: Seq<char>, path: Seq<Seq<char>>| #[trigger]
                    placed(g, fm, osv, av, key, path) ==> g.dom().contains(key),
                before.subset_of(entries@),
                forall|l: Seq<Seq<char>>| #[trigger] entries@.contains(l) ==> l.len() >= 2,
                forall|e: EntryView| #[trigger]
                    entries@.contains(entry_list(e)) ==> e.nested_under.len() <= depth + 1
                        && materialized(g, fm, osv, av, e),
                forall|key: Seq<char>, path: Seq<Seq<char>>| #[trigger]
                    placements(next@).contains((key, path)) ==> path.len() == depth + 1 && placed(
                        g,
                        fm,
                        osv,
                        av,
                        key,
                        path,
                    ),
                forall|x: int, name: Seq<char>, key: Seq<char>|
                    0 <= x < i && #[trigger] overrides(g, fm, osv, av, lv[x].0, name, key)
                        ==> depth < MAX_NESTED_DEPTH && covered(
                        g,
                        entries@,
                        placements(next@),
                        lv[x].0,
                        lv[x].1,
                        name,
                        key,
                    ),
            decreases level.len() - i,
        {
            let parent = &level[i].0;
            let path = &level[i].1;
            let ghost pk = parent@;
            let ghost pp = texts(path@);
            proof {
                assert(lv[i as int] == (pk, pp));
                assert(lv.contains((pk, pp)));
                assert(placed(g, fm, osv, av, pk, pp));
            }
            let pkg = match self.packages.get(parent.as_str()) {
                Some(pkg) => pkg,
                None => {
                    assert(false);
                    return Ok(next);
                },
            };
            let es = self.edges_of(pkg, os, arch);
            let ghost ev = edges(g, g[pk], osv, av);
            assert(ev.len() == es@.len());
            assert forall|k: int| 0 <= k < es@.len() implies #[trigger] ev[k] == (
                es@[k].0@,
                es@[k].1@,
            ) by {
                assert(es@.map_values(|e: (String, String)| (e.0@, e.1@))[k] == (
                    es@[k].0@,
                    es@[k].1@,
                ));
            }
            let mut j: usize = 0;
            while j < es.len()
                invariant
                    i < level.len(),
                    j <= es.len(),
                    depth <= MAX_NESTED_DEPTH,
                    g == self@,
                    fm == flat@,
                    osv == os@,
                    av == arch@,
                    lv == placements(level@),
                    lv[i as int] == (pk, pp),
                    pp == texts(path@),
                    pp.len() == depth,
                    pkg@ == g[pk],
                    g.dom().contains(pk),
                    placed(g, fm, osv, av, pk, pp),
                    ev == edges(g, g[pk], osv, av),
                    ev.len() == es@.len(),
                    forall|k: int|
                        0 <= k < es@.len() ==> #[trigger] ev[k] == (es@[k].0@, es@[k].1@),
                    before.subset_of(entries@),
                    forall|l: Seq<Seq<char>>| #[trigger] entries@.contains(l) ==> l.len() >= 2,
                    forall|e: EntryView| #[trigger]
                        entries@.contains(entry_list(e)) ==> e.nested_under.len() <= depth + 1
                            && materialized(g, fm, osv, av, e),
                    forall|key: Seq<char>, path: Seq<Seq<char>>| #[trigger]
                        placements(next@).contains((key, path)) ==> path.len() == depth + 1
                            && placed(g, fm, osv, av, key, path),
                    forall|x: int, name: Seq<char>, key: Seq<char>|
                        0 <= x < i && #[trigger] overrides(g, fm, osv, av, lv[x].0, name, key)
                            ==> depth < MAX_NESTED_DEPTH && covered(
                            g,
                            entries@,
                            placements(next@),
                            lv[x].0,
                            lv[x].1,
                            name,
                            key,
                        ),
                    forall|y: int|
                        0 <= y < j && overrides(
                            g,
                            fm,
                            osv,
                            av,
                            pk,
                            (#[trigger] ev[y]).0,
                            ev[y].1,
                        ) ==> depth < MAX_NESTED_DEPTH && covered(
                            g,
                            entries@,
                            placements(next@),
                            pk,
                            pp,
                            ev[y].0,
                            ev[y].1,
                        ),
                decreases es.len() - j,
            {
                let name = &es[j].0;
                let key = &es[j].1;
                assert(ev[j as int] == (name@, key@));
                assert(ev.contains((name@, key@)));
                if let Some(child) = self.packages.get(key.as_str()) {
                    let diverges = match flat.get(name.as_str()) {
                        Some(flat_key) => !same(flat_key.as_str(), key.as_str()),
                        None => false,
                    };
                    assert(diverges == overrides(g, fm, osv, av, pk, name@, key@));
                    if diverges {
                        if depth >= MAX_NESTED_DEPTH {
                            let e = NestingLimit { name: name.clone(), path: path.clone() };
                            proof {
                                assert(texts(e.path@) =~= pp);
                                assert(overrides(g, fm, osv, av, pk, e.name@, key@));
                                assert(limit_hit(g, fm, osv, av, e));
                            }
                            return Err(e);
                        }
                        let mut below = path.clone();
                        below.push(pkg.name.clone());
                        let mut list: Vec<String> = Vec::new();
                        list.push(name.clone());
                        list.push(child.version.clone());
                        let mut k: usize = 0;
                        let ghost bv = pp.push(g[pk].name);
                        assert(texts(below@) =~= bv);
                        assert(texts(list@) =~= seq![name@, child.version@] + bv.take(0));
                        while k < below.len()
                            invariant
                                k <= below.len(),
                                bv == texts(below@),
                                texts(list@) == seq![name@, child.version@] + bv.take(k as int),
                            decreases below.len() - k,
                        {
                            let ghost was = texts(list@);
                            list.push(below[k].clone());
                            assert(texts(list@) =~= was.push(bv[k as int]));
                            assert(bv.take(k + 1) =~= bv.take(k as int).push(bv[k as int]));
                            assert(texts(list@) =~= seq![name@, child.version@] + bv.take(k + 1));
                            k = k + 1;
                        }
                        let ghost fresh = EntryView {
                            name: name@,
                            version: g[key@].version,
                            nested_under: bv,
                        };
                        proof {
                            assert(bv.take(k as int) =~= bv);
                            assert(texts(list@) == entry_list(fresh));
                            assert(bv.drop_last() =~= pp);
                            assert(materialized(g, fm, osv, av, fresh));
                            assert(placed(g, fm, osv, av, key@, bv));
                        }
                        let ghost es0 = entries@;
                        let ghost nx0 = placements(next@);
                        entries.insert(list);
                        if !holds_placement(&next, key.as_str(), &below) {
                            next.push((key.clone(), below));
                        }
                        proof {
                            let nx = placements(next@);
                            assert(nx =~= nx0 || nx =~= nx0.push((key@, bv)));
                            assert(nx.contains((key@, bv))) by {
                                if nx =~= nx0.push((key@, bv)) {
                                    assert(nx[nx0.len() as int] == (key@, bv));
                                }
                            }
                            assert forall|p: Placement| #[trigger] nx0.contains(p) implies nx.contains(
                                p,
                            ) by {
                                let t = choose|t: int| 0 <= t < nx0.len() && nx0[t] == p;
                                assert(nx[t] == p);
                            }
                            assert forall|k2: Seq<char>, p2: Seq<Seq<char>>| #[trigger]
                                nx.contains((k2, p2)) implies p2.len() == depth + 1 && placed(
                                g,
                                fm,
                                osv,
                                av,
                                k2,
                                p2,
                            ) by {
                                let t = choose|t: int| 0 <= t < nx.len() && nx[t] == (k2, p2);
                                if t < nx0.len() {
                                    assert(nx0[t] == (k2, p2));
                                    assert(nx0.contains((k2, p2)));
                                }
                            }
                            assert forall|e: EntryView| #[trigger]
                                entries@.contains(entry_list(e)) implies e.nested_under.len()
                                <= depth + 1 && materialized(g, fm, osv, av, e) by {
                                if entry_list(e) == entry_list(fresh) {
                                    lemma_entry_list(e, fresh);
                                } else {
                                    assert(es0.contains(entry_list(e)));
                                }
                            }
                            assert forall|p2: Seq<char>, q2: Seq<Seq<char>>, n2: Seq<char>, k2: Seq<char>| #[trigger]
                                covered(g, es0, nx0, p2, q2, n2, k2) implies covered(
                                g,
                                entries@,
                                nx,
                                p2,
                                q2,
                                n2,
                                k2,
                            ) by {}
                            assert(covered(g, entries@, nx, pk, pp, name@, key@));
                        }
                    }
                } else {
                    assert(!overrides(g, fm, osv, av, pk, name@, key@));
                }
                j = j + 1;
            }
            proof {
                assert forall|x: int, name: Seq<char>, key: Seq<char>|
                    0 <= x < i + 1 && #[trigger] overrides(
                        g,
                        fm,
                        osv,
                        av,
                        lv[x].0,
                        name,
                        key,
                    ) implies depth < MAX_NESTED_DEPTH && covered(
                    g,
                    entries@,
                    placements(next@),
                    lv[x].0,
                    lv[x].1,
                    name,
                    key,
                ) by {
                    if x == i {
                        let y = choose|y: int| 0 <= y < ev.len() && ev[y] == (name, key);
                        assert(overrides(g, fm, osv, av, pk, ev[y].0, ev[y].1));
                    }
                }
            }
            i = i + 1;
        }
        proof {
            let nx = placements(next@);
            assert forall|key: Seq<char>, path: Seq<Seq<char>>|
                path.len() == depth + 1 && #[trigger] placed(
                    g,
                    fm,
                    osv,
                    av,
                    key,
                    path,
                ) implies nx.contains((key, path)) by {
                let (parent, name) = choose|parent: Seq<char>, name: Seq<char>|
                    placed(g, fm, osv, av, parent, path.drop_last()) && g[parent].name
                        == path.last() && #[trigger] overrides(
                        g,
                        fm,
                        osv,
                        av,
                        parent,
                        name,
                        key,
                    );
                assert(lv.contains((parent, path.drop_last())));
                let x = choose|x: int| 0 <= x < lv.len() && lv[x] == (parent, path.drop_last());
                assert(overrides(g, fm, osv, av, lv[x].0, name, key));
                assert(path.drop_last().push(g[parent].name) =~= path);
            }
            assert(is_level(g, fm, osv, av, nx, (depth + 1) as nat));
            assert forall|e: EntryView|
                e.nested_under.len() <= depth + 1 && materialized(
                    g,
                    fm,
                    osv,
                    av,
                    e,
                ) implies #[trigger] entries@.contains(entry_list(e)) by {
                if e.nested_under.len() <= depth {
                    assert(before.contains(entry_list(e)));
                } else {
                    let (parent, key) = choose|parent: Seq<char>, key: Seq<char>|
                        placed(g, fm, osv, av, parent, e.nested_under.drop_last())
                            && g[parent].name == e.nested_under.last() && #[trigger] overrides(
                            g,
                            fm,
                            osv,
                            av,
                            parent,
                            e.name,
                            key,
                        ) && e.version == g[key].version;
                    let up = e.nested_under.drop_last();
                    assert(lv.contains((parent, up)));
                    let x = choose|x: int| 0 <= x < lv.len() && lv[x] == (parent, up);
                    assert(overrides(g, fm, osv, av, lv[x].0, e.name, key));
                    assert(up.push(g[parent].name) =~= e.nested_under);
                }
            }
            if depth == MAX_NESTED_DEPTH && nests_too_deep(g, fm, osv, av) {
                let (parent, path, name, key) = choose|
                    parent: Seq<char>,
                    path: Seq<Seq<char>>,
                    name: Seq<char>,
                    key: Seq<char>,
                |
                    path.len() == MAX_NESTED_DEPTH && #[trigger] placed(
                        g,
                        fm,
                        osv,
                        av,
                        parent,
                        path,
                    ) && #[trigger] overrides(g, fm, osv, av, parent, name, key);
                assert(lv.contains((parent, path)));
                let x = choose|x: int| 0 <= x < lv.len() && lv[x] == (parent, path);
                assert(overrides(g, fm, osv, av, lv[x].0, name, key));
            }
        }
        Ok(next)
    }

    /// Every package reachable from the seeds, with its placement: one flat entry for each
    /// reachable name, and a nested entry wherever a placed package needs another package
    /// under a name than the flat one. Fails when such overrides nest too deep.
    pub fn transitive_reachable(&self, seed_keys: &Vec<String>, os: &str, arch: &str) -> (r: Result<
        Vec<TransitiveEntry>,
        NestingLimit,
    >)
        ensures
            r is Err <==> nests_too_deep(
                self@,
                flat(self@, os@, arch@, texts(seed_keys@)),
                os@,
                arch@,
            ),
            r matches Ok(v) ==> entries_increasing(entry_views(v@)) && forall|e: EntryView|
                #[trigger] entry_views(v@).contains(e) <==> materialized(
                    self@,
                    flat(self@, os@, arch@, texts(seed_keys@)),
                    os@,
                    arch@,
                    e,
                ),
            r matches Err(e) ==> limit_hit(
                self@,
                flat(self@, os@, arch@, texts(seed_keys@)),
                os@,
                arch@,
                e,
            ),
    {
        let ghost g = self@;
        let order = self.discover(seed_keys, os, arch);
        let flat_keys = self.flat_map(&order);
        let ghost fm = flat(g, os@, arch@, texts(seed_keys@));
        assert(fm == flat_keys@);
        flat_keys.facts();
        let mut entries = ListSet::new();
        let mut level: Vec<(String, Vec<String>)> = Vec::new();
        let mut i: usize = 0;
        let n: usize = flat_keys.len();
        let ghost ks = flat_keys.keys();
        assert forall|name: Seq<char>| #[trigger] fm.dom().contains(name) implies g.dom().contains(
            fm[name],
        ) by {
            lemma_first_named(g, texts(order@), name);
        }
        while i < n
            invariant
                i <= n == ks.len(),
                g == self@,
                fm == flat_keys@,
                ks == flat_keys.keys(),
                ks.len() == flat_keys.values().len(),
                forall|k: int|
                    0 <= k < ks.len() ==> fm.dom().contains(#[trigger] ks[k]) && fm[ks[k]]
                        == flat_keys.values()[k],
                forall|name: Seq<char>| #[trigger]
                    fm.dom().contains(name) ==> g.dom().contains(fm[name]),
                forall|l: Seq<Seq<char>>| #[trigger]
                    entries@.contains(l) <==> exists|k: int|
                        0 <= k < i && l == seq![#[trigger] ks[k], g[fm[ks[k]]].version],
                level@.len() == i,
                forall|k: int|
                    0 <= k < i ==> #[trigger] placements(level@)[k] == (
                        fm[ks[k]],
                        Seq::<Seq<char>>::empty(),
                    ),
            decreases n - i,
        {
            let name = flat_keys.key_at(i);
            let key = flat_keys.value_at(i);
            assert(fm.dom().contains(ks[i as int]));
            if let Some(pkg) = self.packages.get(key.as_str()) {
                let mut list: Vec<String> = Vec::new();
                list.push(name.clone());
                list.push(pkg.version.clone());
                assert(texts(list@) =~= seq![ks[i as int], g[fm[ks[i as int]]].version]);
                let ghost was = entries@;
                entries.insert(list);
                let none: Vec<String> = Vec::new();
                let ghost lv = placements(level@);
                level.push((key.clone(), none));
                proof {
                    assert(texts(none@) =~= Seq::<Seq<char>>::empty());
                    assert(placements(level@) =~= lv.push(
                        (fm[ks[i as int]], Seq::<Seq<char>>::empty()),
                    ));
                    assert forall|l: Seq<Seq<char>>| #[trigger]
                        entries@.contains(l) <==> exists|k: int|
                            0 <= k < i + 1 && l == seq![
                                #[trigger] ks[k],
                                g[fm[ks[k]]].version,
                            ] by {
                        if entries@.contains(l) && !was.contains(l) {
                            assert(l == seq![ks[i as int], g[fm[ks[i as int]]].version]);
                        }
                        if exists|k: int|
                            0 <= k < i + 1 && l == seq![
                                #[trigger] ks[k],
                                g[fm[ks[k]]].version,
                            ] {
                            let k = choose|k: int|
                                0 <= k < i + 1 && l == seq![
                                    #[trigger] ks[k],
                                    g[fm[ks[k]]].version,
                                ];
                            if k < i {
                                assert(was.contains(l));
                            }
                        }
                    }
                }
            }
            i = i + 1;
        }
        proof {
            assert(entries_upto(g, fm, os@, arch@, entries@, 0)) by {
                assert forall|e: EntryView| #[trigger]
                    entries@.contains(entry_list(e)) <==> e.nested_under.len() <= 0
                        && materialized(g, fm, os@, arch@, e) by {
                    let l = entry_list(e);
                    if entries@.contains(l) {
                        let k = choose|k: int|
                            0 <= k < ks.len() && l == seq![
                                #[trigger] ks[k],
                                g[fm[ks[k]]].version,
                            ];
                        assert(l.len() == 2);
                        assert(l[0] == e.name && l[1] == e.version);
                    }
                    if e.nested_under.len() == 0 && fm.dom().contains(e.name) && e.version
                        == g[fm[e.name]].version {
                        assert(ks.to_set().contains(e.name));
                        let k = choose|k: int| 0 <= k < ks.len() && ks[k] == e.name;
                        assert(l =~= seq![ks[k], g[fm[ks[k]]].version]);
                    }
                }
            }
            let lv = placements(level@);
            assert(is_level(g, fm, os@, arch@, lv, 0)) by {
                assert forall|key: Seq<char>, path: Seq<Seq<char>>|
                    lv.contains((key, path)) <==> path.len() == 0 && #[trigger] placed(
                        g,
                        fm,
                        os@,
                        arch@,
                        key,
                        path,
                    ) by {
                    if lv.contains((key, path)) {
                        let k = choose|k: int| 0 <= k < lv.len() && lv[k] == (key, path);
                        assert(fm.dom().contains(ks[k]) && fm[ks[k]] == key);
                    }
                    if path.len() == 0 && placed(g, fm, os@, arch@, key, path) {
                        let name = choose|name: Seq<char>| #[trigger]
                            fm.dom().contains(name) && fm[name] == key;
                        assert(ks.to_set().contains(name));
                        let k = choose|k: int| 0 <= k < ks.len() && ks[k] == name;
                        assert(path =~= Seq::<Seq<char>>::empty());
                        assert(lv[k] == (key, path));
                    }
                }
            }
            assert forall|key: Seq<char>, path: Seq<Seq<char>>| #[trigger]
                placed(g, fm, os@, arch@, key, path) implies g.dom().contains(key) by {
                if path.len() == 0 {
                    let name = choose|name: Seq<char>| #[trigger]
                        fm.dom().contains(name) && fm[name] == key;
                    assert(fm.dom().contains(name));
                }
            }
        }
        let mut depth: usize = 0;
        while depth <= MAX_NESTED_DEPTH
            invariant
                depth <= MAX_NESTED_DEPTH + 1,
                g == self@,
                fm == flat_keys@,
                fm == flat(g, os@, arch@, texts(seed_keys@)),
                is_level(g, fm, os@, arch@, placements(level@), depth as nat),
                entries_upto(g, fm, os@, arch@, entries@, depth as nat),
                forall|key: Seq<char>, path: Seq<Seq<char>>| #[trigger]
                    placed(g, fm, os@, arch@, key, path) ==> g.dom().contains(key),
                depth > MAX_NESTED_DEPTH ==> !nests_too_deep(g, fm, os@, arch@),
            decreases MAX_NESTED_DEPTH + 1 - depth,
        {
            match self.expand_level(&flat_keys, &level, depth, os, arch, &mut entries) {
                Ok(next) => {
                    level = next;
                },
                Err(e) => {
                    return Err(e);
                },
            }
            depth = depth + 1;
        }
        let ghost set = entries@;
        let lists = entries.into_items();
        assert forall|k: int| 0 <= k < lists@.len() implies (#[trigger] lists@[k])@.len() >= 2 by {
            let lt = list_texts(lists@);
            assert(lt.contains(lt[k]));
            assert(set.contains(lt[k]));
        }
        let out = entries_of_lists(lists);
        proof {
            let ev = entry_views(out@);
            assert forall|e: EntryView| #[trigger] ev.contains(e) <==> materialized(
                g,
                fm,
                os@,
                arch@,
                e,
            ) by {
                assert(ev.contains(e) <==> set.contains(entry_list(e)));
                if materialized(g, fm, os@, arch@, e) && e.nested_under.len() > depth {
                    let (parent, key) = choose|parent: Seq<char>, key: Seq<char>|
                        placed(g, fm, os@, arch@, parent, e.nested_under.drop_last())
                            && g[parent].name == e.nested_under.last() && #[trigger] overrides(
                            g,
                            fm,
                            os@,
                            arch@,
                            parent,
                            e.name,
                            key,
                        ) && e.version == g[key].version;
                    lemma_depth(g, fm, os@, arch@, parent, e.nested_under.drop_last());
                }
            }
        }
        Ok(out)
    }
}

} // verus!
