//! When an import is one of something that is not declared, and which files a test runner's
//! configuration brings in.
use crate::config_scan::{import_target, probes, runner_refs, value_target, value_texts, BareView};
use crate::graph::{flat, nests_too_deep, Packages};
use crate::importgraph::{EdgeView, GraphView};
use crate::lockfile::{seed_keys, LockView};
use crate::nearest::first_file;
use crate::package_json::ManifestView;
use crate::path::{below, below_node_modules, parent_of, same_path, slashed, under, within};
use crate::phantom::{
    a_clean_package_has_clean_imports, declared_names, edge_verdict, first_party_owner,
    first_phantom, first_wrong_edge, first_wrong_site, owner_from, third_party, widened_names,
};
use crate::source::{FindingView, ValueView};
use crate::text::{last_match_upto, lemma_find_char, lemma_find_char_is, matches_at};
use crate::tree::{file_at, FilesView};
use crate::workspace::package_name_at;
use vstd::prelude::*;

verus! {

/// A package declares itself, its dependencies, its development dependencies and its peers, and
/// nothing else.
pub proof fn a_package_declares_what_its_manifest_names(m: ManifestView, n: Seq<char>)
    ensures
        declared_names(m).contains(n) <==> n == m.name || m.dependencies.dom().contains(n)
            || m.dev_dependencies.dom().contains(n) || m.peer_dependencies.dom().contains(n),
{
}

/// With a lockfile, everything that is placed flat for the package counts as declared too, as
/// long as the search for it ends.
pub proof fn what_is_placed_flat_counts_as_declared(
    m: ManifestView,
    pkg: Seq<char>,
    l: LockView,
    g: Packages,
    os: Seq<char>,
    arch: Seq<char>,
    n: Seq<char>,
)
    ensures
        widened_names(m, pkg, l, g, os, arch).contains(n) <==> n == m.name
            || m.dependencies.dom().contains(n) || m.dev_dependencies.dom().contains(n)
            || m.peer_dependencies.dom().contains(n) || !nests_too_deep(
            g,
            flat(g, os, arch, seed_keys(l, pkg, m)),
            os,
            arch,
        ) && flat(g, os, arch, seed_keys(l, pkg, m)).dom().contains(n),
{
}

proof fn lemma_last_match(s: Seq<char>, pat: Seq<char>, i: int)
    ensures
        ({
            let k = last_match_upto(s, pat, i);
            &&& k < 0 ==> forall|j: int| 0 <= j <= i ==> !#[trigger] matches_at(s, pat, j)
            &&& k >= 0 ==> k <= i && matches_at(s, pat, k) && forall|j: int|
                k < j <= i ==> !#[trigger] matches_at(s, pat, j)
        }),
    decreases i + 1,
{
    if i >= 0 && !matches_at(s, pat, i) {
        lemma_last_match(s, pat, i - 1);
    }
}

/// What lies below the last `node_modules` of a path is what follows its last such segment; a
/// path without one has nothing below it.
pub proof fn what_lies_below_follows_the_last_segment(p: Seq<char>) -> (head: Seq<char>)
    ensures
        below_node_modules(p) matches Some(rest) ==> "/"@ + p == head + "/node_modules/"@ + rest,
        below_node_modules(p) is Some ==> forall|j: int|
            head.len() < j <= p.len() + 1 ==> !#[trigger] matches_at(
                "/"@ + p,
                "/node_modules/"@,
                j,
            ),
        below_node_modules(p) is None ==> forall|j: int|
            0 <= j <= p.len() + 1 ==> !#[trigger] matches_at("/"@ + p, "/node_modules/"@, j),
{
    reveal_strlit("/");
    let s = "/"@ + p;
    let pat = "/node_modules/"@;
    lemma_last_match(s, pat, s.len() as int);
    let k = last_match_upto(s, pat, s.len() as int);
    if k >= 0 {
        let head = s.take(k);
        let rest = s.skip(k + pat.len());
        assert(s.subrange(k, k + pat.len()) == pat);
        assert(s =~= head + pat + rest) by {
            assert forall|i: int| 0 <= i < s.len() implies s[i] == (head + pat + rest)[i] by {
                if k <= i < k + pat.len() {
                    assert(s.subrange(k, k + pat.len())[i - k] == pat[i - k]);
                }
            }
        }
        head
    } else {
        Seq::empty()
    }
}

/// A path below `node_modules` belongs to the package that its first name there gives, or with a
/// scope its first two.
pub proof fn installed_paths_belong_to_their_package(
    p: Seq<char>,
    scope: Seq<char>,
    name: Seq<char>,
    rest: Seq<char>,
)
    requires
        !scope.contains('/'),
        !name.contains('/'),
        scope.len() > 0,
        scope[0] == '@',
    ensures
        below_node_modules(p) is None ==> third_party(p) is None,
        !(name.len() > 0 && name[0] == '@') && (below_node_modules(p) == Some(name)
            || below_node_modules(p) == Some(name + "/"@ + rest)) ==> third_party(p) == Some(name),
        below_node_modules(p) == Some(scope + "/"@ + name) || below_node_modules(p) == Some(
            scope + "/"@ + (name + "/"@ + rest),
        ) ==> third_party(p) == Some(scope + "/"@ + name),
{
    reveal_strlit("/");
    lemma_find_char(name, '/');
    assert(name.take(name.len() as int) =~= name);
    lemma_first_name(name, rest);
    lemma_first_name(scope, name);
    lemma_first_name(scope, name + "/"@ + rest);
    assert((scope + "/"@ + name)[scope.len() as int] == '/');
    assert((scope + "/"@ + (name + "/"@ + rest))[scope.len() as int] == '/');
}

proof fn lemma_first_name(a: Seq<char>, b: Seq<char>)
    requires
        !a.contains('/'),
    ensures
        crate::text::upto_char(a + "/"@ + b, '/') == a,
        crate::text::after_char(a + "/"@ + b, '/') == b,
{
    reveal_strlit("/");
    let s = a + "/"@ + b;
    let n = a.len() as int;
    assert forall|j: int| 0 <= j < n implies s[j] != '/' by {
        assert(s[j] == a[j]);
        assert(a.contains(a[j]));
    }
    assert(s[n] == '/');
    lemma_find_char_is(s, '/', n);
    assert(s.take(n) =~= a);
    assert(s.skip(n + 1) =~= b);
}

/// A directory of the workspace belongs to the nearest directory at or above it that has a
/// manifest, up to the root.
pub proof fn directories_belong_to_the_nearest_manifest(
    fs: FilesView,
    root: Seq<char>,
    dir: Seq<char>,
)
    ensures
        file_at(fs, under(dir, "package.json"@)) is Some ==> owner_from(fs, root, dir) == below(
            dir,
            root,
        ),
        file_at(fs, under(dir, "package.json"@)) is None && !same_path(dir, root) && (parent_of(
            dir,
        ) matches Some(q) && within(q, root)) ==> owner_from(fs, root, dir) == owner_from(
            fs,
            root,
            parent_of(dir)->0,
        ),
        file_at(fs, under(dir, "package.json"@)) is None && same_path(dir, root) ==> owner_from(
            fs,
            root,
            dir,
        ) is None,
{
}

/// An import is in order just when it leads to an installed package that is declared, into the
/// package itself, or into a member of the workspace whose name is declared.
pub proof fn an_import_leads_to_what_is_declared(
    fs: FilesView,
    root: Seq<char>,
    pkg: Seq<char>,
    edge: EdgeView,
    declared: Set<Seq<char>>,
)
    ensures
        edge_verdict(fs, root, pkg, edge, declared) is None <==> match third_party(edge.resolved) {
            Some(name) => declared.contains(name),
            None => match first_party_owner(fs, root, edge.resolved) {
                Some(dir) => slashed(dir) == pkg || (package_name_at(
                    fs,
                    under(under(root, dir), "package.json"@),
                ) matches Some(name) && declared.contains(name)),
                None => false,
            },
        },
{
}

proof fn lemma_all_clean(
    fs: FilesView,
    root: Seq<char>,
    pkg: Seq<char>,
    edges: Seq<EdgeView>,
    declared: Set<Seq<char>>,
)
    requires
        forall|i: int|
            0 <= i < edges.len() ==> edge_verdict(
                fs,
                root,
                pkg,
                #[trigger] edges[i],
                declared,
            ) is None,
    ensures
        first_wrong_edge(fs, root, pkg, edges, declared) is None,
    decreases edges.len(),
{
    if edges.len() > 0 {
        let rest = edges.drop_first();
        assert(edge_verdict(fs, root, pkg, edges[0], declared) is None);
        assert forall|i: int| 0 <= i < rest.len() implies edge_verdict(
            fs,
            root,
            pkg,
            #[trigger] rest[i],
            declared,
        ) is None by {
            assert(rest[i] == edges[i + 1]);
        }
        lemma_all_clean(fs, root, pkg, rest, declared);
    }
}

proof fn lemma_all_declared(sites: Seq<BareView>, declared: Set<Seq<char>>)
    requires
        forall|i: int| 0 <= i < sites.len() ==> declared.contains((#[trigger] sites[i]).package_name),
    ensures
        first_wrong_site(sites, declared) is None,
    decreases sites.len(),
{
    if sites.len() > 0 {
        let rest = sites.drop_first();
        assert(declared.contains(sites[0].package_name));
        assert forall|i: int| 0 <= i < rest.len() implies declared.contains(
            (#[trigger] rest[i]).package_name,
        ) by {
            assert(rest[i] == sites[i + 1]);
        }
        lemma_all_declared(rest, declared);
    }
}

/// A package is in order just when every import of a value is, every import of types is, and
/// every specifier that was not resolved names a package that is declared.
pub proof fn a_package_is_in_order_when_every_import_is(
    fs: FilesView,
    root: Seq<char>,
    pkg: Seq<char>,
    g: GraphView,
    declared: Set<Seq<char>>,
)
    ensures
        first_phantom(fs, root, pkg, g, declared) is None <==> {
            &&& forall|i: int|
                0 <= i < g.runtime.len() ==> edge_verdict(
                    fs,
                    root,
                    pkg,
                    #[trigger] g.runtime[i],
                    declared,
                ) is None
            &&& forall|i: int|
                0 <= i < g.types.len() ==> edge_verdict(
                    fs,
                    root,
                    pkg,
                    #[trigger] g.types[i],
                    declared,
                ) is None
            &&& forall|i: int|
                0 <= i < g.bare.len() ==> declared.contains((#[trigger] g.bare[i]).package_name)
        },
{
    if first_phantom(fs, root, pkg, g, declared) is None {
        a_clean_package_has_clean_imports(fs, root, pkg, g, declared);
    }
    if forall|i: int|
        0 <= i < g.runtime.len() ==> edge_verdict(
            fs,
            root,
            pkg,
            #[trigger] g.runtime[i],
            declared,
        ) is None {
        lemma_all_clean(fs, root, pkg, g.runtime, declared);
    }
    if forall|i: int|
        0 <= i < g.types.len() ==> edge_verdict(
            fs,
            root,
            pkg,
            #[trigger] g.types[i],
            declared,
        ) is None {
        lemma_all_clean(fs, root, pkg, g.types, declared);
    }
    if forall|i: int| 0 <= i < g.bare.len() ==> declared.contains((#[trigger] g.bare[i]).package_name) {
        lemma_all_declared(g.bare, declared);
    }
}

/// Whether a finding is a setting of a test runner that names files, and one of them is `s`.
pub open spec fn names_file(f: FindingView, s: Seq<char>) -> bool {
    f matches FindingView::Property(key, value) && (key == "setupFiles"@ || key
        == "setupFilesAfterEnv"@ || key == "globalSetup"@ || key == "globalTeardown"@)
        && match value {
        ValueView::Text(x) => x == s,
        ValueView::List(l) => l.contains(s),
        ValueView::Other => false,
    }
}

/// The files that a configuration of a test runner names are those of its settings for setting up
/// and tearing down, wherever they stand, and no others.
pub proof fn a_runner_config_names_its_setup_files(list: Seq<FindingView>, s: Seq<char>)
    ensures
        runner_refs(list).contains(s) <==> exists|i: int|
            0 <= i < list.len() && names_file(#[trigger] list[i], s),
    decreases list.len(),
{
    if list.len() > 0 {
        let rest = list.drop_last();
        let before = runner_refs(rest);
        a_runner_config_names_its_setup_files(rest, s);
        assert(list[list.len() - 1] == list.last());
        if let FindingView::Property(key, value) = list.last() {
            let here = value_texts(value);
            lemma_two(before, here, s);
            if let ValueView::Text(x) = value {
                assert(here[0] == x);
                if here.contains(s) {
                    let k = choose|k: int| 0 <= k < here.len() && here[k] == s;
                }
            }
        }
        if before.contains(s) {
            let i = choose|i: int| 0 <= i < rest.len() && names_file(#[trigger] rest[i], s);
            assert(list[i] == rest[i]);
        }
        if exists|i: int| 0 <= i < list.len() && names_file(#[trigger] list[i], s) {
            let i = choose|i: int| 0 <= i < list.len() && names_file(#[trigger] list[i], s);
            if i < rest.len() {
                assert(rest[i] == list[i]);
            }
        }
    }
}

proof fn lemma_two<T>(a: Seq<T>, b: Seq<T>, x: T)
    ensures
        (a + b).contains(x) <==> a.contains(x) || b.contains(x),
{
    if a.contains(x) {
        let i = choose|i: int| 0 <= i < a.len() && a[i] == x;
        assert((a + b)[i] == x);
    }
    if b.contains(x) {
        let i = choose|i: int| 0 <= i < b.len() && b[i] == x;
        assert((a + b)[a.len() + i] == x);
    }
}

/// Whether `p` names the file `f`: it is the file, or the file with an extension of source or
/// data, or the index file of the directory.
pub open spec fn may_name(p: Seq<char>, f: Seq<char>) -> bool {
    ||| f == p
    ||| f == p + ".ts"@ || f == p + ".tsx"@ || f == p + ".js"@ || f == p + ".jsx"@
    ||| f == p + ".mjs"@ || f == p + ".cjs"@ || f == p + ".json"@
    ||| f == under(p, "index.ts"@) || f == under(p, "index.tsx"@) || f == under(p, "index.js"@)
    ||| f == under(p, "index.jsx"@) || f == under(p, "index.mjs"@) || f == under(p, "index.cjs"@)
}

proof fn lemma_probes(p: Seq<char>, f: Seq<char>)
    ensures
        probes(p).contains(f) <==> may_name(p, f),
{
    let l = probes(p);
    assert(l[0] == p && l[1] == p + ".ts"@ && l[2] == p + ".tsx"@ && l[3] == p + ".js"@);
    assert(l[4] == p + ".jsx"@ && l[5] == p + ".mjs"@ && l[6] == p + ".cjs"@ && l[7] == p
        + ".json"@);
    assert(l[8] == under(p, "index.ts"@) && l[9] == under(p, "index.tsx"@));
    assert(l[10] == under(p, "index.js"@) && l[11] == under(p, "index.jsx"@));
    assert(l[12] == under(p, "index.mjs"@) && l[13] == under(p, "index.cjs"@));
    assert(l.len() == 14);
    if l.contains(f) {
        let i = choose|i: int| 0 <= i < l.len() && l[i] == f;
        assert(i == 0 || i == 1 || i == 2 || i == 3 || i == 4 || i == 5 || i == 6 || i == 7 || i
            == 8 || i == 9 || i == 10 || i == 11 || i == 12 || i == 13);
    }
}

proof fn lemma_first_file_among(fs: FilesView, list: Seq<Seq<char>>)
    ensures
        first_file(fs, list) is Some <==> exists|i: int|
            0 <= i < list.len() && file_at(fs, #[trigger] list[i]) is Some,
        first_file(fs, list) matches Some(p) ==> list.contains(p) && file_at(fs, p) is Some,
    decreases list.len(),
{
    if list.len() > 0 {
        let rest = list.drop_first();
        lemma_first_file_among(fs, rest);
        if file_at(fs, list[0]) is None {
            if exists|i: int| 0 <= i < list.len() && file_at(fs, #[trigger] list[i]) is Some {
                let i = choose|i: int| 0 <= i < list.len() && file_at(fs, #[trigger] list[i]) is Some;
                assert(rest[i - 1] == list[i]);
            }
            if let Some(p) = first_file(fs, rest) {
                let i = choose|i: int| 0 <= i < rest.len() && rest[i] == p;
                assert(list[i + 1] == p);
            }
        } else {
            assert(list.contains(list[0]));
        }
    }
}

/// A relative import of a configuration file leads to a file that it may name, if there is one,
/// and to the file of that very name before any other; another import leads to none.
pub proof fn relative_imports_lead_to_what_they_may_name(
    fs: FilesView,
    dir: Seq<char>,
    s: Seq<char>,
    f: Seq<char>,
)
    ensures
        ("./"@.is_prefix_of(s) || "../"@.is_prefix_of(s)) && may_name(under(dir, s), f) && file_at(
            fs,
            f,
        ) is Some ==> import_target(fs, dir, s) is Some,
        ("./"@.is_prefix_of(s) || "../"@.is_prefix_of(s)) && file_at(fs, under(dir, s)) is Some
            ==> import_target(fs, dir, s) == Some(under(dir, s)),
        import_target(fs, dir, s) matches Some(p) ==> may_name(under(dir, s), p) && file_at(
            fs,
            p,
        ) is Some && ("./"@.is_prefix_of(s) || "../"@.is_prefix_of(s)),
{
    let list = probes(under(dir, s));
    lemma_probes(under(dir, s), f);
    lemma_first_file_among(fs, list);
    if list.contains(f) {
        let i = choose|i: int| 0 <= i < list.len() && list[i] == f;
        assert(file_at(fs, f) is Some ==> file_at(fs, list[i]) is Some);
    }
    assert(list[0] == under(dir, s));
    if let Some(p) = import_target(fs, dir, s) {
        lemma_probes(under(dir, s), p);
    }
}

/// A setting leads to what it may name in the same way, from the directory of the configuration
/// where it is relative or starts with `<rootDir>`.
pub proof fn settings_lead_to_what_they_may_name(
    fs: FilesView,
    dir: Seq<char>,
    rest: Seq<char>,
    s: Seq<char>,
    f: Seq<char>,
)
    requires
        rest.len() > 0 ==> rest[0] != '/',
        file_at(fs, f) is Some,
    ensures
        may_name(under(dir, rest), f) ==> value_target(fs, dir, "<rootDir>/"@ + rest) is Some,
        file_at(fs, under(dir, rest)) is Some ==> value_target(fs, dir, "<rootDir>/"@ + rest)
            == Some(under(dir, rest)),
        ("./"@.is_prefix_of(s) || "../"@.is_prefix_of(s)) && may_name(under(dir, s), f)
            ==> value_target(fs, dir, s) is Some,
        ("./"@.is_prefix_of(s) || "../"@.is_prefix_of(s)) && file_at(fs, under(dir, s)) is Some
            ==> value_target(fs, dir, s) == Some(under(dir, s)),
{
    reveal_strlit("<rootDir>");
    reveal_strlit("<rootDir>/");
    reveal_strlit("./");
    reveal_strlit("../");
    let raw = "<rootDir>/"@ + rest;
    assert(raw.subrange(0, 9) =~= "<rootDir>"@);
    let tail = raw.skip(9);
    assert(tail =~= seq!['/'] + rest);
    assert(crate::text::trim_start_char(tail, '/') == rest) by {
        assert(tail.drop_first() =~= rest);
        reveal_with_fuel(crate::text::trim_start_char, 3);
    }
    if "./"@.is_prefix_of(s) {
        assert(s[0] == s.subrange(0, 2)[0]);
        if "<rootDir>"@.is_prefix_of(s) {
            assert(s[0] == s.subrange(0, 9)[0]);
        }
    }
    if "../"@.is_prefix_of(s) {
        assert(s[0] == s.subrange(0, 3)[0]);
        if "<rootDir>"@.is_prefix_of(s) {
            assert(s[0] == s.subrange(0, 9)[0]);
        }
    }
    lemma_probes(under(dir, rest), f);
    lemma_probes(under(dir, s), f);
    lemma_first_file_among(fs, probes(under(dir, rest)));
    lemma_first_file_among(fs, probes(under(dir, s)));
    assert(probes(under(dir, rest))[0] == under(dir, rest));
    assert(probes(under(dir, s))[0] == under(dir, s));
    if probes(under(dir, rest)).contains(f) {
        let l = probes(under(dir, rest));
        let i = choose|i: int| 0 <= i < l.len() && l[i] == f;
        assert(file_at(fs, l[i]) is Some);
    }
    if probes(under(dir, s)).contains(f) {
        let l = probes(under(dir, s));
        let i = choose|i: int| 0 <= i < l.len() && l[i] == f;
        assert(file_at(fs, l[i]) is Some);
    }
}

} // verus!
