//! What every import graph holds, and why a missing declaration shows on every machine.
use crate::config_scan::BareView;
use crate::importgraph::{
    no_edges, seen_from, site_request, with_files, with_site, with_sites, EdgeView,
    FileImportsView, GraphView,
};
use crate::phantom::{a_clean_package_has_clean_imports, first_phantom, third_party};
use crate::resolve_cache::{AnswerView, ResolveCache};
use crate::source::SiteView;
use crate::specifiers::{bare_package, guard_allows, GuardView};
use crate::tree::FilesView;
use vstd::prelude::*;

verus! {

/// Whether a graph holds what a site with the given answer adds to it.
pub open spec fn noted(
    g: GraphView,
    guard: GuardView,
    file_rel: Seq<char>,
    s: SiteView,
    answer: AnswerView,
) -> bool {
    match answer {
        AnswerView::Resolved(resolved) => {
            let edge = EdgeView { file: file_rel, specifier: s.specifier, resolved };
            if s.type_only {
                g.types.contains(edge)
            } else {
                g.runtime.contains(edge)
            }
        },
        AnswerView::Builtin => true,
        AnswerView::Unresolved => guard_allows(guard, s.specifier) && bare_package(
            s.specifier,
        ) is Some ==> g.bare.contains(
            BareView {
                file: file_rel,
                specifier: s.specifier,
                package_name: bare_package(s.specifier)->0,
            },
        ),
    }
}

/// Whether a graph holds everything that another one holds.
pub open spec fn holds_all(h: GraphView, g: GraphView) -> bool {
    &&& g.runtime.is_prefix_of(h.runtime)
    &&& g.types.is_prefix_of(h.types)
    &&& g.bare.is_prefix_of(h.bare)
}

proof fn lemma_kept<T>(a: Seq<T>, b: Seq<T>, x: T)
    requires
        a.is_prefix_of(b),
        a.contains(x),
    ensures
        b.contains(x),
{
    let i = choose|i: int| 0 <= i < a.len() && a[i] == x;
    assert(b.subrange(0, a.len() as int)[i] == b[i]);
}

proof fn lemma_noted_kept(
    g: GraphView,
    h: GraphView,
    guard: GuardView,
    file_rel: Seq<char>,
    s: SiteView,
    answer: AnswerView,
)
    requires
        holds_all(h, g),
        noted(g, guard, file_rel, s, answer),
    ensures
        noted(h, guard, file_rel, s, answer),
{
    match answer {
        AnswerView::Resolved(resolved) => {
            let edge = EdgeView { file: file_rel, specifier: s.specifier, resolved };
            if s.type_only {
                lemma_kept(g.types, h.types, edge);
            } else {
                lemma_kept(g.runtime, h.runtime, edge);
            }
        },
        AnswerView::Builtin => {},
        AnswerView::Unresolved => {
            if guard_allows(guard, s.specifier) && bare_package(s.specifier) is Some {
                let b = BareView {
                    file: file_rel,
                    specifier: s.specifier,
                    package_name: bare_package(s.specifier)->0,
                };
                lemma_kept(g.bare, h.bare, b);
            }
        },
    }
}

proof fn lemma_site_noted(
    g: GraphView,
    guard: GuardView,
    file_rel: Seq<char>,
    s: SiteView,
    answer: AnswerView,
)
    ensures
        holds_all(with_site(g, guard, file_rel, s, answer), g),
        noted(with_site(g, guard, file_rel, s, answer), guard, file_rel, s, answer),
{
    let h = with_site(g, guard, file_rel, s, answer);
    if h.runtime.len() > g.runtime.len() {
        assert(h.runtime[g.runtime.len() as int] == h.runtime.last());
    }
    if h.types.len() > g.types.len() {
        assert(h.types[g.types.len() as int] == h.types.last());
    }
    if h.bare.len() > g.bare.len() {
        assert(h.bare[g.bare.len() as int] == h.bare.last());
    }
}

proof fn lemma_sites_noted(
    c: ResolveCache,
    guard: GuardView,
    file: Seq<char>,
    file_rel: Seq<char>,
    sites: Seq<SiteView>,
    g: GraphView,
)
    requires
        with_sites(c, guard, file, file_rel, sites, g) is Ok,
    ensures
        holds_all(with_sites(c, guard, file, file_rel, sites, g)->Ok_0, g),
        forall|j: int|
            0 <= j < sites.len() ==> (c.held(site_request(file, #[trigger] sites[j])) matches Some(
                answer,
            ) && noted(
                with_sites(c, guard, file, file_rel, sites, g)->Ok_0,
                guard,
                file_rel,
                sites[j],
                answer,
            )),
    decreases sites.len(),
{
    if sites.len() > 0 {
        let answer = c.held(site_request(file, sites[0]))->0;
        let next = with_site(g, guard, file_rel, sites[0], answer);
        let rest = sites.drop_first();
        lemma_site_noted(g, guard, file_rel, sites[0], answer);
        lemma_sites_noted(c, guard, file, file_rel, rest, next);
        let h = with_sites(c, guard, file, file_rel, rest, next)->Ok_0;
        lemma_noted_kept(next, h, guard, file_rel, sites[0], answer);
        assert forall|j: int| 0 <= j < sites.len() implies (c.held(
            site_request(file, #[trigger] sites[j]),
        ) matches Some(a) && noted(h, guard, file_rel, sites[j], a)) by {
            if j > 0 {
                assert(rest[j - 1] == sites[j]);
            }
        }
    }
}

/// Every import of a package is in its graph, as what the resolver answered for it.
pub proof fn every_import_is_noted(
    c: ResolveCache,
    guard: GuardView,
    root: Seq<char>,
    files: Seq<FileImportsView>,
    g: GraphView,
    i: int,
    j: int,
)
    requires
        with_files(c, guard, root, files, g) is Ok,
        0 <= i < files.len(),
        0 <= j < files[i].sites.len(),
    ensures
        c.held(site_request(files[i].file, files[i].sites[j])) matches Some(answer) && noted(
            with_files(c, guard, root, files, g)->Ok_0,
            guard,
            seen_from(root, files[i].file),
            files[i].sites[j],
            answer,
        ),
    decreases files.len(),
{
    let f = files[0];
    let rel = seen_from(root, f.file);
    let next = with_sites(c, guard, f.file, rel, f.sites, g)->Ok_0;
    let rest = files.drop_first();
    lemma_sites_noted(c, guard, f.file, rel, f.sites, g);
    if i == 0 {
        lemma_files_kept(c, guard, root, rest, next);
        let answer = c.held(site_request(f.file, f.sites[j]))->0;
        lemma_noted_kept(
            next,
            with_files(c, guard, root, rest, next)->Ok_0,
            guard,
            rel,
            f.sites[j],
            answer,
        );
    } else {
        assert(rest[i - 1] == files[i]);
        every_import_is_noted(c, guard, root, rest, next, i - 1, j);
    }
}

proof fn lemma_files_kept(
    c: ResolveCache,
    guard: GuardView,
    root: Seq<char>,
    files: Seq<FileImportsView>,
    g: GraphView,
)
    requires
        with_files(c, guard, root, files, g) is Ok,
    ensures
        holds_all(with_files(c, guard, root, files, g)->Ok_0, g),
    decreases files.len(),
{
    if files.len() > 0 {
        let f = files[0];
        let rel = seen_from(root, f.file);
        let next = with_sites(c, guard, f.file, rel, f.sites, g)->Ok_0;
        lemma_sites_noted(c, guard, f.file, rel, f.sites, g);
        lemma_files_kept(c, guard, root, files.drop_first(), next);
        let h = with_files(c, guard, root, files.drop_first(), next)->Ok_0;
        assert(g.runtime.is_prefix_of(h.runtime));
        assert(g.types.is_prefix_of(h.types));
        assert(g.bare.is_prefix_of(h.bare));
    }
}

/// An import that names a package which is not declared is reported on every machine: where
/// nothing is installed and it does not resolve, and where it resolves into a package of that
/// name that happens to be installed. The tsconfig must leave no doubt about the specifier.
pub proof fn a_missing_declaration_shows_on_every_machine(
    fs: FilesView,
    c: ResolveCache,
    guard: GuardView,
    root: Seq<char>,
    pkg: Seq<char>,
    files: Seq<FileImportsView>,
    declared: Set<Seq<char>>,
    i: int,
    j: int,
)
    requires
        with_files(c, guard, root, files, no_edges()) is Ok,
        0 <= i < files.len(),
        0 <= j < files[i].sites.len(),
        guard_allows(guard, files[i].sites[j].specifier),
        bare_package(files[i].sites[j].specifier) matches Some(name) && !declared.contains(name),
        c.held(site_request(files[i].file, files[i].sites[j])) matches Some(answer)
            && match answer {
            AnswerView::Resolved(path) => third_party(path) == bare_package(
                files[i].sites[j].specifier,
            ),
            AnswerView::Builtin => false,
            AnswerView::Unresolved => true,
        },
    ensures
        first_phantom(
            fs,
            root,
            pkg,
            with_files(c, guard, root, files, no_edges())->Ok_0,
            declared,
        ) is Some,
{
    let g = with_files(c, guard, root, files, no_edges())->Ok_0;
    let s = files[i].sites[j];
    let rel = seen_from(root, files[i].file);
    every_import_is_noted(c, guard, root, files, no_edges(), i, j);
    if first_phantom(fs, root, pkg, g, declared) is None {
        a_clean_package_has_clean_imports(fs, root, pkg, g, declared);
        match c.held(site_request(files[i].file, s))->0 {
            AnswerView::Resolved(resolved) => {
                let edge = EdgeView { file: rel, specifier: s.specifier, resolved };
                if s.type_only {
                    let k = choose|k: int| 0 <= k < g.types.len() && g.types[k] == edge;
                    assert(g.types[k] == edge);
                } else {
                    let k = choose|k: int| 0 <= k < g.runtime.len() && g.runtime[k] == edge;
                    assert(g.runtime[k] == edge);
                }
            },
            AnswerView::Builtin => {},
            AnswerView::Unresolved => {
                let b = BareView {
                    file: rel,
                    specifier: s.specifier,
                    package_name: bare_package(s.specifier)->0,
                };
                let k = choose|k: int| 0 <= k < g.bare.len() && g.bare[k] == b;
                assert(g.bare[k] == b);
            },
        }
    }
}

/// Whether every specifier that a graph notes names its package and stands for no alias.
pub open spec fn only_packages(g: GraphView, guard: GuardView) -> bool {
    forall|k: int|
        0 <= k < g.bare.len() ==> guard_allows(guard, (#[trigger] g.bare[k]).specifier)
            && bare_package(g.bare[k].specifier) == Some(g.bare[k].package_name)
}

proof fn lemma_only_packages_in_sites(
    c: ResolveCache,
    guard: GuardView,
    file: Seq<char>,
    file_rel: Seq<char>,
    sites: Seq<SiteView>,
    g: GraphView,
)
    requires
        with_sites(c, guard, file, file_rel, sites, g) is Ok,
        only_packages(g, guard),
    ensures
        only_packages(with_sites(c, guard, file, file_rel, sites, g)->Ok_0, guard),
    decreases sites.len(),
{
    if sites.len() > 0 {
        let answer = c.held(site_request(file, sites[0]))->0;
        let next = with_site(g, guard, file_rel, sites[0], answer);
        lemma_only_packages_in_sites(c, guard, file, file_rel, sites.drop_first(), next);
    }
}

/// A specifier that an alias of the tsconfig may stand for, or that names no package, is never
/// reported by its text.
pub proof fn aliases_are_never_taken_for_packages(
    c: ResolveCache,
    guard: GuardView,
    root: Seq<char>,
    files: Seq<FileImportsView>,
    g: GraphView,
)
    requires
        with_files(c, guard, root, files, g) is Ok,
        only_packages(g, guard),
    ensures
        only_packages(with_files(c, guard, root, files, g)->Ok_0, guard),
    decreases files.len(),
{
    if files.len() > 0 {
        let f = files[0];
        let rel = seen_from(root, f.file);
        let next = with_sites(c, guard, f.file, rel, f.sites, g)->Ok_0;
        lemma_only_packages_in_sites(c, guard, f.file, rel, f.sites, g);
        aliases_are_never_taken_for_packages(c, guard, root, files.drop_first(), next);
    }
}

/// Whether an edge is what the resolver answered for one of the sites of a file, for types or
/// for values.
pub open spec fn from_sites(
    c: ResolveCache,
    file: Seq<char>,
    file_rel: Seq<char>,
    sites: Seq<SiteView>,
    edge: EdgeView,
    type_only: bool,
) -> bool {
    exists|j: int|
        0 <= j < sites.len() && (#[trigger] sites[j]).type_only == type_only && edge.specifier
            == sites[j].specifier && edge.file == file_rel && c.held(site_request(file, sites[j]))
            == Some(AnswerView::Resolved(edge.resolved))
}

/// Whether an edge is what the resolver answered for one of the imports of a package, for
/// types or for values.
pub open spec fn from_files(
    c: ResolveCache,
    root: Seq<char>,
    files: Seq<FileImportsView>,
    edge: EdgeView,
    type_only: bool,
) -> bool {
    exists|i: int|
        0 <= i < files.len() && from_sites(
            c,
            (#[trigger] files[i]).file,
            seen_from(root, files[i].file),
            files[i].sites,
            edge,
            type_only,
        )
}

proof fn lemma_from_sites(
    c: ResolveCache,
    guard: GuardView,
    file: Seq<char>,
    file_rel: Seq<char>,
    sites: Seq<SiteView>,
    g: GraphView,
)
    requires
        with_sites(c, guard, file, file_rel, sites, g) is Ok,
    ensures
        holds_all(with_sites(c, guard, file, file_rel, sites, g)->Ok_0, g),
        forall|k: int|
            g.runtime.len() <= k < with_sites(c, guard, file, file_rel, sites, g)->Ok_0.runtime.len()
                ==> from_sites(
                c,
                file,
                file_rel,
                sites,
                #[trigger] with_sites(c, guard, file, file_rel, sites, g)->Ok_0.runtime[k],
                false,
            ),
        forall|k: int|
            g.types.len() <= k < with_sites(c, guard, file, file_rel, sites, g)->Ok_0.types.len()
                ==> from_sites(
                c,
                file,
                file_rel,
                sites,
                #[trigger] with_sites(c, guard, file, file_rel, sites, g)->Ok_0.types[k],
                true,
            ),
    decreases sites.len(),
{
    lemma_sites_noted(c, guard, file, file_rel, sites, g);
    if sites.len() > 0 {
        let answer = c.held(site_request(file, sites[0]))->0;
        let next = with_site(g, guard, file_rel, sites[0], answer);
        let rest = sites.drop_first();
        lemma_from_sites(c, guard, file, file_rel, rest, next);
        let h = with_sites(c, guard, file, file_rel, rest, next)->Ok_0;
        assert forall|e: EdgeView, t: bool| from_sites(
            c,
            file,
            file_rel,
            rest,
            e,
            t,
        ) implies from_sites(c, file, file_rel, sites, e, t) by {
            let j = choose|j: int|
                0 <= j < rest.len() && (#[trigger] rest[j]).type_only == t && e.specifier
                    == rest[j].specifier && e.file == file_rel && c.held(
                    site_request(file, rest[j]),
                ) == Some(AnswerView::Resolved(e.resolved));
            assert(sites[j + 1] == rest[j]);
        }
        assert forall|k: int| g.runtime.len() <= k < h.runtime.len() implies from_sites(
            c,
            file,
            file_rel,
            sites,
            #[trigger] h.runtime[k],
            false,
        ) by {
            if k < next.runtime.len() {
                assert(h.runtime.subrange(0, next.runtime.len() as int)[k] == next.runtime[k]);
                assert(sites[0].type_only == false);
            }
        }
        assert forall|k: int| g.types.len() <= k < h.types.len() implies from_sites(
            c,
            file,
            file_rel,
            sites,
            #[trigger] h.types[k],
            true,
        ) by {
            if k < next.types.len() {
                assert(h.types.subrange(0, next.types.len() as int)[k] == next.types[k]);
                assert(sites[0].type_only == true);
            }
        }
    }
}

/// Imports of types and imports of values stay apart: every edge of either kind is what the
/// resolver answered for an import of that kind.
pub proof fn types_and_values_stay_apart(
    c: ResolveCache,
    guard: GuardView,
    root: Seq<char>,
    files: Seq<FileImportsView>,
    g: GraphView,
)
    requires
        with_files(c, guard, root, files, g) is Ok,
    ensures
        forall|k: int|
            g.runtime.len() <= k < with_files(c, guard, root, files, g)->Ok_0.runtime.len()
                ==> from_files(
                c,
                root,
                files,
                #[trigger] with_files(c, guard, root, files, g)->Ok_0.runtime[k],
                false,
            ),
        forall|k: int|
            g.types.len() <= k < with_files(c, guard, root, files, g)->Ok_0.types.len()
                ==> from_files(
                c,
                root,
                files,
                #[trigger] with_files(c, guard, root, files, g)->Ok_0.types[k],
                true,
            ),
    decreases files.len(),
{
    if files.len() > 0 {
        let f = files[0];
        let rel = seen_from(root, f.file);
        let next = with_sites(c, guard, f.file, rel, f.sites, g)->Ok_0;
        let rest = files.drop_first();
        lemma_from_sites(c, guard, f.file, rel, f.sites, g);
        types_and_values_stay_apart(c, guard, root, rest, next);
        lemma_files_kept(c, guard, root, rest, next);
        let h = with_files(c, guard, root, rest, next)->Ok_0;
        assert forall|e: EdgeView, t: bool| from_files(c, root, rest, e, t) implies from_files(
            c,
            root,
            files,
            e,
            t,
        ) by {
            let i = choose|i: int|
                0 <= i < rest.len() && from_sites(
                    c,
                    (#[trigger] rest[i]).file,
                    seen_from(root, rest[i].file),
                    rest[i].sites,
                    e,
                    t,
                );
            assert(files[i + 1] == rest[i]);
        }
        assert forall|k: int| g.runtime.len() <= k < h.runtime.len() implies from_files(
            c,
            root,
            files,
            #[trigger] h.runtime[k],
            false,
        ) by {
            if k < next.runtime.len() {
                assert(h.runtime.subrange(0, next.runtime.len() as int)[k] == next.runtime[k]);
                assert(files[0] == f);
            }
        }
        assert forall|k: int| g.types.len() <= k < h.types.len() implies from_files(
            c,
            root,
            files,
            #[trigger] h.types[k],
            true,
        ) by {
            if k < next.types.len() {
                assert(h.types.subrange(0, next.types.len() as int)[k] == next.types[k]);
                assert(files[0] == f);
            }
        }
    }
}

} // verus!
