//! What holds of every import graph and of the questions asked for it.
use crate::config_scan::BareView;
use crate::importgraph::{
    asked_for, asked_for_sites, dynamic_total, imports_of_files, no_edges, package_imports,
    site_request, with_files, with_site, with_sites, EdgeView, FileImportsView, GraphFailure,
    GraphView,
};
use crate::importparse::{dynamic_among, sites_among};
use crate::hermeticity_laws::every_import_is_noted;
use crate::path::{parent_of, path_key, relative, slashed};
use crate::resolve_cache::{AnswerView, CacheFlavor, RequestView, ResolveCache};
use crate::source::{file_findings, ModuleContext, SiteView};
use crate::sources::{package_dir, package_sources};
use crate::specifiers::GuardView;
use crate::tree::{is_directory, text_at, FilesView};
use vstd::prelude::*;

verus! {

/// What was asked stays asked, and every question of the sites is answered or asked.
proof fn lemma_asked_sites(
    c: ResolveCache,
    file: Seq<char>,
    sites: Seq<SiteView>,
    asked: Seq<RequestView>,
)
    ensures
        forall|q: RequestView|
            asked.contains(q) ==> #[trigger] asked_for_sites(c, file, sites, asked).contains(q),
        forall|i: int|
            0 <= i < sites.len() ==> c.held(site_request(file, #[trigger] sites[i])) is Some
                || asked_for_sites(c, file, sites, asked).contains(site_request(file, sites[i])),
    decreases sites.len(),
{
    if sites.len() > 0 {
        let rest = sites.drop_last();
        lemma_asked_sites(c, file, rest, asked);
        let before = asked_for_sites(c, file, rest, asked);
        let now = asked_for_sites(c, file, sites, asked);
        let last = site_request(file, sites.last());
        assert forall|q: RequestView| before.contains(q) implies now.contains(q) by {
            let k = choose|k: int| 0 <= k < before.len() && before[k] == q;
            assert(now[k] == q);
        }
        if c.held(last) is None && !before.contains(last) {
            assert(now[before.len() as int] == last);
        }
        assert forall|i: int| 0 <= i < sites.len() implies c.held(
            site_request(file, #[trigger] sites[i]),
        ) is Some || now.contains(site_request(file, sites[i])) by {
            if i < sites.len() - 1 {
                assert(rest[i] == sites[i]);
            }
        }
    }
}

proof fn lemma_asked(c: ResolveCache, files: Seq<FileImportsView>, i: int, j: int)
    requires
        0 <= i < files.len(),
        0 <= j < files[i].sites.len(),
    ensures
        c.held(site_request(files[i].file, files[i].sites[j])) is Some || asked_for(
            c,
            files,
        ).contains(site_request(files[i].file, files[i].sites[j])),
    decreases files.len(),
{
    let rest = files.drop_last();
    lemma_asked_sites(c, files.last().file, files.last().sites, asked_for(c, rest));
    if i < files.len() - 1 {
        lemma_asked(c, rest, i, j);
    }
}

proof fn lemma_missing_site(
    c: ResolveCache,
    guard: GuardView,
    file: Seq<char>,
    file_rel: Seq<char>,
    sites: Seq<SiteView>,
    g: GraphView,
) -> (j: int)
    requires
        with_sites(c, guard, file, file_rel, sites, g) is Err,
    ensures
        0 <= j < sites.len(),
        with_sites(c, guard, file, file_rel, sites, g) == Err::<GraphView, RequestView>(
            site_request(file, sites[j]),
        ),
        c.held(site_request(file, sites[j])) is None,
    decreases sites.len(),
{
    match c.held(site_request(file, sites[0])) {
        None => 0,
        Some(answer) => {
            let h = crate::importgraph::with_site(g, guard, file_rel, sites[0], answer);
            let k = lemma_missing_site(c, guard, file, file_rel, sites.drop_first(), h);
            assert(sites.drop_first()[k] == sites[k + 1]);
            k + 1
        },
    }
}

proof fn lemma_missing(
    c: ResolveCache,
    guard: GuardView,
    root: Seq<char>,
    files: Seq<FileImportsView>,
    g: GraphView,
) -> (at: (int, int))
    requires
        with_files(c, guard, root, files, g) is Err,
    ensures
        0 <= at.0 < files.len(),
        0 <= at.1 < files[at.0].sites.len(),
        with_files(c, guard, root, files, g) == Err::<GraphView, RequestView>(
            site_request(files[at.0].file, files[at.0].sites[at.1]),
        ),
        c.held(site_request(files[at.0].file, files[at.0].sites[at.1])) is None,
    decreases files.len(),
{
    let f = files[0];
    let rel = crate::importgraph::seen_from(root, f.file);
    match with_sites(c, guard, f.file, rel, f.sites, g) {
        Err(_) => {
            let j = lemma_missing_site(c, guard, f.file, rel, f.sites, g);
            (0int, j)
        },
        Ok(h) => {
            let at = lemma_missing(c, guard, root, files.drop_first(), h);
            assert(files.drop_first()[at.0] == files[at.0 + 1]);
            (at.0 + 1, at.1)
        },
    }
}

/// A question for which no graph can be put together is one of those still to be asked.
pub proof fn a_missing_answer_is_pending(
    c: ResolveCache,
    guard: GuardView,
    root: Seq<char>,
    files: Seq<FileImportsView>,
    g: GraphView,
)
    requires
        with_files(c, guard, root, files, g) is Err,
    ensures
        asked_for(c, files).contains(with_files(c, guard, root, files, g)->Err_0),
{
    let at = lemma_missing(c, guard, root, files, g);
    lemma_asked(c, files, at.0, at.1);
}

/// Once every question that was still to be asked has its answer, and no other answer is lost,
/// the graph can be put together.
pub proof fn answering_what_is_pending_suffices(
    c: ResolveCache,
    d: ResolveCache,
    guard: GuardView,
    root: Seq<char>,
    files: Seq<FileImportsView>,
    g: GraphView,
)
    requires
        forall|q: RequestView| #[trigger] c.held(q) is Some ==> d.held(q) is Some,
        forall|i: int|
            0 <= i < asked_for(c, files).len() ==> d.held(
                #[trigger] asked_for(c, files)[i],
            ) is Some,
    ensures
        with_files(d, guard, root, files, g) is Ok,
{
    if with_files(d, guard, root, files, g) is Err {
        let at = lemma_missing(d, guard, root, files, g);
        lemma_asked(c, files, at.0, at.1);
        let q = site_request(files[at.0].file, files[at.0].sites[at.1]);
        if asked_for(c, files).contains(q) {
            let k = choose|k: int|
                0 <= k < asked_for(c, files).len() && asked_for(c, files)[k] == q;
            assert(d.held(asked_for(c, files)[k]) is Some);
        }
    }
}

/// An import is asked of the resolver for what it is: one of types of the types resolver, from
/// its file; a value that an ES module imports by the rules of ES modules and one that is
/// required by the rules of CommonJS, from the directory of its file. No other rule is asked.
pub proof fn imports_are_asked_by_the_rules_of_their_kind(file: Seq<char>, s: SiteView)
    ensures
        site_request(file, s).specifier == s.specifier,
        site_request(file, s).flavor == CacheFlavor::Types <==> s.type_only,
        site_request(file, s).flavor == CacheFlavor::RuntimeCjs <==> !s.type_only && s.context
            == ModuleContext::Cjs,
        site_request(file, s).flavor == CacheFlavor::RuntimeEsm <==> !s.type_only && s.context
            == ModuleContext::Esm,
        s.type_only ==> site_request(file, s).base == path_key(file),
        !s.type_only && parent_of(file) is Some ==> site_request(file, s).base == path_key(
            parent_of(file)->0,
        ),
{
}

/// Every import of a value is in the graph as what the resolver answers by the rules of its
/// kind: a required one as the answer of CommonJS, any other as the answer of ES modules.
pub proof fn values_resolve_by_the_rules_of_their_kind(
    c: ResolveCache,
    guard: GuardView,
    root: Seq<char>,
    files: Seq<FileImportsView>,
    i: int,
    j: int,
    resolved: Seq<char>,
)
    requires
        with_files(c, guard, root, files, no_edges()) is Ok,
        0 <= i < files.len(),
        0 <= j < files[i].sites.len(),
        !files[i].sites[j].type_only,
        parent_of(files[i].file) is Some,
        c.held(
            RequestView {
                flavor: match files[i].sites[j].context {
                    ModuleContext::Esm => CacheFlavor::RuntimeEsm,
                    ModuleContext::Cjs => CacheFlavor::RuntimeCjs,
                },
                base: path_key(parent_of(files[i].file)->0),
                specifier: files[i].sites[j].specifier,
            },
        ) == Some(AnswerView::Resolved(resolved)),
    ensures
        with_files(c, guard, root, files, no_edges())->Ok_0.runtime.contains(
            EdgeView {
                file: slashed(relative(files[i].file, root)),
                specifier: files[i].sites[j].specifier,
                resolved,
            },
        ),
{
    every_import_is_noted(c, guard, root, files, no_edges(), i, j);
}

/// Every import of types is in the graph as what the resolver answers for types, seen from the
/// file itself.
pub proof fn types_resolve_by_their_own_rules(
    c: ResolveCache,
    guard: GuardView,
    root: Seq<char>,
    files: Seq<FileImportsView>,
    i: int,
    j: int,
    resolved: Seq<char>,
)
    requires
        with_files(c, guard, root, files, no_edges()) is Ok,
        0 <= i < files.len(),
        0 <= j < files[i].sites.len(),
        files[i].sites[j].type_only,
        c.held(
            RequestView {
                flavor: CacheFlavor::Types,
                base: path_key(files[i].file),
                specifier: files[i].sites[j].specifier,
            },
        ) == Some(AnswerView::Resolved(resolved)),
    ensures
        with_files(c, guard, root, files, no_edges())->Ok_0.types.contains(
            EdgeView {
                file: slashed(relative(files[i].file, root)),
                specifier: files[i].sites[j].specifier,
                resolved,
            },
        ),
{
    every_import_is_noted(c, guard, root, files, no_edges(), i, j);
}

proof fn lemma_asked_is_new(
    c: ResolveCache,
    file: Seq<char>,
    sites: Seq<SiteView>,
    asked: Seq<RequestView>,
)
    requires
        asked.no_duplicates(),
        forall|k: int| 0 <= k < asked.len() ==> c.held(#[trigger] asked[k]) is None,
    ensures
        asked_for_sites(c, file, sites, asked).no_duplicates(),
        forall|k: int|
            0 <= k < asked_for_sites(c, file, sites, asked).len() ==> c.held(
                #[trigger] asked_for_sites(c, file, sites, asked)[k],
            ) is None,
    decreases sites.len(),
{
    if sites.len() > 0 {
        lemma_asked_is_new(c, file, sites.drop_last(), asked);
    }
}

/// No question is asked twice, and none that has its answer.
pub proof fn pending_questions_are_new(c: ResolveCache, files: Seq<FileImportsView>)
    ensures
        asked_for(c, files).no_duplicates(),
        forall|k: int|
            0 <= k < asked_for(c, files).len() ==> c.held(#[trigger] asked_for(c, files)[k]) is None,
    decreases files.len(),
{
    if files.len() > 0 {
        pending_questions_are_new(c, files.drop_last());
        lemma_asked_is_new(
            c,
            files.last().file,
            files.last().sites,
            asked_for(c, files.drop_last()),
        );
    }
}

/// Reading the imports of some files succeeds just when each of them can be read and parsed, and
/// then gives one list of imports for each, in their order.
pub proof fn every_source_is_read(fs: FilesView, files: Seq<Seq<char>>)
    ensures
        imports_of_files(fs, files) is Ok <==> forall|i: int|
            0 <= i < files.len() ==> (text_at(fs, #[trigger] files[i]) matches Some(text)
                && file_findings(files[i], text) is Some),
        imports_of_files(fs, files) matches Ok(list) ==> list.len() == files.len() && forall|i: int|
            0 <= i < files.len() ==> (#[trigger] list[i]).file == files[i] && list[i].sites
                == sites_among(file_findings(files[i], text_at(fs, files[i])->0)->0)
                && list[i].dynamic == dynamic_among(
                file_findings(files[i], text_at(fs, files[i])->0)->0,
            ),
    decreases files.len(),
{
    if files.len() > 0 {
        let rest = files.drop_first();
        every_source_is_read(fs, rest);
        assert forall|i: int| 0 < i < files.len() implies files[i] == rest[i - 1] by {}
        if imports_of_files(fs, files) is Ok {
            let list = imports_of_files(fs, files)->Ok_0;
            let others = imports_of_files(fs, rest)->Ok_0;
            assert forall|i: int| 0 <= i < files.len() implies (text_at(
                fs,
                #[trigger] files[i],
            ) matches Some(text) && file_findings(files[i], text) is Some) by {
                if i > 0 {
                    assert(files[i] == rest[i - 1]);
                }
            }
            assert forall|i: int| 0 <= i < files.len() implies (#[trigger] list[i]).file == files[i]
                && list[i].sites == sites_among(
                file_findings(files[i], text_at(fs, files[i])->0)->0,
            ) && list[i].dynamic == dynamic_among(
                file_findings(files[i], text_at(fs, files[i])->0)->0,
            ) by {
                if i > 0 {
                    assert(list[i] == others[i - 1]);
                    assert(files[i] == rest[i - 1]);
                }
            }
        } else if text_at(fs, files[0]) is Some && file_findings(
            files[0],
            text_at(fs, files[0])->0,
        ) is Some {
            assert(imports_of_files(fs, rest) is Err);
            let k = choose|k: int|
                0 <= k < rest.len() && !(text_at(fs, #[trigger] rest[k]) matches Some(text)
                    && file_findings(rest[k], text) is Some);
            assert(files[k + 1] == rest[k]);
        }
    }
}

/// The imports that name no module by a text are counted over all files.
pub proof fn counts_of_files_add_up(
    a: Seq<FileImportsView>,
    f: FileImportsView,
    b: Seq<FileImportsView>,
)
    ensures
        dynamic_total(a.push(f) + b) == dynamic_total(a) + f.dynamic + dynamic_total(b),
    decreases b.len(),
{
    let all = a.push(f) + b;
    if b.len() == 0 {
        assert(all =~= a.push(f));
        assert(a.push(f).drop_last() =~= a);
    } else {
        counts_of_files_add_up(a, f, b.drop_last());
        assert(all.drop_last() =~= a.push(f) + b.drop_last());
    }
}

/// The imports of a package are those of its sources, each of them; without its directory there
/// are none to be read.
pub proof fn a_package_is_read_whole(fs: FilesView, root: Seq<char>, pkg: Seq<char>, i: int)
    requires
        0 <= i < package_sources(fs, root, pkg).len(),
    ensures
        package_imports(fs, root, pkg) matches Ok(list) ==> is_directory(fs, package_dir(root, pkg))
            && list.len() == package_sources(fs, root, pkg).len() && list[i].file
            == package_sources(fs, root, pkg)[i],
        !is_directory(fs, package_dir(root, pkg)) ==> package_imports(fs, root, pkg) == Err::<
            Seq<FileImportsView>,
            GraphFailure,
        >(GraphFailure::NoDirectory(package_dir(root, pkg))),
{
    every_source_is_read(fs, package_sources(fs, root, pkg));
}

proof fn lemma_asked_for_a_site(
    c: ResolveCache,
    file: Seq<char>,
    sites: Seq<SiteView>,
    asked: Seq<RequestView>,
    q: RequestView,
)
    requires
        asked_for_sites(c, file, sites, asked).contains(q),
    ensures
        asked.contains(q) || exists|j: int|
            0 <= j < sites.len() && q == site_request(file, #[trigger] sites[j]),
    decreases sites.len(),
{
    if sites.len() > 0 {
        let rest = sites.drop_last();
        let before = asked_for_sites(c, file, rest, asked);
        let all = asked_for_sites(c, file, sites, asked);
        let k = choose|k: int| 0 <= k < all.len() && all[k] == q;
        assert(sites[sites.len() - 1] == sites.last());
        if k < before.len() {
            assert(before[k] == q);
            assert(before.contains(q));
            lemma_asked_for_a_site(c, file, rest, asked, q);
            if !asked.contains(q) {
                let j = choose|j: int|
                    0 <= j < rest.len() && q == site_request(file, #[trigger] rest[j]);
                assert(sites[j] == rest[j]);
            }
        }
    }
}

/// Every question is that of an import.
pub proof fn questions_are_those_of_imports(
    c: ResolveCache,
    files: Seq<FileImportsView>,
    q: RequestView,
)
    requires
        asked_for(c, files).contains(q),
    ensures
        exists|i: int, j: int|
            0 <= i < files.len() && 0 <= j < files[i].sites.len() && q == site_request(
                files[i].file,
                #[trigger] files[i].sites[j],
            ),
    decreases files.len(),
{
    if files.len() > 0 {
        let rest = files.drop_last();
        let last = files.last();
        let n = files.len() - 1;
        lemma_asked_for_a_site(c, last.file, last.sites, asked_for(c, rest), q);
        if asked_for(c, rest).contains(q) {
            questions_are_those_of_imports(c, rest, q);
            let (i, j) = choose|i: int, j: int|
                0 <= i < rest.len() && 0 <= j < rest[i].sites.len() && q == site_request(
                    rest[i].file,
                    #[trigger] rest[i].sites[j],
                );
            assert(files[i] == rest[i]);
            assert(q == site_request(files[i].file, files[i].sites[j]));
        } else {
            let j = choose|j: int|
                0 <= j < last.sites.len() && q == site_request(last.file, #[trigger] last.sites[j]);
            assert(files[n] == last);
            assert(q == site_request(files[n].file, files[n].sites[j]));
        }
    }
}

/// Whether a note is that of an import of a file that the resolver found nothing for.
pub open spec fn notes_unresolved(
    c: ResolveCache,
    root: Seq<char>,
    f: FileImportsView,
    b: BareView,
) -> bool {
    b.file == slashed(relative(f.file, root)) && exists|j: int|
        0 <= j < f.sites.len() && (#[trigger] f.sites[j]).specifier == b.specifier && c.held(
            site_request(f.file, f.sites[j]),
        ) == Some(AnswerView::Unresolved)
}

proof fn lemma_unresolved_in_sites(
    c: ResolveCache,
    guard: GuardView,
    root: Seq<char>,
    f: FileImportsView,
    n: int,
    g: GraphView,
)
    requires
        0 <= n <= f.sites.len(),
        with_sites(
            c,
            guard,
            f.file,
            slashed(relative(f.file, root)),
            f.sites.skip(n),
            g,
        ) is Ok,
    ensures
        ({
            let h = with_sites(
                c,
                guard,
                f.file,
                slashed(relative(f.file, root)),
                f.sites.skip(n),
                g,
            )->Ok_0;
            forall|k: int|
                0 <= k < h.bare.len() ==> g.bare.contains(#[trigger] h.bare[k])
                    || notes_unresolved(c, root, f, h.bare[k])
        }),
    decreases f.sites.len() - n,
{
    let rel = slashed(relative(f.file, root));
    let sites = f.sites.skip(n);
    if n < f.sites.len() {
        assert(sites[0] == f.sites[n]);
        assert(sites.drop_first() =~= f.sites.skip(n + 1));
        let answer = c.held(site_request(f.file, sites[0]))->0;
        let next = with_site(g, guard, rel, sites[0], answer);
        lemma_unresolved_in_sites(c, guard, root, f, n + 1, next);
        let h = with_sites(c, guard, f.file, rel, sites, g)->Ok_0;
        assert forall|k: int| 0 <= k < h.bare.len() implies g.bare.contains(#[trigger] h.bare[k])
            || notes_unresolved(c, root, f, h.bare[k]) by {
            if next.bare.contains(h.bare[k]) {
                let m = choose|m: int| 0 <= m < next.bare.len() && next.bare[m] == h.bare[k];
                if m < g.bare.len() {
                    assert(g.bare[m] == next.bare[m]);
                } else {
                    assert(f.sites[n].specifier == h.bare[k].specifier);
                }
            }
        }
    }
}

/// Only imports that the resolver found nothing for are noted by the package that they name.
pub proof fn only_unresolved_imports_are_noted(
    c: ResolveCache,
    guard: GuardView,
    root: Seq<char>,
    files: Seq<FileImportsView>,
    g: GraphView,
    k: int,
)
    requires
        with_files(c, guard, root, files, g) is Ok,
        0 <= k < with_files(c, guard, root, files, g)->Ok_0.bare.len(),
    ensures
        ({
            let b = with_files(c, guard, root, files, g)->Ok_0.bare[k];
            g.bare.contains(b) || exists|i: int|
                0 <= i < files.len() && notes_unresolved(c, root, #[trigger] files[i], b)
        }),
    decreases files.len(),
{
    if files.len() > 0 {
        let rest = files.drop_first();
        let f = files[0];
        let rel = slashed(relative(f.file, root));
        assert(f.sites.skip(0) =~= f.sites);
        lemma_unresolved_in_sites(c, guard, root, f, 0, g);
        let h = with_sites(c, guard, f.file, rel, f.sites, g)->Ok_0;
        only_unresolved_imports_are_noted(c, guard, root, rest, h, k);
        let b = with_files(c, guard, root, files, g)->Ok_0.bare[k];
        if h.bare.contains(b) {
            let m = choose|m: int| 0 <= m < h.bare.len() && h.bare[m] == b;
            assert(g.bare.contains(h.bare[m]) || notes_unresolved(c, root, f, h.bare[m]));
        } else {
            let i = choose|i: int|
                0 <= i < rest.len() && notes_unresolved(c, root, #[trigger] rest[i], b);
            assert(files[i + 1] == rest[i]);
        }
    } else {
        assert(g.bare.contains(g.bare[k]));
    }
}

} // verus!
