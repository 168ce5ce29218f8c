//! The import graph of a package: every module that its source files name, with what a
//! resolver answered.
use crate::config_scan::{bare_views, BareSpecifierSite, BareView};
use crate::importparse::{
    dynamic_among, imports_among, site_views, sites_among, ImportSite, ModuleContext, ParseError,
};
use crate::path::{parent, parent_of, path_key, relative, relative_to, slashed, with_slashes};
use crate::resolve_cache::{
    AnswerView, CacheFlavor, RequestView, ResolveCache, ResolveOutcome, ResolveRequest,
};
use crate::source::{file_findings, read_source, source_failure, SiteView, SourceFailure};
use crate::sources::{
    package_dir, package_source_files, package_sources, MissingDirectory,
};
use crate::specifiers::{
    bare_package, bare_specifier_package_name, guard_allows, BareSpecifierGuard, GuardView,
};
use crate::text::texts;
use crate::tree::{is_directory, text_at, FileTree, FilesView};
use crate::tsconfig::{bare_specifier_guard, guard_at};
use vstd::prelude::*;

verus! {

/// An import that was resolved.
#[derive(Debug)]
pub struct ResolvedEdge {
    /// The file that holds the import, as it is seen from the workspace root.
    pub file: String,
    pub specifier: String,
    /// The canonical path of what it resolved to.
    pub resolved: String,
}

/// A resolved import as mathematical values.
pub struct EdgeView {
    pub file: Seq<char>,
    pub specifier: Seq<char>,
    pub resolved: Seq<char>,
}

impl View for ResolvedEdge {
    type V = EdgeView;

    open spec fn view(&self) -> EdgeView {
        EdgeView { file: self.file@, specifier: self.specifier@, resolved: self.resolved@ }
    }
}

/// Edges as mathematical values.
pub open spec fn edge_views(v: Seq<ResolvedEdge>) -> Seq<EdgeView> {
    v.map_values(|e: ResolvedEdge| e@)
}

/// The imports of a package, those of values and those of types apart.
#[derive(Debug)]
pub struct ImportGraph {
    pub runtime_edges: Vec<ResolvedEdge>,
    pub type_edges: Vec<ResolvedEdge>,
    /// How many dynamic imports name no module.
    pub unresolved_dynamic_imports: usize,
    /// Bare specifiers that did not resolve but name a package by their own text.
    pub unresolved_bare_specifiers: Vec<BareSpecifierSite>,
}

/// An import graph as mathematical values.
pub struct GraphView {
    pub runtime: Seq<EdgeView>,
    pub types: Seq<EdgeView>,
    pub bare: Seq<BareView>,
}

impl ImportGraph {
    /// The edges and the bare specifiers.
    pub open spec fn graph(&self) -> GraphView {
        GraphView {
            runtime: edge_views(self.runtime_edges@),
            types: edge_views(self.type_edges@),
            bare: bare_views(self.unresolved_bare_specifiers@),
        }
    }

    /// A graph without edges.
    pub fn new() -> (r: ImportGraph)
        ensures
            r.graph() == no_edges(),
            r.unresolved_dynamic_imports == 0,
    {
        let r = ImportGraph {
            runtime_edges: Vec::new(),
            type_edges: Vec::new(),
            unresolved_dynamic_imports: 0,
            unresolved_bare_specifiers: Vec::new(),
        };
        proof {
            assert(r.graph().runtime =~= Seq::<EdgeView>::empty());
            assert(r.graph().types =~= Seq::<EdgeView>::empty());
            assert(r.graph().bare =~= Seq::<BareView>::empty());
        }
        r
    }
}

/// The graph without edges.
pub open spec fn no_edges() -> GraphView {
    GraphView { runtime: Seq::empty(), types: Seq::empty(), bare: Seq::empty() }
}

/// What one source file names.
#[derive(Debug)]
pub struct FileImports {
    pub file: String,
    pub sites: Vec<ImportSite>,
    pub dynamic: usize,
}

/// What one source file names, as mathematical values.
pub struct FileImportsView {
    pub file: Seq<char>,
    pub sites: Seq<SiteView>,
    pub dynamic: nat,
}

impl View for FileImports {
    type V = FileImportsView;

    open spec fn view(&self) -> FileImportsView {
        FileImportsView {
            file: self.file@,
            sites: site_views(self.sites@),
            dynamic: self.dynamic as nat,
        }
    }
}

/// What source files name, as mathematical values.
pub open spec fn file_views(v: Seq<FileImports>) -> Seq<FileImportsView> {
    v.map_values(|f: FileImports| f@)
}

/// Why there is no import graph.
#[derive(Debug)]
pub enum GraphError {
    /// The package's directory is not there.
    NoDirectory(MissingDirectory),
    /// A source file cannot be read.
    Unreadable { file: String },
    /// A source file cannot be parsed.
    Unparsed(ParseError),
    /// The resolver has not been asked.
    NotResolved(ResolveRequest),
}

/// Why there is no import graph, as mathematical values.
pub enum GraphFailure {
    NoDirectory(Seq<char>),
    Unreadable(Seq<char>),
    Unparsed(Seq<char>, SourceFailure),
    NotResolved(RequestView),
}

impl View for GraphError {
    type V = GraphFailure;

    open spec fn view(&self) -> GraphFailure {
        match self {
            GraphError::NoDirectory(e) => GraphFailure::NoDirectory(e.dir@),
            GraphError::Unreadable { file } => GraphFailure::Unreadable(file@),
            GraphError::Unparsed(e) => GraphFailure::Unparsed(e.file@, e.cause@),
            GraphError::NotResolved(r) => GraphFailure::NotResolved(r@),
        }
    }
}

impl GraphError {
    /// What the error says.
    pub open spec fn text(&self) -> Seq<char> {
        match self {
            GraphError::NoDirectory(e) => e.text(),
            GraphError::Unreadable { file } => "reading "@ + file@,
            GraphError::Unparsed(e) => "parsing imports in "@ + e.file@ + ": "@ + e.text(),
            GraphError::NotResolved(r) => "not resolved yet: "@ + r.specifier@ + " from "@
                + r.base@,
        }
    }

    /// What the error says.
    pub fn message(&self) -> (r: String)
        ensures
            r@ == self.text(),
    {
        match self {
            GraphError::NoDirectory(e) => e.message(),
            GraphError::Unreadable { file } => {
                let mut out = "reading ".to_owned();
                out.append(file.as_str());
                out
            },
            GraphError::Unparsed(e) => {
                let mut out = "parsing imports in ".to_owned();
                out.append(e.file.as_str());
                out.append(": ");
                out.append(e.message().as_str());
                out
            },
            GraphError::NotResolved(r) => {
                let mut out = "not resolved yet: ".to_owned();
                out.append(r.specifier.as_str());
                out.append(" from ");
                out.append(r.base.as_str());
                out
            },
        }
    }
}

/// What some source files name, or why it cannot be told of the first of them.
pub open spec fn imports_of_files(fs: FilesView, files: Seq<Seq<char>>) -> Result<
    Seq<FileImportsView>,
    GraphFailure,
>
    decreases files.len(),
{
    if files.len() == 0 {
        Ok(Seq::empty())
    } else {
        let file = files[0];
        match text_at(fs, file) {
            None => Err(GraphFailure::Unreadable(file)),
            Some(text) => match file_findings(file, text) {
                None => Err(GraphFailure::Unparsed(file, source_failure(file, text))),
                Some(list) => match imports_of_files(fs, files.drop_first()) {
                    Err(e) => Err(e),
                    Ok(rest) => Ok(
                        seq![
                            FileImportsView {
                                file,
                                sites: sites_among(list),
                                dynamic: dynamic_among(list),
                            },
                        ] + rest,
                    ),
                },
            },
        }
    }
}

/// What the source files of the package `pkg` name.
pub open spec fn package_imports(fs: FilesView, root: Seq<char>, pkg: Seq<char>) -> Result<
    Seq<FileImportsView>,
    GraphFailure,
> {
    if is_directory(fs, package_dir(root, pkg)) {
        imports_of_files(fs, package_sources(fs, root, pkg))
    } else {
        Err(GraphFailure::NoDirectory(package_dir(root, pkg)))
    }
}

fn read_imports_of_file(files: &FileTree, file: &str) -> (r: Result<FileImports, GraphError>)
    ensures
        match r {
            Ok(f) => f@.file == file@ && match text_at(files@, file@) {
                Some(text) => match file_findings(file@, text) {
                    Some(list) => f@.sites == sites_among(list) && f@.dynamic == dynamic_among(
                        list,
                    ),
                    None => false,
                },
                None => false,
            },
            Err(e) => match text_at(files@, file@) {
                None => e@ == GraphFailure::Unreadable(file@),
                Some(text) => file_findings(file@, text) is None && e@ == GraphFailure::Unparsed(
                    file@,
                    source_failure(file@, text),
                ),
            },
        },
{
    let text = match files.read(file) {
        Some(text) => text,
        None => {
            return Err(GraphError::Unreadable { file: file.to_owned() });
        },
    };
    match read_source(file, text.as_str()) {
        Err(cause) => Err(GraphError::Unparsed(ParseError { file: file.to_owned(), cause })),
        Ok(list) => {
            let imports = imports_among(list);
            Ok(
                FileImports {
                    file: file.to_owned(),
                    sites: imports.sites,
                    dynamic: imports.unresolved_dynamic_imports,
                },
            )
        },
    }
}

/// Reads what the source files of the package `pkg` name.
pub fn read_package_imports(files: &FileTree, workspace_root: &str, pkg: &str) -> (r: Result<
    Vec<FileImports>,
    GraphError,
>)
    ensures
        match r {
            Ok(list) => package_imports(files@, workspace_root@, pkg@) == Ok::<
                Seq<FileImportsView>,
                GraphFailure,
            >(file_views(list@)),
            Err(e) => package_imports(files@, workspace_root@, pkg@) == Err::<
                Seq<FileImportsView>,
                GraphFailure,
            >(e@),
        },
{
    let list = match package_source_files(files, workspace_root, pkg) {
        Ok(list) => list,
        Err(e) => {
            return Err(GraphError::NoDirectory(e));
        },
    };
    let ghost all = texts(list@);
    let ghost whole = imports_of_files(files@, all);
    let mut out: Vec<FileImports> = Vec::new();
    let mut i: usize = 0;
    proof {
        assert(all.skip(0) =~= all);
        match whole {
            Ok(s) => {
                assert(file_views(out@) + s =~= s);
            },
            Err(_) => {},
        }
    }
    while i < list.len()
        invariant
            i <= list.len(),
            all == texts(list@),
            whole == imports_of_files(files@, all),
            match imports_of_files(files@, all.skip(i as int)) {
                Ok(rest) => whole == Ok::<Seq<FileImportsView>, GraphFailure>(
                    file_views(out@) + rest,
                ),
                Err(e) => whole == Err::<Seq<FileImportsView>, GraphFailure>(e),
            },
            whole == package_imports(files@, workspace_root@, pkg@),
        decreases list.len() - i,
    {
        proof {
            assert(all.skip(i as int)[0] == list@[i as int]@);
            assert(all.skip(i as int).drop_first() =~= all.skip(i + 1));
        }
        let ghost so_far = file_views(out@);
        match read_imports_of_file(files, list[i].as_str()) {
            Err(e) => {
                return Err(e);
            },
            Ok(f) => {
                let ghost x = f@;
                out.push(f);
                proof {
                    assert(file_views(out@) =~= so_far.push(x));
                    match imports_of_files(files@, all.skip(i + 1)) {
                        Ok(rest) => {
                            assert(so_far.push(x) + rest =~= so_far + (seq![x] + rest));
                        },
                        Err(_) => {},
                    }
                }
            },
        }
        i = i + 1;
    }
    proof {
        assert(all.skip(i as int).len() == 0);
        assert(file_views(out@) + Seq::<FileImportsView>::empty() =~= file_views(out@));
    }
    Ok(out)
}

/// The directory of a source file.
pub open spec fn file_dir(file: Seq<char>) -> Seq<char> {
    match parent_of(file) {
        Some(d) => d,
        None => file,
    }
}

/// The question to ask the resolver for a site: an import of types is seen from its file, any
/// other from the file's directory by the rules of its kind.
pub open spec fn site_request(file: Seq<char>, s: SiteView) -> RequestView {
    if s.type_only {
        RequestView { flavor: CacheFlavor::Types, base: path_key(file), specifier: s.specifier }
    } else {
        RequestView {
            flavor: if s.context == ModuleContext::Esm {
                CacheFlavor::RuntimeEsm
            } else {
                CacheFlavor::RuntimeCjs
            },
            base: path_key(file_dir(file)),
            specifier: s.specifier,
        }
    }
}

fn request_of(file: &str, s: &ImportSite) -> (r: ResolveRequest)
    ensures
        r@ == site_request(file@, s@),
{
    if s.type_only {
        return ResolveRequest {
            flavor: CacheFlavor::Types,
            base: file.to_owned(),
            specifier: s.specifier.clone(),
        };
    }
    let base = match parent(file) {
        Some(d) => d,
        None => file.to_owned(),
    };
    let flavor = match s.context {
        ModuleContext::Esm => CacheFlavor::RuntimeEsm,
        ModuleContext::Cjs => CacheFlavor::RuntimeCjs,
    };
    ResolveRequest { flavor, base, specifier: s.specifier.clone() }
}

/// A graph with one more site, given what the resolver answered. One that is not resolved is
/// noted when it names a package that no alias can stand for.
pub open spec fn with_site(
    g: GraphView,
    guard: GuardView,
    file_rel: Seq<char>,
    s: SiteView,
    answer: AnswerView,
) -> GraphView {
    match answer {
        AnswerView::Resolved(resolved) => {
            let edge = EdgeView { file: file_rel, specifier: s.specifier, resolved };
            if s.type_only {
                GraphView { types: g.types.push(edge), ..g }
            } else {
                GraphView { runtime: g.runtime.push(edge), ..g }
            }
        },
        AnswerView::Builtin => g,
        AnswerView::Unresolved => if guard_allows(guard, s.specifier) {
            match bare_package(s.specifier) {
                Some(package_name) => GraphView {
                    bare: g.bare.push(
                        BareView { file: file_rel, specifier: s.specifier, package_name },
                    ),
                    ..g
                },
                None => g,
            }
        } else {
            g
        },
    }
}

/// A graph with the sites of one file, or the first question that was not answered.
pub open spec fn with_sites(
    c: ResolveCache,
    guard: GuardView,
    file: Seq<char>,
    file_rel: Seq<char>,
    sites: Seq<SiteView>,
    g: GraphView,
) -> Result<GraphView, RequestView>
    decreases sites.len(),
{
    if sites.len() == 0 {
        Ok(g)
    } else {
        match c.held(site_request(file, sites[0])) {
            None => Err(site_request(file, sites[0])),
            Some(answer) => with_sites(
                c,
                guard,
                file,
                file_rel,
                sites.drop_first(),
                with_site(g, guard, file_rel, sites[0], answer),
            ),
        }
    }
}

/// A file as it is seen from the workspace root.
pub open spec fn seen_from(root: Seq<char>, file: Seq<char>) -> Seq<char> {
    slashed(relative(file, root))
}

/// A graph with the sites of some files, or the first question that was not answered.
pub open spec fn with_files(
    c: ResolveCache,
    guard: GuardView,
    root: Seq<char>,
    files: Seq<FileImportsView>,
    g: GraphView,
) -> Result<GraphView, RequestView>
    decreases files.len(),
{
    if files.len() == 0 {
        Ok(g)
    } else {
        match with_sites(
            c,
            guard,
            files[0].file,
            seen_from(root, files[0].file),
            files[0].sites,
            g,
        ) {
            Err(r) => Err(r),
            Ok(h) => with_files(c, guard, root, files.drop_first(), h),
        }
    }
}

/// How many dynamic imports some files hold.
pub open spec fn dynamic_total(files: Seq<FileImportsView>) -> nat
    decreases files.len(),
{
    if files.len() == 0 {
        0
    } else {
        dynamic_total(files.drop_last()) + files.last().dynamic
    }
}

/// A count as far as it fits a machine word.
pub open spec fn fitted(n: nat) -> nat {
    if n <= usize::MAX {
        n
    } else {
        usize::MAX as nat
    }
}

/// Notes a specifier that names a package by its own text, unless the guard rules it out.
pub fn push_if_bare(
    out: &mut Vec<BareSpecifierSite>,
    guard: &BareSpecifierGuard,
    file_rel: &str,
    specifier: &str,
)
    ensures
        bare_views(final(out)@) == (if guard_allows(guard@, specifier@) && bare_package(
            specifier@,
        ) is Some {
            bare_views(old(out)@).push(
                BareView {
                    file: file_rel@,
                    specifier: specifier@,
                    package_name: bare_package(specifier@)->0,
                },
            )
        } else {
            bare_views(old(out)@)
        }),
{
    if !guard.allows(specifier) {
        return;
    }
    match bare_specifier_package_name(specifier) {
        Some(package_name) => {
            let ghost so_far = bare_views(out@);
            let site = BareSpecifierSite {
                file: file_rel.to_owned(),
                specifier: specifier.to_owned(),
                package_name,
            };
            let ghost x = site@;
            out.push(site);
            assert(bare_views(out@) =~= so_far.push(x));
        },
        None => {},
    }
}

fn push_site(
    g: &mut ImportGraph,
    guard: &BareSpecifierGuard,
    file_rel: &str,
    s: &ImportSite,
    answer: &ResolveOutcome,
)
    ensures
        final(g).graph() == with_site(old(g).graph(), guard@, file_rel@, s@, answer@),
        final(g).unresolved_dynamic_imports == old(g).unresolved_dynamic_imports,
{
    let ghost was = g.graph();
    match answer {
        ResolveOutcome::Resolved(p) => {
            let edge = ResolvedEdge {
                file: file_rel.to_owned(),
                specifier: s.specifier.clone(),
                resolved: p.clone(),
            };
            let ghost x = edge@;
            if s.type_only {
                g.type_edges.push(edge);
                assert(edge_views(g.type_edges@) =~= was.types.push(x));
            } else {
                g.runtime_edges.push(edge);
                assert(edge_views(g.runtime_edges@) =~= was.runtime.push(x));
            }
        },
        ResolveOutcome::Builtin => {},
        ResolveOutcome::Unresolved => {
            push_if_bare(
                &mut g.unresolved_bare_specifiers,
                guard,
                file_rel,
                s.specifier.as_str(),
            );
        },
    }
}

/// Puts the import graph of a package together from what its files name and what the resolver
/// answered; gives the first question that was not answered instead.
pub fn assemble_graph(
    list: &Vec<FileImports>,
    cache: &ResolveCache,
    guard: &BareSpecifierGuard,
    workspace_root: &str,
) -> (r: Result<ImportGraph, ResolveRequest>)
    ensures
        match r {
            Ok(g) => with_files(
                *cache,
                guard@,
                workspace_root@,
                file_views(list@),
                no_edges(),
            ) == Ok::<GraphView, RequestView>(g.graph()) && g.unresolved_dynamic_imports
                == fitted(dynamic_total(file_views(list@))),
            Err(q) => with_files(
                *cache,
                guard@,
                workspace_root@,
                file_views(list@),
                no_edges(),
            ) == Err::<GraphView, RequestView>(q@),
        },
{
    let ghost all = file_views(list@);
    let ghost whole = with_files(*cache, guard@, workspace_root@, all, no_edges());
    let mut g = ImportGraph::new();
    let mut i: usize = 0;
    proof {
        assert(all.skip(0) =~= all);
        assert(all.take(0).len() == 0);
    }
    while i < list.len()
        invariant
            i <= list.len(),
            all == file_views(list@),
            whole == with_files(*cache, guard@, workspace_root@, all, no_edges()),
            with_files(*cache, guard@, workspace_root@, all.skip(i as int), g.graph()) == whole,
            g.unresolved_dynamic_imports == fitted(dynamic_total(all.take(i as int))),
        decreases list.len() - i,
    {
        let f = &list[i];
        proof {
            assert(all.skip(i as int)[0] == f@);
            assert(all.skip(i as int).drop_first() =~= all.skip(i + 1));
            assert(all.take(i + 1).drop_last() =~= all.take(i as int));
        }
        let file = f.file.as_str();
        let file_rel = with_slashes(relative_to(file, workspace_root).as_str());
        let ghost sites = site_views(f.sites@);
        let ghost start = g.graph();
        let ghost count = g.unresolved_dynamic_imports;
        let mut j: usize = 0;
        assert(sites.skip(0) =~= sites);
        while j < f.sites.len()
            invariant
                j <= f.sites.len(),
                sites == site_views(f.sites@),
                file@ == f@.file,
                f == list@[i as int],
                i < list@.len(),
                all == file_views(list@),
                file_rel@ == seen_from(workspace_root@, file@),
                whole == with_files(*cache, guard@, workspace_root@, all, no_edges()),
                with_files(*cache, guard@, workspace_root@, all.skip(i as int), start) == whole,
                with_sites(*cache, guard@, file@, file_rel@, sites.skip(j as int), g.graph())
                    == with_sites(*cache, guard@, file@, file_rel@, sites, start),
                g.unresolved_dynamic_imports == count,
            decreases f.sites.len() - j,
        {
            let s = &f.sites[j];
            proof {
                assert(sites.skip(j as int)[0] == s@);
                assert(sites.skip(j as int).drop_first() =~= sites.skip(j + 1));
            }
            let q = request_of(file, s);
            match cache.get(q.flavor, q.base.as_str(), q.specifier.as_str()) {
                None => {
                    proof {
                        assert(all.skip(i as int)[0] == f@);
                    }
                    return Err(q);
                },
                Some(answer) => {
                    push_site(&mut g, guard, file_rel.as_str(), s, answer);
                },
            }
            j = j + 1;
        }
        assert(sites.skip(j as int).len() == 0);
        if f.dynamic <= usize::MAX - g.unresolved_dynamic_imports {
            g.unresolved_dynamic_imports = g.unresolved_dynamic_imports + f.dynamic;
        } else {
            g.unresolved_dynamic_imports = usize::MAX;
        }
        i = i + 1;
    }
    proof {
        assert(all.skip(i as int).len() == 0);
        assert(all.take(i as int) =~= all);
    }
    Ok(g)
}

/// Builds the import graph of the package `pkg` from the answers in `cache`. An unresolved
/// specifier is noted when it names a package and the package's tsconfig leaves no doubt.
pub fn build_package_import_graph(
    files: &FileTree,
    workspace_root: &str,
    pkg: &str,
    cache: &ResolveCache,
    tsconfig: Option<&str>,
) -> (r: Result<ImportGraph, GraphError>)
    ensures
        ({
            let guard = guard_at(
                files@,
                match tsconfig {
                    Some(p) => Some(p@),
                    None => None,
                },
            );
            match package_imports(files@, workspace_root@, pkg@) {
                Err(failure) => r matches Err(e) && e@ == failure,
                Ok(list) => match with_files(*cache, guard, workspace_root@, list, no_edges()) {
                    Ok(view) => r matches Ok(g) && g.graph() == view
                        && g.unresolved_dynamic_imports == fitted(dynamic_total(list)),
                    Err(q) => r matches Err(e) && e@ == GraphFailure::NotResolved(q),
                },
            }
        }),
{
    let list = match read_package_imports(files, workspace_root, pkg) {
        Ok(list) => list,
        Err(e) => {
            return Err(e);
        },
    };
    let guard = bare_specifier_guard(files, tsconfig);
    match assemble_graph(&list, cache, &guard, workspace_root) {
        Ok(g) => Ok(g),
        Err(q) => Err(GraphError::NotResolved(q)),
    }
}

/// The questions of one file that were not answered and not asked yet, after `asked`.
pub open spec fn asked_for_sites(
    c: ResolveCache,
    file: Seq<char>,
    sites: Seq<SiteView>,
    asked: Seq<RequestView>,
) -> Seq<RequestView>
    decreases sites.len(),
{
    if sites.len() == 0 {
        asked
    } else {
        let so_far = asked_for_sites(c, file, sites.drop_last(), asked);
        let q = site_request(file, sites.last());
        if c.held(q) is None && !so_far.contains(q) {
            so_far.push(q)
        } else {
            so_far
        }
    }
}

/// The questions of some files that were not answered, each once.
pub open spec fn asked_for(c: ResolveCache, files: Seq<FileImportsView>) -> Seq<RequestView>
    decreases files.len(),
{
    if files.len() == 0 {
        Seq::empty()
    } else {
        asked_for_sites(
            c,
            files.last().file,
            files.last().sites,
            asked_for(c, files.drop_last()),
        )
    }
}

/// Questions as mathematical values.
pub open spec fn request_views(v: Seq<ResolveRequest>) -> Seq<RequestView> {
    v.map_values(|r: ResolveRequest| r@)
}

fn is_asked(list: &Vec<ResolveRequest>, q: &ResolveRequest) -> (r: bool)
    ensures
        r == request_views(list@).contains(q@),
{
    let ghost all = request_views(list@);
    let base = crate::path::key_of_path(q.base.as_str());
    let mut i: usize = 0;
    while i < list.len()
        invariant
            i <= list.len(),
            all == request_views(list@),
            base@ == path_key(q.base@),
            forall|k: int| 0 <= k < i ==> all[k] != q@,
        decreases list.len() - i,
    {
        let x = &list[i];
        assert(all[i as int] == x@);
        if x.flavor == q.flavor && crate::text::same(x.specifier.as_str(), q.specifier.as_str())
            && crate::text::same(
            crate::path::key_of_path(x.base.as_str()).as_str(),
            base.as_str(),
        ) {
            assert(all[i as int] == q@);
            return true;
        }
        i = i + 1;
    }
    false
}

/// The questions that the resolver has still to be asked for the import graph of what some
/// files name: each once, in the order of the imports.
pub fn pending_requests(list: &Vec<FileImports>, cache: &ResolveCache) -> (r: Vec<ResolveRequest>)
    ensures
        request_views(r@) == asked_for(*cache, file_views(list@)),
{
    let ghost all = file_views(list@);
    let mut out: Vec<ResolveRequest> = Vec::new();
    let mut i: usize = 0;
    assert(request_views(out@) =~= asked_for(*cache, all.take(0)));
    while i < list.len()
        invariant
            i <= list.len(),
            all == file_views(list@),
            request_views(out@) == asked_for(*cache, all.take(i as int)),
        decreases list.len() - i,
    {
        let f = &list[i];
        let ghost sites = site_views(f.sites@);
        let ghost start = request_views(out@);
        proof {
            assert(all.take(i + 1).drop_last() =~= all.take(i as int));
            assert(all.take(i + 1).last() == f@);
            assert(sites.take(0).len() == 0);
        }
        let mut j: usize = 0;
        while j < f.sites.len()
            invariant
                j <= f.sites.len(),
                sites == site_views(f.sites@),
                request_views(out@) == asked_for_sites(
                    *cache,
                    f.file@,
                    sites.take(j as int),
                    start,
                ),
            decreases f.sites.len() - j,
        {
            let s = &f.sites[j];
            let ghost so_far = request_views(out@);
            proof {
                assert(sites.take(j + 1).drop_last() =~= sites.take(j as int));
                assert(sites.take(j + 1).last() == s@);
            }
            let q = request_of(f.file.as_str(), s);
            let answered = cache.get(q.flavor, q.base.as_str(), q.specifier.as_str()).is_some();
            if !answered && !is_asked(&out, &q) {
                let ghost x = q@;
                out.push(q);
                assert(request_views(out@) =~= so_far.push(x));
            }
            j = j + 1;
        }
        assert(sites.take(j as int) =~= sites);
        i = i + 1;
    }
    assert(all.take(i as int) =~= all);
    out
}

} // verus!
