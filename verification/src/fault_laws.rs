//! Which fault is told, where there is one.
use crate::config_scan::BareView;
use crate::deps::{dep_outcome, known_resolution, DepFailure, WireContext};
use crate::driver::{path_escapes, DriverFailure};
use crate::driver_bundle::{bundle_escape, bundle_failure, bundle_fields, BundleView};
use crate::driver_install::{install_failure, install_fields};
use crate::driver_laws::kind_or_none;
use crate::driver_test::{test_failure, test_fields, test_refusal, TestView};
use crate::graph::{key_of, merged, PackageView};
use crate::graph_laws::compatible;
use crate::importgraph::{imports_of_files, EdgeView, GraphFailure, GraphView};
use crate::lockfile::{resolution_too_deep, ResolutionView};
use crate::path::{slashed, under};
use crate::phantom::{
    edge_verdict, first_party_owner, first_phantom, first_wrong_edge, first_wrong_site,
    third_party, PhantomView,
};
use crate::placement_laws::finite_sets_are_listed;
use crate::platform::applies_to;
use crate::sorted::{lemma_increasing_distinct, listing};
use crate::source::file_findings;
use crate::target::{first_failure, Config, ConfigFailure, ConfigView, FieldView};
use crate::tree::{text_at, FilesView};
use crate::workspace::package_name_at;
use vstd::prelude::*;

verus! {

/// Whether a field is there where it is required, and of its kind where it is there.
pub open spec fn in_order_field(c: Config, f: FieldView) -> bool {
    kind_or_none(c, f.key, f.kind) && (f.required ==> c.dom().contains(f.key))
}

/// The fault of a configuration is told of the first field that is not in order: that it is
/// missing, or that it is of another kind.
pub proof fn the_first_faulty_field_is_told(c: Config, fields: Seq<FieldView>) -> (i: int)
    requires
        first_failure(c, fields) is Some,
    ensures
        0 <= i < fields.len(),
        !in_order_field(c, fields[i]),
        forall|j: int| 0 <= j < i ==> in_order_field(c, #[trigger] fields[j]),
        first_failure(c, fields) == Some(
            if c.dom().contains(fields[i].key) {
                ConfigFailure::WrongKind(fields[i].key)
            } else {
                ConfigFailure::Missing(fields[i].key)
            },
        ),
    decreases fields.len(),
{
    let f = fields[0];
    if in_order_field(c, f) {
        let rest = fields.drop_first();
        let i = the_first_faulty_field_is_told(c, rest);
        assert forall|j: int| 0 <= j < i + 1 implies in_order_field(c, #[trigger] fields[j]) by {
            if j > 0 {
                assert(fields[j] == rest[j - 1]);
            }
        }
        i + 1
    } else {
        0
    }
}

/// The path of a bundle target that is told to escape is one of its paths that does, under the
/// name of its field.
pub proof fn an_escaping_path_of_a_bundle_is_told(d: BundleView)
    ensures
        match bundle_escape(d) {
            None => true,
            Some(DriverFailure::PathEscape(field, path)) => path_escapes(path) && {
                ||| field == "entry_file"@ && path == d.entry_file
                ||| field == "outdir"@ && path == d.outdir
                ||| field == "tsconfig_path"@ && path == d.tsconfig_path
            },
            Some(_) => false,
        },
{
}

/// A test target is refused for one of its paths that escapes, or else for its runner.
pub proof fn a_refused_test_is_told_why(d: TestView)
    ensures
        match test_refusal(d) {
            None => true,
            Some(DriverFailure::PathEscape(field, path)) => path_escapes(path) && {
                ||| field == "test_file"@ && path == d.test_file
                ||| field == "runner_config_path"@ && path == d.runner_config_path
            },
            Some(DriverFailure::Unsupported(u)) => u.field == "testrunner"@ && u.value
                == d.testrunner && d.testrunner != "vitest"@ && d.testrunner != "jest"@,
            Some(_) => false,
        },
{
}

/// A value that is not supported is told with its field and its target, once all fields are in
/// order.
pub proof fn an_unsupported_value_is_told(c: Config, addr: Seq<char>, s: Seq<char>)
    ensures
        match test_failure(c, addr) {
            None => true,
            Some(DriverFailure::Config(driver, f)) => driver == "js_test"@ && first_failure(
                c,
                test_fields(),
            ) == Some(f),
            Some(DriverFailure::Unsupported(u)) => u.driver == "js_test"@ && u.addr == addr
                && u.field == "testrunner"@ && (c["testrunner"@] == ConfigView::Text(s)
                && c.dom().contains("testrunner"@) ==> u.value == s),
            Some(_) => false,
        },
        match bundle_failure(c, addr) {
            None => true,
            Some(DriverFailure::Config(driver, f)) => driver == "js_bundle"@ && first_failure(
                c,
                bundle_fields(),
            ) == Some(f),
            Some(DriverFailure::Unsupported(u)) => u.driver == "js_bundle"@ && u.addr == addr && {
                ||| u.field == "format"@ && (c["format"@] == ConfigView::Text(s)
                    && c.dom().contains("format"@) ==> u.value == s && s != "esm"@ && s != "cjs"@)
                ||| u.field == "target"@ && (c["target"@] == ConfigView::Text(s)
                    && c.dom().contains("target"@) ==> u.value == s && s != "node"@ && s
                    != "browser"@)
            },
            Some(_) => false,
        },
{
}

/// A package whose scripts are not allowed is told by its name and version.
pub proof fn a_package_with_forbidden_scripts_is_told(
    c: Config,
    name: Seq<char>,
    version: Seq<char>,
)
    ensures
        match install_failure(c) {
            None => true,
            Some(DriverFailure::Config(driver, f)) => driver == "js_install"@ && first_failure(
                c,
                install_fields(),
            ) == Some(f),
            Some(DriverFailure::ScriptsNotAllowed(n, v)) => (c.dom().contains("name"@)
                && c["name"@] == ConfigView::Text(name) ==> n == name) && (c.dom().contains(
                "version"@,
            ) && c["version"@] == ConfigView::Text(version) ==> v == version),
            Some(_) => false,
        },
{
}

/// What is told of an import that is not in order is so: the installed package that it leads to
/// and that is not declared, the member of the workspace, a member without a name, or that it
/// leads to neither.
pub proof fn a_wrong_import_is_told_for_what_it_is(
    fs: FilesView,
    root: Seq<char>,
    pkg: Seq<char>,
    edge: EdgeView,
    declared: Set<Seq<char>>,
)
    ensures
        match edge_verdict(fs, root, pkg, edge, declared) {
            None => true,
            Some(PhantomView::ThirdParty(e, name)) => e == edge && third_party(edge.resolved)
                == Some(name) && !declared.contains(name),
            Some(PhantomView::Workspace(e, owner, name)) => e == edge && third_party(
                edge.resolved,
            ) is None && !declared.contains(name) && owner != pkg && (first_party_owner(
                fs,
                root,
                edge.resolved,
            ) matches Some(dir) && owner == slashed(dir) && package_name_at(
                fs,
                under(under(root, dir), "package.json"@),
            ) == Some(name)),
            Some(PhantomView::UnnamedOwner(e, owner)) => e == edge && third_party(
                edge.resolved,
            ) is None && owner != pkg && (first_party_owner(fs, root, edge.resolved) matches Some(
                dir,
            ) && owner == slashed(dir) && package_name_at(
                fs,
                under(under(root, dir), "package.json"@),
            ) is None),
            Some(PhantomView::Unclassified(e)) => e == edge && third_party(edge.resolved) is None
                && first_party_owner(fs, root, edge.resolved) is None,
            Some(PhantomView::BareSpecifier(_)) => false,
        },
{
}

proof fn lemma_wrong_edge(
    fs: FilesView,
    root: Seq<char>,
    pkg: Seq<char>,
    edges: Seq<EdgeView>,
    declared: Set<Seq<char>>,
)
    ensures
        first_wrong_edge(fs, root, pkg, edges, declared) matches Some(v) ==> exists|i: int|
            0 <= i < edges.len() && edge_verdict(fs, root, pkg, #[trigger] edges[i], declared)
                == Some(v),
    decreases edges.len(),
{
    if edges.len() > 0 {
        let rest = edges.drop_first();
        lemma_wrong_edge(fs, root, pkg, rest, declared);
        if edge_verdict(fs, root, pkg, edges[0], declared) is None {
            if let Some(v) = first_wrong_edge(fs, root, pkg, rest, declared) {
                let i = choose|i: int|
                    0 <= i < rest.len() && edge_verdict(fs, root, pkg, #[trigger] rest[i], declared)
                        == Some(v);
                assert(edges[i + 1] == rest[i]);
            }
        }
    }
}

proof fn lemma_wrong_site(sites: Seq<BareView>, declared: Set<Seq<char>>)
    ensures
        first_wrong_site(sites, declared) matches Some(v) ==> exists|i: int|
            0 <= i < sites.len() && v == PhantomView::BareSpecifier(#[trigger] sites[i])
                && !declared.contains(sites[i].package_name),
    decreases sites.len(),
{
    if sites.len() > 0 {
        let rest = sites.drop_first();
        lemma_wrong_site(rest, declared);
        if declared.contains(sites[0].package_name) {
            if let Some(v) = first_wrong_site(rest, declared) {
                let i = choose|i: int|
                    0 <= i < rest.len() && v == PhantomView::BareSpecifier(#[trigger] rest[i])
                        && !declared.contains(rest[i].package_name);
                assert(sites[i + 1] == rest[i]);
            }
        }
    }
}

/// What is told of a package is told of one of its imports: of a value, of a type, or of one that
/// names a package that is not declared.
pub proof fn a_wrong_package_has_such_an_import(
    fs: FilesView,
    root: Seq<char>,
    pkg: Seq<char>,
    g: GraphView,
    declared: Set<Seq<char>>,
    v: PhantomView,
)
    requires
        first_phantom(fs, root, pkg, g, declared) == Some(v),
    ensures
        ({
            ||| exists|i: int|
                0 <= i < g.runtime.len() && edge_verdict(
                    fs,
                    root,
                    pkg,
                    #[trigger] g.runtime[i],
                    declared,
                ) == Some(v)
            ||| exists|i: int|
                0 <= i < g.types.len() && edge_verdict(
                    fs,
                    root,
                    pkg,
                    #[trigger] g.types[i],
                    declared,
                ) == Some(v)
            ||| exists|i: int|
                0 <= i < g.bare.len() && v == PhantomView::BareSpecifier(#[trigger] g.bare[i])
                    && !declared.contains(g.bare[i].package_name)
        }),
{
    lemma_wrong_edge(fs, root, pkg, g.runtime, declared);
    lemma_wrong_edge(fs, root, pkg, g.types, declared);
    lemma_wrong_site(g.bare, declared);
}

/// An entry for a package that the graph has already is refused just when it says something
/// different from the one that the graph holds.
pub proof fn an_entry_is_refused_when_it_differs(list: Seq<PackageView>, p: PackageView)
    requires
        merged(list) is Some,
    ensures
        ({
            let g = merged(list)->0;
            let key = key_of(p.name, p.version);
            merged(list.push(p)) is Some <==> (g.dom().contains(key) ==> compatible(g[key], p))
        }),
{
    assert(list.push(p).drop_last() =~= list);
}

/// What fails the reading of imports is told of a file that fails it.
pub proof fn a_source_that_cannot_be_read_is_told(fs: FilesView, files: Seq<Seq<char>>)
    ensures
        match imports_of_files(fs, files) {
            Ok(_) => true,
            Err(GraphFailure::Unreadable(f)) => files.contains(f) && text_at(fs, f) is None,
            Err(GraphFailure::Unparsed(f, _)) => files.contains(f) && (text_at(fs, f) matches Some(
                text,
            ) && file_findings(f, text) is None),
            Err(_) => false,
        },
    decreases files.len(),
{
    if files.len() > 0 {
        let rest = files.drop_first();
        a_source_that_cannot_be_read_is_told(fs, rest);
        assert(files.contains(files[0]));
        assert forall|f: Seq<char>| rest.contains(f) implies files.contains(f) by {
            let i = choose|i: int| 0 <= i < rest.len() && rest[i] == f;
            assert(files[i + 1] == f);
        }
    }
}

/// What fails the wiring of a dependency is told for what it is: a link to a member that is not
/// there, a package for other platforms with those that it is for, or that nothing is known of
/// the name, with how many packages are known.
pub proof fn a_dependency_that_cannot_be_wired_is_told_why(c: WireContext, name: Seq<char>)
    requires
        c.graph matches Some(g) ==> g.dom().finite(),
    ensures
        match dep_outcome(c, name) {
            Ok(_) => true,
            Err(DepFailure::TooDeep) => c.lock is Some && c.graph is Some && resolution_too_deep(
                c.lock->0,
                c.graph->0,
                c.lockfile_pkg,
                c.m,
                name,
                c.os,
                c.arch,
            ),
            Err(DepFailure::WorkspaceLink) => known_resolution(
                c.lockfile_pkg,
                name,
                c.m,
                c.lock,
                c.graph,
                c.os,
                c.arch,
            ) == Some(ResolutionView::Workspace),
            Err(DepFailure::PlatformMismatch { resolved_name, version, os, cpu }) => !applies_to(
                os,
                cpu,
                c.os,
                c.arch,
            ) && known_resolution(c.lockfile_pkg, name, c.m, c.lock, c.graph, c.os, c.arch) == Some(
                ResolutionView::ThirdParty { name: resolved_name, version },
            ),
            Err(DepFailure::Unresolved { known }) => known_resolution(
                c.lockfile_pkg,
                name,
                c.m,
                c.lock,
                c.graph,
                c.os,
                c.arch,
            ) is None && known == (match c.graph {
                Some(g) => Some(g.dom().len()),
                None => None,
            }),
        },
{
    if let Some(g) = c.graph {
        finite_sets_are_listed(g.dom());
        let l = listing(g.dom());
        lemma_increasing_distinct(l);
        l.unique_seq_to_set();
    }
}

} // verus!
