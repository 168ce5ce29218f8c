use plugin_js::importgraph::{
    assemble_graph, build_package_import_graph, pending_requests, read_package_imports, GraphError,
    ImportGraph, ResolvedEdge,
};
use plugin_js::phantom::{
    check_one_edge, firstparty_owning_pkg_dir, thirdparty_pkg_name_from_path, PhantomError,
};
use plugin_js::resolve_cache::{CacheFlavor, ResolveCache, ResolveOutcome};
use plugin_js::sorted::StrSet;
use plugin_js::sources::{
    collect_source_files, discover_test_files, package_source_files, SourcesError,
};
use plugin_js::test_closure::build_test_closure;
use plugin_js::tree::{FileEntry, FileTree};
use plugin_js::tsconfig::bare_specifier_guard;
use plugin_js::workspace::read_package_name;

fn tree(list: &[(&str, &str)]) -> FileTree {
    let mut files = FileTree::new();
    for (path, text) in list {
        files.add_file(path, text.to_string());
    }
    files
}

#[test]
fn files_are_found_by_any_spelling_of_their_path() {
    let mut files = tree(&[("/ws/a/b.ts", "x")]);
    files.add_dir("/ws/empty");
    assert!(files.is_file("/ws/./a/../a/b.ts"));
    assert_eq!(files.read("/ws/a/b.ts").map(|s| s.as_str()), Some("x"));
    assert!(files.is_dir("/ws/a") && files.is_dir("/ws/empty") && files.is_dir("/"));
    assert!(!files.is_dir("/ws/a/b.ts") && !files.is_dir("/ws/none"));
    assert_eq!(files.canonical_path("/ws/a/b.ts").as_deref(), Some("/ws/a/b.ts"));
    assert!(files.entry("/ws/none").is_none());
    assert_eq!(files.len(), 1);
    assert_eq!(files.path_at(0), "/ws/a/b.ts");
    assert!(files.entry_at(0).plain);
}

#[test]
fn source_files_are_those_of_the_package_itself() {
    let mut files = tree(&[
        ("/ws/p/package.json", "{}"),
        ("/ws/p/src/a.ts", ""),
        ("/ws/p/src/b.jsx", ""),
        ("/ws/p/src/c.css", ""),
        ("/ws/p/node_modules/x/index.js", ""),
        ("/ws/p/nested/package.json", "{}"),
        ("/ws/p/nested/d.ts", ""),
        ("/ws/p/.git/e.ts", ""),
    ]);
    files.add_entry(
        "/ws/p/link.ts",
        FileEntry {
            text: Some(String::new()),
            canonical: "/ws/p/src/a.ts".to_string(),
            plain: false,
        },
    );
    assert_eq!(collect_source_files(&files, "/ws/p"), vec!["/ws/p/src/a.ts", "/ws/p/src/b.jsx"]);
    let err = package_source_files(&files, "/ws", "none").unwrap_err();
    assert!(err.message().contains("/ws/none"), "{err:?}");
    let patterns = vec!["{a".to_string()];
    let err = discover_test_files(&files, "/ws", "p", &patterns).unwrap_err();
    assert!(matches!(err, SourcesError::InvalidGlob { .. }), "{err:?}");
}

#[test]
fn a_graph_waits_for_its_answers() {
    let files = tree(&[
        ("/ws/p/package.json", "{}"),
        ("/ws/p/a.ts", "import x from 'lib'; import type T from './t'; import 'lib';"),
    ]);
    let mut cache = ResolveCache::new();
    let list = read_package_imports(&files, "/ws", "p").unwrap();
    let pending = pending_requests(&list, &cache);
    assert_eq!(pending.len(), 2);
    assert_eq!(pending[0].flavor, CacheFlavor::RuntimeEsm);
    assert_eq!(pending[0].base, "/ws/p");
    assert_eq!(pending[1].flavor, CacheFlavor::Types);
    assert_eq!(pending[1].base, "/ws/p/a.ts");
    let err = build_package_import_graph(&files, "/ws", "p", &cache, None).unwrap_err();
    assert!(matches!(err, GraphError::NotResolved(_)), "{err:?}");
    let guard = bare_specifier_guard(&files, None);
    assert!(assemble_graph(&list, &cache, &guard, "/ws").is_err());
    for q in pending {
        cache.insert(q.flavor, &q.base, &q.specifier, ResolveOutcome::Unresolved);
    }
    assert!(pending_requests(&list, &cache).is_empty());
    let graph = build_package_import_graph(&files, "/ws", "p", &cache, None).unwrap();
    assert_eq!(graph.unresolved_bare_specifiers.len(), 2);
    let outcome = cache.get(CacheFlavor::RuntimeEsm, "/ws/./p", "lib");
    assert!(matches!(outcome, Some(ResolveOutcome::Unresolved)));
    assert!(cache.get(CacheFlavor::RuntimeCjs, "/ws/p", "lib").is_none());
}

#[test]
fn a_graph_needs_its_package_and_its_files() {
    let mut files = tree(&[("/ws/p/package.json", "{}"), ("/ws/q/bad.ts", "let x = \"open")]);
    files.add_entry(
        "/ws/p/a.ts",
        FileEntry { text: None, canonical: "/ws/p/a.ts".to_string(), plain: true },
    );
    let cache = ResolveCache::new();
    let graph = |pkg: &str| build_package_import_graph(&files, "/ws", pkg, &cache, None);
    assert!(matches!(graph("none").unwrap_err(), GraphError::NoDirectory(_)));
    assert!(matches!(graph("p").unwrap_err(), GraphError::Unreadable { .. }));
    let err = graph("q").unwrap_err();
    assert!(matches!(err, GraphError::Unparsed(_)), "{err:?}");
    assert!(err.message().contains("/ws/q/bad.ts"), "{err:?}");
}

#[test]
fn what_an_import_resolves_to_has_an_owner() {
    assert_eq!(
        thirdparty_pkg_name_from_path("/ws/node_modules/a/node_modules/@s/b/x.js").as_deref(),
        Some("@s/b")
    );
    assert_eq!(
        thirdparty_pkg_name_from_path("/ws/node_modules/lodash/fp.js").as_deref(),
        Some("lodash")
    );
    assert_eq!(thirdparty_pkg_name_from_path("/ws/src/x.js"), None);
    assert_eq!(thirdparty_pkg_name_from_path("/w/src/old_node_modules/foo.ts"), None);
    assert_eq!(thirdparty_pkg_name_from_path("node_modules/a/x.js").as_deref(), Some("a"));
    assert_eq!(
        thirdparty_pkg_name_from_path("/w/node_modules/node_modules/x.js").as_deref(),
        Some("x.js")
    );
    let files = tree(&[
        ("/ws/package.json", r#"{"name":"root"}"#),
        ("/ws/p/package.json", r#"{"name":"p"}"#),
        ("/ws/q/package.json", r#"{"name":"q"}"#),
        ("/ws/p/src/x.ts", ""),
        ("/ws/broken/package.json", "no json"),
        ("/ws/broken/x.ts", ""),
    ]);
    assert_eq!(
        firstparty_owning_pkg_dir(&files, "/ws/p/src/x.ts", "/ws").as_deref(),
        Some("p")
    );
    assert_eq!(firstparty_owning_pkg_dir(&files, "/ws/y.ts", "/ws").as_deref(), Some(""));
    assert_eq!(firstparty_owning_pkg_dir(&files, "/elsewhere/y.ts", "/ws"), None);
    assert_eq!(read_package_name(&files, "/ws/p/package.json").unwrap(), "p");
    let edge = |resolved: &str| ResolvedEdge {
        file: "q/a.ts".to_string(),
        specifier: "s".to_string(),
        resolved: resolved.to_string(),
    };
    let mut declared = StrSet::new();
    let check = |declared: &StrSet, to: &str| {
        check_one_edge(&files, "/ws", "q", &edge(to), declared)
    };
    let err = check(&declared, "/ws/p/src/x.ts").unwrap_err();
    assert!(matches!(err, PhantomError::Workspace { .. }), "{err:?}");
    let err = check(&declared, "/ws/node_modules/lodash/x.js").unwrap_err();
    assert!(matches!(err, PhantomError::ThirdParty { .. }), "{err:?}");
    let err = check(&declared, "/ws/broken/x.ts").unwrap_err();
    assert!(matches!(err, PhantomError::UnnamedOwner { .. }), "{err:?}");
    let err = check(&declared, "/elsewhere/x.ts").unwrap_err();
    assert!(matches!(err, PhantomError::Unclassified { .. }), "{err:?}");
    declared.insert("p".to_string());
    declared.insert("lodash".to_string());
    check(&declared, "/ws/p/src/x.ts").unwrap();
    check(&declared, "/ws/node_modules/lodash/x.js").unwrap();
    check(&declared, "/ws/q/own.ts").unwrap();
}

#[test]
fn a_test_that_reaches_out_of_the_workspace_is_refused() {
    let mut graph = ImportGraph::new();
    graph.runtime_edges.push(ResolvedEdge {
        file: "p/a.test.ts".to_string(),
        specifier: "out".to_string(),
        resolved: "/elsewhere/x.ts".to_string(),
    });
    let err = build_test_closure(&graph, "/ws", "p", "p/a.test.ts").unwrap_err();
    assert!(err.message().contains("/elsewhere/x.ts"), "{err:?}");
    let closure = build_test_closure(&graph, "/ws", "p", "p/b.test.ts").unwrap();
    assert_eq!(closure.files.items(), &vec!["p/b.test.ts".to_string()]);
}

#[test]
fn going_up_from_a_link_leads_to_the_parent_of_what_it_links() {
    let mut files = tree(&[("/ws/real/base.json", "{}"), ("/ws/real/p/x.ts", ""), ("/ws/y.ts", "")]);
    assert!(files.is_file("/ws/real/p/../base.json"));
    assert!(!files.is_file("/ws/link/../base.json"));
    assert!(!files.is_file("/ws/link/../y.ts"));
    files.add_link("/ws/link", "/ws/real/p".to_string());
    assert!(files.is_dir("/ws/link"));
    assert!(files.is_file("/ws/link/../base.json"));
    assert!(!files.is_file("/ws/link/../y.ts"));
    assert_eq!(files.locate("/ws/link/../../y.ts"), "/ws/y.ts");
    assert_eq!(files.locate("/ws/./link"), "/ws/link");
    assert_eq!(files.locate("/../ws"), "/ws");
}

#[test]
fn only_directories_can_be_gone_up_from() {
    let mut files = tree(&[("/ws/a.ts", ""), ("/ws/p/x.ts", "")]);
    assert!(files.is_file("/ws/a.ts"));
    assert!(files.is_file("/ws/./a.ts"));
    assert!(!files.is_file("/ws/a.ts/"));
    assert!(!files.is_file("/ws/a.ts/."));
    assert!(!files.is_file("/ws/p/x.ts/../x.ts"));
    assert!(!files.is_file("/ws/missing/../a.ts"));
    assert!(!files.is_dir("/ws/missing/../p"));
    assert!(files.is_file("/ws/p/../a.ts"));
    assert!(files.is_file("/../ws/a.ts"));
    assert!(files.is_dir("/ws/p/"));
    assert!(files.is_dir("/ws/p/."));
    assert_eq!(files.read("/ws/a.ts/"), None);
    assert_eq!(files.canonical_path("/ws/missing/../a.ts"), None);
    files.add_dir("/ws/missing");
    assert!(files.is_file("/ws/missing/../a.ts"));
}
