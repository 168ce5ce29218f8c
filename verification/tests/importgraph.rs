use plugin_js::importgraph::{
    build_package_import_graph, pending_requests, read_package_imports, GraphError, ImportGraph,
    ResolvedEdge,
};
use plugin_js::lockfile::{Lockfile, PkgManager};
use plugin_js::package_json::PackageManifest;
use plugin_js::phantom::{
    check_one_edge, check_phantom_dependencies, declared_closure, transitive_declared_closure,
};
use plugin_js::resolve_cache::{CacheFlavor, ResolveCache, ResolveOutcome};
use plugin_js::sorted::StrMap;
use plugin_js::test_closure::build_test_closure;
use plugin_js::tree::FileTree;

fn write(files: &mut FileTree, rel: &str, contents: &str) {
    files.add_file(&format!("/ws/{rel}"), contents.to_string());
}

fn probe(files: &FileTree, path: &str) -> Option<String> {
    for suffix in ["", ".ts", ".tsx", ".js", "/index.ts", "/index.js"] {
        let candidate = format!("{path}{suffix}");
        if files.is_file(&candidate) {
            return files.canonical_path(&candidate);
        }
    }
    None
}

fn parent(path: &str) -> &str {
    path.rsplit_once('/').map_or("", |(dir, _)| dir)
}

fn main_of(files: &FileTree, dir: &str) -> Option<String> {
    let text = files.read(&format!("{dir}/package.json"))?;
    let value: serde_json::Value = serde_json::from_str(text).ok()?;
    let main = value.get("main").and_then(|m| m.as_str()).unwrap_or("index.js");
    probe(files, &format!("{dir}/{main}"))
}

fn resolve(files: &FileTree, from: &str, specifier: &str) -> ResolveOutcome {
    let found = if specifier.starts_with('.') {
        probe(files, &format!("{from}/{specifier}"))
    } else {
        let mut dir = from;
        loop {
            let candidate = format!("{dir}/node_modules/{specifier}");
            if let Some(path) = main_of(files, &candidate) {
                break Some(path);
            }
            if dir.is_empty() {
                break None;
            }
            dir = parent(dir);
        }
    };
    match found {
        Some(path) => ResolveOutcome::Resolved(path),
        None => ResolveOutcome::Unresolved,
    }
}

fn graph_of(
    files: &FileTree,
    pkg: &str,
    tsconfig: Option<&str>,
) -> Result<ImportGraph, GraphError> {
    let mut cache = ResolveCache::new();
    let list = read_package_imports(files, "/ws", pkg)?;
    for request in pending_requests(&list, &cache) {
        let from = match request.flavor {
            CacheFlavor::Types => parent(&request.base).to_string(),
            _ => request.base.clone(),
        };
        let outcome = resolve(files, &from, &request.specifier);
        cache.insert(request.flavor, &request.base, &request.specifier, outcome);
    }
    build_package_import_graph(files, "/ws", pkg, &cache, tsconfig)
}

fn manifest(name: &str, deps: &[&str], dev_deps: &[&str]) -> PackageManifest {
    manifest_with_peers(name, deps, dev_deps, &[])
}

fn all(names: &[&str]) -> StrMap<String> {
    let mut m = StrMap::new();
    for n in names {
        m.insert(n.to_string(), "*".to_string());
    }
    m
}

fn manifest_with_peers(
    name: &str,
    deps: &[&str],
    dev_deps: &[&str],
    peer_deps: &[&str],
) -> PackageManifest {
    PackageManifest {
        name: name.to_string(),
        main: None,
        dependencies: all(deps),
        dev_dependencies: all(dev_deps),
        optional_dependencies: all(&[]),
        peer_dependencies: all(peer_deps),
    }
}

#[test]
fn declared_workspace_sibling_import_passes() {
    let mut files = FileTree::new();
    write(
        &mut files,
        "packages/a/package.json",
        r#"{"name":"a","dependencies":{"b":"workspace:*"}}"#,
    );
    write(
        &mut files,
        "packages/a/src/index.ts",
        "import { x } from '../../b/src/index';\n",
    );
    write(&mut files, "packages/b/package.json", r#"{"name":"b"}"#);
    write(
        &mut files,
        "packages/b/src/index.ts",
        "export const x = 1;\n",
    );

    let graph = graph_of(&files, "packages/a", None).expect("build graph");
    assert_eq!(graph.runtime_edges.len(), 1);

    let declared = declared_closure(&manifest("a", &["b"], &[]));
    check_phantom_dependencies(&files, "/ws", "packages/a", &graph, &declared)
        .expect("declared sibling import must pass");
}

#[test]
fn phantom_thirdparty_import_hard_fails_naming_file_specifier_package() {
    let mut files = FileTree::new();
    write(&mut files, "packages/a/package.json", r#"{"name":"a"}"#);
    write(
        &mut files,
        "packages/a/src/index.ts",
        "import _ from 'lodash';\n",
    );
    write(
        &mut files,
        "node_modules/lodash/package.json",
        r#"{"name":"lodash","main":"index.js"}"#,
    );
    write(
        &mut files,
        "node_modules/lodash/index.js",
        "module.exports = {};\n",
    );

    let graph = graph_of(&files, "packages/a", None).expect("build graph");
    assert_eq!(graph.runtime_edges.len(), 1);

    let declared = declared_closure(&manifest("a", &[], &[]));
    let err = check_phantom_dependencies(&files, "/ws", "packages/a", &graph, &declared)
        .expect_err("undeclared phantom dependency must hard-fail");
    let msg = err.message();
    assert!(msg.contains("packages/a/src/index.ts"), "{msg}");
    assert!(msg.contains("lodash"), "{msg}");
}

#[test]
fn phantom_workspace_sibling_import_hard_fails() {
    let mut files = FileTree::new();
    write(&mut files, "packages/a/package.json", r#"{"name":"a"}"#);
    write(
        &mut files,
        "packages/a/src/index.ts",
        "import { x } from '../../b/src/index';\n",
    );
    write(&mut files, "packages/b/package.json", r#"{"name":"b"}"#);
    write(
        &mut files,
        "packages/b/src/index.ts",
        "export const x = 1;\n",
    );

    let graph = graph_of(&files, "packages/a", None).expect("build graph");

    let declared = declared_closure(&manifest("a", &[], &[]));
    let err = check_phantom_dependencies(&files, "/ws", "packages/a", &graph, &declared)
        .expect_err("undeclared workspace sibling import must hard-fail");
    let msg = err.message();
    assert!(msg.contains('b'), "{msg}");
}

#[test]
fn type_only_import_lands_only_in_type_graph() {
    let mut files = FileTree::new();
    write(&mut files, "packages/a/package.json", r#"{"name":"a"}"#);
    write(
        &mut files,
        "packages/a/src/index.ts",
        "import type { Foo } from '../../b/src/index';\n",
    );
    write(&mut files, "packages/b/package.json", r#"{"name":"b"}"#);
    write(
        &mut files,
        "packages/b/src/index.ts",
        "export type Foo = number;\n",
    );

    let graph = graph_of(&files, "packages/a", None).expect("build graph");

    assert!(
        graph.runtime_edges.is_empty(),
        "a type-only import must not appear in the runtime graph: {:?}",
        graph.runtime_edges
    );
    assert_eq!(graph.type_edges.len(), 1);
}

#[test]
fn dynamic_import_with_non_literal_argument_is_coarsened_not_a_hard_failure() {
    let mut files = FileTree::new();
    write(&mut files, "packages/a/package.json", r#"{"name":"a"}"#);
    write(
        &mut files,
        "packages/a/src/index.ts",
        "export function load(lang: string) { return import(`./locales/${lang}.js`); }\n",
    );

    let graph = graph_of(&files, "packages/a", None).expect("build graph must not fail on a non-literal dynamic import");

    assert!(graph.runtime_edges.is_empty());
    assert_eq!(graph.unresolved_dynamic_imports, 1);

    let declared = declared_closure(&manifest("a", &[], &[]));
    check_phantom_dependencies(&files, "/ws", "packages/a", &graph, &declared)
        .expect("no edge means nothing to phantom-check");
}

#[test]
fn walk_stops_at_nested_package_json_boundary() {
    let mut files = FileTree::new();
    write(&mut files, "packages/a/package.json", r#"{"name":"a"}"#);
    write(
        &mut files,
        "packages/a/src/index.ts",
        "export const x = 1;\n",
    );
    write(
        &mut files,
        "packages/a/vendored/package.json",
        r#"{"name":"vendored"}"#,
    );
    write(
        &mut files,
        "packages/a/vendored/index.ts",
        "import _ from 'lodash';\n",
    );

    let graph = graph_of(&files, "packages/a", None).expect("build graph");
    assert!(
        graph.runtime_edges.is_empty() && graph.type_edges.is_empty(),
        "must not have parsed the nested package's own file: {graph:?}"
    );
}

#[test]
fn undeclared_bare_specifier_is_caught_even_with_no_node_modules_on_disk() {
    let mut files = FileTree::new();
    write(&mut files, "packages/a/package.json", r#"{"name":"a"}"#);
    write(
        &mut files,
        "packages/a/src/index.ts",
        "import _ from 'lodash';\n",
    );

    let graph = graph_of(&files, "packages/a", None).expect("build graph");
    assert!(
        graph.runtime_edges.is_empty(),
        "with no node_modules on disk, the specifier must not resolve: {:?}",
        graph.runtime_edges
    );
    assert_eq!(graph.unresolved_bare_specifiers.len(), 1);
    assert_eq!(graph.unresolved_bare_specifiers[0].package_name, "lodash");

    let declared = declared_closure(&manifest("a", &[], &[]));
    let err = check_phantom_dependencies(&files, "/ws", "packages/a", &graph, &declared)
        .expect_err("an undeclared bare specifier must hard-fail even with no node_modules");
    let msg = err.message();
    assert!(msg.contains("packages/a/src/index.ts"), "{msg}");
    assert!(msg.contains("lodash"), "{msg}");
}

#[test]
fn declared_bare_specifier_passes_even_with_no_node_modules_on_disk() {
    let mut files = FileTree::new();
    write(&mut files, "packages/a/package.json", r#"{"name":"a"}"#);
    write(
        &mut files,
        "packages/a/src/index.ts",
        "import _ from 'lodash';\n",
    );

    let graph = graph_of(&files, "packages/a", None).expect("build graph");

    let declared = declared_closure(&manifest("a", &["lodash"], &[]));
    check_phantom_dependencies(&files, "/ws", "packages/a", &graph, &declared)
        .expect("a declared bare specifier must pass even with no node_modules on disk");
}

fn transitive_fixture() -> Lockfile {
    Lockfile::parse(
        PkgManager::Npm,
        r#"{
                "lockfileVersion": 3,
                "packages": {
                    "": { "name": "root" },
                    "packages/a": { "name": "a", "devDependencies": { "typescript-eslint": "^8.0.0" } },
                    "node_modules/typescript-eslint": {
                        "version": "8.0.0",
                        "resolved": "https://registry.npmjs.org/typescript-eslint/-/typescript-eslint-8.0.0.tgz",
                        "integrity": "sha512-abc",
                        "dependencies": { "@eslint/js": "9.0.0" }
                    },
                    "node_modules/@eslint/js": {
                        "version": "9.0.0",
                        "resolved": "https://registry.npmjs.org/@eslint/js/-/js-9.0.0.tgz",
                        "integrity": "sha512-def",
                        "dependencies": {}
                    },
                    "node_modules/unrelated": {
                        "version": "1.0.0",
                        "resolved": "https://registry.npmjs.org/unrelated/-/unrelated-1.0.0.tgz",
                        "integrity": "sha512-ghi",
                        "dependencies": {}
                    }
                }
            }"#,
    )
    .expect("parse fixture lockfile")
}

#[test]
fn transitive_declared_closure_includes_a_dependency_of_a_declared_dependency() {
    let lockfile = transitive_fixture();
    let resolved_graph = lockfile.resolved_graph().unwrap();
    let manifest = manifest("a", &[], &["typescript-eslint"]);

    assert!(!declared_closure(&manifest).contains("@eslint/js"));

    let widened = transitive_declared_closure(
        &manifest,
        "packages/a",
        Some(&lockfile),
        Some(&resolved_graph),
        "linux",
        "amd64",
    );
    assert!(
        widened.contains("@eslint/js"),
        "a package reachable through a declared dependency's own lockfile-resolved \
         dependencies must not be flagged as phantom: {widened:?}"
    );
    assert!(widened.contains("typescript-eslint"), "{widened:?}");
}

#[test]
fn transitive_declared_closure_does_not_include_an_unrelated_package() {
    let lockfile = transitive_fixture();
    let resolved_graph = lockfile.resolved_graph().unwrap();
    let manifest = manifest("a", &[], &["typescript-eslint"]);

    let widened = transitive_declared_closure(
        &manifest,
        "packages/a",
        Some(&lockfile),
        Some(&resolved_graph),
        "linux",
        "amd64",
    );
    assert!(
        !widened.contains("unrelated"),
        "a package with no edge from anything `a` declares is still a genuine phantom \
         dependency, not merely hoisted into reach: {widened:?}"
    );
}

#[test]
fn transitive_declared_closure_falls_back_to_direct_only_without_a_lockfile() {
    let manifest = manifest("a", &[], &["typescript-eslint"]);
    let widened =
        transitive_declared_closure(&manifest, "packages/a", None, None, "linux", "amd64");
    assert_eq!(widened.items(), declared_closure(&manifest).items());
}

#[test]
fn peer_dependency_counts_as_declared_for_phantom_check() {
    let mut files = FileTree::new();
    write(&mut files, "packages/a/package.json", r#"{"name":"a"}"#);
    write(
        &mut files,
        "packages/a/src/index.ts",
        "import React from 'react';\n",
    );

    let graph = graph_of(&files, "packages/a", None).expect("build graph");

    let declared = declared_closure(&manifest_with_peers("a", &[], &[], &["react"]));
    check_phantom_dependencies(&files, "/ws", "packages/a", &graph, &declared)
        .expect("a peerDependencies entry must count as declared");
}

#[test]
fn unresolvable_tsconfig_path_alias_is_not_a_false_positive_phantom() {
    let mut files = FileTree::new();
    write(
        &mut files,
        "tsconfig.json",
        r#"{
                "compilerOptions": { "paths": { "@app/*": ["src/*"] } }
            }"#,
    );
    write(&mut files, "packages/a/package.json", r#"{"name":"a"}"#);
    write(
        &mut files,
        "packages/a/src/index.ts",
        "import x from '@app/does-not-exist';\n",
    );

    let graph = graph_of(&files, "packages/a", Some("/ws/tsconfig.json")).expect("build graph");
    assert!(
        graph.unresolved_bare_specifiers.is_empty(),
        "a tsconfig path-alias-shaped specifier must not be treated as a bare npm \
         specifier: {:?}",
        graph.unresolved_bare_specifiers
    );

    let declared = declared_closure(&manifest("a", &[], &[]));
    check_phantom_dependencies(&files, "/ws", "packages/a", &graph, &declared)
        .expect("an unresolvable tsconfig path alias must not false-positive as phantom");
}

#[test]
fn unclassifiable_resolved_edge_is_a_hard_error_not_a_silent_pass() {
    let mut files = FileTree::new();
    write(&mut files, "packages/a/package.json", r#"{"name":"a"}"#);

    let escaped = "/elsewhere/definitely-outside-the-workspace.ts".to_string();
    let edge = ResolvedEdge {
        file: "packages/a/src/index.ts".to_string(),
        specifier: "escaped".to_string(),
        resolved: escaped,
    };

    let declared = declared_closure(&manifest("a", &[], &[]));
    let err = check_one_edge(&files, "/ws", "packages/a", &edge, &declared)
        .expect_err("an unclassifiable resolved edge must hard-fail, not silently pass");
    let msg = err.message();
    assert!(msg.contains("packages/a/src/index.ts"), "{msg}");
    assert!(msg.contains("escaped"), "{msg}");
}

#[test]
fn build_test_closure_is_scoped_to_the_one_test_files_own_imports() {
    let mut files = FileTree::new();
    write(&mut files, "packages/a/package.json", r#"{"name":"a"}"#);
    write(&mut files, "packages/a/src/a.ts", "export const a = 1;\n");
    write(&mut files, "packages/a/src/b.ts", "export const b = 2;\n");
    write(
        &mut files,
        "packages/a/src/a.test.ts",
        "import { a } from './a';\ntest('a', () => a);\n",
    );
    write(
        &mut files,
        "packages/a/src/b.test.ts",
        "import { b } from './b';\ntest('b', () => b);\n",
    );

    let graph = graph_of(&files, "packages/a", None).expect("build graph");

    let closure = build_test_closure(
        &graph,
        "/ws",
        "packages/a",
        "packages/a/src/a.test.ts",
    )
    .expect("build closure");

    assert!(closure.files.contains("packages/a/src/a.test.ts"));
    assert!(closure.files.contains("packages/a/src/a.ts"));
    assert!(
        !closure.files.contains("packages/a/src/b.ts"),
        "b.ts is only imported by b.test.ts, never by a.test.ts: {:?}",
        closure.files
    );
    assert!(
        !closure.files.contains("packages/a/src/b.test.ts"),
        "an unrelated sibling test file must never appear in a.test.ts's own closure: {:?}",
        closure.files
    );
}

#[test]
fn build_test_closure_follows_transitive_first_party_imports() {
    let mut files = FileTree::new();
    write(&mut files, "packages/a/package.json", r#"{"name":"a"}"#);
    write(
        &mut files,
        "packages/a/src/deep.ts",
        "export const deep = 1;\n",
    );
    write(
        &mut files,
        "packages/a/src/helper.ts",
        "export { deep } from './deep';\n",
    );
    write(
        &mut files,
        "packages/a/src/a.test.ts",
        "import { deep } from './helper';\ntest('a', () => deep);\n",
    );

    let graph = graph_of(&files, "packages/a", None).expect("build graph");

    let closure = build_test_closure(
        &graph,
        "/ws",
        "packages/a",
        "packages/a/src/a.test.ts",
    )
    .expect("build closure");

    assert!(closure.files.contains("packages/a/src/helper.ts"));
    assert!(
        closure.files.contains("packages/a/src/deep.ts"),
        "a transitively-reached file must be in the closure: {:?}",
        closure.files
    );
}

#[test]
fn build_test_closure_records_cross_package_import_as_external_one_hop() {
    let mut files = FileTree::new();
    write(
        &mut files,
        "packages/a/package.json",
        r#"{"name":"a","dependencies":{"b":"workspace:*"}}"#,
    );
    write(
        &mut files,
        "packages/a/src/a.test.ts",
        "import { x } from '../../b/src/index';\ntest('a', () => x);\n",
    );
    write(&mut files, "packages/b/package.json", r#"{"name":"b"}"#);
    write(
        &mut files,
        "packages/b/src/index.ts",
        "export const x = 1;\n",
    );

    let graph = graph_of(&files, "packages/a", None).expect("build graph");

    let closure = build_test_closure(
        &graph,
        "/ws",
        "packages/a",
        "packages/a/src/a.test.ts",
    )
    .expect("build closure");

    assert!(
        closure.external_files.contains("packages/b/src/index.ts"),
        "{:?}",
        closure.external_files
    );
    assert!(!closure.files.contains("packages/b/src/index.ts"));
}

#[test]
fn build_test_closure_records_import_from_ambient_nested_node_modules_as_external() {
    let mut files = FileTree::new();
    write(&mut files, "packages/a/package.json", r#"{"name":"a"}"#);
    write(
        &mut files,
        "packages/a/src/a.test.ts",
        "import { x } from '@apollo/client';\ntest('a', () => x);\n",
    );
    write(
        &mut files,
        "packages/a/node_modules/@apollo/client/package.json",
        r#"{"name":"@apollo/client","version":"4.2.3","main":"core/index.js"}"#,
    );
    write(
        &mut files,
        "packages/a/node_modules/@apollo/client/core/index.js",
        "export const x = 1;\n",
    );

    let graph = graph_of(&files, "packages/a", None).expect("build graph");

    let closure = build_test_closure(
        &graph,
        "/ws",
        "packages/a",
        "packages/a/src/a.test.ts",
    )
    .expect("build closure");

    assert!(
        closure
            .external_files
            .contains("packages/a/node_modules/@apollo/client/core/index.js"),
        "an ambient-nested third-party file must be classified external, not first-party: \
         {:?}",
        closure.external_files
    );
    assert!(
        !closure
            .files
            .contains("packages/a/node_modules/@apollo/client/core/index.js"),
        "must never also land in `files` — that's what produces the sandbox collision: {:?}",
        closure.files
    );
}

#[test]
fn build_test_closure_does_not_follow_the_cross_package_files_own_further_imports() {
    let mut files = FileTree::new();
    write(
        &mut files,
        "packages/a/package.json",
        r#"{"name":"a","dependencies":{"b":"workspace:*"}}"#,
    );
    write(
        &mut files,
        "packages/a/src/a.test.ts",
        "import { x } from '../../b/src/index';\ntest('a', () => x);\n",
    );
    write(&mut files, "packages/b/package.json", r#"{"name":"b"}"#);
    write(
        &mut files,
        "packages/b/src/index.ts",
        "export { x } from './helper';\n",
    );
    write(
        &mut files,
        "packages/b/src/helper.ts",
        "export const x = 1;\n",
    );

    let graph = graph_of(&files, "packages/a", None).expect("build graph");

    let closure = build_test_closure(
        &graph,
        "/ws",
        "packages/a",
        "packages/a/src/a.test.ts",
    )
    .expect("build closure");

    assert!(
        closure.external_files.contains("packages/b/src/index.ts"),
        "the one-hop external file itself must still be declared: {:?}",
        closure.external_files
    );
    assert!(
        !closure.external_files.contains("packages/b/src/helper.ts")
            && !closure.files.contains("packages/b/src/helper.ts"),
        "the externally-reached file's own further import must NOT be followed — this pins \
         the accepted one-hop trim's boundary: files={:?} external_files={:?}",
        closure.files,
        closure.external_files
    );
}
