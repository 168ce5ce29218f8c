use plugin_js::graph::{
    entries_agree_where_comparable, graph_key, ResolvedPackage, TransitiveEntry,
};
use plugin_js::lockfile::{resolve_transitive, Lockfile, PkgManager};
use plugin_js::npm::NpmLockfile;
use plugin_js::package_json::PackageManifest;
use plugin_js::pnpm::{split_pnpm_key, PnpmLockfile};
use plugin_js::resolution::{DepResolution, LockfileError};
use plugin_js::sorted::StrMap;
use std::collections::BTreeSet;

fn one(key: &str, value: &str) -> StrMap<String> {
    let mut m = StrMap::new();
    m.insert(key.to_string(), value.to_string());
    m
}

fn npm_fixture() -> &'static str {
    r#"{
            "lockfileVersion": 3,
            "packages": {
                "": { "name": "root", "dependencies": { "lodash": "^4.17.21" } },
                "packages/a": { "name": "a", "dependencies": { "lodash": "^4.17.21", "b": "workspace:*" } },
                "node_modules/a": { "resolved": "packages/a", "link": true },
                "node_modules/lodash": {
                    "version": "4.17.21",
                    "resolved": "https://registry.npmjs.org/lodash/-/lodash-4.17.21.tgz",
                    "integrity": "sha512-abc",
                    "dependencies": {}
                },
                "node_modules/@esbuild/darwin-arm64": {
                    "version": "0.19.0",
                    "resolved": "https://registry.npmjs.org/@esbuild/darwin-arm64/-/darwin-arm64-0.19.0.tgz",
                    "integrity": "sha512-def",
                    "os": ["darwin"],
                    "cpu": ["arm64"],
                    "hasInstallScript": true
                }
            }
        }"#
}

#[test]
fn npm_resolved_graph_excludes_root_and_local_and_links() {
    let lock = NpmLockfile::parse(npm_fixture()).unwrap();
    let graph = lock.resolved_graph().unwrap();
    assert_eq!(graph.packages.len(), 2, "{:?}", graph.packages);
    assert!(graph.get("lodash", "4.17.21").is_some());
    assert!(graph.get("@esbuild/darwin-arm64", "0.19.0").is_some());
}

#[test]
fn npm_resolved_graph_carries_integrity_and_platform() {
    let lock = NpmLockfile::parse(npm_fixture()).unwrap();
    let graph = lock.resolved_graph().unwrap();
    let esbuild = graph.get("@esbuild/darwin-arm64", "0.19.0").unwrap();
    assert_eq!(esbuild.integrity, "sha512-def");
    assert_eq!(esbuild.os, vec!["darwin".to_string()]);
    assert_eq!(esbuild.cpu, vec!["arm64".to_string()]);
    assert!(esbuild.has_install_script);
}

#[test]
fn npm_resolved_graph_resolves_optional_dependencies_edges_separately_from_dependencies() {
    let lock = NpmLockfile::parse(
        r#"{
                "lockfileVersion": 3,
                "packages": {
                    "": { "name": "root" },
                    "node_modules/esbuild": {
                        "version": "0.25.12",
                        "integrity": "sha512-loader",
                        "dependencies": { "left-pad": "1.0.0" },
                        "optionalDependencies": { "@esbuild/linux-x64": "0.25.12" }
                    },
                    "node_modules/left-pad": {
                        "version": "1.0.0",
                        "integrity": "sha512-leftpad"
                    },
                    "node_modules/@esbuild/linux-x64": {
                        "version": "0.25.12",
                        "integrity": "sha512-native",
                        "os": ["linux"],
                        "cpu": ["x64"]
                    }
                }
            }"#,
    )
    .unwrap();
    let graph = lock.resolved_graph().unwrap();
    let esbuild = graph.get("esbuild", "0.25.12").unwrap();
    assert_eq!(
        esbuild.dependencies.get("left-pad").map(String::as_str),
        Some("left-pad@1.0.0"),
        "required dependencies must still resolve unaffected: {:?}",
        esbuild.dependencies
    );
    assert_eq!(
        esbuild
            .optional_dependencies
            .get("@esbuild/linux-x64")
            .map(String::as_str),
        Some("@esbuild/linux-x64@0.25.12"),
        "optionalDependencies must resolve into their own field: {:?}",
        esbuild.optional_dependencies
    );
    assert!(
        !esbuild.dependencies.contains_key("@esbuild/linux-x64"),
        "an optional edge must never leak into the required dependencies map"
    );
}

#[test]
fn npm_resolved_graph_prefers_real_entry_when_degenerate_path_sorts_after() {
    let lock = NpmLockfile::parse(
        r#"{
                "lockfileVersion": 3,
                "packages": {
                    "": { "name": "root" },
                    "node_modules/widget": {
                        "version": "1.0.0",
                        "resolved": "https://registry.npmjs.org/widget/-/widget-1.0.0.tgz",
                        "integrity": "sha512-real"
                    },
                    "zzz/node_modules/widget": {
                        "version": "1.0.0"
                    }
                }
            }"#,
    )
    .unwrap();
    let graph = lock.resolved_graph().unwrap();
    let widget = graph.get("widget", "1.0.0").unwrap();
    assert_eq!(widget.integrity, "sha512-real");
    assert_eq!(
        widget.resolved.as_deref(),
        Some("https://registry.npmjs.org/widget/-/widget-1.0.0.tgz")
    );
}

#[test]
fn npm_resolved_graph_prefers_real_entry_when_degenerate_path_sorts_before() {
    let lock = NpmLockfile::parse(
        r#"{
                "lockfileVersion": 3,
                "packages": {
                    "": { "name": "root" },
                    "aaa/node_modules/widget": {
                        "version": "1.0.0"
                    },
                    "node_modules/widget": {
                        "version": "1.0.0",
                        "resolved": "https://registry.npmjs.org/widget/-/widget-1.0.0.tgz",
                        "integrity": "sha512-real"
                    }
                }
            }"#,
    )
    .unwrap();
    let graph = lock.resolved_graph().unwrap();
    let widget = graph.get("widget", "1.0.0").unwrap();
    assert_eq!(widget.integrity, "sha512-real");
    assert_eq!(
        widget.resolved.as_deref(),
        Some("https://registry.npmjs.org/widget/-/widget-1.0.0.tgz")
    );
}

#[test]
fn npm_resolved_graph_errors_on_two_real_entries_that_disagree() {
    let lock = NpmLockfile::parse(
        r#"{
                "lockfileVersion": 3,
                "packages": {
                    "": { "name": "root" },
                    "node_modules/widget": {
                        "version": "1.0.0",
                        "resolved": "https://registry.npmjs.org/widget/-/widget-1.0.0.tgz",
                        "integrity": "sha512-aaa"
                    },
                    "packages/b/node_modules/widget": {
                        "version": "1.0.0",
                        "resolved": "https://internal-mirror.example/widget-1.0.0.tgz",
                        "integrity": "sha512-bbb"
                    }
                }
            }"#,
    )
    .unwrap();
    let err = lock.resolved_graph().unwrap_err();
    assert!(
        err.message().contains("widget"),
        "error should name the conflicting package: {err:?}"
    );
}

#[test]
fn npm_resolve_dependency_from_root_finds_hoisted_package() {
    let lock = NpmLockfile::parse(npm_fixture()).unwrap();
    let got = lock.resolve_dependency("", "lodash").unwrap();
    assert_eq!(
        got,
        DepResolution::ThirdParty {
            name: "lodash".to_string(),
            version: "4.17.21".to_string()
        }
    );
}

#[test]
fn npm_resolve_dependency_from_workspace_member_walks_up_to_root() {
    let lock = NpmLockfile::parse(npm_fixture()).unwrap();
    let got = lock.resolve_dependency("packages/a", "lodash").unwrap();
    assert!(matches!(got, DepResolution::ThirdParty { .. }));
}

#[test]
fn npm_resolve_dependency_link_is_workspace() {
    let lock = NpmLockfile::parse(npm_fixture()).unwrap();
    let got = lock.resolve_dependency("packages/a", "a").unwrap();
    assert_eq!(got, DepResolution::Workspace);
}

#[test]
fn npm_resolve_dependency_unknown_name_is_none() {
    let lock = NpmLockfile::parse(npm_fixture()).unwrap();
    assert_eq!(lock.resolve_dependency("", "not-a-real-pkg"), None);
}

fn pnpm_fixture() -> &'static str {
    r#"
lockfileVersion: '9.0'
importers:
  .:
    dependencies:
      lodash:
        specifier: ^4.17.21
        version: 4.17.21
  packages/a:
    dependencies:
      lodash:
        specifier: ^4.17.21
        version: 4.17.21
      b:
        specifier: workspace:*
        version: link:../b
packages:
  lodash@4.17.21:
    resolution: {integrity: sha512-abc}
  '@esbuild/darwin-arm64@0.19.0':
    resolution: {integrity: sha512-def}
    cpu: [arm64]
    os: [darwin]
    requiresBuild: true
snapshots:
  lodash@4.17.21: {}
  '@esbuild/darwin-arm64@0.19.0': {}
"#
}

#[test]
fn pnpm_requires_importers_section() {
    let err = PnpmLockfile::parse("lockfileVersion: '6.0'\npackages: {}\n").unwrap_err();
    assert!(err.message().contains("importers"));
}

#[test]
fn pnpm_resolved_graph_carries_integrity_and_platform() {
    let lock = PnpmLockfile::parse(pnpm_fixture()).unwrap();
    let graph = lock.resolved_graph().unwrap();
    assert!(graph.get("lodash", "4.17.21").is_some());
    let esbuild = graph.get("@esbuild/darwin-arm64", "0.19.0").unwrap();
    assert_eq!(esbuild.integrity, "sha512-def");
    assert_eq!(esbuild.os, vec!["darwin".to_string()]);
    assert_eq!(esbuild.cpu, vec!["arm64".to_string()]);
    assert!(esbuild.has_install_script);
}

#[test]
fn pnpm_resolved_graph_resolves_optional_dependencies_edges_separately_from_dependencies() {
    let lock = PnpmLockfile::parse(
        r#"
lockfileVersion: '9.0'
importers:
  .:
    dependencies:
      esbuild:
        specifier: ^0.25.12
        version: 0.25.12
packages:
  esbuild@0.25.12:
    resolution: {integrity: sha512-loader}
  left-pad@1.0.0:
    resolution: {integrity: sha512-leftpad}
  '@esbuild/linux-x64@0.25.12':
    resolution: {integrity: sha512-native}
    cpu: [x64]
    os: [linux]
snapshots:
  esbuild@0.25.12:
    dependencies:
      left-pad: 1.0.0
    optionalDependencies:
      '@esbuild/linux-x64': 0.25.12
  left-pad@1.0.0: {}
  '@esbuild/linux-x64@0.25.12': {}
"#,
    )
    .unwrap();
    let graph = lock.resolved_graph().unwrap();
    let esbuild = graph.get("esbuild", "0.25.12").unwrap();
    assert_eq!(
        esbuild.dependencies.get("left-pad").map(String::as_str),
        Some("left-pad@1.0.0"),
        "required dependencies must still resolve unaffected: {:?}",
        esbuild.dependencies
    );
    assert_eq!(
        esbuild
            .optional_dependencies
            .get("@esbuild/linux-x64")
            .map(String::as_str),
        Some("@esbuild/linux-x64@0.25.12"),
        "optionalDependencies must resolve into their own field: {:?}",
        esbuild.optional_dependencies
    );
    assert!(
        !esbuild.dependencies.contains_key("@esbuild/linux-x64"),
        "an optional edge must never leak into the required dependencies map"
    );
}

#[test]
fn pnpm_resolved_graph_prefers_real_entry_on_peer_suffix_collision() {
    let lock = PnpmLockfile::parse(
        r#"
lockfileVersion: '9.0'
importers:
  .:
    dependencies:
      widget:
        specifier: ^1.0.0
        version: 1.0.0
packages:
  widget@1.0.0(react@17.0.0):
    resolution: {}
  widget@1.0.0(react@18.0.0):
    resolution: {integrity: sha512-real}
snapshots:
  widget@1.0.0(react@17.0.0): {}
  widget@1.0.0(react@18.0.0): {}
"#,
    )
    .unwrap();
    let graph = lock.resolved_graph().unwrap();
    let widget = graph.get("widget", "1.0.0").unwrap();
    assert_eq!(widget.integrity, "sha512-real");
}

#[test]
fn pnpm_resolved_graph_prefers_real_entry_regardless_of_peer_suffix_sort_order() {
    let lock = PnpmLockfile::parse(
        r#"
lockfileVersion: '9.0'
importers:
  .:
    dependencies:
      widget:
        specifier: ^1.0.0
        version: 1.0.0
packages:
  widget@1.0.0(react@1.0.0):
    resolution: {integrity: sha512-real}
  widget@1.0.0(react@99.0.0):
    resolution: {}
snapshots:
  widget@1.0.0(react@1.0.0): {}
  widget@1.0.0(react@99.0.0): {}
"#,
    )
    .unwrap();
    let graph = lock.resolved_graph().unwrap();
    let widget = graph.get("widget", "1.0.0").unwrap();
    assert_eq!(widget.integrity, "sha512-real");
}

#[test]
fn pnpm_resolved_graph_errors_on_two_real_variants_that_disagree() {
    let lock = PnpmLockfile::parse(
        r#"
lockfileVersion: '9.0'
importers:
  .:
    dependencies:
      widget:
        specifier: ^1.0.0
        version: 1.0.0
packages:
  widget@1.0.0(react@17.0.0):
    resolution: {integrity: sha512-aaa}
  widget@1.0.0(react@18.0.0):
    resolution: {integrity: sha512-bbb}
snapshots:
  widget@1.0.0(react@17.0.0): {}
  widget@1.0.0(react@18.0.0): {}
"#,
    )
    .unwrap();
    let err = lock.resolved_graph().unwrap_err();
    assert!(
        err.message().contains("widget"),
        "error should name the conflicting package: {err:?}"
    );
}

#[test]
fn a_disagreement_names_what_both_entries_record() {
    let lock = NpmLockfile::parse(
        r#"{
                "lockfileVersion": 3,
                "packages": {
                    "": { "name": "root" },
                    "node_modules/widget": {
                        "version": "1.0.0",
                        "integrity": "sha512-aaa"
                    },
                    "packages/b/node_modules/widget": {
                        "version": "1.0.0",
                        "resolved": "https://internal-mirror.example/widget-1.0.0.tgz",
                        "integrity": "sha512-bbb"
                    }
                }
            }"#,
    )
    .unwrap();
    let err = lock.resolved_graph().unwrap_err();
    assert_eq!(err.at, "packages/b/node_modules/widget");
    assert_eq!(err.held_integrity, "sha512-aaa");
    assert_eq!(err.held_resolved, None);
    assert_eq!(err.integrity, "sha512-bbb");
    assert_eq!(
        err.message(),
        "widget@1.0.0 has two disagreeing entries within the same lockfile: one records \
         integrity `sha512-aaa` resolved from `-`, the one at `packages/b/node_modules/widget` \
         records integrity `sha512-bbb` resolved from \
         `https://internal-mirror.example/widget-1.0.0.tgz`. This is not a cross-project \
         ambiguity; the lockfile itself is inconsistent for this package; regenerate it"
    );
}

#[test]
fn pnpm_resolve_dependency_from_member_importer() {
    let lock = PnpmLockfile::parse(pnpm_fixture()).unwrap();
    let got = lock.resolve_dependency("packages/a", "lodash");
    assert_eq!(
        got,
        Some(DepResolution::ThirdParty {
            name: "lodash".to_string(),
            version: "4.17.21".to_string()
        })
    );
}

#[test]
fn pnpm_resolve_dependency_link_is_workspace() {
    let lock = PnpmLockfile::parse(pnpm_fixture()).unwrap();
    let got = lock.resolve_dependency("packages/a", "b");
    assert_eq!(got, Some(DepResolution::Workspace));
}

#[test]
fn pnpm_resolve_dependency_unknown_importer_is_none() {
    let lock = PnpmLockfile::parse(pnpm_fixture()).unwrap();
    assert_eq!(
        lock.resolve_dependency("packages/missing", "lodash"),
        None
    );
}

#[test]
fn split_pnpm_key_handles_scoped_and_peer_suffix() {
    assert_eq!(
        split_pnpm_key("@esbuild/darwin-arm64@0.19.0"),
        Some(("@esbuild/darwin-arm64".to_string(), "0.19.0".to_string()))
    );
    assert_eq!(
        split_pnpm_key("foo@1.2.3(react@18.0.0)"),
        Some(("foo".to_string(), "1.2.3".to_string()))
    );
}

#[test]
fn lockfile_parse_dispatches_by_pkgmanager() {
    let npm = Lockfile::parse(PkgManager::Npm, npm_fixture()).unwrap();
    assert!(matches!(npm, Lockfile::Npm(_)));
    let pnpm = Lockfile::parse(PkgManager::Pnpm, pnpm_fixture()).unwrap();
    assert!(matches!(pnpm, Lockfile::Pnpm(_)));
}

#[test]
fn lockfile_filename_matches_manager() {
    assert_eq!(Lockfile::filename(PkgManager::Npm), "package-lock.json");
    assert_eq!(Lockfile::filename(PkgManager::Pnpm), "pnpm-lock.yaml");
}

fn transitive_manifest() -> PackageManifest {
    PackageManifest {
        name: "a".to_string(),
        main: None,
        dependencies: StrMap::new(),
        dev_dependencies: one("typescript-eslint", "^8.0.0"),
        optional_dependencies: StrMap::new(),
        peer_dependencies: StrMap::new(),
    }
}

fn pnpm_transitive_fixture() -> &'static str {
    r#"
lockfileVersion: '9.0'
importers:
  packages/a:
    devDependencies:
      typescript-eslint:
        specifier: ^8.0.0
        version: 8.0.0
packages:
  typescript-eslint@8.0.0:
    resolution: {integrity: sha512-abc}
  '@eslint/js@9.0.0':
    resolution: {integrity: sha512-def}
  unrelated@1.0.0:
    resolution: {integrity: sha512-ghi}
snapshots:
  typescript-eslint@8.0.0:
    dependencies:
      '@eslint/js': 9.0.0
  '@eslint/js@9.0.0': {}
  unrelated@1.0.0: {}
"#
}

#[test]
fn pnpm_direct_lookup_does_not_see_a_transitive_name() {
    let lock = Lockfile::parse(PkgManager::Pnpm, pnpm_transitive_fixture()).unwrap();
    assert_eq!(
        lock.resolve_dependency("packages/a", "@eslint/js"),
        None,
        "pnpm's importers-only lookup must not find a name it never declared directly"
    );
}

#[test]
fn resolve_transitive_finds_a_pnpm_companion_package() {
    let lock = Lockfile::parse(PkgManager::Pnpm, pnpm_transitive_fixture()).unwrap();
    let graph = lock.resolved_graph().unwrap();
    let manifest = transitive_manifest();
    let got = resolve_transitive(
        &lock,
        &graph,
        "packages/a",
        &manifest,
        "@eslint/js",
        "linux",
        "amd64",
    )
    .unwrap()
    .expect("reachable through the declared typescript-eslint");
    assert_eq!(
        got,
        DepResolution::ThirdParty {
            name: "@eslint/js".to_string(),
            version: "9.0.0".to_string()
        }
    );
}

#[test]
fn resolve_transitive_does_not_find_an_unrelated_pnpm_package() {
    let lock = Lockfile::parse(PkgManager::Pnpm, pnpm_transitive_fixture()).unwrap();
    let graph = lock.resolved_graph().unwrap();
    let manifest = transitive_manifest();
    assert_eq!(
        resolve_transitive(
            &lock,
            &graph,
            "packages/a",
            &manifest,
            "unrelated",
            "linux",
            "amd64"
        )
        .unwrap(),
        None,
        "a package with no edge from anything `a` declares is still a genuine phantom, \
         not merely present somewhere in the lockfile"
    );
}

#[test]
fn resolve_transitive_prefers_the_direct_lookup_when_it_hits() {
    let lock = Lockfile::parse(PkgManager::Npm, npm_fixture()).unwrap();
    let graph = lock.resolved_graph().unwrap();
    let manifest = PackageManifest {
        name: "a".to_string(),
        main: None,
        dependencies: one("lodash", "^4.17.21"),
        dev_dependencies: StrMap::new(),
        optional_dependencies: StrMap::new(),
        peer_dependencies: StrMap::new(),
    };
    let got = resolve_transitive(
        &lock,
        &graph,
        "packages/a",
        &manifest,
        "lodash",
        "linux",
        "amd64",
    )
    .unwrap();
    assert_eq!(
        got,
        Some(DepResolution::ThirdParty {
            name: "lodash".to_string(),
            version: "4.17.21".to_string()
        })
    );
}

#[test]
fn transitive_reachable_walks_a_platform_matching_optional_dependency() {
    let lock = NpmLockfile::parse(
        r#"{
                "lockfileVersion": 3,
                "packages": {
                    "": { "name": "root" },
                    "node_modules/vite": {
                        "version": "6.0.0",
                        "integrity": "sha512-vite",
                        "dependencies": { "rolldown": "1.0.0" }
                    },
                    "node_modules/rolldown": {
                        "version": "1.0.0",
                        "integrity": "sha512-rolldown",
                        "optionalDependencies": {
                            "@rolldown/binding-linux-x64-gnu": "1.0.0",
                            "@rolldown/binding-darwin-arm64": "1.0.0"
                        }
                    },
                    "node_modules/@rolldown/binding-linux-x64-gnu": {
                        "version": "1.0.0",
                        "integrity": "sha512-linux",
                        "os": ["linux"],
                        "cpu": ["x64"]
                    },
                    "node_modules/@rolldown/binding-darwin-arm64": {
                        "version": "1.0.0",
                        "integrity": "sha512-darwin",
                        "os": ["darwin"],
                        "cpu": ["arm64"]
                    }
                }
            }"#,
    )
    .unwrap();
    let graph = lock.resolved_graph().unwrap();

    let reachable = graph
        .transitive_reachable(&vec![graph_key("vite", "6.0.0")], "linux", "amd64")
        .unwrap();
    let names: BTreeSet<&str> = reachable.iter().map(|e| e.name.as_str()).collect();

    assert!(names.contains("rolldown"), "{reachable:?}");
    assert!(
        names.contains("@rolldown/binding-linux-x64-gnu"),
        "the current-platform optional binding must be walked transitively, two hops past \
         the seed: {reachable:?}"
    );
    assert!(
        !names.contains("@rolldown/binding-darwin-arm64"),
        "an optional dependency restricted to a different platform must never be walked: \
         {reachable:?}"
    );
}

#[test]
fn transitive_reachable_skips_an_unresolvable_optional_dependency() {
    let lock = NpmLockfile::parse(
        r#"{
                "lockfileVersion": 3,
                "packages": {
                    "": { "name": "root" },
                    "node_modules/rolldown": {
                        "version": "1.0.0",
                        "integrity": "sha512-rolldown",
                        "optionalDependencies": { "missing-binding": "1.0.0" }
                    }
                }
            }"#,
    )
    .unwrap();
    let graph = lock.resolved_graph().unwrap();

    let reachable = graph
        .transitive_reachable(&vec![graph_key("rolldown", "1.0.0")], "linux", "amd64")
        .unwrap();
    let names: BTreeSet<&str> = reachable.iter().map(|e| e.name.as_str()).collect();

    assert!(names.contains("rolldown"), "{reachable:?}");
    assert!(
        !names.contains("missing-binding"),
        "an optional dependency absent from the lockfile entirely must be skipped, not \
         error: {reachable:?}"
    );
}

#[test]
fn transitive_reachable_nests_a_diamond_dependency_override_one_level() {
    let lock = NpmLockfile::parse(
        r#"{
                "lockfileVersion": 3,
                "packages": {
                    "": { "name": "root" },
                    "node_modules/other": {
                        "version": "1.0.0",
                        "integrity": "sha512-other",
                        "dependencies": { "estree-walker": "2.0.2" }
                    },
                    "node_modules/@module-federation/vite": {
                        "version": "1.0.0",
                        "integrity": "sha512-mfvite",
                        "dependencies": { "estree-walker": "3.0.3" }
                    },
                    "node_modules/@module-federation/vite/node_modules/estree-walker": {
                        "version": "3.0.3",
                        "integrity": "sha512-estree3"
                    },
                    "node_modules/estree-walker": {
                        "version": "2.0.2",
                        "integrity": "sha512-estree2"
                    }
                }
            }"#,
    )
    .unwrap();
    let graph = lock.resolved_graph().unwrap();

    let reachable = graph
        .transitive_reachable(
            &vec![
                graph_key("other", "1.0.0"),
                graph_key("@module-federation/vite", "1.0.0"),
            ],
            "linux",
            "amd64",
        )
        .unwrap();

    assert!(
        reachable.contains(&TransitiveEntry {
            name: "estree-walker".to_string(),
            version: "2.0.2".to_string(),
            nested_under: Vec::new(),
        }),
        "the flat default must stay 2.0.2: {reachable:?}"
    );
    assert!(
        reachable.contains(&TransitiveEntry {
            name: "estree-walker".to_string(),
            version: "3.0.3".to_string(),
            nested_under: vec!["@module-federation/vite".to_string()],
        }),
        "the override must be nested under @module-federation/vite's own placement: \
         {reachable:?}"
    );
}

#[test]
fn transitive_reachable_nests_the_same_override_under_two_different_parents() {
    let lock = NpmLockfile::parse(
        r#"{
                "lockfileVersion": 3,
                "packages": {
                    "": { "name": "root" },
                    "node_modules/root-consumer": {
                        "version": "1.0.0",
                        "integrity": "sha512-root",
                        "dependencies": { "shared": "1.0.0" }
                    },
                    "node_modules/consumer-a": {
                        "version": "1.0.0",
                        "integrity": "sha512-a",
                        "dependencies": { "shared": "2.0.0" }
                    },
                    "node_modules/consumer-b": {
                        "version": "1.0.0",
                        "integrity": "sha512-b",
                        "dependencies": { "shared": "2.0.0" }
                    },
                    "node_modules/consumer-a/node_modules/shared": {
                        "version": "2.0.0",
                        "integrity": "sha512-shared2"
                    },
                    "node_modules/consumer-b/node_modules/shared": {
                        "version": "2.0.0",
                        "integrity": "sha512-shared2"
                    },
                    "node_modules/shared": {
                        "version": "1.0.0",
                        "integrity": "sha512-shared1"
                    }
                }
            }"#,
    )
    .unwrap();
    let graph = lock.resolved_graph().unwrap();

    let reachable = graph
        .transitive_reachable(
            &vec![
                graph_key("root-consumer", "1.0.0"),
                graph_key("consumer-a", "1.0.0"),
                graph_key("consumer-b", "1.0.0"),
            ],
            "linux",
            "amd64",
        )
        .unwrap();

    assert!(
        reachable.contains(&TransitiveEntry {
            name: "shared".to_string(),
            version: "2.0.0".to_string(),
            nested_under: vec!["consumer-a".to_string()],
        }),
        "{reachable:?}"
    );
    assert!(
        reachable.contains(&TransitiveEntry {
            name: "shared".to_string(),
            version: "2.0.0".to_string(),
            nested_under: vec!["consumer-b".to_string()],
        }),
        "consumer-b's own identical-version override must not be dropped just because \
         consumer-a's was already recorded: {reachable:?}"
    );
}

#[test]
fn transitive_reachable_is_stable_across_repeated_calls_with_the_same_seed_order() {
    let lock = NpmLockfile::parse(
        r#"{
                "lockfileVersion": 3,
                "packages": {
                    "": { "name": "root" },
                    "node_modules/@module-federation/vite": {
                        "version": "1.0.0",
                        "integrity": "sha512-mfvite",
                        "dependencies": { "estree-walker": "3.0.3" }
                    },
                    "node_modules/@module-federation/vite/node_modules/estree-walker": {
                        "version": "3.0.3",
                        "integrity": "sha512-estree3"
                    },
                    "node_modules/other": {
                        "version": "1.0.0",
                        "integrity": "sha512-other",
                        "dependencies": { "estree-walker": "2.0.2" }
                    },
                    "node_modules/estree-walker": {
                        "version": "2.0.2",
                        "integrity": "sha512-estree2"
                    }
                }
            }"#,
    )
    .unwrap();
    let graph = lock.resolved_graph().unwrap();
    let seeds = vec![
        graph_key("@module-federation/vite", "1.0.0"),
        graph_key("other", "1.0.0"),
    ];

    let first = graph
        .transitive_reachable(&seeds, "linux", "amd64")
        .unwrap();
    let second = graph.transitive_reachable(&seeds, "linux", "amd64").unwrap();
    assert_eq!(first, second);
}

#[test]
fn transitive_reachable_skips_an_edge_whose_key_is_unresolvable_rather_than_panicking() {
    let lock = NpmLockfile::parse(
        r#"{
                "lockfileVersion": 3,
                "packages": {
                    "": { "name": "root" },
                    "node_modules/foo": {
                        "version": "1.0.0",
                        "integrity": "sha512-foo",
                        "dependencies": { "lodash": "npm:lodash-es@4.17.21" }
                    },
                    "node_modules/bar": {
                        "version": "1.0.0",
                        "integrity": "sha512-bar",
                        "dependencies": { "lodash": "4.17.20" }
                    },
                    "node_modules/bar/node_modules/lodash": {
                        "version": "4.17.20",
                        "integrity": "sha512-lodash4172"
                    },
                    "node_modules/lodash-es": {
                        "version": "4.17.21",
                        "integrity": "sha512-lodashes"
                    }
                }
            }"#,
    )
    .unwrap();
    let graph = lock.resolved_graph().unwrap();

    let reachable = graph
        .transitive_reachable(
            &vec![graph_key("bar", "1.0.0"), graph_key("foo", "1.0.0")],
            "linux",
            "amd64",
        )
        .expect("an unresolvable aliased edge must be skipped, never a panic");

    assert!(
        reachable.contains(&TransitiveEntry {
            name: "lodash".to_string(),
            version: "4.17.20".to_string(),
            nested_under: Vec::new(),
        }),
        "{reachable:?}"
    );
    assert!(
        !reachable
            .iter()
            .any(|e| e.nested_under == vec!["foo".to_string()]),
        "foo's own aliased-but-dangling edge must never become an override: {reachable:?}"
    );
}

#[test]
fn transitive_reachable_resolves_a_depth_two_diamond_dependency_chain() {
    let lock = NpmLockfile::parse(
        r#"{
                "lockfileVersion": 3,
                "packages": {
                    "": { "name": "root" },
                    "node_modules/other": {
                        "version": "1.0.0",
                        "integrity": "sha512-other",
                        "dependencies": {
                            "@netskope-ui/core": "12.2.2",
                            "@floating-ui/react": "0.27.19"
                        }
                    },
                    "node_modules/@netskope-ui/core": {
                        "version": "12.2.2",
                        "integrity": "sha512-core222"
                    },
                    "node_modules/@floating-ui/react": {
                        "version": "0.27.19",
                        "integrity": "sha512-floating02719"
                    },
                    "node_modules/consumer": {
                        "version": "1.0.0",
                        "integrity": "sha512-consumer",
                        "dependencies": { "@netskope-ui/core": "12.2.0" }
                    },
                    "node_modules/consumer/node_modules/@netskope-ui/core": {
                        "version": "12.2.0",
                        "integrity": "sha512-core220",
                        "dependencies": { "@floating-ui/react": "0.24.8" }
                    },
                    "node_modules/consumer/node_modules/@netskope-ui/core/node_modules/@floating-ui/react": {
                        "version": "0.24.8",
                        "integrity": "sha512-floating0248"
                    }
                }
            }"#,
    )
    .unwrap();
    let graph = lock.resolved_graph().unwrap();

    let reachable = graph
        .transitive_reachable(
            &vec![graph_key("other", "1.0.0"), graph_key("consumer", "1.0.0")],
            "linux",
            "amd64",
        )
        .expect("a depth-2 chain must resolve, not hard fail");

    assert!(
        reachable.contains(&TransitiveEntry {
            name: "@netskope-ui/core".to_string(),
            version: "12.2.2".to_string(),
            nested_under: Vec::new(),
        }),
        "the flat default must stay 12.2.2: {reachable:?}"
    );
    assert!(
        reachable.contains(&TransitiveEntry {
            name: "@netskope-ui/core".to_string(),
            version: "12.2.0".to_string(),
            nested_under: vec!["consumer".to_string()],
        }),
        "the override must be nested under consumer's own placement: {reachable:?}"
    );
    assert!(
        reachable.contains(&TransitiveEntry {
            name: "@floating-ui/react".to_string(),
            version: "0.27.19".to_string(),
            nested_under: Vec::new(),
        }),
        "the flat default must stay 0.27.19: {reachable:?}"
    );
    assert!(
        reachable.contains(&TransitiveEntry {
            name: "@floating-ui/react".to_string(),
            version: "0.24.8".to_string(),
            nested_under: vec!["consumer".to_string(), "@netskope-ui/core".to_string()],
        }),
        "the depth-2 override must be nested under consumer/node_modules/@netskope-ui/core's \
         own placement: {reachable:?}"
    );
}

#[test]
fn transitive_reachable_hard_fails_past_the_max_nesting_depth() {
    let lock = NpmLockfile::parse(
        r#"{
                "lockfileVersion": 3,
                "packages": {
                    "": { "name": "root" },
                    "node_modules/other": {
                        "version": "1.0.0",
                        "integrity": "sha512-other",
                        "dependencies": { "a": "1.0.0", "b": "1.0.0" }
                    },
                    "node_modules/a": {
                        "version": "1.0.0",
                        "integrity": "sha512-a1"
                    },
                    "node_modules/b": {
                        "version": "1.0.0",
                        "integrity": "sha512-b1"
                    },
                    "node_modules/consumer": {
                        "version": "1.0.0",
                        "integrity": "sha512-consumer",
                        "dependencies": { "a": "2.0.0" }
                    },
                    "node_modules/consumer/node_modules/a": {
                        "version": "2.0.0",
                        "integrity": "sha512-a2",
                        "dependencies": { "b": "2.0.0" }
                    },
                    "node_modules/consumer/node_modules/a/node_modules/b": {
                        "version": "2.0.0",
                        "integrity": "sha512-b2",
                        "dependencies": { "a": "2.0.0" }
                    }
                }
            }"#,
    )
    .unwrap();
    let graph = lock.resolved_graph().unwrap();

    let err = graph
        .transitive_reachable(
            &vec![graph_key("other", "1.0.0"), graph_key("consumer", "1.0.0")],
            "linux",
            "amd64",
        )
        .expect_err(
            "a@2.0.0 -> b@2.0.0 -> a@2.0.0 is a genuine cycle in the override relation and \
             must hit the depth cap, never loop forever",
        );
    assert!(err.message().contains("nesting limit"));
}

#[test]
fn a_text_that_is_no_lockfile_is_refused() {
    let err = NpmLockfile::parse("{").unwrap_err();
    assert!(matches!(err, LockfileError::NotADocument { .. }), "{err:?}");
    let err = NpmLockfile::parse(r#"{"packages": {"a": {"version": 3}}}"#).unwrap_err();
    assert!(matches!(err, LockfileError::BadShape), "{err:?}");
    let err = PnpmLockfile::parse("a: [").unwrap_err();
    assert!(matches!(err, LockfileError::NotADocument { .. }), "{err:?}");
    let err = PnpmLockfile::parse("importers:\n  .:\n    dependencies: 3\n").unwrap_err();
    assert!(matches!(err, LockfileError::BadShape), "{err:?}");
    let err = Lockfile::parse(PkgManager::Pnpm, "packages: {}\n").unwrap_err();
    assert!(matches!(err, LockfileError::NoImporters), "{err:?}");
}

fn package(version: &str, integrity: &str, resolved: Option<&str>) -> ResolvedPackage {
    ResolvedPackage {
        name: "p".to_string(),
        version: version.to_string(),
        integrity: integrity.to_string(),
        resolved: resolved.map(|s| s.to_string()),
        dependencies: StrMap::new(),
        optional_dependencies: StrMap::new(),
        os: Vec::new(),
        cpu: Vec::new(),
        has_install_script: false,
    }
}

#[test]
fn entries_agree_where_both_say_something() {
    let full = package("1", "sha512-a", Some("u"));
    assert!(entries_agree_where_comparable(&full, &package("1", "", None)));
    assert!(entries_agree_where_comparable(&full, &package("1", "sha512-a", Some("u"))));
    assert!(!entries_agree_where_comparable(&full, &package("1", "sha512-b", Some("u"))));
    assert!(!entries_agree_where_comparable(&package("1", "sha512-b", Some("u")), &full));
}

#[test]
fn the_seeds_themselves_are_placed() {
    let lock = NpmLockfile::parse(npm_fixture()).unwrap();
    let graph = lock.resolved_graph().unwrap();
    let seeds = vec![graph_key("lodash", "4.17.21"), "none@1.0.0".to_string()];
    let reachable = graph.transitive_reachable(&seeds, "linux", "amd64").unwrap();
    assert_eq!(
        reachable,
        vec![TransitiveEntry {
            name: "lodash".to_string(),
            version: "4.17.21".to_string(),
            nested_under: Vec::new(),
        }]
    );
}

#[test]
fn blank_sections_are_empty() {
    let err = PnpmLockfile::parse("").unwrap_err();
    assert!(matches!(err, LockfileError::NoImporters), "{err:?}");
    let err = PnpmLockfile::parse("importers:\n").unwrap_err();
    assert!(matches!(err, LockfileError::NoImporters), "{err:?}");
    let text = "importers:\n  .:\n    dependencies:\n      a:\n        version: 1.0.0\n\
                packages:\n  a@1.0.0:\n    resolution:\n    os:\nsnapshots:\n  a@1.0.0:\n";
    let lock = PnpmLockfile::parse(text).unwrap();
    let graph = lock.resolved_graph().unwrap();
    let a = graph.get("a", "1.0.0").unwrap();
    assert_eq!(a.integrity, "");
    assert!(a.os.is_empty());
    assert!(a.dependencies.is_empty());
    assert_eq!(lock.resolve_dependency("", "b"), None);
}

fn found_from<'a>(
    entries: &'a [TransitiveEntry],
    chain: &[String],
    name: &str,
) -> Option<&'a TransitiveEntry> {
    (0..=chain.len())
        .rev()
        .find_map(|d| entries.iter().find(|e| e.name == name && e.nested_under == chain[..d]))
}

#[test]
fn placed_packages_find_the_versions_that_the_lockfile_gives_them() {
    let lock = NpmLockfile::parse(
        r#"{
            "lockfileVersion": 3,
            "packages": {
                "": { "name": "root" },
                "node_modules/a": {
                    "version": "1.0.0",
                    "dependencies": { "b": "^1.0.0", "c": "^1.0.0" }
                },
                "node_modules/b": { "version": "2.0.0" },
                "node_modules/a/node_modules/b": {
                    "version": "1.0.0",
                    "dependencies": { "c": "^1.0.0" }
                },
                "node_modules/c": { "version": "1.0.0" }
            }
        }"#,
    )
    .unwrap();
    let graph = lock.resolved_graph().unwrap();
    let seeds = vec![graph_key("a", "1.0.0"), graph_key("b", "2.0.0")];
    let entries = graph.transitive_reachable(&seeds, "linux", "amd64").unwrap();
    for e in &entries {
        let package = graph.get(&e.name, &e.version).unwrap();
        let mut chain = e.nested_under.clone();
        chain.push(e.name.clone());
        for (name, key) in [("b", "b@1.0.0"), ("c", "c@1.0.0")] {
            if package.dependencies.contains_key(name) {
                let found = found_from(&entries, &chain, name).unwrap();
                assert_eq!(graph_key(&found.name, &found.version), key);
            }
        }
    }
    assert_eq!(found_from(&entries, &["a".to_string()], "b").unwrap().version, "1.0.0");
    assert_eq!(found_from(&entries, &[], "b").unwrap().version, "2.0.0");
}

#[test]
fn an_edge_that_the_lockfile_never_resolved_is_dropped() {
    let text = "importers:\n  .: {}\npackages:\n  a@1.0.0: {}\n  c@1.0.0(p@1.0.0): {}\n\
                snapshots:\n  a@1.0.0:\n    dependencies:\n      c: 1.0.0(p@2.0.0)\n      d: 1.0.0\n    \
                optionalDependencies:\n      b: 1.0.0\n";
    let graph = PnpmLockfile::parse(text).unwrap().resolved_graph().unwrap();
    let a = graph.get("a", "1.0.0").unwrap();
    assert!(!a.optional_dependencies.contains_key("b"));
    assert!(!a.dependencies.contains_key("d"));
    assert_eq!(a.dependencies.get("c").map(String::as_str), Some("c@1.0.0"));
}

#[test]
fn only_a_node_modules_directory_installs_packages() {
    let lock = NpmLockfile::parse(
        r#"{"packages": {
            "old_node_modules/x": {"version": "1.0.0"},
            "p/node_modules/y": {"version": "1.0.0"}
        }}"#,
    )
    .unwrap();
    let graph = lock.resolved_graph().unwrap();
    assert!(graph.get("x", "1.0.0").is_none());
    assert!(graph.get("y", "1.0.0").is_some());
}
