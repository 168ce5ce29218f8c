use plugin_js::deps::{
    resolve_one_dependency, resolve_package_deps, resolve_transitive_closure, DepsError,
};
use plugin_js::lockfile::{Lockfile, PkgManager};
use plugin_js::package_json::PackageManifest;
use plugin_js::sorted::StrMap;
use plugin_js::thirdparty::node_modules_addr;

fn to_map(pairs: &[(&str, &str)]) -> StrMap<String> {
    let mut m = StrMap::new();
    for (k, v) in pairs {
        m.insert(k.to_string(), v.to_string());
    }
    m
}

fn manifest(
    deps: &[(&str, &str)],
    dev: &[(&str, &str)],
    optional: &[(&str, &str)],
) -> PackageManifest {
    let mut dependencies = to_map(deps);
    for (k, v) in optional {
        dependencies.insert_if_absent(k.to_string(), v.to_string());
    }
    PackageManifest {
        name: "a".to_string(),
        main: None,
        dependencies,
        dev_dependencies: to_map(dev),
        optional_dependencies: to_map(optional),
        peer_dependencies: StrMap::new(),
    }
}

fn npm_lockfile() -> Lockfile {
    Lockfile::parse(
        PkgManager::Npm,
        r#"{
                "packages": {
                    "": {},
                    "packages/a": { "name": "a" },
                    "node_modules/lodash": {
                        "version": "4.17.21",
                        "integrity": "sha512-abc"
                    }
                }
            }"#,
    )
    .unwrap()
}

#[test]
fn workspace_internal_dep_becomes_sibling_addr() {
    let manifest = manifest(&[("b", "workspace:*")], &[], &[]);
    let mut members = StrMap::new();
    members.insert("b".to_string(), "//packages/b:package_info".to_string());
    let deps = resolve_package_deps(
        "packages/a",
        "packages/a",
        &manifest,
        None,
        None,
        &members,
        "linux",
        "amd64",
    )
    .unwrap();
    assert_eq!(deps.len(), 1);
    assert_eq!(deps[0].addr, "//packages/b:package_info");
    assert_eq!(deps[0].group, "dependencies");
}

#[test]
fn third_party_dep_becomes_js_install_addr() {
    let manifest = manifest(&[("lodash", "^4.17.21")], &[], &[]);
    let lock = npm_lockfile();
    let graph = lock.resolved_graph().unwrap();
    let deps = resolve_package_deps(
        "packages/a",
        "packages/a",
        &manifest,
        Some(&lock),
        Some(&graph),
        &StrMap::new(),
        "linux",
        "amd64",
    )
    .unwrap();
    assert_eq!(deps.len(), 1);
    assert!(
        deps[0].addr.contains("@heph/js/node_modules"),
        "{}",
        deps[0].addr
    );
    assert!(deps[0].addr.contains("name=lodash"), "{}", deps[0].addr);
    assert!(deps[0].addr.contains("version=4.17.21"), "{}", deps[0].addr);
    assert!(deps[0].addr.contains("pkg=packages/a"), "{}", deps[0].addr);
    assert!(deps[0].addr.contains("goos=linux"), "{}", deps[0].addr);
}

fn transitive_npm_lockfile() -> Lockfile {
    Lockfile::parse(
        PkgManager::Npm,
        r#"{
                "packages": {
                    "": {},
                    "packages/a": { "name": "a" },
                    "node_modules/typescript-eslint": {
                        "version": "8.0.0",
                        "integrity": "sha512-abc",
                        "dependencies": { "@eslint/js": "9.0.0" }
                    },
                    "node_modules/@eslint/js": {
                        "version": "9.0.0",
                        "integrity": "sha512-def"
                    }
                }
            }"#,
    )
    .unwrap()
}

#[test]
fn resolve_one_dependency_falls_back_transitively_through_a_declared_dependency() {
    let manifest = manifest(&[], &[("typescript-eslint", "^8.0.0")], &[]);
    let lock = transitive_npm_lockfile();
    let graph = lock.resolved_graph().unwrap();
    let addr = resolve_one_dependency(
        "packages/a",
        "packages/a",
        "@eslint/js",
        &manifest,
        Some(&lock),
        Some(&graph),
        &StrMap::new(),
        "linux",
        "amd64",
    )
    .unwrap()
    .expect("transitively reachable through typescript-eslint");
    assert!(addr.contains("@heph/js/node_modules"), "{addr}");
    assert!(addr.contains("name=@eslint/js"), "{addr}");
    assert!(addr.contains("version=9.0.0"), "{addr}");
}

#[test]
fn resolve_one_dependency_does_not_transitively_resolve_an_unrelated_package() {
    let manifest = manifest(&[], &[("typescript-eslint", "^8.0.0")], &[]);
    let lock = Lockfile::parse(
        PkgManager::Pnpm,
        r#"
lockfileVersion: '9.0'
importers:
  packages/a:
    devDependencies:
      typescript-eslint:
        specifier: ^8.0.0
        version: 8.0.0
packages:
  typescript-eslint@8.0.0:
    resolution: {integrity: sha512-abc}
  '@eslint/js@9.0.0':
    resolution: {integrity: sha512-def}
  unrelated@1.0.0:
    resolution: {integrity: sha512-ghi}
snapshots:
  typescript-eslint@8.0.0:
    dependencies:
      '@eslint/js': 9.0.0
  '@eslint/js@9.0.0': {}
  unrelated@1.0.0: {}
"#,
    )
    .unwrap();
    let graph = lock.resolved_graph().unwrap();
    let err = resolve_one_dependency(
        "packages/a",
        "packages/a",
        "unrelated",
        &manifest,
        Some(&lock),
        Some(&graph),
        &StrMap::new(),
        "linux",
        "amd64",
    )
    .unwrap_err();
    assert!(err.message().contains("unrelated"), "{err:?}");
}

#[test]
fn missing_required_dep_resolution_is_a_hard_error() {
    let manifest = manifest(&[("not-in-lockfile", "^1.0.0")], &[], &[]);
    let lock = npm_lockfile();
    let graph = lock.resolved_graph().unwrap();
    let err = resolve_package_deps(
        "packages/a",
        "packages/a",
        &manifest,
        Some(&lock),
        Some(&graph),
        &StrMap::new(),
        "linux",
        "amd64",
    )
    .unwrap_err();
    assert!(err.message().contains("not-in-lockfile"));
}

#[test]
fn missing_optional_dep_resolution_is_silently_skipped() {
    let manifest = manifest(&[], &[], &[("fsevents", "^2.3.0")]);
    let lock = npm_lockfile();
    let graph = lock.resolved_graph().unwrap();
    let deps = resolve_package_deps(
        "packages/a",
        "packages/a",
        &manifest,
        Some(&lock),
        Some(&graph),
        &StrMap::new(),
        "linux",
        "amd64",
    )
    .unwrap();
    assert!(deps.is_empty());
}

#[test]
fn no_lockfile_but_required_deps_declared_is_an_error() {
    let manifest = manifest(&[("lodash", "^4.17.21")], &[], &[]);
    resolve_package_deps(
        "packages/a",
        "packages/a",
        &manifest,
        None,
        None,
        &StrMap::new(),
        "linux",
        "amd64",
    )
    .unwrap_err();
}

fn npm_lockfile_with_platform_restricted_pkg() -> Lockfile {
    Lockfile::parse(
        PkgManager::Npm,
        r#"{
                "packages": {
                    "": {},
                    "packages/a": { "name": "a" },
                    "node_modules/native-thing": {
                        "version": "1.0.0",
                        "integrity": "sha512-xyz",
                        "os": ["darwin"],
                        "cpu": ["arm64"]
                    }
                }
            }"#,
    )
    .unwrap()
}

#[test]
fn platform_mismatched_optional_dep_is_silently_skipped_even_when_lockfile_resolved() {
    let manifest = manifest(&[], &[], &[("native-thing", "^1.0.0")]);
    let lock = npm_lockfile_with_platform_restricted_pkg();
    let graph = lock.resolved_graph().unwrap();
    let deps = resolve_package_deps(
        "packages/a",
        "packages/a",
        &manifest,
        Some(&lock),
        Some(&graph),
        &StrMap::new(),
        "linux",
        "amd64",
    )
    .unwrap();
    assert!(
        deps.is_empty(),
        "platform-mismatched optional dep must not be wired at all: {deps:?}"
    );
}

#[test]
fn platform_mismatched_required_dep_is_a_hard_error() {
    let manifest = manifest(&[("native-thing", "^1.0.0")], &[], &[]);
    let lock = npm_lockfile_with_platform_restricted_pkg();
    let graph = lock.resolved_graph().unwrap();
    let err = resolve_package_deps(
        "packages/a",
        "packages/a",
        &manifest,
        Some(&lock),
        Some(&graph),
        &StrMap::new(),
        "linux",
        "amd64",
    )
    .unwrap_err();
    let msg = err.message();
    assert!(msg.contains("native-thing"), "{msg}");
    assert!(msg.contains("darwin"), "{msg}");
    assert!(msg.starts_with("\"packages/a\": "), "{msg}");
    assert!(msg.ends_with("the current platform linux/amd64"), "{msg}");
}

#[test]
fn the_transitive_closure_lists_the_addresses_in_order_of_name() {
    let manifest = manifest(&[], &[("typescript-eslint", "^8.0.0")], &[]);
    let lock = transitive_npm_lockfile();
    let graph = lock.resolved_graph().unwrap();
    let found = resolve_transitive_closure(
        "packages/a",
        "packages/a",
        &manifest,
        &lock,
        &graph,
        "linux",
        "amd64",
    )
    .unwrap();
    assert_eq!(
        found,
        vec![
            node_modules_addr("packages/a", "@eslint/js", "@eslint/js", "9.0.0", "linux", "amd64"),
            "//@heph/js/node_modules:group@goarch=amd64,goos=linux,name=typescript-eslint,\
             pkg=packages/a,resolved=typescript-eslint,version=8.0.0"
                .to_string(),
        ]
    );
}

#[test]
fn a_link_to_an_unknown_member_is_an_error() {
    let manifest = manifest(&[("b", "workspace:*")], &[], &[]);
    let lock = Lockfile::parse(
        PkgManager::Npm,
        r#"{"packages": {"": {}, "node_modules/b": {"resolved": "packages/b", "link": true}}}"#,
    )
    .unwrap();
    let graph = lock.resolved_graph().unwrap();
    let err = resolve_package_deps(
        "packages/a",
        "packages/a",
        &manifest,
        Some(&lock),
        Some(&graph),
        &StrMap::new(),
        "linux",
        "amd64",
    )
    .unwrap_err();
    assert!(matches!(err, DepsError::WorkspaceLink { .. }), "{err:?}");
}

#[test]
fn addresses_of_different_packages_differ() {
    let addr = |name: &str, version: &str| {
        node_modules_addr("p", name, name, version, "linux", "amd64")
    };
    assert_eq!(
        addr("a", "1"),
        "//@heph/js/node_modules:group@goarch=amd64,goos=linux,name=a,pkg=p,resolved=a,version=1"
    );
    assert_eq!(
        addr("a,pkg=p", "\\\""),
        "//@heph/js/node_modules:group@goarch=amd64,goos=linux,name=\"a,pkg=p\",pkg=p,\
         resolved=\"a,pkg=p\",version=\"\\\\\\\"\""
    );
    let long = "a,pkg=p,resolved=a,version=";
    assert_ne!(addr("a", ",pkg=p"), addr(long, ""));
    assert_ne!(addr("\"a\"", "1"), addr("a", "1"));
}
