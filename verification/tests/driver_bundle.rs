use plugin_js::driver_bundle::JsBundleDriver;
use plugin_js::sorted::StrMap;
use plugin_js::target::{AddrList, ConfigValue, ParseRequest};
use plugin_js::driver::{DriverError, ToolExit};

fn driver() -> JsBundleDriver {
    JsBundleDriver::new()
}

fn config(extra: Vec<(&str, ConfigValue)>) -> StrMap<ConfigValue> {
    let mut c = StrMap::new();
    for (k, v) in [
        ("bundler", "esbuild"),
        ("bundler_bin", "/usr/bin/esbuild"),
        ("bundler_version", "0.19.2"),
        ("entry_file", "packages/a/src/index.ts"),
        ("format", "esm"),
        ("target", "node"),
        ("outdir", "packages/a/dist"),
        ("bundler_config_path", ""),
        ("bundler_config_content", ""),
        ("tsconfig_path", ""),
        ("tsconfig_content", ""),
    ] {
        c.insert(k.to_string(), ConfigValue::Text(v.to_string()));
    }
    for (k, v) in extra {
        c.insert(k.to_string(), v);
    }
    c
}

fn request(config: StrMap<ConfigValue>) -> ParseRequest {
    ParseRequest {
        addr: "//packages/a:js_bundle".to_string(),
        package: "packages/a".to_string(),
        labels: Vec::new(),
        config,
    }
}

fn make_parse_request(extra: Vec<(&str, ConfigValue)>) -> ParseRequest {
    request(config(extra))
}

#[test]
fn driver_name_is_js_bundle() {
    assert_eq!(driver().name(), "js_bundle");
}

#[test]
fn driver_bundle_parse_missing_required_field_errors() {
    assert!(driver().parse(&request(StrMap::new())).is_err());
}

#[test]
fn parse_rejects_unsupported_format() {
    let req = make_parse_request(vec![("format", ConfigValue::Text("umd".to_string()))]);
    let err = driver()
        .parse(&req)
        .err()
        .expect("an unsupported format must fail parse");
    assert!(err.message().contains("umd"));
}

#[test]
fn parse_rejects_unsupported_target() {
    let req = make_parse_request(vec![("target", ConfigValue::Text("deno".to_string()))]);
    let err = driver()
        .parse(&req)
        .err()
        .expect("an unsupported target must fail parse");
    assert!(err.message().contains("deno"));
}

#[test]
fn parse_accepts_cjs_and_browser() {
    let req = make_parse_request(vec![
        ("format", ConfigValue::Text("cjs".to_string())),
        ("target", ConfigValue::Text("browser".to_string())),
    ]);
    driver()
        .parse(&req)
        .expect("cjs/browser must be accepted");
}

#[test]
fn driver_bundle_parse_hash_stable_across_identical_parses() {
    let a = driver().parse(&make_parse_request(vec![])).unwrap();
    let b = driver().parse(&make_parse_request(vec![])).unwrap();
    assert_eq!(a.hash, b.hash);
}

#[test]
fn parse_hash_changes_when_bundler_version_changes() {
    let a = driver().parse(&make_parse_request(vec![])).unwrap();
    let b = driver()
        .parse(&make_parse_request(vec![("bundler_version", ConfigValue::Text("0.20.0".to_string()))]))
        .unwrap();
    assert_ne!(a.hash, b.hash);
}

#[test]
fn parse_hash_changes_between_esm_and_cjs() {
    let a = driver()
        .parse(&make_parse_request(vec![("format", ConfigValue::Text("esm".to_string()))]))
        .unwrap();
    let b = driver()
        .parse(&make_parse_request(vec![("format", ConfigValue::Text("cjs".to_string()))]))
        .unwrap();
    assert_ne!(
        a.hash, b.hash,
        "esm and cjs must produce different cache entries"
    );
}

#[test]
fn parse_hash_changes_between_node_and_browser() {
    let a = driver()
        .parse(&make_parse_request(vec![("target", ConfigValue::Text("node".to_string()))]))
        .unwrap();
    let b = driver()
        .parse(&make_parse_request(vec![("target", ConfigValue::Text("browser".to_string()))]))
        .unwrap();
    assert_ne!(
        a.hash, b.hash,
        "node and browser must produce different cache entries"
    );
}

#[test]
fn parse_hash_changes_when_bundler_config_content_changes() {
    let a = driver().parse(&make_parse_request(vec![])).unwrap();
    let b = driver()
        .parse(&make_parse_request(vec![(
                "bundler_config_content",
                ConfigValue::Text(r#"{"external":["react"]}"#.to_string()),
            )]))
        .unwrap();
    assert_ne!(a.hash, b.hash);
}

#[test]
fn parse_hash_changes_when_tsconfig_content_changes() {
    let a = driver().parse(&make_parse_request(vec![])).unwrap();
    let b = driver()
        .parse(&make_parse_request(vec![(
                "tsconfig_content",
                ConfigValue::Text(
                    r#"{"compilerOptions":{"paths":{"@app/*":["src/*"]}}}"#.to_string(),
                ),
            )]))
        .unwrap();
    assert_ne!(a.hash, b.hash);
}

#[test]
fn parse_hash_unaffected_by_bundler_bin_path_difference() {
    let a = driver().parse(&make_parse_request(vec![])).unwrap();
    let b = driver()
        .parse(&make_parse_request(vec![(
                "bundler_bin",
                ConfigValue::Text("/home/someone/project/node_modules/.bin/esbuild".to_string()),
            )]))
        .unwrap();
    assert_eq!(
        a.hash, b.hash,
        "a different host bundler path for the same effective toolchain must not bust the cache"
    );
}

#[test]
fn parse_declares_one_dir_output_and_caches_locally_and_remotely() {
    let resp = driver().parse(&make_parse_request(vec![])).unwrap();
    assert_eq!(resp.outputs.len(), 1);
    assert_eq!(resp.outputs[0].dir, "packages/a/dist");
    assert!(resp.cache.enabled);
    assert!(resp.cache.remote);
}

fn make_parse_request_with_deps(deps: Vec<(&str, Vec<&str>)>) -> ParseRequest {
    let mut c = config(vec![]);
    let mut table = StrMap::new();
    for (k, vs) in deps {
        let items = vs.into_iter().map(|v| v.to_string()).collect();
        table.insert(k.to_string(), AddrList { items });
    }
    c.insert("deps".to_string(), ConfigValue::Table(table));
    request(c)
}

#[test]
fn driver_bundle_parse_deps_become_target_dep_inputs_ordered_by_group() {
    let req = make_parse_request_with_deps(vec![
        (
            "external",
            vec!["//@heph/js/thirdparty/lodash@4.17.21:js_install@os=linux,arch=amd64"],
        ),
        ("", vec!["//@heph/fs:file@f=packages/a/src/index.ts"]),
        (
            "bundler_config",
            vec!["//@heph/fs:file@f=esbuild.config.json"],
        ),
    ]);
    let resp = driver().parse(&req).unwrap();
    let origin_ids: Vec<&str> = resp
        .inputs
        .iter()
        .map(|i| i.origin_id.as_str())
        .collect();
    assert_eq!(
        origin_ids,
        vec!["dep||0", "dep|bundler_config|0", "dep|external|0"]
    );
}

fn exit(success: bool, stdout: &str, stderr: &str) -> ToolExit {
    ToolExit {
        success,
        status: if success { "exit status: 0" } else { "exit status: 1" }.to_string(),
        stdout: stdout.to_string(),
        stderr: stderr.to_string(),
    }
}

fn text(s: &str) -> ConfigValue {
    ConfigValue::Text(s.to_string())
}

#[test]
fn the_order_of_the_external_packages_does_not_count() {
    let list = |names: &[&str]| ConfigValue::List(names.iter().map(|n| n.to_string()).collect());
    let a = driver()
        .parse(&make_parse_request(vec![("external", list(&["react", "lodash"]))]))
        .unwrap();
    let b = driver()
        .parse(&make_parse_request(vec![("external", list(&["lodash", "react"]))]))
        .unwrap();
    let c = driver()
        .parse(&make_parse_request(vec![("external", list(&["lodash"]))]))
        .unwrap();
    assert_eq!(a.hash, b.hash);
    assert_ne!(a.hash, c.hash);
}

#[test]
fn a_field_of_another_kind_is_refused() {
    let err = driver()
        .parse(&make_parse_request(vec![("outdir", ConfigValue::Flag(true))]))
        .unwrap_err();
    assert!(err.message().contains("outdir"), "{err:?}");
}

#[test]
fn the_bundler_is_called_with_the_entry_its_options_and_the_externals() {
    let list = ConfigValue::List(vec!["react".to_string(), "lodash".to_string()]);
    let target = driver()
        .parse(&make_parse_request(vec![
            ("external", list),
            ("tsconfig_path", text("packages/a/tsconfig.json")),
        ]))
        .unwrap();
    let args = driver().run_args(&target.def, "/sandbox/ws").unwrap();
    assert_eq!(
        args,
        vec![
            "/sandbox/ws/packages/a/src/index.ts",
            "--bundle",
            "--format=esm",
            "--platform=node",
            "--outdir=/sandbox/ws/packages/a/dist",
            "--tsconfig=/sandbox/ws/packages/a/tsconfig.json",
            "--external:lodash",
            "--external:react",
        ]
    );
}

#[test]
fn a_path_out_of_the_workspace_is_not_run() {
    for (field, path) in [
        ("entry_file", "../outside.ts"),
        ("entry_file", "/etc/passwd"),
        ("outdir", "packages/../../out"),
        ("tsconfig_path", "/tsconfig.json"),
    ] {
        let target = driver()
            .parse(&make_parse_request(vec![(field, text(path))]))
            .unwrap();
        let err = driver().run_args(&target.def, "/sandbox/ws").unwrap_err();
        assert!(matches!(err, DriverError::PathEscape { .. }), "{err:?}");
        assert!(err.message().contains(field), "{err:?}");
    }
}

#[test]
fn a_failed_bundle_says_what_the_bundler_wrote() {
    driver().check_exit(&exit(true, "done", "")).unwrap();
    let err = driver()
        .check_exit(&exit(false, "", "  error: could not resolve x\n"))
        .unwrap_err();
    assert_eq!(
        err.message,
        "js_bundle failed (exit status: 1):\nstderr:\nerror: could not resolve x"
    );
}
