use plugin_js::driver_lint::JsLintDriver;
use plugin_js::sorted::StrMap;
use plugin_js::target::{AddrList, ConfigValue, ParseRequest};
use plugin_js::driver::ToolExit;
use plugin_js::target::StagedInput;

fn driver() -> JsLintDriver {
    JsLintDriver::new()
}

fn config(extra: Vec<(&str, ConfigValue)>) -> StrMap<ConfigValue> {
    let mut c = StrMap::new();
    for (k, v) in [
        ("linter", "oxlint"),
        ("linter_bin", "/usr/bin/oxlint"),
        ("linter_version", "0.15.0"),
        ("config_path", "packages/a/.oxlintrc.json"),
        ("config_content", "{}"),
        ("tsconfig_path", ""),
        ("tsconfig_content", ""),
    ] {
        c.insert(k.to_string(), ConfigValue::Text(v.to_string()));
    }
    for (k, v) in extra {
        c.insert(k.to_string(), v);
    }
    c
}

fn request(config: StrMap<ConfigValue>) -> ParseRequest {
    ParseRequest {
        addr: "//packages/a:js_lint".to_string(),
        package: "packages/a".to_string(),
        labels: Vec::new(),
        config,
    }
}

fn make_parse_request(extra: Vec<(&str, ConfigValue)>) -> ParseRequest {
    request(config(extra))
}

#[test]
fn driver_name_is_js_lint() {
    assert_eq!(driver().name(), "js_lint");
}

#[test]
fn driver_lint_parse_missing_required_field_errors() {
    assert!(driver().parse(&request(StrMap::new())).is_err());
}

#[test]
fn driver_lint_parse_hash_stable_across_identical_parses() {
    let a = driver().parse(&make_parse_request(vec![])).unwrap();
    let b = driver().parse(&make_parse_request(vec![])).unwrap();
    assert_eq!(a.hash, b.hash);
}

#[test]
fn parse_hash_changes_when_linter_version_changes() {
    let a = driver().parse(&make_parse_request(vec![])).unwrap();
    let b = driver()
        .parse(&make_parse_request(vec![("linter_version", ConfigValue::Text("0.16.0".to_string()))]))
        .unwrap();
    assert_ne!(a.hash, b.hash);
}

#[test]
fn parse_hash_changes_when_config_content_changes_and_stable_when_not() {
    let a = driver().parse(&make_parse_request(vec![])).unwrap();
    let b = driver().parse(&make_parse_request(vec![])).unwrap();
    assert_eq!(
        a.hash, b.hash,
        "identical config content must hash identically"
    );

    let c = driver()
        .parse(&make_parse_request(vec![(
                "config_content",
                ConfigValue::Text(r#"{"rules":{"no-console":"error"}}"#.to_string()),
            )]))
        .unwrap();
    assert_ne!(
        a.hash, c.hash,
        "a changed lint config content must change the cache key"
    );
}

#[test]
fn parse_hash_changes_when_eslint_tsconfig_content_changes() {
    let base = vec![
        ("linter", ConfigValue::Text("eslint".to_string())),
        (
            "tsconfig_path",
            ConfigValue::Text("packages/a/tsconfig.json".to_string()),
        ),
        (
            "tsconfig_content",
            ConfigValue::Text(r#"{"compilerOptions":{}}"#.to_string()),
        ),
    ];
    let a = driver().parse(&make_parse_request(base)).unwrap();
    let b = driver()
        .parse(&make_parse_request(vec![
                ("linter", ConfigValue::Text("eslint".to_string())),
                (
                    "tsconfig_path",
                    ConfigValue::Text("packages/a/tsconfig.json".to_string()),
                ),
                (
                    "tsconfig_content",
                    ConfigValue::Text(
                        r#"{"compilerOptions":{}}\n{"compilerOptions":{"strict":true}}"#
                            .to_string(),
                    ),
                ),
            ]))
        .unwrap();
    assert_ne!(
        a.hash, b.hash,
        "an eslint type-aware tsconfig extends-chain content change must bust the cache"
    );
}

#[test]
fn parse_hash_unaffected_by_linter_bin_path_difference() {
    let a = driver().parse(&make_parse_request(vec![])).unwrap();
    let b = driver()
        .parse(&make_parse_request(vec![(
                "linter_bin",
                ConfigValue::Text("/home/someone/project/node_modules/.bin/oxlint".to_string()),
            )]))
        .unwrap();
    assert_eq!(
        a.hash, b.hash,
        "a different host linter path for the same effective toolchain must not bust the cache"
    );
}

#[test]
fn driver_lint_parse_no_outputs_and_caches_locally_and_remotely() {
    let resp = driver().parse(&make_parse_request(vec![])).unwrap();
    assert!(resp.outputs.is_empty());
    assert!(resp.cache.enabled);
    assert!(resp.cache.remote);
}

fn make_parse_request_with_deps(deps: Vec<(&str, Vec<&str>)>) -> ParseRequest {
    let mut c = config(vec![]);
    let mut table = StrMap::new();
    for (k, vs) in deps {
        let items = vs.into_iter().map(|v| v.to_string()).collect();
        table.insert(k.to_string(), AddrList { items });
    }
    c.insert("deps".to_string(), ConfigValue::Table(table));
    request(c)
}

#[test]
fn driver_lint_parse_deps_become_target_dep_inputs_ordered_by_group() {
    let req = make_parse_request_with_deps(vec![
        (
            "eslint_plugins",
            vec!["//@heph/js/thirdparty/eslint-plugin-react@1.0.0:js_install"],
        ),
        ("", vec!["//@heph/fs:file@f=packages/a/src/index.ts"]),
        (
            "config",
            vec!["//@heph/fs:file@f=packages/a/.oxlintrc.json"],
        ),
    ]);
    let resp = driver().parse(&req).unwrap();
    let origin_ids: Vec<&str> = resp
        .inputs
        .iter()
        .map(|i| i.origin_id.as_str())
        .collect();
    assert_eq!(
        origin_ids,
        vec!["dep||0", "dep|config|0", "dep|eslint_plugins|0"]
    );
}

fn exit(success: bool, stdout: &str, stderr: &str) -> ToolExit {
    ToolExit {
        success,
        status: if success { "exit status: 0" } else { "exit status: 1" }.to_string(),
        stdout: stdout.to_string(),
        stderr: stderr.to_string(),
    }
}

#[test]
fn run_noops_successfully_when_no_source_files_staged() {
    let parsed = driver().parse(&make_parse_request(vec![])).unwrap();
    assert!(driver().run_args(&parsed.def, "/sandbox/ws", &Vec::new()).is_none());
}

fn staged(origin_id: &str, list: Option<&str>) -> StagedInput {
    StagedInput { origin_id: origin_id.to_string(), list: list.map(|s| s.to_string()) }
}

#[test]
fn the_linter_is_called_with_its_configuration_and_the_files_of_the_package() {
    let parsed = driver().parse(&make_parse_request(vec![])).unwrap();
    let inputs = vec![
        staged("dep||0", Some("/sandbox/ws/a.ts\r\n\n/sandbox/ws/b.ts\n")),
        staged("dep|config|0", Some("/sandbox/ws/packages/a/.oxlintrc.json\n")),
        staged("dep||1", None),
        staged("dep||2", Some("/sandbox/ws/c.ts")),
    ];
    assert_eq!(
        driver().run_args(&parsed.def, "/sandbox/ws", &inputs).unwrap(),
        vec![
            "-c",
            "/sandbox/ws/packages/a/.oxlintrc.json",
            "/sandbox/ws/a.ts",
            "/sandbox/ws/b.ts",
            "/sandbox/ws/c.ts",
        ]
    );
}

#[test]
fn a_failed_lint_says_what_the_linter_wrote() {
    driver().check_exit(&exit(true, "", "")).unwrap();
    let err = driver().check_exit(&exit(false, "no-console\n", "warned")).unwrap_err();
    assert_eq!(
        err.message,
        "lint failed (exit status: 1):\nstdout:\nno-console\nstderr:\nwarned"
    );
}
