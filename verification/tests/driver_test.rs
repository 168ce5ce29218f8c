use plugin_js::driver_test::JsTestDriver;
use plugin_js::sorted::StrMap;
use plugin_js::target::{AddrList, ConfigValue, ParseRequest};
use plugin_js::driver::DriverError;
use plugin_js::driver_test::RESULT_FILE_NAME;
use plugin_js::output::test_failure_detail;

fn driver() -> JsTestDriver {
    JsTestDriver::new()
}

fn config(extra: Vec<(&str, ConfigValue)>) -> StrMap<ConfigValue> {
    let mut c = StrMap::new();
    for (k, v) in [
        ("testrunner", "vitest"),
        ("runner_bin", "/usr/bin/vitest"),
        ("runner_version", "vitest/1.6.0"),
        ("test_file", "packages/a/src/index.test.ts"),
        ("runner_config_path", ""),
        ("runner_config_content", ""),
    ] {
        c.insert(k.to_string(), ConfigValue::Text(v.to_string()));
    }
    for (k, v) in extra {
        c.insert(k.to_string(), v);
    }
    c
}

fn request(config: StrMap<ConfigValue>) -> ParseRequest {
    ParseRequest {
        addr: "//packages/a:js_test".to_string(),
        package: "packages/a".to_string(),
        labels: Vec::new(),
        config,
    }
}

fn make_parse_request(extra: Vec<(&str, ConfigValue)>) -> ParseRequest {
    request(config(extra))
}

#[test]
fn driver_name_is_js_test() {
    assert_eq!(driver().name(), "js_test");
}

#[test]
fn driver_test_parse_missing_required_field_errors() {
    assert!(driver().parse(&request(StrMap::new())).is_err());
}

#[test]
fn parse_rejects_unsupported_testrunner() {
    let req = make_parse_request(vec![("testrunner", ConfigValue::Text("mocha".to_string()))]);
    let err = driver()
        .parse(&req)
        .err()
        .expect("an unsupported testrunner must fail parse");
    assert!(err.message().contains("mocha"));
}

#[test]
fn parse_accepts_jest_as_well_as_vitest() {
    let req = make_parse_request(vec![("testrunner", ConfigValue::Text("jest".to_string()))]);
    driver()
        .parse(&req)
        .expect("jest must be accepted");
}

#[test]
fn driver_test_parse_hash_stable_across_identical_parses() {
    let a = driver().parse(&make_parse_request(vec![])).unwrap();
    let b = driver().parse(&make_parse_request(vec![])).unwrap();
    assert_eq!(a.hash, b.hash);
}

#[test]
fn parse_hash_changes_when_runner_version_changes() {
    let a = driver().parse(&make_parse_request(vec![])).unwrap();
    let b = driver()
        .parse(&make_parse_request(vec![(
                "runner_version",
                ConfigValue::Text("vitest/2.0.0".to_string()),
            )]))
        .unwrap();
    assert_ne!(a.hash, b.hash);
}

#[test]
fn parse_hash_changes_when_test_file_changes() {
    let a = driver().parse(&make_parse_request(vec![])).unwrap();
    let b = driver()
        .parse(&make_parse_request(vec![(
                "test_file",
                ConfigValue::Text("packages/a/src/other.test.ts".to_string()),
            )]))
        .unwrap();
    assert_ne!(a.hash, b.hash);
}

#[test]
fn parse_hash_changes_when_runner_config_content_changes() {
    let a = driver().parse(&make_parse_request(vec![])).unwrap();
    let b = driver()
        .parse(&make_parse_request(vec![(
                "runner_config_content",
                ConfigValue::Text("export default { test: {} };".to_string()),
            )]))
        .unwrap();
    assert_ne!(a.hash, b.hash);
}

#[test]
fn parse_hash_unaffected_by_runner_bin_path_difference() {
    let a = driver().parse(&make_parse_request(vec![])).unwrap();
    let b = driver()
        .parse(&make_parse_request(vec![(
                "runner_bin",
                ConfigValue::Text("/home/someone/project/node_modules/.bin/vitest".to_string()),
            )]))
        .unwrap();
    assert_eq!(
        a.hash, b.hash,
        "a different host runner path for the same effective toolchain must not bust the cache"
    );
}

#[test]
fn driver_test_parse_no_outputs_and_caches_locally_and_remotely() {
    let resp = driver().parse(&make_parse_request(vec![])).unwrap();
    assert!(resp.outputs.is_empty());
    assert!(resp.cache.enabled);
    assert!(resp.cache.remote);
}

fn make_parse_request_with_deps(deps: Vec<(&str, Vec<&str>)>) -> ParseRequest {
    let mut c = config(vec![]);
    let mut table = StrMap::new();
    for (k, vs) in deps {
        let items = vs.into_iter().map(|v| v.to_string()).collect();
        table.insert(k.to_string(), AddrList { items });
    }
    c.insert("deps".to_string(), ConfigValue::Table(table));
    request(c)
}

#[test]
fn driver_test_parse_deps_become_target_dep_inputs_ordered_by_group() {
    let req = make_parse_request_with_deps(vec![
        (
            "external",
            vec!["//@heph/fs:file@f=packages/b/src/index.ts"],
        ),
        ("", vec!["//@heph/fs:file@f=packages/a/src/index.test.ts"]),
        ("runner_config", vec!["//@heph/fs:file@f=vitest.config.ts"]),
    ]);
    let resp = driver().parse(&req).unwrap();
    let origin_ids: Vec<&str> = resp
        .inputs
        .iter()
        .map(|i| i.origin_id.as_str())
        .collect();
    assert_eq!(
        origin_ids,
        vec!["dep||0", "dep|external|0", "dep|runner_config|0"]
    );
}

#[test]
fn run_sets_ci_1_in_the_runners_environment() {
    let env = driver().run_env(Some("/usr/bin"));
    let pairs: Vec<(&str, &str)> = env.iter().map(|(k, v)| (k.as_str(), v.as_str())).collect();
    assert_eq!(
        pairs,
        vec![("PATH", "/usr/bin"), ("TZ", "UTC"), ("LANG", "C.UTF-8"), ("CI", "1")]
    );
    assert_eq!(driver().run_env(None).len(), 3);
}

#[test]
fn vitest_is_called_to_run_once_and_to_report() {
    assert_eq!(RESULT_FILE_NAME, ".heph-js-test-result.json");
    assert_eq!(
        JsTestDriver::new().report_path("/sandbox/ws/packages/a"),
        "/sandbox/ws/packages/a/.heph-js-test-result.json"
    );
    let parsed = driver()
        .parse(&make_parse_request(vec![(
            "runner_config_path",
            ConfigValue::Text("vitest.config.ts".to_string()),
        )]))
        .unwrap();
    assert_eq!(
        driver().run_args(&parsed.def, "/sandbox/ws", "/sandbox/ws/packages/a").unwrap(),
        vec![
            "run",
            "--config",
            "/sandbox/ws/vitest.config.ts",
            "--reporter=default",
            "--reporter=json",
            "--outputFile=/sandbox/ws/packages/a/.heph-js-test-result.json",
            "/sandbox/ws/packages/a/src/index.test.ts",
        ]
    );
}

#[test]
fn jest_is_called_with_the_path_of_the_test() {
    let parsed = driver()
        .parse(&make_parse_request(vec![(
            "testrunner",
            ConfigValue::Text("jest".to_string()),
        )]))
        .unwrap();
    assert_eq!(
        driver().run_args(&parsed.def, "/sandbox/ws", "/sandbox/ws/packages/a").unwrap(),
        vec![
            "--json",
            "--outputFile=/sandbox/ws/packages/a/.heph-js-test-result.json",
            "--runTestsByPath",
            "/sandbox/ws/packages/a/src/index.test.ts",
        ]
    );
}

#[test]
fn a_test_out_of_the_workspace_is_not_run() {
    let parsed = driver()
        .parse(&make_parse_request(vec![(
            "test_file",
            ConfigValue::Text("../secret.test.ts".to_string()),
        )]))
        .unwrap();
    let err = driver().run_args(&parsed.def, "/sandbox/ws", "/sandbox/ws/a").unwrap_err();
    assert!(matches!(err, DriverError::PathEscape { .. }), "{err:?}");
}

#[test]
fn an_unknown_runner_is_not_run() {
    let mut parsed = driver().parse(&make_parse_request(vec![])).unwrap();
    parsed.def.testrunner = "mocha".to_string();
    let err = driver().run_args(&parsed.def, "/sandbox/ws", "/sandbox/ws/a").unwrap_err();
    assert!(matches!(err, DriverError::Unsupported { .. }), "{err:?}");
}

#[test]
fn test_failure_detail_keeps_the_leading_exception_past_a_long_stack_dump() {
    let mut stderr = String::from("Error: Failed to resolve entry for package\n");
    for i in 0..80 {
        stderr.push_str(&format!(
            "    {{\n      method: 'frame{i}',\n      file: 'f{i}.js',\n      line: {i},\n      column: 3\n    }},\n"
        ));
    }
    let detail = test_failure_detail("", &stderr);
    assert!(
        detail.contains("Error: Failed to resolve entry for package"),
        "{detail}"
    );
    assert!(detail.contains("lines omitted"), "{detail}");
}
