use plugin_js::driver_typecheck::JsTypecheckDriver;
use plugin_js::sorted::StrMap;
use plugin_js::target::{AddrList, ConfigValue, ParseRequest};
use plugin_js::driver::{DriverError, ToolExit};
use plugin_js::target::StagedInput;

fn driver() -> JsTypecheckDriver {
    JsTypecheckDriver::new()
}

fn config(extra: Vec<(&str, ConfigValue)>) -> StrMap<ConfigValue> {
    let mut c = StrMap::new();
    for (k, v) in [
        ("tsc_bin", "/usr/bin/tsc"),
        ("tsc_version", "Version 5.6.2"),
        ("tsconfig_path", "packages/a/tsconfig.json"),
        ("tsconfig_content", "{}"),
    ] {
        c.insert(k.to_string(), ConfigValue::Text(v.to_string()));
    }
    for (k, v) in extra {
        c.insert(k.to_string(), v);
    }
    c
}

fn request(config: StrMap<ConfigValue>) -> ParseRequest {
    ParseRequest {
        addr: "//packages/a:js_typecheck".to_string(),
        package: "packages/a".to_string(),
        labels: Vec::new(),
        config,
    }
}

fn make_parse_request(extra: Vec<(&str, ConfigValue)>) -> ParseRequest {
    request(config(extra))
}

#[test]
fn driver_name_is_js_typecheck() {
    assert_eq!(driver().name(), "js_typecheck");
}

#[test]
fn driver_typecheck_parse_missing_required_field_errors() {
    assert!(driver().parse(&request(StrMap::new())).is_err());
}

#[test]
fn driver_typecheck_parse_hash_stable_across_identical_parses() {
    let a = driver().parse(&make_parse_request(vec![])).unwrap();
    let b = driver().parse(&make_parse_request(vec![])).unwrap();
    assert_eq!(a.hash, b.hash);
}

#[test]
fn parse_hash_changes_when_tsc_version_changes() {
    let a = driver().parse(&make_parse_request(vec![])).unwrap();
    let b = driver()
        .parse(&make_parse_request(vec![("tsc_version", ConfigValue::Text("Version 5.7.0".to_string()))]))
        .unwrap();
    assert_ne!(a.hash, b.hash);
}

#[test]
fn parse_hash_changes_when_tsconfig_content_changes_and_stable_when_not() {
    let a = driver().parse(&make_parse_request(vec![])).unwrap();
    let b = driver().parse(&make_parse_request(vec![])).unwrap();
    assert_eq!(
        a.hash, b.hash,
        "identical tsconfig content must hash identically"
    );

    let c = driver()
        .parse(&make_parse_request(vec![(
                "tsconfig_content",
                ConfigValue::Text(r#"{"compilerOptions":{"strict":true}}"#.to_string()),
            )]))
        .unwrap();
    assert_ne!(
        a.hash, c.hash,
        "a changed tsconfig content must change the cache key"
    );
}

#[test]
fn parse_hash_unaffected_by_tsc_bin_path_difference() {
    let a = driver().parse(&make_parse_request(vec![])).unwrap();
    let b = driver()
        .parse(&make_parse_request(vec![(
                "tsc_bin",
                ConfigValue::Text("/home/someone/project/node_modules/.bin/tsc".to_string()),
            )]))
        .unwrap();
    assert_eq!(
        a.hash, b.hash,
        "a different host tsc path for the same effective toolchain must not bust the cache"
    );
}

#[test]
fn driver_typecheck_parse_no_outputs_and_caches_locally_and_remotely() {
    let resp = driver().parse(&make_parse_request(vec![])).unwrap();
    assert!(resp.outputs.is_empty());
    assert!(resp.cache.enabled);
    assert!(resp.cache.remote);
}

fn make_parse_request_with_deps(deps: Vec<(&str, Vec<&str>)>) -> ParseRequest {
    let mut c = config(vec![]);
    let mut table = StrMap::new();
    for (k, vs) in deps {
        let items = vs.into_iter().map(|v| v.to_string()).collect();
        table.insert(k.to_string(), AddrList { items });
    }
    c.insert("deps".to_string(), ConfigValue::Table(table));
    request(c)
}

#[test]
fn driver_typecheck_parse_deps_become_target_dep_inputs_ordered_by_group() {
    let req = make_parse_request_with_deps(vec![
        ("types", vec!["//@heph/fs:file@f=packages/b/index.d.ts"]),
        ("", vec!["//@heph/fs:file@f=packages/a/src/index.ts"]),
        (
            "tsconfig",
            vec!["//@heph/fs:file@f=packages/a/tsconfig.json"],
        ),
    ]);
    let resp = driver().parse(&req).unwrap();
    let origin_ids: Vec<&str> = resp
        .inputs
        .iter()
        .map(|i| i.origin_id.as_str())
        .collect();
    assert_eq!(origin_ids, vec!["dep||0", "dep|tsconfig|0", "dep|types|0"]);
}

fn exit(success: bool, stdout: &str, stderr: &str) -> ToolExit {
    ToolExit {
        success,
        status: if success { "exit status: 0" } else { "exit status: 1" }.to_string(),
        stdout: stdout.to_string(),
        stderr: stderr.to_string(),
    }
}

fn staged(origin_id: &str, list: &str) -> StagedInput {
    StagedInput { origin_id: origin_id.to_string(), list: Some(list.to_string()) }
}

#[test]
fn the_type_checker_is_called_with_the_project_or_with_the_files() {
    let with_project = driver().parse(&make_parse_request(vec![])).unwrap();
    let inputs = vec![staged("dep||0", "/sandbox/ws/a.ts\n")];
    assert_eq!(
        driver().run_args("//p:t", &with_project.def, "/sandbox/ws", &inputs).unwrap(),
        vec!["--noEmit", "--project", "/sandbox/ws/packages/a/tsconfig.json"]
    );
    let without = driver()
        .parse(&make_parse_request(vec![(
            "tsconfig_path",
            ConfigValue::Text(String::new()),
        )]))
        .unwrap();
    assert_eq!(
        driver().run_args("//p:t", &without.def, "/sandbox/ws", &inputs).unwrap(),
        vec!["--noEmit", "/sandbox/ws/a.ts"]
    );
    let err = driver()
        .run_args("//p:t", &without.def, "/sandbox/ws", &Vec::new())
        .unwrap_err();
    assert!(matches!(err, DriverError::NothingToCheck { .. }), "{err:?}");
    assert!(err.message().contains("//p:t"), "{err:?}");
}

#[test]
fn a_failed_check_says_what_the_type_checker_wrote() {
    driver().check_exit(&exit(true, "", "")).unwrap();
    let err = driver().check_exit(&exit(false, "a.ts(1,7): error TS2322", "")).unwrap_err();
    assert_eq!(
        err.message,
        "tsc failed (exit status: 1):\nstdout:\na.ts(1,7): error TS2322"
    );
}
