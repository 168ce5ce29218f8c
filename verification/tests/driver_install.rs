use plugin_js::driver_install::{
    check_script_exit, ensure_extraction_parent_is_safe, lifecycle_scripts, place_entry,
    strip_tarball_root, validate_inside_dest, verify_hashes, verify_integrity, ExtractError,
    IntegrityError, JsInstallDriver, ParentStep, Placement,
};
use plugin_js::sorted::{StrMap, StrSet};
use plugin_js::target::{ConfigValue, ParseRequest};
use plugin_js::driver::ToolExit;
use plugin_js::path::key_of_path;

fn driver() -> JsInstallDriver {
    JsInstallDriver::new()
}

fn config(extra: Vec<(&str, ConfigValue)>) -> StrMap<ConfigValue> {
    let mut c = StrMap::new();
    for (k, v) in [
        ("name", "lodash"),
        ("version", "4.17.21"),
        ("integrity", "sha512-abc"),
        ("resolved", "https://registry.npmjs.org/lodash/-/lodash-4.17.21.tgz"),
        ("os", "linux"),
        ("arch", "amd64"),
    ] {
        c.insert(k.to_string(), ConfigValue::Text(v.to_string()));
    }
    for (k, v) in extra {
        c.insert(k.to_string(), v);
    }
    c
}

fn request(config: StrMap<ConfigValue>) -> ParseRequest {
    ParseRequest {
        addr: "//@heph/js/thirdparty/lodash@4.17.21:js_install".to_string(),
        package: "@heph/js/thirdparty/lodash@4.17.21".to_string(),
        labels: Vec::new(),
        config,
    }
}

fn make_parse_request(extra: Vec<(&str, ConfigValue)>) -> ParseRequest {
    request(config(extra))
}

#[test]
fn driver_name_is_js_install() {
    assert_eq!(driver().name(), "js_install");
}

#[test]
fn driver_install_parse_missing_required_field_errors() {
    assert!(driver().parse(&request(StrMap::new())).is_err());
}

#[test]
fn parse_unallowlisted_install_script_fails_loudly_naming_package() {
    let req = make_parse_request(vec![("has_install_script", ConfigValue::Flag(true))]);
    let err = driver()
        .parse(&req)
        .err()
        .expect("unallowlisted install script must fail parse");
    let msg = err.message();
    assert!(msg.contains("lodash"), "must name the package: {msg}");
    assert!(
        msg.contains("allow_scripts"),
        "must point at the fix: {msg}"
    );
}

#[test]
fn parse_allowlisted_install_script_succeeds() {
    let req = make_parse_request(vec![
        ("has_install_script", ConfigValue::Flag(true)),
        ("scripts_allowed", ConfigValue::Flag(true)),
    ]);
    driver().parse(&req).unwrap();
}

#[test]
fn parse_no_install_script_needs_no_allowlisting() {
    let req = make_parse_request(vec![]);
    driver().parse(&req).unwrap();
}

#[test]
fn parse_hash_changes_when_integrity_changes() {
    let resp_a = driver().parse(&make_parse_request(vec![])).unwrap();
    let resp_b = driver()
        .parse(&make_parse_request(vec![("integrity", ConfigValue::Text("sha512-different".to_string()))]))
        .unwrap();
    assert_ne!(resp_a.hash, resp_b.hash);
}

#[test]
fn driver_install_parse_hash_stable_across_identical_parses() {
    let resp_a = driver().parse(&make_parse_request(vec![])).unwrap();
    let resp_b = driver().parse(&make_parse_request(vec![])).unwrap();
    assert_eq!(resp_a.hash, resp_b.hash);
}

#[test]
fn parse_hash_changes_per_platform() {
    let resp_linux = driver().parse(&make_parse_request(vec![])).unwrap();
    let resp_darwin = driver()
        .parse(&make_parse_request(vec![
                ("os", ConfigValue::Text("darwin".to_string())),
                ("arch", ConfigValue::Text("arm64".to_string())),
            ]))
        .unwrap();
    assert_ne!(resp_linux.hash, resp_darwin.hash);
}

#[test]
fn parse_declares_no_inputs_and_one_dir_output() {
    let resp = driver().parse(&make_parse_request(vec![])).unwrap();
    assert!(resp.inputs.is_empty());
    assert_eq!(resp.outputs.len(), 1);
    assert_eq!(resp.outputs[0].dir, "@heph/js/thirdparty/lodash@4.17.21");
}

#[test]
fn parse_caches_locally_and_remotely() {
    let resp = driver().parse(&make_parse_request(vec![])).unwrap();
    assert!(resp.cache.enabled);
    assert!(resp.cache.remote);
}

#[test]
fn parse_disables_all_caching_when_an_allowlisted_script_will_run() {
    let req = make_parse_request(vec![
        ("has_install_script", ConfigValue::Flag(true)),
        ("scripts_allowed", ConfigValue::Flag(true)),
    ]);
    let resp = driver().parse(&req).unwrap();
    assert!(
        !resp.cache.enabled,
        "must not cache locally either: a same-machine toolchain change wouldn't bust this hash"
    );
    assert!(!resp.cache.remote);
}

#[test]
fn parse_still_caches_when_allowlisted_but_no_install_script() {
    let req = make_parse_request(vec![("scripts_allowed", ConfigValue::Flag(true))]);
    let resp = driver().parse(&req).unwrap();
    assert!(resp.cache.enabled);
    assert!(resp.cache.remote);
}

#[test]
fn parse_hash_unaffected_by_preemptive_allowlisting_without_install_script() {
    let resp_a = driver().parse(&make_parse_request(vec![])).unwrap();
    let resp_b = driver()
        .parse(&make_parse_request(vec![("scripts_allowed", ConfigValue::Flag(true))]))
        .unwrap();
    assert_eq!(
        resp_a.hash, resp_b.hash,
        "allow-listing a package before it ever declares an install script must not change \
         its cache key"
    );
}

fn sri(bytes: &[u8]) -> String {
    let digest = <sha2::Sha512 as sha2::Digest>::digest(bytes);
    let b64 = base64::Engine::encode(&base64::engine::general_purpose::STANDARD, digest);
    format!("sha512-{b64}")
}

#[test]
fn verify_integrity_accepts_matching_sha512() {
    let bytes = b"hello world".to_vec();
    verify_integrity(&bytes, &sri(&bytes)).unwrap();
}

#[test]
fn verify_integrity_rejects_mismatch() {
    let bytes = b"hello world".to_vec();
    let err = verify_integrity(&bytes, "sha512-not-the-real-hash").unwrap_err();
    assert!(err.message().contains("integrity mismatch"));
}

#[test]
fn verify_integrity_rejects_unrecognized_algorithm_only() {
    let err = verify_integrity(&b"x".to_vec(), "md5-abc").unwrap_err();
    assert!(err.message().contains("no recognized integrity algorithm"));
}

#[test]
fn strip_tarball_root_rejects_path_traversal() {
    let err = strip_tarball_root("package/../../etc/passwd").unwrap_err();
    assert!(err.message().contains("escapes"), "{err:?}");
}

#[test]
fn strip_tarball_root_strips_leading_component() {
    let rel = strip_tarball_root("package/lib/index.js")
        .expect("strip")
        .expect("non-empty");
    assert_eq!(rel, "lib/index.js");
}

#[test]
fn strip_tarball_root_top_level_entry_is_none() {
    assert!(strip_tarball_root("package").expect("strip").is_none());
}

#[test]
fn one_recorded_hash_of_a_known_kind_has_to_hold() {
    verify_integrity(&b"abc".to_vec(), "sha1-qZk+NkcGgWq6PiVxeFDCbJzQ2J0=").unwrap();
    let both = format!("sha1-qZk+NkcGgWq6PiVxeFDCbJzQ2J0= {}", sri(b"abc"));
    verify_integrity(&b"abc".to_vec(), &both).unwrap();
    let one_wrong = format!("{} sha1-AAAA", sri(b"abc"));
    verify_integrity(&b"abc".to_vec(), &one_wrong).unwrap();
    let wrong_first = format!("sha1-AAAA {}", sri(b"abc"));
    verify_integrity(&b"abc".to_vec(), &wrong_first).unwrap();
    verify_integrity(&b"abc".to_vec(), &format!("md5-x {}", sri(b"abc"))).unwrap();
    let err = verify_integrity(&b"abc".to_vec(), "md5-x sha1-AAAA sha512-BBBB").unwrap_err();
    assert!(
        matches!(
            &err,
            IntegrityError::Mismatch { algorithm, expected, .. }
                if algorithm == "sha1" && expected == "AAAA"
        ),
        "{err:?}"
    );
}

#[test]
fn the_hashes_are_compared_as_they_are_spelled() {
    verify_hashes("sha512-AAA", "AAA", "BBB").unwrap();
    verify_hashes("sha1-BBB", "AAA", "BBB").unwrap();
    let err = verify_hashes("sha512-BBB", "AAA", "BBB").unwrap_err();
    assert!(matches!(err, IntegrityError::Mismatch { .. }), "{err:?}");
    let err = verify_hashes("", "AAA", "BBB").unwrap_err();
    assert!(matches!(err, IntegrityError::NoAlgorithm { .. }), "{err:?}");
}

#[test]
fn an_entry_goes_below_the_destination() {
    let placed = place_entry("/out", "package/lib/index.js", false).unwrap();
    assert!(
        matches!(
            &placed,
            Placement::Unpacked { dest, parent }
                if dest == "/out/lib/index.js" && parent.as_deref() == Some("/out/lib")
        ),
        "{placed:?}"
    );
    let placed = place_entry("/out", "package/lib/", true).unwrap();
    assert!(
        matches!(
            &placed,
            Placement::Directory { dest, parent }
                if dest == "/out/lib" && parent.as_deref() == Some("/out")
        ),
        "{placed:?}"
    );
    assert!(matches!(place_entry("/out", "package", true).unwrap(), Placement::Skipped));
    assert!(place_entry("/out", "package/../../x", false).is_err());
}

#[test]
fn a_missing_parent_is_created_from_the_top_and_checked_on_the_way() {
    let mut there = StrSet::new();
    for path in ["/", "/out"] {
        there.insert(key_of_path(path));
    }
    let steps: Vec<String> = ensure_extraction_parent_is_safe("/out/a/b", &there)
        .into_iter()
        .map(|s| match s {
            ParentStep::Check { path } => format!("check {path}"),
            ParentStep::Create { path } => format!("create {path}"),
        })
        .collect();
    assert_eq!(
        steps,
        vec!["check /out", "create /out/a", "check /out/a", "create /out/a/b", "check /out/a/b"]
    );
    let steps = ensure_extraction_parent_is_safe("/out", &there);
    assert_eq!(steps.len(), 1);
}

#[test]
fn a_directory_that_leads_out_is_refused() {
    validate_inside_dest("/out", "/out/a", Some("/out"), Some("/out/a")).unwrap();
    let err = validate_inside_dest("/out", "/out/evil", Some("/out"), Some("/elsewhere"))
        .unwrap_err();
    assert!(err.message().contains("escapes"), "{err:?}");
    let err = validate_inside_dest("/out", "/out/evil", Some("/out"), Some("/outer")).unwrap_err();
    assert!(matches!(err, ExtractError::Outside { .. }), "{err:?}");
    let err = validate_inside_dest("/out", "/out/a", Some("/out"), None).unwrap_err();
    assert!(matches!(err, ExtractError::Unknown { .. }), "{err:?}");
}

fn scripts(text: &str) -> Vec<(String, String)> {
    lifecycle_scripts(Some(text)).unwrap()
}

#[test]
fn run_lifecycle_scripts_no_package_json_is_a_noop() {
    assert!(lifecycle_scripts(None).unwrap().is_empty());
}

#[test]
fn run_lifecycle_scripts_no_scripts_key_is_a_noop() {
    assert!(scripts(r#"{"name": "pkg"}"#).is_empty());
}

#[test]
fn the_scripts_of_an_install_come_in_order() {
    let found = scripts(
        r#"{"name": "pkg", "scripts": {
            "postinstall": "echo post >> order.txt",
            "test": "no",
            "install": "echo install >> order.txt",
            "preinstall": "echo pre >> order.txt"
        }}"#,
    );
    let names: Vec<&str> = found.iter().map(|(k, _)| k.as_str()).collect();
    assert_eq!(names, vec!["preinstall", "install", "postinstall"]);
    assert_eq!(found[0].1, "echo pre >> order.txt");
    assert!(lifecycle_scripts(Some("not json")).is_err());
}

#[test]
fn a_failed_script_is_named_with_what_it_wrote() {
    let exit = ToolExit {
        success: false,
        status: "exit status: 7".to_string(),
        stdout: "building-native-thing".to_string(),
        stderr: "compiler-error".to_string(),
    };
    let err = check_script_exit("postinstall", "native-thing", &exit).unwrap_err();
    for part in ["postinstall", "native-thing", "building-native-thing", "compiler-error", "7"] {
        assert!(err.message.contains(part), "{err:?}");
    }
    let exit = ToolExit { success: true, ..exit };
    check_script_exit("postinstall", "native-thing", &exit).unwrap();
}

#[test]
fn a_tarball_is_verified_when_a_hash_is_recorded() {
    let with = driver().parse(&make_parse_request(vec![])).unwrap();
    assert!(with.def.verifies());
    assert!(!with.def.runs_scripts());
    let without = driver()
        .parse(&make_parse_request(vec![("integrity", ConfigValue::Text(String::new()))]))
        .unwrap();
    assert!(!without.def.verifies());
}
