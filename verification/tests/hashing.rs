use plugin_js::driver_bundle::JsBundleDef;
use plugin_js::driver_install::JsInstallDef;
use plugin_js::driver_lint::JsLintDef;
use plugin_js::driver_test::JsTestDef;
use plugin_js::driver_typecheck::JsTypecheckDef;
use plugin_js::hashing::{hash_of, push_flag, push_list, push_number, push_text, push_texts, to_hex};
use std::hash::{Hash, Hasher};
use xxhash_rust::xxh3::Xxh3Default;

#[test]
fn values_are_fed_like_std_hash_feeds_them() {
    let mut out = Vec::new();
    push_text(&mut out, "aé");
    assert_eq!(out, vec![b'a', 0xc3, 0xa9, 0xff]);
    let mut out = Vec::new();
    push_number(&mut out, 0x0102, 8);
    assert_eq!(out, vec![2, 1, 0, 0, 0, 0, 0, 0]);
    let mut out = Vec::new();
    push_flag(&mut out, true);
    push_flag(&mut out, false);
    assert_eq!(out, vec![1, 0]);
    let mut out = Vec::new();
    push_list(&mut out, &vec!["a".to_string(), "b".to_string()]);
    assert_eq!(out, vec![2, 0, 0, 0, 0, 0, 0, 0, b'a', 0xff, b'b', 0xff]);
    let mut out = Vec::new();
    push_texts(&mut out, &["x", ""]);
    assert_eq!(out, vec![b'x', 0xff, 0xff]);
}

#[test]
fn a_hash_is_spelled_with_lower_case_digits() {
    for n in [0, 9, 0xab, 0x1234_5678_9abc_def0, u64::MAX] {
        assert_eq!(to_hex(n), format!("{n:x}"));
    }
    assert_eq!(to_hex(0xab), "ab");
}

#[test]
fn the_hash_is_that_of_xxh3() {
    assert_eq!(hash_of(&Vec::new()), "2d06800538d394c2");
    let bytes = b"plugin".to_vec();
    assert_eq!(hash_of(&bytes), format!("{:x}", xxhash_rust::xxh3::xxh3_64(&bytes)));
}

fn hashed(feed: impl Fn(&mut Xxh3Default)) -> String {
    let mut hasher = Xxh3Default::new();
    feed(&mut hasher);
    format!("{:x}", hasher.finish())
}

#[test]
fn an_install_hashes_all_that_it_is_made_of() {
    let def = JsInstallDef {
        name: "lodash".to_string(),
        version: "4.17.21".to_string(),
        integrity: "sha512-abc".to_string(),
        resolved: "https://registry.npmjs.org/lodash.tgz".to_string(),
        os: "linux".to_string(),
        arch: "amd64".to_string(),
        has_install_script: true,
        scripts_allowed: false,
    };
    let expected = hashed(|h| {
        1u32.hash(h);
        def.name.hash(h);
        def.version.hash(h);
        def.integrity.hash(h);
        def.resolved.hash(h);
        def.os.hash(h);
        def.arch.hash(h);
        def.has_install_script.hash(h);
        def.scripts_allowed.hash(h);
    });
    assert_eq!(def.hash(), expected);
}

#[test]
fn a_bundle_hashes_all_but_the_path_of_the_bundler() {
    let def = JsBundleDef {
        bundler: "esbuild".to_string(),
        bundler_version: "0.19.2".to_string(),
        entry_file: "packages/a/src/index.ts".to_string(),
        format: "esm".to_string(),
        target: "node".to_string(),
        outdir: "packages/a/dist".to_string(),
        bundler_config_path: "c".to_string(),
        bundler_config_content: "{}".to_string(),
        external: vec!["lodash".to_string(), "react".to_string()],
        tsconfig_path: "t".to_string(),
        tsconfig_content: String::new(),
        bundler_bin: "/usr/bin/esbuild".to_string(),
    };
    let expected = hashed(|h| {
        1u32.hash(h);
        def.bundler.hash(h);
        def.bundler_version.hash(h);
        def.entry_file.hash(h);
        def.format.hash(h);
        def.target.hash(h);
        def.outdir.hash(h);
        def.bundler_config_path.hash(h);
        def.bundler_config_content.hash(h);
        def.external.hash(h);
        def.tsconfig_path.hash(h);
        def.tsconfig_content.hash(h);
    });
    assert_eq!(def.hash(), expected);
}

#[test]
fn a_check_a_lint_and_a_test_hash_all_but_the_path_of_their_tool() {
    let s = |text: &str| text.to_string();
    let def = JsTypecheckDef {
        tsc_version: s("Version 5.6.2"),
        tsconfig_path: s("tsconfig.json"),
        tsconfig_content: s("{}"),
        tsc_bin: s("/usr/bin/tsc"),
    };
    let expected = hashed(|h| {
        1u32.hash(h);
        def.tsc_version.hash(h);
        def.tsconfig_path.hash(h);
        def.tsconfig_content.hash(h);
    });
    assert_eq!(def.hash(), expected);
    let def = JsLintDef {
        linter: s("oxlint"),
        linter_version: s("0.15.0"),
        config_path: s(".oxlintrc.json"),
        config_content: s("{}"),
        tsconfig_path: s(""),
        tsconfig_content: s(""),
        linter_bin: s("/usr/bin/oxlint"),
    };
    let expected = hashed(|h| {
        1u32.hash(h);
        def.linter.hash(h);
        def.linter_version.hash(h);
        def.config_path.hash(h);
        def.config_content.hash(h);
        def.tsconfig_path.hash(h);
        def.tsconfig_content.hash(h);
    });
    assert_eq!(def.hash(), expected);
    let def = JsTestDef {
        testrunner: s("vitest"),
        runner_version: s("vitest/1.6.0"),
        test_file: s("a.test.ts"),
        runner_config_path: s(""),
        runner_config_content: s(""),
        runner_bin: s("/usr/bin/vitest"),
    };
    let expected = hashed(|h| {
        2u32.hash(h);
        def.testrunner.hash(h);
        def.runner_version.hash(h);
        def.test_file.hash(h);
        def.runner_config_path.hash(h);
        def.runner_config_content.hash(h);
    });
    assert_eq!(def.hash(), expected);
}
