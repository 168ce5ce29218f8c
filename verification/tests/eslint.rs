use plugin_js::eslint::{
    detect_eslint_type_aware, eslint_module_name, extract_eslint_module_refs,
    extract_eslint_relative_ref_values, resolve_eslint_config_referenced_files,
    EslintProjectOption, EslintRefKind,
};
use plugin_js::tree::FileTree;
use std::path::PathBuf;

#[test]
fn detect_eslint_type_aware_none_when_no_project_key() {
    let result = detect_eslint_type_aware(
        "eslint.config.js",
        "export default [{ rules: { semi: 'error' } }];",
    );
    assert_eq!(result, Vec::new());
}

#[test]
fn detect_eslint_type_aware_flat_config_string_project() {
    let content = r#"
            export default [
              {
                languageOptions: {
                  parserOptions: {
                    project: './tsconfig.json',
                  },
                },
              },
            ];
        "#;
    let result =
        detect_eslint_type_aware("eslint.config.js", content);
    assert_eq!(
        result,
        vec![EslintProjectOption::Paths(vec![
            "./tsconfig.json".to_string()
        ])]
    );
}

#[test]
fn detect_eslint_type_aware_flat_config_boolean_project_is_auto_detect() {
    let content = r#"
            export default [
              { languageOptions: { parserOptions: { project: true } } },
            ];
        "#;
    let result =
        detect_eslint_type_aware("eslint.config.js", content);
    assert_eq!(result, vec![EslintProjectOption::AutoDetect]);
}

#[test]
fn detect_eslint_type_aware_flat_config_array_of_projects() {
    let content = r#"
            export default [
              {
                languageOptions: {
                  parserOptions: { project: ['./tsconfig.json', './tsconfig.test.json'] },
                },
              },
            ];
        "#;
    let result =
        detect_eslint_type_aware("eslint.config.js", content);
    assert_eq!(
        result,
        vec![EslintProjectOption::Paths(vec![
            "./tsconfig.json".to_string(),
            "./tsconfig.test.json".to_string()
        ])]
    );
}

#[test]
fn detect_eslint_type_aware_flat_config_multiple_entries_all_collected() {
    let content = r#"
            export default [
              { files: ['src/**/*.ts'], languageOptions: { parserOptions: { project: './tsconfig.json' } } },
              { files: ['test/**/*.ts'], languageOptions: { parserOptions: { project: './tsconfig.test.json' } } },
            ];
        "#;
    let result =
        detect_eslint_type_aware("eslint.config.js", content);
    assert_eq!(
        result,
        vec![
            EslintProjectOption::Paths(vec!["./tsconfig.json".to_string()]),
            EslintProjectOption::Paths(vec!["./tsconfig.test.json".to_string()]),
        ],
        "both override blocks' own `parserOptions.project` must be collected: {result:?}"
    );
}

#[test]
fn detect_eslint_type_aware_legacy_json_config() {
    let content = r#"{
            "parserOptions": { "project": "./tsconfig.json" },
            "extends": ["eslint:recommended"]
        }"#;
    let result =
        detect_eslint_type_aware(".eslintrc.json", content);
    assert_eq!(
        result,
        vec![EslintProjectOption::Paths(vec![
            "./tsconfig.json".to_string()
        ])]
    );
}

#[test]
fn detect_eslint_type_aware_legacy_yaml_config() {
    let content = "parserOptions:\n  project: ./tsconfig.json\n";
    let result =
        detect_eslint_type_aware(".eslintrc.yaml", content);
    assert_eq!(
        result,
        vec![EslintProjectOption::Paths(vec![
            "./tsconfig.json".to_string()
        ])]
    );
}

#[test]
fn detect_eslint_type_aware_legacy_json_no_project_is_none() {
    let content = r#"{ "extends": ["eslint:recommended"] }"#;
    let result =
        detect_eslint_type_aware(".eslintrc.json", content);
    assert_eq!(result, Vec::new());
}

#[test]
fn eslint_module_name_maps_bare_extends_to_eslint_config_prefix() {
    assert_eq!(
        eslint_module_name("airbnb", EslintRefKind::Extends),
        "eslint-config-airbnb"
    );
}

#[test]
fn eslint_module_name_leaves_already_prefixed_extends_alone() {
    assert_eq!(
        eslint_module_name("eslint-config-airbnb", EslintRefKind::Extends),
        "eslint-config-airbnb"
    );
}

#[test]
fn eslint_module_name_maps_bare_plugin_to_eslint_plugin_prefix() {
    assert_eq!(
        eslint_module_name("react", EslintRefKind::Plugin),
        "eslint-plugin-react"
    );
}

#[test]
fn eslint_module_name_resolves_plugin_colon_extends_shorthand() {
    assert_eq!(
        eslint_module_name("plugin:react/recommended", EslintRefKind::Extends),
        "eslint-plugin-react"
    );
}

#[test]
fn eslint_module_name_maps_scoped_extends_and_plugins() {
    assert_eq!(
        eslint_module_name("@myorg/foo", EslintRefKind::Extends),
        "@myorg/eslint-config-foo"
    );
    assert_eq!(
        eslint_module_name("@myorg", EslintRefKind::Extends),
        "@myorg/eslint-config"
    );
    assert_eq!(
        eslint_module_name("@myorg/eslint-config-foo", EslintRefKind::Extends),
        "@myorg/eslint-config-foo"
    );
    assert_eq!(
        eslint_module_name("@myorg/foo", EslintRefKind::Plugin),
        "@myorg/eslint-plugin-foo"
    );
}

#[test]
fn extract_eslint_module_refs_flat_config_scans_bare_imports() {
    let content = r#"
            import js from '@eslint/js';
            import reactHooks from 'eslint-plugin-react-hooks';
            import './local-helper.js';
            export default [
              js.configs.recommended,
              { plugins: { 'react-hooks': reactHooks } },
            ];
        "#;
    let mut refs = extract_eslint_module_refs("eslint.config.js", content);
    refs.sort();
    assert_eq!(
        refs,
        vec![
            "@eslint/js".to_string(),
            "eslint-plugin-react-hooks".to_string()
        ]
    );
}

#[test]
fn extract_eslint_module_refs_legacy_json_config() {
    let content = r#"{
            "extends": ["eslint:recommended", "airbnb"],
            "plugins": ["react-hooks"]
        }"#;
    let mut refs =
        extract_eslint_module_refs(".eslintrc.json", content);
    refs.sort();
    assert_eq!(
        refs,
        vec![
            "eslint-config-airbnb".to_string(),
            "eslint-plugin-react-hooks".to_string(),
        ]
    );
}

#[test]
fn extract_eslint_module_refs_legacy_js_config_scans_extends_plugins_keys() {
    let content = r#"
            module.exports = {
              extends: ['plugin:react/recommended'],
              plugins: ['react-hooks'],
            };
        "#;
    let mut refs =
        extract_eslint_module_refs(".eslintrc.js", content);
    refs.sort();
    assert_eq!(
        refs,
        vec![
            "eslint-plugin-react".to_string(),
            "eslint-plugin-react-hooks".to_string(),
        ]
    );
}

#[test]
fn extract_eslint_module_refs_skips_relative_paths() {
    let content = r#"{ "extends": ["./base.eslintrc.json"] }"#;
    let refs =
        extract_eslint_module_refs(".eslintrc.json", content);
    assert!(refs.is_empty(), "{refs:?}");
}

fn tree(list: &[(&str, &str)]) -> FileTree {
    let mut files = FileTree::new();
    for (path, text) in list {
        files.add_file(path, text.to_string());
    }
    files
}

#[test]
fn relative_references_are_found_in_legacy_configurations() {
    let json = r#"{ "extends": ["./base.json", "airbnb"], "overrides": [{ "plugins": "./p.js" }] }"#;
    assert_eq!(
        extract_eslint_relative_ref_values(".eslintrc.json", json),
        vec!["./base.json", "./p.js"]
    );
    let yaml = "extends:\n  - ../base.yml\n  - eslint:all\n";
    assert_eq!(extract_eslint_relative_ref_values(".eslintrc.yaml", yaml), vec!["../base.yml"]);
    let legacy = "module.exports = { extends: './base.js' };";
    assert_eq!(extract_eslint_relative_ref_values(".eslintrc.cjs", legacy), vec!["./base.js"]);
    let flat = "import base from './base.js';\nexport default [...base];\n";
    assert!(extract_eslint_relative_ref_values("eslint.config.js", flat).is_empty());
}

#[test]
fn a_configuration_that_cannot_be_read_refers_to_nothing() {
    assert!(extract_eslint_module_refs(".eslintrc.json", "{ nope").is_empty());
    assert!(extract_eslint_module_refs("eslint.config.js", "let x = \"open").is_empty());
    assert!(detect_eslint_type_aware(".eslintrc.yml", "a: [").is_empty());
}

#[test]
fn referenced_configurations_are_followed() {
    let leaf = r#"{ "extends": "./base/.eslintrc.json" }"#;
    let files = tree(&[
        ("/ws/.eslintrc.json", leaf),
        ("/ws/base/.eslintrc.json", r#"{ "extends": ["./more.json", "./.eslintrc.json"] }"#),
        ("/ws/base/more.json", "{}"),
    ]);
    let found: Vec<PathBuf> =
        resolve_eslint_config_referenced_files(&files, "/ws/.eslintrc.json", leaf)
            .iter()
            .map(PathBuf::from)
            .collect();
    assert_eq!(
        found,
        vec![PathBuf::from("/ws/base/.eslintrc.json"), PathBuf::from("/ws/base/more.json")]
    );
}

#[test]
fn module_names_are_not_extended_twice() {
    for raw in ["airbnb", "@myorg", "@myorg/foo", "eslint-config-x", "plugin:react/all"] {
        let name = eslint_module_name(raw, EslintRefKind::Extends);
        if !raw.starts_with("plugin:") {
            assert_eq!(eslint_module_name(&name, EslintRefKind::Extends), name);
        }
        let name = eslint_module_name(raw, EslintRefKind::Plugin);
        assert_eq!(eslint_module_name(&name, EslintRefKind::Plugin), name);
    }
}
