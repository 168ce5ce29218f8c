use plugin_js::config_scan::{
    extract_runner_config_referenced_paths, resolve_runner_config_referenced_files,
};
use plugin_js::tree::FileTree;
use std::path::PathBuf;

fn write(files: &mut FileTree, rel: &str, contents: &str) {
    files.add_file(&format!("/ws/{rel}"), contents.to_string());
}

#[test]
fn extract_runner_config_referenced_paths_finds_single_string_and_array_values() {
    let path = "vitest.config.ts";
    let content = "export default { test: { \
                    setupFiles: './single-setup.ts', \
                    setupFilesAfterEnv: ['./after-env-1.ts', './after-env-2.ts'], \
                    globalSetup: './global-setup.ts', \
                    unrelatedKey: './not-collected.ts' \
                    } };\n";
    let mut found = extract_runner_config_referenced_paths(path, content);
    found.sort();
    assert_eq!(
        found,
        vec![
            "./after-env-1.ts",
            "./after-env-2.ts",
            "./global-setup.ts",
            "./single-setup.ts",
        ]
    );
}

#[test]
fn extract_runner_config_referenced_paths_empty_on_unparseable_content() {
    let path = "jest.config.js";
    let found = extract_runner_config_referenced_paths(path, "not valid js {{{");
    assert!(found.is_empty(), "{found:?}");
}

#[test]
fn resolve_runner_config_referenced_files_resolves_root_dir_token_and_recurses_into_base_config()
 {
    let mut files = FileTree::new();
    write(
        &mut files,
        "vitest.config.base.ts",
        "export default { test: { setupFiles: ['<rootDir>/base.setup.ts'] } };\n",
    );
    write(&mut files, "base.setup.ts", "globalThis.__base = true;\n");
    write(
        &mut files,
        "vitest.config.ts",
        "import base from './vitest.config.base';\n\
         export default { ...base, test: { ...base.test, setupFiles: ['./leaf.setup.ts'] } };\n",
    );
    write(&mut files, "leaf.setup.ts", "globalThis.__leaf = true;\n");

    let config_path = "/ws/vitest.config.ts";
    let content = files.read(config_path).expect("read fixture").clone();
    let scan = resolve_runner_config_referenced_files(&files, config_path, &content);
    let mut found: Vec<PathBuf> = scan.files.iter().map(PathBuf::from).collect();
    found.sort();

    assert_eq!(
        found,
        vec![
            PathBuf::from("/ws/base.setup.ts"),
            PathBuf::from("/ws/leaf.setup.ts"),
            PathBuf::from("/ws/vitest.config.base.ts"),
        ]
    );
    assert!(
        scan.bare_specifiers.is_empty(),
        "{:?}",
        scan.bare_specifiers
    );
}

#[test]
fn resolve_runner_config_referenced_files_empty_when_config_names_nothing() {
    let mut files = FileTree::new();
    let config_path = "/ws/vitest.config.ts";
    let content = "export default { test: {} };\n";
    write(&mut files, "vitest.config.ts", content);
    let scan = resolve_runner_config_referenced_files(&files, config_path, content);
    assert!(scan.files.is_empty(), "{:?}", scan.files);
    assert!(
        scan.bare_specifiers.is_empty(),
        "{:?}",
        scan.bare_specifiers
    );
}

#[test]
fn resolve_runner_config_referenced_files_collects_bare_specifiers_without_following_them() {
    let mut files = FileTree::new();
    let config_path = "/ws/vitest.config.ts";
    let content = "import react from '@vitejs/plugin-react';\n\
         export default { plugins: [react()], test: {} };\n";
    write(&mut files, "vitest.config.ts", content);
    let scan = resolve_runner_config_referenced_files(&files, config_path, content);
    assert!(
        scan.files.is_empty(),
        "a bare specifier must not be followed as a file: {:?}",
        scan.files
    );
    assert_eq!(scan.bare_specifiers.len(), 1);
    assert_eq!(scan.bare_specifiers[0].package_name, "@vitejs/plugin-react");
    assert_eq!(scan.bare_specifiers[0].specifier, "@vitejs/plugin-react");
}
