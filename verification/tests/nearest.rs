use plugin_js::nearest::{
    find_nearest_bundler_config, find_nearest_jest_package_json_config, find_nearest_lint_config,
    find_nearest_test_runner_config, find_nearest_tsconfig,
};
use plugin_js::tree::FileTree;

fn write(files: &mut FileTree, rel: &str, contents: &str) {
    files.add_file(&format!("/ws/{rel}"), contents.to_string());
}

#[test]
fn find_nearest_tsconfig_walks_up_to_workspace_root() {
    let mut files = FileTree::new();
    write(&mut files, "tsconfig.json", "{}");
    write(&mut files, "packages/a/package.json", r#"{"name":"a"}"#);
    let found =
        find_nearest_tsconfig(&files, "/ws", "/ws/packages/a").expect("found");
    assert_eq!(found, "/ws/tsconfig.json");
}

#[test]
fn find_nearest_tsconfig_prefers_closest() {
    let mut files = FileTree::new();
    write(&mut files, "tsconfig.json", "{}");
    write(&mut files, "packages/a/tsconfig.json", "{}");
    let found =
        find_nearest_tsconfig(&files, "/ws", "/ws/packages/a").expect("found");
    assert_eq!(found, "/ws/packages/a/tsconfig.json");
}

#[test]
fn find_nearest_tsconfig_none_when_absent() {
    let mut files = FileTree::new();
    write(&mut files, "packages/a/package.json", r#"{"name":"a"}"#);
    assert!(find_nearest_tsconfig(&files, "/ws", "/ws/packages/a").is_none());
}

#[test]
fn find_nearest_test_runner_config_walks_up_like_tsconfig() {
    let mut files = FileTree::new();
    write(&mut files, "vitest.config.ts", "export default {};\n");
    write(&mut files, "packages/a/package.json", r#"{"name":"a"}"#);
    let found = find_nearest_test_runner_config(
        &files,
        "/ws",
        "/ws/packages/a",
        &["vitest.config.ts", "vitest.config.js"],
    )
    .expect("found");
    assert_eq!(found, "/ws/vitest.config.ts");
}

#[test]
fn find_nearest_test_runner_config_none_when_absent() {
    let mut files = FileTree::new();
    write(&mut files, "packages/a/package.json", r#"{"name":"a"}"#);
    assert!(
        find_nearest_test_runner_config(
            &files,
        "/ws",
        "/ws/packages/a",
            &["vitest.config.ts"],
        )
        .is_none()
    );
}

#[test]
fn find_nearest_jest_package_json_config_walks_up_to_the_ancestor_that_has_it() {
    let mut files = FileTree::new();
    write(
        &mut files,
        "package.json",
        r#"{"name":"root","jest":{"testEnvironment":"node"}}"#,
    );
    write(&mut files, "packages/a/package.json", r#"{"name":"a"}"#);
    let found =
        find_nearest_jest_package_json_config(&files, "/ws", "/ws/packages/a")
            .expect("found");
    assert_eq!(found, "/ws/package.json");
}

#[test]
fn find_nearest_jest_package_json_config_prefers_closest() {
    let mut files = FileTree::new();
    write(
        &mut files,
        "package.json",
        r#"{"name":"root","jest":{"testEnvironment":"node"}}"#,
    );
    write(
        &mut files,
        "packages/a/package.json",
        r#"{"name":"a","jest":{"testEnvironment":"jsdom"}}"#,
    );
    let found =
        find_nearest_jest_package_json_config(&files, "/ws", "/ws/packages/a")
            .expect("found");
    assert_eq!(found, "/ws/packages/a/package.json");
}

#[test]
fn find_nearest_jest_package_json_config_none_without_a_jest_field() {
    let mut files = FileTree::new();
    write(&mut files, "package.json", r#"{"name":"root"}"#);
    write(&mut files, "packages/a/package.json", r#"{"name":"a"}"#);
    assert!(
        find_nearest_jest_package_json_config(&files, "/ws", "/ws/packages/a")
            .is_none()
    );
}

#[test]
fn find_nearest_lint_config_finds_dot_oxlintrc_at_package_dir() {
    let mut files = FileTree::new();
    write(&mut files, "packages/a/package.json", r#"{"name": "a"}"#);
    write(&mut files, "packages/a/.oxlintrc.json", "{}");
    let found = find_nearest_lint_config(
        &files,
        "/ws",
        "/ws/packages/a",
        &[".oxlintrc.json"],
    )
    .expect("find config");
    assert_eq!(found, "/ws/packages/a/.oxlintrc.json");
}

#[test]
fn find_nearest_lint_config_walks_up_to_workspace_root() {
    let mut files = FileTree::new();
    write(&mut files, "package.json", r#"{"name": "root"}"#);
    write(&mut files, ".oxlintrc.json", "{}");
    write(&mut files, "packages/a/package.json", r#"{"name": "a"}"#);
    let found = find_nearest_lint_config(
        &files,
        "/ws",
        "/ws/packages/a",
        &[".oxlintrc.json"],
    )
    .expect("find ancestor config");
    assert_eq!(found, "/ws/.oxlintrc.json");
}

#[test]
fn the_search_does_not_leave_the_workspace() {
    let mut files = FileTree::new();
    files.add_file("/tsconfig.json", "{}".to_string());
    write(&mut files, "packages/a/package.json", "{}");
    assert!(find_nearest_tsconfig(&files, "/ws", "/ws/packages/a").is_none());
}

#[test]
fn the_first_candidate_of_a_directory_wins() {
    let mut files = FileTree::new();
    write(&mut files, "b.json", "{}");
    write(&mut files, "a.json", "{}");
    let found = find_nearest_lint_config(&files, "/ws", "/ws/p", &["a.json", "b.json"]);
    assert_eq!(found.as_deref(), Some("/ws/a.json"));
    let found = find_nearest_bundler_config(&files, "/ws", "/ws/p", &["b.json", "a.json"]);
    assert_eq!(found.as_deref(), Some("/ws/b.json"));
}
