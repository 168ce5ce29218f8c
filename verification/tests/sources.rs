use plugin_js::sources::discover_test_files;
use plugin_js::tree::FileTree;

fn write(files: &mut FileTree, rel: &str, contents: &str) {
    files.add_file(&format!("/ws/{rel}"), contents.to_string());
}

#[test]
fn discover_test_files_matches_configured_globs_only() {
    let mut files = FileTree::new();
    write(&mut files, "packages/a/package.json", r#"{"name":"a"}"#);
    write(
        &mut files,
        "packages/a/src/index.ts",
        "export const x = 1;\n",
    );
    write(
        &mut files,
        "packages/a/src/index.test.ts",
        "import { x } from './index'; test('x', () => x);\n",
    );
    write(
        &mut files,
        "packages/a/src/other.spec.tsx",
        "test('y', () => 1);\n",
    );

    let patterns = vec![
        "**/*.test.{ts,tsx,js,jsx}".to_string(),
        "**/*.spec.{ts,tsx,js,jsx}".to_string(),
    ];
    let found =
        discover_test_files(&files, "/ws", "packages/a", &patterns).expect("discover");
    assert_eq!(
        found,
        vec![
            "packages/a/src/index.test.ts".to_string(),
            "packages/a/src/other.spec.tsx".to_string(),
        ]
    );
}

#[test]
fn discover_test_files_empty_when_no_match() {
    let mut files = FileTree::new();
    write(&mut files, "packages/a/package.json", r#"{"name":"a"}"#);
    write(
        &mut files,
        "packages/a/src/index.ts",
        "export const x = 1;\n",
    );
    let patterns = vec!["**/*.test.{ts,tsx,js,jsx}".to_string()];
    let found =
        discover_test_files(&files, "/ws", "packages/a", &patterns).expect("discover");
    assert!(found.is_empty());
}
