use plugin_js::package_json::{read_package_manifest, ManifestError};
use plugin_js::tree::FileTree;

fn write(contents: &str) -> FileTree {
    let mut files = FileTree::new();
    files.add_file("/p/package.json", contents.to_string());
    files
}

#[test]
fn reads_dependencies_and_dev_dependencies() {
    let files = write(
        r#"{
                "name": "a",
                "dependencies": { "lodash": "^4.17.21" },
                "devDependencies": { "vitest": "^1.0.0" }
            }"#,
    );
    let manifest = read_package_manifest(&files, "/p/package.json").expect("parse manifest");
    assert_eq!(manifest.name, "a");
    assert_eq!(
        manifest.dependencies.get("lodash").map(String::as_str),
        Some("^4.17.21")
    );
    assert_eq!(
        manifest.dev_dependencies.get("vitest").map(String::as_str),
        Some("^1.0.0")
    );
}

#[test]
fn optional_dependencies_are_recognized_and_folded_into_dependencies() {
    let files = write(
        r#"{
                "name": "a",
                "optionalDependencies": { "fsevents": "^2.3.0" }
            }"#,
    );
    let manifest = read_package_manifest(&files, "/p/package.json").expect("parse manifest");
    assert!(manifest.is_optional("fsevents"));
    assert!(manifest.dependencies.contains_key("fsevents"));
}

#[test]
fn peer_dependencies_are_parsed_and_not_folded_into_dependencies() {
    let files = write(
        r#"{
                "name": "a",
                "peerDependencies": { "react": "^18.0.0" }
            }"#,
    );
    let manifest = read_package_manifest(&files, "/p/package.json").expect("parse manifest");
    assert_eq!(
        manifest.peer_dependencies.get("react").map(String::as_str),
        Some("^18.0.0")
    );
    assert!(!manifest.dependencies.contains_key("react"));
}

#[test]
fn reads_main_field() {
    let files = write( r#"{"name": "a", "main": "src/index.ts"}"#);
    let manifest = read_package_manifest(&files, "/p/package.json").expect("parse manifest");
    assert_eq!(manifest.main.as_deref(), Some("src/index.ts"));
}

#[test]
fn missing_main_field_is_none() {
    let files = write( r#"{"name": "a"}"#);
    let manifest = read_package_manifest(&files, "/p/package.json").expect("parse manifest");
    assert_eq!(manifest.main, None);
}

#[test]
fn missing_name_is_an_error() {
    let files = write( "{}");
    read_package_manifest(&files, "/p/package.json").unwrap_err();
}

#[test]
fn a_manifest_is_json_of_the_right_shape() {
    let read = |text: &str| read_package_manifest(&write(text), "/p/package.json").unwrap_err();
    assert!(matches!(read("{"), ManifestError::NotJson { .. }));
    assert!(matches!(read(r#"{"name": 3}"#), ManifestError::BadShape));
    assert!(matches!(read(r#"{"name": "a", "dependencies": []}"#), ManifestError::BadShape));
    assert!(matches!(read("{}"), ManifestError::MissingName));
    let err = read_package_manifest(&FileTree::new(), "/p/package.json").unwrap_err();
    assert!(matches!(err, ManifestError::Unreadable { .. }), "{err:?}");
}

#[test]
fn a_declared_version_is_kept_over_an_optional_one() {
    let text = r#"{"name": "a", "dependencies": {"x": "1"}, "optionalDependencies": {"x": "2", "y": "3"}}"#;
    let manifest = read_package_manifest(&write(text), "/p/package.json").unwrap();
    assert_eq!(manifest.dependencies.get("x").map(String::as_str), Some("1"));
    assert_eq!(manifest.dependencies.get("y").map(String::as_str), Some("3"));
    let groups = manifest.dependency_groups();
    assert_eq!((groups[0].0, groups[1].0), ("dependencies", "dev_dependencies"));
}
