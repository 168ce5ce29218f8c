use plugin_js::extends::{resolve_extends_specifier, resolve_tsconfig_extends_chain};
use plugin_js::specifiers::{bare_specifier_package_name, package_named_by};
use plugin_js::tree::{FileEntry, FileTree};
use plugin_js::tsconfig::{
    bare_specifier_guard, check_tsconfig_scope, filter_by_tsconfig_fields, find_invalid_glob,
    pattern_confined_to_pkg, read_tsconfig_fields, read_tsconfig_jsonc, TsconfigError,
    TsconfigFields,
};

fn tree(list: &[(&str, &str)]) -> FileTree {
    let mut files = FileTree::new();
    for (path, text) in list {
        files.add_file(path, text.to_string());
    }
    files
}

fn strings(list: &[&str]) -> Vec<String> {
    list.iter().map(|s| s.to_string()).collect()
}

fn fields(includes: &[&str], exclude: &[&str], files: &[&str]) -> TsconfigFields {
    TsconfigFields {
        includes: strings(includes),
        exclude: strings(exclude),
        files: strings(files),
    }
}

#[test]
fn comments_and_trailing_commas_are_read_over() {
    let files = tree(&[
        ("/ws/tsconfig.json", "{ // note\n \"include\": [\"src\", 3,], /* x */ \"files\": [\"a.ts\"], }"),
        ("/ws/bad.json", "{ nope }"),
        ("/ws/slash.json", "{ / }"),
    ]);
    let read = read_tsconfig_fields(&files, "/ws/tsconfig.json").unwrap();
    assert_eq!(read.includes, vec!["src"]);
    assert_eq!(read.files, vec!["a.ts"]);
    assert!(read.exclude.is_empty());
    let err = read_tsconfig_jsonc(&files, "/ws/none.json").unwrap_err();
    assert!(matches!(err, TsconfigError::Unreadable { .. }), "{err:?}");
    let err = read_tsconfig_jsonc(&files, "/ws/bad.json").unwrap_err();
    assert!(matches!(err, TsconfigError::NotJson { .. }), "{err:?}");
    let err = read_tsconfig_jsonc(&files, "/ws/slash.json").unwrap_err();
    assert!(matches!(err, TsconfigError::Comments { .. }), "{err:?}");
    assert!(err.message().contains("/ws/slash.json"), "{err:?}");
}

#[test]
fn aliases_and_a_base_url_keep_names_from_counting() {
    let files = tree(&[
        ("/ws/paths.json", r#"{"compilerOptions":{"paths":{"@app/*":["src/*"],"exact":["x"]}}}"#),
        ("/ws/base.json", r#"{"compilerOptions":{"baseUrl":"."}}"#),
    ]);
    let guard = bare_specifier_guard(&files, Some("/ws/paths.json"));
    assert!(!guard.allows("@app/button"));
    assert!(!guard.allows("exact"));
    assert!(guard.allows("exactly"));
    assert!(guard.allows("lodash"));
    assert!(!bare_specifier_guard(&files, Some("/ws/base.json")).allows("lodash"));
    assert!(bare_specifier_guard(&files, None).allows("lodash"));
}

#[test]
fn a_package_name_depends_on_the_built_in_modules() {
    assert_eq!(package_named_by("fs", false).as_deref(), Some("fs"));
    assert_eq!(package_named_by("fs", true), None);
    assert_eq!(bare_specifier_package_name("fs/promises"), None);
    assert_eq!(bare_specifier_package_name("fs-extra").as_deref(), Some("fs-extra"));
    assert_eq!(bare_specifier_package_name("@scope"), None);
}

#[test]
fn a_shared_tsconfig_has_to_be_confined_to_the_package() {
    let own = fields(&[], &[], &[]);
    check_tsconfig_scope("/ws/packages/a/tsconfig.json", "/ws/packages/a", "/ws/packages/a", &own)
        .unwrap();
    let check =
        |f: TsconfigFields| check_tsconfig_scope("/ws/tsconfig.json", "/ws", "/ws/packages/a", &f);
    check(fields(&["packages/a/src/**/*"], &[], &["packages/a/x.ts"])).unwrap();
    let err = check(fields(&[], &[], &[])).unwrap_err();
    assert!(matches!(err, TsconfigError::Unscoped { .. }), "{err:?}");
    let err = check(fields(&["packages/**/*"], &[], &[])).unwrap_err();
    assert!(matches!(err, TsconfigError::NotConfined { .. }), "{err:?}");
    assert!(err.message().contains("packages/**/*"), "{err:?}");
}

#[test]
fn a_pattern_is_confined_by_the_directories_before_its_first_wildcard() {
    assert!(pattern_confined_to_pkg("packages/a/src/*.ts", "packages/a"));
    assert!(pattern_confined_to_pkg("packages/a/", "packages/a"));
    assert!(pattern_confined_to_pkg("anything", ""));
    assert!(!pattern_confined_to_pkg("./packages/a", "packages/a"));
    assert!(!pattern_confined_to_pkg("packages/ab", "packages/a"));
    assert!(!pattern_confined_to_pkg("packages/*", "packages/a"));
    assert!(pattern_confined_to_pkg("packages/a", "packages/a/"));
    assert!(pattern_confined_to_pkg("packages/a/**", "packages/a"));
    assert!(pattern_confined_to_pkg("packages/a/src/..x/*", "packages/a"));
    assert!(!pattern_confined_to_pkg("packages/a*/**/*.ts", "packages/a"));
    assert!(!pattern_confined_to_pkg("packages/a?", "packages/a"));
    assert!(!pattern_confined_to_pkg("packages/a/../b/*.ts", "packages/a"));
    assert!(!pattern_confined_to_pkg("packages/a/*/../../b", "packages/a"));
    assert!(pattern_confined_to_pkg("packages/a/x/../y", "packages/a"));
    assert!(pattern_confined_to_pkg("packages/a/x/./y/../../*.ts", "packages/a"));
    assert!(!pattern_confined_to_pkg("packages/a/x/../../b", "packages/a"));
    assert!(!pattern_confined_to_pkg("packages/a/./../b", "packages/a"));
    assert!(!pattern_confined_to_pkg("packages/a/x*/../y", "packages/a"));
    let reaching = fields(&["packages/a*/**/*.ts"], &[], &[]);
    assert!(check_tsconfig_scope("/w/tsconfig.json", "/w", "/w/packages/a", &reaching).is_err());
}

#[test]
fn files_are_kept_by_the_lists_of_the_tsconfig() {
    let list = strings(&["/ws/src/a.ts", "/ws/src/a.test.ts", "/ws/gen/b.ts", "/ws/c.ts"]);
    let kept = |f: &TsconfigFields| filter_by_tsconfig_fields(list.clone(), "/ws", f).unwrap();
    assert_eq!(kept(&fields(&[], &[], &[])), list);
    assert_eq!(kept(&fields(&["src/**"], &[], &[])), vec!["/ws/src/a.ts", "/ws/src/a.test.ts"]);
    assert_eq!(kept(&fields(&["src/*"], &["**/*.test.ts"], &[])), vec!["/ws/src/a.ts"]);
    assert_eq!(kept(&fields(&[], &["src/**"], &[])), vec!["/ws/gen/b.ts", "/ws/c.ts"]);
    assert_eq!(kept(&fields(&[], &[], &["c.ts"])), vec!["/ws/c.ts"]);
    assert_eq!(
        kept(&fields(&["gen/*.ts"], &["**/*.ts"], &["src/a.ts"])),
        vec!["/ws/src/a.ts"]
    );
    let err = filter_by_tsconfig_fields(list.clone(), "/ws", &fields(&["src/{a"], &[], &[]))
        .unwrap_err();
    assert!(matches!(err, TsconfigError::InvalidGlob { .. }), "{err:?}");
    assert_eq!(find_invalid_glob(&strings(&["*.ts", "{a"])).as_deref(), Some("{a"));
    assert_eq!(find_invalid_glob(&strings(&["*.ts"])), None);
}

#[test]
fn an_extends_chain_lists_every_file_but_the_leaf() {
    let files = tree(&[
        ("/ws/packages/a/tsconfig.json", r#"{"extends": ["../../base", "@scope/config/strict.json"]}"#),
        ("/ws/base.json", r#"{"extends": "./root.json"}"#),
        ("/ws/root.json", "{}"),
        ("/ws/node_modules/@scope/config/strict.json", r#"{"extends": "/ws/root.json"}"#),
    ]);
    let chain =
        resolve_tsconfig_extends_chain(&files, "/ws", "/ws/packages/a/tsconfig.json").unwrap();
    assert_eq!(
        chain,
        vec!["/ws/node_modules/@scope/config/strict.json", "/ws/base.json", "/ws/root.json"]
    );
}

#[test]
fn an_extends_that_names_nothing_is_refused() {
    let mut files = tree(&[("/ws/a/tsconfig.json", "{}"), ("/elsewhere/t.json", "{}")]);
    let resolve = |files: &FileTree, s: &str| resolve_extends_specifier(files, "/ws", "/ws/a", s);
    let err = resolve(&files, "./none").unwrap_err();
    assert!(matches!(err, TsconfigError::ExtendsNotFound { .. }), "{err:?}");
    let err = resolve(&files, "some-package/tsconfig.json").unwrap_err();
    assert!(matches!(err, TsconfigError::ExtendsUnresolved { .. }), "{err:?}");
    let err = resolve(&files, "/elsewhere/t.json").unwrap_err();
    assert!(matches!(err, TsconfigError::OutsideWorkspace { .. }), "{err:?}");
    files.add_entry(
        "/ws/a/link.json",
        FileEntry {
            text: Some("{}".to_string()),
            canonical: "/elsewhere/t.json".to_string(),
            plain: false,
        },
    );
    let err = resolve(&files, "./link.json").unwrap_err();
    assert!(matches!(err, TsconfigError::OutsideWorkspace { .. }), "{err:?}");
}

#[test]
fn an_extends_chain_that_comes_back_is_refused() {
    let files = tree(&[
        ("/ws/a.json", r#"{"extends": "./b.json"}"#),
        ("/ws/b.json", r#"{"extends": "./a.json"}"#),
    ]);
    let result = resolve_tsconfig_extends_chain(&files, "/ws", "/ws/a.json");
    assert!(matches!(result, Err(TsconfigError::Cycle { .. })), "{result:?}");
}

#[test]
fn a_base_that_is_reached_twice_is_listed_once() {
    let files = tree(&[
        ("/w/tsconfig.json", r#"{"extends": ["./a.json", "./b.json"]}"#),
        ("/w/a.json", r#"{"extends": "./b.json"}"#),
        ("/w/b.json", r#"{"extends": "./c.json"}"#),
        ("/w/c.json", "{}"),
    ]);
    let chain = resolve_tsconfig_extends_chain(&files, "/w", "/w/tsconfig.json").unwrap();
    assert_eq!(chain, vec!["/w/b.json", "/w/a.json", "/w/c.json"]);
}

#[test]
fn a_chain_that_comes_back_to_a_listed_file_is_refused_once_it_was_followed() {
    let files = tree(&[
        ("/w/tsconfig.json", r#"{"extends": ["./a.json", "./b.json"]}"#),
        ("/w/a.json", r#"{"extends": "./b.json"}"#),
        ("/w/b.json", r#"{"extends": "./a.json"}"#),
    ]);
    let err = resolve_tsconfig_extends_chain(&files, "/w", "/w/tsconfig.json").unwrap_err();
    assert!(matches!(err, TsconfigError::Cycle { .. }), "{err:?}");
}

fn matched(pattern: &str, path: &str) -> Option<bool> {
    filter_by_tsconfig_fields(strings(&[path]), "/", &fields(&[pattern], &[], &[]))
        .ok()
        .map(|kept| !kept.is_empty())
}

fn nested(open: &str, n: usize, close: &str) -> String {
    format!("{}a{}", open.repeat(n), close.repeat(n))
}

#[test]
fn patterns_that_cannot_be_compiled_are_no_globs() {
    assert_eq!(matched("<a:0,5000000000>", "/a"), None);
    assert_eq!(matched("<a:5000000000,>", "/a"), None);
    assert_eq!(matched("<aa:18446744073709551615>", "/a"), None);
    assert_eq!(matched("<<<a*b:9999>:9999>:9999>", "/a"), None);
    assert_eq!(matched("<<<a:99>:99>:99>", "/a"), None);
    assert_eq!(matched("<<<a*b:99>:99>:99>", "/a"), None);
    assert_eq!(matched(&format!("<{}:999999>", "a?".repeat(490)), "/a"), None);
    assert_eq!(matched(&"a".repeat(70000), "/a"), None);
    assert_eq!(matched("a*<b:0,5>", "/ab"), None);
    assert_eq!(matched("a$<b:0,5>", "/ab"), None);
    assert_eq!(matched("src/**/<b:0,5>.ts", "/src/b.ts"), None);
    assert_eq!(matched("<a:1,><b:0,5>", "/ab"), None);
    assert_eq!(matched("<b:0,5><a:1,>", "/ab"), None);
    assert_eq!(matched("<b:0,5>{a*,c}", "/ba"), None);
    assert_eq!(matched(&nested("{", 101, "}"), "/a"), None);
    assert_eq!(matched(&nested("{", 5000, "}"), "/a"), None);
    assert_eq!(matched(&"{".repeat(5000), "/a"), None);
    assert_eq!(matched(&nested("<", 83, ">"), "/a"), None);
    assert_eq!(matched(&nested("{b,x", 63, "}"), "/b"), None);
}

#[test]
fn patterns_up_to_the_limits_can_be_tried() {
    assert_eq!(matched(&nested("{", 100, "}"), "/a"), Some(true));
    assert_eq!(matched(&nested("{a?,", 81, "}"), "/a"), Some(true));
    assert_eq!(matched(&nested("{**/[a-z]x,", 80, "}"), "/a"), Some(true));
    assert_eq!(matched(&nested("{**/[!a]x/**/y?,", 80, "}"), "/a"), Some(true));
    assert_eq!(matched(&nested("<", 82, ">"), "/aaa"), Some(true));
    assert_eq!(matched(&nested("{b,x", 62, "}"), "/b"), Some(true));
    assert_eq!(matched(&"{a,b}".repeat(41), &format!("/{}", "ab".repeat(20) + "a")), Some(true));
    assert_eq!(matched(&format!("{}*", "a".repeat(60000)), "/b"), Some(false));
    let long = format!("{}*{}", "a".repeat(40000), "b".repeat(40000));
    assert_eq!(matched(&long, "/b"), Some(false));
    assert_eq!(matched("", "/b"), Some(false));
}

#[test]
fn repetitions_can_be_tried() {
    assert_eq!(matched("<a:2>", "/aa"), Some(true));
    assert_eq!(matched("<a:2>", "/a"), Some(false));
    assert_eq!(matched("<a/:1,3>*.ts", "/a/a/x.ts"), Some(true));
    assert_eq!(matched("x*<b:1,5><c:2,>{d,ee}", "/xyzbbccd"), Some(true));
    assert_eq!(matched("<a:0,1>", "/a"), Some(true));
    assert_eq!(matched("<a:0,1>", "/aa"), Some(false));
    assert_eq!(matched("<a:0,>", "/aaa"), Some(true));
    assert_eq!(matched("x<a:>", "/x"), Some(false));
    assert_eq!(matched("x<a>", "/x"), Some(true));
    assert_eq!(matched("src/<a:0,1>/*.ts", "/src/a/x.ts"), Some(true));
    assert_eq!(matched("**/<a:0,1>.ts", "/x/a.ts"), Some(true));
    assert_eq!(matched("/**/<a:0,1>.ts", "/x/a.ts").is_some(), true);
    assert_eq!(matched("*(?i)<a:0,1>", "/xA"), Some(true));
    assert_eq!(matched("<a:0,1>/(?i)**/b", "/a/B"), Some(true));
    assert_eq!(matched("<[*]:0,1>[{<:]b\\*", "/*<b*"), Some(true));
    assert_eq!(matched("<{a,b*}:0,1>", "/bx"), Some(true));
    assert_eq!(matched("{<a:0,1>,c*}x", "/cdx"), Some(true));
    assert_eq!(matched("2024-01-15/<a:1,2><b:1,2><c:1,2>", "/2024-01-15/abbc"), Some(true));
    assert_eq!(matched("<a:1000>", &format!("/{}", "a".repeat(1000))), Some(true));
}

#[test]
fn texts_that_are_no_patterns_are_refused() {
    for text in ["{a", "a}", "<a", "a>", "[a", "a]", "(a", "a)", "a,b", "a:b", "{}", "{a,}", "<>"] {
        assert_eq!(matched(text, "/a"), None, "{text}");
    }
    for text in ["<a:2,1>", "<a:0>", "<a:x>", "a\\", "a***", "a//b", "**/**"] {
        assert_eq!(matched(text, "/a"), None, "{text}");
    }
}

#[test]
fn sequences_of_parts_are_taken_or_refused() {
    let parts = [
        "a", "*", "/", "**/", "/**/", "?", "[a-z]", "<a:0,1>", "<a:1,>", "<a>", "<a*b:0,2>",
        "{a,b*}", "{<a:0,1>,b}", "<{a,*b}:2,3>", "<<a:0,1>:1,>", "(?i)a",
    ];
    let mut taken: usize = 0;
    for x in parts {
        for y in parts {
            for z in parts {
                let pattern = format!("{x}{y}{z}");
                if matched(&pattern, "/a").is_some() {
                    taken += 1;
                }
                let inside = format!("<{{{pattern},b}}:0,1>c*");
                if matched(&inside, "/a").is_some() {
                    taken += 1;
                }
            }
        }
    }
    assert!(taken > 1000, "{taken}");
}
