use plugin_js::importparse::{parse_file_imports, ModuleContext, ParsedImports};

fn parse(ext: &str, source: &str) -> ParsedImports {
    let path = format!("test.{ext}");
    parse_file_imports(path.as_str(), source).expect("parse")
}

#[test]
fn extracts_import_declaration() {
    let p = parse("ts", "import { foo } from 'bar';");
    assert_eq!(p.sites.len(), 1);
    assert_eq!(p.sites[0].specifier, "bar");
    assert_eq!(p.sites[0].context, ModuleContext::Esm);
    assert!(!p.sites[0].type_only);
}

#[test]
fn extracts_bare_import() {
    let p = parse("js", "import 'side-effect';");
    assert_eq!(p.sites.len(), 1);
    assert_eq!(p.sites[0].specifier, "side-effect");
}

#[test]
fn extracts_export_from() {
    let p = parse("ts", "export { foo } from 'bar';");
    assert_eq!(p.sites.len(), 1);
    assert_eq!(p.sites[0].specifier, "bar");
    assert!(!p.sites[0].type_only);
}

#[test]
fn extracts_export_star_from() {
    let p = parse("ts", "export * from 'bar';");
    assert_eq!(p.sites.len(), 1);
    assert_eq!(p.sites[0].specifier, "bar");
}

#[test]
fn extracts_export_star_as_from() {
    let p = parse("ts", "export * as ns from 'bar';");
    assert_eq!(p.sites.len(), 1);
    assert_eq!(p.sites[0].specifier, "bar");
}

#[test]
fn extracts_require_call() {
    let p = parse("js", "const x = require('lodash');");
    assert_eq!(p.sites.len(), 1);
    assert_eq!(p.sites[0].specifier, "lodash");
    assert_eq!(p.sites[0].context, ModuleContext::Cjs);
}

#[test]
fn extracts_require_call_nested_in_function() {
    let p = parse(
        "js",
        "function load() { if (true) { return require('lodash'); } }",
    );
    assert_eq!(p.sites.len(), 1);
    assert_eq!(p.sites[0].specifier, "lodash");
}

#[test]
fn ignores_require_like_calls_that_are_not_the_real_require() {
    let p = parse("js", "const x = mod.require('lodash'); other.require('x');");
    assert!(p.sites.is_empty());
}

#[test]
fn extracts_dynamic_import_with_literal() {
    let p = parse("js", "const x = import('lodash');");
    assert_eq!(p.sites.len(), 1);
    assert_eq!(p.sites[0].specifier, "lodash");
    assert_eq!(p.sites[0].context, ModuleContext::Esm);
    assert_eq!(p.unresolved_dynamic_imports, 0);
}

#[test]
fn coarsens_dynamic_import_with_non_literal_argument() {
    let p = parse(
        "js",
        "const lang = 'en'; const x = import(`./locales/${lang}.js`);",
    );
    assert!(
        p.sites.is_empty(),
        "a non-literal dynamic import must not produce a resolved edge: {:?}",
        p.sites
    );
    assert_eq!(p.unresolved_dynamic_imports, 1);
}

#[test]
fn coarsens_dynamic_import_with_identifier_argument() {
    let p = parse("js", "function load(mod) { return import(mod); }");
    assert_eq!(p.unresolved_dynamic_imports, 1);
    assert!(p.sites.is_empty());
}

#[test]
fn import_type_is_flagged_type_only() {
    let p = parse("ts", "import type { Foo } from 'bar';");
    assert_eq!(p.sites.len(), 1);
    assert_eq!(p.sites[0].specifier, "bar");
    assert!(p.sites[0].type_only);
}

#[test]
fn export_type_from_is_flagged_type_only() {
    let p = parse("ts", "export type { Foo } from 'bar';");
    assert_eq!(p.sites.len(), 1);
    assert!(p.sites[0].type_only);
}

#[test]
fn regular_import_is_not_type_only() {
    let p = parse("ts", "import { Foo } from 'bar';");
    assert!(!p.sites[0].type_only);
}

#[test]
fn extracts_multiple_sites_in_one_file() {
    let p = parse(
        "ts",
        "import a from 'a';\nexport { b } from 'b';\nconst c = require('c');\n",
    );
    let specs: Vec<&str> = p.sites.iter().map(|s| s.specifier.as_str()).collect();
    assert_eq!(specs, vec!["a", "b", "c"]);
}

#[test]
fn tsx_source_parses() {
    let p = parse("tsx", "import React from 'react';\nconst x = <div />;\n");
    assert_eq!(p.sites.len(), 1);
    assert_eq!(p.sites[0].specifier, "react");
}

#[test]
fn unparseable_source_is_a_hard_error() {
    let path = "broken.ts";
    let err = parse_file_imports(path, "const x = \"unterminated").unwrap_err();
    assert!(err.message().contains("failed to parse"), "{err:?}");
}

#[test]
fn recoverable_syntax_error_does_not_fail_the_whole_parse() {
    let p = parse("ts", "import { a } from 'a'\nimport { b } from 'b'\n");
    let specs: Vec<&str> = p.sites.iter().map(|s| s.specifier.as_str()).collect();
    assert_eq!(specs, vec!["a", "b"]);
}

#[test]
fn an_unknown_extension_is_told() {
    let err = parse_file_imports("style.css", "").unwrap_err();
    assert!(err.message().contains("style.css"), "{err:?}");
    assert!(err.message().contains("unrecognized source extension"), "{err:?}");
}

#[test]
fn odd_literals_do_not_hide_the_imports() {
    let p = parse("js", "const x = 1e999; const y = '\\ud800'; import 'a'; require(\"b\");");
    let specs: Vec<&str> = p.sites.iter().map(|s| s.specifier.as_str()).collect();
    assert_eq!(specs, vec!["a", "b"]);
    let p = parse("js", "import '\\u{1F600}\\n';");
    assert_eq!(p.sites[0].specifier, "\u{1F600}\n");
}

#[test]
fn imports_come_in_the_order_of_the_text() {
    let p = parse(
        "ts",
        "const a = () => import('one');\nimport type { T } from 'two';\nexport * from 'three';\n\
         function f() { return [require('four'), import(f)]; }\nimport five = require('five');\n",
    );
    let specs: Vec<(&str, bool)> =
        p.sites.iter().map(|s| (s.specifier.as_str(), s.type_only)).collect();
    assert_eq!(specs[..4], [("one", false), ("two", true), ("three", false), ("four", false)]);
    assert_eq!(p.unresolved_dynamic_imports, 1);
}

#[test]
fn deep_nesting_is_read() {
    let deep = format!("{}import('x'){}", "(".repeat(300), ")".repeat(300));
    assert_eq!(parse("js", &deep).sites.len(), 1);
    let nested = format!("{}import('x'){}", "[".repeat(200), "]".repeat(200));
    assert_eq!(parse("js", &nested).sites[0].specifier, "x");
}
