use plugin_js::specifiers::bare_specifier_package_name;

#[test]
fn bare_specifier_package_name_extracts_plain_and_scoped_names() {
    assert_eq!(
        bare_specifier_package_name("lodash/fp").as_deref(),
        Some("lodash")
    );
    assert_eq!(
        bare_specifier_package_name("@scope/pkg/sub").as_deref(),
        Some("@scope/pkg")
    );
    assert_eq!(
        bare_specifier_package_name("lodash").as_deref(),
        Some("lodash")
    );
}

#[test]
fn bare_specifier_package_name_excludes_relative_absolute_builtin_and_subpath() {
    assert_eq!(bare_specifier_package_name("./foo"), None);
    assert_eq!(bare_specifier_package_name("../foo"), None);
    assert_eq!(bare_specifier_package_name("/abs/foo"), None);
    assert_eq!(bare_specifier_package_name("fs"), None);
    assert_eq!(bare_specifier_package_name("node:fs"), None);
    assert_eq!(bare_specifier_package_name("#internal/thing"), None);
    assert_eq!(bare_specifier_package_name("@/components/Foo"), None);
}
