use plugin_js::platform::{current_arch, current_os, matches_platform, npm_cpu};

#[test]
fn npm_cpu_maps_amd64_to_x64() {
    assert_eq!(npm_cpu("amd64"), "x64");
    assert_eq!(npm_cpu("arm64"), "arm64");
}

#[test]
fn matches_platform_empty_lists_are_unrestricted() {
    assert!(matches_platform(&[], &[], "linux", "amd64"));
}

#[test]
fn matches_platform_checks_both_os_and_cpu() {
    let os = vec!["darwin".to_string()];
    let cpu = vec!["arm64".to_string()];
    assert!(matches_platform(&os, &cpu, "darwin", "arm64"));
    assert!(!matches_platform(&os, &cpu, "linux", "amd64"));
    assert!(!matches_platform(&os, &cpu, "darwin", "amd64"));
}

#[test]
fn current_platform_values_are_non_empty() {
    for (os, arch) in [("linux", "x86_64"), ("macos", "aarch64")] {
        assert!(!current_os(os).is_empty());
        assert!(!current_arch(arch).is_empty());
    }
}

#[test]
fn matches_platform_negated_os_excludes_only_the_named_platform() {
    let os = vec!["!win32".to_string()];
    assert!(matches_platform(&os, &[], "linux", "amd64"));
    assert!(matches_platform(&os, &[], "darwin", "arm64"));
    assert!(!matches_platform(&os, &[], "win32", "amd64"));
}

#[test]
fn matches_platform_negated_cpu_excludes_only_the_named_arch() {
    let cpu = vec!["!ia32".to_string()];
    assert!(matches_platform(&[], &cpu, "linux", "amd64"));
    assert!(!matches_platform(&[], &cpu, "linux", "ia32"));
}

#[test]
fn names_of_platforms_are_made_canonical() {
    assert_eq!(current_os("macos"), "darwin");
    assert_eq!(current_os("linux"), "linux");
    assert_eq!(current_arch("x86_64"), "amd64");
    assert_eq!(current_arch("aarch64"), "arm64");
    assert_eq!(current_arch("riscv64"), "riscv64");
}
