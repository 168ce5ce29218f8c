//! Planning logic of a JavaScript build plugin.
use vstd::prelude::*;

pub mod address_laws;
pub mod chain_laws;
pub mod closure_laws;
pub mod config_scan;
pub mod decode;
pub mod dependency_laws;
pub mod deps;
pub mod driver;
pub mod driver_bundle;
pub mod driver_install;
pub mod driver_laws;
pub mod driver_lint;
pub mod driver_test;
pub mod driver_typecheck;
pub mod eslint;
pub mod eslint_laws;
pub mod extends;
pub mod extends_laws;
pub mod fault_laws;
pub mod finding_laws;
pub mod glob;
pub mod glob_laws;
pub mod graph;
pub mod graph_laws;
pub mod hashing;
pub mod hermeticity_laws;
pub mod import_laws;
pub mod importgraph;
pub mod importparse;
pub mod install_laws;
pub mod json;
pub mod lockfile;
pub mod lockfile_laws;
pub mod message_laws;
pub mod nearest;
pub mod npm;
pub mod output;
pub mod package_json;
pub mod path;
pub mod path_laws;
pub mod phantom;
pub mod phantom_laws;
pub mod placement_laws;
pub mod platform;
pub mod pnpm;
pub mod ranked;
pub mod reach_laws;
pub mod reading_laws;
pub mod resolution;
pub mod resolve_cache;
pub mod run_laws;
pub mod runner;
pub mod scan_laws;
pub mod sort_laws;
pub mod sorted;
pub mod source;
pub mod source_laws;
pub mod sources;
pub mod specifiers;
pub mod statement_laws;
pub mod target;
pub mod test_closure;
pub mod text;
pub mod text_laws;
pub mod thirdparty;
pub mod tree;
pub mod tree_laws;
pub mod tsconfig;
pub mod tsconfig_laws;
pub mod workspace;

verus! {

/// The file name of a package manifest.
pub const PACKAGE_JSON: &'static str = "package.json";

/// Name of the target that tells what a package is.
pub const PACKAGE_INFO_TARGET: &'static str = "package_info";

/// Name of the target that type-checks a package.
pub const TYPECHECK_TARGET: &'static str = "js_typecheck";

/// Name of the targets that run a test file each.
pub const TEST_TARGET: &'static str = "js_test";

/// Name of the target that lints a package.
pub const LINT_TARGET: &'static str = "js_lint";

/// Name of the target that bundles a package from its entry point.
pub const BUNDLE_TARGET: &'static str = "js_bundle";

/// Name of the target that puts a package's third-party dependencies on disk.
pub const NODE_MODULES_SYNC_TARGET: &'static str = "node_modules";

/// Whether a directory of this name never holds a first-party package: `node_modules`, and
/// every directory whose name starts with a dot.
pub open spec fn skipped_dir(name: Seq<char>) -> bool {
    name == "node_modules"@ || name.len() > 0 && name[0] == '.'
}

/// Whether a directory of this name never holds a first-party package.
pub fn is_skipped_dir_name(name: &str) -> (r: bool)
    ensures
        r == skipped_dir(name@),
{
    let v = crate::text::to_chars(name);
    crate::text::same(name, "node_modules") || v.len() > 0 && v[0] == '.'
}

} // verus!
