//! What holds of the targets that the drivers make, and of the calls of their tools.
use crate::driver::path_escapes;
use crate::driver_bundle::{
    bundle_args, bundle_def, bundle_escape, bundle_failure, bundle_fields, BundleView,
};
use crate::driver_install::{install_def, install_failure, install_fields, runs_scripts};
use crate::driver_lint::{lint_args, lint_def, lint_failure, lint_fields, LintView};
use crate::driver_test::{
    report_file, test_args, test_def, test_env, test_failure, test_fields, test_refusal, TestView,
    VITEST,
};
use crate::driver_typecheck::{
    typecheck_args, typecheck_def, typecheck_failure, typecheck_fields, TypecheckView,
};
use crate::path::under;
use crate::placement_laws::finite_sets_are_listed;
use crate::sort_laws::sorting_keeps_every_text;
use crate::sorted::listing;
use crate::target::{
    dep_inputs, dir_output, filled_lines, first_failure, group_inputs, inputs_of, kind_of, line_text,
    staged_paths, text_lines, Config, ConfigView, FieldKind, FieldView, InputView, OutputView, StagedView,
};
use crate::text::{digits, split_on};
use vstd::prelude::*;

verus! {

/// Whether a configuration has a text under a key.
pub open spec fn has_text(c: Config, key: Seq<char>) -> bool {
    c.dom().contains(key) && c[key] is Text
}

/// Whether a configuration has a value of the kind under a key, or none at all.
pub open spec fn kind_or_none(c: Config, key: Seq<char>, kind: FieldKind) -> bool {
    c.dom().contains(key) ==> kind_of(c[key]) == kind
}

/// Whether a flag of a configuration is set.
pub open spec fn is_set(c: Config, key: Seq<char>) -> bool {
    c.dom().contains(key) && c[key] == ConfigView::Flag(true)
}

/// Whether a value is one of two texts.
pub open spec fn is_one_of(v: ConfigView, a: Seq<char>, b: Seq<char>) -> bool {
    v == ConfigView::Text(a) || v == ConfigView::Text(b)
}

/// Whether `s` is the text under a key, or empty where there is none.
pub open spec fn is_text_of(c: Config, key: Seq<char>, s: Seq<char>) -> bool {
    if has_text(c, key) {
        c[key] == ConfigView::Text(s)
    } else {
        s.len() == 0
    }
}

/// A configuration has no fault just when every field is of its kind where it is there, and is
/// there where it is required.
pub proof fn a_faultless_config_has_its_fields(c: Config, fields: Seq<FieldView>)
    ensures
        first_failure(c, fields) is None <==> forall|i: int|
            0 <= i < fields.len() ==> kind_or_none(c, (#[trigger] fields[i]).key, fields[i].kind)
                && (fields[i].required ==> c.dom().contains(fields[i].key)),
    decreases fields.len(),
{
    if fields.len() > 0 {
        let rest = fields.drop_first();
        a_faultless_config_has_its_fields(c, rest);
        assert forall|i: int| 0 < i < fields.len() implies fields[i] == rest[i - 1] by {}
        if first_failure(c, fields) is None {
            assert forall|i: int| 0 <= i < fields.len() implies kind_or_none(
                c,
                (#[trigger] fields[i]).key,
                fields[i].kind,
            ) && (fields[i].required ==> c.dom().contains(fields[i].key)) by {
                if i > 0 {
                    assert(fields[i] == rest[i - 1]);
                }
            }
        } else if kind_or_none(c, fields[0].key, fields[0].kind) && (fields[0].required
            ==> c.dom().contains(fields[0].key)) {
            let i = choose|i: int|
                0 <= i < rest.len() && !(kind_or_none(c, (#[trigger] rest[i]).key, rest[i].kind) && (
                rest[i].required ==> c.dom().contains(rest[i].key)));
            assert(fields[i + 1] == rest[i]);
        }
    }
}

/// A test target is made of exactly the configurations that have its required fields, and every
/// field in its kind, with values that it supports.
pub proof fn test_targets_need_their_fields(c: Config, addr: Seq<char>)
    ensures
        test_failure(c, addr) is None <==> {
            &&& has_text(c, "testrunner"@)
            &&& has_text(c, "runner_bin"@)
            &&& has_text(c, "runner_version"@)
            &&& has_text(c, "test_file"@)
            &&& kind_or_none(c, "runner_config_path"@, FieldKind::Text)
            &&& kind_or_none(c, "runner_config_content"@, FieldKind::Text)
            &&& kind_or_none(c, "deps"@, FieldKind::Table)
            &&& is_one_of(c["testrunner"@], "vitest"@, "jest"@)
        },
{
    let fs = test_fields();
    a_faultless_config_has_its_fields(c, fs);
    assert(fs[0].key == "testrunner"@);
    assert(fs[1].key == "runner_bin"@);
    assert(fs[2].key == "runner_version"@);
    assert(fs[3].key == "test_file"@);
    assert(fs[4].key == "runner_config_path"@);
    assert(fs[5].key == "runner_config_content"@);
    assert(fs[6].key == "deps"@);
}

/// A test target holds what its configuration says, each field by its own name.
pub proof fn test_targets_hold_their_configuration(c: Config)
    ensures
        is_text_of(c, "testrunner"@, test_def(c).testrunner),
        is_text_of(c, "runner_bin"@, test_def(c).runner_bin),
        is_text_of(c, "runner_version"@, test_def(c).runner_version),
        is_text_of(c, "test_file"@, test_def(c).test_file),
        is_text_of(c, "runner_config_path"@, test_def(c).runner_config_path),
        is_text_of(c, "runner_config_content"@, test_def(c).runner_config_content),
{}

/// A bundle target is made of exactly the configurations that have its required fields, and every
/// field in its kind, with values that it supports.
pub proof fn bundle_targets_need_their_fields(c: Config, addr: Seq<char>)
    ensures
        bundle_failure(c, addr) is None <==> {
            &&& has_text(c, "bundler"@)
            &&& has_text(c, "bundler_bin"@)
            &&& has_text(c, "bundler_version"@)
            &&& has_text(c, "entry_file"@)
            &&& has_text(c, "format"@)
            &&& has_text(c, "target"@)
            &&& has_text(c, "outdir"@)
            &&& kind_or_none(c, "bundler_config_path"@, FieldKind::Text)
            &&& kind_or_none(c, "bundler_config_content"@, FieldKind::Text)
            &&& kind_or_none(c, "tsconfig_path"@, FieldKind::Text)
            &&& kind_or_none(c, "tsconfig_content"@, FieldKind::Text)
            &&& kind_or_none(c, "external"@, FieldKind::List)
            &&& kind_or_none(c, "deps"@, FieldKind::Table)
            &&& is_one_of(c["format"@], "esm"@, "cjs"@)
            &&& is_one_of(c["target"@], "node"@, "browser"@)
        },
{
    let fs = bundle_fields();
    a_faultless_config_has_its_fields(c, fs);
    assert(fs[0].key == "bundler"@);
    assert(fs[1].key == "bundler_bin"@);
    assert(fs[2].key == "bundler_version"@);
    assert(fs[3].key == "entry_file"@);
    assert(fs[4].key == "format"@);
    assert(fs[5].key == "target"@);
    assert(fs[6].key == "outdir"@);
    assert(fs[7].key == "bundler_config_path"@);
    assert(fs[8].key == "bundler_config_content"@);
    assert(fs[9].key == "external"@);
    assert(fs[10].key == "tsconfig_path"@);
    assert(fs[11].key == "tsconfig_content"@);
    assert(fs[12].key == "deps"@);
}

/// A bundle target holds what its configuration says, each field by its own name.
pub proof fn bundle_targets_hold_their_configuration(c: Config)
    ensures
        is_text_of(c, "bundler"@, bundle_def(c).bundler),
        is_text_of(c, "bundler_bin"@, bundle_def(c).bundler_bin),
        is_text_of(c, "bundler_version"@, bundle_def(c).bundler_version),
        is_text_of(c, "entry_file"@, bundle_def(c).entry_file),
        is_text_of(c, "format"@, bundle_def(c).format),
        is_text_of(c, "target"@, bundle_def(c).target),
        is_text_of(c, "outdir"@, bundle_def(c).outdir),
        is_text_of(c, "bundler_config_path"@, bundle_def(c).bundler_config_path),
        is_text_of(c, "bundler_config_content"@, bundle_def(c).bundler_config_content),
        is_text_of(c, "tsconfig_path"@, bundle_def(c).tsconfig_path),
        is_text_of(c, "tsconfig_content"@, bundle_def(c).tsconfig_content),
        c.dom().contains("external"@) && c["external"@] is List
            ==> bundle_def(c).external.to_multiset() == c["external"@]->List_0.to_multiset(),
        !c.dom().contains("external"@) ==> bundle_def(c).external.len() == 0,
{
    if c.dom().contains("external"@) && c["external"@] is List {
        sorting_keeps_every_text(c["external"@]->List_0);
    }
    sorting_keeps_every_text(Seq::empty());
}

/// A lint target is made of exactly the configurations that have its required fields, and every
/// field in its kind.
pub proof fn lint_targets_need_their_fields(c: Config)
    ensures
        lint_failure(c) is None <==> {
            &&& has_text(c, "linter"@)
            &&& has_text(c, "linter_bin"@)
            &&& has_text(c, "linter_version"@)
            &&& kind_or_none(c, "config_path"@, FieldKind::Text)
            &&& kind_or_none(c, "config_content"@, FieldKind::Text)
            &&& kind_or_none(c, "tsconfig_path"@, FieldKind::Text)
            &&& kind_or_none(c, "tsconfig_content"@, FieldKind::Text)
            &&& kind_or_none(c, "deps"@, FieldKind::Table)
        },
{
    let fs = lint_fields();
    a_faultless_config_has_its_fields(c, fs);
    assert(fs[0].key == "linter"@);
    assert(fs[1].key == "linter_bin"@);
    assert(fs[2].key == "linter_version"@);
    assert(fs[3].key == "config_path"@);
    assert(fs[4].key == "config_content"@);
    assert(fs[5].key == "tsconfig_path"@);
    assert(fs[6].key == "tsconfig_content"@);
    assert(fs[7].key == "deps"@);
}

/// A lint target holds what its configuration says, each field by its own name.
pub proof fn lint_targets_hold_their_configuration(c: Config)
    ensures
        is_text_of(c, "linter"@, lint_def(c).linter),
        is_text_of(c, "linter_bin"@, lint_def(c).linter_bin),
        is_text_of(c, "linter_version"@, lint_def(c).linter_version),
        is_text_of(c, "config_path"@, lint_def(c).config_path),
        is_text_of(c, "config_content"@, lint_def(c).config_content),
        is_text_of(c, "tsconfig_path"@, lint_def(c).tsconfig_path),
        is_text_of(c, "tsconfig_content"@, lint_def(c).tsconfig_content),
{}

/// A type-check target is made of exactly the configurations that have its required fields, and
/// every field in its kind.
pub proof fn typecheck_targets_need_their_fields(c: Config)
    ensures
        typecheck_failure(c) is None <==> {
            &&& has_text(c, "tsc_bin"@)
            &&& has_text(c, "tsc_version"@)
            &&& kind_or_none(c, "tsconfig_path"@, FieldKind::Text)
            &&& kind_or_none(c, "tsconfig_content"@, FieldKind::Text)
            &&& kind_or_none(c, "deps"@, FieldKind::Table)
        },
{
    let fs = typecheck_fields();
    a_faultless_config_has_its_fields(c, fs);
    assert(fs[0].key == "tsc_bin"@);
    assert(fs[1].key == "tsc_version"@);
    assert(fs[2].key == "tsconfig_path"@);
    assert(fs[3].key == "tsconfig_content"@);
    assert(fs[4].key == "deps"@);
}

/// A type-check target holds what its configuration says, each field by its own name.
pub proof fn typecheck_targets_hold_their_configuration(c: Config)
    ensures
        is_text_of(c, "tsc_bin"@, typecheck_def(c).tsc_bin),
        is_text_of(c, "tsc_version"@, typecheck_def(c).tsc_version),
        is_text_of(c, "tsconfig_path"@, typecheck_def(c).tsconfig_path),
        is_text_of(c, "tsconfig_content"@, typecheck_def(c).tsconfig_content),
{}

/// An install target is made of exactly the configurations that have its required fields, and every
/// field in its kind, with values that it supports.
pub proof fn install_targets_need_their_fields(c: Config)
    ensures
        install_failure(c) is None <==> {
            &&& has_text(c, "name"@)
            &&& has_text(c, "version"@)
            &&& has_text(c, "integrity"@)
            &&& has_text(c, "resolved"@)
            &&& has_text(c, "os"@)
            &&& has_text(c, "arch"@)
            &&& kind_or_none(c, "has_install_script"@, FieldKind::Flag)
            &&& kind_or_none(c, "scripts_allowed"@, FieldKind::Flag)
            &&& is_set(c, "has_install_script"@) ==> is_set(c, "scripts_allowed"@)
        },
{
    let fs = install_fields();
    a_faultless_config_has_its_fields(c, fs);
    assert(fs[0].key == "name"@);
    assert(fs[1].key == "version"@);
    assert(fs[2].key == "integrity"@);
    assert(fs[3].key == "resolved"@);
    assert(fs[4].key == "os"@);
    assert(fs[5].key == "arch"@);
    assert(fs[6].key == "has_install_script"@);
    assert(fs[7].key == "scripts_allowed"@);
}

/// An install target holds what its configuration says, each field by its own name.
pub proof fn install_targets_hold_their_configuration(c: Config)
    ensures
        is_text_of(c, "name"@, install_def(c).name),
        is_text_of(c, "version"@, install_def(c).version),
        is_text_of(c, "integrity"@, install_def(c).integrity),
        is_text_of(c, "resolved"@, install_def(c).resolved),
        is_text_of(c, "os"@, install_def(c).os),
        is_text_of(c, "arch"@, install_def(c).arch),
        install_def(c).has_install_script <==> is_set(c, "has_install_script"@),
        install_def(c).scripts_allowed <==> is_set(c, "has_install_script"@) && is_set(
            c,
            "scripts_allowed"@,
        ),
{}

/// A test target is run unless its test file or a configuration that it names may lead out of the
/// workspace, or its runner is not known.
pub proof fn test_targets_are_refused_for_a_reason(d: TestView)
    ensures
        test_refusal(d) is None <==> {
            &&& !path_escapes(d.test_file)
            &&& d.runner_config_path.len() > 0 ==> !path_escapes(d.runner_config_path)
            &&& d.testrunner == "vitest"@ || d.testrunner == "jest"@
        },
{
}

/// Either runner gets the configuration that the target names, right behind `--config`; without
/// one it gets no `--config` before the test file.
pub proof fn either_runner_gets_the_named_configuration(
    d: TestView,
    ws: Seq<char>,
    pkg_dir: Seq<char>,
)
    ensures
        d.runner_config_path.len() > 0 ==> exists|i: int|
            0 <= i < test_args(d, ws, pkg_dir).len() - 1 && #[trigger] test_args(d, ws, pkg_dir)[i]
                == "--config"@ && test_args(d, ws, pkg_dir)[i + 1] == under(
                ws,
                d.runner_config_path,
            ),
        d.runner_config_path.len() == 0 ==> forall|i: int|
            0 <= i < test_args(d, ws, pkg_dir).len() - 1 ==> #[trigger] test_args(
                d,
                ws,
                pkg_dir,
            )[i] != "--config"@,
{
    let args = test_args(d, ws, pkg_dir);
    reveal_strlit("run");
    reveal_strlit("--config");
    reveal_strlit("--json");
    reveal_strlit("--outputFile=");
    reveal_strlit("--runTestsByPath");
    reveal_strlit("--reporter=default");
    reveal_strlit("--reporter=json");
    assert("--config"@.len() == 8);
    assert("run"@.len() == 3);
    assert("--json"@.len() == 6);
    assert("--runTestsByPath"@.len() == 16);
    assert("--reporter=default"@.len() == 18);
    assert("--reporter=json"@.len() == 15);
    let report = "--outputFile="@ + report_file(pkg_dir);
    assert("--config"@[2] == 'c');
    assert(report[2] == "--outputFile="@[2]);
    assert("--outputFile="@[2] == 'o');
    if d.runner_config_path.len() > 0 {
        if d.testrunner == VITEST@ {
            assert(args[1] == "--config"@);
            assert(args[2] == under(ws, d.runner_config_path));
        } else {
            assert(args[0] == "--config"@);
            assert(args[1] == under(ws, d.runner_config_path));
        }
    }
}

/// The last argument is the test file below the workspace, and each runner is told to run once
/// and only that file: vitest by `run` as the first argument, jest by `--runTestsByPath` right
/// before the file. Both are told to write a report in JSON, vitest beside what it prints.
pub proof fn either_runner_runs_the_test_file(d: TestView, ws: Seq<char>, pkg_dir: Seq<char>)
    ensures
        test_args(d, ws, pkg_dir).len() > 1,
        test_args(d, ws, pkg_dir).last() == under(ws, d.test_file),
        d.testrunner == "vitest"@ ==> test_args(d, ws, pkg_dir)[0] == "run"@ && test_args(
            d,
            ws,
            pkg_dir,
        ).contains("--reporter=json"@) && test_args(d, ws, pkg_dir).contains(
            "--reporter=default"@,
        ),
        d.testrunner == "jest"@ ==> test_args(d, ws, pkg_dir)[test_args(d, ws, pkg_dir).len() - 2]
            == "--runTestsByPath"@ && test_args(d, ws, pkg_dir).contains("--json"@),
{
    let args = test_args(d, ws, pkg_dir);
    reveal_strlit("vitest");
    reveal_strlit("jest");
    assert("vitest"@.len() == 6);
    assert("jest"@.len() == 4);
    if d.testrunner == "vitest"@ {
        assert(args[args.len() - 3] == "--reporter=json"@);
        assert(args[args.len() - 4] == "--reporter=default"@);
    }
    if d.testrunner == "jest"@ {
        assert(args[args.len() - 4] == "--json"@);
    }
}

/// A test sees the same time zone, locale and mode on every machine, and of the machine only its
/// search path.
pub proof fn tests_see_one_environment(path: Option<Seq<char>>, name: Seq<char>, value: Seq<char>)
    ensures
        test_env(path).contains((name, value)) <==> (name == "TZ"@ && value == "UTC"@) || (name
            == "LANG"@ && value == "C.UTF-8"@) || (name == "CI"@ && value == "1"@) || (name
            == "PATH"@ && path == Some(value)),
{
    let env = test_env(path);
    match path {
        Some(p) => {
            assert(env[0] == ("PATH"@, p));
            assert(env[1] == ("TZ"@, "UTC"@));
            assert(env[2] == ("LANG"@, "C.UTF-8"@));
            assert(env[3] == ("CI"@, "1"@));
        },
        None => {
            assert(env[0] == ("TZ"@, "UTC"@));
            assert(env[1] == ("LANG"@, "C.UTF-8"@));
            assert(env[2] == ("CI"@, "1"@));
        },
    }
}

/// A bundle target is run unless its entry, its output directory or a tsconfig that it names may
/// lead out of the workspace.
pub proof fn bundle_targets_are_refused_for_a_reason(d: BundleView)
    ensures
        bundle_escape(d) is None <==> {
            &&& !path_escapes(d.entry_file)
            &&& !path_escapes(d.outdir)
            &&& d.tsconfig_path.len() > 0 ==> !path_escapes(d.tsconfig_path)
        },
{
}

/// The bundler gets the entry first, then what the target says: to bundle, in which format, for
/// which platform, into which directory, with the tsconfig that it names, and every package that
/// stays outside. It gets nothing else.
pub proof fn the_bundler_gets_what_the_target_says(d: BundleView, ws: Seq<char>, arg: Seq<char>)
    ensures
        bundle_args(d, ws)[0] == under(ws, d.entry_file),
        bundle_args(d, ws).contains(arg) <==> {
            ||| arg == under(ws, d.entry_file)
            ||| arg == "--bundle"@
            ||| arg == "--format="@ + d.format
            ||| arg == "--platform="@ + d.target
            ||| arg == "--outdir="@ + under(ws, d.outdir)
            ||| d.tsconfig_path.len() > 0 && arg == "--tsconfig="@ + under(ws, d.tsconfig_path)
            ||| exists|i: int|
                0 <= i < d.external.len() && arg == "--external:"@ + #[trigger] d.external[i]
        },
{
    let args = bundle_args(d, ws);
    let n: int = if d.tsconfig_path.len() > 0 {
        6
    } else {
        5
    };
    assert(args[0] == under(ws, d.entry_file));
    assert(args[1] == "--bundle"@);
    assert(args[2] == "--format="@ + d.format);
    assert(args[3] == "--platform="@ + d.target);
    assert(args[4] == "--outdir="@ + under(ws, d.outdir));
    if d.tsconfig_path.len() > 0 {
        assert(args[5] == "--tsconfig="@ + under(ws, d.tsconfig_path));
    }
    assert forall|i: int| 0 <= i < d.external.len() implies args[n + i] == "--external:"@
        + #[trigger] d.external[i] by {}
    if args.contains(arg) {
        let k = choose|k: int| 0 <= k < args.len() && args[k] == arg;
        if k >= n {
            assert(arg == "--external:"@ + d.external[k - n]);
        } else {
            assert(k == 0 || k == 1 || k == 2 || k == 3 || k == 4 || k == 5);
        }
    }
    if exists|i: int| 0 <= i < d.external.len() && arg == "--external:"@ + #[trigger] d.external[i] {
        let i = choose|i: int|
            0 <= i < d.external.len() && arg == "--external:"@ + #[trigger] d.external[i];
        assert(args[n + i] == arg);
    }
}

/// The linter gets the configuration that the target names, right behind `-c`, and then every
/// source file in order; without a configuration it gets the source files alone.
pub proof fn the_linter_gets_every_source(d: LintView, ws: Seq<char>, srcs: Seq<Seq<char>>)
    ensures
        d.config_path.len() == 0 ==> lint_args(d, ws, srcs) == srcs,
        d.config_path.len() > 0 ==> {
            &&& lint_args(d, ws, srcs).len() == srcs.len() + 2
            &&& lint_args(d, ws, srcs)[0] == "-c"@
            &&& lint_args(d, ws, srcs)[1] == under(ws, d.config_path)
            &&& forall|i: int|
                0 <= i < srcs.len() ==> lint_args(d, ws, srcs)[i + 2] == #[trigger] srcs[i]
        },
{
}

/// The type checker writes nothing, and checks the project that the target names or else every
/// source file.
pub proof fn the_type_checker_checks_a_project_or_every_source(
    d: TypecheckView,
    ws: Seq<char>,
    srcs: Seq<Seq<char>>,
)
    ensures
        typecheck_args(d, ws, srcs)[0] == "--noEmit"@,
        d.tsconfig_path.len() > 0 ==> {
            &&& typecheck_args(d, ws, srcs).len() == 3
            &&& typecheck_args(d, ws, srcs)[1] == "--project"@
            &&& typecheck_args(d, ws, srcs)[2] == under(ws, d.tsconfig_path)
        },
        d.tsconfig_path.len() == 0 ==> {
            &&& typecheck_args(d, ws, srcs).len() == srcs.len() + 1
            &&& forall|i: int|
                0 <= i < srcs.len() ==> typecheck_args(d, ws, srcs)[i + 1] == #[trigger] srcs[i]
        },
{
}

proof fn lemma_inputs_of(
    m: Map<Seq<char>, Seq<Seq<char>>>,
    groups: Seq<Seq<char>>,
    x: InputView,
)
    ensures
        inputs_of(m, groups).contains(x) <==> exists|g: int, i: int|
            0 <= g < groups.len() && 0 <= i < m[#[trigger] groups[g]].len() && x == (InputView {
                target: #[trigger] m[groups[g]][i],
                origin_id: "dep|"@ + groups[g] + "|"@ + digits(i as nat),
                hashed: true,
                runtime: true,
            }),
    decreases groups.len(),
{
    if groups.len() > 0 {
        let rest = groups.drop_last();
        let last = groups.len() - 1;
        let before = inputs_of(m, rest);
        let here = group_inputs(groups.last(), m[groups.last()]);
        let now = inputs_of(m, groups);
        lemma_inputs_of(m, rest, x);
        if before.contains(x) {
            let k = choose|k: int| 0 <= k < before.len() && before[k] == x;
            assert(now[k] == x);
            let (g, i) = choose|g: int, i: int|
                0 <= g < rest.len() && 0 <= i < m[#[trigger] rest[g]].len() && x == (InputView {
                    target: #[trigger] m[rest[g]][i],
                    origin_id: "dep|"@ + rest[g] + "|"@ + digits(i as nat),
                    hashed: true,
                    runtime: true,
                });
            assert(groups[g] == rest[g]);
            assert(m[groups[g]][i] == x.target);
        }
        if here.contains(x) {
            let k = choose|k: int| 0 <= k < here.len() && here[k] == x;
            assert(now[before.len() + k] == x);
            assert(m[groups[last]][k] == x.target);
        }
        if now.contains(x) {
            let k = choose|k: int| 0 <= k < now.len() && now[k] == x;
            if k < before.len() {
                assert(before[k] == x);
            } else {
                assert(here[k - before.len()] == x);
            }
        }
        if exists|g: int, i: int|
            0 <= g < groups.len() && 0 <= i < m[#[trigger] groups[g]].len() && x == (InputView {
                target: #[trigger] m[groups[g]][i],
                origin_id: "dep|"@ + groups[g] + "|"@ + digits(i as nat),
                hashed: true,
                runtime: true,
            }) {
            let (g, i) = choose|g: int, i: int|
                0 <= g < groups.len() && 0 <= i < m[#[trigger] groups[g]].len() && x == (InputView {
                    target: #[trigger] m[groups[g]][i],
                    origin_id: "dep|"@ + groups[g] + "|"@ + digits(i as nat),
                    hashed: true,
                    runtime: true,
                });
            if g < last {
                assert(rest[g] == groups[g]);
                assert(m[rest[g]][i] == x.target);
            } else {
                assert(here[i] == x);
            }
        }
    }
}

/// Every address of every group of dependencies is an input, in the hash and at run time, that
/// tells its group and its place there; there is no other input.
pub proof fn every_dependency_is_an_input(m: Map<Seq<char>, Seq<Seq<char>>>, x: InputView)
    requires
        m.dom().finite(),
    ensures
        dep_inputs(m).contains(x) <==> exists|group: Seq<char>, i: int|
            m.dom().contains(group) && 0 <= i < m[group].len() && x == (InputView {
                target: #[trigger] m[group][i],
                origin_id: "dep|"@ + group + "|"@ + digits(i as nat),
                hashed: true,
                runtime: true,
            }),
{
    let groups = listing(m.dom());
    finite_sets_are_listed(m.dom());
    lemma_inputs_of(m, groups, x);
    if dep_inputs(m).contains(x) {
        let (g, i) = choose|g: int, i: int|
            0 <= g < groups.len() && 0 <= i < m[#[trigger] groups[g]].len() && x == (InputView {
                target: #[trigger] m[groups[g]][i],
                origin_id: "dep|"@ + groups[g] + "|"@ + digits(i as nat),
                hashed: true,
                runtime: true,
            });
        assert(groups.to_set().contains(groups[g]));
        assert(m[groups[g]][i] == x.target);
    }
    if exists|group: Seq<char>, i: int|
        m.dom().contains(group) && 0 <= i < m[group].len() && x == (InputView {
            target: #[trigger] m[group][i],
            origin_id: "dep|"@ + group + "|"@ + digits(i as nat),
            hashed: true,
            runtime: true,
        }) {
        let (group, i) = choose|group: Seq<char>, i: int|
            m.dom().contains(group) && 0 <= i < m[group].len() && x == (InputView {
                target: #[trigger] m[group][i],
                origin_id: "dep|"@ + group + "|"@ + digits(i as nat),
                hashed: true,
                runtime: true,
            });
        assert(groups.to_set().contains(group));
        let g = choose|g: int| 0 <= g < groups.len() && groups[g] == group;
        assert(m[groups[g]][i] == x.target);
    }
}

proof fn lemma_both<T>(a: Seq<T>, b: Seq<T>, x: T)
    ensures
        (a + b).contains(x) <==> a.contains(x) || b.contains(x),
{
    if a.contains(x) {
        let i = choose|i: int| 0 <= i < a.len() && a[i] == x;
        assert((a + b)[i] == x);
    }
    if b.contains(x) {
        let i = choose|i: int| 0 <= i < b.len() && b[i] == x;
        assert((a + b)[a.len() + i] == x);
    }
}

/// Every line of every list that was staged for a group is a path of that group, and nothing
/// else is.
pub proof fn every_staged_line_is_a_path(list: Seq<StagedView>, group: Seq<char>, p: Seq<char>)
    ensures
        staged_paths(list, group).contains(p) <==> exists|i: int|
            0 <= i < list.len() && ("dep|"@ + group + "|"@).is_prefix_of(
                (#[trigger] list[i]).origin_id,
            ) && (list[i].list matches Some(text) && text_lines(text).contains(p)),
    decreases list.len(),
{
    if list.len() > 0 {
        let rest = list.drop_last();
        let last = list.last();
        every_staged_line_is_a_path(rest, group, p);
        if let Some(text) = last.list {
            lemma_both(staged_paths(rest, group), text_lines(text), p);
        }
        if staged_paths(rest, group).contains(p) {
            let i = choose|i: int|
                0 <= i < rest.len() && ("dep|"@ + group + "|"@).is_prefix_of(
                    (#[trigger] rest[i]).origin_id,
                ) && (rest[i].list matches Some(text) && text_lines(text).contains(p));
            assert(list[i] == rest[i]);
        }
        assert(list[list.len() - 1] == last);
        if exists|i: int|
            0 <= i < list.len() && ("dep|"@ + group + "|"@).is_prefix_of(
                (#[trigger] list[i]).origin_id,
            ) && (list[i].list matches Some(text) && text_lines(text).contains(p)) {
            let i = choose|i: int|
                0 <= i < list.len() && ("dep|"@ + group + "|"@).is_prefix_of(
                    (#[trigger] list[i]).origin_id,
                ) && (list[i].list matches Some(text) && text_lines(text).contains(p));
            if i < rest.len() {
                assert(rest[i] == list[i]);
            }
        }
    }
}

proof fn lemma_filled(lines: Seq<Seq<char>>, line: Seq<char>)
    ensures
        filled_lines(lines).contains(line) <==> line.len() > 0 && (lines.contains(
            line.push('\r'),
        ) || line.last() != '\r' && lines.contains(line)),
    decreases lines.len(),
{
    if lines.len() > 0 {
        let rest = lines.drop_last();
        let last = lines.last();
        let before = filled_lines(rest);
        let now = filled_lines(lines);
        lemma_filled(rest, line);
        assert(lines =~= rest.push(last));
        assert forall|x: Seq<char>| lines.contains(x) <==> rest.contains(x) || x == last by {
            if rest.contains(x) {
                let i = choose|i: int| 0 <= i < rest.len() && rest[i] == x;
                assert(lines[i] == x);
            }
            if lines.contains(x) {
                let i = choose|i: int| 0 <= i < lines.len() && lines[i] == x;
                if i < rest.len() {
                    assert(rest[i] == x);
                }
            }
            assert(lines[lines.len() - 1] == last);
        }
        if last.len() > 0 && last.last() == '\r' {
            assert(last.drop_last().push('\r') =~= last);
        }
        assert(line.push('\r').drop_last() =~= line);
        assert(line.push('\r').last() == '\r');
        if before.contains(line) {
            let k = choose|k: int| 0 <= k < before.len() && before[k] == line;
            assert(now[k] == line);
        }
        if now.len() > before.len() {
            assert(now[before.len() as int] == line_text(last));
        }
        if now.contains(line) {
            let k = choose|k: int| 0 <= k < now.len() && now[k] == line;
            if k < before.len() {
                assert(before[k] == line);
            }
        }
    }
}

/// The lines of a text are its pieces between line breaks that are not empty, each without the
/// carriage return before its line break.
pub proof fn lines_are_the_filled_pieces(text: Seq<char>, line: Seq<char>)
    requires
        !line.contains('\r'),
    ensures
        text_lines(text).contains(line) <==> line.len() > 0 && (split_on(text, '\n').contains(line)
            || split_on(text, '\n').drop_last().contains(line.push('\r'))),
{
    let pieces = split_on(text, '\n');
    let most = pieces.drop_last();
    lemma_filled(most, line);
    assert(pieces.len() > 0);
    if line.len() > 0 {
        assert(line.contains(line.last()));
    }
    assert(pieces[pieces.len() - 1] == pieces.last());
    if most.contains(line) {
        let i = choose|i: int| 0 <= i < most.len() && most[i] == line;
        assert(pieces[i] == line);
    }
    if pieces.contains(line) {
        let i = choose|i: int| 0 <= i < pieces.len() && pieces[i] == line;
        if i < most.len() {
            assert(most[i] == line);
        }
    }
    let filled = filled_lines(most);
    let all = text_lines(text);
    if filled.contains(line) {
        let k = choose|k: int| 0 <= k < filled.len() && filled[k] == line;
        assert(all[k] == line);
    }
    if all.len() > filled.len() {
        assert(all[filled.len() as int] == pieces.last());
    }
    if all.contains(line) {
        let k = choose|k: int| 0 <= k < all.len() && all[k] == line;
        if k < filled.len() {
            assert(filled[k] == line);
        }
    }
}

/// A target runs scripts just when there is one and it is allowed: only then it is not cached.
pub proof fn scripts_run_when_there_is_one_and_it_is_allowed(c: Config)
    ensures
        runs_scripts(c) <==> is_set(c, "has_install_script"@) && is_set(c, "scripts_allowed"@),
{
}

/// The output of a target that fills a directory is that directory, and is collected.
pub proof fn a_directory_is_collected(dir: Seq<char>, o: OutputView)
    ensures
        dir_output(dir).contains(o) <==> o.dir == dir && o.collect && o.group.len() == 0,
{
    let all = dir_output(dir);
    assert(all[0] == OutputView { group: Seq::empty(), dir, collect: true });
    if o.dir == dir && o.collect && o.group.len() == 0 {
        assert(o.group =~= Seq::empty());
        assert(all[0] == o);
    }
}

} // verus!
