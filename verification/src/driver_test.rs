//! The `js_test` driver: runs one test file with the test runner.
use crate::driver::{
    path_escapes, reject_path_escape, with_value, DriverError, DriverFailure, UnsupportedView,
};
use crate::hashing::{
    hash_of, hash_text, lemma_number_splits, lemma_texts_split, number_bytes, push_number,
    push_texts, texts_bytes,
};
use crate::nearest::slice_texts;
use crate::path::{join_path, under};
use crate::target::{
    check_fields, copy_texts, dep_inputs, field_views, first_failure,
    input_views, read_config_text, read_inputs, table_value, text_value,
    CacheConfig, Config, FieldKind, FieldSpec, FieldView, ParseRequest, TargetDef,
};
use crate::text::{same, texts, to_chars};
use vstd::prelude::*;

verus! {

/// What the driver needs to run a target.
#[derive(Debug)]
pub struct JsTestDef {
    pub testrunner: String,
    pub runner_version: String,
    pub test_file: String,
    pub runner_config_path: String,
    pub runner_config_content: String,
    /// The path of the tool on this machine, which says nothing of the result.
    pub runner_bin: String,
}

/// What the driver needs to run a target, as mathematical values.
#[verifier::ext_equal]
pub struct TestView {
    pub testrunner: Seq<char>,
    pub runner_version: Seq<char>,
    pub test_file: Seq<char>,
    pub runner_config_path: Seq<char>,
    pub runner_config_content: Seq<char>,
    pub runner_bin: Seq<char>,
}

impl View for JsTestDef {
    type V = TestView;

    open spec fn view(&self) -> TestView {
        TestView {
            testrunner: self.testrunner@,
            runner_version: self.runner_version@,
            test_file: self.test_file@,
            runner_config_path: self.runner_config_path@,
            runner_config_content: self.runner_config_content@,
            runner_bin: self.runner_bin@,
        }
    }
}

/// Counts up when a target is run in another way than before.
pub const JS_TEST_FORMAT_VERSION: u32 = 2;

/// The fields of a configuration.
pub open spec fn test_fields() -> Seq<FieldView> {
    seq![
        FieldView { key: "testrunner"@, kind: FieldKind::Text, required: true },
        FieldView { key: "runner_bin"@, kind: FieldKind::Text, required: true },
        FieldView { key: "runner_version"@, kind: FieldKind::Text, required: true },
        FieldView { key: "test_file"@, kind: FieldKind::Text, required: true },
        FieldView { key: "runner_config_path"@, kind: FieldKind::Text, required: false },
        FieldView { key: "runner_config_content"@, kind: FieldKind::Text, required: false },
        FieldView { key: "deps"@, kind: FieldKind::Table, required: false },
    ]
}

fn fields() -> (r: Vec<FieldSpec>)
    ensures
        field_views(r@) == test_fields(),
{
    let mut v: Vec<FieldSpec> = Vec::new();
    v.push(FieldSpec { key: "testrunner", kind: FieldKind::Text, required: true });
    v.push(FieldSpec { key: "runner_bin", kind: FieldKind::Text, required: true });
    v.push(FieldSpec { key: "runner_version", kind: FieldKind::Text, required: true });
    v.push(FieldSpec { key: "test_file", kind: FieldKind::Text, required: true });
    v.push(FieldSpec { key: "runner_config_path", kind: FieldKind::Text, required: false });
    v.push(FieldSpec { key: "runner_config_content", kind: FieldKind::Text, required: false });
    v.push(FieldSpec { key: "deps", kind: FieldKind::Table, required: false });
    assert(field_views(v@) =~= test_fields());
    v
}

/// What a configuration says.
pub open spec fn test_def(c: Config) -> TestView {
    TestView {
        testrunner: text_value(c, "testrunner"@),
        runner_version: text_value(c, "runner_version"@),
        test_file: text_value(c, "test_file"@),
        runner_config_path: text_value(c, "runner_config_path"@),
        runner_config_content: text_value(c, "runner_config_content"@),
        runner_bin: text_value(c, "runner_bin"@),
    }
}

/// What is wrong with a request, if anything.
pub open spec fn test_failure(c: Config, addr: Seq<char>) -> Option<DriverFailure> {
    match first_failure(c, test_fields()) {
        Some(f) => Some(DriverFailure::Config("js_test"@, f)),
        None => {
            let runner = text_value(c, "testrunner"@);
            if supported_runner(runner) {
                None
            } else {
                Some(
                    DriverFailure::Unsupported(
                        UnsupportedView {
                            driver: "js_test"@,
                            field: "testrunner"@,
                            value: runner,
                            addr,
                            expected: "`vitest` or `jest`"@,
                        },
                    ),
                )
            }
        },
    }
}

/// The hashed texts.
pub open spec fn test_parts(d: TestView) -> Seq<Seq<char>> {
    seq![
        d.testrunner,
        d.runner_version,
        d.test_file,
        d.runner_config_path,
        d.runner_config_content,
    ]
}

/// What the hash of a target is taken of.
pub open spec fn test_bytes(d: TestView) -> Seq<u8> {
    number_bytes(JS_TEST_FORMAT_VERSION as nat, 4) + texts_bytes(test_parts(d))
}

/// The driver of `js_test` targets.
#[derive(Debug, Clone, Copy)]
pub struct JsTestDriver;

impl Default for JsTestDriver {
    fn default() -> (r: JsTestDriver)
        ensures
            r == JsTestDriver,
    {
        JsTestDriver::new()
    }
}

impl JsTestDef {
    /// The hash of a target.
    pub fn hash(&self) -> (r: String)
        ensures
            r@ == hash_text(test_bytes(self@)),
    {
        let mut out: Vec<u8> = Vec::new();
        push_number(&mut out, JS_TEST_FORMAT_VERSION as u64, 4);
        let parts = [
            self.testrunner.as_str(),
            self.runner_version.as_str(),
            self.test_file.as_str(),
            self.runner_config_path.as_str(),
            self.runner_config_content.as_str(),
        ];
        assert(slice_texts(parts@) =~= test_parts(self@));
        push_texts(&mut out, &parts);
        assert(out@ =~= test_bytes(self@));
        hash_of(&out)
    }
}

impl JsTestDriver {
    /// The driver.
    pub fn new() -> (r: JsTestDriver)
        ensures
            r == JsTestDriver,
    {
        JsTestDriver
    }

    /// The name of the driver.
    pub fn name(&self) -> (r: &'static str)
        ensures
            r@ == "js_test"@,
    {
        "js_test"
    }

    /// Makes a target of a request: its definition, its inputs group by group and its hash. It
    /// has no output: all that matters is whether it succeeds.
    pub fn parse(&self, req: &ParseRequest) -> (r: Result<TargetDef<JsTestDef>, DriverError>)
        ensures
            match r {
                Err(e) => test_failure(req.config@, req.addr@) == Some(e@),
                Ok(t) => {
                    let d = test_def(req.config@);
                    &&& test_failure(req.config@, req.addr@) is None
                    &&& t.addr@ == req.addr@
                    &&& texts(t.labels@) == texts(req.labels@)
                    &&& t.def@ == d
                    &&& input_views(t.inputs@) == dep_inputs(table_value(req.config@, "deps"@))
                    &&& t.outputs@.len() == 0
                    &&& t.cache == (CacheConfig { enabled: true, remote: true })
                    &&& t.hash@ == hash_text(test_bytes(d))
                },
            },
    {
        let c = &req.config;
        match check_fields(c, &fields()) {
            Err(cause) => {
                return Err(DriverError::Config { driver: "js_test".to_owned(), cause });
            },
            Ok(_) => {},
        }
        let testrunner = read_config_text(c, "testrunner");
        if !is_supported_testrunner(testrunner.as_str()) {
            return Err(
                DriverError::Unsupported {
                    driver: "js_test".to_owned(),
                    field: "testrunner".to_owned(),
                    value: testrunner,
                    addr: req.addr.clone(),
                    expected: "`vitest` or `jest`".to_owned(),
                },
            );
        }
        let def = JsTestDef {
            testrunner: read_config_text(c, "testrunner"),
            runner_version: read_config_text(c, "runner_version"),
            test_file: read_config_text(c, "test_file"),
            runner_config_path: read_config_text(c, "runner_config_path"),
            runner_config_content: read_config_text(c, "runner_config_content"),
            runner_bin: read_config_text(c, "runner_bin"),
        };
        let hash = def.hash();
        Ok(
            TargetDef {
                addr: req.addr.clone(),
                labels: copy_texts(&req.labels),
                def,
                inputs: read_inputs(c, "deps"),
                outputs: Vec::new(),
                cache: CacheConfig { enabled: true, remote: true },
                hash,
            },
        )
    }

    /// What the test runner is called with to run a target whose files were put below `ws_dir`,
    /// in the package's directory `pkg_dir`, where its report goes too. A target whose paths
    /// may lead out of `ws_dir` is refused, and so is one of an unknown runner.
    pub fn run_args(&self, def: &JsTestDef, ws_dir: &str, pkg_dir: &str) -> (r: Result<
        Vec<String>,
        DriverError,
    >)
        ensures
            match r {
                Ok(args) => test_refusal(def@) is None && texts(args@) == test_args(
                    def@,
                    ws_dir@,
                    pkg_dir@,
                ),
                Err(e) => test_refusal(def@) == Some(e@),
            },
    {
        match reject_path_escape("test_file", def.test_file.as_str()) {
            Err(e) => {
                return Err(e);
            },
            Ok(_) => {},
        }
        let has_config = to_chars(def.runner_config_path.as_str()).len() > 0;
        if has_config {
            match reject_path_escape("runner_config_path", def.runner_config_path.as_str()) {
                Err(e) => {
                    return Err(e);
                },
                Ok(_) => {},
            }
        }
        if !is_supported_testrunner(def.testrunner.as_str()) {
            return Err(
                DriverError::Unsupported {
                    driver: "js_test".to_owned(),
                    field: "testrunner".to_owned(),
                    value: def.testrunner.clone(),
                    addr: def.test_file.clone(),
                    expected: "`vitest` or `jest`".to_owned(),
                },
            );
        }
        let vitest = same(def.testrunner.as_str(), VITEST);
        let report = with_value("--outputFile=", self.report_path(pkg_dir).as_str());
        let test_file = join_path(ws_dir, def.test_file.as_str());
        let mut args: Vec<String> = Vec::new();
        if vitest {
            args.push("run".to_owned());
        }
        if has_config {
            args.push("--config".to_owned());
            args.push(join_path(ws_dir, def.runner_config_path.as_str()));
        }
        if vitest {
            args.push("--reporter=default".to_owned());
            args.push("--reporter=json".to_owned());
            args.push(report);
        } else {
            args.push("--json".to_owned());
            args.push(report);
            args.push("--runTestsByPath".to_owned());
        }
        args.push(test_file);
        assert(texts(args@) =~= test_args(def@, ws_dir@, pkg_dir@));
        Ok(args)
    }

    /// Where the report of a target in the package's directory `pkg_dir` is written and read.
    pub fn report_path(&self, pkg_dir: &str) -> (r: String)
        ensures
            r@ == report_file(pkg_dir@),
    {
        join_path(pkg_dir, RESULT_FILE_NAME)
    }

    /// The environment that the test runner gets: the search path of the machine, if it has
    /// one, and a fixed time zone, locale and mode, so that a test cannot tell machines apart.
    pub fn run_env(&self, path: Option<&str>) -> (r: Vec<(String, String)>)
        ensures
            pair_views(r@) == test_env(
                match path {
                    Some(p) => Some(p@),
                    None => None,
                },
            ),
    {
        let mut env: Vec<(String, String)> = Vec::new();
        match path {
            Some(p) => {
                env.push(("PATH".to_owned(), p.to_owned()));
            },
            None => {},
        }
        env.push(("TZ".to_owned(), "UTC".to_owned()));
        env.push(("LANG".to_owned(), "C.UTF-8".to_owned()));
        env.push(("CI".to_owned(), "1".to_owned()));
        assert(pair_views(env@) =~= test_env(
            match path {
                Some(p) => Some(p@),
                None => None,
            },
        ));
        env
    }
}

/// The name of the one test runner.
pub const VITEST: &'static str = "vitest";

/// The name of the other test runner.
pub const JEST: &'static str = "jest";

/// The file in the package's directory that the test runner writes its report to.
pub const RESULT_FILE_NAME: &'static str = ".heph-js-test-result.json";

/// Whether a test runner is known.
pub open spec fn supported_runner(name: Seq<char>) -> bool {
    name == VITEST@ || name == JEST@
}

/// Whether a test runner is known.
pub fn is_supported_testrunner(name: &str) -> (r: bool)
    ensures
        r == supported_runner(name@),
{
    same(name, VITEST) || same(name, JEST)
}

/// Why a target is not run, if there is a reason.
pub open spec fn test_refusal(d: TestView) -> Option<DriverFailure> {
    if path_escapes(d.test_file) {
        Some(DriverFailure::PathEscape("test_file"@, d.test_file))
    } else if d.runner_config_path.len() > 0 && path_escapes(d.runner_config_path) {
        Some(DriverFailure::PathEscape("runner_config_path"@, d.runner_config_path))
    } else if !supported_runner(d.testrunner) {
        Some(
            DriverFailure::Unsupported(
                UnsupportedView {
                    driver: "js_test"@,
                    field: "testrunner"@,
                    value: d.testrunner,
                    addr: d.test_file,
                    expected: "`vitest` or `jest`"@,
                },
            ),
        )
    } else {
        None
    }
}

/// Where the report of a target in a package's directory is written and read.
pub open spec fn report_file(pkg_dir: Seq<char>) -> Seq<char> {
    under(pkg_dir, RESULT_FILE_NAME@)
}

/// What the test runner is called with.
pub open spec fn test_args(d: TestView, ws: Seq<char>, pkg_dir: Seq<char>) -> Seq<Seq<char>> {
    let config = if d.runner_config_path.len() > 0 {
        seq!["--config"@, under(ws, d.runner_config_path)]
    } else {
        Seq::empty()
    };
    let report = "--outputFile="@ + report_file(pkg_dir);
    let file = under(ws, d.test_file);
    if d.testrunner == VITEST@ {
        seq!["run"@] + config + seq!["--reporter=default"@, "--reporter=json"@, report, file]
    } else {
        config + seq!["--json"@, report, "--runTestsByPath"@, file]
    }
}

/// Pairs of texts as mathematical values.
pub open spec fn pair_views(v: Seq<(String, String)>) -> Seq<(Seq<char>, Seq<char>)> {
    v.map_values(|p: (String, String)| (p.0@, p.1@))
}

/// The environment that the test runner gets.
pub open spec fn test_env(path: Option<Seq<char>>) -> Seq<(Seq<char>, Seq<char>)> {
    let fixed = seq![("TZ"@, "UTC"@), ("LANG"@, "C.UTF-8"@), ("CI"@, "1"@)];
    match path {
        Some(p) => seq![("PATH"@, p)] + fixed,
        None => fixed,
    }
}

/// The runner is told to write its report where it is looked for.
pub proof fn the_report_is_read_where_it_is_written(
    d: TestView,
    ws: Seq<char>,
    pkg_dir: Seq<char>,
)
    ensures
        test_args(d, ws, pkg_dir).contains("--outputFile="@ + report_file(pkg_dir)),
{
    let args = test_args(d, ws, pkg_dir);
    let at = if d.testrunner == VITEST@ {
        args.len() - 2
    } else {
        args.len() - 3
    };
    assert(args[at] == "--outputFile="@ + report_file(pkg_dir));
}

/// Where the tool lies on the machine does not show in the hash.
pub proof fn the_test_tool_path_is_not_hashed(d: TestView, bin: Seq<char>)
    ensures
        test_bytes(TestView { runner_bin: bin, ..d }) == test_bytes(d),
{
}

/// Everything else shows in what the hash is taken of: no two targets that differ otherwise are
/// hashed from the same bytes.
pub proof fn every_test_field_is_hashed(a: TestView, b: TestView)
    requires
        test_bytes(a) == test_bytes(b),
    ensures
        a == (TestView { runner_bin: a.runner_bin, ..b }),
{
    let v = JS_TEST_FORMAT_VERSION as nat;
    let s = test_parts(a);
    let t = test_parts(b);
    assert(vstd::arithmetic::power::pow(256, 4) == 0x1_0000_0000) by {
        reveal_with_fuel(vstd::arithmetic::power::pow, 5);
    }
    lemma_number_splits(v, texts_bytes(s), v, texts_bytes(t), 4);
    let none = Seq::<u8>::empty();
    assert(texts_bytes(s) + none =~= texts_bytes(s));
    assert(texts_bytes(t) + none =~= texts_bytes(t));
    lemma_texts_split(s, none, t, none);
    assert(s[0] == t[0]);
    assert(s[1] == t[1]);
    assert(s[2] == t[2]);
    assert(s[3] == t[3]);
    assert(s[4] == t[4]);
}

} // verus!
