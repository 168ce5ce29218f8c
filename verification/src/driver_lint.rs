//! The `js_lint` driver: lints a package.
use crate::driver::{
    make_tool_failure, tool_failure_text, DriverError, DriverFailure, ToolExit, ToolFailure,
};
use crate::hashing::{
    hash_of, hash_text, lemma_number_splits, lemma_texts_split, number_bytes, push_number,
    push_texts, texts_bytes,
};
use crate::nearest::slice_texts;
use crate::output::{lint_detail, lint_failure_detail};
use crate::path::{join_path, under};
use crate::target::{
    check_fields, copy_texts, dep_inputs, field_views, first_failure, group_staged_paths,
    input_views, read_config_text, read_inputs, staged_paths, staged_views, table_value, text_value,
    CacheConfig, Config, FieldKind, FieldSpec, FieldView, ParseRequest, StagedInput, TargetDef,
};
use crate::text::{texts, to_chars};
use vstd::prelude::*;

verus! {

/// What the driver needs to run a target.
#[derive(Debug)]
pub struct JsLintDef {
    pub linter: String,
    pub linter_version: String,
    pub config_path: String,
    pub config_content: String,
    pub tsconfig_path: String,
    pub tsconfig_content: String,
    /// The path of the tool on this machine, which says nothing of the result.
    pub linter_bin: String,
}

/// What the driver needs to run a target, as mathematical values.
#[verifier::ext_equal]
pub struct LintView {
    pub linter: Seq<char>,
    pub linter_version: Seq<char>,
    pub config_path: Seq<char>,
    pub config_content: Seq<char>,
    pub tsconfig_path: Seq<char>,
    pub tsconfig_content: Seq<char>,
    pub linter_bin: Seq<char>,
}

impl View for JsLintDef {
    type V = LintView;

    open spec fn view(&self) -> LintView {
        LintView {
            linter: self.linter@,
            linter_version: self.linter_version@,
            config_path: self.config_path@,
            config_content: self.config_content@,
            tsconfig_path: self.tsconfig_path@,
            tsconfig_content: self.tsconfig_content@,
            linter_bin: self.linter_bin@,
        }
    }
}

/// Counts up when a target is run in another way than before.
pub const JS_LINT_FORMAT_VERSION: u32 = 1;

/// The fields of a configuration.
pub open spec fn lint_fields() -> Seq<FieldView> {
    seq![
        FieldView { key: "linter"@, kind: FieldKind::Text, required: true },
        FieldView { key: "linter_bin"@, kind: FieldKind::Text, required: true },
        FieldView { key: "linter_version"@, kind: FieldKind::Text, required: true },
        FieldView { key: "config_path"@, kind: FieldKind::Text, required: false },
        FieldView { key: "config_content"@, kind: FieldKind::Text, required: false },
        FieldView { key: "tsconfig_path"@, kind: FieldKind::Text, required: false },
        FieldView { key: "tsconfig_content"@, kind: FieldKind::Text, required: false },
        FieldView { key: "deps"@, kind: FieldKind::Table, required: false },
    ]
}

fn fields() -> (r: Vec<FieldSpec>)
    ensures
        field_views(r@) == lint_fields(),
{
    let mut v: Vec<FieldSpec> = Vec::new();
    v.push(FieldSpec { key: "linter", kind: FieldKind::Text, required: true });
    v.push(FieldSpec { key: "linter_bin", kind: FieldKind::Text, required: true });
    v.push(FieldSpec { key: "linter_version", kind: FieldKind::Text, required: true });
    v.push(FieldSpec { key: "config_path", kind: FieldKind::Text, required: false });
    v.push(FieldSpec { key: "config_content", kind: FieldKind::Text, required: false });
    v.push(FieldSpec { key: "tsconfig_path", kind: FieldKind::Text, required: false });
    v.push(FieldSpec { key: "tsconfig_content", kind: FieldKind::Text, required: false });
    v.push(FieldSpec { key: "deps", kind: FieldKind::Table, required: false });
    assert(field_views(v@) =~= lint_fields());
    v
}

/// What a configuration says.
pub open spec fn lint_def(c: Config) -> LintView {
    LintView {
        linter: text_value(c, "linter"@),
        linter_version: text_value(c, "linter_version"@),
        config_path: text_value(c, "config_path"@),
        config_content: text_value(c, "config_content"@),
        tsconfig_path: text_value(c, "tsconfig_path"@),
        tsconfig_content: text_value(c, "tsconfig_content"@),
        linter_bin: text_value(c, "linter_bin"@),
    }
}

/// What is wrong with a request, if anything.
pub open spec fn lint_failure(c: Config) -> Option<DriverFailure> {
    match first_failure(c, lint_fields()) {
        Some(f) => Some(DriverFailure::Config("js_lint"@, f)),
        None => None,
    }
}

/// The hashed texts.
pub open spec fn lint_parts(d: LintView) -> Seq<Seq<char>> {
    seq![
        d.linter,
        d.linter_version,
        d.config_path,
        d.config_content,
        d.tsconfig_path,
        d.tsconfig_content,
    ]
}

/// What the hash of a target is taken of.
pub open spec fn lint_bytes(d: LintView) -> Seq<u8> {
    number_bytes(JS_LINT_FORMAT_VERSION as nat, 4) + texts_bytes(lint_parts(d))
}

/// The driver of `js_lint` targets.
#[derive(Debug, Clone, Copy)]
pub struct JsLintDriver;

impl Default for JsLintDriver {
    fn default() -> (r: JsLintDriver)
        ensures
            r == JsLintDriver,
    {
        JsLintDriver::new()
    }
}

impl JsLintDef {
    /// The hash of a target.
    pub fn hash(&self) -> (r: String)
        ensures
            r@ == hash_text(lint_bytes(self@)),
    {
        let mut out: Vec<u8> = Vec::new();
        push_number(&mut out, JS_LINT_FORMAT_VERSION as u64, 4);
        let parts = [
            self.linter.as_str(),
            self.linter_version.as_str(),
            self.config_path.as_str(),
            self.config_content.as_str(),
            self.tsconfig_path.as_str(),
            self.tsconfig_content.as_str(),
        ];
        assert(slice_texts(parts@) =~= lint_parts(self@));
        push_texts(&mut out, &parts);
        assert(out@ =~= lint_bytes(self@));
        hash_of(&out)
    }
}

impl JsLintDriver {
    /// The driver.
    pub fn new() -> (r: JsLintDriver)
        ensures
            r == JsLintDriver,
    {
        JsLintDriver
    }

    /// The name of the driver.
    pub fn name(&self) -> (r: &'static str)
        ensures
            r@ == "js_lint"@,
    {
        "js_lint"
    }

    /// Makes a target of a request: its definition, its inputs group by group and its hash. It
    /// has no output: all that matters is whether it succeeds.
    pub fn parse(&self, req: &ParseRequest) -> (r: Result<TargetDef<JsLintDef>, DriverError>)
        ensures
            match r {
                Err(e) => lint_failure(req.config@) == Some(e@),
                Ok(t) => {
                    let d = lint_def(req.config@);
                    &&& lint_failure(req.config@) is None
                    &&& t.addr@ == req.addr@
                    &&& texts(t.labels@) == texts(req.labels@)
                    &&& t.def@ == d
                    &&& input_views(t.inputs@) == dep_inputs(table_value(req.config@, "deps"@))
                    &&& t.outputs@.len() == 0
                    &&& t.cache == (CacheConfig { enabled: true, remote: true })
                    &&& t.hash@ == hash_text(lint_bytes(d))
                },
            },
    {
        let c = &req.config;
        match check_fields(c, &fields()) {
            Err(cause) => {
                return Err(DriverError::Config { driver: "js_lint".to_owned(), cause });
            },
            Ok(_) => {},
        }
        let def = JsLintDef {
            linter: read_config_text(c, "linter"),
            linter_version: read_config_text(c, "linter_version"),
            config_path: read_config_text(c, "config_path"),
            config_content: read_config_text(c, "config_content"),
            tsconfig_path: read_config_text(c, "tsconfig_path"),
            tsconfig_content: read_config_text(c, "tsconfig_content"),
            linter_bin: read_config_text(c, "linter_bin"),
        };
        let hash = def.hash();
        Ok(
            TargetDef {
                addr: req.addr.clone(),
                labels: copy_texts(&req.labels),
                def,
                inputs: read_inputs(c, "deps"),
                outputs: Vec::new(),
                cache: CacheConfig { enabled: true, remote: true },
                hash,
            },
        )
    }

    /// What the linter is called with to run a target whose files were put below `ws_dir`: its
    /// configuration file, if there is one, and the package's own files. Without any file there
    /// is nothing to run.
    pub fn run_args(&self, def: &JsLintDef, ws_dir: &str, inputs: &Vec<StagedInput>) -> (r: Option<
        Vec<String>,
    >)
        ensures
            ({
                let srcs = staged_paths(staged_views(inputs@), Seq::empty());
                match r {
                    Some(args) => srcs.len() > 0 && texts(args@) == lint_args(
                        def@,
                        ws_dir@,
                        srcs,
                    ),
                    None => srcs.len() == 0,
                }
            }),
    {
        let mut srcs = group_staged_paths(inputs, "");
        let ghost all = texts(srcs@);
        proof {
            reveal_strlit("");
            assert(""@ =~= Seq::<char>::empty());
            assert(all.len() == srcs@.len());
        }
        if srcs.len() == 0 {
            return None;
        }
        let mut args: Vec<String> = Vec::new();
        if to_chars(def.config_path.as_str()).len() > 0 {
            args.push("-c".to_owned());
            args.push(join_path(ws_dir, def.config_path.as_str()));
        }
        args.append(&mut srcs);
        assert(texts(args@) =~= lint_args(def@, ws_dir@, all));
        Some(args)
    }

    /// Tells whether a run of the linter went well.
    pub fn check_exit(&self, exit: &ToolExit) -> (r: Result<(), ToolFailure>)
        ensures
            r is Ok <==> exit.success,
            r matches Err(e) ==> e.message@ == tool_failure_text(
                "lint"@,
                exit.status@,
                lint_detail(exit.stdout@, exit.stderr@),
            ),
    {
        if exit.success {
            return Ok(());
        }
        let detail = lint_failure_detail(exit.stdout.as_str(), exit.stderr.as_str());
        Err(make_tool_failure("lint", exit.status.as_str(), detail.as_str()))
    }
}

/// What the linter is called with.
pub open spec fn lint_args(d: LintView, ws: Seq<char>, srcs: Seq<Seq<char>>) -> Seq<Seq<char>> {
    if d.config_path.len() > 0 {
        seq!["-c"@, under(ws, d.config_path)] + srcs
    } else {
        srcs
    }
}

/// Where the tool lies on the machine does not show in the hash.
pub proof fn the_lint_tool_path_is_not_hashed(d: LintView, bin: Seq<char>)
    ensures
        lint_bytes(LintView { linter_bin: bin, ..d }) == lint_bytes(d),
{
}

/// Everything else shows in what the hash is taken of: no two targets that differ otherwise are
/// hashed from the same bytes.
pub proof fn every_lint_field_is_hashed(a: LintView, b: LintView)
    requires
        lint_bytes(a) == lint_bytes(b),
    ensures
        a == (LintView { linter_bin: a.linter_bin, ..b }),
{
    let v = JS_LINT_FORMAT_VERSION as nat;
    let s = lint_parts(a);
    let t = lint_parts(b);
    assert(vstd::arithmetic::power::pow(256, 4) == 0x1_0000_0000) by {
        reveal_with_fuel(vstd::arithmetic::power::pow, 5);
    }
    lemma_number_splits(v, texts_bytes(s), v, texts_bytes(t), 4);
    let none = Seq::<u8>::empty();
    assert(texts_bytes(s) + none =~= texts_bytes(s));
    assert(texts_bytes(t) + none =~= texts_bytes(t));
    lemma_texts_split(s, none, t, none);
    assert(s[0] == t[0]);
    assert(s[1] == t[1]);
    assert(s[2] == t[2]);
    assert(s[3] == t[3]);
    assert(s[4] == t[4]);
    assert(s[5] == t[5]);
}

} // verus!
