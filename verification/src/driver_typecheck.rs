//! The `js_typecheck` driver: type-checks a package.
use crate::driver::{
    make_tool_failure, tool_failure_text, DriverError, DriverFailure, ToolExit, ToolFailure,
};
use crate::hashing::{
    hash_of, hash_text, lemma_number_splits, lemma_texts_split, number_bytes, push_number,
    push_texts, texts_bytes,
};
use crate::nearest::slice_texts;
use crate::output::{tsc_detail, tsc_failure_detail};
use crate::path::{join_path, under};
use crate::target::{
    check_fields, copy_texts, dep_inputs, field_views, first_failure, group_staged_paths,
    input_views, read_config_text, read_inputs, staged_paths, staged_views, table_value, text_value,
    CacheConfig, Config, FieldKind, FieldSpec, FieldView, ParseRequest, StagedInput, TargetDef,
};
use crate::text::{texts, to_chars};
use vstd::prelude::*;

verus! {

/// What the driver needs to run a target.
#[derive(Debug)]
pub struct JsTypecheckDef {
    pub tsc_version: String,
    pub tsconfig_path: String,
    pub tsconfig_content: String,
    /// The path of the tool on this machine, which says nothing of the result.
    pub tsc_bin: String,
}

/// What the driver needs to run a target, as mathematical values.
#[verifier::ext_equal]
pub struct TypecheckView {
    pub tsc_version: Seq<char>,
    pub tsconfig_path: Seq<char>,
    pub tsconfig_content: Seq<char>,
    pub tsc_bin: Seq<char>,
}

impl View for JsTypecheckDef {
    type V = TypecheckView;

    open spec fn view(&self) -> TypecheckView {
        TypecheckView {
            tsc_version: self.tsc_version@,
            tsconfig_path: self.tsconfig_path@,
            tsconfig_content: self.tsconfig_content@,
            tsc_bin: self.tsc_bin@,
        }
    }
}

/// Counts up when a target is run in another way than before.
pub const JS_TYPECHECK_FORMAT_VERSION: u32 = 1;

/// The fields of a configuration.
pub open spec fn typecheck_fields() -> Seq<FieldView> {
    seq![
        FieldView { key: "tsc_bin"@, kind: FieldKind::Text, required: true },
        FieldView { key: "tsc_version"@, kind: FieldKind::Text, required: true },
        FieldView { key: "tsconfig_path"@, kind: FieldKind::Text, required: false },
        FieldView { key: "tsconfig_content"@, kind: FieldKind::Text, required: false },
        FieldView { key: "deps"@, kind: FieldKind::Table, required: false },
    ]
}

fn fields() -> (r: Vec<FieldSpec>)
    ensures
        field_views(r@) == typecheck_fields(),
{
    let mut v: Vec<FieldSpec> = Vec::new();
    v.push(FieldSpec { key: "tsc_bin", kind: FieldKind::Text, required: true });
    v.push(FieldSpec { key: "tsc_version", kind: FieldKind::Text, required: true });
    v.push(FieldSpec { key: "tsconfig_path", kind: FieldKind::Text, required: false });
    v.push(FieldSpec { key: "tsconfig_content", kind: FieldKind::Text, required: false });
    v.push(FieldSpec { key: "deps", kind: FieldKind::Table, required: false });
    assert(field_views(v@) =~= typecheck_fields());
    v
}

/// What a configuration says.
pub open spec fn typecheck_def(c: Config) -> TypecheckView {
    TypecheckView {
        tsc_version: text_value(c, "tsc_version"@),
        tsconfig_path: text_value(c, "tsconfig_path"@),
        tsconfig_content: text_value(c, "tsconfig_content"@),
        tsc_bin: text_value(c, "tsc_bin"@),
    }
}

/// What is wrong with a request, if anything.
pub open spec fn typecheck_failure(c: Config) -> Option<DriverFailure> {
    match first_failure(c, typecheck_fields()) {
        Some(f) => Some(DriverFailure::Config("js_typecheck"@, f)),
        None => None,
    }
}

/// The hashed texts.
pub open spec fn typecheck_parts(d: TypecheckView) -> Seq<Seq<char>> {
    seq![
        d.tsc_version,
        d.tsconfig_path,
        d.tsconfig_content,
    ]
}

/// What the hash of a target is taken of.
pub open spec fn typecheck_bytes(d: TypecheckView) -> Seq<u8> {
    number_bytes(JS_TYPECHECK_FORMAT_VERSION as nat, 4) + texts_bytes(typecheck_parts(d))
}

/// The driver of `js_typecheck` targets.
#[derive(Debug, Clone, Copy)]
pub struct JsTypecheckDriver;

impl Default for JsTypecheckDriver {
    fn default() -> (r: JsTypecheckDriver)
        ensures
            r == JsTypecheckDriver,
    {
        JsTypecheckDriver::new()
    }
}

impl JsTypecheckDef {
    /// The hash of a target.
    pub fn hash(&self) -> (r: String)
        ensures
            r@ == hash_text(typecheck_bytes(self@)),
    {
        let mut out: Vec<u8> = Vec::new();
        push_number(&mut out, JS_TYPECHECK_FORMAT_VERSION as u64, 4);
        let parts = [
            self.tsc_version.as_str(),
            self.tsconfig_path.as_str(),
            self.tsconfig_content.as_str(),
        ];
        assert(slice_texts(parts@) =~= typecheck_parts(self@));
        push_texts(&mut out, &parts);
        assert(out@ =~= typecheck_bytes(self@));
        hash_of(&out)
    }
}

impl JsTypecheckDriver {
    /// The driver.
    pub fn new() -> (r: JsTypecheckDriver)
        ensures
            r == JsTypecheckDriver,
    {
        JsTypecheckDriver
    }

    /// The name of the driver.
    pub fn name(&self) -> (r: &'static str)
        ensures
            r@ == "js_typecheck"@,
    {
        "js_typecheck"
    }

    /// Makes a target of a request: its definition, its inputs group by group and its hash. It
    /// has no output: all that matters is whether it succeeds.
    pub fn parse(&self, req: &ParseRequest) -> (r: Result<TargetDef<JsTypecheckDef>, DriverError>)
        ensures
            match r {
                Err(e) => typecheck_failure(req.config@) == Some(e@),
                Ok(t) => {
                    let d = typecheck_def(req.config@);
                    &&& typecheck_failure(req.config@) is None
                    &&& t.addr@ == req.addr@
                    &&& texts(t.labels@) == texts(req.labels@)
                    &&& t.def@ == d
                    &&& input_views(t.inputs@) == dep_inputs(table_value(req.config@, "deps"@))
                    &&& t.outputs@.len() == 0
                    &&& t.cache == (CacheConfig { enabled: true, remote: true })
                    &&& t.hash@ == hash_text(typecheck_bytes(d))
                },
            },
    {
        let c = &req.config;
        match check_fields(c, &fields()) {
            Err(cause) => {
                return Err(DriverError::Config { driver: "js_typecheck".to_owned(), cause });
            },
            Ok(_) => {},
        }
        let def = JsTypecheckDef {
            tsc_version: read_config_text(c, "tsc_version"),
            tsconfig_path: read_config_text(c, "tsconfig_path"),
            tsconfig_content: read_config_text(c, "tsconfig_content"),
            tsc_bin: read_config_text(c, "tsc_bin"),
        };
        let hash = def.hash();
        Ok(
            TargetDef {
                addr: req.addr.clone(),
                labels: copy_texts(&req.labels),
                def,
                inputs: read_inputs(c, "deps"),
                outputs: Vec::new(),
                cache: CacheConfig { enabled: true, remote: true },
                hash,
            },
        )
    }

    /// What the type checker is called with to run a target whose files were put below
    /// `ws_dir`: the project file, or without one the package's own files. With neither there
    /// is nothing to check.
    pub fn run_args(
        &self,
        addr: &str,
        def: &JsTypecheckDef,
        ws_dir: &str,
        inputs: &Vec<StagedInput>,
    ) -> (r: Result<Vec<String>, DriverError>)
        ensures
            ({
                let srcs = staged_paths(staged_views(inputs@), Seq::empty());
                match r {
                    Ok(args) => texts(args@) == typecheck_args(def@, ws_dir@, srcs) && (
                    def@.tsconfig_path.len() > 0 || srcs.len() > 0),
                    Err(e) => def@.tsconfig_path.len() == 0 && srcs.len() == 0 && e@
                        == DriverFailure::NothingToCheck(addr@),
                }
            }),
    {
        let mut args: Vec<String> = Vec::new();
        args.push("--noEmit".to_owned());
        if to_chars(def.tsconfig_path.as_str()).len() == 0 {
            let mut srcs = group_staged_paths(inputs, "");
            let ghost all = texts(srcs@);
            proof {
                reveal_strlit("");
                assert(""@ =~= Seq::<char>::empty());
                assert(all.len() == srcs@.len());
            }
            if srcs.len() == 0 {
                return Err(DriverError::NothingToCheck { addr: addr.to_owned() });
            }
            args.append(&mut srcs);
            assert(texts(args@) =~= seq!["--noEmit"@] + all);
        } else {
            args.push("--project".to_owned());
            args.push(join_path(ws_dir, def.tsconfig_path.as_str()));
            assert(texts(args@) =~= seq![
                "--noEmit"@,
                "--project"@,
                under(ws_dir@, def@.tsconfig_path),
            ]);
        }
        Ok(args)
    }

    /// Tells whether a run of the type checker went well.
    pub fn check_exit(&self, exit: &ToolExit) -> (r: Result<(), ToolFailure>)
        ensures
            r is Ok <==> exit.success,
            r matches Err(e) ==> e.message@ == tool_failure_text(
                "tsc"@,
                exit.status@,
                tsc_detail(exit.stdout@, exit.stderr@),
            ),
    {
        if exit.success {
            return Ok(());
        }
        let detail = tsc_failure_detail(exit.stdout.as_str(), exit.stderr.as_str());
        Err(make_tool_failure("tsc", exit.status.as_str(), detail.as_str()))
    }
}

/// What the type checker is called with.
pub open spec fn typecheck_args(d: TypecheckView, ws: Seq<char>, srcs: Seq<Seq<char>>) -> Seq<
    Seq<char>,
> {
    if d.tsconfig_path.len() > 0 {
        seq!["--noEmit"@, "--project"@, under(ws, d.tsconfig_path)]
    } else {
        seq!["--noEmit"@] + srcs
    }
}

/// Where the tool lies on the machine does not show in the hash.
pub proof fn the_typecheck_tool_path_is_not_hashed(d: TypecheckView, bin: Seq<char>)
    ensures
        typecheck_bytes(TypecheckView { tsc_bin: bin, ..d }) == typecheck_bytes(d),
{
}

/// Everything else shows in what the hash is taken of: no two targets that differ otherwise are
/// hashed from the same bytes.
pub proof fn every_typecheck_field_is_hashed(a: TypecheckView, b: TypecheckView)
    requires
        typecheck_bytes(a) == typecheck_bytes(b),
    ensures
        a == (TypecheckView { tsc_bin: a.tsc_bin, ..b }),
{
    let v = JS_TYPECHECK_FORMAT_VERSION as nat;
    let s = typecheck_parts(a);
    let t = typecheck_parts(b);
    assert(vstd::arithmetic::power::pow(256, 4) == 0x1_0000_0000) by {
        reveal_with_fuel(vstd::arithmetic::power::pow, 5);
    }
    lemma_number_splits(v, texts_bytes(s), v, texts_bytes(t), 4);
    let none = Seq::<u8>::empty();
    assert(texts_bytes(s) + none =~= texts_bytes(s));
    assert(texts_bytes(t) + none =~= texts_bytes(t));
    lemma_texts_split(s, none, t, none);
    assert(s[0] == t[0]);
    assert(s[1] == t[1]);
    assert(s[2] == t[2]);
}

} // verus!
