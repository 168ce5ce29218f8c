//! The `js_bundle` driver: runs the bundler over a package's entry point.
use crate::driver::{
    make_tool_failure, path_escapes, reject_path_escape, tool_failure_text, with_value, DriverError,
    DriverFailure, ToolExit, ToolFailure, UnsupportedView,
};
use crate::hashing::{
    hash_of, hash_text, lemma_list_splits, lemma_number_splits, lemma_texts_split, list_bytes,
    number_bytes, push_list, push_number, push_texts, texts_bytes,
};
use crate::nearest::slice_texts;
use crate::output::{bundle_detail, bundle_failure_detail};
use crate::path::{join_path, under};
use crate::sources::{sort_texts, texts_sorted};
use crate::target::{
    check_fields, copy_texts, dep_inputs, dir_output, field_views, first_failure, input_views,
    list_value, make_dir_output, output_views, read_config_list, read_config_text, read_inputs,
    table_value, text_value, CacheConfig, Config, FieldKind, FieldSpec, FieldView, ParseRequest,
    TargetDef,
};
use crate::text::{same, texts, to_chars};
use vstd::prelude::*;

verus! {

/// What the driver needs to run a target.
#[derive(Debug)]
pub struct JsBundleDef {
    pub bundler: String,
    pub bundler_version: String,
    pub entry_file: String,
    pub format: String,
    pub target: String,
    pub outdir: String,
    pub bundler_config_path: String,
    pub bundler_config_content: String,
    pub external: Vec<String>,
    pub tsconfig_path: String,
    pub tsconfig_content: String,
    /// The path of the bundler on this machine, which says nothing of the result.
    pub bundler_bin: String,
}

/// What the driver needs to run a target, as mathematical values.
#[verifier::ext_equal]
pub struct BundleView {
    pub bundler: Seq<char>,
    pub bundler_version: Seq<char>,
    pub entry_file: Seq<char>,
    pub format: Seq<char>,
    pub target: Seq<char>,
    pub outdir: Seq<char>,
    pub bundler_config_path: Seq<char>,
    pub bundler_config_content: Seq<char>,
    pub external: Seq<Seq<char>>,
    pub tsconfig_path: Seq<char>,
    pub tsconfig_content: Seq<char>,
    pub bundler_bin: Seq<char>,
}

impl View for JsBundleDef {
    type V = BundleView;

    open spec fn view(&self) -> BundleView {
        BundleView {
            bundler: self.bundler@,
            bundler_version: self.bundler_version@,
            entry_file: self.entry_file@,
            format: self.format@,
            target: self.target@,
            outdir: self.outdir@,
            bundler_config_path: self.bundler_config_path@,
            bundler_config_content: self.bundler_config_content@,
            external: texts(self.external@),
            tsconfig_path: self.tsconfig_path@,
            tsconfig_content: self.tsconfig_content@,
            bundler_bin: self.bundler_bin@,
        }
    }
}

/// Counts up when a bundle is made in another way than before.
pub const JS_BUNDLE_FORMAT_VERSION: u32 = 1;

/// The fields of a configuration.
pub open spec fn bundle_fields() -> Seq<FieldView> {
    seq![
        FieldView { key: "bundler"@, kind: FieldKind::Text, required: true },
        FieldView { key: "bundler_bin"@, kind: FieldKind::Text, required: true },
        FieldView { key: "bundler_version"@, kind: FieldKind::Text, required: true },
        FieldView { key: "entry_file"@, kind: FieldKind::Text, required: true },
        FieldView { key: "format"@, kind: FieldKind::Text, required: true },
        FieldView { key: "target"@, kind: FieldKind::Text, required: true },
        FieldView { key: "outdir"@, kind: FieldKind::Text, required: true },
        FieldView { key: "bundler_config_path"@, kind: FieldKind::Text, required: false },
        FieldView { key: "bundler_config_content"@, kind: FieldKind::Text, required: false },
        FieldView { key: "external"@, kind: FieldKind::List, required: false },
        FieldView { key: "tsconfig_path"@, kind: FieldKind::Text, required: false },
        FieldView { key: "tsconfig_content"@, kind: FieldKind::Text, required: false },
        FieldView { key: "deps"@, kind: FieldKind::Table, required: false },
    ]
}

fn fields() -> (r: Vec<FieldSpec>)
    ensures
        field_views(r@) == bundle_fields(),
{
    let mut v: Vec<FieldSpec> = Vec::new();
    v.push(FieldSpec { key: "bundler", kind: FieldKind::Text, required: true });
    v.push(FieldSpec { key: "bundler_bin", kind: FieldKind::Text, required: true });
    v.push(FieldSpec { key: "bundler_version", kind: FieldKind::Text, required: true });
    v.push(FieldSpec { key: "entry_file", kind: FieldKind::Text, required: true });
    v.push(FieldSpec { key: "format", kind: FieldKind::Text, required: true });
    v.push(FieldSpec { key: "target", kind: FieldKind::Text, required: true });
    v.push(FieldSpec { key: "outdir", kind: FieldKind::Text, required: true });
    v.push(FieldSpec { key: "bundler_config_path", kind: FieldKind::Text, required: false });
    v.push(FieldSpec { key: "bundler_config_content", kind: FieldKind::Text, required: false });
    v.push(FieldSpec { key: "external", kind: FieldKind::List, required: false });
    v.push(FieldSpec { key: "tsconfig_path", kind: FieldKind::Text, required: false });
    v.push(FieldSpec { key: "tsconfig_content", kind: FieldKind::Text, required: false });
    v.push(FieldSpec { key: "deps", kind: FieldKind::Table, required: false });
    assert(field_views(v@) =~= bundle_fields());
    v
}

/// What a configuration says, the external packages in order.
pub open spec fn bundle_def(c: Config) -> BundleView {
    BundleView {
        bundler: text_value(c, "bundler"@),
        bundler_version: text_value(c, "bundler_version"@),
        entry_file: text_value(c, "entry_file"@),
        format: text_value(c, "format"@),
        target: text_value(c, "target"@),
        outdir: text_value(c, "outdir"@),
        bundler_config_path: text_value(c, "bundler_config_path"@),
        bundler_config_content: text_value(c, "bundler_config_content"@),
        external: texts_sorted(list_value(c, "external"@)),
        tsconfig_path: text_value(c, "tsconfig_path"@),
        tsconfig_content: text_value(c, "tsconfig_content"@),
        bundler_bin: text_value(c, "bundler_bin"@),
    }
}

/// What is wrong with a request, if anything.
pub open spec fn bundle_failure(c: Config, addr: Seq<char>) -> Option<DriverFailure> {
    match first_failure(c, bundle_fields()) {
        Some(f) => Some(DriverFailure::Config("js_bundle"@, f)),
        None => {
            let format = text_value(c, "format"@);
            let target = text_value(c, "target"@);
            if format != "esm"@ && format != "cjs"@ {
                Some(
                    DriverFailure::Unsupported(
                        UnsupportedView {
                            driver: "js_bundle"@,
                            field: "format"@,
                            value: format,
                            addr,
                            expected: "`esm` or `cjs`"@,
                        },
                    ),
                )
            } else if target != "node"@ && target != "browser"@ {
                Some(
                    DriverFailure::Unsupported(
                        UnsupportedView {
                            driver: "js_bundle"@,
                            field: "target"@,
                            value: target,
                            addr,
                            expected: "`node` or `browser`"@,
                        },
                    ),
                )
            } else {
                None
            }
        },
    }
}

/// The hashed texts before the external packages.
pub open spec fn bundle_head(d: BundleView) -> Seq<Seq<char>> {
    seq![
        d.bundler,
        d.bundler_version,
        d.entry_file,
        d.format,
        d.target,
        d.outdir,
        d.bundler_config_path,
        d.bundler_config_content,
    ]
}

/// The hashed texts after the external packages.
pub open spec fn bundle_tail(d: BundleView) -> Seq<Seq<char>> {
    seq![d.tsconfig_path, d.tsconfig_content]
}

/// What the hash of a target is taken of.
pub open spec fn bundle_bytes(d: BundleView) -> Seq<u8> {
    number_bytes(JS_BUNDLE_FORMAT_VERSION as nat, 4) + (texts_bytes(bundle_head(d)) + (list_bytes(
        d.external,
    ) + texts_bytes(bundle_tail(d))))
}

/// What the bundler is called with.
pub open spec fn bundle_args(d: BundleView, ws: Seq<char>) -> Seq<Seq<char>> {
    let first = seq![
        under(ws, d.entry_file),
        "--bundle"@,
        "--format="@ + d.format,
        "--platform="@ + d.target,
        "--outdir="@ + under(ws, d.outdir),
    ];
    let second = if d.tsconfig_path.len() > 0 {
        seq!["--tsconfig="@ + under(ws, d.tsconfig_path)]
    } else {
        Seq::empty()
    };
    first + second + d.external.map_values(|n: Seq<char>| "--external:"@ + n)
}

/// The path in a target that may lead out of the workspace, if there is one.
pub open spec fn bundle_escape(d: BundleView) -> Option<DriverFailure> {
    if path_escapes(d.entry_file) {
        Some(DriverFailure::PathEscape("entry_file"@, d.entry_file))
    } else if path_escapes(d.outdir) {
        Some(DriverFailure::PathEscape("outdir"@, d.outdir))
    } else if d.tsconfig_path.len() > 0 && path_escapes(d.tsconfig_path) {
        Some(DriverFailure::PathEscape("tsconfig_path"@, d.tsconfig_path))
    } else {
        None
    }
}

/// The driver of `js_bundle` targets.
#[derive(Debug, Clone, Copy)]
pub struct JsBundleDriver;

impl Default for JsBundleDriver {
    fn default() -> (r: JsBundleDriver)
        ensures
            r == JsBundleDriver,
    {
        JsBundleDriver::new()
    }
}

impl JsBundleDriver {
    /// The driver.
    pub fn new() -> (r: JsBundleDriver)
        ensures
            r == JsBundleDriver,
    {
        JsBundleDriver
    }

    /// The name of the driver.
    pub fn name(&self) -> (r: &'static str)
        ensures
            r@ == "js_bundle"@,
    {
        "js_bundle"
    }

    /// Makes a target of a request: its definition, its inputs group by group, its output
    /// directory and its hash.
    pub fn parse(&self, req: &ParseRequest) -> (r: Result<TargetDef<JsBundleDef>, DriverError>)
        ensures
            match r {
                Err(e) => bundle_failure(req.config@, req.addr@) == Some(e@),
                Ok(t) => {
                    let d = bundle_def(req.config@);
                    &&& bundle_failure(req.config@, req.addr@) is None
                    &&& t.addr@ == req.addr@
                    &&& texts(t.labels@) == texts(req.labels@)
                    &&& t.def@ == d
                    &&& input_views(t.inputs@) == dep_inputs(table_value(req.config@, "deps"@))
                    &&& output_views(t.outputs@) == dir_output(d.outdir)
                    &&& t.cache == (CacheConfig { enabled: true, remote: true })
                    &&& t.hash@ == hash_text(bundle_bytes(d))
                },
            },
    {
        let c = &req.config;
        match check_fields(c, &fields()) {
            Err(cause) => {
                return Err(DriverError::Config { driver: "js_bundle".to_owned(), cause });
            },
            Ok(_) => {},
        }
        let format = read_config_text(c, "format");
        if !same(format.as_str(), "esm") && !same(format.as_str(), "cjs") {
            return Err(
                DriverError::Unsupported {
                    driver: "js_bundle".to_owned(),
                    field: "format".to_owned(),
                    value: format,
                    addr: req.addr.clone(),
                    expected: "`esm` or `cjs`".to_owned(),
                },
            );
        }
        let target = read_config_text(c, "target");
        if !same(target.as_str(), "node") && !same(target.as_str(), "browser") {
            return Err(
                DriverError::Unsupported {
                    driver: "js_bundle".to_owned(),
                    field: "target".to_owned(),
                    value: target,
                    addr: req.addr.clone(),
                    expected: "`node` or `browser`".to_owned(),
                },
            );
        }
        let def = JsBundleDef {
            bundler: read_config_text(c, "bundler"),
            bundler_version: read_config_text(c, "bundler_version"),
            entry_file: read_config_text(c, "entry_file"),
            format,
            target,
            outdir: read_config_text(c, "outdir"),
            bundler_config_path: read_config_text(c, "bundler_config_path"),
            bundler_config_content: read_config_text(c, "bundler_config_content"),
            external: sort_texts(&read_config_list(c, "external")),
            tsconfig_path: read_config_text(c, "tsconfig_path"),
            tsconfig_content: read_config_text(c, "tsconfig_content"),
            bundler_bin: read_config_text(c, "bundler_bin"),
        };
        let hash = def.hash();
        let outputs = make_dir_output(def.outdir.as_str());
        Ok(
            TargetDef {
                addr: req.addr.clone(),
                labels: copy_texts(&req.labels),
                def,
                inputs: read_inputs(c, "deps"),
                outputs,
                cache: CacheConfig { enabled: true, remote: true },
                hash,
            },
        )
    }

    /// What the bundler is called with to run a target whose files were put below `ws_dir`. A
    /// target whose paths may lead out of there is refused.
    pub fn run_args(&self, def: &JsBundleDef, ws_dir: &str) -> (r: Result<Vec<String>, DriverError>)
        ensures
            match r {
                Ok(args) => bundle_escape(def@) is None && texts(args@) == bundle_args(
                    def@,
                    ws_dir@,
                ),
                Err(e) => bundle_escape(def@) == Some(e@),
            },
    {
        match reject_path_escape("entry_file", def.entry_file.as_str()) {
            Err(e) => {
                return Err(e);
            },
            Ok(_) => {},
        }
        match reject_path_escape("outdir", def.outdir.as_str()) {
            Err(e) => {
                return Err(e);
            },
            Ok(_) => {},
        }
        let has_tsconfig = to_chars(def.tsconfig_path.as_str()).len() > 0;
        if has_tsconfig {
            match reject_path_escape("tsconfig_path", def.tsconfig_path.as_str()) {
                Err(e) => {
                    return Err(e);
                },
                Ok(_) => {},
            }
        }
        let mut args: Vec<String> = Vec::new();
        args.push(join_path(ws_dir, def.entry_file.as_str()));
        args.push("--bundle".to_owned());
        args.push(with_value("--format=", def.format.as_str()));
        args.push(with_value("--platform=", def.target.as_str()));
        args.push(
            with_value("--outdir=", join_path(ws_dir, def.outdir.as_str()).as_str()),
        );
        if has_tsconfig {
            args.push(
                with_value("--tsconfig=", join_path(ws_dir, def.tsconfig_path.as_str()).as_str()),
            );
        }
        let ghost start = texts(args@);
        let ghost names = def@.external;
        let ghost flags = names.map_values(|n: Seq<char>| "--external:"@ + n);
        let mut i: usize = 0;
        assert(texts(args@) =~= start + flags.take(0));
        while i < def.external.len()
            invariant
                i <= def.external.len(),
                names == def@.external,
                names.len() == def.external@.len(),
                flags == names.map_values(|n: Seq<char>| "--external:"@ + n),
                texts(args@) == start + flags.take(i as int),
            decreases def.external.len() - i,
        {
            let ghost before = texts(args@);
            let flag = with_value("--external:", def.external[i].as_str());
            let ghost x = flag@;
            args.push(flag);
            proof {
                assert(names[i as int] == def.external@[i as int]@);
                assert(flags[i as int] == x);
                assert(texts(args@) =~= before.push(x));
                assert(flags.take(i + 1) =~= flags.take(i as int).push(x));
                assert(start + flags.take(i + 1) =~= (start + flags.take(i as int)).push(x));
            }
            i = i + 1;
        }
        proof {
            assert(flags.take(i as int) =~= flags);
            assert(texts(args@) =~= bundle_args(def@, ws_dir@));
        }
        Ok(args)
    }

    /// Tells whether a run of the bundler went well.
    pub fn check_exit(&self, exit: &ToolExit) -> (r: Result<(), ToolFailure>)
        ensures
            r is Ok <==> exit.success,
            r matches Err(e) ==> e.message@ == tool_failure_text(
                "js_bundle"@,
                exit.status@,
                bundle_detail(exit.stdout@, exit.stderr@),
            ),
    {
        if exit.success {
            return Ok(());
        }
        let detail = bundle_failure_detail(exit.stdout.as_str(), exit.stderr.as_str());
        Err(make_tool_failure("js_bundle", exit.status.as_str(), detail.as_str()))
    }
}

impl JsBundleDef {
    /// The hash of a target.
    pub fn hash(&self) -> (r: String)
        ensures
            r@ == hash_text(bundle_bytes(self@)),
    {
        let mut out: Vec<u8> = Vec::new();
        push_number(&mut out, JS_BUNDLE_FORMAT_VERSION as u64, 4);
        let head = [
            self.bundler.as_str(),
            self.bundler_version.as_str(),
            self.entry_file.as_str(),
            self.format.as_str(),
            self.target.as_str(),
            self.outdir.as_str(),
            self.bundler_config_path.as_str(),
            self.bundler_config_content.as_str(),
        ];
        assert(slice_texts(head@) =~= bundle_head(self@));
        push_texts(&mut out, &head);
        push_list(&mut out, &self.external);
        let tail = [self.tsconfig_path.as_str(), self.tsconfig_content.as_str()];
        assert(slice_texts(tail@) =~= bundle_tail(self@));
        push_texts(&mut out, &tail);
        assert(out@ =~= bundle_bytes(self@));
        hash_of(&out)
    }
}

/// Where the bundler lies on the machine does not show in the hash.
pub proof fn the_bundler_path_is_not_hashed(d: BundleView, bin: Seq<char>)
    ensures
        bundle_bytes(BundleView { bundler_bin: bin, ..d }) == bundle_bytes(d),
{
}

/// Everything else shows in what the hash is taken of: no two targets that differ otherwise are
/// hashed from the same bytes.
pub proof fn every_bundle_field_is_hashed(a: BundleView, b: BundleView)
    requires
        bundle_bytes(a) == bundle_bytes(b),
        a.external.len() <= u64::MAX,
        b.external.len() <= u64::MAX,
    ensures
        a == (BundleView { bundler_bin: a.bundler_bin, ..b }),
{
    let v = JS_BUNDLE_FORMAT_VERSION as nat;
    let at = list_bytes(a.external) + texts_bytes(bundle_tail(a));
    let bt = list_bytes(b.external) + texts_bytes(bundle_tail(b));
    assert(vstd::arithmetic::power::pow(256, 4) == 0x1_0000_0000) by {
        reveal_with_fuel(vstd::arithmetic::power::pow, 5);
    }
    lemma_number_splits(
        v,
        texts_bytes(bundle_head(a)) + at,
        v,
        texts_bytes(bundle_head(b)) + bt,
        4,
    );
    lemma_texts_split(bundle_head(a), at, bundle_head(b), bt);
    lemma_list_splits(
        a.external,
        texts_bytes(bundle_tail(a)),
        b.external,
        texts_bytes(bundle_tail(b)),
    );
    let none = Seq::<u8>::empty();
    assert(texts_bytes(bundle_tail(a)) + none =~= texts_bytes(bundle_tail(a)));
    assert(texts_bytes(bundle_tail(b)) + none =~= texts_bytes(bundle_tail(b)));
    lemma_texts_split(bundle_tail(a), none, bundle_tail(b), none);
    let h = bundle_head(a);
    let k = bundle_head(b);
    assert(h[0] == k[0] && h[1] == k[1] && h[2] == k[2] && h[3] == k[3] && h[4] == k[4] && h[5]
        == k[5] && h[6] == k[6] && h[7] == k[7]);
    let s = bundle_tail(a);
    let t = bundle_tail(b);
    assert(s[0] == t[0] && s[1] == t[1]);
}

} // verus!
