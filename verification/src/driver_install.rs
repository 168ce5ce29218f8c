//! The `js_install` driver: fetches a package's tarball, verifies it, unpacks it and runs its
//! scripts where they are allowed.
use crate::driver::{DriverError, DriverFailure};
use crate::hashing::{
    flag_bytes, hash_of, hash_text, lemma_flag_splits, lemma_number_splits, lemma_texts_split,
    number_bytes, push_flag, push_number, push_texts, texts_bytes,
};
use crate::json::{field, json_document, parse_json, Json, JsonTree};
use crate::nearest::slice_texts;
use crate::path::{
    components, join_path, key_of_path, lemma_parent, lies_within, parent, parent_of, path_key,
    split_path, under, within,
};
use crate::sorted::StrSet;
use crate::target::{
    check_fields, copy_texts, dir_output, field_views, first_failure, flag_value, make_dir_output,
    output_views, read_config_flag, read_config_text, text_value, CacheConfig, Config, FieldKind,
    FieldSpec, FieldView, ParseRequest, TargetDef,
};
use crate::text::{
    after_char, holds, join, joined, opt_text, same, split_once, split_words, texts, to_chars,
    upto_char, words,
};
use vstd::prelude::*;

verus! {

/// What the driver needs to install a package.
#[derive(Debug)]
pub struct JsInstallDef {
    pub name: String,
    pub version: String,
    pub integrity: String,
    pub resolved: String,
    pub os: String,
    pub arch: String,
    pub has_install_script: bool,
    pub scripts_allowed: bool,
}

/// What the driver needs to install a package, as mathematical values.
#[verifier::ext_equal]
pub struct InstallView {
    pub name: Seq<char>,
    pub version: Seq<char>,
    pub integrity: Seq<char>,
    pub resolved: Seq<char>,
    pub os: Seq<char>,
    pub arch: Seq<char>,
    pub has_install_script: bool,
    pub scripts_allowed: bool,
}

impl View for JsInstallDef {
    type V = InstallView;

    open spec fn view(&self) -> InstallView {
        InstallView {
            name: self.name@,
            version: self.version@,
            integrity: self.integrity@,
            resolved: self.resolved@,
            os: self.os@,
            arch: self.arch@,
            has_install_script: self.has_install_script,
            scripts_allowed: self.scripts_allowed,
        }
    }
}

/// Counts up when a package is unpacked in another way than before.
pub const JS_INSTALL_FORMAT_VERSION: u32 = 1;

/// The fields of a configuration.
pub open spec fn install_fields() -> Seq<FieldView> {
    seq![
        FieldView { key: "name"@, kind: FieldKind::Text, required: true },
        FieldView { key: "version"@, kind: FieldKind::Text, required: true },
        FieldView { key: "integrity"@, kind: FieldKind::Text, required: true },
        FieldView { key: "resolved"@, kind: FieldKind::Text, required: true },
        FieldView { key: "os"@, kind: FieldKind::Text, required: true },
        FieldView { key: "arch"@, kind: FieldKind::Text, required: true },
        FieldView { key: "has_install_script"@, kind: FieldKind::Flag, required: false },
        FieldView { key: "scripts_allowed"@, kind: FieldKind::Flag, required: false },
    ]
}

fn fields() -> (r: Vec<FieldSpec>)
    ensures
        field_views(r@) == install_fields(),
{
    let mut v: Vec<FieldSpec> = Vec::new();
    v.push(FieldSpec { key: "name", kind: FieldKind::Text, required: true });
    v.push(FieldSpec { key: "version", kind: FieldKind::Text, required: true });
    v.push(FieldSpec { key: "integrity", kind: FieldKind::Text, required: true });
    v.push(FieldSpec { key: "resolved", kind: FieldKind::Text, required: true });
    v.push(FieldSpec { key: "os", kind: FieldKind::Text, required: true });
    v.push(FieldSpec { key: "arch", kind: FieldKind::Text, required: true });
    v.push(FieldSpec { key: "has_install_script", kind: FieldKind::Flag, required: false });
    v.push(FieldSpec { key: "scripts_allowed", kind: FieldKind::Flag, required: false });
    assert(field_views(v@) =~= install_fields());
    v
}

/// Whether a configuration has a package's scripts run: it has some, and they are allowed.
pub open spec fn runs_scripts(c: Config) -> bool {
    flag_value(c, "has_install_script"@) && flag_value(c, "scripts_allowed"@)
}

/// What a configuration says. That scripts are allowed counts only for a package that has
/// some.
pub open spec fn install_def(c: Config) -> InstallView {
    InstallView {
        name: text_value(c, "name"@),
        version: text_value(c, "version"@),
        integrity: text_value(c, "integrity"@),
        resolved: text_value(c, "resolved"@),
        os: text_value(c, "os"@),
        arch: text_value(c, "arch"@),
        has_install_script: flag_value(c, "has_install_script"@),
        scripts_allowed: runs_scripts(c),
    }
}

/// What is wrong with a request, if anything.
pub open spec fn install_failure(c: Config) -> Option<DriverFailure> {
    match first_failure(c, install_fields()) {
        Some(f) => Some(DriverFailure::Config("js_install"@, f)),
        None => if flag_value(c, "has_install_script"@) && !flag_value(c, "scripts_allowed"@) {
            Some(
                DriverFailure::ScriptsNotAllowed(
                    text_value(c, "name"@),
                    text_value(c, "version"@),
                ),
            )
        } else {
            None
        },
    }
}

/// The hashed texts.
pub open spec fn install_parts(d: InstallView) -> Seq<Seq<char>> {
    seq![d.name, d.version, d.integrity, d.resolved, d.os, d.arch]
}

/// What the hash of a target is taken of.
pub open spec fn install_bytes(d: InstallView) -> Seq<u8> {
    number_bytes(JS_INSTALL_FORMAT_VERSION as nat, 4) + (texts_bytes(install_parts(d)) + (
    flag_bytes(d.has_install_script) + flag_bytes(d.scripts_allowed)))
}

/// The driver of `js_install` targets.
#[derive(Debug, Clone, Copy)]
pub struct JsInstallDriver;

impl Default for JsInstallDriver {
    fn default() -> (r: JsInstallDriver)
        ensures
            r == JsInstallDriver,
    {
        JsInstallDriver::new()
    }
}

impl JsInstallDef {
    /// The hash of a target.
    pub fn hash(&self) -> (r: String)
        ensures
            r@ == hash_text(install_bytes(self@)),
    {
        let mut out: Vec<u8> = Vec::new();
        push_number(&mut out, JS_INSTALL_FORMAT_VERSION as u64, 4);
        let parts = [
            self.name.as_str(),
            self.version.as_str(),
            self.integrity.as_str(),
            self.resolved.as_str(),
            self.os.as_str(),
            self.arch.as_str(),
        ];
        assert(slice_texts(parts@) =~= install_parts(self@));
        push_texts(&mut out, &parts);
        push_flag(&mut out, self.has_install_script);
        push_flag(&mut out, self.scripts_allowed);
        assert(out@ =~= install_bytes(self@));
        hash_of(&out)
    }

    /// Whether the tarball is to be verified: only where the lockfile records a hash.
    pub fn verifies(&self) -> (r: bool)
        ensures
            r == (self@.integrity.len() > 0),
    {
        to_chars(self.integrity.as_str()).len() > 0
    }

    /// Whether the package's scripts are to be run once it is unpacked.
    pub fn runs_scripts(&self) -> (r: bool)
        ensures
            r == (self@.has_install_script && self@.scripts_allowed),
    {
        self.has_install_script && self.scripts_allowed
    }
}

impl JsInstallDriver {
    /// The driver.
    pub fn new() -> (r: JsInstallDriver)
        ensures
            r == JsInstallDriver,
    {
        JsInstallDriver
    }

    /// The name of the driver.
    pub fn name(&self) -> (r: &'static str)
        ensures
            r@ == "js_install"@,
    {
        "js_install"
    }

    /// Makes a target of a request. It has no inputs, since its bytes come from the network; its
    /// output is the package's directory. A package whose scripts are run is not cached, since
    /// they depend on more than its hash covers; one whose scripts may not run is refused.
    pub fn parse(&self, req: &ParseRequest) -> (r: Result<TargetDef<JsInstallDef>, DriverError>)
        ensures
            match r {
                Err(e) => install_failure(req.config@) == Some(e@),
                Ok(t) => {
                    let d = install_def(req.config@);
                    &&& install_failure(req.config@) is None
                    &&& t.addr@ == req.addr@
                    &&& texts(t.labels@) == texts(req.labels@)
                    &&& t.def@ == d
                    &&& t.inputs@.len() == 0
                    &&& output_views(t.outputs@) == dir_output(req.package@)
                    &&& t.cache == (CacheConfig {
                        enabled: !runs_scripts(req.config@),
                        remote: !runs_scripts(req.config@),
                    })
                    &&& t.hash@ == hash_text(install_bytes(d))
                },
            },
    {
        let c = &req.config;
        match check_fields(c, &fields()) {
            Err(cause) => {
                return Err(DriverError::Config { driver: "js_install".to_owned(), cause });
            },
            Ok(_) => {},
        }
        let has_install_script = read_config_flag(c, "has_install_script");
        let allowed = read_config_flag(c, "scripts_allowed");
        let name = read_config_text(c, "name");
        let version = read_config_text(c, "version");
        if has_install_script && !allowed {
            return Err(DriverError::ScriptsNotAllowed { name, version });
        }
        let run_script = has_install_script && allowed;
        let def = JsInstallDef {
            name,
            version,
            integrity: read_config_text(c, "integrity"),
            resolved: read_config_text(c, "resolved"),
            os: read_config_text(c, "os"),
            arch: read_config_text(c, "arch"),
            has_install_script,
            scripts_allowed: run_script,
        };
        let hash = def.hash();
        Ok(
            TargetDef {
                addr: req.addr.clone(),
                labels: copy_texts(&req.labels),
                def,
                inputs: Vec::new(),
                outputs: make_dir_output(req.package.as_str()),
                cache: CacheConfig { enabled: !run_script, remote: !run_script },
                hash,
            },
        )
    }
}

/// What the SHA-512 hash of some bytes is.
pub uninterp spec fn sha512_digest(bytes: Seq<u8>) -> Seq<u8>;

/// What the SHA-1 hash of some bytes is.
pub uninterp spec fn sha1_digest(bytes: Seq<u8>) -> Seq<u8>;

/// What some bytes are in Base64 with the standard alphabet and padding.
pub uninterp spec fn base64_text(bytes: Seq<u8>) -> Seq<char>;

/// `sha2::Sha512::digest`: the hash of the bytes.
#[verifier::external_body]
fn sha512(bytes: &Vec<u8>) -> (r: Vec<u8>)
    ensures
        r@ == sha512_digest(bytes@),
{
    <sha2::Sha512 as sha2::Digest>::digest(bytes).to_vec()
}

/// `sha1::Sha1::digest`: the hash of the bytes.
#[verifier::external_body]
fn sha1(bytes: &Vec<u8>) -> (r: Vec<u8>)
    ensures
        r@ == sha1_digest(bytes@),
{
    <sha1::Sha1 as sha1::Digest>::digest(bytes).to_vec()
}

/// `base64::engine::general_purpose::STANDARD` encoding some bytes.
#[verifier::external_body]
fn base64(bytes: &Vec<u8>) -> (r: String)
    ensures
        r@ == base64_text(bytes@),
{
    base64::Engine::encode(&base64::engine::general_purpose::STANDARD, bytes)
}

/// Why a tarball is not what the lockfile says.
#[derive(Debug)]
pub enum IntegrityError {
    /// A recorded hash is not that of the tarball.
    Mismatch { algorithm: String, expected: String, got: String },
    /// No recorded hash is of a known kind.
    NoAlgorithm { integrity: String },
}

/// Why a tarball is not what the lockfile says, as mathematical values.
pub enum IntegrityFailure {
    Mismatch(Seq<char>, Seq<char>, Seq<char>),
    NoAlgorithm(Seq<char>),
}

impl View for IntegrityError {
    type V = IntegrityFailure;

    open spec fn view(&self) -> IntegrityFailure {
        match self {
            IntegrityError::Mismatch { algorithm, expected, got } => IntegrityFailure::Mismatch(
                algorithm@,
                expected@,
                got@,
            ),
            IntegrityError::NoAlgorithm { integrity } => IntegrityFailure::NoAlgorithm(integrity@),
        }
    }
}

impl IntegrityError {
    /// What the error says.
    pub open spec fn text(&self) -> Seq<char> {
        match self {
            IntegrityError::Mismatch { algorithm, expected, got } => "integrity mismatch ("@
                + algorithm@ + "): expected "@ + expected@ + ", got "@ + got@
                + ": the fetched tarball does not match the lockfile"@,
            IntegrityError::NoAlgorithm { integrity } => "no recognized integrity algorithm in "@
                + integrity@ + " (expected a sha512- or sha1- entry)"@,
        }
    }

    /// What the error says.
    pub fn message(&self) -> (r: String)
        ensures
            r@ == self.text(),
    {
        match self {
            IntegrityError::Mismatch { algorithm, expected, got } => {
                let mut out = "integrity mismatch (".to_owned();
                out.append(algorithm.as_str());
                out.append("): expected ");
                out.append(expected.as_str());
                out.append(", got ");
                out.append(got.as_str());
                out.append(": the fetched tarball does not match the lockfile");
                out
            },
            IntegrityError::NoAlgorithm { integrity } => {
                let mut out = "no recognized integrity algorithm in ".to_owned();
                out.append(integrity.as_str());
                out.append(" (expected a sha512- or sha1- entry)");
                out
            },
        }
    }
}

/// The hash of the kind that an entry names, if that kind is known.
pub open spec fn known_hash(algorithm: Seq<char>, h512: Seq<char>, h1: Seq<char>) -> Option<
    Seq<char>,
> {
    if algorithm == "sha512"@ {
        Some(h512)
    } else if algorithm == "sha1"@ {
        Some(h1)
    } else {
        None
    }
}

/// Whether an entry records a hash of a known kind.
pub open spec fn recognized(entry: Seq<char>) -> bool {
    entry.contains('-') && (upto_char(entry, '-') == "sha512"@ || upto_char(entry, '-') == "sha1"@)
}

/// Whether an entry of a known kind records the hash of the tarball.
pub open spec fn records(entry: Seq<char>, h512: Seq<char>, h1: Seq<char>) -> bool {
    recognized(entry) && known_hash(upto_char(entry, '-'), h512, h1) == Some(
        after_char(entry, '-'),
    )
}

/// Whether one of some entries records the hash of the tarball.
pub open spec fn recorded(entries: Seq<Seq<char>>, h512: Seq<char>, h1: Seq<char>) -> bool {
    exists|i: int| 0 <= i < entries.len() && records(#[trigger] entries[i], h512, h1)
}

/// The first of some entries that records a hash of a known kind.
pub open spec fn first_recognized(entries: Seq<Seq<char>>) -> Option<Seq<char>>
    decreases entries.len(),
{
    if entries.len() == 0 {
        None
    } else if recognized(entries[0]) {
        Some(entries[0])
    } else {
        first_recognized(entries.drop_first())
    }
}

/// What is wrong with a tarball whose Base64 hashes are given: nothing when one entry records
/// its hash, else the first entry of a known kind, or that there is none.
pub open spec fn integrity_failure(
    integrity: Seq<char>,
    h512: Seq<char>,
    h1: Seq<char>,
) -> Option<IntegrityFailure> {
    if recorded(words(integrity), h512, h1) {
        None
    } else {
        match first_recognized(words(integrity)) {
            None => Some(IntegrityFailure::NoAlgorithm(integrity)),
            Some(entry) => Some(
                IntegrityFailure::Mismatch(
                    upto_char(entry, '-'),
                    after_char(entry, '-'),
                    known_hash(upto_char(entry, '-'), h512, h1)->0,
                ),
            ),
        }
    }
}

/// Checks the Base64 hashes of a tarball against what the lockfile records: one of the recorded
/// entries of a known kind has to hold.
pub fn verify_hashes(integrity: &str, h512: &str, h1: &str) -> (r: Result<(), IntegrityError>)
    ensures
        match r {
            Ok(_) => integrity_failure(integrity@, h512@, h1@) is None,
            Err(e) => integrity_failure(integrity@, h512@, h1@) == Some(e@),
        },
{
    let entries = split_words(integrity);
    let ghost all = texts(entries@);
    let mut first: Option<IntegrityError> = None;
    let mut i: usize = 0;
    assert(all.skip(0) =~= all);
    while i < entries.len()
        invariant
            i <= entries.len(),
            all == texts(entries@),
            all == words(integrity@),
            forall|j: int| 0 <= j < i ==> !records(#[trigger] all[j], h512@, h1@),
            match first {
                None => first_recognized(all.skip(i as int)) == first_recognized(all),
                Some(e) => first_recognized(all) matches Some(entry) && e@
                    == IntegrityFailure::Mismatch(
                    upto_char(entry, '-'),
                    after_char(entry, '-'),
                    known_hash(upto_char(entry, '-'), h512@, h1@)->0,
                ),
            },
        decreases entries.len() - i,
    {
        proof {
            assert(all.skip(i as int)[0] == entries@[i as int]@);
            assert(all.skip(i as int).drop_first() =~= all.skip(i + 1));
            assert(all[i as int] == entries@[i as int]@);
        }
        match split_once(entries[i].as_str(), '-') {
            None => {},
            Some((algorithm, expected)) => {
                let got = if same(algorithm.as_str(), "sha512") {
                    Some(h512)
                } else if same(algorithm.as_str(), "sha1") {
                    Some(h1)
                } else {
                    None
                };
                match got {
                    None => {},
                    Some(got) => {
                        if same(got, expected.as_str()) {
                            assert(records(all[i as int], h512@, h1@));
                            return Ok(());
                        }
                        if first.is_none() {
                            first = Some(
                                IntegrityError::Mismatch {
                                    algorithm,
                                    expected,
                                    got: got.to_owned(),
                                },
                            );
                        }
                    },
                }
            },
        }
        i = i + 1;
    }
    assert(all.skip(i as int).len() == 0);
    match first {
        Some(e) => Err(e),
        None => Err(IntegrityError::NoAlgorithm { integrity: integrity.to_owned() }),
    }
}

/// Checks a tarball against what the lockfile records: one of the recorded hashes of a known
/// kind has to be its hash.
pub fn verify_integrity(bytes: &Vec<u8>, integrity: &str) -> (r: Result<(), IntegrityError>)
    ensures
        ({
            let failure = integrity_failure(
                integrity@,
                base64_text(sha512_digest(bytes@)),
                base64_text(sha1_digest(bytes@)),
            );
            match r {
                Ok(_) => failure is None,
                Err(e) => failure == Some(e@),
            }
        }),
{
    let h512 = base64(&sha512(bytes));
    let h1 = base64(&sha1(bytes));
    verify_hashes(integrity, h512.as_str(), h1.as_str())
}

/// An entry of a tarball, or a directory, that leads out of the package's directory.
#[derive(Debug)]
pub enum ExtractError {
    /// The path of an entry goes up.
    Escapes { entry: String },
    /// A directory on the way leads out.
    Outside { dest: String, path: String },
    /// Where a directory leads cannot be told.
    Unknown { path: String },
}

/// Why an entry is not unpacked, as mathematical values.
pub enum ExtractFailure {
    Escapes(Seq<char>),
    Outside(Seq<char>, Seq<char>),
    Unknown(Seq<char>),
}

impl View for ExtractError {
    type V = ExtractFailure;

    open spec fn view(&self) -> ExtractFailure {
        match self {
            ExtractError::Escapes { entry } => ExtractFailure::Escapes(entry@),
            ExtractError::Outside { dest, path } => ExtractFailure::Outside(dest@, path@),
            ExtractError::Unknown { path } => ExtractFailure::Unknown(path@),
        }
    }
}

impl ExtractError {
    /// What the error says.
    pub open spec fn text(&self) -> Seq<char> {
        match self {
            ExtractError::Escapes { entry } => "tarball entry "@ + entry@
                + " escapes the extraction root via `..`"@,
            ExtractError::Outside { dest, path } => "tarball entry escapes the extraction root "@
                + dest@ + ": "@ + path@ + " resolves outside it, refusing to extract"@,
            ExtractError::Unknown { path } => "canonicalize "@ + path@,
        }
    }

    /// What the error says.
    pub fn message(&self) -> (r: String)
        ensures
            r@ == self.text(),
    {
        match self {
            ExtractError::Escapes { entry } => {
                let mut out = "tarball entry ".to_owned();
                out.append(entry.as_str());
                out.append(" escapes the extraction root via `..`");
                out
            },
            ExtractError::Outside { dest, path } => {
                let mut out = "tarball entry escapes the extraction root ".to_owned();
                out.append(dest.as_str());
                out.append(": ");
                out.append(path.as_str());
                out.append(" resolves outside it, refusing to extract");
                out
            },
            ExtractError::Unknown { path } => {
                let mut out = "canonicalize ".to_owned();
                out.append(path.as_str());
                out
            },
        }
    }
}

/// The components of an entry's path after the first.
pub open spec fn entry_rest(path: Seq<char>) -> Seq<Seq<char>> {
    if components(path).len() == 0 {
        Seq::empty()
    } else {
        components(path).skip(1)
    }
}

/// Where an entry of a tarball goes: its path without its top-level directory. The top-level
/// directory itself goes nowhere, and a path that goes up is refused.
pub fn strip_tarball_root(path: &str) -> (r: Result<Option<String>, ExtractError>)
    ensures
        ({
            let rest = entry_rest(path@);
            match r {
                Ok(None) => rest.len() == 0,
                Ok(Some(p)) => rest.len() > 0 && !rest.contains(".."@) && p@ == joined(rest, "/"@),
                Err(e) => rest.contains(".."@) && e@ == ExtractFailure::Escapes(path@),
            }
        }),
{
    let mut list = split_path(path);
    let ghost all = texts(list@);
    assert(all.len() == list@.len());
    if list.len() > 0 {
        let first = list.remove(0);
        assert(texts(list@) =~= all.skip(1));
    }
    assert(texts(list@) =~= entry_rest(path@));
    if list.len() == 0 {
        return Ok(None);
    }
    if holds(&list, "..") {
        return Err(ExtractError::Escapes { entry: path.to_owned() });
    }
    Ok(Some(join(&list, "/")))
}

/// What becomes of an entry of a tarball.
#[derive(Debug)]
pub enum Placement {
    /// It goes nowhere.
    Skipped,
    /// It is a directory to create, once the one that it goes into is safe.
    Directory { dest: String, parent: Option<String> },
    /// It is to be unpacked, once the directory that it goes into is safe.
    Unpacked { dest: String, parent: Option<String> },
}

/// What becomes of an entry, as mathematical values.
pub enum PlacementView {
    Skipped,
    Directory(Seq<char>, Option<Seq<char>>),
    Unpacked(Seq<char>, Option<Seq<char>>),
}

impl View for Placement {
    type V = PlacementView;

    open spec fn view(&self) -> PlacementView {
        match self {
            Placement::Skipped => PlacementView::Skipped,
            Placement::Directory { dest, parent } => PlacementView::Directory(
                dest@,
                opt_text(*parent),
            ),
            Placement::Unpacked { dest, parent } => PlacementView::Unpacked(
                dest@,
                opt_text(*parent),
            ),
        }
    }
}

/// What becomes of an entry that does not go up: a directory is created, so that it never takes
/// the mode that the tarball gives it, and everything else is unpacked.
pub open spec fn placement(dest_dir: Seq<char>, path: Seq<char>, is_dir: bool) -> PlacementView {
    let rest = entry_rest(path);
    let dest = under(dest_dir, joined(rest, "/"@));
    if rest.len() == 0 {
        PlacementView::Skipped
    } else if is_dir {
        PlacementView::Directory(dest, parent_of(dest))
    } else {
        PlacementView::Unpacked(dest, parent_of(dest))
    }
}

/// Tells what becomes of the entry of a tarball with the path `path` when the tarball is
/// extracted into `dest_dir`.
pub fn place_entry(dest_dir: &str, path: &str, is_dir: bool) -> (r: Result<Placement, ExtractError>)
    ensures
        match r {
            Ok(p) => !entry_rest(path@).contains(".."@) && p@ == placement(dest_dir@, path@, is_dir),
            Err(e) => entry_rest(path@).contains(".."@) && e@ == ExtractFailure::Escapes(path@),
        },
{
    match strip_tarball_root(path) {
        Err(e) => Err(e),
        Ok(None) => Ok(Placement::Skipped),
        Ok(Some(rel)) => {
            let dest = join_path(dest_dir, rel.as_str());
            let parent = parent(dest.as_str());
            if is_dir {
                Ok(Placement::Directory { dest, parent })
            } else {
                Ok(Placement::Unpacked { dest, parent })
            }
        },
    }
}

/// Checks that a directory, whose canonical path is given if it has one, lies in the package's
/// directory `dest_dir`.
pub fn validate_inside_dest(
    dest_dir: &str,
    path: &str,
    canonical_dest: Option<&str>,
    canonical_path: Option<&str>,
) -> (r: Result<(), ExtractError>)
    ensures
        match (canonical_path, canonical_dest) {
            (None, _) => r matches Err(e) && e@ == ExtractFailure::Unknown(path@),
            (Some(_), None) => r matches Err(e) && e@ == ExtractFailure::Unknown(dest_dir@),
            (Some(p), Some(d)) => match r {
                Ok(_) => within(p@, d@),
                Err(e) => !within(p@, d@) && e@ == ExtractFailure::Outside(dest_dir@, path@),
            },
        },
{
    let p = match canonical_path {
        Some(p) => p,
        None => {
            return Err(ExtractError::Unknown { path: path.to_owned() });
        },
    };
    let d = match canonical_dest {
        Some(d) => d,
        None => {
            return Err(ExtractError::Unknown { path: dest_dir.to_owned() });
        },
    };
    if lies_within(p, d) {
        Ok(())
    } else {
        Err(ExtractError::Outside { dest: dest_dir.to_owned(), path: path.to_owned() })
    }
}

/// One step on the way to a directory that an entry can safely be put in.
#[derive(Debug)]
pub enum ParentStep {
    /// Check that this directory lies inside.
    Check { path: String },
    /// Create this directory.
    Create { path: String },
}

/// A step as mathematical values.
pub enum StepView {
    Check(Seq<char>),
    Create(Seq<char>),
}

impl View for ParentStep {
    type V = StepView;

    open spec fn view(&self) -> StepView {
        match self {
            ParentStep::Check { path } => StepView::Check(path@),
            ParentStep::Create { path } => StepView::Create(path@),
        }
    }
}

/// Steps as mathematical values.
pub open spec fn step_views(v: Seq<ParentStep>) -> Seq<StepView> {
    v.map_values(|s: ParentStep| s@)
}

/// The steps that make the directory `dir`, given which directories are there: the ones above it
/// first, each only after the directory that it goes into was checked.
pub open spec fn creation_steps(dir: Seq<char>, there: Set<Seq<char>>) -> Seq<StepView>
    decreases dir.len(),
    via creation_climbs
{
    if there.contains(path_key(dir)) {
        Seq::empty()
    } else {
        match parent_of(dir) {
            Some(q) => creation_steps(q, there).push(StepView::Check(q)).push(
                StepView::Create(dir),
            ),
            None => seq![StepView::Create(dir)],
        }
    }
}

#[via_fn]
proof fn creation_climbs(dir: Seq<char>, there: Set<Seq<char>>) {
    lemma_parent(dir);
}

fn push_creation_steps(dir: &str, there: &StrSet) -> (r: Vec<ParentStep>)
    ensures
        step_views(r@) == creation_steps(dir@, there@),
    decreases dir@.len(),
{
    if there.contains(key_of_path(dir).as_str()) {
        let none: Vec<ParentStep> = Vec::new();
        assert(step_views(none@) =~= Seq::<StepView>::empty());
        return none;
    }
    proof {
        lemma_parent(dir@);
    }
    match parent(dir) {
        Some(q) => {
            let mut steps = push_creation_steps(q.as_str(), there);
            let ghost before = step_views(steps@);
            let ghost x = q@;
            steps.push(ParentStep::Check { path: q });
            steps.push(ParentStep::Create { path: dir.to_owned() });
            assert(step_views(steps@) =~= before.push(StepView::Check(x)).push(
                StepView::Create(dir@),
            ));
            steps
        },
        None => {
            let mut steps: Vec<ParentStep> = Vec::new();
            steps.push(ParentStep::Create { path: dir.to_owned() });
            assert(step_views(steps@) =~= seq![StepView::Create(dir@)]);
            steps
        },
    }
}

/// What to do before an entry is put in the directory `parent`, given the keys of the paths that
/// are there: create what is missing, each directory only after the one that it goes into was
/// checked, and check the directory itself, whether it was there or not.
pub fn ensure_extraction_parent_is_safe(parent: &str, there: &StrSet) -> (r: Vec<ParentStep>)
    ensures
        step_views(r@) == creation_steps(parent@, there@).push(StepView::Check(parent@)),
{
    let mut steps = push_creation_steps(parent, there);
    let ghost before = step_views(steps@);
    steps.push(ParentStep::Check { path: parent.to_owned() });
    assert(step_views(steps@) =~= before.push(StepView::Check(parent@)));
    steps
}

/// Before a directory is created, the directory that it goes into is checked.
pub proof fn nothing_is_created_unchecked(dir: Seq<char>, there: Set<Seq<char>>, i: int)
    requires
        0 <= i < creation_steps(dir, there).len(),
        creation_steps(dir, there)[i] is Create,
        parent_of(creation_steps(dir, there)[i]->Create_0) is Some,
    ensures
        i > 0,
        creation_steps(dir, there)[i - 1] == StepView::Check(
            parent_of(creation_steps(dir, there)[i]->Create_0)->0,
        ),
    decreases dir.len(),
{
    lemma_parent(dir);
    let s = creation_steps(dir, there);
    match parent_of(dir) {
        Some(q) => {
            let t = creation_steps(q, there);
            if i < t.len() {
                assert(s[i] == t[i]);
                nothing_is_created_unchecked(q, there, i);
                assert(s[i - 1] == t[i - 1]);
            } else {
                assert(i == t.len() + 1);
            }
        },
        None => {
            assert(s[0] == StepView::Create(dir));
        },
    }
}

/// The scripts of a package that are run when it is installed, in order.
pub open spec fn scripts_in(t: JsonTree) -> Seq<(Seq<char>, Seq<char>)> {
    match field(t, "scripts"@) {
        Some(JsonTree::Object(ms)) => one_script(JsonTree::Object(ms), "preinstall"@) + one_script(
            JsonTree::Object(ms),
            "install"@,
        ) + one_script(JsonTree::Object(ms), "postinstall"@),
        _ => Seq::empty(),
    }
}

/// The script of a name, if it is there.
pub open spec fn one_script(scripts: JsonTree, name: Seq<char>) -> Seq<(Seq<char>, Seq<char>)> {
    match field(scripts, name) {
        Some(JsonTree::Str(s)) => seq![(name, s)],
        _ => Seq::empty(),
    }
}

/// Pairs of a name and a script as mathematical values.
pub open spec fn script_views(v: Seq<(String, String)>) -> Seq<(Seq<char>, Seq<char>)> {
    v.map_values(|p: (String, String)| (p.0@, p.1@))
}

fn push_script(scripts: &Json, name: &str, out: &mut Vec<(String, String)>)
    ensures
        script_views(final(out)@) == script_views(old(out)@) + one_script(
            crate::json::tree(*scripts),
            name@,
        ),
{
    let ghost start = script_views(out@);
    match scripts.get(name) {
        Some(Json::Str(s)) => {
            out.push((name.to_owned(), s.clone()));
            assert(script_views(out@) =~= start + seq![(name@, s@)]);
        },
        _ => {
            assert(start + Seq::<(Seq<char>, Seq<char>)>::empty() =~= start);
        },
    }
}

/// A manifest that is not JSON.
#[derive(Debug)]
pub struct ScriptsError {
    pub detail: String,
}

/// The scripts to run once a package is unpacked, by what its manifest holds: its `preinstall`,
/// `install` and `postinstall` scripts, in that order. A package without a manifest has none.
pub fn lifecycle_scripts(manifest: Option<&str>) -> (r: Result<Vec<(String, String)>, ScriptsError>)
    ensures
        match manifest {
            None => r matches Ok(v) && v@.len() == 0,
            Some(text) => match json_document(text@) {
                None => r is Err,
                Some(t) => r matches Ok(v) && script_views(v@) == scripts_in(t),
            },
        },
{
    let mut out: Vec<(String, String)> = Vec::new();
    let text = match manifest {
        Some(text) => text,
        None => {
            return Ok(out);
        },
    };
    let j = match parse_json(text) {
        Ok(j) => j,
        Err(e) => {
            return Err(ScriptsError { detail: e.detail });
        },
    };
    assert(script_views(out@) =~= Seq::<(Seq<char>, Seq<char>)>::empty());
    match j.get("scripts") {
        Some(scripts) => match scripts {
            Json::Object(_) => {
                push_script(scripts, "preinstall", &mut out);
                push_script(scripts, "install", &mut out);
                push_script(scripts, "postinstall", &mut out);
                assert(script_views(out@) =~= scripts_in(crate::json::tree(j)));
            },
            _ => {},
        },
        None => {},
    }
    Ok(out)
}

/// How a package's script ended.
pub open spec fn script_failure_text(
    key: Seq<char>,
    name: Seq<char>,
    status: Seq<char>,
    stdout: Seq<char>,
    stderr: Seq<char>,
) -> Seq<char> {
    "`"@ + key + "` script for "@ + name + " exited with "@ + status + "\nstdout:\n"@ + stdout
        + "\nstderr:\n"@ + stderr
}

/// Tells whether a package's script went well.
pub fn check_script_exit(key: &str, name: &str, exit: &crate::driver::ToolExit) -> (r: Result<
    (),
    crate::driver::ToolFailure,
>)
    ensures
        r is Ok <==> exit.success,
        r matches Err(e) ==> e.message@ == script_failure_text(
            key@,
            name@,
            exit.status@,
            exit.stdout@,
            exit.stderr@,
        ),
{
    if exit.success {
        return Ok(());
    }
    let mut message = "`".to_owned();
    message.append(key);
    message.append("` script for ");
    message.append(name);
    message.append(" exited with ");
    message.append(exit.status.as_str());
    message.append("\nstdout:\n");
    message.append(exit.stdout.as_str());
    message.append("\nstderr:\n");
    message.append(exit.stderr.as_str());
    Err(crate::driver::ToolFailure { message })
}

/// Everything shows in what the hash is taken of: no two different targets are hashed from the
/// same bytes.
pub proof fn every_install_field_is_hashed(a: InstallView, b: InstallView)
    requires
        install_bytes(a) == install_bytes(b),
    ensures
        a == b,
{
    let v = JS_INSTALL_FORMAT_VERSION as nat;
    let s = install_parts(a);
    let t = install_parts(b);
    let af = flag_bytes(a.has_install_script) + flag_bytes(a.scripts_allowed);
    let bf = flag_bytes(b.has_install_script) + flag_bytes(b.scripts_allowed);
    assert(vstd::arithmetic::power::pow(256, 4) == 0x1_0000_0000) by {
        reveal_with_fuel(vstd::arithmetic::power::pow, 5);
    }
    lemma_number_splits(v, texts_bytes(s) + af, v, texts_bytes(t) + bf, 4);
    lemma_texts_split(s, af, t, bf);
    lemma_flag_splits(
        a.has_install_script,
        flag_bytes(a.scripts_allowed),
        b.has_install_script,
        flag_bytes(b.scripts_allowed),
    );
    let none = Seq::<u8>::empty();
    assert(flag_bytes(a.scripts_allowed) + none =~= flag_bytes(a.scripts_allowed));
    assert(flag_bytes(b.scripts_allowed) + none =~= flag_bytes(b.scripts_allowed));
    lemma_flag_splits(a.scripts_allowed, none, b.scripts_allowed, none);
    assert(s[0] == t[0] && s[1] == t[1] && s[2] == t[2] && s[3] == t[3] && s[4] == t[4] && s[5]
        == t[5]);
}

/// Configurations that differ in one field alone agree in every field with a name of another
/// length.
proof fn lemma_other_fields(c: Config, d: Config, x: Seq<char>, k: Seq<char>)
    requires
        c.remove(x) == d.remove(x),
        k.len() != x.len(),
    ensures
        text_value(c, k) == text_value(d, k),
        flag_value(c, k) == flag_value(d, k),
{
    assert(c.remove(x).dom().contains(k) == c.dom().contains(k));
    assert(d.remove(x).dom().contains(k) == d.dom().contains(k));
    if c.dom().contains(k) {
        assert(c.remove(x)[k] == c[k]);
        assert(d.remove(x)[k] == d[k]);
    }
}

/// Allowing the scripts of a package that has none changes nothing.
pub proof fn allowing_scripts_needs_a_script(c: Config, d: Config)
    requires
        !flag_value(c, "has_install_script"@),
        c.remove("scripts_allowed"@) == d.remove("scripts_allowed"@),
    ensures
        install_def(c) == install_def(d),
        install_bytes(install_def(c)) == install_bytes(install_def(d)),
{
    reveal_strlit("scripts_allowed");
    reveal_strlit("name");
    reveal_strlit("version");
    reveal_strlit("integrity");
    reveal_strlit("resolved");
    reveal_strlit("os");
    reveal_strlit("arch");
    reveal_strlit("has_install_script");
    let x = "scripts_allowed"@;
    lemma_other_fields(c, d, x, "name"@);
    lemma_other_fields(c, d, x, "version"@);
    lemma_other_fields(c, d, x, "integrity"@);
    lemma_other_fields(c, d, x, "resolved"@);
    lemma_other_fields(c, d, x, "os"@);
    lemma_other_fields(c, d, x, "arch"@);
    lemma_other_fields(c, d, x, "has_install_script"@);
}

/// A tarball is accepted just when some recorded entry of a known kind records its hash, and
/// told to have none of a known kind just when no entry is.
pub proof fn integrity_needs_one_known_hash(integrity: Seq<char>, h512: Seq<char>, h1: Seq<char>)
    ensures
        integrity_failure(integrity, h512, h1) is None <==> exists|i: int|
            0 <= i < words(integrity).len() && records(#[trigger] words(integrity)[i], h512, h1),
        integrity_failure(integrity, h512, h1) == Some(IntegrityFailure::NoAlgorithm(integrity))
            <==> forall|i: int|
            0 <= i < words(integrity).len() ==> !recognized(#[trigger] words(integrity)[i]),
{
    lemma_first_recognized(words(integrity));
}

proof fn lemma_first_recognized(entries: Seq<Seq<char>>)
    ensures
        first_recognized(entries) is None <==> forall|i: int|
            0 <= i < entries.len() ==> !recognized(#[trigger] entries[i]),
    decreases entries.len(),
{
    if entries.len() > 0 {
        let rest = entries.drop_first();
        lemma_first_recognized(rest);
        assert forall|i: int| 0 < i < entries.len() implies entries[i] == rest[i - 1] by {}
        if first_recognized(entries) is None {
            assert forall|i: int| 0 <= i < entries.len() implies !recognized(
                #[trigger] entries[i],
            ) by {
                if i > 0 {
                    assert(!recognized(rest[i - 1]));
                }
            }
        } else if !recognized(entries[0]) {
            let j = choose|j: int| 0 <= j < rest.len() && recognized(#[trigger] rest[j]);
            assert(recognized(entries[j + 1]));
        }
    }
}

/// Those of some entries that record a hash of a known kind.
pub open spec fn known_entries(entries: Seq<Seq<char>>) -> Seq<Seq<char>> {
    entries.filter(|entry: Seq<char>| recognized(entry))
}

/// Entries of unknown kinds neither help nor hurt: what the entries of known kinds say decides.
pub proof fn unknown_kinds_do_not_matter(
    integrity: Seq<char>,
    other: Seq<char>,
    h512: Seq<char>,
    h1: Seq<char>,
)
    requires
        known_entries(words(integrity)) == known_entries(words(other)),
    ensures
        integrity_failure(integrity, h512, h1) is None <==> integrity_failure(
            other,
            h512,
            h1,
        ) is None,
{
    lemma_recorded_among_known(words(integrity), h512, h1);
    lemma_recorded_among_known(words(other), h512, h1);
}

proof fn lemma_recorded_among_known(entries: Seq<Seq<char>>, h512: Seq<char>, h1: Seq<char>)
    ensures
        recorded(entries, h512, h1) <==> recorded(known_entries(entries), h512, h1),
{
    let known = |entry: Seq<char>| recognized(entry);
    let kept = known_entries(entries);
    if recorded(entries, h512, h1) {
        let i = choose|i: int| 0 <= i < entries.len() && records(#[trigger] entries[i], h512, h1);
        entries.lemma_filter_contains(known, i);
        assert(kept.contains(entries[i]));
        let j = kept.index_of(entries[i]);
        assert(records(kept[j], h512, h1));
    }
    if recorded(kept, h512, h1) {
        let j = choose|j: int| 0 <= j < kept.len() && records(#[trigger] kept[j], h512, h1);
        entries.lemma_filter_contains_rev(known, kept[j]);
        let i = entries.index_of(kept[j]);
        assert(records(entries[i], h512, h1));
    }
}

} // verus!
