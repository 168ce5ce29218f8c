//! TypeScript configuration files: what they leave to a bare specifier and which files they
//! cover.
use crate::glob::{is_safe_glob, safe_glob};
use crate::json::{
    field, json_document, lemma_members, lemma_trees, members, parse_json, tree, trees, Json,
    JsonTree,
};
use crate::path::{
    join_path, names_same, relative, relative_to, same_path, settled, slashed, under, with_slashes,
};
use crate::specifiers::{BareSpecifierGuard, GuardView};
use crate::text::{
    find_char, from_range, lemma_find_char, same, split, split_on, split_once, starts_with, texts,
    to_chars, trim_end, trim_end_char,
};
use crate::tree::{text_at, FileTree, FilesView};
use vstd::prelude::*;

verus! {

/// What json-strip-comments leaves of a JSON text with comments and trailing commas: nothing
/// when a slash outside of strings starts no comment.
pub uninterp spec fn uncommented(text: Seq<char>) -> Option<Seq<char>>;

/// `json_strip_comments::strip`: the text with its comments and trailing commas made blank,
/// or an error text of no stated content when it cannot be done.
#[verifier::external_body]
fn strip_comments(text: &str) -> (r: Result<String, String>)
    ensures
        match r {
            Ok(s) => uncommented(text@) == Some(s@),
            Err(_) => uncommented(text@) is None,
        },
{
    let mut out = text.to_string();
    json_strip_comments::strip(&mut out).map_err(|e| e.to_string())?;
    Ok(out)
}

/// Whether wax reads a text as a glob.
pub uninterp spec fn valid_glob(pattern: Seq<char>) -> bool;

/// Whether a path matches a glob of wax.
pub uninterp spec fn glob_matches(pattern: Seq<char>, path: Seq<char>) -> bool;

/// `wax::Glob::new`: whether it takes the pattern. It panics where a sequence joins a part of
/// no lower bound to one of no upper bound, where the number of bytes that a part matches
/// overflows, and where the regular expression that it makes nests too deep or counts too far;
/// no safe pattern comes to that.
#[verifier::external_body]
fn is_glob(pattern: &str) -> (r: bool)
    requires
        safe_glob(pattern@),
    ensures
        r == valid_glob(pattern@),
{
    wax::Glob::new(pattern).is_ok()
}

/// Whether a pattern is a glob that can be matched: one that wax panics on is none.
pub open spec fn usable_glob(pattern: Seq<char>) -> bool {
    safe_glob(pattern) && valid_glob(pattern)
}

/// `wax::Program::is_match` of the glob of a pattern: whether it matches the path.
#[verifier::external_body]
fn matches_glob(pattern: &str, path: &str) -> (r: bool)
    requires
        usable_glob(pattern@),
    ensures
        r == glob_matches(pattern@, path@),
{
    match wax::Glob::new(pattern) {
        Ok(glob) => wax::Program::is_match(&glob, std::path::Path::new(path)),
        Err(_) => false,
    }
}

/// Why a tsconfig cannot be used.
#[derive(Debug)]
pub enum TsconfigError {
    /// The file is not there or cannot be read.
    Unreadable { path: String },
    /// Its comments cannot be told from the rest.
    Comments { path: String, detail: String },
    /// It is not JSON.
    NotJson { path: String, detail: String },
    /// A relative or absolute `extends` names no file.
    ExtendsNotFound { specifier: String, from: String },
    /// An `extends` that names a package is in no `node_modules` up to the root.
    ExtendsUnresolved { specifier: String, from: String, root: String },
    /// An `extends` leads out of the workspace.
    OutsideWorkspace { path: String, root: String },
    /// An `extends` chain comes back to a file that it has passed.
    Cycle { leaf: String },
    /// A shared tsconfig says nothing of the files that it covers.
    Unscoped { tsconfig: String, pkg: String },
    /// A shared tsconfig covers more than the package.
    NotConfined { tsconfig: String, entry: String, pkg: String },
    /// A pattern is no glob.
    InvalidGlob { field: String, pattern: String },
}

/// Why a tsconfig cannot be used, as mathematical values.
pub enum TsconfigFailure {
    Unreadable(Seq<char>),
    Comments(Seq<char>),
    NotJson(Seq<char>),
    ExtendsNotFound(Seq<char>, Seq<char>),
    ExtendsUnresolved(Seq<char>, Seq<char>, Seq<char>),
    OutsideWorkspace(Seq<char>, Seq<char>),
    Cycle(Seq<char>),
    Unscoped(Seq<char>, Seq<char>),
    NotConfined(Seq<char>, Seq<char>, Seq<char>),
    InvalidGlob(Seq<char>, Seq<char>),
}

impl View for TsconfigError {
    type V = TsconfigFailure;

    open spec fn view(&self) -> TsconfigFailure {
        match self {
            TsconfigError::Unreadable { path } => TsconfigFailure::Unreadable(path@),
            TsconfigError::Comments { path, .. } => TsconfigFailure::Comments(path@),
            TsconfigError::NotJson { path, .. } => TsconfigFailure::NotJson(path@),
            TsconfigError::ExtendsNotFound { specifier, from } => TsconfigFailure::ExtendsNotFound(
                specifier@,
                from@,
            ),
            TsconfigError::ExtendsUnresolved { specifier, from, root } =>
                TsconfigFailure::ExtendsUnresolved(specifier@, from@, root@),
            TsconfigError::OutsideWorkspace { path, root } => TsconfigFailure::OutsideWorkspace(
                path@,
                root@,
            ),
            TsconfigError::Cycle { leaf } => TsconfigFailure::Cycle(leaf@),
            TsconfigError::Unscoped { tsconfig, pkg } => TsconfigFailure::Unscoped(tsconfig@, pkg@),
            TsconfigError::NotConfined { tsconfig, entry, pkg } => TsconfigFailure::NotConfined(
                tsconfig@,
                entry@,
                pkg@,
            ),
            TsconfigError::InvalidGlob { field, pattern } => TsconfigFailure::InvalidGlob(
                field@,
                pattern@,
            ),
        }
    }
}

impl TsconfigError {
    /// What the error says.
    pub open spec fn text(&self) -> Seq<char> {
        match self {
            TsconfigError::Unreadable { path } => "reading tsconfig "@ + path@,
            TsconfigError::Comments { path, detail } => "stripping comments from "@ + path@
                + ": "@ + detail@,
            TsconfigError::NotJson { path, detail } => "parsing tsconfig "@ + path@ + ": "@
                + detail@,
            TsconfigError::ExtendsNotFound { specifier, from } => "tsconfig `extends: "@
                + specifier@ + "` (from "@ + from@ + ") not found"@,
            TsconfigError::ExtendsUnresolved { specifier, from, root } => "tsconfig `extends: "@
                + specifier@ + "` (from "@ + from@
                + ") could not be resolved: no matching file under any ancestor `node_modules` up to "@
                + root@ + "; is `node_modules` installed?"@,
            TsconfigError::OutsideWorkspace { path, root } => "tsconfig extends resolved to "@
                + path@ + " which is outside the workspace root "@ + root@,
            TsconfigError::Cycle { leaf } => "tsconfig extends cycle detected while resolving "@
                + leaf@,
            TsconfigError::Unscoped { tsconfig, pkg } => "js_typecheck: "@ + tsconfig@
                + " declares no `include`/`files`; scope it to "@ + pkg@
                + ", or give the package its own tsconfig.json"@,
            TsconfigError::NotConfined { tsconfig, entry, pkg } => "js_typecheck: "@ + tsconfig@
                + " has the `include`/`files` entry "@ + entry@ + ", which is not confined to "@
                + pkg@,
            TsconfigError::InvalidGlob { field, pattern } => "invalid "@ + field@ + " glob "@
                + pattern@,
        }
    }

    /// What the error says.
    pub fn message(&self) -> (r: String)
        ensures
            r@ == self.text(),
    {
        match self {
            TsconfigError::Unreadable { path } => {
                let mut out = "reading tsconfig ".to_owned();
                out.append(path.as_str());
                out
            },
            TsconfigError::Comments { path, detail } => {
                let mut out = "stripping comments from ".to_owned();
                out.append(path.as_str());
                out.append(": ");
                out.append(detail.as_str());
                out
            },
            TsconfigError::NotJson { path, detail } => {
                let mut out = "parsing tsconfig ".to_owned();
                out.append(path.as_str());
                out.append(": ");
                out.append(detail.as_str());
                out
            },
            TsconfigError::ExtendsNotFound { specifier, from } => {
                let mut out = "tsconfig `extends: ".to_owned();
                out.append(specifier.as_str());
                out.append("` (from ");
                out.append(from.as_str());
                out.append(") not found");
                out
            },
            TsconfigError::ExtendsUnresolved { specifier, from, root } => {
                let mut out = "tsconfig `extends: ".to_owned();
                out.append(specifier.as_str());
                out.append("` (from ");
                out.append(from.as_str());
                out.append(
                    ") could not be resolved: no matching file under any ancestor `node_modules` up to ",
                );
                out.append(root.as_str());
                out.append("; is `node_modules` installed?");
                out
            },
            TsconfigError::OutsideWorkspace { path, root } => {
                let mut out = "tsconfig extends resolved to ".to_owned();
                out.append(path.as_str());
                out.append(" which is outside the workspace root ");
                out.append(root.as_str());
                out
            },
            TsconfigError::Cycle { leaf } => {
                let mut out = "tsconfig extends cycle detected while resolving ".to_owned();
                out.append(leaf.as_str());
                out
            },
            TsconfigError::Unscoped { tsconfig, pkg } => {
                let mut out = "js_typecheck: ".to_owned();
                out.append(tsconfig.as_str());
                out.append(" declares no `include`/`files`; scope it to ");
                out.append(pkg.as_str());
                out.append(", or give the package its own tsconfig.json");
                out
            },
            TsconfigError::NotConfined { tsconfig, entry, pkg } => {
                let mut out = "js_typecheck: ".to_owned();
                out.append(tsconfig.as_str());
                out.append(" has the `include`/`files` entry ");
                out.append(entry.as_str());
                out.append(", which is not confined to ");
                out.append(pkg.as_str());
                out
            },
            TsconfigError::InvalidGlob { field, pattern } => {
                let mut out = "invalid ".to_owned();
                out.append(field.as_str());
                out.append(" glob ");
                out.append(pattern.as_str());
                out
            },
        }
    }
}

/// The JSON of the tsconfig at `p`, its comments left out, or why there is none.
pub open spec fn tsconfig_at(fs: FilesView, p: Seq<char>) -> Result<JsonTree, TsconfigFailure> {
    match text_at(fs, p) {
        None => Err(TsconfigFailure::Unreadable(p)),
        Some(text) => match uncommented(text) {
            None => Err(TsconfigFailure::Comments(p)),
            Some(s) => match json_document(s) {
                None => Err(TsconfigFailure::NotJson(p)),
                Some(t) => Ok(t),
            },
        },
    }
}

/// Reads the tsconfig at `path`: JSON in which comments and trailing commas may stand.
pub fn read_tsconfig_jsonc(files: &FileTree, path: &str) -> (r: Result<Json, TsconfigError>)
    ensures
        match r {
            Ok(j) => tsconfig_at(files@, path@) == Ok::<JsonTree, TsconfigFailure>(tree(j)),
            Err(e) => tsconfig_at(files@, path@) == Err::<JsonTree, TsconfigFailure>(e@),
        },
{
    match files.read(path) {
        None => Err(TsconfigError::Unreadable { path: path.to_owned() }),
        Some(text) => match strip_comments(text.as_str()) {
            Err(detail) => Err(TsconfigError::Comments { path: path.to_owned(), detail }),
            Ok(s) => match parse_json(s.as_str()) {
                Err(e) => Err(TsconfigError::NotJson { path: path.to_owned(), detail: e.detail }),
                Ok(j) => Ok(j),
            },
        },
    }
}

/// The names of an object's members.
pub open spec fn member_names(ms: Seq<(Seq<char>, JsonTree)>) -> Seq<Seq<char>> {
    ms.map_values(|m: (Seq<char>, JsonTree)| m.0)
}

/// What a tsconfig leaves to a bare specifier: nothing is left sure by one that extends
/// another or has a `baseUrl`; otherwise the keys of its `paths` are set apart.
pub open spec fn tsconfig_guard(t: JsonTree) -> GuardView {
    if field(t, "extends"@) is Some {
        GuardView::Disabled
    } else {
        match field(t, "compilerOptions"@) {
            None => GuardView::Unrestricted,
            Some(options) => if field(options, "baseUrl"@) matches Some(JsonTree::Str(_)) {
                GuardView::Disabled
            } else {
                match field(options, "paths"@) {
                    Some(JsonTree::Object(ms)) => GuardView::ExceptPatterns(member_names(ms)),
                    _ => GuardView::Unrestricted,
                }
            },
        }
    }
}

/// What the package's tsconfig leaves to a bare specifier.
pub open spec fn guard_at(fs: FilesView, tsconfig: Option<Seq<char>>) -> GuardView {
    match tsconfig {
        None => GuardView::Unrestricted,
        Some(p) => match tsconfig_at(fs, p) {
            Err(_) => GuardView::Disabled,
            Ok(t) => tsconfig_guard(t),
        },
    }
}

/// What a tsconfig leaves to a bare specifier.
pub fn guard_of(j: &Json) -> (r: BareSpecifierGuard)
    ensures
        r@ == tsconfig_guard(tree(*j)),
{
    if j.get("extends").is_some() {
        return BareSpecifierGuard::Disabled;
    }
    match j.get("compilerOptions") {
        None => BareSpecifierGuard::Unrestricted,
        Some(options) => {
            match options.get("baseUrl") {
                Some(Json::Str(_)) => {
                    return BareSpecifierGuard::Disabled;
                },
                _ => {},
            }
            match options.get("paths") {
                Some(Json::Object(fields)) => {
                    let ghost all = members(fields@);
                    proof {
                        lemma_members(fields@);
                    }
                    let mut names: Vec<String> = Vec::new();
                    let mut i: usize = 0;
                    while i < fields.len()
                        invariant
                            i <= fields.len(),
                            all == members(fields@),
                            all.len() == fields@.len(),
                            forall|k: int|
                                0 <= k < fields@.len() ==> #[trigger] all[k] == (
                                    fields@[k].0@,
                                    tree(fields@[k].1),
                                ),
                            texts(names@) == member_names(all).take(i as int),
                        decreases fields.len() - i,
                    {
                        let ghost before = texts(names@);
                        names.push(fields[i].0.clone());
                        proof {
                            let name = member_names(all)[i as int];
                            assert(name == all[i as int].0);
                            assert(texts(names@) =~= before.push(name));
                            assert(member_names(all).take(i + 1) =~= member_names(all).take(
                                i as int,
                            ).push(name));
                        }
                        i = i + 1;
                    }
                    assert(member_names(all).take(i as int) =~= member_names(all));
                    BareSpecifierGuard::ExceptPatterns(names)
                },
                _ => BareSpecifierGuard::Unrestricted,
            }
        },
    }
}

/// What the package's tsconfig, if it has one, leaves to a bare specifier. One that cannot be
/// read leaves nothing sure.
pub fn bare_specifier_guard(files: &FileTree, tsconfig: Option<&str>) -> (r: BareSpecifierGuard)
    ensures
        r@ == guard_at(
            files@,
            match tsconfig {
                Some(p) => Some(p@),
                None => None,
            },
        ),
{
    match tsconfig {
        None => BareSpecifierGuard::Unrestricted,
        Some(p) => match read_tsconfig_jsonc(files, p) {
            Err(_) => BareSpecifierGuard::Disabled,
            Ok(j) => guard_of(&j),
        },
    }
}

/// The lists of files that a tsconfig states itself.
#[derive(Debug)]
pub struct TsconfigFields {
    pub includes: Vec<String>,
    pub exclude: Vec<String>,
    pub files: Vec<String>,
}

/// The lists of files of a tsconfig as mathematical values.
pub struct FieldsView {
    pub includes: Seq<Seq<char>>,
    pub exclude: Seq<Seq<char>>,
    pub files: Seq<Seq<char>>,
}

impl View for TsconfigFields {
    type V = FieldsView;

    open spec fn view(&self) -> FieldsView {
        FieldsView {
            includes: texts(self.includes@),
            exclude: texts(self.exclude@),
            files: texts(self.files@),
        }
    }
}

/// The strings among some values.
pub open spec fn strings_among(items: Seq<JsonTree>) -> Seq<Seq<char>>
    decreases items.len(),
{
    if items.len() == 0 {
        Seq::empty()
    } else {
        let before = strings_among(items.drop_last());
        match items.last() {
            JsonTree::Str(s) => before.push(s),
            _ => before,
        }
    }
}

/// The strings of a field that holds an array; none when it holds anything else.
pub open spec fn string_list(t: JsonTree, key: Seq<char>) -> Seq<Seq<char>> {
    match field(t, key) {
        Some(JsonTree::Array(items)) => strings_among(items),
        _ => Seq::empty(),
    }
}

/// The lists of files that a tsconfig states.
pub open spec fn fields_of(t: JsonTree) -> FieldsView {
    FieldsView {
        includes: string_list(t, "include"@),
        exclude: string_list(t, "exclude"@),
        files: string_list(t, "files"@),
    }
}

/// The strings among some values.
pub fn read_strings(items: &Vec<Json>) -> (r: Vec<String>)
    ensures
        texts(r@) == strings_among(trees(items@)),
{
    let ghost all = trees(items@);
    proof {
        lemma_trees(items@);
    }
    let mut out: Vec<String> = Vec::new();
    let mut i: usize = 0;
    assert(texts(out@) =~= strings_among(all.take(0)));
    while i < items.len()
        invariant
            i <= items.len(),
            all == trees(items@),
            all.len() == items@.len(),
            forall|k: int| 0 <= k < items@.len() ==> #[trigger] all[k] == tree(items@[k]),
            texts(out@) == strings_among(all.take(i as int)),
        decreases items.len() - i,
    {
        let ghost before = texts(out@);
        assert(all.take(i + 1).drop_last() =~= all.take(i as int));
        match &items[i] {
            Json::Str(s) => {
                out.push(s.clone());
                assert(texts(out@) =~= before.push(s@));
            },
            _ => {},
        }
        i = i + 1;
    }
    assert(all.take(i as int) =~= all);
    out
}

fn read_string_list(j: &Json, key: &str) -> (r: Vec<String>)
    ensures
        texts(r@) == string_list(tree(*j), key@),
{
    match j.get(key) {
        Some(Json::Array(items)) => read_strings(items),
        _ => {
            let none: Vec<String> = Vec::new();
            assert(texts(none@) =~= Seq::<Seq<char>>::empty());
            none
        },
    }
}

/// Reads the lists of files that the tsconfig at `path` states itself, not those of what it
/// extends.
pub fn read_tsconfig_fields(files: &FileTree, path: &str) -> (r: Result<
    TsconfigFields,
    TsconfigError,
>)
    ensures
        match r {
            Ok(f) => match tsconfig_at(files@, path@) {
                Ok(t) => f@ == fields_of(t),
                Err(_) => false,
            },
            Err(e) => tsconfig_at(files@, path@) == Err::<JsonTree, TsconfigFailure>(e@),
        },
{
    match read_tsconfig_jsonc(files, path) {
        Err(e) => Err(e),
        Ok(j) => Ok(
            TsconfigFields {
                includes: read_string_list(&j, "include"),
                exclude: read_string_list(&j, "exclude"),
                files: read_string_list(&j, "files"),
            },
        ),
    }
}

/// What comes before the first wildcard of a pattern.
pub open spec fn literal_prefix(pattern: Seq<char>) -> Seq<char>
    decreases pattern.len(),
{
    if pattern.len() == 0 || pattern[0] == '*' || pattern[0] == '?' {
        Seq::empty()
    } else {
        seq![pattern[0]] + literal_prefix(pattern.drop_first())
    }
}

/// Whether a step of a pattern holds a wildcard.
pub open spec fn is_wild(step: Seq<char>) -> bool {
    step.contains('*') || step.contains('?')
}

/// Whether some steps of a pattern, `depth` names below a directory, may lead out of it: a `..`
/// takes back a name that is not there, or comes after a wildcard.
pub open spec fn climbs_out(steps: Seq<Seq<char>>, depth: nat, wild: bool) -> bool
    decreases steps.len(),
{
    if steps.len() == 0 {
        false
    } else if steps[0] == ".."@ {
        wild || depth == 0 || climbs_out(steps.drop_first(), (depth - 1) as nat, wild)
    } else if steps[0].len() == 0 || steps[0] == "."@ {
        climbs_out(steps.drop_first(), depth, wild)
    } else {
        climbs_out(steps.drop_first(), depth + 1, wild || is_wild(steps[0]))
    }
}

/// The steps of a pattern after its first `n` characters.
pub open spec fn steps_after(pattern: Seq<char>, n: int) -> Seq<Seq<char>> {
    split_on(slashed(pattern.skip(n)), '/')
}

/// Whether all that a pattern can match lies in the directory `pkg_rel`: it is the directory,
/// or the text before its first wildcard names the directory up to its `/`, and it never leads
/// out from there.
pub open spec fn confined(pattern: Seq<char>, pkg_rel: Seq<char>) -> bool {
    let dir = trim_end_char(pkg_rel, '/');
    let prefix = literal_prefix(pattern);
    dir.len() == 0 || (prefix == dir && pattern == dir || (dir + "/"@).is_prefix_of(prefix))
        && !climbs_out(steps_after(pattern, dir.len() as int), 0, false)
}

fn leads_out(steps: &Vec<String>) -> (r: bool)
    ensures
        r == climbs_out(texts(steps@), 0, false),
{
    let ghost all = texts(steps@);
    let mut depth: usize = 0;
    let mut wild = false;
    let mut i: usize = 0;
    assert(all.skip(0) =~= all);
    while i < steps.len()
        invariant
            i <= steps.len(),
            depth <= i,
            all == texts(steps@),
            climbs_out(all.skip(i as int), depth as nat, wild) == climbs_out(all, 0, false),
        decreases steps.len() - i,
    {
        let step = steps[i].as_str();
        proof {
            assert(all.skip(i as int)[0] == step@);
            assert(all.skip(i as int).drop_first() =~= all.skip(i + 1));
            reveal_strlit("");
            assert(step@.len() == 0 ==> step@ =~= ""@);
        }
        if same(step, "..") {
            if wild || depth == 0 {
                return true;
            }
            depth = depth - 1;
        } else if !same(step, "") && !same(step, ".") {
            wild = wild || split_once(step, '*').is_some() || split_once(step, '?').is_some();
            depth = depth + 1;
        }
        i = i + 1;
    }
    false
}

/// What comes before the first wildcard of a pattern.
fn read_literal_prefix(pattern: &str) -> (r: String)
    ensures
        r@ == literal_prefix(pattern@),
{
    let v = to_chars(pattern);
    let mut i: usize = 0;
    assert(v@.skip(0) =~= pattern@);
    assert(v@.take(0) + literal_prefix(v@.skip(0)) =~= literal_prefix(pattern@));
    while i < v.len() && v[i] != '*' && v[i] != '?'
        invariant
            i <= v.len(),
            v@.take(i as int) + literal_prefix(v@.skip(i as int)) == literal_prefix(pattern@),
        decreases v.len() - i,
    {
        proof {
            let t = v@.skip(i as int);
            assert(t.drop_first() =~= v@.skip(i + 1));
            assert(v@.take(i as int) + (seq![t[0]] + literal_prefix(t.drop_first())) =~= v@.take(
                i + 1,
            ) + literal_prefix(v@.skip(i + 1)));
        }
        i = i + 1;
    }
    let r = from_range(&v, 0, i);
    proof {
        assert(literal_prefix(v@.skip(i as int)) =~= Seq::<char>::empty());
        assert(r@ =~= v@.take(i as int) + literal_prefix(v@.skip(i as int)));
    }
    r
}

/// Whether all that a pattern can match lies in the directory `pkg_rel`, told by its text.
pub fn pattern_confined_to_pkg(pattern: &str, pkg_rel: &str) -> (r: bool)
    ensures
        r == confined(pattern@, pkg_rel@),
{
    let dir = trim_end(pkg_rel, '/');
    let n = to_chars(dir.as_str()).len();
    if n == 0 {
        return true;
    }
    let prefix = read_literal_prefix(pattern);
    let is_dir = same(prefix.as_str(), dir.as_str()) && same(pattern, dir.as_str());
    let mut inside = dir;
    inside.append("/");
    if !is_dir && !starts_with(prefix.as_str(), inside.as_str()) {
        return false;
    }
    proof {
        reveal_strlit("/");
        lemma_literal_prefix(pattern@);
    }
    let v = to_chars(pattern);
    let rest = from_range(&v, n, v.len());
    assert(rest@ =~= pattern@.skip(n as int));
    !leads_out(&split(with_slashes(rest.as_str()).as_str(), '/'))
}

/// What comes before the first wildcard is where the pattern starts.
proof fn lemma_literal_prefix(pattern: Seq<char>)
    ensures
        literal_prefix(pattern).is_prefix_of(pattern),
    decreases pattern.len(),
{
    if pattern.len() > 0 && pattern[0] != '*' && pattern[0] != '?' {
        lemma_literal_prefix(pattern.drop_first());
        let rest = literal_prefix(pattern.drop_first());
        assert(pattern.drop_first().subrange(0, rest.len() as int) == rest);
        assert(pattern.subrange(0, (rest.len() + 1) as int) =~= seq![pattern[0]] + rest);
    }
}

/// What a confined pattern matches is the package's directory or lies below it: a match starts
/// with the text before the first wildcard, and is the whole pattern where there is none.
pub proof fn matches_of_a_confined_pattern_lie_in_the_package(
    pattern: Seq<char>,
    pkg_rel: Seq<char>,
    path: Seq<char>,
)
    requires
        trim_end_char(pkg_rel, '/').len() > 0,
        confined(pattern, pkg_rel),
        literal_prefix(pattern).is_prefix_of(path),
        literal_prefix(pattern) == pattern ==> path == pattern,
    ensures
        path == trim_end_char(pkg_rel, '/') || (trim_end_char(pkg_rel, '/') + "/"@).is_prefix_of(
            path,
        ),
{
    let inside = trim_end_char(pkg_rel, '/') + "/"@;
    let prefix = literal_prefix(pattern);
    if inside.is_prefix_of(prefix) {
        assert(path.subrange(0, inside.len() as int) =~= prefix.subrange(0, inside.len() as int));
    }
}

/// Steps that are not empty.
pub open spec fn named_steps(steps: Seq<Seq<char>>) -> Seq<Seq<char>>
    decreases steps.len(),
{
    if steps.len() == 0 {
        Seq::empty()
    } else if steps[0].len() == 0 {
        named_steps(steps.drop_first())
    } else {
        seq![steps[0]] + named_steps(steps.drop_first())
    }
}

/// With every `..` worked out, the steps of a confined pattern below the package's directory
/// never lead out of it.
pub proof fn confined_patterns_never_climb_out(pattern: Seq<char>, pkg_rel: Seq<char>)
    requires
        trim_end_char(pkg_rel, '/').len() > 0,
        confined(pattern, pkg_rel),
    ensures
        !settled(
            named_steps(steps_after(pattern, trim_end_char(pkg_rel, '/').len() as int)),
        ).contains(".."@),
{
    let text = slashed(pattern.skip(trim_end_char(pkg_rel, '/').len() as int));
    let steps = split_on(text, '/');
    lemma_split_apart(text, '/');
    lemma_climb(steps, Seq::empty(), false);
    assert(Seq::<Seq<char>>::empty() + named_steps(steps) =~= named_steps(steps));
}

proof fn lemma_split_apart(s: Seq<char>, c: char)
    ensures
        forall|i: int| 0 <= i < split_on(s, c).len() ==> !(#[trigger] split_on(s, c)[i]).contains(c),
    decreases s.len(),
{
    lemma_find_char(s, c);
    let n = find_char(s, c);
    if 0 <= n < s.len() {
        let rest = split_on(s.skip(n + 1), c);
        lemma_split_apart(s.skip(n + 1), c);
        assert forall|i: int| 0 <= i < split_on(s, c).len() implies !(#[trigger] split_on(
            s,
            c,
        )[i]).contains(c) by {
            if i > 0 {
                assert(split_on(s, c)[i] == rest[i - 1]);
            }
        }
    }
}

proof fn lemma_climb(steps: Seq<Seq<char>>, done: Seq<Seq<char>>, wild: bool)
    requires
        !climbs_out(steps, settled(done).len(), wild),
        forall|i: int| 0 <= i < steps.len() ==> !(#[trigger] steps[i]).contains('/'),
        forall|i: int|
            0 <= i < settled(done).len() ==> #[trigger] settled(done)[i] != ".."@ && settled(
                done,
            )[i] != "/"@,
    ensures
        !settled(done + named_steps(steps)).contains(".."@),
    decreases steps.len(),
{
    reveal_strlit("/");
    reveal_strlit("..");
    reveal_strlit(".");
    if steps.len() == 0 {
        assert(done + named_steps(steps) =~= done);
    } else {
        let rest = steps.drop_first();
        let first = steps[0];
        assert forall|i: int| 0 <= i < rest.len() implies !(#[trigger] rest[i]).contains('/') by {
            assert(rest[i] == steps[i + 1]);
        }
        if first.len() == 0 {
            lemma_climb(rest, done, wild);
        } else {
            let now = done.push(first);
            assert(now.drop_last() =~= done);
            assert(done + named_steps(steps) =~= now + named_steps(rest));
            assert(first != "/"@) by {
                if first == "/"@ {
                    assert(first[0] == '/');
                }
            }
            lemma_climb(
                rest,
                now,
                wild || (first != ".."@ && first != "."@ && is_wild(first)),
            );
        }
    }
}

/// The first of some patterns that reaches out of the directory `pkg_rel`.
pub open spec fn first_unconfined(list: Seq<Seq<char>>, pkg_rel: Seq<char>) -> Option<Seq<char>>
    decreases list.len(),
{
    if list.len() == 0 {
        None
    } else if !confined(list[0], pkg_rel) {
        Some(list[0])
    } else {
        first_unconfined(list.drop_first(), pkg_rel)
    }
}

fn find_unconfined(list: &Vec<String>, pkg_rel: &str) -> (r: Option<String>)
    ensures
        match r {
            Some(p) => first_unconfined(texts(list@), pkg_rel@) == Some(p@),
            None => first_unconfined(texts(list@), pkg_rel@) is None,
        },
{
    let ghost all = texts(list@);
    let mut i: usize = 0;
    assert(all.skip(0) =~= all);
    while i < list.len()
        invariant
            i <= list.len(),
            all == texts(list@),
            first_unconfined(all.skip(i as int), pkg_rel@) == first_unconfined(all, pkg_rel@),
        decreases list.len() - i,
    {
        assert(all.skip(i as int)[0] == list@[i as int]@);
        assert(all.skip(i as int).drop_first() =~= all.skip(i + 1));
        if !pattern_confined_to_pkg(list[i].as_str(), pkg_rel) {
            return Some(list[i].clone());
        }
        i = i + 1;
    }
    None
}

/// Why a tsconfig cannot be trusted to cover only the package in `pkg_dir`. The package's own
/// always can; a shared one must state the files that it covers, and each entry must be
/// confined to the package.
pub open spec fn scope_failure(
    tsconfig_path: Seq<char>,
    tsconfig_dir: Seq<char>,
    pkg_dir: Seq<char>,
    fields: FieldsView,
) -> Option<TsconfigFailure> {
    let pkg_rel = slashed(relative(pkg_dir, tsconfig_dir));
    if same_path(tsconfig_dir, pkg_dir) {
        None
    } else if fields.includes.len() == 0 && fields.files.len() == 0 {
        Some(TsconfigFailure::Unscoped(tsconfig_path, pkg_rel))
    } else {
        match first_unconfined(fields.includes + fields.files, pkg_rel) {
            Some(entry) => Some(TsconfigFailure::NotConfined(tsconfig_path, entry, pkg_rel)),
            None => None,
        }
    }
}

/// Looking in one list and then in another is looking in both.
proof fn lemma_unconfined_both(a: Seq<Seq<char>>, b: Seq<Seq<char>>, pkg_rel: Seq<char>)
    ensures
        first_unconfined(a + b, pkg_rel) == (match first_unconfined(a, pkg_rel) {
            Some(p) => Some(p),
            None => first_unconfined(b, pkg_rel),
        }),
    decreases a.len(),
{
    if a.len() == 0 {
        assert(a + b =~= b);
    } else {
        assert((a + b)[0] == a[0]);
        assert((a + b).drop_first() =~= a.drop_first() + b);
        lemma_unconfined_both(a.drop_first(), b, pkg_rel);
    }
}

/// Checks that the tsconfig found for the package in `pkg_dir` covers no other package.
pub fn check_tsconfig_scope(
    tsconfig_path: &str,
    tsconfig_dir: &str,
    pkg_dir: &str,
    fields: &TsconfigFields,
) -> (r: Result<(), TsconfigError>)
    ensures
        match r {
            Ok(_) => scope_failure(tsconfig_path@, tsconfig_dir@, pkg_dir@, fields@) is None,
            Err(e) => scope_failure(tsconfig_path@, tsconfig_dir@, pkg_dir@, fields@) == Some(e@),
        },
{
    if names_same(tsconfig_dir, pkg_dir) {
        return Ok(());
    }
    let pkg_rel = with_slashes(relative_to(pkg_dir, tsconfig_dir).as_str());
    if fields.includes.len() == 0 && fields.files.len() == 0 {
        return Err(
            TsconfigError::Unscoped { tsconfig: tsconfig_path.to_owned(), pkg: pkg_rel },
        );
    }
    proof {
        lemma_unconfined_both(texts(fields.includes@), texts(fields.files@), pkg_rel@);
        assert(texts(fields.includes@).len() == fields.includes@.len());
        assert(texts(fields.files@).len() == fields.files@.len());
    }
    let found = match find_unconfined(&fields.includes, pkg_rel.as_str()) {
        Some(entry) => Some(entry),
        None => find_unconfined(&fields.files, pkg_rel.as_str()),
    };
    match found {
        Some(entry) => Err(
            TsconfigError::NotConfined {
                tsconfig: tsconfig_path.to_owned(),
                entry,
                pkg: pkg_rel,
            },
        ),
        None => Ok(()),
    }
}

/// The first of some patterns that is no glob.
pub open spec fn first_invalid(list: Seq<Seq<char>>) -> Option<Seq<char>>
    decreases list.len(),
{
    if list.len() == 0 {
        None
    } else if !usable_glob(list[0]) {
        Some(list[0])
    } else {
        first_invalid(list.drop_first())
    }
}

/// Whether one of some globs matches a path.
pub open spec fn some_matches(list: Seq<Seq<char>>, path: Seq<char>) -> bool {
    exists|i: int| 0 <= i < list.len() && #[trigger] glob_matches(list[i], path)
}

/// The first of some patterns that is no glob.
pub fn find_invalid_glob(list: &Vec<String>) -> (r: Option<String>)
    ensures
        match r {
            Some(p) => first_invalid(texts(list@)) == Some(p@),
            None => first_invalid(texts(list@)) is None && forall|i: int|
                0 <= i < list@.len() ==> usable_glob(#[trigger] texts(list@)[i]),
        },
{
    let ghost all = texts(list@);
    let mut i: usize = 0;
    assert(all.skip(0) =~= all);
    while i < list.len()
        invariant
            i <= list.len(),
            all == texts(list@),
            first_invalid(all.skip(i as int)) == first_invalid(all),
            forall|k: int| 0 <= k < i ==> usable_glob(#[trigger] all[k]),
        decreases list.len() - i,
    {
        assert(all.skip(i as int)[0] == list@[i as int]@);
        assert(all.skip(i as int).drop_first() =~= all.skip(i + 1));
        if !is_safe_glob(list[i].as_str()) || !is_glob(list[i].as_str()) {
            return Some(list[i].clone());
        }
        i = i + 1;
    }
    None
}

/// Whether one of some globs matches a path.
pub(crate) fn any_matches(list: &Vec<String>, path: &str) -> (r: bool)
    requires
        forall|i: int| 0 <= i < list@.len() ==> usable_glob(#[trigger] texts(list@)[i]),
    ensures
        r == some_matches(texts(list@), path@),
{
    let ghost all = texts(list@);
    let mut i: usize = 0;
    while i < list.len()
        invariant
            i <= list.len(),
            all == texts(list@),
            all.len() == list@.len(),
            forall|k: int| 0 <= k < list@.len() ==> usable_glob(#[trigger] all[k]),
            forall|k: int| 0 <= k < i ==> !#[trigger] glob_matches(all[k], path@),
        decreases list.len() - i,
    {
        assert(all[i as int] == list@[i as int]@);
        if matches_glob(list[i].as_str(), path) {
            assert(glob_matches(all[i as int], path@));
            return true;
        }
        i = i + 1;
    }
    false
}

/// Whether a tsconfig in `dir` with the given lists covers a file: it is listed, or it is not
/// excluded and matches an `include` (or there is neither `include` nor `files`).
pub open spec fn covers(f: Seq<char>, dir: Seq<char>, fields: FieldsView) -> bool {
    let rel = relative(f, dir);
    ||| exists|i: int|
        0 <= i < fields.files.len() && #[trigger] same_path(under(dir, fields.files[i]), f)
    ||| (fields.includes.len() == 0 && fields.files.len() == 0 || some_matches(fields.includes, rel))
        && !some_matches(fields.exclude, rel)
}

/// The files of a list that a tsconfig covers, in order.
pub open spec fn covered(list: Seq<Seq<char>>, dir: Seq<char>, fields: FieldsView) -> Seq<Seq<char>>
    decreases list.len(),
{
    if list.len() == 0 {
        Seq::empty()
    } else {
        let before = covered(list.drop_last(), dir, fields);
        if covers(list.last(), dir, fields) {
            before.push(list.last())
        } else {
            before
        }
    }
}

/// The pattern for which the lists of a tsconfig cannot be used.
pub open spec fn glob_failure(fields: FieldsView) -> Option<TsconfigFailure> {
    match first_invalid(fields.includes) {
        Some(p) => Some(TsconfigFailure::InvalidGlob("tsconfig include"@, p)),
        None => match first_invalid(fields.exclude) {
            Some(p) => Some(TsconfigFailure::InvalidGlob("tsconfig exclude"@, p)),
            None => None,
        },
    }
}

fn is_listed(f: &str, dir: &str, list: &Vec<String>) -> (r: bool)
    ensures
        r == (exists|i: int|
            0 <= i < texts(list@).len() && #[trigger] same_path(
                under(dir@, texts(list@)[i]),
                f@,
            )),
{
    let ghost all = texts(list@);
    let mut i: usize = 0;
    while i < list.len()
        invariant
            i <= list.len(),
            all == texts(list@),
            all.len() == list@.len(),
            forall|k: int| 0 <= k < i ==> !#[trigger] same_path(under(dir@, all[k]), f@),
        decreases list.len() - i,
    {
        assert(all[i as int] == list@[i as int]@);
        if names_same(join_path(dir, list[i].as_str()).as_str(), f) {
            assert(same_path(under(dir@, all[i as int]), f@));
            return true;
        }
        i = i + 1;
    }
    false
}

/// Keeps of `files` those that a tsconfig in `tsconfig_dir` with the given lists covers.
pub fn filter_by_tsconfig_fields(
    files: Vec<String>,
    tsconfig_dir: &str,
    fields: &TsconfigFields,
) -> (r: Result<Vec<String>, TsconfigError>)
    ensures
        match r {
            Ok(kept) => glob_failure(fields@) is None && texts(kept@) == covered(
                texts(files@),
                tsconfig_dir@,
                fields@,
            ),
            Err(e) => glob_failure(fields@) == Some(e@),
        },
{
    match find_invalid_glob(&fields.includes) {
        Some(pattern) => {
            return Err(
                TsconfigError::InvalidGlob { field: "tsconfig include".to_owned(), pattern },
            );
        },
        None => {},
    }
    match find_invalid_glob(&fields.exclude) {
        Some(pattern) => {
            return Err(
                TsconfigError::InvalidGlob { field: "tsconfig exclude".to_owned(), pattern },
            );
        },
        None => {},
    }
    let open = fields.includes.len() == 0 && fields.files.len() == 0;
    let ghost all = texts(files@);
    let mut kept: Vec<String> = Vec::new();
    let mut i: usize = 0;
    assert(texts(kept@) =~= covered(all.take(0), tsconfig_dir@, fields@));
    while i < files.len()
        invariant
            i <= files.len(),
            all == texts(files@),
            open == (fields@.includes.len() == 0 && fields@.files.len() == 0),
            forall|k: int|
                0 <= k < fields.includes@.len() ==> usable_glob(
                    #[trigger] texts(fields.includes@)[k],
                ),
            forall|k: int|
                0 <= k < fields.exclude@.len() ==> usable_glob(
                    #[trigger] texts(fields.exclude@)[k],
                ),
            texts(kept@) == covered(all.take(i as int), tsconfig_dir@, fields@),
        decreases files.len() - i,
    {
        let f = &files[i];
        let ghost before = texts(kept@);
        proof {
            assert(all.take(i + 1).drop_last() =~= all.take(i as int));
            assert(all[i as int] == f@);
        }
        let keep = if is_listed(f.as_str(), tsconfig_dir, &fields.files) {
            true
        } else {
            let rel = relative_to(f.as_str(), tsconfig_dir);
            (open || any_matches(&fields.includes, rel.as_str())) && !any_matches(
                &fields.exclude,
                rel.as_str(),
            )
        };
        proof {
            assert(fields@.files == texts(fields.files@));
            assert(keep == covers(f@, tsconfig_dir@, fields@));
        }
        if keep {
            kept.push(f.clone());
            assert(texts(kept@) =~= before.push(f@));
        }
        i = i + 1;
    }
    assert(all.take(i as int) =~= all);
    Ok(kept)
}

/// A file that a tsconfig lists is covered, whatever the tsconfig excludes.
pub proof fn listed_files_are_never_excluded(
    f: Seq<char>,
    dir: Seq<char>,
    fields: FieldsView,
    i: int,
)
    requires
        0 <= i < fields.files.len(),
        same_path(under(dir, fields.files[i]), f),
    ensures
        covers(f, dir, fields),
{
}

/// A tsconfig that states no files covers everything.
pub proof fn without_lists_everything_is_covered(
    list: Seq<Seq<char>>,
    dir: Seq<char>,
    fields: FieldsView,
)
    requires
        fields.includes.len() == 0,
        fields.files.len() == 0,
        fields.exclude.len() == 0,
    ensures
        covered(list, dir, fields) == list,
    decreases list.len(),
{
    if list.len() > 0 {
        without_lists_everything_is_covered(list.drop_last(), dir, fields);
        assert(covers(list.last(), dir, fields));
        assert(list.drop_last().push(list.last()) =~= list);
    }
}

/// What a tsconfig covers of a list are those of its files that it covers, no others, and
/// keeping them once more changes nothing.
pub proof fn keeping_covered_files_again_changes_nothing(
    list: Seq<Seq<char>>,
    dir: Seq<char>,
    fields: FieldsView,
)
    ensures
        forall|f: Seq<char>| #[trigger]
            covered(list, dir, fields).contains(f) <==> list.contains(f) && covers(f, dir, fields),
        covered(covered(list, dir, fields), dir, fields) == covered(list, dir, fields),
    decreases list.len(),
{
    let kept = covered(list, dir, fields);
    if list.len() > 0 {
        let rest = list.drop_last();
        let before = covered(rest, dir, fields);
        keeping_covered_files_again_changes_nothing(rest, dir, fields);
        assert(list =~= rest.push(list.last()));
        assert forall|f: Seq<char>| list.contains(f) <==> rest.contains(f) || f == list.last() by {
            if rest.contains(f) {
                let i = choose|i: int| 0 <= i < rest.len() && rest[i] == f;
                assert(list[i] == f);
            }
            assert(list[list.len() - 1] == list.last());
            if list.contains(f) {
                let i = choose|i: int| 0 <= i < list.len() && list[i] == f;
                if i < rest.len() {
                    assert(rest[i] == f);
                }
            }
        }
        if covers(list.last(), dir, fields) {
            assert(kept.drop_last() =~= before);
            assert forall|f: Seq<char>| kept.contains(f) <==> before.contains(f) || f
                == list.last() by {
                if before.contains(f) {
                    let i = choose|i: int| 0 <= i < before.len() && before[i] == f;
                    assert(kept[i] == f);
                }
                assert(kept[before.len() as int] == list.last());
                if kept.contains(f) {
                    let i = choose|i: int| 0 <= i < kept.len() && kept[i] == f;
                    if i < before.len() {
                        assert(before[i] == f);
                    }
                }
            }
        }
    }
}

/// A package's own tsconfig is trusted, whatever it states.
pub proof fn the_own_tsconfig_is_trusted(
    tsconfig_path: Seq<char>,
    tsconfig_dir: Seq<char>,
    pkg_dir: Seq<char>,
    fields: FieldsView,
)
    requires
        same_path(tsconfig_dir, pkg_dir),
    ensures
        scope_failure(tsconfig_path, tsconfig_dir, pkg_dir, fields) is None,
{
}

/// A shared tsconfig is trusted just when it states the files that it covers and all that it
/// states is confined to the package.
pub proof fn a_shared_tsconfig_is_trusted_when_confined(
    tsconfig_path: Seq<char>,
    tsconfig_dir: Seq<char>,
    pkg_dir: Seq<char>,
    fields: FieldsView,
)
    requires
        !same_path(tsconfig_dir, pkg_dir),
    ensures
        scope_failure(tsconfig_path, tsconfig_dir, pkg_dir, fields) is None <==> {
            let entries = fields.includes + fields.files;
            entries.len() > 0 && forall|i: int|
                0 <= i < entries.len() ==> confined(
                    #[trigger] entries[i],
                    slashed(relative(pkg_dir, tsconfig_dir)),
                )
        },
{
    lemma_first_unconfined(
        fields.includes + fields.files,
        slashed(relative(pkg_dir, tsconfig_dir)),
    );
}

proof fn lemma_first_unconfined(list: Seq<Seq<char>>, pkg_rel: Seq<char>)
    ensures
        first_unconfined(list, pkg_rel) is None <==> forall|i: int|
            0 <= i < list.len() ==> confined(#[trigger] list[i], pkg_rel),
    decreases list.len(),
{
    if list.len() > 0 {
        let rest = list.drop_first();
        lemma_first_unconfined(rest, pkg_rel);
        assert forall|i: int| 0 <= i < rest.len() implies rest[i] == #[trigger] list[i + 1] by {}
        if confined(list[0], pkg_rel) {
            if first_unconfined(rest, pkg_rel) is None {
                assert forall|i: int| 0 <= i < list.len() implies confined(
                    #[trigger] list[i],
                    pkg_rel,
                ) by {
                    if i > 0 {
                        assert(confined(rest[i - 1], pkg_rel));
                    }
                }
            } else {
                let i = choose|i: int| 0 <= i < rest.len() && !confined(#[trigger] rest[i], pkg_rel);
                assert(!confined(list[i + 1], pkg_rel));
            }
        }
    }
}

} // verus!
