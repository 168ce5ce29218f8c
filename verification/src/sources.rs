//! The source files that a package owns, and the test files among them.
use crate::path::{
    join_path, relative, relative_to, slashed, under, with_slashes, name_extension,
    extension_of,
};
use crate::sorted::{before, listing, rank, Rank};
use crate::text::{find_char, find_from, from_range, same, starts_with, texts, to_chars};
use crate::tree::{as_prefix, dir_prefix, is_directory, location, FileTree, FilesView};
use crate::tsconfig::{
    any_matches, find_invalid_glob, first_invalid, some_matches, usable_glob,
};
use crate::{is_skipped_dir_name, skipped_dir, PACKAGE_JSON};
use vstd::prelude::*;

verus! {

/// Whether a file name has one of the extensions of a source file.
pub open spec fn is_source_name(name: Seq<char>) -> bool {
    match name_extension(name) {
        Some(e) => e == "js"@ || e == "jsx"@ || e == "ts"@ || e == "tsx"@,
        None => false,
    }
}

/// Whether a file name has one of the extensions of a source file.
pub fn has_source_extension(name: &str) -> (r: bool)
    ensures
        r == is_source_name(name@),
{
    match extension_of(name) {
        Some(e) => same(e.as_str(), "js") || same(e.as_str(), "jsx") || same(e.as_str(), "ts")
            || same(e.as_str(), "tsx"),
        None => false,
    }
}

/// Whether there is a file at `p` that no symlink leads to.
pub open spec fn is_plain_file(fs: FilesView, p: Seq<char>) -> bool {
    fs.files.dom().contains(p) && fs.files[p].plain
}

/// Whether the file `rel` below the directory with the prefix `base` is a source file of the
/// package there: no directory on the way is skipped or starts a package of its own.
pub open spec fn owned(fs: FilesView, base: Seq<char>, rel: Seq<char>) -> bool
    decreases rel.len(),
{
    let i = find_char(rel, '/');
    if 0 <= i < rel.len() {
        let inner = base + rel.take(i + 1);
        !skipped_dir(rel.take(i)) && !is_plain_file(fs, inner + PACKAGE_JSON@) && owned(
            fs,
            inner,
            rel.skip(i + 1),
        )
    } else {
        is_source_name(rel)
    }
}

/// Whether the file at `f` is a source file of the package in the directory with the prefix
/// `base`.
pub open spec fn is_source_of(fs: FilesView, base: Seq<char>, f: Seq<char>) -> bool {
    is_plain_file(fs, f) && base.is_prefix_of(f) && owned(fs, base, f.skip(base.len() as int))
}

/// The source files among some paths of the package in `dir`, each as it is reached from
/// there.
pub open spec fn sources_among(
    fs: FilesView,
    dir: Seq<char>,
    paths: Seq<Seq<char>>,
) -> Seq<Seq<char>>
    decreases paths.len(),
{
    if paths.len() == 0 {
        Seq::empty()
    } else {
        let so_far = sources_among(fs, dir, paths.drop_last());
        let base = dir_prefix(location(fs, dir));
        if is_source_of(fs, base, paths.last()) {
            so_far.push(under(dir, paths.last().skip(base.len() as int)))
        } else {
            so_far
        }
    }
}

/// The directory of the package `pkg`.
pub open spec fn package_dir(root: Seq<char>, pkg: Seq<char>) -> Seq<char> {
    if pkg.len() == 0 {
        root
    } else {
        under(root, pkg)
    }
}

/// The source files of the package `pkg`, in the order of their paths.
pub open spec fn package_sources(fs: FilesView, root: Seq<char>, pkg: Seq<char>) -> Seq<Seq<char>> {
    sources_among(fs, package_dir(root, pkg), listing(fs.files.dom()))
}

/// The directory of the package `pkg`.
pub fn dir_of_package(root: &str, pkg: &str) -> (r: String)
    ensures
        r@ == package_dir(root@, pkg@),
{
    if to_chars(pkg).len() == 0 {
        root.to_owned()
    } else {
        join_path(root, pkg)
    }
}

fn is_owned(files: &FileTree, base: &str, rel: &str) -> (r: bool)
    ensures
        r == owned(files@, base@, rel@),
    decreases rel@.len(),
{
    let v = to_chars(rel);
    assert(v@.skip(0) =~= v@);
    let i = find_from(&v, '/', 0);
    if i < v.len() {
        let name = from_range(&v, 0, i);
        let step = from_range(&v, 0, i + 1);
        let rest = from_range(&v, i + 1, v.len());
        proof {
            assert(name@ =~= rel@.take(i as int));
            assert(step@ =~= rel@.take(i + 1));
            assert(rest@ =~= rel@.skip(i + 1));
        }
        if is_skipped_dir_name(name.as_str()) {
            return false;
        }
        let mut inner = base.to_owned();
        inner.append(step.as_str());
        let mut manifest = inner.clone();
        manifest.append(PACKAGE_JSON);
        let nested = match files.entry(manifest.as_str()) {
            Some(e) => e.plain,
            None => false,
        };
        if nested {
            return false;
        }
        is_owned(files, inner.as_str(), rest.as_str())
    } else {
        has_source_extension(rel)
    }
}

/// Adds the source files of the package in `dir`, the directories with a manifest of their own
/// left out.
pub fn collect_source_files(files: &FileTree, dir: &str) -> (r: Vec<String>)
    ensures
        texts(r@) == sources_among(files@, dir@, listing(files@.files.dom())),
{
    let base = as_prefix(files.locate(dir).as_str());
    let base_len = to_chars(base.as_str()).len();
    files.facts();
    let ghost paths = files.paths();
    let mut out: Vec<String> = Vec::new();
    let mut i: usize = 0;
    assert(texts(out@) =~= sources_among(files@, dir@, paths.take(0)));
    while i < files.len()
        invariant
            i <= paths.len(),
            paths == files.paths(),
            paths == listing(files@.files.dom()),
            base@ == dir_prefix(location(files@, dir@)),
            base_len == base@.len(),
            texts(out@) == sources_among(files@, dir@, paths.take(i as int)),
        decreases paths.len() - i,
    {
        let f = files.path_at(i);
        let e = files.entry_at(i);
        let ghost so_far = texts(out@);
        proof {
            assert(paths.take(i + 1).drop_last() =~= paths.take(i as int));
            assert(paths.take(i + 1).last() == f@);
        }
        if e.plain && starts_with(f.as_str(), base.as_str()) {
            let v = to_chars(f.as_str());
            let rel = from_range(&v, base_len, v.len());
            assert(rel@ =~= f@.skip(base_len as int));
            if is_owned(files, base.as_str(), rel.as_str()) {
                let p = join_path(dir, rel.as_str());
                let ghost x = p@;
                out.push(p);
                assert(texts(out@) =~= so_far.push(x));
            }
        }
        i = i + 1;
    }
    assert(paths.take(i as int) =~= paths);
    out
}

/// A package's directory that is not there.
#[derive(Debug)]
pub struct MissingDirectory {
    pub dir: String,
}

impl MissingDirectory {
    /// What the error says.
    pub open spec fn text(&self) -> Seq<char> {
        "read_dir "@ + self.dir@
    }

    /// What the error says.
    pub fn message(&self) -> (r: String)
        ensures
            r@ == self.text(),
    {
        let mut out = "read_dir ".to_owned();
        out.append(self.dir.as_str());
        out
    }
}

/// Why the test files of a package cannot be listed.
#[derive(Debug)]
pub enum SourcesError {
    /// There is no such directory.
    NoDirectory(MissingDirectory),
    /// A pattern is no glob.
    InvalidGlob { pattern: String },
}

impl SourcesError {
    /// What the error says.
    pub open spec fn text(&self) -> Seq<char> {
        match self {
            SourcesError::NoDirectory(e) => e.text(),
            SourcesError::InvalidGlob { pattern } => "invalid js_test test_glob "@ + pattern@,
        }
    }

    /// What the error says.
    pub fn message(&self) -> (r: String)
        ensures
            r@ == self.text(),
    {
        match self {
            SourcesError::NoDirectory(e) => e.message(),
            SourcesError::InvalidGlob { pattern } => {
                let mut out = "invalid js_test test_glob ".to_owned();
                out.append(pattern.as_str());
                out
            },
        }
    }
}

/// The source files that the package `pkg` owns.
pub fn package_source_files(files: &FileTree, workspace_root: &str, pkg: &str) -> (r: Result<
    Vec<String>,
    MissingDirectory,
>)
    ensures
        r is Ok <==> is_directory(files@, package_dir(workspace_root@, pkg@)),
        r matches Ok(list) ==> texts(list@) == package_sources(files@, workspace_root@, pkg@),
        r matches Err(e) ==> e.dir@ == package_dir(workspace_root@, pkg@),
{
    let dir = dir_of_package(workspace_root, pkg);
    if !files.is_dir(dir.as_str()) {
        return Err(MissingDirectory { dir });
    }
    Ok(collect_source_files(files, dir.as_str()))
}

/// A list of texts with `x` put after everything that does not come after it.
pub open spec fn text_placed(list: Seq<Seq<char>>, x: Seq<char>) -> Seq<Seq<char>>
    decreases list.len(),
{
    if list.len() == 0 || !before(x, list.last()) {
        list.push(x)
    } else {
        text_placed(list.drop_last(), x).push(list.last())
    }
}

/// Texts in order.
pub open spec fn texts_sorted(list: Seq<Seq<char>>) -> Seq<Seq<char>>
    decreases list.len(),
{
    if list.len() == 0 {
        Seq::empty()
    } else {
        text_placed(texts_sorted(list.drop_last()), list.last())
    }
}

proof fn lemma_text_placed(list: Seq<Seq<char>>, x: Seq<char>, at: int)
    requires
        0 <= at <= list.len(),
        at > 0 ==> !before(x, list[at - 1]),
        forall|k: int| at <= k < list.len() ==> before(x, #[trigger] list[k]),
    ensures
        text_placed(list, x) == list.insert(at, x),
    decreases list.len(),
{
    if at == list.len() {
        assert(list.insert(at, x) =~= list.push(x));
    } else {
        let rest = list.drop_last();
        assert(before(x, list.last()));
        assert forall|k: int| at <= k < rest.len() implies before(x, #[trigger] rest[k]) by {
            assert(rest[k] == list[k]);
        }
        lemma_text_placed(rest, x, at);
        assert(list.insert(at, x) =~= rest.insert(at, x).push(list.last()));
    }
}

/// Texts in order.
pub fn sort_texts(list: &Vec<String>) -> (r: Vec<String>)
    ensures
        texts(r@) == texts_sorted(texts(list@)),
{
    let ghost all = texts(list@);
    let mut out: Vec<String> = Vec::new();
    let mut i: usize = 0;
    assert(texts(out@) =~= texts_sorted(all.take(0)));
    while i < list.len()
        invariant
            i <= list.len(),
            all == texts(list@),
            texts(out@) == texts_sorted(all.take(i as int)),
        decreases list.len() - i,
    {
        let x = &list[i];
        let ghost so_far = texts(out@);
        proof {
            assert(all.take(i + 1).drop_last() =~= all.take(i as int));
            assert(all.take(i + 1).last() == x@);
        }
        let mut at: usize = out.len();
        let mut searching = true;
        while at > 0 && searching
            invariant
                at <= out@.len(),
                so_far == texts(out@),
                forall|k: int| at <= k < so_far.len() ==> before(x@, #[trigger] so_far[k]),
                !searching ==> at > 0 && !before(x@, so_far[at - 1]),
            decreases at, (if searching { 1nat } else { 0nat }),
        {
            assert(so_far[at - 1] == out@[at - 1]@);
            match rank(x.as_str(), out[at - 1].as_str()) {
                Rank::Before => {
                    at = at - 1;
                },
                _ => {
                    proof {
                        crate::sorted::lemma_before_irreflexive(x@);
                        if before(x@, so_far[at - 1]) && before(so_far[at - 1], x@) {
                            crate::sorted::lemma_before_transitive(x@, so_far[at - 1], x@);
                        }
                    }
                    searching = false;
                },
            }
        }
        proof {
            lemma_text_placed(so_far, x@, at as int);
        }
        out.insert(at, x.clone());
        assert(texts(out@) =~= so_far.insert(at as int, x@));
        i = i + 1;
    }
    assert(all.take(i as int) =~= all);
    out
}

/// The files of a list that match one of some globs, seen from the package's directory, each
/// as it is seen from the root.
pub open spec fn matching(
    list: Seq<Seq<char>>,
    root: Seq<char>,
    dir: Seq<char>,
    patterns: Seq<Seq<char>>,
) -> Seq<Seq<char>>
    decreases list.len(),
{
    if list.len() == 0 {
        Seq::empty()
    } else {
        let so_far = matching(list.drop_last(), root, dir, patterns);
        if some_matches(patterns, relative(list.last(), dir)) {
            so_far.push(slashed(relative(list.last(), root)))
        } else {
            so_far
        }
    }
}

/// The test files of the package `pkg`: its source files that match one of the patterns, as
/// they are seen from the root, in order.
pub fn discover_test_files(
    files: &FileTree,
    workspace_root: &str,
    pkg: &str,
    patterns: &Vec<String>,
) -> (r: Result<Vec<String>, SourcesError>)
    ensures
        match r {
            Ok(list) => first_invalid(texts(patterns@)) is None && is_directory(
                files@,
                package_dir(workspace_root@, pkg@),
            ) && texts(list@) == texts_sorted(
                matching(
                    package_sources(files@, workspace_root@, pkg@),
                    workspace_root@,
                    package_dir(workspace_root@, pkg@),
                    texts(patterns@),
                ),
            ),
            Err(SourcesError::InvalidGlob { pattern }) => first_invalid(texts(patterns@)) == Some(
                pattern@,
            ),
            Err(SourcesError::NoDirectory(e)) => first_invalid(texts(patterns@)) is None && e.dir@
                == package_dir(workspace_root@, pkg@) && !is_directory(files@, e.dir@),
        },
{
    match find_invalid_glob(patterns) {
        Some(pattern) => {
            return Err(SourcesError::InvalidGlob { pattern });
        },
        None => {},
    }
    let dir = dir_of_package(workspace_root, pkg);
    let list = match package_source_files(files, workspace_root, pkg) {
        Ok(list) => list,
        Err(e) => {
            return Err(SourcesError::NoDirectory(e));
        },
    };
    let ghost all = texts(list@);
    let mut out: Vec<String> = Vec::new();
    let mut i: usize = 0;
    assert(texts(out@) =~= matching(all.take(0), workspace_root@, dir@, texts(patterns@)));
    while i < list.len()
        invariant
            i <= list.len(),
            all == texts(list@),
            forall|k: int|
                0 <= k < patterns@.len() ==> usable_glob(#[trigger] texts(patterns@)[k]),
            texts(out@) == matching(
                all.take(i as int),
                workspace_root@,
                dir@,
                texts(patterns@),
            ),
        decreases list.len() - i,
    {
        let f = list[i].as_str();
        let ghost so_far = texts(out@);
        proof {
            assert(all.take(i + 1).drop_last() =~= all.take(i as int));
            assert(all.take(i + 1).last() == f@);
        }
        if any_matches(patterns, relative_to(f, dir.as_str()).as_str()) {
            let p = with_slashes(relative_to(f, workspace_root).as_str());
            let ghost x = p@;
            out.push(p);
            assert(texts(out@) =~= so_far.push(x));
        }
        i = i + 1;
    }
    assert(all.take(i as int) =~= all);
    Ok(sort_texts(&out))
}

} // verus!
