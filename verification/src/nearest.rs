//! Configuration files found by walking up from a package to the workspace root.
use crate::json::{field, json_document, parse_json};
use crate::path::{
    join_path, lemma_parent, lies_within, names_same, parent, parent_of, same_path, under, within,
};
use crate::text::texts;
use crate::tree::{file_at, text_at, FileTree, FilesView};
use crate::PACKAGE_JSON;
use vstd::prelude::*;

verus! {

/// The first of some paths that is a file.
pub open spec fn first_file(fs: FilesView, list: Seq<Seq<char>>) -> Option<Seq<char>>
    decreases list.len(),
{
    if list.len() == 0 {
        None
    } else if file_at(fs, list[0]) is Some {
        Some(list[0])
    } else {
        first_file(fs, list.drop_first())
    }
}

/// The first of some paths that is a file.
pub fn find_first_file(files: &FileTree, list: &Vec<String>) -> (r: Option<String>)
    ensures
        match r {
            Some(p) => first_file(files@, texts(list@)) == Some(p@),
            None => first_file(files@, texts(list@)) is None,
        },
{
    let ghost all = texts(list@);
    let mut i: usize = 0;
    assert(all.skip(0) =~= all);
    while i < list.len()
        invariant
            i <= list.len(),
            all == texts(list@),
            first_file(files@, all.skip(i as int)) == first_file(files@, all),
        decreases list.len() - i,
    {
        assert(all.skip(i as int)[0] == list@[i as int]@);
        assert(all.skip(i as int).drop_first() =~= all.skip(i + 1));
        if files.is_file(list[i].as_str()) {
            return Some(list[i].clone());
        }
        i = i + 1;
    }
    None
}

/// Some names, each taken from the directory `dir`.
pub open spec fn all_under(dir: Seq<char>, names: Seq<Seq<char>>) -> Seq<Seq<char>> {
    names.map_values(|n: Seq<char>| under(dir, n))
}

/// The directory to look in after `dir`: its parent, unless `dir` is the root or the parent
/// lies outside of it.
pub open spec fn next_up(root: Seq<char>, dir: Seq<char>) -> Option<Seq<char>> {
    if same_path(dir, root) {
        None
    } else {
        match parent_of(dir) {
            Some(q) => if within(q, root) {
                Some(q)
            } else {
                None
            },
            None => None,
        }
    }
}

/// The directory to look in after `dir`.
pub fn step_up(root: &str, dir: &str) -> (r: Option<String>)
    ensures
        match r {
            Some(q) => next_up(root@, dir@) == Some(q@) && q@.len() < dir@.len(),
            None => next_up(root@, dir@) is None,
        },
{
    if names_same(dir, root) {
        return None;
    }
    proof {
        lemma_parent(dir@);
    }
    match parent(dir) {
        Some(q) => if lies_within(q.as_str(), root) {
            Some(q)
        } else {
            None
        },
        None => None,
    }
}

/// The file that has one of `names`, the earlier the better, in `dir` or else in the nearest
/// directory above it up to `root`.
pub open spec fn nearest(
    fs: FilesView,
    root: Seq<char>,
    dir: Seq<char>,
    names: Seq<Seq<char>>,
) -> Option<Seq<char>>
    decreases dir.len(),
    via nearest_climbs
{
    match first_file(fs, all_under(dir, names)) {
        Some(p) => Some(p),
        None => match next_up(root, dir) {
            Some(q) => nearest(fs, root, q, names),
            None => None,
        },
    }
}

#[via_fn]
proof fn nearest_climbs(fs: FilesView, root: Seq<char>, dir: Seq<char>, names: Seq<Seq<char>>) {
    lemma_parent(dir);
}

/// The texts of a slice of string slices.
pub open spec fn slice_texts(names: Seq<&str>) -> Seq<Seq<char>> {
    names.map_values(|n: &str| n@)
}

/// Walks up from `pkg_dir` to `workspace_root` and gives the first file that has one of the
/// names `candidates`, tried in order in each directory.
pub fn find_nearest_file(
    files: &FileTree,
    workspace_root: &str,
    pkg_dir: &str,
    candidates: &[&str],
) -> (r: Option<String>)
    ensures
        match r {
            Some(p) => nearest(files@, workspace_root@, pkg_dir@, slice_texts(candidates@)) == Some(
                p@,
            ),
            None => nearest(files@, workspace_root@, pkg_dir@, slice_texts(candidates@)) is None,
        },
    decreases pkg_dir@.len(),
{
    let ghost names = slice_texts(candidates@);
    let mut list: Vec<String> = Vec::new();
    let mut i: usize = 0;
    while i < candidates.len()
        invariant
            i <= candidates@.len(),
            names == slice_texts(candidates@),
            texts(list@) == all_under(pkg_dir@, names.take(i as int)),
        decreases candidates@.len() - i,
    {
        let ghost before = texts(list@);
        let p = join_path(pkg_dir, candidates[i]);
        let ghost x = p@;
        list.push(p);
        proof {
            assert(names[i as int] == candidates@[i as int]@);
            assert(texts(list@) =~= before.push(x));
            assert(all_under(pkg_dir@, names.take(i + 1)) =~= all_under(
                pkg_dir@,
                names.take(i as int),
            ).push(x));
        }
        i = i + 1;
    }
    assert(names.take(i as int) =~= names);
    match find_first_file(files, &list) {
        Some(p) => Some(p),
        None => match step_up(workspace_root, pkg_dir) {
            Some(q) => find_nearest_file(files, workspace_root, q.as_str(), candidates),
            None => None,
        },
    }
}

/// The nearest `tsconfig.json`, from `pkg_dir` up to `workspace_root`.
pub fn find_nearest_tsconfig(files: &FileTree, workspace_root: &str, pkg_dir: &str) -> (r: Option<
    String,
>)
    ensures
        match r {
            Some(p) => nearest(files@, workspace_root@, pkg_dir@, seq!["tsconfig.json"@]) == Some(
                p@,
            ),
            None => nearest(files@, workspace_root@, pkg_dir@, seq!["tsconfig.json"@]) is None,
        },
{
    let names = ["tsconfig.json"];
    assert(slice_texts(names@) =~= seq!["tsconfig.json"@]);
    find_nearest_file(files, workspace_root, pkg_dir, &names)
}

/// The nearest configuration file of a test runner.
pub fn find_nearest_test_runner_config(
    files: &FileTree,
    workspace_root: &str,
    pkg_dir: &str,
    candidates: &[&str],
) -> (r: Option<String>)
    ensures
        match r {
            Some(p) => nearest(files@, workspace_root@, pkg_dir@, slice_texts(candidates@)) == Some(
                p@,
            ),
            None => nearest(files@, workspace_root@, pkg_dir@, slice_texts(candidates@)) is None,
        },
{
    find_nearest_file(files, workspace_root, pkg_dir, candidates)
}

/// The nearest configuration file of a linter.
pub fn find_nearest_lint_config(
    files: &FileTree,
    workspace_root: &str,
    pkg_dir: &str,
    candidates: &[&str],
) -> (r: Option<String>)
    ensures
        match r {
            Some(p) => nearest(files@, workspace_root@, pkg_dir@, slice_texts(candidates@)) == Some(
                p@,
            ),
            None => nearest(files@, workspace_root@, pkg_dir@, slice_texts(candidates@)) is None,
        },
{
    find_nearest_file(files, workspace_root, pkg_dir, candidates)
}

/// The nearest configuration file of a bundler.
pub fn find_nearest_bundler_config(
    files: &FileTree,
    workspace_root: &str,
    pkg_dir: &str,
    candidates: &[&str],
) -> (r: Option<String>)
    ensures
        match r {
            Some(p) => nearest(files@, workspace_root@, pkg_dir@, slice_texts(candidates@)) == Some(
                p@,
            ),
            None => nearest(files@, workspace_root@, pkg_dir@, slice_texts(candidates@)) is None,
        },
{
    find_nearest_file(files, workspace_root, pkg_dir, candidates)
}

/// Whether the `package.json` of a directory can be read and has the field `name`.
pub open spec fn manifest_has(fs: FilesView, dir: Seq<char>, name: Seq<char>) -> bool {
    match text_at(fs, under(dir, PACKAGE_JSON@)) {
        Some(text) => match json_document(text) {
            Some(t) => field(t, name) is Some,
            None => false,
        },
        None => false,
    }
}

/// The nearest `package.json` that has the field `name`, from `dir` up to `root`.
pub open spec fn nearest_manifest_with(
    fs: FilesView,
    root: Seq<char>,
    dir: Seq<char>,
    name: Seq<char>,
) -> Option<Seq<char>>
    decreases dir.len(),
    via nearest_manifest_climbs
{
    if manifest_has(fs, dir, name) {
        Some(under(dir, PACKAGE_JSON@))
    } else {
        match next_up(root, dir) {
            Some(q) => nearest_manifest_with(fs, root, q, name),
            None => None,
        }
    }
}

#[via_fn]
proof fn nearest_manifest_climbs(fs: FilesView, root: Seq<char>, dir: Seq<char>, name: Seq<char>) {
    lemma_parent(dir);
}

/// Walks up from `pkg_dir` to `workspace_root` for a `package.json` that has the field
/// `name`. One that cannot be read or is not JSON is passed over.
pub fn find_nearest_package_json_field_config(
    files: &FileTree,
    workspace_root: &str,
    pkg_dir: &str,
    name: &str,
) -> (r: Option<String>)
    ensures
        match r {
            Some(p) => nearest_manifest_with(files@, workspace_root@, pkg_dir@, name@) == Some(p@),
            None => nearest_manifest_with(files@, workspace_root@, pkg_dir@, name@) is None,
        },
    decreases pkg_dir@.len(),
{
    let candidate = join_path(pkg_dir, PACKAGE_JSON);
    let has = match files.read(candidate.as_str()) {
        Some(text) => match parse_json(text.as_str()) {
            Ok(j) => j.get(name).is_some(),
            Err(_) => false,
        },
        None => false,
    };
    if has {
        return Some(candidate);
    }
    match step_up(workspace_root, pkg_dir) {
        Some(q) => find_nearest_package_json_field_config(files, workspace_root, q.as_str(), name),
        None => None,
    }
}

/// The nearest `package.json` with a `jest` field: where jest looks when there is no
/// configuration file of its own.
pub fn find_nearest_jest_package_json_config(
    files: &FileTree,
    workspace_root: &str,
    pkg_dir: &str,
) -> (r: Option<String>)
    ensures
        match r {
            Some(p) => nearest_manifest_with(files@, workspace_root@, pkg_dir@, "jest"@) == Some(
                p@,
            ),
            None => nearest_manifest_with(files@, workspace_root@, pkg_dir@, "jest"@) is None,
        },
{
    find_nearest_package_json_field_config(files, workspace_root, pkg_dir, "jest")
}

/// A file found by walking up is a file.
pub proof fn nearest_is_a_file(
    fs: FilesView,
    root: Seq<char>,
    dir: Seq<char>,
    names: Seq<Seq<char>>,
)
    requires
        nearest(fs, root, dir, names) is Some,
    ensures
        file_at(fs, nearest(fs, root, dir, names)->0) is Some,
    decreases dir.len(),
{
    lemma_parent(dir);
    let list = all_under(dir, names);
    if first_file(fs, list) is Some {
        lemma_first_file(fs, list);
    } else {
        nearest_is_a_file(fs, root, next_up(root, dir)->0, names);
    }
}

proof fn lemma_first_file(fs: FilesView, list: Seq<Seq<char>>)
    ensures
        first_file(fs, list) matches Some(p) ==> file_at(fs, p) is Some && list.contains(p),
        first_file(fs, list) is None ==> forall|i: int|
            0 <= i < list.len() ==> file_at(fs, #[trigger] list[i]) is None,
    decreases list.len(),
{
    if list.len() > 0 {
        let rest = list.drop_first();
        lemma_first_file(fs, rest);
        if file_at(fs, list[0]) is Some {
            assert(list.contains(list[0]));
        } else if first_file(fs, list) is Some {
            let p = first_file(fs, list)->0;
            let i = choose|i: int| 0 <= i < rest.len() && rest[i] == p;
            assert(list[i + 1] == p);
        } else {
            assert forall|i: int| 0 <= i < list.len() implies file_at(fs, #[trigger] list[i]) is None by {
                if i > 0 {
                    assert(list[i] == rest[i - 1]);
                }
            }
        }
    }
}

/// A file in the package's own directory wins over every one further up.
pub proof fn own_directory_wins(
    fs: FilesView,
    root: Seq<char>,
    dir: Seq<char>,
    names: Seq<Seq<char>>,
    i: int,
)
    requires
        0 <= i < names.len(),
        file_at(fs, under(dir, names[i])) is Some,
    ensures
        nearest(fs, root, dir, names) is Some,
        all_under(dir, names).contains(nearest(fs, root, dir, names)->0),
{
    let list = all_under(dir, names);
    lemma_first_file(fs, list);
    assert(list[i] == under(dir, names[i]));
}

/// Whether a path has one of some names in a directory within the root.
pub open spec fn named_within(
    root: Seq<char>,
    names: Seq<Seq<char>>,
    p: Seq<char>,
) -> bool {
    exists|d: Seq<char>| within(d, root) && #[trigger] all_under(d, names).contains(p)
}

/// The walk up never leaves the workspace: from a package within the root only files within
/// the root are found.
pub proof fn the_walk_stays_in_the_workspace(
    fs: FilesView,
    root: Seq<char>,
    dir: Seq<char>,
    names: Seq<Seq<char>>,
)
    requires
        within(dir, root),
        nearest(fs, root, dir, names) is Some,
    ensures
        named_within(root, names, nearest(fs, root, dir, names)->0),
    decreases dir.len(),
{
    lemma_parent(dir);
    let list = all_under(dir, names);
    lemma_first_file(fs, list);
    if first_file(fs, list) is None {
        the_walk_stays_in_the_workspace(fs, root, next_up(root, dir)->0, names);
    }
}

} // verus!
