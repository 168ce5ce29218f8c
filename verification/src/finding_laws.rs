//! Which files a package owns, which of them are tests, and which configuration files are
//! nearest to it.
use crate::json::{field, json_document};
use crate::nearest::{all_under, first_file, nearest, nearest_manifest_with};
use crate::path::{name_extension, parent_of, relative, same_path, slashed, under, within};
use crate::placement_laws::finite_sets_are_listed;
use crate::sort_laws::sorting_keeps_every_text;
use crate::sorted::listing;
use crate::sources::{
    is_source_name, is_source_of, matching, owned, package_sources, sources_among, texts_sorted,
};
use crate::text::{lemma_find_char, lemma_find_char_is, lemma_find_last_char_is};
use crate::tree::{dir_prefix, file_at, location, text_at, FilesView};
use crate::tsconfig::{first_invalid, glob_matches, some_matches, usable_glob};
use vstd::prelude::*;
use vstd::seq_lib::group_to_multiset_ensures;

verus! {

proof fn lemma_extension(stem: Seq<char>, ext: Seq<char>)
    requires
        stem.len() > 0,
        !ext.contains('.'),
    ensures
        name_extension(stem + "."@ + ext) == Some(ext),
{
    reveal_strlit(".");
    let name = stem + "."@ + ext;
    let n = stem.len() as int;
    assert(name[n] == '.');
    assert forall|j: int| n < j < name.len() implies name[j] != '.' by {
        assert(name[j] == ext[j - n - 1]);
        assert(ext.contains(ext[j - n - 1]));
    }
    lemma_find_last_char_is(name, '.', n);
    assert(name.skip(n + 1) =~= ext);
}

/// A file is a source file just when its extension is that of JavaScript or TypeScript, with or
/// without JSX.
pub proof fn sources_have_the_extension_of_a_language(stem: Seq<char>, ext: Seq<char>)
    requires
        stem.len() > 0,
        !ext.contains('.'),
    ensures
        is_source_name(stem + "."@ + ext) <==> ext == "js"@ || ext == "jsx"@ || ext == "ts"@ || ext
            == "tsx"@,
{
    lemma_extension(stem, ext);
}

/// A file in the package's own directory is its own just when it is a source file.
pub proof fn files_of_the_package_are_its_own(fs: FilesView, base: Seq<char>, name: Seq<char>)
    requires
        !name.contains('/'),
    ensures
        owned(fs, base, name) <==> is_source_name(name),
{
    lemma_find_char(name, '/');
}

/// A file in a directory below is the package's own just when it is that of the directory, the
/// directory has no manifest of its own, and it is neither `node_modules` nor hidden.
pub proof fn files_below_are_its_own_unless_another_package_begins(
    fs: FilesView,
    base: Seq<char>,
    dir: Seq<char>,
    rest: Seq<char>,
)
    requires
        !dir.contains('/'),
    ensures
        owned(fs, base, dir + "/"@ + rest) <==> {
            &&& dir != "node_modules"@
            &&& !(dir.len() > 0 && dir[0] == '.')
            &&& !(fs.files.dom().contains(base + dir + "/package.json"@) && fs.files[base + dir
                + "/package.json"@].plain)
            &&& owned(fs, base + dir + "/"@, rest)
        },
{
    reveal_strlit("/");
    reveal_strlit("package.json");
    reveal_strlit("/package.json");
    let rel = dir + "/"@ + rest;
    let n = dir.len() as int;
    assert forall|j: int| 0 <= j < n implies rel[j] != '/' by {
        assert(rel[j] == dir[j]);
        assert(dir.contains(dir[j]));
    }
    assert(rel[n] == '/');
    lemma_find_char_is(rel, '/', n);
    assert(rel.take(n) =~= dir);
    assert(rel.skip(n + 1) =~= rest);
    assert(base + rel.take(n + 1) =~= base + dir + "/"@);
    assert(base + dir + "/"@ + "package.json"@ =~= base + dir + "/package.json"@);
}

proof fn lemma_sources_among(
    fs: FilesView,
    dir: Seq<char>,
    paths: Seq<Seq<char>>,
    s: Seq<char>,
)
    ensures
        sources_among(fs, dir, paths).contains(s) <==> exists|i: int|
            0 <= i < paths.len() && is_source_of(
                fs,
                dir_prefix(location(fs, dir)),
                #[trigger] paths[i],
            ) && s == under(dir, paths[i].skip(dir_prefix(location(fs, dir)).len() as int)),
    decreases paths.len(),
{
    if paths.len() > 0 {
        let base = dir_prefix(location(fs, dir));
        let rest = paths.drop_last();
        let before = sources_among(fs, dir, rest);
        let now = sources_among(fs, dir, paths);
        lemma_sources_among(fs, dir, rest, s);
        if before.contains(s) {
            let k = choose|k: int| 0 <= k < before.len() && before[k] == s;
            assert(now[k] == s);
            let i = choose|i: int|
                0 <= i < rest.len() && is_source_of(fs, base, #[trigger] rest[i]) && s == under(
                    dir,
                    rest[i].skip(base.len() as int),
                );
            assert(paths[i] == rest[i]);
        }
        assert(paths[paths.len() - 1] == paths.last());
        if now.len() > before.len() {
            assert(now[before.len() as int] == under(dir, paths.last().skip(base.len() as int)));
        }
        if now.contains(s) && !before.contains(s) {
            let k = choose|k: int| 0 <= k < now.len() && now[k] == s;
            if k < before.len() {
                assert(before[k] == s);
            }
        }
        if exists|i: int|
            0 <= i < paths.len() && is_source_of(fs, base, #[trigger] paths[i]) && s == under(
                dir,
                paths[i].skip(base.len() as int),
            ) {
            let i = choose|i: int|
                0 <= i < paths.len() && is_source_of(fs, base, #[trigger] paths[i]) && s == under(
                    dir,
                    paths[i].skip(base.len() as int),
                );
            if i < rest.len() {
                assert(rest[i] == paths[i]);
            }
        }
    }
}

/// The sources of a package are exactly the files below its directory that are its own and that
/// are reached without a symlink. The package of the root has the root for its directory.
pub proof fn a_package_has_all_of_its_sources(
    fs: FilesView,
    root: Seq<char>,
    pkg: Seq<char>,
    dir: Seq<char>,
    s: Seq<char>,
)
    requires
        fs.files.dom().finite(),
        pkg.len() == 0 ==> dir == root,
        pkg.len() > 0 ==> dir == under(root, pkg),
    ensures
        package_sources(fs, root, pkg).contains(s) <==> exists|rel: Seq<char>|
            s == under(dir, rel) && fs.files.dom().contains(dir_prefix(location(fs, dir)) + rel)
                && fs.files[dir_prefix(location(fs, dir)) + rel].plain && #[trigger] owned(
                fs,
                dir_prefix(location(fs, dir)),
                rel,
            ),
{
    let base = dir_prefix(location(fs, dir));
    let paths = listing(fs.files.dom());
    finite_sets_are_listed(fs.files.dom());
    lemma_sources_among(fs, dir, paths, s);
    if package_sources(fs, root, pkg).contains(s) {
        let i = choose|i: int|
            0 <= i < paths.len() && is_source_of(fs, base, #[trigger] paths[i]) && s == under(
                dir,
                paths[i].skip(base.len() as int),
            );
        let rel = paths[i].skip(base.len() as int);
        assert(paths[i].subrange(0, base.len() as int) == base);
        assert(base + rel =~= paths[i]);
        assert(owned(fs, base, rel));
    }
    if exists|rel: Seq<char>|
        s == under(dir, rel) && fs.files.dom().contains(base + rel) && fs.files[base + rel].plain
            && #[trigger] owned(fs, base, rel) {
        let rel = choose|rel: Seq<char>|
            s == under(dir, rel) && fs.files.dom().contains(base + rel) && fs.files[base
                + rel].plain && #[trigger] owned(fs, base, rel);
        assert(paths.to_set().contains(base + rel));
        let i = choose|i: int| 0 <= i < paths.len() && paths[i] == base + rel;
        assert(paths[i].skip(base.len() as int) =~= rel);
        assert(base.is_prefix_of(paths[i])) by {
            assert(paths[i].subrange(0, base.len() as int) =~= base);
        }
    }
}

proof fn lemma_matching(
    list: Seq<Seq<char>>,
    root: Seq<char>,
    dir: Seq<char>,
    patterns: Seq<Seq<char>>,
    s: Seq<char>,
)
    ensures
        matching(list, root, dir, patterns).contains(s) <==> exists|i: int|
            0 <= i < list.len() && some_matches(patterns, relative(#[trigger] list[i], dir)) && s
                == slashed(relative(list[i], root)),
    decreases list.len(),
{
    if list.len() > 0 {
        let rest = list.drop_last();
        let before = matching(rest, root, dir, patterns);
        let now = matching(list, root, dir, patterns);
        lemma_matching(rest, root, dir, patterns, s);
        if before.contains(s) {
            let k = choose|k: int| 0 <= k < before.len() && before[k] == s;
            assert(now[k] == s);
            let i = choose|i: int|
                0 <= i < rest.len() && some_matches(patterns, relative(#[trigger] rest[i], dir))
                    && s == slashed(relative(rest[i], root));
            assert(list[i] == rest[i]);
        }
        assert(list[list.len() - 1] == list.last());
        if now.len() > before.len() {
            assert(now[before.len() as int] == slashed(relative(list.last(), root)));
        }
        if now.contains(s) && !before.contains(s) {
            let k = choose|k: int| 0 <= k < now.len() && now[k] == s;
            if k < before.len() {
                assert(before[k] == s);
            }
        }
        if exists|i: int|
            0 <= i < list.len() && some_matches(patterns, relative(#[trigger] list[i], dir)) && s
                == slashed(relative(list[i], root)) {
            let i = choose|i: int|
                0 <= i < list.len() && some_matches(patterns, relative(#[trigger] list[i], dir))
                    && s == slashed(relative(list[i], root));
            if i < rest.len() {
                assert(rest[i] == list[i]);
            }
        }
    }
}

/// The tests of a package are exactly those of its sources that one of the patterns matches, seen
/// from the package's directory. They are told as they are seen from the workspace root.
pub proof fn tests_are_the_sources_that_a_pattern_matches(
    sources: Seq<Seq<char>>,
    root: Seq<char>,
    dir: Seq<char>,
    patterns: Seq<Seq<char>>,
    s: Seq<char>,
)
    ensures
        texts_sorted(matching(sources, root, dir, patterns)).contains(s) <==> exists|i: int, j: int|
            0 <= i < sources.len() && 0 <= j < patterns.len() && #[trigger] glob_matches(
                patterns[j],
                relative(#[trigger] sources[i], dir),
            ) && s == slashed(relative(sources[i], root)),
{
    broadcast use group_to_multiset_ensures;

    let list = matching(sources, root, dir, patterns);
    let sorted = texts_sorted(list);
    sorting_keeps_every_text(list);
    lemma_matching(sources, root, dir, patterns, s);
    assert(sorted.contains(s) <==> sorted.to_multiset().count(s) > 0);
    assert(list.contains(s) <==> list.to_multiset().count(s) > 0);
    if list.contains(s) {
        let i = choose|i: int|
            0 <= i < sources.len() && some_matches(patterns, relative(#[trigger] sources[i], dir))
                && s == slashed(relative(sources[i], root));
        let j = choose|j: int|
            0 <= j < patterns.len() && #[trigger] glob_matches(
                patterns[j],
                relative(sources[i], dir),
            );
        assert(glob_matches(patterns[j], relative(sources[i], dir)));
    }
    if exists|i: int, j: int|
        0 <= i < sources.len() && 0 <= j < patterns.len() && #[trigger] glob_matches(
            patterns[j],
            relative(#[trigger] sources[i], dir),
        ) && s == slashed(relative(sources[i], root)) {
        let (i, j) = choose|i: int, j: int|
            0 <= i < sources.len() && 0 <= j < patterns.len() && #[trigger] glob_matches(
                patterns[j],
                relative(#[trigger] sources[i], dir),
            ) && s == slashed(relative(sources[i], root));
        assert(some_matches(patterns, relative(sources[i], dir)));
    }
}

/// A pattern that cannot be used is told, the first of them, and none is told where all can.
pub proof fn the_first_unusable_pattern_is_told(list: Seq<Seq<char>>)
    ensures
        first_invalid(list) is None <==> forall|i: int|
            0 <= i < list.len() ==> usable_glob(#[trigger] list[i]),
        first_invalid(list) matches Some(p) ==> exists|i: int|
            0 <= i < list.len() && #[trigger] list[i] == p && !usable_glob(p) && forall|j: int|
                0 <= j < i ==> usable_glob(#[trigger] list[j]),
    decreases list.len(),
{
    if list.len() > 0 {
        let rest = list.drop_first();
        the_first_unusable_pattern_is_told(rest);
        if usable_glob(list[0]) {
            assert forall|i: int| 0 < i < list.len() implies list[i] == rest[i - 1] by {}
            if let Some(p) = first_invalid(rest) {
                let i = choose|i: int|
                    0 <= i < rest.len() && #[trigger] rest[i] == p && !usable_glob(p) && forall|
                        j: int,
                    |
                        0 <= j < i ==> usable_glob(#[trigger] rest[j]);
                assert(list[i + 1] == p);
                assert forall|j: int| 0 <= j < i + 1 implies usable_glob(#[trigger] list[j]) by {
                    if j > 0 {
                        assert(rest[j - 1] == list[j]);
                    }
                }
            } else {
                assert forall|i: int| 0 <= i < list.len() implies usable_glob(
                    #[trigger] list[i],
                ) by {
                    if i > 0 {
                        assert(rest[i - 1] == list[i]);
                    }
                }
            }
        } else {
            assert(list[0] == first_invalid(list)->0);
        }
    }
}

pub(crate) proof fn lemma_first_file_is(fs: FilesView, list: Seq<Seq<char>>, i: int)
    requires
        0 <= i < list.len(),
        file_at(fs, list[i]) is Some,
        forall|j: int| 0 <= j < i ==> file_at(fs, #[trigger] list[j]) is None,
    ensures
        first_file(fs, list) == Some(list[i]),
    decreases list.len(),
{
    if i > 0 {
        let rest = list.drop_first();
        assert(file_at(fs, list[0]) is None);
        assert(rest[i - 1] == list[i]);
        assert forall|j: int| 0 <= j < i - 1 implies file_at(fs, #[trigger] rest[j]) is None by {
            assert(rest[j] == list[j + 1]);
        }
        lemma_first_file_is(fs, rest, i - 1);
    }
}

pub(crate) proof fn lemma_no_first_file(fs: FilesView, list: Seq<Seq<char>>)
    requires
        forall|j: int| 0 <= j < list.len() ==> file_at(fs, #[trigger] list[j]) is None,
    ensures
        first_file(fs, list) is None,
    decreases list.len(),
{
    if list.len() > 0 {
        let rest = list.drop_first();
        assert(file_at(fs, list[0]) is None);
        assert forall|j: int| 0 <= j < rest.len() implies file_at(fs, #[trigger] rest[j]) is None by {
            assert(rest[j] == list[j + 1]);
        }
        lemma_no_first_file(fs, rest);
    }
}

/// Of the candidates in a directory the first that is there is the nearest.
pub proof fn the_first_candidate_in_a_directory_wins(
    fs: FilesView,
    root: Seq<char>,
    dir: Seq<char>,
    names: Seq<Seq<char>>,
    i: int,
)
    requires
        0 <= i < names.len(),
        file_at(fs, under(dir, names[i])) is Some,
        forall|j: int| 0 <= j < i ==> file_at(fs, under(dir, #[trigger] names[j])) is None,
    ensures
        nearest(fs, root, dir, names) == Some(under(dir, names[i])),
{
    let list = all_under(dir, names);
    assert forall|j: int| 0 <= j < i implies file_at(fs, #[trigger] list[j]) is None by {
        assert(list[j] == under(dir, names[j]));
    }
    lemma_first_file_is(fs, list, i);
}

/// Where a directory has none of the candidates, the nearest is that of the directory above it,
/// as long as that lies in the workspace; at the root the search ends.
pub proof fn the_search_goes_up_to_the_root(
    fs: FilesView,
    root: Seq<char>,
    dir: Seq<char>,
    names: Seq<Seq<char>>,
)
    requires
        forall|j: int| 0 <= j < names.len() ==> file_at(fs, under(dir, #[trigger] names[j])) is None,
    ensures
        !same_path(dir, root) && (parent_of(dir) matches Some(q) && within(q, root)) ==> nearest(
            fs,
            root,
            dir,
            names,
        ) == nearest(fs, root, parent_of(dir)->0, names),
        same_path(dir, root) ==> nearest(fs, root, dir, names) is None,
        (parent_of(dir) matches Some(q) ==> !within(q, root)) ==> nearest(fs, root, dir, names) is None,
{
    let list = all_under(dir, names);
    assert forall|j: int| 0 <= j < list.len() implies file_at(fs, #[trigger] list[j]) is None by {
        assert(list[j] == under(dir, names[j]));
    }
    lemma_no_first_file(fs, list);
}

/// The nearest manifest with a field is that of the directory itself where it has the field, and
/// else that of the directory above it, up to the root.
pub proof fn the_nearest_manifest_with_a_field_wins(
    fs: FilesView,
    root: Seq<char>,
    dir: Seq<char>,
    name: Seq<char>,
)
    ensures
        ({
            let here = text_at(fs, under(dir, "package.json"@)) matches Some(text) && (
            json_document(text) matches Some(t) && field(t, name) is Some);
            &&& here ==> nearest_manifest_with(fs, root, dir, name) == Some(
                under(dir, "package.json"@),
            )
            &&& !here && !same_path(dir, root) && (parent_of(dir) matches Some(q) && within(
                q,
                root,
            )) ==> nearest_manifest_with(fs, root, dir, name) == nearest_manifest_with(
                fs,
                root,
                parent_of(dir)->0,
                name,
            )
            &&& !here && same_path(dir, root) ==> nearest_manifest_with(fs, root, dir, name) is None
        }),
{
}

} // verus!
