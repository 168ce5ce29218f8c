//! The chain of tsconfig files that a tsconfig extends.
use crate::json::{field, lemma_trees, tree, trees, Json, JsonTree};
use crate::nearest::{find_first_file, first_file, next_up, step_up};
use crate::path::{
    extended, join_path, key_of_path, lemma_parent, lies_within, parent, parent_of, path_key, under,
    with_extension, within,
};
use crate::sorted::StrSet;
use crate::text::{texts, to_chars};
use crate::tree::{canonical_at, FileTree, FilesView};
use crate::tsconfig::{read_tsconfig_jsonc, tsconfig_at, TsconfigError, TsconfigFailure};
use vstd::prelude::*;

verus! {

/// The canonical path of the file at `p`, which has to lie in the workspace.
pub open spec fn canonical_in(fs: FilesView, root: Seq<char>, p: Seq<char>) -> Result<
    Seq<char>,
    TsconfigFailure,
> {
    match canonical_at(fs, p) {
        None => Err(TsconfigFailure::Unreadable(p)),
        Some(c) => if within(c, root) {
            Ok(c)
        } else {
            Err(TsconfigFailure::OutsideWorkspace(c, root))
        },
    }
}

/// Where a relative or absolute `extends` may lead: the path as given, then with `.json` after
/// it.
pub open spec fn relative_bases(dir: Seq<char>, s: Seq<char>) -> Seq<Seq<char>> {
    seq![under(dir, s), under(dir, s) + ".json"@]
}

/// Where an `extends` that names a package may lead in the `node_modules` of a directory.
pub open spec fn package_bases(dir: Seq<char>, s: Seq<char>) -> Seq<Seq<char>> {
    let base = under(under(dir, "node_modules"@), s);
    seq![base, extended(base, "json"@), under(base, "tsconfig.json"@)]
}

/// The tsconfig that a package name leads to: in the `node_modules` of `dir`, or else in that
/// of the nearest directory above it up to `root`.
pub open spec fn package_base(
    fs: FilesView,
    root: Seq<char>,
    dir: Seq<char>,
    s: Seq<char>,
) -> Option<Seq<char>>
    decreases dir.len(),
    via package_base_climbs
{
    match first_file(fs, package_bases(dir, s)) {
        Some(p) => Some(p),
        None => match next_up(root, dir) {
            Some(q) => package_base(fs, root, q, s),
            None => None,
        },
    }
}

#[via_fn]
proof fn package_base_climbs(fs: FilesView, root: Seq<char>, dir: Seq<char>, s: Seq<char>) {
    lemma_parent(dir);
}

/// The file that an `extends` in a tsconfig of the directory `dir` names.
pub open spec fn extends_target(
    fs: FilesView,
    root: Seq<char>,
    dir: Seq<char>,
    s: Seq<char>,
) -> Result<Seq<char>, TsconfigFailure> {
    if s.len() > 0 && (s[0] == '.' || s[0] == '/') {
        match first_file(fs, relative_bases(dir, s)) {
            Some(p) => canonical_in(fs, root, p),
            None => Err(TsconfigFailure::ExtendsNotFound(s, dir)),
        }
    } else {
        match package_base(fs, root, dir, s) {
            Some(p) => canonical_in(fs, root, p),
            None => Err(TsconfigFailure::ExtendsUnresolved(s, dir, root)),
        }
    }
}

/// The canonical path of the file at `path`, which has to lie in the workspace.
fn canonicalize_within(files: &FileTree, root: &str, path: &str) -> (r: Result<
    String,
    TsconfigError,
>)
    ensures
        match r {
            Ok(c) => canonical_in(files@, root@, path@) == Ok::<Seq<char>, TsconfigFailure>(c@),
            Err(e) => canonical_in(files@, root@, path@) == Err::<Seq<char>, TsconfigFailure>(e@),
        },
{
    match files.canonical_path(path) {
        None => Err(TsconfigError::Unreadable { path: path.to_owned() }),
        Some(c) => if lies_within(c.as_str(), root) {
            Ok(c)
        } else {
            Err(TsconfigError::OutsideWorkspace { path: c, root: root.to_owned() })
        },
    }
}

fn find_package_base(files: &FileTree, root: &str, dir: &str, specifier: &str) -> (r: Option<
    String,
>)
    ensures
        match r {
            Some(p) => package_base(files@, root@, dir@, specifier@) == Some(p@),
            None => package_base(files@, root@, dir@, specifier@) is None,
        },
    decreases dir@.len(),
{
    let base = join_path(join_path(dir, "node_modules").as_str(), specifier);
    let mut list: Vec<String> = Vec::new();
    list.push(base.clone());
    list.push(with_extension(base.as_str(), "json"));
    list.push(join_path(base.as_str(), "tsconfig.json"));
    assert(texts(list@) =~= package_bases(dir@, specifier@));
    match find_first_file(files, &list) {
        Some(p) => Some(p),
        None => match step_up(root, dir) {
            Some(q) => find_package_base(files, root, q.as_str(), specifier),
            None => None,
        },
    }
}

/// The file that an `extends` in a tsconfig of the directory `from_dir` names: a path from
/// there, or a package in the `node_modules` of that directory or of one above it.
pub fn resolve_extends_specifier(
    files: &FileTree,
    canonical_workspace_root: &str,
    from_dir: &str,
    specifier: &str,
) -> (r: Result<String, TsconfigError>)
    ensures
        match r {
            Ok(p) => extends_target(files@, canonical_workspace_root@, from_dir@, specifier@) == Ok::<
                Seq<char>,
                TsconfigFailure,
            >(p@),
            Err(e) => extends_target(files@, canonical_workspace_root@, from_dir@, specifier@)
                == Err::<Seq<char>, TsconfigFailure>(e@),
        },
{
    let root = canonical_workspace_root;
    let v = to_chars(specifier);
    if v.len() > 0 && (v[0] == '.' || v[0] == '/') {
        let given = join_path(from_dir, specifier);
        let mut longer = given.clone();
        longer.append(".json");
        let mut list: Vec<String> = Vec::new();
        list.push(given);
        list.push(longer);
        assert(texts(list@) =~= relative_bases(from_dir@, specifier@));
        match find_first_file(files, &list) {
            Some(p) => canonicalize_within(files, root, p.as_str()),
            None => Err(
                TsconfigError::ExtendsNotFound {
                    specifier: specifier.to_owned(),
                    from: from_dir.to_owned(),
                },
            ),
        }
    } else {
        match find_package_base(files, root, from_dir, specifier) {
            Some(p) => canonicalize_within(files, root, p.as_str()),
            None => Err(
                TsconfigError::ExtendsUnresolved {
                    specifier: specifier.to_owned(),
                    from: from_dir.to_owned(),
                    root: root.to_owned(),
                },
            ),
        }
    }
}

/// What a chain has come to: the files on the way that it has followed and all that it has
/// seen, by their keys, and those that it lists.
pub struct ChainView {
    pub way: Set<Seq<char>>,
    pub seen: Set<Seq<char>>,
    pub list: Seq<Seq<char>>,
}

/// A chain with one more file, which is listed unless the chain has seen it.
pub open spec fn with_base(c: ChainView, p: Seq<char>) -> ChainView {
    if c.seen.contains(path_key(p)) {
        c
    } else {
        ChainView { seen: c.seen.insert(path_key(p)), list: c.list.push(p), ..c }
    }
}

/// The chain after the further entries of an `extends` list: each that it has not seen is
/// listed.
pub open spec fn further_bases(
    fs: FilesView,
    root: Seq<char>,
    dir: Seq<char>,
    items: Seq<JsonTree>,
    c: ChainView,
) -> Result<ChainView, TsconfigFailure>
    decreases items.len(),
{
    if items.len() == 0 {
        Ok(c)
    } else {
        match items[0] {
            JsonTree::Str(s) => match extends_target(fs, root, dir, s) {
                Err(e) => Err(e),
                Ok(p) => further_bases(fs, root, dir, items.drop_first(), with_base(c, p)),
            },
            _ => further_bases(fs, root, dir, items.drop_first(), c),
        }
    }
}

/// The directory of a tsconfig.
pub open spec fn dir_of(p: Seq<char>) -> Seq<char> {
    match parent_of(p) {
        Some(d) => d,
        None => p,
    }
}

/// The chain from the tsconfig `current` on. An `extends` text is followed; of a list every
/// entry is listed and the first is followed, after the others. It ends at a tsconfig that
/// extends nothing, and fails where it comes back to a file on the way that it has followed;
/// a file that it has only listed may still be followed. There are no more than `left` files
/// to come.
pub open spec fn chain_from(
    fs: FilesView,
    root: Seq<char>,
    leaf: Seq<char>,
    current: Seq<char>,
    c: ChainView,
    left: nat,
) -> Result<Seq<Seq<char>>, TsconfigFailure>
    decreases left, 1int,
{
    match tsconfig_at(fs, current) {
        Err(e) => Err(e),
        Ok(t) => match field(t, "extends"@) {
            Some(JsonTree::Str(s)) => follow(fs, root, leaf, current, s, c, left),
            Some(JsonTree::Array(items)) => if items.len() == 0 {
                Ok(c.list)
            } else {
                match further_bases(fs, root, dir_of(current), items.drop_first(), c) {
                    Err(e) => Err(e),
                    Ok(d) => match items[0] {
                        JsonTree::Str(s) => follow(fs, root, leaf, current, s, d, left),
                        _ => Ok(d.list),
                    },
                }
            },
            _ => Ok(c.list),
        },
    }
}

/// The chain from what `current` extends by the text `s` on.
pub open spec fn follow(
    fs: FilesView,
    root: Seq<char>,
    leaf: Seq<char>,
    current: Seq<char>,
    s: Seq<char>,
    c: ChainView,
    left: nat,
) -> Result<Seq<Seq<char>>, TsconfigFailure>
    decreases left, 0int,
{
    match extends_target(fs, root, dir_of(current), s) {
        Err(e) => Err(e),
        Ok(p) => if c.way.contains(path_key(p)) || left == 0 {
            Err(TsconfigFailure::Cycle(leaf))
        } else {
            chain_from(
                fs,
                root,
                leaf,
                p,
                ChainView { way: c.way.insert(path_key(p)), ..with_base(c, p) },
                (left - 1) as nat,
            )
        },
    }
}

/// The keys of the leaf of a chain, if it is a file.
pub open spec fn leaf_keys(fs: FilesView, leaf: Seq<char>) -> Set<Seq<char>> {
    match canonical_at(fs, leaf) {
        Some(c) => Set::empty().insert(path_key(c)),
        None => Set::empty(),
    }
}

/// What a chain has come to before it starts: the way starts at the leaf, if it is a file.
pub open spec fn chain_start(fs: FilesView, leaf: Seq<char>) -> ChainView {
    ChainView { way: leaf_keys(fs, leaf), seen: leaf_keys(fs, leaf), list: Seq::empty() }
}

/// The tsconfig files that `leaf` extends, nearest first. A chain has no more links than there
/// are files.
pub open spec fn extends_chain(fs: FilesView, root: Seq<char>, leaf: Seq<char>) -> Result<
    Seq<Seq<char>>,
    TsconfigFailure,
> {
    chain_from(
        fs,
        root,
        leaf,
        leaf,
        chain_start(fs, leaf),
        fs.files.dom().len(),
    )
}

fn push_further(
    files: &FileTree,
    root: &str,
    dir: &str,
    items: &Vec<Json>,
    seen: &mut StrSet,
    list: &mut Vec<String>,
    way: Ghost<Set<Seq<char>>>,
) -> (r: Result<(), TsconfigError>)
    requires
        items@.len() > 0,
    ensures
        ({
            let c = ChainView { way: way@, seen: old(seen)@, list: texts(old(list)@) };
            let done = further_bases(files@, root@, dir@, trees(items@).drop_first(), c);
            match r {
                Ok(_) => done == Ok::<ChainView, TsconfigFailure>(
                    ChainView { way: way@, seen: final(seen)@, list: texts(final(list)@) },
                ),
                Err(e) => done == Err::<ChainView, TsconfigFailure>(e@),
            }
        }),
{
    let ghost all = trees(items@);
    let ghost c0 = ChainView { way: way@, seen: seen@, list: texts(list@) };
    proof {
        lemma_trees(items@);
        assert(all.skip(1) =~= all.drop_first());
    }
    let mut i: usize = 1;
    while i < items.len()
        invariant
            1 <= i <= items.len(),
            c0 == (ChainView { way: way@, seen: old(seen)@, list: texts(old(list)@) }),
            all == trees(items@),
            all.len() == items@.len(),
            forall|k: int| 0 <= k < items@.len() ==> #[trigger] all[k] == tree(items@[k]),
            further_bases(
                files@,
                root@,
                dir@,
                all.skip(i as int),
                ChainView { way: way@, seen: seen@, list: texts(list@) },
            ) == further_bases(files@, root@, dir@, all.drop_first(), c0),
        decreases items.len() - i,
    {
        let ghost before = texts(list@);
        let ghost passed = seen@;
        proof {
            assert(all.skip(i as int)[0] == tree(items@[i as int]));
            assert(all.skip(i as int).drop_first() =~= all.skip(i + 1));
        }
        match &items[i] {
            Json::Str(s) => {
                let p = match resolve_extends_specifier(files, root, dir, s.as_str()) {
                    Ok(p) => p,
                    Err(e) => {
                        return Err(e);
                    },
                };
                let key = key_of_path(p.as_str());
                if seen.insert(key) {
                    let ghost x = p@;
                    list.push(p);
                    assert(texts(list@) =~= before.push(x));
                } else {
                    assert(seen@ =~= passed);
                }
            },
            _ => {},
        }
        i = i + 1;
    }
    assert(all.skip(i as int) =~= Seq::<JsonTree>::empty());
    Ok(())
}

/// The chain that goes on from the tsconfig `current`.
fn walk_chain(
    files: &FileTree,
    root: &str,
    leaf: &str,
    current: &str,
    way: StrSet,
    seen: StrSet,
    list: Vec<String>,
    left: usize,
) -> (r: Result<Vec<String>, TsconfigError>)
    ensures
        ({
            let done = chain_from(
                files@,
                root@,
                leaf@,
                current@,
                ChainView { way: way@, seen: seen@, list: texts(list@) },
                left as nat,
            );
            match r {
                Ok(v) => done == Ok::<Seq<Seq<char>>, TsconfigFailure>(texts(v@)),
                Err(e) => done == Err::<Seq<Seq<char>>, TsconfigFailure>(e@),
            }
        }),
    decreases left,
{
    let mut way = way;
    let mut seen = seen;
    let mut list = list;
    let j = match read_tsconfig_jsonc(files, current) {
        Ok(j) => j,
        Err(e) => {
            return Err(e);
        },
    };
    let dir = match parent(current) {
        Some(d) => d,
        None => current.to_owned(),
    };
    let specifier = match j.get("extends") {
        Some(Json::Str(s)) => s,
        Some(Json::Array(items)) => {
            proof {
                lemma_trees(items@);
            }
            if items.len() == 0 {
                return Ok(list);
            }
            match push_further(
                files,
                root,
                dir.as_str(),
                items,
                &mut seen,
                &mut list,
                Ghost(way@),
            ) {
                Ok(_) => {},
                Err(e) => {
                    return Err(e);
                },
            }
            match &items[0] {
                Json::Str(s) => s,
                _ => {
                    return Ok(list);
                },
            }
        },
        _ => {
            return Ok(list);
        },
    };
    let p = match resolve_extends_specifier(files, root, dir.as_str(), specifier.as_str()) {
        Ok(p) => p,
        Err(e) => {
            return Err(e);
        },
    };
    let key = key_of_path(p.as_str());
    if way.contains(key.as_str()) || left == 0 {
        return Err(TsconfigError::Cycle { leaf: leaf.to_owned() });
    }
    let ghost before = texts(list@);
    let ghost passed = seen@;
    let next = p.clone();
    if seen.insert(key.clone()) {
        list.push(p);
        assert(texts(list@) =~= before.push(next@));
    } else {
        assert(seen@ =~= passed);
    }
    let added = way.insert(key);
    walk_chain(files, root, leaf, next.as_str(), way, seen, list, left - 1)
}

/// The tsconfig files that `leaf` extends, nearest first, `leaf` itself left out. Each has to
/// be found, to lie in the workspace and to be readable; a chain that comes back on itself is
/// an error, while a file that is reached in two ways is listed once.
pub fn resolve_tsconfig_extends_chain(
    files: &FileTree,
    canonical_workspace_root: &str,
    leaf: &str,
) -> (r: Result<Vec<String>, TsconfigError>)
    ensures
        match r {
            Ok(v) => extends_chain(files@, canonical_workspace_root@, leaf@) == Ok::<
                Seq<Seq<char>>,
                TsconfigFailure,
            >(texts(v@)),
            Err(e) => extends_chain(files@, canonical_workspace_root@, leaf@) == Err::<
                Seq<Seq<char>>,
                TsconfigFailure,
            >(e@),
        },
{
    let mut way = StrSet::new();
    let mut seen = StrSet::new();
    match files.canonical_path(leaf) {
        Some(c) => {
            let key = key_of_path(c.as_str());
            let first = way.insert(key.clone());
            let added = seen.insert(key);
        },
        None => {},
    }
    let list: Vec<String> = Vec::new();
    proof {
        assert(texts(list@) =~= Seq::<Seq<char>>::empty());
    }
    files.facts();
    walk_chain(files, canonical_workspace_root, leaf, leaf, way, seen, list, files.len())
}

} // verus!
