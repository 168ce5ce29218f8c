//! What holds of the chain of tsconfig files that a tsconfig extends.
use crate::extends::{
    canonical_in, chain_from, chain_start, dir_of, extends_chain, extends_target, follow,
    further_bases, with_base, ChainView,
};
use crate::json::{field, JsonTree};
use crate::path::{path_key, within};
use crate::tree::{canonical_at, location, FilesView};
use crate::tsconfig::tsconfig_at;
use vstd::prelude::*;

verus! {

/// The keys of the canonical paths of the files.
pub open spec fn canonical_keys(fs: FilesView) -> Set<Seq<char>> {
    fs.files.dom().map(|p: Seq<char>| path_key(fs.files[p].canonical))
}

/// Whether the paths of a list are told apart and lie in `root`, the chain has seen them all,
/// and `leaf` is seen but not listed.
pub open spec fn chain_holds(
    fs: FilesView,
    root: Seq<char>,
    leaf: Option<Seq<char>>,
    c: ChainView,
) -> bool {
    &&& forall|i: int|
        0 <= i < c.list.len() ==> c.seen.contains(path_key(#[trigger] c.list[i])) && within(
            c.list[i],
            root,
        )
    &&& forall|i: int, j: int|
        0 <= i < j < c.list.len() ==> path_key(#[trigger] c.list[i]) != path_key(
            #[trigger] c.list[j],
        )
    &&& leaf matches Some(k) ==> c.seen.contains(k) && forall|i: int|
        0 <= i < c.list.len() ==> path_key(#[trigger] c.list[i]) != k
}

/// What an `extends` leads to is the canonical path of a file, and lies in the workspace.
proof fn lemma_target(fs: FilesView, root: Seq<char>, dir: Seq<char>, s: Seq<char>)
    requires
        extends_target(fs, root, dir, s) is Ok,
    ensures
        within(extends_target(fs, root, dir, s)->Ok_0, root),
        canonical_keys(fs).contains(path_key(extends_target(fs, root, dir, s)->Ok_0)),
{
    let p = if s.len() > 0 && (s[0] == '.' || s[0] == '/') {
        crate::nearest::first_file(fs, crate::extends::relative_bases(dir, s))->0
    } else {
        crate::extends::package_base(fs, root, dir, s)->0
    };
    assert(canonical_in(fs, root, p) is Ok);
    let f = |q: Seq<char>| path_key(fs.files[q].canonical);
    assert(fs.files.dom().contains(location(fs, p)));
    assert(canonical_keys(fs).contains(f(location(fs, p))));
}

proof fn lemma_listed_once(
    fs: FilesView,
    root: Seq<char>,
    leaf: Option<Seq<char>>,
    c: ChainView,
    p: Seq<char>,
)
    requires
        chain_holds(fs, root, leaf, c),
        within(p, root),
        !c.seen.contains(path_key(p)),
    ensures
        chain_holds(fs, root, leaf, with_base(c, p)),
{
    let d = with_base(c, p);
    assert forall|i: int| 0 <= i < d.list.len() implies d.seen.contains(
        path_key(#[trigger] d.list[i]),
    ) && within(d.list[i], root) by {
        if i < c.list.len() {
            assert(d.list[i] == c.list[i]);
        }
    }
    assert forall|i: int, j: int| 0 <= i < j < d.list.len() implies path_key(#[trigger] d.list[i])
        != path_key(#[trigger] d.list[j]) by {
        assert(d.list[i] == c.list[i]);
        if j < c.list.len() {
            assert(d.list[j] == c.list[j]);
        }
    }
    if leaf is Some {
        assert forall|i: int| 0 <= i < d.list.len() implies path_key(#[trigger] d.list[i])
            != leaf->0 by {
            if i < c.list.len() {
                assert(d.list[i] == c.list[i]);
            }
        }
    }
}

proof fn lemma_further_holds(
    fs: FilesView,
    root: Seq<char>,
    leaf: Option<Seq<char>>,
    dir: Seq<char>,
    items: Seq<JsonTree>,
    c: ChainView,
)
    requires
        chain_holds(fs, root, leaf, c),
        c.seen.subset_of(canonical_keys(fs)),
    ensures
        further_bases(fs, root, dir, items, c) matches Ok(d) ==> chain_holds(fs, root, leaf, d)
            && d.seen.subset_of(canonical_keys(fs)) && d.way == c.way,
    decreases items.len(),
{
    if items.len() > 0 {
        match items[0] {
            JsonTree::Str(s) => {
                match extends_target(fs, root, dir, s) {
                    Err(_) => {},
                    Ok(p) => {
                        lemma_target(fs, root, dir, s);
                        if c.seen.contains(path_key(p)) {
                            lemma_further_holds(fs, root, leaf, dir, items.drop_first(), c);
                        } else {
                            lemma_listed_once(fs, root, leaf, c, p);
                            lemma_further_holds(
                                fs,
                                root,
                                leaf,
                                dir,
                                items.drop_first(),
                                with_base(c, p),
                            );
                        }
                    },
                }
            },
            _ => {
                lemma_further_holds(fs, root, leaf, dir, items.drop_first(), c);
            },
        }
    }
}

/// When the way leads through as many files as there are, the next one is on it too.
proof fn lemma_full(fs: FilesView, way: Set<Seq<char>>, key: Seq<char>)
    requires
        fs.files.dom().finite(),
        way.finite(),
        way.subset_of(canonical_keys(fs)),
        way.len() >= fs.files.dom().len(),
        canonical_keys(fs).contains(key),
    ensures
        way.contains(key),
{
    let f = |p: Seq<char>| path_key(fs.files[p].canonical);
    let all = canonical_keys(fs);
    fs.files.dom().lemma_map_finite(f);
    vstd::set_lib::lemma_map_size_bound(fs.files.dom(), all, f);
    if !way.contains(key) {
        assert(way.insert(key).subset_of(all));
        vstd::set_lib::lemma_len_subset(way.insert(key), all);
    }
}

/// The chain from a tsconfig on keeps its paths apart, and its bound is never felt.
proof fn lemma_chain(
    fs: FilesView,
    root: Seq<char>,
    leaf_path: Seq<char>,
    leaf: Option<Seq<char>>,
    current: Seq<char>,
    c: ChainView,
    left: nat,
    more: nat,
)
    requires
        fs.files.dom().finite(),
        chain_holds(fs, root, leaf, c),
        c.seen.subset_of(canonical_keys(fs)),
        c.way.finite(),
        c.way.subset_of(canonical_keys(fs)),
        c.way.len() + left >= fs.files.dom().len(),
    ensures
        chain_from(fs, root, leaf_path, current, c, left) == chain_from(
            fs,
            root,
            leaf_path,
            current,
            c,
            left + more,
        ),
        chain_from(fs, root, leaf_path, current, c, left) matches Ok(l) ==> chain_holds(
            fs,
            root,
            leaf,
            ChainView { way: canonical_keys(fs), seen: canonical_keys(fs), list: l },
        ),
    decreases left, 1int,
{
    lemma_done(fs, root, leaf, c);
    match tsconfig_at(fs, current) {
        Err(_) => {},
        Ok(t) => match field(t, "extends"@) {
            Some(JsonTree::Str(s)) => {
                lemma_follow(fs, root, leaf_path, leaf, current, s, c, left, more);
            },
            Some(JsonTree::Array(items)) => {
                if items.len() > 0 {
                    lemma_further_holds(
                        fs,
                        root,
                        leaf,
                        dir_of(current),
                        items.drop_first(),
                        c,
                    );
                    match further_bases(fs, root, dir_of(current), items.drop_first(), c) {
                        Err(_) => {},
                        Ok(d) => {
                            lemma_done(fs, root, leaf, d);
                            match items[0] {
                                JsonTree::Str(s) => {
                                    lemma_follow(
                                        fs,
                                        root,
                                        leaf_path,
                                        leaf,
                                        current,
                                        s,
                                        d,
                                        left,
                                        more,
                                    );
                                },
                                _ => {},
                            }
                        },
                    }
                }
            },
            _ => {},
        },
    }
}

proof fn lemma_done(fs: FilesView, root: Seq<char>, leaf: Option<Seq<char>>, c: ChainView)
    requires
        chain_holds(fs, root, leaf, c),
        c.seen.subset_of(canonical_keys(fs)),
    ensures
        chain_holds(fs, root, leaf, ChainView { way: canonical_keys(fs), seen: canonical_keys(fs), list: c.list }),
{
    let d = ChainView { way: canonical_keys(fs), seen: canonical_keys(fs), list: c.list };
    assert forall|i: int| 0 <= i < d.list.len() implies d.seen.contains(
        path_key(#[trigger] d.list[i]),
    ) && within(d.list[i], root) by {
        assert(c.seen.contains(path_key(c.list[i])));
    }
}

proof fn lemma_follow(
    fs: FilesView,
    root: Seq<char>,
    leaf_path: Seq<char>,
    leaf: Option<Seq<char>>,
    current: Seq<char>,
    s: Seq<char>,
    c: ChainView,
    left: nat,
    more: nat,
)
    requires
        fs.files.dom().finite(),
        chain_holds(fs, root, leaf, c),
        c.seen.subset_of(canonical_keys(fs)),
        c.way.finite(),
        c.way.subset_of(canonical_keys(fs)),
        c.way.len() + left >= fs.files.dom().len(),
    ensures
        follow(fs, root, leaf_path, current, s, c, left) == follow(
            fs,
            root,
            leaf_path,
            current,
            s,
            c,
            left + more,
        ),
        follow(fs, root, leaf_path, current, s, c, left) matches Ok(l) ==> chain_holds(
            fs,
            root,
            leaf,
            ChainView { way: canonical_keys(fs), seen: canonical_keys(fs), list: l },
        ),
    decreases left, 0int,
{
    match extends_target(fs, root, dir_of(current), s) {
        Err(_) => {},
        Ok(p) => {
            lemma_target(fs, root, dir_of(current), s);
            if c.way.contains(path_key(p)) {
            } else if left == 0 {
                lemma_full(fs, c.way, path_key(p));
            } else {
                if !c.seen.contains(path_key(p)) {
                    lemma_listed_once(fs, root, leaf, c, p);
                }
                let d = ChainView { way: c.way.insert(path_key(p)), ..with_base(c, p) };
                assert(chain_holds(fs, root, leaf, d)) by {
                    assert(chain_holds(fs, root, leaf, with_base(c, p)));
                    assert(d.list == with_base(c, p).list && d.seen == with_base(c, p).seen);
                }
                lemma_chain(fs, root, leaf_path, leaf, p, d, (left - 1) as nat, more);
                assert((left - 1) + more == (left + more) - 1);
            }
        },
    }
}

/// What a chain has passed before it starts, by its key.
pub open spec fn leaf_key(fs: FilesView, leaf: Seq<char>) -> Option<Seq<char>> {
    match canonical_at(fs, leaf) {
        Some(c) => Some(path_key(c)),
        None => None,
    }
}

proof fn lemma_start(fs: FilesView, root: Seq<char>, leaf: Seq<char>)
    ensures
        chain_holds(fs, root, leaf_key(fs, leaf), chain_start(fs, leaf)),
        chain_start(fs, leaf).way.finite(),
        chain_start(fs, leaf).way.subset_of(canonical_keys(fs)),
        chain_start(fs, leaf).seen.subset_of(canonical_keys(fs)),
{
    let f = |q: Seq<char>| path_key(fs.files[q].canonical);
    if canonical_at(fs, leaf) is Some {
        assert(fs.files.dom().contains(location(fs, leaf)));
        assert(canonical_keys(fs).contains(f(location(fs, leaf))));
    }
}

/// A chain lists no file twice and not the tsconfig that it starts from, and everything that it
/// lists lies in the workspace.
pub proof fn a_chain_lists_each_file_once(fs: FilesView, root: Seq<char>, leaf: Seq<char>)
    requires
        fs.files.dom().finite(),
    ensures
        extends_chain(fs, root, leaf) matches Ok(l) ==> {
            &&& forall|i: int, j: int|
                0 <= i < j < l.len() ==> path_key(#[trigger] l[i]) != path_key(#[trigger] l[j])
            &&& forall|i: int|
                0 <= i < l.len() ==> within(#[trigger] l[i], root) && leaf_key(fs, leaf) != Some(
                    path_key(l[i]),
                )
        },
{
    lemma_start(fs, root, leaf);
    lemma_chain(
        fs,
        root,
        leaf,
        leaf_key(fs, leaf),
        leaf,
        chain_start(fs, leaf),
        fs.files.dom().len(),
        0,
    );
    if extends_chain(fs, root, leaf) is Ok {
        let l = extends_chain(fs, root, leaf)->Ok_0;
        let d = ChainView { way: canonical_keys(fs), seen: canonical_keys(fs), list: l };
        assert(chain_holds(fs, root, leaf_key(fs, leaf), d));
        assert forall|i: int, j: int| 0 <= i < j < l.len() implies path_key(#[trigger] l[i])
            != path_key(#[trigger] l[j]) by {
            assert(path_key(d.list[i]) != path_key(d.list[j]));
        }
        assert forall|i: int| 0 <= i < l.len() implies within(#[trigger] l[i], root) && leaf_key(
            fs,
            leaf,
        ) != Some(path_key(l[i])) by {
            assert(within(d.list[i], root));
        }
    }
}

/// The bound on the number of links of a chain is never felt: with any larger bound the chain
/// is the same, so that a chain that is refused as one that comes back does come back.
pub proof fn the_bound_of_a_chain_is_never_felt(
    fs: FilesView,
    root: Seq<char>,
    leaf: Seq<char>,
    more: nat,
)
    requires
        fs.files.dom().finite(),
    ensures
        chain_from(
            fs,
            root,
            leaf,
            leaf,
            chain_start(fs, leaf),
            fs.files.dom().len() + more,
        ) == extends_chain(fs, root, leaf),
{
    lemma_start(fs, root, leaf);
    lemma_chain(
        fs,
        root,
        leaf,
        leaf_key(fs, leaf),
        leaf,
        chain_start(fs, leaf),
        fs.files.dom().len(),
        more,
    );
}

} // verus!
