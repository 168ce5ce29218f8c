//! What a chain of tsconfig files holds, and when there is none.
use crate::extends::{
    chain_from, chain_start, dir_of, extends_chain, extends_target, follow, further_bases,
    leaf_keys, with_base, ChainView,
};
use crate::json::{field, JsonTree};
use crate::path::path_key;
use crate::tree::{canonical_at, FilesView};
use crate::tsconfig::{tsconfig_at, TsconfigFailure};
use vstd::prelude::*;

verus! {

/// Whether a tsconfig extends what a specifier names: by its one `extends`, or by one of a list.
pub open spec fn names_base(t: JsonTree, s: Seq<char>) -> bool {
    field(t, "extends"@) matches Some(e) && (e == JsonTree::Str(s) || (e matches JsonTree::Array(
        items,
    ) && items.contains(JsonTree::Str(s))))
}

/// The specifier by which a chain goes on from a tsconfig: its one `extends`, or the first of a
/// list.
pub open spec fn goes_on_by(t: JsonTree) -> Option<Seq<char>> {
    match field(t, "extends"@) {
        Some(JsonTree::Str(s)) => Some(s),
        Some(JsonTree::Array(items)) => if items.len() > 0 {
            match items[0] {
                JsonTree::Str(s) => Some(s),
                _ => None,
            }
        } else {
            None
        },
        _ => None,
    }
}

/// The file that a chain has come to after some links.
pub open spec fn linked(fs: FilesView, root: Seq<char>, leaf: Seq<char>, n: nat) -> Option<Seq<char>>
    decreases n,
{
    if n == 0 {
        Some(leaf)
    } else {
        match linked(fs, root, leaf, (n - 1) as nat) {
            None => None,
            Some(p) => match tsconfig_at(fs, p) {
                Err(_) => None,
                Ok(t) => match goes_on_by(t) {
                    None => None,
                    Some(s) => match extends_target(fs, root, dir_of(p), s) {
                        Err(_) => None,
                        Ok(q) => Some(q),
                    },
                },
            },
        }
    }
}

/// Whether a list holds a file, told by its path.
pub open spec fn lists(l: Seq<Seq<char>>, p: Seq<char>) -> bool {
    exists|i: int| 0 <= i < l.len() && path_key(#[trigger] l[i]) == path_key(p)
}

/// Whether every file that was seen is listed, or is one of those that a chain starts from.
spec fn seen_are_listed(c: ChainView, start: Set<Seq<char>>) -> bool {
    forall|k: Seq<char>| #[trigger]
        c.seen.contains(k) ==> start.contains(k) || exists|i: int|
            0 <= i < c.list.len() && path_key(#[trigger] c.list[i]) == k
}

proof fn lemma_with_base(c: ChainView, p: Seq<char>, start: Set<Seq<char>>)
    requires
        seen_are_listed(c, start),
    ensures
        seen_are_listed(with_base(c, p), start),
        c.list.is_prefix_of(with_base(c, p).list),
        with_base(c, p).seen.contains(path_key(p)),
        c.seen.subset_of(with_base(c, p).seen),
{
    let d = with_base(c, p);
    if !c.seen.contains(path_key(p)) {
        assert forall|k: Seq<char>| #[trigger] d.seen.contains(k) implies start.contains(k) || exists|
            i: int,
        |
            0 <= i < d.list.len() && path_key(#[trigger] d.list[i]) == k by {
            if k == path_key(p) {
                assert(path_key(d.list[c.list.len() as int]) == k);
            } else if !start.contains(k) {
                assert(c.seen.contains(k));
                let i = choose|i: int|
                    0 <= i < c.list.len() && path_key(#[trigger] c.list[i]) == k;
                assert(path_key(d.list[i]) == k);
            }
        }
    }
}

proof fn lemma_further(
    fs: FilesView,
    root: Seq<char>,
    dir: Seq<char>,
    items: Seq<JsonTree>,
    c: ChainView,
    start: Set<Seq<char>>,
)
    requires
        seen_are_listed(c, start),
        further_bases(fs, root, dir, items, c) is Ok,
    ensures
        ({
            let d = further_bases(fs, root, dir, items, c)->Ok_0;
            &&& seen_are_listed(d, start)
            &&& c.seen.subset_of(d.seen)
            &&& forall|i: int, s: Seq<char>|
                0 <= i < items.len() && items[i] == JsonTree::Str(s) && #[trigger] extends_target(
                    fs,
                    root,
                    dir,
                    s,
                ) is Ok && #[trigger] items[i] == JsonTree::Str(s) ==> d.seen.contains(
                    path_key(extends_target(fs, root, dir, s)->Ok_0),
                )
        }),
    decreases items.len(),
{
    if items.len() > 0 {
        let rest = items.drop_first();
        let next = match items[0] {
            JsonTree::Str(s) => with_base(c, extends_target(fs, root, dir, s)->Ok_0),
            _ => c,
        };
        if let JsonTree::Str(s) = items[0] {
            lemma_with_base(c, extends_target(fs, root, dir, s)->Ok_0, start);
        }
        lemma_further(fs, root, dir, rest, next, start);
        let d = further_bases(fs, root, dir, items, c)->Ok_0;
        assert forall|i: int, s: Seq<char>|
            0 <= i < items.len() && items[i] == JsonTree::Str(s) && #[trigger] extends_target(
                fs,
                root,
                dir,
                s,
            ) is Ok && #[trigger] items[i] == JsonTree::Str(s) implies d.seen.contains(
            path_key(extends_target(fs, root, dir, s)->Ok_0),
        ) by {
            if i > 0 {
                assert(rest[i - 1] == items[i]);
            }
        }
    }
}

/// A chain at `current` after all that it extends but the first.
spec fn past_the_rest(fs: FilesView, root: Seq<char>, current: Seq<char>, c: ChainView) -> ChainView {
    match field(tsconfig_at(fs, current)->Ok_0, "extends"@) {
        Some(JsonTree::Array(items)) => if items.len() > 0 {
            further_bases(fs, root, dir_of(current), items.drop_first(), c)->Ok_0
        } else {
            c
        },
        _ => c,
    }
}

/// A chain that goes on to `p`.
spec fn gone_on(d: ChainView, p: Seq<char>) -> ChainView {
    ChainView { way: d.way.insert(path_key(p)), ..with_base(d, p) }
}

/// How a chain goes on from `current`.
#[verifier::rlimit(40)]
proof fn lemma_goes_on(
    fs: FilesView,
    root: Seq<char>,
    leaf: Seq<char>,
    current: Seq<char>,
    c: ChainView,
    left: nat,
    start: Set<Seq<char>>,
)
    requires
        seen_are_listed(c, start),
        chain_from(fs, root, leaf, current, c, left) is Ok,
    ensures
        tsconfig_at(fs, current) is Ok,
        ({
            let u = tsconfig_at(fs, current)->Ok_0;
            let l = chain_from(fs, root, leaf, current, c, left)->Ok_0;
            let d = past_the_rest(fs, root, current, c);
            &&& seen_are_listed(d, start)
            &&& c.seen.subset_of(d.seen)
            &&& goes_on_by(u) is None ==> l == d.list
            &&& goes_on_by(u) matches Some(s) ==> {
                let p = extends_target(fs, root, dir_of(current), s)->Ok_0;
                let next = gone_on(d, p);
                &&& extends_target(fs, root, dir_of(current), s) is Ok
                &&& left > 0
                &&& chain_from(fs, root, leaf, p, next, (left - 1) as nat) is Ok
                &&& chain_from(fs, root, leaf, p, next, (left - 1) as nat)->Ok_0 == l
                &&& seen_are_listed(next, start)
                &&& d.seen.subset_of(next.seen)
                &&& next.seen.contains(path_key(p))
            }
        }),
{
    let u = tsconfig_at(fs, current)->Ok_0;
    let d = past_the_rest(fs, root, current, c);
    if let Some(JsonTree::Array(items)) = field(u, "extends"@) {
        if items.len() > 0 {
            lemma_further(fs, root, dir_of(current), items.drop_first(), c, start);
        }
    }
    if let Some(s) = goes_on_by(u) {
        let p = extends_target(fs, root, dir_of(current), s)->Ok_0;
        lemma_with_base(d, p, start);
        let next = gone_on(d, p);
        assert(next.list == with_base(d, p).list);
        assert(next.seen == with_base(d, p).seen);
    }
}

/// All that a file extends is seen when a chain goes on from it, but for the first of a list.
#[verifier::rlimit(40)]
proof fn lemma_rest_seen(
    fs: FilesView,
    root: Seq<char>,
    leaf: Seq<char>,
    current: Seq<char>,
    c: ChainView,
    left: nat,
    start: Set<Seq<char>>,
    s: Seq<char>,
)
    requires
        seen_are_listed(c, start),
        chain_from(fs, root, leaf, current, c, left) is Ok,
        names_base(tsconfig_at(fs, current)->Ok_0, s),
        goes_on_by(tsconfig_at(fs, current)->Ok_0) != Some(s),
        extends_target(fs, root, dir_of(current), s) is Ok,
    ensures
        past_the_rest(fs, root, current, c).seen.contains(
            path_key(extends_target(fs, root, dir_of(current), s)->Ok_0),
        ),
{
    let u = tsconfig_at(fs, current)->Ok_0;
    if let Some(JsonTree::Array(items)) = field(u, "extends"@) {
        assert(items.contains(JsonTree::Str(s)));
        let i = choose|i: int| 0 <= i < items.len() && items[i] == JsonTree::Str(s);
        assert(i > 0);
        assert(further_bases(fs, root, dir_of(current), items.drop_first(), c) is Ok);
        lemma_further(fs, root, dir_of(current), items.drop_first(), c, start);
        assert(items.drop_first()[i - 1] == JsonTree::Str(s));
    }
}

/// What was seen is listed in the end.
#[verifier::rlimit(40)]
proof fn lemma_seen_stay(
    fs: FilesView,
    root: Seq<char>,
    leaf: Seq<char>,
    current: Seq<char>,
    c: ChainView,
    left: nat,
    start: Set<Seq<char>>,
    q: Seq<char>,
)
    requires
        seen_are_listed(c, start),
        chain_from(fs, root, leaf, current, c, left) is Ok,
        past_the_rest(fs, root, current, c).seen.contains(path_key(q)),
    ensures
        start.contains(path_key(q)) || lists(
            chain_from(fs, root, leaf, current, c, left)->Ok_0,
            q,
        ),
    decreases left,
{
    lemma_goes_on(fs, root, leaf, current, c, left, start);
    let u = tsconfig_at(fs, current)->Ok_0;
    let d = past_the_rest(fs, root, current, c);
    if let Some(s) = goes_on_by(u) {
        let p = extends_target(fs, root, dir_of(current), s)->Ok_0;
        let next = gone_on(d, p);
        lemma_goes_on(fs, root, leaf, p, next, (left - 1) as nat, start);
        lemma_seen_stay(fs, root, leaf, p, next, (left - 1) as nat, start, q);
    }
}

/// A chain lists what the file that it starts at extends.
#[verifier::rlimit(40)]
proof fn lemma_lists_own_bases(
    fs: FilesView,
    root: Seq<char>,
    leaf: Seq<char>,
    current: Seq<char>,
    c: ChainView,
    left: nat,
    start: Set<Seq<char>>,
    s: Seq<char>,
)
    requires
        seen_are_listed(c, start),
        chain_from(fs, root, leaf, current, c, left) is Ok,
        names_base(tsconfig_at(fs, current)->Ok_0, s),
        extends_target(fs, root, dir_of(current), s) is Ok,
    ensures
        ({
            let p = extends_target(fs, root, dir_of(current), s)->Ok_0;
            start.contains(path_key(p)) || lists(
                chain_from(fs, root, leaf, current, c, left)->Ok_0,
                p,
            )
        }),
{
    let p = extends_target(fs, root, dir_of(current), s)->Ok_0;
    if goes_on_by(tsconfig_at(fs, current)->Ok_0) == Some(s) {
        lemma_goes_on(fs, root, leaf, current, c, left, start);
        let next = gone_on(past_the_rest(fs, root, current, c), p);
        lemma_goes_on(fs, root, leaf, p, next, (left - 1) as nat, start);
        lemma_seen_stay(fs, root, leaf, p, next, (left - 1) as nat, start, p);
    } else {
        lemma_rest_seen(fs, root, leaf, current, c, left, start, s);
        lemma_seen_stay(fs, root, leaf, current, c, left, start, p);
    }
}

/// What a chain from `current` on lists.
proof fn lemma_chain_lists(
    fs: FilesView,
    root: Seq<char>,
    leaf: Seq<char>,
    current: Seq<char>,
    c: ChainView,
    left: nat,
    start: Set<Seq<char>>,
    n: nat,
    at: Seq<char>,
    s: Seq<char>,
)
    requires
        seen_are_listed(c, start),
        chain_from(fs, root, leaf, current, c, left) is Ok,
        linked(fs, root, current, n) == Some(at),
        names_base(tsconfig_at(fs, at)->Ok_0, s),
        extends_target(fs, root, dir_of(at), s) is Ok,
    ensures
        ({
            let p = extends_target(fs, root, dir_of(at), s)->Ok_0;
            start.contains(path_key(p)) || lists(
                chain_from(fs, root, leaf, current, c, left)->Ok_0,
                p,
            )
        }),
    decreases n,
{
    if n == 0 {
        lemma_lists_own_bases(fs, root, leaf, current, c, left, start, s);
    } else {
        lemma_goes_on(fs, root, leaf, current, c, left, start);
        let d = past_the_rest(fs, root, current, c);
        let one = linked(fs, root, current, 1);
        if one is None {
            lemma_no_link(fs, root, current, n);
        } else {
            let p = one->0;
            lemma_one_link(fs, root, current);
            lemma_link_first(fs, root, current, n);
            lemma_chain_lists(
                fs,
                root,
                leaf,
                p,
                gone_on(d, p),
                (left - 1) as nat,
                start,
                (n - 1) as nat,
                at,
                s,
            );
        }
    }
}

/// One link leads to what a file goes on by.
proof fn lemma_one_link(fs: FilesView, root: Seq<char>, current: Seq<char>)
    requires
        linked(fs, root, current, 1) is Some,
    ensures
        goes_on_by(tsconfig_at(fs, current)->Ok_0) matches Some(s) && extends_target(
            fs,
            root,
            dir_of(current),
            s,
        ) == Ok::<Seq<char>, TsconfigFailure>(linked(fs, root, current, 1)->0),
{
    assert(linked(fs, root, current, 0) == Some(current));
}

proof fn lemma_no_link(fs: FilesView, root: Seq<char>, current: Seq<char>, n: nat)
    requires
        n > 0,
        linked(fs, root, current, 1) is None,
    ensures
        linked(fs, root, current, n) is None,
    decreases n,
{
    if n > 1 {
        lemma_no_link(fs, root, current, (n - 1) as nat);
    }
}

/// Going one link and then the rest is going all of them.
proof fn lemma_link_first(fs: FilesView, root: Seq<char>, current: Seq<char>, n: nat)
    requires
        n > 0,
        linked(fs, root, current, 1) is Some,
    ensures
        linked(fs, root, current, n) == linked(
            fs,
            root,
            linked(fs, root, current, 1)->0,
            (n - 1) as nat,
        ),
    decreases n,
{
    if n > 1 {
        lemma_link_first(fs, root, current, (n - 1) as nat);
    }
}

/// Every file that a chain comes to has all that it extends in the chain, whether it names one
/// base or a list of them, but for the tsconfig itself that the chain starts from.
pub proof fn a_chain_lists_every_base_of_its_files(
    fs: FilesView,
    root: Seq<char>,
    leaf: Seq<char>,
    n: nat,
    at: Seq<char>,
    t: JsonTree,
    s: Seq<char>,
)
    requires
        extends_chain(fs, root, leaf) is Ok,
        linked(fs, root, leaf, n) == Some(at),
        tsconfig_at(fs, at) == Ok::<JsonTree, TsconfigFailure>(t),
        names_base(t, s),
        extends_target(fs, root, dir_of(at), s) is Ok,
    ensures
        ({
            let p = extends_target(fs, root, dir_of(at), s)->Ok_0;
            lists(extends_chain(fs, root, leaf)->Ok_0, p) || (canonical_at(fs, leaf) matches Some(c)
                && path_key(c) == path_key(p))
        }),
{
    lemma_chain_lists(
        fs,
        root,
        leaf,
        leaf,
        chain_start(fs, leaf),
        fs.files.dom().len(),
        leaf_keys(fs, leaf),
        n,
        at,
        s,
    );
}

proof fn lemma_way_stays(
    fs: FilesView,
    root: Seq<char>,
    dir: Seq<char>,
    items: Seq<JsonTree>,
    c: ChainView,
)
    ensures
        further_bases(fs, root, dir, items, c) matches Ok(d) ==> d.way == c.way,
    decreases items.len(),
{
    if items.len() > 0 {
        if let JsonTree::Str(s) = items[0] {
            if let Ok(p) = extends_target(fs, root, dir, s) {
                lemma_way_stays(fs, root, dir, items.drop_first(), with_base(c, p));
            }
        } else {
            lemma_way_stays(fs, root, dir, items.drop_first(), c);
        }
    }
}

/// A chain goes on only to a file that is not on its way.
#[verifier::rlimit(40)]
proof fn lemma_way_goes_on(
    fs: FilesView,
    root: Seq<char>,
    leaf: Seq<char>,
    current: Seq<char>,
    c: ChainView,
    left: nat,
)
    requires
        chain_from(fs, root, leaf, current, c, left) is Ok,
        linked(fs, root, current, 1) is Some,
    ensures
        ({
            let p = linked(fs, root, current, 1)->0;
            let next = gone_on(past_the_rest(fs, root, current, c), p);
            &&& !c.way.contains(path_key(p))
            &&& next.way == c.way.insert(path_key(p))
            &&& left > 0
            &&& chain_from(fs, root, leaf, p, next, (left - 1) as nat) is Ok
        }),
{
    assert(linked(fs, root, current, 0) == Some(current));
    let t = tsconfig_at(fs, current)->Ok_0;
    if let Some(JsonTree::Array(items)) = field(t, "extends"@) {
        lemma_way_stays(fs, root, dir_of(current), items.drop_first(), c);
    }
}

proof fn lemma_never_back(
    fs: FilesView,
    root: Seq<char>,
    leaf: Seq<char>,
    current: Seq<char>,
    c: ChainView,
    left: nat,
    k: Seq<char>,
    n: nat,
)
    requires
        chain_from(fs, root, leaf, current, c, left) is Ok,
        c.way.contains(k),
        n > 0,
        linked(fs, root, current, n) is Some,
    ensures
        path_key(linked(fs, root, current, n)->0) != k,
    decreases n,
{
    lemma_linked_before(fs, root, current, 1, n);
    lemma_way_goes_on(fs, root, leaf, current, c, left);
    lemma_link_first(fs, root, current, n);
    if n > 1 {
        let p = linked(fs, root, current, 1)->0;
        let next = gone_on(past_the_rest(fs, root, current, c), p);
        lemma_never_back(fs, root, leaf, p, next, (left - 1) as nat, k, (n - 1) as nat);
    }
}

proof fn lemma_linked_before(
    fs: FilesView,
    root: Seq<char>,
    current: Seq<char>,
    m: nat,
    n: nat,
)
    requires
        m <= n,
        linked(fs, root, current, n) is Some,
    ensures
        linked(fs, root, current, m) is Some,
    decreases n,
{
    if m < n {
        lemma_linked_before(fs, root, current, m, (n - 1) as nat);
    }
}

proof fn lemma_links_differ(
    fs: FilesView,
    root: Seq<char>,
    leaf: Seq<char>,
    current: Seq<char>,
    c: ChainView,
    left: nat,
    m: nat,
    n: nat,
)
    requires
        chain_from(fs, root, leaf, current, c, left) is Ok,
        0 < m < n,
        linked(fs, root, current, n) is Some,
    ensures
        linked(fs, root, current, m) is Some,
        path_key(linked(fs, root, current, m)->0) != path_key(linked(fs, root, current, n)->0),
    decreases n,
{
    lemma_linked_before(fs, root, current, m, n);
    lemma_linked_before(fs, root, current, 1, n);
    lemma_way_goes_on(fs, root, leaf, current, c, left);
    lemma_link_first(fs, root, current, m);
    lemma_link_first(fs, root, current, n);
    let p = linked(fs, root, current, 1)->0;
    let next = gone_on(past_the_rest(fs, root, current, c), p);
    if m == 1 {
        lemma_never_back(
            fs,
            root,
            leaf,
            p,
            next,
            (left - 1) as nat,
            path_key(p),
            (n - 1) as nat,
        );
    } else {
        lemma_links_differ(
            fs,
            root,
            leaf,
            p,
            next,
            (left - 1) as nat,
            (m - 1) as nat,
            (n - 1) as nat,
        );
    }
}

/// A tsconfig that comes back to a file by what it extends has no chain: neither one that comes
/// back to itself, nor one that comes to some other file twice.
pub proof fn a_chain_that_comes_back_fails(
    fs: FilesView,
    root: Seq<char>,
    leaf: Seq<char>,
    m: nat,
    n: nat,
    a: Seq<char>,
    b: Seq<char>,
)
    requires
        m < n,
        linked(fs, root, leaf, n) == Some(b),
        m > 0 ==> linked(fs, root, leaf, m) == Some(a),
        m == 0 ==> canonical_at(fs, leaf) == Some(a),
        path_key(a) == path_key(b),
    ensures
        extends_chain(fs, root, leaf) is Err,
{
    if extends_chain(fs, root, leaf) is Ok {
        let c = chain_start(fs, leaf);
        let left = fs.files.dom().len();
        if m == 0 {
            lemma_never_back(fs, root, leaf, leaf, c, left, path_key(a), n);
        } else {
            lemma_links_differ(fs, root, leaf, leaf, c, left, m, n);
        }
    }
}

/// Whether the tsconfig at `at` extends the file `p`.
pub open spec fn extends_file(
    fs: FilesView,
    root: Seq<char>,
    at: Seq<char>,
    s: Seq<char>,
    p: Seq<char>,
) -> bool {
    tsconfig_at(fs, at) matches Ok(t) && names_base(t, s) && extends_target(fs, root, dir_of(at), s)
        == Ok::<Seq<char>, TsconfigFailure>(p)
}

/// Whether a file is extended by one that is some links away from another.
pub open spec fn is_base(fs: FilesView, root: Seq<char>, from: Seq<char>, p: Seq<char>) -> bool {
    exists|n: nat, at: Seq<char>, s: Seq<char>|
        #[trigger] linked(fs, root, from, n) == Some(at) && #[trigger] extends_file(
            fs,
            root,
            at,
            s,
            p,
        )
}

/// Whether a chain went on from another one: it lists all that the other listed first, and
/// beside that only what `from` extends, directly or not.
spec fn went_on(
    fs: FilesView,
    root: Seq<char>,
    from: Seq<char>,
    before: Seq<Seq<char>>,
    l: Seq<Seq<char>>,
) -> bool {
    &&& before.len() <= l.len()
    &&& forall|i: int| 0 <= i < before.len() ==> #[trigger] l[i] == before[i]
    &&& forall|i: int|
        before.len() <= i < l.len() ==> is_base(fs, root, from, #[trigger] l[i])
}

proof fn lemma_own_base(
    fs: FilesView,
    root: Seq<char>,
    from: Seq<char>,
    s: Seq<char>,
    p: Seq<char>,
)
    requires
        extends_file(fs, root, from, s, p),
    ensures
        is_base(fs, root, from, p),
{
    assert(linked(fs, root, from, 0) == Some(from));
}

proof fn lemma_base_of_next(
    fs: FilesView,
    root: Seq<char>,
    from: Seq<char>,
    next: Seq<char>,
    p: Seq<char>,
)
    requires
        linked(fs, root, from, 1) == Some(next),
        is_base(fs, root, next, p),
    ensures
        is_base(fs, root, from, p),
{
    let (n, at, s) = choose|n: nat, at: Seq<char>, s: Seq<char>|
        #[trigger] linked(fs, root, next, n) == Some(at) && #[trigger] extends_file(
            fs,
            root,
            at,
            s,
            p,
        );
    lemma_one_more(fs, root, from, next, n);
    assert(linked(fs, root, from, n + 1) == Some(at));
}

proof fn lemma_one_more(
    fs: FilesView,
    root: Seq<char>,
    from: Seq<char>,
    next: Seq<char>,
    n: nat,
)
    requires
        linked(fs, root, from, 1) == Some(next),
    ensures
        linked(fs, root, from, n + 1) == linked(fs, root, next, n),
    decreases n,
{
    if n > 0 {
        lemma_one_more(fs, root, from, next, (n - 1) as nat);
    }
}

proof fn lemma_further_bases(
    fs: FilesView,
    root: Seq<char>,
    from: Seq<char>,
    items: Seq<JsonTree>,
    c: ChainView,
)
    requires
        tsconfig_at(fs, from) is Ok,
        forall|s: Seq<char>| #[trigger]
            items.contains(JsonTree::Str(s)) ==> names_base(tsconfig_at(fs, from)->Ok_0, s),
        further_bases(fs, root, dir_of(from), items, c) is Ok,
    ensures
        went_on(
            fs,
            root,
            from,
            c.list,
            further_bases(fs, root, dir_of(from), items, c)->Ok_0.list,
        ),
        forall|s: Seq<char>| #[trigger]
            items.contains(JsonTree::Str(s)) ==> extends_target(fs, root, dir_of(from), s) is Ok,
    decreases items.len(),
{
    if items.len() > 0 {
        let rest = items.drop_first();
        assert forall|s: Seq<char>| #[trigger]
            rest.contains(JsonTree::Str(s)) implies names_base(
            tsconfig_at(fs, from)->Ok_0,
            s,
        ) by {
            let i = choose|i: int| 0 <= i < rest.len() && rest[i] == JsonTree::Str(s);
            assert(items[i + 1] == JsonTree::Str(s));
            assert(items.contains(JsonTree::Str(s)));
        }
        if let JsonTree::Str(s) = items[0] {
            let p = extends_target(fs, root, dir_of(from), s)->Ok_0;
            assert(items.contains(JsonTree::Str(s)));
            lemma_own_base(fs, root, from, s, p);
            lemma_further_bases(fs, root, from, rest, with_base(c, p));
        } else {
            lemma_further_bases(fs, root, from, rest, c);
        }
        assert forall|s: Seq<char>| #[trigger]
            items.contains(JsonTree::Str(s)) implies extends_target(
            fs,
            root,
            dir_of(from),
            s,
        ) is Ok by {
            let i = choose|i: int| 0 <= i < items.len() && items[i] == JsonTree::Str(s);
            if i > 0 {
                assert(rest[i - 1] == JsonTree::Str(s));
                assert(rest.contains(JsonTree::Str(s)));
            }
        }
    }
}

proof fn lemma_went_further(
    fs: FilesView,
    root: Seq<char>,
    from: Seq<char>,
    a: Seq<Seq<char>>,
    b: Seq<Seq<char>>,
    l: Seq<Seq<char>>,
)
    requires
        went_on(fs, root, from, a, b),
        went_on(fs, root, from, b, l),
    ensures
        went_on(fs, root, from, a, l),
{
    assert forall|i: int| 0 <= i < a.len() implies #[trigger] l[i] == a[i] by {
        assert(l[i] == b[i]);
    }
    assert forall|i: int| a.len() <= i < l.len() implies is_base(
        fs,
        root,
        from,
        #[trigger] l[i],
    ) by {
        if i < b.len() {
            assert(l[i] == b[i]);
        }
    }
}

proof fn lemma_chain(
    fs: FilesView,
    root: Seq<char>,
    leaf: Seq<char>,
    from: Seq<char>,
    c: ChainView,
    left: nat,
)
    requires
        chain_from(fs, root, leaf, from, c, left) is Ok,
    ensures
        went_on(fs, root, from, c.list, chain_from(fs, root, leaf, from, c, left)->Ok_0),
        tsconfig_at(fs, from) is Ok,
        forall|s: Seq<char>| #[trigger]
            names_base(tsconfig_at(fs, from)->Ok_0, s) ==> extends_target(
                fs,
                root,
                dir_of(from),
                s,
            ) is Ok,
    decreases left, 2int,
{
    let t = tsconfig_at(fs, from)->Ok_0;
    match field(t, "extends"@) {
        Some(JsonTree::Str(s)) => {
            lemma_chain_on(fs, root, leaf, from, s, c, left);
        },
        Some(JsonTree::Array(items)) => {
            if items.len() > 0 {
                lemma_chain_list(fs, root, leaf, from, items, c, left);
            } else {
                assert forall|s: Seq<char>| !names_base(t, s) by {}
            }
        },
        _ => {},
    }
}

#[verifier::rlimit(40)]
proof fn lemma_chain_list(
    fs: FilesView,
    root: Seq<char>,
    leaf: Seq<char>,
    from: Seq<char>,
    items: Seq<JsonTree>,
    c: ChainView,
    left: nat,
)
    requires
        chain_from(fs, root, leaf, from, c, left) is Ok,
        field(tsconfig_at(fs, from)->Ok_0, "extends"@) == Some(JsonTree::Array(items)),
        items.len() > 0,
    ensures
        went_on(fs, root, from, c.list, chain_from(fs, root, leaf, from, c, left)->Ok_0),
        forall|s: Seq<char>| #[trigger]
            names_base(tsconfig_at(fs, from)->Ok_0, s) ==> extends_target(
                fs,
                root,
                dir_of(from),
                s,
            ) is Ok,
    decreases left, 1int,
{
    let t = tsconfig_at(fs, from)->Ok_0;
    let rest = items.drop_first();
    let l = chain_from(fs, root, leaf, from, c, left)->Ok_0;
    assert forall|s: Seq<char>| #[trigger] rest.contains(JsonTree::Str(s)) implies names_base(
        t,
        s,
    ) by {
        let i = choose|i: int| 0 <= i < rest.len() && rest[i] == JsonTree::Str(s);
        assert(items[i + 1] == JsonTree::Str(s));
        assert(items.contains(JsonTree::Str(s)));
    }
    lemma_further_bases(fs, root, from, rest, c);
    let d = further_bases(fs, root, dir_of(from), rest, c)->Ok_0;
    if let JsonTree::Str(s) = items[0] {
        assert(items.contains(items[0]));
        assert(l == follow(fs, root, leaf, from, s, d, left)->Ok_0);
        lemma_chain_on(fs, root, leaf, from, s, d, left);
        lemma_went_further(fs, root, from, c.list, d.list, l);
    } else {
        assert(l == d.list);
    }
    assert forall|s: Seq<char>| #[trigger] names_base(t, s) implies extends_target(
        fs,
        root,
        dir_of(from),
        s,
    ) is Ok by {
        assert(items.contains(JsonTree::Str(s)));
        let i = choose|i: int| 0 <= i < items.len() && items[i] == JsonTree::Str(s);
        if i > 0 {
            assert(rest[i - 1] == JsonTree::Str(s));
            assert(rest.contains(JsonTree::Str(s)));
        }
    }
}

proof fn lemma_chain_on(
    fs: FilesView,
    root: Seq<char>,
    leaf: Seq<char>,
    from: Seq<char>,
    s: Seq<char>,
    c: ChainView,
    left: nat,
)
    requires
        tsconfig_at(fs, from) is Ok,
        names_base(tsconfig_at(fs, from)->Ok_0, s),
        goes_on_by(tsconfig_at(fs, from)->Ok_0) == Some(s),
        follow(fs, root, leaf, from, s, c, left) is Ok,
    ensures
        went_on(
            fs,
            root,
            from,
            c.list,
            follow(fs, root, leaf, from, s, c, left)->Ok_0,
        ),
        extends_target(fs, root, dir_of(from), s) is Ok,
    decreases left, 0int,
{
    let p = extends_target(fs, root, dir_of(from), s)->Ok_0;
    let next = ChainView { way: c.way.insert(path_key(p)), ..with_base(c, p) };
    assert(linked(fs, root, from, 0) == Some(from));
    assert(linked(fs, root, from, 1) == Some(p));
    lemma_own_base(fs, root, from, s, p);
    lemma_chain(fs, root, leaf, p, next, (left - 1) as nat);
    let l = chain_from(fs, root, leaf, p, next, (left - 1) as nat)->Ok_0;
    assert forall|i: int| 0 <= i < c.list.len() implies #[trigger] l[i] == c.list[i] by {
        assert(l[i] == next.list[i]);
    }
    assert forall|i: int| c.list.len() <= i < l.len() implies is_base(
        fs,
        root,
        from,
        #[trigger] l[i],
    ) by {
        if i < next.list.len() {
            assert(l[i] == next.list[i]);
        } else {
            lemma_base_of_next(fs, root, from, p, l[i]);
        }
    }
}

/// A chain lists nothing but what its files extend.
pub proof fn a_chain_lists_only_bases(fs: FilesView, root: Seq<char>, leaf: Seq<char>, i: int)
    requires
        extends_chain(fs, root, leaf) is Ok,
        0 <= i < extends_chain(fs, root, leaf)->Ok_0.len(),
    ensures
        is_base(fs, root, leaf, extends_chain(fs, root, leaf)->Ok_0[i]),
{
    lemma_chain(fs, root, leaf, leaf, chain_start(fs, leaf), fs.files.dom().len());
}

/// What a tsconfig extends comes before what that extends in turn.
pub proof fn the_nearest_base_comes_first(
    fs: FilesView,
    root: Seq<char>,
    leaf: Seq<char>,
    t: JsonTree,
    s: Seq<char>,
)
    requires
        extends_chain(fs, root, leaf) is Ok,
        tsconfig_at(fs, leaf) == Ok::<JsonTree, TsconfigFailure>(t),
        field(t, "extends"@) == Some(JsonTree::Str(s)),
    ensures
        extends_chain(fs, root, leaf)->Ok_0.len() > 0,
        extends_target(fs, root, dir_of(leaf), s) == Ok::<Seq<char>, TsconfigFailure>(
            extends_chain(fs, root, leaf)->Ok_0[0],
        ),
{
    let c = chain_start(fs, leaf);
    let left = fs.files.dom().len();
    let p = extends_target(fs, root, dir_of(leaf), s)->Ok_0;
    let next = ChainView { way: c.way.insert(path_key(p)), ..with_base(c, p) };
    assert(!c.way.contains(path_key(p)));
    assert(next.list =~= seq![p]);
    lemma_chain(fs, root, leaf, p, next, (left - 1) as nat);
    assert(extends_chain(fs, root, leaf)->Ok_0[0] == next.list[0]);
}

#[verifier::rlimit(40)]
proof fn lemma_chain_at(
    fs: FilesView,
    root: Seq<char>,
    leaf: Seq<char>,
    from: Seq<char>,
    c: ChainView,
    left: nat,
    n: nat,
    at: Seq<char>,
)
    requires
        chain_from(fs, root, leaf, from, c, left) is Ok,
        linked(fs, root, from, n) == Some(at),
    ensures
        tsconfig_at(fs, at) is Ok,
        forall|s: Seq<char>| #[trigger]
            names_base(tsconfig_at(fs, at)->Ok_0, s) ==> extends_target(
                fs,
                root,
                dir_of(at),
                s,
            ) is Ok,
    decreases n,
{
    if n == 0 {
        lemma_chain(fs, root, leaf, from, c, left);
    } else {
        lemma_linked_at_all(fs, root, from, n);
        let p = linked(fs, root, from, 1)->0;
        lemma_one_more(fs, root, from, p, (n - 1) as nat);
        assert(linked(fs, root, from, 0) == Some(from));
        let t = tsconfig_at(fs, from)->Ok_0;
        let d = match field(t, "extends"@) {
            Some(JsonTree::Array(items)) => further_bases(
                fs,
                root,
                dir_of(from),
                items.drop_first(),
                c,
            )->Ok_0,
            _ => c,
        };
        let next = ChainView { way: d.way.insert(path_key(p)), ..with_base(d, p) };
        lemma_chain_at(fs, root, leaf, p, next, (left - 1) as nat, (n - 1) as nat, at);
    }
}

proof fn lemma_linked_at_all(fs: FilesView, root: Seq<char>, from: Seq<char>, n: nat)
    requires
        n > 0,
        linked(fs, root, from, n) is Some,
    ensures
        linked(fs, root, from, 1) is Some,
    decreases n,
{
    if n > 1 {
        lemma_linked_at_all(fs, root, from, (n - 1) as nat);
    }
}

/// There is a chain only if each file of it can be read, and all that it extends is there.
pub proof fn a_chain_needs_every_base(
    fs: FilesView,
    root: Seq<char>,
    leaf: Seq<char>,
    n: nat,
    at: Seq<char>,
    t: JsonTree,
    s: Seq<char>,
)
    requires
        linked(fs, root, leaf, n) == Some(at),
        tsconfig_at(fs, at) is Err || tsconfig_at(fs, at) == Ok::<JsonTree, TsconfigFailure>(t)
            && names_base(t, s) && extends_target(fs, root, dir_of(at), s) is Err,
    ensures
        extends_chain(fs, root, leaf) is Err,
{
    if extends_chain(fs, root, leaf) is Ok {
        lemma_chain_at(
            fs,
            root,
            leaf,
            leaf,
            chain_start(fs, leaf),
            fs.files.dom().len(),
            n,
            at,
        );
        assert(names_base(tsconfig_at(fs, at)->Ok_0, s));
    }
}

} // verus!
