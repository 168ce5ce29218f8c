//! The files that one test file needs.
use crate::config_scan::{bare_views, BareSpecifierSite, BareView};
use crate::graph::{append_new, lemma_append_new};
use crate::graph_laws::lemma_append_members;
use crate::importgraph::{edge_views, EdgeView, ImportGraph, ResolvedEdge};
use crate::path::{below, lies_within, slashed, strip_base, with_slashes, within};
use crate::phantom::{third_party, thirdparty_pkg_name_from_path};
use crate::sorted::StrSet;
use crate::sources::{dir_of_package, package_dir};
use crate::text::{same, texts};
use vstd::prelude::*;

verus! {

/// What a test file needs at run time.
#[derive(Debug)]
pub struct TestClosure {
    /// The files of its own package that it leads to, itself among them.
    pub files: StrSet,
    /// The files outside of the package that these import, not followed further.
    pub external_files: StrSet,
    /// The unresolved bare specifiers of these files.
    pub bare_specifiers: Vec<BareSpecifierSite>,
}

/// Whether an import stays in the package: it resolves to a file below its directory that is in
/// no `node_modules`.
pub open spec fn stays_inside(root: Seq<char>, pkg: Seq<char>, e: EdgeView) -> bool {
    within(e.resolved, package_dir(root, pkg)) && third_party(e.resolved) is None
}

/// What an import resolves to, seen from the root; none when it lies outside.
pub open spec fn target_of(root: Seq<char>, e: EdgeView) -> Option<Seq<char>> {
    match below(e.resolved, root) {
        Some(p) => Some(slashed(p)),
        None => None,
    }
}

/// The imports of a file, in order.
pub open spec fn edges_from(edges: Seq<EdgeView>, file: Seq<char>) -> Seq<EdgeView>
    decreases edges.len(),
{
    if edges.len() == 0 {
        Seq::empty()
    } else {
        let before = edges_from(edges.drop_last(), file);
        if edges.last().file == file {
            before.push(edges.last())
        } else {
            before
        }
    }
}

/// The files of the package that some imports lead to.
pub open spec fn inner_targets(root: Seq<char>, pkg: Seq<char>, edges: Seq<EdgeView>) -> Seq<
    Seq<char>,
>
    decreases edges.len(),
{
    if edges.len() == 0 {
        Seq::empty()
    } else {
        let before = inner_targets(root, pkg, edges.drop_last());
        match target_of(root, edges.last()) {
            Some(p) => if stays_inside(root, pkg, edges.last()) {
                before.push(p)
            } else {
                before
            },
            None => before,
        }
    }
}

/// The files outside of the package that some imports lead to.
pub open spec fn outer_targets(root: Seq<char>, pkg: Seq<char>, edges: Seq<EdgeView>) -> Set<
    Seq<char>,
>
    decreases edges.len(),
{
    if edges.len() == 0 {
        Set::empty()
    } else {
        let before = outer_targets(root, pkg, edges.drop_last());
        match target_of(root, edges.last()) {
            Some(p) => if stays_inside(root, pkg, edges.last()) {
                before
            } else {
                before.insert(p)
            },
            None => before,
        }
    }
}

/// The first import that resolves out of the workspace.
pub open spec fn first_escape(root: Seq<char>, edges: Seq<EdgeView>) -> Option<EdgeView>
    decreases edges.len(),
{
    if edges.len() == 0 {
        None
    } else {
        match first_escape(root, edges.drop_last()) {
            Some(e) => Some(e),
            None => if target_of(root, edges.last()) is None {
                Some(edges.last())
            } else {
                None
            },
        }
    }
}

/// The files found once the imports of the first `n` of them were followed, in the order in
/// which they are found.
pub open spec fn reached(
    edges: Seq<EdgeView>,
    root: Seq<char>,
    pkg: Seq<char>,
    test: Seq<char>,
    n: nat,
) -> Seq<Seq<char>>
    decreases n,
{
    if n == 0 {
        seq![test]
    } else {
        let so_far = reached(edges, root, pkg, test, (n - 1) as nat);
        if n - 1 < so_far.len() {
            append_new(so_far, inner_targets(root, pkg, edges_from(edges, so_far[n - 1])))
        } else {
            so_far
        }
    }
}

/// All files of the package that the test file leads to, in the order in which they are found.
pub open spec fn closure_order(
    edges: Seq<EdgeView>,
    root: Seq<char>,
    pkg: Seq<char>,
    test: Seq<char>,
) -> Seq<Seq<char>> {
    let n = choose|n: nat| (#[trigger] reached(edges, root, pkg, test, n)).len() <= n;
    reached(edges, root, pkg, test, n)
}

/// The files outside of the package that some files import.
pub open spec fn outer_files(
    edges: Seq<EdgeView>,
    root: Seq<char>,
    pkg: Seq<char>,
    order: Seq<Seq<char>>,
) -> Set<Seq<char>>
    decreases order.len(),
{
    if order.len() == 0 {
        Set::empty()
    } else {
        outer_files(edges, root, pkg, order.drop_last()).union(
            outer_targets(root, pkg, edges_from(edges, order.last())),
        )
    }
}

/// The first import of some files that resolves out of the workspace.
pub open spec fn escape_of(edges: Seq<EdgeView>, root: Seq<char>, order: Seq<Seq<char>>) -> Option<
    EdgeView,
>
    decreases order.len(),
{
    if order.len() == 0 {
        None
    } else {
        match escape_of(edges, root, order.drop_last()) {
            Some(e) => Some(e),
            None => first_escape(root, edges_from(edges, order.last())),
        }
    }
}

/// The sites of a file, in order.
pub open spec fn sites_from(sites: Seq<BareView>, file: Seq<char>) -> Seq<BareView>
    decreases sites.len(),
{
    if sites.len() == 0 {
        Seq::empty()
    } else {
        let before = sites_from(sites.drop_last(), file);
        if sites.last().file == file {
            before.push(sites.last())
        } else {
            before
        }
    }
}

/// The sites of some files, file by file.
pub open spec fn sites_of(sites: Seq<BareView>, order: Seq<Seq<char>>) -> Seq<BareView>
    decreases order.len(),
{
    if order.len() == 0 {
        Seq::empty()
    } else {
        sites_of(sites, order.drop_last()) + sites_from(sites, order.last())
    }
}

/// A test that imports from outside of the workspace.
#[derive(Debug)]
pub struct OutsideWorkspace {
    pub file: String,
    pub resolved: String,
    pub root: String,
}

impl OutsideWorkspace {
    /// What the error says.
    pub open spec fn text(&self) -> Seq<char> {
        "js_test: "@ + self.file@ + " imports from "@ + self.resolved@
            + ", which resolved outside the workspace root "@ + self.root@
            + ": cannot express it as a declared js_test input"@
    }

    /// What the error says.
    pub fn message(&self) -> (r: String)
        ensures
            r@ == self.text(),
    {
        let mut out = "js_test: ".to_owned();
        out.append(self.file.as_str());
        out.append(" imports from ");
        out.append(self.resolved.as_str());
        out.append(", which resolved outside the workspace root ");
        out.append(self.root.as_str());
        out.append(": cannot express it as a declared js_test input");
        out
    }
}

/// What was found stays found, at its place.
proof fn lemma_reached_grows(
    edges: Seq<EdgeView>,
    root: Seq<char>,
    pkg: Seq<char>,
    test: Seq<char>,
    n: nat,
    m: nat,
)
    requires
        n <= m,
    ensures
        reached(edges, root, pkg, test, n).len() <= reached(edges, root, pkg, test, m).len(),
        reached(edges, root, pkg, test, m).take(
            reached(edges, root, pkg, test, n).len() as int,
        ) == reached(edges, root, pkg, test, n),
    decreases m - n,
{
    let a = reached(edges, root, pkg, test, n);
    if m == n {
        assert(a.take(a.len() as int) =~= a);
    } else {
        let b = reached(edges, root, pkg, test, (m - 1) as nat);
        let c = reached(edges, root, pkg, test, m);
        lemma_reached_grows(edges, root, pkg, test, n, (m - 1) as nat);
        if m - 1 < b.len() {
            lemma_append_new(b, inner_targets(root, pkg, edges_from(edges, b[m - 1])));
            assert(c.take(a.len() as int) =~= b.take(a.len() as int));
        }
    }
}

/// A finished search stays as it is.
proof fn lemma_reached_stable(
    edges: Seq<EdgeView>,
    root: Seq<char>,
    pkg: Seq<char>,
    test: Seq<char>,
    n: nat,
    m: nat,
)
    requires
        n <= m,
        reached(edges, root, pkg, test, n).len() <= n,
    ensures
        reached(edges, root, pkg, test, m) == reached(edges, root, pkg, test, n),
    decreases m - n,
{
    if m > n {
        lemma_reached_stable(edges, root, pkg, test, n, (m - 1) as nat);
    }
}

/// The target of every import.
spec fn all_targets(root: Seq<char>, edges: Seq<EdgeView>) -> Seq<Seq<char>>
    decreases edges.len(),
{
    if edges.len() == 0 {
        Seq::empty()
    } else {
        let before = all_targets(root, edges.drop_last());
        match target_of(root, edges.last()) {
            Some(p) => before.push(p),
            None => before,
        }
    }
}

proof fn lemma_all_targets(root: Seq<char>, edges: Seq<EdgeView>)
    ensures
        all_targets(root, edges).len() <= edges.len(),
        forall|i: int|
            0 <= i < edges.len() && target_of(root, #[trigger] edges[i]) is Some ==> all_targets(
                root,
                edges,
            ).contains(target_of(root, edges[i])->0),
    decreases edges.len(),
{
    if edges.len() > 0 {
        let rest = edges.drop_last();
        lemma_all_targets(root, rest);
        let t = all_targets(root, edges);
        let b = all_targets(root, rest);
        assert forall|i: int|
            0 <= i < edges.len() && target_of(root, #[trigger] edges[i]) is Some implies t.contains(
            target_of(root, edges[i])->0,
        ) by {
            let x = target_of(root, edges[i])->0;
            if i < edges.len() - 1 {
                assert(edges[i] == rest[i]);
                let k = choose|k: int| 0 <= k < b.len() && b[k] == x;
                assert(t[k] == x);
            } else {
                assert(t[b.len() as int] == x);
            }
        }
    }
}

/// The imports of a file are among all imports.
pub proof fn lemma_edges_from(edges: Seq<EdgeView>, file: Seq<char>)
    ensures
        forall|i: int|
            0 <= i < edges_from(edges, file).len() ==> edges.contains(
                #[trigger] edges_from(edges, file)[i],
            ) && edges_from(edges, file)[i].file == file,
        forall|i: int|
            0 <= i < edges.len() && (#[trigger] edges[i]).file == file ==> edges_from(
                edges,
                file,
            ).contains(edges[i]),
    decreases edges.len(),
{
    if edges.len() > 0 {
        let rest = edges.drop_last();
        lemma_edges_from(rest, file);
        let t = edges_from(edges, file);
        let b = edges_from(rest, file);
        assert forall|i: int| 0 <= i < t.len() implies edges.contains(#[trigger] t[i]) && t[i].file
            == file by {
            if i < b.len() {
                assert(t[i] == b[i]);
                let k = choose|k: int| 0 <= k < rest.len() && rest[k] == b[i];
                assert(edges[k] == t[i]);
            } else {
                assert(edges[edges.len() - 1] == t[i]);
            }
        }
        assert forall|i: int| 0 <= i < edges.len() && (#[trigger] edges[i]).file == file implies t.contains(
            edges[i],
        ) by {
            if i < edges.len() - 1 {
                assert(rest[i] == edges[i]);
                let k = choose|k: int| 0 <= k < b.len() && b[k] == edges[i];
                assert(t[k] == edges[i]);
            } else {
                assert(t[b.len() as int] == edges[i]);
            }
        }
    }
}

/// What the inner targets of some imports are.
proof fn lemma_inner_targets(root: Seq<char>, pkg: Seq<char>, edges: Seq<EdgeView>, x: Seq<char>)
    ensures
        inner_targets(root, pkg, edges).contains(x) <==> exists|i: int|
            0 <= i < edges.len() && stays_inside(root, pkg, #[trigger] edges[i]) && target_of(
                root,
                edges[i],
            ) == Some(x),
    decreases edges.len(),
{
    let t = inner_targets(root, pkg, edges);
    if edges.len() == 0 {
        assert(!t.contains(x));
    } else {
        let rest = edges.drop_last();
        let b = inner_targets(root, pkg, rest);
        lemma_inner_targets(root, pkg, rest, x);
        if t.contains(x) {
            let k = choose|k: int| 0 <= k < t.len() && t[k] == x;
            if k < b.len() {
                assert(b[k] == x);
                let i = choose|i: int|
                    0 <= i < rest.len() && stays_inside(root, pkg, #[trigger] rest[i])
                        && target_of(root, rest[i]) == Some(x);
                assert(edges[i] == rest[i]);
            } else {
                assert(edges[edges.len() - 1] == edges.last());
            }
        }
        if exists|i: int|
            0 <= i < edges.len() && stays_inside(root, pkg, #[trigger] edges[i]) && target_of(
                root,
                edges[i],
            ) == Some(x) {
            let i = choose|i: int|
                0 <= i < edges.len() && stays_inside(root, pkg, #[trigger] edges[i]) && target_of(
                    root,
                    edges[i],
                ) == Some(x);
            if i < edges.len() - 1 {
                assert(rest[i] == edges[i]);
                let k = choose|k: int| 0 <= k < b.len() && b[k] == x;
                assert(t[k] == x);
            } else {
                assert(t[b.len() as int] == x);
            }
        }
    }
}

/// What is found is the test file or the target of an import, nothing twice; so it is no more
/// than there are imports, and the test file.
proof fn lemma_reached_bound(
    edges: Seq<EdgeView>,
    root: Seq<char>,
    pkg: Seq<char>,
    test: Seq<char>,
    n: nat,
)
    ensures
        reached(edges, root, pkg, test, n).no_duplicates(),
        reached(edges, root, pkg, test, n).len() <= edges.len() + 1,
        reached(edges, root, pkg, test, n).len() >= 1,
        reached(edges, root, pkg, test, n)[0] == test,
{
    lemma_reached_known(edges, root, pkg, test, n);
    let r = reached(edges, root, pkg, test, n);
    let universe = all_targets(root, edges).push(test);
    lemma_all_targets(root, edges);
    r.unique_seq_to_set();
    assert(r.to_set().subset_of(universe.to_set())) by {
        assert forall|x: Seq<char>| r.to_set().contains(x) implies universe.to_set().contains(x) by {
            let k = choose|k: int| 0 <= k < r.len() && r[k] == x;
            assert(universe.contains(r[k]));
        }
    }
    vstd::seq_lib::seq_to_set_is_finite(universe);
    universe.lemma_cardinality_of_set();
    vstd::set_lib::lemma_len_subset(r.to_set(), universe.to_set());
}

proof fn lemma_reached_known(
    edges: Seq<EdgeView>,
    root: Seq<char>,
    pkg: Seq<char>,
    test: Seq<char>,
    n: nat,
)
    ensures
        reached(edges, root, pkg, test, n).no_duplicates(),
        reached(edges, root, pkg, test, n).len() >= 1,
        reached(edges, root, pkg, test, n)[0] == test,
        forall|i: int|
            0 <= i < reached(edges, root, pkg, test, n).len() ==> all_targets(root, edges).push(
                test,
            ).contains(#[trigger] reached(edges, root, pkg, test, n)[i]),
    decreases n,
{
    let universe = all_targets(root, edges).push(test);
    let r = reached(edges, root, pkg, test, n);
    assert(universe[universe.len() - 1] == test);
    if n > 0 {
        let b = reached(edges, root, pkg, test, (n - 1) as nat);
        lemma_reached_known(edges, root, pkg, test, (n - 1) as nat);
        if n - 1 < b.len() {
            let from = edges_from(edges, b[n - 1]);
            let more = inner_targets(root, pkg, from);
            lemma_append_new(b, more);
            assert(r.take(b.len() as int)[0] == b[0]);
            lemma_edges_from(edges, b[n - 1]);
            lemma_all_targets(root, edges);
            assert forall|i: int| 0 <= i < r.len() implies universe.contains(#[trigger] r[i]) by {
                lemma_append_members(b, more, r[i]);
                assert(r.contains(r[i]));
                if b.contains(r[i]) {
                    let k = choose|k: int| 0 <= k < b.len() && b[k] == r[i];
                    assert(universe.contains(b[k]));
                } else {
                    lemma_inner_targets(root, pkg, from, r[i]);
                    let k = choose|k: int|
                        0 <= k < from.len() && stays_inside(root, pkg, #[trigger] from[k])
                            && target_of(root, from[k]) == Some(r[i]);
                    let m = choose|m: int| 0 <= m < edges.len() && edges[m] == from[k];
                    let t = all_targets(root, edges);
                    assert(t.contains(target_of(root, edges[m])->0));
                    let q = choose|q: int| 0 <= q < t.len() && t[q] == r[i];
                    assert(universe[q] == r[i]);
                }
            }
        }
    }
}

/// The search ends after no more steps than there are imports, and the test file.
proof fn lemma_reach_ends(
    edges: Seq<EdgeView>,
    root: Seq<char>,
    pkg: Seq<char>,
    test: Seq<char>,
) -> (n: nat)
    ensures
        reached(edges, root, pkg, test, n).len() <= n,
        closure_order(edges, root, pkg, test) == reached(edges, root, pkg, test, n),
{
    let n = edges.len() + 1;
    lemma_reached_bound(edges, root, pkg, test, n);
    let m = choose|m: nat| (#[trigger] reached(edges, root, pkg, test, m)).len() <= m;
    assert(reached(edges, root, pkg, test, n).len() <= n);
    if m <= n {
        lemma_reached_stable(edges, root, pkg, test, m, n);
    } else {
        lemma_reached_stable(edges, root, pkg, test, n, m);
    }
    n
}

/// The test file is in its own closure.
pub proof fn closures_hold_their_test(
    edges: Seq<EdgeView>,
    root: Seq<char>,
    pkg: Seq<char>,
    test: Seq<char>,
)
    ensures
        closure_order(edges, root, pkg, test).contains(test),
{
    let n = lemma_reach_ends(edges, root, pkg, test);
    lemma_reached_bound(edges, root, pkg, test, n);
    assert(reached(edges, root, pkg, test, n)[0] == test);
}

/// A closure holds every file of the package that one of its files imports.
pub proof fn closures_follow_every_import(
    edges: Seq<EdgeView>,
    root: Seq<char>,
    pkg: Seq<char>,
    test: Seq<char>,
    i: int,
)
    requires
        0 <= i < edges.len(),
        closure_order(edges, root, pkg, test).contains(edges[i].file),
        stays_inside(root, pkg, edges[i]),
        target_of(root, edges[i]) is Some,
    ensures
        closure_order(edges, root, pkg, test).contains(target_of(root, edges[i])->0),
{
    let n = lemma_reach_ends(edges, root, pkg, test);
    let all = reached(edges, root, pkg, test, n);
    let file = edges[i].file;
    let x = target_of(root, edges[i])->0;
    let k = choose|k: int| 0 <= k < all.len() && all[k] == file;
    let at = reached(edges, root, pkg, test, k as nat);
    let after = reached(edges, root, pkg, test, (k + 1) as nat);
    if at.len() <= k {
        lemma_reached_stable(edges, root, pkg, test, k as nat, n);
    }
    lemma_reached_grows(edges, root, pkg, test, k as nat, n);
    lemma_reached_grows(edges, root, pkg, test, (k + 1) as nat, n);
    assert(all.take(at.len() as int)[k] == at[k]);
    let from = edges_from(edges, file);
    lemma_edges_from(edges, file);
    let j = choose|j: int| 0 <= j < from.len() && from[j] == edges[i];
    assert(stays_inside(root, pkg, from[j]));
    lemma_inner_targets(root, pkg, from, x);
    lemma_append_members(at, inner_targets(root, pkg, from), x);
    let m = choose|m: int| 0 <= m < after.len() && after[m] == x;
    assert(all.take(after.len() as int)[m] == after[m]);
}

/// A closure holds nothing else: every file but the test is imported by a file of the closure,
/// from inside of the package.
pub proof fn closures_need_an_import(
    edges: Seq<EdgeView>,
    root: Seq<char>,
    pkg: Seq<char>,
    test: Seq<char>,
    x: Seq<char>,
)
    requires
        closure_order(edges, root, pkg, test).contains(x),
    ensures
        x == test || exists|i: int|
            0 <= i < edges.len() && closure_order(edges, root, pkg, test).contains(
                (#[trigger] edges[i]).file,
            ) && stays_inside(root, pkg, edges[i]) && target_of(root, edges[i]) == Some(x),
{
    let n = lemma_reach_ends(edges, root, pkg, test);
    lemma_reached_needs(edges, root, pkg, test, x, n, n);
}

proof fn lemma_reached_needs(
    edges: Seq<EdgeView>,
    root: Seq<char>,
    pkg: Seq<char>,
    test: Seq<char>,
    x: Seq<char>,
    m: nat,
    n: nat,
)
    requires
        m <= n,
        reached(edges, root, pkg, test, m).contains(x),
    ensures
        x == test || exists|i: int|
            0 <= i < edges.len() && reached(edges, root, pkg, test, n).contains(
                (#[trigger] edges[i]).file,
            ) && stays_inside(root, pkg, edges[i]) && target_of(root, edges[i]) == Some(x),
    decreases m,
{
    if m > 0 {
        let b = reached(edges, root, pkg, test, (m - 1) as nat);
        if b.contains(x) {
            lemma_reached_needs(edges, root, pkg, test, x, (m - 1) as nat, n);
        } else {
            let file = b[m - 1];
            let from = edges_from(edges, file);
            lemma_append_members(b, inner_targets(root, pkg, from), x);
            lemma_inner_targets(root, pkg, from, x);
            lemma_edges_from(edges, file);
            let k = choose|k: int|
                0 <= k < from.len() && stays_inside(root, pkg, #[trigger] from[k]) && target_of(
                    root,
                    from[k],
                ) == Some(x);
            let i = choose|i: int| 0 <= i < edges.len() && edges[i] == from[k];
            lemma_reached_grows(edges, root, pkg, test, (m - 1) as nat, n);
            let all = reached(edges, root, pkg, test, n);
            assert(all.take(b.len() as int)[m - 1] == all[m - 1]);
            assert(all.contains(edges[i].file));
        }
    } else {
        assert(reached(edges, root, pkg, test, 0) == seq![test]);
    }
}

/// An early escape is the escape of the whole.
proof fn lemma_escape_stays(edges: Seq<EdgeView>, root: Seq<char>, order: Seq<Seq<char>>, k: int)
    requires
        0 <= k <= order.len(),
        escape_of(edges, root, order.take(k)) is Some,
    ensures
        escape_of(edges, root, order) == escape_of(edges, root, order.take(k)),
    decreases order.len() - k,
{
    if k == order.len() {
        assert(order.take(k) =~= order);
    } else {
        assert(order.take(k + 1).drop_last() =~= order.take(k));
        lemma_escape_stays(edges, root, order, k + 1);
    }
}

proof fn lemma_first_escape_stays(root: Seq<char>, edges: Seq<EdgeView>, k: int)
    requires
        0 <= k <= edges.len(),
        first_escape(root, edges.take(k)) is Some,
    ensures
        first_escape(root, edges) == first_escape(root, edges.take(k)),
    decreases edges.len() - k,
{
    if k == edges.len() {
        assert(edges.take(k) =~= edges);
    } else {
        assert(edges.take(k + 1).drop_last() =~= edges.take(k));
        lemma_first_escape_stays(root, edges, k + 1);
    }
}

/// What follows the imports of one file: the files found so far with those it leads to, and the
/// files outside.
fn follow_file(
    list: &Vec<ResolvedEdge>,
    root: &str,
    pkg: &str,
    pkg_dir: &str,
    file: &str,
    order: &mut Vec<String>,
    files: &mut StrSet,
    external: &mut StrSet,
) -> (r: Result<(), OutsideWorkspace>)
    requires
        pkg_dir@ == package_dir(root@, pkg@),
        old(files)@ == texts(old(order)@).to_set(),
    ensures
        ({
            let from = edges_from(edge_views(list@), file@);
            match r {
                Ok(_) => {
                    &&& first_escape(root@, from) is None
                    &&& texts(final(order)@) == append_new(
                        texts(old(order)@),
                        inner_targets(root@, pkg@, from),
                    )
                    &&& final(files)@ == texts(final(order)@).to_set()
                    &&& final(external)@ == old(external)@.union(
                        outer_targets(root@, pkg@, from),
                    )
                },
                Err(e) => first_escape(root@, from) matches Some(edge) && e.file@ == edge.file
                    && e.resolved@ == edge.resolved && e.root@ == root@,
            }
        }),
{
    let ghost edges = edge_views(list@);
    let ghost from = edges_from(edges, file@);
    let ghost start = texts(order@);
    let ghost outside = external@;
    let mut i: usize = 0;
    proof {
        assert(edges.take(0).len() == 0);
        assert(external@ =~= outside.union(Set::<Seq<char>>::empty()));
    }
    while i < list.len()
        invariant
            i <= list.len(),
            edges == edge_views(list@),
            edges.len() == list@.len(),
            from == edges_from(edges, file@),
            pkg_dir@ == package_dir(root@, pkg@),
            first_escape(root@, edges_from(edges.take(i as int), file@)) is None,
            texts(order@) == append_new(
                start,
                inner_targets(root@, pkg@, edges_from(edges.take(i as int), file@)),
            ),
            files@ == texts(order@).to_set(),
            external@ == outside.union(
                outer_targets(root@, pkg@, edges_from(edges.take(i as int), file@)),
            ),
        decreases list.len() - i,
    {
        let e = &list[i];
        let ghost done = edges_from(edges.take(i as int), file@);
        let ghost now = edges_from(edges.take(i + 1), file@);
        proof {
            assert(edges.take(i + 1).drop_last() =~= edges.take(i as int));
            assert(edges.take(i + 1).last() == e@);
        }
        if same(e.file.as_str(), file) {
            assert(now.drop_last() =~= done);
            match strip_base(e.resolved.as_str(), root) {
                None => {
                    proof {
                        lemma_edges_prefix(edges, file@, i as int + 1);
                        lemma_first_escape_stays(root@, from, now.len() as int);
                    }
                    return Err(
                        OutsideWorkspace {
                            file: e.file.clone(),
                            resolved: e.resolved.clone(),
                            root: root.to_owned(),
                        },
                    );
                },
                Some(p) => {
                    let rel = with_slashes(p.as_str());
                    let ghost x = rel@;
                    assert(target_of(root@, e@) == Some(x));
                    let inside = lies_within(e.resolved.as_str(), pkg_dir)
                        && thirdparty_pkg_name_from_path(e.resolved.as_str()).is_none();
                    assert(inside == stays_inside(root@, pkg@, e@));
                    if inside {
                        let ghost so_far = texts(order@);
                        proof {
                            let inner = inner_targets(root@, pkg@, now);
                            assert(inner.drop_last() =~= inner_targets(root@, pkg@, done));
                            assert(inner.last() == x);
                            assert(so_far.to_set().contains(x) <==> so_far.contains(x));
                        }
                        if files.insert(rel.clone()) {
                            order.push(rel);
                            proof {
                                assert(texts(order@) =~= so_far.push(x));
                                assert forall|k: Seq<char>|
                                    texts(order@).to_set().contains(k) <==> so_far.to_set().insert(
                                        x,
                                    ).contains(k) by {
                                    let t = so_far.push(x);
                                    assert(t[so_far.len() as int] == x);
                                    if so_far.contains(k) {
                                        let m = choose|m: int|
                                            0 <= m < so_far.len() && so_far[m] == k;
                                        assert(t[m] == k);
                                    }
                                    if t.contains(k) {
                                        let m = choose|m: int| 0 <= m < t.len() && t[m] == k;
                                        if m < so_far.len() {
                                            assert(so_far[m] == k);
                                        }
                                    }
                                }
                                assert(files@ =~= texts(order@).to_set());
                            }
                        } else {
                            assert(files@ =~= so_far.to_set());
                        }
                    } else {
                        let added = external.insert(rel);
                        assert(external@ =~= outside.union(outer_targets(root@, pkg@, now)));
                    }
                },
            }
        }
        i = i + 1;
    }
    assert(edges.take(i as int) =~= edges);
    Ok(())
}

/// The imports of a file among the first `i` come first among its imports.
proof fn lemma_edges_prefix(edges: Seq<EdgeView>, file: Seq<char>, i: int)
    requires
        0 <= i <= edges.len(),
    ensures
        edges_from(edges.take(i), file).len() <= edges_from(edges, file).len(),
        edges_from(edges, file).take(edges_from(edges.take(i), file).len() as int) == edges_from(
            edges.take(i),
            file,
        ),
    decreases edges.len() - i,
{
    let a = edges_from(edges.take(i), file);
    if i == edges.len() {
        assert(edges.take(i) =~= edges);
        assert(a.take(a.len() as int) =~= a);
    } else {
        lemma_edges_prefix(edges, file, i + 1);
        assert(edges.take(i + 1).drop_last() =~= edges.take(i));
        let b = edges_from(edges.take(i + 1), file);
        assert(b.take(a.len() as int) =~= a);
        assert(edges_from(edges, file).take(a.len() as int) =~= b.take(a.len() as int));
    }
}

fn push_sites(list: &Vec<BareSpecifierSite>, file: &str, out: &mut Vec<BareSpecifierSite>)
    ensures
        bare_views(final(out)@) == bare_views(old(out)@) + sites_from(bare_views(list@), file@),
{
    let ghost all = bare_views(list@);
    let ghost start = bare_views(out@);
    let mut i: usize = 0;
    proof {
        assert(all.take(0).len() == 0);
        assert(bare_views(out@) =~= start + sites_from(all.take(0), file@));
    }
    while i < list.len()
        invariant
            i <= list.len(),
            all == bare_views(list@),
            bare_views(out@) == start + sites_from(all.take(i as int), file@),
        decreases list.len() - i,
    {
        let s = &list[i];
        let ghost before = bare_views(out@);
        proof {
            assert(all.take(i + 1).drop_last() =~= all.take(i as int));
            assert(all.take(i + 1).last() == s@);
        }
        if same(s.file.as_str(), file) {
            out.push(s.copy());
            proof {
                assert(bare_views(out@) =~= before.push(s@));
                assert(before.push(s@) =~= start + sites_from(all.take(i as int), file@).push(s@));
            }
        }
        i = i + 1;
    }
    assert(all.take(i as int) =~= all);
}

/// Finds what a test file of the package `pkg` needs at run time, from the import graph of the
/// package: every file of the package that it leads to, the files outside that these import,
/// and their unresolved bare specifiers. An import that resolves out of the workspace is an
/// error. The root is the canonical path of the workspace.
pub fn build_test_closure(
    graph: &ImportGraph,
    canonical_workspace_root: &str,
    pkg: &str,
    test_file_rel: &str,
) -> (r: Result<TestClosure, OutsideWorkspace>)
    ensures
        ({
            let g = graph.graph();
            let root = canonical_workspace_root@;
            let order = closure_order(g.runtime, root, pkg@, test_file_rel@);
            match r {
                Ok(c) => {
                    &&& escape_of(g.runtime, root, order) is None
                    &&& c.files@ == order.to_set()
                    &&& c.external_files@ == outer_files(g.runtime, root, pkg@, order)
                    &&& bare_views(c.bare_specifiers@) == sites_of(g.bare, order)
                },
                Err(e) => escape_of(g.runtime, root, order) matches Some(edge) && e.file@
                    == edge.file && e.resolved@ == edge.resolved && e.root@ == root,
            }
        }),
{
    let root = canonical_workspace_root;
    let pkg_dir = dir_of_package(root, pkg);
    let ghost edges = graph.graph().runtime;
    let ghost test = test_file_rel@;
    let ghost last = lemma_reach_ends(edges, root@, pkg@, test);
    let ghost whole = closure_order(edges, root@, pkg@, test);
    let mut order: Vec<String> = Vec::new();
    order.push(test_file_rel.to_owned());
    let mut files = StrSet::new();
    let added = files.insert(test_file_rel.to_owned());
    let mut external = StrSet::new();
    let mut bare: Vec<BareSpecifierSite> = Vec::new();
    let mut n: usize = 0;
    proof {
        assert(texts(order@) =~= seq![test]);
        assert(files@ =~= texts(order@).to_set()) by {
            assert forall|k: Seq<char>| seq![test].to_set().contains(k) <==> k == test by {
                assert(seq![test][0] == test);
            }
        }
        assert(texts(order@).take(0).len() == 0);
        assert(bare_views(bare@) =~= Seq::<BareView>::empty());
        assert(external@ =~= Set::<Seq<char>>::empty());
    }
    while n < order.len()
        invariant
            n <= order@.len(),
            edges == graph.graph().runtime,
            test == test_file_rel@,
            root@ == canonical_workspace_root@,
            pkg_dir@ == package_dir(root@, pkg@),
            whole == closure_order(edges, root@, pkg@, test),
            whole == reached(edges, root@, pkg@, test, last),
            reached(edges, root@, pkg@, test, last).len() <= last,
            texts(order@) == reached(edges, root@, pkg@, test, n as nat),
            files@ == texts(order@).to_set(),
            escape_of(edges, root@, texts(order@).take(n as int)) is None,
            external@ == outer_files(edges, root@, pkg@, texts(order@).take(n as int)),
            bare_views(bare@) == sites_of(graph.graph().bare, texts(order@).take(n as int)),
        decreases edges.len() + 1 - n,
    {
        let file = order[n].clone();
        let ghost so_far = texts(order@);
        proof {
            lemma_reached_bound(edges, root@, pkg@, test, n as nat);
            assert(so_far[n as int] == file@);
            assert(so_far.take(n + 1).drop_last() =~= so_far.take(n as int));
            assert(so_far.take(n + 1).last() == file@);
            if last <= n {
                lemma_reached_stable(edges, root@, pkg@, test, last, n as nat);
            }
            lemma_reached_grows(edges, root@, pkg@, test, n as nat, last);
            assert(whole.take(n + 1) =~= so_far.take(n + 1)) by {
                assert forall|k: int| 0 <= k < n + 1 implies whole[k] == so_far[k] by {
                    assert(whole.take(so_far.len() as int)[k] == whole[k]);
                }
            }
        }
        push_sites(&graph.unresolved_bare_specifiers, file.as_str(), &mut bare);
        match follow_file(
            &graph.runtime_edges,
            root,
            pkg,
            pkg_dir.as_str(),
            file.as_str(),
            &mut order,
            &mut files,
            &mut external,
        ) {
            Err(e) => {
                proof {
                    lemma_escape_stays(edges, root@, whole, n + 1);
                }
                return Err(e);
            },
            Ok(_) => {},
        }
        proof {
            lemma_append_new(so_far, inner_targets(root@, pkg@, edges_from(edges, file@)));
            let now = texts(order@);
            assert(now.take(n + 1) =~= so_far.take(n + 1)) by {
                assert forall|k: int| 0 <= k < n + 1 implies now[k] == so_far[k] by {
                    assert(now.take(so_far.len() as int)[k] == now[k]);
                }
            }
        }
        n = n + 1;
    }
    proof {
        let m = n as nat;
        if m <= last {
            lemma_reached_stable(edges, root@, pkg@, test, m, last);
        } else {
            lemma_reached_stable(edges, root@, pkg@, test, last, m);
        }
        assert(texts(order@).take(n as int) =~= texts(order@));
    }
    Ok(TestClosure { files, external_files: external, bare_specifiers: bare })
}

} // verus!
