//! What the closure of a test file holds besides the files of its package.
use crate::config_scan::BareView;
use crate::importgraph::EdgeView;
use crate::path::{below, slashed, within};
use crate::phantom::third_party;
use crate::sources::package_dir;
use crate::test_closure::{
    closure_order, closures_follow_every_import, edges_from, escape_of, first_escape,
    lemma_edges_from, outer_files, outer_targets, sites_from, sites_of, stays_inside, target_of,
};
use vstd::prelude::*;

verus! {

proof fn lemma_sites_from(sites: Seq<BareView>, file: Seq<char>, b: BareView)
    ensures
        sites_from(sites, file).contains(b) <==> sites.contains(b) && b.file == file,
    decreases sites.len(),
{
    if sites.len() > 0 {
        let rest = sites.drop_last();
        let head = sites_from(rest, file);
        let all = sites_from(sites, file);
        lemma_sites_from(rest, file, b);
        if all.contains(b) {
            let k = choose|k: int| 0 <= k < all.len() && all[k] == b;
            if k < head.len() {
                assert(head[k] == b);
                let i = choose|i: int| 0 <= i < rest.len() && rest[i] == b;
                assert(sites[i] == b);
            } else {
                assert(sites[sites.len() - 1] == b);
            }
        }
        if sites.contains(b) && b.file == file {
            let i = choose|i: int| 0 <= i < sites.len() && sites[i] == b;
            if i < rest.len() {
                assert(rest[i] == b);
                let k = choose|k: int| 0 <= k < head.len() && head[k] == b;
                assert(all[k] == b);
            } else {
                assert(all[head.len() as int] == b);
            }
        }
    }
}

/// The unresolved specifiers of a closure are those of its files: a specifier of another file
/// is none of its business.
pub proof fn closures_hold_the_specifiers_of_their_files(
    sites: Seq<BareView>,
    order: Seq<Seq<char>>,
    b: BareView,
)
    ensures
        sites_of(sites, order).contains(b) <==> sites.contains(b) && order.contains(b.file),
    decreases order.len(),
{
    if order.len() > 0 {
        let rest = order.drop_last();
        let head = sites_of(sites, rest);
        let tail = sites_from(sites, order.last());
        closures_hold_the_specifiers_of_their_files(sites, rest, b);
        lemma_sites_from(sites, order.last(), b);
        if (head + tail).contains(b) {
            let k = choose|k: int| 0 <= k < (head + tail).len() && (head + tail)[k] == b;
            if k < head.len() {
                assert(head[k] == b);
                let i = choose|i: int| 0 <= i < rest.len() && rest[i] == b.file;
                assert(order[i] == b.file);
            } else {
                assert(tail[k - head.len()] == b);
                assert(order[order.len() - 1] == b.file);
            }
        }
        if sites.contains(b) && order.contains(b.file) {
            let i = choose|i: int| 0 <= i < order.len() && order[i] == b.file;
            if i < rest.len() {
                assert(rest[i] == b.file);
                let k = choose|k: int| 0 <= k < head.len() && head[k] == b;
                assert((head + tail)[k] == b);
            } else {
                let k = choose|k: int| 0 <= k < tail.len() && tail[k] == b;
                assert((head + tail)[head.len() + k] == b);
            }
        }
    }
}

/// Whether an import leads out of the package, to the given path of the workspace.
pub open spec fn leads_out(root: Seq<char>, pkg: Seq<char>, e: EdgeView, x: Seq<char>) -> bool {
    target_of(root, e) == Some(x) && !stays_inside(root, pkg, e)
}

proof fn lemma_outer_targets(
    root: Seq<char>,
    pkg: Seq<char>,
    edges: Seq<EdgeView>,
    x: Seq<char>,
)
    ensures
        outer_targets(root, pkg, edges).contains(x) <==> exists|i: int|
            0 <= i < edges.len() && leads_out(root, pkg, #[trigger] edges[i], x),
    decreases edges.len(),
{
    if edges.len() > 0 {
        let rest = edges.drop_last();
        lemma_outer_targets(root, pkg, rest, x);
        if outer_targets(root, pkg, rest).contains(x) {
            let i = choose|i: int|
                0 <= i < rest.len() && leads_out(root, pkg, #[trigger] rest[i], x);
            assert(leads_out(root, pkg, edges[i], x));
        } else if outer_targets(root, pkg, edges).contains(x) {
            assert(leads_out(root, pkg, edges[edges.len() - 1], x));
        }
        if exists|i: int| 0 <= i < edges.len() && leads_out(root, pkg, #[trigger] edges[i], x) {
            let i = choose|i: int|
                0 <= i < edges.len() && leads_out(root, pkg, #[trigger] edges[i], x);
            if i < rest.len() {
                assert(leads_out(root, pkg, rest[i], x));
            }
        }
    }
}

/// The files outside of the package that a closure holds are those that one of its files
/// imports: they are not followed further.
pub proof fn closures_hold_what_their_files_import_from_outside(
    edges: Seq<EdgeView>,
    root: Seq<char>,
    pkg: Seq<char>,
    order: Seq<Seq<char>>,
    x: Seq<char>,
)
    ensures
        outer_files(edges, root, pkg, order).contains(x) <==> exists|i: int|
            0 <= i < edges.len() && order.contains((#[trigger] edges[i]).file) && leads_out(
                root,
                pkg,
                edges[i],
                x,
            ),
    decreases order.len(),
{
    if order.len() > 0 {
        let rest = order.drop_last();
        let last = order.last();
        let from = edges_from(edges, last);
        closures_hold_what_their_files_import_from_outside(edges, root, pkg, rest, x);
        lemma_outer_targets(root, pkg, from, x);
        lemma_edges_from(edges, last);
        if outer_files(edges, root, pkg, rest).contains(x) {
            let i = choose|i: int|
                0 <= i < edges.len() && rest.contains((#[trigger] edges[i]).file) && leads_out(
                    root,
                    pkg,
                    edges[i],
                    x,
                );
            let k = choose|k: int| 0 <= k < rest.len() && rest[k] == edges[i].file;
            assert(order[k] == edges[i].file);
        } else if outer_targets(root, pkg, from).contains(x) {
            let j = choose|j: int|
                0 <= j < from.len() && leads_out(root, pkg, #[trigger] from[j], x);
            let i = choose|i: int| 0 <= i < edges.len() && edges[i] == from[j];
            assert(order[order.len() - 1] == edges[i].file);
        }
        if exists|i: int|
            0 <= i < edges.len() && order.contains((#[trigger] edges[i]).file) && leads_out(
                root,
                pkg,
                edges[i],
                x,
            ) {
            let i = choose|i: int|
                0 <= i < edges.len() && order.contains((#[trigger] edges[i]).file) && leads_out(
                    root,
                    pkg,
                    edges[i],
                    x,
                );
            let k = choose|k: int| 0 <= k < order.len() && order[k] == edges[i].file;
            if k < rest.len() {
                assert(rest[k] == edges[i].file);
            } else {
                let j = choose|j: int| 0 <= j < from.len() && from[j] == edges[i];
                assert(leads_out(root, pkg, from[j], x));
            }
        }
    } else {
        assert forall|i: int| 0 <= i < edges.len() implies !order.contains(
            (#[trigger] edges[i]).file,
        ) by {}
    }
}

/// A file of the package that a file of the closure imports is in the closure itself, unless it
/// belongs to an installed package.
pub proof fn own_files_are_followed(
    edges: Seq<EdgeView>,
    root: Seq<char>,
    pkg: Seq<char>,
    test: Seq<char>,
    i: int,
    x: Seq<char>,
)
    requires
        0 <= i < edges.len(),
        closure_order(edges, root, pkg, test).contains(edges[i].file),
        within(edges[i].resolved, package_dir(root, pkg)),
        third_party(edges[i].resolved) is None,
        below(edges[i].resolved, root) == Some(x),
    ensures
        closure_order(edges, root, pkg, test).contains(slashed(x)),
{
    closures_follow_every_import(edges, root, pkg, test, i);
}

/// What a file of the closure imports from another package, or from an installed one, is listed
/// apart.
pub proof fn files_of_others_are_listed_apart(
    edges: Seq<EdgeView>,
    root: Seq<char>,
    pkg: Seq<char>,
    order: Seq<Seq<char>>,
    i: int,
    x: Seq<char>,
)
    requires
        0 <= i < edges.len(),
        order.contains(edges[i].file),
        !within(edges[i].resolved, package_dir(root, pkg)) || third_party(
            edges[i].resolved,
        ) is Some,
        below(edges[i].resolved, root) == Some(x),
    ensures
        outer_files(edges, root, pkg, order).contains(slashed(x)),
{
    assert(leads_out(root, pkg, edges[i], slashed(x)));
    closures_hold_what_their_files_import_from_outside(edges, root, pkg, order, slashed(x));
}

proof fn lemma_first_escape(root: Seq<char>, edges: Seq<EdgeView>)
    ensures
        match first_escape(root, edges) {
            Some(e) => edges.contains(e) && below(e.resolved, root) is None,
            None => forall|i: int|
                0 <= i < edges.len() ==> below((#[trigger] edges[i]).resolved, root) is Some,
        },
    decreases edges.len(),
{
    if edges.len() > 0 {
        let rest = edges.drop_last();
        lemma_first_escape(root, rest);
        assert(edges[edges.len() - 1] == edges.last());
        match first_escape(root, rest) {
            Some(e) => {
                let k = choose|k: int| 0 <= k < rest.len() && rest[k] == e;
                assert(edges[k] == e);
            },
            None => {
                assert forall|i: int|
                    0 <= i < edges.len() && first_escape(root, edges) is None implies below(
                    (#[trigger] edges[i]).resolved,
                    root,
                ) is Some by {
                    if i < rest.len() {
                        assert(rest[i] == edges[i]);
                    }
                }
            },
        }
    }
}

/// A closure fails just when a file of it imports something that lies outside the workspace, and
/// then tells such an import.
pub proof fn closures_stay_in_the_workspace(
    edges: Seq<EdgeView>,
    root: Seq<char>,
    order: Seq<Seq<char>>,
)
    ensures
        match escape_of(edges, root, order) {
            Some(e) => edges.contains(e) && order.contains(e.file) && below(
                e.resolved,
                root,
            ) is None,
            None => forall|i: int|
                0 <= i < edges.len() && order.contains((#[trigger] edges[i]).file) ==> below(
                    edges[i].resolved,
                    root,
                ) is Some,
        },
    decreases order.len(),
{
    if order.len() > 0 {
        let rest = order.drop_last();
        let from = edges_from(edges, order.last());
        closures_stay_in_the_workspace(edges, root, rest);
        lemma_edges_from(edges, order.last());
        lemma_first_escape(root, from);
        assert(order[order.len() - 1] == order.last());
        match escape_of(edges, root, rest) {
            Some(e) => {
                let k = choose|k: int| 0 <= k < rest.len() && rest[k] == e.file;
                assert(order[k] == e.file);
            },
            None => {
                if let Some(e) = first_escape(root, from) {
                    let k = choose|k: int| 0 <= k < from.len() && from[k] == e;
                    assert(edges.contains(from[k]));
                } else {
                    assert forall|i: int|
                        0 <= i < edges.len() && order.contains(
                            (#[trigger] edges[i]).file,
                        ) implies below(edges[i].resolved, root) is Some by {
                        let k = choose|k: int| 0 <= k < order.len() && order[k] == edges[i].file;
                        if k < rest.len() {
                            assert(rest[k] == edges[i].file);
                            assert(rest.contains(edges[i].file));
                        } else {
                            assert(from.contains(edges[i]));
                            let m = choose|m: int| 0 <= m < from.len() && from[m] == edges[i];
                            assert(below(from[m].resolved, root) is Some);
                        }
                    }
                }
            },
        }
    }
}

} // verus!
