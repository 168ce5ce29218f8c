//! What holds of everything that is found in source files.
use crate::importparse::{dynamic_among, sites_among};
use crate::json::JsonTree;
use crate::source::{
    findings, findings_in, findings_under, in_order, own_findings, placed_in, properties,
    source_findings, FindingView, ModuleContext, SiteView,
};
use vstd::prelude::*;
use vstd::seq_lib::group_to_multiset_ensures;

verus! {

/// The tree that stands in a tree at the end of a path of positions.
pub open spec fn tree_at(t: JsonTree, path: Seq<int>) -> Option<JsonTree>
    decreases path.len(),
{
    if path.len() == 0 {
        Some(t)
    } else {
        match t {
            JsonTree::Array(items) => if 0 <= path[0] < items.len() {
                tree_at(items[path[0]], path.drop_first())
            } else {
                None
            },
            JsonTree::Object(ms) => if 0 <= path[0] < ms.len() {
                tree_at(ms[path[0]].1, path.drop_first())
            } else {
                None
            },
            _ => None,
        }
    }
}

proof fn lemma_in_list(items: Seq<JsonTree>, i: int, x: (u64, FindingView))
    requires
        0 <= i < items.len(),
        findings(items[i]).contains(x),
    ensures
        findings_in(items).contains(x),
    decreases items.len(),
{
    let head = findings_in(items.drop_last());
    let tail = findings(items.last());
    if i < items.len() - 1 {
        lemma_in_list(items.drop_last(), i, x);
        let k = choose|k: int| 0 <= k < head.len() && head[k] == x;
        assert((head + tail)[k] == x);
    } else {
        let k = choose|k: int| 0 <= k < tail.len() && tail[k] == x;
        assert((head + tail)[head.len() + k] == x);
    }
}

proof fn lemma_under_object(ms: Seq<(Seq<char>, JsonTree)>, i: int, x: (u64, FindingView))
    requires
        0 <= i < ms.len(),
        findings(ms[i].1).contains(x),
    ensures
        findings_under(ms).contains(x),
    decreases ms.len(),
{
    let head = findings_under(ms.drop_last());
    let tail = findings(ms.last().1);
    if i < ms.len() - 1 {
        lemma_under_object(ms.drop_last(), i, x);
        let k = choose|k: int| 0 <= k < head.len() && head[k] == x;
        assert((head + tail)[k] == x);
    } else {
        let k = choose|k: int| 0 <= k < tail.len() && tail[k] == x;
        assert((head + tail)[head.len() + k] == x);
    }
}

proof fn lemma_found_at_any_depth(t: JsonTree, path: Seq<int>, x: (u64, FindingView))
    requires
        tree_at(t, path) matches Some(sub) && sub is Object && own_findings(sub).contains(x),
    ensures
        findings(t).contains(x),
    decreases path.len(),
{
    match t {
        JsonTree::Array(items) => {
            lemma_found_at_any_depth(items[path[0]], path.drop_first(), x);
            lemma_in_list(items, path[0], x);
        },
        JsonTree::Object(ms) => {
            let own = own_findings(t);
            let below = findings_under(ms);
            if path.len() == 0 {
                let k = choose|k: int| 0 <= k < own.len() && own[k] == x;
                assert((own + below)[k] == x);
            } else {
                lemma_found_at_any_depth(ms[path[0]].1, path.drop_first(), x);
                lemma_under_object(ms, path[0], x);
                let k = choose|k: int| 0 <= k < below.len() && below[k] == x;
                assert((own + below)[own.len() + k] == x);
            }
        },
        _ => {},
    }
}

proof fn lemma_placing_keeps(list: Seq<(u64, FindingView)>, x: (u64, FindingView))
    ensures
        placed_in(list, x).to_multiset() == list.to_multiset().insert(x),
    decreases list.len(),
{
    broadcast use group_to_multiset_ensures;

    if list.len() > 0 && list.last().0 > x.0 {
        lemma_placing_keeps(list.drop_last(), x);
        assert(list.drop_last().push(list.last()) =~= list);
        assert(placed_in(list, x).to_multiset() =~= list.to_multiset().insert(x));
    }
}

/// Putting findings in the order of the source loses none and adds none.
pub proof fn ordering_keeps_every_finding(list: Seq<(u64, FindingView)>)
    ensures
        in_order(list).to_multiset() == list.to_multiset(),
        in_order(list).len() == list.len(),
    decreases list.len(),
{
    broadcast use group_to_multiset_ensures;

    if list.len() == 0 {
        assert(list =~= Seq::<(u64, FindingView)>::empty());
    } else {
        ordering_keeps_every_finding(list.drop_last());
        lemma_placing_keeps(in_order(list.drop_last()), list.last());
        assert(list.drop_last().push(list.last()) =~= list);
    }
    assert(in_order(list).to_multiset().len() == list.to_multiset().len());
}

/// What a node itself is shows in what the source holds, however deep the node stands.
pub proof fn nothing_nested_is_missed(t: JsonTree, path: Seq<int>, x: (u64, FindingView))
    requires
        tree_at(t, path) matches Some(sub) && sub is Object && own_findings(sub).contains(x),
    ensures
        source_findings(t).contains(x.1),
{
    broadcast use group_to_multiset_ensures;

    lemma_found_at_any_depth(t, path, x);
    ordering_keeps_every_finding(findings(t));
    let list = in_order(findings(t));
    assert(list.to_multiset().count(x) > 0);
    let k = choose|k: int| 0 <= k < list.len() && list[k] == x;
    assert(source_findings(t)[k] == x.1);
}

proof fn lemma_site_among(list: Seq<FindingView>, s: SiteView)
    requires
        list.contains(FindingView::Site(s)),
    ensures
        sites_among(list).contains(s),
    decreases list.len(),
{
    let i = choose|i: int| 0 <= i < list.len() && list[i] == FindingView::Site(s);
    let before = sites_among(list.drop_last());
    if i == list.len() - 1 {
        assert(sites_among(list)[before.len() as int] == s);
    } else {
        assert(list.drop_last()[i] == FindingView::Site(s));
        lemma_site_among(list.drop_last(), s);
        let k = choose|k: int| 0 <= k < before.len() && before[k] == s;
        assert(sites_among(list)[k] == s);
    }
}

/// A module that a node names is among the imports of the file, however deep the node stands.
pub proof fn nested_imports_are_imports(t: JsonTree, path: Seq<int>, at: u64, s: SiteView)
    requires
        tree_at(t, path) matches Some(sub) && sub is Object && own_findings(sub).contains(
            (at, FindingView::Site(s)),
        ),
    ensures
        sites_among(source_findings(t)).contains(s),
{
    nothing_nested_is_missed(t, path, (at, FindingView::Site(s)));
    lemma_site_among(source_findings(t), s);
}

proof fn lemma_dynamic_among(list: Seq<FindingView>)
    requires
        list.contains(FindingView::Dynamic),
    ensures
        dynamic_among(list) > 0,
    decreases list.len(),
{
    let i = choose|i: int| 0 <= i < list.len() && list[i] == FindingView::Dynamic;
    if i < list.len() - 1 {
        assert(list.drop_last()[i] == FindingView::Dynamic);
        lemma_dynamic_among(list.drop_last());
    }
}

/// A dynamic import of something other than a string literal is never dropped: it counts,
/// however deep it stands.
pub proof fn dynamic_imports_are_counted(t: JsonTree, path: Seq<int>, at: u64)
    requires
        tree_at(t, path) matches Some(sub) && sub is Object && own_findings(sub).contains(
            (at, FindingView::Dynamic),
        ),
    ensures
        dynamic_among(source_findings(t)) > 0,
{
    nothing_nested_is_missed(t, path, (at, FindingView::Dynamic));
    lemma_dynamic_among(source_findings(t));
}

/// Whether no finding is a `require` that imports types.
pub open spec fn requires_are_of_values(list: Seq<(u64, FindingView)>) -> bool {
    forall|i: int|
        0 <= i < list.len() ==> ((#[trigger] list[i]).1 matches FindingView::Site(s) ==> (s.context
            == ModuleContext::Cjs ==> !s.type_only))
}

proof fn lemma_properties_are_no_sites(items: Seq<JsonTree>)
    ensures
        requires_are_of_values(properties(items)),
    decreases items.len(),
{
    if items.len() > 0 {
        lemma_properties_are_no_sites(items.drop_last());
    }
}

proof fn lemma_requires_in_list(items: Seq<JsonTree>)
    ensures
        requires_are_of_values(findings_in(items)),
    decreases items,
{
    if items.len() > 0 {
        lemma_requires_in_list(items.drop_last());
        only_values_are_required(items.last());
    }
}

proof fn lemma_requires_under_object(ms: Seq<(Seq<char>, JsonTree)>)
    ensures
        requires_are_of_values(findings_under(ms)),
    decreases ms,
{
    if ms.len() > 0 {
        lemma_requires_under_object(ms.drop_last());
        only_values_are_required(ms.last().1);
    }
}

/// Types are only imported by the rules of ES modules: a `require` always is of a value.
pub proof fn only_values_are_required(t: JsonTree)
    ensures
        requires_are_of_values(findings(t)),
    decreases t,
{
    match t {
        JsonTree::Array(items) => {
            lemma_requires_in_list(items);
        },
        JsonTree::Object(ms) => {
            lemma_requires_under_object(ms);
            if own_findings(t).len() > 0 {
                lemma_properties_are_no_sites(
                    crate::source::elements(t, "properties"@),
                );
            }
        },
        _ => {},
    }
}

/// Findings stand in the order of the source.
pub proof fn findings_stand_in_order(list: Seq<(u64, FindingView)>, i: int, j: int)
    requires
        0 <= i <= j < in_order(list).len(),
    ensures
        in_order(list)[i].0 <= in_order(list)[j].0,
    decreases list.len(),
{
    if list.len() > 0 {
        let before = in_order(list.drop_last());
        assert forall|a: int, b: int| 0 <= a <= b < before.len() implies (#[trigger] before[a]).0
            <= (#[trigger] before[b]).0 by {
            findings_stand_in_order(list.drop_last(), a, b);
        }
        lemma_placed_in_order(before, list.last());
    }
}

proof fn lemma_placed_in_order(list: Seq<(u64, FindingView)>, x: (u64, FindingView))
    requires
        forall|a: int, b: int|
            0 <= a <= b < list.len() ==> (#[trigger] list[a]).0 <= (#[trigger] list[b]).0,
    ensures
        forall|a: int, b: int|
            0 <= a <= b < placed_in(list, x).len() ==> (#[trigger] placed_in(list, x)[a]).0 <= (
            #[trigger] placed_in(list, x)[b]).0,
        placed_in(list, x).len() == list.len() + 1,
        forall|a: int|
            0 <= a < placed_in(list, x).len() ==> (#[trigger] placed_in(list, x)[a]).0 <= x.0
                || list.len() > 0 && placed_in(list, x)[a].0 <= list.last().0,
    decreases list.len(),
{
    let t = placed_in(list, x);
    if list.len() > 0 && list.last().0 > x.0 {
        let rest = list.drop_last();
        assert forall|a: int, b: int| 0 <= a <= b < rest.len() implies (#[trigger] rest[a]).0 <= (
        #[trigger] rest[b]).0 by {
            assert(rest[a] == list[a] && rest[b] == list[b]);
        }
        lemma_placed_in_order(rest, x);
        let u = placed_in(rest, x);
        assert(list.last() == list[list.len() - 1]);
        assert(rest.len() > 0 ==> rest.last() == list[list.len() - 2]);
        assert(t == u.push(list.last()));
        assert forall|a: int| 0 <= a < u.len() implies (#[trigger] u[a]).0 <= list.last().0 by {}
    } else {
        assert(t == list.push(x));
        assert forall|a: int| 0 <= a < list.len() implies (#[trigger] list[a]).0 <= x.0 by {
            assert(list[a].0 <= list[list.len() - 1].0);
        }
    }
}

/// The imports among findings are those of each part, one after the other, and so are the counts
/// of those that name no module by a text.
pub proof fn imports_of_parts_add_up(a: Seq<FindingView>, b: Seq<FindingView>)
    ensures
        sites_among(a + b) == sites_among(a) + sites_among(b),
        dynamic_among(a + b) == dynamic_among(a) + dynamic_among(b),
        dynamic_among(seq![FindingView::Dynamic]) == 1,
    decreases b.len(),
{
    assert(seq![FindingView::Dynamic].drop_last() =~= Seq::<FindingView>::empty());
    assert(dynamic_among(Seq::<FindingView>::empty()) == 0);
    assert(seq![FindingView::Dynamic].last() is Dynamic);
    if b.len() == 0 {
        assert(a + b =~= a);
        assert(sites_among(a) + sites_among(b) =~= sites_among(a));
    } else {
        imports_of_parts_add_up(a, b.drop_last());
        assert((a + b).drop_last() =~= a + b.drop_last());
        assert(sites_among(a + b) =~= sites_among(a) + sites_among(b));
    }
}

} // verus!
