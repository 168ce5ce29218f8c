//! What sorting does to a list of texts.
use crate::driver_bundle::bundle_def;
use crate::sorted::{
    before, lemma_before_irreflexive, lemma_before_total, lemma_before_transitive,
};
use crate::sources::{text_placed, texts_sorted};
use crate::target::{Config, ConfigView};
use vstd::prelude::*;
use vstd::relations::{sorted_by, total_ordering};
use vstd::seq_lib::{group_to_multiset_ensures, lemma_sorted_unique};

verus! {

/// The order of texts: a text may stand in front of another that does not come before it.
pub open spec fn text_order() -> spec_fn(Seq<char>, Seq<char>) -> bool {
    |a: Seq<char>, b: Seq<char>| !before(b, a)
}

/// The order of texts is total.
pub proof fn texts_are_ordered()
    ensures
        total_ordering(text_order()),
{
    let leq = text_order();
    assert forall|x: Seq<char>| #[trigger] leq(x, x) by {
        lemma_before_irreflexive(x);
    }
    assert forall|x: Seq<char>, y: Seq<char>| #[trigger] leq(x, y) && #[trigger] leq(
        y,
        x,
    ) implies x == y by {
        lemma_before_total(x, y);
    }
    assert forall|x: Seq<char>, y: Seq<char>, z: Seq<char>| #[trigger] leq(x, y)
        && #[trigger] leq(y, z) implies leq(x, z) by {
        lemma_before_total(x, y);
        lemma_before_total(y, z);
        if before(z, x) {
            if x == y || y == z {
                assert(before(z, y) || before(y, x));
            } else {
                lemma_before_transitive(x, y, z);
                lemma_before_transitive(x, z, x);
                lemma_before_irreflexive(x);
            }
        }
    }
    assert forall|x: Seq<char>, y: Seq<char>| #[trigger] leq(x, y) || #[trigger] leq(y, x) by {
        if before(y, x) && before(x, y) {
            lemma_before_transitive(x, y, x);
            lemma_before_irreflexive(x);
        }
    }
}

proof fn lemma_placed_in_order(list: Seq<Seq<char>>, x: Seq<char>)
    requires
        sorted_by(list, text_order()),
    ensures
        sorted_by(text_placed(list, x), text_order()),
        text_placed(list, x).to_multiset() == list.to_multiset().insert(x),
    decreases list.len(),
{
    broadcast use group_to_multiset_ensures;
    broadcast use vstd::multiset::group_multiset_axioms;

    texts_are_ordered();
    let leq = text_order();
    let out = text_placed(list, x);
    if list.len() == 0 || !before(x, list.last()) {
        assert forall|i: int, j: int| 0 <= i < j < out.len() implies #[trigger] leq(
            out[i],
            out[j],
        ) by {
            if j < list.len() {
                assert(leq(list[i], list[j]));
            } else {
                assert(leq(list.last(), x));
                if i < list.len() - 1 {
                    assert(leq(list[i], list[list.len() - 1]));
                }
            }
        }
    } else {
        let rest = list.drop_last();
        let last = list.last();
        assert forall|i: int, j: int| 0 <= i < j < rest.len() implies #[trigger] leq(
            rest[i],
            rest[j],
        ) by {
            assert(leq(list[i], list[j]));
        }
        lemma_placed_in_order(rest, x);
        let head = text_placed(rest, x);
        assert(rest.push(last) =~= list);
        assert(out.to_multiset() =~= list.to_multiset().insert(x));
        assert forall|i: int, j: int| 0 <= i < j < out.len() implies #[trigger] leq(
            out[i],
            out[j],
        ) by {
            if j < head.len() {
                assert(leq(head[i], head[j]));
            } else {
                assert(head.contains(head[i]));
                assert(head.to_multiset().count(head[i]) > 0);
                if head[i] == x {
                    assert(leq(x, last) || leq(last, x));
                    if before(last, x) {
                        lemma_before_transitive(x, last, x);
                        lemma_before_irreflexive(x);
                    }
                } else {
                    assert(rest.contains(head[i]));
                    let k = choose|k: int| 0 <= k < rest.len() && rest[k] == head[i];
                    assert(leq(list[k], list[list.len() - 1]));
                }
            }
        }
    }
}

/// Sorting puts texts in order, keeping each as often as it was there.
pub proof fn sorting_keeps_every_text(list: Seq<Seq<char>>)
    ensures
        sorted_by(texts_sorted(list), text_order()),
        texts_sorted(list).to_multiset() == list.to_multiset(),
    decreases list.len(),
{
    broadcast use group_to_multiset_ensures;

    if list.len() == 0 {
        assert(list =~= Seq::<Seq<char>>::empty());
    } else {
        sorting_keeps_every_text(list.drop_last());
        lemma_placed_in_order(texts_sorted(list.drop_last()), list.last());
        assert(list.drop_last().push(list.last()) =~= list);
    }
}

/// Lists that hold the same texts are the same once they are sorted.
pub proof fn sorting_forgets_the_order(a: Seq<Seq<char>>, b: Seq<Seq<char>>)
    requires
        a.to_multiset() == b.to_multiset(),
    ensures
        texts_sorted(a) == texts_sorted(b),
{
    sorting_keeps_every_text(a);
    sorting_keeps_every_text(b);
    texts_are_ordered();
    lemma_sorted_unique(texts_sorted(a), texts_sorted(b), text_order());
}

/// The order in which a configuration lists external packages makes no other bundle: the
/// target, and with it what its hash is taken of, is the same.
pub proof fn the_order_of_externals_does_not_matter(
    c: Config,
    a: Seq<Seq<char>>,
    b: Seq<Seq<char>>,
)
    requires
        a.to_multiset() == b.to_multiset(),
    ensures
        bundle_def(c.insert("external"@, ConfigView::List(a))) == bundle_def(
            c.insert("external"@, ConfigView::List(b)),
        ),
{
    sorting_forgets_the_order(a, b);
    reveal_strlit("external");
    reveal_strlit("bundler");
    reveal_strlit("bundler_version");
    reveal_strlit("entry_file");
    reveal_strlit("format");
    reveal_strlit("target");
    reveal_strlit("outdir");
    reveal_strlit("bundler_config_path");
    reveal_strlit("bundler_config_content");
    reveal_strlit("tsconfig_path");
    reveal_strlit("tsconfig_content");
    reveal_strlit("bundler_bin");
}

} // verus!
