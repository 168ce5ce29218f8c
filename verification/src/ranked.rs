//! Lists of texts in lexicographic order, and sets of such lists.
use crate::sorted::{
    before, lemma_before_irreflexive, lemma_before_total, lemma_before_transitive, rank, Rank,
};
use crate::text::texts;
use vstd::prelude::*;

verus! {

/// Lexicographic order of lists of texts.
pub open spec fn list_before(a: Seq<Seq<char>>, b: Seq<Seq<char>>) -> bool
    decreases a.len(),
{
    if b.len() == 0 {
        false
    } else if a.len() == 0 {
        true
    } else if a[0] != b[0] {
        before(a[0], b[0])
    } else {
        list_before(a.drop_first(), b.drop_first())
    }
}

proof fn lemma_list_irreflexive(a: Seq<Seq<char>>)
    ensures
        !list_before(a, a),
    decreases a.len(),
{
    if a.len() > 0 {
        lemma_list_irreflexive(a.drop_first());
    }
}

proof fn lemma_list_transitive(a: Seq<Seq<char>>, b: Seq<Seq<char>>, c: Seq<Seq<char>>)
    requires
        list_before(a, b),
        list_before(b, c),
    ensures
        list_before(a, c),
    decreases a.len(),
{
    if a.len() > 0 {
        if a[0] == b[0] && b[0] == c[0] {
            lemma_list_transitive(a.drop_first(), b.drop_first(), c.drop_first());
        } else if a[0] != b[0] && b[0] != c[0] {
            lemma_before_transitive(a[0], b[0], c[0]);
            lemma_before_irreflexive(a[0]);
        }
    }
}

/// Lists in strictly increasing order.
pub open spec fn lists_increasing(s: Seq<Seq<Seq<char>>>) -> bool {
    forall|i: int, j: int| 0 <= i < j < s.len() ==> list_before(#[trigger] s[i], #[trigger] s[j])
}

/// The texts of the lists of a sequence.
pub open spec fn list_texts(v: Seq<Vec<String>>) -> Seq<Seq<Seq<char>>> {
    v.map_values(|l: Vec<String>| texts(l@))
}

/// Where `a` stands to `b`.
pub fn list_rank(a: &Vec<String>, b: &Vec<String>) -> (r: Rank)
    ensures
        r is Before <==> list_before(texts(a@), texts(b@)),
        r is Same <==> texts(a@) == texts(b@),
        r is After <==> list_before(texts(b@), texts(a@)),
{
    let ghost x = texts(a@);
    let ghost y = texts(b@);
    let mut i: usize = 0;
    proof {
        assert(x.skip(0) =~= x);
        assert(y.skip(0) =~= y);
        lemma_list_irreflexive(x);
        lemma_list_irreflexive(y);
    }
    while i < a.len() && i < b.len()
        invariant
            i <= a.len(),
            i <= b.len(),
            x == texts(a@),
            y == texts(b@),
            !list_before(x, x),
            !list_before(y, y),
            x.take(i as int) == y.take(i as int),
            list_before(x, y) == list_before(x.skip(i as int), y.skip(i as int)),
            list_before(y, x) == list_before(y.skip(i as int), x.skip(i as int)),
        decreases a.len() - i,
    {
        let ghost xs = x.skip(i as int);
        let ghost ys = y.skip(i as int);
        assert(xs[0] == a@[i as int]@);
        assert(ys[0] == b@[i as int]@);
        proof {
            lemma_before_irreflexive(xs[0]);
            lemma_before_total(xs[0], ys[0]);
        }
        match rank(a[i].as_str(), b[i].as_str()) {
            Rank::Before => {
                proof {
                    if before(ys[0], xs[0]) {
                        lemma_before_transitive(xs[0], ys[0], xs[0]);
                    }
                }
                return Rank::Before;
            },
            Rank::After => {
                proof {
                    if before(xs[0], ys[0]) {
                        lemma_before_transitive(xs[0], ys[0], xs[0]);
                    }
                }
                return Rank::After;
            },
            Rank::Same => {
                assert(xs.drop_first() =~= x.skip(i + 1));
                assert(ys.drop_first() =~= y.skip(i + 1));
                assert(x.take(i + 1) =~= x.take(i as int).push(x[i as int]));
                assert(y.take(i + 1) =~= y.take(i as int).push(y[i as int]));
                i = i + 1;
            },
        }
    }
    if a.len() == b.len() {
        assert(x.take(i as int) =~= x);
        assert(y.take(i as int) =~= y);
        Rank::Same
    } else if i == a.len() {
        Rank::Before
    } else {
        Rank::After
    }
}

/// A set of lists of strings, held in increasing order.
pub struct ListSet {
    items: Vec<Vec<String>>,
}

impl ListSet {
    /// The members in increasing order.
    pub closed spec fn seq(&self) -> Seq<Seq<Seq<char>>> {
        list_texts(self.items@)
    }

    #[verifier::type_invariant]
    spec fn ordered(&self) -> bool {
        lists_increasing(list_texts(self.items@))
    }

    /// The empty set.
    pub fn new() -> (r: ListSet)
        ensures
            r@ == Set::<Seq<Seq<char>>>::empty(),
    {
        let r = ListSet { items: Vec::new() };
        assert(r@ =~= Set::<Seq<Seq<char>>>::empty());
        r
    }

    /// The members in order.
    pub fn into_items(self) -> (r: Vec<Vec<String>>)
        ensures
            lists_increasing(list_texts(r@)),
            list_texts(r@).to_set() == self@,
    {
        proof {
            use_type_invariant(&self);
        }
        self.items
    }

    /// Adds a list.
    pub fn insert(&mut self, list: Vec<String>)
        ensures
            final(self)@ == old(self)@.insert(texts(list@)),
    {
        proof {
            use_type_invariant(&*self);
        }
        let ghost s = self.seq();
        let ghost k = texts(list@);
        let mut at: usize = 0;
        while at < self.items.len()
            invariant
                at <= self.items.len(),
                s == self.seq(),
                s.len() == self.items@.len(),
                k == texts(list@),
                lists_increasing(s),
                forall|j: int| 0 <= j < at ==> list_before(#[trigger] s[j], k),
                *self == *old(self),
            ensures
                at < s.len() ==> list_before(k, s[at as int]),
            decreases self.items.len() - at,
        {
            assert(s[at as int] == texts(self.items@[at as int]@));
            match list_rank(&self.items[at], &list) {
                Rank::Before => {
                    at = at + 1;
                },
                Rank::Same => {
                    assert(s.contains(k));
                    assert(self@ =~= old(self)@.insert(k));
                    return ;
                },
                Rank::After => {
                    break;
                },
            }
        }
        proof {
            assert forall|j: int| at <= j < s.len() implies list_before(k, #[trigger] s[j]) by {
                assert(s[at as int] == texts(self.items@[at as int]@));
                if j > at {
                    lemma_list_transitive(k, s[at as int], s[j]);
                }
            }
        }
        let mut items: Vec<Vec<String>> = Vec::new();
        std::mem::swap(&mut items, &mut self.items);
        items.insert(at, list);
        proof {
            let t = list_texts(items@);
            assert(t =~= s.insert(at as int, k));
            assert forall|i: int, j: int| 0 <= i < j < t.len() implies list_before(
                #[trigger] t[i],
                #[trigger] t[j],
            ) by {
                let x = if i < at { i } else { i - 1 };
                let y = if j < at { j } else { j - 1 };
                if i != at && j != at {
                    assert(t[i] == s[x] && t[j] == s[y]);
                } else if i == at {
                    assert(t[j] == s[y]);
                } else {
                    assert(t[i] == s[x]);
                }
            }
            assert forall|x: Seq<Seq<char>>|
                t.to_set().contains(x) <==> s.to_set().insert(k).contains(x) by {
                if t.contains(x) {
                    let i = choose|i: int| 0 <= i < t.len() && t[i] == x;
                    if i != at {
                        assert(s[if i < at { i } else { i - 1 }] == x);
                    }
                }
                if s.contains(x) {
                    let i = choose|i: int| 0 <= i < s.len() && s[i] == x;
                    assert(t[if i < at { i } else { i + 1 }] == x);
                }
                assert(t[at as int] == k);
            }
        }
        self.items = items;
        assert(self@ =~= old(self)@.insert(k));
    }
}

impl View for ListSet {
    type V = Set<Seq<Seq<char>>>;

    open spec fn view(&self) -> Set<Seq<Seq<char>>> {
        self.seq().to_set()
    }
}

} // verus!
