//! Sets and maps of strings that keep their keys in order.
use crate::text::texts;
use vstd::prelude::*;

verus! {

/// Lexicographic order of texts by character.
pub open spec fn before(a: Seq<char>, b: Seq<char>) -> bool
    decreases a.len(),
{
    if b.len() == 0 {
        false
    } else if a.len() == 0 {
        true
    } else if a[0] != b[0] {
        a[0] < b[0]
    } else {
        before(a.drop_first(), b.drop_first())
    }
}

/// No text stands before itself.
pub proof fn lemma_before_irreflexive(a: Seq<char>)
    ensures
        !before(a, a),
    decreases a.len(),
{
    if a.len() > 0 {
        lemma_before_irreflexive(a.drop_first());
    }
}

/// The order of texts is transitive.
pub proof fn lemma_before_transitive(a: Seq<char>, b: Seq<char>, c: Seq<char>)
    requires
        before(a, b),
        before(b, c),
    ensures
        before(a, c),
    decreases a.len(),
{
    if a.len() > 0 && a[0] == b[0] && b[0] == c[0] {
        lemma_before_transitive(a.drop_first(), b.drop_first(), c.drop_first());
    }
}

/// Of two different texts one stands before the other.
pub proof fn lemma_before_total(a: Seq<char>, b: Seq<char>)
    ensures
        a == b || before(a, b) || before(b, a),
    decreases a.len(),
{
    if a.len() > 0 && b.len() > 0 && a[0] == b[0] {
        lemma_before_total(a.drop_first(), b.drop_first());
        if a.drop_first() == b.drop_first() {
            assert(a =~= seq![a[0]] + a.drop_first());
            assert(b =~= seq![b[0]] + b.drop_first());
        }
    } else if a.len() == 0 && b.len() == 0 {
        assert(a =~= b);
    }
}

/// Where one text stands to another.
#[derive(Clone, Copy, PartialEq, Eq, Structural, Debug)]
pub enum Rank {
    Before,
    Same,
    After,
}

/// Where `a` stands to `b`.
pub fn rank(a: &str, b: &str) -> (r: Rank)
    ensures
        r is Before <==> before(a@, b@),
        r is Same <==> a@ == b@,
        r is After <==> before(b@, a@),
{
    let mut ai = a.chars();
    let mut bi = b.chars();
    let ghost mut ar = a@;
    let ghost mut br = b@;
    let ghost mut head = Seq::<char>::empty();
    assert(head + ar =~= a@);
    assert(head + br =~= b@);
    loop
        invariant
            ar == vstd::std_specs::iter::IteratorSpec::remaining(&ai),
            br == vstd::std_specs::iter::IteratorSpec::remaining(&bi),
            head + ar == a@,
            head + br == b@,
            before(a@, b@) == before(ar, br),
            before(b@, a@) == before(br, ar),
            vstd::std_specs::iter::IteratorSpec::obeys_prophetic_iter_laws(&ai),
            vstd::std_specs::iter::IteratorSpec::obeys_prophetic_iter_laws(&bi),
        decreases ar.len(),
    {
        let x = ai.next();
        let y = bi.next();
        proof {
            lemma_before_irreflexive(a@);
            lemma_before_irreflexive(b@);
        }
        match (x, y) {
            (None, None) => {
                assert(ar =~= br);
                return Rank::Same;
            },
            (None, Some(_)) => {
                return Rank::Before;
            },
            (Some(_), None) => {
                return Rank::After;
            },
            (Some(c), Some(d)) => {
                if c != d {
                    if c < d {
                        return Rank::Before;
                    }
                    return Rank::After;
                }
                proof {
                    assert(head.push(c) + ar.drop_first() =~= head + ar);
                    assert(head.push(c) + br.drop_first() =~= head + br);
                    head = head.push(c);
                    ar = ar.drop_first();
                    br = br.drop_first();
                }
            },
        }
    }
}

/// Texts in strictly increasing order.
pub open spec fn increasing(s: Seq<Seq<char>>) -> bool {
    forall|i: int, j: int| 0 <= i < j < s.len() ==> before(#[trigger] s[i], #[trigger] s[j])
}

/// Increasing texts are all different.
pub proof fn lemma_increasing_distinct(s: Seq<Seq<char>>)
    requires
        increasing(s),
    ensures
        s.no_duplicates(),
{
    assert forall|i: int, j: int| 0 <= i < s.len() && 0 <= j < s.len() && i != j implies s[i]
        != s[j] by {
        lemma_before_irreflexive(s[i]);
    }
}

/// A set of texts has one increasing listing.
pub proof fn lemma_increasing_unique(a: Seq<Seq<char>>, b: Seq<Seq<char>>)
    requires
        increasing(a),
        increasing(b),
        forall|k: Seq<char>| a.contains(k) <==> b.contains(k),
    ensures
        a == b,
    decreases a.len(),
{
    if a.len() == 0 {
        if b.len() > 0 {
            assert(b.contains(b[0]));
            assert(a.contains(b[0]));
        }
        assert(a =~= b);
    } else {
        assert(a.contains(a[0]));
        assert(b.contains(a[0]));
        assert(b.contains(b[0]));
        assert(a.contains(b[0]));
        let i = choose|i: int| 0 <= i < b.len() && b[i] == a[0];
        let j = choose|j: int| 0 <= j < a.len() && a[j] == b[0];
        if i > 0 && j > 0 {
            assert(before(b[0], b[i]));
            assert(before(a[0], a[j]));
            lemma_before_transitive(a[0], b[0], a[0]);
            lemma_before_irreflexive(a[0]);
        }
        assert(a[0] == b[0]);
        let x = a.drop_first();
        let y = b.drop_first();
        assert(increasing(x)) by {
            assert forall|i: int, j: int| 0 <= i < j < x.len() implies before(x[i], x[j]) by {
                assert(before(a[i + 1], a[j + 1]));
            }
        }
        assert(increasing(y)) by {
            assert forall|i: int, j: int| 0 <= i < j < y.len() implies before(y[i], y[j]) by {
                assert(before(b[i + 1], b[j + 1]));
            }
        }
        lemma_increasing_distinct(a);
        lemma_increasing_distinct(b);
        assert forall|k: Seq<char>| x.contains(k) <==> y.contains(k) by {
            if x.contains(k) {
                let n = choose|n: int| 0 <= n < x.len() && x[n] == k;
                assert(a[n + 1] == k);
                assert(a.contains(k));
                assert(b.contains(k));
                let m = choose|m: int| 0 <= m < b.len() && b[m] == k;
                assert(y[m - 1] == k);
            }
            if y.contains(k) {
                let n = choose|n: int| 0 <= n < y.len() && y[n] == k;
                assert(b[n + 1] == k);
                assert(b.contains(k));
                assert(a.contains(k));
                let m = choose|m: int| 0 <= m < a.len() && a[m] == k;
                assert(x[m - 1] == k);
            }
        }
        lemma_increasing_unique(x, y);
        assert(a =~= seq![a[0]] + x);
        assert(b =~= seq![b[0]] + y);
    }
}

/// The members of a set of texts in increasing order.
pub open spec fn listing(s: Set<Seq<char>>) -> Seq<Seq<char>> {
    choose|l: Seq<Seq<char>>| increasing(l) && l.to_set() == s
}

/// An increasing sequence is the listing of its members.
pub proof fn lemma_listing(l: Seq<Seq<char>>)
    requires
        increasing(l),
    ensures
        listing(l.to_set()) == l,
{
    let m = listing(l.to_set());
    assert(increasing(l) && l.to_set() == l.to_set());
    assert(increasing(m) && m.to_set() == l.to_set());
    assert forall|k: Seq<char>| l.contains(k) <==> m.contains(k) by {
        assert(l.to_set().contains(k) <==> l.contains(k));
        assert(m.to_set().contains(k) <==> m.contains(k));
    }
    lemma_increasing_unique(l, m);
}

/// A set of strings, held in increasing order.
#[derive(Debug)]
pub struct StrSet {
    items: Vec<String>,
}

impl StrSet {
    /// The members in increasing order.
    pub closed spec fn seq(&self) -> Seq<Seq<char>> {
        texts(self.items@)
    }

    #[verifier::type_invariant]
    spec fn ordered(&self) -> bool {
        increasing(texts(self.items@))
    }

    /// The empty set.
    pub fn new() -> (r: StrSet)
        ensures
            r.seq() == Seq::<Seq<char>>::empty(),
            r@ == Set::<Seq<char>>::empty(),
    {
        let r = StrSet { items: Vec::new() };
        assert(texts(r.items@) =~= Seq::<Seq<char>>::empty());
        assert(r@ =~= Set::<Seq<char>>::empty());
        r
    }

    /// What every set of strings holds true: its members are listed in order.
    pub(crate) fn facts(&self)
        ensures
            increasing(self.seq()),
            self.seq().no_duplicates(),
            self@.finite(),
            listing(self@) == self.seq(),
    {
        proof {
            use_type_invariant(self);
            lemma_increasing_distinct(self.seq());
            lemma_listing(self.seq());
        }
    }

    /// How many members there are.
    pub fn len(&self) -> (r: usize)
        ensures
            r == self.seq().len(),
    {
        self.items.len()
    }

    /// The member at position `i`.
    pub fn at(&self, i: usize) -> (r: &String)
        requires
            i < self.seq().len(),
        ensures
            r@ == self.seq()[i as int],
    {
        &self.items[i]
    }

    /// The members as strings, in order.
    pub fn items(&self) -> (r: &Vec<String>)
        ensures
            texts(r@) == self.seq(),
    {
        &self.items
    }

    /// The members as strings, in order.
    pub fn into_items(self) -> (r: Vec<String>)
        ensures
            texts(r@) == self.seq(),
    {
        self.items
    }

    /// Where `key` stands, and whether it is there.
    pub fn locate(&self, key: &str) -> (r: (usize, bool))
        ensures
            r.0 <= self.seq().len(),
            r.1 <==> self@.contains(key@),
            r.1 ==> r.0 < self.seq().len() && self.seq()[r.0 as int] == key@,
            forall|j: int| 0 <= j < r.0 ==> before(#[trigger] self.seq()[j], key@),
            !r.1 ==> forall|j: int|
                r.0 <= j < self.seq().len() ==> before(key@, #[trigger] self.seq()[j]),
    {
        proof {
            use_type_invariant(self);
        }
        let ghost s = self.seq();
        let mut lo: usize = 0;
        let mut hi: usize = self.items.len();
        while lo < hi
            invariant
                lo <= hi <= self.items.len(),
                s == self.seq(),
                s.len() == self.items.len(),
                increasing(s),
                forall|j: int| 0 <= j < lo ==> before(#[trigger] s[j], key@),
                forall|j: int| hi <= j < s.len() ==> before(key@, #[trigger] s[j]),
            decreases hi - lo,
        {
            let mid: usize = lo + (hi - lo) / 2;
            assert(s[mid as int] == self.items@[mid as int]@);
            match rank(self.items[mid].as_str(), key) {
                Rank::Same => {
                    assert(s.contains(key@));
                    assert forall|j: int| 0 <= j < mid implies before(#[trigger] s[j], key@) by {}
                    return (mid, true);
                },
                Rank::Before => {
                    assert forall|j: int| 0 <= j < mid + 1 implies before(
                        #[trigger] s[j],
                        key@,
                    ) by {
                        if j < mid {
                            lemma_before_transitive(s[j], s[mid as int], key@);
                        }
                    }
                    lo = mid + 1;
                },
                Rank::After => {
                    assert forall|j: int| mid <= j < s.len() implies before(
                        key@,
                        #[trigger] s[j],
                    ) by {
                        if j > mid {
                            lemma_before_transitive(key@, s[mid as int], s[j]);
                        }
                    }
                    hi = mid;
                },
            }
        }
        proof {
            if s.contains(key@) {
                let k = choose|k: int| 0 <= k < s.len() && s[k] == key@;
                lemma_before_irreflexive(key@);
                assert(before(s[k], key@) || before(key@, s[k]));
            }
        }
        (lo, false)
    }

    /// Whether `key` is a member.
    pub fn contains(&self, key: &str) -> (r: bool)
        ensures
            r == self@.contains(key@),
    {
        self.locate(key).1
    }

    /// Adds `key`; tells whether it was new.
    pub fn insert(&mut self, key: String) -> (r: bool)
        ensures
            final(self)@ == old(self)@.insert(key@),
            r == !old(self)@.contains(key@),
    {
        proof {
            use_type_invariant(&*self);
        }
        let (at, found) = self.locate(key.as_str());
        if found {
            assert(self@ =~= old(self)@.insert(key@));
            return false;
        }
        proof {
            lemma_insert_members(self.seq(), at as int, key@);
        }
        self.insert_at(at, key);
        true
    }

    /// Puts `key` at the position where it belongs.
    fn insert_at(&mut self, at: usize, key: String)
        requires
            at <= old(self).seq().len(),
            forall|j: int| 0 <= j < at ==> before(#[trigger] old(self).seq()[j], key@),
            forall|j: int|
                at <= j < old(self).seq().len() ==> before(key@, #[trigger] old(self).seq()[j]),
        ensures
            final(self).seq() == old(self).seq().insert(at as int, key@),
    {
        proof {
            use_type_invariant(&*self);
        }
        let ghost s = self.seq();
        let ghost k = key@;
        let mut items: Vec<String> = Vec::new();
        std::mem::swap(&mut items, &mut self.items);
        items.insert(at, key);
        proof {
            lemma_insert_increasing(s, at as int, k);
            assert(texts(items@) =~= s.insert(at as int, k));
        }
        self.items = items;
    }
}

impl View for StrSet {
    type V = Set<Seq<char>>;

    open spec fn view(&self) -> Set<Seq<char>> {
        self.seq().to_set()
    }
}

impl Clone for StrSet {
    fn clone(&self) -> (r: StrSet)
        ensures
            r.seq() == self.seq(),
            r@ == self@,
    {
        proof {
            use_type_invariant(self);
        }
        let items = self.items.clone();
        proof {
            assert(texts(items@) =~= texts(self.items@));
        }
        StrSet { items }
    }
}

/// A map from strings, its keys held in increasing order.
#[derive(Debug)]
pub struct StrMap<V> {
    keys: StrSet,
    vals: Vec<V>,
}

impl<V> StrMap<V> {
    #[verifier::type_invariant]
    spec fn paired(&self) -> bool {
        &&& self.keys.seq().len() == self.vals@.len()
        &&& increasing(self.keys.seq())
    }
}

impl<V: View> StrMap<V> {
    /// The keys in increasing order.
    pub closed spec fn keys(&self) -> Seq<Seq<char>> {
        self.keys.seq()
    }

    /// The values, each at the position of its key.
    pub closed spec fn values(&self) -> Seq<V::V> {
        self.vals@.map_values(|v: V| v@)
    }

    /// The empty map.
    pub fn new() -> (r: StrMap<V>)
        ensures
            r@ == Map::<Seq<char>, V::V>::empty(),
            r.keys() == Seq::<Seq<char>>::empty(),
    {
        let r = StrMap { keys: StrSet::new(), vals: Vec::new() };
        assert(r@ =~= Map::<Seq<char>, V::V>::empty());
        r
    }

    /// What every map from strings holds true: each key has its value, in order.
    pub(crate) fn facts(&self)
        ensures
            increasing(self.keys()),
            self.keys().no_duplicates(),
            self.keys().len() == self.values().len(),
            self.keys().to_set() == self@.dom(),
            listing(self@.dom()) == self.keys(),
            self@.dom().finite(),
            forall|i: int|
                0 <= i < self.keys().len() ==> self@.dom().contains(#[trigger] self.keys()[i])
                    && self@[self.keys()[i]] == self.values()[i],
    {
        proof {
            use_type_invariant(self);
            lemma_increasing_distinct(self.keys());
            lemma_listing(self.keys());
            lemma_map_of(self.keys(), self.values());
        }
    }

    /// How many keys there are.
    pub fn len(&self) -> (r: usize)
        ensures
            r == self.keys().len(),
    {
        self.keys.len()
    }

    /// Whether there is no key.
    pub fn is_empty(&self) -> (r: bool)
        ensures
            r == (self@.dom() == Set::<Seq<char>>::empty()),
    {
        self.facts();
        let n: usize = self.keys.len();
        proof {
            if n == 0 {
                assert(self.keys().to_set() =~= Set::<Seq<char>>::empty());
            } else {
                assert(self@.dom().contains(self.keys()[0]));
            }
        }
        n == 0
    }

    /// The key at position `i`.
    pub fn key_at(&self, i: usize) -> (r: &String)
        requires
            i < self.keys().len(),
        ensures
            r@ == self.keys()[i as int],
    {
        self.keys.at(i)
    }

    /// The value at position `i`.
    pub fn value_at(&self, i: usize) -> (r: &V)
        requires
            i < self.keys().len(),
        ensures
            r@ == self.values()[i as int],
    {
        proof {
            use_type_invariant(self);
        }
        &self.vals[i]
    }

    /// The value of `key`.
    pub fn get(&self, key: &str) -> (r: Option<&V>)
        ensures
            r is Some <==> self@.dom().contains(key@),
            r matches Some(v) ==> v@ == self@[key@],
    {
        self.facts();
        let (at, found) = self.keys.locate(key);
        if found {
            proof {
                use_type_invariant(self);
                assert(self.keys()[at as int] == key@);
            }
            Some(&self.vals[at])
        } else {
            None
        }
    }

    /// Whether `key` has a value.
    pub fn contains_key(&self, key: &str) -> (r: bool)
        ensures
            r == self@.dom().contains(key@),
    {
        self.facts();
        self.keys.contains(key)
    }

    /// Gives `key` the value `value`.
    pub fn insert(&mut self, key: String, value: V)
        ensures
            final(self)@ == old(self)@.insert(key@, value@),
    {
        self.facts();
        proof {
            use_type_invariant(&*self);
        }
        let ghost ks = self.keys();
        let ghost vs = self.values();
        let ghost k = key@;
        let ghost v = value@;
        let (at, found) = self.keys.locate(key.as_str());
        let mut was = StrMap { keys: StrSet::new(), vals: Vec::new() };
        std::mem::swap(&mut was, self);
        let mut keys = was.keys;
        let mut vals = was.vals;
        if found {
            vals.set(at, value);
            proof {
                let nv = vals@.map_values(|x: V| x@);
                assert(nv =~= vs.update(at as int, v));
                lemma_map_of(ks, vs);
                lemma_map_of(ks, nv);
                assert(map_of(ks, nv) =~= map_of(ks, vs).insert(k, v));
            }
        } else {
            keys.insert_at(at, key);
            vals.insert(at, value);
            proof {
                let nk = ks.insert(at as int, k);
                let nv = vals@.map_values(|x: V| x@);
                assert(nv =~= vs.insert(at as int, v));
                lemma_insert_increasing(ks, at as int, k);
                lemma_map_insert(ks, vs, at as int, k, v);
            }
        }
        *self = StrMap { keys, vals };
    }

    /// Gives `key` the value `value` unless it has one.
    pub fn insert_if_absent(&mut self, key: String, value: V)
        ensures
            final(self)@ == (if old(self)@.dom().contains(key@) {
                old(self)@
            } else {
                old(self)@.insert(key@, value@)
            }),
    {
        if !self.contains_key(key.as_str()) {
            self.insert(key, value);
        }
    }
}

impl<V: View> View for StrMap<V> {
    type V = Map<Seq<char>, V::V>;

    open spec fn view(&self) -> Map<Seq<char>, V::V> {
        map_of(self.keys(), self.values())
    }
}

/// The map that gives each key the value at its position.
pub open spec fn map_of<T>(keys: Seq<Seq<char>>, values: Seq<T>) -> Map<Seq<char>, T> {
    Map::new(|k: Seq<char>| keys.contains(k), |k: Seq<char>| values[keys.index_of(k)])
}

/// With distinct keys, each key's value is the one at its position.
pub proof fn lemma_map_of<T>(keys: Seq<Seq<char>>, values: Seq<T>)
    requires
        increasing(keys),
    ensures
        map_of(keys, values).dom() == keys.to_set(),
        forall|i: int|
            0 <= i < keys.len() ==> map_of(keys, values)[#[trigger] keys[i]] == values[i],
{
    lemma_increasing_distinct(keys);
    assert(map_of(keys, values).dom() =~= keys.to_set());
    assert forall|i: int| 0 <= i < keys.len() implies map_of(keys, values)[#[trigger] keys[i]]
        == values[i] by {
        assert(keys.contains(keys[i]));
        let j = keys.index_of(keys[i]);
        assert(keys[j] == keys[i]);
    }
}

/// Inserting a key with its value where they belong extends the map by that key.
pub proof fn lemma_map_insert<T>(
    keys: Seq<Seq<char>>,
    values: Seq<T>,
    at: int,
    k: Seq<char>,
    v: T,
)
    requires
        increasing(keys),
        keys.len() == values.len(),
        0 <= at <= keys.len(),
        increasing(keys.insert(at, k)),
    ensures
        map_of(keys.insert(at, k), values.insert(at, v)) == map_of(keys, values).insert(k, v),
{
    let nk = keys.insert(at, k);
    let nv = values.insert(at, v);
    lemma_map_of(keys, values);
    lemma_map_of(nk, nv);
    lemma_insert_members(keys, at, k);
    assert forall|x: Seq<char>| nk.contains(x) implies map_of(nk, nv)[x] == map_of(
        keys,
        values,
    ).insert(k, v)[x] by {
        let i = choose|i: int| 0 <= i < nk.len() && nk[i] == x;
        assert(map_of(nk, nv)[nk[i]] == nv[i]);
        assert(nk[at] == k);
        if i != at {
            lemma_increasing_distinct(nk);
            let j = if i < at { i } else { i - 1 };
            assert(keys[j] == x && values[j] == nv[i]);
        }
    }
    assert(map_of(nk, nv) =~= map_of(keys, values).insert(k, v));
}

/// Inserting a text where it belongs keeps the order.
pub proof fn lemma_insert_increasing(s: Seq<Seq<char>>, at: int, k: Seq<char>)
    requires
        increasing(s),
        0 <= at <= s.len(),
        forall|j: int| 0 <= j < at ==> before(#[trigger] s[j], k),
        forall|j: int| at <= j < s.len() ==> before(k, #[trigger] s[j]),
    ensures
        increasing(s.insert(at, k)),
{
    let t = s.insert(at, k);
    assert forall|i: int, j: int| 0 <= i < j < t.len() implies before(
        #[trigger] t[i],
        #[trigger] t[j],
    ) by {
        let x = if i < at { i } else { i - 1 };
        let y = if j < at { j } else { j - 1 };
        if i != at && j != at {
            assert(t[i] == s[x] && t[j] == s[y]);
        } else if i == at {
            assert(t[j] == s[y]);
        } else {
            assert(t[i] == s[x]);
        }
    }
}

/// Inserting adds exactly the one member.
pub proof fn lemma_insert_members(s: Seq<Seq<char>>, at: int, k: Seq<char>)
    requires
        0 <= at <= s.len(),
    ensures
        s.insert(at, k).to_set() == s.to_set().insert(k),
{
    let t = s.insert(at, k);
    assert forall|x: Seq<char>| t.to_set().contains(x) <==> s.to_set().insert(k).contains(x) by {
        if t.contains(x) {
            let i = choose|i: int| 0 <= i < t.len() && t[i] == x;
            if i != at {
                assert(s[if i < at { i } else { i - 1 }] == x);
            }
        }
        if s.contains(x) {
            let i = choose|i: int| 0 <= i < s.len() && s[i] == x;
            assert(t[if i < at { i } else { i + 1 }] == x);
        }
        assert(t[at] == k);
    }
    assert(t.to_set() =~= s.to_set().insert(k));
}

} // verus!
