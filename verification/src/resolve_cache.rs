//! What a module resolver answered, kept so that each question is asked once.
use crate::path::{key_of_path, path_key};
use crate::sorted::StrMap;
use crate::text::to_chars;
use vstd::prelude::*;

verus! {

/// By which rules a specifier is resolved.
#[derive(Debug, Clone, Copy, PartialEq, Eq, Hash, Structural)]
pub enum CacheFlavor {
    RuntimeEsm,
    RuntimeCjs,
    Types,
}

/// What a resolver answers.
#[derive(Debug)]
pub enum ResolveOutcome {
    /// The canonical path of the module.
    Resolved(String),
    /// The module comes with Node.
    Builtin,
    /// No module was found.
    Unresolved,
}

/// What a resolver answers, as mathematical values.
pub enum AnswerView {
    Resolved(Seq<char>),
    Builtin,
    Unresolved,
}

impl View for ResolveOutcome {
    type V = AnswerView;

    open spec fn view(&self) -> AnswerView {
        match self {
            ResolveOutcome::Resolved(p) => AnswerView::Resolved(p@),
            ResolveOutcome::Builtin => AnswerView::Builtin,
            ResolveOutcome::Unresolved => AnswerView::Unresolved,
        }
    }
}

/// A question to a resolver: what a specifier stands for, seen from a file or a directory.
#[derive(Debug)]
pub struct ResolveRequest {
    pub flavor: CacheFlavor,
    pub base: String,
    pub specifier: String,
}

/// A question as mathematical values, the base told apart as a path.
pub struct RequestView {
    pub flavor: CacheFlavor,
    pub base: Seq<char>,
    pub specifier: Seq<char>,
}

impl View for ResolveRequest {
    type V = RequestView;

    open spec fn view(&self) -> RequestView {
        RequestView {
            flavor: self.flavor,
            base: path_key(self.base@),
            specifier: self.specifier@,
        }
    }
}

/// A specifier with a mark before each character and another one at the end, then a path's
/// key: no two pairs give the same text.
spec fn pair_key(specifier: Seq<char>, base: Seq<char>) -> Seq<char>
    decreases specifier.len(),
{
    if specifier.len() == 0 {
        seq!['.'] + base
    } else {
        seq![',', specifier[0]] + pair_key(specifier.drop_first(), base)
    }
}

proof fn lemma_pair_key(s: Seq<char>, b: Seq<char>, t: Seq<char>, c: Seq<char>)
    requires
        pair_key(s, b) == pair_key(t, c),
    ensures
        s == t,
        b == c,
    decreases s.len(),
{
    let x = pair_key(s, b);
    let y = pair_key(t, c);
    if s.len() == 0 {
        assert(x[0] == '.');
        if t.len() > 0 {
            assert(y[0] == ',');
        }
        assert(x.skip(1) =~= b);
        assert(y.skip(1) =~= c);
        assert(s =~= t);
    } else {
        assert(x[0] == ',');
        if t.len() == 0 {
            assert(y[0] == '.');
        }
        assert(x[1] == s[0]);
        assert(y[1] == t[0]);
        assert(x.skip(2) =~= pair_key(s.drop_first(), b));
        assert(y.skip(2) =~= pair_key(t.drop_first(), c));
        lemma_pair_key(s.drop_first(), b, t.drop_first(), c);
        assert(s =~= seq![s[0]] + s.drop_first());
        assert(t =~= seq![t[0]] + t.drop_first());
    }
}

fn make_pair_key(specifier: &str, base: &str) -> (r: String)
    ensures
        r@ == pair_key(specifier@, path_key(base@)),
{
    let v = to_chars(specifier);
    let mut out = String::new();
    let mut i: usize = 0;
    let ghost key = path_key(base@);
    assert(v@.skip(0) =~= specifier@);
    assert(out@ + pair_key(v@.skip(0), key) =~= pair_key(specifier@, key));
    while i < v.len()
        invariant
            i <= v.len(),
            key == path_key(base@),
            out@ + pair_key(v@.skip(i as int), key) == pair_key(specifier@, key),
        decreases v.len() - i,
    {
        let ghost so_far = out@;
        let ghost t = v@.skip(i as int);
        out.push(',');
        out.push(v[i]);
        proof {
            assert(t.drop_first() =~= v@.skip(i + 1));
            assert(t[0] == v@[i as int]);
            assert(out@ + pair_key(v@.skip(i + 1), key) =~= so_far + (seq![',', t[0]] + pair_key(
                t.drop_first(),
                key,
            )));
        }
        i = i + 1;
    }
    let ghost so_far = out@;
    out.push('.');
    out.append(key_of_path(base).as_str());
    proof {
        assert(v@.skip(i as int).len() == 0);
        assert(out@ =~= so_far + (seq!['.'] + key));
    }
    out
}

/// The answers that a resolver has given, by the question.
#[derive(Debug)]
pub struct ResolveCache {
    esm: StrMap<ResolveOutcome>,
    cjs: StrMap<ResolveOutcome>,
    types: StrMap<ResolveOutcome>,
}

spec fn answer_in(m: Map<Seq<char>, AnswerView>, r: RequestView) -> Option<AnswerView> {
    let k = pair_key(r.specifier, r.base);
    if m.dom().contains(k) {
        Some(m[k])
    } else {
        None
    }
}

impl ResolveCache {
    /// The answer to a question, if it was given.
    pub closed spec fn held(&self, r: RequestView) -> Option<AnswerView> {
        match r.flavor {
            CacheFlavor::RuntimeEsm => answer_in(self.esm@, r),
            CacheFlavor::RuntimeCjs => answer_in(self.cjs@, r),
            CacheFlavor::Types => answer_in(self.types@, r),
        }
    }

    /// A cache without answers.
    pub fn new() -> (r: ResolveCache)
        ensures
            forall|q: RequestView| #[trigger] r.held(q) is None,
    {
        ResolveCache { esm: StrMap::new(), cjs: StrMap::new(), types: StrMap::new() }
    }

    /// The answer to a question, if it was given.
    pub fn get(&self, flavor: CacheFlavor, base: &str, specifier: &str) -> (r: Option<
        &ResolveOutcome,
    >)
        ensures
            ({
                let q = RequestView { flavor, base: path_key(base@), specifier: specifier@ };
                match r {
                    Some(o) => self.held(q) == Some(o@),
                    None => self.held(q) is None,
                }
            }),
    {
        let key = make_pair_key(specifier, base);
        match flavor {
            CacheFlavor::RuntimeEsm => self.esm.get(key.as_str()),
            CacheFlavor::RuntimeCjs => self.cjs.get(key.as_str()),
            CacheFlavor::Types => self.types.get(key.as_str()),
        }
    }

    /// Keeps the answer to a question.
    pub fn insert(
        &mut self,
        flavor: CacheFlavor,
        base: &str,
        specifier: &str,
        outcome: ResolveOutcome,
    )
        ensures
            forall|q: RequestView| #[trigger]
                final(self).held(q) == (if q == (RequestView {
                    flavor,
                    base: path_key(base@),
                    specifier: specifier@,
                }) {
                    Some(outcome@)
                } else {
                    old(self).held(q)
                }),
    {
        let key = make_pair_key(specifier, base);
        let ghost r = RequestView { flavor, base: path_key(base@), specifier: specifier@ };
        let ghost was = *self;
        let ghost o = outcome@;
        match flavor {
            CacheFlavor::RuntimeEsm => self.esm.insert(key, outcome),
            CacheFlavor::RuntimeCjs => self.cjs.insert(key, outcome),
            CacheFlavor::Types => self.types.insert(key, outcome),
        }
        proof {
            assert forall|q: RequestView| #[trigger]
                self.held(q) == (if q == r {
                    Some(o)
                } else {
                    was.held(q)
                }) by {
                if q.flavor == flavor && pair_key(q.specifier, q.base) == pair_key(
                    r.specifier,
                    r.base,
                ) {
                    lemma_pair_key(q.specifier, q.base, r.specifier, r.base);
                }
            }
        }
    }
}

} // verus!
