//! Which patterns are sure to be read, and which are refused.
use crate::glob::{
    added, after, after_plain, after_symbol, in_choice, in_sequence, reading, released, safe_glob,
    when_repeated, Branch, Extent, Held, Level, Part, Reading, LEAF_WEIGHT, MAX_WEIGHT,
};
use vstd::prelude::*;

verus! {

/// Whether an extent is bounded from below.
pub open spec fn from_below(e: Extent) -> bool {
    e == Extent::Bounded || e == Extent::AtLeast
}

/// Whether an extent is bounded from above.
pub open spec fn from_above(e: Extent) -> bool {
    e == Extent::Bounded || e == Extent::AtMost
}

/// Alternatives are bounded where each of them is; a repetition is bounded from below where what
/// it repeats is and it has to occur, and from above where what it repeats is and it ends.
pub proof fn bounds_of_branches(a: Extent, b: Extent, from_zero: bool, endless: bool)
    ensures
        from_below(in_choice(a, b)) <==> from_below(a) && from_below(b),
        from_above(in_choice(a, b)) <==> from_above(a) && from_above(b),
        from_below(when_repeated(a, from_zero, endless)) <==> from_below(a) && !from_zero,
        from_above(when_repeated(a, from_zero, endless)) <==> from_above(a) && !endless,
{
}

/// A sequence does not depend on the order of its parts, and has no answer just where a part
/// with only a lower bound meets one with only an upper bound. Where it has one, it is bounded
/// on both sides only if both parts are.
pub proof fn bounds_of_sequences(a: Extent, b: Extent)
    ensures
        in_sequence(a, b) == in_sequence(b, a),
        in_sequence(a, b) is None <==> (a == Extent::AtLeast && b == Extent::AtMost || a
            == Extent::AtMost && b == Extent::AtLeast),
        in_sequence(a, b) == Some(Extent::Bounded) <==> a == Extent::Bounded && b
            == Extent::Bounded,
        in_sequence(a, Extent::Bounded) == Some(
            if a == Extent::Open {
                Extent::AtLeast
            } else {
                a
            },
        ),
{
}

/// Whether a character opens no branch, class, flag or escape, and closes none.
pub open spec fn unbranched(c: char) -> bool {
    c != '\\' && c != '[' && c != ']' && c != '{' && c != '}' && c != '<' && c != '>' && c != '('
        && c != ')' && c != ',' && c != ':'
}

/// How many characters are held.
spec fn held_count(h: Held) -> int {
    match h {
        Held::Nothing | Held::Tree => 0,
        Held::Slash | Held::Star => 1,
        Held::SlashStar => 2,
    }
}

/// Whether a level is a sequence that any simple part can follow.
spec fn simple(l: Level, n: int) -> bool {
    &&& l.branch == Branch::Whole
    &&& n >= 0
    &&& l.chain matches Some(p) ==> p.extent != Extent::AtMost && p.weight <= LEAF_WEIGHT * n
        && p.height <= 7
}

spec fn simple_reading(s: Reading, n: int) -> bool {
    &&& s.outer.len() == 0
    &&& s.mode is Plain
    &&& simple(s.level, n - held_count(s.held))
}

proof fn lemma_simple_added(s: Reading, p: Part, several: bool, n: int)
    requires
        s.outer.len() == 0,
        s.mode is Plain,
        simple(s.level, n),
        p.extent == Extent::Bounded || p.extent == Extent::Open,
        p.weight == LEAF_WEIGHT,
        p.height <= 7,
        LEAF_WEIGHT * (n + 1) <= MAX_WEIGHT,
    ensures
        added(s, p, several) matches Some(t) && t.outer.len() == 0 && t.mode is Plain && t.held
            == s.held && simple(t.level, n + 1),
{
}

proof fn lemma_simple_released(s: Reading, n: int)
    requires
        simple_reading(s, n),
        LEAF_WEIGHT * n <= MAX_WEIGHT,
    ensures
        released(s) matches Some(t) && t.held == Held::Nothing && simple_reading(t, n),
{
    let free = Reading { held: Held::Nothing, ..s };
    let slash = crate::glob::separator();
    let star = crate::glob::some_characters();
    match s.held {
        Held::Nothing | Held::Tree => {},
        Held::Slash => lemma_simple_added(free, slash, false, n - 1),
        Held::Star => lemma_simple_added(free, star, false, n - 1),
        Held::SlashStar => {
            lemma_simple_added(free, slash, false, n - 2);
            lemma_simple_added(added(free, slash, false)->0, star, false, n - 1);
        },
    }
}

proof fn lemma_simple_step(s: Reading, c: char, n: int)
    requires
        simple_reading(s, n),
        unbranched(c),
        LEAF_WEIGHT * (n + 1) <= MAX_WEIGHT,
    ensures
        after(s, c) matches Some(t) && simple_reading(t, n + 1),
{
    if c == '*' {
        match s.held {
            Held::Star | Held::SlashStar => {
                let tree = Reading { held: Held::Tree, ..s };
                lemma_simple_added(
                    tree,
                    crate::glob::some_components(),
                    false,
                    n - held_count(s.held),
                );
            },
            _ => {},
        }
    } else if c == '/' && s.held == Held::Tree {
    } else {
        lemma_simple_released(s, n);
        let t = released(s)->0;
        if c == '/' {
        } else if c == '?' {
            lemma_simple_added(t, crate::glob::one_character(), false, n);
        } else if c == '$' {
            lemma_simple_added(t, crate::glob::some_characters(), false, n);
        } else {
            lemma_simple_added(t, crate::glob::literal(), true, n);
        }
        assert(c != '/' ==> after(s, c) == after_symbol(t, c));
    }
    assert(after(s, c) == after_plain(s, c));
}

proof fn lemma_simple_reading(p: Seq<char>)
    requires
        forall|i: int| 0 <= i < p.len() ==> unbranched(#[trigger] p[i]),
        LEAF_WEIGHT * p.len() <= MAX_WEIGHT,
    ensures
        reading(p) matches Some(s) && simple_reading(s, p.len() as int),
    decreases p.len(),
{
    if p.len() > 0 {
        let q = p.drop_last();
        assert forall|i: int| 0 <= i < q.len() implies unbranched(#[trigger] q[i]) by {
            assert(q[i] == p[i]);
        }
        lemma_simple_reading(q);
        assert(unbranched(p[p.len() - 1]));
        lemma_simple_step(reading(q)->0, p.last(), q.len() as int);
    }
}

/// A pattern of ordinary characters, separators and wildcards is safe, unless it is of a length
/// that no pattern has.
pub proof fn patterns_without_branches_are_safe(p: Seq<char>)
    requires
        forall|i: int| 0 <= i < p.len() ==> unbranched(#[trigger] p[i]),
        LEAF_WEIGHT * p.len() <= MAX_WEIGHT,
    ensures
        safe_glob(p),
{
    lemma_simple_reading(p);
    lemma_simple_released(reading(p)->0, p.len() as int);
}

/// Whether something is left open when a pattern ends.
pub open spec fn left_open(s: Reading) -> bool {
    s.outer.len() > 0 || !(s.mode is Plain)
}

proof fn lemma_never_read_again(p: Seq<char>, more: Seq<char>)
    requires
        reading(p) is None,
    ensures
        reading(p + more) is None,
    decreases more.len(),
{
    if more.len() == 0 {
        assert(p + more =~= p);
    } else {
        lemma_never_read_again(p, more.drop_last());
        assert((p + more).drop_last() =~= p + more.drop_last());
    }
}

/// What cannot be read cannot be mended by going on, and a pattern that leaves a branch or the
/// like open is refused.
pub proof fn unfinished_patterns_are_refused(p: Seq<char>, more: Seq<char>)
    ensures
        reading(p) is None ==> !safe_glob(p + more),
        reading(p) matches Some(s) ==> (left_open(s) ==> !safe_glob(p)),
{
    if reading(p) is None {
        lemma_never_read_again(p, more);
    }
}

} // verus!
