//! What taking text apart and putting it together have to do with each other.
use crate::hashing::{hex, hex_digit};
use crate::text::{
    digit, digits, find_char, is_space, joined, lemma_find_char, lemma_find_char_is,
    lemma_word_start, replaced, space_end_trimmed, space_start_trimmed, space_trimmed, split_on,
    word_start, words,
};
use vstd::prelude::*;

verus! {

/// Whether `part` stands in `whole` somewhere.
pub open spec fn stands_in(part: Seq<char>, whole: Seq<char>) -> bool {
    exists|i: int|
        0 <= i && i + part.len() <= whole.len() && #[trigger] whole.subrange(
            i,
            i + part.len() as int,
        ) == part
}

pub proof fn lemma_stands_between(before: Seq<char>, part: Seq<char>, after: Seq<char>)
    ensures
        stands_in(part, before + part + after),
{
    let whole = before + part + after;
    let i: int = before.len() as int;
    assert(whole.subrange(i, i + part.len() as int) =~= part);
}

pub proof fn lemma_stands_deeper(
    part: Seq<char>,
    inner: Seq<char>,
    before: Seq<char>,
    after: Seq<char>,
)
    requires
        stands_in(part, inner),
    ensures
        stands_in(part, before + inner + after),
{
    let n = part.len() as int;
    let i = choose|i: int|
        0 <= i && i + n <= inner.len() && #[trigger] inner.subrange(i, i + n) == part;
    let whole = before + inner + after;
    let j: int = before.len() + i;
    assert(whole.subrange(j, j + n) =~= inner.subrange(i, i + n));
}

pub proof fn lemma_joined_front(first: Seq<char>, rest: Seq<Seq<char>>, sep: Seq<char>)
    requires
        rest.len() > 0,
    ensures
        joined(seq![first] + rest, sep) == first + sep + joined(rest, sep),
    decreases rest.len(),
{
    let all = seq![first] + rest;
    if rest.len() == 1 {
        assert(all.drop_last() =~= seq![first]);
        assert(joined(all.drop_last(), sep) == first);
        assert(all.last() == rest[0]);
    } else {
        assert(all.drop_last() =~= seq![first] + rest.drop_last());
        lemma_joined_front(first, rest.drop_last(), sep);
        assert(joined(all, sep) =~= first + sep + joined(rest, sep));
    }
}

/// A text is what its pieces make when they are put together again, and no piece holds the
/// character that it was taken apart at.
pub proof fn pieces_join_back(s: Seq<char>, c: char)
    ensures
        joined(split_on(s, c), seq![c]) == s,
        split_on(s, c).len() > 0,
        forall|i: int|
            0 <= i < split_on(s, c).len() ==> !(#[trigger] split_on(s, c)[i]).contains(c),
    decreases s.len(),
{
    lemma_find_char(s, c);
    let i = find_char(s, c);
    if i < s.len() {
        let rest = s.skip(i + 1);
        pieces_join_back(rest, c);
        lemma_joined_front(s.take(i), split_on(rest, c), seq![c]);
        assert(s =~= s.take(i) + seq![c] + rest);
        let all = split_on(s, c);
        assert forall|k: int| 0 <= k < all.len() implies !(#[trigger] all[k]).contains(c) by {
            if k > 0 {
                assert(all[k] == split_on(rest, c)[k - 1]);
            }
        }
    }
}

/// Pieces that do not hold the separator come back when what they make is taken apart.
pub proof fn joined_pieces_split_back(list: Seq<Seq<char>>, c: char)
    requires
        list.len() > 0,
        forall|i: int| 0 <= i < list.len() ==> !(#[trigger] list[i]).contains(c),
    ensures
        split_on(joined(list, seq![c]), c) == list,
    decreases list.len(),
{
    let s = joined(list, seq![c]);
    let first = list[0];
    if list.len() == 1 {
        lemma_find_char(s, c);
        assert(!list[0].contains(c));
        assert(split_on(s, c) =~= list);
    } else {
        let rest = list.drop_first();
        assert(list =~= seq![first] + rest);
        lemma_joined_front(first, rest, seq![c]);
        assert forall|i: int| 0 <= i < rest.len() implies !(#[trigger] rest[i]).contains(c) by {
            assert(rest[i] == list[i + 1]);
        }
        joined_pieces_split_back(rest, c);
        let n = first.len() as int;
        assert forall|j: int| 0 <= j < n implies s[j] != c by {
            assert(s[j] == first[j]);
            assert(!list[0].contains(c));
        }
        assert(s[n] == c);
        lemma_find_char_is(s, c, n);
        assert(s.take(n) =~= first);
        assert(s.skip(n + 1) =~= joined(rest, seq![c]));
        assert(split_on(s, c) =~= list);
    }
}

/// Replacing a character changes it wherever it stands, and nothing else.
pub proof fn replacing_touches_one_character(s: Seq<char>, from: char, to: char, i: int)
    requires
        0 <= i < s.len(),
    ensures
        replaced(s, from, to).len() == s.len(),
        s[i] == from ==> replaced(s, from, to)[i] == to,
        s[i] != from ==> replaced(s, from, to)[i] == s[i],
        from != to ==> !replaced(s, from, to).contains(from),
{
}

/// Whether a text is white space.
pub open spec fn blank(s: Seq<char>) -> bool {
    forall|i: int| 0 <= i < s.len() ==> is_space(#[trigger] s[i])
}

proof fn lemma_end_trimmed(s: Seq<char>) -> (after: Seq<char>)
    ensures
        s == space_end_trimmed(s) + after,
        blank(after),
        space_end_trimmed(s).len() > 0 ==> !is_space(space_end_trimmed(s).last()),
    decreases s.len(),
{
    if s.len() > 0 && is_space(s.last()) {
        let after = lemma_end_trimmed(s.drop_last());
        assert(s.drop_last() == space_end_trimmed(s) + after);
        assert(s =~= s.drop_last().push(s.last()));
        assert(s =~= space_end_trimmed(s) + after.push(s.last()));
        after.push(s.last())
    } else {
        assert(s =~= s + Seq::<char>::empty());
        Seq::empty()
    }
}

proof fn lemma_start_trimmed(s: Seq<char>) -> (before: Seq<char>)
    ensures
        s == before + space_start_trimmed(s),
        blank(before),
        space_start_trimmed(s).len() > 0 ==> !is_space(space_start_trimmed(s)[0]),
        space_start_trimmed(s).len() > 0 ==> space_start_trimmed(s).last() == s.last(),
    decreases s.len(),
{
    if s.len() > 0 && is_space(s[0]) {
        let before = lemma_start_trimmed(s.drop_first());
        assert(s.drop_first() == before + space_start_trimmed(s));
        assert(s =~= seq![s[0]] + s.drop_first());
        assert(s =~= (seq![s[0]] + before) + space_start_trimmed(s));
        seq![s[0]] + before
    } else {
        assert(s =~= Seq::<char>::empty() + s);
        Seq::empty()
    }
}

/// Trimming takes white space away at both ends, all of it, and nothing else.
pub proof fn trimming_takes_white_space_away(s: Seq<char>) -> (around: (Seq<char>, Seq<char>))
    ensures
        s == around.0 + space_trimmed(s) + around.1,
        blank(around.0),
        blank(around.1),
        space_trimmed(s).len() > 0 ==> !is_space(space_trimmed(s)[0]) && !is_space(
            space_trimmed(s).last(),
        ),
        space_trimmed(s).len() == 0 <==> blank(s),
{
    let end = space_end_trimmed(s);
    let after = lemma_end_trimmed(s);
    let before = lemma_start_trimmed(end);
    assert(s =~= before + space_trimmed(s) + after);
    if space_trimmed(s).len() == 0 {
        assert forall|i: int| 0 <= i < s.len() implies is_space(#[trigger] s[i]) by {
            if i < before.len() {
                assert(s[i] == before[i]);
            } else {
                assert(s[i] == after[i - before.len()]);
            }
        }
    } else {
        assert(s[before.len() as int] == space_trimmed(s)[0]);
    }
    (before, after)
}

/// Whether a text is one word.
pub open spec fn is_word(s: Seq<char>) -> bool {
    s.len() > 0 && forall|i: int| 0 <= i < s.len() ==> !is_space(#[trigger] s[i])
}

proof fn lemma_last_word(s: Seq<char>)
    ensures
        0 <= word_start(s) <= s.len(),
        forall|i: int| word_start(s) <= i < s.len() ==> !is_space(#[trigger] s[i]),
        word_start(s) > 0 ==> is_space(s[word_start(s) - 1]),
    decreases s.len(),
{
    if s.len() > 0 && !is_space(s.last()) {
        let t = s.drop_last();
        lemma_last_word(t);
        assert forall|i: int| word_start(s) <= i < s.len() implies !is_space(#[trigger] s[i]) by {
            if i < t.len() {
                assert(t[i] == s[i]);
            }
        }
        if word_start(s) > 0 {
            assert(t[word_start(s) - 1] == s[word_start(s) - 1]);
        }
    }
}

/// Every word is one, and stands in the text.
pub proof fn words_are_words(s: Seq<char>, i: int)
    requires
        0 <= i < words(s).len(),
    ensures
        is_word(words(s)[i]),
        stands_in(words(s)[i], s),
    decreases s.len(),
{
    if s.len() > 0 && is_space(s.last()) {
        words_are_words(s.drop_last(), i);
        assert(s =~= Seq::<char>::empty() + s.drop_last() + seq![s.last()]);
        lemma_stands_deeper(words(s)[i], s.drop_last(), Seq::empty(), seq![s.last()]);
    } else if s.len() > 0 {
        lemma_word_start(s);
        lemma_last_word(s);
        let k = word_start(s);
        let w = s.skip(k);
        if i < words(s.take(k)).len() {
            words_are_words(s.take(k), i);
            assert(s =~= Seq::<char>::empty() + s.take(k) + w);
            lemma_stands_deeper(words(s)[i], s.take(k), Seq::empty(), w);
        } else {
            assert(s =~= s.take(k) + w + Seq::<char>::empty());
            lemma_stands_between(s.take(k), w, Seq::empty());
        }
    }
}

proof fn lemma_word_start_is(s: Seq<char>, i: int)
    requires
        0 <= i <= s.len(),
        forall|j: int| i <= j < s.len() ==> !is_space(#[trigger] s[j]),
        i > 0 ==> is_space(s[i - 1]),
    ensures
        word_start(s) == i,
    decreases s.len(),
{
    if i < s.len() {
        let t = s.drop_last();
        assert forall|j: int| i <= j < t.len() implies !is_space(#[trigger] t[j]) by {
            assert(t[j] == s[j]);
        }
        lemma_word_start_is(t, i);
        assert(!is_space(s[s.len() - 1]));
    }
}

/// Words with a space between them come back when what they make is taken apart.
pub proof fn spaced_words_come_back(list: Seq<Seq<char>>)
    requires
        forall|i: int| 0 <= i < list.len() ==> is_word(#[trigger] list[i]),
    ensures
        words(joined(list, " "@)) == list,
    decreases list.len(),
{
    reveal_strlit(" ");
    let s = joined(list, " "@);
    if list.len() == 1 {
        assert(is_word(list[0]));
        lemma_word_start_is(s, 0);
        assert(!is_space(s[s.len() - 1]));
        assert(s.take(0) =~= Seq::<char>::empty());
        assert(s.skip(0) =~= s);
        assert(words(s.take(0)) =~= Seq::<Seq<char>>::empty());
        assert(words(s) == words(s.take(0)).push(s));
        assert(words(s) =~= list);
    } else if list.len() > 1 {
        let rest = list.drop_last();
        let w = list.last();
        assert(is_word(list[list.len() - 1]));
        assert forall|i: int| 0 <= i < rest.len() implies is_word(#[trigger] rest[i]) by {
            assert(rest[i] == list[i]);
        }
        spaced_words_come_back(rest);
        let t = joined(rest, " "@);
        let k: int = t.len() as int + 1;
        assert(" "@ =~= seq![' ']);
        assert(s == t + " "@ + w);
        assert(s.skip(k) =~= w);
        assert(s.take(k) =~= t.push(' '));
        assert forall|j: int| k <= j < s.len() implies !is_space(#[trigger] s[j]) by {
            assert(s[j] == w[j - k]);
        }
        assert(s[k - 1] == ' ');
        lemma_word_start_is(s, k);
        assert(!is_space(s[s.len() - 1]));
        assert(s.take(k).last() == ' ');
        assert(s.take(k).drop_last() =~= t);
        assert(words(s.take(k)) == words(t));
        assert(words(s) =~= list);
    }
}

/// A number is told by its decimal digits.
pub proof fn decimals_tell_numbers_apart(a: nat, b: nat)
    requires
        digits(a) == digits(b),
    ensures
        a == b,
    decreases a,
{
    if a < 10 && b < 10 {
        assert(digits(a) == seq![digit(a)] && digits(b) == seq![digit(b)]);
        assert(seq![digit(a)][0] == seq![digit(b)][0]);
        assert(digit(a) == digit(b));
    } else {
        lemma_digits_some(a / 10);
        lemma_digits_some(b / 10);
        assert(digits(a).len() >= 2 && digits(b).len() >= 2);
        assert(digits(a).last() == digit(a % 10));
        assert(digits(b).last() == digit(b % 10));
        assert(digits(a).drop_last() =~= digits(a / 10));
        assert(digits(b).drop_last() =~= digits(b / 10));
        decimals_tell_numbers_apart(a / 10, b / 10);
        assert(digit(a % 10) == digit(b % 10));
        lemma_one_digit(a % 10, b % 10);
    }
}

proof fn lemma_one_digit(a: nat, b: nat)
    requires
        a < 10,
        b < 10,
        digit(a) == digit(b),
    ensures
        a == b,
{
}

proof fn lemma_one_hex_digit(a: nat, b: nat)
    requires
        a < 16,
        b < 16,
        hex_digit(a) == hex_digit(b),
    ensures
        a == b,
{
}

proof fn lemma_digits_some(n: nat)
    ensures
        digits(n).len() > 0,
        n < 10 ==> digits(n).len() == 1,
    decreases n,
{
}

/// A number is told by its hexadecimal digits.
pub proof fn hexadecimals_tell_numbers_apart(a: nat, b: nat)
    requires
        hex(a) == hex(b),
    ensures
        a == b,
    decreases a,
{
    if a < 16 && b < 16 {
        assert(hex(a) == seq![hex_digit(a)] && hex(b) == seq![hex_digit(b)]);
        assert(seq![hex_digit(a)][0] == seq![hex_digit(b)][0]);
        assert(hex_digit(a) == hex_digit(b));
    } else {
        lemma_hex_some(a / 16);
        lemma_hex_some(b / 16);
        assert(hex(a).len() >= 2 && hex(b).len() >= 2);
        assert(hex(a).last() == hex_digit(a % 16));
        assert(hex(b).last() == hex_digit(b % 16));
        assert(hex(a).drop_last() =~= hex(a / 16));
        assert(hex(b).drop_last() =~= hex(b / 16));
        hexadecimals_tell_numbers_apart(a / 16, b / 16);
        assert(hex_digit(a % 16) == hex_digit(b % 16));
        lemma_one_hex_digit(a % 16, b % 16);
    }
}

proof fn lemma_hex_some(n: nat)
    ensures
        hex(n).len() > 0,
        n < 16 ==> hex(n).len() == 1,
    decreases n,
{
}

} // verus!
