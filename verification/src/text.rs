//! Text as sequences of characters: the operations that the rest of the library
//! builds on, each with its meaning over `Seq<char>`.
use vstd::prelude::*;

verus! {

/// `String::push` of std appends the given character to the end of the string.
pub assume_specification[ String::push ](s: &mut String, ch: char)
    ensures
        final(s)@ == old(s)@.push(ch),
;

/// Position of the first `c` in `s`, or the length of `s` when it holds none.
pub open spec fn find_char(s: Seq<char>, c: char) -> int
    decreases s.len(),
{
    if s.len() == 0 || s[0] == c {
        0
    } else {
        1 + find_char(s.drop_first(), c)
    }
}

/// What `find_char` finds is the first occurrence.
pub proof fn lemma_find_char(s: Seq<char>, c: char)
    ensures
        0 <= find_char(s, c) <= s.len(),
        forall|j: int| 0 <= j < find_char(s, c) ==> s[j] != c,
        find_char(s, c) < s.len() ==> s[find_char(s, c)] == c,
        find_char(s, c) == s.len() <==> !s.contains(c),
    decreases s.len(),
{
    if s.len() == 0 {
    } else if s[0] == c {
        assert(s.contains(c));
    } else {
        let t = s.drop_first();
        lemma_find_char(t, c);
        let n = find_char(s, c);
        assert forall|j: int| 0 <= j < n implies s[j] != c by {
            if j > 0 {
                assert(s[j] == t[j - 1]);
            }
        }
        if s.contains(c) {
            let k = choose|k: int| 0 <= k < s.len() && s[k] == c;
            assert(t[k - 1] == c);
        }
        if n < s.len() {
            assert(s[n] == t[n - 1]);
            assert(s.contains(c));
        }
    }
}

/// An index that is the first occurrence is the one `find_char` gives.
pub proof fn lemma_find_char_is(s: Seq<char>, c: char, i: int)
    requires
        0 <= i <= s.len(),
        forall|j: int| 0 <= j < i ==> s[j] != c,
        i < s.len() ==> s[i] == c,
    ensures
        find_char(s, c) == i,
{
    lemma_find_char(s, c);
    let n = find_char(s, c);
    if n < i {
        assert(s[n] != c);
    } else if i < n {
        assert(s[i] != c);
    }
}

/// `s` up to, and without, its first `c`; all of `s` when it holds none.
pub open spec fn upto_char(s: Seq<char>, c: char) -> Seq<char> {
    s.take(find_char(s, c))
}

/// What follows the first `c` in `s`; empty when it holds none.
pub open spec fn after_char(s: Seq<char>, c: char) -> Seq<char> {
    if find_char(s, c) < s.len() {
        s.skip(find_char(s, c) + 1)
    } else {
        Seq::empty()
    }
}

/// Position of the last `c` in `s`, or `-1` when it holds none.
pub open spec fn find_last_char(s: Seq<char>, c: char) -> int
    decreases s.len(),
{
    if s.len() == 0 {
        -1
    } else if s.last() == c {
        s.len() - 1
    } else {
        find_last_char(s.drop_last(), c)
    }
}

/// What `find_last_char` finds is the last occurrence.
pub proof fn lemma_find_last_char(s: Seq<char>, c: char)
    ensures
        -1 <= find_last_char(s, c) < s.len(),
        forall|j: int| find_last_char(s, c) < j < s.len() ==> s[j] != c,
        find_last_char(s, c) >= 0 ==> s[find_last_char(s, c)] == c,
        find_last_char(s, c) == -1 <==> !s.contains(c),
    decreases s.len(),
{
    if s.len() == 0 {
    } else if s.last() == c {
        assert(s.contains(c));
    } else {
        let t = s.drop_last();
        lemma_find_last_char(t, c);
        let n = find_last_char(s, c);
        assert forall|j: int| n < j < s.len() implies s[j] != c by {
            if j < s.len() - 1 {
                assert(s[j] == t[j]);
            }
        }
        if s.contains(c) {
            let k = choose|k: int| 0 <= k < s.len() && s[k] == c;
            assert(t[k] == c);
        }
        if n >= 0 {
            assert(s[n] == t[n]);
            assert(s.contains(c));
        }
    }
}

/// An index that is the last occurrence is the one `find_last_char` gives.
pub proof fn lemma_find_last_char_is(s: Seq<char>, c: char, i: int)
    requires
        -1 <= i < s.len(),
        forall|j: int| i < j < s.len() ==> s[j] != c,
        i >= 0 ==> s[i] == c,
    ensures
        find_last_char(s, c) == i,
{
    lemma_find_last_char(s, c);
    let n = find_last_char(s, c);
    if n > i {
        assert(s[n] != c);
    } else if i > n {
        assert(s[i] != c);
    }
}

/// The pieces of `s` between the occurrences of `c`, in order; `s` itself when it
/// holds none.
pub open spec fn split_on(s: Seq<char>, c: char) -> Seq<Seq<char>>
    decreases s.len(),
{
    let i = find_char(s, c);
    if 0 <= i < s.len() {
        seq![s.take(i)] + split_on(s.skip(i + 1), c)
    } else {
        seq![s]
    }
}

/// `s` with every `from` replaced by `to`.
pub open spec fn replaced(s: Seq<char>, from: char, to: char) -> Seq<char> {
    s.map_values(|x: char| if x == from { to } else { x })
}

/// `s` without the `c`s that it ends in.
pub open spec fn trim_end_char(s: Seq<char>, c: char) -> Seq<char>
    decreases s.len(),
{
    if s.len() > 0 && s.last() == c {
        trim_end_char(s.drop_last(), c)
    } else {
        s
    }
}

/// `s` without the `c`s that it starts with.
pub open spec fn trim_start_char(s: Seq<char>, c: char) -> Seq<char>
    decreases s.len(),
{
    if s.len() > 0 && s[0] == c {
        trim_start_char(s.drop_first(), c)
    } else {
        s
    }
}

/// The texts of a sequence of strings.
pub open spec fn texts(v: Seq<String>) -> Seq<Seq<char>> {
    v.map_values(|s: String| s@)
}

/// The text of an optional string.
pub open spec fn opt_text(o: Option<String>) -> Option<Seq<char>> {
    match o {
        Some(s) => Some(s@),
        None => None,
    }
}

/// The characters of a string.
pub fn to_chars(s: &str) -> (r: Vec<char>)
    ensures
        r@ == s@,
{
    let mut out: Vec<char> = Vec::new();
    for c in it: s.chars()
        invariant
            out@ == it.seq().take(it.index()),
            it.seq() == s@,
    {
        out.push(c);
    }
    assert(out@ =~= s@);
    out
}

/// The string of the characters from `lo` up to `hi`.
pub fn from_range(v: &Vec<char>, lo: usize, hi: usize) -> (r: String)
    requires
        lo <= hi <= v.len(),
    ensures
        r@ == v@.subrange(lo as int, hi as int),
{
    let mut out = String::new();
    let mut i: usize = lo;
    while i < hi
        invariant
            lo <= i <= hi <= v.len(),
            out@ == v@.subrange(lo as int, i as int),
        decreases hi - i,
    {
        out.push(v[i]);
        i = i + 1;
        assert(out@ =~= v@.subrange(lo as int, i as int));
    }
    out
}

/// Whether two strings hold the same text.
pub fn same(a: &str, b: &str) -> (r: bool)
    ensures
        r == (a@ == b@),
{
    a.to_owned() == b.to_owned()
}

/// Whether `list` holds the text `s`.
pub fn holds(list: &Vec<String>, s: &str) -> (r: bool)
    ensures
        r == texts(list@).contains(s@),
{
    let mut i: usize = 0;
    while i < list.len()
        invariant
            i <= list.len(),
            forall|j: int| 0 <= j < i ==> list@[j]@ != s@,
        decreases list.len() - i,
    {
        if same(list[i].as_str(), s) {
            assert(texts(list@)[i as int] == s@);
            return true;
        }
        i = i + 1;
    }
    assert(!texts(list@).contains(s@)) by {
        if texts(list@).contains(s@) {
            let k = choose|k: int| 0 <= k < list@.len() && texts(list@)[k] == s@;
            assert(list@[k]@ == s@);
        }
    }
    false
}

/// Whether `s` starts with `p`.
pub fn starts_with(s: &str, p: &str) -> (r: bool)
    ensures
        r == p@.is_prefix_of(s@),
{
    let sv = to_chars(s);
    let pv = to_chars(p);
    if pv.len() > sv.len() {
        return false;
    }
    let mut i: usize = 0;
    while i < pv.len()
        invariant
            i <= pv.len() <= sv.len(),
            sv@ == s@,
            pv@ == p@,
            forall|j: int| 0 <= j < i ==> pv@[j] == sv@[j],
        decreases pv.len() - i,
    {
        if pv[i] != sv[i] {
            assert(sv@.subrange(0, pv@.len() as int)[i as int] != pv@[i as int]);
            return false;
        }
        i = i + 1;
    }
    assert(sv@.subrange(0, pv@.len() as int) =~= pv@);
    true
}

/// Whether `s` ends with `p`.
pub fn ends_with(s: &str, p: &str) -> (r: bool)
    ensures
        r == p@.is_suffix_of(s@),
{
    let sv = to_chars(s);
    let pv = to_chars(p);
    if pv.len() > sv.len() {
        return false;
    }
    let d: usize = sv.len() - pv.len();
    let mut i: usize = 0;
    let ghost tail = sv@.subrange(sv@.len() - pv@.len(), sv@.len() as int);
    while i < pv.len()
        invariant
            i <= pv.len() <= sv.len(),
            d == sv.len() - pv.len(),
            sv@ == s@,
            pv@ == p@,
            tail == sv@.subrange(sv@.len() - pv@.len(), sv@.len() as int),
            forall|j: int| 0 <= j < i ==> pv@[j] == tail[j],
        decreases pv.len() - i,
    {
        assert(tail[i as int] == sv@[d + i]);
        if pv[i] != sv[d + i] {
            return false;
        }
        i = i + 1;
    }
    assert(tail =~= pv@);
    true
}

/// What is left of `s` after the prefix `p`, if `s` starts with it.
pub fn strip_prefix(s: &str, p: &str) -> (r: Option<String>)
    ensures
        r is Some <==> p@.is_prefix_of(s@),
        r matches Some(t) ==> t@ == s@.skip(p@.len() as int),
{
    if starts_with(s, p) {
        let sv = to_chars(s);
        let pv = to_chars(p);
        let t = from_range(&sv, pv.len(), sv.len());
        assert(t@ =~= s@.skip(p@.len() as int));
        Some(t)
    } else {
        None
    }
}

/// Position of the first `c` from `from` on, or the length when there is none.
pub fn find_from(v: &Vec<char>, c: char, from: usize) -> (r: usize)
    requires
        from <= v.len(),
    ensures
        r == from + find_char(v@.skip(from as int), c),
        from <= r <= v.len(),
{
    let ghost t = v@.skip(from as int);
    let mut i: usize = from;
    while i < v.len()
        invariant
            from <= i <= v.len(),
            t == v@.skip(from as int),
            forall|j: int| 0 <= j < i - from ==> t[j] != c,
        decreases v.len() - i,
    {
        assert(t[i - from] == v@[i as int]);
        if v[i] == c {
            proof {
                lemma_find_char_is(t, c, i - from);
            }
            return i;
        }
        i = i + 1;
    }
    proof {
        lemma_find_char_is(t, c, i - from);
    }
    i
}

/// `s` cut at its first `c`: what stands before it and what stands behind it.
pub fn split_once(s: &str, c: char) -> (r: Option<(String, String)>)
    ensures
        r is Some <==> s@.contains(c),
        r matches Some((a, b)) ==> a@ == upto_char(s@, c) && b@ == after_char(s@, c),
{
    let v = to_chars(s);
    let i = find_from(&v, c, 0);
    proof {
        assert(v@.skip(0) =~= v@);
        lemma_find_char(s@, c);
    }
    if i < v.len() {
        let a = from_range(&v, 0, i);
        let b = from_range(&v, i + 1, v.len());
        assert(a@ =~= upto_char(s@, c));
        assert(b@ =~= after_char(s@, c));
        Some((a, b))
    } else {
        None
    }
}

/// `s` up to, and without, its first `c`.
pub fn upto(s: &str, c: char) -> (r: String)
    ensures
        r@ == upto_char(s@, c),
{
    let v = to_chars(s);
    let i = find_from(&v, c, 0);
    assert(v@.skip(0) =~= v@);
    let a = from_range(&v, 0, i);
    assert(a@ =~= upto_char(s@, c));
    a
}

/// `s` cut at its last `c`: what stands before it and what stands behind it.
pub fn rsplit_once(s: &str, c: char) -> (r: Option<(String, String)>)
    ensures
        r is Some <==> find_last_char(s@, c) >= 0,
        r matches Some((a, b)) ==> a@ == s@.take(find_last_char(s@, c)) && b@ == s@.skip(
            find_last_char(s@, c) + 1,
        ),
{
    let v = to_chars(s);
    let mut i: usize = v.len();
    while i > 0
        invariant
            i <= v.len(),
            v@ == s@,
            forall|j: int| i <= j < v@.len() ==> v@[j] != c,
        decreases i,
    {
        if v[i - 1] == c {
            let a = from_range(&v, 0, i - 1);
            let b = from_range(&v, i, v.len());
            proof {
                lemma_find_last_char_is(s@, c, i - 1);
                assert(a@ =~= s@.take(i - 1));
                assert(b@ =~= s@.skip(i as int));
            }
            return Some((a, b));
        }
        i = i - 1;
    }
    proof {
        lemma_find_last_char_is(s@, c, -1);
    }
    None
}

/// The pieces of `s` between the occurrences of `c`.
pub fn split(s: &str, c: char) -> (r: Vec<String>)
    ensures
        texts(r@) == split_on(s@, c),
{
    let v = to_chars(s);
    let mut out: Vec<String> = Vec::new();
    let mut lo: usize = 0;
    assert(v@.skip(0) =~= v@);
    loop
        invariant_except_break
            texts(out@) + split_on(v@.skip(lo as int), c) == split_on(s@, c),
        invariant
            lo <= v.len(),
            v@ == s@,
        ensures
            texts(out@) == split_on(s@, c),
        decreases v.len() - lo,
    {
        let ghost rest = v@.skip(lo as int);
        let hi = find_from(&v, c, lo);
        let ghost before = texts(out@);
        out.push(from_range(&v, lo, hi));
        proof {
            lemma_find_char(rest, c);
            assert(v@.subrange(lo as int, hi as int) =~= rest.take(hi - lo));
            assert(texts(out@) =~= before + seq![rest.take(hi - lo)]);
        }
        if hi == v.len() {
            proof {
                assert(rest.take(hi - lo) =~= rest);
                assert(texts(out@) =~= split_on(s@, c));
            }
            break;
        }
        proof {
            assert(v@.skip(hi + 1) =~= rest.skip(hi - lo + 1));
            assert(texts(out@) + split_on(v@.skip(hi + 1), c) =~= before + (seq![rest.take(hi - lo)]
                + split_on(rest.skip(hi - lo + 1), c)));
        }
        lo = hi + 1;
    }
    out
}

/// Whether `pat` stands in `s` at position `i`.
pub open spec fn matches_at(s: Seq<char>, pat: Seq<char>, i: int) -> bool {
    0 <= i && i + pat.len() <= s.len() && s.subrange(i, i + pat.len()) == pat
}

/// The last position up to `i` at which `pat` stands in `s`, or `-1`.
pub open spec fn last_match_upto(s: Seq<char>, pat: Seq<char>, i: int) -> int
    decreases i + 1,
{
    if i < 0 {
        -1
    } else if matches_at(s, pat, i) {
        i
    } else {
        last_match_upto(s, pat, i - 1)
    }
}

/// What follows the last `pat` in `s`, if it stands there.
pub open spec fn after_last(s: Seq<char>, pat: Seq<char>) -> Option<Seq<char>> {
    let i = last_match_upto(s, pat, s.len() as int);
    if i < 0 {
        None
    } else {
        Some(s.skip(i + pat.len()))
    }
}

/// Whether `pat` stands in `v` at position `i`.
fn stands_at(v: &Vec<char>, pat: &Vec<char>, i: usize) -> (r: bool)
    requires
        i <= v.len(),
    ensures
        r == matches_at(v@, pat@, i as int),
{
    if v.len() - i < pat.len() {
        return false;
    }
    let mut j: usize = 0;
    let ghost here = v@.subrange(i as int, i + pat@.len());
    while j < pat.len()
        invariant
            j <= pat.len(),
            i + pat.len() <= v.len(),
            here == v@.subrange(i as int, i + pat@.len()),
            forall|k: int| 0 <= k < j ==> here[k] == pat@[k],
        decreases pat.len() - j,
    {
        assert(here[j as int] == v@[i + j]);
        if v[i + j] != pat[j] {
            return false;
        }
        j = j + 1;
    }
    assert(here =~= pat@);
    true
}

/// What follows the last `pat` in `s`, if it stands there.
pub fn after_last_str(s: &str, pat: &str) -> (r: Option<String>)
    ensures
        r is Some <==> after_last(s@, pat@) is Some,
        r matches Some(t) ==> after_last(s@, pat@) == Some(t@),
{
    let v = to_chars(s);
    let p = to_chars(pat);
    let mut i: usize = v.len();
    loop
        invariant
            i <= v.len(),
            v@ == s@,
            p@ == pat@,
            last_match_upto(s@, pat@, s@.len() as int) == last_match_upto(s@, pat@, i as int),
        decreases i,
    {
        if stands_at(&v, &p, i) {
            let t = from_range(&v, i + p.len(), v.len());
            assert(t@ =~= s@.skip(i + pat@.len()));
            return Some(t);
        }
        if i == 0 {
            assert(last_match_upto(s@, pat@, -1) == -1);
            return None;
        }
        i = i - 1;
    }
}

/// The character of a decimal digit.
pub open spec fn digit(d: nat) -> char {
    if d == 0 {
        '0'
    } else if d == 1 {
        '1'
    } else if d == 2 {
        '2'
    } else if d == 3 {
        '3'
    } else if d == 4 {
        '4'
    } else if d == 5 {
        '5'
    } else if d == 6 {
        '6'
    } else if d == 7 {
        '7'
    } else if d == 8 {
        '8'
    } else {
        '9'
    }
}

/// A number in decimal.
pub open spec fn digits(n: nat) -> Seq<char>
    decreases n,
{
    if n < 10 {
        seq![digit(n)]
    } else {
        digits(n / 10).push(digit(n % 10))
    }
}

/// A number in decimal.
pub fn decimal(n: usize) -> (r: String)
    ensures
        r@ == digits(n as nat),
    decreases n,
{
    let d: usize = n % 10;
    let c: char = match d {
        0 => '0',
        1 => '1',
        2 => '2',
        3 => '3',
        4 => '4',
        5 => '5',
        6 => '6',
        7 => '7',
        8 => '8',
        _ => '9',
    };
    let mut out = if n < 10 {
        String::new()
    } else {
        decimal(n / 10)
    };
    out.push(c);
    assert(out@ =~= digits(n as nat));
    out
}

/// Texts one after the other, each but the last followed by `sep`.
pub open spec fn joined(list: Seq<Seq<char>>, sep: Seq<char>) -> Seq<char>
    decreases list.len(),
{
    if list.len() == 0 {
        Seq::empty()
    } else if list.len() == 1 {
        list[0]
    } else {
        joined(list.drop_last(), sep) + sep + list.last()
    }
}

/// Strings one after the other, each but the last followed by `sep`.
pub fn join(list: &Vec<String>, sep: &str) -> (r: String)
    ensures
        r@ == joined(texts(list@), sep@),
{
    let ghost all = texts(list@);
    let mut out = String::new();
    let mut i: usize = 0;
    while i < list.len()
        invariant
            i <= list.len(),
            all == texts(list@),
            out@ == joined(all.take(i as int), sep@),
        decreases list.len() - i,
    {
        if i > 0 {
            out.append(sep);
        }
        out.append(list[i].as_str());
        proof {
            let t = all.take(i + 1);
            assert(t.drop_last() =~= all.take(i as int));
            assert(t.last() == list@[i as int]@);
            assert(out@ =~= joined(t, sep@));
        }
        i = i + 1;
    }
    assert(all.take(i as int) =~= all);
    out
}

/// `s` without the `c`s that it ends in.
pub fn trim_end(s: &str, c: char) -> (r: String)
    ensures
        r@ == trim_end_char(s@, c),
{
    let v = to_chars(s);
    let mut n: usize = v.len();
    assert(v@.take(n as int) =~= s@);
    while n > 0 && v[n - 1] == c
        invariant
            n <= v.len(),
            trim_end_char(v@.take(n as int), c) == trim_end_char(s@, c),
        decreases n,
    {
        assert(v@.take(n as int).drop_last() =~= v@.take(n - 1));
        n = n - 1;
    }
    let r = from_range(&v, 0, n);
    assert(r@ =~= v@.take(n as int));
    r
}

/// `s` without the `c`s that it starts with.
pub fn trim_start(s: &str, c: char) -> (r: String)
    ensures
        r@ == trim_start_char(s@, c),
{
    let v = to_chars(s);
    let mut i: usize = 0;
    assert(v@.skip(0) =~= s@);
    while i < v.len() && v[i] == c
        invariant
            i <= v.len(),
            trim_start_char(v@.skip(i as int), c) == trim_start_char(s@, c),
        decreases v.len() - i,
    {
        assert(v@.skip(i as int).drop_first() =~= v@.skip(i + 1));
        i = i + 1;
    }
    let r = from_range(&v, i, v.len());
    assert(r@ =~= v@.skip(i as int));
    r
}

/// Whether a character counts as white space in Unicode.
pub open spec fn is_space(c: char) -> bool {
    let n = c as u32;
    9 <= n <= 13 || n == 0x20 || n == 0x85 || n == 0xa0 || n == 0x1680 || 0x2000 <= n <= 0x200a || n
        == 0x2028 || n == 0x2029 || n == 0x202f || n == 0x205f || n == 0x3000
}

/// Whether a character counts as white space in Unicode.
pub fn is_white(c: char) -> (r: bool)
    ensures
        r == is_space(c),
{
    let n = c as u32;
    9 <= n && n <= 13 || n == 0x20 || n == 0x85 || n == 0xa0 || n == 0x1680 || 0x2000 <= n && n
        <= 0x200a || n == 0x2028 || n == 0x2029 || n == 0x202f || n == 0x205f || n == 0x3000
}

/// `s` without the white space that it ends in.
pub open spec fn space_end_trimmed(s: Seq<char>) -> Seq<char>
    decreases s.len(),
{
    if s.len() > 0 && is_space(s.last()) {
        space_end_trimmed(s.drop_last())
    } else {
        s
    }
}

/// `s` without the white space that it starts with.
pub open spec fn space_start_trimmed(s: Seq<char>) -> Seq<char>
    decreases s.len(),
{
    if s.len() > 0 && is_space(s[0]) {
        space_start_trimmed(s.drop_first())
    } else {
        s
    }
}

/// `s` without the white space around it.
pub open spec fn space_trimmed(s: Seq<char>) -> Seq<char> {
    space_start_trimmed(space_end_trimmed(s))
}

/// `s` without the white space around it.
pub fn trim(s: &str) -> (r: String)
    ensures
        r@ == space_trimmed(s@),
{
    let v = to_chars(s);
    let mut hi: usize = v.len();
    assert(v@.take(hi as int) =~= s@);
    while hi > 0 && is_white(v[hi - 1])
        invariant
            hi <= v.len(),
            space_end_trimmed(v@.take(hi as int)) == space_end_trimmed(s@),
        decreases hi,
    {
        assert(v@.take(hi as int).drop_last() =~= v@.take(hi - 1));
        hi = hi - 1;
    }
    let ghost t = v@.take(hi as int);
    assert(t == space_end_trimmed(s@));
    let mut lo: usize = 0;
    assert(v@.subrange(0, hi as int) =~= t);
    while lo < hi && is_white(v[lo])
        invariant
            lo <= hi <= v.len(),
            space_start_trimmed(v@.subrange(lo as int, hi as int)) == space_start_trimmed(t),
        decreases hi - lo,
    {
        assert(v@.subrange(lo as int, hi as int).drop_first() =~= v@.subrange(lo + 1, hi as int));
        lo = lo + 1;
    }
    from_range(&v, lo, hi)
}

/// The pieces of `s` between white space, none of them empty.
pub open spec fn words(s: Seq<char>) -> Seq<Seq<char>>
    decreases s.len(),
{
    if s.len() == 0 {
        Seq::empty()
    } else if is_space(s.last()) {
        words(s.drop_last())
    } else {
        proof {
            lemma_word_start(s);
        }
        words(s.take(word_start(s))).push(s.skip(word_start(s)))
    }
}

/// Where the word that `s` ends in starts.
pub open spec fn word_start(s: Seq<char>) -> int
    decreases s.len(),
{
    if s.len() == 0 || is_space(s.last()) {
        s.len() as int
    } else {
        word_start(s.drop_last())
    }
}

/// A word starts before it ends.
pub proof fn lemma_word_start(s: Seq<char>)
    ensures
        0 <= word_start(s) <= s.len(),
        s.len() > 0 && !is_space(s.last()) ==> word_start(s) < s.len(),
    decreases s.len(),
{
    if s.len() > 0 && !is_space(s.last()) {
        lemma_word_start(s.drop_last());
    }
}

/// The pieces of the first `n` characters between white space.
fn words_upto(v: &Vec<char>, n: usize) -> (r: Vec<String>)
    requires
        n <= v.len(),
    ensures
        texts(r@) == words(v@.take(n as int)),
    decreases n,
{
    let ghost s = v@.take(n as int);
    if n == 0 {
        let none: Vec<String> = Vec::new();
        assert(texts(none@) =~= Seq::<Seq<char>>::empty());
        return none;
    }
    assert(s.last() == v@[n - 1]);
    assert(s.drop_last() =~= v@.take(n - 1));
    if is_white(v[n - 1]) {
        return words_upto(v, n - 1);
    }
    let mut i: usize = n;
    while i > 0 && !is_white(v[i - 1])
        invariant
            i <= n <= v.len(),
            s == v@.take(n as int),
            word_start(v@.take(i as int)) == word_start(s),
        decreases i,
    {
        assert(v@.take(i as int).drop_last() =~= v@.take(i - 1));
        i = i - 1;
    }
    proof {
        lemma_word_start(s);
        assert(v@.take(i as int).len() == i);
        if i > 0 {
            assert(v@.take(i as int).last() == v@[i - 1]);
        }
        assert(word_start(s) == i);
        assert(s.take(i as int) =~= v@.take(i as int));
    }
    let word = from_range(v, i, n);
    assert(word@ =~= s.skip(i as int));
    let mut out = words_upto(v, i);
    let ghost before = texts(out@);
    let ghost x = word@;
    out.push(word);
    assert(texts(out@) =~= before.push(x));
    out
}

/// The pieces of `s` between white space.
pub fn split_words(s: &str) -> (r: Vec<String>)
    ensures
        texts(r@) == words(s@),
{
    let v = to_chars(s);
    assert(v@.take(v@.len() as int) =~= s@);
    words_upto(&v, v.len())
}

} // verus!
