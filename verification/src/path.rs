//! File paths as text, with `/` between names.
//!
//! A path is read as a list of components: `/` for the root of an absolute path, then its
//! names. Repeated separators, separators at the end and `.` names count for nothing, except
//! a `.` that the whole path starts with.
use crate::text::{
    after_last, after_last_str, find_last_char, from_range, join, joined, lemma_find_last_char, lemma_find_last_char_is,
    replaced, same, texts, to_chars,
};
use vstd::prelude::*;

verus! {

/// The path without the separators and `.` names that it ends in.
pub open spec fn trimmed(p: Seq<char>) -> Seq<char>
    decreases p.len(),
{
    if p.len() >= 2 && p.last() == '/' {
        trimmed(p.drop_last())
    } else if p.len() >= 2 && p.last() == '.' && p[p.len() - 2] == '/' {
        trimmed(p.drop_last())
    } else {
        p
    }
}

/// Where the last name of a path starts.
pub open spec fn name_start(p: Seq<char>) -> int {
    find_last_char(p, '/') + 1
}

/// Whether a path holds no name: it is empty, or the root.
pub open spec fn nameless(p: Seq<char>) -> bool {
    trimmed(p).len() == 0 || trimmed(p) == seq!['/']
}

/// The last component of a path that holds a name.
pub open spec fn last_name(p: Seq<char>) -> Seq<char> {
    trimmed(p).skip(name_start(trimmed(p)))
}

/// The path without its last component; none for the root and the empty path.
pub open spec fn parent_of(p: Seq<char>) -> Option<Seq<char>> {
    if nameless(p) {
        None
    } else {
        Some(trimmed(trimmed(p).take(name_start(trimmed(p)))))
    }
}

/// A trimmed path starts the path, and nothing more can be trimmed off it.
pub proof fn lemma_trimmed(p: Seq<char>)
    ensures
        trimmed(p).len() <= p.len(),
        trimmed(p) == p.take(trimmed(p).len() as int),
        trimmed(trimmed(p)) == trimmed(p),
        trimmed(p).len() >= 2 ==> trimmed(p).last() != '/',
        p.len() > 0 ==> trimmed(p).len() > 0,
    decreases p.len(),
{
    if p.len() >= 2 && (p.last() == '/' || p.last() == '.' && p[p.len() - 2] == '/') {
        let q = p.drop_last();
        lemma_trimmed(q);
        assert(p.take(trimmed(p).len() as int) =~= q.take(trimmed(p).len() as int));
    } else {
        assert(p.take(p.len() as int) =~= p);
    }
}

/// A parent is shorter than its path and starts it.
pub proof fn lemma_parent(p: Seq<char>)
    ensures
        parent_of(p) matches Some(q) ==> q.len() < trimmed(p).len() <= p.len() && q == p.take(
            q.len() as int,
        ),
        !nameless(p) ==> 0 <= name_start(trimmed(p)) < trimmed(p).len(),
        !nameless(p) ==> last_name(p).len() > 0 && !last_name(p).contains('/'),
{
    lemma_trimmed(p);
    if !nameless(p) {
        let t = trimmed(p);
        lemma_find_last_char(t, '/');
        let cut = name_start(t);
        if cut == t.len() {
            assert(t.last() == '/');
            assert(t =~= seq!['/']);
        }
        let head = t.take(cut);
        lemma_trimmed(head);
        let q = trimmed(head);
        assert(q =~= p.take(q.len() as int));
        assert forall|i: int| 0 <= i < last_name(p).len() implies last_name(p)[i] != '/' by {
            assert(t[cut + i] != '/');
        }
    }
}

/// The components of a path.
pub open spec fn components(p: Seq<char>) -> Seq<Seq<char>>
    decreases p.len(),
    via components_shrink
{
    match parent_of(p) {
        None => if trimmed(p).len() == 0 {
            Seq::empty()
        } else {
            seq![seq!['/']]
        },
        Some(q) => components(q).push(last_name(p)),
    }
}

#[via_fn]
proof fn components_shrink(p: Seq<char>) {
    lemma_parent(p);
}

/// Whether two texts name the same path.
pub open spec fn same_path(a: Seq<char>, b: Seq<char>) -> bool {
    components(a) == components(b)
}

/// Whether `p` lies in the directory `base` or is that directory.
pub open spec fn within(p: Seq<char>, base: Seq<char>) -> bool {
    components(base).is_prefix_of(components(p))
}

/// Whether a path starts at the root.
pub open spec fn absolute(p: Seq<char>) -> bool {
    p.len() > 0 && p[0] == '/'
}

/// The path `p` taken from the directory `base`.
pub open spec fn under(base: Seq<char>, p: Seq<char>) -> Seq<char> {
    if absolute(p) || base.len() == 0 {
        p
    } else if base.last() == '/' {
        base + p
    } else {
        base.push('/') + p
    }
}

/// The file name of a path: its last component, unless that is `.` or `..`.
pub open spec fn base_name(p: Seq<char>) -> Option<Seq<char>> {
    if nameless(p) || last_name(p) == ".."@ || last_name(p) == "."@ {
        None
    } else {
        Some(last_name(p))
    }
}

/// Where the extension of a file name starts, its dot left out; none when the name has no
/// dot past its first character.
pub open spec fn extension_start(name: Seq<char>) -> Option<int> {
    let i = find_last_char(name, '.');
    if i <= 0 {
        None
    } else {
        Some(i + 1)
    }
}

/// The extension of a file name.
pub open spec fn name_extension(name: Seq<char>) -> Option<Seq<char>> {
    match extension_start(name) {
        None => None,
        Some(i) => Some(name.skip(i)),
    }
}

/// The extension of a path's file name.
pub open spec fn path_extension(p: Seq<char>) -> Option<Seq<char>> {
    match base_name(p) {
        None => None,
        Some(name) => name_extension(name),
    }
}

/// The path with its file name's extension replaced, or with one added.
pub open spec fn extended(p: Seq<char>, ext: Seq<char>) -> Seq<char> {
    match base_name(p) {
        None => p,
        Some(name) => {
            let stem = match extension_start(name) {
                None => name.len() as int,
                Some(i) => i - 1,
            };
            trimmed(p).take(name_start(trimmed(p)) + stem) + "."@ + ext
        },
    }
}

/// The separators and `.` names that `s` starts with left out.
pub open spec fn lead_trimmed(s: Seq<char>) -> Seq<char>
    decreases s.len(),
{
    if s.len() > 0 && (s[0] == '/' || s[0] == '.' && (s.len() == 1 || s[1] == '/')) {
        lead_trimmed(s.drop_first())
    } else {
        s
    }
}

/// The ancestor of a path, or the path itself, that has `n` components.
pub open spec fn ancestor(p: Seq<char>, n: nat) -> Seq<char>
    decreases p.len(),
    via ancestor_shrinks
{
    if components(p).len() <= n {
        p
    } else {
        match parent_of(p) {
            None => p,
            Some(q) => ancestor(q, n),
        }
    }
}

#[via_fn]
proof fn ancestor_shrinks(p: Seq<char>, n: nat) {
    lemma_parent(p);
}

/// What is left of `p` below the directory `base`; none when it does not lie there.
pub open spec fn below(p: Seq<char>, base: Seq<char>) -> Option<Seq<char>> {
    if !within(p, base) {
        None
    } else if components(base).len() == 0 {
        Some(trimmed(p))
    } else {
        let a = trimmed(ancestor(p, components(base).len()));
        Some(lead_trimmed(trimmed(p).skip(a.len() as int)))
    }
}

/// `p` as seen from `base`, or `p` itself when it does not lie there.
pub open spec fn relative(p: Seq<char>, base: Seq<char>) -> Seq<char> {
    match below(p, base) {
        Some(r) => r,
        None => p,
    }
}

/// The text with `/` for every backslash.
pub open spec fn slashed(s: Seq<char>) -> Seq<char> {
    replaced(s, '\\', '/')
}

fn trimmed_len(v: &Vec<char>, n: usize) -> (r: usize)
    requires
        n <= v.len(),
    ensures
        r <= n,
        v@.take(r as int) == trimmed(v@.take(n as int)),
{
    let mut i: usize = n;
    while i >= 2 && (v[i - 1] == '/' || v[i - 1] == '.' && v[i - 2] == '/')
        invariant
            i <= n <= v.len(),
            trimmed(v@.take(i as int)) == trimmed(v@.take(n as int)),
        decreases i,
    {
        assert(v@.take(i as int).drop_last() =~= v@.take(i - 1));
        i = i - 1;
    }
    i
}

/// The position after the last separator among the first `n` characters.
fn start_of_name(v: &Vec<char>, n: usize) -> (r: usize)
    requires
        n <= v.len(),
    ensures
        r <= n,
        r == name_start(v@.take(n as int)),
{
    let ghost s = v@.take(n as int);
    let mut i: usize = n;
    while i > 0 && v[i - 1] != '/'
        invariant
            i <= n <= v.len(),
            s == v@.take(n as int),
            forall|j: int| i <= j < n ==> s[j] != '/',
        decreases i,
    {
        i = i - 1;
    }
    proof {
        lemma_find_last_char_is(s, '/', i - 1);
    }
    i
}

/// Whether the first `n` characters, already trimmed, hold no name.
fn is_nameless(v: &Vec<char>, n: usize) -> (r: bool)
    requires
        n <= v.len(),
    ensures
        r == (n == 0 || v@.take(n as int) == seq!['/']),
{
    let r = n == 0 || n == 1 && v[0] == '/';
    proof {
        if n == 1 && v@[0] == '/' {
            assert(v@.take(1) =~= seq!['/']);
        }
        if n > 0 && v@.take(n as int) == seq!['/'] {
            assert(v@.take(n as int).len() == n);
            assert(v@.take(n as int)[0] == v@[0]);
        }
    }
    r
}

/// The path without its last component; none for the root and the empty path.
pub fn parent(p: &str) -> (r: Option<String>)
    ensures
        match r {
            Some(q) => parent_of(p@) == Some(q@),
            None => parent_of(p@) is None,
        },
{
    let v = to_chars(p);
    assert(v@.take(v@.len() as int) =~= v@);
    let n = trimmed_len(&v, v.len());
    if is_nameless(&v, n) {
        return None;
    }
    let cut = start_of_name(&v, n);
    assert(v@.take(n as int).take(cut as int) =~= v@.take(cut as int));
    let k = trimmed_len(&v, cut);
    let q = from_range(&v, 0, k);
    assert(q@ =~= v@.take(k as int));
    Some(q)
}

/// The last component of a path; none for the root and the empty path.
fn final_name(p: &str) -> (r: Option<String>)
    ensures
        r is None <==> nameless(p@),
        r matches Some(s) ==> s@ == last_name(p@),
{
    let v = to_chars(p);
    assert(v@.take(v@.len() as int) =~= v@);
    let n = trimmed_len(&v, v.len());
    if is_nameless(&v, n) {
        return None;
    }
    let cut = start_of_name(&v, n);
    let s = from_range(&v, cut, n);
    assert(s@ =~= v@.take(n as int).skip(cut as int));
    Some(s)
}

/// The components of a path, in order.
pub fn split_path(p: &str) -> (r: Vec<String>)
    ensures
        texts(r@) == components(p@),
    decreases p@.len(),
{
    proof {
        lemma_parent(p@);
        lemma_trimmed(p@);
    }
    match (parent(p), final_name(p)) {
        (Some(q), Some(name)) => {
            let mut list = split_path(q.as_str());
            let ghost before = texts(list@);
            list.push(name);
            assert(texts(list@) =~= before.push(name@));
            list
        },
        _ => {
            let mut list: Vec<String> = Vec::new();
            if is_absolute(p) {
                let mut root = String::new();
                root.push('/');
                list.push(root);
                proof {
                    assert(root@ =~= seq!['/']);
                    assert(texts(list@) =~= seq![seq!['/']]);
                }
            } else {
                assert(texts(list@) =~= Seq::<Seq<char>>::empty());
                proof {
                    if p@.len() > 0 {
                        assert(trimmed(p@)[0] == p@[0]);
                    }
                }
            }
            list
        },
    }
}

/// Whether a path starts at the root.
pub fn is_absolute(p: &str) -> (r: bool)
    ensures
        r == absolute(p@),
{
    let v = to_chars(p);
    v.len() > 0 && v[0] == '/'
}

/// The path `p` taken from the directory `base`.
pub fn join_path(base: &str, p: &str) -> (r: String)
    ensures
        r@ == under(base@, p@),
{
    let v = to_chars(base);
    if is_absolute(p) || v.len() == 0 {
        return p.to_owned();
    }
    let mut out = base.to_owned();
    if v[v.len() - 1] != '/' {
        out.push('/');
    }
    out.append(p);
    out
}

/// Whether two lists hold the same texts.
pub fn same_list(a: &Vec<String>, b: &Vec<String>) -> (r: bool)
    ensures
        r == (texts(a@) == texts(b@)),
{
    if a.len() != b.len() {
        assert(texts(a@).len() != texts(b@).len());
        return false;
    }
    begins_with(a, b)
}

/// Whether the list `a` starts with the list `b`.
pub fn begins_with(a: &Vec<String>, b: &Vec<String>) -> (r: bool)
    ensures
        r == texts(b@).is_prefix_of(texts(a@)),
        a@.len() == b@.len() ==> r == (texts(a@) == texts(b@)),
{
    if a.len() < b.len() {
        return false;
    }
    let mut i: usize = 0;
    while i < b.len()
        invariant
            i <= b.len() <= a.len(),
            forall|j: int| 0 <= j < i ==> a@[j]@ == b@[j]@,
        decreases b.len() - i,
    {
        if !same(a[i].as_str(), b[i].as_str()) {
            assert(texts(a@)[i as int] != texts(b@)[i as int]);
            return false;
        }
        i = i + 1;
    }
    assert(texts(a@).take(b@.len() as int) =~= texts(b@));
    assert(a@.len() == b@.len() ==> texts(a@) =~= texts(b@));
    true
}

/// Whether two texts name the same path.
pub fn names_same(a: &str, b: &str) -> (r: bool)
    ensures
        r == same_path(a@, b@),
{
    same_list(&split_path(a), &split_path(b))
}

/// Whether `p` lies in the directory `base` or is that directory.
pub fn lies_within(p: &str, base: &str) -> (r: bool)
    ensures
        r == within(p@, base@),
{
    begins_with(&split_path(p), &split_path(base))
}

/// The file name of a path.
pub fn file_name(p: &str) -> (r: Option<String>)
    ensures
        match r {
            Some(s) => base_name(p@) == Some(s@),
            None => base_name(p@) is None,
        },
{
    match final_name(p) {
        None => None,
        Some(s) => if same(s.as_str(), "..") || same(s.as_str(), ".") {
            None
        } else {
            Some(s)
        },
    }
}

/// The position of the dot before a file name's extension.
fn extension_dot(v: &Vec<char>) -> (r: Option<usize>)
    ensures
        match r {
            Some(i) => i < v@.len() && extension_start(v@) == Some(i + 1),
            None => extension_start(v@) is None,
        },
{
    let mut i: usize = v.len();
    while i > 0 && v[i - 1] != '.'
        invariant
            i <= v.len(),
            forall|j: int| i <= j < v@.len() ==> v@[j] != '.',
        decreases i,
    {
        i = i - 1;
    }
    proof {
        lemma_find_last_char_is(v@, '.', i - 1);
    }
    if i <= 1 {
        None
    } else {
        Some(i - 1)
    }
}

/// The extension of a file name.
pub fn extension_of(name: &str) -> (r: Option<String>)
    ensures
        match r {
            Some(s) => name_extension(name@) == Some(s@),
            None => name_extension(name@) is None,
        },
{
    let v = to_chars(name);
    match extension_dot(&v) {
        None => None,
        Some(i) => {
            let n = v.len();
            let s = from_range(&v, i + 1, n);
            assert(s@ =~= v@.skip(i + 1));
            Some(s)
        },
    }
}

/// The extension of a path's file name.
pub fn extension(p: &str) -> (r: Option<String>)
    ensures
        match r {
            Some(s) => path_extension(p@) == Some(s@),
            None => path_extension(p@) is None,
        },
{
    match file_name(p) {
        None => None,
        Some(name) => extension_of(name.as_str()),
    }
}

/// The path with its file name's extension replaced, or with one added.
pub fn with_extension(p: &str, ext: &str) -> (r: String)
    ensures
        r@ == extended(p@, ext@),
{
    match file_name(p) {
        None => p.to_owned(),
        Some(name) => {
            let v = to_chars(p);
            assert(v@.take(v@.len() as int) =~= v@);
            let n = trimmed_len(&v, v.len());
            let cut = start_of_name(&v, n);
            let w = to_chars(name.as_str());
            proof {
                lemma_parent(p@);
                assert(w@.len() == n - cut);
            }
            let stem: usize = match extension_dot(&w) {
                None => w.len(),
                Some(i) => i,
            };
            let mut out = from_range(&v, 0, cut + stem);
            assert(out@ =~= v@.take(n as int).take(cut + stem));
            out.append(".");
            out.append(ext);
            out
        },
    }
}

/// The component list of an ancestor starts the path's own.
pub proof fn lemma_ancestor(p: Seq<char>, n: nat)
    requires
        1 <= n <= components(p).len(),
    ensures
        components(ancestor(p, n)) == components(p).take(n as int),
        ancestor(p, n).len() <= p.len(),
        ancestor(p, n) == p.take(ancestor(p, n).len() as int),
        trimmed(ancestor(p, n)).len() <= trimmed(p).len(),
    decreases p.len(),
{
    lemma_parent(p);
    lemma_trimmed(p);
    if components(p).len() <= n {
        assert(components(p).take(components(p).len() as int) =~= components(p));
        assert(p.take(p.len() as int) =~= p);
    } else {
        let q = parent_of(p)->0;
        lemma_ancestor(q, n);
        lemma_trimmed(q);
        assert(components(p).take(n as int) =~= components(q).take(n as int));
        assert(ancestor(q, n) =~= p.take(ancestor(q, n).len() as int));
    }
}

/// The ancestor of a path, or the path itself, that has `n` components.
fn climb(p: &str, n: usize) -> (r: String)
    ensures
        r@ == ancestor(p@, n as nat),
    decreases p@.len(),
{
    proof {
        lemma_parent(p@);
    }
    let list = split_path(p);
    assert(texts(list@).len() == list@.len());
    if list.len() <= n {
        return p.to_owned();
    }
    match parent(p) {
        None => p.to_owned(),
        Some(q) => climb(q.as_str(), n),
    }
}

/// The position at which the text from `lo` to `hi` starts in earnest.
fn skip_lead(v: &Vec<char>, lo: usize, hi: usize) -> (r: usize)
    requires
        lo <= hi <= v.len(),
    ensures
        lo <= r <= hi,
        v@.subrange(r as int, hi as int) == lead_trimmed(v@.subrange(lo as int, hi as int)),
{
    let mut i: usize = lo;
    while i < hi && (v[i] == '/' || v[i] == '.' && (i + 1 == hi || v[i + 1] == '/'))
        invariant
            lo <= i <= hi <= v.len(),
            lead_trimmed(v@.subrange(i as int, hi as int)) == lead_trimmed(
                v@.subrange(lo as int, hi as int),
            ),
        decreases hi - i,
    {
        let ghost s = v@.subrange(i as int, hi as int);
        assert(s.drop_first() =~= v@.subrange(i + 1, hi as int));
        i = i + 1;
    }
    i
}

/// What is left of `p` below the directory `base`.
pub fn strip_base(p: &str, base: &str) -> (r: Option<String>)
    ensures
        match r {
            Some(s) => below(p@, base@) == Some(s@),
            None => below(p@, base@) is None,
        },
{
    let list = split_path(p);
    let start = split_path(base);
    if !begins_with(&list, &start) {
        return None;
    }
    let v = to_chars(p);
    assert(v@.take(v@.len() as int) =~= v@);
    let n = trimmed_len(&v, v.len());
    proof {
        assert(texts(start@).len() == start@.len());
    }
    if start.len() == 0 {
        let t = from_range(&v, 0, n);
        assert(t@ =~= v@.take(n as int));
        return Some(t);
    }
    let a = climb(p, start.len());
    proof {
        assert(texts(list@).len() == list@.len());
        lemma_ancestor(p@, start@.len());
        lemma_trimmed(a@);
    }
    let w = to_chars(a.as_str());
    assert(w@.take(w@.len() as int) =~= w@);
    let k = trimmed_len(&w, w.len());
    let lo = skip_lead(&v, k, n);
    let t = from_range(&v, lo, n);
    assert(v@.take(n as int).skip(k as int) =~= v@.subrange(k as int, n as int));
    Some(t)
}

/// `p` as seen from `base`, or `p` itself when it does not lie there.
pub fn relative_to(p: &str, base: &str) -> (r: String)
    ensures
        r@ == relative(p@, base@),
{
    match strip_base(p, base) {
        Some(s) => s,
        None => p.to_owned(),
    }
}

/// The text with `/` for every backslash.
pub fn with_slashes(s: &str) -> (r: String)
    ensures
        r@ == slashed(s@),
{
    let v = to_chars(s);
    let mut out = String::new();
    let mut i: usize = 0;
    while i < v.len()
        invariant
            i <= v.len(),
            v@ == s@,
            out@ == slashed(s@.take(i as int)),
        decreases v.len() - i,
    {
        let c = v[i];
        if c == '\\' {
            out.push('/');
        } else {
            out.push(c);
        }
        i = i + 1;
        assert(out@ =~= slashed(s@.take(i as int)));
    }
    assert(s@.take(i as int) =~= s@);
    out
}

/// A component as it takes part in the order of paths: the root first, then `.`, then `..`,
/// then the names.
pub open spec fn component_key(c: Seq<char>) -> Seq<char> {
    if c == "/"@ {
        seq!['\u{1}']
    } else if c == "."@ {
        seq!['\u{2}']
    } else if c == ".."@ {
        seq!['\u{3}']
    } else {
        seq!['\u{4}'] + c
    }
}

/// The keys of a list of components, a separator that sorts before all else after each.
pub open spec fn components_key(list: Seq<Seq<char>>) -> Seq<char>
    decreases list.len(),
{
    if list.len() == 0 {
        Seq::empty()
    } else {
        components_key(list.drop_last()) + component_key(list.last()).push('\u{0}')
    }
}

/// The text by which paths are told apart and ordered: component by component.
pub open spec fn path_key(p: Seq<char>) -> Seq<char> {
    components_key(components(p))
}

/// The text by which paths are told apart and ordered.
pub fn key_of_path(p: &str) -> (r: String)
    ensures
        r@ == path_key(p@),
{
    let list = split_path(p);
    let ghost all = texts(list@);
    let mut out = String::new();
    let mut i: usize = 0;
    while i < list.len()
        invariant
            i <= list.len(),
            all == texts(list@),
            out@ == components_key(all.take(i as int)),
        decreases list.len() - i,
    {
        let c = list[i].as_str();
        let ghost so_far = out@;
        if same(c, "/") {
            out.push('\u{1}');
        } else if same(c, ".") {
            out.push('\u{2}');
        } else if same(c, "..") {
            out.push('\u{3}');
        } else {
            out.push('\u{4}');
            out.append(c);
        }
        out.push('\u{0}');
        proof {
            let t = all.take(i + 1);
            assert(t.drop_last() =~= all.take(i as int));
            assert(t.last() == c@);
            assert(out@ =~= so_far + component_key(c@).push('\u{0}'));
        }
        i = i + 1;
    }
    assert(all.take(i as int) =~= all);
    out
}

/// Components with every `.` left out and every `..` taken back one name. The root is its own
/// parent; a `..` that nothing comes before stays.
pub open spec fn settled(list: Seq<Seq<char>>) -> Seq<Seq<char>>
    decreases list.len(),
{
    if list.len() == 0 {
        Seq::empty()
    } else {
        let r = settled(list.drop_last());
        let c = list.last();
        if c == "."@ {
            r
        } else if c == ".."@ {
            if r.len() == 0 || r.last() == ".."@ {
                r.push(c)
            } else if r.last() == "/"@ {
                r
            } else {
                r.drop_last()
            }
        } else {
            r.push(c)
        }
    }
}

/// The path text of some components, with one `/` between them.
pub open spec fn path_text(list: Seq<Seq<char>>) -> Seq<char> {
    if list.len() > 0 && list[0] == "/"@ {
        "/"@ + joined(list.skip(1), "/"@)
    } else {
        joined(list, "/"@)
    }
}

/// The path text of some components, with one `/` between them.
pub fn text_of_path(list: &Vec<String>) -> (r: String)
    ensures
        r@ == path_text(texts(list@)),
{
    let ghost whole = texts(list@);
    if list.len() > 0 && same(list[0].as_str(), "/") {
        let mut names: Vec<String> = Vec::new();
        let mut i: usize = 1;
        assert(texts(names@) =~= whole.subrange(1, 1));
        while i < list.len()
            invariant
                1 <= i <= list.len(),
                whole == texts(list@),
                texts(names@) == whole.subrange(1, i as int),
            decreases list.len() - i,
        {
            let ghost before = texts(names@);
            names.push(list[i].clone());
            assert(texts(names@) =~= before.push(whole[i as int]));
            assert(whole.subrange(1, i + 1) =~= before.push(whole[i as int]));
            i = i + 1;
        }
        assert(whole.subrange(1, i as int) =~= whole.skip(1));
        let mut out = "/".to_owned();
        out.append(join(&names, "/").as_str());
        out
    } else {
        proof {
            if whole.len() > 0 {
                assert(whole[0] == list@[0]@);
            }
        }
        join(list, "/")
    }
}

/// A path text with `.` and `..` worked out, the components with one `/` between them.
pub open spec fn plain_path(p: Seq<char>) -> Seq<char> {
    path_text(settled(components(p)))
}

/// A path text with `.` and `..` worked out.
pub fn plain(p: &str) -> (r: String)
    ensures
        r@ == plain_path(p@),
{
    let list = split_path(p);
    let ghost all = texts(list@);
    let mut kept: Vec<String> = Vec::new();
    let mut i: usize = 0;
    assert(texts(kept@) =~= settled(all.take(0)));
    while i < list.len()
        invariant
            i <= list.len(),
            all == texts(list@),
            texts(kept@) == settled(all.take(i as int)),
        decreases list.len() - i,
    {
        let c = list[i].as_str();
        let ghost r = texts(kept@);
        proof {
            let t = all.take(i + 1);
            assert(t.drop_last() =~= all.take(i as int));
            assert(t.last() == c@);
            assert(r.len() == kept@.len());
            if kept@.len() > 0 {
                assert(r.last() == kept@.last()@);
            }
        }
        if same(c, ".") {
        } else if same(c, "..") {
            if kept.len() == 0 || same(kept[kept.len() - 1].as_str(), "..") {
                kept.push(c.to_owned());
                assert(texts(kept@) =~= r.push(c@));
            } else if !same(kept[kept.len() - 1].as_str(), "/") {
                let dropped = kept.pop();
                assert(texts(kept@) =~= r.drop_last());
            }
        } else {
            kept.push(c.to_owned());
            assert(texts(kept@) =~= r.push(c@));
        }
        i = i + 1;
    }
    assert(all.take(i as int) =~= all);
    text_of_path(&kept)
}

/// What follows the last segment `node_modules` of a path, if it has one. A segment starts the
/// path or follows a `/`, and a `/` ends it.
pub open spec fn below_node_modules(p: Seq<char>) -> Option<Seq<char>> {
    after_last("/"@ + p, "/node_modules/"@)
}

/// What follows the last segment `node_modules` of a path, if it has one.
pub fn after_node_modules(p: &str) -> (r: Option<String>)
    ensures
        r is Some <==> below_node_modules(p@) is Some,
        r matches Some(t) ==> below_node_modules(p@) == Some(t@),
{
    let mut segments = "/".to_owned();
    segments.append(p);
    after_last_str(segments.as_str(), "/node_modules/")
}

} // verus!
