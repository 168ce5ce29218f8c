//! What holds of paths that are taken from a directory.
use crate::driver::path_escapes;
use crate::driver_install::{entry_rest, placement, PlacementView};
use crate::path::{
    absolute, ancestor, base_name, below, component_key, components, components_key, extended,
    extension_start, last_name, lead_trimmed, lemma_ancestor, lemma_parent, lemma_trimmed,
    name_extension, name_start, nameless, parent_of, path_extension, settled, trimmed, under,
    within,
};
use crate::text::{find_last_char, joined, lemma_find_last_char, lemma_find_last_char_is};
use vstd::prelude::*;

verus! {

/// The components of a path that does not start at the root, without a `.` that it starts with.
pub open spec fn steps(p: Seq<char>) -> Seq<Seq<char>> {
    let c = components(p);
    if c.len() > 0 && c[0] == seq!['.'] {
        c.skip(1)
    } else {
        c
    }
}

/// A path and its trimmed form have the same components.
proof fn lemma_trimmed_components(p: Seq<char>)
    ensures
        components(trimmed(p)) == components(p),
{
    lemma_trimmed(p);
}

/// The components of `base` and `r` one after the other, where a separator stands between them.
proof fn lemma_appended(base: Seq<char>, dir: Seq<char>, r: Seq<char>)
    requires
        base.len() > 0,
        dir == (if base.last() == '/' {
            base
        } else {
            base.push('/')
        }),
        !absolute(r),
    ensures
        components(dir + r) == components(base) + steps(r),
        r.len() > 0 ==> components(r).len() > 0,
    decreases r.len(),
{
    let s = dir + r;
    let n = dir.len() as int;
    lemma_trimmed(base);
    if r.len() == 0 {
        assert(s =~= dir);
        if base.last() != '/' {
            assert(dir.drop_last() =~= base);
            lemma_trimmed_components(dir);
            lemma_trimmed_components(base);
        }
        assert(trimmed(r) =~= Seq::<char>::empty());
        assert(components(r) =~= Seq::<Seq<char>>::empty());
        assert(steps(r) =~= Seq::<Seq<char>>::empty());
        assert(components(base) + steps(r) =~= components(base));
    } else {
        assert(s.last() == r.last());
        let q = r.drop_last();
        assert(s.drop_last() =~= dir + q);
        if r.len() >= 2 {
            assert(s[s.len() - 2] == r[r.len() - 2]);
            assert(!absolute(q));
        }
        if r.last() == '/' || r.last() == '.' && s[s.len() - 2] == '/' {
            lemma_appended(base, dir, q);
            lemma_trimmed_components(s);
            lemma_trimmed_components(dir + q);
            if r.len() >= 2 {
                lemma_trimmed_components(r);
                lemma_trimmed_components(q);
            } else {
                assert(r[0] == '.');
                assert(r =~= seq!['.']);
                assert(trimmed(r) == r);
                lemma_find_last_char_is(r, '/', -1);
                assert(r.take(0) =~= Seq::<char>::empty());
                assert(trimmed(r.take(0)).len() == 0);
                assert(components(trimmed(r.take(0))) =~= Seq::<Seq<char>>::empty());
                assert(r.skip(0) =~= r);
                assert(components(r) =~= seq![r]);
                assert(steps(r) =~= Seq::<Seq<char>>::empty());
                assert(trimmed(q).len() == 0);
                assert(steps(q) =~= Seq::<Seq<char>>::empty());
            }
        } else {
            assert(trimmed(s) == s);
            assert(s != seq!['/']) by {
                assert(s.len() >= 2);
            }
            lemma_find_last_char(r, '/');
            let k = name_start(r);
            assert forall|j: int| n + k - 1 < j < s.len() implies s[j] != '/' by {
                assert(s[j] == r[j - n]);
            }
            assert(s[n + k - 1] == '/') by {
                if k > 0 {
                    assert(s[n + k - 1] == r[k - 1]);
                } else {
                    assert(s[n - 1] == dir[n - 1]);
                }
            }
            lemma_find_last_char_is(s, '/', n + k - 1);
            let head = r.take(k);
            assert(k < r.len()) by {
                if k == r.len() {
                    assert(r[k - 1] == '/');
                }
            }
            assert(s.take(n + k) =~= dir + head);
            assert(s.skip(n + k) =~= r.skip(k));
            lemma_appended(base, dir, head);
            lemma_trimmed_components(dir + head);
            assert(trimmed(r) == r);
            assert(r != seq!['/']);
            lemma_trimmed_components(head);
            assert(components(s) == components(dir + head).push(r.skip(k)));
            assert(components(r) == components(head).push(r.skip(k)));
            if k == 0 {
                assert(head =~= Seq::<char>::empty());
                assert(trimmed(head).len() == 0);
                assert(components(head) =~= Seq::<Seq<char>>::empty());
                assert(r.skip(0) =~= r);
                assert(components(r) =~= seq![r]);
                assert(r != seq!['.']);
                assert(steps(r) =~= seq![r]);
                assert(steps(head) =~= Seq::<Seq<char>>::empty());
            } else {
                let c = components(head);
                assert(c.push(r.skip(k))[0] == c[0]);
                if c[0] == seq!['.'] {
                    assert(c.push(r.skip(k)).skip(1) =~= c.skip(1).push(r.skip(k)));
                }
                assert(steps(r) =~= steps(head).push(r.skip(k)));
            }
            assert(components(base) + steps(r) =~= (components(base) + steps(head)).push(
                r.skip(k),
            ));
        }
    }
}

/// A path that does not start at the root, taken from a directory, lies there: its components
/// follow those of the directory.
pub proof fn relative_paths_stay_below(base: Seq<char>, p: Seq<char>)
    requires
        base.len() > 0,
        !absolute(p),
    ensures
        components(under(base, p)) == components(base) + steps(p),
        within(under(base, p), base),
{
    if base.last() == '/' {
        lemma_appended(base, base, p);
    } else {
        lemma_appended(base, base.push('/'), p);
    }
    let c = components(base) + steps(p);
    assert(c.take(components(base).len() as int) =~= components(base));
}

/// A path that is not refused as one that may lead out of a directory does not: what it names
/// lies in the directory, and it nowhere goes up.
pub proof fn accepted_paths_stay_in_the_workspace(ws_dir: Seq<char>, p: Seq<char>)
    requires
        ws_dir.len() > 0,
        !path_escapes(p),
    ensures
        within(under(ws_dir, p), ws_dir),
        !components(under(ws_dir, p)).skip(components(ws_dir).len() as int).contains(".."@),
{
    relative_paths_stay_below(ws_dir, p);
    let below = components(under(ws_dir, p)).skip(components(ws_dir).len() as int);
    assert(below =~= steps(p));
    if below.contains(".."@) {
        let i = choose|i: int| 0 <= i < below.len() && below[i] == ".."@;
        let c = components(p);
        if c.len() > 0 && c[0] == seq!['.'] {
            assert(c[i + 1] == ".."@);
        } else {
            assert(c[i] == ".."@);
        }
    }
}

/// Whether a text is a name between separators.
pub open spec fn is_step(name: Seq<char>) -> bool {
    name.len() > 0 && !name.contains('/') && name != seq!['.']
}

/// Every component of a path after its first is a name.
proof fn lemma_components_are_steps(p: Seq<char>, i: int)
    requires
        0 < i < components(p).len(),
    ensures
        is_step(components(p)[i]),
    decreases p.len(),
{
    lemma_parent(p);
    lemma_trimmed(p);
    match parent_of(p) {
        None => {},
        Some(q) => {
            if i < components(q).len() {
                lemma_components_are_steps(q, i);
            } else {
                let t = trimmed(p);
                let k = name_start(t);
                lemma_find_last_char(t, '/');
                assert(components(p)[i] == last_name(p));
                if last_name(p) == seq!['.'] {
                    assert(t.skip(k)[0] == '.');
                    assert(t.len() == k + 1);
                    if k > 0 {
                        assert(t[k - 1] == '/');
                        assert(t.last() == '.');
                        assert(trimmed(t) == trimmed(t.drop_last()));
                        lemma_trimmed(t.drop_last());
                    } else {
                        assert(t.take(0) =~= Seq::<char>::empty());
                        assert(trimmed(t.take(0)).len() == 0);
                        assert(components(q) =~= Seq::<Seq<char>>::empty());
                    }
                }
            }
        },
    }
}

/// A name is the one component of itself.
proof fn lemma_one_step(name: Seq<char>)
    requires
        is_step(name),
    ensures
        components(name) == seq![name],
        steps(name) == seq![name],
        !absolute(name),
{
    assert(name.contains(name[0]));
    assert(name.contains(name.last()));
    if name.len() >= 2 {
        assert(name.contains(name[name.len() - 2]));
    }
    assert(trimmed(name) == name);
    lemma_find_last_char(name, '/');
    assert(name_start(name) == 0);
    assert(name.take(0) =~= Seq::<char>::empty());
    assert(trimmed(name.take(0)).len() == 0);
    assert(components(trimmed(name.take(0))) =~= Seq::<Seq<char>>::empty());
    assert(name.skip(0) =~= name);
    assert(!nameless(name));
    assert(components(name) =~= seq![name]);
}

/// Names with a separator between them have themselves as components.
pub proof fn joined_steps_are_components(list: Seq<Seq<char>>)
    requires
        forall|i: int| 0 <= i < list.len() ==> is_step(#[trigger] list[i]),
    ensures
        components(joined(list, "/"@)) == list,
        !absolute(joined(list, "/"@)),
        list.len() > 0 ==> joined(list, "/"@).len() > 0,
    decreases list.len(),
{
    reveal_strlit("/");
    if list.len() == 0 {
        assert(trimmed(joined(list, "/"@)).len() == 0);
        assert(components(joined(list, "/"@)) =~= list);
    } else if list.len() == 1 {
        lemma_one_step(list[0]);
        assert(seq![list[0]] =~= list);
    } else {
        let rest = list.drop_last();
        let head = joined(rest, "/"@);
        let name = list.last();
        assert forall|i: int| 0 <= i < rest.len() implies is_step(#[trigger] rest[i]) by {
            assert(rest[i] == list[i]);
        }
        joined_steps_are_components(rest);
        assert(is_step(list[list.len() - 1]));
        lemma_one_step(name);
        let whole = joined(list, "/"@);
        assert(whole =~= head.push('/') + name);
        assert(head.last() != '/') by {
            let m = rest.last();
            assert(is_step(rest[rest.len() - 1]));
            assert(m.contains(m.last()));
            if rest.len() == 1 {
                assert(head == rest[0]);
            } else {
                assert(head.last() == m.last());
            }
        }
        lemma_appended(head, head.push('/'), name);
        assert(components(whole) =~= list);
        assert(whole[0] == head[0]);
    }
}

/// An entry of a tarball that is not refused goes below the directory that the tarball is
/// extracted into, and it nowhere goes up: its path there is made of the names after its first.
pub proof fn entries_land_in_the_destination(dest_dir: Seq<char>, path: Seq<char>, is_dir: bool)
    requires
        dest_dir.len() > 0,
        !entry_rest(path).contains(".."@),
    ensures
        match placement(dest_dir, path, is_dir) {
            PlacementView::Skipped => true,
            PlacementView::Directory(dest, _) | PlacementView::Unpacked(dest, _) => within(
                dest,
                dest_dir,
            ) && components(dest) == components(dest_dir) + entry_rest(path),
        },
{
    let rest = entry_rest(path);
    assert forall|i: int| 0 <= i < rest.len() implies is_step(#[trigger] rest[i]) by {
        assert(rest[i] == components(path)[i + 1]);
        lemma_components_are_steps(path, i + 1);
    }
    joined_steps_are_components(rest);
    relative_paths_stay_below(dest_dir, joined(rest, "/"@));
    if rest.len() > 0 {
        assert(is_step(rest[0]));
        assert(steps(joined(rest, "/"@)) == rest);
    }
}

/// A separator after another one, and a name `.` between two of them, count for nothing.
proof fn lemma_idle(dir: Seq<char>, x: char, t: Seq<char>)
    requires
        dir.len() > 0,
        dir.last() == '/',
        x == '/' || x == '.' && (t.len() == 0 || t[0] == '/'),
    ensures
        components(dir.push(x) + t) == components(dir + t),
    decreases t.len(),
{
    let s = dir.push(x) + t;
    let u = dir + t;
    lemma_trimmed_components(s);
    lemma_trimmed_components(u);
    if t.len() == 0 {
        assert(s =~= dir.push(x));
        assert(s.drop_last() =~= dir);
        assert(u =~= dir);
        assert(s[s.len() - 2] == '/');
    } else {
        let q = t.drop_last();
        assert(s.last() == t.last() && u.last() == t.last());
        assert(s.drop_last() =~= dir.push(x) + q);
        assert(u.drop_last() =~= dir + q);
        if t.len() >= 2 {
            assert(s[s.len() - 2] == t[t.len() - 2]);
            assert(u[u.len() - 2] == t[t.len() - 2]);
        } else {
            assert(s[s.len() - 2] == x);
            assert(u[u.len() - 2] == '/');
        }
        if t.last() == '/' || t.last() == '.' && s[s.len() - 2] == '/' {
            lemma_idle(dir, x, q);
            lemma_trimmed_components(dir.push(x) + q);
            lemma_trimmed_components(dir + q);
        } else {
            assert(trimmed(s) == s);
            assert(trimmed(u) == u);
            lemma_find_last_char(t, '/');
            let k = name_start(t);
            let n = dir.len() as int;
            if k > 0 {
                assert forall|j: int| n + k < j < s.len() implies s[j] != '/' by {
                    assert(s[j] == t[j - n - 1]);
                }
                assert(s[n + k] == t[k - 1]);
                lemma_find_last_char_is(s, '/', n + k);
                assert forall|j: int| n + k - 1 < j < u.len() implies u[j] != '/' by {
                    assert(u[j] == t[j - n]);
                }
                assert(u[n + k - 1] == t[k - 1]);
                lemma_find_last_char_is(u, '/', n + k - 1);
                let head = t.take(k);
                assert(s.take(n + 1 + k) =~= dir.push(x) + head);
                assert(u.take(n + k) =~= dir + head);
                assert(s.skip(n + 1 + k) =~= t.skip(k));
                assert(u.skip(n + k) =~= t.skip(k));
                assert(head.len() < t.len()) by {
                    if k == t.len() {
                        assert(t[k - 1] == '/');
                    }
                }
                lemma_idle(dir, x, head);
                lemma_trimmed_components(dir.push(x) + head);
                lemma_trimmed_components(dir + head);
            } else {
                assert(!t.contains('/'));
                assert(x == '/') by {
                    if x == '.' {
                        assert(t.contains(t[0]));
                    }
                }
                assert forall|j: int| n < j < s.len() implies s[j] != '/' by {
                    assert(s[j] == t[j - n - 1]);
                    assert(t.contains(t[j - n - 1]));
                }
                assert(s[n] == x);
                lemma_find_last_char_is(s, '/', n);
                assert forall|j: int| n - 1 < j < u.len() implies u[j] != '/' by {
                    assert(u[j] == t[j - n]);
                    assert(t.contains(t[j - n]));
                }
                assert(u[n - 1] == '/');
                lemma_find_last_char_is(u, '/', n - 1);
                let none = Seq::<char>::empty();
                assert(s.take(n + 1) =~= dir.push(x) + none);
                assert(u.take(n) =~= dir + none);
                assert(s.skip(n + 1) =~= t);
                assert(u.skip(n) =~= t);
                lemma_idle(dir, x, none);
                lemma_trimmed_components(dir.push(x) + none);
                lemma_trimmed_components(dir + none);
            }
        }
    }
}

/// What follows a directory adds its steps, without the separators and `.` names that it starts
/// with.
proof fn lemma_led(base: Seq<char>, dir: Seq<char>, r: Seq<char>)
    requires
        base.len() > 0,
        dir == (if base.last() == '/' {
            base
        } else {
            base.push('/')
        }),
    ensures
        components(dir + r) == components(base) + steps(lead_trimmed(r)),
        !absolute(lead_trimmed(r)),
    decreases r.len(),
{
    if r.len() > 0 && (r[0] == '/' || r[0] == '.' && (r.len() == 1 || r[1] == '/')) {
        let t = r.drop_first();
        lemma_led(base, dir, t);
        lemma_idle(dir, r[0], t);
        assert(dir + r =~= dir.push(r[0]) + t);
    } else {
        lemma_appended(base, dir, r);
    }
}

proof fn lemma_trimmed_edge(p: Seq<char>)
    requires
        trimmed(p).len() < p.len(),
    ensures
        p[trimmed(p).len() as int] == '/' || trimmed(p) == seq!['/'],
    decreases p.len(),
{
    lemma_trimmed(p);
    let q = p.drop_last();
    assert(trimmed(p) == trimmed(q));
    if trimmed(q).len() < q.len() {
        lemma_trimmed_edge(q);
    } else {
        lemma_trimmed(q);
        assert(trimmed(q) =~= q);
        if p.last() == '.' {
            assert(q.last() == '/');
            assert(q.len() < 2);
            assert(q =~= seq!['/']);
        }
    }
}

/// A path goes on with a separator after what stands above it.
proof fn lemma_boundary(p: Seq<char>, n: nat)
    requires
        1 <= n <= components(p).len(),
    ensures
        ({
            let a = trimmed(ancestor(p, n));
            &&& a.len() <= trimmed(p).len()
            &&& a == trimmed(p).take(a.len() as int)
            &&& a.len() > 0
            &&& a.len() == trimmed(p).len() || trimmed(p)[a.len() as int] == '/' || a == seq!['/']
        }),
    decreases p.len(),
{
    lemma_trimmed(p);
    let big = trimmed(p);
    let a = trimmed(ancestor(p, n));
    if components(p).len() <= n {
        assert(a =~= big.take(a.len() as int));
        if p.len() == 0 {
            assert(nameless(p));
        }
    } else {
        lemma_parent(p);
        if nameless(p) {
            assert(components(p).len() <= 1);
        }
        let q = parent_of(p)->0;
        let k = name_start(big);
        let h = big.take(k);
        lemma_trimmed(h);
        lemma_boundary(q, n);
        assert(trimmed(q) == q);
        assert(q == h.take(q.len() as int));
        assert(a =~= big.take(a.len() as int));
        lemma_find_last_char(big, '/');
        if a.len() == q.len() {
            if q.len() < h.len() {
                lemma_trimmed_edge(h);
                assert(h[q.len() as int] == big[q.len() as int]);
            } else {
                assert(q =~= h);
                assert(h[k - 1] == big[k - 1]);
                assert(q.last() == '/');
                assert(q.len() < 2);
                assert(a =~= seq!['/']);
            }
        } else {
            assert(q[a.len() as int] == big[a.len() as int]);
        }
    }
}

/// What lies below a directory is told by the rest of its way, which leads back to it from the
/// directory.
pub proof fn the_rest_of_a_way_leads_back(p: Seq<char>, base: Seq<char>)
    requires
        within(p, base),
        components(base).len() > 0,
    ensures
        below(p, base) matches Some(r) && !absolute(r) && steps(r) == components(p).skip(
            components(base).len() as int,
        ) && components(under(base, r)) == components(p),
{
    let n = components(base).len();
    assert(components(base) =~= components(p).take(n as int));
    let a = trimmed(ancestor(p, n));
    let big = trimmed(p);
    lemma_ancestor(p, n);
    lemma_boundary(p, n);
    lemma_trimmed_components(p);
    lemma_trimmed_components(ancestor(p, n));
    let rest = big.skip(a.len() as int);
    let r = lead_trimmed(rest);
    assert(below(p, base) == Some(r));
    lemma_trimmed(ancestor(p, n));
    if a.len() == big.len() {
        assert(rest =~= Seq::<char>::empty());
        assert(a =~= big);
        lemma_led(a, if a.last() == '/' { a } else { a.push('/') }, rest);
        assert(components(r) =~= Seq::<Seq<char>>::empty()) by {
            assert(r.len() == 0);
            assert(trimmed(r).len() == 0);
        }
        assert(steps(r) =~= components(p).skip(n as int));
    } else if a == seq!['/'] {
        assert(a.last() == '/');
        assert(a + rest =~= big);
        lemma_led(a, a, rest);
        assert(steps(r) =~= components(p).skip(n as int));
    } else {
        assert(a.last() != '/') by {
            assert(a == trimmed(a));
            if a.len() == 1 && a.last() == '/' {
                assert(a =~= seq!['/']);
            }
        }
        let t = rest.drop_first();
        assert(rest[0] == '/');
        assert(a.push('/') + t =~= big);
        lemma_led(a, a.push('/'), t);
        assert(lead_trimmed(rest) == lead_trimmed(t));
        assert(steps(r) =~= components(p).skip(n as int));
    }
    assert(base.len() > 0) by {
        if base.len() == 0 {
            assert(trimmed(base).len() == 0);
            assert(nameless(base));
        }
    }
    relative_paths_stay_below(base, r);
    assert(components(base) + steps(r) =~= components(p));
}

/// A name that stands after its directory is the last name of the whole.
proof fn lemma_last_of(head: Seq<char>, name: Seq<char>)
    requires
        head.len() == 0 || head.last() == '/',
        name.len() > 0,
        !name.contains('/'),
        name.last() != '.',
    ensures
        trimmed(head + name) == head + name,
        name_start(head + name) == head.len(),
        !nameless(head + name),
        last_name(head + name) == name,
        parent_of(head + name) == Some(trimmed(head)),
{
    let x = head + name;
    let k = head.len() as int;
    assert(x.last() == name.last());
    assert(name.contains(name.last()));
    assert(trimmed(x) == x);
    assert forall|j: int| k - 1 < j < x.len() implies x[j] != '/' by {
        assert(x[j] == name[j - k]);
        assert(name.contains(name[j - k]));
    }
    if k > 0 {
        assert(x[k - 1] == head[k - 1]);
    }
    lemma_find_last_char_is(x, '/', k - 1);
    assert(x.take(k) =~= head);
    assert(x.skip(k) =~= name);
}

/// A name of a stem and an extension.
pub open spec fn dotted(stem: Seq<char>, ext: Option<Seq<char>>) -> Seq<char> {
    match ext {
        Some(e) => stem + seq!['.'] + e,
        None => stem,
    }
}

proof fn lemma_dotted(stem: Seq<char>, ext: Option<Seq<char>>)
    requires
        stem.len() > 0,
        ext is None ==> !stem.skip(1).contains('.'),
        ext matches Some(e) ==> !e.contains('.'),
    ensures
        extension_start(dotted(stem, ext)) == (match ext {
            Some(_) => Some(stem.len() as int + 1),
            None => None,
        }),
        name_extension(dotted(stem, ext)) == ext,
{
    let name = dotted(stem, ext);
    let m = stem.len() as int;
    match ext {
        None => {
            lemma_find_last_char(name, '.');
            let d = find_last_char(name, '.');
            if d > 0 {
                assert(stem.skip(1)[d - 1] == '.');
            }
        },
        Some(e) => {
            assert(name[m] == '.');
            assert forall|j: int| m < j < name.len() implies name[j] != '.' by {
                assert(name[j] == e[j - m - 1]);
                assert(e.contains(e[j - m - 1]));
            }
            lemma_find_last_char_is(name, '.', m);
            assert(name.skip(m + 1) =~= e);
        },
    }
}

/// A path with another extension lies in the same directory, has that extension, and keeps its
/// name up to its own.
pub proof fn another_extension_changes_the_end_of_a_name(
    p: Seq<char>,
    stem: Seq<char>,
    own: Option<Seq<char>>,
    ext: Seq<char>,
)
    requires
        base_name(p) == Some(dotted(stem, own)),
        stem.len() > 0,
        own is None ==> !stem.skip(1).contains('.'),
        own matches Some(e) ==> !e.contains('.'),
        ext.len() > 0,
        !ext.contains('/'),
        !ext.contains('.'),
    ensures
        path_extension(p) == own,
        path_extension(extended(p, ext)) == Some(ext),
        base_name(extended(p, ext)) == Some(dotted(stem, Some(ext))),
        parent_of(extended(p, ext)) == parent_of(p),
{
    reveal_strlit(".");
    reveal_strlit("..");
    let big = trimmed(p);
    let k = name_start(big);
    let name = last_name(p);
    lemma_parent(p);
    lemma_find_last_char(big, '/');
    lemma_dotted(stem, own);
    lemma_dotted(stem, Some(ext));
    let made = dotted(stem, Some(ext));
    let head = big.take(k);
    let m = stem.len() as int;
    assert(name.take(m) =~= stem);
    assert(big.take(k + m) =~= head + big.skip(k).take(m));
    assert("."@ =~= seq!['.']);
    assert(extended(p, ext) =~= head + made);
    assert(made.last() == ext.last());
    assert(ext.contains(ext.last()));
    assert(!made.contains('/')) by {
        assert forall|j: int| 0 <= j < made.len() implies made[j] != '/' by {
            if j < m {
                assert(made[j] == name[j]);
                assert(name.contains(name[j]));
            } else if j > m {
                assert(made[j] == ext[j - m - 1]);
                assert(ext.contains(ext[j - m - 1]));
            }
        }
    }
    if k > 0 {
        assert(head.last() == big[k - 1]);
    }
    lemma_last_of(head, made);
    assert(made.last() != '.');
}

/// Whether a component of a path is a name, not the root or a step of its own kind.
pub open spec fn ordinary(c: Seq<char>) -> bool {
    c != "."@ && c != ".."@ && c != "/"@
}

/// Going into a directory and up again leads nowhere, and neither does staying.
pub proof fn going_up_undoes_going_down(list: Seq<Seq<char>>, name: Seq<char>)
    requires
        ordinary(name),
    ensures
        settled(list.push(name).push(".."@)) == settled(list),
        settled(list.push("."@)) == settled(list),
        settled(list.push(name)) == settled(list).push(name),
{
    reveal_strlit(".");
    reveal_strlit("..");
    reveal_strlit("/");
    assert("."@.len() == 1 && ".."@.len() == 2);
    assert(list.push(name).push(".."@).drop_last() =~= list.push(name));
    assert(list.push(name).drop_last() =~= list);
    assert(list.push("."@).drop_last() =~= list);
    assert(settled(list.push(name)) == settled(list).push(name));
    assert(settled(list).push(name).last() == name);
    assert(settled(list).push(name).drop_last() =~= settled(list));
    assert(".."@ != "."@);
    assert(settled(list.push(name).push(".."@)) == settled(list).push(name).drop_last());
}

/// There is nothing above the root.
pub proof fn the_root_is_its_own_parent(list: Seq<Seq<char>>)
    requires
        settled(list).len() > 0,
        settled(list).last() == "/"@,
    ensures
        settled(list.push(".."@)) == settled(list),
{
    reveal_strlit(".");
    reveal_strlit("..");
    reveal_strlit("/");
    assert("/"@.len() == 1 && ".."@.len() == 2);
    assert("."@.len() == 1);
    assert(list.push(".."@).drop_last() =~= list);
}

proof fn lemma_key_part(list: Seq<Seq<char>>)
    requires
        forall|i: int| 0 <= i < list.len() ==> !(#[trigger] list[i]).contains('\u{0}'),
        list.len() > 0,
    ensures
        ({
            let s = components_key(list);
            let before = components_key(list.drop_last());
            &&& s.len() > 0 && s.last() == '\u{0}'
            &&& find_last_char(s.drop_last(), '\u{0}') == before.len() - 1
            &&& s.take(before.len() as int) == before
            &&& s.drop_last().skip(before.len() as int) == component_key(list.last())
        }),
    decreases list.len(),
{
    reveal_strlit("/");
    let rest = list.drop_last();
    let before = components_key(rest);
    let c = list.last();
    let k = component_key(c);
    let s = components_key(list);
    let n = before.len() as int;
    assert(s =~= before + k.push('\u{0}'));
    assert(list[list.len() - 1] == c);
    assert(!k.contains('\u{0}')) by {
        assert forall|j: int| 0 <= j < k.len() implies k[j] != '\u{0}' by {
            if k == seq!['\u{4}'] + c && j > 0 {
                assert(k[j] == c[j - 1]);
                assert(c.contains(c[j - 1]));
            }
        }
    }
    let t = s.drop_last();
    assert(t =~= before + k);
    assert forall|j: int| n - 1 < j < t.len() implies t[j] != '\u{0}' by {
        assert(t[j] == k[j - n]);
        assert(k.contains(k[j - n]));
    }
    if n > 0 {
        assert(rest.len() > 0);
        assert forall|i: int| 0 <= i < rest.len() implies !(#[trigger] rest[i]).contains(
            '\u{0}',
        ) by {
            assert(rest[i] == list[i]);
        }
        lemma_key_part(rest);
        assert(t[n - 1] == before.last());
    }
    lemma_find_last_char_is(t, '\u{0}', n - 1);
    assert(s.take(n) =~= before);
    assert(t.skip(n) =~= k);
}

proof fn lemma_component_key(a: Seq<char>, b: Seq<char>)
    requires
        component_key(a) == component_key(b),
    ensures
        a == b,
{
    assert(component_key(a)[0] == component_key(b)[0]);
    if component_key(a)[0] == '\u{4}' {
        assert((seq!['\u{4}'] + a).skip(1) =~= a);
        assert((seq!['\u{4}'] + b).skip(1) =~= b);
    }
}

/// Paths have the same key just when they have the same components.
pub proof fn keys_tell_paths_apart(a: Seq<Seq<char>>, b: Seq<Seq<char>>)
    requires
        forall|i: int| 0 <= i < a.len() ==> !(#[trigger] a[i]).contains('\u{0}'),
        forall|i: int| 0 <= i < b.len() ==> !(#[trigger] b[i]).contains('\u{0}'),
    ensures
        components_key(a) == components_key(b) <==> a == b,
    decreases a.len(),
{
    if components_key(a) == components_key(b) {
        if a.len() > 0 {
            lemma_key_part(a);
        }
        if b.len() > 0 {
            lemma_key_part(b);
        }
        if a.len() == 0 || b.len() == 0 {
            assert(a =~= b);
        } else {
            let x = a.drop_last();
            let y = b.drop_last();
            assert forall|i: int| 0 <= i < x.len() implies !(#[trigger] x[i]).contains(
                '\u{0}',
            ) by {
                assert(x[i] == a[i]);
            }
            assert forall|i: int| 0 <= i < y.len() implies !(#[trigger] y[i]).contains(
                '\u{0}',
            ) by {
                assert(y[i] == b[i]);
            }
            keys_tell_paths_apart(x, y);
            lemma_component_key(a.last(), b.last());
            assert(a =~= x.push(a.last()));
            assert(b =~= y.push(b.last()));
        }
    }
}

/// A way of plain steps is accepted; one that starts at the root, or goes up anywhere, is not.
pub proof fn only_ways_that_stay_below_are_accepted(list: Seq<Seq<char>>)
    requires
        forall|i: int| 0 <= i < list.len() ==> is_step(#[trigger] list[i]),
    ensures
        path_escapes(joined(list, "/"@)) <==> list.contains(".."@),
        path_escapes(seq!['/'] + joined(list, "/"@)),
{
    joined_steps_are_components(list);
    assert((seq!['/'] + joined(list, "/"@))[0] == '/');
}

} // verus!
