//! What a tsconfig covers, what it leaves to a bare specifier, and what it extends.
use crate::eslint_laws::strings_of_a_list_are_its_strings;
use crate::finding_laws::{lemma_first_file_is, lemma_no_first_file};
use crate::extends::{extends_target, package_base, relative_bases};
use crate::json::{field, JsonTree};
use crate::path::{parent_of, relative, same_path, slashed, under, within};
use crate::specifiers::{guard_allows, named_package, pattern_covers};
use crate::text::{lemma_find_char, lemma_find_char_is, split_on, trim_end_char};
use crate::tree::{canonical_at, file_at, FilesView};
use crate::tsconfig::{
    climbs_out, confined, covered, fields_of, first_unconfined, glob_failure, glob_matches,
    guard_at, is_wild, keeping_covered_files_again_changes_nothing, literal_prefix, member_names,
    scope_failure, steps_after, tsconfig_at, tsconfig_guard, usable_glob, FieldsView,
    TsconfigFailure,
};
use vstd::prelude::*;

verus! {

/// The lists of a tsconfig are the strings under its own keys.
pub proof fn a_tsconfig_holds_its_lists(t: JsonTree, s: Seq<char>)
    ensures
        fields_of(t).includes.contains(s) <==> (field(t, "include"@) matches Some(
            JsonTree::Array(items),
        ) && items.contains(JsonTree::Str(s))),
        fields_of(t).exclude.contains(s) <==> (field(t, "exclude"@) matches Some(
            JsonTree::Array(items),
        ) && items.contains(JsonTree::Str(s))),
        fields_of(t).files.contains(s) <==> (field(t, "files"@) matches Some(JsonTree::Array(items))
            && items.contains(JsonTree::Str(s))),
{
    if let Some(JsonTree::Array(items)) = field(t, "include"@) {
        strings_of_a_list_are_its_strings(items, s);
    }
    if let Some(JsonTree::Array(items)) = field(t, "exclude"@) {
        strings_of_a_list_are_its_strings(items, s);
    }
    if let Some(JsonTree::Array(items)) = field(t, "files"@) {
        strings_of_a_list_are_its_strings(items, s);
    }
}

/// A tsconfig keeps exactly the files that it lists, and those that one of its includes matches
/// and none of its excludes; without includes and listed files every file counts as included.
pub proof fn a_tsconfig_covers_what_it_includes(
    list: Seq<Seq<char>>,
    dir: Seq<char>,
    fields: FieldsView,
    f: Seq<char>,
)
    ensures
        covered(list, dir, fields).contains(f) <==> list.contains(f) && {
            ||| exists|i: int|
                0 <= i < fields.files.len() && #[trigger] same_path(under(dir, fields.files[i]), f)
            ||| (fields.includes.len() == 0 && fields.files.len() == 0 || exists|i: int|
                0 <= i < fields.includes.len() && #[trigger] glob_matches(
                    fields.includes[i],
                    relative(f, dir),
                )) && !exists|i: int|
                0 <= i < fields.exclude.len() && #[trigger] glob_matches(
                    fields.exclude[i],
                    relative(f, dir),
                )
        },
{
    keeping_covered_files_again_changes_nothing(list, dir, fields);
}

/// Files are filtered just when every include and every exclude can be used as a pattern.
pub proof fn every_pattern_of_a_tsconfig_has_to_be_usable(fields: FieldsView)
    ensures
        glob_failure(fields) is None <==> (forall|i: int|
            0 <= i < fields.includes.len() ==> usable_glob(#[trigger] fields.includes[i])) && (
        forall|i: int| 0 <= i < fields.exclude.len() ==> usable_glob(#[trigger] fields.exclude[i])),
{
    crate::finding_laws::the_first_unusable_pattern_is_told(fields.includes);
    crate::finding_laws::the_first_unusable_pattern_is_told(fields.exclude);
}

/// A bare specifier is taken for a package unless the tsconfig leaves a doubt: it extends another
/// one, it has a `baseUrl`, or one of its `paths` covers the specifier.
pub proof fn a_tsconfig_leaves_a_doubt_for_a_reason(t: JsonTree, s: Seq<char>)
    ensures
        guard_allows(tsconfig_guard(t), s) <==> {
            &&& field(t, "extends"@) is None
            &&& field(t, "compilerOptions"@) matches Some(options) ==> {
                &&& !(field(options, "baseUrl"@) matches Some(JsonTree::Str(_)))
                &&& field(options, "paths"@) matches Some(JsonTree::Object(ms)) ==> forall|i: int|
                    0 <= i < ms.len() ==> !pattern_covers((#[trigger] ms[i]).0, s)
            }
        },
{
    if let Some(options) = field(t, "compilerOptions"@) {
        if let Some(JsonTree::Object(ms)) = field(options, "paths"@) {
            let names = member_names(ms);
            assert forall|i: int| 0 <= i < ms.len() implies names[i] == (#[trigger] ms[i]).0 by {}
            if crate::specifiers::some_covers(names, s) {
                let i = choose|i: int| 0 <= i < names.len() && #[trigger] pattern_covers(names[i], s);
                assert(pattern_covers(ms[i].0, s));
            } else {
                assert forall|i: int| 0 <= i < ms.len() implies !pattern_covers(
                    (#[trigger] ms[i]).0,
                    s,
                ) by {
                    assert(!pattern_covers(names[i], s));
                }
            }
        }
    }
}

/// Without a tsconfig there is no doubt, and with one that cannot be read there always is.
pub proof fn an_unreadable_tsconfig_leaves_a_doubt(fs: FilesView, p: Seq<char>, s: Seq<char>)
    ensures
        guard_allows(guard_at(fs, None), s),
        tsconfig_at(fs, p) is Err ==> !guard_allows(guard_at(fs, Some(p)), s),
        tsconfig_at(fs, p) matches Ok(t) ==> guard_at(fs, Some(p)) == tsconfig_guard(t),
{
}

/// A path pattern without a star covers itself alone; with a star, what starts with the text
/// before it and ends with the text behind it, the two apart.
pub proof fn path_patterns_cover_what_the_star_stands_for(
    a: Seq<char>,
    b: Seq<char>,
    x: Seq<char>,
    s: Seq<char>,
)
    requires
        !a.contains('*'),
    ensures
        pattern_covers(a + "*"@ + b, a + x + b),
        pattern_covers(a, s) <==> s == a,
        pattern_covers(a + "*"@ + b, s) ==> exists|y: Seq<char>| s == #[trigger] (a + y + b),
{
    reveal_strlit("*");
    let p = a + "*"@ + b;
    let n = a.len() as int;
    assert forall|j: int| 0 <= j < n implies p[j] != '*' by {
        assert(p[j] == a[j]);
        assert(a.contains(a[j]));
    }
    assert(p[n] == '*');
    assert(p.contains('*'));
    lemma_find_char_is(p, '*', n);
    assert(p.take(n) =~= a);
    assert(p.skip(n + 1) =~= b);
    let t = a + x + b;
    assert(t.subrange(0, n) =~= a);
    assert(t.subrange(t.len() - b.len(), t.len() as int) =~= b);
    if pattern_covers(p, s) {
        let y = s.subrange(n, s.len() - b.len());
        assert(s.subrange(0, n) == a);
        assert(s.subrange(s.len() - b.len(), s.len() as int) == b);
        assert(s =~= a + y + b) by {
            assert forall|i: int| 0 <= i < s.len() implies s[i] == (a + y + b)[i] by {
                if i < n {
                    assert(s.subrange(0, n)[i] == a[i]);
                } else if i >= s.len() - b.len() {
                    assert(s.subrange(s.len() - b.len(), s.len() as int)[i - (s.len() - b.len())]
                        == b[i - (s.len() - b.len())]);
                }
            }
        }
    }
}

/// A bare specifier names the package up to its first `/`, or with a scope up to its second; a
/// path, an import of the package itself and a module of Node name none.
pub proof fn specifiers_name_their_package(
    scope: Seq<char>,
    name: Seq<char>,
    rest: Seq<char>,
    builtin: bool,
)
    requires
        !scope.contains('/'),
        !name.contains('/'),
        scope.len() > 0,
        name.len() > 0,
    ensures
        name[0] != '@' && name[0] != '.' && name[0] != '#' ==> named_package(name, false) == Some(
            name,
        ) && named_package(name + "/"@ + rest, false) == Some(name),
        named_package("@"@ + scope + "/"@ + name, false) == Some("@"@ + scope + "/"@ + name),
        named_package("@"@ + scope + "/"@ + name + "/"@ + rest, false) == Some(
            "@"@ + scope + "/"@ + name,
        ),
        named_package("@"@ + scope, builtin) is None,
        named_package(name, true) is None,
        name[0] == '.' || name[0] == '#' ==> named_package(name + "/"@ + rest, builtin) is None,
        named_package("/"@ + rest, builtin) is None,
        named_package(Seq::empty(), builtin) is None,
{
    reveal_strlit("/");
    reveal_strlit("@");
    lemma_cut(name, rest);
    lemma_find_char(name, '/');
    assert(name.take(name.len() as int) =~= name);
    if name[0] == '/' {
        assert(name.contains(name[0]));
    }
    let one = "@"@ + scope + "/"@ + name;
    let two = "@"@ + scope + "/"@ + name + "/"@ + rest;
    assert(one.skip(1) =~= scope + "/"@ + name);
    assert(two.skip(1) =~= scope + "/"@ + (name + "/"@ + rest));
    lemma_cut(scope, name);
    lemma_cut(scope, name + "/"@ + rest);
    assert(("@"@ + scope).skip(1) =~= scope);
    lemma_find_char(scope, '/');
    assert((name + "/"@ + rest)[0] == name[0]);
    assert(("/"@ + rest)[0] == '/');
}

proof fn lemma_cut(a: Seq<char>, b: Seq<char>)
    requires
        !a.contains('/'),
    ensures
        crate::text::upto_char(a + "/"@ + b, '/') == a,
        crate::text::after_char(a + "/"@ + b, '/') == b,
{
    reveal_strlit("/");
    let s = a + "/"@ + b;
    assert forall|j: int| 0 <= j < a.len() implies s[j] != '/' by {
        assert(s[j] == a[j]);
        assert(a.contains(a[j]));
    }
    assert(s[a.len() as int] == '/');
    lemma_find_char_is(s, '/', a.len() as int);
    assert(s.take(a.len() as int) =~= a);
    assert(s.skip(a.len() as int + 1) =~= b);
}

/// A relative or absolute `extends` leads to the file that it names, or else to that with `.json`
/// behind it; what it leads to lies in the workspace.
pub proof fn paths_are_extended_with_or_without_their_extension(
    fs: FilesView,
    root: Seq<char>,
    dir: Seq<char>,
    s: Seq<char>,
    c: Seq<char>,
)
    requires
        s.len() > 0,
        s[0] == '.' || s[0] == '/',
        within(c, root),
    ensures
        canonical_at(fs, under(dir, s)) == Some(c) ==> extends_target(fs, root, dir, s) == Ok::<
            Seq<char>,
            TsconfigFailure,
        >(c),
        file_at(fs, under(dir, s)) is None && canonical_at(fs, under(dir, s) + ".json"@) == Some(c)
            ==> extends_target(fs, root, dir, s) == Ok::<Seq<char>, TsconfigFailure>(c),
        file_at(fs, under(dir, s)) is None && file_at(fs, under(dir, s) + ".json"@) is None
            ==> extends_target(fs, root, dir, s) is Err,
{
    let list = relative_bases(dir, s);
    assert(list[0] == under(dir, s));
    assert(list[1] == under(dir, s) + ".json"@);
    if file_at(fs, list[0]) is Some {
        lemma_first_file_is(fs, list, 0);
    } else if file_at(fs, list[1]) is Some {
        lemma_first_file_is(fs, list, 1);
    } else {
        lemma_no_first_file(fs, list);
    }
}

/// Any other `extends` leads into the nearest `node_modules` that has it: as a file, with the
/// extension `json`, or as a directory with a tsconfig.
pub proof fn packages_are_extended_from_the_nearest_install(
    fs: FilesView,
    root: Seq<char>,
    dir: Seq<char>,
    s: Seq<char>,
    c: Seq<char>,
)
    requires
        !(s.len() > 0 && (s[0] == '.' || s[0] == '/')),
        within(c, root),
    ensures
        ({
            let base = under(under(dir, "node_modules"@), s);
            let json = crate::path::extended(base, "json"@);
            let inside = under(base, "tsconfig.json"@);
            &&& canonical_at(fs, base) == Some(c) ==> extends_target(fs, root, dir, s) == Ok::<
                Seq<char>,
                TsconfigFailure,
            >(c)
            &&& file_at(fs, base) is None && canonical_at(fs, json) == Some(c) ==> extends_target(
                fs,
                root,
                dir,
                s,
            ) == Ok::<Seq<char>, TsconfigFailure>(c)
            &&& file_at(fs, base) is None && file_at(fs, json) is None && canonical_at(fs, inside)
                == Some(c) ==> extends_target(fs, root, dir, s) == Ok::<
                Seq<char>,
                TsconfigFailure,
            >(c)
            &&& file_at(fs, base) is None && file_at(fs, json) is None && file_at(fs, inside) is None
                && !same_path(dir, root) && (parent_of(dir) matches Some(q) && within(q, root))
                ==> package_base(fs, root, dir, s) == package_base(fs, root, parent_of(dir)->0, s)
        }),
{
    let list = crate::extends::package_bases(dir, s);
    let base = under(under(dir, "node_modules"@), s);
    assert(list[0] == base);
    assert(list[1] == crate::path::extended(base, "json"@));
    assert(list[2] == under(base, "tsconfig.json"@));
    if file_at(fs, list[0]) is Some {
        lemma_first_file_is(fs, list, 0);
    } else if file_at(fs, list[1]) is Some {
        lemma_first_file_is(fs, list, 1);
    } else if file_at(fs, list[2]) is Some {
        lemma_first_file_is(fs, list, 2);
    } else {
        lemma_no_first_file(fs, list);
    }
}

/// Nothing outside the workspace is extended.
pub proof fn nothing_outside_is_extended(
    fs: FilesView,
    root: Seq<char>,
    dir: Seq<char>,
    s: Seq<char>,
)
    requires
        extends_target(fs, root, dir, s) is Ok,
    ensures
        within(extends_target(fs, root, dir, s)->Ok_0, root),
{
}

proof fn lemma_never_climbs(steps: Seq<Seq<char>>, depth: nat, wild: bool)
    requires
        !steps.contains(".."@),
    ensures
        !climbs_out(steps, depth, wild),
    decreases steps.len(),
{
    if steps.len() > 0 {
        let rest = steps.drop_first();
        assert(steps.contains(steps[0]));
        assert(!rest.contains(".."@)) by {
            if rest.contains(".."@) {
                let i = choose|i: int| 0 <= i < rest.len() && rest[i] == ".."@;
                assert(steps[i + 1] == ".."@);
            }
        }
        lemma_never_climbs(rest, depth, wild);
        lemma_never_climbs(rest, depth + 1, wild || is_wild(steps[0]));
    }
}

proof fn lemma_literal_start(start: Seq<char>, rest: Seq<char>)
    requires
        !start.contains('*'),
        !start.contains('?'),
    ensures
        literal_prefix(start + rest) == start + literal_prefix(rest),
    decreases start.len(),
{
    if start.len() == 0 {
        assert(start + rest =~= rest);
        assert(start + literal_prefix(rest) =~= literal_prefix(rest));
    } else {
        let t = start.drop_first();
        assert(start.contains(start[0]));
        assert(!t.contains('*')) by {
            if t.contains('*') {
                let i = choose|i: int| 0 <= i < t.len() && t[i] == '*';
                assert(start[i + 1] == '*');
            }
        }
        assert(!t.contains('?')) by {
            if t.contains('?') {
                let i = choose|i: int| 0 <= i < t.len() && t[i] == '?';
                assert(start[i + 1] == '?');
            }
        }
        lemma_literal_start(t, rest);
        assert((start + rest)[0] == start[0]);
        assert((start + rest).drop_first() =~= t + rest);
        assert(seq![start[0]] + (t + literal_prefix(rest)) =~= start + literal_prefix(rest));
    }
}

/// A pattern below a package that never goes up is confined to it, whatever wildcards it has, and
/// so is the package itself; a pattern that starts elsewhere is not.
pub proof fn patterns_below_a_package_are_confined(dir: Seq<char>, rest: Seq<char>, p: Seq<char>)
    requires
        dir.len() > 0,
        dir.last() != '/',
        !dir.contains('*'),
        !dir.contains('?'),
        !split_on(slashed("/"@ + rest), '/').contains(".."@),
    ensures
        confined(dir + "/"@ + rest, dir),
        !dir.is_prefix_of(p) ==> !confined(p, dir),
{
    reveal_strlit("/");
    let start = dir + "/"@;
    let pattern = start + rest;
    assert(pattern =~= dir + "/"@ + rest);
    assert(trim_end_char(dir, '/') == dir);
    assert(!start.contains('*') && !start.contains('?')) by {
        assert forall|i: int| 0 <= i < start.len() implies start[i] != '*' && start[i] != '?' by {
            if i < dir.len() {
                assert(start[i] == dir[i]);
                assert(dir.contains(dir[i]));
            } else {
                assert(start[i] == "/"@[i - dir.len()]);
            }
        }
    }
    lemma_literal_start(start, rest);
    let prefix = literal_prefix(pattern);
    assert(prefix.subrange(0, start.len() as int) =~= start);
    assert(pattern.skip(dir.len() as int) =~= "/"@ + rest);
    lemma_never_climbs(steps_after(pattern, dir.len() as int), 0, false);
    if !dir.is_prefix_of(p) {
        lemma_starts_alike(p);
        let q = literal_prefix(p);
        if start.is_prefix_of(q) {
            assert(q.subrange(0, start.len() as int) == start);
            assert(p.subrange(0, dir.len() as int) =~= dir) by {
                assert forall|i: int| 0 <= i < dir.len() implies p[i] == dir[i] by {
                    assert(q[i] == p[i]);
                    assert(q.subrange(0, start.len() as int)[i] == q[i]);
                    assert(start[i] == dir[i]);
                }
            }
        }
        if p == dir {
            assert(dir.subrange(0, dir.len() as int) =~= dir);
        }
    }
}

proof fn lemma_starts_alike(p: Seq<char>)
    ensures
        literal_prefix(p).len() <= p.len(),
        forall|i: int| 0 <= i < literal_prefix(p).len() ==> #[trigger] literal_prefix(p)[i] == p[i],
    decreases p.len(),
{
    if p.len() > 0 && p[0] != '*' && p[0] != '?' {
        let t = p.drop_first();
        lemma_starts_alike(t);
        let q = literal_prefix(p);
        assert forall|i: int| 0 <= i < q.len() implies #[trigger] q[i] == p[i] by {
            if i > 0 {
                assert(q[i] == literal_prefix(t)[i - 1]);
            }
        }
    }
}

proof fn lemma_first_unconfined(list: Seq<Seq<char>>, pkg_rel: Seq<char>)
    ensures
        match first_unconfined(list, pkg_rel) {
            Some(p) => list.contains(p) && !confined(p, pkg_rel),
            None => forall|i: int| 0 <= i < list.len() ==> confined(#[trigger] list[i], pkg_rel),
        },
    decreases list.len(),
{
    if list.len() > 0 {
        let rest = list.drop_first();
        lemma_first_unconfined(rest, pkg_rel);
        assert(list.contains(list[0]));
        match first_unconfined(rest, pkg_rel) {
            Some(p) => {
                let i = choose|i: int| 0 <= i < rest.len() && rest[i] == p;
                assert(list[i + 1] == p);
            },
            None => {
                assert forall|i: int| 0 < i < list.len() implies confined(
                    #[trigger] list[i],
                    pkg_rel,
                ) by {
                    assert(list[i] == rest[i - 1]);
                }
            },
        }
    }
}

/// The error of a tsconfig of another directory tells that it names nothing, or an entry of it,
/// among its patterns or its files, that is not confined to the package.
pub proof fn a_shared_tsconfig_is_refused_for_a_reason(
    path: Seq<char>,
    dir: Seq<char>,
    pkg_dir: Seq<char>,
    fields: FieldsView,
)
    requires
        !same_path(dir, pkg_dir),
    ensures
        ({
            let pkg_rel = slashed(relative(pkg_dir, dir));
            match scope_failure(path, dir, pkg_dir, fields) {
                None => true,
                Some(TsconfigFailure::Unscoped(p, rel)) => p == path && rel == pkg_rel
                    && fields.includes.len() == 0 && fields.files.len() == 0,
                Some(TsconfigFailure::NotConfined(p, entry, rel)) => p == path && rel == pkg_rel
                    && !confined(entry, pkg_rel) && (fields.includes.contains(entry)
                    || fields.files.contains(entry)),
                Some(_) => false,
            }
        }),
{
    let pkg_rel = slashed(relative(pkg_dir, dir));
    let all = fields.includes + fields.files;
    lemma_first_unconfined(all, pkg_rel);
    let n = fields.includes.len() as int;
    if let Some(entry) = first_unconfined(all, pkg_rel) {
        let i = choose|i: int| 0 <= i < all.len() && all[i] == entry;
        if i < n {
            assert(fields.includes[i] == entry);
        } else {
            assert(fields.files[i - n] == entry);
        }
    }
}

} // verus!
