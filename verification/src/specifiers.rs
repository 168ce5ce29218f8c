//! The npm package that a specifier names by its own text.
use crate::text::{
    after_char, ends_with, lemma_find_char, split_once, starts_with, to_chars, upto, upto_char,
    texts, same,
};
use vstd::prelude::*;

verus! {

/// Whether a specifier names a module that comes with Node, as nodejs-built-in-modules lists
/// them.
pub uninterp spec fn builtin_module(specifier: Seq<char>) -> bool;

/// `nodejs_built_in_modules::is_nodejs_builtin_module`: whether its tables list the specifier,
/// with the `node:` prefix or without.
#[verifier::external_body]
fn is_builtin_module(specifier: &str) -> (r: bool)
    ensures
        r == builtin_module(specifier@),
{
    nodejs_built_in_modules::is_nodejs_builtin_module(specifier)
}

/// The package that a specifier names by Node's grammar of package names, given whether it is
/// a built-in module: a name, or a scope and a name, whatever path follows. Relative and
/// absolute paths, `#` subpaths, built-in modules and malformed scopes name none.
pub open spec fn named_package(s: Seq<char>, builtin: bool) -> Option<Seq<char>> {
    if s.len() == 0 || s[0] == '.' || s[0] == '/' || s[0] == '#' || builtin {
        None
    } else if s[0] == '@' {
        let scope = upto_char(s.skip(1), '/');
        let rest = after_char(s.skip(1), '/');
        if scope.len() == 0 || rest.len() == 0 {
            None
        } else {
            Some("@"@ + scope + "/"@ + upto_char(rest, '/'))
        }
    } else {
        Some(upto_char(s, '/'))
    }
}

/// The package that a specifier names, given whether it is a built-in module.
pub fn package_named_by(specifier: &str, builtin: bool) -> (r: Option<String>)
    ensures
        match r {
            Some(s) => named_package(specifier@, builtin) == Some(s@),
            None => named_package(specifier@, builtin) is None,
        },
{
    let v = to_chars(specifier);
    if v.len() == 0 || v[0] == '.' || v[0] == '/' || v[0] == '#' || builtin {
        return None;
    }
    if v[0] == '@' {
        let rest = crate::text::from_range(&v, 1, v.len());
        assert(rest@ =~= specifier@.skip(1));
        proof {
            lemma_find_char(rest@, '/');
        }
        match split_once(rest.as_str(), '/') {
            None => None,
            Some((scope, name)) => {
                let sv = to_chars(scope.as_str());
                let nv = to_chars(name.as_str());
                if sv.len() == 0 || nv.len() == 0 {
                    return None;
                }
                let mut out = "@".to_owned();
                out.append(scope.as_str());
                out.append("/");
                out.append(upto(name.as_str(), '/').as_str());
                Some(out)
            },
        }
    } else {
        Some(upto(specifier, '/'))
    }
}

/// The npm package that a bare specifier names by its own text.
pub open spec fn bare_package(s: Seq<char>) -> Option<Seq<char>> {
    named_package(s, builtin_module(s))
}

/// The npm package that a bare specifier names by its own text, whether or not it resolves to
/// anything on disk.
pub fn bare_specifier_package_name(specifier: &str) -> (r: Option<String>)
    ensures
        match r {
            Some(s) => bare_package(specifier@) == Some(s@),
            None => bare_package(specifier@) is None,
        },
{
    package_named_by(specifier, is_builtin_module(specifier))
}

/// Whether a `paths` key of a tsconfig stands for a specifier: the same text, or around its
/// first `*` what the specifier starts and ends with.
pub open spec fn pattern_covers(pattern: Seq<char>, s: Seq<char>) -> bool {
    if !pattern.contains('*') {
        pattern == s
    } else {
        let prefix = upto_char(pattern, '*');
        let suffix = after_char(pattern, '*');
        prefix.len() + suffix.len() <= s.len() && prefix.is_prefix_of(s) && suffix.is_suffix_of(s)
    }
}

/// Whether a `paths` key of a tsconfig stands for a specifier.
pub fn tsconfig_pattern_matches(pattern: &str, specifier: &str) -> (r: bool)
    ensures
        r == pattern_covers(pattern@, specifier@),
{
    proof {
        lemma_find_char(pattern@, '*');
    }
    match split_once(pattern, '*') {
        None => same(pattern, specifier),
        Some((prefix, suffix)) => {
            let p = to_chars(prefix.as_str());
            let x = to_chars(suffix.as_str());
            let s = to_chars(specifier);
            p.len() <= s.len() && x.len() <= s.len() - p.len() && starts_with(
                specifier,
                prefix.as_str(),
            ) && ends_with(specifier, suffix.as_str())
        },
    }
}

/// Whether a package's tsconfig could give a bare specifier another meaning than the npm
/// package of that name.
#[derive(Debug)]
pub enum BareSpecifierGuard {
    /// Nothing can.
    Unrestricted,
    /// Only what one of these `paths` keys stands for.
    ExceptPatterns(Vec<String>),
    /// Anything may.
    Disabled,
}

/// A guard as mathematical values.
pub enum GuardView {
    Unrestricted,
    ExceptPatterns(Seq<Seq<char>>),
    Disabled,
}

impl View for BareSpecifierGuard {
    type V = GuardView;

    open spec fn view(&self) -> GuardView {
        match self {
            BareSpecifierGuard::Unrestricted => GuardView::Unrestricted,
            BareSpecifierGuard::ExceptPatterns(p) => GuardView::ExceptPatterns(texts(p@)),
            BareSpecifierGuard::Disabled => GuardView::Disabled,
        }
    }
}

/// Whether one of some `paths` keys stands for a specifier.
pub open spec fn some_covers(list: Seq<Seq<char>>, s: Seq<char>) -> bool {
    exists|i: int| 0 <= i < list.len() && #[trigger] pattern_covers(list[i], s)
}

/// Whether a guard lets a specifier be taken for the package that it names.
pub open spec fn guard_allows(g: GuardView, s: Seq<char>) -> bool {
    match g {
        GuardView::Unrestricted => true,
        GuardView::ExceptPatterns(list) => !some_covers(list, s),
        GuardView::Disabled => false,
    }
}

impl BareSpecifierGuard {
    /// Whether a specifier may be taken for the package that it names.
    pub fn allows(&self, specifier: &str) -> (r: bool)
        ensures
            r == guard_allows(self@, specifier@),
    {
        match self {
            BareSpecifierGuard::Unrestricted => true,
            BareSpecifierGuard::Disabled => false,
            BareSpecifierGuard::ExceptPatterns(patterns) => {
                let ghost list = texts(patterns@);
                let mut i: usize = 0;
                while i < patterns.len()
                    invariant
                        i <= patterns.len(),
                        list == texts(patterns@),
                        self@ == GuardView::ExceptPatterns(list),
                        forall|k: int|
                            0 <= k < i ==> !#[trigger] pattern_covers(list[k], specifier@),
                    decreases patterns.len() - i,
                {
                    assert(list[i as int] == patterns@[i as int]@);
                    if tsconfig_pattern_matches(patterns[i].as_str(), specifier) {
                        proof {
                            assert(list.len() == patterns@.len());
                            assert(pattern_covers(list[i as int], specifier@));
                        }
                        return false;
                    }
                    i = i + 1;
                }
                true
            },
        }
    }
}

/// The package that a specifier names has neither a path nor an empty scope: naming the
/// package itself names the same package.
pub proof fn package_names_name_themselves(s: Seq<char>)
    requires
        named_package(s, false) is Some,
        s[0] == '@' ==> upto_char(after_char(s.skip(1), '/'), '/').len() > 0,
    ensures
        named_package(named_package(s, false)->0, false) == named_package(s, false),
{
    reveal_strlit("@");
    reveal_strlit("/");
    let n = named_package(s, false)->0;
    if s[0] == '@' {
        let t = s.skip(1);
        let scope = upto_char(t, '/');
        let rest = after_char(t, '/');
        let name = upto_char(rest, '/');
        lemma_find_char(t, '/');
        lemma_find_char(rest, '/');
        let u = n.skip(1);
        assert(u =~= scope + "/"@ + name);
        assert forall|j: int| 0 <= j < scope.len() implies u[j] != '/' by {
            assert(u[j] == t[j]);
        }
        assert(u[scope.len() as int] == '/');
        crate::text::lemma_find_char_is(u, '/', scope.len() as int);
        assert(upto_char(u, '/') =~= scope);
        assert(after_char(u, '/') =~= name);
        assert forall|j: int| 0 <= j < name.len() implies name[j] != '/' by {
            assert(name[j] == rest[j]);
        }
        crate::text::lemma_find_char_is(name, '/', name.len() as int);
        assert(upto_char(name, '/') =~= name);
        assert(n[0] == '@');
    } else {
        lemma_find_char(s, '/');
        assert(n[0] == s[0]);
        assert forall|j: int| 0 <= j < n.len() implies n[j] != '/' by {
            assert(n[j] == s[j]);
        }
        crate::text::lemma_find_char_is(n, '/', n.len() as int);
        assert(upto_char(n, '/') =~= n);
    }
}

} // verus!
