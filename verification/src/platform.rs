//! The platform axis of third-party packages: the restriction lists that lockfiles
//! record, and the names in which a platform is spelled.
use crate::text::{same, strip_prefix, texts};
use vstd::prelude::*;

verus! {

/// Canonical operating system name of a compilation target's name.
pub open spec fn canonical_os(target_os: Seq<char>) -> Seq<char> {
    if target_os == "macos"@ {
        "darwin"@
    } else {
        target_os
    }
}

/// Canonical architecture name of a compilation target's name.
pub open spec fn canonical_arch(target_arch: Seq<char>) -> Seq<char> {
    if target_arch == "x86_64"@ {
        "amd64"@
    } else if target_arch == "aarch64"@ {
        "arm64"@
    } else if target_arch == "x86"@ {
        "386"@
    } else {
        target_arch
    }
}

/// The host's operating system in canonical naming, given the name of the compilation
/// target.
pub fn current_os(target_os: &str) -> (r: String)
    ensures
        r@ == canonical_os(target_os@),
{
    if same(target_os, "macos") {
        "darwin".to_owned()
    } else {
        target_os.to_owned()
    }
}

/// The host's architecture in canonical naming, given the name of the compilation target.
pub fn current_arch(target_arch: &str) -> (r: String)
    ensures
        r@ == canonical_arch(target_arch@),
{
    if same(target_arch, "x86_64") {
        "amd64".to_owned()
    } else if same(target_arch, "aarch64") {
        "arm64".to_owned()
    } else if same(target_arch, "x86") {
        "386".to_owned()
    } else {
        target_arch.to_owned()
    }
}

/// Node's name of a canonical architecture.
pub open spec fn node_arch(arch: Seq<char>) -> Seq<char> {
    if arch == "amd64"@ {
        "x64"@
    } else {
        arch
    }
}

/// Node's name of a canonical architecture: `amd64` is `x64`, every other name is kept.
pub fn npm_cpu<'a>(arch: &'a str) -> (r: &'a str)
    ensures
        r@ == node_arch(arch@),
{
    if same(arch, "amd64") {
        "x64"
    } else {
        arch
    }
}

/// Whether a restriction list holds an exclusion.
pub open spec fn has_exclusion(list: Seq<Seq<char>>) -> bool {
    exists|i: int| 0 <= i < list.len() && "!"@.is_prefix_of(#[trigger] list[i])
}

/// Whether a restriction list permits a value: an empty list permits everything, a list
/// with exclusions permits what it does not exclude, any other list what it names.
pub open spec fn permits(list: Seq<Seq<char>>, value: Seq<char>) -> bool {
    if list.len() == 0 {
        true
    } else if has_exclusion(list) {
        !list.contains("!"@ + value)
    } else {
        list.contains(value)
    }
}

/// Whether a restriction list permits `value`.
pub fn matches_restriction_list(list: &[String], value: &str) -> (r: bool)
    ensures
        r == permits(texts(list@), value@),
{
    if list.len() == 0 {
        return true;
    }
    let ghost ls = texts(list@);
    proof {
        reveal_strlit("!");
    }
    let mut saw_negation = false;
    let mut listed = false;
    let mut i: usize = 0;
    while i < list.len()
        invariant
            i <= list.len(),
            ls == texts(list@),
            "!"@.len() == 1,
            saw_negation == exists|j: int|
                0 <= j < i && "!"@.is_prefix_of(#[trigger] ls[j]),
            listed == exists|j: int| 0 <= j < i && #[trigger] ls[j] == value@,
            forall|j: int| 0 <= j < i ==> #[trigger] ls[j] != "!"@ + value@,
        decreases list.len() - i,
    {
        assert(ls[i as int] == list@[i as int]@);
        if let Some(excluded) = strip_prefix(list[i].as_str(), "!") {
            saw_negation = true;
            assert("!"@.is_prefix_of(ls[i as int]));
            assert(ls[i as int] =~= "!"@ + excluded@);
            if same(excluded.as_str(), value) {
                assert(ls.contains("!"@ + value@));
                return false;
            }
            assert(ls[i as int] != "!"@ + value@) by {
                if ls[i as int] == "!"@ + value@ {
                    assert(excluded@ =~= value@);
                }
            }
        } else {
            assert(ls[i as int] != "!"@ + value@) by {
                if ls[i as int] == "!"@ + value@ {
                    assert(ls[i as int].subrange(0, 1) =~= "!"@);
                }
            }
        }
        if same(list[i].as_str(), value) {
            listed = true;
        }
        i = i + 1;
    }
    if saw_negation {
        true
    } else {
        listed
    }
}

/// Whether a package restricted to the given operating systems and processors applies to
/// a platform.
pub open spec fn applies_to(
    os_restrict: Seq<Seq<char>>,
    cpu_restrict: Seq<Seq<char>>,
    os: Seq<char>,
    arch: Seq<char>,
) -> bool {
    permits(os_restrict, os) && permits(cpu_restrict, node_arch(arch))
}

/// Whether a package's recorded `os` and `cpu` restriction lists permit the given platform.
pub fn matches_platform(
    os_restrict: &[String],
    cpu_restrict: &[String],
    os: &str,
    arch: &str,
) -> (r: bool)
    ensures
        r == applies_to(texts(os_restrict@), texts(cpu_restrict@), os@, arch@),
{
    matches_restriction_list(os_restrict, os) && matches_restriction_list(
        cpu_restrict,
        npm_cpu(arch),
    )
}

/// A package without restriction lists applies to every platform.
pub proof fn unrestricted_applies_everywhere(os: Seq<char>, arch: Seq<char>)
    ensures
        applies_to(Seq::empty(), Seq::empty(), os, arch),
{
}

/// A list that only excludes permits exactly the values that it does not exclude.
pub proof fn exclusions_permit_the_rest(list: Seq<Seq<char>>, value: Seq<char>)
    requires
        list.len() > 0,
        forall|i: int| 0 <= i < list.len() ==> "!"@.is_prefix_of(#[trigger] list[i]),
    ensures
        permits(list, value) <==> !list.contains("!"@ + value),
{
    assert("!"@.is_prefix_of(list[0]));
}

/// A list without exclusions permits exactly the values that it names.
pub proof fn plain_lists_permit_what_they_name(list: Seq<Seq<char>>, value: Seq<char>)
    requires
        list.len() > 0,
        !has_exclusion(list),
    ensures
        permits(list, value) <==> list.contains(value),
{
}

/// A list with an exclusion permits exactly the values that it does not exclude, whatever else
/// it names.
pub proof fn an_exclusion_permits_the_rest(list: Seq<Seq<char>>, excluded: Seq<char>, value: Seq<char>)
    requires
        list.contains("!"@ + excluded),
    ensures
        permits(list, value) <==> !list.contains("!"@ + value),
        !permits(list, excluded),
{
    let i = choose|i: int| 0 <= i < list.len() && list[i] == "!"@ + excluded;
    assert(list[i].subrange(0, "!"@.len() as int) =~= "!"@);
    assert("!"@.is_prefix_of(list[i]));
}

/// A package that names its operating systems and processors applies exactly where both are
/// named, the processors by the names that Node has for them: `x64` is `amd64`, and every other
/// is called as the platform calls it.
pub proof fn named_platforms_are_the_only_ones(
    os_restrict: Seq<Seq<char>>,
    cpu_restrict: Seq<Seq<char>>,
    os: Seq<char>,
    arch: Seq<char>,
)
    requires
        os_restrict.len() > 0,
        cpu_restrict.len() > 0,
        !has_exclusion(os_restrict),
        !has_exclusion(cpu_restrict),
    ensures
        applies_to(os_restrict, cpu_restrict, os, arch) <==> os_restrict.contains(os) && (if arch
            == "amd64"@ {
            cpu_restrict.contains("x64"@)
        } else {
            cpu_restrict.contains(arch)
        }),
        applies_to(os_restrict, Seq::empty(), os, arch) <==> os_restrict.contains(os),
        applies_to(Seq::empty(), cpu_restrict, os, "amd64"@) <==> cpu_restrict.contains("x64"@),
{
}

/// A package that excludes the operating system or the processor of a platform never applies to
/// it, whatever the other list says.
pub proof fn an_excluded_platform_never_applies(
    os_restrict: Seq<Seq<char>>,
    cpu_restrict: Seq<Seq<char>>,
    os: Seq<char>,
    arch: Seq<char>,
)
    requires
        os_restrict.contains("!"@ + os) || arch == "amd64"@ && cpu_restrict.contains("!x64"@)
            || arch != "amd64"@ && cpu_restrict.contains("!"@ + arch),
    ensures
        !applies_to(os_restrict, cpu_restrict, os, arch),
{
    reveal_strlit("!x64");
    reveal_strlit("!");
    reveal_strlit("x64");
    assert("!x64"@ =~= "!"@ + "x64"@);
    if os_restrict.contains("!"@ + os) {
        an_exclusion_permits_the_rest(os_restrict, os, os);
    } else if arch == "amd64"@ {
        an_exclusion_permits_the_rest(cpu_restrict, "x64"@, "x64"@);
    } else {
        an_exclusion_permits_the_rest(cpu_restrict, arch, arch);
    }
}

/// Every name of a compilation target is kept but for those that are called otherwise: `macos`,
/// `x86_64`, `aarch64` and `x86`.
pub proof fn only_some_names_are_translated(name: Seq<char>)
    ensures
        name != "macos"@ ==> canonical_os(name) == name,
        canonical_os("macos"@) == "darwin"@,
        name != "x86_64"@ && name != "aarch64"@ && name != "x86"@ ==> canonical_arch(name) == name,
        canonical_arch("x86_64"@) == "amd64"@,
        canonical_arch("aarch64"@) == "arm64"@,
        canonical_arch("x86"@) == "386"@,
{
    reveal_strlit("macos");
    reveal_strlit("x86_64");
    reveal_strlit("aarch64");
    reveal_strlit("x86");
    assert("x86_64"@.len() == 6);
    assert("aarch64"@.len() == 7);
    assert("x86"@.len() == 3);
}

} // verus!
