//! Addresses of third-party packages.
use crate::text::{split_once, to_chars};
use vstd::prelude::*;

verus! {

/// A text in quotes: a quote or a backslash in it comes after a backslash.
pub open spec fn escaped(s: Seq<char>) -> Seq<char>
    decreases s.len(),
{
    if s.len() == 0 {
        Seq::empty()
    } else if s[0] == '"' || s[0] == '\\' {
        seq!['\\', s[0]] + escaped(s.drop_first())
    } else {
        seq![s[0]] + escaped(s.drop_first())
    }
}

/// Whether a value of an address has to be quoted.
pub open spec fn needs_quotes(s: Seq<char>) -> bool {
    s.contains(',') || s.contains('"') || s.contains('\\')
}

/// How a value is spelled in an address: as it is, or in quotes where it could be taken for
/// something else.
pub open spec fn spelled(s: Seq<char>) -> Seq<char> {
    if needs_quotes(s) {
        seq!['"'] + escaped(s) + seq!['"']
    } else {
        s
    }
}

/// The address of the target that places a third-party package into the `node_modules` of the
/// package that consumes it: `local_name` names the directory, `resolved_name` and `version`
/// what is placed there.
pub open spec fn node_modules_text(
    consuming_pkg: Seq<char>,
    local_name: Seq<char>,
    resolved_name: Seq<char>,
    version: Seq<char>,
    goos: Seq<char>,
    goarch: Seq<char>,
) -> Seq<char> {
    "//@heph/js/node_modules:group@goarch="@ + spelled(goarch) + ",goos="@ + spelled(goos)
        + ",name="@ + spelled(local_name) + ",pkg="@ + spelled(consuming_pkg) + ",resolved="@
        + spelled(resolved_name) + ",version="@ + spelled(version)
}

/// How a value is spelled in an address.
fn spell(s: &str) -> (r: String)
    ensures
        r@ == spelled(s@),
{
    if split_once(s, ',').is_none() && split_once(s, '"').is_none() && split_once(
        s,
        '\\',
    ).is_none() {
        return s.to_owned();
    }
    let v = to_chars(s);
    let mut out = String::new();
    out.push('"');
    let mut i: usize = 0;
    assert(v@.skip(0) =~= s@);
    assert(out@ + escaped(v@.skip(0)) =~= seq!['"'] + escaped(s@));
    while i < v.len()
        invariant
            i <= v.len(),
            out@ + escaped(v@.skip(i as int)) == seq!['"'] + escaped(s@),
        decreases v.len() - i,
    {
        let c = v[i];
        let ghost before = out@;
        proof {
            assert(v@.skip(i as int)[0] == c);
            assert(v@.skip(i as int).drop_first() =~= v@.skip(i + 1));
        }
        if c == '"' || c == '\\' {
            out.push('\\');
        }
        out.push(c);
        proof {
            assert(out@ + escaped(v@.skip(i + 1)) =~= before + escaped(v@.skip(i as int)));
        }
        i = i + 1;
    }
    assert(out@ + escaped(v@.skip(i as int)) =~= out@);
    out.push('"');
    out
}

/// The address of the target that places a third-party package into the `node_modules` of the
/// package that consumes it.
pub fn node_modules_addr(
    consuming_pkg: &str,
    local_name: &str,
    resolved_name: &str,
    version: &str,
    goos: &str,
    goarch: &str,
) -> (r: String)
    ensures
        r@ == node_modules_text(
            consuming_pkg@,
            local_name@,
            resolved_name@,
            version@,
            goos@,
            goarch@,
        ),
{
    "//@heph/js/node_modules:group@goarch=".to_owned().concat(spell(goarch).as_str()).concat(
        ",goos=",
    ).concat(spell(goos).as_str()).concat(",name=").concat(spell(local_name).as_str()).concat(
        ",pkg=",
    ).concat(spell(consuming_pkg).as_str()).concat(",resolved=").concat(
        spell(resolved_name).as_str(),
    ).concat(",version=").concat(spell(version).as_str())
}

} // verus!
