//! What holds of the addresses of third-party packages.
use crate::deps::{flat_versions, version_addrs};
use crate::graph::{discovery, first_named, flat, flat_of, materialized, EntryView, Packages};
use crate::placement_laws::finite_sets_are_listed;
use crate::sorted::{lemma_increasing_distinct, listing};
use crate::text_laws::stands_in;
use crate::thirdparty::{escaped, needs_quotes, node_modules_text, spelled};
use vstd::prelude::*;

verus! {

/// A text in quotes can be told from what follows it.
proof fn lemma_quoted_splits(a: Seq<char>, b: Seq<char>, s: Seq<char>, t: Seq<char>)
    requires
        escaped(a) + seq!['"'] + s == escaped(b) + seq!['"'] + t,
    ensures
        a == b,
        s == t,
    decreases a.len(),
{
    let x = escaped(a) + seq!['"'] + s;
    let y = escaped(b) + seq!['"'] + t;
    if a.len() == 0 || b.len() == 0 {
        assert(x[0] == y[0]);
        assert(a =~= b);
        assert(x.skip(1) =~= s);
        assert(y.skip(1) =~= t);
    } else {
        assert(x[0] == y[0]);
        let c = a.drop_first();
        let d = b.drop_first();
        let n: int = if a[0] == '"' || a[0] == '\\' {
            2
        } else {
            1
        };
        assert(x.skip(n) =~= escaped(c) + seq!['"'] + s);
        assert(x[n - 1] == a[0]);
        assert(y[n - 1] == b[0]);
        assert(y.skip(n) =~= escaped(d) + seq!['"'] + t);
        lemma_quoted_splits(c, d, s, t);
        assert(a =~= seq![a[0]] + c);
        assert(b =~= seq![b[0]] + d);
    }
}

/// A value that is followed by a comma can be told from what follows it.
proof fn lemma_value_splits(a: Seq<char>, b: Seq<char>, s: Seq<char>, t: Seq<char>)
    requires
        s.len() > 0,
        t.len() > 0,
        s[0] == ',',
        t[0] == ',',
        spelled(a) + s == spelled(b) + t,
    ensures
        a == b,
        s == t,
{
    let x = spelled(a) + s;
    let y = spelled(b) + t;
    assert(x[0] == y[0]);
    if needs_quotes(a) && needs_quotes(b) {
        assert(x.skip(1) =~= escaped(a) + seq!['"'] + s);
        assert(y.skip(1) =~= escaped(b) + seq!['"'] + t);
        lemma_quoted_splits(a, b, s, t);
    } else if needs_quotes(a) {
        if b.len() > 0 {
            assert(b.contains(b[0]));
        }
    } else if needs_quotes(b) {
        if a.len() > 0 {
            assert(a.contains(a[0]));
        }
    } else {
        assert(x[a.len() as int] == ',');
        assert(y[b.len() as int] == ',');
        if a.len() < b.len() {
            assert(b.contains(b[a.len() as int]));
        }
        if b.len() < a.len() {
            assert(a.contains(a[b.len() as int]));
        }
        assert(a.len() == b.len());
        assert(x.take(a.len() as int) =~= a);
        assert(y.take(b.len() as int) =~= b);
        assert(x.skip(a.len() as int) =~= s);
        assert(y.skip(b.len() as int) =~= t);
    }
}

/// A named value can be told from what follows it.
proof fn lemma_field_splits(
    name: Seq<char>,
    a: Seq<char>,
    b: Seq<char>,
    s: Seq<char>,
    t: Seq<char>,
)
    requires
        s.len() > 0,
        t.len() > 0,
        s[0] == ',',
        t[0] == ',',
        name + (spelled(a) + s) == name + (spelled(b) + t),
    ensures
        a == b,
        s == t,
{
    assert((name + (spelled(a) + s)).skip(name.len() as int) =~= spelled(a) + s);
    assert((name + (spelled(b) + t)).skip(name.len() as int) =~= spelled(b) + t);
    lemma_value_splits(a, b, s, t);
}

/// What an address says.
pub struct AddressView {
    pub pkg: Seq<char>,
    pub local_name: Seq<char>,
    pub resolved_name: Seq<char>,
    pub version: Seq<char>,
    pub os: Seq<char>,
    pub arch: Seq<char>,
}

/// How an address is spelled.
pub open spec fn address_text(a: AddressView) -> Seq<char> {
    node_modules_text(a.pkg, a.local_name, a.resolved_name, a.version, a.os, a.arch)
}

proof fn lemma_regroup(before: Seq<char>, name: Seq<char>, value: Seq<char>, rest: Seq<char>)
    ensures
        before + name + value + rest == before + (name + (value + rest)),
{
    assert(before + name + value + rest =~= before + (name + (value + rest)));
}

proof fn lemma_address_fields(a: AddressView)
    ensures
        address_text(a) + seq![','] == "//@heph/js/node_modules:group@goarch="@ + (spelled(a.arch)
            + (",goos="@ + (spelled(a.os) + (",name="@ + (spelled(a.local_name) + (",pkg="@ + (
        spelled(a.pkg) + (",resolved="@ + (spelled(a.resolved_name) + (",version="@ + (spelled(
            a.version,
        ) + seq![',']))))))))))),
{
    let head = "//@heph/js/node_modules:group@goarch="@;
    let t0 = head + spelled(a.arch);
    let t1 = t0 + ",goos="@ + spelled(a.os);
    let t2 = t1 + ",name="@ + spelled(a.local_name);
    let t3 = t2 + ",pkg="@ + spelled(a.pkg);
    let t4 = t3 + ",resolved="@ + spelled(a.resolved_name);
    let v = ",version="@ + (spelled(a.version) + seq![',']);
    let r = ",resolved="@ + (spelled(a.resolved_name) + v);
    let p = ",pkg="@ + (spelled(a.pkg) + r);
    let n = ",name="@ + (spelled(a.local_name) + p);
    let o = ",goos="@ + (spelled(a.os) + n);
    lemma_regroup(t4, ",version="@, spelled(a.version), seq![',']);
    lemma_regroup(t3, ",resolved="@, spelled(a.resolved_name), v);
    lemma_regroup(t2, ",pkg="@, spelled(a.pkg), r);
    lemma_regroup(t1, ",name="@, spelled(a.local_name), p);
    lemma_regroup(t0, ",goos="@, spelled(a.os), n);
    lemma_regroup(Seq::empty(), head, spelled(a.arch), o);
    assert(Seq::<char>::empty() + head =~= head);
    assert(Seq::<char>::empty() + (head + (spelled(a.arch) + o)) =~= head + (spelled(a.arch) + o));
}

/// An address tells all that it was made of, whatever characters that holds: the package that
/// consumes, both names, the version and the platform.
pub proof fn addresses_tell_packages_apart(a: AddressView, b: AddressView)
    requires
        address_text(a) == address_text(b),
    ensures
        a == b,
{
    reveal_strlit(",goos=");
    reveal_strlit(",name=");
    reveal_strlit(",pkg=");
    reveal_strlit(",resolved=");
    reveal_strlit(",version=");
    let v1 = ",version="@ + (spelled(a.version) + seq![',']);
    let v2 = ",version="@ + (spelled(b.version) + seq![',']);
    let r1 = ",resolved="@ + (spelled(a.resolved_name) + v1);
    let r2 = ",resolved="@ + (spelled(b.resolved_name) + v2);
    let p1 = ",pkg="@ + (spelled(a.pkg) + r1);
    let p2 = ",pkg="@ + (spelled(b.pkg) + r2);
    let n1 = ",name="@ + (spelled(a.local_name) + p1);
    let n2 = ",name="@ + (spelled(b.local_name) + p2);
    let o1 = ",goos="@ + (spelled(a.os) + n1);
    let o2 = ",goos="@ + (spelled(b.os) + n2);
    let head = "//@heph/js/node_modules:group@goarch="@;
    lemma_address_fields(a);
    lemma_address_fields(b);
    lemma_field_splits(head, a.arch, b.arch, o1, o2);
    lemma_field_splits(",goos="@, a.os, b.os, n1, n2);
    lemma_field_splits(",name="@, a.local_name, b.local_name, p1, p2);
    lemma_field_splits(",pkg="@, a.pkg, b.pkg, r1, r2);
    lemma_field_splits(",resolved="@, a.resolved_name, b.resolved_name, v1, v2);
    lemma_field_splits(",version="@, a.version, b.version, seq![','], seq![',']);
}

proof fn lemma_first_named(g: Packages, order: Seq<Seq<char>>, name: Seq<char>)
    requires
        first_named(g, order, name) is Some,
    ensures
        exists|i: int| 0 <= i < order.len() && g[#[trigger] order[i]].name == name,
    decreases order.len(),
{
    if first_named(g, order.drop_last(), name) is Some {
        lemma_first_named(g, order.drop_last(), name);
        let i = choose|i: int|
            0 <= i < order.drop_last().len() && g[#[trigger] order.drop_last()[i]].name == name;
        assert(g[order[i]].name == name);
    } else {
        assert(g[order[order.len() - 1]].name == name);
    }
}

/// Only so many names are placed flat as there are packages discovered.
proof fn lemma_flat_is_finite(g: Packages, order: Seq<Seq<char>>)
    ensures
        flat_of(g, order).dom().finite(),
{
    let names = order.map_values(|k: Seq<char>| g[k].name);
    assert forall|n: Seq<char>| flat_of(g, order).dom().contains(n) implies #[trigger]
        names.to_set().contains(n) by {
        lemma_first_named(g, order, n);
        let i = choose|i: int| 0 <= i < order.len() && g[#[trigger] order[i]].name == n;
        assert(names[i] == n);
    }
    vstd::seq_lib::seq_to_set_is_finite(names);
    vstd::set_lib::lemma_set_subset_finite(names.to_set(), flat_of(g, order).dom());
}

/// Whether an address is that of a package that is placed flat.
pub open spec fn is_flat_address(
    pkg: Seq<char>,
    g: Packages,
    fm: Map<Seq<char>, Seq<char>>,
    os: Seq<char>,
    arch: Seq<char>,
    addr: Seq<char>,
) -> bool {
    exists|e: EntryView| #[trigger]
        materialized(g, fm, os, arch, e) && e.nested_under.len() == 0 && addr == node_modules_text(
            pkg,
            e.name,
            e.name,
            e.version,
            os,
            arch,
        )
}

/// The addresses of a closure are those of its flat packages, one for each, and no two are the
/// same.
pub proof fn each_flat_package_has_one_address(
    pkg: Seq<char>,
    g: Packages,
    os: Seq<char>,
    arch: Seq<char>,
    seeds: Seq<Seq<char>>,
)
    ensures
        ({
            let fm = flat(g, os, arch, seeds);
            let addrs = version_addrs(pkg, flat_versions(g, fm), os, arch);
            &&& addrs.no_duplicates()
            &&& addrs.len() == fm.dom().len()
            &&& forall|e: EntryView| #[trigger]
                materialized(g, fm, os, arch, e) && e.nested_under.len() == 0 ==> addrs.contains(
                    node_modules_text(pkg, e.name, e.name, e.version, os, arch),
                )
            &&& forall|i: int|
                0 <= i < addrs.len() ==> is_flat_address(pkg, g, fm, os, arch, #[trigger] addrs[i])
        }),
{
    let fm = flat(g, os, arch, seeds);
    let versions = flat_versions(g, fm);
    let addrs = version_addrs(pkg, versions, os, arch);
    lemma_flat_is_finite(g, discovery(g, os, arch, seeds));
    assert(versions.dom() =~= fm.dom());
    finite_sets_are_listed(fm.dom());
    let names = listing(fm.dom());
    lemma_increasing_distinct(names);
    names.unique_seq_to_set();
    assert forall|i: int| 0 <= i < names.len() implies fm.dom().contains(#[trigger] names[i]) by {
        assert(names.to_set().contains(names[i]));
    }
    assert forall|i: int, j: int| 0 <= i < addrs.len() && 0 <= j < addrs.len() && i != j implies
        addrs[i] != addrs[j] by {
        if addrs[i] == addrs[j] {
            let address = |n: int|
                AddressView {
                    pkg,
                    local_name: names[n],
                    resolved_name: names[n],
                    version: versions[names[n]],
                    os,
                    arch,
                };
            assert(addrs[i] == address_text(address(i)));
            assert(addrs[j] == address_text(address(j)));
            addresses_tell_packages_apart(address(i), address(j));
        }
    }
    assert forall|e: EntryView| #[trigger]
        materialized(g, fm, os, arch, e) && e.nested_under.len() == 0 implies addrs.contains(
        node_modules_text(pkg, e.name, e.name, e.version, os, arch),
    ) by {
        assert(names.to_set().contains(e.name));
        let i = choose|i: int| 0 <= i < names.len() && names[i] == e.name;
        assert(addrs[i] == node_modules_text(pkg, e.name, e.name, e.version, os, arch));
    }
    assert forall|i: int| 0 <= i < addrs.len() implies is_flat_address(
        pkg,
        g,
        fm,
        os,
        arch,
        #[trigger] addrs[i],
    ) by {
        let e = EntryView {
            name: names[i],
            version: versions[names[i]],
            nested_under: Seq::empty(),
        };
        assert(materialized(g, fm, os, arch, e));
    }
}

/// An address tells the platform, the names, the package and the version that it is of.
pub proof fn an_address_tells_what_it_is_of(
    pkg: Seq<char>,
    local: Seq<char>,
    resolved: Seq<char>,
    version: Seq<char>,
    os: Seq<char>,
    arch: Seq<char>,
)
    ensures
        ({
            let a = node_modules_text(pkg, local, resolved, version, os, arch);
            &&& stands_in("@goarch="@ + spelled(arch) + ",goos="@, a)
            &&& stands_in(",goos="@ + spelled(os) + ",name="@, a)
            &&& stands_in(",name="@ + spelled(local) + ",pkg="@, a)
            &&& stands_in(",pkg="@ + spelled(pkg) + ",resolved="@, a)
            &&& stands_in(",resolved="@ + spelled(resolved) + ",version="@, a)
            &&& stands_in(",version="@ + spelled(version), a)
        }),
        !version.contains(',') && !version.contains('"') && !version.contains('\\') ==> spelled(
            version,
        ) == version,
{
    reveal_strlit("//@heph/js/node_modules:group@goarch=");
    reveal_strlit("@goarch=");
    let a = node_modules_text(pkg, local, resolved, version, os, arch);
    let g = "//@heph/js/node_modules:group@goarch="@;
    let start = g.take(g.len() - 8);
    assert(g =~= start + "@goarch="@);
    let h0 = start;
    let p0 = "@goarch="@ + spelled(arch) + ",goos="@;
    lemma_part(a, h0, p0);
    let h1 = g + spelled(arch);
    lemma_part(a, h1, ",goos="@ + spelled(os) + ",name="@);
    let h2 = h1 + ",goos="@ + spelled(os);
    lemma_part(a, h2, ",name="@ + spelled(local) + ",pkg="@);
    let h3 = h2 + ",name="@ + spelled(local);
    lemma_part(a, h3, ",pkg="@ + spelled(pkg) + ",resolved="@);
    let h4 = h3 + ",pkg="@ + spelled(pkg);
    lemma_part(a, h4, ",resolved="@ + spelled(resolved) + ",version="@);
    let h5 = h4 + ",resolved="@ + spelled(resolved);
    lemma_part(a, h5, ",version="@ + spelled(version));
}

proof fn lemma_part(whole: Seq<char>, head: Seq<char>, part: Seq<char>)
    ensures
        head.len() + part.len() <= whole.len() && whole.subrange(
            head.len() as int,
            (head.len() + part.len()) as int,
        ) =~= part ==> stands_in(part, whole),
{
    let i: int = head.len() as int;
    if head.len() + part.len() <= whole.len() && whole.subrange(
        i,
        (head.len() + part.len()) as int,
    ) =~= part {
        assert(whole.subrange(i, i + part.len() as int) == part);
    }
}

} // verus!
