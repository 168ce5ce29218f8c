//! What is read out of manifests and lockfiles, field by field. The objects of a document have
//! each name once.
use crate::decode::{decoded_field, decoded_map, list_field, map_field, string_map, Decode};
use crate::json::{field, json_document, member, yaml_document, JsonTree};
use crate::lockfile::{lock_graph, lock_of, LockView, PkgManager};
use crate::npm::{npm_entries, npm_graph, NpmEntries, NpmEntry, NpmEntryView};
use crate::package_json::{manifest_of, manifest_shape};
use crate::pnpm::{
    filled, pnpm_graph, pnpm_sections, ImporterView, MetaView, PnpmDepRef, PnpmImporter,
    PnpmPackageMeta, PnpmSnapshot, PnpmView, SnapshotView,
};
use crate::tree::{text_at, FilesView};
use crate::workspace::package_name_at;
use vstd::prelude::*;

verus! {

/// Whether the members of an object have each name once.
pub open spec fn named_once(ms: Seq<(Seq<char>, JsonTree)>) -> bool {
    forall|i: int, j: int|
        0 <= i < ms.len() && 0 <= j < ms.len() && i != j ==> (#[trigger] ms[i]).0 != (
        #[trigger] ms[j]).0
}

/// Whether a field, if it is an object, has each name once.
pub open spec fn field_named_once(t: JsonTree, key: Seq<char>) -> bool {
    field(t, key) matches Some(JsonTree::Object(ms)) ==> named_once(ms)
}

/// Whether the object under a field has the text `v` under the name `n`.
pub open spec fn entry(t: JsonTree, key: Seq<char>, n: Seq<char>, v: Seq<char>) -> bool {
    field(t, key) matches Some(d) && field(d, n) == Some(JsonTree::Str(v))
}

proof fn lemma_member(ms: Seq<(Seq<char>, JsonTree)>, i: int)
    requires
        named_once(ms),
        0 <= i < ms.len(),
    ensures
        member(ms, ms[i].0) == Some(ms[i].1),
    decreases ms.len(),
{
    if i > 0 {
        let rest = ms.drop_first();
        assert forall|a: int, b: int| 0 <= a < rest.len() && 0 <= b < rest.len() && a != b implies (
        #[trigger] rest[a]).0 != (#[trigger] rest[b]).0 by {
            assert(rest[a] == ms[a + 1]);
            assert(rest[b] == ms[b + 1]);
        }
        assert(ms[0].0 != ms[i].0);
        assert(rest[i - 1] == ms[i]);
        lemma_member(rest, i - 1);
    }
}

proof fn lemma_member_stands(ms: Seq<(Seq<char>, JsonTree)>, k: Seq<char>) -> (i: int)
    requires
        member(ms, k) is Some,
    ensures
        0 <= i < ms.len(),
        ms[i].0 == k,
        member(ms, k) == Some(ms[i].1),
    decreases ms.len(),
{
    if ms[0].0 == k {
        0
    } else {
        let i = lemma_member_stands(ms.drop_first(), k);
        assert(ms.drop_first()[i] == ms[i + 1]);
        i + 1
    }
}

proof fn lemma_string_map(ms: Seq<(Seq<char>, JsonTree)>, k: Seq<char>)
    requires
        named_once(ms),
    ensures
        string_map(ms).dom().contains(k) <==> exists|i: int|
            0 <= i < ms.len() && (#[trigger] ms[i]).0 == k,
        forall|i: int|
            0 <= i < ms.len() && (#[trigger] ms[i]).0 == k ==> string_map(ms)[k] == ms[i].1->Str_0,
    decreases ms.len(),
{
    if ms.len() > 0 {
        let rest = ms.drop_last();
        assert(named_once(rest));
        lemma_string_map(rest, k);
        assert forall|i: int| 0 <= i < rest.len() implies rest[i] == ms[i] by {}
        if ms.last().0 == k {
            assert(ms[ms.len() - 1].0 == k);
            assert forall|i: int| 0 <= i < ms.len() && (#[trigger] ms[i]).0 == k implies i
                == ms.len() - 1 by {}
        }
        if string_map(rest).dom().contains(k) {
            let i = choose|i: int| 0 <= i < rest.len() && (#[trigger] rest[i]).0 == k;
            assert(ms[i].0 == k);
        }
        if exists|i: int| 0 <= i < ms.len() && (#[trigger] ms[i]).0 == k {
            let i = choose|i: int| 0 <= i < ms.len() && (#[trigger] ms[i]).0 == k;
            if i < rest.len() {
                assert(rest[i].0 == k);
            }
        }
        assert forall|i: int| 0 <= i < ms.len() && (#[trigger] ms[i]).0 == k implies string_map(
            ms,
        )[k] == ms[i].1->Str_0 by {
            if i < rest.len() {
                assert(rest[i].0 == k);
                assert(ms[ms.len() - 1].0 != k);
            }
        }
    }
}

/// The table that a field holds has exactly the texts that stand under its names.
pub proof fn tables_hold_their_entries(t: JsonTree, key: Seq<char>, n: Seq<char>, v: Seq<char>)
    requires
        field_named_once(t, key),
        map_field(field(t, key)) is Some,
    ensures
        ({
            let m = map_field(field(t, key))->0;
            m.dom().contains(n) && m[n] == v <==> entry(t, key, n, v)
        }),
{
    if let Some(JsonTree::Object(ms)) = field(t, key) {
        lemma_string_map(ms, n);
        if exists|i: int| 0 <= i < ms.len() && (#[trigger] ms[i]).0 == n {
            let i = choose|i: int| 0 <= i < ms.len() && (#[trigger] ms[i]).0 == n;
            lemma_member(ms, i);
            assert(ms[i].1 is Str);
        }
        if member(ms, n) is Some {
            let i = lemma_member_stands(ms, n);
            assert(ms[i].0 == n);
        }
    }
}

/// A manifest holds its name, its entry file and each of its dependencies under the group that
/// declares it. An optional dependency is a dependency too, with the range that the dependencies
/// give it where they name it.
pub proof fn a_manifest_holds_its_dependencies(t: JsonTree, n: Seq<char>, v: Seq<char>)
    requires
        manifest_shape(t),
        field_named_once(t, "dependencies"@),
        field_named_once(t, "devDependencies"@),
        field_named_once(t, "optionalDependencies"@),
        field_named_once(t, "peerDependencies"@),
    ensures
        ({
            let m = manifest_of(t);
            &&& m.dev_dependencies.dom().contains(n) && m.dev_dependencies[n] == v <==> entry(
                t,
                "devDependencies"@,
                n,
                v,
            )
            &&& m.peer_dependencies.dom().contains(n) && m.peer_dependencies[n] == v <==> entry(
                t,
                "peerDependencies"@,
                n,
                v,
            )
            &&& m.optional_dependencies.dom().contains(n) && m.optional_dependencies[n] == v
                <==> entry(t, "optionalDependencies"@, n, v)
            &&& entry(t, "dependencies"@, n, v) ==> m.dependencies.dom().contains(n)
                && m.dependencies[n] == v
            &&& entry(t, "optionalDependencies"@, n, v) ==> m.dependencies.dom().contains(n)
            &&& m.dependencies.dom().contains(n) && m.dependencies[n] == v ==> entry(
                t,
                "dependencies"@,
                n,
                v,
            ) || entry(t, "optionalDependencies"@, n, v)
            &&& field(t, "name"@) == Some(JsonTree::Str(v)) ==> m.name == v
            &&& m.main == Some(v) <==> field(t, "main"@) == Some(JsonTree::Str(v))
        }),
{
    tables_hold_their_entries(t, "dependencies"@, n, v);
    tables_hold_their_entries(t, "devDependencies"@, n, v);
    tables_hold_their_entries(t, "optionalDependencies"@, n, v);
    tables_hold_their_entries(t, "peerDependencies"@, n, v);
}

/// An entry of `package-lock.json` holds its texts, its flags, its platforms and each of its
/// dependencies under the group that declares it.
pub proof fn an_npm_entry_holds_its_fields(t: JsonTree, e: NpmEntryView, n: Seq<char>, v: Seq<char>)
    requires
        <NpmEntry as Decode>::decoded(t) == Some(e),
        field_named_once(t, "dependencies"@),
        field_named_once(t, "optionalDependencies"@),
    ensures
        e.name == Some(v) <==> field(t, "name"@) == Some(JsonTree::Str(v)),
        e.version == Some(v) <==> field(t, "version"@) == Some(JsonTree::Str(v)),
        e.resolved == Some(v) <==> field(t, "resolved"@) == Some(JsonTree::Str(v)),
        e.integrity == Some(v) <==> field(t, "integrity"@) == Some(JsonTree::Str(v)),
        e.has_install_script <==> field(t, "hasInstallScript"@) == Some(JsonTree::Bool(true)),
        e.link <==> field(t, "link"@) == Some(JsonTree::Bool(true)),
        e.dependencies.dom().contains(n) && e.dependencies[n] == v <==> entry(
            t,
            "dependencies"@,
            n,
            v,
        ),
        e.optional_dependencies.dom().contains(n) && e.optional_dependencies[n] == v <==> entry(
            t,
            "optionalDependencies"@,
            n,
            v,
        ),
        e.os.contains(v) <==> (field(t, "os"@) matches Some(JsonTree::Array(items))
            && items.contains(JsonTree::Str(v))),
        e.cpu.contains(v) <==> (field(t, "cpu"@) matches Some(JsonTree::Array(items))
            && items.contains(JsonTree::Str(v))),
{
    tables_hold_their_entries(t, "dependencies"@, n, v);
    tables_hold_their_entries(t, "optionalDependencies"@, n, v);
    lists_hold_their_texts(field(t, "os"@), v);
    lists_hold_their_texts(field(t, "cpu"@), v);
}

/// The list that a field holds has exactly its texts.
pub proof fn lists_hold_their_texts(f: Option<JsonTree>, v: Seq<char>)
    requires
        list_field(f) is Some,
    ensures
        list_field(f)->0.contains(v) <==> (f matches Some(JsonTree::Array(items))
            && items.contains(JsonTree::Str(v))),
{
    if let Some(JsonTree::Array(items)) = f {
        let l = list_field(f)->0;
        if items.contains(JsonTree::Str(v)) {
            let i = choose|i: int| 0 <= i < items.len() && items[i] == JsonTree::Str(v);
            assert(l[i] == v);
        }
        if l.contains(v) {
            let i = choose|i: int| 0 <= i < l.len() && l[i] == v;
            assert(items[i] is Str);
            assert(items[i] == JsonTree::Str(v));
        }
    }
}

proof fn lemma_decoded_map<T: Decode>(ms: Seq<(Seq<char>, JsonTree)>, k: Seq<char>)
    requires
        named_once(ms),
    ensures
        decoded_map::<T>(ms).dom().contains(k) <==> exists|i: int|
            0 <= i < ms.len() && (#[trigger] ms[i]).0 == k,
        forall|i: int|
            0 <= i < ms.len() && (#[trigger] ms[i]).0 == k ==> decoded_map::<T>(ms)[k]
                == T::decoded(ms[i].1)->0,
    decreases ms.len(),
{
    if ms.len() > 0 {
        let rest = ms.drop_last();
        assert(named_once(rest));
        lemma_decoded_map::<T>(rest, k);
        assert forall|i: int| 0 <= i < rest.len() implies rest[i] == ms[i] by {}
        if ms.last().0 == k {
            assert(ms[ms.len() - 1].0 == k);
        }
        if decoded_map::<T>(rest).dom().contains(k) {
            let i = choose|i: int| 0 <= i < rest.len() && (#[trigger] rest[i]).0 == k;
            assert(ms[i].0 == k);
        }
        if exists|i: int| 0 <= i < ms.len() && (#[trigger] ms[i]).0 == k {
            let i = choose|i: int| 0 <= i < ms.len() && (#[trigger] ms[i]).0 == k;
            if i < rest.len() {
                assert(rest[i].0 == k);
            }
        }
        assert forall|i: int| 0 <= i < ms.len() && (#[trigger] ms[i]).0 == k implies decoded_map::<
            T,
        >(ms)[k] == T::decoded(ms[i].1)->0 by {
            if i < rest.len() {
                assert(rest[i].0 == k);
                assert(ms[ms.len() - 1].0 != k);
            }
        }
    }
}

/// A section of a document has exactly the entries that stand under its names, each as it reads.
proof fn lemma_section<T: Decode>(f: Option<JsonTree>, k: Seq<char>)
    requires
        decoded_field::<T>(f) is Some,
        f matches Some(JsonTree::Object(ms)) ==> named_once(ms),
    ensures
        decoded_field::<T>(f)->0.dom().contains(k) <==> (f matches Some(d) && field(d, k) is Some),
        decoded_field::<T>(f)->0.dom().contains(k) ==> T::decoded(field(f->0, k)->0) == Some(
            decoded_field::<T>(f)->0[k],
        ),
{
    if let Some(JsonTree::Object(ms)) = f {
        lemma_decoded_map::<T>(ms, k);
        if exists|i: int| 0 <= i < ms.len() && (#[trigger] ms[i]).0 == k {
            let i = choose|i: int| 0 <= i < ms.len() && (#[trigger] ms[i]).0 == k;
            lemma_member(ms, i);
            assert(T::decoded(ms[i].1) is Some);
        }
        if member(ms, k) is Some {
            let i = lemma_member_stands(ms, k);
            assert(ms[i].0 == k);
        }
    }
}

/// Every entry under `packages` of a `package-lock.json` is read under its path, and no other.
pub proof fn an_npm_lockfile_holds_its_entries(t: JsonTree, path: Seq<char>)
    requires
        npm_entries(t) is Some,
        field_named_once(t, "packages"@),
    ensures
        npm_entries(t)->0.dom().contains(path) <==> (field(t, "packages"@) matches Some(d) && field(
            d,
            path,
        ) is Some),
        npm_entries(t)->0.dom().contains(path) ==> <NpmEntry as Decode>::decoded(
            field(field(t, "packages"@)->0, path)->0,
        ) == Some(npm_entries(t)->0[path]),
{
    lemma_section::<NpmEntry>(field(t, "packages"@), path);
}

/// Every entry under the three sections of a `pnpm-lock.yaml` is read under its key, and no
/// other.
pub proof fn a_pnpm_lockfile_holds_its_entries(t: JsonTree, l: PnpmView, key: Seq<char>)
    requires
        pnpm_sections(t) == Some(l),
        field_named_once(t, "importers"@),
        field_named_once(t, "packages"@),
        field_named_once(t, "snapshots"@),
    ensures
        l.importers.dom().contains(key) <==> (field(t, "importers"@) matches Some(d) && field(
            d,
            key,
        ) is Some),
        l.importers.dom().contains(key) ==> <PnpmImporter as Decode>::decoded(
            field(field(t, "importers"@)->0, key)->0,
        ) == Some(l.importers[key]),
        l.packages.dom().contains(key) <==> (field(t, "packages"@) matches Some(d) && field(
            d,
            key,
        ) is Some),
        l.packages.dom().contains(key) ==> <PnpmPackageMeta as Decode>::decoded(
            field(field(t, "packages"@)->0, key)->0,
        ) == Some(l.packages[key]),
        l.snapshots.dom().contains(key) <==> (field(t, "snapshots"@) matches Some(d) && field(
            d,
            key,
        ) is Some),
        l.snapshots.dom().contains(key) ==> <PnpmSnapshot as Decode>::decoded(
            field(field(t, "snapshots"@)->0, key)->0,
        ) == Some(l.snapshots[key]),
{
    lemma_section::<PnpmImporter>(filled(t, "importers"@), key);
    lemma_section::<PnpmPackageMeta>(filled(t, "packages"@), key);
    lemma_section::<PnpmSnapshot>(filled(t, "snapshots"@), key);
}

/// An importer of a `pnpm-lock.yaml` holds the version of each of its dependencies under the
/// group that declares it.
pub proof fn an_importer_holds_its_versions(
    t: JsonTree,
    i: ImporterView,
    group: Seq<char>,
    n: Seq<char>,
    v: Seq<char>,
)
    requires
        <PnpmImporter as Decode>::decoded(t) == Some(i),
        field_named_once(t, "dependencies"@),
        field_named_once(t, "devDependencies"@),
        field_named_once(t, "optionalDependencies"@),
        group == "dependencies"@ || group == "devDependencies"@ || group
            == "optionalDependencies"@,
        field(t, group) matches Some(d) && (field(d, n) matches Some(r) && field(r, "version"@)
            == Some(JsonTree::Str(v))),
    ensures
        group == "dependencies"@ ==> i.dependencies.dom().contains(n) && i.dependencies[n] == v,
        group == "devDependencies"@ ==> i.dev_dependencies.dom().contains(n)
            && i.dev_dependencies[n] == v,
        group == "optionalDependencies"@ ==> i.optional_dependencies.dom().contains(n)
            && i.optional_dependencies[n] == v,
{
    lemma_section::<PnpmDepRef>(filled(t, "dependencies"@), n);
    lemma_section::<PnpmDepRef>(filled(t, "devDependencies"@), n);
    lemma_section::<PnpmDepRef>(filled(t, "optionalDependencies"@), n);
}

/// A package of a `pnpm-lock.yaml` holds what is recorded of it, and a snapshot each of its
/// dependencies under the group that declares it.
pub proof fn a_pnpm_package_holds_its_fields(
    t: JsonTree,
    p: MetaView,
    s: JsonTree,
    x: SnapshotView,
    n: Seq<char>,
    v: Seq<char>,
)
    requires
        <PnpmPackageMeta as Decode>::decoded(t) == Some(p),
        <PnpmSnapshot as Decode>::decoded(s) == Some(x),
        field_named_once(s, "dependencies"@),
        field_named_once(s, "optionalDependencies"@),
    ensures
        p.integrity == Some(v) <==> entry(t, "resolution"@, "integrity"@, v),
        p.tarball == Some(v) <==> entry(t, "resolution"@, "tarball"@, v),
        p.requires_build <==> field(t, "requiresBuild"@) == Some(JsonTree::Bool(true)),
        p.os.contains(v) <==> (field(t, "os"@) matches Some(JsonTree::Array(items))
            && items.contains(JsonTree::Str(v))),
        p.cpu.contains(v) <==> (field(t, "cpu"@) matches Some(JsonTree::Array(items))
            && items.contains(JsonTree::Str(v))),
        x.dependencies.dom().contains(n) && x.dependencies[n] == v <==> entry(
            s,
            "dependencies"@,
            n,
            v,
        ),
        x.optional_dependencies.dom().contains(n) && x.optional_dependencies[n] == v <==> entry(
            s,
            "optionalDependencies"@,
            n,
            v,
        ),
{
    lists_hold_their_texts(filled(t, "os"@), v);
    lists_hold_their_texts(filled(t, "cpu"@), v);
    if filled(s, "dependencies"@) is Some {
        tables_hold_their_entries(s, "dependencies"@, n, v);
    }
    if filled(s, "optionalDependencies"@) is Some {
        tables_hold_their_entries(s, "optionalDependencies"@, n, v);
    }
}

/// A member of the workspace is called what its manifest says, and has no name without one.
pub proof fn a_package_is_called_by_its_manifest(
    fs: FilesView,
    p: Seq<char>,
    text: Seq<char>,
    t: JsonTree,
    name: Seq<char>,
)
    ensures
        text_at(fs, p) is None ==> package_name_at(fs, p) is None,
        text_at(fs, p) == Some(text) && json_document(text) is None ==> package_name_at(
            fs,
            p,
        ) is None,
        text_at(fs, p) == Some(text) && json_document(text) == Some(t) ==> (package_name_at(fs, p)
            == Some(name) <==> field(t, "name"@) == Some(JsonTree::Str(name))),
{
}

/// A lockfile is read as that of its package manager, and one of pnpm has to have an importer.
pub proof fn lockfiles_are_those_of_their_manager(
    contents: Seq<char>,
    t: JsonTree,
    entries: NpmEntries,
    sections: PnpmView,
)
    ensures
        json_document(contents) == Some(t) && npm_entries(t) == Some(entries) ==> lock_of(
            PkgManager::Npm,
            contents,
        ) == Some(LockView::Npm(entries)),
        yaml_document(contents) == Some(t) && pnpm_sections(t) == Some(sections) ==> (lock_of(
            PkgManager::Pnpm,
            contents,
        ) == Some(LockView::Pnpm(sections)) <==> exists|k: Seq<char>|
            sections.importers.dom().contains(k)),
        json_document(contents) is None ==> lock_of(PkgManager::Npm, contents) is None,
        yaml_document(contents) is None ==> lock_of(PkgManager::Pnpm, contents) is None,
        lock_graph(LockView::Npm(entries)) == npm_graph(entries),
        lock_graph(LockView::Pnpm(sections)) == pnpm_graph(sections),
{
    let s = sections.importers.dom();
    if s != Set::<Seq<char>>::empty() {
        assert(exists|k: Seq<char>| s.contains(k)) by {
            if forall|k: Seq<char>| !s.contains(k) {
                assert(s =~= Set::<Seq<char>>::empty());
            }
        }
    }
}

} // verus!
