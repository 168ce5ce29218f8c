//! pnpm's `pnpm-lock.yaml`: package metadata, the resolved imports of each workspace member
//! and the edges of each package, in three sections.
use crate::decode::{
    decoded_field, flag_field, list_field, map_field, plain_text_field, read_decoded, read_flag,
    read_list, read_map, read_plain_text, read_text, text_field, Decode,
};
use crate::graph::{
    add_entry, graph_key, key_of, lemma_merged_entry, merged, shows, tells_of, Disagreement,
    PackageView, Packages, ResolvedGraph, ResolvedPackage,
};
use crate::json::{field, parse_yaml, tree, yaml_document, Json, JsonTree};
use crate::npm::{copy_list, or_empty};
use crate::resolution::{DepResolution, LockfileError, ResolutionView};
use crate::sorted::{listing, StrMap, StrSet};
use crate::text::{
    after_char, lemma_find_char, opt_text, split_once, starts_with, strip_prefix, texts, upto,
    upto_char,
};
use vstd::prelude::*;

verus! {

/// Whether a value can stand for a mapping: a value that is left blank is an empty one.
pub open spec fn mapping(t: JsonTree) -> bool {
    t is Object || t is Null
}

fn is_mapping(j: &Json) -> (r: bool)
    ensures
        r == mapping(tree(*j)),
{
    match j {
        Json::Object(_) => true,
        Json::Null => true,
        _ => false,
    }
}

/// A field, where a value that is left blank counts as absent.
pub open spec fn filled(t: JsonTree, key: Seq<char>) -> Option<JsonTree> {
    match field(t, key) {
        Some(JsonTree::Null) => None,
        f => f,
    }
}

fn is_filled(j: &Json, key: &str) -> (r: bool)
    ensures
        r == (filled(tree(*j), key@) is Some),
        r ==> filled(tree(*j), key@) == field(tree(*j), key@),
{
    match j.get(key) {
        None => false,
        Some(Json::Null) => false,
        Some(_) => true,
    }
}

fn read_section<T: Decode>(j: &Json, key: &str) -> (r: Option<StrMap<T>>)
    ensures
        r is Some <==> decoded_field::<T>(filled(tree(*j), key@)) is Some,
        r matches Some(m) ==> decoded_field::<T>(filled(tree(*j), key@)) == Some(m@),
{
    if is_filled(j, key) {
        read_decoded::<T>(j, key)
    } else {
        Some(StrMap::new())
    }
}

fn read_edges(j: &Json, key: &str) -> (r: Option<StrMap<String>>)
    ensures
        r is Some <==> map_field(filled(tree(*j), key@)) is Some,
        r matches Some(m) ==> map_field(filled(tree(*j), key@)) == Some(m@),
{
    if is_filled(j, key) {
        read_map(j, key)
    } else {
        Some(StrMap::new())
    }
}

fn read_names(j: &Json, key: &str) -> (r: Option<Vec<String>>)
    ensures
        r is Some <==> list_field(filled(tree(*j), key@)) is Some,
        r matches Some(l) ==> list_field(filled(tree(*j), key@)) == Some(texts(l@)),
{
    if is_filled(j, key) {
        read_list(j, key)
    } else {
        let out: Vec<String> = Vec::new();
        assert(texts(out@) =~= Seq::<Seq<char>>::empty());
        Some(out)
    }
}

/// The version that an importer's dependency resolves to.
#[derive(Debug)]
pub struct PnpmDepRef {
    pub version: String,
}

impl View for PnpmDepRef {
    type V = Seq<char>;

    open spec fn view(&self) -> Seq<char> {
        self.version@
    }
}

impl Decode for PnpmDepRef {
    open spec fn decoded(t: JsonTree) -> Option<Seq<char>> {
        if mapping(t) {
            plain_text_field(filled(t, "version"@))
        } else {
            None
        }
    }

    fn decode(j: &Json) -> (r: Option<Self>) {
        if !is_mapping(j) {
            return None;
        }
        let version = if is_filled(j, "version") {
            read_plain_text(j, "version")?
        } else {
            String::new()
        };
        Some(PnpmDepRef { version })
    }
}

/// The resolved dependencies of one workspace member.
#[derive(Debug)]
pub struct PnpmImporter {
    pub dependencies: StrMap<PnpmDepRef>,
    pub dev_dependencies: StrMap<PnpmDepRef>,
    pub optional_dependencies: StrMap<PnpmDepRef>,
}

/// A workspace member's dependencies as mathematical values.
pub struct ImporterView {
    pub dependencies: Map<Seq<char>, Seq<char>>,
    pub dev_dependencies: Map<Seq<char>, Seq<char>>,
    pub optional_dependencies: Map<Seq<char>, Seq<char>>,
}

impl View for PnpmImporter {
    type V = ImporterView;

    open spec fn view(&self) -> ImporterView {
        ImporterView {
            dependencies: self.dependencies@,
            dev_dependencies: self.dev_dependencies@,
            optional_dependencies: self.optional_dependencies@,
        }
    }
}

impl Decode for PnpmImporter {
    open spec fn decoded(t: JsonTree) -> Option<ImporterView> {
        match (
            decoded_field::<PnpmDepRef>(filled(t, "dependencies"@)),
            decoded_field::<PnpmDepRef>(filled(t, "devDependencies"@)),
            decoded_field::<PnpmDepRef>(filled(t, "optionalDependencies"@)),
        ) {
            (Some(dependencies), Some(dev_dependencies), Some(optional_dependencies)) => {
                if mapping(t) {
                    Some(ImporterView { dependencies, dev_dependencies, optional_dependencies })
                } else {
                    None
                }
            },
            _ => None,
        }
    }

    fn decode(j: &Json) -> (r: Option<Self>) {
        if !is_mapping(j) {
            return None;
        }
        let dependencies = read_section::<PnpmDepRef>(j, "dependencies")?;
        let dev_dependencies = read_section::<PnpmDepRef>(j, "devDependencies")?;
        let optional_dependencies = read_section::<PnpmDepRef>(j, "optionalDependencies")?;
        Some(PnpmImporter { dependencies, dev_dependencies, optional_dependencies })
    }
}

/// The metadata of one package.
#[derive(Debug)]
pub struct PnpmPackageMeta {
    pub integrity: Option<String>,
    pub tarball: Option<String>,
    pub cpu: Vec<String>,
    pub os: Vec<String>,
    pub requires_build: bool,
}

/// A package's metadata as mathematical values.
pub struct MetaView {
    pub integrity: Option<Seq<char>>,
    pub tarball: Option<Seq<char>>,
    pub cpu: Seq<Seq<char>>,
    pub os: Seq<Seq<char>>,
    pub requires_build: bool,
}

impl View for PnpmPackageMeta {
    type V = MetaView;

    open spec fn view(&self) -> MetaView {
        MetaView {
            integrity: opt_text(self.integrity),
            tarball: opt_text(self.tarball),
            cpu: texts(self.cpu@),
            os: texts(self.os@),
            requires_build: self.requires_build,
        }
    }
}

/// The hash and the tarball address that a `resolution` records; nothing when it has another
/// shape.
pub open spec fn resolution_field(t: Option<JsonTree>) -> Option<
    (Option<Seq<char>>, Option<Seq<char>>),
> {
    match t {
        None => Some((None, None)),
        Some(r) => match (
            text_field(field(r, "integrity"@)),
            text_field(field(r, "tarball"@)),
        ) {
            (Some(integrity), Some(tarball)) => if mapping(r) {
                Some((integrity, tarball))
            } else {
                None
            },
            _ => None,
        },
    }
}

/// Reads the `resolution` of a package.
fn read_resolution(j: &Json) -> (r: Option<(Option<String>, Option<String>)>)
    ensures
        r is Some <==> resolution_field(field(tree(*j), "resolution"@)) is Some,
        r matches Some(x) ==> resolution_field(field(tree(*j), "resolution"@)) == Some(
            (opt_text(x.0), opt_text(x.1)),
        ),
{
    match j.get("resolution") {
        None => Some((None, None)),
        Some(r) => {
            if !is_mapping(r) {
                return None;
            }
            let integrity = read_text(r, "integrity")?;
            let tarball = read_text(r, "tarball")?;
            Some((integrity, tarball))
        },
    }
}

impl Decode for PnpmPackageMeta {
    open spec fn decoded(t: JsonTree) -> Option<MetaView> {
        match (
            resolution_field(field(t, "resolution"@)),
            list_field(filled(t, "cpu"@)),
            list_field(filled(t, "os"@)),
            flag_field(field(t, "requiresBuild"@)),
        ) {
            (Some((integrity, tarball)), Some(cpu), Some(os), Some(requires_build)) => {
                if mapping(t) {
                    Some(MetaView { integrity, tarball, cpu, os, requires_build })
                } else {
                    None
                }
            },
            _ => None,
        }
    }

    fn decode(j: &Json) -> (r: Option<Self>) {
        if !is_mapping(j) {
            return None;
        }
        let (integrity, tarball) = read_resolution(j)?;
        let cpu = read_names(j, "cpu")?;
        let os = read_names(j, "os")?;
        let requires_build = read_flag(j, "requiresBuild")?;
        Some(PnpmPackageMeta { integrity, tarball, cpu, os, requires_build })
    }
}

/// The edges of one package.
#[derive(Debug)]
pub struct PnpmSnapshot {
    pub dependencies: StrMap<String>,
    pub optional_dependencies: StrMap<String>,
}

/// A package's edges as mathematical values.
pub struct SnapshotView {
    pub dependencies: Map<Seq<char>, Seq<char>>,
    pub optional_dependencies: Map<Seq<char>, Seq<char>>,
}

impl View for PnpmSnapshot {
    type V = SnapshotView;

    open spec fn view(&self) -> SnapshotView {
        SnapshotView {
            dependencies: self.dependencies@,
            optional_dependencies: self.optional_dependencies@,
        }
    }
}

impl Decode for PnpmSnapshot {
    open spec fn decoded(t: JsonTree) -> Option<SnapshotView> {
        match (
            map_field(filled(t, "dependencies"@)),
            map_field(filled(t, "optionalDependencies"@)),
        ) {
            (Some(dependencies), Some(optional_dependencies)) => if mapping(t) {
                Some(SnapshotView { dependencies, optional_dependencies })
            } else {
                None
            },
            _ => None,
        }
    }

    fn decode(j: &Json) -> (r: Option<Self>) {
        if !is_mapping(j) {
            return None;
        }
        let dependencies = read_edges(j, "dependencies")?;
        let optional_dependencies = read_edges(j, "optionalDependencies")?;
        Some(PnpmSnapshot { dependencies, optional_dependencies })
    }
}

/// A parsed `pnpm-lock.yaml` of the `importers`/`packages`/`snapshots` shape.
#[derive(Debug)]
pub struct PnpmLockfile {
    importers: StrMap<PnpmImporter>,
    packages: StrMap<PnpmPackageMeta>,
    snapshots: StrMap<PnpmSnapshot>,
}

/// A lockfile's sections as mathematical values.
pub struct PnpmView {
    pub importers: Map<Seq<char>, ImporterView>,
    pub packages: Map<Seq<char>, MetaView>,
    pub snapshots: Map<Seq<char>, SnapshotView>,
}

impl View for PnpmLockfile {
    type V = PnpmView;

    closed spec fn view(&self) -> PnpmView {
        PnpmView {
            importers: self.importers@,
            packages: self.packages@,
            snapshots: self.snapshots@,
        }
    }
}

/// The sections that a document spells; nothing when it has another shape.
pub open spec fn pnpm_sections(t: JsonTree) -> Option<PnpmView> {
    match (
        decoded_field::<PnpmImporter>(filled(t, "importers"@)),
        decoded_field::<PnpmPackageMeta>(filled(t, "packages"@)),
        decoded_field::<PnpmSnapshot>(filled(t, "snapshots"@)),
    ) {
        (Some(importers), Some(packages), Some(snapshots)) => if mapping(t) {
            Some(PnpmView { importers, packages, snapshots })
        } else {
            None
        },
        _ => None,
    }
}

/// The importer key of a workspace member: the root is spelled `.`.
pub open spec fn importer_key(pkg: Seq<char>) -> Seq<char> {
    if pkg.len() == 0 {
        "."@
    } else {
        pkg
    }
}

/// The importer key of a workspace member.
fn pnpm_importer_key<'a>(pkg: &'a str) -> (r: &'a str)
    ensures
        r@ == importer_key(pkg@),
{
    if pkg.is_empty() {
        "."
    } else {
        pkg
    }
}

/// A version or package key without its peer suffix in parentheses.
fn strip_peer_suffix(s: &str) -> (r: String)
    ensures
        r@ == upto_char(s@, '('),
{
    upto(s, '(')
}

/// The name and version that a package key spells: without its peer suffix it is cut at the
/// first `@` that is not the mark of a scope.
pub open spec fn key_parts(key: Seq<char>) -> Option<(Seq<char>, Seq<char>)> {
    let k = upto_char(key, '(');
    if "@"@.is_prefix_of(k) {
        let rest = k.skip(1);
        if rest.contains('@') {
            Some(("@"@ + upto_char(rest, '@'), after_char(rest, '@')))
        } else {
            None
        }
    } else if k.contains('@') {
        Some((upto_char(k, '@'), after_char(k, '@')))
    } else {
        None
    }
}

/// The name and version that a package key spells.
pub fn split_pnpm_key(key: &str) -> (r: Option<(String, String)>)
    ensures
        r is Some <==> key_parts(key@) is Some,
        r matches Some((n, v)) ==> key_parts(key@) == Some((n@, v@)),
{
    proof {
        reveal_strlit("@");
    }
    let k = strip_peer_suffix(key);
    match strip_prefix(k.as_str(), "@") {
        Some(rest) => {
            let (name, version) = split_once(rest.as_str(), '@')?;
            Some(("@".to_owned().concat(name.as_str()), version))
        },
        None => split_once(k.as_str(), '@'),
    }
}

/// The version that a workspace member resolves `name` to, whichever section declares it.
pub open spec fn importer_version(i: ImporterView, name: Seq<char>) -> Option<Seq<char>> {
    if i.dependencies.dom().contains(name) {
        Some(i.dependencies[name])
    } else if i.dev_dependencies.dom().contains(name) {
        Some(i.dev_dependencies[name])
    } else if i.optional_dependencies.dom().contains(name) {
        Some(i.optional_dependencies[name])
    } else {
        None
    }
}

/// What `name` resolves to when the package at `from` declares it.
pub open spec fn pnpm_resolution(l: PnpmView, from: Seq<char>, name: Seq<char>) -> Option<
    ResolutionView,
> {
    if !l.importers.dom().contains(importer_key(from)) {
        None
    } else {
        match importer_version(l.importers[importer_key(from)], name) {
            None => None,
            Some(v) => if "link:"@.is_prefix_of(v) || "file:"@.is_prefix_of(v) {
                Some(ResolutionView::Workspace)
            } else {
                Some(ResolutionView::ThirdParty { name, version: upto_char(v, '(') })
            },
        }
    }
}

/// The key in the graph of what a package key spells, if it spells a package.
pub open spec fn spelled_key(key: Seq<char>) -> Option<Seq<char>> {
    match key_parts(key) {
        Some((name, version)) => Some(key_of(name, version)),
        None => None,
    }
}

/// The key in the graph of what a package key spells, if it spells a package.
fn spell_key(key: &str) -> (r: Option<String>)
    ensures
        r is Some <==> spelled_key(key@) is Some,
        r matches Some(k) ==> spelled_key(key@) == Some(k@),
{
    let (name, version) = split_pnpm_key(key)?;
    Some(graph_key(name.as_str(), version.as_str()))
}

/// The keys in the graph of the packages that the metadata under `keys` describes.
pub open spec fn spelled_keys(keys: Set<Seq<char>>) -> Set<Seq<char>> {
    Set::new(
        |k: Seq<char>|
            exists|key: Seq<char>| #[trigger] keys.contains(key) && spelled_key(key) == Some(k),
    )
}

/// The edges that a snapshot's declared versions spell, as far as they lead to a package that
/// is `known`.
pub open spec fn pnpm_edges(
    declared: Map<Seq<char>, Seq<char>>,
    known: Set<Seq<char>>,
) -> Map<Seq<char>, Seq<char>> {
    Map::new(
        |n: Seq<char>|
            declared.dom().contains(n) && (spelled_key(key_of(n, declared[n])) matches Some(key)
                && known.contains(key)),
        |n: Seq<char>| spelled_key(key_of(n, declared[n]))->0,
    )
}

/// The package that the metadata under `key` describes, if the key spells one.
pub open spec fn pnpm_package(l: PnpmView, key: Seq<char>) -> Option<PackageView> {
    match key_parts(key) {
        None => None,
        Some((name, version)) => {
            let meta = l.packages[key];
            Some(
                PackageView {
                    name,
                    version,
                    integrity: or_empty(meta.integrity),
                    resolved: meta.tarball,
                    dependencies: if l.snapshots.dom().contains(key) {
                        pnpm_edges(l.snapshots[key].dependencies, spelled_keys(l.packages.dom()))
                    } else {
                        Map::empty()
                    },
                    optional_dependencies: if l.snapshots.dom().contains(key) {
                        pnpm_edges(
                            l.snapshots[key].optional_dependencies,
                            spelled_keys(l.packages.dom()),
                        )
                    } else {
                        Map::empty()
                    },
                    os: meta.os,
                    cpu: meta.cpu,
                    has_install_script: meta.requires_build,
                },
            )
        },
    }
}

/// The packages that the metadata under `keys` describes, in order.
pub open spec fn pnpm_packages(l: PnpmView, keys: Seq<Seq<char>>) -> Seq<PackageView>
    decreases keys.len(),
{
    if keys.len() == 0 {
        Seq::empty()
    } else {
        let before = pnpm_packages(l, keys.drop_last());
        match pnpm_package(l, keys.last()) {
            Some(p) => before.push(p),
            None => before,
        }
    }
}

/// The graph of a lockfile: its packages in order of key, merged.
pub open spec fn pnpm_graph(l: PnpmView) -> Option<Packages> {
    merged(pnpm_packages(l, listing(l.packages.dom())))
}

/// The edges that a snapshot's declared versions spell, as far as they lead to a package that
/// is `known`.
fn resolve_pnpm_edges(declared: &StrMap<String>, known: &StrSet) -> (r: StrMap<String>)
    ensures
        r@ == pnpm_edges(declared@, known@),
{
    declared.facts();
    let ghost want = pnpm_edges(declared@, known@);
    let mut out: StrMap<String> = StrMap::new();
    let mut i: usize = 0;
    let n: usize = declared.len();
    while i < n
        invariant
            i <= n == declared.keys().len(),
            want == pnpm_edges(declared@, known@),
            declared.keys().to_set() == declared@.dom(),
            declared.keys().len() == declared.values().len(),
            forall|k: int|
                0 <= k < declared.keys().len() ==> declared@.dom().contains(
                    #[trigger] declared.keys()[k],
                ) && declared@[declared.keys()[k]] == declared.values()[k],
            forall|k: Seq<char>| #[trigger]
                out@.dom().contains(k) <==> want.dom().contains(k) && exists|x: int|
                    0 <= x < i && #[trigger] declared.keys()[x] == k,
            forall|k: Seq<char>| #[trigger] out@.dom().contains(k) ==> out@[k] == want[k],
        decreases n - i,
    {
        let ghost was = out@;
        let name = declared.key_at(i);
        let version = declared.value_at(i);
        assert(declared@[declared.keys()[i as int]] == version@);
        if let Some(key) = spell_key(graph_key(name.as_str(), version.as_str()).as_str()) {
            if known.contains(key.as_str()) {
                out.insert(name.clone(), key);
            }
        }
        proof {
            assert forall|k: Seq<char>| #[trigger]
                out@.dom().contains(k) <==> want.dom().contains(k) && exists|x: int|
                    0 <= x < i + 1 && #[trigger] declared.keys()[x] == k by {
                if out@.dom().contains(k) && !was.dom().contains(k) {
                    assert(declared.keys()[i as int] == k);
                }
                if want.dom().contains(k) && exists|x: int|
                    0 <= x < i + 1 && #[trigger] declared.keys()[x] == k {
                    let x = choose|x: int| 0 <= x < i + 1 && #[trigger] declared.keys()[x] == k;
                    if x < i {
                        assert(was.dom().contains(k));
                    }
                }
            }
        }
        i = i + 1;
    }
    proof {
        assert forall|k: Seq<char>| want.dom().contains(k) implies out@.dom().contains(k) by {
            assert(declared.keys().to_set().contains(k));
            let x = choose|x: int| 0 <= x < declared.keys().len() && declared.keys()[x] == k;
            assert(declared.keys()[x] == k);
        }
        assert(out@ =~= want);
    }
    out
}

impl PnpmLockfile {
    /// Reads a `pnpm-lock.yaml`; one without importers is refused.
    pub fn parse(contents: &str) -> (r: Result<Self, LockfileError>)
        ensures
            r is Ok <==> (yaml_document(contents@) matches Some(t) && pnpm_sections(
                t,
            ) matches Some(l) && l.importers.dom() != Set::<Seq<char>>::empty()),
            r matches Ok(l) ==> pnpm_sections(yaml_document(contents@)->0) == Some(l@),
            r matches Err(e) ==> (e is NotADocument <==> yaml_document(contents@) is None),
            r matches Err(e) ==> (e is NoImporters <==> (yaml_document(contents@) matches Some(t)
                && pnpm_sections(t) is Some)),
    {
        match parse_yaml(contents) {
            Err(e) => Err(LockfileError::NotADocument { detail: e.detail }),
            Ok(j) => {
                if !is_mapping(&j) {
                    return Err(LockfileError::BadShape);
                }
                match (
                    read_section::<PnpmImporter>(&j, "importers"),
                    read_section::<PnpmPackageMeta>(&j, "packages"),
                    read_section::<PnpmSnapshot>(&j, "snapshots"),
                ) {
                    (Some(importers), Some(packages), Some(snapshots)) => {
                        if importers.is_empty() {
                            return Err(LockfileError::NoImporters);
                        }
                        Ok(PnpmLockfile { importers, packages, snapshots })
                    },
                    _ => Err(LockfileError::BadShape),
                }
            },
        }
    }

    /// What `name` resolves to when the package at `from_pkg` declares it.
    pub fn resolve_dependency(&self, from_pkg: &str, name: &str) -> (r: Option<DepResolution>)
        ensures
            r is Some <==> pnpm_resolution(self@, from_pkg@, name@) is Some,
            r matches Some(d) ==> pnpm_resolution(self@, from_pkg@, name@) == Some(d@),
    {
        let importer = self.importers.get(pnpm_importer_key(from_pkg))?;
        let dep_ref = match importer.dependencies.get(name) {
            Some(d) => d,
            None => match importer.dev_dependencies.get(name) {
                Some(d) => d,
                None => importer.optional_dependencies.get(name)?,
            },
        };
        if starts_with(dep_ref.version.as_str(), "link:") || starts_with(
            dep_ref.version.as_str(),
            "file:",
        ) {
            return Some(DepResolution::Workspace);
        }
        Some(
            DepResolution::ThirdParty {
                name: name.to_owned(),
                version: strip_peer_suffix(dep_ref.version.as_str()),
            },
        )
    }

    /// The keys in the graph of the packages that the lockfile holds.
    fn known_keys(&self) -> (r: StrSet)
        ensures
            r@ == spelled_keys(self@.packages.dom()),
    {
        self.packages.facts();
        let ghost keys = self.packages.keys();
        let mut known = StrSet::new();
        let mut i: usize = 0;
        let n: usize = self.packages.len();
        while i < n
            invariant
                i <= n == keys.len(),
                keys == self.packages.keys(),
                keys.to_set() == self@.packages.dom(),
                forall|k: Seq<char>| #[trigger]
                    known@.contains(k) <==> exists|j: int|
                        0 <= j < i && spelled_key(#[trigger] keys[j]) == Some(k),
            decreases n - i,
        {
            let ghost was = known@;
            match spell_key(self.packages.key_at(i).as_str()) {
                Some(key) => {
                    let added = known.insert(key);
                },
                None => {},
            }
            proof {
                assert forall|k: Seq<char>| #[trigger] known@.contains(k) <==> exists|j: int|
                    0 <= j < i + 1 && spelled_key(#[trigger] keys[j]) == Some(k) by {
                    if was.contains(k) {
                        let j = choose|j: int|
                            0 <= j < i && spelled_key(#[trigger] keys[j]) == Some(k);
                        assert(spelled_key(keys[j]) == Some(k));
                    } else if known@.contains(k) {
                        assert(spelled_key(keys[i as int]) == Some(k));
                    }
                }
            }
            i = i + 1;
        }
        proof {
            let want = spelled_keys(self@.packages.dom());
            assert forall|k: Seq<char>| known@.contains(k) <==> want.contains(k) by {
                if known@.contains(k) {
                    let j = choose|j: int|
                        0 <= j < n && spelled_key(#[trigger] keys[j]) == Some(k);
                    assert(keys.to_set().contains(keys[j]));
                    assert(self@.packages.dom().contains(keys[j]));
                }
                if want.contains(k) {
                    let key = choose|key: Seq<char>| #[trigger]
                        self@.packages.dom().contains(key) && spelled_key(key) == Some(k);
                    assert(keys.to_set().contains(key));
                    let j = choose|j: int| 0 <= j < keys.len() && keys[j] == key;
                    assert(spelled_key(keys[j]) == Some(k));
                }
            }
            assert(known@ =~= want);
        }
        known
    }

    /// The graph of every third-party package of the lockfile. Fails when two variants of one
    /// package disagree.
    pub fn resolved_graph(&self) -> (r: Result<ResolvedGraph, Disagreement>)
        ensures
            r is Ok <==> pnpm_graph(self@) is Some,
            r matches Ok(g) ==> pnpm_graph(self@) == Some(g@),
            r matches Err(e) ==> (pnpm_package(self@, e.at@) matches Some(p) && p.name == e.name@
                && p.version == e.version@),
            r matches Err(e) ==> tells_of(e, pnpm_packages(self@, listing(self@.packages.dom()))),
    {
        self.packages.facts();
        let known = self.known_keys();
        let ghost l = self@;
        let ghost keys = self.packages.keys();
        let mut packages: StrMap<ResolvedPackage> = StrMap::new();
        let mut i: usize = 0;
        let n: usize = self.packages.len();
        assert(pnpm_packages(l, keys.take(0)) =~= Seq::<PackageView>::empty());
        while i < n
            invariant
                i <= n == keys.len(),
                l == self@,
                known@ == spelled_keys(l.packages.dom()),
                keys == self.packages.keys(),
                listing(l.packages.dom()) == keys,
                keys.len() == self.packages.values().len(),
                forall|k: int|
                    0 <= k < keys.len() ==> l.packages.dom().contains(#[trigger] keys[k])
                        && l.packages[keys[k]] == self.packages.values()[k],
                merged(pnpm_packages(l, keys.take(i as int))) == Some(packages@),
            decreases n - i,
        {
            let key = self.packages.key_at(i);
            let meta = self.packages.value_at(i);
            assert(l.packages[keys[i as int]] == meta@);
            proof {
                let t = keys.take(i + 1);
                assert(t.drop_last() =~= keys.take(i as int));
                assert(t.last() == key@);
            }
            if let Some((name, version)) = split_pnpm_key(key.as_str()) {
                let (dependencies, optional_dependencies) = match self.snapshots.get(
                    key.as_str(),
                ) {
                    Some(snap) => (
                        resolve_pnpm_edges(&snap.dependencies, &known),
                        resolve_pnpm_edges(&snap.optional_dependencies, &known),
                    ),
                    None => (StrMap::new(), StrMap::new()),
                };
                let resolved = ResolvedPackage {
                    name,
                    version,
                    integrity: match &meta.integrity {
                        Some(s) => s.clone(),
                        None => String::new(),
                    },
                    resolved: meta.tarball.clone(),
                    dependencies,
                    optional_dependencies,
                    os: copy_list(&meta.os),
                    cpu: copy_list(&meta.cpu),
                    has_install_script: meta.requires_build,
                };
                let ghost p = resolved@;
                let ghost done = pnpm_packages(l, keys.take(i as int));
                proof {
                    assert(pnpm_package(l, key@) == Some(p));
                    assert(done.push(p).drop_last() =~= done);
                }
                if let Err(e) = add_entry(&mut packages, resolved, key.as_str()) {
                    proof {
                        lemma_merged_none(l, keys, i + 1);
                        let at = lemma_merged_entry(done, key_of(p.name, p.version));
                        lemma_packages_grow(l, keys, i as int);
                        lemma_packages_grow(l, keys, i + 1);
                        let all = pnpm_packages(l, keys);
                        assert(all.subrange(0, done.len() as int)[at] == all[at]);
                        let last = done.len() as int;
                        assert(all.subrange(0, last + 1)[last] == all[last]);
                        assert(shows(e, all[at], all[last]));
                    }
                    return Err(e);
                }
            }
            i = i + 1;
        }
        assert(keys.take(i as int) =~= keys);
        Ok(ResolvedGraph { packages })
    }
}

/// The packages of the first entries come first.
proof fn lemma_packages_grow(l: PnpmView, keys: Seq<Seq<char>>, n: int)
    requires
        0 <= n <= keys.len(),
    ensures
        pnpm_packages(l, keys.take(n)).is_prefix_of(pnpm_packages(l, keys)),
    decreases keys.len() - n,
{
    if n == keys.len() {
        assert(keys.take(n) =~= keys);
    } else {
        assert(keys.take(n + 1).drop_last() =~= keys.take(n));
        lemma_packages_grow(l, keys, n + 1);
        let a = pnpm_packages(l, keys.take(n));
        let b = pnpm_packages(l, keys.take(n + 1));
        let c = pnpm_packages(l, keys);
        assert(a.is_prefix_of(b));
        assert(c.subrange(0, a.len() as int) =~= b.subrange(0, a.len() as int));
    }
}

/// A disagreement among the first entries stays one whatever follows.
proof fn lemma_merged_none(l: PnpmView, keys: Seq<Seq<char>>, n: int)
    requires
        0 <= n <= keys.len(),
        merged(pnpm_packages(l, keys.take(n))) is None,
    ensures
        merged(pnpm_packages(l, keys)) is None,
    decreases keys.len() - n,
{
    if n == keys.len() {
        assert(keys.take(n) =~= keys);
    } else {
        let t = keys.take(n + 1);
        assert(t.drop_last() =~= keys.take(n));
        let before = pnpm_packages(l, keys.take(n));
        if let Some(p) = pnpm_package(l, t.last()) {
            assert(before.push(p).drop_last() =~= before);
        }
        lemma_merged_none(l, keys, n + 1);
    }
}

/// A package key of a name and a version splits back into them: the name holds no `(` and
/// its only `@` is the mark of a scope, the version holds no `(`.
pub proof fn package_keys_split_back(name: Seq<char>, version: Seq<char>)
    requires
        !name.contains('('),
        !version.contains('('),
        name.len() > 0,
        !name.skip(1).contains('@'),
    ensures
        key_parts(key_of(name, version)) == Some((name, version)),
{
    reveal_strlit("@");
    let key = key_of(name, version);
    assert(!key.contains('(')) by {
        if key.contains('(') {
            let i = choose|i: int| 0 <= i < key.len() && key[i] == '(';
            if i < name.len() {
                assert(name[i] == '(');
            } else if i > name.len() {
                assert(version[i - name.len() - 1] == '(');
            }
        }
    }
    lemma_find_char(key, '(');
    assert(upto_char(key, '(') =~= key);
    if name[0] == '@' {
        assert(key.subrange(0, 1) =~= "@"@);
        let rest = key.skip(1);
        assert forall|j: int| 0 <= j < name.len() - 1 implies rest[j] != '@' by {
            assert(rest[j] == name.skip(1)[j]);
        }
        crate::text::lemma_find_char_is(rest, '@', name.len() - 1);
        lemma_find_char(rest, '@');
        assert("@"@ + upto_char(rest, '@') =~= name);
        assert(after_char(rest, '@') =~= version);
    } else {
        assert(key.subrange(0, 1)[0] == name[0]);
        assert forall|j: int| 0 <= j < name.len() implies key[j] != '@' by {
            if j > 0 {
                assert(key[j] == name.skip(1)[j - 1]);
            }
        }
        crate::text::lemma_find_char_is(key, '@', name.len() as int);
        lemma_find_char(key, '@');
        assert(upto_char(key, '@') =~= name);
        assert(after_char(key, '@') =~= version);
    }
}

} // verus!
