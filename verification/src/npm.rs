//! npm's `package-lock.json`: a graph keyed by `node_modules` paths, in which a dependency is
//! found by walking up the ancestor directories.
use crate::decode::{
    decoded_field, flag_field, list_field, map_field, read_decoded, read_flag, read_list, read_map,
    read_text, text_field, Decode,
};
use crate::graph::{
    add_entry, graph_key, key_of, lemma_merged_entry, merged, shows, tells_of, Disagreement,
    PackageView, Packages, ResolvedGraph, ResolvedPackage,
};
use crate::json::{field, json_document, parse_json, Json, JsonTree};
use crate::path::{after_node_modules, below_node_modules};
use crate::resolution::{DepResolution, LockfileError, ResolutionView};
use crate::sorted::{listing, StrMap};
use crate::text::{find_last_char, opt_text, rsplit_once, texts};
use vstd::prelude::*;

verus! {

/// One entry of a `package-lock.json`.
#[derive(Debug)]
pub struct NpmEntry {
    pub name: Option<String>,
    pub version: Option<String>,
    pub resolved: Option<String>,
    pub integrity: Option<String>,
    pub dependencies: StrMap<String>,
    pub optional_dependencies: StrMap<String>,
    pub os: Vec<String>,
    pub cpu: Vec<String>,
    pub has_install_script: bool,
    pub link: bool,
}

/// An entry as mathematical values.
pub struct NpmEntryView {
    pub name: Option<Seq<char>>,
    pub version: Option<Seq<char>>,
    pub resolved: Option<Seq<char>>,
    pub integrity: Option<Seq<char>>,
    pub dependencies: Map<Seq<char>, Seq<char>>,
    pub optional_dependencies: Map<Seq<char>, Seq<char>>,
    pub os: Seq<Seq<char>>,
    pub cpu: Seq<Seq<char>>,
    pub has_install_script: bool,
    pub link: bool,
}

impl View for NpmEntry {
    type V = NpmEntryView;

    open spec fn view(&self) -> NpmEntryView {
        NpmEntryView {
            name: opt_text(self.name),
            version: opt_text(self.version),
            resolved: opt_text(self.resolved),
            integrity: opt_text(self.integrity),
            dependencies: self.dependencies@,
            optional_dependencies: self.optional_dependencies@,
            os: texts(self.os@),
            cpu: texts(self.cpu@),
            has_install_script: self.has_install_script,
            link: self.link,
        }
    }
}

/// Whether a tree has the shape of an entry.
pub open spec fn entry_shape(t: JsonTree) -> bool {
    &&& t is Object
    &&& text_field(field(t, "name"@)) is Some
    &&& text_field(field(t, "version"@)) is Some
    &&& text_field(field(t, "resolved"@)) is Some
    &&& text_field(field(t, "integrity"@)) is Some
    &&& map_field(field(t, "dependencies"@)) is Some
    &&& map_field(field(t, "optionalDependencies"@)) is Some
    &&& list_field(field(t, "os"@)) is Some
    &&& list_field(field(t, "cpu"@)) is Some
    &&& flag_field(field(t, "hasInstallScript"@)) is Some
    &&& flag_field(field(t, "link"@)) is Some
}

impl Decode for NpmEntry {
    open spec fn decoded(t: JsonTree) -> Option<NpmEntryView> {
        if entry_shape(t) {
            Some(
                NpmEntryView {
                    name: text_field(field(t, "name"@))->0,
                    version: text_field(field(t, "version"@))->0,
                    resolved: text_field(field(t, "resolved"@))->0,
                    integrity: text_field(field(t, "integrity"@))->0,
                    dependencies: map_field(field(t, "dependencies"@))->0,
                    optional_dependencies: map_field(field(t, "optionalDependencies"@))->0,
                    os: list_field(field(t, "os"@))->0,
                    cpu: list_field(field(t, "cpu"@))->0,
                    has_install_script: flag_field(field(t, "hasInstallScript"@))->0,
                    link: flag_field(field(t, "link"@))->0,
                },
            )
        } else {
            None
        }
    }

    fn decode(j: &Json) -> (r: Option<Self>) {
        match j {
            Json::Object(_) => {},
            _ => {
                return None;
            },
        }
        let name = read_text(j, "name")?;
        let version = read_text(j, "version")?;
        let resolved = read_text(j, "resolved")?;
        let integrity = read_text(j, "integrity")?;
        let dependencies = read_map(j, "dependencies")?;
        let optional_dependencies = read_map(j, "optionalDependencies")?;
        let os = read_list(j, "os")?;
        let cpu = read_list(j, "cpu")?;
        let has_install_script = read_flag(j, "hasInstallScript")?;
        let link = read_flag(j, "link")?;
        Some(
            NpmEntry {
                name,
                version,
                resolved,
                integrity,
                dependencies,
                optional_dependencies,
                os,
                cpu,
                has_install_script,
                link,
            },
        )
    }
}

/// A parsed `package-lock.json`, keyed by its own path space: `""` for the root, a directory
/// for a workspace member, a `node_modules` path for a third-party package.
#[derive(Debug)]
pub struct NpmLockfile {
    packages: StrMap<NpmEntry>,
}

/// The entries of a lockfile by path.
pub type NpmEntries = Map<Seq<char>, NpmEntryView>;

impl View for NpmLockfile {
    type V = NpmEntries;

    closed spec fn view(&self) -> NpmEntries {
        self.packages@
    }
}

/// The entries that a document spells; nothing when it has another shape.
pub open spec fn npm_entries(t: JsonTree) -> Option<NpmEntries> {
    if t is Object {
        decoded_field::<NpmEntry>(field(t, "packages"@))
    } else {
        None
    }
}

/// The directory above `dir`; the empty text above a top-level one.
pub open spec fn dir_above(dir: Seq<char>) -> Seq<char> {
    if find_last_char(dir, '/') < 0 {
        Seq::empty()
    } else {
        dir.take(find_last_char(dir, '/'))
    }
}

/// The `node_modules` directories that a lookup from `from` tries, nearest first.
pub open spec fn node_modules_dirs(from: Seq<char>) -> Seq<Seq<char>>
    decreases from.len(),
{
    if from.len() == 0 {
        seq!["node_modules"@]
    } else {
        proof {
            crate::text::lemma_find_last_char(from, '/');
        }
        seq![from + "/node_modules"@] + node_modules_dirs(dir_above(from))
    }
}

/// The first of the directories that has an entry for `name`.
pub open spec fn first_hit(ps: NpmEntries, dirs: Seq<Seq<char>>, name: Seq<char>) -> Option<
    NpmEntryView,
>
    decreases dirs.len(),
{
    if dirs.len() == 0 {
        None
    } else if ps.dom().contains(dirs[0] + "/"@ + name) {
        Some(ps[dirs[0] + "/"@ + name])
    } else {
        first_hit(ps, dirs.drop_first(), name)
    }
}

/// The entry that `name` leads to from the directory `from`.
pub open spec fn npm_entry(ps: NpmEntries, from: Seq<char>, name: Seq<char>) -> Option<
    NpmEntryView,
> {
    first_hit(ps, node_modules_dirs(from), name)
}

/// What `name` resolves to when the package at `from` declares it.
pub open spec fn npm_resolution(ps: NpmEntries, from: Seq<char>, name: Seq<char>) -> Option<
    ResolutionView,
> {
    match npm_entry(ps, from, name) {
        None => None,
        Some(e) => if e.link {
            Some(ResolutionView::Workspace)
        } else {
            match e.version {
                None => None,
                Some(version) => Some(ResolutionView::ThirdParty { name, version }),
            }
        },
    }
}

/// Whether `name` leads from `from` to an entry with a tarball of its own.
pub open spec fn npm_installed(ps: NpmEntries, from: Seq<char>, name: Seq<char>) -> bool {
    npm_entry(ps, from, name) matches Some(e) && !e.link && e.version is Some
}

/// The edges of the entry at `from` for the declared names: those that the lockfile resolves.
pub open spec fn npm_edges(
    ps: NpmEntries,
    from: Seq<char>,
    declared: Map<Seq<char>, Seq<char>>,
) -> Map<Seq<char>, Seq<char>> {
    Map::new(
        |n: Seq<char>| declared.dom().contains(n) && npm_installed(ps, from, n),
        |n: Seq<char>| key_of(n, npm_entry(ps, from, n)->0.version->0),
    )
}

/// The text of an optional text, empty when absent.
pub open spec fn or_empty(o: Option<Seq<char>>) -> Seq<char> {
    match o {
        Some(s) => s,
        None => Seq::empty(),
    }
}

/// The package that the entry at `path` installs: only an entry in a `node_modules` with a version
/// that is no link installs one.
pub open spec fn npm_package(ps: NpmEntries, path: Seq<char>) -> Option<PackageView> {
    match (below_node_modules(path), ps[path].version) {
        (Some(suffix), Some(version)) => if ps[path].link {
            None
        } else {
            let e = ps[path];
            Some(
                PackageView {
                    name: match e.name {
                        Some(name) => name,
                        None => suffix,
                    },
                    version,
                    integrity: or_empty(e.integrity),
                    resolved: e.resolved,
                    dependencies: npm_edges(ps, path, e.dependencies),
                    optional_dependencies: npm_edges(ps, path, e.optional_dependencies),
                    os: e.os,
                    cpu: e.cpu,
                    has_install_script: e.has_install_script,
                },
            )
        },
        _ => None,
    }
}

/// The packages that the entries at `paths` install, in order.
pub open spec fn npm_packages(ps: NpmEntries, paths: Seq<Seq<char>>) -> Seq<PackageView>
    decreases paths.len(),
{
    if paths.len() == 0 {
        Seq::empty()
    } else {
        let before = npm_packages(ps, paths.drop_last());
        match npm_package(ps, paths.last()) {
            Some(p) => before.push(p),
            None => before,
        }
    }
}

/// The graph of a lockfile: its installed packages in order of path, merged.
pub open spec fn npm_graph(ps: NpmEntries) -> Option<Packages> {
    merged(npm_packages(ps, listing(ps.dom())))
}

/// A list of strings, copied.
pub(crate) fn copy_list(v: &Vec<String>) -> (r: Vec<String>)
    ensures
        texts(r@) == texts(v@),
{
    let r = v.clone();
    assert(texts(r@) =~= texts(v@));
    r
}

impl NpmLockfile {
    /// Reads a `package-lock.json`.
    pub fn parse(contents: &str) -> (r: Result<Self, LockfileError>)
        ensures
            r is Ok <==> (json_document(contents@) matches Some(t) && npm_entries(t) is Some),
            r matches Ok(l) ==> npm_entries(json_document(contents@)->0) == Some(l@),
            r matches Err(e) ==> (e is NotADocument <==> json_document(contents@) is None),
            r matches Err(e) ==> e is NotADocument || e is BadShape,
    {
        match parse_json(contents) {
            Err(e) => Err(LockfileError::NotADocument { detail: e.detail }),
            Ok(j) => {
                match &j {
                    Json::Object(_) => {},
                    _ => {
                        return Err(LockfileError::BadShape);
                    },
                }
                match read_decoded::<NpmEntry>(&j, "packages") {
                    Some(packages) => Ok(NpmLockfile { packages }),
                    None => Err(LockfileError::BadShape),
                }
            },
        }
    }

    /// The `node_modules` directories that a lookup from `from` tries, nearest first.
    fn ancestor_node_modules(from: &str) -> (r: Vec<String>)
        ensures
            texts(r@) == node_modules_dirs(from@),
    {
        let mut out: Vec<String> = Vec::new();
        let mut cur: String = from.to_owned();
        assert(texts(out@) =~= Seq::<Seq<char>>::empty());
        assert(texts(out@) + node_modules_dirs(cur@) =~= node_modules_dirs(from@));
        while !cur.as_str().is_empty()
            invariant
                texts(out@) + node_modules_dirs(cur@) == node_modules_dirs(from@),
            decreases cur@.len(),
        {
            let ghost was = texts(out@);
            let ghost here = cur@;
            out.push(cur.clone().concat("/node_modules"));
            assert(texts(out@) =~= was.push(here + "/node_modules"@));
            proof {
                crate::text::lemma_find_last_char(here, '/');
            }
            cur = match rsplit_once(cur.as_str(), '/') {
                Some((parent, _)) => parent,
                None => String::new(),
            };
            proof {
                assert(cur@ == dir_above(here));
                assert(texts(out@) + node_modules_dirs(cur@) =~= was + (seq![
                    here + "/node_modules"@,
                ] + node_modules_dirs(dir_above(here))));
            }
        }
        let ghost was = texts(out@);
        out.push("node_modules".to_owned());
        assert(texts(out@) =~= was + seq!["node_modules"@]);
        out
    }

    /// The entry that `name` leads to from the directory `from_path`.
    fn resolve_path(&self, from_path: &str, name: &str) -> (r: Option<&NpmEntry>)
        ensures
            r is Some <==> npm_entry(self@, from_path@, name@) is Some,
            r matches Some(e) ==> npm_entry(self@, from_path@, name@) == Some(e@),
    {
        let dirs = Self::ancestor_node_modules(from_path);
        let ghost ds = texts(dirs@);
        let mut i: usize = 0;
        assert(ds.skip(0) =~= ds);
        while i < dirs.len()
            invariant
                i <= dirs.len(),
                ds == texts(dirs@),
                first_hit(self@, ds.skip(i as int), name@) == npm_entry(
                    self@,
                    from_path@,
                    name@,
                ),
            decreases dirs.len() - i,
        {
            assert(ds.skip(i as int)[0] == dirs@[i as int]@);
            assert(ds.skip(i as int).drop_first() =~= ds.skip(i + 1));
            let path = dirs[i].clone().concat("/").concat(name);
            if let Some(e) = self.packages.get(path.as_str()) {
                return Some(e);
            }
            i = i + 1;
        }
        None
    }

    /// What `name` resolves to when the package at `from_pkg` declares it.
    pub fn resolve_dependency(&self, from_pkg: &str, name: &str) -> (r: Option<DepResolution>)
        ensures
            r is Some <==> npm_resolution(self@, from_pkg@, name@) is Some,
            r matches Some(d) ==> npm_resolution(self@, from_pkg@, name@) == Some(d@),
    {
        let entry = self.resolve_path(from_pkg, name)?;
        if entry.link {
            return Some(DepResolution::Workspace);
        }
        match &entry.version {
            None => None,
            Some(version) => Some(
                DepResolution::ThirdParty { name: name.to_owned(), version: version.clone() },
            ),
        }
    }

    /// The edges of the entry at `from_path` for the declared names.
    fn resolve_npm_edges(&self, from_path: &str, declared: &StrMap<String>) -> (r: StrMap<String>)
        ensures
            r@ == npm_edges(self@, from_path@, declared@),
    {
        declared.facts();
        let ghost want = npm_edges(self@, from_path@, declared@);
        let mut out: StrMap<String> = StrMap::new();
        let mut i: usize = 0;
        let n: usize = declared.len();
        while i < n
            invariant
                i <= n == declared.keys().len(),
                want == npm_edges(self@, from_path@, declared@),
                declared.keys().to_set() == declared@.dom(),
                forall|k: Seq<char>| #[trigger]
                    out@.dom().contains(k) <==> want.dom().contains(k) && exists|x: int|
                        0 <= x < i && #[trigger] declared.keys()[x] == k,
                forall|k: Seq<char>| #[trigger] out@.dom().contains(k) ==> out@[k] == want[k],
            decreases n - i,
        {
            let ghost was = out@;
            let name = declared.key_at(i);
            assert(declared.keys().to_set().contains(declared.keys()[i as int])) by {
                assert(declared.keys().contains(declared.keys()[i as int]));
            }
            if let Some(entry) = self.resolve_path(from_path, name.as_str()) {
                if !entry.link {
                    if let Some(version) = &entry.version {
                        out.insert(name.clone(), graph_key(name.as_str(), version.as_str()));
                    }
                }
            }
            proof {
                assert forall|k: Seq<char>| #[trigger]
                    out@.dom().contains(k) <==> want.dom().contains(k) && exists|x: int|
                        0 <= x < i + 1 && #[trigger] declared.keys()[x] == k by {
                    if out@.dom().contains(k) && !was.dom().contains(k) {
                        assert(declared.keys()[i as int] == k);
                    }
                    if want.dom().contains(k) && exists|x: int|
                        0 <= x < i + 1 && #[trigger] declared.keys()[x] == k {
                        let x = choose|x: int|
                            0 <= x < i + 1 && #[trigger] declared.keys()[x] == k;
                        if x < i {
                            assert(was.dom().contains(k));
                        }
                    }
                }
            }
            i = i + 1;
        }
        proof {
            assert forall|k: Seq<char>| want.dom().contains(k) implies out@.dom().contains(k) by {
                assert(declared.keys().to_set().contains(k));
                let x = choose|x: int| 0 <= x < declared.keys().len() && declared.keys()[x] == k;
                assert(declared.keys()[x] == k);
            }
            assert(out@ =~= want);
        }
        out
    }

    /// The graph of every third-party package that the lockfile installs. Fails when two
    /// entries for one package disagree.
    pub fn resolved_graph(&self) -> (r: Result<ResolvedGraph, Disagreement>)
        ensures
            r is Ok <==> npm_graph(self@) is Some,
            r matches Ok(g) ==> npm_graph(self@) == Some(g@),
            r matches Err(e) ==> (npm_package(self@, e.at@) matches Some(p) && p.name == e.name@
                && p.version == e.version@),
            r matches Err(e) ==> tells_of(e, npm_packages(self@, listing(self@.dom()))),
    {
        self.packages.facts();
        let ghost ps = self@;
        let ghost paths = self.packages.keys();
        let mut packages: StrMap<ResolvedPackage> = StrMap::new();
        let mut i: usize = 0;
        let n: usize = self.packages.len();
        assert(npm_packages(ps, paths.take(0)) =~= Seq::<PackageView>::empty());
        while i < n
            invariant
                i <= n == paths.len(),
                ps == self@,
                paths == self.packages.keys(),
                listing(ps.dom()) == paths,
                paths.len() == self.packages.values().len(),
                forall|k: int|
                    0 <= k < paths.len() ==> ps.dom().contains(#[trigger] paths[k]) && ps[paths[k]]
                        == self.packages.values()[k],
                merged(npm_packages(ps, paths.take(i as int))) == Some(packages@),
            decreases n - i,
        {
            let path = self.packages.key_at(i);
            let entry = self.packages.value_at(i);
            assert(ps[paths[i as int]] == entry@);
            proof {
                let t = paths.take(i + 1);
                assert(t.drop_last() =~= paths.take(i as int));
                assert(t.last() == path@);
            }
            let suffix = after_node_modules(path.as_str());
            match (suffix, &entry.version) {
                (Some(suffix), Some(version)) => {
                    if !entry.link {
                        let name = match &entry.name {
                            Some(name) => name.clone(),
                            None => suffix,
                        };
                        let resolved = ResolvedPackage {
                            name,
                            version: version.clone(),
                            integrity: match &entry.integrity {
                                Some(s) => s.clone(),
                                None => String::new(),
                            },
                            resolved: entry.resolved.clone(),
                            dependencies: self.resolve_npm_edges(
                                path.as_str(),
                                &entry.dependencies,
                            ),
                            optional_dependencies: self.resolve_npm_edges(
                                path.as_str(),
                                &entry.optional_dependencies,
                            ),
                            os: copy_list(&entry.os),
                            cpu: copy_list(&entry.cpu),
                            has_install_script: entry.has_install_script,
                        };
                        let ghost p = resolved@;
                        let ghost done = npm_packages(ps, paths.take(i as int));
                        proof {
                            assert(npm_package(ps, path@) == Some(p));
                            assert(done.push(p).drop_last() =~= done);
                        }
                        if let Err(e) = add_entry(&mut packages, resolved, path.as_str()) {
                            proof {
                                lemma_merged_none(ps, paths, i + 1);
                                let at = lemma_merged_entry(done, key_of(p.name, p.version));
                                lemma_packages_grow(ps, paths, i as int);
                                lemma_packages_grow(ps, paths, i + 1);
                                let all = npm_packages(ps, paths);
                                assert(all.subrange(0, done.len() as int)[at] == all[at]);
                                let last = done.len() as int;
                                assert(all.subrange(0, last + 1)[last] == all[last]);
                                assert(shows(e, all[at], all[last]));
                            }
                            return Err(e);
                        }
                    }
                },
                _ => {},
            }
            i = i + 1;
        }
        assert(paths.take(i as int) =~= paths);
        Ok(ResolvedGraph { packages })
    }
}

/// The packages of the first entries come first.
proof fn lemma_packages_grow(ps: NpmEntries, paths: Seq<Seq<char>>, n: int)
    requires
        0 <= n <= paths.len(),
    ensures
        npm_packages(ps, paths.take(n)).is_prefix_of(npm_packages(ps, paths)),
    decreases paths.len() - n,
{
    if n == paths.len() {
        assert(paths.take(n) =~= paths);
    } else {
        assert(paths.take(n + 1).drop_last() =~= paths.take(n));
        lemma_packages_grow(ps, paths, n + 1);
        let a = npm_packages(ps, paths.take(n));
        let b = npm_packages(ps, paths.take(n + 1));
        let c = npm_packages(ps, paths);
        assert(a.is_prefix_of(b));
        assert(c.subrange(0, a.len() as int) =~= b.subrange(0, a.len() as int));
    }
}

/// A disagreement among the first entries stays one whatever follows.
proof fn lemma_merged_none(ps: NpmEntries, paths: Seq<Seq<char>>, n: int)
    requires
        0 <= n <= paths.len(),
        merged(npm_packages(ps, paths.take(n))) is None,
    ensures
        merged(npm_packages(ps, paths)) is None,
    decreases paths.len() - n,
{
    if n == paths.len() {
        assert(paths.take(n) =~= paths);
    } else {
        let t = paths.take(n + 1);
        assert(t.drop_last() =~= paths.take(n));
        let before = npm_packages(ps, paths.take(n));
        if let Some(p) = npm_package(ps, t.last()) {
            assert(before.push(p).drop_last() =~= before);
        }
        lemma_merged_none(ps, paths, n + 1);
    }
}

/// A package in the `node_modules` of a directory is found from there before any of the
/// directories above; without one the lookup goes on in the directory above.
pub proof fn the_nearest_install_wins(ps: NpmEntries, from: Seq<char>, name: Seq<char>)
    requires
        from.len() > 0,
    ensures
        ({
            let own = from + "/node_modules"@ + "/"@ + name;
            npm_entry(ps, from, name) == (if ps.dom().contains(own) {
                Some(ps[own])
            } else {
                npm_entry(ps, dir_above(from), name)
            })
        }),
{
    let dirs = node_modules_dirs(from);
    assert(dirs[0] == from + "/node_modules"@);
    assert(dirs.drop_first() =~= node_modules_dirs(dir_above(from)));
}

} // verus!
