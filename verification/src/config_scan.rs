//! The files and packages that a test runner's configuration file names or imports.
use crate::importparse::{site_views, sites_among};
use crate::nearest::{find_first_file, first_file};
use crate::path::{join_path, key_of_path, parent, parent_of, path_key, slashed, under, with_slashes};
use crate::sorted::{listing, StrMap, StrSet};
use crate::source::{
    file_findings, finding_views, read_source, Finding, FindingView, ImportSite, PropertyValue,
    SiteView, ValueView,
};
use crate::specifiers::{bare_package, bare_specifier_package_name};
use crate::text::{same, starts_with, strip_prefix, texts, trim_start, trim_start_char};
use crate::tree::{text_at, FileTree, FilesView};
use vstd::prelude::*;

verus! {

/// A bare specifier that names an npm package by its own text.
#[derive(Debug)]
pub struct BareSpecifierSite {
    /// The file that holds the import.
    pub file: String,
    pub specifier: String,
    pub package_name: String,
}

/// A bare specifier as mathematical values.
pub struct BareView {
    pub file: Seq<char>,
    pub specifier: Seq<char>,
    pub package_name: Seq<char>,
}

impl View for BareSpecifierSite {
    type V = BareView;

    open spec fn view(&self) -> BareView {
        BareView {
            file: self.file@,
            specifier: self.specifier@,
            package_name: self.package_name@,
        }
    }
}

impl BareSpecifierSite {
    /// The same site once more.
    pub fn copy(&self) -> (r: BareSpecifierSite)
        ensures
            r@ == self@,
    {
        BareSpecifierSite {
            file: self.file.clone(),
            specifier: self.specifier.clone(),
            package_name: self.package_name.clone(),
        }
    }
}

/// Bare specifiers as mathematical values.
pub open spec fn bare_views(v: Seq<BareSpecifierSite>) -> Seq<BareView> {
    v.map_values(|s: BareSpecifierSite| s@)
}

/// Whether a configuration key names files that the runner reads at test time.
pub open spec fn names_files(key: Seq<char>) -> bool {
    key == "setupFiles"@ || key == "setupFilesAfterEnv"@ || key == "globalSetup"@ || key
        == "globalTeardown"@
}

/// Whether a configuration key names files that the runner reads at test time.
pub fn is_runner_config_file_key(key: &str) -> (r: bool)
    ensures
        r == names_files(key@),
{
    same(key, "setupFiles") || same(key, "setupFilesAfterEnv") || same(key, "globalSetup") || same(
        key,
        "globalTeardown",
    )
}

/// The texts of a property's value.
pub open spec fn value_texts(v: ValueView) -> Seq<Seq<char>> {
    match v {
        ValueView::Text(s) => seq![s],
        ValueView::List(l) => l,
        ValueView::Other => Seq::empty(),
    }
}

/// The texts that the file-naming keys of a configuration hold, wherever they stand.
pub open spec fn runner_refs(list: Seq<FindingView>) -> Seq<Seq<char>>
    decreases list.len(),
{
    if list.len() == 0 {
        Seq::empty()
    } else {
        let before = runner_refs(list.drop_last());
        match list.last() {
            FindingView::Property(key, value) => if names_files(key) {
                before + value_texts(value)
            } else {
                before
            },
            _ => before,
        }
    }
}

/// Adds the texts of a property's value to a list.
pub(crate) fn push_value_texts(value: &PropertyValue, out: &mut Vec<String>)
    ensures
        texts(final(out)@) == texts(old(out)@) + value_texts(value@),
{
    let ghost start = texts(out@);
    match value {
        PropertyValue::Text(s) => {
            out.push(s.clone());
            assert(texts(out@) =~= start + seq![s@]);
        },
        PropertyValue::List(list) => {
            let ghost all = texts(list@);
            let mut i: usize = 0;
            assert(texts(out@) =~= start + all.take(0));
            while i < list.len()
                invariant
                    i <= list.len(),
                    all == texts(list@),
                    texts(out@) == start + all.take(i as int),
                decreases list.len() - i,
            {
                let ghost before = texts(out@);
                out.push(list[i].clone());
                proof {
                    assert(all[i as int] == list@[i as int]@);
                    assert(texts(out@) =~= before.push(all[i as int]));
                    assert(all.take(i + 1) =~= all.take(i as int).push(all[i as int]));
                    assert(start + all.take(i + 1) =~= (start + all.take(i as int)).push(
                        all[i as int],
                    ));
                }
                i = i + 1;
            }
            assert(all.take(i as int) =~= all);
        },
        PropertyValue::Other => {
            assert(start + Seq::<Seq<char>>::empty() =~= start);
        },
    }
}

/// The texts that the file-naming keys among some findings hold.
pub fn read_runner_refs(list: &Vec<Finding>) -> (r: Vec<String>)
    ensures
        texts(r@) == runner_refs(finding_views(list@)),
{
    let ghost all = finding_views(list@);
    let mut out: Vec<String> = Vec::new();
    let mut i: usize = 0;
    assert(texts(out@) =~= runner_refs(all.take(0)));
    while i < list.len()
        invariant
            i <= list.len(),
            all == finding_views(list@),
            texts(out@) == runner_refs(all.take(i as int)),
        decreases list.len() - i,
    {
        proof {
            assert(all.take(i + 1).drop_last() =~= all.take(i as int));
            assert(all.take(i + 1).last() == list@[i as int]@);
        }
        match &list[i] {
            Finding::Property { key, value } => {
                if is_runner_config_file_key(key.as_str()) {
                    push_value_texts(value, &mut out);
                }
            },
            _ => {},
        }
        i = i + 1;
    }
    assert(all.take(i as int) =~= all);
    out
}

/// The texts that the file-naming keys of a configuration file hold; none when it cannot be
/// parsed.
pub fn extract_runner_config_referenced_paths(path: &str, content: &str) -> (r: Vec<String>)
    ensures
        texts(r@) == (match file_findings(path@, content@) {
            Some(list) => runner_refs(list),
            None => Seq::empty(),
        }),
{
    match read_source(path, content) {
        Ok(list) => read_runner_refs(&list),
        Err(_) => {
            let none: Vec<String> = Vec::new();
            assert(texts(none@) =~= Seq::<Seq<char>>::empty());
            none
        },
    }
}

/// The paths that a path without an extension may stand for, in the order in which they are
/// tried.
pub open spec fn probes(p: Seq<char>) -> Seq<Seq<char>> {
    seq![
        p,
        p + ".ts"@,
        p + ".tsx"@,
        p + ".js"@,
        p + ".jsx"@,
        p + ".mjs"@,
        p + ".cjs"@,
        p + ".json"@,
        under(p, "index.ts"@),
        under(p, "index.tsx"@),
        under(p, "index.js"@),
        under(p, "index.jsx"@),
        under(p, "index.mjs"@),
        under(p, "index.cjs"@),
    ]
}

fn with_suffix(p: &str, suffix: &str) -> (r: String)
    ensures
        r@ == p@ + suffix@,
{
    let mut out = p.to_owned();
    out.append(suffix);
    out
}

/// The first file among those that a path without an extension may stand for: itself, itself
/// with a source extension, or its `index` file.
pub fn probe_first_party_path(files: &FileTree, candidate_no_ext: &str) -> (r: Option<String>)
    ensures
        match r {
            Some(p) => first_file(files@, probes(candidate_no_ext@)) == Some(p@),
            None => first_file(files@, probes(candidate_no_ext@)) is None,
        },
{
    let p = candidate_no_ext;
    let mut list: Vec<String> = Vec::new();
    list.push(p.to_owned());
    list.push(with_suffix(p, ".ts"));
    list.push(with_suffix(p, ".tsx"));
    list.push(with_suffix(p, ".js"));
    list.push(with_suffix(p, ".jsx"));
    list.push(with_suffix(p, ".mjs"));
    list.push(with_suffix(p, ".cjs"));
    list.push(with_suffix(p, ".json"));
    list.push(join_path(p, "index.ts"));
    list.push(join_path(p, "index.tsx"));
    list.push(join_path(p, "index.js"));
    list.push(join_path(p, "index.jsx"));
    list.push(join_path(p, "index.mjs"));
    list.push(join_path(p, "index.cjs"));
    assert(texts(list@) =~= probes(p@));
    find_first_file(files, &list)
}

/// The file that a configuration value names from the directory `dir`: a path from there, or
/// after `<rootDir>` one that is taken from there too. Anything else names none.
pub open spec fn value_target(fs: FilesView, dir: Seq<char>, raw: Seq<char>) -> Option<Seq<char>> {
    if "<rootDir>"@.is_prefix_of(raw) {
        first_file(
            fs,
            probes(under(dir, trim_start_char(raw.skip("<rootDir>"@.len() as int), '/'))),
        )
    } else if "./"@.is_prefix_of(raw) || "../"@.is_prefix_of(raw) {
        first_file(fs, probes(under(dir, raw)))
    } else {
        None
    }
}

/// The file that a configuration value names from the directory `config_dir`.
pub fn resolve_config_value_path(files: &FileTree, config_dir: &str, raw: &str) -> (r: Option<
    String,
>)
    ensures
        match r {
            Some(p) => value_target(files@, config_dir@, raw@) == Some(p@),
            None => value_target(files@, config_dir@, raw@) is None,
        },
{
    match strip_prefix(raw, "<rootDir>") {
        Some(rest) => {
            return probe_first_party_path(
                files,
                join_path(config_dir, trim_start(rest.as_str(), '/').as_str()).as_str(),
            );
        },
        None => {},
    }
    if starts_with(raw, "./") || starts_with(raw, "../") {
        return probe_first_party_path(files, join_path(config_dir, raw).as_str());
    }
    None
}

/// The file that an import in a configuration file of the directory `dir` names, if its
/// specifier is relative.
pub open spec fn import_target(fs: FilesView, dir: Seq<char>, s: Seq<char>) -> Option<Seq<char>> {
    if "./"@.is_prefix_of(s) || "../"@.is_prefix_of(s) {
        first_file(fs, probes(under(dir, s)))
    } else {
        None
    }
}

/// The file that an import in a configuration file of the directory `config_dir` names.
pub fn resolve_config_import_specifier(
    files: &FileTree,
    config_dir: &str,
    specifier: &str,
) -> (r: Option<String>)
    ensures
        match r {
            Some(p) => import_target(files@, config_dir@, specifier@) == Some(p@),
            None => import_target(files@, config_dir@, specifier@) is None,
        },
{
    if !(starts_with(specifier, "./") || starts_with(specifier, "../")) {
        return None;
    }
    probe_first_party_path(files, join_path(config_dir, specifier).as_str())
}

/// How far a scan has come: the files passed and the files found, by their keys, the bare
/// specifiers met, and the files to scan next with what they hold.
pub struct ScanView {
    pub seen: Set<Seq<char>>,
    pub found: Map<Seq<char>, Seq<char>>,
    pub bare: Seq<BareView>,
    pub next: Seq<(Seq<char>, Seq<char>)>,
}

/// A scan after it met the file `p`: a file not passed before is found, and scanned next if
/// it can be read.
pub open spec fn met(fs: FilesView, s: ScanView, p: Seq<char>) -> ScanView {
    if s.seen.contains(path_key(p)) {
        s
    } else {
        ScanView {
            seen: s.seen.insert(path_key(p)),
            found: s.found.insert(path_key(p), p),
            bare: s.bare,
            next: match text_at(fs, p) {
                Some(t) => s.next.push((p, t)),
                None => s.next,
            },
        }
    }
}

/// A scan after the values of the file-naming keys.
pub open spec fn after_values(
    fs: FilesView,
    dir: Seq<char>,
    raws: Seq<Seq<char>>,
    s: ScanView,
) -> ScanView
    decreases raws.len(),
{
    if raws.len() == 0 {
        s
    } else {
        let before = after_values(fs, dir, raws.drop_last(), s);
        match value_target(fs, dir, raws.last()) {
            Some(p) => met(fs, before, p),
            None => before,
        }
    }
}

/// A scan after the imports of the file `path`: a relative one meets its file, a bare one is
/// noted.
pub open spec fn after_imports(
    fs: FilesView,
    path: Seq<char>,
    dir: Seq<char>,
    sites: Seq<SiteView>,
    s: ScanView,
) -> ScanView
    decreases sites.len(),
{
    if sites.len() == 0 {
        s
    } else {
        let before = after_imports(fs, path, dir, sites.drop_last(), s);
        let specifier = sites.last().specifier;
        match import_target(fs, dir, specifier) {
            Some(p) => met(fs, before, p),
            None => match bare_package(specifier) {
                Some(package_name) => ScanView {
                    bare: before.bare.push(
                        BareView { file: slashed(path), specifier, package_name },
                    ),
                    ..before
                },
                None => before,
            },
        }
    }
}

/// The directory that a configuration file's own paths are taken from.
pub open spec fn config_dir(path: Seq<char>) -> Seq<char> {
    match parent_of(path) {
        Some(d) => d,
        None => Seq::empty(),
    }
}

/// A scan after one configuration file. A file that cannot be parsed names nothing.
pub open spec fn after_file(
    fs: FilesView,
    path: Seq<char>,
    content: Seq<char>,
    s: ScanView,
) -> ScanView {
    match file_findings(path, content) {
        Some(list) => after_imports(
            fs,
            path,
            config_dir(path),
            sites_among(list),
            after_values(fs, config_dir(path), runner_refs(list), s),
        ),
        None => s,
    }
}

/// A scan after some configuration files.
pub open spec fn after_files(
    fs: FilesView,
    files: Seq<(Seq<char>, Seq<char>)>,
    s: ScanView,
) -> ScanView
    decreases files.len(),
{
    if files.len() == 0 {
        s
    } else {
        after_file(
            fs,
            files.last().0,
            files.last().1,
            after_files(fs, files.drop_last(), s),
        )
    }
}

/// A scan that goes on for at most `depth` more rounds, each over the files that the round
/// before it found.
pub open spec fn after_rounds(fs: FilesView, s: ScanView, depth: nat) -> ScanView
    decreases depth,
{
    if depth == 0 {
        s
    } else {
        after_rounds(
            fs,
            after_files(fs, s.next, ScanView { next: Seq::empty(), ..s }),
            (depth - 1) as nat,
        )
    }
}

/// How many rounds a scan goes on for.
pub const MAX_CONFIG_DEPTH: usize = 4;

/// What the scan of a configuration file comes to.
pub open spec fn config_scan(fs: FilesView, path: Seq<char>, content: Seq<char>) -> ScanView {
    after_rounds(
        fs,
        ScanView {
            seen: Set::empty().insert(path_key(path)),
            found: Map::empty(),
            bare: Seq::empty(),
            next: seq![(path, content)],
        },
        MAX_CONFIG_DEPTH as nat,
    )
}

/// The paths of a map in the order of their keys.
pub open spec fn paths_in_order(found: Map<Seq<char>, Seq<char>>) -> Seq<Seq<char>> {
    listing(found.dom()).map_values(|k: Seq<char>| found[k])
}

/// What a configuration file names: the files, in the order of paths, and the bare
/// specifiers of its imports, in the order in which they were met.
#[derive(Debug)]
pub struct RunnerConfigScan {
    pub files: Vec<String>,
    pub bare_specifiers: Vec<BareSpecifierSite>,
}

/// A scan under way.
pub(crate) struct Scan {
    pub(crate) seen: StrSet,
    pub(crate) found: StrMap<String>,
    pub(crate) bare: Vec<BareSpecifierSite>,
    pub(crate) next: Vec<(String, String)>,
}

/// Files with what they hold, as mathematical values.
pub(crate) open spec fn pair_texts(v: Seq<(String, String)>) -> Seq<(Seq<char>, Seq<char>)> {
    v.map_values(|p: (String, String)| (p.0@, p.1@))
}

impl Scan {
    pub(crate) open spec fn state(&self) -> ScanView {
        ScanView {
            seen: self.seen@,
            found: self.found@,
            bare: bare_views(self.bare@),
            next: pair_texts(self.next@),
        }
    }

    /// Meets the file `p`.
    pub(crate) fn meet(&mut self, files: &FileTree, p: String)
        ensures
            final(self).state() == met(files@, old(self).state(), p@),
    {
        let key = key_of_path(p.as_str());
        let ghost s = self.state();
        if self.seen.contains(key.as_str()) {
            return;
        }
        let added = self.seen.insert(key.clone());
        self.found.insert(key, p.clone());
        match files.read(p.as_str()) {
            Some(t) => {
                let ghost x = (p@, t@);
                self.next.push((p, t.clone()));
                assert(pair_texts(self.next@) =~= s.next.push(x));
            },
            None => {},
        }
    }

    fn take_values(&mut self, files: &FileTree, dir: &str, raws: &Vec<String>)
        ensures
            final(self).state() == after_values(
                files@,
                dir@,
                texts(raws@),
                old(self).state(),
            ),
    {
        let ghost all = texts(raws@);
        let ghost s = self.state();
        let mut i: usize = 0;
        assert(all.take(0).len() == 0);
        while i < raws.len()
            invariant
                i <= raws.len(),
                all == texts(raws@),
                self.state() == after_values(files@, dir@, all.take(i as int), s),
            decreases raws.len() - i,
        {
            proof {
                assert(all.take(i + 1).drop_last() =~= all.take(i as int));
                assert(all.take(i + 1).last() == raws@[i as int]@);
            }
            match resolve_config_value_path(files, dir, raws[i].as_str()) {
                Some(p) => self.meet(files, p),
                None => {},
            }
            i = i + 1;
        }
        assert(all.take(i as int) =~= all);
    }

    fn take_imports(&mut self, files: &FileTree, path: &str, dir: &str, sites: &Vec<ImportSite>)
        ensures
            final(self).state() == after_imports(
                files@,
                path@,
                dir@,
                site_views(sites@),
                old(self).state(),
            ),
    {
        let ghost all = site_views(sites@);
        let ghost s = self.state();
        let mut i: usize = 0;
        assert(all.take(0).len() == 0);
        while i < sites.len()
            invariant
                i <= sites.len(),
                all == site_views(sites@),
                self.state() == after_imports(files@, path@, dir@, all.take(i as int), s),
            decreases sites.len() - i,
        {
            proof {
                assert(all.take(i + 1).drop_last() =~= all.take(i as int));
                assert(all.take(i + 1).last() == sites@[i as int]@);
            }
            let specifier = sites[i].specifier.as_str();
            let ghost before = self.state();
            match resolve_config_import_specifier(files, dir, specifier) {
                Some(p) => self.meet(files, p),
                None => match bare_specifier_package_name(specifier) {
                    Some(package_name) => {
                        let site = BareSpecifierSite {
                            file: with_slashes(path),
                            specifier: specifier.to_owned(),
                            package_name,
                        };
                        let ghost x = site@;
                        self.bare.push(site);
                        assert(bare_views(self.bare@) =~= before.bare.push(x));
                    },
                    None => {},
                },
            }
            i = i + 1;
        }
        assert(all.take(i as int) =~= all);
    }

    fn take_file(&mut self, files: &FileTree, path: &str, content: &str)
        ensures
            final(self).state() == after_file(files@, path@, content@, old(self).state()),
    {
        let dir = match parent(path) {
            Some(d) => d,
            None => {
                let none = String::new();
                assert(none@ =~= Seq::<char>::empty());
                none
            },
        };
        match read_source(path, content) {
            Ok(list) => {
                let raws = read_runner_refs(&list);
                self.take_values(files, dir.as_str(), &raws);
                let imports = crate::importparse::imports_among(list);
                self.take_imports(files, path, dir.as_str(), &imports.sites);
            },
            Err(_) => {},
        }
    }

    fn take_round(&mut self, files: &FileTree)
        ensures
            final(self).state() == after_files(
                files@,
                old(self).state().next,
                (ScanView { next: Seq::empty(), ..old(self).state() }),
            ),
    {
        let ghost s = self.state();
        let mut list: Vec<(String, String)> = Vec::new();
        std::mem::swap(&mut list, &mut self.next);
        let ghost all = pair_texts(list@);
        let ghost start = ScanView { next: Seq::empty(), ..s };
        proof {
            assert(pair_texts(self.next@) =~= Seq::<(Seq<char>, Seq<char>)>::empty());
            assert(self.state() == start);
            assert(all.take(0).len() == 0);
        }
        let mut i: usize = 0;
        while i < list.len()
            invariant
                i <= list.len(),
                all == pair_texts(list@),
                self.state() == after_files(files@, all.take(i as int), start),
            decreases list.len() - i,
        {
            proof {
                assert(all.take(i + 1).drop_last() =~= all.take(i as int));
                assert(all.take(i + 1).last() == (list@[i as int].0@, list@[i as int].1@));
            }
            self.take_file(files, list[i].0.as_str(), list[i].1.as_str());
            i = i + 1;
        }
        assert(all.take(i as int) =~= all);
    }
}

/// The paths of a map in the order of their keys.
pub(crate) fn list_paths(found: &StrMap<String>) -> (r: Vec<String>)
    ensures
        texts(r@) == paths_in_order(found@),
{
    found.facts();
    let ghost keys = found.keys();
    let mut out: Vec<String> = Vec::new();
    let mut i: usize = 0;
    while i < found.len()
        invariant
            i <= keys.len(),
            keys == found.keys(),
            keys == listing(found@.dom()),
            keys.len() == found.values().len(),
            forall|k: int|
                0 <= k < keys.len() ==> found@.dom().contains(#[trigger] keys[k])
                    && found@[keys[k]] == found.values()[k],
            texts(out@) == paths_in_order(found@).take(i as int),
        decreases keys.len() - i,
    {
        let ghost before = texts(out@);
        let p = found.value_at(i).clone();
        let ghost x = p@;
        out.push(p);
        proof {
            assert(found@[keys[i as int]] == x);
            assert(texts(out@) =~= before.push(x));
            assert(paths_in_order(found@).take(i + 1) =~= paths_in_order(found@).take(
                i as int,
            ).push(x));
        }
        i = i + 1;
    }
    assert(paths_in_order(found@).take(i as int) =~= paths_in_order(found@));
    out
}

/// Scans a configuration file.
pub(crate) fn scan_of(files: &FileTree, config_path: &str, config_content: &str) -> (r: Scan)
    ensures
        r.state() == config_scan(files@, config_path@, config_content@),
{
    let mut scan = Scan {
        seen: StrSet::new(),
        found: StrMap::new(),
        bare: Vec::new(),
        next: Vec::new(),
    };
    let added = scan.seen.insert(key_of_path(config_path));
    scan.next.push((config_path.to_owned(), config_content.to_owned()));
    let ghost start = scan.state();
    proof {
        assert(bare_views(scan.bare@) =~= Seq::<BareView>::empty());
        assert(pair_texts(scan.next@) =~= seq![(config_path@, config_content@)]);
        assert(config_scan(files@, config_path@, config_content@) == after_rounds(
            files@,
            start,
            MAX_CONFIG_DEPTH as nat,
        ));
    }
    let mut left: usize = MAX_CONFIG_DEPTH;
    while left > 0
        invariant
            after_rounds(files@, scan.state(), left as nat) == after_rounds(
                files@,
                start,
                MAX_CONFIG_DEPTH as nat,
            ),
        decreases left,
    {
        scan.take_round(files);
        left = left - 1;
    }
    scan
}

/// Finds the files that a test runner's configuration file names by its keys or imports, and
/// those that these in turn name or import, and notes the bare specifiers of the imports on
/// the way.
pub fn resolve_runner_config_referenced_files(
    files: &FileTree,
    config_path: &str,
    config_content: &str,
) -> (r: RunnerConfigScan)
    ensures
        texts(r.files@) == paths_in_order(
            config_scan(files@, config_path@, config_content@).found,
        ),
        bare_views(r.bare_specifiers@) == config_scan(
            files@,
            config_path@,
            config_content@,
        ).bare,
{
    let scan = scan_of(files, config_path, config_content);
    RunnerConfigScan { files: list_paths(&scan.found), bare_specifiers: scan.bare }
}

/// The configuration file itself is never among the files that its scan finds.
pub proof fn scans_leave_out_the_config_itself(
    fs: FilesView,
    path: Seq<char>,
    content: Seq<char>,
)
    ensures
        !config_scan(fs, path, content).found.dom().contains(path_key(path)),
{
    let s = ScanView {
        seen: Set::empty().insert(path_key(path)),
        found: Map::empty(),
        bare: Seq::empty(),
        next: seq![(path, content)],
    };
    lemma_rounds_keep(fs, s, MAX_CONFIG_DEPTH as nat, path_key(path));
}

/// What was passed and not found stays so.
spec fn passed_over(s: ScanView, key: Seq<char>) -> bool {
    s.seen.contains(key) && !s.found.dom().contains(key)
}

proof fn lemma_rounds_keep(fs: FilesView, s: ScanView, depth: nat, key: Seq<char>)
    requires
        passed_over(s, key),
    ensures
        passed_over(after_rounds(fs, s, depth), key),
    decreases depth,
{
    if depth > 0 {
        let t = ScanView { next: Seq::empty(), ..s };
        lemma_files_keep(fs, s.next, t, key);
        lemma_rounds_keep(fs, after_files(fs, s.next, t), (depth - 1) as nat, key);
    }
}

proof fn lemma_files_keep(
    fs: FilesView,
    files: Seq<(Seq<char>, Seq<char>)>,
    s: ScanView,
    key: Seq<char>,
)
    requires
        passed_over(s, key),
    ensures
        passed_over(after_files(fs, files, s), key),
    decreases files.len(),
{
    if files.len() > 0 {
        lemma_files_keep(fs, files.drop_last(), s, key);
        let t = after_files(fs, files.drop_last(), s);
        let (path, content) = files.last();
        match file_findings(path, content) {
            Some(list) => {
                lemma_values_keep(fs, config_dir(path), runner_refs(list), t, key);
                lemma_imports_keep(
                    fs,
                    path,
                    config_dir(path),
                    sites_among(list),
                    after_values(fs, config_dir(path), runner_refs(list), t),
                    key,
                );
            },
            None => {},
        }
    }
}

proof fn lemma_values_keep(
    fs: FilesView,
    dir: Seq<char>,
    raws: Seq<Seq<char>>,
    s: ScanView,
    key: Seq<char>,
)
    requires
        passed_over(s, key),
    ensures
        passed_over(after_values(fs, dir, raws, s), key),
    decreases raws.len(),
{
    if raws.len() > 0 {
        lemma_values_keep(fs, dir, raws.drop_last(), s, key);
    }
}

proof fn lemma_imports_keep(
    fs: FilesView,
    path: Seq<char>,
    dir: Seq<char>,
    sites: Seq<SiteView>,
    s: ScanView,
    key: Seq<char>,
)
    requires
        passed_over(s, key),
    ensures
        passed_over(after_imports(fs, path, dir, sites, s), key),
    decreases sites.len(),
{
    if sites.len() > 0 {
        lemma_imports_keep(fs, path, dir, sites.drop_last(), s, key);
    }
}

} // verus!
