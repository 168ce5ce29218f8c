//! How far a test runner's configuration is followed, and that of eslint.
use crate::config_scan::{
    after_file, after_files, after_imports, after_rounds, after_values, config_dir, config_scan,
    import_target, met, paths_in_order, probes, runner_refs, value_target, BareView, ScanView,
    MAX_CONFIG_DEPTH,
};
use crate::eslint::{
    after_config_rounds, after_configs, after_refs, config_relative_refs, eslint_files,
    eslint_start,
};
use crate::importparse::sites_among;
use crate::nearest::first_file;
use crate::path::{path_key, slashed, under};
use crate::placement_laws::finite_sets_are_listed;
use crate::sorted::listing;
use crate::source::{file_findings, FindingView, SiteView};
use crate::specifiers::bare_package;
use crate::tree::{text_at, FilesView};
use vstd::prelude::*;

verus! {

/// Whether a scan holds all that another one holds.
pub open spec fn grown(t: ScanView, s: ScanView) -> bool {
    &&& s.seen.subset_of(t.seen)
    &&& forall|k: Seq<char>| #[trigger]
        s.found.dom().contains(k) ==> t.found.dom().contains(k) && t.found[k] == s.found[k]
    &&& s.bare.is_prefix_of(t.bare)
}

/// Whether a scan has found whatever it has seen since another one, and has it queued where it
/// can be read.
pub open spec fn queued_since(fs: FilesView, t: ScanView, s: ScanView) -> bool {
    forall|k: Seq<char>| #[trigger]
        t.seen.contains(k) && !s.seen.contains(k) ==> t.found.dom().contains(k) && path_key(
            t.found[k],
        ) == k && (text_at(fs, t.found[k]) matches Some(text) ==> t.next.contains(
            (t.found[k], text),
        ))
}

/// Whether a scan has come from another one by meeting files.
spec fn came_from(fs: FilesView, t: ScanView, s: ScanView) -> bool {
    &&& grown(t, s)
    &&& queued_since(fs, t, s)
    &&& s.next.is_prefix_of(t.next)
}

proof fn lemma_came_on(fs: FilesView, u: ScanView, t: ScanView, s: ScanView)
    requires
        came_from(fs, t, s),
        came_from(fs, u, t),
    ensures
        came_from(fs, u, s),
{
    assert(s.bare.is_prefix_of(u.bare)) by {
        assert(u.bare.subrange(0, s.bare.len() as int) =~= t.bare.subrange(
            0,
            s.bare.len() as int,
        )) by {
            assert forall|i: int| 0 <= i < s.bare.len() implies u.bare[i] == t.bare[i] by {
                assert(u.bare.subrange(0, t.bare.len() as int)[i] == t.bare[i]);
            }
        }
    }
    assert(s.next.is_prefix_of(u.next)) by {
        assert forall|i: int| 0 <= i < s.next.len() implies u.next[i] == t.next[i] by {
            assert(u.next.subrange(0, t.next.len() as int)[i] == t.next[i]);
        }
        assert(u.next.subrange(0, s.next.len() as int) =~= t.next.subrange(
            0,
            s.next.len() as int,
        ));
    }
    assert forall|k: Seq<char>| #[trigger] u.seen.contains(k) && !s.seen.contains(k) implies
        u.found.dom().contains(k) && path_key(u.found[k]) == k && (text_at(
        fs,
        u.found[k],
    ) matches Some(text) ==> u.next.contains((u.found[k], text))) by {
        if t.seen.contains(k) {
            assert(t.found.dom().contains(k));
            if let Some(text) = text_at(fs, t.found[k]) {
                let x = (t.found[k], text);
                let i = choose|i: int| 0 <= i < t.next.len() && t.next[i] == x;
                assert(u.next.subrange(0, t.next.len() as int)[i] == t.next[i]);
                assert(u.next[i] == x);
            }
        }
    }
}

proof fn lemma_stayed(fs: FilesView, s: ScanView)
    ensures
        came_from(fs, s, s),
{
    assert(s.bare.subrange(0, s.bare.len() as int) =~= s.bare);
    assert(s.next.subrange(0, s.next.len() as int) =~= s.next);
}

proof fn lemma_values(fs: FilesView, dir: Seq<char>, raws: Seq<Seq<char>>, s: ScanView)
    requires
        forall|k: Seq<char>| #[trigger] s.found.dom().contains(k) ==> s.seen.contains(k),
    ensures
        came_from(fs, after_values(fs, dir, raws, s), s),
        forall|k: Seq<char>| #[trigger]
            after_values(fs, dir, raws, s).found.dom().contains(k) ==> after_values(
                fs,
                dir,
                raws,
                s,
            ).seen.contains(k),
        forall|i: int|
            0 <= i < raws.len() ==> (value_target(fs, dir, #[trigger] raws[i]) matches Some(p)
                ==> after_values(fs, dir, raws, s).seen.contains(path_key(p))),
    decreases raws.len(),
{
    if raws.len() == 0 {
        lemma_stayed(fs, s);
    } else {
        let rest = raws.drop_last();
        let before = after_values(fs, dir, rest, s);
        lemma_values(fs, dir, rest, s);
        if let Some(p) = value_target(fs, dir, raws.last()) {
            lemma_met_found(fs, before, p);
            lemma_came_on(fs, met(fs, before, p), before, s);
        }
        let t = after_values(fs, dir, raws, s);
        assert forall|i: int| 0 <= i < raws.len() implies (value_target(
            fs,
            dir,
            #[trigger] raws[i],
        ) matches Some(p) ==> t.seen.contains(path_key(p))) by {
            if i < rest.len() {
                assert(rest[i] == raws[i]);
            }
        }
    }
}

proof fn lemma_met_found(fs: FilesView, s: ScanView, p: Seq<char>)
    requires
        forall|k: Seq<char>| #[trigger] s.found.dom().contains(k) ==> s.seen.contains(k),
    ensures
        came_from(fs, met(fs, s, p), s),
        met(fs, s, p).seen.contains(path_key(p)),
        forall|k: Seq<char>| #[trigger]
            met(fs, s, p).found.dom().contains(k) ==> met(fs, s, p).seen.contains(k),
{
    let t = met(fs, s, p);
    lemma_stayed(fs, s);
    if !s.seen.contains(path_key(p)) {
        assert(!s.found.dom().contains(path_key(p)));
        assert(t.next.subrange(0, s.next.len() as int) =~= s.next);
        if let Some(text) = text_at(fs, p) {
            assert(t.next[s.next.len() as int] == (p, text));
        }
    }
}

/// The note that a specifier of a file names a package.
pub open spec fn bare_note(path: Seq<char>, s: Seq<char>) -> BareView {
    BareView { file: slashed(path), specifier: s, package_name: bare_package(s)->0 }
}

proof fn lemma_imports(
    fs: FilesView,
    path: Seq<char>,
    dir: Seq<char>,
    sites: Seq<SiteView>,
    s: ScanView,
)
    requires
        forall|k: Seq<char>| #[trigger] s.found.dom().contains(k) ==> s.seen.contains(k),
    ensures
        came_from(fs, after_imports(fs, path, dir, sites, s), s),
        forall|k: Seq<char>| #[trigger]
            after_imports(fs, path, dir, sites, s).found.dom().contains(k) ==> after_imports(
                fs,
                path,
                dir,
                sites,
                s,
            ).seen.contains(k),
        forall|i: int|
            0 <= i < sites.len() ==> match import_target(fs, dir, (#[trigger] sites[i]).specifier) {
                Some(p) => after_imports(fs, path, dir, sites, s).seen.contains(path_key(p)),
                None => bare_package(sites[i].specifier) is Some ==> after_imports(
                    fs,
                    path,
                    dir,
                    sites,
                    s,
                ).bare.contains(bare_note(path, sites[i].specifier)),
            },
    decreases sites.len(),
{
    if sites.len() == 0 {
        lemma_stayed(fs, s);
    } else {
        let rest = sites.drop_last();
        let before = after_imports(fs, path, dir, rest, s);
        let t = after_imports(fs, path, dir, sites, s);
        lemma_imports(fs, path, dir, rest, s);
        match import_target(fs, dir, sites.last().specifier) {
            Some(p) => {
                lemma_met_found(fs, before, p);
                lemma_came_on(fs, t, before, s);
            },
            None => {
                lemma_stayed(fs, before);
                if bare_package(sites.last().specifier) is Some {
                    assert(t.bare.subrange(0, before.bare.len() as int) =~= before.bare);
                    assert(t.bare[before.bare.len() as int] == bare_note(
                        path,
                        sites.last().specifier,
                    ));
                }
                assert(came_from(fs, t, before));
                lemma_came_on(fs, t, before, s);
            },
        }
        assert forall|i: int| 0 <= i < sites.len() implies match import_target(
            fs,
            dir,
            (#[trigger] sites[i]).specifier,
        ) {
            Some(p) => t.seen.contains(path_key(p)),
            None => bare_package(sites[i].specifier) is Some ==> t.bare.contains(
                bare_note(path, sites[i].specifier),
            ),
        } by {
            if i < rest.len() {
                assert(rest[i] == sites[i]);
                if import_target(fs, dir, sites[i].specifier) is None && bare_package(
                    sites[i].specifier,
                ) is Some {
                    let note = bare_note(path, sites[i].specifier);
                    let k = choose|k: int| 0 <= k < before.bare.len() && before.bare[k] == note;
                    assert(t.bare.subrange(0, before.bare.len() as int)[k] == before.bare[k]);
                    assert(t.bare[k] == note);
                }
            }
        }
    }
}

/// Whether a configuration file refers to the file `p`: by a setting that names files, or by an
/// import.
pub open spec fn refers(
    fs: FilesView,
    path: Seq<char>,
    content: Seq<char>,
    p: Seq<char>,
) -> bool {
    file_findings(path, content) matches Some(list) && {
        ||| exists|i: int|
            0 <= i < runner_refs(list).len() && value_target(
                fs,
                config_dir(path),
                #[trigger] runner_refs(list)[i],
            ) == Some(p)
        ||| exists|i: int|
            0 <= i < sites_among(list).len() && import_target(
                fs,
                config_dir(path),
                (#[trigger] sites_among(list)[i]).specifier,
            ) == Some(p)
    }
}

/// Whether a configuration file imports a package by its name.
pub open spec fn imports_package(
    fs: FilesView,
    path: Seq<char>,
    content: Seq<char>,
    s: Seq<char>,
) -> bool {
    file_findings(path, content) matches Some(list) && import_target(fs, config_dir(path), s) is None
        && bare_package(s) is Some && exists|i: int|
        0 <= i < sites_among(list).len() && (#[trigger] sites_among(list)[i]).specifier == s
}

/// Whether a scan holds all that a configuration file refers to.
spec fn holds_refs(fs: FilesView, t: ScanView, path: Seq<char>, content: Seq<char>) -> bool {
    &&& forall|p: Seq<char>| #[trigger]
        refers(fs, path, content, p) ==> t.seen.contains(path_key(p))
    &&& forall|s: Seq<char>| #[trigger]
        imports_package(fs, path, content, s) ==> t.bare.contains(bare_note(path, s))
}

proof fn lemma_file(fs: FilesView, path: Seq<char>, content: Seq<char>, s: ScanView)
    requires
        forall|k: Seq<char>| #[trigger] s.found.dom().contains(k) ==> s.seen.contains(k),
    ensures
        came_from(fs, after_file(fs, path, content, s), s),
        forall|k: Seq<char>| #[trigger]
            after_file(fs, path, content, s).found.dom().contains(k) ==> after_file(
                fs,
                path,
                content,
                s,
            ).seen.contains(k),
        holds_refs(fs, after_file(fs, path, content, s), path, content),
{
    match file_findings(path, content) {
        None => {
            lemma_stayed(fs, s);
        },
        Some(list) => {
            let dir = config_dir(path);
            let a = after_values(fs, dir, runner_refs(list), s);
            let b = after_imports(fs, path, dir, sites_among(list), a);
            lemma_values(fs, dir, runner_refs(list), s);
            lemma_imports(fs, path, dir, sites_among(list), a);
            lemma_came_on(fs, b, a, s);
            assert forall|p: Seq<char>| #[trigger] refers(fs, path, content, p) implies b.seen.contains(
                path_key(p),
            ) by {
                if exists|i: int|
                    0 <= i < runner_refs(list).len() && value_target(
                        fs,
                        dir,
                        #[trigger] runner_refs(list)[i],
                    ) == Some(p) {
                    assert(a.seen.contains(path_key(p)));
                }
            }
        },
    }
}

proof fn lemma_kept_refs(
    fs: FilesView,
    t: ScanView,
    s: ScanView,
    path: Seq<char>,
    content: Seq<char>,
)
    requires
        grown(t, s),
        holds_refs(fs, s, path, content),
    ensures
        holds_refs(fs, t, path, content),
{
    assert forall|x: Seq<char>| #[trigger] imports_package(fs, path, content, x) implies
        t.bare.contains(bare_note(path, x)) by {
        let note = bare_note(path, x);
        let k = choose|k: int| 0 <= k < s.bare.len() && s.bare[k] == note;
        assert(t.bare.subrange(0, s.bare.len() as int)[k] == s.bare[k]);
        assert(t.bare[k] == note);
    }
}

proof fn lemma_files(fs: FilesView, files: Seq<(Seq<char>, Seq<char>)>, s: ScanView)
    requires
        forall|k: Seq<char>| #[trigger] s.found.dom().contains(k) ==> s.seen.contains(k),
    ensures
        came_from(fs, after_files(fs, files, s), s),
        forall|k: Seq<char>| #[trigger]
            after_files(fs, files, s).found.dom().contains(k) ==> after_files(
                fs,
                files,
                s,
            ).seen.contains(k),
        forall|i: int|
            0 <= i < files.len() ==> holds_refs(
                fs,
                after_files(fs, files, s),
                (#[trigger] files[i]).0,
                files[i].1,
            ),
    decreases files.len(),
{
    if files.len() == 0 {
        lemma_stayed(fs, s);
    } else {
        let rest = files.drop_last();
        let before = after_files(fs, rest, s);
        let t = after_files(fs, files, s);
        lemma_files(fs, rest, s);
        lemma_file(fs, files.last().0, files.last().1, before);
        lemma_came_on(fs, t, before, s);
        assert forall|i: int| 0 <= i < files.len() implies holds_refs(
            fs,
            t,
            (#[trigger] files[i]).0,
            files[i].1,
        ) by {
            if i < rest.len() {
                assert(rest[i] == files[i]);
                lemma_kept_refs(fs, t, before, files[i].0, files[i].1);
            }
        }
    }
}

/// The scan of a configuration after some rounds.
pub open spec fn scanned(fs: FilesView, path: Seq<char>, content: Seq<char>, rounds: nat) -> ScanView
    decreases rounds,
{
    if rounds == 0 {
        ScanView {
            seen: Set::empty().insert(path_key(path)),
            found: Map::empty(),
            bare: Seq::empty(),
            next: seq![(path, content)],
        }
    } else {
        let s = scanned(fs, path, content, (rounds - 1) as nat);
        after_files(fs, s.next, ScanView { next: Seq::empty(), ..s })
    }
}

proof fn lemma_rounds(
    fs: FilesView,
    path: Seq<char>,
    content: Seq<char>,
    rounds: nat,
    more: nat,
)
    ensures
        after_rounds(fs, scanned(fs, path, content, rounds), more) == scanned(
            fs,
            path,
            content,
            rounds + more,
        ),
    decreases more,
{
    if more > 0 {
        lemma_rounds(fs, path, content, rounds + 1, (more - 1) as nat);
    }
}

proof fn lemma_scanned(fs: FilesView, path: Seq<char>, content: Seq<char>, rounds: nat)
    ensures
        forall|k: Seq<char>| #[trigger]
            scanned(fs, path, content, rounds).found.dom().contains(k) ==> scanned(
                fs,
                path,
                content,
                rounds,
            ).seen.contains(k),
        forall|k: Seq<char>| #[trigger]
            scanned(fs, path, content, rounds).seen.contains(k) ==> k == path_key(path) || scanned(
                fs,
                path,
                content,
                rounds,
            ).found.dom().contains(k),
        rounds > 0 ==> grown(
            scanned(fs, path, content, rounds),
            scanned(fs, path, content, (rounds - 1) as nat),
        ),
        rounds > 0 ==> queued_since(
            fs,
            scanned(fs, path, content, rounds),
            scanned(fs, path, content, (rounds - 1) as nat),
        ),
    decreases rounds,
{
    if rounds > 0 {
        lemma_scanned(fs, path, content, (rounds - 1) as nat);
        let s = scanned(fs, path, content, (rounds - 1) as nat);
        let open = ScanView { next: Seq::empty(), ..s };
        lemma_files(fs, s.next, open);
        let t = scanned(fs, path, content, rounds);
        assert(grown(t, open));
        assert(grown(t, s)) by {
            assert forall|k: Seq<char>| #[trigger] s.found.dom().contains(k) implies
                t.found.dom().contains(k) && t.found[k] == s.found[k] by {
                assert(open.found.dom().contains(k));
            }
        }
        assert(queued_since(fs, t, open));
        assert forall|k: Seq<char>| #[trigger] t.seen.contains(k) implies k == path_key(path)
            || t.found.dom().contains(k) by {
            if s.seen.contains(k) && k != path_key(path) {
                assert(open.found.dom().contains(k));
            }
        }
    }
}

proof fn lemma_scans_grow(
    fs: FilesView,
    path: Seq<char>,
    content: Seq<char>,
    rounds: nat,
    more: nat,
    at: Seq<char>,
    text: Seq<char>,
)
    requires
        holds_refs(fs, scanned(fs, path, content, rounds), at, text),
    ensures
        holds_refs(fs, scanned(fs, path, content, rounds + more), at, text),
    decreases more,
{
    if more > 0 {
        lemma_scans_grow(fs, path, content, rounds, (more - 1) as nat, at, text);
        lemma_scanned(fs, path, content, rounds + more);
        lemma_kept_refs(
            fs,
            scanned(fs, path, content, rounds + more),
            scanned(fs, path, content, (rounds + more - 1) as nat),
            at,
            text,
        );
    }
}

/// Every file that is waiting to be scanned before the last round has all that it refers to in
/// the scan: each file is found, but for the configuration itself, and each package that it
/// imports by its name is noted. The configuration is waiting from the start.
pub proof fn every_waiting_file_is_scanned(
    fs: FilesView,
    path: Seq<char>,
    content: Seq<char>,
    rounds: nat,
    at: Seq<char>,
    text: Seq<char>,
    p: Seq<char>,
)
    requires
        rounds < 4,
        scanned(fs, path, content, rounds).next.contains((at, text)),
    ensures
        refers(fs, at, text, p) ==> path_key(p) == path_key(path) || config_scan(
            fs,
            path,
            content,
        ).found.dom().contains(path_key(p)),
        imports_package(fs, at, text, p) ==> config_scan(fs, path, content).bare.contains(
            bare_note(at, p),
        ),
        scanned(fs, path, content, 0).next.contains((path, content)),
{
    let s = scanned(fs, path, content, rounds);
    let open = ScanView { next: Seq::empty(), ..s };
    lemma_scanned(fs, path, content, rounds);
    lemma_files(fs, s.next, open);
    let i = choose|i: int| 0 <= i < s.next.len() && s.next[i] == (at, text);
    assert(holds_refs(fs, scanned(fs, path, content, rounds + 1), s.next[i].0, s.next[i].1));
    let max = MAX_CONFIG_DEPTH as nat;
    lemma_scans_grow(
        fs,
        path,
        content,
        rounds + 1,
        (max - rounds - 1) as nat,
        at,
        text,
    );
    lemma_rounds(fs, path, content, 0, max);
    lemma_scanned(fs, path, content, max);
    assert(config_scan(fs, path, content) == scanned(fs, path, content, max));
    assert(scanned(fs, path, content, 0).next[0] == (path, content));
}

/// A file that a round finds is waiting after it, if it can be read.
pub proof fn found_files_wait_to_be_scanned(
    fs: FilesView,
    path: Seq<char>,
    content: Seq<char>,
    rounds: nat,
    p: Seq<char>,
    text: Seq<char>,
)
    requires
        !scanned(fs, path, content, rounds).seen.contains(path_key(p)),
        scanned(fs, path, content, rounds + 1).found.dom().contains(path_key(p)),
        scanned(fs, path, content, rounds + 1).found[path_key(p)] == p,
        text_at(fs, p) == Some(text),
    ensures
        scanned(fs, path, content, rounds + 1).next.contains((p, text)),
{
    lemma_scanned(fs, path, content, rounds + 1);
    let t = scanned(fs, path, content, rounds + 1);
    assert(t.seen.contains(path_key(p)));
}

proof fn lemma_refs(fs: FilesView, dir: Seq<char>, raws: Seq<Seq<char>>, s: ScanView)
    requires
        forall|k: Seq<char>| #[trigger] s.found.dom().contains(k) ==> s.seen.contains(k),
    ensures
        came_from(fs, after_refs(fs, dir, raws, s), s),
        forall|k: Seq<char>| #[trigger]
            after_refs(fs, dir, raws, s).found.dom().contains(k) ==> after_refs(
                fs,
                dir,
                raws,
                s,
            ).seen.contains(k),
        forall|i: int|
            0 <= i < raws.len() ==> (first_file(
                fs,
                probes(under(dir, #[trigger] raws[i])),
            ) matches Some(p) ==> after_refs(fs, dir, raws, s).seen.contains(path_key(p))),
    decreases raws.len(),
{
    if raws.len() == 0 {
        lemma_stayed(fs, s);
    } else {
        let rest = raws.drop_last();
        let before = after_refs(fs, dir, rest, s);
        let t = after_refs(fs, dir, raws, s);
        lemma_refs(fs, dir, rest, s);
        if let Some(p) = first_file(fs, probes(under(dir, raws.last()))) {
            lemma_met_found(fs, before, p);
            lemma_came_on(fs, met(fs, before, p), before, s);
        }
        assert forall|i: int| 0 <= i < raws.len() implies (first_file(
            fs,
            probes(under(dir, #[trigger] raws[i])),
        ) matches Some(p) ==> t.seen.contains(path_key(p))) by {
            if i < rest.len() {
                assert(rest[i] == raws[i]);
            }
        }
    }
}

/// Whether an eslint configuration refers to the file `p` by a relative `extends` or `plugins`
/// entry.
pub open spec fn entry_leads_to(
    fs: FilesView,
    path: Seq<char>,
    content: Seq<char>,
    p: Seq<char>,
) -> bool {
    exists|i: int|
        0 <= i < config_relative_refs(path, content).len() && first_file(
            fs,
            probes(
                under(config_dir(path), #[trigger] config_relative_refs(path, content)[i]),
            ),
        ) == Some(p)
}

proof fn lemma_configs(fs: FilesView, files: Seq<(Seq<char>, Seq<char>)>, s: ScanView)
    requires
        forall|k: Seq<char>| #[trigger] s.found.dom().contains(k) ==> s.seen.contains(k),
    ensures
        came_from(fs, after_configs(fs, files, s), s),
        forall|k: Seq<char>| #[trigger]
            after_configs(fs, files, s).found.dom().contains(k) ==> after_configs(
                fs,
                files,
                s,
            ).seen.contains(k),
        forall|i: int, p: Seq<char>|
            0 <= i < files.len() && #[trigger] entry_leads_to(fs, files[i].0, files[i].1, p)
                ==> after_configs(fs, files, s).seen.contains(path_key(p)),
    decreases files.len(),
{
    if files.len() == 0 {
        lemma_stayed(fs, s);
    } else {
        let rest = files.drop_last();
        let (path, content) = files.last();
        let before = after_configs(fs, rest, s);
        let t = after_configs(fs, files, s);
        lemma_configs(fs, rest, s);
        lemma_refs(fs, config_dir(path), config_relative_refs(path, content), before);
        lemma_came_on(fs, t, before, s);
        assert forall|i: int, p: Seq<char>|
            0 <= i < files.len() && #[trigger] entry_leads_to(
                fs,
                files[i].0,
                files[i].1,
                p,
            ) implies t.seen.contains(path_key(p)) by {
            if i < rest.len() {
                assert(rest[i] == files[i]);
                assert(entry_leads_to(fs, rest[i].0, rest[i].1, p));
                assert(before.seen.contains(path_key(p)));
            }
        }
    }
}

/// The scan of an eslint configuration after some rounds.
pub open spec fn config_scanned(
    fs: FilesView,
    path: Seq<char>,
    content: Seq<char>,
    rounds: nat,
) -> ScanView
    decreases rounds,
{
    if rounds == 0 {
        eslint_start(fs, path, content)
    } else {
        let s = config_scanned(fs, path, content, (rounds - 1) as nat);
        after_configs(fs, s.next, ScanView { next: Seq::empty(), ..s })
    }
}

proof fn lemma_config_rounds(
    fs: FilesView,
    path: Seq<char>,
    content: Seq<char>,
    rounds: nat,
    more: nat,
)
    ensures
        after_config_rounds(fs, config_scanned(fs, path, content, rounds), more) == config_scanned(
            fs,
            path,
            content,
            rounds + more,
        ),
    decreases more,
{
    if more > 0 {
        lemma_config_rounds(fs, path, content, rounds + 1, (more - 1) as nat);
    }
}

proof fn lemma_config_scanned(fs: FilesView, path: Seq<char>, content: Seq<char>, rounds: nat)
    ensures
        ({
            let t = config_scanned(fs, path, content, rounds);
            &&& forall|k: Seq<char>| #[trigger] t.found.dom().contains(k) ==> t.seen.contains(k)
            &&& forall|k: Seq<char>| #[trigger]
                t.seen.contains(k) ==> k == path_key(path) || t.found.dom().contains(k)
            &&& rounds > 0 ==> grown(t, config_scanned(fs, path, content, (rounds - 1) as nat))
            &&& rounds > 0 ==> queued_since(
                fs,
                t,
                config_scanned(fs, path, content, (rounds - 1) as nat),
            )
        }),
    decreases rounds,
{
    if rounds > 0 {
        lemma_config_scanned(fs, path, content, (rounds - 1) as nat);
        let s = config_scanned(fs, path, content, (rounds - 1) as nat);
        let open = ScanView { next: Seq::empty(), ..s };
        lemma_configs(fs, s.next, open);
        let t = config_scanned(fs, path, content, rounds);
        assert(grown(t, open));
        assert(grown(t, s)) by {
            assert forall|k: Seq<char>| #[trigger] s.found.dom().contains(k) implies
                t.found.dom().contains(k) && t.found[k] == s.found[k] by {
                assert(open.found.dom().contains(k));
            }
        }
        assert(queued_since(fs, t, open));
        assert forall|k: Seq<char>| #[trigger] t.seen.contains(k) implies k == path_key(path)
            || t.found.dom().contains(k) by {
            if s.seen.contains(k) && k != path_key(path) {
                assert(open.found.dom().contains(k));
            }
        }
    }
}

proof fn lemma_config_seen_stays(
    fs: FilesView,
    path: Seq<char>,
    content: Seq<char>,
    rounds: nat,
    more: nat,
    k: Seq<char>,
)
    requires
        config_scanned(fs, path, content, rounds).seen.contains(k),
    ensures
        config_scanned(fs, path, content, rounds + more).seen.contains(k),
    decreases more,
{
    if more > 0 {
        lemma_config_seen_stays(fs, path, content, rounds, (more - 1) as nat, k);
        lemma_config_scanned(fs, path, content, rounds + more);
    }
}

/// Every eslint configuration that is waiting before the last round has each file that its
/// relative entries lead to in the scan, but for the configuration itself. That is waiting from
/// the start, and what its imports lead to is found from the start.
pub proof fn every_waiting_config_is_followed(
    fs: FilesView,
    path: Seq<char>,
    content: Seq<char>,
    rounds: nat,
    at: Seq<char>,
    text: Seq<char>,
    p: Seq<char>,
)
    requires
        rounds < 4,
        config_scanned(fs, path, content, rounds).next.contains((at, text)),
    ensures
        entry_leads_to(fs, at, text, p) ==> path_key(p) == path_key(path) || eslint_files(
            fs,
            path,
            content,
        ).dom().contains(path_key(p)),
        config_scanned(fs, path, content, 0).next.contains((path, content)),
        config_scan(fs, path, content).found.dom().contains(path_key(p)) ==> path_key(p)
            == path_key(path) || eslint_files(fs, path, content).dom().contains(path_key(p)),
{
    let s = config_scanned(fs, path, content, rounds);
    let open = ScanView { next: Seq::empty(), ..s };
    let max = MAX_CONFIG_DEPTH as nat;
    lemma_config_scanned(fs, path, content, rounds);
    lemma_configs(fs, s.next, open);
    let i = choose|i: int| 0 <= i < s.next.len() && s.next[i] == (at, text);
    if entry_leads_to(fs, at, text, p) {
        assert(entry_leads_to(fs, s.next[i].0, s.next[i].1, p));
        lemma_config_seen_stays(
            fs,
            path,
            content,
            rounds + 1,
            (max - rounds - 1) as nat,
            path_key(p),
        );
    }
    if config_scan(fs, path, content).found.dom().contains(path_key(p)) {
        assert(config_scanned(fs, path, content, 0).seen.contains(path_key(p)));
        lemma_config_seen_stays(fs, path, content, 0, max, path_key(p));
    }
    lemma_config_rounds(fs, path, content, 0, max);
    lemma_config_scanned(fs, path, content, max);
    assert(config_scanned(fs, path, content, 0).next[0] == (path, content));
}

/// Whatever a scan has found is listed.
pub proof fn every_found_file_is_listed(found: Map<Seq<char>, Seq<char>>, k: Seq<char>)
    requires
        found.dom().finite(),
        found.dom().contains(k),
    ensures
        paths_in_order(found).contains(found[k]),
{
    finite_sets_are_listed(found.dom());
    let l = listing(found.dom());
    assert(l.to_set().contains(k));
    let i = choose|i: int| 0 <= i < l.len() && l[i] == k;
    assert(paths_in_order(found)[i] == found[k]);
}

/// Whether what a scan has found and noted since another one is told by `found` and `noted`.
spec fn new_ones(
    t: ScanView,
    s: ScanView,
    found: spec_fn(Seq<char>) -> bool,
    noted: spec_fn(BareView) -> bool,
) -> bool {
    &&& forall|k: Seq<char>| #[trigger]
        t.found.dom().contains(k) ==> s.found.dom().contains(k) && s.found[k] == t.found[k]
            || found(t.found[k])
    &&& forall|i: int|
        0 <= i < t.bare.len() ==> s.bare.contains(#[trigger] t.bare[i]) || noted(t.bare[i])
}

proof fn lemma_nothing_new(
    s: ScanView,
    found: spec_fn(Seq<char>) -> bool,
    noted: spec_fn(BareView) -> bool,
)
    ensures
        new_ones(s, s, found, noted),
{
}

proof fn lemma_new_ones_on(
    u: ScanView,
    t: ScanView,
    s: ScanView,
    found: spec_fn(Seq<char>) -> bool,
    noted: spec_fn(BareView) -> bool,
)
    requires
        new_ones(t, s, found, noted),
        new_ones(u, t, found, noted),
    ensures
        new_ones(u, s, found, noted),
{
    assert forall|i: int| 0 <= i < u.bare.len() implies s.bare.contains(#[trigger] u.bare[i])
        || noted(u.bare[i]) by {
        if t.bare.contains(u.bare[i]) {
            let j = choose|j: int| 0 <= j < t.bare.len() && t.bare[j] == u.bare[i];
            assert(s.bare.contains(t.bare[j]) || noted(t.bare[j]));
        }
    }
}

proof fn lemma_only_values(
    fs: FilesView,
    path: Seq<char>,
    content: Seq<char>,
    list: Seq<FindingView>,
    n: nat,
    s: ScanView,
)
    requires
        file_findings(path, content) == Some(list),
        n <= runner_refs(list).len(),
    ensures
        new_ones(
            after_values(fs, config_dir(path), runner_refs(list).take(n as int), s),
            s,
            |p: Seq<char>| refers(fs, path, content, p),
            |b: BareView| noted_in(fs, path, content, b),
        ),
    decreases n,
{
    let raws = runner_refs(list).take(n as int);
    let dir = config_dir(path);
    let found = |p: Seq<char>| refers(fs, path, content, p);
    let noted = |b: BareView| noted_in(fs, path, content, b);
    if n == 0 {
        lemma_nothing_new(s, found, noted);
    } else {
        lemma_only_values(fs, path, content, list, (n - 1) as nat, s);
        assert(raws.drop_last() =~= runner_refs(list).take(n - 1));
        let before = after_values(fs, dir, raws.drop_last(), s);
        let t = after_values(fs, dir, raws, s);
        assert(raws.last() == runner_refs(list)[n - 1]);
        if let Some(p) = value_target(fs, dir, raws.last()) {
            assert(refers(fs, path, content, p));
            assert(found(p));
        }
        assert(new_ones(t, before, found, noted));
        lemma_new_ones_on(t, before, s, found, noted);
    }
}

/// Whether a note is that of a package that a file imports by its name.
pub open spec fn noted_in(
    fs: FilesView,
    path: Seq<char>,
    content: Seq<char>,
    b: BareView,
) -> bool {
    imports_package(fs, path, content, b.specifier) && b == bare_note(path, b.specifier)
}

proof fn lemma_only_imports(
    fs: FilesView,
    path: Seq<char>,
    content: Seq<char>,
    list: Seq<FindingView>,
    n: nat,
    s: ScanView,
)
    requires
        file_findings(path, content) == Some(list),
        n <= sites_among(list).len(),
    ensures
        new_ones(
            after_imports(fs, path, config_dir(path), sites_among(list).take(n as int), s),
            s,
            |p: Seq<char>| refers(fs, path, content, p),
            |b: BareView| noted_in(fs, path, content, b),
        ),
    decreases n,
{
    let sites = sites_among(list).take(n as int);
    let dir = config_dir(path);
    let found = |p: Seq<char>| refers(fs, path, content, p);
    let noted = |b: BareView| noted_in(fs, path, content, b);
    if n == 0 {
        lemma_nothing_new(s, found, noted);
    } else {
        lemma_only_imports(fs, path, content, list, (n - 1) as nat, s);
        assert(sites.drop_last() =~= sites_among(list).take(n - 1));
        let before = after_imports(fs, path, dir, sites.drop_last(), s);
        let t = after_imports(fs, path, dir, sites, s);
        assert(sites.last() == sites_among(list)[n - 1]);
        let specifier = sites.last().specifier;
        match import_target(fs, dir, specifier) {
            Some(p) => {
                assert(refers(fs, path, content, p));
                assert(found(p));
            },
            None => {
                if bare_package(specifier) is Some {
                    let note = bare_note(path, specifier);
                    assert(imports_package(fs, path, content, specifier));
                    assert(noted(note));
                    assert forall|i: int| 0 <= i < t.bare.len() implies before.bare.contains(
                        #[trigger] t.bare[i],
                    ) || noted(t.bare[i]) by {
                        if i < before.bare.len() {
                            assert(t.bare[i] == before.bare[i]);
                        }
                    }
                }
            },
        }
        assert(new_ones(t, before, found, noted));
        lemma_new_ones_on(t, before, s, found, noted);
    }
}

proof fn lemma_only_file(fs: FilesView, path: Seq<char>, content: Seq<char>, s: ScanView)
    ensures
        new_ones(
            after_file(fs, path, content, s),
            s,
            |p: Seq<char>| refers(fs, path, content, p),
            |b: BareView| noted_in(fs, path, content, b),
        ),
{
    let found = |p: Seq<char>| refers(fs, path, content, p);
    let noted = |b: BareView| noted_in(fs, path, content, b);
    match file_findings(path, content) {
        None => {
            lemma_nothing_new(s, found, noted);
        },
        Some(list) => {
            let raws = runner_refs(list);
            let sites = sites_among(list);
            let a = after_values(fs, config_dir(path), raws, s);
            assert(raws.take(raws.len() as int) =~= raws);
            assert(sites.take(sites.len() as int) =~= sites);
            lemma_only_values(fs, path, content, list, raws.len(), s);
            lemma_only_imports(fs, path, content, list, sites.len(), a);
            lemma_new_ones_on(after_file(fs, path, content, s), a, s, found, noted);
        },
    }
}

/// Whether one of some files refers to the file `p`.
pub open spec fn some_refers(
    fs: FilesView,
    files: Seq<(Seq<char>, Seq<char>)>,
    p: Seq<char>,
) -> bool {
    exists|i: int| 0 <= i < files.len() && #[trigger] refers(fs, files[i].0, files[i].1, p)
}

/// Whether one of some files has a note.
pub open spec fn some_notes(
    fs: FilesView,
    files: Seq<(Seq<char>, Seq<char>)>,
    b: BareView,
) -> bool {
    exists|i: int| 0 <= i < files.len() && #[trigger] noted_in(fs, files[i].0, files[i].1, b)
}

proof fn lemma_only_files(fs: FilesView, files: Seq<(Seq<char>, Seq<char>)>, s: ScanView)
    ensures
        new_ones(
            after_files(fs, files, s),
            s,
            |p: Seq<char>| some_refers(fs, files, p),
            |b: BareView| some_notes(fs, files, b),
        ),
    decreases files.len(),
{
    let found = |p: Seq<char>| some_refers(fs, files, p);
    let noted = |b: BareView| some_notes(fs, files, b);
    if files.len() == 0 {
        lemma_nothing_new(s, found, noted);
    } else {
        let rest = files.drop_last();
        let (path, content) = files.last();
        let before = after_files(fs, rest, s);
        let t = after_files(fs, files, s);
        lemma_only_files(fs, rest, s);
        lemma_only_file(fs, path, content, before);
        assert(files[files.len() - 1] == files.last());
        assert(new_ones(before, s, found, noted)) by {
            assert forall|p: Seq<char>| some_refers(fs, rest, p) implies some_refers(
                fs,
                files,
                p,
            ) by {
                let i = choose|i: int|
                    0 <= i < rest.len() && #[trigger] refers(fs, rest[i].0, rest[i].1, p);
                assert(rest[i] == files[i]);
                assert(refers(fs, files[i].0, files[i].1, p));
            }
            assert forall|b: BareView| some_notes(fs, rest, b) implies some_notes(
                fs,
                files,
                b,
            ) by {
                let i = choose|i: int|
                    0 <= i < rest.len() && #[trigger] noted_in(fs, rest[i].0, rest[i].1, b);
                assert(rest[i] == files[i]);
                assert(noted_in(fs, files[i].0, files[i].1, b));
            }
        }
        assert(new_ones(t, before, found, noted)) by {
            let n = files.len() - 1;
            assert forall|p: Seq<char>| refers(fs, path, content, p) implies some_refers(
                fs,
                files,
                p,
            ) by {
                assert(refers(fs, files[n].0, files[n].1, p));
            }
            assert forall|b: BareView| noted_in(fs, path, content, b) implies some_notes(
                fs,
                files,
                b,
            ) by {
                assert(noted_in(fs, files[n].0, files[n].1, b));
            }
        }
        lemma_new_ones_on(t, before, s, found, noted);
    }
}

/// Whether a file was waiting to be scanned before some round, of the first ones.
pub open spec fn waited(
    fs: FilesView,
    path: Seq<char>,
    content: Seq<char>,
    rounds: nat,
    at: Seq<char>,
    text: Seq<char>,
) -> bool {
    exists|r: nat|
        r < rounds && #[trigger] scanned(fs, path, content, r).next.contains((at, text))
}

proof fn lemma_only_scanned(
    fs: FilesView,
    path: Seq<char>,
    content: Seq<char>,
    rounds: nat,
    k: Seq<char>,
) -> (at: (Seq<char>, Seq<char>))
    requires
        scanned(fs, path, content, rounds).found.dom().contains(k),
    ensures
        waited(fs, path, content, rounds, at.0, at.1),
        refers(fs, at.0, at.1, scanned(fs, path, content, rounds).found[k]),
    decreases rounds,
{
    let s = scanned(fs, path, content, (rounds - 1) as nat);
    let open = ScanView { next: Seq::empty(), ..s };
    let t = scanned(fs, path, content, rounds);
    lemma_only_files(fs, s.next, open);
    if s.found.dom().contains(k) && s.found[k] == t.found[k] {
        let at = lemma_only_scanned(fs, path, content, (rounds - 1) as nat, k);
        let r = choose|r: nat|
            r < rounds - 1 && #[trigger] scanned(fs, path, content, r).next.contains(at);
        assert(scanned(fs, path, content, r).next.contains((at.0, at.1)));
        at
    } else {
        assert(some_refers(fs, s.next, t.found[k]));
        let i = choose|i: int|
            0 <= i < s.next.len() && #[trigger] refers(fs, s.next[i].0, s.next[i].1, t.found[k]);
        assert(s.next.contains((s.next[i].0, s.next[i].1)));
        s.next[i]
    }
}

/// A scan finds nothing but what the files that waited for it refer to.
pub proof fn only_referred_files_are_found(
    fs: FilesView,
    path: Seq<char>,
    content: Seq<char>,
    k: Seq<char>,
) -> (at: (Seq<char>, Seq<char>))
    requires
        config_scan(fs, path, content).found.dom().contains(k),
    ensures
        waited(fs, path, content, 4, at.0, at.1),
        refers(fs, at.0, at.1, config_scan(fs, path, content).found[k]),
{
    lemma_rounds(fs, path, content, 0, MAX_CONFIG_DEPTH as nat);
    lemma_only_scanned(fs, path, content, MAX_CONFIG_DEPTH as nat, k)
}

proof fn lemma_only_noted(
    fs: FilesView,
    path: Seq<char>,
    content: Seq<char>,
    rounds: nat,
    b: BareView,
) -> (at: (Seq<char>, Seq<char>))
    requires
        scanned(fs, path, content, rounds).bare.contains(b),
    ensures
        waited(fs, path, content, rounds, at.0, at.1),
        noted_in(fs, at.0, at.1, b),
    decreases rounds,
{
    let t = scanned(fs, path, content, rounds);
    if rounds == 0 {
        assert(t.bare.len() == 0);
        (path, content)
    } else {
        let s = scanned(fs, path, content, (rounds - 1) as nat);
        let open = ScanView { next: Seq::empty(), ..s };
        lemma_only_files(fs, s.next, open);
        let k = choose|k: int| 0 <= k < t.bare.len() && t.bare[k] == b;
        assert(open.bare.contains(t.bare[k]) || some_notes(fs, s.next, t.bare[k]));
        if s.bare.contains(b) {
            let at = lemma_only_noted(fs, path, content, (rounds - 1) as nat, b);
            let r = choose|r: nat|
                r < rounds - 1 && #[trigger] scanned(fs, path, content, r).next.contains(at);
            assert(scanned(fs, path, content, r).next.contains((at.0, at.1)));
            at
        } else {
            let i = choose|i: int|
                0 <= i < s.next.len() && #[trigger] noted_in(fs, s.next[i].0, s.next[i].1, b);
            assert(s.next.contains((s.next[i].0, s.next[i].1)));
            s.next[i]
        }
    }
}

/// A scan notes nothing but the packages that the files that waited for it import by their name.
pub proof fn only_imported_packages_are_noted(
    fs: FilesView,
    path: Seq<char>,
    content: Seq<char>,
    b: BareView,
) -> (at: (Seq<char>, Seq<char>))
    requires
        config_scan(fs, path, content).bare.contains(b),
    ensures
        waited(fs, path, content, 4, at.0, at.1),
        imports_package(fs, at.0, at.1, b.specifier),
        b == bare_note(at.0, b.specifier),
{
    lemma_rounds(fs, path, content, 0, MAX_CONFIG_DEPTH as nat);
    lemma_only_noted(fs, path, content, MAX_CONFIG_DEPTH as nat, b)
}

proof fn lemma_only_refs(
    fs: FilesView,
    path: Seq<char>,
    content: Seq<char>,
    n: nat,
    s: ScanView,
)
    requires
        n <= config_relative_refs(path, content).len(),
    ensures
        new_ones(
            after_refs(
                fs,
                config_dir(path),
                config_relative_refs(path, content).take(n as int),
                s,
            ),
            s,
            |p: Seq<char>| entry_leads_to(fs, path, content, p),
            |b: BareView| false,
        ),
    decreases n,
{
    let all = config_relative_refs(path, content);
    let raws = all.take(n as int);
    let dir = config_dir(path);
    let found = |p: Seq<char>| entry_leads_to(fs, path, content, p);
    let noted = |b: BareView| false;
    if n == 0 {
        lemma_nothing_new(s, found, noted);
    } else {
        lemma_only_refs(fs, path, content, (n - 1) as nat, s);
        assert(raws.drop_last() =~= all.take(n - 1));
        let before = after_refs(fs, dir, raws.drop_last(), s);
        let t = after_refs(fs, dir, raws, s);
        assert(raws.last() == all[n - 1]);
        if let Some(p) = first_file(fs, probes(under(dir, raws.last()))) {
            assert(entry_leads_to(fs, path, content, p));
            assert(found(p));
        }
        assert(new_ones(t, before, found, noted));
        lemma_new_ones_on(t, before, s, found, noted);
    }
}

/// Whether one of some configurations has an entry that leads to the file `p`.
pub open spec fn some_leads_to(
    fs: FilesView,
    files: Seq<(Seq<char>, Seq<char>)>,
    p: Seq<char>,
) -> bool {
    exists|i: int| 0 <= i < files.len() && #[trigger] entry_leads_to(fs, files[i].0, files[i].1, p)
}

proof fn lemma_only_configs(fs: FilesView, files: Seq<(Seq<char>, Seq<char>)>, s: ScanView)
    ensures
        new_ones(
            after_configs(fs, files, s),
            s,
            |p: Seq<char>| some_leads_to(fs, files, p),
            |b: BareView| false,
        ),
    decreases files.len(),
{
    let found = |p: Seq<char>| some_leads_to(fs, files, p);
    let noted = |b: BareView| false;
    if files.len() == 0 {
        lemma_nothing_new(s, found, noted);
    } else {
        let rest = files.drop_last();
        let (path, content) = files.last();
        let all = config_relative_refs(path, content);
        let before = after_configs(fs, rest, s);
        let t = after_configs(fs, files, s);
        let n = files.len() - 1;
        lemma_only_configs(fs, rest, s);
        assert(all.take(all.len() as int) =~= all);
        lemma_only_refs(fs, path, content, all.len(), before);
        assert(new_ones(before, s, found, noted)) by {
            assert forall|p: Seq<char>| some_leads_to(fs, rest, p) implies some_leads_to(
                fs,
                files,
                p,
            ) by {
                let i = choose|i: int|
                    0 <= i < rest.len() && #[trigger] entry_leads_to(fs, rest[i].0, rest[i].1, p);
                assert(rest[i] == files[i]);
                assert(entry_leads_to(fs, files[i].0, files[i].1, p));
            }
        }
        assert(new_ones(t, before, found, noted)) by {
            assert forall|p: Seq<char>| entry_leads_to(fs, path, content, p) implies some_leads_to(
                fs,
                files,
                p,
            ) by {
                assert(entry_leads_to(fs, files[n].0, files[n].1, p));
            }
        }
        lemma_new_ones_on(t, before, s, found, noted);
    }
}

/// Whether a file is one that an eslint configuration, or one that waited for its scan, leads to.
pub open spec fn led_to(
    fs: FilesView,
    path: Seq<char>,
    content: Seq<char>,
    rounds: nat,
    p: Seq<char>,
) -> bool {
    ||| exists|k: Seq<char>| #[trigger]
        config_scan(fs, path, content).found.dom().contains(k) && config_scan(
            fs,
            path,
            content,
        ).found[k] == p
    ||| exists|r: nat|
        r < rounds && #[trigger] some_leads_to(fs, config_scanned(fs, path, content, r).next, p)
}

proof fn lemma_only_config_scanned(
    fs: FilesView,
    path: Seq<char>,
    content: Seq<char>,
    rounds: nat,
    k: Seq<char>,
)
    requires
        config_scanned(fs, path, content, rounds).found.dom().contains(k),
    ensures
        led_to(fs, path, content, rounds, config_scanned(fs, path, content, rounds).found[k]),
    decreases rounds,
{
    let t = config_scanned(fs, path, content, rounds);
    if rounds == 0 {
        assert(config_scan(fs, path, content).found.dom().contains(k));
    } else {
        let before = (rounds - 1) as nat;
        let s = config_scanned(fs, path, content, before);
        let open = ScanView { next: Seq::empty(), ..s };
        lemma_only_configs(fs, s.next, open);
        if s.found.dom().contains(k) && s.found[k] == t.found[k] {
            lemma_only_config_scanned(fs, path, content, before, k);
            if exists|r: nat|
                r < before && #[trigger] some_leads_to(
                    fs,
                    config_scanned(fs, path, content, r).next,
                    t.found[k],
                ) {
                let r = choose|r: nat|
                    r < before && #[trigger] some_leads_to(
                        fs,
                        config_scanned(fs, path, content, r).next,
                        t.found[k],
                    );
                assert(r < rounds);
            }
        } else {
            assert(some_leads_to(fs, s.next, t.found[k]));
            assert(before < rounds);
        }
    }
}

/// The scan of an eslint configuration finds nothing but what it refers to like any
/// configuration, and what the entries of those that waited for the scan lead to.
pub proof fn only_files_that_configurations_lead_to_are_found(
    fs: FilesView,
    path: Seq<char>,
    content: Seq<char>,
    k: Seq<char>,
)
    requires
        eslint_files(fs, path, content).dom().contains(k),
    ensures
        led_to(fs, path, content, 4, eslint_files(fs, path, content)[k]),
{
    lemma_config_rounds(fs, path, content, 0, MAX_CONFIG_DEPTH as nat);
    lemma_only_config_scanned(fs, path, content, MAX_CONFIG_DEPTH as nat, k);
}

} // verus!
