//! What an installed package is checked for, unpacked to and run with.
use crate::driver_install::{
    creation_steps, entry_rest, first_recognized, integrity_failure, one_script, recognized,
    recorded, records, scripts_in, IntegrityFailure, StepView,
};
use crate::json::{field, JsonTree};
use crate::path::{components, lemma_parent, parent_of, path_key};
use crate::path_laws::{is_step, joined_steps_are_components};
use crate::text::{after_char, joined, lemma_find_char, lemma_find_char_is, upto_char, words};
use vstd::prelude::*;

verus! {

/// A script that runs around an installation, and its place among the others.
pub open spec fn stage(name: Seq<char>) -> Option<int> {
    if name == "preinstall"@ {
        Some(1)
    } else if name == "install"@ {
        Some(2)
    } else if name == "postinstall"@ {
        Some(3)
    } else {
        None
    }
}

/// The script of a manifest under a name.
pub open spec fn script_named(t: JsonTree, name: Seq<char>) -> Option<Seq<char>> {
    match field(t, "scripts"@) {
        Some(scripts) => match field(scripts, name) {
            Some(JsonTree::Str(s)) => Some(s),
            _ => None,
        },
        None => None,
    }
}

proof fn lemma_stages()
    ensures
        stage("preinstall"@) == Some(1int),
        stage("install"@) == Some(2int),
        stage("postinstall"@) == Some(3int),
{
    reveal_strlit("preinstall");
    reveal_strlit("install");
    reveal_strlit("postinstall");
    assert("preinstall"@.len() == 10);
    assert("install"@.len() == 7);
    assert("postinstall"@.len() == 11);
}

/// Every script of a manifest that belongs to an installation is run.
pub proof fn scripts_of_an_installation_run(t: JsonTree, name: Seq<char>, s: Seq<char>)
    requires
        stage(name) is Some,
        script_named(t, name) == Some(s),
    ensures
        scripts_in(t).contains((name, s)),
{
    let scripts = field(t, "scripts"@)->0;
    let a = one_script(scripts, "preinstall"@);
    let b = one_script(scripts, "install"@);
    let c = one_script(scripts, "postinstall"@);
    assert(scripts is Object);
    assert(scripts_in(t) == a + b + c);
    if name == "preinstall"@ {
        assert((a + b + c)[0] == (name, s));
    } else if name == "install"@ {
        assert((a + b + c)[a.len() as int] == (name, s));
    } else {
        assert((a + b + c)[(a.len() + b.len()) as int] == (name, s));
    }
}

/// Only those scripts are run, each by the text that the manifest gives it, and one stage after
/// the other.
pub proof fn scripts_run_stage_after_stage(t: JsonTree, i: int)
    requires
        0 <= i < scripts_in(t).len(),
    ensures
        stage(scripts_in(t)[i].0) is Some,
        script_named(t, scripts_in(t)[i].0) == Some(scripts_in(t)[i].1),
        i > 0 ==> stage(scripts_in(t)[i - 1].0)->0 < stage(scripts_in(t)[i].0)->0,
{
    lemma_stages();
    let scripts = field(t, "scripts"@)->0;
    let a = one_script(scripts, "preinstall"@);
    let b = one_script(scripts, "install"@);
    let c = one_script(scripts, "postinstall"@);
    assert(scripts_in(t) == a + b + c);
}

/// The entry of an integrity text that records a hash.
pub open spec fn entry_of(algorithm: Seq<char>, hash: Seq<char>) -> Seq<char> {
    algorithm + seq!['-'] + hash
}

proof fn lemma_entry_parts(algorithm: Seq<char>, hash: Seq<char>)
    requires
        algorithm == "sha512"@ || algorithm == "sha1"@,
    ensures
        entry_of(algorithm, hash).contains('-'),
        upto_char(entry_of(algorithm, hash), '-') == algorithm,
        after_char(entry_of(algorithm, hash), '-') == hash,
{
    reveal_strlit("sha512");
    reveal_strlit("sha1");
    let e = entry_of(algorithm, hash);
    let n = algorithm.len() as int;
    assert(e[n] == '-');
    assert forall|j: int| 0 <= j < n implies e[j] != '-' by {
        assert(e[j] == algorithm[j]);
    }
    lemma_find_char_is(e, '-', n);
    assert(e.take(n) =~= algorithm);
    assert(e.skip(n + 1) =~= hash);
}

proof fn lemma_parts_entry(entry: Seq<char>)
    requires
        entry.contains('-'),
    ensures
        entry == entry_of(upto_char(entry, '-'), after_char(entry, '-')),
{
    lemma_find_char(entry, '-');
    assert(entry =~= entry_of(upto_char(entry, '-'), after_char(entry, '-')));
}

/// A package is accepted when, and only when, its integrity text records the sha512 or the sha1
/// hash of what was fetched.
pub proof fn a_package_needs_one_of_its_hashes(
    integrity: Seq<char>,
    h512: Seq<char>,
    h1: Seq<char>,
)
    ensures
        integrity_failure(integrity, h512, h1) is None <==> (words(integrity).contains(
            entry_of("sha512"@, h512),
        ) || words(integrity).contains(entry_of("sha1"@, h1))),
{
    reveal_strlit("sha512");
    reveal_strlit("sha1");
    assert("sha512"@.len() == 6 && "sha1"@.len() == 4);
    lemma_entry_parts("sha512"@, h512);
    lemma_entry_parts("sha1"@, h1);
    let list = words(integrity);
    if integrity_failure(integrity, h512, h1) is None {
        assert(recorded(list, h512, h1));
        let i = choose|i: int| 0 <= i < list.len() && records(#[trigger] list[i], h512, h1);
        lemma_parts_entry(list[i]);
    }
    if list.contains(entry_of("sha512"@, h512)) {
        let i = choose|i: int| 0 <= i < list.len() && list[i] == entry_of("sha512"@, h512);
        assert(records(list[i], h512, h1));
    }
    if list.contains(entry_of("sha1"@, h1)) {
        let i = choose|i: int| 0 <= i < list.len() && list[i] == entry_of("sha1"@, h1);
        assert(records(list[i], h512, h1));
    }
}

proof fn lemma_first_among(entries: Seq<Seq<char>>)
    ensures
        first_recognized(entries) matches Some(e) ==> recognized(e) && entries.contains(e),
    decreases entries.len(),
{
    if entries.len() > 0 && !recognized(entries[0]) {
        lemma_first_among(entries.drop_first());
        if let Some(e) = first_recognized(entries.drop_first()) {
            let rest = entries.drop_first();
            let i = choose|i: int| 0 <= i < rest.len() && rest[i] == e;
            assert(entries[i + 1] == e);
        }
    } else if entries.len() > 0 {
        assert(entries.contains(entries[0]));
    }
}

/// A mismatch tells a hash that the integrity text records, and the hash of the same kind of
/// what was fetched, which is another one.
pub proof fn a_mismatch_tells_both_hashes(
    integrity: Seq<char>,
    h512: Seq<char>,
    h1: Seq<char>,
    algorithm: Seq<char>,
    expected: Seq<char>,
    got: Seq<char>,
)
    requires
        integrity_failure(integrity, h512, h1) == Some(
            IntegrityFailure::Mismatch(algorithm, expected, got),
        ),
    ensures
        words(integrity).contains(entry_of(algorithm, expected)),
        algorithm == "sha512"@ && got == h512 || algorithm == "sha1"@ && got == h1,
        expected != got,
{
    reveal_strlit("sha512");
    reveal_strlit("sha1");
    let list = words(integrity);
    lemma_first_among(list);
    let e = first_recognized(list)->0;
    lemma_parts_entry(e);
    let i = choose|i: int| 0 <= i < list.len() && list[i] == e;
    assert(!records(list[i], h512, h1));
}

/// An entry of a tarball keeps its place below the tarball's own directory, whatever that is
/// called.
pub proof fn the_own_directory_of_a_tarball_is_left_out(root: Seq<char>, rest: Seq<Seq<char>>)
    requires
        is_step(root),
        forall|i: int| 0 <= i < rest.len() ==> is_step(#[trigger] rest[i]),
    ensures
        entry_rest(joined(seq![root] + rest, "/"@)) == rest,
{
    let all = seq![root] + rest;
    assert forall|i: int| 0 <= i < all.len() implies is_step(#[trigger] all[i]) by {
        if i > 0 {
            assert(all[i] == rest[i - 1]);
        }
    }
    joined_steps_are_components(all);
    assert(components(joined(all, "/"@)) == all);
    assert(all.skip(1) =~= rest);
}

/// A directory that is not there is created, and last.
pub proof fn a_missing_directory_is_created(dir: Seq<char>, there: Set<Seq<char>>)
    ensures
        there.contains(path_key(dir)) ==> creation_steps(dir, there).len() == 0,
        !there.contains(path_key(dir)) ==> creation_steps(dir, there).len() > 0 && creation_steps(
            dir,
            there,
        ).last() == StepView::Create(dir),
{
}

/// What is created was missing, and the directory above it is there or was created before.
pub proof fn directories_are_created_from_the_top(
    dir: Seq<char>,
    there: Set<Seq<char>>,
    i: int,
    d: Seq<char>,
)
    requires
        0 <= i < creation_steps(dir, there).len(),
        creation_steps(dir, there)[i] == StepView::Create(d),
    ensures
        !there.contains(path_key(d)),
        parent_of(d) matches Some(q) ==> there.contains(path_key(q)) || exists|j: int|
            0 <= j < i && creation_steps(dir, there)[j] == StepView::Create(q),
    decreases dir.len(),
{
    let all = creation_steps(dir, there);
    if !there.contains(path_key(dir)) {
        if let Some(q) = parent_of(dir) {
            lemma_parent(dir);
            let above = creation_steps(q, there);
            if i < above.len() {
                assert(above[i] == all[i]);
                directories_are_created_from_the_top(q, there, i, d);
                if let Some(p) = parent_of(d) {
                    if !there.contains(path_key(p)) {
                        let j = choose|j: int|
                            0 <= j < i && creation_steps(q, there)[j] == StepView::Create(p);
                        assert(all[j] == StepView::Create(p));
                    }
                }
            } else {
                assert(i == above.len() + 1);
                a_missing_directory_is_created(q, there);
                if !there.contains(path_key(q)) {
                    assert(all[above.len() - 1] == StepView::Create(q));
                }
            }
        }
    }
}

} // verus!
