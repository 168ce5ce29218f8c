//! What is found at a path of a picture of the files.
use crate::path::{components, path_text, plain_path};
use crate::path_laws::ordinary;
use crate::tree::{
    dir_prefix, dir_there, file_at, is_directory, led, location, names_directory, passable,
    paths_that_never_go_up_are_passable, paths_that_never_go_up_are_plain, text_at, EntryView,
    FilesView,
};
use vstd::prelude::*;

verus! {

/// A picture with one more file.
pub open spec fn with_file(fs: FilesView, p: Seq<char>, e: EntryView) -> FilesView {
    FilesView { files: fs.files.insert(plain_path(p), e), ..fs }
}

/// A file that was added is found by its path, and nothing else is found in another place than
/// before.
pub proof fn added_files_are_found(fs: FilesView, p: Seq<char>, e: EntryView, q: Seq<char>)
    requires
        !components(p).contains(".."@),
        !components(q).contains(".."@),
        !names_directory(p),
    ensures
        file_at(with_file(fs, p, e), p) == Some(e),
        text_at(with_file(fs, p, e), p) == e.text,
        plain_path(q) != plain_path(p) ==> file_at(with_file(fs, p, e), q) == file_at(fs, q),
{
    let t = with_file(fs, p, e);
    paths_that_never_go_up_are_plain(t, p);
    paths_that_never_go_up_are_plain(t, q);
    paths_that_never_go_up_are_plain(fs, q);
    paths_that_never_go_up_are_passable(t, p);
    paths_that_never_go_up_are_passable(t, q);
    paths_that_never_go_up_are_passable(fs, q);
}

/// A path that ends in a separator is never that of a file.
pub proof fn separators_end_the_paths_of_directories(fs: FilesView, p: Seq<char>)
    ensures
        file_at(fs, p.push('/')) is None,
        file_at(fs, p.push('/').push('.')) is None,
{
    reveal_strlit("/");
    reveal_strlit("/.");
    let a = p.push('/');
    let b = p.push('/').push('.');
    assert(a.subrange(a.len() - 1, a.len() as int) =~= "/"@);
    assert(b.subrange(b.len() - 2, b.len() as int) =~= "/."@);
}

/// Where there is a file below, there is a directory.
pub proof fn files_lie_in_directories(fs: FilesView, d: Seq<char>, rest: Seq<char>)
    requires
        !components(d).contains(".."@),
        rest.len() > 0,
        fs.files.dom().contains(dir_prefix(location(fs, d)) + rest),
    ensures
        is_directory(fs, d),
{
    paths_that_never_go_up_are_passable(fs, d);
    let at = location(fs, d);
    let f = dir_prefix(at) + rest;
    assert(f.subrange(0, dir_prefix(at).len() as int) =~= dir_prefix(at));
    assert(fs.files.dom().contains(f) && f != at && dir_prefix(at).is_prefix_of(f));
}

/// No way leads up from what is no directory.
pub proof fn only_directories_can_be_left(
    fs: FilesView,
    list: Seq<Seq<char>>,
    more: Seq<Seq<char>>,
)
    requires
        led(fs.links, list).len() > 0,
        ordinary(led(fs.links, list).last()),
        !dir_there(fs, path_text(led(fs.links, list))),
    ensures
        !passable(fs, list.push(".."@) + more),
    decreases more.len(),
{
    let all = list.push(".."@) + more;
    if more.len() == 0 {
        assert(all =~= list.push(".."@));
        assert(all.drop_last() =~= list);
    } else {
        only_directories_can_be_left(fs, list, more.drop_last());
        assert(all.drop_last() =~= list.push(".."@) + more.drop_last());
    }
}

/// The way up from a link goes up from what it leads to.
pub proof fn going_up_follows_links(
    links: Map<Seq<char>, Seq<char>>,
    list: Seq<Seq<char>>,
    target: Seq<char>,
)
    requires
        links.dom().contains(path_text(led(links, list))),
        links[path_text(led(links, list))] == target,
        components(target).len() > 0,
        ordinary(components(target).last()),
    ensures
        led(links, list.push(".."@)) == components(target).drop_last(),
{
    reveal_strlit(".");
    reveal_strlit("..");
    assert("."@.len() == 1 && ".."@.len() == 2);
    assert(list.push(".."@).drop_last() =~= list);
}

} // verus!
