//! A picture of the files on disk, taken before the library looks at them.
use crate::path::{
    components, path_text, plain, plain_path, settled, split_path, text_of_path,
};
use crate::sorted::{StrMap, StrSet};
use crate::text::{ends_with, opt_text, same, starts_with, texts};
use vstd::prelude::*;

verus! {

/// One file.
#[derive(Debug)]
pub struct FileEntry {
    /// What the file holds; none when it cannot be read as text.
    pub text: Option<String>,
    /// The path of the file with every symlink on the way followed.
    pub canonical: String,
    /// Whether the file is reached without following a symlink.
    pub plain: bool,
}

/// A file as mathematical values.
pub struct EntryView {
    pub text: Option<Seq<char>>,
    pub canonical: Seq<char>,
    pub plain: bool,
}

impl View for FileEntry {
    type V = EntryView;

    open spec fn view(&self) -> EntryView {
        EntryView { text: opt_text(self.text), canonical: self.canonical@, plain: self.plain }
    }
}

/// Files by their path, the directories that are known without one, and of those that symlinks
/// lead to the canonical path.
pub struct FilesView {
    pub files: Map<Seq<char>, EntryView>,
    pub dirs: Set<Seq<char>>,
    pub links: Map<Seq<char>, Seq<char>>,
}

/// The files and directories that the library may look at. Paths are held with `.` and `..`
/// worked out.
#[derive(Debug)]
pub struct FileTree {
    files: StrMap<FileEntry>,
    dirs: StrSet,
    links: StrMap<String>,
}

/// The components of a directory with every symlink on the way followed.
pub open spec fn followed(links: Map<Seq<char>, Seq<char>>, list: Seq<Seq<char>>) -> Seq<Seq<char>> {
    if links.dom().contains(path_text(list)) {
        components(links[path_text(list)])
    } else {
        list
    }
}

/// Where some components lead: a `.` leads nowhere, and a `..` to the parent of the directory
/// that was come to, its symlinks followed. The root is its own parent; a `..` that nothing
/// comes before stays.
pub open spec fn led(links: Map<Seq<char>, Seq<char>>, list: Seq<Seq<char>>) -> Seq<Seq<char>>
    decreases list.len(),
{
    if list.len() == 0 {
        Seq::empty()
    } else {
        let r = led(links, list.drop_last());
        let c = list.last();
        if c == "."@ {
            r
        } else if c == ".."@ {
            let d = followed(links, r);
            if d.len() == 0 || d.last() == ".."@ {
                d.push(c)
            } else if d.last() == "/"@ {
                d
            } else {
                d.drop_last()
            }
        } else {
            r.push(c)
        }
    }
}

/// The path under which the tree holds what is at `p`.
pub open spec fn location(fs: FilesView, p: Seq<char>) -> Seq<char> {
    path_text(led(fs.links, components(p)))
}

/// Where no symlink leads to a directory, a `..` takes back the name before it.
pub proof fn without_links_paths_are_plain(fs: FilesView, p: Seq<char>)
    requires
        fs.links == Map::<Seq<char>, Seq<char>>::empty(),
    ensures
        location(fs, p) == plain_path(p),
{
    lemma_led_plainly(fs.links, components(p));
}

proof fn lemma_led_plainly(links: Map<Seq<char>, Seq<char>>, list: Seq<Seq<char>>)
    requires
        links == Map::<Seq<char>, Seq<char>>::empty(),
    ensures
        led(links, list) == settled(list),
    decreases list.len(),
{
    if list.len() > 0 {
        lemma_led_plainly(links, list.drop_last());
    }
}

/// A path without `..` is looked up as it is, whatever symlinks there are.
pub proof fn paths_that_never_go_up_are_plain(fs: FilesView, p: Seq<char>)
    requires
        !components(p).contains(".."@),
    ensures
        location(fs, p) == plain_path(p),
{
    lemma_led_down(fs.links, components(p));
}

proof fn lemma_led_down(links: Map<Seq<char>, Seq<char>>, list: Seq<Seq<char>>)
    requires
        !list.contains(".."@),
    ensures
        led(links, list) == settled(list),
    decreases list.len(),
{
    if list.len() > 0 {
        assert(list[list.len() - 1] == list.last());
        assert(!list.drop_last().contains(".."@)) by {
            if list.drop_last().contains(".."@) {
                let i = choose|i: int|
                    0 <= i < list.drop_last().len() && list.drop_last()[i] == ".."@;
                assert(list[i] == ".."@);
            }
        }
        lemma_led_down(links, list.drop_last());
    }
}

/// What the path of everything in the directory `d` starts with.
pub open spec fn dir_prefix(d: Seq<char>) -> Seq<char> {
    if d.len() == 0 || d.last() == '/' {
        d
    } else {
        d.push('/')
    }
}

/// Whether the tree holds a directory under the path `at`: a known one, or one that some file
/// lies in.
pub open spec fn dir_there(fs: FilesView, at: Seq<char>) -> bool {
    fs.dirs.contains(at) || exists|f: Seq<char>| #[trigger]
        fs.files.dom().contains(f) && f != at && dir_prefix(at).is_prefix_of(f)
}

/// Whether a `..` can be taken from where some components lead: from a directory. The root is
/// one, and so is where a relative path starts.
pub open spec fn can_go_up(fs: FilesView, list: Seq<Seq<char>>) -> bool {
    let r = led(fs.links, list);
    r.len() == 0 || r.last() == ".."@ || r.last() == "/"@ || dir_there(fs, path_text(r))
}

/// Whether some components can be followed: every `..` comes after a directory.
pub open spec fn passable(fs: FilesView, list: Seq<Seq<char>>) -> bool
    decreases list.len(),
{
    list.len() == 0 || passable(fs, list.drop_last()) && (list.last() == ".."@ ==> can_go_up(
        fs,
        list.drop_last(),
    ))
}

/// Whether a path can only name a directory: it ends in a separator, or in one and a `.`.
pub open spec fn names_directory(p: Seq<char>) -> bool {
    "/"@.is_suffix_of(p) || "/."@.is_suffix_of(p)
}

/// The file at `p`, if there is one.
pub open spec fn file_at(fs: FilesView, p: Seq<char>) -> Option<EntryView> {
    if !names_directory(p) && passable(fs, components(p)) && fs.files.dom().contains(
        location(fs, p),
    ) {
        Some(fs.files[location(fs, p)])
    } else {
        None
    }
}

/// What the file at `p` holds, if it is there and can be read.
pub open spec fn text_at(fs: FilesView, p: Seq<char>) -> Option<Seq<char>> {
    match file_at(fs, p) {
        Some(e) => e.text,
        None => None,
    }
}

/// The canonical path of the file at `p`, if it is there.
pub open spec fn canonical_at(fs: FilesView, p: Seq<char>) -> Option<Seq<char>> {
    match file_at(fs, p) {
        Some(e) => Some(e.canonical),
        None => None,
    }
}

/// Whether `p` is a directory.
pub open spec fn is_directory(fs: FilesView, p: Seq<char>) -> bool {
    passable(fs, components(p)) && dir_there(fs, location(fs, p))
}

/// A path without `..` can be followed, whatever the tree holds.
pub proof fn paths_that_never_go_up_are_passable(fs: FilesView, p: Seq<char>)
    requires
        !components(p).contains(".."@),
    ensures
        passable(fs, components(p)),
{
    lemma_passable_down(fs, components(p));
}

proof fn lemma_passable_down(fs: FilesView, list: Seq<Seq<char>>)
    requires
        !list.contains(".."@),
    ensures
        passable(fs, list),
    decreases list.len(),
{
    if list.len() > 0 {
        assert(list[list.len() - 1] == list.last());
        assert(!list.drop_last().contains(".."@)) by {
            if list.drop_last().contains(".."@) {
                let i = choose|i: int|
                    0 <= i < list.drop_last().len() && list.drop_last()[i] == ".."@;
                assert(list[i] == ".."@);
            }
        }
        lemma_passable_down(fs, list.drop_last());
    }
}

impl FileTree {
    /// The files by their path, in the order of the paths.
    pub closed spec fn paths(&self) -> Seq<Seq<char>> {
        self.files.keys()
    }

    /// A tree with nothing in it.
    pub fn new() -> (r: FileTree)
        ensures
            r@.files == Map::<Seq<char>, EntryView>::empty(),
            r@.dirs == Set::<Seq<char>>::empty(),
            r@.links == Map::<Seq<char>, Seq<char>>::empty(),
    {
        FileTree { files: StrMap::new(), dirs: StrSet::new(), links: StrMap::new() }
    }

    /// Puts a readable file that no symlink leads to at `path`.
    pub fn add_file(&mut self, path: &str, text: String)
        ensures
            final(self)@.files == old(self)@.files.insert(
                plain_path(path@),
                EntryView { text: Some(text@), canonical: plain_path(path@), plain: true },
            ),
            final(self)@.dirs == old(self)@.dirs,
            final(self)@.links == old(self)@.links,
    {
        let canonical = plain(path);
        self.add_entry(path, FileEntry { text: Some(text), canonical, plain: true });
    }

    /// Puts a file at `path`.
    pub fn add_entry(&mut self, path: &str, entry: FileEntry)
        ensures
            final(self)@.files == old(self)@.files.insert(plain_path(path@), entry@),
            final(self)@.dirs == old(self)@.dirs,
            final(self)@.links == old(self)@.links,
    {
        self.files.insert(plain(path), entry);
    }

    /// Makes the directory `path` known.
    pub fn add_dir(&mut self, path: &str)
        ensures
            final(self)@.files == old(self)@.files,
            final(self)@.dirs == old(self)@.dirs.insert(plain_path(path@)),
            final(self)@.links == old(self)@.links,
    {
        let added = self.dirs.insert(plain(path));
    }

    /// Makes known that the directory `path` is the one at the path `canonical`.
    pub fn add_link(&mut self, path: &str, canonical: String)
        ensures
            final(self)@.files == old(self)@.files,
            final(self)@.dirs == old(self)@.dirs.insert(plain_path(path@)),
            final(self)@.links == old(self)@.links.insert(plain_path(path@), canonical@),
    {
        let added = self.dirs.insert(plain(path));
        self.links.insert(plain(path), canonical);
    }

    /// The components of a directory with every symlink on the way followed.
    fn follow(&self, list: Vec<String>) -> (r: Vec<String>)
        ensures
            texts(r@) == followed(self@.links, texts(list@)),
    {
        match self.links.get(text_of_path(&list).as_str()) {
            Some(canonical) => split_path(canonical.as_str()),
            None => list,
        }
    }

    /// The path under which the tree holds what is at `p`.
    pub fn locate(&self, p: &str) -> (r: String)
        ensures
            r@ == location(self@, p@),
    {
        self.trace(p).0
    }

    /// The path under which the tree holds what is at `p`, and whether `p` can be followed.
    fn trace(&self, p: &str) -> (r: (String, bool))
        ensures
            r.0@ == location(self@, p@),
            r.1 == passable(self@, components(p@)),
    {
        let list = split_path(p);
        let ghost all = texts(list@);
        let ghost links = self@.links;
        let mut kept: Vec<String> = Vec::new();
        let mut passes = true;
        let mut i: usize = 0;
        assert(texts(kept@) =~= led(links, all.take(0)));
        while i < list.len()
            invariant
                i <= list.len(),
                all == texts(list@),
                links == self@.links,
                texts(kept@) == led(links, all.take(i as int)),
                passes == passable(self@, all.take(i as int)),
            decreases list.len() - i,
        {
            let c = list[i].as_str();
            let ghost r = texts(kept@);
            proof {
                let t = all.take(i + 1);
                assert(t.drop_last() =~= all.take(i as int));
                assert(t.last() == c@);
                reveal_strlit(".");
                reveal_strlit("..");
            }
            if same(c, ".") {
            } else if same(c, "..") {
                let n = kept.len();
                assert(n > 0 ==> r.last() == kept@.last()@);
                let free = n == 0 || same(kept[n - 1].as_str(), "..") || same(
                    kept[n - 1].as_str(),
                    "/",
                ) || self.has_dir(text_of_path(&kept).as_str());
                passes = passes && free;
                kept = self.follow(kept);
                let ghost d = texts(kept@);
                proof {
                    assert(d.len() == kept@.len());
                    if kept@.len() > 0 {
                        assert(d.last() == kept@.last()@);
                    }
                }
                if kept.len() == 0 || same(kept[kept.len() - 1].as_str(), "..") {
                    kept.push(c.to_owned());
                    assert(texts(kept@) =~= d.push(c@));
                } else if !same(kept[kept.len() - 1].as_str(), "/") {
                    let dropped = kept.pop();
                    assert(texts(kept@) =~= d.drop_last());
                }
            } else {
                kept.push(c.to_owned());
                assert(texts(kept@) =~= r.push(c@));
            }
            i = i + 1;
        }
        assert(all.take(i as int) =~= all);
        (text_of_path(&kept), passes)
    }

    /// The file at `path`.
    fn find(&self, path: &str) -> (r: Option<&FileEntry>)
        ensures
            match r {
                Some(e) => file_at(self@, path@) == Some(e@),
                None => file_at(self@, path@) is None,
            },
    {
        let (at, passes) = self.trace(path);
        if !passes || ends_with(path, "/") || ends_with(path, "/.") {
            None
        } else {
            self.files.get(at.as_str())
        }
    }

    /// What every tree holds true: its paths are those of its files, in order.
    pub(crate) fn facts(&self)
        ensures
            self.paths().to_set() == self@.files.dom(),
            crate::sorted::increasing(self.paths()),
            crate::sorted::listing(self@.files.dom()) == self.paths(),
            self@.files.dom().finite(),
            self@.files.dom().len() == self.paths().len(),
    {
        self.files.facts();
        proof {
            self.paths().unique_seq_to_set();
        }
    }

    /// How many files there are.
    pub fn len(&self) -> (r: usize)
        ensures
            r == self.paths().len(),
    {
        self.files.len()
    }

    /// The path of the file at position `i`.
    pub fn path_at(&self, i: usize) -> (r: &String)
        requires
            i < self.paths().len(),
        ensures
            r@ == self.paths()[i as int],
    {
        self.files.key_at(i)
    }

    /// The file at position `i`.
    pub fn entry_at(&self, i: usize) -> (r: &FileEntry)
        requires
            i < self.paths().len(),
        ensures
            self@.files.dom().contains(self.paths()[i as int]),
            r@ == self@.files[self.paths()[i as int]],
    {
        self.files.facts();
        self.files.value_at(i)
    }

    /// The file whose path, already worked out, is `path`.
    pub fn entry(&self, path: &str) -> (r: Option<&FileEntry>)
        ensures
            r is Some <==> self@.files.dom().contains(path@),
            r matches Some(e) ==> e@ == self@.files[path@],
    {
        self.files.get(path)
    }

    /// Whether there is a file at `path`.
    pub fn is_file(&self, path: &str) -> (r: bool)
        ensures
            r == (file_at(self@, path@) is Some),
    {
        self.find(path).is_some()
    }

    /// What the file at `path` holds, if it is there and can be read.
    pub fn read(&self, path: &str) -> (r: Option<&String>)
        ensures
            match r {
                Some(s) => text_at(self@, path@) == Some(s@),
                None => text_at(self@, path@) is None,
            },
    {
        match self.find(path) {
            None => None,
            Some(e) => match &e.text {
                None => None,
                Some(s) => Some(s),
            },
        }
    }

    /// The canonical path of the file at `path`, if it is there.
    pub fn canonical_path(&self, path: &str) -> (r: Option<String>)
        ensures
            match r {
                Some(s) => canonical_at(self@, path@) == Some(s@),
                None => canonical_at(self@, path@) is None,
            },
    {
        match self.find(path) {
            None => None,
            Some(e) => Some(e.canonical.clone()),
        }
    }

    /// Whether `path` is a directory.
    pub fn is_dir(&self, path: &str) -> (r: bool)
        ensures
            r == is_directory(self@, path@),
    {
        let (at, passes) = self.trace(path);
        passes && self.has_dir(at.as_str())
    }

    /// Whether the tree holds a directory under the path `key`.
    fn has_dir(&self, key: &str) -> (r: bool)
        ensures
            r == dir_there(self@, key@),
    {
        if self.dirs.contains(key) {
            return true;
        }
        let prefix = as_prefix(key);
        self.files.facts();
        let ghost paths = self.files.keys();
        let mut i: usize = 0;
        while i < self.files.len()
            invariant
                i <= paths.len(),
                paths == self.files.keys(),
                paths.to_set() == self@.files.dom(),
                prefix@ == dir_prefix(key@),
                forall|j: int|
                    0 <= j < i ==> !(#[trigger] paths[j] != key@ && prefix@.is_prefix_of(
                        paths[j],
                    )),
            decreases paths.len() - i,
        {
            let f = self.files.key_at(i);
            proof {
                assert(paths.to_set().contains(paths[i as int]));
            }
            if !same(f.as_str(), key) && starts_with(f.as_str(), prefix.as_str()) {
                return true;
            }
            i = i + 1;
        }
        proof {
            assert forall|f: Seq<char>| #[trigger] self@.files.dom().contains(f) implies !(f
                != key@ && dir_prefix(key@).is_prefix_of(f)) by {
                assert(paths.to_set().contains(f));
                let j = choose|j: int| 0 <= j < paths.len() && paths[j] == f;
                assert(!(paths[j] != key@ && prefix@.is_prefix_of(paths[j])));
            }
        }
        false
    }
}

/// What the path of everything in the directory `d` starts with.
pub(crate) fn as_prefix(d: &str) -> (r: String)
    ensures
        r@ == dir_prefix(d@),
{
    let v = crate::text::to_chars(d);
    let mut out = d.to_owned();
    if v.len() > 0 && v[v.len() - 1] != '/' {
        out.push('/');
    }
    out
}

impl View for FileTree {
    type V = FilesView;

    closed spec fn view(&self) -> FilesView {
        FilesView { files: self.files@, dirs: self.dirs@, links: self.links@ }
    }
}

} // verus!
