//! A package's own declared dependencies, read off its `package.json`.
use crate::decode::{map_field, read_map, read_text, text_field};
use crate::json::{field, json_document, parse_json, tree, Json, JsonTree};
use crate::sorted::StrMap;
use crate::text::opt_text;
use crate::tree::{text_at, FileTree};
use vstd::prelude::*;

verus! {

/// The slice of a `package.json` that dependency wiring needs: its name, its entry file and
/// its dependency fields (declared ranges, not resolved versions). Optional dependencies are
/// among `dependencies` too; peer dependencies are not.
#[derive(Debug)]
pub struct PackageManifest {
    pub name: String,
    pub main: Option<String>,
    pub dependencies: StrMap<String>,
    pub dev_dependencies: StrMap<String>,
    pub optional_dependencies: StrMap<String>,
    pub peer_dependencies: StrMap<String>,
}

/// A manifest as mathematical values.
pub struct ManifestView {
    pub name: Seq<char>,
    pub main: Option<Seq<char>>,
    pub dependencies: Map<Seq<char>, Seq<char>>,
    pub dev_dependencies: Map<Seq<char>, Seq<char>>,
    pub optional_dependencies: Map<Seq<char>, Seq<char>>,
    pub peer_dependencies: Map<Seq<char>, Seq<char>>,
}

impl View for PackageManifest {
    type V = ManifestView;

    open spec fn view(&self) -> ManifestView {
        ManifestView {
            name: self.name@,
            main: opt_text(self.main),
            dependencies: self.dependencies@,
            dev_dependencies: self.dev_dependencies@,
            optional_dependencies: self.optional_dependencies@,
            peer_dependencies: self.peer_dependencies@,
        }
    }
}

/// Why a text is no package manifest.
#[derive(Debug)]
pub enum ManifestError {
    /// The file is not there or cannot be read.
    Unreadable,
    /// The text is not JSON.
    NotJson { detail: String },
    /// A field has another shape than a manifest gives it.
    BadShape,
    /// The manifest has no `name`.
    MissingName,
}

impl PackageManifest {
    /// The declared dependencies by the group that wires them: `dependencies`, which holds
    /// the optional ones too, and `dev_dependencies`.
    pub fn dependency_groups(&self) -> (r: [(&'static str, &StrMap<String>); 2])
        ensures
            r@[0].0@ == "dependencies"@,
            r@[0].1@ == self@.dependencies,
            r@[1].0@ == "dev_dependencies"@,
            r@[1].1@ == self@.dev_dependencies,
    {
        [("dependencies", &self.dependencies), ("dev_dependencies", &self.dev_dependencies)]
    }

    /// Whether `name` is declared as an optional dependency.
    pub fn is_optional(&self, name: &str) -> (r: bool)
        ensures
            r == self@.optional_dependencies.dom().contains(name@),
    {
        self.optional_dependencies.contains_key(name)
    }
}

/// Whether a document has the fields of a manifest, each in its shape or absent.
pub open spec fn manifest_shape(t: JsonTree) -> bool {
    &&& t is Object
    &&& text_field(field(t, "name"@)) is Some
    &&& text_field(field(t, "main"@)) is Some
    &&& map_field(field(t, "dependencies"@)) is Some
    &&& map_field(field(t, "devDependencies"@)) is Some
    &&& map_field(field(t, "optionalDependencies"@)) is Some
    &&& map_field(field(t, "peerDependencies"@)) is Some
}

/// The manifest that a document of that shape spells: an optional dependency is among the
/// dependencies unless they already name it.
pub open spec fn manifest_of(t: JsonTree) -> ManifestView {
    let optional = map_field(field(t, "optionalDependencies"@))->0;
    ManifestView {
        name: text_field(field(t, "name"@))->0->0,
        main: text_field(field(t, "main"@))->0,
        dependencies: optional.union_prefer_right(map_field(field(t, "dependencies"@))->0),
        dev_dependencies: map_field(field(t, "devDependencies"@))->0,
        optional_dependencies: optional,
        peer_dependencies: map_field(field(t, "peerDependencies"@))->0,
    }
}

/// Adds to `into` every key of `from` that it lacks.
fn fold_in(into: &mut StrMap<String>, from: &StrMap<String>)
    ensures
        final(into)@ == from@.union_prefer_right(old(into)@),
{
    from.facts();
    let mut i: usize = 0;
    let n: usize = from.len();
    while i < n
        invariant
            i <= n == from.keys().len(),
            from.keys().to_set() == from@.dom(),
            from.keys().no_duplicates(),
            from.keys().len() == from.values().len(),
            forall|k: int|
                0 <= k < from.keys().len() ==> from@.dom().contains(#[trigger] from.keys()[k])
                    && from@[from.keys()[k]] == from.values()[k],
            forall|k: Seq<char>|
                into@.dom().contains(k) <==> old(into)@.dom().contains(k) || exists|j: int|
                    0 <= j < i && #[trigger] from.keys()[j] == k,
            forall|k: Seq<char>| #[trigger]
                into@.dom().contains(k) ==> into@[k] == (if old(into)@.dom().contains(k) {
                    old(into)@[k]
                } else {
                    from@[k]
                }),
        decreases n - i,
    {
        let ghost was = into@;
        let key = from.key_at(i);
        let value = from.value_at(i);
        into.insert_if_absent(key.clone(), value.clone());
        proof {
            let k0 = from.keys()[i as int];
            assert forall|k: Seq<char>|
                into@.dom().contains(k) <==> old(into)@.dom().contains(k) || exists|j: int|
                    0 <= j < i + 1 && #[trigger] from.keys()[j] == k by {
                if into@.dom().contains(k) && !was.dom().contains(k) {
                    assert(from.keys()[i as int] == k);
                }
                if exists|j: int| 0 <= j < i + 1 && #[trigger] from.keys()[j] == k {
                    let j = choose|j: int| 0 <= j < i + 1 && #[trigger] from.keys()[j] == k;
                    if j < i {
                        assert(was.dom().contains(k));
                    }
                }
            }
        }
        i = i + 1;
    }
    proof {
        let want = from@.union_prefer_right(old(into)@);
        assert forall|k: Seq<char>| into@.dom().contains(k) <==> want.dom().contains(k) by {
            if from@.dom().contains(k) {
                assert(from.keys().to_set().contains(k));
                let j = choose|j: int| 0 <= j < from.keys().len() && from.keys()[j] == k;
                assert(from.keys()[j] == k);
            }
        }
        assert(into@ =~= want);
    }
}

/// The manifest that a document spells.
pub fn manifest_of_json(j: &Json) -> (r: Result<PackageManifest, ManifestError>)
    ensures
        r is Ok <==> manifest_shape(tree(*j)) && text_field(
            field(tree(*j), "name"@),
        )->0 is Some,
        r matches Ok(m) ==> m@ == manifest_of(tree(*j)),
        r matches Err(e) ==> (e is MissingName <==> manifest_shape(tree(*j))),
        r matches Err(e) ==> (e is BadShape <==> !manifest_shape(tree(*j))),
{
    match j {
        Json::Object(_) => {},
        _ => {
            return Err(ManifestError::BadShape);
        },
    }
    match (
        read_text(j, "name"),
        read_text(j, "main"),
        read_map(j, "dependencies"),
        read_map(j, "devDependencies"),
        read_map(j, "optionalDependencies"),
        read_map(j, "peerDependencies"),
    ) {
        (
            Some(name),
            Some(main),
            Some(mut dependencies),
            Some(dev_dependencies),
            Some(optional_dependencies),
            Some(peer_dependencies),
        ) => {
            match name {
                None => Err(ManifestError::MissingName),
                Some(name) => {
                    fold_in(&mut dependencies, &optional_dependencies);
                    Ok(
                        PackageManifest {
                            name,
                            main,
                            dependencies,
                            dev_dependencies,
                            optional_dependencies,
                            peer_dependencies,
                        },
                    )
                },
            }
        },
        _ => Err(ManifestError::BadShape),
    }
}

/// The manifest that a `package.json` text spells.
pub fn parse_package_manifest(text: &str) -> (r: Result<PackageManifest, ManifestError>)
    ensures
        r is Ok <==> (json_document(text@) matches Some(t) && manifest_shape(t) && text_field(
            field(t, "name"@),
        )->0 is Some),
        r matches Ok(m) ==> m@ == manifest_of(json_document(text@)->0),
        r matches Err(e) ==> (e is NotJson <==> json_document(text@) is None),
        r matches Err(e) ==> (e is MissingName <==> (json_document(text@) matches Some(t)
            && manifest_shape(t))),
        r matches Err(e) ==> !(e is Unreadable),
{
    match parse_json(text) {
        Ok(j) => manifest_of_json(&j),
        Err(e) => Err(ManifestError::NotJson { detail: e.detail }),
    }
}

/// Reads the manifest at `path`.
pub fn read_package_manifest(files: &FileTree, path: &str) -> (r: Result<
    PackageManifest,
    ManifestError,
>)
    ensures
        match text_at(files@, path@) {
            None => r matches Err(e) && e is Unreadable,
            Some(text) => match json_document(text) {
                None => r matches Err(e) && e is NotJson,
                Some(t) => if !manifest_shape(t) {
                    r matches Err(e) && e is BadShape
                } else if text_field(field(t, "name"@))->0 is None {
                    r matches Err(e) && e is MissingName
                } else {
                    r matches Ok(m) && m@ == manifest_of(t)
                },
            },
        },
{
    match files.read(path) {
        None => Err(ManifestError::Unreadable),
        Some(text) => parse_package_manifest(text.as_str()),
    }
}

/// Every optional dependency is among the dependencies, with the version that the dependencies
/// themselves declare where they do; nothing else is added to them.
pub proof fn optional_dependencies_are_dependencies(t: JsonTree, name: Seq<char>)
    requires
        manifest_shape(t),
    ensures
        ({
            let m = manifest_of(t);
            let declared = map_field(field(t, "dependencies"@))->0;
            &&& m.dependencies.dom().contains(name) <==> declared.dom().contains(name)
                || m.optional_dependencies.dom().contains(name)
            &&& declared.dom().contains(name) ==> m.dependencies[name] == declared[name]
            &&& !declared.dom().contains(name) && m.optional_dependencies.dom().contains(name)
                ==> m.dependencies[name] == m.optional_dependencies[name]
        }),
{
}

} // verus!
