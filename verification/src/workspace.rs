//! What the other packages of a workspace are called.
use crate::json::{field, json_document, parse_json, JsonTree};
use crate::package_json::ManifestError;
use crate::tree::{text_at, FileTree, FilesView};
use vstd::prelude::*;

verus! {

/// The name that the manifest at `p` gives its package; none when it cannot be read, is not
/// JSON or has no name.
pub open spec fn package_name_at(fs: FilesView, p: Seq<char>) -> Option<Seq<char>> {
    match text_at(fs, p) {
        None => None,
        Some(text) => match json_document(text) {
            None => None,
            Some(t) => match field(t, "name"@) {
                Some(JsonTree::Str(name)) => Some(name),
                _ => None,
            },
        },
    }
}

/// The name that the manifest at `path` gives its package.
pub fn read_package_name(files: &FileTree, path: &str) -> (r: Result<String, ManifestError>)
    ensures
        match r {
            Ok(name) => package_name_at(files@, path@) == Some(name@),
            Err(_) => package_name_at(files@, path@) is None,
        },
        r matches Err(e) ==> (e is Unreadable <==> text_at(files@, path@) is None) && (e is NotJson
            <==> (text_at(files@, path@) matches Some(text) && json_document(text) is None))
            && !(e is BadShape),
{
    match files.read(path) {
        None => Err(ManifestError::Unreadable),
        Some(text) => match parse_json(text.as_str()) {
            Err(e) => Err(ManifestError::NotJson { detail: e.detail }),
            Ok(j) => match j.get("name") {
                Some(crate::json::Json::Str(name)) => Ok(name.clone()),
                _ => Err(ManifestError::MissingName),
            },
        },
    }
}

} // verus!
