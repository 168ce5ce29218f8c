//! Reading typed fields out of a document tree. A field that is absent takes its default;
//! one of another shape than asked for spoils the document.
use crate::json::{field, lemma_members, lemma_trees, members, tree, trees, Json, JsonTree};
use crate::sorted::StrMap;
use crate::text::texts;
use vstd::prelude::*;

verus! {

/// Whether every member is a string.
pub open spec fn all_strings(ms: Seq<(Seq<char>, JsonTree)>) -> bool {
    forall|i: int| 0 <= i < ms.len() ==> (#[trigger] ms[i]).1 is Str
}

/// The map that string members spell: of members with one name the last counts.
pub open spec fn string_map(ms: Seq<(Seq<char>, JsonTree)>) -> Map<Seq<char>, Seq<char>>
    decreases ms.len(),
{
    if ms.len() == 0 {
        Map::empty()
    } else {
        string_map(ms.drop_last()).insert(ms.last().0, ms.last().1->Str_0)
    }
}

/// An optional map of strings: empty when absent, nothing when it has another shape.
pub open spec fn map_field(t: Option<JsonTree>) -> Option<Map<Seq<char>, Seq<char>>> {
    match t {
        None => Some(Map::empty()),
        Some(JsonTree::Object(ms)) => if all_strings(ms) {
            Some(string_map(ms))
        } else {
            None
        },
        Some(_) => None,
    }
}

/// An optional list of strings: empty when absent, nothing when it has another shape.
pub open spec fn list_field(t: Option<JsonTree>) -> Option<Seq<Seq<char>>> {
    match t {
        None => Some(Seq::empty()),
        Some(JsonTree::Array(ts)) => if forall|i: int|
            0 <= i < ts.len() ==> (#[trigger] ts[i]) is Str {
            Some(ts.map_values(|x: JsonTree| x->Str_0))
        } else {
            None
        },
        Some(_) => None,
    }
}

/// An optional string, where `null` counts as absent; nothing when it has another shape.
pub open spec fn text_field(t: Option<JsonTree>) -> Option<Option<Seq<char>>> {
    match t {
        None => Some(None),
        Some(JsonTree::Null) => Some(None),
        Some(JsonTree::Str(s)) => Some(Some(s)),
        Some(_) => None,
    }
}

/// A string that defaults to the empty one; nothing when it has another shape.
pub open spec fn plain_text_field(t: Option<JsonTree>) -> Option<Seq<char>> {
    match t {
        None => Some(Seq::empty()),
        Some(JsonTree::Str(s)) => Some(s),
        Some(_) => None,
    }
}

/// A flag that defaults to `false`; nothing when it has another shape.
pub open spec fn flag_field(t: Option<JsonTree>) -> Option<bool> {
    match t {
        None => Some(false),
        Some(JsonTree::Bool(b)) => Some(b),
        Some(_) => None,
    }
}

/// Reads the map of strings in the field `key` of `j`.
pub fn read_map(j: &Json, key: &str) -> (r: Option<StrMap<String>>)
    ensures
        r is Some <==> map_field(field(tree(*j), key@)) is Some,
        r matches Some(m) ==> map_field(field(tree(*j), key@)) == Some(m@),
{
    match j.get(key) {
        None => Some(StrMap::new()),
        Some(Json::Object(v)) => {
            let ghost ms = members(v@);
            proof {
                lemma_members(v@);
            }
            let mut out: StrMap<String> = StrMap::new();
            let mut i: usize = 0;
            assert(string_map(ms.take(0)) =~= Map::<Seq<char>, Seq<char>>::empty());
            while i < v.len()
                invariant
                    i <= v.len(),
                    ms == members(v@),
                    field(tree(*j), key@) == Some(JsonTree::Object(ms)),
                    ms.len() == v@.len(),
                    forall|k: int|
                        0 <= k < v@.len() ==> #[trigger] ms[k] == (v@[k].0@, tree(v@[k].1)),
                    forall|k: int| 0 <= k < i ==> (#[trigger] ms[k]).1 is Str,
                    out@ == string_map(ms.take(i as int)),
                decreases v.len() - i,
            {
                assert(ms[i as int] == (v@[i as int].0@, tree(v@[i as int].1)));
                match v[i].1.as_str() {
                    Some(s) => {
                        out.insert(v[i].0.clone(), s.clone());
                    },
                    None => {
                        return None;
                    },
                }
                proof {
                    let t = ms.take(i + 1);
                    assert(t.drop_last() =~= ms.take(i as int));
                    assert(t.last() == ms[i as int]);
                }
                i = i + 1;
            }
            assert(ms.take(i as int) =~= ms);
            Some(out)
        },
        Some(_) => None,
    }
}

/// Reads the list of strings in the field `key` of `j`.
pub fn read_list(j: &Json, key: &str) -> (r: Option<Vec<String>>)
    ensures
        r is Some <==> list_field(field(tree(*j), key@)) is Some,
        r matches Some(l) ==> list_field(field(tree(*j), key@)) == Some(texts(l@)),
{
    match j.get(key) {
        None => {
            let out: Vec<String> = Vec::new();
            assert(texts(out@) =~= Seq::<Seq<char>>::empty());
            Some(out)
        },
        Some(Json::Array(v)) => {
            let ghost ts = trees(v@);
            proof {
                lemma_trees(v@);
            }
            let mut out: Vec<String> = Vec::new();
            let mut i: usize = 0;
            while i < v.len()
                invariant
                    i <= v.len(),
                    out@.len() == i,
                    ts == trees(v@),
                    field(tree(*j), key@) == Some(JsonTree::Array(ts)),
                    ts.len() == v@.len(),
                    forall|k: int| 0 <= k < v@.len() ==> #[trigger] ts[k] == tree(v@[k]),
                    forall|k: int|
                        0 <= k < i ==> (#[trigger] ts[k]) is Str && ts[k]->Str_0 == out@[k]@,
                decreases v.len() - i,
            {
                assert(ts[i as int] == tree(v@[i as int]));
                match v[i].as_str() {
                    Some(s) => {
                        out.push(s.clone());
                    },
                    None => {
                        return None;
                    },
                }
                i = i + 1;
            }
            assert(texts(out@) =~= ts.map_values(|x: JsonTree| x->Str_0));
            Some(out)
        },
        Some(_) => None,
    }
}

/// Reads the optional string in the field `key` of `j`.
pub fn read_text(j: &Json, key: &str) -> (r: Option<Option<String>>)
    ensures
        r is Some <==> text_field(field(tree(*j), key@)) is Some,
        r matches Some(t) ==> text_field(field(tree(*j), key@)) == Some(
            crate::text::opt_text(t),
        ),
{
    match j.get(key) {
        None => Some(None),
        Some(Json::Null) => Some(None),
        Some(Json::Str(s)) => Some(Some(s.clone())),
        Some(_) => None,
    }
}

/// Reads the string in the field `key` of `j`, empty when absent.
pub fn read_plain_text(j: &Json, key: &str) -> (r: Option<String>)
    ensures
        r is Some <==> plain_text_field(field(tree(*j), key@)) is Some,
        r matches Some(t) ==> plain_text_field(field(tree(*j), key@)) == Some(t@),
{
    match j.get(key) {
        None => Some(String::new()),
        Some(Json::Str(s)) => Some(s.clone()),
        Some(_) => None,
    }
}

/// Reads the flag in the field `key` of `j`.
pub fn read_flag(j: &Json, key: &str) -> (r: Option<bool>)
    ensures
        r == flag_field(field(tree(*j), key@)),
{
    match j.get(key) {
        None => Some(false),
        Some(Json::Bool(b)) => Some(*b),
        Some(_) => None,
    }
}

/// A value that a document tree can spell.
pub trait Decode: View + Sized {
    /// The value that a tree spells; nothing when it has another shape.
    spec fn decoded(t: JsonTree) -> Option<Self::V>;

    /// Reads the value off a document.
    fn decode(j: &Json) -> (r: Option<Self>)
        ensures
            r is Some <==> Self::decoded(tree(*j)) is Some,
            r matches Some(x) ==> Self::decoded(tree(*j)) == Some(x@),
    ;
}

/// Whether every member spells a value.
pub open spec fn all_decoded<T: Decode>(ms: Seq<(Seq<char>, JsonTree)>) -> bool {
    forall|i: int| 0 <= i < ms.len() ==> T::decoded((#[trigger] ms[i]).1) is Some
}

/// The map that members spell: of members with one name the last counts.
pub open spec fn decoded_map<T: Decode>(ms: Seq<(Seq<char>, JsonTree)>) -> Map<Seq<char>, T::V>
    decreases ms.len(),
{
    if ms.len() == 0 {
        Map::empty()
    } else {
        decoded_map::<T>(ms.drop_last()).insert(ms.last().0, T::decoded(ms.last().1)->0)
    }
}

/// An optional map of values: empty when absent, nothing when it has another shape.
pub open spec fn decoded_field<T: Decode>(t: Option<JsonTree>) -> Option<Map<Seq<char>, T::V>> {
    match t {
        None => Some(Map::empty()),
        Some(JsonTree::Object(ms)) => if all_decoded::<T>(ms) {
            Some(decoded_map::<T>(ms))
        } else {
            None
        },
        Some(_) => None,
    }
}

/// Reads the map of values in the field `key` of `j`.
pub fn read_decoded<T: Decode>(j: &Json, key: &str) -> (r: Option<StrMap<T>>)
    ensures
        r is Some <==> decoded_field::<T>(field(tree(*j), key@)) is Some,
        r matches Some(m) ==> decoded_field::<T>(field(tree(*j), key@)) == Some(m@),
{
    match j.get(key) {
        None => Some(StrMap::new()),
        Some(Json::Object(v)) => {
            let ghost ms = members(v@);
            proof {
                lemma_members(v@);
            }
            let mut out: StrMap<T> = StrMap::new();
            let mut i: usize = 0;
            assert(decoded_map::<T>(ms.take(0)) =~= Map::<Seq<char>, T::V>::empty());
            while i < v.len()
                invariant
                    i <= v.len(),
                    ms == members(v@),
                    field(tree(*j), key@) == Some(JsonTree::Object(ms)),
                    ms.len() == v@.len(),
                    forall|k: int|
                        0 <= k < v@.len() ==> #[trigger] ms[k] == (v@[k].0@, tree(v@[k].1)),
                    forall|k: int| 0 <= k < i ==> T::decoded((#[trigger] ms[k]).1) is Some,
                    out@ == decoded_map::<T>(ms.take(i as int)),
                decreases v.len() - i,
            {
                assert(ms[i as int] == (v@[i as int].0@, tree(v@[i as int].1)));
                match T::decode(&v[i].1) {
                    Some(x) => {
                        out.insert(v[i].0.clone(), x);
                    },
                    None => {
                        return None;
                    },
                }
                proof {
                    let t = ms.take(i + 1);
                    assert(t.drop_last() =~= ms.take(i as int));
                    assert(t.last() == ms[i as int]);
                }
                i = i + 1;
            }
            assert(ms.take(i as int) =~= ms);
            Some(out)
        },
        Some(_) => None,
    }
}

} // verus!
