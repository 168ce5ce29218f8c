//! Data documents: JSON and YAML texts read into one plain tree.
use crate::text::same;
use vstd::prelude::*;

verus! {

/// A JSON value as a mathematical tree. Of a number only its value is kept, and that only
/// where it is a whole number that fits.
pub enum JsonTree {
    Null,
    Bool(bool),
    Number(Option<u64>),
    Str(Seq<char>),
    Array(Seq<JsonTree>),
    Object(Seq<(Seq<char>, JsonTree)>),
}

/// A JSON value.
#[derive(Debug)]
pub enum Json {
    Null,
    Bool(bool),
    Number(Option<u64>),
    Str(String),
    Array(Vec<Json>),
    Object(Vec<(String, Json)>),
}

/// The tree of a value.
pub open spec fn tree(j: Json) -> JsonTree
    decreases j,
{
    match j {
        Json::Null => JsonTree::Null,
        Json::Bool(b) => JsonTree::Bool(b),
        Json::Number(n) => JsonTree::Number(n),
        Json::Str(s) => JsonTree::Str(s@),
        Json::Array(v) => JsonTree::Array(trees(v@)),
        Json::Object(v) => JsonTree::Object(members(v@)),
    }
}

/// The trees of a sequence of values.
pub open spec fn trees(s: Seq<Json>) -> Seq<JsonTree>
    decreases s,
{
    if s.len() == 0 {
        Seq::empty()
    } else {
        trees(s.drop_last()).push(tree(s.last()))
    }
}

/// The members of an object as pairs of a text and a tree.
pub open spec fn members(s: Seq<(String, Json)>) -> Seq<(Seq<char>, JsonTree)>
    decreases s,
{
    if s.len() == 0 {
        Seq::empty()
    } else {
        members(s.drop_last()).push((s.last().0@, tree(s.last().1)))
    }
}

/// Each element has its own tree.
pub proof fn lemma_trees(s: Seq<Json>)
    ensures
        trees(s).len() == s.len(),
        forall|i: int| 0 <= i < s.len() ==> #[trigger] trees(s)[i] == tree(s[i]),
    decreases s.len(),
{
    if s.len() > 0 {
        lemma_trees(s.drop_last());
        assert forall|i: int| 0 <= i < s.len() implies #[trigger] trees(s)[i] == tree(s[i]) by {
            if i < s.len() - 1 {
                assert(trees(s)[i] == trees(s.drop_last())[i]);
            }
        }
    }
}

/// Each member has its own key and tree.
pub proof fn lemma_members(s: Seq<(String, Json)>)
    ensures
        members(s).len() == s.len(),
        forall|i: int|
            0 <= i < s.len() ==> #[trigger] members(s)[i] == (s[i].0@, tree(s[i].1)),
    decreases s.len(),
{
    if s.len() > 0 {
        lemma_members(s.drop_last());
        assert forall|i: int| 0 <= i < s.len() implies #[trigger] members(s)[i] == (
            s[i].0@,
            tree(s[i].1),
        ) by {
            if i < s.len() - 1 {
                assert(members(s)[i] == members(s.drop_last())[i]);
            }
        }
    }
}

/// The value of the first member named `key`.
pub open spec fn member(ms: Seq<(Seq<char>, JsonTree)>, key: Seq<char>) -> Option<JsonTree>
    decreases ms.len(),
{
    if ms.len() == 0 {
        None
    } else if ms[0].0 == key {
        Some(ms[0].1)
    } else {
        member(ms.drop_first(), key)
    }
}

/// The value of the field `key` of a tree: an object's member of that name.
pub open spec fn field(t: JsonTree, key: Seq<char>) -> Option<JsonTree> {
    match t {
        JsonTree::Object(ms) => member(ms, key),
        _ => None,
    }
}

impl Json {
    /// The value of the field `key`: an object's member of that name.
    pub fn get(&self, key: &str) -> (r: Option<&Json>)
        ensures
            r is Some <==> field(tree(*self), key@) is Some,
            r matches Some(j) ==> field(tree(*self), key@) == Some(tree(*j)),
            r matches Some(j) ==> decreases_to!(*self => *j),
    {
        match self {
            Json::Object(v) => {
                let ghost ms = members(v@);
                proof {
                    lemma_members(v@);
                    assert(ms.skip(0) =~= ms);
                }
                let mut i: usize = 0;
                while i < v.len()
                    invariant
                        i <= v.len(),
                        *self matches Json::Object(w) && w == *v,
                        ms == members(v@),
                        ms.len() == v@.len(),
                        forall|k: int|
                            0 <= k < v@.len() ==> #[trigger] ms[k] == (v@[k].0@, tree(v@[k].1)),
                        member(ms.skip(i as int), key@) == field(tree(*self), key@),
                    decreases v.len() - i,
                {
                    assert(ms.skip(i as int)[0] == ms[i as int]);
                    if same(v[i].0.as_str(), key) {
                        assert(decreases_to!(*v => v@));
                        assert(decreases_to!(v@ => v@[i as int]));
                        return Some(&v[i].1);
                    }
                    assert(ms.skip(i as int).drop_first() =~= ms.skip(i + 1));
                    i = i + 1;
                }
                None
            },
            _ => None,
        }
    }

    /// The text of a string value.
    pub fn as_str(&self) -> (r: Option<&String>)
        ensures
            r is Some <==> tree(*self) is Str,
            r matches Some(s) ==> tree(*self) == JsonTree::Str(s@),
    {
        match self {
            Json::Str(s) => Some(s),
            _ => None,
        }
    }
}

/// The generic JSON value of the serde_json crate.
#[verifier::external_type_specification]
#[verifier::external_body]
pub struct ExValue(serde_json::Value);

/// What a value of serde_json holds.
pub uninterp spec fn value_tree(v: serde_json::Value) -> JsonTree;

/// What `serde_json::from_str` reads from a text: nothing when it is not JSON.
pub uninterp spec fn json_document(text: Seq<char>) -> Option<JsonTree>;

/// What `serde_yaml::from_str` reads from a text: nothing when it is not YAML with a JSON
/// shape.
pub uninterp spec fn yaml_document(text: Seq<char>) -> Option<JsonTree>;

/// One level of a serde_json value.
pub enum ValueNode {
    Null,
    Bool(bool),
    Number(Option<u64>),
    Str(String),
    Array(Vec<serde_json::Value>),
    Object(Vec<(String, serde_json::Value)>),
}

/// Takes a `serde_json::Value` apart by its variant; of a number `as_u64` is kept. An array's
/// elements and an object's members come in the order in which the value holds them.
#[verifier::external_body]
fn value_node(v: serde_json::Value) -> (r: ValueNode)
    ensures
        value_tree(v) == (match r {
            ValueNode::Null => JsonTree::Null,
            ValueNode::Bool(b) => JsonTree::Bool(b),
            ValueNode::Number(n) => JsonTree::Number(n),
            ValueNode::Str(s) => JsonTree::Str(s@),
            ValueNode::Array(a) => JsonTree::Array(
                a@.map_values(|x: serde_json::Value| value_tree(x)),
            ),
            ValueNode::Object(o) => JsonTree::Object(
                o@.map_values(|p: (String, serde_json::Value)| (p.0@, value_tree(p.1))),
            ),
        }),
{
    match v {
        serde_json::Value::Null => ValueNode::Null,
        serde_json::Value::Bool(b) => ValueNode::Bool(b),
        serde_json::Value::Number(n) => ValueNode::Number(n.as_u64()),
        serde_json::Value::String(s) => ValueNode::Str(s),
        serde_json::Value::Array(a) => ValueNode::Array(a),
        serde_json::Value::Object(o) => ValueNode::Object(o.into_iter().collect()),
    }
}

/// `serde_json::from_str` into a generic value: `Ok` with the value that the text spells,
/// an error text of no stated content when the text is not JSON.
#[verifier::external_body]
fn json_value(text: &str) -> (r: Result<serde_json::Value, String>)
    ensures
        match r {
            Ok(v) => json_document(text@) == Some(value_tree(v)),
            Err(_) => json_document(text@) is None,
        },
{
    serde_json::from_str(text).map_err(|e| e.to_string())
}

/// What `serde_json::Deserializer` reads from the start of a text with its nesting limit
/// switched off: nothing when no value starts there.
pub uninterp spec fn nested_json_document(text: Seq<char>) -> Option<JsonTree>;

/// `serde_json::Deserializer::from_str`, its recursion limit disabled, into a generic value:
/// `Ok` with the value that the text starts with, an error text of no stated content when
/// there is none.
#[verifier::external_body]
fn nested_json_value(text: &str) -> (r: Result<serde_json::Value, String>)
    ensures
        match r {
            Ok(v) => nested_json_document(text@) == Some(value_tree(v)),
            Err(_) => nested_json_document(text@) is None,
        },
{
    let mut reader = serde_json::Deserializer::from_str(text);
    reader.disable_recursion_limit();
    serde::Deserialize::deserialize(&mut reader).map_err(|e: serde_json::Error| e.to_string())
}

/// `serde_yaml::from_str` into a generic JSON value: `Ok` with the value that the text
/// spells, an error text of no stated content when it spells none.
#[verifier::external_body]
fn yaml_value(text: &str) -> (r: Result<serde_json::Value, String>)
    ensures
        match r {
            Ok(v) => yaml_document(text@) == Some(value_tree(v)),
            Err(_) => yaml_document(text@) is None,
        },
{
    serde_yaml::from_str(text).map_err(|e| e.to_string())
}

/// The plain tree of a serde_json value.
pub(crate) fn json_of(v: serde_json::Value) -> (r: Json)
    ensures
        tree(r) == value_tree(v),
    decreases value_tree(v),
{
    let ghost whole = value_tree(v);
    match value_node(v) {
        ValueNode::Null => Json::Null,
        ValueNode::Bool(b) => Json::Bool(b),
        ValueNode::Number(n) => Json::Number(n),
        ValueNode::Str(s) => Json::Str(s),
        ValueNode::Array(mut a) => {
            let ghost all = a@.map_values(|x: serde_json::Value| value_tree(x));
            let mut out: Vec<Json> = Vec::new();
            while a.len() > 0
                invariant
                    whole == value_tree(v),
                    whole == JsonTree::Array(all),
                    a@.len() + out@.len() == all.len(),
                    forall|i: int| 0 <= i < a@.len() ==> value_tree(#[trigger] a@[i]) == all[
                        out@.len() + i],
                    trees(out@) == all.take(out@.len() as int),
                decreases a.len(),
            {
                let x = a.remove(0);
                assert(value_tree(x) == all[out@.len() as int]);
                assert(decreases_to!(whole => whole->Array_0));
                assert(decreases_to!(all => all[out@.len() as int]));
                let ghost done = out@;
                out.push(json_of(x));
                proof {
                    assert(out@.drop_last() =~= done);
                    assert(trees(out@) =~= all.take(out@.len() as int));
                }
            }
            assert(all.take(out@.len() as int) =~= all);
            Json::Array(out)
        },
        ValueNode::Object(mut o) => {
            let ghost all = o@.map_values(
                |p: (String, serde_json::Value)| (p.0@, value_tree(p.1)),
            );
            let mut out: Vec<(String, Json)> = Vec::new();
            while o.len() > 0
                invariant
                    whole == value_tree(v),
                    whole == JsonTree::Object(all),
                    o@.len() + out@.len() == all.len(),
                    forall|i: int|
                        0 <= i < o@.len() ==> ((#[trigger] o@[i]).0@, value_tree(o@[i].1)) == all[
                            out@.len() + i],
                    members(out@) == all.take(out@.len() as int),
                decreases o.len(),
            {
                let (k, x) = o.remove(0);
                assert((k@, value_tree(x)) == all[out@.len() as int]);
                let ghost done = out@;
                assert(decreases_to!(whole => whole->Object_0));
                assert(decreases_to!(all => all[out@.len() as int]));
                assert(decreases_to!(all[out@.len() as int] => all[out@.len() as int].1));
                out.push((k, json_of(x)));
                proof {
                    assert(out@.drop_last() =~= done);
                    assert(members(out@) =~= all.take(out@.len() as int));
                }
            }
            assert(all.take(out@.len() as int) =~= all);
            Json::Object(out)
        },
    }
}

/// A text that is no document of its format, with the reader's own words.
#[derive(Debug)]
pub struct NotADocument {
    pub detail: String,
}

/// Reads a JSON text.
pub fn parse_json(text: &str) -> (r: Result<Json, NotADocument>)
    ensures
        r is Ok <==> json_document(text@) is Some,
        r matches Ok(j) ==> json_document(text@) == Some(tree(j)),
{
    match json_value(text) {
        Ok(v) => Ok(json_of(v)),
        Err(detail) => Err(NotADocument { detail }),
    }
}

/// Reads a JSON text whose values may nest without limit.
pub fn parse_nested_json(text: &str) -> (r: Result<Json, NotADocument>)
    ensures
        r is Ok <==> nested_json_document(text@) is Some,
        r matches Ok(j) ==> nested_json_document(text@) == Some(tree(j)),
{
    match nested_json_value(text) {
        Ok(v) => Ok(json_of(v)),
        Err(detail) => Err(NotADocument { detail }),
    }
}

/// Reads a YAML text that spells a JSON value.
pub fn parse_yaml(text: &str) -> (r: Result<Json, NotADocument>)
    ensures
        r is Ok <==> yaml_document(text@) is Some,
        r matches Ok(j) ==> yaml_document(text@) == Some(tree(j)),
{
    match yaml_value(text) {
        Ok(v) => Ok(json_of(v)),
        Err(detail) => Err(NotADocument { detail }),
    }
}

} // verus!
