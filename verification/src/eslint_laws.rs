//! What holds of everything that is found in eslint configuration files.
use crate::config_scan::value_texts;
use crate::eslint::{
    bare_packages, config_kind, config_modules, config_projects, config_refs, config_relative_refs,
    data_projects, data_projects_in, data_projects_under, data_refs, data_refs_in, data_refs_under,
    data_value, is_flat, keyed_refs, module_name, named_modules, own_project, own_refs,
    project_option, relative_refs, source_projects, source_refs, tagged, ConfigKind, EslintRefKind,
    ProjectView,
};
use crate::importparse::sites_among;
use crate::json::{field, json_document, yaml_document, JsonTree};
use crate::path::path_extension;
use crate::placement_laws::finite_sets_are_listed;
use crate::sorted::listing;
use crate::source::{file_findings, FindingView, SiteView, ValueView};
use crate::source_laws::tree_at;
use crate::specifiers::bare_package;
use crate::text::{after_char, lemma_find_char, lemma_find_char_is, upto_char};
use crate::tsconfig::strings_among;
use vstd::prelude::*;

verus! {

proof fn lemma_joined<T>(a: Seq<T>, b: Seq<T>, x: T)
    ensures
        (a + b).contains(x) <==> a.contains(x) || b.contains(x),
{
    if a.contains(x) {
        let i = choose|i: int| 0 <= i < a.len() && a[i] == x;
        assert((a + b)[i] == x);
    }
    if b.contains(x) {
        let i = choose|i: int| 0 <= i < b.len() && b[i] == x;
        assert((a + b)[a.len() + i] == x);
    }
}

/// The strings of a list are those of its elements that are strings, and no others.
pub proof fn strings_of_a_list_are_its_strings(items: Seq<JsonTree>, s: Seq<char>)
    ensures
        strings_among(items).contains(s) <==> items.contains(JsonTree::Str(s)),
    decreases items.len(),
{
    if items.len() > 0 {
        let rest = items.drop_last();
        let before = strings_among(rest);
        let now = strings_among(items);
        strings_of_a_list_are_its_strings(rest, s);
        assert(items =~= rest.push(items.last()));
        if items.contains(JsonTree::Str(s)) {
            let i = choose|i: int| 0 <= i < items.len() && items[i] == JsonTree::Str(s);
            if i < rest.len() {
                assert(rest[i] == JsonTree::Str(s));
                let k = choose|k: int| 0 <= k < before.len() && before[k] == s;
                assert(now[k] == s);
            } else {
                assert(now[before.len() as int] == s);
            }
        }
        if now.contains(s) {
            let k = choose|k: int| 0 <= k < now.len() && now[k] == s;
            if k < before.len() {
                assert(before[k] == s);
                let i = choose|i: int| 0 <= i < rest.len() && rest[i] == JsonTree::Str(s);
                assert(items[i] == JsonTree::Str(s));
            } else {
                assert(items[items.len() - 1] == JsonTree::Str(s));
            }
        }
    }
}

/// What a `project` key says: the one path of a string, the strings of a list that holds some,
/// and that the parser is to look for itself with any other value.
pub proof fn a_project_key_says_its_paths(v: JsonTree, s: Seq<char>)
    ensures
        v == JsonTree::Str(s) ==> project_option(data_value(v)) == ProjectView::Paths(seq![s]),
        v matches JsonTree::Array(items) ==> (items.contains(JsonTree::Str(s)) ==> (project_option(
            data_value(v),
        ) matches ProjectView::Paths(l) && l.contains(s))),
        v matches JsonTree::Array(items) ==> (project_option(data_value(v)) matches
            ProjectView::Paths(l) ==> l.len() > 0 && (l.contains(s) ==> items.contains(
            JsonTree::Str(s),
        ))),
        !(v is Str) && !(v is Array) ==> project_option(data_value(v)) is AutoDetect,
{
    if let JsonTree::Array(items) = v {
        strings_of_a_list_are_its_strings(items, s);
    }
}

proof fn lemma_projects_in(items: Seq<JsonTree>, i: int, p: ProjectView)
    requires
        0 <= i < items.len(),
        data_projects(items[i]).contains(p),
    ensures
        data_projects_in(items).contains(p),
    decreases items.len(),
{
    lemma_joined(data_projects_in(items.drop_last()), data_projects(items.last()), p);
    if i < items.len() - 1 {
        lemma_projects_in(items.drop_last(), i, p);
    }
}

proof fn lemma_projects_under(ms: Seq<(Seq<char>, JsonTree)>, i: int, p: ProjectView)
    requires
        0 <= i < ms.len(),
        data_projects(ms[i].1).contains(p),
    ensures
        data_projects_under(ms).contains(p),
    decreases ms.len(),
{
    lemma_joined(data_projects_under(ms.drop_last()), data_projects(ms.last().1), p);
    if i < ms.len() - 1 {
        lemma_projects_under(ms.drop_last(), i, p);
    }
}

/// A `project` key counts at any depth, below objects and below the elements of lists alike.
pub proof fn project_keys_count_at_any_depth(t: JsonTree, path: Seq<int>, v: JsonTree)
    requires
        tree_at(t, path) matches Some(sub) && sub is Object && field(sub, "project"@) == Some(v),
    ensures
        data_projects(t).contains(project_option(data_value(v))),
    decreases path.len(),
{
    let p = project_option(data_value(v));
    match t {
        JsonTree::Array(items) => {
            project_keys_count_at_any_depth(items[path[0]], path.drop_first(), v);
            lemma_projects_in(items, path[0], p);
        },
        JsonTree::Object(ms) => {
            lemma_joined(own_project(t), data_projects_under(ms), p);
            if path.len() == 0 {
                assert(own_project(t)[0] == p);
            } else {
                project_keys_count_at_any_depth(ms[path[0]].1, path.drop_first(), v);
                lemma_projects_under(ms, path[0], p);
            }
        },
        _ => {},
    }
}

proof fn lemma_project_in_list(items: Seq<JsonTree>, p: ProjectView) -> (at: (int, Seq<int>, JsonTree))
    requires
        data_projects_in(items).contains(p),
    ensures
        0 <= at.0 < items.len(),
        tree_at(items[at.0], at.1) matches Some(sub) && sub is Object && field(sub, "project"@)
            == Some(at.2),
        p == project_option(data_value(at.2)),
    decreases items, 0int,
{
    let rest = items.drop_last();
    lemma_joined(data_projects_in(rest), data_projects(items.last()), p);
    if data_projects_in(rest).contains(p) {
        lemma_project_in_list(rest, p)
    } else {
        let (path, v) = every_project_comes_from_a_key(items.last(), p);
        (items.len() - 1, path, v)
    }
}

proof fn lemma_project_under_object(ms: Seq<(Seq<char>, JsonTree)>, p: ProjectView) -> (at: (
    int,
    Seq<int>,
    JsonTree,
))
    requires
        data_projects_under(ms).contains(p),
    ensures
        0 <= at.0 < ms.len(),
        tree_at(ms[at.0].1, at.1) matches Some(sub) && sub is Object && field(sub, "project"@)
            == Some(at.2),
        p == project_option(data_value(at.2)),
    decreases ms, 0int,
{
    let rest = ms.drop_last();
    lemma_joined(data_projects_under(rest), data_projects(ms.last().1), p);
    if data_projects_under(rest).contains(p) {
        lemma_project_under_object(rest, p)
    } else {
        let (path, v) = every_project_comes_from_a_key(ms.last().1, p);
        (ms.len() - 1, path, v)
    }
}

/// Nothing else counts: what is found is what some `project` key says.
pub proof fn every_project_comes_from_a_key(t: JsonTree, p: ProjectView) -> (at: (Seq<int>, JsonTree))
    requires
        data_projects(t).contains(p),
    ensures
        tree_at(t, at.0) matches Some(sub) && sub is Object && field(sub, "project"@) == Some(at.1),
        p == project_option(data_value(at.1)),
    decreases t, 1int,
{
    match t {
        JsonTree::Array(items) => {
            let (i, path, v) = lemma_project_in_list(items, p);
            let whole = seq![i] + path;
            assert(whole.drop_first() =~= path);
            (whole, v)
        },
        JsonTree::Object(ms) => {
            lemma_joined(own_project(t), data_projects_under(ms), p);
            if own_project(t).contains(p) {
                let v = field(t, "project"@)->0;
                (Seq::empty(), v)
            } else {
                let (i, path, v) = lemma_project_under_object(ms, p);
                let whole = seq![i] + path;
                assert(whole.drop_first() =~= path);
                (whole, v)
            }
        },
        _ => (Seq::empty(), t),
    }
}

/// Whether a configuration file is data of which `t` is the tree: a YAML file, or a JSON file or
/// one without an extension.
pub open spec fn is_data(path: Seq<char>, content: Seq<char>, t: JsonTree) -> bool {
    ||| (path_extension(path) == Some("yml"@) || path_extension(path) == Some("yaml"@))
        && yaml_document(content) == Some(t)
    ||| (path_extension(path) == Some("json"@) || path_extension(path) is None) && json_document(
        content,
    ) == Some(t)
}

/// Whether a configuration file is a source file in which `list` is found: one whose extension
/// is none of data.
pub open spec fn is_source(path: Seq<char>, content: Seq<char>, list: Seq<FindingView>) -> bool {
    &&& path_extension(path) matches Some(e) && e.len() > 0 && e != "yml"@ && e != "yaml"@ && e
        != "json"@
    &&& file_findings(path, content) == Some(list)
}

proof fn lemma_extensions()
    ensures
        "yml"@ != "json"@,
        "yaml"@ != "json"@,
        "yml"@.len() > 0,
        "yaml"@.len() > 0,
        "json"@.len() > 0,
{
    reveal_strlit("yml");
    reveal_strlit("yaml");
    reveal_strlit("json");
    assert("yml"@.len() == 3);
    assert("yaml"@[0] == 'y');
    assert("json"@[0] == 'j');
}

/// The `project` keys of a configuration file in JSON or YAML, at any depth, are what turns
/// type-aware rules on.
pub proof fn project_keys_of_data_are_found(
    path: Seq<char>,
    content: Seq<char>,
    t: JsonTree,
    at: Seq<int>,
    v: JsonTree,
)
    requires
        is_data(path, content, t),
        tree_at(t, at) matches Some(sub) && sub is Object && field(sub, "project"@) == Some(v),
    ensures
        config_projects(path, content).contains(project_option(data_value(v))),
{
    lemma_extensions();
    project_keys_count_at_any_depth(t, at, v);
}

/// Nothing else turns type-aware rules on in a configuration file in JSON or YAML.
pub proof fn projects_of_data_come_from_keys(
    path: Seq<char>,
    content: Seq<char>,
    t: JsonTree,
    p: ProjectView,
) -> (at: (Seq<int>, JsonTree))
    requires
        is_data(path, content, t),
        config_projects(path, content).contains(p),
    ensures
        tree_at(t, at.0) matches Some(sub) && sub is Object && field(sub, "project"@) == Some(at.1),
        p == project_option(data_value(at.1)),
{
    lemma_extensions();
    every_project_comes_from_a_key(t, p)
}

proof fn lemma_source_projects(list: Seq<FindingView>, p: ProjectView)
    ensures
        source_projects(list).contains(p) <==> exists|v: ValueView| #[trigger]
            list.contains(FindingView::Property("project"@, v)) && p == project_option(v),
    decreases list.len(),
{
    if list.len() > 0 {
        let rest = list.drop_last();
        let before = source_projects(rest);
        let now = source_projects(list);
        lemma_source_projects(rest, p);
        if now.contains(p) {
            let k = choose|k: int| 0 <= k < now.len() && now[k] == p;
            if k < before.len() {
                assert(before[k] == p);
                let v = choose|v: ValueView| #[trigger]
                    rest.contains(FindingView::Property("project"@, v)) && p == project_option(v);
                let i = choose|i: int|
                    0 <= i < rest.len() && rest[i] == FindingView::Property("project"@, v);
                assert(list[i] == FindingView::Property("project"@, v));
                assert(list.contains(FindingView::Property("project"@, v)));
            } else {
                let v = list.last()->Property_1;
                assert(list[list.len() - 1] == FindingView::Property("project"@, v));
                assert(list.contains(FindingView::Property("project"@, v)));
            }
        }
        if exists|v: ValueView| #[trigger]
            list.contains(FindingView::Property("project"@, v)) && p == project_option(v) {
            let v = choose|v: ValueView| #[trigger]
                list.contains(FindingView::Property("project"@, v)) && p == project_option(v);
            let i = choose|i: int|
                0 <= i < list.len() && list[i] == FindingView::Property("project"@, v);
            if i < rest.len() {
                assert(rest[i] == FindingView::Property("project"@, v));
                assert(rest.contains(FindingView::Property("project"@, v)));
                let k = choose|k: int| 0 <= k < before.len() && before[k] == p;
                assert(now[k] == p);
            } else {
                assert(now[before.len() as int] == p);
            }
        }
    }
}

/// A `project` key of any object literal in a configuration file that is source turns type-aware
/// rules on, and nothing else does.
pub proof fn project_keys_of_source_are_found(
    path: Seq<char>,
    content: Seq<char>,
    list: Seq<FindingView>,
    p: ProjectView,
)
    requires
        is_source(path, content, list),
    ensures
        config_projects(path, content).contains(p) <==> exists|v: ValueView| #[trigger]
            list.contains(FindingView::Property("project"@, v)) && p == project_option(v),
{
    lemma_source_projects(list, p);
}

/// Whether a value spells a text out: it is the text, or a list that holds it.
pub open spec fn spells(v: JsonTree, s: Seq<char>) -> bool {
    v == JsonTree::Str(s) || (v matches JsonTree::Array(items) && items.contains(JsonTree::Str(s)))
}

/// Whether an object itself has an entry: a text under `extends`, or one under `plugins`.
pub open spec fn has_entry(t: JsonTree, kind: EslintRefKind, s: Seq<char>) -> bool {
    match kind {
        EslintRefKind::Extends => field(t, "extends"@) matches Some(v) && spells(v, s),
        EslintRefKind::Plugin => field(t, "plugins"@) matches Some(v) && spells(v, s),
    }
}

proof fn lemma_tagged(kind: EslintRefKind, l: Seq<Seq<char>>, other: EslintRefKind, s: Seq<char>)
    ensures
        tagged(kind, l).contains((other, s)) <==> kind == other && l.contains(s),
{
    if kind == other && l.contains(s) {
        let i = choose|i: int| 0 <= i < l.len() && l[i] == s;
        assert(tagged(kind, l)[i] == (other, s));
    }
    if tagged(kind, l).contains((other, s)) {
        let i = choose|i: int| 0 <= i < tagged(kind, l).len() && tagged(kind, l)[i] == (other, s);
        assert(l[i] == s);
    }
}

proof fn lemma_value_texts(v: JsonTree, s: Seq<char>)
    ensures
        value_texts(data_value(v)).contains(s) <==> spells(v, s),
{
    match v {
        JsonTree::Array(items) => {
            strings_of_a_list_are_its_strings(items, s);
        },
        JsonTree::Str(x) => {
            assert(seq![x][0] == x);
            if seq![x].contains(s) {
                let i = choose|i: int| 0 <= i < 1 && seq![x][i] == s;
            }
        },
        _ => {},
    }
}

proof fn lemma_own_refs(t: JsonTree, kind: EslintRefKind, s: Seq<char>)
    ensures
        own_refs(t).contains((kind, s)) <==> has_entry(t, kind, s),
{
    let a = keyed_refs(t, "extends"@, EslintRefKind::Extends);
    let b = keyed_refs(t, "plugins"@, EslintRefKind::Plugin);
    lemma_joined(a, b, (kind, s));
    if let Some(v) = field(t, "extends"@) {
        lemma_value_texts(v, s);
        lemma_tagged(EslintRefKind::Extends, value_texts(data_value(v)), kind, s);
    }
    if let Some(v) = field(t, "plugins"@) {
        lemma_value_texts(v, s);
        lemma_tagged(EslintRefKind::Plugin, value_texts(data_value(v)), kind, s);
    }
}

proof fn lemma_refs_in(items: Seq<JsonTree>, i: int, x: (EslintRefKind, Seq<char>))
    requires
        0 <= i < items.len(),
        data_refs(items[i]).contains(x),
    ensures
        data_refs_in(items).contains(x),
    decreases items.len(),
{
    lemma_joined(data_refs_in(items.drop_last()), data_refs(items.last()), x);
    if i < items.len() - 1 {
        lemma_refs_in(items.drop_last(), i, x);
    }
}

proof fn lemma_refs_under(
    ms: Seq<(Seq<char>, JsonTree)>,
    i: int,
    x: (EslintRefKind, Seq<char>),
)
    requires
        0 <= i < ms.len(),
        data_refs(ms[i].1).contains(x),
    ensures
        data_refs_under(ms).contains(x),
    decreases ms.len(),
{
    lemma_joined(data_refs_under(ms.drop_last()), data_refs(ms.last().1), x);
    if i < ms.len() - 1 {
        lemma_refs_under(ms.drop_last(), i, x);
    }
}

/// An `extends` or `plugins` entry counts at any depth, as an entry of its kind.
pub proof fn entries_count_at_any_depth(
    t: JsonTree,
    path: Seq<int>,
    kind: EslintRefKind,
    s: Seq<char>,
)
    requires
        tree_at(t, path) matches Some(sub) && sub is Object && has_entry(sub, kind, s),
    ensures
        data_refs(t).contains((kind, s)),
    decreases path.len(),
{
    match t {
        JsonTree::Array(items) => {
            entries_count_at_any_depth(items[path[0]], path.drop_first(), kind, s);
            lemma_refs_in(items, path[0], (kind, s));
        },
        JsonTree::Object(ms) => {
            lemma_joined(own_refs(t), data_refs_under(ms), (kind, s));
            if path.len() == 0 {
                lemma_own_refs(t, kind, s);
            } else {
                entries_count_at_any_depth(ms[path[0]].1, path.drop_first(), kind, s);
                lemma_refs_under(ms, path[0], (kind, s));
            }
        },
        _ => {},
    }
}

proof fn lemma_ref_in_list(items: Seq<JsonTree>, kind: EslintRefKind, s: Seq<char>) -> (at: (
    int,
    Seq<int>,
))
    requires
        data_refs_in(items).contains((kind, s)),
    ensures
        0 <= at.0 < items.len(),
        tree_at(items[at.0], at.1) matches Some(sub) && sub is Object && has_entry(sub, kind, s),
    decreases items, 0int,
{
    let rest = items.drop_last();
    lemma_joined(data_refs_in(rest), data_refs(items.last()), (kind, s));
    if data_refs_in(rest).contains((kind, s)) {
        lemma_ref_in_list(rest, kind, s)
    } else {
        let path = every_entry_stands_somewhere(items.last(), kind, s);
        (items.len() - 1, path)
    }
}

proof fn lemma_ref_under_object(
    ms: Seq<(Seq<char>, JsonTree)>,
    kind: EslintRefKind,
    s: Seq<char>,
) -> (at: (int, Seq<int>))
    requires
        data_refs_under(ms).contains((kind, s)),
    ensures
        0 <= at.0 < ms.len(),
        tree_at(ms[at.0].1, at.1) matches Some(sub) && sub is Object && has_entry(sub, kind, s),
    decreases ms, 0int,
{
    let rest = ms.drop_last();
    lemma_joined(data_refs_under(rest), data_refs(ms.last().1), (kind, s));
    if data_refs_under(rest).contains((kind, s)) {
        lemma_ref_under_object(rest, kind, s)
    } else {
        let path = every_entry_stands_somewhere(ms.last().1, kind, s);
        (ms.len() - 1, path)
    }
}

/// Nothing else counts: every entry that is found stands under its key somewhere.
pub proof fn every_entry_stands_somewhere(t: JsonTree, kind: EslintRefKind, s: Seq<char>) -> (at:
    Seq<int>)
    requires
        data_refs(t).contains((kind, s)),
    ensures
        tree_at(t, at) matches Some(sub) && sub is Object && has_entry(sub, kind, s),
    decreases t, 1int,
{
    match t {
        JsonTree::Array(items) => {
            let (i, path) = lemma_ref_in_list(items, kind, s);
            let whole = seq![i] + path;
            assert(whole.drop_first() =~= path);
            whole
        },
        JsonTree::Object(ms) => {
            lemma_joined(own_refs(t), data_refs_under(ms), (kind, s));
            lemma_own_refs(t, kind, s);
            if own_refs(t).contains((kind, s)) {
                Seq::empty()
            } else {
                let (i, path) = lemma_ref_under_object(ms, kind, s);
                let whole = seq![i] + path;
                assert(whole.drop_first() =~= path);
                whole
            }
        },
        _ => Seq::empty(),
    }
}

/// Whether a finding is an entry: a property `extends` or `plugins` that holds the text.
pub open spec fn is_entry(f: FindingView, kind: EslintRefKind, s: Seq<char>) -> bool {
    f matches FindingView::Property(key, value) && key == (match kind {
        EslintRefKind::Extends => "extends"@,
        EslintRefKind::Plugin => "plugins"@,
    }) && match value {
        ValueView::Text(x) => x == s,
        ValueView::List(l) => l.contains(s),
        ValueView::Other => false,
    }
}

proof fn lemma_source_refs(list: Seq<FindingView>, kind: EslintRefKind, s: Seq<char>)
    ensures
        source_refs(list).contains((kind, s)) <==> exists|i: int|
            0 <= i < list.len() && is_entry(#[trigger] list[i], kind, s),
    decreases list.len(),
{
    reveal_strlit("extends");
    reveal_strlit("plugins");
    assert("extends"@[0] == 'e');
    assert("plugins"@[0] == 'p');
    if list.len() > 0 {
        let rest = list.drop_last();
        let last = list.last();
        lemma_source_refs(rest, kind, s);
        if let FindingView::Property(key, value) = last {
            let of = if key == "extends"@ {
                EslintRefKind::Extends
            } else {
                EslintRefKind::Plugin
            };
            lemma_tagged(of, value_texts(value), kind, s);
            lemma_joined(source_refs(rest), tagged(of, value_texts(value)), (kind, s));
            if let ValueView::Text(x) = value {
                assert(value_texts(value)[0] == x);
                if value_texts(value).contains(s) {
                    let i = choose|i: int| 0 <= i < 1 && value_texts(value)[i] == s;
                }
            }
        }
        if source_refs(list).contains((kind, s)) {
            if source_refs(rest).contains((kind, s)) {
                let i = choose|i: int| 0 <= i < rest.len() && is_entry(#[trigger] rest[i], kind, s);
                assert(list[i] == rest[i]);
            } else {
                assert(is_entry(list[list.len() - 1], kind, s));
            }
        }
        if exists|i: int| 0 <= i < list.len() && is_entry(#[trigger] list[i], kind, s) {
            let i = choose|i: int| 0 <= i < list.len() && is_entry(#[trigger] list[i], kind, s);
            if i < rest.len() {
                assert(rest[i] == list[i]);
            }
        }
    }
}

/// The entries of a configuration file are those of its data, at any depth, and in a source file
/// those of its object literals.
pub proof fn entries_of_a_config_are_found(
    path: Seq<char>,
    content: Seq<char>,
    t: JsonTree,
    list: Seq<FindingView>,
    kind: EslintRefKind,
    s: Seq<char>,
)
    ensures
        is_data(path, content, t) ==> (config_refs(path, content).contains((kind, s)) <==> exists|
            at: Seq<int>,
        |
            (#[trigger] tree_at(t, at)) matches Some(sub) && sub is Object && has_entry(
                sub,
                kind,
                s,
            )),
        is_source(path, content, list) ==> (config_refs(path, content).contains((kind, s))
            <==> exists|i: int| 0 <= i < list.len() && is_entry(#[trigger] list[i], kind, s)),
{
    lemma_extensions();
    if is_data(path, content, t) {
        if data_refs(t).contains((kind, s)) {
            let at = every_entry_stands_somewhere(t, kind, s);
            assert(tree_at(t, at) is Some);
        }
        if exists|at: Seq<int>|
            (#[trigger] tree_at(t, at)) matches Some(sub) && sub is Object && has_entry(
                sub,
                kind,
                s,
            ) {
            let at = choose|at: Seq<int>|
                (#[trigger] tree_at(t, at)) matches Some(sub) && sub is Object && has_entry(
                    sub,
                    kind,
                    s,
                );
            entries_count_at_any_depth(t, at, kind, s);
        }
    }
    if is_source(path, content, list) {
        lemma_source_refs(list, kind, s);
    }
}

proof fn lemma_named(list: Seq<(EslintRefKind, Seq<char>)>, i: int)
    requires
        0 <= i < list.len(),
        list[i].1.len() > 0,
        list[i].1[0] != '.',
        list[i].1[0] != '/',
        list[i].1 != "eslint:recommended"@,
        list[i].1 != "eslint:all"@,
    ensures
        named_modules(list).contains(module_name(list[i].1, list[i].0)),
    decreases list.len(),
{
    let rest = list.drop_last();
    let before = named_modules(rest);
    let m = module_name(list[i].1, list[i].0);
    if i < rest.len() {
        lemma_named(rest, i);
        let k = choose|k: int| 0 <= k < before.len() && before[k] == m;
        assert(named_modules(list)[k] == m);
    } else {
        assert(named_modules(list)[before.len() as int] == m);
    }
}

proof fn lemma_only_named(list: Seq<(EslintRefKind, Seq<char>)>, m: Seq<char>) -> (i: int)
    requires
        named_modules(list).contains(m),
    ensures
        0 <= i < list.len(),
        m == module_name(list[i].1, list[i].0),
        list[i].1.len() > 0 ==> list[i].1[0] != '.' && list[i].1[0] != '/',
        list[i].1 != "eslint:recommended"@,
        list[i].1 != "eslint:all"@,
    decreases list.len(),
{
    let rest = list.drop_last();
    let before = named_modules(rest);
    let now = named_modules(list);
    let k = choose|k: int| 0 <= k < now.len() && now[k] == m;
    if k < before.len() {
        assert(before[k] == m);
        lemma_only_named(rest, m)
    } else {
        list.len() - 1
    }
}

/// A configuration that is not flat refers to the package of every entry that is neither a path
/// nor one of eslint's own sets of rules.
pub proof fn entries_refer_to_their_packages(
    path: Seq<char>,
    content: Seq<char>,
    kind: EslintRefKind,
    raw: Seq<char>,
)
    requires
        !is_flat(path),
        config_refs(path, content).contains((kind, raw)),
        raw.len() > 0,
        raw[0] != '.',
        raw[0] != '/',
        raw != "eslint:recommended"@,
        raw != "eslint:all"@,
    ensures
        config_modules(path, content).contains(module_name(raw, kind)),
{
    let list = config_refs(path, content);
    let i = choose|i: int| 0 <= i < list.len() && list[i] == (kind, raw);
    lemma_named(list, i);
}

/// And to no other: each package that it refers to is that of such an entry.
pub proof fn only_entries_refer_to_packages(path: Seq<char>, content: Seq<char>, m: Seq<char>) -> (
    entry: (EslintRefKind, Seq<char>))
    requires
        !is_flat(path),
        config_modules(path, content).contains(m),
    ensures
        config_refs(path, content).contains(entry),
        m == module_name(entry.1, entry.0),
        entry.1.len() > 0 ==> entry.1[0] != '.' && entry.1[0] != '/',
        entry.1 != "eslint:recommended"@,
        entry.1 != "eslint:all"@,
{
    let list = config_refs(path, content);
    let i = lemma_only_named(list, m);
    list[i]
}

proof fn lemma_bare_packages(sites: Seq<SiteView>, n: Seq<char>)
    ensures
        bare_packages(sites).finite(),
        bare_packages(sites).contains(n) <==> exists|i: int|
            0 <= i < sites.len() && bare_package((#[trigger] sites[i]).specifier) == Some(n),
    decreases sites.len(),
{
    if sites.len() > 0 {
        let rest = sites.drop_last();
        lemma_bare_packages(rest, n);
        if bare_packages(rest).contains(n) {
            let i = choose|i: int|
                0 <= i < rest.len() && bare_package((#[trigger] rest[i]).specifier) == Some(n);
            assert(sites[i] == rest[i]);
        }
        if bare_package(sites.last().specifier) == Some(n) {
            assert(sites[sites.len() - 1] == sites.last());
        }
        if exists|i: int|
            0 <= i < sites.len() && bare_package((#[trigger] sites[i]).specifier) == Some(n) {
            let i = choose|i: int|
                0 <= i < sites.len() && bare_package((#[trigger] sites[i]).specifier) == Some(n);
            if i < rest.len() {
                assert(rest[i] == sites[i]);
            }
        }
    }
}

/// A flat configuration refers to exactly the packages that its imports name, each once.
pub proof fn a_flat_config_refers_to_what_it_imports(
    path: Seq<char>,
    content: Seq<char>,
    list: Seq<FindingView>,
    n: Seq<char>,
)
    requires
        is_flat(path),
        file_findings(path, content) == Some(list),
    ensures
        config_modules(path, content).contains(n) <==> exists|i: int|
            0 <= i < sites_among(list).len() && bare_package(
                (#[trigger] sites_among(list)[i]).specifier,
            ) == Some(n),
        config_modules(path, content).no_duplicates(),
{
    let packages = bare_packages(sites_among(list));
    lemma_bare_packages(sites_among(list), n);
    finite_sets_are_listed(packages);
    crate::sorted::lemma_increasing_distinct(listing(packages));
    assert(listing(packages).to_set().contains(n) <==> listing(packages).contains(n));
}

/// The relative paths among the entries of a configuration that is not flat are those that start
/// with a dot.
pub proof fn entries_with_a_dot_are_paths(
    path: Seq<char>,
    content: Seq<char>,
    raw: Seq<char>,
)
    requires
        !is_flat(path),
    ensures
        config_relative_refs(path, content).contains(raw) <==> raw.len() > 0 && raw[0] == '.' && (
        config_refs(path, content).contains((EslintRefKind::Extends, raw)) || config_refs(
            path,
            content,
        ).contains((EslintRefKind::Plugin, raw))),
{
    lemma_relative(config_refs(path, content), raw);
}

proof fn lemma_relative(list: Seq<(EslintRefKind, Seq<char>)>, raw: Seq<char>)
    ensures
        relative_refs(list).contains(raw) <==> raw.len() > 0 && raw[0] == '.' && (list.contains(
            (EslintRefKind::Extends, raw),
        ) || list.contains((EslintRefKind::Plugin, raw))),
    decreases list.len(),
{
    if list.len() > 0 {
        let rest = list.drop_last();
        let before = relative_refs(rest);
        let now = relative_refs(list);
        lemma_relative(rest, raw);
        assert(list[list.len() - 1] == list.last());
        assert forall|x: (EslintRefKind, Seq<char>)| rest.contains(x) implies list.contains(x) by {
            let i = choose|i: int| 0 <= i < rest.len() && rest[i] == x;
            assert(list[i] == x);
        }
        assert forall|x: (EslintRefKind, Seq<char>)| list.contains(x) implies rest.contains(x) || x
            == list.last() by {
            let i = choose|i: int| 0 <= i < list.len() && list[i] == x;
            if i < rest.len() {
                assert(rest[i] == x);
            }
        }
        if before.contains(raw) {
            let k = choose|k: int| 0 <= k < before.len() && before[k] == raw;
            assert(now[k] == raw);
        }
        if now.len() > before.len() {
            assert(now[before.len() as int] == list.last().1);
        }
        if now.contains(raw) && !before.contains(raw) {
            let k = choose|k: int| 0 <= k < now.len() && now[k] == raw;
            if k < before.len() {
                assert(before[k] == raw);
            }
        }
        match list.last().0 {
            EslintRefKind::Extends => {},
            EslintRefKind::Plugin => {},
        }
    }
}

/// What the packages of shared configurations, and of plugins, are called.
pub open spec fn family(kind: EslintRefKind) -> Seq<char> {
    match kind {
        EslintRefKind::Extends => "eslint-config"@,
        EslintRefKind::Plugin => "eslint-plugin"@,
    }
}

/// A short name stands for the package of its family; a scope alone stands for the package of the
/// scope that is called like the family, and a short name in a scope for that of its family in
/// the scope.
pub proof fn short_names_stand_for_a_family(
    name: Seq<char>,
    scope: Seq<char>,
    kind: EslintRefKind,
)
    requires
        !scope.contains('/'),
    ensures
        !"plugin:"@.is_prefix_of(name) && !"@"@.is_prefix_of(name) && !(family(kind)
            + "-"@).is_prefix_of(name) ==> module_name(name, kind) == family(kind) + "-"@ + name,
        module_name("@"@ + scope, kind) == "@"@ + scope + "/"@ + family(kind),
        !family(kind).is_prefix_of(name) ==> module_name("@"@ + scope + "/"@ + name, kind) == "@"@
            + scope + "/"@ + family(kind) + "-"@ + name,
        module_name("@"@ + scope + "/"@ + family(kind), kind) == "@"@ + scope + "/"@ + family(kind),
{
    reveal_strlit("plugin:");
    reveal_strlit("@");
    reveal_strlit("/");
    reveal_strlit("-");
    let alone = "@"@ + scope;
    let with = "@"@ + scope + "/"@ + name;
    let own = "@"@ + scope + "/"@ + family(kind);
    assert("@"@ =~= seq!['@']);
    assert(alone[0] == '@' && with[0] == '@' && own[0] == '@');
    assert("plugin:"@[0] == 'p');
    assert(alone.skip(1) =~= scope);
    lemma_scoped(scope, name);
    lemma_scoped(scope, family(kind));
    assert(with.skip(1) =~= scope + "/"@ + name);
    assert(own.skip(1) =~= scope + "/"@ + family(kind));
    if name.len() > 0 && name[0] == '@' {
        assert("@"@.is_prefix_of(name)) by {
            assert(name.subrange(0, 1) =~= "@"@);
        }
    }
    assert(family(kind).is_prefix_of(family(kind))) by {
        assert(family(kind).subrange(0, family(kind).len() as int) =~= family(kind));
    }
}

proof fn lemma_scoped(scope: Seq<char>, name: Seq<char>)
    requires
        !scope.contains('/'),
    ensures
        (scope + "/"@ + name).contains('/'),
        upto_char(scope + "/"@ + name, '/') == scope,
        after_char(scope + "/"@ + name, '/') == name,
{
    reveal_strlit("/");
    let s = scope + "/"@ + name;
    let n = scope.len() as int;
    assert(s[n] == '/');
    assert forall|j: int| 0 <= j < n implies s[j] != '/' by {
        assert(s[j] == scope[j]);
        assert(scope.contains(scope[j]));
    }
    lemma_find_char_is(s, '/', n);
    assert(s.take(n) =~= scope);
    assert(s.skip(n + 1) =~= name);
}

/// A configuration that comes with a plugin stands for the plugin.
pub proof fn configurations_of_a_plugin_stand_for_it(
    plugin: Seq<char>,
    name: Seq<char>,
    kind: EslintRefKind,
)
    requires
        !plugin.contains('/'),
    ensures
        module_name("plugin:"@ + plugin + "/"@ + name, kind) == module_name(
            plugin,
            EslintRefKind::Plugin,
        ),
        module_name("plugin:"@ + plugin, kind) == module_name(plugin, EslintRefKind::Plugin),
{
    reveal_strlit("plugin:");
    let n = "plugin:"@.len() as int;
    let s = "plugin:"@ + plugin + "/"@ + name;
    let t = "plugin:"@ + plugin;
    assert(s.subrange(0, n) =~= "plugin:"@);
    assert(t.subrange(0, n) =~= "plugin:"@);
    assert("plugin:"@.is_prefix_of(s) && "plugin:"@.is_prefix_of(t));
    assert(s.skip(n) =~= plugin + "/"@ + name);
    assert(t.skip(n) =~= plugin);
    lemma_scoped(plugin, name);
    lemma_find_char(plugin, '/');
    assert(plugin.take(plugin.len() as int) =~= plugin);
}

/// A configuration is read as what its extension says: as YAML, as JSON, which is also what one
/// without an extension holds, or as source code.
pub proof fn configurations_are_read_by_their_extension(path: Seq<char>)
    ensures
        path_extension(path) == Some("yml"@) || path_extension(path) == Some("yaml"@)
            ==> config_kind(path) == ConfigKind::Yaml,
        path_extension(path) == Some("json"@) || path_extension(path) is None ==> config_kind(path)
            == ConfigKind::Json,
        path_extension(path) == Some("js"@) || path_extension(path) == Some("cjs"@)
            || path_extension(path) == Some("mjs"@) || path_extension(path) == Some("ts"@)
            ==> config_kind(path) == ConfigKind::Source,
{
    reveal_strlit("yml");
    reveal_strlit("yaml");
    reveal_strlit("json");
    reveal_strlit("js");
    reveal_strlit("cjs");
    reveal_strlit("mjs");
    reveal_strlit("ts");
    assert("yml"@.len() == 3 && "yml"@[0] == 'y');
    assert("yaml"@.len() == 4 && "yaml"@[0] == 'y');
    assert("json"@.len() == 4 && "json"@[0] == 'j');
    assert("js"@.len() == 2 && "ts"@.len() == 2);
    assert("cjs"@.len() == 3 && "cjs"@[0] == 'c');
    assert("mjs"@.len() == 3 && "mjs"@[0] == 'm');
}

} // verus!
