//! What an eslint configuration file refers to: tsconfig files, packages and other
//! configuration files.
use crate::config_scan::{
    config_dir, config_scan, list_paths, met, pair_texts, paths_in_order, probe_first_party_path,
    probes, push_value_texts, value_texts, Scan, ScanView,
};
use crate::importparse::{imports_among, site_views, sites_among};
use crate::json::{
    field, json_document, lemma_members, lemma_trees, members, parse_json, parse_yaml, tree, trees,
    yaml_document, Json, JsonTree,
};
use crate::nearest::first_file;
use crate::path::{
    base_name, extension, file_name, join_path, key_of_path, parent, path_extension, path_key,
    under,
};
use crate::sorted::{listing, StrSet};
use crate::source::{
    file_findings, finding_views, read_source, Finding, FindingView, PropertyValue, SiteView,
    ValueView,
};
use crate::specifiers::{bare_package, bare_specifier_package_name};
use crate::text::{
    after_char, from_range, lemma_find_char, same, split_once, starts_with, strip_prefix, texts,
    to_chars, upto, upto_char,
};
use crate::tree::{FileTree, FilesView};
use crate::tsconfig::{read_strings, strings_among};
use vstd::prelude::*;

verus! {

/// What `parserOptions.project` says.
#[derive(Debug, PartialEq, Eq)]
pub enum EslintProjectOption {
    /// The parser is to find the nearest tsconfig itself.
    AutoDetect,
    /// These tsconfig files, from the directory of the configuration file.
    Paths(Vec<String>),
}

/// What `parserOptions.project` says, as mathematical values.
pub enum ProjectView {
    AutoDetect,
    Paths(Seq<Seq<char>>),
}

impl View for EslintProjectOption {
    type V = ProjectView;

    open spec fn view(&self) -> ProjectView {
        match self {
            EslintProjectOption::AutoDetect => ProjectView::AutoDetect,
            EslintProjectOption::Paths(v) => ProjectView::Paths(texts(v@)),
        }
    }
}

/// Options as mathematical values.
pub open spec fn project_views(v: Seq<EslintProjectOption>) -> Seq<ProjectView> {
    v.map_values(|o: EslintProjectOption| o@)
}

/// What the value of a `project` key says: a path, or the paths of a list that holds some.
pub open spec fn project_option(v: ValueView) -> ProjectView {
    match v {
        ValueView::Text(s) => ProjectView::Paths(seq![s]),
        ValueView::List(l) => if l.len() == 0 {
            ProjectView::AutoDetect
        } else {
            ProjectView::Paths(l)
        },
        ValueView::Other => ProjectView::AutoDetect,
    }
}

fn read_project_option(value: PropertyValue) -> (r: EslintProjectOption)
    ensures
        r@ == project_option(value@),
{
    match value {
        PropertyValue::Text(s) => {
            let mut list: Vec<String> = Vec::new();
            list.push(s);
            assert(texts(list@) =~= seq![s@]);
            EslintProjectOption::Paths(list)
        },
        PropertyValue::List(list) => {
            assert(texts(list@).len() == list@.len());
            if list.len() == 0 {
                EslintProjectOption::AutoDetect
            } else {
                EslintProjectOption::Paths(list)
            }
        },
        PropertyValue::Other => EslintProjectOption::AutoDetect,
    }
}

/// What a value of a data document spells out: a string, or the strings of a list.
pub open spec fn data_value(t: JsonTree) -> ValueView {
    match t {
        JsonTree::Str(s) => ValueView::Text(s),
        JsonTree::Array(items) => ValueView::List(strings_among(items)),
        _ => ValueView::Other,
    }
}

fn read_data_value(j: &Json) -> (r: PropertyValue)
    ensures
        r@ == data_value(tree(*j)),
{
    match j {
        Json::Str(s) => PropertyValue::Text(s.clone()),
        Json::Array(items) => PropertyValue::List(read_strings(items)),
        _ => PropertyValue::Other,
    }
}

/// What the `project` keys of a data document say, an object's own before those of its
/// members.
pub open spec fn data_projects(t: JsonTree) -> Seq<ProjectView>
    decreases t,
{
    match t {
        JsonTree::Object(ms) => own_project(t) + data_projects_under(ms),
        JsonTree::Array(items) => data_projects_in(items),
        _ => Seq::empty(),
    }
}

/// What the `project` key of an object says.
pub open spec fn own_project(t: JsonTree) -> Seq<ProjectView> {
    match field(t, "project"@) {
        Some(v) => seq![project_option(data_value(v))],
        None => Seq::empty(),
    }
}

/// What the `project` keys among the members of an object say.
pub open spec fn data_projects_under(ms: Seq<(Seq<char>, JsonTree)>) -> Seq<ProjectView>
    decreases ms,
{
    if ms.len() == 0 {
        Seq::empty()
    } else {
        data_projects_under(ms.drop_last()) + data_projects(ms.last().1)
    }
}

/// What the `project` keys among the elements of a list say.
pub open spec fn data_projects_in(items: Seq<JsonTree>) -> Seq<ProjectView>
    decreases items,
{
    if items.len() == 0 {
        Seq::empty()
    } else {
        data_projects_in(items.drop_last()) + data_projects(items.last())
    }
}

/// Adds what the `project` keys of a data document say.
pub fn collect_project_keys(j: &Json, out: &mut Vec<EslintProjectOption>)
    ensures
        project_views(final(out)@) == project_views(old(out)@) + data_projects(tree(*j)),
    decreases *j,
{
    let ghost start = project_views(out@);
    match j {
        Json::Object(fields) => {
            match j.get("project") {
                Some(v) => {
                    let option = read_project_option(read_data_value(v));
                    let ghost x = option@;
                    out.push(option);
                    assert(project_views(out@) =~= start + seq![x]);
                },
                None => {
                    assert(start + own_project(tree(*j)) =~= start);
                },
            }
            let ghost own = own_project(tree(*j));
            let ghost all = members(fields@);
            proof {
                lemma_members(fields@);
            }
            let mut i: usize = 0;
            assert(project_views(out@) =~= start + own + data_projects_under(all.take(0)));
            while i < fields.len()
                invariant
                    i <= fields.len(),
                    *j matches Json::Object(w) && w == *fields,
                    all == members(fields@),
                    all.len() == fields@.len(),
                    forall|k: int|
                        0 <= k < fields@.len() ==> #[trigger] all[k] == (
                            fields@[k].0@,
                            tree(fields@[k].1),
                        ),
                    project_views(out@) == start + own + data_projects_under(all.take(i as int)),
                decreases fields.len() - i,
            {
                assert(all.take(i + 1).drop_last() =~= all.take(i as int));
                assert(decreases_to!(*fields => fields@));
                assert(decreases_to!(fields@ => fields@[i as int]));
                collect_project_keys(&fields[i].1, out);
                i = i + 1;
                assert(project_views(out@) =~= start + own + data_projects_under(
                    all.take(i as int),
                ));
            }
            assert(all.take(i as int) =~= all);
            assert(start + own + data_projects_under(all) =~= start + (own + data_projects_under(
                all,
            )));
        },
        Json::Array(items) => {
            let ghost all = trees(items@);
            proof {
                lemma_trees(items@);
            }
            let mut i: usize = 0;
            assert(project_views(out@) =~= start + data_projects_in(all.take(0)));
            while i < items.len()
                invariant
                    i <= items.len(),
                    *j matches Json::Array(w) && w == *items,
                    all == trees(items@),
                    all.len() == items@.len(),
                    forall|k: int| 0 <= k < items@.len() ==> #[trigger] all[k] == tree(items@[k]),
                    project_views(out@) == start + data_projects_in(all.take(i as int)),
                decreases items.len() - i,
            {
                assert(all.take(i + 1).drop_last() =~= all.take(i as int));
                assert(decreases_to!(*items => items@));
                assert(decreases_to!(items@ => items@[i as int]));
                collect_project_keys(&items[i], out);
                i = i + 1;
                assert(project_views(out@) =~= start + data_projects_in(all.take(i as int)));
            }
            assert(all.take(i as int) =~= all);
        },
        _ => {
            assert(start + data_projects(tree(*j)) =~= start);
        },
    }
}

/// What the `project` keys of the object literals in a source file say.
pub open spec fn source_projects(list: Seq<FindingView>) -> Seq<ProjectView>
    decreases list.len(),
{
    if list.len() == 0 {
        Seq::empty()
    } else {
        let before = source_projects(list.drop_last());
        match list.last() {
            FindingView::Property(key, value) => if key == "project"@ {
                before.push(project_option(value))
            } else {
                before
            },
            _ => before,
        }
    }
}

/// What the `project` keys among some findings say.
pub fn read_source_projects(list: Vec<Finding>) -> (r: Vec<EslintProjectOption>)
    ensures
        project_views(r@) == source_projects(finding_views(list@)),
{
    let ghost all = finding_views(list@);
    let mut list = list;
    let mut out: Vec<EslintProjectOption> = Vec::new();
    let ghost mut n: int = 0;
    assert(project_views(out@) =~= source_projects(all.take(0)));
    while list.len() > 0
        invariant
            0 <= n <= all.len(),
            n + list@.len() == all.len(),
            finding_views(list@) == all.skip(n),
            project_views(out@) == source_projects(all.take(n)),
        decreases list.len(),
    {
        let ghost rest = finding_views(list@);
        let ghost before = project_views(out@);
        let x = list.remove(0);
        proof {
            assert(rest[0] == x@);
            assert(all[n] == all.skip(n)[0]);
            assert(finding_views(list@) =~= rest.drop_first());
            assert(rest.drop_first() =~= all.skip(n + 1));
            assert(all.take(n + 1).drop_last() =~= all.take(n));
        }
        match x {
            Finding::Property { key, value } => {
                if same(key.as_str(), "project") {
                    let option = read_project_option(value);
                    let ghost o = option@;
                    out.push(option);
                    assert(project_views(out@) =~= before.push(o));
                }
            },
            _ => {},
        }
        proof {
            n = n + 1;
        }
    }
    assert(all.take(n) =~= all);
    out
}

/// The extension of a configuration file, empty when it has none.
pub open spec fn config_extension(path: Seq<char>) -> Seq<char> {
    match path_extension(path) {
        Some(e) => e,
        None => Seq::empty(),
    }
}

/// What kind of file a configuration is.
#[derive(Debug, Clone, Copy, PartialEq, Eq, Structural)]
pub enum ConfigKind {
    Json,
    Yaml,
    Source,
}

/// A configuration file is data when its extension says so or when it has none, and source
/// otherwise.
pub open spec fn config_kind(path: Seq<char>) -> ConfigKind {
    let e = config_extension(path);
    if e == "yml"@ || e == "yaml"@ {
        ConfigKind::Yaml
    } else if e == "json"@ || e.len() == 0 {
        ConfigKind::Json
    } else {
        ConfigKind::Source
    }
}

/// What kind of file a configuration is.
pub fn kind_of_config(path: &str) -> (r: ConfigKind)
    ensures
        r == config_kind(path@),
{
    match extension(path) {
        None => {
            proof {
                reveal_strlit("yml");
                reveal_strlit("yaml");
                assert("yml"@.len() == 3);
                assert("yaml"@.len() == 4);
            }
            ConfigKind::Json
        },
        Some(e) => if same(e.as_str(), "yml") || same(e.as_str(), "yaml") {
            ConfigKind::Yaml
        } else if same(e.as_str(), "json") || to_chars(e.as_str()).len() == 0 {
            ConfigKind::Json
        } else {
            ConfigKind::Source
        },
    }
}

/// The tree of a data configuration file.
pub open spec fn config_data(kind: ConfigKind, content: Seq<char>) -> Option<JsonTree> {
    if kind == ConfigKind::Yaml {
        yaml_document(content)
    } else {
        json_document(content)
    }
}

fn read_config_data(kind: ConfigKind, content: &str) -> (r: Option<Json>)
    ensures
        r is Some <==> config_data(kind, content@) is Some,
        r matches Some(j) ==> config_data(kind, content@) == Some(tree(j)),
{
    let read = if kind == ConfigKind::Yaml {
        parse_yaml(content)
    } else {
        parse_json(content)
    };
    match read {
        Ok(j) => Some(j),
        Err(_) => None,
    }
}

/// What the `project` keys of an eslint configuration file say; nothing when it cannot be
/// parsed.
pub open spec fn config_projects(path: Seq<char>, content: Seq<char>) -> Seq<ProjectView> {
    if config_kind(path) == ConfigKind::Source {
        match file_findings(path, content) {
            Some(list) => source_projects(list),
            None => Seq::empty(),
        }
    } else {
        match config_data(config_kind(path), content) {
            Some(t) => data_projects(t),
            None => Seq::empty(),
        }
    }
}

/// Finds whether an eslint configuration file turns type-aware rules on, and with which
/// tsconfig files: what each of its `project` keys says, none when it has none.
pub fn detect_eslint_type_aware(config_path: &str, content: &str) -> (r: Vec<EslintProjectOption>)
    ensures
        project_views(r@) == config_projects(config_path@, content@),
{
    let mut found: Vec<EslintProjectOption> = Vec::new();
    assert(project_views(found@) =~= Seq::<ProjectView>::empty());
    let kind = kind_of_config(config_path);
    if kind == ConfigKind::Source {
        match read_source(config_path, content) {
            Ok(list) => read_source_projects(list),
            Err(_) => found,
        }
    } else {
        match read_config_data(kind, content) {
            Some(j) => {
                collect_project_keys(&j, &mut found);
                assert(project_views(found@) =~= data_projects(tree(j)));
                found
            },
            None => found,
        }
    }
}

/// Which naming rule applies to an entry of an eslint configuration.
#[derive(Debug, Clone, Copy, PartialEq, Eq, PartialOrd, Ord, Structural)]
pub enum EslintRefKind {
    Extends,
    Plugin,
}

/// What the packages of a kind are called.
pub open spec fn kind_infix(kind: EslintRefKind) -> Seq<char> {
    match kind {
        EslintRefKind::Extends => "eslint-config"@,
        EslintRefKind::Plugin => "eslint-plugin"@,
    }
}

/// The package that an entry names by eslint's rule for short names.
pub open spec fn module_name(raw: Seq<char>, kind: EslintRefKind) -> Seq<char>
    decreases raw.len(),
    via module_name_shrinks
{
    let infix = kind_infix(kind);
    if "plugin:"@.is_prefix_of(raw) {
        module_name(upto_char(raw.skip("plugin:"@.len() as int), '/'), EslintRefKind::Plugin)
    } else if raw.len() > 0 && raw[0] == '@' {
        let rest = raw.skip(1);
        if !rest.contains('/') {
            "@"@ + rest + "/"@ + infix
        } else if infix.is_prefix_of(after_char(rest, '/')) {
            raw
        } else {
            "@"@ + upto_char(rest, '/') + "/"@ + infix + "-"@ + after_char(rest, '/')
        }
    } else if (infix + "-"@).is_prefix_of(raw) {
        raw
    } else {
        infix + "-"@ + raw
    }
}

#[via_fn]
proof fn module_name_shrinks(raw: Seq<char>, kind: EslintRefKind) {
    reveal_strlit("plugin:");
    lemma_find_char(raw.skip("plugin:"@.len() as int), '/');
}

/// The package that an `extends` or `plugins` entry names by eslint's rule for short names.
pub fn eslint_module_name(raw: &str, kind: EslintRefKind) -> (r: String)
    ensures
        r@ == module_name(raw@, kind),
    decreases raw@.len(),
{
    match strip_prefix(raw, "plugin:") {
        Some(part) => {
            let name = upto(part.as_str(), '/');
            proof {
                reveal_strlit("plugin:");
                lemma_find_char(part@, '/');
            }
            return eslint_module_name(name.as_str(), EslintRefKind::Plugin);
        },
        None => {},
    }
    let infix = match kind {
        EslintRefKind::Extends => "eslint-config",
        EslintRefKind::Plugin => "eslint-plugin",
    };
    let v = to_chars(raw);
    if v.len() > 0 && v[0] == '@' {
        let rest = from_range(&v, 1, v.len());
        assert(rest@ =~= raw@.skip(1));
        return match split_once(rest.as_str(), '/') {
            None => {
                let mut out = "@".to_owned();
                out.append(rest.as_str());
                out.append("/");
                out.append(infix);
                out
            },
            Some((scope, name)) => {
                if starts_with(name.as_str(), infix) {
                    raw.to_owned()
                } else {
                    let mut out = "@".to_owned();
                    out.append(scope.as_str());
                    out.append("/");
                    out.append(infix);
                    out.append("-");
                    out.append(name.as_str());
                    out
                }
            },
        };
    }
    let mut prefix = infix.to_owned();
    prefix.append("-");
    if starts_with(raw, prefix.as_str()) {
        raw.to_owned()
    } else {
        let mut out = prefix;
        out.append(raw);
        out
    }
}

/// An entry's texts, each with the kind of the key that it stands under.
pub open spec fn tagged(kind: EslintRefKind, list: Seq<Seq<char>>) -> Seq<(
    EslintRefKind,
    Seq<char>,
)> {
    list.map_values(|s: Seq<char>| (kind, s))
}

/// The entries of a key of an object.
pub open spec fn keyed_refs(t: JsonTree, key: Seq<char>, kind: EslintRefKind) -> Seq<(
    EslintRefKind,
    Seq<char>,
)> {
    match field(t, key) {
        Some(v) => tagged(kind, value_texts(data_value(v))),
        None => Seq::empty(),
    }
}

/// The `extends` and `plugins` entries of an object itself.
pub open spec fn own_refs(t: JsonTree) -> Seq<(EslintRefKind, Seq<char>)> {
    keyed_refs(t, "extends"@, EslintRefKind::Extends) + keyed_refs(
        t,
        "plugins"@,
        EslintRefKind::Plugin,
    )
}

/// The `extends` and `plugins` entries of a data document, an object's own before those of its
/// members.
pub open spec fn data_refs(t: JsonTree) -> Seq<(EslintRefKind, Seq<char>)>
    decreases t,
{
    match t {
        JsonTree::Object(ms) => own_refs(t) + data_refs_under(ms),
        JsonTree::Array(items) => data_refs_in(items),
        _ => Seq::empty(),
    }
}

/// The entries among the members of an object.
pub open spec fn data_refs_under(ms: Seq<(Seq<char>, JsonTree)>) -> Seq<(EslintRefKind, Seq<char>)>
    decreases ms,
{
    if ms.len() == 0 {
        Seq::empty()
    } else {
        data_refs_under(ms.drop_last()) + data_refs(ms.last().1)
    }
}

/// The entries among the elements of a list.
pub open spec fn data_refs_in(items: Seq<JsonTree>) -> Seq<(EslintRefKind, Seq<char>)>
    decreases items,
{
    if items.len() == 0 {
        Seq::empty()
    } else {
        data_refs_in(items.drop_last()) + data_refs(items.last())
    }
}

/// Entries as mathematical values.
pub open spec fn ref_views(v: Seq<(EslintRefKind, String)>) -> Seq<(EslintRefKind, Seq<char>)> {
    v.map_values(|p: (EslintRefKind, String)| (p.0, p.1@))
}

/// Adds the texts of a value to a list of entries.
fn push_refs(kind: EslintRefKind, value: &PropertyValue, out: &mut Vec<(EslintRefKind, String)>)
    ensures
        ref_views(final(out)@) == ref_views(old(out)@) + tagged(kind, value_texts(value@)),
{
    let ghost start = ref_views(out@);
    let mut list: Vec<String> = Vec::new();
    assert(texts(list@) =~= Seq::<Seq<char>>::empty());
    push_value_texts(value, &mut list);
    let ghost all = texts(list@);
    assert(all =~= value_texts(value@));
    let mut i: usize = 0;
    assert(ref_views(out@) =~= start + tagged(kind, all.take(0)));
    while i < list.len()
        invariant
            i <= list.len(),
            all == texts(list@),
            ref_views(out@) == start + tagged(kind, all.take(i as int)),
        decreases list.len() - i,
    {
        let ghost before = ref_views(out@);
        out.push((kind, list[i].clone()));
        proof {
            let x = (kind, all[i as int]);
            assert(all[i as int] == list@[i as int]@);
            assert(ref_views(out@) =~= before.push(x));
            assert(tagged(kind, all.take(i + 1)) =~= tagged(kind, all.take(i as int)).push(x));
            assert(start + tagged(kind, all.take(i + 1)) =~= (start + tagged(
                kind,
                all.take(i as int),
            )).push(x));
        }
        i = i + 1;
    }
    assert(all.take(i as int) =~= all);
}

fn push_keyed_refs(
    j: &Json,
    key: &str,
    kind: EslintRefKind,
    out: &mut Vec<(EslintRefKind, String)>,
)
    ensures
        ref_views(final(out)@) == ref_views(old(out)@) + keyed_refs(tree(*j), key@, kind),
{
    let ghost start = ref_views(out@);
    match j.get(key) {
        Some(v) => push_refs(kind, &read_data_value(v), out),
        None => {
            assert(start + keyed_refs(tree(*j), key@, kind) =~= start);
        },
    }
}

/// Adds the `extends` and `plugins` entries of a data document.
pub fn collect_eslint_ref_values(j: &Json, out: &mut Vec<(EslintRefKind, String)>)
    ensures
        ref_views(final(out)@) == ref_views(old(out)@) + data_refs(tree(*j)),
    decreases *j,
{
    let ghost start = ref_views(out@);
    match j {
        Json::Object(fields) => {
            push_keyed_refs(j, "extends", EslintRefKind::Extends, out);
            push_keyed_refs(j, "plugins", EslintRefKind::Plugin, out);
            let ghost own = own_refs(tree(*j));
            let ghost all = members(fields@);
            proof {
                lemma_members(fields@);
            }
            let mut i: usize = 0;
            assert(ref_views(out@) =~= start + own + data_refs_under(all.take(0)));
            while i < fields.len()
                invariant
                    i <= fields.len(),
                    *j matches Json::Object(w) && w == *fields,
                    all == members(fields@),
                    all.len() == fields@.len(),
                    forall|k: int|
                        0 <= k < fields@.len() ==> #[trigger] all[k] == (
                            fields@[k].0@,
                            tree(fields@[k].1),
                        ),
                    ref_views(out@) == start + own + data_refs_under(all.take(i as int)),
                decreases fields.len() - i,
            {
                assert(all.take(i + 1).drop_last() =~= all.take(i as int));
                assert(decreases_to!(*fields => fields@));
                assert(decreases_to!(fields@ => fields@[i as int]));
                collect_eslint_ref_values(&fields[i].1, out);
                i = i + 1;
                assert(ref_views(out@) =~= start + own + data_refs_under(all.take(i as int)));
            }
            assert(all.take(i as int) =~= all);
            assert(start + own + data_refs_under(all) =~= start + (own + data_refs_under(all)));
        },
        Json::Array(items) => {
            let ghost all = trees(items@);
            proof {
                lemma_trees(items@);
            }
            let mut i: usize = 0;
            assert(ref_views(out@) =~= start + data_refs_in(all.take(0)));
            while i < items.len()
                invariant
                    i <= items.len(),
                    *j matches Json::Array(w) && w == *items,
                    all == trees(items@),
                    all.len() == items@.len(),
                    forall|k: int| 0 <= k < items@.len() ==> #[trigger] all[k] == tree(items@[k]),
                    ref_views(out@) == start + data_refs_in(all.take(i as int)),
                decreases items.len() - i,
            {
                assert(all.take(i + 1).drop_last() =~= all.take(i as int));
                assert(decreases_to!(*items => items@));
                assert(decreases_to!(items@ => items@[i as int]));
                collect_eslint_ref_values(&items[i], out);
                i = i + 1;
                assert(ref_views(out@) =~= start + data_refs_in(all.take(i as int)));
            }
            assert(all.take(i as int) =~= all);
        },
        _ => {
            assert(start + data_refs(tree(*j)) =~= start);
        },
    }
}

/// The `extends` and `plugins` entries of the object literals in a source file.
pub open spec fn source_refs(list: Seq<FindingView>) -> Seq<(EslintRefKind, Seq<char>)>
    decreases list.len(),
{
    if list.len() == 0 {
        Seq::empty()
    } else {
        let before = source_refs(list.drop_last());
        match list.last() {
            FindingView::Property(key, value) => if key == "extends"@ {
                before + tagged(EslintRefKind::Extends, value_texts(value))
            } else if key == "plugins"@ {
                before + tagged(EslintRefKind::Plugin, value_texts(value))
            } else {
                before
            },
            _ => before,
        }
    }
}

/// The `extends` and `plugins` entries among some findings.
pub fn read_source_refs(list: &Vec<Finding>) -> (r: Vec<(EslintRefKind, String)>)
    ensures
        ref_views(r@) == source_refs(finding_views(list@)),
{
    let ghost all = finding_views(list@);
    let mut out: Vec<(EslintRefKind, String)> = Vec::new();
    let mut i: usize = 0;
    assert(ref_views(out@) =~= source_refs(all.take(0)));
    while i < list.len()
        invariant
            i <= list.len(),
            all == finding_views(list@),
            ref_views(out@) == source_refs(all.take(i as int)),
        decreases list.len() - i,
    {
        proof {
            assert(all.take(i + 1).drop_last() =~= all.take(i as int));
            assert(all.take(i + 1).last() == list@[i as int]@);
        }
        match &list[i] {
            Finding::Property { key, value } => {
                if same(key.as_str(), "extends") {
                    push_refs(EslintRefKind::Extends, value, &mut out);
                } else if same(key.as_str(), "plugins") {
                    push_refs(EslintRefKind::Plugin, value, &mut out);
                }
            },
            _ => {},
        }
        i = i + 1;
    }
    assert(all.take(i as int) =~= all);
    out
}

/// The `extends` and `plugins` entries of an eslint configuration file; none when it cannot be
/// parsed.
pub open spec fn config_refs(path: Seq<char>, content: Seq<char>) -> Seq<(
    EslintRefKind,
    Seq<char>,
)> {
    if config_kind(path) == ConfigKind::Source {
        match file_findings(path, content) {
            Some(list) => source_refs(list),
            None => Seq::empty(),
        }
    } else {
        match config_data(config_kind(path), content) {
            Some(t) => data_refs(t),
            None => Seq::empty(),
        }
    }
}

fn read_config_refs(path: &str, content: &str) -> (r: Vec<(EslintRefKind, String)>)
    ensures
        ref_views(r@) == config_refs(path@, content@),
{
    let mut out: Vec<(EslintRefKind, String)> = Vec::new();
    assert(ref_views(out@) =~= Seq::<(EslintRefKind, Seq<char>)>::empty());
    let kind = kind_of_config(path);
    if kind == ConfigKind::Source {
        match read_source(path, content) {
            Ok(list) => read_source_refs(&list),
            Err(_) => out,
        }
    } else {
        match read_config_data(kind, content) {
            Some(j) => {
                collect_eslint_ref_values(&j, &mut out);
                assert(ref_views(out@) =~= data_refs(tree(j)));
                out
            },
            None => out,
        }
    }
}

/// Whether a configuration file is a flat one, told by its name.
pub open spec fn is_flat(path: Seq<char>) -> bool {
    match base_name(path) {
        Some(name) => "eslint.config"@.is_prefix_of(name),
        None => false,
    }
}

fn is_flat_config(path: &str) -> (r: bool)
    ensures
        r == is_flat(path@),
{
    match file_name(path) {
        Some(name) => starts_with(name.as_str(), "eslint.config"),
        None => false,
    }
}

/// Whether an entry names a package: it is no path, and none of eslint's own sets of rules.
pub open spec fn names_package(raw: Seq<char>) -> bool {
    !(raw.len() > 0 && (raw[0] == '.' || raw[0] == '/')) && raw != "eslint:recommended"@ && raw
        != "eslint:all"@
}

/// The packages that some entries name, in order.
pub open spec fn named_modules(list: Seq<(EslintRefKind, Seq<char>)>) -> Seq<Seq<char>>
    decreases list.len(),
{
    if list.len() == 0 {
        Seq::empty()
    } else {
        let before = named_modules(list.drop_last());
        let (kind, raw) = list.last();
        if names_package(raw) {
            before.push(module_name(raw, kind))
        } else {
            before
        }
    }
}

/// The packages that some sites name.
pub open spec fn bare_packages(sites: Seq<SiteView>) -> Set<Seq<char>>
    decreases sites.len(),
{
    if sites.len() == 0 {
        Set::empty()
    } else {
        let before = bare_packages(sites.drop_last());
        match bare_package(sites.last().specifier) {
            Some(name) => before.insert(name),
            None => before,
        }
    }
}

/// The packages that the imports of a source file name, in increasing order.
pub open spec fn imported_packages(path: Seq<char>, content: Seq<char>) -> Seq<Seq<char>> {
    match file_findings(path, content) {
        Some(list) => listing(bare_packages(sites_among(list))),
        None => Seq::empty(),
    }
}

/// The packages that the imports of a flat configuration file name, in increasing order; none
/// when it cannot be parsed.
pub fn extract_flat_config_bare_imports(config_path: &str, content: &str) -> (r: Vec<String>)
    ensures
        texts(r@) == imported_packages(config_path@, content@),
{
    match read_source(config_path, content) {
        Err(_) => {
            let none: Vec<String> = Vec::new();
            assert(texts(none@) =~= Seq::<Seq<char>>::empty());
            none
        },
        Ok(list) => {
            let imports = imports_among(list);
            let sites = &imports.sites;
            let ghost all = site_views(sites@);
            let mut names = StrSet::new();
            let mut i: usize = 0;
            assert(names@ =~= bare_packages(all.take(0)));
            while i < sites.len()
                invariant
                    i <= sites.len(),
                    all == site_views(sites@),
                    names@ == bare_packages(all.take(i as int)),
                decreases sites.len() - i,
            {
                proof {
                    assert(all.take(i + 1).drop_last() =~= all.take(i as int));
                    assert(all.take(i + 1).last() == sites@[i as int]@);
                }
                match bare_specifier_package_name(sites[i].specifier.as_str()) {
                    Some(name) => {
                        let added = names.insert(name);
                    },
                    None => {},
                }
                i = i + 1;
            }
            assert(all.take(i as int) =~= all);
            names.facts();
            names.into_items()
        },
    }
}

/// The packages that an eslint configuration file refers to.
pub open spec fn config_modules(path: Seq<char>, content: Seq<char>) -> Seq<Seq<char>> {
    if is_flat(path) {
        imported_packages(path, content)
    } else {
        named_modules(config_refs(path, content))
    }
}

/// Finds the packages that an eslint configuration file refers to: a flat one by what it
/// imports, any other by its `extends` and `plugins` entries.
pub fn extract_eslint_module_refs(config_path: &str, content: &str) -> (r: Vec<String>)
    ensures
        texts(r@) == config_modules(config_path@, content@),
{
    if is_flat_config(config_path) {
        return extract_flat_config_bare_imports(config_path, content);
    }
    let list = read_config_refs(config_path, content);
    let ghost all = ref_views(list@);
    let mut out: Vec<String> = Vec::new();
    let mut i: usize = 0;
    assert(texts(out@) =~= named_modules(all.take(0)));
    while i < list.len()
        invariant
            i <= list.len(),
            all == ref_views(list@),
            texts(out@) == named_modules(all.take(i as int)),
        decreases list.len() - i,
    {
        let ghost before = texts(out@);
        let raw = list[i].1.as_str();
        proof {
            assert(all.take(i + 1).drop_last() =~= all.take(i as int));
            assert(all.take(i + 1).last() == (list@[i as int].0, raw@));
        }
        let v = to_chars(raw);
        let is_path = v.len() > 0 && (v[0] == '.' || v[0] == '/');
        if !is_path && !same(raw, "eslint:recommended") && !same(raw, "eslint:all") {
            let name = eslint_module_name(raw, list[i].0);
            let ghost x = name@;
            out.push(name);
            assert(texts(out@) =~= before.push(x));
        }
        i = i + 1;
    }
    assert(all.take(i as int) =~= all);
    out
}

/// The entries that are relative paths.
pub open spec fn relative_refs(list: Seq<(EslintRefKind, Seq<char>)>) -> Seq<Seq<char>>
    decreases list.len(),
{
    if list.len() == 0 {
        Seq::empty()
    } else {
        let before = relative_refs(list.drop_last());
        let raw = list.last().1;
        if raw.len() > 0 && raw[0] == '.' {
            before.push(raw)
        } else {
            before
        }
    }
}

/// The relative paths among the `extends` and `plugins` entries of a configuration file that
/// is not a flat one.
pub open spec fn config_relative_refs(path: Seq<char>, content: Seq<char>) -> Seq<Seq<char>> {
    if is_flat(path) {
        Seq::empty()
    } else {
        relative_refs(config_refs(path, content))
    }
}

/// Finds the relative paths among the `extends` and `plugins` entries of a configuration file;
/// a flat one has none.
pub fn extract_eslint_relative_ref_values(config_path: &str, content: &str) -> (r: Vec<String>)
    ensures
        texts(r@) == config_relative_refs(config_path@, content@),
{
    let mut out: Vec<String> = Vec::new();
    assert(texts(out@) =~= Seq::<Seq<char>>::empty());
    if is_flat_config(config_path) {
        return out;
    }
    let list = read_config_refs(config_path, content);
    let ghost all = ref_views(list@);
    let mut i: usize = 0;
    assert(texts(out@) =~= relative_refs(all.take(0)));
    while i < list.len()
        invariant
            i <= list.len(),
            all == ref_views(list@),
            texts(out@) == relative_refs(all.take(i as int)),
        decreases list.len() - i,
    {
        let ghost before = texts(out@);
        let raw = list[i].1.as_str();
        proof {
            assert(all.take(i + 1).drop_last() =~= all.take(i as int));
            assert(all.take(i + 1).last() == (list@[i as int].0, raw@));
        }
        let v = to_chars(raw);
        if v.len() > 0 && v[0] == '.' {
            out.push(raw.to_owned());
            assert(texts(out@) =~= before.push(raw@));
        }
        i = i + 1;
    }
    assert(all.take(i as int) =~= all);
    out
}

/// A scan after some relative entries of a configuration file in the directory `dir`.
pub open spec fn after_refs(
    fs: FilesView,
    dir: Seq<char>,
    raws: Seq<Seq<char>>,
    s: ScanView,
) -> ScanView
    decreases raws.len(),
{
    if raws.len() == 0 {
        s
    } else {
        let before = after_refs(fs, dir, raws.drop_last(), s);
        match first_file(fs, probes(under(dir, raws.last()))) {
            Some(p) => met(fs, before, p),
            None => before,
        }
    }
}

/// A scan after the relative entries of some configuration files.
pub open spec fn after_configs(
    fs: FilesView,
    files: Seq<(Seq<char>, Seq<char>)>,
    s: ScanView,
) -> ScanView
    decreases files.len(),
{
    if files.len() == 0 {
        s
    } else {
        let (path, content) = files.last();
        after_refs(
            fs,
            config_dir(path),
            config_relative_refs(path, content),
            after_configs(fs, files.drop_last(), s),
        )
    }
}

/// A scan that goes on for at most `depth` more rounds, each over the configuration files that
/// the round before it found.
pub open spec fn after_config_rounds(fs: FilesView, s: ScanView, depth: nat) -> ScanView
    decreases depth,
{
    if depth == 0 {
        s
    } else {
        after_config_rounds(
            fs,
            after_configs(fs, s.next, ScanView { next: Seq::empty(), ..s }),
            (depth - 1) as nat,
        )
    }
}

/// Where the scan of an eslint configuration file starts: with what its imports lead to
/// already found.
pub open spec fn eslint_start(fs: FilesView, path: Seq<char>, content: Seq<char>) -> ScanView {
    let found = config_scan(fs, path, content).found;
    ScanView {
        seen: found.dom().insert(path_key(path)),
        found,
        bare: Seq::empty(),
        next: seq![(path, content)],
    }
}

/// What the scan of an eslint configuration file finds.
pub open spec fn eslint_files(fs: FilesView, path: Seq<char>, content: Seq<char>) -> Map<
    Seq<char>,
    Seq<char>,
> {
    after_config_rounds(
        fs,
        eslint_start(fs, path, content),
        crate::config_scan::MAX_CONFIG_DEPTH as nat,
    ).found
}

fn take_refs(scan: &mut Scan, files: &FileTree, dir: &str, raws: &Vec<String>)
    ensures
        final(scan).state() == after_refs(files@, dir@, texts(raws@), old(scan).state()),
{
    let ghost all = texts(raws@);
    let ghost s = scan.state();
    let mut i: usize = 0;
    assert(all.take(0).len() == 0);
    while i < raws.len()
        invariant
            i <= raws.len(),
            all == texts(raws@),
            scan.state() == after_refs(files@, dir@, all.take(i as int), s),
        decreases raws.len() - i,
    {
        proof {
            assert(all.take(i + 1).drop_last() =~= all.take(i as int));
            assert(all.take(i + 1).last() == raws@[i as int]@);
        }
        match probe_first_party_path(files, join_path(dir, raws[i].as_str()).as_str()) {
            Some(p) => scan.meet(files, p),
            None => {},
        }
        i = i + 1;
    }
    assert(all.take(i as int) =~= all);
}

fn take_config_round(scan: &mut Scan, files: &FileTree)
    ensures
        final(scan).state() == after_configs(
            files@,
            old(scan).state().next,
            (ScanView { next: Seq::empty(), ..old(scan).state() }),
        ),
{
    let ghost s = scan.state();
    let mut list: Vec<(String, String)> = Vec::new();
    std::mem::swap(&mut list, &mut scan.next);
    let ghost all = pair_texts(list@);
    let ghost start = ScanView { next: Seq::empty(), ..s };
    proof {
        assert(pair_texts(scan.next@) =~= Seq::<(Seq<char>, Seq<char>)>::empty());
        assert(scan.state() == start);
        assert(all.take(0).len() == 0);
    }
    let mut i: usize = 0;
    while i < list.len()
        invariant
            i <= list.len(),
            all == pair_texts(list@),
            scan.state() == after_configs(files@, all.take(i as int), start),
        decreases list.len() - i,
    {
        let path = list[i].0.as_str();
        proof {
            assert(all.take(i + 1).drop_last() =~= all.take(i as int));
            assert(all.take(i + 1).last() == (path@, list@[i as int].1@));
        }
        let dir = match parent(path) {
            Some(d) => d,
            None => {
                let none = String::new();
                assert(none@ =~= Seq::<char>::empty());
                none
            },
        };
        let raws = extract_eslint_relative_ref_values(path, list[i].1.as_str());
        take_refs(scan, files, dir.as_str(), &raws);
        i = i + 1;
    }
    assert(all.take(i as int) =~= all);
}

/// Finds the files that an eslint configuration file refers to, and those that these in turn
/// refer to: by relative imports, and by relative `extends` and `plugins` entries. They come
/// in the order of paths.
pub fn resolve_eslint_config_referenced_files(
    files: &FileTree,
    config_path: &str,
    config_content: &str,
) -> (r: Vec<String>)
    ensures
        texts(r@) == paths_in_order(eslint_files(files@, config_path@, config_content@)),
{
    let mut scan = crate::config_scan::scan_of(files, config_path, config_content);
    let ghost found = config_scan(files@, config_path@, config_content@).found;
    let mut seen = StrSet::new();
    let added = seen.insert(key_of_path(config_path));
    scan.found.facts();
    let ghost keys = scan.found.keys();
    let mut i: usize = 0;
    assert(seen@ =~= keys.take(0).to_set().insert(path_key(config_path@)));
    while i < scan.found.len()
        invariant
            i <= keys.len(),
            keys == scan.found.keys(),
            seen@ == keys.take(i as int).to_set().insert(path_key(config_path@)),
        decreases keys.len() - i,
    {
        let ghost before = seen@;
        let added = seen.insert(scan.found.key_at(i).clone());
        proof {
            let t = keys.take(i + 1);
            assert(t =~= keys.take(i as int).push(keys[i as int]));
            assert forall|k: Seq<char>| t.to_set().contains(k) <==> keys.take(
                i as int,
            ).to_set().contains(k) || k == keys[i as int] by {
                let h = keys.take(i as int);
                assert(t[i as int] == keys[i as int]);
                if h.contains(k) {
                    let m = choose|m: int| 0 <= m < h.len() && h[m] == k;
                    assert(t[m] == k);
                }
                if t.contains(k) {
                    let m = choose|m: int| 0 <= m < t.len() && t[m] == k;
                    if m < i {
                        assert(h[m] == k);
                    }
                }
            }
            assert(seen@ =~= t.to_set().insert(path_key(config_path@)));
        }
        i = i + 1;
    }
    assert(keys.take(i as int) =~= keys);
    scan.seen = seen;
    scan.bare = Vec::new();
    scan.next = Vec::new();
    scan.next.push((config_path.to_owned(), config_content.to_owned()));
    let ghost start = scan.state();
    proof {
        assert(crate::config_scan::bare_views(scan.bare@) =~= Seq::<
            crate::config_scan::BareView,
        >::empty());
        assert(pair_texts(scan.next@) =~= seq![(config_path@, config_content@)]);
        assert(start == eslint_start(files@, config_path@, config_content@));
    }
    let mut left: usize = crate::config_scan::MAX_CONFIG_DEPTH;
    while left > 0
        invariant
            after_config_rounds(files@, scan.state(), left as nat) == after_config_rounds(
                files@,
                start,
                crate::config_scan::MAX_CONFIG_DEPTH as nat,
            ),
        decreases left,
    {
        take_config_round(&mut scan, files);
        left = left - 1;
    }
    list_paths(&scan.found)
}

/// An entry is a file or a package, never both: a relative path adds a file and no package, an
/// entry that names a package adds that package and no file.
pub proof fn an_entry_is_a_file_or_a_package(
    list: Seq<(EslintRefKind, Seq<char>)>,
    kind: EslintRefKind,
    raw: Seq<char>,
)
    ensures
        raw.len() > 0 && raw[0] == '.' ==> named_modules(list.push((kind, raw))) == named_modules(
            list,
        ) && relative_refs(list.push((kind, raw))) == relative_refs(list).push(raw),
        names_package(raw) ==> named_modules(list.push((kind, raw))) == named_modules(list).push(
            module_name(raw, kind),
        ) && relative_refs(list.push((kind, raw))) == relative_refs(list),
{
    assert(list.push((kind, raw)).drop_last() =~= list);
}

/// Naming a package by eslint's rule names the same package again: an entry that is the full
/// name of a package stays as it is.
pub proof fn full_names_stay(raw: Seq<char>, kind: EslintRefKind)
    requires
        !"plugin:"@.is_prefix_of(raw),
    ensures
        module_name(module_name(raw, kind), kind) == module_name(raw, kind),
{
    reveal_strlit("plugin:");
    reveal_strlit("eslint-config");
    reveal_strlit("eslint-plugin");
    reveal_strlit("@");
    reveal_strlit("/");
    reveal_strlit("-");
    let infix = kind_infix(kind);
    let n = module_name(raw, kind);
    assert(infix[0] == 'e');
    assert("plugin:"@[0] == 'p');
    if raw.len() > 0 && raw[0] == '@' {
        let rest = raw.skip(1);
        lemma_find_char(rest, '/');
        assert(n[0] == '@');
        let u = n.skip(1);
        if !rest.contains('/') {
            assert(u =~= rest + "/"@ + infix);
            assert(u[rest.len() as int] == '/');
            assert(u.contains('/'));
            assert forall|j: int| 0 <= j < rest.len() implies u[j] != '/' by {
                assert(u[j] == rest[j]);
                assert(rest.contains(rest[j]));
            }
            crate::text::lemma_find_char_is(u, '/', rest.len() as int);
            assert(after_char(u, '/') =~= infix);
            assert(infix.is_prefix_of(infix));
        } else if infix.is_prefix_of(after_char(rest, '/')) {
        } else {
            let scope = upto_char(rest, '/');
            let name = after_char(rest, '/');
            assert(u =~= scope + "/"@ + infix + "-"@ + name);
            assert(u[scope.len() as int] == '/');
            assert(u.contains('/'));
            assert forall|j: int| 0 <= j < scope.len() implies u[j] != '/' by {
                assert(u[j] == rest[j]);
            }
            crate::text::lemma_find_char_is(u, '/', scope.len() as int);
            assert(after_char(u, '/') =~= infix + "-"@ + name);
            assert(infix.is_prefix_of(infix + "-"@ + name)) by {
                assert((infix + "-"@ + name).take(infix.len() as int) =~= infix);
            }
        }
    } else if !(infix + "-"@).is_prefix_of(raw) {
        assert(n[0] == 'e');
        assert(n.take((infix + "-"@).len() as int) =~= infix + "-"@);
    }
}

} // verus!
