//! Which statements and expressions of a source file name a module, whatever surrounds them.
use crate::importparse::{dynamic_among, sites_among};
use crate::json::{field, JsonTree};
use crate::source::{
    elements, findings, findings_in, findings_under, in_order, literal_text, own_findings,
    properties, property_value, source_findings, FindingView, ModuleContext, SiteView, ValueView,
};
use crate::source_laws::{
    dynamic_imports_are_counted, nested_imports_are_imports, nothing_nested_is_missed,
    ordering_keeps_every_finding, tree_at,
};
use vstd::prelude::*;
use vstd::seq_lib::group_to_multiset_ensures;

verus! {

/// Whether a node is of a kind.
pub open spec fn has_kind(t: JsonTree, kind: Seq<char>) -> bool {
    t is Object && field(t, "type"@) == Some(JsonTree::Str(kind))
}

/// Whether a value is a literal that holds the text.
pub open spec fn is_text(t: Option<JsonTree>, s: Seq<char>) -> bool {
    t matches Some(l) && field(l, "type"@) == Some(JsonTree::Str("Literal"@)) && field(l, "value"@)
        == Some(JsonTree::Str(s))
}

/// Whether a value is no literal that holds a text.
pub open spec fn is_no_text(t: Option<JsonTree>) -> bool {
    forall|s: Seq<char>| !is_text(t, s)
}

/// Whether a call is one of `require` with exactly one argument, a literal that holds the text.
pub open spec fn requires_text(t: JsonTree, s: Seq<char>) -> bool {
    &&& field(t, "callee"@) matches Some(callee) && field(callee, "type"@) == Some(
        JsonTree::Str("Identifier"@),
    ) && field(callee, "name"@) == Some(JsonTree::Str("require"@))
    &&& field(t, "arguments"@) matches Some(JsonTree::Array(items)) && items.len() == 1 && is_text(
        Some(items[0]),
        s,
    )
}

/// The kinds of nodes that name modules are told apart by their names.
proof fn lemma_kinds()
    ensures
        "ImportDeclaration"@.len() == 17,
        "ExportNamedDeclaration"@.len() == 22,
        "ExportAllDeclaration"@.len() == 20,
        "CallExpression"@.len() == 14,
        "ImportExpression"@.len() == 16,
        "ObjectExpression"@.len() == 16,
        "ImportExpression"@[0] == 'I',
        "ObjectExpression"@[0] == 'O',
{
    reveal_strlit("ImportDeclaration");
    reveal_strlit("ExportNamedDeclaration");
    reveal_strlit("ExportAllDeclaration");
    reveal_strlit("CallExpression");
    reveal_strlit("ImportExpression");
    reveal_strlit("ObjectExpression");
}

/// An import declaration names the module that it imports from, by the rules of ES modules: its
/// types where it says so, and else values.
pub proof fn import_declarations_name_their_module(t: JsonTree, path: Seq<int>, s: Seq<char>)
    requires
        tree_at(t, path) matches Some(n) && has_kind(n, "ImportDeclaration"@) && is_text(
            field(n, "source"@),
            s,
        ),
    ensures
        sites_among(source_findings(t)).contains(
            SiteView {
                specifier: s,
                context: ModuleContext::Esm,
                type_only: field(tree_at(t, path)->0, "importKind"@) == Some(
                    JsonTree::Str("type"@),
                ),
            },
        ),
{
    lemma_kinds();
    let n = tree_at(t, path)->0;
    let own = own_findings(n);
    assert(own.contains(own[0]));
    nested_imports_are_imports(t, path, own[0].0, own[0].1->Site_0);
}

/// An export that names a module names it in the same way, be it of some names or of all.
pub proof fn exports_name_their_module(t: JsonTree, path: Seq<int>, s: Seq<char>)
    requires
        tree_at(t, path) matches Some(n) && (has_kind(n, "ExportNamedDeclaration"@) || has_kind(
            n,
            "ExportAllDeclaration"@,
        )) && is_text(field(n, "source"@), s),
    ensures
        sites_among(source_findings(t)).contains(
            SiteView {
                specifier: s,
                context: ModuleContext::Esm,
                type_only: field(tree_at(t, path)->0, "exportKind"@) == Some(
                    JsonTree::Str("type"@),
                ),
            },
        ),
{
    lemma_kinds();
    let n = tree_at(t, path)->0;
    let own = own_findings(n);
    assert(own.contains(own[0]));
    nested_imports_are_imports(t, path, own[0].0, own[0].1->Site_0);
}

/// A call of `require` with one text names a value by the rules of CommonJS.
pub proof fn require_calls_name_their_module(t: JsonTree, path: Seq<int>, s: Seq<char>)
    requires
        tree_at(t, path) matches Some(n) && has_kind(n, "CallExpression"@) && requires_text(n, s),
    ensures
        sites_among(source_findings(t)).contains(
            SiteView { specifier: s, context: ModuleContext::Cjs, type_only: false },
        ),
{
    lemma_kinds();
    let n = tree_at(t, path)->0;
    let own = own_findings(n);
    assert(own.contains(own[0]));
    nested_imports_are_imports(t, path, own[0].0, own[0].1->Site_0);
}

/// A dynamic import of a text names a value by the rules of ES modules.
pub proof fn dynamic_imports_name_their_module(t: JsonTree, path: Seq<int>, s: Seq<char>)
    requires
        tree_at(t, path) matches Some(n) && has_kind(n, "ImportExpression"@) && is_text(
            field(n, "source"@),
            s,
        ),
    ensures
        sites_among(source_findings(t)).contains(
            SiteView { specifier: s, context: ModuleContext::Esm, type_only: false },
        ),
{
    lemma_kinds();
    let n = tree_at(t, path)->0;
    let own = own_findings(n);
    assert(own.contains(own[0]));
    nested_imports_are_imports(t, path, own[0].0, own[0].1->Site_0);
}

/// A dynamic import of anything else counts as one that is not resolved.
pub proof fn dynamic_imports_of_no_text_are_counted(t: JsonTree, path: Seq<int>)
    requires
        tree_at(t, path) matches Some(n) && has_kind(n, "ImportExpression"@) && is_no_text(
            field(n, "source"@),
        ),
    ensures
        dynamic_among(source_findings(t)) > 0,
{
    lemma_kinds();
    let n = tree_at(t, path)->0;
    let own = own_findings(n);
    if let Some(l) = field(n, "source"@) {
        if literal_text(l) is Some {
            assert(is_text(field(n, "source"@), literal_text(l)->0));
        }
    }
    assert(own[0].1 == FindingView::Dynamic);
    assert(own.contains(own[0]));
    dynamic_imports_are_counted(t, path, own[0].0);
}

proof fn lemma_from_list(items: Seq<JsonTree>, x: (u64, FindingView)) -> (at: (int, Seq<int>))
    requires
        findings_in(items).contains(x),
    ensures
        0 <= at.0 < items.len(),
        tree_at(items[at.0], at.1) matches Some(n) && n is Object && own_findings(n).contains(x),
    decreases items, 0int,
{
    let rest = items.drop_last();
    let here = findings(items.last());
    let all = findings_in(items);
    let k = choose|k: int| 0 <= k < all.len() && all[k] == x;
    if k < findings_in(rest).len() {
        assert(findings_in(rest)[k] == x);
        lemma_from_list(rest, x)
    } else {
        assert(here[k - findings_in(rest).len()] == x);
        let path = every_finding_stands_somewhere(items.last(), x);
        (items.len() - 1, path)
    }
}

proof fn lemma_from_object(ms: Seq<(Seq<char>, JsonTree)>, x: (u64, FindingView)) -> (at: (
    int,
    Seq<int>,
))
    requires
        findings_under(ms).contains(x),
    ensures
        0 <= at.0 < ms.len(),
        tree_at(ms[at.0].1, at.1) matches Some(n) && n is Object && own_findings(n).contains(x),
    decreases ms, 0int,
{
    let rest = ms.drop_last();
    let here = findings(ms.last().1);
    let all = findings_under(ms);
    let k = choose|k: int| 0 <= k < all.len() && all[k] == x;
    if k < findings_under(rest).len() {
        assert(findings_under(rest)[k] == x);
        lemma_from_object(rest, x)
    } else {
        assert(here[k - findings_under(rest).len()] == x);
        let path = every_finding_stands_somewhere(ms.last().1, x);
        (ms.len() - 1, path)
    }
}

/// Whatever is found is what some node of the tree itself is.
pub proof fn every_finding_stands_somewhere(t: JsonTree, x: (u64, FindingView)) -> (path: Seq<int>)
    requires
        findings(t).contains(x),
    ensures
        tree_at(t, path) matches Some(n) && n is Object && own_findings(n).contains(x),
    decreases t, 1int,
{
    match t {
        JsonTree::Array(items) => {
            let (i, path) = lemma_from_list(items, x);
            let whole = seq![i] + path;
            assert(whole.drop_first() =~= path);
            whole
        },
        JsonTree::Object(ms) => {
            let own = own_findings(t);
            let all = findings(t);
            let k = choose|k: int| 0 <= k < all.len() && all[k] == x;
            if k < own.len() {
                assert(own[k] == x);
                Seq::empty()
            } else {
                assert(findings_under(ms)[k - own.len()] == x);
                let (i, path) = lemma_from_object(ms, x);
                let whole = seq![i] + path;
                assert(whole.drop_first() =~= path);
                whole
            }
        },
        _ => Seq::empty(),
    }
}

proof fn lemma_site_found(list: Seq<FindingView>, s: SiteView)
    requires
        sites_among(list).contains(s),
    ensures
        list.contains(FindingView::Site(s)),
    decreases list.len(),
{
    let rest = list.drop_last();
    let before = sites_among(rest);
    let now = sites_among(list);
    let k = choose|k: int| 0 <= k < now.len() && now[k] == s;
    if k < before.len() {
        assert(before[k] == s);
        lemma_site_found(rest, s);
        let i = choose|i: int| 0 <= i < rest.len() && rest[i] == FindingView::Site(s);
        assert(list[i] == FindingView::Site(s));
    } else {
        assert(list[list.len() - 1] == FindingView::Site(s));
    }
}

proof fn lemma_no_site_among_properties(items: Seq<JsonTree>, x: (u64, FindingView))
    requires
        properties(items).contains(x),
    ensures
        x.1 is Property,
    decreases items.len(),
{
    let rest = items.drop_last();
    let before = properties(rest);
    let now = properties(items);
    let k = choose|k: int| 0 <= k < now.len() && now[k] == x;
    if k < before.len() {
        assert(before[k] == x);
        lemma_no_site_among_properties(rest, x);
    }
}

/// Whether a node names a module in the way of a site: by an import or an export of ES modules,
/// by a `require`, or by a dynamic import.
pub open spec fn names_module(n: JsonTree, s: SiteView) -> bool {
    ||| has_kind(n, "ImportDeclaration"@) && is_text(field(n, "source"@), s.specifier) && s.context
        == ModuleContext::Esm && (s.type_only <==> field(n, "importKind"@) == Some(
        JsonTree::Str("type"@),
    ))
    ||| (has_kind(n, "ExportNamedDeclaration"@) || has_kind(n, "ExportAllDeclaration"@)) && is_text(
        field(n, "source"@),
        s.specifier,
    ) && s.context == ModuleContext::Esm && (s.type_only <==> field(n, "exportKind"@) == Some(
        JsonTree::Str("type"@),
    ))
    ||| has_kind(n, "CallExpression"@) && requires_text(n, s.specifier) && s.context
        == ModuleContext::Cjs && !s.type_only
    ||| has_kind(n, "ImportExpression"@) && is_text(field(n, "source"@), s.specifier) && s.context
        == ModuleContext::Esm && !s.type_only
}

/// Nothing else names a module: every site of a file is one of those statements or expressions.
pub proof fn only_such_nodes_name_modules(t: JsonTree, s: SiteView) -> (path: Seq<int>)
    requires
        sites_among(source_findings(t)).contains(s),
    ensures
        tree_at(t, path) matches Some(n) && names_module(n, s),
{
    broadcast use group_to_multiset_ensures;

    lemma_kinds();
    let list = source_findings(t);
    lemma_site_found(list, s);
    let k = choose|k: int| 0 <= k < list.len() && list[k] == FindingView::Site(s);
    let placed = in_order(findings(t));
    let x = placed[k];
    assert(x.1 == FindingView::Site(s));
    ordering_keeps_every_finding(findings(t));
    assert(placed.to_multiset().count(x) > 0);
    assert(findings(t).contains(x));
    let path = every_finding_stands_somewhere(t, x);
    let n = tree_at(t, path)->0;
    let own = own_findings(n);
    let i = choose|i: int| 0 <= i < own.len() && own[i] == x;
    if has_kind(n, "ObjectExpression"@) {
        lemma_no_site_among_properties(elements(n, "properties"@), x);
    }
    path
}

proof fn lemma_property(items: Seq<JsonTree>, i: int, key: Seq<char>, value: JsonTree) -> (at: u64)
    requires
        0 <= i < items.len(),
        has_kind(items[i], "Property"@),
        field(items[i], "value"@) == Some(value),
        is_text(field(items[i], "key"@), key) || (field(items[i], "computed"@) != Some(
            JsonTree::Bool(true),
        ) && (field(items[i], "key"@) matches Some(k) && field(k, "type"@) == Some(
            JsonTree::Str("Identifier"@),
        ) && field(k, "name"@) == Some(JsonTree::Str(key)))),
    ensures
        properties(items).contains((at, FindingView::Property(key, property_value(value)))),
    decreases items.len(),
{
    reveal_strlit("Identifier");
    reveal_strlit("Literal");
    assert("Identifier"@.len() == 10);
    assert("Literal"@.len() == 7);
    let rest = items.drop_last();
    let before = properties(rest);
    let now = properties(items);
    if i < rest.len() {
        let at = lemma_property(rest, i, key, value);
        let x = (at, FindingView::Property(key, property_value(value)));
        let k = choose|k: int| 0 <= k < before.len() && before[k] == x;
        assert(now[k] == x);
        at
    } else {
        let x = now[before.len() as int];
        assert(now.contains(x));
        x.0
    }
}

/// A property of any object literal is found under its name, plain or in quotes, with what its
/// value spells out.
pub proof fn properties_are_found_by_their_name(
    t: JsonTree,
    path: Seq<int>,
    i: int,
    key: Seq<char>,
    value: JsonTree,
)
    requires
        tree_at(t, path) matches Some(n) && has_kind(n, "ObjectExpression"@) && (field(
            n,
            "properties"@,
        ) matches Some(JsonTree::Array(items)) && 0 <= i < items.len() && has_kind(
            items[i],
            "Property"@,
        ) && field(items[i], "value"@) == Some(value) && (is_text(field(items[i], "key"@), key) || (
        field(items[i], "computed"@) != Some(JsonTree::Bool(true)) && (field(
            items[i],
            "key"@,
        ) matches Some(k) && field(k, "type"@) == Some(JsonTree::Str("Identifier"@)) && field(
            k,
            "name"@,
        ) == Some(JsonTree::Str(key)))))),
    ensures
        source_findings(t).contains(FindingView::Property(key, property_value(value))),
{
    lemma_kinds();
    let n = tree_at(t, path)->0;
    let items = elements(n, "properties"@);
    let at = lemma_property(items, i, key, value);
    nothing_nested_is_missed(t, path, (at, FindingView::Property(key, property_value(value))));
}

proof fn lemma_literals(items: Seq<JsonTree>, s: Seq<char>)
    ensures
        crate::source::literals(items).contains(s) <==> exists|i: int|
            0 <= i < items.len() && is_text(Some(#[trigger] items[i]), s),
    decreases items.len(),
{
    if items.len() > 0 {
        let rest = items.drop_last();
        let before = crate::source::literals(rest);
        let now = crate::source::literals(items);
        lemma_literals(rest, s);
        if before.contains(s) {
            let k = choose|k: int| 0 <= k < before.len() && before[k] == s;
            assert(now[k] == s);
            let i = choose|i: int| 0 <= i < rest.len() && is_text(Some(#[trigger] rest[i]), s);
            assert(items[i] == rest[i]);
        }
        if now.len() > before.len() {
            assert(now[before.len() as int] == literal_text(items.last())->0);
        }
        assert(items[items.len() - 1] == items.last());
        if now.contains(s) && !before.contains(s) {
            let k = choose|k: int| 0 <= k < now.len() && now[k] == s;
            if k < before.len() {
                assert(before[k] == s);
            }
            assert(is_text(Some(items[items.len() - 1]), s));
        }
        if exists|i: int| 0 <= i < items.len() && is_text(Some(#[trigger] items[i]), s) {
            let i = choose|i: int| 0 <= i < items.len() && is_text(Some(#[trigger] items[i]), s);
            if i < rest.len() {
                assert(rest[i] == items[i]);
            }
        }
    }
}

/// A value spells out the text of a literal, or of a list the texts of its elements that are
/// literals.
pub proof fn values_spell_out_their_texts(value: JsonTree, s: Seq<char>)
    ensures
        is_text(Some(value), s) ==> property_value(value) == ValueView::Text(s),
        is_no_text(Some(value)) && has_kind(value, "ArrayExpression"@) ==> (property_value(
            value,
        ) matches ValueView::List(l) && (l.contains(s) <==> (field(value, "elements"@) matches Some(
            JsonTree::Array(items),
        ) && exists|i: int| 0 <= i < items.len() && is_text(Some(#[trigger] items[i]), s)))),
{
    if let Some(x) = literal_text(value) {
        assert(is_text(Some(value), x));
    }
    lemma_literals(elements(value, "elements"@), s);
}

} // verus!
