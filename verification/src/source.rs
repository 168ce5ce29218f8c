//! JavaScript and TypeScript sources: what a parsed file holds that the library looks at.
use crate::json::{
    field, lemma_members, lemma_trees, members, nested_json_document, parse_nested_json, tree,
    trees, Json, JsonTree,
};
use crate::text::{join, joined, same, texts, to_chars};
use vstd::prelude::*;

verus! {

/// What became of parsing a source file.
#[derive(Debug)]
pub enum SourceOutcome {
    /// The file name's extension is not one of a source file.
    Unrecognized { detail: String },
    /// The text has a syntax error that leaves no tree.
    Fatal { diagnostics: Vec<String> },
    /// The syntax tree, as ESTree JSON.
    Tree { json: String },
}

/// What became of parsing a source file, as mathematical values.
pub enum OutcomeView {
    Unrecognized(Seq<char>),
    Fatal(Seq<Seq<char>>),
    Tree(Seq<char>),
}

impl View for SourceOutcome {
    type V = OutcomeView;

    open spec fn view(&self) -> OutcomeView {
        match self {
            SourceOutcome::Unrecognized { detail } => OutcomeView::Unrecognized(detail@),
            SourceOutcome::Fatal { diagnostics } => OutcomeView::Fatal(texts(diagnostics@)),
            SourceOutcome::Tree { json } => OutcomeView::Tree(json@),
        }
    }
}

/// What the oxc parser makes of a source text, its language taken from the path's extension.
pub uninterp spec fn source_outcome(path: Seq<char>, source: Seq<char>) -> OutcomeView;

/// `oxc_parser::Parser::parse` on a source text, with the language that
/// `oxc_span::SourceType::from_path` gives for the path, and `Program::to_estree_json` with
/// the TypeScript fields on the program that comes out. The result is a function of the path
/// and the text: the extension was not recognized, the parser gave up (with the texts of its
/// diagnostics), or the program as ESTree JSON.
#[verifier::external_body]
pub(crate) fn parse_source(path: &str, source: &str) -> (r: SourceOutcome)
    ensures
        r@ == source_outcome(path@, source@),
{
    let kind = match oxc_span::SourceType::from_path(path) {
        Ok(kind) => kind,
        Err(e) => return SourceOutcome::Unrecognized { detail: e.to_string() },
    };
    let allocator = oxc_allocator::Allocator::default();
    let parsed = oxc_parser::Parser::new(&allocator, source, kind).parse();
    if parsed.panicked {
        let diagnostics = parsed.diagnostics.iter().map(|d| d.to_string()).collect();
        return SourceOutcome::Fatal { diagnostics };
    }
    SourceOutcome::Tree { json: parsed.program.to_estree_json(true, false) }
}

/// The number that ESTree JSON spells an infinite literal with.
pub open spec fn infinite() -> Seq<char> {
    seq!['1', 'e', '+', '4', '0', '0']
}

/// ESTree JSON made plain JSON, from inside or outside of a string: the escape of half a
/// surrogate pair becomes a replacement character followed by its digits, and the number that
/// stands for infinity becomes a zero.
pub open spec fn plain_json(s: Seq<char>, in_string: bool) -> Seq<char>
    decreases s.len(),
{
    if s.len() == 0 {
        Seq::empty()
    } else if in_string && s[0] == '\\' && s.len() >= 2 {
        if s[1] == 'u' && s.len() >= 3 && s[2] == 'd' {
            seq!['\\', 'u', 'f', 'f', 'f', 'd', 'd'] + plain_json(s.skip(3), true)
        } else {
            seq![s[0], s[1]] + plain_json(s.skip(2), true)
        }
    } else if !in_string && infinite().is_prefix_of(s) {
        seq!['0'] + plain_json(s.skip(6), false)
    } else {
        seq![s[0]] + plain_json(s.skip(1), (s[0] == '"') != in_string)
    }
}

/// Whether `infinite` stands at position `i`.
fn infinite_at(v: &Vec<char>, i: usize) -> (r: bool)
    requires
        i < v.len(),
    ensures
        r == infinite().is_prefix_of(v@.skip(i as int)),
{
    let n = v.len();
    let r = n - i >= 6 && v[i] == '1' && v[i + 1] == 'e' && v[i + 2] == '+' && v[i + 3] == '4'
        && v[i + 4] == '0' && v[i + 5] == '0';
    proof {
        let t = v@.skip(i as int);
        let p = infinite();
        assert(p.len() == 6);
        if r {
            assert(t.take(6) =~= p);
        }
        if p.is_prefix_of(t) {
            assert(t[0] == p[0] && t[1] == p[1] && t[2] == p[2] && t[3] == p[3] && t[4] == p[4]
                && t[5] == p[5]);
        }
    }
    r
}

/// ESTree JSON made plain JSON.
fn to_plain_json(text: &str) -> (r: String)
    ensures
        r@ == plain_json(text@, false),
{
    let v = to_chars(text);
    let mut out = String::new();
    let mut in_string = false;
    let mut i: usize = 0;
    assert(v@.skip(0) =~= v@);
    while i < v.len()
        invariant
            i <= v.len(),
            v@ == text@,
            out@ + plain_json(v@.skip(i as int), in_string) == plain_json(text@, false),
        decreases v.len() - i,
    {
        let ghost t = v@.skip(i as int);
        let ghost so_far = out@;
        let n = v.len();
        proof {
            assert(t[0] == v@[i as int]);
            assert(t.skip(1) =~= v@.skip(i + 1));
        }
        if in_string && v[i] == '\\' && n - i >= 2 {
            proof {
                assert(t[1] == v@[i + 1]);
                assert(t.skip(2) =~= v@.skip(i + 2));
            }
            if v[i + 1] == 'u' && n - i >= 3 && v[i + 2] == 'd' {
                proof {
                    assert(t[2] == v@[i + 2]);
                    assert(t.skip(3) =~= v@.skip(i + 3));
                }
                out.append("\\ufffdd");
                i = i + 3;
                proof {
                    reveal_strlit("\\ufffdd");
                    assert(out@ =~= so_far + seq!['\\', 'u', 'f', 'f', 'f', 'd', 'd']);
                    assert(out@ + plain_json(v@.skip(i as int), true) =~= so_far + (seq![
                        '\\',
                        'u',
                        'f',
                        'f',
                        'f',
                        'd',
                        'd',
                    ] + plain_json(v@.skip(i as int), true)));
                }
            } else {
                out.push(v[i]);
                out.push(v[i + 1]);
                i = i + 2;
                proof {
                    if n - i >= 1 {
                        assert(t[2] == v@[i as int]);
                    }
                    assert(out@ + plain_json(v@.skip(i as int), true) =~= so_far + (seq![t[0], t[1]]
                        + plain_json(v@.skip(i as int), true)));
                }
            }
        } else if !in_string && infinite_at(&v, i) {
            proof {
                assert(infinite().len() == 6);
                assert(t.skip(6) =~= v@.skip(i + 6));
            }
            out.push('0');
            i = i + 6;
            assert(out@ + plain_json(v@.skip(i as int), false) =~= so_far + (seq!['0'] + plain_json(
                v@.skip(i as int),
                false,
            )));
        } else {
            let c = v[i];
            out.push(c);
            i = i + 1;
            in_string = (c == '"') != in_string;
            assert(out@ + plain_json(v@.skip(i as int), in_string) =~= so_far + (seq![c]
                + plain_json(v@.skip(i as int), in_string)));
        }
    }
    assert(v@.skip(i as int) =~= Seq::<char>::empty());
    assert(out@ =~= plain_json(text@, false));
    out
}

/// How a specifier is resolved: by the rules of ES modules or of CommonJS.
#[derive(Debug, Clone, Copy, PartialEq, Eq, Hash, Structural)]
pub enum ModuleContext {
    Esm,
    Cjs,
}

/// One specifier found in a source file.
#[derive(Debug)]
pub struct ImportSite {
    pub specifier: String,
    pub context: ModuleContext,
    /// Whether only types are imported.
    pub type_only: bool,
}

/// One specifier as mathematical values.
pub struct SiteView {
    pub specifier: Seq<char>,
    pub context: ModuleContext,
    pub type_only: bool,
}

impl View for ImportSite {
    type V = SiteView;

    open spec fn view(&self) -> SiteView {
        SiteView {
            specifier: self.specifier@,
            context: self.context,
            type_only: self.type_only,
        }
    }
}

/// The value of an object literal's property, as far as it is spelled out.
#[derive(Debug)]
pub enum PropertyValue {
    /// A string literal.
    Text(String),
    /// An array literal: the string literals among its elements.
    List(Vec<String>),
    /// Anything else.
    Other,
}

/// A property's value as mathematical values.
pub enum ValueView {
    Text(Seq<char>),
    List(Seq<Seq<char>>),
    Other,
}

impl View for PropertyValue {
    type V = ValueView;

    open spec fn view(&self) -> ValueView {
        match self {
            PropertyValue::Text(s) => ValueView::Text(s@),
            PropertyValue::List(v) => ValueView::List(texts(v@)),
            PropertyValue::Other => ValueView::Other,
        }
    }
}

/// Something in a source file that the library looks at.
#[derive(Debug)]
pub enum Finding {
    /// An import, a re-export or a `require` that names a module.
    Site(ImportSite),
    /// An `import()` of something other than a string literal.
    Dynamic,
    /// A property of an object literal whose key is spelled out.
    Property { key: String, value: PropertyValue },
}

/// A finding as mathematical values.
pub enum FindingView {
    Site(SiteView),
    Dynamic,
    Property(Seq<char>, ValueView),
}

impl View for Finding {
    type V = FindingView;

    open spec fn view(&self) -> FindingView {
        match self {
            Finding::Site(s) => FindingView::Site(s@),
            Finding::Dynamic => FindingView::Dynamic,
            Finding::Property { key, value } => FindingView::Property(key@, value@),
        }
    }
}

/// The text of a field that holds a string.
pub open spec fn string_field(t: JsonTree, key: Seq<char>) -> Option<Seq<char>> {
    match field(t, key) {
        Some(JsonTree::Str(s)) => Some(s),
        _ => None,
    }
}

/// Whether a tree is a syntax node of the given type.
pub open spec fn is_node(t: JsonTree, kind: Seq<char>) -> bool {
    string_field(t, "type"@) == Some(kind)
}

/// The text of a string literal node.
pub open spec fn literal_text(t: JsonTree) -> Option<Seq<char>> {
    if is_node(t, "Literal"@) {
        string_field(t, "value"@)
    } else {
        None
    }
}

/// The text of a field that holds a string literal node.
pub open spec fn literal_field(t: JsonTree, key: Seq<char>) -> Option<Seq<char>> {
    match field(t, key) {
        Some(n) => literal_text(n),
        None => None,
    }
}

/// The elements of a field that holds an array.
pub open spec fn elements(t: JsonTree, key: Seq<char>) -> Seq<JsonTree> {
    match field(t, key) {
        Some(JsonTree::Array(items)) => items,
        _ => Seq::empty(),
    }
}

/// Where a node starts in its source.
pub open spec fn start_of(t: JsonTree) -> u64 {
    match field(t, "start"@) {
        Some(JsonTree::Number(Some(n))) => n,
        _ => 0,
    }
}

/// The module that a call of `require` names: the callee is that very identifier, and a
/// string literal is the one argument.
pub open spec fn required(t: JsonTree) -> Option<Seq<char>> {
    match field(t, "callee"@) {
        Some(callee) => if is_node(callee, "Identifier"@) && string_field(callee, "name"@) == Some(
            "require"@,
        ) && elements(t, "arguments"@).len() == 1 {
            literal_text(elements(t, "arguments"@)[0])
        } else {
            None
        },
        None => None,
    }
}

/// A site among the findings, or nothing.
pub open spec fn site_at(
    t: JsonTree,
    specifier: Option<Seq<char>>,
    context: ModuleContext,
    type_only: bool,
) -> Seq<(u64, FindingView)> {
    match specifier {
        Some(specifier) => seq![
            (start_of(t), FindingView::Site(SiteView { specifier, context, type_only })),
        ],
        None => Seq::empty(),
    }
}

/// The string literals among some nodes.
pub open spec fn literals(items: Seq<JsonTree>) -> Seq<Seq<char>>
    decreases items.len(),
{
    if items.len() == 0 {
        Seq::empty()
    } else {
        let before = literals(items.drop_last());
        match literal_text(items.last()) {
            Some(s) => before.push(s),
            None => before,
        }
    }
}

/// What a property's value spells out.
pub open spec fn property_value(t: JsonTree) -> ValueView {
    match literal_text(t) {
        Some(s) => ValueView::Text(s),
        None => if is_node(t, "ArrayExpression"@) {
            ValueView::List(literals(elements(t, "elements"@)))
        } else {
            ValueView::Other
        },
    }
}

/// The key of a property that is spelled out: a string literal, or a name that is not
/// computed.
pub open spec fn property_key(t: JsonTree) -> Option<Seq<char>> {
    match field(t, "key"@) {
        None => None,
        Some(key) => match literal_text(key) {
            Some(s) => Some(s),
            None => if is_node(key, "Identifier"@) && field(t, "computed"@) != Some(
                JsonTree::Bool(true),
            ) {
                string_field(key, "name"@)
            } else {
                None
            },
        },
    }
}

/// The properties, each with its place, among the members of an object literal.
pub open spec fn properties(items: Seq<JsonTree>) -> Seq<(u64, FindingView)>
    decreases items.len(),
{
    if items.len() == 0 {
        Seq::empty()
    } else {
        let before = properties(items.drop_last());
        let p = items.last();
        match (property_key(p), field(p, "value"@)) {
            (Some(key), Some(value)) => if is_node(p, "Property"@) {
                before.push((start_of(p), FindingView::Property(key, property_value(value))))
            } else {
                before
            },
            _ => before,
        }
    }
}

/// What a node itself is, with its place.
pub open spec fn own_findings(t: JsonTree) -> Seq<(u64, FindingView)> {
    if is_node(t, "ImportDeclaration"@) {
        site_at(
            t,
            literal_field(t, "source"@),
            ModuleContext::Esm,
            string_field(t, "importKind"@) == Some("type"@),
        )
    } else if is_node(t, "ExportNamedDeclaration"@) || is_node(t, "ExportAllDeclaration"@) {
        site_at(
            t,
            literal_field(t, "source"@),
            ModuleContext::Esm,
            string_field(t, "exportKind"@) == Some("type"@),
        )
    } else if is_node(t, "CallExpression"@) {
        site_at(t, required(t), ModuleContext::Cjs, false)
    } else if is_node(t, "ImportExpression"@) {
        match literal_field(t, "source"@) {
            Some(s) => site_at(t, Some(s), ModuleContext::Esm, false),
            None => seq![(start_of(t), FindingView::Dynamic)],
        }
    } else if is_node(t, "ObjectExpression"@) {
        properties(elements(t, "properties"@))
    } else {
        Seq::empty()
    }
}

/// Everything that a tree holds, node by node.
pub open spec fn findings(t: JsonTree) -> Seq<(u64, FindingView)>
    decreases t,
{
    match t {
        JsonTree::Array(items) => findings_in(items),
        JsonTree::Object(ms) => own_findings(t) + findings_under(ms),
        _ => Seq::empty(),
    }
}

/// Everything that the trees of a list hold.
pub open spec fn findings_in(items: Seq<JsonTree>) -> Seq<(u64, FindingView)>
    decreases items,
{
    if items.len() == 0 {
        Seq::empty()
    } else {
        findings_in(items.drop_last()) + findings(items.last())
    }
}

/// Everything that the members of an object hold.
pub open spec fn findings_under(ms: Seq<(Seq<char>, JsonTree)>) -> Seq<(u64, FindingView)>
    decreases ms,
{
    if ms.len() == 0 {
        Seq::empty()
    } else {
        findings_under(ms.drop_last()) + findings(ms.last().1)
    }
}

/// A list with `x` put after everything that starts no later.
pub open spec fn placed_in(
    list: Seq<(u64, FindingView)>,
    x: (u64, FindingView),
) -> Seq<(u64, FindingView)>
    decreases list.len(),
{
    if list.len() == 0 || list.last().0 <= x.0 {
        list.push(x)
    } else {
        placed_in(list.drop_last(), x).push(list.last())
    }
}

/// Findings in the order in which they stand in the source.
pub open spec fn in_order(list: Seq<(u64, FindingView)>) -> Seq<(u64, FindingView)>
    decreases list.len(),
{
    if list.len() == 0 {
        Seq::empty()
    } else {
        placed_in(in_order(list.drop_last()), list.last())
    }
}

/// What a source tree holds, in the order of the source.
pub open spec fn source_findings(t: JsonTree) -> Seq<FindingView> {
    in_order(findings(t)).map_values(|p: (u64, FindingView)| p.1)
}

/// Findings with their places, as mathematical values.
pub open spec fn placed_views(v: Seq<(u64, Finding)>) -> Seq<(u64, FindingView)> {
    v.map_values(|p: (u64, Finding)| (p.0, p.1@))
}

fn read_string<'a>(j: &'a Json, key: &str) -> (r: Option<&'a String>)
    ensures
        match r {
            Some(s) => string_field(tree(*j), key@) == Some(s@),
            None => string_field(tree(*j), key@) is None,
        },
{
    match j.get(key) {
        Some(Json::Str(s)) => Some(s),
        _ => None,
    }
}

fn string_is(j: &Json, key: &str, value: &str) -> (r: bool)
    ensures
        r == (string_field(tree(*j), key@) == Some(value@)),
{
    match read_string(j, key) {
        Some(s) => same(s.as_str(), value),
        None => false,
    }
}

fn node_is(j: &Json, kind: &str) -> (r: bool)
    ensures
        r == is_node(tree(*j), kind@),
{
    string_is(j, "type", kind)
}

fn read_literal(j: &Json) -> (r: Option<String>)
    ensures
        match r {
            Some(s) => literal_text(tree(*j)) == Some(s@),
            None => literal_text(tree(*j)) is None,
        },
{
    if node_is(j, "Literal") {
        match read_string(j, "value") {
            Some(s) => Some(s.clone()),
            None => None,
        }
    } else {
        None
    }
}

fn read_literal_field(j: &Json, key: &str) -> (r: Option<String>)
    ensures
        match r {
            Some(s) => literal_field(tree(*j), key@) == Some(s@),
            None => literal_field(tree(*j), key@) is None,
        },
{
    match j.get(key) {
        Some(n) => read_literal(n),
        None => None,
    }
}

fn read_start(j: &Json) -> (r: u64)
    ensures
        r == start_of(tree(*j)),
{
    match j.get("start") {
        Some(Json::Number(Some(n))) => *n,
        _ => 0,
    }
}

fn read_required(j: &Json) -> (r: Option<String>)
    ensures
        match r {
            Some(s) => required(tree(*j)) == Some(s@),
            None => required(tree(*j)) is None,
        },
{
    match j.get("callee") {
        Some(callee) => {
            if !node_is(callee, "Identifier") || !string_is(callee, "name", "require") {
                return None;
            }
            match j.get("arguments") {
                Some(Json::Array(items)) => {
                    proof {
                        lemma_trees(items@);
                    }
                    if items.len() == 1 {
                        read_literal(&items[0])
                    } else {
                        None
                    }
                },
                _ => None,
            }
        },
        None => None,
    }
}

fn read_literals(items: &Vec<Json>) -> (r: Vec<String>)
    ensures
        texts(r@) == literals(trees(items@)),
{
    let ghost all = trees(items@);
    proof {
        lemma_trees(items@);
    }
    let mut out: Vec<String> = Vec::new();
    let mut i: usize = 0;
    assert(texts(out@) =~= literals(all.take(0)));
    while i < items.len()
        invariant
            i <= items.len(),
            all == trees(items@),
            all.len() == items@.len(),
            forall|k: int| 0 <= k < items@.len() ==> #[trigger] all[k] == tree(items@[k]),
            texts(out@) == literals(all.take(i as int)),
        decreases items.len() - i,
    {
        let ghost before = texts(out@);
        assert(all.take(i + 1).drop_last() =~= all.take(i as int));
        match read_literal(&items[i]) {
            Some(s) => {
                out.push(s);
                assert(texts(out@) =~= before.push(s@));
            },
            None => {},
        }
        i = i + 1;
    }
    assert(all.take(i as int) =~= all);
    out
}

fn read_property_value(j: &Json) -> (r: PropertyValue)
    ensures
        r@ == property_value(tree(*j)),
{
    match read_literal(j) {
        Some(s) => PropertyValue::Text(s),
        None => if node_is(j, "ArrayExpression") {
            match j.get("elements") {
                Some(Json::Array(items)) => PropertyValue::List(read_literals(items)),
                _ => {
                    let none: Vec<String> = Vec::new();
                    assert(texts(none@) =~= literals(elements(tree(*j), "elements"@)));
                    PropertyValue::List(none)
                },
            }
        } else {
            PropertyValue::Other
        },
    }
}

fn read_property_key(j: &Json) -> (r: Option<String>)
    ensures
        match r {
            Some(s) => property_key(tree(*j)) == Some(s@),
            None => property_key(tree(*j)) is None,
        },
{
    match j.get("key") {
        None => None,
        Some(key) => match read_literal(key) {
            Some(s) => Some(s),
            None => {
                let computed = match j.get("computed") {
                    Some(Json::Bool(b)) => *b,
                    _ => false,
                };
                if node_is(key, "Identifier") && !computed {
                    match read_string(key, "name") {
                        Some(s) => Some(s.clone()),
                        None => None,
                    }
                } else {
                    None
                }
            },
        },
    }
}

/// Adds the properties of an object literal.
fn push_properties(items: &Vec<Json>, out: &mut Vec<(u64, Finding)>)
    ensures
        placed_views(final(out)@) == placed_views(old(out)@) + properties(trees(items@)),
{
    let ghost all = trees(items@);
    let ghost start = placed_views(out@);
    proof {
        lemma_trees(items@);
    }
    let mut i: usize = 0;
    assert(placed_views(out@) =~= start + properties(all.take(0)));
    while i < items.len()
        invariant
            i <= items.len(),
            all == trees(items@),
            all.len() == items@.len(),
            forall|k: int| 0 <= k < items@.len() ==> #[trigger] all[k] == tree(items@[k]),
            placed_views(out@) == start + properties(all.take(i as int)),
        decreases items.len() - i,
    {
        let ghost before = placed_views(out@);
        assert(all.take(i + 1).drop_last() =~= all.take(i as int));
        let p = &items[i];
        match (read_property_key(p), p.get("value")) {
            (Some(key), Some(value)) => {
                if node_is(p, "Property") {
                    let value = read_property_value(value);
                    let at = read_start(p);
                    let ghost x = (at, FindingView::Property(key@, value@));
                    out.push((at, Finding::Property { key, value }));
                    assert(placed_views(out@) =~= before.push(x));
                    assert(before.push(x) =~= start + properties(all.take(i as int)).push(x));
                }
            },
            _ => {},
        }
        i = i + 1;
    }
    assert(all.take(i as int) =~= all);
}

/// Adds what a node itself is.
fn push_own(j: &Json, out: &mut Vec<(u64, Finding)>)
    ensures
        placed_views(final(out)@) == placed_views(old(out)@) + own_findings(tree(*j)),
{
    let ghost before = placed_views(out@);
    let ghost t = tree(*j);
    let mut named: Option<String> = None;
    let mut context = ModuleContext::Esm;
    let mut type_only = false;
    let mut dynamic = false;
    if node_is(j, "ImportDeclaration") {
        named = read_literal_field(j, "source");
        type_only = string_is(j, "importKind", "type");
    } else if node_is(j, "ExportNamedDeclaration") || node_is(j, "ExportAllDeclaration") {
        named = read_literal_field(j, "source");
        type_only = string_is(j, "exportKind", "type");
    } else if node_is(j, "CallExpression") {
        named = read_required(j);
        context = ModuleContext::Cjs;
    } else if node_is(j, "ImportExpression") {
        named = read_literal_field(j, "source");
        dynamic = named.is_none();
    } else if node_is(j, "ObjectExpression") {
        match j.get("properties") {
            Some(Json::Array(items)) => {
                push_properties(items, out);
            },
            _ => {
                assert(before + own_findings(t) =~= before);
            },
        }
        return;
    } else {
        assert(before + own_findings(t) =~= before);
        return;
    }
    let at = read_start(j);
    match named {
        Some(specifier) => {
            let ghost x = (
                at,
                FindingView::Site(SiteView { specifier: specifier@, context, type_only }),
            );
            out.push((at, Finding::Site(ImportSite { specifier, context, type_only })));
            assert(own_findings(t) =~= seq![x]);
            assert(placed_views(out@) =~= before + seq![x]);
        },
        None => {
            if dynamic {
                out.push((at, Finding::Dynamic));
                assert(placed_views(out@) =~= before + seq![(at, FindingView::Dynamic)]);
            } else {
                assert(before + own_findings(t) =~= before);
            }
        },
    }
}

/// Adds everything that a tree holds.
fn push_findings(j: &Json, out: &mut Vec<(u64, Finding)>)
    ensures
        placed_views(final(out)@) == placed_views(old(out)@) + findings(tree(*j)),
    decreases *j,
{
    let ghost start = placed_views(out@);
    match j {
        Json::Array(items) => {
            let ghost all = trees(items@);
            proof {
                lemma_trees(items@);
            }
            let mut i: usize = 0;
            assert(placed_views(out@) =~= start + findings_in(all.take(0)));
            while i < items.len()
                invariant
                    i <= items.len(),
                    *j matches Json::Array(w) && w == *items,
                    all == trees(items@),
                    all.len() == items@.len(),
                    forall|k: int| 0 <= k < items@.len() ==> #[trigger] all[k] == tree(items@[k]),
                    placed_views(out@) == start + findings_in(all.take(i as int)),
                decreases items.len() - i,
            {
                assert(all.take(i + 1).drop_last() =~= all.take(i as int));
                assert(decreases_to!(*items => items@));
                assert(decreases_to!(items@ => items@[i as int]));
                push_findings(&items[i], out);
                i = i + 1;
                assert(placed_views(out@) =~= start + findings_in(all.take(i as int)));
            }
            assert(all.take(i as int) =~= all);
        },
        Json::Object(fields) => {
            push_own(j, out);
            let ghost all = members(fields@);
            proof {
                lemma_members(fields@);
            }
            let ghost own = own_findings(tree(*j));
            let mut i: usize = 0;
            assert(placed_views(out@) =~= start + own + findings_under(all.take(0)));
            while i < fields.len()
                invariant
                    i <= fields.len(),
                    *j matches Json::Object(w) && w == *fields,
                    all == members(fields@),
                    all.len() == fields@.len(),
                    forall|k: int|
                        0 <= k < fields@.len() ==> #[trigger] all[k] == (
                            fields@[k].0@,
                            tree(fields@[k].1),
                        ),
                    placed_views(out@) == start + own + findings_under(all.take(i as int)),
                decreases fields.len() - i,
            {
                assert(all.take(i + 1).drop_last() =~= all.take(i as int));
                assert(decreases_to!(*fields => fields@));
                assert(decreases_to!(fields@ => fields@[i as int]));
                push_findings(&fields[i].1, out);
                i = i + 1;
                assert(placed_views(out@) =~= start + own + findings_under(all.take(i as int)));
            }
            assert(all.take(i as int) =~= all);
            assert(start + own + findings_under(all) =~= start + (own + findings_under(all)));
        },
        _ => {
            assert(start + findings(tree(*j)) =~= start);
        },
    }
}

/// `placed_in` inserts at the position after everything that starts no later.
proof fn lemma_placed_in(list: Seq<(u64, FindingView)>, x: (u64, FindingView), at: int)
    requires
        0 <= at <= list.len(),
        at > 0 ==> list[at - 1].0 <= x.0,
        forall|k: int| at <= k < list.len() ==> (#[trigger] list[k]).0 > x.0,
    ensures
        placed_in(list, x) == list.insert(at, x),
    decreases list.len(),
{
    if at == list.len() {
        assert(list.insert(at, x) =~= list.push(x));
    } else {
        let rest = list.drop_last();
        assert(list.last().0 > x.0);
        assert forall|k: int| at <= k < rest.len() implies (#[trigger] rest[k]).0 > x.0 by {
            assert(rest[k] == list[k]);
        }
        lemma_placed_in(rest, x, at);
        assert(list.insert(at, x) =~= rest.insert(at, x).push(list.last()));
    }
}

/// Findings in the order in which they stand in the source.
fn put_in_order(mut list: Vec<(u64, Finding)>) -> (r: Vec<Finding>)
    ensures
        r@.map_values(|f: Finding| f@) == in_order(placed_views(list@)).map_values(
            |p: (u64, FindingView)| p.1,
        ),
{
    let ghost whole = placed_views(list@);
    let mut sorted: Vec<(u64, Finding)> = Vec::new();
    let ghost mut n: int = 0;
    assert(placed_views(sorted@) =~= in_order(whole.take(0)));
    while list.len() > 0
        invariant
            0 <= n <= whole.len(),
            n + list@.len() == whole.len(),
            placed_views(list@) == whole.skip(n),
            placed_views(sorted@) == in_order(whole.take(n)),
        decreases list.len(),
    {
        let ghost rest = placed_views(list@);
        let ghost so_far = placed_views(sorted@);
        let x = list.remove(0);
        let ghost xv = (x.0, x.1@);
        proof {
            assert(rest[0] == xv);
            assert(whole[n] == whole.skip(n)[0]);
            assert(whole.take(n + 1).drop_last() =~= whole.take(n));
            assert(placed_views(list@) =~= rest.drop_first());
            assert(rest.drop_first() =~= whole.skip(n + 1));
        }
        let mut at: usize = sorted.len();
        while at > 0 && sorted[at - 1].0 > x.0
            invariant
                at <= sorted@.len(),
                so_far == placed_views(sorted@),
                forall|k: int| at <= k < so_far.len() ==> (#[trigger] so_far[k]).0 > x.0,
            decreases at,
        {
            at = at - 1;
            assert(so_far[at as int].0 == sorted@[at as int].0);
        }
        proof {
            if at > 0 {
                assert(so_far[at - 1].0 == sorted@[at - 1].0);
            }
            lemma_placed_in(so_far, xv, at as int);
        }
        sorted.insert(at, x);
        proof {
            assert(placed_views(sorted@) =~= so_far.insert(at as int, xv));
            n = n + 1;
        }
    }
    assert(whole.take(n) =~= whole);
    let ghost all = placed_views(sorted@);
    let mut out: Vec<Finding> = Vec::new();
    while sorted.len() > 0
        invariant
            all == in_order(whole),
            out@.len() + sorted@.len() == all.len(),
            placed_views(sorted@) == all.skip(out@.len() as int),
            forall|k: int| 0 <= k < out@.len() ==> (#[trigger] out@[k])@ == all[k].1,
        decreases sorted.len(),
    {
        let ghost rest = placed_views(sorted@);
        let x = sorted.remove(0);
        proof {
            assert(rest[0] == (x.0, x.1@));
            assert(placed_views(sorted@) =~= rest.drop_first());
            assert(rest.drop_first() =~= all.skip(out@.len() as int + 1));
        }
        out.push(x.1);
    }
    assert(out@.map_values(|f: Finding| f@) =~= all.map_values(|p: (u64, FindingView)| p.1));
    out
}

/// What findings are, as mathematical values.
pub open spec fn finding_views(v: Seq<Finding>) -> Seq<FindingView> {
    v.map_values(|f: Finding| f@)
}

/// What a source tree holds, in the order of the source.
pub fn findings_of(j: &Json) -> (r: Vec<Finding>)
    ensures
        finding_views(r@) == source_findings(tree(*j)),
{
    let mut list: Vec<(u64, Finding)> = Vec::new();
    assert(placed_views(list@) =~= Seq::<(u64, FindingView)>::empty());
    push_findings(j, &mut list);
    assert(placed_views(list@) =~= findings(tree(*j)));
    put_in_order(list)
}

/// What a source file holds, if it can be parsed.
pub open spec fn file_findings(path: Seq<char>, source: Seq<char>) -> Option<Seq<FindingView>> {
    match source_outcome(path, source) {
        OutcomeView::Tree(json) => match nested_json_document(plain_json(json, false)) {
            Some(t) => Some(source_findings(t)),
            None => None,
        },
        _ => None,
    }
}

/// Why a source file holds nothing that can be looked at.
#[derive(Debug)]
pub enum SourceError {
    Unrecognized { detail: String },
    /// The diagnostics of the parser, one after the other.
    Fatal { detail: String },
    /// The tree that came out is no JSON.
    NoTree { detail: String },
}

/// Why a source file cannot be read, as mathematical values: what the parser says, or that its
/// tree is no JSON.
pub enum SourceFailure {
    Unrecognized(Seq<char>),
    Fatal(Seq<char>),
    NoTree,
}

impl View for SourceError {
    type V = SourceFailure;

    open spec fn view(&self) -> SourceFailure {
        match self {
            SourceError::Unrecognized { detail } => SourceFailure::Unrecognized(detail@),
            SourceError::Fatal { detail } => SourceFailure::Fatal(detail@),
            SourceError::NoTree { .. } => SourceFailure::NoTree,
        }
    }
}

/// Why a source file without findings cannot be read.
pub open spec fn source_failure(path: Seq<char>, source: Seq<char>) -> SourceFailure {
    match source_outcome(path, source) {
        OutcomeView::Unrecognized(detail) => SourceFailure::Unrecognized(detail),
        OutcomeView::Fatal(all) => SourceFailure::Fatal(joined(all, "; "@)),
        OutcomeView::Tree(_) => SourceFailure::NoTree,
    }
}

/// What a source file holds, in the order of the source.
pub fn read_source(path: &str, source: &str) -> (r: Result<Vec<Finding>, SourceError>)
    ensures
        match r {
            Ok(list) => file_findings(path@, source@) == Some(finding_views(list@)),
            Err(e) => file_findings(path@, source@) is None && e@ == source_failure(
                path@,
                source@,
            ),
        },
{
    match parse_source(path, source) {
        SourceOutcome::Unrecognized { detail } => Err(SourceError::Unrecognized { detail }),
        SourceOutcome::Fatal { diagnostics } => Err(
            SourceError::Fatal { detail: join(&diagnostics, "; ") },
        ),
        SourceOutcome::Tree { json } => match parse_nested_json(
            to_plain_json(json.as_str()).as_str(),
        ) {
            Ok(j) => Ok(findings_of(&j)),
            Err(e) => Err(SourceError::NoTree { detail: e.detail }),
        },
    }
}

} // verus!
