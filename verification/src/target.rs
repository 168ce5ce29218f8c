//! What the drivers share: the configuration of a target, its inputs and its outputs.
use crate::sorted::{listing, StrMap};
use crate::text::{decimal, digits, split_on, split, starts_with, texts, to_chars};
use vstd::prelude::*;

verus! {

/// A list of target addresses.
#[derive(Debug)]
pub struct AddrList {
    pub items: Vec<String>,
}

impl View for AddrList {
    type V = Seq<Seq<char>>;

    open spec fn view(&self) -> Seq<Seq<char>> {
        texts(self.items@)
    }
}

/// A value in the configuration of a target.
#[derive(Debug)]
pub enum ConfigValue {
    Text(String),
    Flag(bool),
    List(Vec<String>),
    /// Lists of target addresses by the name of their group.
    Table(StrMap<AddrList>),
}

/// A configuration value as mathematical values.
pub enum ConfigView {
    Text(Seq<char>),
    Flag(bool),
    List(Seq<Seq<char>>),
    Table(Map<Seq<char>, Seq<Seq<char>>>),
}

impl View for ConfigValue {
    type V = ConfigView;

    open spec fn view(&self) -> ConfigView {
        match self {
            ConfigValue::Text(s) => ConfigView::Text(s@),
            ConfigValue::Flag(b) => ConfigView::Flag(*b),
            ConfigValue::List(v) => ConfigView::List(texts(v@)),
            ConfigValue::Table(m) => ConfigView::Table(m@),
        }
    }
}

/// A configuration as mathematical values.
pub type Config = Map<Seq<char>, ConfigView>;

/// What kind of value a field of a configuration holds.
#[derive(Debug, Clone, Copy, PartialEq, Eq, Structural)]
pub enum FieldKind {
    Text,
    Flag,
    List,
    Table,
}

/// A field that a driver reads from the configuration of its targets.
#[derive(Debug)]
pub struct FieldSpec {
    pub key: &'static str,
    pub kind: FieldKind,
    pub required: bool,
}

/// A field as mathematical values.
pub struct FieldView {
    pub key: Seq<char>,
    pub kind: FieldKind,
    pub required: bool,
}

impl View for FieldSpec {
    type V = FieldView;

    open spec fn view(&self) -> FieldView {
        FieldView { key: self.key@, kind: self.kind, required: self.required }
    }
}

/// Fields as mathematical values.
pub open spec fn field_views(v: Seq<FieldSpec>) -> Seq<FieldView> {
    v.map_values(|f: FieldSpec| f@)
}

/// Why a configuration cannot be used.
#[derive(Debug)]
pub enum ConfigError {
    /// A required field is not there.
    Missing { key: String },
    /// A field holds another kind of value.
    WrongKind { key: String },
}

/// Why a configuration cannot be used, as mathematical values.
pub enum ConfigFailure {
    Missing(Seq<char>),
    WrongKind(Seq<char>),
}

impl View for ConfigError {
    type V = ConfigFailure;

    open spec fn view(&self) -> ConfigFailure {
        match self {
            ConfigError::Missing { key } => ConfigFailure::Missing(key@),
            ConfigError::WrongKind { key } => ConfigFailure::WrongKind(key@),
        }
    }
}

impl ConfigError {
    /// What the error says.
    pub open spec fn text(&self) -> Seq<char> {
        match self {
            ConfigError::Missing { key } => "missing required field `"@ + key@ + "`"@,
            ConfigError::WrongKind { key } => "field `"@ + key@ + "` has the wrong type"@,
        }
    }

    /// What the error says.
    pub fn message(&self) -> (r: String)
        ensures
            r@ == self.text(),
    {
        match self {
            ConfigError::Missing { key } => {
                let mut out = "missing required field `".to_owned();
                out.append(key.as_str());
                out.append("`");
                out
            },
            ConfigError::WrongKind { key } => {
                let mut out = "field `".to_owned();
                out.append(key.as_str());
                out.append("` has the wrong type");
                out
            },
        }
    }
}

/// The kind of a value.
pub open spec fn kind_of(v: ConfigView) -> FieldKind {
    match v {
        ConfigView::Text(_) => FieldKind::Text,
        ConfigView::Flag(_) => FieldKind::Flag,
        ConfigView::List(_) => FieldKind::List,
        ConfigView::Table(_) => FieldKind::Table,
    }
}

/// The first of some fields that is missing or of the wrong kind.
pub open spec fn first_failure(c: Config, fields: Seq<FieldView>) -> Option<ConfigFailure>
    decreases fields.len(),
{
    if fields.len() == 0 {
        None
    } else {
        let f = fields[0];
        if c.dom().contains(f.key) && kind_of(c[f.key]) != f.kind {
            Some(ConfigFailure::WrongKind(f.key))
        } else if !c.dom().contains(f.key) && f.required {
            Some(ConfigFailure::Missing(f.key))
        } else {
            first_failure(c, fields.drop_first())
        }
    }
}

/// Checks the fields of a configuration.
pub fn check_fields(config: &StrMap<ConfigValue>, fields: &Vec<FieldSpec>) -> (r: Result<
    (),
    ConfigError,
>)
    ensures
        match r {
            Ok(_) => first_failure(config@, field_views(fields@)) is None,
            Err(e) => first_failure(config@, field_views(fields@)) == Some(e@),
        },
{
    let ghost all = field_views(fields@);
    let mut i: usize = 0;
    assert(all.skip(0) =~= all);
    while i < fields.len()
        invariant
            i <= fields.len(),
            all == field_views(fields@),
            first_failure(config@, all.skip(i as int)) == first_failure(config@, all),
        decreases fields.len() - i,
    {
        let f = &fields[i];
        proof {
            assert(all.skip(i as int)[0] == f@);
            assert(all.skip(i as int).drop_first() =~= all.skip(i + 1));
        }
        match config.get(f.key) {
            Some(v) => {
                let kind = match v {
                    ConfigValue::Text(_) => FieldKind::Text,
                    ConfigValue::Flag(_) => FieldKind::Flag,
                    ConfigValue::List(_) => FieldKind::List,
                    ConfigValue::Table(_) => FieldKind::Table,
                };
                if kind != f.kind {
                    return Err(ConfigError::WrongKind { key: f.key.to_owned() });
                }
            },
            None => {
                if f.required {
                    return Err(ConfigError::Missing { key: f.key.to_owned() });
                }
            },
        }
        i = i + 1;
    }
    Ok(())
}

/// The text of a field, empty when it holds none.
pub open spec fn text_value(c: Config, key: Seq<char>) -> Seq<char> {
    if c.dom().contains(key) {
        match c[key] {
            ConfigView::Text(s) => s,
            _ => Seq::empty(),
        }
    } else {
        Seq::empty()
    }
}

/// The flag of a field, off when it holds none.
pub open spec fn flag_value(c: Config, key: Seq<char>) -> bool {
    c.dom().contains(key) && c[key] == ConfigView::Flag(true)
}

/// The list of a field, empty when it holds none.
pub open spec fn list_value(c: Config, key: Seq<char>) -> Seq<Seq<char>> {
    if c.dom().contains(key) {
        match c[key] {
            ConfigView::List(l) => l,
            _ => Seq::empty(),
        }
    } else {
        Seq::empty()
    }
}

/// The table of a field, empty when it holds none.
pub open spec fn table_value(c: Config, key: Seq<char>) -> Map<Seq<char>, Seq<Seq<char>>> {
    if c.dom().contains(key) {
        match c[key] {
            ConfigView::Table(m) => m,
            _ => Map::empty(),
        }
    } else {
        Map::empty()
    }
}

/// The text of a field, empty when it holds none.
pub fn read_config_text(config: &StrMap<ConfigValue>, key: &str) -> (r: String)
    ensures
        r@ == text_value(config@, key@),
{
    match config.get(key) {
        Some(ConfigValue::Text(s)) => s.clone(),
        _ => {
            let none = String::new();
            assert(none@ =~= Seq::<char>::empty());
            none
        },
    }
}

/// The flag of a field, off when it holds none.
pub fn read_config_flag(config: &StrMap<ConfigValue>, key: &str) -> (r: bool)
    ensures
        r == flag_value(config@, key@),
{
    match config.get(key) {
        Some(ConfigValue::Flag(b)) => *b,
        _ => false,
    }
}

/// The list of a field, empty when it holds none.
pub fn read_config_list(config: &StrMap<ConfigValue>, key: &str) -> (r: Vec<String>)
    ensures
        texts(r@) == list_value(config@, key@),
{
    match config.get(key) {
        Some(ConfigValue::List(v)) => {
            let out = v.clone();
            assert(texts(out@) =~= texts(v@));
            out
        },
        _ => {
            let none: Vec<String> = Vec::new();
            assert(texts(none@) =~= Seq::<Seq<char>>::empty());
            none
        },
    }
}

/// What a driver is asked to make a target of.
#[derive(Debug)]
pub struct ParseRequest {
    /// The address of the target.
    pub addr: String,
    /// The package that it belongs to.
    pub package: String,
    pub labels: Vec<String>,
    pub config: StrMap<ConfigValue>,
}

/// A target that another one needs.
#[derive(Debug)]
pub struct Input {
    /// The address of the target.
    pub target: String,
    /// The group and the place in it that the input comes from.
    pub origin_id: String,
    /// Whether the target's content counts for the cache.
    pub hashed: bool,
    /// Whether the target is needed at run time.
    pub runtime: bool,
}

/// An input as mathematical values.
pub struct InputView {
    pub target: Seq<char>,
    pub origin_id: Seq<char>,
    pub hashed: bool,
    pub runtime: bool,
}

impl View for Input {
    type V = InputView;

    open spec fn view(&self) -> InputView {
        InputView {
            target: self.target@,
            origin_id: self.origin_id@,
            hashed: self.hashed,
            runtime: self.runtime,
        }
    }
}

/// Inputs as mathematical values.
pub open spec fn input_views(v: Seq<Input>) -> Seq<InputView> {
    v.map_values(|i: Input| i@)
}

/// What the origin of every input of a group starts with.
pub open spec fn origin_prefix(group: Seq<char>) -> Seq<char> {
    "dep|"@ + group + "|"@
}

/// The input for the `i`th address of a group.
pub open spec fn group_input(group: Seq<char>, addr: Seq<char>, i: nat) -> InputView {
    InputView {
        target: addr,
        origin_id: origin_prefix(group) + digits(i),
        hashed: true,
        runtime: true,
    }
}

/// The inputs for the addresses of a group, in order.
pub open spec fn group_inputs(group: Seq<char>, addrs: Seq<Seq<char>>) -> Seq<InputView> {
    Seq::new(addrs.len(), |i: int| group_input(group, addrs[i], i as nat))
}

/// The inputs for the groups of a table, the groups in the order `groups`.
pub open spec fn inputs_of(m: Map<Seq<char>, Seq<Seq<char>>>, groups: Seq<Seq<char>>) -> Seq<
    InputView,
>
    decreases groups.len(),
{
    if groups.len() == 0 {
        Seq::empty()
    } else {
        inputs_of(m, groups.drop_last()) + group_inputs(groups.last(), m[groups.last()])
    }
}

/// The inputs for a table of dependencies: group by group in increasing order of their names,
/// whatever order they were given in.
pub open spec fn dep_inputs(m: Map<Seq<char>, Seq<Seq<char>>>) -> Seq<InputView> {
    inputs_of(m, listing(m.dom()))
}

fn push_group(group: &str, addrs: &Vec<String>, out: &mut Vec<Input>)
    ensures
        input_views(final(out)@) == input_views(old(out)@) + group_inputs(group@, texts(addrs@)),
{
    let ghost all = texts(addrs@);
    let ghost start = input_views(out@);
    let ghost whole = group_inputs(group@, all);
    let mut i: usize = 0;
    assert(input_views(out@) =~= start + whole.take(0));
    while i < addrs.len()
        invariant
            i <= addrs.len(),
            all == texts(addrs@),
            all.len() == addrs@.len(),
            whole == group_inputs(group@, all),
            input_views(out@) == start + whole.take(i as int),
        decreases addrs.len() - i,
    {
        let ghost before = input_views(out@);
        let mut origin_id = "dep|".to_owned();
        origin_id.append(group);
        origin_id.append("|");
        origin_id.append(decimal(i).as_str());
        let input = Input { target: addrs[i].clone(), origin_id, hashed: true, runtime: true };
        let ghost x = input@;
        out.push(input);
        proof {
            assert(all[i as int] == addrs@[i as int]@);
            assert(x == whole[i as int]);
            assert(input_views(out@) =~= before.push(x));
            assert(whole.take(i + 1) =~= whole.take(i as int).push(x));
            assert(start + whole.take(i + 1) =~= (start + whole.take(i as int)).push(x));
        }
        i = i + 1;
    }
    assert(whole.take(i as int) =~= whole);
}

/// The inputs for the table of dependencies in a configuration. An address is handed on as it
/// is spelled: whether it can be read as one is for those to tell who build its target.
pub fn read_inputs(config: &StrMap<ConfigValue>, key: &str) -> (r: Vec<Input>)
    ensures
        input_views(r@) == dep_inputs(table_value(config@, key@)),
{
    let mut out: Vec<Input> = Vec::new();
    assert(input_views(out@) =~= Seq::<InputView>::empty());
    match config.get(key) {
        Some(ConfigValue::Table(m)) => {
            m.facts();
            let ghost groups = m.keys();
            let mut i: usize = 0;
            assert(input_views(out@) =~= inputs_of(m@, groups.take(0)));
            while i < m.len()
                invariant
                    i <= groups.len(),
                    groups == m.keys(),
                    groups.len() == m.values().len(),
                    forall|k: int|
                        0 <= k < groups.len() ==> m@.dom().contains(#[trigger] groups[k])
                            && m@[groups[k]] == m.values()[k],
                    input_views(out@) == inputs_of(m@, groups.take(i as int)),
                decreases groups.len() - i,
            {
                proof {
                    assert(groups.take(i + 1).drop_last() =~= groups.take(i as int));
                    assert(m@[groups[i as int]] == m.values()[i as int]);
                }
                push_group(m.key_at(i).as_str(), &m.value_at(i).items, &mut out);
                i = i + 1;
            }
            assert(groups.take(i as int) =~= groups);
            out
        },
        _ => {
            proof {
                let none = Map::<Seq<char>, Seq<Seq<char>>>::empty();
                let nothing = Seq::<Seq<char>>::empty();
                assert(nothing.to_set() =~= none.dom());
                crate::sorted::lemma_listing(nothing);
                assert(dep_inputs(none) =~= Seq::<InputView>::empty());
            }
            out
        },
    }
}

/// A directory that a target fills.
#[derive(Debug)]
pub struct Output {
    pub group: String,
    pub dir: String,
    /// Whether the files in it are collected.
    pub collect: bool,
}

/// An output as mathematical values.
pub struct OutputView {
    pub group: Seq<char>,
    pub dir: Seq<char>,
    pub collect: bool,
}

impl View for Output {
    type V = OutputView;

    open spec fn view(&self) -> OutputView {
        OutputView { group: self.group@, dir: self.dir@, collect: self.collect }
    }
}

/// Outputs as mathematical values.
pub open spec fn output_views(v: Seq<Output>) -> Seq<OutputView> {
    v.map_values(|o: Output| o@)
}

/// The one output of a target that fills a directory.
pub open spec fn dir_output(dir: Seq<char>) -> Seq<OutputView> {
    seq![OutputView { group: Seq::empty(), dir, collect: true }]
}

/// The one output of a target that fills a directory.
pub fn make_dir_output(dir: &str) -> (r: Vec<Output>)
    ensures
        output_views(r@) == dir_output(dir@),
{
    let mut out: Vec<Output> = Vec::new();
    let group = String::new();
    assert(group@ =~= Seq::<char>::empty());
    out.push(Output { group, dir: dir.to_owned(), collect: true });
    assert(output_views(out@) =~= dir_output(dir@));
    out
}

/// Where the result of a target may be kept.
#[derive(Debug, Clone, Copy, PartialEq, Eq, Structural)]
pub struct CacheConfig {
    pub enabled: bool,
    pub remote: bool,
}

/// A target as a driver defines it.
#[derive(Debug)]
pub struct TargetDef<D> {
    pub addr: String,
    pub labels: Vec<String>,
    /// What the driver needs to run it.
    pub def: D,
    pub inputs: Vec<Input>,
    pub outputs: Vec<Output>,
    pub cache: CacheConfig,
    /// What the result depends on besides its inputs, as lower-case hexadecimal digits.
    pub hash: String,
}

/// An input with the list of the files that were put in place for it.
#[derive(Debug)]
pub struct StagedInput {
    pub origin_id: String,
    /// The list, one path on a line; none when it cannot be read.
    pub list: Option<String>,
}

/// An input with its list, as mathematical values.
pub struct StagedView {
    pub origin_id: Seq<char>,
    pub list: Option<Seq<char>>,
}

impl View for StagedInput {
    type V = StagedView;

    open spec fn view(&self) -> StagedView {
        StagedView { origin_id: self.origin_id@, list: crate::text::opt_text(self.list) }
    }
}

/// Inputs with their lists, as mathematical values.
pub open spec fn staged_views(v: Seq<StagedInput>) -> Seq<StagedView> {
    v.map_values(|s: StagedInput| s@)
}

/// A line without the carriage return that it ends in.
pub open spec fn line_text(s: Seq<char>) -> Seq<char> {
    if s.len() > 0 && s.last() == '\r' {
        s.drop_last()
    } else {
        s
    }
}

/// The lines that hold something.
pub open spec fn filled_lines(lines: Seq<Seq<char>>) -> Seq<Seq<char>>
    decreases lines.len(),
{
    if lines.len() == 0 {
        Seq::empty()
    } else {
        let before = filled_lines(lines.drop_last());
        let line = line_text(lines.last());
        if line.len() > 0 {
            before.push(line)
        } else {
            before
        }
    }
}

/// The lines of a text that hold something. The carriage return before a line break goes with
/// it.
pub open spec fn text_lines(text: Seq<char>) -> Seq<Seq<char>> {
    let pieces = split_on(text, '\n');
    if pieces.last().len() > 0 {
        filled_lines(pieces.drop_last()).push(pieces.last())
    } else {
        filled_lines(pieces.drop_last())
    }
}

/// The paths that were put in place for the inputs of a group, in order.
pub open spec fn staged_paths(list: Seq<StagedView>, group: Seq<char>) -> Seq<Seq<char>>
    decreases list.len(),
{
    if list.len() == 0 {
        Seq::empty()
    } else {
        let before = staged_paths(list.drop_last(), group);
        let last = list.last();
        match last.list {
            Some(text) => if origin_prefix(group).is_prefix_of(last.origin_id) {
                before + text_lines(text)
            } else {
                before
            },
            None => before,
        }
    }
}

fn push_filled_lines(text: &str, out: &mut Vec<String>)
    ensures
        texts(final(out)@) == texts(old(out)@) + text_lines(text@),
{
    let lines = split(text, '\n');
    let ghost all = texts(lines@);
    let ghost start = texts(out@);
    proof {
        assert(split_on(text@, '\n').len() > 0);
        assert(all.len() == lines@.len());
        assert(texts(out@) =~= start + filled_lines(all.take(0)));
    }
    let last = lines.len() - 1;
    let mut i: usize = 0;
    while i < last
        invariant
            i <= last < lines.len(),
            all == texts(lines@),
            texts(out@) == start + filled_lines(all.take(i as int)),
        decreases last - i,
    {
        let ghost before = texts(out@);
        proof {
            assert(all.take(i + 1).drop_last() =~= all.take(i as int));
            assert(all.take(i + 1).last() == lines@[i as int]@);
        }
        let v = to_chars(lines[i].as_str());
        let mut n: usize = v.len();
        if n > 0 && v[n - 1] == '\r' {
            n = n - 1;
        }
        let line = crate::text::from_range(&v, 0, n);
        let ghost x = line@;
        assert(x =~= line_text(v@));
        if n > 0 {
            out.push(line);
            proof {
                assert(texts(out@) =~= before.push(x));
                assert(before.push(x) =~= start + filled_lines(all.take(i as int)).push(x));
            }
        }
        i = i + 1;
    }
    let ghost before = texts(out@);
    proof {
        assert(all.take(i as int) =~= all.drop_last());
        assert(all.last() == lines@[last as int]@);
    }
    if to_chars(lines[last].as_str()).len() > 0 {
        out.push(lines[last].clone());
        proof {
            let x = all.last();
            assert(texts(out@) =~= before.push(x));
            assert(before.push(x) =~= start + filled_lines(all.drop_last()).push(x));
        }
    }
}

/// The paths that were put in place for the inputs of a group.
pub fn group_staged_paths(inputs: &Vec<StagedInput>, group: &str) -> (r: Vec<String>)
    ensures
        texts(r@) == staged_paths(staged_views(inputs@), group@),
{
    let mut prefix = "dep|".to_owned();
    prefix.append(group);
    prefix.append("|");
    let ghost all = staged_views(inputs@);
    let mut out: Vec<String> = Vec::new();
    let mut i: usize = 0;
    assert(texts(out@) =~= staged_paths(all.take(0), group@));
    while i < inputs.len()
        invariant
            i <= inputs.len(),
            prefix@ == origin_prefix(group@),
            all == staged_views(inputs@),
            texts(out@) == staged_paths(all.take(i as int), group@),
        decreases inputs.len() - i,
    {
        let s = &inputs[i];
        proof {
            assert(all.take(i + 1).drop_last() =~= all.take(i as int));
            assert(all.take(i + 1).last() == s@);
        }
        match &s.list {
            Some(text) => {
                if starts_with(s.origin_id.as_str(), prefix.as_str()) {
                    push_filled_lines(text.as_str(), &mut out);
                }
            },
            None => {},
        }
        i = i + 1;
    }
    assert(all.take(i as int) =~= all);
    out
}

/// A copy of some texts.
pub(crate) fn copy_texts(v: &Vec<String>) -> (r: Vec<String>)
    ensures
        texts(r@) == texts(v@),
{
    let out = v.clone();
    assert(texts(out@) =~= texts(v@));
    out
}

} // verus!
