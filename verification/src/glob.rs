//! Which glob patterns wax reads without a panic.
//!
//! Before it compiles a pattern, wax reckons how many bytes each part of it can match, and it
//! panics where a sequence joins a part that has only an upper bound to one that has only a
//! lower bound, and where a number overflows. Then it spells the pattern as a regular
//! expression, and panics where that nests deeper than the regex crate allows or counts beyond
//! 32 bits. Both follow from the shape of the pattern, which is read here in one pass. What is
//! left out beyond that wax could not compile either: so large a program is refused.
use crate::text::to_chars;
use vstd::prelude::*;

verus! {

/// How much a part of a pattern may weigh: repetitions multiply the weight of what they repeat,
/// so the numbers that wax reckons with stay below it.
pub const MAX_WEIGHT: u64 = 0xffff_ffff;

/// How deep the regular expression of a part may nest: one level less than the regex crate
/// allows, since the whole pattern is a sequence.
pub const MAX_HEIGHT: u64 = 249;

/// How deep alternatives and repetitions can nest: wax reads them by recursion, and each takes
/// many kilobytes of the stack.
pub const MAX_LEVELS: usize = 100;

/// The weight of a single character, class or wildcard: at least the bytes that wax counts.
pub const LEAF_WEIGHT: u64 = 4;

/// How wax bounds the number of bytes that a part of a pattern matches.
#[derive(Clone, Copy, PartialEq, Eq, Structural, Debug)]
pub enum Extent {
    /// From below and from above.
    Bounded,
    /// Only from below.
    AtLeast,
    /// Only from above.
    AtMost,
    /// Not at all.
    Open,
}

/// The extent of two parts in sequence; none where wax has no answer and panics.
pub open spec fn in_sequence(a: Extent, b: Extent) -> Option<Extent> {
    match (a, b) {
        (Extent::AtLeast, Extent::AtMost) | (Extent::AtMost, Extent::AtLeast) => None,
        (Extent::AtLeast, _) | (_, Extent::AtLeast) => Some(Extent::AtLeast),
        (Extent::Open, Extent::Bounded) | (Extent::Bounded, Extent::Open) => Some(Extent::AtLeast),
        (Extent::Open, _) | (_, Extent::Open) => Some(Extent::Open),
        (Extent::AtMost, _) | (_, Extent::AtMost) => Some(Extent::AtMost),
        _ => Some(Extent::Bounded),
    }
}

/// The extent of two alternatives.
pub open spec fn in_choice(a: Extent, b: Extent) -> Extent {
    match (a, b) {
        (Extent::Open, _) | (_, Extent::Open) => Extent::Open,
        (Extent::AtLeast, Extent::AtMost) | (Extent::AtMost, Extent::AtLeast) => Extent::Open,
        (Extent::AtLeast, _) | (_, Extent::AtLeast) => Extent::AtLeast,
        (Extent::AtMost, _) | (_, Extent::AtMost) => Extent::AtMost,
        _ => Extent::Bounded,
    }
}

/// The extent of a repetition, which may have no lower bound, no upper one, or neither.
pub open spec fn when_repeated(a: Extent, from_zero: bool, endless: bool) -> Extent {
    match a {
        Extent::Open => Extent::Open,
        Extent::Bounded => if from_zero && endless {
            Extent::Open
        } else if from_zero {
            Extent::AtMost
        } else if endless {
            Extent::AtLeast
        } else {
            Extent::Bounded
        },
        Extent::AtLeast => if from_zero {
            Extent::Open
        } else {
            Extent::AtLeast
        },
        Extent::AtMost => if endless {
            Extent::Open
        } else {
            Extent::AtMost
        },
    }
}

fn sequence_extent(a: Extent, b: Extent) -> (r: Option<Extent>)
    ensures
        r == in_sequence(a, b),
{
    match (a, b) {
        (Extent::AtLeast, Extent::AtMost) | (Extent::AtMost, Extent::AtLeast) => None,
        (Extent::AtLeast, _) | (_, Extent::AtLeast) => Some(Extent::AtLeast),
        (Extent::Open, Extent::Bounded) | (Extent::Bounded, Extent::Open) => Some(Extent::AtLeast),
        (Extent::Open, _) | (_, Extent::Open) => Some(Extent::Open),
        (Extent::AtMost, _) | (_, Extent::AtMost) => Some(Extent::AtMost),
        _ => Some(Extent::Bounded),
    }
}

fn choice_extent(a: Extent, b: Extent) -> (r: Extent)
    ensures
        r == in_choice(a, b),
{
    match (a, b) {
        (Extent::Open, _) | (_, Extent::Open) => Extent::Open,
        (Extent::AtLeast, Extent::AtMost) | (Extent::AtMost, Extent::AtLeast) => Extent::Open,
        (Extent::AtLeast, _) | (_, Extent::AtLeast) => Extent::AtLeast,
        (Extent::AtMost, _) | (_, Extent::AtMost) => Extent::AtMost,
        _ => Extent::Bounded,
    }
}

fn repeated_extent(a: Extent, from_zero: bool, endless: bool) -> (r: Extent)
    ensures
        r == when_repeated(a, from_zero, endless),
{
    match a {
        Extent::Open => Extent::Open,
        Extent::Bounded => if from_zero && endless {
            Extent::Open
        } else if from_zero {
            Extent::AtMost
        } else if endless {
            Extent::AtLeast
        } else {
            Extent::Bounded
        },
        Extent::AtLeast => if from_zero {
            Extent::Open
        } else {
            Extent::AtLeast
        },
        Extent::AtMost => if endless {
            Extent::Open
        } else {
            Extent::AtMost
        },
    }
}

/// What a part of a pattern comes to: its extent, its weight, and how deep its regular
/// expression nests.
#[derive(Clone, Copy, Debug)]
pub struct Part {
    pub extent: Extent,
    pub weight: u64,
    pub height: u64,
}

/// A part, unless it weighs too much or nests too deep.
pub open spec fn within_limits(extent: Extent, weight: int, height: int) -> Option<Part> {
    if weight <= MAX_WEIGHT && height <= MAX_HEIGHT {
        Some(Part { extent, weight: weight as u64, height: height as u64 })
    } else {
        None
    }
}

fn part(extent: Extent, weight: u64, height: u64) -> (r: Option<Part>)
    ensures
        r == within_limits(extent, weight as int, height as int),
{
    if weight <= MAX_WEIGHT && height <= MAX_HEIGHT {
        Some(Part { extent, weight, height })
    } else {
        None
    }
}

/// Whether a part is within the limits, where there is one.
pub open spec fn fits(p: Option<Part>) -> bool {
    p matches Some(p) ==> p.weight <= MAX_WEIGHT && p.height <= MAX_HEIGHT
}

/// A character that stands for itself.
pub open spec fn literal() -> Part {
    Part { extent: Extent::Bounded, weight: LEAF_WEIGHT, height: 0 }
}

/// A `/` between two components.
pub open spec fn separator() -> Part {
    Part { extent: Extent::Bounded, weight: LEAF_WEIGHT, height: 2 }
}

/// A `?`.
pub open spec fn one_character() -> Part {
    Part { extent: Extent::Bounded, weight: LEAF_WEIGHT, height: 3 }
}

/// A `*` or `$`.
pub open spec fn some_characters() -> Part {
    Part { extent: Extent::Open, weight: LEAF_WEIGHT, height: 4 }
}

/// A class in brackets.
pub open spec fn class_of_characters() -> Part {
    Part { extent: Extent::Bounded, weight: LEAF_WEIGHT, height: 5 }
}

/// A `**`, with the `/` before and behind it.
pub open spec fn some_components() -> Part {
    Part { extent: Extent::Open, weight: LEAF_WEIGHT, height: 7 }
}

/// What holds the parts that are being read.
#[derive(Clone, Copy, PartialEq, Eq, Structural, Debug)]
pub enum Branch {
    Whole,
    Choice,
    Repetition,
}

/// A branch that is being read.
#[derive(Clone, Copy, Debug)]
pub struct Level {
    pub branch: Branch,
    /// The sequence so far.
    pub chain: Option<Part>,
    /// Whether the sequence is more than one expression.
    pub several: bool,
    /// The alternatives so far.
    pub choice: Option<Part>,
    /// Whether there is more than one of them.
    pub choices: bool,
}

/// A branch of which nothing has been read.
pub open spec fn fresh(branch: Branch) -> Level {
    Level { branch, chain: None, several: false, choice: None, choices: false }
}

/// A level after one more part, which is more than one expression or not.
pub open spec fn with_part(level: Level, p: Part, several: bool) -> Option<Level> {
    match level.chain {
        None => Some(Level { chain: Some(p), several, ..level }),
        Some(c) => match in_sequence(c.extent, p.extent) {
            None => None,
            Some(extent) => match within_limits(
                extent,
                c.weight + p.weight,
                if c.height < p.height {
                    p.height as int
                } else {
                    c.height as int
                },
            ) {
                None => None,
                Some(all) => Some(Level { chain: Some(all), several: true, ..level }),
            },
        },
    }
}

/// The sequence of a level as one part.
pub open spec fn sequence_of(level: Level) -> Option<Part> {
    match level.chain {
        None => None,
        Some(c) => within_limits(
            c.extent,
            c.weight as int,
            c.height + if level.several {
                1int
            } else {
                0
            },
        ),
    }
}

/// A level after one more alternative.
pub open spec fn with_choice(level: Level) -> Option<Level> {
    match sequence_of(level) {
        None => None,
        Some(p) => match level.choice {
            None => Some(Level { choice: Some(p), ..fresh(level.branch) }),
            Some(c) => Some(
                Level {
                    choice: Some(
                        Part {
                            extent: in_choice(c.extent, p.extent),
                            weight: if c.weight < p.weight {
                                p.weight
                            } else {
                                c.weight
                            },
                            height: if c.height < p.height {
                                p.height
                            } else {
                                c.height
                            },
                        },
                    ),
                    choices: true,
                    ..fresh(level.branch)
                },
            ),
        },
    }
}

/// The alternatives of a level as one part.
pub open spec fn choice_of(level: Level) -> Option<Part> {
    match with_choice(level) {
        Some(all) => match all.choice {
            Some(c) => within_limits(
                c.extent,
                c.weight as int,
                c.height + if all.choices {
                    3int
                } else {
                    2
                },
            ),
            None => None,
        },
        None => None,
    }
}

/// How often a repetition repeats, at most or at least.
pub open spec fn times(lower: u64, upper: Option<u64>) -> int {
    let most = match upper {
        Some(upper) => if lower < upper {
            upper
        } else {
            lower
        },
        None => lower,
    };
    if most == 0 {
        1
    } else {
        most as int
    }
}

/// The repetition of a level as one part.
pub open spec fn repetition_of(level: Level, lower: u64, upper: Option<u64>) -> Option<Part> {
    match sequence_of(level) {
        None => None,
        Some(p) => within_limits(
            when_repeated(p.extent, lower == 0, upper is None),
            p.weight * times(lower, upper),
            p.height + 3,
        ),
    }
}

/// Whether the parts of a level are within the limits.
pub open spec fn level_fits(level: Level) -> bool {
    fits(level.chain) && fits(level.choice)
}

fn add_part(level: Level, p: Part, several: bool) -> (r: Option<Level>)
    requires
        level_fits(level),
        fits(Some(p)),
    ensures
        r == with_part(level, p, several),
        r matches Some(l) ==> level_fits(l),
{
    match level.chain {
        None => Some(Level { chain: Some(p), several, ..level }),
        Some(c) => match sequence_extent(c.extent, p.extent) {
            None => None,
            Some(extent) => {
                let height = if c.height < p.height {
                    p.height
                } else {
                    c.height
                };
                match part(extent, c.weight + p.weight, height) {
                    None => None,
                    Some(all) => Some(Level { chain: Some(all), several: true, ..level }),
                }
            },
        },
    }
}

fn end_sequence(level: Level) -> (r: Option<Part>)
    requires
        level_fits(level),
    ensures
        r == sequence_of(level),
        fits(r),
{
    match level.chain {
        None => None,
        Some(c) => part(
            c.extent,
            c.weight,
            c.height + if level.several {
                1
            } else {
                0
            },
        ),
    }
}

fn add_choice(level: Level) -> (r: Option<Level>)
    requires
        level_fits(level),
    ensures
        r == with_choice(level),
        r matches Some(l) ==> level_fits(l),
{
    match end_sequence(level) {
        None => None,
        Some(p) => match level.choice {
            None => Some(
                Level {
                    branch: level.branch,
                    chain: None,
                    several: false,
                    choice: Some(p),
                    choices: false,
                },
            ),
            Some(c) => {
                let weight = if c.weight < p.weight {
                    p.weight
                } else {
                    c.weight
                };
                let height = if c.height < p.height {
                    p.height
                } else {
                    c.height
                };
                let extent = choice_extent(c.extent, p.extent);
                Some(
                    Level {
                        branch: level.branch,
                        chain: None,
                        several: false,
                        choice: Some(Part { extent, weight, height }),
                        choices: true,
                    },
                )
            },
        },
    }
}

fn end_choice(level: Level) -> (r: Option<Part>)
    requires
        level_fits(level),
    ensures
        r == choice_of(level),
        fits(r),
{
    match add_choice(level) {
        Some(all) => match all.choice {
            Some(c) => part(
                c.extent,
                c.weight,
                c.height + if all.choices {
                    3
                } else {
                    2
                },
            ),
            None => None,
        },
        None => None,
    }
}

fn end_repetition(level: Level, lower: u64, upper: Option<u64>) -> (r: Option<Part>)
    requires
        level_fits(level),
        lower <= MAX_WEIGHT,
        upper matches Some(upper) ==> upper <= MAX_WEIGHT,
    ensures
        r == repetition_of(level, lower, upper),
        fits(r),
{
    match end_sequence(level) {
        None => None,
        Some(p) => {
            let most = match upper {
                Some(upper) => if lower < upper {
                    upper
                } else {
                    lower
                },
                None => lower,
            };
            let n: u64 = if most == 0 {
                1
            } else {
                most
            };
            let weight: u64 = p.weight;
            assert(weight * n <= 0xffff_ffff * 0xffff_ffff) by (nonlinear_arith)
                requires
                    weight <= 0xffff_ffff,
                    n <= 0xffff_ffff,
            ;
            part(
                repeated_extent(p.extent, lower == 0, upper.is_none()),
                weight * n,
                p.height + 3,
            )
        },
    }
}

/// The bounds of a repetition as far as they have been read.
#[derive(Clone, Copy, Debug)]
pub struct Bounds {
    pub lower: Option<u64>,
    pub comma: bool,
    pub upper: Option<u64>,
}

/// What the next character belongs to.
#[derive(Clone, Copy, Debug)]
pub enum Mode {
    Plain,
    /// It is escaped.
    Escaped,
    /// It stands in a class, and is escaped there or not.
    Class { escaped: bool },
    /// It stands in a flag such as `(?i)`.
    Flags,
    /// It stands in the bounds of a repetition.
    Bounds(Bounds),
}

/// What has been read but is not a part yet, since the next character may change it.
#[derive(Clone, Copy, PartialEq, Eq, Structural, Debug)]
pub enum Held {
    Nothing,
    Slash,
    Star,
    SlashStar,
    /// A `**`, which takes the next `/` with it.
    Tree,
}

/// How far a pattern has been read.
pub struct Reading {
    /// The branches around the one that is being read, the outermost first.
    pub outer: Seq<Level>,
    pub level: Level,
    pub mode: Mode,
    pub held: Held,
}

/// A reading after one more part.
pub open spec fn added(s: Reading, p: Part, several: bool) -> Option<Reading> {
    match with_part(s.level, p, several) {
        None => None,
        Some(level) => Some(Reading { level, ..s }),
    }
}

/// A reading whose held characters have become parts.
pub open spec fn released(s: Reading) -> Option<Reading> {
    let free = Reading { held: Held::Nothing, ..s };
    match s.held {
        Held::Nothing | Held::Tree => Some(free),
        Held::Slash => added(free, separator(), false),
        Held::Star => added(free, some_characters(), false),
        Held::SlashStar => match added(free, separator(), false) {
            None => None,
            Some(t) => added(t, some_characters(), false),
        },
    }
}

/// A reading inside a new branch.
pub open spec fn opened(s: Reading, branch: Branch) -> Option<Reading> {
    if s.outer.len() < MAX_LEVELS {
        Some(Reading { outer: s.outer.push(s.level), level: fresh(branch), ..s })
    } else {
        None
    }
}

/// A reading whose branch is closed and comes to `p`.
pub open spec fn closed(s: Reading, p: Option<Part>) -> Option<Reading> {
    match p {
        None => None,
        Some(p) => if s.outer.len() == 0 {
            None
        } else {
            added(
                Reading {
                    outer: s.outer.drop_last(),
                    level: s.outer.last(),
                    mode: Mode::Plain,
                    held: s.held,
                },
                p,
                false,
            )
        },
    }
}

/// A number after one more digit.
pub open spec fn with_digit(n: Option<u64>, c: char) -> Option<u64> {
    let before = match n {
        Some(n) => n as int,
        None => 0,
    };
    let after = 10 * before + (c as int - '0' as int);
    if after <= MAX_WEIGHT {
        Some(after as u64)
    } else {
        None
    }
}

/// A reading after one more character of the bounds of a repetition.
pub open spec fn after_bounds(s: Reading, b: Bounds, c: char) -> Option<Reading> {
    if '0' <= c <= '9' {
        match with_digit(
            if b.comma {
                b.upper
            } else {
                b.lower
            },
            c,
        ) {
            None => None,
            Some(n) => Some(
                Reading {
                    mode: Mode::Bounds(
                        if b.comma {
                            Bounds { upper: Some(n), ..b }
                        } else {
                            Bounds { lower: Some(n), ..b }
                        },
                    ),
                    ..s
                },
            ),
        }
    } else if c == ',' && b.lower is Some && !b.comma {
        Some(Reading { mode: Mode::Bounds(Bounds { comma: true, ..b }), ..s })
    } else if c == '>' {
        match b.lower {
            None => closed(s, repetition_of(s.level, 1, None)),
            Some(lower) => closed(
                s,
                repetition_of(
                    s.level,
                    lower,
                    if b.comma {
                        b.upper
                    } else {
                        Some(lower)
                    },
                ),
            ),
        }
    } else {
        None
    }
}

/// A reading with nothing held after one more plain character.
pub open spec fn after_symbol(s: Reading, c: char) -> Option<Reading> {
    if c == '\\' {
        Some(Reading { mode: Mode::Escaped, ..s })
    } else if c == '[' {
        Some(Reading { mode: Mode::Class { escaped: false }, ..s })
    } else if c == '?' {
        added(s, one_character(), false)
    } else if c == '$' {
        added(s, some_characters(), false)
    } else if c == '{' {
        opened(s, Branch::Choice)
    } else if c == '<' {
        opened(s, Branch::Repetition)
    } else if c == ',' && s.level.branch == Branch::Choice {
        match with_choice(s.level) {
            None => None,
            Some(level) => Some(Reading { level, ..s }),
        }
    } else if c == '}' && s.level.branch == Branch::Choice {
        closed(s, choice_of(s.level))
    } else if c == ':' && s.level.branch == Branch::Repetition {
        Some(Reading { mode: Mode::Bounds(Bounds { lower: None, comma: false, upper: None }), ..s })
    } else if c == '>' && s.level.branch == Branch::Repetition {
        closed(s, repetition_of(s.level, 0, None))
    } else if c == ',' || c == '}' || c == ':' || c == '>' || c == ')' || c == ']' {
        None
    } else {
        added(s, literal(), true)
    }
}

/// A reading after one more character outside of classes, flags and bounds.
pub open spec fn after_plain(s: Reading, c: char) -> Option<Reading> {
    if c == '(' {
        Some(Reading { mode: Mode::Flags, ..s })
    } else if c == '*' {
        match s.held {
            Held::Star | Held::SlashStar => added(
                Reading { held: Held::Tree, ..s },
                some_components(),
                false,
            ),
            Held::Slash => Some(Reading { held: Held::SlashStar, ..s }),
            Held::Nothing | Held::Tree => Some(Reading { held: Held::Star, ..s }),
        }
    } else if c == '/' && s.held == Held::Tree {
        Some(Reading { held: Held::Nothing, ..s })
    } else {
        match released(s) {
            None => None,
            Some(t) => if c == '/' {
                Some(Reading { held: Held::Slash, ..t })
            } else {
                after_symbol(t, c)
            },
        }
    }
}

/// A reading after one more character; none where the pattern cannot be read or is one that wax
/// panics on.
pub open spec fn after(s: Reading, c: char) -> Option<Reading> {
    match s.mode {
        Mode::Plain => after_plain(s, c),
        Mode::Escaped => added(Reading { mode: Mode::Plain, ..s }, literal(), true),
        Mode::Class { escaped } => if !escaped && c == ']' {
            added(Reading { mode: Mode::Plain, ..s }, class_of_characters(), false)
        } else {
            Some(Reading { mode: Mode::Class { escaped: !escaped && c == '\\' }, ..s })
        },
        Mode::Flags => Some(
            Reading {
                mode: if c == ')' {
                    Mode::Plain
                } else {
                    Mode::Flags
                },
                ..s
            },
        ),
        Mode::Bounds(b) => after_bounds(s, b, c),
    }
}

/// Before anything is read.
pub open spec fn nothing_read() -> Reading {
    Reading {
        outer: Seq::empty(),
        level: fresh(Branch::Whole),
        mode: Mode::Plain,
        held: Held::Nothing,
    }
}

/// How far a pattern has been read after all of its characters.
pub open spec fn reading(p: Seq<char>) -> Option<Reading>
    decreases p.len(),
{
    if p.len() == 0 {
        Some(nothing_read())
    } else {
        match reading(p.drop_last()) {
            None => None,
            Some(s) => after(s, p.last()),
        }
    }
}

/// Whether a pattern can be handed to wax, which takes it or refuses it: its parts come to an
/// extent within the limits. A pattern that leaves a branch, a class or the like open is none,
/// and wax refuses it.
pub open spec fn safe_glob(p: Seq<char>) -> bool {
    match reading(p) {
        None => false,
        Some(s) => released(s) is Some && s.outer.len() == 0 && s.mode is Plain,
    }
}

/// Reads a pattern.
struct Reader {
    outer: Vec<Level>,
    level: Level,
    mode: Mode,
    held: Held,
}

impl View for Reader {
    type V = Reading;

    closed spec fn view(&self) -> Reading {
        Reading { outer: self.outer@, level: self.level, mode: self.mode, held: self.held }
    }
}

/// Whether what has been read is within the limits.
spec fn reading_fits(s: Reading) -> bool {
    &&& level_fits(s.level)
    &&& forall|i: int| 0 <= i < s.outer.len() ==> level_fits(#[trigger] s.outer[i])
    &&& s.mode matches Mode::Bounds(b) ==> {
        &&& b.lower matches Some(n) ==> n <= MAX_WEIGHT
        &&& b.upper matches Some(n) ==> n <= MAX_WEIGHT
    }
}

/// Whether a step was taken as told: it failed, or came to a reading within the limits.
spec fn came_to(r: bool, now: Reading, told: Option<Reading>) -> bool {
    match told {
        None => !r,
        Some(s) => r && now == s && reading_fits(s),
    }
}

impl Reader {
    fn add(&mut self, p: Part, several: bool) -> (r: bool)
        requires
            reading_fits(old(self)@),
            fits(Some(p)),
        ensures
            came_to(r, final(self)@, added(old(self)@, p, several)),
    {
        match add_part(self.level, p, several) {
            None => false,
            Some(level) => {
                self.level = level;
                true
            },
        }
    }

    fn release(&mut self) -> (r: bool)
        requires
            reading_fits(old(self)@),
        ensures
            came_to(r, final(self)@, released(old(self)@)),
    {
        let held = self.held;
        self.held = Held::Nothing;
        let slash = Part { extent: Extent::Bounded, weight: LEAF_WEIGHT, height: 2 };
        let star = Part { extent: Extent::Open, weight: LEAF_WEIGHT, height: 4 };
        match held {
            Held::Nothing | Held::Tree => true,
            Held::Slash => self.add(slash, false),
            Held::Star => self.add(star, false),
            Held::SlashStar => self.add(slash, false) && self.add(star, false),
        }
    }

    fn open(&mut self, branch: Branch) -> (r: bool)
        requires
            reading_fits(old(self)@),
        ensures
            came_to(r, final(self)@, opened(old(self)@, branch)),
    {
        if self.outer.len() < MAX_LEVELS {
            self.outer.push(self.level);
            self.level = Level {
                branch,
                chain: None,
                several: false,
                choice: None,
                choices: false,
            };
            true
        } else {
            false
        }
    }

    fn close(&mut self, p: Option<Part>) -> (r: bool)
        requires
            reading_fits(old(self)@),
            fits(p),
        ensures
            came_to(r, final(self)@, closed(old(self)@, p)),
    {
        match p {
            None => false,
            Some(p) => match self.outer.pop() {
                None => false,
                Some(level) => {
                    self.level = level;
                    self.mode = Mode::Plain;
                    self.add(p, false)
                },
            },
        }
    }

    fn read_bounds(&mut self, b: Bounds, c: char) -> (r: bool)
        requires
            reading_fits(old(self)@),
            old(self)@.mode == Mode::Bounds(b),
        ensures
            came_to(r, final(self)@, after_bounds(old(self)@, b, c)),
    {
        if '0' <= c && c <= '9' {
            let n = if b.comma {
                b.upper
            } else {
                b.lower
            };
            let before: u64 = match n {
                Some(n) => n,
                None => 0,
            };
            let after: u64 = 10 * before + (c as u64 - '0' as u64);
            if after > MAX_WEIGHT {
                return false;
            }
            self.mode = Mode::Bounds(
                if b.comma {
                    Bounds { lower: b.lower, comma: b.comma, upper: Some(after) }
                } else {
                    Bounds { lower: Some(after), comma: b.comma, upper: b.upper }
                },
            );
            true
        } else if c == ',' && b.lower.is_some() && !b.comma {
            self.mode = Mode::Bounds(Bounds { lower: b.lower, comma: true, upper: b.upper });
            true
        } else if c == '>' {
            let p = match b.lower {
                None => end_repetition(self.level, 1, None),
                Some(lower) => end_repetition(
                    self.level,
                    lower,
                    if b.comma {
                        b.upper
                    } else {
                        Some(lower)
                    },
                ),
            };
            self.close(p)
        } else {
            false
        }
    }

    fn read_symbol(&mut self, c: char) -> (r: bool)
        requires
            reading_fits(old(self)@),
        ensures
            came_to(r, final(self)@, after_symbol(old(self)@, c)),
    {
        if c == '\\' {
            self.mode = Mode::Escaped;
            true
        } else if c == '[' {
            self.mode = Mode::Class { escaped: false };
            true
        } else if c == '?' {
            self.add(Part { extent: Extent::Bounded, weight: LEAF_WEIGHT, height: 3 }, false)
        } else if c == '$' {
            self.add(Part { extent: Extent::Open, weight: LEAF_WEIGHT, height: 4 }, false)
        } else if c == '{' {
            self.open(Branch::Choice)
        } else if c == '<' {
            self.open(Branch::Repetition)
        } else if c == ',' && self.level.branch == Branch::Choice {
            match add_choice(self.level) {
                None => false,
                Some(level) => {
                    self.level = level;
                    true
                },
            }
        } else if c == '}' && self.level.branch == Branch::Choice {
            let p = end_choice(self.level);
            self.close(p)
        } else if c == ':' && self.level.branch == Branch::Repetition {
            self.mode = Mode::Bounds(Bounds { lower: None, comma: false, upper: None });
            true
        } else if c == '>' && self.level.branch == Branch::Repetition {
            let p = end_repetition(self.level, 0, None);
            self.close(p)
        } else if c == ',' || c == '}' || c == ':' || c == '>' || c == ')' || c == ']' {
            false
        } else {
            self.add(Part { extent: Extent::Bounded, weight: LEAF_WEIGHT, height: 0 }, true)
        }
    }

    fn read_plain(&mut self, c: char) -> (r: bool)
        requires
            reading_fits(old(self)@),
        ensures
            came_to(r, final(self)@, after_plain(old(self)@, c)),
    {
        if c == '(' {
            self.mode = Mode::Flags;
            true
        } else if c == '*' {
            match self.held {
                Held::Star | Held::SlashStar => {
                    self.held = Held::Tree;
                    self.add(Part { extent: Extent::Open, weight: LEAF_WEIGHT, height: 7 }, false)
                },
                Held::Slash => {
                    self.held = Held::SlashStar;
                    true
                },
                Held::Nothing | Held::Tree => {
                    self.held = Held::Star;
                    true
                },
            }
        } else if c == '/' && self.held == Held::Tree {
            self.held = Held::Nothing;
            true
        } else if !self.release() {
            false
        } else if c == '/' {
            self.held = Held::Slash;
            true
        } else {
            self.read_symbol(c)
        }
    }

    /// Reads one more character.
    fn read(&mut self, c: char) -> (r: bool)
        requires
            reading_fits(old(self)@),
        ensures
            came_to(r, final(self)@, after(old(self)@, c)),
    {
        match self.mode {
            Mode::Plain => self.read_plain(c),
            Mode::Escaped => {
                self.mode = Mode::Plain;
                self.add(Part { extent: Extent::Bounded, weight: LEAF_WEIGHT, height: 0 }, true)
            },
            Mode::Class { escaped } => {
                if !escaped && c == ']' {
                    self.mode = Mode::Plain;
                    self.add(
                        Part { extent: Extent::Bounded, weight: LEAF_WEIGHT, height: 5 },
                        false,
                    )
                } else {
                    self.mode = Mode::Class { escaped: !escaped && c == '\\' };
                    true
                }
            },
            Mode::Flags => {
                if c == ')' {
                    self.mode = Mode::Plain;
                }
                true
            },
            Mode::Bounds(b) => self.read_bounds(b, c),
        }
    }
}

proof fn lemma_unread(p: Seq<char>, n: int)
    requires
        0 <= n <= p.len(),
        reading(p.take(n)) is None,
    ensures
        reading(p) is None,
    decreases p.len() - n,
{
    if n < p.len() {
        assert(p.take(n + 1).drop_last() =~= p.take(n));
        lemma_unread(p, n + 1);
    } else {
        assert(p.take(n) =~= p);
    }
}

/// Whether a pattern can be handed to wax.
pub fn is_safe_glob(pattern: &str) -> (r: bool)
    ensures
        r == safe_glob(pattern@),
{
    let v = to_chars(pattern);
    let mut reader = Reader {
        outer: Vec::new(),
        level: Level {
            branch: Branch::Whole,
            chain: None,
            several: false,
            choice: None,
            choices: false,
        },
        mode: Mode::Plain,
        held: Held::Nothing,
    };
    let mut i: usize = 0;
    proof {
        assert(v@.take(0).len() == 0);
        assert(reader@.outer =~= Seq::<Level>::empty());
    }
    while i < v.len()
        invariant
            i <= v.len(),
            v@ == pattern@,
            reading(v@.take(i as int)) == Some(reader@),
            reading_fits(reader@),
        decreases v.len() - i,
    {
        proof {
            assert(v@.take(i + 1).drop_last() =~= v@.take(i as int));
            assert(v@.take(i + 1).last() == v@[i as int]);
        }
        if !reader.read(v[i]) {
            proof {
                lemma_unread(v@, i + 1);
            }
            return false;
        }
        i = i + 1;
    }
    assert(v@.take(i as int) =~= v@);
    let whole = reader.outer.len() == 0 && matches!(reader.mode, Mode::Plain);
    reader.release() && whole
}

} // verus!
