//! Thinking levels, what a model offers of them, and which one a request gets.
use crate::text;
use std::str::FromStr;
use vstd::prelude::*;
use vstd::string::*;

verus! {

/// How deeply a model is asked to think, from not at all to most.
#[derive(Debug, Clone, Copy, PartialEq, Eq, PartialOrd, Ord, Structural)]
pub enum ThinkingLevel {
    Off,
    Minimal,
    Low,
    Medium,
    High,
    XHigh,
    Max,
}

/// The place of a level on the ladder.
pub open spec fn rank(level: ThinkingLevel) -> nat {
    match level {
        ThinkingLevel::Off => 0,
        ThinkingLevel::Minimal => 1,
        ThinkingLevel::Low => 2,
        ThinkingLevel::Medium => 3,
        ThinkingLevel::High => 4,
        ThinkingLevel::XHigh => 5,
        ThinkingLevel::Max => 6,
    }
}

/// All levels, from not at all to most.
pub open spec fn ladder() -> Seq<ThinkingLevel> {
    seq![
        ThinkingLevel::Off,
        ThinkingLevel::Minimal,
        ThinkingLevel::Low,
        ThinkingLevel::Medium,
        ThinkingLevel::High,
        ThinkingLevel::XHigh,
        ThinkingLevel::Max,
    ]
}

pub open spec fn level_name(level: ThinkingLevel) -> Seq<char> {
    match level {
        ThinkingLevel::Off => "off"@,
        ThinkingLevel::Minimal => "minimal"@,
        ThinkingLevel::Low => "low"@,
        ThinkingLevel::Medium => "medium"@,
        ThinkingLevel::High => "high"@,
        ThinkingLevel::XHigh => "xhigh"@,
        ThinkingLevel::Max => "max"@,
    }
}

/// The level that a text names, whatever its case and the space around it.
pub open spec fn level_of(value: Seq<char>) -> Option<ThinkingLevel> {
    let word = text::ascii_lowercase(text::trim(value));
    if word == "off"@ {
        Some(ThinkingLevel::Off)
    } else if word == "minimal"@ {
        Some(ThinkingLevel::Minimal)
    } else if word == "low"@ {
        Some(ThinkingLevel::Low)
    } else if word == "medium"@ {
        Some(ThinkingLevel::Medium)
    } else if word == "high"@ {
        Some(ThinkingLevel::High)
    } else if word == "xhigh"@ {
        Some(ThinkingLevel::XHigh)
    } else if word == "max"@ {
        Some(ThinkingLevel::Max)
    } else {
        None
    }
}

pub open spec fn level_complaint(value: Seq<char>) -> Seq<char> {
    "thinking level must be one of off, minimal, low, medium, high, xhigh, or max; got "@
        + text::debug_quoted(value)
}

/// The level that comes after `level`; after the last one the first.
pub open spec fn next_level(level: ThinkingLevel) -> ThinkingLevel {
    ladder()[((rank(level) + 1) % 7) as int]
}

/// `level`, raised to at least `min` and then lowered to at most `max`.
pub open spec fn clamped(
    level: ThinkingLevel,
    min: ThinkingLevel,
    max: ThinkingLevel,
) -> ThinkingLevel {
    let raised = if rank(level) >= rank(min) {
        level
    } else {
        min
    };
    if rank(raised) <= rank(max) {
        raised
    } else {
        max
    }
}

/// Stepping through the levels comes back to where it started after seven
/// steps, and not before.
pub proof fn law_next_cycles(level: ThinkingLevel)
    ensures
        next_level(next_level(next_level(next_level(next_level(next_level(next_level(level)))))))
            == level,
        next_level(level) != level,
        next_level(next_level(level)) != level,
        next_level(next_level(next_level(level))) != level,
        next_level(next_level(next_level(next_level(level)))) != level,
        next_level(next_level(next_level(next_level(next_level(level))))) != level,
        next_level(next_level(next_level(next_level(next_level(next_level(level)))))) != level,
{
}

impl ThinkingLevel {
    pub const ALL: [ThinkingLevel; 7] = [
        ThinkingLevel::Off,
        ThinkingLevel::Minimal,
        ThinkingLevel::Low,
        ThinkingLevel::Medium,
        ThinkingLevel::High,
        ThinkingLevel::XHigh,
        ThinkingLevel::Max,
    ];

    /// The place of this level on the ladder.
    pub fn rank(self) -> (r: usize)
        ensures
            r == rank(self),
            r < 7,
    {
        match self {
            ThinkingLevel::Off => 0,
            ThinkingLevel::Minimal => 1,
            ThinkingLevel::Low => 2,
            ThinkingLevel::Medium => 3,
            ThinkingLevel::High => 4,
            ThinkingLevel::XHigh => 5,
            ThinkingLevel::Max => 6,
        }
    }

    /// The level at a place on the ladder.
    fn at(place: usize) -> (r: ThinkingLevel)
        requires
            place < 7,
        ensures
            r == ladder()[place as int],
            rank(r) == place,
    {
        if place == 0 {
            ThinkingLevel::Off
        } else if place == 1 {
            ThinkingLevel::Minimal
        } else if place == 2 {
            ThinkingLevel::Low
        } else if place == 3 {
            ThinkingLevel::Medium
        } else if place == 4 {
            ThinkingLevel::High
        } else if place == 5 {
            ThinkingLevel::XHigh
        } else {
            ThinkingLevel::Max
        }
    }

    pub fn next(self) -> (r: ThinkingLevel)
        ensures
            r == next_level(self),
    {
        match self {
            ThinkingLevel::Off => ThinkingLevel::Minimal,
            ThinkingLevel::Minimal => ThinkingLevel::Low,
            ThinkingLevel::Low => ThinkingLevel::Medium,
            ThinkingLevel::Medium => ThinkingLevel::High,
            ThinkingLevel::High => ThinkingLevel::XHigh,
            ThinkingLevel::XHigh => ThinkingLevel::Max,
            ThinkingLevel::Max => ThinkingLevel::Off,
        }
    }

    pub fn clamp(self, min: ThinkingLevel, max: ThinkingLevel) -> (r: ThinkingLevel)
        ensures
            r == clamped(self, min, max),
    {
        let raised = if self.rank() >= min.rank() {
            self
        } else {
            min
        };
        if raised.rank() <= max.rank() {
            raised
        } else {
            max
        }
    }

    /// The word for this level.
    pub fn name(self) -> (r: &'static str)
        ensures
            r@ == level_name(self),
    {
        match self {
            ThinkingLevel::Off => "off",
            ThinkingLevel::Minimal => "minimal",
            ThinkingLevel::Low => "low",
            ThinkingLevel::Medium => "medium",
            ThinkingLevel::High => "high",
            ThinkingLevel::XHigh => "xhigh",
            ThinkingLevel::Max => "max",
        }
    }

    /// The word for this level.
    pub fn to_string(self) -> (r: String)
        ensures
            r@ == level_name(self),
    {
        self.name().to_owned()
    }

    /// The level that a text names.
    pub fn parse(value: &str) -> (r: Result<ThinkingLevel, String>)
        ensures
            match r {
                Ok(level) => level_of(value@) == Some(level),
                Err(message) => level_of(value@) is None && message@ == level_complaint(value@),
            },
    {
        let trimmed = text::trim_of(value);
        let lowered = text::ascii_lowercase_of(trimmed.as_str());
        let word = lowered.as_str();
        if text::same(word, "off") {
            Ok(ThinkingLevel::Off)
        } else if text::same(word, "minimal") {
            Ok(ThinkingLevel::Minimal)
        } else if text::same(word, "low") {
            Ok(ThinkingLevel::Low)
        } else if text::same(word, "medium") {
            Ok(ThinkingLevel::Medium)
        } else if text::same(word, "high") {
            Ok(ThinkingLevel::High)
        } else if text::same(word, "xhigh") {
            Ok(ThinkingLevel::XHigh)
        } else if text::same(word, "max") {
            Ok(ThinkingLevel::Max)
        } else {
            let quoted = text::debug_text(value);
            Err(
                text::concat(
                    "thinking level must be one of off, minimal, low, medium, high, xhigh, or max; got ",
                    quoted.as_str(),
                ),
            )
        }
    }
}

impl FromStr for ThinkingLevel {
    type Err = String;

    fn from_str(value: &str) -> Result<ThinkingLevel, String> {
        ThinkingLevel::parse(value)
    }
}

impl Default for ThinkingLevel {
    fn default() -> (r: ThinkingLevel)
        ensures
            r == ThinkingLevel::Medium,
    {
        ThinkingLevel::Medium
    }
}

/// How thinking is asked for.
#[derive(Debug, Clone, Copy, PartialEq, Eq, Structural)]
pub enum ThinkingMode {
    Effort,
}

// ---------------------------------------------------------------------------
// Provider values
// ---------------------------------------------------------------------------

/// The words that a provider uses for levels.
#[derive(Debug, PartialEq, Eq)]
pub struct EffortMap {
    slots: [Option<String>; 7],
}

impl View for EffortMap {
    type V = Map<ThinkingLevel, Seq<char>>;

    closed spec fn view(&self) -> Map<ThinkingLevel, Seq<char>> {
        Map::new(
            |level: ThinkingLevel| self.slots@[rank(level) as int] is Some,
            |level: ThinkingLevel| self.slots@[rank(level) as int]->0@,
        )
    }
}

/// The words that are used where nothing else is known.
pub open spec fn default_effort() -> Map<ThinkingLevel, Seq<char>> {
    Map::empty().insert(ThinkingLevel::Low, "low"@).insert(ThinkingLevel::Medium, "medium"@).insert(
        ThinkingLevel::High,
        "high"@,
    )
}

impl Default for EffortMap {
    fn default() -> (r: EffortMap)
        ensures
            r@ == Map::<ThinkingLevel, Seq<char>>::empty(),
    {
        EffortMap::new()
    }
}

impl EffortMap {
    pub fn new() -> (r: EffortMap)
        ensures
            r@ == Map::<ThinkingLevel, Seq<char>>::empty(),
    {
        let slots: [Option<String>; 7] = [None, None, None, None, None, None, None];
        let r = EffortMap { slots };
        assert forall|level: ThinkingLevel| !(#[trigger] r@.contains_key(level)) by {
            assert(slots@[rank(level) as int] is None);
        }
        assert(r@ =~= Map::<ThinkingLevel, Seq<char>>::empty());
        r
    }

    pub fn get(&self, level: &ThinkingLevel) -> (r: Option<&String>)
        ensures
            match r {
                Some(word) => self@.contains_key(*level) && self@[*level] == word@,
                None => !self@.contains_key(*level),
            },
    {
        match &self.slots[level.rank()] {
            Some(word) => Some(word),
            None => None,
        }
    }

    pub fn contains_key(&self, level: &ThinkingLevel) -> (r: bool)
        ensures
            r == self@.contains_key(*level),
    {
        self.slots[level.rank()].is_some()
    }

    pub fn insert(&mut self, level: ThinkingLevel, word: String)
        ensures
            final(self)@ == old(self)@.insert(level, word@),
    {
        let ghost before = self@;
        let place: usize = level.rank();
        self.slots[place] = Some(word);
        proof {
            lemma_rank_injective();
            assert forall|other: ThinkingLevel| #[trigger]
                self@.contains_key(other) == before.insert(level, word@).contains_key(other) by {}
        }
        assert(self@ =~= before.insert(level, word@));
    }

    pub fn remove(&mut self, level: &ThinkingLevel)
        ensures
            final(self)@ == old(self)@.remove(*level),
    {
        let ghost before = self@;
        let place: usize = level.rank();
        self.slots[place] = None;
        proof {
            lemma_rank_injective();
        }
        assert(self@ =~= before.remove(*level));
    }

    pub fn clear(&mut self)
        ensures
            final(self)@ == Map::<ThinkingLevel, Seq<char>>::empty(),
    {
        *self = EffortMap::new();
    }

    pub fn is_empty(&self) -> (r: bool)
        ensures
            r == (self@ == Map::<ThinkingLevel, Seq<char>>::empty()),
    {
        let mut i: usize = 0;
        while i < 7
            invariant
                i <= 7,
                self.slots@.len() == 7,
                forall|j: int| 0 <= j < i ==> (#[trigger] self.slots@[j]) is None,
            decreases 7 - i,
        {
            if self.slots[i].is_some() {
                proof {
                    let level = ladder()[i as int];
                    assert(rank(level) == i);
                    assert(self@.contains_key(level));
                    assert(!Map::<ThinkingLevel, Seq<char>>::empty().contains_key(level));
                }
                return false;
            }
            i = i + 1;
        }
        assert forall|level: ThinkingLevel| !(#[trigger] self@.contains_key(level)) by {
            assert(self.slots@[rank(level) as int] is None);
        }
        assert(self@ =~= Map::<ThinkingLevel, Seq<char>>::empty());
        true
    }

    /// Takes over every word of `other`.
    pub fn extend(&mut self, other: &EffortMap)
        ensures
            final(self)@ == old(self)@.union_prefer_right(other@),
    {
        let ghost before = self@;
        let ghost held = self.slots@;
        let mut i: usize = 0;
        while i < 7
            invariant
                i <= 7,
                held.len() == 7,
                self.slots@.len() == 7,
                other.slots@.len() == 7,
                forall|j: int|
                    0 <= j < 7 ==> (#[trigger] self.slots@[j] is Some) == (held[j] is Some || (j < i
                        && other.slots@[j] is Some)),
                forall|j: int|
                    0 <= j < 7 && (#[trigger] self.slots@[j]) is Some ==> self.slots@[j]->0@ == if j
                        < i && other.slots@[j] is Some {
                        other.slots@[j]->0@
                    } else {
                        held[j]->0@
                    },
            decreases 7 - i,
        {
            match &other.slots[i] {
                Some(word) => {
                    self.slots[i] = Some(word.clone());
                },
                None => {},
            }
            i = i + 1;
        }
        assert forall|level: ThinkingLevel| #[trigger]
            self@.contains_key(level) == before.union_prefer_right(other@).contains_key(level) by {
            let j = rank(level) as int;
            assert(self.slots@[j] is Some == (held[j] is Some || other.slots@[j] is Some));
        }
        assert forall|level: ThinkingLevel| self@.contains_key(level) implies #[trigger] self@[level]
            == before.union_prefer_right(other@)[level] by {
            let j = rank(level) as int;
            assert(self.slots@[j] is Some);
        }
        assert(self@ =~= before.union_prefer_right(other@));
    }

    /// A copy of this map.
    pub fn copy(&self) -> (r: EffortMap)
        ensures
            r@ == self@,
    {
        let mut r = EffortMap::new();
        r.extend(self);
        assert(r@ =~= self@);
        r
    }

    /// The levels that have a word, from the lowest on.
    pub fn keys(&self) -> (r: Vec<ThinkingLevel>)
        ensures
            r@ == ladder().filter(|level: ThinkingLevel| self@.contains_key(level)),
    {
        let ghost keep = |level: ThinkingLevel| self@.contains_key(level);
        let mut r: Vec<ThinkingLevel> = Vec::new();
        let mut i: usize = 0;
        proof {
            reveal(Seq::filter);
        }
        assert(r@ =~= ladder().take(0).filter(keep));
        while i < 7
            invariant
                i <= 7,
                self.slots@.len() == 7,
                keep == (|level: ThinkingLevel| self@.contains_key(level)),
                r@ == ladder().take(i as int).filter(keep),
            decreases 7 - i,
        {
            proof {
                reveal(Seq::filter);
            }
            assert(ladder().take(i as int + 1).drop_last() =~= ladder().take(i as int));
            let level = ThinkingLevel::at(i);
            if self.contains_key(&level) {
                r.push(level);
            }
            i = i + 1;
        }
        assert(ladder().take(7) =~= ladder());
        r
    }
}

/// No two levels share a place.
pub proof fn lemma_rank_injective()
    ensures
        forall|a: ThinkingLevel, b: ThinkingLevel| #[trigger] rank(a) == #[trigger] rank(b) ==> a == b,
{
}

pub fn default_reasoning_effort_map() -> (r: EffortMap)
    ensures
        r@ == default_effort(),
{
    let mut r = EffortMap::new();
    r.insert(ThinkingLevel::Low, "low".to_owned());
    r.insert(ThinkingLevel::Medium, "medium".to_owned());
    r.insert(ThinkingLevel::High, "high".to_owned());
    r
}

// ---------------------------------------------------------------------------
// Supported levels
// ---------------------------------------------------------------------------

/// `levels` in the order of the ladder, each once, and always with Off.
pub open spec fn normalized_levels(levels: Seq<ThinkingLevel>) -> Seq<ThinkingLevel> {
    ladder().filter(
        |level: ThinkingLevel| level == ThinkingLevel::Off || levels.contains(level),
    )
}

/// All levels, from not at all to most.
pub fn ladder_levels() -> (r: Vec<ThinkingLevel>)
    ensures
        r@ == ladder(),
{
    let mut r: Vec<ThinkingLevel> = Vec::new();
    let mut i: usize = 0;
    while i < 7
        invariant
            i <= 7,
            r@ == ladder().take(i as int),
        decreases 7 - i,
    {
        r.push(ThinkingLevel::at(i));
        i = i + 1;
        assert(r@ =~= ladder().take(i as int));
    }
    assert(ladder().take(7) =~= ladder());
    r
}

pub fn contains_level(levels: &Vec<ThinkingLevel>, level: ThinkingLevel) -> (r: bool)
    ensures
        r == levels@.contains(level),
{
    let mut i: usize = 0;
    while i < levels.len()
        invariant
            i <= levels@.len(),
            forall|j: int| 0 <= j < i ==> levels@[j] != level,
        decreases levels@.len() - i,
    {
        if levels[i] == level {
            return true;
        }
        i = i + 1;
    }
    false
}

pub fn normalize_supported_levels(levels: &Vec<ThinkingLevel>) -> (r: Vec<ThinkingLevel>)
    ensures
        r@ == normalized_levels(levels@),
{
    let ghost keep = |level: ThinkingLevel|
        level == ThinkingLevel::Off || levels@.contains(level);
    let mut r: Vec<ThinkingLevel> = Vec::new();
    let mut i: usize = 0;
    proof {
        reveal(Seq::filter);
    }
    assert(r@ =~= ladder().take(0).filter(keep));
    while i < 7
        invariant
            i <= 7,
            keep == (|level: ThinkingLevel|
                level == ThinkingLevel::Off || levels@.contains(level)),
            r@ == ladder().take(i as int).filter(keep),
        decreases 7 - i,
    {
        proof {
            reveal(Seq::filter);
        }
        assert(ladder().take(i as int + 1).drop_last() =~= ladder().take(i as int));
        let level = ThinkingLevel::at(i);
        if level == ThinkingLevel::Off || contains_level(levels, level) {
            r.push(level);
        }
        i = i + 1;
    }
    assert(ladder().take(7) =~= ladder());
    r
}

/// The first of `levels` that is not Off.
pub open spec fn first_enabled(levels: Seq<ThinkingLevel>) -> Option<ThinkingLevel>
    decreases levels.len(),
{
    if levels.len() == 0 {
        None
    } else if levels[0] != ThinkingLevel::Off {
        Some(levels[0])
    } else {
        first_enabled(levels.skip(1))
    }
}

/// The last of `levels` that is not Off.
pub open spec fn last_enabled(levels: Seq<ThinkingLevel>) -> Option<ThinkingLevel>
    decreases levels.len(),
{
    if levels.len() == 0 {
        None
    } else if levels.last() != ThinkingLevel::Off {
        Some(levels.last())
    } else {
        last_enabled(levels.drop_last())
    }
}

proof fn lemma_first_enabled_skip(levels: Seq<ThinkingLevel>, i: int)
    requires
        0 <= i <= levels.len(),
        forall|j: int| 0 <= j < i ==> levels[j] == ThinkingLevel::Off,
    ensures
        first_enabled(levels) == first_enabled(levels.skip(i)),
    decreases i,
{
    if i == 0 {
        assert(levels.skip(0) =~= levels);
    } else {
        assert forall|j: int| 0 <= j < i - 1 implies levels.skip(1)[j] == ThinkingLevel::Off by {
            assert(levels.skip(1)[j] == levels[j + 1]);
        }
        lemma_first_enabled_skip(levels.skip(1), i - 1);
        assert(levels.skip(1).skip(i - 1) =~= levels.skip(i));
    }
}

pub fn first_enabled_level(levels: &Vec<ThinkingLevel>) -> (r: Option<ThinkingLevel>)
    ensures
        r == first_enabled(levels@),
{
    let mut i: usize = 0;
    while i < levels.len() && levels[i] == ThinkingLevel::Off
        invariant
            i <= levels@.len(),
            forall|j: int| 0 <= j < i ==> levels@[j] == ThinkingLevel::Off,
        decreases levels@.len() - i,
    {
        i = i + 1;
    }
    proof {
        lemma_first_enabled_skip(levels@, i as int);
    }
    if i < levels.len() {
        assert(levels@.skip(i as int)[0] == levels@[i as int]);
        Some(levels[i])
    } else {
        None
    }
}

pub fn last_enabled_level(levels: &Vec<ThinkingLevel>) -> (r: Option<ThinkingLevel>)
    ensures
        r == last_enabled(levels@),
{
    let mut n: usize = levels.len();
    assert(levels@.take(n as int) =~= levels@);
    while n > 0 && levels[n - 1] == ThinkingLevel::Off
        invariant
            n <= levels@.len(),
            last_enabled(levels@) == last_enabled(levels@.take(n as int)),
        decreases n,
    {
        assert(levels@.take(n as int).drop_last() =~= levels@.take(n - 1));
        n = n - 1;
    }
    if n > 0 {
        Some(levels[n - 1])
    } else {
        None
    }
}

// ---------------------------------------------------------------------------
// Capabilities
// ---------------------------------------------------------------------------

/// What a configuration says of the levels of a model.
#[derive(Debug, PartialEq, Eq)]
pub struct ThinkingConfig {
    pub min_level: ThinkingLevel,
    pub max_level: ThinkingLevel,
    pub supported: Option<Vec<ThinkingLevel>>,
    pub mode: ThinkingMode,
}

/// What a [`ThinkingConfig`] holds.
#[verifier::ext_equal]
pub struct ThinkingConfigView {
    pub min_level: ThinkingLevel,
    pub max_level: ThinkingLevel,
    pub supported: Option<Seq<ThinkingLevel>>,
    pub mode: ThinkingMode,
}

impl View for ThinkingConfig {
    type V = ThinkingConfigView;

    open spec fn view(&self) -> ThinkingConfigView {
        ThinkingConfigView {
            min_level: self.min_level,
            max_level: self.max_level,
            supported: match self.supported {
                Some(levels) => Some(levels@),
                None => None,
            },
            mode: self.mode,
        }
    }
}

impl ThinkingConfig {
    /// A copy of this.
    pub fn copy(&self) -> (r: ThinkingConfig)
        ensures
            r@ == self@,
    {
        ThinkingConfig {
            min_level: self.min_level,
            max_level: self.max_level,
            supported: match &self.supported {
                Some(levels) => Some(copy_levels(levels)),
                None => None,
            },
            mode: self.mode,
        }
    }
}

impl Default for ThinkingConfig {
    fn default() -> (r: ThinkingConfig)
        ensures
            r.min_level == ThinkingLevel::Low,
            r.max_level == ThinkingLevel::High,
            r.supported is None,
            r.mode == ThinkingMode::Effort,
    {
        ThinkingConfig {
            min_level: ThinkingLevel::Low,
            max_level: ThinkingLevel::High,
            supported: None,
            mode: ThinkingMode::Effort,
        }
    }
}

/// What a configuration says of how a provider is asked to think.
#[derive(Debug, PartialEq, Eq)]
pub struct ThinkingCompat {
    pub supports_reasoning_effort: Option<bool>,
    pub reasoning_effort_map: EffortMap,
    pub supports_interleaved_thinking: Option<bool>,
}

/// What a [`ThinkingCompat`] holds.
#[verifier::ext_equal]
pub struct ThinkingCompatView {
    pub supports_reasoning_effort: Option<bool>,
    pub reasoning_effort_map: Map<ThinkingLevel, Seq<char>>,
    pub supports_interleaved_thinking: Option<bool>,
}

impl View for ThinkingCompat {
    type V = ThinkingCompatView;

    open spec fn view(&self) -> ThinkingCompatView {
        ThinkingCompatView {
            supports_reasoning_effort: self.supports_reasoning_effort,
            reasoning_effort_map: self.reasoning_effort_map@,
            supports_interleaved_thinking: self.supports_interleaved_thinking,
        }
    }
}

impl ThinkingCompat {
    /// A copy of this.
    pub fn copy(&self) -> (r: ThinkingCompat)
        ensures
            r@ == self@,
    {
        ThinkingCompat {
            supports_reasoning_effort: self.supports_reasoning_effort,
            reasoning_effort_map: self.reasoning_effort_map.copy(),
            supports_interleaved_thinking: self.supports_interleaved_thinking,
        }
    }
}

impl Default for ThinkingCompat {
    fn default() -> (r: ThinkingCompat)
        ensures
            r.supports_reasoning_effort is None,
            r.reasoning_effort_map@ == Map::<ThinkingLevel, Seq<char>>::empty(),
            r.supports_interleaved_thinking is None,
    {
        ThinkingCompat {
            supports_reasoning_effort: None,
            reasoning_effort_map: EffortMap::new(),
            supports_interleaved_thinking: None,
        }
    }
}

/// What a model offers.
#[derive(Debug, PartialEq, Eq)]
pub struct ThinkingCapabilities {
    pub min_level: ThinkingLevel,
    pub max_level: ThinkingLevel,
    pub supported: Vec<ThinkingLevel>,
    pub mode: ThinkingMode,
    pub supports_reasoning_effort: bool,
    pub reasoning_effort_map: EffortMap,
    pub supports_interleaved_thinking: bool,
}

/// What a [`ThinkingCapabilities`] holds.
#[verifier::ext_equal]
pub struct CapabilitiesView {
    pub min_level: ThinkingLevel,
    pub max_level: ThinkingLevel,
    pub supported: Seq<ThinkingLevel>,
    pub mode: ThinkingMode,
    pub supports_reasoning_effort: bool,
    pub reasoning_effort_map: Map<ThinkingLevel, Seq<char>>,
    pub supports_interleaved_thinking: bool,
}

impl View for ThinkingCapabilities {
    type V = CapabilitiesView;

    open spec fn view(&self) -> CapabilitiesView {
        CapabilitiesView {
            min_level: self.min_level,
            max_level: self.max_level,
            supported: self.supported@,
            mode: self.mode,
            supports_reasoning_effort: self.supports_reasoning_effort,
            reasoning_effort_map: self.reasoning_effort_map@,
            supports_interleaved_thinking: self.supports_interleaved_thinking,
        }
    }
}

/// What is offered where nothing is known: levels up to High.
pub open spec fn default_capabilities() -> CapabilitiesView {
    CapabilitiesView {
        min_level: ThinkingLevel::Low,
        max_level: ThinkingLevel::High,
        supported: seq![
            ThinkingLevel::Off,
            ThinkingLevel::Low,
            ThinkingLevel::Medium,
            ThinkingLevel::High,
        ],
        mode: ThinkingMode::Effort,
        supports_reasoning_effort: true,
        reasoning_effort_map: default_effort(),
        supports_interleaved_thinking: false,
    }
}

pub open spec fn disabled_capabilities(interleaved: bool) -> CapabilitiesView {
    CapabilitiesView {
        min_level: ThinkingLevel::Off,
        max_level: ThinkingLevel::Off,
        supported: seq![ThinkingLevel::Off],
        mode: ThinkingMode::Effort,
        supports_reasoning_effort: false,
        reasoning_effort_map: Map::empty(),
        supports_interleaved_thinking: interleaved,
    }
}

pub open spec fn or_off(level: Option<ThinkingLevel>) -> ThinkingLevel {
    match level {
        Some(level) => level,
        None => ThinkingLevel::Off,
    }
}

/// What a model offers that was discovered with these levels and words.
pub open spec fn discovered(
    supported: Seq<ThinkingLevel>,
    words: Map<ThinkingLevel, Seq<char>>,
    interleaved: bool,
) -> CapabilitiesView {
    let levels = normalized_levels(supported);
    CapabilitiesView {
        min_level: or_off(first_enabled(levels)),
        max_level: or_off(last_enabled(levels)),
        supported: levels,
        mode: ThinkingMode::Effort,
        supports_reasoning_effort: first_enabled(levels) is Some,
        reasoning_effort_map: words,
        supports_interleaved_thinking: interleaved,
    }
}

/// The levels from `min` to `max`, and Off.
pub open spec fn span(min: ThinkingLevel, max: ThinkingLevel) -> Seq<ThinkingLevel> {
    ladder().filter(
        |level: ThinkingLevel|
            level == ThinkingLevel::Off || rank(min) <= rank(level) <= rank(max),
    )
}

impl CapabilitiesView {
    /// Off, and the supported levels that have a word.
    pub open spec fn available(self) -> Seq<ThinkingLevel> {
        if !self.supports_reasoning_effort {
            seq![ThinkingLevel::Off]
        } else {
            seq![ThinkingLevel::Off] + self.supported.filter(
                |level: ThinkingLevel|
                    level != ThinkingLevel::Off && self.reasoning_effort_map.contains_key(level),
            )
        }
    }

    /// These capabilities as a configuration of the levels overrides them.
    pub open spec fn with_config(self, config: Option<ThinkingConfigView>) -> CapabilitiesView {
        match config {
            None => self,
            Some(config) => CapabilitiesView {
                min_level: config.min_level,
                max_level: config.max_level,
                supported: match config.supported {
                    Some(levels) => normalized_levels(levels),
                    None => span(config.min_level, config.max_level),
                },
                mode: config.mode,
                supports_reasoning_effort: true,
                reasoning_effort_map: if self.reasoning_effort_map == Map::<
                    ThinkingLevel,
                    Seq<char>,
                >::empty() {
                    default_effort()
                } else {
                    self.reasoning_effort_map
                },
                supports_interleaved_thinking: self.supports_interleaved_thinking,
            },
        }
    }

    /// These capabilities where effort is switched on that was off: the levels
    /// of the given words, or the defaults where there are none.
    pub open spec fn reenabled(self, words: Map<ThinkingLevel, Seq<char>>) -> CapabilitiesView {
        if words == Map::<ThinkingLevel, Seq<char>>::empty() {
            CapabilitiesView {
                supports_interleaved_thinking: self.supports_interleaved_thinking,
                ..default_capabilities()
            }
        } else {
            let levels = normalized_levels(
                ladder().filter(|level: ThinkingLevel| words.contains_key(level)),
            );
            CapabilitiesView {
                min_level: or_off(first_enabled(levels)),
                max_level: or_off(last_enabled(levels)),
                supported: levels,
                reasoning_effort_map: Map::empty(),
                ..self
            }
        }
    }

    /// These capabilities as a configuration of the provider's ways overrides
    /// them.
    pub open spec fn with_compat(self, compat: Option<ThinkingCompatView>) -> CapabilitiesView {
        match compat {
            None => self,
            Some(compat) => {
                let words = compat.reasoning_effort_map;
                let switched = match compat.supports_reasoning_effort {
                    Some(on) => CapabilitiesView {
                        supports_reasoning_effort: on,
                        ..if on && !self.supports_reasoning_effort {
                            self.reenabled(words)
                        } else {
                            self
                        }
                    },
                    None => self,
                };
                CapabilitiesView {
                    reasoning_effort_map: switched.reasoning_effort_map.union_prefer_right(words),
                    supports_interleaved_thinking: match compat.supports_interleaved_thinking {
                        Some(interleaved) => interleaved,
                        None => switched.supports_interleaved_thinking,
                    },
                    ..switched
                }
            },
        }
    }

    /// Without effort only Off is left.
    pub open spec fn settled(self) -> CapabilitiesView {
        if self.supports_reasoning_effort {
            self
        } else {
            CapabilitiesView {
                min_level: ThinkingLevel::Off,
                max_level: ThinkingLevel::Off,
                supported: seq![ThinkingLevel::Off],
                reasoning_effort_map: Map::empty(),
                ..self
            }
        }
    }

    /// These capabilities with a configuration applied.
    pub open spec fn applied(
        self,
        config: Option<ThinkingConfigView>,
        compat: Option<ThinkingCompatView>,
    ) -> CapabilitiesView {
        self.with_config(config).with_compat(compat).settled()
    }
}

fn copy_levels(levels: &Vec<ThinkingLevel>) -> (r: Vec<ThinkingLevel>)
    ensures
        r@ == levels@,
{
    let mut r: Vec<ThinkingLevel> = Vec::new();
    let mut i: usize = 0;
    while i < levels.len()
        invariant
            i <= levels@.len(),
            r@ == levels@.take(i as int),
        decreases levels@.len() - i,
    {
        r.push(levels[i]);
        i = i + 1;
        assert(r@ =~= levels@.take(i as int));
    }
    assert(levels@.take(levels@.len() as int) =~= levels@);
    r
}

fn span_of(min: ThinkingLevel, max: ThinkingLevel) -> (r: Vec<ThinkingLevel>)
    ensures
        r@ == span(min, max),
{
    let ghost keep = |level: ThinkingLevel|
        level == ThinkingLevel::Off || rank(min) <= rank(level) <= rank(max);
    let mut r: Vec<ThinkingLevel> = Vec::new();
    let mut i: usize = 0;
    let low: usize = min.rank();
    let high: usize = max.rank();
    proof {
        reveal(Seq::filter);
    }
    assert(r@ =~= ladder().take(0).filter(keep));
    while i < 7
        invariant
            i <= 7,
            low == rank(min),
            high == rank(max),
            keep == (|level: ThinkingLevel|
                level == ThinkingLevel::Off || rank(min) <= rank(level) <= rank(max)),
            r@ == ladder().take(i as int).filter(keep),
        decreases 7 - i,
    {
        proof {
            reveal(Seq::filter);
        }
        assert(ladder().take(i as int + 1).drop_last() =~= ladder().take(i as int));
        let level = ThinkingLevel::at(i);
        if i == 0 || (low <= i && i <= high) {
            r.push(level);
        }
        i = i + 1;
    }
    assert(ladder().take(7) =~= ladder());
    r
}

impl Default for ThinkingCapabilities {
    fn default() -> (r: ThinkingCapabilities)
        ensures
            r@ == default_capabilities(),
    {
        let mut supported: Vec<ThinkingLevel> = Vec::new();
        supported.push(ThinkingLevel::Off);
        supported.push(ThinkingLevel::Low);
        supported.push(ThinkingLevel::Medium);
        supported.push(ThinkingLevel::High);
        let r = ThinkingCapabilities {
            min_level: ThinkingLevel::Low,
            max_level: ThinkingLevel::High,
            supported,
            mode: ThinkingMode::Effort,
            supports_reasoning_effort: true,
            reasoning_effort_map: default_reasoning_effort_map(),
            supports_interleaved_thinking: false,
        };
        assert(r@ =~= default_capabilities());
        r
    }
}

impl ThinkingCapabilities {
    /// A copy of these capabilities.
    pub fn copy(&self) -> (r: ThinkingCapabilities)
        ensures
            r@ == self@,
    {
        ThinkingCapabilities {
            min_level: self.min_level,
            max_level: self.max_level,
            supported: copy_levels(&self.supported),
            mode: self.mode,
            supports_reasoning_effort: self.supports_reasoning_effort,
            reasoning_effort_map: self.reasoning_effort_map.copy(),
            supports_interleaved_thinking: self.supports_interleaved_thinking,
        }
    }

    /// Off, and the supported levels that have a word.
    pub fn available_levels(&self) -> (r: Vec<ThinkingLevel>)
        ensures
            r@ == self@.available(),
    {
        let mut r: Vec<ThinkingLevel> = Vec::new();
        r.push(ThinkingLevel::Off);
        assert(r@ =~= seq![ThinkingLevel::Off]);
        if !self.supports_reasoning_effort {
            return r;
        }
        let ghost model = self@;
        let ghost keep = |level: ThinkingLevel|
            level != ThinkingLevel::Off && model.reasoning_effort_map.contains_key(level);
        let ghost first = r@;
        let mut i: usize = 0;
        proof {
            reveal(Seq::filter);
        }
        assert(r@ =~= first + self.supported@.take(0).filter(keep));
        while i < self.supported.len()
            invariant
                i <= self.supported@.len(),
                model == self@,
                keep == (|level: ThinkingLevel|
                    level != ThinkingLevel::Off && model.reasoning_effort_map.contains_key(level)),
                r@ == first + self.supported@.take(i as int).filter(keep),
            decreases self.supported@.len() - i,
        {
            proof {
                reveal(Seq::filter);
            }
            assert(self.supported@.take(i as int + 1).drop_last() =~= self.supported@.take(
                i as int,
            ));
            let level = self.supported[i];
            if level != ThinkingLevel::Off && self.reasoning_effort_map.contains_key(&level) {
                r.push(level);
            }
            i = i + 1;
            assert(r@ =~= first + self.supported@.take(i as int).filter(keep));
        }
        assert(self.supported@.take(self.supported@.len() as int) =~= self.supported@);
        r
    }

    /// The available levels, with slashes between them.
    pub fn summary(&self) -> (r: String)
        ensures
            r@ == text::join(
                self@.available().map_values(|level: ThinkingLevel| level_name(level)),
                "/"@,
            ),
    {
        let levels = self.available_levels();
        let ghost goal = levels@.map_values(|level: ThinkingLevel| level_name(level));
        let mut names: Vec<String> = Vec::new();
        let mut i: usize = 0;
        while i < levels.len()
            invariant
                i <= levels@.len(),
                goal == levels@.map_values(|level: ThinkingLevel| level_name(level)),
                text::views(names@) == goal.take(i as int),
            decreases levels@.len() - i,
        {
            let name = levels[i].to_string();
            proof {
                text::lemma_views_push(names@, name);
            }
            names.push(name);
            i = i + 1;
            assert(text::views(names@) =~= goal.take(i as int));
        }
        assert(goal.take(levels@.len() as int) =~= goal);
        text::join_of(&names, "/")
    }

    /// What a model offers that was discovered with these levels and words.
    pub fn from_discovered(
        supported: Vec<ThinkingLevel>,
        reasoning_effort_map: EffortMap,
        supports_interleaved_thinking: bool,
    ) -> (r: ThinkingCapabilities)
        ensures
            r@ == discovered(
                supported@,
                reasoning_effort_map@,
                supports_interleaved_thinking,
            ),
    {
        let levels = normalize_supported_levels(&supported);
        let first = first_enabled_level(&levels);
        let last = last_enabled_level(&levels);
        ThinkingCapabilities {
            min_level: match first {
                Some(level) => level,
                None => ThinkingLevel::Off,
            },
            max_level: match last {
                Some(level) => level,
                None => ThinkingLevel::Off,
            },
            supported: levels,
            mode: ThinkingMode::Effort,
            supports_reasoning_effort: first.is_some(),
            reasoning_effort_map,
            supports_interleaved_thinking,
        }
    }

    /// What a model offers that does not think.
    pub fn disabled(supports_interleaved_thinking: bool) -> (r: ThinkingCapabilities)
        ensures
            r@ == disabled_capabilities(supports_interleaved_thinking),
    {
        let mut supported: Vec<ThinkingLevel> = Vec::new();
        supported.push(ThinkingLevel::Off);
        let r = ThinkingCapabilities {
            min_level: ThinkingLevel::Off,
            max_level: ThinkingLevel::Off,
            supported,
            mode: ThinkingMode::Effort,
            supports_reasoning_effort: false,
            reasoning_effort_map: EffortMap::new(),
            supports_interleaved_thinking,
        };
        assert(r@ =~= disabled_capabilities(supports_interleaved_thinking));
        r
    }

    fn apply_config(&mut self, thinking: &ThinkingConfig)
        ensures
            final(self)@ == old(self)@.with_config(Some(thinking@)),
    {
        self.supports_reasoning_effort = true;
        if self.reasoning_effort_map.is_empty() {
            self.reasoning_effort_map = default_reasoning_effort_map();
        }
        self.min_level = thinking.min_level;
        self.max_level = thinking.max_level;
        self.supported = match &thinking.supported {
            Some(levels) => normalize_supported_levels(levels),
            None => span_of(thinking.min_level, thinking.max_level),
        };
        self.mode = thinking.mode;
    }

    fn apply_compat(&mut self, compat: &ThinkingCompat)
        ensures
            final(self)@ == old(self)@.with_compat(Some(compat@)),
    {
        match compat.supports_reasoning_effort {
            Some(on) => {
                if on && !self.supports_reasoning_effort {
                    if compat.reasoning_effort_map.is_empty() {
                        let interleaved = self.supports_interleaved_thinking;
                        *self = ThinkingCapabilities::default();
                        self.supports_interleaved_thinking = interleaved;
                    } else {
                        let keys = compat.reasoning_effort_map.keys();
                        self.supported = normalize_supported_levels(&keys);
                        self.min_level = match first_enabled_level(&self.supported) {
                            Some(level) => level,
                            None => ThinkingLevel::Off,
                        };
                        self.max_level = match last_enabled_level(&self.supported) {
                            Some(level) => level,
                            None => ThinkingLevel::Off,
                        };
                        self.reasoning_effort_map.clear();
                    }
                }
                self.supports_reasoning_effort = on;
            },
            None => {},
        }
        self.reasoning_effort_map.extend(&compat.reasoning_effort_map);
        match compat.supports_interleaved_thinking {
            Some(interleaved) => {
                self.supports_interleaved_thinking = interleaved;
            },
            None => {},
        }
    }

    /// Applies what a configuration says over what was known.
    pub fn apply(&mut self, thinking: Option<&ThinkingConfig>, compat: Option<&ThinkingCompat>)
        ensures
            final(self)@ == old(self)@.applied(
                match thinking {
                    Some(thinking) => Some(thinking@),
                    None => None,
                },
                match compat {
                    Some(compat) => Some(compat@),
                    None => None,
                },
            ),
    {
        match thinking {
            Some(thinking) => {
                self.apply_config(thinking);
            },
            None => {},
        }
        match compat {
            Some(compat) => {
                self.apply_compat(compat);
            },
            None => {},
        }
        if !self.supports_reasoning_effort {
            self.min_level = ThinkingLevel::Off;
            self.max_level = ThinkingLevel::Off;
            let mut supported: Vec<ThinkingLevel> = Vec::new();
            supported.push(ThinkingLevel::Off);
            assert(supported@ =~= seq![ThinkingLevel::Off]);
            self.supported = supported;
            self.reasoning_effort_map.clear();
        }
    }
}

/// What is configured for a model decides: whatever was discovered, and
/// whatever its provider has, levels that are configured for a model are the
/// levels it has, and a word that is configured for a level is its word.
pub proof fn law_configuration_wins(
    discovered: CapabilitiesView,
    provider: Option<ThinkingConfigView>,
    provider_compat: Option<ThinkingCompatView>,
    config: ThinkingConfigView,
    compat: Option<ThinkingCompatView>,
)
    requires
        compat matches Some(compat) ==> compat.supports_reasoning_effort != Some(false),
    ensures
        ({
            let c = discovered.applied(provider, provider_compat).applied(Some(config), compat);
            &&& c.supports_reasoning_effort
            &&& c.min_level == config.min_level
            &&& c.max_level == config.max_level
            &&& c.supported == match config.supported {
                Some(levels) => normalized_levels(levels),
                None => span(config.min_level, config.max_level),
            }
            &&& compat matches Some(compat) ==> forall|level: ThinkingLevel| #[trigger]
                compat.reasoning_effort_map.contains_key(level)
                    ==> c.reasoning_effort_map.contains_key(level)
                    && c.reasoning_effort_map[level] == compat.reasoning_effort_map[level]
        }),
{
}

// ---------------------------------------------------------------------------
// Normalization
// ---------------------------------------------------------------------------

/// What a request for a level comes to.
#[derive(Debug, PartialEq, Eq)]
pub struct NormalizedThinking {
    pub requested: ThinkingLevel,
    pub clamped: ThinkingLevel,
    pub effective: ThinkingLevel,
    pub provider_value: Option<String>,
}

/// What a [`NormalizedThinking`] holds.
#[verifier::ext_equal]
pub struct NormalizedView {
    pub requested: ThinkingLevel,
    pub clamped: ThinkingLevel,
    pub effective: ThinkingLevel,
    pub provider_value: Option<Seq<char>>,
}

impl View for NormalizedThinking {
    type V = NormalizedView;

    open spec fn view(&self) -> NormalizedView {
        NormalizedView {
            requested: self.requested,
            clamped: self.clamped,
            effective: self.effective,
            provider_value: text::opt(self.provider_value),
        }
    }
}

/// The levels that are tried for a level: the two extended levels fall back to
/// lower ones, the others to none.
pub open spec fn fallbacks(level: ThinkingLevel) -> Seq<ThinkingLevel> {
    match level {
        ThinkingLevel::Max => seq![ThinkingLevel::Max, ThinkingLevel::XHigh, ThinkingLevel::High],
        ThinkingLevel::XHigh => seq![ThinkingLevel::XHigh, ThinkingLevel::High],
        _ => seq![level],
    }
}

pub fn fallback_levels(level: ThinkingLevel) -> (r: Vec<ThinkingLevel>)
    ensures
        r@ == fallbacks(level),
{
    let mut r: Vec<ThinkingLevel> = Vec::new();
    match level {
        ThinkingLevel::Max => {
            r.push(ThinkingLevel::Max);
            r.push(ThinkingLevel::XHigh);
            r.push(ThinkingLevel::High);
        },
        ThinkingLevel::XHigh => {
            r.push(ThinkingLevel::XHigh);
            r.push(ThinkingLevel::High);
        },
        _ => {
            r.push(level);
        },
    }
    assert(r@ =~= fallbacks(level));
    r
}

/// The last of `levels`, Off left out, that is not deeper than `bound`.
pub open spec fn last_at_most(levels: Seq<ThinkingLevel>, bound: ThinkingLevel) -> Option<
    ThinkingLevel,
>
    decreases levels.len(),
{
    if levels.len() == 0 {
        None
    } else if levels.last() != ThinkingLevel::Off && rank(levels.last()) <= rank(bound) {
        Some(levels.last())
    } else {
        last_at_most(levels.drop_last(), bound)
    }
}

/// The first of `tries` that is supported and has a word.
pub open spec fn first_mapped(
    tries: Seq<ThinkingLevel>,
    supported: Seq<ThinkingLevel>,
    words: Map<ThinkingLevel, Seq<char>>,
) -> Option<ThinkingLevel>
    decreases tries.len(),
{
    if tries.len() == 0 {
        None
    } else if tries[0] != ThinkingLevel::Off && supported.contains(tries[0]) && words.contains_key(
        tries[0],
    ) {
        Some(tries[0])
    } else {
        first_mapped(tries.skip(1), supported, words)
    }
}

/// The supported level that a request is moved to.
pub open spec fn clamped_level(c: CapabilitiesView, requested: ThinkingLevel) -> ThinkingLevel {
    match last_at_most(c.supported, clamped(requested, c.min_level, c.max_level)) {
        Some(level) => level,
        None => or_off(first_enabled(c.supported)),
    }
}

/// What a request for `requested` comes to.
pub open spec fn normalized(c: CapabilitiesView, requested: ThinkingLevel) -> NormalizedView {
    if requested == ThinkingLevel::Off || !c.supports_reasoning_effort || first_enabled(
        c.supported,
    ) is None {
        NormalizedView {
            requested,
            clamped: ThinkingLevel::Off,
            effective: ThinkingLevel::Off,
            provider_value: None,
        }
    } else {
        let level = clamped_level(c, requested);
        match first_mapped(fallbacks(level), c.supported, c.reasoning_effort_map) {
            Some(effective) => NormalizedView {
                requested,
                clamped: level,
                effective,
                provider_value: Some(c.reasoning_effort_map[effective]),
            },
            None => NormalizedView {
                requested,
                clamped: level,
                effective: ThinkingLevel::Off,
                provider_value: None,
            },
        }
    }
}

proof fn lemma_first_mapped(
    tries: Seq<ThinkingLevel>,
    supported: Seq<ThinkingLevel>,
    words: Map<ThinkingLevel, Seq<char>>,
)
    ensures
        first_mapped(tries, supported, words) matches Some(level) ==> {
            &&& tries.contains(level)
            &&& level != ThinkingLevel::Off
            &&& supported.contains(level)
            &&& words.contains_key(level)
        },
    decreases tries.len(),
{
    if tries.len() > 0 {
        lemma_first_mapped(tries.skip(1), supported, words);
        assert(tries.contains(tries[0]));
        if let Some(level) = first_mapped(tries.skip(1), supported, words) {
            let i = tries.skip(1).index_of(level);
            assert(tries[i + 1] == tries.skip(1)[i]);
        }
    }
}

proof fn lemma_last_at_most(levels: Seq<ThinkingLevel>, bound: ThinkingLevel)
    ensures
        last_at_most(levels, bound) matches Some(level) ==> levels.contains(level) && level
            != ThinkingLevel::Off && rank(level) <= rank(bound),
    decreases levels.len(),
{
    if levels.len() > 0 {
        lemma_last_at_most(levels.drop_last(), bound);
        if levels.last() != ThinkingLevel::Off && rank(levels.last()) <= rank(bound) {
            assert(levels[levels.len() - 1] == levels.last());
        } else if let Some(level) = last_at_most(levels.drop_last(), bound) {
            let i = levels.drop_last().index_of(level);
            assert(levels[i] == level);
        }
    }
}

/// A request never gets a word that was not configured for a supported level,
/// never thinks deeper than the level it was moved to, and is moved to a deeper
/// level than asked for only where the model offers nothing as shallow.
pub proof fn law_normalization_never_invents(c: CapabilitiesView, requested: ThinkingLevel)
    ensures
        ({
            let n = normalized(c, requested);
            &&& n.provider_value is Some <==> n.effective != ThinkingLevel::Off
            &&& n.provider_value matches Some(word) ==> {
                &&& c.supported.contains(n.effective)
                &&& c.reasoning_effort_map.contains_key(n.effective)
                &&& word == c.reasoning_effort_map[n.effective]
            }
            &&& rank(n.effective) <= rank(n.clamped)
            &&& n.clamped == ThinkingLevel::Off || rank(n.clamped) <= rank(
                clamped(requested, c.min_level, c.max_level),
            ) || first_enabled(c.supported) == Some(n.clamped)
            &&& rank(n.clamped) <= rank(ThinkingLevel::High) && !c.reasoning_effort_map.contains_key(
                n.clamped,
            ) ==> n.provider_value is None
        }),
{
    let level = clamped_level(c, requested);
    lemma_first_mapped(fallbacks(level), c.supported, c.reasoning_effort_map);
    lemma_last_at_most(c.supported, clamped(requested, c.min_level, c.max_level));
    if let Some(effective) = first_mapped(fallbacks(level), c.supported, c.reasoning_effort_map) {
        let i = fallbacks(level).index_of(effective);
        assert(fallbacks(level)[i] == effective);
    }
}

fn last_at_most_of(levels: &Vec<ThinkingLevel>, bound: ThinkingLevel) -> (r: Option<ThinkingLevel>)
    ensures
        r == last_at_most(levels@, bound),
{
    let mut n: usize = levels.len();
    assert(levels@.take(n as int) =~= levels@);
    while n > 0
        invariant
            n <= levels@.len(),
            last_at_most(levels@, bound) == last_at_most(levels@.take(n as int), bound),
        decreases n,
    {
        let level = levels[n - 1];
        assert(levels@.take(n as int).last() == level);
        assert(levels@.take(n as int).drop_last() =~= levels@.take(n - 1));
        if level != ThinkingLevel::Off && level.rank() <= bound.rank() {
            return Some(level);
        }
        n = n - 1;
    }
    None
}

/// What a request for `requested` comes to.
pub fn normalize_thinking_level(
    capabilities: &ThinkingCapabilities,
    requested: ThinkingLevel,
) -> (r: NormalizedThinking)
    ensures
        r@ == normalized(capabilities@, requested),
{
    if requested == ThinkingLevel::Off || !capabilities.supports_reasoning_effort {
        return NormalizedThinking {
            requested,
            clamped: ThinkingLevel::Off,
            effective: ThinkingLevel::Off,
            provider_value: None,
        };
    }
    let first_supported = match first_enabled_level(&capabilities.supported) {
        Some(level) => level,
        None => {
            return NormalizedThinking {
                requested,
                clamped: ThinkingLevel::Off,
                effective: ThinkingLevel::Off,
                provider_value: None,
            };
        },
    };
    let bounded = requested.clamp(capabilities.min_level, capabilities.max_level);
    let level = match last_at_most_of(&capabilities.supported, bounded) {
        Some(level) => level,
        None => first_supported,
    };
    let tries = fallback_levels(level);
    let ghost words = capabilities@.reasoning_effort_map;
    let mut i: usize = 0;
    assert(tries@.skip(0) =~= tries@);
    while i < tries.len()
        invariant
            i <= tries@.len(),
            words == capabilities@.reasoning_effort_map,
            tries@ == fallbacks(level),
            level == clamped_level(capabilities@, requested),
            requested != ThinkingLevel::Off,
            capabilities.supports_reasoning_effort,
            first_enabled(capabilities@.supported) is Some,
            first_mapped(fallbacks(level), capabilities@.supported, words) == first_mapped(
                tries@.skip(i as int),
                capabilities@.supported,
                words,
            ),
        decreases tries@.len() - i,
    {
        let effective = tries[i];
        assert(tries@.skip(i as int)[0] == effective);
        assert(tries@.skip(i as int).skip(1) =~= tries@.skip(i as int + 1));
        if effective != ThinkingLevel::Off && contains_level(&capabilities.supported, effective) {
            match capabilities.reasoning_effort_map.get(&effective) {
                Some(word) => {
                    return NormalizedThinking {
                        requested,
                        clamped: level,
                        effective,
                        provider_value: Some(word.clone()),
                    };
                },
                None => {},
            }
        }
        i = i + 1;
    }
    NormalizedThinking {
        requested,
        clamped: level,
        effective: ThinkingLevel::Off,
        provider_value: None,
    }
}

/// Levels in rising order.
pub open spec fn climbing(levels: Seq<ThinkingLevel>) -> bool {
    forall|i: int, j: int|
        0 <= i < j < levels.len() ==> rank(#[trigger] levels[i]) < rank(#[trigger] levels[j])
}

/// A level that a model offers, within its bounds and with a word, is what a
/// request for it gets, and the word is sent. Nothing is thought only where the
/// request says so or the model offers nothing.
pub proof fn law_offered_levels_are_given(c: CapabilitiesView, requested: ThinkingLevel)
    requires
        climbing(c.supported),
        c.supports_reasoning_effort,
        c.supported.contains(requested),
        requested != ThinkingLevel::Off,
        rank(c.min_level) <= rank(requested) <= rank(c.max_level),
        c.reasoning_effort_map.contains_key(requested),
    ensures
        normalized(c, requested) == (NormalizedView {
            requested,
            clamped: requested,
            effective: requested,
            provider_value: Some(c.reasoning_effort_map[requested]),
        }),
{
    lemma_deepest(c.supported, requested);
    let at = c.supported.index_of(requested);
    lemma_some_enabled(c.supported, at);
    assert(fallbacks(requested)[0] == requested);
    lemma_rank_injective();
}

proof fn lemma_some_enabled(levels: Seq<ThinkingLevel>, at: int)
    requires
        0 <= at < levels.len(),
        levels[at] != ThinkingLevel::Off,
    ensures
        first_enabled(levels) is Some,
    decreases levels.len(),
{
    if levels[0] == ThinkingLevel::Off {
        assert(levels.skip(1)[at - 1] == levels[at]);
        lemma_some_enabled(levels.skip(1), at - 1);
    }
}

/// A request is moved to the deepest level that is offered and is not deeper
/// than it asks for within the model's bounds.
pub proof fn law_requests_go_to_the_deepest_level(
    c: CapabilitiesView,
    requested: ThinkingLevel,
    level: ThinkingLevel,
)
    requires
        climbing(c.supported),
        c.supports_reasoning_effort,
        requested != ThinkingLevel::Off,
        c.supported.contains(level),
        level != ThinkingLevel::Off,
        rank(level) <= rank(clamped(requested, c.min_level, c.max_level)),
    ensures
        ({
            let n = normalized(c, requested);
            &&& c.supported.contains(n.clamped)
            &&& rank(level) <= rank(n.clamped) <= rank(
                clamped(requested, c.min_level, c.max_level),
            )
        }),
{
    let bound = clamped(requested, c.min_level, c.max_level);
    let at = c.supported.index_of(level);
    lemma_some_enabled(c.supported, at);
    lemma_deepest_level(c.supported, bound, at);
}

proof fn lemma_deepest(levels: Seq<ThinkingLevel>, bound: ThinkingLevel)
    requires
        climbing(levels),
        levels.contains(bound),
        bound != ThinkingLevel::Off,
    ensures
        last_at_most(levels, bound) == Some(bound),
{
    let at = levels.index_of(bound);
    lemma_deepest_level(levels, bound, at);
    lemma_rank_injective();
}

proof fn lemma_deepest_level(levels: Seq<ThinkingLevel>, bound: ThinkingLevel, at: int)
    requires
        climbing(levels),
        0 <= at < levels.len(),
        levels[at] != ThinkingLevel::Off,
        rank(levels[at]) <= rank(bound),
    ensures
        last_at_most(levels, bound) matches Some(level) && levels.contains(level) && rank(
            levels[at],
        ) <= rank(level) <= rank(bound),
    decreases levels.len(),
{
    let front = levels.drop_last();
    let last: int = levels.len() - 1;
    if levels.last() != ThinkingLevel::Off && rank(levels.last()) <= rank(bound) {
        assert(levels[last] == levels.last());
        if at < last {
            assert(rank(levels[at]) < rank(levels[last]));
        }
    } else {
        assert(at < last);
        assert(front[at] == levels[at]);
        assert forall|i: int, j: int| 0 <= i < j < front.len() implies rank(#[trigger] front[i])
            < rank(#[trigger] front[j]) by {
            assert(front[i] == levels[i] && front[j] == levels[j]);
        }
        lemma_deepest_level(front, bound, at);
        let found = last_at_most(front, bound)->0;
        let k = front.index_of(found);
        assert(levels[k] == found);
    }
}

/// Normalized levels are the given ones and Off, each once and in rising order.
pub proof fn law_levels_are_put_in_order(levels: Seq<ThinkingLevel>, level: ThinkingLevel)
    ensures
        normalized_levels(levels).contains(level) <==> level == ThinkingLevel::Off
            || levels.contains(level),
        climbing(normalized_levels(levels)),
{
    let keep = |l: ThinkingLevel| l == ThinkingLevel::Off || levels.contains(l);
    lemma_ladder_filter(keep, level);
}

/// The levels between two are those from the one to the other, and Off, in
/// rising order.
pub proof fn law_spans_have_their_levels(
    min: ThinkingLevel,
    max: ThinkingLevel,
    level: ThinkingLevel,
)
    ensures
        span(min, max).contains(level) <==> level == ThinkingLevel::Off || rank(min) <= rank(level)
            <= rank(max),
        climbing(span(min, max)),
{
    let keep = |l: ThinkingLevel| l == ThinkingLevel::Off || rank(min) <= rank(l) <= rank(max);
    lemma_ladder_filter(keep, level);
}

proof fn lemma_ladder_filter(keep: spec_fn(ThinkingLevel) -> bool, level: ThinkingLevel)
    ensures
        ladder().filter(keep).contains(level) <==> keep(level),
        climbing(ladder().filter(keep)),
{
    let all = ladder();
    assert(all[rank(level) as int] == level);
    lemma_filter_climbs(all, keep, level);
}

proof fn lemma_filter_climbs(
    levels: Seq<ThinkingLevel>,
    keep: spec_fn(ThinkingLevel) -> bool,
    level: ThinkingLevel,
)
    requires
        climbing(levels),
    ensures
        levels.filter(keep).contains(level) <==> keep(level) && levels.contains(level),
        climbing(levels.filter(keep)),
    decreases levels.len(),
{
    reveal(Seq::filter);
    let kept = levels.filter(keep);
    if levels.len() > 0 {
        let front = levels.drop_last();
        let last: int = levels.len() - 1;
        assert forall|i: int, j: int| 0 <= i < j < front.len() implies rank(#[trigger] front[i])
            < rank(#[trigger] front[j]) by {
            assert(front[i] == levels[i] && front[j] == levels[j]);
        }
        lemma_filter_climbs(front, keep, level);
        let before = front.filter(keep);
        if front.contains(level) {
            assert(levels[front.index_of(level)] == level);
        }
        if levels.contains(level) && levels.index_of(level) < last {
            assert(front[levels.index_of(level)] == level);
        }
        assert(levels[last] == levels.last());
        if keep(levels.last()) {
            assert(kept == before.push(levels.last()));
            assert(kept[before.len() as int] == levels.last());
            if before.contains(level) {
                assert(kept[before.index_of(level)] == level);
            }
            if kept.contains(level) {
                let k = kept.index_of(level);
                if k < before.len() {
                    assert(before[k] == level);
                }
            }
            assert forall|i: int, j: int| 0 <= i < j < kept.len() implies rank(
                #[trigger] kept[i],
            ) < rank(#[trigger] kept[j]) by {
                assert(kept[i] == before[i]);
                if j < before.len() {
                    assert(kept[j] == before[j]);
                } else {
                    assert(before.contains(before[i]));
                    lemma_filter_climbs(front, keep, before[i]);
                    let m = front.index_of(before[i]);
                    assert(levels[m] == before[i]);
                    assert(rank(levels[m]) < rank(levels[last]));
                }
            }
        }
    }
}

/// Every level is read by its name.
pub proof fn law_levels_are_named(level: ThinkingLevel)
    ensures
        level_of(level_name(level)) == Some(level),
{
    reveal_strlit("off");
    reveal_strlit("minimal");
    reveal_strlit("low");
    reveal_strlit("medium");
    reveal_strlit("high");
    reveal_strlit("xhigh");
    reveal_strlit("max");
    let name = level_name(level);
    let none = Seq::<char>::empty();
    assert("off"@.len() == 3 && "minimal"@.len() == 7 && "low"@.len() == 3);
    assert("medium"@.len() == 6 && "high"@.len() == 4 && "xhigh"@.len() == 5 && "max"@.len() == 3);
    assert("off"@[0] == 'o' && "low"@[0] == 'l' && "max"@[0] == 'm');
    assert(name.len() > 0 && !text::is_space(name[0]) && !text::is_space(name.last()));
    text::law_trimmed(none, name, none);
    assert(none + name + none =~= name);
    assert(text::ascii_lowercase(name) =~= name);
}

} // verus!
