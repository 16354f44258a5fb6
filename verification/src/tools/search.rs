//! The tools that search: what they are given, what they match, and how their
//! results are shown.
use crate::json::Json;
use crate::json::JsonView;
use crate::text;
use crate::textmap;
use crate::textmap::TextOrder;
use crate::tools::arguments;
use crate::tools::arguments::{Shape, Slot};
use vstd::prelude::*;
use vstd::string::*;

verus! {

pub const GLOB_DEFAULT_RESULTS: usize = 200;

pub const GREP_DEFAULT_RESULTS: usize = 100;

pub const MAX_RESULT_LIMIT: usize = 10_000;

// ---------------------------------------------------------------------------
// Arguments
// ---------------------------------------------------------------------------

/// What `glob` is given.
#[derive(Debug, PartialEq, Eq)]
pub struct GlobArguments {
    pub pattern: String,
    pub path: Option<String>,
    pub hidden: bool,
    pub max_results: usize,
}

/// What a [`GlobArguments`] holds.
#[verifier::ext_equal]
pub struct GlobArgumentsView {
    pub pattern: Seq<char>,
    pub path: Option<Seq<char>>,
    pub hidden: bool,
    pub max_results: usize,
}

impl View for GlobArguments {
    type V = GlobArgumentsView;

    open spec fn view(&self) -> GlobArgumentsView {
        GlobArgumentsView {
            pattern: self.pattern@,
            path: text::opt(self.path),
            hidden: self.hidden,
            max_results: self.max_results,
        }
    }
}

/// What `grep` is given.
#[derive(Debug, PartialEq, Eq)]
pub struct GrepArguments {
    pub pattern: String,
    pub path: Option<String>,
    pub case_sensitive: bool,
    pub file_glob: Option<String>,
    pub hidden: bool,
    pub max_results: usize,
}

/// What a [`GrepArguments`] holds.
#[verifier::ext_equal]
pub struct GrepArgumentsView {
    pub pattern: Seq<char>,
    pub path: Option<Seq<char>>,
    pub case_sensitive: bool,
    pub file_glob: Option<Seq<char>>,
    pub hidden: bool,
    pub max_results: usize,
}

impl View for GrepArguments {
    type V = GrepArgumentsView;

    open spec fn view(&self) -> GrepArgumentsView {
        GrepArgumentsView {
            pattern: self.pattern@,
            path: text::opt(self.path),
            case_sensitive: self.case_sensitive,
            file_glob: text::opt(self.file_glob),
            hidden: self.hidden,
            max_results: self.max_results,
        }
    }
}

pub open spec fn valid_limit(limit: int) -> bool {
    1 <= limit <= MAX_RESULT_LIMIT
}

pub open spec fn limit_complaint() -> Seq<char> {
    "max_results must be between 1 and 10000"@
}

/// Whether a limit on the number of results is allowed.
pub fn validate_limit(limit: usize) -> (r: Result<(), String>)
    ensures
        match r {
            Ok(_) => valid_limit(limit as int),
            Err(message) => !valid_limit(limit as int) && message@ == limit_complaint(),
        },
{
    if limit >= 1 && limit <= MAX_RESULT_LIMIT {
        Ok(())
    } else {
        Err("max_results must be between 1 and 10000".to_owned())
    }
}

/// The arguments of `glob`.
pub open spec fn glob_slots() -> Seq<arguments::SlotView> {
    seq![
        arguments::needed("pattern"@, Shape::Text),
        arguments::nullable("path"@, Shape::Path),
        arguments::spare("hidden"@, Shape::Flag),
        arguments::spare("max_results"@, Shape::Count),
    ]
}

/// What `glob` is given, or what is wrong with it.
pub open spec fn glob_arguments(arguments: JsonView) -> Result<GlobArgumentsView, Seq<char>> {
    let slots = glob_slots();
    match arguments::fault(arguments, "GlobArguments"@, slots) {
        Some(fault) => Err(arguments::refusal("glob"@, fault)),
        None => {
            let max_results = arguments::count_or(
                arguments::given(arguments, slots, 3),
                GLOB_DEFAULT_RESULTS,
            );
            if valid_limit(max_results as int) {
                Ok(
                    GlobArgumentsView {
                        pattern: arguments::text_of(arguments::given(arguments, slots, 0))->0,
                        path: arguments::text_of(arguments::given(arguments, slots, 1)),
                        hidden: arguments::flag_or(arguments::given(arguments, slots, 2), false),
                        max_results,
                    },
                )
            } else {
                Err(limit_complaint())
            }
        },
    }
}

/// The arguments of `grep`.
pub open spec fn grep_slots() -> Seq<arguments::SlotView> {
    seq![
        arguments::needed("pattern"@, Shape::Text),
        arguments::nullable("path"@, Shape::Path),
        arguments::spare("case_sensitive"@, Shape::Flag),
        arguments::nullable("file_glob"@, Shape::Text),
        arguments::spare("hidden"@, Shape::Flag),
        arguments::spare("max_results"@, Shape::Count),
    ]
}

/// What `grep` is given, or what is wrong with it.
pub open spec fn grep_arguments(arguments: JsonView) -> Result<GrepArgumentsView, Seq<char>> {
    let slots = grep_slots();
    match arguments::fault(arguments, "GrepArguments"@, slots) {
        Some(fault) => Err(arguments::refusal("grep"@, fault)),
        None => {
            let max_results = arguments::count_or(
                arguments::given(arguments, slots, 5),
                GREP_DEFAULT_RESULTS,
            );
            if valid_limit(max_results as int) {
                Ok(
                    GrepArgumentsView {
                        pattern: arguments::text_of(arguments::given(arguments, slots, 0))->0,
                        path: arguments::text_of(arguments::given(arguments, slots, 1)),
                        case_sensitive: arguments::flag_or(
                            arguments::given(arguments, slots, 2),
                            true,
                        ),
                        file_glob: arguments::text_of(arguments::given(arguments, slots, 3)),
                        hidden: arguments::flag_or(arguments::given(arguments, slots, 4), false),
                        max_results,
                    },
                )
            } else {
                Err(limit_complaint())
            }
        },
    }
}

/// What `glob` is given.
pub fn parse_glob_arguments(arguments: &Json) -> (r: Result<GlobArguments, String>)
    ensures
        text::res(r) == glob_arguments(arguments@),
{
    let slots: Vec<Slot> = vec![
        arguments::needed_slot("pattern", Shape::Text),
        arguments::nullable_slot("path", Shape::Path),
        arguments::spare_slot("hidden", Shape::Flag),
        arguments::spare_slot("max_results", Shape::Count),
    ];
    assert(text::views(slots@) =~= glob_slots());
    match arguments::check_arguments(arguments, "glob", "GlobArguments", &slots) {
        Ok(_) => {},
        Err(message) => {
            return Err(message);
        },
    }
    assert(arguments::suits(arguments::given(arguments@, glob_slots(), 0), slots@[0]@));
    let pattern = arguments::given_text(arguments, &slots, 0);
    let path = arguments::optional_text(arguments, &slots, 1);
    let hidden = arguments::flag_else(arguments, &slots, 2, false);
    let max_results: usize = match arguments::optional_count(arguments, &slots, 3) {
        Some(max_results) => max_results,
        None => GLOB_DEFAULT_RESULTS,
    };
    match validate_limit(max_results) {
        Ok(_) => Ok(GlobArguments { pattern, path, hidden, max_results }),
        Err(message) => Err(message),
    }
}

/// What `grep` is given.
pub fn parse_grep_arguments(arguments: &Json) -> (r: Result<GrepArguments, String>)
    ensures
        text::res(r) == grep_arguments(arguments@),
{
    let slots: Vec<Slot> = vec![
        arguments::needed_slot("pattern", Shape::Text),
        arguments::nullable_slot("path", Shape::Path),
        arguments::spare_slot("case_sensitive", Shape::Flag),
        arguments::nullable_slot("file_glob", Shape::Text),
        arguments::spare_slot("hidden", Shape::Flag),
        arguments::spare_slot("max_results", Shape::Count),
    ];
    assert(text::views(slots@) =~= grep_slots());
    match arguments::check_arguments(arguments, "grep", "GrepArguments", &slots) {
        Ok(_) => {},
        Err(message) => {
            return Err(message);
        },
    }
    assert(arguments::suits(arguments::given(arguments@, grep_slots(), 0), slots@[0]@));
    let pattern = arguments::given_text(arguments, &slots, 0);
    let path = arguments::optional_text(arguments, &slots, 1);
    let case_sensitive = arguments::flag_else(arguments, &slots, 2, true);
    let file_glob = arguments::optional_text(arguments, &slots, 3);
    let hidden = arguments::flag_else(arguments, &slots, 4, false);
    let max_results: usize = match arguments::optional_count(arguments, &slots, 5) {
        Some(max_results) => max_results,
        None => GREP_DEFAULT_RESULTS,
    };
    match validate_limit(max_results) {
        Ok(_) => Ok(
            GrepArguments { pattern, path, case_sensitive, file_glob, hidden, max_results },
        ),
        Err(message) => Err(message),
    }
}

// ---------------------------------------------------------------------------
// Matching
// ---------------------------------------------------------------------------

/// A compiled glob, carried as it is.
#[verifier::external_type_specification]
#[verifier::external_body]
pub struct ExGlobMatcher(globset::GlobMatcher);

/// A compiled regular expression, carried as it is.
#[verifier::external_type_specification]
#[verifier::external_body]
pub struct ExRegex(regex::Regex);

/// Whether a text means the same on every platform as a glob or as a path:
/// backslashes separate on some, and escape on others.
pub open spec fn portable(s: Seq<char>) -> bool {
    !s.contains('\\')
}

/// What is wrong with a glob without backslashes, where anything is.
pub uninterp spec fn glob_fault(pattern: Seq<char>) -> Option<Seq<char>>;

/// Whether a path meets a glob in which a wildcard matches no separator; there
/// are no backslashes in either.
pub uninterp spec fn glob_matches(pattern: Seq<char>, path: Seq<char>) -> bool;

/// Whether a path meets a compiled glob.
pub uninterp spec fn glob_accepts(matcher: globset::GlobMatcher, path: Seq<char>) -> bool;

/// What is wrong with a regular expression, where anything is. An expression is
/// refused too where its compiled form takes too many bytes, and how many it
/// takes depends on the width of a pointer: the name stands for the result on
/// one target.
pub uninterp spec fn regex_fault(pattern: Seq<char>, case_insensitive: bool) -> Option<Seq<char>>;

/// Whether a regular expression matches anywhere in a line.
pub uninterp spec fn regex_matches(
    pattern: Seq<char>,
    case_insensitive: bool,
    line: Seq<char>,
) -> bool;

/// Whether a compiled regular expression matches anywhere in a line.
pub uninterp spec fn regex_accepts(compiled: regex::Regex, line: Seq<char>) -> bool;

/// How many alternatives a glob opens.
pub open spec fn braces(pattern: Seq<char>) -> nat
    decreases pattern.len(),
{
    if pattern.len() == 0 {
        0
    } else {
        braces(pattern.drop_last()) + (if pattern.last() == '{' {
            1nat
        } else {
            0
        })
    }
}

pub const MAX_GLOB_CHARS: usize = 16_384;

pub const MAX_GLOB_BRACES: usize = 64;

/// Whether a glob is small enough to be compiled for certain.
pub open spec fn fits(pattern: Seq<char>) -> bool {
    pattern.len() <= MAX_GLOB_CHARS && braces(pattern) <= MAX_GLOB_BRACES
}

/// `globset::GlobBuilder` with `literal_separator`, and `compile_matcher`: the
/// compiled glob, which accepts what the glob matches, or what is wrong with
/// it. Both depend on the pattern alone where there are no backslashes, which
/// mean one thing or another by the platform; of globs and paths with
/// backslashes nothing is claimed. `compile_matcher` panics where the regular
/// expression that it makes of a glob is refused for its size or its nesting,
/// which a glob that fits stays far below.
#[verifier::external_body]
fn compile_glob(pattern: &str) -> (r: Result<globset::GlobMatcher, String>)
    requires
        fits(pattern@),
    ensures
        portable(pattern@) && r is Ok ==> glob_fault(pattern@) is None,
        portable(pattern@) && r is Err ==> glob_fault(pattern@) == Some(r->Err_0@),
        r is Ok ==> forall|path: Seq<char>|
            portable(pattern@) && portable(path) ==> #[trigger] glob_accepts(r->Ok_0, path)
                == glob_matches(pattern@, path),
{
    match globset::GlobBuilder::new(pattern).literal_separator(true).build() {
        Ok(glob) => Ok(glob.compile_matcher()),
        Err(error) => Err(error.to_string()),
    }
}

/// `globset::GlobMatcher::is_match` of a path that is text.
#[verifier::external_body]
fn glob_is_match(matcher: &globset::GlobMatcher, path: &str) -> (r: bool)
    ensures
        r == glob_accepts(*matcher, path@),
{
    matcher.is_match(path)
}

/// `regex::RegexBuilder` with `case_insensitive`: the compiled expression,
/// which accepts what the expression matches, or what is wrong with it. Both
/// depend on the arguments alone.
#[verifier::external_body]
fn compile_regex(pattern: &str, case_insensitive: bool) -> (r: Result<regex::Regex, String>)
    ensures
        r is Ok ==> regex_fault(pattern@, case_insensitive) is None && forall|line: Seq<char>|
            #[trigger]
            regex_accepts(r->Ok_0, line) == regex_matches(pattern@, case_insensitive, line),
        r is Err ==> regex_fault(pattern@, case_insensitive) == Some(r->Err_0@),
{
    match regex::RegexBuilder::new(pattern).case_insensitive(case_insensitive).build() {
        Ok(compiled) => Ok(compiled),
        Err(error) => Err(error.to_string()),
    }
}

/// `regex::Regex::is_match` of a line.
#[verifier::external_body]
fn regex_is_match(compiled: &regex::Regex, line: &str) -> (r: bool)
    ensures
        r == regex_accepts(*compiled, line@),
{
    compiled.is_match(line)
}

/// A pattern with slashes for backslashes.
pub open spec fn slashed(pattern: Seq<char>) -> Seq<char> {
    pattern.map_values(
        |c: char|
            if c == '\\' {
                '/'
            } else {
                c
            },
    )
}

/// The glob that a pattern stands for: one without a slash matches at any
/// depth.
pub open spec fn path_glob(pattern: Seq<char>) -> Seq<char> {
    let plain = slashed(pattern);
    if plain.contains('/') {
        plain
    } else {
        "{"@ + plain + ",**/"@ + plain + "}"@
    }
}

/// There are no backslashes in the glob of a pattern.
pub proof fn lemma_path_glob_is_portable(pattern: Seq<char>)
    ensures
        portable(path_glob(pattern)),
{
    reveal_strlit("{");
    reveal_strlit(",**/");
    reveal_strlit("}");
    let plain = slashed(pattern);
    assert forall|i: int| 0 <= i < plain.len() implies plain[i] != '\\' by {}
    let glob = path_glob(pattern);
    assert forall|i: int| 0 <= i < glob.len() implies glob[i] != '\\' by {
        if !plain.contains('/') {
            let a = 1 + plain.len();
            if 1 <= i < a {
                assert(glob[i] == plain[i - 1]);
            } else if a + 4 <= i < a + 4 + plain.len() {
                assert(glob[i] == plain[i - a - 4]);
            }
        }
    }
}

fn slashes_of(pattern: &str) -> (r: String)
    ensures
        r@ == slashed(pattern@),
{
    let chars = text::chars_of(pattern);
    let ghost goal = slashed(pattern@);
    let mut r: Vec<char> = Vec::new();
    let mut i: usize = 0;
    while i < chars.len()
        invariant
            i <= chars@.len(),
            chars@ == pattern@,
            goal == slashed(pattern@),
            r@ == goal.take(i as int),
        decreases chars@.len() - i,
    {
        r.push(
            if chars[i] == '\\' {
                '/'
            } else {
                chars[i]
            },
        );
        i = i + 1;
        assert(r@ =~= goal.take(i as int));
    }
    assert(goal.take(goal.len() as int) =~= goal);
    text::text_of(r.as_slice())
}

fn path_glob_of(pattern: &str) -> (r: String)
    ensures
        r@ == path_glob(pattern@),
{
    let plain = slashes_of(pattern);
    if crate::provider::models_dev::contains_slash(plain.as_str()) {
        plain
    } else {
        let mut r = text::concat("{", plain.as_str());
        r.append(",**/");
        r.append(plain.as_str());
        r.append("}");
        r
    }
}

/// What is said of a glob that is no good.
pub open spec fn glob_failure(what: Seq<char>, pattern: Seq<char>, fault: Seq<char>) -> Seq<char> {
    what + text::debug_quoted(pattern) + ": "@ + fault
}

fn failure_of(what: &str, pattern: &str, fault: &str) -> (r: String)
    ensures
        r@ == glob_failure(what@, pattern@, fault@),
{
    let quoted = text::debug_text(pattern);
    let mut r = text::concat(what, quoted.as_str());
    r.append(": ");
    r.append(fault);
    r
}

// ---------------------------------------------------------------------------
// Order
// ---------------------------------------------------------------------------

/// A list in order, with one text more in its place.
pub open spec fn placed(list: Seq<Seq<char>>, item: Seq<char>) -> Seq<Seq<char>>
    decreases list.len(),
{
    if list.len() == 0 {
        seq![item]
    } else if textmap::text_less(item, list[0]) {
        seq![item] + list
    } else {
        seq![list[0]] + placed(list.skip(1), item)
    }
}

/// A list in the order of its texts.
pub open spec fn sorted_texts(list: Seq<Seq<char>>) -> Seq<Seq<char>>
    decreases list.len(),
{
    if list.len() == 0 {
        Seq::empty()
    } else {
        placed(sorted_texts(list.drop_last()), list.last())
    }
}

/// Whether no text comes before one that stands earlier.
pub open spec fn in_order(list: Seq<Seq<char>>) -> bool {
    forall|i: int, j: int|
        0 <= i < j < list.len() ==> !textmap::text_less(#[trigger] list[j], #[trigger] list[i])
}

proof fn lemma_placed_skip(list: Seq<Seq<char>>, item: Seq<char>, i: int)
    requires
        0 <= i <= list.len(),
        forall|j: int| 0 <= j < i ==> !textmap::text_less(item, #[trigger] list[j]),
    ensures
        placed(list, item) == list.take(i) + placed(list.skip(i), item),
    decreases i,
{
    if i == 0 {
        assert(list.skip(0) =~= list);
        assert(list.take(0) + placed(list, item) =~= placed(list, item));
    } else {
        assert(!textmap::text_less(item, list[0]));
        let rest = list.skip(1);
        assert forall|j: int| 0 <= j < i - 1 implies !textmap::text_less(
            item,
            #[trigger] rest[j],
        ) by {
            assert(rest[j] == list[j + 1]);
        }
        lemma_placed_skip(rest, item, i - 1);
        assert(rest.skip(i - 1) =~= list.skip(i));
        assert(seq![list[0]] + (rest.take(i - 1) + placed(list.skip(i), item)) =~= list.take(i)
            + placed(list.skip(i), item));
    }
}

proof fn lemma_placed(list: Seq<Seq<char>>, item: Seq<char>)
    requires
        in_order(list),
    ensures
        in_order(placed(list, item)),
        placed(list, item).to_multiset() =~= list.to_multiset().insert(item),
        forall|k: int|
            0 <= k < placed(list, item).len() ==> {
                let x = #[trigger] placed(list, item)[k];
                x == item || list.contains(x)
            },
    decreases list.len(),
{
    broadcast use vstd::seq_lib::group_to_multiset_ensures;

    let r = placed(list, item);
    if list.len() == 0 {
        assert(r =~= list.push(item));
    } else if textmap::text_less(item, list[0]) {
        assert(r =~= list.insert(0, item));
        list.to_multiset_ensures();
        vstd::seq_lib::to_multiset_insert(list, 0, item);
        assert forall|i: int, j: int| 0 <= i < j < r.len() implies !textmap::text_less(
            #[trigger] r[j],
            #[trigger] r[i],
        ) by {
            assert(r[j] == list[j - 1]);
            if i == 0 {
                if textmap::text_less(list[j - 1], item) {
                    textmap::lemma_text_less_transitive(list[j - 1], item, list[0]);
                    if j - 1 > 0 {
                        assert(!textmap::text_less(list[j - 1], list[0]));
                    } else {
                        textmap::lemma_text_less_irreflexive(list[0]);
                    }
                }
            } else {
                assert(r[i] == list[i - 1]);
            }
        }
        assert forall|k: int| 0 <= k < r.len() implies ({
            let x = #[trigger] r[k];
            x == item || list.contains(x)
        }) by {
            if k > 0 {
                assert(r[k] == list[k - 1]);
            }
        }
    } else {
        let rest = list.skip(1);
        assert forall|i: int, j: int| 0 <= i < j < rest.len() implies !textmap::text_less(
            #[trigger] rest[j],
            #[trigger] rest[i],
        ) by {
            assert(rest[i] == list[i + 1]);
            assert(rest[j] == list[j + 1]);
        }
        lemma_placed(rest, item);
        let tail = placed(rest, item);
        assert forall|i: int, j: int| 0 <= i < j < r.len() implies !textmap::text_less(
            #[trigger] r[j],
            #[trigger] r[i],
        ) by {
            assert(r[j] == tail[j - 1]);
            if i == 0 {
                if tail[j - 1] != item {
                    let k = rest.index_of(tail[j - 1]);
                    assert(rest[k] == list[k + 1]);
                    assert(!textmap::text_less(list[k + 1], list[0]));
                }
            } else {
                assert(r[i] == tail[i - 1]);
            }
        }
        assert forall|k: int| 0 <= k < r.len() implies ({
            let x = #[trigger] r[k];
            x == item || list.contains(x)
        }) by {
            if k == 0 {
                assert(r[0] == list[0]);
            } else {
                assert(r[k] == tail[k - 1]);
                if tail[k - 1] != item {
                    let j = rest.index_of(tail[k - 1]);
                    assert(list[j + 1] == rest[j]);
                }
            }
        }
        assert(list =~= rest.insert(0, list[0]));
        vstd::seq_lib::to_multiset_insert(rest, 0, list[0]);
        assert(r =~= tail.insert(0, list[0]));
        vstd::seq_lib::to_multiset_insert(tail, 0, list[0]);
    }
}

/// A sorted list is in order and has just the texts that it was made of.
pub proof fn law_sorted_texts(list: Seq<Seq<char>>)
    ensures
        in_order(sorted_texts(list)),
        sorted_texts(list).to_multiset() =~= list.to_multiset(),
    decreases list.len(),
{
    broadcast use vstd::seq_lib::group_to_multiset_ensures;

    if list.len() > 0 {
        let front = list.drop_last();
        law_sorted_texts(front);
        lemma_placed(sorted_texts(front), list.last());
        assert(list =~= front.push(list.last()));
    } else {
        assert(list =~= Seq::<Seq<char>>::empty());
    }
}

fn place(list: &mut Vec<String>, item: String)
    ensures
        text::views(final(list)@) == placed(text::views(old(list)@), item@),
{
    let ghost model = text::views(list@);
    let mut i: usize = 0;
    let mut searching = true;
    while searching && i < list.len()
        invariant
            i <= list@.len(),
            model == text::views(list@),
            model == text::views(old(list)@),
            forall|j: int| 0 <= j < i ==> !textmap::text_less(item@, #[trigger] model[j]),
            !searching ==> i < list@.len() && textmap::text_less(item@, model[i as int]),
        decreases list@.len() - i + (if searching {
            1int
        } else {
            0int
        }),
    {
        assert(model[i as int] == list@[i as int]@);
        match textmap::compare_texts(item.as_str(), list[i].as_str()) {
            TextOrder::Before => {
                searching = false;
            },
            other => {
                proof {
                    textmap::lemma_text_less_irreflexive(item@);
                    if textmap::text_less(item@, model[i as int]) && textmap::text_less(
                        model[i as int],
                        item@,
                    ) {
                        textmap::lemma_text_less_transitive(item@, model[i as int], item@);
                    }
                }
                i = i + 1;
            },
        }
    }
    proof {
        lemma_placed_skip(model, item@, i as int);
        if i < model.len() {
            assert(model.skip(i as int)[0] == model[i as int]);
        }
    }
    list.insert(i, item);
    proof {
        let tail = model.skip(i as int);
        if i < model.len() {
            assert(placed(tail, item@) == seq![item@] + tail);
        } else {
            assert(placed(tail, item@) =~= seq![item@] + tail);
        }
        assert(text::views(list@) =~= model.take(i as int) + (seq![item@] + tail));
    }
}

fn sort_texts(list: &Vec<String>) -> (r: Vec<String>)
    ensures
        text::views(r@) == sorted_texts(text::views(list@)),
{
    let ghost model = text::views(list@);
    let mut r: Vec<String> = Vec::new();
    let mut i: usize = 0;
    assert(text::views(r@) =~= sorted_texts(model.take(0)));
    while i < list.len()
        invariant
            i <= list@.len(),
            model == text::views(list@),
            text::views(r@) == sorted_texts(model.take(i as int)),
        decreases list@.len() - i,
    {
        assert(model.take(i as int + 1).drop_last() =~= model.take(i as int));
        assert(model.take(i as int + 1).last() == list@[i as int]@);
        place(&mut r, list[i].clone());
        i = i + 1;
    }
    assert(model.take(model.len() as int) =~= model);
    r
}

// ---------------------------------------------------------------------------
// Finding paths
// ---------------------------------------------------------------------------

fn count_braces(pattern: &str) -> (r: usize)
    ensures
        r == braces(pattern@),
{
    let chars = text::chars_of(pattern);
    let mut count: usize = 0;
    let mut i: usize = 0;
    assert(pattern@.take(0) =~= Seq::<char>::empty());
    while i < chars.len()
        invariant
            i <= chars@.len(),
            chars@ == pattern@,
            count <= i,
            count == braces(pattern@.take(i as int)),
        decreases chars@.len() - i,
    {
        assert(pattern@.take(i as int + 1).drop_last() =~= pattern@.take(i as int));
        assert(pattern@.take(i as int + 1).last() == pattern@[i as int]);
        if chars[i] == '{' {
            count = count + 1;
        }
        i = i + 1;
    }
    assert(pattern@.take(pattern@.len() as int) =~= pattern@);
    count
}

fn glob_fits(pattern: &str) -> (r: bool)
    ensures
        r == fits(pattern@),
{
    text::char_count(pattern) <= MAX_GLOB_CHARS && count_braces(pattern) <= MAX_GLOB_BRACES
}

/// Whether `glob` can search for a pattern.
pub fn can_search_paths(pattern: &str) -> (r: bool)
    ensures
        r == fits(path_glob(pattern@)),
{
    let glob = path_glob_of(pattern);
    glob_fits(glob.as_str())
}

/// Whether `grep` can search what it is given.
pub open spec fn searchable(arguments: GrepArgumentsView) -> bool {
    arguments.file_glob matches Some(glob) ==> fits(glob)
}

/// Whether `grep` can search what it is given.
pub fn can_search_lines(arguments: &GrepArguments) -> (r: bool)
    ensures
        r == searchable(arguments@),
{
    match &arguments.file_glob {
        Some(glob) => glob_fits(glob.as_str()),
        None => true,
    }
}

/// What is shown of a search that stopped at its limit.
pub open spec fn limit_note(limited: bool, max_results: usize) -> Seq<char> {
    if limited {
        "; stopped at max_results="@ + text::decimal(max_results as nat)
    } else {
        Seq::empty()
    }
}

fn append_limit_note(target: &mut String, limited: bool, max_results: usize)
    ensures
        final(target)@ == old(target)@ + limit_note(limited, max_results),
{
    let ghost before = target@;
    if limited {
        let limit = text::decimal_of(max_results as u64);
        let note = text::concat("; stopped at max_results=", limit.as_str());
        target.append(note.as_str());
    } else {
        assert(before + Seq::<char>::empty() =~= before);
    }
}

/// A search for paths.
pub struct GlobSearch {
    matcher: globset::GlobMatcher,
    max_results: usize,
    matches: Vec<String>,
    limited: bool,
}

/// What a [`GlobSearch`] is for, and what it has found.
#[verifier::ext_equal]
pub struct GlobView {
    pub matcher: globset::GlobMatcher,
    pub max_results: usize,
    pub matches: Seq<Seq<char>>,
    pub limited: bool,
}

impl View for GlobSearch {
    type V = GlobView;

    closed spec fn view(&self) -> GlobView {
        GlobView {
            matcher: self.matcher,
            max_results: self.max_results,
            matches: text::views(self.matches@),
            limited: self.limited,
        }
    }
}

impl GlobView {
    /// This search after a path. A search that is over stays as it is.
    pub open spec fn after(self, path: Seq<char>, is_dir: bool) -> GlobView {
        if !self.limited && glob_accepts(self.matcher, path) {
            let matches = self.matches.push(
                if is_dir {
                    path + "/"@
                } else {
                    path
                },
            );
            GlobView { matches, limited: matches.len() == self.max_results, ..self }
        } else {
            self
        }
    }

    /// What is shown of the search.
    pub open spec fn shown(self) -> Seq<char> {
        if self.matches.len() == 0 {
            "No matching paths found."@
        } else {
            text::join(sorted_texts(self.matches), "\n"@) + "\n\n"@ + text::decimal(
                self.matches.len(),
            ) + " matching path(s)"@ + limit_note(self.limited, self.max_results)
        }
    }
}

impl GlobSearch {
    /// A search for what a pattern matches.
    pub fn new(pattern: &str, max_results: usize) -> (r: Result<GlobSearch, String>)
        requires
            fits(path_glob(pattern@)),
        ensures
            match (r, glob_fault(path_glob(pattern@))) {
                (Ok(search), None) => {
                    &&& search@ == (GlobView {
                        matcher: search@.matcher,
                        max_results,
                        matches: Seq::empty(),
                        limited: false,
                    })
                    &&& forall|path: Seq<char>|
                        portable(path) ==> #[trigger] glob_accepts(search@.matcher, path)
                            == glob_matches(path_glob(pattern@), path)
                },
                (Err(message), Some(fault)) => message@ == glob_failure(
                    "invalid glob pattern "@,
                    path_glob(pattern@),
                    fault,
                ),
                _ => false,
            },
    {
        let glob = path_glob_of(pattern);
        proof {
            lemma_path_glob_is_portable(pattern@);
        }
        match compile_glob(glob.as_str()) {
            Ok(matcher) => {
                let search = GlobSearch {
                    matcher,
                    max_results,
                    matches: Vec::new(),
                    limited: false,
                };
                assert(search@.matches =~= Seq::<Seq<char>>::empty());
                Ok(search)
            },
            Err(fault) => Err(
                failure_of("invalid glob pattern ", glob.as_str(), fault.as_str()),
            ),
        }
    }

    /// Takes in a path, relative to where the search began; says whether the
    /// search is over.
    pub fn offer(&mut self, path: &str, is_dir: bool) -> (r: bool)
        ensures
            final(self)@ == old(self)@.after(path@, is_dir),
            r == final(self)@.limited,
    {
        if !self.limited && glob_is_match(&self.matcher, path) {
            let found = if is_dir {
                text::concat(path, "/")
            } else {
                path.to_owned()
            };
            proof {
                text::lemma_views_push(self.matches@, found);
            }
            self.matches.push(found);
            self.limited = self.matches.len() == self.max_results;
        }
        self.limited
    }

    /// What is shown of the search.
    pub fn finish(&self) -> (r: String)
        ensures
            r@ == self@.shown(),
    {
        if self.matches.len() == 0 {
            return "No matching paths found.".to_owned();
        }
        let sorted = sort_texts(&self.matches);
        let mut r = text::join_of(&sorted, "\n");
        let count = text::decimal_of(self.matches.len() as u64);
        r.append("\n\n");
        r.append(count.as_str());
        r.append(" matching path(s)");
        append_limit_note(&mut r, self.limited, self.max_results);
        r
    }
}

/// What is said of a path that is no directory.
pub fn not_a_directory(shown: &str) -> (r: String)
    ensures
        r@ == "glob path is not a directory: "@ + shown@,
{
    text::concat("glob path is not a directory: ", shown)
}

/// What is said of a search that took too long.
pub fn timeout_message(tool: &str, seconds: u64) -> (r: String)
    ensures
        r@ == tool@ + " exceeded its "@ + text::decimal(seconds as nat) + " second timeout"@,
{
    let shown = text::decimal_of(seconds);
    let mut r = text::concat(tool, " exceeded its ");
    r.append(shown.as_str());
    r.append(" second timeout");
    r
}

// ---------------------------------------------------------------------------
// Finding lines
// ---------------------------------------------------------------------------

/// What a search for lines is for.
#[verifier::ext_equal]
pub struct GrepGoal {
    pub pattern: Seq<char>,
    pub case_insensitive: bool,
    pub file_glob: Option<Seq<char>>,
    pub max_results: usize,
}

impl GrepGoal {
    pub open spec fn meets(self, line: Seq<char>) -> bool {
        regex_matches(self.pattern, self.case_insensitive, line)
    }

    /// Whether its glob, where it has one, means the same everywhere.
    pub open spec fn is_portable(self) -> bool {
        self.file_glob matches Some(glob) ==> portable(glob)
    }

    /// What is wrong with it, where anything is.
    pub open spec fn fault(self) -> Option<Seq<char>> {
        match regex_fault(self.pattern, self.case_insensitive) {
            Some(fault) => Some(glob_failure("invalid grep pattern "@, self.pattern, fault)),
            None => match self.file_glob {
                Some(glob) => match glob_fault(glob) {
                    Some(fault) => Some(glob_failure("invalid file_glob "@, glob, fault)),
                    None => None,
                },
                None => None,
            },
        }
    }
}

/// What a search for lines is for, by what `grep` is given.
pub open spec fn goal_of(arguments: GrepArgumentsView) -> GrepGoal {
    GrepGoal {
        pattern: arguments.pattern,
        case_insensitive: !arguments.case_sensitive,
        file_glob: arguments.file_glob,
        max_results: arguments.max_results,
    }
}

/// A search for lines.
pub struct GrepSearch {
    compiled: regex::Regex,
    files: Option<globset::GlobMatcher>,
    goal: Ghost<GrepGoal>,
    max_results: usize,
    results: Vec<String>,
    matched_files: usize,
}

/// What a [`GrepSearch`] is for, and what it has found.
#[verifier::ext_equal]
pub struct GrepView {
    pub goal: GrepGoal,
    pub files: Option<globset::GlobMatcher>,
    pub results: Seq<Seq<char>>,
    pub matched_files: nat,
}

impl View for GrepSearch {
    type V = GrepView;

    closed spec fn view(&self) -> GrepView {
        GrepView {
            goal: self.goal@,
            files: self.files,
            results: text::views(self.results@),
            matched_files: self.matched_files as nat,
        }
    }
}

/// How a line that was found is shown.
pub open spec fn hit(path: Seq<char>, number: nat, line: Seq<char>) -> Seq<char> {
    path + ":"@ + text::decimal(number) + ":"@ + line
}

/// The results after the first `n` lines of a file: none is added once there
/// are as many as are wanted.
pub open spec fn results_after(
    goal: GrepGoal,
    results: Seq<Seq<char>>,
    path: Seq<char>,
    lines: Seq<Seq<char>>,
    n: nat,
) -> Seq<Seq<char>>
    decreases n,
{
    if n == 0 || n > lines.len() {
        results
    } else {
        let before = results_after(goal, results, path, lines, (n - 1) as nat);
        if before.len() < goal.max_results && goal.meets(lines[n - 1]) {
            before.push(hit(path, n, lines[n - 1]))
        } else {
            before
        }
    }
}

impl GrepView {
    pub open spec fn limited(self) -> bool {
        self.results.len() >= self.goal.max_results
    }

    /// Whether a file is searched at all.
    pub open spec fn wants(self, path: Seq<char>) -> bool {
        match self.files {
            Some(matcher) => glob_accepts(matcher, path),
            None => true,
        }
    }

    /// This search after a file.
    pub open spec fn after(self, path: Seq<char>, content: Seq<char>) -> GrepView {
        let lines = text::lines(content);
        let results = results_after(self.goal, self.results, path, lines, lines.len());
        GrepView {
            goal: self.goal,
            files: self.files,
            results,
            matched_files: if results.len() > self.results.len() {
                self.matched_files + 1
            } else {
                self.matched_files
            },
        }
    }

    /// What is shown of the search.
    pub open spec fn shown(self) -> Seq<char> {
        if self.results.len() == 0 {
            "No matches found."@
        } else {
            text::join(self.results, "\n"@) + "\n\n"@ + text::decimal(self.results.len())
                + " matching line(s) in "@ + text::decimal(self.matched_files) + " file(s)"@
                + limit_note(self.limited(), self.goal.max_results)
        }
    }
}

proof fn lemma_results_full(
    goal: GrepGoal,
    results: Seq<Seq<char>>,
    path: Seq<char>,
    lines: Seq<Seq<char>>,
    n: nat,
    m: nat,
)
    requires
        n <= m <= lines.len(),
        results_after(goal, results, path, lines, n).len() >= goal.max_results,
    ensures
        results_after(goal, results, path, lines, m) == results_after(
            goal,
            results,
            path,
            lines,
            n,
        ),
    decreases m,
{
    if n < m {
        lemma_results_full(goal, results, path, lines, n, (m - 1) as nat);
    }
}

impl GrepSearch {
    /// The compiled expression is that of the goal.
    pub closed spec fn wf(&self) -> bool {
        &&& self.max_results == self.goal@.max_results
        &&& self.matched_files <= self.results@.len()
        &&& forall|line: Seq<char>| #[trigger]
            regex_accepts(self.compiled, line) == self.goal@.meets(line)
    }

    /// A search for what `grep` is given.
    pub fn new(arguments: &GrepArguments) -> (r: Result<GrepSearch, String>)
        requires
            searchable(arguments@),
        ensures
            goal_of(arguments@).is_portable() ==> match (r, goal_of(arguments@).fault()) {
                (Ok(_), None) => true,
                (Err(message), Some(fault)) => message@ == fault,
                _ => false,
            },
            match r {
                Ok(search) => {
                    &&& search.wf()
                    &&& regex_fault(arguments@.pattern, !arguments@.case_sensitive) is None
                    &&& search@ == (GrepView {
                        goal: goal_of(arguments@),
                        files: search@.files,
                        results: Seq::empty(),
                        matched_files: 0,
                    })
                    &&& match (search@.files, arguments@.file_glob) {
                        (Some(matcher), Some(glob)) => forall|path: Seq<char>|
                            portable(glob) && portable(path) ==> #[trigger] glob_accepts(
                                matcher,
                                path,
                            ) == glob_matches(glob, path),
                        (None, None) => true,
                        _ => false,
                    }
                },
                Err(message) => match regex_fault(
                    arguments@.pattern,
                    !arguments@.case_sensitive,
                ) {
                    Some(fault) => message@ == glob_failure(
                        "invalid grep pattern "@,
                        arguments@.pattern,
                        fault,
                    ),
                    None => arguments@.file_glob is Some && exists|fault: Seq<char>|
                        message@ == #[trigger] glob_failure(
                            "invalid file_glob "@,
                            arguments@.file_glob->Some_0,
                            fault,
                        ),
                },
            },
    {
        let compiled = match compile_regex(
            arguments.pattern.as_str(),
            !arguments.case_sensitive,
        ) {
            Ok(compiled) => compiled,
            Err(fault) => {
                return Err(
                    failure_of(
                        "invalid grep pattern ",
                        arguments.pattern.as_str(),
                        fault.as_str(),
                    ),
                );
            },
        };
        let files = match &arguments.file_glob {
            None => None,
            Some(glob) => match compile_glob(glob.as_str()) {
                Ok(matcher) => Some(matcher),
                Err(fault) => {
                    return Err(
                        failure_of("invalid file_glob ", glob.as_str(), fault.as_str()),
                    );
                },
            },
        };
        let search = GrepSearch {
            compiled,
            files,
            goal: Ghost(goal_of(arguments@)),
            max_results: arguments.max_results,
            results: Vec::new(),
            matched_files: 0,
        };
        assert(search@.results =~= Seq::<Seq<char>>::empty());
        Ok(search)
    }

    /// Whether a file is searched at all.
    pub fn wants(&self, path: &str) -> (r: bool)
        requires
            self.wf(),
        ensures
            r == self@.wants(path@),
    {
        match &self.files {
            Some(matcher) => glob_is_match(matcher, path),
            None => true,
        }
    }

    /// Searches a file; says whether the search is over.
    pub fn add_file(&mut self, path: &str, content: &str) -> (r: bool)
        requires
            old(self).wf(),
        ensures
            final(self).wf(),
            final(self)@ == old(self)@.after(path@, content@),
            r == final(self)@.limited(),
    {
        let ghost goal = self@.goal;
        let ghost before = self@.results;
        let ghost start = *self;
        let lines = text::lines_of(content);
        let ghost model = text::lines(content@);
        let had: usize = self.results.len();
        let mut i: usize = 0;
        while i < lines.len() && self.results.len() < self.max_results
            invariant
                i <= lines@.len(),
                model == text::views(lines@),
                self.wf(),
                self.goal == start.goal,
                self.files == start.files,
                self.matched_files == start.matched_files,
                goal == self.goal@,
                had == before.len(),
                had <= self.results@.len(),
                text::views(self.results@) == results_after(goal, before, path@, model, i as nat),
            decreases lines@.len() - i,
        {
            assert(model[i as int] == lines@[i as int]@);
            if regex_is_match(&self.compiled, lines[i].as_str()) {
                let number = text::decimal_of(i as u64 + 1);
                let mut found = text::concat(path, ":");
                found.append(number.as_str());
                found.append(":");
                found.append(lines[i].as_str());
                proof {
                    text::lemma_views_push(self.results@, found);
                }
                self.results.push(found);
            }
            i = i + 1;
        }
        proof {
            if self.results@.len() >= goal.max_results {
                lemma_results_full(goal, before, path@, model, i as nat, model.len());
            }
        }
        if self.results.len() > had {
            self.matched_files = self.matched_files + 1;
        }
        self.results.len() >= self.max_results
    }

    /// What is shown of the search.
    pub fn finish(&self) -> (r: String)
        requires
            self.wf(),
        ensures
            r@ == self@.shown(),
    {
        if self.results.len() == 0 {
            return "No matches found.".to_owned();
        }
        let mut r = text::join_of(&self.results, "\n");
        let count = text::decimal_of(self.results.len() as u64);
        let files = text::decimal_of(self.matched_files as u64);
        r.append("\n\n");
        r.append(count.as_str());
        r.append(" matching line(s) in ");
        r.append(files.as_str());
        r.append(" file(s)");
        append_limit_note(&mut r, self.results.len() >= self.max_results, self.max_results);
        r
    }
}

/// A search never finds more than it is asked for, and every line that it shows
/// meets its pattern.
pub proof fn law_grep_stays_within_its_limit(
    search: GrepView,
    path: Seq<char>,
    content: Seq<char>,
)
    requires
        search.results.len() <= search.goal.max_results,
    ensures
        search.after(path, content).results.len() <= search.goal.max_results,
        forall|k: int|
            search.results.len() <= k < search.after(path, content).results.len()
                ==> is_hit(search.goal, path, text::lines(content), #[trigger] search.after(
                path,
                content,
            ).results[k]),
{
    let lines = text::lines(content);
    lemma_results_within(search.goal, search.results, path, lines, lines.len());
}

/// Whether a result shows a line of a file that meets a goal.
pub open spec fn is_hit(
    goal: GrepGoal,
    path: Seq<char>,
    lines: Seq<Seq<char>>,
    result: Seq<char>,
) -> bool {
    exists|n: int|
        1 <= n <= lines.len() && goal.meets(#[trigger] lines[n - 1]) && result == hit(
            path,
            n as nat,
            lines[n - 1],
        )
}

proof fn lemma_results_within(
    goal: GrepGoal,
    results: Seq<Seq<char>>,
    path: Seq<char>,
    lines: Seq<Seq<char>>,
    n: nat,
)
    requires
        results.len() <= goal.max_results,
        n <= lines.len(),
    ensures
        results_after(goal, results, path, lines, n).len() <= goal.max_results,
        results.len() <= results_after(goal, results, path, lines, n).len(),
        forall|k: int|
            results.len() <= k < results_after(goal, results, path, lines, n).len() ==> is_hit(
                goal,
                path,
                lines,
                #[trigger] results_after(goal, results, path, lines, n)[k],
            ),
    decreases n,
{
    if n > 0 {
        lemma_results_within(goal, results, path, lines, (n - 1) as nat);
        let before = results_after(goal, results, path, lines, (n - 1) as nat);
        if before.len() < goal.max_results && goal.meets(lines[n - 1]) {
            assert(is_hit(goal, path, lines, hit(path, n, lines[n - 1])));
        }
    }
}

/// The numbers of the lines among the first `n` of a file that a search shows,
/// where it had `had` results before.
spec fn shown_numbers(goal: GrepGoal, had: nat, lines: Seq<Seq<char>>, n: nat) -> Seq<nat>
    decreases n,
{
    if n == 0 {
        Seq::empty()
    } else {
        let before = shown_numbers(goal, had, lines, (n - 1) as nat);
        if had + before.len() < goal.max_results && goal.meets(lines[n - 1]) {
            before.push(n)
        } else {
            before
        }
    }
}

proof fn lemma_shown_numbers(
    goal: GrepGoal,
    results: Seq<Seq<char>>,
    path: Seq<char>,
    lines: Seq<Seq<char>>,
    n: nat,
)
    requires
        n <= lines.len(),
    ensures
        ({
            let numbers = shown_numbers(goal, results.len(), lines, n);
            let after = results_after(goal, results, path, lines, n);
            &&& after.len() == results.len() + numbers.len()
            &&& after.take(results.len() as int) == results
            &&& forall|k: int|
                0 <= k < numbers.len() ==> {
                    &&& 1 <= #[trigger] numbers[k] <= n
                    &&& goal.meets(lines[numbers[k] - 1])
                    &&& after[results.len() + k] == path + ":"@ + text::decimal(numbers[k]) + ":"@
                        + lines[numbers[k] - 1]
                }
            &&& forall|j: int, k: int|
                0 <= j < k < numbers.len() ==> #[trigger] numbers[j] < #[trigger] numbers[k]
            &&& forall|m: nat|
                1 <= m <= n && goal.meets(#[trigger] lines[m - 1]) && !numbers.contains(m)
                    ==> after.len() >= goal.max_results && forall|k: int|
                    0 <= k < numbers.len() ==> #[trigger] numbers[k] < m
        }),
    decreases n,
{
    let numbers = shown_numbers(goal, results.len(), lines, n);
    let after = results_after(goal, results, path, lines, n);
    if n == 0 {
        assert(after.take(results.len() as int) =~= results);
    } else {
        lemma_shown_numbers(goal, results, path, lines, (n - 1) as nat);
        let before = shown_numbers(goal, results.len(), lines, (n - 1) as nat);
        let earlier = results_after(goal, results, path, lines, (n - 1) as nat);
        assert(after.take(results.len() as int) =~= earlier.take(results.len() as int));
        assert forall|k: int| 0 <= k < numbers.len() implies {
            &&& 1 <= #[trigger] numbers[k] <= n
            &&& goal.meets(lines[numbers[k] - 1])
            &&& after[results.len() + k] == path + ":"@ + text::decimal(numbers[k]) + ":"@
                + lines[numbers[k] - 1]
        } by {
            if k < before.len() {
                assert(numbers[k] == before[k]);
                assert(after[results.len() + k] == earlier[results.len() + k]);
            }
        }
        assert forall|m: nat|
            1 <= m <= n && goal.meets(#[trigger] lines[m - 1]) && !numbers.contains(
                m,
            ) implies after.len() >= goal.max_results && forall|k: int|
            0 <= k < numbers.len() ==> #[trigger] numbers[k] < m by {
            if m == n {
                if numbers.len() > before.len() {
                    assert(numbers[numbers.len() - 1] == n);
                    assert(false);
                }
            } else {
                if before.contains(m) {
                    let k = before.index_of(m);
                    assert(numbers[k] == m);
                    assert(false);
                }
                assert(earlier.len() >= goal.max_results);
                assert(numbers == before);
            }
        }
    }
}

/// A search of a file keeps what was found before, and puts behind it the lines
/// of the file that meet the pattern, each with the path and the line's number,
/// in the file's order: all of them, or the first ones where there are then as
/// many results as were asked for. The file is counted where it has such a line
/// among the results.
pub proof fn law_grep_finds_all(search: GrepView, path: Seq<char>, content: Seq<char>) -> (numbers:
    Seq<nat>)
    ensures
        ({
            let goal = search.goal;
            let lines = text::lines(content);
            let next = search.after(path, content);
            let had = search.results.len();
            &&& next.goal == goal
            &&& next.files == search.files
            &&& next.results.len() == had + numbers.len()
            &&& next.results.take(had as int) == search.results
            &&& next.matched_files == search.matched_files + (if numbers.len() > 0 {
                1nat
            } else {
                0
            })
            &&& forall|k: int|
                0 <= k < numbers.len() ==> {
                    &&& 1 <= #[trigger] numbers[k] <= lines.len()
                    &&& regex_matches(goal.pattern, goal.case_insensitive, lines[numbers[k] - 1])
                    &&& next.results[had + k] == path + ":"@ + text::decimal(numbers[k]) + ":"@
                        + lines[numbers[k] - 1]
                }
            &&& forall|j: int, k: int|
                0 <= j < k < numbers.len() ==> #[trigger] numbers[j] < #[trigger] numbers[k]
            &&& forall|n: nat|
                1 <= n <= lines.len() && regex_matches(
                    goal.pattern,
                    goal.case_insensitive,
                    #[trigger] lines[n - 1],
                ) && !numbers.contains(n) ==> next.results.len() >= goal.max_results && forall|
                    k: int,
                |
                    0 <= k < numbers.len() ==> #[trigger] numbers[k] < n
        }),
{
    let lines = text::lines(content);
    lemma_shown_numbers(search.goal, search.results, path, lines, lines.len());
    let numbers = shown_numbers(search.goal, search.results.len(), lines, lines.len());
    let goal = search.goal;
    let next = search.after(path, content);
    assert forall|n: nat|
        1 <= n <= lines.len() && regex_matches(
            goal.pattern,
            goal.case_insensitive,
            #[trigger] lines[n - 1],
        ) && !numbers.contains(n) implies next.results.len() >= goal.max_results && forall|k: int|
        0 <= k < numbers.len() ==> #[trigger] numbers[k] < n by {
        assert(goal.meets(lines[n - 1]));
    }
    numbers
}

/// After a file is searched there are as many results as were asked for, or
/// every line of the file that meets the pattern is among the results, with its
/// path and its number, behind the results from before.
pub proof fn law_grep_is_complete(
    search: GrepView,
    path: Seq<char>,
    content: Seq<char>,
    n: nat,
)
    requires
        1 <= n <= text::lines(content).len(),
        regex_matches(
            search.goal.pattern,
            search.goal.case_insensitive,
            text::lines(content)[n - 1],
        ),
        search.after(path, content).results.len() < search.goal.max_results,
    ensures
        search.after(path, content).results.skip(search.results.len() as int).contains(
            path + ":"@ + text::decimal(n) + ":"@ + text::lines(content)[n - 1],
        ),
        search.after(path, content).results.take(search.results.len() as int) == search.results,
{
    let numbers = law_grep_finds_all(search, path, content);
    let lines = text::lines(content);
    let results = search.after(path, content).results;
    let found = results.skip(search.results.len() as int);
    assert(lines[n - 1] == text::lines(content)[n - 1]);
    assert(numbers.contains(n));
    let k = numbers.index_of(n);
    assert(found[k] == results[search.results.len() + k]);
}

/// This search after files one after the other.
pub open spec fn after_files(
    search: GrepView,
    files: Seq<(Seq<char>, Seq<char>)>,
) -> GrepView
    decreases files.len(),
{
    if files.len() == 0 {
        search
    } else {
        after_files(search, files.drop_last()).after(files.last().0, files.last().1)
    }
}

proof fn lemma_after_files_grow(search: GrepView, files: Seq<(Seq<char>, Seq<char>)>, k: int)
    requires
        0 <= k <= files.len(),
    ensures
        after_files(search, files).goal == search.goal,
        after_files(search, files.take(k)).results.len() <= after_files(
            search,
            files,
        ).results.len(),
        after_files(search, files).results.take(
            after_files(search, files.take(k)).results.len() as int,
        ) == after_files(search, files.take(k)).results,
    decreases files.len(),
{
    let before = after_files(search, files.take(k));
    if k == files.len() {
        assert(files.take(k) =~= files);
        assert(before.results.take(before.results.len() as int) =~= before.results);
        if files.len() > 0 {
            lemma_after_files_grow(search, files.drop_last(), 0);
            law_grep_finds_all(
                after_files(search, files.drop_last()),
                files.last().0,
                files.last().1,
            );
        }
    } else {
        let front = files.drop_last();
        lemma_after_files_grow(search, front, k);
        assert(front.take(k) =~= files.take(k));
        let middle = after_files(search, front);
        law_grep_finds_all(middle, files.last().0, files.last().1);
        let after = after_files(search, files);
        assert(after.results.take(before.results.len() as int) =~= after.results.take(
            middle.results.len() as int,
        ).take(before.results.len() as int));
    }
}

/// However many files are searched, a line of any of them that meets the
/// pattern is among the results in the end, unless there are as many as were
/// asked for.
pub proof fn law_grep_misses_no_file(
    search: GrepView,
    files: Seq<(Seq<char>, Seq<char>)>,
    f: int,
    n: nat,
)
    requires
        0 <= f < files.len(),
        1 <= n <= text::lines(files[f].1).len(),
        regex_matches(
            search.goal.pattern,
            search.goal.case_insensitive,
            text::lines(files[f].1)[n - 1],
        ),
        after_files(search, files).results.len() < search.goal.max_results,
    ensures
        after_files(search, files).results.contains(
            files[f].0 + ":"@ + text::decimal(n) + ":"@ + text::lines(files[f].1)[n - 1],
        ),
{
    lemma_after_files_grow(search, files, f);
    lemma_after_files_grow(search, files, f + 1);
    lemma_after_files_grow(search, files.take(f), 0);
    let before = after_files(search, files.take(f));
    let after = after_files(search, files.take(f + 1));
    assert(files.take(f + 1).drop_last() =~= files.take(f));
    assert(files.take(f + 1).last() == files[f]);
    law_grep_is_complete(before, files[f].0, files[f].1, n);
    law_grep_finds_all(before, files[f].0, files[f].1);
    let found = after.results.skip(before.results.len() as int);
    let wanted = files[f].0 + ":"@ + text::decimal(n) + ":"@ + text::lines(files[f].1)[n - 1];
    let k = found.index_of(wanted);
    assert(after.results[before.results.len() + k] == wanted);
    let all = after_files(search, files).results;
    assert(all.take(after.results.len() as int)[before.results.len() + k] == all[
        before.results.len() + k]);
}

/// This search after paths one after the other.
pub open spec fn after_paths(search: GlobView, paths: Seq<(Seq<char>, bool)>) -> GlobView
    decreases paths.len(),
{
    if paths.len() == 0 {
        search
    } else {
        after_paths(search, paths.drop_last()).after(paths.last().0, paths.last().1)
    }
}

/// How a path that was found is shown: a directory has a slash at its end.
pub open spec fn shown_path(path: (Seq<char>, bool)) -> Seq<char> {
    if path.1 {
        path.0 + "/"@
    } else {
        path.0
    }
}

/// A search for paths that is offered some finds those among them that the
/// pattern accepts, in the order in which they were offered: all of them, or the
/// first ones where these are as many as were asked for. It says that it stopped
/// just where it has as many.
pub proof fn law_glob_finds_all(search: GlobView, paths: Seq<(Seq<char>, bool)>) -> (places: Seq<
    int,
>)
    requires
        search.matches.len() == 0,
        !search.limited,
        search.max_results > 0,
    ensures
        ({
            let after = after_paths(search, paths);
            &&& after.matcher == search.matcher
            &&& after.max_results == search.max_results
            &&& after.matches.len() == places.len()
            &&& after.matches.len() <= search.max_results
            &&& after.limited <==> after.matches.len() == search.max_results
            &&& forall|k: int|
                0 <= k < places.len() ==> {
                    &&& 0 <= #[trigger] places[k] < paths.len()
                    &&& glob_accepts(search.matcher, paths[places[k]].0)
                    &&& after.matches[k] == shown_path(paths[places[k]])
                }
            &&& forall|j: int, k: int|
                0 <= j < k < places.len() ==> #[trigger] places[j] < #[trigger] places[k]
            &&& forall|i: int|
                0 <= i < paths.len() && glob_accepts(search.matcher, (#[trigger] paths[i]).0)
                    && !places.contains(i) ==> after.matches.len() == search.max_results && forall|
                    k: int,
                |
                    0 <= k < places.len() ==> #[trigger] places[k] < i
        }),
    decreases paths.len(),
{
    if paths.len() == 0 {
        Seq::empty()
    } else {
        let front = paths.drop_last();
        let last: int = paths.len() - 1;
        let before = law_glob_finds_all(search, front);
        let earlier = after_paths(search, front);
        let after = after_paths(search, paths);
        let places = if !earlier.limited && glob_accepts(search.matcher, paths.last().0) {
            before.push(last)
        } else {
            before
        };
        assert forall|k: int| 0 <= k < places.len() implies {
            &&& 0 <= #[trigger] places[k] < paths.len()
            &&& glob_accepts(search.matcher, paths[places[k]].0)
            &&& after.matches[k] == shown_path(paths[places[k]])
        } by {
            if k < before.len() {
                assert(places[k] == before[k]);
                assert(front[before[k]] == paths[before[k]]);
            }
        }
        assert forall|i: int|
            0 <= i < paths.len() && glob_accepts(search.matcher, (#[trigger] paths[i]).0)
                && !places.contains(i) implies after.matches.len() == search.max_results && forall|
            k: int,
        |
            0 <= k < places.len() ==> #[trigger] places[k] < i by {
            if i < last {
                assert(front[i] == paths[i]);
                if before.contains(i) {
                    assert(places[before.index_of(i)] == i);
                    assert(false);
                }
            } else if places.len() > before.len() {
                assert(places[before.len() as int] == i);
                assert(false);
            }
        }
        places
    }
}

/// What is shown of lines that were found are these lines, in their order, an
/// empty line, and one that begins with their number.
#[verifier::rlimit(40)]
#[verifier::spinoff_prover]
pub proof fn law_found_lines_are_shown(search: GrepView) -> (last: Seq<char>)
    requires
        search.results.len() > 0,
        forall|k: int| 0 <= k < search.results.len() ==> !(#[trigger] search.results[k]).contains(
            '\n',
        ),
    ensures
        text::split(search.shown(), '\n') == search.results + seq![Seq::<char>::empty(), last],
        last == text::decimal(search.results.len()) + " matching line(s) in "@ + text::decimal(
            search.matched_files,
        ) + " file(s)"@ + (if search.results.len() >= search.goal.max_results {
            "; stopped at max_results="@ + text::decimal(search.goal.max_results as nat)
        } else {
            Seq::empty()
        }),
{
    let last = text::decimal(search.results.len()) + " matching line(s) in "@ + text::decimal(
        search.matched_files,
    ) + " file(s)"@ + limit_note(search.limited(), search.goal.max_results);
    reveal_strlit(" matching line(s) in ");
    reveal_strlit(" file(s)");
    reveal_strlit("; stopped at max_results=");
    reveal_strlit("\n");
    reveal_strlit("\n\n");
    text::law_decimal(search.results.len());
    text::law_decimal(search.matched_files);
    text::law_decimal(search.goal.max_results as nat);
    lemma_shown_lines(search.results, last);
    assert(search.shown() =~= text::join(search.results, "\n"@) + "\n\n"@ + last);
    last
}

proof fn lemma_shown_lines(list: Seq<Seq<char>>, last: Seq<char>)
    requires
        list.len() > 0,
        forall|k: int| 0 <= k < list.len() ==> !(#[trigger] list[k]).contains('\n'),
        !last.contains('\n'),
    ensures
        text::split(text::join(list, "\n"@) + "\n\n"@ + last, '\n') == list + seq![
            Seq::<char>::empty(),
            last,
        ],
{
    reveal_strlit("\n");
    reveal_strlit("\n\n");
    let tail = seq![Seq::<char>::empty(), last];
    let all = list + tail;
    assert("\n"@ =~= seq!['\n']);
    text::law_join(list, tail, seq!['\n']);
    text::law_join(seq![Seq::<char>::empty()], seq![last], seq!['\n']);
    text::law_join(seq![last], tail, seq!['\n']);
    assert(tail =~= seq![Seq::<char>::empty()] + seq![last]);
    assert(text::join(all, seq!['\n']) =~= text::join(list, "\n"@) + "\n\n"@ + last);
    assert forall|k: int| 0 <= k < all.len() implies !(#[trigger] all[k]).contains('\n') by {
        if k < list.len() {
            assert(all[k] == list[k]);
        }
    }
    text::law_joined_is_split(all, '\n');
}

proof fn lemma_sorted_on_lines(list: Seq<Seq<char>>)
    requires
        forall|k: int| 0 <= k < list.len() ==> !(#[trigger] list[k]).contains('\n'),
    ensures
        sorted_texts(list).len() == list.len(),
        forall|k: int|
            0 <= k < sorted_texts(list).len() ==> !(#[trigger] sorted_texts(list)[k]).contains(
                '\n',
            ),
{
    let sorted = sorted_texts(list);
    law_sorted_texts(list);
    sorted.to_multiset_ensures();
    list.to_multiset_ensures();
    assert forall|k: int| 0 <= k < sorted.len() implies !(#[trigger] sorted[k]).contains('\n') by {
        assert(sorted.contains(sorted[k]));
        assert(sorted.to_multiset().count(sorted[k]) > 0);
        assert(list.contains(sorted[k]));
        let j = list.index_of(sorted[k]);
        assert(list[j] == sorted[k]);
    }
}

/// What is shown of paths that were found are these paths in order, no more and
/// no fewer, an empty line, and one that begins with their number.
#[verifier::rlimit(40)]
#[verifier::spinoff_prover]
pub proof fn law_found_paths_are_shown(search: GlobView) -> (shown: (Seq<Seq<char>>, Seq<char>))
    requires
        search.matches.len() > 0,
        forall|k: int| 0 <= k < search.matches.len() ==> !(#[trigger] search.matches[k]).contains(
            '\n',
        ),
    ensures
        text::split(search.shown(), '\n') == shown.0 + seq![Seq::<char>::empty(), shown.1],
        in_order(shown.0),
        shown.0.to_multiset() =~= search.matches.to_multiset(),
        shown.1 == text::decimal(search.matches.len()) + " matching path(s)"@ + (
        if search.limited {
            "; stopped at max_results="@ + text::decimal(search.max_results as nat)
        } else {
            Seq::empty()
        }),
{
    let list = sorted_texts(search.matches);
    law_sorted_texts(search.matches);
    lemma_sorted_on_lines(search.matches);
    let last = text::decimal(search.matches.len()) + " matching path(s)"@ + limit_note(
        search.limited,
        search.max_results,
    );
    reveal_strlit(" matching path(s)");
    reveal_strlit("; stopped at max_results=");
    text::law_decimal(search.matches.len());
    text::law_decimal(search.max_results as nat);
    lemma_shown_lines(list, last);
    assert(search.shown() =~= text::join(list, "\n"@) + "\n\n"@ + last);
    (list, last)
}

/// What `grep` is given is taken as it is said: the pattern, the path and the
/// glob, whether case counts, whether hidden files do, and how many results are
/// wanted; case counts and hidden files do not where nothing is said.
pub proof fn law_grep_arguments_are_taken(
    fields: Seq<(Seq<char>, JsonView)>,
    pattern: Seq<char>,
    path: Option<Seq<char>>,
    case_sensitive: Option<bool>,
    file_glob: Option<Seq<char>>,
    hidden: Option<bool>,
    max_results: Option<usize>,
)
    requires
        arguments::named_once(fields),
        ({
            let given = JsonView::Object(fields);
            &&& given.get("pattern"@) == Some(JsonView::Text(pattern))
            &&& given.get("path"@) == arguments::told_text(path)
            &&& given.get("case_sensitive"@) == arguments::told_flag(case_sensitive)
            &&& given.get("file_glob"@) == arguments::told_text(file_glob)
            &&& given.get("hidden"@) == arguments::told_flag(hidden)
            &&& given.get("max_results"@) == arguments::told_count(max_results)
        }),
        max_results matches Some(n) ==> 1 <= n <= 10_000,
    ensures
        grep_arguments(JsonView::Object(fields)) == Ok::<GrepArgumentsView, Seq<char>>(
            GrepArgumentsView {
                pattern,
                path,
                case_sensitive: case_sensitive != Some(false),
                file_glob,
                hidden: hidden == Some(true),
                max_results: match max_results {
                    Some(n) => n,
                    None => 100,
                },
            },
        ),
{
    let slots = grep_slots();
    let given = JsonView::Object(fields);
    assert forall|k: int| 0 <= k < slots.len() implies arguments::is_given(
        given,
        #[trigger] slots[k],
    ) by {}
    arguments::lemma_named_arguments(fields, "GrepArguments"@, slots);
    assert(arguments::given(given, slots, 0) == given.get(slots[0].name));
    assert(arguments::given(given, slots, 1) == given.get(slots[1].name));
    assert(arguments::given(given, slots, 2) == given.get(slots[2].name));
    assert(arguments::given(given, slots, 3) == given.get(slots[3].name));
    assert(arguments::given(given, slots, 4) == given.get(slots[4].name));
    assert(arguments::given(given, slots, 5) == given.get(slots[5].name));
}

/// What `glob` is given is taken as it is said.
pub proof fn law_glob_arguments_are_taken(
    fields: Seq<(Seq<char>, JsonView)>,
    pattern: Seq<char>,
    path: Option<Seq<char>>,
    hidden: Option<bool>,
    max_results: Option<usize>,
)
    requires
        arguments::named_once(fields),
        ({
            let given = JsonView::Object(fields);
            &&& given.get("pattern"@) == Some(JsonView::Text(pattern))
            &&& given.get("path"@) == arguments::told_text(path)
            &&& given.get("hidden"@) == arguments::told_flag(hidden)
            &&& given.get("max_results"@) == arguments::told_count(max_results)
        }),
        max_results matches Some(n) ==> 1 <= n <= 10_000,
    ensures
        glob_arguments(JsonView::Object(fields)) == Ok::<GlobArgumentsView, Seq<char>>(
            GlobArgumentsView {
                pattern,
                path,
                hidden: hidden == Some(true),
                max_results: match max_results {
                    Some(n) => n,
                    None => 200,
                },
            },
        ),
{
    let slots = glob_slots();
    let given = JsonView::Object(fields);
    assert forall|k: int| 0 <= k < slots.len() implies arguments::is_given(
        given,
        #[trigger] slots[k],
    ) by {}
    arguments::lemma_named_arguments(fields, "GlobArguments"@, slots);
    assert(arguments::given(given, slots, 0) == given.get(slots[0].name));
    assert(arguments::given(given, slots, 1) == given.get(slots[1].name));
    assert(arguments::given(given, slots, 2) == given.get(slots[2].name));
    assert(arguments::given(given, slots, 3) == given.get(slots[3].name));
}

/// A pattern without a slash is looked for at any depth, as it is and below any
/// directories; one with a slash is the glob itself, with slashes for
/// backslashes.
pub proof fn law_patterns_match_at_any_depth(pattern: Seq<char>)
    requires
        !pattern.contains('\\'),
    ensures
        pattern.contains('/') ==> path_glob(pattern) == pattern,
        !pattern.contains('/') ==> path_glob(pattern) == "{"@ + pattern + ",**/"@ + pattern + "}"@,
{
    let plain = slashed(pattern);
    assert forall|i: int| 0 <= i < pattern.len() implies plain[i] == pattern[i] by {
        assert(pattern.contains(pattern[i]));
    }
    assert(plain =~= pattern);
}

} // verus!
