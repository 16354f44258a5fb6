//! How pointers are shown, filtered, ranked and listed.
use crate::agent::message;
use crate::json::{Json, JsonView};
use crate::memory::ids;
use crate::memory::number;
use crate::memory::record;
use crate::memory::record::{MemoryPointer, PointerView};
use crate::text;
use crate::textmap;
use crate::textmap::TextMap;
use vstd::prelude::*;
use vstd::string::*;

verus! {

pub const ACTIVE_POINTER_LIMIT: usize = 64;

/// Upper bound on how many stored bodies one `list_pointers` call may read.
/// Text filters fall back to scanning content, and an unbounded fallback
/// turns a single tool call into a full-store read and decrypt.
pub const CONTENT_SCAN_LIMIT: usize = 256;

pub const SYSTEM_POINTER_LIMIT: usize = 24;

/// Portion of the manifest that pinned records may never take, as a divisor:
/// `2` keeps at least half the slots reachable by active pointers. Pinning is a
/// durability hint about the past; the active pointers describe what the model
/// is looking at right now. Without this floor, a session that accumulates
/// enough pins publishes a manifest that omits its own current observations.
pub const ACTIVE_MANIFEST_SHARE: usize = 2;

/// Importance at or above which a stored observation is pinned automatically.
pub const AUTO_PIN_IMPORTANCE: u8 = 85;

/// Head excerpt carried alongside a citation when an observation is too large
/// to inline. Enough to judge relevance without spending a recall.
pub const POINTER_EXCERPT_TOKENS: usize = 192;

// ---------------------------------------------------------------------------
// Citations
// ---------------------------------------------------------------------------

/// A metadata entry that citations show.
pub open spec fn is_detail(entry: (Seq<char>, Seq<char>)) -> bool {
    entry.0 != "preview"@ && entry.0 != "fingerprint"@ && entry.0 != "role"@
}

pub open spec fn detail_text(entry: (Seq<char>, Seq<char>)) -> Seq<char> {
    entry.0 + "="@ + entry.1
}

/// The first two details of some metadata, each as `key=value`.
pub open spec fn details(metadata: Seq<(Seq<char>, Seq<char>)>) -> Seq<Seq<char>>
    decreases metadata.len(),
{
    if metadata.len() == 0 {
        Seq::empty()
    } else {
        let rest = details(metadata.drop_last());
        if rest.len() < 2 && is_detail(metadata.last()) {
            rest.push(detail_text(metadata.last()))
        } else {
            rest
        }
    }
}

/// Where an observation came from: its tool, else its role, else its kind.
pub open spec fn source_of(p: PointerView) -> Seq<char> {
    match p.source_tool {
        Some(tool) => tool,
        None => match textmap::lookup(p.metadata, "role"@) {
            Some(role) => role,
            None => record::kind_label(p.kind),
        },
    }
}

/// How a pointer is cited.
pub open spec fn citation_text(p: PointerView) -> Seq<char> {
    let shown = details(p.metadata);
    let detail = if shown.len() == 0 {
        Seq::empty()
    } else {
        ", "@ + text::join(shown, ", "@)
    };
    let pinned = if p.pinned {
        ", pinned"@
    } else {
        Seq::empty()
    };
    "["@ + record::kind_label(p.kind) + "] "@ + source_of(p) + " → "@ + p.id + " (~"@
        + number::compact(p.token_estimate as nat) + " tokens"@ + detail + pinned
        + "; recall available)"@
}

fn details_of(metadata: &TextMap<String>) -> (r: Vec<String>)
    ensures
        text::views(r@) == details(metadata@),
{
    let mut shown: Vec<String> = Vec::new();
    let mut i: usize = 0;
    assert(metadata@.take(0) =~= Seq::<(Seq<char>, Seq<char>)>::empty());
    assert(text::views(shown@) =~= details(metadata@.take(0)));
    while i < metadata.entries.len()
        invariant
            i <= metadata.entries@.len(),
            text::views(shown@) == details(metadata@.take(i as int)),
        decreases metadata.entries@.len() - i,
    {
        let ghost upto = metadata@.take(i as int + 1);
        assert(upto.drop_last() =~= metadata@.take(i as int));
        let entry = &metadata.entries[i];
        assert(upto.last() == (entry.0@, entry.1@));
        assert(text::views(shown@).len() == shown@.len());
        let key = entry.0.as_str();
        if shown.len() < 2 && !text::same(key, "preview") && !text::same(key, "fingerprint")
            && !text::same(key, "role") {
            let mut line = entry.0.clone();
            line.append("=");
            line.append(entry.1.as_str());
            proof {
                text::lemma_views_push(shown@, line);
            }
            shown.push(line);
        }
        i = i + 1;
    }
    assert(metadata@.take(metadata@.len() as int) =~= metadata@);
    shown
}

/// How a pointer is cited.
pub fn citation(pointer: &MemoryPointer) -> (r: String)
    requires
        pointer.wf(),
    ensures
        r@ == citation_text(pointer@),
{
    let source: &str = match &pointer.source_tool {
        Some(tool) => tool.as_str(),
        None => match pointer.metadata.get("role") {
            Some(role) => role.as_str(),
            None => pointer.kind.citation_label(),
        },
    };
    let shown = details_of(&pointer.metadata);
    assert(text::views(shown@).len() == shown@.len());
    let mut detail = String::new();
    if shown.len() > 0 {
        detail = ", ".to_owned();
        let joined = text::join_of(&shown, ", ");
        detail.append(joined.as_str());
    }
    let pinned = if pointer.pinned {
        ", pinned".to_owned()
    } else {
        String::new()
    };
    let tokens = number::compact_number(pointer.token_estimate);
    let mut r = "[".to_owned();
    r.append(pointer.kind.citation_label());
    r.append("] ");
    r.append(source);
    r.append(" → ");
    r.append(pointer.id.as_str());
    r.append(" (~");
    r.append(tokens.as_str());
    r.append(" tokens");
    r.append(detail.as_str());
    r.append(pinned.as_str());
    r.append("; recall available)");
    r
}

/// `s` on one line, cut after `max_chars` characters with an ellipsis.
pub open spec fn preview(s: Seq<char>, max_chars: nat) -> Seq<char> {
    if s.len() > max_chars {
        text::one_line(s).take(max_chars as int).push('…')
    } else {
        text::one_line(s)
    }
}

pub fn one_line_preview(content: &str, max_chars: usize) -> (r: String)
    ensures
        r@ == preview(content@, max_chars as nat),
{
    let line = text::one_line_of(content);
    let count: usize = text::char_count(line.as_str());
    if count > max_chars {
        let mut cut = text::substring(line.as_str(), 0, max_chars);
        cut.push('…');
        assert(cut@ =~= preview(content@, max_chars as nat));
        cut
    } else {
        line
    }
}

/// Leading part of an observation, for pairing with a citation.
pub open spec fn excerpt(content: Seq<char>, max_tokens: nat) -> Option<Seq<char>> {
    let body = text::trim_start(content);
    let end = message::min_nat(max_tokens, message::token_count(body));
    let head = text::trim_end(message::token_slice(body, 0, end));
    if body.len() == 0 || head.len() == 0 {
        None
    } else {
        Some(
            "[head ~"@ + text::decimal(end) + " tokens; recall the ID above for the rest]\n"@
                + head,
        )
    }
}

/// Leading slice of an observation, for pairing with a citation. Returns
/// `None` when there is nothing worth showing, so the caller emits a bare
/// citation rather than an empty header.
pub fn head_excerpt(content: &str, max_tokens: usize) -> (r: Option<String>)
    ensures
        text::opt(r) == excerpt(content@, max_tokens as nat),
{
    let body = text::trim_start_of(content);
    if body.as_str().is_empty() {
        return None;
    }
    let window = message::token_window(body.as_str(), 0, max_tokens);
    let head = text::trim_end_of(window.content.as_str());
    if head.as_str().is_empty() {
        return None;
    }
    let mut r = "[head ~".to_owned();
    let end = text::decimal_of(window.end as u64);
    r.append(end.as_str());
    r.append(" tokens; recall the ID above for the rest]\n");
    r.append(head.as_str());
    Some(r)
}

/// Importance drives automatic pinning, which spends a scarce manifest slot
/// and exempts the record from retention. Failures earn that: they are what
/// later turns come back to. A successful `write` or `edit` does not: the
/// change is already on disk, the confirmation is a few words long, and
/// pinning every one of them fills the pin budget with records nobody recalls.
pub open spec fn importance_of(tool: Seq<char>, content: Seq<char>) -> u8 {
    if text::starts_with(content, "tool error:"@) {
        90
    } else if tool == "write"@ || tool == "edit"@ {
        75
    } else if tool == "read"@ {
        70
    } else {
        60
    }
}

pub fn tool_importance(tool: &str, content: &str) -> (r: u8)
    ensures
        r == importance_of(tool@, content@),
{
    if text::starts_with_of(content, "tool error:") {
        90
    } else if text::same(tool, "write") || text::same(tool, "edit") {
        75
    } else if text::same(tool, "read") {
        70
    } else {
        60
    }
}

pub open spec fn missing_message(id: Seq<char>) -> Seq<char> {
    "memory ID "@ + text::debug_quoted(id)
        + " does not exist in the active session; do not infer or invent its contents"@
}

pub fn missing_id_error(id: &str) -> (r: String)
    ensures
        r@ == missing_message(id@),
{
    let mut r = "memory ID ".to_owned();
    let quoted = text::debug_text(id);
    r.append(quoted.as_str());
    r.append(" does not exist in the active session; do not infer or invent its contents");
    r
}

/// `metadata` with the argument `key`, where it is a text, as a preview.
pub open spec fn with_argument(
    metadata: Seq<(Seq<char>, Seq<char>)>,
    arguments: JsonView,
    key: Seq<char>,
) -> Seq<(Seq<char>, Seq<char>)> {
    match arguments.need_text(key) {
        Some(value) => textmap::inserted(metadata, key, preview(value, 120)),
        None => metadata,
    }
}

/// What is remembered of the arguments of a tool call.
pub open spec fn argument_metadata(arguments: JsonView) -> Seq<(Seq<char>, Seq<char>)> {
    let path = with_argument(Seq::empty(), arguments, "path"@);
    let pattern = with_argument(path, arguments, "pattern"@);
    let file_glob = with_argument(pattern, arguments, "file_glob"@);
    with_argument(file_glob, arguments, "command"@)
}

fn add_argument(metadata: &mut TextMap<String>, arguments: &Json, key: &str)
    requires
        old(metadata).wf(),
    ensures
        final(metadata).wf(),
        final(metadata)@ == with_argument(old(metadata)@, arguments@, key@),
{
    match arguments.get_str(key) {
        Some(value) => {
            metadata.insert(key.to_owned(), one_line_preview(value, 120));
        },
        None => {},
    }
}

pub fn tool_metadata(arguments: &Json) -> (r: TextMap<String>)
    ensures
        r.wf(),
        r@ == argument_metadata(arguments@),
{
    let mut metadata: TextMap<String> = TextMap::new();
    add_argument(&mut metadata, arguments, "path");
    add_argument(&mut metadata, arguments, "pattern");
    add_argument(&mut metadata, arguments, "file_glob");
    add_argument(&mut metadata, arguments, "command");
    metadata
}

// ---------------------------------------------------------------------------
// Filters
// ---------------------------------------------------------------------------

/// One condition on a pointer: a text to find anywhere, or a field to match.
#[derive(Debug, PartialEq, Eq)]
pub enum PointerFilter {
    Text(String),
    Field { key: String, value: String },
}

/// What a [`PointerFilter`] holds.
pub enum FilterView {
    Text(Seq<char>),
    Field { key: Seq<char>, value: Seq<char> },
}

impl View for PointerFilter {
    type V = FilterView;

    open spec fn view(&self) -> FilterView {
        match *self {
            PointerFilter::Text(value) => FilterView::Text(value@),
            PointerFilter::Field { key, value } => FilterView::Field { key: key@, value: value@ },
        }
    }
}

/// A field that filters can name and that is matched against metadata.
pub open spec fn is_metadata_field(key: Seq<char>) -> bool {
    key == "role"@ || key == "path"@ || key == "pattern"@ || key == "file_glob"@ || key
        == "command"@
}

pub open spec fn is_filter_field(key: Seq<char>) -> bool {
    key == "id"@ || key == "kind"@ || key == "tool"@ || key == "pinned"@ || is_metadata_field(key)
}

pub open spec fn filter_wf(filter: FilterView) -> bool {
    filter matches FilterView::Field { key, .. } ==> is_filter_field(key)
}

/// The filter that one term denotes, or why it denotes none.
pub open spec fn filter_of(term: Seq<char>) -> Result<FilterView, Seq<char>> {
    match text::find(term, "="@) {
        None => Ok(FilterView::Text(text::ascii_lowercase(term))),
        Some(at) => {
            let key = text::ascii_lowercase(term.take(at));
            let value = text::ascii_lowercase(term.skip(at + 1));
            if !is_filter_field(key) {
                Err(
                    "unsupported pointer filter field "@ + text::debug_quoted(key)
                        + "; use id, kind, tool, role, path, pattern, file_glob, command, or pinned"@,
                )
            } else if value.len() == 0 {
                Err("pointer filter field "@ + text::debug_quoted(key) + " requires a value"@)
            } else if key == "pinned"@ && value != "true"@ && value != "false"@ {
                Err("pointer filter pinned must be true or false"@)
            } else {
                Ok(FilterView::Field { key, value })
            }
        },
    }
}

/// The filters of all terms, or the complaint on the first term that denotes
/// none.
pub open spec fn filters_of(terms: Seq<Seq<char>>) -> Result<Seq<FilterView>, Seq<char>>
    decreases terms.len(),
{
    if terms.len() == 0 {
        Ok(Seq::empty())
    } else {
        match filters_of(terms.drop_last()) {
            Err(message) => Err(message),
            Ok(filters) => match filter_of(terms.last()) {
                Ok(filter) => Ok(filters.push(filter)),
                Err(message) => Err(message),
            },
        }
    }
}

fn is_metadata_field_of(key: &str) -> (r: bool)
    ensures
        r == is_metadata_field(key@),
{
    text::same(key, "role") || text::same(key, "path") || text::same(key, "pattern") || text::same(
        key,
        "file_glob",
    ) || text::same(key, "command")
}

fn is_filter_field_of(key: &str) -> (r: bool)
    ensures
        r == is_filter_field(key@),
{
    text::same(key, "id") || text::same(key, "kind") || text::same(key, "tool") || text::same(
        key,
        "pinned",
    ) || is_metadata_field_of(key)
}

fn filter_from(term: &str) -> (r: Result<PointerFilter, String>)
    ensures
        text::res(r) == filter_of(term@),
        r matches Ok(filter) ==> filter_wf(filter@),
{
    let at: usize = match text::find_of(term, "=") {
        None => {
            return Ok(PointerFilter::Text(text::ascii_lowercase_of(term)));
        },
        Some(at) => at,
    };
    proof {
        reveal_strlit("=");
    }
    let count: usize = text::char_count(term);
    let raw_key = text::substring(term, 0, at);
    let raw_value = text::substring(term, at + 1, count);
    assert(term@.take(at as int) =~= raw_key@);
    assert(term@.skip(at + 1) =~= raw_value@);
    let key = text::ascii_lowercase_of(raw_key.as_str());
    let value = text::ascii_lowercase_of(raw_value.as_str());
    if !is_filter_field_of(key.as_str()) {
        let mut message = "unsupported pointer filter field ".to_owned();
        let quoted = text::debug_text(key.as_str());
        message.append(quoted.as_str());
        message.append("; use id, kind, tool, role, path, pattern, file_glob, command, or pinned");
        return Err(message);
    }
    if value.as_str().is_empty() {
        let mut message = "pointer filter field ".to_owned();
        let quoted = text::debug_text(key.as_str());
        message.append(quoted.as_str());
        message.append(" requires a value");
        return Err(message);
    }
    if text::same(key.as_str(), "pinned") && !text::same(value.as_str(), "true") && !text::same(
        value.as_str(),
        "false",
    ) {
        return Err("pointer filter pinned must be true or false".to_owned());
    }
    Ok(PointerFilter::Field { key, value })
}

/// The model of a list of filters or a complaint.
pub open spec fn filters_view(r: Result<Vec<PointerFilter>, String>) -> Result<
    Seq<FilterView>,
    Seq<char>,
> {
    match r {
        Ok(filters) => Ok(text::views(filters@)),
        Err(message) => Err(message@),
    }
}

proof fn lemma_filters_of_err(terms: Seq<Seq<char>>, n: int)
    requires
        0 <= n <= terms.len(),
        filters_of(terms.take(n)) is Err,
    ensures
        filters_of(terms) == filters_of(terms.take(n)),
    decreases terms.len() - n,
{
    if n == terms.len() {
        assert(terms.take(n) =~= terms);
    } else {
        assert(terms.take(n + 1).drop_last() =~= terms.take(n));
        lemma_filters_of_err(terms, n + 1);
    }
}

/// The filters that the words of `filter` denote.
pub fn parse_pointer_filters(filter: &str) -> (r: Result<Vec<PointerFilter>, String>)
    ensures
        filters_view(r) == filters_of(text::words(filter@)),
        r matches Ok(filters) ==> forall|i: int|
            0 <= i < filters@.len() ==> filter_wf((#[trigger] filters@[i])@),
{
    let terms = text::words_of(filter);
    let ghost model = text::words(filter@);
    let mut filters: Vec<PointerFilter> = Vec::new();
    let mut i: usize = 0;
    assert(model.take(0) =~= Seq::<Seq<char>>::empty());
    assert(text::views(filters@) =~= Seq::<FilterView>::empty());
    while i < terms.len()
        invariant
            i <= terms@.len(),
            text::views(terms@) == model,
            filters_of(model.take(i as int)) == Ok::<Seq<FilterView>, Seq<char>>(
                text::views(filters@),
            ),
            forall|j: int| 0 <= j < filters@.len() ==> filter_wf((#[trigger] filters@[j])@),
            model == text::words(filter@),
        decreases terms@.len() - i,
    {
        let ghost upto = model.take(i as int + 1);
        assert(upto.drop_last() =~= model.take(i as int));
        assert(upto.last() == terms@[i as int]@);
        match filter_from(terms[i].as_str()) {
            Ok(parsed) => {
                proof {
                    text::lemma_views_push(filters@, parsed);
                }
                filters.push(parsed);
            },
            Err(message) => {
                proof {
                    lemma_filters_of_err(model, i as int + 1);
                }
                return Err(message);
            },
        }
        i = i + 1;
    }
    assert(model.take(model.len() as int) =~= model);
    Ok(filters)
}

/// `value` stands in `candidate`, whatever the case of ASCII letters.
pub open spec fn contains_ignoring_case(candidate: Seq<char>, value: Seq<char>) -> bool {
    text::contains(text::ascii_lowercase(candidate), text::ascii_lowercase(value))
}

pub fn contains_case_insensitive(candidate: &str, value: &str) -> (r: bool)
    ensures
        r == contains_ignoring_case(candidate@, value@),
{
    let a = text::ascii_lowercase_of(candidate);
    let b = text::ascii_lowercase_of(value);
    text::contains_of(a.as_str(), b.as_str())
}

pub open spec fn same_ignoring_case(a: Seq<char>, b: Seq<char>) -> bool {
    text::ascii_lowercase(a) == text::ascii_lowercase(b)
}

fn same_ignoring_case_of(a: &str, b: &str) -> (r: bool)
    ensures
        r == same_ignoring_case(a@, b@),
{
    let x = text::ascii_lowercase_of(a);
    let y = text::ascii_lowercase_of(b);
    text::same(x.as_str(), y.as_str())
}

/// Some metadata value contains `value`.
pub open spec fn metadata_contains(metadata: Seq<(Seq<char>, Seq<char>)>, value: Seq<char>) -> bool {
    exists|i: int|
        0 <= i < metadata.len() && contains_ignoring_case((#[trigger] metadata[i]).1, value)
}

/// A pointer meets a filter by what is known of it without its content.
pub open spec fn filter_matches(p: PointerView, filter: FilterView) -> bool {
    match filter {
        FilterView::Text(value) => {
            ||| contains_ignoring_case(citation_text(p), value)
            ||| p.source_tool matches Some(tool) && contains_ignoring_case(tool, value)
            ||| metadata_contains(p.metadata, value)
        },
        FilterView::Field { key, value } => if key == "id"@ {
            contains_ignoring_case(p.id, value)
        } else if key == "kind"@ {
            same_ignoring_case(record::kind_name(p.kind), value)
        } else if key == "tool"@ {
            p.source_tool matches Some(tool) && same_ignoring_case(tool, value)
        } else if key == "pinned"@ {
            p.pinned == (value == "true"@)
        } else {
            textmap::lookup(p.metadata, key) matches Some(candidate) && contains_ignoring_case(
                candidate,
                value,
            )
        },
    }
}

fn metadata_contains_of(metadata: &TextMap<String>, value: &str) -> (r: bool)
    ensures
        r == metadata_contains(metadata@, value@),
{
    let mut i: usize = 0;
    while i < metadata.entries.len()
        invariant
            i <= metadata.entries@.len(),
            forall|j: int|
                0 <= j < i ==> !contains_ignoring_case((#[trigger] metadata@[j]).1, value@),
        decreases metadata.entries@.len() - i,
    {
        assert(metadata@[i as int].1 == metadata.entries@[i as int].1@);
        if contains_case_insensitive(metadata.entries[i].1.as_str(), value) {
            return true;
        }
        i = i + 1;
    }
    false
}

/// Whether a pointer meets a filter by what is known of it without its
/// content.
pub fn pointer_matches_filter(pointer: &MemoryPointer, filter: &PointerFilter) -> (r: bool)
    requires
        pointer.wf(),
        filter_wf(filter@),
    ensures
        r == filter_matches(pointer@, filter@),
{
    match filter {
        PointerFilter::Text(value) => {
            let cited = citation(pointer);
            if contains_case_insensitive(cited.as_str(), value.as_str()) {
                return true;
            }
            match &pointer.source_tool {
                Some(tool) => {
                    if contains_case_insensitive(tool.as_str(), value.as_str()) {
                        return true;
                    }
                },
                None => {},
            }
            metadata_contains_of(&pointer.metadata, value.as_str())
        },
        PointerFilter::Field { key, value } => {
            let name = key.as_str();
            if text::same(name, "id") {
                contains_case_insensitive(pointer.id.as_str(), value.as_str())
            } else if text::same(name, "kind") {
                same_ignoring_case_of(pointer.kind.filter_name(), value.as_str())
            } else if text::same(name, "tool") {
                match &pointer.source_tool {
                    Some(tool) => same_ignoring_case_of(tool.as_str(), value.as_str()),
                    None => false,
                }
            } else if text::same(name, "pinned") {
                pointer.pinned == text::same(value.as_str(), "true")
            } else {
                match pointer.metadata.get(name) {
                    Some(candidate) => contains_case_insensitive(
                        candidate.as_str(),
                        value.as_str(),
                    ),
                    None => false,
                }
            }
        },
    }
}

// ---------------------------------------------------------------------------
// Manifests
// ---------------------------------------------------------------------------

/// The last `limit` of some pointers, or all of them.
pub open spec fn newest(pointers: Seq<PointerView>, limit: nat) -> Seq<PointerView> {
    if pointers.len() > limit {
        pointers.skip(pointers.len() - limit)
    } else {
        pointers
    }
}

/// Trims a pointer list to its newest `limit` entries. Records are appended in
/// time order, so the tail is the newest.
pub fn keep_newest(pointers: &mut Vec<MemoryPointer>, limit: usize)
    ensures
        text::views(final(pointers)@) == newest(text::views(old(pointers)@), limit as nat),
        final(pointers)@ == if old(pointers)@.len() > limit {
            old(pointers)@.skip(old(pointers)@.len() - limit)
        } else {
            old(pointers)@
        },
{
    let ghost before = pointers@;
    let count: usize = pointers.len();
    if count > limit {
        let tail = pointers.split_off(count - limit);
        *pointers = tail;
        assert(pointers@ =~= before.skip(before.len() - limit));
        assert(text::views(pointers@) =~= newest(text::views(before), limit as nat));
    }
}

/// The pointers that a manifest lists: the pinned ones, then the recent ones.
/// The recent ones have at least half of the places, as far as there are so
/// many of them.
pub open spec fn manifest(
    pinned: Seq<PointerView>,
    recent: Seq<PointerView>,
    limit: nat,
) -> Seq<PointerView> {
    let reserved = message::min_nat(limit / 2, recent.len());
    let kept = newest(pinned, (limit - reserved) as nat);
    kept + newest(recent, (limit - kept.len()) as nat)
}

/// A manifest never exceeds its limit, and pinned records never take more
/// than the half of it that recent pointers could use.
pub proof fn law_manifest_reserves_half(
    pinned: Seq<PointerView>,
    recent: Seq<PointerView>,
    limit: nat,
)
    ensures
        manifest(pinned, recent, limit).len() <= limit,
        ({
            let shown = message::min_nat(limit / 2, recent.len());
            let list = manifest(pinned, recent, limit);
            &&& list.len() >= shown
            &&& list.skip(list.len() - shown) == recent.skip(recent.len() - shown)
        }),
{
    let shown = message::min_nat(limit / 2, recent.len());
    let list = manifest(pinned, recent, limit);
    let kept = newest(pinned, (limit - shown) as nat);
    let tail = newest(recent, (limit - kept.len()) as nat);
    assert(tail.len() >= shown);
    assert(list.skip(list.len() - shown) =~= recent.skip(recent.len() - shown));
}

/// The citations of a list of pointers.
pub open spec fn citations(pointers: Seq<PointerView>) -> Seq<Seq<char>> {
    pointers.map_values(|p: PointerView| citation_text(p))
}

pub fn citations_of(pointers: &Vec<MemoryPointer>) -> (r: Vec<String>)
    requires
        forall|i: int| 0 <= i < pointers@.len() ==> (#[trigger] pointers@[i]).wf(),
    ensures
        text::views(r@) == citations(text::views(pointers@)),
{
    let mut r: Vec<String> = Vec::new();
    let mut i: usize = 0;
    let ghost goal = citations(text::views(pointers@));
    while i < pointers.len()
        invariant
            i <= pointers@.len(),
            forall|i: int| 0 <= i < pointers@.len() ==> (#[trigger] pointers@[i]).wf(),
            goal == citations(text::views(pointers@)),
            text::views(r@) == goal.take(i as int),
        decreases pointers@.len() - i,
    {
        let line = citation(&pointers[i]);
        proof {
            text::lemma_views_push(r@, line);
        }
        r.push(line);
        i = i + 1;
        assert(text::views(r@) =~= goal.take(i as int));
    }
    assert(goal.take(pointers@.len() as int) =~= goal);
    r
}

/// A citation names its record: the ID can be taken out of it again, and what
/// follows it says that it can be recalled.
pub proof fn law_citation_names_the_record(p: PointerView)
    requires
        ids::valid_id(p.id),
    ensures
        ids::ids_in(citation_text(p)).contains(p.id),
{
    let cited = citation_text(p);
    let before = "["@ + record::kind_label(p.kind) + "] "@ + source_of(p) + " → "@;
    let after = cited.skip((before + p.id).len() as int);
    reveal_strlit(" (~");
    assert(cited =~= before + p.id + after);
    assert(after[0] == ' ');
    ids::law_every_id_is_extracted(before, p.id, after);
}

/// Every term of a filter counts: there is a filter for each, in their order,
/// unless one of them is no filter.
pub proof fn law_every_term_counts(terms: Seq<Seq<char>>)
    ensures
        match filters_of(terms) {
            Ok(filters) => filters.len() == terms.len() && forall|i: int|
                0 <= i < terms.len() ==> filter_of(#[trigger] terms[i]) == Ok::<
                    FilterView,
                    Seq<char>,
                >(filters[i]),
            Err(message) => exists|i: int|
                0 <= i < terms.len() && filter_of(#[trigger] terms[i]) == Err::<
                    FilterView,
                    Seq<char>,
                >(message) && forall|j: int|
                    0 <= j < i ==> filter_of(#[trigger] terms[j]) is Ok,
        },
    decreases terms.len(),
{
    if terms.len() > 0 {
        let front = terms.drop_last();
        let last: int = terms.len() - 1;
        law_every_term_counts(front);
        assert(terms[last] == terms.last());
        match filters_of(front) {
            Err(message) => {
                let i = choose|i: int|
                    0 <= i < front.len() && filter_of(#[trigger] front[i]) == Err::<
                        FilterView,
                        Seq<char>,
                    >(message) && forall|j: int|
                        0 <= j < i ==> filter_of(#[trigger] front[j]) is Ok;
                assert(terms[i] == front[i]);
                assert forall|j: int| 0 <= j < i implies filter_of(#[trigger] terms[j]) is Ok by {
                    assert(front[j] == terms[j]);
                }
            },
            Ok(before) => {
                assert forall|j: int| 0 <= j < last implies filter_of(#[trigger] terms[j]) == Ok::<
                    FilterView,
                    Seq<char>,
                >(before[j]) by {
                    assert(front[j] == terms[j]);
                }
            },
        }
    }
}

/// A term without an equals sign is looked for as a text; one with a field and a
/// value asks for that field, whatever the case of either.
pub proof fn law_terms_are_read(term: Seq<char>, key: Seq<char>, value: Seq<char>)
    requires
        !term.contains('='),
        !key.contains('='),
        is_filter_field(text::ascii_lowercase(key)),
        text::ascii_lowercase(key) != "pinned"@,
        value.len() > 0,
    ensures
        filter_of(term) == Ok::<FilterView, Seq<char>>(
            FilterView::Text(text::ascii_lowercase(term)),
        ),
        filter_of(key + "="@ + value) == Ok::<FilterView, Seq<char>>(
            FilterView::Field {
                key: text::ascii_lowercase(key),
                value: text::ascii_lowercase(value),
            },
        ),
{
    reveal_strlit("=");
    text::law_find(term, "="@);
    if let Some(i) = text::find(term, "="@) {
        assert(term.subrange(i, i + 1)[0] == term[i]);
        assert(term.contains(term[i]));
    }
    let whole = key + "="@ + value;
    let at = key.len() as int;
    text::law_find(whole, "="@);
    assert(whole.subrange(at, at + 1) =~= "="@);
    if let Some(i) = text::find(whole, "="@) {
        if i < at {
            assert(whole.subrange(i, i + 1)[0] == whole[i]);
            assert(key.contains(key[i]));
        }
    }
    assert(whole.take(at) =~= key);
    assert(whole.skip(at + 1) =~= value);
}

/// A preview is the start of a text on one line: all of it, or as many
/// characters as are allowed and an ellipsis.
pub proof fn law_previews_are_short(s: Seq<char>, max_chars: nat)
    ensures
        preview(s, max_chars).len() <= max_chars + 1,
        s.len() <= max_chars ==> preview(s, max_chars).len() == s.len(),
        s.len() > max_chars ==> preview(s, max_chars).len() == max_chars + 1 && preview(
            s,
            max_chars,
        ).last() == '…',
        forall|i: int|
            0 <= i < s.len() && i < max_chars ==> #[trigger] preview(s, max_chars)[i] == (if s[i]
                == '\n' || s[i] == '\r' {
                ' '
            } else {
                s[i]
            }),
{
    text::law_one_line(s);
}

/// A manifest that all fit into lists all: the pinned ones and then the recent
/// ones. Whatever it lists is one of them.
pub proof fn law_manifest_lists_what_fits(
    pinned: Seq<PointerView>,
    recent: Seq<PointerView>,
    limit: nat,
    k: int,
)
    ensures
        pinned.len() + recent.len() <= limit ==> manifest(pinned, recent, limit) == pinned + recent,
        pinned.len() + recent.len() >= limit ==> manifest(pinned, recent, limit).len() == limit,
        0 <= k < manifest(pinned, recent, limit).len() ==> pinned.contains(
            manifest(pinned, recent, limit)[k],
        ) || recent.contains(manifest(pinned, recent, limit)[k]),
{
    let list = manifest(pinned, recent, limit);
    let reserved = message::min_nat(limit / 2, recent.len());
    let kept = newest(pinned, (limit - reserved) as nat);
    let rest = newest(recent, (limit - kept.len()) as nat);
    if 0 <= k < list.len() {
        if k < kept.len() {
            assert(list[k] == pinned[pinned.len() - kept.len() + k]);
        } else {
            assert(list[k] == recent[recent.len() - rest.len() + k - kept.len()]);
        }
    }
}

/// What a tool was called with is remembered: its path, its pattern, its glob
/// and its command, as far as they are texts, each on one line and cut to 120
/// characters; nothing else of its arguments is.
pub proof fn law_arguments_are_remembered(arguments: JsonView, key: Seq<char>)
    ensures
        ({
            let kept = key == "path"@ || key == "pattern"@ || key == "file_glob"@ || key
                == "command"@;
            textmap::lookup(argument_metadata(arguments), key) == match arguments.get(key) {
                Some(JsonView::Text(value)) if kept => Some(preview(value, 120)),
                _ => None,
            }
        }),
{
    let none = Seq::<(Seq<char>, Seq<char>)>::empty();
    let path = with_argument(none, arguments, "path"@);
    let pattern = with_argument(path, arguments, "pattern"@);
    let file_glob = with_argument(pattern, arguments, "file_glob"@);
    reveal_strlit("path");
    reveal_strlit("pattern");
    reveal_strlit("file_glob");
    reveal_strlit("command");
    assert("path"@.len() == 4 && "pattern"@.len() == 7 && "file_glob"@.len() == 9);
    assert("command"@.len() == 7 && "pattern"@[0] == 'p' && "command"@[0] == 'c');
    assert(textmap::sorted(none));
    lemma_with_argument(none, arguments, "path"@, key);
    lemma_with_argument(path, arguments, "pattern"@, key);
    lemma_with_argument(pattern, arguments, "file_glob"@, key);
    lemma_with_argument(file_glob, arguments, "command"@, key);
}

proof fn lemma_with_argument(
    metadata: Seq<(Seq<char>, Seq<char>)>,
    arguments: JsonView,
    name: Seq<char>,
    key: Seq<char>,
)
    requires
        textmap::sorted(metadata),
    ensures
        textmap::sorted(with_argument(metadata, arguments, name)),
        textmap::lookup(with_argument(metadata, arguments, name), key) == match arguments.get(
            name,
        ) {
            Some(JsonView::Text(value)) if key == name => Some(preview(value, 120)),
            _ => textmap::lookup(metadata, key),
        },
{
    if let Some(value) = arguments.need_text(name) {
        textmap::lemma_inserted(metadata, name, preview(value, 120));
    }
}

pub proof fn lemma_argument_metadata_sorted(arguments: JsonView)
    ensures
        textmap::sorted(argument_metadata(arguments)),
{
    let none = Seq::<(Seq<char>, Seq<char>)>::empty();
    let path = with_argument(none, arguments, "path"@);
    let pattern = with_argument(path, arguments, "pattern"@);
    let file_glob = with_argument(pattern, arguments, "file_glob"@);
    assert(textmap::sorted(none));
    lemma_with_argument(none, arguments, "path"@, "path"@);
    lemma_with_argument(path, arguments, "pattern"@, "path"@);
    lemma_with_argument(pattern, arguments, "file_glob"@, "path"@);
    lemma_with_argument(file_glob, arguments, "command"@, "path"@);
}

} // verus!
