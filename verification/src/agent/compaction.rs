//! Rule-based compaction: older turns become a bounded summary, recent turns
//! stay as they are.
use crate::agent::message;
use crate::agent::message::{Message, MessageView, ToolCallView};
use crate::memory::config::MemoryMode;
use crate::memory::ids;
use crate::memory::pointers;
use crate::memory::record::{MemoryPointer, PointerView};
use crate::memory::runtime::MemoryRuntime;
use crate::text;
use crate::textmap;
use crate::textmap::TextMap;
use vstd::prelude::*;
use vstd::string::*;

verus! {

pub const SUMMARY_ITEM_CHARS: usize = 480;

pub const POINTER_SUMMARY_ITEM_CHARS: usize = 180;

pub const SUMMARY_MAX_CHARS: usize = 12_000;

pub const TOOL_SUMMARY_EDGE_CHARS: usize = 180;

pub const ANCHOR_MAX_CHARS: usize = 4_000;

pub const PRUNE_KEEP_TOOL_RESULTS: usize = 4;

pub const PRUNE_MIN_CHARS: usize = 2_000;

/// What a compaction did.
#[derive(Debug, Clone, Copy, PartialEq, Eq)]
pub struct CompactStats {
    pub before_tokens: usize,
    pub after_tokens: usize,
    pub freed_tokens: usize,
    pub kept_turns: usize,
    pub summarized_turns: usize,
    pub summarized_tool_outputs: usize,
    pub pruned_tool_outputs: usize,
}

// ---------------------------------------------------------------------------
// Shortening
// ---------------------------------------------------------------------------

/// `s` whole, or its two edges of half of `max` characters each.
pub open spec fn middle_cut(s: Seq<char>, max: nat) -> Seq<char> {
    if s.len() <= max {
        s
    } else {
        s.take((max / 2) as int) + " … "@ + s.skip(s.len() - max / 2)
    }
}

pub fn truncate_middle(content: &str, max_chars: usize) -> (r: String)
    ensures
        r@ == middle_cut(content@, max_chars as nat),
{
    let count: usize = text::char_count(content);
    if count <= max_chars {
        return content.to_owned();
    }
    let edge: usize = max_chars / 2;
    let mut r = text::substring(content, 0, edge);
    assert(content@.take(edge as int) =~= r@);
    r.append(" … ");
    let tail = text::substring(content, count - edge, count);
    assert(content@.skip(count - edge) =~= tail@);
    r.append(tail.as_str());
    r
}

pub open spec fn anchor(s: Seq<char>) -> Seq<char> {
    middle_cut(text::trim(s), ANCHOR_MAX_CHARS as nat)
}

pub fn anchor_text(content: &str) -> (r: String)
    ensures
        r@ == anchor(content@),
{
    let trimmed = text::trim_of(content);
    truncate_middle(trimmed.as_str(), ANCHOR_MAX_CHARS)
}

pub open spec fn short(s: Seq<char>, max: nat) -> Seq<char> {
    middle_cut(text::one_line(s), max)
}

pub fn summarize_text_to(content: &str, max_chars: usize) -> (r: String)
    ensures
        r@ == short(content@, max_chars as nat),
{
    let line = text::one_line_of(content);
    truncate_middle(line.as_str(), max_chars)
}

pub fn summarize_text(content: &str) -> (r: String)
    ensures
        r@ == short(content@, SUMMARY_ITEM_CHARS as nat),
{
    summarize_text_to(content, SUMMARY_ITEM_CHARS)
}

/// A tool output on one line: whole, or its edges with a note on what is left
/// out between them.
pub open spec fn short_output(s: Seq<char>) -> Seq<char> {
    let edge = TOOL_SUMMARY_EDGE_CHARS as int;
    if s.len() <= edge * 2 {
        text::one_line(s)
    } else {
        text::one_line(s.take(edge)) + " … ["@ + text::decimal((s.len() - edge * 2) as nat)
            + " chars omitted] … "@ + text::one_line(s.skip(s.len() - edge))
    }
}

pub fn summarize_tool_output(content: &str) -> (r: String)
    ensures
        r@ == short_output(content@),
{
    let count: usize = text::char_count(content);
    if count <= TOOL_SUMMARY_EDGE_CHARS * 2 {
        return text::one_line_of(content);
    }
    let head = text::substring(content, 0, TOOL_SUMMARY_EDGE_CHARS);
    let tail = text::substring(content, count - TOOL_SUMMARY_EDGE_CHARS, count);
    assert(content@.take(TOOL_SUMMARY_EDGE_CHARS as int) =~= head@);
    assert(content@.skip(count - TOOL_SUMMARY_EDGE_CHARS) =~= tail@);
    let mut r = text::one_line_of(head.as_str());
    r.append(" … [");
    let omitted = text::decimal_of((count - TOOL_SUMMARY_EDGE_CHARS * 2) as u64);
    r.append(omitted.as_str());
    r.append(" chars omitted] … ");
    let end = text::one_line_of(tail.as_str());
    r.append(end.as_str());
    r
}

/// The characters of all lines, each counted with its line break.
pub open spec fn lines_chars(lines: Seq<Seq<char>>) -> nat
    decreases lines.len(),
{
    if lines.len() == 0 {
        0
    } else {
        lines_chars(lines.drop_last()) + lines.last().len() + 1
    }
}

/// The last lines that fit into `room` characters.
pub open spec fn fitting_tail(lines: Seq<Seq<char>>, room: nat) -> Seq<Seq<char>>
    decreases lines.len(),
{
    if lines.len() == 0 || lines.last().len() + 1 > room {
        Seq::empty()
    } else {
        fitting_tail(lines.drop_last(), (room - lines.last().len() - 1) as nat).push(lines.last())
    }
}

pub open spec fn omitted_marker() -> Seq<char> {
    "[older structured summary entries omitted; exact records remain addressable]"@
}

/// All lines, or the first one, a note, and the last ones that fit.
pub open spec fn bounded(lines: Seq<Seq<char>>) -> Seq<Seq<char>> {
    if lines_chars(lines) <= SUMMARY_MAX_CHARS || lines.len() == 0 {
        lines
    } else {
        let first = lines[0];
        let room = if first.len() + 1 <= SUMMARY_MAX_CHARS {
            (SUMMARY_MAX_CHARS - first.len() - 1) as nat
        } else {
            0
        };
        seq![first, omitted_marker()] + fitting_tail(lines.skip(1), room)
    }
}

/// The first line of a summary survives every bound on its length.
pub proof fn law_bounded_keeps_first(lines: Seq<Seq<char>>)
    requires
        lines.len() > 0,
    ensures
        bounded(lines).len() > 0,
        bounded(lines)[0] == lines[0],
{
}

proof fn lemma_lines_chars_push_front(first: Seq<char>, lines: Seq<Seq<char>>)
    ensures
        lines_chars(seq![first] + lines) == first.len() + 1 + lines_chars(lines),
    decreases lines.len(),
{
    let all = seq![first] + lines;
    if lines.len() == 0 {
        assert(all.drop_last() =~= lines);
        assert(all.last() == first);
    } else {
        assert(all.drop_last() =~= seq![first] + lines.drop_last());
        assert(all.last() == lines.last());
        lemma_lines_chars_push_front(first, lines.drop_last());
    }
}

proof fn lemma_fitting_tail_chars(lines: Seq<Seq<char>>, room: nat)
    ensures
        lines_chars(fitting_tail(lines, room)) <= room,
    decreases lines.len(),
{
    if lines.len() > 0 && lines.last().len() + 1 <= room {
        let less = (room - lines.last().len() - 1) as nat;
        lemma_fitting_tail_chars(lines.drop_last(), less);
        let rest = fitting_tail(lines.drop_last(), less);
        assert(fitting_tail(lines, room).drop_last() =~= rest);
    }
}

/// A summary is bounded: with a first line that fits, all of it takes no more
/// than the limit and the note on what was left out.
pub proof fn law_bounded_fits(lines: Seq<Seq<char>>)
    requires
        lines.len() > 0,
        lines[0].len() + 1 <= SUMMARY_MAX_CHARS,
    ensures
        lines_chars(bounded(lines)) <= SUMMARY_MAX_CHARS + omitted_marker().len() + 1,
{
    if lines_chars(lines) > SUMMARY_MAX_CHARS {
        let room = (SUMMARY_MAX_CHARS - lines[0].len() - 1) as nat;
        let tail = fitting_tail(lines.skip(1), room);
        lemma_fitting_tail_chars(lines.skip(1), room);
        lemma_lines_chars_push_front(omitted_marker(), tail);
        lemma_lines_chars_push_front(lines[0], seq![omitted_marker()] + tail);
        assert(bounded(lines) =~= seq![lines[0]] + (seq![omitted_marker()] + tail));
    }
}

pub fn bounded_summary_lines(lines: Vec<String>) -> (r: Vec<String>)
    ensures
        text::views(r@) == bounded(text::views(lines@)),
{
    let ghost model = text::views(lines@);
    let mut total: usize = 0;
    let mut i: usize = 0;
    assert(model.take(0) =~= Seq::<Seq<char>>::empty());
    while i < lines.len()
        invariant
            i <= lines@.len(),
            model == text::views(lines@),
            total as nat == lines_chars(model.take(i as int)) || (total == usize::MAX
                && lines_chars(model.take(i as int)) >= usize::MAX),
        decreases lines@.len() - i,
    {
        assert(model.take(i as int + 1).drop_last() =~= model.take(i as int));
        assert(model.take(i as int + 1).last() == lines@[i as int]@);
        total = total.saturating_add(text::char_count(lines[i].as_str())).saturating_add(1);
        i = i + 1;
    }
    assert(model.take(model.len() as int) =~= model);
    if total <= SUMMARY_MAX_CHARS || lines.len() == 0 {
        return lines;
    }
    let first = lines[0].clone();
    let first_chars: usize = text::char_count(first.as_str());
    let room: usize = if first_chars < SUMMARY_MAX_CHARS {
        SUMMARY_MAX_CHARS - first_chars - 1
    } else {
        0
    };
    let ghost rest = model.skip(1);
    let mut left: usize = room;
    let mut n: usize = lines.len();
    assert(rest.take(n - 1) =~= rest);
    let ghost tail = fitting_tail(rest, room as nat);
    assert(tail =~= fitting_tail(rest.take(n - 1), left as nat) + rest.skip(n - 1));
    while n > 1
        invariant_except_break
            1 <= n <= lines@.len(),
            tail == fitting_tail(rest.take(n - 1), left as nat) + rest.skip(n - 1),
        invariant
            model == text::views(lines@),
            rest == model.skip(1),
        ensures
            1 <= n <= lines@.len(),
            tail == rest.skip(n - 1),
        decreases n,
    {
        let line = &lines[n - 1];
        assert(rest.take(n - 1).last() == line@);
        assert(rest.take(n - 1).drop_last() =~= rest.take(n - 2));
        let chars: usize = text::char_count(line.as_str());
        if chars >= left {
            assert(fitting_tail(rest.take(n - 1), left as nat) =~= Seq::<Seq<char>>::empty());
            assert(tail =~= rest.skip(n - 1));
            break;
        }
        let ghost held = fitting_tail(rest.take(n - 1), left as nat);
        left = left - chars - 1;
        assert(held == fitting_tail(rest.take(n - 2), left as nat).push(line@));
        assert(held + rest.skip(n - 1) =~= fitting_tail(rest.take(n - 2), left as nat) + rest.skip(
            n - 2,
        ));
        n = n - 1;
        if n == 1 {
            assert(rest.take(0) =~= Seq::<Seq<char>>::empty());
            assert(tail =~= rest.skip(0));
        }
    }
    let mut r: Vec<String> = Vec::new();
    r.push(first);
    r.push(
        "[older structured summary entries omitted; exact records remain addressable]".to_owned(),
    );
    let ghost head = text::views(r@);
    assert(head =~= seq![model[0], omitted_marker()]);
    let mut j: usize = n;
    assert(head + rest.skip(n - 1).take(0) =~= head);
    while j < lines.len()
        invariant
            1 <= n <= j <= lines@.len(),
            model == text::views(lines@),
            rest == model.skip(1),
            text::views(r@) == head + rest.skip(n - 1).take(j - n),
        decreases lines@.len() - j,
    {
        let line = lines[j].clone();
        proof {
            text::lemma_views_push(r@, line);
        }
        r.push(line);
        assert(rest.skip(n - 1)[j - n] == line@);
        j = j + 1;
        assert(text::views(r@) =~= head + rest.skip(n - 1).take(j - n));
    }
    assert(rest.skip(n - 1).take(lines@.len() - n) =~= rest.skip(n - 1));
    r
}

// ---------------------------------------------------------------------------
// History
// ---------------------------------------------------------------------------

/// The estimated tokens of all messages.
pub open spec fn history_tokens(messages: Seq<MessageView>) -> nat
    decreases messages.len(),
{
    if messages.len() == 0 {
        0
    } else {
        history_tokens(messages.drop_last()) + messages.last().tokens()
    }
}

/// The estimated tokens of the messages from number `from` on.
pub fn context_tokens_from(messages: &Vec<Message>, from: usize) -> (r: usize)
    requires
        from <= messages@.len(),
    ensures
        r == message::saturated(history_tokens(text::views(messages@).skip(from as int))),
{
    let ghost model = text::views(messages@).skip(from as int);
    let mut total: usize = 0;
    let mut i: usize = from;
    assert(model.take(0) =~= Seq::<MessageView>::empty());
    while i < messages.len()
        invariant
            from <= i <= messages@.len(),
            model == text::views(messages@).skip(from as int),
            total == message::saturated(history_tokens(model.take(i - from))),
        decreases messages@.len() - i,
    {
        assert(model.take(i - from + 1).drop_last() =~= model.take(i - from));
        assert(model.take(i - from + 1).last() == messages@[i as int]@);
        total = total.saturating_add(messages[i].token_estimate());
        i = i + 1;
    }
    assert(model.take(model.len() as int) =~= model);
    total
}

/// The estimated tokens of all messages.
pub fn context_tokens(messages: &Vec<Message>) -> (r: usize)
    ensures
        r == message::saturated(history_tokens(text::views(messages@))),
{
    assert(text::views(messages@).skip(0) =~= text::views(messages@));
    context_tokens_from(messages, 0)
}

/// Where the user messages stand.
pub open spec fn user_positions(messages: Seq<MessageView>) -> Seq<nat>
    decreases messages.len(),
{
    if messages.len() == 0 {
        Seq::empty()
    } else {
        let rest = user_positions(messages.drop_last());
        if messages.last() is User {
            rest.push((messages.len() - 1) as nat)
        } else {
            rest
        }
    }
}

/// Positions that rise, lie in the history and hold user messages.
pub open spec fn are_user_positions(positions: Seq<nat>, messages: Seq<MessageView>) -> bool {
    &&& forall|i: int|
        0 <= i < positions.len() ==> (#[trigger] positions[i]) < messages.len()
            && messages[positions[i] as int] is User
    &&& forall|i: int, j: int| 0 <= i < j < positions.len() ==> positions[i] < positions[j]
}

pub proof fn lemma_user_positions(messages: Seq<MessageView>)
    ensures
        are_user_positions(user_positions(messages), messages),
    decreases messages.len(),
{
    if messages.len() > 0 {
        let shorter = messages.drop_last();
        lemma_user_positions(shorter);
        let rest = user_positions(shorter);
        assert forall|i: int| 0 <= i < rest.len() implies messages[rest[i] as int] is User
            && rest[i] < messages.len() - 1 by {
            assert(shorter[rest[i] as int] == messages[rest[i] as int]);
        }
    }
}

pub open spec fn as_nats(positions: Seq<usize>) -> Seq<nat> {
    Seq::new(positions.len(), |i: int| positions[i] as nat)
}

/// Where the user messages stand.
pub fn user_indices(messages: &Vec<Message>) -> (r: Vec<usize>)
    ensures
        as_nats(r@) == user_positions(text::views(messages@)),
{
    let ghost model = text::views(messages@);
    let mut r: Vec<usize> = Vec::new();
    let mut i: usize = 0;
    assert(model.take(0) =~= Seq::<MessageView>::empty());
    assert(as_nats(r@) =~= user_positions(model.take(0)));
    while i < messages.len()
        invariant
            i <= messages@.len(),
            model == text::views(messages@),
            as_nats(r@) == user_positions(model.take(i as int)),
        decreases messages@.len() - i,
    {
        assert(model.take(i as int + 1).drop_last() =~= model.take(i as int));
        assert(model.take(i as int + 1).last() == messages@[i as int]@);
        match &messages[i] {
            Message::User { .. } => {
                let ghost held = as_nats(r@);
                r.push(i);
                assert(as_nats(r@) =~= held.push(i as nat));
            },
            _ => {},
        }
        i = i + 1;
    }
    assert(model.take(model.len() as int) =~= model);
    r
}

// ---------------------------------------------------------------------------
// Summary
// ---------------------------------------------------------------------------

pub open spec fn summary_mark() -> Seq<char> {
    "[Compacted earlier conversation:"@
}

pub open spec fn is_summary(content: Seq<char>) -> bool {
    text::starts_with(content, summary_mark())
}

/// The second message is a summary of an earlier compaction.
pub open spec fn has_summary(messages: Seq<MessageView>) -> bool {
    messages.len() > 1 && (messages[1] matches MessageView::System { content } && is_summary(
        content,
    ))
}

/// `s` up to the first `mark`, or all of it.
pub open spec fn before_mark(s: Seq<char>, mark: Seq<char>) -> Seq<char> {
    match text::find(s, mark) {
        Some(i) => s.take(i),
        None => s,
    }
}

/// `s` behind the first `mark`, or all of it.
pub open spec fn after_mark(s: Seq<char>, mark: Seq<char>) -> Seq<char> {
    match text::find(s, mark) {
        Some(i) => s.skip(i + mark.len()),
        None => s,
    }
}

fn before_mark_of(s: &str, mark: &str) -> (r: String)
    ensures
        r@ == before_mark(s@, mark@),
{
    match text::find_of(s, mark) {
        Some(i) => {
            assert(s@.subrange(0, i as int) =~= s@.take(i as int));
            text::substring(s, 0, i)
        },
        None => s.to_owned(),
    }
}

fn after_mark_of(s: &str, mark: &str) -> (r: String)
    ensures
        r@ == after_mark(s@, mark@),
{
    match text::find_of(s, mark) {
        Some(i) => {
            let count: usize = text::char_count(s);
            let width: usize = text::char_count(mark);
            assert(s@.subrange(i + width, count as int) =~= s@.skip(i + width));
            text::substring(s, i + width, count)
        },
        None => s.to_owned(),
    }
}

/// The lines of an earlier summary, without its head and its pointers.
pub open spec fn prior_lines(content: Seq<char>) -> Seq<Seq<char>> {
    text::lines(before_mark(after_mark(content, "\n"@), "\n[Available addressable pointers]"@))
}

/// How many turns an earlier summary stands for.
pub open spec fn prior_turns(messages: Seq<MessageView>) -> nat {
    if messages.len() > 1 && messages[1] is System {
        let content = messages[1].content();
        let head = "[Compacted earlier conversation: "@;
        if text::starts_with(content, head) {
            let rest = content.skip(head.len() as int);
            match text::find(rest, " turn(s)]"@) {
                Some(i) => match text::parse_decimal(rest.take(i), usize::MAX as nat) {
                    Some(n) => n,
                    None => 0,
                },
                None => 0,
            }
        } else {
            0
        }
    } else {
        0
    }
}

pub fn prior_summary_turns(messages: &Vec<Message>) -> (r: usize)
    ensures
        r == prior_turns(text::views(messages@)),
{
    if messages.len() <= 1 {
        return 0;
    }
    assert(text::views(messages@)[1] == messages@[1]@);
    let content = match &messages[1] {
        Message::System { content } => content,
        _ => {
            return 0;
        },
    };
    let head = "[Compacted earlier conversation: ";
    if !text::starts_with_of(content.as_str(), head) {
        return 0;
    }
    let count: usize = text::char_count(content.as_str());
    let width: usize = text::char_count(head);
    let rest = text::substring(content.as_str(), width, count);
    assert(rest@ =~= content@.skip(width as int));
    match text::find_of(rest.as_str(), " turn(s)]") {
        Some(i) => {
            let number = text::substring(rest.as_str(), 0, i);
            assert(number@ =~= rest@.take(i as int));
            match text::parse_decimal_of(number.as_str(), usize::MAX as u64) {
                Some(n) => n as usize,
                None => 0,
            }
        },
        None => 0,
    }
}

/// What a summary is made from: the mode of memory, memory itself, and the
/// pointers to which the messages were archived.
pub struct SummaryContext<'a> {
    pub memory: Option<&'a MemoryRuntime>,
    pub archived: &'a Vec<Option<MemoryPointer>>,
    pub anchor: usize,
}

impl<'a> SummaryContext<'a> {
    pub open spec fn mode(self) -> Option<MemoryMode> {
        match self.memory {
            Some(memory) => Some(memory.config.mode),
            None => None,
        }
    }

    /// Summaries cite records.
    pub open spec fn by_pointer(self) -> bool {
        self.memory matches Some(memory) && memory.config.mode != MemoryMode::Summary
    }

    /// Summaries are mere citations with a few words.
    pub open spec fn terse(self) -> bool {
        self.memory matches Some(memory) && memory.config.mode == MemoryMode::PointerPriority
    }

    /// The record to which message `index` was archived.
    pub open spec fn archived_at(self, index: int) -> Option<PointerView> {
        if 0 <= index < self.archived@.len() {
            text::opt(self.archived@[index])
        } else {
            None
        }
    }

    /// A space and the ID of the archived message, where summaries cite it.
    pub open spec fn tag(self, index: int) -> Seq<char> {
        match self.archived_at(index) {
            Some(p) => if self.by_pointer() {
                " "@ + p.id
            } else {
                Seq::empty()
            },
            None => Seq::empty(),
        }
    }

    pub open spec fn wf(self) -> bool {
        &&& self.memory matches Some(memory) ==> memory.wf()
        &&& forall|i: int|
            0 <= i < self.archived@.len() ==> ((#[trigger] self.archived@[i]) matches Some(p)
                ==> p.wf())
    }
}

/// A summary in the making.
#[verifier::ext_equal]
pub struct SummaryView {
    pub lines: Seq<Seq<char>>,
    pub pointer_ids: Seq<Seq<char>>,
    pub tool_names: Seq<(Seq<char>, Seq<char>)>,
    pub tool_outputs: nat,
}

/// A summary in the making.
pub struct Summary {
    pub lines: Vec<String>,
    pub pointer_ids: Vec<String>,
    pub tool_names: TextMap<String>,
    pub tool_outputs: usize,
}

impl View for Summary {
    type V = SummaryView;

    open spec fn view(&self) -> SummaryView {
        SummaryView {
            lines: text::views(self.lines@),
            pointer_ids: text::views(self.pointer_ids@),
            tool_names: self.tool_names@,
            tool_outputs: self.tool_outputs as nat,
        }
    }
}

impl SummaryView {
    pub open spec fn line(self, line: Seq<char>) -> SummaryView {
        SummaryView { lines: self.lines.push(line), ..self }
    }

    pub open spec fn cite(self, p: Option<PointerView>) -> SummaryView {
        match p {
            Some(p) => SummaryView { pointer_ids: self.pointer_ids.push(p.id), ..self },
            None => self,
        }
    }

    pub open spec fn tool_name(self, call_id: Seq<char>) -> Seq<char> {
        match textmap::lookup(self.tool_names, call_id) {
            Some(name) => name,
            None => "unknown"@,
        }
    }
}

/// The first of the IDs that memory knows.
pub open spec fn first_known(memory: &MemoryRuntime, list: Seq<Seq<char>>) -> Option<PointerView>
    decreases list.len(),
{
    if list.len() == 0 {
        None
    } else {
        match memory.pointer_of(list[0]) {
            Some(p) => Some(p),
            None => first_known(memory, list.skip(1)),
        }
    }
}

/// The tool calls of an assistant message: their names are remembered, and
/// each gets a line unless summaries are terse.
pub open spec fn with_calls(
    summary: SummaryView,
    calls: Seq<ToolCallView>,
    terse: bool,
) -> SummaryView
    decreases calls.len(),
{
    if calls.len() == 0 {
        summary
    } else {
        let rest = with_calls(summary, calls.drop_last(), terse);
        let call = calls.last();
        let named = SummaryView {
            tool_names: textmap::inserted(rest.tool_names, call.id, call.name),
            ..rest
        };
        if terse {
            named
        } else {
            named.line(
                "Tool call "@ + call.name + ": "@ + short(
                    call.arguments,
                    SUMMARY_ITEM_CHARS as nat,
                ),
            )
        }
    }
}

/// The pointer for a tool result: where it was archived, or else the first
/// record that it cites.
pub open spec fn output_pointer(ctx: SummaryContext, index: int, content: Seq<char>) -> Option<
    PointerView,
> {
    match ctx.archived_at(index) {
        Some(p) => Some(p),
        None => match ctx.memory {
            Some(memory) => first_known(memory, ids::ids_in(content)),
            None => None,
        },
    }
}

/// How a tool result is summarized.
pub open spec fn output_line(
    ctx: SummaryContext,
    name: Seq<char>,
    p: Option<PointerView>,
    content: Seq<char>,
) -> Seq<char> {
    if ctx.by_pointer() && p is Some {
        match ctx.memory->0.pointer_of(p->0.id) {
            Some(known) => pointers::citation_text(known),
            None => "Tool result "@ + name + ": "@ + p->0.id,
        }
    } else {
        "Tool result "@ + name + ": "@ + short_output(content)
    }
}

/// The summary with one more message in it.
pub open spec fn with_message(
    summary: SummaryView,
    ctx: SummaryContext,
    index: int,
    message: MessageView,
) -> SummaryView {
    let tag = ctx.tag(index);
    match message {
        MessageView::System { content } => if is_summary(content) {
            summary
        } else {
            summary.line("Prior context: "@ + short(content, SUMMARY_ITEM_CHARS as nat))
        },
        MessageView::User { content } => if index == ctx.anchor {
            summary
        } else {
            summary.cite(ctx.archived_at(index)).line(
                "User"@ + tag + ": "@ + short(
                    content,
                    if ctx.terse() {
                        POINTER_SUMMARY_ITEM_CHARS as nat
                    } else {
                        SUMMARY_ITEM_CHARS as nat
                    },
                ),
            )
        },
        MessageView::Assistant { content, thinking, tool_calls, .. } => {
            let cited = summary.cite(ctx.archived_at(index));
            let blank = text::trim(content).len() == 0;
            let told = if ctx.terse() {
                cited.line(
                    "Assistant"@ + tag + ": "@ + if blank {
                        "assistant tool turn"@
                    } else {
                        short(content, POINTER_SUMMARY_ITEM_CHARS as nat)
                    },
                )
            } else {
                let thought = match thinking {
                    Some(t) => if text::trim(t).len() > 0 {
                        cited.line(
                            "Assistant"@ + tag + " thinking: "@ + short(
                                t,
                                SUMMARY_ITEM_CHARS as nat,
                            ),
                        )
                    } else {
                        cited
                    },
                    None => cited,
                };
                if blank {
                    thought
                } else {
                    thought.line(
                        "Assistant"@ + tag + ": "@ + short(content, SUMMARY_ITEM_CHARS as nat),
                    )
                }
            };
            with_calls(told, tool_calls, ctx.terse())
        },
        MessageView::Tool { tool_call_id, content } => {
            let p = output_pointer(ctx, index, content);
            let counted = SummaryView { tool_outputs: summary.tool_outputs + 1, ..summary };
            let cited = if ctx.by_pointer() {
                counted.cite(p)
            } else {
                counted
            };
            cited.line(output_line(ctx, summary.tool_name(tool_call_id), p, content))
        },
    }
}

/// The summary of the messages `1..end`.
pub open spec fn with_messages(
    summary: SummaryView,
    ctx: SummaryContext,
    messages: Seq<MessageView>,
    end: nat,
) -> SummaryView
    decreases end,
{
    if end <= 1 {
        summary
    } else {
        with_message(
            with_messages(summary, ctx, messages, (end - 1) as nat),
            ctx,
            end - 1,
            messages[end - 1],
        )
    }
}

/// The summary before any message: the original request, which stays visible
/// across compactions instead of being reduced to a summary line, and the
/// lines of an earlier summary.
pub open spec fn summary_start(ctx: SummaryContext, messages: Seq<MessageView>) -> SummaryView {
    let request = messages[ctx.anchor as int].content();
    let empty = SummaryView {
        lines: Seq::empty(),
        pointer_ids: Seq::empty(),
        tool_names: Seq::empty(),
        tool_outputs: 0,
    };
    let anchored = empty.cite(ctx.archived_at(ctx.anchor as int)).line(
        "Original request"@ + ctx.tag(ctx.anchor as int) + ":\n"@ + anchor(request),
    );
    if has_summary(messages) {
        let content = messages[1].content();
        SummaryView {
            lines: anchored.lines + prior_lines(content),
            pointer_ids: anchored.pointer_ids + ids::ids_in(content),
            ..anchored
        }
    } else {
        anchored
    }
}

/// The citations, one a line.
pub open spec fn bullets(citations: Seq<Seq<char>>) -> Seq<char> {
    text::join(citations.map_values(|c: Seq<char>| "- "@ + c), "\n"@)
}

pub fn bullets_of(citations: &Vec<String>) -> (r: String)
    ensures
        r@ == bullets(text::views(citations@)),
{
    let ghost goal = text::views(citations@).map_values(|c: Seq<char>| "- "@ + c);
    let mut lines: Vec<String> = Vec::new();
    let mut i: usize = 0;
    while i < citations.len()
        invariant
            i <= citations@.len(),
            goal == text::views(citations@).map_values(|c: Seq<char>| "- "@ + c),
            text::views(lines@) == goal.take(i as int),
        decreases citations@.len() - i,
    {
        let line = text::concat("- ", citations[i].as_str());
        proof {
            text::lemma_views_push(lines@, line);
        }
        lines.push(line);
        i = i + 1;
        assert(text::views(lines@) =~= goal.take(i as int));
    }
    assert(goal.take(citations@.len() as int) =~= goal);
    text::join_of(&lines, "\n")
}

/// The text of a summary that stands for `turns` turns.
pub open spec fn summary_text(ctx: SummaryContext, summary: SummaryView, turns: nat) -> Seq<char> {
    let body = text::join(bounded(summary.lines), "\n"@);
    let cited = match ctx.memory {
        Some(memory) => if ctx.by_pointer() {
            memory.manifest_of(summary.pointer_ids, pointers::ACTIVE_POINTER_LIMIT as nat)
        } else {
            Seq::empty()
        },
        None => Seq::empty(),
    };
    "[Compacted earlier conversation: "@ + text::decimal(turns) + " turn(s)]\n"@ + if cited.len()
        == 0 {
        body
    } else {
        body + "\n[Available addressable pointers]\n"@ + bullets(cited)
    }
}

/// How many user turns a compaction keeps and how many it summarizes.
pub open spec fn turn_split(messages: Seq<MessageView>, keep_turns: nat) -> (nat, nat) {
    let users = user_positions(messages).len();
    let kept = message::min_nat(users, keep_turns);
    (kept, (users - kept) as nat)
}

/// The first message that a compaction keeps.
pub open spec fn keep_start(messages: Seq<MessageView>, keep_turns: nat) -> nat {
    user_positions(messages)[turn_split(messages, keep_turns).1 as int]
}

/// The history after a compaction: the first message, the summary of what
/// comes before the kept turns, and the kept turns.
pub open spec fn compacted(
    messages: Seq<MessageView>,
    keep_turns: nat,
    ctx: SummaryContext,
) -> Seq<MessageView> {
    let (_, summarized) = turn_split(messages, keep_turns);
    if summarized == 0 {
        messages
    } else {
        let start = keep_start(messages, keep_turns);
        let summary = with_messages(summary_start(ctx, messages), ctx, messages, start);
        let turns = message::saturated(prior_turns(messages) + summarized) as nat;
        seq![
            messages[0],
            MessageView::System { content: summary_text(ctx, summary, turns) },
        ] + messages.skip(start as int)
    }
}

/// A compaction keeps the system prompt and the last turns, message for
/// message, and puts one summary between them.
pub proof fn law_compaction_keeps_recent_turns(
    messages: Seq<MessageView>,
    keep_turns: nat,
    ctx: SummaryContext,
)
    requires
        keep_turns > 0,
        turn_split(messages, keep_turns).1 > 0,
    ensures
        ({
            let start = keep_start(messages, keep_turns) as int;
            let after = compacted(messages, keep_turns, ctx);
            &&& 0 < start < messages.len()
            &&& messages[start] is User
            &&& after.len() == 2 + messages.len() - start
            &&& after[0] == messages[0]
            &&& after[1] is System
            &&& is_summary(after[1].content())
            &&& after.skip(2) == messages.skip(start)
        }),
{
    lemma_user_positions(messages);
    let users = user_positions(messages);
    let summarized = turn_split(messages, keep_turns).1 as int;
    let start = users[summarized] as int;
    assert(users[0] < users[summarized]);
    let after = compacted(messages, keep_turns, ctx);
    assert(after.skip(2) =~= messages.skip(start));
    let content = after[1].content();
    reveal_strlit("[Compacted earlier conversation:");
    reveal_strlit("[Compacted earlier conversation: ");
    assert(content.subrange(0, summary_mark().len() as int) =~= summary_mark());
}

// ---------------------------------------------------------------------------
// Running
// ---------------------------------------------------------------------------

proof fn lemma_first_known_skip(memory: &MemoryRuntime, list: Seq<Seq<char>>, i: int)
    requires
        0 <= i <= list.len(),
        forall|j: int| 0 <= j < i ==> memory.pointer_of(#[trigger] list[j]) is None,
    ensures
        first_known(memory, list) == first_known(memory, list.skip(i)),
    decreases i,
{
    if i == 0 {
        assert(list.skip(0) =~= list);
    } else {
        assert(memory.pointer_of(list[0]) is None);
        assert forall|j: int| 0 <= j < i - 1 implies memory.pointer_of(
            #[trigger] list.skip(1)[j],
        ) is None by {
            assert(list.skip(1)[j] == list[j + 1]);
        }
        lemma_first_known_skip(memory, list.skip(1), i - 1);
        assert(list.skip(1).skip(i - 1) =~= list.skip(i));
    }
}

/// The first record cited in `content` that memory knows.
pub fn first_known_of(memory: &MemoryRuntime, content: &str) -> (r: Option<MemoryPointer>)
    requires
        memory.wf(),
    ensures
        text::opt(r) == first_known(memory, ids::ids_in(content@)),
        r matches Some(p) ==> p.wf(),
{
    let list = ids::extract_memory_ids(content);
    let ghost model = ids::ids_in(content@);
    let mut i: usize = 0;
    while i < list.len()
        invariant
            i <= list@.len(),
            memory.wf(),
            model == text::views(list@),
            model == ids::ids_in(content@),
            forall|j: int| 0 <= j < i ==> memory.pointer_of(#[trigger] model[j]) is None,
        decreases list@.len() - i,
    {
        assert(model[i as int] == list@[i as int]@);
        match memory.pointer_for_id(list[i].as_str()) {
            Some(pointer) => {
                proof {
                    lemma_first_known_skip(memory, model, i as int);
                    assert(model.skip(i as int)[0] == model[i as int]);
                }
                return Some(pointer);
            },
            None => {},
        }
        i = i + 1;
    }
    proof {
        lemma_first_known_skip(memory, model, i as int);
    }
    None
}

impl<'a> SummaryContext<'a> {
    fn is_by_pointer(&self) -> (r: bool)
        ensures
            r == self.by_pointer(),
    {
        match self.memory {
            Some(memory) => match memory.config.mode {
                MemoryMode::Summary => false,
                _ => true,
            },
            None => false,
        }
    }

    fn is_terse(&self) -> (r: bool)
        ensures
            r == self.terse(),
    {
        match self.memory {
            Some(memory) => match memory.config.mode {
                MemoryMode::PointerPriority => true,
                _ => false,
            },
            None => false,
        }
    }

    fn archived_pointer(&self, index: usize) -> (r: Option<MemoryPointer>)
        requires
            self.wf(),
        ensures
            text::opt(r) == self.archived_at(index as int),
            r matches Some(p) ==> p.wf(),
    {
        if index < self.archived.len() {
            match &self.archived[index] {
                Some(pointer) => Some(pointer.copy()),
                None => None,
            }
        } else {
            None
        }
    }

    fn tag_text(&self, index: usize) -> (r: String)
        requires
            self.wf(),
        ensures
            r@ == self.tag(index as int),
    {
        match self.archived_pointer(index) {
            Some(pointer) => if self.is_by_pointer() {
                text::concat(" ", pointer.id.as_str())
            } else {
                String::new()
            },
            None => String::new(),
        }
    }
}

impl Summary {
    pub open spec fn wf(&self) -> bool {
        self.tool_names.wf()
    }

    fn add_line(&mut self, line: String)
        requires
            old(self).wf(),
        ensures
            final(self).wf(),
            final(self)@ == old(self)@.line(line@),
            final(self).tool_outputs == old(self).tool_outputs,
    {
        proof {
            text::lemma_views_push(self.lines@, line);
        }
        self.lines.push(line);
    }

    fn add_pointer(&mut self, pointer: &Option<MemoryPointer>)
        requires
            old(self).wf(),
        ensures
            final(self).wf(),
            final(self)@ == old(self)@.cite(text::opt(*pointer)),
            final(self).tool_outputs == old(self).tool_outputs,
    {
        match pointer {
            Some(pointer) => {
                let id = pointer.id.clone();
                proof {
                    text::lemma_views_push(self.pointer_ids@, id);
                }
                self.pointer_ids.push(id);
            },
            None => {},
        }
    }

    fn add_calls(&mut self, calls: &Vec<message::ToolCall>, terse: bool)
        requires
            old(self).wf(),
        ensures
            final(self).wf(),
            final(self)@ == with_calls(old(self)@, text::views(calls@), terse),
            final(self).tool_outputs == old(self).tool_outputs,
    {
        let ghost model = text::views(calls@);
        let ghost start = self@;
        let mut i: usize = 0;
        assert(model.take(0) =~= Seq::<ToolCallView>::empty());
        while i < calls.len()
            invariant
                i <= calls@.len(),
                self.wf(),
                model == text::views(calls@),
                self@ == with_calls(start, model.take(i as int), terse),
                self.tool_outputs == old(self).tool_outputs,
            decreases calls@.len() - i,
        {
            assert(model.take(i as int + 1).drop_last() =~= model.take(i as int));
            assert(model.take(i as int + 1).last() == calls@[i as int]@);
            let call = &calls[i];
            self.tool_names.insert(call.id.clone(), call.name.clone());
            if !terse {
                let mut line = "Tool call ".to_owned();
                line.append(call.name.as_str());
                line.append(": ");
                let shown = summarize_text(call.arguments.as_str());
                line.append(shown.as_str());
                self.add_line(line);
            }
            i = i + 1;
        }
        assert(model.take(model.len() as int) =~= model);
    }

    fn name_of_tool(&self, call_id: &str) -> (r: String)
        requires
            self.wf(),
        ensures
            r@ == self@.tool_name(call_id@),
    {
        match self.tool_names.get(call_id) {
            Some(name) => name.clone(),
            None => "unknown".to_owned(),
        }
    }

    fn add_message(&mut self, ctx: &SummaryContext, index: usize, message: &Message)
        requires
            old(self).wf(),
            ctx.wf(),
            old(self).tool_outputs < usize::MAX,
        ensures
            final(self).wf(),
            final(self)@ == with_message(old(self)@, *ctx, index as int, message@),
            final(self).tool_outputs <= old(self).tool_outputs + 1,
    {
        match message {
            Message::System { content } => {
                if !text::starts_with_of(content.as_str(), "[Compacted earlier conversation:") {
                    let shown = summarize_text(content.as_str());
                    self.add_line(text::concat("Prior context: ", shown.as_str()));
                }
            },
            Message::User { content } => {
                if index != ctx.anchor {
                    let pointer = ctx.archived_pointer(index);
                    self.add_pointer(&pointer);
                    let mut line = "User".to_owned();
                    let tag = ctx.tag_text(index);
                    line.append(tag.as_str());
                    line.append(": ");
                    let most: usize = if ctx.is_terse() {
                        POINTER_SUMMARY_ITEM_CHARS
                    } else {
                        SUMMARY_ITEM_CHARS
                    };
                    let shown = summarize_text_to(content.as_str(), most);
                    line.append(shown.as_str());
                    self.add_line(line);
                }
            },
            Message::Assistant { content, thinking, tool_calls, .. } => {
                let pointer = ctx.archived_pointer(index);
                self.add_pointer(&pointer);
                let tag = ctx.tag_text(index);
                let blank = text::trim_of(content.as_str()).as_str().is_empty();
                let terse = ctx.is_terse();
                if terse {
                    let mut line = "Assistant".to_owned();
                    line.append(tag.as_str());
                    line.append(": ");
                    let shown = if blank {
                        "assistant tool turn".to_owned()
                    } else {
                        summarize_text_to(content.as_str(), POINTER_SUMMARY_ITEM_CHARS)
                    };
                    line.append(shown.as_str());
                    self.add_line(line);
                } else {
                    match thinking {
                        Some(thought) => {
                            if !text::trim_of(thought.as_str()).as_str().is_empty() {
                                let mut line = "Assistant".to_owned();
                                line.append(tag.as_str());
                                line.append(" thinking: ");
                                let shown = summarize_text(thought.as_str());
                                line.append(shown.as_str());
                                self.add_line(line);
                            }
                        },
                        None => {},
                    }
                    if !blank {
                        let mut line = "Assistant".to_owned();
                        line.append(tag.as_str());
                        line.append(": ");
                        let shown = summarize_text(content.as_str());
                        line.append(shown.as_str());
                        self.add_line(line);
                    }
                }
                self.add_calls(tool_calls, terse);
            },
            Message::Tool { tool_call_id, content } => {
                let name = self.name_of_tool(tool_call_id.as_str());
                self.tool_outputs = self.tool_outputs + 1;
                let archived = ctx.archived_pointer(index);
                let pointer: Option<MemoryPointer> = match archived {
                    Some(pointer) => Some(pointer),
                    None => match ctx.memory {
                        Some(memory) => first_known_of(memory, content.as_str()),
                        None => None,
                    },
                };
                let ghost found = text::opt(pointer);
                assert(found == output_pointer(*ctx, index as int, content@));
                let by_pointer = ctx.is_by_pointer();
                if by_pointer {
                    self.add_pointer(&pointer);
                }
                let mut line = "Tool result ".to_owned();
                line.append(name.as_str());
                line.append(": ");
                match (ctx.memory, &pointer) {
                    (Some(memory), Some(p)) => {
                        if by_pointer {
                            match memory.citation_for_id(p.id.as_str()) {
                                Some(cited) => {
                                    line = cited;
                                },
                                None => {
                                    line.append(p.id.as_str());
                                },
                            }
                        } else {
                            let shown = summarize_tool_output(content.as_str());
                            line.append(shown.as_str());
                        }
                    },
                    _ => {
                        let shown = summarize_tool_output(content.as_str());
                        line.append(shown.as_str());
                    },
                }
                assert(line@ == output_line(*ctx, name@, found, content@));
                self.add_line(line);
            },
        }
    }
}

/// Appends copies of `more` to `list`.
fn extend_texts(list: &mut Vec<String>, more: &Vec<String>)
    ensures
        text::views(final(list)@) == text::views(old(list)@) + text::views(more@),
{
    let ghost start = text::views(list@);
    let mut i: usize = 0;
    assert(start + text::views(more@).take(0) =~= start);
    while i < more.len()
        invariant
            i <= more@.len(),
            text::views(list@) == start + text::views(more@).take(i as int),
        decreases more@.len() - i,
    {
        let line = more[i].clone();
        proof {
            text::lemma_views_push(list@, line);
        }
        list.push(line);
        i = i + 1;
        assert(text::views(list@) =~= start + text::views(more@).take(i as int));
    }
    assert(text::views(more@).take(more@.len() as int) =~= text::views(more@));
}

fn start_summary(ctx: &SummaryContext, messages: &Vec<Message>) -> (r: Summary)
    requires
        ctx.wf(),
        ctx.anchor < messages@.len(),
    ensures
        r.wf(),
        r@ == summary_start(*ctx, text::views(messages@)),
        r.tool_outputs == 0,
{
    let ghost model = text::views(messages@);
    let mut summary = Summary {
        lines: Vec::new(),
        pointer_ids: Vec::new(),
        tool_names: TextMap::new(),
        tool_outputs: 0,
    };
    assert(summary@ =~= SummaryView {
        lines: Seq::empty(),
        pointer_ids: Seq::empty(),
        tool_names: Seq::empty(),
        tool_outputs: 0,
    });
    let pointer = ctx.archived_pointer(ctx.anchor);
    summary.add_pointer(&pointer);
    let mut line = "Original request".to_owned();
    let tag = ctx.tag_text(ctx.anchor);
    line.append(tag.as_str());
    line.append(":\n");
    assert(model[ctx.anchor as int] == messages@[ctx.anchor as int]@);
    let shown = anchor_text(messages[ctx.anchor].content());
    line.append(shown.as_str());
    summary.add_line(line);
    if messages.len() > 1 {
        assert(model[1] == messages@[1]@);
        match &messages[1] {
            Message::System { content } => {
                if text::starts_with_of(content.as_str(), "[Compacted earlier conversation:") {
                    let body = after_mark_of(content.as_str(), "\n");
                    let kept = before_mark_of(
                        body.as_str(),
                        "\n[Available addressable pointers]",
                    );
                    let lines = text::lines_of(kept.as_str());
                    extend_texts(&mut summary.lines, &lines);
                    let cited = ids::extract_memory_ids(content.as_str());
                    extend_texts(&mut summary.pointer_ids, &cited);
                }
            },
            _ => {},
        }
    }
    assert(summary@ =~= summary_start(*ctx, model));
    summary
}

fn summary_text_of(ctx: &SummaryContext, summary: Summary, turns: usize) -> (r: String)
    requires
        ctx.wf(),
    ensures
        r@ == summary_text(*ctx, summary@, turns as nat),
{
    let by_pointer = ctx.is_by_pointer();
    let cited: Vec<String> = match ctx.memory {
        Some(memory) => if by_pointer {
            memory.compaction_pointer_manifest(&summary.pointer_ids)
        } else {
            Vec::new()
        },
        None => Vec::new(),
    };
    let ghost model = text::views(cited@);
    assert(model.len() == cited@.len());
    let lines = bounded_summary_lines(summary.lines);
    let mut body = text::join_of(&lines, "\n");
    if cited.len() > 0 {
        body.append("\n[Available addressable pointers]\n");
        let list = bullets_of(&cited);
        body.append(list.as_str());
    } else {
        assert(model =~= Seq::<Seq<char>>::empty());
    }
    let mut r = "[Compacted earlier conversation: ".to_owned();
    let count = text::decimal_of(turns as u64);
    r.append(count.as_str());
    r.append(" turn(s)]\n");
    r.append(body.as_str());
    r
}

/// What `compact_messages` reports.
pub open spec fn compact_stats(
    messages: Seq<MessageView>,
    keep_turns: nat,
    ctx: SummaryContext,
) -> CompactStats {
    let (kept, summarized) = turn_split(messages, keep_turns);
    let before = message::saturated(history_tokens(messages));
    let after = message::saturated(history_tokens(compacted(messages, keep_turns, ctx)));
    CompactStats {
        before_tokens: before,
        after_tokens: after,
        freed_tokens: if before > after {
            (before - after) as usize
        } else {
            0
        },
        kept_turns: kept as usize,
        summarized_turns: summarized as usize,
        summarized_tool_outputs: if summarized == 0 {
            0
        } else {
            with_messages(
                summary_start(ctx, messages),
                ctx,
                messages,
                keep_start(messages, keep_turns),
            ).tool_outputs as usize
        },
        pruned_tool_outputs: 0,
    }
}

/// The context of a compaction of some messages.
pub open spec fn context_for<'a>(
    messages: Seq<MessageView>,
    memory: Option<&'a MemoryRuntime>,
    archived: &'a Vec<Option<MemoryPointer>>,
) -> SummaryContext<'a> {
    SummaryContext {
        memory,
        archived,
        anchor: if user_positions(messages).len() > 0 {
            user_positions(messages)[0] as usize
        } else {
            0
        },
    }
}

/// Summarizes all but the last `keep_turns` user turns. `archived` says to
/// which records the messages were archived, by their numbers.
pub fn compact_messages(
    messages: &mut Vec<Message>,
    keep_turns: usize,
    memory: Option<&MemoryRuntime>,
    archived: &Vec<Option<MemoryPointer>>,
) -> (r: CompactStats)
    requires
        keep_turns > 0 || user_positions(text::views(old(messages)@)).len() == 0,
        memory matches Some(memory) ==> memory.wf(),
        forall|i: int|
            0 <= i < archived@.len() ==> ((#[trigger] archived@[i]) matches Some(p) ==> p.wf()),
    ensures
        ({
            let before = text::views(old(messages)@);
            let ctx = context_for(before, memory, archived);
            &&& text::views(final(messages)@) == compacted(before, keep_turns as nat, ctx)
            &&& r == compact_stats(before, keep_turns as nat, ctx)
        }),
{
    let ghost model = text::views(messages@);
    let ghost goal = context_for(model, memory, archived);
    let before_tokens: usize = context_tokens(messages);
    let users = user_indices(messages);
    let ghost positions = user_positions(model);
    proof {
        lemma_user_positions(model);
        assert(as_nats(users@).len() == users@.len());
    }
    let total: usize = users.len();
    let kept_turns: usize = if total <= keep_turns {
        total
    } else {
        keep_turns
    };
    let summarized_turns: usize = total - kept_turns;
    if summarized_turns == 0 {
        return CompactStats {
            before_tokens,
            after_tokens: before_tokens,
            freed_tokens: 0,
            kept_turns,
            summarized_turns: 0,
            summarized_tool_outputs: 0,
            pruned_tool_outputs: 0,
        };
    }
    let anchor: usize = users[0];
    let start: usize = users[summarized_turns];
    assert(positions[0] == anchor);
    assert(positions[summarized_turns as int] == start);
    let ctx = SummaryContext { memory, archived, anchor };
    assert(ctx == goal);
    let mut summary = start_summary(&ctx, messages);
    let ghost begun = summary@;
    let mut index: usize = 1;
    while index < start
        invariant
            1 <= index <= start < messages@.len(),
            model == text::views(messages@),
            ctx.wf(),
            ctx == goal,
            summary.wf(),
            summary.tool_outputs < index,
            summary@ == with_messages(begun, goal, model, index as nat),
        decreases start - index,
    {
        assert(model[index as int] == messages@[index as int]@);
        summary.add_message(&ctx, index, &messages[index]);
        index = index + 1;
    }
    let tool_outputs: usize = summary.tool_outputs;
    let ghost finished = summary@;
    let prior: usize = prior_summary_turns(messages);
    let turns: usize = prior.saturating_add(summarized_turns);
    let content = summary_text_of(&ctx, summary, turns);
    let mut compact: Vec<Message> = Vec::new();
    compact.push(messages[0].copy());
    compact.push(Message::System { content });
    let ghost head = text::views(compact@);
    assert(head =~= seq![
        model[0],
        MessageView::System { content: summary_text(goal, finished, turns as nat) },
    ]);
    let mut k: usize = start;
    assert(head + model.skip(start as int).take(0) =~= head);
    while k < messages.len()
        invariant
            start <= k <= messages@.len(),
            model == text::views(messages@),
            text::views(compact@) == head + model.skip(start as int).take(k - start),
        decreases messages@.len() - k,
    {
        let copied = messages[k].copy();
        assert(model[k as int] == messages@[k as int]@);
        proof {
            text::lemma_views_push(compact@, copied);
        }
        compact.push(copied);
        k = k + 1;
        assert(text::views(compact@) =~= head + model.skip(start as int).take(k - start));
    }
    assert(model.skip(start as int).take(messages@.len() - start) =~= model.skip(start as int));
    assert(text::views(compact@) == compacted(model, keep_turns as nat, goal));
    *messages = compact;
    let after_tokens: usize = context_tokens(messages);
    CompactStats {
        before_tokens,
        after_tokens,
        freed_tokens: before_tokens.saturating_sub(after_tokens),
        kept_turns,
        summarized_turns,
        summarized_tool_outputs: tool_outputs,
        pruned_tool_outputs: 0,
    }
}

// ---------------------------------------------------------------------------
// What a summary tells
// ---------------------------------------------------------------------------

/// A text with spaces for its line breaks.
pub open spec fn single_line(s: Seq<char>) -> Seq<char> {
    Seq::new(
        s.len(),
        |i: int|
            if s[i] == '\n' || s[i] == '\r' {
                ' '
            } else {
                s[i]
            },
    )
}

/// A text on one line, cut in the middle where it is longer than `max`.
pub open spec fn item_text(s: Seq<char>, max: nat) -> Seq<char> {
    let line = single_line(s);
    if line.len() <= max {
        line
    } else {
        line.take((max / 2) as int) + " … "@ + line.skip(line.len() - max / 2)
    }
}

/// A result of a tool on one line: whole, or its two ends and how much is left
/// out between them.
pub open spec fn result_text(s: Seq<char>) -> Seq<char> {
    if s.len() <= 360 {
        single_line(s)
    } else {
        single_line(s.take(180)) + " … ["@ + text::decimal((s.len() - 360) as nat)
            + " chars omitted] … "@ + single_line(s.skip(s.len() - 180))
    }
}

proof fn lemma_item_text(s: Seq<char>, max: nat)
    ensures
        short(s, max) == item_text(s, max),
        text::one_line(s) == single_line(s),
{
    text::law_one_line(s);
    assert(text::one_line(s) =~= single_line(s));
}

proof fn lemma_result_text(s: Seq<char>)
    ensures
        short_output(s) == result_text(s),
{
    lemma_item_text(s, 0);
    if s.len() > 360 {
        lemma_item_text(s.take(180), 0);
        lemma_item_text(s.skip(s.len() - 180), 0);
    }
}

/// How a summary points to the record of a message.
pub open spec fn record_mark(ctx: SummaryContext, i: int) -> Seq<char> {
    if 0 <= i < ctx.archived@.len() && ctx.archived@[i] is Some && ctx.memory is Some
        && ctx.memory->0.config.mode != MemoryMode::Summary {
        " "@ + ctx.archived@[i]->0.id@
    } else {
        Seq::empty()
    }
}

/// Whether summaries are mostly pointers.
pub open spec fn points_first(ctx: SummaryContext) -> bool {
    ctx.memory is Some && ctx.memory->0.config.mode == MemoryMode::PointerPriority
}

/// The tool calls of the messages from `1` up to `end`, in their order.
pub open spec fn calls_before(messages: Seq<MessageView>, end: nat) -> Seq<ToolCallView>
    decreases end,
{
    if end <= 1 {
        Seq::empty()
    } else {
        let before = calls_before(messages, (end - 1) as nat);
        match messages[end - 1] {
            MessageView::Assistant { tool_calls, .. } => before + tool_calls,
            _ => before,
        }
    }
}

/// `name` is the name of the last call with an ID, or `unknown` where there is
/// none.
pub open spec fn names_call(calls: Seq<ToolCallView>, id: Seq<char>, name: Seq<char>) -> bool {
    ||| name == "unknown"@ && forall|k: int|
        0 <= k < calls.len() ==> (#[trigger] calls[k]).id != id
    ||| exists|k: int|
        0 <= k < calls.len() && (#[trigger] calls[k]).id == id && calls[k].name == name && forall|
            j: int,
        |
            k < j < calls.len() ==> (#[trigger] calls[j]).id != id
}

/// `part` are the lines that a summary has for message `i`.
pub open spec fn tells(
    ctx: SummaryContext,
    messages: Seq<MessageView>,
    i: int,
    part: Seq<Seq<char>>,
) -> bool {
    let mark = record_mark(ctx, i);
    match messages[i] {
        MessageView::System { content } => {
            let known = content.len() >= "[Compacted earlier conversation:"@.len() && content.take(
                "[Compacted earlier conversation:"@.len() as int,
            ) == "[Compacted earlier conversation:"@;
            &&& known ==> part.len() == 0
            &&& !known ==> part.len() == 1 && part[0] == "Prior context: "@ + item_text(
                content,
                480,
            )
        },
        MessageView::User { content } => {
            &&& i == ctx.anchor ==> part.len() == 0
            &&& i != ctx.anchor ==> part.len() == 1 && part[0] == "User"@ + mark + ": "@
                + item_text(
                content,
                if points_first(ctx) {
                    180
                } else {
                    480
                },
            )
        },
        MessageView::Assistant { content, thinking, tool_calls, .. } => {
            if points_first(ctx) {
                part.len() == 1 && part[0] == "Assistant"@ + mark + ": "@ + (if text::blank(
                    content,
                ) {
                    "assistant tool turn"@
                } else {
                    item_text(content, 180)
                })
            } else {
                let thought: int = if thinking is Some && !text::blank(thinking->0) {
                    1
                } else {
                    0
                };
                let said: int = if !text::blank(content) {
                    1
                } else {
                    0
                };
                &&& part.len() == thought + said + tool_calls.len()
                &&& thought == 1 ==> part[0] == "Assistant"@ + mark + " thinking: "@ + item_text(
                    thinking->0,
                    480,
                )
                &&& said == 1 ==> part[thought] == "Assistant"@ + mark + ": "@ + item_text(
                    content,
                    480,
                )
                &&& forall|k: int|
                    0 <= k < tool_calls.len() ==> part[thought + said + k] == "Tool call "@ + (
                    #[trigger] tool_calls[k]).name + ": "@ + item_text(tool_calls[k].arguments, 480)
            }
        },
        MessageView::Tool { tool_call_id, content } => {
            &&& part.len() == 1
            &&& exists|name: Seq<char>| #[trigger]
                names_call(calls_before(messages, i as nat), tool_call_id, name) && tells_result(
                    ctx,
                    i,
                    name,
                    content,
                    part[0],
                )
        },
    }
}

/// `line` is what a summary says of a result: what the tool gave, or, where
/// summaries point to records and one is known, that record.
pub open spec fn tells_result(
    ctx: SummaryContext,
    i: int,
    name: Seq<char>,
    content: Seq<char>,
    line: Seq<char>,
) -> bool {
    let p = output_pointer(ctx, i, content);
    &&& (0 <= i < ctx.archived@.len() && ctx.archived@[i] is Some) ==> p == Some(
        ctx.archived@[i]->0@,
    )
    &&& if p is Some && ctx.memory is Some && ctx.memory->0.config.mode != MemoryMode::Summary {
        match ctx.memory->0.pointer_of(p->0.id) {
            Some(known) => line == pointers::citation_text(known),
            None => line == "Tool result "@ + name + ": "@ + p->0.id,
        }
    } else {
        line == "Tool result "@ + name + ": "@ + result_text(content)
    }
}

proof fn lemma_calls_named(
    summary: SummaryView,
    calls: Seq<ToolCallView>,
    terse: bool,
    before: Seq<ToolCallView>,
)
    requires
        textmap::sorted(summary.tool_names),
        forall|id: Seq<char>| names_call(before, id, #[trigger] summary.tool_name(id)),
    ensures
        textmap::sorted(with_calls(summary, calls, terse).tool_names),
        forall|id: Seq<char>|
            names_call(
                before + calls,
                id,
                #[trigger] with_calls(summary, calls, terse).tool_name(id),
            ),
    decreases calls.len(),
{
    let all = before + calls;
    if calls.len() == 0 {
        assert(all =~= before);
    } else {
        let front = calls.drop_last();
        let call = calls.last();
        let earlier = before + front;
        lemma_calls_named(summary, front, terse, before);
        let rest = with_calls(summary, front, terse);
        let next = with_calls(summary, calls, terse);
        textmap::lemma_inserted(rest.tool_names, call.id, call.name);
        assert(all =~= earlier.push(call));
        assert forall|id: Seq<char>| names_call(all, id, #[trigger] next.tool_name(id)) by {
            if id == call.id {
                assert(all[earlier.len() as int] == call);
            } else {
                let name = rest.tool_name(id);
                assert(names_call(earlier, id, name));
                assert(next.tool_name(id) == name);
                if forall|k: int| 0 <= k < earlier.len() ==> (#[trigger] earlier[k]).id != id {
                    assert forall|k: int| 0 <= k < all.len() implies (#[trigger] all[k]).id
                        != id by {
                        if k < earlier.len() {
                            assert(all[k] == earlier[k]);
                        }
                    }
                    assert(name == "unknown"@);
                } else {
                    let k = choose|k: int|
                        0 <= k < earlier.len() && (#[trigger] earlier[k]).id == id
                            && earlier[k].name == name && forall|j: int|
                            k < j < earlier.len() ==> (#[trigger] earlier[j]).id != id;
                    assert(all[k] == earlier[k]);
                    assert forall|j: int| k < j < all.len() implies (#[trigger] all[j]).id
                        != id by {
                        if j < earlier.len() {
                            assert(all[j] == earlier[j]);
                        }
                    }
                }
            }
        }
    }
}

proof fn lemma_names_kept(
    ctx: SummaryContext,
    messages: Seq<MessageView>,
    end: nat,
)
    requires
        end <= messages.len(),
    ensures
        ({
            let summary = with_messages(summary_start(ctx, messages), ctx, messages, end);
            &&& textmap::sorted(summary.tool_names)
            &&& forall|id: Seq<char>|
                names_call(calls_before(messages, end), id, #[trigger] summary.tool_name(id))
        }),
    decreases end,
{
    if end > 1 {
        let before = (end - 1) as nat;
        lemma_names_kept(ctx, messages, before);
        let earlier = with_messages(summary_start(ctx, messages), ctx, messages, before);
        let known = calls_before(messages, before);
        let summary = with_message(earlier, ctx, end - 1, messages[end - 1]);
        match messages[end - 1] {
            MessageView::Assistant { content, thinking, tool_calls, .. } => {
                let told = told_before_calls(earlier, ctx, end - 1, content, thinking);
                assert(told.tool_names == earlier.tool_names);
                assert forall|id: Seq<char>| names_call(known, id, #[trigger] told.tool_name(id)) by {
                    assert(told.tool_name(id) == earlier.tool_name(id));
                }
                lemma_calls_named(told, tool_calls, ctx.terse(), known);
            },
            _ => {
                assert(summary.tool_names == earlier.tool_names);
                assert forall|id: Seq<char>|
                    names_call(known, id, #[trigger] summary.tool_name(id)) by {
                    assert(summary.tool_name(id) == earlier.tool_name(id));
                }
            },
        }
    }
}

/// A summary with what an assistant's message says, but not its calls.
spec fn told_before_calls(
    summary: SummaryView,
    ctx: SummaryContext,
    index: int,
    content: Seq<char>,
    thinking: Option<Seq<char>>,
) -> SummaryView {
    with_message(
        summary,
        ctx,
        index,
        MessageView::Assistant {
            content,
            thinking,
            tool_calls: Seq::empty(),
            provider_state: None,
        },
    )
}

proof fn lemma_call_lines(summary: SummaryView, calls: Seq<ToolCallView>, terse: bool)
    ensures
        terse ==> with_calls(summary, calls, terse).lines == summary.lines,
        !terse ==> ({
            let lines = with_calls(summary, calls, terse).lines;
            &&& lines.len() == summary.lines.len() + calls.len()
            &&& lines.take(summary.lines.len() as int) == summary.lines
            &&& forall|k: int|
                0 <= k < calls.len() ==> lines[summary.lines.len() + k] == "Tool call "@ + (
                #[trigger] calls[k]).name + ": "@ + item_text(calls[k].arguments, 480)
        }),
    decreases calls.len(),
{
    let had: int = summary.lines.len() as int;
    if calls.len() == 0 {
        assert(summary.lines.take(had) =~= summary.lines);
    } else {
        let front = calls.drop_last();
        lemma_call_lines(summary, front, terse);
        lemma_item_text(calls.last().arguments, 480);
        let before = with_calls(summary, front, terse).lines;
        let lines = with_calls(summary, calls, terse).lines;
        if !terse {
            assert(lines.take(had) =~= before.take(had));
            assert forall|k: int| 0 <= k < calls.len() implies lines[had + k] == "Tool call "@ + (
            #[trigger] calls[k]).name + ": "@ + item_text(calls[k].arguments, 480) by {
                if k < front.len() {
                    assert(front[k] == calls[k]);
                    assert(lines[had + k] == before[had + k]);
                }
            }
        }
    }
}

proof fn lemma_message_is_told(
    ctx: SummaryContext,
    messages: Seq<MessageView>,
    i: int,
)
    requires
        1 <= i < messages.len(),
    ensures
        ({
            let start = summary_start(ctx, messages);
            let before = with_messages(start, ctx, messages, i as nat).lines;
            let after = with_messages(start, ctx, messages, (i + 1) as nat).lines;
            &&& before.len() <= after.len()
            &&& after.take(before.len() as int) == before
            &&& tells(ctx, messages, i, after.skip(before.len() as int))
        }),
{
    let start = summary_start(ctx, messages);
    let earlier = with_messages(start, ctx, messages, i as nat);
    let summary = with_messages(start, ctx, messages, (i + 1) as nat);
    assert(summary == with_message(earlier, ctx, i, messages[i]));
    let had: int = earlier.lines.len() as int;
    let part = summary.lines.skip(had);
    assert(ctx.tag(i) == record_mark(ctx, i));
    assert(ctx.terse() == points_first(ctx));
    match messages[i] {
        MessageView::System { content } => {
            let mark = "[Compacted earlier conversation:"@;
            lemma_item_text(content, 480);
            if content.len() >= mark.len() {
                assert(content.take(mark.len() as int) =~= content.subrange(
                    0,
                    mark.len() as int,
                ));
            }
            assert(summary.lines.take(had) =~= earlier.lines);
        },
        MessageView::User { content } => {
            lemma_item_text(content, 480);
            lemma_item_text(content, 180);
            assert(summary.lines.take(had) =~= earlier.lines);
        },
        MessageView::Assistant { content, thinking, tool_calls, .. } => {
            lemma_item_text(content, 480);
            lemma_item_text(content, 180);
            text::law_trim(content);
            if let Some(thought) = thinking {
                lemma_item_text(thought, 480);
                text::law_trim(thought);
            }
            let told = told_before_calls(earlier, ctx, i, content, thinking);
            assert(summary == with_calls(told, tool_calls, ctx.terse()));
            lemma_call_lines(told, tool_calls, ctx.terse());
            assert(told.lines.take(had) =~= earlier.lines);
            let width: int = told.lines.len() as int;
            if ctx.terse() {
                assert(summary.lines == told.lines);
            } else {
                assert(summary.lines.take(had) =~= summary.lines.take(width).take(had));
                assert forall|k: int| had <= k < width implies summary.lines[k]
                    == told.lines[k] by {
                    assert(summary.lines.take(width)[k] == summary.lines[k]);
                }
                assert forall|k: int| 0 <= k < tool_calls.len() implies part[width - had + k]
                    == "Tool call "@ + (#[trigger] tool_calls[k]).name + ": "@ + item_text(
                    tool_calls[k].arguments,
                    480,
                ) by {
                    assert(part[width - had + k] == summary.lines[width + k]);
                }
            }
        },
        MessageView::Tool { tool_call_id, content } => {
            lemma_result_text(content);
            lemma_names_kept(ctx, messages, i as nat);
            let name = earlier.tool_name(tool_call_id);
            assert(names_call(calls_before(messages, i as nat), tool_call_id, name));
            assert(summary.lines.take(had) =~= earlier.lines);
            assert(part[0] == output_line(
                ctx,
                name,
                output_pointer(ctx, i, content),
                content,
            ));
            assert(tells_result(ctx, i, name, content, part[0]));
        },
    }
}

/// A summary tells every message that it stands for, in the order of the
/// messages and behind what it starts with: `starts[i]` is where its lines for
/// message `i` begin.
pub proof fn law_summary_tells_every_message(
    ctx: SummaryContext,
    messages: Seq<MessageView>,
    end: nat,
) -> (starts: Seq<int>)
    requires
        1 <= end <= messages.len(),
    ensures
        ({
            let first = summary_start(ctx, messages).lines;
            let lines = with_messages(summary_start(ctx, messages), ctx, messages, end).lines;
            &&& starts.len() == end + 1
            &&& starts[1] == first.len()
            &&& starts[end as int] == lines.len()
            &&& first.len() <= lines.len()
            &&& lines.take(first.len() as int) == first
            &&& forall|i: int|
                1 <= i < end ==> first.len() <= #[trigger] starts[i] <= starts[i + 1] <= lines.len()
                    && tells(ctx, messages, i, lines.subrange(starts[i], starts[i + 1]))
        }),
    decreases end,
{
    let first = summary_start(ctx, messages).lines;
    let lines = with_messages(summary_start(ctx, messages), ctx, messages, end).lines;
    if end == 1 {
        assert(lines.take(first.len() as int) =~= first);
        seq![0, first.len() as int]
    } else {
        let last: int = end - 1;
        let earlier = law_summary_tells_every_message(ctx, messages, last as nat);
        let before = with_messages(
            summary_start(ctx, messages),
            ctx,
            messages,
            last as nat,
        ).lines;
        lemma_message_is_told(ctx, messages, last);
        let starts = earlier.push(lines.len() as int);
        assert(lines.take(first.len() as int) =~= lines.take(before.len() as int).take(
            first.len() as int,
        ));
        assert forall|i: int| 1 <= i < end implies first.len() <= #[trigger] starts[i]
            <= starts[i + 1] <= lines.len() && tells(
            ctx,
            messages,
            i,
            lines.subrange(starts[i], starts[i + 1]),
        ) by {
            assert(starts[i] == earlier[i]);
            if i < last {
                assert(starts[i + 1] == earlier[i + 1]);
                assert(lines.subrange(starts[i], starts[i + 1]) =~= before.subrange(
                    earlier[i],
                    earlier[i + 1],
                )) by {
                    assert forall|k: int| 0 <= k < before.len() implies lines[k]
                        == before[k] by {
                        assert(lines.take(before.len() as int)[k] == lines[k]);
                    }
                }
            } else {
                assert(lines.subrange(starts[i], starts[i + 1]) =~= lines.skip(
                    before.len() as int,
                ));
            }
        }
        starts
    }
}

/// Every request but the first has a line of its own in a summary: it begins
/// with `User` and ends with the request on one line, cut in the middle where it
/// is longer than an item may be. The lines stand in the order of the requests.
pub proof fn law_later_requests_are_summarized(
    ctx: SummaryContext,
    messages: Seq<MessageView>,
    end: nat,
) -> (places: Seq<int>)
    requires
        1 <= end <= messages.len(),
    ensures
        ({
            let lines = with_messages(summary_start(ctx, messages), ctx, messages, end).lines;
            &&& places.len() == end
            &&& forall|i: int|
                1 <= i < end && messages[i] is User && i != ctx.anchor ==> {
                    let shown = item_text(
                        messages[i]->User_content,
                        if points_first(ctx) {
                            180
                        } else {
                            480
                        },
                    );
                    let line = lines[#[trigger] places[i]];
                    &&& 0 <= places[i] < lines.len()
                    &&& line.len() >= 4 + shown.len()
                    &&& line.take(4) == "User"@
                    &&& line.skip(line.len() - shown.len()) == shown
                }
            &&& forall|i: int, j: int|
                1 <= i < j < end && messages[i] is User && i != ctx.anchor && messages[j] is User
                    && j != ctx.anchor ==> #[trigger] places[i] < #[trigger] places[j]
        }),
{
    let lines = with_messages(summary_start(ctx, messages), ctx, messages, end).lines;
    let starts = law_summary_tells_every_message(ctx, messages, end);
    let places = starts.take(end as int);
    reveal_strlit("User");
    assert forall|i: int| 1 <= i < end && messages[i] is User && i != ctx.anchor implies {
        let shown = item_text(
            messages[i]->User_content,
            if points_first(ctx) {
                180
            } else {
                480
            },
        );
        let line = lines[#[trigger] places[i]];
        &&& 0 <= places[i] < lines.len()
        &&& line.len() >= 4 + shown.len()
        &&& line.take(4) == "User"@
        &&& line.skip(line.len() - shown.len()) == shown
    } by {
        assert(places[i] == starts[i]);
        let part = lines.subrange(starts[i], starts[i + 1]);
        assert(tells(ctx, messages, i, part));
        assert(part[0] == lines[starts[i]]);
        let shown = item_text(
            messages[i]->User_content,
            if points_first(ctx) {
                180
            } else {
                480
            },
        );
        let line = part[0];
        assert(line.take(4) =~= "User"@);
        assert(line.skip(line.len() - shown.len()) =~= shown);
    }
    assert forall|i: int, j: int|
        1 <= i < j < end && messages[i] is User && i != ctx.anchor && messages[j] is User && j
            != ctx.anchor implies #[trigger] places[i] < #[trigger] places[j] by {
        assert(places[i] == starts[i] && places[j] == starts[j]);
        assert(tells(ctx, messages, i, lines.subrange(starts[i], starts[i + 1])));
        assert(starts[i] < starts[i + 1]);
        lemma_starts_rise(starts, i + 1, j, end as int);
    }
    places
}

proof fn lemma_starts_rise(starts: Seq<int>, i: int, j: int, end: int)
    requires
        1 <= i <= j < end,
        starts.len() == end + 1,
        forall|k: int| 1 <= k < end ==> #[trigger] starts[k] <= starts[k + 1],
    ensures
        starts[i] <= starts[j],
    decreases j - i,
{
    if i < j {
        lemma_starts_rise(starts, i, j - 1, end);
        assert(starts[j - 1] <= starts[j]);
    }
}

/// A summary counts the results that it stands for, and cites every record of a
/// message of the user or the assistant among them.
pub proof fn law_summary_counts_results(ctx: SummaryContext, messages: Seq<MessageView>, end: nat)
    requires
        1 <= end <= messages.len(),
    ensures
        ({
            let summary = with_messages(summary_start(ctx, messages), ctx, messages, end);
            &&& summary.tool_outputs == messages.subrange(1, end as int).filter(
                |m: MessageView| m is Tool,
            ).len()
            &&& forall|i: int|
                1 <= i < end && i < ctx.archived@.len() && ctx.archived@[i] is Some && (
                messages[i] is User || messages[i] is Assistant) && i != ctx.anchor
                    ==> summary.pointer_ids.contains((#[trigger] ctx.archived@[i])->0.id@)
        }),
    decreases end,
{
    let is_result = |m: MessageView| m is Tool;
    let among = messages.subrange(1, end as int);
    reveal(Seq::filter);
    if end == 1 {
        assert(among.len() == 0);
    } else {
        let last: int = end - 1;
        law_summary_counts_results(ctx, messages, last as nat);
        let earlier = with_messages(summary_start(ctx, messages), ctx, messages, last as nat);
        let summary = with_message(earlier, ctx, last, messages[last]);
        assert(among.drop_last() =~= messages.subrange(1, last));
        assert(among.last() == messages[last]);
        lemma_cited(ctx, messages[last], earlier, last);
        assert forall|i: int|
            1 <= i < end && i < ctx.archived@.len() && ctx.archived@[i] is Some && (
            messages[i] is User || messages[i] is Assistant) && i
                != ctx.anchor implies summary.pointer_ids.contains(
            (#[trigger] ctx.archived@[i])->0.id@,
        ) by {
            let id = ctx.archived@[i]->0.id@;
            if i < last {
                assert(earlier.pointer_ids.contains(id));
                let k = earlier.pointer_ids.index_of(id);
                assert(summary.pointer_ids.take(earlier.pointer_ids.len() as int)[k] == id);
                assert(summary.pointer_ids[k] == id);
            } else {
                assert(summary.pointer_ids[earlier.pointer_ids.len() as int] == id);
            }
        }
    }
}

proof fn lemma_cited(ctx: SummaryContext, message: MessageView, earlier: SummaryView, i: int)
    ensures
        ({
            let summary = with_message(earlier, ctx, i, message);
            let had = earlier.pointer_ids.len();
            &&& summary.pointer_ids.len() >= had
            &&& summary.pointer_ids.take(had as int) == earlier.pointer_ids
            &&& summary.tool_outputs == earlier.tool_outputs + (if message is Tool {
                1nat
            } else {
                0
            })
            &&& (message is User || message is Assistant) && i != ctx.anchor && 0 <= i
                < ctx.archived@.len() && ctx.archived@[i] is Some ==> summary.pointer_ids
                == earlier.pointer_ids.push(ctx.archived@[i]->0.id@)
        }),
{
    let summary = with_message(earlier, ctx, i, message);
    if let MessageView::Assistant { content, thinking, tool_calls, .. } = message {
        let told = told_before_calls(earlier, ctx, i, content, thinking);
        assert(summary == with_calls(told, tool_calls, ctx.terse()));
        lemma_calls_cite_nothing(told, tool_calls, ctx.terse());
        assert(told.pointer_ids == earlier.cite(ctx.archived_at(i)).pointer_ids);
    }
    assert(summary.pointer_ids.take(earlier.pointer_ids.len() as int) =~= earlier.pointer_ids);
}

proof fn lemma_calls_cite_nothing(summary: SummaryView, calls: Seq<ToolCallView>, terse: bool)
    ensures
        with_calls(summary, calls, terse).pointer_ids == summary.pointer_ids,
        with_calls(summary, calls, terse).tool_outputs == summary.tool_outputs,
    decreases calls.len(),
{
    if calls.len() > 0 {
        lemma_calls_cite_nothing(summary, calls.drop_last(), terse);
    }
}

/// The first request stays visible: a summary begins with it, without the white
/// space around it, whole where it has up to 4000 characters and else with its
/// two ends. What an earlier summary said follows, line for line.
pub proof fn law_first_request_stays_visible(
    ctx: SummaryContext,
    messages: Seq<MessageView>,
    around: (Seq<char>, Seq<char>),
    request: Seq<char>,
)
    requires
        ctx.anchor < messages.len(),
        messages[ctx.anchor as int].content() == around.0 + request + around.1,
        text::blank(around.0),
        text::blank(around.1),
        request.len() > 0,
        !text::is_space(request[0]),
        !text::is_space(request.last()),
    ensures
        ({
            let lines = summary_start(ctx, messages).lines;
            &&& lines.len() > 0
            &&& lines[0] == "Original request"@ + record_mark(ctx, ctx.anchor as int) + ":\n"@ + (
            if request.len() <= 4000 {
                request
            } else {
                request.take(2000) + " … "@ + request.skip(request.len() - 2000)
            })
            &&& !has_summary(messages) ==> lines.len() == 1
        }),
{
    text::law_trimmed(around.0, request, around.1);
    assert(ctx.tag(ctx.anchor as int) == record_mark(ctx, ctx.anchor as int));
}

/// The positions of the user's messages are all of them and no others, in
/// rising order.
pub proof fn law_user_positions_are_complete(messages: Seq<MessageView>)
    ensures
        are_user_positions(user_positions(messages), messages),
        forall|i: int|
            0 <= i < messages.len() && (#[trigger] messages[i]) is User ==> user_positions(
                messages,
            ).contains(i as nat),
    decreases messages.len(),
{
    lemma_user_positions(messages);
    if messages.len() > 0 {
        let front = messages.drop_last();
        law_user_positions_are_complete(front);
        let positions = user_positions(messages);
        let before = user_positions(front);
        assert forall|i: int|
            0 <= i < messages.len() && (#[trigger] messages[i]) is User implies positions.contains(
            i as nat,
        ) by {
            if i < front.len() {
                assert(front[i] == messages[i]);
                assert(before.contains(i as nat));
                let k = before.index_of(i as nat);
                assert(positions[k] == i as nat);
            } else {
                assert(positions[before.len() as int] == i as nat);
            }
        }
    }
}

/// A compaction keeps as many turns as it is told to: the messages that it
/// leaves as they are have just so many of the user's, the first of them one.
pub proof fn law_compaction_keeps_as_many_turns(messages: Seq<MessageView>, keep_turns: nat) -> (
    places: Seq<nat>)
    requires
        0 < keep_turns < user_positions(messages).len(),
    ensures
        places.len() == keep_turns,
        places[0] == keep_start(messages, keep_turns),
        forall|i: int, j: int| 0 <= i < j < places.len() ==> places[i] < places[j],
        forall|i: int|
            keep_start(messages, keep_turns) <= i < messages.len() ==> ((
            #[trigger] messages[i]) is User <==> places.contains(i as nat)),
{
    law_user_positions_are_complete(messages);
    let positions = user_positions(messages);
    let summarized: int = turn_split(messages, keep_turns).1 as int;
    let places = positions.skip(summarized);
    assert(places[0] == positions[summarized]);
    assert forall|i: int|
        keep_start(messages, keep_turns) <= i < messages.len() implies ((
    #[trigger] messages[i]) is User <==> places.contains(i as nat)) by {
        if messages[i] is User {
            assert(positions.contains(i as nat));
            let k = positions.index_of(i as nat);
            if k < summarized {
                assert(positions[k] < positions[summarized]);
            }
            assert(places[k - summarized] == i as nat);
        } else if places.contains(i as nat) {
            let k = places.index_of(i as nat);
            assert(positions[k + summarized] == i as nat);
            assert(messages[positions[k + summarized] as int] is User);
        }
    }
    places
}

/// What lines take is what they take joined, and one more.
pub proof fn law_lines_are_counted(lines: Seq<Seq<char>>)
    ensures
        lines.len() == 0 ==> lines_chars(lines) == 0,
        lines.len() > 0 ==> lines_chars(lines) == text::join(lines, "\n"@).len() + 1,
    decreases lines.len(),
{
    reveal_strlit("\n");
    if lines.len() > 0 {
        law_lines_are_counted(lines.drop_last());
    }
}

/// Lines that fit are left as they are. Of others the first stays, then a note,
/// and as many of the last ones as fit behind the first, whole and in their
/// order: with one more they would not fit.
pub proof fn law_bounded_keeps_the_last_lines(lines: Seq<Seq<char>>) -> (from: int)
    ensures
        text::join(lines, "\n"@).len() < 12_000 ==> bounded(lines) == lines,
        lines.len() > 0 && text::join(lines, "\n"@).len() >= 12_000 ==> {
            &&& 1 <= from <= lines.len()
            &&& bounded(lines) == seq![lines[0], omitted_marker()] + lines.skip(from)
            &&& from < lines.len() ==> lines[0].len() + 1 + lines_chars(lines.skip(from)) <= 12_000
            &&& from > 1 ==> lines[0].len() + 1 + lines_chars(lines.skip(from - 1)) > 12_000
        },
{
    law_lines_are_counted(lines);
    if lines.len() > 0 && lines_chars(lines) > SUMMARY_MAX_CHARS {
        let rest = lines.skip(1);
        let first = lines[0];
        let room = if first.len() + 1 <= SUMMARY_MAX_CHARS {
            (SUMMARY_MAX_CHARS - first.len() - 1) as nat
        } else {
            0
        };
        let at = lemma_fitting_is_last(rest, room);
        assert(rest.skip(at) =~= lines.skip(at + 1));
        assert(bounded(lines) =~= seq![lines[0], omitted_marker()] + lines.skip(at + 1));
        if at > 0 {
            assert(rest.skip(at - 1) =~= lines.skip(at));
        }
        if at < rest.len() {
            assert(lines_chars(rest.skip(at)) > 0) by {
                assert(rest.skip(at).len() > 0);
            }
        }
        at + 1
    } else {
        0
    }
}

proof fn lemma_fitting_is_last(lines: Seq<Seq<char>>, room: nat) -> (at: int)
    ensures
        0 <= at <= lines.len(),
        fitting_tail(lines, room) == lines.skip(at),
        lines_chars(lines.skip(at)) <= room,
        at > 0 ==> lines_chars(lines.skip(at - 1)) > room,
    decreases lines.len(),
{
    if lines.len() == 0 {
        assert(lines.skip(0) =~= Seq::<Seq<char>>::empty());
        0
    } else if lines.last().len() + 1 > room {
        let n: int = lines.len() as int;
        assert(lines.skip(n) =~= Seq::<Seq<char>>::empty());
        assert(lines.skip(n - 1) =~= seq![lines.last()]);
        assert(lines.skip(n - 1).drop_last() =~= Seq::<Seq<char>>::empty());
        n
    } else {
        let front = lines.drop_last();
        let less = (room - lines.last().len() - 1) as nat;
        let at = lemma_fitting_is_last(front, less);
        assert(lines.skip(at) =~= front.skip(at).push(lines.last()));
        assert(lines.skip(at).drop_last() =~= front.skip(at));
        if at > 0 {
            assert(lines.skip(at - 1).drop_last() =~= front.skip(at - 1));
            assert(lines.skip(at - 1).last() == lines.last());
        }
        at
    }
}

proof fn lemma_turns_read_back(
    ctx: SummaryContext,
    messages: Seq<MessageView>,
    summary: SummaryView,
    turns: nat,
)
    requires
        messages.len() > 1,
        turns <= usize::MAX,
        messages[1] == (MessageView::System { content: summary_text(ctx, summary, turns) }),
    ensures
        has_summary(messages),
        prior_turns(messages) == turns,
{
    let content = summary_text(ctx, summary, turns);
    let head = "[Compacted earlier conversation: "@;
    let number = text::decimal(turns);
    let close = " turn(s)]"@;
    reveal_strlit("[Compacted earlier conversation:");
    reveal_strlit("[Compacted earlier conversation: ");
    reveal_strlit(" turn(s)]");
    reveal_strlit(" turn(s)]\n");
    text::law_decimal(turns);
    assert(content.subrange(0, summary_mark().len() as int) =~= summary_mark());
    assert(content.subrange(0, head.len() as int) =~= head);
    let rest = content.skip(head.len() as int);
    let at = number.len() as int;
    text::law_find(rest, close);
    assert(rest.subrange(at, at + close.len()) =~= close);
    assert(rest.take(at) =~= number);
    let found = text::find(rest, close);
    assert(found == Some(at)) by {
        if let Some(i) = found {
            if i < at {
                assert(rest.subrange(i, i + close.len())[0] == rest[i]);
                assert(rest[i] == number[i]);
                assert(close[0] == ' ');
            }
        }
    }
    assert(text::all_digits(number));
    assert(number[0] != '+');
}

/// A compaction that is done again knows what the earlier one said: how many
/// turns its summary stands for, and the summary's lines.
pub proof fn law_summary_is_read_back(
    ctx: SummaryContext,
    messages: Seq<MessageView>,
    summary: SummaryView,
    turns: nat,
)
    requires
        messages.len() > 1,
        turns <= usize::MAX,
        messages[1] == (MessageView::System { content: summary_text(ctx, summary, turns) }),
        !text::contains(
            text::join(bounded(summary.lines), "\n"@),
            "\n[Available addressable pointers]"@,
        ),
    ensures
        has_summary(messages),
        prior_turns(messages) == turns,
        prior_lines(messages[1].content()) == text::lines(
            text::join(bounded(summary.lines), "\n"@),
        ),
{
    lemma_turns_read_back(ctx, messages, summary, turns);
    let content = summary_text(ctx, summary, turns);
    let head = "[Compacted earlier conversation: "@;
    let number = text::decimal(turns);
    let close = " turn(s)]"@;
    let body = text::join(bounded(summary.lines), "\n"@);
    reveal_strlit("[Compacted earlier conversation: ");
    reveal_strlit(" turn(s)]");
    reveal_strlit(" turn(s)]\n");
    reveal_strlit("\n");
    text::law_decimal(turns);
    let start = (head + number + close).len() as int;
    text::law_find(content, "\n"@);
    assert(content.subrange(start, start + 1) =~= "\n"@);
    assert(text::find(content, "\n"@) == Some(start)) by {
        if let Some(i) = text::find(content, "\n"@) {
            if i < start {
                assert(content.subrange(i, i + 1)[0] == content[i]);
                if i >= head.len() && i < head.len() + number.len() {
                    assert(content[i] == number[i - head.len()]);
                } else if i < head.len() {
                    assert(content[i] == head[i]);
                } else {
                    assert(content[i] == close[i - head.len() - number.len()]);
                }
            }
        }
    }
    let behind = content.skip(start + 1);
    let mark = "\n[Available addressable pointers]\n"@;
    let more = behind.skip((body + mark).len() as int);
    if behind.len() == body.len() {
        assert(behind =~= body);
    } else {
        assert(behind =~= body + mark + more);
    }
    lemma_before_pointers(body, more);
}

proof fn lemma_before_pointers(body: Seq<char>, more: Seq<char>)
    requires
        !text::contains(body, "\n[Available addressable pointers]"@),
    ensures
        before_mark(body, "\n[Available addressable pointers]"@) == body,
        before_mark(
            body + "\n[Available addressable pointers]\n"@ + more,
            "\n[Available addressable pointers]"@,
        ) == body,
{
    let mark = "\n[Available addressable pointers]"@;
    let behind = body + "\n[Available addressable pointers]\n"@ + more;
    reveal_strlit("\n[Available addressable pointers]");
    reveal_strlit("\n[Available addressable pointers]\n");
    let size = body.len() as int;
    assert(behind.subrange(size, size + mark.len()) =~= mark);
    assert(behind.take(size) =~= body);
    text::law_find(behind, mark);
    text::law_find(body, mark);
    assert(forall|k: int| 0 < k < mark.len() ==> mark[k] != '\n');
    if let Some(i) = text::find(behind, mark) {
        if i < size {
            if i + mark.len() <= size {
                assert(body.subrange(i, i + mark.len()) =~= behind.subrange(i, i + mark.len()));
            } else {
                assert(behind.subrange(i, i + mark.len())[size - i] == behind[size]);
                assert(behind[size] == '\n');
            }
        }
    }
}

/// A compaction adds the turns that it summarizes to those that an earlier
/// summary stands for: all of the user's messages but the ones it keeps.
pub proof fn law_compaction_counts_turns(
    messages: Seq<MessageView>,
    keep_turns: nat,
    ctx: SummaryContext,
)
    requires
        0 < keep_turns < user_positions(messages).len(),
        prior_turns(messages) + user_positions(messages).len() - keep_turns <= usize::MAX,
    ensures
        prior_turns(compacted(messages, keep_turns, ctx)) == prior_turns(messages) + user_positions(
            messages,
        ).len() - keep_turns,
{
    let after = compacted(messages, keep_turns, ctx);
    let start = keep_start(messages, keep_turns);
    let summary = with_messages(summary_start(ctx, messages), ctx, messages, start);
    let turns = (prior_turns(messages) + user_positions(messages).len() - keep_turns) as nat;
    assert(after[1] == (MessageView::System { content: summary_text(ctx, summary, turns) }));
    lemma_turns_read_back(ctx, after, summary, turns);
}

/// The figures of a compaction: what it freed is by how much the messages shrank,
/// and no output is merely cleared.
pub proof fn law_compaction_figures_add_up(
    messages: Seq<MessageView>,
    keep_turns: nat,
    ctx: SummaryContext,
)
    requires
        history_tokens(messages) <= usize::MAX,
        history_tokens(compacted(messages, keep_turns, ctx)) <= usize::MAX,
    ensures
        ({
            let stats = compact_stats(messages, keep_turns, ctx);
            let before = history_tokens(messages);
            let after = history_tokens(compacted(messages, keep_turns, ctx));
            &&& stats.before_tokens == before
            &&& stats.after_tokens == after
            &&& after <= before ==> stats.freed_tokens + after == before
            &&& after > before ==> stats.freed_tokens == 0
            &&& stats.pruned_tool_outputs == 0
        }),
{
}

} // verus!
