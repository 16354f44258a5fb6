//! Streams of Chat Completions.
use crate::agent::event;
use crate::agent::event::AgentEvent;
use crate::agent::event::EventView;
use crate::agent::event::MessageRole;
use crate::agent::message::AssistantMessage;
use crate::agent::message::AssistantView;
use crate::agent::message::ToolCallView;
use crate::json;
use crate::json::Json;
use crate::json::JsonView;
use crate::provider::stream;
use crate::provider::stream::CallDeltaView;
use crate::provider::stream::CallTable;
use crate::provider::stream::DeltaView;
use crate::provider::stream::StreamDelta;
use crate::text;
use vstd::prelude::*;
use vstd::string::*;

verus! {

// ---------------------------------------------------------------------------
// Thinking
// ---------------------------------------------------------------------------

/// The text of one block of thinking.
pub open spec fn block_text(block: JsonView) -> Option<Seq<char>> {
    let value = match block.get("thinking"@) {
        Some(value) => Some(value),
        None => match block.get("text"@) {
            Some(value) => Some(value),
            None => block.get("summary"@),
        },
    };
    match value {
        Some(value) => value.text(),
        None => None,
    }
}

/// The text of blocks of thinking.
pub open spec fn blocks_joined(blocks: Seq<JsonView>) -> Seq<char>
    decreases blocks.len(),
{
    if blocks.len() == 0 {
        Seq::empty()
    } else {
        blocks_joined(blocks.drop_last()) + stream::or_empty(block_text(blocks.last()))
    }
}

/// The text of blocks of thinking, where there is any.
pub open spec fn blocks_text(blocks: Option<Seq<JsonView>>) -> Option<Seq<char>> {
    match blocks {
        Some(blocks) => filled(Some(blocks_joined(blocks))),
        None => None,
    }
}

/// A text that is not empty.
pub open spec fn filled(s: Option<Seq<char>>) -> Option<Seq<char>> {
    match s {
        Some(s) => if s.len() == 0 {
            None
        } else {
            Some(s)
        },
        None => None,
    }
}

/// Thinking between tags, where there is any, and the answer around it.
pub open spec fn think_split(content: Seq<char>) -> (Option<Seq<char>>, Seq<char>) {
    match text::split_once(content, "<think>"@) {
        None => (None, content),
        Some((before, rest)) => match text::split_once(rest, "</think>"@) {
            None => (None, content),
            Some((inside, after)) => (
                filled(Some(text::trim(inside))),
                text::trim(before + after),
            ),
        },
    }
}

/// The thinking and the answer of a message: what was given as thinking counts,
/// else what stands between tags.
pub open spec fn finalized(explicit: Seq<char>, content: Seq<char>) -> (
    Option<Seq<char>>,
    Seq<char>,
) {
    if explicit.len() > 0 {
        (Some(explicit), think_split(content).1)
    } else {
        think_split(content)
    }
}

/// The text of blocks of thinking, where there is any.
pub fn thinking_text_from_blocks(blocks: &Vec<Json>) -> (r: Option<String>)
    ensures
        text::opt(r) == blocks_text(Some(json::items_view(blocks@))),
{
    let ghost model = json::items_view(blocks@);
    proof {
        json::lemma_items_view(blocks@);
        reveal_strlit("");
    }
    let mut joined = "".to_owned();
    let mut i: usize = 0;
    assert(joined@ =~= blocks_joined(model.take(0)));
    while i < blocks.len()
        invariant
            i <= blocks@.len(),
            model.len() == blocks@.len(),
            forall|j: int| 0 <= j < blocks@.len() ==> #[trigger] model[j] == blocks@[j]@,
            joined@ == blocks_joined(model.take(i as int)),
        decreases blocks@.len() - i,
    {
        assert(model.take(i as int + 1).drop_last() =~= model.take(i as int));
        assert(model.take(i as int + 1).last() == blocks@[i as int]@);
        let block = &blocks[i];
        let value = match block.get("thinking") {
            Some(value) => Some(value),
            None => match block.get("text") {
                Some(value) => Some(value),
                None => block.get("summary"),
            },
        };
        match value {
            Some(Json::Text(s)) => {
                joined.append(s.as_str());
            },
            _ => {
                assert(joined@ + Seq::<char>::empty() =~= joined@);
            },
        }
        i = i + 1;
    }
    assert(model.take(model.len() as int) =~= model);
    if text::char_count(joined.as_str()) == 0 {
        None
    } else {
        Some(joined)
    }
}

/// Thinking between tags, where there is any, and the answer around it.
pub fn split_think_tags(content: &str) -> (r: (Option<String>, String))
    ensures
        (text::opt(r.0), r.1@) == think_split(content@),
{
    match text::split_once_of(content, "<think>") {
        None => (None, content.to_owned()),
        Some((before, rest)) => match text::split_once_of(rest.as_str(), "</think>") {
            None => (None, content.to_owned()),
            Some((inside, after)) => {
                let thinking = text::trim_of(inside.as_str());
                let around = text::concat(before.as_str(), after.as_str());
                let answer = text::trim_of(around.as_str());
                if text::char_count(thinking.as_str()) == 0 {
                    (None, answer)
                } else {
                    (Some(thinking), answer)
                }
            },
        },
    }
}

/// The thinking and the answer of a message.
pub fn finalize_thinking(explicit: String, content: &str) -> (r: (Option<String>, String))
    ensures
        (text::opt(r.0), r.1@) == finalized(explicit@, content@),
{
    if text::char_count(explicit.as_str()) > 0 {
        let (_, answer) = split_think_tags(content);
        (Some(explicit), answer)
    } else {
        split_think_tags(content)
    }
}

// ---------------------------------------------------------------------------
// What has come so far
// ---------------------------------------------------------------------------

/// What a provider wants back with a message.
pub struct ChatProviderState {
    pub reasoning_content: String,
    pub reasoning_details: Vec<Json>,
    pub thinking_blocks: Vec<Json>,
}

/// What has come of a message so far.
pub struct ChatParts {
    pub content: String,
    pub thinking: String,
    pub provider_state: ChatProviderState,
    pub tool_calls: CallTable,
}

/// What a [`ChatParts`] holds.
#[verifier::ext_equal]
pub struct ChatPartsView {
    pub content: Seq<char>,
    pub thinking: Seq<char>,
    pub reasoning_content: Seq<char>,
    pub reasoning_details: Seq<JsonView>,
    pub thinking_blocks: Seq<JsonView>,
    pub calls: Seq<(usize, ToolCallView)>,
}

impl View for ChatParts {
    type V = ChatPartsView;

    open spec fn view(&self) -> ChatPartsView {
        ChatPartsView {
            content: self.content@,
            thinking: self.thinking@,
            reasoning_content: self.provider_state.reasoning_content@,
            reasoning_details: json::items_view(self.provider_state.reasoning_details@),
            thinking_blocks: json::items_view(self.provider_state.thinking_blocks@),
            calls: self.tool_calls@,
        }
    }
}

pub open spec fn empty_parts() -> ChatPartsView {
    ChatPartsView {
        content: Seq::empty(),
        thinking: Seq::empty(),
        reasoning_content: Seq::empty(),
        reasoning_details: Seq::empty(),
        thinking_blocks: Seq::empty(),
        calls: Seq::empty(),
    }
}

/// The fields that a state consists of.
pub open spec fn state_fields(
    reasoning_content: Option<JsonView>,
    reasoning_details: Option<JsonView>,
    thinking_blocks: Option<JsonView>,
) -> Seq<(Seq<char>, JsonView)> {
    json::with_value(
        json::with_value(
            json::with_value(
                Seq::empty(),
                "reasoning_content"@,
                reasoning_content,
            ),
            "reasoning_details"@,
            reasoning_details,
        ),
        "thinking_blocks"@,
        thinking_blocks,
    )
}

/// A state, where any of its fields is there.
pub open spec fn state_of(fields: Seq<(Seq<char>, JsonView)>) -> Option<JsonView> {
    if fields.len() == 0 {
        None
    } else {
        Some(JsonView::Object(fields))
    }
}

impl ChatPartsView {
    /// What the provider wants back.
    pub open spec fn state(self) -> Option<JsonView> {
        state_of(
            state_fields(
                if self.reasoning_content.len() == 0 {
                    None
                } else {
                    Some(JsonView::Text(self.reasoning_content))
                },
                if self.reasoning_details.len() == 0 {
                    None
                } else {
                    Some(JsonView::Array(self.reasoning_details))
                },
                if self.thinking_blocks.len() == 0 {
                    None
                } else {
                    Some(JsonView::Array(self.thinking_blocks))
                },
            ),
        )
    }

    /// These parts with one piece more.
    pub open spec fn with(self, delta: DeltaView) -> ChatPartsView {
        let shown = delta_thinking(delta);
        ChatPartsView {
            content: self.content + stream::or_empty(delta.content),
            thinking: self.thinking + stream::or_empty(shown),
            reasoning_content: if delta_reasoning(delta) is Some {
                self.reasoning_content + stream::or_empty(shown)
            } else {
                self.reasoning_content
            },
            reasoning_details: match delta.reasoning_details {
                Some(details) => self.reasoning_details + details,
                None => self.reasoning_details,
            },
            thinking_blocks: match (delta.thinking_blocks, delta.provider_blocks) {
                (Some(blocks), _) => self.thinking_blocks + blocks,
                (None, Some(blocks)) => self.thinking_blocks + blocks,
                (None, None) => self.thinking_blocks,
            },
            calls: stream::calls_with_all(self.calls, delta.tool_calls),
        }
    }

    /// These parts with several pieces more.
    pub open spec fn with_all(self, deltas: Seq<DeltaView>) -> ChatPartsView
        decreases deltas.len(),
    {
        if deltas.len() == 0 {
            self
        } else {
            self.with_all(deltas.drop_last()).with(deltas.last())
        }
    }
}

/// The reasoning of a piece.
pub open spec fn delta_reasoning(delta: DeltaView) -> Option<Seq<char>> {
    match delta.reasoning_content {
        Some(s) => Some(s),
        None => match delta.reasoning {
            Some(s) => Some(s),
            None => delta.thinking,
        },
    }
}

/// The thinking that a piece brings: its reasoning, else the text of its blocks.
pub open spec fn delta_thinking(delta: DeltaView) -> Option<Seq<char>> {
    let found = match delta_reasoning(delta) {
        Some(s) => Some(s),
        None => match blocks_text(delta.thinking_blocks) {
            Some(s) => Some(s),
            None => blocks_text(delta.provider_blocks),
        },
    };
    filled(found)
}

/// What is told of a piece: first its thinking, then its part of the answer.
pub open spec fn delta_events(delta: DeltaView) -> Seq<EventView> {
    let thought = match delta_thinking(delta) {
        Some(s) => seq![event::thinking_delta(s)],
        None => Seq::empty(),
    };
    match delta.content {
        Some(s) => thought.push(event::answer_delta(s)),
        None => thought,
    }
}

pub open spec fn deltas_events(deltas: Seq<DeltaView>) -> Seq<EventView>
    decreases deltas.len(),
{
    if deltas.len() == 0 {
        Seq::empty()
    } else {
        deltas_events(deltas.drop_last()) + delta_events(deltas.last())
    }
}

/// The pieces that a line brings; `None` where its data is no chunk.
pub open spec fn line_deltas(line: Seq<u8>) -> Option<Seq<DeltaView>> {
    match stream::line_data(line) {
        None => Some(Seq::empty()),
        Some(data) => stream::chunk_in(data),
    }
}

/// What is said of data that is no chunk; not what is wrong with it.
pub open spec fn chunk_complaint() -> Seq<char> {
    "provider returned an invalid streaming chunk"@
}

/// A text that holds nothing.
pub fn empty_text() -> (r: String)
    ensures
        r@ == Seq::<char>::empty(),
{
    proof {
        reveal_strlit("");
    }
    let r = "".to_owned();
    assert(r@ =~= Seq::<char>::empty());
    r
}

impl ChatProviderState {
    pub fn new() -> (r: ChatProviderState)
        ensures
            r.reasoning_content@ == Seq::<char>::empty(),
            json::items_view(r.reasoning_details@) == Seq::<JsonView>::empty(),
            json::items_view(r.thinking_blocks@) == Seq::<JsonView>::empty(),
    {
        ChatProviderState {
            reasoning_content: empty_text(),
            reasoning_details: Vec::new(),
            thinking_blocks: Vec::new(),
        }
    }

    /// What the provider wants back.
    pub fn finish(self) -> (r: Option<Json>)
        ensures
            text::opt(r) == (ChatPartsView {
                reasoning_content: self.reasoning_content@,
                reasoning_details: json::items_view(self.reasoning_details@),
                thinking_blocks: json::items_view(self.thinking_blocks@),
                ..empty_parts()
            }).state(),
    {
        let mut fields: Vec<(String, Json)> = Vec::new();
        proof {
            json::lemma_items_view(self.reasoning_details@);
            json::lemma_items_view(self.thinking_blocks@);
        }
        if text::char_count(self.reasoning_content.as_str()) > 0 {
            json::push_field(
                &mut fields,
                "reasoning_content",
                Json::Text(self.reasoning_content),
            );
        }
        if self.reasoning_details.len() > 0 {
            json::push_field(&mut fields, "reasoning_details", Json::Array(self.reasoning_details));
        }
        if self.thinking_blocks.len() > 0 {
            json::push_field(&mut fields, "thinking_blocks", Json::Array(self.thinking_blocks));
        }
        proof {
            json::lemma_fields_view(fields@);
        }
        if fields.len() == 0 {
            None
        } else {
            Some(Json::Object(fields))
        }
    }
}

impl ChatParts {
    pub fn new() -> (r: ChatParts)
        ensures
            r@ == empty_parts(),
    {
        let r = ChatParts {
            content: empty_text(),
            thinking: empty_text(),
            provider_state: ChatProviderState::new(),
            tool_calls: CallTable::new(),
        };
        assert(r@ =~= empty_parts());
        r
    }

    fn apply(&mut self, delta: &StreamDelta, events: &mut Vec<AgentEvent>)
        ensures
            final(self)@ == old(self)@.with(delta@),
            text::views(final(events)@) == text::views(old(events)@) + delta_events(delta@),
    {
        let ghost before = self@;
        let ghost told = text::views(events@);
        let reasoning: Option<&String> = match &delta.reasoning_content {
            Some(s) => Some(s),
            None => match &delta.reasoning {
                Some(s) => Some(s),
                None => match &delta.thinking {
                    Some(s) => Some(s),
                    None => None,
                },
            },
        };
        match &delta.reasoning_details {
            Some(details) => {
                json::push_copies(&mut self.provider_state.reasoning_details, details);
            },
            None => {},
        }
        match &delta.thinking_blocks {
            Some(blocks) => {
                json::push_copies(&mut self.provider_state.thinking_blocks, blocks);
            },
            None => match &delta.provider_blocks {
                Some(blocks) => {
                    json::push_copies(&mut self.provider_state.thinking_blocks, blocks);
                },
                None => {},
            },
        }
        let found: Option<String> = match reasoning {
            Some(s) => Some(s.clone()),
            None => {
                let direct = match &delta.thinking_blocks {
                    Some(blocks) => thinking_text_from_blocks(blocks),
                    None => None,
                };
                match direct {
                    Some(s) => Some(s),
                    None => match &delta.provider_blocks {
                        Some(blocks) => thinking_text_from_blocks(blocks),
                        None => None,
                    },
                }
            },
        };
        assert(filled(text::opt(found)) == delta_thinking(delta@));
        match found {
            Some(shown) => {
                if text::char_count(shown.as_str()) > 0 {
                    if reasoning.is_some() {
                        self.provider_state.reasoning_content.append(shown.as_str());
                    }
                    self.thinking.append(shown.as_str());
                    event::tell(events, AgentEvent::ThinkingDelta { delta: shown });
                }
            },
            None => {},
        }
        match &delta.content {
            Some(piece) => {
                self.content.append(piece.as_str());
                event::tell(
                    events,
                    AgentEvent::MessageDelta {
                        role: MessageRole::Assistant,
                        delta: piece.clone(),
                    },
                );
            },
            None => {},
        }
        self.tool_calls.append_all(&delta.tool_calls);
        proof {
            assert(before.content + Seq::<char>::empty() =~= before.content);
            assert(before.thinking + Seq::<char>::empty() =~= before.thinking);
            assert(before.reasoning_content + Seq::<char>::empty() =~= before.reasoning_content);
            assert(self@ =~= before.with(delta@));
            assert(text::views(events@) =~= told + delta_events(delta@));
        }
    }
}

/// Takes in one line of a stream. Data that is no chunk changes nothing.
pub fn consume_sse_line(line: &[u8], parts: &mut ChatParts, events: &mut Vec<AgentEvent>) -> (r:
    Result<(), String>)
    ensures
        match (r, line_deltas(line@)) {
            (Ok(_), Some(deltas)) => {
                &&& final(parts)@ == old(parts)@.with_all(deltas)
                &&& text::views(final(events)@) == text::views(old(events)@) + deltas_events(
                    deltas,
                )
            },
            (Err(message), None) => {
                &&& message@ == chunk_complaint()
                &&& final(parts)@ == old(parts)@
                &&& text::views(final(events)@) == text::views(old(events)@)
            },
            _ => false,
        },
{
    let ghost told = text::views(events@);
    assert(told + Seq::<EventView>::empty() =~= told);
    let data = match stream::data_of_line(line) {
        None => {
            return Ok(());
        },
        Some(data) => data,
    };
    let deltas = match stream::chunk_from(data) {
        None => {
            return Err("provider returned an invalid streaming chunk".to_owned());
        },
        Some(deltas) => deltas,
    };
    let ghost model = text::views(deltas@);
    let ghost before = parts@;
    let mut i: usize = 0;
    while i < deltas.len()
        invariant
            i <= deltas@.len(),
            model == text::views(deltas@),
            parts@ == before.with_all(model.take(i as int)),
            text::views(events@) == told + deltas_events(model.take(i as int)),
        decreases deltas@.len() - i,
    {
        assert(model.take(i as int + 1).drop_last() =~= model.take(i as int));
        assert(model.take(i as int + 1).last() == deltas@[i as int]@);
        parts.apply(&deltas[i], events);
        assert(told + deltas_events(model.take(i as int)) + delta_events(deltas@[i as int]@)
            =~= told + (deltas_events(model.take(i as int)) + delta_events(
            deltas@[i as int]@,
        )));
        i = i + 1;
    }
    assert(model.take(model.len() as int) =~= model);
    Ok(())
}

/// The message that the parts make.
pub open spec fn finished(parts: ChatPartsView) -> AssistantView {
    let (thinking, content) = finalized(parts.thinking, parts.content);
    AssistantView {
        content,
        thinking,
        tool_calls: stream::calls_of(parts.calls),
        provider_state: parts.state(),
        usage: None,
    }
}

/// The message that the parts make.
pub fn finish_message(parts: ChatParts) -> (r: AssistantMessage)
    ensures
        r@ == finished(parts@),
{
    let (thinking, content) = finalize_thinking(parts.thinking, parts.content.as_str());
    let provider_state = parts.provider_state.finish();
    AssistantMessage {
        content,
        thinking,
        tool_calls: parts.tool_calls.into_calls(),
        provider_state,
        usage: None,
    }
}

// ---------------------------------------------------------------------------
// The stream
// ---------------------------------------------------------------------------

/// Incremental parser of a stream. Thinking is told as it arrives: having told
/// any guarantees that the message has thinking. The answer is held back until
/// the end, so that thinking between tags never shows as part of it.
pub struct ChatStreamParser {
    pub parts: ChatParts,
    pub pending: Vec<AgentEvent>,
    pub thinking_emitted: bool,
}

/// What a [`ChatStreamParser`] holds.
#[verifier::ext_equal]
pub struct ChatParserView {
    pub parts: ChatPartsView,
    pub pending: Seq<EventView>,
    pub thinking_emitted: bool,
}

impl View for ChatStreamParser {
    type V = ChatParserView;

    open spec fn view(&self) -> ChatParserView {
        ChatParserView {
            parts: self.parts@,
            pending: text::views(self.pending@),
            thinking_emitted: self.thinking_emitted,
        }
    }
}

pub open spec fn new_chat_parser() -> ChatParserView {
    ChatParserView { parts: empty_parts(), pending: Seq::empty(), thinking_emitted: false }
}

/// The thinking among `events`.
pub open spec fn live_events(events: Seq<EventView>) -> Seq<EventView>
    decreases events.len(),
{
    if events.len() == 0 {
        Seq::empty()
    } else if events.last() is ThinkingDelta {
        live_events(events.drop_last()).push(events.last())
    } else {
        live_events(events.drop_last())
    }
}

/// What is not thinking among `events`.
pub open spec fn held_events(events: Seq<EventView>) -> Seq<EventView>
    decreases events.len(),
{
    if events.len() == 0 {
        Seq::empty()
    } else if events.last() is ThinkingDelta {
        held_events(events.drop_last())
    } else {
        held_events(events.drop_last()).push(events.last())
    }
}

/// Tells the thinking among `parsed` and holds the rest back; says whether
/// there was any thinking.
fn sort_events(
    parsed: Vec<AgentEvent>,
    events: &mut Vec<AgentEvent>,
    pending: &mut Vec<AgentEvent>,
) -> (r: bool)
    ensures
        text::views(final(events)@) == text::views(old(events)@) + live_events(
            text::views(parsed@),
        ),
        text::views(final(pending)@) == text::views(old(pending)@) + held_events(
            text::views(parsed@),
        ),
        r == (live_events(text::views(parsed@)).len() > 0),
{
    let ghost all = text::views(parsed@);
    let ghost told = text::views(events@);
    let ghost held = text::views(pending@);
    let mut parsed = parsed;
    let mut thinking = false;
    let ghost mut done: int = 0;
    assert(told + live_events(all.take(0)) =~= told);
    assert(held + held_events(all.take(0)) =~= held);
    assert(all.skip(0) =~= all);
    while parsed.len() > 0
        invariant
            0 <= done,
            done + parsed@.len() == all.len(),
            text::views(parsed@) == all.skip(done),
            text::views(events@) == told + live_events(all.take(done)),
            text::views(pending@) == held + held_events(all.take(done)),
            thinking == (live_events(all.take(done)).len() > 0),
        decreases parsed@.len(),
    {
        let ghost rest = parsed@;
        let next = parsed.remove(0);
        proof {
            assert(text::views(rest)[0] == all.skip(done)[0]);
            assert(next@ == all[done]);
            assert forall|j: int| 0 <= j < parsed@.len() implies text::views(parsed@)[j]
                == all.skip(done + 1)[j] by {
                assert(parsed@[j] == rest[j + 1]);
                assert(text::views(rest)[j + 1] == all.skip(done)[j + 1]);
            }
            assert(text::views(parsed@) =~= all.skip(done + 1));
            assert(all.take(done + 1).drop_last() =~= all.take(done));
            assert(all.take(done + 1).last() == all[done]);
        }
        let live = match &next {
            AgentEvent::ThinkingDelta { .. } => true,
            _ => false,
        };
        if live {
            thinking = true;
            event::tell(events, next);
            assert(text::views(events@) =~= told + live_events(all.take(done + 1)));
        } else {
            event::tell(pending, next);
            assert(text::views(pending@) =~= held + held_events(all.take(done + 1)));
        }
        proof {
            done = done + 1;
        }
    }
    assert(all.take(all.len() as int) =~= all);
    thinking
}

impl ChatParserView {
    /// This parser after the pieces of a line.
    pub open spec fn with(self, deltas: Seq<DeltaView>) -> ChatParserView {
        let events = deltas_events(deltas);
        ChatParserView {
            parts: self.parts.with_all(deltas),
            pending: self.pending + held_events(events),
            thinking_emitted: self.thinking_emitted || live_events(events).len() > 0,
        }
    }

    /// What is told at the end.
    pub open spec fn closing_events(self) -> Seq<EventView> {
        let message = finished(self.parts);
        match message.thinking {
            Some(thinking) => {
                let thought = if self.thinking_emitted {
                    Seq::empty()
                } else {
                    seq![event::thinking_delta(thinking)]
                };
                if message.content.len() == 0 {
                    thought
                } else {
                    thought.push(event::answer_delta(message.content))
                }
            },
            None => self.pending,
        }
    }
}

proof fn lemma_live_events_join(a: Seq<EventView>, b: Seq<EventView>)
    ensures
        live_events(a + b) == live_events(a) + live_events(b),
    decreases b.len(),
{
    if b.len() == 0 {
        assert(a + b =~= a);
        assert(live_events(a) + live_events(b) =~= live_events(a));
    } else {
        assert((a + b).drop_last() =~= a + b.drop_last());
        lemma_live_events_join(a, b.drop_last());
        assert(live_events(a + b) =~= live_events(a) + live_events(b));
    }
}

/// The thinking only grows, and by something where any is told.
proof fn lemma_told_thinking(parts: ChatPartsView, deltas: Seq<DeltaView>)
    ensures
        parts.with_all(deltas).thinking.len() >= parts.thinking.len(),
        live_events(deltas_events(deltas)).len() > 0 ==> parts.with_all(deltas).thinking.len() > 0,
    decreases deltas.len(),
{
    if deltas.len() > 0 {
        lemma_told_thinking(parts, deltas.drop_last());
        let told = delta_events(deltas.last());
        lemma_live_events_join(deltas_events(deltas.drop_last()), told);
        if delta_thinking(deltas.last()) is None {
            reveal_with_fuel(live_events, 3);
            assert(told.len() <= 1);
            assert(live_events(told).len() == 0);
        }
    }
}

/// Where any thinking was told as it arrived, the message has thinking: the
/// whole of what arrived. What is fed keeps it so.
pub proof fn law_told_thinking_is_kept(parser: ChatParserView, deltas: Seq<DeltaView>)
    requires
        parser.thinking_emitted ==> parser.parts.thinking.len() > 0,
    ensures
        ({
            let next = parser.with(deltas);
            &&& next.thinking_emitted ==> next.parts.thinking.len() > 0
            &&& next.thinking_emitted ==> finished(next.parts).thinking == Some(next.parts.thinking)
        }),
        !new_chat_parser().thinking_emitted,
{
    lemma_told_thinking(parser.parts, deltas);
}

impl ChatStreamParser {
    pub fn new() -> (r: ChatStreamParser)
        ensures
            r@ == new_chat_parser(),
    {
        let r = ChatStreamParser {
            parts: ChatParts::new(),
            pending: Vec::new(),
            thinking_emitted: false,
        };
        assert(r@ =~= new_chat_parser());
        r
    }

    /// Takes in one line of a stream.
    pub fn feed_line(&mut self, line: &[u8], events: &mut Vec<AgentEvent>) -> (r: Result<
        (),
        String,
    >)
        ensures
            match (r, line_deltas(line@)) {
                (Ok(_), Some(deltas)) => {
                    &&& final(self)@ == old(self)@.with(deltas)
                    &&& text::views(final(events)@) == text::views(old(events)@) + live_events(
                        deltas_events(deltas),
                    )
                },
                (Err(message), None) => {
                    &&& message@ == chunk_complaint()
                    &&& final(self)@ == old(self)@
                    &&& text::views(final(events)@) == text::views(old(events)@)
                },
                _ => false,
            },
    {
        let mut parsed: Vec<AgentEvent> = Vec::new();
        assert(text::views(parsed@) =~= Seq::<EventView>::empty());
        match consume_sse_line(line, &mut self.parts, &mut parsed) {
            Err(message) => {
                return Err(message);
            },
            Ok(_) => {},
        }
        assert(text::views(parsed@) =~= deltas_events(line_deltas(line@)->0));
        let thinking = sort_events(parsed, events, &mut self.pending);
        if thinking {
            self.thinking_emitted = true;
        }
        Ok(())
    }

    /// The message, once the stream has ended.
    pub fn finish(self, events: &mut Vec<AgentEvent>) -> (r: AssistantMessage)
        ensures
            r@ == finished(self@.parts),
            text::views(final(events)@) == text::views(old(events)@) + self@.closing_events(),
    {
        let ghost told = text::views(events@);
        let thinking_emitted = self.thinking_emitted;
        let mut pending = self.pending;
        let message = finish_message(self.parts);
        match &message.thinking {
            Some(thinking) => {
                if !thinking_emitted {
                    event::tell(events, AgentEvent::ThinkingDelta { delta: thinking.clone() });
                }
                if text::char_count(message.content.as_str()) > 0 {
                    event::tell(
                        events,
                        AgentEvent::MessageDelta {
                            role: MessageRole::Assistant,
                            delta: message.content.clone(),
                        },
                    );
                }
            },
            None => {
                let ghost held = pending@;
                let ghost sent = events@;
                events.append(&mut pending);
                assert(text::views(sent + held) =~= text::views(sent) + text::views(held));
            },
        }
        assert(text::views(events@) =~= told + self@.closing_events());
        message
    }
}

// ---------------------------------------------------------------------------
// How a message is put together
// ---------------------------------------------------------------------------

/// What pieces bring in one of their fields, in the order in which they came.
pub open spec fn brought(
    deltas: Seq<DeltaView>,
    field: spec_fn(DeltaView) -> Option<Seq<char>>,
) -> Seq<char>
    decreases deltas.len(),
{
    if deltas.len() == 0 {
        Seq::empty()
    } else {
        match field(deltas.last()) {
            Some(piece) => brought(deltas.drop_last(), field) + piece,
            None => brought(deltas.drop_last(), field),
        }
    }
}

/// The pieces of tool calls that pieces of a message bring, in the order in
/// which they came.
pub open spec fn call_pieces(deltas: Seq<DeltaView>) -> Seq<CallDeltaView>
    decreases deltas.len(),
{
    if deltas.len() == 0 {
        Seq::empty()
    } else {
        call_pieces(deltas.drop_last()) + deltas.last().tool_calls
    }
}

/// The thinking of a piece: the first of its fields for it that is there, else
/// the text of its blocks.
pub open spec fn piece_thinking(delta: DeltaView) -> Option<Seq<char>> {
    match (delta.reasoning_content, delta.reasoning, delta.thinking) {
        (Some(s), _, _) => Some(s),
        (None, Some(s), _) => Some(s),
        (None, None, Some(s)) => Some(s),
        (None, None, None) => match (blocks_text(delta.thinking_blocks), blocks_text(
            delta.provider_blocks,
        )) {
            (Some(s), _) => Some(s),
            (None, found) => found,
        },
    }
}

/// `s` has `part` nowhere in it.
pub open spec fn lacks(s: Seq<char>, part: Seq<char>) -> bool {
    forall|i: int| 0 <= i <= s.len() - part.len() ==> #[trigger] s.subrange(i, i + part.len()) != part
}

proof fn lemma_calls_in_turn(
    calls: Seq<(usize, ToolCallView)>,
    a: Seq<CallDeltaView>,
    b: Seq<CallDeltaView>,
)
    ensures
        stream::calls_with_all(stream::calls_with_all(calls, a), b) == stream::calls_with_all(
            calls,
            a + b,
        ),
    decreases b.len(),
{
    if b.len() == 0 {
        assert(a + b =~= a);
    } else {
        assert((a + b).drop_last() =~= a + b.drop_last());
        assert((a + b).last() == b.last());
        lemma_calls_in_turn(calls, a, b.drop_last());
    }
}

proof fn lemma_parts_are_brought(deltas: Seq<DeltaView>)
    ensures
        ({
            let parts = empty_parts().with_all(deltas);
            &&& parts.content == brought(deltas, |d: DeltaView| d.content)
            &&& parts.thinking == brought(deltas, |d: DeltaView| piece_thinking(d))
            &&& parts.calls == stream::calls_with_all(Seq::empty(), call_pieces(deltas))
        }),
    decreases deltas.len(),
{
    let parts = empty_parts().with_all(deltas);
    let said = |d: DeltaView| d.content;
    let thought = |d: DeltaView| piece_thinking(d);
    if deltas.len() > 0 {
        let front = deltas.drop_last();
        let delta = deltas.last();
        lemma_parts_are_brought(front);
        lemma_calls_in_turn(Seq::empty(), call_pieces(front), delta.tool_calls);
        assert(parts.content =~= brought(deltas, said));
        assert(parts.thinking =~= brought(deltas, thought));
    }
}

/// However the pieces of a message come, it has every tool call that they make
/// up: one for each number among them, in rising order of the numbers, with the
/// ID, the name and the arguments that the pieces of this number bring.
pub proof fn law_message_has_every_call(deltas: Seq<DeltaView>) -> (numbers: Seq<usize>)
    ensures
        stream::put_together(
            call_pieces(deltas),
            numbers,
            finished(empty_parts().with_all(deltas)).tool_calls,
        ),
        finished(empty_parts().with_all(deltas)).tool_calls.len() == stream::numbers_of(
            call_pieces(deltas),
        ).len(),
{
    lemma_parts_are_brought(deltas);
    stream::law_pieces_are_put_together(call_pieces(deltas))
}

/// A message without a tag says what its pieces say, one behind the other, and
/// thinks what they think.
pub proof fn law_message_says_what_came(deltas: Seq<DeltaView>)
    requires
        lacks(brought(deltas, |d: DeltaView| d.content), "<think>"@),
    ensures
        ({
            let message = finished(empty_parts().with_all(deltas));
            let thought = brought(deltas, |d: DeltaView| piece_thinking(d));
            &&& message.content == brought(deltas, |d: DeltaView| d.content)
            &&& message.thinking == (if thought.len() > 0 {
                Some(thought)
            } else {
                None
            })
        }),
{
    lemma_parts_are_brought(deltas);
    text::law_find(brought(deltas, |d: DeltaView| d.content), "<think>"@);
}

/// What stands between the first tag and the first that ends it is thinking,
/// where no other was given, and never part of the answer: this is what stands
/// around, without white space at its ends.
pub proof fn law_tagged_thinking_is_taken_out(
    explicit: Seq<char>,
    before: Seq<char>,
    inside: Seq<char>,
    after: Seq<char>,
)
    requires
        text::find(before + "<think>"@ + inside + "</think>"@ + after, "<think>"@) == Some(
            before.len() as int,
        ),
        text::find(inside + "</think>"@ + after, "</think>"@) == Some(inside.len() as int),
    ensures
        ({
            let (thinking, content) = finalized(
                explicit,
                before + "<think>"@ + inside + "</think>"@ + after,
            );
            &&& content == text::trim(before + after)
            &&& explicit.len() > 0 ==> thinking == Some(explicit)
            &&& explicit.len() == 0 && text::blank(inside) ==> thinking is None
            &&& explicit.len() == 0 && !text::blank(inside) ==> thinking == Some(
                text::trim(inside),
            )
        }),
{
    let content = before + "<think>"@ + inside + "</think>"@ + after;
    let open = "<think>"@;
    let close = "</think>"@;
    let rest = content.skip((before + open).len() as int);
    assert(content.take(before.len() as int) =~= before);
    assert(rest =~= inside + close + after);
    assert(rest.take(inside.len() as int) =~= inside);
    assert(rest.skip((inside + close).len() as int) =~= after);
    text::law_trim(inside);
}

/// A text with no tag, or with one that nothing ends, is all answer.
pub proof fn law_untagged_text_is_the_answer(explicit: Seq<char>, content: Seq<char>)
    requires
        lacks(content, "<think>"@) || lacks(content, "</think>"@),
    ensures
        finalized(explicit, content).1 == content,
        finalized(explicit, content).0 == (if explicit.len() > 0 {
            Some(explicit)
        } else {
            None
        }),
{
    let open = "<think>"@;
    let close = "</think>"@;
    text::law_find(content, open);
    if let Some(at) = text::find(content, open) {
        let rest = content.skip(at + open.len());
        text::law_find(rest, close);
        if let Some(i) = text::find(rest, close) {
            let j = at + open.len() + i;
            assert(content.subrange(j, j + close.len()) =~= rest.subrange(i, i + close.len()));
        }
    }
}

/// The text of the answer among events.
pub open spec fn answer_told(events: Seq<EventView>) -> Seq<char>
    decreases events.len(),
{
    if events.len() == 0 {
        Seq::empty()
    } else {
        match events.last() {
            EventView::MessageDelta { delta, .. } => answer_told(events.drop_last()) + delta,
            _ => answer_told(events.drop_last()),
        }
    }
}

/// The text of the thinking among events.
pub open spec fn thinking_told(events: Seq<EventView>) -> Seq<char>
    decreases events.len(),
{
    if events.len() == 0 {
        Seq::empty()
    } else {
        match events.last() {
            EventView::ThinkingDelta { delta } => thinking_told(events.drop_last()) + delta,
            _ => thinking_told(events.drop_last()),
        }
    }
}

pub proof fn lemma_told_in_turn(a: Seq<EventView>, b: Seq<EventView>)
    ensures
        answer_told(a + b) == answer_told(a) + answer_told(b),
        thinking_told(a + b) == thinking_told(a) + thinking_told(b),
    decreases b.len(),
{
    if b.len() == 0 {
        assert(a + b =~= a);
        assert(answer_told(a) + answer_told(b) =~= answer_told(a));
        assert(thinking_told(a) + thinking_told(b) =~= thinking_told(a));
    } else {
        assert((a + b).drop_last() =~= a + b.drop_last());
        assert((a + b).last() == b.last());
        lemma_told_in_turn(a, b.drop_last());
        assert(answer_told(a + b) =~= answer_told(a) + answer_told(b));
        assert(thinking_told(a + b) =~= thinking_told(a) + thinking_told(b));
    }
}

proof fn lemma_told_of_kinds(events: Seq<EventView>)
    ensures
        answer_told(live_events(events)).len() == 0,
        thinking_told(live_events(events)) == thinking_told(events),
        answer_told(held_events(events)) == answer_told(events),
        thinking_told(held_events(events)).len() == 0,
    decreases events.len(),
{
    if events.len() > 0 {
        let front = events.drop_last();
        lemma_told_of_kinds(front);
        let last = events.last();
        if last is ThinkingDelta {
            assert(live_events(events).drop_last() =~= live_events(front));
        } else {
            assert(held_events(events).drop_last() =~= held_events(front));
        }
    }
}

proof fn lemma_told_of_pieces(deltas: Seq<DeltaView>)
    ensures
        answer_told(deltas_events(deltas)) == brought(deltas, |d: DeltaView| d.content),
        thinking_told(deltas_events(deltas)) == brought(
            deltas,
            |d: DeltaView| piece_thinking(d),
        ),
        live_events(deltas_events(deltas)).len() > 0 <==> brought(
            deltas,
            |d: DeltaView| piece_thinking(d),
        ).len() > 0,
    decreases deltas.len(),
{
    let said = |d: DeltaView| d.content;
    let thought = |d: DeltaView| piece_thinking(d);
    if deltas.len() > 0 {
        let front = deltas.drop_last();
        let delta = deltas.last();
        lemma_told_of_pieces(front);
        let before = deltas_events(front);
        let told = delta_events(delta);
        lemma_told_in_turn(before, told);
        lemma_live_events_join(before, told);
        reveal_with_fuel(answer_told, 3);
        reveal_with_fuel(thinking_told, 3);
        reveal_with_fuel(live_events, 3);
        if let Some(s) = delta_thinking(delta) {
            assert(told[0] == event::thinking_delta(s));
            if delta.content is Some {
                assert(told.drop_last() =~= seq![event::thinking_delta(s)]);
                assert(seq![event::thinking_delta(s)].drop_last() =~= Seq::<EventView>::empty());
            } else {
                assert(told.drop_last() =~= Seq::<EventView>::empty());
            }
            assert(thinking_told(told) =~= s);
        } else {
            assert(told.len() <= 1);
            if told.len() > 0 {
                assert(told.drop_last() =~= Seq::<EventView>::empty());
            }
            assert(thinking_told(told).len() == 0);
            assert(live_events(told).len() == 0);
        }
        assert(answer_told(told) =~= stream::or_empty(delta.content));
        assert(answer_told(deltas_events(deltas)) =~= brought(deltas, said));
        assert(thinking_told(deltas_events(deltas)) =~= brought(deltas, thought));
        lemma_some_thinking(front);
    }
}

proof fn lemma_some_thinking(deltas: Seq<DeltaView>)
    ensures
        live_events(deltas_events(deltas)).len() > 0 ==> brought(
            deltas,
            |d: DeltaView| piece_thinking(d),
        ).len() > 0,
    decreases deltas.len(),
{
    lemma_told_thinking(empty_parts(), deltas);
    lemma_parts_are_brought(deltas);
}

/// What was told of a message without tags is the message: the parts of its
/// answer come to its content, and those of its thinking to its thinking.
pub proof fn law_told_is_the_message(deltas: Seq<DeltaView>)
    requires
        lacks(brought(deltas, |d: DeltaView| d.content), "<think>"@),
    ensures
        ({
            let parser = new_chat_parser().with(deltas);
            let message = finished(parser.parts);
            let events = live_events(deltas_events(deltas)) + parser.closing_events();
            &&& answer_told(events) == message.content
            &&& thinking_told(events) == stream::or_empty(message.thinking)
        }),
{
    let parser = new_chat_parser().with(deltas);
    let message = finished(parser.parts);
    let told = deltas_events(deltas);
    let closing = parser.closing_events();
    law_message_says_what_came(deltas);
    lemma_told_of_pieces(deltas);
    lemma_told_of_kinds(told);
    lemma_told_in_turn(live_events(told), closing);
    reveal_with_fuel(answer_told, 3);
    reveal_with_fuel(thinking_told, 3);
    if message.thinking is Some {
        assert(parser.thinking_emitted);
        if message.content.len() == 0 {
            assert(closing =~= Seq::<EventView>::empty());
        } else {
            assert(closing =~= seq![event::answer_delta(message.content)]);
            assert(closing.drop_last() =~= Seq::<EventView>::empty());
        }
        assert(answer_told(closing) =~= message.content);
    } else {
        assert(closing =~= held_events(told));
    }
    let events = live_events(told) + closing;
    assert(answer_told(events) =~= message.content);
    assert(thinking_told(events) =~= stream::or_empty(message.thinking));
}

proof fn lemma_held_events_join(a: Seq<EventView>, b: Seq<EventView>)
    ensures
        held_events(a + b) == held_events(a) + held_events(b),
    decreases b.len(),
{
    if b.len() == 0 {
        assert(a + b =~= a);
        assert(held_events(a) + held_events(b) =~= held_events(a));
    } else {
        assert((a + b).drop_last() =~= a + b.drop_last());
        lemma_held_events_join(a, b.drop_last());
        assert(held_events(a + b) =~= held_events(a) + held_events(b));
    }
}

/// It is one and the same whether pieces come on one line or on several: the
/// parser holds the same, and the same thinking is told.
pub proof fn law_lines_come_to_the_same(
    parser: ChatParserView,
    a: Seq<DeltaView>,
    b: Seq<DeltaView>,
)
    ensures
        parser.with(a).with(b) == parser.with(a + b),
        live_events(deltas_events(a + b)) == live_events(deltas_events(a)) + live_events(
            deltas_events(b),
        ),
    decreases b.len(),
{
    if b.len() == 0 {
        assert(a + b =~= a);
        assert(parser.with(a).with(b) =~= parser.with(a));
        assert(live_events(deltas_events(a)) + live_events(deltas_events(b)) =~= live_events(
            deltas_events(a),
        ));
    } else {
        let front = b.drop_last();
        law_lines_come_to_the_same(parser, a, front);
        assert((a + b).drop_last() =~= a + front);
        assert((a + b).last() == b.last());
        let last = delta_events(b.last());
        lemma_live_events_join(deltas_events(a + front), last);
        lemma_held_events_join(deltas_events(a + front), last);
        lemma_live_events_join(deltas_events(front), last);
        lemma_held_events_join(deltas_events(front), last);
        let joined = parser.with(a + b);
        let turns = parser.with(a).with(b);
        assert(parser.with(a).with(front) == parser.with(a + front));
        assert(joined.parts == turns.parts);
        let more = held_events(last);
        assert(joined.pending =~= parser.with(a + front).pending + more);
        assert(turns.pending =~= parser.with(a).with(front).pending + more);
        assert(live_events(deltas_events(a + b)) =~= live_events(deltas_events(a)) + live_events(
            deltas_events(b),
        ));
    }
}

} // verus!
