//! The body of a response: what kind it is, what it says, and what it used.
use crate::agent::event;
use crate::agent::event::AgentEvent;
use crate::agent::event::EventView;
use crate::agent::event::MessageRole;
use crate::agent::message;
use crate::agent::message::AssistantMessage;
use crate::agent::message::AssistantView;
use crate::agent::message::CompletionUsage;
use crate::agent::message::MessageView;
use crate::agent::message::ToolCall;
use crate::agent::message::ToolCallView;
use crate::json;
use crate::json::Json;
use crate::json::JsonView;
use crate::provider;
use crate::provider::chat;
use crate::provider::models_dev;
use crate::provider::models_dev::NameSet;
use crate::provider::responses;
use crate::provider::sse;
use crate::provider::sse::Outcome;
use crate::provider::sse::SseParser;
use crate::provider::sse::SseRun;
use crate::provider::stream;
use crate::provider::wire;
use crate::provider::OpenAiApi;
use crate::text;
use vstd::prelude::*;
use vstd::slice::slice_subrange;
use vstd::string::*;
use vstd::utf8::*;

verus! {

// ---------------------------------------------------------------------------
// Bytes
// ---------------------------------------------------------------------------

/// Space, tab, line feed, form feed or carriage return.
pub open spec fn is_blank_byte(byte: u8) -> bool {
    byte == 0x20u8 || byte == 0x09u8 || byte == 0x0au8 || byte == 0x0cu8 || byte == 0x0du8
}

fn blank_byte(byte: u8) -> (r: bool)
    ensures
        r == is_blank_byte(byte),
{
    byte == 0x20 || byte == 0x09 || byte == 0x0a || byte == 0x0c || byte == 0x0d
}

/// The first byte that is not blank.
pub open spec fn first_solid(body: Seq<u8>) -> Option<u8>
    decreases body.len(),
{
    if body.len() == 0 {
        None
    } else if is_blank_byte(body[0]) {
        first_solid(body.skip(1))
    } else {
        Some(body[0])
    }
}

/// A body without the blank bytes at its start.
pub open spec fn trim_blank_start(line: Seq<u8>) -> Seq<u8>
    decreases line.len(),
{
    if line.len() > 0 && is_blank_byte(line[0]) {
        trim_blank_start(line.skip(1))
    } else {
        line
    }
}

/// Where the blank bytes at the start of a body end.
fn blank_end(line: &[u8]) -> (r: usize)
    ensures
        r <= line@.len(),
        trim_blank_start(line@) == line@.skip(r as int),
        first_solid(line@) == if r < line@.len() {
            Some(line@[r as int])
        } else {
            None
        },
{
    let mut i: usize = 0;
    assert(line@.skip(0) =~= line@);
    while i < line.len() && blank_byte(line[i])
        invariant
            i <= line@.len(),
            trim_blank_start(line@) == trim_blank_start(line@.skip(i as int)),
            first_solid(line@) == first_solid(line@.skip(i as int)),
        decreases line@.len() - i,
    {
        assert(line@.skip(i as int)[0] == line@[i as int]);
        assert(line@.skip(i as int).skip(1) =~= line@.skip(i as int + 1));
        i = i + 1;
    }
    if i < line.len() {
        assert(line@.skip(i as int)[0] == line@[i as int]);
    }
    i
}

/// Whether a line carries data, whatever blank bytes stand before it.
pub open spec fn is_sse_line(line: Seq<u8>) -> bool {
    stream::has_data_prefix(trim_blank_start(line))
}

/// Whether a line of a body carries data.
pub open spec fn looks_like_sse(body: Seq<u8>) -> bool {
    exists|i: int|
        0 <= i < stream::byte_lines(body).len() && is_sse_line(
            #[trigger] stream::byte_lines(body)[i],
        )
}

/// A body without a byte order mark.
pub open spec fn without_bom(body: Seq<u8>) -> Seq<u8> {
    if body.len() >= 3 && body[0] == 0xefu8 && body[1] == 0xbbu8 && body[2] == 0xbfu8 {
        body.skip(3)
    } else {
        body
    }
}

pub fn strip_utf8_bom(body: &[u8]) -> (r: &[u8])
    ensures
        r@ == without_bom(body@),
{
    if body.len() >= 3 && body[0] == 0xef && body[1] == 0xbb && body[2] == 0xbf {
        let r = slice_subrange(body, 3, body.len());
        assert(r@ =~= body@.skip(3));
        r
    } else {
        body
    }
}

/// The lines of a body.
pub fn split_lines(body: &[u8]) -> (r: Vec<Vec<u8>>)
    ensures
        text::views(r@) == stream::byte_lines(body@),
{
    let mut lines: Vec<Vec<u8>> = Vec::new();
    let mut line: Vec<u8> = Vec::new();
    let mut i: usize = 0;
    assert(body@.take(0) =~= Seq::<u8>::empty());
    assert(text::views(lines@).push(line@) =~= stream::byte_lines(body@.take(0)));
    while i < body.len()
        invariant
            i <= body@.len(),
            text::views(lines@).push(line@) == stream::byte_lines(body@.take(i as int)),
        decreases body@.len() - i,
    {
        let ghost so_far = stream::byte_lines(body@.take(i as int));
        assert(body@.take(i as int + 1).drop_last() =~= body@.take(i as int));
        assert(body@.take(i as int + 1).last() == body@[i as int]);
        assert(so_far.last() == line@);
        let byte: u8 = body[i];
        if byte == 0x0a {
            proof {
                text::lemma_views_push(lines@, line);
            }
            lines.push(line);
            line = Vec::new();
            assert(text::views(lines@).push(line@) =~= so_far.push(Seq::<u8>::empty()));
        } else {
            let ghost before = line@;
            line.push(byte);
            assert(text::views(lines@).push(line@) =~= so_far.update(
                so_far.len() - 1,
                before.push(byte),
            ));
        }
        i = i + 1;
    }
    assert(body@.take(body@.len() as int) =~= body@);
    proof {
        text::lemma_views_push(lines@, line);
    }
    lines.push(line);
    lines
}

/// Whether a line of a body carries data.
pub fn body_looks_like_sse(body: &[u8]) -> (r: bool)
    ensures
        r == looks_like_sse(body@),
{
    let lines = split_lines(body);
    let ghost model = stream::byte_lines(body@);
    let mut i: usize = 0;
    while i < lines.len()
        invariant
            i <= lines@.len(),
            model == stream::byte_lines(body@),
            text::views(lines@) == model,
            forall|j: int| 0 <= j < i ==> !is_sse_line(#[trigger] model[j]),
        decreases lines@.len() - i,
    {
        assert(model[i as int] == lines@[i as int]@);
        let line = lines[i].as_slice();
        let start: usize = blank_end(line);
        let rest = slice_subrange(line, start, line.len());
        assert(rest@ =~= line@.skip(start as int));
        if stream::starts_with_data(rest) {
            assert(is_sse_line(stream::byte_lines(body@)[i as int]));
            return true;
        }
        i = i + 1;
    }
    false
}

// ---------------------------------------------------------------------------
// Showing a body
// ---------------------------------------------------------------------------

/// What `String::from_utf8_lossy` makes of bytes.
pub uninterp spec fn lossy_text(bytes: Seq<u8>) -> Seq<char>;

/// `String::from_utf8_lossy`: the text of the bytes, with replacement
/// characters where they are no UTF-8; bytes that are UTF-8 give just their
/// text.
#[verifier::external_body]
pub(crate) fn lossy(bytes: &[u8]) -> (r: String)
    ensures
        r@ == lossy_text(bytes@),
        valid_utf8(bytes@) ==> encode_utf8(r@) == bytes@,
{
    String::from_utf8_lossy(bytes).into_owned()
}

/// A line break as the two characters that stand for it.
pub open spec fn shown_char(c: char) -> Seq<char> {
    if c == '\r' {
        "\\r"@
    } else if c == '\n' {
        "\\n"@
    } else {
        seq![c]
    }
}

pub open spec fn shown_chars(s: Seq<char>) -> Seq<char>
    decreases s.len(),
{
    if s.len() == 0 {
        Seq::empty()
    } else {
        shown_chars(s.drop_last()) + shown_char(s.last())
    }
}

pub const MAX_PREVIEW_CHARS: usize = 500;

/// The start of a body, as it is shown in a message.
pub open spec fn preview_of(body: Seq<u8>) -> Seq<char> {
    let all = lossy_text(body);
    let shown = shown_chars(text::take_chars(all, MAX_PREVIEW_CHARS as int));
    "body preview: "@ + text::debug_quoted(
        if all.len() > MAX_PREVIEW_CHARS {
            shown.push('…')
        } else {
            shown
        },
    )
}

fn show_breaks(s: &str) -> (r: String)
    ensures
        r@ == shown_chars(s@),
{
    let chars = text::chars_of(s);
    let mut r = chat::empty_text();
    let mut i: usize = 0;
    assert(s@.take(0) =~= Seq::<char>::empty());
    while i < chars.len()
        invariant
            i <= chars@.len(),
            chars@ == s@,
            r@ == shown_chars(s@.take(i as int)),
        decreases chars@.len() - i,
    {
        assert(s@.take(i as int + 1).drop_last() =~= s@.take(i as int));
        assert(s@.take(i as int + 1).last() == s@[i as int]);
        let c = chars[i];
        if c == '\r' {
            r.append("\\r");
        } else if c == '\n' {
            r.append("\\n");
        } else {
            let ghost before = r@;
            r.push(c);
            assert(r@ =~= before + seq![c]);
        }
        i = i + 1;
    }
    assert(s@.take(s@.len() as int) =~= s@);
    r
}

/// The start of a body, as it is shown in a message.
pub fn body_preview(body: &[u8]) -> (r: String)
    ensures
        r@ == preview_of(body@),
{
    let all = lossy(body);
    let start = text::take_of(all.as_str(), MAX_PREVIEW_CHARS);
    let mut preview = show_breaks(start.as_str());
    if text::char_count(all.as_str()) > MAX_PREVIEW_CHARS {
        preview.push('…');
    }
    let quoted = text::debug_text(preview.as_str());
    text::concat("body preview: ", quoted.as_str())
}

// ---------------------------------------------------------------------------
// Chat Completions, not streamed
// ---------------------------------------------------------------------------

/// A message as Chat Completions gives it.
pub struct ChatMessage {
    pub content: Option<String>,
    pub reasoning: Option<String>,
    pub reasoning_details: Option<Json>,
    pub thinking_blocks: Option<Json>,
    pub tool_calls: Vec<ToolCall>,
}

/// What a [`ChatMessage`] holds.
pub struct ChatMessageView {
    pub content: Option<Seq<char>>,
    pub reasoning: Option<Seq<char>>,
    pub reasoning_details: Option<JsonView>,
    pub thinking_blocks: Option<JsonView>,
    pub tool_calls: Seq<ToolCallView>,
}

impl View for ChatMessage {
    type V = ChatMessageView;

    open spec fn view(&self) -> ChatMessageView {
        ChatMessageView {
            content: text::opt(self.content),
            reasoning: text::opt(self.reasoning),
            reasoning_details: text::opt(self.reasoning_details),
            thinking_blocks: text::opt(self.thinking_blocks),
            tool_calls: text::views(self.tool_calls@),
        }
    }
}

/// The value under `key`, where it is there and not null.
pub open spec fn value_at(value: JsonView, key: Seq<char>) -> Option<JsonView> {
    match value.get(key) {
        None => None,
        Some(JsonView::Null) => None,
        Some(found) => Some(found),
    }
}

pub open spec fn chat_call_of(value: JsonView) -> Option<ToolCallView> {
    let value = value.seated(seq!["id", "function"], 2);
    match (value.need_text("id"@), value.get("function"@)) {
        (Some(id), Some(function)) => {
            let function = function.seated(seq!["name", "arguments"], 2);
            match (function.need_text("name"@), function.need_text("arguments"@)) {
                (Some(name), Some(arguments)) => Some(ToolCallView { id, name, arguments }),
                _ => None,
            }
        },
        _ => None,
    }
}

pub open spec fn chat_calls_of(items: Seq<JsonView>) -> Option<Seq<ToolCallView>>
    decreases items.len(),
{
    if items.len() == 0 {
        Some(Seq::empty())
    } else {
        match (chat_calls_of(items.drop_last()), chat_call_of(items.last())) {
            (Some(calls), Some(call)) => Some(calls.push(call)),
            _ => None,
        }
    }
}

/// The fields of a message of Chat Completions.
pub open spec fn chat_message_names() -> Seq<&'static str> {
    seq![
        "content",
        "reasoning_content",
        "reasoning",
        "thinking",
        "reasoning_details",
        "thinking_blocks",
        "tool_calls",
    ]
}

pub open spec fn chat_message_of(value: JsonView) -> Option<ChatMessageView> {
    let value = value.seated(chat_message_names(), 6);
    let calls = match value.get("tool_calls"@) {
        None => Some(Seq::empty()),
        Some(JsonView::Array(items)) => chat_calls_of(items),
        Some(_) => None,
    };
    match (
        value is Object,
        value.maybe_text("content"@),
        value.maybe_text("reasoning_content"@),
        value.maybe_text("reasoning"@),
        value.maybe_text("thinking"@),
        calls,
    ) {
        (
            true,
            Some(content),
            Some(reasoning_content),
            Some(reasoning),
            Some(thinking),
            Some(tool_calls),
        ) => Some(
            ChatMessageView {
                content,
                reasoning: match reasoning_content {
                    Some(s) => Some(s),
                    None => match reasoning {
                        Some(s) => Some(s),
                        None => thinking,
                    },
                },
                reasoning_details: value_at(value, "reasoning_details"@),
                thinking_blocks: value_at(value, "thinking_blocks"@),
                tool_calls,
            },
        ),
        _ => None,
    }
}

pub open spec fn choice_message_of(choice: JsonView) -> Option<ChatMessageView> {
    match choice.seated(seq!["message"], 1).get("message"@) {
        Some(message) => chat_message_of(message),
        None => None,
    }
}

pub open spec fn choice_messages_of(items: Seq<JsonView>) -> Option<Seq<ChatMessageView>>
    decreases items.len(),
{
    if items.len() == 0 {
        Some(Seq::empty())
    } else {
        match (choice_messages_of(items.drop_last()), choice_message_of(items.last())) {
            (Some(messages), Some(message)) => Some(messages.push(message)),
            _ => None,
        }
    }
}

/// The messages that a body offers, where it is a response at all.
pub open spec fn chat_choices(body: Seq<u8>) -> Option<Seq<ChatMessageView>> {
    match json::parsed_json(body) {
        Ok(value) => match value.seated(seq!["choices"], 1).get("choices"@) {
            Some(JsonView::Array(items)) => choice_messages_of(items),
            _ => None,
        },
        Err(_) => None,
    }
}

/// The blocks of thinking, where they are a list.
pub open spec fn blocks_in(value: Option<JsonView>) -> Option<Seq<JsonView>> {
    match value {
        Some(JsonView::Array(blocks)) => Some(blocks),
        _ => None,
    }
}

/// The message that a message of Chat Completions stands for.
pub open spec fn chat_answer(message: ChatMessageView) -> AssistantView {
    let explicit = match message.reasoning {
        Some(s) => s,
        None => stream::or_empty(chat::blocks_text(blocks_in(message.thinking_blocks))),
    };
    let (thinking, content) = chat::finalized(explicit, stream::or_empty(message.content));
    AssistantView {
        content,
        thinking,
        tool_calls: message.tool_calls,
        provider_state: chat::state_of(
            chat::state_fields(
                match message.reasoning {
                    Some(s) => Some(JsonView::Text(s)),
                    None => None,
                },
                message.reasoning_details,
                message.thinking_blocks,
            ),
        ),
        usage: None,
    }
}

/// What is told of a message that came whole.
pub open spec fn answer_events(message: AssistantView) -> Seq<EventView> {
    responses::output_events(message, false)
}

/// What a body of Chat Completions comes to that is not streamed.
pub open spec fn chat_outcome(body: Seq<u8>) -> Outcome {
    match chat_choices(body) {
        None => Outcome {
            events: Seq::empty(),
            result: Err("provider returned invalid OpenAI JSON: "@ + preview_of(body)),
        },
        Some(messages) => if messages.len() == 0 {
            Outcome {
                events: Seq::empty(),
                result: Err("provider response contained no choices"@),
            }
        } else {
            Outcome {
                events: answer_events(chat_answer(messages[0])),
                result: Ok(chat_answer(messages[0])),
            }
        },
    }
}

fn value_from(value: &Json, key: &str) -> (r: Option<Json>)
    ensures
        text::opt(r) == value_at(value@, key@),
{
    match value.get(key) {
        None => None,
        Some(Json::Null) => None,
        Some(found) => Some(found.copy()),
    }
}

fn chat_call_from(value: &Json) -> (r: Option<ToolCall>)
    ensures
        text::opt(r) == chat_call_of(value@),
{
    let names: Vec<&'static str> = vec!["id", "function"];
    assert(names@ =~= seq!["id", "function"]);
    let seat = value.seat(&names, 2);
    let value = match &seat {
        Some(seat) => seat,
        None => value,
    };
    match (value.need_text("id"), value.get("function")) {
        (Some(id), Some(function)) => {
            let names: Vec<&'static str> = vec!["name", "arguments"];
            assert(names@ =~= seq!["name", "arguments"]);
            let seat = function.seat(&names, 2);
            let function = match &seat {
                Some(seat) => seat,
                None => function,
            };
            match (function.need_text("name"), function.need_text("arguments")) {
                (Some(name), Some(arguments)) => Some(ToolCall { id, name, arguments }),
                _ => None,
            }
        },
        _ => None,
    }
}

fn chat_calls_from(items: &Vec<Json>) -> (r: Option<Vec<ToolCall>>)
    ensures
        match r {
            Some(calls) => chat_calls_of(json::items_view(items@)) == Some(text::views(calls@)),
            None => chat_calls_of(json::items_view(items@)) is None,
        },
{
    let ghost model = json::items_view(items@);
    proof {
        json::lemma_items_view(items@);
    }
    let mut calls: Vec<ToolCall> = Vec::new();
    let mut sound = true;
    let mut i: usize = 0;
    assert(text::views(calls@) =~= Seq::<ToolCallView>::empty());
    while i < items.len()
        invariant
            i <= items@.len(),
            model.len() == items@.len(),
            forall|j: int| 0 <= j < items@.len() ==> #[trigger] model[j] == items@[j]@,
            sound ==> chat_calls_of(model.take(i as int)) == Some(text::views(calls@)),
            !sound ==> chat_calls_of(model.take(i as int)) is None,
        decreases items@.len() - i,
    {
        assert(model.take(i as int + 1).drop_last() =~= model.take(i as int));
        assert(model.take(i as int + 1).last() == items@[i as int]@);
        match chat_call_from(&items[i]) {
            None => {
                sound = false;
            },
            Some(call) => {
                proof {
                    text::lemma_views_push(calls@, call);
                }
                calls.push(call);
            },
        }
        i = i + 1;
    }
    assert(model.take(model.len() as int) =~= model);
    if sound {
        Some(calls)
    } else {
        None
    }
}

fn chat_message_from(value: &Json) -> (r: Option<ChatMessage>)
    ensures
        text::opt(r) == chat_message_of(value@),
{
    let names: Vec<&'static str> = vec![
        "content",
        "reasoning_content",
        "reasoning",
        "thinking",
        "reasoning_details",
        "thinking_blocks",
        "tool_calls",
    ];
    assert(names@ =~= chat_message_names());
    let seat = value.seat(&names, 6);
    let value = match &seat {
        Some(seat) => seat,
        None => value,
    };
    match value {
        Json::Object(_) => {},
        _ => {
            return None;
        },
    }
    let tool_calls = match value.get("tool_calls") {
        None => {
            let calls: Vec<ToolCall> = Vec::new();
            assert(text::views(calls@) =~= Seq::<ToolCallView>::empty());
            calls
        },
        Some(Json::Array(items)) => match chat_calls_from(items) {
            Some(calls) => calls,
            None => {
                return None;
            },
        },
        Some(_) => {
            return None;
        },
    };
    match (
        value.maybe_text("content"),
        value.maybe_text("reasoning_content"),
        value.maybe_text("reasoning"),
        value.maybe_text("thinking"),
    ) {
        (Some(content), Some(reasoning_content), Some(reasoning), Some(thinking)) => Some(
            ChatMessage {
                content,
                reasoning: match reasoning_content {
                    Some(s) => Some(s),
                    None => match reasoning {
                        Some(s) => Some(s),
                        None => thinking,
                    },
                },
                reasoning_details: value_from(value, "reasoning_details"),
                thinking_blocks: value_from(value, "thinking_blocks"),
                tool_calls,
            },
        ),
        _ => None,
    }
}

fn choice_messages_from(items: &Vec<Json>) -> (r: Option<Vec<ChatMessage>>)
    ensures
        match r {
            Some(messages) => choice_messages_of(json::items_view(items@)) == Some(
                text::views(messages@),
            ),
            None => choice_messages_of(json::items_view(items@)) is None,
        },
{
    let ghost model = json::items_view(items@);
    proof {
        json::lemma_items_view(items@);
    }
    let mut messages: Vec<ChatMessage> = Vec::new();
    let mut sound = true;
    let mut i: usize = 0;
    assert(text::views(messages@) =~= Seq::<ChatMessageView>::empty());
    while i < items.len()
        invariant
            i <= items@.len(),
            model.len() == items@.len(),
            forall|j: int| 0 <= j < items@.len() ==> #[trigger] model[j] == items@[j]@,
            sound ==> choice_messages_of(model.take(i as int)) == Some(text::views(messages@)),
            !sound ==> choice_messages_of(model.take(i as int)) is None,
        decreases items@.len() - i,
    {
        assert(model.take(i as int + 1).drop_last() =~= model.take(i as int));
        assert(model.take(i as int + 1).last() == items@[i as int]@);
        let names: Vec<&'static str> = vec!["message"];
        assert(names@ =~= seq!["message"]);
        let seat = items[i].seat(&names, 1);
        let choice = match &seat {
            Some(seat) => seat,
            None => &items[i],
        };
        let found = match choice.get("message") {
            Some(message) => chat_message_from(message),
            None => None,
        };
        assert(text::opt(found) == choice_message_of(items@[i as int]@));
        match found {
            None => {
                sound = false;
            },
            Some(message) => {
                proof {
                    text::lemma_views_push(messages@, message);
                }
                messages.push(message);
            },
        }
        i = i + 1;
    }
    assert(model.take(model.len() as int) =~= model);
    if sound {
        Some(messages)
    } else {
        None
    }
}

fn choices_from(body: &[u8]) -> (r: Option<Vec<ChatMessage>>)
    ensures
        match r {
            Some(messages) => chat_choices(body@) == Some(text::views(messages@)),
            None => chat_choices(body@) is None,
        },
{
    match json::parse_json(body) {
        Err(_) => None,
        Ok(value) => {
            let names: Vec<&'static str> = vec!["choices"];
            assert(names@ =~= seq!["choices"]);
            let seat = value.seat(&names, 1);
            let value = match &seat {
                Some(seat) => seat,
                None => &value,
            };
            match value.get("choices") {
                Some(Json::Array(items)) => choice_messages_from(items),
                _ => None,
            }
        },
    }
}

fn chat_answer_from(message: &ChatMessage) -> (r: AssistantMessage)
    ensures
        r@ == chat_answer(message@),
{
    let explicit = match &message.reasoning {
        Some(s) => s.clone(),
        None => match &message.thinking_blocks {
            Some(Json::Array(blocks)) => match chat::thinking_text_from_blocks(blocks) {
                Some(s) => s,
                None => chat::empty_text(),
            },
            _ => chat::empty_text(),
        },
    };
    let said = match &message.content {
        Some(s) => s.clone(),
        None => chat::empty_text(),
    };
    let (thinking, content) = chat::finalize_thinking(explicit, said.as_str());
    let mut fields: Vec<(String, Json)> = Vec::new();
    let state_reasoning = match &message.reasoning {
        Some(s) => Some(Json::Text(s.clone())),
        None => None,
    };
    json::push_maybe(&mut fields, "reasoning_content", state_reasoning);
    json::push_maybe(
        &mut fields,
        "reasoning_details",
        message::copy_json(&message.reasoning_details),
    );
    json::push_maybe(
        &mut fields,
        "thinking_blocks",
        message::copy_json(&message.thinking_blocks),
    );
    proof {
        json::lemma_fields_view(fields@);
    }
    let provider_state = if fields.len() == 0 {
        None
    } else {
        Some(Json::Object(fields))
    };
    AssistantMessage {
        content,
        thinking,
        tool_calls: message::copy_calls(&message.tool_calls),
        provider_state,
        usage: None,
    }
}

/// Tells of a message that came whole.
fn tell_answer(message: &AssistantMessage, events: &mut Vec<AgentEvent>)
    ensures
        text::views(final(events)@) == text::views(old(events)@) + answer_events(message@),
{
    let ghost told = text::views(events@);
    match &message.thinking {
        Some(thinking) => {
            event::tell(events, AgentEvent::ThinkingDelta { delta: thinking.clone() });
        },
        None => {},
    }
    if text::char_count(message.content.as_str()) > 0 {
        event::tell(
            events,
            AgentEvent::MessageDelta {
                role: MessageRole::Assistant,
                delta: message.content.clone(),
            },
        );
    }
    assert(text::views(events@) =~= told + answer_events(message@));
}

/// Takes in a body of Chat Completions that is not streamed.
pub fn parse_chat_non_stream_body(body: &[u8], events: &mut Vec<AgentEvent>) -> (r: Result<
    AssistantMessage,
    String,
>)
    ensures
        text::res(r) == chat_outcome(body@).result,
        text::views(final(events)@) == text::views(old(events)@) + chat_outcome(body@).events,
{
    let ghost told = text::views(events@);
    assert(told + Seq::<EventView>::empty() =~= told);
    match choices_from(body) {
        None => {
            let preview = body_preview(body);
            Err(text::concat("provider returned invalid OpenAI JSON: ", preview.as_str()))
        },
        Some(messages) => {
            if messages.len() == 0 {
                return Err("provider response contained no choices".to_owned());
            }
            assert(text::views(messages@)[0] == messages@[0]@);
            let message = chat_answer_from(&messages[0]);
            tell_answer(&message, events);
            Ok(message)
        },
    }
}

// ---------------------------------------------------------------------------
// Responses, not streamed
// ---------------------------------------------------------------------------

/// What a body of Responses says: its output, and what went wrong.
pub open spec fn response_in(body: Seq<u8>) -> Option<(Seq<JsonView>, Option<Seq<char>>)> {
    match json::parsed_json(body) {
        Err(_) => None,
        Ok(value) => {
            let value = value.seated(seq!["output", "error"], 2);
            let output = match value.get("output"@) {
                None => Some(Seq::empty()),
                Some(JsonView::Array(items)) => Some(items),
                Some(_) => None,
            };
            let error = match value.get("error"@) {
                None => Some(None),
                Some(JsonView::Null) => Some(None),
                Some(error) => match error.seated(seq!["message"], 1).need_text("message"@) {
                    Some(message) => Some(Some(message)),
                    None => None,
                },
            };
            match (value is Object, output, error) {
                (true, Some(output), Some(error)) => Some((output, error)),
                _ => None,
            }
        },
    }
}

/// What a body of Responses comes to that is not streamed.
pub open spec fn responses_outcome(body: Seq<u8>) -> Outcome {
    match response_in(body) {
        None => Outcome {
            events: Seq::empty(),
            result: Err("provider returned invalid Responses API JSON: "@ + preview_of(body)),
        },
        Some((_, Some(message))) => Outcome {
            events: Seq::empty(),
            result: Err("Responses API returned an error: "@ + message),
        },
        Some((output, None)) => match responses::output_of(output) {
            Err(complaint) => Outcome { events: Seq::empty(), result: Err(complaint) },
            Ok(said) => {
                let message = responses::output_message(said, output);
                Outcome { events: answer_events(message), result: Ok(message) }
            },
        },
    }
}

fn response_from(body: &[u8]) -> (r: Option<(Vec<Json>, Option<String>)>)
    ensures
        match r {
            Some((output, error)) => response_in(body@) == Some(
                (json::items_view(output@), text::opt(error)),
            ),
            None => response_in(body@) is None,
        },
{
    match json::parse_json(body) {
        Err(_) => None,
        Ok(value) => {
            let names: Vec<&'static str> = vec!["output", "error"];
            assert(names@ =~= seq!["output", "error"]);
            let seat = value.seat(&names, 2);
            let value = match &seat {
                Some(seat) => seat,
                None => &value,
            };
            match value {
                Json::Object(_) => {},
                _ => {
                    return None;
                },
            }
            let output: Vec<Json> = match value.get("output") {
                None => Vec::new(),
                Some(Json::Array(items)) => json::copy_items(items),
                Some(_) => {
                    return None;
                },
            };
            let error: Option<String> = match value.get("error") {
                None => None,
                Some(Json::Null) => None,
                Some(error) => {
                    let names: Vec<&'static str> = vec!["message"];
                    assert(names@ =~= seq!["message"]);
                    let seat = error.seat(&names, 1);
                    let error = match &seat {
                        Some(seat) => seat,
                        None => error,
                    };
                    match error.need_text("message") {
                        Some(message) => Some(message),
                        None => {
                            return None;
                        },
                    }
                },
            };
            Some((output, error))
        },
    }
}

/// Takes in a body of Responses that is not streamed.
pub fn parse_responses_non_stream_body(body: &[u8], events: &mut Vec<AgentEvent>) -> (r: Result<
    AssistantMessage,
    String,
>)
    ensures
        text::res(r) == responses_outcome(body@).result,
        text::views(final(events)@) == text::views(old(events)@) + responses_outcome(body@).events,
{
    let ghost told = text::views(events@);
    assert(told + Seq::<EventView>::empty() =~= told);
    match response_from(body) {
        None => {
            let preview = body_preview(body);
            Err(text::concat("provider returned invalid Responses API JSON: ", preview.as_str()))
        },
        Some((output, error)) => {
            match error {
                Some(message) => {
                    return Err(
                        text::concat("Responses API returned an error: ", message.as_str()),
                    );
                },
                None => {},
            }
            responses::finish_responses_message(output, events, false)
        },
    }
}

// ---------------------------------------------------------------------------
// Any body
// ---------------------------------------------------------------------------

pub open spec fn event_stream_type() -> Seq<char> {
    "text/event-stream"@
}

/// What is told after `told` was.
pub open spec fn after(told: Seq<EventView>, outcome: Outcome) -> Outcome {
    Outcome { events: told + outcome.events, result: outcome.result }
}

pub open spec fn empty_body_complaint(api: OpenAiApi) -> Seq<char> {
    "provider returned an empty response body; expected OpenAI JSON or SSE from the configured /"@
        + provider::api_endpoint(api) + " endpoint"@
}

pub open spec fn shown_content_type(content_type: Seq<char>) -> Seq<char> {
    if content_type.len() == 0 {
        "<missing>"@
    } else {
        content_type
    }
}

/// Whether a body is a stream, by its type or by its lines.
pub open spec fn is_stream(body: Seq<u8>, content_type: Seq<char>) -> bool {
    text::contains(content_type, event_stream_type()) || looks_like_sse(body)
}

/// Whether a body is JSON, by its type or by its first byte.
pub open spec fn is_json(body: Seq<u8>, content_type: Seq<char>) -> bool {
    text::contains(content_type, "json"@) || first_solid(body) == Some(0x7bu8) || first_solid(body)
        == Some(0x5bu8)
}

/// What a body comes to that is taken in whole, after `told` was told.
pub open spec fn body_outcome(
    told: Seq<EventView>,
    body: Seq<u8>,
    content_type: Seq<char>,
    api: OpenAiApi,
) -> Outcome {
    let body = without_bom(body);
    if first_solid(body) is None {
        Outcome { events: told, result: Err(empty_body_complaint(api)) }
    } else if is_stream(body, content_type) {
        sse::run_outcome(
            sse::run_lines(
                SseRun { parser: sse::new_parser(api), events: told },
                stream::byte_lines(body),
            ),
        )
    } else if is_json(body, content_type) {
        after(
            told,
            match api {
                OpenAiApi::ChatCompletions => chat_outcome(body),
                OpenAiApi::Responses => responses_outcome(body),
            },
        )
    } else {
        Outcome {
            events: told,
            result: Err(
                "provider returned an unsupported response (Content-Type: "@ + shown_content_type(
                    content_type,
                ) + "): "@ + preview_of(body),
            ),
        }
    }
}

/// Takes in a whole body.
pub fn parse_response_body(
    body: &[u8],
    content_type: &str,
    api: OpenAiApi,
    events: &mut Vec<AgentEvent>,
) -> (r: Result<AssistantMessage, String>)
    ensures
        ({
            let outcome = body_outcome(text::views(old(events)@), body@, content_type@, api);
            &&& text::res(r) == outcome.result
            &&& text::views(final(events)@) == outcome.events
        }),
{
    let body = strip_utf8_bom(body);
    let start: usize = blank_end(body);
    if start == body.len() {
        let mut message =
            "provider returned an empty response body; expected OpenAI JSON or SSE from the configured /".to_owned();
        message.append(api.endpoint());
        message.append(" endpoint");
        return Err(message);
    }
    if text::contains_of(content_type, "text/event-stream") || body_looks_like_sse(body) {
        return sse::parse_stream_body(api, body, events);
    }
    let first: u8 = body[start];
    if text::contains_of(content_type, "json") || first == 0x7b || first == 0x5b {
        return match api {
            OpenAiApi::ChatCompletions => parse_chat_non_stream_body(body, events),
            OpenAiApi::Responses => parse_responses_non_stream_body(body, events),
        };
    }
    let shown = if text::char_count(content_type) == 0 {
        "<missing>"
    } else {
        content_type
    };
    let preview = body_preview(body);
    let mut message = text::concat(
        "provider returned an unsupported response (Content-Type: ",
        shown,
    );
    message.append("): ");
    message.append(preview.as_str());
    Err(message)
}

// ---------------------------------------------------------------------------
// A body in chunks
// ---------------------------------------------------------------------------

/// What a body is taken for so far.
pub enum ResponseMode {
    /// Nothing that tells has come yet.
    Undecided,
    /// A stream, taken in as it comes.
    Stream(SseParser),
    /// Anything else, taken in at its end.
    Buffered,
}

/// Takes in a body as it comes. A stream is parsed line by line, so that what
/// it brings is told at once; anything else is held until its end.
pub struct ResponseReader {
    pub api: OpenAiApi,
    pub content_type: String,
    pub body: Vec<u8>,
    pub carry: Vec<u8>,
    pub mode: ResponseMode,
}

/// What a body is taken for, given all of it that has come.
pub enum ModeView {
    Undecided,
    Stream(sse::SseView),
    Buffered,
}

/// What a [`ResponseReader`] holds.
#[verifier::ext_equal]
pub struct ReaderView {
    pub body: Seq<u8>,
    pub carry: Seq<u8>,
    pub mode: ModeView,
}

impl View for ResponseMode {
    type V = ModeView;

    open spec fn view(&self) -> ModeView {
        match *self {
            ResponseMode::Undecided => ModeView::Undecided,
            ResponseMode::Stream(parser) => ModeView::Stream(parser@),
            ResponseMode::Buffered => ModeView::Buffered,
        }
    }
}

impl View for ResponseReader {
    type V = ReaderView;

    open spec fn view(&self) -> ReaderView {
        ReaderView { body: self.body@, carry: self.carry@, mode: self.mode@ }
    }
}

pub open spec fn new_reader(content_type: Seq<char>, api: OpenAiApi) -> ReaderView {
    ReaderView {
        body: Seq::empty(),
        carry: Seq::empty(),
        mode: if text::contains(content_type, event_stream_type()) {
            ModeView::Stream(sse::new_parser(api))
        } else {
            ModeView::Undecided
        },
    }
}

/// What a reader makes of a chunk: the reader after it and what was told, or
/// what was told and what went wrong.
pub open spec fn read_chunk(
    reader: ReaderView,
    api: OpenAiApi,
    told: Seq<EventView>,
    chunk: Seq<u8>,
) -> Result<(ReaderView, Seq<EventView>), (Seq<EventView>, Seq<char>)> {
    let body = reader.body + chunk;
    let carry = reader.carry + chunk;
    let mode = match reader.mode {
        ModeView::Undecided => if looks_like_sse(body) {
            ModeView::Stream(sse::new_parser(api))
        } else if first_solid(body) is Some {
            ModeView::Buffered
        } else {
            ModeView::Undecided
        },
        mode => mode,
    };
    match (reader.mode, mode) {
        (_, ModeView::Stream(parser)) => {
            let lines = stream::byte_lines(carry);
            match sse::run_lines(SseRun { parser, events: told }, lines.drop_last()) {
                Ok(run) => Ok(
                    (
                        ReaderView {
                            body,
                            carry: lines.last(),
                            mode: ModeView::Stream(run.parser),
                        },
                        run.events,
                    ),
                ),
                Err(stop) => Err((stop.run.events, stop.message)),
            }
        },
        (ModeView::Buffered, _) => Ok((ReaderView { body, ..reader }, told)),
        (_, mode) => Ok((ReaderView { body, carry, mode }, told)),
    }
}

/// What a reader makes of the end of a body.
pub open spec fn read_end(
    reader: ReaderView,
    content_type: Seq<char>,
    api: OpenAiApi,
    told: Seq<EventView>,
) -> Outcome {
    match reader.mode {
        ModeView::Stream(parser) => sse::run_outcome(
            sse::chunk_end(
                sse::ChunkRun { run: SseRun { parser, events: told }, carry: reader.carry },
            ),
        ),
        _ => body_outcome(told, reader.body, content_type, api),
    }
}

impl ResponseReader {
    pub fn new(content_type: &str, api: OpenAiApi) -> (r: ResponseReader)
        ensures
            r@ == new_reader(content_type@, api),
            r.api == api,
            r.content_type@ == content_type@,
    {
        let mode = if text::contains_of(content_type, "text/event-stream") {
            ResponseMode::Stream(SseParser::new(api))
        } else {
            ResponseMode::Undecided
        };
        ResponseReader {
            api,
            content_type: content_type.to_owned(),
            body: Vec::new(),
            carry: Vec::new(),
            mode,
        }
    }

    /// Takes in a chunk.
    pub fn push_chunk(&mut self, chunk: &[u8], events: &mut Vec<AgentEvent>) -> (r: Result<
        (),
        String,
    >)
        ensures
            final(self).api == old(self).api,
            final(self).content_type@ == old(self).content_type@,
            match (r, read_chunk(old(self)@, old(self).api, text::views(old(events)@), chunk@)) {
                (Ok(_), Ok((reader, told))) => final(self)@ == reader && text::views(final(events)@)
                    == told,
                (Err(message), Err((told, complaint))) => message@ == complaint && text::views(
                    final(events)@,
                ) == told,
                _ => false,
            },
    {
        append_bytes(&mut self.body, chunk);
        let undecided = match &self.mode {
            ResponseMode::Undecided => true,
            _ => false,
        };
        if undecided {
            append_bytes(&mut self.carry, chunk);
            if body_looks_like_sse(self.body.as_slice()) {
                self.mode = ResponseMode::Stream(SseParser::new(self.api));
            } else if blank_end(self.body.as_slice()) < self.body.len() {
                self.mode = ResponseMode::Buffered;
            }
            match &mut self.mode {
                ResponseMode::Stream(parser) => sse::feed_complete_lines(
                    &mut self.carry,
                    parser,
                    events,
                ),
                _ => Ok(()),
            }
        } else {
            match &mut self.mode {
                ResponseMode::Stream(parser) => {
                    append_bytes(&mut self.carry, chunk);
                    sse::feed_complete_lines(&mut self.carry, parser, events)
                },
                _ => Ok(()),
            }
        }
    }

    /// The message, once the body has ended.
    pub fn finish(self, events: &mut Vec<AgentEvent>) -> (r: Result<AssistantMessage, String>)
        ensures
            ({
                let outcome = read_end(
                    self@,
                    self.content_type@,
                    self.api,
                    text::views(old(events)@),
                );
                &&& text::res(r) == outcome.result
                &&& text::views(final(events)@) == outcome.events
            }),
    {
        match self.mode {
            ResponseMode::Stream(parser) => {
                let mut parser = parser;
                if self.carry.len() > 0 {
                    match parser.feed_line(self.carry.as_slice(), events) {
                        Ok(_) => {},
                        Err(message) => {
                            return Err(message);
                        },
                    }
                }
                parser.finish(events)
            },
            _ => parse_response_body(
                self.body.as_slice(),
                self.content_type.as_str(),
                self.api,
                events,
            ),
        }
    }
}

/// What a reader makes of a body that comes in chunks, from its type on.
pub open spec fn read_chunks(
    content_type: Seq<char>,
    api: OpenAiApi,
    chunks: Seq<Seq<u8>>,
) -> Result<(ReaderView, Seq<EventView>), (Seq<EventView>, Seq<char>)>
    decreases chunks.len(),
{
    if chunks.len() == 0 {
        Ok((new_reader(content_type, api), Seq::empty()))
    } else {
        match read_chunks(content_type, api, chunks.drop_last()) {
            Ok((reader, told)) => read_chunk(reader, api, told, chunks.last()),
            Err(stop) => Err(stop),
        }
    }
}

/// What a body comes to that comes in chunks.
pub open spec fn read_outcome(
    content_type: Seq<char>,
    api: OpenAiApi,
    chunks: Seq<Seq<u8>>,
) -> Outcome {
    match read_chunks(content_type, api, chunks) {
        Ok((reader, told)) => read_end(reader, content_type, api, told),
        Err((told, complaint)) => Outcome { events: told, result: Err(complaint) },
    }
}

/// A reader of a body that is a stream by its type is where the chunks of the
/// stream leave it.
proof fn lemma_read_stream(content_type: Seq<char>, api: OpenAiApi, chunks: Seq<Seq<u8>>)
    requires
        text::contains(content_type, event_stream_type()),
    ensures
        ({
            let start = sse::ChunkRun { run: sse::new_run(api), carry: Seq::empty() };
            match (read_chunks(content_type, api, chunks), sse::chunk_steps(start, chunks)) {
                (Ok((reader, told)), Ok(state)) => {
                    &&& reader.mode == ModeView::Stream(state.run.parser)
                    &&& reader.carry == state.carry
                    &&& told == state.run.events
                },
                (Err((told, complaint)), Err(stop)) => told == stop.run.events && complaint
                    == stop.message,
                _ => false,
            }
        }),
    decreases chunks.len(),
{
    if chunks.len() > 0 {
        lemma_read_stream(content_type, api, chunks.drop_last());
        let start = sse::ChunkRun { run: sse::new_run(api), carry: Seq::empty() };
        if let Ok(state) = sse::chunk_steps(start, chunks.drop_last()) {
            assert(state.run =~= SseRun { parser: state.run.parser, events: state.run.events });
        }
    }
}

/// A body that is a stream by its type comes to the same in chunks as in one
/// piece, message and all that is told on the way. It must not begin with a
/// byte order mark, which only a body in one piece loses, nor be blank, which
/// only a body in one piece is refused for.
pub proof fn law_reading_in_chunks(content_type: Seq<char>, api: OpenAiApi, chunks: Seq<Seq<u8>>)
    requires
        text::contains(content_type, event_stream_type()),
        without_bom(sse::joined(chunks)) == sse::joined(chunks),
        first_solid(sse::joined(chunks)) is Some,
    ensures
        read_outcome(content_type, api, chunks) == body_outcome(
            Seq::empty(),
            sse::joined(chunks),
            content_type,
            api,
        ),
{
    lemma_read_stream(content_type, api, chunks);
    sse::law_chunked_matches_whole(api, chunks);
    let start = sse::ChunkRun { run: sse::new_run(api), carry: Seq::empty() };
    if let Ok(state) = sse::chunk_steps(start, chunks) {
        assert(state.run =~= SseRun { parser: state.run.parser, events: state.run.events });
    }
}

fn append_bytes(target: &mut Vec<u8>, bytes: &[u8])
    ensures
        final(target)@ == old(target)@ + bytes@,
{
    let ghost before = target@;
    let mut i: usize = 0;
    assert(before + bytes@.take(0) =~= before);
    while i < bytes.len()
        invariant
            i <= bytes@.len(),
            target@ == before + bytes@.take(i as int),
        decreases bytes@.len() - i,
    {
        target.push(bytes[i]);
        i = i + 1;
        assert(target@ =~= before + bytes@.take(i as int));
    }
    assert(bytes@.take(bytes@.len() as int) =~= bytes@);
}

// ---------------------------------------------------------------------------
// Usage
// ---------------------------------------------------------------------------

/// The number under the first of two keys that is there.
pub open spec fn tokens_at(usage: JsonView, key: Seq<char>, other: Seq<char>) -> Option<u64> {
    let value = match usage.get(key) {
        Some(value) => Some(value),
        None => usage.get(other),
    };
    match value {
        Some(value) => value.unsigned(),
        None => None,
    }
}

/// What a response or an event says was used.
pub open spec fn usage_in(value: JsonView, api: OpenAiApi) -> Option<CompletionUsage> {
    let usage = match (value.get("usage"@), api) {
        (Some(usage), _) => Some(usage),
        (None, OpenAiApi::ChatCompletions) => None,
        (None, OpenAiApi::Responses) => match value.get("response"@) {
            Some(response) => response.get("usage"@),
            None => None,
        },
    };
    match usage {
        Some(usage) => Some(
            CompletionUsage {
                input_tokens: tokens_at(usage, "input_tokens"@, "prompt_tokens"@),
                output_tokens: tokens_at(usage, "output_tokens"@, "completion_tokens"@),
            },
        ),
        None => None,
    }
}

/// What a line of a stream says was used.
pub open spec fn line_usage(line: Seq<u8>, api: OpenAiApi) -> Option<CompletionUsage> {
    match stream::line_data(line) {
        Some(data) => match json::parsed_json(data) {
            Ok(value) => usage_in(value, api),
            Err(_) => None,
        },
        None => None,
    }
}

/// What the last line that says so says was used.
pub open spec fn lines_usage(lines: Seq<Seq<u8>>, api: OpenAiApi) -> Option<CompletionUsage>
    decreases lines.len(),
{
    if lines.len() == 0 {
        None
    } else {
        match line_usage(lines.last(), api) {
            Some(usage) => Some(usage),
            None => lines_usage(lines.drop_last(), api),
        }
    }
}

/// What a body says was used.
pub open spec fn body_usage(body: Seq<u8>, content_type: Seq<char>, api: OpenAiApi) -> Option<
    CompletionUsage,
> {
    let body = without_bom(body);
    if is_stream(body, content_type) {
        lines_usage(stream::byte_lines(body), api)
    } else {
        match json::parsed_json(body) {
            Ok(value) => usage_in(value, api),
            Err(_) => None,
        }
    }
}

fn tokens_from(usage: &Json, key: &str, other: &str) -> (r: Option<u64>)
    ensures
        r == tokens_at(usage@, key@, other@),
{
    let value = match usage.get(key) {
        Some(value) => Some(value),
        None => usage.get(other),
    };
    match value {
        Some(value) => value.as_u64(),
        None => None,
    }
}

/// What a response or an event says was used.
pub fn usage_from_value(value: &Json, api: OpenAiApi) -> (r: Option<CompletionUsage>)
    ensures
        r == usage_in(value@, api),
{
    let usage = match value.get("usage") {
        Some(usage) => Some(usage),
        None => match api {
            OpenAiApi::ChatCompletions => None,
            OpenAiApi::Responses => match value.get("response") {
                Some(response) => response.get("usage"),
                None => None,
            },
        },
    };
    match usage {
        Some(usage) => Some(
            CompletionUsage {
                input_tokens: tokens_from(usage, "input_tokens", "prompt_tokens"),
                output_tokens: tokens_from(usage, "output_tokens", "completion_tokens"),
            },
        ),
        None => None,
    }
}

fn line_usage_of(line: &[u8], api: OpenAiApi) -> (r: Option<CompletionUsage>)
    ensures
        r == line_usage(line@, api),
{
    match stream::data_of_line(line) {
        Some(data) => match json::parse_json(data) {
            Ok(value) => usage_from_value(&value, api),
            Err(_) => None,
        },
        None => None,
    }
}

fn lines_usage_of(lines: &Vec<Vec<u8>>, api: OpenAiApi) -> (r: Option<CompletionUsage>)
    ensures
        r == lines_usage(text::views(lines@), api),
{
    let ghost model = text::views(lines@);
    let mut n: usize = lines.len();
    assert(model.take(n as int) =~= model);
    while n > 0
        invariant
            n <= lines@.len(),
            model == text::views(lines@),
            lines_usage(model, api) == lines_usage(model.take(n as int), api),
        decreases n,
    {
        assert(model.take(n as int).last() == lines@[n - 1]@);
        assert(model.take(n as int).drop_last() =~= model.take(n - 1));
        match line_usage_of(lines[n - 1].as_slice(), api) {
            Some(usage) => {
                return Some(usage);
            },
            None => {},
        }
        n = n - 1;
    }
    None
}

/// What a body says was used.
pub fn response_usage(body: &[u8], content_type: &str, api: OpenAiApi) -> (r: Option<
    CompletionUsage,
>)
    ensures
        r == body_usage(body@, content_type@, api),
{
    let body = strip_utf8_bom(body);
    if text::contains_of(content_type, "text/event-stream") || body_looks_like_sse(body) {
        let lines = split_lines(body);
        return lines_usage_of(&lines, api);
    }
    match json::parse_json(body) {
        Ok(value) => usage_from_value(&value, api),
        Err(_) => None,
    }
}

/// What is told of what was used: the tokens that were written, where there
/// are any.
pub fn usage_event(usage: Option<CompletionUsage>, elapsed: u64) -> (r: Option<AgentEvent>)
    ensures
        match r {
            Some(told) => {
                &&& usage matches Some(usage)
                &&& usage.output_tokens matches Some(n) && n > 0 && told@
                    == (EventView::ProviderUsage { output_tokens: n, elapsed })
            },
            None => usage matches Some(usage) ==> usage.output_tokens matches Some(n) ==> n == 0,
        },
{
    match usage {
        Some(usage) => match usage.output_tokens {
            Some(n) => if n > 0 {
                Some(AgentEvent::ProviderUsage { output_tokens: n, elapsed })
            } else {
                None
            },
            None => None,
        },
        None => None,
    }
}

// ---------------------------------------------------------------------------
// Lists of models
// ---------------------------------------------------------------------------

pub open spec fn model_ids_of(items: Seq<JsonView>) -> Option<Seq<Seq<char>>>
    decreases items.len(),
{
    if items.len() == 0 {
        Some(Seq::empty())
    } else {
        match (
            model_ids_of(items.drop_last()),
            items.last().seated(seq!["id"], 1).need_text("id"@),
        ) {
            (Some(ids), Some(id)) => Some(ids.push(id)),
            _ => None,
        }
    }
}

/// The names, without the space around them, in order, each once; a name that
/// is empty is passed over.
pub open spec fn tidy_ids(ids: Seq<Seq<char>>) -> Seq<Seq<char>>
    decreases ids.len(),
{
    if ids.len() == 0 {
        Seq::empty()
    } else {
        let id = text::trim(ids.last());
        if id.len() == 0 {
            tidy_ids(ids.drop_last())
        } else {
            models_dev::with_name(tidy_ids(ids.drop_last()), id)
        }
    }
}

/// The names that a list of models gives, where it is one.
pub open spec fn listed_ids(body: Seq<u8>) -> Option<Seq<Seq<char>>> {
    match json::parsed_json(body) {
        Err(_) => None,
        Ok(value) => {
            let value = value.seated(seq!["data"], 0);
            match (value is Object, value.get("data"@)) {
                (true, None) => Some(Seq::empty()),
                (true, Some(JsonView::Array(items))) => model_ids_of(items),
                _ => None,
            }
        },
    }
}

fn model_ids_from(items: &Vec<Json>) -> (r: Option<Vec<String>>)
    ensures
        match r {
            Some(ids) => model_ids_of(json::items_view(items@)) == Some(text::views(ids@)),
            None => model_ids_of(json::items_view(items@)) is None,
        },
{
    let ghost model = json::items_view(items@);
    proof {
        json::lemma_items_view(items@);
    }
    let mut ids: Vec<String> = Vec::new();
    let mut sound = true;
    let mut i: usize = 0;
    assert(text::views(ids@) =~= Seq::<Seq<char>>::empty());
    while i < items.len()
        invariant
            i <= items@.len(),
            model.len() == items@.len(),
            forall|j: int| 0 <= j < items@.len() ==> #[trigger] model[j] == items@[j]@,
            sound ==> model_ids_of(model.take(i as int)) == Some(text::views(ids@)),
            !sound ==> model_ids_of(model.take(i as int)) is None,
        decreases items@.len() - i,
    {
        assert(model.take(i as int + 1).drop_last() =~= model.take(i as int));
        assert(model.take(i as int + 1).last() == items@[i as int]@);
        let names: Vec<&'static str> = vec!["id"];
        assert(names@ =~= seq!["id"]);
        let seat = items[i].seat(&names, 1);
        let listed = match &seat {
            Some(seat) => seat,
            None => &items[i],
        };
        match listed.need_text("id") {
            None => {
                sound = false;
            },
            Some(id) => {
                proof {
                    text::lemma_views_push(ids@, id);
                }
                ids.push(id);
            },
        }
        i = i + 1;
    }
    assert(model.take(model.len() as int) =~= model);
    if sound {
        Some(ids)
    } else {
        None
    }
}

fn listed_ids_from(body: &[u8]) -> (r: Option<Vec<String>>)
    ensures
        match r {
            Some(ids) => listed_ids(body@) == Some(text::views(ids@)),
            None => listed_ids(body@) is None,
        },
{
    match json::parse_json(body) {
        Err(_) => None,
        Ok(value) => {
            let names: Vec<&'static str> = vec!["data"];
            assert(names@ =~= seq!["data"]);
            let seat = value.seat(&names, 0);
            let value = match &seat {
                Some(seat) => seat,
                None => &value,
            };
            match value {
                Json::Object(_) => {},
                _ => {
                    return None;
                },
            }
            match value.get("data") {
                None => {
                    let ids: Vec<String> = Vec::new();
                    assert(text::views(ids@) =~= Seq::<Seq<char>>::empty());
                    Some(ids)
                },
                Some(Json::Array(items)) => model_ids_from(items),
                Some(_) => None,
            }
        },
    }
}

/// The names of the models that a provider lists.
pub fn parse_models_response(body: &[u8]) -> (r: Result<Vec<String>, String>)
    ensures
        match (r, listed_ids(body@)) {
            (Ok(names), Some(ids)) => text::views(names@) == tidy_ids(ids),
            (Err(message), None) => message@ == "Provider model discovery returned invalid JSON"@,
            _ => false,
        },
{
    let ids = match listed_ids_from(body) {
        None => {
            return Err("Provider model discovery returned invalid JSON".to_owned());
        },
        Some(ids) => ids,
    };
    let ghost model = text::views(ids@);
    let mut names = NameSet::new();
    let mut i: usize = 0;
    while i < ids.len()
        invariant
            i <= ids@.len(),
            model == text::views(ids@),
            names@ == tidy_ids(model.take(i as int)),
        decreases ids@.len() - i,
    {
        assert(model.take(i as int + 1).drop_last() =~= model.take(i as int));
        assert(model.take(i as int + 1).last() == ids@[i as int]@);
        let id = text::trim_of(ids[i].as_str());
        if text::char_count(id.as_str()) > 0 {
            names.insert(id.as_str());
        }
        i = i + 1;
    }
    assert(model.take(model.len() as int) =~= model);
    Ok(names.into_names())
}

/// What is said where models are to be listed without a key.
pub fn check_models_key(api_key: &str) -> (r: Result<(), String>)
    ensures
        match r {
            Ok(_) => !crate::config::catalog::blank(api_key@),
            Err(message) => crate::config::catalog::blank(api_key@) && message@
                == "Provider API key is required before fetching models"@,
        },
{
    if crate::config::catalog::is_blank(api_key) {
        Err("Provider API key is required before fetching models".to_owned())
    } else {
        Ok(())
    }
}

// ---------------------------------------------------------------------------
// What is read
// ---------------------------------------------------------------------------

proof fn lemma_calls_are_read_back(calls: Seq<ToolCallView>)
    ensures
        chat_calls_of(calls.map_values(|call: ToolCallView| wire::call_wire(call))) == Some(calls),
    decreases calls.len(),
{
    let items = calls.map_values(|call: ToolCallView| wire::call_wire(call));
    if calls.len() == 0 {
        assert(calls =~= Seq::<ToolCallView>::empty());
    } else {
        let front = calls.drop_last();
        lemma_calls_are_read_back(front);
        assert(items.drop_last() =~= front.map_values(
            |call: ToolCallView| wire::call_wire(call),
        ));
        wire::lemma_call_is_told(calls.last());
        let item = items.last();
        assert(item == wire::call_wire(calls.last()));
        assert(item.get("function"@)->Some_0 is Object);
        assert(calls =~= front.push(calls.last()));
    }
}

/// An answer that comes as it would be sent is read as it is: what it says, what
/// it thinks and every call, with its ID, name and arguments, in their order.
pub proof fn law_sent_answer_is_read_back(
    content: Seq<char>,
    thinking: Option<Seq<char>>,
    tool_calls: Seq<ToolCallView>,
)
    requires
        chat::lacks(content, "<think>"@) || chat::lacks(content, "</think>"@),
        thinking matches Some(thought) ==> thought.len() > 0,
    ensures
        ({
            let sent = wire::message_wire(
                MessageView::Assistant { content, thinking, tool_calls, provider_state: None },
            );
            &&& chat_message_of(sent) is Some
            &&& chat_answer(chat_message_of(sent)->0).content == content
            &&& chat_answer(chat_message_of(sent)->0).thinking == thinking
            &&& chat_answer(chat_message_of(sent)->0).tool_calls == tool_calls
        }),
{
    let message = MessageView::Assistant { content, thinking, tool_calls, provider_state: None };
    let sent = wire::message_wire(message);
    wire::law_messages_are_sent_as_they_are(message);
    lemma_calls_are_read_back(tool_calls);
    assert(sent is Object);
    let fields = sent->Object_0;
    reveal_strlit("role");
    reveal_strlit("content");
    reveal_strlit("reasoning_content");
    reveal_strlit("reasoning");
    reveal_strlit("thinking");
    reveal_strlit("tool_calls");
    assert("role"@.len() == 4 && "content"@.len() == 7 && "reasoning_content"@.len() == 17);
    assert("reasoning"@.len() == 9 && "thinking"@.len() == 8 && "tool_calls"@.len() == 10);
    json::lemma_no_field(fields, "reasoning"@);
    json::lemma_no_field(fields, "thinking"@);
    if tool_calls.len() == 0 {
        assert(tool_calls =~= Seq::<ToolCallView>::empty());
    } else {
        let list = tool_calls.map_values(|call: ToolCallView| wire::call_wire(call));
        assert(fields.last() == ("tool_calls"@, JsonView::Array(list)));
        json::lemma_field_at(fields, fields.len() - 1);
    }
    let read = chat_message_of(sent)->0;
    assert(read.reasoning == thinking);
    let explicit = stream::or_empty(thinking);
    let said = stream::or_empty(read.content);
    assert(said =~= content);
    assert(chat::blocks_text(blocks_in(read.thinking_blocks)) is None);
    chat::law_untagged_text_is_the_answer(explicit, content);
}

/// The names of listed models are tidied: in order, each once, and just those
/// that are listed, without the white space around them, but for empty ones.
pub proof fn law_listed_models_are_tidied(ids: Seq<Seq<char>>)
    ensures
        models_dev::ordered_names(tidy_ids(ids)),
        forall|name: Seq<char>| #[trigger]
            tidy_ids(ids).contains(name) ==> name.len() > 0 && exists|i: int|
                0 <= i < ids.len() && text::trim(#[trigger] ids[i]) == name,
        forall|i: int|
            0 <= i < ids.len() && !text::blank(#[trigger] ids[i]) ==> tidy_ids(ids).contains(
                text::trim(ids[i]),
            ),
    decreases ids.len(),
{
    if ids.len() > 0 {
        let front = ids.drop_last();
        let last: int = ids.len() - 1;
        let id = text::trim(ids.last());
        law_listed_models_are_tidied(front);
        let before = tidy_ids(front);
        let names = tidy_ids(ids);
        models_dev::law_names_stay_in_order(before, id);
        assert forall|name: Seq<char>| #[trigger]
            names.contains(name) implies name.len() > 0 && exists|i: int|
            0 <= i < ids.len() && text::trim(#[trigger] ids[i]) == name by {
            if before.contains(name) {
                let i = choose|i: int|
                    0 <= i < front.len() && text::trim(#[trigger] front[i]) == name;
                assert(ids[i] == front[i]);
            } else {
                assert(ids[last] == ids.last());
            }
        }
        assert forall|i: int| 0 <= i < ids.len() && !text::blank(#[trigger] ids[i]) implies
            names.contains(text::trim(ids[i])) by {
            if i < last {
                assert(front[i] == ids[i]);
                assert(before.contains(text::trim(front[i])));
            } else {
                text::law_trim(ids[i]);
            }
        }
    }
}

/// What a stream says was used is what the last of its lines that says so says.
pub proof fn law_last_usage_counts(lines: Seq<Seq<u8>>, api: OpenAiApi, at: int)
    requires
        0 <= at < lines.len(),
        forall|i: int| at < i < lines.len() ==> line_usage(#[trigger] lines[i], api) is None,
        line_usage(lines[at], api) is Some,
    ensures
        lines_usage(lines, api) == line_usage(lines[at], api),
    decreases lines.len(),
{
    if at < lines.len() - 1 {
        assert(line_usage(lines[lines.len() - 1], api) is None);
        let front = lines.drop_last();
        assert forall|i: int| at < i < front.len() implies line_usage(
            #[trigger] front[i],
            api,
        ) is None by {
            assert(front[i] == lines[i]);
        }
        law_last_usage_counts(front, api, at);
    }
}

/// What was used is read under either of the names that it goes by.
pub proof fn law_usage_is_read(
    value: JsonView,
    usage: JsonView,
    api: OpenAiApi,
    input: u64,
    output: u64,
)
    requires
        value.get("usage"@) == Some(usage),
        usage.get("input_tokens"@) == Some(JsonView::Unsigned(input)) || (usage.get(
            "input_tokens"@,
        ) is None && usage.get("prompt_tokens"@) == Some(JsonView::Unsigned(input))),
        usage.get("output_tokens"@) == Some(JsonView::Unsigned(output)) || (usage.get(
            "output_tokens"@,
        ) is None && usage.get("completion_tokens"@) == Some(JsonView::Unsigned(output))),
    ensures
        usage_in(value, api) == Some(
            CompletionUsage { input_tokens: Some(input), output_tokens: Some(output) },
        ),
{
}

/// A body of Chat Completions that is not a stream comes to its first choice,
/// and to an error only where it has none or is no response.
pub proof fn law_first_choice_counts(body: Seq<u8>)
    ensures
        match chat_choices(body) {
            Some(messages) => {
                &&& messages.len() > 0 ==> chat_outcome(body).result == Ok::<
                    AssistantView,
                    Seq<char>,
                >(chat_answer(messages[0])) && chat::answer_told(chat_outcome(body).events)
                    == chat_answer(messages[0]).content && chat::thinking_told(
                    chat_outcome(body).events,
                ) == stream::or_empty(chat_answer(messages[0]).thinking)
                &&& messages.len() == 0 ==> chat_outcome(body).result is Err
            },
            None => chat_outcome(body).result is Err,
        },
{
    if let Some(messages) = chat_choices(body) {
        if messages.len() > 0 {
            lemma_whole_is_told(chat_answer(messages[0]));
        }
    }
}

proof fn lemma_whole_is_told(message: AssistantView)
    ensures
        chat::answer_told(answer_events(message)) == message.content,
        chat::thinking_told(answer_events(message)) == stream::or_empty(message.thinking),
{
    let none = Seq::<EventView>::empty();
    let thought = match message.thinking {
        Some(thinking) => seq![event::thinking_delta(thinking)],
        None => none,
    };
    let said = if message.content.len() > 0 {
        seq![event::answer_delta(message.content)]
    } else {
        none
    };
    assert(answer_events(message) =~= thought + said);
    chat::lemma_told_in_turn(thought, said);
    reveal_with_fuel(chat::answer_told, 2);
    reveal_with_fuel(chat::thinking_told, 2);
    assert(seq![event::answer_delta(message.content)].drop_last() =~= none);
    if let Some(thinking) = message.thinking {
        assert(thought.drop_last() =~= none);
        assert(chat::thinking_told(thought) =~= thinking);
    }
    assert(chat::answer_told(thought) =~= Seq::<char>::empty());
    assert(chat::answer_told(said) =~= message.content);
    assert(chat::thinking_told(said) =~= Seq::<char>::empty());
    assert(chat::answer_told(thought) + chat::answer_told(said) =~= message.content);
    assert(chat::thinking_told(thought) + chat::thinking_told(said) =~= stream::or_empty(
        message.thinking,
    ));
}

/// A listing whose every model has a name gives all the names, in its order.
pub proof fn law_every_listed_model_is_named(items: Seq<JsonView>, names: Seq<Seq<char>>)
    requires
        items.len() == names.len(),
        forall|i: int|
            0 <= i < items.len() ==> (#[trigger] items[i]) is Object && items[i].get("id"@) == Some(
                JsonView::Text(names[i]),
            ),
    ensures
        model_ids_of(items) == Some(names),
    decreases items.len(),
{
    if items.len() > 0 {
        let rest = items.drop_last();
        assert forall|i: int| 0 <= i < rest.len() implies (#[trigger] rest[i]) is Object
            && rest[i].get("id"@) == Some(JsonView::Text(names.drop_last()[i])) by {
            assert(rest[i] == items[i]);
        }
        law_every_listed_model_is_named(rest, names.drop_last());
        assert(items[items.len() - 1] is Object);
        assert(names.drop_last().push(names.last()) =~= names);
    } else {
        assert(names =~= Seq::empty());
    }
}

} // verus!
