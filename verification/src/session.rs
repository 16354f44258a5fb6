//! Saved sessions: their files, how they are read back, and how they are
//! listed.
use crate::agent::message;
use crate::agent::message::Message;
use crate::agent::message::MessageView;
use crate::agent::message::ToolCall;
use crate::agent::message::ToolCallView;
use crate::json;
use crate::json::Json;
use crate::json::JsonView;
use crate::memory::record;
use crate::memory::retention;
use crate::provider::thinking;
use crate::provider::thinking::ThinkingLevel;
use crate::secure;
use crate::secure::Cipher;
use crate::secure::EncryptionKey;
use crate::secure::EncryptedContent;
use crate::secure::EncryptionView;
use crate::text;
use crate::textmap;
use crate::textmap::TextOrder;
use time::format_description::well_known::Rfc3339;
use time::OffsetDateTime;
use time::UtcOffset;
use vstd::prelude::*;
use vstd::string::*;
use vstd::utf8::*;

verus! {

// ---------------------------------------------------------------------------
// Messages
// ---------------------------------------------------------------------------

pub open spec fn call_json(call: ToolCallView) -> JsonView {
    JsonView::Object(
        seq![
            ("id"@, JsonView::Text(call.id)),
            ("name"@, JsonView::Text(call.name)),
            ("arguments"@, JsonView::Text(call.arguments)),
        ],
    )
}

pub open spec fn calls_json(calls: Seq<ToolCallView>) -> Seq<JsonView> {
    calls.map_values(|call: ToolCallView| call_json(call))
}

/// The fields of a message as it is saved.
pub open spec fn message_fields(message: MessageView) -> Seq<(Seq<char>, JsonView)> {
    match message {
        MessageView::System { content } => seq![
            ("role"@, JsonView::Text("system"@)),
            ("content"@, JsonView::Text(content)),
        ],
        MessageView::User { content } => seq![
            ("role"@, JsonView::Text("user"@)),
            ("content"@, JsonView::Text(content)),
        ],
        MessageView::Assistant { content, thinking, tool_calls, provider_state } => {
            let head = seq![
                ("role"@, JsonView::Text("assistant"@)),
                ("content"@, JsonView::Text(content)),
            ];
            let thought = json::with_text(head, "thinking"@, thinking);
            let called = if tool_calls.len() == 0 {
                thought
            } else {
                thought.push(("tool_calls"@, JsonView::Array(calls_json(tool_calls))))
            };
            match provider_state {
                Some(state) => called.push(("provider_state"@, state)),
                None => called,
            }
        },
        MessageView::Tool { tool_call_id, content } => seq![
            ("role"@, JsonView::Text("tool"@)),
            ("tool_call_id"@, JsonView::Text(tool_call_id)),
            ("content"@, JsonView::Text(content)),
        ],
    }
}

/// A message as it is saved.
pub open spec fn message_json(message: MessageView) -> JsonView {
    JsonView::Object(message_fields(message))
}

pub open spec fn call_of(value: JsonView) -> Option<ToolCallView> {
    let value = value.seated(seq!["id", "name", "arguments"], 3);
    match (value.need_text("id"@), value.need_text("name"@), value.need_text("arguments"@)) {
        (Some(id), Some(name), Some(arguments)) => Some(ToolCallView { id, name, arguments }),
        _ => None,
    }
}

pub open spec fn calls_of(items: Seq<JsonView>) -> Option<Seq<ToolCallView>>
    decreases items.len(),
{
    if items.len() == 0 {
        Some(Seq::empty())
    } else {
        match (calls_of(items.drop_last()), call_of(items.last())) {
            (Some(calls), Some(call)) => Some(calls.push(call)),
            _ => None,
        }
    }
}

/// The state under `key`, where it is there and not null.
pub open spec fn state_of(value: JsonView) -> Option<JsonView> {
    match value.get("provider_state"@) {
        None => None,
        Some(JsonView::Null) => None,
        Some(state) => Some(state),
    }
}

/// The fields of a message of the assistant.
pub open spec fn assistant_names() -> Seq<&'static str> {
    seq!["role", "content", "thinking", "tool_calls", "provider_state"]
}

pub open spec fn assistant_of(value: JsonView) -> Option<MessageView> {
    let value = value.seated(assistant_names(), 2);
    let calls = match value.get("tool_calls"@) {
        None => Some(Seq::empty()),
        Some(JsonView::Array(items)) => calls_of(items),
        Some(_) => None,
    };
    match (value.need_text("content"@), value.maybe_text("thinking"@), calls) {
        (Some(content), Some(thinking), Some(tool_calls)) => Some(
            MessageView::Assistant {
                content,
                thinking,
                tool_calls,
                provider_state: state_of(value),
            },
        ),
        _ => None,
    }
}

/// Whose message a saved value is: it is named, or counted from nought.
pub open spec fn role_of(value: JsonView) -> Option<Seq<char>> {
    match value.tag("role"@) {
        Some(JsonView::Text(role)) => Some(role),
        Some(JsonView::Unsigned(n)) => if n == 0 {
            Some("system"@)
        } else if n == 1 {
            Some("user"@)
        } else if n == 2 {
            Some("assistant"@)
        } else if n == 3 {
            Some("tool"@)
        } else {
            None
        },
        _ => None,
    }
}

/// The message that a saved value is.
pub open spec fn message_of(value: JsonView) -> Option<MessageView> {
    match role_of(value) {
        None => None,
        Some(role) => if role == "system"@ {
            match value.seated(seq!["role", "content"], 2).need_text("content"@) {
                Some(content) => Some(MessageView::System { content }),
                None => None,
            }
        } else if role == "user"@ {
            match value.seated(seq!["role", "content"], 2).need_text("content"@) {
                Some(content) => Some(MessageView::User { content }),
                None => None,
            }
        } else if role == "assistant"@ {
            assistant_of(value)
        } else if role == "tool"@ {
            let value = value.seated(seq!["role", "tool_call_id", "content"], 3);
            match (value.need_text("tool_call_id"@), value.need_text("content"@)) {
                (Some(tool_call_id), Some(content)) => Some(
                    MessageView::Tool { tool_call_id, content },
                ),
                _ => None,
            }
        } else {
            None
        },
    }
}

fn call_to_json(call: &ToolCall) -> (r: Json)
    ensures
        r@ == call_json(call@),
{
    let mut fields: Vec<(String, Json)> = Vec::new();
    json::push_text(&mut fields, "id", call.id.as_str());
    json::push_text(&mut fields, "name", call.name.as_str());
    json::push_text(&mut fields, "arguments", call.arguments.as_str());
    let r = Json::Object(fields);
    assert(r@->Object_0 =~= call_json(call@)->Object_0);
    r
}

fn calls_to_json(calls: &Vec<ToolCall>) -> (r: Vec<Json>)
    ensures
        json::items_view(r@) == calls_json(text::views(calls@)),
{
    let ghost goal = calls_json(text::views(calls@));
    let mut r: Vec<Json> = Vec::new();
    let mut i: usize = 0;
    assert(json::items_view(r@) =~= goal.take(0));
    while i < calls.len()
        invariant
            i <= calls@.len(),
            goal == calls_json(text::views(calls@)),
            json::items_view(r@) == goal.take(i as int),
        decreases calls@.len() - i,
    {
        let call = call_to_json(&calls[i]);
        json::push_item(&mut r, call);
        i = i + 1;
        assert(json::items_view(r@) =~= goal.take(i as int));
    }
    assert(goal.take(goal.len() as int) =~= goal);
    r
}

/// A message as it is saved.
pub fn message_to_json(message: &Message) -> (r: Json)
    ensures
        r@ == message_json(message@),
{
    let mut fields: Vec<(String, Json)> = Vec::new();
    match message {
        Message::System { content } => {
            json::push_text(&mut fields, "role", "system");
            json::push_text(&mut fields, "content", content.as_str());
        },
        Message::User { content } => {
            json::push_text(&mut fields, "role", "user");
            json::push_text(&mut fields, "content", content.as_str());
        },
        Message::Assistant { content, thinking, tool_calls, provider_state } => {
            json::push_text(&mut fields, "role", "assistant");
            json::push_text(&mut fields, "content", content.as_str());
            assert(json::fields_view(fields@) =~= seq![
                ("role"@, JsonView::Text("assistant"@)),
                ("content"@, JsonView::Text(content@)),
            ]);
            json::push_maybe_text(&mut fields, "thinking", thinking);
            if tool_calls.len() > 0 {
                let calls = calls_to_json(tool_calls);
                json::push_field(&mut fields, "tool_calls", Json::Array(calls));
            }
            match provider_state {
                Some(state) => {
                    json::push_field(&mut fields, "provider_state", state.copy());
                },
                None => {},
            }
        },
        Message::Tool { tool_call_id, content } => {
            json::push_text(&mut fields, "role", "tool");
            json::push_text(&mut fields, "tool_call_id", tool_call_id.as_str());
            json::push_text(&mut fields, "content", content.as_str());
        },
    }
    let r = Json::Object(fields);
    assert(r@->Object_0 =~= message_fields(message@));
    r
}

fn call_from(value: &Json) -> (r: Option<ToolCall>)
    ensures
        text::opt(r) == call_of(value@),
{
    let names: Vec<&'static str> = vec!["id", "name", "arguments"];
    assert(names@ =~= seq!["id", "name", "arguments"]);
    let seat = value.seat(&names, 3);
    let value = match &seat {
        Some(seat) => seat,
        None => value,
    };
    match (value.need_text("id"), value.need_text("name"), value.need_text("arguments")) {
        (Some(id), Some(name), Some(arguments)) => Some(ToolCall { id, name, arguments }),
        _ => None,
    }
}

fn calls_from(items: &Vec<Json>) -> (r: Option<Vec<ToolCall>>)
    ensures
        match r {
            Some(calls) => calls_of(json::items_view(items@)) == Some(text::views(calls@)),
            None => calls_of(json::items_view(items@)) is None,
        },
{
    let ghost model = json::items_view(items@);
    proof {
        json::lemma_items_view(items@);
    }
    let mut calls: Vec<ToolCall> = Vec::new();
    let mut sound = true;
    let mut i: usize = 0;
    assert(text::views(calls@) =~= Seq::<ToolCallView>::empty());
    while i < items.len()
        invariant
            i <= items@.len(),
            model.len() == items@.len(),
            forall|j: int| 0 <= j < items@.len() ==> #[trigger] model[j] == items@[j]@,
            sound ==> calls_of(model.take(i as int)) == Some(text::views(calls@)),
            !sound ==> calls_of(model.take(i as int)) is None,
        decreases items@.len() - i,
    {
        assert(model.take(i as int + 1).drop_last() =~= model.take(i as int));
        assert(model.take(i as int + 1).last() == items@[i as int]@);
        match call_from(&items[i]) {
            None => {
                sound = false;
            },
            Some(call) => {
                proof {
                    text::lemma_views_push(calls@, call);
                }
                calls.push(call);
            },
        }
        i = i + 1;
    }
    assert(model.take(model.len() as int) =~= model);
    if sound {
        Some(calls)
    } else {
        None
    }
}

fn assistant_from(value: &Json) -> (r: Option<Message>)
    ensures
        text::opt(r) == assistant_of(value@),
{
    let names: Vec<&'static str> = vec!["role", "content", "thinking", "tool_calls", "provider_state"];
    assert(names@ =~= assistant_names());
    let seat = value.seat(&names, 2);
    let value = match &seat {
        Some(seat) => seat,
        None => value,
    };
    let tool_calls = match value.get("tool_calls") {
        None => {
            let calls: Vec<ToolCall> = Vec::new();
            assert(text::views(calls@) =~= Seq::<ToolCallView>::empty());
            calls
        },
        Some(Json::Array(items)) => match calls_from(items) {
            Some(calls) => calls,
            None => {
                return None;
            },
        },
        Some(_) => {
            return None;
        },
    };
    let provider_state = match value.get("provider_state") {
        None => None,
        Some(Json::Null) => None,
        Some(state) => Some(state.copy()),
    };
    match (value.need_text("content"), value.maybe_text("thinking")) {
        (Some(content), Some(thinking)) => Some(
            Message::Assistant { content, thinking, tool_calls, provider_state },
        ),
        _ => None,
    }
}

/// Whose message a saved value is.
fn role_from(value: &Json) -> (r: Option<String>)
    ensures
        text::opt(r) == role_of(value@),
{
    match value.tag("role") {
        Some(Json::Text(role)) => Some(role.clone()),
        Some(Json::Unsigned(n)) => if *n == 0 {
            Some("system".to_owned())
        } else if *n == 1 {
            Some("user".to_owned())
        } else if *n == 2 {
            Some("assistant".to_owned())
        } else if *n == 3 {
            Some("tool".to_owned())
        } else {
            None
        },
        _ => None,
    }
}

/// The message that a saved value is.
pub fn message_from(value: &Json) -> (r: Option<Message>)
    ensures
        text::opt(r) == message_of(value@),
{
    let role = match role_from(value) {
        None => {
            return None;
        },
        Some(role) => role,
    };
    if text::same(role.as_str(), "system") {
        let names: Vec<&'static str> = vec!["role", "content"];
        assert(names@ =~= seq!["role", "content"]);
        let seat = value.seat(&names, 2);
        let value = match &seat {
            Some(seat) => seat,
            None => value,
        };
        match value.need_text("content") {
            Some(content) => Some(Message::System { content }),
            None => None,
        }
    } else if text::same(role.as_str(), "user") {
        let names: Vec<&'static str> = vec!["role", "content"];
        assert(names@ =~= seq!["role", "content"]);
        let seat = value.seat(&names, 2);
        let value = match &seat {
            Some(seat) => seat,
            None => value,
        };
        match value.need_text("content") {
            Some(content) => Some(Message::User { content }),
            None => None,
        }
    } else if text::same(role.as_str(), "assistant") {
        assistant_from(value)
    } else if text::same(role.as_str(), "tool") {
        let names: Vec<&'static str> = vec!["role", "tool_call_id", "content"];
        assert(names@ =~= seq!["role", "tool_call_id", "content"]);
        let seat = value.seat(&names, 3);
        let value = match &seat {
            Some(seat) => seat,
            None => value,
        };
        match (value.need_text("tool_call_id"), value.need_text("content")) {
            (Some(tool_call_id), Some(content)) => Some(Message::Tool { tool_call_id, content }),
            _ => None,
        }
    } else {
        None
    }
}

// ---------------------------------------------------------------------------
// Records
// ---------------------------------------------------------------------------

/// What the first line of a session says.
#[derive(Debug, PartialEq, Eq)]
pub struct SessionHeader {
    pub format: u8,
    pub id: String,
    pub created_at: String,
    pub updated_at: String,
    pub model: Option<String>,
    pub thinking_level: Option<ThinkingLevel>,
}

/// What a [`SessionHeader`] holds.
#[verifier::ext_equal]
pub struct HeaderView {
    pub format: u8,
    pub id: Seq<char>,
    pub created_at: Seq<char>,
    pub updated_at: Seq<char>,
    pub model: Option<Seq<char>>,
    pub thinking_level: Option<ThinkingLevel>,
}

impl View for SessionHeader {
    type V = HeaderView;

    open spec fn view(&self) -> HeaderView {
        HeaderView {
            format: self.format,
            id: self.id@,
            created_at: self.created_at@,
            updated_at: self.updated_at@,
            model: text::opt(self.model),
            thinking_level: self.thinking_level,
        }
    }
}

pub open spec fn header_fields(header: HeaderView) -> Seq<(Seq<char>, JsonView)> {
    let head = seq![
        ("format"@, JsonView::Unsigned(header.format as u64)),
        ("id"@, JsonView::Text(header.id)),
        ("created_at"@, JsonView::Text(header.created_at)),
        ("updated_at"@, JsonView::Text(header.updated_at)),
    ];
    let modelled = json::with_text(head, "model"@, header.model);
    match header.thinking_level {
        Some(level) => modelled.push(
            ("thinking_level"@, JsonView::Text(thinking::level_name(level))),
        ),
        None => modelled,
    }
}

pub open spec fn header_record(header: HeaderView) -> JsonView {
    JsonView::Object(
        seq![
            ("type"@, JsonView::Text("session"@)),
            ("session"@, JsonView::Object(header_fields(header))),
        ],
    )
}

pub open spec fn message_record(message: MessageView) -> JsonView {
    JsonView::Object(
        seq![
            ("type"@, JsonView::Text("message"@)),
            ("message"@, JsonView::Object(message_fields(message))),
        ],
    )
}

/// The level with just this name.
pub open spec fn level_named(name: Seq<char>) -> Option<ThinkingLevel> {
    if name == "off"@ {
        Some(ThinkingLevel::Off)
    } else if name == "minimal"@ {
        Some(ThinkingLevel::Minimal)
    } else if name == "low"@ {
        Some(ThinkingLevel::Low)
    } else if name == "medium"@ {
        Some(ThinkingLevel::Medium)
    } else if name == "high"@ {
        Some(ThinkingLevel::High)
    } else if name == "xhigh"@ {
        Some(ThinkingLevel::XHigh)
    } else if name == "max"@ {
        Some(ThinkingLevel::Max)
    } else {
        None
    }
}

/// The level with just this name.
pub fn level_from_name(name: &str) -> (r: Option<ThinkingLevel>)
    ensures
        r == level_named(name@),
{
    if text::same(name, "off") {
        Some(ThinkingLevel::Off)
    } else if text::same(name, "minimal") {
        Some(ThinkingLevel::Minimal)
    } else if text::same(name, "low") {
        Some(ThinkingLevel::Low)
    } else if text::same(name, "medium") {
        Some(ThinkingLevel::Medium)
    } else if text::same(name, "high") {
        Some(ThinkingLevel::High)
    } else if text::same(name, "xhigh") {
        Some(ThinkingLevel::XHigh)
    } else if text::same(name, "max") {
        Some(ThinkingLevel::Max)
    } else {
        None
    }
}

/// The fields of a header.
pub open spec fn header_names() -> Seq<&'static str> {
    seq!["format", "id", "created_at", "updated_at", "model", "thinking_level"]
}

pub open spec fn header_of(value: JsonView) -> Option<HeaderView> {
    let value = value.seated(header_names(), 4);
    let level = match value.maybe_choice("thinking_level"@) {
        None => None,
        Some(None) => Some(None),
        Some(Some(name)) => match level_named(name) {
            Some(level) => Some(Some(level)),
            None => None,
        },
    };
    match (
        value.need_number("format"@, 255),
        value.need_text("id"@),
        value.need_text("created_at"@),
        value.need_text("updated_at"@),
        value.maybe_text("model"@),
        level,
    ) {
        (
            Some(format),
            Some(id),
            Some(created_at),
            Some(updated_at),
            Some(model),
            Some(thinking_level),
        ) => Some(
            HeaderView {
                format: format as u8,
                id,
                created_at,
                updated_at,
                model,
                thinking_level,
            },
        ),
        _ => None,
    }
}

/// One line of a session.
pub enum SessionRecord {
    Session(SessionHeader),
    Message(Message),
}

/// What a [`SessionRecord`] holds.
pub enum SessionRecordView {
    Session(HeaderView),
    Message(MessageView),
}

impl View for SessionRecord {
    type V = SessionRecordView;

    open spec fn view(&self) -> SessionRecordView {
        match *self {
            SessionRecord::Session(header) => SessionRecordView::Session(header@),
            SessionRecord::Message(message) => SessionRecordView::Message(message@),
        }
    }
}

pub open spec fn session_record_of(value: JsonView) -> Option<SessionRecordView> {
    match value.text_tag("type"@) {
        None => None,
        Some(kind) => if kind == "session"@ {
            match value.seated(seq!["type", "session"], 2).get("session"@) {
                Some(header) => match header_of(header) {
                    Some(header) => Some(SessionRecordView::Session(header)),
                    None => None,
                },
                None => None,
            }
        } else if kind == "message"@ {
            match value.seated(seq!["type", "message"], 2).get("message"@) {
                Some(message) => match message_of(message) {
                    Some(message) => Some(SessionRecordView::Message(message)),
                    None => None,
                },
                None => None,
            }
        } else {
            None
        },
    }
}

/// The record that a line of a session is.
pub open spec fn line_record(line: Seq<char>) -> Option<SessionRecordView> {
    match json::parsed_json(encode_utf8(line)) {
        Ok(value) => session_record_of(value),
        Err(_) => None,
    }
}

fn header_from(value: &Json) -> (r: Option<SessionHeader>)
    ensures
        text::opt(r) == header_of(value@),
{
    let names: Vec<&'static str> = vec!["format", "id", "created_at", "updated_at", "model", "thinking_level"];
    assert(names@ =~= header_names());
    let seat = value.seat(&names, 4);
    let value = match &seat {
        Some(seat) => seat,
        None => value,
    };
    let thinking_level = match value.maybe_choice("thinking_level") {
        None => {
            return None;
        },
        Some(None) => None,
        Some(Some(name)) => match level_from_name(name.as_str()) {
            Some(level) => Some(level),
            None => {
                return None;
            },
        },
    };
    let format: u64 = match value.need_number("format", 255) {
        None => {
            return None;
        },
        Some(format) => format,
    };
    match (
        value.need_text("id"),
        value.need_text("created_at"),
        value.need_text("updated_at"),
        value.maybe_text("model"),
    ) {
        (Some(id), Some(created_at), Some(updated_at), Some(model)) => Some(
            SessionHeader {
                format: format as u8,
                id,
                created_at,
                updated_at,
                model,
                thinking_level,
            },
        ),
        _ => None,
    }
}

fn session_record_from(value: &Json) -> (r: Option<SessionRecord>)
    ensures
        text::opt(r) == session_record_of(value@),
{
    let kind = match value.text_tag("type") {
        None => {
            return None;
        },
        Some(kind) => kind,
    };
    if text::same(kind, "session") {
        let names: Vec<&'static str> = vec!["type", "session"];
        assert(names@ =~= seq!["type", "session"]);
        let seat = value.seat(&names, 2);
        let value = match &seat {
            Some(seat) => seat,
            None => value,
        };
        match value.get("session") {
            Some(header) => match header_from(header) {
                Some(header) => Some(SessionRecord::Session(header)),
                None => None,
            },
            None => None,
        }
    } else if text::same(kind, "message") {
        let names: Vec<&'static str> = vec!["type", "message"];
        assert(names@ =~= seq!["type", "message"]);
        let seat = value.seat(&names, 2);
        let value = match &seat {
            Some(seat) => seat,
            None => value,
        };
        match value.get("message") {
            Some(message) => match message_from(message) {
                Some(message) => Some(SessionRecord::Message(message)),
                None => None,
            },
            None => None,
        }
    } else {
        None
    }
}

fn header_to_json(header: &SessionHeader) -> (r: Json)
    ensures
        r@ == header_record(header@),
{
    let mut inner: Vec<(String, Json)> = Vec::new();
    json::push_field(&mut inner, "format", Json::Unsigned(header.format as u64));
    json::push_text(&mut inner, "id", header.id.as_str());
    json::push_text(&mut inner, "created_at", header.created_at.as_str());
    json::push_text(&mut inner, "updated_at", header.updated_at.as_str());
    assert(json::fields_view(inner@) =~= seq![
        ("format"@, JsonView::Unsigned(header@.format as u64)),
        ("id"@, JsonView::Text(header@.id)),
        ("created_at"@, JsonView::Text(header@.created_at)),
        ("updated_at"@, JsonView::Text(header@.updated_at)),
    ]);
    json::push_maybe_text(&mut inner, "model", &header.model);
    match header.thinking_level {
        Some(level) => {
            json::push_text(&mut inner, "thinking_level", level.name());
        },
        None => {},
    }
    let mut fields: Vec<(String, Json)> = Vec::new();
    json::push_text(&mut fields, "type", "session");
    json::push_field(&mut fields, "session", Json::Object(inner));
    let r = Json::Object(fields);
    assert(r@->Object_0 =~= header_record(header@)->Object_0);
    r
}

fn message_to_record(message: &Message) -> (r: Json)
    ensures
        r@ == message_record(message@),
{
    let mut fields: Vec<(String, Json)> = Vec::new();
    json::push_text(&mut fields, "type", "message");
    json::push_field(&mut fields, "message", message_to_json(message));
    let r = Json::Object(fields);
    assert(r@->Object_0 =~= message_record(message@)->Object_0);
    r
}

/// The lines of a session.
pub open spec fn session_lines(header: HeaderView, messages: Seq<MessageView>) -> Seq<Seq<char>>
    decreases messages.len(),
{
    if messages.len() == 0 {
        seq![json::json_text(header_record(header))]
    } else {
        session_lines(header, messages.drop_last()).push(
            json::json_text(message_record(messages.last())),
        )
    }
}

/// The text of a session: a line for its header, and one for each message.
pub fn serialize_session(header: &SessionHeader, messages: &[Message]) -> (r: String)
    ensures
        r@ == text::lines_text(session_lines(header@, text::views(messages@))),
{
    let ghost model = text::views(messages@);
    let first = header_to_json(header);
    let mut r = first.to_text();
    r.push('\n');
    let mut i: usize = 0;
    proof {
        let lines = session_lines(header@, model.take(0));
        assert(lines.drop_last() =~= Seq::<Seq<char>>::empty());
        assert(text::lines_text(Seq::<Seq<char>>::empty()) =~= Seq::<char>::empty());
        assert(r@ =~= text::lines_text(lines));
    }
    while i < messages.len()
        invariant
            i <= messages@.len(),
            model == text::views(messages@),
            r@ == text::lines_text(session_lines(header@, model.take(i as int))),
        decreases messages@.len() - i,
    {
        assert(model.take(i as int + 1).drop_last() =~= model.take(i as int));
        assert(model.take(i as int + 1).last() == messages@[i as int]@);
        let ghost before = session_lines(header@, model.take(i as int));
        let record = message_to_record(&messages[i]);
        let line = record.to_text();
        let ghost written = r@;
        r.append(line.as_str());
        r.push('\n');
        assert(before.push(line@).drop_last() =~= before);
        assert(r@ =~= written + line@ + seq!['\n']);
        i = i + 1;
    }
    assert(model.take(model.len() as int) =~= model);
    r
}

// ---------------------------------------------------------------------------
// Files
// ---------------------------------------------------------------------------

/// An encrypted session as it is stored.
pub open spec fn encrypted_file(encryption: EncryptionView, content: Seq<char>) -> JsonView {
    JsonView::Object(
        seq![
            ("format"@, JsonView::Unsigned(1)),
            ("encryption"@, record::encryption_json(encryption)),
            ("content"@, JsonView::Text(content)),
        ],
    )
}

/// The format, the encryption and the content of a stored value, where it is
/// an encrypted session.
pub open spec fn encrypted_of(value: JsonView) -> Option<(u8, EncryptionView, Seq<char>)> {
    let value = value.seated(seq!["format", "encryption", "content"], 3);
    match (
        value.need_number("format"@, 255),
        record::encryption_of(value),
        value.need_text("content"@),
    ) {
        (Some(format), Some(Some(encryption)), Some(content)) => Some(
            (format as u8, encryption, content),
        ),
        _ => None,
    }
}

pub open spec fn encrypted_in(content: Seq<u8>) -> Option<(u8, EncryptionView, Seq<char>)> {
    match json::parsed_json(content) {
        Ok(value) => encrypted_of(value),
        Err(_) => None,
    }
}

/// The text that a session's file holds, or why it cannot be had. `shown` is
/// how the file is called in messages.
pub open spec fn session_text(
    shown: Seq<char>,
    id: Seq<char>,
    content: Seq<u8>,
    key: Option<Seq<u8>>,
) -> Result<Seq<char>, Seq<char>> {
    match encrypted_in(content) {
        Some((format, encryption, sealed)) => if format != 1 {
            Err(
                "unsupported encrypted session format "@ + text::decimal(format as nat) + " in "@
                    + shown,
            )
        } else {
            match key {
                None => Err(
                    "session is encrypted; set ZEX_MEMORY_ENCRYPTION_KEY to unlock it"@,
                ),
                Some(key) => secure::decrypted(key, id, sealed, encryption),
            }
        },
        None => if valid_utf8(content) {
            Ok(decode_utf8(content))
        } else {
            Err("session file is not UTF-8: "@ + secure::utf8_complaint(content))
        },
    }
}

/// What the first line says, or why it is no header. Of a line that is no
/// record it is not said what is wrong with it.
pub open spec fn header_in(line: Seq<char>) -> Result<HeaderView, Seq<char>> {
    match line_record(line) {
        None => Err("invalid session header JSON"@),
        Some(SessionRecordView::Session(header)) => if header.format == 1 {
            Ok(header)
        } else {
            Err("unsupported session format "@ + text::decimal(header.format as nat))
        },
        Some(SessionRecordView::Message(_)) => Err("first session record must be a header"@),
    }
}

/// The messages of the lines before number `n`, or the first thing that is
/// wrong. The first line is the header's. Of a line that is no record it is not
/// said what is wrong with it.
pub open spec fn messages_in(shown: Seq<char>, lines: Seq<Seq<char>>, n: nat) -> Result<
    Seq<MessageView>,
    Seq<char>,
>
    decreases n,
{
    if n <= 1 {
        Ok(Seq::empty())
    } else {
        match messages_in(shown, lines, (n - 1) as nat) {
            Err(message) => Err(message),
            Ok(before) => match line_record(lines[n - 1]) {
                None => Err(
                    "failed to parse session "@ + shown + " line "@ + text::decimal(n),
                ),
                Some(SessionRecordView::Message(message)) => Ok(before.push(message)),
                Some(SessionRecordView::Session(_)) => Err(
                    "session "@ + shown + " contains an unexpected header at line "@
                        + text::decimal(n),
                ),
            },
        }
    }
}

/// What the text of a session says, or why it is none.
pub open spec fn session_in(shown: Seq<char>, content: Seq<char>) -> Result<
    (HeaderView, Seq<MessageView>),
    Seq<char>,
> {
    let lines = text::lines(content);
    if lines.len() == 0 {
        Err("session "@ + shown + " is empty"@)
    } else {
        match header_in(lines[0]) {
            Err(cause) => Err("failed to parse session header "@ + shown + ": "@ + cause),
            Ok(header) => match messages_in(shown, lines, lines.len()) {
                Err(message) => Err(message),
                Ok(messages) => Ok((header, messages)),
            },
        }
    }
}

/// Whether a line that is the text of a value is read as that value.
pub open spec fn faithful(line: Seq<char>) -> bool {
    forall|v: JsonView|
        #![trigger json::json_text(v)]
        json::plain(v, json::MAX_DEPTH as nat) && json::json_text(v) == line ==> line_record(line)
            == session_record_of(json::canonical(v))
}

fn record_from_line(line: &str) -> (r: Option<SessionRecord>)
    ensures
        text::opt(r) == line_record(line@),
        faithful(line@),
{
    match json::parse_json(line.as_bytes()) {
        Ok(value) => session_record_from(&value),
        Err(_) => None,
    }
}

fn parse_header_line(line: &str) -> (r: Result<SessionHeader, String>)
    ensures
        text::res(r) == header_in(line@),
        faithful(line@),
{
    match record_from_line(line) {
        None => Err("invalid session header JSON".to_owned()),
        Some(SessionRecord::Session(header)) => if header.format == 1 {
            Ok(header)
        } else {
            let format = text::decimal_of(header.format as u64);
            Err(text::concat("unsupported session format ", format.as_str()))
        },
        Some(SessionRecord::Message(_)) => Err(
            "first session record must be a header".to_owned(),
        ),
    }
}

proof fn lemma_messages_error(shown: Seq<char>, lines: Seq<Seq<char>>, n: nat, m: nat)
    requires
        n <= m,
        messages_in(shown, lines, n) is Err,
    ensures
        messages_in(shown, lines, m) == messages_in(shown, lines, n),
    decreases m,
{
    if n < m {
        lemma_messages_error(shown, lines, n, (m - 1) as nat);
    }
}

/// What a session's file says, or why it cannot be had.
pub open spec fn session_file(
    shown: Seq<char>,
    id: Seq<char>,
    content: Seq<u8>,
    key: Option<Seq<u8>>,
) -> Result<(HeaderView, Seq<MessageView>), Seq<char>> {
    match session_text(shown, id, content, key) {
        Ok(text) => session_in(shown, text),
        Err(message) => Err(message),
    }
}

// ---------------------------------------------------------------------------
// Reading back
// ---------------------------------------------------------------------------

/// Whether a message can be saved and read back with certainty: what its
/// provider wants back, if anything, is plain and not null.
pub open spec fn savable(message: MessageView) -> bool {
    match message {
        MessageView::Assistant { provider_state: Some(state), .. } => !(state is Null)
            && json::plain(state, (json::MAX_DEPTH - 2) as nat),
        _ => true,
    }
}

/// A message as it is read back: the objects in what its provider wants back
/// are ordered by name.
pub open spec fn restored(message: MessageView) -> MessageView {
    match message {
        MessageView::Assistant { content, thinking, tool_calls, provider_state: Some(state) } =>
            MessageView::Assistant {
            content,
            thinking,
            tool_calls,
            provider_state: Some(json::canonical(state)),
        },
        _ => message,
    }
}

proof fn lemma_message_names()
    ensures
        "role"@.len() == 4,
        "content"@.len() == 7,
        "thinking"@.len() == 8,
        "tool_calls"@.len() == 10,
        "provider_state"@.len() == 14,
        "tool_call_id"@.len() == 12,
        "system"@.len() == 6,
        "user"@.len() == 4,
        "assistant"@.len() == 9,
        "tool"@.len() == 4,
        "user"@ != "tool"@,
        "id"@.len() == 2,
        "name"@.len() == 4,
        "arguments"@.len() == 9,
        "type"@.len() == 4,
        "session"@.len() == 7,
        "message"@.len() == 7,
        "session"@ != "message"@,
{
    reveal_strlit("role");
    reveal_strlit("content");
    reveal_strlit("thinking");
    reveal_strlit("tool_calls");
    reveal_strlit("provider_state");
    reveal_strlit("tool_call_id");
    reveal_strlit("system");
    reveal_strlit("user");
    reveal_strlit("assistant");
    reveal_strlit("tool");
    reveal_strlit("id");
    reveal_strlit("name");
    reveal_strlit("arguments");
    reveal_strlit("type");
    reveal_strlit("session");
    reveal_strlit("message");
    assert("user"@[0] != "tool"@[0]);
    assert("session"@[0] != "message"@[0]);
}

proof fn lemma_header_names()
    ensures
        "format"@.len() == 6,
        "id"@.len() == 2,
        "created_at"@.len() == 10,
        "updated_at"@.len() == 10,
        "created_at"@ != "updated_at"@,
        "model"@.len() == 5,
        "thinking_level"@.len() == 14,
{
    reveal_strlit("format");
    reveal_strlit("id");
    reveal_strlit("created_at");
    reveal_strlit("updated_at");
    reveal_strlit("model");
    reveal_strlit("thinking_level");
    assert("created_at"@[0] != "updated_at"@[0]);
}

pub proof fn lemma_level_names(level: ThinkingLevel)
    ensures
        level_named(thinking::level_name(level)) == Some(level),
{
    reveal_strlit("off");
    reveal_strlit("minimal");
    reveal_strlit("low");
    reveal_strlit("medium");
    reveal_strlit("high");
    reveal_strlit("xhigh");
    reveal_strlit("max");
    assert("off"@[0] != "low"@[0]);
    assert("off"@[0] != "max"@[0]);
    assert("low"@[0] != "max"@[0]);
    assert("minimal"@.len() == 7 && "medium"@.len() == 6 && "high"@.len() == 4 && "xhigh"@.len()
        == 5);
}

proof fn lemma_call_back(call: ToolCallView)
    ensures
        call_of(json::canonical(call_json(call))) == Some(call),
        json::plain(call_json(call), 1),
{
    lemma_message_names();
    let none = Seq::<(Seq<char>, JsonView)>::empty();
    let one = none.push(("id"@, JsonView::Text(call.id)));
    let two = one.push(("name"@, JsonView::Text(call.name)));
    let all = two.push(("arguments"@, JsonView::Text(call.arguments)));
    json::lemma_last_field_push(none, "id"@, JsonView::Text(call.id));
    json::lemma_last_field_push(one, "name"@, JsonView::Text(call.name));
    json::lemma_last_field_push(two, "arguments"@, JsonView::Text(call.arguments));
    assert(call_json(call)->Object_0 =~= all);
    json::lemma_canonical_get(all, "id"@);
    json::lemma_canonical_get(all, "name"@);
    json::lemma_canonical_get(all, "arguments"@);
    reveal_with_fuel(json::plain, 2);
}

proof fn lemma_calls_back(calls: Seq<ToolCallView>)
    ensures
        calls_of(json::canonical_items(calls_json(calls))) == Some(calls),
        forall|i: int|
            0 <= i < calls.len() ==> json::plain(#[trigger] calls_json(calls)[i], 1),
    decreases calls.len(),
{
    if calls.len() == 0 {
        assert(calls =~= Seq::<ToolCallView>::empty());
    } else {
        let front = calls.drop_last();
        lemma_calls_back(front);
        lemma_call_back(calls.last());
        let items = calls_json(calls);
        assert(items.drop_last() =~= calls_json(front));
        assert(items.last() == call_json(calls.last()));
        let read = json::canonical_items(items);
        assert(read.drop_last() =~= json::canonical_items(items.drop_last()));
        assert(read.last() == json::canonical(items.last()));
        assert(front.push(calls.last()) =~= calls);
        assert forall|i: int| 0 <= i < calls.len() implies json::plain(
            #[trigger] calls_json(calls)[i],
            1,
        ) by {
            lemma_call_back(calls[i]);
        }
    }
}

proof fn lemma_simple_message_back(message: MessageView)
    requires
        !(message is Assistant),
    ensures
        message_of(json::canonical(message_json(message))) == Some(message),
        json::plain(message_json(message), 1),
{
    lemma_message_names();
    reveal_with_fuel(json::plain, 2);
    let none = Seq::<(Seq<char>, JsonView)>::empty();
    let fields = message_fields(message);
    match message {
        MessageView::System { content } => {
            let one = none.push(("role"@, JsonView::Text("system"@)));
            let all = one.push(("content"@, JsonView::Text(content)));
            json::lemma_last_field_push(none, "role"@, JsonView::Text("system"@));
            json::lemma_last_field_push(one, "content"@, JsonView::Text(content));
            assert(fields =~= all);
        },
        MessageView::User { content } => {
            let one = none.push(("role"@, JsonView::Text("user"@)));
            let all = one.push(("content"@, JsonView::Text(content)));
            json::lemma_last_field_push(none, "role"@, JsonView::Text("user"@));
            json::lemma_last_field_push(one, "content"@, JsonView::Text(content));
            assert(fields =~= all);
        },
        MessageView::Tool { tool_call_id, content } => {
            let one = none.push(("role"@, JsonView::Text("tool"@)));
            let two = one.push(("tool_call_id"@, JsonView::Text(tool_call_id)));
            let all = two.push(("content"@, JsonView::Text(content)));
            json::lemma_last_field_push(none, "role"@, JsonView::Text("tool"@));
            json::lemma_last_field_push(one, "tool_call_id"@, JsonView::Text(tool_call_id));
            json::lemma_last_field_push(two, "content"@, JsonView::Text(content));
            assert(fields =~= all);
            json::lemma_canonical_get(fields, "tool_call_id"@);
        },
        _ => {},
    }
    json::lemma_canonical_get(fields, "role"@);
    json::lemma_canonical_get(fields, "content"@);
}

proof fn lemma_assistant_back(
    content: Seq<char>,
    thought: Option<Seq<char>>,
    tool_calls: Seq<ToolCallView>,
    provider_state: Option<JsonView>,
)
    requires
        savable(
            MessageView::Assistant { content, thinking: thought, tool_calls, provider_state },
        ),
    ensures
        ({
            let message = MessageView::Assistant {
                content,
                thinking: thought,
                tool_calls,
                provider_state,
            };
            &&& message_of(json::canonical(message_json(message))) == Some(restored(message))
            &&& json::plain(message_json(message), (json::MAX_DEPTH - 1) as nat)
        }),
{
    let message = MessageView::Assistant { content, thinking: thought, tool_calls, provider_state };
    lemma_message_names();
    lemma_calls_back(tool_calls);
    let none = Seq::<(Seq<char>, JsonView)>::empty();
    let one = none.push(("role"@, JsonView::Text("assistant"@)));
    let head = one.push(("content"@, JsonView::Text(content)));
    json::lemma_last_field_push(none, "role"@, JsonView::Text("assistant"@));
    json::lemma_last_field_push(one, "content"@, JsonView::Text(content));
    let thought_fields = json::with_text(head, "thinking"@, thought);
    if let Some(s) = thought {
        json::lemma_last_field_push(head, "thinking"@, JsonView::Text(s));
    }
    let array = JsonView::Array(calls_json(tool_calls));
    let called = if tool_calls.len() == 0 {
        thought_fields
    } else {
        thought_fields.push(("tool_calls"@, array))
    };
    if tool_calls.len() > 0 {
        json::lemma_last_field_push(thought_fields, "tool_calls"@, array);
    }
    let all = match provider_state {
        Some(state) => called.push(("provider_state"@, state)),
        None => called,
    };
    if let Some(state) = provider_state {
        json::lemma_last_field_push(called, "provider_state"@, state);
    }
    assert(message_fields(message) =~= all);
    json::lemma_canonical_get(all, "role"@);
    json::lemma_canonical_get(all, "content"@);
    json::lemma_canonical_get(all, "thinking"@);
    json::lemma_canonical_get(all, "tool_calls"@);
    json::lemma_canonical_get(all, "provider_state"@);
    if let Some(state) = provider_state {
        assert(!(json::canonical(state) is Null));
    }
    if tool_calls.len() == 0 {
        assert(tool_calls =~= Seq::<ToolCallView>::empty());
    }
    let depth = (json::MAX_DEPTH - 1) as nat;
    assert forall|i: int| 0 <= i < all.len() implies json::plain(
        (#[trigger] all[i]).1,
        (depth - 1) as nat,
    ) by {
        if all[i].1 == array {
            assert forall|j: int| 0 <= j < tool_calls.len() implies json::plain(
                #[trigger] calls_json(tool_calls)[j],
                (depth - 2) as nat,
            ) by {
                json::lemma_plain_deeper(calls_json(tool_calls)[j], 1, (depth - 2) as nat);
            }
        }
    }
}

/// A message that was saved is read back.
proof fn lemma_message_back(message: MessageView)
    requires
        savable(message),
    ensures
        session_record_of(json::canonical(message_record(message))) == Some(
            SessionRecordView::Message(restored(message)),
        ),
        json::plain(message_record(message), json::MAX_DEPTH as nat),
{
    lemma_message_names();
    match message {
        MessageView::Assistant { content, thinking, tool_calls, provider_state } => {
            lemma_assistant_back(content, thinking, tool_calls, provider_state);
        },
        _ => {
            lemma_simple_message_back(message);
            json::lemma_plain_deeper(message_json(message), 1, (json::MAX_DEPTH - 1) as nat);
        },
    }
    let none = Seq::<(Seq<char>, JsonView)>::empty();
    let one = none.push(("type"@, JsonView::Text("message"@)));
    let all = one.push(("message"@, message_json(message)));
    json::lemma_last_field_push(none, "type"@, JsonView::Text("message"@));
    json::lemma_last_field_push(one, "message"@, message_json(message));
    assert(message_record(message)->Object_0 =~= all);
    json::lemma_canonical_get(all, "type"@);
    json::lemma_canonical_get(all, "message"@);
    assert(json::plain(JsonView::Text("message"@), (json::MAX_DEPTH - 1) as nat));
}

/// A header that was saved is read back.
proof fn lemma_header_back(header: HeaderView)
    ensures
        session_record_of(json::canonical(header_record(header))) == Some(
            SessionRecordView::Session(header),
        ),
        json::plain(header_record(header), json::MAX_DEPTH as nat),
{
    lemma_message_names();
    lemma_header_names();
    let none = Seq::<(Seq<char>, JsonView)>::empty();
    let one = none.push(("format"@, JsonView::Unsigned(header.format as u64)));
    let two = one.push(("id"@, JsonView::Text(header.id)));
    let three = two.push(("created_at"@, JsonView::Text(header.created_at)));
    let head = three.push(("updated_at"@, JsonView::Text(header.updated_at)));
    json::lemma_last_field_push(none, "format"@, JsonView::Unsigned(header.format as u64));
    json::lemma_last_field_push(one, "id"@, JsonView::Text(header.id));
    json::lemma_last_field_push(two, "created_at"@, JsonView::Text(header.created_at));
    json::lemma_last_field_push(three, "updated_at"@, JsonView::Text(header.updated_at));
    let modelled = json::with_text(head, "model"@, header.model);
    if let Some(s) = header.model {
        json::lemma_last_field_push(head, "model"@, JsonView::Text(s));
    }
    if let Some(level) = header.thinking_level {
        lemma_level_names(level);
        json::lemma_last_field_push(
            modelled,
            "thinking_level"@,
            JsonView::Text(thinking::level_name(level)),
        );
    }
    let fields = header_fields(header);
    assert(fields =~= match header.thinking_level {
        Some(level) => modelled.push(
            ("thinking_level"@, JsonView::Text(thinking::level_name(level))),
        ),
        None => modelled,
    });
    json::lemma_canonical_get(fields, "format"@);
    json::lemma_canonical_get(fields, "id"@);
    json::lemma_canonical_get(fields, "created_at"@);
    json::lemma_canonical_get(fields, "updated_at"@);
    json::lemma_canonical_get(fields, "model"@);
    json::lemma_canonical_get(fields, "thinking_level"@);
    let inner = JsonView::Object(fields);
    assert(header_of(json::canonical(inner)) == Some(header));
    let first = none.push(("type"@, JsonView::Text("session"@)));
    let all = first.push(("session"@, inner));
    json::lemma_last_field_push(none, "type"@, JsonView::Text("session"@));
    json::lemma_last_field_push(first, "session"@, inner);
    assert(header_record(header)->Object_0 =~= all);
    json::lemma_canonical_get(all, "type"@);
    json::lemma_canonical_get(all, "session"@);
    assert(json::plain(inner, (json::MAX_DEPTH - 1) as nat)) by {
        assert forall|i: int| 0 <= i < fields.len() implies json::plain(
            (#[trigger] fields[i]).1,
            (json::MAX_DEPTH - 2) as nat,
        ) by {}
    }
    assert(json::plain(JsonView::Text("session"@), (json::MAX_DEPTH - 1) as nat));
}

/// The text of a session.
pub open spec fn saved_text(header: HeaderView, messages: Seq<MessageView>) -> Seq<char> {
    text::lines_text(session_lines(header, messages))
}

/// Whether a session can be saved and read back with certainty.
pub open spec fn savable_session(header: HeaderView, messages: Seq<MessageView>) -> bool {
    header.format == 1 && forall|i: int| 0 <= i < messages.len() ==> savable(#[trigger] messages[i])
}

/// The messages as they are read back.
pub open spec fn all_restored(messages: Seq<MessageView>) -> Seq<MessageView> {
    messages.map_values(|message: MessageView| restored(message))
}

proof fn lemma_session_lines(header: HeaderView, messages: Seq<MessageView>)
    ensures
        session_lines(header, messages).len() == messages.len() + 1,
        session_lines(header, messages)[0] == json::json_text(header_record(header)),
        forall|i: int|
            1 <= i <= messages.len() ==> #[trigger] session_lines(header, messages)[i]
                == json::json_text(message_record(messages[i - 1])),
    decreases messages.len(),
{
    if messages.len() > 0 {
        lemma_session_lines(header, messages.drop_last());
    }
}

proof fn lemma_quiet_is_line(s: Seq<char>)
    requires
        json::quiet(s),
    ensures
        text::is_line(s),
{
    assert forall|i: int| 0 <= i < s.len() implies s[i] != '\n' by {
        assert(s[i] as u32 >= 32);
    }
    if s.len() > 0 {
        assert(s[s.len() - 1] as u32 >= 32);
    }
}

/// The text of a session that can be saved has the session's lines.
proof fn lemma_saved_lines(header: HeaderView, messages: Seq<MessageView>)
    requires
        savable_session(header, messages),
    ensures
        text::lines(saved_text(header, messages)) == session_lines(header, messages),
{
    let lines = session_lines(header, messages);
    lemma_session_lines(header, messages);
    assert forall|i: int| 0 <= i < lines.len() implies text::is_line(#[trigger] lines[i]) by {
        if i == 0 {
            lemma_header_back(header);
            json::lemma_quiet_json(header_record(header), json::MAX_DEPTH as nat);
        } else {
            lemma_message_back(messages[i - 1]);
            json::lemma_quiet_json(message_record(messages[i - 1]), json::MAX_DEPTH as nat);
        }
        lemma_quiet_is_line(lines[i]);
    }
    text::lemma_lines_read_back(lines);
}

/// As far as its lines are read faithfully, a saved session is read back.
proof fn lemma_session_back(
    shown: Seq<char>,
    header: HeaderView,
    messages: Seq<MessageView>,
    n: nat,
)
    requires
        savable_session(header, messages),
        1 <= n <= messages.len() + 1,
        forall|k: int| 0 <= k < n ==> faithful(#[trigger] session_lines(header, messages)[k]),
    ensures
        header_in(session_lines(header, messages)[0]) == Ok::<HeaderView, Seq<char>>(header),
        messages_in(shown, session_lines(header, messages), n) == Ok::<Seq<MessageView>, Seq<char>>(
            all_restored(messages.take(n - 1)),
        ),
    decreases n,
{
    let lines = session_lines(header, messages);
    lemma_session_lines(header, messages);
    assert(faithful(lines[0]));
    lemma_header_back(header);
    let first = header_record(header);
    assert(json::json_text(first) == lines[0]);
    if n == 1 {
        assert(all_restored(messages.take(0)) =~= Seq::<MessageView>::empty());
    } else {
        lemma_session_back(shown, header, messages, (n - 1) as nat);
        let message = messages[n - 2];
        lemma_message_back(message);
        assert(faithful(lines[n - 1]));
        assert(json::json_text(message_record(message)) == lines[n - 1]);
        assert(messages.take(n - 1).drop_last() =~= messages.take(n - 2));
        assert(all_restored(messages.take(n - 1)) =~= all_restored(messages.take(n - 2)).push(
            restored(message),
        ));
    }
}

fn shown_failure(before: &str, shown: &str, after: &str) -> (r: String)
    ensures
        r@ == before@ + shown@ + after@,
{
    let mut r = text::concat(before, shown);
    r.append(after);
    r
}

/// What the text of a session says. A session that was saved is read back as
/// it was, the objects in what its providers want back ordered by name.
pub fn parse_session_text(shown: &str, content: &str) -> (r: Result<
    (SessionHeader, Vec<Message>),
    String,
>)
    ensures
        match r {
            Ok((header, messages)) => session_in(shown@, content@) == Ok::<
                (HeaderView, Seq<MessageView>),
                Seq<char>,
            >((header@, text::views(messages@))),
            Err(message) => session_in(shown@, content@) == Err::<
                (HeaderView, Seq<MessageView>),
                Seq<char>,
            >(message@),
        },
        forall|header: HeaderView, messages: Seq<MessageView>|
            #![trigger saved_text(header, messages)]
            savable_session(header, messages) && saved_text(header, messages) == content@
                ==> session_in(shown@, content@) == Ok::<(HeaderView, Seq<MessageView>), Seq<char>>(
                (header, all_restored(messages)),
            ),
{
    let lines = text::lines_of(content);
    let ghost model = text::lines(content@);
    if lines.len() == 0 {
        proof {
            assert forall|header: HeaderView, messages: Seq<MessageView>|
                #![trigger saved_text(header, messages)]
                savable_session(header, messages) && saved_text(header, messages)
                    == content@ implies false by {
                lemma_saved_lines(header, messages);
                lemma_session_lines(header, messages);
            }
        }
        return Err(shown_failure("session ", shown, " is empty"));
    }
    assert(model[0] == lines@[0]@);
    let header = match parse_header_line(lines[0].as_str()) {
        Ok(header) => header,
        Err(cause) => {
            let mut message = shown_failure("failed to parse session header ", shown, ": ");
            message.append(cause.as_str());
            proof {
                assert forall|header: HeaderView, messages: Seq<MessageView>|
                    #![trigger saved_text(header, messages)]
                    savable_session(header, messages) && saved_text(header, messages)
                        == content@ implies false by {
                    lemma_saved_lines(header, messages);
                    lemma_session_lines(header, messages);
                    lemma_session_back(shown@, header, messages, 1);
                }
            }
            return Err(message);
        },
    };
    let mut messages: Vec<Message> = Vec::new();
    let mut i: usize = 1;
    assert(text::views(messages@) =~= Seq::<MessageView>::empty());
    while i < lines.len()
        invariant
            1 <= i <= lines@.len(),
            model == text::lines(content@),
            model == text::views(lines@),
            header_in(model[0]) == Ok::<HeaderView, Seq<char>>(header@),
            forall|k: int| 0 <= k < i ==> faithful(#[trigger] model[k]),
            messages_in(shown@, model, i as nat) == Ok::<Seq<MessageView>, Seq<char>>(
                text::views(messages@),
            ),
        decreases lines@.len() - i,
    {
        assert(model[i as int] == lines@[i as int]@);
        let record = record_from_line(lines[i].as_str());
        assert(faithful(model[i as int]));
        match record {
            Some(SessionRecord::Message(message)) => {
                proof {
                    text::lemma_views_push(messages@, message);
                }
                messages.push(message);
            },
            other => {
                let number = text::decimal_of(i as u64 + 1);
                let mut message = match other {
                    None => shown_failure("failed to parse session ", shown, " line "),
                    Some(_) => shown_failure(
                        "session ",
                        shown,
                        " contains an unexpected header at line ",
                    ),
                };
                message.append(number.as_str());
                proof {
                    lemma_messages_error(shown@, model, (i + 1) as nat, model.len());
                    assert forall|header: HeaderView, messages: Seq<MessageView>|
                        #![trigger saved_text(header, messages)]
                        savable_session(header, messages) && saved_text(header, messages)
                            == content@ implies false by {
                        lemma_saved_lines(header, messages);
                        lemma_session_lines(header, messages);
                        lemma_session_back(shown@, header, messages, (i + 1) as nat);
                    }
                }
                return Err(message);
            },
        }
        i = i + 1;
    }
    proof {
        assert forall|header: HeaderView, messages: Seq<MessageView>|
            #![trigger saved_text(header, messages)]
            savable_session(header, messages) && saved_text(header, messages)
                == content@ implies session_in(shown@, content@) == Ok::<
            (HeaderView, Seq<MessageView>),
            Seq<char>,
        >((header, all_restored(messages))) by {
            lemma_saved_lines(header, messages);
            lemma_session_lines(header, messages);
            lemma_session_back(shown@, header, messages, model.len());
            assert(messages.take(messages.len() as int) =~= messages);
        }
    }
    Ok((header, messages))
}

/// Whether `content` is what is stored for the text of the session `id`: the
/// text itself, or the text encrypted under the key.
pub open spec fn stores_text(
    content: Seq<u8>,
    id: Seq<char>,
    key: Option<Seq<u8>>,
    body: Seq<char>,
) -> bool {
    match key {
        None => content == encode_utf8(body),
        Some(key) => exists|sealed: Seq<char>, encryption: EncryptionView|
            #![trigger encrypted_file(encryption, sealed)]
            content == encode_utf8(json::json_text(encrypted_file(encryption, sealed)))
                && secure::encrypts_to(key, id, body, sealed, encryption),
    }
}

/// The cipher that the file of a session is kept under.
pub fn session_cipher(key: &EncryptionKey, id: &str) -> (r: Result<Cipher, String>)
    ensures
        text::res(r) == secure::derived_cipher(key@, "session:"@ + id@),
        r matches Ok(cipher) ==> cipher.wf(),
{
    let context = text::concat("session:", id);
    Cipher::new(key, context.as_str())
}

/// What is stored for the text of the session `id`.
pub fn encode_session(id: &str, content: &str, cipher: Option<&Cipher>) -> (r: Result<
    Vec<u8>,
    String,
>)
    requires
        cipher matches Some(cipher) ==> cipher.wf(),
    ensures
        match r {
            Ok(stored) => (cipher is None || secure::sealable(content@)) && stores_text(
                stored@,
                id@,
                match cipher {
                    Some(cipher) => Some(cipher@.key),
                    None => None,
                },
                content@,
            ),
            Err(message) => cipher is Some && !secure::sealable(content@) && message@
                == "failed to encrypt content"@,
        },
{
    let cipher = match cipher {
        None => {
            let stored = crate::memory::index::copy_bytes(
                content.as_bytes(),
                0,
                content.as_bytes().len(),
            );
            assert(stored@ =~= encode_utf8(content@));
            return Ok(stored);
        },
        Some(cipher) => cipher,
    };
    match cipher.encrypt(id, content) {
        Err(message) => Err(message),
        Ok((sealed, encryption)) => {
            let mut fields: Vec<(String, Json)> = Vec::new();
            json::push_field(&mut fields, "format", Json::Unsigned(1));
            json::push_field(
                &mut fields,
                "encryption",
                record::encryption_to_json(&encryption),
            );
            json::push_text(&mut fields, "content", sealed.as_str());
            let file = Json::Object(fields);
            assert(file@->Object_0 =~= encrypted_file(encryption@, sealed@)->Object_0);
            let shown = file.to_text();
            let bytes = shown.as_str().as_bytes();
            let stored = crate::memory::index::copy_bytes(bytes, 0, bytes.len());
            assert(stored@ =~= encode_utf8(json::json_text(encrypted_file(encryption@, sealed@))));
            Ok(stored)
        },
    }
}

proof fn lemma_encrypted_names()
    ensures
        "format"@.len() == 6,
        "encryption"@.len() == 10,
        "content"@.len() == 7,
        "nonce"@.len() == 5,
        "type"@.len() == 4,
        "session"@.len() == 7,
        "content"@ != "session"@,
{
    reveal_strlit("format");
    reveal_strlit("encryption");
    reveal_strlit("content");
    reveal_strlit("nonce");
    reveal_strlit("type");
    reveal_strlit("session");
    assert("content"@[0] != "session"@[0]);
}

/// An encrypted session is read back as one.
proof fn lemma_encrypted_back(encryption: EncryptionView, sealed: Seq<char>)
    ensures
        encrypted_of(json::canonical(encrypted_file(encryption, sealed))) == Some(
            (1u8, encryption, sealed),
        ),
        json::plain(encrypted_file(encryption, sealed), json::MAX_DEPTH as nat),
{
    lemma_encrypted_names();
    let none = Seq::<(Seq<char>, JsonView)>::empty();
    let inner_one = none.push(("format"@, JsonView::Unsigned(encryption.format as u64)));
    let inner = inner_one.push(("nonce"@, JsonView::Text(encryption.nonce)));
    json::lemma_last_field_push(none, "format"@, JsonView::Unsigned(encryption.format as u64));
    json::lemma_last_field_push(inner_one, "nonce"@, JsonView::Text(encryption.nonce));
    let nested = record::encryption_json(encryption);
    assert(nested->Object_0 =~= inner);
    json::lemma_canonical_get(inner, "format"@);
    json::lemma_canonical_get(inner, "nonce"@);
    let one = none.push(("format"@, JsonView::Unsigned(1)));
    let two = one.push(("encryption"@, nested));
    let all = two.push(("content"@, JsonView::Text(sealed)));
    json::lemma_last_field_push(none, "format"@, JsonView::Unsigned(1));
    json::lemma_last_field_push(one, "encryption"@, nested);
    json::lemma_last_field_push(two, "content"@, JsonView::Text(sealed));
    assert(encrypted_file(encryption, sealed)->Object_0 =~= all);
    json::lemma_canonical_get(all, "format"@);
    json::lemma_canonical_get(all, "encryption"@);
    json::lemma_canonical_get(all, "content"@);
    assert(json::plain(nested, (json::MAX_DEPTH - 1) as nat)) by {
        assert forall|i: int| 0 <= i < inner.len() implies json::plain(
            (#[trigger] inner[i]).1,
            (json::MAX_DEPTH - 2) as nat,
        ) by {}
    }
    assert forall|i: int| 0 <= i < all.len() implies json::plain(
        (#[trigger] all[i]).1,
        (json::MAX_DEPTH - 1) as nat,
    ) by {}
}

/// The header of a session is no encrypted session.
proof fn lemma_header_is_open(header: HeaderView)
    ensures
        encrypted_of(json::canonical(header_record(header))) is None,
{
    lemma_encrypted_names();
    let none = Seq::<(Seq<char>, JsonView)>::empty();
    let inner = JsonView::Object(header_fields(header));
    let one = none.push(("type"@, JsonView::Text("session"@)));
    let all = one.push(("session"@, inner));
    json::lemma_last_field_push(none, "type"@, JsonView::Text("session"@));
    json::lemma_last_field_push(one, "session"@, inner);
    assert(header_record(header)->Object_0 =~= all);
    json::lemma_canonical_get(all, "content"@);
}

/// The text of a session is its header's, and more that is white space only
/// where there are no messages.
proof fn lemma_saved_text_head(header: HeaderView, messages: Seq<MessageView>) -> (rest: Seq<char>)
    ensures
        saved_text(header, messages) == json::json_text(header_record(header)) + rest,
        messages.len() == 0 ==> json::is_white(rest),
        messages.len() > 0 ==> !json::is_white(rest),
    decreases messages.len(),
{
    let lines = session_lines(header, messages);
    let first = json::json_text(header_record(header));
    if messages.len() == 0 {
        let rest = seq!['\n'];
        assert(lines.drop_last() =~= Seq::<Seq<char>>::empty());
        assert(text::lines_text(Seq::<Seq<char>>::empty()) =~= Seq::<char>::empty());
        assert(saved_text(header, messages) =~= first + rest);
        rest
    } else {
        let before = lemma_saved_text_head(header, messages.drop_last());
        let record = message_record(messages.last());
        let line = json::json_text(record);
        let rest = before + line + seq!['\n'];
        assert(lines.drop_last() =~= session_lines(header, messages.drop_last()));
        assert(saved_text(header, messages) =~= first + rest);
        reveal_strlit("{");
        reveal_strlit("}");
        assert(line.len() > 0 && line[0] == '{') by {
            assert(line == "{"@ + json::fields_text(record->Object_0) + "}"@);
        }
        assert(rest[before.len() as int] == '{');
        rest
    }
}

/// What is stored for a session. What was stored is read back as it was, the
/// objects in what its providers want back ordered by name.
pub fn read_session(shown: &str, id: &str, content: &[u8], cipher: Option<&Cipher>) -> (r: Result<
    (SessionHeader, Vec<Message>),
    String,
>)
    requires
        cipher matches Some(cipher) ==> cipher.wf(),
    ensures
        match r {
            Ok((header, messages)) => session_file(
                shown@,
                id@,
                content@,
                match cipher {
                    Some(cipher) => Some(cipher@.key),
                    None => None,
                },
            ) == Ok::<(HeaderView, Seq<MessageView>), Seq<char>>(
                (header@, text::views(messages@)),
            ),
            Err(message) => session_file(
                shown@,
                id@,
                content@,
                match cipher {
                    Some(cipher) => Some(cipher@.key),
                    None => None,
                },
            ) == Err::<(HeaderView, Seq<MessageView>), Seq<char>>(message@),
        },
        forall|header: HeaderView, messages: Seq<MessageView>|
            #![trigger saved_text(header, messages)]
            savable_session(header, messages) && stores_text(
                content@,
                id@,
                match cipher {
                    Some(cipher) => Some(cipher@.key),
                    None => None,
                },
                saved_text(header, messages),
            ) ==> (r matches Ok((read_header, read_messages)) && read_header@ == header
                && text::views(read_messages@) == all_restored(messages)),
{
    let ghost key: Option<Seq<u8>> = match cipher {
        Some(cipher) => Some(cipher@.key),
        None => None,
    };
    let parsed = match json::parse_json(content) {
        Ok(value) => encrypted_from(&value),
        Err(_) => None,
    };
    proof {
        assert forall|header: HeaderView, messages: Seq<MessageView>|
            #![trigger saved_text(header, messages)]
            savable_session(header, messages) && content@ == encode_utf8(
                saved_text(header, messages),
            ) implies encrypted_in(content@) is None by {
            let rest = lemma_saved_text_head(header, messages);
            lemma_header_back(header);
            lemma_header_is_open(header);
        }
        assert forall|sealed: Seq<char>, encryption: EncryptionView|
            #![trigger encrypted_file(encryption, sealed)]
            content@ == encode_utf8(
                json::json_text(encrypted_file(encryption, sealed)),
            ) implies encrypted_in(content@) == Some((1u8, encryption, sealed)) by {
            lemma_encrypted_back(encryption, sealed);
        }
    }
    match parsed {
        Some((format, encryption, sealed)) => {
            if format != 1 {
                let number = text::decimal_of(format as u64);
                let mut message = text::concat(
                    "unsupported encrypted session format ",
                    number.as_str(),
                );
                message.append(" in ");
                message.append(shown);
                return Err(message);
            }
            let cipher = match cipher {
                Some(cipher) => cipher,
                None => {
                    return Err(
                        "session is encrypted; set ZEX_MEMORY_ENCRYPTION_KEY to unlock it".to_owned(),
                    );
                },
            };
            match cipher.decrypt(id, sealed.as_str(), &encryption) {
                Ok(body) => parse_session_text(shown, body.as_str()),
                Err(message) => Err(message),
            }
        },
        None => {
            let bytes = crate::memory::index::copy_bytes(content, 0, content.len());
            assert(bytes@ =~= content@);
            match secure::utf8_text(bytes) {
                Ok(body) => {
                    proof {
                        encode_utf8_decode_utf8(body@);
                        assert forall|header: HeaderView, messages: Seq<MessageView>|
                            #![trigger saved_text(header, messages)]
                            content@ == encode_utf8(
                                saved_text(header, messages),
                            ) implies saved_text(header, messages) == body@ by {
                            encode_utf8_decode_utf8(saved_text(header, messages));
                        }
                    }
                    parse_session_text(shown, body.as_str())
                },
                Err(cause) => {
                    proof {
                        assert forall|header: HeaderView, messages: Seq<MessageView>|
                            #![trigger saved_text(header, messages)]
                            content@ != encode_utf8(saved_text(header, messages)) by {
                            encode_utf8_valid_utf8(saved_text(header, messages));
                        }
                    }
                    Err(text::concat("session file is not UTF-8: ", cause.as_str()))
                },
            }
        },
    }
}

fn encrypted_from(value: &Json) -> (r: Option<(u8, EncryptedContent, String)>)
    ensures
        match r {
            Some((format, encryption, content)) => encrypted_of(value@) == Some(
                (format, encryption@, content@),
            ),
            None => encrypted_of(value@) is None,
        },
{
    let names: Vec<&'static str> = vec!["format", "encryption", "content"];
    assert(names@ =~= seq!["format", "encryption", "content"]);
    let seat = value.seat(&names, 3);
    let value = match &seat {
        Some(seat) => seat,
        None => value,
    };
    let format: u64 = match value.need_number("format", 255) {
        Some(format) => format,
        None => {
            return None;
        },
    };
    let encryption = match record::encryption_from(value) {
        Some(Some(encryption)) => encryption,
        _ => {
            return None;
        },
    };
    match value.need_text("content") {
        Some(content) => Some((format as u8, encryption, content)),
        None => None,
    }
}

// ---------------------------------------------------------------------------
// IDs
// ---------------------------------------------------------------------------

/// An ASCII letter, an ASCII digit, or a hyphen.
pub open spec fn is_id_char(c: char) -> bool {
    ('0' <= c <= '9') || ('a' <= c <= 'z') || ('A' <= c <= 'Z') || c == '-'
}

/// Whether a text can be the ID of a session.
pub open spec fn valid_session_id(id: Seq<char>) -> bool {
    id.len() > 0 && forall|i: int| 0 <= i < id.len() ==> is_id_char(#[trigger] id[i])
}

pub open spec fn id_complaint() -> Seq<char> {
    "session ID may contain only ASCII letters, digits, and '-'"@
}

/// Whether a text can be the ID of a session.
pub fn validate_session_id(id: &str) -> (r: Result<(), String>)
    ensures
        match r {
            Ok(_) => valid_session_id(id@),
            Err(message) => !valid_session_id(id@) && message@ == id_complaint(),
        },
{
    let chars = text::chars_of(id);
    let mut i: usize = 0;
    while i < chars.len()
        invariant
            i <= chars@.len(),
            chars@ == id@,
            forall|j: int| 0 <= j < i ==> is_id_char(#[trigger] id@[j]),
        decreases chars@.len() - i,
    {
        let c = chars[i];
        let fine = (c >= '0' && c <= '9') || (c >= 'a' && c <= 'z') || (c >= 'A' && c <= 'Z') || c
            == '-';
        if !fine {
            assert(!is_id_char(id@[i as int]));
            return Err("session ID may contain only ASCII letters, digits, and '-'".to_owned());
        }
        i = i + 1;
    }
    if chars.len() == 0 {
        return Err("session ID may contain only ASCII letters, digits, and '-'".to_owned());
    }
    Ok(())
}

/// The ID of a session that was begun at `timestamp`, `nanos` into the second.
pub fn new_session_id(timestamp: &str, nanos: u32) -> (r: String)
    ensures
        r@ == timestamp@ + "-"@ + text::hex_padded(nanos as nat, 8),
{
    let nonce = text::hex_padded_of(nanos as u64, 8);
    let mut r = text::concat(timestamp, "-");
    r.append(nonce.as_str());
    r
}

// ---------------------------------------------------------------------------
// Saving and loading
// ---------------------------------------------------------------------------

/// A session that was loaded.
#[derive(Debug, PartialEq, Eq)]
pub struct LoadedSession {
    pub id: String,
    pub messages: Vec<Message>,
    pub thinking_level: Option<ThinkingLevel>,
}

/// What a [`LoadedSession`] holds.
#[verifier::ext_equal]
pub struct LoadedView {
    pub id: Seq<char>,
    pub messages: Seq<MessageView>,
    pub thinking_level: Option<ThinkingLevel>,
}

impl View for LoadedSession {
    type V = LoadedView;

    open spec fn view(&self) -> LoadedView {
        LoadedView {
            id: self.id@,
            messages: text::views(self.messages@),
            thinking_level: self.thinking_level,
        }
    }
}

/// The header that a session is saved with: it keeps the time at which it was
/// first saved.
pub open spec fn saved_header(
    id: Seq<char>,
    earlier: Option<HeaderView>,
    now: Seq<char>,
    model: Seq<char>,
    thinking_level: ThinkingLevel,
) -> HeaderView {
    HeaderView {
        format: 1,
        id,
        created_at: match earlier {
            Some(header) => header.created_at,
            None => now,
        },
        updated_at: now,
        model: Some(model),
        thinking_level: Some(thinking_level),
    }
}

pub open spec fn key_of(cipher: Option<&Cipher>) -> Option<Seq<u8>> {
    match cipher {
        Some(cipher) => Some(cipher@.key),
        None => None,
    }
}

/// Whether `content` is what some time and model are saved with, for the
/// session `id`, these messages and this level of thinking.
pub open spec fn saves(
    content: Seq<u8>,
    id: Seq<char>,
    key: Option<Seq<u8>>,
    thinking_level: ThinkingLevel,
    messages: Seq<MessageView>,
) -> bool {
    exists|earlier: Option<HeaderView>, now: Seq<char>, model: Seq<char>|
        stores_text(
            content,
            id,
            key,
            saved_text(
                #[trigger] saved_header(id, earlier, now, model, thinking_level),
                messages,
            ),
        )
}

/// What the file of a session is to hold. `earlier` is the header that the file
/// has, where there is one.
pub fn save_session(
    id: &str,
    earlier: Option<&SessionHeader>,
    now: &str,
    model: &str,
    thinking_level: ThinkingLevel,
    messages: &[Message],
    cipher: Option<&Cipher>,
) -> (r: Result<Vec<u8>, String>)
    requires
        cipher matches Some(cipher) ==> cipher.wf(),
    ensures
        ({
            let known = match earlier {
                Some(header) => Some(header@),
                None => None,
            };
            let header = saved_header(id@, known, now@, model@, thinking_level);
            let body = saved_text(header, text::views(messages@));
            match r {
                Ok(content) => {
                    &&& valid_session_id(id@)
                    &&& cipher is None || secure::sealable(body)
                    &&& stores_text(content@, id@, key_of(cipher), body)
                    &&& saves(
                        content@,
                        id@,
                        key_of(cipher),
                        thinking_level,
                        text::views(messages@),
                    )
                },
                Err(message) => if !valid_session_id(id@) {
                    message@ == id_complaint()
                } else {
                    cipher is Some && !secure::sealable(body) && message@
                        == "failed to encrypt content"@
                },
            }
        }),
{
    match validate_session_id(id) {
        Ok(_) => {},
        Err(message) => {
            return Err(message);
        },
    }
    let created_at = match earlier {
        Some(header) => header.created_at.clone(),
        None => now.to_owned(),
    };
    let header = SessionHeader {
        format: 1,
        id: id.to_owned(),
        created_at,
        updated_at: now.to_owned(),
        model: Some(model.to_owned()),
        thinking_level: Some(thinking_level),
    };
    let ghost known = match earlier {
        Some(header) => Some(header@),
        None => None,
    };
    assert(header@ =~= saved_header(id@, known, now@, model@, thinking_level));
    let body = serialize_session(&header, messages);
    encode_session(id, body.as_str(), cipher)
}

// ---------------------------------------------------------------------------
// Listing
// ---------------------------------------------------------------------------

/// What a list of sessions says of one. The time is in nanoseconds since 1970.
#[derive(Debug, PartialEq, Eq)]
pub struct SessionSummary {
    pub id: String,
    pub updated_at: i128,
    pub message_count: usize,
    pub preview: String,
}

/// What a [`SessionSummary`] holds.
#[verifier::ext_equal]
pub struct SummaryView {
    pub id: Seq<char>,
    pub updated_at: i128,
    pub message_count: usize,
    pub preview: Seq<char>,
}

impl View for SessionSummary {
    type V = SummaryView;

    open spec fn view(&self) -> SummaryView {
        SummaryView {
            id: self.id@,
            updated_at: self.updated_at,
            message_count: self.message_count,
            preview: self.preview@,
        }
    }
}

/// The first thing that the user said.
pub open spec fn first_prompt(messages: Seq<MessageView>) -> Option<Seq<char>>
    decreases messages.len(),
{
    if messages.len() == 0 {
        None
    } else {
        match messages[0] {
            MessageView::User { content } => Some(content),
            _ => first_prompt(messages.skip(1)),
        }
    }
}

pub const PREVIEW_CHARS: usize = 80;

/// What is shown of a session: the start of the first thing that the user
/// said, on one line.
pub open spec fn preview_of(messages: Seq<MessageView>) -> Seq<char> {
    match first_prompt(messages) {
        None => "(no user prompt)"@,
        Some(content) => text::one_line(
            if content.len() > PREVIEW_CHARS {
                text::take_chars(content, PREVIEW_CHARS as int).push('…')
            } else {
                text::take_chars(content, PREVIEW_CHARS as int)
            },
        ),
    }
}

/// What is shown of a session.
pub fn preview(messages: &[Message]) -> (r: String)
    ensures
        r@ == preview_of(text::views(messages@)),
{
    let ghost model = text::views(messages@);
    let mut i: usize = 0;
    assert(model.skip(0) =~= model);
    while i < messages.len()
        invariant
            i <= messages@.len(),
            model == text::views(messages@),
            first_prompt(model) == first_prompt(model.skip(i as int)),
        decreases messages@.len() - i,
    {
        assert(model.skip(i as int)[0] == messages@[i as int]@);
        assert(model.skip(i as int).skip(1) =~= model.skip(i as int + 1));
        match &messages[i] {
            Message::User { content } => {
                let mut start = text::take_of(content.as_str(), PREVIEW_CHARS);
                if text::char_count(content.as_str()) > PREVIEW_CHARS {
                    start.push('…');
                }
                return text::one_line_of(start.as_str());
            },
            _ => {},
        }
        i = i + 1;
    }
    "(no user prompt)".to_owned()
}

/// What a list says of a session that was read, or what is wrong with its time.
pub open spec fn summary_of(
    shown: Seq<char>,
    header: HeaderView,
    messages: Seq<MessageView>,
    count: usize,
) -> Result<SummaryView, Seq<char>> {
    match retention::rfc3339_nanos(header.updated_at) {
        Err(cause) => Err("invalid updated_at in "@ + shown + ": "@ + cause),
        Ok(updated_at) => Ok(
            SummaryView {
                id: header.id,
                updated_at,
                message_count: count,
                preview: preview_of(messages),
            },
        ),
    }
}

/// What a list says of a session that was read.
pub fn summarize_session(shown: &str, header: SessionHeader, messages: &[Message]) -> (r: Result<
    SessionSummary,
    String,
>)
    ensures
        text::res(r) == summary_of(
            shown@,
            header@,
            text::views(messages@),
            messages@.len() as usize,
        ),
{
    match retention::parse_instant(header.updated_at.as_str()) {
        Err(cause) => {
            let mut message = shown_failure("invalid updated_at in ", shown, ": ");
            message.append(cause.as_str());
            Err(message)
        },
        Ok(updated_at) => Ok(
            SessionSummary {
                id: header.id,
                updated_at,
                message_count: messages.len(),
                preview: preview(messages),
            },
        ),
    }
}

/// Whether `a` is listed before `b`: the later one first, and of two of the
/// same time the one whose ID comes first.
pub open spec fn listed_before(a: SummaryView, b: SummaryView) -> bool {
    a.updated_at > b.updated_at || (a.updated_at == b.updated_at && textmap::text_less(a.id, b.id))
}

/// A list with one session more; it takes the place of one with the same time
/// and ID.
pub open spec fn with_summary(list: Seq<SummaryView>, summary: SummaryView) -> Seq<SummaryView>
    decreases list.len(),
{
    if list.len() == 0 {
        seq![summary]
    } else if list[0].updated_at == summary.updated_at && list[0].id == summary.id {
        list.update(0, summary)
    } else if listed_before(summary, list[0]) {
        seq![summary] + list
    } else {
        seq![list[0]] + with_summary(list.skip(1), summary)
    }
}

proof fn lemma_with_summary_skip(list: Seq<SummaryView>, summary: SummaryView, i: int)
    requires
        0 <= i <= list.len(),
        forall|j: int|
            0 <= j < i ==> !((#[trigger] list[j]).updated_at == summary.updated_at && list[j].id
                == summary.id) && !listed_before(summary, list[j]),
    ensures
        with_summary(list, summary) == list.take(i) + with_summary(list.skip(i), summary),
    decreases i,
{
    if i == 0 {
        assert(list.skip(0) =~= list);
        assert(list.take(0) + with_summary(list, summary) =~= with_summary(list, summary));
    } else {
        let rest = list.skip(1);
        assert(!(list[0].updated_at == summary.updated_at && list[0].id == summary.id));
        assert forall|j: int| 0 <= j < i - 1 implies !((#[trigger] rest[j]).updated_at
            == summary.updated_at && rest[j].id == summary.id) && !listed_before(
            summary,
            rest[j],
        ) by {
            assert(rest[j] == list[j + 1]);
        }
        lemma_with_summary_skip(rest, summary, i - 1);
        assert(rest.skip(i - 1) =~= list.skip(i));
        assert(seq![list[0]] + (rest.take(i - 1) + with_summary(list.skip(i), summary))
            =~= list.take(i) + with_summary(list.skip(i), summary));
    }
}

/// Whether a list is in order.
pub open spec fn in_listed_order(list: Seq<SummaryView>) -> bool {
    forall|i: int, j: int|
        0 <= i < j < list.len() ==> listed_before(#[trigger] list[i], #[trigger] list[j])
}

/// A list that is in order stays so with one session more: most recent first.
pub proof fn law_listing_stays_in_order(list: Seq<SummaryView>, summary: SummaryView)
    requires
        in_listed_order(list),
    ensures
        in_listed_order(with_summary(list, summary)),
{
    lemma_with_summary_in_order(list, summary);
}

pub proof fn lemma_with_summary_in_order(list: Seq<SummaryView>, summary: SummaryView)
    requires
        in_listed_order(list),
    ensures
        in_listed_order(with_summary(list, summary)),
        forall|k: int|
            0 <= k < with_summary(list, summary).len() ==> {
                let x = #[trigger] with_summary(list, summary)[k];
                x == summary || list.contains(x)
            },
    decreases list.len(),
{
    let r = with_summary(list, summary);
    if list.len() == 0 {
    } else if list[0].updated_at == summary.updated_at && list[0].id == summary.id {
        assert forall|i: int, j: int| 0 <= i < j < r.len() implies listed_before(
            #[trigger] r[i],
            #[trigger] r[j],
        ) by {
            assert(listed_before(list[i], list[j]));
        }
        assert forall|k: int| 0 <= k < r.len() implies ({
            let x = #[trigger] r[k];
            x == summary || list.contains(x)
        }) by {
            if k > 0 {
                assert(r[k] == list[k]);
            }
        }
    } else if listed_before(summary, list[0]) {
        assert forall|i: int, j: int| 0 <= i < j < r.len() implies listed_before(
            #[trigger] r[i],
            #[trigger] r[j],
        ) by {
            assert(r[j] == list[j - 1]);
            if i == 0 {
                if j > 1 {
                    assert(listed_before(list[0], list[j - 1]));
                    lemma_listed_transitive(summary, list[0], list[j - 1]);
                }
            } else {
                assert(r[i] == list[i - 1]);
                assert(listed_before(list[i - 1], list[j - 1]));
            }
        }
        assert forall|k: int| 0 <= k < r.len() implies ({
            let x = #[trigger] r[k];
            x == summary || list.contains(x)
        }) by {
            if k > 0 {
                assert(r[k] == list[k - 1]);
            }
        }
    } else {
        let rest = list.skip(1);
        assert forall|i: int, j: int| 0 <= i < j < rest.len() implies listed_before(
            #[trigger] rest[i],
            #[trigger] rest[j],
        ) by {
            assert(rest[i] == list[i + 1]);
            assert(rest[j] == list[j + 1]);
        }
        lemma_with_summary_in_order(rest, summary);
        let tail = with_summary(rest, summary);
        lemma_listed_total(summary, list[0]);
        assert forall|i: int, j: int| 0 <= i < j < r.len() implies listed_before(
            #[trigger] r[i],
            #[trigger] r[j],
        ) by {
            assert(r[j] == tail[j - 1]);
            if i == 0 {
                if tail[j - 1] != summary {
                    let k = rest.index_of(tail[j - 1]);
                    assert(rest[k] == list[k + 1]);
                    assert(listed_before(list[0], list[k + 1]));
                }
            } else {
                assert(r[i] == tail[i - 1]);
            }
        }
        assert forall|k: int| 0 <= k < r.len() implies ({
            let x = #[trigger] r[k];
            x == summary || list.contains(x)
        }) by {
            if k == 0 {
                assert(r[0] == list[0]);
            } else {
                assert(r[k] == tail[k - 1]);
                if tail[k - 1] != summary {
                    let j = rest.index_of(tail[k - 1]);
                    assert(list[j + 1] == rest[j]);
                }
            }
        }
    }
}

/// Whether a list has a session with this ID and time.
pub open spec fn is_listed(list: Seq<SummaryView>, id: Seq<char>, updated_at: i128) -> bool {
    exists|i: int|
        0 <= i < list.len() && (#[trigger] list[i]).id == id && list[i].updated_at == updated_at
}

/// With one session more a list has that one, and all that it had.
pub proof fn lemma_with_summary_keeps(list: Seq<SummaryView>, summary: SummaryView)
    ensures
        is_listed(with_summary(list, summary), summary.id, summary.updated_at),
        forall|i: int|
            0 <= i < list.len() ==> is_listed(
                with_summary(list, summary),
                (#[trigger] list[i]).id,
                list[i].updated_at,
            ),
    decreases list.len(),
{
    let r = with_summary(list, summary);
    if list.len() == 0 {
        assert(r[0] == summary);
    } else if list[0].updated_at == summary.updated_at && list[0].id == summary.id {
        assert(r[0] == summary);
        assert forall|i: int| 0 <= i < list.len() implies is_listed(
            r,
            (#[trigger] list[i]).id,
            list[i].updated_at,
        ) by {
            assert(r[i].id == list[i].id && r[i].updated_at == list[i].updated_at);
        }
    } else if listed_before(summary, list[0]) {
        assert(r[0] == summary);
        assert forall|i: int| 0 <= i < list.len() implies is_listed(
            r,
            (#[trigger] list[i]).id,
            list[i].updated_at,
        ) by {
            assert(r[i + 1] == list[i]);
        }
    } else {
        let rest = list.skip(1);
        let tail = with_summary(rest, summary);
        lemma_with_summary_keeps(rest, summary);
        let at = choose|k: int|
            0 <= k < tail.len() && (#[trigger] tail[k]).id == summary.id && tail[k].updated_at
                == summary.updated_at;
        assert(r[at + 1] == tail[at]);
        assert forall|i: int| 0 <= i < list.len() implies is_listed(
            r,
            (#[trigger] list[i]).id,
            list[i].updated_at,
        ) by {
            if i == 0 {
                assert(r[0] == list[0]);
            } else {
                assert(rest[i - 1] == list[i]);
                assert(is_listed(tail, rest[i - 1].id, rest[i - 1].updated_at));
                let k = choose|k: int|
                    0 <= k < tail.len() && (#[trigger] tail[k]).id == list[i].id
                        && tail[k].updated_at == list[i].updated_at;
                assert(r[k + 1] == tail[k]);
            }
        }
    }
}

proof fn lemma_listed_transitive(a: SummaryView, b: SummaryView, c: SummaryView)
    requires
        listed_before(a, b),
        listed_before(b, c),
    ensures
        listed_before(a, c),
{
    if a.updated_at == b.updated_at && b.updated_at == c.updated_at {
        textmap::lemma_text_less_transitive(a.id, b.id, c.id);
    }
}

proof fn lemma_listed_total(a: SummaryView, b: SummaryView)
    requires
        !(a.updated_at == b.updated_at && a.id == b.id),
        !listed_before(a, b),
    ensures
        listed_before(b, a),
{
    if a.updated_at == b.updated_at {
        textmap::lemma_text_less_total(a.id, b.id);
    }
}

/// Puts a session into a list.
pub fn insert_summary(list: &mut Vec<SessionSummary>, summary: SessionSummary)
    ensures
        text::views(final(list)@) == with_summary(text::views(old(list)@), summary@),
{
    let ghost model = text::views(list@);
    let mut i: usize = 0;
    while i < list.len()
        invariant
            i <= list@.len(),
            model == text::views(list@),
            model == text::views(old(list)@),
            forall|j: int|
                0 <= j < i ==> !((#[trigger] model[j]).updated_at == summary@.updated_at
                    && model[j].id == summary@.id) && !listed_before(summary@, model[j]),
        decreases list@.len() - i,
    {
        assert(model[i as int] == list@[i as int]@);
        assert(model.skip(i as int)[0] == model[i as int]);
        let order = textmap::compare_texts(summary.id.as_str(), list[i].id.as_str());
        let same_id = match order {
            TextOrder::Same => true,
            _ => false,
        };
        let id_before = match order {
            TextOrder::Before => true,
            _ => false,
        };
        proof {
            textmap::lemma_text_less_irreflexive(summary@.id);
            if textmap::text_less(summary@.id, model[i as int].id) && textmap::text_less(
                model[i as int].id,
                summary@.id,
            ) {
                textmap::lemma_text_less_transitive(
                    summary@.id,
                    model[i as int].id,
                    summary@.id,
                );
            }
        }
        if list[i].updated_at == summary.updated_at && same_id {
            proof {
                lemma_with_summary_skip(model, summary@, i as int);
            }
            list.set(i, summary);
            assert(text::views(list@) =~= model.take(i as int) + model.skip(i as int).update(
                0,
                summary@,
            ));
            return;
        }
        if summary.updated_at > list[i].updated_at || (summary.updated_at == list[i].updated_at
            && id_before) {
            proof {
                lemma_with_summary_skip(model, summary@, i as int);
            }
            list.insert(i, summary);
            assert(text::views(list@) =~= model.take(i as int) + (seq![summary@] + model.skip(
                i as int,
            )));
            return;
        }
        i = i + 1;
    }
    proof {
        lemma_with_summary_skip(model, summary@, i as int);
    }
    list.push(summary);
    assert(text::views(list@) =~= model.take(i as int) + seq![summary@]);
}

/// What an instant is written as, so many seconds east of Greenwich.
pub uninterp spec fn instant_text(nanos: i128, offset_seconds: i32) -> Option<Seq<char>>;

/// `OffsetDateTime::from_unix_timestamp_nanos`, moved to the offset that
/// `UtcOffset::from_whole_seconds` gives and written in the `Rfc3339` format.
/// The result depends on the two numbers alone; there is none for numbers that
/// are out of range.
#[verifier::external_body]
fn show_instant(nanos: i128, offset_seconds: i32) -> (r: Option<String>)
    ensures
        text::opt(r) == instant_text(nanos, offset_seconds),
{
    let instant = OffsetDateTime::from_unix_timestamp_nanos(nanos).ok()?;
    let offset = UtcOffset::from_whole_seconds(offset_seconds).ok()?;
    instant.checked_to_offset(offset)?.format(&Rfc3339).ok()
}

/// What is shown of a session in a list.
pub open spec fn summary_block(summary: SummaryView, time: Seq<char>) -> Seq<char> {
    summary.id + "\n  Updated: "@ + time + " · Messages: "@ + text::decimal(
        summary.message_count as nat,
    ) + "\n  "@ + summary.preview
}

/// What is shown of the first `n` sessions; `None` where a time cannot be
/// written.
pub open spec fn summary_blocks(list: Seq<SummaryView>, offset_seconds: i32, n: nat) -> Option<
    Seq<Seq<char>>,
>
    decreases n,
{
    if n == 0 || n > list.len() {
        Some(Seq::empty())
    } else {
        match (
            summary_blocks(list, offset_seconds, (n - 1) as nat),
            instant_text(list[n - 1].updated_at, offset_seconds),
        ) {
            (Some(blocks), Some(time)) => Some(blocks.push(summary_block(list[n - 1], time))),
            _ => None,
        }
    }
}

/// A list of sessions, times shown so many seconds east of Greenwich.
pub fn format_session_summaries(sessions: &Vec<SessionSummary>, offset_seconds: i32) -> (r: Result<
    String,
    String,
>)
    ensures
        match (
            r,
            summary_blocks(text::views(sessions@), offset_seconds, sessions@.len()),
        ) {
            (Ok(shown), Some(blocks)) => shown@ == if sessions@.len() == 0 {
                "No saved sessions."@
            } else {
                text::join(blocks, "\n\n"@)
            },
            (Err(message), None) => message@ == "failed to format session timestamp"@,
            _ => false,
        },
{
    if sessions.len() == 0 {
        return Ok("No saved sessions.".to_owned());
    }
    let ghost model = text::views(sessions@);
    let mut blocks: Vec<String> = Vec::new();
    let mut sound = true;
    let mut i: usize = 0;
    assert(text::views(blocks@) =~= Seq::<Seq<char>>::empty());
    while i < sessions.len()
        invariant
            i <= sessions@.len(),
            model == text::views(sessions@),
            sound ==> summary_blocks(model, offset_seconds, i as nat) == Some(
                text::views(blocks@),
            ),
            !sound ==> summary_blocks(model, offset_seconds, i as nat) is None,
        decreases sessions@.len() - i,
    {
        let session = &sessions[i];
        assert(model[i as int] == session@);
        match show_instant(session.updated_at, offset_seconds) {
            None => {
                sound = false;
            },
            Some(time) => {
                let count = text::decimal_of(session.message_count as u64);
                let mut block = text::concat(session.id.as_str(), "\n  Updated: ");
                block.append(time.as_str());
                block.append(" · Messages: ");
                block.append(count.as_str());
                block.append("\n  ");
                block.append(session.preview.as_str());
                proof {
                    text::lemma_views_push(blocks@, block);
                }
                blocks.push(block);
            },
        }
        i = i + 1;
    }
    if sound {
        Ok(text::join_of(&blocks, "\n\n"))
    } else {
        Err("failed to format session timestamp".to_owned())
    }
}

/// The first thing that the user said is what the first of the user's messages
/// says; nothing was said only where there is none.
pub proof fn law_first_prompt_is_first(messages: Seq<MessageView>)
    ensures
        match first_prompt(messages) {
            Some(content) => exists|i: int|
                0 <= i < messages.len() && #[trigger] messages[i] == (MessageView::User { content })
                    && forall|j: int| 0 <= j < i ==> !((#[trigger] messages[j]) is User),
            None => forall|i: int| 0 <= i < messages.len() ==> !((#[trigger] messages[i]) is User),
        },
    decreases messages.len(),
{
    if messages.len() > 0 {
        if let MessageView::User { content } = messages[0] {
            assert(messages[0] == (MessageView::User { content }));
        } else {
            let rest = messages.skip(1);
            law_first_prompt_is_first(rest);
            match first_prompt(messages) {
                Some(content) => {
                    let i = choose|i: int|
                        0 <= i < rest.len() && #[trigger] rest[i] == (MessageView::User {
                            content,
                        }) && forall|j: int| 0 <= j < i ==> !((#[trigger] rest[j]) is User);
                    assert(messages[i + 1] == rest[i]);
                    assert forall|j: int| 0 <= j < i + 1 implies !((
                    #[trigger] messages[j]) is User) by {
                        if j > 0 {
                            assert(rest[j - 1] == messages[j]);
                        }
                    }
                },
                None => {
                    assert forall|i: int| 0 <= i < messages.len() implies !((
                    #[trigger] messages[i]) is User) by {
                        if i > 0 {
                            assert(rest[i - 1] == messages[i]);
                        }
                    }
                },
            }
        }
    }
}

/// What is shown of a session is how its first prompt begins, on one line, cut
/// after 80 characters.
pub proof fn law_preview_shows_the_first_prompt(messages: Seq<MessageView>, prompt: Seq<char>)
    requires
        first_prompt(messages) == Some(prompt),
    ensures
        prompt.len() <= 80 ==> preview_of(messages).len() == prompt.len(),
        prompt.len() > 80 ==> preview_of(messages).len() == 81 && preview_of(messages)[80] == '…',
        forall|i: int|
            0 <= i < prompt.len() && i < 80 ==> #[trigger] preview_of(messages)[i] == (if prompt[i]
                == '\n' || prompt[i] == '\r' {
                ' '
            } else {
                prompt[i]
            }),
{
    let start = if prompt.len() > 80 {
        text::take_chars(prompt, 80).push('…')
    } else {
        text::take_chars(prompt, 80)
    };
    text::law_one_line(start);
}

/// Every session of a list is shown, in the order of the list: with its ID, its
/// number of messages and its preview.
pub proof fn law_every_summary_is_shown(list: Seq<SummaryView>, offset_seconds: i32, n: nat)
    requires
        n <= list.len(),
        summary_blocks(list, offset_seconds, n) is Some,
    ensures
        summary_blocks(list, offset_seconds, n)->0.len() == n,
        forall|k: int|
            0 <= k < n ==> {
                let block = summary_blocks(list, offset_seconds, n)->0[k];
                let summary = #[trigger] list[k];
                &&& block.len() >= summary.id.len() + summary.preview.len()
                &&& block.take(summary.id.len() as int) == summary.id
                &&& block.skip(block.len() - summary.preview.len()) == summary.preview
            },
    decreases n,
{
    if n > 0 {
        let last: int = n - 1;
        law_every_summary_is_shown(list, offset_seconds, last as nat);
        let blocks = summary_blocks(list, offset_seconds, n)->0;
        let before = summary_blocks(list, offset_seconds, last as nat)->0;
        assert forall|k: int| 0 <= k < n implies {
            let block = blocks[k];
            let summary = #[trigger] list[k];
            &&& block.len() >= summary.id.len() + summary.preview.len()
            &&& block.take(summary.id.len() as int) == summary.id
            &&& block.skip(block.len() - summary.preview.len()) == summary.preview
        } by {
            let block = blocks[k];
            let summary = list[k];
            if k < last {
                assert(block == before[k]);
            } else {
                assert(block.take(summary.id.len() as int) =~= summary.id);
                assert(block.skip(block.len() - summary.preview.len()) =~= summary.preview);
            }
        }
    }
}

} // verus!
