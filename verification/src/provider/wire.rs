//! The requests of the two protocols.
use crate::agent::message::Message;
use crate::agent::message::MessageView;
use crate::agent::message::ToolCall;
use crate::agent::message::ToolCallView;
use crate::json;
use crate::json::Json;
use crate::json::JsonView;
use crate::provider::thinking::NormalizedThinking;
use crate::provider::thinking::NormalizedView;
use crate::provider::DefinitionView;
use crate::provider::OpenAiApi;
use crate::provider::ToolDefinition;
use crate::text;
use vstd::prelude::*;
use vstd::string::*;

verus! {

/// A text as a JSON value.
pub open spec fn jtext(s: Seq<char>) -> JsonView {
    JsonView::Text(s)
}

// ---------------------------------------------------------------------------
// Chat Completions
// ---------------------------------------------------------------------------

/// A field of a provider's state, where that is an object that has it.
pub open spec fn state_field(state: Option<JsonView>, key: Seq<char>) -> Option<JsonView> {
    match state {
        Some(state) => state.get(key),
        None => None,
    }
}

pub open spec fn state_text(state: Option<JsonView>, key: Seq<char>) -> Option<Seq<char>> {
    match state_field(state, key) {
        Some(value) => value.text(),
        None => None,
    }
}

/// The reasoning that goes along with an assistant's message: as the provider
/// gave it, else the thinking.
pub open spec fn reasoning_sent(thinking: Option<Seq<char>>, state: Option<JsonView>) -> Option<
    Seq<char>,
> {
    match state_text(state, "reasoning_content"@) {
        Some(s) => Some(s),
        None => match state_text(state, "reasoning"@) {
            Some(s) => Some(s),
            None => thinking,
        },
    }
}

pub open spec fn call_wire(call: ToolCallView) -> JsonView {
    JsonView::Object(
        seq![
            ("id"@, jtext(call.id)),
            ("type"@, jtext("function"@)),
            (
                "function"@,
                JsonView::Object(
                    seq![("name"@, jtext(call.name)), ("arguments"@, jtext(call.arguments))],
                ),
            ),
        ],
    )
}

/// A message as Chat Completions takes it.
pub open spec fn message_wire(message: MessageView) -> JsonView {
    match message {
        MessageView::System { content } => JsonView::Object(
            seq![("role"@, jtext("system"@)), ("content"@, jtext(content))],
        ),
        MessageView::User { content } => JsonView::Object(
            seq![("role"@, jtext("user"@)), ("content"@, jtext(content))],
        ),
        MessageView::Assistant { content, thinking, tool_calls, provider_state } => {
            let head = seq![
                ("role"@, jtext("assistant"@)),
                (
                    "content"@,
                    if content.len() == 0 {
                        JsonView::Null
                    } else {
                        jtext(content)
                    },
                ),
            ];
            let reasoned = json::with_text(
                head,
                "reasoning_content"@,
                reasoning_sent(thinking, provider_state),
            );
            let detailed = json::with_value(
                reasoned,
                "reasoning_details"@,
                state_field(provider_state, "reasoning_details"@),
            );
            let blocked = json::with_value(
                detailed,
                "thinking_blocks"@,
                state_field(provider_state, "thinking_blocks"@),
            );
            JsonView::Object(
                if tool_calls.len() == 0 {
                    blocked
                } else {
                    blocked.push(
                        (
                            "tool_calls"@,
                            JsonView::Array(
                                tool_calls.map_values(|call: ToolCallView| call_wire(call)),
                            ),
                        ),
                    )
                },
            )
        },
        MessageView::Tool { tool_call_id, content } => JsonView::Object(
            seq![
                ("role"@, jtext("tool"@)),
                ("tool_call_id"@, jtext(tool_call_id)),
                ("content"@, jtext(content)),
            ],
        ),
    }
}

pub open spec fn definition_fields(tool: DefinitionView) -> Seq<(Seq<char>, JsonView)> {
    seq![
        ("name"@, jtext(tool.name)),
        ("description"@, jtext(tool.description)),
        ("parameters"@, tool.parameters),
    ]
}

/// A tool as Chat Completions takes it.
pub open spec fn tool_wire(tool: DefinitionView) -> JsonView {
    JsonView::Object(
        seq![
            ("type"@, jtext("function"@)),
            ("function"@, JsonView::Object(definition_fields(tool))),
        ],
    )
}

/// The tools, and that the model may choose among them, where there are any.
pub open spec fn with_tools(
    fields: Seq<(Seq<char>, JsonView)>,
    tools: Seq<JsonView>,
) -> Seq<(Seq<char>, JsonView)> {
    if tools.len() == 0 {
        fields
    } else {
        fields.push(("tools"@, JsonView::Array(tools))).push(("tool_choice"@, jtext("auto"@)))
    }
}

pub open spec fn with_limit(
    fields: Seq<(Seq<char>, JsonView)>,
    key: Seq<char>,
    limit: Option<usize>,
) -> Seq<(Seq<char>, JsonView)> {
    match limit {
        Some(n) => fields.push((key, JsonView::Unsigned(n as u64))),
        None => fields,
    }
}

/// A request of Chat Completions.
pub open spec fn chat_wire(
    model: Seq<char>,
    thinking: NormalizedView,
    messages: Seq<MessageView>,
    tools: Seq<DefinitionView>,
    max_output_tokens: Option<usize>,
) -> JsonView {
    let head = seq![
        ("model"@, jtext(model)),
        (
            "messages"@,
            JsonView::Array(messages.map_values(|message: MessageView| message_wire(message))),
        ),
        ("stream"@, JsonView::Bool(true)),
        (
            "stream_options"@,
            JsonView::Object(seq![("include_usage"@, JsonView::Bool(true))]),
        ),
    ];
    let limited = with_limit(head, "max_completion_tokens"@, max_output_tokens);
    let reasoned = json::with_text(limited, "reasoning_effort"@, thinking.provider_value);
    JsonView::Object(
        with_tools(reasoned, tools.map_values(|tool: DefinitionView| tool_wire(tool))),
    )
}

fn field_of_state(state: &Option<Json>, key: &str) -> (r: Option<Json>)
    ensures
        text::opt(r) == state_field(text::opt(*state), key@),
{
    match state {
        Some(state) => match state.get(key) {
            Some(value) => Some(value.copy()),
            None => None,
        },
        None => None,
    }
}

fn text_of_state(state: &Option<Json>, key: &str) -> (r: Option<String>)
    ensures
        text::opt(r) == state_text(text::opt(*state), key@),
{
    match state {
        Some(state) => match state.get(key) {
            Some(Json::Text(s)) => Some(s.clone()),
            _ => None,
        },
        None => None,
    }
}

fn chat_reasoning_content(thinking: &Option<String>, provider_state: &Option<Json>) -> (r: Option<
    String,
>)
    ensures
        text::opt(r) == reasoning_sent(text::opt(*thinking), text::opt(*provider_state)),
{
    match text_of_state(provider_state, "reasoning_content") {
        Some(s) => Some(s),
        None => match text_of_state(provider_state, "reasoning") {
            Some(s) => Some(s),
            None => crate::agent::message::copy_text(thinking),
        },
    }
}

fn call_to_wire(call: &ToolCall) -> (r: Json)
    ensures
        r@ == call_wire(call@),
{
    let mut function: Vec<(String, Json)> = Vec::new();
    json::push_text(&mut function, "name", call.name.as_str());
    json::push_text(&mut function, "arguments", call.arguments.as_str());
    assert(json::fields_view(function@) =~= seq![
        ("name"@, jtext(call@.name)),
        ("arguments"@, jtext(call@.arguments)),
    ]);
    let mut fields: Vec<(String, Json)> = Vec::new();
    json::push_text(&mut fields, "id", call.id.as_str());
    json::push_text(&mut fields, "type", "function");
    json::push_field(&mut fields, "function", Json::Object(function));
    let r = Json::Object(fields);
    assert(r@->Object_0 =~= call_wire(call@)->Object_0);
    r
}

fn calls_to_wire(calls: &Vec<ToolCall>) -> (r: Vec<Json>)
    ensures
        json::items_view(r@) == text::views(calls@).map_values(
            |call: ToolCallView| call_wire(call),
        ),
{
    let ghost goal = text::views(calls@).map_values(|call: ToolCallView| call_wire(call));
    let mut r: Vec<Json> = Vec::new();
    let mut i: usize = 0;
    assert(json::items_view(r@) =~= goal.take(0));
    while i < calls.len()
        invariant
            i <= calls@.len(),
            goal == text::views(calls@).map_values(|call: ToolCallView| call_wire(call)),
            json::items_view(r@) == goal.take(i as int),
        decreases calls@.len() - i,
    {
        let wire = call_to_wire(&calls[i]);
        json::push_item(&mut r, wire);
        i = i + 1;
        assert(json::items_view(r@) =~= goal.take(i as int));
    }
    assert(goal.take(goal.len() as int) =~= goal);
    r
}

fn message_to_wire(message: &Message) -> (r: Json)
    ensures
        r@ == message_wire(message@),
{
    let mut fields: Vec<(String, Json)> = Vec::new();
    match message {
        Message::System { content } => {
            json::push_text(&mut fields, "role", "system");
            json::push_text(&mut fields, "content", content.as_str());
        },
        Message::User { content } => {
            json::push_text(&mut fields, "role", "user");
            json::push_text(&mut fields, "content", content.as_str());
        },
        Message::Assistant { content, thinking, tool_calls, provider_state } => {
            json::push_text(&mut fields, "role", "assistant");
            if text::char_count(content.as_str()) == 0 {
                json::push_field(&mut fields, "content", Json::Null);
            } else {
                json::push_text(&mut fields, "content", content.as_str());
            }
            assert(json::fields_view(fields@) =~= seq![
                ("role"@, jtext("assistant"@)),
                (
                    "content"@,
                    if content@.len() == 0 {
                        JsonView::Null
                    } else {
                        jtext(content@)
                    },
                ),
            ]);
            let reasoning = chat_reasoning_content(thinking, provider_state);
            json::push_maybe_text(&mut fields, "reasoning_content", &reasoning);
            let details = field_of_state(provider_state, "reasoning_details");
            json::push_maybe(&mut fields, "reasoning_details", details);
            let blocks = field_of_state(provider_state, "thinking_blocks");
            json::push_maybe(&mut fields, "thinking_blocks", blocks);
            if tool_calls.len() > 0 {
                let calls = calls_to_wire(tool_calls);
                json::push_field(&mut fields, "tool_calls", Json::Array(calls));
            }
        },
        Message::Tool { tool_call_id, content } => {
            json::push_text(&mut fields, "role", "tool");
            json::push_text(&mut fields, "tool_call_id", tool_call_id.as_str());
            json::push_text(&mut fields, "content", content.as_str());
        },
    }
    let r = Json::Object(fields);
    assert(r@->Object_0 =~= message_wire(message@)->Object_0);
    r
}

fn push_definition(fields: &mut Vec<(String, Json)>, tool: &ToolDefinition)
    ensures
        json::fields_view(final(fields)@) == json::fields_view(old(fields)@) + definition_fields(
            tool@,
        ),
{
    let ghost before = json::fields_view(fields@);
    json::push_text(fields, "name", tool.name.as_str());
    json::push_text(fields, "description", tool.description.as_str());
    json::push_field(fields, "parameters", tool.parameters.copy());
    assert(json::fields_view(fields@) =~= before + definition_fields(tool@));
}

fn tool_to_wire(tool: &ToolDefinition) -> (r: Json)
    ensures
        r@ == tool_wire(tool@),
{
    let mut function: Vec<(String, Json)> = Vec::new();
    push_definition(&mut function, tool);
    assert(json::fields_view(function@) =~= definition_fields(tool@));
    let mut fields: Vec<(String, Json)> = Vec::new();
    json::push_text(&mut fields, "type", "function");
    json::push_field(&mut fields, "function", Json::Object(function));
    let r = Json::Object(fields);
    assert(r@->Object_0 =~= tool_wire(tool@)->Object_0);
    r
}

fn push_tools(fields: &mut Vec<(String, Json)>, tools: Vec<Json>)
    ensures
        json::fields_view(final(fields)@) == with_tools(
            json::fields_view(old(fields)@),
            json::items_view(tools@),
        ),
{
    proof {
        json::lemma_items_view(tools@);
    }
    if tools.len() > 0 {
        json::push_field(fields, "tools", Json::Array(tools));
        json::push_text(fields, "tool_choice", "auto");
    }
}

fn push_limit(fields: &mut Vec<(String, Json)>, key: &str, limit: Option<usize>)
    ensures
        json::fields_view(final(fields)@) == with_limit(
            json::fields_view(old(fields)@),
            key@,
            limit,
        ),
{
    match limit {
        Some(n) => json::push_field(fields, key, Json::Unsigned(n as u64)),
        None => {},
    }
}

/// A request of Chat Completions. Without a limit on the output none is sent.
pub fn chat_request(
    model: &str,
    thinking: &NormalizedThinking,
    messages: &[Message],
    tools: &[ToolDefinition],
    max_output_tokens: Option<usize>,
) -> (r: Json)
    ensures
        r@ == chat_wire(
            model@,
            thinking@,
            text::views(messages@),
            text::views(tools@),
            max_output_tokens,
        ),
{
    let ghost sent = text::views(messages@).map_values(
        |message: MessageView| message_wire(message),
    );
    let mut items: Vec<Json> = Vec::new();
    let mut i: usize = 0;
    assert(json::items_view(items@) =~= sent.take(0));
    while i < messages.len()
        invariant
            i <= messages@.len(),
            sent == text::views(messages@).map_values(
                |message: MessageView| message_wire(message),
            ),
            json::items_view(items@) == sent.take(i as int),
        decreases messages@.len() - i,
    {
        let wire = message_to_wire(&messages[i]);
        json::push_item(&mut items, wire);
        i = i + 1;
        assert(json::items_view(items@) =~= sent.take(i as int));
    }
    assert(sent.take(sent.len() as int) =~= sent);
    let ghost offered = text::views(tools@).map_values(|tool: DefinitionView| tool_wire(tool));
    let mut wires: Vec<Json> = Vec::new();
    let mut j: usize = 0;
    assert(json::items_view(wires@) =~= offered.take(0));
    while j < tools.len()
        invariant
            j <= tools@.len(),
            offered == text::views(tools@).map_values(|tool: DefinitionView| tool_wire(tool)),
            json::items_view(wires@) == offered.take(j as int),
        decreases tools@.len() - j,
    {
        let wire = tool_to_wire(&tools[j]);
        json::push_item(&mut wires, wire);
        j = j + 1;
        assert(json::items_view(wires@) =~= offered.take(j as int));
    }
    assert(offered.take(offered.len() as int) =~= offered);
    let mut options: Vec<(String, Json)> = Vec::new();
    json::push_field(&mut options, "include_usage", Json::Bool(true));
    assert(json::fields_view(options@) =~= seq![("include_usage"@, JsonView::Bool(true))]);
    let mut fields: Vec<(String, Json)> = Vec::new();
    json::push_text(&mut fields, "model", model);
    json::push_field(&mut fields, "messages", Json::Array(items));
    json::push_field(&mut fields, "stream", Json::Bool(true));
    json::push_field(&mut fields, "stream_options", Json::Object(options));
    assert(json::fields_view(fields@) =~= seq![
        ("model"@, jtext(model@)),
        ("messages"@, JsonView::Array(sent)),
        ("stream"@, JsonView::Bool(true)),
        (
            "stream_options"@,
            JsonView::Object(seq![("include_usage"@, JsonView::Bool(true))]),
        ),
    ]);
    push_limit(&mut fields, "max_completion_tokens", max_output_tokens);
    json::push_maybe_text(&mut fields, "reasoning_effort", &thinking.provider_value);
    push_tools(&mut fields, wires);
    Json::Object(fields)
}

// ---------------------------------------------------------------------------
// Responses
// ---------------------------------------------------------------------------

pub open spec fn input_message(role: Seq<char>, content: Seq<char>) -> JsonView {
    JsonView::Object(
        seq![("type"@, jtext("message"@)), ("role"@, jtext(role)), ("content"@, jtext(content))],
    )
}

pub open spec fn input_call(call: ToolCallView) -> JsonView {
    JsonView::Object(
        seq![
            ("type"@, jtext("function_call"@)),
            ("call_id"@, jtext(call.id)),
            ("name"@, jtext(call.name)),
            ("arguments"@, jtext(call.arguments)),
        ],
    )
}

pub open spec fn input_output(call_id: Seq<char>, output: Seq<char>) -> JsonView {
    JsonView::Object(
        seq![
            ("type"@, jtext("function_call_output"@)),
            ("call_id"@, jtext(call_id)),
            ("output"@, jtext(output)),
        ],
    )
}

/// The items that a message becomes: an assistant's message is sent as the
/// provider gave it, where it is still known.
pub open spec fn input_items(message: MessageView) -> Seq<JsonView> {
    match message {
        MessageView::System { content } => seq![input_message("system"@, content)],
        MessageView::User { content } => seq![input_message("user"@, content)],
        MessageView::Assistant { content, tool_calls, provider_state, .. } => match provider_state {
            Some(JsonView::Array(output)) => output,
            _ => {
                let said = if content.len() == 0 {
                    Seq::empty()
                } else {
                    seq![input_message("assistant"@, content)]
                };
                said + tool_calls.map_values(|call: ToolCallView| input_call(call))
            },
        },
        MessageView::Tool { tool_call_id, content } => seq![input_output(tool_call_id, content)],
    }
}

/// The items that messages become.
pub open spec fn input_of(messages: Seq<MessageView>) -> Seq<JsonView>
    decreases messages.len(),
{
    if messages.len() == 0 {
        Seq::empty()
    } else {
        input_of(messages.drop_last()) + input_items(messages.last())
    }
}

/// A tool as Responses takes it.
pub open spec fn flat_tool(tool: DefinitionView) -> JsonView {
    JsonView::Object(seq![("type"@, jtext("function"@))] + definition_fields(tool))
}

/// A request of Responses.
pub open spec fn responses_wire(
    model: Seq<char>,
    thinking: NormalizedView,
    messages: Seq<MessageView>,
    tools: Seq<DefinitionView>,
    max_output_tokens: Option<usize>,
) -> JsonView {
    let head = seq![
        ("model"@, jtext(model)),
        ("input"@, JsonView::Array(input_of(messages))),
        ("stream"@, JsonView::Bool(true)),
        ("store"@, JsonView::Bool(false)),
    ];
    let limited = with_limit(head, "max_output_tokens"@, max_output_tokens);
    let reasoned = match thinking.provider_value {
        Some(effort) => limited.push(
            ("reasoning"@, JsonView::Object(seq![("effort"@, jtext(effort))])),
        ),
        None => limited,
    };
    JsonView::Object(
        with_tools(reasoned, tools.map_values(|tool: DefinitionView| flat_tool(tool))),
    )
}

fn message_item(role: &str, content: &str) -> (r: Json)
    ensures
        r@ == input_message(role@, content@),
{
    let mut fields: Vec<(String, Json)> = Vec::new();
    json::push_text(&mut fields, "type", "message");
    json::push_text(&mut fields, "role", role);
    json::push_text(&mut fields, "content", content);
    let r = Json::Object(fields);
    assert(r@->Object_0 =~= input_message(role@, content@)->Object_0);
    r
}

fn call_item(call: &ToolCall) -> (r: Json)
    ensures
        r@ == input_call(call@),
{
    let mut fields: Vec<(String, Json)> = Vec::new();
    json::push_text(&mut fields, "type", "function_call");
    json::push_text(&mut fields, "call_id", call.id.as_str());
    json::push_text(&mut fields, "name", call.name.as_str());
    json::push_text(&mut fields, "arguments", call.arguments.as_str());
    let r = Json::Object(fields);
    assert(r@->Object_0 =~= input_call(call@)->Object_0);
    r
}

fn output_item(call_id: &str, output: &str) -> (r: Json)
    ensures
        r@ == input_output(call_id@, output@),
{
    let mut fields: Vec<(String, Json)> = Vec::new();
    json::push_text(&mut fields, "type", "function_call_output");
    json::push_text(&mut fields, "call_id", call_id);
    json::push_text(&mut fields, "output", output);
    let r = Json::Object(fields);
    assert(r@->Object_0 =~= input_output(call_id@, output@)->Object_0);
    r
}

fn push_calls(items: &mut Vec<Json>, calls: &Vec<ToolCall>)
    ensures
        json::items_view(final(items)@) == json::items_view(old(items)@) + text::views(
            calls@,
        ).map_values(|call: ToolCallView| input_call(call)),
{
    let ghost before = json::items_view(items@);
    let ghost goal = text::views(calls@).map_values(|call: ToolCallView| input_call(call));
    let mut i: usize = 0;
    assert(before + goal.take(0) =~= before);
    while i < calls.len()
        invariant
            i <= calls@.len(),
            goal == text::views(calls@).map_values(|call: ToolCallView| input_call(call)),
            json::items_view(items@) == before + goal.take(i as int),
        decreases calls@.len() - i,
    {
        let item = call_item(&calls[i]);
        json::push_item(items, item);
        i = i + 1;
        assert(json::items_view(items@) =~= before + goal.take(i as int));
    }
    assert(goal.take(goal.len() as int) =~= goal);
}

fn push_input(items: &mut Vec<Json>, message: &Message)
    ensures
        json::items_view(final(items)@) == json::items_view(old(items)@) + input_items(message@),
{
    let ghost before = json::items_view(items@);
    match message {
        Message::System { content } => {
            let item = message_item("system", content.as_str());
            json::push_item(items, item);
        },
        Message::User { content } => {
            let item = message_item("user", content.as_str());
            json::push_item(items, item);
        },
        Message::Assistant { content, tool_calls, provider_state, .. } => {
            match provider_state {
                Some(Json::Array(output)) => {
                    json::push_copies(items, output);
                },
                _ => {
                    if text::char_count(content.as_str()) > 0 {
                        let item = message_item("assistant", content.as_str());
                        json::push_item(items, item);
                    }
                    push_calls(items, tool_calls);
                },
            }
        },
        Message::Tool { tool_call_id, content } => {
            let item = output_item(tool_call_id.as_str(), content.as_str());
            json::push_item(items, item);
        },
    }
    assert(json::items_view(items@) =~= before + input_items(message@));
}

fn flat_tool_to_wire(tool: &ToolDefinition) -> (r: Json)
    ensures
        r@ == flat_tool(tool@),
{
    let mut fields: Vec<(String, Json)> = Vec::new();
    json::push_text(&mut fields, "type", "function");
    assert(json::fields_view(fields@) =~= seq![("type"@, jtext("function"@))]);
    push_definition(&mut fields, tool);
    Json::Object(fields)
}

/// A request of Responses. Without a limit on the output none is sent.
pub fn responses_request(
    model: &str,
    thinking: &NormalizedThinking,
    messages: &[Message],
    tools: &[ToolDefinition],
    max_output_tokens: Option<usize>,
) -> (r: Json)
    ensures
        r@ == responses_wire(
            model@,
            thinking@,
            text::views(messages@),
            text::views(tools@),
            max_output_tokens,
        ),
{
    let ghost sent = text::views(messages@);
    let mut items: Vec<Json> = Vec::new();
    let mut i: usize = 0;
    assert(json::items_view(items@) =~= input_of(sent.take(0)));
    while i < messages.len()
        invariant
            i <= messages@.len(),
            sent == text::views(messages@),
            json::items_view(items@) == input_of(sent.take(i as int)),
        decreases messages@.len() - i,
    {
        assert(sent.take(i as int + 1).drop_last() =~= sent.take(i as int));
        assert(sent.take(i as int + 1).last() == messages@[i as int]@);
        push_input(&mut items, &messages[i]);
        i = i + 1;
    }
    assert(sent.take(sent.len() as int) =~= sent);
    let ghost offered = text::views(tools@).map_values(|tool: DefinitionView| flat_tool(tool));
    let mut wires: Vec<Json> = Vec::new();
    let mut j: usize = 0;
    assert(json::items_view(wires@) =~= offered.take(0));
    while j < tools.len()
        invariant
            j <= tools@.len(),
            offered == text::views(tools@).map_values(|tool: DefinitionView| flat_tool(tool)),
            json::items_view(wires@) == offered.take(j as int),
        decreases tools@.len() - j,
    {
        let wire = flat_tool_to_wire(&tools[j]);
        json::push_item(&mut wires, wire);
        j = j + 1;
        assert(json::items_view(wires@) =~= offered.take(j as int));
    }
    assert(offered.take(offered.len() as int) =~= offered);
    let mut fields: Vec<(String, Json)> = Vec::new();
    json::push_text(&mut fields, "model", model);
    json::push_field(&mut fields, "input", Json::Array(items));
    json::push_field(&mut fields, "stream", Json::Bool(true));
    json::push_field(&mut fields, "store", Json::Bool(false));
    assert(json::fields_view(fields@) =~= seq![
        ("model"@, jtext(model@)),
        ("input"@, JsonView::Array(input_of(sent))),
        ("stream"@, JsonView::Bool(true)),
        ("store"@, JsonView::Bool(false)),
    ]);
    push_limit(&mut fields, "max_output_tokens", max_output_tokens);
    match &thinking.provider_value {
        Some(effort) => {
            let mut reasoning: Vec<(String, Json)> = Vec::new();
            json::push_text(&mut reasoning, "effort", effort.as_str());
            assert(json::fields_view(reasoning@) =~= seq![("effort"@, jtext(effort@))]);
            json::push_field(&mut fields, "reasoning", Json::Object(reasoning));
        },
        None => {},
    }
    push_tools(&mut fields, wires);
    Json::Object(fields)
}

/// A request of a protocol.
pub open spec fn request_wire(
    api: OpenAiApi,
    model: Seq<char>,
    thinking: NormalizedView,
    messages: Seq<MessageView>,
    tools: Seq<DefinitionView>,
    max_output_tokens: Option<usize>,
) -> JsonView {
    match api {
        OpenAiApi::ChatCompletions => chat_wire(
            model,
            thinking,
            messages,
            tools,
            max_output_tokens,
        ),
        OpenAiApi::Responses => responses_wire(
            model,
            thinking,
            messages,
            tools,
            max_output_tokens,
        ),
    }
}

/// The text of a request of a protocol.
pub fn request_body(
    api: OpenAiApi,
    model: &str,
    thinking: &NormalizedThinking,
    messages: &[Message],
    tools: &[ToolDefinition],
    max_output_tokens: Option<usize>,
) -> (r: String)
    ensures
        r@ == json::json_text(
            request_wire(
                api,
                model@,
                thinking@,
                text::views(messages@),
                text::views(tools@),
                max_output_tokens,
            ),
        ),
{
    let request = match api {
        OpenAiApi::ChatCompletions => chat_request(
            model,
            thinking,
            messages,
            tools,
            max_output_tokens,
        ),
        OpenAiApi::Responses => responses_request(
            model,
            thinking,
            messages,
            tools,
            max_output_tokens,
        ),
    };
    request.to_text()
}

/// The address of a protocol's endpoint.
pub open spec fn endpoint_of(base_url: Seq<char>, path: Seq<char>) -> Seq<char> {
    text::trim_end_matches(base_url, "/"@) + "/"@ + path
}

/// The address of an endpoint below a base URL.
pub fn endpoint_url(base_url: &str, path: &str) -> (r: String)
    ensures
        r@ == endpoint_of(base_url@, path@),
{
    let mut r = text::trim_end_matches_of(base_url, "/");
    r.append("/");
    r.append(path);
    r
}

// ---------------------------------------------------------------------------
// What requests say
// ---------------------------------------------------------------------------

/// A field that is a text.
pub open spec fn says(value: JsonView, key: Seq<char>, content: Seq<char>) -> bool {
    value.get(key) == Some(JsonView::Text(content))
}

/// A field that is a text where there is one, and else is missing.
pub open spec fn says_any(value: JsonView, key: Seq<char>, content: Option<Seq<char>>) -> bool {
    match content {
        Some(content) => says(value, key, content),
        None => value.get(key) is None,
    }
}

/// `value` is a tool call as Chat Completions takes it.
pub open spec fn tells_call(value: JsonView, call: ToolCallView) -> bool {
    &&& says(value, "id"@, call.id)
    &&& says(value, "type"@, "function"@)
    &&& value.get("function"@) matches Some(function) && says(function, "name"@, call.name)
        && says(function, "arguments"@, call.arguments)
}

/// `value` is a tool by its name, its description and its parameters.
pub open spec fn tells_tool(value: JsonView, tool: DefinitionView) -> bool {
    &&& says(value, "name"@, tool.name)
    &&& says(value, "description"@, tool.description)
    &&& value.get("parameters"@) == Some(tool.parameters)
}

/// `value` is a message as Chat Completions takes it: it has the message's role
/// and its own content, a result says which call it is of, and an assistant's
/// message has all of its calls.
pub open spec fn tells_message(value: JsonView, message: MessageView) -> bool {
    match message {
        MessageView::System { content } => says(value, "role"@, "system"@) && says(
            value,
            "content"@,
            content,
        ),
        MessageView::User { content } => says(value, "role"@, "user"@) && says(
            value,
            "content"@,
            content,
        ),
        MessageView::Assistant { content, thinking, tool_calls, provider_state } => {
            &&& says(value, "role"@, "assistant"@)
            &&& content.len() > 0 ==> says(value, "content"@, content)
            &&& content.len() == 0 ==> value.get("content"@) == Some(JsonView::Null)
            &&& tool_calls.len() == 0 ==> value.get("tool_calls"@) is None
            &&& tool_calls.len() > 0 ==> (value.get("tool_calls"@) matches Some(
                JsonView::Array(list),
            ) && list.len() == tool_calls.len() && forall|k: int|
                0 <= k < list.len() ==> tells_call(#[trigger] list[k], tool_calls[k]))
            &&& provider_state is None ==> {
                &&& says_any(value, "reasoning_content"@, thinking)
                &&& value.get("reasoning_details"@) is None
                &&& value.get("thinking_blocks"@) is None
            }
            &&& provider_state matches Some(state) ==> {
                &&& match (state.get("reasoning_content"@), state.get("reasoning"@)) {
                    (Some(JsonView::Text(given)), _) => says(value, "reasoning_content"@, given),
                    (_, Some(JsonView::Text(given))) => says(value, "reasoning_content"@, given),
                    _ => says_any(value, "reasoning_content"@, thinking),
                }
                &&& value.get("reasoning_details"@) == state.get("reasoning_details"@)
                &&& value.get("thinking_blocks"@) == state.get("thinking_blocks"@)
            }
        },
        MessageView::Tool { tool_call_id, content } => says(value, "role"@, "tool"@) && says(
            value,
            "tool_call_id"@,
            tool_call_id,
        ) && says(value, "content"@, content),
    }
}

pub proof fn lemma_call_is_told(call: ToolCallView)
    ensures
        tells_call(call_wire(call), call),
{
    reveal_strlit("id");
    reveal_strlit("type");
    reveal_strlit("function");
    reveal_strlit("name");
    reveal_strlit("arguments");
    let fields = call_wire(call)->Object_0;
    assert("id"@.len() == 2 && "type"@.len() == 4 && "function"@.len() == 8);
    assert("name"@.len() == 4 && "arguments"@.len() == 9);
    json::lemma_field_at(fields, 0);
    json::lemma_field_at(fields, 1);
    json::lemma_field_at(fields, 2);
    let function = fields[2].1->Object_0;
    json::lemma_field_at(function, 0);
    json::lemma_field_at(function, 1);
}

/// The fields of an assistant's message, each known by its name.
proof fn lemma_assistant_is_told(message: MessageView)
    requires
        message is Assistant,
    ensures
        tells_message(message_wire(message), message),
{
    reveal_strlit("role");
    reveal_strlit("content");
    reveal_strlit("reasoning_content");
    reveal_strlit("reasoning_details");
    reveal_strlit("thinking_blocks");
    reveal_strlit("tool_calls");
    assert("role"@.len() == 4 && "content"@.len() == 7 && "reasoning_content"@.len() == 17);
    assert("reasoning_details"@.len() == 17 && "thinking_blocks"@.len() == 15);
    assert("tool_calls"@.len() == 10);
    assert("reasoning_content"@[10] == 'c' && "reasoning_details"@[10] == 'd');
    let fields = message_wire(message)->Object_0;
    if let MessageView::Assistant { content, thinking, tool_calls, provider_state } = message {
        json::lemma_field_at(fields, 0);
        json::lemma_field_at(fields, 1);
        let reasoning = reasoning_sent(thinking, provider_state);
        let details = state_field(provider_state, "reasoning_details"@);
        let blocks = state_field(provider_state, "thinking_blocks"@);
        let second: int = if reasoning is Some {
            3
        } else {
            2
        };
        let third: int = if details is Some {
            second + 1
        } else {
            second
        };
        let fourth: int = if blocks is Some {
            third + 1
        } else {
            third
        };
        if reasoning is Some {
            assert(fields[2] == ("reasoning_content"@, jtext(reasoning->0)));
            json::lemma_field_at(fields, 2);
        } else {
            json::lemma_no_field(fields, "reasoning_content"@);
        }
        if details is Some {
            assert(fields[second] == ("reasoning_details"@, details->0));
            json::lemma_field_at(fields, second);
        } else {
            json::lemma_no_field(fields, "reasoning_details"@);
        }
        if blocks is Some {
            assert(fields[third] == ("thinking_blocks"@, blocks->0));
            json::lemma_field_at(fields, third);
        } else {
            json::lemma_no_field(fields, "thinking_blocks"@);
        }
        let list = tool_calls.map_values(|call: ToolCallView| call_wire(call));
        if tool_calls.len() > 0 {
            assert(fields[fourth] == ("tool_calls"@, JsonView::Array(list)));
            json::lemma_field_at(fields, fourth);
            assert forall|k: int| 0 <= k < list.len() implies tells_call(
                #[trigger] list[k],
                tool_calls[k],
            ) by {
                lemma_call_is_told(tool_calls[k]);
            }
        } else {
            json::lemma_no_field(fields, "tool_calls"@);
        }
    }
}

/// A message is sent with its role and its own content, whatever it is; a
/// result with the call that it is of, an assistant's message with all of its
/// calls.
pub proof fn law_messages_are_sent_as_they_are(message: MessageView)
    ensures
        tells_message(message_wire(message), message),
{
    reveal_strlit("role");
    reveal_strlit("content");
    reveal_strlit("tool_call_id");
    assert("role"@.len() == 4 && "content"@.len() == 7 && "tool_call_id"@.len() == 12);
    if message is Assistant {
        lemma_assistant_is_told(message);
    } else {
        let fields = message_wire(message)->Object_0;
        json::lemma_field_at(fields, 0);
        json::lemma_field_at(fields, 1);
        if message is Tool {
            json::lemma_field_at(fields, 2);
        }
    }
}

/// What is said differently is sent differently: two messages of one kind with
/// different contents are different values, and so are results of different
/// calls and messages of different kinds.
pub proof fn law_different_messages_are_told_apart(a: MessageView, b: MessageView)
    requires
        message_wire(a) == message_wire(b),
    ensures
        a is System <==> b is System,
        a is User <==> b is User,
        a is Assistant <==> b is Assistant,
        a is Tool <==> b is Tool,
        a is System ==> a->System_content == b->System_content,
        a is User ==> a->User_content == b->User_content,
        a is Tool ==> a->Tool_content == b->Tool_content && a->tool_call_id == b->tool_call_id,
        a is Assistant ==> a->Assistant_content == b->Assistant_content && a->tool_calls
            == b->tool_calls,
{
    law_messages_are_sent_as_they_are(a);
    law_messages_are_sent_as_they_are(b);
    reveal_strlit("system");
    reveal_strlit("user");
    reveal_strlit("assistant");
    reveal_strlit("tool");
    assert("system"@.len() == 6 && "user"@.len() == 4 && "assistant"@.len() == 9);
    assert("tool"@.len() == 4 && "user"@[0] == 'u' && "tool"@[0] == 't');
    if a is Assistant {
        assert(a->Assistant_content.len() == 0 ==> b->Assistant_content.len() == 0);
        assert(a->Assistant_content =~= b->Assistant_content);
        let first = a->tool_calls;
        let second = b->tool_calls;
        assert(first.len() == second.len());
        assert forall|k: int| 0 <= k < first.len() implies first[k] == second[k] by {
            let list = message_wire(a).get("tool_calls"@)->Some_0->Array_0;
            assert(tells_call(list[k], first[k]));
            assert(tells_call(list[k], second[k]));
        }
        assert(first =~= second);
    }
}

proof fn lemma_tool_is_told(tool: DefinitionView)
    ensures
        tells_tool(JsonView::Object(definition_fields(tool)), tool),
        tells_tool(flat_tool(tool), tool),
        says(flat_tool(tool), "type"@, "function"@),
        says(tool_wire(tool), "type"@, "function"@),
        tool_wire(tool).get("function"@) matches Some(function) && tells_tool(function, tool),
{
    reveal_strlit("name");
    reveal_strlit("description");
    reveal_strlit("parameters");
    reveal_strlit("type");
    reveal_strlit("function");
    assert("name"@.len() == 4 && "description"@.len() == 11 && "parameters"@.len() == 10);
    assert("type"@.len() == 4 && "function"@.len() == 8);
    assert("type"@[0] == 't' && "name"@[0] == 'n');
    let plain = definition_fields(tool);
    json::lemma_field_at(plain, 0);
    json::lemma_field_at(plain, 1);
    json::lemma_field_at(plain, 2);
    let flat = flat_tool(tool)->Object_0;
    json::lemma_field_at(flat, 0);
    json::lemma_field_at(flat, 1);
    json::lemma_field_at(flat, 2);
    json::lemma_field_at(flat, 3);
    let wire = tool_wire(tool)->Object_0;
    json::lemma_field_at(wire, 0);
    json::lemma_field_at(wire, 1);
}

/// A limit is sent under its name where there is one.
pub open spec fn tells_limit(value: JsonView, key: Seq<char>, limit: Option<usize>) -> bool {
    match limit {
        Some(n) => value.get(key) == Some(JsonView::Unsigned(n as u64)),
        None => value.get(key) is None,
    }
}

/// A request of Chat Completions has the model, every message in its place, as
/// it is, every tool in its place, and the limit and the effort where there is
/// one. It asks for a stream with its usage.
pub proof fn law_chat_request_says_everything(
    model: Seq<char>,
    thinking: NormalizedView,
    messages: Seq<MessageView>,
    tools: Seq<DefinitionView>,
    max_output_tokens: Option<usize>,
)
    ensures
        ({
            let request = chat_wire(model, thinking, messages, tools, max_output_tokens);
            &&& says(request, "model"@, model)
            &&& request.get("stream"@) == Some(JsonView::Bool(true))
            &&& request.get("stream_options"@) matches Some(options) && options.get(
                "include_usage"@,
            ) == Some(JsonView::Bool(true))
            &&& tells_limit(request, "max_completion_tokens"@, max_output_tokens)
            &&& says_any(request, "reasoning_effort"@, thinking.provider_value)
            &&& (request.get("messages"@) matches Some(JsonView::Array(sent)) && sent.len()
                == messages.len() && forall|i: int|
                0 <= i < sent.len() ==> tells_message(#[trigger] sent[i], messages[i]))
            &&& tools.len() == 0 ==> request.get("tools"@) is None && request.get(
                "tool_choice"@,
            ) is None
            &&& tools.len() > 0 ==> says(request, "tool_choice"@, "auto"@) && (request.get(
                "tools"@,
            ) matches Some(JsonView::Array(sent)) && sent.len() == tools.len() && forall|i: int|
                0 <= i < sent.len() ==> says(#[trigger] sent[i], "type"@, "function"@) && (
                sent[i].get("function"@) matches Some(function) && tells_tool(function, tools[i])))
        }),
{
    let request = chat_wire(model, thinking, messages, tools, max_output_tokens);
    let fields = request->Object_0;
    reveal_strlit("model");
    reveal_strlit("messages");
    reveal_strlit("stream");
    reveal_strlit("stream_options");
    reveal_strlit("max_completion_tokens");
    reveal_strlit("reasoning_effort");
    reveal_strlit("tools");
    reveal_strlit("tool_choice");
    assert("model"@.len() == 5 && "messages"@.len() == 8 && "stream"@.len() == 6);
    assert("stream_options"@.len() == 14 && "max_completion_tokens"@.len() == 21);
    assert("reasoning_effort"@.len() == 16 && "tools"@.len() == 5 && "tool_choice"@.len() == 11);
    assert("model"@[0] == 'm' && "tools"@[0] == 't');
    let sent = messages.map_values(|message: MessageView| message_wire(message));
    let offered = tools.map_values(|tool: DefinitionView| tool_wire(tool));
    json::lemma_field_at(fields, 0);
    json::lemma_field_at(fields, 1);
    json::lemma_field_at(fields, 2);
    json::lemma_field_at(fields, 3);
    json::lemma_field_at(seq![("include_usage"@, JsonView::Bool(true))], 0);
    let second: int = if max_output_tokens is Some {
        5
    } else {
        4
    };
    let third: int = if thinking.provider_value is Some {
        second + 1
    } else {
        second
    };
    if max_output_tokens is Some {
        json::lemma_field_at(fields, 4);
    } else {
        json::lemma_no_field(fields, "max_completion_tokens"@);
    }
    if thinking.provider_value is Some {
        json::lemma_field_at(fields, second);
    } else {
        json::lemma_no_field(fields, "reasoning_effort"@);
    }
    if tools.len() > 0 {
        json::lemma_field_at(fields, third);
        json::lemma_field_at(fields, third + 1);
        assert forall|i: int| 0 <= i < offered.len() implies says(
            #[trigger] offered[i],
            "type"@,
            "function"@,
        ) && (offered[i].get("function"@) matches Some(function) && tells_tool(
            function,
            tools[i],
        )) by {
            lemma_tool_is_told(tools[i]);
        }
    } else {
        json::lemma_no_field(fields, "tools"@);
        json::lemma_no_field(fields, "tool_choice"@);
    }
    assert forall|i: int| 0 <= i < sent.len() implies tells_message(
        #[trigger] sent[i],
        messages[i],
    ) by {
        law_messages_are_sent_as_they_are(messages[i]);
    }
}

/// `item` is a message of a role as Responses takes it.
pub open spec fn tells_input(item: JsonView, role: Seq<char>, content: Seq<char>) -> bool {
    says(item, "type"@, "message"@) && says(item, "role"@, role) && says(item, "content"@, content)
}

/// `item` is a tool call as Responses takes it.
pub open spec fn tells_input_call(item: JsonView, call: ToolCallView) -> bool {
    &&& says(item, "type"@, "function_call"@)
    &&& says(item, "call_id"@, call.id)
    &&& says(item, "name"@, call.name)
    &&& says(item, "arguments"@, call.arguments)
}

/// `items` are what a message becomes in a request of Responses. An assistant's
/// message whose output is kept becomes that output; else it becomes what it
/// says, where it says anything, and then its calls.
pub open spec fn tells_items(items: Seq<JsonView>, message: MessageView) -> bool {
    match message {
        MessageView::System { content } => items.len() == 1 && tells_input(
            items[0],
            "system"@,
            content,
        ),
        MessageView::User { content } => items.len() == 1 && tells_input(
            items[0],
            "user"@,
            content,
        ),
        MessageView::Assistant { content, tool_calls, provider_state, .. } => {
            if provider_state matches Some(JsonView::Array(output)) {
                items == provider_state->Some_0->Array_0
            } else {
                let said: int = if content.len() > 0 {
                    1
                } else {
                    0
                };
                &&& items.len() == said + tool_calls.len()
                &&& said == 1 ==> tells_input(items[0], "assistant"@, content)
                &&& forall|k: int|
                    0 <= k < tool_calls.len() ==> tells_input_call(
                        items[said + k],
                        #[trigger] tool_calls[k],
                    )
            }
        },
        MessageView::Tool { tool_call_id, content } => items.len() == 1 && says(
            items[0],
            "type"@,
            "function_call_output"@,
        ) && says(items[0], "call_id"@, tool_call_id) && says(items[0], "output"@, content),
    }
}

proof fn lemma_items_are_told(message: MessageView)
    ensures
        tells_items(input_items(message), message),
{
    reveal_strlit("type");
    reveal_strlit("role");
    reveal_strlit("content");
    reveal_strlit("call_id");
    reveal_strlit("name");
    reveal_strlit("arguments");
    reveal_strlit("output");
    assert("type"@.len() == 4 && "role"@.len() == 4 && "content"@.len() == 7);
    assert("call_id"@.len() == 7 && "name"@.len() == 4 && "arguments"@.len() == 9);
    assert("output"@.len() == 6 && "type"@[0] == 't' && "role"@[0] == 'r' && "name"@[0] == 'n');
    assert forall|role: Seq<char>, content: Seq<char>| tells_input(
        #[trigger] input_message(role, content),
        role,
        content,
    ) by {
        let fields = input_message(role, content)->Object_0;
        json::lemma_field_at(fields, 0);
        json::lemma_field_at(fields, 1);
        json::lemma_field_at(fields, 2);
    }
    assert forall|call: ToolCallView| tells_input_call(#[trigger] input_call(call), call) by {
        let fields = input_call(call)->Object_0;
        json::lemma_field_at(fields, 0);
        json::lemma_field_at(fields, 1);
        json::lemma_field_at(fields, 2);
        json::lemma_field_at(fields, 3);
    }
    match message {
        MessageView::Tool { tool_call_id, content } => {
            let fields = input_output(tool_call_id, content)->Object_0;
            json::lemma_field_at(fields, 0);
            json::lemma_field_at(fields, 1);
            json::lemma_field_at(fields, 2);
        },
        MessageView::Assistant { content, tool_calls, provider_state, .. } => {
            let items = input_items(message);
            let said: int = if content.len() > 0 {
                1
            } else {
                0
            };
            if !(provider_state matches Some(JsonView::Array(_))) {
                assert forall|k: int| 0 <= k < tool_calls.len() implies tells_input_call(
                    items[said + k],
                    #[trigger] tool_calls[k],
                ) by {
                    assert(items[said + k] == input_call(tool_calls[k]));
                }
            }
        },
        _ => {},
    }
}

/// `starts` cuts `items` into what each of the messages becomes, in their order.
pub open spec fn tells_all_items(
    items: Seq<JsonView>,
    messages: Seq<MessageView>,
    starts: Seq<int>,
) -> bool {
    &&& starts.len() == messages.len() + 1
    &&& starts[0] == 0
    &&& starts.last() == items.len()
    &&& forall|i: int|
        0 <= i < messages.len() ==> 0 <= #[trigger] starts[i] <= starts[i + 1] <= items.len()
            && tells_items(items.subrange(starts[i], starts[i + 1]), messages[i])
}

proof fn lemma_input_is_told(messages: Seq<MessageView>) -> (starts: Seq<int>)
    ensures
        tells_all_items(input_of(messages), messages, starts),
    decreases messages.len(),
{
    let items = input_of(messages);
    if messages.len() == 0 {
        seq![0int]
    } else {
        let front = messages.drop_last();
        let before = input_of(front);
        let earlier = lemma_input_is_told(front);
        let starts = earlier.push(items.len() as int);
        lemma_items_are_told(messages.last());
        assert forall|i: int| 0 <= i < messages.len() implies 0 <= #[trigger] starts[i]
            <= starts[i + 1] <= items.len() && tells_items(
            items.subrange(starts[i], starts[i + 1]),
            messages[i],
        ) by {
            assert(starts[i] == earlier[i]);
            if i < front.len() {
                assert(starts[i + 1] == earlier[i + 1]);
                assert(items.subrange(starts[i], starts[i + 1]) =~= before.subrange(
                    earlier[i],
                    earlier[i + 1],
                ));
                assert(front[i] == messages[i]);
            } else {
                assert(items.subrange(starts[i], starts[i + 1]) =~= input_items(messages.last()));
            }
        }
        starts
    }
}

/// A request of Responses has the model, what every message becomes, one behind
/// the other in the order of the messages, every tool in its place, and the
/// limit and the effort where there is one. It asks for a stream of which
/// nothing is stored.
pub proof fn law_responses_request_says_everything(
    model: Seq<char>,
    thinking: NormalizedView,
    messages: Seq<MessageView>,
    tools: Seq<DefinitionView>,
    max_output_tokens: Option<usize>,
) -> (starts: Seq<int>)
    ensures
        ({
            let request = responses_wire(model, thinking, messages, tools, max_output_tokens);
            &&& says(request, "model"@, model)
            &&& request.get("stream"@) == Some(JsonView::Bool(true))
            &&& request.get("store"@) == Some(JsonView::Bool(false))
            &&& tells_limit(request, "max_output_tokens"@, max_output_tokens)
            &&& match thinking.provider_value {
                Some(effort) => request.get("reasoning"@) matches Some(reasoning) && says(
                    reasoning,
                    "effort"@,
                    effort,
                ),
                None => request.get("reasoning"@) is None,
            }
            &&& (request.get("input"@) matches Some(JsonView::Array(items)) && tells_all_items(
                items,
                messages,
                starts,
            ))
            &&& tools.len() == 0 ==> request.get("tools"@) is None && request.get(
                "tool_choice"@,
            ) is None
            &&& tools.len() > 0 ==> says(request, "tool_choice"@, "auto"@) && (request.get(
                "tools"@,
            ) matches Some(JsonView::Array(sent)) && sent.len() == tools.len() && forall|i: int|
                0 <= i < sent.len() ==> says(#[trigger] sent[i], "type"@, "function"@)
                    && tells_tool(sent[i], tools[i]))
        }),
{
    let request = responses_wire(model, thinking, messages, tools, max_output_tokens);
    let fields = request->Object_0;
    reveal_strlit("model");
    reveal_strlit("input");
    reveal_strlit("stream");
    reveal_strlit("store");
    reveal_strlit("max_output_tokens");
    reveal_strlit("reasoning");
    reveal_strlit("tools");
    reveal_strlit("tool_choice");
    assert("model"@.len() == 5 && "input"@.len() == 5 && "stream"@.len() == 6);
    assert("store"@.len() == 5 && "max_output_tokens"@.len() == 17 && "reasoning"@.len() == 9);
    assert("tools"@.len() == 5 && "tool_choice"@.len() == 11);
    assert("model"@[0] == 'm' && "tools"@[0] == 't' && "input"@[0] == 'i' && "store"@[0] == 's');
    let offered = tools.map_values(|tool: DefinitionView| flat_tool(tool));
    json::lemma_field_at(fields, 0);
    json::lemma_field_at(fields, 1);
    json::lemma_field_at(fields, 2);
    json::lemma_field_at(fields, 3);
    let second: int = if max_output_tokens is Some {
        5
    } else {
        4
    };
    let third: int = if thinking.provider_value is Some {
        second + 1
    } else {
        second
    };
    if max_output_tokens is Some {
        json::lemma_field_at(fields, 4);
    } else {
        json::lemma_no_field(fields, "max_output_tokens"@);
    }
    if thinking.provider_value is Some {
        json::lemma_field_at(fields, second);
        json::lemma_field_at(seq![("effort"@, jtext(thinking.provider_value->0))], 0);
    } else {
        json::lemma_no_field(fields, "reasoning"@);
    }
    if tools.len() > 0 {
        json::lemma_field_at(fields, third);
        json::lemma_field_at(fields, third + 1);
        assert forall|i: int| 0 <= i < offered.len() implies says(
            #[trigger] offered[i],
            "type"@,
            "function"@,
        ) && tells_tool(offered[i], tools[i]) by {
            lemma_tool_is_told(tools[i]);
        }
    } else {
        json::lemma_no_field(fields, "tools"@);
        json::lemma_no_field(fields, "tool_choice"@);
    }
    lemma_input_is_told(messages)
}

/// An endpoint stands below its base URL, with one slash between them, however
/// many slashes the base ends with.
pub proof fn law_endpoints_have_one_slash(base_url: Seq<char>, path: Seq<char>)
    requires
        base_url.len() > 0 ==> base_url.last() != '/',
    ensures
        endpoint_of(base_url, path) == base_url + "/"@ + path,
        endpoint_of(base_url.push('/'), path) == base_url + "/"@ + path,
        endpoint_of(base_url.push('/').push('/'), path) == base_url + "/"@ + path,
{
    reveal_strlit("/");
    reveal_with_fuel(text::trim_end_matches, 4);
    let one = base_url.push('/');
    let two = one.push('/');
    assert("/"@ =~= seq!['/']);
    if base_url.len() > 0 {
        assert(base_url.subrange(base_url.len() - 1, base_url.len() as int)[0] == base_url.last());
    }
    assert(one.subrange(one.len() - 1, one.len() as int) =~= "/"@);
    assert(two.subrange(two.len() - 1, two.len() as int) =~= "/"@);
    assert(one.take(one.len() - 1) =~= base_url);
    assert(two.take(two.len() - 1) =~= one);
}

} // verus!
