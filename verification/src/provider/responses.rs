//! Streams and bodies of Responses.
use crate::agent::event;
use crate::agent::event::AgentEvent;
use crate::agent::event::EventView;
use crate::agent::event::MessageRole;
use crate::agent::message::AssistantMessage;
use crate::agent::message::AssistantView;
use crate::agent::message::ToolCall;
use crate::agent::message::ToolCallView;
use crate::json;
use crate::json::Json;
use crate::json::JsonView;
use crate::provider::chat;
use crate::provider::stream;
use crate::text;
use vstd::prelude::*;
use vstd::string::*;

verus! {

// ---------------------------------------------------------------------------
// The output of a response
// ---------------------------------------------------------------------------

/// The text under `key`.
pub open spec fn text_at(value: JsonView, key: Seq<char>) -> Option<Seq<char>> {
    value.need_text(key)
}

/// The texts of the parts of a summary.
pub open spec fn summary_text(parts: Seq<JsonView>) -> Seq<char>
    decreases parts.len(),
{
    if parts.len() == 0 {
        Seq::empty()
    } else {
        summary_text(parts.drop_last()) + stream::or_empty(text_at(parts.last(), "text"@))
    }
}

/// The text of one part of an answer.
pub open spec fn answer_part(part: JsonView) -> Option<Seq<char>> {
    if text_at(part, "type"@) == Some("output_text"@) {
        text_at(part, "text"@)
    } else {
        None
    }
}

/// The texts of the parts of an answer.
pub open spec fn answer_text(parts: Seq<JsonView>) -> Seq<char>
    decreases parts.len(),
{
    if parts.len() == 0 {
        Seq::empty()
    } else {
        answer_text(parts.drop_last()) + stream::or_empty(answer_part(parts.last()))
    }
}

/// The list under `key`, or no values.
pub open spec fn parts_at(item: JsonView, key: Seq<char>) -> Seq<JsonView> {
    match item.get(key) {
        Some(JsonView::Array(parts)) => parts,
        _ => Seq::empty(),
    }
}

pub open spec fn omitted(field: Seq<char>) -> Seq<char> {
    "Responses API "@ + "function call"@ + " omitted "@ + field
}

/// A call of a tool, or the field that it lacks.
pub open spec fn call_in(item: JsonView) -> Result<ToolCallView, Seq<char>> {
    match text_at(item, "call_id"@) {
        None => Err(omitted("call_id"@)),
        Some(id) => match text_at(item, "name"@) {
            None => Err(omitted("name"@)),
            Some(name) => match text_at(item, "arguments"@) {
                None => Err(omitted("arguments"@)),
                Some(arguments) => Ok(ToolCallView { id, name, arguments }),
            },
        },
    }
}

/// What the items of an output say together.
#[verifier::ext_equal]
pub struct OutputView {
    pub content: Seq<char>,
    pub thinking: Seq<char>,
    pub calls: Seq<ToolCallView>,
}

/// What an item adds.
pub open spec fn output_with(output: OutputView, item: JsonView) -> Result<OutputView, Seq<char>> {
    match text_at(item, "type"@) {
        Some(kind) => if kind == "reasoning"@ {
            Ok(
                OutputView {
                    thinking: output.thinking + summary_text(parts_at(item, "summary"@)),
                    ..output
                },
            )
        } else if kind == "message"@ {
            Ok(
                OutputView {
                    content: output.content + answer_text(parts_at(item, "content"@)),
                    ..output
                },
            )
        } else if kind == "function_call"@ {
            match call_in(item) {
                Ok(call) => Ok(OutputView { calls: output.calls.push(call), ..output }),
                Err(message) => Err(message),
            }
        } else {
            Ok(output)
        },
        None => Ok(output),
    }
}

/// What the items of an output say together, or the first thing that is wrong.
pub open spec fn output_of(items: Seq<JsonView>) -> Result<OutputView, Seq<char>>
    decreases items.len(),
{
    if items.len() == 0 {
        Ok(OutputView { content: Seq::empty(), thinking: Seq::empty(), calls: Seq::empty() })
    } else {
        match output_of(items.drop_last()) {
            Err(message) => Err(message),
            Ok(output) => output_with(output, items.last()),
        }
    }
}

/// The message of an output: thinking that was given counts, else what stands
/// between tags.
pub open spec fn output_message(output: OutputView, items: Seq<JsonView>) -> AssistantView {
    let (fallback, content) = chat::think_split(output.content);
    AssistantView {
        content,
        thinking: if output.thinking.len() > 0 {
            Some(output.thinking)
        } else {
            fallback
        },
        tool_calls: output.calls,
        provider_state: Some(JsonView::Array(items)),
        usage: None,
    }
}

/// What is told of the message of an output.
pub open spec fn output_events(message: AssistantView, text_already_emitted: bool) -> Seq<
    EventView,
> {
    let thought = match message.thinking {
        Some(thinking) => seq![event::thinking_delta(thinking)],
        None => Seq::empty(),
    };
    if !text_already_emitted && message.content.len() > 0 {
        thought.push(event::answer_delta(message.content))
    } else {
        thought
    }
}

fn append_summary(target: &mut String, item: &Json)
    ensures
        final(target)@ == old(target)@ + summary_text(parts_at(item@, "summary"@)),
{
    let ghost before = target@;
    assert(before + Seq::<char>::empty() =~= before);
    match item.get("summary") {
        Some(Json::Array(parts)) => {
            let ghost model = json::items_view(parts@);
            proof {
                json::lemma_items_view(parts@);
            }
            let mut i: usize = 0;
            assert(before + summary_text(model.take(0)) =~= before);
            while i < parts.len()
                invariant
                    i <= parts@.len(),
                    model.len() == parts@.len(),
                    forall|j: int| 0 <= j < parts@.len() ==> #[trigger] model[j] == parts@[j]@,
                    target@ == before + summary_text(model.take(i as int)),
                decreases parts@.len() - i,
            {
                assert(model.take(i as int + 1).drop_last() =~= model.take(i as int));
                assert(model.take(i as int + 1).last() == parts@[i as int]@);
                let ghost so_far = target@;
                match parts[i].need_text("text") {
                    Some(piece) => {
                        target.append(piece.as_str());
                    },
                    None => {},
                }
                assert(target@ =~= before + summary_text(model.take(i as int + 1)));
                i = i + 1;
            }
            assert(model.take(model.len() as int) =~= model);
        },
        _ => {},
    }
}

fn append_answer(target: &mut String, item: &Json)
    ensures
        final(target)@ == old(target)@ + answer_text(parts_at(item@, "content"@)),
{
    let ghost before = target@;
    assert(before + Seq::<char>::empty() =~= before);
    match item.get("content") {
        Some(Json::Array(parts)) => {
            let ghost model = json::items_view(parts@);
            proof {
                json::lemma_items_view(parts@);
            }
            let mut i: usize = 0;
            assert(before + answer_text(model.take(0)) =~= before);
            while i < parts.len()
                invariant
                    i <= parts@.len(),
                    model.len() == parts@.len(),
                    forall|j: int| 0 <= j < parts@.len() ==> #[trigger] model[j] == parts@[j]@,
                    target@ == before + answer_text(model.take(i as int)),
                decreases parts@.len() - i,
            {
                assert(model.take(i as int + 1).drop_last() =~= model.take(i as int));
                assert(model.take(i as int + 1).last() == parts@[i as int]@);
                let is_text = match parts[i].need_text("type") {
                    Some(kind) => text::same(kind.as_str(), "output_text"),
                    None => false,
                };
                if is_text {
                    match parts[i].need_text("text") {
                        Some(piece) => {
                            target.append(piece.as_str());
                        },
                        None => {},
                    }
                }
                assert(target@ =~= before + answer_text(model.take(i as int + 1)));
                i = i + 1;
            }
            assert(model.take(model.len() as int) =~= model);
        },
        _ => {},
    }
}

fn required_response_string(item: &Json, field: &str) -> (r: Result<String, String>)
    ensures
        match r {
            Ok(s) => text_at(item@, field@) == Some(s@),
            Err(message) => text_at(item@, field@) is None && message@ == omitted(field@),
        },
{
    match item.need_text(field) {
        Some(s) => Ok(s),
        None => {
            let mut message = text::concat("Responses API ", "function call");
            message.append(" omitted ");
            message.append(field);
            Err(message)
        },
    }
}

fn call_from(item: &Json) -> (r: Result<ToolCall, String>)
    ensures
        text::res(r) == call_in(item@),
{
    let id = match required_response_string(item, "call_id") {
        Ok(id) => id,
        Err(message) => {
            return Err(message);
        },
    };
    let name = match required_response_string(item, "name") {
        Ok(name) => name,
        Err(message) => {
            return Err(message);
        },
    };
    let arguments = match required_response_string(item, "arguments") {
        Ok(arguments) => arguments,
        Err(message) => {
            return Err(message);
        },
    };
    Ok(ToolCall { id, name, arguments })
}

proof fn lemma_output_error(items: Seq<JsonView>, n: int)
    requires
        0 <= n <= items.len(),
        output_of(items.take(n)) is Err,
    ensures
        output_of(items) == output_of(items.take(n)),
    decreases items.len(),
{
    if n == items.len() {
        assert(items.take(n) =~= items);
    } else {
        assert(items.drop_last().take(n) =~= items.take(n));
        lemma_output_error(items.drop_last(), n);
    }
}

/// The message of an output, and what is told of it.
pub fn finish_responses_message(
    output: Vec<Json>,
    events: &mut Vec<AgentEvent>,
    text_already_emitted: bool,
) -> (r: Result<AssistantMessage, String>)
    ensures
        match (r, output_of(json::items_view(output@))) {
            (Ok(message), Ok(said)) => {
                &&& message@ == output_message(said, json::items_view(output@))
                &&& text::views(final(events)@) == text::views(old(events)@) + output_events(
                    message@,
                    text_already_emitted,
                )
            },
            (Err(message), Err(complaint)) => message@ == complaint && text::views(final(events)@)
                == text::views(old(events)@),
            _ => false,
        },
{
    let ghost model = json::items_view(output@);
    proof {
        json::lemma_items_view(output@);
    }
    let ghost told = text::views(events@);
    let mut content = chat::empty_text();
    let mut thinking = chat::empty_text();
    let mut tool_calls: Vec<ToolCall> = Vec::new();
    let mut i: usize = 0;
    assert(text::views(tool_calls@) =~= Seq::<ToolCallView>::empty());
    while i < output.len()
        invariant
            i <= output@.len(),
            model == json::items_view(output@),
            model.len() == output@.len(),
            forall|j: int| 0 <= j < output@.len() ==> #[trigger] model[j] == output@[j]@,
            output_of(model.take(i as int)) == Ok::<OutputView, Seq<char>>(
                OutputView {
                    content: content@,
                    thinking: thinking@,
                    calls: text::views(tool_calls@),
                },
            ),
            text::views(events@) == told,
            told == text::views(old(events)@),
        decreases output@.len() - i,
    {
        assert(model.take(i as int + 1).drop_last() =~= model.take(i as int));
        assert(model.take(i as int + 1).last() == output@[i as int]@);
        let item = &output[i];
        match item.need_text("type") {
            Some(kind) => {
                if text::same(kind.as_str(), "reasoning") {
                    append_summary(&mut thinking, item);
                } else if text::same(kind.as_str(), "message") {
                    append_answer(&mut content, item);
                } else if text::same(kind.as_str(), "function_call") {
                    match call_from(item) {
                        Ok(call) => {
                            proof {
                                text::lemma_views_push(tool_calls@, call);
                            }
                            tool_calls.push(call);
                        },
                        Err(message) => {
                            proof {
                                lemma_output_error(model, i as int + 1);
                            }
                            return Err(message);
                        },
                    }
                }
            },
            None => {},
        }
        i = i + 1;
    }
    assert(model.take(model.len() as int) =~= model);
    let (fallback, answer) = chat::split_think_tags(content.as_str());
    let thought = if text::char_count(thinking.as_str()) > 0 {
        Some(thinking)
    } else {
        fallback
    };
    match &thought {
        Some(thinking) => {
            event::tell(events, AgentEvent::ThinkingDelta { delta: thinking.clone() });
        },
        None => {},
    }
    if !text_already_emitted && text::char_count(answer.as_str()) > 0 {
        event::tell(
            events,
            AgentEvent::MessageDelta { role: MessageRole::Assistant, delta: answer.clone() },
        );
    }
    let message = AssistantMessage {
        content: answer,
        thinking: thought,
        tool_calls,
        provider_state: Some(Json::Array(output)),
        usage: None,
    };
    assert(text::views(events@) =~= told + output_events(message@, text_already_emitted));
    Ok(message)
}

// ---------------------------------------------------------------------------
// One line of a stream
// ---------------------------------------------------------------------------

/// What a stream says went wrong.
pub open spec fn stream_error(value: JsonView) -> Option<Seq<char>> {
    let direct = match value.get("error"@) {
        Some(error) => match error.get("message"@) {
            Some(message) => message.text(),
            None => error.text(),
        },
        None => None,
    };
    match direct {
        Some(message) => Some(message),
        None => match value.get("response"@) {
            Some(response) => match response.get("error"@) {
                Some(error) => match error.get("message"@) {
                    Some(message) => message.text(),
                    None => None,
                },
                None => None,
            },
            None => None,
        },
    }
}

pub fn response_stream_error(value: &Json) -> (r: Option<String>)
    ensures
        text::opt(r) == stream_error(value@),
{
    let direct = match value.get("error") {
        Some(error) => match error.get("message") {
            Some(message) => match message {
                Json::Text(s) => Some(s.clone()),
                _ => None,
            },
            None => match error {
                Json::Text(s) => Some(s.clone()),
                _ => None,
            },
        },
        None => None,
    };
    match direct {
        Some(message) => Some(message),
        None => match value.get("response") {
            Some(response) => match response.get("error") {
                Some(error) => match error.get("message") {
                    Some(Json::Text(s)) => Some(s.clone()),
                    _ => None,
                },
                None => None,
            },
            None => None,
        },
    }
}

/// Incremental parser of a stream. Pieces of the answer and of the summary of
/// the reasoning are told as they arrive; the message is made of the completed
/// output at the end.
pub struct ResponsesStreamParser {
    pub content: String,
    pub thinking: String,
    pub output: Vec<Json>,
    pub completed_output: Option<Vec<Json>>,
    pub response_error: Option<String>,
}

/// What a [`ResponsesStreamParser`] holds.
#[verifier::ext_equal]
pub struct ResponsesParserView {
    pub content: Seq<char>,
    pub thinking: Seq<char>,
    pub output: Seq<JsonView>,
    pub completed_output: Option<Seq<JsonView>>,
    pub response_error: Option<Seq<char>>,
}

impl View for ResponsesStreamParser {
    type V = ResponsesParserView;

    open spec fn view(&self) -> ResponsesParserView {
        ResponsesParserView {
            content: self.content@,
            thinking: self.thinking@,
            output: json::items_view(self.output@),
            completed_output: json::list_view(self.completed_output),
            response_error: text::opt(self.response_error),
        }
    }
}

pub open spec fn new_responses_parser() -> ResponsesParserView {
    ResponsesParserView {
        content: Seq::empty(),
        thinking: Seq::empty(),
        output: Seq::empty(),
        completed_output: None,
        response_error: None,
    }
}

/// The completed output that an event carries.
pub open spec fn completed_in(value: JsonView) -> Option<Seq<JsonView>> {
    match value.get("response"@) {
        Some(response) => match response.get("output"@) {
            Some(JsonView::Array(items)) => Some(items),
            _ => None,
        },
        None => None,
    }
}

impl ResponsesParserView {
    /// This parser after an event.
    pub open spec fn with(self, value: JsonView) -> ResponsesParserView {
        match value.need_text("type"@) {
            None => self,
            Some(kind) => if kind == "response.output_text.delta"@ {
                match value.need_text("delta"@) {
                    Some(delta) => ResponsesParserView { content: self.content + delta, ..self },
                    None => self,
                }
            } else if kind == "response.reasoning_summary_text.delta"@ {
                match value.need_text("delta"@) {
                    Some(delta) => ResponsesParserView { thinking: self.thinking + delta, ..self },
                    None => self,
                }
            } else if kind == "response.output_item.done"@ {
                match value.get("item"@) {
                    Some(item) => ResponsesParserView { output: self.output.push(item), ..self },
                    None => self,
                }
            } else if kind == "response.completed"@ {
                ResponsesParserView { completed_output: completed_in(value), ..self }
            } else if kind == "response.failed"@ || kind == "error"@ {
                ResponsesParserView { response_error: stream_error(value), ..self }
            } else {
                self
            },
        }
    }

    /// What the output is made of: the completed one, else the items that came.
    pub open spec fn items(self) -> Seq<JsonView> {
        match self.completed_output {
            Some(items) => items,
            None => self.output,
        }
    }

    /// The message, once the stream has ended, or what went wrong.
    pub open spec fn message(self) -> Result<AssistantView, Seq<char>> {
        match (self.response_error, output_of(self.items())) {
            (Some(error), _) => Err("Responses API stream failed: "@ + error),
            (None, Err(complaint)) => Err(complaint),
            (None, Ok(output)) => {
                let made = output_message(output, self.items());
                let (fallback, stripped) = chat::think_split(self.content);
                let thinking = if self.thinking.len() > 0 {
                    Some(self.thinking)
                } else if made.thinking is None && self.content.len() > 0 {
                    fallback
                } else {
                    made.thinking
                };
                Ok(
                    AssistantView {
                        content: if self.content.len() > 0 {
                            stripped
                        } else {
                            made.content
                        },
                        thinking,
                        ..made
                    },
                )
            },
        }
    }

    /// What is told at the end: the answer, where none of it was told before.
    pub open spec fn closing_events(self) -> Seq<EventView> {
        match output_of(self.items()) {
            Ok(output) => {
                let made = output_message(output, self.items());
                if self.content.len() == 0 && made.content.len() > 0 {
                    seq![event::answer_delta(made.content)]
                } else {
                    Seq::empty()
                }
            },
            Err(_) => Seq::empty(),
        }
    }
}

/// What is told of an event.
pub open spec fn event_events(value: JsonView) -> Seq<EventView> {
    match (value.need_text("type"@), value.need_text("delta"@)) {
        (Some(kind), Some(delta)) => if kind == "response.output_text.delta"@ {
            seq![event::answer_delta(delta)]
        } else if kind == "response.reasoning_summary_text.delta"@ {
            seq![event::thinking_delta(delta)]
        } else {
            Seq::empty()
        },
        _ => Seq::empty(),
    }
}

/// The event that a line carries: `Ok(None)` where it carries none that counts,
/// `Err` where its data is no JSON.
pub open spec fn line_event(line: Seq<u8>) -> Result<Option<JsonView>, Seq<char>> {
    match stream::line_data(line) {
        None => Ok(None),
        Some(data) => match json::parsed_json(data) {
            Ok(value) => Ok(Some(value)),
            Err(message) => Err(message),
        },
    }
}

/// The message on an event that is no JSON, and on why it is none.
pub open spec fn event_complaint(cause: Seq<char>) -> Seq<char> {
    "provider returned an invalid Responses API streaming event: "@ + cause
}

impl ResponsesStreamParser {
    pub fn new() -> (r: ResponsesStreamParser)
        ensures
            r@ == new_responses_parser(),
    {
        let r = ResponsesStreamParser {
            content: chat::empty_text(),
            thinking: chat::empty_text(),
            output: Vec::new(),
            completed_output: None,
            response_error: None,
        };
        assert(r@ =~= new_responses_parser());
        r
    }

    /// Takes in one event.
    fn apply(&mut self, value: &Json, events: &mut Vec<AgentEvent>)
        ensures
            final(self)@ == old(self)@.with(value@),
            text::views(final(events)@) == text::views(old(events)@) + event_events(value@),
    {
        let ghost told = text::views(events@);
        assert(told + Seq::<EventView>::empty() =~= told);
        let kind = match value.need_text("type") {
            Some(kind) => kind,
            None => {
                return;
            },
        };
        if text::same(kind.as_str(), "response.output_text.delta") {
            match value.need_text("delta") {
                Some(delta) => {
                    self.content.append(delta.as_str());
                    event::tell(
                        events,
                        AgentEvent::MessageDelta { role: MessageRole::Assistant, delta },
                    );
                },
                None => {},
            }
        } else if text::same(kind.as_str(), "response.reasoning_summary_text.delta") {
            match value.need_text("delta") {
                Some(delta) => {
                    self.thinking.append(delta.as_str());
                    event::tell(events, AgentEvent::ThinkingDelta { delta });
                },
                None => {},
            }
        } else if text::same(kind.as_str(), "response.output_item.done") {
            match value.get("item") {
                Some(item) => {
                    json::push_item(&mut self.output, item.copy());
                },
                None => {},
            }
        } else if text::same(kind.as_str(), "response.completed") {
            self.completed_output = match value.get("response") {
                Some(response) => match response.get("output") {
                    Some(Json::Array(items)) => Some(json::copy_items(items)),
                    _ => None,
                },
                None => None,
            };
        } else if text::same(kind.as_str(), "response.failed") || text::same(
            kind.as_str(),
            "error",
        ) {
            self.response_error = response_stream_error(value);
        }
        assert(text::views(events@) =~= told + event_events(value@));
    }

    /// Takes in one line of a stream.
    pub fn feed_line(&mut self, line: &[u8], events: &mut Vec<AgentEvent>) -> (r: Result<
        (),
        String,
    >)
        ensures
            match (r, line_event(line@)) {
                (Ok(_), Ok(None)) => {
                    &&& final(self)@ == old(self)@
                    &&& text::views(final(events)@) == text::views(old(events)@)
                },
                (Ok(_), Ok(Some(value))) => {
                    &&& final(self)@ == old(self)@.with(value)
                    &&& text::views(final(events)@) == text::views(old(events)@) + event_events(
                        value,
                    )
                },
                (Err(message), Err(cause)) => {
                    &&& message@ == event_complaint(cause)
                    &&& final(self)@ == old(self)@
                    &&& text::views(final(events)@) == text::views(old(events)@)
                },
                _ => false,
            },
    {
        match stream::data_of_line(line) {
            None => Ok(()),
            Some(data) => match json::parse_json(data) {
                Ok(value) => {
                    self.apply(&value, events);
                    Ok(())
                },
                Err(cause) => Err(
                    text::concat(
                        "provider returned an invalid Responses API streaming event: ",
                        cause.as_str(),
                    ),
                ),
            },
        }
    }

    /// The message, once the stream has ended.
    pub fn finish(self, events: &mut Vec<AgentEvent>) -> (r: Result<AssistantMessage, String>)
        ensures
            match (r, self@.message()) {
                (Ok(message), Ok(made)) => {
                    &&& message@ == made
                    &&& text::views(final(events)@) == text::views(old(events)@)
                        + self@.closing_events()
                },
                (Err(message), Err(complaint)) => {
                    &&& message@ == complaint
                    &&& text::views(final(events)@) == text::views(old(events)@)
                },
                _ => false,
            },
    {
        let ghost told = text::views(events@);
        match self.response_error {
            Some(error) => {
                return Err(text::concat("Responses API stream failed: ", error.as_str()));
            },
            None => {},
        }
        let output = match self.completed_output {
            Some(items) => items,
            None => self.output,
        };
        let answered = text::char_count(self.content.as_str()) > 0;
        let mut unused: Vec<AgentEvent> = Vec::new();
        let mut message = match finish_responses_message(output, &mut unused, answered) {
            Ok(message) => message,
            Err(complaint) => {
                return Err(complaint);
            },
        };
        if !answered && text::char_count(message.content.as_str()) > 0 {
            event::tell(
                events,
                AgentEvent::MessageDelta {
                    role: MessageRole::Assistant,
                    delta: message.content.clone(),
                },
            );
        }
        assert(text::views(events@) =~= told + self@.closing_events());
        if answered {
            let (fallback, stripped) = chat::split_think_tags(self.content.as_str());
            message.content = stripped;
            if message.thinking.is_none() {
                message.thinking = fallback;
            }
        }
        if text::char_count(self.thinking.as_str()) > 0 {
            message.thinking = Some(self.thinking);
        }
        Ok(message)
    }
}

// ---------------------------------------------------------------------------
// How a message is put together
// ---------------------------------------------------------------------------

/// `item` says that it is of a kind.
pub open spec fn is_kind(item: JsonView, kind: Seq<char>) -> bool {
    item.get("type"@) == Some(JsonView::Text(kind))
}

/// `item` has a text for every field of a call, and `call` has these texts.
pub open spec fn gives_call(item: JsonView, call: ToolCallView) -> bool {
    &&& item.get("call_id"@) == Some(JsonView::Text(call.id))
    &&& item.get("name"@) == Some(JsonView::Text(call.name))
    &&& item.get("arguments"@) == Some(JsonView::Text(call.arguments))
}

proof fn lemma_kinds_differ()
    ensures
        "reasoning"@ != "message"@,
        "reasoning"@ != "function_call"@,
        "message"@ != "function_call"@,
{
    reveal_strlit("reasoning");
    reveal_strlit("message");
    reveal_strlit("function_call");
    assert("reasoning"@.len() == 9 && "message"@.len() == 7 && "function_call"@.len() == 13);
}

/// The calls of an output are those of its items that are calls, all of them
/// and in their order, each with the ID, the name and the arguments that its
/// item gives.
pub proof fn law_output_has_every_call(items: Seq<JsonView>) -> (places: Seq<int>)
    requires
        output_of(items) is Ok,
    ensures
        ({
            let calls = output_of(items)->Ok_0.calls;
            &&& places.len() == calls.len()
            &&& forall|k: int|
                0 <= k < places.len() ==> 0 <= #[trigger] places[k] < items.len() && is_kind(
                    items[places[k]],
                    "function_call"@,
                ) && gives_call(items[places[k]], calls[k])
            &&& forall|j: int, k: int|
                0 <= j < k < places.len() ==> #[trigger] places[j] < #[trigger] places[k]
            &&& forall|i: int|
                0 <= i < items.len() && is_kind(#[trigger] items[i], "function_call"@)
                    ==> places.contains(i)
        }),
    decreases items.len(),
{
    if items.len() == 0 {
        Seq::empty()
    } else {
        lemma_kinds_differ();
        let front = items.drop_last();
        let last: int = items.len() - 1;
        let before = law_output_has_every_call(front);
        let earlier = output_of(front)->Ok_0.calls;
        let calls = output_of(items)->Ok_0.calls;
        let is_call = is_kind(items[last], "function_call"@);
        let places = if is_call {
            before.push(last)
        } else {
            before
        };
        assert(items.last() == items[last]);
        assert forall|k: int| 0 <= k < places.len() implies 0 <= #[trigger] places[k] < items.len()
            && is_kind(items[places[k]], "function_call"@) && gives_call(
            items[places[k]],
            calls[k],
        ) by {
            if k < before.len() {
                assert(places[k] == before[k]);
                assert(front[before[k]] == items[before[k]]);
                assert(calls[k] == earlier[k]);
            }
        }
        assert forall|i: int|
            0 <= i < items.len() && is_kind(
                #[trigger] items[i],
                "function_call"@,
            ) implies places.contains(i) by {
            if i < last {
                assert(front[i] == items[i]);
                assert(before.contains(i));
                assert(places[before.index_of(i)] == i);
            } else {
                assert(places[before.len() as int] == i);
            }
        }
        places
    }
}

/// An output is refused just where one of its calls lacks its ID, its name or
/// its arguments, and then says which.
pub proof fn law_only_broken_calls_are_refused(items: Seq<JsonView>)
    ensures
        output_of(items) is Err <==> exists|i: int|
            0 <= i < items.len() && is_kind(#[trigger] items[i], "function_call"@)
                && forall|call: ToolCallView| !#[trigger] gives_call(items[i], call),
    decreases items.len(),
{
    lemma_kinds_differ();
    if items.len() > 0 {
        let front = items.drop_last();
        let last: int = items.len() - 1;
        law_only_broken_calls_are_refused(front);
        assert(items.last() == items[last]);
        if output_of(front) is Err {
            let i = choose|i: int|
                0 <= i < front.len() && is_kind(#[trigger] front[i], "function_call"@)
                    && forall|call: ToolCallView| !#[trigger] gives_call(front[i], call);
            assert(front[i] == items[i]);
        } else {
            if let Ok(call) = call_in(items[last]) {
                assert(gives_call(items[last], call));
            }
            if output_of(items) is Err {
                assert forall|call: ToolCallView| !#[trigger] gives_call(items[last], call) by {}
            } else {
                assert forall|i: int|
                    0 <= i < items.len() && is_kind(
                        #[trigger] items[i],
                        "function_call"@,
                    ) implies exists|call: ToolCallView| #[trigger] gives_call(items[i], call) by {
                    if i < last {
                        assert(front[i] == items[i]);
                    }
                }
            }
        }
    }
}

/// What an output says and thinks is what its items say and think, one behind
/// the other: outputs go together as their texts do.
pub proof fn law_outputs_go_together(a: Seq<JsonView>, b: Seq<JsonView>)
    requires
        output_of(a) is Ok,
        output_of(b) is Ok,
    ensures
        output_of(a + b) is Ok,
        output_of(a + b)->Ok_0.content == output_of(a)->Ok_0.content + output_of(b)->Ok_0.content,
        output_of(a + b)->Ok_0.thinking == output_of(a)->Ok_0.thinking + output_of(
            b,
        )->Ok_0.thinking,
        output_of(a + b)->Ok_0.calls == output_of(a)->Ok_0.calls + output_of(b)->Ok_0.calls,
    decreases b.len(),
{
    let first = output_of(a)->Ok_0;
    if b.len() == 0 {
        let second = output_of(b)->Ok_0;
        assert(a + b =~= a);
        assert(first.content + second.content =~= first.content);
        assert(first.thinking + second.thinking =~= first.thinking);
        assert(first.calls + second.calls =~= first.calls);
    } else {
        assert((a + b).drop_last() =~= a + b.drop_last());
        assert((a + b).last() == b.last());
        law_outputs_go_together(a, b.drop_last());
        let second = output_of(b)->Ok_0;
        let both = output_of(a + b)->Ok_0;
        assert(both.content =~= first.content + second.content);
        assert(both.thinking =~= first.thinking + second.thinking);
        assert(both.calls =~= first.calls + second.calls);
    }
}

/// An item that is a message says the texts of its parts; one of one part says
/// that part's text. An item that is reasoning thinks the texts of its summary.
pub proof fn law_one_item_says_its_text(item: JsonView, part: JsonView, said: Seq<char>)
    requires
        part.get("text"@) == Some(JsonView::Text(said)),
    ensures
        is_kind(item, "message"@) && is_kind(part, "output_text"@) && item.get("content"@) == Some(
            JsonView::Array(seq![part]),
        ) ==> output_of(seq![item]) is Ok && output_of(seq![item])->Ok_0.content == said
            && output_of(seq![item])->Ok_0.thinking.len() == 0,
        is_kind(item, "reasoning"@) && item.get("summary"@) == Some(JsonView::Array(seq![part]))
            ==> output_of(seq![item]) is Ok && output_of(seq![item])->Ok_0.thinking == said
            && output_of(seq![item])->Ok_0.content.len() == 0,
{
    lemma_kinds_differ();
    let items = seq![item];
    let none = Seq::<JsonView>::empty();
    assert(items.drop_last() =~= none);
    assert(output_of(none) is Ok);
    let parts = seq![part];
    assert(parts.drop_last() =~= none);
    assert(answer_text(none) =~= Seq::<char>::empty());
    assert(summary_text(none) =~= Seq::<char>::empty());
    assert(Seq::<char>::empty() + said =~= said);
    if is_kind(part, "output_text"@) {
        assert(answer_text(parts) =~= said);
    }
    assert(summary_text(parts) =~= said);
    assert(Seq::<char>::empty() + (Seq::<char>::empty() + said) =~= said);
}

/// The texts of the parts of an answer, and of a summary, go together as the
/// parts do.
pub proof fn law_parts_go_together(a: Seq<JsonView>, b: Seq<JsonView>)
    ensures
        answer_text(a + b) == answer_text(a) + answer_text(b),
        summary_text(a + b) == summary_text(a) + summary_text(b),
    decreases b.len(),
{
    if b.len() == 0 {
        assert(a + b =~= a);
        assert(answer_text(a) + answer_text(b) =~= answer_text(a));
        assert(summary_text(a) + summary_text(b) =~= summary_text(a));
    } else {
        assert((a + b).drop_last() =~= a + b.drop_last());
        assert((a + b).last() == b.last());
        law_parts_go_together(a, b.drop_last());
        assert(answer_text(a + b) =~= answer_text(a) + answer_text(b));
        assert(summary_text(a + b) =~= summary_text(a) + summary_text(b));
    }
}

/// This parser after events one after the other.
pub open spec fn after_events(
    parser: ResponsesParserView,
    values: Seq<JsonView>,
) -> ResponsesParserView
    decreases values.len(),
{
    if values.len() == 0 {
        parser
    } else {
        after_events(parser, values.drop_last()).with(values.last())
    }
}

/// What is told of events one after the other.
pub open spec fn events_events(values: Seq<JsonView>) -> Seq<EventView>
    decreases values.len(),
{
    if values.len() == 0 {
        Seq::empty()
    } else {
        events_events(values.drop_last()) + event_events(values.last())
    }
}

/// The texts that the events of a kind bring, one behind the other.
pub open spec fn deltas_of(values: Seq<JsonView>, kind: Seq<char>) -> Seq<char>
    decreases values.len(),
{
    if values.len() == 0 {
        Seq::empty()
    } else {
        match values.last().get("delta"@) {
            Some(JsonView::Text(delta)) => if is_kind(values.last(), kind) {
                deltas_of(values.drop_last(), kind) + delta
            } else {
                deltas_of(values.drop_last(), kind)
            },
            _ => deltas_of(values.drop_last(), kind),
        }
    }
}

proof fn lemma_event_kinds_differ()
    ensures
        "response.output_text.delta"@ != "response.reasoning_summary_text.delta"@,
        "response.output_text.delta"@ != "response.output_item.done"@,
        "response.output_text.delta"@ != "response.completed"@,
        "response.output_text.delta"@ != "response.failed"@,
        "response.output_text.delta"@ != "error"@,
        "response.reasoning_summary_text.delta"@ != "response.output_item.done"@,
        "response.reasoning_summary_text.delta"@ != "response.completed"@,
        "response.reasoning_summary_text.delta"@ != "response.failed"@,
        "response.reasoning_summary_text.delta"@ != "error"@,
        "response.output_item.done"@ != "response.completed"@,
        "response.output_item.done"@ != "response.failed"@,
        "response.output_item.done"@ != "error"@,
        "response.completed"@ != "response.failed"@,
        "response.completed"@ != "error"@,
{
    reveal_strlit("response.output_text.delta");
    reveal_strlit("response.reasoning_summary_text.delta");
    reveal_strlit("response.output_item.done");
    reveal_strlit("response.completed");
    reveal_strlit("response.failed");
    reveal_strlit("error");
    assert("response.output_text.delta"@.len() == 26);
    assert("response.reasoning_summary_text.delta"@.len() == 37);
    assert("response.output_item.done"@.len() == 25);
    assert("response.completed"@.len() == 18);
    assert("response.failed"@.len() == 15);
    assert("error"@.len() == 5);
}

/// A parser holds the pieces of the answer and of the reasoning that came, one
/// behind the other, and they are told as they came. The items of the output are
/// those that were done, in their order.
pub proof fn law_streamed_pieces_are_kept(values: Seq<JsonView>) -> (places: Seq<int>)
    ensures
        ({
            let parser = after_events(new_responses_parser(), values);
            let said = deltas_of(values, "response.output_text.delta"@);
            let thought = deltas_of(values, "response.reasoning_summary_text.delta"@);
            &&& parser.content == said
            &&& parser.thinking == thought
            &&& chat::answer_told(events_events(values)) == said
            &&& chat::thinking_told(events_events(values)) == thought
            &&& places.len() == parser.output.len()
            &&& forall|k: int|
                0 <= k < places.len() ==> 0 <= #[trigger] places[k] < values.len() && is_kind(
                    values[places[k]],
                    "response.output_item.done"@,
                ) && values[places[k]].get("item"@) == Some(parser.output[k])
            &&& forall|j: int, k: int|
                0 <= j < k < places.len() ==> #[trigger] places[j] < #[trigger] places[k]
            &&& forall|i: int|
                0 <= i < values.len() && is_kind(
                    #[trigger] values[i],
                    "response.output_item.done"@,
                ) && values[i].get("item"@) is Some ==> places.contains(i)
        }),
    decreases values.len(),
{
    if values.len() == 0 {
        Seq::empty()
    } else {
        lemma_event_kinds_differ();
        let front = values.drop_last();
        let last: int = values.len() - 1;
        let value = values.last();
        let before = law_streamed_pieces_are_kept(front);
        let earlier = after_events(new_responses_parser(), front);
        let parser = after_events(new_responses_parser(), values);
        let told = event_events(value);
        chat::lemma_told_in_turn(events_events(front), told);
        lemma_one_event(value);
        assert(parser.content =~= deltas_of(values, "response.output_text.delta"@));
        assert(parser.thinking =~= deltas_of(values, "response.reasoning_summary_text.delta"@));
        assert(chat::answer_told(events_events(values)) =~= parser.content);
        assert(chat::thinking_told(events_events(values)) =~= parser.thinking);
        let done = is_kind(value, "response.output_item.done"@) && value.get("item"@) is Some;
        let places = if done {
            before.push(last)
        } else {
            before
        };
        assert forall|k: int| 0 <= k < places.len() implies 0 <= #[trigger] places[k]
            < values.len() && is_kind(values[places[k]], "response.output_item.done"@)
            && values[places[k]].get("item"@) == Some(parser.output[k]) by {
            if k < before.len() {
                assert(places[k] == before[k]);
                assert(front[before[k]] == values[before[k]]);
                assert(parser.output[k] == earlier.output[k]);
            }
        }
        assert forall|i: int|
            0 <= i < values.len() && is_kind(#[trigger] values[i], "response.output_item.done"@)
                && values[i].get("item"@) is Some implies places.contains(i) by {
            if i < last {
                assert(front[i] == values[i]);
                assert(before.contains(i));
                assert(places[before.index_of(i)] == i);
            } else {
                assert(places[before.len() as int] == i);
            }
        }
        places
    }
}

proof fn lemma_one_event(value: JsonView)
    ensures
        ({
            let told = event_events(value);
            let piece = match value.get("delta"@) {
                Some(JsonView::Text(delta)) => delta,
                _ => Seq::empty(),
            };
            &&& chat::answer_told(told) == (if is_kind(value, "response.output_text.delta"@) {
                piece
            } else {
                Seq::empty()
            })
            &&& chat::thinking_told(told) == (if is_kind(
                value,
                "response.reasoning_summary_text.delta"@,
            ) {
                piece
            } else {
                Seq::empty()
            })
        }),
{
    lemma_event_kinds_differ();
    let told = event_events(value);
    reveal_with_fuel(chat::answer_told, 2);
    reveal_with_fuel(chat::thinking_told, 2);
    if told.len() > 0 {
        assert(told.drop_last() =~= Seq::<EventView>::empty());
        match told[0] {
            EventView::MessageDelta { delta, .. } => {
                assert(Seq::<char>::empty() + delta =~= delta);
            },
            EventView::ThinkingDelta { delta } => {
                assert(Seq::<char>::empty() + delta =~= delta);
            },
            _ => {},
        }
    }
}

/// A stream that said something without a tag, and did not fail, makes a
/// message of just what it said, with the thinking that came and every call of
/// its output; the output goes along with it.
pub proof fn law_streamed_message_is_what_came(parser: ResponsesParserView)
    requires
        parser.response_error is None,
        output_of(parser.items()) is Ok,
        parser.content.len() > 0,
        chat::lacks(parser.content, "<think>"@),
    ensures
        parser.message() is Ok,
        parser.message()->Ok_0.content == parser.content,
        parser.thinking.len() > 0 ==> parser.message()->Ok_0.thinking == Some(parser.thinking),
        parser.message()->Ok_0.tool_calls == output_of(parser.items())->Ok_0.calls,
        parser.message()->Ok_0.provider_state == Some(JsonView::Array(parser.items())),
        parser.completed_output is Some ==> parser.items() == parser.completed_output->0,
        parser.completed_output is None ==> parser.items() == parser.output,
        parser.closing_events().len() == 0,
{
    chat::law_untagged_text_is_the_answer(Seq::empty(), parser.content);
}

/// A stream in which nothing came piece by piece makes a message of its output:
/// what the output says, thinks and calls. What it says is told at the end.
pub proof fn law_unstreamed_message_is_the_output(parser: ResponsesParserView)
    requires
        parser.response_error is None,
        output_of(parser.items()) is Ok,
        parser.content.len() == 0,
        parser.thinking.len() == 0,
        chat::lacks(output_of(parser.items())->Ok_0.content, "<think>"@),
    ensures
        ({
            let output = output_of(parser.items())->Ok_0;
            &&& parser.message() is Ok
            &&& parser.message()->Ok_0.content == output.content
            &&& parser.message()->Ok_0.thinking == (if output.thinking.len() > 0 {
                Some(output.thinking)
            } else {
                None
            })
            &&& parser.message()->Ok_0.tool_calls == output.calls
            &&& chat::answer_told(parser.closing_events()) == output.content
        }),
{
    let output = output_of(parser.items())->Ok_0;
    chat::law_untagged_text_is_the_answer(Seq::empty(), output.content);
    let told = parser.closing_events();
    reveal_with_fuel(chat::answer_told, 2);
    if output.content.len() > 0 {
        assert(told.drop_last() =~= Seq::<EventView>::empty());
        assert(Seq::<char>::empty() + output.content =~= output.content);
    } else {
        assert(chat::answer_told(told) =~= output.content);
    }
}

/// A stream that says that it failed makes no message: what went wrong is
/// passed on.
pub proof fn law_failed_stream_makes_no_message(
    parser: ResponsesParserView,
    value: JsonView,
    error: JsonView,
    said: Seq<char>,
)
    requires
        is_kind(value, "error"@) || is_kind(value, "response.failed"@),
        value.get("error"@) == Some(error),
        error.get("message"@) == Some(JsonView::Text(said)) || error == JsonView::Text(said),
    ensures
        parser.with(value).message() == Err::<AssistantView, Seq<char>>(
            "Responses API stream failed: "@ + said,
        ),
{
    lemma_event_kinds_differ();
}

} // verus!
