//! Model providers: thinking levels and capabilities, the catalog of known
//! models, the registry, and the OpenAI-compatible protocols.
pub mod models_dev;
pub mod thinking;
pub mod registry;
pub mod body;
pub mod sse;
pub mod responses;
pub mod chat;
pub mod stream;
pub mod wire;

use crate::agent::message;
use crate::agent::message::Message;
use crate::agent::message::MessageView;
use crate::json::Json;
use crate::json::JsonView;
use crate::agent::message::ToolCallView;
use crate::text;
use std::str::FromStr;
use vstd::prelude::*;
use vstd::string::*;

verus! {

/// The protocol that a provider speaks.
#[derive(Debug, Clone, Copy, PartialEq, Eq, Structural)]
pub enum OpenAiApi {
    ChatCompletions,
    Responses,
}

impl Default for OpenAiApi {
    fn default() -> (r: OpenAiApi)
        ensures
            r == OpenAiApi::ChatCompletions,
    {
        OpenAiApi::ChatCompletions
    }
}

pub open spec fn api_endpoint(api: OpenAiApi) -> Seq<char> {
    match api {
        OpenAiApi::ChatCompletions => "chat/completions"@,
        OpenAiApi::Responses => "responses"@,
    }
}

pub open spec fn api_name(api: OpenAiApi) -> Seq<char> {
    match api {
        OpenAiApi::ChatCompletions => "chat-completions"@,
        OpenAiApi::Responses => "responses"@,
    }
}

/// The protocol that a text names, whatever its case and the space around it.
pub open spec fn api_of(value: Seq<char>) -> Option<OpenAiApi> {
    let word = text::ascii_lowercase(text::trim(value));
    if word == "chat-completions"@ || word == "chat_completions"@ || word == "chat"@ {
        Some(OpenAiApi::ChatCompletions)
    } else if word == "responses"@ || word == "response"@ {
        Some(OpenAiApi::Responses)
    } else {
        None
    }
}

pub open spec fn api_complaint(value: Seq<char>) -> Seq<char> {
    "ZEX_OPENAI_API must be 'chat-completions' or 'responses', got "@ + text::debug_quoted(value)
}

impl OpenAiApi {
    /// The path of the protocol's endpoint below the base URL.
    pub fn endpoint(self) -> (r: &'static str)
        ensures
            r@ == api_endpoint(self),
    {
        match self {
            OpenAiApi::ChatCompletions => "chat/completions",
            OpenAiApi::Responses => "responses",
        }
    }

    /// The name of the protocol.
    pub fn name(self) -> (r: &'static str)
        ensures
            r@ == api_name(self),
    {
        match self {
            OpenAiApi::ChatCompletions => "chat-completions",
            OpenAiApi::Responses => "responses",
        }
    }

    /// The name of the protocol.
    pub fn to_string(self) -> (r: String)
        ensures
            r@ == api_name(self),
    {
        self.name().to_owned()
    }

    /// The protocol that a text names.
    pub fn parse(value: &str) -> (r: Result<OpenAiApi, String>)
        ensures
            match r {
                Ok(api) => api_of(value@) == Some(api),
                Err(message) => api_of(value@) is None && message@ == api_complaint(value@),
            },
    {
        let trimmed = text::trim_of(value);
        let lowered = text::ascii_lowercase_of(trimmed.as_str());
        let word = lowered.as_str();
        if text::same(word, "chat-completions") || text::same(word, "chat_completions")
            || text::same(word, "chat") {
            Ok(OpenAiApi::ChatCompletions)
        } else if text::same(word, "responses") || text::same(word, "response") {
            Ok(OpenAiApi::Responses)
        } else {
            let quoted = text::debug_text(value);
            Err(
                text::concat(
                    "ZEX_OPENAI_API must be 'chat-completions' or 'responses', got ",
                    quoted.as_str(),
                ),
            )
        }
    }
}

impl FromStr for OpenAiApi {
    type Err = String;

    fn from_str(value: &str) -> Result<OpenAiApi, String> {
        OpenAiApi::parse(value)
    }
}

/// A tool as a model is told of it.
#[derive(Debug, PartialEq, Eq)]
pub struct ToolDefinition {
    pub name: String,
    pub description: String,
    pub parameters: Json,
}

/// What a [`ToolDefinition`] holds.
pub struct DefinitionView {
    pub name: Seq<char>,
    pub description: Seq<char>,
    pub parameters: JsonView,
}

impl View for ToolDefinition {
    type V = DefinitionView;

    open spec fn view(&self) -> DefinitionView {
        DefinitionView {
            name: self.name@,
            description: self.description@,
            parameters: self.parameters@,
        }
    }
}

/// A message as it is sent: reasoning goes along only with tool calls, and only
/// to a model that interleaves thinking with them.
pub open spec fn sanitized(message: MessageView, interleaved: bool) -> MessageView {
    match message {
        MessageView::Assistant { content, thinking, tool_calls, provider_state } => {
            let keep = interleaved && tool_calls.len() > 0;
            MessageView::Assistant {
                content,
                thinking: if keep {
                    thinking
                } else {
                    None
                },
                tool_calls,
                provider_state: if keep {
                    provider_state
                } else {
                    None
                },
            }
        },
        _ => message,
    }
}

/// What was thought goes back to the model only with the calls that it led to,
/// and only where the model takes it; what was said and called always does.
pub proof fn law_reasoning_stays_with_its_calls(
    content: Seq<char>,
    thinking: Option<Seq<char>>,
    tool_calls: Seq<ToolCallView>,
    provider_state: Option<JsonView>,
    interleaved: bool,
)
    ensures
        ({
            let said = MessageView::Assistant { content, thinking, tool_calls, provider_state };
            let bare = MessageView::Assistant {
                content,
                thinking: None,
                tool_calls,
                provider_state: None,
            };
            &&& sanitized(said, interleaved) == if interleaved && tool_calls.len() > 0 {
                said
            } else {
                bare
            }
            &&& sanitized(sanitized(said, interleaved), interleaved) == sanitized(
                said,
                interleaved,
            )
        }),
{
}

/// The messages as they are sent.
pub fn sanitize_messages(messages: &[Message], supports_interleaved_thinking: bool) -> (r: Vec<
    Message,
>)
    ensures
        text::views(r@) == text::views(messages@).map_values(
            |message: MessageView| sanitized(message, supports_interleaved_thinking),
        ),
{
    let ghost goal = text::views(messages@).map_values(
        |message: MessageView| sanitized(message, supports_interleaved_thinking),
    );
    let mut r: Vec<Message> = Vec::new();
    let mut i: usize = 0;
    while i < messages.len()
        invariant
            i <= messages@.len(),
            goal == text::views(messages@).map_values(
                |message: MessageView| sanitized(message, supports_interleaved_thinking),
            ),
            text::views(r@) == goal.take(i as int),
        decreases messages@.len() - i,
    {
        let sent = match &messages[i] {
            Message::Assistant { content, thinking, tool_calls, provider_state } => {
                let keep = supports_interleaved_thinking && tool_calls.len() > 0;
                Message::Assistant {
                    content: content.clone(),
                    thinking: if keep {
                        message::copy_text(thinking)
                    } else {
                        None
                    },
                    tool_calls: message::copy_calls(tool_calls),
                    provider_state: if keep {
                        message::copy_json(provider_state)
                    } else {
                        None
                    },
                }
            },
            other => other.copy(),
        };
        assert(sent@ == sanitized(messages@[i as int]@, supports_interleaved_thinking));
        proof {
            text::lemma_views_push(r@, sent);
        }
        r.push(sent);
        i = i + 1;
        assert(text::views(r@) =~= goal.take(i as int));
    }
    assert(goal.take(goal.len() as int) =~= goal);
    r
}

} // verus!
