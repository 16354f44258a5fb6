use zex::agent::event::AgentEvent;
use zex::agent::event::MessageRole;
use zex::agent::message::AssistantMessage;
use zex::agent::message::CompletionUsage;
use zex::agent::message::Message;
use zex::agent::message::ToolCall;
use zex::json::parse_json;
use zex::json::Json;
use zex::provider::body::parse_models_response;
use zex::provider::body::parse_response_body;
use zex::provider::body::response_usage;
use zex::provider::body::ResponseReader;
use zex::provider::chat::consume_sse_line;
use zex::provider::chat::finish_message;
use zex::provider::chat::ChatParts;
use zex::provider::chat::ChatStreamParser;
use zex::provider::registry::TokenCache;
use zex::provider::responses::ResponsesStreamParser;
use zex::provider::sse::feed_complete_lines;
use zex::provider::sse::SseParser;
use zex::provider::thinking::NormalizedThinking;
use zex::provider::thinking::ThinkingLevel;
use zex::provider::wire::chat_request;
use zex::provider::wire::endpoint_url;
use zex::provider::wire::responses_request;
use zex::provider::OpenAiApi;
use zex::provider::ToolDefinition;

/// The events that were told, first to last.
struct Told {
    events: Vec<AgentEvent>,
    read: usize,
}

impl Told {
    fn new() -> Told {
        Told { events: Vec::new(), read: 0 }
    }

    fn next(&mut self) -> Option<&AgentEvent> {
        let event = self.events.get(self.read)?;
        self.read += 1;
        Some(event)
    }
}

/// The value at the end of a path of field names and indexes.
fn at<'a>(value: &'a Json, path: &[&str]) -> Option<&'a Json> {
    let mut current = value;
    for step in path {
        current = match current {
            Json::Array(items) => items.get(step.parse::<usize>().unwrap())?,
            other => other.get(step)?,
        };
    }
    Some(current)
}

fn text_at<'a>(value: &'a Json, path: &[&str]) -> Option<&'a str> {
    at(value, path)?.as_str()
}

#[test]
fn parses_and_normalizes_model_list_response() {
    assert_eq!(
        parse_models_response(
            br#"{"data":[{"id":"gpt-z"},{"id":" gpt-a "},{"id":"gpt-z"},{"id":""}]}"#,
        )
        .unwrap(),
        vec!["gpt-a", "gpt-z"]
    );
}

#[test]
fn rejects_invalid_model_list_response() {
    let error = parse_models_response(br#"{"data":[{"name":"missing-id"}]}"#).unwrap_err();

    assert!(
        error
            .to_string()
            .contains("Provider model discovery returned invalid JSON")
    );
}

#[test]
fn assembles_streamed_text_and_tool_calls() {
    let mut told = Told::new();
    let mut parts = ChatParts::new();

    consume_sse_line(
        br#"data: {"choices":[{"delta":{"content":"Zex "}}]}"#,
        &mut parts,
        &mut told.events,
    )
    .unwrap();
    consume_sse_line(
            br#"data: {"choices":[{"delta":{"content":"streams","tool_calls":[{"index":0,"id":"call_1","function":{"name":"read","arguments":"{\"pa"}}]}}]}"#,
            &mut parts,
            &mut told.events,
        )
        .unwrap();
    consume_sse_line(
            br#"data: {"choices":[{"delta":{"tool_calls":[{"index":0,"function":{"arguments":"th\":\"Cargo.toml\"}"}}]}}]}"#,
            &mut parts,
            &mut told.events,
        )
        .unwrap();

    let message = finish_message(parts);
    assert_eq!(message.content, "Zex streams");
    assert_eq!(message.thinking, None);
    assert_eq!(message.tool_calls.len(), 1);
    assert_eq!(message.tool_calls[0].id, "call_1");
    assert_eq!(message.tool_calls[0].name, "read");
    assert_eq!(message.tool_calls[0].arguments, r#"{"path":"Cargo.toml"}"#);
    match told.next().unwrap() {
        AgentEvent::MessageDelta { role, delta } => {
            assert_eq!(*role, MessageRole::Assistant);
            assert_eq!(delta, "Zex ");
        }
        event => panic!("unexpected event: {event:?}"),
    }
    match told.next().unwrap() {
        AgentEvent::MessageDelta { role, delta } => {
            assert_eq!(*role, MessageRole::Assistant);
            assert_eq!(delta, "streams");
        }
        event => panic!("unexpected event: {event:?}"),
    }
}

#[test]
fn detects_sse_without_a_content_type() {
    let mut told = Told::new();
    let message = parse_response_body(
        b"data: {\"choices\":[{\"delta\":{\"content\":\"Zex\"}}]}\n\ndata: [DONE]\n\n",
        "",
        OpenAiApi::ChatCompletions,
        &mut told.events,
    )
    .unwrap();

    assert_eq!(message.content, "Zex");
    match told.next().unwrap() {
        AgentEvent::MessageDelta { role, delta } => {
            assert_eq!(*role, MessageRole::Assistant);
            assert_eq!(delta, "Zex");
        }
        event => panic!("unexpected event: {event:?}"),
    }
}

#[test]
fn detects_json_with_an_incorrect_content_type() {
    let mut told = Told::new();
    let message = parse_response_body(
        br#"{"choices":[{"message":{"content":"Zex JSON"}}]}"#,
        "text/plain",
        OpenAiApi::ChatCompletions,
        &mut told.events,
    )
    .unwrap();

    assert_eq!(message.content, "Zex JSON");
    match told.next().unwrap() {
        AgentEvent::MessageDelta { role, delta } => {
            assert_eq!(*role, MessageRole::Assistant);
            assert_eq!(delta, "Zex JSON");
        }
        event => panic!("unexpected event: {event:?}"),
    }
}

#[test]
fn extracts_usage_from_chat_and_responses_payloads() {
    assert_eq!(
        response_usage(
            br#"{"usage":{"prompt_tokens":1200,"completion_tokens":37}}"#,
            "application/json",
            OpenAiApi::ChatCompletions,
        ),
        Some(CompletionUsage {
            input_tokens: Some(1200),
            output_tokens: Some(37),
        })
    );
    assert_eq!(
            response_usage(
                b"data: {\"type\":\"response.completed\",\"response\":{\"usage\":{\"input_tokens\":5300,\"output_tokens\":91}}}\n\ndata: [DONE]\n\n",
                "text/event-stream",
                OpenAiApi::Responses,
            ),
            Some(CompletionUsage {
                input_tokens: Some(5300),
                output_tokens: Some(91),
            })
        );
    assert_eq!(
        response_usage(
            b"data: {\"choices\":[],\"usage\":{\"prompt_tokens\":900,\"completion_tokens\":42}}\n\ndata: [DONE]\n\n",
            "text/event-stream",
            OpenAiApi::ChatCompletions,
        ),
        Some(CompletionUsage {
            input_tokens: Some(900),
            output_tokens: Some(42),
        })
    );
}

#[test]
fn prefers_explicit_reasoning_fields_over_think_tag_fallback() {
    let mut told = Told::new();
    let message = parse_response_body(
        br#"{"choices":[{"message":{
                "content":"<think>fallback</think>Final answer",
                "reasoning_content":"Provider reasoning"
            }}]}"#,
        "application/json",
        OpenAiApi::ChatCompletions,
        &mut told.events,
    )
    .unwrap();

    assert_eq!(message.thinking.as_deref(), Some("Provider reasoning"));
    assert_eq!(message.content, "Final answer");
    assert_eq!(
        told.next().unwrap(),
        &AgentEvent::ThinkingDelta {
            delta: "Provider reasoning".to_owned(),
        }
    );
    assert_eq!(
        told.next().unwrap(),
        &AgentEvent::MessageDelta {
            role: MessageRole::Assistant,
            delta: "Final answer".to_owned(),
        }
    );
}

#[test]
fn separates_think_tags_when_provider_has_no_reasoning_field() {
    let mut told = Told::new();
    let message = parse_response_body(
            br#"{"choices":[{"message":{"content":"<think>\nInspect first.\n</think>\nFinal answer"}}]}"#,
            "application/json",
            OpenAiApi::ChatCompletions,
            &mut told.events,
        )
        .unwrap();

    assert_eq!(message.thinking.as_deref(), Some("Inspect first."));
    assert_eq!(message.content, "Final answer");
    assert_eq!(
        told.next().unwrap(),
        &AgentEvent::ThinkingDelta {
            delta: "Inspect first.".to_owned(),
        }
    );
    assert_eq!(
        told.next().unwrap(),
        &AgentEvent::MessageDelta {
            role: MessageRole::Assistant,
            delta: "Final answer".to_owned(),
        }
    );
}

#[test]
fn separates_streamed_think_tags_before_emitting_final_answer() {
    let mut told = Told::new();
    let body = br#"
data: {"choices":[{"delta":{"content":"<thi"}}]}

data: {"choices":[{"delta":{"content":"nk>Inspect first."}}]}

data: {"choices":[{"delta":{"content":"</think>Final "}}]}

data: {"choices":[{"delta":{"content":"answer"}}]}

data: [DONE]

"#;
    let message = parse_response_body(
        body,
        "text/event-stream",
        OpenAiApi::ChatCompletions,
        &mut told.events,
    )
    .unwrap();

    assert_eq!(message.thinking.as_deref(), Some("Inspect first."));
    assert_eq!(message.content, "Final answer");
    assert_eq!(
        told.next().unwrap(),
        &AgentEvent::ThinkingDelta {
            delta: "Inspect first.".to_owned(),
        }
    );
    assert_eq!(
        told.next().unwrap(),
        &AgentEvent::MessageDelta {
            role: MessageRole::Assistant,
            delta: "Final answer".to_owned(),
        }
    );
    assert!(told.next().is_none());
}

#[test]
fn parses_streamed_reasoning_and_thinking_blocks_without_mixing_answer() {
    let mut told = Told::new();
    let body = br#"
data: {"choices":[{"delta":{"reasoning_content":"Plan "}}]}

data: {"choices":[{"delta":{"thinking_blocks":[{"type":"thinking","thinking":"carefully."}]}}]}

data: {"choices":[{"delta":{"content":"Answer"}}]}

data: [DONE]

"#;

    let message = parse_response_body(
        body,
        "text/event-stream",
        OpenAiApi::ChatCompletions,
        &mut told.events,
    )
    .unwrap();

    assert_eq!(message.thinking.as_deref(), Some("Plan carefully."));
    assert_eq!(message.content, "Answer");
    assert_eq!(
        told.next().unwrap(),
        &AgentEvent::ThinkingDelta {
            delta: "Plan ".to_owned(),
        }
    );
    assert_eq!(
        told.next().unwrap(),
        &AgentEvent::ThinkingDelta {
            delta: "carefully.".to_owned(),
        }
    );
    assert_eq!(
        told.next().unwrap(),
        &AgentEvent::MessageDelta {
            role: MessageRole::Assistant,
            delta: "Answer".to_owned(),
        }
    );
    assert_eq!(
        text_at(message.provider_state.as_ref().unwrap(), &["thinking_blocks", "0", "thinking"]),
        Some("carefully.")
    );
    assert_eq!(
        text_at(message.provider_state.as_ref().unwrap(), &["reasoning_content"]),
        Some("Plan ")
    );
}

#[test]
fn serializes_reasoning_state_for_chat_tool_continuation() {
    let messages = vec![Message::Assistant {
        content: String::new(),
        thinking: Some("Call the reader.".to_owned()),
        tool_calls: vec![ToolCall {
            id: "call_read".to_owned(),
            name: "read".to_owned(),
            arguments: r#"{"path":"Cargo.toml"}"#.to_owned(),
        }],
        provider_state: Some(parse_json(
            br#"{
            "reasoning_content": "Call the reader.",
            "reasoning_details": [{"type": "reasoning.summary", "summary": "Call reader"}],
            "thinking_blocks": [{
                "type": "thinking",
                "thinking": "Call the reader.",
                "signature": "signed"
            }]
        }"#,
        )
        .unwrap()),
    }];

    let thinking = NormalizedThinking {
        requested: ThinkingLevel::Off,
        clamped: ThinkingLevel::Off,
        effective: ThinkingLevel::Off,
        provider_value: None,
    };
    let request = chat_request(
        "deepseek-reasoner",
        &thinking,
        &messages,
        &[], None);
    let assistant = at(&request, &["messages", "0"]).unwrap();

    assert_eq!(text_at(assistant, &["reasoning_content"]), Some("Call the reader."));
    assert_eq!(text_at(assistant, &["reasoning_details", "0", "summary"]), Some("Call reader"));
    assert_eq!(text_at(assistant, &["thinking_blocks", "0", "signature"]), Some("signed"));
    assert_eq!(text_at(assistant, &["tool_calls", "0", "id"]), Some("call_read"));
}

#[test]
fn reports_empty_and_unsupported_bodies_with_context() {
    let mut told = Told::new();

    let empty_error =
        parse_response_body(b"", "application/json", OpenAiApi::ChatCompletions, &mut told.events)
            .unwrap_err();
    assert!(empty_error.to_string().contains("empty response body"));

    let html_error = parse_response_body(
        b"<html>gateway login</html>",
        "text/html",
        OpenAiApi::ChatCompletions,
        &mut told.events,
    )
    .unwrap_err();
    let message = html_error.to_string();
    assert!(message.contains("Content-Type: text/html"));
    assert!(message.contains("gateway login"));
}

#[test]
fn serializes_responses_input_and_flat_tools() {
    let messages = vec![
        Message::User {
            content: "read Cargo.toml".to_owned(),
        },
        Message::Assistant {
            content: String::new(),
            thinking: None,
            tool_calls: vec![ToolCall {
                id: "call_read".to_owned(),
                name: "read".to_owned(),
                arguments: r#"{"path":"Cargo.toml"}"#.to_owned(),
            }],
            provider_state: None,
        },
        Message::Tool {
            tool_call_id: "call_read".to_owned(),
            content: "name = zex".to_owned(),
        },
    ];
    let tools = vec![ToolDefinition {
        name: "read".to_owned(),
        description: "Read a file".to_owned(),
        parameters: parse_json(
            br#"{
            "type": "object",
            "properties": {"path": {"type": "string"}},
            "required": ["path"]
        }"#,
        )
        .unwrap(),
    }];

    let thinking = NormalizedThinking {
        requested: ThinkingLevel::Off,
        clamped: ThinkingLevel::Off,
        effective: ThinkingLevel::Off,
        provider_value: None,
    };
    let request = responses_request(
        "test-model",
        &thinking,
        &messages,
        &tools, None);
    assert_eq!(at(&request, &["stream"]), Some(&Json::Bool(true)));
    assert_eq!(at(&request, &["store"]), Some(&Json::Bool(false)));
    assert_eq!(text_at(&request, &["tools", "0", "type"]), Some("function"));
    assert_eq!(text_at(&request, &["tools", "0", "name"]), Some("read"));
    assert!(at(&request, &["tools", "0", "function"]).is_none());
    assert_eq!(text_at(&request, &["input", "1", "type"]), Some("function_call"));
    assert_eq!(text_at(&request, &["input", "1", "call_id"]), Some("call_read"));
    assert_eq!(text_at(&request, &["input", "2", "type"]), Some("function_call_output"));
    assert_eq!(text_at(&request, &["input", "2", "call_id"]), Some("call_read"));
}

#[test]
fn serializes_supported_thinking_levels() {
    let messages = vec![Message::User {
        content: "think".to_owned(),
    }];
    let high = NormalizedThinking {
        requested: ThinkingLevel::Max,
        clamped: ThinkingLevel::High,
        effective: ThinkingLevel::High,
        provider_value: Some("high".to_owned()),
    };
    let responses =
        responses_request("gpt-5", &high, &messages, &[], None);
    assert_eq!(text_at(&responses, &["reasoning", "effort"]), Some("high"));

    let low = NormalizedThinking {
        requested: ThinkingLevel::Low,
        clamped: ThinkingLevel::Low,
        effective: ThinkingLevel::Low,
        provider_value: Some("low".to_owned()),
    };
    let chat =
        chat_request("gpt-5", &low, &messages, &[], None);
    assert_eq!(text_at(&chat, &["reasoning_effort"]), Some("low"));
    assert_eq!(at(&chat, &["stream_options", "include_usage"]), Some(&Json::Bool(true)));
}

#[test]
fn parses_responses_json_with_text_and_function_calls() {
    let mut told = Told::new();
    let message = parse_response_body(
        br#"{
                "output": [
                    {
                        "type": "message",
                        "role": "assistant",
                        "content": [{"type": "output_text", "text": "Checking."}]
                    },
                    {
                        "type": "function_call",
                        "id": "fc_1",
                        "call_id": "call_1",
                        "name": "read",
                        "arguments": "{\"path\":\"Cargo.toml\"}"
                    }
                ],
                "error": null
            }"#,
        "application/json",
        OpenAiApi::Responses,
        &mut told.events,
    )
    .unwrap();

    assert_eq!(message.content, "Checking.");
    assert_eq!(message.tool_calls[0].id, "call_1");
    assert_eq!(message.tool_calls[0].name, "read");
    assert!(message.provider_state.is_some());
    match told.next().unwrap() {
        AgentEvent::MessageDelta { role, delta } => {
            assert_eq!(*role, MessageRole::Assistant);
            assert_eq!(delta, "Checking.");
        }
        event => panic!("unexpected event: {event:?}"),
    }
}

#[test]
fn parses_responses_reasoning_summary_separately() {
    let mut told = Told::new();
    let message = parse_response_body(
        br#"{
                "output": [
                    {
                        "type": "reasoning",
                        "id": "rs_1",
                        "summary": [{"type": "summary_text", "text": "Checked constraints."}]
                    },
                    {
                        "type": "message",
                        "role": "assistant",
                        "content": [{"type": "output_text", "text": "Done."}]
                    }
                ],
                "error": null
            }"#,
        "application/json",
        OpenAiApi::Responses,
        &mut told.events,
    )
    .unwrap();

    assert_eq!(message.thinking.as_deref(), Some("Checked constraints."));
    assert_eq!(message.content, "Done.");
    assert_eq!(
        told.next().unwrap(),
        &AgentEvent::ThinkingDelta {
            delta: "Checked constraints.".to_owned(),
        }
    );
    assert_eq!(
        told.next().unwrap(),
        &AgentEvent::MessageDelta {
            role: MessageRole::Assistant,
            delta: "Done.".to_owned(),
        }
    );
}

#[test]
fn parses_direct_thinking_before_think_tag_fallback() {
    let mut told = Told::new();
    let message = parse_response_body(
        br#"{
                "choices": [{
                    "message": {
                        "content": "<think>fallback</think>Final",
                        "thinking": "Explicit",
                        "tool_calls": []
                    }
                }]
            }"#,
        "application/json",
        OpenAiApi::ChatCompletions,
        &mut told.events,
    )
    .unwrap();

    assert_eq!(message.thinking.as_deref(), Some("Explicit"));
    assert_eq!(message.content, "Final");
    assert_eq!(
        told.next().unwrap(),
        &AgentEvent::ThinkingDelta {
            delta: "Explicit".to_owned(),
        }
    );
    assert_eq!(
        told.next().unwrap(),
        &AgentEvent::MessageDelta {
            role: MessageRole::Assistant,
            delta: "Final".to_owned(),
        }
    );
}

#[test]
fn parses_responses_sse_text_and_completed_output() {
    let mut told = Told::new();
    let body = br#"
event: response.output_text.delta
data: {"type":"response.output_text.delta","delta":"Done"}

event: response.completed
data: {"type":"response.completed","response":{"output":[{"type":"message","role":"assistant","content":[{"type":"output_text","text":"Done"}]}]}}

"#;
    let message =
        parse_response_body(body, "text/event-stream", OpenAiApi::Responses, &mut told.events).unwrap();

    assert_eq!(message.content, "Done");
    assert!(message.tool_calls.is_empty());
    match told.next().unwrap() {
        AgentEvent::MessageDelta { role, delta } => {
            assert_eq!(*role, MessageRole::Assistant);
            assert_eq!(delta, "Done");
        }
        event => panic!("unexpected event: {event:?}"),
    }
}

fn parse_one_shot(
    api: OpenAiApi,
    body: &[u8],
) -> (AssistantMessage, Vec<AgentEvent>) {
    let mut told = Told::new();
    let message = parse_response_body(body, "text/event-stream", api, &mut told.events).unwrap();
    (message, told.events)
}

/// Feed the body through the incremental stream machinery in fixed-size
/// chunks, mirroring how `read_response_body` drives it.
fn parse_chunked(
    api: OpenAiApi,
    body: &[u8],
    chunk_size: usize,
) -> (AssistantMessage, Vec<AgentEvent>) {
    let mut told = Told::new();
    let mut parser = SseParser::new(api);
    let mut carry = Vec::new();
    for chunk in body.chunks(chunk_size.max(1)) {
        carry.extend_from_slice(chunk);
        feed_complete_lines(&mut carry, &mut parser, &mut told.events).unwrap();
    }
    if !carry.is_empty() {
        parser.feed_line(&carry, &mut told.events).unwrap();
    }
    let message = parser.finish(&mut told.events).unwrap();
    (message, told.events)
}

fn assert_same_message(
    one_shot: &(AssistantMessage, Vec<AgentEvent>),
    chunked: &(AssistantMessage, Vec<AgentEvent>),
) {
    assert_eq!(one_shot.0.content, chunked.0.content);
    assert_eq!(one_shot.0.thinking, chunked.0.thinking);
    assert_eq!(one_shot.0.tool_calls, chunked.0.tool_calls);
    assert_eq!(one_shot.0.provider_state, chunked.0.provider_state);
    assert_eq!(one_shot.1, chunked.1);
}

#[test]
fn chunked_chat_stream_matches_one_shot_at_every_split_point() {
    let body: &[u8] = "data: {\"choices\":[{\"delta\":{\"reasoning_content\":\"思考一下\"}}]}\n\n\
          data: {\"choices\":[{\"delta\":{\"tool_calls\":[{\"index\":0,\"id\":\"call_1\",\"function\":{\"name\":\"read\",\"arguments\":\"{\\\"pa\"}}]}}]}\n\n\
          data: {\"choices\":[{\"delta\":{\"tool_calls\":[{\"index\":0,\"function\":{\"arguments\":\"th\\\":\\\"x\\\"}\"}}]}}]}\n\n\
          data: {\"choices\":[{\"delta\":{\"content\":\"你好，世界\"}}]}\n\n\
          data: [DONE]\n\n"
    .as_bytes();
    let expected = parse_one_shot(OpenAiApi::ChatCompletions, body);
    // Every two-chunk split, including splits inside multibyte UTF-8.
    for split in 0..=body.len() {
        let mut told = Told::new();
        let mut parser = SseParser::new(OpenAiApi::ChatCompletions);
        let mut carry = body[..split].to_vec();
        feed_complete_lines(&mut carry, &mut parser, &mut told.events).unwrap();
        carry.extend_from_slice(&body[split..]);
        feed_complete_lines(&mut carry, &mut parser, &mut told.events).unwrap();
        if !carry.is_empty() {
            parser.feed_line(&carry, &mut told.events).unwrap();
        }
        let message = parser.finish(&mut told.events).unwrap();
        assert_same_message(&expected, &(message, told.events));
    }
    // Many small chunks exercise the carry buffer across partial lines.
    assert_same_message(
        &expected,
        &parse_chunked(OpenAiApi::ChatCompletions, body, 5),
    );
}

#[test]
fn chunked_responses_stream_matches_one_shot() {
    let body: &[u8] = "event: response.reasoning_summary_text.delta\n\
          data: {\"type\":\"response.reasoning_summary_text.delta\",\"delta\":\"想\"}\n\n\
          event: response.output_text.delta\n\
          data: {\"type\":\"response.output_text.delta\",\"delta\":\"你\"}\n\n\
          event: response.output_text.delta\n\
          data: {\"type\":\"response.output_text.delta\",\"delta\":\"好\"}\n\n\
          event: response.completed\n\
          data: {\"type\":\"response.completed\",\"response\":{\"output\":[{\"type\":\"reasoning\",\"id\":\"rs_1\",\"summary\":[{\"type\":\"summary_text\",\"text\":\"想\"}]},{\"type\":\"message\",\"role\":\"assistant\",\"content\":[{\"type\":\"output_text\",\"text\":\"你好\"}]}],\"usage\":{\"output_tokens\":9}}}\n\n"
    .as_bytes();
    let expected = parse_one_shot(OpenAiApi::Responses, body);
    assert_same_message(&expected, &parse_chunked(OpenAiApi::Responses, body, 1));
    assert_same_message(&expected, &parse_chunked(OpenAiApi::Responses, body, 7));
    assert_same_message(
        &expected,
        &parse_chunked(OpenAiApi::Responses, body, body.len()),
    );
}

#[test]
fn incremental_parsers_emit_deltas_before_finish() {
    let mut told = Told::new();

    let mut responses = ResponsesStreamParser::new();
    responses
        .feed_line(
            r#"data: {"type":"response.output_text.delta","delta":"你"}"#.as_bytes(),
            &mut told.events,
        )
        .unwrap();
    assert_eq!(
        told.next().unwrap(),
        &AgentEvent::MessageDelta {
            role: MessageRole::Assistant,
            delta: "你".to_owned(),
        }
    );

    let mut chat = ChatStreamParser::new();
    chat.feed_line(
        r#"data: {"choices":[{"delta":{"reasoning_content":"想"}}]}"#.as_bytes(),
        &mut told.events,
    )
    .unwrap();
    assert_eq!(
        told.next().unwrap(),
        &AgentEvent::ThinkingDelta {
            delta: "想".to_owned(),
        }
    );
    // Chat content stays buffered until finish so <think> splitting applies.
    chat.feed_line(
        r#"data: {"choices":[{"delta":{"content":"答"}}]}"#.as_bytes(),
        &mut told.events,
    )
    .unwrap();
    assert!(told.next().is_none());
    let message = chat.finish(&mut told.events);
    assert_eq!(message.content, "答");
    assert_eq!(
        told.next().unwrap(),
        &AgentEvent::MessageDelta {
            role: MessageRole::Assistant,
            delta: "答".to_owned(),
        }
    );
}

#[test]
fn responses_read_in_chunks_match_the_whole_body() {
    let body: &[u8] = b"data: {\"choices\":[{\"delta\":{\"content\":\"Zex\"}}]}\n\ndata: [DONE]\n\n";
    for content_type in ["text/event-stream", "", "application/json"] {
        let mut told = Told::new();
        let whole = parse_response_body(
            body,
            content_type,
            OpenAiApi::ChatCompletions,
            &mut told.events,
        );
        for size in [1, 3, body.len()] {
            let mut heard = Told::new();
            let mut reader = ResponseReader::new(content_type, OpenAiApi::ChatCompletions);
            for chunk in body.chunks(size) {
                reader.push_chunk(chunk, &mut heard.events).unwrap();
            }
            let read = reader.finish(&mut heard.events);
            assert_eq!(read.is_ok(), whole.is_ok());
            if let (Ok(read), Ok(whole)) = (&read, &whole) {
                assert_eq!(read.content, whole.content);
                assert_eq!(heard.events, told.events);
            }
        }
    }
}

#[test]
fn bodies_that_are_no_text_are_shown_with_replacements() {
    let mut told = Told::new();
    let error = parse_response_body(
        b"\xff<html>login</html>",
        "text/html",
        OpenAiApi::ChatCompletions,
        &mut told.events,
    )
    .unwrap_err();
    assert!(error.contains("\u{fffd}<html>login</html>"));
}

#[test]
fn endpoints_are_joined_with_one_slash() {
    assert_eq!(endpoint_url("https://api.example/v1/", "responses"), "https://api.example/v1/responses");
    assert_eq!(
        endpoint_url("https://api.example/v1", "chat/completions"),
        "https://api.example/v1/chat/completions"
    );
}

#[test]
fn requests_carry_a_limit_only_where_one_is_given() {
    let thinking = NormalizedThinking {
        requested: ThinkingLevel::Off,
        clamped: ThinkingLevel::Off,
        effective: ThinkingLevel::Off,
        provider_value: None,
    };
    let messages = vec![Message::User { content: "hi".to_owned() }];
    let bare = responses_request("m", &thinking, &messages, &[], None);
    assert!(at(&bare, &["max_output_tokens"]).is_none());
    let limited = responses_request("m", &thinking, &messages, &[], Some(100));
    assert_eq!(at(&limited, &["max_output_tokens"]), Some(&Json::Unsigned(100)));
}

#[test]
fn counts_of_requests_are_kept_by_hash_and_length() {
    let mut cache = TokenCache::new();
    assert_eq!(cache.count_body_tokens("abcde"), 2);
    assert_eq!(cache.count_body_tokens("abcde"), 2);
    assert_eq!(cache.count_body_tokens("abcdefghi"), 3);
    assert_eq!(cache.count_with_hash(7, 1, "abcd"), 1);
    assert_eq!(cache.count_with_hash(7, 1, "another body"), 1);
    assert_eq!(cache.count_with_hash(7, 2, "another body"), 3);
    for hash in 10..14 {
        cache.count_with_hash(hash, 1, "x");
    }
    assert_eq!(cache.count_with_hash(7, 1, "another body"), 3);
}

#[test]
fn what_a_provider_sends_may_be_lists() {
    let mut told = Told::new();
    let body = b"data: [[[[\"Hi\", null, null, null, null, null, null, [[0, \"c\", [\"read\", \"{}\"]]]]]]]\n\ndata: []\n\ndata: [DONE]\n\n";
    let message =
        parse_response_body(body, "text/event-stream", OpenAiApi::ChatCompletions, &mut told.events)
            .unwrap();
    assert_eq!(message.content, "Hi");
    assert_eq!(message.tool_calls[0].name, "read");
    let message = parse_response_body(
        b"[[[[\"Hi\", null, null, null, null, null, [[\"c\", [\"read\", \"{}\"]]]]]]]",
        "application/json",
        OpenAiApi::ChatCompletions,
        &mut told.events,
    )
    .unwrap();
    assert_eq!(message.content, "Hi");
    assert_eq!(message.tool_calls[0].id, "c");
    let failed = parse_response_body(
        b"[[], [\"no\"]]",
        "application/json",
        OpenAiApi::Responses,
        &mut told.events,
    );
    assert_eq!(failed.unwrap_err(), "Responses API returned an error: no");
    assert_eq!(parse_models_response(b"[[[\"b\"], {\"id\": \"a\"}]]").unwrap(), vec!["a", "b"]);
    assert!(parse_models_response(b"[]").unwrap().is_empty());
    assert!(parse_models_response(b"[[], 1]").is_err());
    let short = b"data: [[[[\"Hi\"]]]]\n\n";
    assert!(
        parse_response_body(short, "text/event-stream", OpenAiApi::ChatCompletions, &mut told.events)
            .is_err()
    );
}

#[test]
fn an_event_that_is_no_json_is_told_of() {
    let mut told = Told::new();
    let failed = parse_response_body(
        b"data: {\n\n",
        "text/event-stream",
        OpenAiApi::Responses,
        &mut told.events,
    );
    assert_eq!(
        failed.unwrap_err(),
        "provider returned an invalid Responses API streaming event: EOF while parsing an object at line 1 column 1"
    );
}
