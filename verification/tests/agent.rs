use zex::agent::event::AgentEvent;
use zex::agent::event::MessageRole;
use zex::agent::message::AssistantMessage;
use zex::agent::message::CompletionUsage;
use zex::agent::message::Message;
use zex::agent::message::PromptOutcome;
use zex::agent::message::ToolCall;
use zex::agent::state::Agent;
use zex::agent::state::AgentOptions;
use zex::agent::state::AUTO_COMPACT_PERCENT;
use zex::agent::state::SYSTEM_PROMPT;
use zex::agent::turn::failed_output;
use zex::agent::turn::start_tool;
use zex::agent::turn::ToolReport;
use zex::agent::turn::Turn;
use zex::agent::turn::TurnPhase;
use zex::agent::turn::TurnProgress;
use zex::agent::turn::TurnResult;
use zex::provider::models_dev::ModelLimit;
use zex::provider::thinking::ThinkingLevel;
use zex::tools::registry::ToolRegistry;

fn options(max_context_tokens: usize, compact_keep_turns: usize) -> AgentOptions {
    AgentOptions {
        model: "test-model".to_owned(),
        turn_timeout: 1,
        max_turns: 1,
        max_context_tokens,
        compact_keep_turns,
        thinking_level: ThinkingLevel::Medium,
    }
}

fn user(content: &str) -> Message {
    Message::User { content: content.to_owned() }
}

fn answer(content: &str) -> Message {
    Message::Assistant {
        content: content.to_owned(),
        thinking: None,
        tool_calls: Vec::new(),
        provider_state: None,
    }
}

/// Compacts without memory.
fn compact(agent: &mut Agent) -> zex::agent::compaction::CompactStats {
    let mut compaction = agent.begin_compaction(None);
    while !compaction.finished {
        compaction = agent.compaction_round(compaction, &Vec::new());
    }
    agent.finish_compaction(compaction)
}

fn compact_if_needed(
    agent: &mut Agent,
    events: &mut Vec<AgentEvent>,
) -> Option<zex::agent::compaction::CompactStats> {
    let check = agent.check_context(None)?;
    let stats = if check.must_compact { Some(compact(agent)) } else { None };
    Some(agent.finish_check(check, stats, events))
}

fn local_sum(agent: &Agent) -> usize {
    agent.messages().iter().map(Message::token_estimate).sum()
}

#[test]
fn system_only_agent_has_no_conversation() {
    let agent = Agent::new(
        AgentOptions {
            model: "test-model".to_owned(),
            turn_timeout: 1,
            max_turns: 1,
            max_context_tokens: 120_000,
            compact_keep_turns: 6,
            thinking_level: ThinkingLevel::Medium,
        },
        None,
        None,
    );
    let tools = ToolRegistry::new(1, 32_000);

    assert_eq!(tools.default_timeout(), 1);
    assert!(!agent.has_conversation());
}

#[test]
fn context_budget_uses_model_limit_minus_output_reserve() {
    let agent = Agent::new(options(120_000, 1), None, None);
    let limit = ModelLimit { context: 100_000, output: Some(4_000) };
    assert_eq!(agent.context_budget(Some(limit)), 96_000);
    let open = ModelLimit { context: 100_000, output: None };
    assert_eq!(agent.context_budget(Some(open)), 91_808);
    let tiny = ModelLimit { context: 8, output: None };
    assert_eq!(agent.context_budget(Some(tiny)), 6);
}

#[test]
fn context_budget_falls_back_when_no_model_limit_is_known() {
    let agent = Agent::new(options(42_000, 1), None, None);
    assert_eq!(agent.context_budget(None), 42_000);
    let unknown = ModelLimit { context: 0, output: None };
    assert_eq!(agent.context_budget(Some(unknown)), 42_000);
}

#[test]
fn compact_summarizes_old_tool_output_and_keeps_recent_turns() {
    let mut agent = Agent::new(
        options(120_000, 2),
        Some(vec![
            user("old task"),
            Message::Assistant {
                content: String::new(),
                thinking: Some("Need to inspect the large file.".to_owned()),
                tool_calls: vec![ToolCall {
                    id: "old-call".to_owned(),
                    name: "read".to_owned(),
                    arguments: r#"{"path":"large.txt"}"#.to_owned(),
                }],
                provider_state: None,
            },
            Message::Tool { tool_call_id: "old-call".to_owned(), content: "x".repeat(16_000) },
            user("recent one"),
            answer("answer one"),
            user("recent two"),
            answer("answer two"),
        ]),
        None,
    );

    let before = agent.context_tokens();
    let stats = compact(&mut agent);

    assert_eq!(stats.kept_turns, 2);
    assert_eq!(stats.summarized_turns, 1);
    assert_eq!(stats.summarized_tool_outputs, 1);
    assert!(stats.freed_tokens > 0);
    assert!(agent.context_tokens() * 2 < before);
    assert!(matches!(
        &agent.messages()[1],
        Message::System { content }
            if content.contains("Compacted earlier conversation")
                && content.contains("Original request:\nold task")
                && !content.contains("User: old task")
                && content.contains("Assistant thinking")
                && content.contains("Tool result read")
    ));
    assert_eq!(agent.messages()[2], user("recent one"));
    assert_eq!(agent.messages()[4], user("recent two"));
    assert_eq!(agent.messages().len(), 6);
}

#[test]
fn automatic_compact_emits_feedback_when_context_crosses_threshold() {
    let mut agent = Agent::new(
        options(1_000, 1),
        Some(vec![
            user(&"old".repeat(AUTO_COMPACT_PERCENT * 50)),
            answer("old answer"),
            user("recent"),
        ]),
        None,
    );
    let mut events = Vec::new();

    let stats = compact_if_needed(&mut agent, &mut events).unwrap();

    assert!(stats.freed_tokens > 0);
    assert_eq!(events, vec![AgentEvent::ContextCompacted { stats }]);
    let mut quiet = Vec::new();
    let mut small = Agent::new(options(120_000, 1), Some(vec![user("recent")]), None);
    assert!(compact_if_needed(&mut small, &mut quiet).is_none());
    assert!(quiet.is_empty());
}

#[test]
fn prune_clears_old_tool_outputs_before_full_compaction() {
    let mut messages = vec![user("task")];
    for index in 0..6 {
        messages.push(Message::Tool {
            tool_call_id: format!("call-{index}"),
            content: "x".repeat(4_000),
        });
    }
    let system = Message::System { content: SYSTEM_PROMPT.to_owned() };
    let total: usize = system.token_estimate()
        + messages.iter().map(Message::token_estimate).sum::<usize>();
    let per_tool =
        Message::Tool { tool_call_id: "probe".to_owned(), content: "x".repeat(4_000) }
            .token_estimate();
    let budget = (total - per_tool / 2) * 100 / AUTO_COMPACT_PERCENT;
    let mut agent = Agent::new(options(budget, 1), Some(messages), None);
    let mut events = Vec::new();

    let stats = compact_if_needed(&mut agent, &mut events).unwrap();

    assert_eq!(stats.pruned_tool_outputs, 2);
    assert_eq!(stats.summarized_turns, 0, "pruning alone was enough");
    let tools: Vec<&str> = agent
        .messages()
        .iter()
        .filter_map(|message| match message {
            Message::Tool { content, .. } => Some(content.as_str()),
            _ => None,
        })
        .collect();
    assert_eq!(tools.len(), 6);
    assert!(tools[..2].iter().all(|content| content
        .starts_with("[tool output cleared to free context: 4000 chars]")));
    assert!(tools[2..].iter().all(|content| content.len() == 4_000));
    assert!(!agent.messages().iter().any(|message| matches!(
        message,
        Message::System { content } if content.starts_with("[Compacted earlier conversation:")
    )));
}

#[test]
fn server_usage_calibrates_context_and_compaction_resets_it() {
    let mut agent = Agent::new(
        options(120_000, 1),
        Some(vec![user("old task"), answer("old answer"), user("recent")]),
        None,
    );
    assert_eq!(agent.context_tokens(), local_sum(&agent));

    let mut events = Vec::new();
    agent.begin_prompt("hello".to_owned(), &mut events);
    let sent = agent.begin_request();
    let reply = AssistantMessage {
        content: "ok".to_owned(),
        thinking: None,
        tool_calls: Vec::new(),
        provider_state: None,
        usage: Some(CompletionUsage { input_tokens: Some(5_000), output_tokens: Some(2) }),
    };
    agent.note_usage(sent, reply.usage);
    agent.add_answer(&reply, &mut events);

    assert_eq!(agent.context_tokens(), 5_000 + answer("ok").token_estimate());

    compact(&mut agent);
    assert_eq!(agent.context_tokens(), local_sum(&agent));
}

#[test]
fn emits_message_tool_and_turn_events_in_order() {
    let mut tools = ToolRegistry::new(5, 32_000);
    tools.register(zex::tools::definitions::bash_definition());
    let mut agent = Agent::new(
        AgentOptions { max_turns: 2, ..options(120_000, 6) },
        None,
        None,
    );
    let mut events = Vec::new();
    let mut turn = Turn::new(2);
    let checkpoint = agent.begin_prompt("run it".to_owned(), &mut events);
    assert_eq!(checkpoint, 1);
    assert_eq!(turn.phase, TurnPhase::Check);
    turn.advance(TurnProgress::ContextChecked);
    assert_eq!(turn.phase, TurnPhase::Ask);
    assert_eq!(agent.begin_request(), 2);
    let call = ToolCall {
        id: "call-1".to_owned(),
        name: "bash".to_owned(),
        arguments: r#"{"command":"true","timeout_seconds":9}"#.to_owned(),
    };
    let reply = AssistantMessage {
        content: String::new(),
        thinking: None,
        tool_calls: vec![call],
        provider_state: None,
        usage: None,
    };
    agent.add_answer(&reply, &mut events);
    turn.advance(TurnProgress::Answered { calls: 1 });
    assert_eq!(turn.phase, TurnPhase::Call { index: 0, total: 1 });
    let call = &reply.tool_calls[0];
    let start = start_tool(&tools, call, &mut events);
    assert_eq!(start.timeout, 9);
    assert!(start.arguments.is_ok());
    agent.finish_tool(
        call,
        ToolReport { output: "done".to_owned(), is_error: false, change: None, memory: None },
        3,
        &mut events,
    );
    turn.advance(TurnProgress::ToolFinished);
    turn.advance(TurnProgress::ContextChecked);
    assert_eq!(turn.phase, TurnPhase::Check);
    turn.advance(TurnProgress::ContextChecked);
    let last = AssistantMessage {
        content: "finished".to_owned(),
        thinking: None,
        tool_calls: Vec::new(),
        provider_state: None,
        usage: None,
    };
    agent.add_answer(&last, &mut events);
    turn.advance(TurnProgress::Answered { calls: 0 });
    assert_eq!(turn.phase, TurnPhase::Done);
    assert_eq!(turn.asked, 2);

    assert_eq!(
        events,
        vec![
            AgentEvent::MessageDelta { role: MessageRole::User, delta: "run it".to_owned() },
            AgentEvent::ToolStart {
                call_id: "call-1".to_owned(),
                name: "bash".to_owned(),
                arguments: r#"{"command":"true","timeout_seconds":9}"#.to_owned(),
                timeout: 9,
            },
            AgentEvent::ToolEnd {
                call_id: "call-1".to_owned(),
                name: "bash".to_owned(),
                output: "done".to_owned(),
                is_error: false,
                elapsed: 3,
                change: None,
            },
            AgentEvent::TurnEnd,
        ]
    );
    assert_eq!(agent.messages().len(), 5);
    assert_eq!(
        agent.messages()[3],
        Message::Tool { tool_call_id: "call-1".to_owned(), content: "done".to_owned() }
    );
    assert!(matches!(
        agent.settle(checkpoint, TurnResult::Finished(Ok(last)), &mut events),
        Ok(PromptOutcome::Completed(message)) if message.content == "finished"
    ));
}

#[test]
fn a_turn_asks_no_more_than_it_may() {
    let mut turn = Turn::new(1);
    turn.advance(TurnProgress::ContextChecked);
    turn.advance(TurnProgress::Answered { calls: 2 });
    for index in 0..2 {
        assert_eq!(turn.phase, TurnPhase::Call { index, total: 2 });
        turn.advance(TurnProgress::ToolFinished);
        turn.advance(TurnProgress::ContextChecked);
    }
    assert_eq!(turn.phase, TurnPhase::Exhausted);
    turn.advance(TurnProgress::ContextChecked);
    assert_eq!(turn.phase, TurnPhase::Exhausted);
    assert_eq!(Turn::new(0).phase, TurnPhase::Exhausted);

    let agent = Agent::new(options(1_000, 1), None, None);
    let mut events = Vec::new();
    assert_eq!(
        agent.exhaust(&mut events),
        "agent reached the configured limit of 1 provider turns"
    );
    assert_eq!(events.len(), 1);
}

#[test]
fn cancellation_keeps_user_prompt_and_discards_partial_turn_state() {
    let mut agent = Agent::new(options(1_000, 1), Some(vec![user("earlier")]), None);
    let mut events = Vec::new();
    let checkpoint = agent.begin_prompt("stop me".to_owned(), &mut events);
    let partial = AssistantMessage {
        content: "partial".to_owned(),
        thinking: None,
        tool_calls: Vec::new(),
        provider_state: None,
        usage: None,
    };
    agent.add_answer(&partial, &mut events);
    let outcome = agent.settle(checkpoint, TurnResult::Cancelled, &mut events);
    assert!(matches!(outcome, Ok(PromptOutcome::Cancelled)));
    assert_eq!(events.last(), Some(&AgentEvent::TurnCancelled));
    assert_eq!(agent.messages()[1..], [user("earlier"), user("stop me")]);
}

#[test]
fn emits_provider_errors_and_timeouts() {
    let mut agent = Agent::new(options(1_000, 1), None, None);
    let mut events = Vec::new();
    let checkpoint = agent.begin_prompt("ask".to_owned(), &mut events);
    Agent::request_failed("provider unavailable", &mut events);
    assert_eq!(
        events.last(),
        Some(&AgentEvent::Error { message: "provider unavailable".to_owned() })
    );
    let failed = agent.settle(
        checkpoint,
        TurnResult::Finished(Err("provider unavailable".to_owned())),
        &mut events,
    );
    assert_eq!(failed.unwrap_err(), "provider unavailable");
    let late = agent.settle(checkpoint, TurnResult::TimedOut, &mut events).unwrap_err();
    assert_eq!(late, "agent turn exceeded its 1 second timeout");
    assert_eq!(events.last(), Some(&AgentEvent::Error { message: late }));
    assert_eq!(agent.messages().len(), 2);
    assert_eq!(failed_output("no such file"), "tool error: no such file");
}

#[test]
fn arguments_that_are_no_json_get_the_usual_timeout() {
    let tools = ToolRegistry::new(7, 100);
    let mut events = Vec::new();
    let call = ToolCall {
        id: "c".to_owned(),
        name: "read".to_owned(),
        arguments: "{broken".to_owned(),
    };
    let start = start_tool(&tools, &call, &mut events);
    assert!(start.arguments.is_err());
    assert_eq!(start.timeout, 7);
}
