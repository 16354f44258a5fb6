use zex::agent::event::AgentEvent;
use zex::agent::history::message_record_text;
use zex::agent::history::parse_arguments;
use zex::agent::history::ArchiveStep;
use zex::agent::message::AssistantMessage;
use zex::agent::message::Message;
use zex::agent::message::ToolCall;
use zex::agent::state::Agent;
use zex::agent::state::AgentOptions;
use zex::agent::turn::failed_output;
use zex::agent::turn::message_of_answer;
use zex::agent::turn::ToolReport;
use zex::memory::config::MemoryConfig;
use zex::memory::ids::extract_memory_ids;
use zex::memory::record::MemoryKind;
use zex::memory::record::MemoryPointer;
use zex::memory::runtime::timestamp;
use zex::memory::runtime::MemoryRuntime;
use zex::memory::runtime::StoreStep;
use zex::memory::session::SessionMemory;
use zex::provider::thinking::ThinkingLevel;

const SESSION: &str = "20260815-120000-cafebabe";

/// An agent whose memory keeps its records in a buffer.
struct Talk {
    agent: Agent,
    records: Vec<u8>,
    events: Vec<AgentEvent>,
    clock: u64,
}

fn options(keep_turns: usize) -> AgentOptions {
    AgentOptions {
        model: "test-model".to_owned(),
        turn_timeout: 5,
        max_turns: 3,
        max_context_tokens: 120_000,
        compact_keep_turns: keep_turns,
        thinking_level: ThinkingLevel::Medium,
    }
}

fn open(records: &[u8]) -> SessionMemory {
    SessionMemory::open(SESSION, records, None, 8, None, "records.jsonl", "pins.json").unwrap().0
}

impl Talk {
    fn new(config: Option<MemoryConfig>) -> Talk {
        let memory = config.map(MemoryRuntime::new);
        let active = memory.is_some();
        let mut agent = Agent::new(options(1), None, memory);
        if active {
            agent.activate_memory(open(&[]));
        }
        Talk { agent, records: Vec::new(), events: Vec::new(), clock: 0 }
    }

    fn store(&mut self, step: ArchiveStep) -> Option<MemoryPointer> {
        let memory = self.agent.memory.as_mut()?;
        let now = timestamp().unwrap();
        let begun = match step {
            ArchiveStep::Skip => return None,
            ArchiveStep::Known(pointer) => return Some(pointer),
            ArchiveStep::Message { role, content } => {
                memory.store_message(MemoryKind::Message, &role, content, now).unwrap()
            }
            ArchiveStep::ToolResult { name, arguments, content } => {
                memory.store_tool_result(&name, &arguments, content, now).unwrap()
            }
        };
        match begun {
            StoreStep::Known(pointer) => Some(pointer),
            StoreStep::Append(pending) => {
                let offset = self.records.len() as u64;
                self.records.extend_from_slice(&pending.line);
                Some(memory.finish_store(pending, offset))
            }
        }
    }

    fn prompt(&mut self, prompt: &str) {
        let step =
            ArchiveStep::Message { role: "user".to_owned(), content: prompt.to_owned() };
        self.store(step);
        self.agent.begin_prompt(prompt.to_owned(), &mut self.events);
    }

    fn answer(&mut self, content: &str, tool_calls: Vec<ToolCall>) -> AssistantMessage {
        let sent = self.agent.begin_request();
        let reply = AssistantMessage {
            content: content.to_owned(),
            thinking: None,
            tool_calls,
            provider_state: None,
            usage: None,
        };
        self.agent.note_usage(sent, reply.usage);
        let record = message_record_text(&message_of_answer(&reply));
        self.store(ArchiveStep::Message { role: "assistant".to_owned(), content: record });
        self.agent.add_answer(&reply, &mut self.events);
        reply
    }

    fn finish(&mut self, call: &ToolCall, output: &str) {
        let step = ArchiveStep::ToolResult {
            name: call.name.clone(),
            arguments: parse_arguments(&call.arguments),
            content: output.to_owned(),
        };
        let memory = self.store(step);
        let report =
            ToolReport { output: output.to_owned(), is_error: false, change: None, memory };
        self.agent.finish_tool(call, report, 1, &mut self.events);
    }

    fn compact(&mut self) -> zex::agent::compaction::CompactStats {
        let mut compaction = self.agent.begin_compaction(None);
        while !compaction.finished {
            let mut archived = Vec::new();
            if self.agent.memory.is_some() {
                for index in 0..self.agent.archive_end(compaction.keep_turns) {
                    let step = self.agent.archive_step(index);
                    archived.push(if index == 0 { None } else { self.store(step) });
                }
            }
            compaction = self.agent.compaction_round(compaction, &archived);
        }
        self.agent.finish_compaction(compaction)
    }

    fn recall(&mut self, id: &str) -> String {
        self.clock += 1;
        let memory = self.agent.memory.as_mut().unwrap();
        memory
            .recall(id, None, None, None, self.clock, timestamp().unwrap(), &self.records)
            .result
            .unwrap()
    }
}

fn echo(id: &str, value: &str) -> ToolCall {
    ToolCall {
        id: id.to_owned(),
        name: "echo".to_owned(),
        arguments: format!("{{\"value\":\"{value}\"}}"),
    }
}

#[test]
fn large_results_compact_to_recallable_citations() {
    let mut talk = Talk::new(Some(MemoryConfig {
        max_recall_tokens: 9_000,
        max_inline_tool_tokens: 1_000,
        ..MemoryConfig::default()
    }));
    let observed = "precise-large-observation\n".repeat(1_200);
    let old_prompt = "old task context ".repeat(2_000);
    talk.prompt(&old_prompt);
    let reply = talk.answer("", vec![echo("call-big", "x")]);
    talk.finish(&reply.tool_calls[0], &observed);
    talk.answer("old turn complete", Vec::new());
    talk.prompt("recent task");
    talk.answer("recent turn complete", Vec::new());

    let tool_content = talk
        .agent
        .messages()
        .iter()
        .find_map(|message| match message {
            Message::Tool { content, .. } => Some(content.clone()),
            _ => None,
        })
        .unwrap();
    let id = extract_memory_ids(&tool_content).pop().unwrap();
    assert!(tool_content.contains("recall available"));
    assert!(tool_content.len() * 4 < observed.len());
    assert!(matches!(
        talk.agent.messages().first(),
        Some(Message::System { content })
            if content.contains("[Current valid addressable pointers]")
                && content.contains(&id)
                && content.contains("Never invent")
                && content.contains("A recall failure means the content is unavailable")
    ));
    let records = talk.records.clone();
    let memory = talk.agent.memory.as_mut().unwrap();
    let stored_history = memory.list_pointers(Some("old task"), &records).unwrap();
    let turn_id = extract_memory_ids(&stored_history).pop().unwrap();
    assert!(turn_id.starts_with("§turn_"));

    let before = talk.agent.context_tokens();
    let stats = talk.compact();
    assert!(stats.freed_tokens > 0);
    assert!(talk.agent.context_tokens() * 2 < before);
    assert!(matches!(
        talk.agent.messages().get(1),
        Some(Message::System { content })
            if content.contains("[Available addressable pointers]") && content.contains(&id)
    ));
    assert!(talk.recall(&turn_id).ends_with(&old_prompt));
    assert!(talk.recall(&id).ends_with(&observed));
}

#[test]
fn disabled_memory_preserves_the_original_tool_and_prompt_contract() {
    let output = "legacy-full-output".repeat(200);
    let mut talk = Talk::new(None);
    talk.prompt("legacy behavior");
    let reply = talk.answer("", vec![echo("legacy-call", "x")]);
    talk.finish(&reply.tool_calls[0], &output);
    talk.answer("done", Vec::new());

    assert!(matches!(
        talk.agent.messages().first(),
        Some(Message::System { content }) if !content.contains("[Addressable memory policy]")
    ));
    assert!(talk.agent.messages().iter().any(|message| matches!(
        message,
        Message::Tool { content, .. } if content == &output
    )));
    assert!(talk
        .agent
        .messages()
        .iter()
        .all(|message| extract_memory_ids(message.content()).is_empty()));
}

#[test]
fn resume_reopens_addressable_store_and_restores_active_pointers() {
    let mut first = Talk::new(Some(MemoryConfig::default()));
    first.prompt("saved context");
    let reply = first.answer("", vec![echo("saved-call", "resume.txt")]);
    first.finish(&reply.tool_calls[0], "exact resumed observation");
    let saved: Vec<Message> = first.agent.messages().iter().map(Message::copy).collect();

    let memory = MemoryRuntime::new(MemoryConfig::default());
    let mut agent = Agent::new(options(1), None, Some(memory));
    agent.activate_memory(open(&first.records));
    agent.begin_replacement(saved);
    let mut resumed =
        Talk { agent, records: first.records.clone(), events: Vec::new(), clock: 0 };
    let before = resumed.records.len();
    for index in 0..resumed.agent.messages().len() {
        let step = resumed.agent.initial_step(index);
        resumed.store(step);
    }
    for index in 0..resumed.agent.messages().len() {
        let step = resumed.agent.initial_result_step(index);
        assert!(matches!(step, ArchiveStep::Skip), "the store has it already");
    }
    resumed.agent.sync_memory_context();
    assert_eq!(resumed.records.len(), before, "nothing is stored twice");

    let memory = resumed.agent.memory.as_ref().unwrap();
    assert_eq!(memory.active_session_id().as_deref(), Some(SESSION));
    let id = resumed
        .agent
        .messages()
        .iter()
        .find_map(|message| match message {
            Message::Tool { content, .. } => extract_memory_ids(content).pop(),
            _ => None,
        })
        .unwrap();
    assert!(matches!(
        resumed.agent.messages().first(),
        Some(Message::System { content }) if content.contains(&id)
    ));
    assert!(resumed.recall(&id).ends_with("exact resumed observation"));
}

#[test]
fn results_from_before_memory_are_taken_in() {
    let history = vec![
        Message::User { content: "read it".to_owned() },
        Message::Assistant {
            content: String::new(),
            thinking: None,
            tool_calls: vec![echo("c", "x")],
            provider_state: None,
        },
        Message::Tool { tool_call_id: "c".to_owned(), content: "plain output".to_owned() },
        Message::Tool { tool_call_id: "unknown".to_owned(), content: "stray".to_owned() },
    ];
    let memory = MemoryRuntime::new(MemoryConfig::default());
    let mut agent = Agent::new(options(1), Some(history), Some(memory));
    agent.activate_memory(open(&[]));
    let mut talk = Talk { agent, records: Vec::new(), events: Vec::new(), clock: 0 };
    let step = talk.agent.initial_result_step(3);
    let pointer = talk.store(step).unwrap();
    talk.agent.adopt_result(3, "plain output", &pointer);
    assert!(matches!(
        &talk.agent.messages()[3],
        Message::Tool { content, .. }
            if content.starts_with("plain output") && content.contains(&pointer.id)
    ));
    assert!(matches!(talk.agent.initial_result_step(4), ArchiveStep::Skip));
    assert!(matches!(talk.agent.initial_step(1), ArchiveStep::Message { role, content }
        if role == "user" && content == "read it"));
}

#[test]
fn failures_are_stored_unless_memory_itself_failed() {
    let talk = Talk::new(Some(MemoryConfig::default()));
    let arguments = parse_arguments("{\"path\":\"x\"}");
    let output = failed_output("gone");
    assert!(matches!(
        talk.agent.failure_step("read", &arguments, &output),
        ArchiveStep::ToolResult { name, content, .. }
            if name == "read" && content == "tool error: gone"
    ));
    assert!(matches!(
        talk.agent.failure_step("recall", &arguments, &output),
        ArchiveStep::Skip
    ));
    let without = Talk::new(None);
    assert!(matches!(
        without.agent.failure_step("read", &arguments, &output),
        ArchiveStep::Skip
    ));
}
