//! What an agent tells of a turn while it runs.
use crate::agent::change::FileChange;
use crate::agent::compaction::CompactStats;
use crate::provider::thinking::ThinkingLevel;
use crate::text;
use vstd::prelude::*;
use vstd::string::*;

verus! {

#[derive(Debug, Clone, Copy, PartialEq, Eq, Structural)]
pub enum MessageRole {
    User,
    Assistant,
}

/// One thing that happened. Timeouts are in seconds, elapsed times in
/// milliseconds.
#[derive(Debug, PartialEq, Eq)]
pub enum AgentEvent {
    MessageDelta { role: MessageRole, delta: String },
    ThinkingDelta { delta: String },
    ThinkingNormalized {
        requested: ThinkingLevel,
        clamped: ThinkingLevel,
        effective: ThinkingLevel,
        provider_value: Option<String>,
    },
    ToolStart { call_id: String, name: String, arguments: String, timeout: u64 },
    ToolEnd {
        call_id: String,
        name: String,
        output: String,
        is_error: bool,
        elapsed: u64,
        change: Option<FileChange>,
    },
    Error { message: String },
    ContextCompacted { stats: CompactStats },
    ProviderUsage { output_tokens: u64, elapsed: u64 },
    TurnCancelled,
    TurnEnd,
}

/// What an [`AgentEvent`] holds.
pub enum EventView {
    MessageDelta { role: MessageRole, delta: Seq<char> },
    ThinkingDelta { delta: Seq<char> },
    ThinkingNormalized {
        requested: ThinkingLevel,
        clamped: ThinkingLevel,
        effective: ThinkingLevel,
        provider_value: Option<Seq<char>>,
    },
    ToolStart { call_id: Seq<char>, name: Seq<char>, arguments: Seq<char>, timeout: u64 },
    ToolEnd {
        call_id: Seq<char>,
        name: Seq<char>,
        output: Seq<char>,
        is_error: bool,
        elapsed: u64,
        change: Option<FileChange>,
    },
    Error { message: Seq<char> },
    ContextCompacted { stats: CompactStats },
    ProviderUsage { output_tokens: u64, elapsed: u64 },
    TurnCancelled,
    TurnEnd,
}

impl View for AgentEvent {
    type V = EventView;

    open spec fn view(&self) -> EventView {
        match *self {
            AgentEvent::MessageDelta { role, delta } => EventView::MessageDelta {
                role,
                delta: delta@,
            },
            AgentEvent::ThinkingDelta { delta } => EventView::ThinkingDelta { delta: delta@ },
            AgentEvent::ThinkingNormalized { requested, clamped, effective, provider_value } =>
                EventView::ThinkingNormalized {
                requested,
                clamped,
                effective,
                provider_value: text::opt(provider_value),
            },
            AgentEvent::ToolStart { call_id, name, arguments, timeout } => EventView::ToolStart {
                call_id: call_id@,
                name: name@,
                arguments: arguments@,
                timeout,
            },
            AgentEvent::ToolEnd { call_id, name, output, is_error, elapsed, change } =>
                EventView::ToolEnd {
                call_id: call_id@,
                name: name@,
                output: output@,
                is_error,
                elapsed,
                change,
            },
            AgentEvent::Error { message } => EventView::Error { message: message@ },
            AgentEvent::ContextCompacted { stats } => EventView::ContextCompacted { stats },
            AgentEvent::ProviderUsage { output_tokens, elapsed } => EventView::ProviderUsage {
                output_tokens,
                elapsed,
            },
            AgentEvent::TurnCancelled => EventView::TurnCancelled,
            AgentEvent::TurnEnd => EventView::TurnEnd,
        }
    }
}

/// Tells one thing more.
pub fn tell(events: &mut Vec<AgentEvent>, event: AgentEvent)
    ensures
        text::views(final(events)@) == text::views(old(events)@).push(event@),
{
    proof {
        text::lemma_views_push(events@, event);
    }
    events.push(event);
}

/// The event of a piece of an assistant's answer.
pub open spec fn answer_delta(delta: Seq<char>) -> EventView {
    EventView::MessageDelta { role: MessageRole::Assistant, delta }
}

/// The event of a piece of thinking.
pub open spec fn thinking_delta(delta: Seq<char>) -> EventView {
    EventView::ThinkingDelta { delta }
}

} // verus!
