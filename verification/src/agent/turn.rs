//! A turn: the model is asked, and the tools that it calls are run, until it
//! answers in words alone.
use crate::agent::change::FileChange;
use crate::agent::event;
use crate::agent::event::AgentEvent;
use crate::agent::event::EventView;
use crate::agent::event::MessageRole;
use crate::agent::history::ArchiveStep;
use crate::agent::history::ArchiveView;
use crate::agent::message;
use crate::agent::message::AssistantMessage;
use crate::agent::message::AssistantView;
use crate::agent::message::CompletionUsage;
use crate::agent::message::Message;
use crate::agent::message::MessageView;
use crate::agent::message::PromptOutcome;
use crate::agent::message::ToolCall;
use crate::agent::state;
use crate::agent::state::Agent;
use crate::agent::state::UsageBaseline;
use crate::json;
use crate::json::Json;
use crate::json::JsonView;
use crate::memory::record::MemoryPointer;
use crate::memory::record::PointerView;
use crate::memory::runtime;
use crate::memory::runtime::MemoryRuntime;
use crate::text;
use crate::tools::registry;
use crate::tools::registry::ToolRegistry;
use vstd::prelude::*;
use vstd::string::*;
use vstd::utf8::*;

verus! {

// ---------------------------------------------------------------------------
// The course of a turn
// ---------------------------------------------------------------------------

/// What is to be done next in a turn.
#[derive(Debug, Clone, Copy, PartialEq, Eq, Structural)]
pub enum TurnPhase {
    /// The context is looked at before the model is asked.
    Check,
    /// The model is asked.
    Ask,
    /// Call number `index` of `total` is run.
    Call { index: usize, total: usize },
    /// The context is looked at after `done` of `total` calls.
    CheckAfter { done: usize, total: usize },
    /// The model has answered in words alone.
    Done,
    /// The model was asked as often as it may be.
    Exhausted,
}

/// What happened in a turn.
#[derive(Debug, Clone, Copy, PartialEq, Eq, Structural)]
pub enum TurnProgress {
    ContextChecked,
    Answered { calls: usize },
    ToolFinished,
}

/// A turn that is under way.
#[derive(Debug, Clone, Copy, PartialEq, Eq, Structural)]
pub struct Turn {
    pub max_turns: usize,
    pub asked: usize,
    pub phase: TurnPhase,
}

/// Whether `progress` is what `phase` waits for.
pub open spec fn is_due(phase: TurnPhase, progress: TurnProgress) -> bool {
    match (phase, progress) {
        (TurnPhase::Check, TurnProgress::ContextChecked) => true,
        (TurnPhase::CheckAfter { .. }, TurnProgress::ContextChecked) => true,
        (TurnPhase::Ask, TurnProgress::Answered { .. }) => true,
        (TurnPhase::Call { .. }, TurnProgress::ToolFinished) => true,
        _ => false,
    }
}

/// The phase in which a turn that asked `asked` times asks once more, where it
/// may.
pub open spec fn next_request(asked: usize, max_turns: usize) -> TurnPhase {
    if asked < max_turns {
        TurnPhase::Check
    } else {
        TurnPhase::Exhausted
    }
}

impl Turn {
    /// No more requests were made than are allowed, and a call that is to be
    /// run is one of those that were made.
    pub open spec fn wf(self) -> bool {
        &&& self.asked <= self.max_turns
        &&& match self.phase {
            TurnPhase::Check | TurnPhase::Ask => self.asked < self.max_turns,
            TurnPhase::Call { index, total } => index < total && self.asked > 0,
            TurnPhase::CheckAfter { done, total } => 0 < done <= total && self.asked > 0,
            TurnPhase::Done => self.asked > 0,
            TurnPhase::Exhausted => self.asked == self.max_turns,
        }
    }

    /// The turn after `progress`.
    pub open spec fn after(self, progress: TurnProgress) -> Turn {
        match (self.phase, progress) {
            (TurnPhase::Check, TurnProgress::ContextChecked) => Turn {
                phase: TurnPhase::Ask,
                ..self
            },
            (TurnPhase::Ask, TurnProgress::Answered { calls }) => Turn {
                asked: (self.asked + 1) as usize,
                phase: if calls == 0 {
                    TurnPhase::Done
                } else {
                    TurnPhase::Call { index: 0, total: calls }
                },
                ..self
            },
            (TurnPhase::Call { index, total }, TurnProgress::ToolFinished) => Turn {
                phase: TurnPhase::CheckAfter { done: (index + 1) as usize, total },
                ..self
            },
            (TurnPhase::CheckAfter { done, total }, TurnProgress::ContextChecked) => Turn {
                phase: if done < total {
                    TurnPhase::Call { index: done, total }
                } else {
                    next_request(self.asked, self.max_turns)
                },
                ..self
            },
            _ => self,
        }
    }

    /// How far the calls of the last answer are from done.
    pub open spec fn calls_left(self) -> nat {
        match self.phase {
            TurnPhase::Check => 1,
            TurnPhase::Call { index, total } => (2 * (total - index) + 2) as nat,
            TurnPhase::CheckAfter { done, total } => (2 * (total - done) + 3) as nat,
            _ => 0,
        }
    }

    /// Begins a turn in which the model is asked at most `max_turns` times.
    pub fn new(max_turns: usize) -> (r: Turn)
        ensures
            r == (Turn { max_turns, asked: 0, phase: next_request(0, max_turns) }),
            r.wf(),
    {
        Turn {
            max_turns,
            asked: 0,
            phase: if max_turns > 0 {
                TurnPhase::Check
            } else {
                TurnPhase::Exhausted
            },
        }
    }

    /// Goes on after `progress`.
    pub fn advance(&mut self, progress: TurnProgress)
        requires
            old(self).wf(),
        ensures
            *final(self) == old(self).after(progress),
            final(self).wf(),
    {
        match (self.phase, progress) {
            (TurnPhase::Check, TurnProgress::ContextChecked) => {
                self.phase = TurnPhase::Ask;
            },
            (TurnPhase::Ask, TurnProgress::Answered { calls }) => {
                self.asked = self.asked + 1;
                self.phase = if calls == 0 {
                    TurnPhase::Done
                } else {
                    TurnPhase::Call { index: 0, total: calls }
                };
            },
            (TurnPhase::Call { index, total }, TurnProgress::ToolFinished) => {
                self.phase = TurnPhase::CheckAfter { done: index + 1, total };
            },
            (TurnPhase::CheckAfter { done, total }, TurnProgress::ContextChecked) => {
                self.phase = if done < total {
                    TurnPhase::Call { index: done, total }
                } else if self.asked < self.max_turns {
                    TurnPhase::Check
                } else {
                    TurnPhase::Exhausted
                };
            },
            _ => {},
        }
    }
}

/// A turn ends: whatever it waits for brings it nearer to its end, and the
/// model is asked no more often than is allowed.
pub proof fn law_turn_ends(turn: Turn, progress: TurnProgress)
    requires
        turn.wf(),
        is_due(turn.phase, progress),
    ensures
        turn.after(progress).wf(),
        turn.after(progress).asked <= turn.max_turns,
        decreases_to!(
            turn.max_turns - turn.asked,
            turn.calls_left() => turn.max_turns - turn.after(progress).asked,
            turn.after(progress).calls_left(),
        ),
{
}

/// The calls of an answer are run one after another, each of them once, before
/// the model is asked again.
pub proof fn law_calls_are_run_in_order(turn: Turn, index: usize, total: usize)
    requires
        turn.wf(),
        turn.phase == (TurnPhase::Call { index, total }),
    ensures
        ({
            let next = turn.after(TurnProgress::ToolFinished).after(TurnProgress::ContextChecked);
            &&& next.asked == turn.asked
            &&& if index + 1 < total {
                next.phase == (TurnPhase::Call { index: (index + 1) as usize, total })
            } else {
                next.phase == next_request(turn.asked, turn.max_turns)
            }
        }),
{
}

// ---------------------------------------------------------------------------
// What is said
// ---------------------------------------------------------------------------

/// What an answer adds to the conversation.
pub open spec fn answer_message(answer: AssistantView) -> MessageView {
    MessageView::Assistant {
        content: answer.content,
        thinking: answer.thinking,
        tool_calls: answer.tool_calls,
        provider_state: answer.provider_state,
    }
}

/// What an answer adds to the conversation.
pub fn message_of_answer(answer: &AssistantMessage) -> (r: Message)
    ensures
        r@ == answer_message(answer@),
{
    Message::Assistant {
        content: answer.content.clone(),
        thinking: message::copy_text(&answer.thinking),
        tool_calls: message::copy_calls(&answer.tool_calls),
        provider_state: message::copy_json(&answer.provider_state),
    }
}

/// What an answer tells of the tokens of the `sent` messages that it answers.
pub open spec fn baseline_after(
    before: Option<UsageBaseline>,
    sent: usize,
    usage: Option<CompletionUsage>,
) -> Option<UsageBaseline> {
    match usage {
        Some(usage) => match usage.input_tokens {
            Some(tokens) if tokens <= usize::MAX => Some(
                UsageBaseline { message_len: sent, input_tokens: tokens as usize },
            ),
            _ => before,
        },
        None => before,
    }
}

// ---------------------------------------------------------------------------
// Tools
// ---------------------------------------------------------------------------

/// A call that is about to be run: its arguments, or why they are no JSON, and
/// the time that it is given, in seconds.
pub struct ToolStart {
    pub arguments: Result<Json, String>,
    pub timeout: u64,
}

/// The time that a call is given: what its arguments ask for, else what is
/// usual.
pub open spec fn call_timeout(arguments: Result<JsonView, Seq<char>>, usual: u64) -> u64 {
    match arguments {
        Ok(value) => match registry::timeout_of(value, usual) {
            Ok(seconds) => seconds,
            Err(_) => usual,
        },
        Err(_) => usual,
    }
}

/// Tells that a call is about to be run.
pub fn start_tool(tools: &ToolRegistry, call: &ToolCall, events: &mut Vec<AgentEvent>) -> (r:
    ToolStart)
    ensures
        text::res(r.arguments) == json::parsed_json(encode_utf8(call@.arguments)),
        r.timeout == call_timeout(
            json::parsed_json(encode_utf8(call@.arguments)),
            tools@.default_timeout,
        ),
        text::views(final(events)@) == text::views(old(events)@).push(
            EventView::ToolStart {
                call_id: call@.id,
                name: call@.name,
                arguments: call@.arguments,
                timeout: r.timeout,
            },
        ),
{
    let arguments = json::parse_json(call.arguments.as_str().as_bytes());
    let timeout: u64 = match &arguments {
        Ok(value) => match tools.execution_timeout(value) {
            Ok(seconds) => seconds,
            Err(_) => tools.default_timeout(),
        },
        Err(_) => tools.default_timeout(),
    };
    event::tell(
        events,
        AgentEvent::ToolStart {
            call_id: call.id.clone(),
            name: call.name.clone(),
            arguments: call.arguments.clone(),
            timeout,
        },
    );
    ToolStart { arguments, timeout }
}

/// What a call came to. `memory` points to what was stored of its output.
pub struct ToolReport {
    pub output: String,
    pub is_error: bool,
    pub change: Option<FileChange>,
    pub memory: Option<MemoryPointer>,
}

/// What the model is told of a call that failed.
pub fn failed_output(error: &str) -> (r: String)
    ensures
        r@ == "tool error: "@ + error@,
{
    text::concat("tool error: ", error)
}

/// How the model sees an output: as memory shows what it stored of it.
pub open spec fn shown_output(
    memory: Option<MemoryRuntime>,
    pointer: Option<PointerView>,
    output: Seq<char>,
) -> Seq<char> {
    match (memory, pointer) {
        (Some(memory), Some(pointer)) => runtime::rendered(
            memory.config.mode,
            memory.config.max_inline_tool_tokens,
            pointer,
            output,
        ),
        _ => output,
    }
}

// ---------------------------------------------------------------------------
// The agent in a turn
// ---------------------------------------------------------------------------

/// How a turn ended.
pub enum TurnResult {
    Cancelled,
    TimedOut,
    Finished(Result<AssistantMessage, String>),
}

/// The messages that are kept of a turn that failed: those before it, and what
/// the user said.
pub open spec fn kept_prompt(messages: Seq<MessageView>, checkpoint: int) -> Seq<MessageView> {
    if checkpoint < messages.len() {
        messages.take(checkpoint + 1)
    } else {
        messages
    }
}

pub open spec fn turn_timeout_message(seconds: u64) -> Seq<char> {
    "agent turn exceeded its "@ + text::decimal(seconds as nat) + " second timeout"@
}

pub open spec fn exhausted_message(max_turns: usize) -> Seq<char> {
    "agent reached the configured limit of "@ + text::decimal(max_turns as nat)
        + " provider turns"@
}

/// Whether only the messages and the usage of `after` may differ from those of
/// `before`.
pub open spec fn only_messages(before: &Agent, after: &Agent) -> bool {
    &&& after.same_settings(before)
    &&& after.memory == before.memory
}

/// A turn that fails takes back all that was said after the prompt.
pub proof fn law_failed_turn_keeps_the_prompt(
    before: Seq<MessageView>,
    prompt: MessageView,
    said: Seq<MessageView>,
)
    ensures
        kept_prompt(before.push(prompt) + said, before.len() as int) == before.push(prompt),
{
    assert(kept_prompt(before.push(prompt) + said, before.len() as int) =~= before.push(prompt));
}

/// The agent before a model turn, its memory counting recalls anew.
pub open spec fn recounted(before: &Agent, middle: &Agent) -> bool {
    &&& middle.same_settings(before)
    &&& text::views(middle.messages@) == text::views(before.messages@)
    &&& middle.usage_baseline == before.usage_baseline
    &&& match (before.memory, middle.memory) {
        (None, None) => true,
        (Some(memory), Some(counted)) => {
            &&& counted.config == memory.config
            &&& counted.session == memory.session
            &&& counted.active_turn == memory.active_turn
            &&& counted.active_pointers == memory.active_pointers
            &&& counted.recall_limiter.recent == memory.recall_limiter.recent
            &&& counted.recall_limiter.current_model_turn == 0
        },
        _ => false,
    }
}

impl Agent {
    /// Adds what the user says. The result is how many messages there were
    /// before.
    pub fn begin_prompt(&mut self, prompt: String, events: &mut Vec<AgentEvent>) -> (r: usize)
        requires
            old(self).wf(),
        ensures
            final(self).wf(),
            only_messages(old(self), final(self)),
            final(self).usage_baseline == old(self).usage_baseline,
            r == old(self).messages@.len(),
            text::views(final(self).messages@) == text::views(old(self).messages@).push(
                MessageView::User { content: prompt@ },
            ),
            text::views(final(events)@) == text::views(old(events)@).push(
                EventView::MessageDelta { role: MessageRole::User, delta: prompt@ },
            ),
    {
        let checkpoint: usize = self.messages.len();
        let said = Message::User { content: prompt.clone() };
        proof {
            text::lemma_views_push(self.messages@, said);
        }
        self.messages.push(said);
        event::tell(events, AgentEvent::MessageDelta { role: MessageRole::User, delta: prompt });
        checkpoint
    }

    /// Makes ready to ask the model. The result is how many messages are sent.
    pub fn begin_request(&mut self) -> (r: usize)
        requires
            old(self).wf(),
        ensures
            final(self).wf(),
            r == old(self).messages@.len(),
            exists|middle: Agent|
                #![trigger state::is_synced(&middle, final(self))]
                recounted(old(self), &middle) && state::is_synced(&middle, final(self)),
    {
        let ghost before = *self;
        match self.memory.take() {
            Some(mut memory) => {
                memory.begin_model_turn();
                self.memory = Some(memory);
            },
            None => {},
        }
        let ghost middle = *self;
        assert(recounted(&before, &middle));
        self.sync_memory_context();
        assert(state::is_synced(&middle, self));
        proof {
            assert(text::views(self.messages@).len() == text::views(middle.messages@).len());
        }
        self.messages.len()
    }

    /// Tells that the model could not be asked.
    pub fn request_failed(error: &str, events: &mut Vec<AgentEvent>)
        ensures
            text::views(final(events)@) == text::views(old(events)@).push(
                EventView::Error { message: error@ },
            ),
    {
        event::tell(events, AgentEvent::Error { message: error.to_owned() });
    }

    /// Takes note of what an answer tells of the messages that were sent.
    pub fn note_usage(&mut self, sent: usize, usage: Option<CompletionUsage>)
        ensures
            *final(self) == (Agent {
                usage_baseline: baseline_after(old(self).usage_baseline, sent, usage),
                ..*old(self)
            }),
    {
        match usage {
            Some(usage) => match usage.input_tokens {
                Some(tokens) => {
                    if tokens <= usize::MAX as u64 {
                        self.usage_baseline = Some(
                            UsageBaseline { message_len: sent, input_tokens: tokens as usize },
                        );
                    }
                },
                None => {},
            },
            None => {},
        }
    }

    /// Adds an answer, and tells that the turn ended where it calls no tool.
    pub fn add_answer(&mut self, answer: &AssistantMessage, events: &mut Vec<AgentEvent>)
        requires
            old(self).wf(),
        ensures
            final(self).wf(),
            only_messages(old(self), final(self)),
            final(self).usage_baseline == old(self).usage_baseline,
            text::views(final(self).messages@) == text::views(old(self).messages@).push(
                answer_message(answer@),
            ),
            if answer@.tool_calls.len() == 0 {
                text::views(final(events)@) == text::views(old(events)@).push(EventView::TurnEnd)
            } else {
                final(events)@ == old(events)@
            },
    {
        let said = message_of_answer(answer);
        proof {
            text::lemma_views_push(self.messages@, said);
        }
        self.messages.push(said);
        if answer.tool_calls.len() == 0 {
            event::tell(events, AgentEvent::TurnEnd);
        }
    }

    /// What is to be stored of a call that failed.
    pub fn failure_step(&self, name: &str, arguments: &Json, output: &str) -> (r: ArchiveStep)
        ensures
            r@ == if self.memory is Some && !runtime::is_control(name@) {
                ArchiveView::ToolResult {
                    name: name@,
                    arguments: arguments@,
                    content: output@,
                }
            } else {
                ArchiveView::Skip
            },
    {
        if self.memory.is_some() && !MemoryRuntime::is_control_tool(name) {
            ArchiveStep::ToolResult {
                name: name.to_owned(),
                arguments: arguments.copy(),
                content: output.to_owned(),
            }
        } else {
            ArchiveStep::Skip
        }
    }

    /// Tells what a call came to, and adds it to the conversation. `elapsed`
    /// is in milliseconds.
    pub fn finish_tool(
        &mut self,
        call: &ToolCall,
        report: ToolReport,
        elapsed: u64,
        events: &mut Vec<AgentEvent>,
    )
        requires
            old(self).wf(),
            report.memory matches Some(pointer) ==> pointer.wf(),
        ensures
            final(self).wf(),
            exists|middle: Agent|
                #![trigger state::is_synced(&middle, final(self))]
                only_messages(old(self), &middle) && middle.usage_baseline == old(
                    self,
                ).usage_baseline && text::views(middle.messages@) == text::views(
                    old(self).messages@,
                ).push(
                    MessageView::Tool {
                        tool_call_id: call@.id,
                        content: shown_output(
                            old(self).memory,
                            text::opt(report.memory),
                            report.output@,
                        ),
                    },
                ) && state::is_synced(&middle, final(self)),
            text::views(final(events)@) == text::views(old(events)@).push(
                EventView::ToolEnd {
                    call_id: call@.id,
                    name: call@.name,
                    output: report.output@,
                    is_error: report.is_error,
                    elapsed,
                    change: report.change,
                },
            ),
    {
        let content = match (&self.memory, &report.memory) {
            (Some(memory), Some(pointer)) => memory.render_tool_result(
                pointer,
                report.output.as_str(),
            ),
            _ => report.output.clone(),
        };
        let ToolReport { output, is_error, change, memory: _ } = report;
        event::tell(
            events,
            AgentEvent::ToolEnd {
                call_id: call.id.clone(),
                name: call.name.clone(),
                output,
                is_error,
                elapsed,
                change,
            },
        );
        let said = Message::Tool { tool_call_id: call.id.clone(), content };
        proof {
            text::lemma_views_push(self.messages@, said);
        }
        self.messages.push(said);
        let ghost middle = *self;
        self.sync_memory_context();
        assert(state::is_synced(&middle, self));
    }

    /// Tells that the model was asked as often as it may be.
    pub fn exhaust(&self, events: &mut Vec<AgentEvent>) -> (r: String)
        ensures
            r@ == exhausted_message(self.max_turns),
            text::views(final(events)@) == text::views(old(events)@).push(
                EventView::Error { message: r@ },
            ),
    {
        let shown = text::decimal_of(self.max_turns as u64);
        let mut message = text::concat("agent reached the configured limit of ", shown.as_str());
        message.append(" provider turns");
        event::tell(events, AgentEvent::Error { message: message.clone() });
        message
    }

    /// Ends a turn that began with the message at `checkpoint`. What was said
    /// after that message is taken back unless the turn came to its end.
    pub fn settle(
        &mut self,
        checkpoint: usize,
        result: TurnResult,
        events: &mut Vec<AgentEvent>,
    ) -> (r: Result<PromptOutcome, String>)
        requires
            old(self).wf(),
        ensures
            final(self).wf(),
            only_messages(old(self), final(self)),
            final(self).usage_baseline == old(self).usage_baseline,
            text::views(final(self).messages@) == if result matches TurnResult::Finished(Ok(_)) {
                text::views(old(self).messages@)
            } else {
                kept_prompt(text::views(old(self).messages@), checkpoint as int)
            },
            match result {
                TurnResult::Finished(Ok(answer)) => r == Ok::<PromptOutcome, String>(
                    PromptOutcome::Completed(answer),
                ) && final(events)@ == old(events)@,
                TurnResult::Finished(Err(error)) => r == Err::<PromptOutcome, String>(error)
                    && final(events)@ == old(events)@,
                TurnResult::Cancelled => r == Ok::<PromptOutcome, String>(PromptOutcome::Cancelled)
                    && text::views(final(events)@) == text::views(old(events)@).push(
                    EventView::TurnCancelled,
                ),
                TurnResult::TimedOut => r is Err && r->Err_0@ == turn_timeout_message(
                    old(self).turn_timeout,
                ) && text::views(final(events)@) == text::views(old(events)@).push(
                    EventView::Error { message: r->Err_0@ },
                ),
            },
    {
        match result {
            TurnResult::Finished(Ok(answer)) => Ok(PromptOutcome::Completed(answer)),
            TurnResult::Finished(Err(error)) => {
                state::retain_user_prompt(&mut self.messages, checkpoint);
                Err(error)
            },
            TurnResult::Cancelled => {
                state::retain_user_prompt(&mut self.messages, checkpoint);
                event::tell(events, AgentEvent::TurnCancelled);
                Ok(PromptOutcome::Cancelled)
            },
            TurnResult::TimedOut => {
                state::retain_user_prompt(&mut self.messages, checkpoint);
                let shown = text::decimal_of(self.turn_timeout);
                let mut message = text::concat("agent turn exceeded its ", shown.as_str());
                message.append(" second timeout");
                event::tell(events, AgentEvent::Error { message: message.clone() });
                Err(message)
            },
        }
    }
}

} // verus!
