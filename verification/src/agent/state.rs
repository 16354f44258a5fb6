//! The agent: what it says to the model, and what it does to keep the
//! conversation within bounds.
use crate::agent::compaction;
use crate::agent::message;
use crate::agent::message::Message;
use crate::agent::message::MessageView;
use crate::memory::ids;
use crate::memory::pointers;
use crate::memory::runtime;
use crate::memory::runtime::MemoryRuntime;
use crate::memory::session::SessionMemory;
use crate::provider::models_dev::ModelLimit;
use crate::provider::thinking;
use crate::provider::thinking::ThinkingCapabilities;
use crate::provider::thinking::ThinkingLevel;
use crate::text;
use vstd::prelude::*;
use vstd::string::*;

verus! {

pub const SYSTEM_PROMPT: &'static str = "You are Zex, a minimal AI agent core. Be concise and accurate. Use grep to search file contents, glob to find files, and bash only for other system commands. Use read, write, and edit for file operations. Use tool results to finish the task.";

pub const MEMORY_POLICY_MARKER: &'static str = "\n\n[Addressable memory policy]";

pub const MEMORY_POLICY: &'static str = "[Addressable memory policy]\n- Large observations may appear only as §id citations. Call recall with an exact visible ID only when missing details directly affect the current decision.\n- Never invent, alter, or guess an ID. If an ID is not visible, use list_pointers with a narrow filter. Prefer pinned and recently listed pointers.\n- Recall is rate-limited. Do not recall information already present in the active context, and do not batch speculative recalls.\n- A recall failure means the content is unavailable. State that fact and never reconstruct or hallucinate it.\n- pin preserves high-value evidence or decisions; unpin it when no longer central.\nGood: a compiler error cites §obs_abcd... and the exact diagnostic affects the fix, so recall that exact ID once.\nBad: invent §obs_latest, repeatedly recall every pointer, or guess file contents after recall reports a missing ID.";

/// The share of the budget, in percent, from which on the context is compacted.
pub const AUTO_COMPACT_PERCENT: usize = 85;

/// The tokens that are kept free for the output.
pub const OUTPUT_RESERVE_TOKENS: u64 = 8_192;

/// The tokens that the provider reported for the first messages of the
/// conversation, and how many messages those were.
#[derive(Debug, Clone, Copy, PartialEq, Eq, Structural)]
pub struct UsageBaseline {
    pub message_len: usize,
    pub input_tokens: usize,
}

/// How an agent is set up. The timeout is in seconds.
#[derive(Debug, PartialEq, Eq)]
pub struct AgentOptions {
    pub model: String,
    pub turn_timeout: u64,
    pub max_turns: usize,
    pub max_context_tokens: usize,
    pub compact_keep_turns: usize,
    pub thinking_level: ThinkingLevel,
}

/// An agent.
pub struct Agent {
    pub model: String,
    pub messages: Vec<Message>,
    pub turn_timeout: u64,
    pub max_turns: usize,
    pub fallback_context_tokens: usize,
    pub compact_keep_turns: usize,
    pub thinking_level: ThinkingLevel,
    pub memory: Option<MemoryRuntime>,
    pub usage_baseline: Option<UsageBaseline>,
}

// ---------------------------------------------------------------------------
// Messages
// ---------------------------------------------------------------------------

/// The messages of a new conversation.
pub open spec fn fresh() -> Seq<MessageView> {
    seq![MessageView::System { content: SYSTEM_PROMPT@ }]
}

/// The messages of a conversation, which begins with a system message.
pub open spec fn normalized(messages: Seq<MessageView>) -> Seq<MessageView> {
    if messages.len() > 0 && messages[0] is System {
        messages
    } else {
        fresh() + messages
    }
}

pub fn fresh_messages() -> (r: Vec<Message>)
    ensures
        text::views(r@) == fresh(),
{
    let mut r: Vec<Message> = Vec::new();
    r.push(Message::System { content: SYSTEM_PROMPT.to_owned() });
    assert(text::views(r@) =~= fresh());
    r
}

pub fn normalize_messages(messages: Vec<Message>) -> (r: Vec<Message>)
    ensures
        text::views(r@) == normalized(text::views(messages@)),
{
    let begins_well = if messages.len() == 0 {
        false
    } else {
        match &messages[0] {
            Message::System { .. } => true,
            _ => false,
        }
    };
    if begins_well {
        assert(text::views(messages@)[0] == messages@[0]@);
        return messages;
    }
    proof {
        if messages@.len() > 0 {
            assert(text::views(messages@)[0] == messages@[0]@);
        }
    }
    let mut r = fresh_messages();
    let mut rest = messages;
    let ghost first = r@;
    let ghost said = rest@;
    r.append(&mut rest);
    assert(text::views(r@) =~= text::views(first) + text::views(said));
    r
}

/// Keeps what was said up to the message at `checkpoint`, and that message.
pub fn retain_user_prompt(messages: &mut Vec<Message>, checkpoint: usize)
    ensures
        text::views(final(messages)@) == if checkpoint < old(messages)@.len() {
            text::views(old(messages)@).take(checkpoint + 1)
        } else {
            text::views(old(messages)@)
        },
{
    let ghost before = messages@;
    if checkpoint < messages.len() {
        messages.truncate(checkpoint + 1);
        assert(text::views(messages@) =~= text::views(before).take(checkpoint + 1));
    }
}

/// Whether anything was said.
pub open spec fn conversed(messages: Seq<MessageView>) -> bool {
    exists|i: int| 0 <= i < messages.len() && !(#[trigger] messages[i] is System)
}

// ---------------------------------------------------------------------------
// Budget
// ---------------------------------------------------------------------------

pub open spec fn min_u64(a: u64, b: u64) -> u64 {
    if a <= b {
        a
    } else {
        b
    }
}

fn least(a: u64, b: u64) -> (r: u64)
    ensures
        r == min_u64(a, b),
{
    if a <= b {
        a
    } else {
        b
    }
}

/// The tokens that a conversation may take: what the model takes without a
/// reserve for its output, or the fallback where no limit is known.
pub open spec fn budget(limit: Option<ModelLimit>, fallback: usize) -> usize {
    match limit {
        None => fallback,
        Some(limit) => {
            let output = match limit.output {
                Some(output) => output,
                None => OUTPUT_RESERVE_TOKENS,
            };
            let reserve = min_u64(
                min_u64(output, OUTPUT_RESERVE_TOKENS),
                (limit.context / 4) as u64,
            );
            let room = limit.context - reserve;
            if 0 < room <= usize::MAX {
                room as usize
            } else {
                fallback
            }
        },
    }
}

/// The budget leaves room for the output, and is never more than the model
/// takes.
pub proof fn law_budget_fits_the_model(limit: ModelLimit, fallback: usize)
    requires
        0 < limit.context <= usize::MAX,
    ensures
        0 < budget(Some(limit), fallback) <= limit.context,
        limit.output is None ==> limit.context - budget(Some(limit), fallback) == min_u64(
            OUTPUT_RESERVE_TOKENS,
            (limit.context / 4) as u64,
        ),
{
}

/// The tokens that a conversation takes: those that the provider reported for
/// its first messages, and an estimate for the others.
pub open spec fn used_tokens(
    messages: Seq<MessageView>,
    baseline: Option<UsageBaseline>,
) -> usize {
    match baseline {
        Some(baseline) if baseline.message_len <= messages.len() => message::saturated(
            baseline.input_tokens as nat + compaction::history_tokens(
                messages.skip(baseline.message_len as int),
            ),
        ),
        _ => message::saturated(compaction::history_tokens(messages)),
    }
}

/// The tokens from which on the context is compacted.
pub open spec fn threshold(budget: usize) -> usize {
    (message::saturated((budget * AUTO_COMPACT_PERCENT) as nat) / 100) as usize
}

pub fn compact_threshold(budget: usize) -> (r: usize)
    ensures
        r == threshold(budget),
{
    if budget <= usize::MAX / AUTO_COMPACT_PERCENT {
        budget * AUTO_COMPACT_PERCENT / 100
    } else {
        usize::MAX / 100
    }
}

// ---------------------------------------------------------------------------
// The system prompt
// ---------------------------------------------------------------------------

/// A system prompt without what memory adds to it.
pub open spec fn base_prompt(content: Seq<char>) -> Seq<char> {
    match text::split_once(content, MEMORY_POLICY_MARKER@) {
        Some((base, _)) => base,
        None => content,
    }
}

/// What memory adds to a system prompt: its rules, and what can be recalled.
pub open spec fn memory_prompt(base: Seq<char>, manifest: Seq<Seq<char>>) -> Seq<char> {
    base + "\n\n"@ + MEMORY_POLICY@ + "\n\n[Current valid addressable pointers]\n"@ + (
    if manifest.len() == 0 {
        "- No active or pinned citations."@
    } else {
        compaction::bullets(manifest)
    })
}

/// The IDs that messages cite, in order.
pub open spec fn cited_ids(messages: Seq<MessageView>) -> Seq<Seq<char>>
    decreases messages.len(),
{
    if messages.len() == 0 {
        Seq::empty()
    } else {
        cited_ids(messages.drop_last()) + ids::ids_in(messages.last().content())
    }
}

/// What memory holds active after the context cites `list`.
pub open spec fn active_after(memory: &MemoryRuntime, list: Seq<Seq<char>>) -> Seq<Seq<char>> {
    match memory.live() {
        Ok(session) => runtime::visible_ids(session, runtime::distinct(list), memory.turn()),
        Err(_) => text::views(memory.active_pointers@),
    }
}

/// Whether `after` is `before` but for what its context holds active.
pub open spec fn same_but_active(before: &MemoryRuntime, after: &MemoryRuntime) -> bool {
    &&& after.config == before.config
    &&& after.session == before.session
    &&& after.active_turn == before.active_turn
    &&& after.recall_limiter == before.recall_limiter
}

/// Whether `after` is `before` with its system prompt brought up to date, and
/// memory told what the context cites.
pub open spec fn is_synced(before: &Agent, after: &Agent) -> bool {
    let said = text::views(before.messages@);
    &&& after.same_settings(before)
    &&& after.usage_baseline == before.usage_baseline
    &&& if said.len() > 0 && said[0] is System {
        let base = base_prompt(said[0].content());
        match (before.memory, after.memory) {
            (None, None) => text::views(after.messages@) == said.update(
                0,
                MessageView::System { content: base },
            ),
            (Some(memory), Some(told)) => {
                let active = active_after(&memory, cited_ids(said.skip(1)));
                &&& same_but_active(&memory, &told)
                &&& text::views(told.active_pointers@) == active
                &&& text::views(after.messages@) == said.update(
                    0,
                    MessageView::System {
                        content: memory_prompt(
                            base,
                            memory.manifest_of(active, pointers::SYSTEM_POINTER_LIMIT as nat),
                        ),
                    },
                )
            },
            _ => false,
        }
    } else {
        after.memory == before.memory && text::views(after.messages@) == said
    }
}

/// Whether `after` is `before` with `session` given to its memory.
pub open spec fn is_activated(before: &Agent, session: SessionMemory, after: &Agent) -> bool {
    &&& after.same_settings(before)
    &&& after.usage_baseline == before.usage_baseline
    &&& text::views(after.messages@) == text::views(before.messages@)
    &&& match (before.memory, after.memory) {
        (None, None) => true,
        (Some(memory), Some(told)) => if memory.config.enabled {
            &&& told.config == memory.config
            &&& told.session == Some(session)
            &&& told.active_turn is None
            &&& told.active_pointers@.len() == 0
            &&& told.recall_limiter.current_model_turn == 0
            &&& told.recall_limiter.recent == memory.recall_limiter.recent
        } else {
            told == memory
        },
        _ => false,
    }
}

fn cited_ids_of(messages: &Vec<Message>) -> (r: Vec<String>)
    requires
        messages@.len() > 0,
    ensures
        text::views(r@) == cited_ids(text::views(messages@).skip(1)),
{
    let ghost model = text::views(messages@).skip(1);
    let mut r: Vec<String> = Vec::new();
    let mut i: usize = 1;
    assert(text::views(r@) =~= cited_ids(model.take(0)));
    while i < messages.len()
        invariant
            1 <= i <= messages@.len(),
            model == text::views(messages@).skip(1),
            text::views(r@) == cited_ids(model.take(i - 1)),
        decreases messages@.len() - i,
    {
        assert(model.take(i as int).drop_last() =~= model.take(i - 1));
        assert(model.take(i as int).last() == messages@[i as int]@);
        let mut found = ids::extract_memory_ids(messages[i].content());
        let ghost had = r@;
        let ghost more = found@;
        r.append(&mut found);
        assert(text::views(r@) =~= text::views(had) + text::views(more));
        i = i + 1;
    }
    assert(model.take(model.len() as int) =~= model);
    r
}

impl Agent {
    /// Memory is in order.
    pub open spec fn wf(&self) -> bool {
        self.memory matches Some(memory) ==> memory.wf()
    }

    /// Whether this agent is set up as `other` is.
    pub open spec fn same_settings(&self, other: &Agent) -> bool {
        &&& self.model@ == other.model@
        &&& self.turn_timeout == other.turn_timeout
        &&& self.max_turns == other.max_turns
        &&& self.fallback_context_tokens == other.fallback_context_tokens
        &&& self.compact_keep_turns == other.compact_keep_turns
        &&& self.thinking_level == other.thinking_level
    }

    /// Brings the system prompt up to date, and tells memory what the context
    /// cites.
    pub fn sync_memory_context(&mut self)
        requires
            old(self).wf(),
        ensures
            final(self).wf(),
            is_synced(old(self), final(self)),
    {
        let ghost said = text::views(self.messages@);
        if self.messages.len() == 0 {
            return;
        }
        assert(said[0] == self.messages@[0]@);
        let base = match &self.messages[0] {
            Message::System { content } => match text::split_once_of(
                content.as_str(),
                MEMORY_POLICY_MARKER,
            ) {
                Some((base, _)) => base,
                None => content.clone(),
            },
            _ => {
                return;
            },
        };
        match self.memory.take() {
            None => {
                self.messages.set(0, Message::System { content: base });
                assert(text::views(self.messages@) =~= said.update(
                    0,
                    MessageView::System { content: base@ },
                ));
            },
            Some(mut memory) => {
                let ghost before = memory;
                let cited = cited_ids_of(&self.messages);
                memory.set_active_pointers(cited);
                let manifest = memory.system_pointer_manifest();
                let mut content = base;
                content.append("\n\n");
                content.append(MEMORY_POLICY);
                content.append("\n\n[Current valid addressable pointers]\n");
                if manifest.len() == 0 {
                    content.append("- No active or pinned citations.");
                } else {
                    let shown = compaction::bullets_of(&manifest);
                    content.append(shown.as_str());
                }
                let ghost shown = content@;
                self.messages.set(0, Message::System { content });
                assert(text::views(self.messages@) =~= said.update(
                    0,
                    MessageView::System { content: shown },
                ));
                assert(before.live() == memory.live());
                assert(before.turn() == memory.turn());
                self.memory = Some(memory);
            },
        }
    }

    pub fn new(
        options: AgentOptions,
        messages: Option<Vec<Message>>,
        memory: Option<MemoryRuntime>,
    ) -> (r: Agent)
        requires
            memory matches Some(memory) ==> memory.wf(),
        ensures
            r.wf(),
            r.model@ == options.model@,
            r.turn_timeout == options.turn_timeout,
            r.max_turns == options.max_turns,
            r.fallback_context_tokens == options.max_context_tokens,
            r.compact_keep_turns == options.compact_keep_turns,
            r.thinking_level == options.thinking_level,
            r.usage_baseline is None,
            exists|start: Agent|
                #![trigger is_synced(&start, &r)]
                start.memory == memory && text::views(start.messages@) == normalized(
                    match messages {
                        Some(messages) => text::views(messages@),
                        None => Seq::empty(),
                    },
                ) && is_synced(&start, &r),
    {
        let given = match messages {
            Some(messages) => messages,
            None => {
                let none: Vec<Message> = Vec::new();
                assert(text::views(none@) =~= Seq::<MessageView>::empty());
                none
            },
        };
        let mut agent = Agent {
            model: options.model,
            messages: normalize_messages(given),
            turn_timeout: options.turn_timeout,
            max_turns: options.max_turns,
            fallback_context_tokens: options.max_context_tokens,
            compact_keep_turns: options.compact_keep_turns,
            thinking_level: options.thinking_level,
            memory,
            usage_baseline: None,
        };
        let ghost start = agent;
        agent.sync_memory_context();
        assert(is_synced(&start, &agent));
        agent
    }

    pub fn messages(&self) -> (r: &Vec<Message>)
        ensures
            text::views(r@) == text::views(self.messages@),
    {
        &self.messages
    }

    pub fn model(&self) -> (r: &str)
        ensures
            r@ == self.model@,
    {
        self.model.as_str()
    }

    pub fn set_model(&mut self, model: String)
        ensures
            *final(self) == (Agent { model, ..*old(self) }),
    {
        self.model = model;
    }

    /// The level that requests get, given what the model offers.
    pub fn thinking_level(&self, capabilities: &ThinkingCapabilities) -> (r: ThinkingLevel)
        ensures
            r == thinking::normalized(capabilities@, self.thinking_level).effective,
    {
        thinking::normalize_thinking_level(capabilities, self.thinking_level).effective
    }

    pub fn thinking_preference(&self) -> (r: ThinkingLevel)
        ensures
            r == self.thinking_level,
    {
        self.thinking_level
    }

    pub fn set_thinking_level(&mut self, thinking_level: ThinkingLevel)
        ensures
            *final(self) == (Agent { thinking_level, ..*old(self) }),
    {
        self.thinking_level = thinking_level;
    }

    /// The tokens that the conversation may take, given the model's limits.
    pub fn context_budget(&self, limit: Option<ModelLimit>) -> (r: usize)
        ensures
            r == budget(limit, self.fallback_context_tokens),
    {
        match limit {
            None => self.fallback_context_tokens,
            Some(limit) => {
                let output: u64 = match limit.output {
                    Some(output) => output,
                    None => OUTPUT_RESERVE_TOKENS,
                };
                let reserve: u64 = least(least(output, OUTPUT_RESERVE_TOKENS), limit.context / 4);
                let room: u64 = limit.context - reserve;
                if room > 0 && room <= usize::MAX as u64 {
                    room as usize
                } else {
                    self.fallback_context_tokens
                }
            },
        }
    }

    /// The tokens that the conversation takes.
    pub fn context_tokens(&self) -> (r: usize)
        ensures
            r == used_tokens(text::views(self.messages@), self.usage_baseline),
    {
        match self.usage_baseline {
            Some(baseline) => {
                if baseline.message_len <= self.messages.len() {
                    let since: usize = compaction::context_tokens_from(
                        &self.messages,
                        baseline.message_len,
                    );
                    baseline.input_tokens.saturating_add(since)
                } else {
                    compaction::context_tokens(&self.messages)
                }
            },
            None => compaction::context_tokens(&self.messages),
        }
    }

    /// Gives memory, where there is any, an opened session.
    pub fn activate_memory(&mut self, session: SessionMemory)
        requires
            old(self).wf(),
            session.wf(),
        ensures
            final(self).wf(),
            exists|start: Agent|
                #![trigger is_synced(&start, final(self))]
                is_activated(old(self), session, &start) && is_synced(&start, final(self)),
    {
        let ghost before = *self;
        match self.memory.take() {
            Some(mut memory) => {
                memory.activate(session);
                self.memory = Some(memory);
            },
            None => {},
        }
        let ghost start = *self;
        assert(is_activated(&before, session, &start));
        self.sync_memory_context();
        assert(is_synced(&start, self));
    }

    pub fn memory_enabled(&self) -> (r: bool)
        ensures
            r == (self.memory matches Some(memory) && memory.config.enabled),
    {
        match &self.memory {
            Some(memory) => memory.enabled(),
            None => false,
        }
    }

    /// Whether anything was said.
    pub fn has_conversation(&self) -> (r: bool)
        ensures
            r == conversed(text::views(self.messages@)),
    {
        let ghost model = text::views(self.messages@);
        let mut i: usize = 0;
        while i < self.messages.len()
            invariant
                i <= self.messages@.len(),
                model == text::views(self.messages@),
                forall|j: int| 0 <= j < i ==> #[trigger] model[j] is System,
            decreases self.messages@.len() - i,
        {
            assert(model[i as int] == self.messages@[i as int]@);
            match &self.messages[i] {
                Message::System { .. } => {},
                _ => {
                    return true;
                },
            }
            i = i + 1;
        }
        false
    }

    /// Begins a new conversation.
    pub fn clear(&mut self)
        requires
            old(self).wf(),
        ensures
            final(self).wf(),
            final(self).same_settings(old(self)),
            final(self).usage_baseline is None,
            exists|start: Agent|
                #![trigger is_synced(&start, final(self))]
                start.memory == old(self).memory && text::views(start.messages@) == fresh()
                    && is_synced(&start, final(self)),
    {
        self.messages = fresh_messages();
        self.usage_baseline = None;
        let ghost start = *self;
        self.sync_memory_context();
        assert(is_synced(&start, self));
    }

    /// Puts another conversation in place of this one. Memory is still to be
    /// told of it.
    pub fn begin_replacement(&mut self, messages: Vec<Message>)
        ensures
            final(self).same_settings(old(self)),
            final(self).memory == old(self).memory,
            final(self).usage_baseline is None,
            text::views(final(self).messages@) == normalized(text::views(messages@)),
    {
        self.messages = normalize_messages(messages);
        self.usage_baseline = None;
    }
}

/// A conversation begins with a system message and keeps every message that it
/// had: one that begins so already is left as it is.
pub proof fn law_conversations_begin_with_a_system_message(messages: Seq<MessageView>)
    ensures
        normalized(messages).len() > 0,
        normalized(messages)[0] is System,
        normalized(messages).len() >= messages.len(),
        normalized(messages).skip(normalized(messages).len() - messages.len()) == messages,
        normalized(normalized(messages)) == normalized(messages),
        conversed(normalized(messages)) <==> conversed(messages),
{
    let all = normalized(messages);
    assert(all.skip(all.len() - messages.len()) =~= messages);
    if conversed(messages) {
        let i = choose|i: int| 0 <= i < messages.len() && !(#[trigger] messages[i] is System);
        assert(all[i + all.len() - messages.len()] == messages[i]);
    }
    if conversed(all) {
        let i = choose|i: int| 0 <= i < all.len() && !(#[trigger] all[i] is System);
        assert(messages[i - (all.len() - messages.len())] == all[i]);
    }
}

/// The context counts as near its budget from 85 percent on.
pub proof fn law_threshold_is_a_share(budget: usize)
    requires
        budget * 85 <= usize::MAX,
    ensures
        threshold(budget) * 100 <= budget * 85 < (threshold(budget) + 1) * 100,
        threshold(budget) <= budget,
{
}

/// What memory adds to a system prompt is taken away again: bringing a prompt
/// up to date starts from what it was without memory, however often it is done.
pub proof fn law_memory_prompt_is_replaced(base: Seq<char>, manifest: Seq<Seq<char>>)
    requires
        text::find(base, MEMORY_POLICY_MARKER@) is None,
    ensures
        base_prompt(base) == base,
        base_prompt(memory_prompt(base, manifest)) == base,
{
    let content = memory_prompt(base, manifest);
    let mark = MEMORY_POLICY_MARKER@;
    let rest = content.skip((base + mark).len() as int);
    lemma_policy_begins();
    lemma_marker();
    assert(content =~= base + mark + rest) by {
        let size = base.len() as int;
        let policy = "\n\n"@ + MEMORY_POLICY@;
        assert(policy.take(29) =~= "\n\n"@ + MEMORY_POLICY@.take(27));
        assert(content.subrange(size, size + 29) =~= policy.take(29));
        assert(content.take(base.len() as int) =~= base);
        assert(content =~= content.take(base.len() as int) + content.subrange(
            size,
            size + 29,
        ) + rest);
    }
    text::lemma_mark_is_found(base, mark, rest);
    assert(content.take(base.len() as int) =~= base);
}

proof fn lemma_marker()
    ensures
        "\n\n"@.len() == 2,
        MEMORY_POLICY_MARKER@.len() == 29,
        MEMORY_POLICY_MARKER@ == "\n\n"@ + "[Addressable memory policy]"@,
        forall|k: int|
            0 < k < 29 ==> #[trigger] MEMORY_POLICY_MARKER@.skip(k) != MEMORY_POLICY_MARKER@.take(
                29 - k,
            ),
{
    let mark = MEMORY_POLICY_MARKER@;
    reveal_strlit("\n\n");
    reveal_strlit("[Addressable memory policy]");
    reveal_strlit("\n\n[Addressable memory policy]");
    assert(mark =~= "\n\n"@ + "[Addressable memory policy]"@);
    assert forall|k: int| 0 < k < 29 implies #[trigger] mark.skip(k) != mark.take(29 - k) by {
        if k == 1 {
            assert(mark.skip(k)[1] == '[');
            assert(mark.take(29 - k)[1] == '\n');
        } else {
            assert(mark.skip(k)[0] == mark[k]);
            assert(mark.take(29 - k)[0] == '\n');
        }
    }
}

proof fn lemma_policy_begins()
    ensures
        MEMORY_POLICY@.len() >= 27,
        MEMORY_POLICY@.take(27) == "[Addressable memory policy]"@,
{
    reveal_strlit("[Addressable memory policy]");
    reveal_strlit("[Addressable memory policy]\n- Large observations may appear only as §id citations. Call recall with an exact visible ID only when missing details directly affect the current decision.\n- Never invent, alter, or guess an ID. If an ID is not visible, use list_pointers with a narrow filter. Prefer pinned and recently listed pointers.\n- Recall is rate-limited. Do not recall information already present in the active context, and do not batch speculative recalls.\n- A recall failure means the content is unavailable. State that fact and never reconstruct or hallucinate it.\n- pin preserves high-value evidence or decisions; unpin it when no longer central.\nGood: a compiler error cites §obs_abcd... and the exact diagnostic affects the fix, so recall that exact ID once.\nBad: invent §obs_latest, repeatedly recall every pointer, or guess file contents after recall reports a missing ID.");
    assert(MEMORY_POLICY@.take(27) =~= "[Addressable memory policy]"@);
}

/// Every ID that a message cites is among those that the messages cite, and no
/// others are.
pub proof fn law_every_citation_counts(messages: Seq<MessageView>, id: Seq<char>)
    ensures
        cited_ids(messages).contains(id) <==> exists|i: int|
            0 <= i < messages.len() && ids::ids_in((#[trigger] messages[i]).content()).contains(id),
    decreases messages.len(),
{
    if messages.len() > 0 {
        let front = messages.drop_last();
        let last: int = messages.len() - 1;
        law_every_citation_counts(front, id);
        let before = cited_ids(front);
        let own = ids::ids_in(messages.last().content());
        let all = cited_ids(messages);
        if before.contains(id) {
            assert(all[before.index_of(id)] == id);
            let i = choose|i: int|
                0 <= i < front.len() && ids::ids_in((#[trigger] front[i]).content()).contains(id);
            assert(messages[i] == front[i]);
        }
        if own.contains(id) {
            assert(all[before.len() + own.index_of(id)] == id);
            assert(messages[last] == messages.last());
        }
        if all.contains(id) {
            let k = all.index_of(id);
            if k < before.len() {
                assert(before[k] == id);
            } else {
                assert(own[k - before.len()] == id);
            }
        }
        if exists|i: int|
            0 <= i < messages.len() && ids::ids_in((#[trigger] messages[i]).content()).contains(
                id,
            ) {
            let i = choose|i: int|
                0 <= i < messages.len() && ids::ids_in((#[trigger] messages[i]).content()).contains(
                    id,
                );
            if i < last {
                assert(front[i] == messages[i]);
            }
        }
    }
}

/// What a conversation takes grows by what is said: behind what the provider
/// counted every message counts its estimate.
pub proof fn law_conversation_grows_by_what_is_said(
    messages: Seq<MessageView>,
    baseline: Option<UsageBaseline>,
    said: MessageView,
)
    requires
        baseline matches Some(known) ==> known.message_len <= messages.len() && known.input_tokens
            + compaction::history_tokens(messages.skip(known.message_len as int)) + said.tokens()
            <= usize::MAX,
        baseline is None ==> compaction::history_tokens(messages) + said.tokens() <= usize::MAX,
    ensures
        used_tokens(messages.push(said), baseline) == used_tokens(messages, baseline)
            + said.tokens(),
        baseline matches Some(known) ==> used_tokens(
            messages.take(known.message_len as int),
            baseline,
        ) == known.input_tokens,
{
    let more = messages.push(said);
    assert(more.drop_last() =~= messages);
    if let Some(known) = baseline {
        let n = known.message_len as int;
        assert(more.skip(n).drop_last() =~= messages.skip(n));
        assert(more.skip(n).last() == said);
        assert(messages.take(n).skip(n) =~= Seq::<MessageView>::empty());
    }
}

} // verus!
