//! What becomes of older messages: outputs are cleared, messages are archived
//! in memory, and turns are summarized.
use crate::agent::compaction;
use crate::agent::message;
use crate::agent::message::Message;
use crate::agent::message::MessageView;
use crate::agent::message::ToolCall;
use crate::agent::message::ToolCallView;
use crate::agent::state::Agent;
use crate::json;
use crate::json::Json;
use crate::json::JsonView;
use crate::memory::config::MemoryMode;
use crate::memory::ids;
use crate::memory::pointers;
use crate::memory::record::MemoryPointer;
use crate::memory::record::PointerView;
use crate::memory::runtime;
use crate::memory::runtime::MemoryRuntime;
use crate::session;
use crate::text;
use vstd::prelude::*;
use vstd::string::*;
use vstd::utf8::*;

verus! {

// ---------------------------------------------------------------------------
// Clearing
// ---------------------------------------------------------------------------

/// How many of the messages are results of tools.
pub open spec fn tool_results(messages: Seq<MessageView>) -> nat
    decreases messages.len(),
{
    if messages.len() == 0 {
        0
    } else if messages.last() is Tool {
        tool_results(messages.drop_last()) + 1
    } else {
        tool_results(messages.drop_last())
    }
}

/// Memory, where there is any, as something to look at.
pub open spec fn shared(memory: &Option<MemoryRuntime>) -> Option<&MemoryRuntime> {
    match memory {
        Some(memory) => Some(memory),
        None => None,
    }
}

pub open spec fn is_cleared(content: Seq<char>) -> bool {
    text::starts_with(content, "[tool output cleared"@)
}

/// What an older output is replaced by, where it is: a citation where memory
/// works by pointers and knows one of its IDs, else a note.
pub open spec fn cleared(content: Seq<char>, memory: Option<&MemoryRuntime>) -> Option<Seq<char>> {
    if content.len() <= compaction::PRUNE_MIN_CHARS || is_cleared(content) {
        None
    } else {
        match memory {
            Some(memory) if memory.config.mode != MemoryMode::Summary =>
                match compaction::first_known(memory, ids::ids_in(content)) {
                Some(p) => Some(pointers::citation_text(p)),
                None => None,
            },
            _ => Some(
                "[tool output cleared to free context: "@ + text::decimal(content.len())
                    + " chars]"@,
            ),
        }
    }
}

/// What message number `i` becomes where all but the last few results of tools
/// are cleared.
pub open spec fn pruned_at(
    messages: Seq<MessageView>,
    memory: Option<&MemoryRuntime>,
    i: int,
) -> Option<Seq<char>> {
    match messages[i] {
        MessageView::Tool { content, .. } => if tool_results(messages.take(i))
            + compaction::PRUNE_KEEP_TOOL_RESULTS < tool_results(messages) {
            cleared(content, memory)
        } else {
            None
        },
        _ => None,
    }
}

/// The first `n` messages, with older outputs cleared.
pub open spec fn pruned(
    messages: Seq<MessageView>,
    memory: Option<&MemoryRuntime>,
    n: nat,
) -> Seq<MessageView>
    decreases n,
{
    if n == 0 {
        Seq::empty()
    } else {
        let i = n - 1;
        pruned(messages, memory, (n - 1) as nat).push(
            match (pruned_at(messages, memory, i), messages[i]) {
                (Some(content), MessageView::Tool { tool_call_id, .. }) => MessageView::Tool {
                    tool_call_id,
                    content,
                },
                _ => messages[i],
            },
        )
    }
}

/// How many of the first `n` messages are cleared.
pub open spec fn pruned_count(
    messages: Seq<MessageView>,
    memory: Option<&MemoryRuntime>,
    n: nat,
) -> nat
    decreases n,
{
    if n == 0 {
        0
    } else if pruned_at(messages, memory, n - 1) is Some {
        pruned_count(messages, memory, (n - 1) as nat) + 1
    } else {
        pruned_count(messages, memory, (n - 1) as nat)
    }
}

proof fn lemma_tool_results_bounded(messages: Seq<MessageView>)
    ensures
        tool_results(messages) <= messages.len(),
    decreases messages.len(),
{
    if messages.len() > 0 {
        lemma_tool_results_bounded(messages.drop_last());
    }
}

proof fn lemma_pruned_len(messages: Seq<MessageView>, memory: Option<&MemoryRuntime>, n: nat)
    ensures
        pruned(messages, memory, n).len() == n,
        pruned_count(messages, memory, n) <= n,
    decreases n,
{
    if n > 0 {
        lemma_pruned_len(messages, memory, (n - 1) as nat);
    }
}

fn tool_results_of(messages: &Vec<Message>) -> (r: usize)
    ensures
        r == tool_results(text::views(messages@)),
{
    let ghost model = text::views(messages@);
    let mut count: usize = 0;
    let mut i: usize = 0;
    assert(model.take(0) =~= Seq::<MessageView>::empty());
    while i < messages.len()
        invariant
            i <= messages@.len(),
            model == text::views(messages@),
            count == tool_results(model.take(i as int)),
            count <= i,
        decreases messages@.len() - i,
    {
        assert(model.take(i as int + 1).drop_last() =~= model.take(i as int));
        assert(model.take(i as int + 1).last() == messages@[i as int]@);
        match &messages[i] {
            Message::Tool { .. } => {
                count = count + 1;
            },
            _ => {},
        }
        i = i + 1;
    }
    assert(model.take(model.len() as int) =~= model);
    count
}

fn cleared_of(content: &str, memory: Option<&MemoryRuntime>) -> (r: Option<String>)
    requires
        memory matches Some(memory) ==> memory.wf(),
    ensures
        text::opt(r) == cleared(content@, memory),
{
    let chars: usize = text::char_count(content);
    if chars <= compaction::PRUNE_MIN_CHARS || text::starts_with_of(
        content,
        "[tool output cleared",
    ) {
        return None;
    }
    match memory {
        Some(memory) => {
            let by_pointer = match memory.mode() {
                MemoryMode::Summary => false,
                _ => true,
            };
            if by_pointer {
                return match compaction::first_known_of(memory, content) {
                    Some(pointer) => Some(pointers::citation(&pointer)),
                    None => None,
                };
            }
        },
        None => {},
    }
    let count = text::decimal_of(chars as u64);
    let mut note = text::concat("[tool output cleared to free context: ", count.as_str());
    note.append(" chars]");
    Some(note)
}

/// Clears older, large outputs of tools; the last few stay. Says how many were
/// cleared.
pub fn prune_tool_outputs(messages: &mut Vec<Message>, memory: Option<&MemoryRuntime>) -> (r: usize)
    requires
        memory matches Some(memory) ==> memory.wf(),
    ensures
        text::views(final(messages)@) == pruned(
            text::views(old(messages)@),
            memory,
            old(messages)@.len(),
        ),
        r == pruned_count(text::views(old(messages)@), memory, old(messages)@.len()),
{
    let ghost model = text::views(messages@);
    let total: usize = tool_results_of(messages);
    let mut seen: usize = 0;
    let mut count: usize = 0;
    let mut i: usize = 0;
    proof {
        lemma_tool_results_bounded(model);
    }
    assert(model.take(0) =~= Seq::<MessageView>::empty());
    assert(pruned(model, memory, 0) + model.skip(0) =~= model);
    while i < messages.len()
        invariant
            i <= messages@.len(),
            messages@.len() == model.len(),
            memory matches Some(memory) ==> memory.wf(),
            total == tool_results(model),
            total <= model.len(),
            seen == tool_results(model.take(i as int)),
            seen <= i,
            count == pruned_count(model, memory, i as nat),
            count <= i,
            text::views(messages@) == pruned(model, memory, i as nat) + model.skip(i as int),
        decreases messages@.len() - i,
    {
        proof {
            lemma_pruned_len(model, memory, i as nat);
            assert(model.take(i as int + 1).drop_last() =~= model.take(i as int));
            assert(model.take(i as int + 1).last() == model[i as int]);
            assert(text::views(messages@)[i as int] == model[i as int]);
            assert(messages@[i as int]@ == model[i as int]);
        }
        let ghost so_far = text::views(messages@);
        let old_enough = seen < total && total - seen > compaction::PRUNE_KEEP_TOOL_RESULTS;
        let mut replacement: Option<Message> = None;
        let mut is_tool = false;
        match &messages[i] {
            Message::Tool { tool_call_id, content } => {
                is_tool = true;
                if old_enough {
                    match cleared_of(content.as_str(), memory) {
                        Some(shorter) => {
                            replacement = Some(
                                Message::Tool {
                                    tool_call_id: tool_call_id.clone(),
                                    content: shorter,
                                },
                            );
                        },
                        None => {},
                    }
                }
            },
            _ => {},
        }
        if is_tool {
            seen = seen + 1;
        }
        match replacement {
            Some(shorter) => {
                messages.set(i, shorter);
                count = count + 1;
                assert(text::views(messages@) =~= so_far.update(i as int, shorter@));
            },
            None => {},
        }
        assert(text::views(messages@) =~= pruned(model, memory, (i + 1) as nat) + model.skip(
            i as int + 1,
        ));
        i = i + 1;
    }
    proof {
        lemma_pruned_len(model, memory, model.len());
        assert(pruned(model, memory, model.len()) + model.skip(model.len() as int) =~= pruned(
            model,
            memory,
            model.len(),
        ));
    }
    count
}

/// Clearing leaves the last results of tools and everything that is no result
/// of a tool as it was.
pub proof fn law_pruning_keeps_the_rest(
    messages: Seq<MessageView>,
    memory: Option<&MemoryRuntime>,
    i: int,
)
    requires
        0 <= i < messages.len(),
    ensures
        pruned(messages, memory, messages.len()).len() == messages.len(),
        !(messages[i] is Tool) ==> pruned(messages, memory, messages.len())[i] == messages[i],
        tool_results(messages.skip(i)) <= compaction::PRUNE_KEEP_TOOL_RESULTS ==> pruned(
            messages,
            memory,
            messages.len(),
        )[i] == messages[i],
{
    lemma_pruned_len(messages, memory, messages.len());
    lemma_pruned_index(messages, memory, messages.len(), i);
    lemma_tool_results_split(messages, i);
}

/// Whether what is cleared is cited from memory.
pub open spec fn cites(memory: Option<&MemoryRuntime>) -> bool {
    match memory {
        Some(memory) => memory.config.mode != MemoryMode::Summary,
        None => false,
    }
}

/// Clearing a second time clears nothing and changes nothing: a note is left
/// alone, and so is a citation, as long as it is short enough to count as one.
pub proof fn law_pruning_is_done_at_once(
    messages: Seq<MessageView>,
    memory: Option<&MemoryRuntime>,
)
    requires
        cites(memory) ==> forall|i: int|
            0 <= i < messages.len() && #[trigger] pruned_at(messages, memory, i) is Some
                ==> pruned_at(messages, memory, i)->0.len() <= compaction::PRUNE_MIN_CHARS,
    ensures
        ({
            let once = pruned(messages, memory, messages.len());
            pruned_count(once, memory, once.len()) == 0 && pruned(once, memory, once.len()) == once
        }),
{
    let once = pruned(messages, memory, messages.len());
    lemma_pruned_len(messages, memory, messages.len());
    assert forall|i: int| 0 <= i < once.len() implies #[trigger] pruned_at(once, memory, i)
        is None by {
        lemma_pruned_index(messages, memory, messages.len(), i);
        lemma_tool_results_kept(messages, memory, i as nat);
        lemma_tool_results_kept(messages, memory, messages.len());
        assert(once.take(once.len() as int) =~= once);
        assert(messages.take(messages.len() as int) =~= messages);
        if let Some(content) = pruned_at(messages, memory, i) {
            if content.len() > compaction::PRUNE_MIN_CHARS {
                lemma_note_is_cleared(messages[i]->Tool_content.len());
            }
        }
    }
    lemma_nothing_pruned(once, memory, once.len());
    assert(once.take(once.len() as int) =~= once);
}

proof fn lemma_note_is_cleared(n: nat)
    ensures
        is_cleared("[tool output cleared to free context: "@ + text::decimal(n) + " chars]"@),
{
    reveal_strlit("[tool output cleared");
    reveal_strlit("[tool output cleared to free context: ");
    let note = "[tool output cleared to free context: "@ + text::decimal(n) + " chars]"@;
    let start = "[tool output cleared"@;
    assert(note.subrange(0, start.len() as int) =~= start);
}

/// The results of tools stay where they are.
proof fn lemma_tool_results_kept(
    messages: Seq<MessageView>,
    memory: Option<&MemoryRuntime>,
    n: nat,
)
    requires
        n <= messages.len(),
    ensures
        tool_results(pruned(messages, memory, messages.len()).take(n as int)) == tool_results(
            messages.take(n as int),
        ),
    decreases n,
{
    let once = pruned(messages, memory, messages.len());
    lemma_pruned_len(messages, memory, messages.len());
    if n > 0 {
        lemma_tool_results_kept(messages, memory, (n - 1) as nat);
        lemma_pruned_index(messages, memory, messages.len(), n - 1);
        assert(once.take(n as int).drop_last() =~= once.take(n - 1));
        assert(messages.take(n as int).drop_last() =~= messages.take(n - 1));
    }
}

proof fn lemma_nothing_pruned(messages: Seq<MessageView>, memory: Option<&MemoryRuntime>, n: nat)
    requires
        n <= messages.len(),
        forall|i: int| 0 <= i < messages.len() ==> #[trigger] pruned_at(messages, memory, i) is None,
    ensures
        pruned_count(messages, memory, n) == 0,
        pruned(messages, memory, n) == messages.take(n as int),
    decreases n,
{
    if n > 0 {
        lemma_nothing_pruned(messages, memory, (n - 1) as nat);
        assert(pruned_at(messages, memory, n - 1) is None);
        assert(messages.take(n - 1).push(messages[n - 1]) =~= messages.take(n as int));
    } else {
        assert(messages.take(0) =~= Seq::<MessageView>::empty());
    }
}

proof fn lemma_pruned_index(
    messages: Seq<MessageView>,
    memory: Option<&MemoryRuntime>,
    n: nat,
    i: int,
)
    requires
        0 <= i < n <= messages.len(),
    ensures
        pruned(messages, memory, n).len() == n,
        pruned_at(messages, memory, i) is None ==> pruned(messages, memory, n)[i] == messages[i],
        pruned_at(messages, memory, i) matches Some(content) ==> messages[i] is Tool && pruned(
            messages,
            memory,
            n,
        )[i] == (MessageView::Tool { tool_call_id: messages[i]->tool_call_id, content }),
    decreases n,
{
    lemma_pruned_len(messages, memory, n);
    lemma_pruned_len(messages, memory, (n - 1) as nat);
    if i < n - 1 {
        lemma_pruned_index(messages, memory, (n - 1) as nat, i);
    }
}

proof fn lemma_tool_results_split(messages: Seq<MessageView>, i: int)
    requires
        0 <= i <= messages.len(),
    ensures
        tool_results(messages) == tool_results(messages.take(i)) + tool_results(messages.skip(i)),
    decreases messages.len(),
{
    if i == messages.len() {
        assert(messages.take(i) =~= messages);
        assert(messages.skip(i) =~= Seq::<MessageView>::empty());
    } else {
        let front = messages.drop_last();
        lemma_tool_results_split(front, i);
        assert(front.take(i) =~= messages.take(i));
        assert(messages.skip(i).drop_last() =~= front.skip(i));
        assert(messages.skip(i).last() == messages.last());
    }
}

// ---------------------------------------------------------------------------
// Tool calls
// ---------------------------------------------------------------------------

/// The last of `calls` with the ID.
pub open spec fn call_among(calls: Seq<ToolCallView>, id: Seq<char>) -> Option<ToolCallView>
    decreases calls.len(),
{
    if calls.len() == 0 {
        None
    } else if calls.last().id == id {
        Some(calls.last())
    } else {
        call_among(calls.drop_last(), id)
    }
}

/// The last call with the ID.
pub open spec fn call_with_id(messages: Seq<MessageView>, id: Seq<char>) -> Option<ToolCallView>
    decreases messages.len(),
{
    if messages.len() == 0 {
        None
    } else {
        let found = match messages.last() {
            MessageView::Assistant { tool_calls, .. } => call_among(tool_calls, id),
            _ => None,
        };
        match found {
            Some(call) => Some(call),
            None => call_with_id(messages.drop_last(), id),
        }
    }
}

/// The arguments of a call, null where they are no JSON.
pub open spec fn arguments_of(arguments: Seq<char>) -> JsonView {
    match json::parsed_json(encode_utf8(arguments)) {
        Ok(value) => value,
        Err(_) => JsonView::Null,
    }
}

pub fn parse_arguments(arguments: &str) -> (r: Json)
    ensures
        r@ == arguments_of(arguments@),
{
    match json::parse_json(arguments.as_bytes()) {
        Ok(value) => value,
        Err(_) => Json::Null,
    }
}

fn call_among_of<'a>(calls: &'a Vec<ToolCall>, id: &str) -> (r: Option<&'a ToolCall>)
    ensures
        match r {
            Some(call) => call_among(text::views(calls@), id@) == Some(call@),
            None => call_among(text::views(calls@), id@) is None,
        },
{
    let ghost model = text::views(calls@);
    let mut n: usize = calls.len();
    assert(model.take(n as int) =~= model);
    while n > 0
        invariant
            n <= calls@.len(),
            model == text::views(calls@),
            call_among(model, id@) == call_among(model.take(n as int), id@),
        decreases n,
    {
        assert(model.take(n as int).last() == calls@[n - 1]@);
        assert(model.take(n as int).drop_last() =~= model.take(n - 1));
        if text::same(calls[n - 1].id.as_str(), id) {
            return Some(&calls[n - 1]);
        }
        n = n - 1;
    }
    None
}

/// The last call with the ID.
pub fn find_call<'a>(messages: &'a Vec<Message>, id: &str) -> (r: Option<&'a ToolCall>)
    ensures
        match r {
            Some(call) => call_with_id(text::views(messages@), id@) == Some(call@),
            None => call_with_id(text::views(messages@), id@) is None,
        },
{
    let ghost model = text::views(messages@);
    let mut n: usize = messages.len();
    assert(model.take(n as int) =~= model);
    while n > 0
        invariant
            n <= messages@.len(),
            model == text::views(messages@),
            call_with_id(model, id@) == call_with_id(model.take(n as int), id@),
        decreases n,
    {
        assert(model.take(n as int).last() == messages@[n - 1]@);
        assert(model.take(n as int).drop_last() =~= model.take(n - 1));
        match &messages[n - 1] {
            Message::Assistant { tool_calls, .. } => match call_among_of(tool_calls, id) {
                Some(call) => {
                    return Some(call);
                },
                None => {},
            },
            _ => {},
        }
        n = n - 1;
    }
    None
}

// ---------------------------------------------------------------------------
// Archiving
// ---------------------------------------------------------------------------

/// What is to be stored of a message.
pub enum ArchiveStep {
    /// Nothing.
    Skip,
    /// Nothing: memory has it already.
    Known(MemoryPointer),
    /// What the user or the assistant said.
    Message { role: String, content: String },
    /// What a tool gave.
    ToolResult { name: String, arguments: Json, content: String },
}

/// What an [`ArchiveStep`] holds.
pub enum ArchiveView {
    Skip,
    Known(PointerView),
    Message { role: Seq<char>, content: Seq<char> },
    ToolResult { name: Seq<char>, arguments: JsonView, content: Seq<char> },
}

impl View for ArchiveStep {
    type V = ArchiveView;

    open spec fn view(&self) -> ArchiveView {
        match *self {
            ArchiveStep::Skip => ArchiveView::Skip,
            ArchiveStep::Known(pointer) => ArchiveView::Known(pointer@),
            ArchiveStep::Message { role, content } => ArchiveView::Message {
                role: role@,
                content: content@,
            },
            ArchiveStep::ToolResult { name, arguments, content } => ArchiveView::ToolResult {
                name: name@,
                arguments: arguments@,
                content: content@,
            },
        }
    }
}

/// A message as memory stores it.
pub open spec fn message_text(message: MessageView) -> Seq<char> {
    json::pretty_text(session::message_json(message), Seq::empty())
}

/// A message as memory stores it.
pub fn message_record_text(message: &Message) -> (r: String)
    ensures
        r@ == message_text(message@),
{
    let value = session::message_to_json(message);
    proof {
        reveal_strlit("");
        assert(""@ =~= Seq::<char>::empty());
    }
    value.to_pretty_text("")
}

/// What is to be stored of a user's or an assistant's message.
pub open spec fn spoken(message: MessageView) -> ArchiveView {
    match message {
        MessageView::User { content } => ArchiveView::Message { role: "user"@, content },
        MessageView::Assistant { .. } => ArchiveView::Message {
            role: "assistant"@,
            content: message_text(message),
        },
        _ => ArchiveView::Skip,
    }
}

/// What is to be stored of a message that is about to be summarized.
pub open spec fn archived(
    messages: Seq<MessageView>,
    memory: &MemoryRuntime,
    message: MessageView,
) -> ArchiveView {
    match compaction::first_known(memory, ids::ids_in(message.content())) {
        Some(p) => ArchiveView::Known(p),
        None => match message {
            MessageView::Tool { tool_call_id, content } => match call_with_id(
                messages,
                tool_call_id,
            ) {
                Some(call) => if runtime::is_control(call.name) || is_cleared(content) {
                    ArchiveView::Skip
                } else {
                    ArchiveView::ToolResult {
                        name: call.name,
                        arguments: arguments_of(call.arguments),
                        content,
                    }
                },
                None => ArchiveView::Skip,
            },
            _ => spoken(message),
        },
    }
}

/// Whether the result of a tool is to be stored when memory is told of a
/// conversation.
pub open spec fn unstored(
    messages: Seq<MessageView>,
    memory: &MemoryRuntime,
    message: MessageView,
) -> ArchiveView {
    match message {
        MessageView::Tool { tool_call_id, content } => if compaction::first_known(
            memory,
            ids::ids_in(content),
        ) is Some || is_cleared(content) {
            ArchiveView::Skip
        } else {
            match call_with_id(messages, tool_call_id) {
                Some(call) => if runtime::is_control(call.name) {
                    ArchiveView::Skip
                } else {
                    ArchiveView::ToolResult {
                        name: call.name,
                        arguments: arguments_of(call.arguments),
                        content,
                    }
                },
                None => ArchiveView::Skip,
            }
        },
        _ => ArchiveView::Skip,
    }
}

fn spoken_of(message: &Message) -> (r: ArchiveStep)
    ensures
        r@ == spoken(message@),
{
    match message {
        Message::User { content } => ArchiveStep::Message {
            role: "user".to_owned(),
            content: content.clone(),
        },
        Message::Assistant { .. } => ArchiveStep::Message {
            role: "assistant".to_owned(),
            content: message_record_text(message),
        },
        _ => ArchiveStep::Skip,
    }
}

impl Agent {
    /// How many messages are to be archived before a compaction that keeps
    /// `keep_turns` turns: those before the first of the kept turns.
    pub fn archive_end(&self, keep_turns: usize) -> (r: usize)
        requires
            keep_turns > 0 || compaction::user_positions(text::views(self.messages@)).len() == 0,
        ensures
            r == archive_limit(text::views(self.messages@), keep_turns as nat),
            r <= self.messages@.len(),
    {
        let users = compaction::user_indices(&self.messages);
        let ghost model = text::views(self.messages@);
        proof {
            compaction::lemma_user_positions(model);
            assert(compaction::as_nats(users@).len() == users@.len());
        }
        if users.len() <= keep_turns {
            return 0;
        }
        let at: usize = users.len() - keep_turns;
        assert(compaction::as_nats(users@)[at as int] == users@[at as int]);
        users[at]
    }

    /// What is to be stored of message number `index` that is about to be
    /// summarized.
    pub fn archive_step(&self, index: usize) -> (r: ArchiveStep)
        requires
            self.wf(),
            index < self.messages@.len(),
        ensures
            r@ == match self.memory {
                Some(memory) => archived(
                    text::views(self.messages@),
                    &memory,
                    text::views(self.messages@)[index as int],
                ),
                None => ArchiveView::Skip,
            },
            r matches ArchiveStep::Known(pointer) ==> pointer.wf(),
    {
        let memory = match &self.memory {
            Some(memory) => memory,
            None => {
                return ArchiveStep::Skip;
            },
        };
        let message = &self.messages[index];
        assert(text::views(self.messages@)[index as int] == message@);
        match compaction::first_known_of(memory, message.content()) {
            Some(pointer) => {
                return ArchiveStep::Known(pointer);
            },
            None => {},
        }
        match message {
            Message::Tool { tool_call_id, content } => match find_call(
                &self.messages,
                tool_call_id.as_str(),
            ) {
                Some(call) => {
                    if MemoryRuntime::is_control_tool(call.name.as_str()) || text::starts_with_of(
                        content.as_str(),
                        "[tool output cleared",
                    ) {
                        ArchiveStep::Skip
                    } else {
                        ArchiveStep::ToolResult {
                            name: call.name.clone(),
                            arguments: parse_arguments(call.arguments.as_str()),
                            content: content.clone(),
                        }
                    }
                },
                None => ArchiveStep::Skip,
            },
            _ => spoken_of(message),
        }
    }

    /// What is to be stored of what was said in message number `index` when
    /// memory is told of the conversation.
    pub fn initial_step(&self, index: usize) -> (r: ArchiveStep)
        requires
            index < self.messages@.len(),
        ensures
            r@ == match self.memory {
                Some(_) => spoken(text::views(self.messages@)[index as int]),
                None => ArchiveView::Skip,
            },
    {
        match &self.memory {
            Some(_) => {
                assert(text::views(self.messages@)[index as int] == self.messages@[index as int]@);
                spoken_of(&self.messages[index])
            },
            None => ArchiveStep::Skip,
        }
    }

    /// What is to be stored of the result of a tool in message number `index`
    /// when memory is told of the conversation.
    pub fn initial_result_step(&self, index: usize) -> (r: ArchiveStep)
        requires
            self.wf(),
            index < self.messages@.len(),
        ensures
            r@ == match self.memory {
                Some(memory) => unstored(
                    text::views(self.messages@),
                    &memory,
                    text::views(self.messages@)[index as int],
                ),
                None => ArchiveView::Skip,
            },
    {
        let memory = match &self.memory {
            Some(memory) => memory,
            None => {
                return ArchiveStep::Skip;
            },
        };
        let message = &self.messages[index];
        assert(text::views(self.messages@)[index as int] == message@);
        match message {
            Message::Tool { tool_call_id, content } => {
                let known = compaction::first_known_of(memory, content.as_str());
                if known.is_some() || text::starts_with_of(
                    content.as_str(),
                    "[tool output cleared",
                ) {
                    return ArchiveStep::Skip;
                }
                match find_call(&self.messages, tool_call_id.as_str()) {
                    Some(call) => if MemoryRuntime::is_control_tool(call.name.as_str()) {
                        ArchiveStep::Skip
                    } else {
                        ArchiveStep::ToolResult {
                            name: call.name.clone(),
                            arguments: parse_arguments(call.arguments.as_str()),
                            content: content.clone(),
                        }
                    },
                    None => ArchiveStep::Skip,
                }
            },
            _ => ArchiveStep::Skip,
        }
    }

    /// Shows the result of a tool in message number `index` as memory shows
    /// what it stored of `content`, unless the message has changed since.
    pub fn adopt_result(&mut self, index: usize, content: &str, pointer: &MemoryPointer)
        requires
            old(self).wf(),
            pointer.wf(),
        ensures
            final(self).wf(),
            final(self).same_settings(old(self)),
            final(self).usage_baseline == old(self).usage_baseline,
            final(self).memory == old(self).memory,
            text::views(final(self).messages@) == match old(self).memory {
                Some(memory) => adopted(
                    text::views(old(self).messages@),
                    index as int,
                    content@,
                    runtime::rendered(
                        memory.config.mode,
                        memory.config.max_inline_tool_tokens,
                        pointer@,
                        content@,
                    ),
                ),
                None => text::views(old(self).messages@),
            },
    {
        let ghost model = text::views(self.messages@);
        let memory = match &self.memory {
            Some(memory) => memory,
            None => {
                return;
            },
        };
        if index >= self.messages.len() {
            return;
        }
        assert(model[index as int] == self.messages@[index as int]@);
        let replacement = match &self.messages[index] {
            Message::Tool { tool_call_id, content: current } => {
                if text::same(current.as_str(), content) {
                    Some(
                        Message::Tool {
                            tool_call_id: tool_call_id.clone(),
                            content: memory.render_tool_result(pointer, content),
                        },
                    )
                } else {
                    None
                }
            },
            _ => None,
        };
        match replacement {
            Some(shown) => {
                self.messages.set(index, shown);
                assert(text::views(self.messages@) =~= model.update(index as int, shown@));
            },
            None => {},
        }
    }
}

/// The messages with the result of a tool shown anew.
pub open spec fn adopted(
    messages: Seq<MessageView>,
    index: int,
    content: Seq<char>,
    shown: Seq<char>,
) -> Seq<MessageView> {
    if 0 <= index < messages.len() {
        match messages[index] {
            MessageView::Tool { tool_call_id, content: current } => if current == content {
                messages.update(index, MessageView::Tool { tool_call_id, content: shown })
            } else {
                messages
            },
            _ => messages,
        }
    } else {
        messages
    }
}

/// How many messages are archived before a compaction.
pub open spec fn archive_limit(messages: Seq<MessageView>, keep_turns: nat) -> nat {
    if compaction::turn_split(messages, keep_turns).1 == 0 {
        0
    } else {
        compaction::keep_start(messages, keep_turns)
    }
}

// ---------------------------------------------------------------------------
// What is cleared and what is stored
// ---------------------------------------------------------------------------

/// The results of tools are counted one by one.
pub proof fn law_results_are_counted(messages: Seq<MessageView>)
    ensures
        tool_results(messages) == messages.filter(|m: MessageView| m is Tool).len(),
    decreases messages.len(),
{
    reveal(Seq::filter);
    if messages.len() > 0 {
        law_results_are_counted(messages.drop_last());
    }
}

/// A long output that four later results or more follow is cleared, unless it
/// already was: where nothing is cited from memory, a note takes its place that
/// says how long it was. Its call stays the same.
pub proof fn law_old_outputs_are_cleared(
    messages: Seq<MessageView>,
    memory: Option<&MemoryRuntime>,
    i: int,
)
    requires
        0 <= i < messages.len(),
        messages[i] is Tool,
        messages.skip(i + 1).filter(|m: MessageView| m is Tool).len() >= 4,
        messages[i].content().len() > 2_000,
        !text::starts_with(messages[i].content(), "[tool output cleared"@),
        memory is None || memory->0.config.mode == MemoryMode::Summary,
    ensures
        pruned(messages, memory, messages.len()).len() == messages.len(),
        pruned(messages, memory, messages.len())[i] == (MessageView::Tool {
            tool_call_id: messages[i]->tool_call_id,
            content: "[tool output cleared to free context: "@ + text::decimal(
                messages[i].content().len(),
            ) + " chars]"@,
        }),
{
    lemma_pruned_len(messages, memory, messages.len());
    lemma_pruned_index(messages, memory, messages.len(), i);
    lemma_tool_results_split(messages, i);
    lemma_tool_results_split(messages.skip(i), 1);
    law_results_are_counted(messages.skip(i + 1));
    assert(messages.skip(i).skip(1) =~= messages.skip(i + 1));
    assert(messages.skip(i).take(1) =~= seq![messages[i]]);
    assert(messages.skip(i).take(1).drop_last() =~= Seq::<MessageView>::empty());
}

/// An output that is short, or one of the last four, is left as it is; so is
/// everything that is no output. What is counted as cleared is what changed or
/// was replaced.
pub proof fn law_recent_outputs_are_left(
    messages: Seq<MessageView>,
    memory: Option<&MemoryRuntime>,
    i: int,
)
    requires
        0 <= i < messages.len(),
        !(messages[i] is Tool) || messages[i].content().len() <= 2_000 || messages.skip(
            i + 1,
        ).filter(|m: MessageView| m is Tool).len() < 4,
    ensures
        pruned(messages, memory, messages.len()).len() == messages.len(),
        pruned(messages, memory, messages.len())[i] == messages[i],
{
    lemma_pruned_len(messages, memory, messages.len());
    lemma_pruned_index(messages, memory, messages.len(), i);
    lemma_tool_results_split(messages, i);
    lemma_tool_results_split(messages.skip(i), 1);
    law_results_are_counted(messages.skip(i + 1));
    assert(messages.skip(i).skip(1) =~= messages.skip(i + 1));
    let one = messages.skip(i).take(1);
    assert(one =~= seq![messages[i]]);
    assert(one.drop_last() =~= Seq::<MessageView>::empty());
    assert(tool_results(one.drop_last()) == 0);
    assert(tool_results(one) <= 1);
    assert(pruned_at(messages, memory, i) is None);
}

/// Message `i` makes a call with an ID.
pub open spec fn makes_call(
    messages: Seq<MessageView>,
    i: int,
    k: int,
    id: Seq<char>,
) -> bool {
    0 <= i < messages.len() && (messages[i] matches MessageView::Assistant { tool_calls, .. } && 0
        <= k < tool_calls.len() && tool_calls[k].id == id)
}

proof fn lemma_call_among(calls: Seq<ToolCallView>, id: Seq<char>)
    ensures
        match call_among(calls, id) {
            Some(call) => exists|k: int|
                0 <= k < calls.len() && #[trigger] calls[k] == call && call.id == id && forall|
                    j: int,
                |
                    k < j < calls.len() ==> (#[trigger] calls[j]).id != id,
            None => forall|k: int| 0 <= k < calls.len() ==> (#[trigger] calls[k]).id != id,
        },
    decreases calls.len(),
{
    if calls.len() > 0 {
        let last: int = calls.len() - 1;
        assert(calls[last] == calls.last());
        if calls.last().id != id {
            let front = calls.drop_last();
            lemma_call_among(front, id);
            assert forall|k: int| 0 <= k < front.len() implies front[k] == calls[k] by {}
            if let Some(call) = call_among(front, id) {
                let k = choose|k: int|
                    0 <= k < front.len() && #[trigger] front[k] == call && call.id == id && forall|
                        j: int,
                    |
                        k < j < front.len() ==> (#[trigger] front[j]).id != id;
                assert(calls[k] == call);
                assert forall|j: int| k < j < calls.len() implies (#[trigger] calls[j]).id
                    != id by {
                    if j < front.len() {
                        assert(front[j] == calls[j]);
                    }
                }
            } else {
                assert forall|k: int| 0 <= k < calls.len() implies (#[trigger] calls[k]).id
                    != id by {
                    if k < front.len() {
                        assert(front[k] == calls[k]);
                    }
                }
            }
        }
    }
}

/// The call with an ID is found where any message makes one, and it is the one
/// that was made last.
pub proof fn law_last_call_is_found(messages: Seq<MessageView>, id: Seq<char>)
    ensures
        match call_with_id(messages, id) {
            Some(call) => exists|i: int, k: int|
                #[trigger] makes_call(messages, i, k, id) && messages[i]->tool_calls[k] == call
                    && forall|m: int, n: int|
                    #[trigger] makes_call(messages, m, n, id) ==> m < i || m == i && n <= k,
            None => forall|i: int, k: int| !#[trigger] makes_call(messages, i, k, id),
        },
    decreases messages.len(),
{
    if messages.len() > 0 {
        let front = messages.drop_last();
        let last: int = messages.len() - 1;
        law_last_call_is_found(front, id);
        assert forall|i: int, k: int| i < last implies #[trigger] makes_call(messages, i, k, id)
            == makes_call(front, i, k, id) by {
            if 0 <= i {
                assert(front[i] == messages[i]);
            }
        }
        let found = match messages.last() {
            MessageView::Assistant { tool_calls, .. } => call_among(tool_calls, id),
            _ => None,
        };
        if let MessageView::Assistant { tool_calls, .. } = messages.last() {
            lemma_call_among(tool_calls, id);
        }
        if let Some(call) = found {
            let calls = messages.last()->tool_calls;
            let k = choose|k: int|
                0 <= k < calls.len() && #[trigger] calls[k] == call && call.id == id && forall|
                    j: int,
                |
                    k < j < calls.len() ==> (#[trigger] calls[j]).id != id;
            assert(makes_call(messages, last, k, id));
        } else {
            assert forall|k: int| !#[trigger] makes_call(messages, last, k, id) by {}
            if let Some(call) = call_with_id(front, id) {
                let (i, k) = choose|i: int, k: int|
                    #[trigger] makes_call(front, i, k, id) && front[i]->tool_calls[k] == call
                        && forall|m: int, n: int|
                        #[trigger] makes_call(front, m, n, id) ==> m < i || m == i && n <= k;
                assert(makes_call(messages, i, k, id));
                assert(front[i] == messages[i]);
                assert forall|m: int, n: int| #[trigger] makes_call(messages, m, n, id) implies m
                    < i || m == i && n <= k by {
                    assert(m < last);
                    assert(makes_call(front, m, n, id));
                }
            } else {
                assert forall|i: int, k: int| !#[trigger] makes_call(messages, i, k, id) by {
                    if i < last {
                        assert(!makes_call(front, i, k, id));
                    }
                }
            }
        }
    }
}

/// What is about to be summarized is stored, unless memory has it already: what
/// the user said as it is, what the assistant said as it is saved, and what a
/// tool gave, whole, with the name and the arguments of its call. Only results
/// of memory's own tools, cleared ones and those of no call are passed over.
pub proof fn law_messages_are_archived(
    messages: Seq<MessageView>,
    memory: &MemoryRuntime,
    message: MessageView,
)
    requires
        compaction::first_known(memory, ids::ids_in(message.content())) is None,
    ensures
        message is User ==> archived(messages, memory, message) == (ArchiveView::Message {
            role: "user"@,
            content: message.content(),
        }),
        message is Assistant ==> archived(messages, memory, message) == (ArchiveView::Message {
            role: "assistant"@,
            content: json::pretty_text(session::message_json(message), Seq::empty()),
        }),
        message is System ==> archived(messages, memory, message) is Skip,
        message is Tool ==> {
            let call = call_with_id(messages, message->tool_call_id);
            &&& call is Some && !runtime::is_control(call->0.name) && !is_cleared(
                message.content(),
            ) ==> (archived(messages, memory, message) matches ArchiveView::ToolResult {
                name,
                arguments,
                content,
            } && name == call->0.name && content == message.content() && (json::parsed_json(
                encode_utf8(call->0.arguments),
            ) matches Ok(value) ==> arguments == value))
            &&& unstored(messages, memory, message) == archived(messages, memory, message)
        },
{
}

} // verus!
