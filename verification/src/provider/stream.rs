//! Server-sent events: lines of data, and the streams of the two protocols.
use crate::agent::message::ToolCall;
use crate::agent::message::ToolCallView;
use crate::json;
use crate::json::Json;
use crate::json::JsonView;
use crate::text;
use vstd::prelude::*;
use vstd::slice::slice_subrange;
use vstd::string::*;

verus! {

// ---------------------------------------------------------------------------
// Lines
// ---------------------------------------------------------------------------

/// The bytes of `data:`.
pub open spec fn data_prefix() -> Seq<u8> {
    seq![0x64u8, 0x61u8, 0x74u8, 0x61u8, 0x3au8]
}

/// The bytes of `[DONE]`.
pub open spec fn done_mark() -> Seq<u8> {
    seq![0x5bu8, 0x44u8, 0x4fu8, 0x4eu8, 0x45u8, 0x5du8]
}

/// A line without the carriage return at its end.
pub open spec fn without_cr(line: Seq<u8>) -> Seq<u8> {
    if line.len() > 0 && line.last() == 0x0du8 {
        line.drop_last()
    } else {
        line
    }
}

pub open spec fn has_data_prefix(line: Seq<u8>) -> bool {
    line.len() >= 5 && line.take(5) == data_prefix()
}

/// The data that a line carries, where it carries any that counts.
pub open spec fn line_data(line: Seq<u8>) -> Option<Seq<u8>> {
    let line = without_cr(line);
    if has_data_prefix(line) {
        let rest = line.skip(5);
        let data = if rest.len() > 0 && rest[0] == 0x20u8 {
            rest.skip(1)
        } else {
            rest
        };
        if data.len() == 0 || data == done_mark() {
            None
        } else {
            Some(data)
        }
    } else {
        None
    }
}

/// Whether a line begins with `data:`.
pub fn starts_with_data(line: &[u8]) -> (r: bool)
    ensures
        r == has_data_prefix(line@),
{
    if line.len() < 5 {
        return false;
    }
    let r = line[0] == 0x64 && line[1] == 0x61 && line[2] == 0x74 && line[3] == 0x61 && line[4]
        == 0x3a;
    proof {
        if r {
            assert(line@.take(5) =~= data_prefix());
        } else {
            assert(line@.take(5)[0] == line@[0]);
            assert(line@.take(5)[1] == line@[1]);
            assert(line@.take(5)[2] == line@[2]);
            assert(line@.take(5)[3] == line@[3]);
            assert(line@.take(5)[4] == line@[4]);
        }
    }
    r
}

fn is_done(data: &[u8]) -> (r: bool)
    ensures
        r == (data@ == done_mark()),
{
    if data.len() != 6 {
        return false;
    }
    let r = data[0] == 0x5b && data[1] == 0x44 && data[2] == 0x4f && data[3] == 0x4e && data[4]
        == 0x45 && data[5] == 0x5d;
    proof {
        if r {
            assert(data@ =~= done_mark());
        }
    }
    r
}

/// The data that a line carries, where it carries any that counts.
pub fn data_of_line(line: &[u8]) -> (r: Option<&[u8]>)
    ensures
        match r {
            Some(data) => line_data(line@) == Some(data@),
            None => line_data(line@) is None,
        },
{
    let total: usize = line.len();
    let end: usize = if total > 0 && line[total - 1] == 0x0d {
        total - 1
    } else {
        total
    };
    let plain = slice_subrange(line, 0, end);
    assert(plain@ =~= without_cr(line@));
    if !starts_with_data(plain) {
        return None;
    }
    let from: usize = if end > 5 && plain[5] == 0x20 {
        6
    } else {
        5
    };
    let data = slice_subrange(plain, from, end);
    proof {
        let rest = plain@.skip(5);
        if rest.len() > 0 {
            assert(rest[0] == plain@[5]);
        }
        if from == 6 {
            assert(data@ =~= rest.skip(1));
        } else {
            assert(data@ =~= rest);
        }
    }
    if data.len() == 0 || is_done(data) {
        None
    } else {
        Some(data)
    }
}

/// The lines of a body: what stands between its line feeds, the last one
/// without a line feed after it.
pub open spec fn byte_lines(body: Seq<u8>) -> Seq<Seq<u8>>
    decreases body.len(),
{
    if body.len() == 0 {
        seq![Seq::<u8>::empty()]
    } else {
        let before = byte_lines(body.drop_last());
        if body.last() == 0x0au8 {
            before.push(Seq::empty())
        } else {
            before.update(before.len() - 1, before.last().push(body.last()))
        }
    }
}

// ---------------------------------------------------------------------------
// Chat Completions: one line
// ---------------------------------------------------------------------------

/// A piece of a tool call.
pub struct CallDelta {
    pub index: usize,
    pub id: Option<String>,
    pub name: Option<String>,
    pub arguments: Option<String>,
}

/// What a [`CallDelta`] holds.
pub struct CallDeltaView {
    pub index: usize,
    pub id: Option<Seq<char>>,
    pub name: Option<Seq<char>>,
    pub arguments: Option<Seq<char>>,
}

impl View for CallDelta {
    type V = CallDeltaView;

    open spec fn view(&self) -> CallDeltaView {
        CallDeltaView {
            index: self.index,
            id: text::opt(self.id),
            name: text::opt(self.name),
            arguments: text::opt(self.arguments),
        }
    }
}

/// A piece of an answer.
pub struct StreamDelta {
    pub content: Option<String>,
    pub reasoning_content: Option<String>,
    pub reasoning: Option<String>,
    pub thinking: Option<String>,
    pub reasoning_details: Option<Vec<Json>>,
    pub thinking_blocks: Option<Vec<Json>>,
    pub provider_blocks: Option<Vec<Json>>,
    pub tool_calls: Vec<CallDelta>,
}

/// What a [`StreamDelta`] holds.
pub struct DeltaView {
    pub content: Option<Seq<char>>,
    pub reasoning_content: Option<Seq<char>>,
    pub reasoning: Option<Seq<char>>,
    pub thinking: Option<Seq<char>>,
    pub reasoning_details: Option<Seq<JsonView>>,
    pub thinking_blocks: Option<Seq<JsonView>>,
    pub provider_blocks: Option<Seq<JsonView>>,
    pub tool_calls: Seq<CallDeltaView>,
}

impl View for StreamDelta {
    type V = DeltaView;

    open spec fn view(&self) -> DeltaView {
        DeltaView {
            content: text::opt(self.content),
            reasoning_content: text::opt(self.reasoning_content),
            reasoning: text::opt(self.reasoning),
            thinking: text::opt(self.thinking),
            reasoning_details: json::list_view(self.reasoning_details),
            thinking_blocks: json::list_view(self.thinking_blocks),
            provider_blocks: json::list_view(self.provider_blocks),
            tool_calls: text::views(self.tool_calls@),
        }
    }
}

/// A piece of a tool call as it is sent.
pub open spec fn call_delta_of(value: JsonView) -> Option<CallDeltaView> {
    let value = value.seated(seq!["index", "id", "function"], 3);
    let function = match value.get("function"@) {
        None => Some((None, None)),
        Some(JsonView::Null) => Some((None, None)),
        Some(function) => {
            let function = function.seated(seq!["name", "arguments"], 2);
            match (
                function is Object,
                function.maybe_text("name"@),
                function.maybe_text("arguments"@),
            ) {
                (true, Some(name), Some(arguments)) => Some((name, arguments)),
                _ => None,
            }
        },
    };
    match (
        value.need_number("index"@, usize::MAX as u64),
        value.maybe_text("id"@),
        function,
    ) {
        (Some(index), Some(id), Some((name, arguments))) => Some(
            CallDeltaView { index: index as usize, id, name, arguments },
        ),
        _ => None,
    }
}

pub open spec fn call_deltas_of(items: Seq<JsonView>) -> Option<Seq<CallDeltaView>>
    decreases items.len(),
{
    if items.len() == 0 {
        Some(Seq::empty())
    } else {
        match (call_deltas_of(items.drop_last()), call_delta_of(items.last())) {
            (Some(deltas), Some(delta)) => Some(deltas.push(delta)),
            _ => None,
        }
    }
}

/// The thinking blocks among the fields that are the provider's own.
pub open spec fn provider_blocks_of(delta: JsonView) -> Option<Seq<JsonView>> {
    match delta.get("provider_specific_fields"@) {
        Some(fields) => match fields.get("thinking_blocks"@) {
            Some(JsonView::Array(blocks)) => Some(blocks),
            _ => None,
        },
        None => None,
    }
}

/// The fields of a piece of an answer.
pub open spec fn delta_names() -> Seq<&'static str> {
    seq![
        "content",
        "reasoning_content",
        "reasoning",
        "thinking",
        "reasoning_details",
        "thinking_blocks",
        "provider_specific_fields",
        "tool_calls",
    ]
}

/// A piece of an answer as it is sent.
pub open spec fn delta_of(value: JsonView) -> Option<DeltaView> {
    let value = value.seated(delta_names(), 8);
    let calls = match value.maybe_list("tool_calls"@) {
        None => None,
        Some(None) => Some(Seq::empty()),
        Some(Some(items)) => call_deltas_of(items),
    };
    match (
        value is Object,
        value.maybe_text("content"@),
        value.maybe_text("reasoning_content"@),
        value.maybe_text("reasoning"@),
        value.maybe_text("thinking"@),
        value.maybe_list("reasoning_details"@),
        value.maybe_list("thinking_blocks"@),
        calls,
    ) {
        (
            true,
            Some(content),
            Some(reasoning_content),
            Some(reasoning),
            Some(thinking),
            Some(reasoning_details),
            Some(thinking_blocks),
            Some(tool_calls),
        ) => Some(
            DeltaView {
                content,
                reasoning_content,
                reasoning,
                thinking,
                reasoning_details,
                thinking_blocks,
                provider_blocks: provider_blocks_of(value),
                tool_calls,
            },
        ),
        _ => None,
    }
}

pub open spec fn choice_delta_of(choice: JsonView) -> Option<DeltaView> {
    match choice.seated(seq!["delta"], 1).get("delta"@) {
        Some(delta) => delta_of(delta),
        None => None,
    }
}

pub open spec fn choice_deltas_of(items: Seq<JsonView>) -> Option<Seq<DeltaView>>
    decreases items.len(),
{
    if items.len() == 0 {
        Some(Seq::empty())
    } else {
        match (choice_deltas_of(items.drop_last()), choice_delta_of(items.last())) {
            (Some(deltas), Some(delta)) => Some(deltas.push(delta)),
            _ => None,
        }
    }
}

/// The pieces that a chunk carries.
pub open spec fn chunk_deltas(value: JsonView) -> Option<Seq<DeltaView>> {
    let value = value.seated(seq!["choices"], 0);
    match (value is Object, value.get("choices"@)) {
        (true, None) => Some(Seq::empty()),
        (true, Some(JsonView::Array(items))) => choice_deltas_of(items),
        _ => None,
    }
}

fn call_delta_from(value: &Json) -> (r: Option<CallDelta>)
    ensures
        text::opt(r) == call_delta_of(value@),
{
    let names: Vec<&'static str> = vec!["index", "id", "function"];
    assert(names@ =~= seq!["index", "id", "function"]);
    let seat = value.seat(&names, 3);
    let value = match &seat {
        Some(seat) => seat,
        None => value,
    };
    let mut name: Option<String> = None;
    let mut arguments: Option<String> = None;
    match value.get("function") {
        None => {},
        Some(Json::Null) => {},
        Some(function) => {
            let names: Vec<&'static str> = vec!["name", "arguments"];
            assert(names@ =~= seq!["name", "arguments"]);
            let seat = function.seat(&names, 2);
            let function = match &seat {
                Some(seat) => seat,
                None => function,
            };
            match function {
                Json::Object(_) => {},
                _ => {
                    return None;
                },
            }
            match (function.maybe_text("name"), function.maybe_text("arguments")) {
                (Some(n), Some(a)) => {
                    name = n;
                    arguments = a;
                },
                _ => {
                    return None;
                },
            }
        },
    }
    let index: u64 = match value.need_number("index", usize::MAX as u64) {
        Some(index) => index,
        None => {
            return None;
        },
    };
    match value.maybe_text("id") {
        Some(id) => Some(CallDelta { index: index as usize, id, name, arguments }),
        None => None,
    }
}

fn call_deltas_from(items: &Vec<Json>) -> (r: Option<Vec<CallDelta>>)
    ensures
        match r {
            Some(deltas) => call_deltas_of(json::items_view(items@)) == Some(text::views(deltas@)),
            None => call_deltas_of(json::items_view(items@)) is None,
        },
{
    let ghost model = json::items_view(items@);
    proof {
        json::lemma_items_view(items@);
    }
    let mut deltas: Vec<CallDelta> = Vec::new();
    let mut sound = true;
    let mut i: usize = 0;
    assert(text::views(deltas@) =~= Seq::<CallDeltaView>::empty());
    while i < items.len()
        invariant
            i <= items@.len(),
            model.len() == items@.len(),
            forall|j: int| 0 <= j < items@.len() ==> #[trigger] model[j] == items@[j]@,
            sound ==> call_deltas_of(model.take(i as int)) == Some(text::views(deltas@)),
            !sound ==> call_deltas_of(model.take(i as int)) is None,
        decreases items@.len() - i,
    {
        assert(model.take(i as int + 1).drop_last() =~= model.take(i as int));
        assert(model.take(i as int + 1).last() == items@[i as int]@);
        match call_delta_from(&items[i]) {
            None => {
                sound = false;
            },
            Some(delta) => {
                proof {
                    text::lemma_views_push(deltas@, delta);
                }
                deltas.push(delta);
            },
        }
        i = i + 1;
    }
    assert(model.take(model.len() as int) =~= model);
    if sound {
        Some(deltas)
    } else {
        None
    }
}

fn provider_blocks_from(delta: &Json) -> (r: Option<Vec<Json>>)
    ensures
        json::list_view(r) == provider_blocks_of(delta@),
{
    match delta.get("provider_specific_fields") {
        Some(fields) => match fields.get("thinking_blocks") {
            Some(Json::Array(blocks)) => Some(json::copy_items(blocks)),
            _ => None,
        },
        None => None,
    }
}

fn delta_from(value: &Json) -> (r: Option<StreamDelta>)
    ensures
        text::opt(r) == delta_of(value@),
{
    let names: Vec<&'static str> = vec![
        "content",
        "reasoning_content",
        "reasoning",
        "thinking",
        "reasoning_details",
        "thinking_blocks",
        "provider_specific_fields",
        "tool_calls",
    ];
    assert(names@ =~= delta_names());
    let seat = value.seat(&names, 8);
    let value = match &seat {
        Some(seat) => seat,
        None => value,
    };
    match value {
        Json::Object(_) => {},
        _ => {
            return None;
        },
    }
    let tool_calls = match value.maybe_list("tool_calls") {
        None => {
            return None;
        },
        Some(None) => {
            let calls: Vec<CallDelta> = Vec::new();
            assert(text::views(calls@) =~= Seq::<CallDeltaView>::empty());
            calls
        },
        Some(Some(items)) => match call_deltas_from(&items) {
            Some(calls) => calls,
            None => {
                return None;
            },
        },
    };
    match (
        value.maybe_text("content"),
        value.maybe_text("reasoning_content"),
        value.maybe_text("reasoning"),
        value.maybe_text("thinking"),
        value.maybe_list("reasoning_details"),
        value.maybe_list("thinking_blocks"),
    ) {
        (
            Some(content),
            Some(reasoning_content),
            Some(reasoning),
            Some(thinking),
            Some(reasoning_details),
            Some(thinking_blocks),
        ) => Some(
            StreamDelta {
                content,
                reasoning_content,
                reasoning,
                thinking,
                reasoning_details,
                thinking_blocks,
                provider_blocks: provider_blocks_from(value),
                tool_calls,
            },
        ),
        _ => None,
    }
}

fn choice_deltas_from(items: &Vec<Json>) -> (r: Option<Vec<StreamDelta>>)
    ensures
        match r {
            Some(deltas) => choice_deltas_of(json::items_view(items@)) == Some(
                text::views(deltas@),
            ),
            None => choice_deltas_of(json::items_view(items@)) is None,
        },
{
    let ghost model = json::items_view(items@);
    proof {
        json::lemma_items_view(items@);
    }
    let mut deltas: Vec<StreamDelta> = Vec::new();
    let mut sound = true;
    let mut i: usize = 0;
    assert(text::views(deltas@) =~= Seq::<DeltaView>::empty());
    while i < items.len()
        invariant
            i <= items@.len(),
            model.len() == items@.len(),
            forall|j: int| 0 <= j < items@.len() ==> #[trigger] model[j] == items@[j]@,
            sound ==> choice_deltas_of(model.take(i as int)) == Some(text::views(deltas@)),
            !sound ==> choice_deltas_of(model.take(i as int)) is None,
        decreases items@.len() - i,
    {
        assert(model.take(i as int + 1).drop_last() =~= model.take(i as int));
        assert(model.take(i as int + 1).last() == items@[i as int]@);
        let names: Vec<&'static str> = vec!["delta"];
        assert(names@ =~= seq!["delta"]);
        let seat = items[i].seat(&names, 1);
        let choice = match &seat {
            Some(seat) => seat,
            None => &items[i],
        };
        let found = match choice.get("delta") {
            Some(delta) => delta_from(delta),
            None => None,
        };
        assert(text::opt(found) == choice_delta_of(items@[i as int]@));
        match found {
            None => {
                sound = false;
            },
            Some(delta) => {
                proof {
                    text::lemma_views_push(deltas@, delta);
                }
                deltas.push(delta);
            },
        }
        i = i + 1;
    }
    assert(model.take(model.len() as int) =~= model);
    if sound {
        Some(deltas)
    } else {
        None
    }
}

/// What the data of a line says, where it is a chunk.
pub open spec fn chunk_in(data: Seq<u8>) -> Option<Seq<DeltaView>> {
    match json::parsed_json(data) {
        Ok(value) => chunk_deltas(value),
        Err(_) => None,
    }
}

pub fn chunk_from(data: &[u8]) -> (r: Option<Vec<StreamDelta>>)
    ensures
        match r {
            Some(deltas) => chunk_in(data@) == Some(text::views(deltas@)),
            None => chunk_in(data@) is None,
        },
{
    match json::parse_json(data) {
        Err(_) => None,
        Ok(value) => {
            let names: Vec<&'static str> = vec!["choices"];
            assert(names@ =~= seq!["choices"]);
            let seat = value.seat(&names, 0);
            let value = match &seat {
                Some(seat) => seat,
                None => &value,
            };
            match value {
                Json::Object(_) => {},
                _ => {
                    return None;
                },
            }
            match value.get("choices") {
                None => {
                    let deltas: Vec<StreamDelta> = Vec::new();
                    assert(text::views(deltas@) =~= Seq::<DeltaView>::empty());
                    Some(deltas)
                },
                Some(Json::Array(items)) => choice_deltas_from(items),
                Some(_) => None,
            }
        },
    }
}

// ---------------------------------------------------------------------------
// Chat Completions: what has come so far
// ---------------------------------------------------------------------------

/// What has come of tool calls so far, in the order of their numbers.
pub struct CallTable {
    entries: Vec<(usize, ToolCall)>,
}

impl View for CallTable {
    type V = Seq<(usize, ToolCallView)>;

    closed spec fn view(&self) -> Seq<(usize, ToolCallView)> {
        Seq::new(self.entries@.len(), |i: int| (self.entries@[i].0, self.entries@[i].1@))
    }
}

pub open spec fn or_empty(s: Option<Seq<char>>) -> Seq<char> {
    match s {
        Some(s) => s,
        None => Seq::empty(),
    }
}

/// A tool call with one piece more.
pub open spec fn call_with(call: ToolCallView, delta: CallDeltaView) -> ToolCallView {
    ToolCallView {
        id: call.id + or_empty(delta.id),
        name: call.name + or_empty(delta.name),
        arguments: call.arguments + or_empty(delta.arguments),
    }
}

pub open spec fn empty_call() -> ToolCallView {
    ToolCallView { id: Seq::empty(), name: Seq::empty(), arguments: Seq::empty() }
}

/// The tool calls with one piece more, which goes to the call of its number.
pub open spec fn calls_with(
    calls: Seq<(usize, ToolCallView)>,
    delta: CallDeltaView,
) -> Seq<(usize, ToolCallView)>
    decreases calls.len(),
{
    if calls.len() == 0 {
        seq![(delta.index, call_with(empty_call(), delta))]
    } else if calls[0].0 == delta.index {
        calls.update(0, (delta.index, call_with(calls[0].1, delta)))
    } else if delta.index < calls[0].0 {
        seq![(delta.index, call_with(empty_call(), delta))] + calls
    } else {
        seq![calls[0]] + calls_with(calls.skip(1), delta)
    }
}

pub open spec fn calls_with_all(
    calls: Seq<(usize, ToolCallView)>,
    deltas: Seq<CallDeltaView>,
) -> Seq<(usize, ToolCallView)>
    decreases deltas.len(),
{
    if deltas.len() == 0 {
        calls
    } else {
        calls_with(calls_with_all(calls, deltas.drop_last()), deltas.last())
    }
}

/// The tool calls without their numbers.
pub open spec fn calls_of(calls: Seq<(usize, ToolCallView)>) -> Seq<ToolCallView> {
    Seq::new(calls.len(), |i: int| calls[i].1)
}

proof fn lemma_calls_with_skip(calls: Seq<(usize, ToolCallView)>, delta: CallDeltaView, i: int)
    requires
        0 <= i <= calls.len(),
        forall|j: int| 0 <= j < i ==> (#[trigger] calls[j]).0 < delta.index,
    ensures
        calls_with(calls, delta) == calls.take(i) + calls_with(calls.skip(i), delta),
    decreases i,
{
    if i == 0 {
        assert(calls.skip(0) =~= calls);
        assert(calls.take(0) + calls_with(calls, delta) =~= calls_with(calls, delta));
    } else {
        assert(calls[0].0 < delta.index);
        let rest = calls.skip(1);
        assert forall|j: int| 0 <= j < i - 1 implies (#[trigger] rest[j]).0 < delta.index by {
            assert(rest[j] == calls[j + 1]);
        }
        lemma_calls_with_skip(rest, delta, i - 1);
        assert(rest.skip(i - 1) =~= calls.skip(i));
        assert(seq![calls[0]] + (rest.take(i - 1) + calls_with(calls.skip(i), delta))
            =~= calls.take(i) + calls_with(calls.skip(i), delta));
    }
}

fn append_maybe(target: &mut String, piece: &Option<String>)
    ensures
        final(target)@ == old(target)@ + or_empty(text::opt(*piece)),
{
    match piece {
        Some(piece) => {
            target.append(piece.as_str());
        },
        None => {
            assert(target@ + Seq::<char>::empty() =~= target@);
        },
    }
}

fn call_and_delta(call: &ToolCall, delta: &CallDelta) -> (r: ToolCall)
    ensures
        r@ == call_with(call@, delta@),
{
    let mut r = call.copy();
    append_maybe(&mut r.id, &delta.id);
    append_maybe(&mut r.name, &delta.name);
    append_maybe(&mut r.arguments, &delta.arguments);
    r
}

fn new_call(delta: &CallDelta) -> (r: ToolCall)
    ensures
        r@ == call_with(empty_call(), delta@),
{
    proof {
        reveal_strlit("");
    }
    let call = ToolCall { id: "".to_owned(), name: "".to_owned(), arguments: "".to_owned() };
    assert(call@.id =~= Seq::<char>::empty());
    assert(call@.name =~= Seq::<char>::empty());
    assert(call@.arguments =~= Seq::<char>::empty());
    call_and_delta(&call, delta)
}

impl CallTable {
    pub fn new() -> (r: CallTable)
        ensures
            r@ == Seq::<(usize, ToolCallView)>::empty(),
    {
        let r = CallTable { entries: Vec::new() };
        assert(r@ =~= Seq::<(usize, ToolCallView)>::empty());
        r
    }

    /// Adds a piece to the call of its number.
    pub fn append(&mut self, delta: &CallDelta)
        ensures
            final(self)@ == calls_with(old(self)@, delta@),
    {
        let ghost model = self@;
        let mut i: usize = 0;
        while i < self.entries.len() && self.entries[i].0 < delta.index
            invariant
                i <= self.entries@.len(),
                model == self@,
                model == old(self)@,
                model.len() == self.entries@.len(),
                forall|j: int| 0 <= j < i ==> (#[trigger] model[j]).0 < delta@.index,
            decreases self.entries@.len() - i,
        {
            assert(model[i as int] == (self.entries@[i as int].0, self.entries@[i as int].1@));
            i = i + 1;
        }
        proof {
            lemma_calls_with_skip(model, delta@, i as int);
        }
        if i < self.entries.len() && self.entries[i].0 == delta.index {
            let call = call_and_delta(&self.entries[i].1, delta);
            assert(model.skip(i as int)[0] == model[i as int]);
            self.entries.set(i, (delta.index, call));
            assert(self@ =~= model.take(i as int) + model.skip(i as int).update(
                0,
                (delta@.index, call@),
            ));
        } else {
            let call = new_call(delta);
            if i < self.entries.len() {
                assert(model.skip(i as int)[0] == model[i as int]);
            }
            self.entries.insert(i, (delta.index, call));
            assert(self@ =~= model.take(i as int) + (seq![(delta@.index, call@)] + model.skip(
                i as int,
            )));
            proof {
                if i == model.len() {
                    assert(seq![(delta@.index, call@)] + model.skip(i as int) =~= seq![
                        (delta@.index, call@),
                    ]);
                }
            }
        }
    }

    pub fn append_all(&mut self, deltas: &Vec<CallDelta>)
        ensures
            final(self)@ == calls_with_all(old(self)@, text::views(deltas@)),
    {
        let ghost model = text::views(deltas@);
        let ghost before = self@;
        let mut i: usize = 0;
        while i < deltas.len()
            invariant
                i <= deltas@.len(),
                model == text::views(deltas@),
                self@ == calls_with_all(before, model.take(i as int)),
            decreases deltas@.len() - i,
        {
            assert(model.take(i as int + 1).drop_last() =~= model.take(i as int));
            assert(model.take(i as int + 1).last() == deltas@[i as int]@);
            self.append(&deltas[i]);
            i = i + 1;
        }
        assert(model.take(model.len() as int) =~= model);
    }

    /// The calls, in the order of their numbers.
    pub fn into_calls(self) -> (r: Vec<ToolCall>)
        ensures
            text::views(r@) == calls_of(self@),
    {
        let ghost goal = calls_of(self@);
        let mut r: Vec<ToolCall> = Vec::new();
        let mut i: usize = 0;
        while i < self.entries.len()
            invariant
                i <= self.entries@.len(),
                goal == calls_of(self@),
                text::views(r@) == goal.take(i as int),
            decreases self.entries@.len() - i,
        {
            let call = self.entries[i].1.copy();
            proof {
                text::lemma_views_push(r@, call);
            }
            r.push(call);
            i = i + 1;
            assert(text::views(r@) =~= goal.take(i as int));
        }
        assert(goal.take(goal.len() as int) =~= goal);
        r
    }
}

// ---------------------------------------------------------------------------
// Chat Completions: how calls are put together
// ---------------------------------------------------------------------------

/// What the pieces of one number bring in one of their fields, in the order in
/// which they came.
pub open spec fn joined(
    pieces: Seq<CallDeltaView>,
    index: usize,
    field: spec_fn(CallDeltaView) -> Option<Seq<char>>,
) -> Seq<char>
    decreases pieces.len(),
{
    if pieces.len() == 0 {
        Seq::empty()
    } else {
        let before = joined(pieces.drop_last(), index, field);
        match field(pieces.last()) {
            Some(brought) => if pieces.last().index == index {
                before + brought
            } else {
                before
            },
            None => before,
        }
    }
}

/// Numbers in strictly rising order.
pub open spec fn rising(numbers: Seq<usize>) -> bool {
    forall|j: int, k: int| 0 <= j < k < numbers.len() ==> #[trigger] numbers[j] < #[trigger] numbers[k]
}

/// The numbers that pieces have.
pub open spec fn numbers_of(pieces: Seq<CallDeltaView>) -> Set<usize> {
    Set::new(|n: usize| exists|i: int| 0 <= i < pieces.len() && (#[trigger] pieces[i]).index == n)
}

/// `calls` are what `pieces` come to: one call for each of `numbers`, which are
/// just the numbers that the pieces have, in rising order. A call's ID, name and
/// arguments are those of its pieces, one behind the other.
pub open spec fn put_together(
    pieces: Seq<CallDeltaView>,
    numbers: Seq<usize>,
    calls: Seq<ToolCallView>,
) -> bool {
    &&& rising(numbers)
    &&& forall|i: int| 0 <= i < pieces.len() ==> numbers.contains((#[trigger] pieces[i]).index)
    &&& forall|k: int| 0 <= k < numbers.len() ==> numbers_of(pieces).contains(#[trigger] numbers[k])
    &&& calls.len() == numbers.len()
    &&& forall|k: int|
        0 <= k < calls.len() ==> {
            &&& (#[trigger] calls[k]).id == joined(pieces, numbers[k], |p: CallDeltaView| p.id)
            &&& calls[k].name == joined(pieces, numbers[k], |p: CallDeltaView| p.name)
            &&& calls[k].arguments == joined(
                pieces,
                numbers[k],
                |p: CallDeltaView| p.arguments,
            )
        }
}

spec fn table_numbers(calls: Seq<(usize, ToolCallView)>) -> Seq<usize> {
    Seq::new(calls.len(), |i: int| calls[i].0)
}

proof fn lemma_nothing_joined(
    pieces: Seq<CallDeltaView>,
    index: usize,
    field: spec_fn(CallDeltaView) -> Option<Seq<char>>,
)
    requires
        forall|i: int| 0 <= i < pieces.len() ==> (#[trigger] pieces[i]).index != index,
    ensures
        joined(pieces, index, field) == Seq::<char>::empty(),
    decreases pieces.len(),
{
    if pieces.len() > 0 {
        assert(pieces.last() == pieces[pieces.len() - 1]);
        assert forall|i: int| 0 <= i < pieces.drop_last().len() implies (
            #[trigger] pieces.drop_last()[i]).index != index by {
            assert(pieces.drop_last()[i] == pieces[i]);
        }
        lemma_nothing_joined(pieces.drop_last(), index, field);
    }
}

/// A piece goes to the call of its number, or is put in as a call of its own.
proof fn lemma_calls_with_place(calls: Seq<(usize, ToolCallView)>, delta: CallDeltaView) -> (at:
    int)
    requires
        rising(table_numbers(calls)),
    ensures
        0 <= at <= calls.len(),
        forall|j: int| 0 <= j < at ==> (#[trigger] calls[j]).0 < delta.index,
        at < calls.len() ==> delta.index <= calls[at].0,
        if at < calls.len() && calls[at].0 == delta.index {
            calls_with(calls, delta) == calls.update(
                at,
                (delta.index, call_with(calls[at].1, delta)),
            )
        } else {
            calls_with(calls, delta) == calls.take(at) + seq![
                (delta.index, call_with(empty_call(), delta)),
            ] + calls.skip(at)
        },
    decreases calls.len(),
{
    if calls.len() == 0 || delta.index <= calls[0].0 {
        assert(calls.take(0) + seq![(delta.index, call_with(empty_call(), delta))] + calls.skip(0)
            =~= seq![(delta.index, call_with(empty_call(), delta))] + calls);
        if calls.len() == 0 {
            assert(seq![(delta.index, call_with(empty_call(), delta))] + calls =~= seq![
                (delta.index, call_with(empty_call(), delta)),
            ]);
        }
        0
    } else {
        let rest = calls.skip(1);
        assert forall|j: int, k: int| 0 <= j < k < rest.len() implies #[trigger] table_numbers(
            rest,
        )[j] < #[trigger] table_numbers(rest)[k] by {
            assert(table_numbers(calls)[j + 1] < table_numbers(calls)[k + 1]);
        }
        let at = lemma_calls_with_place(rest, delta);
        assert forall|j: int| 0 <= j < at + 1 implies (#[trigger] calls[j]).0 < delta.index by {
            if j > 0 {
                assert(calls[j] == rest[j - 1]);
            }
        }
        if at < rest.len() {
            assert(rest[at] == calls[at + 1]);
        }
        if at < rest.len() && rest[at].0 == delta.index {
            assert(seq![calls[0]] + rest.update(at, (delta.index, call_with(rest[at].1, delta)))
                =~= calls.update(at + 1, (delta.index, call_with(calls[at + 1].1, delta))));
        } else {
            let entry = seq![(delta.index, call_with(empty_call(), delta))];
            assert(seq![calls[0]] + (rest.take(at) + entry + rest.skip(at)) =~= calls.take(at + 1)
                + entry + calls.skip(at + 1));
        }
        at + 1
    }
}

/// However pieces come, they are put together: there are as many calls as
/// numbers among the pieces, in rising order of these, and every call has the
/// ID, the name and the arguments that the pieces of its number bring, one
/// behind the other in the order in which they came.
pub proof fn law_pieces_are_put_together(pieces: Seq<CallDeltaView>) -> (numbers: Seq<usize>)
    ensures
        put_together(pieces, numbers, calls_of(calls_with_all(Seq::empty(), pieces))),
        numbers_of(pieces).finite(),
        calls_of(calls_with_all(Seq::empty(), pieces)).len() == numbers_of(pieces).len(),
    decreases pieces.len(),
{
    let table = calls_with_all(Seq::empty(), pieces);
    let numbers = lemma_table(pieces);
    assert forall|k: int| 0 <= k < calls_of(table).len() implies (#[trigger] calls_of(table)[k])
        == table[k].1 by {}
    numbers.unique_seq_to_set();
    assert(numbers.to_set() =~= numbers_of(pieces)) by {
        assert forall|n: usize| numbers_of(pieces).contains(n) implies numbers.to_set().contains(
            n,
        ) by {
            let i = choose|i: int| 0 <= i < pieces.len() && (#[trigger] pieces[i]).index == n;
            assert(numbers.contains(pieces[i].index));
        }
    }
    numbers
}

proof fn lemma_table(pieces: Seq<CallDeltaView>) -> (numbers: Seq<usize>)
    ensures
        numbers == table_numbers(calls_with_all(Seq::empty(), pieces)),
        put_together(pieces, numbers, calls_of(calls_with_all(Seq::empty(), pieces))),
    decreases pieces.len(),
{
    let table = calls_with_all(Seq::empty(), pieces);
    let numbers = table_numbers(table);
    if pieces.len() > 0 {
        let before = pieces.drop_last();
        let delta = pieces.last();
        let earlier = calls_with_all(Seq::empty(), before);
        let known = lemma_table(before);
        let at = lemma_calls_with_place(earlier, delta);
        let merged = at < earlier.len() && earlier[at].0 == delta.index;
        if !merged && known.contains(delta.index) {
            let k = choose|k: int| 0 <= k < known.len() && known[k] == delta.index;
            if k < at {
                assert(earlier[k].0 < delta.index);
            } else {
                assert(at < k ==> known[at] < known[k]);
            }
            assert(false);
        }
        assert(numbers[at] == delta.index);
        assert(rising(numbers)) by {
            assert forall|j: int, k: int| 0 <= j < k < numbers.len() implies #[trigger] numbers[j]
                < #[trigger] numbers[k] by {
                if merged {
                    assert(numbers[j] == known[j] && numbers[k] == known[k]);
                } else {
                    if j < at {
                        assert(numbers[j] == known[j] && earlier[j].0 < delta.index);
                    }
                    if k > at {
                        assert(numbers[k] == known[k - 1]);
                    } else if k < at {
                        assert(numbers[k] == known[k]);
                    }
                    if j > at {
                        assert(numbers[j] == known[j - 1]);
                    }
                    if j <= at < k {
                        assert(at < known.len());
                        assert(delta.index < known[at]);
                        assert(at < k - 1 ==> known[at] < known[k - 1]);
                    }
                }
            }
        }
        assert forall|i: int| 0 <= i < pieces.len() implies numbers.contains(
            (#[trigger] pieces[i]).index,
        ) by {
            if i < before.len() {
                assert(before[i] == pieces[i]);
                assert(known.contains(before[i].index));
                let k = choose|k: int| 0 <= k < known.len() && known[k] == before[i].index;
                if merged || k < at {
                    assert(numbers[k] == known[k]);
                } else {
                    assert(numbers[k + 1] == known[k]);
                }
            } else {
                assert(numbers[at] == pieces[i].index);
            }
        }
        assert forall|k: int| 0 <= k < numbers.len() implies numbers_of(pieces).contains(
            #[trigger] numbers[k],
        ) by {
            if k == at {
                assert(pieces[pieces.len() - 1].index == numbers[k]);
            } else {
                let old_k = if merged || k < at {
                    k
                } else {
                    k - 1
                };
                assert(numbers[k] == known[old_k]);
                assert(numbers_of(before).contains(known[old_k]));
                let i = choose|i: int|
                    0 <= i < before.len() && (#[trigger] before[i]).index == known[old_k];
                assert(pieces[i].index == numbers[k]);
            }
        }
        let calls = calls_of(table);
        let first = |p: CallDeltaView| p.id;
        let second = |p: CallDeltaView| p.name;
        let third = |p: CallDeltaView| p.arguments;
        assert forall|k: int| 0 <= k < calls.len() implies {
            &&& (#[trigger] calls[k]).id == joined(pieces, numbers[k], first)
            &&& calls[k].name == joined(pieces, numbers[k], second)
            &&& calls[k].arguments == joined(pieces, numbers[k], third)
        } by {
            if k == at && !merged {
                assert forall|i: int| 0 <= i < before.len() implies (#[trigger] before[i]).index
                    != delta.index by {
                    assert(known.contains(before[i].index));
                }
                lemma_nothing_joined(before, delta.index, first);
                lemma_nothing_joined(before, delta.index, second);
                lemma_nothing_joined(before, delta.index, third);
                assert(calls[k].id =~= joined(pieces, numbers[k], first));
                assert(calls[k].name =~= joined(pieces, numbers[k], second));
                assert(calls[k].arguments =~= joined(pieces, numbers[k], third));
            } else {
                let old_k = if merged || k < at {
                    k
                } else {
                    k - 1
                };
                let old_calls = calls_of(earlier);
                assert(old_calls[old_k] == earlier[old_k].1);
                assert(numbers[k] == known[old_k]);
                if k == at {
                    assert(calls[k] == call_with(old_calls[old_k], delta));
                    assert(calls[k].id =~= joined(pieces, numbers[k], first));
                    assert(calls[k].name =~= joined(pieces, numbers[k], second));
                    assert(calls[k].arguments =~= joined(pieces, numbers[k], third));
                } else {
                    assert(calls[k] == old_calls[old_k]);
                    if !merged {
                        assert(k < at ==> known[old_k] != delta.index);
                    }
                    assert(numbers[k] != delta.index) by {
                        if k < at {
                            assert(numbers[k] < numbers[at]);
                        } else {
                            assert(numbers[at] < numbers[k]);
                        }
                    }
                }
            }
        }
    }
    numbers
}

// ---------------------------------------------------------------------------
// How lines and chunks are read
// ---------------------------------------------------------------------------

/// Lines with a line feed between each two.
pub open spec fn fed_lines(lines: Seq<Seq<u8>>) -> Seq<u8>
    decreases lines.len(),
{
    if lines.len() == 0 {
        Seq::empty()
    } else if lines.len() == 1 {
        lines[0]
    } else {
        fed_lines(lines.drop_last()) + seq![0x0au8] + lines.last()
    }
}

/// The lines of a body with line feeds between them are the body, and no line
/// has a line feed in it.
pub proof fn law_body_is_its_lines(body: Seq<u8>)
    ensures
        byte_lines(body).len() > 0,
        fed_lines(byte_lines(body)) == body,
        forall|k: int|
            0 <= k < byte_lines(body).len() ==> !(#[trigger] byte_lines(body)[k]).contains(0x0au8),
    decreases body.len(),
{
    let lines = byte_lines(body);
    if body.len() == 0 {
        assert(fed_lines(lines) =~= body);
    } else {
        let front = body.drop_last();
        let byte = body.last();
        law_body_is_its_lines(front);
        let before = byte_lines(front);
        let last: int = before.len() - 1;
        assert(body =~= front.push(byte));
        if byte == 0x0au8 {
            assert(lines.drop_last() =~= before);
            assert(fed_lines(lines) =~= body);
        } else {
            assert(lines.drop_last() =~= before.drop_last());
            assert(fed_lines(lines) =~= body);
            assert forall|k: int| 0 <= k < lines.len() implies !(#[trigger] lines[k]).contains(
                0x0au8,
            ) by {
                assert(!before[k].contains(0x0au8));
                if k == last {
                    assert forall|j: int| 0 <= j < lines[k].len() implies lines[k][j]
                        != 0x0au8 by {
                        if j < before[k].len() {
                            assert(before[k].contains(before[k][j]));
                        }
                    }
                }
            }
        }
    }
}

/// A line of data carries what stands behind `data:` and at most one space,
/// whether or not a carriage return ends the line; an empty one and the mark of
/// the end carry nothing, and neither does any other line.
pub proof fn law_data_is_carried(data: Seq<u8>, other: Seq<u8>)
    requires
        data.len() > 0 ==> data[0] != 0x20u8 && data.last() != 0x0du8,
        other.len() < 5 || other[0] != 0x64u8 || other[1] != 0x61u8 || other[2] != 0x74u8
            || other[3] != 0x61u8 || other[4] != 0x3au8,
    ensures
        ({
            let bare = seq![0x64u8, 0x61u8, 0x74u8, 0x61u8, 0x3au8] + data;
            let spaced = seq![0x64u8, 0x61u8, 0x74u8, 0x61u8, 0x3au8, 0x20u8] + data;
            let carried = if data.len() == 0 || data == seq![
                0x5bu8,
                0x44u8,
                0x4fu8,
                0x4eu8,
                0x45u8,
                0x5du8,
            ] {
                None
            } else {
                Some(data)
            };
            &&& line_data(bare) == carried
            &&& line_data(bare.push(0x0du8)) == carried
            &&& line_data(spaced) == carried
            &&& line_data(spaced.push(0x0du8)) == carried
        }),
        line_data(other) is None,
{
    let bare = seq![0x64u8, 0x61u8, 0x74u8, 0x61u8, 0x3au8] + data;
    let spaced = seq![0x64u8, 0x61u8, 0x74u8, 0x61u8, 0x3au8, 0x20u8] + data;
    lemma_carried(bare, data);
    lemma_carried(spaced, data);
    assert(bare.push(0x0du8).drop_last() =~= bare);
    assert(spaced.push(0x0du8).drop_last() =~= spaced);
    let line = without_cr(other);
    if has_data_prefix(line) {
        let head = line.take(5);
        assert(head[0] == other[0] && head[1] == other[1] && head[2] == other[2]);
        assert(head[3] == other[3] && head[4] == other[4]);
    }
}

proof fn lemma_carried(line: Seq<u8>, data: Seq<u8>)
    requires
        data.len() > 0 ==> data[0] != 0x20u8 && data.last() != 0x0du8,
        line == seq![0x64u8, 0x61u8, 0x74u8, 0x61u8, 0x3au8] + data || line == seq![
            0x64u8,
            0x61u8,
            0x74u8,
            0x61u8,
            0x3au8,
            0x20u8,
        ] + data,
    ensures
        without_cr(line) == line,
        line_data(line) == (if data.len() == 0 || data == done_mark() {
            None
        } else {
            Some(data)
        }),
{
    assert(line.take(5) =~= data_prefix());
    let rest = line.skip(5);
    if data.len() > 0 {
        assert(line.last() == data.last());
    }
    if rest.len() == data.len() {
        assert(rest =~= data);
    } else {
        assert(rest.skip(1) =~= data);
    }
}

/// A text that may be missing or null.
pub open spec fn reads_text(value: JsonView, key: Seq<char>, found: Option<Seq<char>>) -> bool {
    match value.get(key) {
        None => found is None,
        Some(JsonView::Null) => found is None,
        Some(JsonView::Text(s)) => found == Some(s),
        Some(_) => false,
    }
}

/// `piece` is what an object says of a tool call.
pub open spec fn reads_call(value: JsonView, piece: CallDeltaView) -> bool {
    &&& value.get("index"@) == Some(JsonView::Unsigned(piece.index as u64))
    &&& reads_text(value, "id"@, piece.id)
    &&& match value.get("function"@) {
        Some(function) => if function is Object {
            reads_text(function, "name"@, piece.name) && reads_text(
                function,
                "arguments"@,
                piece.arguments,
            )
        } else {
            function is Null && piece.name is None && piece.arguments is None
        },
        None => piece.name is None && piece.arguments is None,
    }
}

/// A piece of a tool call that is sent as an object is read as it is.
pub proof fn law_call_pieces_are_read(value: JsonView, piece: CallDeltaView)
    requires
        value is Object,
        reads_call(value, piece),
    ensures
        call_delta_of(value) == Some(piece),
{
}

/// `delta` is what an object says of a message.
pub open spec fn reads_delta(value: JsonView, delta: DeltaView) -> bool {
    &&& reads_text(value, "content"@, delta.content)
    &&& reads_text(value, "reasoning_content"@, delta.reasoning_content)
    &&& reads_text(value, "reasoning"@, delta.reasoning)
    &&& reads_text(value, "thinking"@, delta.thinking)
    &&& value.get("reasoning_details"@) == (match delta.reasoning_details {
        Some(list) => Some(JsonView::Array(list)),
        None => None,
    })
    &&& value.get("thinking_blocks"@) == (match delta.thinking_blocks {
        Some(list) => Some(JsonView::Array(list)),
        None => None,
    })
    &&& match delta.provider_blocks {
        Some(list) => value.get("provider_specific_fields"@) matches Some(fields) && fields.get(
            "thinking_blocks"@,
        ) == Some(JsonView::Array(list)),
        None => value.get("provider_specific_fields"@) is None,
    }
    &&& match value.get("tool_calls"@) {
        Some(JsonView::Array(items)) => items.len() == delta.tool_calls.len() && forall|k: int|
            0 <= k < items.len() ==> (#[trigger] items[k]) is Object && reads_call(
                items[k],
                delta.tool_calls[k],
            ),
        None => delta.tool_calls.len() == 0,
        _ => false,
    }
}

proof fn lemma_call_pieces_are_read(items: Seq<JsonView>, pieces: Seq<CallDeltaView>)
    requires
        items.len() == pieces.len(),
        forall|k: int|
            0 <= k < items.len() ==> (#[trigger] items[k]) is Object && reads_call(
                items[k],
                pieces[k],
            ),
    ensures
        call_deltas_of(items) == Some(pieces),
    decreases items.len(),
{
    if items.len() == 0 {
        assert(pieces =~= Seq::<CallDeltaView>::empty());
    } else {
        let front = items.drop_last();
        assert forall|k: int| 0 <= k < front.len() implies (#[trigger] front[k]) is Object
            && reads_call(front[k], pieces.drop_last()[k]) by {
            assert(front[k] == items[k]);
        }
        lemma_call_pieces_are_read(front, pieces.drop_last());
        assert(items[items.len() - 1] == items.last());
        law_call_pieces_are_read(items.last(), pieces.last());
        assert(pieces =~= pieces.drop_last().push(pieces.last()));
    }
}

/// A chunk is read as it is: one piece for each of its choices, in their order,
/// with every text and every piece of a tool call that the choice brings.
pub proof fn law_chunks_are_read(
    value: JsonView,
    choices: Seq<JsonView>,
    sent: Seq<JsonView>,
    deltas: Seq<DeltaView>,
)
    requires
        value is Object,
        value.get("choices"@) == Some(JsonView::Array(choices)),
        choices.len() == sent.len() == deltas.len(),
        forall|k: int|
            0 <= k < choices.len() ==> (#[trigger] choices[k]) is Object && choices[k].get(
                "delta"@,
            ) == Some(sent[k]),
        forall|k: int|
            0 <= k < choices.len() ==> (#[trigger] sent[k]) is Object && reads_delta(
                sent[k],
                deltas[k],
            ),
    ensures
        chunk_deltas(value) == Some(deltas),
{
    lemma_choices_are_read(choices, sent, deltas);
}

proof fn lemma_choices_are_read(
    choices: Seq<JsonView>,
    sent: Seq<JsonView>,
    deltas: Seq<DeltaView>,
)
    requires
        choices.len() == sent.len() == deltas.len(),
        forall|k: int|
            0 <= k < choices.len() ==> (#[trigger] choices[k]) is Object && choices[k].get(
                "delta"@,
            ) == Some(sent[k]),
        forall|k: int|
            0 <= k < choices.len() ==> (#[trigger] sent[k]) is Object && reads_delta(
                sent[k],
                deltas[k],
            ),
    ensures
        choice_deltas_of(choices) == Some(deltas),
    decreases choices.len(),
{
    if choices.len() == 0 {
        assert(deltas =~= Seq::<DeltaView>::empty());
    } else {
        let last: int = choices.len() - 1;
        let front = choices.drop_last();
        assert forall|k: int| 0 <= k < front.len() implies (#[trigger] front[k]) is Object
            && front[k].get("delta"@) == Some(sent.drop_last()[k]) by {
            assert(front[k] == choices[k]);
        }
        assert forall|k: int| 0 <= k < front.len() implies (
        #[trigger] sent.drop_last()[k]) is Object && reads_delta(
            sent.drop_last()[k],
            deltas.drop_last()[k],
        ) by {
            assert(sent.drop_last()[k] == sent[k]);
        }
        lemma_choices_are_read(front, sent.drop_last(), deltas.drop_last());
        assert(choices[last] is Object && sent[last] is Object);
        let value = sent[last];
        let delta = deltas[last];
        match value.get("tool_calls"@) {
            Some(JsonView::Array(items)) => {
                lemma_call_pieces_are_read(items, delta.tool_calls);
            },
            _ => {
                assert(delta.tool_calls =~= Seq::<CallDeltaView>::empty());
            },
        }
        assert(delta_of(value) == Some(delta));
        assert(deltas =~= deltas.drop_last().push(deltas.last()));
    }
}

} // verus!
