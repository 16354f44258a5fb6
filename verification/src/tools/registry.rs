//! The registry of tools: their definitions, their timeouts, and the limit on
//! what they give back.
use crate::agent::change::FileChange;
use crate::json;
use crate::json::Json;
use crate::json::JsonView;
use crate::memory::record::MemoryPointer;
use crate::provider::DefinitionView;
use crate::provider::ToolDefinition;
use crate::text;
use crate::textmap;
use crate::textmap::TextMap;
use crate::textmap::TextOrder;
use vstd::prelude::*;
use vstd::string::*;

verus! {

/// Tool execution result. `output` is fed back to the model; `change`
/// carries the file mutation captured by `write`/`edit` for consumers that
/// render diffs, and never enters the model context.
#[derive(Debug, PartialEq, Eq)]
pub struct ToolOutcome {
    pub output: String,
    pub change: Option<FileChange>,
    pub memory: Option<MemoryPointer>,
}

impl ToolOutcome {
    pub fn output_only(output: String) -> (r: ToolOutcome)
        ensures
            r.output == output,
            r.change is None,
            r.memory is None,
    {
        ToolOutcome { output, change: None, memory: None }
    }
}

// ---------------------------------------------------------------------------
// Output
// ---------------------------------------------------------------------------

/// How many characters of a long output are kept of its start.
pub open spec fn head_chars(max_chars: nat) -> nat {
    max_chars * 7 / 10
}

/// What is shown of an output: all of it up to so many characters; of a longer
/// one that many, from both its ends, with a note between them of what was left
/// out.
pub open spec fn truncated(output: Seq<char>, max_chars: nat) -> Seq<char> {
    if output.len() <= max_chars {
        output
    } else {
        let head = head_chars(max_chars);
        let tail = (max_chars - head) as nat;
        output.take(head as int) + "\n\n[truncated: "@ + text::decimal(
            (output.len() - max_chars) as nat,
        ) + " of "@ + text::decimal(output.len()) + " characters omitted]\n\n"@ + output.skip(
            output.len() - tail,
        )
    }
}

/// What is shown of an output: a longer one keeps both its ends.
pub fn truncate_output(output: String, max_chars: usize) -> (r: String)
    ensures
        r@ == truncated(output@, max_chars as nat),
{
    let count: usize = text::char_count(output.as_str());
    if count <= max_chars {
        return output;
    }
    let head: usize = ((max_chars as u128) * 7 / 10) as usize;
    let tail: usize = max_chars - head;
    let mut r = text::substring(output.as_str(), 0, head);
    let end = text::substring(output.as_str(), count - tail, count);
    assert(r@ =~= output@.take(head as int));
    assert(end@ =~= output@.skip(output@.len() - tail));
    let omitted = text::decimal_of((count - max_chars) as u64);
    let total = text::decimal_of(count as u64);
    r.append("\n\n[truncated: ");
    r.append(omitted.as_str());
    r.append(" of ");
    r.append(total.as_str());
    r.append(" characters omitted]\n\n");
    r.append(end.as_str());
    r
}

/// A truncated output begins and ends as the whole one does, and what it has of
/// it is as much as is allowed.
pub proof fn law_truncation_keeps_both_ends(output: Seq<char>, max_chars: nat)
    requires
        output.len() > max_chars,
    ensures
        ({
            let shown = truncated(output, max_chars);
            let head = head_chars(max_chars) as int;
            let tail = max_chars - head;
            &&& 0 <= head <= max_chars
            &&& shown.len() >= max_chars
            &&& shown.take(head) == output.take(head)
            &&& shown.skip(shown.len() - tail) == output.skip(output.len() - tail)
        }),
{
    let shown = truncated(output, max_chars);
    let head = head_chars(max_chars) as int;
    let tail = max_chars - head;
    assert(shown.take(head) =~= output.take(head));
    assert(shown.skip(shown.len() - tail) =~= output.skip(output.len() - tail));
}

// ---------------------------------------------------------------------------
// Timeouts
// ---------------------------------------------------------------------------

/// The timeout that arguments ask for, in seconds, or what is wrong with it.
pub open spec fn timeout_of(arguments: JsonView, default: u64) -> Result<u64, Seq<char>> {
    match arguments.get("timeout_seconds"@) {
        None => Ok(default),
        Some(value) => match value.unsigned() {
            None => Err("timeout_seconds must be a positive integer"@),
            Some(seconds) => if seconds == 0 {
                Err("timeout_seconds must be greater than zero"@)
            } else {
                Ok(seconds)
            },
        },
    }
}

/// The timeout that arguments ask for, in seconds.
pub fn timeout_from_arguments(arguments: &Json, default: u64) -> (r: Result<u64, String>)
    ensures
        match (r, timeout_of(arguments@, default)) {
            (Ok(seconds), Ok(wanted)) => seconds == wanted,
            (Err(message), Err(complaint)) => message@ == complaint,
            _ => false,
        },
{
    match arguments.get("timeout_seconds") {
        None => Ok(default),
        Some(value) => match value.as_u64() {
            None => Err("timeout_seconds must be a positive integer".to_owned()),
            Some(seconds) => if seconds == 0 {
                Err("timeout_seconds must be greater than zero".to_owned())
            } else {
                Ok(seconds)
            },
        },
    }
}

// ---------------------------------------------------------------------------
// Definitions
// ---------------------------------------------------------------------------

/// What a model is told of the timeout that each tool takes.
pub open spec fn timeout_property(default: u64) -> JsonView {
    JsonView::Object(
        seq![
            (
                "description"@,
                JsonView::Text(
                    "Optional timeout override in seconds; defaults to "@ + text::decimal(
                        default as nat,
                    ),
                ),
            ),
            ("minimum"@, JsonView::Unsigned(1)),
            ("type"@, JsonView::Text("integer"@)),
        ],
    )
}

/// The fields of a schema, with a property more among its properties.
pub open spec fn with_property(
    fields: Seq<(Seq<char>, JsonView)>,
    key: Seq<char>,
    value: JsonView,
) -> Seq<(Seq<char>, JsonView)>
    decreases fields.len(),
{
    if fields.len() == 0 {
        fields
    } else if fields[0].0 == "properties"@ {
        match fields[0].1 {
            JsonView::Object(properties) => fields.update(
                0,
                (
                    "properties"@,
                    JsonView::Object(textmap::inserted(properties, key, value)),
                ),
            ),
            _ => fields,
        }
    } else {
        seq![fields[0]] + with_property(fields.skip(1), key, value)
    }
}

/// A definition as a model is told of it.
pub open spec fn told_definition(
    definition: DefinitionView,
    default_timeout: u64,
    max_output_chars: usize,
) -> DefinitionView {
    DefinitionView {
        name: definition.name,
        description: definition.description + " Defaults to a "@ + text::decimal(
            default_timeout as nat,
        ) + " second timeout; output is truncated to "@ + text::decimal(max_output_chars as nat)
            + " characters."@,
        parameters: match definition.parameters {
            JsonView::Object(fields) => JsonView::Object(
                with_property(fields, "timeout_seconds"@, timeout_property(default_timeout)),
            ),
            other => other,
        },
    }
}

fn timeout_property_of(default: u64) -> (r: Json)
    ensures
        r@ == timeout_property(default),
{
    let seconds = text::decimal_of(default);
    let shown = text::concat(
        "Optional timeout override in seconds; defaults to ",
        seconds.as_str(),
    );
    let mut fields: Vec<(String, Json)> = Vec::new();
    json::push_text(&mut fields, "description", shown.as_str());
    json::push_field(&mut fields, "minimum", Json::Unsigned(1));
    json::push_text(&mut fields, "type", "integer");
    let r = Json::Object(fields);
    assert(r@->Object_0 =~= timeout_property(default)->Object_0);
    r
}

proof fn lemma_inserted_skip(
    fields: Seq<(Seq<char>, JsonView)>,
    key: Seq<char>,
    value: JsonView,
    i: int,
)
    requires
        0 <= i <= fields.len(),
        forall|j: int|
            0 <= j < i ==> (#[trigger] fields[j]).0 != key && !textmap::text_less(key, fields[j].0),
    ensures
        textmap::inserted(fields, key, value) == fields.take(i) + textmap::inserted(
            fields.skip(i),
            key,
            value,
        ),
    decreases i,
{
    if i == 0 {
        assert(fields.skip(0) =~= fields);
        let r = textmap::inserted(fields, key, value);
        assert(fields.take(0) + r =~= r);
    } else {
        assert(fields[0].0 != key && !textmap::text_less(key, fields[0].0));
        let rest = fields.skip(1);
        assert forall|j: int| 0 <= j < i - 1 implies (#[trigger] rest[j]).0 != key
            && !textmap::text_less(key, rest[j].0) by {
            assert(rest[j] == fields[j + 1]);
        }
        lemma_inserted_skip(rest, key, value, i - 1);
        assert(rest.skip(i - 1) =~= fields.skip(i));
        let tail = textmap::inserted(fields.skip(i), key, value);
        assert(seq![fields[0]] + (rest.take(i - 1) + tail) =~= fields.take(i) + tail);
    }
}

/// A copy of `fields` with `key` set to `value`, in the order of the names.
fn insert_field(fields: &Vec<(String, Json)>, key: &str, value: Json) -> (r: Vec<(String, Json)>)
    ensures
        json::fields_view(r@) == textmap::inserted(json::fields_view(fields@), key@, value@),
{
    let ghost model = json::fields_view(fields@);
    proof {
        json::lemma_fields_view(fields@);
    }
    let mut r: Vec<(String, Json)> = Vec::new();
    let mut i: usize = 0;
    let mut replaces = false;
    let mut searching = true;
    let total: usize = fields.len();
    assert(json::fields_view(r@) =~= model.take(0));
    while searching && i < total
        invariant
            i <= fields@.len(),
            total == fields@.len(),
            replaces ==> i < total,
            model.len() == fields@.len(),
            forall|j: int|
                0 <= j < fields@.len() ==> #[trigger] model[j] == (fields@[j].0@, fields@[j].1@),
            json::fields_view(r@) == model.take(i as int),
            forall|j: int|
                0 <= j < i ==> (#[trigger] model[j]).0 != key@ && !textmap::text_less(
                    key@,
                    model[j].0,
                ),
            searching ==> !replaces,
            !searching ==> i < fields@.len(),
            !searching && replaces ==> model[i as int].0 == key@,
            !searching && !replaces ==> model[i as int].0 != key@ && textmap::text_less(
                key@,
                model[i as int].0,
            ),
        decreases fields@.len() - i + (if searching {
            1int
        } else {
            0int
        }),
    {
        match textmap::compare_texts(key, fields[i].0.as_str()) {
            TextOrder::Same => {
                replaces = true;
                searching = false;
            },
            TextOrder::Before => {
                proof {
                    textmap::lemma_text_less_irreflexive(key@);
                }
                searching = false;
            },
            TextOrder::After => {
                proof {
                    textmap::lemma_text_less_irreflexive(key@);
                    if textmap::text_less(key@, model[i as int].0) {
                        textmap::lemma_text_less_transitive(key@, model[i as int].0, key@);
                    }
                }
                let copied = fields[i].1.copy();
                json::push_field(&mut r, fields[i].0.as_str(), copied);
                i = i + 1;
                assert(json::fields_view(r@) =~= model.take(i as int));
            },
        }
    }
    proof {
        lemma_inserted_skip(model, key@, value@, i as int);
        if i < model.len() {
            assert(model.skip(i as int)[0] == model[i as int]);
        }
        textmap::lemma_text_less_irreflexive(key@);
    }
    let ghost front = json::fields_view(r@);
    json::push_field(&mut r, key, value);
    let ghost head = json::fields_view(r@);
    let mut k: usize = if replaces {
        i + 1
    } else {
        i
    };
    let ghost from = k as int;
    assert(head + model.subrange(from, from) =~= head);
    while k < fields.len()
        invariant
            from <= k <= fields@.len(),
            0 <= from,
            model.len() == fields@.len(),
            forall|j: int|
                0 <= j < fields@.len() ==> #[trigger] model[j] == (fields@[j].0@, fields@[j].1@),
            json::fields_view(r@) == head + model.subrange(from, k as int),
        decreases fields@.len() - k,
    {
        let copied = fields[k].1.copy();
        json::push_field(&mut r, fields[k].0.as_str(), copied);
        k = k + 1;
        assert(json::fields_view(r@) =~= head + model.subrange(from, k as int));
    }
    proof {
        let tail = model.skip(i as int);
        if replaces {
            assert(seq![(key@, value@)] + tail.skip(1) =~= textmap::inserted(tail, key@, value@));
            assert(head + model.subrange(from, model.len() as int) =~= front + (seq![
                (key@, value@),
            ] + tail.skip(1)));
        } else {
            assert(textmap::inserted(tail, key@, value@) =~= seq![(key@, value@)] + tail);
            assert(head + model.subrange(from, model.len() as int) =~= front + (seq![
                (key@, value@),
            ] + tail));
        }
    }
    r
}

proof fn lemma_with_property_skip(
    fields: Seq<(Seq<char>, JsonView)>,
    key: Seq<char>,
    value: JsonView,
    i: int,
)
    requires
        0 <= i <= fields.len(),
        forall|j: int| 0 <= j < i ==> (#[trigger] fields[j]).0 != "properties"@,
    ensures
        with_property(fields, key, value) == fields.take(i) + with_property(
            fields.skip(i),
            key,
            value,
        ),
    decreases i,
{
    if i == 0 {
        assert(fields.skip(0) =~= fields);
        let r = with_property(fields, key, value);
        assert(fields.take(0) + r =~= r);
    } else {
        assert(fields[0].0 != "properties"@);
        let rest = fields.skip(1);
        assert forall|j: int| 0 <= j < i - 1 implies (#[trigger] rest[j]).0 != "properties"@ by {
            assert(rest[j] == fields[j + 1]);
        }
        lemma_with_property_skip(rest, key, value, i - 1);
        assert(rest.skip(i - 1) =~= fields.skip(i));
        let tail = with_property(fields.skip(i), key, value);
        assert(seq![fields[0]] + (rest.take(i - 1) + tail) =~= fields.take(i) + tail);
    }
}

/// A copy of the fields of a schema, with a property more.
fn insert_property(fields: &Vec<(String, Json)>, key: &str, value: Json) -> (r: Vec<(String, Json)>)
    ensures
        json::fields_view(r@) == with_property(json::fields_view(fields@), key@, value@),
{
    let ghost model = json::fields_view(fields@);
    proof {
        json::lemma_fields_view(fields@);
    }
    let mut r: Vec<(String, Json)> = Vec::new();
    let mut held: Option<Json> = Some(value);
    let mut open = true;
    let mut i: usize = 0;
    let ghost goal = with_property(model, key@, value@);
    assert(json::fields_view(r@) + with_property(model.skip(0), key@, value@) =~= goal) by {
        assert(model.skip(0) =~= model);
    }
    while i < fields.len()
        invariant
            i <= fields@.len(),
            model.len() == fields@.len(),
            forall|j: int|
                0 <= j < fields@.len() ==> #[trigger] model[j] == (fields@[j].0@, fields@[j].1@),
            open ==> (held matches Some(v) && v@ == value@),
            open ==> json::fields_view(r@) + with_property(model.skip(i as int), key@, value@)
                == goal,
            !open ==> json::fields_view(r@) + model.skip(i as int) == goal,
        decreases fields@.len() - i,
    {
        let ghost rest = model.skip(i as int);
        assert(rest[0] == model[i as int]);
        assert(rest.skip(1) =~= model.skip(i as int + 1));
        let ghost done = json::fields_view(r@);
        let is_properties = open && text::same(fields[i].0.as_str(), "properties");
        if is_properties {
            open = false;
            match &fields[i].1 {
                Json::Object(properties) => {
                    match held.take() {
                        Some(value) => {
                            let more = insert_field(properties, key, value);
                            json::push_field(&mut r, "properties", Json::Object(more));
                        },
                        None => {},
                    }
                },
                other => {
                    let copied = other.copy();
                    json::push_field(&mut r, fields[i].0.as_str(), copied);
                },
            }
            assert(json::fields_view(r@) + model.skip(i as int + 1) =~= done + with_property(
                rest,
                key@,
                value@,
            ));
        } else {
            let copied = fields[i].1.copy();
            json::push_field(&mut r, fields[i].0.as_str(), copied);
            if open {
                assert(json::fields_view(r@) + with_property(
                    model.skip(i as int + 1),
                    key@,
                    value@,
                ) =~= done + (seq![rest[0]] + with_property(rest.skip(1), key@, value@)));
            } else {
                assert(json::fields_view(r@) + model.skip(i as int + 1) =~= done + rest);
            }
        }
        i = i + 1;
    }
    assert(model.skip(model.len() as int) =~= Seq::<(Seq<char>, JsonView)>::empty());
    assert(json::fields_view(r@) + Seq::<(Seq<char>, JsonView)>::empty() =~= json::fields_view(r@));
    r
}

fn tell_definition(definition: &ToolDefinition, default_timeout: u64, max_output_chars: usize) -> (r:
    ToolDefinition)
    ensures
        r@ == told_definition(definition@, default_timeout, max_output_chars),
{
    let seconds = text::decimal_of(default_timeout);
    let chars = text::decimal_of(max_output_chars as u64);
    let mut description = text::concat(definition.description.as_str(), " Defaults to a ");
    description.append(seconds.as_str());
    description.append(" second timeout; output is truncated to ");
    description.append(chars.as_str());
    description.append(" characters.");
    let parameters = match &definition.parameters {
        Json::Object(fields) => Json::Object(
            insert_property(fields, "timeout_seconds", timeout_property_of(default_timeout)),
        ),
        other => other.copy(),
    };
    ToolDefinition { name: definition.name.clone(), description, parameters }
}

/// The tools that a model may call.
pub struct ToolRegistry {
    tools: TextMap<ToolDefinition>,
    default_timeout: u64,
    max_output_chars: usize,
}

/// What a [`ToolRegistry`] holds. The timeout is in seconds.
#[verifier::ext_equal]
pub struct RegistryView {
    pub tools: Seq<(Seq<char>, DefinitionView)>,
    pub default_timeout: u64,
    pub max_output_chars: usize,
}

impl View for ToolRegistry {
    type V = RegistryView;

    closed spec fn view(&self) -> RegistryView {
        RegistryView {
            tools: self.tools@,
            default_timeout: self.default_timeout,
            max_output_chars: self.max_output_chars,
        }
    }
}

impl RegistryView {
    /// The timeout of a call, or why it cannot be made.
    pub open spec fn call(self, name: Seq<char>, arguments: JsonView) -> Result<u64, Seq<char>> {
        if !textmap::has_key(self.tools, name) {
            Err("unknown tool '"@ + name + "'"@)
        } else {
            match timeout_of(arguments, self.default_timeout) {
                Ok(seconds) => Ok(seconds),
                Err(complaint) => Err(
                    "tool '"@ + name + "' received invalid arguments: "@ + complaint,
                ),
            }
        }
    }
}

impl ToolRegistry {
    /// The tools are in order.
    pub closed spec fn wf(&self) -> bool {
        self.tools.wf()
    }

    pub fn new(default_timeout: u64, max_output_chars: usize) -> (r: ToolRegistry)
        ensures
            r.wf(),
            r@ == (RegistryView { tools: Seq::empty(), default_timeout, max_output_chars }),
    {
        ToolRegistry { tools: TextMap::new(), default_timeout, max_output_chars }
    }

    /// Registers a tool under its name.
    pub fn register(&mut self, definition: ToolDefinition)
        requires
            old(self).wf(),
        ensures
            final(self).wf(),
            final(self)@ == (RegistryView {
                tools: textmap::inserted(old(self)@.tools, definition@.name, definition@),
                ..old(self)@
            }),
    {
        let name = definition.name.clone();
        self.tools.insert(name, definition);
    }

    /// The definitions that a model is told of, in the order of their names.
    pub fn definitions(&self) -> (r: Vec<ToolDefinition>)
        ensures
            text::views(r@) == self@.tools.map_values(
                |entry: (Seq<char>, DefinitionView)|
                    told_definition(entry.1, self@.default_timeout, self@.max_output_chars),
            ),
    {
        let ghost goal = self@.tools.map_values(
            |entry: (Seq<char>, DefinitionView)|
                told_definition(entry.1, self@.default_timeout, self@.max_output_chars),
        );
        let mut r: Vec<ToolDefinition> = Vec::new();
        let mut i: usize = 0;
        while i < self.tools.entries.len()
            invariant
                i <= self.tools.entries@.len(),
                goal == self@.tools.map_values(
                    |entry: (Seq<char>, DefinitionView)|
                        told_definition(entry.1, self@.default_timeout, self@.max_output_chars),
                ),
                text::views(r@) == goal.take(i as int),
            decreases self.tools.entries@.len() - i,
        {
            let told = tell_definition(
                &self.tools.entries[i].1,
                self.default_timeout,
                self.max_output_chars,
            );
            assert(self@.tools[i as int].1 == self.tools.entries@[i as int].1@);
            proof {
                text::lemma_views_push(r@, told);
            }
            r.push(told);
            i = i + 1;
            assert(text::views(r@) =~= goal.take(i as int));
        }
        assert(goal.take(goal.len() as int) =~= goal);
        r
    }

    pub fn default_timeout(&self) -> (r: u64)
        ensures
            r == self@.default_timeout,
    {
        self.default_timeout
    }

    /// The timeout that arguments ask for.
    pub fn execution_timeout(&self, arguments: &Json) -> (r: Result<u64, String>)
        ensures
            match (r, timeout_of(arguments@, self@.default_timeout)) {
                (Ok(seconds), Ok(wanted)) => seconds == wanted,
                (Err(message), Err(complaint)) => message@ == complaint,
                _ => false,
            },
    {
        timeout_from_arguments(arguments, self.default_timeout)
    }

    /// The timeout of a call, or why it cannot be made.
    pub fn check_call(&self, name: &str, arguments: &Json) -> (r: Result<u64, String>)
        requires
            self.wf(),
        ensures
            match (r, self@.call(name@, arguments@)) {
                (Ok(seconds), Ok(wanted)) => seconds == wanted,
                (Err(message), Err(complaint)) => message@ == complaint,
                _ => false,
            },
    {
        if !self.tools.contains_key(name) {
            let mut message = text::concat("unknown tool '", name);
            message.append("'");
            return Err(message);
        }
        match timeout_from_arguments(arguments, self.default_timeout) {
            Ok(seconds) => Ok(seconds),
            Err(complaint) => {
                let mut message = text::concat("tool '", name);
                message.append("' received invalid arguments: ");
                message.append(complaint.as_str());
                Err(message)
            },
        }
    }

    /// What is said of a tool that failed.
    pub fn failure(name: &str, cause: &str) -> (r: String)
        ensures
            r@ == "tool '"@ + name@ + "' failed: "@ + cause@,
    {
        let mut message = text::concat("tool '", name);
        message.append("' failed: ");
        message.append(cause);
        message
    }

    /// What a tool gave, within the limit.
    pub fn finish(&self, outcome: ToolOutcome) -> (r: ToolOutcome)
        ensures
            r.output@ == truncated(outcome.output@, self@.max_output_chars as nat),
            r.change == outcome.change,
            r.memory == outcome.memory,
    {
        ToolOutcome {
            output: truncate_output(outcome.output, self.max_output_chars),
            change: outcome.change,
            memory: outcome.memory,
        }
    }
}

/// A long output is cut in one place: what is shown are its first and its last
/// characters, as many as are allowed in all, with a note between them that says
/// how many of how many are missing.
pub proof fn law_truncation_leaves_out_the_middle(output: Seq<char>, max_chars: nat) -> (note: Seq<
    char,
>)
    ensures
        output.len() <= max_chars ==> truncated(output, max_chars) == output,
        output.len() > max_chars ==> {
            let head = (max_chars * 7 / 10) as int;
            let tail = max_chars - head;
            &&& truncated(output, max_chars) == output.take(head) + note + output.skip(
                output.len() - tail,
            )
            &&& note == "\n\n[truncated: "@ + text::decimal((output.len() - max_chars) as nat)
                + " of "@ + text::decimal(output.len()) + " characters omitted]\n\n"@
        },
{
    let note = "\n\n[truncated: "@ + text::decimal((output.len() - max_chars) as nat) + " of "@
        + text::decimal(output.len()) + " characters omitted]\n\n"@;
    if output.len() > max_chars {
        let head = (max_chars * 7 / 10) as int;
        let tail = max_chars - head;
        assert(truncated(output, max_chars) =~= output.take(head) + note + output.skip(
            output.len() - tail,
        ));
    }
    note
}

/// A timeout is what the arguments ask for, or the default where they ask for
/// none; nothing and what is no positive number is refused.
pub proof fn law_timeouts_are_positive(arguments: JsonView, default: u64, seconds: u64)
    ensures
        arguments.get("timeout_seconds"@) is None ==> timeout_of(arguments, default) == Ok::<
            u64,
            Seq<char>,
        >(default),
        arguments.get("timeout_seconds"@) == Some(JsonView::Unsigned(seconds)) && seconds > 0
            ==> timeout_of(arguments, default) == Ok::<u64, Seq<char>>(seconds),
        arguments.get("timeout_seconds"@) == Some(JsonView::Unsigned(0)) ==> timeout_of(
            arguments,
            default,
        ) is Err,
        arguments.get("timeout_seconds"@) is Some && !(arguments.get(
            "timeout_seconds"@,
        )->Some_0 is Unsigned) ==> timeout_of(arguments, default) is Err,
        default > 0 && timeout_of(arguments, default) is Ok ==> timeout_of(arguments, default)->Ok_0
            > 0,
{
}

/// A tool is told to a model under its name, with the properties that it has and
/// one more, its timeout; the rest of its schema stays as it is.
pub proof fn law_told_definition_adds_the_timeout(
    definition: DefinitionView,
    fields: Seq<(Seq<char>, JsonView)>,
    properties: Seq<(Seq<char>, JsonView)>,
    default_timeout: u64,
    max_output_chars: usize,
    key: Seq<char>,
)
    requires
        definition.parameters == JsonView::Object(fields),
        definition.parameters.get("properties"@) == Some(JsonView::Object(properties)),
        textmap::sorted(properties),
    ensures
        ({
            let told = told_definition(definition, default_timeout, max_output_chars);
            &&& told.name == definition.name
            &&& told.description.len() >= definition.description.len()
            &&& told.description.take(definition.description.len() as int)
                == definition.description
            &&& key != "properties"@ ==> told.parameters.get(key) == definition.parameters.get(key)
            &&& (told.parameters.get("properties"@) matches Some(JsonView::Object(more))
                && JsonView::Object(more).get("timeout_seconds"@) == Some(
                timeout_property(default_timeout),
            ) && (key != "timeout_seconds"@ ==> JsonView::Object(more).get(key)
                == JsonView::Object(properties).get(key)))
        }),
{
    let told = told_definition(definition, default_timeout, max_output_chars);
    let value = timeout_property(default_timeout);
    assert(told.description.take(definition.description.len() as int) =~= definition.description);
    lemma_with_property(fields, properties, "timeout_seconds"@, value, key);
    let more = textmap::inserted(properties, "timeout_seconds"@, value);
    textmap::lemma_inserted(properties, "timeout_seconds"@, value);
    json::lemma_field_is_lookup(more, "timeout_seconds"@);
    json::lemma_field_is_lookup(more, key);
    json::lemma_field_is_lookup(properties, key);
}

proof fn lemma_with_property(
    fields: Seq<(Seq<char>, JsonView)>,
    properties: Seq<(Seq<char>, JsonView)>,
    name: Seq<char>,
    value: JsonView,
    key: Seq<char>,
)
    requires
        json::field(fields, "properties"@) == Some(JsonView::Object(properties)),
    ensures
        json::field(with_property(fields, name, value), "properties"@) == Some(
            JsonView::Object(textmap::inserted(properties, name, value)),
        ),
        key != "properties"@ ==> json::field(with_property(fields, name, value), key)
            == json::field(fields, key),
    decreases fields.len(),
{
    let next = with_property(fields, name, value);
    if fields.len() > 0 {
        let rest = fields.skip(1);
        if fields[0].0 == "properties"@ {
            assert(next.skip(1) =~= rest);
        } else {
            lemma_with_property(rest, properties, name, value, key);
            assert(next.skip(1) =~= with_property(rest, name, value));
        }
    }
}

/// A tool that was registered is there, whatever else was, and takes calls with
/// a timeout that is in order; a name that no tool has is refused.
pub proof fn law_registered_tools_take_calls(
    registry: RegistryView,
    definition: DefinitionView,
    other: Seq<char>,
    arguments: JsonView,
)
    requires
        textmap::sorted(registry.tools),
    ensures
        ({
            let next = RegistryView {
                tools: textmap::inserted(registry.tools, definition.name, definition),
                ..registry
            };
            &&& textmap::lookup(next.tools, definition.name) == Some(definition)
            &&& other != definition.name ==> textmap::lookup(next.tools, other)
                == textmap::lookup(registry.tools, other)
            &&& arguments.get("timeout_seconds"@) is None ==> next.call(
                definition.name,
                arguments,
            ) == Ok::<u64, Seq<char>>(registry.default_timeout)
            &&& next.call(other, arguments) is Ok ==> textmap::lookup(next.tools, other) is Some
        }),
{
    textmap::lemma_inserted(registry.tools, definition.name, definition);
    let tools = textmap::inserted(registry.tools, definition.name, definition);
}

} // verus!
