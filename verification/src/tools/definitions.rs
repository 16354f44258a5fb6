//! What a model is told of each tool.
use crate::json;
use crate::json::Json;
use crate::json::JsonView;
use crate::provider::DefinitionView;
use crate::provider::ToolDefinition;
use crate::text;
use crate::tools::arguments;
use crate::tools::arguments::{Shape, Slot};
use vstd::prelude::*;
use vstd::string::*;

verus! {

// The fields of every object stand in the order of their names.

/// A property of a given type.
pub open spec fn property(kind: Seq<char>, description: Seq<char>) -> JsonView {
    JsonView::Object(
        seq![
            ("description"@, JsonView::Text(description)),
            ("type"@, JsonView::Text(kind)),
        ],
    )
}

/// A number that is at least `minimum` and, where there is one, at most
/// `maximum`.
pub open spec fn bounded_property(
    description: Seq<char>,
    minimum: u64,
    maximum: Option<u64>,
) -> JsonView {
    let described = seq![("description"@, JsonView::Text(description))];
    let capped = match maximum {
        Some(n) => described.push(("maximum"@, JsonView::Unsigned(n))),
        None => described,
    };
    JsonView::Object(
        capped.push(("minimum"@, JsonView::Unsigned(minimum))).push(
            ("type"@, JsonView::Text("integer"@)),
        ),
    )
}

/// A list of texts.
pub open spec fn text_items(names: Seq<Seq<char>>) -> Seq<JsonView> {
    names.map_values(|name: Seq<char>| JsonView::Text(name))
}

/// The schema of what a tool is given.
pub open spec fn schema(
    properties: Seq<(Seq<char>, JsonView)>,
    required: Option<Seq<Seq<char>>>,
) -> JsonView {
    let head = seq![
        ("additionalProperties"@, JsonView::Bool(false)),
        ("properties"@, JsonView::Object(properties)),
    ];
    let needed = match required {
        Some(names) => head.push(("required"@, JsonView::Array(text_items(names)))),
        None => head,
    };
    JsonView::Object(needed.push(("type"@, JsonView::Text("object"@))))
}

fn property_of(kind: &str, description: &str) -> (r: Json)
    ensures
        r@ == property(kind@, description@),
{
    let mut fields: Vec<(String, Json)> = Vec::new();
    json::push_text(&mut fields, "description", description);
    json::push_text(&mut fields, "type", kind);
    let r = Json::Object(fields);
    assert(r@->Object_0 =~= property(kind@, description@)->Object_0);
    r
}

fn bounded_property_of(description: &str, minimum: u64, maximum: Option<u64>) -> (r: Json)
    ensures
        r@ == bounded_property(description@, minimum, maximum),
{
    let mut fields: Vec<(String, Json)> = Vec::new();
    json::push_text(&mut fields, "description", description);
    assert(json::fields_view(fields@) =~= seq![
        ("description"@, JsonView::Text(description@)),
    ]);
    match maximum {
        Some(n) => {
            json::push_field(&mut fields, "maximum", Json::Unsigned(n));
        },
        None => {},
    }
    json::push_field(&mut fields, "minimum", Json::Unsigned(minimum));
    json::push_text(&mut fields, "type", "integer");
    Json::Object(fields)
}

fn schema_of(properties: Vec<(String, Json)>, required: Option<Vec<Json>>) -> (r: Json)
    ensures
        r@ == match required {
            Some(names) => JsonView::Object(
                seq![
                    ("additionalProperties"@, JsonView::Bool(false)),
                    ("properties"@, JsonView::Object(json::fields_view(properties@))),
                    ("required"@, JsonView::Array(json::items_view(names@))),
                    ("type"@, JsonView::Text("object"@)),
                ],
            ),
            None => JsonView::Object(
                seq![
                    ("additionalProperties"@, JsonView::Bool(false)),
                    ("properties"@, JsonView::Object(json::fields_view(properties@))),
                    ("type"@, JsonView::Text("object"@)),
                ],
            ),
        },
{
    let ghost inner = json::fields_view(properties@);
    let mut fields: Vec<(String, Json)> = Vec::new();
    json::push_field(&mut fields, "additionalProperties", Json::Bool(false));
    json::push_field(&mut fields, "properties", Json::Object(properties));
    match required {
        Some(names) => {
            let ghost items = json::items_view(names@);
            json::push_field(&mut fields, "required", Json::Array(names));
            json::push_text(&mut fields, "type", "object");
            assert(json::fields_view(fields@) =~= seq![
                ("additionalProperties"@, JsonView::Bool(false)),
                ("properties"@, JsonView::Object(inner)),
                ("required"@, JsonView::Array(items)),
                ("type"@, JsonView::Text("object"@)),
            ]);
        },
        None => {
            json::push_text(&mut fields, "type", "object");
            assert(json::fields_view(fields@) =~= seq![
                ("additionalProperties"@, JsonView::Bool(false)),
                ("properties"@, JsonView::Object(inner)),
                ("type"@, JsonView::Text("object"@)),
            ]);
        },
    }
    Json::Object(fields)
}

/// The properties of what `bash` is given.
pub open spec fn bash_properties() -> Seq<(Seq<char>, JsonView)> {
    seq![
        (
            "command"@,
            property("string"@, "Shell command to execute"@),
        ),
    ]
}

/// What a model is told of `bash`.
pub fn bash_definition() -> (r: ToolDefinition)
    ensures
        r@ == (DefinitionView {
            name: "bash"@,
            description: "Run other system commands in the working directory. Use grep to search file contents and glob to find files instead of shell search commands."@,
            parameters: schema(bash_properties(), Some(seq!["command"@])),
        }),
{
    let mut properties: Vec<(String, Json)> = Vec::new();
    json::push_field(
        &mut properties,
        "command",
        property_of("string", "Shell command to execute"),
    );
    assert(json::fields_view(properties@) =~= bash_properties());
    let mut required: Vec<Json> = Vec::new();
    json::push_item(&mut required, Json::Text("command".to_owned()));
    assert(json::items_view(required@) =~= text_items(seq!["command"@]));
    let parameters = schema_of(properties, Some(required));
    proof {
        assert(parameters@->Object_0 =~= schema(bash_properties(), Some(seq!["command"@]))->Object_0);
    }
    ToolDefinition {
        name: "bash".to_owned(),
        description: "Run other system commands in the working directory. Use grep to search file contents and glob to find files instead of shell search commands.".to_owned(),
        parameters,
    }
}

/// The properties of what `edit` is given.
pub open spec fn edit_properties() -> Seq<(Seq<char>, JsonView)> {
    seq![
        (
            "new_text"@,
            property("string"@, "Replacement text"@),
        ),
        (
            "old_text"@,
            property("string"@, "Exact text to replace"@),
        ),
        (
            "path"@,
            property("string"@, "File path to edit"@),
        ),
    ]
}

/// What a model is told of `edit`.
pub fn edit_definition() -> (r: ToolDefinition)
    ensures
        r@ == (DefinitionView {
            name: "edit"@,
            description: "Replace one exact text occurrence in a UTF-8 file. Fails if the text is absent or occurs more than once."@,
            parameters: schema(edit_properties(), Some(seq!["path"@, "old_text"@, "new_text"@])),
        }),
{
    let mut properties: Vec<(String, Json)> = Vec::new();
    json::push_field(
        &mut properties,
        "new_text",
        property_of("string", "Replacement text"),
    );
    json::push_field(
        &mut properties,
        "old_text",
        property_of("string", "Exact text to replace"),
    );
    json::push_field(
        &mut properties,
        "path",
        property_of("string", "File path to edit"),
    );
    assert(json::fields_view(properties@) =~= edit_properties());
    let mut required: Vec<Json> = Vec::new();
    json::push_item(&mut required, Json::Text("path".to_owned()));
    json::push_item(&mut required, Json::Text("old_text".to_owned()));
    json::push_item(&mut required, Json::Text("new_text".to_owned()));
    assert(json::items_view(required@) =~= text_items(seq!["path"@, "old_text"@, "new_text"@]));
    let parameters = schema_of(properties, Some(required));
    proof {
        assert(parameters@->Object_0 =~= schema(edit_properties(), Some(seq!["path"@, "old_text"@, "new_text"@]))->Object_0);
    }
    ToolDefinition {
        name: "edit".to_owned(),
        description: "Replace one exact text occurrence in a UTF-8 file. Fails if the text is absent or occurs more than once.".to_owned(),
        parameters,
    }
}

/// The properties of what `read` is given.
pub open spec fn read_properties() -> Seq<(Seq<char>, JsonView)> {
    seq![
        (
            "path"@,
            property("string"@, "File path to read"@),
        ),
    ]
}

/// What a model is told of `read`.
pub fn read_definition() -> (r: ToolDefinition)
    ensures
        r@ == (DefinitionView {
            name: "read"@,
            description: "Read a UTF-8 file. Relative paths resolve from the working directory."@,
            parameters: schema(read_properties(), Some(seq!["path"@])),
        }),
{
    let mut properties: Vec<(String, Json)> = Vec::new();
    json::push_field(
        &mut properties,
        "path",
        property_of("string", "File path to read"),
    );
    assert(json::fields_view(properties@) =~= read_properties());
    let mut required: Vec<Json> = Vec::new();
    json::push_item(&mut required, Json::Text("path".to_owned()));
    assert(json::items_view(required@) =~= text_items(seq!["path"@]));
    let parameters = schema_of(properties, Some(required));
    proof {
        assert(parameters@->Object_0 =~= schema(read_properties(), Some(seq!["path"@]))->Object_0);
    }
    ToolDefinition {
        name: "read".to_owned(),
        description: "Read a UTF-8 file. Relative paths resolve from the working directory.".to_owned(),
        parameters,
    }
}

/// The properties of what `write` is given.
pub open spec fn write_properties() -> Seq<(Seq<char>, JsonView)> {
    seq![
        (
            "content"@,
            property("string"@, "Complete file content"@),
        ),
        (
            "path"@,
            property("string"@, "File path to write"@),
        ),
    ]
}

/// What a model is told of `write`.
pub fn write_definition() -> (r: ToolDefinition)
    ensures
        r@ == (DefinitionView {
            name: "write"@,
            description: "Create or replace a UTF-8 file. Parent directories are created."@,
            parameters: schema(write_properties(), Some(seq!["path"@, "content"@])),
        }),
{
    let mut properties: Vec<(String, Json)> = Vec::new();
    json::push_field(
        &mut properties,
        "content",
        property_of("string", "Complete file content"),
    );
    json::push_field(
        &mut properties,
        "path",
        property_of("string", "File path to write"),
    );
    assert(json::fields_view(properties@) =~= write_properties());
    let mut required: Vec<Json> = Vec::new();
    json::push_item(&mut required, Json::Text("path".to_owned()));
    json::push_item(&mut required, Json::Text("content".to_owned()));
    assert(json::items_view(required@) =~= text_items(seq!["path"@, "content"@]));
    let parameters = schema_of(properties, Some(required));
    proof {
        assert(parameters@->Object_0 =~= schema(write_properties(), Some(seq!["path"@, "content"@]))->Object_0);
    }
    ToolDefinition {
        name: "write".to_owned(),
        description: "Create or replace a UTF-8 file. Parent directories are created.".to_owned(),
        parameters,
    }
}

/// The properties of what `glob` is given.
pub open spec fn glob_properties() -> Seq<(Seq<char>, JsonView)> {
    seq![
        (
            "hidden"@,
            property("boolean"@, "Include hidden files and directories; defaults to false"@),
        ),
        (
            "max_results"@,
            bounded_property(
                    "Maximum paths to return; defaults to 200"@,
                    1,
                    Some(10000),
                ),
        ),
        (
            "path"@,
            property("string"@, "Directory to search; defaults to the working directory"@),
        ),
        (
            "pattern"@,
            property("string"@, "Path glob such as **/*.rs or Cargo.*; a pattern without a slash matches at any depth"@),
        ),
    ]
}

/// What a model is told of `glob`.
pub fn glob_definition() -> (r: ToolDefinition)
    ensures
        r@ == (DefinitionView {
            name: "glob"@,
            description: "Find files and directories by path glob using a pure Rust walker. Use this instead of bash for locating files. Git ignore files are respected when possible."@,
            parameters: schema(glob_properties(), Some(seq!["pattern"@])),
        }),
{
    let mut properties: Vec<(String, Json)> = Vec::new();
    json::push_field(
        &mut properties,
        "hidden",
        property_of("boolean", "Include hidden files and directories; defaults to false"),
    );
    json::push_field(
        &mut properties,
        "max_results",
        bounded_property_of("Maximum paths to return; defaults to 200", 1, Some(10000)),
    );
    json::push_field(
        &mut properties,
        "path",
        property_of("string", "Directory to search; defaults to the working directory"),
    );
    json::push_field(
        &mut properties,
        "pattern",
        property_of("string", "Path glob such as **/*.rs or Cargo.*; a pattern without a slash matches at any depth"),
    );
    assert(json::fields_view(properties@) =~= glob_properties());
    let mut required: Vec<Json> = Vec::new();
    json::push_item(&mut required, Json::Text("pattern".to_owned()));
    assert(json::items_view(required@) =~= text_items(seq!["pattern"@]));
    let parameters = schema_of(properties, Some(required));
    proof {
        assert(parameters@->Object_0 =~= schema(glob_properties(), Some(seq!["pattern"@]))->Object_0);
    }
    ToolDefinition {
        name: "glob".to_owned(),
        description: "Find files and directories by path glob using a pure Rust walker. Use this instead of bash for locating files. Git ignore files are respected when possible.".to_owned(),
        parameters,
    }
}

/// The properties of what `grep` is given.
pub open spec fn grep_properties() -> Seq<(Seq<char>, JsonView)> {
    seq![
        (
            "case_sensitive"@,
            property("boolean"@, "Whether matching is case-sensitive; defaults to true"@),
        ),
        (
            "file_glob"@,
            property("string"@, "Optional glob applied to relative file paths, for example **/*.rs"@),
        ),
        (
            "hidden"@,
            property("boolean"@, "Include hidden files and directories; defaults to false"@),
        ),
        (
            "max_results"@,
            bounded_property(
                    "Maximum matching lines to return; defaults to 100"@,
                    1,
                    Some(10000),
                ),
        ),
        (
            "path"@,
            property("string"@, "File or directory to search; defaults to the working directory"@),
        ),
        (
            "pattern"@,
            property("string"@, "Rust regular expression to search for"@),
        ),
    ]
}

/// What a model is told of `grep`.
pub fn grep_definition() -> (r: ToolDefinition)
    ensures
        r@ == (DefinitionView {
            name: "grep"@,
            description: "Search UTF-8 file contents recursively with a Rust regex. Use this instead of bash for content search. Git ignore files are respected when possible."@,
            parameters: schema(grep_properties(), Some(seq!["pattern"@])),
        }),
{
    let mut properties: Vec<(String, Json)> = Vec::new();
    json::push_field(
        &mut properties,
        "case_sensitive",
        property_of("boolean", "Whether matching is case-sensitive; defaults to true"),
    );
    json::push_field(
        &mut properties,
        "file_glob",
        property_of("string", "Optional glob applied to relative file paths, for example **/*.rs"),
    );
    json::push_field(
        &mut properties,
        "hidden",
        property_of("boolean", "Include hidden files and directories; defaults to false"),
    );
    json::push_field(
        &mut properties,
        "max_results",
        bounded_property_of("Maximum matching lines to return; defaults to 100", 1, Some(10000)),
    );
    json::push_field(
        &mut properties,
        "path",
        property_of("string", "File or directory to search; defaults to the working directory"),
    );
    json::push_field(
        &mut properties,
        "pattern",
        property_of("string", "Rust regular expression to search for"),
    );
    assert(json::fields_view(properties@) =~= grep_properties());
    let mut required: Vec<Json> = Vec::new();
    json::push_item(&mut required, Json::Text("pattern".to_owned()));
    assert(json::items_view(required@) =~= text_items(seq!["pattern"@]));
    let parameters = schema_of(properties, Some(required));
    proof {
        assert(parameters@->Object_0 =~= schema(grep_properties(), Some(seq!["pattern"@]))->Object_0);
    }
    ToolDefinition {
        name: "grep".to_owned(),
        description: "Search UTF-8 file contents recursively with a Rust regex. Use this instead of bash for content search. Git ignore files are respected when possible.".to_owned(),
        parameters,
    }
}

/// The properties of what `recall` is given.
pub open spec fn recall_properties() -> Seq<(Seq<char>, JsonView)> {
    seq![
        (
            "id"@,
            property("string"@, "An exact existing §obs_..., §turn_..., §decision_..., or §summary_... ID"@),
        ),
        (
            "max_tokens"@,
            bounded_property(
                    "Optional requested window size, capped by memory.max_recall_tokens"@,
                    1,
                    None,
                ),
        ),
        (
            "offset_tokens"@,
            bounded_property(
                    "Optional zero-based token offset for paginating a large record; use next_offset from the previous recall"@,
                    0,
                    None,
                ),
        ),
        (
            "reason"@,
            property("string"@, "Optional short explanation of the decision that requires exact content"@),
        ),
    ]
}

/// What a model is told of `recall`.
pub fn recall_definition() -> (r: ToolDefinition)
    ensures
        r@ == (DefinitionView {
            name: "recall"@,
            description: "Retrieve exact content for an addressable §id that is already visible or returned by list_pointers. Use only when missing details directly affect the current decision. Never invent IDs, never guess after an error, and do not call repeatedly for information already present in the active context."@,
            parameters: schema(recall_properties(), Some(seq!["id"@])),
        }),
{
    let mut properties: Vec<(String, Json)> = Vec::new();
    json::push_field(
        &mut properties,
        "id",
        property_of("string", "An exact existing §obs_..., §turn_..., §decision_..., or §summary_... ID"),
    );
    json::push_field(
        &mut properties,
        "max_tokens",
        bounded_property_of("Optional requested window size, capped by memory.max_recall_tokens", 1, None),
    );
    json::push_field(
        &mut properties,
        "offset_tokens",
        bounded_property_of("Optional zero-based token offset for paginating a large record; use next_offset from the previous recall", 0, None),
    );
    json::push_field(
        &mut properties,
        "reason",
        property_of("string", "Optional short explanation of the decision that requires exact content"),
    );
    assert(json::fields_view(properties@) =~= recall_properties());
    let mut required: Vec<Json> = Vec::new();
    json::push_item(&mut required, Json::Text("id".to_owned()));
    assert(json::items_view(required@) =~= text_items(seq!["id"@]));
    let parameters = schema_of(properties, Some(required));
    proof {
        assert(parameters@->Object_0 =~= schema(recall_properties(), Some(seq!["id"@]))->Object_0);
    }
    ToolDefinition {
        name: "recall".to_owned(),
        description: "Retrieve exact content for an addressable §id that is already visible or returned by list_pointers. Use only when missing details directly affect the current decision. Never invent IDs, never guess after an error, and do not call repeatedly for information already present in the active context.".to_owned(),
        parameters,
    }
}

/// The properties of what `pin` is given.
pub open spec fn pin_properties() -> Seq<(Seq<char>, JsonView)> {
    seq![
        (
            "id"@,
            property("string"@, "An exact existing addressable memory ID"@),
        ),
    ]
}

/// What a model is told of `pin`.
pub fn pin_definition() -> (r: ToolDefinition)
    ensures
        r@ == (DefinitionView {
            name: "pin"@,
            description: "Mark an existing addressable §id as high priority. Pin only evidence or decisions that must remain easy to discover across compaction; never pin an invented or unverified ID."@,
            parameters: schema(pin_properties(), Some(seq!["id"@])),
        }),
{
    let mut properties: Vec<(String, Json)> = Vec::new();
    json::push_field(
        &mut properties,
        "id",
        property_of("string", "An exact existing addressable memory ID"),
    );
    assert(json::fields_view(properties@) =~= pin_properties());
    let mut required: Vec<Json> = Vec::new();
    json::push_item(&mut required, Json::Text("id".to_owned()));
    assert(json::items_view(required@) =~= text_items(seq!["id"@]));
    let parameters = schema_of(properties, Some(required));
    proof {
        assert(parameters@->Object_0 =~= schema(pin_properties(), Some(seq!["id"@]))->Object_0);
    }
    ToolDefinition {
        name: "pin".to_owned(),
        description: "Mark an existing addressable §id as high priority. Pin only evidence or decisions that must remain easy to discover across compaction; never pin an invented or unverified ID.".to_owned(),
        parameters,
    }
}

/// The properties of what `unpin` is given.
pub open spec fn unpin_properties() -> Seq<(Seq<char>, JsonView)> {
    seq![
        (
            "id"@,
            property("string"@, "An exact existing addressable memory ID"@),
        ),
    ]
}

/// What a model is told of `unpin`.
pub fn unpin_definition() -> (r: ToolDefinition)
    ensures
        r@ == (DefinitionView {
            name: "unpin"@,
            description: "Remove high-priority status from an existing addressable §id when it is no longer central. This does not delete content and must not be used for unknown IDs."@,
            parameters: schema(unpin_properties(), Some(seq!["id"@])),
        }),
{
    let mut properties: Vec<(String, Json)> = Vec::new();
    json::push_field(
        &mut properties,
        "id",
        property_of("string", "An exact existing addressable memory ID"),
    );
    assert(json::fields_view(properties@) =~= unpin_properties());
    let mut required: Vec<Json> = Vec::new();
    json::push_item(&mut required, Json::Text("id".to_owned()));
    assert(json::items_view(required@) =~= text_items(seq!["id"@]));
    let parameters = schema_of(properties, Some(required));
    proof {
        assert(parameters@->Object_0 =~= schema(unpin_properties(), Some(seq!["id"@]))->Object_0);
    }
    ToolDefinition {
        name: "unpin".to_owned(),
        description: "Remove high-priority status from an existing addressable §id when it is no longer central. This does not delete content and must not be used for unknown IDs.".to_owned(),
        parameters,
    }
}

/// The properties of what `list_pointers` is given.
pub open spec fn list_pointers_properties() -> Seq<(Seq<char>, JsonView)> {
    seq![
        (
            "filter"@,
            property("string"@, "Optional narrow text or structured filter. Supported fields: id, kind, tool, role, path, pattern, file_glob, command, pinned"@),
        ),
    ]
}

/// What a model is told of `list_pointers`.
pub fn list_pointers_definition() -> (r: ToolDefinition)
    ensures
        r@ == (DefinitionView {
            name: "list_pointers"@,
            description: "List valid addressable memory IDs with bounded content previews. Without a filter it shows active and pinned pointers. Plain-text filters search metadata and full stored content; structured terms such as tool=read, path=src/main.rs, kind=file_snapshot, role=user, or pinned=true may be AND-combined. Use this before recall when the exact ID is not visible. This is substring search, not semantic search."@,
            parameters: schema(list_pointers_properties(), None),
        }),
{
    let mut properties: Vec<(String, Json)> = Vec::new();
    json::push_field(
        &mut properties,
        "filter",
        property_of("string", "Optional narrow text or structured filter. Supported fields: id, kind, tool, role, path, pattern, file_glob, command, pinned"),
    );
    assert(json::fields_view(properties@) =~= list_pointers_properties());
    let parameters = schema_of(properties, None);
    proof {
        assert(parameters@->Object_0 =~= schema(list_pointers_properties(), None)->Object_0);
    }
    ToolDefinition {
        name: "list_pointers".to_owned(),
        description: "List valid addressable memory IDs with bounded content previews. Without a filter it shows active and pinned pointers. Plain-text filters search metadata and full stored content; structured terms such as tool=read, path=src/main.rs, kind=file_snapshot, role=user, or pinned=true may be AND-combined. Use this before recall when the exact ID is not visible. This is substring search, not semantic search.".to_owned(),
        parameters,
    }
}

/// The properties of what `read_skill` is given.
pub open spec fn read_skill_properties() -> Seq<(Seq<char>, JsonView)> {
    seq![
        (
            "name"@,
            property("string"@, "Skill name"@),
        ),
    ]
}

/// What a model is told of `read_skill`.
pub fn read_skill_definition() -> (r: ToolDefinition)
    ensures
        r@ == (DefinitionView {
            name: "read_skill"@,
            description: "Read a discovered SKILL.md by skill name."@,
            parameters: schema(read_skill_properties(), Some(seq!["name"@])),
        }),
{
    let mut properties: Vec<(String, Json)> = Vec::new();
    json::push_field(
        &mut properties,
        "name",
        property_of("string", "Skill name"),
    );
    assert(json::fields_view(properties@) =~= read_skill_properties());
    let mut required: Vec<Json> = Vec::new();
    json::push_item(&mut required, Json::Text("name".to_owned()));
    assert(json::items_view(required@) =~= text_items(seq!["name"@]));
    let parameters = schema_of(properties, Some(required));
    proof {
        assert(parameters@->Object_0 =~= schema(read_skill_properties(), Some(seq!["name"@]))->Object_0);
    }
    ToolDefinition {
        name: "read_skill".to_owned(),
        description: "Read a discovered SKILL.md by skill name.".to_owned(),
        parameters,
    }
}

// ---------------------------------------------------------------------------
// What the tools on memory are given
// ---------------------------------------------------------------------------

/// What `recall` is given.
#[derive(Debug, PartialEq, Eq)]
pub struct RecallArguments {
    pub id: String,
    pub reason: Option<String>,
    pub offset_tokens: Option<usize>,
    pub max_tokens: Option<usize>,
}

/// What a [`RecallArguments`] holds.
#[verifier::ext_equal]
pub struct RecallArgumentsView {
    pub id: Seq<char>,
    pub reason: Option<Seq<char>>,
    pub offset_tokens: Option<usize>,
    pub max_tokens: Option<usize>,
}

impl View for RecallArguments {
    type V = RecallArgumentsView;

    open spec fn view(&self) -> RecallArgumentsView {
        RecallArgumentsView {
            id: self.id@,
            reason: text::opt(self.reason),
            offset_tokens: self.offset_tokens,
            max_tokens: self.max_tokens,
        }
    }
}

/// The arguments of `recall`.
pub open spec fn recall_slots() -> Seq<arguments::SlotView> {
    seq![
        arguments::needed("id"@, Shape::Text),
        arguments::optional("reason"@, Shape::Text),
        arguments::optional("offset_tokens"@, Shape::Count),
        arguments::optional("max_tokens"@, Shape::Count),
    ]
}

/// The arguments of `pin` and `unpin`.
pub open spec fn pointer_slots() -> Seq<arguments::SlotView> {
    seq![arguments::needed("id"@, Shape::Text)]
}

/// The arguments of `list_pointers`.
pub open spec fn list_slots() -> Seq<arguments::SlotView> {
    seq![arguments::optional("filter"@, Shape::Text)]
}

/// What `recall` is given, or what is wrong with it.
pub open spec fn recall_arguments(arguments: JsonView) -> Result<RecallArgumentsView, Seq<char>> {
    let slots = recall_slots();
    match arguments::fault(arguments, "RecallArguments"@, slots) {
        Some(fault) => Err(arguments::refusal("recall"@, fault)),
        None => Ok(
            RecallArgumentsView {
                id: arguments::text_of(arguments::given(arguments, slots, 0))->0,
                reason: arguments::text_of(arguments::given(arguments, slots, 1)),
                offset_tokens: arguments::count_of(arguments::given(arguments, slots, 2)),
                max_tokens: arguments::count_of(arguments::given(arguments, slots, 3)),
            },
        ),
    }
}

/// What `recall` is given.
pub fn parse_recall_arguments(arguments: &Json) -> (r: Result<RecallArguments, String>)
    ensures
        text::res(r) == recall_arguments(arguments@),
{
    let slots: Vec<Slot> = vec![
        arguments::needed_slot("id", Shape::Text),
        arguments::optional_slot("reason", Shape::Text),
        arguments::optional_slot("offset_tokens", Shape::Count),
        arguments::optional_slot("max_tokens", Shape::Count),
    ];
    assert(text::views(slots@) =~= recall_slots());
    match arguments::check_arguments(arguments, "recall", "RecallArguments", &slots) {
        Ok(_) => {},
        Err(message) => {
            return Err(message);
        },
    }
    assert(arguments::suits(arguments::given(arguments@, recall_slots(), 0), slots@[0]@));
    Ok(
        RecallArguments {
            id: arguments::given_text(arguments, &slots, 0),
            reason: arguments::optional_text(arguments, &slots, 1),
            offset_tokens: arguments::optional_count(arguments, &slots, 2),
            max_tokens: arguments::optional_count(arguments, &slots, 3),
        },
    )
}

/// The ID that `pin` and `unpin` are given.
pub fn parse_pointer_arguments(tool: &str, arguments: &Json) -> (r: Result<String, String>)
    ensures
        match arguments::fault(arguments@, "PointerArguments"@, pointer_slots()) {
            Some(fault) => r is Err && r->Err_0@ == arguments::refusal(tool@, fault),
            None => r is Ok && Some(r->Ok_0@) == arguments::text_of(
                arguments::given(arguments@, pointer_slots(), 0),
            ),
        },
{
    let slots: Vec<Slot> = vec![arguments::needed_slot("id", Shape::Text)];
    assert(text::views(slots@) =~= pointer_slots());
    match arguments::check_arguments(arguments, tool, "PointerArguments", &slots) {
        Ok(_) => {},
        Err(message) => {
            return Err(message);
        },
    }
    assert(arguments::suits(arguments::given(arguments@, pointer_slots(), 0), slots@[0]@));
    Ok(arguments::given_text(arguments, &slots, 0))
}

/// The filter that `list_pointers` is given.
pub fn parse_list_arguments(arguments: &Json) -> (r: Result<Option<String>, String>)
    ensures
        match arguments::fault(arguments@, "ListArguments"@, list_slots()) {
            Some(fault) => r is Err && r->Err_0@ == arguments::refusal("list_pointers"@, fault),
            None => r is Ok && text::opt(r->Ok_0) == arguments::text_of(
                arguments::given(arguments@, list_slots(), 0),
            ),
        },
{
    let slots: Vec<Slot> = vec![arguments::optional_slot("filter", Shape::Text)];
    assert(text::views(slots@) =~= list_slots());
    match arguments::check_arguments(arguments, "list_pointers", "ListArguments", &slots) {
        Ok(_) => Ok(arguments::optional_text(arguments, &slots, 0)),
        Err(message) => Err(message),
    }
}

/// What `recall` is given is taken under the names it goes by.
pub proof fn law_recall_arguments_are_taken(
    fields: Seq<(Seq<char>, JsonView)>,
    id: Seq<char>,
    reason: Option<Seq<char>>,
    offset_tokens: Option<usize>,
    max_tokens: Option<usize>,
)
    requires
        arguments::named_once(fields),
        ({
            let given = JsonView::Object(fields);
            &&& given.get("id"@) == Some(JsonView::Text(id))
            &&& given.get("reason"@) == arguments::told_text(reason)
            &&& given.get("offset_tokens"@) == arguments::told_count(offset_tokens)
            &&& given.get("max_tokens"@) == arguments::told_count(max_tokens)
        }),
    ensures
        recall_arguments(JsonView::Object(fields)) == Ok::<RecallArgumentsView, Seq<char>>(
            RecallArgumentsView { id, reason, offset_tokens, max_tokens },
        ),
{
    let given = JsonView::Object(fields);
    let slots = recall_slots();
    assert forall|k: int| 0 <= k < slots.len() implies arguments::is_given(
        given,
        #[trigger] slots[k],
    ) by {}
    arguments::lemma_named_arguments(fields, "RecallArguments"@, slots);
    assert(arguments::given(given, slots, 0) == given.get(slots[0].name));
    assert(arguments::given(given, slots, 1) == given.get(slots[1].name));
    assert(arguments::given(given, slots, 2) == given.get(slots[2].name));
    assert(arguments::given(given, slots, 3) == given.get(slots[3].name));
}

} // verus!
