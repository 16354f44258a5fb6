//! JSON values: the library's own value type, its text form, and reading text
//! with `serde_json`.
use crate::text;
use crate::textmap;
use serde_json::Value;
use vstd::prelude::*;
use vstd::string::*;
use vstd::utf8::*;

verus! {

/// A JSON value. An integer is held exactly, any other number by its text.
#[derive(Debug, PartialEq, Eq)]
pub enum Json {
    Null,
    Bool(bool),
    Unsigned(u64),
    Negative(i64),
    Float(String),
    Text(String),
    Array(Vec<Json>),
    Object(Vec<(String, Json)>),
}

/// What a [`Json`] value is, over mathematical sequences.
pub enum JsonView {
    Null,
    Bool(bool),
    Unsigned(u64),
    Negative(i64),
    Float(Seq<char>),
    Text(Seq<char>),
    Array(Seq<JsonView>),
    Object(Seq<(Seq<char>, JsonView)>),
}

pub open spec fn json_view(json: Json) -> JsonView
    decreases json,
{
    match json {
        Json::Null => JsonView::Null,
        Json::Bool(b) => JsonView::Bool(b),
        Json::Unsigned(n) => JsonView::Unsigned(n),
        Json::Negative(n) => JsonView::Negative(n),
        Json::Float(s) => JsonView::Float(s@),
        Json::Text(s) => JsonView::Text(s@),
        Json::Array(items) => JsonView::Array(items_view(items@)),
        Json::Object(fields) => JsonView::Object(fields_view(fields@)),
    }
}

pub open spec fn items_view(items: Seq<Json>) -> Seq<JsonView>
    decreases items,
{
    if items.len() == 0 {
        Seq::empty()
    } else {
        items_view(items.drop_last()).push(json_view(items.last()))
    }
}

pub open spec fn fields_view(fields: Seq<(String, Json)>) -> Seq<(Seq<char>, JsonView)>
    decreases fields,
{
    if fields.len() == 0 {
        Seq::empty()
    } else {
        fields_view(fields.drop_last()).push((fields.last().0@, json_view(fields.last().1)))
    }
}

/// What an optional list of values holds.
pub open spec fn list_view(items: Option<Vec<Json>>) -> Option<Seq<JsonView>> {
    match items {
        Some(items) => Some(items_view(items@)),
        None => None,
    }
}

impl View for Json {
    type V = JsonView;

    open spec fn view(&self) -> JsonView {
        json_view(*self)
    }
}

impl JsonView {
    /// The value of the first field named `key`, where this is an object that
    /// has one.
    pub open spec fn get(self, key: Seq<char>) -> Option<JsonView> {
        match self {
            JsonView::Object(fields) => field(fields, key),
            _ => None,
        }
    }

    pub open spec fn text(self) -> Option<Seq<char>> {
        match self {
            JsonView::Text(s) => Some(s),
            _ => None,
        }
    }

    pub open spec fn unsigned(self) -> Option<u64> {
        match self {
            JsonView::Unsigned(n) => Some(n),
            _ => None,
        }
    }

    /// The field `key`, which must be a string.
    pub open spec fn need_text(self, key: Seq<char>) -> Option<Seq<char>> {
        match self.get(key) {
            Some(value) => value.text(),
            None => None,
        }
    }

    /// The field `key`, which may be absent or null and else must be a string.
    pub open spec fn maybe_text(self, key: Seq<char>) -> Option<Option<Seq<char>>> {
        match self.get(key) {
            None => Some(None),
            Some(JsonView::Null) => Some(None),
            Some(JsonView::Text(s)) => Some(Some(s)),
            Some(_) => None,
        }
    }

    /// The field `key`, which must be an unsigned integer of at most `max`.
    pub open spec fn need_number(self, key: Seq<char>, max: u64) -> Option<u64> {
        match self.get(key) {
            Some(JsonView::Unsigned(n)) => if n <= max {
                Some(n)
            } else {
                None
            },
            _ => None,
        }
    }

    /// The field `key`, which may be absent or null and else must be an
    /// unsigned integer of at most `max`.
    pub open spec fn maybe_number(self, key: Seq<char>, max: u64) -> Option<Option<u64>> {
        match self.get(key) {
            None => Some(None),
            Some(JsonView::Null) => Some(None),
            Some(JsonView::Unsigned(n)) => if n <= max {
                Some(Some(n))
            } else {
                None
            },
            Some(_) => None,
        }
    }

    /// The field `key`, which must be a boolean.
    pub open spec fn need_bool(self, key: Seq<char>) -> Option<bool> {
        match self.get(key) {
            Some(JsonView::Bool(b)) => Some(b),
            _ => None,
        }
    }

    /// The field `key`, which may be absent or null and else must be a boolean.
    pub open spec fn maybe_bool(self, key: Seq<char>) -> Option<Option<bool>> {
        match self.get(key) {
            None => Some(None),
            Some(JsonView::Null) => Some(None),
            Some(JsonView::Bool(b)) => Some(Some(b)),
            Some(_) => None,
        }
    }

    /// Whether the field `key` is absent, null, or an integer in the range of
    /// `i64`.
    pub open spec fn signed_or_null(self, key: Seq<char>) -> bool {
        match self.get(key) {
            None => true,
            Some(JsonView::Null) => true,
            Some(JsonView::Unsigned(n)) => n <= 0x7fff_ffff_ffff_ffff,
            Some(JsonView::Negative(_)) => true,
            Some(_) => false,
        }
    }

    /// The list under `key`, which may be absent or null and else must be a list.
    pub open spec fn maybe_list(self, key: Seq<char>) -> Option<Option<Seq<JsonView>>> {
        match self.get(key) {
            None => Some(None),
            Some(JsonView::Null) => Some(None),
            Some(JsonView::Array(items)) => Some(Some(items)),
            Some(_) => None,
        }
    }

    /// Whether the field `key` is there and is not null.
    pub open spec fn present(self, key: Seq<char>) -> bool {
        match self.get(key) {
            None => false,
            Some(JsonView::Null) => false,
            Some(_) => true,
        }
    }

    /// The field `key`, which must be a boolean where it is there at all.
    pub open spec fn bool_or(self, key: Seq<char>, default: bool) -> Option<bool> {
        match self.get(key) {
            None => Some(default),
            Some(JsonView::Bool(b)) => Some(b),
            Some(_) => None,
        }
    }

    /// The record with the fields `names` that this value stands for. A list
    /// stands for the record whose fields it gives in their order, as far as it
    /// goes, where it gives at least the first `least` and no more than there
    /// are. Any other value stands for itself.
    pub open spec fn seated(self, names: Seq<&'static str>, least: int) -> JsonView {
        match self {
            JsonView::Array(items) => if least <= items.len() <= names.len() {
                JsonView::Object(Seq::new(items.len(), |i: int| (names[i]@, items[i])))
            } else {
                self
            },
            _ => self,
        }
    }

    /// The name of a choice that holds nothing: a text, or an object whose one
    /// field has that name and holds null or no fields.
    pub open spec fn choice(self) -> Option<Seq<char>> {
        match self {
            JsonView::Text(s) => Some(s),
            JsonView::Object(fields) => if fields.len() == 1 && (fields[0].1 is Null
                || fields[0].1 == JsonView::Object(Seq::empty())) {
                Some(fields[0].0)
            } else {
                None
            },
            _ => None,
        }
    }

    /// The field `key`, which must name a choice.
    pub open spec fn need_choice(self, key: Seq<char>) -> Option<Seq<char>> {
        match self.get(key) {
            Some(value) => value.choice(),
            None => None,
        }
    }

    /// The field `key`, which must name a choice where it is there and not null.
    pub open spec fn maybe_choice(self, key: Seq<char>) -> Option<Option<Seq<char>>> {
        match self.get(key) {
            None => Some(None),
            Some(JsonView::Null) => Some(None),
            Some(value) => match value.choice() {
                Some(name) => Some(Some(name)),
                None => None,
            },
        }
    }

    /// What tells the kinds of a record apart: the field `key`, or what a list
    /// begins with.
    pub open spec fn tag(self, key: Seq<char>) -> Option<JsonView> {
        match self {
            JsonView::Array(items) => if items.len() > 0 {
                Some(items[0])
            } else {
                None
            },
            _ => self.get(key),
        }
    }

    /// The same, where it is a text.
    pub open spec fn text_tag(self, key: Seq<char>) -> Option<Seq<char>> {
        match self.tag(key) {
            Some(value) => value.text(),
            None => None,
        }
    }
}

/// `fields` and, where there is a value, one more field that holds it.
pub open spec fn with_text(
    fields: Seq<(Seq<char>, JsonView)>,
    key: Seq<char>,
    value: Option<Seq<char>>,
) -> Seq<(Seq<char>, JsonView)> {
    match value {
        Some(s) => fields.push((key, JsonView::Text(s))),
        None => fields,
    }
}

/// A field of an object is the first one of its name, and only an object that
/// has none of that name, or what is no object, gives nothing.
pub proof fn law_fields_are_found(value: JsonView, key: Seq<char>)
    ensures
        match value.get(key) {
            Some(found) => value is Object && exists|i: int|
                0 <= i < value->Object_0.len() && #[trigger] value->Object_0[i] == (key, found)
                    && forall|j: int|
                    0 <= j < i ==> (#[trigger] value->Object_0[j]).0 != key,
            None => value is Object ==> forall|j: int|
                0 <= j < value->Object_0.len() ==> (#[trigger] value->Object_0[j]).0 != key,
        },
{
    if let JsonView::Object(fields) = value {
        lemma_first_field(fields, key);
    }
}

proof fn lemma_first_field(fields: Seq<(Seq<char>, JsonView)>, key: Seq<char>)
    ensures
        match field(fields, key) {
            Some(found) => exists|i: int|
                0 <= i < fields.len() && #[trigger] fields[i] == (key, found) && forall|j: int|
                    0 <= j < i ==> (#[trigger] fields[j]).0 != key,
            None => forall|j: int| 0 <= j < fields.len() ==> (#[trigger] fields[j]).0 != key,
        },
    decreases fields.len(),
{
    if fields.len() > 0 {
        let rest = fields.skip(1);
        if fields[0].0 == key {
            assert(fields[0] == (key, fields[0].1));
        } else {
            lemma_first_field(rest, key);
            match field(rest, key) {
                Some(found) => {
                    let i = choose|i: int|
                        0 <= i < rest.len() && #[trigger] rest[i] == (key, found) && forall|j: int|
                            0 <= j < i ==> (#[trigger] rest[j]).0 != key;
                    assert(fields[i + 1] == (key, found));
                    assert forall|j: int| 0 <= j < i + 1 implies (#[trigger] fields[j]).0
                        != key by {
                        if j > 0 {
                            assert(rest[j - 1] == fields[j]);
                        }
                    }
                },
                None => {
                    assert forall|j: int| 0 <= j < fields.len() implies (#[trigger] fields[j]).0
                        != key by {
                        if j > 0 {
                            assert(rest[j - 1] == fields[j]);
                        }
                    }
                },
            }
        }
    }
}

/// The field at a place before which none has its name.
pub proof fn lemma_field_at(fields: Seq<(Seq<char>, JsonView)>, i: int)
    requires
        0 <= i < fields.len(),
        forall|j: int| 0 <= j < i ==> (#[trigger] fields[j]).0 != fields[i].0,
    ensures
        JsonView::Object(fields).get(fields[i].0) == Some(fields[i].1),
{
    lemma_first_field(fields, fields[i].0);
}

/// A name that no field has.
pub proof fn lemma_no_field(fields: Seq<(Seq<char>, JsonView)>, key: Seq<char>)
    requires
        forall|j: int| 0 <= j < fields.len() ==> (#[trigger] fields[j]).0 != key,
    ensures
        JsonView::Object(fields).get(key) is None,
{
    lemma_first_field(fields, key);
}

/// The value of the first of `fields` named `key`.
pub open spec fn field(fields: Seq<(Seq<char>, JsonView)>, key: Seq<char>) -> Option<JsonView>
    decreases fields.len(),
{
    if fields.len() == 0 {
        None
    } else if fields[0].0 == key {
        Some(fields[0].1)
    } else {
        field(fields.skip(1), key)
    }
}

// ---------------------------------------------------------------------------
// Text form
// ---------------------------------------------------------------------------

/// The two characters, or six, that stand for `c` inside a JSON string; `c`
/// itself where it needs no escape.
pub open spec fn json_escape(c: char) -> Seq<char> {
    if c == '"' {
        seq!['\\', '"']
    } else if c == '\\' {
        seq!['\\', '\\']
    } else if c == '\n' {
        seq!['\\', 'n']
    } else if c == '\r' {
        seq!['\\', 'r']
    } else if c == '\t' {
        seq!['\\', 't']
    } else if c as u32 == 8 {
        seq!['\\', 'b']
    } else if c as u32 == 12 {
        seq!['\\', 'f']
    } else if (c as u32) < 32 {
        seq!['\\', 'u', '0', '0', text::hex_char((c as nat) / 16), text::hex_char((c as nat) % 16)]
    } else {
        seq![c]
    }
}

pub open spec fn json_escaped(s: Seq<char>) -> Seq<char>
    decreases s.len(),
{
    if s.len() == 0 {
        Seq::empty()
    } else {
        json_escaped(s.drop_last()) + json_escape(s.last())
    }
}

/// `s` as a JSON string, quotes and all.
pub open spec fn json_quoted(s: Seq<char>) -> Seq<char> {
    seq!['"'] + json_escaped(s) + seq!['"']
}

/// The compact JSON text of a value.
pub open spec fn json_text(v: JsonView) -> Seq<char>
    decreases v,
{
    match v {
        JsonView::Null => "null"@,
        JsonView::Bool(true) => "true"@,
        JsonView::Bool(false) => "false"@,
        JsonView::Unsigned(n) => text::decimal(n as nat),
        JsonView::Negative(n) => if n < 0 {
            "-"@ + text::decimal((-(n as int)) as nat)
        } else {
            text::decimal(n as nat)
        },
        JsonView::Float(s) => s,
        JsonView::Text(s) => json_quoted(s),
        JsonView::Array(items) => "["@ + items_text(items) + "]"@,
        JsonView::Object(fields) => "{"@ + fields_text(fields) + "}"@,
    }
}

pub open spec fn items_text(items: Seq<JsonView>) -> Seq<char>
    decreases items,
{
    if items.len() == 0 {
        Seq::empty()
    } else if items.len() == 1 {
        json_text(items[0])
    } else {
        items_text(items.drop_last()) + ","@ + json_text(items.last())
    }
}

/// The text of a value over several lines, `indent` before each but the first
/// and two spaces more at each level.
pub open spec fn pretty_text(v: JsonView, indent: Seq<char>) -> Seq<char>
    decreases v,
{
    let inner = indent + "  "@;
    match v {
        JsonView::Array(items) => if items.len() == 0 {
            "[]"@
        } else {
            "[\n"@ + inner + items_pretty(items, inner) + "\n"@ + indent + "]"@
        },
        JsonView::Object(fields) => if fields.len() == 0 {
            "{}"@
        } else {
            "{\n"@ + inner + fields_pretty(fields, inner) + "\n"@ + indent + "}"@
        },
        _ => json_text(v),
    }
}

pub open spec fn items_pretty(items: Seq<JsonView>, inner: Seq<char>) -> Seq<char>
    decreases items,
{
    if items.len() == 0 {
        Seq::empty()
    } else if items.len() == 1 {
        pretty_text(items[0], inner)
    } else {
        items_pretty(items.drop_last(), inner) + ",\n"@ + inner + pretty_text(
            items.last(),
            inner,
        )
    }
}

pub open spec fn fields_pretty(fields: Seq<(Seq<char>, JsonView)>, inner: Seq<char>) -> Seq<char>
    decreases fields,
{
    if fields.len() == 0 {
        Seq::empty()
    } else if fields.len() == 1 {
        json_quoted(fields[0].0) + ": "@ + pretty_text(fields[0].1, inner)
    } else {
        fields_pretty(fields.drop_last(), inner) + ",\n"@ + inner + (json_quoted(fields.last().0)
            + ": "@ + pretty_text(fields.last().1, inner))
    }
}

pub open spec fn field_text(name: Seq<char>, value: Seq<char>) -> Seq<char> {
    json_quoted(name) + ":"@ + value
}

pub open spec fn fields_text(fields: Seq<(Seq<char>, JsonView)>) -> Seq<char>
    decreases fields,
{
    if fields.len() == 0 {
        Seq::empty()
    } else if fields.len() == 1 {
        field_text(fields[0].0, json_text(fields[0].1))
    } else {
        fields_text(fields.drop_last()) + ","@ + field_text(
            fields.last().0,
            json_text(fields.last().1),
        )
    }
}

/// `serde_json::to_string` of a string: the string in double quotes, with the
/// quote, the backslash and the control characters below a space escaped, and
/// everything else as it stands.
#[verifier::external_body]
fn quote(text: &str) -> (quoted: String)
    ensures
        quoted@ == json_quoted(text@),
{
    serde_json::to_string(text).unwrap_or_default()
}

// ---------------------------------------------------------------------------
// Reading text
// ---------------------------------------------------------------------------

/// A JSON value as `serde_json` holds it.
#[verifier::external_type_specification]
#[verifier::external_body]
pub struct ExValue(serde_json::Value);

/// What `serde_json::from_slice` makes of some bytes: the value they denote,
/// or its message on why they denote none.
pub uninterp spec fn parsed_json(bytes: Seq<u8>) -> Result<JsonView, Seq<char>>;

/// What a `serde_json::Value` holds.
pub uninterp spec fn value_view(value: serde_json::Value) -> JsonView;

/// Whether the text of a number that is no integer is read as that text again.
/// Not all are: the parser is free to take the nearest number but one.
pub open spec fn stable(s: Seq<char>) -> bool {
    quiet(s) && parsed_json(encode_utf8(s)) == Ok::<JsonView, Seq<char>>(JsonView::Float(s))
}

/// Whether a value can be written and read back with certainty: its integers
/// are held in their own variants, its other numbers are read as they are
/// written, and no more than `depth` lists and objects stand inside one
/// another.
pub open spec fn plain(v: JsonView, depth: nat) -> bool
    decreases depth,
{
    match v {
        JsonView::Float(s) => stable(s),
        JsonView::Negative(n) => n < 0,
        JsonView::Array(items) => depth > 0 && forall|i: int|
            0 <= i < items.len() ==> plain(#[trigger] items[i], (depth - 1) as nat),
        JsonView::Object(fields) => depth > 0 && forall|i: int|
            0 <= i < fields.len() ==> plain((#[trigger] fields[i]).1, (depth - 1) as nat),
        _ => true,
    }
}

/// How deep lists and objects may stand inside one another.
pub const MAX_DEPTH: usize = 127;

/// A value as it is read: the fields of an object in the order of their names,
/// the last one of those that share a name.
pub open spec fn canonical(v: JsonView) -> JsonView
    decreases v,
{
    match v {
        JsonView::Array(items) => JsonView::Array(canonical_items(items)),
        JsonView::Object(fields) => JsonView::Object(canonical_fields(fields)),
        _ => v,
    }
}

pub open spec fn canonical_items(items: Seq<JsonView>) -> Seq<JsonView>
    decreases items,
{
    if items.len() == 0 {
        Seq::empty()
    } else {
        canonical_items(items.drop_last()).push(canonical(items.last()))
    }
}

pub open spec fn canonical_fields(fields: Seq<(Seq<char>, JsonView)>) -> Seq<
    (Seq<char>, JsonView),
>
    decreases fields,
{
    if fields.len() == 0 {
        Seq::empty()
    } else {
        textmap::inserted(
            canonical_fields(fields.drop_last()),
            fields.last().0,
            canonical(fields.last().1),
        )
    }
}

/// Whether there is nothing in a text but the white space of JSON.
pub open spec fn is_white(s: Seq<char>) -> bool {
    forall|i: int|
        0 <= i < s.len() ==> (#[trigger] s[i] == ' ' || s[i] == '\t' || s[i] == '\n' || s[i] == '\r')
}

/// `serde_json::from_slice` into a `serde_json::Value`. The result depends on
/// the bytes alone, and bytes that are the compact text of a value give that
/// value, its objects ordered by name, where it is nested no deeper than the
/// parser goes and its numbers other than integers are read as they are where
/// they stand alone. Behind the text of an object white space is passed over,
/// and anything else is an error.
#[verifier::external_body]
fn parse_value(bytes: &[u8]) -> (r: Result<serde_json::Value, String>)
    ensures
        match r {
            Ok(value) => parsed_json(bytes@) is Ok && parsed_json(bytes@)->Ok_0 == value_view(
                value,
            ),
            Err(message) => parsed_json(bytes@) is Err && parsed_json(bytes@)->Err_0 == message@,
        },
        forall|v: JsonView|
            #![trigger json_text(v)]
            plain(v, MAX_DEPTH as nat) && encode_utf8(json_text(v)) == bytes@ ==> r is Ok
                && value_view(r->Ok_0) == canonical(v),
        forall|v: JsonView, rest: Seq<char>|
            #![trigger json_text(v) + rest]
            plain(v, MAX_DEPTH as nat) && v is Object && encode_utf8(json_text(v) + rest) == bytes@
                ==> if is_white(rest) {
                r is Ok && value_view(r->Ok_0) == canonical(v)
            } else {
                r is Err
            },
{
    serde_json::from_slice::<serde_json::Value>(bytes).map_err(|error| error.to_string())
}

/// The contents of a `serde_json::Value`, moved variant by variant into a
/// [`Json`]. A number that is neither `u64` nor `i64` is kept by its text.
#[verifier::external_body]
fn json_of_value(value: &Value) -> (json: Json)
    ensures
        json@ == value_view(*value),
{
    match value {
        Value::Null => Json::Null,
        Value::Bool(b) => Json::Bool(*b),
        Value::Number(n) => match (n.as_u64(), n.as_i64()) {
            (Some(n), _) => Json::Unsigned(n),
            (None, Some(n)) => Json::Negative(n),
            (None, None) => Json::Float(n.to_string()),
        },
        Value::String(s) => Json::Text(s.clone()),
        Value::Array(v) => Json::Array(v.iter().map(json_of_value).collect()),
        Value::Object(m) => {
            Json::Object(m.iter().map(|(k, v)| (k.clone(), json_of_value(v))).collect())
        },
    }
}

/// The value that `bytes` denote as JSON, or why they denote none.
pub fn parse_json(bytes: &[u8]) -> (r: Result<Json, String>)
    ensures
        text::res(r) == parsed_json(bytes@),
        forall|v: JsonView|
            #![trigger json_text(v)]
            plain(v, MAX_DEPTH as nat) && encode_utf8(json_text(v)) == bytes@ ==> parsed_json(
                bytes@,
            ) == Ok::<JsonView, Seq<char>>(canonical(v)),
        forall|v: JsonView, rest: Seq<char>|
            #![trigger json_text(v) + rest]
            plain(v, MAX_DEPTH as nat) && v is Object && encode_utf8(json_text(v) + rest) == bytes@
                ==> if is_white(rest) {
                parsed_json(bytes@) == Ok::<JsonView, Seq<char>>(canonical(v))
            } else {
                parsed_json(bytes@) is Err
            },
{
    match parse_value(bytes) {
        Ok(value) => Ok(json_of_value(&value)),
        Err(message) => Err(message),
    }
}

// ---------------------------------------------------------------------------
// Operations
// ---------------------------------------------------------------------------

/// The value of the last of `fields` named `key`.
pub open spec fn last_field(fields: Seq<(Seq<char>, JsonView)>, key: Seq<char>) -> Option<JsonView>
    decreases fields.len(),
{
    if fields.len() == 0 {
        None
    } else if fields.last().0 == key {
        Some(fields.last().1)
    } else {
        last_field(fields.drop_last(), key)
    }
}

pub proof fn lemma_field_is_lookup(fields: Seq<(Seq<char>, JsonView)>, key: Seq<char>)
    ensures
        field(fields, key) == textmap::lookup(fields, key),
    decreases fields.len(),
{
    if fields.len() > 0 {
        lemma_field_is_lookup(fields.skip(1), key);
    }
}

pub proof fn lemma_canonical_fields(fields: Seq<(Seq<char>, JsonView)>, key: Seq<char>)
    ensures
        textmap::sorted(canonical_fields(fields)),
        textmap::lookup(canonical_fields(fields), key) == match last_field(fields, key) {
            Some(v) => Some(canonical(v)),
            None => None,
        },
    decreases fields.len(),
{
    if fields.len() > 0 {
        lemma_canonical_fields(fields.drop_last(), key);
        textmap::lemma_inserted(
            canonical_fields(fields.drop_last()),
            fields.last().0,
            canonical(fields.last().1),
        );
    }
}

/// A field of an object as it is read is the last field of that name as it was
/// written.
pub proof fn lemma_canonical_get(fields: Seq<(Seq<char>, JsonView)>, key: Seq<char>)
    ensures
        canonical(JsonView::Object(fields)).get(key) == match last_field(fields, key) {
            Some(v) => Some(canonical(v)),
            None => None,
        },
{
    lemma_canonical_fields(fields, key);
    lemma_field_is_lookup(canonical_fields(fields), key);
}

/// A plain value is plain where more nesting is allowed.
pub proof fn lemma_plain_deeper(v: JsonView, depth: nat, more: nat)
    requires
        plain(v, depth),
        depth <= more,
    ensures
        plain(v, more),
    decreases depth,
{
    match v {
        JsonView::Array(items) => {
            assert forall|i: int| 0 <= i < items.len() implies plain(
                #[trigger] items[i],
                (more - 1) as nat,
            ) by {
                lemma_plain_deeper(items[i], (depth - 1) as nat, (more - 1) as nat);
            }
        },
        JsonView::Object(fields) => {
            assert forall|i: int| 0 <= i < fields.len() implies plain(
                (#[trigger] fields[i]).1,
                (more - 1) as nat,
            ) by {
                assert(plain(fields[i].1, (depth - 1) as nat));
                lemma_plain_deeper(fields[i].1, (depth - 1) as nat, (more - 1) as nat);
            }
        },
        _ => {},
    }
}

/// Where the last field of a name stands.
pub proof fn lemma_last_field_index(fields: Seq<(Seq<char>, JsonView)>, key: Seq<char>) -> (j: int)
    requires
        last_field(fields, key) is Some,
    ensures
        0 <= j < fields.len(),
        fields[j].0 == key,
        last_field(fields, key) == Some(fields[j].1),
    decreases fields.len(),
{
    if fields.last().0 == key {
        fields.len() - 1
    } else {
        lemma_last_field_index(fields.drop_last(), key)
    }
}

/// A field as it is read is one of those that were written.
pub proof fn lemma_canonical_entry(fields: Seq<(Seq<char>, JsonView)>, i: int) -> (j: int)
    requires
        0 <= i < canonical_fields(fields).len(),
    ensures
        0 <= j < fields.len(),
        canonical_fields(fields)[i] == (fields[j].0, canonical(fields[j].1)),
{
    let key = canonical_fields(fields)[i].0;
    lemma_canonical_fields(fields, key);
    textmap::lemma_lookup_at(canonical_fields(fields), i);
    lemma_last_field_index(fields, key)
}

/// The last field of a list is found first.
pub proof fn lemma_last_field_push(
    fields: Seq<(Seq<char>, JsonView)>,
    name: Seq<char>,
    value: JsonView,
)
    ensures
        forall|key: Seq<char>| #[trigger]
            last_field(fields.push((name, value)), key) == if name == key {
                Some(value)
            } else {
                last_field(fields, key)
            },
{
    assert(fields.push((name, value)).drop_last() =~= fields);
}

/// Whether a text has no control characters.
pub open spec fn quiet(s: Seq<char>) -> bool {
    forall|i: int| 0 <= i < s.len() ==> #[trigger] s[i] as u32 >= 32
}

proof fn lemma_quiet_concat(a: Seq<char>, b: Seq<char>)
    requires
        quiet(a),
        quiet(b),
    ensures
        quiet(a + b),
{
    assert forall|i: int| 0 <= i < (a + b).len() implies #[trigger] (a + b)[i] as u32 >= 32 by {
        if i < a.len() {
            assert((a + b)[i] == a[i]);
        } else {
            assert((a + b)[i] == b[i - a.len()]);
        }
    }
}

proof fn lemma_quiet_decimal(n: nat)
    ensures
        quiet(text::decimal(n)),
    decreases n,
{
    if n >= 10 {
        lemma_quiet_decimal(n / 10);
        lemma_quiet_concat(text::decimal(n / 10), seq![text::digit_char(n % 10)]);
        assert(text::decimal(n) =~= text::decimal(n / 10) + seq![text::digit_char(n % 10)]);
    }
}

proof fn lemma_quiet_quoted(s: Seq<char>)
    ensures
        quiet(json_quoted(s)),
{
    lemma_quiet_escaped(s);
    lemma_quiet_concat(seq!['"'], json_escaped(s));
    lemma_quiet_concat(seq!['"'] + json_escaped(s), seq!['"']);
}

proof fn lemma_hex_char(d: nat)
    requires
        d < 16,
    ensures
        text::hex_char(d) as u32 >= 48,
{
}

proof fn lemma_quiet_escape(c: char)
    ensures
        quiet(json_escape(c)),
{
    if (c as u32) < 32 {
        let high = (c as nat) / 16;
        let low = (c as nat) % 16;
        assert(c as nat == c as u32);
        assert(high < 16 && low < 16);
        lemma_hex_char(high);
        lemma_hex_char(low);
        let shown = seq!['\\', 'u', '0', '0', text::hex_char(high), text::hex_char(low)];
        assert forall|i: int| 0 <= i < shown.len() implies #[trigger] shown[i] as u32 >= 32 by {
            if i == 4 {
                assert(shown[4] == text::hex_char(high));
            } else if i == 5 {
                assert(shown[5] == text::hex_char(low));
            }
        }
    }
}

proof fn lemma_quiet_escaped(s: Seq<char>)
    ensures
        quiet(json_escaped(s)),
    decreases s.len(),
{
    if s.len() > 0 {
        lemma_quiet_escaped(s.drop_last());
        let c = s.last();
        lemma_quiet_escape(c);
        lemma_quiet_concat(json_escaped(s.drop_last()), json_escape(c));
    }
}

/// The text of a value whose numbers are integers has no control characters.
pub proof fn lemma_quiet_json(v: JsonView, depth: nat)
    requires
        plain(v, depth),
    ensures
        quiet(json_text(v)),
    decreases depth, 1nat, 0nat,
{
    reveal_strlit("null");
    reveal_strlit("true");
    reveal_strlit("false");
    reveal_strlit("-");
    reveal_strlit("[");
    reveal_strlit("]");
    reveal_strlit("{");
    reveal_strlit("}");
    match v {
        JsonView::Unsigned(n) => lemma_quiet_decimal(n as nat),
        JsonView::Negative(n) => {
            lemma_quiet_decimal((-(n as int)) as nat);
            lemma_quiet_concat("-"@, text::decimal((-(n as int)) as nat));
        },
        JsonView::Text(s) => lemma_quiet_quoted(s),
        JsonView::Array(items) => {
            lemma_quiet_items(items, (depth - 1) as nat);
            lemma_quiet_concat("["@, items_text(items));
            lemma_quiet_concat("["@ + items_text(items), "]"@);
        },
        JsonView::Object(fields) => {
            lemma_quiet_fields(fields, (depth - 1) as nat);
            lemma_quiet_concat("{"@, fields_text(fields));
            lemma_quiet_concat("{"@ + fields_text(fields), "}"@);
        },
        _ => {},
    }
}

proof fn lemma_quiet_items(items: Seq<JsonView>, depth: nat)
    requires
        forall|i: int| 0 <= i < items.len() ==> plain(#[trigger] items[i], depth),
    ensures
        quiet(items_text(items)),
    decreases depth, 2nat, items.len(),
{
    reveal_strlit(",");
    if items.len() == 1 {
        assert(plain(items[0], depth));
        lemma_quiet_json(items[0], depth);
    } else if items.len() > 1 {
        let front = items.drop_last();
        assert forall|i: int| 0 <= i < front.len() implies plain(#[trigger] front[i], depth) by {
            assert(front[i] == items[i]);
        }
        assert(plain(items[items.len() - 1], depth));
        lemma_quiet_items(front, depth);
        lemma_quiet_json(items.last(), depth);
        lemma_quiet_concat(items_text(front), ","@);
        lemma_quiet_concat(items_text(front) + ","@, json_text(items.last()));
    }
}

proof fn lemma_quiet_fields(fields: Seq<(Seq<char>, JsonView)>, depth: nat)
    requires
        forall|i: int| 0 <= i < fields.len() ==> plain((#[trigger] fields[i]).1, depth),
    ensures
        quiet(fields_text(fields)),
    decreases depth, 2nat, fields.len(),
{
    reveal_strlit(",");
    reveal_strlit(":");
    if fields.len() > 0 {
        let (name, value) = fields.last();
        assert(plain(fields[fields.len() - 1].1, depth));
        lemma_quiet_json(value, depth);
        lemma_quiet_quoted(name);
        lemma_quiet_concat(json_quoted(name), ":"@);
        lemma_quiet_concat(json_quoted(name) + ":"@, json_text(value));
        if fields.len() > 1 {
            let front = fields.drop_last();
            assert forall|i: int| 0 <= i < front.len() implies plain(
                (#[trigger] front[i]).1,
                depth,
            ) by {
                assert(front[i] == fields[i]);
            }
            lemma_quiet_fields(front, depth);
            lemma_quiet_concat(fields_text(front), ","@);
            lemma_quiet_concat(fields_text(front) + ","@, field_text(name, json_text(value)));
        }
    }
}

pub proof fn lemma_canonical_items(items: Seq<JsonView>)
    ensures
        canonical_items(items).len() == items.len(),
        forall|i: int|
            0 <= i < items.len() ==> #[trigger] canonical_items(items)[i] == canonical(items[i]),
    decreases items.len(),
{
    if items.len() > 0 {
        lemma_canonical_items(items.drop_last());
    }
}

pub proof fn lemma_items_view(items: Seq<Json>)
    ensures
        items_view(items).len() == items.len(),
        forall|i: int| 0 <= i < items.len() ==> #[trigger] items_view(items)[i] == items[i]@,
    decreases items.len(),
{
    if items.len() > 0 {
        lemma_items_view(items.drop_last());
        assert forall|i: int| 0 <= i < items.len() implies #[trigger] items_view(items)[i]
            == items[i]@ by {
            if i < items.len() - 1 {
                assert(items.drop_last()[i] == items[i]);
            }
        }
    }
}

pub proof fn lemma_fields_view(fields: Seq<(String, Json)>)
    ensures
        fields_view(fields).len() == fields.len(),
        forall|i: int| 0 <= i < fields.len() ==> #[trigger] fields_view(fields)[i] == (
            fields[i].0@,
            fields[i].1@,
        ),
    decreases fields.len(),
{
    if fields.len() > 0 {
        lemma_fields_view(fields.drop_last());
        assert forall|i: int| 0 <= i < fields.len() implies #[trigger] fields_view(fields)[i] == (
            fields[i].0@,
            fields[i].1@,
        ) by {
            if i < fields.len() - 1 {
                assert(fields.drop_last()[i] == fields[i]);
            }
        }
    }
}

proof fn lemma_field_skip(fields: Seq<(Seq<char>, JsonView)>, key: Seq<char>, i: int)
    requires
        0 <= i <= fields.len(),
        forall|j: int| 0 <= j < i ==> (#[trigger] fields[j]).0 != key,
    ensures
        field(fields, key) == field(fields.skip(i), key),
    decreases i,
{
    if i == 0 {
        assert(fields.skip(0) =~= fields);
    } else {
        assert(fields[0].0 != key);
        assert forall|j: int| 0 <= j < i - 1 implies (#[trigger] fields.skip(1)[j]).0 != key by {
            assert(fields.skip(1)[j] == fields[j + 1]);
        }
        lemma_field_skip(fields.skip(1), key, i - 1);
        assert(fields.skip(1).skip(i - 1) =~= fields.skip(i));
    }
}

/// Appends a field to a list of fields.
pub fn push_field(fields: &mut Vec<(String, Json)>, key: &str, value: Json)
    ensures
        fields_view(final(fields)@) == fields_view(old(fields)@).push((key@, value@)),
{
    let pair = (key.to_owned(), value);
    assert(fields@.push(pair).drop_last() =~= fields@);
    fields.push(pair);
}

/// Appends a value to a list of values.
pub fn push_item(items: &mut Vec<Json>, value: Json)
    ensures
        items_view(final(items)@) == items_view(old(items)@).push(value@),
{
    assert(items@.push(value).drop_last() =~= items@);
    items.push(value);
}

/// Appends a copy of each value to a list of values.
pub fn push_copies(items: &mut Vec<Json>, output: &Vec<Json>)
    ensures
        items_view(final(items)@) == items_view(old(items)@) + items_view(
            output@,
        ),
{
    let ghost before = items_view(items@);
    let ghost model = items_view(output@);
    proof {
        lemma_items_view(output@);
    }
    let mut i: usize = 0;
    assert(before + model.take(0) =~= before);
    while i < output.len()
        invariant
            i <= output@.len(),
            model == items_view(output@),
            model.len() == output@.len(),
            forall|j: int| 0 <= j < output@.len() ==> #[trigger] model[j] == output@[j]@,
            items_view(items@) == before + model.take(i as int),
        decreases output@.len() - i,
    {
        let item = output[i].copy();
        push_item(items, item);
        i = i + 1;
        assert(items_view(items@) =~= before + model.take(i as int));
    }
    assert(model.take(model.len() as int) =~= model);
}

/// A copy of each value.
pub fn copy_items(items: &Vec<Json>) -> (r: Vec<Json>)
    ensures
        items_view(r@) == items_view(items@),
{
    let mut r: Vec<Json> = Vec::new();
    push_copies(&mut r, items);
    assert(items_view(r@) =~= items_view(items@));
    r
}

/// A number as a size.
pub open spec fn as_size(n: Option<u64>) -> Option<usize> {
    match n {
        Some(n) => Some(n as usize),
        None => None,
    }
}

/// A number as a size.
pub fn size_of(n: Option<u64>) -> (r: Option<usize>)
    ensures
        r == as_size(n),
{
    match n {
        Some(n) => Some(n as usize),
        None => None,
    }
}

/// Appends a text field to a list of fields.
pub fn push_text(fields: &mut Vec<(String, Json)>, key: &str, value: &str)
    ensures
        fields_view(final(fields)@) == fields_view(old(fields)@).push(
            (key@, JsonView::Text(value@)),
        ),
{
    push_field(fields, key, Json::Text(value.to_owned()));
}

/// `fields` and, where there is a value, one more field that holds it.
pub open spec fn with_value(
    fields: Seq<(Seq<char>, JsonView)>,
    key: Seq<char>,
    value: Option<JsonView>,
) -> Seq<(Seq<char>, JsonView)> {
    match value {
        Some(v) => fields.push((key, v)),
        None => fields,
    }
}

pub fn push_maybe(fields: &mut Vec<(String, Json)>, key: &str, value: Option<Json>)
    ensures
        fields_view(final(fields)@) == with_value(
            fields_view(old(fields)@),
            key@,
            text::opt(value),
        ),
{
    match value {
        Some(value) => push_field(fields, key, value),
        None => {},
    }
}

/// Appends a text field to a list of fields, where there is a value for it.
pub fn push_maybe_text(fields: &mut Vec<(String, Json)>, key: &str, value: &Option<String>)
    ensures
        fields_view(final(fields)@) == with_text(
            fields_view(old(fields)@),
            key@,
            text::opt(*value),
        ),
{
    match value {
        Some(s) => push_text(fields, key, s.as_str()),
        None => {},
    }
}

impl Json {
    /// The value of the first field named `key`.
    pub fn get(&self, key: &str) -> (r: Option<&Json>)
        ensures
            match r {
                Some(value) => self@.get(key@) == Some(value@),
                None => self@.get(key@) is None,
            },
    {
        match self {
            Json::Object(fields) => {
                let ghost model = fields_view(fields@);
                proof {
                    lemma_fields_view(fields@);
                }
                let mut i: usize = 0;
                while i < fields.len()
                    invariant
                        i <= fields@.len(),
                        model == fields_view(fields@),
                        model.len() == fields@.len(),
                        forall|j: int|
                            0 <= j < fields@.len() ==> #[trigger] model[j] == (
                                fields@[j].0@,
                                fields@[j].1@,
                            ),
                        forall|j: int| 0 <= j < i ==> (#[trigger] model[j]).0 != key@,
                        self@ == JsonView::Object(model),
                    decreases fields@.len() - i,
                {
                    if text::same(fields[i].0.as_str(), key) {
                        proof {
                            lemma_field_skip(model, key@, i as int);
                            assert(model.skip(i as int)[0] == model[i as int]);
                        }
                        return Some(&fields[i].1);
                    }
                    i = i + 1;
                }
                proof {
                    lemma_field_skip(model, key@, i as int);
                }
                None
            },
            _ => None,
        }
    }

    /// The text, where this is a string.
    pub fn as_str(&self) -> (r: Option<&str>)
        ensures
            match r {
                Some(s) => self@.text() == Some(s@),
                None => self@.text() is None,
            },
    {
        match self {
            Json::Text(s) => Some(s.as_str()),
            _ => None,
        }
    }

    /// The number, where this is an integer in the range of `u64`.
    pub fn as_u64(&self) -> (r: Option<u64>)
        ensures
            r == self@.unsigned(),
    {
        match self {
            Json::Unsigned(n) => Some(*n),
            _ => None,
        }
    }

    /// The text of the field named `key`, where it is there and a string.
    pub fn get_str(&self, key: &str) -> (r: Option<&str>)
        ensures
            match r {
                Some(s) => self@.get(key@) matches Some(v) && v.text() == Some(s@),
                None => self@.get(key@) matches Some(v) ==> v.text() is None,
            },
    {
        match self.get(key) {
            Some(value) => value.as_str(),
            None => None,
        }
    }

    /// The field `key`, which must be a string.
    pub fn need_text(&self, key: &str) -> (r: Option<String>)
        ensures
            text::opt(r) == self@.need_text(key@),
    {
        match self.get(key) {
            Some(Json::Text(s)) => Some(s.clone()),
            _ => None,
        }
    }

    /// The field `key`, which may be absent or null and else must be a string.
    pub fn maybe_text(&self, key: &str) -> (r: Option<Option<String>>)
        ensures
            match r {
                Some(value) => self@.maybe_text(key@) == Some(text::opt(value)),
                None => self@.maybe_text(key@) is None,
            },
    {
        match self.get(key) {
            None => Some(None),
            Some(Json::Null) => Some(None),
            Some(Json::Text(s)) => Some(Some(s.clone())),
            Some(_) => None,
        }
    }

    /// The field `key`, which must be an unsigned integer of at most `max`.
    pub fn need_number(&self, key: &str, max: u64) -> (r: Option<u64>)
        ensures
            r == self@.need_number(key@, max),
    {
        match self.get(key) {
            Some(Json::Unsigned(n)) => if *n <= max {
                Some(*n)
            } else {
                None
            },
            _ => None,
        }
    }

    /// The field `key`, which may be absent or null and else must be an
    /// unsigned integer of at most `max`.
    pub fn maybe_number(&self, key: &str, max: u64) -> (r: Option<Option<u64>>)
        ensures
            r == self@.maybe_number(key@, max),
    {
        match self.get(key) {
            None => Some(None),
            Some(Json::Null) => Some(None),
            Some(Json::Unsigned(n)) => if *n <= max {
                Some(Some(*n))
            } else {
                None
            },
            Some(_) => None,
        }
    }

    /// The field `key`, which must be a boolean.
    pub fn need_bool(&self, key: &str) -> (r: Option<bool>)
        ensures
            r == self@.need_bool(key@),
    {
        match self.get(key) {
            Some(Json::Bool(b)) => Some(*b),
            _ => None,
        }
    }

    /// The field `key`, which may be absent or null and else must be a boolean.
    pub fn maybe_bool(&self, key: &str) -> (r: Option<Option<bool>>)
        ensures
            r == self@.maybe_bool(key@),
    {
        match self.get(key) {
            None => Some(None),
            Some(Json::Null) => Some(None),
            Some(Json::Bool(b)) => Some(Some(*b)),
            Some(_) => None,
        }
    }

    /// Whether the field `key` is absent, null, or an integer in the range of
    /// `i64`.
    pub fn signed_or_null(&self, key: &str) -> (r: bool)
        ensures
            r == self@.signed_or_null(key@),
    {
        match self.get(key) {
            None => true,
            Some(Json::Null) => true,
            Some(Json::Unsigned(n)) => *n <= 0x7fff_ffff_ffff_ffff,
            Some(Json::Negative(_)) => true,
            Some(_) => false,
        }
    }

    /// A copy of the list under `key`, which may be absent or null and else must
    /// be a list.
    pub fn maybe_list(&self, key: &str) -> (r: Option<Option<Vec<Json>>>)
        ensures
            match r {
                Some(items) => self@.maybe_list(key@) == Some(list_view(items)),
                None => self@.maybe_list(key@) is None,
            },
    {
        match self.get(key) {
            None => Some(None),
            Some(Json::Null) => Some(None),
            Some(Json::Array(items)) => Some(Some(copy_items(items))),
            Some(_) => None,
        }
    }

    /// Whether the field `key` is there and is not null.
    pub fn present(&self, key: &str) -> (r: bool)
        ensures
            r == self@.present(key@),
    {
        match self.get(key) {
            None => false,
            Some(Json::Null) => false,
            Some(_) => true,
        }
    }

    /// The field `key`, which must be a boolean where it is there at all.
    pub fn bool_or(&self, key: &str, default: bool) -> (r: Option<bool>)
        ensures
            r == self@.bool_or(key@, default),
    {
        match self.get(key) {
            None => Some(default),
            Some(Json::Bool(b)) => Some(*b),
            Some(_) => None,
        }
    }

    /// The record with the fields `names` that this value stands for, where it
    /// does not stand for itself.
    pub fn seat(&self, names: &Vec<&'static str>, least: usize) -> (r: Option<Json>)
        ensures
            match r {
                Some(record) => record@ == self@.seated(names@, least as int),
                None => self@ == self@.seated(names@, least as int),
            },
    {
        let items = match self {
            Json::Array(items) => items,
            _ => {
                return None;
            },
        };
        proof {
            lemma_items_view(items@);
        }
        if items.len() < least || items.len() > names.len() {
            return None;
        }
        let mut fields: Vec<(String, Json)> = Vec::new();
        let mut i: usize = 0;
        assert(fields_view(fields@) =~= Seq::empty());
        while i < items.len()
            invariant
                i <= items@.len() <= names@.len(),
                fields_view(fields@).len() == i,
                items_view(items@).len() == items@.len(),
                forall|j: int|
                    0 <= j < items@.len() ==> #[trigger] items_view(items@)[j] == items@[j]@,
                forall|j: int|
                    0 <= j < i ==> #[trigger] fields_view(fields@)[j] == (
                        names@[j]@,
                        items_view(items@)[j],
                    ),
            decreases items@.len() - i,
        {
            push_field(&mut fields, names[i], items[i].copy());
            i = i + 1;
        }
        assert(fields_view(fields@) =~= Seq::new(
            items_view(items@).len(),
            |j: int| (names@[j]@, items_view(items@)[j]),
        ));
        Some(Json::Object(fields))
    }

    /// The name of a choice that holds nothing.
    pub fn choice(&self) -> (r: Option<String>)
        ensures
            text::opt(r) == self@.choice(),
    {
        match self {
            Json::Text(s) => Some(s.clone()),
            Json::Object(fields) => {
                proof {
                    lemma_fields_view(fields@);
                }
                if fields.len() != 1 {
                    return None;
                }
                match &fields[0].1 {
                    Json::Null => Some(fields[0].0.clone()),
                    Json::Object(inner) => {
                        proof {
                            lemma_fields_view(inner@);
                        }
                        if inner.len() == 0 {
                            assert(fields_view(inner@) =~= Seq::empty());
                            Some(fields[0].0.clone())
                        } else {
                            None
                        }
                    },
                    _ => None,
                }
            },
            _ => None,
        }
    }

    /// The field `key`, which must name a choice.
    pub fn need_choice(&self, key: &str) -> (r: Option<String>)
        ensures
            text::opt(r) == self@.need_choice(key@),
    {
        match self.get(key) {
            Some(value) => value.choice(),
            None => None,
        }
    }

    /// The field `key`, which must name a choice where it is there and not null.
    pub fn maybe_choice(&self, key: &str) -> (r: Option<Option<String>>)
        ensures
            match r {
                Some(name) => self@.maybe_choice(key@) == Some(text::opt(name)),
                None => self@.maybe_choice(key@) is None,
            },
    {
        match self.get(key) {
            None => Some(None),
            Some(Json::Null) => Some(None),
            Some(value) => match value.choice() {
                Some(name) => Some(Some(name)),
                None => None,
            },
        }
    }

    /// What tells the kinds of a record apart: the field `key`, or what a list
    /// begins with.
    pub fn tag(&self, key: &str) -> (r: Option<&Json>)
        ensures
            match r {
                Some(value) => self@.tag(key@) == Some(value@),
                None => self@.tag(key@) is None,
            },
    {
        match self {
            Json::Array(items) => {
                proof {
                    lemma_items_view(items@);
                }
                if items.len() > 0 {
                    Some(&items[0])
                } else {
                    None
                }
            },
            _ => self.get(key),
        }
    }

    /// The same, where it is a text.
    pub fn text_tag(&self, key: &str) -> (r: Option<&str>)
        ensures
            match r {
                Some(tag) => self@.text_tag(key@) == Some(tag@),
                None => self@.text_tag(key@) is None,
            },
    {
        match self.tag(key) {
            Some(value) => value.as_str(),
            None => None,
        }
    }

    /// A copy of this value.
    pub fn copy(&self) -> (r: Json)
        ensures
            r@ == self@,
        decreases *self,
    {
        match self {
            Json::Null => Json::Null,
            Json::Bool(b) => Json::Bool(*b),
            Json::Unsigned(n) => Json::Unsigned(*n),
            Json::Negative(n) => Json::Negative(*n),
            Json::Float(s) => Json::Float(s.clone()),
            Json::Text(s) => Json::Text(s.clone()),
            Json::Array(items) => {
                let mut out: Vec<Json> = Vec::new();
                let mut i: usize = 0;
                assert(items@.take(0) =~= Seq::<Json>::empty());
                while i < items.len()
                    invariant
                        i <= items@.len(),
                        *self == Json::Array(*items),
                        items_view(out@) == items_view(items@.take(i as int)),
                    decreases items@.len() - i,
                {
                    assert(decreases_to!(*self => self->Array_0));
                    assert(decreases_to!(*items => items@));
                    assert(decreases_to!(items@ => items@[i as int]));
                    let item = items[i].copy();
                    let ghost upto = items@.take(i as int + 1);
                    assert(upto.drop_last() =~= items@.take(i as int));
                    assert(out@.push(item).drop_last() =~= out@);
                    out.push(item);
                    i = i + 1;
                }
                assert(items@.take(items@.len() as int) =~= items@);
                Json::Array(out)
            },
            Json::Object(fields) => {
                let mut out: Vec<(String, Json)> = Vec::new();
                let mut i: usize = 0;
                assert(fields@.take(0) =~= Seq::<(String, Json)>::empty());
                while i < fields.len()
                    invariant
                        i <= fields@.len(),
                        *self == Json::Object(*fields),
                        fields_view(out@) == fields_view(fields@.take(i as int)),
                    decreases fields@.len() - i,
                {
                    assert(decreases_to!(*self => self->Object_0));
                    assert(decreases_to!(*fields => fields@));
                    assert(decreases_to!(fields@ => fields@[i as int]));
                    assert(decreases_to!(fields@[i as int] => fields@[i as int].1));
                    let pair = (fields[i].0.clone(), fields[i].1.copy());
                    let ghost upto = fields@.take(i as int + 1);
                    assert(upto.drop_last() =~= fields@.take(i as int));
                    assert(out@.push(pair).drop_last() =~= out@);
                    out.push(pair);
                    i = i + 1;
                }
                assert(fields@.take(fields@.len() as int) =~= fields@);
                Json::Object(out)
            },
        }
    }

    /// The compact text of this value.
    pub fn to_text(&self) -> (r: String)
        ensures
            r@ == json_text(self@),
        decreases *self,
    {
        match self {
            Json::Null => "null".to_owned(),
            Json::Bool(b) => if *b {
                "true".to_owned()
            } else {
                "false".to_owned()
            },
            Json::Unsigned(n) => text::decimal_of(*n),
            Json::Negative(n) => if *n < 0 {
                let magnitude: u64 = (-(*n as i128)) as u64;
                let digits = text::decimal_of(magnitude);
                text::concat("-", digits.as_str())
            } else {
                text::decimal_of(*n as u64)
            },
            Json::Float(s) => s.clone(),
            Json::Text(s) => quote(s.as_str()),
            Json::Array(items) => {
                let mut r = String::new();
                let mut i: usize = 0;
                assert(items@.take(0) =~= Seq::<Json>::empty());
                proof {
                    lemma_items_view(items@);
                }
                while i < items.len()
                    invariant
                        i <= items@.len(),
                        *self == Json::Array(*items),
                        r@ == items_text(items_view(items@.take(i as int))),
                    decreases items@.len() - i,
                {
                    assert(decreases_to!(*self => self->Array_0));
                    assert(decreases_to!(*items => items@));
                    assert(decreases_to!(items@ => items@[i as int]));
                    let item = items[i].to_text();
                    let ghost upto = items@.take(i as int + 1);
                    assert(upto.drop_last() =~= items@.take(i as int));
                    proof {
                        lemma_items_view(upto);
                        assert(items_view(upto).drop_last() =~= items_view(items@.take(i as int)));
                    }
                    if i == 0 {
                        r = item;
                    } else {
                        r.append(",");
                        r.append(item.as_str());
                    }
                    i = i + 1;
                }
                assert(items@.take(items@.len() as int) =~= items@);
                let mut out = "[".to_owned();
                out.append(r.as_str());
                out.append("]");
                out
            },
            Json::Object(fields) => {
                let mut r = String::new();
                let mut i: usize = 0;
                assert(fields@.take(0) =~= Seq::<(String, Json)>::empty());
                while i < fields.len()
                    invariant
                        i <= fields@.len(),
                        *self == Json::Object(*fields),
                        r@ == fields_text(fields_view(fields@.take(i as int))),
                    decreases fields@.len() - i,
                {
                    let mut pair = quote(fields[i].0.as_str());
                    assert(decreases_to!(*self => self->Object_0));
                    assert(decreases_to!(*fields => fields@));
                    assert(decreases_to!(fields@ => fields@[i as int]));
                    assert(decreases_to!(fields@[i as int] => fields@[i as int].1));
                    let value = fields[i].1.to_text();
                    pair.append(":");
                    pair.append(value.as_str());
                    let ghost upto = fields@.take(i as int + 1);
                    assert(upto.drop_last() =~= fields@.take(i as int));
                    proof {
                        lemma_fields_view(upto);
                        assert(fields_view(upto).drop_last() =~= fields_view(
                            fields@.take(i as int),
                        ));
                    }
                    if i == 0 {
                        r = pair;
                    } else {
                        r.append(",");
                        r.append(pair.as_str());
                    }
                    i = i + 1;
                }
                assert(fields@.take(fields@.len() as int) =~= fields@);
                let mut out = "{".to_owned();
                out.append(r.as_str());
                out.append("}");
                out
            },
        }
    }

    /// The text of this value over several lines.
    pub fn to_pretty_text(&self, indent: &str) -> (r: String)
        ensures
            r@ == pretty_text(self@, indent@),
        decreases *self,
    {
        match self {
            Json::Array(items) => {
                proof {
                    lemma_items_view(items@);
                }
                if items.len() == 0 {
                    return "[]".to_owned();
                }
                let inner = text::concat(indent, "  ");
                let mut r = String::new();
                let mut i: usize = 0;
                assert(items@.take(0) =~= Seq::<Json>::empty());
                while i < items.len()
                    invariant
                        i <= items@.len(),
                        *self == Json::Array(*items),
                        inner@ == indent@ + "  "@,
                        r@ == items_pretty(items_view(items@.take(i as int)), inner@),
                    decreases items@.len() - i,
                {
                    assert(decreases_to!(*self => self->Array_0));
                    assert(decreases_to!(*items => items@));
                    assert(decreases_to!(items@ => items@[i as int]));
                    let item = items[i].to_pretty_text(inner.as_str());
                    let ghost upto = items@.take(i as int + 1);
                    assert(upto.drop_last() =~= items@.take(i as int));
                    proof {
                        lemma_items_view(upto);
                        assert(items_view(upto).drop_last() =~= items_view(items@.take(i as int)));
                    }
                    if i == 0 {
                        r = item;
                    } else {
                        r.append(",\n");
                        r.append(inner.as_str());
                        r.append(item.as_str());
                    }
                    i = i + 1;
                }
                assert(items@.take(items@.len() as int) =~= items@);
                let mut out = "[\n".to_owned();
                out.append(inner.as_str());
                out.append(r.as_str());
                out.append("\n");
                out.append(indent);
                out.append("]");
                out
            },
            Json::Object(fields) => {
                proof {
                    lemma_fields_view(fields@);
                }
                if fields.len() == 0 {
                    return "{}".to_owned();
                }
                let inner = text::concat(indent, "  ");
                let mut r = String::new();
                let mut i: usize = 0;
                assert(fields@.take(0) =~= Seq::<(String, Json)>::empty());
                while i < fields.len()
                    invariant
                        i <= fields@.len(),
                        *self == Json::Object(*fields),
                        inner@ == indent@ + "  "@,
                        r@ == fields_pretty(fields_view(fields@.take(i as int)), inner@),
                    decreases fields@.len() - i,
                {
                    let mut pair = quote(fields[i].0.as_str());
                    assert(decreases_to!(*self => self->Object_0));
                    assert(decreases_to!(*fields => fields@));
                    assert(decreases_to!(fields@ => fields@[i as int]));
                    assert(decreases_to!(fields@[i as int] => fields@[i as int].1));
                    let value = fields[i].1.to_pretty_text(inner.as_str());
                    pair.append(": ");
                    pair.append(value.as_str());
                    let ghost upto = fields@.take(i as int + 1);
                    assert(upto.drop_last() =~= fields@.take(i as int));
                    proof {
                        lemma_fields_view(upto);
                        assert(fields_view(upto).drop_last() =~= fields_view(
                            fields@.take(i as int),
                        ));
                    }
                    if i == 0 {
                        r = pair;
                    } else {
                        r.append(",\n");
                        r.append(inner.as_str());
                        r.append(pair.as_str());
                    }
                    i = i + 1;
                }
                assert(fields@.take(fields@.len() as int) =~= fields@);
                let mut out = "{\n".to_owned();
                out.append(inner.as_str());
                out.append(r.as_str());
                out.append("\n");
                out.append(indent);
                out.append("}");
                out
            },
            _ => self.to_text(),
        }
    }
}

} // verus!
