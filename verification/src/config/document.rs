//! Configuration files as text: how they are read, and how they are written
//! again with one thing changed.
use crate::json;
use crate::json::Json;
use crate::json::JsonView;
use crate::textmap;
use toml::map::Map as TomlMap;
use toml::Value;
use vstd::prelude::*;
use vstd::string::*;

verus! {

/// A TOML table as `toml` holds it.
#[verifier::external_type_specification]
#[verifier::external_body]
#[verifier::reject_recursive_types(K)]
#[verifier::reject_recursive_types(V)]
pub struct ExMap<K, V>(toml::map::Map<K, V>);

/// A TOML value as `toml` holds it.
#[verifier::external_type_specification]
#[verifier::external_body]
pub struct ExTomlValue(toml::Value);

/// What a `toml::Table` holds, in the order of the names. Tables are objects;
/// a number that is no integer, and a time, are kept by their text.
pub uninterp spec fn table_fields(table: TomlMap<String, Value>) -> Seq<
    (Seq<char>, JsonView),
>;

/// What a `toml::Value` holds.
pub uninterp spec fn toml_view(value: Value) -> JsonView;

/// What `toml::from_str` makes of a text: the table it denotes, or its message
/// on why it denotes none.
pub uninterp spec fn parsed_toml(content: Seq<char>) -> Result<
    Seq<(Seq<char>, JsonView)>,
    Seq<char>,
>;

/// What `toml::to_string_pretty` makes of a table.
pub uninterp spec fn printed_toml(fields: Seq<(Seq<char>, JsonView)>) -> Result<
    Seq<char>,
    Seq<char>,
>;

/// How deep lists and tables may stand inside one another in a table that is
/// read back as it was written.
pub const MAX_NESTING: usize = 32;

/// The name by which `toml` tells a time from a table.
pub const TIME_KEY: &'static str = "$__toml_private_datetime";

/// Whether a value is made of texts, integers that TOML can hold, booleans,
/// lists and tables alone, no more than `depth` of them inside one another, and
/// no table can be taken for a time.
pub open spec fn plain_toml(v: JsonView, depth: nat) -> bool
    decreases depth,
{
    match v {
        JsonView::Text(_) => true,
        JsonView::Bool(_) => true,
        JsonView::Unsigned(n) => n <= 0x7fff_ffff_ffff_ffff,
        JsonView::Negative(n) => n < 0,
        JsonView::Array(items) => depth > 0 && forall|i: int|
            0 <= i < items.len() ==> plain_toml(#[trigger] items[i], (depth - 1) as nat),
        JsonView::Object(fields) => depth > 0 && forall|i: int|
            0 <= i < fields.len() ==> plain_toml((#[trigger] fields[i]).1, (depth - 1) as nat)
                && fields[i].0 != TIME_KEY@,
        _ => false,
    }
}

/// Whether a table is made of such values.
pub open spec fn plain_table(fields: Seq<(Seq<char>, JsonView)>) -> bool {
    forall|i: int|
        0 <= i < fields.len() ==> plain_toml((#[trigger] fields[i]).1, MAX_NESTING as nat)
}

/// Whether a text is read as a table that holds `fields`.
pub open spec fn denotes(content: Seq<char>, fields: Seq<(Seq<char>, JsonView)>) -> bool {
    parsed_toml(content) == Ok::<Seq<(Seq<char>, JsonView)>, Seq<char>>(fields)
}

/// `toml::Table::new`: a table that holds nothing.
#[verifier::external_body]
pub(crate) fn new_table() -> (r: TomlMap<String, Value>)
    ensures
        table_fields(r) == Seq::<(Seq<char>, JsonView)>::empty(),
{
    TomlMap::new()
}

/// `toml::from_str` into a `toml::Table`. The result depends on the text alone,
/// and a table keeps its entries ordered by name.
#[verifier::external_body]
pub(crate) fn parse_table(content: &str) -> (r: Result<
    TomlMap<String, Value>,
    String,
>)
    ensures
        match r {
            Ok(table) => denotes(content@, table_fields(table)) && textmap::sorted(table_fields(table)),
            Err(message) => parsed_toml(content@) == Err::<Seq<(Seq<char>, JsonView)>, Seq<char>>(
                message@,
            ),
        },
{
    toml::from_str::<toml::Table>(content).map_err(|error| error.to_string())
}

/// `toml::Value::Table`: a table as a value.
#[verifier::external_body]
pub(crate) fn table_value(table: TomlMap<String, Value>) -> (r: Value)
    ensures
        toml_view(r) == JsonView::Object(table_fields(table)),
{
    Value::Table(table)
}

/// The contents of a `toml::Value`, moved variant by variant into a [`Json`].
#[verifier::external_body]
pub(crate) fn json_of_toml(value: &Value) -> (r: Json)
    ensures
        r@ == toml_view(*value),
{
    match value {
        Value::String(s) => Json::Text(s.clone()),
        Value::Integer(n) => match u64::try_from(*n) {
            Ok(n) => Json::Unsigned(n),
            Err(_) => Json::Negative(*n),
        },
        Value::Float(_) => Json::Float(value.to_string()),
        Value::Boolean(b) => Json::Bool(*b),
        Value::Datetime(time) => Json::Float(time.to_string()),
        Value::Array(v) => Json::Array(v.iter().map(json_of_toml).collect()),
        Value::Table(m) => {
            Json::Object(m.iter().map(|(k, v)| (k.clone(), json_of_toml(v))).collect())
        },
    }
}

/// The contents of a [`Json`], moved variant by variant into a `toml::Value`.
/// It holds nothing but what TOML can hold; its tables are ordered by name.
#[verifier::external_body]
pub(crate) fn toml_of_json(value: &Json) -> (r: Value)
    requires
        plain_toml(value@, MAX_NESTING as nat),
    ensures
        toml_view(r) == json::canonical(value@),
{
    match value {
        Json::Text(s) => Value::String(s.clone()),
        Json::Unsigned(n) => Value::Integer(*n as i64),
        Json::Negative(n) => Value::Integer(*n),
        Json::Bool(b) => Value::Boolean(*b),
        Json::Array(v) => Value::Array(v.iter().map(toml_of_json).collect()),
        Json::Object(m) => {
            Value::Table(m.iter().map(|(k, v)| (k.clone(), toml_of_json(v))).collect())
        },
        Json::Null => Value::String(String::new()),
        Json::Float(s) => Value::String(s.clone()),
    }
}

/// `toml::Table::insert`: the entry takes its place by name, or the place of
/// the one that had its name.
#[verifier::external_body]
pub(crate) fn insert_entry(
    table: &mut TomlMap<String, Value>,
    key: &str,
    value: Value,
)
    requires
        textmap::sorted(table_fields(*old(table))),
    ensures
        table_fields(*final(table)) == textmap::inserted(
            table_fields(*old(table)),
            key@,
            toml_view(value),
        ),
{
    table.insert(key.to_owned(), value);
}

/// `toml::Table::remove`: the entry of that name is gone, where there was one.
#[verifier::external_body]
pub(crate) fn remove_entry(table: &mut TomlMap<String, Value>, key: &str)
    requires
        textmap::sorted(table_fields(*old(table))),
    ensures
        table_fields(*final(table)) == textmap::removed(table_fields(*old(table)), key@),
{
    table.remove(key);
}

/// `toml::to_string_pretty` of a table. The result depends on what the table
/// holds alone. A table of texts, integers, booleans, lists and tables, not
/// nested too deep, is written, and `toml::from_str` reads it back as it was.
#[verifier::external_body]
pub(crate) fn print_table(table: &TomlMap<String, Value>) -> (r: Result<
    String,
    String,
>)
    ensures
        match r {
            Ok(content) => printed_toml(table_fields(*table)) == Ok::<Seq<char>, Seq<char>>(
                content@,
            ),
            Err(message) => printed_toml(table_fields(*table)) == Err::<Seq<char>, Seq<char>>(
                message@,
            ),
        },
        plain_table(table_fields(*table)) ==> (r is Ok && denotes(
            r->Ok_0@,
            table_fields(*table),
        )),
{
    toml::to_string_pretty(table).map_err(|error| error.to_string())
}

} // verus!
