//! What the arguments of a tool must be, and what is wrong with those that are
//! not.
use crate::json;
use crate::json::{fields_view, items_view, json_text, lemma_fields_view, lemma_items_view, Json, JsonView};
use crate::text;
use vstd::prelude::*;

verus! {

/// What an argument is.
#[derive(Clone, Copy, Debug, PartialEq, Eq)]
pub enum Shape {
    Text,
    Path,
    Flag,
    Count,
}

/// One argument of a tool: `nullable` where null stands for none given, and
/// `spare` where a list of arguments may end before it.
#[derive(Debug)]
pub struct Slot {
    pub name: &'static str,
    pub shape: Shape,
    pub nullable: bool,
    pub spare: bool,
}

/// What a [`Slot`] holds.
pub struct SlotView {
    pub name: Seq<char>,
    pub shape: Shape,
    pub nullable: bool,
    pub spare: bool,
}

impl View for Slot {
    type V = SlotView;

    open spec fn view(&self) -> SlotView {
        SlotView {
            name: self.name@,
            shape: self.shape,
            nullable: self.nullable,
            spare: self.spare,
        }
    }
}

/// An argument that must be given.
pub open spec fn needed(name: Seq<char>, shape: Shape) -> SlotView {
    SlotView { name, shape, nullable: false, spare: false }
}

/// An argument that may be null or left out of an object.
pub open spec fn nullable(name: Seq<char>, shape: Shape) -> SlotView {
    SlotView { name, shape, nullable: true, spare: false }
}

/// An argument that may be null or left out.
pub open spec fn optional(name: Seq<char>, shape: Shape) -> SlotView {
    SlotView { name, shape, nullable: true, spare: true }
}

/// An argument that may be left out.
pub open spec fn spare(name: Seq<char>, shape: Shape) -> SlotView {
    SlotView { name, shape, nullable: false, spare: true }
}

/// What a value is called where it is not what was expected.
pub open spec fn described(value: JsonView) -> Seq<char> {
    match value {
        JsonView::Null => "null"@,
        JsonView::Bool(_) => "boolean `"@ + json_text(value) + "`"@,
        JsonView::Unsigned(_) => "integer `"@ + json_text(value) + "`"@,
        JsonView::Negative(_) => "integer `"@ + json_text(value) + "`"@,
        JsonView::Float(_) => "floating point `"@ + json_text(value) + "`"@,
        JsonView::Text(s) => "string "@ + text::debug_quoted(s),
        JsonView::Array(_) => "sequence"@,
        JsonView::Object(_) => "map"@,
    }
}

/// What is expected of an argument.
pub open spec fn expected(shape: Shape) -> Seq<char> {
    match shape {
        Shape::Text => "a string"@,
        Shape::Path => "path string"@,
        Shape::Flag => "a boolean"@,
        Shape::Count => "usize"@,
    }
}

/// Whether a value is what an argument must be.
pub open spec fn fits(value: JsonView, shape: Shape) -> bool {
    match shape {
        Shape::Text => value is Text,
        Shape::Path => value is Text,
        Shape::Flag => value is Bool,
        Shape::Count => value is Unsigned && value->Unsigned_0 <= usize::MAX,
    }
}

/// What is wrong with a value as an argument, where anything is.
pub open spec fn misfit(value: JsonView, slot: SlotView) -> Option<Seq<char>> {
    if fits(value, slot.shape) || (slot.nullable && value is Null) {
        None
    } else if slot.shape is Count && (value is Unsigned || value is Negative) {
        Some("invalid value: "@ + described(value) + ", expected "@ + expected(slot.shape))
    } else {
        Some("invalid type: "@ + described(value) + ", expected "@ + expected(slot.shape))
    }
}

/// What is wrong with one field of an object. Fields of other names are passed
/// over.
pub open spec fn field_misfit(
    key: Seq<char>,
    value: JsonView,
    slots: Seq<SlotView>,
) -> Option<Seq<char>>
    decreases slots.len(),
{
    if slots.len() == 0 {
        None
    } else if slots[0].name == key && misfit(value, slots[0]) is Some {
        misfit(value, slots[0])
    } else {
        field_misfit(key, value, slots.drop_first())
    }
}

/// What is wrong with the first field of an object with which anything is.
pub open spec fn fields_misfit(
    fields: Seq<(Seq<char>, JsonView)>,
    slots: Seq<SlotView>,
) -> Option<Seq<char>>
    decreases fields.len(),
{
    if fields.len() == 0 {
        None
    } else {
        match field_misfit(fields[0].0, fields[0].1, slots) {
            Some(fault) => Some(fault),
            None => fields_misfit(fields.drop_first(), slots),
        }
    }
}

/// The first argument that an object lacks and must have.
pub open spec fn missing(value: JsonView, slots: Seq<SlotView>) -> Option<Seq<char>>
    decreases slots.len(),
{
    if slots.len() == 0 {
        None
    } else if value.get(slots[0].name) is None && !slots[0].nullable && !slots[0].spare {
        Some(slots[0].name)
    } else {
        missing(value, slots.drop_first())
    }
}

/// What is wrong with a list of arguments from position `i` on.
pub open spec fn items_misfit(
    name: Seq<char>,
    items: Seq<JsonView>,
    slots: Seq<SlotView>,
    i: int,
) -> Option<Seq<char>>
    decreases slots.len() - i,
{
    if i < 0 || i >= slots.len() {
        None
    } else {
        let fault = if i < items.len() {
            misfit(items[i], slots[i])
        } else if slots[i].spare {
            None
        } else {
            Some(
                "invalid length "@ + text::decimal(i as nat) + ", expected struct "@ + name
                    + " with "@ + text::decimal(slots.len()) + (if slots.len() == 1 {
                    " element"@
                } else {
                    " elements"@
                }),
            )
        };
        match fault {
            Some(fault) => Some(fault),
            None => items_misfit(name, items, slots, i + 1),
        }
    }
}

/// What is wrong with the arguments of a tool, where anything is. They are an
/// object, or a list that gives them in their order.
pub open spec fn fault(
    value: JsonView,
    name: Seq<char>,
    slots: Seq<SlotView>,
) -> Option<Seq<char>> {
    match value {
        JsonView::Object(fields) => match fields_misfit(fields, slots) {
            Some(fault) => Some(fault),
            None => match missing(value, slots) {
                Some(field) => Some("missing field `"@ + field + "`"@),
                None => None,
            },
        },
        JsonView::Array(items) => match items_misfit(name, items, slots, 0) {
            Some(fault) => Some(fault),
            None => if items.len() > slots.len() {
                Some(
                    "invalid length "@ + text::decimal(items.len())
                        + ", expected fewer elements in array"@,
                )
            } else {
                None
            },
        },
        _ => Some("invalid type: "@ + described(value) + ", expected struct "@ + name),
    }
}

/// What was given for an argument.
pub open spec fn given(value: JsonView, slots: Seq<SlotView>, i: int) -> Option<JsonView> {
    match value {
        JsonView::Array(items) => if i < items.len() {
            Some(items[i])
        } else {
            None
        },
        _ => value.get(slots[i].name),
    }
}

/// The text that was given, where one was.
pub open spec fn text_of(value: Option<JsonView>) -> Option<Seq<char>> {
    match value {
        Some(JsonView::Text(s)) => Some(s),
        _ => None,
    }
}

/// The number that was given, where one was.
pub open spec fn count_of(value: Option<JsonView>) -> Option<usize> {
    match value {
        Some(JsonView::Unsigned(n)) => Some(n as usize),
        _ => None,
    }
}

/// The number that was given, or else `default`.
pub open spec fn count_or(value: Option<JsonView>, default: usize) -> usize {
    match count_of(value) {
        Some(n) => n,
        None => default,
    }
}

/// The truth value that was given, or else `default`.
pub open spec fn flag_or(value: Option<JsonView>, default: bool) -> bool {
    match value {
        Some(JsonView::Bool(b)) => b,
        _ => default,
    }
}

/// Whether what was given for an argument is what it must be.
pub open spec fn suits(value: Option<JsonView>, slot: SlotView) -> bool {
    match value {
        Some(value) => misfit(value, slot) is None,
        None => slot.nullable || slot.spare,
    }
}

proof fn lemma_fields_suit(
    fields: Seq<(Seq<char>, JsonView)>,
    slots: Seq<SlotView>,
    i: int,
    k: int,
)
    requires
        0 <= i < fields.len(),
        0 <= k < slots.len(),
        slots[k].name == fields[i].0,
        fields_misfit(fields, slots) is None,
    ensures
        misfit(fields[i].1, slots[k]) is None,
    decreases fields.len(),
{
    if i > 0 {
        assert(fields.drop_first()[i - 1] == fields[i]);
        lemma_fields_suit(fields.drop_first(), slots, i - 1, k);
    } else {
        lemma_field_suits(fields[0].0, fields[0].1, slots, k);
    }
}

proof fn lemma_field_suits(key: Seq<char>, value: JsonView, slots: Seq<SlotView>, k: int)
    requires
        0 <= k < slots.len(),
        slots[k].name == key,
        field_misfit(key, value, slots) is None,
    ensures
        misfit(value, slots[k]) is None,
    decreases slots.len(),
{
    if k > 0 {
        assert(slots.drop_first()[k - 1] == slots[k]);
        lemma_field_suits(key, value, slots.drop_first(), k - 1);
    }
}

proof fn lemma_field_index(fields: Seq<(Seq<char>, JsonView)>, key: Seq<char>) -> (i: int)
    requires
        JsonView::Object(fields).get(key) is Some,
    ensures
        0 <= i < fields.len(),
        fields[i].0 == key,
        JsonView::Object(fields).get(key) == Some(fields[i].1),
    decreases fields.len(),
{
    if fields[0].0 == key {
        0
    } else {
        let i = lemma_field_index(fields.drop_first(), key);
        i + 1
    }
}

proof fn lemma_none_missing(value: JsonView, slots: Seq<SlotView>, k: int)
    requires
        0 <= k < slots.len(),
        missing(value, slots) is None,
    ensures
        value.get(slots[k].name) is None ==> slots[k].nullable || slots[k].spare,
    decreases slots.len(),
{
    if k > 0 {
        assert(slots.drop_first()[k - 1] == slots[k]);
        lemma_none_missing(value, slots.drop_first(), k - 1);
    }
}

proof fn lemma_items_suit(
    name: Seq<char>,
    items: Seq<JsonView>,
    slots: Seq<SlotView>,
    i: int,
    k: int,
)
    requires
        0 <= i <= k < slots.len(),
        items_misfit(name, items, slots, i) is None,
    ensures
        if k < items.len() {
            misfit(items[k], slots[k]) is None
        } else {
            slots[k].spare
        },
    decreases slots.len() - i,
{
    if i < k {
        lemma_items_suit(name, items, slots, i + 1, k);
    }
}

/// Arguments with which nothing is wrong are what they must be.
pub proof fn law_faultless_arguments_suit(
    value: JsonView,
    name: Seq<char>,
    slots: Seq<SlotView>,
    k: int,
)
    requires
        0 <= k < slots.len(),
        fault(value, name, slots) is None,
    ensures
        suits(given(value, slots, k), slots[k]),
{
    match value {
        JsonView::Object(fields) => {
            lemma_none_missing(value, slots, k);
            if value.get(slots[k].name) is Some {
                let i = lemma_field_index(fields, slots[k].name);
                lemma_fields_suit(fields, slots, i, k);
            }
        },
        JsonView::Array(items) => {
            lemma_items_suit(name, items, slots, 0, k);
        },
        _ => {},
    }
}

/// An argument that must be given.
pub fn needed_slot(name: &'static str, shape: Shape) -> (r: Slot)
    ensures
        r@ == needed(name@, shape),
{
    Slot { name, shape, nullable: false, spare: false }
}

/// An argument that may be null or left out of an object.
pub fn nullable_slot(name: &'static str, shape: Shape) -> (r: Slot)
    ensures
        r@ == nullable(name@, shape),
{
    Slot { name, shape, nullable: true, spare: false }
}

/// An argument that may be null or left out.
pub fn optional_slot(name: &'static str, shape: Shape) -> (r: Slot)
    ensures
        r@ == optional(name@, shape),
{
    Slot { name, shape, nullable: true, spare: true }
}

/// An argument that may be left out.
pub fn spare_slot(name: &'static str, shape: Shape) -> (r: Slot)
    ensures
        r@ == spare(name@, shape),
{
    Slot { name, shape, nullable: false, spare: true }
}

/// What a value is called where it is not what was expected.
fn describe(value: &Json) -> (r: String)
    ensures
        r@ == described(value@),
{
    match value {
        Json::Null => "null".to_owned(),
        Json::Bool(_) => ticked("boolean `", value),
        Json::Unsigned(_) => ticked("integer `", value),
        Json::Negative(_) => ticked("integer `", value),
        Json::Float(_) => ticked("floating point `", value),
        Json::Text(s) => {
            let quoted = text::debug_text(s.as_str());
            text::concat("string ", quoted.as_str())
        },
        Json::Array(_) => "sequence".to_owned(),
        Json::Object(_) => "map".to_owned(),
    }
}

/// A word and the text of a value, up to the closing tick.
fn ticked(word: &str, value: &Json) -> (r: String)
    ensures
        r@ == word@ + json_text(value@) + "`"@,
{
    let shown = value.to_text();
    let mut r = text::concat(word, shown.as_str());
    r.append("`");
    r
}

/// What is expected of an argument.
fn expectation(shape: Shape) -> (r: &'static str)
    ensures
        r@ == expected(shape),
{
    match shape {
        Shape::Text => "a string",
        Shape::Path => "path string",
        Shape::Flag => "a boolean",
        Shape::Count => "usize",
    }
}

/// What is wrong with a value as an argument, where anything is.
fn find_misfit(value: &Json, slot: &Slot) -> (r: Option<String>)
    ensures
        text::opt(r) == misfit(value@, slot@),
{
    let kind = match (slot.shape, value) {
        (Shape::Text, Json::Text(_)) => {
            return None;
        },
        (Shape::Path, Json::Text(_)) => {
            return None;
        },
        (Shape::Flag, Json::Bool(_)) => {
            return None;
        },
        (Shape::Count, Json::Unsigned(n)) => {
            if *n <= usize::MAX as u64 {
                return None;
            }
            "invalid value: "
        },
        (Shape::Count, Json::Negative(_)) => "invalid value: ",
        (_, Json::Null) => {
            if slot.nullable {
                return None;
            }
            "invalid type: "
        },
        _ => "invalid type: ",
    };
    let shown = describe(value);
    let mut r = text::concat(kind, shown.as_str());
    r.append(", expected ");
    r.append(expectation(slot.shape));
    Some(r)
}

/// What is wrong with one field of an object.
fn find_field_misfit(key: &str, value: &Json, slots: &Vec<Slot>) -> (r: Option<String>)
    ensures
        text::opt(r) == field_misfit(key@, value@, text::views(slots@)),
{
    let ghost model = text::views(slots@);
    let mut i: usize = 0;
    assert(model.skip(0) =~= model);
    while i < slots.len()
        invariant
            i <= slots@.len(),
            model == text::views(slots@),
            field_misfit(key@, value@, model) == field_misfit(key@, value@, model.skip(i as int)),
        decreases slots@.len() - i,
    {
        proof {
            assert(model.skip(i as int)[0] == slots@[i as int]@);
            assert(model.skip(i as int).drop_first() =~= model.skip(i + 1));
        }
        if text::same(slots[i].name, key) {
            let misfit = find_misfit(value, &slots[i]);
            if misfit.is_some() {
                return misfit;
            }
        }
        i = i + 1;
    }
    None
}

/// What is wrong with the first field of an object with which anything is.
fn find_fields_misfit(fields: &Vec<(String, Json)>, slots: &Vec<Slot>) -> (r: Option<String>)
    ensures
        text::opt(r) == fields_misfit(fields_view(fields@), text::views(slots@)),
{
    let ghost model = fields_view(fields@);
    let ghost wanted = text::views(slots@);
    proof {
        lemma_fields_view(fields@);
    }
    let mut i: usize = 0;
    assert(model.skip(0) =~= model);
    while i < fields.len()
        invariant
            i <= fields@.len() == model.len(),
            model == fields_view(fields@),
            wanted == text::views(slots@),
            forall|j: int|
                0 <= j < fields@.len() ==> #[trigger] model[j] == (fields@[j].0@, fields@[j].1@),
            fields_misfit(model, wanted) == fields_misfit(model.skip(i as int), wanted),
        decreases fields@.len() - i,
    {
        proof {
            assert(model.skip(i as int)[0] == model[i as int]);
            assert(model.skip(i as int).drop_first() =~= model.skip(i + 1));
        }
        let misfit = find_field_misfit(fields[i].0.as_str(), &fields[i].1, slots);
        if misfit.is_some() {
            return misfit;
        }
        i = i + 1;
    }
    None
}

/// The first argument that an object lacks and must have.
fn find_missing(value: &Json, slots: &Vec<Slot>) -> (r: Option<&'static str>)
    ensures
        match r {
            Some(name) => missing(value@, text::views(slots@)) == Some(name@),
            None => missing(value@, text::views(slots@)) is None,
        },
{
    let ghost model = text::views(slots@);
    let mut i: usize = 0;
    assert(model.skip(0) =~= model);
    while i < slots.len()
        invariant
            i <= slots@.len(),
            model == text::views(slots@),
            missing(value@, model) == missing(value@, model.skip(i as int)),
        decreases slots@.len() - i,
    {
        proof {
            assert(model.skip(i as int)[0] == slots@[i as int]@);
            assert(model.skip(i as int).drop_first() =~= model.skip(i + 1));
        }
        if !slots[i].nullable && !slots[i].spare && value.get(slots[i].name).is_none() {
            return Some(slots[i].name);
        }
        i = i + 1;
    }
    None
}

/// What is wrong with a list of arguments.
fn find_items_misfit(name: &str, items: &Vec<Json>, slots: &Vec<Slot>) -> (r: Option<String>)
    ensures
        text::opt(r) == items_misfit(name@, items_view(items@), text::views(slots@), 0),
{
    let ghost model = items_view(items@);
    let ghost wanted = text::views(slots@);
    proof {
        lemma_items_view(items@);
    }
    let mut i: usize = 0;
    while i < slots.len()
        invariant
            i <= slots@.len(),
            wanted == text::views(slots@),
            model.len() == items@.len(),
            model == items_view(items@),
            forall|j: int| 0 <= j < items@.len() ==> #[trigger] model[j] == items@[j]@,
            items_misfit(name@, model, wanted, 0) == items_misfit(name@, model, wanted, i as int),
        decreases slots@.len() - i,
    {
        assert(wanted[i as int] == slots@[i as int]@);
        if i < items.len() {
            let misfit = find_misfit(&items[i], &slots[i]);
            if misfit.is_some() {
                return misfit;
            }
        } else if !slots[i].spare {
            let at = text::decimal_of(i as u64);
            let count = text::decimal_of(slots.len() as u64);
            let mut r = text::concat("invalid length ", at.as_str());
            r.append(", expected struct ");
            r.append(name);
            r.append(" with ");
            r.append(count.as_str());
            if slots.len() == 1 {
                r.append(" element");
            } else {
                r.append(" elements");
            }
            return Some(r);
        }
        i = i + 1;
    }
    None
}

/// What is wrong with the arguments of a tool, where anything is.
pub fn find_fault(value: &Json, name: &str, slots: &Vec<Slot>) -> (r: Option<String>)
    ensures
        text::opt(r) == fault(value@, name@, text::views(slots@)),
{
    match value {
        Json::Object(fields) => {
            let misfit = find_fields_misfit(fields, slots);
            if misfit.is_some() {
                return misfit;
            }
            match find_missing(value, slots) {
                Some(field) => {
                    let mut r = text::concat("missing field `", field);
                    r.append("`");
                    Some(r)
                },
                None => None,
            }
        },
        Json::Array(items) => {
            let misfit = find_items_misfit(name, items, slots);
            if misfit.is_some() {
                return misfit;
            }
            proof {
                lemma_items_view(items@);
            }
            if items.len() > slots.len() {
                let count = text::decimal_of(items.len() as u64);
                let mut r = text::concat("invalid length ", count.as_str());
                r.append(", expected fewer elements in array");
                Some(r)
            } else {
                None
            }
        },
        _ => {
            let shown = describe(value);
            let mut r = text::concat("invalid type: ", shown.as_str());
            r.append(", expected struct ");
            r.append(name);
            Some(r)
        },
    }
}

/// What was given for an argument.
fn find_given<'a>(value: &'a Json, slots: &Vec<Slot>, i: usize) -> (r: Option<&'a Json>)
    requires
        i < slots@.len(),
    ensures
        match r {
            Some(found) => given(value@, text::views(slots@), i as int) == Some(found@),
            None => given(value@, text::views(slots@), i as int) is None,
        },
{
    match value {
        Json::Array(items) => {
            proof {
                lemma_items_view(items@);
            }
            if i < items.len() {
                Some(&items[i])
            } else {
                None
            }
        },
        _ => value.get(slots[i].name),
    }
}

/// The message on arguments with which something is wrong.
pub open spec fn refusal(tool: Seq<char>, fault: Seq<char>) -> Seq<char> {
    "invalid "@ + tool + " arguments: "@ + fault
}

/// Nothing, where the arguments of a tool are what they must be, or else what
/// is wrong with them.
pub fn check_arguments(value: &Json, tool: &str, name: &str, slots: &Vec<Slot>) -> (r: Result<
    (),
    String,
>)
    ensures
        match fault(value@, name@, text::views(slots@)) {
            Some(fault) => r is Err && r->Err_0@ == refusal(tool@, fault),
            None => r is Ok && forall|k: int|
                0 <= k < slots@.len() ==> suits(
                    #[trigger] given(value@, text::views(slots@), k),
                    slots@[k]@,
                ),
        },
{
    match find_fault(value, name, slots) {
        Some(fault) => {
            let mut message = text::concat("invalid ", tool);
            message.append(" arguments: ");
            message.append(fault.as_str());
            Err(message)
        },
        None => {
            proof {
                let model = text::views(slots@);
                assert forall|k: int| 0 <= k < slots@.len() implies suits(
                    #[trigger] given(value@, model, k),
                    slots@[k]@,
                ) by {
                    law_faultless_arguments_suit(value@, name@, model, k);
                }
            }
            Ok(())
        },
    }
}

/// The text that was given, where one was.
pub fn optional_text(value: &Json, slots: &Vec<Slot>, i: usize) -> (r: Option<String>)
    requires
        i < slots@.len(),
    ensures
        text::opt(r) == text_of(given(value@, text::views(slots@), i as int)),
{
    match find_given(value, slots, i) {
        Some(Json::Text(s)) => Some(s.clone()),
        _ => None,
    }
}

/// The text that was given.
pub fn given_text(value: &Json, slots: &Vec<Slot>, i: usize) -> (r: String)
    requires
        i < slots@.len(),
        text_of(given(value@, text::views(slots@), i as int)) is Some,
    ensures
        text_of(given(value@, text::views(slots@), i as int)) == Some(r@),
{
    match find_given(value, slots, i) {
        Some(Json::Text(s)) => s.clone(),
        _ => String::new(),
    }
}

/// The number that was given, where one was.
pub fn optional_count(value: &Json, slots: &Vec<Slot>, i: usize) -> (r: Option<usize>)
    requires
        i < slots@.len(),
    ensures
        r == count_of(given(value@, text::views(slots@), i as int)),
{
    match find_given(value, slots, i) {
        Some(Json::Unsigned(n)) => Some(*n as usize),
        _ => None,
    }
}

/// The truth value that was given, or else `default`.
pub fn flag_else(value: &Json, slots: &Vec<Slot>, i: usize, default: bool) -> (r: bool)
    requires
        i < slots@.len(),
    ensures
        r == flag_or(given(value@, text::views(slots@), i as int), default),
{
    match find_given(value, slots, i) {
        Some(Json::Bool(b)) => *b,
        _ => default,
    }
}

/// Every field of an object that an argument goes by is what it must be.
pub open spec fn all_fit(fields: Seq<(Seq<char>, JsonView)>, slots: Seq<SlotView>) -> bool {
    forall|i: int, k: int|
        0 <= i < fields.len() && 0 <= k < slots.len() && (#[trigger] fields[i]).0 == (
        #[trigger] slots[k]).name ==> misfit(fields[i].1, slots[k]) is None
}

proof fn lemma_field_fits(key: Seq<char>, value: JsonView, slots: Seq<SlotView>)
    requires
        forall|k: int|
            0 <= k < slots.len() && (#[trigger] slots[k]).name == key ==> misfit(
                value,
                slots[k],
            ) is None,
    ensures
        field_misfit(key, value, slots) is None,
    decreases slots.len(),
{
    if slots.len() > 0 {
        let rest = slots.drop_first();
        assert forall|k: int|
            0 <= k < rest.len() && (#[trigger] rest[k]).name == key implies misfit(
            value,
            rest[k],
        ) is None by {
            assert(rest[k] == slots[k + 1]);
        }
        assert(slots[0].name == key ==> misfit(value, slots[0]) is None);
        lemma_field_fits(key, value, rest);
    }
}

proof fn lemma_fields_fit(fields: Seq<(Seq<char>, JsonView)>, slots: Seq<SlotView>)
    requires
        all_fit(fields, slots),
    ensures
        fields_misfit(fields, slots) is None,
    decreases fields.len(),
{
    if fields.len() > 0 {
        let rest = fields.drop_first();
        assert forall|k: int|
            0 <= k < slots.len() && (#[trigger] slots[k]).name == fields[0].0 implies misfit(
            fields[0].1,
            slots[k],
        ) is None by {
            assert(fields[0].0 == slots[k].name);
        }
        lemma_field_fits(fields[0].0, fields[0].1, slots);
        assert forall|i: int, k: int|
            0 <= i < rest.len() && 0 <= k < slots.len() && (#[trigger] rest[i]).0 == (
            #[trigger] slots[k]).name implies misfit(rest[i].1, slots[k]) is None by {
            assert(rest[i] == fields[i + 1]);
        }
        lemma_fields_fit(rest, slots);
    }
}

proof fn lemma_nothing_missing(value: JsonView, slots: Seq<SlotView>)
    requires
        forall|k: int|
            0 <= k < slots.len() ==> value.get((#[trigger] slots[k]).name) is Some
                || slots[k].nullable || slots[k].spare,
    ensures
        missing(value, slots) is None,
    decreases slots.len(),
{
    if slots.len() > 0 {
        let rest = slots.drop_first();
        assert forall|k: int| 0 <= k < rest.len() implies value.get(
            (#[trigger] rest[k]).name,
        ) is Some || rest[k].nullable || rest[k].spare by {
            assert(rest[k] == slots[k + 1]);
        }
        assert(value.get(slots[0].name) is Some || slots[0].nullable || slots[0].spare);
        lemma_nothing_missing(value, rest);
    }
}

/// Arguments in an object are taken where each of them is what it must be and
/// none is missing that must be given; fields of other names do no harm.
pub proof fn law_suiting_arguments_are_taken(
    fields: Seq<(Seq<char>, JsonView)>,
    name: Seq<char>,
    slots: Seq<SlotView>,
)
    requires
        all_fit(fields, slots),
        forall|k: int|
            0 <= k < slots.len() ==> JsonView::Object(fields).get(
                (#[trigger] slots[k]).name,
            ) is Some || slots[k].nullable || slots[k].spare,
    ensures
        fault(JsonView::Object(fields), name, slots) is None,
        forall|k: int|
            0 <= k < slots.len() ==> given(JsonView::Object(fields), slots, k)
                == JsonView::Object(fields).get((#[trigger] slots[k]).name),
{
    lemma_fields_fit(fields, slots);
    lemma_nothing_missing(JsonView::Object(fields), slots);
}

/// No two fields go by one name.
pub open spec fn named_once(fields: Seq<(Seq<char>, JsonView)>) -> bool {
    forall|i: int, j: int|
        0 <= i < j < fields.len() ==> (#[trigger] fields[i]).0 != (#[trigger] fields[j]).0
}

/// A text as an argument, where one is given.
pub open spec fn told_text(value: Option<Seq<char>>) -> Option<JsonView> {
    match value {
        Some(s) => Some(JsonView::Text(s)),
        None => None,
    }
}

/// A truth value as an argument, where one is given.
pub open spec fn told_flag(value: Option<bool>) -> Option<JsonView> {
    match value {
        Some(b) => Some(JsonView::Bool(b)),
        None => None,
    }
}

/// A number as an argument, where one is given.
pub open spec fn told_count(value: Option<usize>) -> Option<JsonView> {
    match value {
        Some(n) => Some(JsonView::Unsigned(n as u64)),
        None => None,
    }
}

/// An argument is given as it must be, or need not be given.
pub open spec fn is_given(value: JsonView, slot: SlotView) -> bool {
    match value.get(slot.name) {
        Some(found) => misfit(found, slot) is None,
        None => slot.nullable || slot.spare,
    }
}

/// An object that names each argument once, each as it must be.
pub proof fn lemma_named_arguments(
    fields: Seq<(Seq<char>, JsonView)>,
    name: Seq<char>,
    slots: Seq<SlotView>,
)
    requires
        named_once(fields),
        forall|k: int|
            0 <= k < slots.len() ==> is_given(JsonView::Object(fields), #[trigger] slots[k]),
    ensures
        fault(JsonView::Object(fields), name, slots) is None,
        forall|k: int|
            0 <= k < slots.len() ==> given(JsonView::Object(fields), slots, k)
                == JsonView::Object(fields).get((#[trigger] slots[k]).name),
{
    let value = JsonView::Object(fields);
    assert forall|i: int, k: int|
        0 <= i < fields.len() && 0 <= k < slots.len() && (#[trigger] fields[i]).0 == (
        #[trigger] slots[k]).name implies misfit(fields[i].1, slots[k]) is None by {
        json::lemma_field_at(fields, i);
        assert(is_given(value, slots[k]));
    }
    assert forall|k: int| 0 <= k < slots.len() implies value.get(
        (#[trigger] slots[k]).name,
    ) is Some || slots[k].nullable || slots[k].spare by {
        assert(is_given(value, slots[k]));
    }
    law_suiting_arguments_are_taken(fields, name, slots);
}

} // verus!
