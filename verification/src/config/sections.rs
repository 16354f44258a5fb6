//! The sections of a configuration file: what they may hold, and what they
//! say.
use crate::config::catalog::ModelConfig;
use crate::config::catalog::ModelConfigView;
use crate::config::catalog::ModelRef;
use crate::config::catalog::ModelRefView;
use crate::config::catalog::ProviderConfig;
use crate::config::catalog::ProviderConfigView;
use crate::config::catalog::SecretValue;
use crate::config::file;
use crate::config::file::FileConfig;
use crate::config::file::FileConfigView;
use crate::config::file::FileMemoryConfig;
use crate::config::theme;
use crate::config::theme::ThemeColor;
use crate::config::theme::ThemeConfig;
use crate::json;
use crate::json::Json;
use crate::json::JsonView;
use crate::memory::config::MemoryMode;
use crate::provider::thinking;
use crate::provider::thinking::EffortMap;
use crate::provider::thinking::ThinkingCompat;
use crate::provider::thinking::ThinkingCompatView;
use crate::provider::thinking::ThinkingConfig;
use crate::provider::thinking::ThinkingConfigView;
use crate::provider::thinking::ThinkingLevel;
use crate::provider::thinking::ThinkingMode;
use crate::provider::OpenAiApi;
use crate::session;
use crate::text;
use vstd::prelude::*;
use vstd::string::*;

verus! {

// ---------------------------------------------------------------------------
// Names
// ---------------------------------------------------------------------------

/// Whether every field has one of these names.
pub open spec fn only_known(fields: Seq<(Seq<char>, JsonView)>, names: Seq<Seq<char>>) -> bool {
    forall|i: int| 0 <= i < fields.len() ==> names.contains(#[trigger] fields[i].0)
}

/// What the `[theme]` section may hold.
pub open spec fn theme_names() -> Seq<Seq<char>> {
    seq![
        "background"@,
        "surface"@,
        "surface_hover"@,
        "surface_raised"@,
        "text"@,
        "text_strong"@,
        "text_dim"@,
        "text_faint"@,
        "gray_dim"@,
        "accent_primary"@,
        "accent_secondary"@,
        "accent_user"@,
        "accent_thinking"@,
        "accent_tool"@,
        "border"@,
        "border_active"@,
        "ok"@,
        "bad"@,
        "command"@,
        "running"@,
        "model_accent"@,
        "md_code"@,
        "code_bg"@,
        "diff_add_bg"@,
        "diff_del_bg"@,
        "wordmark_ink"@,
    ]
}

fn theme_names_of() -> (r: Vec<&'static str>)
    ensures
        text::views(r@) == theme_names(),
{
    let r: Vec<&'static str> = vec![
        "background",
        "surface",
        "surface_hover",
        "surface_raised",
        "text",
        "text_strong",
        "text_dim",
        "text_faint",
        "gray_dim",
        "accent_primary",
        "accent_secondary",
        "accent_user",
        "accent_thinking",
        "accent_tool",
        "border",
        "border_active",
        "ok",
        "bad",
        "command",
        "running",
        "model_accent",
        "md_code",
        "code_bg",
        "diff_add_bg",
        "diff_del_bg",
        "wordmark_ink",
    ];
    assert(text::views(r@) =~= theme_names());
    r
}

/// What the `[memory]` section may hold.
pub open spec fn memory_names() -> Seq<Seq<char>> {
    seq![
        "enabled"@,
        "mode"@,
        "recall_rate_limit"@,
        "max_recall_tokens"@,
        "hot_cache_size"@,
        "auto_pin_important"@,
    ]
}

fn memory_names_of() -> (r: Vec<&'static str>)
    ensures
        text::views(r@) == memory_names(),
{
    let r: Vec<&'static str> = vec![
        "enabled",
        "mode",
        "recall_rate_limit",
        "max_recall_tokens",
        "hot_cache_size",
        "auto_pin_important",
    ];
    assert(text::views(r@) =~= memory_names());
    r
}

/// What a file may hold.
pub open spec fn file_names() -> Seq<Seq<char>> {
    seq![
        "api_key"@,
        "model"@,
        "base_url"@,
        "openai_api"@,
        "active_model"@,
        "providers"@,
        "max_turns"@,
        "tool_timeout_seconds"@,
        "agent_timeout_seconds"@,
        "max_tool_output_chars"@,
        "max_context_tokens"@,
        "max_context_chars"@,
        "compact_keep_turns"@,
        "default_thinking_level"@,
        "hide_thinking_block"@,
        "session_dir"@,
        "memory"@,
        "theme"@,
    ]
}

fn file_names_of() -> (r: Vec<&'static str>)
    ensures
        text::views(r@) == file_names(),
{
    let r: Vec<&'static str> = vec![
        "api_key",
        "model",
        "base_url",
        "openai_api",
        "active_model",
        "providers",
        "max_turns",
        "tool_timeout_seconds",
        "agent_timeout_seconds",
        "max_tool_output_chars",
        "max_context_tokens",
        "max_context_chars",
        "compact_keep_turns",
        "default_thinking_level",
        "hide_thinking_block",
        "session_dir",
        "memory",
        "theme",
    ];
    assert(text::views(r@) =~= file_names());
    r
}

fn is_one_of(name: &str, names: &Vec<&'static str>) -> (r: bool)
    ensures
        r == text::views(names@).contains(name@),
{
    let ghost model = text::views(names@);
    let mut i: usize = 0;
    while i < names.len()
        invariant
            i <= names@.len(),
            model == text::views(names@),
            forall|j: int| 0 <= j < i ==> #[trigger] model[j] != name@,
        decreases names@.len() - i,
    {
        assert(model[i as int] == names@[i as int]@);
        if text::same(names[i], name) {
            return true;
        }
        i = i + 1;
    }
    false
}

fn only_known_of(fields: &Vec<(String, Json)>, names: &Vec<&'static str>) -> (r: bool)
    ensures
        r == only_known(json::fields_view(fields@), text::views(names@)),
{
    let ghost model = json::fields_view(fields@);
    let ghost known = text::views(names@);
    proof {
        json::lemma_fields_view(fields@);
    }
    let mut i: usize = 0;
    while i < fields.len()
        invariant
            i <= fields@.len(),
            model == json::fields_view(fields@),
            model.len() == fields@.len(),
            known == text::views(names@),
            forall|j: int|
                0 <= j < fields@.len() ==> #[trigger] model[j] == (fields@[j].0@, fields@[j].1@),
            forall|j: int| 0 <= j < i ==> known.contains(#[trigger] model[j].0),
        decreases fields@.len() - i,
    {
        if !is_one_of(fields[i].0.as_str(), names) {
            assert(!known.contains(model[i as int].0));
            return false;
        }
        assert(known.contains(model[i as int].0));
        i = i + 1;
    }
    true
}

// ---------------------------------------------------------------------------
// Shapes
// ---------------------------------------------------------------------------

/// The section with the fields `names` that a value stands for. A list stands
/// for the section whose fields it gives in their order, where it gives at
/// least the first `least`; what it gives beyond them is passed over. Any other
/// value stands for itself.
pub open spec fn laid_out(value: JsonView, names: Seq<Seq<char>>, least: int) -> JsonView {
    match value {
        JsonView::Array(items) => if least <= items.len() {
            JsonView::Object(
                Seq::new(
                    if items.len() <= names.len() {
                        items.len()
                    } else {
                        names.len()
                    },
                    |i: int| (names[i], items[i]),
                ),
            )
        } else {
            value
        },
        _ => value,
    }
}

/// The section that a value stands for, where it does not stand for itself.
fn lay_out(value: &Json, names: &Vec<&'static str>, least: usize) -> (r: Option<Json>)
    ensures
        match r {
            Some(section) => section@ == laid_out(value@, text::views(names@), least as int),
            None => value@ == laid_out(value@, text::views(names@), least as int),
        },
{
    let items = match value {
        Json::Array(items) => items,
        _ => {
            return None;
        },
    };
    proof {
        json::lemma_items_view(items@);
    }
    if items.len() < least {
        return None;
    }
    let ghost model = json::items_view(items@);
    let ghost known = text::views(names@);
    let mut fields: Vec<(String, Json)> = Vec::new();
    let mut i: usize = 0;
    assert(json::fields_view(fields@) =~= Seq::empty());
    while i < items.len() && i < names.len()
        invariant
            i <= items@.len(),
            i <= names@.len(),
            known == text::views(names@),
            model.len() == items@.len(),
            forall|j: int| 0 <= j < items@.len() ==> #[trigger] model[j] == items@[j]@,
            json::fields_view(fields@).len() == i,
            forall|j: int|
                0 <= j < i ==> #[trigger] json::fields_view(fields@)[j] == (known[j], model[j]),
        decreases items@.len() - i,
    {
        json::push_field(&mut fields, names[i], items[i].copy());
        i = i + 1;
    }
    assert(json::fields_view(fields@) =~= Seq::new(
        if model.len() <= known.len() {
            model.len()
        } else {
            known.len()
        },
        |j: int| (known[j], model[j]),
    ));
    Some(Json::Object(fields))
}

/// The name of a choice: a text, or a table whose one entry has that name and
/// is empty.
pub open spec fn choice_of(value: JsonView) -> Option<Seq<char>> {
    match value {
        JsonView::Text(name) => Some(name),
        JsonView::Object(fields) => if fields.len() == 1 && (fields[0].1 == JsonView::Array(
            Seq::empty(),
        ) || fields[0].1 == JsonView::Object(Seq::empty())) {
            Some(fields[0].0)
        } else {
            None
        },
        _ => None,
    }
}

fn choice_from(value: &Json) -> (r: Option<String>)
    ensures
        text::opt(r) == choice_of(value@),
{
    match value {
        Json::Text(name) => Some(name.clone()),
        Json::Object(fields) => {
            proof {
                json::lemma_fields_view(fields@);
            }
            if fields.len() != 1 {
                return None;
            }
            let empty = match &fields[0].1 {
                Json::Array(items) => {
                    proof {
                        json::lemma_items_view(items@);
                    }
                    assert(items@.len() == 0 ==> json::items_view(items@) =~= Seq::empty());
                    items.len() == 0
                },
                Json::Object(inner) => {
                    proof {
                        json::lemma_fields_view(inner@);
                    }
                    assert(inner@.len() == 0 ==> json::fields_view(inner@) =~= Seq::empty());
                    inner.len() == 0
                },
                _ => false,
            };
            if empty {
                Some(fields[0].0.clone())
            } else {
                None
            }
        },
        _ => None,
    }
}

/// The name of the choice under `key`, where there is one.
pub open spec fn maybe_choice(section: JsonView, key: Seq<char>) -> Option<Option<Seq<char>>> {
    match section.get(key) {
        None => Some(None),
        Some(value) => match choice_of(value) {
            Some(name) => Some(Some(name)),
            None => None,
        },
    }
}

fn choice_field(section: &Json, key: &str) -> (r: Option<Option<String>>)
    ensures
        match r {
            Some(name) => maybe_choice(section@, key@) == Some(text::opt(name)),
            None => maybe_choice(section@, key@) is None,
        },
{
    match section.get(key) {
        None => Some(None),
        Some(value) => match choice_from(value) {
            Some(name) => Some(Some(name)),
            None => None,
        },
    }
}

/// The wire API with just this name.
pub open spec fn api_named(name: Seq<char>) -> Option<OpenAiApi> {
    if name == "chat-completions"@ {
        Some(OpenAiApi::ChatCompletions)
    } else if name == "responses"@ {
        Some(OpenAiApi::Responses)
    } else {
        None
    }
}

fn api_from_name(name: &str) -> (r: Option<OpenAiApi>)
    ensures
        r == api_named(name@),
{
    if text::same(name, "chat-completions") {
        Some(OpenAiApi::ChatCompletions)
    } else if text::same(name, "responses") {
        Some(OpenAiApi::Responses)
    } else {
        None
    }
}

/// The mode of memory with just this name.
pub open spec fn mode_named(name: Seq<char>) -> Option<MemoryMode> {
    if name == "pointer_priority"@ {
        Some(MemoryMode::PointerPriority)
    } else if name == "summary"@ {
        Some(MemoryMode::Summary)
    } else if name == "hybrid"@ {
        Some(MemoryMode::Hybrid)
    } else {
        None
    }
}

fn mode_from_name(name: &str) -> (r: Option<MemoryMode>)
    ensures
        r == mode_named(name@),
{
    if text::same(name, "pointer_priority") {
        Some(MemoryMode::PointerPriority)
    } else if text::same(name, "summary") {
        Some(MemoryMode::Summary)
    } else if text::same(name, "hybrid") {
        Some(MemoryMode::Hybrid)
    } else {
        None
    }
}

/// The level under `key`, where there is one; nothing where it has another name.
pub open spec fn maybe_level(section: JsonView, key: Seq<char>) -> Option<Option<ThinkingLevel>> {
    match maybe_choice(section, key) {
        Some(Some(name)) => match session::level_named(name) {
            Some(value) => Some(Some(value)),
            None => None,
        },
        Some(None) => Some(None),
        None => None,
    }
}

fn level_field(section: &Json, key: &str) -> (r: Option<Option<ThinkingLevel>>)
    ensures
        r == maybe_level(section@, key@),
{
    match choice_field(section, key) {
        Some(Some(name)) => match session::level_from_name(name.as_str()) {
            Some(value) => Some(Some(value)),
            None => None,
        },
        Some(None) => Some(None),
        None => None,
    }
}

/// The wire API under `key`, where there is one; nothing where it has another name.
pub open spec fn maybe_api(section: JsonView, key: Seq<char>) -> Option<Option<OpenAiApi>> {
    match maybe_choice(section, key) {
        Some(Some(name)) => match api_named(name) {
            Some(value) => Some(Some(value)),
            None => None,
        },
        Some(None) => Some(None),
        None => None,
    }
}

fn api_field(section: &Json, key: &str) -> (r: Option<Option<OpenAiApi>>)
    ensures
        r == maybe_api(section@, key@),
{
    match choice_field(section, key) {
        Some(Some(name)) => match api_from_name(name.as_str()) {
            Some(value) => Some(Some(value)),
            None => None,
        },
        Some(None) => Some(None),
        None => None,
    }
}

/// The mode of memory under `key`, where there is one; nothing where it has another
/// name.
pub open spec fn maybe_mode(section: JsonView, key: Seq<char>) -> Option<Option<MemoryMode>> {
    match maybe_choice(section, key) {
        Some(Some(name)) => match mode_named(name) {
            Some(value) => Some(Some(value)),
            None => None,
        },
        Some(None) => Some(None),
        None => None,
    }
}

fn mode_field(section: &Json, key: &str) -> (r: Option<Option<MemoryMode>>)
    ensures
        r == maybe_mode(section@, key@),
{
    match choice_field(section, key) {
        Some(Some(name)) => match mode_from_name(name.as_str()) {
            Some(value) => Some(Some(value)),
            None => None,
        },
        Some(None) => Some(None),
        None => None,
    }
}

/// The color under `key`, where there is one; nothing where it is no color.
pub open spec fn maybe_color(section: JsonView, key: Seq<char>) -> Option<Option<ThemeColor>> {
    match section.maybe_text(key) {
        Some(Some(name)) => match theme::color_of(name) {
            Ok(value) => Some(Some(value)),
            Err(_) => None,
        },
        Some(None) => Some(None),
        None => None,
    }
}

fn color_field(section: &Json, key: &str) -> (r: Option<Option<ThemeColor>>)
    ensures
        r == maybe_color(section@, key@),
{
    match section.maybe_text(key) {
        Some(Some(name)) => match ThemeColor::parse(name.as_str()) {
            Ok(value) => Some(Some(value)),
            Err(_) => None,
        },
        Some(None) => Some(None),
        None => None,
    }
}

// ---------------------------------------------------------------------------
// Thinking
// ---------------------------------------------------------------------------

/// The level that a value names.
pub open spec fn level_value(value: JsonView) -> Option<ThinkingLevel> {
    match choice_of(value) {
        Some(name) => session::level_named(name),
        None => None,
    }
}

fn level_from(value: &Json) -> (r: Option<ThinkingLevel>)
    ensures
        r == level_value(value@),
{
    match choice_from(value) {
        Some(name) => session::level_from_name(name.as_str()),
        None => None,
    }
}

/// The levels that a list names.
pub open spec fn levels_of(items: Seq<JsonView>) -> Option<Seq<ThinkingLevel>>
    decreases items.len(),
{
    if items.len() == 0 {
        Some(Seq::empty())
    } else {
        match (levels_of(items.drop_last()), level_value(items.last())) {
            (Some(list), Some(item)) => Some(list.push(item)),
            _ => None,
        }
    }
}

fn levels_from(items: &Vec<Json>) -> (r: Option<Vec<ThinkingLevel>>)
    ensures
        match r {
            Some(list) => levels_of(json::items_view(items@)) == Some(list@),
            None => levels_of(json::items_view(items@)) is None,
        },
{
    let ghost model = json::items_view(items@);
    proof {
        json::lemma_items_view(items@);
    }
    let mut list: Vec<ThinkingLevel> = Vec::new();
    let mut sound = true;
    let mut i: usize = 0;
    assert(list@ =~= Seq::<ThinkingLevel>::empty());
    while i < items.len()
        invariant
            i <= items@.len(),
            model.len() == items@.len(),
            forall|j: int| 0 <= j < items@.len() ==> #[trigger] model[j] == items@[j]@,
            sound ==> levels_of(model.take(i as int)) == Some(list@),
            !sound ==> levels_of(model.take(i as int)) is None,
        decreases items@.len() - i,
    {
        assert(model.take(i + 1).drop_last() =~= model.take(i as int));
        assert(model.take(i + 1).last() == model[i as int]);
        match level_from(&items[i]) {
            Some(item) => {
                list.push(item);
            },
            None => {
                sound = false;
            },
        }
        i = i + 1;
    }
    assert(model.take(model.len() as int) =~= model);
    if sound {
        Some(list)
    } else {
        None
    }
}

/// The level under `key`.
pub open spec fn need_level(section: JsonView, key: Seq<char>) -> Option<ThinkingLevel> {
    match section.get(key) {
        Some(value) => level_value(value),
        None => None,
    }
}

fn needed_level(section: &Json, key: &str) -> (r: Option<ThinkingLevel>)
    ensures
        r == need_level(section@, key@),
{
    match section.get(key) {
        Some(value) => level_from(value),
        None => None,
    }
}

/// The levels under `supported`, where there are any.
pub open spec fn supported_of(section: JsonView) -> Option<Option<Seq<ThinkingLevel>>> {
    match section.maybe_list("supported"@) {
        Some(Some(items)) => match levels_of(items) {
            Some(levels) => Some(Some(levels)),
            None => None,
        },
        Some(None) => Some(None),
        None => None,
    }
}

/// Whether the mode of thinking, where one is named, is the one there is.
pub open spec fn mode_is_sound(section: JsonView) -> bool {
    section.get("mode"@) matches Some(value) ==> choice_of(value) == Some("effort"@)
}

fn mode_is_sound_of(section: &Json) -> (r: bool)
    ensures
        r == mode_is_sound(section@),
{
    match section.get("mode") {
        Some(value) => match choice_from(value) {
            Some(name) => text::same(name.as_str(), "effort"),
            None => false,
        },
        None => true,
    }
}

/// The fields of a `thinking` section.
pub open spec fn thinking_names() -> Seq<Seq<char>> {
    seq!["min_level"@, "max_level"@, "supported"@, "mode"@]
}

/// What a `thinking` section says.
pub open spec fn thinking_of(value: JsonView) -> Option<ThinkingConfigView> {
    let section = laid_out(value, thinking_names(), 2);
    match (
        need_level(section, "min_level"@),
        need_level(section, "max_level"@),
        supported_of(section),
    ) {
        (Some(min_level), Some(max_level), Some(supported)) => if mode_is_sound(section) {
            Some(
                ThinkingConfigView { min_level, max_level, supported, mode: ThinkingMode::Effort },
            )
        } else {
            None
        },
        _ => None,
    }
}

fn thinking_from(section: &Json) -> (r: Option<ThinkingConfig>)
    ensures
        text::opt(r) == thinking_of(section@),
{
    let names: Vec<&'static str> = vec!["min_level", "max_level", "supported", "mode"];
    assert(text::views(names@) =~= thinking_names());
    let laid = lay_out(section, &names, 2);
    let section = match &laid {
        Some(laid) => laid,
        None => section,
    };
    let min_level = match needed_level(section, "min_level") {
        Some(level) => level,
        None => {
            return None;
        },
    };
    let max_level = match needed_level(section, "max_level") {
        Some(level) => level,
        None => {
            return None;
        },
    };
    let supported = match section.maybe_list("supported") {
        Some(Some(items)) => match levels_from(&items) {
            Some(levels) => Some(levels),
            None => {
                return None;
            },
        },
        Some(None) => None,
        None => {
            return None;
        },
    };
    if !mode_is_sound_of(section) {
        return None;
    }
    Some(ThinkingConfig { min_level, max_level, supported, mode: ThinkingMode::Effort })
}

/// The `thinking` section, where there is one.
pub open spec fn maybe_thinking(section: JsonView) -> Option<Option<ThinkingConfigView>> {
    if section.present("thinking"@) {
        match thinking_of(section.get("thinking"@)->Some_0) {
            Some(thinking) => Some(Some(thinking)),
            None => None,
        }
    } else {
        Some(None)
    }
}

fn thinking_field(section: &Json) -> (r: Option<Option<ThinkingConfig>>)
    ensures
        match r {
            Some(thinking) => maybe_thinking(section@) == Some(text::opt(thinking)),
            None => maybe_thinking(section@) is None,
        },
{
    match section.get("thinking") {
        None => Some(None),
        Some(Json::Null) => Some(None),
        Some(value) => match thinking_from(value) {
            Some(thinking) => Some(Some(thinking)),
            None => None,
        },
    }
}

/// The words that a table gives the levels of thinking; nothing where it names
/// another level, or holds anything but texts.
pub open spec fn efforts_of(fields: Seq<(Seq<char>, JsonView)>) -> Option<
    Map<ThinkingLevel, Seq<char>>,
> {
    if forall|i: int|
        0 <= i < fields.len() ==> session::level_named((#[trigger] fields[i]).0) is Some
            && fields[i].1 is Text {
        Some(
            Map::new(
                |level: ThinkingLevel|
                    json::field(fields, thinking::level_name(level)) matches Some(value)
                        && value is Text,
                |level: ThinkingLevel|
                    json::field(fields, thinking::level_name(level))->Some_0->Text_0,
            ),
        )
    } else {
        None
    }
}

/// The words for the levels of thinking, none where the table is absent.
pub open spec fn efforts_or_empty(section: JsonView) -> Option<Map<ThinkingLevel, Seq<char>>> {
    match section.get("reasoning_effort_map"@) {
        None => Some(Map::empty()),
        Some(JsonView::Object(fields)) => efforts_of(fields),
        Some(_) => None,
    }
}

fn efforts_are_sound(fields: &Vec<(String, Json)>) -> (r: bool)
    ensures
        r == (efforts_of(json::fields_view(fields@)) is Some),
{
    let ghost model = json::fields_view(fields@);
    proof {
        json::lemma_fields_view(fields@);
    }
    let mut i: usize = 0;
    while i < fields.len()
        invariant
            i <= fields@.len(),
            model == json::fields_view(fields@),
            model.len() == fields@.len(),
            forall|j: int|
                0 <= j < fields@.len() ==> #[trigger] model[j] == (fields@[j].0@, fields@[j].1@),
            forall|j: int|
                0 <= j < i ==> session::level_named((#[trigger] model[j]).0) is Some
                    && model[j].1 is Text,
        decreases fields@.len() - i,
    {
        assert(model[i as int] == (fields@[i as int].0@, fields@[i as int].1@));
        let named = session::level_from_name(fields[i].0.as_str()).is_some();
        let worded = match &fields[i].1 {
            Json::Text(_) => true,
            _ => false,
        };
        if !named || !worded {
            return false;
        }
        i = i + 1;
    }
    true
}

fn efforts_from(value: &Json) -> (r: Option<EffortMap>)
    ensures
        match (r, value@) {
            (Some(map), JsonView::Object(fields)) => efforts_of(fields) == Some(map@),
            (None, JsonView::Object(fields)) => efforts_of(fields) is None,
            (Some(_), _) => false,
            (None, _) => true,
        },
{
    match value {
        Json::Object(fields) => {
            if !efforts_are_sound(fields) {
                return None;
            }
        },
        _ => {
            return None;
        },
    }
    let ghost fields = value@->Object_0;
    let ghost goal = efforts_of(fields)->Some_0;
    let levels = ThinkingLevel::ALL;
    let mut map = EffortMap::new();
    let mut i: usize = 0;
    proof {
        thinking::lemma_rank_injective();
    }
    while i < 7
        invariant
            i <= 7,
            levels@ == thinking::ladder(),
            value@ == JsonView::Object(fields),
            efforts_of(fields) == Some(goal),
            forall|level: ThinkingLevel|
                #[trigger] map@.contains_key(level) == (thinking::rank(level) < i
                    && goal.contains_key(level)),
            forall|level: ThinkingLevel|
                #[trigger] map@.contains_key(level) ==> map@[level] == goal[level],
        decreases 7 - i,
    {
        let level = levels[i];
        assert(thinking::rank(level) == i);
        match value.get(level.name()) {
            Some(Json::Text(word)) => {
                map.insert(level, word.clone());
            },
            _ => {},
        }
        i = i + 1;
        proof {
            thinking::lemma_rank_injective();
        }
    }
    assert(map@ =~= goal);
    Some(map)
}

/// The fields of a `compat` section.
pub open spec fn compat_names() -> Seq<Seq<char>> {
    seq![
        "supports_reasoning_effort"@,
        "reasoning_effort_map"@,
        "supports_interleaved_thinking"@,
    ]
}

/// What a `compat` section says.
pub open spec fn compat_of(value: JsonView) -> Option<ThinkingCompatView> {
    let section = laid_out(value, compat_names(), 0);
    if !(section is Object) {
        None
    } else {
        match (
            section.maybe_bool("supports_reasoning_effort"@),
            efforts_or_empty(section),
            section.maybe_bool("supports_interleaved_thinking"@),
        ) {
            (
                Some(supports_reasoning_effort),
                Some(reasoning_effort_map),
                Some(supports_interleaved_thinking),
            ) => Some(
                ThinkingCompatView {
                    supports_reasoning_effort,
                    reasoning_effort_map,
                    supports_interleaved_thinking,
                },
            ),
            _ => None,
        }
    }
}

fn compat_from(section: &Json) -> (r: Option<ThinkingCompat>)
    ensures
        text::opt(r) == compat_of(section@),
{
    let names: Vec<&'static str> = vec![
        "supports_reasoning_effort",
        "reasoning_effort_map",
        "supports_interleaved_thinking",
    ];
    assert(text::views(names@) =~= compat_names());
    let laid = lay_out(section, &names, 0);
    let section = match &laid {
        Some(laid) => laid,
        None => section,
    };
    match section {
        Json::Object(_) => {},
        _ => {
            return None;
        },
    }
    let reasoning_effort_map = match section.get("reasoning_effort_map") {
        None => EffortMap::new(),
        Some(value) => match efforts_from(value) {
            Some(map) => map,
            None => {
                return None;
            },
        },
    };
    match (
        section.maybe_bool("supports_reasoning_effort"),
        section.maybe_bool("supports_interleaved_thinking"),
    ) {
        (Some(supports_reasoning_effort), Some(supports_interleaved_thinking)) => Some(
            ThinkingCompat {
                supports_reasoning_effort,
                reasoning_effort_map,
                supports_interleaved_thinking,
            },
        ),
        _ => None,
    }
}

/// The `compat` section, where there is one.
pub open spec fn maybe_compat(section: JsonView) -> Option<Option<ThinkingCompatView>> {
    if section.present("compat"@) {
        match compat_of(section.get("compat"@)->Some_0) {
            Some(compat) => Some(Some(compat)),
            None => None,
        }
    } else {
        Some(None)
    }
}

fn compat_field(section: &Json) -> (r: Option<Option<ThinkingCompat>>)
    ensures
        match r {
            Some(compat) => maybe_compat(section@) == Some(text::opt(compat)),
            None => maybe_compat(section@) is None,
        },
{
    match section.get("compat") {
        None => Some(None),
        Some(Json::Null) => Some(None),
        Some(value) => match compat_from(value) {
            Some(compat) => Some(Some(compat)),
            None => None,
        },
    }
}

// ---------------------------------------------------------------------------
// Providers and models
// ---------------------------------------------------------------------------

/// The model that a section names.
pub open spec fn model_ref_of(value: JsonView) -> Option<ModelRefView> {
    let section = laid_out(value, seq!["provider_id"@, "model_id"@], 2);
    match (section.need_text("provider_id"@), section.need_text("model_id"@)) {
        (Some(provider_id), Some(model_id)) => Some(ModelRefView { provider_id, model_id }),
        _ => None,
    }
}

fn model_ref_from(section: &Json) -> (r: Option<ModelRef>)
    ensures
        text::opt(r) == model_ref_of(section@),
{
    let names: Vec<&'static str> = vec!["provider_id", "model_id"];
    assert(text::views(names@) =~= seq!["provider_id"@, "model_id"@]);
    let laid = lay_out(section, &names, 2);
    let section = match &laid {
        Some(laid) => laid,
        None => section,
    };
    match (section.need_text("provider_id"), section.need_text("model_id")) {
        (Some(provider_id), Some(model_id)) => Some(ModelRef { provider_id, model_id }),
        _ => None,
    }
}

/// The model that is active, where one is.
pub open spec fn maybe_active_model(section: JsonView) -> Option<Option<ModelRefView>> {
    if section.present("active_model"@) {
        match model_ref_of(section.get("active_model"@)->Some_0) {
            Some(target) => Some(Some(target)),
            None => None,
        }
    } else {
        Some(None)
    }
}

fn active_model_field(section: &Json) -> (r: Option<Option<ModelRef>>)
    ensures
        match r {
            Some(target) => maybe_active_model(section@) == Some(text::opt(target)),
            None => maybe_active_model(section@) is None,
        },
{
    match section.get("active_model") {
        None => Some(None),
        Some(Json::Null) => Some(None),
        Some(value) => match model_ref_from(value) {
            Some(target) => Some(Some(target)),
            None => None,
        },
    }
}

/// The fields of a section on a model.
pub open spec fn model_names() -> Seq<Seq<char>> {
    seq!["id"@, "display_name"@, "thinking"@, "compat"@, "context_window"@]
}

/// What a section on a model says.
pub open spec fn model_of(value: JsonView) -> Option<ModelConfigView> {
    let section = laid_out(value, model_names(), 2);
    match (
        section.need_text("id"@),
        section.need_text("display_name"@),
        maybe_thinking(section),
        maybe_compat(section),
        section.maybe_number("context_window"@, u64::MAX),
    ) {
        (
            Some(id),
            Some(display_name),
            Some(thinking),
            Some(compat),
            Some(context_window),
        ) => Some(ModelConfigView { id, display_name, thinking, compat, context_window }),
        _ => None,
    }
}

fn model_from(section: &Json) -> (r: Option<ModelConfig>)
    ensures
        text::opt(r) == model_of(section@),
{
    let names: Vec<&'static str> = vec!["id", "display_name", "thinking", "compat", "context_window"];
    assert(text::views(names@) =~= model_names());
    let laid = lay_out(section, &names, 2);
    let section = match &laid {
        Some(laid) => laid,
        None => section,
    };
    match (
        section.need_text("id"),
        section.need_text("display_name"),
        thinking_field(section),
        compat_field(section),
        section.maybe_number("context_window", u64::MAX),
    ) {
        (
            Some(id),
            Some(display_name),
            Some(thinking),
            Some(compat),
            Some(context_window),
        ) => Some(ModelConfig { id, display_name, thinking, compat, context_window }),
        _ => None,
    }
}

/// What the sections on models say.
pub open spec fn models_of(items: Seq<JsonView>) -> Option<Seq<ModelConfigView>>
    decreases items.len(),
{
    if items.len() == 0 {
        Some(Seq::empty())
    } else {
        match (models_of(items.drop_last()), model_of(items.last())) {
            (Some(list), Some(item)) => Some(list.push(item)),
            _ => None,
        }
    }
}

fn models_from(items: &Vec<Json>) -> (r: Option<Vec<ModelConfig>>)
    ensures
        match r {
            Some(list) => models_of(json::items_view(items@)) == Some(text::views(list@)),
            None => models_of(json::items_view(items@)) is None,
        },
{
    let ghost model = json::items_view(items@);
    proof {
        json::lemma_items_view(items@);
    }
    let mut list: Vec<ModelConfig> = Vec::new();
    let mut sound = true;
    let mut i: usize = 0;
    assert(text::views(list@) =~= Seq::<ModelConfigView>::empty());
    while i < items.len()
        invariant
            i <= items@.len(),
            model.len() == items@.len(),
            forall|j: int| 0 <= j < items@.len() ==> #[trigger] model[j] == items@[j]@,
            sound ==> models_of(model.take(i as int)) == Some(text::views(list@)),
            !sound ==> models_of(model.take(i as int)) is None,
        decreases items@.len() - i,
    {
        assert(model.take(i + 1).drop_last() =~= model.take(i as int));
        assert(model.take(i + 1).last() == model[i as int]);
        match model_from(&items[i]) {
            Some(item) => {
                proof {
                    text::lemma_views_push(list@, item);
                }
                list.push(item);
            },
            None => {
                sound = false;
            },
        }
        i = i + 1;
    }
    assert(model.take(model.len() as int) =~= model);
    if sound {
        Some(list)
    } else {
        None
    }
}

/// The wire API of a provider.
pub open spec fn api_or_default(section: JsonView) -> Option<OpenAiApi> {
    match section.get("openai_api"@) {
        None => Some(OpenAiApi::ChatCompletions),
        Some(value) => match choice_of(value) {
            Some(name) => api_named(name),
            None => None,
        },
    }
}

fn api_or_default_of(section: &Json) -> (r: Option<OpenAiApi>)
    ensures
        r == api_or_default(section@),
{
    match section.get("openai_api") {
        None => Some(OpenAiApi::ChatCompletions),
        Some(value) => match choice_from(value) {
            Some(name) => api_from_name(name.as_str()),
            None => None,
        },
    }
}

/// The models of a provider, none where there is no list of them.
pub open spec fn models_or_empty(section: JsonView) -> Option<Seq<ModelConfigView>> {
    match section.get("models"@) {
        None => Some(Seq::empty()),
        Some(JsonView::Array(items)) => models_of(items),
        Some(_) => None,
    }
}

fn models_or_empty_of(section: &Json) -> (r: Option<Vec<ModelConfig>>)
    ensures
        match r {
            Some(models) => models_or_empty(section@) == Some(text::views(models@)),
            None => models_or_empty(section@) is None,
        },
{
    match section.get("models") {
        None => {
            let none: Vec<ModelConfig> = Vec::new();
            assert(text::views(none@) =~= Seq::<ModelConfigView>::empty());
            Some(none)
        },
        Some(Json::Array(items)) => models_from(items),
        Some(_) => None,
    }
}

/// The fields of a section on a provider.
pub open spec fn provider_names() -> Seq<Seq<char>> {
    seq![
        "id"@,
        "display_name"@,
        "base_url"@,
        "api_key"@,
        "openai_api"@,
        "thinking"@,
        "compat"@,
        "models"@,
    ]
}

/// What a section on a provider says.
#[verifier::opaque]
pub open spec fn provider_of(value: JsonView) -> Option<ProviderConfigView> {
    let section = laid_out(value, provider_names(), 4);
    match (
        section.need_text("id"@),
        section.need_text("display_name"@),
        section.need_text("base_url"@),
        section.need_text("api_key"@),
        api_or_default(section),
    ) {
        (
            Some(id),
            Some(display_name),
            Some(base_url),
            Some(api_key),
            Some(openai_api),
        ) => match (maybe_thinking(section), maybe_compat(section), models_or_empty(section)) {
            (Some(thinking), Some(compat), Some(models)) => Some(
                ProviderConfigView {
                    id,
                    display_name,
                    base_url,
                    api_key,
                    openai_api,
                    thinking,
                    compat,
                    models,
                },
            ),
            _ => None,
        },
        _ => None,
    }
}

fn provider_from(section: &Json) -> (r: Option<ProviderConfig>)
    ensures
        text::opt(r) == provider_of(section@),
{
    proof {
        reveal(provider_of);
    }
    let names: Vec<&'static str> = vec![
        "id",
        "display_name",
        "base_url",
        "api_key",
        "openai_api",
        "thinking",
        "compat",
        "models",
    ];
    assert(text::views(names@) =~= provider_names());
    let laid = lay_out(section, &names, 4);
    let section = match &laid {
        Some(laid) => laid,
        None => section,
    };
    match (
        section.need_text("id"),
        section.need_text("display_name"),
        section.need_text("base_url"),
        section.need_text("api_key"),
        api_or_default_of(section),
    ) {
        (
            Some(id),
            Some(display_name),
            Some(base_url),
            Some(api_key),
            Some(openai_api),
        ) => match (
            thinking_field(section),
            compat_field(section),
            models_or_empty_of(section),
        ) {
            (Some(thinking), Some(compat), Some(models)) => Some(
                ProviderConfig {
                    id,
                    display_name,
                    base_url,
                    api_key: SecretValue::new(api_key),
                    openai_api,
                    thinking,
                    compat,
                    models,
                },
            ),
            _ => None,
        },
        _ => None,
    }
}

/// What the sections on providers say.
pub open spec fn providers_of(items: Seq<JsonView>) -> Option<Seq<ProviderConfigView>>
    decreases items.len(),
{
    if items.len() == 0 {
        Some(Seq::empty())
    } else {
        match (providers_of(items.drop_last()), provider_of(items.last())) {
            (Some(list), Some(item)) => Some(list.push(item)),
            _ => None,
        }
    }
}

fn providers_from(items: &Vec<Json>) -> (r: Option<Vec<ProviderConfig>>)
    ensures
        match r {
            Some(list) => providers_of(json::items_view(items@)) == Some(text::views(list@)),
            None => providers_of(json::items_view(items@)) is None,
        },
{
    let ghost model = json::items_view(items@);
    proof {
        json::lemma_items_view(items@);
    }
    let mut list: Vec<ProviderConfig> = Vec::new();
    let mut sound = true;
    let mut i: usize = 0;
    assert(text::views(list@) =~= Seq::<ProviderConfigView>::empty());
    while i < items.len()
        invariant
            i <= items@.len(),
            model.len() == items@.len(),
            forall|j: int| 0 <= j < items@.len() ==> #[trigger] model[j] == items@[j]@,
            sound ==> providers_of(model.take(i as int)) == Some(text::views(list@)),
            !sound ==> providers_of(model.take(i as int)) is None,
        decreases items@.len() - i,
    {
        assert(model.take(i + 1).drop_last() =~= model.take(i as int));
        assert(model.take(i + 1).last() == model[i as int]);
        match provider_from(&items[i]) {
            Some(item) => {
                proof {
                    text::lemma_views_push(list@, item);
                }
                list.push(item);
            },
            None => {
                sound = false;
            },
        }
        i = i + 1;
    }
    assert(model.take(model.len() as int) =~= model);
    if sound {
        Some(list)
    } else {
        None
    }
}

/// The providers of a file, none where there is no list of them.
pub open spec fn providers_or_empty(section: JsonView) -> Option<Seq<ProviderConfigView>> {
    match section.get("providers"@) {
        None => Some(Seq::empty()),
        Some(JsonView::Array(items)) => providers_of(items),
        Some(_) => None,
    }
}

fn providers_or_empty_of(section: &Json) -> (r: Option<Vec<ProviderConfig>>)
    ensures
        match r {
            Some(providers) => providers_or_empty(section@) == Some(text::views(providers@)),
            None => providers_or_empty(section@) is None,
        },
{
    match section.get("providers") {
        None => {
            let none: Vec<ProviderConfig> = Vec::new();
            assert(text::views(none@) =~= Seq::<ProviderConfigView>::empty());
            Some(none)
        },
        Some(Json::Array(items)) => providers_from(items),
        Some(_) => None,
    }
}

// ---------------------------------------------------------------------------
// Memory and theme
// ---------------------------------------------------------------------------

/// What the `[memory]` section says.
#[verifier::opaque]
pub open spec fn memory_of(value: JsonView) -> Option<FileMemoryConfig> {
    let section = laid_out(value, memory_names(), 6);
    match section {
        JsonView::Object(fields) => if !only_known(fields, memory_names()) {
            None
        } else {
            match (
                section.maybe_bool("enabled"@),
                maybe_mode(section, "mode"@),
                section.maybe_number("recall_rate_limit"@, usize::MAX as u64),
                section.maybe_number("max_recall_tokens"@, usize::MAX as u64),
                section.maybe_number("hot_cache_size"@, usize::MAX as u64),
                section.maybe_bool("auto_pin_important"@),
            ) {
                (
                    Some(enabled),
                    Some(mode),
                    Some(recall_rate_limit),
                    Some(max_recall_tokens),
                    Some(hot_cache_size),
                    Some(auto_pin_important),
                ) => Some(
                    FileMemoryConfig {
                        enabled,
                        mode,
                        recall_rate_limit: json::as_size(recall_rate_limit),
                        max_recall_tokens: json::as_size(max_recall_tokens),
                        hot_cache_size: json::as_size(hot_cache_size),
                        auto_pin_important,
                    },
                ),
                _ => None,
            }
        },
        _ => None,
    }
}

fn memory_from(section: &Json) -> (r: Option<FileMemoryConfig>)
    ensures
        r == memory_of(section@),
{
    proof {
        reveal(memory_of);
    }
    let names = memory_names_of();
    let laid = lay_out(section, &names, 6);
    let section = match &laid {
        Some(laid) => laid,
        None => section,
    };
    match section {
        Json::Object(fields) => {
            if !only_known_of(fields, &names) {
                return None;
            }
        },
        _ => {
            return None;
        },
    }
    match (
        section.maybe_bool("enabled"),
        mode_field(section, "mode"),
        section.maybe_number("recall_rate_limit", usize::MAX as u64),
        section.maybe_number("max_recall_tokens", usize::MAX as u64),
        section.maybe_number("hot_cache_size", usize::MAX as u64),
        section.maybe_bool("auto_pin_important"),
    ) {
        (
            Some(enabled),
            Some(mode),
            Some(recall_rate_limit),
            Some(max_recall_tokens),
            Some(hot_cache_size),
            Some(auto_pin_important),
        ) => Some(
            FileMemoryConfig {
                enabled,
                mode,
                recall_rate_limit: json::size_of(recall_rate_limit),
                max_recall_tokens: json::size_of(max_recall_tokens),
                hot_cache_size: json::size_of(hot_cache_size),
                auto_pin_important,
            },
        ),
        _ => None,
    }
}

/// The color under `key`, where there is one.
pub open spec fn color_at(section: JsonView, key: Seq<char>) -> Option<ThemeColor> {
    match maybe_color(section, key) {
        Some(color) => color,
        None => None,
    }
}

/// The color that a value stands for.
pub open spec fn is_color(value: JsonView) -> bool {
    value matches JsonView::Text(name) && theme::color_of(name) is Ok
}

/// What the `[theme]` section says: every name in it is known, and stands for
/// a color.
#[verifier::opaque]
pub open spec fn theme_of(value: JsonView) -> Option<ThemeConfig> {
    let section = laid_out(value, theme_names(), 26);
    match section {
        JsonView::Object(fields) => if only_known(fields, theme_names()) && forall|i: int|
            0 <= i < fields.len() ==> is_color((#[trigger] fields[i]).1) {
            Some(
                ThemeConfig {
                    background: color_at(section, "background"@),
                    surface: color_at(section, "surface"@),
                    surface_hover: color_at(section, "surface_hover"@),
                    surface_raised: color_at(section, "surface_raised"@),
                    text: color_at(section, "text"@),
                    text_strong: color_at(section, "text_strong"@),
                    text_dim: color_at(section, "text_dim"@),
                    text_faint: color_at(section, "text_faint"@),
                    gray_dim: color_at(section, "gray_dim"@),
                    accent_primary: color_at(section, "accent_primary"@),
                    accent_secondary: color_at(section, "accent_secondary"@),
                    accent_user: color_at(section, "accent_user"@),
                    accent_thinking: color_at(section, "accent_thinking"@),
                    accent_tool: color_at(section, "accent_tool"@),
                    border: color_at(section, "border"@),
                    border_active: color_at(section, "border_active"@),
                    ok: color_at(section, "ok"@),
                    bad: color_at(section, "bad"@),
                    command: color_at(section, "command"@),
                    running: color_at(section, "running"@),
                    model_accent: color_at(section, "model_accent"@),
                    md_code: color_at(section, "md_code"@),
                    code_bg: color_at(section, "code_bg"@),
                    diff_add_bg: color_at(section, "diff_add_bg"@),
                    diff_del_bg: color_at(section, "diff_del_bg"@),
                    wordmark_ink: color_at(section, "wordmark_ink"@),
                },
            )
        } else {
            None
        },
        _ => None,
    }
}

fn are_colors(fields: &Vec<(String, Json)>) -> (r: bool)
    ensures
        r == forall|i: int|
            0 <= i < json::fields_view(fields@).len() ==> is_color(
                (#[trigger] json::fields_view(fields@)[i]).1,
            ),
{
    let ghost model = json::fields_view(fields@);
    proof {
        json::lemma_fields_view(fields@);
    }
    let mut i: usize = 0;
    while i < fields.len()
        invariant
            i <= fields@.len(),
            model == json::fields_view(fields@),
            model.len() == fields@.len(),
            forall|j: int|
                0 <= j < fields@.len() ==> #[trigger] model[j] == (fields@[j].0@, fields@[j].1@),
            forall|j: int| 0 <= j < i ==> is_color((#[trigger] model[j]).1),
        decreases fields@.len() - i,
    {
        assert(model[i as int] == (fields@[i as int].0@, fields@[i as int].1@));
        let colored = match &fields[i].1 {
            Json::Text(name) => ThemeColor::parse(name.as_str()).is_ok(),
            _ => false,
        };
        if !colored {
            assert(!is_color(model[i as int].1));
            return false;
        }
        i = i + 1;
    }
    true
}

fn color_at_of(section: &Json, key: &str) -> (r: Option<ThemeColor>)
    ensures
        r == color_at(section@, key@),
{
    match color_field(section, key) {
        Some(color) => color,
        None => None,
    }
}

fn theme_from(section: &Json) -> (r: Option<ThemeConfig>)
    ensures
        r == theme_of(section@),
{
    proof {
        reveal(theme_of);
    }
    let names = theme_names_of();
    let laid = lay_out(section, &names, 26);
    let section = match &laid {
        Some(laid) => laid,
        None => section,
    };
    match section {
        Json::Object(fields) => {
            if !only_known_of(fields, &names) || !are_colors(fields) {
                return None;
            }
        },
        _ => {
            return None;
        },
    }
    Some(
        ThemeConfig {
            background: color_at_of(section, "background"),
            surface: color_at_of(section, "surface"),
            surface_hover: color_at_of(section, "surface_hover"),
            surface_raised: color_at_of(section, "surface_raised"),
            text: color_at_of(section, "text"),
            text_strong: color_at_of(section, "text_strong"),
            text_dim: color_at_of(section, "text_dim"),
            text_faint: color_at_of(section, "text_faint"),
            gray_dim: color_at_of(section, "gray_dim"),
            accent_primary: color_at_of(section, "accent_primary"),
            accent_secondary: color_at_of(section, "accent_secondary"),
            accent_user: color_at_of(section, "accent_user"),
            accent_thinking: color_at_of(section, "accent_thinking"),
            accent_tool: color_at_of(section, "accent_tool"),
            border: color_at_of(section, "border"),
            border_active: color_at_of(section, "border_active"),
            ok: color_at_of(section, "ok"),
            bad: color_at_of(section, "bad"),
            command: color_at_of(section, "command"),
            running: color_at_of(section, "running"),
            model_accent: color_at_of(section, "model_accent"),
            md_code: color_at_of(section, "md_code"),
            code_bg: color_at_of(section, "code_bg"),
            diff_add_bg: color_at_of(section, "diff_add_bg"),
            diff_del_bg: color_at_of(section, "diff_del_bg"),
            wordmark_ink: color_at_of(section, "wordmark_ink"),
        },
    )
}

/// The `[memory]` section, empty where there is none.
pub open spec fn memory_or_empty(section: JsonView) -> Option<FileMemoryConfig> {
    match section.get("memory"@) {
        None => Some(file::no_memory()),
        Some(value) => memory_of(value),
    }
}

/// The `[theme]` section, empty where there is none.
pub open spec fn theme_or_empty(section: JsonView) -> Option<ThemeConfig> {
    match section.get("theme"@) {
        None => Some(theme::no_theme()),
        Some(value) => theme_of(value),
    }
}

// ---------------------------------------------------------------------------
// A file
// ---------------------------------------------------------------------------

/// The budget of the context, which may be given under either of two names,
/// but not under both.
pub open spec fn context_tokens_of(section: JsonView) -> Option<Option<u64>> {
    match (section.get("max_context_tokens"@), section.get("max_context_chars"@)) {
        (Some(_), Some(_)) => None,
        (None, Some(_)) => section.maybe_number("max_context_chars"@, usize::MAX as u64),
        _ => section.maybe_number("max_context_tokens"@, usize::MAX as u64),
    }
}

fn context_tokens_field(section: &Json) -> (r: Option<Option<u64>>)
    ensures
        r == context_tokens_of(section@),
{
    match (section.get("max_context_tokens"), section.get("max_context_chars")) {
        (Some(_), Some(_)) => None,
        (None, Some(_)) => section.maybe_number("max_context_chars", usize::MAX as u64),
        _ => section.maybe_number("max_context_tokens", usize::MAX as u64),
    }
}

/// What the plain settings of a file are, in the order in which a
/// [`FileConfig`] holds them.
pub open spec fn numbers_of(section: JsonView) -> Option<
    (Option<u64>, Option<u64>, Option<u64>, Option<u64>, Option<u64>, Option<u64>),
> {
    match (
        section.maybe_number("max_turns"@, usize::MAX as u64),
        section.maybe_number("tool_timeout_seconds"@, u64::MAX),
        section.maybe_number("agent_timeout_seconds"@, u64::MAX),
        section.maybe_number("max_tool_output_chars"@, usize::MAX as u64),
        context_tokens_of(section),
        section.maybe_number("compact_keep_turns"@, usize::MAX as u64),
    ) {
        (Some(a), Some(b), Some(c), Some(d), Some(e), Some(f)) => Some((a, b, c, d, e, f)),
        _ => None,
    }
}

fn numbers_from(section: &Json) -> (r: Option<
    (Option<u64>, Option<u64>, Option<u64>, Option<u64>, Option<u64>, Option<u64>),
>)
    ensures
        r == numbers_of(section@),
{
    match (
        section.maybe_number("max_turns", usize::MAX as u64),
        section.maybe_number("tool_timeout_seconds", u64::MAX),
        section.maybe_number("agent_timeout_seconds", u64::MAX),
        section.maybe_number("max_tool_output_chars", usize::MAX as u64),
        context_tokens_field(section),
        section.maybe_number("compact_keep_turns", usize::MAX as u64),
    ) {
        (Some(a), Some(b), Some(c), Some(d), Some(e), Some(f)) => Some((a, b, c, d, e, f)),
        _ => None,
    }
}

/// What a file says; nothing where it holds anything that is not known, or
/// that is not what it should be.
pub open spec fn file_of(section: JsonView) -> Option<FileConfigView> {
    match section {
        JsonView::Object(fields) => if !only_known(fields, file_names()) {
            None
        } else {
            match (
                section.maybe_text("api_key"@),
                section.maybe_text("model"@),
                section.maybe_text("base_url"@),
                section.maybe_text("session_dir"@),
                maybe_api(section, "openai_api"@),
                numbers_of(section),
            ) {
                (
                    Some(api_key),
                    Some(model),
                    Some(base_url),
                    Some(session_dir),
                    Some(openai_api),
                    Some(numbers),
                ) => match (
                    maybe_active_model(section),
                    providers_or_empty(section),
                    maybe_level(section, "default_thinking_level"@),
                    section.maybe_bool("hide_thinking_block"@),
                    memory_or_empty(section),
                    theme_or_empty(section),
                ) {
                    (
                        Some(active_model),
                        Some(providers),
                        Some(default_thinking_level),
                        Some(hide_thinking_block),
                        Some(memory),
                        Some(theme),
                    ) => Some(
                        FileConfigView {
                            api_key,
                            model,
                            base_url,
                            openai_api,
                            active_model,
                            providers,
                            max_turns: json::as_size(numbers.0),
                            tool_timeout_seconds: numbers.1,
                            agent_timeout_seconds: numbers.2,
                            max_tool_output_chars: json::as_size(numbers.3),
                            max_context_tokens: json::as_size(numbers.4),
                            compact_keep_turns: json::as_size(numbers.5),
                            default_thinking_level,
                            hide_thinking_block,
                            session_dir,
                            memory,
                            theme,
                        },
                    ),
                    _ => None,
                },
                _ => None,
            }
        },
        _ => None,
    }
}

/// What a file says.
pub fn file_from(section: &Json) -> (r: Option<FileConfig>)
    ensures
        text::opt(r) == file_of(section@),
{
    match section {
        Json::Object(fields) => {
            if !only_known_of(fields, &file_names_of()) {
                return None;
            }
        },
        _ => {
            return None;
        },
    }
    let memory = match section.get("memory") {
        None => Some(FileMemoryConfig::default()),
        Some(value) => memory_from(value),
    };
    let theme = match section.get("theme") {
        None => Some(ThemeConfig::default()),
        Some(value) => theme_from(value),
    };
    match (
        section.maybe_text("api_key"),
        section.maybe_text("model"),
        section.maybe_text("base_url"),
        section.maybe_text("session_dir"),
        api_field(section, "openai_api"),
        numbers_from(section),
    ) {
        (
            Some(api_key),
            Some(model),
            Some(base_url),
            Some(session_dir),
            Some(openai_api),
            Some(numbers),
        ) => match (
            active_model_field(section),
            providers_or_empty_of(section),
            level_field(section, "default_thinking_level"),
            section.maybe_bool("hide_thinking_block"),
            memory,
            theme,
        ) {
            (
                Some(active_model),
                Some(providers),
                Some(default_thinking_level),
                Some(hide_thinking_block),
                Some(memory),
                Some(theme),
            ) => Some(
                FileConfig {
                    api_key,
                    model,
                    base_url,
                    openai_api,
                    active_model,
                    providers,
                    max_turns: json::size_of(numbers.0),
                    tool_timeout_seconds: numbers.1,
                    agent_timeout_seconds: numbers.2,
                    max_tool_output_chars: json::size_of(numbers.3),
                    max_context_tokens: json::size_of(numbers.4),
                    compact_keep_turns: json::size_of(numbers.5),
                    default_thinking_level,
                    hide_thinking_block,
                    session_dir,
                    memory,
                    theme,
                },
            ),
            _ => None,
        },
        _ => None,
    }
}

} // verus!
