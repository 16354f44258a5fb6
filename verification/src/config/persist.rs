//! What is written to a configuration file, and that it is read back.
use crate::config::catalog;
use crate::config::catalog::ModelConfig;
use crate::config::catalog::ModelConfigView;
use crate::config::catalog::ModelRef;
use crate::config::catalog::ModelRefView;
use crate::config::catalog::ProviderCatalog;
use crate::config::catalog::ProviderConfig;
use crate::config::catalog::ProviderConfigView;
use crate::config::document;
use crate::config::file;
use crate::config::file::FileConfig;
use crate::config::file::FileConfigView;
use crate::config::sections;
use crate::json;
use crate::json::Json;
use crate::json::JsonView;
use crate::provider;
use crate::provider::thinking;
use crate::provider::thinking::EffortMap;
use crate::provider::thinking::ThinkingCompat;
use crate::provider::thinking::ThinkingCompatView;
use crate::provider::thinking::ThinkingConfig;
use crate::provider::thinking::ThinkingConfigView;
use crate::provider::thinking::ThinkingLevel;
use crate::session;
use crate::text;
use crate::textmap;
use vstd::prelude::*;
use vstd::string::*;

verus! {

// ---------------------------------------------------------------------------
// Sections
// ---------------------------------------------------------------------------

/// A list of levels as a value.
pub open spec fn level_items(levels: Seq<ThinkingLevel>) -> Seq<JsonView> {
    levels.map_values(|level: ThinkingLevel| JsonView::Text(thinking::level_name(level)))
}

pub open spec fn supported_json(supported: Option<Seq<ThinkingLevel>>) -> Option<JsonView> {
    match supported {
        Some(levels) => Some(JsonView::Array(level_items(levels))),
        None => None,
    }
}

/// A `thinking` section.
pub open spec fn thinking_fields(config: ThinkingConfigView) -> Seq<(Seq<char>, JsonView)> {
    let bounds = Seq::<(Seq<char>, JsonView)>::empty().push(
        ("min_level"@, JsonView::Text(thinking::level_name(config.min_level))),
    ).push(("max_level"@, JsonView::Text(thinking::level_name(config.max_level))));
    json::with_value(bounds, "supported"@, supported_json(config.supported)).push(
        ("mode"@, JsonView::Text("effort"@)),
    )
}

/// The words for the first `n` levels of thinking.
pub open spec fn effort_fields(map: Map<ThinkingLevel, Seq<char>>, n: nat) -> Seq<
    (Seq<char>, JsonView),
>
    decreases n,
{
    if n == 0 {
        Seq::empty()
    } else {
        let level = thinking::ladder()[n - 1];
        let lower = effort_fields(map, (n - 1) as nat);
        if map.contains_key(level) {
            lower.push((thinking::level_name(level), JsonView::Text(map[level])))
        } else {
            lower
        }
    }
}

pub open spec fn bool_json(value: Option<bool>) -> Option<JsonView> {
    match value {
        Some(b) => Some(JsonView::Bool(b)),
        None => None,
    }
}

pub open spec fn efforts_json(map: Map<ThinkingLevel, Seq<char>>) -> Option<JsonView> {
    if map == Map::<ThinkingLevel, Seq<char>>::empty() {
        None
    } else {
        Some(JsonView::Object(effort_fields(map, 7)))
    }
}

/// A `compat` section.
pub open spec fn compat_fields(compat: ThinkingCompatView) -> Seq<(Seq<char>, JsonView)> {
    let none = Seq::<(Seq<char>, JsonView)>::empty();
    let effort = json::with_value(
        none,
        "supports_reasoning_effort"@,
        bool_json(compat.supports_reasoning_effort),
    );
    let mapped = json::with_value(
        effort,
        "reasoning_effort_map"@,
        efforts_json(compat.reasoning_effort_map),
    );
    json::with_value(
        mapped,
        "supports_interleaved_thinking"@,
        bool_json(compat.supports_interleaved_thinking),
    )
}

pub open spec fn thinking_json(config: Option<ThinkingConfigView>) -> Option<JsonView> {
    match config {
        Some(config) => Some(JsonView::Object(thinking_fields(config))),
        None => None,
    }
}

pub open spec fn compat_json(compat: Option<ThinkingCompatView>) -> Option<JsonView> {
    match compat {
        Some(compat) => Some(JsonView::Object(compat_fields(compat))),
        None => None,
    }
}

pub open spec fn number_json(value: Option<u64>) -> Option<JsonView> {
    match value {
        Some(n) => Some(JsonView::Unsigned(n)),
        None => None,
    }
}

/// A section on a model.
pub open spec fn model_fields(model: ModelConfigView) -> Seq<(Seq<char>, JsonView)> {
    let named = Seq::<(Seq<char>, JsonView)>::empty().push(
        ("id"@, JsonView::Text(model.id)),
    ).push(("display_name"@, JsonView::Text(model.display_name)));
    let thought = json::with_value(named, "thinking"@, thinking_json(model.thinking));
    let suited = json::with_value(thought, "compat"@, compat_json(model.compat));
    json::with_value(suited, "context_window"@, number_json(model.context_window))
}

/// The sections on models.
pub open spec fn model_items(models: Seq<ModelConfigView>) -> Seq<JsonView> {
    models.map_values(|model: ModelConfigView| JsonView::Object(model_fields(model)))
}

/// A section on a provider.
pub open spec fn provider_fields(provider: ProviderConfigView) -> Seq<(Seq<char>, JsonView)> {
    let named = Seq::<(Seq<char>, JsonView)>::empty().push(
        ("id"@, JsonView::Text(provider.id)),
    ).push(("display_name"@, JsonView::Text(provider.display_name))).push(
        ("base_url"@, JsonView::Text(provider.base_url)),
    ).push(("api_key"@, JsonView::Text(provider.api_key))).push(
        ("openai_api"@, JsonView::Text(provider::api_name(provider.openai_api))),
    );
    let thought = json::with_value(named, "thinking"@, thinking_json(provider.thinking));
    let suited = json::with_value(thought, "compat"@, compat_json(provider.compat));
    suited.push(("models"@, JsonView::Array(model_items(provider.models))))
}

/// The sections on providers.
pub open spec fn provider_items(providers: Seq<ProviderConfigView>) -> Seq<JsonView> {
    providers.map_values(
        |provider: ProviderConfigView| JsonView::Object(provider_fields(provider)),
    )
}

/// A section that names a model.
pub open spec fn ref_fields(target: ModelRefView) -> Seq<(Seq<char>, JsonView)> {
    Seq::<(Seq<char>, JsonView)>::empty().push(
        ("provider_id"@, JsonView::Text(target.provider_id)),
    ).push(("model_id"@, JsonView::Text(target.model_id)))
}

// ---------------------------------------------------------------------------
// Writing sections
// ---------------------------------------------------------------------------

fn level_items_of(levels: &Vec<ThinkingLevel>) -> (r: Vec<Json>)
    ensures
        json::items_view(r@) == level_items(levels@),
{
    let ghost goal = level_items(levels@);
    let mut r: Vec<Json> = Vec::new();
    let mut i: usize = 0;
    assert(json::items_view(r@) =~= goal.take(0));
    while i < levels.len()
        invariant
            i <= levels@.len(),
            goal == level_items(levels@),
            json::items_view(r@) == goal.take(i as int),
        decreases levels@.len() - i,
    {
        json::push_item(&mut r, Json::Text(levels[i].to_string()));
        assert(goal.take(i + 1) =~= goal.take(i as int).push(goal[i as int]));
        i = i + 1;
    }
    assert(goal.take(goal.len() as int) =~= goal);
    r
}

fn thinking_value(config: &Option<ThinkingConfig>) -> (r: Option<Json>)
    ensures
        text::opt(r) == thinking_json(text::opt(*config)),
{
    match config {
        Some(config) => {
            let mut fields: Vec<(String, Json)> = Vec::new();
            json::push_text(&mut fields, "min_level", config.min_level.name());
            json::push_text(&mut fields, "max_level", config.max_level.name());
            let supported = match &config.supported {
                Some(levels) => Some(Json::Array(level_items_of(levels))),
                None => None,
            };
            json::push_maybe(&mut fields, "supported", supported);
            json::push_text(&mut fields, "mode", "effort");
            Some(Json::Object(fields))
        },
        None => None,
    }
}

fn bool_value(value: Option<bool>) -> (r: Option<Json>)
    ensures
        text::opt(r) == bool_json(value),
{
    match value {
        Some(b) => Some(Json::Bool(b)),
        None => None,
    }
}

fn effort_fields_of(map: &EffortMap) -> (r: Vec<(String, Json)>)
    ensures
        json::fields_view(r@) == effort_fields(map@, 7),
{
    let levels = ThinkingLevel::ALL;
    let mut r: Vec<(String, Json)> = Vec::new();
    let mut i: usize = 0;
    while i < 7
        invariant
            i <= 7,
            levels@ == thinking::ladder(),
            json::fields_view(r@) == effort_fields(map@, i as nat),
        decreases 7 - i,
    {
        let level = levels[i];
        match map.get(&level) {
            Some(word) => {
                json::push_text(&mut r, level.name(), word.as_str());
            },
            None => {},
        }
        i = i + 1;
    }
    r
}

fn compat_value(compat: &Option<ThinkingCompat>) -> (r: Option<Json>)
    ensures
        text::opt(r) == compat_json(text::opt(*compat)),
{
    match compat {
        Some(compat) => {
            let mut fields: Vec<(String, Json)> = Vec::new();
            json::push_maybe(
                &mut fields,
                "supports_reasoning_effort",
                bool_value(compat.supports_reasoning_effort),
            );
            let words = if compat.reasoning_effort_map.is_empty() {
                None
            } else {
                Some(Json::Object(effort_fields_of(&compat.reasoning_effort_map)))
            };
            json::push_maybe(&mut fields, "reasoning_effort_map", words);
            json::push_maybe(
                &mut fields,
                "supports_interleaved_thinking",
                bool_value(compat.supports_interleaved_thinking),
            );
            Some(Json::Object(fields))
        },
        None => None,
    }
}

fn model_value(model: &ModelConfig) -> (r: Json)
    ensures
        r@ == JsonView::Object(model_fields(model@)),
{
    let mut fields: Vec<(String, Json)> = Vec::new();
    json::push_text(&mut fields, "id", model.id.as_str());
    json::push_text(&mut fields, "display_name", model.display_name.as_str());
    json::push_maybe(&mut fields, "thinking", thinking_value(&model.thinking));
    json::push_maybe(&mut fields, "compat", compat_value(&model.compat));
    let window = match model.context_window {
        Some(n) => Some(Json::Unsigned(n)),
        None => None,
    };
    json::push_maybe(&mut fields, "context_window", window);
    Json::Object(fields)
}

fn model_items_of(models: &Vec<ModelConfig>) -> (r: Vec<Json>)
    ensures
        json::items_view(r@) == model_items(text::views(models@)),
{
    let ghost model = text::views(models@);
    let ghost goal = model_items(model);
    let mut r: Vec<Json> = Vec::new();
    let mut i: usize = 0;
    assert(json::items_view(r@) =~= goal.take(0));
    while i < models.len()
        invariant
            i <= models@.len(),
            model == text::views(models@),
            goal == model_items(model),
            json::items_view(r@) == goal.take(i as int),
        decreases models@.len() - i,
    {
        assert(model[i as int] == models@[i as int]@);
        json::push_item(&mut r, model_value(&models[i]));
        assert(goal.take(i + 1) =~= goal.take(i as int).push(goal[i as int]));
        i = i + 1;
    }
    assert(goal.take(goal.len() as int) =~= goal);
    r
}

fn provider_value(provider: &ProviderConfig) -> (r: Json)
    ensures
        r@ == JsonView::Object(provider_fields(provider@)),
{
    let mut fields: Vec<(String, Json)> = Vec::new();
    json::push_text(&mut fields, "id", provider.id.as_str());
    json::push_text(&mut fields, "display_name", provider.display_name.as_str());
    json::push_text(&mut fields, "base_url", provider.base_url.as_str());
    json::push_text(&mut fields, "api_key", provider.api_key.expose());
    json::push_text(&mut fields, "openai_api", provider.openai_api.name());
    json::push_maybe(&mut fields, "thinking", thinking_value(&provider.thinking));
    json::push_maybe(&mut fields, "compat", compat_value(&provider.compat));
    json::push_field(&mut fields, "models", Json::Array(model_items_of(&provider.models)));
    Json::Object(fields)
}

fn provider_items_of(providers: &Vec<ProviderConfig>) -> (r: Vec<Json>)
    ensures
        json::items_view(r@) == provider_items(text::views(providers@)),
{
    let ghost model = text::views(providers@);
    let ghost goal = provider_items(model);
    let mut r: Vec<Json> = Vec::new();
    let mut i: usize = 0;
    assert(json::items_view(r@) =~= goal.take(0));
    while i < providers.len()
        invariant
            i <= providers@.len(),
            model == text::views(providers@),
            goal == provider_items(model),
            json::items_view(r@) == goal.take(i as int),
        decreases providers@.len() - i,
    {
        assert(model[i as int] == providers@[i as int]@);
        json::push_item(&mut r, provider_value(&providers[i]));
        assert(goal.take(i + 1) =~= goal.take(i as int).push(goal[i as int]));
        i = i + 1;
    }
    assert(goal.take(goal.len() as int) =~= goal);
    r
}

fn ref_value(target: &ModelRef) -> (r: Json)
    ensures
        r@ == JsonView::Object(ref_fields(target@)),
{
    let mut fields: Vec<(String, Json)> = Vec::new();
    json::push_text(&mut fields, "provider_id", target.provider_id.as_str());
    json::push_text(&mut fields, "model_id", target.model_id.as_str());
    Json::Object(fields)
}

// ---------------------------------------------------------------------------
// Reading back
// ---------------------------------------------------------------------------

proof fn lemma_section_names()
    ensures
        "min_level"@.len() == 9 && "min_level"@[1] == 'i',
        "max_level"@.len() == 9 && "max_level"@[1] == 'a',
        "supported"@.len() == 9 && "supported"@[1] == 'u',
        "mode"@.len() == 4,
        "supports_reasoning_effort"@.len() == 25,
        "reasoning_effort_map"@.len() == 20,
        "supports_interleaved_thinking"@.len() == 29,
        "id"@.len() == 2,
        "display_name"@.len() == 12,
        "base_url"@.len() == 8 && "base_url"@[0] == 'b',
        "thinking"@.len() == 8 && "thinking"@[0] == 't',
        "model_id"@.len() == 8 && "model_id"@[0] == 'm',
        "api_key"@.len() == 7,
        "openai_api"@.len() == 10,
        "compat"@.len() == 6 && "compat"@[0] == 'c',
        "models"@.len() == 6 && "models"@[0] == 'm',
        "context_window"@.len() == 14,
        "provider_id"@.len() == 11,
        document::TIME_KEY@.len() == 24,
{
    reveal_strlit("min_level");
    reveal_strlit("max_level");
    reveal_strlit("supported");
    reveal_strlit("mode");
    reveal_strlit("supports_reasoning_effort");
    reveal_strlit("reasoning_effort_map");
    reveal_strlit("supports_interleaved_thinking");
    reveal_strlit("id");
    reveal_strlit("display_name");
    reveal_strlit("base_url");
    reveal_strlit("thinking");
    reveal_strlit("model_id");
    reveal_strlit("api_key");
    reveal_strlit("openai_api");
    reveal_strlit("compat");
    reveal_strlit("models");
    reveal_strlit("context_window");
    reveal_strlit("provider_id");
    reveal_strlit("$__toml_private_datetime");
}

/// The name of a level is not that of a time, and names that level alone.
proof fn lemma_level_key(level: ThinkingLevel)
    ensures
        thinking::level_name(level) != document::TIME_KEY@,
        session::level_named(thinking::level_name(level)) == Some(level),
{
    session::lemma_level_names(level);
    reveal_strlit("$__toml_private_datetime");
    reveal_strlit("off");
    reveal_strlit("minimal");
    reveal_strlit("low");
    reveal_strlit("medium");
    reveal_strlit("high");
    reveal_strlit("xhigh");
    reveal_strlit("max");
    assert(document::TIME_KEY@.len() == 24);
    assert(thinking::level_name(level).len() <= 7);
}

proof fn lemma_plain_deeper(v: JsonView, depth: nat, more: nat)
    requires
        document::plain_toml(v, depth),
        depth <= more,
    ensures
        document::plain_toml(v, more),
    decreases depth,
{
    match v {
        JsonView::Array(items) => {
            assert forall|i: int| 0 <= i < items.len() implies document::plain_toml(
                #[trigger] items[i],
                (more - 1) as nat,
            ) by {
                lemma_plain_deeper(items[i], (depth - 1) as nat, (more - 1) as nat);
            }
        },
        JsonView::Object(fields) => {
            assert forall|i: int| 0 <= i < fields.len() implies document::plain_toml(
                (#[trigger] fields[i]).1,
                (more - 1) as nat,
            ) && fields[i].0 != document::TIME_KEY@ by {
                lemma_plain_deeper(fields[i].1, (depth - 1) as nat, (more - 1) as nat);
            }
        },
        _ => {},
    }
}

/// A plain value is plain as it is read.
proof fn lemma_plain_canonical(v: JsonView, depth: nat)
    requires
        document::plain_toml(v, depth),
    ensures
        document::plain_toml(json::canonical(v), depth),
    decreases depth,
{
    match v {
        JsonView::Array(items) => {
            json::lemma_canonical_items(items);
            let read = json::canonical_items(items);
            assert forall|i: int| 0 <= i < read.len() implies document::plain_toml(
                #[trigger] read[i],
                (depth - 1) as nat,
            ) by {
                assert(read[i] == json::canonical(items[i]));
                lemma_plain_canonical(items[i], (depth - 1) as nat);
            }
            assert(json::canonical(v) == JsonView::Array(read));
        },
        JsonView::Object(fields) => {
            let read = json::canonical_fields(fields);
            assert forall|i: int| 0 <= i < read.len() implies document::plain_toml(
                (#[trigger] read[i]).1,
                (depth - 1) as nat,
            ) && read[i].0 != document::TIME_KEY@ by {
                let j = json::lemma_canonical_entry(fields, i);
                assert(document::plain_toml(fields[j].1, (depth - 1) as nat));
                lemma_plain_canonical(fields[j].1, (depth - 1) as nat);
            }
            assert(json::canonical(v) == JsonView::Object(read));
        },
        _ => {},
    }
}

/// Fields that are plain make a plain table.
proof fn lemma_plain_push(
    fields: Seq<(Seq<char>, JsonView)>,
    key: Seq<char>,
    value: JsonView,
    depth: nat,
)
    requires
        document::plain_toml(JsonView::Object(fields), depth + 1),
        document::plain_toml(value, depth),
        key != document::TIME_KEY@,
    ensures
        document::plain_toml(JsonView::Object(fields.push((key, value))), depth + 1),
{
    let all = fields.push((key, value));
    assert(((depth + 1) - 1) as nat == depth);
    assert forall|i: int| 0 <= i < all.len() implies document::plain_toml(
        (#[trigger] all[i]).1,
        depth,
    ) && all[i].0 != document::TIME_KEY@ by {
        if i < fields.len() {
            assert(all[i] == fields[i]);
            assert(document::plain_toml(JsonView::Object(fields)->Object_0[i].1, depth));
        } else {
            assert(all[i] == (key, value));
        }
    }
}

proof fn lemma_no_fields(depth: nat)
    ensures
        document::plain_toml(
            JsonView::Object(Seq::<(Seq<char>, JsonView)>::empty()),
            depth + 1,
        ),
        forall|key: Seq<char>| #[trigger]
            json::last_field(Seq::<(Seq<char>, JsonView)>::empty(), key) is None,
{
}

/// What one more field does to what is read, where there is a value for it.
proof fn lemma_with_value(
    fields: Seq<(Seq<char>, JsonView)>,
    key: Seq<char>,
    value: Option<JsonView>,
    depth: nat,
)
    requires
        document::plain_toml(JsonView::Object(fields), depth + 1),
        value matches Some(v) ==> document::plain_toml(v, depth),
        key != document::TIME_KEY@,
    ensures
        document::plain_toml(
            JsonView::Object(json::with_value(fields, key, value)),
            depth + 1,
        ),
        forall|name: Seq<char>| #[trigger]
            json::last_field(json::with_value(fields, key, value), name) == match value {
                Some(v) => if key == name {
                    Some(v)
                } else {
                    json::last_field(fields, name)
                },
                None => json::last_field(fields, name),
            },
{
    match value {
        Some(v) => {
            lemma_plain_push(fields, key, v, depth);
            json::lemma_last_field_push(fields, key, v);
        },
        None => {},
    }
}

proof fn lemma_levels_back(levels: Seq<ThinkingLevel>)
    ensures
        sections::levels_of(json::canonical_items(level_items(levels))) == Some(levels),
        document::plain_toml(JsonView::Array(level_items(levels)), 1),
    decreases levels.len(),
{
    if levels.len() == 0 {
        assert(levels =~= Seq::<ThinkingLevel>::empty());
    } else {
        let front = levels.drop_last();
        lemma_levels_back(front);
        lemma_level_key(levels.last());
        let items = level_items(levels);
        assert(items.drop_last() =~= level_items(front));
        let read = json::canonical_items(items);
        assert(read.drop_last() =~= json::canonical_items(items.drop_last()));
        assert(read.last() == json::canonical(items.last()));
        assert(front.push(levels.last()) =~= levels);
        assert forall|i: int| 0 <= i < items.len() implies document::plain_toml(
            #[trigger] items[i],
            0,
        ) by {
            assert(items[i] is Text);
        }
    }
}

/// A `thinking` section is read back as it was written.
proof fn lemma_thinking_back(config: ThinkingConfigView)
    ensures
        sections::thinking_of(json::canonical(JsonView::Object(thinking_fields(config)))) == Some(
            config,
        ),
        document::plain_toml(JsonView::Object(thinking_fields(config)), 2),
{
    lemma_section_names();
    lemma_level_key(config.min_level);
    lemma_level_key(config.max_level);
    lemma_no_fields(1);
    let none = Seq::<(Seq<char>, JsonView)>::empty();
    let low = JsonView::Text(thinking::level_name(config.min_level));
    let high = JsonView::Text(thinking::level_name(config.max_level));
    lemma_with_value(none, "min_level"@, Some(low), 1);
    let one = none.push(("min_level"@, low));
    lemma_with_value(one, "max_level"@, Some(high), 1);
    let two = one.push(("max_level"@, high));
    match config.supported {
        Some(levels) => {
            lemma_levels_back(levels);
        },
        None => {},
    }
    lemma_with_value(two, "supported"@, supported_json(config.supported), 1);
    let three = json::with_value(two, "supported"@, supported_json(config.supported));
    lemma_with_value(three, "mode"@, Some(JsonView::Text("effort"@)), 1);
    let all = thinking_fields(config);
    assert(all == three.push(("mode"@, JsonView::Text("effort"@))));
    json::lemma_canonical_get(all, "min_level"@);
    json::lemma_canonical_get(all, "max_level"@);
    json::lemma_canonical_get(all, "supported"@);
    json::lemma_canonical_get(all, "mode"@);
}

proof fn lemma_effort_fields(map: Map<ThinkingLevel, Seq<char>>, n: nat)
    requires
        n <= 7,
    ensures
        document::plain_toml(JsonView::Object(effort_fields(map, n)), 1),
        forall|i: int|
            0 <= i < effort_fields(map, n).len() ==> session::level_named(
                (#[trigger] effort_fields(map, n)[i]).0,
            ) is Some && effort_fields(map, n)[i].1 is Text,
        forall|level: ThinkingLevel|
            json::last_field(effort_fields(map, n), #[trigger] thinking::level_name(level)) == if (
            thinking::rank(level) < n && map.contains_key(level)) {
                Some(JsonView::Text(map[level]))
            } else {
                None::<JsonView>
            },
    decreases n,
{
    if n > 0 {
        let lower = effort_fields(map, (n - 1) as nat);
        lemma_effort_fields(map, (n - 1) as nat);
        let top = thinking::ladder()[n - 1];
        assert(thinking::rank(top) == n - 1);
        thinking::lemma_rank_injective();
        lemma_level_key(top);
        if map.contains_key(top) {
            lemma_plain_push(lower, thinking::level_name(top), JsonView::Text(map[top]), 0);
            json::lemma_last_field_push(
                lower,
                thinking::level_name(top),
                JsonView::Text(map[top]),
            );
        }
        assert forall|level: ThinkingLevel|
            json::last_field(effort_fields(map, n), #[trigger] thinking::level_name(level)) == if (
            thinking::rank(level) < n && map.contains_key(level)) {
                Some(JsonView::Text(map[level]))
            } else {
                None::<JsonView>
            } by {
            lemma_level_key(level);
            if level != top {
                assert(thinking::rank(level) != n - 1);
            }
        }
    }
}

/// The words for the levels are read back as they were written.
proof fn lemma_efforts_back(map: Map<ThinkingLevel, Seq<char>>)
    ensures
        sections::efforts_of(json::canonical_fields(effort_fields(map, 7))) == Some(map),
{
    lemma_effort_fields(map, 7);
    let fields = effort_fields(map, 7);
    let read = json::canonical_fields(fields);
    assert forall|i: int| 0 <= i < read.len() implies session::level_named(
        (#[trigger] read[i]).0,
    ) is Some && read[i].1 is Text by {
        let j = json::lemma_canonical_entry(fields, i);
        assert(session::level_named(fields[j].0) is Some);
    }
    let found = sections::efforts_of(read)->Some_0;
    assert forall|level: ThinkingLevel| #[trigger] found.contains_key(level) == map.contains_key(
        level,
    ) && (map.contains_key(level) ==> found[level] == map[level]) by {
        json::lemma_canonical_get(fields, thinking::level_name(level));
        assert(thinking::rank(level) < 7);
    }
    assert(found =~= map);
}

/// A `compat` section is read back as it was written.
proof fn lemma_compat_back(compat: ThinkingCompatView)
    ensures
        sections::compat_of(json::canonical(JsonView::Object(compat_fields(compat)))) == Some(
            compat,
        ),
        document::plain_toml(JsonView::Object(compat_fields(compat)), 2),
{
    lemma_section_names();
    lemma_no_fields(1);
    let none = Seq::<(Seq<char>, JsonView)>::empty();
    let effort = bool_json(compat.supports_reasoning_effort);
    let words = efforts_json(compat.reasoning_effort_map);
    let between = bool_json(compat.supports_interleaved_thinking);
    lemma_effort_fields(compat.reasoning_effort_map, 7);
    lemma_efforts_back(compat.reasoning_effort_map);
    lemma_with_value(none, "supports_reasoning_effort"@, effort, 1);
    let one = json::with_value(none, "supports_reasoning_effort"@, effort);
    lemma_with_value(one, "reasoning_effort_map"@, words, 1);
    let two = json::with_value(one, "reasoning_effort_map"@, words);
    lemma_with_value(two, "supports_interleaved_thinking"@, between, 1);
    let all = compat_fields(compat);
    json::lemma_canonical_get(all, "supports_reasoning_effort"@);
    json::lemma_canonical_get(all, "reasoning_effort_map"@);
    json::lemma_canonical_get(all, "supports_interleaved_thinking"@);
}

/// Whether a window can be written.
pub open spec fn window_fits(model: ModelConfigView) -> bool {
    model.context_window matches Some(n) ==> n <= 0x7fff_ffff_ffff_ffff
}

proof fn lemma_parts_back(
    config: Option<ThinkingConfigView>,
    compat: Option<ThinkingCompatView>,
)
    ensures
        thinking_json(config) matches Some(v) ==> document::plain_toml(v, 2)
            && json::canonical(v) is Object && sections::thinking_of(json::canonical(v)) == config,
        compat_json(compat) matches Some(v) ==> document::plain_toml(v, 2)
            && json::canonical(v) is Object && sections::compat_of(json::canonical(v)) == compat,
{
    match config {
        Some(config) => {
            lemma_thinking_back(config);
        },
        None => {},
    }
    match compat {
        Some(compat) => {
            lemma_compat_back(compat);
        },
        None => {},
    }
}

/// A section on a model is read back as it was written.
proof fn lemma_model_back(model: ModelConfigView)
    requires
        window_fits(model),
    ensures
        sections::model_of(json::canonical(JsonView::Object(model_fields(model)))) == Some(model),
        document::plain_toml(JsonView::Object(model_fields(model)), 3),
{
    lemma_section_names();
    lemma_no_fields(2);
    lemma_parts_back(model.thinking, model.compat);
    let none = Seq::<(Seq<char>, JsonView)>::empty();
    let id = JsonView::Text(model.id);
    let shown = JsonView::Text(model.display_name);
    lemma_with_value(none, "id"@, Some(id), 2);
    let one = none.push(("id"@, id));
    lemma_with_value(one, "display_name"@, Some(shown), 2);
    let two = one.push(("display_name"@, shown));
    lemma_with_value(two, "thinking"@, thinking_json(model.thinking), 2);
    let three = json::with_value(two, "thinking"@, thinking_json(model.thinking));
    lemma_with_value(three, "compat"@, compat_json(model.compat), 2);
    let four = json::with_value(three, "compat"@, compat_json(model.compat));
    lemma_with_value(four, "context_window"@, number_json(model.context_window), 2);
    let all = model_fields(model);
    json::lemma_canonical_get(all, "id"@);
    json::lemma_canonical_get(all, "display_name"@);
    json::lemma_canonical_get(all, "thinking"@);
    json::lemma_canonical_get(all, "compat"@);
    json::lemma_canonical_get(all, "context_window"@);
}

pub open spec fn windows_fit(models: Seq<ModelConfigView>) -> bool {
    forall|i: int| 0 <= i < models.len() ==> window_fits(#[trigger] models[i])
}

proof fn lemma_models_back(models: Seq<ModelConfigView>)
    requires
        windows_fit(models),
    ensures
        sections::models_of(json::canonical_items(model_items(models))) == Some(models),
        document::plain_toml(JsonView::Array(model_items(models)), 4),
    decreases models.len(),
{
    if models.len() == 0 {
        assert(models =~= Seq::<ModelConfigView>::empty());
    } else {
        let front = models.drop_last();
        assert forall|i: int| 0 <= i < front.len() implies window_fits(#[trigger] front[i]) by {
            assert(front[i] == models[i]);
        }
        lemma_models_back(front);
        assert(window_fits(models[models.len() - 1]));
        lemma_model_back(models.last());
        let items = model_items(models);
        let lower = model_items(front);
        assert(items.drop_last() =~= lower);
        let read = json::canonical_items(items);
        assert(read.drop_last() =~= json::canonical_items(items.drop_last()));
        assert(read.last() == json::canonical(items.last()));
        assert(front.push(models.last()) =~= models);
        assert forall|i: int| 0 <= i < items.len() implies document::plain_toml(
            #[trigger] items[i],
            3,
        ) by {
            if i < front.len() {
                assert(items[i] == lower[i]);
                assert(document::plain_toml(JsonView::Array(lower)->Array_0[i], 3));
            } else {
                assert(items[i] == items.last());
            }
        }
    }
}

/// A section on a provider is read back as it was written.
proof fn lemma_provider_back(provider: ProviderConfigView)
    requires
        windows_fit(provider.models),
    ensures
        sections::provider_of(json::canonical(JsonView::Object(provider_fields(provider))))
            == Some(provider),
        document::plain_toml(JsonView::Object(provider_fields(provider)), 5),
{
    reveal(sections::provider_of);
    lemma_section_names();
    lemma_no_fields(4);
    lemma_parts_back(provider.thinking, provider.compat);
    lemma_models_back(provider.models);
    let thought = thinking_json(provider.thinking);
    let suited = compat_json(provider.compat);
    match thought {
        Some(v) => {
            lemma_plain_deeper(v, 2, 4);
        },
        None => {},
    }
    match suited {
        Some(v) => {
            lemma_plain_deeper(v, 2, 4);
        },
        None => {},
    }
    let none = Seq::<(Seq<char>, JsonView)>::empty();
    let id = JsonView::Text(provider.id);
    let shown = JsonView::Text(provider.display_name);
    let url = JsonView::Text(provider.base_url);
    let key = JsonView::Text(provider.api_key);
    let api = JsonView::Text(provider::api_name(provider.openai_api));
    let models = JsonView::Array(model_items(provider.models));
    lemma_with_value(none, "id"@, Some(id), 4);
    let one = none.push(("id"@, id));
    lemma_with_value(one, "display_name"@, Some(shown), 4);
    let two = one.push(("display_name"@, shown));
    lemma_with_value(two, "base_url"@, Some(url), 4);
    let three = two.push(("base_url"@, url));
    lemma_with_value(three, "api_key"@, Some(key), 4);
    let four = three.push(("api_key"@, key));
    lemma_with_value(four, "openai_api"@, Some(api), 4);
    let five = four.push(("openai_api"@, api));
    lemma_with_value(five, "thinking"@, thought, 4);
    let six = json::with_value(five, "thinking"@, thought);
    lemma_with_value(six, "compat"@, suited, 4);
    let seven = json::with_value(six, "compat"@, suited);
    lemma_with_value(seven, "models"@, Some(models), 4);
    let all = provider_fields(provider);
    assert(all == seven.push(("models"@, models)));
    json::lemma_canonical_get(all, "id"@);
    json::lemma_canonical_get(all, "display_name"@);
    json::lemma_canonical_get(all, "base_url"@);
    json::lemma_canonical_get(all, "api_key"@);
    json::lemma_canonical_get(all, "openai_api"@);
    json::lemma_canonical_get(all, "thinking"@);
    json::lemma_canonical_get(all, "compat"@);
    json::lemma_canonical_get(all, "models"@);
    reveal_strlit("chat-completions");
    reveal_strlit("responses");
    assert("chat-completions"@.len() == 16 && "responses"@.len() == 9);
    assert(sections::api_named(provider::api_name(provider.openai_api)) == Some(
        provider.openai_api,
    ));
}

/// Whether every window of a list of providers can be written.
pub open spec fn all_windows_fit(providers: Seq<ProviderConfigView>) -> bool {
    forall|i: int| 0 <= i < providers.len() ==> windows_fit((#[trigger] providers[i]).models)
}

proof fn lemma_providers_back(providers: Seq<ProviderConfigView>)
    requires
        all_windows_fit(providers),
    ensures
        sections::providers_of(json::canonical_items(provider_items(providers))) == Some(
            providers,
        ),
        document::plain_toml(JsonView::Array(provider_items(providers)), 6),
    decreases providers.len(),
{
    if providers.len() == 0 {
        assert(providers =~= Seq::<ProviderConfigView>::empty());
    } else {
        let front = providers.drop_last();
        assert forall|i: int| 0 <= i < front.len() implies windows_fit(
            (#[trigger] front[i]).models,
        ) by {
            assert(front[i] == providers[i]);
        }
        lemma_providers_back(front);
        assert(windows_fit(providers[providers.len() - 1].models));
        lemma_provider_back(providers.last());
        let items = provider_items(providers);
        let lower = provider_items(front);
        assert(items.drop_last() =~= lower);
        let read = json::canonical_items(items);
        assert(read.drop_last() =~= json::canonical_items(items.drop_last()));
        assert(read.last() == json::canonical(items.last()));
        assert(front.push(providers.last()) =~= providers);
        assert forall|i: int| 0 <= i < items.len() implies document::plain_toml(
            #[trigger] items[i],
            5,
        ) by {
            if i < front.len() {
                assert(items[i] == lower[i]);
                assert(document::plain_toml(JsonView::Array(lower)->Array_0[i], 5));
            } else {
                assert(items[i] == items.last());
            }
        }
    }
}

/// A section that names a model is read back as it was written.
proof fn lemma_ref_back(target: ModelRefView)
    ensures
        sections::model_ref_of(json::canonical(JsonView::Object(ref_fields(target)))) == Some(
            target,
        ),
        document::plain_toml(JsonView::Object(ref_fields(target)), 1),
{
    lemma_section_names();
    lemma_no_fields(0);
    let none = Seq::<(Seq<char>, JsonView)>::empty();
    let provider_id = JsonView::Text(target.provider_id);
    let model_id = JsonView::Text(target.model_id);
    lemma_with_value(none, "provider_id"@, Some(provider_id), 0);
    let one = none.push(("provider_id"@, provider_id));
    lemma_with_value(one, "model_id"@, Some(model_id), 0);
    let all = ref_fields(target);
    assert(all == one.push(("model_id"@, model_id)));
    json::lemma_canonical_get(all, "provider_id"@);
    json::lemma_canonical_get(all, "model_id"@);
}

// ---------------------------------------------------------------------------
// Files
// ---------------------------------------------------------------------------

/// What a file that is to be changed holds: nothing where it is blank.
pub open spec fn stored_fields(content: Seq<char>) -> Result<Seq<(Seq<char>, JsonView)>, Seq<char>> {
    if text::trim(content).len() == 0 {
        Ok(Seq::empty())
    } else {
        document::parsed_toml(content)
    }
}

pub open spec fn parse_failure(shown: Seq<char>, cause: Seq<char>) -> Seq<char> {
    "failed to parse config file "@ + shown + ": "@ + cause
}

/// A table with one entry set.
pub open spec fn set(fields: Seq<(Seq<char>, JsonView)>, key: Seq<char>, value: JsonView) -> Seq<
    (Seq<char>, JsonView),
> {
    textmap::inserted(fields, key, json::canonical(value))
}

/// A file with another active model.
pub open spec fn with_active_model(
    fields: Seq<(Seq<char>, JsonView)>,
    target: ModelRefView,
) -> Seq<(Seq<char>, JsonView)> {
    set(fields, "active_model"@, JsonView::Object(ref_fields(target)))
}

/// A file with another level of thinking.
pub open spec fn with_level(fields: Seq<(Seq<char>, JsonView)>, level: ThinkingLevel) -> Seq<
    (Seq<char>, JsonView),
> {
    set(fields, "default_thinking_level"@, JsonView::Text(thinking::level_name(level)))
}

/// A file that says whether thinking is shown.
pub open spec fn with_visibility(fields: Seq<(Seq<char>, JsonView)>, shown: bool) -> Seq<
    (Seq<char>, JsonView),
> {
    set(fields, "hide_thinking_block"@, JsonView::Bool(!shown))
}

/// A file with other providers, and without the older settings that they take
/// the place of.
pub open spec fn with_catalog(
    fields: Seq<(Seq<char>, JsonView)>,
    providers: Seq<ProviderConfigView>,
    active_model: Option<ModelRefView>,
) -> Seq<(Seq<char>, JsonView)> {
    let listed = set(fields, "providers"@, JsonView::Array(provider_items(providers)));
    let pointed = match active_model {
        Some(target) => with_active_model(listed, target),
        None => textmap::removed(listed, "active_model"@),
    };
    textmap::removed(
        textmap::removed(
            textmap::removed(textmap::removed(pointed, "api_key"@), "base_url"@),
            "model"@,
        ),
        "openai_api"@,
    )
}

/// What a file is replaced by when what it holds is changed by `edit`.
pub open spec fn updated(
    shown: Seq<char>,
    content: Seq<char>,
    edit: spec_fn(Seq<(Seq<char>, JsonView)>) -> Seq<(Seq<char>, JsonView)>,
) -> Result<Seq<char>, Seq<char>> {
    match stored_fields(content) {
        Err(cause) => Err(parse_failure(shown, cause)),
        Ok(fields) => match document::printed_toml(edit(fields)) {
            Ok(content) => Ok(content),
            Err(cause) => Err("failed to serialize project config: "@ + cause),
        },
    }
}

/// Whether the file that was written is read as the one that was read with
/// `edit` done to it, where it holds nothing but plain values.
pub open spec fn is_kept(
    content: Seq<char>,
    written: Result<String, String>,
    edit: spec_fn(Seq<(Seq<char>, JsonView)>) -> Seq<(Seq<char>, JsonView)>,
) -> bool {
    match stored_fields(content) {
        Ok(fields) => document::plain_table(edit(fields)) ==> written is Ok && document::denotes(
            written->Ok_0@,
            edit(fields),
        ),
        Err(_) => true,
    }
}

/// What a file says, or what is wrong with it; nothing where there is none. Of
/// a text that is TOML and no such file, the message names the file alone.
pub open spec fn read_file(shown: Seq<char>, content: Option<Seq<char>>) -> Result<
    FileConfigView,
    Seq<char>,
> {
    match content {
        None => Ok(file::empty_file()),
        Some(content) => match document::parsed_toml(content) {
            Err(cause) => Err(parse_failure(shown, cause)),
            Ok(fields) => match sections::file_of(JsonView::Object(fields)) {
                Some(config) => Ok(config),
                None => Err("failed to parse config file "@ + shown),
            },
        },
    }
}

fn parse_failure_of(shown: &str, cause: &str) -> (r: String)
    ensures
        r@ == parse_failure(shown@, cause@),
{
    let mut message = text::concat("failed to parse config file ", shown);
    message.append(": ");
    message.append(cause);
    message
}

/// What the file that is shown as `shown` says. `content` is its text, where
/// there is such a file.
pub fn read_config_file(shown: &str, content: Option<&str>) -> (r: Result<FileConfig, String>)
    ensures
        text::res(r) == read_file(
            shown@,
            match content {
                Some(content) => Some(content@),
                None => None,
            },
        ),
{
    let content = match content {
        Some(content) => content,
        None => {
            return Ok(FileConfig::default());
        },
    };
    match document::parse_table(content) {
        Err(cause) => Err(parse_failure_of(shown, cause.as_str())),
        Ok(table) => {
            let held = document::json_of_toml(&document::table_value(table));
            match sections::file_from(&held) {
                Some(config) => Ok(config),
                None => Err(text::concat("failed to parse config file ", shown)),
            }
        },
    }
}

fn stored_table(shown: &str, content: &str) -> (r: Result<
    toml::map::Map<String, toml::Value>,
    String,
>)
    ensures
        match (r, stored_fields(content@)) {
            (Ok(table), Ok(fields)) => document::table_fields(table) == fields
                && textmap::sorted(fields),
            (Err(message), Err(cause)) => message@ == parse_failure(shown@, cause),
            _ => false,
        },
{
    let trimmed = text::trim_of(content);
    if text::char_count(trimmed.as_str()) == 0 {
        return Ok(document::new_table());
    }
    match document::parse_table(content) {
        Ok(table) => Ok(table),
        Err(cause) => Err(parse_failure_of(shown, cause.as_str())),
    }
}

fn written_table(table: &toml::map::Map<String, toml::Value>) -> (r: Result<String, String>)
    ensures
        match (r, document::printed_toml(document::table_fields(*table))) {
            (Ok(content), Ok(printed)) => content@ == printed,
            (Err(message), Err(cause)) => message@ == "failed to serialize project config: "@
                + cause,
            _ => false,
        },
        document::plain_table(document::table_fields(*table)) ==> r is Ok && document::denotes(
            r->Ok_0@,
            document::table_fields(*table),
        ),
{
    match document::print_table(table) {
        Ok(content) => Ok(content),
        Err(cause) => Err(text::concat("failed to serialize project config: ", cause.as_str())),
    }
}

fn set_entry(table: &mut toml::map::Map<String, toml::Value>, key: &str, value: &Json)
    requires
        textmap::sorted(document::table_fields(*old(table))),
        document::plain_toml(value@, document::MAX_NESTING as nat),
    ensures
        document::table_fields(*final(table)) == set(
            document::table_fields(*old(table)),
            key@,
            value@,
        ),
        textmap::sorted(document::table_fields(*final(table))),
{
    proof {
        textmap::lemma_inserted(
            document::table_fields(*old(table)),
            key@,
            json::canonical(value@),
        );
    }
    document::insert_entry(table, key, document::toml_of_json(value));
}

fn unset_entry(table: &mut toml::map::Map<String, toml::Value>, key: &str)
    requires
        textmap::sorted(document::table_fields(*old(table))),
    ensures
        document::table_fields(*final(table)) == textmap::removed(
            document::table_fields(*old(table)),
            key@,
        ),
        textmap::sorted(document::table_fields(*final(table))),
{
    proof {
        textmap::lemma_removed(document::table_fields(*old(table)), key@);
    }
    document::remove_entry(table, key);
}

/// The text of the project's file with another active model.
pub fn persist_active_model(shown: &str, content: &str, active_model: &ModelRef) -> (r: Result<
    String,
    String,
>)
    ensures
        text::res(r) == updated(
            shown@,
            content@,
            |fields: Seq<(Seq<char>, JsonView)>| with_active_model(fields, active_model@),
        ),
        is_kept(
            content@,
            r,
            |fields: Seq<(Seq<char>, JsonView)>| with_active_model(fields, active_model@),
        ),
{
    let mut table = match stored_table(shown, content) {
        Ok(table) => table,
        Err(message) => {
            return Err(message);
        },
    };
    let value = ref_value(active_model);
    proof {
        lemma_ref_back(active_model@);
        lemma_plain_deeper(value@, 1, document::MAX_NESTING as nat);
    }
    set_entry(&mut table, "active_model", &value);
    written_table(&table)
}

/// The text of the project's file with another level of thinking.
pub fn persist_thinking_level(shown: &str, content: &str, thinking_level: ThinkingLevel) -> (r:
    Result<String, String>)
    ensures
        text::res(r) == updated(
            shown@,
            content@,
            |fields: Seq<(Seq<char>, JsonView)>| with_level(fields, thinking_level),
        ),
        is_kept(
            content@,
            r,
            |fields: Seq<(Seq<char>, JsonView)>| with_level(fields, thinking_level),
        ),
{
    let mut table = match stored_table(shown, content) {
        Ok(table) => table,
        Err(message) => {
            return Err(message);
        },
    };
    set_entry(&mut table, "default_thinking_level", &Json::Text(thinking_level.to_string()));
    written_table(&table)
}

/// The text of the project's file that says whether thinking is shown.
pub fn persist_show_thinking(shown: &str, content: &str, show_thinking: bool) -> (r: Result<
    String,
    String,
>)
    ensures
        text::res(r) == updated(
            shown@,
            content@,
            |fields: Seq<(Seq<char>, JsonView)>| with_visibility(fields, show_thinking),
        ),
        is_kept(
            content@,
            r,
            |fields: Seq<(Seq<char>, JsonView)>| with_visibility(fields, show_thinking),
        ),
{
    let mut table = match stored_table(shown, content) {
        Ok(table) => table,
        Err(message) => {
            return Err(message);
        },
    };
    set_entry(&mut table, "hide_thinking_block", &Json::Bool(!show_thinking));
    written_table(&table)
}

/// The text of the project's file with the providers of a sound catalog.
pub fn persist_provider_catalog(shown: &str, content: &str, catalog: &ProviderCatalog) -> (r:
    Result<String, String>)
    requires
        all_windows_fit(catalog@.providers),
    ensures
        match catalog::catalog_fault(catalog@) {
            Some(fault) => r is Err && r->Err_0@ == fault,
            None => {
                let edit = |fields: Seq<(Seq<char>, JsonView)>|
                    with_catalog(fields, catalog@.providers, catalog@.active_model);
                text::res(r) == updated(shown@, content@, edit) && is_kept(content@, r, edit)
            },
        },
{
    match catalog.validate() {
        Ok(_) => {},
        Err(fault) => {
            return Err(fault);
        },
    }
    let mut table = match stored_table(shown, content) {
        Ok(table) => table,
        Err(message) => {
            return Err(message);
        },
    };
    let providers = Json::Array(provider_items_of(&catalog.providers));
    proof {
        lemma_providers_back(catalog@.providers);
        lemma_plain_deeper(providers@, 6, document::MAX_NESTING as nat);
    }
    set_entry(&mut table, "providers", &providers);
    match &catalog.active_model {
        Some(target) => {
            let value = ref_value(target);
            proof {
                lemma_ref_back(target@);
                lemma_plain_deeper(value@, 1, document::MAX_NESTING as nat);
            }
            set_entry(&mut table, "active_model", &value);
        },
        None => {
            unset_entry(&mut table, "active_model");
        },
    }
    unset_entry(&mut table, "api_key");
    unset_entry(&mut table, "base_url");
    unset_entry(&mut table, "model");
    unset_entry(&mut table, "openai_api");
    written_table(&table)
}

// ---------------------------------------------------------------------------
// What is written is read
// ---------------------------------------------------------------------------

/// An entry that is set is found, and the others are as they were.
proof fn lemma_set(
    fields: Seq<(Seq<char>, JsonView)>,
    key: Seq<char>,
    value: JsonView,
    names: Seq<Seq<char>>,
)
    requires
        textmap::sorted(fields),
        sections::only_known(fields, names),
        names.contains(key),
    ensures
        textmap::sorted(set(fields, key, value)),
        sections::only_known(set(fields, key, value), names),
        forall|k: Seq<char>| #[trigger]
            json::field(set(fields, key, value), k) == if k == key {
                Some(json::canonical(value))
            } else {
                json::field(fields, k)
            },
{
    let after = set(fields, key, value);
    textmap::lemma_inserted(fields, key, json::canonical(value));
    assert forall|k: Seq<char>| #[trigger]
        json::field(after, k) == if k == key {
            Some(json::canonical(value))
        } else {
            json::field(fields, k)
        } by {
        json::lemma_field_is_lookup(after, k);
        json::lemma_field_is_lookup(fields, k);
    }
    assert forall|i: int| 0 <= i < after.len() implies names.contains(#[trigger] after[i].0) by {
        textmap::lemma_lookup_at(after, i);
        if after[i].0 != key {
            let j = textmap::lemma_lookup_index(fields, after[i].0);
            assert(names.contains(fields[j].0));
        }
    }
}

/// An entry that is removed is gone, and the others are as they were.
proof fn lemma_unset(
    fields: Seq<(Seq<char>, JsonView)>,
    key: Seq<char>,
    names: Seq<Seq<char>>,
)
    requires
        textmap::sorted(fields),
        sections::only_known(fields, names),
    ensures
        textmap::sorted(textmap::removed(fields, key)),
        sections::only_known(textmap::removed(fields, key), names),
        forall|k: Seq<char>| #[trigger]
            json::field(textmap::removed(fields, key), k) == if k == key {
                None::<JsonView>
            } else {
                json::field(fields, k)
            },
{
    let after = textmap::removed(fields, key);
    textmap::lemma_removed(fields, key);
    assert forall|k: Seq<char>| #[trigger]
        json::field(after, k) == if k == key {
            None::<JsonView>
        } else {
            json::field(fields, k)
        } by {
        json::lemma_field_is_lookup(after, k);
        json::lemma_field_is_lookup(fields, k);
    }
    assert forall|i: int| 0 <= i < after.len() implies names.contains(#[trigger] after[i].0) by {
        textmap::lemma_lookup_at(after, i);
        let j = textmap::lemma_lookup_index(fields, after[i].0);
        assert(names.contains(fields[j].0));
    }
}

proof fn lemma_file_names()
    ensures
        sections::file_names().contains("active_model"@),
        sections::file_names().contains("providers"@),
        sections::file_names().contains("default_thinking_level"@),
        sections::file_names().contains("hide_thinking_block"@),
        "api_key"@.len() == 7,
        "model"@.len() == 5 && "model"@[0] == 'm',
        "theme"@.len() == 5 && "theme"@[0] == 't',
        "base_url"@.len() == 8,
        "openai_api"@.len() == 10,
        "active_model"@.len() == 12,
        "providers"@.len() == 9 && "providers"@[0] == 'p',
        "max_turns"@.len() == 9 && "max_turns"@[0] == 'm',
        "tool_timeout_seconds"@.len() == 20,
        "agent_timeout_seconds"@.len() == 21 && "agent_timeout_seconds"@[0] == 'a',
        "max_tool_output_chars"@.len() == 21 && "max_tool_output_chars"@[0] == 'm',
        "max_context_tokens"@.len() == 18 && "max_context_tokens"@[0] == 'm',
        "compact_keep_turns"@.len() == 18 && "compact_keep_turns"@[0] == 'c',
        "max_context_chars"@.len() == 17,
        "default_thinking_level"@.len() == 22,
        "hide_thinking_block"@.len() == 19,
        "session_dir"@.len() == 11,
        "memory"@.len() == 6,
{
    let names = sections::file_names();
    assert(names[4] == "active_model"@);
    assert(names[5] == "providers"@);
    assert(names[13] == "default_thinking_level"@);
    assert(names[14] == "hide_thinking_block"@);
    reveal_strlit("api_key");
    reveal_strlit("model");
    reveal_strlit("theme");
    reveal_strlit("base_url");
    reveal_strlit("openai_api");
    reveal_strlit("active_model");
    reveal_strlit("providers");
    reveal_strlit("max_turns");
    reveal_strlit("tool_timeout_seconds");
    reveal_strlit("agent_timeout_seconds");
    reveal_strlit("max_tool_output_chars");
    reveal_strlit("max_context_tokens");
    reveal_strlit("compact_keep_turns");
    reveal_strlit("max_context_chars");
    reveal_strlit("default_thinking_level");
    reveal_strlit("hide_thinking_block");
    reveal_strlit("session_dir");
    reveal_strlit("memory");
}

/// Whether two files say the same of what is never written.
pub open spec fn same_rest(a: JsonView, b: JsonView) -> bool {
    &&& b.get("session_dir"@) == a.get("session_dir"@)
    &&& b.get("max_turns"@) == a.get("max_turns"@)
    &&& b.get("tool_timeout_seconds"@) == a.get("tool_timeout_seconds"@)
    &&& b.get("agent_timeout_seconds"@) == a.get("agent_timeout_seconds"@)
    &&& b.get("max_tool_output_chars"@) == a.get("max_tool_output_chars"@)
    &&& b.get("max_context_tokens"@) == a.get("max_context_tokens"@)
    &&& b.get("max_context_chars"@) == a.get("max_context_chars"@)
    &&& b.get("compact_keep_turns"@) == a.get("compact_keep_turns"@)
    &&& b.get("memory"@) == a.get("memory"@)
    &&& b.get("theme"@) == a.get("theme"@)
}

proof fn lemma_same_rest(a: JsonView, b: JsonView)
    requires
        same_rest(a, b),
    ensures
        b.maybe_text("session_dir"@) == a.maybe_text("session_dir"@),
        sections::numbers_of(b) == sections::numbers_of(a),
        sections::memory_or_empty(b) == sections::memory_or_empty(a),
        sections::theme_or_empty(b) == sections::theme_or_empty(a),
{
}

/// A file whose other settings are those of another file.
proof fn lemma_file_of_parts(a: JsonView, b: JsonView, goal: FileConfigView)
    requires
        sections::file_of(a) is Some,
        b is Object,
        sections::only_known(b->Object_0, sections::file_names()),
        same_rest(a, b),
        b.maybe_text("api_key"@) == Some(goal.api_key),
        b.maybe_text("model"@) == Some(goal.model),
        b.maybe_text("base_url"@) == Some(goal.base_url),
        sections::maybe_api(b, "openai_api"@) == Some(goal.openai_api),
        sections::maybe_active_model(b) == Some(goal.active_model),
        sections::providers_or_empty(b) == Some(goal.providers),
        sections::maybe_level(b, "default_thinking_level"@) == Some(goal.default_thinking_level),
        b.maybe_bool("hide_thinking_block"@) == Some(goal.hide_thinking_block),
        goal == (FileConfigView {
            api_key: goal.api_key,
            model: goal.model,
            base_url: goal.base_url,
            openai_api: goal.openai_api,
            active_model: goal.active_model,
            providers: goal.providers,
            default_thinking_level: goal.default_thinking_level,
            hide_thinking_block: goal.hide_thinking_block,
            ..sections::file_of(a)->Some_0
        }),
    ensures
        sections::file_of(b) == Some(goal),
{
    lemma_same_rest(a, b);
}

/// What a file says of what may be written.
proof fn lemma_parts_of_file(a: JsonView)
    requires
        sections::file_of(a) is Some,
    ensures
        a is Object,
        sections::only_known(a->Object_0, sections::file_names()),
        ({
            let said = sections::file_of(a)->Some_0;
            &&& a.maybe_text("api_key"@) == Some(said.api_key)
            &&& a.maybe_text("model"@) == Some(said.model)
            &&& a.maybe_text("base_url"@) == Some(said.base_url)
            &&& sections::maybe_api(a, "openai_api"@) == Some(said.openai_api)
            &&& sections::maybe_active_model(a) == Some(said.active_model)
            &&& sections::providers_or_empty(a) == Some(said.providers)
            &&& sections::maybe_level(a, "default_thinking_level"@) == Some(
                said.default_thinking_level,
            )
            &&& a.maybe_bool("hide_thinking_block"@) == Some(said.hide_thinking_block)
        }),
{
}

/// After the active model is written, the file names that model, and says the
/// rest as before.
pub proof fn law_active_model_is_read_back(
    fields: Seq<(Seq<char>, JsonView)>,
    target: ModelRefView,
    before: FileConfigView,
)
    requires
        textmap::sorted(fields),
        sections::file_of(JsonView::Object(fields)) == Some(before),
    ensures
        sections::file_of(JsonView::Object(with_active_model(fields, target))) == Some(
            FileConfigView { active_model: Some(target), ..before },
        ),
{
    let a = JsonView::Object(fields);
    let b = JsonView::Object(with_active_model(fields, target));
    lemma_parts_of_file(a);
    lemma_file_names();
    lemma_ref_back(target);
    lemma_set(
        fields,
        "active_model"@,
        JsonView::Object(ref_fields(target)),
        sections::file_names(),
    );
    assert(b.get("session_dir"@) == a.get("session_dir"@));
    assert(b.get("max_turns"@) == a.get("max_turns"@));
    assert(b.get("tool_timeout_seconds"@) == a.get("tool_timeout_seconds"@));
    assert(b.get("agent_timeout_seconds"@) == a.get("agent_timeout_seconds"@));
    assert(b.get("max_tool_output_chars"@) == a.get("max_tool_output_chars"@));
    assert(b.get("max_context_tokens"@) == a.get("max_context_tokens"@));
    assert(b.get("max_context_chars"@) == a.get("max_context_chars"@));
    assert(b.get("compact_keep_turns"@) == a.get("compact_keep_turns"@));
    assert(b.get("memory"@) == a.get("memory"@));
    assert(b.get("theme"@) == a.get("theme"@));
    assert(b.get("api_key"@) == a.get("api_key"@));
    assert(b.get("model"@) == a.get("model"@));
    assert(b.get("base_url"@) == a.get("base_url"@));
    assert(b.get("openai_api"@) == a.get("openai_api"@));
    assert(b.get("providers"@) == a.get("providers"@));
    assert(b.get("default_thinking_level"@) == a.get("default_thinking_level"@));
    assert(b.get("hide_thinking_block"@) == a.get("hide_thinking_block"@));
    lemma_file_of_parts(a, b, FileConfigView { active_model: Some(target), ..before });
}

/// After a level of thinking is written, the file says that level, and the
/// rest as before.
pub proof fn law_level_is_read_back(
    fields: Seq<(Seq<char>, JsonView)>,
    level: ThinkingLevel,
    before: FileConfigView,
)
    requires
        textmap::sorted(fields),
        sections::file_of(JsonView::Object(fields)) == Some(before),
    ensures
        sections::file_of(JsonView::Object(with_level(fields, level))) == Some(
            FileConfigView { default_thinking_level: Some(level), ..before },
        ),
{
    let a = JsonView::Object(fields);
    let b = JsonView::Object(with_level(fields, level));
    lemma_parts_of_file(a);
    lemma_file_names();
    lemma_level_key(level);
    lemma_set(
        fields,
        "default_thinking_level"@,
        JsonView::Text(thinking::level_name(level)),
        sections::file_names(),
    );
    assert(b.get("session_dir"@) == a.get("session_dir"@));
    assert(b.get("max_turns"@) == a.get("max_turns"@));
    assert(b.get("tool_timeout_seconds"@) == a.get("tool_timeout_seconds"@));
    assert(b.get("agent_timeout_seconds"@) == a.get("agent_timeout_seconds"@));
    assert(b.get("max_tool_output_chars"@) == a.get("max_tool_output_chars"@));
    assert(b.get("max_context_tokens"@) == a.get("max_context_tokens"@));
    assert(b.get("max_context_chars"@) == a.get("max_context_chars"@));
    assert(b.get("compact_keep_turns"@) == a.get("compact_keep_turns"@));
    assert(b.get("memory"@) == a.get("memory"@));
    assert(b.get("theme"@) == a.get("theme"@));
    assert(b.get("api_key"@) == a.get("api_key"@));
    assert(b.get("model"@) == a.get("model"@));
    assert(b.get("base_url"@) == a.get("base_url"@));
    assert(b.get("openai_api"@) == a.get("openai_api"@));
    assert(b.get("active_model"@) == a.get("active_model"@));
    assert(b.get("providers"@) == a.get("providers"@));
    assert(b.get("hide_thinking_block"@) == a.get("hide_thinking_block"@));
    lemma_file_of_parts(a, b, FileConfigView { default_thinking_level: Some(level), ..before });
}

/// After it is written whether thinking is shown, the file says so, and the
/// rest as before.
pub proof fn law_visibility_is_read_back(
    fields: Seq<(Seq<char>, JsonView)>,
    shown: bool,
    before: FileConfigView,
)
    requires
        textmap::sorted(fields),
        sections::file_of(JsonView::Object(fields)) == Some(before),
    ensures
        sections::file_of(JsonView::Object(with_visibility(fields, shown))) == Some(
            FileConfigView { hide_thinking_block: Some(!shown), ..before },
        ),
{
    let a = JsonView::Object(fields);
    let b = JsonView::Object(with_visibility(fields, shown));
    lemma_parts_of_file(a);
    lemma_file_names();
    lemma_set(fields, "hide_thinking_block"@, JsonView::Bool(!shown), sections::file_names());
    assert(b.get("session_dir"@) == a.get("session_dir"@));
    assert(b.get("max_turns"@) == a.get("max_turns"@));
    assert(b.get("tool_timeout_seconds"@) == a.get("tool_timeout_seconds"@));
    assert(b.get("agent_timeout_seconds"@) == a.get("agent_timeout_seconds"@));
    assert(b.get("max_tool_output_chars"@) == a.get("max_tool_output_chars"@));
    assert(b.get("max_context_tokens"@) == a.get("max_context_tokens"@));
    assert(b.get("max_context_chars"@) == a.get("max_context_chars"@));
    assert(b.get("compact_keep_turns"@) == a.get("compact_keep_turns"@));
    assert(b.get("memory"@) == a.get("memory"@));
    assert(b.get("theme"@) == a.get("theme"@));
    assert(b.get("api_key"@) == a.get("api_key"@));
    assert(b.get("model"@) == a.get("model"@));
    assert(b.get("base_url"@) == a.get("base_url"@));
    assert(b.get("openai_api"@) == a.get("openai_api"@));
    assert(b.get("active_model"@) == a.get("active_model"@));
    assert(b.get("providers"@) == a.get("providers"@));
    assert(b.get("default_thinking_level"@) == a.get("default_thinking_level"@));
    lemma_file_of_parts(a, b, FileConfigView { hide_thinking_block: Some(!shown), ..before });
}

/// What a table holds after a catalog was written to it.
proof fn lemma_catalog_fields(
    fields: Seq<(Seq<char>, JsonView)>,
    providers: Seq<ProviderConfigView>,
    active_model: Option<ModelRefView>,
)
    requires
        textmap::sorted(fields),
        sections::only_known(fields, sections::file_names()),
    ensures
        sections::only_known(
            with_catalog(fields, providers, active_model),
            sections::file_names(),
        ),
        forall|k: Seq<char>| #[trigger]
            json::field(with_catalog(fields, providers, active_model), k) == if k == "api_key"@
                || k == "base_url"@ || k == "model"@ || k == "openai_api"@ {
                None::<JsonView>
            } else if k == "active_model"@ {
                match active_model {
                    Some(target) => Some(json::canonical(JsonView::Object(ref_fields(target)))),
                    None => None,
                }
            } else if k == "providers"@ {
                Some(json::canonical(JsonView::Array(provider_items(providers))))
            } else {
                json::field(fields, k)
            },
{
    let names = sections::file_names();
    let items = JsonView::Array(provider_items(providers));
    assert(names[4] == "active_model"@);
    assert(names[5] == "providers"@);
    lemma_set(fields, "providers"@, items, names);
    let listed = set(fields, "providers"@, items);
    match active_model {
        Some(target) => {
            lemma_set(listed, "active_model"@, JsonView::Object(ref_fields(target)), names);
        },
        None => {
            lemma_unset(listed, "active_model"@, names);
        },
    }
    let pointed = match active_model {
        Some(target) => with_active_model(listed, target),
        None => textmap::removed(listed, "active_model"@),
    };
    lemma_unset(pointed, "api_key"@, names);
    let one = textmap::removed(pointed, "api_key"@);
    lemma_unset(one, "base_url"@, names);
    let two = textmap::removed(one, "base_url"@);
    lemma_unset(two, "model"@, names);
    let three = textmap::removed(two, "model"@);
    lemma_unset(three, "openai_api"@, names);
}

/// After a catalog is written, the file holds its providers and names its
/// active model, has none of the older settings, and says the rest as before.
pub proof fn law_catalog_is_read_back(
    fields: Seq<(Seq<char>, JsonView)>,
    providers: Seq<ProviderConfigView>,
    active_model: Option<ModelRefView>,
    before: FileConfigView,
)
    requires
        textmap::sorted(fields),
        all_windows_fit(providers),
        sections::file_of(JsonView::Object(fields)) == Some(before),
    ensures
        sections::file_of(JsonView::Object(with_catalog(fields, providers, active_model)))
            == Some(
            FileConfigView {
                providers,
                active_model,
                api_key: None,
                base_url: None,
                model: None,
                openai_api: None,
                ..before
            },
        ),
{
    let a = JsonView::Object(fields);
    let b = JsonView::Object(with_catalog(fields, providers, active_model));
    lemma_parts_of_file(a);
    lemma_file_names();
    lemma_providers_back(providers);
    match active_model {
        Some(target) => {
            lemma_ref_back(target);
        },
        None => {},
    }
    lemma_catalog_fields(fields, providers, active_model);
    assert(b.get("session_dir"@) == a.get("session_dir"@));
    assert(b.get("max_turns"@) == a.get("max_turns"@));
    assert(b.get("tool_timeout_seconds"@) == a.get("tool_timeout_seconds"@));
    assert(b.get("agent_timeout_seconds"@) == a.get("agent_timeout_seconds"@));
    assert(b.get("max_tool_output_chars"@) == a.get("max_tool_output_chars"@));
    assert(b.get("max_context_tokens"@) == a.get("max_context_tokens"@));
    assert(b.get("max_context_chars"@) == a.get("max_context_chars"@));
    assert(b.get("compact_keep_turns"@) == a.get("compact_keep_turns"@));
    assert(b.get("memory"@) == a.get("memory"@));
    assert(b.get("theme"@) == a.get("theme"@));
    assert(b.get("default_thinking_level"@) == a.get("default_thinking_level"@));
    assert(b.get("hide_thinking_block"@) == a.get("hide_thinking_block"@));
    assert(b.get("providers"@) == Some(
        json::canonical(JsonView::Array(provider_items(providers))),
    ));
    assert(b.get("active_model"@) == match active_model {
        Some(target) => Some(json::canonical(JsonView::Object(ref_fields(target)))),
        None => None,
    });
    assert(sections::providers_or_empty(b) == Some(providers));
    assert(sections::maybe_active_model(b) == Some(active_model));
    lemma_file_of_parts(
        a,
        b,
        FileConfigView {
            providers,
            active_model,
            api_key: None,
            base_url: None,
            model: None,
            openai_api: None,
            ..before
        },
    );
}

} // verus!
