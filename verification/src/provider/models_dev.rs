//! The catalog of known models: what it says of each, how a model is found that
//! is not listed under its provider, and how several listings are merged.
use crate::json;
use crate::json::Json;
use crate::json::JsonView;
use crate::provider::thinking;
use crate::provider::thinking::CapabilitiesView;
use crate::provider::thinking::EffortMap;
use crate::provider::thinking::ThinkingCapabilities;
use crate::provider::thinking::ThinkingLevel;
use crate::text;
use crate::textmap;
use crate::textmap::TextMap;
use crate::textmap::TextOrder;
use vstd::prelude::*;
use vstd::string::*;

verus! {

/// How many tokens a model takes, and how many it may write.
#[derive(Debug, Clone, Copy, PartialEq, Eq, Structural)]
pub struct ModelLimit {
    pub context: u64,
    pub output: Option<u64>,
}

/// Where a catalog came from.
#[derive(Debug, Clone, Copy, PartialEq, Eq, Structural)]
pub enum ModelsDevLoad {
    Refreshed,
    Cached,
    Unavailable,
}

/// A provider of the catalog, and the address of its interface.
#[derive(Debug, PartialEq, Eq)]
pub struct ModelsDevProviderAlias {
    pub id: String,
    pub api: Option<String>,
}

/// What a [`ModelsDevProviderAlias`] holds.
#[verifier::ext_equal]
pub struct AliasView {
    pub id: Seq<char>,
    pub api: Option<Seq<char>>,
}

impl View for ModelsDevProviderAlias {
    type V = AliasView;

    open spec fn view(&self) -> AliasView {
        AliasView { id: self.id@, api: text::opt(self.api) }
    }
}

// ---------------------------------------------------------------------------
// The published form
// ---------------------------------------------------------------------------

/// One way in which a model can be asked to think.
pub enum ReasoningOption {
    Effort { values: Vec<String> },
    Toggle,
    BudgetTokens,
}

/// What a [`ReasoningOption`] holds.
pub enum ReasoningView {
    Effort(Seq<Seq<char>>),
    Toggle,
    BudgetTokens,
}

impl View for ReasoningOption {
    type V = ReasoningView;

    open spec fn view(&self) -> ReasoningView {
        match *self {
            ReasoningOption::Effort { values } => ReasoningView::Effort(text::views(values@)),
            ReasoningOption::Toggle => ReasoningView::Toggle,
            ReasoningOption::BudgetTokens => ReasoningView::BudgetTokens,
        }
    }
}

/// A model as it is published.
pub struct ApiModel {
    pub id: String,
    pub reasoning: Option<bool>,
    pub reasoning_options: Vec<ReasoningOption>,
    pub interleaved: bool,
    pub limit: Option<ModelLimit>,
}

/// What an [`ApiModel`] holds.
#[verifier::ext_equal]
pub struct ApiModelView {
    pub id: Seq<char>,
    pub reasoning: Option<bool>,
    pub reasoning_options: Seq<ReasoningView>,
    pub interleaved: bool,
    pub limit: Option<ModelLimit>,
}

impl View for ApiModel {
    type V = ApiModelView;

    open spec fn view(&self) -> ApiModelView {
        ApiModelView {
            id: self.id@,
            reasoning: self.reasoning,
            reasoning_options: text::views(self.reasoning_options@),
            interleaved: self.interleaved,
            limit: self.limit,
        }
    }
}

/// A provider as it is published.
pub struct ApiProvider {
    pub id: Option<String>,
    pub api: Option<String>,
    pub models: Vec<(String, ApiModel)>,
}

/// What an [`ApiProvider`] holds.
#[verifier::ext_equal]
pub struct ApiProviderView {
    pub id: Option<Seq<char>>,
    pub api: Option<Seq<char>>,
    pub models: Seq<(Seq<char>, ApiModelView)>,
}

impl View for ApiProvider {
    type V = ApiProviderView;

    open spec fn view(&self) -> ApiProviderView {
        ApiProviderView {
            id: text::opt(self.id),
            api: text::opt(self.api),
            models: text::views(self.models@),
        }
    }
}

/// The texts of a list that may hold nulls, which are passed over; nothing else
/// may stand in it.
pub open spec fn texts_of(items: Seq<JsonView>) -> Option<Seq<Seq<char>>>
    decreases items.len(),
{
    if items.len() == 0 {
        Some(Seq::empty())
    } else {
        match texts_of(items.drop_last()) {
            None => None,
            Some(texts) => match items.last() {
                JsonView::Null => Some(texts),
                JsonView::Text(s) => Some(texts.push(s)),
                _ => None,
            },
        }
    }
}

/// The list under `key`, which is empty where there is none and else must be a
/// list.
pub open spec fn list_of(value: JsonView, key: Seq<char>) -> Option<Seq<JsonView>> {
    match value.get(key) {
        None => Some(Seq::empty()),
        Some(JsonView::Array(items)) => Some(items),
        Some(_) => None,
    }
}

pub open spec fn reasoning_option_of(value: JsonView) -> Option<ReasoningView> {
    match value.text_tag("type"@) {
        None => None,
        Some(kind) => if kind == "effort"@ {
            let value = value.seated(seq!["type", "values"], 1);
            match (value is Object, list_of(value, "values"@)) {
                (true, Some(items)) => match texts_of(items) {
                    None => None,
                    Some(texts) => Some(ReasoningView::Effort(texts)),
                },
                _ => None,
            }
        } else if kind == "toggle"@ {
            if value.seated(seq!["type"], 1) is Object {
                Some(ReasoningView::Toggle)
            } else {
                None
            }
        } else if kind == "budget_tokens"@ {
            let value = value.seated(seq!["type", "min", "max"], 3);
            if value is Object && value.signed_or_null("min"@) && value.signed_or_null("max"@) {
                Some(ReasoningView::BudgetTokens)
            } else {
                None
            }
        } else {
            None
        },
    }
}

pub open spec fn reasoning_options_of(items: Seq<JsonView>) -> Option<Seq<ReasoningView>>
    decreases items.len(),
{
    if items.len() == 0 {
        Some(Seq::empty())
    } else {
        match reasoning_options_of(items.drop_last()) {
            None => None,
            Some(options) => match reasoning_option_of(items.last()) {
                None => None,
                Some(option) => Some(options.push(option)),
            },
        }
    }
}

/// The limits of a model: none where they are absent or do not say what it
/// takes.
pub open spec fn limit_of(value: JsonView) -> Option<Option<ModelLimit>> {
    match value.get("limit"@) {
        None => Some(None),
        Some(JsonView::Null) => Some(None),
        Some(limit) => {
            let limit = limit.seated(seq!["context", "output"], 1);
            match (
                limit is Object,
                limit.maybe_number("context"@, u64::MAX),
                limit.maybe_number("output"@, u64::MAX),
            ) {
                (true, Some(Some(context)), Some(output)) => Some(
                    Some(ModelLimit { context, output }),
                ),
                (true, Some(None), Some(_)) => Some(None),
                _ => None,
            }
        },
    }
}

/// The fields of a model.
pub open spec fn model_names() -> Seq<&'static str> {
    seq!["id", "reasoning", "reasoning_options", "interleaved", "limit"]
}

pub open spec fn model_of(value: JsonView) -> Option<ApiModelView> {
    let value = value.seated(model_names(), 4);
    if !(value is Object) {
        None
    } else {
        match (
            match value.get("id"@) {
                None => Some(Seq::<char>::empty()),
                Some(id) => id.text(),
            },
            value.maybe_bool("reasoning"@),
            match list_of(value, "reasoning_options"@) {
                None => None,
                Some(items) => reasoning_options_of(items),
            },
            limit_of(value),
        ) {
            (Some(id), Some(reasoning), Some(reasoning_options), Some(limit)) => Some(
                ApiModelView {
                    id,
                    reasoning,
                    reasoning_options,
                    interleaved: value.present("interleaved"@),
                    limit,
                },
            ),
            _ => None,
        }
    }
}

pub open spec fn models_of(fields: Seq<(Seq<char>, JsonView)>) -> Option<
    Seq<(Seq<char>, ApiModelView)>,
>
    decreases fields.len(),
{
    if fields.len() == 0 {
        Some(Seq::empty())
    } else {
        match models_of(fields.drop_last()) {
            None => None,
            Some(models) => match model_of(fields.last().1) {
                None => None,
                Some(model) => Some(models.push((fields.last().0, model))),
            },
        }
    }
}

pub open spec fn provider_of(value: JsonView) -> Option<ApiProviderView> {
    let value = value.seated(seq!["id", "api", "models"], 2);
    if !(value is Object) {
        None
    } else {
        match (
            value.maybe_text("id"@),
            value.maybe_text("api"@),
            match value.get("models"@) {
                None => Some(Seq::<(Seq<char>, ApiModelView)>::empty()),
                Some(JsonView::Object(fields)) => models_of(fields),
                Some(_) => None,
            },
        ) {
            (Some(id), Some(api), Some(models)) => Some(ApiProviderView { id, api, models }),
            _ => None,
        }
    }
}

pub open spec fn providers_of(fields: Seq<(Seq<char>, JsonView)>) -> Option<
    Seq<(Seq<char>, ApiProviderView)>,
>
    decreases fields.len(),
{
    if fields.len() == 0 {
        Some(Seq::empty())
    } else {
        match providers_of(fields.drop_last()) {
            None => None,
            Some(providers) => match provider_of(fields.last().1) {
                None => None,
                Some(provider) => Some(providers.push((fields.last().0, provider))),
            },
        }
    }
}

/// The providers that a published catalog lists, by name.
pub open spec fn api_of(value: JsonView) -> Option<Seq<(Seq<char>, ApiProviderView)>> {
    match value {
        JsonView::Object(fields) => providers_of(fields),
        _ => None,
    }
}

fn texts_from(items: &Vec<Json>) -> (r: Option<Vec<String>>)
    ensures
        match r {
            Some(texts) => texts_of(json::items_view(items@)) == Some(text::views(texts@)),
            None => texts_of(json::items_view(items@)) is None,
        },
{
    let ghost model = json::items_view(items@);
    proof {
        json::lemma_items_view(items@);
    }
    let mut texts: Vec<String> = Vec::new();
    let mut sound = true;
    let mut i: usize = 0;
    assert(text::views(texts@) =~= Seq::<Seq<char>>::empty());
    while i < items.len()
        invariant
            i <= items@.len(),
            model.len() == items@.len(),
            forall|j: int| 0 <= j < items@.len() ==> #[trigger] model[j] == items@[j]@,
            sound ==> texts_of(model.take(i as int)) == Some(text::views(texts@)),
            !sound ==> texts_of(model.take(i as int)) is None,
        decreases items@.len() - i,
    {
        assert(model.take(i as int + 1).drop_last() =~= model.take(i as int));
        assert(model.take(i as int + 1).last() == items@[i as int]@);
        match &items[i] {
            Json::Null => {},
            Json::Text(s) => {
                let s = s.clone();
                proof {
                    text::lemma_views_push(texts@, s);
                }
                texts.push(s);
            },
            _ => {
                sound = false;
            },
        }
        i = i + 1;
    }
    assert(model.take(model.len() as int) =~= model);
    if sound {
        Some(texts)
    } else {
        None
    }
}

fn reasoning_option_from(value: &Json) -> (r: Option<ReasoningOption>)
    ensures
        text::opt(r) == reasoning_option_of(value@),
{
    let kind = match value.text_tag("type") {
        None => {
            return None;
        },
        Some(kind) => kind,
    };
    if text::same(kind, "effort") {
        let names: Vec<&'static str> = vec!["type", "values"];
        assert(names@ =~= seq!["type", "values"]);
        let seat = value.seat(&names, 1);
        let value = match &seat {
            Some(seat) => seat,
            None => value,
        };
        match value {
            Json::Object(_) => {},
            _ => {
                return None;
            },
        }
        match value.get("values") {
            None => {
                let values: Vec<String> = Vec::new();
                assert(text::views(values@) =~= Seq::<Seq<char>>::empty());
                Some(ReasoningOption::Effort { values })
            },
            Some(Json::Array(items)) => match texts_from(items) {
                None => None,
                Some(values) => Some(ReasoningOption::Effort { values }),
            },
            Some(_) => None,
        }
    } else if text::same(kind, "toggle") {
        let names: Vec<&'static str> = vec!["type"];
        assert(names@ =~= seq!["type"]);
        let seat = value.seat(&names, 1);
        let value = match &seat {
            Some(seat) => seat,
            None => value,
        };
        match value {
            Json::Object(_) => Some(ReasoningOption::Toggle),
            _ => None,
        }
    } else if text::same(kind, "budget_tokens") {
        let names: Vec<&'static str> = vec!["type", "min", "max"];
        assert(names@ =~= seq!["type", "min", "max"]);
        let seat = value.seat(&names, 3);
        let value = match &seat {
            Some(seat) => seat,
            None => value,
        };
        match value {
            Json::Object(_) => {},
            _ => {
                return None;
            },
        }
        if value.signed_or_null("min") && value.signed_or_null("max") {
            Some(ReasoningOption::BudgetTokens)
        } else {
            None
        }
    } else {
        None
    }
}

fn reasoning_options_from(items: &Vec<Json>) -> (r: Option<Vec<ReasoningOption>>)
    ensures
        match r {
            Some(options) => reasoning_options_of(json::items_view(items@)) == Some(
                text::views(options@),
            ),
            None => reasoning_options_of(json::items_view(items@)) is None,
        },
{
    let ghost model = json::items_view(items@);
    proof {
        json::lemma_items_view(items@);
    }
    let mut options: Vec<ReasoningOption> = Vec::new();
    let mut sound = true;
    let mut i: usize = 0;
    assert(text::views(options@) =~= Seq::<ReasoningView>::empty());
    while i < items.len()
        invariant
            i <= items@.len(),
            model.len() == items@.len(),
            forall|j: int| 0 <= j < items@.len() ==> #[trigger] model[j] == items@[j]@,
            sound ==> reasoning_options_of(model.take(i as int)) == Some(text::views(options@)),
            !sound ==> reasoning_options_of(model.take(i as int)) is None,
        decreases items@.len() - i,
    {
        assert(model.take(i as int + 1).drop_last() =~= model.take(i as int));
        assert(model.take(i as int + 1).last() == items@[i as int]@);
        match reasoning_option_from(&items[i]) {
            None => {
                sound = false;
            },
            Some(option) => {
                proof {
                    text::lemma_views_push(options@, option);
                }
                options.push(option);
            },
        }
        i = i + 1;
    }
    assert(model.take(model.len() as int) =~= model);
    if sound {
        Some(options)
    } else {
        None
    }
}

fn limit_from(value: &Json) -> (r: Option<Option<ModelLimit>>)
    ensures
        r == limit_of(value@),
{
    match value.get("limit") {
        None => Some(None),
        Some(Json::Null) => Some(None),
        Some(limit) => {
            let names: Vec<&'static str> = vec!["context", "output"];
            assert(names@ =~= seq!["context", "output"]);
            let seat = limit.seat(&names, 1);
            let limit = match &seat {
                Some(seat) => seat,
                None => limit,
            };
            match limit {
                Json::Object(_) => {},
                _ => {
                    return None;
                },
            }
            match (
                limit.maybe_number("context", u64::MAX),
                limit.maybe_number("output", u64::MAX),
            ) {
                (Some(Some(context)), Some(output)) => Some(Some(ModelLimit { context, output })),
                (Some(None), Some(_)) => Some(None),
                _ => None,
            }
        },
    }
}

fn model_from(value: &Json) -> (r: Option<ApiModel>)
    ensures
        text::opt(r) == model_of(value@),
{
    let names: Vec<&'static str> = vec!["id", "reasoning", "reasoning_options", "interleaved", "limit"];
    assert(names@ =~= model_names());
    let seat = value.seat(&names, 4);
    let value = match &seat {
        Some(seat) => seat,
        None => value,
    };
    match value {
        Json::Object(_) => {},
        _ => {
            return None;
        },
    }
    let id = match value.get("id") {
        None => {
            let id = "".to_owned();
            proof {
                reveal_strlit("");
            }
            assert(id@ =~= Seq::<char>::empty());
            id
        },
        Some(Json::Text(id)) => id.clone(),
        Some(_) => {
            return None;
        },
    };
    let reasoning = match value.maybe_bool("reasoning") {
        None => {
            return None;
        },
        Some(reasoning) => reasoning,
    };
    let reasoning_options = match value.get("reasoning_options") {
        None => {
            let options: Vec<ReasoningOption> = Vec::new();
            assert(text::views(options@) =~= Seq::<ReasoningView>::empty());
            options
        },
        Some(Json::Array(items)) => match reasoning_options_from(items) {
            None => {
                return None;
            },
            Some(options) => options,
        },
        Some(_) => {
            return None;
        },
    };
    let limit = match limit_from(value) {
        None => {
            return None;
        },
        Some(limit) => limit,
    };
    Some(
        ApiModel {
            id,
            reasoning,
            reasoning_options,
            interleaved: value.present("interleaved"),
            limit,
        },
    )
}

fn models_from(fields: &Vec<(String, Json)>) -> (r: Option<Vec<(String, ApiModel)>>)
    ensures
        match r {
            Some(models) => models_of(json::fields_view(fields@)) == Some(text::views(models@)),
            None => models_of(json::fields_view(fields@)) is None,
        },
{
    let ghost model = json::fields_view(fields@);
    proof {
        json::lemma_fields_view(fields@);
    }
    let mut models: Vec<(String, ApiModel)> = Vec::new();
    let mut sound = true;
    let mut i: usize = 0;
    assert(text::views(models@) =~= Seq::<(Seq<char>, ApiModelView)>::empty());
    while i < fields.len()
        invariant
            i <= fields@.len(),
            model.len() == fields@.len(),
            forall|j: int|
                0 <= j < fields@.len() ==> #[trigger] model[j] == (fields@[j].0@, fields@[j].1@),
            sound ==> models_of(model.take(i as int)) == Some(text::views(models@)),
            !sound ==> models_of(model.take(i as int)) is None,
        decreases fields@.len() - i,
    {
        assert(model.take(i as int + 1).drop_last() =~= model.take(i as int));
        assert(model.take(i as int + 1).last() == model[i as int]);
        match model_from(&fields[i].1) {
            None => {
                sound = false;
            },
            Some(found) => {
                let pair = (fields[i].0.clone(), found);
                proof {
                    text::lemma_views_push(models@, pair);
                }
                models.push(pair);
            },
        }
        i = i + 1;
    }
    assert(model.take(model.len() as int) =~= model);
    if sound {
        Some(models)
    } else {
        None
    }
}

fn provider_from(value: &Json) -> (r: Option<ApiProvider>)
    ensures
        text::opt(r) == provider_of(value@),
{
    let names: Vec<&'static str> = vec!["id", "api", "models"];
    assert(names@ =~= seq!["id", "api", "models"]);
    let seat = value.seat(&names, 2);
    let value = match &seat {
        Some(seat) => seat,
        None => value,
    };
    match value {
        Json::Object(_) => {},
        _ => {
            return None;
        },
    }
    let id = match value.maybe_text("id") {
        None => {
            return None;
        },
        Some(id) => id,
    };
    let api = match value.maybe_text("api") {
        None => {
            return None;
        },
        Some(api) => api,
    };
    let models = match value.get("models") {
        None => {
            let models: Vec<(String, ApiModel)> = Vec::new();
            assert(text::views(models@) =~= Seq::<(Seq<char>, ApiModelView)>::empty());
            models
        },
        Some(Json::Object(fields)) => match models_from(fields) {
            None => {
                return None;
            },
            Some(models) => models,
        },
        Some(_) => {
            return None;
        },
    };
    Some(ApiProvider { id, api, models })
}

fn providers_from(fields: &Vec<(String, Json)>) -> (r: Option<Vec<(String, ApiProvider)>>)
    ensures
        match r {
            Some(providers) => providers_of(json::fields_view(fields@)) == Some(
                text::views(providers@),
            ),
            None => providers_of(json::fields_view(fields@)) is None,
        },
{
    let ghost model = json::fields_view(fields@);
    proof {
        json::lemma_fields_view(fields@);
    }
    let mut providers: Vec<(String, ApiProvider)> = Vec::new();
    let mut sound = true;
    let mut i: usize = 0;
    assert(text::views(providers@) =~= Seq::<(Seq<char>, ApiProviderView)>::empty());
    while i < fields.len()
        invariant
            i <= fields@.len(),
            model.len() == fields@.len(),
            forall|j: int|
                0 <= j < fields@.len() ==> #[trigger] model[j] == (fields@[j].0@, fields@[j].1@),
            sound ==> providers_of(model.take(i as int)) == Some(text::views(providers@)),
            !sound ==> providers_of(model.take(i as int)) is None,
        decreases fields@.len() - i,
    {
        assert(model.take(i as int + 1).drop_last() =~= model.take(i as int));
        assert(model.take(i as int + 1).last() == model[i as int]);
        match provider_from(&fields[i].1) {
            None => {
                sound = false;
            },
            Some(found) => {
                let pair = (fields[i].0.clone(), found);
                proof {
                    text::lemma_views_push(providers@, pair);
                }
                providers.push(pair);
            },
        }
        i = i + 1;
    }
    assert(model.take(model.len() as int) =~= model);
    if sound {
        Some(providers)
    } else {
        None
    }
}

/// The providers that the bytes of a published catalog list.
pub open spec fn api_in(content: Seq<u8>) -> Option<Seq<(Seq<char>, ApiProviderView)>> {
    match json::parsed_json(content) {
        Ok(value) => api_of(value),
        Err(_) => None,
    }
}

fn api_from(content: &[u8]) -> (r: Option<Vec<(String, ApiProvider)>>)
    ensures
        match r {
            Some(providers) => api_in(content@) == Some(text::views(providers@)),
            None => api_in(content@) is None,
        },
{
    match json::parse_json(content) {
        Ok(Json::Object(fields)) => providers_from(&fields),
        _ => None,
    }
}

// ---------------------------------------------------------------------------
// What a model offers
// ---------------------------------------------------------------------------

/// The level that a published value of effort stands for.
pub open spec fn effort_level(value: Seq<char>) -> Option<ThinkingLevel> {
    if text::ascii_lowercase(text::trim(value)) == "none"@ {
        Some(ThinkingLevel::Off)
    } else {
        thinking::level_of(value)
    }
}

/// Off, and the levels that the values stand for.
pub open spec fn effort_levels(values: Seq<Seq<char>>) -> Seq<ThinkingLevel>
    decreases values.len(),
{
    if values.len() == 0 {
        seq![ThinkingLevel::Off]
    } else {
        match effort_level(values.last()) {
            Some(level) => effort_levels(values.drop_last()).push(level),
            None => effort_levels(values.drop_last()),
        }
    }
}

/// The value for each level but Off; the last one where there are several.
pub open spec fn effort_words(values: Seq<Seq<char>>) -> Map<ThinkingLevel, Seq<char>>
    decreases values.len(),
{
    if values.len() == 0 {
        Map::empty()
    } else {
        match effort_level(values.last()) {
            Some(level) if level != ThinkingLevel::Off => effort_words(values.drop_last()).insert(
                level,
                values.last(),
            ),
            _ => effort_words(values.drop_last()),
        }
    }
}

/// The values of the first option that is one of effort.
pub open spec fn first_effort(options: Seq<ReasoningView>) -> Option<Seq<Seq<char>>>
    decreases options.len(),
{
    if options.len() == 0 {
        None
    } else {
        match options[0] {
            ReasoningView::Effort(values) => Some(values),
            _ => first_effort(options.skip(1)),
        }
    }
}

pub open spec fn all_off(levels: Seq<ThinkingLevel>) -> bool {
    forall|i: int| 0 <= i < levels.len() ==> levels[i] == ThinkingLevel::Off
}

/// What a published model offers.
pub open spec fn capabilities_of(model: ApiModelView) -> CapabilitiesView {
    if model.reasoning != Some(true) {
        thinking::disabled_capabilities(model.interleaved)
    } else if model.reasoning_options.len() == 0 {
        CapabilitiesView {
            supports_interleaved_thinking: model.interleaved,
            ..thinking::default_capabilities()
        }
    } else {
        match first_effort(model.reasoning_options) {
            None => thinking::disabled_capabilities(model.interleaved),
            Some(values) => if all_off(effort_levels(values)) {
                thinking::disabled_capabilities(model.interleaved)
            } else {
                thinking::discovered(
                    effort_levels(values),
                    effort_words(values),
                    model.interleaved,
                )
            },
        }
    }
}

/// What is known of a model.
#[derive(Debug, PartialEq, Eq)]
pub struct ModelInfo {
    pub capabilities: ThinkingCapabilities,
    pub limit: Option<ModelLimit>,
}

/// What a [`ModelInfo`] holds.
#[verifier::ext_equal]
pub struct InfoView {
    pub capabilities: CapabilitiesView,
    pub limit: Option<ModelLimit>,
}

impl View for ModelInfo {
    type V = InfoView;

    open spec fn view(&self) -> InfoView {
        InfoView { capabilities: self.capabilities@, limit: self.limit }
    }
}

impl ModelInfo {
    /// A copy of this.
    pub fn copy(&self) -> (r: ModelInfo)
        ensures
            r@ == self@,
    {
        ModelInfo { capabilities: self.capabilities.copy(), limit: self.limit }
    }
}

pub open spec fn info_of(model: ApiModelView) -> InfoView {
    InfoView { capabilities: capabilities_of(model), limit: model.limit }
}

fn parse_effort_level(value: &str) -> (r: Option<ThinkingLevel>)
    ensures
        r == effort_level(value@),
{
    let trimmed = text::trim_of(value);
    let lowered = text::ascii_lowercase_of(trimmed.as_str());
    if text::same(lowered.as_str(), "none") {
        return Some(ThinkingLevel::Off);
    }
    match ThinkingLevel::parse(value) {
        Ok(level) => Some(level),
        Err(_) => None,
    }
}

proof fn lemma_first_effort_skip(options: Seq<ReasoningView>, i: int)
    requires
        0 <= i <= options.len(),
        forall|j: int| 0 <= j < i ==> !(#[trigger] options[j] is Effort),
    ensures
        first_effort(options) == first_effort(options.skip(i)),
    decreases i,
{
    if i == 0 {
        assert(options.skip(0) =~= options);
    } else {
        assert(!(options[0] is Effort));
        assert forall|j: int| 0 <= j < i - 1 implies !(#[trigger] options.skip(1)[j] is Effort) by {
            assert(options.skip(1)[j] == options[j + 1]);
        }
        lemma_first_effort_skip(options.skip(1), i - 1);
        assert(options.skip(1).skip(i - 1) =~= options.skip(i));
    }
}

fn effort_capabilities(values: &Vec<String>, interleaved: bool) -> (r: ThinkingCapabilities)
    ensures
        r@ == if all_off(effort_levels(text::views(values@))) {
            thinking::disabled_capabilities(interleaved)
        } else {
            thinking::discovered(
                effort_levels(text::views(values@)),
                effort_words(text::views(values@)),
                interleaved,
            )
        },
{
    let ghost model = text::views(values@);
    let mut supported: Vec<ThinkingLevel> = Vec::new();
    supported.push(ThinkingLevel::Off);
    let mut words = EffortMap::new();
    let mut off = true;
    let mut i: usize = 0;
    assert(supported@ =~= seq![ThinkingLevel::Off]);
    while i < values.len()
        invariant
            i <= values@.len(),
            model == text::views(values@),
            supported@ == effort_levels(model.take(i as int)),
            words@ == effort_words(model.take(i as int)),
            off == all_off(supported@),
        decreases values@.len() - i,
    {
        assert(model.take(i as int + 1).drop_last() =~= model.take(i as int));
        assert(model.take(i as int + 1).last() == values@[i as int]@);
        match parse_effort_level(values[i].as_str()) {
            None => {},
            Some(level) => {
                let ghost before = supported@;
                if level != ThinkingLevel::Off {
                    words.insert(level, values[i].clone());
                    off = false;
                    assert(before.push(level)[before.len() as int] == level);
                }
                supported.push(level);
                proof {
                    if level == ThinkingLevel::Off && !all_off(before) {
                        let j = choose|j: int|
                            0 <= j < before.len() && before[j] != ThinkingLevel::Off;
                        assert(supported@[j] == before[j]);
                    }
                }
            },
        }
        i = i + 1;
    }
    assert(model.take(model.len() as int) =~= model);
    if off {
        return ThinkingCapabilities::disabled(interleaved);
    }
    ThinkingCapabilities::from_discovered(supported, words, interleaved)
}

/// What a published model offers.
pub fn capabilities_from_model(model: &ApiModel) -> (r: ThinkingCapabilities)
    ensures
        r@ == capabilities_of(model@),
{
    let reasons = match model.reasoning {
        Some(reasons) => reasons,
        None => false,
    };
    if !reasons {
        return ThinkingCapabilities::disabled(model.interleaved);
    }
    if model.reasoning_options.len() == 0 {
        let mut capabilities = ThinkingCapabilities::default();
        capabilities.supports_interleaved_thinking = model.interleaved;
        return capabilities;
    }
    let ghost options = model@.reasoning_options;
    let mut i: usize = 0;
    while i < model.reasoning_options.len()
        invariant
            i <= model.reasoning_options@.len(),
            model.reasoning == Some(true),
            model.reasoning_options@.len() > 0,
            options == model@.reasoning_options,
            forall|j: int| 0 <= j < i ==> !(#[trigger] options[j] is Effort),
        decreases model.reasoning_options@.len() - i,
    {
        assert(options[i as int] == model.reasoning_options@[i as int]@);
        match &model.reasoning_options[i] {
            ReasoningOption::Effort { values } => {
                proof {
                    lemma_first_effort_skip(options, i as int);
                    assert(options.skip(i as int)[0] == options[i as int]);
                }
                return effort_capabilities(values, model.interleaved);
            },
            _ => {},
        }
        i = i + 1;
    }
    proof {
        lemma_first_effort_skip(options, i as int);
    }
    ThinkingCapabilities::disabled(model.interleaved)
}

fn model_info_from_model(model: &ApiModel) -> (r: ModelInfo)
    ensures
        r@ == info_of(model@),
{
    ModelInfo { capabilities: capabilities_from_model(model), limit: model.limit }
}

// ---------------------------------------------------------------------------
// Sets of names
// ---------------------------------------------------------------------------

/// `names`, in order, with `name` among them.
pub open spec fn with_name(names: Seq<Seq<char>>, name: Seq<char>) -> Seq<Seq<char>>
    decreases names.len(),
{
    if names.len() == 0 {
        seq![name]
    } else if names[0] == name {
        names
    } else if textmap::text_less(name, names[0]) {
        seq![name] + names
    } else {
        seq![names[0]] + with_name(names.skip(1), name)
    }
}

/// Names in order, each once.
#[derive(Debug, PartialEq, Eq)]
pub struct NameSet {
    names: Vec<String>,
}

impl View for NameSet {
    type V = Seq<Seq<char>>;

    closed spec fn view(&self) -> Seq<Seq<char>> {
        text::views(self.names@)
    }
}

/// Names in strict order.
pub open spec fn ordered_names(names: Seq<Seq<char>>) -> bool {
    forall|i: int, j: int|
        0 <= i < j < names.len() ==> textmap::text_less(#[trigger] names[i], #[trigger] names[j])
}

/// A name that is put among names in order is there, the others stay, and they
/// are still in order, each once.
pub proof fn law_names_stay_in_order(names: Seq<Seq<char>>, name: Seq<char>)
    requires
        ordered_names(names),
    ensures
        ordered_names(with_name(names, name)),
        forall|n: Seq<char>|
            #[trigger] with_name(names, name).contains(n) <==> n == name || names.contains(n),
    decreases names.len(),
{
    let next = with_name(names, name);
    if names.len() == 0 {
        assert(next[0] == name);
    } else if names[0] == name {
    } else if textmap::text_less(name, names[0]) {
        assert forall|i: int, j: int| 0 <= i < j < next.len() implies textmap::text_less(
            #[trigger] next[i],
            #[trigger] next[j],
        ) by {
            assert(next[j] == names[j - 1]);
            if i == 0 {
                if j > 1 {
                    assert(textmap::text_less(names[0], names[j - 1]));
                    textmap::lemma_text_less_transitive(name, names[0], names[j - 1]);
                }
            } else {
                assert(next[i] == names[i - 1]);
            }
        }
        assert forall|n: Seq<char>| #[trigger] next.contains(n) <==> n == name || names.contains(
            n,
        ) by {
            assert(next[0] == name);
            if names.contains(n) {
                assert(next[names.index_of(n) + 1] == n);
            }
            if next.contains(n) {
                let k = next.index_of(n);
                if k > 0 {
                    assert(names[k - 1] == n);
                }
            }
        }
    } else {
        let rest = names.skip(1);
        assert forall|i: int, j: int| 0 <= i < j < rest.len() implies textmap::text_less(
            #[trigger] rest[i],
            #[trigger] rest[j],
        ) by {
            assert(rest[i] == names[i + 1] && rest[j] == names[j + 1]);
        }
        law_names_stay_in_order(rest, name);
        let tail = with_name(rest, name);
        textmap::lemma_text_less_total(name, names[0]);
        assert forall|i: int, j: int| 0 <= i < j < next.len() implies textmap::text_less(
            #[trigger] next[i],
            #[trigger] next[j],
        ) by {
            assert(next[j] == tail[j - 1]);
            if i == 0 {
                assert(tail.contains(tail[j - 1]));
                if tail[j - 1] != name {
                    let k = rest.index_of(tail[j - 1]);
                    assert(names[k + 1] == rest[k]);
                    assert(textmap::text_less(names[0], names[k + 1]));
                }
            } else {
                assert(next[i] == tail[i - 1]);
            }
        }
        assert forall|n: Seq<char>| #[trigger] next.contains(n) <==> n == name || names.contains(
            n,
        ) by {
            assert(next[0] == names[0]);
            if next.contains(n) {
                let k = next.index_of(n);
                if k > 0 {
                    assert(tail[k - 1] == n);
                    assert(tail.contains(n));
                    if n != name {
                        assert(names[rest.index_of(n) + 1] == n);
                    }
                }
            }
            if n == name || names.contains(n) {
                if n != names[0] {
                    if n != name {
                        let k = names.index_of(n);
                        assert(rest[k - 1] == n);
                        assert(rest.contains(n));
                    }
                    assert(tail.contains(n));
                    assert(next[tail.index_of(n) + 1] == n);
                }
            }
        }
    }
}

proof fn lemma_with_name_skip(names: Seq<Seq<char>>, name: Seq<char>, i: int)
    requires
        0 <= i <= names.len(),
        forall|j: int|
            0 <= j < i ==> #[trigger] names[j] != name && !textmap::text_less(name, names[j]),
    ensures
        with_name(names, name) == names.take(i) + with_name(names.skip(i), name),
    decreases i,
{
    if i == 0 {
        assert(names.skip(0) =~= names);
        assert(names.take(0) + with_name(names, name) =~= with_name(names, name));
    } else {
        assert(names[0] != name && !textmap::text_less(name, names[0]));
        let rest = names.skip(1);
        assert forall|j: int| 0 <= j < i - 1 implies #[trigger] rest[j] != name
            && !textmap::text_less(name, rest[j]) by {
            assert(rest[j] == names[j + 1]);
        }
        lemma_with_name_skip(rest, name, i - 1);
        assert(rest.skip(i - 1) =~= names.skip(i));
        assert(seq![names[0]] + (rest.take(i - 1) + with_name(names.skip(i), name))
            =~= names.take(i) + with_name(names.skip(i), name));
    }
}

impl NameSet {
    pub fn new() -> (r: NameSet)
        ensures
            r@ == Seq::<Seq<char>>::empty(),
    {
        let r = NameSet { names: Vec::new() };
        assert(r@ =~= Seq::<Seq<char>>::empty());
        r
    }

    pub fn len(&self) -> (r: usize)
        ensures
            r == self@.len(),
    {
        self.names.len()
    }

    pub fn at(&self, i: usize) -> (r: &str)
        requires
            i < self@.len(),
        ensures
            r@ == self@[i as int],
    {
        self.names[i].as_str()
    }

    /// A copy of this set.
    pub fn copy(&self) -> (r: NameSet)
        ensures
            r@ == self@,
    {
        let mut names: Vec<String> = Vec::new();
        let mut i: usize = 0;
        while i < self.names.len()
            invariant
                i <= self.names@.len(),
                text::views(names@) == self@.take(i as int),
            decreases self.names@.len() - i,
        {
            let name = self.names[i].clone();
            proof {
                text::lemma_views_push(names@, name);
            }
            names.push(name);
            i = i + 1;
            assert(text::views(names@) =~= self@.take(i as int));
        }
        assert(self@.take(self@.len() as int) =~= self@);
        NameSet { names }
    }

    /// The names, in order.
    pub fn into_names(self) -> (r: Vec<String>)
        ensures
            text::views(r@) == self@,
    {
        self.names
    }

    pub fn insert(&mut self, name: &str)
        ensures
            final(self)@ == with_name(old(self)@, name@),
    {
        let ghost model = self@;
        let mut i: usize = 0;
        while i < self.names.len()
            invariant
                i <= self.names@.len(),
                model == text::views(self.names@),
                self@ == model,
                model == old(self)@,
                forall|j: int|
                    0 <= j < i ==> #[trigger] model[j] != name@ && !textmap::text_less(
                        name@,
                        model[j],
                    ),
            decreases self.names@.len() - i,
        {
            assert(model[i as int] == self.names@[i as int]@);
            match textmap::compare_texts(name, self.names[i].as_str()) {
                TextOrder::Same => {
                    proof {
                        lemma_with_name_skip(model, name@, i as int);
                        assert(model.skip(i as int)[0] == model[i as int]);
                        assert(model.take(i as int) + model.skip(i as int) =~= model);
                    }
                    return;
                },
                TextOrder::Before => {
                    proof {
                        lemma_with_name_skip(model, name@, i as int);
                        textmap::lemma_text_less_irreflexive(name@);
                        assert(model.skip(i as int)[0] == model[i as int]);
                    }
                    self.names.insert(i, name.to_owned());
                    assert(self@ =~= model.take(i as int) + (seq![name@] + model.skip(i as int)));
                    return;
                },
                TextOrder::After => {
                    proof {
                        textmap::lemma_text_less_irreflexive(name@);
                        if textmap::text_less(name@, model[i as int]) {
                            textmap::lemma_text_less_transitive(name@, model[i as int], name@);
                        }
                    }
                },
            }
            i = i + 1;
        }
        proof {
            lemma_with_name_skip(model, name@, i as int);
        }
        self.names.push(name.to_owned());
        assert(self@ =~= model.take(i as int) + seq![name@]);
    }
}

// ---------------------------------------------------------------------------
// The catalog
// ---------------------------------------------------------------------------

/// The name of a model whatever provider lists it.
pub open spec fn canonical_id(provider_id: Seq<char>, model_id: Seq<char>) -> Seq<char> {
    if model_id.contains('/') {
        model_id
    } else {
        provider_id + "/"@ + model_id
    }
}

/// The names, and what comes after the last slash of each.
pub open spec fn with_alias(names: Seq<Seq<char>>, name: Seq<char>) -> Seq<Seq<char>> {
    match text::after_last(name, '/') {
        Some(short) => with_name(with_name(names, name), short),
        None => with_name(names, name),
    }
}

/// The names under which a model is looked for.
pub open spec fn aliases_of(model_key: Seq<char>, model_id: Seq<char>) -> Seq<Seq<char>> {
    with_alias(with_alias(Seq::empty(), model_key), model_id)
}

/// One entry of a catalog.
#[derive(Debug, PartialEq, Eq)]
pub struct ModelEntry {
    pub provider_id: String,
    pub model_id: String,
    pub info: ModelInfo,
}

/// What a [`ModelEntry`] holds.
#[verifier::ext_equal]
pub struct EntryView {
    pub provider_id: Seq<char>,
    pub model_id: Seq<char>,
    pub info: InfoView,
}

impl View for ModelEntry {
    type V = EntryView;

    open spec fn view(&self) -> EntryView {
        EntryView {
            provider_id: self.provider_id@,
            model_id: self.model_id@,
            info: self.info@,
        }
    }
}

/// What is known of models.
#[derive(Debug, PartialEq, Eq)]
pub struct ModelsDevCatalog {
    models: Vec<ModelEntry>,
    canonical_models: TextMap<ModelInfo>,
    unqualified_models: TextMap<NameSet>,
}

/// What a [`ModelsDevCatalog`] holds: the models as they were listed, one
/// listing for each canonical name, and the canonical names for each name.
#[verifier::ext_equal]
pub struct CatalogView {
    pub models: Seq<EntryView>,
    pub canonical_models: Seq<(Seq<char>, InfoView)>,
    pub unqualified_models: Seq<(Seq<char>, Seq<Seq<char>>)>,
}

impl View for ModelsDevCatalog {
    type V = CatalogView;

    closed spec fn view(&self) -> CatalogView {
        CatalogView {
            models: text::views(self.models@),
            canonical_models: self.canonical_models@,
            unqualified_models: self.unqualified_models@,
        }
    }
}

pub open spec fn empty_catalog() -> CatalogView {
    CatalogView {
        models: Seq::empty(),
        canonical_models: Seq::empty(),
        unqualified_models: Seq::empty(),
    }
}

/// The last entry for a model of a provider.
pub open spec fn entry_for(
    entries: Seq<EntryView>,
    provider_id: Seq<char>,
    model_id: Seq<char>,
) -> Option<InfoView>
    decreases entries.len(),
{
    if entries.len() == 0 {
        None
    } else if entries.last().provider_id == provider_id && entries.last().model_id == model_id {
        Some(entries.last().info)
    } else {
        entry_for(entries.drop_last(), provider_id, model_id)
    }
}

/// `map` with `id` among the canonical names for each of the aliases.
pub open spec fn with_aliases(
    map: Seq<(Seq<char>, Seq<Seq<char>>)>,
    aliases: Seq<Seq<char>>,
    id: Seq<char>,
) -> Seq<(Seq<char>, Seq<Seq<char>>)>
    decreases aliases.len(),
{
    if aliases.len() == 0 {
        map
    } else {
        let before = with_aliases(map, aliases.drop_last(), id);
        let names = match textmap::lookup(before, aliases.last()) {
            Some(names) => names,
            None => Seq::empty(),
        };
        textmap::inserted(before, aliases.last(), with_name(names, id))
    }
}

impl CatalogView {
    /// This catalog with one model more.
    pub open spec fn with_model(
        self,
        provider_id: Seq<char>,
        model_key: Seq<char>,
        model: ApiModelView,
    ) -> CatalogView {
        let id = canonical_id(provider_id, model_key);
        CatalogView {
            models: self.models.push(
                EntryView { provider_id, model_id: model_key, info: info_of(model) },
            ),
            canonical_models: if textmap::has_key(self.canonical_models, id) {
                self.canonical_models
            } else {
                textmap::inserted(self.canonical_models, id, info_of(model))
            },
            unqualified_models: with_aliases(
                self.unqualified_models,
                aliases_of(model_key, model.id),
                id,
            ),
        }
    }

    /// This catalog with the models of a provider.
    pub open spec fn with_models(
        self,
        provider_id: Seq<char>,
        models: Seq<(Seq<char>, ApiModelView)>,
    ) -> CatalogView
        decreases models.len(),
    {
        if models.len() == 0 {
            self
        } else {
            self.with_models(provider_id, models.drop_last()).with_model(
                provider_id,
                models.last().0,
                models.last().1,
            )
        }
    }

    /// This catalog with the models of several providers.
    pub open spec fn with_providers(
        self,
        providers: Seq<(Seq<char>, ApiProviderView)>,
    ) -> CatalogView
        decreases providers.len(),
    {
        if providers.len() == 0 {
            self
        } else {
            self.with_providers(providers.drop_last()).with_models(
                provider_name(providers.last()),
                providers.last().1.models,
            )
        }
    }

    /// The canonical names under which a model that its provider does not list
    /// is looked up: those for the whole name, else those for what comes after
    /// its last slash.
    pub open spec fn matches(self, model_id: Seq<char>) -> Option<Seq<Seq<char>>> {
        match textmap::lookup(self.unqualified_models, model_id) {
            Some(names) => Some(names),
            None => match text::after_last(model_id, '/') {
                Some(short) => textmap::lookup(self.unqualified_models, short),
                None => None,
            },
        }
    }

    /// What is known under each of the canonical names.
    pub open spec fn infos(self, names: Seq<Seq<char>>) -> Seq<InfoView>
        decreases names.len(),
    {
        if names.len() == 0 {
            Seq::empty()
        } else {
            match textmap::lookup(self.canonical_models, names.last()) {
                Some(info) => self.infos(names.drop_last()).push(info),
                None => self.infos(names.drop_last()),
            }
        }
    }

    /// What a provider lists of a model.
    pub open spec fn listed_capabilities(
        self,
        provider_id: Seq<char>,
        model_id: Seq<char>,
    ) -> Option<CapabilitiesView> {
        match entry_for(self.models, provider_id, model_id) {
            Some(info) => Some(info.capabilities),
            None => None,
        }
    }

    /// What all listings of a model's name offer together.
    pub open spec fn shared_capabilities(self, model_id: Seq<char>) -> Option<CapabilitiesView> {
        match self.matches(model_id) {
            Some(names) => merged_capabilities(self.infos(names)),
            None => None,
        }
    }

    /// What a model offers: what its provider lists, else what all listings of
    /// its name offer together.
    pub open spec fn capabilities(
        self,
        provider_id: Seq<char>,
        model_id: Seq<char>,
    ) -> Option<CapabilitiesView> {
        match self.listed_capabilities(provider_id, model_id) {
            Some(capabilities) => Some(capabilities),
            None => self.shared_capabilities(model_id),
        }
    }

    /// The limits that a provider lists of a model.
    pub open spec fn listed_limits(
        self,
        provider_id: Seq<char>,
        model_id: Seq<char>,
    ) -> Option<ModelLimit> {
        match entry_for(self.models, provider_id, model_id) {
            Some(info) => info.limit,
            None => None,
        }
    }

    /// What all listings of a model's name allow together.
    pub open spec fn shared_limits(self, model_id: Seq<char>) -> Option<ModelLimit> {
        match self.matches(model_id) {
            Some(names) => merged_limits(self.infos(names)),
            None => None,
        }
    }

    /// The limits of a model: what its provider lists, else what all listings
    /// of its name allow together.
    pub open spec fn limits(
        self,
        provider_id: Seq<char>,
        model_id: Seq<char>,
    ) -> Option<ModelLimit> {
        match self.listed_limits(provider_id, model_id) {
            Some(limit) => Some(limit),
            None => self.shared_limits(model_id),
        }
    }
}

/// The name of a published provider.
pub open spec fn provider_name(provider: (Seq<char>, ApiProviderView)) -> Seq<char> {
    match provider.1.id {
        Some(id) => id,
        None => provider.0,
    }
}

/// What two listings of a model offer together.
pub open spec fn joined_capabilities(a: CapabilitiesView, b: CapabilitiesView) -> CapabilitiesView {
    if !b.supports_reasoning_effort {
        a
    } else if !a.supports_reasoning_effort {
        b
    } else {
        let supported = ladder_of(a.supported + b.supported);
        CapabilitiesView {
            min_level: thinking::or_off(thinking::first_enabled(supported)),
            max_level: thinking::or_off(thinking::last_enabled(supported)),
            supported,
            mode: a.mode,
            supports_reasoning_effort: true,
            reasoning_effort_map: a.reasoning_effort_map.union_prefer_right(
                b.reasoning_effort_map,
            ),
            supports_interleaved_thinking: a.supports_interleaved_thinking
                || b.supports_interleaved_thinking,
        }
    }
}

/// The levels among `levels`, in order, each once.
pub open spec fn ladder_of(levels: Seq<ThinkingLevel>) -> Seq<ThinkingLevel> {
    thinking::ladder().filter(|level: ThinkingLevel| levels.contains(level))
}

/// What several listings of a model offer together.
pub open spec fn merged_capabilities(infos: Seq<InfoView>) -> Option<CapabilitiesView>
    decreases infos.len(),
{
    if infos.len() == 0 {
        None
    } else {
        match merged_capabilities(infos.drop_last()) {
            None => Some(infos.last().capabilities),
            Some(before) => Some(joined_capabilities(before, infos.last().capabilities)),
        }
    }
}

/// What two limits allow together: the smaller of each.
pub open spec fn joined_limits(a: ModelLimit, b: ModelLimit) -> ModelLimit {
    ModelLimit {
        context: if a.context <= b.context {
            a.context
        } else {
            b.context
        },
        output: match (a.output, b.output) {
            (Some(x), Some(y)) => Some(
                if x <= y {
                    x
                } else {
                    y
                },
            ),
            (Some(x), None) => Some(x),
            (None, y) => y,
        },
    }
}

/// What the limits of several listings allow together.
pub open spec fn merged_limits(infos: Seq<InfoView>) -> Option<ModelLimit>
    decreases infos.len(),
{
    if infos.len() == 0 {
        None
    } else {
        match (merged_limits(infos.drop_last()), infos.last().limit) {
            (before, None) => before,
            (None, limit) => limit,
            (Some(before), Some(limit)) => Some(joined_limits(before, limit)),
        }
    }
}

/// Merged limits never promise more than any listing does: there are some as
/// soon as one listing has some, and both numbers are at most those of every
/// listing.
pub proof fn law_merged_limits_are_conservative(infos: Seq<InfoView>)
    ensures
        merged_limits(infos) is None <==> forall|i: int|
            0 <= i < infos.len() ==> (#[trigger] infos[i]).limit is None,
        forall|i: int|
            0 <= i < infos.len() && (#[trigger] infos[i]).limit is Some ==> {
                let limit = infos[i].limit->0;
                let merged = merged_limits(infos)->0;
                &&& merged.context <= limit.context
                &&& limit.output matches Some(output) ==> merged.output matches Some(least)
                    && least <= output
            },
    decreases infos.len(),
{
    if infos.len() > 0 {
        let before = infos.drop_last();
        law_merged_limits_are_conservative(before);
        assert forall|i: int| 0 <= i < infos.len() && (#[trigger] infos[i]).limit is Some implies ({
            let limit = infos[i].limit->0;
            let merged = merged_limits(infos)->0;
            &&& merged.context <= limit.context
            &&& limit.output matches Some(output) ==> merged.output matches Some(least) && least
                <= output
        }) by {
            if i < before.len() {
                assert(before[i] == infos[i]);
                assert(before[i].limit is Some);
            }
        }
        if merged_limits(infos) is None {
            assert forall|i: int| 0 <= i < infos.len() implies (#[trigger] infos[i]).limit
                is None by {
                if i < before.len() {
                    assert(before[i] == infos[i]);
                }
            }
        } else if infos.last().limit is None {
            let j = choose|j: int| 0 <= j < before.len() && before[j].limit is Some;
            assert(infos[j] == before[j]);
            assert(infos[j].limit is Some);
        } else {
            assert(infos[infos.len() - 1].limit is Some);
        }
    }
}

pub fn contains_slash(s: &str) -> (r: bool)
    ensures
        r == s@.contains('/'),
{
    let chars = text::chars_of(s);
    let mut i: usize = 0;
    while i < chars.len()
        invariant
            i <= chars@.len(),
            chars@ == s@,
            forall|j: int| 0 <= j < i ==> chars@[j] != '/',
        decreases chars@.len() - i,
    {
        if chars[i] == '/' {
            return true;
        }
        i = i + 1;
    }
    false
}

fn canonical_model_id(provider_id: &str, model_id: &str) -> (r: String)
    ensures
        r@ == canonical_id(provider_id@, model_id@),
{
    if contains_slash(model_id) {
        model_id.to_owned()
    } else {
        let mut r = provider_id.to_owned();
        r.append("/");
        r.append(model_id);
        r
    }
}

fn insert_alias(names: &mut NameSet, name: &str)
    ensures
        final(names)@ == with_alias(old(names)@, name@),
{
    names.insert(name);
    match text::after_last_of(name, '/') {
        Some(short) => {
            names.insert(short.as_str());
        },
        None => {},
    }
}

fn model_aliases(model_key: &str, model_id: &str) -> (r: NameSet)
    ensures
        r@ == aliases_of(model_key@, model_id@),
{
    let mut names = NameSet::new();
    insert_alias(&mut names, model_key);
    insert_alias(&mut names, model_id);
    names
}

/// The levels among those of `a` and `b`, in order, each once.
fn joined_levels(a: &Vec<ThinkingLevel>, b: &Vec<ThinkingLevel>) -> (r: Vec<ThinkingLevel>)
    ensures
        r@ == ladder_of(a@ + b@),
{
    let all = thinking::ladder_levels();
    let ghost both = a@ + b@;
    let ghost keep = |level: ThinkingLevel| both.contains(level);
    let mut r: Vec<ThinkingLevel> = Vec::new();
    let mut i: usize = 0;
    proof {
        reveal(Seq::filter);
    }
    assert(r@ =~= thinking::ladder().take(0).filter(keep));
    while i < all.len()
        invariant
            i <= all@.len(),
            all@ == thinking::ladder(),
            both == a@ + b@,
            keep == (|level: ThinkingLevel| both.contains(level)),
            r@ == thinking::ladder().take(i as int).filter(keep),
        decreases all@.len() - i,
    {
        proof {
            reveal(Seq::filter);
        }
        let ladder = Ghost(thinking::ladder());
        assert(ladder@.take(i as int + 1).drop_last() =~= ladder@.take(i as int));
        let level = all[i];
        let in_a = thinking::contains_level(a, level);
        let in_b = thinking::contains_level(b, level);
        proof {
            if in_a {
                let j = a@.index_of(level);
                assert(both[j] == level);
            }
            if in_b {
                let j = b@.index_of(level);
                assert(both[a@.len() + j] == level);
            }
            if both.contains(level) {
                let j = both.index_of(level);
                if j < a@.len() {
                    assert(a@[j] == level);
                } else {
                    assert(b@[j - a@.len()] == level);
                }
            }
        }
        if in_a || in_b {
            r.push(level);
        }
        i = i + 1;
    }
    assert(thinking::ladder().take(7) =~= thinking::ladder());
    r
}

/// What two listings of a model offer together.
pub fn merge_capabilities(merged: &mut ThinkingCapabilities, candidate: &ThinkingCapabilities)
    ensures
        final(merged)@ == joined_capabilities(old(merged)@, candidate@),
{
    if !candidate.supports_reasoning_effort {
        return;
    }
    if !merged.supports_reasoning_effort {
        *merged = candidate.copy();
        return;
    }
    let supported = joined_levels(&merged.supported, &candidate.supported);
    merged.min_level = match thinking::first_enabled_level(&supported) {
        Some(level) => level,
        None => ThinkingLevel::Off,
    };
    merged.max_level = match thinking::last_enabled_level(&supported) {
        Some(level) => level,
        None => ThinkingLevel::Off,
    };
    merged.supported = supported;
    merged.reasoning_effort_map.extend(&candidate.reasoning_effort_map);
    if candidate.supports_interleaved_thinking {
        merged.supports_interleaved_thinking = true;
    }
}

/// What two limits allow together.
pub fn merge_limits(merged: ModelLimit, candidate: ModelLimit) -> (r: ModelLimit)
    ensures
        r == joined_limits(merged, candidate),
{
    ModelLimit {
        context: if merged.context <= candidate.context {
            merged.context
        } else {
            candidate.context
        },
        output: match (merged.output, candidate.output) {
            (Some(a), Some(b)) => Some(
                if a <= b {
                    a
                } else {
                    b
                },
            ),
            (Some(a), None) => Some(a),
            (None, b) => b,
        },
    }
}

/// What is said where the bytes are no catalog; not what is wrong with them.
pub open spec fn invalid_catalog() -> Seq<char> {
    "invalid models.dev response"@
}

pub open spec fn alias_of(provider: (Seq<char>, ApiProviderView)) -> AliasView {
    AliasView { id: provider_name(provider), api: provider.1.api }
}

impl Default for ModelsDevCatalog {
    fn default() -> (r: ModelsDevCatalog)
        ensures
            r.wf(),
            r@ == empty_catalog(),
    {
        let r = ModelsDevCatalog {
            models: Vec::new(),
            canonical_models: TextMap::new(),
            unqualified_models: TextMap::new(),
        };
        assert(r@ =~= empty_catalog());
        r
    }
}

impl ModelsDevCatalog {
    /// Both maps are in order.
    pub closed spec fn wf(&self) -> bool {
        &&& self.canonical_models.wf()
        &&& self.unqualified_models.wf()
    }

    fn add_aliases(&mut self, aliases: &NameSet, id: &str)
        requires
            old(self).wf(),
        ensures
            final(self).wf(),
            final(self)@ == (CatalogView {
                unqualified_models: with_aliases(old(self)@.unqualified_models, aliases@, id@),
                ..old(self)@
            }),
    {
        let ghost before = self@;
        let mut i: usize = 0;
        while i < aliases.len()
            invariant
                i <= aliases@.len(),
                self.wf(),
                self@.models == before.models,
                self@.canonical_models == before.canonical_models,
                self@.unqualified_models == with_aliases(
                    before.unqualified_models,
                    aliases@.take(i as int),
                    id@,
                ),
            decreases aliases@.len() - i,
        {
            assert(aliases@.take(i as int + 1).drop_last() =~= aliases@.take(i as int));
            let alias = aliases.at(i);
            let mut names = match self.unqualified_models.get(alias) {
                Some(names) => names.copy(),
                None => NameSet::new(),
            };
            names.insert(id);
            self.unqualified_models.insert(alias.to_owned(), names);
            i = i + 1;
        }
        assert(aliases@.take(aliases@.len() as int) =~= aliases@);
    }

    fn add_model(&mut self, provider_id: &str, model_key: &str, model: &ApiModel)
        requires
            old(self).wf(),
        ensures
            final(self).wf(),
            final(self)@ == old(self)@.with_model(provider_id@, model_key@, model@),
    {
        let aliases = model_aliases(model_key, model.id.as_str());
        let info = model_info_from_model(model);
        let id = canonical_model_id(provider_id, model_key);
        self.add_aliases(&aliases, id.as_str());
        if !self.canonical_models.contains_key(id.as_str()) {
            self.canonical_models.insert(id, info.copy());
        }
        let entry = ModelEntry {
            provider_id: provider_id.to_owned(),
            model_id: model_key.to_owned(),
            info,
        };
        proof {
            text::lemma_views_push(self.models@, entry);
        }
        self.models.push(entry);
    }

    fn add_models(&mut self, provider_id: &str, models: &Vec<(String, ApiModel)>)
        requires
            old(self).wf(),
        ensures
            final(self).wf(),
            final(self)@ == old(self)@.with_models(provider_id@, text::views(models@)),
    {
        let ghost before = self@;
        let ghost model = text::views(models@);
        let mut i: usize = 0;
        while i < models.len()
            invariant
                i <= models@.len(),
                model == text::views(models@),
                self.wf(),
                self@ == before.with_models(provider_id@, model.take(i as int)),
            decreases models@.len() - i,
        {
            assert(model.take(i as int + 1).drop_last() =~= model.take(i as int));
            assert(model.take(i as int + 1).last() == models@[i as int]@);
            self.add_model(provider_id, models[i].0.as_str(), &models[i].1);
            i = i + 1;
        }
        assert(model.take(model.len() as int) =~= model);
    }

    /// The catalog that published bytes hold.
    pub fn parse(content: &[u8]) -> (r: Result<ModelsDevCatalog, String>)
        ensures
            match (r, api_in(content@)) {
                (Ok(catalog), Some(providers)) => catalog.wf() && catalog@
                    == empty_catalog().with_providers(providers),
                (Err(message), None) => message@ == invalid_catalog(),
                _ => false,
            },
    {
        let api = match api_from(content) {
            None => {
                return Err("invalid models.dev response".to_owned());
            },
            Some(api) => api,
        };
        let ghost model = text::views(api@);
        let mut catalog = ModelsDevCatalog::default();
        let mut i: usize = 0;
        while i < api.len()
            invariant
                i <= api@.len(),
                model == text::views(api@),
                catalog.wf(),
                catalog@ == empty_catalog().with_providers(model.take(i as int)),
            decreases api@.len() - i,
        {
            assert(model.take(i as int + 1).drop_last() =~= model.take(i as int));
            assert(model.take(i as int + 1).last() == api@[i as int]@);
            let provider_id: &str = match &api[i].1.id {
                Some(id) => id.as_str(),
                None => api[i].0.as_str(),
            };
            catalog.add_models(provider_id, &api[i].1.models);
            i = i + 1;
        }
        assert(model.take(model.len() as int) =~= model);
        Ok(catalog)
    }

    /// The catalog that published bytes hold.
    pub fn from_json(content: &[u8]) -> (r: Result<ModelsDevCatalog, String>)
        ensures
            match (r, api_in(content@)) {
                (Ok(catalog), Some(providers)) => catalog.wf() && catalog@
                    == empty_catalog().with_providers(providers),
                (Err(message), None) => message@ == invalid_catalog(),
                _ => false,
            },
    {
        ModelsDevCatalog::parse(content)
    }

    /// The providers that published bytes list.
    pub fn provider_aliases(content: &[u8]) -> (r: Result<Vec<ModelsDevProviderAlias>, String>)
        ensures
            match (r, api_in(content@)) {
                (Ok(aliases), Some(providers)) => text::views(aliases@) == providers.map_values(
                    |provider: (Seq<char>, ApiProviderView)| alias_of(provider),
                ),
                (Err(message), None) => message@ == invalid_catalog(),
                _ => false,
            },
    {
        let api = match api_from(content) {
            None => {
                return Err("invalid models.dev response".to_owned());
            },
            Some(api) => api,
        };
        let ghost model = text::views(api@);
        let ghost goal = model.map_values(
            |provider: (Seq<char>, ApiProviderView)| alias_of(provider),
        );
        let mut aliases: Vec<ModelsDevProviderAlias> = Vec::new();
        let mut i: usize = 0;
        while i < api.len()
            invariant
                i <= api@.len(),
                model == text::views(api@),
                goal == model.map_values(
                    |provider: (Seq<char>, ApiProviderView)| alias_of(provider),
                ),
                text::views(aliases@) == goal.take(i as int),
            decreases api@.len() - i,
        {
            assert(model[i as int] == api@[i as int]@);
            let alias = ModelsDevProviderAlias {
                id: match &api[i].1.id {
                    Some(id) => id.clone(),
                    None => api[i].0.clone(),
                },
                api: match &api[i].1.api {
                    Some(api) => Some(api.clone()),
                    None => None,
                },
            };
            assert(alias@ =~= alias_of(model[i as int]));
            proof {
                text::lemma_views_push(aliases@, alias);
            }
            aliases.push(alias);
            i = i + 1;
            assert(text::views(aliases@) =~= goal.take(i as int));
        }
        assert(goal.take(goal.len() as int) =~= goal);
        Ok(aliases)
    }

    fn entry(&self, provider_id: &str, model_id: &str) -> (r: Option<&ModelInfo>)
        ensures
            match r {
                Some(info) => entry_for(self@.models, provider_id@, model_id@) == Some(info@),
                None => entry_for(self@.models, provider_id@, model_id@) is None,
            },
    {
        let ghost model = self@.models;
        let mut n: usize = self.models.len();
        assert(model.take(n as int) =~= model);
        while n > 0
            invariant
                n <= self.models@.len(),
                model == text::views(self.models@),
                model == self@.models,
                entry_for(model, provider_id@, model_id@) == entry_for(
                    model.take(n as int),
                    provider_id@,
                    model_id@,
                ),
            decreases n,
        {
            assert(model.take(n as int).last() == self.models@[n - 1]@);
            assert(model.take(n as int).drop_last() =~= model.take(n - 1));
            let entry = &self.models[n - 1];
            if text::same(entry.provider_id.as_str(), provider_id) && text::same(
                entry.model_id.as_str(),
                model_id,
            ) {
                return Some(&entry.info);
            }
            n = n - 1;
        }
        None
    }

    fn unqualified_matches(&self, model_id: &str) -> (r: Option<&NameSet>)
        requires
            self.wf(),
        ensures
            match r {
                Some(names) => self@.matches(model_id@) == Some(names@),
                None => self@.matches(model_id@) is None,
            },
    {
        match self.unqualified_models.get(model_id) {
            Some(names) => Some(names),
            None => match text::after_last_of(model_id, '/') {
                Some(short) => self.unqualified_models.get(short.as_str()),
                None => None,
            },
        }
    }

    /// What all listings of a model's name offer together.
    pub fn unique_model_capabilities(&self, model_id: &str) -> (r: Option<ThinkingCapabilities>)
        requires
            self.wf(),
        ensures
            text::opt(r) == self@.shared_capabilities(model_id@),
    {
        let names = match self.unqualified_matches(model_id) {
            Some(names) => names,
            None => {
                return None;
            },
        };
        let mut merged: Option<ThinkingCapabilities> = None;
        let mut i: usize = 0;
        while i < names.len()
            invariant
                i <= names@.len(),
                self.wf(),
                text::opt(merged) == merged_capabilities(self@.infos(names@.take(i as int))),
            decreases names@.len() - i,
        {
            assert(names@.take(i as int + 1).drop_last() =~= names@.take(i as int));
            match self.canonical_models.get(names.at(i)) {
                Some(info) => {
                    let ghost infos = self@.infos(names@.take(i as int));
                    assert(infos.push(info@).drop_last() =~= infos);
                    merged = match merged {
                        None => Some(info.capabilities.copy()),
                        Some(mut before) => {
                            merge_capabilities(&mut before, &info.capabilities);
                            Some(before)
                        },
                    };
                },
                None => {},
            }
            i = i + 1;
        }
        assert(names@.take(names@.len() as int) =~= names@);
        merged
    }

    /// What all listings of a model's name allow together.
    pub fn unique_model_limit(&self, model_id: &str) -> (r: Option<ModelLimit>)
        requires
            self.wf(),
        ensures
            r == self@.shared_limits(model_id@),
    {
        let names = match self.unqualified_matches(model_id) {
            Some(names) => names,
            None => {
                return None;
            },
        };
        let mut merged: Option<ModelLimit> = None;
        let mut i: usize = 0;
        while i < names.len()
            invariant
                i <= names@.len(),
                self.wf(),
                merged == merged_limits(self@.infos(names@.take(i as int))),
            decreases names@.len() - i,
        {
            assert(names@.take(i as int + 1).drop_last() =~= names@.take(i as int));
            match self.canonical_models.get(names.at(i)) {
                Some(info) => {
                    let ghost infos = self@.infos(names@.take(i as int));
                    assert(infos.push(info@).drop_last() =~= infos);
                    merged = match (merged, info.limit) {
                        (before, None) => before,
                        (None, limit) => limit,
                        (Some(before), Some(limit)) => Some(merge_limits(before, limit)),
                    };
                },
                None => {},
            }
            i = i + 1;
        }
        assert(names@.take(names@.len() as int) =~= names@);
        merged
    }

    /// What a provider lists of a model.
    pub fn listed_capabilities(&self, provider_id: &str, model_id: &str) -> (r: Option<
        ThinkingCapabilities,
    >)
        ensures
            text::opt(r) == self@.listed_capabilities(provider_id@, model_id@),
    {
        match self.entry(provider_id, model_id) {
            Some(info) => Some(info.capabilities.copy()),
            None => None,
        }
    }

    /// The limits that a provider lists of a model.
    pub fn listed_limits(&self, provider_id: &str, model_id: &str) -> (r: Option<ModelLimit>)
        ensures
            r == self@.listed_limits(provider_id@, model_id@),
    {
        match self.entry(provider_id, model_id) {
            Some(info) => info.limit,
            None => None,
        }
    }

    /// What a model offers.
    pub fn capabilities(&self, provider_id: &str, model_id: &str) -> (r: Option<
        ThinkingCapabilities,
    >)
        requires
            self.wf(),
        ensures
            text::opt(r) == self@.capabilities(provider_id@, model_id@),
    {
        match self.listed_capabilities(provider_id, model_id) {
            Some(capabilities) => Some(capabilities),
            None => self.unique_model_capabilities(model_id),
        }
    }

    /// The limits of a model.
    pub fn limits(&self, provider_id: &str, model_id: &str) -> (r: Option<ModelLimit>)
        requires
            self.wf(),
        ensures
            r == self@.limits(provider_id@, model_id@),
    {
        match self.listed_limits(provider_id, model_id) {
            Some(limit) => Some(limit),
            None => self.unique_model_limit(model_id),
        }
    }
}

proof fn lemma_models_are_added(
    catalog: CatalogView,
    provider_id: Seq<char>,
    models: Seq<(Seq<char>, ApiModelView)>,
)
    ensures
        ({
            let after = catalog.with_models(provider_id, models).models;
            &&& after.len() == catalog.models.len() + models.len()
            &&& after.take(catalog.models.len() as int) == catalog.models
            &&& forall|m: int|
                0 <= m < models.len() ==> after[catalog.models.len() + m] == (EntryView {
                    provider_id,
                    model_id: (#[trigger] models[m]).0,
                    info: info_of(models[m].1),
                })
        }),
    decreases models.len(),
{
    let n = catalog.models.len() as int;
    if models.len() > 0 {
        let rest = models.drop_last();
        lemma_models_are_added(catalog, provider_id, rest);
        let before = catalog.with_models(provider_id, rest).models;
        let after = catalog.with_models(provider_id, models).models;
        assert(after.take(n) =~= before.take(n));
        assert forall|m: int| 0 <= m < models.len() implies after[n + m] == (EntryView {
            provider_id,
            model_id: (#[trigger] models[m]).0,
            info: info_of(models[m].1),
        }) by {
            if m < rest.len() {
                assert(rest[m] == models[m]);
                assert(after[n + m] == before[n + m]);
            }
        }
    } else {
        assert(catalog.models.take(n) =~= catalog.models);
    }
}

/// Every model of every provider is listed, under its provider's ID, which is
/// the one it says it has or else the name it goes by, and nothing that was
/// listed before goes.
pub proof fn law_every_model_is_listed(
    catalog: CatalogView,
    providers: Seq<(Seq<char>, ApiProviderView)>,
    p: int,
    m: int,
) -> (place: int)
    requires
        0 <= p < providers.len(),
        0 <= m < providers[p].1.models.len(),
    ensures
        ({
            let after = catalog.with_providers(providers).models;
            let model = providers[p].1.models[m];
            &&& catalog.models.len() <= place < after.len()
            &&& after[place].model_id == model.0
            &&& after[place].info == info_of(model.1)
            &&& match providers[p].1.id {
                Some(id) => after[place].provider_id == id,
                None => after[place].provider_id == providers[p].0,
            }
        }),
    decreases providers.len(),
{
    let rest = providers.drop_last();
    let before = catalog.with_providers(rest);
    lemma_listed_models_stay(catalog, rest);
    lemma_models_are_added(before, provider_name(providers.last()), providers.last().1.models);
    let after = catalog.with_providers(providers).models;
    if p < rest.len() {
        assert(rest[p] == providers[p]);
        let place = law_every_model_is_listed(catalog, rest, p, m);
        assert(after.take(before.models.len() as int)[place] == before.models[place]);
        place
    } else {
        assert(providers.last() == providers[p]);
        assert(providers.last().1.models[m] == providers[p].1.models[m]);
        before.models.len() + m
    }
}

proof fn lemma_listed_models_stay(
    catalog: CatalogView,
    providers: Seq<(Seq<char>, ApiProviderView)>,
)
    ensures
        catalog.with_providers(providers).models.len() >= catalog.models.len(),
    decreases providers.len(),
{
    if providers.len() > 0 {
        let rest = providers.drop_last();
        lemma_listed_models_stay(catalog, rest);
        lemma_models_are_added(
            catalog.with_providers(rest),
            provider_name(providers.last()),
            providers.last().1.models,
        );
    }
}

/// A word among some that means a level.
pub open spec fn some_word_means(values: Seq<Seq<char>>, level: ThinkingLevel) -> bool {
    exists|i: int| 0 <= i < values.len() && #[trigger] effort_level(values[i]) == Some(level)
}

proof fn lemma_last_word_means(values: Seq<Seq<char>>, level: ThinkingLevel)
    requires
        values.len() > 0,
    ensures
        some_word_means(values, level) <==> some_word_means(values.drop_last(), level)
            || effort_level(values.last()) == Some(level),
{
    let rest = values.drop_last();
    if some_word_means(rest, level) {
        let i = choose|i: int|
            0 <= i < rest.len() && #[trigger] effort_level(rest[i]) == Some(level);
        assert(effort_level(values[i]) == Some(level));
    }
    if effort_level(values.last()) == Some(level) {
        assert(effort_level(values[values.len() - 1]) == Some(level));
    }
    if some_word_means(values, level) {
        let i = choose|i: int|
            0 <= i < values.len() && #[trigger] effort_level(values[i]) == Some(level);
        if i < rest.len() {
            assert(effort_level(rest[i]) == Some(level));
        }
    }
}

/// The levels that a list of effort words gives are off and those of its words.
pub proof fn law_effort_words_give_levels(values: Seq<Seq<char>>, level: ThinkingLevel)
    ensures
        effort_levels(values).contains(level) <==> level == ThinkingLevel::Off || some_word_means(
            values,
            level,
        ),
    decreases values.len(),
{
    if values.len() == 0 {
        assert(effort_levels(values)[0] == ThinkingLevel::Off);
    } else {
        let before = effort_levels(values.drop_last());
        law_effort_words_give_levels(values.drop_last(), level);
        lemma_last_word_means(values, level);
        if let Some(last) = effort_level(values.last()) {
            let after = before.push(last);
            assert(after[before.len() as int] == last);
            if before.contains(level) {
                let k = choose|k: int| 0 <= k < before.len() && before[k] == level;
                assert(after[k] == level);
            }
            if after.contains(level) && level != last {
                let k = choose|k: int| 0 <= k < after.len() && after[k] == level;
                assert(before[k] == level);
            }
        }
    }
}

/// A level above off has a word where one of the list means it, and off has none.
pub proof fn law_levels_have_words(values: Seq<Seq<char>>, level: ThinkingLevel)
    ensures
        effort_words(values).contains_key(level) <==> level != ThinkingLevel::Off
            && some_word_means(values, level),
    decreases values.len(),
{
    if values.len() > 0 {
        law_levels_have_words(values.drop_last(), level);
        lemma_last_word_means(values, level);
    }
}

/// The word of a level is the last that means it.
pub proof fn law_last_words_count(values: Seq<Seq<char>>, level: ThinkingLevel, i: int)
    requires
        level != ThinkingLevel::Off,
        0 <= i < values.len(),
        effort_level(values[i]) == Some(level),
        forall|j: int|
            i < j < values.len() ==> #[trigger] effort_level(values[j]) != Some(level),
    ensures
        effort_words(values)[level] == values[i],
    decreases values.len(),
{
    let rest = values.drop_last();
    let n = values.len() - 1;
    if i < n {
        assert(effort_level(values[n]) != Some(level));
        assert(rest[i] == values[i]);
        assert forall|j: int| i < j < rest.len() implies #[trigger] effort_level(rest[j]) != Some(
            level,
        ) by {
            assert(effort_level(values[j]) != Some(level));
        }
        law_last_words_count(rest, level, i);
    }
}

/// The efforts that count are those of the first option that lists some.
pub proof fn law_first_efforts_count(options: Seq<ReasoningView>)
    ensures
        match first_effort(options) {
            Some(values) => exists|i: int|
                0 <= i < options.len() && #[trigger] options[i] == ReasoningView::Effort(values)
                    && forall|j: int| 0 <= j < i ==> !((#[trigger] options[j]) is Effort),
            None => forall|j: int| 0 <= j < options.len() ==> !((#[trigger] options[j]) is Effort),
        },
    decreases options.len(),
{
    if options.len() > 0 {
        if options[0] is Effort {
            assert(options[0] == ReasoningView::Effort(first_effort(options)->Some_0));
        } else {
            let rest = options.skip(1);
            law_first_efforts_count(rest);
            match first_effort(rest) {
                Some(values) => {
                    let i = choose|i: int|
                        0 <= i < rest.len() && #[trigger] rest[i] == ReasoningView::Effort(values)
                            && forall|j: int| 0 <= j < i ==> !((#[trigger] rest[j]) is Effort);
                    assert(options[i + 1] == ReasoningView::Effort(values));
                    assert forall|j: int| 0 <= j < i + 1 implies !((
                    #[trigger] options[j]) is Effort) by {
                        if j > 0 {
                            assert(rest[j - 1] == options[j]);
                        }
                    }
                },
                None => {
                    assert forall|j: int| 0 <= j < options.len() implies !((
                    #[trigger] options[j]) is Effort) by {
                        if j > 0 {
                            assert(rest[j - 1] == options[j]);
                        }
                    }
                },
            }
        }
    }
}

/// What is known of a provider's model is what was listed of it last.
pub proof fn law_last_listed_entry_counts(
    entries: Seq<EntryView>,
    provider_id: Seq<char>,
    model_id: Seq<char>,
)
    ensures
        match entry_for(entries, provider_id, model_id) {
            Some(info) => exists|i: int|
                0 <= i < entries.len() && #[trigger] entries[i] == (EntryView {
                    provider_id,
                    model_id,
                    info,
                }) && forall|j: int|
                    i < j < entries.len() ==> (#[trigger] entries[j]).provider_id != provider_id
                        || entries[j].model_id != model_id,
            None => forall|j: int|
                0 <= j < entries.len() ==> (#[trigger] entries[j]).provider_id != provider_id
                    || entries[j].model_id != model_id,
        },
    decreases entries.len(),
{
    if entries.len() > 0 {
        let rest = entries.drop_last();
        let n = entries.len() - 1;
        if entries.last().provider_id == provider_id && entries.last().model_id == model_id {
            assert(entries[n] == (EntryView { provider_id, model_id, info: entries.last().info }));
        } else {
            law_last_listed_entry_counts(rest, provider_id, model_id);
            match entry_for(rest, provider_id, model_id) {
                Some(info) => {
                    let i = choose|i: int|
                        0 <= i < rest.len() && #[trigger] rest[i] == (EntryView {
                            provider_id,
                            model_id,
                            info,
                        }) && forall|j: int|
                            i < j < rest.len() ==> (#[trigger] rest[j]).provider_id != provider_id
                                || rest[j].model_id != model_id;
                    assert(entries[i] == (EntryView { provider_id, model_id, info }));
                    assert forall|j: int| i < j < entries.len() implies (
                    #[trigger] entries[j]).provider_id != provider_id || entries[j].model_id
                        != model_id by {
                        if j < n {
                            assert(rest[j] == entries[j]);
                        }
                    }
                },
                None => {
                    assert forall|j: int| 0 <= j < entries.len() implies (
                    #[trigger] entries[j]).provider_id != provider_id || entries[j].model_id
                        != model_id by {
                        if j < n {
                            assert(rest[j] == entries[j]);
                        }
                    }
                },
            }
        }
    }
}

/// What is known under several names is told of each of them, in their order,
/// and nothing else is.
pub proof fn law_known_names_are_told(catalog: CatalogView, names: Seq<Seq<char>>)
    ensures
        forall|i: int|
            0 <= i < names.len() && textmap::has_key(catalog.canonical_models, #[trigger] names[i])
                ==> catalog.infos(names).contains(
                textmap::lookup(catalog.canonical_models, names[i])->Some_0,
            ),
        catalog.infos(names).len() == names.filter(
            |name: Seq<char>| textmap::has_key(catalog.canonical_models, name),
        ).len(),
    decreases names.len(),
{
    reveal(Seq::filter);
    if names.len() > 0 {
        let rest = names.drop_last();
        let n = names.len() - 1;
        law_known_names_are_told(catalog, rest);
        let before = catalog.infos(rest);
        let after = catalog.infos(names);
        assert forall|i: int|
            0 <= i < names.len() && textmap::has_key(
                catalog.canonical_models,
                #[trigger] names[i],
            ) implies after.contains(
            textmap::lookup(catalog.canonical_models, names[i])->Some_0,
        ) by {
            let info = textmap::lookup(catalog.canonical_models, names[i])->Some_0;
            if i < n {
                assert(rest[i] == names[i]);
                let k = choose|k: int| 0 <= k < before.len() && before[k] == info;
                assert(after[k] == info);
            } else {
                assert(after[before.len() as int] == info);
            }
        }
    }
}

} // verus!
