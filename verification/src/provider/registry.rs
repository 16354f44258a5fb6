//! The registry: which provider a model's requests go to, and how.
use crate::agent::event::AgentEvent;
use crate::agent::event::EventView;
use crate::agent::message;
use crate::agent::message::Message;
use crate::agent::message::MessageView;
use crate::config::catalog;
use crate::config::catalog::ModelConfigView;
use crate::config::catalog::ModelRef;
use crate::config::catalog::ModelRefView;
use crate::config::catalog::ProviderCatalog;
use crate::config::catalog::ProviderCatalogView;
use crate::config::catalog::ProviderConfig;
use crate::config::catalog::ProviderConfigView;
use crate::config::catalog::SecretValue;
use crate::provider;
use crate::provider::models_dev::ModelLimit;
use crate::provider::thinking;
use crate::provider::thinking::CapabilitiesView;
use crate::provider::thinking::NormalizedThinking;
use crate::provider::thinking::NormalizedView;
use crate::provider::thinking::ThinkingCapabilities;
use crate::provider::thinking::ThinkingLevel;
use crate::provider::wire;
use crate::provider::OpenAiApi;
use crate::text;
use crate::textmap;
use crate::textmap::TextMap;
use std::collections::hash_map::DefaultHasher;
use std::hash::Hasher;
use vstd::prelude::*;
use vstd::std_specs::hash::DefaultHasherAdditionalSpecFns;
use vstd::string::*;
use vstd::utf8::*;

verus! {

/// Where the requests of a provider go, and with which key.
pub struct OpenAiProvider {
    pub endpoint: String,
    pub api_key: SecretValue,
    pub api: OpenAiApi,
}

/// What an [`OpenAiProvider`] holds.
#[verifier::ext_equal]
pub struct OpenAiProviderView {
    pub endpoint: Seq<char>,
    pub api_key: Seq<char>,
    pub api: OpenAiApi,
}

impl View for OpenAiProvider {
    type V = OpenAiProviderView;

    open spec fn view(&self) -> OpenAiProviderView {
        OpenAiProviderView { endpoint: self.endpoint@, api_key: self.api_key@, api: self.api }
    }
}

/// The provider at a base URL.
pub open spec fn provider_at(base_url: Seq<char>, api_key: Seq<char>, api: OpenAiApi) ->
    OpenAiProviderView {
    OpenAiProviderView {
        endpoint: wire::endpoint_of(base_url, provider::api_endpoint(api)),
        api_key,
        api,
    }
}

impl OpenAiProvider {
    pub fn new(base_url: &str, api_key: &str, api: OpenAiApi) -> (r: OpenAiProvider)
        ensures
            r@ == provider_at(base_url@, api_key@, api),
    {
        OpenAiProvider {
            endpoint: wire::endpoint_url(base_url, api.endpoint()),
            api_key: SecretValue::new(api_key.to_owned()),
            api,
        }
    }

    pub fn api(&self) -> (r: OpenAiApi)
        ensures
            r == self@.api,
    {
        self.api
    }

    /// A copy of this.
    pub fn copy(&self) -> (r: OpenAiProvider)
        ensures
            r@ == self@,
    {
        OpenAiProvider {
            endpoint: self.endpoint.clone(),
            api_key: self.api_key.copy(),
            api: self.api,
        }
    }
}

/// What is registered of a model.
pub struct RegisteredModel {
    pub capabilities: ThinkingCapabilities,
    pub limit: Option<ModelLimit>,
}

/// What a [`RegisteredModel`] holds.
#[verifier::ext_equal]
pub struct RegisteredView {
    pub capabilities: CapabilitiesView,
    pub limit: Option<ModelLimit>,
}

impl View for RegisteredModel {
    type V = RegisteredView;

    open spec fn view(&self) -> RegisteredView {
        RegisteredView { capabilities: self.capabilities@, limit: self.limit }
    }
}

/// The providers by their IDs, and the models by their keys.
pub struct ProviderRegistry {
    providers: TextMap<OpenAiProvider>,
    models: TextMap<RegisteredModel>,
}

/// What a [`ProviderRegistry`] holds.
#[verifier::ext_equal]
pub struct RegistryView {
    pub providers: Seq<(Seq<char>, OpenAiProviderView)>,
    pub models: Seq<(Seq<char>, RegisteredView)>,
}

impl View for ProviderRegistry {
    type V = RegistryView;

    closed spec fn view(&self) -> RegistryView {
        RegistryView { providers: self.providers@, models: self.models@ }
    }
}

/// A registry that is to take another's place.
pub struct ProviderRegistryUpdate(pub ProviderRegistry);

/// The reference to a model of a provider.
pub open spec fn ref_to(provider: ProviderConfigView, model: ModelConfigView) -> ModelRefView {
    ModelRefView { provider_id: provider.id, model_id: model.id }
}

/// What is registered of a model.
pub open spec fn registered(catalog: ProviderCatalogView, target: ModelRefView) -> RegisteredView {
    RegisteredView { capabilities: catalog.capabilities(target), limit: catalog.limit(target) }
}

impl RegistryView {
    /// This registry with the models of a provider.
    pub open spec fn with_models(
        self,
        catalog: ProviderCatalogView,
        provider: ProviderConfigView,
        models: Seq<ModelConfigView>,
    ) -> RegistryView
        decreases models.len(),
    {
        if models.len() == 0 {
            self
        } else {
            let before = self.with_models(catalog, provider, models.drop_last());
            let target = ref_to(provider, models.last());
            RegistryView {
                models: textmap::inserted(
                    before.models,
                    target.key(),
                    registered(catalog, target),
                ),
                ..before
            }
        }
    }

    /// This registry with a provider and its models.
    pub open spec fn with_provider(
        self,
        catalog: ProviderCatalogView,
        provider: ProviderConfigView,
    ) -> RegistryView {
        (RegistryView {
            providers: textmap::inserted(
                self.providers,
                provider.id,
                provider_at(provider.base_url, provider.api_key, provider.openai_api),
            ),
            ..self
        }).with_models(catalog, provider, provider.models)
    }
}

/// The registry of the first `n` providers of a catalog.
pub open spec fn registry_of(catalog: ProviderCatalogView, n: nat) -> RegistryView
    decreases n,
{
    if n == 0 || n > catalog.providers.len() {
        RegistryView { providers: Seq::empty(), models: Seq::empty() }
    } else {
        registry_of(catalog, (n - 1) as nat).with_provider(catalog, catalog.providers[n - 1])
    }
}

/// Whether a registry knows a model of a catalog.
pub open spec fn knows(
    registry: RegistryView,
    catalog: ProviderCatalogView,
    target: ModelRefView,
) -> bool {
    textmap::lookup(registry.models, target.key()) == Some(registered(catalog, target))
}

/// Whether a reference can be told from every other one by its key.
pub open spec fn is_sound_ref(target: ModelRefView) -> bool {
    &&& target.provider_id.len() > 0
    &&& !target.provider_id.contains('/')
    &&& target.model_id.len() > 0
}

proof fn lemma_with_models(
    registry: RegistryView,
    catalog: ProviderCatalogView,
    provider: ProviderConfigView,
    models: Seq<ModelConfigView>,
)
    requires
        textmap::sorted(registry.models),
        forall|j: int|
            0 <= j < models.len() ==> is_sound_ref(ref_to(provider, #[trigger] models[j])),
    ensures
        textmap::sorted(registry.with_models(catalog, provider, models).models),
        registry.with_models(catalog, provider, models).providers == registry.providers,
        forall|j: int|
            0 <= j < models.len() ==> knows(
                registry.with_models(catalog, provider, models),
                catalog,
                ref_to(provider, #[trigger] models[j]),
            ),
        forall|target: ModelRefView|
            is_sound_ref(target) && #[trigger] knows(registry, catalog, target) ==> knows(
                registry.with_models(catalog, provider, models),
                catalog,
                target,
            ),
    decreases models.len(),
{
    if models.len() > 0 {
        let front = models.drop_last();
        assert forall|j: int| 0 <= j < front.len() implies is_sound_ref(
            ref_to(provider, #[trigger] front[j]),
        ) by {
            assert(front[j] == models[j]);
        }
        lemma_with_models(registry, catalog, provider, front);
        let before = registry.with_models(catalog, provider, front);
        let after = registry.with_models(catalog, provider, models);
        let added = ref_to(provider, models.last());
        assert(models.last() == models[models.len() - 1]);
        textmap::lemma_inserted(before.models, added.key(), registered(catalog, added));
        assert forall|target: ModelRefView|
            is_sound_ref(target) && #[trigger] knows(before, catalog, target) implies knows(
            after,
            catalog,
            target,
        ) by {
            if target.key() == added.key() {
                catalog::law_key_round_trip(target);
                catalog::law_key_round_trip(added);
            }
        }
        assert forall|j: int| 0 <= j < models.len() implies knows(
            after,
            catalog,
            ref_to(provider, #[trigger] models[j]),
        ) by {
            if j < front.len() {
                assert(front[j] == models[j]);
                assert(knows(before, catalog, ref_to(provider, front[j])));
            }
        }
    }
}

proof fn lemma_registry_of(catalog: ProviderCatalogView, n: nat)
    requires
        catalog::catalog_fault(catalog) is None,
        n <= catalog.providers.len(),
    ensures
        textmap::sorted(registry_of(catalog, n).models),
        textmap::sorted(registry_of(catalog, n).providers),
        forall|i: int, j: int|
            0 <= i < n && 0 <= j < catalog.providers[i].models.len() ==> knows(
                registry_of(catalog, n),
                catalog,
                #[trigger] ref_to(catalog.providers[i], catalog.providers[i].models[j]),
            ),
        forall|i: int|
            0 <= i < n ==> textmap::lookup(
                registry_of(catalog, n).providers,
                (#[trigger] catalog.providers[i]).id,
            ) == Some(
                provider_at(
                    catalog.providers[i].base_url,
                    catalog.providers[i].api_key,
                    catalog.providers[i].openai_api,
                ),
            ),
    decreases n,
{
    if n > 0 {
        let lower = registry_of(catalog, (n - 1) as nat);
        lemma_registry_of(catalog, (n - 1) as nat);
        let provider = catalog.providers[n - 1];
        let at = provider_at(provider.base_url, provider.api_key, provider.openai_api);
        textmap::lemma_inserted(lower.providers, provider.id, at);
        let begun = RegistryView {
            providers: textmap::inserted(lower.providers, provider.id, at),
            ..lower
        };
        assert forall|j: int| 0 <= j < provider.models.len() implies is_sound_ref(
            ref_to(provider, #[trigger] provider.models[j]),
        ) by {
            catalog::law_valid_catalog_keys(catalog, n - 1, j);
        }
        lemma_with_models(begun, catalog, provider, provider.models);
        let after = registry_of(catalog, n);
        assert(after == begun.with_models(catalog, provider, provider.models));
        assert forall|i: int, j: int|
            0 <= i < n && 0 <= j < catalog.providers[i].models.len() implies knows(
            after,
            catalog,
            #[trigger] ref_to(catalog.providers[i], catalog.providers[i].models[j]),
        ) by {
            let target = ref_to(catalog.providers[i], catalog.providers[i].models[j]);
            if i < n - 1 {
                catalog::law_valid_catalog_keys(catalog, i, j);
                assert(knows(lower, catalog, target));
                assert(knows(begun, catalog, target));
            }
        }
        assert forall|i: int| 0 <= i < n implies textmap::lookup(
            after.providers,
            (#[trigger] catalog.providers[i]).id,
        ) == Some(
            provider_at(
                catalog.providers[i].base_url,
                catalog.providers[i].api_key,
                catalog.providers[i].openai_api,
            ),
        ) by {
            if i < n - 1 {
                catalog::law_valid_catalog_names(catalog, i, n - 1);
            }
        }
    }
}

/// Every model of a valid catalog is registered under its key, with what the
/// catalog says of it, and so is its provider.
pub proof fn law_every_model_is_registered(catalog: ProviderCatalogView, i: int, j: int)
    requires
        catalog::catalog_fault(catalog) is None,
        0 <= i < catalog.providers.len(),
        0 <= j < catalog.providers[i].models.len(),
    ensures
        ({
            let registry = registry_of(catalog, catalog.providers.len());
            let provider = catalog.providers[i];
            let target = ref_to(provider, provider.models[j]);
            &&& registry.capabilities(target.key()) == catalog.capabilities(target)
            &&& registry.limit(target.key()) == catalog.limit(target)
            &&& textmap::lookup(registry.providers, provider.id) == Some(
                provider_at(provider.base_url, provider.api_key, provider.openai_api),
            )
        }),
{
    lemma_registry_of(catalog, catalog.providers.len());
    let provider = catalog.providers[i];
    assert(knows(
        registry_of(catalog, catalog.providers.len()),
        catalog,
        ref_to(provider, provider.models[j]),
    ));
}

/// How a request is to be made.
pub struct CompletionPlan {
    pub provider: OpenAiProvider,
    pub model_id: String,
    pub thinking: NormalizedThinking,
    pub messages: Vec<Message>,
}

/// What a [`CompletionPlan`] holds.
#[verifier::ext_equal]
pub struct PlanView {
    pub provider: OpenAiProviderView,
    pub model_id: Seq<char>,
    pub thinking: NormalizedView,
    pub messages: Seq<MessageView>,
}

impl View for CompletionPlan {
    type V = PlanView;

    open spec fn view(&self) -> PlanView {
        PlanView {
            provider: self.provider@,
            model_id: self.model_id@,
            thinking: self.thinking@,
            messages: text::views(self.messages@),
        }
    }
}

/// What is told of the level that a request gets.
pub open spec fn normalized_event(thinking: NormalizedView) -> EventView {
    EventView::ThinkingNormalized {
        requested: thinking.requested,
        clamped: thinking.clamped,
        effective: thinking.effective,
        provider_value: thinking.provider_value,
    }
}

impl RegistryView {
    /// How a request for a model is to be made, or why it cannot be.
    pub open spec fn plan(
        self,
        model: Seq<char>,
        level: ThinkingLevel,
        messages: Seq<MessageView>,
    ) -> Result<PlanView, Seq<char>> {
        if model.len() == 0 {
            Err("no active model configured; use /provider, then /model"@)
        } else {
            match text::split_once(model, "/"@) {
                None => Err("invalid model target "@ + text::debug_quoted(model)),
                Some((provider_id, model_id)) => match textmap::lookup(
                    self.providers,
                    provider_id,
                ) {
                    None => Err(
                        "provider "@ + text::debug_quoted(provider_id) + " is not configured"@,
                    ),
                    Some(found) => match textmap::lookup(self.models, model) {
                        None => Err(
                            "model target "@ + text::debug_quoted(model) + " is not configured"@,
                        ),
                        Some(known) => Ok(
                            PlanView {
                                provider: found,
                                model_id,
                                thinking: thinking::normalized(known.capabilities, level),
                                messages: messages.map_values(
                                    |m: MessageView|
                                        provider::sanitized(
                                            m,
                                            known.capabilities.supports_interleaved_thinking,
                                        ),
                                ),
                            },
                        ),
                    },
                },
            }
        }
    }

    /// What a model offers; the safe defaults where it is not registered.
    pub open spec fn capabilities(self, model: Seq<char>) -> CapabilitiesView {
        match textmap::lookup(self.models, model) {
            Some(known) => known.capabilities,
            None => thinking::default_capabilities(),
        }
    }

    pub open spec fn limit(self, model: Seq<char>) -> Option<ModelLimit> {
        match textmap::lookup(self.models, model) {
            Some(known) => known.limit,
            None => None,
        }
    }
}

impl ProviderRegistry {
    /// Both maps are in order.
    pub closed spec fn wf(&self) -> bool {
        self.providers.wf() && self.models.wf()
    }

    fn add_models(&mut self, catalog: &ProviderCatalog, provider: &ProviderConfig)
        requires
            old(self).wf(),
            catalog.wf(),
        ensures
            final(self).wf(),
            final(self)@ == old(self)@.with_models(catalog@, provider@, provider@.models),
    {
        let ghost before = self@;
        let ghost models = provider@.models;
        let mut i: usize = 0;
        while i < provider.models.len()
            invariant
                i <= provider.models@.len(),
                models == provider@.models,
                catalog.wf(),
                self.wf(),
                self@ == before.with_models(catalog@, provider@, models.take(i as int)),
            decreases provider.models@.len() - i,
        {
            assert(models.take(i as int + 1).drop_last() =~= models.take(i as int));
            assert(models.take(i as int + 1).last() == provider.models@[i as int]@);
            let target = ModelRef {
                provider_id: provider.id.clone(),
                model_id: provider.models[i].id.clone(),
            };
            let known = RegisteredModel {
                capabilities: catalog.thinking_capabilities(&target),
                limit: catalog.context_limit(&target),
            };
            assert(target@ =~= ref_to(provider@, provider.models@[i as int]@));
            assert(known@ =~= registered(catalog@, target@));
            self.models.insert(target.key(), known);
            i = i + 1;
        }
        assert(models.take(models.len() as int) =~= models);
    }

    /// The registry of a catalog.
    pub fn new(catalog: &ProviderCatalog) -> (r: ProviderRegistry)
        requires
            catalog.wf(),
        ensures
            r.wf(),
            r@ == registry_of(catalog@, catalog@.providers.len()),
    {
        let mut r = ProviderRegistry { providers: TextMap::new(), models: TextMap::new() };
        let mut i: usize = 0;
        assert(r@ =~= registry_of(catalog@, 0));
        while i < catalog.providers.len()
            invariant
                i <= catalog.providers@.len(),
                catalog.wf(),
                r.wf(),
                r@ == registry_of(catalog@, i as nat),
            decreases catalog.providers@.len() - i,
        {
            let provider = &catalog.providers[i];
            assert(catalog@.providers[i as int] == provider@);
            r.providers.insert(
                provider.id.clone(),
                OpenAiProvider::new(
                    provider.base_url.as_str(),
                    provider.api_key.expose(),
                    provider.openai_api,
                ),
            );
            r.add_models(catalog, provider);
            i = i + 1;
        }
        r
    }

    /// The registry of a changed catalog, to be put in place later.
    pub fn prepare_update(&self, catalog: &ProviderCatalog) -> (r: ProviderRegistryUpdate)
        requires
            catalog.wf(),
        ensures
            r.0.wf(),
            r.0@ == registry_of(catalog@, catalog@.providers.len()),
    {
        ProviderRegistryUpdate(ProviderRegistry::new(catalog))
    }

    /// Puts a prepared registry in place of this one.
    pub fn apply_update(&mut self, update: ProviderRegistryUpdate)
        requires
            update.0.wf(),
        ensures
            final(self).wf(),
            final(self)@ == update.0@,
    {
        *self = update.0;
    }

    /// What a model offers.
    pub fn thinking_capabilities(&self, model: &str) -> (r: ThinkingCapabilities)
        requires
            self.wf(),
        ensures
            r@ == self@.capabilities(model@),
    {
        match self.models.get(model) {
            Some(known) => known.capabilities.copy(),
            None => ThinkingCapabilities::default(),
        }
    }

    /// The limits of a model.
    pub fn context_limit(&self, model: &str) -> (r: Option<ModelLimit>)
        requires
            self.wf(),
        ensures
            r == self@.limit(model@),
    {
        match self.models.get(model) {
            Some(known) => known.limit,
            None => None,
        }
    }

    /// How a request for a model is to be made, and what is told of it.
    pub fn plan(
        &self,
        model: &str,
        thinking_level: ThinkingLevel,
        messages: &[Message],
        events: &mut Vec<AgentEvent>,
    ) -> (r: Result<CompletionPlan, String>)
        requires
            self.wf(),
        ensures
            text::res(r) == self@.plan(model@, thinking_level, text::views(messages@)),
            text::views(final(events)@) == match self@.plan(
                model@,
                thinking_level,
                text::views(messages@),
            ) {
                Ok(plan) => text::views(old(events)@).push(normalized_event(plan.thinking)),
                Err(_) => text::views(old(events)@),
            },
    {
        if text::char_count(model) == 0 {
            return Err("no active model configured; use /provider, then /model".to_owned());
        }
        let (provider_id, model_id) = match text::split_once_of(model, "/") {
            Some(parts) => parts,
            None => {
                let quoted = text::debug_text(model);
                return Err(text::concat("invalid model target ", quoted.as_str()));
            },
        };
        let found = match self.providers.get(provider_id.as_str()) {
            Some(found) => found,
            None => {
                let quoted = text::debug_text(provider_id.as_str());
                let mut message = text::concat("provider ", quoted.as_str());
                message.append(" is not configured");
                return Err(message);
            },
        };
        let known = match self.models.get(model) {
            Some(known) => known,
            None => {
                let quoted = text::debug_text(model);
                let mut message = text::concat("model target ", quoted.as_str());
                message.append(" is not configured");
                return Err(message);
            },
        };
        let normalized = thinking::normalize_thinking_level(&known.capabilities, thinking_level);
        crate::agent::event::tell(
            events,
            AgentEvent::ThinkingNormalized {
                requested: normalized.requested,
                clamped: normalized.clamped,
                effective: normalized.effective,
                provider_value: message::copy_text(&normalized.provider_value),
            },
        );
        let sent = provider::sanitize_messages(
            messages,
            known.capabilities.supports_interleaved_thinking,
        );
        let plan = CompletionPlan {
            provider: found.copy(),
            model_id,
            thinking: normalized,
            messages: sent,
        };
        assert(plan@.messages =~= text::views(messages@).map_values(
            |m: MessageView|
                provider::sanitized(m, known@.capabilities.supports_interleaved_thinking),
        ));
        Ok(plan)
    }
}

// ---------------------------------------------------------------------------
// Counting
// ---------------------------------------------------------------------------

pub const TOKEN_CACHE_ENTRIES: usize = 4;

/// The last counts of whole requests, by what tells the requests apart: a hash
/// and a length.
pub struct TokenCache {
    entries: Vec<(u64, usize, usize)>,
}

impl View for TokenCache {
    type V = Seq<(u64, usize, usize)>;

    closed spec fn view(&self) -> Seq<(u64, usize, usize)> {
        self.entries@
    }
}

/// The count that is kept for a key.
pub open spec fn cached(entries: Seq<(u64, usize, usize)>, hash: u64, length: usize) -> Option<
    usize,
>
    decreases entries.len(),
{
    if entries.len() == 0 {
        None
    } else if entries[0].0 == hash && entries[0].1 == length {
        Some(entries[0].2)
    } else {
        cached(entries.skip(1), hash, length)
    }
}

/// The entries with one more; of more than there is room for the oldest go.
pub open spec fn remembered(
    entries: Seq<(u64, usize, usize)>,
    entry: (u64, usize, usize),
) -> Seq<(u64, usize, usize)> {
    let all = entries.push(entry);
    if all.len() > TOKEN_CACHE_ENTRIES {
        all.skip(all.len() - TOKEN_CACHE_ENTRIES)
    } else {
        all
    }
}

proof fn lemma_cached_skip(entries: Seq<(u64, usize, usize)>, hash: u64, length: usize, i: int)
    requires
        0 <= i <= entries.len(),
        forall|j: int|
            0 <= j < i ==> !((#[trigger] entries[j]).0 == hash && entries[j].1 == length),
    ensures
        cached(entries, hash, length) == cached(entries.skip(i), hash, length),
    decreases i,
{
    if i == 0 {
        assert(entries.skip(0) =~= entries);
    } else {
        let rest = entries.skip(1);
        assert(!(entries[0].0 == hash && entries[0].1 == length));
        assert forall|j: int| 0 <= j < i - 1 implies !((#[trigger] rest[j]).0 == hash && rest[j].1
            == length) by {
            assert(rest[j] == entries[j + 1]);
        }
        lemma_cached_skip(rest, hash, length, i - 1);
        assert(rest.skip(i - 1) =~= entries.skip(i));
    }
}

proof fn lemma_not_cached(entries: Seq<(u64, usize, usize)>, hash: u64, length: usize, j: int)
    requires
        cached(entries, hash, length) is None,
        0 <= j < entries.len(),
    ensures
        !(entries[j].0 == hash && entries[j].1 == length),
    decreases j,
{
    if j > 0 {
        lemma_not_cached(entries.skip(1), hash, length, j - 1);
        assert(entries.skip(1)[j - 1] == entries[j]);
    }
}

/// A count that was just made is found the next time, and no more counts are
/// kept than there is room for.
pub proof fn law_counts_are_kept(
    entries: Seq<(u64, usize, usize)>,
    hash: u64,
    length: usize,
    tokens: usize,
)
    requires
        cached(entries, hash, length) is None,
    ensures
        remembered(entries, (hash, length, tokens)).len() <= TOKEN_CACHE_ENTRIES,
        cached(remembered(entries, (hash, length, tokens)), hash, length) == Some(tokens),
{
    let kept = remembered(entries, (hash, length, tokens));
    let all = entries.push((hash, length, tokens));
    let last = kept.len() - 1;
    let from = all.len() - kept.len();
    assert forall|j: int| 0 <= j < last implies !((#[trigger] kept[j]).0 == hash && kept[j].1
        == length) by {
        assert(kept[j] == entries[from + j]);
        lemma_not_cached(entries, hash, length, from + j);
    }
    lemma_cached_skip(kept, hash, length, last);
    assert(kept.skip(last)[0] == (hash, length, tokens));
}

impl TokenCache {
    pub fn new() -> (r: TokenCache)
        ensures
            r@ == Seq::<(u64, usize, usize)>::empty(),
    {
        TokenCache { entries: Vec::new() }
    }

    fn find(&self, hash: u64, length: usize) -> (r: Option<usize>)
        ensures
            r == cached(self@, hash, length),
    {
        let mut i: usize = 0;
        while i < self.entries.len()
            invariant
                i <= self.entries@.len(),
                self@ == self.entries@,
                forall|j: int|
                    0 <= j < i ==> !((#[trigger] self@[j]).0 == hash && self@[j].1 == length),
            decreases self.entries@.len() - i,
        {
            if self.entries[i].0 == hash && self.entries[i].1 == length {
                proof {
                    lemma_cached_skip(self@, hash, length, i as int);
                    assert(self@.skip(i as int)[0] == self@[i as int]);
                }
                return Some(self.entries[i].2);
            }
            i = i + 1;
        }
        proof {
            lemma_cached_skip(self@, hash, length, i as int);
        }
        None
    }

    /// The tokens of a request whose hash is `hash`: the count that is kept, or
    /// else a new one, which is kept.
    pub fn count_with_hash(&mut self, hash: u64, length: usize, body: &str) -> (r: usize)
        ensures
            match cached(old(self)@, hash, length) {
                Some(tokens) => r == tokens && final(self)@ == old(self)@,
                None => {
                    &&& r == message::token_count(body@)
                    &&& final(self)@ == remembered(old(self)@, (hash, length, r))
                },
            },
    {
        match self.find(hash, length) {
            Some(tokens) => {
                return tokens;
            },
            None => {},
        }
        let ghost before = self@;
        let tokens: usize = message::estimate_tokens(body);
        self.entries.push((hash, length, tokens));
        let ghost all = self.entries@;
        assert(all.skip(0) =~= all);
        while self.entries.len() > TOKEN_CACHE_ENTRIES
            invariant
                self.entries@.len() <= all.len(),
                all.len() > TOKEN_CACHE_ENTRIES ==> self.entries@.len() >= TOKEN_CACHE_ENTRIES,
                all.len() <= TOKEN_CACHE_ENTRIES ==> self.entries@ == all,
                self.entries@ == all.skip(all.len() - self.entries@.len()),
            decreases self.entries@.len(),
        {
            let ghost held = self.entries@;
            let _ = self.entries.remove(0);
            assert(self.entries@ =~= held.skip(1));
            assert(held.skip(1) =~= all.skip(all.len() - self.entries@.len()));
        }
        tokens
    }

    /// The tokens of a request: the count that is kept for its hash and its
    /// length, or else a new one, which is kept.
    pub fn count_body_tokens(&mut self, body: &str) -> (r: usize)
        ensures
            ({
                let bytes = encode_utf8(body@);
                match cached(old(self)@, hash_of(bytes), bytes.len() as usize) {
                    Some(tokens) => r == tokens && final(self)@ == old(self)@,
                    None => {
                        &&& r == message::token_count(body@)
                        &&& final(self)@ == remembered(
                            old(self)@,
                            (hash_of(bytes), bytes.len() as usize, r),
                        )
                    },
                }
            }),
    {
        let bytes = body.as_bytes();
        let length: usize = bytes.len();
        self.count_with_hash(body_hash(bytes), length, body)
    }
}

/// The hash of the bytes of a request.
pub open spec fn hash_of(bytes: Seq<u8>) -> u64 {
    DefaultHasher::spec_finish(seq![bytes])
}

fn body_hash(bytes: &[u8]) -> (r: u64)
    ensures
        r == hash_of(bytes@),
{
    let mut hasher = DefaultHasher::new();
    hasher.write(bytes);
    assert(hasher@ =~= seq![bytes@]);
    hasher.finish()
}

/// A request for a registered model is planned with its provider and all the
/// messages, in their order: each with its role, its content and its calls.
pub proof fn law_plans_have_every_message(
    registry: RegistryView,
    provider_id: Seq<char>,
    model_id: Seq<char>,
    level: ThinkingLevel,
    messages: Seq<MessageView>,
)
    requires
        provider_id.len() > 0,
        !provider_id.contains('/'),
        textmap::lookup(registry.providers, provider_id) is Some,
        textmap::lookup(registry.models, provider_id + "/"@ + model_id) is Some,
    ensures
        ({
            let plan = registry.plan(provider_id + "/"@ + model_id, level, messages);
            &&& plan is Ok
            &&& plan->Ok_0.provider == textmap::lookup(registry.providers, provider_id)->0
            &&& plan->Ok_0.model_id == model_id
            &&& plan->Ok_0.thinking.requested == level
            &&& plan->Ok_0.messages.len() == messages.len()
            &&& forall|i: int|
                0 <= i < messages.len() ==> {
                    let sent = plan->Ok_0.messages[i];
                    &&& sent.content() == (#[trigger] messages[i]).content()
                    &&& !(messages[i] is Assistant) ==> sent == messages[i]
                    &&& messages[i] is Assistant ==> sent is Assistant && sent->tool_calls
                        == messages[i]->tool_calls
                }
        }),
{
    let model = provider_id + "/"@ + model_id;
    let at = provider_id.len() as int;
    reveal_strlit("/");
    text::law_find(model, "/"@);
    assert(model.subrange(at, at + 1) =~= "/"@);
    if let Some(i) = text::find(model, "/"@) {
        if i < at {
            assert(model.subrange(i, i + 1)[0] == model[i]);
            assert(provider_id.contains(provider_id[i]));
        }
    }
    assert(model.take(at) =~= provider_id);
    assert(model.skip(at + 1) =~= model_id);
}

} // verus!
