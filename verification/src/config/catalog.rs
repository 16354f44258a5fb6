//! The configured providers and models.
use crate::provider::models_dev;
use crate::provider::models_dev::AliasView;
use crate::provider::models_dev::CatalogView;
use crate::provider::models_dev::ModelLimit;
use crate::provider::models_dev::ModelsDevCatalog;
use crate::provider::models_dev::ModelsDevProviderAlias;
use crate::provider::thinking;
use crate::provider::thinking::CapabilitiesView;
use crate::provider::thinking::ThinkingCapabilities;
use crate::provider::thinking::ThinkingCompat;
use crate::provider::thinking::ThinkingCompatView;
use crate::provider::thinking::ThinkingConfig;
use crate::provider::thinking::ThinkingConfigView;
use crate::provider::thinking::ThinkingLevel;
use crate::provider::OpenAiApi;
use crate::text;
use vstd::prelude::*;
use vstd::string::*;

verus! {

/// A model of a provider.
#[derive(Debug, PartialEq, Eq)]
pub struct ModelRef {
    pub provider_id: String,
    pub model_id: String,
}

/// What a [`ModelRef`] holds.
#[verifier::ext_equal]
pub struct ModelRefView {
    pub provider_id: Seq<char>,
    pub model_id: Seq<char>,
}

impl View for ModelRef {
    type V = ModelRefView;

    open spec fn view(&self) -> ModelRefView {
        ModelRefView { provider_id: self.provider_id@, model_id: self.model_id@ }
    }
}

impl ModelRefView {
    /// The one text that stands for this model.
    pub open spec fn key(self) -> Seq<char> {
        self.provider_id + "/"@ + self.model_id
    }
}

/// The model that a text stands for: what comes before and after its first
/// slash, neither of them empty.
pub open spec fn ref_of(value: Seq<char>) -> Option<ModelRefView> {
    match text::split_once(value, "/"@) {
        Some((provider_id, model_id)) => if provider_id.len() > 0 && model_id.len() > 0 {
            Some(ModelRefView { provider_id, model_id })
        } else {
            None
        },
        None => None,
    }
}

impl ModelRef {
    pub fn key(&self) -> (r: String)
        ensures
            r@ == self@.key(),
    {
        let mut r = self.provider_id.clone();
        r.append("/");
        r.append(self.model_id.as_str());
        r
    }

    pub fn from_key(value: &str) -> (r: Option<ModelRef>)
        ensures
            text::opt(r) == ref_of(value@),
    {
        match text::split_once_of(value, "/") {
            Some((provider_id, model_id)) => {
                if text::char_count(provider_id.as_str()) > 0 && text::char_count(
                    model_id.as_str(),
                ) > 0 {
                    Some(ModelRef { provider_id, model_id })
                } else {
                    None
                }
            },
            None => None,
        }
    }

    /// A copy of this.
    pub fn copy(&self) -> (r: ModelRef)
        ensures
            r@ == self@,
    {
        ModelRef { provider_id: self.provider_id.clone(), model_id: self.model_id.clone() }
    }
}

proof fn lemma_find_slash(s: Seq<char>, i: int, at: int)
    requires
        0 <= i <= at < s.len(),
        s[at] == '/',
        forall|j: int| i <= j < at ==> s[j] != '/',
    ensures
        text::find_from(s, "/"@, i) == Some(at),
    decreases at - i,
{
    reveal_strlit("/");
    assert(s.subrange(i, i + 1)[0] == s[i]);
    assert("/"@[0] == '/');
    if i == at {
        assert(s.subrange(i, i + 1) =~= "/"@);
    } else {
        lemma_find_slash(s, i + 1, at);
    }
}

/// The text for a model stands for that model, where its provider's ID has no
/// slash and neither ID is empty.
pub proof fn law_key_round_trip(target: ModelRefView)
    requires
        target.provider_id.len() > 0,
        target.model_id.len() > 0,
        !target.provider_id.contains('/'),
    ensures
        ref_of(target.key()) == Some(target),
{
    reveal_strlit("/");
    let key = target.key();
    let at = target.provider_id.len() as int;
    assert(key[at] == '/');
    assert forall|j: int| 0 <= j < at implies key[j] != '/' by {
        assert(key[j] == target.provider_id[j]);
    }
    lemma_find_slash(key, 0, at);
    assert(key.take(at) =~= target.provider_id);
    assert(key.skip(at + 1) =~= target.model_id);
}

/// A text that stands for a model is the text for that model.
pub proof fn law_ref_round_trip(value: Seq<char>)
    ensures
        ref_of(value) matches Some(target) ==> target.key() == value,
{
    reveal_strlit("/");
    if let Some(at) = text::find(value, "/"@) {
        lemma_found_at(value, "/"@, 0);
        assert(value.take(at) + "/"@ + value.skip(at + 1) =~= value) by {
            assert(value.subrange(at, at + 1) =~= "/"@);
            assert(value.subrange(at, at + 1)[0] == value[at]);
        }
    }
}

proof fn lemma_found_at(s: Seq<char>, p: Seq<char>, i: int)
    requires
        0 <= i,
    ensures
        text::find_from(s, p, i) matches Some(at) ==> text::occurs_at(s, p, at),
    decreases s.len() - i + 1,
{
    if i + p.len() <= s.len() && !text::occurs_at(s, p, i) {
        lemma_found_at(s, p, i + 1);
    }
}

/// A text that is not to be shown.
#[derive(PartialEq, Eq)]
pub struct SecretValue {
    value: String,
}

impl View for SecretValue {
    type V = Seq<char>;

    closed spec fn view(&self) -> Seq<char> {
        self.value@
    }
}

impl SecretValue {
    pub fn new(value: String) -> (r: SecretValue)
        ensures
            r@ == value@,
    {
        SecretValue { value }
    }

    pub fn expose(&self) -> (r: &str)
        ensures
            r@ == self@,
    {
        self.value.as_str()
    }

    /// Whether there is nothing but space in it.
    pub fn is_empty(&self) -> (r: bool)
        ensures
            r == blank(self@),
    {
        is_blank(self.value.as_str())
    }

    /// What is shown in place of the value.
    pub fn debug_text(&self) -> (r: String)
        ensures
            r@ == "<redacted>"@,
    {
        "<redacted>".to_owned()
    }

    /// A copy of this.
    pub fn copy(&self) -> (r: SecretValue)
        ensures
            r@ == self@,
    {
        SecretValue { value: self.value.clone() }
    }
}

/// Whether `s` holds nothing but space.
pub open spec fn blank(s: Seq<char>) -> bool {
    text::trim(s).len() == 0
}

pub fn is_blank(s: &str) -> (r: bool)
    ensures
        r == blank(s@),
{
    let trimmed = text::trim_of(s);
    text::char_count(trimmed.as_str()) == 0
}

#[derive(Debug, PartialEq, Eq)]
pub struct ModelConfig {
    pub id: String,
    pub display_name: String,
    pub thinking: Option<ThinkingConfig>,
    pub compat: Option<ThinkingCompat>,
    pub context_window: Option<u64>,
}

/// What a [`ModelConfig`] holds.
#[verifier::ext_equal]
pub struct ModelConfigView {
    pub id: Seq<char>,
    pub display_name: Seq<char>,
    pub thinking: Option<ThinkingConfigView>,
    pub compat: Option<ThinkingCompatView>,
    pub context_window: Option<u64>,
}

impl View for ModelConfig {
    type V = ModelConfigView;

    open spec fn view(&self) -> ModelConfigView {
        ModelConfigView {
            id: self.id@,
            display_name: self.display_name@,
            thinking: text::opt(self.thinking),
            compat: text::opt(self.compat),
            context_window: self.context_window,
        }
    }
}

fn copy_thinking(thinking: &Option<ThinkingConfig>) -> (r: Option<ThinkingConfig>)
    ensures
        text::opt(r) == text::opt(*thinking),
{
    match thinking {
        Some(thinking) => Some(thinking.copy()),
        None => None,
    }
}

fn copy_compat(compat: &Option<ThinkingCompat>) -> (r: Option<ThinkingCompat>)
    ensures
        text::opt(r) == text::opt(*compat),
{
    match compat {
        Some(compat) => Some(compat.copy()),
        None => None,
    }
}

impl ModelConfig {
    /// A copy of this.
    pub fn copy(&self) -> (r: ModelConfig)
        ensures
            r@ == self@,
    {
        ModelConfig {
            id: self.id.clone(),
            display_name: self.display_name.clone(),
            thinking: copy_thinking(&self.thinking),
            compat: copy_compat(&self.compat),
            context_window: self.context_window,
        }
    }
}

#[derive(PartialEq, Eq)]
pub struct ProviderConfig {
    pub id: String,
    pub display_name: String,
    pub base_url: String,
    pub api_key: SecretValue,
    pub openai_api: OpenAiApi,
    pub thinking: Option<ThinkingConfig>,
    pub compat: Option<ThinkingCompat>,
    pub models: Vec<ModelConfig>,
}

/// What a [`ProviderConfig`] holds.
#[verifier::ext_equal]
pub struct ProviderConfigView {
    pub id: Seq<char>,
    pub display_name: Seq<char>,
    pub base_url: Seq<char>,
    pub api_key: Seq<char>,
    pub openai_api: OpenAiApi,
    pub thinking: Option<ThinkingConfigView>,
    pub compat: Option<ThinkingCompatView>,
    pub models: Seq<ModelConfigView>,
}

impl View for ProviderConfig {
    type V = ProviderConfigView;

    open spec fn view(&self) -> ProviderConfigView {
        ProviderConfigView {
            id: self.id@,
            display_name: self.display_name@,
            base_url: self.base_url@,
            api_key: self.api_key@,
            openai_api: self.openai_api,
            thinking: text::opt(self.thinking),
            compat: text::opt(self.compat),
            models: text::views(self.models@),
        }
    }
}

impl ProviderConfig {
    /// A copy of this.
    pub fn copy(&self) -> (r: ProviderConfig)
        ensures
            r@ == self@,
    {
        let ghost goal = text::views(self.models@);
        let mut models: Vec<ModelConfig> = Vec::new();
        let mut i: usize = 0;
        while i < self.models.len()
            invariant
                i <= self.models@.len(),
                goal == text::views(self.models@),
                text::views(models@) == goal.take(i as int),
            decreases self.models@.len() - i,
        {
            let model = self.models[i].copy();
            proof {
                text::lemma_views_push(models@, model);
            }
            models.push(model);
            i = i + 1;
            assert(text::views(models@) =~= goal.take(i as int));
        }
        assert(goal.take(goal.len() as int) =~= goal);
        ProviderConfig {
            id: self.id.clone(),
            display_name: self.display_name.clone(),
            base_url: self.base_url.clone(),
            api_key: self.api_key.copy(),
            openai_api: self.openai_api,
            thinking: copy_thinking(&self.thinking),
            compat: copy_compat(&self.compat),
            models,
        }
    }
}

/// A copy of each of `providers`.
pub fn copy_providers(providers: &Vec<ProviderConfig>) -> (r: Vec<ProviderConfig>)
    ensures
        text::views(r@) == text::views(providers@),
{
    let ghost goal = text::views(providers@);
    let mut r: Vec<ProviderConfig> = Vec::new();
    let mut i: usize = 0;
    while i < providers.len()
        invariant
            i <= providers@.len(),
            goal == text::views(providers@),
            text::views(r@) == goal.take(i as int),
        decreases providers@.len() - i,
    {
        let provider = providers[i].copy();
        proof {
            text::lemma_views_push(r@, provider);
        }
        r.push(provider);
        i = i + 1;
        assert(text::views(r@) =~= goal.take(i as int));
    }
    assert(goal.take(goal.len() as int) =~= goal);
    r
}

/// A copy of an optional reference.
pub fn copy_ref(target: &Option<ModelRef>) -> (r: Option<ModelRef>)
    ensures
        text::opt(r) == text::opt(*target),
{
    match target {
        Some(target) => Some(target.copy()),
        None => None,
    }
}

/// The configured providers, and what is known of models.
#[derive(PartialEq, Eq)]
pub struct ProviderCatalog {
    pub active_model: Option<ModelRef>,
    pub providers: Vec<ProviderConfig>,
    pub models_dev: ModelsDevCatalog,
    pub models_dev_aliases: Vec<ModelsDevProviderAlias>,
}

/// What a [`ProviderCatalog`] holds.
#[verifier::ext_equal]
pub struct ProviderCatalogView {
    pub active_model: Option<ModelRefView>,
    pub providers: Seq<ProviderConfigView>,
    pub models_dev: CatalogView,
    pub models_dev_aliases: Seq<AliasView>,
}

impl View for ProviderCatalog {
    type V = ProviderCatalogView;

    open spec fn view(&self) -> ProviderCatalogView {
        ProviderCatalogView {
            active_model: text::opt(self.active_model),
            providers: text::views(self.providers@),
            models_dev: self.models_dev@,
            models_dev_aliases: text::views(self.models_dev_aliases@),
        }
    }
}

impl Default for ProviderCatalog {
    fn default() -> (r: ProviderCatalog)
        ensures
            r.wf(),
            r@.active_model is None,
            r@.providers == Seq::<ProviderConfigView>::empty(),
            r@.models_dev == models_dev::empty_catalog(),
            r@.models_dev_aliases == Seq::<AliasView>::empty(),
    {
        let r = ProviderCatalog {
            active_model: None,
            providers: Vec::new(),
            models_dev: ModelsDevCatalog::default(),
            models_dev_aliases: Vec::new(),
        };
        assert(r@.providers =~= Seq::<ProviderConfigView>::empty());
        assert(r@.models_dev_aliases =~= Seq::<AliasView>::empty());
        r
    }
}

/// A model that can be chosen.
#[derive(Debug, PartialEq, Eq)]
pub struct ModelChoice {
    pub target: ModelRef,
    pub provider_name: String,
    pub model_name: String,
    pub thinking: ThinkingCapabilities,
}

/// What a [`ModelChoice`] holds.
#[verifier::ext_equal]
pub struct ModelChoiceView {
    pub target: ModelRefView,
    pub provider_name: Seq<char>,
    pub model_name: Seq<char>,
    pub thinking: CapabilitiesView,
}

impl View for ModelChoice {
    type V = ModelChoiceView;

    open spec fn view(&self) -> ModelChoiceView {
        ModelChoiceView {
            target: self.target@,
            provider_name: self.provider_name@,
            model_name: self.model_name@,
            thinking: self.thinking@,
        }
    }
}

// ---------------------------------------------------------------------------
// Looking up
// ---------------------------------------------------------------------------

/// An address in the form in which addresses are compared: without the version
/// and the slashes at its end, in lower case.
pub open spec fn normalized_url(value: Seq<char>) -> Option<Seq<char>> {
    let url = text::trim_end_matches(
        text::trim_end_matches(text::trim_end_matches(text::trim(value), "/"@), "/v1"@),
        "/"@,
    );
    if url.len() == 0 {
        None
    } else {
        Some(text::ascii_lowercase(url))
    }
}

/// The first alias, from number `i` on, with the address `url`.
pub open spec fn alias_with(aliases: Seq<AliasView>, url: Seq<char>, i: int) -> Option<Seq<char>>
    decreases aliases.len() - i,
{
    if i < 0 || i >= aliases.len() {
        None
    } else if aliases[i].api is Some && normalized_url(aliases[i].api->0) == Some(url) {
        Some(aliases[i].id)
    } else {
        alias_with(aliases, url, i + 1)
    }
}

/// The first provider named `id`, from number `i` on.
pub open spec fn provider_at(
    providers: Seq<ProviderConfigView>,
    id: Seq<char>,
    i: int,
) -> Option<int>
    decreases providers.len() - i,
{
    if i < 0 || i >= providers.len() {
        None
    } else if providers[i].id == id {
        Some(i)
    } else {
        provider_at(providers, id, i + 1)
    }
}

/// The first model named `id`, from number `i` on.
pub open spec fn model_at(models: Seq<ModelConfigView>, id: Seq<char>, i: int) -> Option<int>
    decreases models.len() - i,
{
    if i < 0 || i >= models.len() {
        None
    } else if models[i].id == id {
        Some(i)
    } else {
        model_at(models, id, i + 1)
    }
}

impl ProviderCatalogView {
    pub open spec fn provider(self, id: Seq<char>) -> Option<ProviderConfigView> {
        match provider_at(self.providers, id, 0) {
            Some(i) => Some(self.providers[i]),
            None => None,
        }
    }

    pub open spec fn model(self, target: ModelRefView) -> Option<
        (ProviderConfigView, ModelConfigView),
    > {
        match self.provider(target.provider_id) {
            None => None,
            Some(provider) => match model_at(provider.models, target.model_id, 0) {
                Some(i) => Some((provider, provider.models[i])),
                None => None,
            },
        }
    }

    /// The listed provider that has the address of a configured one.
    pub open spec fn matched(self, provider: ProviderConfigView) -> Option<Seq<char>> {
        match normalized_url(provider.base_url) {
            None => None,
            Some(url) => alias_with(self.models_dev_aliases, url, 0),
        }
    }

    /// What is listed of a model: under the provider's ID, else under the
    /// listed provider that has its address, else what all listings of its name
    /// offer together.
    pub open spec fn listed(
        self,
        provider: ProviderConfigView,
        model: ModelConfigView,
    ) -> Option<CapabilitiesView> {
        let own = self.models_dev.listed_capabilities(provider.id, model.id);
        let by_address = match self.matched(provider) {
            Some(id) => self.models_dev.listed_capabilities(id, model.id),
            None => None,
        };
        if own is Some {
            own
        } else if by_address is Some {
            by_address
        } else {
            self.models_dev.shared_capabilities(model.id)
        }
    }

    /// The limits that are listed of a model: under the provider's ID, else what
    /// all listings of its name allow together, else under the listed provider
    /// that has its address.
    pub open spec fn listed_limit(
        self,
        provider: ProviderConfigView,
        model: ModelConfigView,
    ) -> Option<ModelLimit> {
        match self.models_dev.limits(provider.id, model.id) {
            Some(limit) => Some(limit),
            None => match self.matched(provider) {
                Some(id) => self.models_dev.limits(id, model.id),
                None => None,
            },
        }
    }

    /// What is discovered of a model: what is listed of it, else the safe
    /// defaults.
    pub open spec fn discovered(
        self,
        provider: ProviderConfigView,
        model: ModelConfigView,
    ) -> CapabilitiesView {
        match self.listed(provider, model) {
            Some(capabilities) => capabilities,
            None => thinking::default_capabilities(),
        }
    }

    /// What a model offers: what is discovered of it, then the provider's
    /// configuration, then its own.
    pub open spec fn resolved(
        self,
        provider: ProviderConfigView,
        model: ModelConfigView,
    ) -> CapabilitiesView {
        self.discovered(provider, model).applied(provider.thinking, provider.compat).applied(
            model.thinking,
            model.compat,
        )
    }

    pub open spec fn capabilities(self, target: ModelRefView) -> CapabilitiesView {
        match self.model(target) {
            Some((provider, model)) => self.resolved(provider, model),
            None => thinking::default_capabilities(),
        }
    }

    /// The limits of a model: the configured window, else what is listed.
    pub open spec fn limit(self, target: ModelRefView) -> Option<ModelLimit> {
        match self.model(target) {
            None => None,
            Some((provider, model)) => match model.context_window {
                Some(context) => Some(ModelLimit { context, output: None }),
                None => self.listed_limit(provider, model),
            },
        }
    }

    pub open spec fn ready(self) -> bool {
        self.active_model matches Some(active) && self.model(active) is Some
    }

    pub open spec fn choice(
        self,
        provider: ProviderConfigView,
        model: ModelConfigView,
    ) -> ModelChoiceView {
        ModelChoiceView {
            target: ModelRefView { provider_id: provider.id, model_id: model.id },
            provider_name: provider.display_name,
            model_name: model.display_name,
            thinking: self.resolved(provider, model),
        }
    }

    /// The choices that the first `providers` of the providers give.
    pub open spec fn choices_of(self, providers: nat) -> Seq<ModelChoiceView>
        decreases providers,
    {
        if providers == 0 || providers > self.providers.len() {
            Seq::empty()
        } else {
            let provider = self.providers[providers - 1];
            self.choices_of((providers - 1) as nat) + provider.models.map_values(
                |model: ModelConfigView| self.choice(provider, model),
            )
        }
    }
}

/// An address in the form in which addresses are compared.
pub fn normalize_api_url(value: &str) -> (r: Option<String>)
    ensures
        text::opt(r) == normalized_url(value@),
{
    let trimmed = text::trim_of(value);
    let plain = text::trim_end_matches_of(trimmed.as_str(), "/");
    let bare = text::trim_end_matches_of(plain.as_str(), "/v1");
    let url = text::trim_end_matches_of(bare.as_str(), "/");
    if text::char_count(url.as_str()) == 0 {
        None
    } else {
        Some(text::ascii_lowercase_of(url.as_str()))
    }
}

impl ProviderCatalog {
    pub open spec fn wf(&self) -> bool {
        self.models_dev.wf()
    }

    /// The configured provider named `provider_id`.
    pub fn provider(&self, provider_id: &str) -> (r: Option<&ProviderConfig>)
        ensures
            match r {
                Some(provider) => self@.provider(provider_id@) == Some(provider@),
                None => self@.provider(provider_id@) is None,
            },
    {
        let mut i: usize = 0;
        while i < self.providers.len()
            invariant
                i <= self.providers@.len(),
                provider_at(self@.providers, provider_id@, 0) == provider_at(
                    self@.providers,
                    provider_id@,
                    i as int,
                ),
            decreases self.providers@.len() - i,
        {
            assert(self@.providers[i as int] == self.providers@[i as int]@);
            if text::same(self.providers[i].id.as_str(), provider_id) {
                return Some(&self.providers[i]);
            }
            i = i + 1;
        }
        None
    }

    /// The configured model that `target` names, and its provider.
    pub fn model(&self, target: &ModelRef) -> (r: Option<(&ProviderConfig, &ModelConfig)>)
        ensures
            match r {
                Some((provider, model)) => self@.model(target@) == Some((provider@, model@)),
                None => self@.model(target@) is None,
            },
    {
        let provider = match self.provider(target.provider_id.as_str()) {
            Some(provider) => provider,
            None => {
                return None;
            },
        };
        let mut i: usize = 0;
        while i < provider.models.len()
            invariant
                i <= provider.models@.len(),
                self@.provider(target@.provider_id) == Some(provider@),
                model_at(provider@.models, target@.model_id, 0) == model_at(
                    provider@.models,
                    target@.model_id,
                    i as int,
                ),
            decreases provider.models@.len() - i,
        {
            assert(provider@.models[i as int] == provider.models@[i as int]@);
            if text::same(provider.models[i].id.as_str(), target.model_id.as_str()) {
                return Some((provider, &provider.models[i]));
            }
            i = i + 1;
        }
        None
    }

    pub fn contains(&self, target: &ModelRef) -> (r: bool)
        ensures
            r == (self@.model(target@) is Some),
    {
        self.model(target).is_some()
    }

    /// The listed provider that has the address of a configured one.
    pub fn matched_models_dev_provider(&self, provider: &ProviderConfig) -> (r: Option<&str>)
        ensures
            match r {
                Some(id) => self@.matched(provider@) == Some(id@),
                None => self@.matched(provider@) is None,
            },
    {
        let url = match normalize_api_url(provider.base_url.as_str()) {
            Some(url) => url,
            None => {
                return None;
            },
        };
        let mut i: usize = 0;
        while i < self.models_dev_aliases.len()
            invariant
                i <= self.models_dev_aliases@.len(),
                normalized_url(provider@.base_url) == Some(url@),
                alias_with(self@.models_dev_aliases, url@, 0) == alias_with(
                    self@.models_dev_aliases,
                    url@,
                    i as int,
                ),
            decreases self.models_dev_aliases@.len() - i,
        {
            let candidate = &self.models_dev_aliases[i];
            assert(self@.models_dev_aliases[i as int] == candidate@);
            let same = match &candidate.api {
                Some(api) => match normalize_api_url(api.as_str()) {
                    Some(api) => text::same(api.as_str(), url.as_str()),
                    None => false,
                },
                None => false,
            };
            if same {
                return Some(candidate.id.as_str());
            }
            i = i + 1;
        }
        None
    }

    fn listed_thinking(&self, provider: &ProviderConfig, model: &ModelConfig) -> (r: Option<
        ThinkingCapabilities,
    >)
        requires
            self.wf(),
        ensures
            text::opt(r) == self@.listed(provider@, model@),
    {
        let model_id = model.id.as_str();
        match self.models_dev.listed_capabilities(provider.id.as_str(), model_id) {
            Some(capabilities) => {
                return Some(capabilities);
            },
            None => {},
        }
        match self.matched_models_dev_provider(provider) {
            Some(id) => match self.models_dev.listed_capabilities(id, model_id) {
                Some(capabilities) => {
                    return Some(capabilities);
                },
                None => {},
            },
            None => {},
        }
        self.models_dev.unique_model_capabilities(model_id)
    }

    fn listed_limit(&self, provider: &ProviderConfig, model: &ModelConfig) -> (r: Option<
        ModelLimit,
    >)
        requires
            self.wf(),
        ensures
            r == self@.listed_limit(provider@, model@),
    {
        let model_id = model.id.as_str();
        match self.models_dev.limits(provider.id.as_str(), model_id) {
            Some(limit) => Some(limit),
            None => match self.matched_models_dev_provider(provider) {
                Some(id) => self.models_dev.limits(id, model_id),
                None => None,
            },
        }
    }

    fn resolved_thinking(&self, provider: &ProviderConfig, model: &ModelConfig) -> (r:
        ThinkingCapabilities)
        requires
            self.wf(),
        ensures
            r@ == self@.resolved(provider@, model@),
    {
        let mut capabilities = match self.listed_thinking(provider, model) {
            Some(capabilities) => capabilities,
            None => ThinkingCapabilities::default(),
        };
        capabilities.apply(provider.thinking.as_ref(), provider.compat.as_ref());
        capabilities.apply(model.thinking.as_ref(), model.compat.as_ref());
        capabilities
    }

    /// What the model that `target` names offers.
    pub fn thinking_capabilities(&self, target: &ModelRef) -> (r: ThinkingCapabilities)
        requires
            self.wf(),
        ensures
            r@ == self@.capabilities(target@),
    {
        match self.model(target) {
            Some((provider, model)) => self.resolved_thinking(provider, model),
            None => ThinkingCapabilities::default(),
        }
    }

    /// The limits of the model that `target` names.
    pub fn context_limit(&self, target: &ModelRef) -> (r: Option<ModelLimit>)
        requires
            self.wf(),
        ensures
            r == self@.limit(target@),
    {
        match self.model(target) {
            None => None,
            Some((provider, model)) => match model.context_window {
                Some(context) => Some(ModelLimit { context, output: None }),
                None => self.listed_limit(provider, model),
            },
        }
    }

    fn push_choices(&self, provider: &ProviderConfig, choices: &mut Vec<ModelChoice>)
        requires
            self.wf(),
        ensures
            text::views(final(choices)@) == text::views(old(choices)@)
                + provider@.models.map_values(
                |model: ModelConfigView| self@.choice(provider@, model),
            ),
    {
        let ghost before = text::views(choices@);
        let ghost goal = provider@.models.map_values(
            |model: ModelConfigView| self@.choice(provider@, model),
        );
        let mut i: usize = 0;
        assert(before + goal.take(0) =~= before);
        while i < provider.models.len()
            invariant
                i <= provider.models@.len(),
                self.wf(),
                goal == provider@.models.map_values(
                    |model: ModelConfigView| self@.choice(provider@, model),
                ),
                text::views(choices@) == before + goal.take(i as int),
            decreases provider.models@.len() - i,
        {
            let model = &provider.models[i];
            let choice = ModelChoice {
                target: ModelRef { provider_id: provider.id.clone(), model_id: model.id.clone() },
                provider_name: provider.display_name.clone(),
                model_name: model.display_name.clone(),
                thinking: self.resolved_thinking(provider, model),
            };
            assert(provider@.models[i as int] == model@);
            assert(choice@ =~= self@.choice(provider@, model@));
            proof {
                text::lemma_views_push(choices@, choice);
            }
            choices.push(choice);
            i = i + 1;
            assert(text::views(choices@) =~= before + goal.take(i as int));
        }
        assert(goal.take(goal.len() as int) =~= goal);
    }

    /// Every configured model, provider by provider.
    pub fn choices(&self) -> (r: Vec<ModelChoice>)
        requires
            self.wf(),
        ensures
            text::views(r@) == self@.choices_of(self@.providers.len()),
    {
        let mut r: Vec<ModelChoice> = Vec::new();
        let mut i: usize = 0;
        assert(text::views(r@) =~= Seq::<ModelChoiceView>::empty());
        while i < self.providers.len()
            invariant
                i <= self.providers@.len(),
                self.wf(),
                text::views(r@) == self@.choices_of(i as nat),
            decreases self.providers@.len() - i,
        {
            assert(self@.providers[i as int] == self.providers@[i as int]@);
            self.push_choices(&self.providers[i], &mut r);
            i = i + 1;
        }
        r
    }

    /// Whether there is an active model, and it is configured.
    pub fn has_ready_model(&self) -> (r: bool)
        ensures
            r == self@.ready(),
    {
        match &self.active_model {
            Some(active) => self.contains(active),
            None => false,
        }
    }
}

// ---------------------------------------------------------------------------
// Validation
// ---------------------------------------------------------------------------

/// What is wrong with the configured levels of an owner.
pub open spec fn levels_fault(owner: Seq<char>, config: ThinkingConfigView) -> Option<Seq<char>> {
    if config.min_level == ThinkingLevel::Off {
        Some(owner + " thinking.min_level must not be off"@)
    } else if thinking::rank(config.min_level) > thinking::rank(config.max_level) {
        Some(
            owner + " thinking.min_level "@ + thinking::level_name(config.min_level)
                + " exceeds max_level "@ + thinking::level_name(config.max_level),
        )
    } else {
        match config.supported {
            None => None,
            Some(supported) => if supported.len() == 0 {
                Some(owner + " thinking.supported must not be empty"@)
            } else if !within(supported, config.min_level, config.max_level) {
                Some(
                    owner + " thinking.supported levels must be between "@ + thinking::level_name(
                        config.min_level,
                    ) + " and "@ + thinking::level_name(config.max_level),
                )
            } else if !supported.no_duplicates() {
                Some(owner + " thinking.supported must not contain duplicates"@)
            } else if !supported.contains(config.min_level) || !supported.contains(
                config.max_level,
            ) {
                Some(owner + " thinking.supported must contain min_level and max_level"@)
            } else {
                None
            },
        }
    }
}

/// Whether every level but Off is between `min` and `max`.
pub open spec fn within(
    levels: Seq<ThinkingLevel>,
    min: ThinkingLevel,
    max: ThinkingLevel,
) -> bool {
    forall|i: int|
        0 <= i < levels.len() && levels[i] != ThinkingLevel::Off ==> thinking::rank(min)
            <= thinking::rank(#[trigger] levels[i]) <= thinking::rank(max)
}

/// Whether a configuration of levels, where there is one, has the level.
pub open spec fn allowed(config: Option<ThinkingConfigView>, level: ThinkingLevel) -> bool {
    match config {
        None => true,
        Some(config) => thinking::rank(config.min_level) <= thinking::rank(level)
            <= thinking::rank(config.max_level) && match config.supported {
            Some(supported) => supported.contains(level),
            None => true,
        },
    }
}

/// What is wrong with the word for one level.
pub open spec fn word_fault(
    owner: Seq<char>,
    config: Option<ThinkingConfigView>,
    level: ThinkingLevel,
    word: Seq<char>,
) -> Option<Seq<char>> {
    if level == ThinkingLevel::Off {
        Some(owner + " reasoning_effort_map must not map off"@)
    } else if blank(word) {
        Some(
            owner + " reasoning_effort_map value for "@ + thinking::level_name(level)
                + " must not be empty"@,
        )
    } else if !allowed(config, level) {
        Some(
            owner + " reasoning_effort_map contains unsupported level "@ + thinking::level_name(
                level,
            ),
        )
    } else {
        None
    }
}

/// The first fault among the words, from number `i` of the levels on.
pub open spec fn words_fault(
    owner: Seq<char>,
    config: Option<ThinkingConfigView>,
    words: Map<ThinkingLevel, Seq<char>>,
    i: int,
) -> Option<Seq<char>>
    decreases 7 - i,
{
    if i < 0 || i >= 7 {
        None
    } else {
        let level = thinking::ladder()[i];
        let fault = if words.contains_key(level) {
            word_fault(owner, config, level, words[level])
        } else {
            None
        };
        match fault {
            Some(message) => Some(message),
            None => words_fault(owner, config, words, i + 1),
        }
    }
}

/// What is wrong with what an owner says of thinking.
pub open spec fn thinking_fault(
    owner: Seq<char>,
    config: Option<ThinkingConfigView>,
    compat: Option<ThinkingCompatView>,
) -> Option<Seq<char>> {
    let levels = match config {
        Some(config) => levels_fault(owner, config),
        None => None,
    };
    match (levels, compat) {
        (Some(message), _) => Some(message),
        (None, Some(compat)) => words_fault(owner, config, compat.reasoning_effort_map, 0),
        (None, None) => None,
    }
}

/// Whether a model before number `i` has its name.
pub open spec fn model_repeated(models: Seq<ModelConfigView>, i: int) -> bool {
    exists|j: int| 0 <= j < i && (#[trigger] models[j]).id == models[i].id
}

/// Whether a provider before number `i` has its name.
pub open spec fn provider_repeated(providers: Seq<ProviderConfigView>, i: int) -> bool {
    exists|j: int| 0 <= j < i && (#[trigger] providers[j]).id == providers[i].id
}

/// What is wrong with model number `i` of a provider.
pub open spec fn model_fault(provider: ProviderConfigView, i: int) -> Option<Seq<char>> {
    let model = provider.models[i];
    if blank(model.id) {
        Some("model ID must not be empty for provider "@ + provider.id)
    } else if blank(model.display_name) {
        Some("model display name must not be empty for "@ + provider.id + "/"@ + model.id)
    } else if model_repeated(provider.models, i) {
        Some(
            "model ID "@ + text::debug_quoted(model.id) + " is duplicated for provider "@
                + provider.id,
        )
    } else {
        thinking_fault(
            "model "@ + provider.id + "/"@ + model.id,
            model.thinking,
            model.compat,
        )
    }
}

/// The first fault among the models, from number `i` on.
pub open spec fn models_fault(provider: ProviderConfigView, i: int) -> Option<Seq<char>>
    decreases provider.models.len() - i,
{
    if i < 0 || i >= provider.models.len() {
        None
    } else {
        match model_fault(provider, i) {
            Some(message) => Some(message),
            None => models_fault(provider, i + 1),
        }
    }
}

/// What is wrong with provider number `i`.
pub open spec fn provider_fault(providers: Seq<ProviderConfigView>, i: int) -> Option<Seq<char>> {
    let provider = providers[i];
    if blank(provider.id) {
        Some("provider ID must not be empty"@)
    } else if provider.id.contains('/') {
        Some("provider ID "@ + text::debug_quoted(provider.id) + " must not contain '/'"@)
    } else if blank(provider.display_name) {
        Some("provider display name must not be empty"@)
    } else if blank(provider.base_url) {
        Some("provider base URL must not be empty"@)
    } else if blank(provider.api_key) {
        Some("provider "@ + provider.id + " API key must not be empty"@)
    } else if provider_repeated(providers, i) {
        Some("provider ID "@ + text::debug_quoted(provider.id) + " is duplicated"@)
    } else {
        match models_fault(provider, 0) {
            Some(message) => Some(message),
            None => thinking_fault(
                "provider "@ + provider.id,
                provider.thinking,
                provider.compat,
            ),
        }
    }
}

/// The first fault among the providers, from number `i` on.
pub open spec fn providers_fault(providers: Seq<ProviderConfigView>, i: int) -> Option<Seq<char>>
    decreases providers.len() - i,
{
    if i < 0 || i >= providers.len() {
        None
    } else {
        match provider_fault(providers, i) {
            Some(message) => Some(message),
            None => providers_fault(providers, i + 1),
        }
    }
}

/// What is wrong with a catalog.
pub open spec fn catalog_fault(catalog: ProviderCatalogView) -> Option<Seq<char>> {
    match providers_fault(catalog.providers, 0) {
        Some(message) => Some(message),
        None => match catalog.active_model {
            Some(active) => if catalog.model(active) is None {
                Some("active model "@ + active.key() + " is not configured"@)
            } else {
                None
            },
            None => None,
        },
    }
}

proof fn lemma_no_model_fault(provider: ProviderConfigView, i: int, j: int)
    requires
        models_fault(provider, i) is None,
        0 <= i <= j < provider.models.len(),
    ensures
        model_fault(provider, j) is None,
    decreases j - i,
{
    if i < j {
        lemma_no_model_fault(provider, i + 1, j);
    }
}

/// The models of a valid catalog have names by which they are found again.
pub proof fn law_valid_catalog_keys(catalog: ProviderCatalogView, i: int, j: int)
    requires
        catalog_fault(catalog) is None,
        0 <= i < catalog.providers.len(),
        0 <= j < catalog.providers[i].models.len(),
    ensures
        catalog.providers[i].id.len() > 0,
        !catalog.providers[i].id.contains('/'),
        catalog.providers[i].models[j].id.len() > 0,
{
    lemma_no_provider_fault(catalog.providers, 0, i);
    lemma_no_model_fault(catalog.providers[i], 0, j);
}

/// In a catalog without a fault every model is told apart by its text: no two
/// providers share a name, and no name of one has a slash.
pub proof fn law_valid_catalog_names(catalog: ProviderCatalogView, i: int, j: int)
    requires
        catalog_fault(catalog) is None,
        0 <= i < j < catalog.providers.len(),
    ensures
        catalog.providers[i].id != catalog.providers[j].id,
        !catalog.providers[i].id.contains('/'),
        !catalog.providers[j].id.contains('/'),
{
    lemma_no_provider_fault(catalog.providers, 0, i);
    lemma_no_provider_fault(catalog.providers, 0, j);
    if catalog.providers[i].id == catalog.providers[j].id {
        assert(provider_repeated(catalog.providers, j));
    }
}

proof fn lemma_provider_at(providers: Seq<ProviderConfigView>, from: int, i: int)
    requires
        0 <= from <= i < providers.len(),
        forall|j: int| from <= j < i ==> (#[trigger] providers[j]).id != providers[i].id,
    ensures
        provider_at(providers, providers[i].id, from) == Some(i),
    decreases i - from,
{
    if from < i {
        lemma_provider_at(providers, from + 1, i);
    }
}

proof fn lemma_model_at(models: Seq<ModelConfigView>, from: int, i: int)
    requires
        0 <= from <= i < models.len(),
        forall|j: int| from <= j < i ==> (#[trigger] models[j]).id != models[i].id,
    ensures
        model_at(models, models[i].id, from) == Some(i),
    decreases i - from,
{
    if from < i {
        lemma_model_at(models, from + 1, i);
    }
}

/// Which model of which provider a choice is for.
proof fn lemma_choice_place(catalog: ProviderCatalogView, providers: nat, n: int) -> (place: (
    int,
    int,
))
    requires
        providers <= catalog.providers.len(),
        0 <= n < catalog.choices_of(providers).len(),
    ensures
        0 <= place.0 < providers,
        0 <= place.1 < catalog.providers[place.0].models.len(),
        n == catalog.choices_of(place.0 as nat).len() + place.1,
        catalog.choices_of(providers)[n] == catalog.choice(
            catalog.providers[place.0],
            catalog.providers[place.0].models[place.1],
        ),
    decreases providers,
{
    let before = catalog.choices_of((providers - 1) as nat);
    if n < before.len() {
        lemma_choice_place(catalog, (providers - 1) as nat, n)
    } else {
        (providers - 1, n - before.len())
    }
}

/// Every choice that a valid catalog offers is a model that is found in it by
/// the choice's target, and says what that model offers.
pub proof fn law_choices_are_contained(catalog: ProviderCatalogView, n: int)
    requires
        catalog_fault(catalog) is None,
        0 <= n < catalog.choices_of(catalog.providers.len()).len(),
    ensures
        ({
            let choice = catalog.choices_of(catalog.providers.len())[n];
            &&& catalog.model(choice.target) matches Some((provider, model))
            &&& choice == catalog.choice(provider, model)
            &&& choice.thinking == catalog.capabilities(choice.target)
        }),
{
    let (i, j) = lemma_choice_place(catalog, catalog.providers.len(), n);
    let provider = catalog.providers[i];
    lemma_no_provider_fault(catalog.providers, 0, i);
    lemma_no_model_fault(provider, 0, j);
    assert(!provider_repeated(catalog.providers, i));
    assert(!model_repeated(provider.models, j));
    lemma_provider_at(catalog.providers, 0, i);
    lemma_model_at(provider.models, 0, j);
}

/// The texts for the choices of a valid catalog are told apart, and each stands
/// for its choice.
pub proof fn law_choices_are_told_apart(catalog: ProviderCatalogView, n: int, m: int)
    requires
        catalog_fault(catalog) is None,
        0 <= n < catalog.choices_of(catalog.providers.len()).len(),
        0 <= m < catalog.choices_of(catalog.providers.len()).len(),
    ensures
        ({
            let choices = catalog.choices_of(catalog.providers.len());
            &&& ref_of(choices[n].target.key()) == Some(choices[n].target)
            &&& choices[n].target.key() == choices[m].target.key() ==> n == m
        }),
{
    let choices = catalog.choices_of(catalog.providers.len());
    let (i, j) = lemma_choice_place(catalog, catalog.providers.len(), n);
    let (k, l) = lemma_choice_place(catalog, catalog.providers.len(), m);
    law_valid_catalog_keys(catalog, i, j);
    law_valid_catalog_keys(catalog, k, l);
    law_key_round_trip(choices[n].target);
    law_key_round_trip(choices[m].target);
    if choices[n].target.key() == choices[m].target.key() {
        if i < k {
            law_valid_catalog_names(catalog, i, k);
        } else if k < i {
            law_valid_catalog_names(catalog, k, i);
        }
        lemma_no_provider_fault(catalog.providers, 0, i);
        let models = catalog.providers[i].models;
        if j < l {
            lemma_no_model_fault(catalog.providers[i], 0, l);
            assert(models[j].id == models[l].id);
            assert(model_repeated(models, l));
        } else if l < j {
            lemma_no_model_fault(catalog.providers[i], 0, j);
            assert(models[l].id == models[j].id);
            assert(model_repeated(models, j));
        }
    }
}

pub proof fn lemma_no_provider_fault(providers: Seq<ProviderConfigView>, from: int, i: int)
    requires
        0 <= from <= i < providers.len(),
        providers_fault(providers, from) is None,
    ensures
        provider_fault(providers, i) is None,
    decreases i - from,
{
    if from < i {
        lemma_no_provider_fault(providers, from + 1, i);
    }
}

fn join3(a: &str, b: &str, c: &str) -> (r: String)
    ensures
        r@ == a@ + b@ + c@,
{
    let mut r = a.to_owned();
    r.append(b);
    r.append(c);
    r
}

fn join4(a: &str, b: &str, c: &str, d: &str) -> (r: String)
    ensures
        r@ == a@ + b@ + c@ + d@,
{
    let mut r = join3(a, b, c);
    r.append(d);
    r
}

fn levels_within(levels: &Vec<ThinkingLevel>, min: ThinkingLevel, max: ThinkingLevel) -> (r: bool)
    ensures
        r == within(levels@, min, max),
{
    let mut i: usize = 0;
    while i < levels.len()
        invariant
            i <= levels@.len(),
            forall|j: int|
                0 <= j < i && levels@[j] != ThinkingLevel::Off ==> thinking::rank(min)
                    <= thinking::rank(#[trigger] levels@[j]) <= thinking::rank(max),
        decreases levels@.len() - i,
    {
        let level = levels[i];
        if level != ThinkingLevel::Off && (level.rank() < min.rank() || level.rank()
            > max.rank()) {
            assert(levels@[i as int] == level);
            return false;
        }
        i = i + 1;
    }
    true
}

fn has_duplicates(levels: &Vec<ThinkingLevel>) -> (r: bool)
    ensures
        r == !levels@.no_duplicates(),
{
    let mut i: usize = 0;
    while i < levels.len()
        invariant
            i <= levels@.len(),
            forall|a: int, b: int|
                0 <= a < b < i ==> #[trigger] levels@[a] != #[trigger] levels@[b],
        decreases levels@.len() - i,
    {
        let mut j: usize = 0;
        while j < i
            invariant
                j <= i < levels@.len(),
                forall|a: int| 0 <= a < j ==> #[trigger] levels@[a] != levels@[i as int],
            decreases i - j,
        {
            if levels[j] == levels[i] {
                assert(levels@[j as int] == levels@[i as int]);
                return true;
            }
            j = j + 1;
        }
        i = i + 1;
    }
    false
}

fn check_levels(owner: &str, config: &ThinkingConfig) -> (r: Result<(), String>)
    ensures
        match r {
            Ok(_) => levels_fault(owner@, config@) is None,
            Err(message) => levels_fault(owner@, config@) == Some(message@),
        },
{
    if config.min_level == ThinkingLevel::Off {
        return Err(text::concat(owner, " thinking.min_level must not be off"));
    }
    let low = config.min_level.name();
    let high = config.max_level.name();
    if config.min_level.rank() > config.max_level.rank() {
        let mut message = join4(owner, " thinking.min_level ", low, " exceeds max_level ");
        message.append(high);
        return Err(message);
    }
    match &config.supported {
        None => Ok(()),
        Some(supported) => {
            if supported.len() == 0 {
                return Err(text::concat(owner, " thinking.supported must not be empty"));
            }
            if !levels_within(supported, config.min_level, config.max_level) {
                let mut message = join4(
                    owner,
                    " thinking.supported levels must be between ",
                    low,
                    " and ",
                );
                message.append(high);
                return Err(message);
            }
            if has_duplicates(supported) {
                return Err(
                    text::concat(owner, " thinking.supported must not contain duplicates"),
                );
            }
            if !thinking::contains_level(supported, config.min_level) || !thinking::contains_level(
                supported,
                config.max_level,
            ) {
                return Err(
                    text::concat(
                        owner,
                        " thinking.supported must contain min_level and max_level",
                    ),
                );
            }
            Ok(())
        },
    }
}

fn is_allowed(config: &Option<ThinkingConfig>, level: ThinkingLevel) -> (r: bool)
    ensures
        r == allowed(text::opt(*config), level),
{
    match config {
        None => true,
        Some(config) => {
            if level.rank() < config.min_level.rank() || level.rank() > config.max_level.rank() {
                return false;
            }
            match &config.supported {
                Some(supported) => thinking::contains_level(supported, level),
                None => true,
            }
        },
    }
}

fn check_words(owner: &str, config: &Option<ThinkingConfig>, compat: &ThinkingCompat) -> (r: Result<
    (),
    String,
>)
    ensures
        match r {
            Ok(_) => words_fault(
                owner@,
                text::opt(*config),
                compat@.reasoning_effort_map,
                0,
            ) is None,
            Err(message) => words_fault(
                owner@,
                text::opt(*config),
                compat@.reasoning_effort_map,
                0,
            ) == Some(message@),
        },
{
    let levels = thinking::ladder_levels();
    let mut i: usize = 0;
    while i < levels.len()
        invariant
            i <= levels@.len(),
            levels@ == thinking::ladder(),
            words_fault(owner@, text::opt(*config), compat@.reasoning_effort_map, 0)
                == words_fault(
                owner@,
                text::opt(*config),
                compat@.reasoning_effort_map,
                i as int,
            ),
        decreases levels@.len() - i,
    {
        let level = levels[i];
        match compat.reasoning_effort_map.get(&level) {
            None => {},
            Some(word) => {
                if level == ThinkingLevel::Off {
                    return Err(text::concat(owner, " reasoning_effort_map must not map off"));
                }
                if is_blank(word.as_str()) {
                    return Err(
                        join4(
                            owner,
                            " reasoning_effort_map value for ",
                            level.name(),
                            " must not be empty",
                        ),
                    );
                }
                if !is_allowed(config, level) {
                    return Err(
                        join3(
                            owner,
                            " reasoning_effort_map contains unsupported level ",
                            level.name(),
                        ),
                    );
                }
            },
        }
        i = i + 1;
    }
    Ok(())
}

/// Whether what an owner says of thinking is in order.
pub fn validate_thinking(
    owner: &str,
    config: &Option<ThinkingConfig>,
    compat: &Option<ThinkingCompat>,
) -> (r: Result<(), String>)
    ensures
        match r {
            Ok(_) => thinking_fault(owner@, text::opt(*config), text::opt(*compat)) is None,
            Err(message) => thinking_fault(owner@, text::opt(*config), text::opt(*compat)) == Some(
                message@,
            ),
        },
{
    match config {
        Some(config) => match check_levels(owner, config) {
            Err(message) => {
                return Err(message);
            },
            Ok(_) => {},
        },
        None => {},
    }
    match compat {
        Some(compat) => check_words(owner, config, compat),
        None => Ok(()),
    }
}

fn model_id_repeated(models: &Vec<ModelConfig>, i: usize) -> (r: bool)
    requires
        i < models@.len(),
    ensures
        r == model_repeated(text::views(models@), i as int),
{
    let ghost model = text::views(models@);
    let mut j: usize = 0;
    while j < i
        invariant
            j <= i < models@.len(),
            model == text::views(models@),
            forall|k: int| 0 <= k < j ==> (#[trigger] model[k]).id != model[i as int].id,
        decreases i - j,
    {
        assert(model[j as int] == models@[j as int]@);
        assert(model[i as int] == models@[i as int]@);
        if text::same(models[j].id.as_str(), models[i].id.as_str()) {
            return true;
        }
        j = j + 1;
    }
    false
}

fn provider_id_repeated(providers: &Vec<ProviderConfig>, i: usize) -> (r: bool)
    requires
        i < providers@.len(),
    ensures
        r == provider_repeated(text::views(providers@), i as int),
{
    let ghost model = text::views(providers@);
    let mut j: usize = 0;
    while j < i
        invariant
            j <= i < providers@.len(),
            model == text::views(providers@),
            forall|k: int| 0 <= k < j ==> (#[trigger] model[k]).id != model[i as int].id,
        decreases i - j,
    {
        assert(model[j as int] == providers@[j as int]@);
        assert(model[i as int] == providers@[i as int]@);
        if text::same(providers[j].id.as_str(), providers[i].id.as_str()) {
            return true;
        }
        j = j + 1;
    }
    false
}

fn check_model(provider: &ProviderConfig, i: usize) -> (r: Result<(), String>)
    requires
        i < provider.models@.len(),
    ensures
        match r {
            Ok(_) => model_fault(provider@, i as int) is None,
            Err(message) => model_fault(provider@, i as int) == Some(message@),
        },
{
    let model = &provider.models[i];
    assert(provider@.models[i as int] == model@);
    if is_blank(model.id.as_str()) {
        return Err(
            text::concat("model ID must not be empty for provider ", provider.id.as_str()),
        );
    }
    if is_blank(model.display_name.as_str()) {
        return Err(
            join4(
                "model display name must not be empty for ",
                provider.id.as_str(),
                "/",
                model.id.as_str(),
            ),
        );
    }
    if model_id_repeated(&provider.models, i) {
        let quoted = text::debug_text(model.id.as_str());
        return Err(
            join4(
                "model ID ",
                quoted.as_str(),
                " is duplicated for provider ",
                provider.id.as_str(),
            ),
        );
    }
    let owner = join4("model ", provider.id.as_str(), "/", model.id.as_str());
    validate_thinking(owner.as_str(), &model.thinking, &model.compat)
}

fn check_provider(providers: &Vec<ProviderConfig>, i: usize) -> (r: Result<(), String>)
    requires
        i < providers@.len(),
    ensures
        match r {
            Ok(_) => provider_fault(text::views(providers@), i as int) is None,
            Err(message) => provider_fault(text::views(providers@), i as int) == Some(message@),
        },
{
    let provider = &providers[i];
    assert(text::views(providers@)[i as int] == provider@);
    if is_blank(provider.id.as_str()) {
        return Err("provider ID must not be empty".to_owned());
    }
    if models_dev::contains_slash(provider.id.as_str()) {
        let quoted = text::debug_text(provider.id.as_str());
        return Err(join3("provider ID ", quoted.as_str(), " must not contain '/'"));
    }
    if is_blank(provider.display_name.as_str()) {
        return Err("provider display name must not be empty".to_owned());
    }
    if is_blank(provider.base_url.as_str()) {
        return Err("provider base URL must not be empty".to_owned());
    }
    if provider.api_key.is_empty() {
        return Err(join3("provider ", provider.id.as_str(), " API key must not be empty"));
    }
    if provider_id_repeated(providers, i) {
        let quoted = text::debug_text(provider.id.as_str());
        return Err(join3("provider ID ", quoted.as_str(), " is duplicated"));
    }
    let mut j: usize = 0;
    while j < provider.models.len()
        invariant
            j <= provider.models@.len(),
            provider@ == text::views(providers@)[i as int],
            !blank(provider@.id),
            !provider@.id.contains('/'),
            !blank(provider@.display_name),
            !blank(provider@.base_url),
            !blank(provider@.api_key),
            !provider_repeated(text::views(providers@), i as int),
            models_fault(provider@, 0) == models_fault(provider@, j as int),
        decreases provider.models@.len() - j,
    {
        match check_model(provider, j) {
            Err(message) => {
                return Err(message);
            },
            Ok(_) => {},
        }
        j = j + 1;
    }
    let owner = text::concat("provider ", provider.id.as_str());
    validate_thinking(owner.as_str(), &provider.thinking, &provider.compat)
}

impl ProviderCatalog {
    /// Whether the catalog is in order, and what is wrong with it if not.
    pub fn validate(&self) -> (r: Result<(), String>)
        ensures
            match r {
                Ok(_) => catalog_fault(self@) is None,
                Err(message) => catalog_fault(self@) == Some(message@),
            },
    {
        let mut i: usize = 0;
        while i < self.providers.len()
            invariant
                i <= self.providers@.len(),
                providers_fault(self@.providers, 0) == providers_fault(
                    self@.providers,
                    i as int,
                ),
            decreases self.providers@.len() - i,
        {
            match check_provider(&self.providers, i) {
                Err(message) => {
                    return Err(message);
                },
                Ok(_) => {},
            }
            i = i + 1;
        }
        match &self.active_model {
            Some(active) => {
                if !self.contains(active) {
                    let key = active.key();
                    return Err(join3("active model ", key.as_str(), " is not configured"));
                }
            },
            None => {},
        }
        Ok(())
    }
}

/// Configured levels are sound where there is one to begin with above off, the
/// last is no lower, and those that are listed lie between them, each once, the
/// first and the last among them.
pub proof fn law_sound_levels_are_accepted(owner: Seq<char>, config: ThinkingConfigView)
    ensures
        levels_fault(owner, config) is None <==> {
            &&& config.min_level != ThinkingLevel::Off
            &&& thinking::rank(config.min_level) <= thinking::rank(config.max_level)
            &&& match config.supported {
                Some(supported) => {
                    &&& supported.contains(config.min_level)
                    &&& supported.contains(config.max_level)
                    &&& forall|i: int, j: int|
                        0 <= i < j < supported.len() ==> #[trigger] supported[i]
                            != #[trigger] supported[j]
                    &&& forall|i: int|
                        0 <= i < supported.len() ==> #[trigger] supported[i] == ThinkingLevel::Off
                            || thinking::rank(config.min_level) <= thinking::rank(supported[i])
                            <= thinking::rank(config.max_level)
                },
                None => true,
            }
        },
{
    if let Some(supported) = config.supported {
        if supported.no_duplicates() {
            assert forall|i: int, j: int| 0 <= i < j < supported.len() implies #[trigger]
                supported[i] != #[trigger] supported[j] by {}
        }
        if forall|i: int, j: int|
            0 <= i < j < supported.len() ==> #[trigger] supported[i] != #[trigger] supported[j] {
            assert forall|i: int, j: int|
                0 <= i < supported.len() && 0 <= j < supported.len() && i != j implies supported[i]
                != supported[j] by {
                if i < j {
                    assert(supported[i] != supported[j]);
                } else {
                    assert(supported[j] != supported[i]);
                }
            }
        }
    }
}

proof fn lemma_models_are_sound(provider: ProviderConfigView, from: int)
    requires
        0 <= from,
        forall|m: int|
            from <= m < provider.models.len() ==> #[trigger] model_fault(provider, m) is None,
    ensures
        models_fault(provider, from) is None,
    decreases provider.models.len() - from,
{
    if from < provider.models.len() {
        assert(model_fault(provider, from) is None);
        lemma_models_are_sound(provider, from + 1);
    }
}

/// A configured provider is accepted where it has an ID of its own without a
/// slash, a name, an address and a key, and its models and levels are sound.
pub proof fn law_sound_providers_are_accepted(providers: Seq<ProviderConfigView>, i: int)
    requires
        0 <= i < providers.len(),
    ensures
        ({
            let p = providers[i];
            provider_fault(providers, i) is None <==> {
                &&& text::trim(p.id).len() > 0
                &&& !p.id.contains('/')
                &&& text::trim(p.display_name).len() > 0
                &&& text::trim(p.base_url).len() > 0
                &&& text::trim(p.api_key).len() > 0
                &&& forall|j: int| 0 <= j < i ==> (#[trigger] providers[j]).id != p.id
                &&& forall|m: int| 0 <= m < p.models.len() ==> #[trigger] model_fault(p, m) is None
                &&& thinking_fault("provider "@ + p.id, p.thinking, p.compat) is None
            }
        }),
{
    let p = providers[i];
    if models_fault(p, 0) is None {
        assert forall|m: int| 0 <= m < p.models.len() implies #[trigger] model_fault(
            p,
            m,
        ) is None by {
            lemma_sound_model(p, 0, m);
        }
    }
    if forall|m: int| 0 <= m < p.models.len() ==> #[trigger] model_fault(p, m) is None {
        lemma_models_are_sound(p, 0);
    }
}

proof fn lemma_sound_model(provider: ProviderConfigView, from: int, m: int)
    requires
        0 <= from <= m < provider.models.len(),
        models_fault(provider, from) is None,
    ensures
        model_fault(provider, m) is None,
    decreases m - from,
{
    if from < m {
        lemma_sound_model(provider, from + 1, m);
    }
}

/// A configured model is accepted where it has an ID of its own and a name, and
/// its levels are sound.
pub proof fn law_sound_models_are_accepted(provider: ProviderConfigView, i: int)
    requires
        0 <= i < provider.models.len(),
    ensures
        ({
            let m = provider.models[i];
            model_fault(provider, i) is None <==> {
                &&& text::trim(m.id).len() > 0
                &&& text::trim(m.display_name).len() > 0
                &&& forall|j: int| 0 <= j < i ==> (#[trigger] provider.models[j]).id != m.id
                &&& thinking_fault(
                    "model "@ + provider.id + "/"@ + m.id,
                    m.thinking,
                    m.compat,
                ) is None
            }
        }),
{
}

} // verus!
