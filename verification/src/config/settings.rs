//! The settings that come of the files and the environment.
use crate::config::catalog;
use crate::config::catalog::ModelConfig;
use crate::config::catalog::ModelConfigView;
use crate::config::catalog::ModelRef;
use crate::config::catalog::ModelRefView;
use crate::config::catalog::ProviderCatalog;
use crate::config::catalog::ProviderCatalogView;
use crate::config::catalog::ProviderConfig;
use crate::config::catalog::ProviderConfigView;
use crate::config::catalog::SecretValue;
use crate::config::file::FileConfig;
use crate::config::file::FileConfigView;
use crate::config::file::FileMemoryConfig;
use crate::config::theme::ThemeConfig;
use crate::memory::config;
use crate::memory::config::MemoryConfig;
use crate::memory::config::MemoryMode;
use crate::provider;
use crate::provider::models_dev::AliasView;
use crate::provider::models_dev::CatalogView;
use crate::provider::models_dev::ModelsDevCatalog;
use crate::provider::models_dev::ModelsDevLoad;
use crate::provider::thinking;
use crate::provider::thinking::ThinkingLevel;
use crate::provider::OpenAiApi;
use crate::text;
use std::path::PathBuf;
use vstd::prelude::*;
use vstd::string::*;

verus! {

pub const DEFAULT_TOOL_TIMEOUT_SECONDS: u64 = 60;

pub const DEFAULT_AGENT_TIMEOUT_SECONDS: u64 = 600;

pub const DEFAULT_MAX_TURNS: usize = 12;

pub const DEFAULT_MAX_TOOL_OUTPUT_CHARS: usize = 32_000;

pub const DEFAULT_MAX_CONTEXT_TOKENS: usize = 120_000;

pub const DEFAULT_COMPACT_KEEP_TURNS: usize = 6;

// ---------------------------------------------------------------------------
// The environment
// ---------------------------------------------------------------------------

/// The variables of the environment that are set. One whose value is no text
/// has no value here.
pub struct Environment {
    pub entries: Vec<(String, Option<String>)>,
}

/// What the environment says of a variable.
pub enum Variable {
    Missing,
    Text(Seq<char>),
    NotText,
}

/// What an [`Environment`] says.
#[verifier::ext_equal]
pub struct EnvironmentView {
    pub entries: Seq<(Seq<char>, Option<Seq<char>>)>,
}

impl View for Environment {
    type V = EnvironmentView;

    open spec fn view(&self) -> EnvironmentView {
        EnvironmentView {
            entries: Seq::new(
                self.entries@.len(),
                |i: int| (self.entries@[i].0@, text::opt(self.entries@[i].1)),
            ),
        }
    }
}

impl EnvironmentView {
    /// The value of a variable, as the entries from number `i` on give it.
    pub open spec fn get_from(self, name: Seq<char>, i: int) -> Variable
        decreases self.entries.len() - i,
    {
        if i < 0 || i >= self.entries.len() {
            Variable::Missing
        } else if self.entries[i].0 == name {
            match self.entries[i].1 {
                Some(value) => Variable::Text(value),
                None => Variable::NotText,
            }
        } else {
            self.get_from(name, i + 1)
        }
    }

    pub open spec fn get(self, name: Seq<char>) -> Variable {
        self.get_from(name, 0)
    }

    /// The value of a variable where it is text and not blank.
    pub open spec fn filled(self, name: Seq<char>) -> Option<Seq<char>> {
        match self.get(name) {
            Variable::Text(value) => if catalog::blank(value) {
                None
            } else {
                Some(value)
            },
            _ => None,
        }
    }

    /// The value of the first of two variables that is text and not blank.
    pub open spec fn preferred(self, primary: Seq<char>, fallback: Seq<char>) -> Option<Seq<char>> {
        match self.filled(primary) {
            Some(value) => Some(value),
            None => self.filled(fallback),
        }
    }
}

/// What an environment says of a variable, in executable form.
enum Found<'a> {
    Missing,
    Text(&'a str),
    NotText,
}

impl Environment {
    fn find(&self, name: &str) -> (r: Found<'_>)
        ensures
            match r {
                Found::Missing => self@.get(name@) == Variable::Missing,
                Found::Text(value) => self@.get(name@) == Variable::Text(value@),
                Found::NotText => self@.get(name@) == Variable::NotText,
            },
    {
        let mut i: usize = 0;
        while i < self.entries.len()
            invariant
                i <= self.entries@.len(),
                self@.get(name@) == self@.get_from(name@, i as int),
            decreases self.entries@.len() - i,
        {
            assert(self@.entries[i as int] == (
                self.entries@[i as int].0@,
                text::opt(self.entries@[i as int].1),
            ));
            if text::same(self.entries[i].0.as_str(), name) {
                return match &self.entries[i].1 {
                    Some(value) => Found::Text(value.as_str()),
                    None => Found::NotText,
                };
            }
            i = i + 1;
        }
        Found::Missing
    }

    fn filled(&self, name: &str) -> (r: Option<String>)
        ensures
            text::opt(r) == self@.filled(name@),
    {
        match self.find(name) {
            Found::Text(value) => if catalog::is_blank(value) {
                None
            } else {
                Some(value.to_owned())
            },
            _ => None,
        }
    }

    /// The value of the first of two variables that is text and not blank.
    pub fn preferred(&self, primary: &str, fallback: &str) -> (r: Option<String>)
        ensures
            text::opt(r) == self@.preferred(primary@, fallback@),
    {
        match self.filled(primary) {
            Some(value) => Some(value),
            None => self.filled(fallback),
        }
    }
}

// ---------------------------------------------------------------------------
// One setting
// ---------------------------------------------------------------------------

/// What `u64::from_str` says of a text that it takes for no number.
pub uninterp spec fn u64_complaint(value: Seq<char>) -> Seq<char>;

/// What `usize::from_str` says of a text that it takes for no number.
pub uninterp spec fn usize_complaint(value: Seq<char>) -> Seq<char>;

/// `u64::from_str`: an optional plus sign and decimal digits, for a number in
/// the range of `u64`; anything else is an error, whose text is not described
/// further.
#[verifier::external_body]
fn read_u64(value: &str) -> (r: Result<u64, String>)
    ensures
        match r {
            Ok(n) => text::parse_decimal(value@, u64::MAX as nat) == Some(n as nat),
            Err(message) => text::parse_decimal(value@, u64::MAX as nat) is None && message@
                == u64_complaint(value@),
        },
{
    value.parse::<u64>().map_err(|error| error.to_string())
}

/// `usize::from_str`: an optional plus sign and decimal digits, for a number in
/// the range of `usize`; anything else is an error, whose text is not described
/// further.
#[verifier::external_body]
fn read_usize(value: &str) -> (r: Result<usize, String>)
    ensures
        match r {
            Ok(n) => text::parse_decimal(value@, usize::MAX as nat) == Some(n as nat),
            Err(message) => text::parse_decimal(value@, usize::MAX as nat) is None && message@
                == usize_complaint(value@),
        },
{
    value.parse::<usize>().map_err(|error| error.to_string())
}

/// What a text says as a `u64`.
pub open spec fn as_u64() -> spec_fn(Seq<char>) -> Result<u64, Seq<char>> {
    |value: Seq<char>|
        match text::parse_decimal(value, u64::MAX as nat) {
            Some(n) => Ok(n as u64),
            None => Err(u64_complaint(value)),
        }
}

/// What a text says as a `usize`.
pub open spec fn as_usize() -> spec_fn(Seq<char>) -> Result<usize, Seq<char>> {
    |value: Seq<char>|
        match text::parse_decimal(value, usize::MAX as nat) {
            Some(n) => Ok(n as usize),
            None => Err(usize_complaint(value)),
        }
}

/// What a text says as a `bool`.
pub open spec fn as_bool() -> spec_fn(Seq<char>) -> Result<bool, Seq<char>> {
    |value: Seq<char>|
        if value == "true"@ {
            Ok(true)
        } else if value == "false"@ {
            Ok(false)
        } else {
            Err("provided string was not `true` or `false`"@)
        }
}

/// What a text says as a mode of memory.
pub open spec fn as_mode() -> spec_fn(Seq<char>) -> Result<MemoryMode, Seq<char>> {
    |value: Seq<char>|
        match config::mode_of(value) {
            Some(mode) => Ok(mode),
            None => Err("memory.mode must be pointer_priority, summary, or hybrid"@),
        }
}

/// What a text says as a thinking level.
pub open spec fn as_level() -> spec_fn(Seq<char>) -> Result<ThinkingLevel, Seq<char>> {
    |value: Seq<char>|
        match thinking::level_of(value) {
            Some(level) => Ok(level),
            None => Err(thinking::level_complaint(value)),
        }
}

/// A setting: what the environment says, else what the files say, else the
/// default. A variable that is blank, is no text, or says nothing that `parse`
/// takes, is an error.
pub open spec fn setting<T>(
    env: EnvironmentView,
    name: Seq<char>,
    parse: spec_fn(Seq<char>) -> Result<T, Seq<char>>,
    file: Option<T>,
    default: T,
) -> Result<T, Seq<char>> {
    match env.get(name) {
        Variable::Missing => Ok(
            match file {
                Some(value) => value,
                None => default,
            },
        ),
        Variable::NotText => Err("failed to read "@ + name),
        Variable::Text(value) => if catalog::blank(value) {
            Err(name + " cannot be empty"@)
        } else {
            match parse(value) {
                Ok(parsed) => Ok(parsed),
                Err(complaint) => Err(name + " contains an invalid value: "@ + complaint),
            }
        },
    }
}

/// A setting under a name, or under its earlier name where the first is not
/// set.
pub open spec fn setting_or_legacy<T>(
    env: EnvironmentView,
    name: Seq<char>,
    legacy: Seq<char>,
    parse: spec_fn(Seq<char>) -> Result<T, Seq<char>>,
    file: Option<T>,
    default: T,
) -> Result<T, Seq<char>> {
    if env.get(name) == Variable::Missing {
        setting(env, legacy, parse, file, default)
    } else {
        setting(env, name, parse, file, default)
    }
}

pub open spec fn zero_complaint(name: Seq<char>) -> Seq<char> {
    name + " must be greater than zero"@
}

/// A number that must not be zero.
pub open spec fn positive_usize(name: Seq<char>, value: Result<usize, Seq<char>>) -> Result<
    usize,
    Seq<char>,
> {
    match value {
        Ok(n) => if n == 0 {
            Err(zero_complaint(name))
        } else {
            Ok(n)
        },
        Err(message) => Err(message),
    }
}

/// A number that must not be zero.
pub open spec fn positive_seconds(name: Seq<char>, value: Result<u64, Seq<char>>) -> Result<
    u64,
    Seq<char>,
> {
    match value {
        Ok(n) => if n == 0 {
            Err(zero_complaint(name))
        } else {
            Ok(n)
        },
        Err(message) => Err(message),
    }
}

/// The model of a result whose value is a plain one.
pub open spec fn plain<T>(r: Result<T, String>) -> Result<T, Seq<char>> {
    match r {
        Ok(value) => Ok(value),
        Err(message) => Err(message@),
    }
}

fn empty_message(name: &str) -> (r: String)
    ensures
        r@ == name@ + " cannot be empty"@,
{
    text::concat(name, " cannot be empty")
}

fn unread_message(name: &str) -> (r: String)
    ensures
        r@ == "failed to read "@ + name@,
{
    text::concat("failed to read ", name)
}

fn invalid_message(name: &str, complaint: &str) -> (r: String)
    ensures
        r@ == name@ + " contains an invalid value: "@ + complaint@,
{
    let mut r = text::concat(name, " contains an invalid value: ");
    r.append(complaint);
    r
}

fn zero_message(name: &str) -> (r: String)
    ensures
        r@ == zero_complaint(name@),
{
    text::concat(name, " must be greater than zero")
}

fn u64_setting(env: &Environment, name: &str, file: Option<u64>, default: u64) -> (r: Result<
    u64,
    String,
>)
    ensures
        plain(r) == setting(env@, name@, as_u64(), file, default),
{
    match env.find(name) {
        Found::Missing => Ok(
            match file {
                Some(value) => value,
                None => default,
            },
        ),
        Found::NotText => Err(unread_message(name)),
        Found::Text(value) => if catalog::is_blank(value) {
            Err(empty_message(name))
        } else {
            match read_u64(value) {
                Ok(n) => Ok(n),
                Err(complaint) => Err(invalid_message(name, complaint.as_str())),
            }
        },
    }
}

fn usize_setting(env: &Environment, name: &str, file: Option<usize>, default: usize) -> (r: Result<
    usize,
    String,
>)
    ensures
        plain(r) == setting(env@, name@, as_usize(), file, default),
{
    match env.find(name) {
        Found::Missing => Ok(
            match file {
                Some(value) => value,
                None => default,
            },
        ),
        Found::NotText => Err(unread_message(name)),
        Found::Text(value) => if catalog::is_blank(value) {
            Err(empty_message(name))
        } else {
            match read_usize(value) {
                Ok(n) => Ok(n),
                Err(complaint) => Err(invalid_message(name, complaint.as_str())),
            }
        },
    }
}

fn bool_setting(env: &Environment, name: &str, file: Option<bool>, default: bool) -> (r: Result<
    bool,
    String,
>)
    ensures
        plain(r) == setting(env@, name@, as_bool(), file, default),
{
    match env.find(name) {
        Found::Missing => Ok(
            match file {
                Some(value) => value,
                None => default,
            },
        ),
        Found::NotText => Err(unread_message(name)),
        Found::Text(value) => if catalog::is_blank(value) {
            Err(empty_message(name))
        } else if text::same(value, "true") {
            Ok(true)
        } else if text::same(value, "false") {
            Ok(false)
        } else {
            Err(invalid_message(name, "provided string was not `true` or `false`"))
        },
    }
}

fn mode_setting(
    env: &Environment,
    name: &str,
    file: Option<MemoryMode>,
    default: MemoryMode,
) -> (r: Result<MemoryMode, String>)
    ensures
        plain(r) == setting(env@, name@, as_mode(), file, default),
{
    match env.find(name) {
        Found::Missing => Ok(
            match file {
                Some(value) => value,
                None => default,
            },
        ),
        Found::NotText => Err(unread_message(name)),
        Found::Text(value) => if catalog::is_blank(value) {
            Err(empty_message(name))
        } else {
            match MemoryMode::parse(value) {
                Ok(mode) => Ok(mode),
                Err(complaint) => Err(invalid_message(name, complaint.as_str())),
            }
        },
    }
}

fn level_setting(
    env: &Environment,
    name: &str,
    file: Option<ThinkingLevel>,
    default: ThinkingLevel,
) -> (r: Result<ThinkingLevel, String>)
    ensures
        plain(r) == setting(env@, name@, as_level(), file, default),
{
    match env.find(name) {
        Found::Missing => Ok(
            match file {
                Some(value) => value,
                None => default,
            },
        ),
        Found::NotText => Err(unread_message(name)),
        Found::Text(value) => if catalog::is_blank(value) {
            Err(empty_message(name))
        } else {
            match ThinkingLevel::parse(value) {
                Ok(level) => Ok(level),
                Err(complaint) => Err(invalid_message(name, complaint.as_str())),
            }
        },
    }
}

/// A number that must not be zero.
pub fn positive(name: &str, value: usize) -> (r: Result<usize, String>)
    ensures
        plain(r) == positive_usize(name@, Ok(value)),
{
    if value == 0 {
        Err(zero_message(name))
    } else {
        Ok(value)
    }
}

/// A number that must not be zero.
pub fn positive_u64(name: &str, value: u64) -> (r: Result<u64, String>)
    ensures
        plain(r) == positive_seconds(name@, Ok(value)),
{
    if value == 0 {
        Err(zero_message(name))
    } else {
        Ok(value)
    }
}

fn positive_u64_setting(
    env: &Environment,
    label: &str,
    name: &str,
    file: Option<u64>,
    default: u64,
) -> (r: Result<u64, String>)
    ensures
        plain(r) == positive_seconds(label@, setting(env@, name@, as_u64(), file, default)),
{
    match u64_setting(env, name, file, default) {
        Ok(value) => positive_u64(label, value),
        Err(message) => Err(message),
    }
}

fn positive_usize_setting(
    env: &Environment,
    label: &str,
    name: &str,
    file: Option<usize>,
    default: usize,
) -> (r: Result<usize, String>)
    ensures
        plain(r) == positive_usize(label@, setting(env@, name@, as_usize(), file, default)),
{
    match usize_setting(env, name, file, default) {
        Ok(value) => positive(label, value),
        Err(message) => Err(message),
    }
}

// ---------------------------------------------------------------------------
// The providers
// ---------------------------------------------------------------------------

/// A value of a file where it is not blank.
pub open spec fn filled_value(value: Option<Seq<char>>) -> Option<Seq<char>> {
    match value {
        Some(value) => if catalog::blank(value) {
            None
        } else {
            Some(value)
        },
        None => None,
    }
}

/// A value of a file where it is not blank.
pub fn non_empty_file_value(value: &Option<String>) -> (r: Option<String>)
    ensures
        text::opt(r) == filled_value(text::opt(*value)),
{
    match value {
        Some(value) => if catalog::is_blank(value.as_str()) {
            None
        } else {
            Some(value.clone())
        },
        None => None,
    }
}

/// A top-level setting that stands for a provider's: from the first of two
/// variables that is set, else from the file.
pub open spec fn legacy_value(
    env: EnvironmentView,
    primary: Seq<char>,
    fallback: Seq<char>,
    file: Option<Seq<char>>,
) -> Option<Seq<char>> {
    match env.preferred(primary, fallback) {
        Some(value) => Some(value),
        None => filled_value(file),
    }
}

fn legacy_text(env: &Environment, primary: &str, fallback: &str, file: &Option<String>) -> (r:
    Option<String>)
    ensures
        text::opt(r) == legacy_value(env@, primary@, fallback@, text::opt(*file)),
{
    match env.preferred(primary, fallback) {
        Some(value) => Some(value),
        None => non_empty_file_value(file),
    }
}

/// The protocol of the provider that the top-level settings stand for.
pub open spec fn legacy_api(env: EnvironmentView, file: Option<OpenAiApi>) -> Result<
    OpenAiApi,
    Seq<char>,
> {
    match env.filled("ZEX_OPENAI_API"@) {
        Some(value) => match provider::api_of(value) {
            Some(api) => Ok(api),
            None => Err(provider::api_complaint(value)),
        },
        None => Ok(
            match file {
                Some(api) => api,
                None => OpenAiApi::ChatCompletions,
            },
        ),
    }
}

/// The one provider that the top-level settings stand for.
pub open spec fn legacy_provider(
    api_key: Seq<char>,
    model: Seq<char>,
    base_url: Seq<char>,
    api: OpenAiApi,
) -> ProviderConfigView {
    ProviderConfigView {
        id: "default"@,
        display_name: "Default"@,
        base_url,
        api_key,
        openai_api: api,
        thinking: None,
        compat: None,
        models: seq![
            ModelConfigView {
                id: model,
                display_name: model,
                thinking: None,
                compat: None,
                context_window: None,
            },
        ],
    }
}

/// The providers that the files and the environment configure: those of the
/// files, else the one that the top-level settings stand for.
pub open spec fn configured(
    env: EnvironmentView,
    file: FileConfigView,
    api: OpenAiApi,
    known: CatalogView,
) -> ProviderCatalogView {
    let key = legacy_value(env, "ZEX_API_KEY"@, "OPENAI_API_KEY"@, file.api_key);
    let model = legacy_value(env, "ZEX_MODEL"@, "OPENAI_MODEL"@, file.model);
    let base_url = match legacy_value(
        env,
        "ZEX_BASE_URL"@,
        "OPENAI_BASE_URL"@,
        file.base_url,
    ) {
        Some(url) => url,
        None => "https://api.openai.com/v1"@,
    };
    match (file.providers.len() == 0, key, model) {
        (true, Some(key), Some(model)) => ProviderCatalogView {
            active_model: Some(ModelRefView { provider_id: "default"@, model_id: model }),
            providers: seq![legacy_provider(key, model, base_url, api)],
            models_dev: known,
            models_dev_aliases: Seq::empty(),
        },
        _ => ProviderCatalogView {
            active_model: file.active_model,
            providers: file.providers,
            models_dev: known,
            models_dev_aliases: Seq::empty(),
        },
    }
}

/// The providers that the files and the environment configure, before anything
/// is known of their models.
pub fn provider_catalog(env: &Environment, file: &FileConfig) -> (r: Result<
    ProviderCatalog,
    String,
>)
    ensures
        match (r, legacy_api(env@, file@.openai_api)) {
            (Ok(catalog), Ok(api)) => catalog.wf() && catalog@ == configured(
                env@,
                file@,
                api,
                provider::models_dev::empty_catalog(),
            ),
            (Err(message), Err(complaint)) => message@ == complaint,
            _ => false,
        },
{
    let key = legacy_text(env, "ZEX_API_KEY", "OPENAI_API_KEY", &file.api_key);
    let model = legacy_text(env, "ZEX_MODEL", "OPENAI_MODEL", &file.model);
    let base_url = match legacy_text(env, "ZEX_BASE_URL", "OPENAI_BASE_URL", &file.base_url) {
        Some(url) => url,
        None => "https://api.openai.com/v1".to_owned(),
    };
    let api = match env.filled("ZEX_OPENAI_API") {
        Some(value) => match OpenAiApi::parse(value.as_str()) {
            Ok(api) => api,
            Err(message) => {
                return Err(message);
            },
        },
        None => match file.openai_api {
            Some(api) => api,
            None => OpenAiApi::ChatCompletions,
        },
    };
    let mut catalog = ProviderCatalog {
        active_model: catalog::copy_ref(&file.active_model),
        providers: catalog::copy_providers(&file.providers),
        models_dev: ModelsDevCatalog::default(),
        models_dev_aliases: Vec::new(),
    };
    assert(catalog@.models_dev_aliases =~= Seq::<AliasView>::empty());
    let ghost before = catalog@;
    if catalog.providers.len() == 0 {
        match (key, model) {
            (Some(key), Some(model)) => {
                let mut models: Vec<ModelConfig> = Vec::new();
                models.push(
                    ModelConfig {
                        display_name: model.clone(),
                        id: model.clone(),
                        thinking: None,
                        compat: None,
                        context_window: None,
                    },
                );
                let provider = ProviderConfig {
                    id: "default".to_owned(),
                    display_name: "Default".to_owned(),
                    base_url,
                    api_key: SecretValue::new(key),
                    openai_api: api,
                    thinking: None,
                    compat: None,
                    models,
                };
                assert(provider@.models =~= legacy_provider(
                    key@,
                    model@,
                    base_url@,
                    api,
                ).models);
                proof {
                    text::lemma_views_push(catalog.providers@, provider);
                }
                catalog.providers.push(provider);
                catalog.active_model = Some(
                    ModelRef { provider_id: "default".to_owned(), model_id: model },
                );
                assert(catalog@.providers =~= seq![
                    legacy_provider(key@, model@, base_url@, api),
                ]);
                assert(file@.providers.len() == 0);
            },
            _ => {},
        }
    }
    Ok(catalog)
}

/// What is told of where the catalog of models came from.
pub open spec fn load_notice_of(load: ModelsDevLoad) -> Option<Seq<char>> {
    match load {
        ModelsDevLoad::Cached => Some(
            "Zex: models.dev refresh failed; using cached model capabilities"@,
        ),
        ModelsDevLoad::Unavailable => Some(
            "Zex: models.dev capabilities unavailable; using safe defaults"@,
        ),
        ModelsDevLoad::Refreshed => None,
    }
}

/// What is told of where the catalog of models came from.
pub fn load_notice(load: ModelsDevLoad) -> (r: Option<String>)
    ensures
        text::opt(r) == load_notice_of(load),
{
    match load {
        ModelsDevLoad::Cached => Some(
            "Zex: models.dev refresh failed; using cached model capabilities".to_owned(),
        ),
        ModelsDevLoad::Unavailable => Some(
            "Zex: models.dev capabilities unavailable; using safe defaults".to_owned(),
        ),
        ModelsDevLoad::Refreshed => None,
    }
}

// ---------------------------------------------------------------------------
// All settings
// ---------------------------------------------------------------------------

/// The settings of a run. Timeouts are in seconds.
pub struct Config {
    pub providers: ProviderCatalog,
    pub active_model: Option<ModelRef>,
    pub working_dir: PathBuf,
    pub configured: bool,
    pub tool_timeout: u64,
    pub agent_timeout: u64,
    pub max_turns: usize,
    pub max_tool_output_chars: usize,
    pub max_context_tokens: usize,
    pub compact_keep_turns: usize,
    pub memory: MemoryConfig,
    pub default_thinking_level: ThinkingLevel,
    pub hide_thinking_block: bool,
    pub theme: ThemeConfig,
}

/// What the files and the environment say of memory, or the first error.
pub struct MemorySettings {
    pub enabled: Result<bool, Seq<char>>,
    pub mode: Result<MemoryMode, Seq<char>>,
    pub recall_rate_limit: Result<usize, Seq<char>>,
    pub max_recall_tokens: Result<usize, Seq<char>>,
    pub hot_cache_size: Result<usize, Seq<char>>,
    pub auto_pin_important: Result<bool, Seq<char>>,
}

pub open spec fn memory_settings(env: EnvironmentView, file: FileMemoryConfig) -> MemorySettings {
    MemorySettings {
        enabled: setting(env, "ZEX_MEMORY_ENABLED"@, as_bool(), file.enabled, true),
        mode: setting(env, "ZEX_MEMORY_MODE"@, as_mode(), file.mode, MemoryMode::Hybrid),
        recall_rate_limit: positive_usize(
            "memory.recall_rate_limit"@,
            setting(
                env,
                "ZEX_MEMORY_RECALL_RATE_LIMIT"@,
                as_usize(),
                file.recall_rate_limit,
                12usize,
            ),
        ),
        max_recall_tokens: positive_usize(
            "memory.max_recall_tokens"@,
            setting(
                env,
                "ZEX_MEMORY_MAX_RECALL_TOKENS"@,
                as_usize(),
                file.max_recall_tokens,
                4096usize,
            ),
        ),
        hot_cache_size: positive_usize(
            "memory.hot_cache_size"@,
            setting(
                env,
                "ZEX_MEMORY_HOT_CACHE_SIZE"@,
                as_usize(),
                file.hot_cache_size,
                32usize,
            ),
        ),
        auto_pin_important: setting(
            env,
            "ZEX_MEMORY_AUTO_PIN_IMPORTANT"@,
            as_bool(),
            file.auto_pin_important,
            true,
        ),
    }
}

/// The first of two messages that is there.
pub open spec fn first_of(a: Option<Seq<char>>, b: Option<Seq<char>>) -> Option<Seq<char>> {
    match a {
        Some(message) => Some(message),
        None => b,
    }
}

pub open spec fn error_of<T>(r: Result<T, Seq<char>>) -> Option<Seq<char>> {
    match r {
        Ok(_) => None,
        Err(message) => Some(message),
    }
}

impl MemorySettings {
    /// The first error among them.
    pub open spec fn fault(self) -> Option<Seq<char>> {
        first_of(
            error_of(self.enabled),
            first_of(
                error_of(self.mode),
                first_of(
                    error_of(self.recall_rate_limit),
                    first_of(
                        error_of(self.max_recall_tokens),
                        first_of(
                            error_of(self.hot_cache_size),
                            error_of(self.auto_pin_important),
                        ),
                    ),
                ),
            ),
        )
    }

    /// Whether `memory` holds these settings, and the defaults for the rest.
    pub open spec fn held_by(self, memory: MemoryConfig) -> bool {
        &&& self.enabled == Ok::<bool, Seq<char>>(memory.enabled)
        &&& self.mode == Ok::<MemoryMode, Seq<char>>(memory.mode)
        &&& self.recall_rate_limit == Ok::<usize, Seq<char>>(memory.recall_rate_limit)
        &&& self.max_recall_tokens == Ok::<usize, Seq<char>>(memory.max_recall_tokens)
        &&& self.hot_cache_size == Ok::<usize, Seq<char>>(memory.hot_cache_size)
        &&& self.auto_pin_important == Ok::<bool, Seq<char>>(memory.auto_pin_important)
        &&& memory.recall_per_turn_limit == 3
        &&& memory.max_inline_tool_tokens == 8192
        &&& memory.max_auto_pins == 32
        &&& memory.max_records == 10000
        &&& memory.max_store_bytes == 64 * 1024 * 1024
        &&& memory.retention_days == 30
        &&& memory.encryption_key is None
    }
}

fn memory_config(env: &Environment, file: &FileMemoryConfig) -> (r: Result<MemoryConfig, String>)
    ensures
        match r {
            Ok(memory) => memory_settings(env@, *file).fault() is None && memory_settings(
                env@,
                *file,
            ).held_by(memory),
            Err(message) => memory_settings(env@, *file).fault() == Some(message@),
        },
{
    let mut memory = MemoryConfig::default();
    memory.enabled = match bool_setting(env, "ZEX_MEMORY_ENABLED", file.enabled, true) {
        Ok(value) => value,
        Err(message) => {
            return Err(message);
        },
    };
    memory.mode = match mode_setting(env, "ZEX_MEMORY_MODE", file.mode, MemoryMode::Hybrid) {
        Ok(value) => value,
        Err(message) => {
            return Err(message);
        },
    };
    memory.recall_rate_limit = match positive_usize_setting(
        env,
        "memory.recall_rate_limit",
        "ZEX_MEMORY_RECALL_RATE_LIMIT",
        file.recall_rate_limit,
        12,
    ) {
        Ok(value) => value,
        Err(message) => {
            return Err(message);
        },
    };
    memory.max_recall_tokens = match positive_usize_setting(
        env,
        "memory.max_recall_tokens",
        "ZEX_MEMORY_MAX_RECALL_TOKENS",
        file.max_recall_tokens,
        4096,
    ) {
        Ok(value) => value,
        Err(message) => {
            return Err(message);
        },
    };
    memory.hot_cache_size = match positive_usize_setting(
        env,
        "memory.hot_cache_size",
        "ZEX_MEMORY_HOT_CACHE_SIZE",
        file.hot_cache_size,
        32,
    ) {
        Ok(value) => value,
        Err(message) => {
            return Err(message);
        },
    };
    memory.auto_pin_important = match bool_setting(
        env,
        "ZEX_MEMORY_AUTO_PIN_IMPORTANT",
        file.auto_pin_important,
        true,
    ) {
        Ok(value) => value,
        Err(message) => {
            return Err(message);
        },
    };
    Ok(memory)
}

/// What the files and the environment say of a run's limits, or their errors.
pub struct LimitSettings {
    pub tool_timeout: Result<u64, Seq<char>>,
    pub agent_timeout: Result<u64, Seq<char>>,
    pub max_turns: Result<usize, Seq<char>>,
    pub max_tool_output_chars: Result<usize, Seq<char>>,
    pub max_context_tokens: Result<usize, Seq<char>>,
    pub compact_keep_turns: Result<usize, Seq<char>>,
    pub default_thinking_level: Result<ThinkingLevel, Seq<char>>,
    pub hide_thinking_block: Result<bool, Seq<char>>,
}

pub open spec fn limit_settings(env: EnvironmentView, file: FileConfigView) -> LimitSettings {
    LimitSettings {
        tool_timeout: positive_seconds(
            "tool_timeout_seconds"@,
            setting(env, "ZEX_TOOL_TIMEOUT_SECONDS"@, as_u64(), file.tool_timeout_seconds, DEFAULT_TOOL_TIMEOUT_SECONDS),
        ),
        agent_timeout: positive_seconds(
            "agent_timeout_seconds"@,
            setting(env, "ZEX_AGENT_TIMEOUT_SECONDS"@, as_u64(), file.agent_timeout_seconds, DEFAULT_AGENT_TIMEOUT_SECONDS),
        ),
        max_turns: positive_usize(
            "max_turns"@,
            setting(env, "ZEX_MAX_TURNS"@, as_usize(), file.max_turns, DEFAULT_MAX_TURNS),
        ),
        max_tool_output_chars: positive_usize(
            "max_tool_output_chars"@,
            setting(env, "ZEX_MAX_TOOL_OUTPUT_CHARS"@, as_usize(), file.max_tool_output_chars, DEFAULT_MAX_TOOL_OUTPUT_CHARS),
        ),
        max_context_tokens: positive_usize(
            "max_context_tokens"@,
            setting_or_legacy(
                env,
                "ZEX_MAX_CONTEXT_TOKENS"@,
                "ZEX_MAX_CONTEXT_CHARS"@,
                as_usize(),
                file.max_context_tokens,
                DEFAULT_MAX_CONTEXT_TOKENS,
            ),
        ),
        compact_keep_turns: positive_usize(
            "compact_keep_turns"@,
            setting(env, "ZEX_COMPACT_KEEP_TURNS"@, as_usize(), file.compact_keep_turns, DEFAULT_COMPACT_KEEP_TURNS),
        ),
        default_thinking_level: setting(
            env,
            "ZEX_DEFAULT_THINKING_LEVEL"@,
            as_level(),
            file.default_thinking_level,
            ThinkingLevel::Medium,
        ),
        hide_thinking_block: setting(
            env,
            "ZEX_HIDE_THINKING_BLOCK"@,
            as_bool(),
            file.hide_thinking_block,
            false,
        ),
    }
}

/// The first error that stands in the way of a run.
pub open spec fn config_fault(
    env: EnvironmentView,
    file: FileConfigView,
    catalog: ProviderCatalogView,
) -> Option<Seq<char>> {
    let limits = limit_settings(env, file);
    first_of(
        catalog::catalog_fault(catalog),
        first_of(
            error_of(limits.tool_timeout),
            first_of(
                error_of(limits.agent_timeout),
                first_of(
                    error_of(limits.max_turns),
                    first_of(
                        error_of(limits.max_tool_output_chars),
                        first_of(
                            error_of(limits.max_context_tokens),
                            first_of(
                                error_of(limits.compact_keep_turns),
                                first_of(
                                    memory_settings(env, file.memory).fault(),
                                    first_of(
                                        error_of(limits.default_thinking_level),
                                        error_of(limits.hide_thinking_block),
                                    ),
                                ),
                            ),
                        ),
                    ),
                ),
            ),
        ),
    )
}

/// Whether `config` holds what the files and the environment say.
pub open spec fn config_holds(
    config: Config,
    env: EnvironmentView,
    file: FileConfigView,
    catalog: ProviderCatalogView,
    working_dir: PathBuf,
) -> bool {
    let limits = limit_settings(env, file);
    &&& config.providers.wf()
    &&& config.providers@ == catalog
    &&& text::opt(config.active_model) == catalog.active_model
    &&& config.working_dir == working_dir
    &&& config.configured == catalog.ready()
    &&& limits.tool_timeout == Ok::<u64, Seq<char>>(config.tool_timeout)
    &&& limits.agent_timeout == Ok::<u64, Seq<char>>(config.agent_timeout)
    &&& limits.max_turns == Ok::<usize, Seq<char>>(config.max_turns)
    &&& limits.max_tool_output_chars == Ok::<usize, Seq<char>>(config.max_tool_output_chars)
    &&& limits.max_context_tokens == Ok::<usize, Seq<char>>(config.max_context_tokens)
    &&& limits.compact_keep_turns == Ok::<usize, Seq<char>>(config.compact_keep_turns)
    &&& memory_settings(env, file.memory).held_by(config.memory)
    &&& limits.default_thinking_level == Ok::<ThinkingLevel, Seq<char>>(
        config.default_thinking_level,
    )
    &&& limits.hide_thinking_block == Ok::<bool, Seq<char>>(config.hide_thinking_block)
    &&& config.theme == file.theme
}

impl Config {
    /// The settings of a run: what the environment says, else what the merged
    /// files say, else the defaults. `providers` are the configured providers,
    /// with what is known of models.
    pub fn resolve(
        env: &Environment,
        file: &FileConfig,
        providers: ProviderCatalog,
        working_dir: PathBuf,
    ) -> (r: Result<Config, String>)
        requires
            providers.wf(),
        ensures
            match r {
                Ok(config) => config_fault(env@, file@, providers@) is None && config_holds(
                    config,
                    env@,
                    file@,
                    providers@,
                    working_dir,
                ),
                Err(message) => config_fault(env@, file@, providers@) == Some(message@),
            },
    {
        match providers.validate() {
            Ok(_) => {},
            Err(message) => {
                return Err(message);
            },
        }
        let active_model = catalog::copy_ref(&providers.active_model);
        let configured = providers.has_ready_model();
        let tool_timeout: u64 = match positive_u64_setting(
            env,
            "tool_timeout_seconds",
            "ZEX_TOOL_TIMEOUT_SECONDS",
            file.tool_timeout_seconds,
            DEFAULT_TOOL_TIMEOUT_SECONDS,
        ) {
            Ok(value) => value,
            Err(message) => {
                return Err(message);
            },
        };
        let agent_timeout: u64 = match positive_u64_setting(
            env,
            "agent_timeout_seconds",
            "ZEX_AGENT_TIMEOUT_SECONDS",
            file.agent_timeout_seconds,
            DEFAULT_AGENT_TIMEOUT_SECONDS,
        ) {
            Ok(value) => value,
            Err(message) => {
                return Err(message);
            },
        };
        let max_turns: usize = match positive_usize_setting(
            env,
            "max_turns",
            "ZEX_MAX_TURNS",
            file.max_turns,
            DEFAULT_MAX_TURNS,
        ) {
            Ok(value) => value,
            Err(message) => {
                return Err(message);
            },
        };
        let max_tool_output_chars: usize = match positive_usize_setting(
            env,
            "max_tool_output_chars",
            "ZEX_MAX_TOOL_OUTPUT_CHARS",
            file.max_tool_output_chars,
            DEFAULT_MAX_TOOL_OUTPUT_CHARS,
        ) {
            Ok(value) => value,
            Err(message) => {
                return Err(message);
            },
        };
        let context_name = match env.find("ZEX_MAX_CONTEXT_TOKENS") {
            Found::Missing => "ZEX_MAX_CONTEXT_CHARS",
            _ => "ZEX_MAX_CONTEXT_TOKENS",
        };
        let max_context_tokens: usize = match positive_usize_setting(
            env,
            "max_context_tokens",
            context_name,
            file.max_context_tokens,
            DEFAULT_MAX_CONTEXT_TOKENS,
        ) {
            Ok(value) => value,
            Err(message) => {
                return Err(message);
            },
        };
        let compact_keep_turns: usize = match positive_usize_setting(
            env,
            "compact_keep_turns",
            "ZEX_COMPACT_KEEP_TURNS",
            file.compact_keep_turns,
            DEFAULT_COMPACT_KEEP_TURNS,
        ) {
            Ok(value) => value,
            Err(message) => {
                return Err(message);
            },
        };
        let memory = match memory_config(env, &file.memory) {
            Ok(memory) => memory,
            Err(message) => {
                return Err(message);
            },
        };
        let default_thinking_level = match level_setting(
            env,
            "ZEX_DEFAULT_THINKING_LEVEL",
            file.default_thinking_level,
            ThinkingLevel::Medium,
        ) {
            Ok(level) => level,
            Err(message) => {
                return Err(message);
            },
        };
        let hide_thinking_block = match bool_setting(
            env,
            "ZEX_HIDE_THINKING_BLOCK",
            file.hide_thinking_block,
            false,
        ) {
            Ok(hidden) => hidden,
            Err(message) => {
                return Err(message);
            },
        };
        Ok(
            Config {
                providers,
                active_model,
                working_dir,
                configured,
                tool_timeout,
                agent_timeout,
                max_turns,
                max_tool_output_chars,
                max_context_tokens,
                compact_keep_turns,
                memory,
                default_thinking_level,
                hide_thinking_block,
                theme: file.theme,
            },
        )
    }
}

/// The environment decides over the files, and the files over the defaults.
pub proof fn law_environment_wins(
    env: EnvironmentView,
    name: Seq<char>,
    parse: spec_fn(Seq<char>) -> Result<usize, Seq<char>>,
    file: Option<usize>,
    default: usize,
)
    ensures
        match (env.get(name), file) {
            (Variable::Text(value), _) => !catalog::blank(value) && parse(value) is Ok ==> setting(
                env,
                name,
                parse,
                file,
                default,
            ) == parse(value),
            (Variable::Missing, Some(n)) => setting(env, name, parse, file, default) == Ok::<
                usize,
                Seq<char>,
            >(n),
            (Variable::Missing, None) => setting(env, name, parse, file, default) == Ok::<
                usize,
                Seq<char>,
            >(default),
            _ => true,
        },
{
}

// ---------------------------------------------------------------------------
// Where sessions are kept
// ---------------------------------------------------------------------------

/// Where the directory of sessions is named: by the environment, by a file, or
/// nowhere, and then it stands below the global directory.
#[derive(Debug, PartialEq, Eq)]
pub enum SessionPlace {
    Environment,
    File(String),
    Global,
}

/// Where the directory of sessions is named, given whether the environment
/// names one.
pub fn session_place(in_environment: bool, file: &FileConfig) -> (r: SessionPlace)
    ensures
        match r {
            SessionPlace::Environment => in_environment,
            SessionPlace::File(path) => !in_environment && filled_value(file@.session_dir) == Some(
                path@,
            ),
            SessionPlace::Global => !in_environment && filled_value(file@.session_dir) is None,
        },
{
    if in_environment {
        SessionPlace::Environment
    } else {
        match non_empty_file_value(&file.session_dir) {
            Some(path) => SessionPlace::File(path),
            None => SessionPlace::Global,
        }
    }
}

/// A variable says what the first entry of its name says, and is missing only
/// where there is none.
pub proof fn law_variables_are_found(env: EnvironmentView, name: Seq<char>)
    ensures
        match env.get(name) {
            Variable::Text(value) => exists|i: int|
                0 <= i < env.entries.len() && #[trigger] env.entries[i] == (name, Some(value))
                    && forall|j: int| 0 <= j < i ==> (#[trigger] env.entries[j]).0 != name,
            Variable::NotText => exists|i: int|
                0 <= i < env.entries.len() && (#[trigger] env.entries[i]).0 == name
                    && env.entries[i].1 is None && forall|j: int|
                    0 <= j < i ==> (#[trigger] env.entries[j]).0 != name,
            Variable::Missing => forall|i: int|
                0 <= i < env.entries.len() ==> (#[trigger] env.entries[i]).0 != name,
        },
{
    lemma_variable_from(env, name, 0);
}

proof fn lemma_variable_from(env: EnvironmentView, name: Seq<char>, from: int)
    requires
        0 <= from <= env.entries.len(),
        forall|j: int| 0 <= j < from ==> (#[trigger] env.entries[j]).0 != name,
    ensures
        match env.get_from(name, from) {
            Variable::Text(value) => exists|i: int|
                0 <= i < env.entries.len() && #[trigger] env.entries[i] == (name, Some(value))
                    && forall|j: int| 0 <= j < i ==> (#[trigger] env.entries[j]).0 != name,
            Variable::NotText => exists|i: int|
                0 <= i < env.entries.len() && (#[trigger] env.entries[i]).0 == name
                    && env.entries[i].1 is None && forall|j: int|
                    0 <= j < i ==> (#[trigger] env.entries[j]).0 != name,
            Variable::Missing => forall|i: int|
                0 <= i < env.entries.len() ==> (#[trigger] env.entries[i]).0 != name,
        },
    decreases env.entries.len() - from,
{
    if from < env.entries.len() {
        if env.entries[from].0 == name {
            if let Some(value) = env.entries[from].1 {
                assert(env.entries[from] == (name, Some(value)));
            }
        } else {
            lemma_variable_from(env, name, from + 1);
        }
    }
}

/// `found` is a number that a variable, a file or a default gives, in this
/// order; it must not be nought.
pub open spec fn number_given(
    env: EnvironmentView,
    name: Seq<char>,
    file: Option<nat>,
    default: nat,
    found: Option<nat>,
) -> bool {
    match env.get(name) {
        Variable::Missing => match file {
            Some(n) => found == (if n == 0 {
                None
            } else {
                Some(n)
            }),
            None => found == Some(default),
        },
        Variable::NotText => found is None,
        Variable::Text(value) => forall|n: nat|
            value == #[trigger] text::decimal(n) && 0 < n <= usize::MAX ==> found == Some(n),
    }
}

pub open spec fn seconds_found(r: Result<u64, Seq<char>>) -> Option<nat> {
    match r {
        Ok(n) => Some(n as nat),
        Err(_) => None,
    }
}

pub open spec fn count_found(r: Result<usize, Seq<char>>) -> Option<nat> {
    match r {
        Ok(n) => Some(n as nat),
        Err(_) => None,
    }
}

pub open spec fn seconds_given(file: Option<u64>) -> Option<nat> {
    match file {
        Some(n) => Some(n as nat),
        None => None,
    }
}

pub open spec fn count_given(file: Option<usize>) -> Option<nat> {
    match file {
        Some(n) => Some(n as nat),
        None => None,
    }
}

proof fn lemma_number_text(n: nat)
    ensures
        !catalog::blank(text::decimal(n)),
        n <= usize::MAX ==> as_usize()(text::decimal(n)) == Ok::<usize, Seq<char>>(n as usize),
        n <= u64::MAX ==> as_u64()(text::decimal(n)) == Ok::<u64, Seq<char>>(n as u64),
{
    let s = text::decimal(n);
    text::law_decimal(n);
    text::law_trim(s);
    assert(!text::is_space(s[0]));
    assert(text::all_digits(s));
    assert(s[0] != '+');
}

/// Every limit is what its own variable says, else what the file says under its
/// own key, else its own default; nought is refused.
pub proof fn law_limits_come_from_their_settings(env: EnvironmentView, file: FileConfigView)
    ensures
        ({
            let limits = limit_settings(env, file);
            &&& number_given(
                env,
                "ZEX_TOOL_TIMEOUT_SECONDS"@,
                seconds_given(file.tool_timeout_seconds),
                60,
                seconds_found(limits.tool_timeout),
            )
            &&& number_given(
                env,
                "ZEX_AGENT_TIMEOUT_SECONDS"@,
                seconds_given(file.agent_timeout_seconds),
                600,
                seconds_found(limits.agent_timeout),
            )
            &&& number_given(
                env,
                "ZEX_MAX_TURNS"@,
                count_given(file.max_turns),
                12,
                count_found(limits.max_turns),
            )
            &&& number_given(
                env,
                "ZEX_MAX_TOOL_OUTPUT_CHARS"@,
                count_given(file.max_tool_output_chars),
                32_000,
                count_found(limits.max_tool_output_chars),
            )
            &&& env.get("ZEX_MAX_CONTEXT_CHARS"@) == Variable::Missing || env.get(
                "ZEX_MAX_CONTEXT_TOKENS"@,
            ) != Variable::Missing ==> number_given(
                env,
                "ZEX_MAX_CONTEXT_TOKENS"@,
                count_given(file.max_context_tokens),
                120_000,
                count_found(limits.max_context_tokens),
            )
            &&& env.get("ZEX_MAX_CONTEXT_TOKENS"@) == Variable::Missing ==> number_given(
                env,
                "ZEX_MAX_CONTEXT_CHARS"@,
                count_given(file.max_context_tokens),
                120_000,
                count_found(limits.max_context_tokens),
            )
            &&& number_given(
                env,
                "ZEX_COMPACT_KEEP_TURNS"@,
                count_given(file.compact_keep_turns),
                6,
                count_found(limits.compact_keep_turns),
            )
            &&& number_given(
                env,
                "ZEX_MEMORY_RECALL_RATE_LIMIT"@,
                count_given(file.memory.recall_rate_limit),
                12,
                count_found(memory_settings(env, file.memory).recall_rate_limit),
            )
            &&& number_given(
                env,
                "ZEX_MEMORY_MAX_RECALL_TOKENS"@,
                count_given(file.memory.max_recall_tokens),
                4096,
                count_found(memory_settings(env, file.memory).max_recall_tokens),
            )
            &&& number_given(
                env,
                "ZEX_MEMORY_HOT_CACHE_SIZE"@,
                count_given(file.memory.hot_cache_size),
                32,
                count_found(memory_settings(env, file.memory).hot_cache_size),
            )
        }),
{
    lemma_seconds_given(
        env,
        "ZEX_TOOL_TIMEOUT_SECONDS"@,
        "tool_timeout_seconds"@,
        file.tool_timeout_seconds,
        60,
    );
    lemma_seconds_given(
        env,
        "ZEX_AGENT_TIMEOUT_SECONDS"@,
        "agent_timeout_seconds"@,
        file.agent_timeout_seconds,
        600,
    );
    lemma_count_given(env, "ZEX_MAX_TURNS"@, "max_turns"@, file.max_turns, 12);
    lemma_count_given(
        env,
        "ZEX_MAX_TOOL_OUTPUT_CHARS"@,
        "max_tool_output_chars"@,
        file.max_tool_output_chars,
        32_000,
    );
    lemma_count_given(
        env,
        "ZEX_MAX_CONTEXT_TOKENS"@,
        "max_context_tokens"@,
        file.max_context_tokens,
        120_000,
    );
    lemma_count_given(
        env,
        "ZEX_MAX_CONTEXT_CHARS"@,
        "max_context_tokens"@,
        file.max_context_tokens,
        120_000,
    );
    lemma_count_given(
        env,
        "ZEX_COMPACT_KEEP_TURNS"@,
        "compact_keep_turns"@,
        file.compact_keep_turns,
        6,
    );
    lemma_count_given(
        env,
        "ZEX_MEMORY_RECALL_RATE_LIMIT"@,
        "memory.recall_rate_limit"@,
        file.memory.recall_rate_limit,
        12,
    );
    lemma_count_given(
        env,
        "ZEX_MEMORY_MAX_RECALL_TOKENS"@,
        "memory.max_recall_tokens"@,
        file.memory.max_recall_tokens,
        4096,
    );
    lemma_count_given(
        env,
        "ZEX_MEMORY_HOT_CACHE_SIZE"@,
        "memory.hot_cache_size"@,
        file.memory.hot_cache_size,
        32,
    );
}

proof fn lemma_seconds_given(
    env: EnvironmentView,
    name: Seq<char>,
    key: Seq<char>,
    file: Option<u64>,
    default: u64,
)
    requires
        default > 0,
    ensures
        number_given(
            env,
            name,
            seconds_given(file),
            default as nat,
            seconds_found(positive_seconds(key, setting(env, name, as_u64(), file, default))),
        ),
{
    if let Variable::Text(value) = env.get(name) {
        let found = seconds_found(
            positive_seconds(key, setting(env, name, as_u64(), file, default)),
        );
        assert forall|n: nat|
            value == #[trigger] text::decimal(n) && 0 < n <= usize::MAX implies found == Some(
            n,
        ) by {
            lemma_number_text(n);
        }
    }
}

proof fn lemma_count_given(
    env: EnvironmentView,
    name: Seq<char>,
    key: Seq<char>,
    file: Option<usize>,
    default: usize,
)
    requires
        default > 0,
    ensures
        number_given(
            env,
            name,
            count_given(file),
            default as nat,
            count_found(positive_usize(key, setting(env, name, as_usize(), file, default))),
        ),
{
    if let Variable::Text(value) = env.get(name) {
        let found = count_found(
            positive_usize(key, setting(env, name, as_usize(), file, default)),
        );
        assert forall|n: nat|
            value == #[trigger] text::decimal(n) && 0 < n <= usize::MAX implies found == Some(
            n,
        ) by {
            lemma_number_text(n);
        }
    }
}

/// Providers that a file configures are those that are used, as they are; only
/// where it configures none do the key, the model and the address stand for one,
/// each from the environment first.
pub proof fn law_configured_providers_count(
    env: EnvironmentView,
    file: FileConfigView,
    api: OpenAiApi,
    known: CatalogView,
    key: Seq<char>,
    model: Seq<char>,
    url: Seq<char>,
)
    ensures
        file.providers.len() > 0 ==> {
            let catalog = configured(env, file, api, known);
            &&& catalog.providers == file.providers
            &&& catalog.active_model == file.active_model
        },
        file.providers.len() == 0 && env.get("ZEX_API_KEY"@) == Variable::Text(key) && env.get(
            "ZEX_MODEL"@,
        ) == Variable::Text(model) && env.get("ZEX_BASE_URL"@) == Variable::Text(url)
            && !text::blank(key) && !text::blank(model) && !text::blank(url) ==> {
            let catalog = configured(env, file, api, known);
            &&& catalog.providers.len() == 1
            &&& catalog.providers[0].api_key == key
            &&& catalog.providers[0].base_url == url
            &&& catalog.providers[0].openai_api == api
            &&& catalog.providers[0].models.len() == 1
            &&& catalog.providers[0].models[0].id == model
            &&& catalog.active_model == Some(
                ModelRefView { provider_id: catalog.providers[0].id, model_id: model },
            )
        },
        configured(env, file, api, known).models_dev == known,
{
    text::law_trim(key);
    text::law_trim(model);
    text::law_trim(url);
}

/// Settings are refused only where the providers are, or where one of them is.
pub proof fn law_settings_are_refused_for_a_reason(
    env: EnvironmentView,
    file: FileConfigView,
    catalog: ProviderCatalogView,
)
    ensures
        config_fault(env, file, catalog) is None <==> {
            let limits = limit_settings(env, file);
            let memory = memory_settings(env, file.memory);
            &&& catalog::catalog_fault(catalog) is None
            &&& limits.tool_timeout is Ok
            &&& limits.agent_timeout is Ok
            &&& limits.max_turns is Ok
            &&& limits.max_tool_output_chars is Ok
            &&& limits.max_context_tokens is Ok
            &&& limits.compact_keep_turns is Ok
            &&& limits.default_thinking_level is Ok
            &&& limits.hide_thinking_block is Ok
            &&& memory.enabled is Ok
            &&& memory.mode is Ok
            &&& memory.recall_rate_limit is Ok
            &&& memory.max_recall_tokens is Ok
            &&& memory.hot_cache_size is Ok
            &&& memory.auto_pin_important is Ok
        },
{
}

} // verus!
