//! What a configuration file says, and how two files are merged.

use crate::config::catalog::ModelRef;
use crate::config::catalog::ModelRefView;
use crate::config::catalog::ProviderConfig;
use crate::config::catalog::ProviderConfigView;
use crate::config::theme;
use crate::config::theme::ThemeConfig;
use crate::memory::config::MemoryMode;
use crate::provider::thinking::ThinkingLevel;
use crate::provider::OpenAiApi;
use crate::text;
use vstd::prelude::*;
use vstd::string::*;

verus! {

/// The `[memory]` section of a file.
#[derive(Debug, Clone, Copy, PartialEq, Eq, Structural)]
pub struct FileMemoryConfig {
    pub enabled: Option<bool>,
    pub mode: Option<MemoryMode>,
    pub recall_rate_limit: Option<usize>,
    pub max_recall_tokens: Option<usize>,
    pub hot_cache_size: Option<usize>,
    pub auto_pin_important: Option<bool>,
}

impl Default for FileMemoryConfig {
    fn default() -> (r: FileMemoryConfig)
        ensures
            r == no_memory(),
    {
        FileMemoryConfig {
            enabled: None,
            mode: None,
            recall_rate_limit: None,
            max_recall_tokens: None,
            hot_cache_size: None,
            auto_pin_important: None,
        }
    }
}

pub open spec fn no_memory() -> FileMemoryConfig {
    FileMemoryConfig {
        enabled: None,
        mode: None,
        recall_rate_limit: None,
        max_recall_tokens: None,
        hot_cache_size: None,
        auto_pin_important: None,
    }
}

/// Project config wins key by key over the global config.
pub open spec fn merged_memory(global: FileMemoryConfig, project: FileMemoryConfig) ->
    FileMemoryConfig {
    FileMemoryConfig {
        enabled: theme::preferred(project.enabled, global.enabled),
        mode: theme::preferred(project.mode, global.mode),
        recall_rate_limit: theme::preferred(project.recall_rate_limit, global.recall_rate_limit),
        max_recall_tokens: theme::preferred(project.max_recall_tokens, global.max_recall_tokens),
        hot_cache_size: theme::preferred(project.hot_cache_size, global.hot_cache_size),
        auto_pin_important: theme::preferred(
            project.auto_pin_important,
            global.auto_pin_important,
        ),
    }
}

impl FileMemoryConfig {
    /// Project config wins key by key over the global config.
    pub fn merge(self, project: FileMemoryConfig) -> (r: FileMemoryConfig)
        ensures
            r == merged_memory(self, project),
    {
        FileMemoryConfig {
            enabled: theme::prefer(project.enabled, self.enabled),
            mode: theme::prefer(project.mode, self.mode),
            recall_rate_limit: theme::prefer(project.recall_rate_limit, self.recall_rate_limit),
            max_recall_tokens: theme::prefer(project.max_recall_tokens, self.max_recall_tokens),
            hot_cache_size: theme::prefer(project.hot_cache_size, self.hot_cache_size),
            auto_pin_important: theme::prefer(
                project.auto_pin_important,
                self.auto_pin_important,
            ),
        }
    }
}

/// What a configuration file says.
pub struct FileConfig {
    pub api_key: Option<String>,
    pub model: Option<String>,
    pub base_url: Option<String>,
    pub openai_api: Option<OpenAiApi>,
    pub active_model: Option<ModelRef>,
    pub providers: Vec<ProviderConfig>,
    pub max_turns: Option<usize>,
    pub tool_timeout_seconds: Option<u64>,
    pub agent_timeout_seconds: Option<u64>,
    pub max_tool_output_chars: Option<usize>,
    pub max_context_tokens: Option<usize>,
    pub compact_keep_turns: Option<usize>,
    pub default_thinking_level: Option<ThinkingLevel>,
    pub hide_thinking_block: Option<bool>,
    pub session_dir: Option<String>,
    pub memory: FileMemoryConfig,
    pub theme: ThemeConfig,
}

/// What a [`FileConfig`] holds.
#[verifier::ext_equal]
pub struct FileConfigView {
    pub api_key: Option<Seq<char>>,
    pub model: Option<Seq<char>>,
    pub base_url: Option<Seq<char>>,
    pub openai_api: Option<OpenAiApi>,
    pub active_model: Option<ModelRefView>,
    pub providers: Seq<ProviderConfigView>,
    pub max_turns: Option<usize>,
    pub tool_timeout_seconds: Option<u64>,
    pub agent_timeout_seconds: Option<u64>,
    pub max_tool_output_chars: Option<usize>,
    pub max_context_tokens: Option<usize>,
    pub compact_keep_turns: Option<usize>,
    pub default_thinking_level: Option<ThinkingLevel>,
    pub hide_thinking_block: Option<bool>,
    pub session_dir: Option<Seq<char>>,
    pub memory: FileMemoryConfig,
    pub theme: ThemeConfig,
}

impl View for FileConfig {
    type V = FileConfigView;

    open spec fn view(&self) -> FileConfigView {
        FileConfigView {
            api_key: text::opt(self.api_key),
            model: text::opt(self.model),
            base_url: text::opt(self.base_url),
            openai_api: self.openai_api,
            active_model: text::opt(self.active_model),
            providers: text::views(self.providers@),
            max_turns: self.max_turns,
            tool_timeout_seconds: self.tool_timeout_seconds,
            agent_timeout_seconds: self.agent_timeout_seconds,
            max_tool_output_chars: self.max_tool_output_chars,
            max_context_tokens: self.max_context_tokens,
            compact_keep_turns: self.compact_keep_turns,
            default_thinking_level: self.default_thinking_level,
            hide_thinking_block: self.hide_thinking_block,
            session_dir: text::opt(self.session_dir),
            memory: self.memory,
            theme: self.theme,
        }
    }
}

/// A file that says nothing.
pub open spec fn empty_file() -> FileConfigView {
    FileConfigView {
        api_key: None,
        model: None,
        base_url: None,
        openai_api: None,
        active_model: None,
        providers: Seq::empty(),
        max_turns: None,
        tool_timeout_seconds: None,
        agent_timeout_seconds: None,
        max_tool_output_chars: None,
        max_context_tokens: None,
        compact_keep_turns: None,
        default_thinking_level: None,
        hide_thinking_block: None,
        session_dir: None,
        memory: no_memory(),
        theme: theme::no_theme(),
    }
}

impl Default for FileConfig {
    fn default() -> (r: FileConfig)
        ensures
            r@ == empty_file(),
    {
        let r = FileConfig {
            api_key: None,
            model: None,
            base_url: None,
            openai_api: None,
            active_model: None,
            providers: Vec::new(),
            max_turns: None,
            tool_timeout_seconds: None,
            agent_timeout_seconds: None,
            max_tool_output_chars: None,
            max_context_tokens: None,
            compact_keep_turns: None,
            default_thinking_level: None,
            hide_thinking_block: None,
            session_dir: None,
            memory: FileMemoryConfig::default(),
            theme: ThemeConfig::default(),
        };
        assert(r@.providers =~= Seq::<ProviderConfigView>::empty());
        r
    }
}

/// What two files say together: the project's word counts, key by key.
pub open spec fn merged_file(global: FileConfigView, project: FileConfigView) -> FileConfigView {
    FileConfigView {
        api_key: theme::preferred(project.api_key, global.api_key),
        model: theme::preferred(project.model, global.model),
        base_url: theme::preferred(project.base_url, global.base_url),
        openai_api: theme::preferred(project.openai_api, global.openai_api),
        active_model: theme::preferred(project.active_model, global.active_model),
        providers: if project.providers.len() == 0 {
            global.providers
        } else {
            project.providers
        },
        max_turns: theme::preferred(project.max_turns, global.max_turns),
        tool_timeout_seconds: theme::preferred(
            project.tool_timeout_seconds,
            global.tool_timeout_seconds,
        ),
        agent_timeout_seconds: theme::preferred(
            project.agent_timeout_seconds,
            global.agent_timeout_seconds,
        ),
        max_tool_output_chars: theme::preferred(
            project.max_tool_output_chars,
            global.max_tool_output_chars,
        ),
        max_context_tokens: theme::preferred(
            project.max_context_tokens,
            global.max_context_tokens,
        ),
        compact_keep_turns: theme::preferred(
            project.compact_keep_turns,
            global.compact_keep_turns,
        ),
        default_thinking_level: theme::preferred(
            project.default_thinking_level,
            global.default_thinking_level,
        ),
        hide_thinking_block: theme::preferred(
            project.hide_thinking_block,
            global.hide_thinking_block,
        ),
        session_dir: theme::preferred(project.session_dir, global.session_dir),
        memory: merged_memory(global.memory, project.memory),
        theme: theme::merged_theme(global.theme, project.theme),
    }
}

impl FileConfig {
    /// What two files say together: the project's word counts, key by key.
    pub fn merge(self, project: FileConfig) -> (r: FileConfig)
        ensures
            r@ == merged_file(self@, project@),
    {
        FileConfig {
            api_key: theme::prefer(project.api_key, self.api_key),
            model: theme::prefer(project.model, self.model),
            base_url: theme::prefer(project.base_url, self.base_url),
            openai_api: theme::prefer(project.openai_api, self.openai_api),
            active_model: theme::prefer(project.active_model, self.active_model),
            providers: if project.providers.len() == 0 {
                self.providers
            } else {
                project.providers
            },
            max_turns: theme::prefer(project.max_turns, self.max_turns),
            tool_timeout_seconds: theme::prefer(
                project.tool_timeout_seconds,
                self.tool_timeout_seconds,
            ),
            agent_timeout_seconds: theme::prefer(
                project.agent_timeout_seconds,
                self.agent_timeout_seconds,
            ),
            max_tool_output_chars: theme::prefer(
                project.max_tool_output_chars,
                self.max_tool_output_chars,
            ),
            max_context_tokens: theme::prefer(
                project.max_context_tokens,
                self.max_context_tokens,
            ),
            compact_keep_turns: theme::prefer(
                project.compact_keep_turns,
                self.compact_keep_turns,
            ),
            default_thinking_level: theme::prefer(
                project.default_thinking_level,
                self.default_thinking_level,
            ),
            hide_thinking_block: theme::prefer(
                project.hide_thinking_block,
                self.hide_thinking_block,
            ),
            session_dir: theme::prefer(project.session_dir, self.session_dir),
            memory: self.memory.merge(project.memory),
            theme: self.theme.merge(project.theme),
        }
    }
}

/// A project that says nothing changes nothing, and where there is no global
/// file the project's word is all there is.
pub proof fn law_merge_with_empty(file: FileConfigView)
    ensures
        merged_file(file, empty_file()) == file,
        merged_file(empty_file(), file) == file,
{
    assert(merged_file(file, empty_file()) =~= file);
    assert(file.providers.len() == 0 ==> file.providers =~= empty_file().providers);
    assert(merged_file(empty_file(), file) =~= file);
}

/// The project's word counts, key by key: what it says is taken, and what it
/// does not say is taken from the global file. Providers count together: the
/// project's, where it has any, and else the global ones.
pub proof fn law_project_wins(global: FileConfigView, project: FileConfigView)
    ensures
        ({
            let merged = merged_file(global, project);
            &&& theme::wins(merged.api_key, project.api_key, global.api_key)
            &&& theme::wins(merged.model, project.model, global.model)
            &&& theme::wins(merged.base_url, project.base_url, global.base_url)
            &&& theme::wins(merged.openai_api, project.openai_api, global.openai_api)
            &&& theme::wins(merged.active_model, project.active_model, global.active_model)
            &&& theme::wins(merged.max_turns, project.max_turns, global.max_turns)
            &&& theme::wins(merged.tool_timeout_seconds, project.tool_timeout_seconds, global.tool_timeout_seconds)
            &&& theme::wins(merged.agent_timeout_seconds, project.agent_timeout_seconds, global.agent_timeout_seconds)
            &&& theme::wins(merged.max_tool_output_chars, project.max_tool_output_chars, global.max_tool_output_chars)
            &&& theme::wins(merged.max_context_tokens, project.max_context_tokens, global.max_context_tokens)
            &&& theme::wins(merged.compact_keep_turns, project.compact_keep_turns, global.compact_keep_turns)
            &&& theme::wins(merged.default_thinking_level, project.default_thinking_level, global.default_thinking_level)
            &&& theme::wins(merged.hide_thinking_block, project.hide_thinking_block, global.hide_thinking_block)
            &&& theme::wins(merged.session_dir, project.session_dir, global.session_dir)
            &&& theme::wins(merged.memory.enabled, project.memory.enabled, global.memory.enabled)
            &&& theme::wins(merged.memory.mode, project.memory.mode, global.memory.mode)
            &&& theme::wins(merged.memory.recall_rate_limit, project.memory.recall_rate_limit, global.memory.recall_rate_limit)
            &&& theme::wins(merged.memory.max_recall_tokens, project.memory.max_recall_tokens, global.memory.max_recall_tokens)
            &&& theme::wins(merged.memory.hot_cache_size, project.memory.hot_cache_size, global.memory.hot_cache_size)
            &&& theme::wins(merged.memory.auto_pin_important, project.memory.auto_pin_important, global.memory.auto_pin_important)
            &&& project.providers.len() > 0 ==> merged.providers == project.providers
            &&& project.providers.len() == 0 ==> merged.providers == global.providers
            &&& merged.theme == theme::merged_theme(global.theme, project.theme)
        }),
{
}

/// Merging in a file a second time changes nothing, and of three files it does
/// not matter which two are merged first.
pub proof fn law_merging_is_done_once(
    first: FileConfigView,
    second: FileConfigView,
    third: FileConfigView,
)
    ensures
        merged_file(first, first) == first,
        merged_file(merged_file(first, second), second) == merged_file(first, second),
        merged_file(merged_file(first, second), third) == merged_file(
            first,
            merged_file(second, third),
        ),
{
}

} // verus!
