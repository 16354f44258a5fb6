use std::path::PathBuf;
use zex::config::catalog::ModelConfig;
use zex::config::catalog::ModelRef;
use zex::config::catalog::ProviderCatalog;
use zex::config::catalog::ProviderConfig;
use zex::config::catalog::SecretValue;
use zex::config::load::ConfigSource;
use zex::config::load::KnownModels;
use zex::config::persist::persist_active_model;
use zex::config::persist::persist_provider_catalog;
use zex::config::persist::persist_show_thinking;
use zex::config::persist::persist_thinking_level;
use zex::config::persist::read_config_file;
use zex::config::settings::session_place;
use zex::config::settings::Config;
use zex::config::settings::Environment;
use zex::config::settings::SessionPlace;
use zex::config::theme::ThemeColor;
use zex::memory::config::MemoryMode;
use zex::provider::models_dev::ModelsDevCatalog;
use zex::provider::models_dev::ModelsDevProviderAlias;
use zex::provider::thinking::EffortMap;
use zex::provider::thinking::ThinkingCompat;
use zex::provider::thinking::ThinkingConfig;
use zex::provider::thinking::ThinkingLevel;
use zex::provider::thinking::ThinkingMode;
use zex::provider::OpenAiApi;

const SHOWN: &str = ".zex/config.toml";

fn environment(variables: &[(&str, &str)]) -> Environment {
    Environment {
        entries: variables
            .iter()
            .map(|(name, value)| ((*name).to_owned(), Some((*value).to_owned())))
            .collect(),
    }
}

/// The configuration that two files and an environment come to.
fn load(
    global: Option<&str>,
    project: Option<&str>,
    variables: &[(&str, &str)],
) -> Result<Config, String> {
    let source = |shown: &str, content: Option<&str>| ConfigSource {
        shown: shown.to_owned(),
        content: content.map(str::to_owned),
    };
    let known = KnownModels { catalog: ModelsDevCatalog::default(), aliases: Vec::new() };
    Config::load_from(
        &environment(variables),
        &source("config.toml", global),
        &source(SHOWN, project),
        known,
        PathBuf::from("project"),
    )
}

#[test]
fn provider_base_url_can_match_models_dev_provider() {
    let mut catalog = ProviderCatalog {
        models_dev: ModelsDevCatalog::default(),
        models_dev_aliases: vec![ModelsDevProviderAlias {
            id: "openai".to_owned(),
            api: Some("https://api.openai.com/v1".to_owned()),
        }],
        ..Default::default()
    };
    catalog.providers.push(ProviderConfig {
        id: "gateway".to_owned(),
        display_name: "Gateway".to_owned(),
        base_url: "https://api.openai.com/v1/".to_owned(),
        api_key: SecretValue::new("secret".to_owned()),
        openai_api: OpenAiApi::Responses,
        thinking: None,
        compat: None,
        models: Vec::new(),
    });

    assert_eq!(
        catalog.matched_models_dev_provider(&catalog.providers[0]),
        Some("openai")
    );
}

#[test]
fn custom_provider_uses_namespaced_models_dev_capabilities() {
    let mut catalog = ProviderCatalog {
            models_dev: ModelsDevCatalog::from_json(
                br#"{
                    "gateway-one": {
                        "models": {
                            "openai/gpt-5.4-mini": {
                                "reasoning": true,
                                "reasoning_options": [
                                    {"type": "effort", "values": ["none", "low", "medium", "high", "xhigh"]}
                                ]
                            }
                        }
                    },
                    "gateway-two": {
                        "models": {
                            "openai/gpt-5.4-mini": {
                                "reasoning": true,
                                "reasoning_options": [
                                    {"type": "effort", "values": ["none", "low", "medium", "high", "xhigh"]}
                                ]
                            }
                        }
                    }
                }"#,
            )
            .unwrap(),
            ..Default::default()
        };
    catalog.providers.push(ProviderConfig {
        id: "custom".to_owned(),
        display_name: "Custom".to_owned(),
        base_url: "https://example.com/v1".to_owned(),
        api_key: SecretValue::new("secret".to_owned()),
        openai_api: OpenAiApi::Responses,
        thinking: None,
        compat: None,
        models: vec![ModelConfig {
            id: "gpt-5.4-mini".to_owned(),
            display_name: "GPT-5.4 mini".to_owned(),
            thinking: None,
            compat: None,
            context_window: None,
        }],
    });

    assert_eq!(
        catalog
            .thinking_capabilities(&ModelRef {
                provider_id: "custom".to_owned(),
                model_id: "gpt-5.4-mini".to_owned(),
            })
            .available_levels(),
        vec![
            ThinkingLevel::Off,
            ThinkingLevel::Low,
            ThinkingLevel::Medium,
            ThinkingLevel::High,
            ThinkingLevel::XHigh
        ]
    );
}

/// A catalog with the provider "gw" at `base_url`, whose model "m" is listed by
/// "openai" and by "other".
fn gateway(base_url: &str) -> ProviderCatalog {
    ProviderCatalog {
        models_dev: ModelsDevCatalog::from_json(
            br#"{
                "openai": {"models": {"m": {
                    "reasoning": true,
                    "reasoning_options": [{"type": "effort", "values": ["low"]}],
                    "limit": {"context": 900000, "output": 9000}
                }}},
                "other": {"models": {"m": {
                    "reasoning": true,
                    "reasoning_options": [{"type": "effort", "values": ["max"]}],
                    "limit": {"context": 1000, "output": 100}
                }}}
            }"#,
        )
        .unwrap(),
        models_dev_aliases: vec![ModelsDevProviderAlias {
            id: "openai".to_owned(),
            api: Some("https://a.io".to_owned()),
        }],
        providers: vec![ProviderConfig {
            id: "gw".to_owned(),
            display_name: "Gateway".to_owned(),
            base_url: base_url.to_owned(),
            api_key: SecretValue::new("secret".to_owned()),
            openai_api: OpenAiApi::Responses,
            thinking: None,
            compat: None,
            models: vec![ModelConfig {
                id: "m".to_owned(),
                display_name: "M".to_owned(),
                thinking: None,
                compat: None,
                context_window: None,
            }],
        }],
        ..Default::default()
    }
}

#[test]
fn address_decides_before_the_bare_model_id() {
    let target = ModelRef { provider_id: "gw".to_owned(), model_id: "m".to_owned() };
    let matched = gateway("https://a.io");
    assert_eq!(
        matched.thinking_capabilities(&target).available_levels(),
        vec![ThinkingLevel::Off, ThinkingLevel::Low]
    );
    let unknown = gateway("https://b.io");
    assert_eq!(
        unknown.thinking_capabilities(&target).available_levels(),
        vec![ThinkingLevel::Off, ThinkingLevel::Low, ThinkingLevel::Max]
    );
}

#[test]
fn the_bare_model_id_decides_a_limit_before_the_address() {
    let target = ModelRef { provider_id: "gw".to_owned(), model_id: "m".to_owned() };
    for address in ["https://a.io", "https://b.io"] {
        let limit = gateway(address).context_limit(&target).unwrap();
        assert_eq!(limit.context, 1_000, "{address}");
    }
}

#[test]
fn choices_are_found_by_their_keys() {
    let mut catalog = gateway("https://a.io");
    let mut second = gateway("https://b.io").providers.remove(0);
    second.id = "gw2".to_owned();
    catalog.providers.push(second);
    assert!(catalog.validate().is_ok());
    let choices = catalog.choices();
    assert_eq!(choices.len(), 2);
    for choice in &choices {
        assert!(catalog.contains(&choice.target));
        assert_eq!(choice.thinking, catalog.thinking_capabilities(&choice.target));
        assert_eq!(
            ModelRef::from_key(&choice.target.key()).map(|target| target.key()),
            Some(choice.target.key())
        );
    }
    assert_ne!(choices[0].target.key(), choices[1].target.key());
}

#[test]
fn theme_color_digits_are_digits() {
    for invalid in ["#+1+1+1", "#+11", "#-12", "# 12", "#1+2"] {
        assert!(ThemeColor::parse(invalid).is_err(), "{invalid:?} should fail");
    }
    assert_eq!(ThemeColor::parse("#010203").unwrap(), ThemeColor::Rgb(1, 2, 3));
}

#[test]
fn theme_color_parses_hex_and_terminal_keywords() {
    assert_eq!(
        ThemeColor::parse("#7df").unwrap(),
        ThemeColor::Rgb(0x77, 0xdd, 0xff)
    );
    assert_eq!(
        ThemeColor::parse("#7DCFFF").unwrap(),
        ThemeColor::Rgb(0x7d, 0xcf, 0xff)
    );
    assert_eq!(
        ThemeColor::parse(" default ").unwrap(),
        ThemeColor::Terminal
    );
    assert_eq!(ThemeColor::parse("RESET").unwrap(), ThemeColor::Terminal);

    for invalid in ["", "red", "7dcfff", "#12", "#12345", "#1234567", "#zzzzzz"] {
        assert!(
            ThemeColor::parse(invalid).is_err(),
            "{invalid:?} should fail"
        );
    }
}

#[test]
fn model_context_window_overrides_models_dev_limit() {
    let mut catalog = ProviderCatalog {
        models_dev: ModelsDevCatalog::from_json(
            br#"{
                "one": {
                    "models": {
                        "m": {"limit": {"context": 100000, "output": 32000}}
                    }
                }
            }"#,
        )
        .unwrap(),
        ..Default::default()
    };
    catalog.providers.push(ProviderConfig {
        id: "one".to_owned(),
        display_name: "One".to_owned(),
        base_url: "https://one.example/v1".to_owned(),
        api_key: SecretValue::new("secret".to_owned()),
        openai_api: OpenAiApi::Responses,
        thinking: None,
        compat: None,
        models: vec![
            ModelConfig {
                id: "m".to_owned(),
                display_name: "M".to_owned(),
                thinking: None,
                compat: None,
                context_window: None,
            },
            ModelConfig {
                id: "big".to_owned(),
                display_name: "Big".to_owned(),
                thinking: None,
                compat: None,
                context_window: Some(500_000),
            },
        ],
    });

    let discovered = catalog
        .context_limit(&ModelRef {
            provider_id: "one".to_owned(),
            model_id: "m".to_owned(),
        })
        .unwrap();
    assert_eq!(discovered.context, 100_000);
    assert_eq!(discovered.output, Some(32_000));

    let overridden = catalog
        .context_limit(&ModelRef {
            provider_id: "one".to_owned(),
            model_id: "big".to_owned(),
        })
        .unwrap();
    assert_eq!(overridden.context, 500_000);
    assert_eq!(overridden.output, None);
}


#[test]
fn provider_catalog_overrides_legacy_values_and_environment_overrides_runtime_settings() {
    let global = r#"
api_key = "global-secret"
model = "global-model"
base_url = "https://global.example/v1"
max_turns = 4
"#;
    let project = r#"
active_model = { provider_id = "project", model_id = "project-model" }

[[providers]]
id = "project"
display_name = "Project"
base_url = "https://project.example/v1"
api_key = "project-secret"
openai_api = "responses"

[[providers.models]]
id = "project-model"
display_name = "Project Model"

max_turns = 8
"#;
    let config = load(
        Some(global),
        Some(project),
        &[("ZEX_API_KEY", "environment-secret"), ("ZEX_MAX_TURNS", "10")],
    )
    .unwrap();

    let active = config.active_model.as_ref().unwrap();
    let (provider, model) = config.providers.model(active).unwrap();
    assert_eq!(provider.api_key.expose(), "project-secret");
    assert_eq!(model.id, "project-model");
    assert_eq!(provider.base_url, "https://project.example/v1");
    assert_eq!(config.max_turns, 10);
}

#[test]
fn persists_thinking_level_in_project_config() {
    let content = persist_thinking_level(SHOWN, "", ThinkingLevel::High).unwrap();
    assert!(content.contains("default_thinking_level = \"high\""));
}

#[test]
fn loads_and_persists_thinking_visibility() {
    let project = r#"
api_key = "secret"
model = "model"
hide_thinking_block = true
"#;
    let config = load(None, Some(project), &[]).unwrap();
    assert!(config.hide_thinking_block);

    let content = persist_show_thinking(SHOWN, project, true).unwrap();
    assert!(content.contains("hide_thinking_block = false"));
    let kept = read_config_file(SHOWN, Some(&content)).unwrap();
    assert_eq!(kept.hide_thinking_block, Some(false));
    assert_eq!(kept.model.as_deref(), Some("model"));
    assert_eq!(kept.api_key.as_deref(), Some("secret"));
}

fn openai_catalog() -> ProviderCatalog {
    let mut words = EffortMap::new();
    words.insert(ThinkingLevel::Max, "max".to_owned());
    words.insert(ThinkingLevel::Low, "low".to_owned());
    ProviderCatalog {
        active_model: Some(ModelRef {
            provider_id: "openai".to_owned(),
            model_id: "gpt-5".to_owned(),
        }),
        models_dev: ModelsDevCatalog::default(),
        models_dev_aliases: Vec::new(),
        providers: vec![ProviderConfig {
            id: "openai".to_owned(),
            display_name: "OpenAI".to_owned(),
            base_url: "https://api.openai.com/v1".to_owned(),
            api_key: SecretValue::new("secret".to_owned()),
            openai_api: OpenAiApi::Responses,
            thinking: None,
            compat: Some(ThinkingCompat {
                supports_reasoning_effort: Some(true),
                reasoning_effort_map: words,
                supports_interleaved_thinking: None,
            }),
            models: vec![ModelConfig {
                id: "gpt-5".to_owned(),
                display_name: "GPT-5 \"pro\"\nsecond line".to_owned(),
                thinking: Some(ThinkingConfig {
                    min_level: ThinkingLevel::Low,
                    max_level: ThinkingLevel::Max,
                    supported: Some(vec![ThinkingLevel::Low, ThinkingLevel::Max]),
                    mode: ThinkingMode::Effort,
                }),
                compat: None,
                context_window: Some(400_000),
            }],
        }],
    }
}

#[test]
fn persists_provider_catalog_and_active_model_without_legacy_fields() {
    let active_model =
        ModelRef { provider_id: "openai".to_owned(), model_id: "gpt-5".to_owned() };
    let catalog = ProviderCatalog {
        active_model: Some(active_model),
        models_dev: ModelsDevCatalog::default(),
        models_dev_aliases: Vec::new(),
        providers: vec![ProviderConfig {
            id: "openai".to_owned(),
            display_name: "OpenAI".to_owned(),
            base_url: "https://api.openai.com/v1".to_owned(),
            api_key: SecretValue::new("secret".to_owned()),
            openai_api: OpenAiApi::Responses,
            thinking: None,
            compat: None,
            models: vec![ModelConfig {
                id: "gpt-5".to_owned(),
                display_name: "GPT-5".to_owned(),
                thinking: Some(ThinkingConfig {
                    min_level: ThinkingLevel::Low,
                    max_level: ThinkingLevel::Max,
                    supported: None,
                    mode: ThinkingMode::Effort,
                }),
                compat: None,
                context_window: None,
            }],
        }],
    };

    let content = persist_provider_catalog(
        SHOWN,
        "model = \"legacy\"\napi_key = \"legacy-secret\"\n",
        &catalog,
    )
    .unwrap();

    assert!(content.contains("[[providers]]"));
    assert!(content.contains("provider_id = \"openai\""));
    assert!(!content.contains("model = \"legacy\""));
    assert!(!content.contains("api_key = \"legacy-secret\""));
}

#[test]
fn written_catalog_is_read_back() {
    let before = "max_turns = 5\nmodel = \"legacy\"\n\n[theme]\naccent_primary = \"#111111\"\n";
    let content = persist_provider_catalog(SHOWN, before, &openai_catalog()).unwrap();
    let read = read_config_file(SHOWN, Some(&content)).unwrap();
    let wanted = openai_catalog();
    let (provider, written) = (&read.providers[0], &wanted.providers[0]);
    assert_eq!(read.providers.len(), 1);
    assert_eq!(provider.id, written.id);
    assert_eq!(provider.display_name, written.display_name);
    assert_eq!(provider.base_url, written.base_url);
    assert_eq!(provider.api_key.expose(), "secret");
    assert_eq!(provider.openai_api, written.openai_api);
    assert_eq!(provider.thinking, written.thinking);
    assert_eq!(provider.compat, written.compat);
    assert_eq!(provider.models[0].id, written.models[0].id);
    assert_eq!(provider.models[0].display_name, written.models[0].display_name);
    assert_eq!(provider.models[0].thinking, written.models[0].thinking);
    assert_eq!(provider.models[0].context_window, Some(400_000));
    let active = read.active_model.as_ref().unwrap();
    assert_eq!((active.provider_id.as_str(), active.model_id.as_str()), ("openai", "gpt-5"));
    assert_eq!(read.model, None);
    assert_eq!(read.max_turns, Some(5));
    assert_eq!(read.theme.accent_primary, Some(ThemeColor::Rgb(0x11, 0x11, 0x11)));
}

#[test]
fn written_active_model_is_read_back_beside_floats_and_times() {
    let target = ModelRef { provider_id: "p".to_owned(), model_id: "m/x".to_owned() };
    let content = persist_active_model(SHOWN, "a = 1.5\nb = 1979-05-27\n", &target).unwrap();
    assert!(content.contains("a = 1.5"));
    assert!(content.contains("b = 1979-05-27"));
    assert!(content.contains("model_id = \"m/x\""));
}

#[test]
fn unsound_catalogs_and_unreadable_files_are_not_written() {
    let mut unsound = openai_catalog();
    unsound.providers[0].id = "a/b".to_owned();
    assert_eq!(
        persist_provider_catalog(SHOWN, "", &unsound).unwrap_err(),
        "provider ID \"a/b\" must not contain '/'"
    );
    let message = persist_thinking_level(SHOWN, "not toml", ThinkingLevel::Low).unwrap_err();
    assert!(message.starts_with("failed to parse config file .zex/config.toml: "));
}

#[test]
fn loads_provider_and_model_thinking_capabilities() {
    let project = r#"
active_model = { provider_id = "openai", model_id = "codex-ultra" }
default_thinking_level = "max"
hide_thinking_block = true

[[providers]]
id = "openai"
display_name = "OpenAI"
base_url = "https://api.openai.com/v1"
api_key = "secret"
openai_api = "responses"

[providers.thinking]
min_level = "low"
max_level = "xhigh"
mode = "effort"

[providers.compat]
supports_reasoning_effort = true
supports_interleaved_thinking = true

[providers.compat.reasoning_effort_map]
xhigh = "xhigh"

[[providers.models]]
id = "codex-ultra"
display_name = "Codex Ultra"

[providers.models.thinking]
min_level = "minimal"
max_level = "max"
mode = "effort"

[providers.models.compat.reasoning_effort_map]
max = "max"
"#;
    let config = load(None, Some(project), &[]).unwrap();
    let capabilities =
        config.providers.thinking_capabilities(config.active_model.as_ref().unwrap());

    assert_eq!(config.default_thinking_level, ThinkingLevel::Max);
    assert!(config.hide_thinking_block);
    assert_eq!(capabilities.min_level, ThinkingLevel::Minimal);
    assert_eq!(capabilities.max_level, ThinkingLevel::Max);
    assert!(capabilities.supports_interleaved_thinking);
    assert_eq!(
        capabilities.reasoning_effort_map.get(&ThinkingLevel::Max).map(String::as_str),
        Some("max")
    );
}

#[test]
fn session_directory_is_named_by_environment_then_file() {
    let file = read_config_file(SHOWN, Some("session_dir = \".zex/history\"\n")).unwrap();
    assert!(matches!(session_place(true, &file), SessionPlace::Environment));
    assert!(matches!(
        session_place(false, &file),
        SessionPlace::File(path) if path == ".zex/history"
    ));
    let blank = read_config_file(SHOWN, Some("session_dir = \"  \"\n")).unwrap();
    assert!(matches!(session_place(false, &blank), SessionPlace::Global));
}

#[test]
fn theme_overrides_merge_project_over_global() {
    let global = "[theme]\naccent_primary = \"#111111\"\naccent_secondary = \"#222222\"\n";
    let project = "[theme]\naccent_primary = \"#333333\"\n";
    let config = load(Some(global), Some(project), &[]).unwrap();

    assert_eq!(config.theme.accent_primary, Some(ThemeColor::Rgb(0x33, 0x33, 0x33)));
    assert_eq!(config.theme.accent_secondary, Some(ThemeColor::Rgb(0x22, 0x22, 0x22)));
    assert_eq!(config.theme.background, None);
}

#[test]
fn invalid_theme_color_fails_config_load() {
    let project = "[theme]\naccent_primary = \"not-a-color\"\n";
    assert!(load(None, Some(project), &[]).is_err());
}

#[test]
fn unknown_settings_are_refused() {
    for content in [
        "colour = 1",
        "[memory]\nsize = 1",
        "[theme]\nink = \"#fff\"",
        "max_context_tokens = 1\nmax_context_chars = 1",
        "openai_api = \"RESPONSES\"",
        "max_turns = -1",
        "max_turns = 1.5",
    ] {
        assert_eq!(
            read_config_file(SHOWN, Some(content)).err().unwrap(),
            "failed to parse config file .zex/config.toml"
        );
    }
    assert!(read_config_file(SHOWN, Some("max_turns = ")).err().unwrap().contains(SHOWN));
    assert_eq!(read_config_file(SHOWN, None).unwrap().max_turns, None);
}

#[test]
fn context_budget_has_the_documented_default() {
    let config = load(Some(""), Some(""), &[]).unwrap();
    assert_eq!(config.max_context_tokens, 120_000);
}

#[test]
fn legacy_max_context_chars_key_and_environment_variable_still_work() {
    let project = "max_context_chars = 64_000\n";
    let config = load(None, Some(project), &[]).unwrap();
    assert_eq!(config.max_context_tokens, 64_000);

    let config = load(None, Some(project), &[("ZEX_MAX_CONTEXT_CHARS", "80000")]).unwrap();
    assert_eq!(config.max_context_tokens, 80_000);

    let config = load(
        None,
        Some(project),
        &[("ZEX_MAX_CONTEXT_CHARS", "80000"), ("ZEX_MAX_CONTEXT_TOKENS", "96000")],
    )
    .unwrap();
    assert_eq!(config.max_context_tokens, 96_000);
}

#[test]
fn memory_config_merges_and_environment_overrides_runtime_limits() {
    let global = r#"
[memory]
enabled = true
mode = "summary"
recall_rate_limit = 4
max_recall_tokens = 1024
hot_cache_size = 8
auto_pin_important = false
"#;
    let project = r#"
[memory]
enabled = false
mode = "pointer_priority"
max_recall_tokens = 2048
"#;
    let config = load(
        Some(global),
        Some(project),
        &[("ZEX_MEMORY_ENABLED", "true"), ("ZEX_MEMORY_RECALL_RATE_LIMIT", "7")],
    )
    .unwrap();

    assert!(config.memory.enabled);
    assert_eq!(config.memory.mode, MemoryMode::PointerPriority);
    assert_eq!(config.memory.recall_rate_limit, 7);
    assert_eq!(config.memory.max_recall_tokens, 2_048);
    assert_eq!(config.memory.hot_cache_size, 8);
    assert!(!config.memory.auto_pin_important);
}

#[test]
fn memory_can_be_disabled_for_traditional_behavior() {
    let config = load(None, Some("[memory]\nenabled = false\n"), &[]).unwrap();
    assert!(!config.memory.enabled);
}

#[test]
fn settings_that_are_no_numbers_are_named() {
    let message = load(None, None, &[("ZEX_MAX_TURNS", "many")]).err().unwrap();
    assert!(message.contains("ZEX_MAX_TURNS"));
    let zero = load(None, Some("max_turns = 0"), &[]).err().unwrap();
    assert!(zero.contains("max_turns"));
    let seconds = load(None, None, &[("ZEX_TOOL_TIMEOUT_SECONDS", "-1")]).err().unwrap();
    assert!(seconds.contains("ZEX_TOOL_TIMEOUT_SECONDS"));
    assert_eq!(load(None, None, &[("ZEX_MAX_TURNS", " 3")]).is_err(), true);
    assert_eq!(load(None, None, &[]).unwrap().max_turns, 12);
}

#[test]
fn model_keys_split_at_the_first_slash() {
    let target = ModelRef::from_key("openrouter/openai/gpt-5").unwrap();
    assert_eq!(target.provider_id, "openrouter");
    assert_eq!(target.model_id, "openai/gpt-5");
    assert_eq!(target.key(), "openrouter/openai/gpt-5");
    assert!(ModelRef::from_key("/gpt").is_none());
    assert!(ModelRef::from_key("gpt").is_none());
    assert!(ModelRef::from_key("openai/").is_none());
}

#[test]
fn secrets_are_not_shown() {
    let secret = SecretValue::new("top".to_owned());
    assert_eq!(secret.debug_text(), "<redacted>");
    assert_eq!(secret.expose(), "top");
    assert!(SecretValue::new("  ".to_owned()).is_empty());
}

#[test]
fn each_fault_of_a_catalog_is_named() {
    let fault = |change: fn(&mut ProviderCatalog)| {
        let mut catalog = openai_catalog();
        change(&mut catalog);
        catalog.validate().unwrap_err()
    };
    assert!(openai_catalog().validate().is_ok());
    assert_eq!(fault(|c| c.providers[0].id = " ".to_owned()), "provider ID must not be empty");
    assert_eq!(
        fault(|c| c.providers[0].display_name = String::new()),
        "provider display name must not be empty"
    );
    assert_eq!(
        fault(|c| c.providers[0].base_url = String::new()),
        "provider base URL must not be empty"
    );
    assert_eq!(
        fault(|c| c.providers[0].api_key = SecretValue::new(String::new())),
        "provider openai API key must not be empty"
    );
    assert_eq!(
        fault(|c| c.providers[0].models[0].id = String::new()),
        "model ID must not be empty for provider openai"
    );
    assert_eq!(
        fault(|c| c.active_model = ModelRef::from_key("openai/other")),
        "active model openai/other is not configured"
    );
    assert_eq!(
        fault(|c| c.providers[0].models[0].thinking.as_mut().unwrap().min_level =
            ThinkingLevel::Off),
        "model openai/gpt-5 thinking.min_level must not be off"
    );
}

#[test]
fn the_first_bad_file_is_named() {
    let both = load(Some("x = "), Some("y = "), &[]).err().unwrap();
    assert!(both.starts_with("failed to parse config file config.toml: "));
    let second = load(Some("max_turns = 2"), Some("y = "), &[]).err().unwrap();
    assert!(second.starts_with("failed to parse config file .zex/config.toml: "));
    let api = load(None, None, &[("ZEX_OPENAI_API", "soap")]).err().unwrap();
    assert!(api.contains("soap"));
    let legacy = load(
        None,
        None,
        &[("ZEX_API_KEY", "k"), ("OPENAI_MODEL", "m"), ("ZEX_OPENAI_API", "responses")],
    )
    .unwrap();
    assert!(legacy.configured);
    assert_eq!(legacy.active_model.unwrap().key(), "default/m");
    assert_eq!(legacy.providers.providers[0].base_url, "https://api.openai.com/v1");
    assert_eq!(legacy.providers.providers[0].openai_api, OpenAiApi::Responses);
}

#[test]
fn sections_may_be_lists_and_choices_may_be_tables() {
    let file = read_config_file(
        SHOWN,
        Some(
            r#"
openai_api = { responses = {} }
default_thinking_level = { high = [] }
active_model = ["p", "m", "beyond"]
memory = [true, "summary", 1, 2, 3, false]
providers = [["p", "P", "https://p.io", "key", "chat-completions", ["low", "high"], [true], [["m", "M"]]]]
"#,
        ),
    )
    .unwrap();
    assert_eq!(file.openai_api, Some(OpenAiApi::Responses));
    assert_eq!(file.default_thinking_level, Some(ThinkingLevel::High));
    assert_eq!(file.active_model.map(|target| target.key()), Some("p/m".to_owned()));
    assert_eq!(file.memory.enabled, Some(true));
    assert_eq!(file.memory.hot_cache_size, Some(3));
    let provider = &file.providers[0];
    assert_eq!(provider.id, "p");
    assert_eq!(provider.openai_api, OpenAiApi::ChatCompletions);
    assert_eq!(provider.thinking.as_ref().unwrap().max_level, ThinkingLevel::High);
    assert_eq!(provider.compat.as_ref().unwrap().supports_reasoning_effort, Some(true));
    assert_eq!(provider.models[0].display_name, "M");
    for refused in [
        "active_model = [\"p\"]",
        "memory = [true]",
        "theme = [\"#fff\"]",
        "openai_api = { responses = 1 }",
        "openai_api = { responses = {}, other = {} }",
        "providers = [[\"p\", \"P\", \"https://p.io\"]]",
    ] {
        assert!(read_config_file(SHOWN, Some(refused)).is_err(), "{refused}");
    }
}
