use zex::agent::message::Message;
use zex::agent::message::ToolCall;
use zex::config::catalog::ModelConfig;
use zex::config::catalog::ProviderCatalog;
use zex::config::catalog::ProviderConfig;
use zex::config::catalog::SecretValue;
use zex::json::parse_json;
use zex::provider::models_dev::ModelsDevCatalog;
use zex::provider::registry::ProviderRegistry;
use zex::provider::sanitize_messages;
use zex::provider::thinking::normalize_thinking_level;
use zex::provider::thinking::EffortMap;
use zex::provider::thinking::ThinkingCapabilities;
use zex::provider::thinking::ThinkingCompat;
use zex::provider::thinking::ThinkingConfig;
use zex::provider::thinking::ThinkingLevel;
use zex::provider::thinking::ThinkingMode;
use zex::provider::OpenAiApi;

fn efforts(words: &[(ThinkingLevel, &str)]) -> EffortMap {
    let mut map = EffortMap::new();
    for (level, word) in words {
        map.insert(*level, (*word).to_owned());
    }
    map
}

#[test]
fn parses_and_orders_the_fixed_thinking_ladder() {
    let parsed = ["off", "minimal", "low", "medium", "high", "xhigh", "max"]
        .map(|level| level.parse::<ThinkingLevel>().unwrap());

    assert_eq!(parsed, ThinkingLevel::ALL);
    assert!(ThinkingLevel::Minimal < ThinkingLevel::Max);
    assert_eq!(ThinkingLevel::Max.to_string(), "max");
}

#[test]
fn unknown_levels_are_refused_by_name() {
    assert_eq!(ThinkingLevel::parse(" HIGH ").unwrap(), ThinkingLevel::High);
    assert!(ThinkingLevel::parse("huge").unwrap_err().contains("huge"));
}

#[test]
fn next_walks_the_ladder_and_starts_over() {
    let mut level = ThinkingLevel::Off;
    for expected in [1usize, 2, 3, 4, 5, 6, 0] {
        level = level.next();
        assert_eq!(level, ThinkingLevel::ALL[expected]);
    }
}

#[test]
fn safe_default_clamps_max_to_high() {
    let normalized = normalize_thinking_level(&ThinkingCapabilities::default(), ThinkingLevel::Max);

    assert_eq!(normalized.requested, ThinkingLevel::Max);
    assert_eq!(normalized.clamped, ThinkingLevel::High);
    assert_eq!(normalized.provider_value.as_deref(), Some("high"));
}

#[test]
fn non_contiguous_capabilities_clamp_without_increasing_depth() {
    let capabilities = ThinkingCapabilities::from_discovered(
        vec![ThinkingLevel::Off, ThinkingLevel::High, ThinkingLevel::Max],
        efforts(&[(ThinkingLevel::High, "high"), (ThinkingLevel::Max, "max")]),
        false,
    );

    let below_min = normalize_thinking_level(&capabilities, ThinkingLevel::Medium);
    assert_eq!(below_min.clamped, ThinkingLevel::High);
    assert_eq!(below_min.effective, ThinkingLevel::High);

    let gap = normalize_thinking_level(&capabilities, ThinkingLevel::XHigh);
    assert_eq!(gap.clamped, ThinkingLevel::High);
    assert_eq!(gap.effective, ThinkingLevel::High);
    assert_eq!(
        capabilities.available_levels(),
        vec![ThinkingLevel::Off, ThinkingLevel::High, ThinkingLevel::Max]
    );
}

#[test]
fn custom_map_supports_max_and_falls_back_without_passthrough() {
    let mut capabilities = ThinkingCapabilities::default();
    capabilities.apply(
        Some(&ThinkingConfig {
            min_level: ThinkingLevel::Minimal,
            max_level: ThinkingLevel::Max,
            supported: None,
            mode: ThinkingMode::Effort,
        }),
        Some(&ThinkingCompat {
            supports_reasoning_effort: Some(true),
            reasoning_effort_map: efforts(&[
                (ThinkingLevel::XHigh, "extra"),
                (ThinkingLevel::Max, "max"),
            ]),
            supports_interleaved_thinking: None,
        }),
    );
    let max = normalize_thinking_level(&capabilities, ThinkingLevel::Max);
    assert_eq!(max.provider_value.as_deref(), Some("max"));

    capabilities.reasoning_effort_map.remove(&ThinkingLevel::Max);
    let fallback = normalize_thinking_level(&capabilities, ThinkingLevel::Max);
    assert_eq!(fallback.clamped, ThinkingLevel::Max);
    assert_eq!(fallback.provider_value.as_deref(), Some("extra"));

    capabilities.reasoning_effort_map.remove(&ThinkingLevel::XHigh);
    let high_fallback = normalize_thinking_level(&capabilities, ThinkingLevel::Max);
    assert_eq!(high_fallback.provider_value.as_deref(), Some("high"));

    capabilities.reasoning_effort_map.clear();
    let omitted = normalize_thinking_level(&capabilities, ThinkingLevel::Max);
    assert_eq!(omitted.provider_value, None);
}

#[test]
fn manual_thinking_reenables_effort_after_discovered_disable() {
    let mut capabilities = ThinkingCapabilities::disabled(true);
    capabilities.apply(
        Some(&ThinkingConfig {
            min_level: ThinkingLevel::High,
            max_level: ThinkingLevel::Max,
            supported: Some(vec![ThinkingLevel::Off, ThinkingLevel::High, ThinkingLevel::Max]),
            mode: ThinkingMode::Effort,
        }),
        Some(&ThinkingCompat {
            supports_reasoning_effort: Some(true),
            reasoning_effort_map: efforts(&[
                (ThinkingLevel::High, "high"),
                (ThinkingLevel::Max, "max"),
            ]),
            supports_interleaved_thinking: None,
        }),
    );

    assert_eq!(
        capabilities.available_levels(),
        vec![ThinkingLevel::Off, ThinkingLevel::High, ThinkingLevel::Max]
    );
    assert_eq!(
        normalize_thinking_level(&capabilities, ThinkingLevel::Max).effective,
        ThinkingLevel::Max
    );
}

#[test]
fn provider_defaults_merge_with_model_overrides() {
    let mut capabilities = ThinkingCapabilities::default();
    capabilities.apply(
        Some(&ThinkingConfig {
            min_level: ThinkingLevel::Low,
            max_level: ThinkingLevel::XHigh,
            supported: None,
            mode: ThinkingMode::Effort,
        }),
        Some(&ThinkingCompat {
            supports_reasoning_effort: Some(true),
            reasoning_effort_map: efforts(&[(ThinkingLevel::XHigh, "extra-high")]),
            supports_interleaved_thinking: Some(true),
        }),
    );
    capabilities.apply(
        Some(&ThinkingConfig {
            min_level: ThinkingLevel::Minimal,
            max_level: ThinkingLevel::Max,
            supported: None,
            mode: ThinkingMode::Effort,
        }),
        Some(&ThinkingCompat {
            supports_reasoning_effort: None,
            reasoning_effort_map: efforts(&[(ThinkingLevel::Max, "maximum")]),
            supports_interleaved_thinking: None,
        }),
    );

    assert_eq!(capabilities.min_level, ThinkingLevel::Minimal);
    assert_eq!(capabilities.max_level, ThinkingLevel::Max);
    assert!(capabilities.supports_interleaved_thinking);
    assert_eq!(
        capabilities.reasoning_effort_map.get(&ThinkingLevel::XHigh).map(String::as_str),
        Some("extra-high")
    );
    assert_eq!(
        capabilities.reasoning_effort_map.get(&ThinkingLevel::Max).map(String::as_str),
        Some("maximum")
    );
}

#[test]
fn off_and_explicitly_disabled_effort_are_omitted() {
    let off = normalize_thinking_level(&ThinkingCapabilities::default(), ThinkingLevel::Off);
    assert_eq!(off.provider_value, None);

    let disabled = ThinkingCapabilities {
        supports_reasoning_effort: false,
        ..ThinkingCapabilities::default()
    };
    let normalized = normalize_thinking_level(&disabled, ThinkingLevel::High);
    assert_eq!(normalized.clamped, ThinkingLevel::Off);
    assert_eq!(normalized.provider_value, None);
}

#[test]
fn unmapped_non_extended_levels_are_never_substituted() {
    let mut capabilities = ThinkingCapabilities::default();
    capabilities.reasoning_effort_map.remove(&ThinkingLevel::Medium);

    let normalized = normalize_thinking_level(&capabilities, ThinkingLevel::Medium);

    assert_eq!(normalized.clamped, ThinkingLevel::Medium);
    assert_eq!(normalized.provider_value, None);
}

#[test]
fn summary_names_the_available_levels() {
    assert_eq!(ThinkingCapabilities::default().summary(), "off/low/medium/high");
    assert_eq!(ThinkingCapabilities::disabled(false).summary(), "off");
}

fn tool_turn() -> Message {
    Message::Assistant {
        content: String::new(),
        thinking: Some("Need the tool.".to_owned()),
        tool_calls: vec![ToolCall {
            id: "call".to_owned(),
            name: "read".to_owned(),
            arguments: "{}".to_owned(),
        }],
        provider_state: Some(parse_json(br#"{"reasoning_content": "Need the tool."}"#).unwrap()),
    }
}

fn final_turn() -> Message {
    Message::Assistant {
        content: "Done".to_owned(),
        thinking: Some("Finished.".to_owned()),
        tool_calls: Vec::new(),
        provider_state: Some(parse_json(br#"{"reasoning_content": "Finished."}"#).unwrap()),
    }
}

#[test]
fn request_history_keeps_reasoning_only_for_interleaved_tool_turns() {
    let interleaved = sanitize_messages(&[tool_turn(), final_turn()], true);
    assert!(matches!(
        &interleaved[0],
        Message::Assistant { thinking: Some(_), provider_state: Some(_), .. }
    ));
    assert!(matches!(
        &interleaved[1],
        Message::Assistant { thinking: None, provider_state: None, .. }
    ));

    let stripped = sanitize_messages(&[tool_turn(), final_turn()], false);
    assert!(stripped.iter().all(|message| matches!(
        message,
        Message::Assistant { thinking: None, provider_state: None, .. }
    )));
}

fn catalog() -> ProviderCatalog {
    ProviderCatalog {
        active_model: None,
        providers: vec![
            ProviderConfig {
                id: "one".to_owned(),
                display_name: "One".to_owned(),
                base_url: "https://one.example/v1".to_owned(),
                api_key: SecretValue::new("one-secret".to_owned()),
                openai_api: OpenAiApi::Responses,
                thinking: None,
                compat: Some(ThinkingCompat {
                    supports_reasoning_effort: Some(true),
                    reasoning_effort_map: EffortMap::new(),
                    supports_interleaved_thinking: Some(true),
                }),
                models: vec![ModelConfig {
                    id: "reasoning".to_owned(),
                    display_name: "Reasoning".to_owned(),
                    thinking: Some(ThinkingConfig {
                        min_level: ThinkingLevel::Low,
                        max_level: ThinkingLevel::Max,
                        supported: None,
                        mode: ThinkingMode::Effort,
                    }),
                    compat: None,
                    context_window: None,
                }],
            },
            ProviderConfig {
                id: "two".to_owned(),
                display_name: "Two".to_owned(),
                base_url: "https://two.example/v1".to_owned(),
                api_key: SecretValue::new("two-secret".to_owned()),
                openai_api: OpenAiApi::ChatCompletions,
                thinking: None,
                compat: Some(ThinkingCompat {
                    supports_reasoning_effort: Some(false),
                    reasoning_effort_map: EffortMap::new(),
                    supports_interleaved_thinking: Some(false),
                }),
                models: vec![ModelConfig {
                    id: "fast".to_owned(),
                    display_name: "Fast".to_owned(),
                    thinking: None,
                    compat: None,
                    context_window: None,
                }],
            },
        ],
        models_dev: ModelsDevCatalog::default(),
        models_dev_aliases: Vec::new(),
    }
}

#[test]
fn registry_resolves_model_capabilities_by_provider_and_model() {
    let registry = ProviderRegistry::new(&catalog());

    assert_eq!(registry.thinking_capabilities("one/reasoning").max_level, ThinkingLevel::Max);
    assert!(!registry.thinking_capabilities("two/fast").supports_reasoning_effort);
    assert_eq!(registry.thinking_capabilities("one/fast").max_level, ThinkingLevel::High);
}

#[test]
fn registry_update_takes_effect_when_it_is_applied() {
    let mut registry = ProviderRegistry::new(&catalog());
    let mut updated = catalog();
    updated.providers[1].compat = Some(ThinkingCompat {
        supports_reasoning_effort: Some(true),
        reasoning_effort_map: EffortMap::new(),
        supports_interleaved_thinking: Some(false),
    });
    updated.providers[1].models[0].thinking = Some(ThinkingConfig {
        min_level: ThinkingLevel::Minimal,
        max_level: ThinkingLevel::XHigh,
        supported: None,
        mode: ThinkingMode::Effort,
    });

    let update = registry.prepare_update(&updated);
    assert!(!registry.thinking_capabilities("two/fast").supports_reasoning_effort);

    registry.apply_update(update);

    assert_eq!(registry.thinking_capabilities("two/fast").max_level, ThinkingLevel::XHigh);
}

#[test]
fn plan_names_what_is_not_configured() {
    let registry = ProviderRegistry::new(&catalog());
    let mut events = Vec::new();
    let plan = registry
        .plan("one/reasoning", ThinkingLevel::Max, &[tool_turn(), final_turn()], &mut events)
        .unwrap();
    assert_eq!(plan.model_id, "reasoning");
    assert_eq!(plan.provider.api(), OpenAiApi::Responses);
    assert_eq!(plan.thinking.clamped, ThinkingLevel::Max);
    assert_eq!(events.len(), 1);

    let mut none = Vec::new();
    let empty = registry.plan("", ThinkingLevel::Low, &[], &mut none).err().unwrap();
    assert!(empty.contains("no active model configured"));
    let bare = registry.plan("reasoning", ThinkingLevel::Low, &[], &mut none).err().unwrap();
    assert!(bare.contains("invalid model target \"reasoning\""));
    let stranger = registry.plan("three/x", ThinkingLevel::Low, &[], &mut none).err().unwrap();
    assert!(stranger.contains("provider \"three\" is not configured"));
    let missing = registry.plan("one/x", ThinkingLevel::Low, &[], &mut none).err().unwrap();
    assert!(missing.contains("model target \"one/x\" is not configured"));
    assert!(none.is_empty());
}
