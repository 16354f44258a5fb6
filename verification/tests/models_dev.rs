use zex::provider::models_dev::ModelsDevCatalog;
use zex::provider::thinking::ThinkingLevel;

#[test]
fn maps_effort_options_and_disables_toggle_only_models() {
    let catalog = ModelsDevCatalog::parse(
        br#"{
            "openai": {
                "models": {
                    "codex": {
                        "reasoning": true,
                        "reasoning_options": [
                            {"type": "effort", "values": ["none", "high", "max"]}
                        ],
                        "interleaved": {"field": "reasoning_content"}
                    },
                    "toggle": {
                        "reasoning": true,
                        "reasoning_options": [{"type": "toggle"}]
                    }
                }
            }
        }"#,
    )
    .unwrap();

    let codex = catalog.capabilities("openai", "codex").unwrap();
    assert_eq!(
        codex.available_levels(),
        vec![ThinkingLevel::Off, ThinkingLevel::High, ThinkingLevel::Max]
    );
    assert_eq!(codex.min_level, ThinkingLevel::High);
    assert_eq!(codex.max_level, ThinkingLevel::Max);
    assert!(codex.supports_interleaved_thinking);
    assert_eq!(
        codex
            .reasoning_effort_map
            .get(&ThinkingLevel::Max)
            .map(String::as_str),
        Some("max")
    );

    let toggle = catalog.capabilities("openai", "toggle").unwrap();
    assert_eq!(toggle.available_levels(), vec![ThinkingLevel::Off]);
    assert!(!toggle.supports_reasoning_effort);
}

#[test]
fn uses_safe_defaults_when_reasoning_has_no_options() {
    let catalog = ModelsDevCatalog::parse(
        br#"{
            "anthropic": {
                "models": {
                    "sonnet": {
                        "reasoning": true,
                        "reasoning_options": []
                    }
                }
            }
        }"#,
    )
    .unwrap();

    assert_eq!(
        catalog
            .capabilities("anthropic", "sonnet")
            .unwrap()
            .available_levels(),
        vec![
            ThinkingLevel::Off,
            ThinkingLevel::Low,
            ThinkingLevel::Medium,
            ThinkingLevel::High
        ]
    );
}

#[test]
fn accepts_negative_budget_token_sentinels() {
    ModelsDevCatalog::parse(
        br#"{
            "nvidia": {
                "models": {
                    "reasoning-model": {
                        "reasoning": true,
                        "reasoning_options": [
                            {"type": "budget_tokens", "min": -1, "max": 32768}
                        ]
                    }
                }
            }
        }"#,
    )
    .unwrap();
}

#[test]
fn ignores_null_effort_values() {
    let catalog = ModelsDevCatalog::parse(
        br#"{
            "sarvam": {
                "models": {
                    "reasoning-model": {
                        "reasoning": true,
                        "reasoning_options": [
                            {"type": "effort", "values": [null, "low", "medium", "high"]}
                        ]
                    }
                }
            }
        }"#,
    )
    .unwrap();

    assert_eq!(
        catalog
            .capabilities("sarvam", "reasoning-model")
            .unwrap()
            .available_levels(),
        vec![
            ThinkingLevel::Off,
            ThinkingLevel::Low,
            ThinkingLevel::Medium,
            ThinkingLevel::High
        ]
    );
}

#[test]
fn falls_back_when_matching_model_capabilities_agree() {
    let catalog = ModelsDevCatalog::parse(
        br#"{
            "one": {"models": {"unique": {"reasoning": false}}},
            "two": {"models": {"shared": {"reasoning": false}}},
            "three": {"models": {"shared": {"reasoning": false}}}
        }"#,
    )
    .unwrap();

    assert!(catalog.capabilities("gateway", "unique").is_some());
    assert_eq!(
        catalog
            .capabilities("gateway", "shared")
            .unwrap()
            .available_levels(),
        vec![ThinkingLevel::Off]
    );
}

#[test]
fn resolves_namespaced_model_ids_when_capabilities_agree() {
    let catalog = ModelsDevCatalog::parse(
        br#"{
            "one": {
                "models": {
                    "openai/gpt-5.4-mini": {
                        "reasoning": true,
                        "reasoning_options": [
                            {"type": "effort", "values": ["none", "low", "medium", "high", "xhigh"]}
                        ]
                    }
                }
            },
            "two": {
                "models": {
                    "openai/gpt-5.4-mini": {
                        "reasoning": true,
                        "reasoning_options": [
                            {"type": "effort", "values": ["none", "low", "medium", "high", "xhigh"]}
                        ]
                    }
                }
            }
        }"#,
    )
    .unwrap();

    assert_eq!(
        catalog
            .capabilities("gateway", "gpt-5.4-mini")
            .unwrap()
            .available_levels(),
        vec![
            ThinkingLevel::Off,
            ThinkingLevel::Low,
            ThinkingLevel::Medium,
            ThinkingLevel::High,
            ThinkingLevel::XHigh
        ]
    );
}

#[test]
fn resolves_namespaced_model_id_despite_provider_specific_variants() {
    let catalog = ModelsDevCatalog::parse(
        br#"{
            "limited": {
                "models": {
                    "gpt-5.4-mini": {
                        "reasoning": true,
                        "reasoning_options": [
                            {"type": "effort", "values": ["low", "medium", "high"]}
                        ]
                    }
                }
            },
            "one": {
                "models": {
                    "openai/gpt-5.4-mini": {
                        "reasoning": true,
                        "reasoning_options": [
                            {"type": "effort", "values": ["none", "low", "medium", "high", "xhigh"]}
                        ]
                    }
                }
            },
            "two": {
                "models": {
                    "openai/gpt-5.4-mini": {
                        "reasoning": true,
                        "reasoning_options": [
                            {"type": "effort", "values": ["none", "low", "medium", "high", "xhigh"]}
                        ]
                    }
                }
            }
        }"#,
    )
    .unwrap();

    assert_eq!(
        catalog
            .capabilities("gateway", "openai/gpt-5.4-mini")
            .unwrap()
            .max_level,
        ThinkingLevel::XHigh
    );
}

#[test]
fn merges_namespaced_model_capabilities() {
    let catalog = ModelsDevCatalog::parse(
        br#"{
            "one": {
                "models": {
                    "vendor-a/gpt-5.4-mini": {
                        "reasoning": true,
                        "reasoning_options": [
                            {"type": "effort", "values": ["low", "medium", "high"]}
                        ]
                    }
                }
            },
            "two": {
                "models": {
                    "vendor-b/gpt-5.4-mini": {
                        "reasoning": true,
                        "reasoning_options": [
                            {"type": "effort", "values": ["low", "medium", "high", "xhigh"]}
                        ]
                    }
                }
            }
        }"#,
    )
    .unwrap();

    assert_eq!(
        catalog
            .capabilities("gateway", "gpt-5.4-mini")
            .unwrap()
            .available_levels(),
        vec![
            ThinkingLevel::Off,
            ThinkingLevel::Low,
            ThinkingLevel::Medium,
            ThinkingLevel::High,
            ThinkingLevel::XHigh
        ]
    );
}

#[test]
fn merges_direct_and_namespaced_provider_variants() {
    let catalog = ModelsDevCatalog::parse(
        br#"{
            "limited": {
                "models": {
                    "gpt-5.4-mini": {
                        "reasoning": true,
                        "reasoning_options": [
                            {"type": "effort", "values": ["minimal", "low", "medium", "high"]}
                        ]
                    }
                }
            },
            "extended": {
                "models": {
                    "openai/gpt-5.4-mini": {
                        "reasoning": true,
                        "reasoning_options": [
                            {"type": "effort", "values": ["none", "low", "medium", "high", "xhigh", "max"]}
                        ]
                    }
                }
            }
        }"#,
    )
    .unwrap();

    assert_eq!(
        catalog
            .capabilities("gateway", "gpt-5.4-mini")
            .unwrap()
            .available_levels(),
        ThinkingLevel::ALL
    );
}

#[test]
fn reads_provider_ids_and_api_aliases() {
    let aliases = ModelsDevCatalog::provider_aliases(
        br#"{
            "openai": {
                "id": "openai",
                "api": "https://api.openai.com/v1",
                "models": {}
            }
        }"#,
    )
    .unwrap();

    assert_eq!(aliases[0].id, "openai");
    assert_eq!(aliases[0].api.as_deref(), Some("https://api.openai.com/v1"));
}

#[test]
fn parses_context_limits_and_merges_unqualified_matches_conservatively() {
    let catalog = ModelsDevCatalog::parse(
        br#"{
            "openai": {
                "models": {
                    "gpt-5": {
                        "reasoning": false,
                        "limit": {"context": 400000, "output": 128000}
                    }
                }
            },
            "azure": {
                "models": {
                    "gpt-5": {
                        "reasoning": false,
                        "limit": {"context": 272000}
                    },
                    "other": {"reasoning": false}
                }
            }
        }"#,
    )
    .unwrap();

    let exact = catalog.limits("openai", "gpt-5").unwrap();
    assert_eq!(exact.context, 400_000);
    assert_eq!(exact.output, Some(128_000));

    // Unknown provider falls back to unqualified matches and merges to
    // the smallest window so the budget never overestimates.
    let merged = catalog.limits("gateway", "gpt-5").unwrap();
    assert_eq!(merged.context, 272_000);
    assert_eq!(merged.output, Some(128_000));

    assert!(catalog.limits("azure", "other").is_none());
    assert!(catalog.limits("azure", "missing").is_none());
}

#[test]
fn unreadable_catalogs_are_refused() {
    assert_eq!(
        ModelsDevCatalog::parse(b"not json").err().unwrap(),
        "invalid models.dev response"
    );
    assert!(ModelsDevCatalog::parse(br#"{"one": {"models": {"m": {"reasoning": 1}}}}"#).is_err());
    assert!(ModelsDevCatalog::default().capabilities("one", "m").is_none());
}

#[test]
fn a_catalog_may_list_what_it_says_of_a_model() {
    let catalog = ModelsDevCatalog::parse(
        br#"{"p": ["p", null, {
            "m": ["", true, [["effort", ["low"]]], null, [100, 7]],
            "t": ["", true, [["toggle"]], null]
        }]}"#,
    )
    .unwrap();
    assert_eq!(
        catalog.capabilities("p", "m").unwrap().available_levels(),
        vec![ThinkingLevel::Off, ThinkingLevel::Low]
    );
    let limit = catalog.limits("p", "m").unwrap();
    assert_eq!((limit.context, limit.output), (100, Some(7)));
    assert!(catalog.limits("p", "t").is_none());
    for refused in [
        r#"{"p": ["p"]}"#,
        r#"{"p": ["p", null, {}, 1]}"#,
        r#"{"p": {"models": {"m": ["", true, []]}}}"#,
        r#"{"p": {"models": {"m": {"reasoning_options": [["toggle", 1]]}}}}"#,
        r#"{"p": {"models": {"m": {"reasoning_options": [["budget_tokens", 1]]}}}}"#,
        r#"{"p": {"models": {"m": {"limit": []}}}}"#,
        "[]",
    ] {
        assert!(ModelsDevCatalog::parse(refused.as_bytes()).is_err(), "{refused}");
    }
}
