use time::OffsetDateTime;
use time::format_description::well_known::Rfc3339;
use zex::agent::message::estimate_tokens;
use zex::json::parse_json;
use zex::memory::config::MemoryConfig;
use zex::memory::config::MemoryMode;
use zex::memory::hash::fingerprint_bytes;
use zex::memory::hash::message_fingerprint_input;
use zex::memory::hash::tool_result_fingerprint_input;
use zex::memory::ids::extract_memory_ids;
use zex::memory::ids::sequence_from_memory_id;
use zex::memory::pointers::citation;
use zex::memory::pointers::POINTER_EXCERPT_TOKENS;
use zex::memory::pointers::SYSTEM_POINTER_LIMIT;
use zex::memory::record::MemoryKind;
use zex::memory::record::MemoryPointer;
use zex::memory::record::MemoryTurnState;
use zex::memory::record::StoreRecord;
use zex::memory::record::record_from;
use zex::memory::runtime::timestamp;
use zex::memory::runtime::MemoryRuntime;
use zex::memory::runtime::StoreStep;
use zex::memory::session::archives_to_remove;
use zex::memory::session::audit_needs_rotation;
use zex::memory::session::encode_pin_state;
use zex::memory::session::SessionMemory;
use zex::memory::session::AUDIT_ARCHIVE_LIMIT;
use zex::memory::session::AUDIT_ROTATE_BYTES;
use zex::secure::EncryptionKey;
use zex::secure::KEYED_FINGERPRINT_PREFIX;

const NOW: i128 = 1_786_795_200_000_000_000;

/// A store whose files are held in memory.
struct Store {
    runtime: MemoryRuntime,
    session_id: String,
    records: Vec<u8>,
    pin_state: Option<String>,
    audit: Vec<u8>,
    clock: u64,
}

impl Store {
    fn open(
        config: MemoryConfig,
        session_id: &str,
        records: Vec<u8>,
        pin_state: Option<String>,
    ) -> Result<Store, String> {
        let mut runtime = MemoryRuntime::new(config);
        let (session, _) = SessionMemory::open(
            session_id,
            &records,
            pin_state.as_ref().map(|text| text.as_bytes()),
            runtime.config.hot_cache_size,
            runtime.config.encryption_key.as_ref(),
            "records.jsonl",
            "pin-state.json",
        )?;
        runtime.activate(session);
        Ok(Store {
            runtime,
            session_id: session_id.to_owned(),
            records,
            pin_state,
            audit: Vec::new(),
            clock: 0,
        })
    }

    fn new(config: MemoryConfig, session_id: &str) -> Store {
        Store::open(config, session_id, Vec::new(), None).unwrap()
    }

    fn finish(&mut self, step: StoreStep) -> MemoryPointer {
        match step {
            StoreStep::Known(pointer) => pointer,
            StoreStep::Append(pending) => {
                let offset = self.records.len() as u64;
                self.records.extend_from_slice(&pending.line);
                let pointer = self.runtime.finish_store(pending, offset);
                if pointer.pinned && self.runtime.active_turn.is_none() {
                    self.limit_pins();
                }
                pointer
            }
        }
    }

    fn limit_pins(&mut self) {
        let limit = self.runtime.config.max_auto_pins;
        let session = self.runtime.session.as_mut().unwrap();
        for id in session.excess_auto_pins(limit, None) {
            session.set_pinned(&id, false, None).unwrap();
        }
        self.pin_state = Some(encode_pin_state(&session.pin_overrides));
    }

    fn store(&mut self, tool: &str, arguments: &str, content: &str) -> MemoryPointer {
        let arguments = parse_json(arguments.as_bytes()).unwrap();
        let step = self
            .runtime
            .store_tool_result(tool, &arguments, content.to_owned(), timestamp().unwrap())
            .unwrap();
        self.finish(step)
    }

    fn recall(
        &mut self,
        id: &str,
        reason: Option<&str>,
        offset: Option<usize>,
        max: Option<usize>,
    ) -> Result<String, String> {
        self.clock += 1;
        let outcome = self.runtime.recall(
            id,
            reason.map(str::to_owned),
            offset,
            max,
            self.clock,
            timestamp().unwrap(),
            &self.records,
        );
        if let Some(audit) = outcome.audit {
            let line = self.runtime.session.as_ref().unwrap().encode_audit(&audit).unwrap();
            self.audit.extend_from_slice(&line);
        }
        outcome.result
    }

    fn pin(&mut self, id: &str, pinned: bool) -> Result<String, String> {
        let outcome = self.runtime.update_pin(id, pinned, timestamp().unwrap())?;
        let session = self.runtime.session.as_ref().unwrap();
        let line = session.encode_audit(&outcome.audit).unwrap();
        self.audit.extend_from_slice(&line);
        let change = outcome.result?;
        self.pin_state = Some(encode_pin_state(&session.pin_overrides));
        Ok(MemoryRuntime::pin_message(pinned, &change.pointer))
    }

    fn list(&mut self, filter: Option<&str>) -> Result<String, String> {
        self.runtime.list_pointers(filter, &self.records)
    }

    fn end_turn(&mut self, state: MemoryTurnState) {
        if let Some(line) = self.runtime.turn_mark(state).unwrap() {
            self.records.extend_from_slice(&line);
        }
        self.runtime.finish_active_turn(state);
    }

    fn maintain(&mut self) {
        self.limit_pins();
        let limits = self.runtime.retention_limits();
        let protected = self.runtime.active_pointers.clone();
        let bytes = self.records.len() as u64;
        let rewrite = self
            .runtime
            .session
            .as_mut()
            .unwrap()
            .enforce_retention(limits, &protected, bytes, NOW, &self.records)
            .unwrap();
        if let Some(rewrite) = rewrite {
            self.records = rewrite.records;
            let kept = encode_pin_state(&rewrite.overrides);
            let (session, _) = SessionMemory::open(
                &self.session_id,
                &self.records,
                Some(kept.as_bytes()),
                self.runtime.config.hot_cache_size,
                self.runtime.config.encryption_key.as_ref(),
                "records.jsonl",
                "pin-state.json",
            )
            .unwrap();
            self.pin_state = Some(kept);
            self.runtime.replace_session(session);
        }
    }

    fn reopen(&self, config: MemoryConfig) -> Result<Store, String> {
        Store::open(config, &self.session_id, self.records.clone(), self.pin_state.clone())
    }

    fn shown(&self) -> String {
        String::from_utf8(self.records.clone()).unwrap()
    }
}

fn limited() -> MemoryConfig {
    MemoryConfig {
        recall_rate_limit: 5,
        max_recall_tokens: 64,
        hot_cache_size: 2,
        ..MemoryConfig::default()
    }
}

#[test]
fn persists_recalls_pins_limits_and_reopens_records() {
    let mut store = Store::new(limited(), "20260815-120000-deadbeef");
    let content = "precise observation".repeat(4);
    let pointer = store.store("read", r#"{"path": "src/main.rs"}"#, &content);

    assert!(pointer.id.starts_with("§obs_"));
    assert_eq!(extract_memory_ids(&citation(&pointer)), vec![pointer.id.clone()]);
    let recalled =
        store.recall(&pointer.id, Some("verify exact source"), None, None).unwrap();
    assert!(recalled.ends_with(&content));
    assert!(store.pin(&pointer.id, true).unwrap().contains("Pinned"));
    assert!(store.list(None).unwrap().contains(&pointer.id));
    assert!(store.pin(&pointer.id, false).unwrap().contains("Unpinned"));
    let missing_pin = store.pin("§obs_000000000000000000000000", true).unwrap_err();
    assert!(missing_pin.contains("does not exist"));

    let missing = store.recall("§obs_000000000000000000000000", None, None, None).unwrap_err();
    assert!(missing.contains("does not exist"));

    store.runtime.begin_model_turn();
    for _ in 0..3 {
        store.recall(&pointer.id, None, None, None).unwrap();
    }
    let throttled = store.recall(&pointer.id, None, None, None).unwrap_err();
    assert!(throttled.contains("rate limit reached"));
    assert!(throttled.contains("does not mean the record is missing"));

    let log = store.shown();
    assert!(log.contains("\"record_type\":\"item\""));
    assert!(!log.contains("\"action\":"));
    let audit = String::from_utf8(store.audit.clone()).unwrap();
    assert!(audit.contains("\"action\":\"recall\""));
    assert!(audit.contains("\"action\":\"pin\""));
    assert!(audit.contains("\"error\":\"memory ID"));
    let pin_state = store.pin_state.clone().unwrap();
    assert!(pin_state.contains(&pointer.id));
    assert!(pin_state.contains("false"));

    let mut reopened = store.reopen(limited()).unwrap();
    let recalled = reopened.recall(&pointer.id, None, None, None).unwrap();
    assert!(recalled.ends_with(&content));
}

#[test]
fn recall_returns_a_bounded_excerpt_for_large_content() {
    let config = MemoryConfig { max_recall_tokens: 32, ..MemoryConfig::default() };
    let mut store = Store::new(config, "20260815-120000-feedface");
    let pointer = store.store("read", r#"{"path": "large.txt"}"#, &"large ".repeat(2_000));

    let recalled = store.recall(&pointer.id, None, None, None).unwrap();

    assert!(recalled.contains("token window"));
    assert!(estimate_tokens(&recalled) < 96);
}

#[test]
fn recall_pages_to_middle_and_tail_windows() {
    let config = MemoryConfig {
        recall_rate_limit: 10,
        max_recall_tokens: 16,
        ..MemoryConfig::default()
    };
    let mut store = Store::new(config, "20260815-120000-abcdef12");
    let content = format!("{}TAIL_SENTINEL", "pageable-content ".repeat(200));
    let pointer = store.store("read", r#"{"path": "paged.txt"}"#, &content);

    let first = store.recall(&pointer.id, None, Some(0), Some(8)).unwrap();
    let middle = store.recall(&pointer.id, None, Some(8), Some(8)).unwrap();
    let tail = store
        .recall(&pointer.id, None, Some(pointer.token_estimate.saturating_sub(16)), Some(16))
        .unwrap();

    assert!(first.contains("next_offset="));
    assert_ne!(first, middle);
    assert!(tail.contains("TAIL_SENTINEL"));

    store.runtime.begin_model_turn();
    let error =
        store.recall(&pointer.id, None, Some(pointer.token_estimate), Some(8)).unwrap_err();
    assert!(error.contains("outside"));
    let zero = store.recall(&pointer.id, None, None, Some(0)).unwrap_err();
    assert_eq!(zero, "recall max_tokens must be greater than zero");
}

#[test]
fn deduplicates_tool_results_and_supports_structured_filters() {
    let mut store = Store::new(MemoryConfig::default(), "20260815-120000-01020304");
    let first = store.store("read", r#"{"path": "src/main.rs"}"#, "same source");
    let duplicate = store.store("read", r#"{"path": "src/main.rs"}"#, "same source");
    let search =
        store.store("grep", r#"{"pattern": "needle", "path": "src"}"#, "src/main.rs:1:needle");

    assert_eq!(duplicate.id, first.id);
    assert_ne!(search.id, first.id);
    assert_eq!(store.shown().lines().count(), 2);

    let read_matches =
        store.list(Some("tool=read path=src/main.rs kind=file_snapshot")).unwrap();
    assert!(read_matches.contains(&first.id));
    assert!(!read_matches.contains(&search.id));
    let grep_matches = store.list(Some("tool=grep pattern=needle")).unwrap();
    assert!(grep_matches.contains(&search.id));
    let content_matches = store.list(Some("same source")).unwrap();
    assert!(content_matches.contains(&first.id));
    assert!(content_matches.contains("same source"));
    let invalid = store.list(Some("unknown=value")).unwrap_err();
    assert!(invalid.contains("unsupported pointer filter field"));
}

#[test]
fn automatic_pins_are_bounded_without_evicting_manual_pins() {
    let config = MemoryConfig { max_auto_pins: 1, ..MemoryConfig::default() };
    let mut store = Store::new(config, "20260815-120000-31323334");
    let first =
        store.store("write", r#"{"path": "first.txt"}"#, "tool error: first write failed");
    let second =
        store.store("edit", r#"{"path": "second.txt"}"#, "tool error: second edit failed");
    assert!(!store.runtime.pointer_for_id(&first.id).unwrap().pinned);
    assert!(store.runtime.pointer_for_id(&second.id).unwrap().pinned);

    store.pin(&first.id, true).unwrap();
    let third =
        store.store("write", r#"{"path": "third.txt"}"#, "tool error: third write failed");
    assert!(store.runtime.pointer_for_id(&first.id).unwrap().pinned);
    assert!(!store.runtime.pointer_for_id(&second.id).unwrap().pinned);
    assert!(store.runtime.pointer_for_id(&third.id).unwrap().pinned);

    store.runtime.begin_turn().unwrap();
    let aborted =
        store.store("edit", r#"{"path": "aborted.txt"}"#, "tool error: aborted edit failed");
    store.end_turn(MemoryTurnState::Aborted);
    store.maintain();
    assert!(store.runtime.pointer_for_id(&aborted.id).is_none());
    assert!(store.runtime.pointer_for_id(&third.id).unwrap().pinned);
}

#[test]
fn committed_turns_stay_visible_after_reopening() {
    let mut store = Store::new(MemoryConfig::default(), "20260815-120000-0a0b0c0d");
    store.runtime.begin_turn().unwrap();
    let kept = store.store("read", r#"{"path": "kept.txt"}"#, "kept body");
    assert!(store.runtime.contains(&kept.id));
    assert!(!store.reopen(MemoryConfig::default()).unwrap().runtime.contains(&kept.id));
    store.end_turn(MemoryTurnState::Committed);
    assert!(store.runtime.contains(&kept.id));
    assert!(store.reopen(MemoryConfig::default()).unwrap().runtime.contains(&kept.id));
}

#[test]
fn pinned_records_cannot_crowd_active_pointers_out_of_the_manifest() {
    let mut store = Store::new(MemoryConfig::default(), "20260815-120000-61626364");
    for index in 0..SYSTEM_POINTER_LIMIT + 8 {
        let pointer = store.store(
            "read",
            &format!("{{\"path\": \"pinned-{index}.txt\"}}"),
            &format!("pinned body {index}"),
        );
        store.pin(&pointer.id, true).unwrap();
    }
    let mut active = Vec::new();
    for index in 0..4 {
        let pointer = store.store(
            "grep",
            &format!("{{\"pattern\": \"needle-{index}\"}}"),
            &format!("active body {index}"),
        );
        active.push(pointer.id);
    }
    store.runtime.set_active_pointers(active.clone());

    let manifest = store.runtime.system_pointer_manifest();
    assert_eq!(manifest.len(), SYSTEM_POINTER_LIMIT);
    let rendered = manifest.join("\n");
    for id in &active {
        assert!(rendered.contains(id), "active pointer {id} was crowded out by pinned records");
    }
}

fn small_store() -> MemoryConfig {
    MemoryConfig { max_records: 10, max_store_bytes: 2_500, ..MemoryConfig::default() }
}

fn four_records(store: &mut Store, size: usize) -> Vec<MemoryPointer> {
    (0..4)
        .map(|index| {
            store.store(
                "read",
                &format!("{{\"path\": \"{index}.txt\"}}"),
                &format!("record {index} {}", "x".repeat(size)),
            )
        })
        .collect()
}

#[test]
fn retention_compacts_records_but_preserves_active_pointers() {
    let mut store = Store::new(small_store(), "20260815-120000-41424344");
    let pointers = four_records(&mut store, 1_600);
    store.runtime.set_active_pointers(vec![pointers[0].id.clone(), pointers[3].id.clone()]);
    store.maintain();

    assert!(store.runtime.contains(&pointers[0].id));
    assert!(store.runtime.contains(&pointers[3].id));
    assert!(!store.runtime.contains(&pointers[1].id));
    assert!(!store.runtime.contains(&pointers[2].id));
    assert_eq!(store.shown().lines().count(), 2);
}

#[test]
fn retention_stops_rewriting_when_nothing_is_evictable() {
    let key = EncryptionKey::new("retention idle probe".to_owned()).unwrap();
    let config = MemoryConfig {
        max_store_bytes: 128,
        encryption_key: Some(key),
        ..MemoryConfig::default()
    };
    let mut store = Store::new(config, "20260815-120000-81828384");
    let ids: Vec<String> =
        four_records(&mut store, 400).into_iter().map(|pointer| pointer.id).collect();
    store.runtime.set_active_pointers(ids.clone());
    let before = store.records.clone();

    store.maintain();
    store.maintain();

    assert_eq!(before, store.records);
    for id in &ids {
        assert!(store.runtime.contains(id));
    }
}

#[test]
fn retention_does_not_hand_out_ids_that_surviving_records_still_own() {
    let mut store = Store::new(small_store(), "20260815-120000-51525354");
    let pointers = four_records(&mut store, 1_600);
    store.runtime.set_active_pointers(vec![pointers[0].id.clone(), pointers[3].id.clone()]);
    store.maintain();

    let fresh: Vec<MemoryPointer> = (0..8)
        .map(|index| {
            store.store(
                "grep",
                &format!("{{\"pattern\": \"p{index}\"}}"),
                &format!("fresh {index}"),
            )
        })
        .collect();
    for pointer in &fresh {
        assert_ne!(pointer.id, pointers[0].id);
        assert_ne!(pointer.id, pointers[3].id);
    }
    let mut unique: Vec<&str> = fresh.iter().map(|pointer| pointer.id.as_str()).collect();
    unique.sort();
    unique.dedup();
    assert_eq!(unique.len(), fresh.len());

    let reopened = store.reopen(small_store()).unwrap();
    assert!(reopened.runtime.contains(&fresh[7].id));
    assert!(reopened.runtime.contains(&pointers[3].id));
}

#[test]
fn a_store_poisoned_by_an_older_build_still_opens() {
    let mut store = Store::new(MemoryConfig::default(), "20260815-120000-61626364");
    let original = store.store("read", r#"{"path": "a.txt"}"#, "first body");

    let log = store.shown();
    store.records = format!("{log}{}", log.replace("first body", "second body")).into_bytes();

    let mut reopened = store.reopen(MemoryConfig::default()).unwrap();
    let recalled = reopened.recall(&original.id, None, None, None).unwrap();
    assert!(recalled.contains("second body"));
    let next = reopened.store("grep", r#"{"pattern": "x"}"#, "later");
    assert_ne!(next.id, original.id);
}

#[test]
fn a_torn_last_line_is_cut_and_other_damage_is_refused() {
    let mut store = Store::new(MemoryConfig::default(), "20260815-120000-71727374");
    let pointer = store.store("read", r#"{"path": "a.txt"}"#, "body");
    let whole = store.records.clone();
    let mut torn = whole.clone();
    torn.extend_from_slice(b"{\"record_type\":\"it");
    let (session, cut) =
        SessionMemory::open("20260815-120000-71727374", &torn, None, 4, None, "r", "p").unwrap();
    assert_eq!(cut, Some(whole.len() as u64));
    assert!(session.index.pointer(&pointer.id, None).is_some());
    let mut broken = b"not json\n".to_vec();
    broken.extend_from_slice(&whole);
    assert!(
        SessionMemory::open("20260815-120000-71727374", &broken, None, 4, None, "r", "p").is_err()
    );
}

#[test]
fn only_outputs_past_the_inline_threshold_are_reduced_to_a_head() {
    let config = MemoryConfig {
        max_inline_tool_tokens: 1_000,
        max_recall_tokens: 500,
        ..MemoryConfig::default()
    };
    let mut store = Store::new(config, "20260815-120000-71727374");

    let moderate = "moderate line\n".repeat(100);
    let pointer = store.store("grep", r#"{"pattern": "m"}"#, &moderate);
    assert!(pointer.token_estimate < 1_000);
    let rendered = store.runtime.render_tool_result(&pointer, &moderate);
    assert!(rendered.starts_with(&moderate));
    assert!(rendered.contains(&pointer.id));

    let huge = "huge line of output\n".repeat(1_000);
    let pointer = store.store("grep", r#"{"pattern": "h"}"#, &huge);
    assert!(pointer.token_estimate > 1_000);
    let rendered = store.runtime.render_tool_result(&pointer, &huge);
    assert!(rendered.contains(&pointer.id));
    assert!(rendered.contains("huge line of output"));
    assert!(estimate_tokens(&rendered) < POINTER_EXCERPT_TOKENS + 128);
    assert!(estimate_tokens(&rendered) < pointer.token_estimate / 4);
}

fn keyed(password: &str) -> MemoryConfig {
    MemoryConfig {
        encryption_key: Some(EncryptionKey::new(password.to_owned()).unwrap()),
        ..MemoryConfig::default()
    }
}

#[test]
fn encrypted_memory_never_writes_plaintext_and_requires_the_key() {
    let mut store = Store::new(keyed("correct horse battery staple"), "20260815-120000-51525354");
    let secret = "private observation that must stay encrypted";
    let pointer = store.store("read", r#"{"path": "secret.txt"}"#, secret);
    let stored = store.shown();
    assert!(!stored.contains(secret));
    assert!(stored.contains("\"encryption\""));
    assert!(stored.contains(KEYED_FINGERPRINT_PREFIX));
    assert!(!stored.contains(&fingerprint_bytes(&tool_result_fingerprint_input(
        "read",
        r#"{"path":"secret.txt"}"#,
        secret
    ))));

    let mut reopened = store.reopen(keyed("correct horse battery staple")).unwrap();
    assert!(
        reopened
            .recall(&pointer.id, Some("private audit reason"), None, None)
            .unwrap()
            .ends_with(secret)
    );
    let audit = String::from_utf8(reopened.audit.clone()).unwrap();
    assert!(!audit.contains("private audit reason"));
    assert!(audit.contains("\"encryption\""));

    let locked = store.reopen(MemoryConfig::default()).err().unwrap();
    assert!(locked.contains("ZEX_MEMORY_ENCRYPTION_KEY"));
    let wrong = store.reopen(keyed("wrong key")).err().unwrap();
    assert!(wrong.contains("authentication failed"));
}

#[test]
fn enabling_encryption_migrates_existing_memory_records() {
    let mut store = Store::new(MemoryConfig::default(), "20260815-120000-61626364");
    let secret = "legacy plaintext memory";
    let step = store
        .runtime
        .store_message(MemoryKind::Message, "user", secret.to_owned(), timestamp().unwrap())
        .unwrap();
    let pointer = store.finish(step);
    let unkeyed = fingerprint_bytes(&message_fingerprint_input("user", secret));
    assert!(store.shown().contains(secret));
    assert!(store.shown().contains(&unkeyed));

    let mut encrypted = store.reopen(keyed("migration key")).unwrap();
    encrypted.maintain();
    let stored = encrypted.shown();
    assert!(!stored.contains(secret));
    assert!(!stored.contains(&unkeyed));
    assert!(encrypted.recall(&pointer.id, None, None, None).unwrap().ends_with(secret));
}

#[test]
fn pin_snapshot_survives_reopen_without_masking_new_automatic_pins() {
    let mut store = Store::new(MemoryConfig::default(), "20260815-120000-11121314");
    let manually_unpinned =
        store.store("write", r#"{"path": "first.txt"}"#, "tool error: first write failed");
    let manually_pinned = store.store("read", r#"{"path": "source.txt"}"#, "source");
    store.pin(&manually_unpinned.id, false).unwrap();
    store.pin(&manually_pinned.id, true).unwrap();

    let mut reopened = store.reopen(MemoryConfig::default()).unwrap();
    assert!(!reopened.runtime.pointer_for_id(&manually_unpinned.id).unwrap().pinned);
    assert!(reopened.runtime.pointer_for_id(&manually_pinned.id).unwrap().pinned);
    let automatically_pinned =
        reopened.store("edit", r#"{"path": "second.txt"}"#, "tool error: second edit failed");
    assert!(automatically_pinned.pinned);

    let reopened_again = reopened.reopen(MemoryConfig::default()).unwrap();
    assert!(reopened_again.runtime.pointer_for_id(&automatically_pinned.id).unwrap().pinned);
}

#[test]
fn a_time_of_now_is_one_that_can_be_read() {
    let mut store = Store::new(MemoryConfig { retention_days: 1, ..MemoryConfig::default() }, "s-1");
    let pointer = store.store("read", r#"{"path": "a"}"#, "body");
    assert!(pointer.created_at.ends_with('Z'));
    assert!(OffsetDateTime::parse(&pointer.created_at, &Rfc3339).is_ok());
    assert_ne!(timestamp().unwrap(), "");
}

#[test]
fn audit_logs_are_rotated_and_the_oldest_archives_removed() {
    assert!(!audit_needs_rotation(AUDIT_ROTATE_BYTES - 10, 10));
    assert!(audit_needs_rotation(AUDIT_ROTATE_BYTES - 10, 11));
    let names: Vec<String> =
        (0..AUDIT_ARCHIVE_LIMIT + 2).map(|n| format!("audit-{n}.jsonl")).collect();
    let removed = archives_to_remove(&names);
    assert_eq!(removed.len(), 2);
    assert!(removed.contains(&names[0]));
    assert!(removed.contains(&names[1]));
}

#[test]
fn disabled_and_inactive_memory_say_so() {
    let disabled = MemoryConfig { enabled: false, ..MemoryConfig::default() };
    let mut runtime = MemoryRuntime::new(disabled);
    assert_eq!(
        runtime.begin_turn().unwrap_err(),
        "addressable memory is disabled by configuration"
    );
    let mut idle = MemoryRuntime::new(MemoryConfig::default());
    assert!(idle.begin_turn().is_err());
    assert!(!idle.contains("§obs_000000000000000000000000"));
    assert_eq!(idle.mode(), MemoryMode::Hybrid);
    assert!(MemoryRuntime::is_control_tool("recall"));
    assert!(!MemoryRuntime::is_control_tool("read"));
}

#[test]
fn messages_are_stored_once_with_their_role() {
    let mut store = Store::new(MemoryConfig::default(), "20260815-120000-b1b2b3b4");
    let mut stored = Vec::new();
    for _ in 0..2 {
        let step = store
            .runtime
            .store_message(MemoryKind::Message, "user", "hello".to_owned(), timestamp().unwrap())
            .unwrap();
        stored.push(store.finish(step).id);
    }
    assert_eq!(stored[0], stored[1]);
    assert!(stored[0].starts_with("§turn_"));
    assert!(store.list(Some("role=user")).unwrap().contains(&stored[0]));
}

#[test]
fn ids_are_found_only_where_they_stand_alone() {
    let id = "§obs_0123456789abcdef01234567";
    assert_eq!(extract_memory_ids(&format!("see {id}.")), vec![id.to_owned()]);
    assert_eq!(extract_memory_ids(id), vec![id.to_owned()]);
    assert!(extract_memory_ids("§obs_0123").is_empty());
    assert!(extract_memory_ids("§obs_0123456789abcdef0123456G").is_empty());
}

#[test]
fn records_past_their_time_are_dropped_unless_protected() {
    let config = MemoryConfig { retention_days: 30, ..MemoryConfig::default() };
    let mut store = Store::new(config, "20260815-120000-c1c2c3c4");
    let mut ids = Vec::new();
    for (name, created_at) in [
        ("old", "2020-01-01T00:00:00Z"),
        ("kept", "2020-01-01T00:00:00Z"),
        ("new", "2026-08-14T00:00:00Z"),
    ] {
        let arguments = parse_json(format!("{{\"path\": \"{name}\"}}").as_bytes()).unwrap();
        let step = store
            .runtime
            .store_tool_result("read", &arguments, name.to_owned(), created_at.to_owned())
            .unwrap();
        ids.push(store.finish(step).id);
    }
    store.runtime.set_active_pointers(vec![ids[1].clone()]);
    store.maintain();
    assert!(!store.runtime.contains(&ids[0]));
    assert!(store.runtime.contains(&ids[1]));
    assert!(store.runtime.contains(&ids[2]));
}

#[test]
fn a_cache_changes_nothing_of_what_is_read() {
    for hot_cache_size in [0, 1, 8] {
        let config = MemoryConfig { hot_cache_size, ..MemoryConfig::default() };
        let mut store = Store::new(config, "20260815-120000-d1d2d3d4");
        let first = store.store("read", r#"{"path": "a"}"#, "alpha content").id;
        let second = store.store("read", r#"{"path": "b"}"#, "beta content").id;
        assert!(store.list(Some("alpha")).unwrap().contains(&first));
        for (id, content) in [(&first, "alpha content"), (&second, "beta content")] {
            let (_, read) = store
                .runtime
                .session
                .as_mut()
                .unwrap()
                .read(id, None, &store.records)
                .unwrap()
                .unwrap();
            assert_eq!(read, content);
        }
        assert!(store.recall(&first, None, None, None).unwrap().ends_with("\nalpha content"));
    }
}

#[test]
fn only_digits_are_a_sequence_number() {
    assert_eq!(sequence_from_memory_id("§obs_0123456789abcdef000000ff"), 255);
    assert_eq!(sequence_from_memory_id("§obs_+00000ff"), 0);
    assert_eq!(sequence_from_memory_id("§obs_00g000ff"), 0);
    assert_eq!(sequence_from_memory_id("§obs_ff"), 0);
    assert_eq!(sequence_from_memory_id("nothing"), 0);
}

#[test]
fn stored_records_may_be_lists() {
    let read = |text: &str| record_from(&parse_json(text.as_bytes()).unwrap());
    assert!(matches!(
        read(r#"["turn", "t1", "committed"]"#),
        Some(StoreRecord::Turn { turn_id, state: MemoryTurnState::Committed }) if turn_id == "t1"
    ));
    assert!(matches!(
        read(r#"{"record_type": "turn", "turn_id": "t1", "state": {"aborted": {}}}"#),
        Some(StoreRecord::Turn { state: MemoryTurnState::Aborted, .. })
    ));
    let Some(StoreRecord::Audit { audit }) = read(r#"["audit", ["recall", "m", "now", "why", 3, true]]"#)
    else {
        panic!("an audit event");
    };
    assert_eq!((audit.id.as_str(), audit.created_at.as_str()), ("m", "now"));
    assert_eq!(audit.reason.as_deref(), Some("why"));
    assert_eq!((audit.returned_tokens, audit.truncated, audit.error), (Some(3), true, None));
    let item = r#"{"id": "m", "kind": {"tool_result": null}, "created_at": "now", "token_estimate": 1,
        "importance": 2, "pinned": false, "encryption": [1, "n"], "content": "c"}"#;
    let Some(StoreRecord::Item { item }) = read(&format!("[\"item\", {item}]")) else {
        panic!("an item");
    };
    assert_eq!(item.pointer.kind, MemoryKind::ToolResult);
    assert_eq!(item.encryption.map(|sealed| (sealed.format, sealed.nonce)), Some((1, "n".to_owned())));
    for refused in [
        "[]",
        r#"["turn", "t1"]"#,
        r#"["turn", "t1", "committed", 1]"#,
        r#"["audit", ["recall", "m"]]"#,
        r#"["item", ["m"]]"#,
        r#"[0, "t1", "committed"]"#,
    ] {
        assert!(read(refused).is_none(), "{refused}");
    }
}

#[test]
fn a_pin_state_may_be_a_list() {
    let store = |pins: &str| {
        Store::open(MemoryConfig::default(), "s", Vec::new(), Some(pins.to_owned())).map(|_| ())
    };
    assert!(store("[1, {}]").is_ok());
    assert!(store("[1]").is_err());
    assert!(store("[1, {}, 2]").is_err());
}
