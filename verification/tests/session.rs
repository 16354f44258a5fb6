use zex::agent::message::Message;
use zex::agent::message::ToolCall;
use zex::json::parse_json;
use zex::provider::thinking::ThinkingLevel;
use zex::secure::Cipher;
use zex::secure::EncryptionKey;
use zex::session::encode_session;
use zex::session::format_session_summaries;
use zex::session::insert_summary;
use zex::session::message_from;
use zex::session::new_session_id;
use zex::session::preview;
use zex::session::read_session;
use zex::session::save_session;
use zex::session::serialize_session;
use zex::session::session_cipher;
use zex::session::summarize_session;
use zex::session::validate_session_id;
use zex::session::LoadedSession;
use zex::session::SessionHeader;
use zex::session::SessionSummary;
use zex::session_store::list_sessions;
use zex::session_store::load_saved;
use zex::session_store::newest_session;
use zex::session_store::save_file;
use zex::session_store::saved_id;
use zex::session_store::SessionFile;

const ID: &str = "20260812-120000-deadbeef";

fn header(id: &str, updated_at: &str, level: ThinkingLevel) -> SessionHeader {
    SessionHeader {
        format: 1,
        id: id.to_owned(),
        created_at: "2026-08-12T12:00:00Z".to_owned(),
        updated_at: updated_at.to_owned(),
        model: Some("model-a".to_owned()),
        thinking_level: Some(level),
    }
}

fn user(content: &str) -> Message {
    Message::User { content: content.to_owned() }
}

/// A directory of sessions that is held in memory.
struct Folder {
    files: Vec<SessionFile>,
    key: Option<EncryptionKey>,
    clock: u32,
}

impl Folder {
    fn new(key: Option<EncryptionKey>) -> Folder {
        Folder { files: Vec::new(), key, clock: 0 }
    }

    fn at(&self, id: &str) -> Option<usize> {
        self.files.iter().position(|file| file.id == id)
    }

    fn save(
        &mut self,
        known: Option<&str>,
        model: &str,
        level: ThinkingLevel,
        messages: &[Message],
    ) -> Result<String, String> {
        self.clock += 1;
        let now = format!("2026-08-12T12:00:{:02}Z", self.clock);
        let id = saved_id(known, "20260812-120000", self.clock)?;
        let at = self.at(&id);
        let earlier = at.map(|at| &self.files[at]);
        let content =
            save_file(&id, earlier, &now, model, level, messages, self.key.as_ref())?;
        match at {
            Some(at) => self.files[at].content = content,
            None => self.put(&id, content),
        }
        Ok(id)
    }

    fn put(&mut self, id: &str, content: Vec<u8>) {
        self.files.push(SessionFile {
            id: id.to_owned(),
            shown: format!("{id}.jsonl"),
            content,
        });
    }

    fn load(&self, asked: Option<&str>) -> Result<Option<LoadedSession>, String> {
        load_saved(&self.files, asked, self.key.as_ref())
    }

    fn list(&self) -> Result<Vec<SessionSummary>, String> {
        list_sessions(&self.files, self.key.as_ref())
    }

    fn text(&self, id: &str) -> String {
        String::from_utf8(self.files[self.at(id).unwrap()].content.clone()).unwrap()
    }
}

#[test]
fn saves_lists_and_resumes_a_session() {
    let mut store = Folder::new(None);
    let first = vec![user("first task")];
    let second = vec![
        user("first task"),
        Message::Assistant {
            content: "done".to_owned(),
            thinking: Some("Completed the saved task.".to_owned()),
            tool_calls: Vec::new(),
            provider_state: None,
        },
    ];

    let id = store.save(None, "model-a", ThinkingLevel::Medium, &first).unwrap();
    let resumed = store.load(Some(&id)).unwrap().unwrap();
    assert_eq!(resumed.id, id);
    assert_eq!(resumed.messages, first);
    assert_eq!(resumed.thinking_level, Some(ThinkingLevel::Medium));

    store.save(Some(&id), "model-b", ThinkingLevel::High, &second).unwrap();
    let sessions = store.list().unwrap();
    assert_eq!(sessions.len(), 1);
    assert_eq!(sessions[0].id, id);
    assert_eq!(sessions[0].message_count, 2);
    assert_eq!(sessions[0].preview, "first task");
    let loaded = store.load(None).unwrap().unwrap();
    assert_eq!(loaded.messages, second);
    assert_eq!(loaded.thinking_level, Some(ThinkingLevel::High));
    assert!(store.text(&id).contains("\"thinking\":\"Completed the saved task.\""));
}

#[test]
fn what_a_message_holds_is_read_back() {
    let messages = vec![
        user("first task"),
        Message::Assistant {
            content: "done\n\"quoted\" \u{1} 你好".to_owned(),
            thinking: Some("Completed the saved task.".to_owned()),
            tool_calls: vec![ToolCall {
                id: "call".to_owned(),
                name: "read".to_owned(),
                arguments: "{\"path\":\"a\"}".to_owned(),
            }],
            provider_state: Some(
                parse_json(br#"{"b": [1, null, 1.5], "a": {"x": -2, "y": 1e300}}"#).unwrap(),
            ),
        },
        Message::Tool { tool_call_id: "call".to_owned(), content: "output".to_owned() },
    ];
    let saved_header = header(ID, "2026-08-12T12:30:00Z", ThinkingLevel::High);
    let content = serialize_session(&saved_header, &messages);
    assert_eq!(content.lines().count(), 4);

    let (read_header, read_messages) =
        read_session("x.jsonl", ID, content.as_bytes(), None).unwrap();
    assert_eq!(read_header.id, ID);
    assert_eq!(read_header.model.as_deref(), Some("model-a"));
    assert_eq!(read_header.thinking_level, Some(ThinkingLevel::High));
    assert_eq!(read_messages, messages);

    let summary = summarize_session("x.jsonl", read_header, &read_messages).unwrap();
    assert_eq!(summary.id, ID);
    assert_eq!(summary.message_count, 3);
    assert_eq!(summary.updated_at, 1_786_537_800_000_000_000);
    assert_eq!(summary.preview, "first task");
}

#[test]
fn encrypted_sessions_hide_transcript_content_and_require_the_key() {
    let mut store = Folder::new(EncryptionKey::new("session encryption key".to_owned()));
    let secret = "private user prompt and reasoning";
    let id = store.save(None, "model-a", ThinkingLevel::High, &[user(secret)]).unwrap();
    let stored = store.text(&id);
    assert!(!stored.contains(secret));
    assert!(stored.contains("\"encryption\""));
    assert_eq!(store.load(Some(&id)).unwrap().unwrap().messages, vec![user(secret)]);

    store.key = None;
    let locked = store.load(Some(&id)).unwrap_err();
    assert!(locked.contains("ZEX_MEMORY_ENCRYPTION_KEY"));
    store.key = EncryptionKey::new("wrong key".to_owned());
    let error = store.load(Some(&id)).unwrap_err();
    assert!(error.contains("authentication failed"));
}

#[test]
fn an_encrypted_session_belongs_to_its_id() {
    let key = EncryptionKey::new("session encryption key".to_owned()).unwrap();
    let cipher = Cipher::new(&key, ID).unwrap();
    let content = serialize_session(
        &header(ID, "2026-08-12T12:00:00Z", ThinkingLevel::High),
        &[user("hello")],
    );
    let stored = encode_session(ID, &content, Some(&cipher)).unwrap();
    assert_ne!(stored, encode_session(ID, &content, Some(&cipher)).unwrap());
    let elsewhere = read_session("x.jsonl", "another-id", &stored, Some(&cipher)).unwrap_err();
    assert!(elsewhere.contains("authentication failed"));
}

#[test]
fn what_is_saved_is_what_is_loaded() {
    let messages = vec![user("first task"), user("second task")];
    for key in [None, EncryptionKey::new("session encryption key".to_owned())] {
        let mut store = Folder::new(key);
        let level = ThinkingLevel::Low;
        assert_eq!(store.save(Some(ID), "model-a", level, &messages).unwrap(), ID);
        let loaded = store.load(Some(ID)).unwrap().unwrap();
        assert_eq!(loaded.id, ID);
        assert_eq!(loaded.messages, messages);
        assert_eq!(loaded.thinking_level, Some(level));

        store.save(Some(ID), "model-b", level, &messages[..1]).unwrap();
        assert_eq!(store.load(Some(ID)).unwrap().unwrap().messages, messages[..1]);
        let cipher = store.key.as_ref().map(|key| session_cipher(key, ID).unwrap());
        let (header, _) =
            read_session("x.jsonl", ID, &store.files[0].content, cipher.as_ref()).unwrap();
        assert_eq!(header.created_at, "2026-08-12T12:00:01Z");
        assert_eq!(header.updated_at, "2026-08-12T12:00:02Z");
        assert_eq!(header.model.as_deref(), Some("model-b"));
    }
    let mut store = Folder::new(None);
    assert_eq!(store.load(Some(ID)).unwrap(), None);
    assert_eq!(store.load(None).unwrap(), None);
    let complaint = "session ID may contain only ASCII letters, digits, and '-'";
    assert_eq!(store.load(Some("../x")).unwrap_err(), complaint);
    assert_eq!(store.save(Some(""), "m", ThinkingLevel::Off, &[]).unwrap_err(), complaint);
    assert_eq!(
        save_file("", None, "now", "m", ThinkingLevel::Off, &[], None).unwrap_err(),
        complaint
    );
    assert_eq!(
        save_session("", None, "now", "m", ThinkingLevel::Off, &[], None).unwrap_err(),
        complaint
    );
}

#[test]
fn a_damaged_file_stops_a_save_and_a_list() {
    let mut store = Folder::new(None);
    store.put(ID, b"not json\n".to_vec());
    assert!(store.save(Some(ID), "m", ThinkingLevel::Off, &[]).unwrap_err().contains(ID));
    assert!(store.list().unwrap_err().contains(ID));
    assert!(store.load(None).unwrap_err().contains(ID));
}

#[test]
fn persisted_session_contains_messages_but_no_config_secret() {
    let mut store = Folder::new(None);
    let secret = "secret-that-must-not-be-persisted";
    let id = store.save(None, "model", ThinkingLevel::Medium, &[user("hello")]).unwrap();
    let content = store.text(&id);
    assert!(content.contains("\"hello\""));
    assert!(!content.contains(secret));
}

#[test]
fn loads_version_one_sessions_without_a_saved_model() {
    let content = "{\"type\":\"session\",\"session\":{\"format\":1,\"id\":\"20260812-120000-deadbeef\",\"created_at\":\"2026-08-12T12:00:00Z\",\"updated_at\":\"2026-08-12T12:00:00Z\"}}\n{\"type\":\"message\",\"message\":{\"role\":\"user\",\"content\":\"legacy\"}}\n";
    let mut store = Folder::new(None);
    store.put(ID, content.as_bytes().to_vec());
    let loaded = store.load(Some(ID)).unwrap().unwrap();
    assert!(matches!(&loaded.messages[0], Message::User { content } if content == "legacy"));
    let (read_header, _) = read_session("x.jsonl", ID, content.as_bytes(), None).unwrap();
    assert_eq!(read_header.model, None);
}

#[test]
fn loads_legacy_assistant_messages_without_thinking() {
    let content = "{\"type\":\"session\",\"session\":{\"format\":1,\"id\":\"20260812-120000-feedface\",\"created_at\":\"2026-08-12T12:00:00Z\",\"updated_at\":\"2026-08-12T12:00:00Z\"}}\n{\"type\":\"message\",\"message\":{\"role\":\"assistant\",\"content\":\"legacy answer\"}}\n";
    let id = "20260812-120000-feedface";
    let mut store = Folder::new(None);
    store.put(id, content.as_bytes().to_vec());
    let loaded = store.load(Some(id)).unwrap().unwrap();
    assert!(matches!(
        &loaded.messages[0],
        Message::Assistant { content, thinking: None, tool_calls, provider_state: None }
            if content == "legacy answer" && tool_calls.is_empty()
    ));
}

#[test]
fn damaged_sessions_are_refused_with_their_name() {
    for content in ["", "not json\n", "{\"type\":\"message\",\"message\":{\"role\":\"user\",\"content\":\"x\"}}\n"] {
        let message = read_session("x.jsonl", ID, content.as_bytes(), None).unwrap_err();
        assert!(message.contains("x.jsonl"), "{message}");
    }
    assert!(read_session("x.jsonl", ID, b"\xff\xfe", None).is_err());
}

fn summary(id: &str, updated_at: i128, count: usize, text: &str) -> SessionSummary {
    SessionSummary {
        id: id.to_owned(),
        updated_at,
        message_count: count,
        preview: text.to_owned(),
    }
}

#[test]
fn list_orders_sessions_by_most_recent_update() {
    let mut store = Folder::new(None);
    let older = store.save(None, "model", ThinkingLevel::Medium, &[user("older")]).unwrap();
    let newer = store.save(None, "model", ThinkingLevel::Medium, &[user("newer")]).unwrap();

    let sessions = store.list().unwrap();

    let ids: Vec<&str> = sessions.iter().map(|session| session.id.as_str()).collect();
    assert_eq!(ids, vec![newer.as_str(), older.as_str()]);
    assert!(sessions[0].updated_at >= sessions[1].updated_at);
    assert_eq!(newest_session(&sessions).unwrap().id, newer);
    assert_eq!(store.load(None).unwrap().unwrap().messages, vec![user("newer")]);
    store.save(Some(&older), "model", ThinkingLevel::Medium, &[user("again")]).unwrap();
    assert_eq!(store.load(None).unwrap().unwrap().id, older);
}

#[test]
fn a_session_is_put_where_its_time_belongs() {
    let mut sessions = Vec::new();
    assert!(newest_session(&sessions).is_none());
    insert_summary(&mut sessions, summary("older", 1, 1, "older"));
    insert_summary(&mut sessions, summary("newer", 3, 1, "newer"));
    insert_summary(&mut sessions, summary("between", 2, 1, "between"));
    let ids: Vec<&str> = sessions.iter().map(|session| session.id.as_str()).collect();
    assert_eq!(ids, vec!["newer", "between", "older"]);
    assert_eq!(newest_session(&sessions).unwrap().id, "newer");
}

#[test]
fn session_summary_formatter_uses_record_blocks_instead_of_fixed_columns() {
    let output = format_session_summaries(
        &vec![
            summary("session-one", 0, 2, "first task"),
            summary("session-two", 0, 1, "second task"),
        ],
        0,
    )
    .unwrap();

    assert!(output.contains("session-one\n  Updated:"));
    assert!(output.contains("Messages: 2\n  first task"));
    assert!(output.contains("\n\nsession-two\n  Updated:"));
    assert!(!output.contains("ID                          Updated"));
    assert!(output.contains("Updated: 1970-01-01T00:00:00Z · Messages: 2"));
    let later = format_session_summaries(&vec![summary("s", 0, 1, "t")], 3600).unwrap();
    assert_eq!(format_session_summaries(&Vec::new(), 0).unwrap(), "No saved sessions.");
    assert!(later.contains("1970-01-01T01:00:00+01:00"));
}

#[test]
fn previews_are_one_short_line() {
    assert_eq!(preview(&[user("a\nb")]), "a b");
    assert_eq!(preview(&[]), "(no user prompt)");
    let long = preview(&[user(&"x".repeat(100))]);
    assert_eq!(long.chars().count(), 81);
    assert!(long.ends_with('…'));
}

#[test]
fn session_ids_stay_inside_their_directory() {
    assert!(validate_session_id(ID).is_ok());
    for id in ["", "../x", "a/b", "a\\b", "a.b"] {
        assert!(validate_session_id(id).is_err(), "{id}");
    }
    let id = new_session_id("20260812-120000", 0xab);
    assert_eq!(id, "20260812-120000-000000ab");
    assert!(validate_session_id(&id).is_ok());
}

#[test]
fn sessions_of_one_key_have_ciphers_of_their_own() {
    let key = EncryptionKey::new("shared".to_owned()).unwrap();
    let one = session_cipher(&key, "one").unwrap();
    let two = session_cipher(&key, "two").unwrap();
    assert_ne!(one.fingerprint(b"same"), two.fingerprint(b"same"));
    assert_eq!(one.fingerprint(b"same"), session_cipher(&key, "one").unwrap().fingerprint(b"same"));
    assert!(EncryptionKey::new("  ".to_owned()).is_none());
    assert_eq!(key.debug_text(), "EncryptionKey([redacted])");
}

#[test]
fn times_that_cannot_be_read_are_refused() {
    let late = header(ID, "yesterday", ThinkingLevel::Low);
    assert_eq!(
        summarize_session("x.jsonl", late, &[]).unwrap_err(),
        "invalid updated_at in x.jsonl: the 'year' component could not be parsed: the 'year' component could not be parsed"
    );
}

#[test]
fn a_saved_message_may_be_listed() {
    let read = |text: &str| message_from(&parse_json(text.as_bytes()).unwrap());
    assert_eq!(read(r#"["user", "hi"]"#), Some(user("hi")));
    assert_eq!(read(r#"{"role": 1, "content": "hi"}"#), Some(user("hi")));
    assert_eq!(read(r#"[1, "hi"]"#), Some(user("hi")));
    assert_eq!(read(r#"[0, "s"]"#), Some(Message::System { content: "s".to_owned() }));
    assert_eq!(
        read(r#"["assistant", "a", null, [["c", "read", "{}"]]]"#),
        Some(Message::Assistant {
            content: "a".to_owned(),
            thinking: None,
            tool_calls: vec![ToolCall {
                id: "c".to_owned(),
                name: "read".to_owned(),
                arguments: "{}".to_owned(),
            }],
            provider_state: None,
        })
    );
    assert_eq!(
        read(r#"[3, "c", "done"]"#),
        Some(Message::Tool { tool_call_id: "c".to_owned(), content: "done".to_owned() })
    );
    for refused in
        ["[]", r#"["user"]"#, r#"["user", "hi", "x"]"#, r#"[4, "hi"]"#, r#"["nobody", "hi"]"#, r#"[-1, "hi"]"#]
    {
        assert_eq!(read(refused), None, "{refused}");
    }
}

#[test]
fn the_lines_of_a_session_may_be_lists() {
    let content = format!(
        "[\"session\", [1, \"{ID}\", \"2026-08-12T12:00:00Z\", \"2026-08-12T12:00:00Z\", null, {{\"low\": null}}]]\n[\"message\", [\"user\", \"hi\"]]\n"
    );
    let (header, messages) = read_session("shown", ID, content.as_bytes(), None).unwrap();
    assert_eq!(header.format, 1);
    assert_eq!(header.model, None);
    assert_eq!(header.thinking_level, Some(ThinkingLevel::Low));
    assert_eq!(messages, vec![user("hi")]);
}

#[test]
fn a_session_that_is_no_text_is_told_of() {
    let error = String::from_utf8(vec![b'a', 0xff]).unwrap_err();
    assert_eq!(
        read_session("shown", ID, &[b'a', 0xff], None).unwrap_err(),
        format!("session file is not UTF-8: {error}")
    );
}

#[test]
fn a_number_may_be_read_as_its_neighbour() {
    for (written, read) in [
        ("1.5", "1.5"),
        ("1e300", "1e+300"),
        ("1.0715660391465826e-75", "1.0715660391465825e-75"),
    ] {
        let value = parse_json(written.as_bytes()).unwrap();
        assert_eq!(value.to_text(), read);
    }
}
