use std::path::PathBuf;
use zex::agent::change::change_counts;
use zex::agent::change::changed_line_ranges;
use zex::agent::change::FileChange;
use zex::agent::change::CHANGE_MAX_BYTES;
use zex::agent::history::prune_tool_outputs;
use zex::agent::message::estimate_tokens;
use zex::agent::message::token_window;
use zex::agent::message::Message;
use zex::agent::message::ToolCall;
use zex::json::parse_json;

#[test]
fn capture_drops_oversized_contents() {
    let small = "content".to_owned();
    let large = "x".repeat(CHANGE_MAX_BYTES + 1);
    assert!(
        FileChange::capture(PathBuf::from("a.txt"), Some(small.clone()), small.clone()).is_some()
    );
    assert!(FileChange::capture(PathBuf::from("a.txt"), Some(large.clone()), small).is_none());
    assert!(FileChange::capture(PathBuf::from("a.txt"), None, large).is_none());
}

#[test]
fn capture_keeps_contents_at_the_limit() {
    let full = "x".repeat(CHANGE_MAX_BYTES);
    let kept = FileChange::capture(PathBuf::from("a.txt"), None, full.clone()).unwrap();
    assert_eq!(kept.path, PathBuf::from("a.txt"));
    assert_eq!(kept.before, None);
    assert_eq!(kept.after, full);
    let wide = "é".repeat(CHANGE_MAX_BYTES / 2 + 1);
    assert!(FileChange::capture(PathBuf::from("a.txt"), None, wide).is_none());
}

#[test]
fn counts_report_added_and_removed_lines() {
    let overwrite = FileChange {
        path: PathBuf::from("a.txt"),
        before: Some("keep\nold\nkeep\n".to_owned()),
        after: "keep\nnew\nkeep\n".to_owned(),
    };
    assert_eq!(change_counts(&overwrite), (1, 1));

    let created = FileChange {
        path: PathBuf::from("b.txt"),
        before: None,
        after: "one\ntwo\n".to_owned(),
    };
    assert_eq!(change_counts(&created), (2, 0));
}

#[test]
fn changed_line_ranges_trim_shared_prefix_and_suffix() {
    let (prefix, old_changed, new_changed, suffix) =
        changed_line_ranges("a\nb\nc\nd", "a\nx\ny\nd");
    assert_eq!(prefix, vec!["a"]);
    assert_eq!(old_changed, vec!["b", "c"]);
    assert_eq!(new_changed, vec!["x", "y"]);
    assert_eq!(suffix, vec!["d"]);

    let (_, old_changed, new_changed, _) = changed_line_ranges("", "one\ntwo");
    assert!(old_changed.is_empty());
    assert_eq!(new_changed, vec!["one", "two"]);
}

#[test]
fn shared_lines_are_never_counted_twice() {
    let (prefix, old_changed, new_changed, suffix) = changed_line_ranges("a\na", "a\na\na");
    assert_eq!(prefix, vec!["a", "a"]);
    assert!(old_changed.is_empty());
    assert_eq!(new_changed, vec!["a"]);
    assert!(suffix.is_empty());
}

#[test]
fn estimates_ascii_runs_and_non_ascii_without_a_model_tokenizer() {
    assert_eq!(estimate_tokens(""), 0);
    assert_eq!(estimate_tokens("a"), 1);
    assert_eq!(estimate_tokens("abcd"), 1);
    assert_eq!(estimate_tokens("abcde"), 2);
    assert_eq!(estimate_tokens("你好"), 2);
    assert_eq!(estimate_tokens("ab你cd"), 3);
}

#[test]
fn token_windows_page_without_splitting_utf8_or_losing_content() {
    let content = "abcdefgh你好ijkl";
    let first = token_window(content, 0, 2);
    let middle = token_window(content, first.end, 2);
    let last = token_window(content, middle.end, 1);

    assert_eq!(first.content, "abcdefgh");
    assert_eq!(middle.content, "你好");
    assert_eq!(last.content, "ijkl");
    assert_eq!(format!("{}{}{}", first.content, middle.content, last.content), content);
    assert_eq!(last.end, last.total);
}

#[test]
fn token_window_past_the_end_is_empty() {
    let window = token_window("abcdefgh", 9, 2);
    assert_eq!(window.content, "");
    assert_eq!(window.total, 2);
    let whole = token_window("abcdefgh", 0, usize::MAX);
    assert_eq!(whole.content, "abcdefgh");
    assert_eq!(whole.end, 2);
}

#[test]
fn thinking_does_not_count_toward_the_context() {
    let silent = Message::Assistant {
        content: "answer".to_owned(),
        thinking: None,
        tool_calls: Vec::new(),
        provider_state: None,
    };
    let thoughtful = Message::Assistant {
        content: "answer".to_owned(),
        thinking: Some("a long chain of thought".to_owned()),
        tool_calls: Vec::new(),
        provider_state: None,
    };
    let calling = Message::Assistant {
        content: "answer".to_owned(),
        thinking: None,
        tool_calls: vec![ToolCall {
            id: "call".to_owned(),
            name: "read".to_owned(),
            arguments: "{}".to_owned(),
        }],
        provider_state: None,
    };
    assert_eq!(silent.token_estimate(), thoughtful.token_estimate());
    assert!(calling.token_estimate() > silent.token_estimate());
}

#[test]
fn token_estimate_skips_thinking() {
    let thinking = Message::Assistant {
        content: "answer".to_owned(),
        thinking: Some("long internal monologue ".repeat(1_000)),
        tool_calls: Vec::new(),
        provider_state: Some(parse_json(br#"{"reasoning_content": "stuffed"}"#).unwrap()),
    };
    let plain = Message::Assistant {
        content: "answer".to_owned(),
        thinking: None,
        tool_calls: Vec::new(),
        provider_state: None,
    };
    assert_eq!(thinking.token_estimate(), plain.token_estimate());
}

#[test]
fn joined_texts_cost_no_more_than_both_and_no_less_than_either() {
    let parts = ["", "a", "abc", "abcd", "abcdefg", "你", "ab你", "你ab", "你好 ok"];
    for a in parts {
        for b in parts {
            let joined = estimate_tokens(&format!("{a}{b}"));
            assert!(joined <= estimate_tokens(a) + estimate_tokens(b));
            assert!(joined >= estimate_tokens(a).max(estimate_tokens(b)));
        }
    }
    assert_eq!(estimate_tokens("abcdefghi"), 3);
    assert_eq!(estimate_tokens("你好吗"), 3);
}

#[test]
fn windows_hold_the_tokens_that_they_say() {
    let content = "abcdefgh你好ijkl!";
    let total = estimate_tokens(content);
    assert_eq!(total, 6);
    for k in 0..=total + 1 {
        let page = token_window(content, 0, k);
        let rest = token_window(content, k, usize::MAX);
        assert_eq!(estimate_tokens(&page.content), page.end - page.start);
        assert_eq!(estimate_tokens(&page.content), k.min(total));
        assert_eq!(estimate_tokens(&rest.content), rest.end - rest.start);
        assert_eq!(format!("{}{}", page.content, rest.content), content);
    }
}

#[test]
fn clearing_outputs_twice_clears_nothing_more() {
    let mut messages: Vec<Message> = (0..6)
        .map(|n| Message::Tool { tool_call_id: format!("call-{n}"), content: "x".repeat(2_001) })
        .collect();
    assert_eq!(prune_tool_outputs(&mut messages, None), 2);
    assert_eq!(messages[0].content(), "[tool output cleared to free context: 2001 chars]");
    assert_eq!(messages[2].content(), "x".repeat(2_001));
    assert_eq!(prune_tool_outputs(&mut messages, None), 0);
    assert_eq!(messages[0].content(), "[tool output cleared to free context: 2001 chars]");
}
