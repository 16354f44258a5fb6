use zex::json::parse_json;
use zex::json::Json;
use zex::tools::definitions::bash_definition;
use zex::tools::definitions::edit_definition;
use zex::tools::definitions::glob_definition;
use zex::tools::definitions::grep_definition;
use zex::tools::definitions::list_pointers_definition;
use zex::tools::definitions::parse_list_arguments;
use zex::tools::definitions::parse_pointer_arguments;
use zex::tools::definitions::parse_recall_arguments;
use zex::tools::definitions::pin_definition;
use zex::tools::definitions::read_definition;
use zex::tools::definitions::read_skill_definition;
use zex::tools::definitions::recall_definition;
use zex::tools::definitions::unpin_definition;
use zex::tools::definitions::write_definition;
use zex::tools::files::apply_edit;
use zex::tools::files::parse_edit_arguments;
use zex::tools::files::parse_read_arguments;
use zex::tools::files::parse_write_arguments;
use zex::tools::registry::timeout_from_arguments;
use zex::tools::registry::truncate_output;
use zex::tools::registry::ToolOutcome;
use zex::tools::registry::ToolRegistry;
use zex::tools::search::can_search_paths;
use zex::tools::search::parse_glob_arguments;
use zex::tools::search::parse_grep_arguments;
use zex::tools::search::validate_limit;
use zex::tools::search::GlobSearch;
use zex::tools::search::GrepSearch;
use zex::tools::shell::decode_shell_output;
use zex::tools::shell::parse_bash_arguments;
use zex::tools::shell::report_shell;
use zex::tools::shell::shell_timeout_message;

fn asked(text: &str) -> Json {
    parse_json(text.as_bytes()).unwrap()
}

#[test]
fn utf8_output_passes_through_unchanged() {
    assert_eq!(decode_shell_output("héllo 中文\n".as_bytes()), "héllo 中文\n");
    assert_eq!(decode_shell_output(b"plain ascii"), "plain ascii");
}

#[test]
fn other_output_is_shown_with_replacements() {
    assert_eq!(decode_shell_output(b"a\xffb"), "a\u{fffd}b");
    assert_eq!(report_shell(Some(-1), b"out", b"err"), "exit_code: -1\nstdout:\nout\nstderr:\nerr");
    assert_eq!(
        report_shell(None, b"", b""),
        "exit_code: terminated by signal\nstdout:\n\nstderr:\n"
    );
    assert_eq!(shell_timeout_message(5), "shell command exceeded its 5 second timeout");
    assert_eq!(parse_bash_arguments(&asked(r#"{"command":"ls"}"#)).unwrap(), "ls");
    assert_eq!(parse_bash_arguments(&asked("{}")).unwrap_err(), "invalid bash arguments: missing field `command`");
}

#[test]
fn registry_adds_uniform_timeout_and_truncates_all_outputs() {
    let mut tools = ToolRegistry::new(60, 40);
    tools.register(read_definition());
    tools.register(bash_definition());
    let definitions = tools.definitions();
    assert_eq!(definitions.len(), 2);
    for definition in &definitions {
        let properties = definition.parameters.get("properties").unwrap();
        assert!(properties.get("timeout_seconds").is_some());
    }
    assert_eq!(tools.check_call("read", &asked(r#"{"path":"x","timeout_seconds":3}"#)), Ok(3));
    assert_eq!(tools.check_call("read", &asked(r#"{"path":"x"}"#)), Ok(60));
    assert_eq!(tools.check_call("nope", &asked("{}")).unwrap_err(), "unknown tool 'nope'");
    assert!(
        tools
            .check_call("read", &asked(r#"{"timeout_seconds":0}"#))
            .unwrap_err()
            .contains("tool 'read' received invalid arguments: ")
    );
    let finished = tools.finish(ToolOutcome::output_only("x".repeat(100)));
    assert!(finished.output.chars().count() < 100);
    assert!(finished.output.starts_with("xxx") && finished.output.ends_with("xxx"));
    assert_eq!(ToolRegistry::failure("read", "gone"), "tool 'read' failed: gone");
    assert_eq!(truncate_output("short".to_owned(), 40), "short");
    assert_eq!(timeout_from_arguments(&asked(r#"{"timeout_seconds":2}"#), 9), Ok(2));
}

#[test]
fn definitions_name_every_tool_and_its_needs() {
    let all = [
        bash_definition(),
        edit_definition(),
        read_definition(),
        write_definition(),
        glob_definition(),
        grep_definition(),
        recall_definition(),
        pin_definition(),
        unpin_definition(),
        list_pointers_definition(),
        read_skill_definition(),
    ];
    let names: Vec<&str> = all.iter().map(|definition| definition.name.as_str()).collect();
    assert_eq!(
        names,
        vec![
            "bash",
            "edit",
            "read",
            "write",
            "glob",
            "grep",
            "recall",
            "pin",
            "unpin",
            "list_pointers",
            "read_skill"
        ]
    );
    assert_eq!(
        read_skill_definition().parameters.to_text(),
        r#"{"additionalProperties":false,"properties":{"name":{"description":"Skill name","type":"string"}},"required":["name"],"type":"object"}"#
    );
    assert!(list_pointers_definition().parameters.get("required").is_none());
}

#[test]
fn edits_replace_exactly_one_occurrence() {
    assert_eq!(apply_edit("a.txt", "one two three", "two", "2").unwrap(), "one 2 three");
    assert!(apply_edit("a.txt", "one", "two", "2").unwrap_err().contains("a.txt"));
    assert!(apply_edit("a.txt", "two two", "two", "2").is_err());
    assert_eq!(apply_edit("a.txt", "aaa", "aa", "b").unwrap(), "ba");
    let edit = parse_edit_arguments(&asked(r#"{"path":"p","old_text":"a","new_text":"b"}"#)).unwrap();
    assert_eq!((edit.path.as_str(), edit.old_text.as_str(), edit.new_text.as_str()), ("p", "a", "b"));
    assert_eq!(parse_edit_arguments(&asked("{}")).unwrap_err(), "invalid edit arguments: missing field `path`");
    assert_eq!(parse_write_arguments(&asked("{}")).unwrap_err(), "invalid write arguments: missing field `path`");
    assert_eq!(parse_read_arguments(&asked("{}")).unwrap_err(), "invalid read arguments: missing field `path`");
}

#[test]
fn globs_match_at_any_depth_and_stop_at_their_limit() {
    let mut search = GlobSearch::new("*.rs", 2).unwrap();
    assert!(!search.offer("src/main.rs", false));
    assert!(!search.offer("README.md", false));
    assert!(search.offer("build.rs", false));
    assert!(search.offer("src/lib.rs", false));
    let found = search.finish();
    assert!(found.contains("build.rs"));
    assert!(found.contains("src/main.rs"));
    assert!(!found.contains("README.md"));
    assert!(!found.contains("src/lib.rs"));
    let nested = {
        let mut search = GlobSearch::new("src/**/*.rs", 10).unwrap();
        search.offer("src/a/b.rs", false);
        search.offer("b.rs", false);
        search.finish()
    };
    assert!(nested.contains("src/a/b.rs"));
    assert!(!nested.lines().any(|line| line == "b.rs"));
    assert!(GlobSearch::new("a[", 1).is_err());
    assert!(can_search_paths("**/*.rs"));
    assert!(!can_search_paths(&"x".repeat(20_000)));
}

#[test]
fn lines_are_found_by_regular_expression() {
    let arguments = parse_grep_arguments(&asked(
        r#"{"pattern":"ne+dle","case_sensitive":false,"file_glob":"*.txt","max_results":2}"#,
    ))
    .unwrap();
    let mut search = GrepSearch::new(&arguments).unwrap();
    assert!(search.wants("a.txt"));
    assert!(!search.wants("a.rs"));
    search.add_file("a.txt", "hay\nNEEDLE\nneeedle\nneedle\n");
    let found = search.finish();
    assert!(found.contains("a.txt:2:NEEDLE"));
    assert!(found.contains("a.txt:3:neeedle"));
    assert!(!found.contains("a.txt:4"));
    let broken = parse_grep_arguments(&asked(r#"{"pattern":"("}"#)).unwrap();
    assert!(GrepSearch::new(&broken).is_err());
    assert_eq!(parse_grep_arguments(&asked("{}")).unwrap_err(), "invalid grep arguments: missing field `pattern`");
    assert_eq!(parse_glob_arguments(&asked("{}")).unwrap_err(), "invalid glob arguments: missing field `pattern`");
    assert!(validate_limit(1).is_ok());
    assert!(validate_limit(10_000).is_ok());
    assert!(validate_limit(0).is_err());
    assert!(validate_limit(10_001).is_err());
}

#[test]
fn memory_tools_read_their_arguments() {
    let recall = parse_recall_arguments(&asked(
        r#"{"id":"x","reason":"why","offset_tokens":4,"max_tokens":8}"#,
    ))
    .unwrap();
    assert_eq!(recall.id, "x");
    assert_eq!(recall.reason.as_deref(), Some("why"));
    assert_eq!((recall.offset_tokens, recall.max_tokens), (Some(4), Some(8)));
    assert_eq!(parse_recall_arguments(&asked("{}")).unwrap_err(), "invalid recall arguments: missing field `id`");
    assert_eq!(parse_pointer_arguments("pin", &asked(r#"{"id":"x"}"#)).unwrap(), "x");
    assert_eq!(
        parse_pointer_arguments("unpin", &asked("{}")).unwrap_err(),
        "invalid unpin arguments: missing field `id`"
    );
    assert_eq!(parse_list_arguments(&asked("{}")).unwrap(), None);
    assert_eq!(
        parse_list_arguments(&asked(r#"{"filter":"tool=read"}"#)).unwrap().as_deref(),
        Some("tool=read")
    );
    assert_eq!(parse_list_arguments(&asked("[]")).unwrap(), None);
    assert_eq!(
        parse_list_arguments(&asked("7")).unwrap_err(),
        "invalid list_pointers arguments: invalid type: integer `7`, expected struct ListArguments"
    );
}

#[test]
fn misread_arguments_are_named() {
    let glob = |text: &str| parse_glob_arguments(&asked(text)).unwrap_err();
    let grep = |text: &str| parse_grep_arguments(&asked(text)).unwrap_err();
    for (text, cause) in [
        (r#"{"pattern": null}"#, "invalid type: null, expected a string"),
        (r#"{"pattern": true}"#, "invalid type: boolean `true`, expected a string"),
        (r#"{"pattern": 1.5}"#, "invalid type: floating point `1.5`, expected a string"),
        (r#"{"pattern": [1]}"#, "invalid type: sequence, expected a string"),
        (r#"{"pattern": {}}"#, "invalid type: map, expected a string"),
        (r#"{"pattern": "a", "path": 5}"#, "invalid type: integer `5`, expected path string"),
        (r#"{"pattern": "a", "hidden": "y\n"}"#, r#"invalid type: string "y\n", expected a boolean"#),
        (r#"{"pattern": "a", "hidden": null}"#, "invalid type: null, expected a boolean"),
        (r#"{"pattern": "a", "max_results": -5}"#, "invalid value: integer `-5`, expected usize"),
        (r#"{"pattern": "a", "max_results": "x"}"#, r#"invalid type: string "x", expected usize"#),
        (r#"{"pattern": 1, "hidden": 2}"#, "invalid type: integer `2`, expected a boolean"),
        ("null", "invalid type: null, expected struct GlobArguments"),
        ("[]", "invalid length 0, expected struct GlobArguments with 4 elements"),
        (r#"["a"]"#, "invalid length 1, expected struct GlobArguments with 4 elements"),
        (r#"["a", null, false, 3, 4]"#, "invalid length 5, expected fewer elements in array"),
        (r#"["a", 3]"#, "invalid type: integer `3`, expected path string"),
    ] {
        assert_eq!(glob(text), format!("invalid glob arguments: {cause}"), "{text}");
    }
    assert_eq!(
        grep(r#"{"pattern": "a", "file_glob": 1}"#),
        "invalid grep arguments: invalid type: integer `1`, expected a string"
    );
    assert_eq!(
        parse_bash_arguments(&asked("[]")).unwrap_err(),
        "invalid bash arguments: invalid length 0, expected struct BashArguments with 1 element"
    );
}

#[test]
fn arguments_may_be_listed_in_their_order() {
    let glob = parse_glob_arguments(&asked(r#"["*.rs", "src", true, 7]"#)).unwrap();
    assert_eq!(glob.pattern, "*.rs");
    assert_eq!(glob.path.as_deref(), Some("src"));
    assert!(glob.hidden);
    assert_eq!(glob.max_results, 7);
    let short = parse_glob_arguments(&asked(r#"["*.rs", null]"#)).unwrap();
    assert_eq!((short.path, short.hidden, short.max_results), (None, false, 200));
    let grep = parse_grep_arguments(&asked(r#"["x", null, false, "*.rs"]"#)).unwrap();
    assert!(!grep.case_sensitive);
    assert_eq!(grep.file_glob.as_deref(), Some("*.rs"));
    assert_eq!(grep.max_results, 100);
    let edit = parse_edit_arguments(&asked(r#"["p", "a", "b"]"#)).unwrap();
    assert_eq!((edit.path.as_str(), edit.old_text.as_str(), edit.new_text.as_str()), ("p", "a", "b"));
    let recall = parse_recall_arguments(&asked(r#"["x", null, 4]"#)).unwrap();
    assert_eq!((recall.reason, recall.offset_tokens, recall.max_tokens), (None, Some(4), None));
}

#[test]
fn misread_values_are_described_as_serde_json_describes_them() {
    for text in ["null", "true", "5", "-5", "1.5", "1e300", "\"a\\n\"", "[]", "{}"] {
        let value: serde_json::Value = serde_json::from_str(text).unwrap();
        if let Err(error) = serde_json::from_value::<std::path::PathBuf>(value.clone()) {
            let message = parse_read_arguments(&asked(&format!(r#"{{"path": {text}}}"#)));
            assert_eq!(message.unwrap_err(), format!("invalid read arguments: {error}"));
        }
        if let Err(error) = serde_json::from_value::<String>(value.clone()) {
            let message = parse_bash_arguments(&asked(&format!(r#"{{"command": {text}}}"#)));
            assert_eq!(message.unwrap_err(), format!("invalid bash arguments: {error}"));
        }
        if let Err(error) = serde_json::from_value::<Option<usize>>(value.clone()) {
            let message =
                parse_recall_arguments(&asked(&format!(r#"{{"id": "x", "max_tokens": {text}}}"#)));
            assert_eq!(message.unwrap_err(), format!("invalid recall arguments: {error}"));
        }
        if let Err(error) = serde_json::from_value::<bool>(value) {
            let message =
                parse_glob_arguments(&asked(&format!(r#"{{"pattern": "x", "hidden": {text}}}"#)));
            assert_eq!(message.unwrap_err(), format!("invalid glob arguments: {error}"));
        }
    }
}
