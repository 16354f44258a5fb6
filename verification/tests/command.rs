use std::path::PathBuf;
use zex::agent::change::FileChange;
use zex::agent::compaction::CompactStats;
use zex::agent::event::AgentEvent;
use zex::agent::event::MessageRole;
use zex::agent::message::Message;
use zex::agent::state::Agent;
use zex::agent::state::AgentOptions;
use zex::command::begin_loaded;
use zex::command::begin_resume;
use zex::command::command_specs;
use zex::command::compact_feedback;
use zex::command::execute;
use zex::command::finish_compact;
use zex::command::finish_restart;
use zex::command::finish_resume;
use zex::command::help_lines;
use zex::command::is_only_for_views;
use zex::command::missing_session;
use zex::command::parse;
use zex::command::report_level;
use zex::command::CommandEffect;
use zex::command::CommandOutput;
use zex::command::CommandStep;
use zex::command::SlashCommand;
use zex::headless::change_line;
use zex::headless::context_line;
use zex::headless::print_event;
use zex::headless::Printed;
use zex::instructions::assemble;
use zex::instructions::check_size;
use zex::instructions::SkillCatalog;
use zex::json::parse_json;
use zex::provider::thinking::ThinkingCapabilities;
use zex::provider::thinking::ThinkingLevel;
use zex::session::LoadedSession;

fn agent(messages: Vec<Message>) -> Agent {
    Agent::new(
        AgentOptions {
            model: "model-a".to_owned(),
            turn_timeout: 1,
            max_turns: 1,
            max_context_tokens: 120_000,
            compact_keep_turns: 1,
            thinking_level: ThinkingLevel::Medium,
        },
        Some(messages),
        None,
    )
}

fn user(content: &str) -> Message {
    Message::User { content: content.to_owned() }
}

#[test]
fn parses_commands_without_treating_messages_as_commands() {
    assert_eq!(parse("hello").unwrap(), None);
    assert_eq!(parse("/help").unwrap(), Some(SlashCommand::Help));
    assert_eq!(parse("/clear").unwrap(), Some(SlashCommand::NewSession));
    assert_eq!(parse("/new").unwrap(), Some(SlashCommand::NewSession));
    assert_eq!(parse("/model").unwrap(), Some(SlashCommand::Model));
    assert_eq!(parse("/provider").unwrap(), Some(SlashCommand::Provider));
    assert!(parse("/model gpt-5").is_err());
    assert!(parse("/unknown").is_err());
    assert_eq!(
        parse("/think high").unwrap(),
        Some(SlashCommand::Think(Some(ThinkingLevel::High)))
    );
    assert_eq!(parse("/thinking hide").unwrap(), Some(SlashCommand::Thinking(Some(false))));
    assert_eq!(parse("/thinking").unwrap(), Some(SlashCommand::Thinking(None)));
    assert!(parse("/thinking maybe").is_err());
    assert!(command_specs().iter().any(|command| command.name == "/think"));
    assert!(command_specs().iter().any(|command| command.name == "/thinking"));
    assert_eq!(command_specs().len(), 10);
    assert_eq!(
        command_specs()
            .iter()
            .find(|command| command.name == "/clear")
            .map(|command| command.description),
        Some("Start a new session")
    );
    assert_eq!(
        command_specs()
            .iter()
            .find(|command| command.name == "/new")
            .map(|command| command.description),
        Some("Start a new session")
    );
    assert_eq!(
        command_specs()
            .iter()
            .find(|command| command.name == "/sessions")
            .map(|command| command.description),
        Some("List saved sessions")
    );
    assert_eq!(
        command_specs()
            .iter()
            .find(|command| command.name == "/resume")
            .map(|command| (command.usage, command.description)),
        Some(("/resume [id]", "Resume a saved session"))
    );
}

#[test]
fn each_misuse_of_a_command_is_named() {
    assert_eq!(parse("/help me").unwrap_err(), "/help does not accept arguments");
    assert_eq!(parse("/resume a b").unwrap_err(), "/resume accepts at most one session ID");
    assert_eq!(parse("/think low high").unwrap_err(), "/think accepts at most one level");
    assert_eq!(parse("/thinking a b").unwrap_err(), "/thinking accepts at most one value");
    assert_eq!(parse("/thinking x").unwrap_err(), "/thinking expects show or hide");
    assert_eq!(parse("/nope").unwrap_err(), "unknown slash command \"/nope\"; use /help");
    assert!(parse("/think huge").is_err());
    assert_eq!(parse("  /resume  id ").unwrap(), Some(SlashCommand::Resume(Some("id".to_owned()))));
}

#[test]
fn help_stands_in_two_columns() {
    let lines = help_lines();
    assert_eq!(lines.len(), 10);
    assert_eq!(lines[0], "/help                  Open command index");
    assert_eq!(lines[9], "/thinking [show|hide]  Show or hide thinking cards");
}

#[test]
fn a_new_session_saves_what_was_said() {
    let capabilities = ThinkingCapabilities::default();
    let mut talking = agent(vec![user("current")]);
    assert!(matches!(
        execute(SlashCommand::NewSession, &mut talking, &capabilities),
        CommandStep::Restart { save: true }
    ));
    talking.clear();
    assert!(!talking.has_conversation());
    assert!(matches!(
        execute(SlashCommand::NewSession, &mut talking, &capabilities),
        CommandStep::Restart { save: false }
    ));
    let mut session_id = Some("old".to_owned());
    let result = finish_restart(Some("old"), None, &mut session_id);
    assert_eq!(session_id, None);
    assert_eq!(result.effect, CommandEffect::ClearView);
    assert_eq!(
        result.output,
        CommandOutput::Status("New session started. Saved previous session old.".to_owned())
    );
    let fresh = finish_restart(None, Some("next".to_owned()), &mut session_id);
    assert_eq!(session_id.as_deref(), Some("next"));
    assert_eq!(fresh.output, CommandOutput::Status("New session started.".to_owned()));
}

#[test]
fn resuming_keeps_the_active_model() {
    let capabilities = ThinkingCapabilities::default();
    let mut idle = agent(Vec::new());
    assert!(matches!(
        execute(SlashCommand::Resume(Some("saved".to_owned())), &mut idle, &capabilities),
        CommandStep::Load(id) if id == "saved"
    ));
    assert!(matches!(
        execute(SlashCommand::Resume(None), &mut idle, &capabilities),
        CommandStep::PickSession
    ));
    idle.begin_replacement(vec![user("saved context")]);
    let mut session_id = None;
    let result = finish_resume(&idle, "saved".to_owned(), &mut session_id);
    assert_eq!(session_id.as_deref(), Some("saved"));
    assert_eq!(result.effect, CommandEffect::ReplaceView);
    assert_eq!(
        result.output,
        CommandOutput::Status("Resumed saved · 1 messages · model model-a".to_owned())
    );
    assert_eq!(
        missing_session("missing-session"),
        "Session \"missing-session\" not found. Use /resume to choose a session."
    );
}

#[test]
fn resuming_takes_over_the_saved_level() {
    let mut idle = agent(vec![user("kept")]);
    begin_resume(&mut idle, None);
    assert_eq!(idle.thinking_preference(), ThinkingLevel::Medium);
    begin_resume(&mut idle, Some(ThinkingLevel::High));
    assert_eq!(idle.thinking_preference(), ThinkingLevel::High);

    let session = |level| LoadedSession {
        id: "saved".to_owned(),
        messages: vec![user("saved context")],
        thinking_level: level,
    };
    let loaded =
        begin_loaded(&mut idle, "saved", Some(session(Some(ThinkingLevel::Low)))).unwrap();
    assert_eq!(loaded, session(Some(ThinkingLevel::Low)));
    assert_eq!(idle.thinking_preference(), ThinkingLevel::Low);
    assert_eq!(idle.model(), "model-a");
    assert!(begin_loaded(&mut idle, "saved", Some(session(None))).is_ok());
    assert_eq!(idle.thinking_preference(), ThinkingLevel::Low);
}

#[test]
fn resuming_a_missing_session_changes_nothing() {
    let mut idle = agent(vec![user("kept")]);
    assert_eq!(
        begin_loaded(&mut idle, "missing-session", None).unwrap_err(),
        "Session \"missing-session\" not found. Use /resume to choose a session."
    );
    assert_eq!(idle.thinking_preference(), ThinkingLevel::Medium);
    assert_eq!(idle.messages().last(), Some(&user("kept")));
}

#[test]
fn help_and_parser_agree() {
    let specs = command_specs();
    for (i, spec) in specs.iter().enumerate() {
        assert!(spec.name.starts_with('/'));
        assert!(specs.iter().skip(i + 1).all(|other| other.name != spec.name));
        assert!(matches!(parse(spec.name), Ok(Some(_))));
        assert!(parse(&format!("{} x y", spec.name)).is_err());
        if !spec.accepts_arguments {
            assert!(parse(&format!("{} x", spec.name)).is_err());
        }
    }
}

#[test]
fn think_sets_and_reports_the_level() {
    let capabilities = ThinkingCapabilities::default();
    let mut quiet = agent(Vec::new());
    assert!(matches!(
        execute(SlashCommand::Think(Some(ThinkingLevel::High)), &mut quiet, &capabilities),
        CommandStep::KeepLevel { level: ThinkingLevel::High, save: false }
    ));
    assert_eq!(quiet.thinking_preference(), ThinkingLevel::High);
    assert_eq!(
        report_level(quiet.thinking_preference(), &capabilities).output,
        CommandOutput::Status("Thinking · high · available off, low, medium, high".to_owned())
    );
    assert_eq!(
        report_level(ThinkingLevel::Max, &capabilities).output,
        CommandOutput::Status(
            "Thinking · requested max · effective high · available off, low, medium, high"
                .to_owned()
        )
    );
    assert!(matches!(
        execute(SlashCommand::Think(None), &mut quiet, &capabilities),
        CommandStep::Done(result) if result.effect == CommandEffect::Nothing
    ));
}

#[test]
fn some_commands_need_a_view() {
    assert!(is_only_for_views(&SlashCommand::Model));
    assert!(is_only_for_views(&SlashCommand::Provider));
    assert!(is_only_for_views(&SlashCommand::Thinking(None)));
    assert!(!is_only_for_views(&SlashCommand::Help));
    let capabilities = ThinkingCapabilities::default();
    let mut idle = agent(Vec::new());
    assert!(matches!(
        execute(SlashCommand::Help, &mut idle, &capabilities),
        CommandStep::Done(result) if result.output == CommandOutput::Help
    ));
    assert!(matches!(
        execute(SlashCommand::Sessions, &mut idle, &capabilities),
        CommandStep::ListSessions
    ));
    assert!(matches!(
        execute(SlashCommand::Compact, &mut idle, &capabilities),
        CommandStep::Compact
    ));
}

fn stats(freed: usize) -> CompactStats {
    CompactStats {
        before_tokens: 100 + freed,
        after_tokens: 100,
        freed_tokens: freed,
        kept_turns: 2,
        summarized_turns: 3,
        summarized_tool_outputs: 4,
        pruned_tool_outputs: 0,
    }
}

#[test]
fn compaction_is_reported_with_its_sizes() {
    assert_eq!(
        compact_feedback(&stats(0)),
        "Context already compact: 100 tokens, 2 recent turn(s) kept."
    );
    assert_eq!(
        compact_feedback(&stats(50)),
        "Compacted context: freed approximately 50 tokens (150 → 100); kept 2 recent turn(s), summarized 3 older turn(s) and 4 tool output(s)."
    );
    assert_eq!(finish_compact(&stats(1)).effect, CommandEffect::ReplaceView);
}

#[test]
fn events_are_printed_as_lines() {
    let line = |event: AgentEvent| print_event(&event);
    assert_eq!(
        line(AgentEvent::MessageDelta { role: MessageRole::User, delta: "x".to_owned() }),
        Printed::Nothing
    );
    assert_eq!(
        line(AgentEvent::MessageDelta { role: MessageRole::Assistant, delta: "x".to_owned() }),
        Printed::Piece("x".to_owned())
    );
    assert_eq!(
        line(AgentEvent::ThinkingNormalized {
            requested: ThinkingLevel::Max,
            clamped: ThinkingLevel::High,
            effective: ThinkingLevel::High,
            provider_value: None,
        }),
        Printed::ErrorLine(
            "[thinking] requested=max clamped=high effective=high upstream=<omitted>".to_owned()
        )
    );
    assert_eq!(
        line(AgentEvent::ContextCompacted { stats: stats(7) }),
        Printed::ErrorLine(
            "\n[compact] freed approximately 7 tokens; kept 2 recent turn(s)".to_owned()
        )
    );
    assert_eq!(
        line(AgentEvent::Error { message: "no".to_owned() }),
        Printed::ErrorLine("\nZex error: no".to_owned())
    );
    assert_eq!(line(AgentEvent::TurnCancelled), Printed::ErrorLine("\n[interrupted]".to_owned()));
    assert_eq!(line(AgentEvent::TurnEnd), Printed::Nothing);
    assert_eq!(context_line(12), "[context] 12 tokens");
}

#[test]
fn changes_are_printed_with_their_counts() {
    let change = |before: Option<&str>, after: &str| FileChange {
        path: PathBuf::from("a.txt"),
        before: before.map(str::to_owned),
        after: after.to_owned(),
    };
    assert_eq!(change_line("a.txt", &change(None, "a\nb\n")), "[change] a.txt: +2 (new file)");
    assert_eq!(change_line("a.txt", &change(Some("a\nb"), "a")), "[change] a.txt: −1");
    assert_eq!(change_line("a.txt", &change(Some("a"), "b\nc")), "[change] a.txt: +2 −1");
}

#[test]
fn instructions_are_joined_with_the_skills() {
    let mut skills = SkillCatalog::new();
    skills.insert("b".to_owned(), "/home/b/SKILL.md".to_owned());
    skills.insert("a".to_owned(), "/home/a/SKILL.md".to_owned());
    skills.insert("b".to_owned(), "/project/b/SKILL.md".to_owned());
    assert_eq!(
        skills.names_and_paths(),
        vec!["- a: /home/a/SKILL.md", "- b: /project/b/SKILL.md"]
    );
    assert_eq!(skills.path("b"), Some("/project/b/SKILL.md"));
    assert_eq!(skills.path("c"), None);
    let told = assemble(&vec![("AGENTS.md".to_owned(), "Be kind.".to_owned())], &skills);
    assert!(told.starts_with("You are Zex"));
    assert!(told.contains("\n\n[Instructions from AGENTS.md]\nBe kind.\n\n[Available skills]\n- a"));
    assert!(!assemble(&Vec::new(), &SkillCatalog::new()).contains("skills"));
    let asked = |text: &str| parse_json(text.as_bytes()).unwrap();
    assert_eq!(skills.requested(&asked(r#"{"name": "a"}"#)).unwrap(), "/home/a/SKILL.md");
    assert_eq!(skills.requested(&asked(r#"{"name": "z"}"#)).unwrap_err(), "unknown skill \"z\"");
    assert_eq!(
        skills.requested(&asked("{}")).unwrap_err(),
        "invalid read_skill arguments: missing field `name`"
    );
    assert!(check_size("skill", "x", 524_288).is_ok());
    assert_eq!(check_size("skill", "x", 524_289).unwrap_err(), "skill x exceeds 524288 bytes");
    assert_eq!(skills.into_entries().len(), 2);
}
