//! Slash commands: how they are read, what they ask for, and what is said of
//! them.
use crate::agent::compaction::CompactStats;
use crate::agent::message::Message;
use crate::agent::message::MessageView;
use crate::agent::state;
use crate::agent::state::Agent;
use crate::provider::thinking;
use crate::provider::thinking::ThinkingCapabilities;
use crate::provider::thinking::ThinkingLevel;
use crate::session::LoadedSession;
use crate::session::SessionSummary;
use crate::text;
use vstd::prelude::*;
use vstd::string::*;

verus! {

// ---------------------------------------------------------------------------
// The commands
// ---------------------------------------------------------------------------

/// One command as the help shows it.
#[derive(Debug, Clone, Copy, PartialEq, Eq)]
pub struct CommandSpec {
    pub name: &'static str,
    pub usage: &'static str,
    pub description: &'static str,
    pub accepts_arguments: bool,
}

/// What a [`CommandSpec`] holds.
#[verifier::ext_equal]
pub struct CommandSpecView {
    pub name: Seq<char>,
    pub usage: Seq<char>,
    pub description: Seq<char>,
    pub accepts_arguments: bool,
}

impl View for CommandSpec {
    type V = CommandSpecView;

    open spec fn view(&self) -> CommandSpecView {
        CommandSpecView {
            name: self.name@,
            usage: self.usage@,
            description: self.description@,
            accepts_arguments: self.accepts_arguments,
        }
    }
}

pub open spec fn command(
    name: Seq<char>,
    usage: Seq<char>,
    description: Seq<char>,
    accepts_arguments: bool,
) -> CommandSpecView {
    CommandSpecView { name, usage, description, accepts_arguments }
}

/// The commands, in the order in which the help shows them.
pub open spec fn commands() -> Seq<CommandSpecView> {
    seq![
        command("/help"@, "/help"@, "Open command index"@, false),
        command("/model"@, "/model"@, "Switch the active model"@, false),
        command("/provider"@, "/provider"@, "Configure providers and models"@, false),
        command("/clear"@, "/clear"@, "Start a new session"@, false),
        command("/new"@, "/new"@, "Start a new session"@, false),
        command("/sessions"@, "/sessions"@, "List saved sessions"@, false),
        command("/resume"@, "/resume [id]"@, "Resume a saved session"@, true),
        command("/compact"@, "/compact"@, "Compact older context"@, false),
        command("/think"@, "/think [level]"@, "Set thinking level"@, true),
        command("/thinking"@, "/thinking [show|hide]"@, "Show or hide thinking cards"@, true),
    ]
}

fn push_command(
    list: &mut Vec<CommandSpec>,
    name: &'static str,
    usage: &'static str,
    description: &'static str,
    accepts_arguments: bool,
)
    ensures
        text::views(final(list)@) == text::views(old(list)@).push(
            command(name@, usage@, description@, accepts_arguments),
        ),
{
    let shown = CommandSpec { name, usage, description, accepts_arguments };
    proof {
        text::lemma_views_push(list@, shown);
    }
    list.push(shown);
}

/// The commands, in the order in which the help shows them.
pub fn command_specs() -> (r: Vec<CommandSpec>)
    ensures
        text::views(r@) == commands(),
{
    let mut r: Vec<CommandSpec> = Vec::new();
    assert(text::views(r@) =~= Seq::<CommandSpecView>::empty());
    push_command(&mut r, "/help", "/help", "Open command index", false);
    push_command(&mut r, "/model", "/model", "Switch the active model", false);
    push_command(&mut r, "/provider", "/provider", "Configure providers and models", false);
    push_command(&mut r, "/clear", "/clear", "Start a new session", false);
    push_command(&mut r, "/new", "/new", "Start a new session", false);
    push_command(&mut r, "/sessions", "/sessions", "List saved sessions", false);
    push_command(&mut r, "/resume", "/resume [id]", "Resume a saved session", true);
    push_command(&mut r, "/compact", "/compact", "Compact older context", false);
    push_command(&mut r, "/think", "/think [level]", "Set thinking level", true);
    push_command(&mut r, "/thinking", "/thinking [show|hide]", "Show or hide thinking cards", true);
    assert(text::views(r@) =~= commands());
    r
}

/// The length of the longest usage.
pub open spec fn widest(list: Seq<CommandSpecView>) -> nat
    decreases list.len(),
{
    if list.len() == 0 {
        0
    } else {
        let others = widest(list.drop_last());
        if list.last().usage.len() > others {
            list.last().usage.len()
        } else {
            others
        }
    }
}

/// `s` with spaces behind it up to `width` characters.
pub open spec fn padded(s: Seq<char>, width: nat) -> Seq<char>
    decreases width - s.len(),
{
    if s.len() >= width {
        s
    } else {
        padded(s.push(' '), width)
    }
}

pub open spec fn help_line(shown: CommandSpecView, width: nat) -> Seq<char> {
    padded(shown.usage, width) + "  "@ + shown.description
}

fn padded_of(s: &str, width: usize) -> (r: String)
    ensures
        r@ == padded(s@, width as nat),
{
    let mut r = s.to_owned();
    let mut n: usize = text::char_count(s);
    while n < width
        invariant
            n == r@.len(),
            padded(r@, width as nat) == padded(s@, width as nat),
        decreases width - n,
    {
        r.push(' ');
        n = n + 1;
    }
    r
}

/// The help, line by line: the usages in a column of their own, and what each
/// command does.
pub fn help_lines() -> (r: Vec<String>)
    ensures
        text::views(r@) == commands().map_values(
            |shown: CommandSpecView| help_line(shown, widest(commands())),
        ),
{
    let list = command_specs();
    let ghost model = commands();
    let mut width: usize = 0;
    let mut i: usize = 0;
    while i < list.len()
        invariant
            i <= list@.len(),
            model == text::views(list@),
            width == widest(model.take(i as int)),
        decreases list@.len() - i,
    {
        assert(model.take(i + 1).drop_last() =~= model.take(i as int));
        assert(model[i as int] == list@[i as int]@);
        let n: usize = text::char_count(list[i].usage);
        if n > width {
            width = n;
        }
        i = i + 1;
    }
    assert(model.take(model.len() as int) =~= model);
    let ghost goal = model.map_values(
        |shown: CommandSpecView| help_line(shown, widest(commands())),
    );
    let mut r: Vec<String> = Vec::new();
    let mut j: usize = 0;
    assert(text::views(r@) =~= goal.take(0));
    while j < list.len()
        invariant
            j <= list@.len(),
            model == text::views(list@),
            model == commands(),
            width == widest(model),
            goal == model.map_values(
                |shown: CommandSpecView| help_line(shown, widest(commands())),
            ),
            text::views(r@) == goal.take(j as int),
        decreases list@.len() - j,
    {
        let shown = &list[j];
        assert(model[j as int] == shown@);
        let mut line = padded_of(shown.usage, width);
        line.append("  ");
        line.append(shown.description);
        proof {
            text::lemma_views_push(r@, line);
            assert(goal[j as int] == line@);
            assert(goal.take(j + 1) =~= goal.take(j as int).push(line@));
        }
        r.push(line);
        j = j + 1;
    }
    assert(goal.take(goal.len() as int) =~= goal);
    r
}

// ---------------------------------------------------------------------------
// Reading
// ---------------------------------------------------------------------------

#[derive(Debug, PartialEq, Eq)]
pub enum SlashCommand {
    Help,
    Model,
    Provider,
    NewSession,
    Sessions,
    Resume(Option<String>),
    Compact,
    Think(Option<ThinkingLevel>),
    Thinking(Option<bool>),
}

/// What a [`SlashCommand`] holds.
pub enum SlashView {
    Help,
    Model,
    Provider,
    NewSession,
    Sessions,
    Resume(Option<Seq<char>>),
    Compact,
    Think(Option<ThinkingLevel>),
    Thinking(Option<bool>),
}

impl View for SlashCommand {
    type V = SlashView;

    open spec fn view(&self) -> SlashView {
        match *self {
            SlashCommand::Help => SlashView::Help,
            SlashCommand::Model => SlashView::Model,
            SlashCommand::Provider => SlashView::Provider,
            SlashCommand::NewSession => SlashView::NewSession,
            SlashCommand::Sessions => SlashView::Sessions,
            SlashCommand::Resume(id) => SlashView::Resume(text::opt(id)),
            SlashCommand::Compact => SlashView::Compact,
            SlashCommand::Think(level) => SlashView::Think(level),
            SlashCommand::Thinking(shown) => SlashView::Thinking(shown),
        }
    }
}

/// The command that `name` alone stands for, where it takes no argument.
pub open spec fn plain_command(name: Seq<char>) -> Option<SlashView> {
    if name == "/help"@ {
        Some(SlashView::Help)
    } else if name == "/model"@ {
        Some(SlashView::Model)
    } else if name == "/provider"@ {
        Some(SlashView::Provider)
    } else if name == "/clear"@ || name == "/new"@ {
        Some(SlashView::NewSession)
    } else if name == "/sessions"@ {
        Some(SlashView::Sessions)
    } else if name == "/compact"@ {
        Some(SlashView::Compact)
    } else {
        None
    }
}

/// Whether thinking is to be shown.
pub open spec fn visibility(value: Seq<char>) -> Option<bool> {
    let lowered = text::ascii_lowercase(value);
    if lowered == "show"@ || lowered == "on"@ {
        Some(true)
    } else if lowered == "hide"@ || lowered == "off"@ {
        Some(false)
    } else {
        None
    }
}

/// The command that `name` with its arguments stands for, or what is wrong
/// with it.
pub open spec fn command_of(name: Seq<char>, arguments: Seq<Seq<char>>) -> Result<
    SlashView,
    Seq<char>,
> {
    match plain_command(name) {
        Some(plain) => if arguments.len() == 0 {
            Ok(plain)
        } else {
            Err(name + " does not accept arguments"@)
        },
        None => if name == "/resume"@ {
            if arguments.len() > 1 {
                Err("/resume accepts at most one session ID"@)
            } else if arguments.len() == 1 {
                Ok(SlashView::Resume(Some(arguments[0])))
            } else {
                Ok(SlashView::Resume(None))
            }
        } else if name == "/think"@ {
            if arguments.len() > 1 {
                Err("/think accepts at most one level"@)
            } else if arguments.len() == 1 {
                match thinking::level_of(arguments[0]) {
                    Some(level) => Ok(SlashView::Think(Some(level))),
                    None => Err(thinking::level_complaint(arguments[0])),
                }
            } else {
                Ok(SlashView::Think(None))
            }
        } else if name == "/thinking"@ {
            if arguments.len() > 1 {
                Err("/thinking accepts at most one value"@)
            } else if arguments.len() == 1 {
                match visibility(arguments[0]) {
                    Some(shown) => Ok(SlashView::Thinking(Some(shown))),
                    None => Err("/thinking expects show or hide"@),
                }
            } else {
                Ok(SlashView::Thinking(None))
            }
        } else {
            Err("unknown slash command "@ + text::debug_quoted(name) + "; use /help"@)
        },
    }
}

/// What `input` stands for: a command where it begins with a slash, else a
/// message.
pub open spec fn read_input(input: Seq<char>) -> Result<Option<SlashView>, Seq<char>> {
    if !text::starts_with(text::trim(input), "/"@) {
        Ok(None)
    } else {
        let parts = text::words(text::trim(input));
        let read = if parts.len() == 0 {
            command_of(Seq::empty(), parts)
        } else {
            command_of(parts[0], parts.skip(1))
        };
        match read {
            Ok(command) => Ok(Some(command)),
            Err(message) => Err(message),
        }
    }
}

fn plain_command_of(name: &str) -> (r: Option<SlashCommand>)
    ensures
        text::opt(r) == plain_command(name@),
{
    if text::same(name, "/help") {
        Some(SlashCommand::Help)
    } else if text::same(name, "/model") {
        Some(SlashCommand::Model)
    } else if text::same(name, "/provider") {
        Some(SlashCommand::Provider)
    } else if text::same(name, "/clear") || text::same(name, "/new") {
        Some(SlashCommand::NewSession)
    } else if text::same(name, "/sessions") {
        Some(SlashCommand::Sessions)
    } else if text::same(name, "/compact") {
        Some(SlashCommand::Compact)
    } else {
        None
    }
}

fn visibility_of(value: &str) -> (r: Option<bool>)
    ensures
        r == visibility(value@),
{
    let lowered = text::ascii_lowercase_of(value);
    let word = lowered.as_str();
    if text::same(word, "show") || text::same(word, "on") {
        Some(true)
    } else if text::same(word, "hide") || text::same(word, "off") {
        Some(false)
    } else {
        None
    }
}

/// What `input` stands for.
pub fn parse(input: &str) -> (r: Result<Option<SlashCommand>, String>)
    ensures
        match (r, read_input(input@)) {
            (Ok(command), Ok(wanted)) => text::opt(command) == wanted,
            (Err(message), Err(complaint)) => message@ == complaint,
            _ => false,
        },
{
    let trimmed = text::trim_of(input);
    if !text::starts_with_of(trimmed.as_str(), "/") {
        return Ok(None);
    }
    let parts = text::words_of(trimmed.as_str());
    let ghost model = text::views(parts@);
    let name = if parts.len() == 0 {
        proof {
            reveal_strlit("");
            assert(""@ =~= Seq::<char>::empty());
        }
        ""
    } else {
        assert(model[0] == parts@[0]@);
        parts[0].as_str()
    };
    let given: usize = if parts.len() == 0 {
        0
    } else {
        parts.len() - 1
    };
    let ghost arguments = if model.len() == 0 {
        model
    } else {
        model.skip(1)
    };
    assert(arguments.len() == given);
    assert(given > 0 ==> arguments[0] == parts@[1]@);
    assert(text::words(trimmed@) == model);
    match plain_command_of(name) {
        Some(plain) => {
            if given == 0 {
                return Ok(Some(plain));
            }
            return Err(text::concat(name, " does not accept arguments"));
        },
        None => {},
    }
    if text::same(name, "/resume") {
        if given > 1 {
            Err("/resume accepts at most one session ID".to_owned())
        } else if given == 1 {
            Ok(Some(SlashCommand::Resume(Some(parts[1].clone()))))
        } else {
            Ok(Some(SlashCommand::Resume(None)))
        }
    } else if text::same(name, "/think") {
        if given > 1 {
            Err("/think accepts at most one level".to_owned())
        } else if given == 1 {
            match ThinkingLevel::parse(parts[1].as_str()) {
                Ok(level) => Ok(Some(SlashCommand::Think(Some(level)))),
                Err(message) => Err(message),
            }
        } else {
            Ok(Some(SlashCommand::Think(None)))
        }
    } else if text::same(name, "/thinking") {
        if given > 1 {
            Err("/thinking accepts at most one value".to_owned())
        } else if given == 1 {
            match visibility_of(parts[1].as_str()) {
                Some(shown) => Ok(Some(SlashCommand::Thinking(Some(shown)))),
                None => Err("/thinking expects show or hide".to_owned()),
            }
        } else {
            Ok(Some(SlashCommand::Thinking(None)))
        }
    } else {
        let quoted = text::debug_text(name);
        let mut message = text::concat("unknown slash command ", quoted.as_str());
        message.append("; use /help");
        Err(message)
    }
}

/// What does not begin with a slash is a message, never a command.
pub proof fn law_messages_are_no_commands(input: Seq<char>)
    requires
        text::trim(input).len() == 0 || text::trim(input)[0] != '/',
    ensures
        read_input(input) == Ok::<Option<SlashView>, Seq<char>>(None),
{
    reveal_strlit("/");
    assert("/"@[0] == '/');
}

/// What the help shows is what can be said: every command that it lists is
/// known, and takes an argument just where the help says so.
pub proof fn law_listed_commands_are_known(i: int, arguments: Seq<Seq<char>>)
    requires
        0 <= i < commands().len(),
    ensures
        command_of(commands()[i].name, Seq::empty()) is Ok,
        arguments.len() > 0 && !commands()[i].accepts_arguments ==> command_of(
            commands()[i].name,
            arguments,
        ) == Err::<SlashView, Seq<char>>(commands()[i].name + " does not accept arguments"@),
        arguments.len() > 1 ==> command_of(commands()[i].name, arguments) is Err,
        commands()[i].accepts_arguments ==> plain_command(commands()[i].name) is None,
        text::is_word(commands()[i].name),
        commands()[i].name[0] == '/',
{
    reveal_strlit("/help");
    reveal_strlit("/model");
    reveal_strlit("/provider");
    reveal_strlit("/clear");
    reveal_strlit("/new");
    reveal_strlit("/sessions");
    reveal_strlit("/compact");
    reveal_strlit("/resume");
    reveal_strlit("/think");
    reveal_strlit("/thinking");
    assert("/help"@.len() == 5 && "/new"@.len() == 4 && "/resume"@.len() == 7 && "/compact"@.len()
        == 8);
    assert("/model"@[1] == 'm' && "/clear"@[1] == 'c' && "/think"@[1] == 't');
    assert("/provider"@[1] == 'p' && "/sessions"@[1] == 's' && "/thinking"@[1] == 't');
    assert("/model"@.len() == 6 && "/clear"@.len() == 6 && "/think"@.len() == 6);
    assert("/provider"@.len() == 9 && "/sessions"@.len() == 9 && "/thinking"@.len() == 9);
}

/// No two commands that the help lists have the same name.
pub proof fn law_listed_commands_are_told_apart(i: int, j: int)
    requires
        0 <= i < j < commands().len(),
    ensures
        commands()[i].name != commands()[j].name,
{
    reveal_strlit("/help");
    reveal_strlit("/model");
    reveal_strlit("/provider");
    reveal_strlit("/clear");
    reveal_strlit("/new");
    reveal_strlit("/sessions");
    reveal_strlit("/compact");
    reveal_strlit("/resume");
    reveal_strlit("/think");
    reveal_strlit("/thinking");
    assert("/help"@.len() == 5 && "/new"@.len() == 4 && "/resume"@.len() == 7 && "/compact"@.len()
        == 8);
    assert("/model"@[1] == 'm' && "/clear"@[1] == 'c' && "/think"@[1] == 't');
    assert("/provider"@[1] == 'p' && "/sessions"@[1] == 's' && "/thinking"@[1] == 't');
    assert("/model"@.len() == 6 && "/clear"@.len() == 6 && "/think"@.len() == 6);
    assert("/provider"@.len() == 9 && "/sessions"@.len() == 9 && "/thinking"@.len() == 9);
}

/// What is typed is read as what it says: the name of a listed command, with
/// words behind it, is that command with these arguments. The name alone is
/// always a command, and with two words or more it never is.
pub proof fn law_typed_commands_are_read(i: int, arguments: Seq<Seq<char>>)
    requires
        0 <= i < commands().len(),
        forall|k: int| 0 <= k < arguments.len() ==> text::is_word(#[trigger] arguments[k]),
    ensures
        read_input(text::spaced(commands()[i].name, arguments)) == (match command_of(
            commands()[i].name,
            arguments,
        ) {
            Ok(command) => Ok::<Option<SlashView>, Seq<char>>(Some(command)),
            Err(message) => Err(message),
        }),
        arguments.len() == 0 ==> read_input(commands()[i].name) is Ok,
        arguments.len() > 0 && !commands()[i].accepts_arguments ==> read_input(
            text::spaced(commands()[i].name, arguments),
        ) is Err,
        arguments.len() > 1 ==> read_input(text::spaced(commands()[i].name, arguments)) is Err,
{
    let name = commands()[i].name;
    let input = text::spaced(name, arguments);
    law_listed_commands_are_known(i, arguments);
    text::lemma_spaced(name, arguments);
    reveal_strlit("/");
    assert(input.subrange(0, 1) =~= "/"@);
    assert((seq![name] + arguments).skip(1) =~= arguments);
    if arguments.len() == 0 {
        assert(arguments =~= Seq::empty());
    }
}

// ---------------------------------------------------------------------------
// Running
// ---------------------------------------------------------------------------

#[derive(Debug, Clone, Copy, PartialEq, Eq, Structural)]
pub enum CommandEffect {
    Nothing,
    ClearView,
    ReplaceView,
}

#[derive(Debug, PartialEq, Eq)]
pub enum CommandOutput {
    Help,
    Sessions(Vec<SessionSummary>),
    ResumePicker(Vec<SessionSummary>),
    Status(String),
}

#[derive(Debug, PartialEq, Eq)]
pub struct CommandResult {
    pub output: CommandOutput,
    pub effect: CommandEffect,
}

impl CommandResult {
    /// Whether this says `message`, with `effect` on the view.
    pub open spec fn says(self, message: Seq<char>, effect: CommandEffect) -> bool {
        &&& self.output matches CommandOutput::Status(status) && status@ == message
        &&& self.effect == effect
    }
}

/// What a command asks for first.
pub enum CommandStep {
    /// Nothing: this is its result.
    Done(CommandResult),
    /// The conversation is saved where `save` says so, and a new one is begun.
    Restart { save: bool },
    /// The saved sessions are listed.
    ListSessions,
    /// The saved sessions are listed for one to be chosen.
    PickSession,
    /// A session is loaded.
    Load(String),
    /// The context is compacted.
    Compact,
    /// The level, which is set already, is written to the settings, and the
    /// conversation is saved where `save` says so.
    KeepLevel { level: ThinkingLevel, save: bool },
}

/// Whether only a terminal view can run the command.
pub open spec fn needs_view(command: SlashView) -> bool {
    command is Model || command is Provider || command is Thinking
}

/// Whether only a terminal view can run the command.
pub fn is_only_for_views(command: &SlashCommand) -> (r: bool)
    ensures
        r == needs_view(command@),
{
    match command {
        SlashCommand::Model | SlashCommand::Provider | SlashCommand::Thinking(_) => true,
        _ => false,
    }
}

/// What is said of the level of thinking.
pub open spec fn level_status(
    preference: ThinkingLevel,
    capabilities: thinking::CapabilitiesView,
) -> Seq<char> {
    let effective = thinking::normalized(capabilities, preference).effective;
    let available = text::join(
        capabilities.available().map_values(|level: ThinkingLevel| thinking::level_name(level)),
        ", "@,
    );
    if preference == effective {
        "Thinking · "@ + thinking::level_name(preference) + " · available "@ + available
    } else {
        "Thinking · requested "@ + thinking::level_name(preference) + " · effective "@
            + thinking::level_name(effective) + " · available "@ + available
    }
}

fn status(message: String, effect: CommandEffect) -> (r: CommandResult)
    ensures
        r.says(message@, effect),
{
    CommandResult { output: CommandOutput::Status(message), effect }
}

/// Says what level of thinking is set.
pub fn report_level(preference: ThinkingLevel, capabilities: &ThinkingCapabilities) -> (r:
    CommandResult)
    ensures
        r.says(level_status(preference, capabilities@), CommandEffect::Nothing),
{
    let effective = thinking::normalize_thinking_level(capabilities, preference).effective;
    let levels = capabilities.available_levels();
    let ghost goal = levels@.map_values(|level: ThinkingLevel| thinking::level_name(level));
    let mut names: Vec<String> = Vec::new();
    let mut i: usize = 0;
    assert(text::views(names@) =~= goal.take(0));
    while i < levels.len()
        invariant
            i <= levels@.len(),
            goal == levels@.map_values(|level: ThinkingLevel| thinking::level_name(level)),
            text::views(names@) == goal.take(i as int),
        decreases levels@.len() - i,
    {
        let name = levels[i].to_string();
        proof {
            text::lemma_views_push(names@, name);
            assert(goal.take(i + 1) =~= goal.take(i as int).push(name@));
        }
        names.push(name);
        i = i + 1;
    }
    assert(goal.take(goal.len() as int) =~= goal);
    let available = text::join_of(&names, ", ");
    let mut message = if preference == effective {
        text::concat("Thinking · ", preference.name())
    } else {
        let mut both = text::concat("Thinking · requested ", preference.name());
        both.append(" · effective ");
        both.append(effective.name());
        both
    };
    message.append(" · available ");
    message.append(available.as_str());
    status(message, CommandEffect::Nothing)
}

/// Begins a command that needs no view.
pub fn execute(
    command: SlashCommand,
    agent: &mut Agent,
    capabilities: &ThinkingCapabilities,
) -> (r: CommandStep)
    requires
        !needs_view(command@),
    ensures
        *final(agent) == match command@ {
            SlashView::Think(Some(level)) => (Agent { thinking_level: level, ..*old(agent) }),
            _ => *old(agent),
        },
        ({
            let talked = state::conversed(text::views(old(agent).messages@));
            match command@ {
                SlashView::Help => r matches CommandStep::Done(result) && result.output is Help
                    && result.effect == CommandEffect::Nothing,
                SlashView::NewSession => r == (CommandStep::Restart { save: talked }),
                SlashView::Sessions => r is ListSessions,
                SlashView::Resume(Some(id)) => r matches CommandStep::Load(wanted) && wanted@ == id,
                SlashView::Resume(None) => r is PickSession,
                SlashView::Compact => r is Compact,
                SlashView::Think(Some(level)) => r == (CommandStep::KeepLevel {
                    level,
                    save: talked,
                }),
                SlashView::Think(None) => r matches CommandStep::Done(result) && result.says(
                    level_status(old(agent).thinking_level, capabilities@),
                    CommandEffect::Nothing,
                ),
                _ => false,
            }
        }),
{
    match command {
        SlashCommand::Help => CommandStep::Done(
            CommandResult { output: CommandOutput::Help, effect: CommandEffect::Nothing },
        ),
        SlashCommand::NewSession => CommandStep::Restart { save: agent.has_conversation() },
        SlashCommand::Sessions => CommandStep::ListSessions,
        SlashCommand::Resume(Some(id)) => CommandStep::Load(id),
        SlashCommand::Resume(None) => CommandStep::PickSession,
        SlashCommand::Compact => CommandStep::Compact,
        SlashCommand::Think(Some(level)) => {
            agent.set_thinking_level(level);
            CommandStep::KeepLevel { level, save: agent.has_conversation() }
        },
        SlashCommand::Think(None) => CommandStep::Done(
            report_level(agent.thinking_preference(), capabilities),
        ),
        _ => CommandStep::ListSessions,
    }
}

/// Says that a new conversation was begun, under the ID that memory was given
/// where there is any.
pub fn finish_restart(
    saved_id: Option<&str>,
    next_id: Option<String>,
    session_id: &mut Option<String>,
) -> (r: CommandResult)
    ensures
        text::opt(*final(session_id)) == text::opt(next_id),
        r.says(
            match saved_id {
                Some(id) => "New session started. Saved previous session "@ + id@ + "."@,
                None => "New session started."@,
            },
            CommandEffect::ClearView,
        ),
{
    *session_id = next_id;
    let message = match saved_id {
        Some(id) => {
            let mut message = text::concat("New session started. Saved previous session ", id);
            message.append(".");
            message
        },
        None => "New session started.".to_owned(),
    };
    status(message, CommandEffect::ClearView)
}

/// What is said of a session that is not there.
pub open spec fn not_found(id: Seq<char>) -> Seq<char> {
    "Session "@ + text::debug_quoted(id) + " not found. Use /resume to choose a session."@
}

/// What is said of a session that is not there.
pub fn missing_session(id: &str) -> (r: String)
    ensures
        r@ == not_found(id@),
{
    let quoted = text::debug_text(id);
    let mut message = text::concat("Session ", quoted.as_str());
    message.append(" not found. Use /resume to choose a session.");
    message
}

/// Takes over the level of thinking that a session was saved with, where one
/// was.
pub fn begin_resume(agent: &mut Agent, level: Option<ThinkingLevel>)
    ensures
        *final(agent) == (match level {
            Some(level) => Agent { thinking_level: level, ..*old(agent) },
            None => *old(agent),
        }),
{
    match level {
        Some(level) => agent.set_thinking_level(level),
        None => {},
    }
}

/// Begins to take up the session `id` that was loaded, where there is one. Where
/// there is none, that is said, and nothing changes.
pub fn begin_loaded(agent: &mut Agent, id: &str, loaded: Option<LoadedSession>) -> (r: Result<
    LoadedSession,
    String,
>)
    ensures
        match loaded {
            None => {
                &&& r is Err
                &&& r->Err_0@ == not_found(id@)
                &&& *final(agent) == *old(agent)
            },
            Some(session) => {
                &&& r is Ok
                &&& r->Ok_0 == session
                &&& *final(agent) == (match session.thinking_level {
                    Some(level) => Agent { thinking_level: level, ..*old(agent) },
                    None => *old(agent),
                })
            },
        },
{
    match loaded {
        None => Err(missing_session(id)),
        Some(session) => {
            begin_resume(agent, session.thinking_level);
            Ok(session)
        },
    }
}

/// How many of the messages were said.
pub open spec fn spoken_count(messages: Seq<MessageView>) -> nat
    decreases messages.len(),
{
    if messages.len() == 0 {
        0
    } else if messages.last() is System {
        spoken_count(messages.drop_last())
    } else {
        spoken_count(messages.drop_last()) + 1
    }
}

fn spoken_count_of(messages: &Vec<Message>) -> (r: usize)
    ensures
        r == spoken_count(text::views(messages@)),
{
    let ghost model = text::views(messages@);
    let mut count: usize = 0;
    let mut i: usize = 0;
    while i < messages.len()
        invariant
            i <= messages@.len(),
            model == text::views(messages@),
            count == spoken_count(model.take(i as int)),
            count <= i,
        decreases messages@.len() - i,
    {
        assert(model.take(i + 1).drop_last() =~= model.take(i as int));
        assert(model.take(i + 1).last() == messages@[i as int]@);
        match &messages[i] {
            Message::System { .. } => {},
            _ => {
                count = count + 1;
            },
        }
        i = i + 1;
    }
    assert(model.take(model.len() as int) =~= model);
    count
}

/// Says that a session was taken up again: its messages are those of `agent`,
/// whose model stays what it is.
pub fn finish_resume(agent: &Agent, id: String, session_id: &mut Option<String>) -> (r:
    CommandResult)
    ensures
        text::opt(*final(session_id)) == Some(id@),
        r.says(
            "Resumed "@ + id@ + " · "@ + text::decimal(
                spoken_count(text::views(agent.messages@)),
            ) + " messages · model "@ + agent.model@,
            CommandEffect::ReplaceView,
        ),
{
    let count: usize = spoken_count_of(&agent.messages);
    let shown = text::decimal_of(count as u64);
    let mut message = text::concat("Resumed ", id.as_str());
    message.append(" · ");
    message.append(shown.as_str());
    message.append(" messages · model ");
    message.append(agent.model());
    *session_id = Some(id);
    status(message, CommandEffect::ReplaceView)
}

pub open spec fn shown_size(n: usize) -> Seq<char> {
    text::decimal(n as nat)
}

/// What is said of a compaction.
pub open spec fn feedback(stats: CompactStats) -> Seq<char> {
    if stats.freed_tokens == 0 {
        "Context already compact: "@ + shown_size(stats.after_tokens) + " tokens, "@ + shown_size(
            stats.kept_turns,
        ) + " recent turn(s) kept."@
    } else {
        "Compacted context: freed approximately "@ + shown_size(stats.freed_tokens) + " tokens ("@
            + shown_size(stats.before_tokens) + " → "@ + shown_size(stats.after_tokens)
            + "); kept "@ + shown_size(stats.kept_turns) + " recent turn(s), summarized "@
            + shown_size(stats.summarized_turns) + " older turn(s) and "@ + shown_size(
            stats.summarized_tool_outputs,
        ) + " tool output(s)."@
    }
}

fn append_size(message: &mut String, n: usize)
    ensures
        final(message)@ == old(message)@ + shown_size(n),
{
    let shown = text::decimal_of(n as u64);
    message.append(shown.as_str());
}

/// What is said of a compaction.
pub fn compact_feedback(stats: &CompactStats) -> (r: String)
    ensures
        r@ == feedback(*stats),
{
    if stats.freed_tokens == 0 {
        let mut message = "Context already compact: ".to_owned();
        append_size(&mut message, stats.after_tokens);
        message.append(" tokens, ");
        append_size(&mut message, stats.kept_turns);
        message.append(" recent turn(s) kept.");
        return message;
    }
    let mut message = "Compacted context: freed approximately ".to_owned();
    append_size(&mut message, stats.freed_tokens);
    message.append(" tokens (");
    append_size(&mut message, stats.before_tokens);
    message.append(" → ");
    append_size(&mut message, stats.after_tokens);
    message.append("); kept ");
    append_size(&mut message, stats.kept_turns);
    message.append(" recent turn(s), summarized ");
    append_size(&mut message, stats.summarized_turns);
    message.append(" older turn(s) and ");
    append_size(&mut message, stats.summarized_tool_outputs);
    message.append(" tool output(s).");
    message
}

/// Says what a compaction did.
pub fn finish_compact(stats: &CompactStats) -> (r: CommandResult)
    ensures
        r.says(feedback(*stats), CommandEffect::ReplaceView),
{
    status(compact_feedback(stats), CommandEffect::ReplaceView)
}

proof fn lemma_padded(s: Seq<char>, width: nat)
    ensures
        padded(s, width).len() == if s.len() >= width {
            s.len()
        } else {
            width
        },
        padded(s, width).take(s.len() as int) == s,
        forall|i: int| s.len() <= i < padded(s, width).len() ==> padded(s, width)[i] == ' ',
    decreases width - s.len(),
{
    if s.len() < width {
        let next = s.push(' ');
        lemma_padded(next, width);
        let p = padded(s, width);
        assert(p.take(next.len() as int) == next);
        assert(p.take(s.len() as int) =~= s) by {
            assert forall|i: int| 0 <= i < s.len() implies p[i] == s[i] by {
                assert(p.take(next.len() as int)[i] == next[i]);
            }
        }
        assert(p.take(next.len() as int)[s.len() as int] == ' ');
    } else {
        assert(s.take(s.len() as int) =~= s);
    }
}

proof fn lemma_widest(list: Seq<CommandSpecView>)
    ensures
        forall|i: int| 0 <= i < list.len() ==> (#[trigger] list[i]).usage.len() <= widest(list),
        list.len() > 0 ==> exists|i: int|
            0 <= i < list.len() && (#[trigger] list[i]).usage.len() == widest(list) || widest(list)
                == 0,
    decreases list.len(),
{
    if list.len() > 0 {
        let rest = list.drop_last();
        lemma_widest(rest);
        assert forall|i: int| 0 <= i < list.len() implies (#[trigger] list[i]).usage.len()
            <= widest(list) by {
            if i < rest.len() {
                assert(list[i] == rest[i]);
            }
        }
        if list.last().usage.len() > widest(rest) {
            assert(list[list.len() - 1].usage.len() == widest(list));
        } else if rest.len() > 0 && widest(rest) > 0 {
            let i = choose|i: int|
                0 <= i < rest.len() && (#[trigger] rest[i]).usage.len() == widest(rest) || widest(
                    rest,
                ) == 0;
            assert(list[i].usage.len() == widest(list));
        } else {
            assert(list[list.len() - 1].usage.len() == widest(list));
        }
    }
}

/// In the list of commands each line begins with how its command is typed, and
/// all the descriptions begin in one column, two behind the longest of them.
pub proof fn law_descriptions_are_lined_up(list: Seq<CommandSpecView>, i: int)
    requires
        0 <= i < list.len(),
    ensures
        ({
            let width = widest(list);
            let line = help_line(list[i], width);
            let usage = list[i].usage;
            &&& usage.len() <= width
            &&& width == 0 || exists|j: int|
                0 <= j < list.len() && (#[trigger] list[j]).usage.len() == width
            &&& line.len() == width + 2 + list[i].description.len()
            &&& line.take(usage.len() as int) == usage
            &&& line.skip(width as int + 2) == list[i].description
            &&& forall|k: int| usage.len() <= k < width + 2 ==> #[trigger] line[k] == ' '
        }),
{
    lemma_widest(list);
    let width = widest(list);
    let usage = list[i].usage;
    lemma_padded(usage, width);
    reveal_strlit("  ");
    let line = help_line(list[i], width);
    let p = padded(usage, width);
    assert(p.len() == width);
    assert(line.skip(width as int + 2) =~= list[i].description);
    assert forall|k: int| 0 <= k < usage.len() implies line[k] == usage[k] by {
        assert(p.take(usage.len() as int)[k] == usage[k]);
    }
    assert(line.take(usage.len() as int) =~= usage);
}

/// The messages that a resumed session is said to have are all but the system's.
pub proof fn law_spoken_messages_are_counted(messages: Seq<MessageView>)
    ensures
        spoken_count(messages) == messages.filter(|m: MessageView| !(m is System)).len(),
    decreases messages.len(),
{
    reveal(Seq::filter);
    if messages.len() > 0 {
        law_spoken_messages_are_counted(messages.drop_last());
    }
}

} // verus!
