//! What is printed of a turn where there is no view.
use crate::agent::change;
use crate::agent::change::FileChange;
use crate::agent::event::AgentEvent;
use crate::agent::event::EventView;
use crate::agent::event::MessageRole;
use crate::provider::chat;
use crate::provider::thinking;
use crate::text;
use vstd::prelude::*;
use vstd::string::*;

verus! {

/// What is printed.
#[derive(Debug, PartialEq, Eq)]
pub enum Printed {
    Nothing,
    /// A piece of a line, at once.
    Piece(String),
    Line(String),
    ErrorLine(String),
}

/// What a [`Printed`] holds.
pub enum PrintedView {
    Nothing,
    Piece(Seq<char>),
    Line(Seq<char>),
    ErrorLine(Seq<char>),
}

impl View for Printed {
    type V = PrintedView;

    open spec fn view(&self) -> PrintedView {
        match *self {
            Printed::Nothing => PrintedView::Nothing,
            Printed::Piece(piece) => PrintedView::Piece(piece@),
            Printed::Line(line) => PrintedView::Line(line@),
            Printed::ErrorLine(line) => PrintedView::ErrorLine(line@),
        }
    }
}

/// What is printed of an event.
pub open spec fn printed(event: EventView) -> PrintedView {
    match event {
        EventView::MessageDelta { role: MessageRole::Assistant, delta } => PrintedView::Piece(
            delta,
        ),
        EventView::ThinkingNormalized { requested, clamped, effective, provider_value } =>
            PrintedView::ErrorLine(
            "[thinking] requested="@ + thinking::level_name(requested) + " clamped="@
                + thinking::level_name(clamped) + " effective="@ + thinking::level_name(effective)
                + " upstream="@ + match provider_value {
                Some(value) => value,
                None => "<omitted>"@,
            },
        ),
        EventView::ToolStart { name, .. } => PrintedView::Line("\n[tool] "@ + name),
        EventView::ToolEnd { name, is_error, .. } => PrintedView::Line(
            "\n[tool] "@ + name + (if is_error {
                ": failed"@
            } else {
                ": done"@
            }),
        ),
        EventView::Error { message } => PrintedView::ErrorLine("\nZex error: "@ + message),
        EventView::ContextCompacted { stats } => PrintedView::ErrorLine(
            "\n[compact] freed approximately "@ + text::decimal(stats.freed_tokens as nat)
                + " tokens; kept "@ + text::decimal(stats.kept_turns as nat)
                + " recent turn(s)"@,
        ),
        EventView::TurnCancelled => PrintedView::ErrorLine("\n[interrupted]"@),
        _ => PrintedView::Nothing,
    }
}

/// What is printed of an event.
pub fn print_event(event: &AgentEvent) -> (r: Printed)
    ensures
        r@ == printed(event@),
{
    match event {
        AgentEvent::MessageDelta { role, delta } => match role {
            MessageRole::User => Printed::Nothing,
            MessageRole::Assistant => Printed::Piece(delta.clone()),
        },
        AgentEvent::ThinkingNormalized { requested, clamped, effective, provider_value } => {
            let mut line = text::concat("[thinking] requested=", requested.name());
            line.append(" clamped=");
            line.append(clamped.name());
            line.append(" effective=");
            line.append(effective.name());
            line.append(" upstream=");
            match provider_value {
                Some(value) => line.append(value.as_str()),
                None => line.append("<omitted>"),
            }
            Printed::ErrorLine(line)
        },
        AgentEvent::ToolStart { name, .. } => Printed::Line(
            text::concat("\n[tool] ", name.as_str()),
        ),
        AgentEvent::ToolEnd { name, is_error, .. } => {
            let mut line = text::concat("\n[tool] ", name.as_str());
            if *is_error {
                line.append(": failed");
            } else {
                line.append(": done");
            }
            Printed::Line(line)
        },
        AgentEvent::Error { message } => Printed::ErrorLine(
            text::concat("\nZex error: ", message.as_str()),
        ),
        AgentEvent::ContextCompacted { stats } => {
            let freed = text::decimal_of(stats.freed_tokens as u64);
            let kept = text::decimal_of(stats.kept_turns as u64);
            let mut line = text::concat("\n[compact] freed approximately ", freed.as_str());
            line.append(" tokens; kept ");
            line.append(kept.as_str());
            line.append(" recent turn(s)");
            Printed::ErrorLine(line)
        },
        AgentEvent::TurnCancelled => Printed::ErrorLine("\n[interrupted]".to_owned()),
        _ => Printed::Nothing,
    }
}

/// How many lines a change added and removed.
pub open spec fn counts_text(added: nat, removed: nat) -> Seq<char> {
    if removed == 0 {
        "+"@ + text::decimal(added)
    } else if added == 0 {
        "−"@ + text::decimal(removed)
    } else {
        "+"@ + text::decimal(added) + " −"@ + text::decimal(removed)
    }
}

/// What is printed of a change to the file that is shown as `path`.
pub fn change_line(path: &str, change: &FileChange) -> (r: String)
    ensures
        ({
            let counts = change::counts_of(
                match change.before {
                    Some(before) => before@,
                    None => Seq::empty(),
                },
                change.after@,
            );
            r@ == "[change] "@ + path@ + ": "@ + counts_text(counts.0, counts.1) + (
            if change.before is None {
                " (new file)"@
            } else {
                ""@
            })
        }),
{
    let (added, removed) = change::change_counts(change);
    let shown_added = text::decimal_of(added as u64);
    let shown_removed = text::decimal_of(removed as u64);
    let mut line = text::concat("[change] ", path);
    line.append(": ");
    let ghost head = line@;
    if removed == 0 {
        line.append("+");
        line.append(shown_added.as_str());
    } else if added == 0 {
        line.append("−");
        line.append(shown_removed.as_str());
    } else {
        line.append("+");
        line.append(shown_added.as_str());
        line.append(" −");
        line.append(shown_removed.as_str());
    }
    assert(line@ =~= head + counts_text(added as nat, removed as nat));
    if change.before.is_none() {
        line.append(" (new file)");
    } else {
        line.append("");
    }
    line
}

/// What is printed of the context after a command that replaced it.
pub fn context_line(tokens: usize) -> (r: String)
    ensures
        r@ == "[context] "@ + text::decimal(tokens as nat) + " tokens"@,
{
    let shown = text::decimal_of(tokens as u64);
    let mut line = text::concat("[context] ", shown.as_str());
    line.append(" tokens");
    line
}

/// The text of the pieces that are printed of events, one behind the other.
pub open spec fn pieces_printed(events: Seq<EventView>) -> Seq<char>
    decreases events.len(),
{
    if events.len() == 0 {
        Seq::empty()
    } else {
        match printed(events.last()) {
            PrintedView::Piece(piece) => pieces_printed(events.drop_last()) + piece,
            _ => pieces_printed(events.drop_last()),
        }
    }
}

/// Of an answer that is told piece by piece just the answer is printed, all of
/// it and nothing between: whatever else is told stands on lines of its own or
/// is not printed.
pub proof fn law_answers_are_printed(events: Seq<EventView>)
    requires
        forall|i: int|
            0 <= i < events.len() ==> ((#[trigger] events[i]) matches EventView::MessageDelta {
                role,
                ..
            } ==> role == MessageRole::Assistant),
    ensures
        pieces_printed(events) == chat::answer_told(events),
    decreases events.len(),
{
    if events.len() > 0 {
        let front = events.drop_last();
        assert forall|i: int| 0 <= i < front.len() implies ((
        #[trigger] front[i]) matches EventView::MessageDelta { role, .. } ==> role
            == MessageRole::Assistant) by {
            assert(front[i] == events[i]);
        }
        law_answers_are_printed(front);
        assert(events[events.len() - 1] == events.last());
    }
}

} // verus!
