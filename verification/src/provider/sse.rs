//! Streams of either protocol, taken in whole or in chunks.
use crate::agent::event::AgentEvent;
use crate::agent::event::EventView;
use crate::agent::message::AssistantMessage;
use crate::agent::message::AssistantView;
use crate::memory::index;
use crate::provider::chat;
use crate::provider::chat::ChatParserView;
use crate::provider::chat::ChatStreamParser;
use crate::provider::responses;
use crate::provider::responses::ResponsesParserView;
use crate::provider::responses::ResponsesStreamParser;
use crate::provider::stream;
use crate::provider::OpenAiApi;
use crate::text;
use vstd::prelude::*;
use vstd::string::*;

verus! {

/// A parser of a stream.
pub enum SseParser {
    Chat(ChatStreamParser),
    Responses(ResponsesStreamParser),
}

/// What an [`SseParser`] holds.
pub enum SseView {
    Chat(ChatParserView),
    Responses(ResponsesParserView),
}

impl View for SseParser {
    type V = SseView;

    open spec fn view(&self) -> SseView {
        match *self {
            SseParser::Chat(parser) => SseView::Chat(parser@),
            SseParser::Responses(parser) => SseView::Responses(parser@),
        }
    }
}

/// A parser, and what has been told.
#[verifier::ext_equal]
pub struct SseRun {
    pub parser: SseView,
    pub events: Seq<EventView>,
}

/// Where a stream broke off: what had come before, and what is said of it.
#[verifier::ext_equal]
pub struct SseStop {
    pub run: SseRun,
    pub message: Seq<char>,
}

/// What a body comes to: what is told, and the message or what went wrong.
#[verifier::ext_equal]
pub struct Outcome {
    pub events: Seq<EventView>,
    pub result: Result<AssistantView, Seq<char>>,
}

pub open spec fn new_parser(api: OpenAiApi) -> SseView {
    match api {
        OpenAiApi::ChatCompletions => SseView::Chat(chat::new_chat_parser()),
        OpenAiApi::Responses => SseView::Responses(responses::new_responses_parser()),
    }
}

pub open spec fn new_run(api: OpenAiApi) -> SseRun {
    SseRun { parser: new_parser(api), events: Seq::empty() }
}

/// A run after one line more.
pub open spec fn run_line(run: SseRun, line: Seq<u8>) -> Result<SseRun, SseStop> {
    match run.parser {
        SseView::Chat(parser) => match chat::line_deltas(line) {
            Some(deltas) => Ok(
                SseRun {
                    parser: SseView::Chat(parser.with(deltas)),
                    events: run.events + chat::live_events(chat::deltas_events(deltas)),
                },
            ),
            None => Err(SseStop { run, message: chat::chunk_complaint() }),
        },
        SseView::Responses(parser) => match responses::line_event(line) {
            Ok(None) => Ok(run),
            Ok(Some(value)) => Ok(
                SseRun {
                    parser: SseView::Responses(parser.with(value)),
                    events: run.events + responses::event_events(value),
                },
            ),
            Err(cause) => Err(SseStop { run, message: responses::event_complaint(cause) }),
        },
    }
}

/// A run after several lines more, or where it broke off.
pub open spec fn run_lines(run: SseRun, lines: Seq<Seq<u8>>) -> Result<SseRun, SseStop>
    decreases lines.len(),
{
    if lines.len() == 0 {
        Ok(run)
    } else {
        match run_lines(run, lines.drop_last()) {
            Ok(before) => run_line(before, lines.last()),
            Err(stop) => Err(stop),
        }
    }
}

/// The end of a run.
pub open spec fn run_finish(run: SseRun) -> Outcome {
    match run.parser {
        SseView::Chat(parser) => Outcome {
            events: run.events + parser.closing_events(),
            result: Ok(chat::finished(parser.parts)),
        },
        SseView::Responses(parser) => Outcome {
            events: match parser.message() {
                Ok(_) => run.events + parser.closing_events(),
                Err(_) => run.events,
            },
            result: parser.message(),
        },
    }
}

/// What a run comes to, whether it broke off or not.
pub open spec fn run_outcome(run: Result<SseRun, SseStop>) -> Outcome {
    match run {
        Ok(run) => run_finish(run),
        Err(stop) => Outcome { events: stop.run.events, result: Err(stop.message) },
    }
}

/// What a stream comes to that is taken in whole.
pub open spec fn whole_outcome(api: OpenAiApi, body: Seq<u8>) -> Outcome {
    run_outcome(run_lines(new_run(api), stream::byte_lines(body)))
}

impl SseParser {
    pub fn new(api: OpenAiApi) -> (r: SseParser)
        ensures
            r@ == new_parser(api),
    {
        match api {
            OpenAiApi::ChatCompletions => SseParser::Chat(ChatStreamParser::new()),
            OpenAiApi::Responses => SseParser::Responses(ResponsesStreamParser::new()),
        }
    }

    /// Takes in one line.
    pub fn feed_line(&mut self, line: &[u8], events: &mut Vec<AgentEvent>) -> (r: Result<
        (),
        String,
    >)
        ensures
            ({
                let before = SseRun { parser: old(self)@, events: text::views(old(events)@) };
                match (r, run_line(before, line@)) {
                    (Ok(_), Ok(after)) => final(self)@ == after.parser && text::views(
                        final(events)@,
                    ) == after.events,
                    (Err(message), Err(stop)) => message@ == stop.message && final(self)@
                        == stop.run.parser && text::views(final(events)@) == stop.run.events,
                    _ => false,
                }
            }),
    {
        match self {
            SseParser::Chat(parser) => parser.feed_line(line, events),
            SseParser::Responses(parser) => parser.feed_line(line, events),
        }
    }

    /// The message, once the stream has ended.
    pub fn finish(self, events: &mut Vec<AgentEvent>) -> (r: Result<AssistantMessage, String>)
        ensures
            ({
                let outcome = run_finish(
                    SseRun { parser: self@, events: text::views(old(events)@) },
                );
                &&& text::res(r) == outcome.result
                &&& text::views(final(events)@) == outcome.events
            }),
    {
        match self {
            SseParser::Chat(parser) => Ok(parser.finish(events)),
            SseParser::Responses(parser) => parser.finish(events),
        }
    }
}

// ---------------------------------------------------------------------------
// Lines and chunks
// ---------------------------------------------------------------------------

proof fn lemma_lines_nonempty(body: Seq<u8>)
    ensures
        stream::byte_lines(body).len() > 0,
    decreases body.len(),
{
    if body.len() > 0 {
        lemma_lines_nonempty(body.drop_last());
    }
}

/// The lines of two pieces are the complete lines of the first, and then the
/// lines of what it left over and the second.
proof fn lemma_lines_split(a: Seq<u8>, b: Seq<u8>)
    ensures
        stream::byte_lines(a + b) == stream::byte_lines(a).drop_last() + stream::byte_lines(
            stream::byte_lines(a).last() + b,
        ),
    decreases b.len(),
{
    let lines = stream::byte_lines(a);
    lemma_lines_nonempty(a);
    if b.len() == 0 {
        assert(a + b =~= a);
        assert(lines.last() + b =~= lines.last());
        lemma_line_alone(a);
        assert(lines.drop_last() + seq![lines.last()] =~= lines);
    } else {
        let c = b.drop_last();
        lemma_lines_split(a, c);
        assert((a + b).drop_last() =~= a + c);
        assert((a + b).last() == b.last());
        let tail = lines.last() + b;
        assert(tail.drop_last() =~= lines.last() + c);
        assert(tail.last() == b.last());
        let inner = stream::byte_lines(lines.last() + c);
        lemma_lines_nonempty(lines.last() + c);
        let whole = lines.drop_last() + inner;
        assert(stream::byte_lines(a + c) == whole);
        assert(whole.last() == inner.last());
        if b.last() == 0x0au8 {
            assert(whole.push(Seq::empty()) =~= lines.drop_last() + inner.push(Seq::empty()));
        } else {
            assert(whole.update(whole.len() - 1, whole.last().push(b.last()))
                =~= lines.drop_last() + inner.update(
                inner.len() - 1,
                inner.last().push(b.last()),
            ));
        }
    }
}

/// The last line of a body is a line by itself.
proof fn lemma_line_alone(body: Seq<u8>)
    ensures
        stream::byte_lines(stream::byte_lines(body).last()) == seq![
            stream::byte_lines(body).last(),
        ],
    decreases body.len(),
{
    lemma_lines_nonempty(body);
    if body.len() > 0 {
        let before = stream::byte_lines(body.drop_last());
        lemma_lines_nonempty(body.drop_last());
        lemma_line_alone(body.drop_last());
        if body.last() != 0x0au8 {
            let line = before.last().push(body.last());
            assert(line.drop_last() =~= before.last());
            assert(stream::byte_lines(line) =~= seq![line]);
        }
    }
}

/// A run over two pieces of a list of lines is a run over the first and then
/// one over the second.
proof fn lemma_run_concat(run: SseRun, a: Seq<Seq<u8>>, b: Seq<Seq<u8>>)
    ensures
        run_lines(run, a + b) == match run_lines(run, a) {
            Ok(middle) => run_lines(middle, b),
            Err(stop) => Err(stop),
        },
    decreases b.len(),
{
    if b.len() == 0 {
        assert(a + b =~= a);
    } else {
        assert((a + b).drop_last() =~= a + b.drop_last());
        assert((a + b).last() == b.last());
        lemma_run_concat(run, a, b.drop_last());
    }
}

/// An empty line says nothing.
proof fn lemma_empty_line(run: SseRun)
    ensures
        run_line(run, Seq::<u8>::empty()) == Ok::<SseRun, SseStop>(run),
{
    let empty = Seq::<u8>::empty();
    assert(stream::line_data(empty) is None);
    match run.parser {
        SseView::Chat(parser) => {
            let none = Seq::<crate::provider::stream::DeltaView>::empty();
            assert(chat::line_deltas(empty) == Some(none));
            assert(chat::deltas_events(none) =~= Seq::<EventView>::empty());
            assert(chat::live_events(Seq::<EventView>::empty()) =~= Seq::<EventView>::empty());
            assert(chat::held_events(Seq::<EventView>::empty()) =~= Seq::<EventView>::empty());
            assert(parser.pending + Seq::<EventView>::empty() =~= parser.pending);
            assert(run.events + Seq::<EventView>::empty() =~= run.events);
            assert(parser.with(none) =~= parser);
        },
        SseView::Responses(_) => {},
    }
}

/// A run, and what has come of a line that is not complete.
#[verifier::ext_equal]
pub struct ChunkRun {
    pub run: SseRun,
    pub carry: Seq<u8>,
}

/// A run after one chunk more: the complete lines are taken in, the rest is
/// carried over.
pub open spec fn chunk_step(state: ChunkRun, chunk: Seq<u8>) -> Result<ChunkRun, SseStop> {
    let lines = stream::byte_lines(state.carry + chunk);
    match run_lines(state.run, lines.drop_last()) {
        Ok(run) => Ok(ChunkRun { run, carry: lines.last() }),
        Err(stop) => Err(stop),
    }
}

pub open spec fn chunk_steps(state: ChunkRun, chunks: Seq<Seq<u8>>) -> Result<ChunkRun, SseStop>
    decreases chunks.len(),
{
    if chunks.len() == 0 {
        Ok(state)
    } else {
        match chunk_steps(state, chunks.drop_last()) {
            Ok(before) => chunk_step(before, chunks.last()),
            Err(stop) => Err(stop),
        }
    }
}

/// What is left over is a line too, if there is anything left over.
pub open spec fn chunk_end(state: ChunkRun) -> Result<SseRun, SseStop> {
    if state.carry.len() == 0 {
        Ok(state.run)
    } else {
        run_line(state.run, state.carry)
    }
}

/// What a stream comes to that is taken in in chunks.
pub open spec fn chunked_outcome(api: OpenAiApi, chunks: Seq<Seq<u8>>) -> Outcome {
    run_outcome(
        match chunk_steps(ChunkRun { run: new_run(api), carry: Seq::empty() }, chunks) {
            Ok(state) => chunk_end(state),
            Err(stop) => Err(stop),
        },
    )
}

/// The chunks one after the other.
pub open spec fn joined(chunks: Seq<Seq<u8>>) -> Seq<u8>
    decreases chunks.len(),
{
    if chunks.len() == 0 {
        Seq::empty()
    } else {
        joined(chunks.drop_last()) + chunks.last()
    }
}

/// Taking in chunks leaves a run where taking in the complete lines of their
/// whole leaves it.
proof fn lemma_chunks(run: SseRun, chunks: Seq<Seq<u8>>)
    ensures
        ({
            let lines = stream::byte_lines(joined(chunks));
            chunk_steps(ChunkRun { run, carry: Seq::empty() }, chunks) == match run_lines(
                run,
                lines.drop_last(),
            ) {
                Ok(after) => Ok(ChunkRun { run: after, carry: lines.last() }),
                Err(stop) => Err(stop),
            }
        }),
    decreases chunks.len(),
{
    let lines = stream::byte_lines(joined(chunks));
    if chunks.len() == 0 {
        assert(lines.drop_last() =~= Seq::<Seq<u8>>::empty());
    } else {
        let before = joined(chunks.drop_last());
        lemma_chunks(run, chunks.drop_last());
        lemma_lines_split(before, chunks.last());
        let first = stream::byte_lines(before);
        let rest = stream::byte_lines(first.last() + chunks.last());
        lemma_lines_nonempty(before);
        lemma_lines_nonempty(first.last() + chunks.last());
        assert(lines == first.drop_last() + rest);
        assert(lines.drop_last() =~= first.drop_last() + rest.drop_last());
        assert(lines.last() == rest.last());
        lemma_run_concat(run, first.drop_last(), rest.drop_last());
    }
}

/// A stream comes to the same, message and all that is told on the way,
/// however it is cut into chunks.
pub proof fn law_chunked_matches_whole(api: OpenAiApi, chunks: Seq<Seq<u8>>)
    ensures
        chunked_outcome(api, chunks) == whole_outcome(api, joined(chunks)),
{
    let run = new_run(api);
    let lines = stream::byte_lines(joined(chunks));
    lemma_chunks(run, chunks);
    lemma_lines_nonempty(joined(chunks));
    match run_lines(run, lines.drop_last()) {
        Ok(after) => {
            if lines.last().len() == 0 {
                assert(lines.last() =~= Seq::<u8>::empty());
                lemma_empty_line(after);
            }
        },
        Err(_) => {},
    }
}

/// Takes in the complete lines of what is carried; what is left over stays.
/// Where a line is no good, nothing is taken from what is carried.
pub fn feed_complete_lines(
    carry: &mut Vec<u8>,
    parser: &mut SseParser,
    events: &mut Vec<AgentEvent>,
) -> (r: Result<(), String>)
    ensures
        ({
            let before = SseRun { parser: old(parser)@, events: text::views(old(events)@) };
            let lines = stream::byte_lines(old(carry)@);
            match (r, run_lines(before, lines.drop_last())) {
                (Ok(_), Ok(after)) => {
                    &&& final(parser)@ == after.parser
                    &&& text::views(final(events)@) == after.events
                    &&& final(carry)@ == lines.last()
                },
                (Err(message), Err(stop)) => {
                    &&& message@ == stop.message
                    &&& final(parser)@ == stop.run.parser
                    &&& text::views(final(events)@) == stop.run.events
                    &&& final(carry)@ == old(carry)@
                },
                _ => false,
            }
        }),
{
    let ghost before = SseRun { parser: parser@, events: text::views(events@) };
    let ghost all = carry@;
    let mut line: Vec<u8> = Vec::new();
    let mut i: usize = 0;
    assert(line@ =~= stream::byte_lines(all.take(0)).last());
    assert(stream::byte_lines(all.take(0)).drop_last() =~= Seq::<Seq<u8>>::empty());
    while i < carry.len()
        invariant
            i <= carry@.len(),
            carry@ == all,
            all == old(carry)@,
            before == (SseRun { parser: old(parser)@, events: text::views(old(events)@) }),
            stream::byte_lines(all.take(i as int)).len() > 0,
            line@ == stream::byte_lines(all.take(i as int)).last(),
            run_lines(before, stream::byte_lines(all.take(i as int)).drop_last()) == Ok::<
                SseRun,
                SseStop,
            >(SseRun { parser: parser@, events: text::views(events@) }),
        decreases carry@.len() - i,
    {
        let ghost so_far = stream::byte_lines(all.take(i as int));
        assert(all.take(i as int + 1).drop_last() =~= all.take(i as int));
        assert(all.take(i as int + 1).last() == all[i as int]);
        let byte: u8 = carry[i];
        if byte == 0x0a {
            let ghost next = so_far.push(Seq::<u8>::empty());
            assert(next.drop_last() =~= so_far);
            assert(so_far.drop_last().push(so_far.last()) =~= so_far);
            match parser.feed_line(line.as_slice(), events) {
                Ok(_) => {},
                Err(message) => {
                    proof {
                        lemma_stopped(before, all, i as int);
                    }
                    return Err(message);
                },
            }
            line = Vec::new();
            assert(line@ =~= next.last());
        } else {
            let ghost next = so_far.update(so_far.len() - 1, so_far.last().push(byte));
            assert(next.drop_last() =~= so_far.drop_last());
            line.push(byte);
        }
        i = i + 1;
    }
    assert(all.take(all.len() as int) =~= all);
    *carry = line;
    Ok(())
}

/// A run that breaks off at a line breaks off there whatever follows.
proof fn lemma_stop_early(run: SseRun, a: Seq<Seq<u8>>, b: Seq<Seq<u8>>)
    requires
        run_lines(run, a) is Err,
    ensures
        run_lines(run, a + b) == run_lines(run, a),
{
    lemma_run_concat(run, a, b);
}

/// A run over the complete lines of a body that breaks off at the line that
/// ends at `i` breaks off there.
proof fn lemma_stopped(run: SseRun, all: Seq<u8>, i: int)
    requires
        0 <= i < all.len(),
        all[i] == 0x0au8,
        run_lines(run, stream::byte_lines(all.take(i))) is Err,
    ensures
        run_lines(run, stream::byte_lines(all).drop_last()) == run_lines(
            run,
            stream::byte_lines(all.take(i)),
        ),
{
    let first = all.take(i + 1);
    let rest = all.skip(i + 1);
    assert(first + rest =~= all);
    assert(first.drop_last() =~= all.take(i));
    let lines = stream::byte_lines(all.take(i));
    assert(stream::byte_lines(first) == lines.push(Seq::<u8>::empty()));
    lemma_lines_split(first, rest);
    let tail = stream::byte_lines(Seq::<u8>::empty() + rest);
    lemma_lines_nonempty(Seq::<u8>::empty() + rest);
    assert(lines.push(Seq::<u8>::empty()).drop_last() =~= lines);
    assert(stream::byte_lines(all) == lines + tail);
    assert((lines + tail).drop_last() =~= lines + tail.drop_last());
    lemma_stop_early(run, lines, tail.drop_last());
}

/// Takes in a whole stream.
pub fn parse_stream_body(api: OpenAiApi, body: &[u8], events: &mut Vec<AgentEvent>) -> (r: Result<
    AssistantMessage,
    String,
>)
    ensures
        ({
            let outcome = run_outcome(
                run_lines(
                    SseRun { parser: new_parser(api), events: text::views(old(events)@) },
                    stream::byte_lines(body@),
                ),
            );
            &&& text::res(r) == outcome.result
            &&& text::views(final(events)@) == outcome.events
        }),
{
    let ghost before = SseRun { parser: new_parser(api), events: text::views(events@) };
    let mut parser = SseParser::new(api);
    let mut carry = index::copy_bytes(body, 0, body.len());
    assert(carry@ =~= body@);
    let ghost lines = stream::byte_lines(body@);
    proof {
        lemma_lines_nonempty(body@);
        assert(lines.drop_last().push(lines.last()) =~= lines);
    }
    match feed_complete_lines(&mut carry, &mut parser, events) {
        Ok(_) => {},
        Err(message) => {
            proof {
                lemma_stop_early(before, lines.drop_last(), seq![lines.last()]);
                assert(lines.drop_last() + seq![lines.last()] =~= lines);
            }
            return Err(message);
        },
    }
    match parser.feed_line(carry.as_slice(), events) {
        Ok(_) => {},
        Err(message) => {
            return Err(message);
        },
    }
    parser.finish(events)
}

} // verus!
