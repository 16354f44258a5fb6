//! The memory of a running agent: the active session, the active turn, and
//! what the model does with them.
use crate::agent::message;
use crate::memory::cache::RecallLimiter;
use crate::memory::config::{MemoryConfig, MemoryMode};
use crate::memory::ids;
use crate::memory::listing;
use crate::memory::pointers;
use crate::memory::record::{
    AuditAction, AuditEvent, AuditView, MemoryPointer, MemoryTurnState, PointerView, StoreRecord,
};
use crate::memory::retention;
use crate::memory::retention::RetentionLimits;
use crate::memory::session;
use crate::memory::session::{PendingStore, PinChange, SessionMemory, SessionView};
use crate::text;
use time::format_description::well_known::Rfc3339;
use time::OffsetDateTime;
use vstd::prelude::*;
use vstd::string::*;

verus! {

/// `OffsetDateTime::now_utc` in the `Rfc3339` format: a text of the current
/// time, or a message. Whatever the time is, the text is one that the parser of
/// that format takes, and ends in the `Z` of UTC. Which time it is, is not
/// said.
#[verifier::external_body]
fn format_now() -> (r: Result<String, String>)
    ensures
        r matches Ok(now) ==> is_stamp(now@),
{
    OffsetDateTime::now_utc().format(&Rfc3339).map_err(|error| error.to_string())
}

/// Whether a text is a time as records carry it: an RFC 3339 text in UTC.
pub open spec fn is_stamp(s: Seq<char>) -> bool {
    retention::rfc3339_nanos(s) is Ok && s.len() > 0 && s.last() == 'Z'
}

/// The current time as records carry it.
pub fn timestamp() -> (r: Result<String, String>)
    ensures
        match r {
            Ok(now) => is_stamp(now@),
            Err(message) => text::starts_with(message@, "failed to format memory timestamp: "@),
        },
{
    match format_now() {
        Ok(now) => Ok(now),
        Err(message) => {
            let r = text::concat("failed to format memory timestamp: ", message.as_str());
            assert(r@.subrange(0, "failed to format memory timestamp: "@.len() as int)
                =~= "failed to format memory timestamp: "@);
            Err(r)
        },
    }
}

pub struct MemoryRuntime {
    pub config: MemoryConfig,
    pub session: Option<SessionMemory>,
    pub active_turn: Option<String>,
    pub active_pointers: Vec<String>,
    pub recall_limiter: RecallLimiter,
}

/// What storing comes to: the record is there already, or it is to be
/// appended.
pub enum StoreStep {
    Known(MemoryPointer),
    Append(PendingStore),
}

/// What a recall comes to: what the audit log is to say, and what the model
/// is told.
pub struct RecallOutcome {
    pub audit: Option<AuditEvent>,
    pub result: Result<String, String>,
}

/// What a [`RecallOutcome`] holds.
#[verifier::ext_equal]
pub struct RecallView {
    pub audit: Option<AuditView>,
    pub result: Result<Seq<char>, Seq<char>>,
}

impl View for RecallOutcome {
    type V = RecallView;

    open spec fn view(&self) -> RecallView {
        RecallView { audit: text::opt(self.audit), result: text::res(self.result) }
    }
}

/// What setting a pin comes to: what the audit log is to say, and the change
/// or why there is none.
pub struct PinOutcome {
    pub audit: AuditEvent,
    pub result: Result<PinChange, String>,
}

pub open spec fn disabled_message() -> Seq<char> {
    "addressable memory is disabled by configuration"@
}

pub open spec fn inactive_message() -> Seq<char> {
    "addressable memory has no active session"@
}

pub open spec fn invalid_message(id: Seq<char>) -> Seq<char> {
    "invalid memory ID "@ + text::debug_quoted(id) + ": "@ + ids::id_complaint(id)
}

pub(crate) fn invalid_message_of(id: &str, complaint: &str) -> (r: String)
    requires
        complaint@ == ids::id_complaint(id@),
    ensures
        r@ == invalid_message(id@),
{
    let mut r = "invalid memory ID ".to_owned();
    let quoted = text::debug_text(id);
    r.append(quoted.as_str());
    r.append(": ");
    r.append(complaint);
    r
}

/// The tools that work on memory itself; their results are not stored.
pub open spec fn is_control(name: Seq<char>) -> bool {
    name == "recall"@ || name == "pin"@ || name == "unpin"@ || name == "list_pointers"@
}

/// The IDs without repetitions, in order of their first appearance.
pub open spec fn distinct(list: Seq<Seq<char>>) -> Seq<Seq<char>>
    decreases list.len(),
{
    if list.len() == 0 {
        list
    } else {
        ids::push_new(distinct(list.drop_last()), Some(list.last()))
    }
}

/// Those of the IDs that are visible.
pub open spec fn visible_ids(
    session: SessionView,
    list: Seq<Seq<char>>,
    turn: Option<Seq<char>>,
) -> Seq<Seq<char>> {
    list.filter(|id: Seq<char>| session.index.pointer(id, turn) is Some)
}

/// The pointers that a manifest lists for some IDs.
pub open spec fn manifest_pointers(
    session: SessionView,
    list: Seq<Seq<char>>,
    limit: nat,
    turn: Option<Seq<char>>,
) -> Seq<PointerView> {
    let known = distinct(list);
    pointers::manifest(
        session.index.pointers(turn).filter(
            |p: PointerView| p.pinned && !known.contains(p.id),
        ),
        listing::active_pointers(session, known, turn),
        limit,
    )
}

// ---------------------------------------------------------------------------
// Rendering
// ---------------------------------------------------------------------------

/// What the model sees of a stored tool result. Replacing an observation with
/// a bare citation costs a round trip and invites the model to guess, so only
/// outputs large enough to threaten the context budget are worth the trade.
pub open spec fn rendered(
    mode: MemoryMode,
    max_inline_tool_tokens: usize,
    p: PointerView,
    output: Seq<char>,
) -> Seq<char> {
    if mode != MemoryMode::Summary && p.token_estimate > max_inline_tool_tokens {
        match pointers::excerpt(output, pointers::POINTER_EXCERPT_TOKENS as nat) {
            Some(excerpt) => pointers::citation_text(p) + "\n"@ + excerpt,
            None => pointers::citation_text(p),
        }
    } else {
        output + "\n\n[addressable copy] "@ + pointers::citation_text(p)
    }
}

// ---------------------------------------------------------------------------
// Recall
// ---------------------------------------------------------------------------

pub open spec fn audit_of(
    action: AuditAction,
    id: Seq<char>,
    created_at: Seq<char>,
    reason: Option<Seq<char>>,
    error: Option<Seq<char>>,
) -> AuditView {
    AuditView {
        action,
        id,
        created_at,
        reason,
        returned_tokens: None,
        truncated: false,
        error,
    }
}

/// A refusal that is logged and told alike.
pub open spec fn refused(
    action: AuditAction,
    id: Seq<char>,
    created_at: Seq<char>,
    reason: Option<Seq<char>>,
    message: Seq<char>,
) -> RecallView {
    RecallView {
        audit: Some(audit_of(action, id, created_at, reason, Some(message))),
        result: Err(message),
    }
}

/// What is told of a window of tokens of a record.
pub open spec fn recall_text(
    id: Seq<char>,
    content: Seq<char>,
    token_estimate: usize,
    start: nat,
    end: nat,
) -> Seq<char> {
    let total = message::token_count(content);
    let body = message::token_slice(content, start, end);
    if start > 0 || end < total {
        "[recalled "@ + id + ": token window "@ + text::decimal(start) + ".."@ + text::decimal(end)
            + " of ~"@ + text::decimal(total) + " tokens"@ + (if end < total {
            "; next_offset="@ + text::decimal(end)
        } else {
            "; end of content"@
        }) + "]\n"@ + body
    } else {
        "[recalled "@ + id + ": exact content, ~"@ + text::decimal(token_estimate as nat)
            + " tokens]\n"@ + body
    }
}

/// A recall of a record that was found.
pub open spec fn recalled(
    id: Seq<char>,
    p: PointerView,
    content: Seq<char>,
    offset: nat,
    max_tokens: nat,
    reason: Option<Seq<char>>,
    created_at: Seq<char>,
) -> RecallView {
    if offset >= p.token_estimate && p.token_estimate > 0 {
        refused(
            AuditAction::Recall,
            id,
            created_at,
            reason,
            "recall offset "@ + text::decimal(offset) + " is outside "@ + id
                + ", which contains approximately "@ + text::decimal(p.token_estimate as nat)
                + " tokens"@,
        )
    } else {
        let total = message::token_count(content);
        let start = message::min_nat(offset, total);
        let end = message::min_nat(offset + max_tokens, total);
        RecallView {
            audit: Some(
                AuditView {
                    action: AuditAction::Recall,
                    id,
                    created_at,
                    reason,
                    returned_tokens: Some((end - start) as usize),
                    truncated: start > 0 || end < total,
                    error: None,
                },
            ),
            result: Ok(recall_text(id, content, p.token_estimate, start, end)),
        }
    }
}

/// A recall that the rate limit let through.
pub open spec fn recall_found(
    session: SessionView,
    turn: Option<Seq<char>>,
    id: Seq<char>,
    offset: nat,
    max_tokens: nat,
    reason: Option<Seq<char>>,
    created_at: Seq<char>,
    records: Seq<u8>,
) -> RecallView {
    if !ids::valid_id(id) {
        RecallView {
            audit: Some(
                audit_of(
                    AuditAction::RecallMissing,
                    id,
                    created_at,
                    reason,
                    Some(invalid_message(id)),
                ),
            ),
            result: Err(invalid_message(id) + "; do not infer or invent its contents"@),
        }
    } else {
        match session.read(id, turn, records) {
            Err(message) => RecallView { audit: None, result: Err(message) },
            Ok(None) => refused(
                AuditAction::RecallMissing,
                id,
                created_at,
                reason,
                pointers::missing_message(id),
            ),
            Ok(Some((p, content))) => recalled(
                id,
                p,
                content,
                offset,
                max_tokens,
                reason,
                created_at,
            ),
        }
    }
}

/// A recall that starts at the first token and is given room for all of them
/// gives back the stored content, whole and exact, behind one line.
pub proof fn law_recall_is_exact(
    id: Seq<char>,
    p: PointerView,
    content: Seq<char>,
    max_tokens: nat,
    reason: Option<Seq<char>>,
    created_at: Seq<char>,
)
    requires
        max_tokens >= message::token_count(content),
    ensures
        recalled(id, p, content, 0, max_tokens, reason, created_at).result == Ok::<
            Seq<char>,
            Seq<char>,
        >(
            "[recalled "@ + id + ": exact content, ~"@ + text::decimal(p.token_estimate as nat)
                + " tokens]\n"@ + content,
        ),
{
    message::law_full_window_is_text(content);
}

impl MemoryRuntime {
    pub open spec fn wf(&self) -> bool {
        self.session matches Some(session) ==> session.wf()
    }

    /// The active session, or why there is none.
    pub open spec fn live(&self) -> Result<SessionView, Seq<char>> {
        if !self.config.enabled {
            Err(disabled_message())
        } else {
            match self.session {
                Some(session) => Ok(session@),
                None => Err(inactive_message()),
            }
        }
    }

    pub open spec fn turn(&self) -> Option<Seq<char>> {
        text::opt(self.active_turn)
    }

    /// The visible pointer for `id`.
    pub open spec fn pointer_of(&self, id: Seq<char>) -> Option<PointerView> {
        match self.live() {
            Ok(session) => session.index.pointer(id, self.turn()),
            Err(_) => None,
        }
    }

    /// The citations of the manifest for some IDs.
    pub open spec fn manifest_of(&self, list: Seq<Seq<char>>, limit: nat) -> Seq<Seq<char>> {
        match self.live() {
            Ok(session) => pointers::citations(
                manifest_pointers(session, list, limit, self.turn()),
            ),
            Err(_) => Seq::empty(),
        }
    }

    pub fn new(config: MemoryConfig) -> (r: MemoryRuntime)
        ensures
            r.wf(),
            r.config == config,
            r.session is None,
            r.active_turn is None,
            r.active_pointers@.len() == 0,
            r.recall_limiter.current_model_turn == 0,
            r.recall_limiter.recent@.len() == 0,
    {
        MemoryRuntime {
            config,
            session: None,
            active_turn: None,
            active_pointers: Vec::new(),
            recall_limiter: RecallLimiter::new(),
        }
    }

    pub fn enabled(&self) -> (r: bool)
        ensures
            r == self.config.enabled,
    {
        self.config.enabled
    }

    pub fn mode(&self) -> (r: MemoryMode)
        ensures
            r == self.config.mode,
    {
        self.config.mode
    }

    pub fn max_recall_tokens(&self) -> (r: usize)
        ensures
            r == self.config.max_recall_tokens,
    {
        self.config.max_recall_tokens
    }

    /// The limits that the store is held to.
    pub fn retention_limits(&self) -> (r: RetentionLimits)
        ensures
            r.max_records == self.config.max_records,
            r.max_store_bytes == self.config.max_store_bytes,
            r.retention_days == self.config.retention_days,
    {
        RetentionLimits {
            max_records: self.config.max_records,
            max_store_bytes: self.config.max_store_bytes,
            retention_days: self.config.retention_days,
        }
    }

    /// Makes an opened session the active one. No turn is active then, and no
    /// pointer. Where memory is disabled, nothing changes.
    pub fn activate(&mut self, session: SessionMemory)
        requires
            old(self).wf(),
            session.wf(),
        ensures
            final(self).wf(),
            if old(self).config.enabled {
                &&& final(self).config == old(self).config
                &&& final(self).session == Some(session)
                &&& final(self).active_turn is None
                &&& final(self).active_pointers@.len() == 0
                &&& final(self).recall_limiter.current_model_turn == 0
                &&& final(self).recall_limiter.recent == old(self).recall_limiter.recent
            } else {
                *final(self) == *old(self)
            },
    {
        if !self.config.enabled {
            return;
        }
        self.session = Some(session);
        self.active_turn = None;
        self.active_pointers = Vec::new();
        self.recall_limiter.begin_model_turn();
    }

    /// Puts the reopened store of the active session in place of it.
    pub fn replace_session(&mut self, session: SessionMemory)
        requires
            old(self).wf(),
            session.wf(),
        ensures
            final(self).wf(),
            *final(self) == (MemoryRuntime { session: Some(session), ..*old(self) }),
    {
        self.session = Some(session);
    }

    /// Why no session is active, where none is.
    pub fn ready(&self) -> (r: Result<(), String>)
        ensures
            match r {
                Ok(_) => self.live() is Ok && self.session is Some,
                Err(message) => self.live() is Err && self.live()->Err_0 == message@,
            },
    {
        if !self.config.enabled {
            return Err("addressable memory is disabled by configuration".to_owned());
        }
        if self.session.is_none() {
            return Err("addressable memory has no active session".to_owned());
        }
        Ok(())
    }

    /// The active turn, as an argument.
    fn turn_ref(&self) -> (r: Option<&str>)
        ensures
            text::opt(r) == self.turn(),
    {
        match &self.active_turn {
            Some(turn) => Some(turn.as_str()),
            None => None,
        }
    }

    /// Starts a turn. What is stored from now on is visible to others only
    /// once the turn is committed.
    pub fn begin_turn(&mut self) -> (r: Result<(), String>)
        requires
            old(self).wf(),
        ensures
            final(self).wf(),
            match old(self).live() {
                Err(message) => r matches Err(m) && m@ == message && *final(self) == *old(self),
                Ok(session) => if old(self).active_turn is Some {
                    r matches Err(m) && m@ == "addressable memory already has an active turn"@
                        && *final(self) == *old(self)
                } else {
                    &&& r is Ok
                    &&& final(self).turn() == Some(
                        session::turn_id(session.session_hash, session.next_turn_sequence),
                    )
                    &&& final(self).live() == Ok::<SessionView, Seq<char>>(
                        SessionView {
                            next_turn_sequence: if session.next_turn_sequence == u64::MAX {
                                0
                            } else {
                                (session.next_turn_sequence + 1) as u64
                            },
                            ..session
                        },
                    )
                    &&& final(self).config == old(self).config
                    &&& final(self).active_pointers == old(self).active_pointers
                    &&& final(self).recall_limiter == old(self).recall_limiter
                },
            },
    {
        match self.ready() {
            Ok(_) => {},
            Err(message) => {
                return Err(message);
            },
        }
        if self.active_turn.is_some() {
            return Err("addressable memory already has an active turn".to_owned());
        }
        match self.session.take() {
            Some(mut session) => {
                let turn = session.allocate_turn_id();
                self.session = Some(session);
                self.active_turn = Some(turn);
                Ok(())
            },
            None => Ok(()),
        }
    }

    /// The line that marks the end of the active turn in the store; none
    /// where no turn is active.
    pub fn turn_mark(&self, state: MemoryTurnState) -> (r: Result<Option<Vec<u8>>, String>)
        ensures
            match self.active_turn {
                None => r matches Ok(None),
                Some(turn) => match self.live() {
                    Err(message) => r matches Err(m) && m@ == message,
                    Ok(_) => r matches Ok(Some(line)) && line@ == session::turn_line(turn@, state),
                },
            },
    {
        let turn = match &self.active_turn {
            None => {
                return Ok(None);
            },
            Some(turn) => turn.clone(),
        };
        match self.ready() {
            Ok(_) => {},
            Err(message) => {
                return Err(message);
            },
        }
        let record = StoreRecord::Turn { turn_id: turn, state };
        Ok(Some(session::record_line(&record)))
    }

    /// Notes that the mark of the active turn was written.
    pub fn finish_active_turn(&mut self, state: MemoryTurnState)
        requires
            old(self).wf(),
        ensures
            final(self).wf(),
            final(self).active_turn is None,
            final(self).config == old(self).config,
            final(self).active_pointers == old(self).active_pointers,
            final(self).recall_limiter == old(self).recall_limiter,
            match (old(self).active_turn, old(self).session) {
                (Some(turn), Some(session)) => final(self).session matches Some(next) && next@ == (
                SessionView { index: session@.index.with_turn(turn@, state), ..session@ }),
                _ => final(self).session == old(self).session,
            },
    {
        match self.active_turn.take() {
            Some(turn) => match self.session.take() {
                Some(mut session) => {
                    session.index.note_turn(turn, state);
                    self.session = Some(session);
                },
                None => {},
            },
            None => {},
        }
    }

    /// Starts a model turn: the recalls of a turn are counted anew.
    pub fn begin_model_turn(&mut self)
        requires
            old(self).wf(),
        ensures
            final(self).wf(),
            final(self).recall_limiter.current_model_turn == 0,
            final(self).recall_limiter.recent == old(self).recall_limiter.recent,
            final(self).config == old(self).config,
            final(self).session == old(self).session,
            final(self).active_turn == old(self).active_turn,
            final(self).active_pointers == old(self).active_pointers,
    {
        self.recall_limiter.begin_model_turn();
    }

    /// The visible pointer for `id`.
    pub fn pointer_for_id(&self, id: &str) -> (r: Option<MemoryPointer>)
        requires
            self.wf(),
        ensures
            text::opt(r) == self.pointer_of(id@),
            r matches Some(pointer) ==> pointer.wf(),
    {
        if !self.config.enabled {
            return None;
        }
        match &self.session {
            Some(session) => session.index.pointer(id, self.turn_ref()),
            None => None,
        }
    }

    /// The citation of the visible record `id`.
    pub fn citation_for_id(&self, id: &str) -> (r: Option<String>)
        requires
            self.wf(),
        ensures
            match self.pointer_of(id@) {
                Some(p) => r matches Some(cited) && cited@ == pointers::citation_text(p),
                None => r is None,
            },
    {
        match self.pointer_for_id(id) {
            Some(pointer) => Some(pointers::citation(&pointer)),
            None => None,
        }
    }

    /// Whether `id` is visible.
    pub fn contains(&self, id: &str) -> (r: bool)
        requires
            self.wf(),
        ensures
            r == (self.pointer_of(id@) is Some),
    {
        self.pointer_for_id(id).is_some()
    }

    /// What the model sees of a stored tool result.
    pub fn render_tool_result(&self, pointer: &MemoryPointer, visible_output: &str) -> (r: String)
        requires
            pointer.wf(),
        ensures
            r@ == rendered(
                self.config.mode,
                self.config.max_inline_tool_tokens,
                pointer@,
                visible_output@,
            ),
    {
        let by_pointer = match self.config.mode {
            MemoryMode::Summary => false,
            _ => true,
        };
        let cited = pointers::citation(pointer);
        if by_pointer && pointer.token_estimate > self.config.max_inline_tool_tokens {
            match pointers::head_excerpt(visible_output, pointers::POINTER_EXCERPT_TOKENS) {
                Some(excerpt) => {
                    let mut r = cited;
                    r.append("\n");
                    r.append(excerpt.as_str());
                    r
                },
                None => cited,
            }
        } else {
            let mut r = visible_output.to_owned();
            r.append("\n\n[addressable copy] ");
            r.append(cited.as_str());
            r
        }
    }

    /// Remembers which records the context currently cites: those of the IDs
    /// that are visible, each once.
    pub fn set_active_pointers(&mut self, list: Vec<String>)
        requires
            old(self).wf(),
        ensures
            final(self).wf(),
            final(self).config == old(self).config,
            final(self).session == old(self).session,
            final(self).active_turn == old(self).active_turn,
            final(self).recall_limiter == old(self).recall_limiter,
            match old(self).live() {
                Ok(session) => text::views(final(self).active_pointers@) == visible_ids(
                    session,
                    distinct(text::views(list@)),
                    old(self).turn(),
                ),
                Err(_) => final(self).active_pointers == old(self).active_pointers,
            },
    {
        match self.ready() {
            Ok(_) => {},
            Err(_) => {
                return;
            },
        }
        let known = distinct_of(&list);
        let ghost model = text::views(known@);
        let ghost session = self.live()->Ok_0;
        let ghost turn = self.turn();
        let ghost seen = |id: Seq<char>| session.index.pointer(id, turn) is Some;
        let mut active: Vec<String> = Vec::new();
        let mut i: usize = 0;
        proof {
            reveal(Seq::filter);
        }
        assert(text::views(active@) =~= model.take(0).filter(seen));
        while i < known.len()
            invariant
                i <= known@.len(),
                self.wf(),
                *self == *old(self),
                self.live() == Ok::<SessionView, Seq<char>>(session),
                self.turn() == turn,
                model == text::views(known@),
                seen == (|id: Seq<char>| session.index.pointer(id, turn) is Some),
                text::views(active@) == model.take(i as int).filter(seen),
            decreases known@.len() - i,
        {
            proof {
                reveal(Seq::filter);
            }
            assert(model.take(i as int + 1).drop_last() =~= model.take(i as int));
            assert(model.take(i as int + 1).last() == known@[i as int]@);
            if self.contains(known[i].as_str()) {
                let id = known[i].clone();
                proof {
                    text::lemma_views_push(active@, id);
                }
                active.push(id);
            }
            i = i + 1;
        }
        assert(model.take(model.len() as int) =~= model);
        self.active_pointers = active;
    }

    fn pointer_manifest(&self, list: &Vec<String>, limit: usize) -> (r: Vec<String>)
        requires
            self.wf(),
        ensures
            text::views(r@) == self.manifest_of(text::views(list@), limit as nat),
    {
        let session = match &self.session {
            Some(session) => session,
            None => {
                let r: Vec<String> = Vec::new();
                assert(text::views(r@) =~= Seq::<Seq<char>>::empty());
                return r;
            },
        };
        if !self.config.enabled {
            let r: Vec<String> = Vec::new();
            assert(text::views(r@) =~= Seq::<Seq<char>>::empty());
            return r;
        }
        let turn = self.turn_ref();
        let known = distinct_of(list);
        let ghost names = text::views(known@);
        let mut recent: Vec<MemoryPointer> = Vec::new();
        let mut i: usize = 0;
        assert(names.take(0) =~= Seq::<Seq<char>>::empty());
        assert(text::views(recent@) =~= listing::active_pointers(
            session@,
            names.take(0),
            text::opt(turn),
        ));
        while i < known.len()
            invariant
                i <= known@.len(),
                session.wf(),
                names == text::views(known@),
                text::views(recent@) == listing::active_pointers(
                    session@,
                    names.take(i as int),
                    text::opt(turn),
                ),
                forall|j: int| 0 <= j < recent@.len() ==> (#[trigger] recent@[j]).wf(),
            decreases known@.len() - i,
        {
            assert(names.take(i as int + 1).drop_last() =~= names.take(i as int));
            assert(names.take(i as int + 1).last() == known@[i as int]@);
            match session.index.pointer(known[i].as_str(), turn) {
                Some(pointer) => {
                    proof {
                        text::lemma_views_push(recent@, pointer);
                    }
                    recent.push(pointer);
                },
                None => {},
            }
            i = i + 1;
        }
        assert(names.take(names.len() as int) =~= names);
        let visible = session.index.pointers(turn);
        let ghost model = session@.index.pointers(text::opt(turn));
        let ghost idle = |p: PointerView| p.pinned && !names.contains(p.id);
        let mut pinned: Vec<MemoryPointer> = Vec::new();
        let mut j: usize = 0;
        proof {
            reveal(Seq::filter);
        }
        assert(text::views(pinned@) =~= model.take(0).filter(idle));
        while j < visible.len()
            invariant
                j <= visible@.len(),
                model == text::views(visible@),
                names == text::views(known@),
                idle == (|p: PointerView| p.pinned && !names.contains(p.id)),
                text::views(pinned@) == model.take(j as int).filter(idle),
                forall|k: int| 0 <= k < visible@.len() ==> (#[trigger] visible@[k]).wf(),
                forall|k: int| 0 <= k < pinned@.len() ==> (#[trigger] pinned@[k]).wf(),
            decreases visible@.len() - j,
        {
            proof {
                reveal(Seq::filter);
            }
            assert(model.take(j as int + 1).drop_last() =~= model.take(j as int));
            assert(model.take(j as int + 1).last() == visible@[j as int]@);
            if visible[j].pinned && !ids::contains_text(&known, visible[j].id.as_str()) {
                let pointer = visible[j].copy();
                assert(visible@[j as int].wf());
                proof {
                    text::lemma_views_push(pinned@, pointer);
                }
                pinned.push(pointer);
            }
            j = j + 1;
        }
        assert(model.take(model.len() as int) =~= model);
        assert(text::views(recent@).len() == recent@.len());
        let half: usize = limit / pointers::ACTIVE_MANIFEST_SHARE;
        let reserved: usize = if half <= recent.len() {
            half
        } else {
            recent.len()
        };
        let ghost all_pinned = text::views(pinned@);
        let ghost all_recent = text::views(recent@);
        let ghost held_pinned = pinned@;
        let ghost held_recent = recent@;
        pointers::keep_newest(&mut pinned, limit - reserved);
        assert(text::views(pinned@).len() == pinned@.len());
        assert(pinned@.len() <= limit);
        pointers::keep_newest(&mut recent, limit - pinned.len());
        let ghost front = text::views(pinned@);
        let ghost back = text::views(recent@);
        assert(forall|k: int| 0 <= k < pinned@.len() ==> (#[trigger] pinned@[k]).wf());
        assert(forall|k: int| 0 <= k < recent@.len() ==> (#[trigger] recent@[k]).wf());
        let ghost kept_pinned = pinned@;
        let ghost kept_recent = recent@;
        pinned.append(&mut recent);
        assert(pinned@ =~= kept_pinned + kept_recent);
        assert(text::views(pinned@) =~= front + back);
        assert forall|k: int| 0 <= k < pinned@.len() implies (#[trigger] pinned@[k]).wf() by {
            if k < kept_pinned.len() {
                assert(pinned@[k] == kept_pinned[k]);
            } else {
                assert(pinned@[k] == kept_recent[k - kept_pinned.len()]);
            }
        }
        pointers::citations_of(&pinned)
    }

    /// The citations that the system prompt lists: of pinned records and of
    /// what the context currently cites.
    pub fn system_pointer_manifest(&self) -> (r: Vec<String>)
        requires
            self.wf(),
        ensures
            text::views(r@) == self.manifest_of(
                text::views(self.active_pointers@),
                pointers::SYSTEM_POINTER_LIMIT as nat,
            ),
    {
        self.pointer_manifest(&self.active_pointers, pointers::SYSTEM_POINTER_LIMIT)
    }

    /// The citations that a compaction summary lists for some IDs.
    pub fn compaction_pointer_manifest(&self, list: &Vec<String>) -> (r: Vec<String>)
        requires
            self.wf(),
        ensures
            text::views(r@) == self.manifest_of(
                text::views(list@),
                pointers::ACTIVE_POINTER_LIMIT as nat,
            ),
    {
        self.pointer_manifest(list, pointers::ACTIVE_POINTER_LIMIT)
    }

    pub fn is_control_tool(name: &str) -> (r: bool)
        ensures
            r == is_control(name@),
    {
        text::same(name, "recall") || text::same(name, "pin") || text::same(name, "unpin")
            || text::same(name, "list_pointers")
    }

    pub fn active_session_id(&self) -> (r: Option<String>)
        ensures
            match self.session {
                Some(session) => r matches Some(id) && id@ == session.session_id@,
                None => r is None,
            },
    {
        match &self.session {
            Some(session) => Some(session.session_id.clone()),
            None => None,
        }
    }

    /// Where the records of the active session are stored.
    pub fn records_path(&self) -> (r: Option<String>)
        ensures
            match self.session {
                Some(session) => r matches Some(path) && path@ == session.records_path@,
                None => r is None,
            },
    {
        match &self.session {
            Some(session) => Some(session.records_path.clone()),
            None => None,
        }
    }

    /// The listing of the pointers that meet `filter`; a blank one counts as
    /// none.
    pub fn list_pointers(&mut self, filter: Option<&str>, records: &[u8]) -> (r: Result<
        String,
        String,
    >)
        requires
            old(self).wf(),
        ensures
            final(self).wf(),
            final(self).config == old(self).config,
            final(self).active_turn == old(self).active_turn,
            final(self).active_pointers == old(self).active_pointers,
            final(self).recall_limiter == old(self).recall_limiter,
            match old(self).live() {
                Err(message) => r matches Err(m) && m@ == message && final(self).session == old(
                    self,
                ).session,
                Ok(session) => {
                    &&& final(self).session matches Some(next) && listing::same_but_cache(
                        session,
                        next@,
                    )
                    &&& listing::listing(
                        session,
                        given_filter(text::opt(filter)),
                        text::views(old(self).active_pointers@),
                        old(self).turn(),
                        records@,
                    ) == (final(self).session->Some_0@, text::res(r))
                },
            },
    {
        match self.ready() {
            Ok(_) => {},
            Err(message) => {
                return Err(message);
            },
        }
        let trimmed: Option<String> = match filter {
            Some(filter) => {
                let body = text::trim_of(filter);
                if body.as_str().is_empty() {
                    None
                } else {
                    Some(body)
                }
            },
            None => None,
        };
        let wanted: Option<&str> = match &trimmed {
            Some(body) => Some(body.as_str()),
            None => None,
        };
        match self.session.take() {
            Some(mut session) => {
                let r = session.list_pointers(
                    wanted,
                    &self.active_pointers,
                    self.turn_ref(),
                    records,
                );
                self.session = Some(session);
                r
            },
            None => Err(String::new()),
        }
    }
}

/// A filter without the white space around it, unless nothing is left of it.
pub open spec fn given_filter(filter: Option<Seq<char>>) -> Option<Seq<char>> {
    match filter {
        Some(filter) => if text::trim(filter).len() == 0 {
            None
        } else {
            Some(text::trim(filter))
        },
        None => None,
    }
}

/// The IDs without repetitions.
fn distinct_of(list: &Vec<String>) -> (r: Vec<String>)
    ensures
        text::views(r@) == distinct(text::views(list@)),
{
    let ghost model = text::views(list@);
    let mut r: Vec<String> = Vec::new();
    let mut i: usize = 0;
    assert(text::views(r@) =~= distinct(model.take(0)));
    while i < list.len()
        invariant
            i <= list@.len(),
            model == text::views(list@),
            text::views(r@) == distinct(model.take(i as int)),
        decreases list@.len() - i,
    {
        assert(model.take(i as int + 1).drop_last() =~= model.take(i as int));
        assert(model.take(i as int + 1).last() == list@[i as int]@);
        if !ids::contains_text(&r, list[i].as_str()) {
            let id = list[i].clone();
            proof {
                text::lemma_views_push(r@, id);
            }
            r.push(id);
        }
        i = i + 1;
    }
    assert(model.take(model.len() as int) =~= model);
    r
}

/// IDs without repetitions are the same IDs, each once, and in the order in
/// which they first came: of a list and more behind it, the list's come first.
pub proof fn law_distinct_ids_are_the_same(list: Seq<Seq<char>>, id: Seq<char>)
    ensures
        distinct(list).no_duplicates(),
        distinct(list).contains(id) <==> list.contains(id),
        list.no_duplicates() ==> distinct(list) == list,
        list.len() > 0 ==> distinct(list).len() >= distinct(list.drop_last()).len()
            && distinct(list).take(distinct(list.drop_last()).len() as int) == distinct(
            list.drop_last(),
        ),
    decreases list.len(),
{
    if list.len() > 0 {
        let front = list.drop_last();
        let last: int = list.len() - 1;
        law_distinct_ids_are_the_same(front, id);
        law_distinct_ids_are_the_same(front, list.last());
        ids::lemma_push_new_has(distinct(front), Some(list.last()), id);
        assert(distinct(list).take(distinct(front).len() as int) =~= distinct(front));
        if list.contains(id) {
            let k = list.index_of(id);
            if k < last {
                assert(front[k] == id);
            }
        }
        if front.contains(id) {
            assert(list[front.index_of(id)] == id);
        }
        assert(list[last] == list.last());
        if list.no_duplicates() {
            assert(front.no_duplicates());
            if front.contains(list.last()) {
                let k = front.index_of(list.last());
                assert(list[k] == list[last]);
            }
            assert(distinct(list) =~= list);
        }
    }
}

/// A result that is small enough stays whole in front of the model, with its
/// citation behind it; of a larger one the citation comes first.
pub proof fn law_small_results_stay_whole(
    mode: MemoryMode,
    max_inline_tool_tokens: usize,
    p: PointerView,
    output: Seq<char>,
)
    ensures
        ({
            let shown = rendered(mode, max_inline_tool_tokens, p, output);
            let citation = pointers::citation_text(p);
            &&& shown.len() >= citation.len()
            &&& mode == MemoryMode::Summary || p.token_estimate <= max_inline_tool_tokens ==> {
                &&& shown.len() >= output.len()
                &&& shown.take(output.len() as int) == output
                &&& shown.skip(shown.len() - citation.len()) == citation
            }
            &&& mode != MemoryMode::Summary && p.token_estimate > max_inline_tool_tokens
                ==> shown.take(citation.len() as int) == citation
        }),
{
    let shown = rendered(mode, max_inline_tool_tokens, p, output);
    let citation = pointers::citation_text(p);
    if mode == MemoryMode::Summary || p.token_estimate <= max_inline_tool_tokens {
        assert(shown.take(output.len() as int) =~= output);
        assert(shown.skip(shown.len() - citation.len()) =~= citation);
    } else {
        assert(shown.take(citation.len() as int) =~= citation);
    }
}

/// A record can be recalled page by page: a page is the tokens from its offset
/// on, as many as were asked for and are there, behind one line; where more
/// follow, that line says where the next page begins, and the pages joined are
/// the content. A recall is refused only behind the end.
pub proof fn law_recalled_pages_join(
    id: Seq<char>,
    p: PointerView,
    content: Seq<char>,
    offset: nat,
    max_tokens: nat,
    more_tokens: nat,
    reason: Option<Seq<char>>,
    created_at: Seq<char>,
) -> (head: Seq<char>)
    requires
        p.token_estimate == message::token_count(content),
    ensures
        ({
            let total = message::token_count(content);
            let first = recalled(id, p, content, offset, max_tokens, reason, created_at);
            let next = (offset + max_tokens) as nat;
            let body = message::token_slice(
                content,
                offset,
                if next < total {
                    next
                } else {
                    total
                },
            );
            &&& first.result is Err <==> total > 0 && offset >= total
            &&& offset < total ==> {
                &&& first.result == Ok::<Seq<char>, Seq<char>>(head + body)
                &&& head.len() >= 2
                &&& head.skip(head.len() - 2) == "]\n"@
                &&& next < total ==> head == "[recalled "@ + id + ": token window "@
                    + text::decimal(offset) + ".."@ + text::decimal(next) + " of ~"@
                    + text::decimal(total) + " tokens; next_offset="@ + text::decimal(next)
                    + "]\n"@
                &&& next < total ==> body + message::token_slice(
                    content,
                    next,
                    (next + more_tokens) as nat,
                ) == message::token_slice(content, offset, (next + more_tokens) as nat)
                &&& next >= total ==> message::token_slice(content, 0, offset) + body == content
            }
        }),
{
    let total = message::token_count(content);
    let next = (offset + max_tokens) as nat;
    let end = message::min_nat(next, total);
    let body = message::token_slice(content, offset, end);
    let middle = "[recalled "@ + id + ": token window "@ + text::decimal(offset) + ".."@
        + text::decimal(end) + " of ~"@ + text::decimal(total) + " tokens"@ + (if end < total {
        "; next_offset="@ + text::decimal(end)
    } else {
        "; end of content"@
    });
    let whole = "[recalled "@ + id + ": exact content, ~"@ + text::decimal(
        p.token_estimate as nat,
    );
    reveal_strlit("]\n");
    reveal_strlit(" tokens]\n");
    reveal_strlit(" tokens");
    reveal_strlit("; next_offset=");
    reveal_strlit(" tokens; next_offset=");
    let head = if offset > 0 || end < total {
        middle + "]\n"@
    } else {
        whole + " tokens]\n"@
    };
    assert(head.skip(head.len() - 2) =~= "]\n"@);
    if offset < total {
        if offset > 0 || end < total {
            assert(recall_text(id, content, p.token_estimate, offset, end) =~= head + body);
        } else {
            assert(recall_text(id, content, p.token_estimate, offset, end) =~= head + body);
        }
        if next < total {
            assert(" tokens"@ + "; next_offset="@ =~= " tokens; next_offset="@);
            let start = "[recalled "@ + id + ": token window "@ + text::decimal(offset) + ".."@
                + text::decimal(next) + " of ~"@ + text::decimal(total);
            assert(head =~= start + (" tokens"@ + "; next_offset="@) + text::decimal(next) + "]\n"@);
            message::law_token_windows_join(content, offset, next, (next + more_tokens) as nat);
        } else {
            message::law_token_windows_join(content, 0, offset, total);
            message::law_full_window_is_text(content);
        }
    }
    head
}

} // verus!
