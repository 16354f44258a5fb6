//! What memory does on behalf of the agent and the model: storing, recalling
//! and pinning.
use crate::agent::message;
use crate::json;
use crate::json::{Json, JsonView};
use crate::memory::cache;
use crate::memory::hash;
use crate::memory::ids;
use crate::memory::index;
use crate::memory::index::{IndexView, LocationView, ReplayView};
use crate::memory::pointers;
use crate::memory::record::{
    AuditAction, AuditEvent, ItemView, MemoryKind, MemoryPointer, PointerView, RecordView,
};
use crate::memory::runtime;
use crate::memory::runtime::{MemoryRuntime, PinOutcome, RecallOutcome, RecallView, StoreStep};
use crate::memory::session;
use crate::memory::session::{NewMemoryItem, PendingStore, SessionView};
use crate::text;
use crate::textmap;
use crate::textmap::TextMap;
use vstd::prelude::*;
use vstd::string::*;

verus! {

// ---------------------------------------------------------------------------
// Storing
// ---------------------------------------------------------------------------

/// What a pointer to a new item says of it.
#[verifier::ext_equal]
pub struct NewItemView {
    pub kind: MemoryKind,
    pub content: Seq<char>,
    pub source_tool: Option<Seq<char>>,
    pub importance: u8,
    pub pinned: bool,
    pub metadata: Seq<(Seq<char>, Seq<char>)>,
}

impl NewItemView {
    pub open spec fn pointer(self, id: Seq<char>, created_at: Seq<char>) -> PointerView {
        PointerView {
            id,
            kind: self.kind,
            created_at,
            source_tool: self.source_tool,
            token_estimate: message::token_count(self.content) as usize,
            importance: self.importance,
            pinned: self.pinned,
            parent_id: None,
            metadata: self.metadata,
        }
    }
}

/// How a tool result is stored.
pub open spec fn tool_item(
    tool: Seq<char>,
    arguments: JsonView,
    content: Seq<char>,
    fingerprint: Seq<char>,
    auto_pin: bool,
) -> NewItemView {
    let importance = pointers::importance_of(tool, content);
    NewItemView {
        kind: if tool == "read"@ {
            MemoryKind::FileSnapshot
        } else {
            MemoryKind::ToolResult
        },
        content,
        source_tool: Some(tool),
        importance,
        pinned: auto_pin && importance >= pointers::AUTO_PIN_IMPORTANCE,
        metadata: textmap::inserted(
            pointers::argument_metadata(arguments),
            "fingerprint"@,
            fingerprint,
        ),
    }
}

/// How a message is stored. An encrypted store keeps no preview of it.
pub open spec fn message_item(
    kind: MemoryKind,
    role: Seq<char>,
    content: Seq<char>,
    fingerprint: Seq<char>,
    encrypted: bool,
) -> NewItemView {
    let roled = textmap::inserted(Seq::empty(), "role"@, role);
    let shown = if encrypted {
        roled
    } else {
        textmap::inserted(roled, "preview"@, pointers::preview(content, 96))
    };
    NewItemView {
        kind,
        content,
        source_tool: None,
        importance: 70,
        pinned: false,
        metadata: textmap::inserted(shown, "fingerprint"@, fingerprint),
    }
}

/// `pending` is `item` under the first free ID, as a record of the active
/// turn, and the ID is claimed.
pub open spec fn is_pending(
    before: SessionView,
    after: SessionView,
    item: NewItemView,
    turn: Option<Seq<char>>,
    created_at: Seq<char>,
    pending: PendingStore,
) -> bool {
    let sequence = session::first_free(
        before.index,
        item.kind,
        before.session_hash,
        before.next_sequence,
    );
    &&& sequence is Some
    &&& session::can_encode(before.cipher, item.content)
    &&& pending.pointer.wf()
    &&& pending.pointer@ == item.pointer(
        session::memory_id(item.kind, before.session_hash, sequence->0),
        created_at,
    )
    &&& text::opt(pending.turn_id) == turn
    &&& pending.content@ == item.content
    &&& session::stores(before.cipher, pending.pointer@, turn, item.content, pending.line@)
    &&& after == (SessionView {
        next_sequence: (sequence->0 + 1) as u64,
        index: IndexView {
            reserved: before.index.reserved.push(pending.pointer@.id),
            ..before.index
        },
        ..before
    })
}

/// The item cannot be stored, and `cause` says why: no ID is free, or the
/// content is too long to be encrypted. `after` is then `before` but for the
/// sequence numbers that were used.
pub open spec fn cannot_store(
    before: SessionView,
    after: SessionView,
    item: NewItemView,
    cause: Seq<char>,
) -> bool {
    let sequence = session::first_free(
        before.index,
        item.kind,
        before.session_hash,
        before.next_sequence,
    );
    if sequence is None {
        &&& cause == "memory IDs are used up"@
        &&& after == (SessionView { next_sequence: u64::MAX, ..before })
    } else {
        &&& !session::can_encode(before.cipher, item.content)
        &&& cause == "failed to encrypt content"@
        &&& after == (SessionView { next_sequence: (sequence->0 + 1) as u64, ..before })
    }
}

/// Whether `after` is `before` with the pin of `id` set or dropped, and `r` says
/// what came of it: nothing is changed where there is no such record.
pub open spec fn is_pin_update(
    before: &MemoryRuntime,
    after: &MemoryRuntime,
    id: Seq<char>,
    pinned: bool,
    created_at: Seq<char>,
    r: Result<PinOutcome, String>,
) -> bool {
    match before.live() {
        Err(message) => r matches Err(m) && m@ == message && after.session == before.session,
        Ok(session) => {
            let action = if pinned {
                AuditAction::Pin
            } else {
                AuditAction::Unpin
            };
            let complaint = if !ids::valid_id(id) {
                Some(runtime::invalid_message(id))
            } else if session.index.pointer(id, before.turn()) is None {
                Some(pointers::missing_message(id))
            } else {
                None
            };
            &&& r matches Ok(outcome) && outcome.audit@ == runtime::audit_of(
                action,
                id,
                created_at,
                None,
                complaint,
            )
            &&& match complaint {
                Some(message) => {
                    &&& r->Ok_0.result matches Err(m) && m@ == message
                    &&& after.live() == before.live()
                },
                None => {
                    let p = session.index.pointer(id, before.turn())->0;
                    &&& r->Ok_0.result matches Ok(change) && change.pointer@ == (PointerView {
                        pinned,
                        ..p
                    }) && change.pointer.wf() && change.previous == p.pinned
                        && change.previous_override == textmap::lookup(session.pin_overrides, id)
                    &&& after.live() == Ok::<SessionView, Seq<char>>(session.with_pin(id, pinned))
                },
            }
        },
    }
}

impl MemoryRuntime {
    /// This runtime's state apart from its session is that of `other`.
    pub open spec fn same_but_session(&self, other: &MemoryRuntime) -> bool {
        &&& self.config == other.config
        &&& self.active_turn == other.active_turn
        &&& self.active_pointers == other.active_pointers
        &&& self.recall_limiter == other.recall_limiter
    }

    /// Stores a tool result, unless the same tool was run with the same
    /// arguments to the same effect before.
    pub fn store_tool_result(
        &mut self,
        tool: &str,
        arguments: &Json,
        content: String,
        created_at: String,
    ) -> (r: Result<StoreStep, String>)
        requires
            old(self).wf(),
        ensures
            final(self).wf(),
            final(self).same_but_session(old(self)),
            match old(self).live() {
                Err(message) => r matches Err(m) && m@ == message && final(self).session == old(
                    self,
                ).session,
                Ok(before) => {
                    let fingerprint = before.fingerprint(
                        hash::tool_input(tool@, json::json_text(arguments@), content@),
                    );
                    let item = tool_item(
                        tool@,
                        arguments@,
                        content@,
                        fingerprint,
                        old(self).config.auto_pin_important,
                    );
                    match before.by_fingerprint(
                        before.index.tool_fingerprints,
                        fingerprint,
                        old(self).turn(),
                    ) {
                        Some(known) => {
                            &&& r matches Ok(StoreStep::Known(pointer)) && pointer@ == known
                                && pointer.wf()
                            &&& final(self).live() == old(self).live()
                        },
                        None => match r {
                            Ok(StoreStep::Append(pending)) => is_pending(
                                before,
                                final(self).live()->Ok_0,
                                item,
                                old(self).turn(),
                                created_at@,
                                pending,
                            ) && final(self).live() is Ok,
                            Ok(StoreStep::Known(_)) => false,
                            Err(message) => final(self).live() is Ok && exists|cause: Seq<char>|
                                #[trigger]
                                cannot_store(before, final(self).live()->Ok_0, item, cause)
                                    && message@ == "failed to persist "@ + tool@
                                    + " result in addressable memory: "@ + cause,
                        },
                    }
                },
            },
    {
        match self.ready() {
            Ok(_) => {},
            Err(message) => {
                return Err(message);
            },
        }
        let turn = message::copy_text(&self.active_turn);
        let auto_pin = self.config.auto_pin_important;
        match self.session.take() {
            Some(mut session) => {
                let ghost before = session@;
                let shown = arguments.to_text();
                let input = hash::tool_result_fingerprint_input(
                    tool,
                    shown.as_str(),
                    content.as_str(),
                );
                let fingerprint = session.fingerprint(input.as_slice());
                let active: Option<&str> = match &turn {
                    Some(turn) => Some(turn.as_str()),
                    None => None,
                };
                match session.pointer_by_tool_fingerprint(fingerprint.as_str(), active) {
                    Some(pointer) => {
                        self.session = Some(session);
                        return Ok(StoreStep::Known(pointer));
                    },
                    None => {},
                }
                let importance: u8 = pointers::tool_importance(tool, content.as_str());
                let mut metadata = pointers::tool_metadata(arguments);
                let ghost print = fingerprint@;
                metadata.insert("fingerprint".to_owned(), fingerprint);
                let item = NewMemoryItem {
                    kind: if text::same(tool, "read") {
                        MemoryKind::FileSnapshot
                    } else {
                        MemoryKind::ToolResult
                    },
                    content,
                    source_tool: Some(tool.to_owned()),
                    importance,
                    pinned: auto_pin && importance >= pointers::AUTO_PIN_IMPORTANCE,
                    metadata,
                    turn_id: turn,
                };
                let ghost model = tool_item(tool@, arguments@, content@, print, auto_pin);
                let stored = session.prepare_store(item, created_at);
                self.session = Some(session);
                match stored {
                    Ok(pending) => Ok(StoreStep::Append(pending)),
                    Err(cause) => {
                        let mut message = "failed to persist ".to_owned();
                        message.append(tool);
                        message.append(" result in addressable memory: ");
                        message.append(cause.as_str());
                        assert(cannot_store(before, self.live()->Ok_0, model, cause@));
                        Err(message)
                    },
                }
            },
            None => Err(String::new()),
        }
    }

    /// Stores a message, unless the same role said the same before.
    pub fn store_message(
        &mut self,
        kind: MemoryKind,
        role: &str,
        content: String,
        created_at: String,
    ) -> (r: Result<StoreStep, String>)
        requires
            old(self).wf(),
        ensures
            final(self).wf(),
            final(self).same_but_session(old(self)),
            match old(self).live() {
                Err(message) => r matches Err(m) && m@ == message && final(self).session == old(
                    self,
                ).session,
                Ok(before) => {
                    let fingerprint = before.fingerprint(hash::message_input(role@, content@));
                    let item = message_item(
                        kind,
                        role@,
                        content@,
                        fingerprint,
                        old(self).config.encryption_key is Some,
                    );
                    match before.by_fingerprint(
                        before.index.message_fingerprints,
                        fingerprint,
                        old(self).turn(),
                    ) {
                        Some(known) => {
                            &&& r matches Ok(StoreStep::Known(pointer)) && pointer@ == known
                                && pointer.wf()
                            &&& final(self).live() == old(self).live()
                        },
                        None => match r {
                            Ok(StoreStep::Append(pending)) => is_pending(
                                before,
                                final(self).live()->Ok_0,
                                item,
                                old(self).turn(),
                                created_at@,
                                pending,
                            ) && final(self).live() is Ok,
                            Ok(StoreStep::Known(_)) => false,
                            Err(message) => final(self).live() is Ok && exists|cause: Seq<char>|
                                #[trigger]
                                cannot_store(before, final(self).live()->Ok_0, item, cause)
                                    && message@ == "failed to persist compacted conversation in addressable memory: "@
                                    + cause,
                        },
                    }
                },
            },
    {
        match self.ready() {
            Ok(_) => {},
            Err(message) => {
                return Err(message);
            },
        }
        let turn = message::copy_text(&self.active_turn);
        let encrypted = self.config.encryption_key.is_some();
        match self.session.take() {
            Some(mut session) => {
                let ghost before = session@;
                let input = hash::message_fingerprint_input(role, content.as_str());
                let fingerprint = session.fingerprint(input.as_slice());
                let active: Option<&str> = match &turn {
                    Some(turn) => Some(turn.as_str()),
                    None => None,
                };
                match session.pointer_by_message_fingerprint(fingerprint.as_str(), active) {
                    Some(pointer) => {
                        self.session = Some(session);
                        return Ok(StoreStep::Known(pointer));
                    },
                    None => {},
                }
                let mut metadata: TextMap<String> = TextMap::new();
                metadata.insert("role".to_owned(), role.to_owned());
                if !encrypted {
                    metadata.insert(
                        "preview".to_owned(),
                        pointers::one_line_preview(content.as_str(), 96),
                    );
                }
                let ghost print = fingerprint@;
                metadata.insert("fingerprint".to_owned(), fingerprint);
                let item = NewMemoryItem {
                    kind,
                    content,
                    source_tool: None,
                    importance: 70,
                    pinned: false,
                    metadata,
                    turn_id: turn,
                };
                let ghost model = message_item(kind, role@, content@, print, encrypted);
                let stored = session.prepare_store(item, created_at);
                self.session = Some(session);
                match stored {
                    Ok(pending) => Ok(StoreStep::Append(pending)),
                    Err(cause) => {
                        assert(cannot_store(before, self.live()->Ok_0, model, cause@));
                        Err(
                            text::concat(
                                "failed to persist compacted conversation in addressable memory: ",
                                cause.as_str(),
                            ),
                        )
                    },
                }
            },
            None => Err(String::new()),
        }
    }

    /// Files a record that was appended to the store at `offset`.
    pub fn finish_store(&mut self, pending: PendingStore, offset: u64) -> (r: MemoryPointer)
        requires
            old(self).wf(),
            pending.pointer.wf(),
        ensures
            final(self).wf(),
            final(self).same_but_session(old(self)),
            r@ == pending.pointer@,
            r.wf(),
            match old(self).session {
                Some(before) => final(self).session matches Some(after) && after@ == filed(
                    before@,
                    pending,
                    offset,
                ),
                None => final(self).session is None,
            },
    {
        match self.session.take() {
            Some(mut session) => {
                let r = session.finish_store(pending, offset);
                self.session = Some(session);
                r
            },
            None => pending.pointer,
        }
    }

    /// Gives up a record that could not be appended to the store.
    pub fn abandon_store(&mut self, pending: PendingStore)
        requires
            old(self).wf(),
        ensures
            final(self).wf(),
            final(self).same_but_session(old(self)),
            match old(self).session {
                Some(before) => final(self).session matches Some(after) && after@ == (SessionView {
                    index: IndexView {
                        reserved: before@.index.reserved.filter(
                            |x: Seq<char>| x != pending.pointer.id@,
                        ),
                        ..before@.index
                    },
                    ..before@
                }),
                None => final(self).session is None,
            },
    {
        match self.session.take() {
            Some(mut session) => {
                session.release_id(pending.pointer.id.as_str());
                self.session = Some(session);
            },
            None => {},
        }
    }

    // -----------------------------------------------------------------------
    // Recalling
    // -----------------------------------------------------------------------

    /// Reads a record back for the model, within the rate limits. `now` is the
    /// time on the limiter's clock, `created_at` the time that the audit log
    /// is to show, and `records` the bytes of the store.
    pub fn recall(
        &mut self,
        id: &str,
        reason: Option<String>,
        offset_tokens: Option<usize>,
        max_tokens: Option<usize>,
        now: u64,
        created_at: String,
        records: &[u8],
    ) -> (r: RecallOutcome)
        requires
            old(self).wf(),
        ensures
            final(self).wf(),
            final(self).config == old(self).config,
            final(self).active_turn == old(self).active_turn,
            final(self).active_pointers == old(self).active_pointers,
            ({
                let offset = match offset_tokens {
                    Some(n) => n as nat,
                    None => 0,
                };
                let most = old(self).config.max_recall_tokens;
                let room = match max_tokens {
                    Some(n) => cache::min_usize(n, most),
                    None => most,
                };
                let limiter = old(self).recall_limiter;
                let recent = cache::pruned(limiter.recent@, now);
                let turn_limit = cache::min_usize(
                    old(self).config.recall_per_turn_limit,
                    old(self).config.recall_rate_limit,
                );
                let minute_limit = old(self).config.recall_rate_limit;
                match old(self).live() {
                    Err(message) => {
                        &&& r@ == (RecallView {
                            audit: None,
                            result: Err(message),
                        })
                        &&& *final(self) == *old(self)
                    },
                    Ok(session) => if room == 0 {
                        &&& r@ == (RecallView {
                            audit: None,
                            result: Err("recall max_tokens must be greater than zero"@),
                        })
                        &&& *final(self) == *old(self)
                    } else if limiter.current_model_turn >= turn_limit {
                        &&& r@ == runtime::refused(
                            AuditAction::RecallRateLimited,
                            id@,
                            created_at@,
                            text::opt(reason),
                            cache::limit_message(turn_limit as nat, "model turn"@),
                        )
                        &&& final(self).session == old(self).session
                        &&& final(self).recall_limiter.recent@ == recent
                        &&& final(self).recall_limiter.current_model_turn
                            == limiter.current_model_turn
                    } else if recent.len() >= minute_limit {
                        &&& r@ == runtime::refused(
                            AuditAction::RecallRateLimited,
                            id@,
                            created_at@,
                            text::opt(reason),
                            cache::limit_message(minute_limit as nat, "minute"@),
                        )
                        &&& final(self).session == old(self).session
                        &&& final(self).recall_limiter.recent@ == recent
                        &&& final(self).recall_limiter.current_model_turn
                            == limiter.current_model_turn
                    } else {
                        &&& r@ == runtime::recall_found(
                            session,
                            old(self).turn(),
                            id@,
                            offset,
                            room as nat,
                            text::opt(reason),
                            created_at@,
                            records@,
                        )
                        &&& final(self).session matches Some(after) && after@ == (if ids::valid_id(
                            id@,
                        ) {
                            session.after_read(id@, old(self).turn(), records@)
                        } else {
                            session
                        })
                        &&& final(self).recall_limiter.recent@ == recent.push(now)
                        &&& final(self).recall_limiter.current_model_turn
                            == limiter.current_model_turn + 1
                    },
                }
            }),
    {
        match self.ready() {
            Ok(_) => {},
            Err(message) => {
                return RecallOutcome { audit: None, result: Err(message) };
            },
        }
        let offset: usize = match offset_tokens {
            Some(n) => n,
            None => 0,
        };
        let most: usize = self.config.max_recall_tokens;
        let room: usize = match max_tokens {
            Some(n) => if n <= most {
                n
            } else {
                most
            },
            None => most,
        };
        if room == 0 {
            return RecallOutcome {
                audit: None,
                result: Err("recall max_tokens must be greater than zero".to_owned()),
            };
        }
        match self.recall_limiter.acquire(
            now,
            self.config.recall_rate_limit,
            self.config.recall_per_turn_limit,
        ) {
            Ok(_) => {},
            Err(message) => {
                return refuse(AuditAction::RecallRateLimited, id, created_at, reason, message);
            },
        }
        match ids::validate_memory_id(id) {
            Ok(_) => {},
            Err(complaint) => {
                let message = runtime::invalid_message_of(id, complaint.as_str());
                let told = text::concat(
                    message.as_str(),
                    "; do not infer or invent its contents",
                );
                return RecallOutcome {
                    audit: Some(
                        AuditEvent {
                            action: AuditAction::RecallMissing,
                            id: id.to_owned(),
                            created_at,
                            reason,
                            returned_tokens: None,
                            truncated: false,
                            error: Some(message),
                        },
                    ),
                    result: Err(told),
                };
            },
        }
        let turn = message::copy_text(&self.active_turn);
        let active: Option<&str> = match &turn {
            Some(turn) => Some(turn.as_str()),
            None => None,
        };
        let read = match self.session.take() {
            Some(mut session) => {
                let read = session.read(id, active, records);
                self.session = Some(session);
                read
            },
            None => Ok(None),
        };
        match read {
            Err(message) => RecallOutcome { audit: None, result: Err(message) },
            Ok(None) => refuse(
                AuditAction::RecallMissing,
                id,
                created_at,
                reason,
                pointers::missing_id_error(id),
            ),
            Ok(Some((pointer, content))) => show_recalled(
                id,
                &pointer,
                content.as_str(),
                offset,
                room,
                reason,
                created_at,
            ),
        }
    }

    // -----------------------------------------------------------------------
    // Pinning
    // -----------------------------------------------------------------------

    /// Sets or drops the pin of a visible record. The change is made here; the
    /// pin state is then to be persisted, and the change to be taken back
    /// where that fails.
    pub fn update_pin(&mut self, id: &str, pinned: bool, created_at: String) -> (r: Result<
        PinOutcome,
        String,
    >)
        requires
            old(self).wf(),
        ensures
            final(self).wf(),
            final(self).same_but_session(old(self)),
            is_pin_update(old(self), final(self), id@, pinned, created_at@, r),
    {
        match self.ready() {
            Ok(_) => {},
            Err(message) => {
                return Err(message);
            },
        }
        let action = if pinned {
            AuditAction::Pin
        } else {
            AuditAction::Unpin
        };
        match ids::validate_memory_id(id) {
            Ok(_) => {},
            Err(complaint) => {
                let message = runtime::invalid_message_of(id, complaint.as_str());
                return Ok(
                    PinOutcome {
                        audit: AuditEvent {
                            action,
                            id: id.to_owned(),
                            created_at,
                            reason: None,
                            returned_tokens: None,
                            truncated: false,
                            error: Some(message.clone()),
                        },
                        result: Err(message),
                    },
                );
            },
        }
        let turn = message::copy_text(&self.active_turn);
        let active: Option<&str> = match &turn {
            Some(turn) => Some(turn.as_str()),
            None => None,
        };
        match self.session.take() {
            Some(mut session) => {
                let result = session.set_pinned(id, pinned, active);
                self.session = Some(session);
                let error: Option<String> = match &result {
                    Ok(_) => None,
                    Err(message) => Some(message.clone()),
                };
                Ok(
                    PinOutcome {
                        audit: AuditEvent {
                            action,
                            id: id.to_owned(),
                            created_at,
                            reason: None,
                            returned_tokens: None,
                            truncated: false,
                            error,
                        },
                        result,
                    },
                )
            },
            None => Err(String::new()),
        }
    }

    /// Pins a visible record.
    pub fn pin(&mut self, id: &str, created_at: String) -> (r: Result<PinOutcome, String>)
        requires
            old(self).wf(),
        ensures
            final(self).wf(),
            final(self).same_but_session(old(self)),
            is_pin_update(old(self), final(self), id@, true, created_at@, r),
    {
        self.update_pin(id, true, created_at)
    }

    /// Drops the pin of a visible record.
    pub fn unpin(&mut self, id: &str, created_at: String) -> (r: Result<PinOutcome, String>)
        requires
            old(self).wf(),
        ensures
            final(self).wf(),
            final(self).same_but_session(old(self)),
            is_pin_update(old(self), final(self), id@, false, created_at@, r),
    {
        self.update_pin(id, false, created_at)
    }

    /// What the model is told of a pin that was set or dropped.
    pub fn pin_message(pinned: bool, pointer: &MemoryPointer) -> (r: String)
        requires
            pointer.wf(),
        ensures
            r@ == (if pinned {
                "Pinned "@
            } else {
                "Unpinned "@
            }) + pointers::citation_text(pointer@),
    {
        let cited = pointers::citation(pointer);
        text::concat(
            if pinned {
                "Pinned "
            } else {
                "Unpinned "
            },
            cited.as_str(),
        )
    }
}

/// A session's state with a pending record filed.
pub open spec fn filed(before: SessionView, pending: PendingStore, offset: u64) -> SessionView {
    let released = IndexView {
        reserved: before.index.reserved.filter(|x: Seq<char>| x != pending.pointer.id@),
        ..before.index
    };
    SessionView {
        index: released.with_item(
            LocationView {
                offset,
                length: pending.line@.len() as usize,
                pointer: pending.pointer@,
                turn_id: text::opt(pending.turn_id),
            },
        ),
        cache: cache::cache_insert(
            before.cache,
            before.cache_capacity as nat,
            pending.pointer.id@,
            pending.content@,
        ),
        ..before
    }
}

/// An index without the IDs that are held back for records to come.
pub open spec fn settled(index: IndexView) -> IndexView {
    IndexView { reserved: Seq::empty(), ..index }
}

/// What a session knows of its records is what reading them again gives: where
/// that holds, it still holds after one more record was appended, outside of
/// any turn, and filed.
pub proof fn law_filed_record_is_replayed(
    before: SessionView,
    records: Seq<RecordView>,
    replay: ReplayView,
    pending: PendingStore,
    item: ItemView,
)
    requires
        index::replayed(records, before.cipher) == Ok::<ReplayView, Seq<char>>(replay),
        replay.index == settled(before.index),
        item.pointer == pending.pointer@,
        item.turn_id is None,
        pending.turn_id is None,
        pending.line@ == index::line_of(RecordView::Item { item }),
        ids::valid_id(item.pointer.id),
        index::unlock_complaint(item, before.cipher) is None,
    ensures
        ({
            let offset = index::stored_bytes(records).len() as u64;
            index::replayed(
                records.push(RecordView::Item { item }),
                before.cipher,
            ) matches Ok(next) && next.index == settled(filed(before, pending, offset).index)
        }),
{
    let more = records.push(RecordView::Item { item });
    assert(more.drop_last() =~= records);
    let offset = index::stored_bytes(records).len() as u64;
    let next = index::after_item(replay, item, offset, pending.line@.len() as usize);
    assert(next.index =~= settled(filed(before, pending, offset).index));
}

/// A record that was appended behind the store's bytes and filed is held there,
/// and while it is cached just its content is read.
pub proof fn law_filed_record_is_held(
    before: SessionView,
    records: Seq<u8>,
    pending: PendingStore,
    active_turn: Option<Seq<char>>,
)
    requires
        before.wf(),
        pending.pointer.wf(),
        records.len() + pending.line@.len() <= usize::MAX,
        session::stores(
            before.cipher,
            pending.pointer@,
            text::opt(pending.turn_id),
            pending.content@,
            pending.line@,
        ),
    ensures
        ({
            let id = pending.pointer@.id;
            let after = filed(before, pending, records.len() as u64);
            let stored = records + pending.line@;
            &&& after.holds(
                id,
                stored,
                pending.pointer@,
                text::opt(pending.turn_id),
                pending.content@,
            )
            &&& before.cache_capacity > 0 && after.index.pointer(id, active_turn) is Some
                ==> after.read(id, active_turn, stored) == Ok::<
                Option<(PointerView, Seq<char>)>,
                Seq<char>,
            >(Some((pending.pointer@, pending.content@)))
        }),
{
    let id = pending.pointer@.id;
    let offset = records.len() as u64;
    let after = filed(before, pending, offset);
    let stored = records + pending.line@;
    let location = LocationView {
        offset,
        length: pending.line@.len() as usize,
        pointer: pending.pointer@,
        turn_id: text::opt(pending.turn_id),
    };
    textmap::lemma_inserted(before.index.entries, id, location);
    assert(after.index.location(id) == Some(location));
    assert(stored.subrange(offset as int, offset + location.length) =~= pending.line@);
    if before.cache_capacity > 0 {
        cache::law_cache_insert(
            before.cache,
            before.cache_capacity as nat,
            id,
            pending.content@,
        );
    }
}

fn refuse(
    action: AuditAction,
    id: &str,
    created_at: String,
    reason: Option<String>,
    message: String,
) -> (r: RecallOutcome)
    ensures
        r@ == runtime::refused(action, id@, created_at@, text::opt(reason), message@),
{
    RecallOutcome {
        audit: Some(
            AuditEvent {
                action,
                id: id.to_owned(),
                created_at,
                reason,
                returned_tokens: None,
                truncated: false,
                error: Some(message.clone()),
            },
        ),
        result: Err(message),
    }
}

/// A recall of a record that was found: the window that was asked for, or why
/// there is none.
pub fn show_recalled(
    id: &str,
    pointer: &MemoryPointer,
    content: &str,
    offset: usize,
    max_tokens: usize,
    reason: Option<String>,
    created_at: String,
) -> (r: RecallOutcome)
    ensures
        r@ == runtime::recalled(
            id@,
            pointer@,
            content@,
            offset as nat,
            max_tokens as nat,
            text::opt(reason),
            created_at@,
        ),
{
    if offset >= pointer.token_estimate && pointer.token_estimate > 0 {
        let mut message = "recall offset ".to_owned();
        let shown = text::decimal_of(offset as u64);
        message.append(shown.as_str());
        message.append(" is outside ");
        message.append(id);
        message.append(", which contains approximately ");
        let total = text::decimal_of(pointer.token_estimate as u64);
        message.append(total.as_str());
        message.append(" tokens");
        return refuse(AuditAction::Recall, id, created_at, reason, message);
    }
    let window = message::token_window(content, offset, max_tokens);
    let truncated = window.start > 0 || window.end < window.total;
    let mut r = "[recalled ".to_owned();
    r.append(id);
    if truncated {
        r.append(": token window ");
        let start = text::decimal_of(window.start as u64);
        r.append(start.as_str());
        r.append("..");
        let end = text::decimal_of(window.end as u64);
        r.append(end.as_str());
        r.append(" of ~");
        let total = text::decimal_of(window.total as u64);
        r.append(total.as_str());
        r.append(" tokens");
        let continuation = if window.end < window.total {
            text::concat("; next_offset=", end.as_str())
        } else {
            "; end of content".to_owned()
        };
        r.append(continuation.as_str());
        r.append("]\n");
        r.append(window.content.as_str());
    } else {
        r.append(": exact content, ~");
        let total = text::decimal_of(pointer.token_estimate as u64);
        r.append(total.as_str());
        r.append(" tokens]\n");
        r.append(window.content.as_str());
    }
    RecallOutcome {
        audit: Some(
            AuditEvent {
                action: AuditAction::Recall,
                id: id.to_owned(),
                created_at,
                reason,
                returned_tokens: Some(window.end - window.start),
                truncated,
                error: None,
            },
        ),
        result: Ok(r),
    }
}

/// What a tool gave is stored whole, with the tool that gave it and what it was
/// called with; it is pinned only where the tool failed and pinning is on.
pub proof fn law_results_are_stored_whole(
    tool: Seq<char>,
    arguments: JsonView,
    content: Seq<char>,
    fingerprint: Seq<char>,
    auto_pin: bool,
    key: Seq<char>,
)
    ensures
        ({
            let item = tool_item(tool, arguments, content, fingerprint, auto_pin);
            let failed = content.len() >= 11 && content.take(11) == "tool error:"@;
            &&& item.content == content
            &&& item.source_tool == Some(tool)
            &&& item.kind == (if tool == "read"@ {
                MemoryKind::FileSnapshot
            } else {
                MemoryKind::ToolResult
            })
            &&& item.pinned <==> auto_pin && failed
            &&& textmap::lookup(item.metadata, "fingerprint"@) == Some(fingerprint)
            &&& key != "fingerprint"@ ==> textmap::lookup(item.metadata, key) == textmap::lookup(
                pointers::argument_metadata(arguments),
                key,
            )
        }),
{
    reveal_strlit("tool error:");
    if content.len() >= 11 {
        assert(content.take(11) =~= content.subrange(0, 11));
    }
    pointers::lemma_argument_metadata_sorted(arguments);
    textmap::lemma_inserted(
        pointers::argument_metadata(arguments),
        "fingerprint"@,
        fingerprint,
    );
}

/// What was said is stored whole, with who said it; a store that is encrypted
/// shows nothing of it.
pub proof fn law_messages_are_stored_whole(
    kind: MemoryKind,
    role: Seq<char>,
    content: Seq<char>,
    fingerprint: Seq<char>,
    encrypted: bool,
)
    ensures
        ({
            let item = message_item(kind, role, content, fingerprint, encrypted);
            &&& item.kind == kind
            &&& item.content == content
            &&& !item.pinned
            &&& textmap::lookup(item.metadata, "role"@) == Some(role)
            &&& textmap::lookup(item.metadata, "fingerprint"@) == Some(fingerprint)
            &&& encrypted ==> textmap::lookup(item.metadata, "preview"@) is None
            &&& !encrypted ==> textmap::lookup(item.metadata, "preview"@) == Some(
                pointers::preview(content, 96),
            )
        }),
{
    reveal_strlit("role");
    reveal_strlit("preview");
    reveal_strlit("fingerprint");
    assert("role"@.len() == 4 && "preview"@.len() == 7 && "fingerprint"@.len() == 11);
    let none = Seq::<(Seq<char>, Seq<char>)>::empty();
    assert(textmap::sorted(none));
    textmap::lemma_inserted(none, "role"@, role);
    let roled = textmap::inserted(none, "role"@, role);
    textmap::lemma_inserted(roled, "preview"@, pointers::preview(content, 96));
    let shown = if encrypted {
        roled
    } else {
        textmap::inserted(roled, "preview"@, pointers::preview(content, 96))
    };
    textmap::lemma_inserted(shown, "fingerprint"@, fingerprint);
    assert(textmap::lookup(none, "preview"@) is None);
}

} // verus!
