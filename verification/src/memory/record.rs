//! What memory stores: pointers, items, turn marks and audit events, and the
//! JSON records they are kept in.
use crate::agent::message;
use crate::json;
use crate::json::{Json, JsonView};
use crate::secure::{EncryptedContent, EncryptionView};
use crate::text;
use crate::textmap;
use crate::textmap::TextMap;
use vstd::prelude::*;
use vstd::string::*;

verus! {

#[derive(Debug, Clone, Copy, PartialEq, Eq, Structural)]
pub enum MemoryKind {
    ToolResult,
    Message,
    FileSnapshot,
    Decision,
    Summary,
}

/// The word by which a kind is stored and filtered.
pub open spec fn kind_name(kind: MemoryKind) -> Seq<char> {
    match kind {
        MemoryKind::ToolResult => "tool_result"@,
        MemoryKind::Message => "message"@,
        MemoryKind::FileSnapshot => "file_snapshot"@,
        MemoryKind::Decision => "decision"@,
        MemoryKind::Summary => "summary"@,
    }
}

pub open spec fn kind_prefix(kind: MemoryKind) -> Seq<char> {
    match kind {
        MemoryKind::ToolResult => "obs"@,
        MemoryKind::FileSnapshot => "obs"@,
        MemoryKind::Message => "turn"@,
        MemoryKind::Decision => "decision"@,
        MemoryKind::Summary => "summary"@,
    }
}

pub open spec fn kind_label(kind: MemoryKind) -> Seq<char> {
    match kind {
        MemoryKind::ToolResult => "tool result"@,
        MemoryKind::Message => "message"@,
        MemoryKind::FileSnapshot => "file snapshot"@,
        MemoryKind::Decision => "decision"@,
        MemoryKind::Summary => "summary"@,
    }
}

impl MemoryKind {
    /// The word in the IDs of this kind.
    pub fn id_prefix(self) -> (r: &'static str)
        ensures
            r@ == kind_prefix(self),
    {
        match self {
            MemoryKind::ToolResult => "obs",
            MemoryKind::FileSnapshot => "obs",
            MemoryKind::Message => "turn",
            MemoryKind::Decision => "decision",
            MemoryKind::Summary => "summary",
        }
    }

    /// How citations name this kind.
    pub fn citation_label(self) -> (r: &'static str)
        ensures
            r@ == kind_label(self),
    {
        match self {
            MemoryKind::ToolResult => "tool result",
            MemoryKind::Message => "message",
            MemoryKind::FileSnapshot => "file snapshot",
            MemoryKind::Decision => "decision",
            MemoryKind::Summary => "summary",
        }
    }

    /// The word by which this kind is stored and filtered.
    pub fn filter_name(self) -> (r: &'static str)
        ensures
            r@ == kind_name(self),
    {
        match self {
            MemoryKind::ToolResult => "tool_result",
            MemoryKind::Message => "message",
            MemoryKind::FileSnapshot => "file_snapshot",
            MemoryKind::Decision => "decision",
            MemoryKind::Summary => "summary",
        }
    }
}

/// The kind that a stored word names.
pub open spec fn kind_of(name: Seq<char>) -> Option<MemoryKind> {
    if name == "tool_result"@ {
        Some(MemoryKind::ToolResult)
    } else if name == "message"@ {
        Some(MemoryKind::Message)
    } else if name == "file_snapshot"@ {
        Some(MemoryKind::FileSnapshot)
    } else if name == "decision"@ {
        Some(MemoryKind::Decision)
    } else if name == "summary"@ {
        Some(MemoryKind::Summary)
    } else {
        None
    }
}

fn kind_from_name(name: &str) -> (r: Option<MemoryKind>)
    ensures
        r == kind_of(name@),
{
    if text::same(name, "tool_result") {
        Some(MemoryKind::ToolResult)
    } else if text::same(name, "message") {
        Some(MemoryKind::Message)
    } else if text::same(name, "file_snapshot") {
        Some(MemoryKind::FileSnapshot)
    } else if text::same(name, "decision") {
        Some(MemoryKind::Decision)
    } else if text::same(name, "summary") {
        Some(MemoryKind::Summary)
    } else {
        None
    }
}

/// An ID and what is known of the content behind it.
#[derive(Debug, PartialEq, Eq)]
pub struct MemoryPointer {
    pub id: String,
    pub kind: MemoryKind,
    pub created_at: String,
    pub source_tool: Option<String>,
    pub token_estimate: usize,
    pub importance: u8,
    pub pinned: bool,
    pub parent_id: Option<String>,
    pub metadata: TextMap<String>,
}

/// What a [`MemoryPointer`] holds.
#[verifier::ext_equal]
pub struct PointerView {
    pub id: Seq<char>,
    pub kind: MemoryKind,
    pub created_at: Seq<char>,
    pub source_tool: Option<Seq<char>>,
    pub token_estimate: usize,
    pub importance: u8,
    pub pinned: bool,
    pub parent_id: Option<Seq<char>>,
    pub metadata: Seq<(Seq<char>, Seq<char>)>,
}

impl View for MemoryPointer {
    type V = PointerView;

    open spec fn view(&self) -> PointerView {
        PointerView {
            id: self.id@,
            kind: self.kind,
            created_at: self.created_at@,
            source_tool: text::opt(self.source_tool),
            token_estimate: self.token_estimate,
            importance: self.importance,
            pinned: self.pinned,
            parent_id: text::opt(self.parent_id),
            metadata: self.metadata@,
        }
    }
}

/// A copy of a map of texts.
pub fn copy_metadata(map: &TextMap<String>) -> (r: TextMap<String>)
    ensures
        r@ == map@,
{
    let mut entries: Vec<(String, String)> = Vec::new();
    let mut i: usize = 0;
    while i < map.entries.len()
        invariant
            i <= map.entries@.len(),
            entries@.len() == i,
            forall|j: int|
                0 <= j < i ==> (#[trigger] entries@[j]).0@ == map.entries@[j].0@ && entries@[j].1@
                    == map.entries@[j].1@,
        decreases map.entries@.len() - i,
    {
        entries.push((map.entries[i].0.clone(), map.entries[i].1.clone()));
        i = i + 1;
    }
    let r = TextMap { entries };
    assert(r@ =~= map@);
    r
}

impl MemoryPointer {
    pub open spec fn wf(&self) -> bool {
        self.metadata.wf()
    }

    /// A copy of this pointer.
    pub fn copy(&self) -> (r: MemoryPointer)
        ensures
            r@ == self@,
            r.wf() == self.wf(),
    {
        MemoryPointer {
            id: self.id.clone(),
            kind: self.kind,
            created_at: self.created_at.clone(),
            source_tool: message::copy_text(&self.source_tool),
            token_estimate: self.token_estimate,
            importance: self.importance,
            pinned: self.pinned,
            parent_id: message::copy_text(&self.parent_id),
            metadata: copy_metadata(&self.metadata),
        }
    }
}

/// A pointer and its content, as stored.
#[derive(Debug, PartialEq, Eq)]
pub struct MemoryItem {
    pub pointer: MemoryPointer,
    pub turn_id: Option<String>,
    pub encryption: Option<EncryptedContent>,
    pub content: String,
}

/// What a [`MemoryItem`] holds.
#[verifier::ext_equal]
pub struct ItemView {
    pub pointer: PointerView,
    pub turn_id: Option<Seq<char>>,
    pub encryption: Option<EncryptionView>,
    pub content: Seq<char>,
}

impl View for MemoryItem {
    type V = ItemView;

    open spec fn view(&self) -> ItemView {
        ItemView {
            pointer: self.pointer@,
            turn_id: text::opt(self.turn_id),
            encryption: text::opt(self.encryption),
            content: self.content@,
        }
    }
}

/// How a turn ended.
#[derive(Debug, Clone, Copy, PartialEq, Eq, Structural)]
pub enum MemoryTurnState {
    Committed,
    Aborted,
}

impl View for MemoryTurnState {
    type V = MemoryTurnState;

    open spec fn view(&self) -> MemoryTurnState {
        *self
    }
}

#[derive(Debug, Clone, Copy, PartialEq, Eq, Structural)]
pub enum AuditAction {
    Recall,
    RecallMissing,
    RecallRateLimited,
    Pin,
    Unpin,
}

pub open spec fn action_name(action: AuditAction) -> Seq<char> {
    match action {
        AuditAction::Recall => "recall"@,
        AuditAction::RecallMissing => "recall_missing"@,
        AuditAction::RecallRateLimited => "recall_rate_limited"@,
        AuditAction::Pin => "pin"@,
        AuditAction::Unpin => "unpin"@,
    }
}

pub open spec fn action_of(name: Seq<char>) -> Option<AuditAction> {
    if name == "recall"@ {
        Some(AuditAction::Recall)
    } else if name == "recall_missing"@ {
        Some(AuditAction::RecallMissing)
    } else if name == "recall_rate_limited"@ {
        Some(AuditAction::RecallRateLimited)
    } else if name == "pin"@ {
        Some(AuditAction::Pin)
    } else if name == "unpin"@ {
        Some(AuditAction::Unpin)
    } else {
        None
    }
}

impl AuditAction {
    fn name(self) -> (r: &'static str)
        ensures
            r@ == action_name(self),
    {
        match self {
            AuditAction::Recall => "recall",
            AuditAction::RecallMissing => "recall_missing",
            AuditAction::RecallRateLimited => "recall_rate_limited",
            AuditAction::Pin => "pin",
            AuditAction::Unpin => "unpin",
        }
    }

    fn from_name(name: &str) -> (r: Option<AuditAction>)
        ensures
            r == action_of(name@),
    {
        if text::same(name, "recall") {
            Some(AuditAction::Recall)
        } else if text::same(name, "recall_missing") {
            Some(AuditAction::RecallMissing)
        } else if text::same(name, "recall_rate_limited") {
            Some(AuditAction::RecallRateLimited)
        } else if text::same(name, "pin") {
            Some(AuditAction::Pin)
        } else if text::same(name, "unpin") {
            Some(AuditAction::Unpin)
        } else {
            None
        }
    }
}

/// One entry of the operational history.
#[derive(Debug, PartialEq, Eq)]
pub struct AuditEvent {
    pub action: AuditAction,
    pub id: String,
    pub created_at: String,
    pub reason: Option<String>,
    pub returned_tokens: Option<usize>,
    pub truncated: bool,
    pub error: Option<String>,
}

/// What an [`AuditEvent`] holds.
#[verifier::ext_equal]
pub struct AuditView {
    pub action: AuditAction,
    pub id: Seq<char>,
    pub created_at: Seq<char>,
    pub reason: Option<Seq<char>>,
    pub returned_tokens: Option<usize>,
    pub truncated: bool,
    pub error: Option<Seq<char>>,
}

impl View for AuditEvent {
    type V = AuditView;

    open spec fn view(&self) -> AuditView {
        AuditView {
            action: self.action,
            id: self.id@,
            created_at: self.created_at@,
            reason: text::opt(self.reason),
            returned_tokens: self.returned_tokens,
            truncated: self.truncated,
            error: text::opt(self.error),
        }
    }
}

/// One line of the record store. Existing stores may contain inline audit
/// records; new audit events are written to a file of their own so rebuilding
/// the content index does not scan operational history.
#[derive(Debug, PartialEq, Eq)]
pub enum StoreRecord {
    Item { item: MemoryItem },
    Turn { turn_id: String, state: MemoryTurnState },
    Audit { audit: AuditEvent },
}

/// What a [`StoreRecord`] holds.
pub enum RecordView {
    Item { item: ItemView },
    Turn { turn_id: Seq<char>, state: MemoryTurnState },
    Audit { audit: AuditView },
}

impl View for StoreRecord {
    type V = RecordView;

    open spec fn view(&self) -> RecordView {
        match *self {
            StoreRecord::Item { item } => RecordView::Item { item: item@ },
            StoreRecord::Turn { turn_id, state } => RecordView::Turn { turn_id: turn_id@, state },
            StoreRecord::Audit { audit } => RecordView::Audit { audit: audit@ },
        }
    }
}

// ---------------------------------------------------------------------------
// Reading
// ---------------------------------------------------------------------------

/// The map of texts that the fields of an object make; nothing where a field
/// is not a text. Of two fields with one name the later one counts.
pub open spec fn text_entries(fields: Seq<(Seq<char>, JsonView)>) -> Option<
    Seq<(Seq<char>, Seq<char>)>,
>
    decreases fields.len(),
{
    if fields.len() == 0 {
        Some(Seq::empty())
    } else {
        match (text_entries(fields.drop_last()), fields.last().1) {
            (Some(entries), JsonView::Text(s)) => Some(
                textmap::inserted(entries, fields.last().0, s),
            ),
            _ => None,
        }
    }
}

pub open spec fn metadata_of(json: JsonView) -> Option<Seq<(Seq<char>, Seq<char>)>> {
    match json.get("metadata"@) {
        None => Some(Seq::empty()),
        Some(JsonView::Object(fields)) => text_entries(fields),
        Some(_) => None,
    }
}

pub open spec fn encryption_of(json: JsonView) -> Option<Option<EncryptionView>> {
    match json.get("encryption"@) {
        None => Some(None),
        Some(JsonView::Null) => Some(None),
        Some(value) => {
            let value = value.seated(seq!["format", "nonce"], 2);
            match (value.need_number("format"@, 255), value.need_text("nonce"@)) {
                (Some(format), Some(nonce)) => Some(
                    Some(EncryptionView { format: format as u8, nonce }),
                ),
                _ => None,
            }
        },
    }
}

pub open spec fn pointer_of(json: JsonView) -> Option<PointerView> {
    match (
        (json.need_text("id"@), json.need_choice("kind"@), json.need_text("created_at"@)),
        json.maybe_text("source_tool"@),
        json.need_number("token_estimate"@, usize::MAX as u64),
        json.need_number("importance"@, 255),
        json.need_bool("pinned"@),
        json.maybe_text("parent_id"@),
        metadata_of(json),
    ) {
        (
            (Some(id), Some(kind), Some(created_at)),
            Some(source_tool),
            Some(token_estimate),
            Some(importance),
            Some(pinned),
            Some(parent_id),
            Some(metadata),
        ) => match kind_of(kind) {
            Some(kind) => Some(
                PointerView {
                    id,
                    kind,
                    created_at,
                    source_tool,
                    token_estimate: token_estimate as usize,
                    importance: importance as u8,
                    pinned,
                    parent_id,
                    metadata,
                },
            ),
            None => None,
        },
        _ => None,
    }
}

pub open spec fn item_of(json: JsonView) -> Option<ItemView> {
    match (
        pointer_of(json),
        json.maybe_text("turn_id"@),
        encryption_of(json),
        json.need_text("content"@),
    ) {
        (Some(pointer), Some(turn_id), Some(encryption), Some(content)) => Some(
            ItemView { pointer, turn_id, encryption, content },
        ),
        _ => None,
    }
}

/// The fields of an audit event.
pub open spec fn audit_names() -> Seq<&'static str> {
    seq!["action", "id", "created_at", "reason", "returned_tokens", "truncated", "error"]
}

pub open spec fn audit_of(value: JsonView) -> Option<AuditView> {
    let json = value.seated(audit_names(), 3);
    match (
        (json.need_choice("action"@), json.need_text("id"@), json.need_text("created_at"@)),
        json.maybe_text("reason"@),
        json.maybe_number("returned_tokens"@, usize::MAX as u64),
        json.bool_or("truncated"@, false),
        json.maybe_text("error"@),
    ) {
        (
            (Some(action), Some(id), Some(created_at)),
            Some(reason),
            Some(returned_tokens),
            Some(truncated),
            Some(error),
        ) => match action_of(action) {
            Some(action) => Some(
                AuditView {
                    action,
                    id,
                    created_at,
                    reason,
                    returned_tokens: match returned_tokens {
                        Some(n) => Some(n as usize),
                        None => None,
                    },
                    truncated,
                    error,
                },
            ),
            None => None,
        },
        _ => None,
    }
}

/// The record that a JSON value denotes.
pub open spec fn record_of(json: JsonView) -> Option<RecordView> {
    match json.text_tag("record_type"@) {
        Some(tag) => if tag == "item"@ {
            match json.seated(seq!["record_type", "item"], 2).get("item"@) {
                Some(value) => match item_of(value) {
                    Some(item) => Some(RecordView::Item { item }),
                    None => None,
                },
                None => None,
            }
        } else if tag == "turn"@ {
            let json = json.seated(seq!["record_type", "turn_id", "state"], 3);
            match (json.need_text("turn_id"@), json.need_choice("state"@)) {
                (Some(turn_id), Some(state)) => if state == "committed"@ {
                    Some(RecordView::Turn { turn_id, state: MemoryTurnState::Committed })
                } else if state == "aborted"@ {
                    Some(RecordView::Turn { turn_id, state: MemoryTurnState::Aborted })
                } else {
                    None
                },
                _ => None,
            }
        } else if tag == "audit"@ {
            match json.seated(seq!["record_type", "audit"], 2).get("audit"@) {
                Some(value) => match audit_of(value) {
                    Some(audit) => Some(RecordView::Audit { audit }),
                    None => None,
                },
                None => None,
            }
        } else {
            None
        },
        None => None,
    }
}

fn text_entries_from(fields: &Vec<(String, Json)>) -> (r: Option<TextMap<String>>)
    ensures
        text::opt(r) == text_entries(json::fields_view(fields@)),
        r matches Some(map) ==> map.wf(),
{
    let ghost model = json::fields_view(fields@);
    proof {
        json::lemma_fields_view(fields@);
    }
    let mut map: TextMap<String> = TextMap::new();
    let mut i: usize = 0;
    assert(model.take(0) =~= Seq::<(Seq<char>, JsonView)>::empty());
    while i < fields.len()
        invariant
            i <= fields@.len(),
            model == json::fields_view(fields@),
            model.len() == fields@.len(),
            forall|j: int|
                0 <= j < fields@.len() ==> #[trigger] model[j] == (
                    fields@[j].0@,
                    fields@[j].1@,
                ),
            map.wf(),
            text_entries(model.take(i as int)) == Some(map@),
        decreases fields@.len() - i,
    {
        let ghost upto = model.take(i as int + 1);
        assert(upto.drop_last() =~= model.take(i as int));
        assert(upto.last() == model[i as int]);
        match &fields[i].1 {
            Json::Text(s) => {
                map.insert(fields[i].0.clone(), s.clone());
            },
            _ => {
                proof {
                    assert(text_entries(upto) is None);
                    lemma_text_entries_none(model, i as int + 1);
                }
                return None;
            },
        }
        i = i + 1;
    }
    assert(model.take(model.len() as int) =~= model);
    Some(map)
}

proof fn lemma_text_entries_none(fields: Seq<(Seq<char>, JsonView)>, n: int)
    requires
        0 <= n <= fields.len(),
        text_entries(fields.take(n)) is None,
    ensures
        text_entries(fields) is None,
    decreases fields.len() - n,
{
    if n == fields.len() {
        assert(fields.take(n) =~= fields);
    } else {
        assert(fields.take(n + 1).drop_last() =~= fields.take(n));
        lemma_text_entries_none(fields, n + 1);
    }
}

fn metadata_from(value: &Json) -> (r: Option<TextMap<String>>)
    ensures
        text::opt(r) == metadata_of(value@),
        r matches Some(map) ==> map.wf(),
{
    match value.get("metadata") {
        None => Some(TextMap::new()),
        Some(Json::Object(fields)) => text_entries_from(fields),
        Some(_) => None,
    }
}

pub fn encryption_from(value: &Json) -> (r: Option<Option<EncryptedContent>>)
    ensures
        match r {
            Some(encryption) => encryption_of(value@) == Some(text::opt(encryption)),
            None => encryption_of(value@) is None,
        },
{
    match value.get("encryption") {
        None => Some(None),
        Some(Json::Null) => Some(None),
        Some(inner) => {
            let names: Vec<&'static str> = vec!["format", "nonce"];
            assert(names@ =~= seq!["format", "nonce"]);
            let seat = inner.seat(&names, 2);
            let inner = match &seat {
                Some(seat) => seat,
                None => inner,
            };
            match (inner.need_number("format", 255), inner.need_text("nonce")) {
                (Some(format), Some(nonce)) => Some(
                    Some(EncryptedContent { format: format as u8, nonce }),
                ),
                _ => None,
            }
        },
    }
}

fn pointer_from(value: &Json) -> (r: Option<MemoryPointer>)
    ensures
        text::opt(r) == pointer_of(value@),
        r matches Some(pointer) ==> pointer.wf(),
{
    match (
        (value.need_text("id"), value.need_choice("kind"), value.need_text("created_at")),
        value.maybe_text("source_tool"),
        value.need_number("token_estimate", usize::MAX as u64),
        value.need_number("importance", 255),
        value.need_bool("pinned"),
        value.maybe_text("parent_id"),
        metadata_from(value),
    ) {
        (
            (Some(id), Some(kind), Some(created_at)),
            Some(source_tool),
            Some(token_estimate),
            Some(importance),
            Some(pinned),
            Some(parent_id),
            Some(metadata),
        ) => match kind_from_name(kind.as_str()) {
            Some(kind) => Some(
                MemoryPointer {
                    id,
                    kind,
                    created_at,
                    source_tool,
                    token_estimate: token_estimate as usize,
                    importance: importance as u8,
                    pinned,
                    parent_id,
                    metadata,
                },
            ),
            None => None,
        },
        _ => None,
    }
}

fn item_from(value: &Json) -> (r: Option<MemoryItem>)
    ensures
        text::opt(r) == item_of(value@),
        r matches Some(item) ==> item.pointer.wf(),
{
    match (
        pointer_from(value),
        value.maybe_text("turn_id"),
        encryption_from(value),
        value.need_text("content"),
    ) {
        (Some(pointer), Some(turn_id), Some(encryption), Some(content)) => Some(
            MemoryItem { pointer, turn_id, encryption, content },
        ),
        _ => None,
    }
}

fn audit_from(value: &Json) -> (r: Option<AuditEvent>)
    ensures
        text::opt(r) == audit_of(value@),
{
    let names: Vec<&'static str> = vec![
        "action",
        "id",
        "created_at",
        "reason",
        "returned_tokens",
        "truncated",
        "error",
    ];
    assert(names@ =~= audit_names());
    let seat = value.seat(&names, 3);
    let value = match &seat {
        Some(seat) => seat,
        None => value,
    };
    match (
        (value.need_choice("action"), value.need_text("id"), value.need_text("created_at")),
        value.maybe_text("reason"),
        value.maybe_number("returned_tokens", usize::MAX as u64),
        value.bool_or("truncated", false),
        value.maybe_text("error"),
    ) {
        (
            (Some(action), Some(id), Some(created_at)),
            Some(reason),
            Some(returned_tokens),
            Some(truncated),
            Some(error),
        ) => match AuditAction::from_name(action.as_str()) {
            Some(action) => Some(
                AuditEvent {
                    action,
                    id,
                    created_at,
                    reason,
                    returned_tokens: match returned_tokens {
                        Some(n) => Some(n as usize),
                        None => None,
                    },
                    truncated,
                    error,
                },
            ),
            None => None,
        },
        _ => None,
    }
}

/// The record that a JSON value denotes.
pub fn record_from(value: &Json) -> (r: Option<StoreRecord>)
    ensures
        text::opt(r) == record_of(value@),
        r matches Some(StoreRecord::Item { item }) ==> item.pointer.wf(),
{
    let tag = match value.text_tag("record_type") {
        Some(tag) => tag,
        None => {
            return None;
        },
    };
    if text::same(tag, "item") {
        let names: Vec<&'static str> = vec!["record_type", "item"];
        assert(names@ =~= seq!["record_type", "item"]);
        let seat = value.seat(&names, 2);
        let value = match &seat {
            Some(seat) => seat,
            None => value,
        };
        match value.get("item") {
            Some(inner) => match item_from(inner) {
                Some(item) => Some(StoreRecord::Item { item }),
                None => None,
            },
            None => None,
        }
    } else if text::same(tag, "turn") {
        let names: Vec<&'static str> = vec!["record_type", "turn_id", "state"];
        assert(names@ =~= seq!["record_type", "turn_id", "state"]);
        let seat = value.seat(&names, 3);
        let value = match &seat {
            Some(seat) => seat,
            None => value,
        };
        match (value.need_text("turn_id"), value.need_choice("state")) {
            (Some(turn_id), Some(state)) => if text::same(state.as_str(), "committed") {
                Some(StoreRecord::Turn { turn_id, state: MemoryTurnState::Committed })
            } else if text::same(state.as_str(), "aborted") {
                Some(StoreRecord::Turn { turn_id, state: MemoryTurnState::Aborted })
            } else {
                None
            },
            _ => None,
        }
    } else if text::same(tag, "audit") {
        let names: Vec<&'static str> = vec!["record_type", "audit"];
        assert(names@ =~= seq!["record_type", "audit"]);
        let seat = value.seat(&names, 2);
        let value = match &seat {
            Some(seat) => seat,
            None => value,
        };
        match value.get("audit") {
            Some(inner) => match audit_from(inner) {
                Some(audit) => Some(StoreRecord::Audit { audit }),
                None => None,
            },
            None => None,
        }
    } else {
        None
    }
}

// ---------------------------------------------------------------------------
// Writing
// ---------------------------------------------------------------------------

pub open spec fn metadata_fields(entries: Seq<(Seq<char>, Seq<char>)>) -> Seq<
    (Seq<char>, JsonView),
> {
    entries.map_values(|e: (Seq<char>, Seq<char>)| (e.0, JsonView::Text(e.1)))
}

pub open spec fn encryption_json(encryption: EncryptionView) -> JsonView {
    JsonView::Object(
        seq![
            ("format"@, JsonView::Unsigned(encryption.format as u64)),
            ("nonce"@, JsonView::Text(encryption.nonce)),
        ],
    )
}

pub open spec fn pointer_fields(p: PointerView) -> Seq<(Seq<char>, JsonView)> {
    let base = seq![
        ("id"@, JsonView::Text(p.id)),
        ("kind"@, JsonView::Text(kind_name(p.kind))),
        ("created_at"@, JsonView::Text(p.created_at)),
    ];
    let sourced = json::with_text(base, "source_tool"@, p.source_tool);
    let counted = sourced.push(
        ("token_estimate"@, JsonView::Unsigned(p.token_estimate as u64)),
    ).push(("importance"@, JsonView::Unsigned(p.importance as u64))).push(
        ("pinned"@, JsonView::Bool(p.pinned)),
    );
    let parented = json::with_text(counted, "parent_id"@, p.parent_id);
    if p.metadata.len() == 0 {
        parented
    } else {
        parented.push(("metadata"@, JsonView::Object(metadata_fields(p.metadata))))
    }
}

pub open spec fn item_json(item: ItemView) -> JsonView {
    let turned = json::with_text(pointer_fields(item.pointer), "turn_id"@, item.turn_id);
    let sealed = match item.encryption {
        Some(encryption) => turned.push(("encryption"@, encryption_json(encryption))),
        None => turned,
    };
    JsonView::Object(sealed.push(("content"@, JsonView::Text(item.content))))
}

pub open spec fn audit_json(audit: AuditView) -> JsonView {
    let base = seq![
        ("action"@, JsonView::Text(action_name(audit.action))),
        ("id"@, JsonView::Text(audit.id)),
        ("created_at"@, JsonView::Text(audit.created_at)),
    ];
    let reasoned = json::with_text(base, "reason"@, audit.reason);
    let counted = match audit.returned_tokens {
        Some(n) => reasoned.push(("returned_tokens"@, JsonView::Unsigned(n as u64))),
        None => reasoned,
    };
    let cut = if audit.truncated {
        counted.push(("truncated"@, JsonView::Bool(true)))
    } else {
        counted
    };
    JsonView::Object(json::with_text(cut, "error"@, audit.error))
}

/// The JSON value that a record is stored as.
pub open spec fn record_json(record: RecordView) -> JsonView {
    match record {
        RecordView::Item { item } => JsonView::Object(
            seq![("record_type"@, JsonView::Text("item"@)), ("item"@, item_json(item))],
        ),
        RecordView::Turn { turn_id, state } => JsonView::Object(
            seq![
                ("record_type"@, JsonView::Text("turn"@)),
                ("turn_id"@, JsonView::Text(turn_id)),
                (
                    "state"@,
                    JsonView::Text(
                        match state {
                            MemoryTurnState::Committed => "committed"@,
                            MemoryTurnState::Aborted => "aborted"@,
                        },
                    ),
                ),
            ],
        ),
        RecordView::Audit { audit } => JsonView::Object(
            seq![("record_type"@, JsonView::Text("audit"@)), ("audit"@, audit_json(audit))],
        ),
    }
}

fn metadata_to_json(map: &TextMap<String>) -> (r: Vec<(String, Json)>)
    ensures
        json::fields_view(r@) == metadata_fields(map@),
{
    let mut fields: Vec<(String, Json)> = Vec::new();
    let mut i: usize = 0;
    assert(json::fields_view(fields@) =~= metadata_fields(map@).take(0));
    while i < map.entries.len()
        invariant
            i <= map.entries@.len(),
            json::fields_view(fields@) == metadata_fields(map@).take(i as int),
        decreases map.entries@.len() - i,
    {
        json::push_text(&mut fields, map.entries[i].0.as_str(), map.entries[i].1.as_str());
        assert(map@[i as int] == (map.entries@[i as int].0@, map.entries@[i as int].1@));
        i = i + 1;
        assert(json::fields_view(fields@) =~= metadata_fields(map@).take(i as int));
    }
    assert(metadata_fields(map@).take(map@.len() as int) =~= metadata_fields(map@));
    fields
}

pub fn encryption_to_json(encryption: &EncryptedContent) -> (r: Json)
    ensures
        r@ == encryption_json(encryption@),
{
    let mut fields: Vec<(String, Json)> = Vec::new();
    json::push_field(&mut fields, "format", Json::Unsigned(encryption.format as u64));
    json::push_text(&mut fields, "nonce", encryption.nonce.as_str());
    assert(json::fields_view(fields@) =~= seq![
        ("format"@, JsonView::Unsigned(encryption@.format as u64)),
        ("nonce"@, JsonView::Text(encryption@.nonce)),
    ]);
    Json::Object(fields)
}

fn item_to_json(item: &MemoryItem) -> (r: Json)
    ensures
        r@ == item_json(item@),
{
    let p = &item.pointer;
    let mut fields: Vec<(String, Json)> = Vec::new();
    json::push_text(&mut fields, "id", p.id.as_str());
    json::push_text(&mut fields, "kind", p.kind.filter_name());
    json::push_text(&mut fields, "created_at", p.created_at.as_str());
    assert(json::fields_view(fields@) =~= seq![
        ("id"@, JsonView::Text(p.id@)),
        ("kind"@, JsonView::Text(kind_name(p.kind))),
        ("created_at"@, JsonView::Text(p.created_at@)),
    ]);
    json::push_maybe_text(&mut fields, "source_tool", &p.source_tool);
    json::push_field(&mut fields, "token_estimate", Json::Unsigned(p.token_estimate as u64));
    json::push_field(&mut fields, "importance", Json::Unsigned(p.importance as u64));
    json::push_field(&mut fields, "pinned", Json::Bool(p.pinned));
    json::push_maybe_text(&mut fields, "parent_id", &p.parent_id);
    if p.metadata.entries.len() > 0 {
        json::push_field(&mut fields, "metadata", Json::Object(metadata_to_json(&p.metadata)));
    }
    json::push_maybe_text(&mut fields, "turn_id", &item.turn_id);
    match &item.encryption {
        Some(encryption) => {
            json::push_field(&mut fields, "encryption", encryption_to_json(encryption));
        },
        None => {},
    }
    json::push_text(&mut fields, "content", item.content.as_str());
    Json::Object(fields)
}

/// The JSON value of an audit event.
pub fn audit_to_json(audit: &AuditEvent) -> (r: Json)
    ensures
        r@ == audit_json(audit@),
{
    let mut fields: Vec<(String, Json)> = Vec::new();
    json::push_text(&mut fields, "action", audit.action.name());
    json::push_text(&mut fields, "id", audit.id.as_str());
    json::push_text(&mut fields, "created_at", audit.created_at.as_str());
    assert(json::fields_view(fields@) =~= seq![
        ("action"@, JsonView::Text(action_name(audit.action))),
        ("id"@, JsonView::Text(audit.id@)),
        ("created_at"@, JsonView::Text(audit.created_at@)),
    ]);
    json::push_maybe_text(&mut fields, "reason", &audit.reason);
    match audit.returned_tokens {
        Some(n) => {
            json::push_field(&mut fields, "returned_tokens", Json::Unsigned(n as u64));
        },
        None => {},
    }
    if audit.truncated {
        json::push_field(&mut fields, "truncated", Json::Bool(true));
    }
    json::push_maybe_text(&mut fields, "error", &audit.error);
    Json::Object(fields)
}

/// The JSON value that a record is stored as.
pub fn record_to_json(record: &StoreRecord) -> (r: Json)
    ensures
        r@ == record_json(record@),
{
    let mut fields: Vec<(String, Json)> = Vec::new();
    match record {
        StoreRecord::Item { item } => {
            json::push_text(&mut fields, "record_type", "item");
            json::push_field(&mut fields, "item", item_to_json(item));
            assert(json::fields_view(fields@) =~= seq![
                ("record_type"@, JsonView::Text("item"@)),
                ("item"@, item_json(item@)),
            ]);
        },
        StoreRecord::Turn { turn_id, state } => {
            let word: &str = match state {
                MemoryTurnState::Committed => "committed",
                MemoryTurnState::Aborted => "aborted",
            };
            json::push_text(&mut fields, "record_type", "turn");
            json::push_text(&mut fields, "turn_id", turn_id.as_str());
            json::push_text(&mut fields, "state", word);
            assert(json::fields_view(fields@) =~= seq![
                ("record_type"@, JsonView::Text("turn"@)),
                ("turn_id"@, JsonView::Text(turn_id@)),
                ("state"@, JsonView::Text(word@)),
            ]);
        },
        StoreRecord::Audit { audit } => {
            json::push_text(&mut fields, "record_type", "audit");
            json::push_field(&mut fields, "audit", audit_to_json(audit));
            assert(json::fields_view(fields@) =~= seq![
                ("record_type"@, JsonView::Text("audit"@)),
                ("audit"@, audit_json(audit@)),
            ]);
        },
    }
    Json::Object(fields)
}

} // verus!
