//! The index of a record store, and its reconstruction from the stored bytes.
use crate::agent::message;
use crate::json;
use crate::memory::ids;
use crate::memory::readback;
use crate::memory::record;
use crate::memory::record::{
    AuditAction, ItemView, MemoryItem, MemoryKind, MemoryPointer, MemoryTurnState, PointerView,
    RecordView, StoreRecord,
};
use crate::secure;
use crate::secure::{Cipher, CipherView};
use crate::text;
use crate::textmap;
use crate::textmap::TextMap;
use vstd::prelude::*;
use vstd::string::*;
use vstd::utf8::*;

verus! {

/// Where a record stands in the store, and its pointer.
#[derive(Debug, PartialEq, Eq)]
pub struct RecordLocation {
    pub offset: u64,
    pub length: usize,
    pub pointer: MemoryPointer,
    pub turn_id: Option<String>,
}

/// What a [`RecordLocation`] holds.
#[verifier::ext_equal]
pub struct LocationView {
    pub offset: u64,
    pub length: usize,
    pub pointer: PointerView,
    pub turn_id: Option<Seq<char>>,
}

impl View for RecordLocation {
    type V = LocationView;

    open spec fn view(&self) -> LocationView {
        LocationView {
            offset: self.offset,
            length: self.length,
            pointer: self.pointer@,
            turn_id: text::opt(self.turn_id),
        }
    }
}

impl RecordLocation {
    pub fn copy(&self) -> (r: RecordLocation)
        ensures
            r@ == self@,
    {
        RecordLocation {
            offset: self.offset,
            length: self.length,
            pointer: self.pointer.copy(),
            turn_id: message::copy_text(&self.turn_id),
        }
    }
}

/// The index of a store: where each record stands, in which order the records
/// were written, which fingerprints they carry, and how each turn ended.
#[derive(Debug, PartialEq, Eq)]
pub struct StoreIndex {
    pub entries: TextMap<RecordLocation>,
    /// IDs claimed by an in-flight store that has not finished appending.
    /// Kept out of `entries` so readers never see a record whose offset and
    /// length are not yet known.
    pub reserved: Vec<String>,
    pub order: Vec<String>,
    pub message_fingerprints: TextMap<String>,
    pub tool_fingerprints: TextMap<String>,
    pub turn_states: TextMap<MemoryTurnState>,
}

/// What a [`StoreIndex`] holds.
#[verifier::ext_equal]
pub struct IndexView {
    pub entries: Seq<(Seq<char>, LocationView)>,
    pub reserved: Seq<Seq<char>>,
    pub order: Seq<Seq<char>>,
    pub message_fingerprints: Seq<(Seq<char>, Seq<char>)>,
    pub tool_fingerprints: Seq<(Seq<char>, Seq<char>)>,
    pub turn_states: Seq<(Seq<char>, MemoryTurnState)>,
}

impl View for StoreIndex {
    type V = IndexView;

    open spec fn view(&self) -> IndexView {
        IndexView {
            entries: self.entries@,
            reserved: text::views(self.reserved@),
            order: text::views(self.order@),
            message_fingerprints: self.message_fingerprints@,
            tool_fingerprints: self.tool_fingerprints@,
            turn_states: self.turn_states@,
        }
    }
}

/// A pointer's metadata is in order and the pointer is filed under its own ID.
pub open spec fn entry_wf(entry: (Seq<char>, LocationView)) -> bool {
    &&& entry.1.pointer.id == entry.0
    &&& textmap::sorted(entry.1.pointer.metadata)
}

impl IndexView {
    /// The maps are in order, every entry is filed under its ID, and the order
    /// lists exactly the IDs that have entries, each once.
    pub open spec fn wf(self) -> bool {
        &&& textmap::sorted(self.entries)
        &&& textmap::sorted(self.message_fingerprints)
        &&& textmap::sorted(self.tool_fingerprints)
        &&& textmap::sorted(self.turn_states)
        &&& self.order.no_duplicates()
        &&& forall|id: Seq<char>| #[trigger]
            self.order.contains(id) <==> textmap::has_key(self.entries, id)
        &&& forall|id: Seq<char>| #[trigger]
            textmap::lookup(self.entries, id) matches Some(location) ==> entry_wf((id, location))
    }

    pub open spec fn location(self, id: Seq<char>) -> Option<LocationView> {
        textmap::lookup(self.entries, id)
    }

    /// A record written outside any turn is visible; one written in a turn is
    /// visible once the turn was committed, never once it was aborted, and
    /// until then in that turn alone.
    pub open spec fn visible(self, location: LocationView, active_turn: Option<Seq<char>>) -> bool {
        match location.turn_id {
            None => true,
            Some(turn_id) => match textmap::lookup(self.turn_states, turn_id) {
                Some(MemoryTurnState::Committed) => true,
                Some(MemoryTurnState::Aborted) => false,
                None => active_turn == Some(turn_id),
            },
        }
    }

    /// The pointer for `id`, where it is there and visible.
    pub open spec fn pointer(self, id: Seq<char>, active_turn: Option<Seq<char>>) -> Option<
        PointerView,
    > {
        match self.location(id) {
            Some(location) => if self.visible(location, active_turn) {
                Some(location.pointer)
            } else {
                None
            },
            None => None,
        }
    }

    /// The visible pointers of the first `n` records.
    pub open spec fn pointers_upto(self, active_turn: Option<Seq<char>>, n: nat) -> Seq<PointerView>
        decreases n,
    {
        if n == 0 {
            Seq::empty()
        } else {
            let rest = self.pointers_upto(active_turn, (n - 1) as nat);
            match self.pointer(self.order[n - 1], active_turn) {
                Some(pointer) => rest.push(pointer),
                None => rest,
            }
        }
    }

    /// The visible pointers, oldest first.
    pub open spec fn pointers(self, active_turn: Option<Seq<char>>) -> Seq<PointerView> {
        self.pointers_upto(active_turn, self.order.len())
    }

    /// This index with the pin of `id` set, where `id` has an entry.
    pub open spec fn with_pin(self, id: Seq<char>, pinned: bool) -> IndexView {
        match self.location(id) {
            Some(location) => IndexView {
                entries: textmap::inserted(self.entries, id, pin_location(location, pinned)),
                ..self
            },
            None => self,
        }
    }

    /// This index with one more record, or with the record of that ID
    /// replaced.
    pub open spec fn with_item(self, location: LocationView) -> IndexView {
        let id = location.pointer.id;
        let filed = if textmap::has_key(self.entries, id) {
            self
        } else {
            IndexView { order: self.order.push(id), ..self }
        };
        let printed = match textmap::lookup(location.pointer.metadata, "fingerprint"@) {
            Some(fingerprint) => if is_observation(location.pointer.kind) {
                IndexView {
                    tool_fingerprints: textmap::inserted(
                        filed.tool_fingerprints,
                        fingerprint,
                        id,
                    ),
                    ..filed
                }
            } else {
                IndexView {
                    message_fingerprints: textmap::inserted(
                        filed.message_fingerprints,
                        fingerprint,
                        id,
                    ),
                    ..filed
                }
            },
            None => filed,
        };
        IndexView { entries: textmap::inserted(printed.entries, id, location), ..printed }
    }

    /// This index with a turn's end noted.
    pub open spec fn with_turn(self, turn_id: Seq<char>, state: MemoryTurnState) -> IndexView {
        IndexView {
            turn_states: textmap::inserted(self.turn_states, turn_id, state),
            ..self
        }
    }
}

pub open spec fn pin_location(location: LocationView, pinned: bool) -> LocationView {
    LocationView { pointer: PointerView { pinned, ..location.pointer }, ..location }
}

/// Tool results and file snapshots share one set of fingerprints, the other
/// kinds another.
pub open spec fn is_observation(kind: MemoryKind) -> bool {
    kind == MemoryKind::ToolResult || kind == MemoryKind::FileSnapshot
}

pub open spec fn empty_index() -> IndexView {
    IndexView {
        entries: Seq::empty(),
        reserved: Seq::empty(),
        order: Seq::empty(),
        message_fingerprints: Seq::empty(),
        tool_fingerprints: Seq::empty(),
        turn_states: Seq::empty(),
    }
}

/// Setting a pin keeps the index well-formed.
pub proof fn lemma_with_pin_wf(index: IndexView, id: Seq<char>, pinned: bool)
    requires
        index.wf(),
    ensures
        index.with_pin(id, pinned).wf(),
        forall|other: Seq<char>|
            other != id ==> #[trigger] index.with_pin(id, pinned).location(other)
                == index.location(other),
        index.location(id) matches Some(location) ==> index.with_pin(id, pinned).location(id)
            == Some(pin_location(location, pinned)),
{
    if let Some(location) = index.location(id) {
        let next = index.with_pin(id, pinned);
        textmap::lemma_inserted(index.entries, id, pin_location(location, pinned));
        assert forall|k: Seq<char>| #[trigger]
            next.order.contains(k) <==> textmap::has_key(next.entries, k) by {
            assert(index.order.contains(k) <==> textmap::has_key(index.entries, k));
        }
        assert forall|k: Seq<char>| (#[trigger] textmap::lookup(
            next.entries,
            k,
        )) is Some implies entry_wf((k, textmap::lookup(next.entries, k)->0)) by {
            if k == id {
                assert(entry_wf((id, location)));
            } else {
                assert(textmap::lookup(next.entries, k) == textmap::lookup(index.entries, k));
            }
        }
    }
}

/// Filing a record keeps the index well-formed, and changes what is found
/// under no other ID.
pub proof fn lemma_with_item_wf(index: IndexView, location: LocationView)
    requires
        index.wf(),
        textmap::sorted(location.pointer.metadata),
    ensures
        index.with_item(location).wf(),
        index.with_item(location).location(location.pointer.id) == Some(location),
        forall|other: Seq<char>|
            other != location.pointer.id ==> #[trigger] index.with_item(location).location(other)
                == index.location(other),
{
    let id = location.pointer.id;
    let next = index.with_item(location);
    textmap::lemma_inserted(index.entries, id, location);
    if let Some(fingerprint) = textmap::lookup(location.pointer.metadata, "fingerprint"@) {
        textmap::lemma_inserted(index.tool_fingerprints, fingerprint, id);
        textmap::lemma_inserted(index.message_fingerprints, fingerprint, id);
    }
    assert(next.entries == textmap::inserted(index.entries, id, location));
    if !textmap::has_key(index.entries, id) {
        assert(!index.order.contains(id));
        assert(next.order == index.order.push(id));
        assert(next.order.no_duplicates());
    }
    assert forall|k: Seq<char>| #[trigger]
        next.order.contains(k) <==> textmap::has_key(next.entries, k) by {
        assert(index.order.contains(k) <==> textmap::has_key(index.entries, k));
        if k == id {
            if !textmap::has_key(index.entries, id) {
                assert(next.order[index.order.len() as int] == id);
            }
        } else {
            assert(textmap::lookup(next.entries, k) == textmap::lookup(index.entries, k));
            if next.order.contains(k) {
                let i = next.order.index_of(k);
                assert(next.order[i] == k);
                assert(index.order[i] == k);
            }
            if index.order.contains(k) {
                let i = index.order.index_of(k);
                assert(next.order[i] == k);
            }
        }
    }
    assert forall|k: Seq<char>| (#[trigger] textmap::lookup(
        next.entries,
        k,
    )) is Some implies entry_wf((k, textmap::lookup(next.entries, k)->0)) by {
        if k != id {
            assert(textmap::lookup(next.entries, k) == textmap::lookup(index.entries, k));
        }
    }
}

pub proof fn lemma_with_turn_wf(index: IndexView, turn_id: Seq<char>, state: MemoryTurnState)
    requires
        index.wf(),
    ensures
        index.with_turn(turn_id, state).wf(),
{
    textmap::lemma_inserted(index.turn_states, turn_id, state);
}

/// Once a turn is aborted, nothing written in it is seen any more, in any turn.
pub proof fn law_aborted_turn_is_invisible(
    index: IndexView,
    turn_id: Seq<char>,
    location: LocationView,
    active_turn: Option<Seq<char>>,
)
    requires
        index.wf(),
        location.turn_id == Some(turn_id),
    ensures
        !index.with_turn(turn_id, MemoryTurnState::Aborted).visible(location, active_turn),
        index.with_turn(turn_id, MemoryTurnState::Committed).visible(location, active_turn),
{
    textmap::lemma_inserted(index.turn_states, turn_id, MemoryTurnState::Aborted);
    textmap::lemma_inserted(index.turn_states, turn_id, MemoryTurnState::Committed);
}

impl StoreIndex {
    pub open spec fn wf(&self) -> bool {
        self@.wf()
    }

    pub fn new() -> (r: StoreIndex)
        ensures
            r@ == empty_index(),
            r.wf(),
    {
        let r = StoreIndex {
            entries: TextMap::new(),
            reserved: Vec::new(),
            order: Vec::new(),
            message_fingerprints: TextMap::new(),
            tool_fingerprints: TextMap::new(),
            turn_states: TextMap::new(),
        };
        assert(r@ =~= empty_index());
        assert forall|id: Seq<char>| #[trigger]
            r@.order.contains(id) <==> textmap::has_key(r@.entries, id) by {
            assert(r@.order.len() == 0);
        }
        r
    }

    /// Whether a record is seen in a turn.
    pub fn location_is_visible(&self, location: &RecordLocation, active_turn: Option<&str>) -> (r:
        bool)
        requires
            self.wf(),
        ensures
            r == self@.visible(location@, text::opt(active_turn)),
    {
        let turn_id = match &location.turn_id {
            None => {
                return true;
            },
            Some(turn_id) => turn_id,
        };
        match self.turn_states.get(turn_id.as_str()) {
            Some(MemoryTurnState::Committed) => true,
            Some(MemoryTurnState::Aborted) => false,
            None => match active_turn {
                Some(active) => text::same(active, turn_id.as_str()),
                None => false,
            },
        }
    }

    /// The pointer for `id`, where it is there and visible.
    pub fn pointer(&self, id: &str, active_turn: Option<&str>) -> (r: Option<MemoryPointer>)
        requires
            self.wf(),
        ensures
            text::opt(r) == self@.pointer(id@, text::opt(active_turn)),
            r matches Some(pointer) ==> pointer.wf(),
    {
        match self.entries.get(id) {
            Some(location) => {
                assert(entry_wf((id@, location@)));
                if self.location_is_visible(location, active_turn) {
                    Some(location.pointer.copy())
                } else {
                    None
                }
            },
            None => None,
        }
    }

    /// The visible pointers, oldest first.
    pub fn pointers(&self, active_turn: Option<&str>) -> (r: Vec<MemoryPointer>)
        requires
            self.wf(),
        ensures
            text::views(r@) == self@.pointers(text::opt(active_turn)),
            forall|i: int| 0 <= i < r@.len() ==> (#[trigger] r@[i]).wf(),
    {
        let mut r: Vec<MemoryPointer> = Vec::new();
        let mut i: usize = 0;
        assert(text::views(r@) =~= self@.pointers_upto(text::opt(active_turn), 0));
        while i < self.order.len()
            invariant
                self.wf(),
                i <= self.order@.len(),
                text::views(r@) == self@.pointers_upto(text::opt(active_turn), i as nat),
                forall|j: int| 0 <= j < r@.len() ==> (#[trigger] r@[j]).wf(),
            decreases self.order@.len() - i,
        {
            assert(self@.order[i as int] == self.order@[i as int]@);
            match self.pointer(self.order[i].as_str(), active_turn) {
                Some(pointer) => {
                    proof {
                        text::lemma_views_push(r@, pointer);
                    }
                    r.push(pointer);
                },
                None => {},
            }
            i = i + 1;
        }
        r
    }

    /// Sets the pin of `id`; says whether `id` has an entry.
    pub fn set_pin(&mut self, id: &str, pinned: bool) -> (r: bool)
        requires
            old(self).wf(),
        ensures
            final(self)@ == old(self)@.with_pin(id@, pinned),
            final(self).wf(),
            r == textmap::has_key(old(self)@.entries, id@),
    {
        proof {
            lemma_with_pin_wf(self@, id@, pinned);
        }
        let location = match self.entries.get(id) {
            Some(location) => location.copy(),
            None => {
                return false;
            },
        };
        let mut location = location;
        location.pointer.pinned = pinned;
        let ghost before = self@;
        self.entries.insert(id.to_owned(), location);
        assert(self@ =~= before.with_pin(id@, pinned));
        true
    }

    /// Files a record.
    pub fn file(&mut self, location: RecordLocation)
        requires
            old(self).wf(),
            location.pointer.wf(),
        ensures
            final(self)@ == old(self)@.with_item(location@),
            final(self).wf(),
    {
        let ghost before = self@;
        proof {
            lemma_with_item_wf(self@, location@);
        }
        let id = location.pointer.id.clone();
        if !self.entries.contains_key(id.as_str()) {
            proof {
                text::lemma_views_push(self.order@, id);
            }
            self.order.push(id.clone());
        }
        match location.pointer.metadata.get("fingerprint") {
            Some(fingerprint) => {
                match location.pointer.kind {
                    MemoryKind::ToolResult => {
                        self.tool_fingerprints.insert(fingerprint.clone(), id.clone());
                    },
                    MemoryKind::FileSnapshot => {
                        self.tool_fingerprints.insert(fingerprint.clone(), id.clone());
                    },
                    _ => {
                        self.message_fingerprints.insert(fingerprint.clone(), id.clone());
                    },
                }
            },
            None => {},
        }
        self.entries.insert(id, location);
        assert(self@ =~= before.with_item(location@));
    }

    /// Notes how a turn ended.
    pub fn note_turn(&mut self, turn_id: String, state: MemoryTurnState)
        requires
            old(self).wf(),
        ensures
            final(self)@ == old(self)@.with_turn(turn_id@, state),
            final(self).wf(),
    {
        proof {
            lemma_with_turn_wf(self@, turn_id@, state);
        }
        let ghost before = self@;
        self.turn_states.insert(turn_id, state);
        assert(self@ =~= before.with_turn(turn_id@, state));
    }
}

// ---------------------------------------------------------------------------
// Reconstruction
// ---------------------------------------------------------------------------

/// What has been learned from the records read so far.
#[verifier::ext_equal]
pub struct ReplayView {
    pub index: IndexView,
    pub next_sequence: u64,
    pub next_turn_sequence: u64,
    pub verified: bool,
    pub plaintext: bool,
}

/// What has been learned from the records read so far.
pub struct Replay {
    pub index: StoreIndex,
    pub next_sequence: u64,
    pub next_turn_sequence: u64,
    pub verified: bool,
    pub plaintext: bool,
}

impl View for Replay {
    type V = ReplayView;

    open spec fn view(&self) -> ReplayView {
        ReplayView {
            index: self.index@,
            next_sequence: self.next_sequence,
            next_turn_sequence: self.next_turn_sequence,
            verified: self.verified,
            plaintext: self.plaintext,
        }
    }
}

pub open spec fn fresh_replay() -> ReplayView {
    ReplayView {
        index: empty_index(),
        next_sequence: 0,
        next_turn_sequence: 0,
        verified: false,
        plaintext: false,
    }
}

/// One more than `n`, without wrapping.
pub open spec fn after(n: u64) -> u64 {
    if n == u64::MAX {
        u64::MAX
    } else {
        (n + 1) as u64
    }
}

pub open spec fn max_u64(a: u64, b: u64) -> u64 {
    if a >= b {
        a
    } else {
        b
    }
}

/// The turn sequence that comes after the one in `turn_id`.
pub open spec fn after_turn(turn_id: Seq<char>) -> u64 {
    match ids::turn_sequence(turn_id) {
        Some(n) => after(n),
        None => 0,
    }
}

pub open spec fn locked_message() -> Seq<char> {
    "memory content is encrypted; set ZEX_MEMORY_ENCRYPTION_KEY to unlock it"@
}

/// Why the first encrypted item cannot be unlocked.
pub open spec fn unlock_complaint(item: ItemView, cipher: Option<CipherView>) -> Option<
    Seq<char>,
> {
    match item.encryption {
        None => None,
        Some(encryption) => match cipher {
            None => Some(locked_message()),
            Some(cipher) => match secure::decrypted(
                cipher.key,
                item.pointer.id,
                item.content,
                encryption,
            ) {
                Ok(_) => None,
                Err(message) => Some(message),
            },
        },
    }
}

/// What is learned from an item.
pub open spec fn after_item(
    replay: ReplayView,
    item: ItemView,
    offset: u64,
    length: usize,
) -> ReplayView {
    let turned = match item.turn_id {
        Some(turn_id) => if textmap::has_key(replay.index.turn_states, turn_id) {
            replay.index
        } else {
            replay.index.with_turn(turn_id, MemoryTurnState::Aborted)
        },
        None => replay.index,
    };
    ReplayView {
        index: turned.with_item(
            LocationView { offset, length, pointer: item.pointer, turn_id: item.turn_id },
        ),
        // Sequences come from the IDs themselves, not from a running count:
        // retention drops records from the middle, so counting would hand out
        // a sequence that a surviving record still owns.
        next_sequence: max_u64(
            replay.next_sequence,
            after(ids::memory_sequence(item.pointer.id)),
        ),
        next_turn_sequence: match item.turn_id {
            Some(turn_id) => max_u64(replay.next_turn_sequence, after_turn(turn_id)),
            None => replay.next_turn_sequence,
        },
        verified: replay.verified || item.encryption is Some,
        plaintext: replay.plaintext || item.encryption is None,
    }
}

/// What is learned from a record, or why it cannot be taken.
pub open spec fn after_record(
    replay: ReplayView,
    record: RecordView,
    offset: u64,
    length: usize,
    cipher: Option<CipherView>,
) -> Result<ReplayView, Seq<char>> {
    match record {
        RecordView::Item { item } => {
            let locked = if replay.verified {
                None
            } else {
                unlock_complaint(item, cipher)
            };
            match locked {
                Some(message) => Err(message),
                None => if !ids::valid_id(item.pointer.id) {
                    Err(ids::id_complaint(item.pointer.id))
                } else {
                    Ok(after_item(replay, item, offset, length))
                },
            }
        },
        RecordView::Turn { turn_id, state } => Ok(
            ReplayView {
                index: replay.index.with_turn(turn_id, state),
                next_turn_sequence: max_u64(replay.next_turn_sequence, after_turn(turn_id)),
                ..replay
            },
        ),
        RecordView::Audit { audit } => Ok(
            match audit.action {
                AuditAction::Pin => ReplayView {
                    index: replay.index.with_pin(audit.id, true),
                    ..replay
                },
                AuditAction::Unpin => ReplayView {
                    index: replay.index.with_pin(audit.id, false),
                    ..replay
                },
                _ => replay,
            },
        ),
    }
}

/// The end of the line that starts at `from`: behind its line feed, or the end
/// of the bytes.
pub open spec fn line_end(bytes: Seq<u8>, from: int) -> int
    decreases bytes.len() - from,
{
    if from >= bytes.len() {
        bytes.len() as int
    } else if bytes[from] == 10 {
        from + 1
    } else {
        line_end(bytes, from + 1)
    }
}

pub open spec fn strip_byte(line: Seq<u8>, byte: u8) -> Seq<u8> {
    if line.len() > 0 && line.last() == byte {
        line.drop_last()
    } else {
        line
    }
}

/// A line without its line feed and a carriage return before it.
pub open spec fn without_line_ending(line: Seq<u8>) -> Seq<u8> {
    strip_byte(strip_byte(line, 10), 13)
}

/// The record that a line holds.
pub open spec fn line_record(line: Seq<u8>) -> Option<RecordView> {
    match json::parsed_json(without_line_ending(line)) {
        Ok(value) => record::record_of(value),
        Err(_) => None,
    }
}

/// The message on a line that holds no record: it names the line, and not what
/// is wrong with it.
pub open spec fn bad_line_message(path: Seq<char>, line_number: nat) -> Seq<char> {
    "failed to parse memory store "@ + path + " line "@ + text::decimal(line_number)
}

/// The line that a record is stored as.
pub open spec fn line_of(record: RecordView) -> Seq<u8> {
    encode_utf8(json::json_text(record::record_json(record))).push(10u8)
}

/// The bytes of a store that holds `records`.
pub open spec fn stored_bytes(records: Seq<RecordView>) -> Seq<u8>
    decreases records.len(),
{
    if records.len() == 0 {
        Seq::empty()
    } else {
        stored_bytes(records.drop_last()) + line_of(records.last())
    }
}

/// Whether every record can be read back as it is.
pub open spec fn all_storable(records: Seq<RecordView>) -> bool {
    forall|i: int| 0 <= i < records.len() ==> readback::storable(#[trigger] records[i])
}

/// What is learned from `records`, or why they cannot be taken.
pub open spec fn replayed(records: Seq<RecordView>, cipher: Option<CipherView>) -> Result<
    ReplayView,
    Seq<char>,
>
    decreases records.len(),
{
    if records.len() == 0 {
        Ok(fresh_replay())
    } else {
        match replayed(records.drop_last(), cipher) {
            Ok(replay) => after_record(
                replay,
                records.last(),
                stored_bytes(records.drop_last()).len() as u64,
                line_of(records.last()).len() as usize,
                cipher,
            ),
            Err(message) => Err(message),
        }
    }
}

/// What opening a store that holds just `records` gives: nothing is cut off.
pub open spec fn complete(replay: Result<ReplayView, Seq<char>>) -> Result<
    (ReplayView, Option<u64>),
    Seq<char>,
> {
    match replay {
        Ok(replay) => Ok((replay, None)),
        Err(message) => Err(message),
    }
}

/// Whether the first `count` of `records` take up `offset` bytes, and `replay`
/// is learned from them.
pub open spec fn read_upto(
    records: Seq<RecordView>,
    count: nat,
    offset: nat,
    replay: ReplayView,
    cipher: Option<CipherView>,
) -> bool {
    &&& count <= records.len()
    &&& stored_bytes(records.take(count as int)).len() == offset
    &&& replayed(records.take(count as int), cipher) == Ok::<ReplayView, Seq<char>>(replay)
}

proof fn lemma_stored_prefix(records: Seq<RecordView>, k: int)
    requires
        0 <= k <= records.len(),
    ensures
        stored_bytes(records.take(k)).len() <= stored_bytes(records).len(),
        stored_bytes(records).take(stored_bytes(records.take(k)).len() as int) == stored_bytes(
            records.take(k),
        ),
    decreases records.len() - k,
{
    if k == records.len() {
        assert(records.take(k) =~= records);
        assert(stored_bytes(records).take(stored_bytes(records).len() as int) =~= stored_bytes(
            records,
        ));
    } else {
        lemma_stored_prefix(records, k + 1);
        assert(records.take(k + 1).drop_last() =~= records.take(k));
        let upto = stored_bytes(records.take(k + 1));
        let before = stored_bytes(records.take(k));
        assert(upto.take(before.len() as int) =~= before);
        assert(stored_bytes(records).take(before.len() as int) =~= upto.take(before.len() as int));
    }
}

proof fn lemma_line_end_at(bytes: Seq<u8>, from: int, to: int)
    requires
        0 <= from < to <= bytes.len(),
        bytes[to - 1] == 10,
        forall|i: int| from <= i < to - 1 ==> bytes[i] != 10,
    ensures
        line_end(bytes, from) == to,
    decreases to - from,
{
    if from < to - 1 {
        lemma_line_end_at(bytes, from + 1, to);
    }
}

/// Line number `k` of a store holds record number `k`.
proof fn lemma_line_at(records: Seq<RecordView>, k: int)
    requires
        all_storable(records),
        0 <= k < records.len(),
    ensures
        ({
            let bytes = stored_bytes(records);
            let at = stored_bytes(records.take(k)).len() as int;
            let end = stored_bytes(records.take(k + 1)).len() as int;
            &&& at < end <= bytes.len()
            &&& bytes.subrange(at, end) == line_of(records[k])
            &&& line_end(bytes, at) == end
        }),
{
    let bytes = stored_bytes(records);
    let before = stored_bytes(records.take(k));
    let upto = stored_bytes(records.take(k + 1));
    assert(records.take(k + 1).drop_last() =~= records.take(k));
    assert(records.take(k + 1).last() == records[k]);
    lemma_stored_prefix(records, k + 1);
    assert(readback::storable(records[k]));
    readback::lemma_line_of(records[k]);
    let line = line_of(records[k]);
    let at = before.len() as int;
    let end = upto.len() as int;
    assert(bytes.take(end) == before + line);
    assert forall|i: int| at <= i < end implies #[trigger] bytes[i] == line[i - at] by {
        assert(bytes.take(end)[i] == bytes[i]);
    }
    assert(bytes.subrange(at, end) =~= line);
    lemma_line_end_at(bytes, at, end);
}

proof fn lemma_replayed_err(records: Seq<RecordView>, k: int, cipher: Option<CipherView>)
    requires
        0 <= k <= records.len(),
        replayed(records.take(k), cipher) is Err,
    ensures
        replayed(records, cipher) == replayed(records.take(k), cipher),
    decreases records.len() - k,
{
    if k == records.len() {
        assert(records.take(k) =~= records);
    } else {
        assert(records.take(k + 1).drop_last() =~= records.take(k));
        lemma_replayed_err(records, k + 1, cipher);
    }
}

/// What is learned from the records of a store from `offset` on, and where an
/// incomplete last line is to be cut off.
pub open spec fn replay_from(
    bytes: Seq<u8>,
    offset: int,
    line_number: nat,
    replay: ReplayView,
    cipher: Option<CipherView>,
    path: Seq<char>,
) -> Result<(ReplayView, Option<u64>), Seq<char>>
    decreases bytes.len() - offset,
    via replay_from_decreases
{
    if offset >= bytes.len() {
        Ok((replay, None))
    } else {
        let end = line_end(bytes, offset);
        let line = bytes.subrange(offset, end);
        match line_record(line) {
            None => if line.last() != 10 {
                Ok((replay, Some(offset as u64)))
            } else {
                Err(bad_line_message(path, line_number))
            },
            Some(record) => match after_record(
                replay,
                record,
                offset as u64,
                line.len() as usize,
                cipher,
            ) {
                Ok(next) => replay_from(bytes, end, line_number + 1, next, cipher, path),
                Err(message) => Err(message),
            },
        }
    }
}

#[via_fn]
proof fn replay_from_decreases(
    bytes: Seq<u8>,
    offset: int,
    line_number: nat,
    replay: ReplayView,
    cipher: Option<CipherView>,
    path: Seq<char>,
) {
    if offset < bytes.len() {
        lemma_line_end(bytes, offset);
    }
}

pub proof fn lemma_line_end(bytes: Seq<u8>, from: int)
    requires
        from < bytes.len(),
    ensures
        from < line_end(bytes, from) <= bytes.len(),
    decreases bytes.len() - from,
{
    reveal_with_fuel(line_end, 2);
    if bytes[from] != 10 && from + 1 < bytes.len() {
        lemma_line_end(bytes, from + 1);
    }
}

/// The end of the line that starts at `from`.
fn line_end_of(bytes: &[u8], from: usize) -> (end: usize)
    requires
        from < bytes@.len(),
    ensures
        end == line_end(bytes@, from as int),
        from < end <= bytes@.len(),
{
    let mut i: usize = from;
    while i < bytes.len() && bytes[i] != 10
        invariant
            from <= i <= bytes@.len(),
            from < bytes@.len(),
            line_end(bytes@, from as int) == line_end(bytes@, i as int),
        decreases bytes@.len() - i,
    {
        i = i + 1;
    }
    proof {
        lemma_line_end(bytes@, from as int);
    }
    if i < bytes.len() {
        i + 1
    } else {
        i
    }
}

/// The bytes `from..to`, copied.
pub fn copy_bytes(bytes: &[u8], from: usize, to: usize) -> (r: Vec<u8>)
    requires
        from <= to <= bytes@.len(),
    ensures
        r@ == bytes@.subrange(from as int, to as int),
{
    let mut r: Vec<u8> = Vec::new();
    let mut i: usize = from;
    while i < to
        invariant
            from <= i <= to <= bytes@.len(),
            r@ == bytes@.subrange(from as int, i as int),
        decreases to - i,
    {
        r.push(bytes[i]);
        i = i + 1;
        assert(r@ =~= bytes@.subrange(from as int, i as int));
    }
    r
}

/// A line without its line feed and a carriage return before it.
pub fn trim_line_ending(line: &[u8]) -> (r: Vec<u8>)
    ensures
        r@ == without_line_ending(line@),
{
    let mut n: usize = line.len();
    if n > 0 && line[n - 1] == 10 {
        n = n - 1;
    }
    assert(strip_byte(line@, 10) =~= line@.subrange(0, n as int));
    if n > 0 && line[n - 1] == 13 {
        n = n - 1;
    }
    assert(without_line_ending(line@) =~= line@.subrange(0, n as int));
    copy_bytes(line, 0, n)
}

/// The record that a line holds.
pub fn parse_line(line: &[u8]) -> (r: Option<StoreRecord>)
    ensures
        text::opt(r) == line_record(line@),
        r matches Some(StoreRecord::Item { item }) ==> item.pointer.wf(),
        forall|record: RecordView|
            #![trigger line_of(record)]
            readback::storable(record) && line@ == line_of(record) ==> line_record(line@) == Some(
                record,
            ),
{
    let payload = trim_line_ending(line);
    proof {
        assert forall|record: RecordView|
            #![trigger line_of(record)]
            readback::storable(record) && line@ == line_of(record) implies json::plain(
            record::record_json(record),
            json::MAX_DEPTH as nat,
        ) && record::record_of(json::canonical(record::record_json(record))) == Some(record)
            && payload@ == encode_utf8(json::json_text(record::record_json(record))) by {
            readback::law_record_is_read_back(record);
            readback::lemma_record_line(record);
            json::lemma_plain_deeper(
                record::record_json(record),
                3,
                json::MAX_DEPTH as nat,
            );
        }
    }
    match json::parse_json(payload.as_slice()) {
        Ok(value) => record::record_from(&value),
        Err(_) => None,
    }
}

/// The model of an optional cipher.
pub open spec fn cipher_view(cipher: Option<&Cipher>) -> Option<CipherView> {
    match cipher {
        Some(cipher) => Some(cipher@),
        None => None,
    }
}

pub open spec fn cipher_wf(cipher: Option<&Cipher>) -> bool {
    cipher matches Some(cipher) ==> cipher.wf()
}

fn unlock(item: &MemoryItem, cipher: Option<&Cipher>) -> (r: Result<(), String>)
    requires
        cipher_wf(cipher),
    ensures
        match r {
            Ok(_) => unlock_complaint(item@, cipher_view(cipher)) is None,
            Err(message) => unlock_complaint(item@, cipher_view(cipher)) == Some(message@),
        },
{
    match &item.encryption {
        None => Ok(()),
        Some(encryption) => match cipher {
            None => Err(
                "memory content is encrypted; set ZEX_MEMORY_ENCRYPTION_KEY to unlock it".to_owned(),
            ),
            Some(cipher) => match cipher.decrypt(
                item.pointer.id.as_str(),
                item.content.as_str(),
                encryption,
            ) {
                Ok(_) => Ok(()),
                Err(message) => Err(message),
            },
        },
    }
}

fn after_turn_of(turn_id: &str) -> (r: u64)
    ensures
        r == after_turn(turn_id@),
{
    match ids::sequence_from_turn_id(turn_id) {
        Some(n) => n.saturating_add(1),
        None => 0,
    }
}

impl Replay {
    pub open spec fn wf(&self) -> bool {
        self.index.wf()
    }

    fn take_item(&mut self, item: MemoryItem, offset: u64, length: usize, cipher: Option<&Cipher>)
        -> (r: Result<(), String>)
        requires
            old(self).wf(),
            item.pointer.wf(),
            cipher_wf(cipher),
        ensures
            final(self).wf(),
            match after_record(
                old(self)@,
                RecordView::Item { item: item@ },
                offset,
                length,
                cipher_view(cipher),
            ) {
                Ok(next) => r is Ok && final(self)@ == next,
                Err(message) => r matches Err(m) && m@ == message,
            },
    {
        let ghost before = self@;
        if !self.verified {
            match unlock(&item, cipher) {
                Ok(_) => {},
                Err(message) => {
                    return Err(message);
                },
            }
        }
        match ids::validate_memory_id(item.pointer.id.as_str()) {
            Ok(_) => {},
            Err(message) => {
                return Err(message);
            },
        }
        match &item.turn_id {
            Some(turn_id) => {
                let next: u64 = after_turn_of(turn_id.as_str());
                if next > self.next_turn_sequence {
                    self.next_turn_sequence = next;
                }
                if !self.index.turn_states.contains_key(turn_id.as_str()) {
                    self.index.note_turn(turn_id.clone(), MemoryTurnState::Aborted);
                }
            },
            None => {},
        }
        let next: u64 = ids::sequence_from_memory_id(item.pointer.id.as_str()).saturating_add(1);
        if next > self.next_sequence {
            self.next_sequence = next;
        }
        if item.encryption.is_some() {
            self.verified = true;
        } else {
            self.plaintext = true;
        }
        self.index.file(
            RecordLocation { offset, length, pointer: item.pointer, turn_id: item.turn_id },
        );
        assert(self@ =~= after_item(before, item@, offset, length));
        Ok(())
    }

    fn take_record(
        &mut self,
        record: StoreRecord,
        offset: u64,
        length: usize,
        cipher: Option<&Cipher>,
    ) -> (r: Result<(), String>)
        requires
            old(self).wf(),
            record matches StoreRecord::Item { item } ==> item.pointer.wf(),
            cipher_wf(cipher),
        ensures
            final(self).wf(),
            match after_record(old(self)@, record@, offset, length, cipher_view(cipher)) {
                Ok(next) => r is Ok && final(self)@ == next,
                Err(message) => r matches Err(m) && m@ == message,
            },
    {
        let ghost before = self@;
        match record {
            StoreRecord::Item { item } => self.take_item(item, offset, length, cipher),
            StoreRecord::Turn { turn_id, state } => {
                let next: u64 = after_turn_of(turn_id.as_str());
                if next > self.next_turn_sequence {
                    self.next_turn_sequence = next;
                }
                self.index.note_turn(turn_id, state);
                Ok(())
            },
            StoreRecord::Audit { audit } => {
                match audit.action {
                    AuditAction::Pin => {
                        self.index.set_pin(audit.id.as_str(), true);
                    },
                    AuditAction::Unpin => {
                        self.index.set_pin(audit.id.as_str(), false);
                    },
                    _ => {},
                }
                Ok(())
            },
        }
    }
}

/// Rebuilds the index of a store from its bytes, and says where an incomplete
/// last line is to be cut off.
pub fn replay_records(bytes: &[u8], cipher: Option<&Cipher>, path: &str) -> (r: Result<
    (Replay, Option<u64>),
    String,
>)
    requires
        cipher_wf(cipher),
    ensures
        match replay_from(bytes@, 0, 1, fresh_replay(), cipher_view(cipher), path@) {
            Ok((replay, cut)) => r matches Ok((got, at)) && got@ == replay && got.wf() && at == cut,
            Err(message) => r matches Err(m) && m@ == message,
        },
        forall|records: Seq<RecordView>|
            #[trigger] stored_bytes(records) == bytes@ && all_storable(records) ==> replay_from(
                bytes@,
                0,
                1,
                fresh_replay(),
                cipher_view(cipher),
                path@,
            ) == complete(replayed(records, cipher_view(cipher))),
{
    let ghost lock = cipher_view(cipher);
    let mut replay = Replay {
        index: StoreIndex::new(),
        next_sequence: 0,
        next_turn_sequence: 0,
        verified: false,
        plaintext: false,
    };
    assert(replay@ =~= fresh_replay());
    let ghost goal = replay_from(bytes@, 0, 1, fresh_replay(), cipher_view(cipher), path@);
    let mut offset: usize = 0;
    let mut lines_read: u64 = 0;
    assert forall|records: Seq<RecordView>| #[trigger]
        stored_bytes(records) == bytes@ implies read_upto(records, 0, 0, replay@, lock) by {
        assert(records.take(0) =~= Seq::<RecordView>::empty());
    }
    while offset < bytes.len()
        invariant
            cipher_wf(cipher),
            lock == cipher_view(cipher),
            forall|records: Seq<RecordView>|
                #[trigger] stored_bytes(records) == bytes@ && all_storable(records) ==> read_upto(
                    records,
                    lines_read as nat,
                    offset as nat,
                    replay@,
                    lock,
                ),
            offset <= bytes@.len(),
            lines_read <= offset,
            replay.wf(),
            goal == replay_from(
                bytes@,
                offset as int,
                lines_read as nat + 1,
                replay@,
                cipher_view(cipher),
                path@,
            ),
            goal == replay_from(bytes@, 0, 1, fresh_replay(), cipher_view(cipher), path@),
        decreases bytes@.len() - offset,
    {
        let end: usize = line_end_of(bytes, offset);
        let line = copy_bytes(bytes, offset, end);
        let ended = line[line.len() - 1] == 10;
        let ghost before = replay@;
        proof {
            assert forall|records: Seq<RecordView>| #[trigger]
                stored_bytes(records) == bytes@ && all_storable(records) implies lines_read
                < records.len() && line@ == line_of(records[lines_read as int]) && end
                == stored_bytes(records.take(lines_read + 1)).len() && readback::storable(
                records[lines_read as int],
            ) by {
                assert(read_upto(records, lines_read as nat, offset as nat, before, lock));
                if lines_read == records.len() {
                    assert(records.take(lines_read as int) =~= records);
                }
                lemma_line_at(records, lines_read as int);
            }
        }
        match parse_line(line.as_slice()) {
            None => {
                if !ended {
                    return Ok((replay, Some(offset as u64)));
                }
                let mut message = "failed to parse memory store ".to_owned();
                message.append(path);
                message.append(" line ");
                let number = text::decimal_of(lines_read + 1);
                message.append(number.as_str());
                return Err(message);
            },
            Some(record) => {
                let ghost seen = record@;
                let taken = replay.take_record(record, offset as u64, line.len(), cipher);
                proof {
                    assert forall|records: Seq<RecordView>| #[trigger]
                        stored_bytes(records) == bytes@ && all_storable(records) implies replayed(
                        records.take(lines_read + 1),
                        lock,
                    ) == after_record(before, seen, offset as u64, line.len() as usize, lock) by {
                        assert(read_upto(records, lines_read as nat, offset as nat, before, lock));
                        let upto = records.take(lines_read + 1);
                        assert(upto.drop_last() =~= records.take(lines_read as int));
                        assert(upto.last() == records[lines_read as int]);
                    }
                }
                match taken {
                    Ok(_) => {},
                    Err(message) => {
                        proof {
                            assert forall|records: Seq<RecordView>| #[trigger]
                                stored_bytes(records) == bytes@ && all_storable(records) implies goal
                                == complete(replayed(records, lock)) by {
                                lemma_replayed_err(records, lines_read + 1, lock);
                            }
                        }
                        return Err(message);
                    },
                }
            },
        }
        offset = end;
        lines_read = lines_read + 1;
    }
    proof {
        assert forall|records: Seq<RecordView>| #[trigger]
            stored_bytes(records) == bytes@ && all_storable(records) implies goal == complete(
            replayed(records, lock),
        ) by {
            assert(read_upto(records, lines_read as nat, offset as nat, replay@, lock));
            if lines_read < records.len() {
                lemma_line_at(records, lines_read as int);
            }
            assert(records.take(lines_read as int) =~= records);
        }
    }
    Ok((replay, None))
}

proof fn lemma_pointers_are_listed(
    index: IndexView,
    active_turn: Option<Seq<char>>,
    n: nat,
) -> (places: Seq<int>)
    requires
        n <= index.order.len(),
    ensures
        ({
            let list = index.pointers_upto(active_turn, n);
            &&& places.len() == list.len()
            &&& forall|k: int|
                0 <= k < places.len() ==> 0 <= #[trigger] places[k] < n && index.pointer(
                    index.order[places[k]],
                    active_turn,
                ) == Some(list[k])
            &&& forall|j: int, k: int|
                0 <= j < k < places.len() ==> #[trigger] places[j] < #[trigger] places[k]
            &&& forall|i: int|
                0 <= i < n && index.pointer(#[trigger] index.order[i], active_turn) is Some
                    ==> places.contains(i)
        }),
    decreases n,
{
    if n == 0 {
        Seq::empty()
    } else {
        let last: int = n - 1;
        let before = lemma_pointers_are_listed(index, active_turn, last as nat);
        let earlier = index.pointers_upto(active_turn, last as nat);
        let list = index.pointers_upto(active_turn, n);
        let places = if index.pointer(index.order[last], active_turn) is Some {
            before.push(last)
        } else {
            before
        };
        assert forall|k: int| 0 <= k < places.len() implies 0 <= #[trigger] places[k] < n
            && index.pointer(index.order[places[k]], active_turn) == Some(list[k]) by {
            if k < before.len() {
                assert(places[k] == before[k]);
                assert(list[k] == earlier[k]);
            }
        }
        assert forall|i: int|
            0 <= i < n && index.pointer(
                #[trigger] index.order[i],
                active_turn,
            ) is Some implies places.contains(i) by {
            if i < last {
                assert(before.contains(i));
                assert(places[before.index_of(i)] == i);
            } else {
                assert(places[before.len() as int] == i);
            }
        }
        places
    }
}

/// The pointers of an index are those of its visible records, all of them, in
/// the order in which the records were filed.
pub proof fn law_visible_records_are_listed(
    index: IndexView,
    active_turn: Option<Seq<char>>,
) -> (places: Seq<int>)
    ensures
        ({
            let list = index.pointers(active_turn);
            &&& places.len() == list.len()
            &&& forall|k: int|
                0 <= k < places.len() ==> 0 <= #[trigger] places[k] < index.order.len()
                    && index.pointer(index.order[places[k]], active_turn) == Some(list[k])
            &&& forall|j: int, k: int|
                0 <= j < k < places.len() ==> #[trigger] places[j] < #[trigger] places[k]
            &&& forall|i: int|
                0 <= i < index.order.len() && index.pointer(
                    #[trigger] index.order[i],
                    active_turn,
                ) is Some ==> places.contains(i)
        }),
{
    lemma_pointers_are_listed(index, active_turn, index.order.len())
}

/// A record that is filed is found under its ID as it was filed, where it may be
/// seen: outside of any turn, in its own turn, and once that was committed. Every
/// other record stays as it was.
pub proof fn law_filed_record_is_found(
    index: IndexView,
    location: LocationView,
    other: Seq<char>,
    active_turn: Option<Seq<char>>,
)
    requires
        textmap::sorted(index.entries),
    ensures
        ({
            let id = location.pointer.id;
            let next = index.with_item(location);
            &&& next.location(id) == Some(location)
            &&& location.turn_id is None ==> next.pointer(id, active_turn) == Some(location.pointer)
            &&& location.turn_id matches Some(turn) ==> {
                &&& textmap::lookup(index.turn_states, turn) is None ==> (next.pointer(
                    id,
                    active_turn,
                ) == if active_turn == Some(turn) {
                    Some(location.pointer)
                } else {
                    None
                })
                &&& textmap::lookup(index.turn_states, turn) == Some(MemoryTurnState::Committed)
                    ==> next.pointer(id, active_turn) == Some(location.pointer)
                &&& textmap::lookup(index.turn_states, turn) == Some(MemoryTurnState::Aborted)
                    ==> next.pointer(id, active_turn) is None
            }
            &&& other != id ==> next.location(other) == index.location(other) && next.pointer(
                other,
                active_turn,
            ) == index.pointer(other, active_turn)
            &&& textmap::has_key(index.entries, id) ==> next.order == index.order
            &&& !textmap::has_key(index.entries, id) ==> next.order == index.order.push(id)
        }),
{
    textmap::lemma_inserted(index.entries, location.pointer.id, location);
}

/// Pinning a record sets its pin and nothing else, of this record or another.
pub proof fn law_pinning_sets_the_pin(
    index: IndexView,
    id: Seq<char>,
    pinned: bool,
    other: Seq<char>,
    active_turn: Option<Seq<char>>,
)
    requires
        textmap::sorted(index.entries),
    ensures
        ({
            let next = index.with_pin(id, pinned);
            &&& next.order == index.order
            &&& next.turn_states == index.turn_states
            &&& next.pointer(id, active_turn) == match index.pointer(id, active_turn) {
                Some(p) => Some(PointerView { pinned, ..p }),
                None => None,
            }
            &&& other != id ==> next.pointer(other, active_turn) == index.pointer(
                other,
                active_turn,
            )
        }),
{
    if let Some(location) = index.location(id) {
        textmap::lemma_inserted(index.entries, id, pin_location(location, pinned));
    }
}

proof fn lemma_line_ends_within(first: Seq<u8>, more: Seq<u8>, from: int)
    requires
        0 <= from < first.len(),
        first.last() == 10,
    ensures
        from < line_end(first, from) <= first.len(),
        line_end(first + more, from) == line_end(first, from),
        first[line_end(first, from) - 1] == 10,
    decreases first.len() - from,
{
    let all = first + more;
    assert(all[from] == first[from]);
    if first[from] != 10 {
        assert(from + 1 < first.len());
        lemma_line_ends_within(first, more, from + 1);
    }
}

/// Records are taken up line by line: what complete lines hold is taken up as if
/// nothing came after them, and then reading goes on with what does come, at
/// the line after theirs. A record in them that cannot be taken up is the
/// answer whatever comes after.
pub proof fn law_records_are_taken_up_in_turn(
    first: Seq<u8>,
    more: Seq<u8>,
    offset: int,
    line_number: nat,
    replay: ReplayView,
    cipher: Option<CipherView>,
    path: Seq<char>,
) -> (next_line: nat)
    requires
        0 <= offset <= first.len(),
        first.len() > 0 ==> first.last() == 10,
    ensures
        next_line >= line_number,
        match replay_from(first, offset, line_number, replay, cipher, path) {
            Err(message) => replay_from(first + more, offset, line_number, replay, cipher, path)
                == Err::<(ReplayView, Option<u64>), Seq<char>>(message),
            Ok((done, torn)) => torn is None && replay_from(
                first + more,
                offset,
                line_number,
                replay,
                cipher,
                path,
            ) == replay_from(first + more, first.len() as int, next_line, done, cipher, path),
        },
    decreases first.len() - offset,
{
    let all = first + more;
    if offset >= first.len() {
        line_number
    } else {
        lemma_line_ends_within(first, more, offset);
        let end = line_end(first, offset);
        let line = first.subrange(offset, end);
        assert(all.subrange(offset, end) =~= line);
        assert(line.last() == 10);
        match line_record(line) {
            None => line_number,
            Some(record) => match after_record(
                replay,
                record,
                offset as u64,
                line.len() as usize,
                cipher,
            ) {
                Ok(next) => law_records_are_taken_up_in_turn(
                    first,
                    more,
                    end,
                    line_number + 1,
                    next,
                    cipher,
                    path,
                ),
                Err(_) => line_number,
            },
        }
    }
}

proof fn lemma_no_line_end(bytes: Seq<u8>, from: int)
    requires
        0 <= from <= bytes.len(),
        forall|i: int| from <= i < bytes.len() ==> bytes[i] != 10,
    ensures
        line_end(bytes, from) == bytes.len(),
    decreases bytes.len() - from,
{
    if from < bytes.len() {
        lemma_no_line_end(bytes, from + 1);
    }
}

/// A last line that was cut off before its end is left out, and where it begins
/// is told; what the complete lines before it hold stays.
pub proof fn law_torn_line_is_left_out(
    whole: Seq<u8>,
    tail: Seq<u8>,
    line_number: nat,
    replay: ReplayView,
    cipher: Option<CipherView>,
    path: Seq<char>,
)
    requires
        whole.len() > 0 ==> whole.last() == 10,
        tail.len() > 0,
        !tail.contains(10),
        line_record(tail) is None,
    ensures
        replay_from(whole, 0, line_number, replay, cipher, path) matches Ok((done, _))
            ==> replay_from(whole + tail, 0, line_number, replay, cipher, path) == Ok::<
            (ReplayView, Option<u64>),
            Seq<char>,
        >((done, Some(whole.len() as u64))),
{
    let next_line = law_records_are_taken_up_in_turn(
        whole,
        tail,
        0,
        line_number,
        replay,
        cipher,
        path,
    );
    let all = whole + tail;
    let at = whole.len() as int;
    assert forall|i: int| at <= i < all.len() implies all[i] != 10 by {
        assert(all[i] == tail[i - at]);
        assert(tail.contains(tail[i - at]));
    }
    lemma_no_line_end(all, at);
    assert(all.subrange(at, all.len() as int) =~= tail);
    assert(tail.contains(tail.last()));
}

} // verus!
