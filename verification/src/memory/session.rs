//! The memory of one session: opening, storing, reading and pinning.
use crate::agent::message;
use crate::json;
use crate::json::{Json, JsonView};
use crate::memory::cache;
use crate::memory::cache::HotCache;
use crate::memory::hash;
use crate::memory::ids;
use crate::memory::index;
use crate::memory::index::{IndexView, LocationView, RecordLocation, ReplayView, StoreIndex};
use crate::memory::pointers;
use crate::memory::record;
use crate::memory::record::{
    AuditEvent, AuditView, ItemView, MemoryItem, MemoryKind, MemoryPointer, MemoryTurnState,
    PointerView, RecordView, StoreRecord,
};
use crate::secure;
use crate::secure::{Cipher, CipherView, EncryptionKey};
use crate::text;
use crate::textmap;
use crate::textmap::TextMap;
use vstd::prelude::*;
use vstd::string::*;
use vstd::utf8::*;

verus! {

pub const RECORDS_FILE: &'static str = "records.jsonl";

pub const AUDIT_FILE: &'static str = "audit.jsonl";

pub const PIN_STATE_FILE: &'static str = "pin-state.json";

pub const PIN_STATE_FORMAT: u8 = 1;

pub const AUDIT_ARCHIVE_LIMIT: usize = 4;

pub const AUDIT_ROTATE_BYTES: u64 = 4 * 1024 * 1024;

/// The memory of one session. The bytes of its records stay in a file; this
/// holds the index into them.
pub struct SessionMemory {
    pub session_id: String,
    pub records_path: String,
    pub session_hash: u64,
    pub next_sequence: u64,
    pub next_turn_sequence: u64,
    pub index: StoreIndex,
    pub pin_overrides: TextMap<bool>,
    pub cache: HotCache,
    pub cipher: Option<Cipher>,
    pub needs_encryption_migration: bool,
}

/// What a [`SessionMemory`] holds.
#[verifier::ext_equal]
pub struct SessionView {
    pub session_id: Seq<char>,
    pub records_path: Seq<char>,
    pub session_hash: u64,
    pub next_sequence: u64,
    pub next_turn_sequence: u64,
    pub index: IndexView,
    pub pin_overrides: Seq<(Seq<char>, bool)>,
    pub cache: Seq<(Seq<char>, Seq<char>)>,
    pub cache_capacity: usize,
    pub cipher: Option<CipherView>,
    pub needs_encryption_migration: bool,
}

impl View for SessionMemory {
    type V = SessionView;

    open spec fn view(&self) -> SessionView {
        SessionView {
            session_id: self.session_id@,
            records_path: self.records_path@,
            session_hash: self.session_hash,
            next_sequence: self.next_sequence,
            next_turn_sequence: self.next_turn_sequence,
            index: self.index@,
            pin_overrides: self.pin_overrides@,
            cache: self.cache@,
            cache_capacity: self.cache.capacity,
            cipher: text::opt(self.cipher),
            needs_encryption_migration: self.needs_encryption_migration,
        }
    }
}

// ---------------------------------------------------------------------------
// Pin state
// ---------------------------------------------------------------------------

/// The map of booleans that the fields of an object make.
pub open spec fn bool_entries(fields: Seq<(Seq<char>, JsonView)>) -> Option<Seq<(Seq<char>, bool)>>
    decreases fields.len(),
{
    if fields.len() == 0 {
        Some(Seq::empty())
    } else {
        match (bool_entries(fields.drop_last()), fields.last().1) {
            (Some(entries), JsonView::Bool(b)) => Some(
                textmap::inserted(entries, fields.last().0, b),
            ),
            _ => None,
        }
    }
}

/// The format and the overrides that a pin state denotes.
pub open spec fn pin_state_of(value: JsonView) -> Option<(u8, Seq<(Seq<char>, bool)>)> {
    let value = value.seated(seq!["format", "overrides"], 2);
    match (value.need_number("format"@, 255), value.get("overrides"@)) {
        (Some(format), Some(JsonView::Object(fields))) => match bool_entries(fields) {
            Some(overrides) => Some((format as u8, overrides)),
            None => None,
        },
        _ => None,
    }
}

/// `index` with the pins set as `overrides` say, or why that cannot be.
pub open spec fn with_overrides(
    index: IndexView,
    overrides: Seq<(Seq<char>, bool)>,
    path: Seq<char>,
) -> Result<IndexView, Seq<char>>
    decreases overrides.len(),
{
    if overrides.len() == 0 {
        Ok(index)
    } else {
        match with_overrides(index, overrides.drop_last(), path) {
            Err(message) => Err(message),
            Ok(done) => {
                let (id, pinned) = overrides.last();
                if !ids::valid_id(id) {
                    Err(ids::id_complaint(id))
                } else if !textmap::has_key(done.entries, id) {
                    Err("pin state "@ + path + " references missing memory ID "@ + id)
                } else {
                    Ok(done.with_pin(id, pinned))
                }
            },
        }
    }
}

/// The overrides in a pin state file and the index with them applied, or why
/// that cannot be. Of a file that holds no pin state it is not said what is
/// wrong with it.
pub open spec fn read_pin_state(index: IndexView, bytes: Seq<u8>, path: Seq<char>) -> Result<
    (IndexView, Seq<(Seq<char>, bool)>),
    Seq<char>,
> {
    let state = match json::parsed_json(bytes) {
        Ok(value) => pin_state_of(value),
        Err(_) => None,
    };
    match state {
        None => Err("failed to parse pin state "@ + path),
        Some((format, overrides)) => if format != PIN_STATE_FORMAT {
            Err(
                "unsupported pin state format "@ + text::decimal(format as nat) + " in "@ + path,
            )
        } else {
            match with_overrides(index, overrides, path) {
                Ok(pinned) => Ok((pinned, overrides)),
                Err(message) => Err(message),
            }
        },
    }
}

fn bool_entries_from(fields: &Vec<(String, Json)>) -> (r: Option<TextMap<bool>>)
    ensures
        text::opt(r) == bool_entries(json::fields_view(fields@)),
        r matches Some(map) ==> map.wf(),
{
    let ghost model = json::fields_view(fields@);
    proof {
        json::lemma_fields_view(fields@);
    }
    let mut map: TextMap<bool> = TextMap::new();
    let mut i: usize = 0;
    assert(model.take(0) =~= Seq::<(Seq<char>, JsonView)>::empty());
    while i < fields.len()
        invariant
            i <= fields@.len(),
            model == json::fields_view(fields@),
            model.len() == fields@.len(),
            forall|j: int|
                0 <= j < fields@.len() ==> #[trigger] model[j] == (
                    fields@[j].0@,
                    fields@[j].1@,
                ),
            map.wf(),
            bool_entries(model.take(i as int)) == Some(map@),
        decreases fields@.len() - i,
    {
        let ghost upto = model.take(i as int + 1);
        assert(upto.drop_last() =~= model.take(i as int));
        assert(upto.last() == model[i as int]);
        match &fields[i].1 {
            Json::Bool(b) => {
                map.insert(fields[i].0.clone(), *b);
            },
            _ => {
                proof {
                    assert(bool_entries(upto) is None);
                    lemma_bool_entries_none(model, i as int + 1);
                }
                return None;
            },
        }
        i = i + 1;
    }
    assert(model.take(model.len() as int) =~= model);
    Some(map)
}

proof fn lemma_bool_entries_none(fields: Seq<(Seq<char>, JsonView)>, n: int)
    requires
        0 <= n <= fields.len(),
        bool_entries(fields.take(n)) is None,
    ensures
        bool_entries(fields) is None,
    decreases fields.len() - n,
{
    if n == fields.len() {
        assert(fields.take(n) =~= fields);
    } else {
        assert(fields.take(n + 1).drop_last() =~= fields.take(n));
        lemma_bool_entries_none(fields, n + 1);
    }
}

proof fn lemma_with_overrides_err(
    index: IndexView,
    overrides: Seq<(Seq<char>, bool)>,
    path: Seq<char>,
    n: int,
)
    requires
        0 <= n <= overrides.len(),
        with_overrides(index, overrides.take(n), path) is Err,
    ensures
        with_overrides(index, overrides, path) == with_overrides(index, overrides.take(n), path),
    decreases overrides.len() - n,
{
    if n == overrides.len() {
        assert(overrides.take(n) =~= overrides);
    } else {
        assert(overrides.take(n + 1).drop_last() =~= overrides.take(n));
        lemma_with_overrides_err(index, overrides, path, n + 1);
    }
}

/// The model of an index or a complaint.
pub open spec fn applied(r: Result<(), String>, index: StoreIndex) -> Result<
    IndexView,
    Seq<char>,
> {
    match r {
        Ok(_) => Ok(index@),
        Err(message) => Err(message@),
    }
}

fn apply_overrides(index: &mut StoreIndex, overrides: &TextMap<bool>, path: &str) -> (r: Result<
    (),
    String,
>)
    requires
        old(index).wf(),
    ensures
        final(index).wf(),
        applied(r, *final(index)) == with_overrides(old(index)@, overrides@, path@),
{
    let ghost before = index@;
    let mut i: usize = 0;
    assert(overrides@.take(0) =~= Seq::<(Seq<char>, bool)>::empty());
    while i < overrides.entries.len()
        invariant
            i <= overrides.entries@.len(),
            index.wf(),
            before == old(index)@,
            with_overrides(before, overrides@.take(i as int), path@) == Ok::<
                IndexView,
                Seq<char>,
            >(index@),
        decreases overrides.entries@.len() - i,
    {
        let ghost upto = overrides@.take(i as int + 1);
        assert(upto.drop_last() =~= overrides@.take(i as int));
        let entry = &overrides.entries[i];
        assert(upto.last() == (entry.0@, entry.1));
        match ids::validate_memory_id(entry.0.as_str()) {
            Ok(_) => {},
            Err(message) => {
                proof {
                    lemma_with_overrides_err(before, overrides@, path@, i as int + 1);
                }
                return Err(message);
            },
        }
        if !index.set_pin(entry.0.as_str(), entry.1) {
            let mut message = "pin state ".to_owned();
            message.append(path);
            message.append(" references missing memory ID ");
            message.append(entry.0.as_str());
            proof {
                lemma_with_overrides_err(before, overrides@, path@, i as int + 1);
            }
            return Err(message);
        }
        i = i + 1;
    }
    assert(overrides@.take(overrides@.len() as int) =~= overrides@);
    Ok(())
}

fn pin_state_from(value: &Json) -> (r: Option<(u8, TextMap<bool>)>)
    ensures
        match r {
            Some((format, overrides)) => overrides.wf() && pin_state_of(value@) == Some(
                (format, overrides@),
            ),
            None => pin_state_of(value@) is None,
        },
{
    let names: Vec<&'static str> = vec!["format", "overrides"];
    assert(names@ =~= seq!["format", "overrides"]);
    let seat = value.seat(&names, 2);
    let value = match &seat {
        Some(seat) => seat,
        None => value,
    };
    match (value.need_number("format", 255), value.get("overrides")) {
        (Some(format), Some(Json::Object(fields))) => match bool_entries_from(fields) {
            Some(overrides) => Some((format as u8, overrides)),
            None => None,
        },
        _ => None,
    }
}

/// The fields of a pin state's overrides.
pub open spec fn override_fields(overrides: Seq<(Seq<char>, bool)>) -> Seq<(Seq<char>, JsonView)> {
    overrides.map_values(|e: (Seq<char>, bool)| (e.0, JsonView::Bool(e.1)))
}

/// What a pin state file holds.
pub open spec fn pin_state_json(overrides: Seq<(Seq<char>, bool)>) -> JsonView {
    JsonView::Object(
        seq![
            ("format"@, JsonView::Unsigned(PIN_STATE_FORMAT as u64)),
            ("overrides"@, JsonView::Object(override_fields(overrides))),
        ],
    )
}

/// The text of a pin state file.
pub open spec fn pin_state_text(overrides: Seq<(Seq<char>, bool)>) -> Seq<char> {
    json::json_text(pin_state_json(overrides))
}

/// The text of a pin state file.
pub fn encode_pin_state(overrides: &TextMap<bool>) -> (r: String)
    ensures
        r@ == pin_state_text(overrides@),
{
    let mut fields: Vec<(String, Json)> = Vec::new();
    let mut i: usize = 0;
    let ghost goal = override_fields(overrides@);
    assert(json::fields_view(fields@) =~= goal.take(0));
    while i < overrides.entries.len()
        invariant
            i <= overrides.entries@.len(),
            goal == override_fields(overrides@),
            json::fields_view(fields@) == goal.take(i as int),
        decreases overrides.entries@.len() - i,
    {
        json::push_field(
            &mut fields,
            overrides.entries[i].0.as_str(),
            Json::Bool(overrides.entries[i].1),
        );
        assert(overrides@[i as int] == (
            overrides.entries@[i as int].0@,
            overrides.entries@[i as int].1,
        ));
        i = i + 1;
        assert(json::fields_view(fields@) =~= goal.take(i as int));
    }
    assert(goal.take(overrides@.len() as int) =~= goal);
    let mut state: Vec<(String, Json)> = Vec::new();
    json::push_field(&mut state, "format", Json::Unsigned(PIN_STATE_FORMAT as u64));
    json::push_field(&mut state, "overrides", Json::Object(fields));
    assert(json::fields_view(state@) =~= seq![
        ("format"@, JsonView::Unsigned(PIN_STATE_FORMAT as u64)),
        ("overrides"@, JsonView::Object(goal)),
    ]);
    Json::Object(state).to_text()
}

// ---------------------------------------------------------------------------
// Opening
// ---------------------------------------------------------------------------

/// The cipher of a session, where there is a key.
pub open spec fn session_lock(session_id: Seq<char>, key: Option<Seq<u8>>) -> Result<
    Option<CipherView>,
    Seq<char>,
> {
    match key {
        Some(secret) => match secure::derived_cipher(secret, session_id) {
            Ok(cipher) => Ok(Some(cipher)),
            Err(message) => Err(message),
        },
        None => Ok(None),
    }
}

/// The state of a session whose records were replayed, and whose pins were set.
pub open spec fn session_of(
    session_id: Seq<char>,
    replay: ReplayView,
    pinned: (IndexView, Seq<(Seq<char>, bool)>),
    cache_size: usize,
    cipher: Option<CipherView>,
    records_path: Seq<char>,
) -> SessionView {
    SessionView {
        session_id,
        records_path,
        session_hash: hash::fnv(encode_utf8(session_id), hash::FNV_OFFSET),
        next_sequence: replay.next_sequence,
        next_turn_sequence: replay.next_turn_sequence,
        index: pinned.0,
        pin_overrides: pinned.1,
        cache: Seq::empty(),
        cache_capacity: cache_size,
        cipher,
        needs_encryption_migration: cipher is Some && replay.plaintext,
    }
}

/// What opening a session's memory gives: its state, and where an incomplete
/// last record is to be cut off.
pub open spec fn opened_session(
    session_id: Seq<char>,
    records: Seq<u8>,
    pin_state: Option<Seq<u8>>,
    cache_size: usize,
    key: Option<Seq<u8>>,
    records_path: Seq<char>,
    pin_state_path: Seq<char>,
) -> Result<(SessionView, Option<u64>), Seq<char>> {
    match session_lock(session_id, key) {
        Err(message) => Err(message),
        Ok(cipher) => match index::replay_from(
            records,
            0,
            1,
            index::fresh_replay(),
            cipher,
            records_path,
        ) {
            Err(message) => Err(message),
            Ok((replay, cut)) => {
                let pinned = match pin_state {
                    Some(bytes) => read_pin_state(replay.index, bytes, pin_state_path),
                    None => Ok((replay.index, Seq::empty())),
                };
                match pinned {
                    Err(message) => Err(message),
                    Ok(pinned) => Ok(
                        (
                            session_of(
                                session_id,
                                replay,
                                pinned,
                                cache_size,
                                cipher,
                                records_path,
                            ),
                            cut,
                        ),
                    ),
                }
            },
        },
    }
}

/// Whether the files of a session hold `records` and, where there is a pin
/// state, `overrides`.
pub open spec fn is_stored(
    records: Seq<RecordView>,
    overrides: Option<Seq<(Seq<char>, bool)>>,
    store: Seq<u8>,
    pin_state: Option<Seq<u8>>,
) -> bool {
    &&& index::stored_bytes(records) == store
    &&& index::all_storable(records)
    &&& match (overrides, pin_state) {
        (None, None) => true,
        (Some(overrides), Some(bytes)) => textmap::sorted(overrides) && bytes == encode_utf8(
            pin_state_text(overrides),
        ),
        _ => false,
    }
}

/// What opening a session's memory gives whose files hold `records` and
/// `overrides`.
pub open spec fn reopened(
    session_id: Seq<char>,
    records: Seq<RecordView>,
    overrides: Option<Seq<(Seq<char>, bool)>>,
    cache_size: usize,
    key: Option<Seq<u8>>,
    records_path: Seq<char>,
    pin_state_path: Seq<char>,
) -> Result<(SessionView, Option<u64>), Seq<char>> {
    match session_lock(session_id, key) {
        Err(message) => Err(message),
        Ok(cipher) => match index::replayed(records, cipher) {
            Err(message) => Err(message),
            Ok(replay) => {
                let pinned = match overrides {
                    Some(overrides) => with_overrides(replay.index, overrides, pin_state_path),
                    None => Ok(replay.index),
                };
                match pinned {
                    Err(message) => Err(message),
                    Ok(index) => Ok(
                        (
                            session_of(
                                session_id,
                                replay,
                                (
                                    index,
                                    match overrides {
                                        Some(overrides) => overrides,
                                        None => Seq::empty(),
                                    },
                                ),
                                cache_size,
                                cipher,
                                records_path,
                            ),
                            None,
                        ),
                    ),
                }
            },
        },
    }
}

/// Overrides in order are read in that order.
proof fn lemma_overrides_back(overrides: Seq<(Seq<char>, bool)>)
    requires
        textmap::sorted(overrides),
    ensures
        json::canonical_fields(override_fields(overrides)) == override_fields(overrides),
        bool_entries(override_fields(overrides)) == Some(overrides),
        json::plain(JsonView::Object(override_fields(overrides)), 1),
    decreases overrides.len(),
{
    let fields = override_fields(overrides);
    assert forall|i: int| 0 <= i < fields.len() implies json::plain((#[trigger] fields[i]).1, 0) by {
        assert(fields[i].1 is Bool);
    }
    if overrides.len() == 0 {
        assert(overrides =~= Seq::<(Seq<char>, bool)>::empty());
        assert(fields =~= Seq::<(Seq<char>, JsonView)>::empty());
    } else {
        let front = overrides.drop_last();
        let lower = override_fields(front);
        let last = overrides.last();
        assert forall|i: int, j: int| 0 <= i < j < front.len() implies textmap::text_less(
            #[trigger] front[i].0,
            #[trigger] front[j].0,
        ) by {
            assert(front[i] == overrides[i] && front[j] == overrides[j]);
        }
        lemma_overrides_back(front);
        assert(fields.drop_last() =~= lower);
        assert(fields.last() == (last.0, JsonView::Bool(last.1)));
        assert forall|i: int, j: int| 0 <= i < j < lower.len() implies textmap::text_less(
            #[trigger] lower[i].0,
            #[trigger] lower[j].0,
        ) by {
            assert(lower[i].0 == front[i].0 && lower[j].0 == front[j].0);
        }
        assert forall|i: int| 0 <= i < lower.len() implies textmap::text_less(
            (#[trigger] lower[i]).0,
            last.0,
        ) by {
            assert(lower[i].0 == overrides[i].0);
        }
        assert forall|i: int| 0 <= i < front.len() implies textmap::text_less(
            (#[trigger] front[i]).0,
            last.0,
        ) by {
            assert(front[i] == overrides[i]);
        }
        textmap::lemma_inserted_at(
            lower,
            last.0,
            json::canonical(JsonView::Bool(last.1)),
            lower.len() as int,
        );
        textmap::lemma_inserted_at(front, last.0, last.1, front.len() as int);
        assert(lower.insert(lower.len() as int, (last.0, JsonView::Bool(last.1))) =~= fields);
        assert(front.insert(front.len() as int, last) =~= overrides);
    }
}

/// A pin state is read as it was written.
proof fn lemma_pin_state_back(overrides: Seq<(Seq<char>, bool)>)
    requires
        textmap::sorted(overrides),
    ensures
        pin_state_of(json::canonical(pin_state_json(overrides))) == Some(
            (PIN_STATE_FORMAT, overrides),
        ),
        json::plain(pin_state_json(overrides), json::MAX_DEPTH as nat),
{
    lemma_overrides_back(overrides);
    reveal_strlit("format");
    reveal_strlit("overrides");
    assert("format"@.len() == 6 && "overrides"@.len() == 9);
    let none = Seq::<(Seq<char>, JsonView)>::empty();
    let format = JsonView::Unsigned(PIN_STATE_FORMAT as u64);
    let pins = JsonView::Object(override_fields(overrides));
    let one = none.push(("format"@, format));
    let all = one.push(("overrides"@, pins));
    json::lemma_last_field_push(none, "format"@, format);
    json::lemma_last_field_push(one, "overrides"@, pins);
    assert(pin_state_json(overrides)->Object_0 =~= all);
    json::lemma_canonical_get(all, "format"@);
    json::lemma_canonical_get(all, "overrides"@);
    assert forall|i: int| 0 <= i < all.len() implies json::plain((#[trigger] all[i]).1, 1) by {
        if i == 0 {
            assert(all[i].1 == format);
        } else {
            assert(all[i].1 == pins);
        }
    }
    json::lemma_plain_deeper(pin_state_json(overrides), 2, json::MAX_DEPTH as nat);
}

/// The model of optional bytes.
pub open spec fn bytes_view(bytes: Option<&[u8]>) -> Option<Seq<u8>> {
    match bytes {
        Some(bytes) => Some(bytes@),
        None => None,
    }
}

// ---------------------------------------------------------------------------
// Storing
// ---------------------------------------------------------------------------

/// The memory ID of a kind, a session and a sequence number.
pub open spec fn memory_id(kind: MemoryKind, session_hash: u64, sequence: u64) -> Seq<char> {
    "§"@ + record::kind_prefix(kind) + "_"@ + text::hex_fixed(session_hash as nat, 16)
        + text::hex_padded(sequence as nat, 8)
}

fn memory_id_of(kind: MemoryKind, session_hash: u64, sequence: u64) -> (r: String)
    ensures
        r@ == memory_id(kind, session_hash, sequence),
{
    let mut r = "§".to_owned();
    r.append(kind.id_prefix());
    r.append("_");
    let hash = text::hex_fixed_of(session_hash, 16);
    r.append(hash.as_str());
    let digits = text::hex_padded_of(sequence, 8);
    r.append(digits.as_str());
    r
}

/// The turn ID of a session and a sequence number.
pub open spec fn turn_id(session_hash: u64, sequence: u64) -> Seq<char> {
    "tx-"@ + text::hex_fixed(session_hash as nat, 16) + "-"@ + text::hex_padded(sequence as nat, 8)
}

impl IndexView {
    /// An ID that no record has and that no store in flight claims.
    pub open spec fn is_free(self, id: Seq<char>) -> bool {
        !textmap::has_key(self.entries, id) && !self.reserved.contains(id)
    }
}

/// The first sequence number from `sequence` on that gives a free ID.
pub open spec fn first_free(
    index: IndexView,
    kind: MemoryKind,
    session_hash: u64,
    sequence: u64,
) -> Option<u64>
    decreases u64::MAX - sequence,
{
    if sequence == u64::MAX {
        None
    } else if index.is_free(memory_id(kind, session_hash, sequence)) {
        Some(sequence)
    } else {
        first_free(index, kind, session_hash, (sequence + 1) as u64)
    }
}

/// Whether a content can be stored: without a key every one can.
pub open spec fn can_encode(cipher: Option<CipherView>, content: Seq<char>) -> bool {
    cipher is None || secure::sealable(content)
}

proof fn lemma_filter_all<A>(s: Seq<A>, keep: spec_fn(A) -> bool)
    requires
        forall|i: int| 0 <= i < s.len() ==> keep(#[trigger] s[i]),
    ensures
        s.filter(keep) == s,
    decreases s.len(),
{
    reveal(Seq::filter);
    if s.len() > 0 {
        lemma_filter_all(s.drop_last(), keep);
        assert(s.drop_last().push(s.last()) =~= s);
    }
}

/// Something to store.
pub struct NewMemoryItem {
    pub kind: MemoryKind,
    pub content: String,
    pub source_tool: Option<String>,
    pub importance: u8,
    pub pinned: bool,
    pub metadata: TextMap<String>,
    pub turn_id: Option<String>,
}

/// A record that is to be appended to the store.
pub struct PendingStore {
    pub pointer: MemoryPointer,
    pub turn_id: Option<String>,
    pub content: String,
    pub line: Vec<u8>,
}

/// The pointer of a new item.
pub open spec fn new_pointer(item: NewMemoryItem, id: Seq<char>, created_at: Seq<char>) -> PointerView {
    PointerView {
        id,
        kind: item.kind,
        created_at,
        source_tool: text::opt(item.source_tool),
        token_estimate: message::token_count(item.content@) as usize,
        importance: item.importance,
        pinned: item.pinned,
        parent_id: None,
        metadata: item.metadata@,
    }
}

/// `item` is `pointer` with `content`, plain where there is no cipher, and else
/// encrypted under the session's key and bound to the ID.
pub open spec fn encodes(
    cipher: Option<CipherView>,
    pointer: PointerView,
    turn_id: Option<Seq<char>>,
    content: Seq<char>,
    item: ItemView,
) -> bool {
    &&& item.pointer == pointer
    &&& item.turn_id == turn_id
    &&& match cipher {
        None => item.encryption is None && item.content == content,
        Some(cipher) => item.encryption matches Some(encryption) && secure::encrypts_to(
            cipher.key,
            pointer.id,
            content,
            item.content,
            encryption,
        ),
    }
}

/// The line that an item is stored as.
pub open spec fn item_line(item: ItemView) -> Seq<u8> {
    index::line_of(RecordView::Item { item })
}

/// `line` stores `pointer` with `content`.
pub open spec fn stores(
    cipher: Option<CipherView>,
    pointer: PointerView,
    turn_id: Option<Seq<char>>,
    content: Seq<char>,
    line: Seq<u8>,
) -> bool {
    exists|item: ItemView| #[trigger]
        encodes(cipher, pointer, turn_id, content, item) && line == item_line(item)
}

/// The line that a turn's end is stored as.
pub open spec fn turn_line(turn_id: Seq<char>, state: MemoryTurnState) -> Seq<u8> {
    index::line_of(RecordView::Turn { turn_id, state })
}

/// The line of a record.
pub fn record_line(record: &StoreRecord) -> (line: Vec<u8>)
    ensures
        line@ == index::line_of(record@),
{
    let line = record::record_to_json(record).to_text();
    let mut bytes: Vec<u8> = line.as_str().as_bytes_vec();
    bytes.push(10);
    bytes
}

// ---------------------------------------------------------------------------
// Reading
// ---------------------------------------------------------------------------

/// The content of the record at `location`, as the store's bytes have it.
pub open spec fn stored_content(
    cipher: Option<CipherView>,
    records_path: Seq<char>,
    id: Seq<char>,
    location: LocationView,
    records: Seq<u8>,
) -> Result<Seq<char>, Seq<char>> {
    if location.offset + location.length > records.len() {
        Err("failed to read "@ + records_path)
    } else {
        let line = records.subrange(
            location.offset as int,
            location.offset + location.length,
        );
        match index::line_record(line) {
            None => Err("failed to parse indexed memory record"@),
            Some(RecordView::Item { item }) => if item.pointer.id != id {
                Err("memory index for "@ + id + " points to "@ + item.pointer.id)
            } else {
                match item.encryption {
                    None => Ok(item.content),
                    Some(encryption) => match cipher {
                        None => Err(index::locked_message()),
                        Some(cipher) => secure::decrypted(
                            cipher.key,
                            id,
                            item.content,
                            encryption,
                        ),
                    },
                }
            },
            Some(_) => Err("memory index points to a non-item record"@),
        }
    }
}

impl SessionView {
    /// What reading `id` gives: nothing where it is not there or not visible;
    /// else its pointer and its content, from the cache where it is cached.
    pub open spec fn read(
        self,
        id: Seq<char>,
        active_turn: Option<Seq<char>>,
        records: Seq<u8>,
    ) -> Result<Option<(PointerView, Seq<char>)>, Seq<char>> {
        match self.index.pointer(id, active_turn) {
            None => Ok(None),
            Some(pointer) => match cache::cached(self.cache, id) {
                Some(content) => Ok(Some((pointer, content))),
                None => match stored_content(
                    self.cipher,
                    self.records_path,
                    id,
                    self.index.location(id)->0,
                    records,
                ) {
                    Ok(content) => Ok(Some((pointer, content))),
                    Err(message) => Err(message),
                },
            },
        }
    }

    /// Whether the store's bytes hold `content` where the index has `id`.
    pub open spec fn holds(
        self,
        id: Seq<char>,
        records: Seq<u8>,
        pointer: PointerView,
        turn_id: Option<Seq<char>>,
        content: Seq<char>,
    ) -> bool {
        &&& pointer.id == id
        &&& textmap::sorted(pointer.metadata)
        &&& self.index.location(id) matches Some(location) && location.offset + location.length
            <= records.len() && stores(
            self.cipher,
            pointer,
            turn_id,
            content,
            records.subrange(location.offset as int, location.offset + location.length),
        )
    }

    /// Whether what is cached is what the store's bytes give.
    pub open spec fn cache_agrees(self, records: Seq<u8>) -> bool {
        forall|id: Seq<char>| #[trigger]
            cache::cached(self.cache, id) is Some && self.index.location(id) is Some
                ==> stored_content(
                self.cipher,
                self.records_path,
                id,
                self.index.location(id)->0,
                records,
            ) == Ok::<Seq<char>, Seq<char>>(cache::cached(self.cache, id)->0)
    }

    /// The state once `id` was read: what was read is the most recently used
    /// content of the cache.
    pub open spec fn after_read(
        self,
        id: Seq<char>,
        active_turn: Option<Seq<char>>,
        records: Seq<u8>,
    ) -> SessionView {
        match self.read(id, active_turn, records) {
            Ok(Some((_, content))) => if cache::cached(self.cache, id) is Some {
                SessionView { cache: cache::touched(self.cache, id), ..self }
            } else {
                SessionView {
                    cache: cache::cache_insert(
                        self.cache,
                        self.cache_capacity as nat,
                        id,
                        content,
                    ),
                    ..self
                }
            },
            _ => self,
        }
    }

    /// The pointers that were pinned automatically and exceed `limit`: the
    /// oldest of those that no override speaks of.
    pub open spec fn automatic_pins(self, active_turn: Option<Seq<char>>) -> Seq<PointerView> {
        self.index.pointers(active_turn).filter(
            |p: PointerView| p.pinned && !textmap::has_key(self.pin_overrides, p.id),
        )
    }

    pub open spec fn excess_pins(self, limit: nat, active_turn: Option<Seq<char>>) -> Seq<
        PointerView,
    > {
        let automatic = self.automatic_pins(active_turn);
        if automatic.len() > limit {
            automatic.take(automatic.len() - limit)
        } else {
            Seq::empty()
        }
    }

    /// The state with the pin of `id` set by hand.
    pub open spec fn with_pin(self, id: Seq<char>, pinned: bool) -> SessionView {
        SessionView {
            index: self.index.with_pin(id, pinned),
            pin_overrides: textmap::inserted(self.pin_overrides, id, pinned),
            ..self
        }
    }

    /// The state with a change of a pin taken back.
    pub open spec fn with_pin_restored(
        self,
        id: Seq<char>,
        pinned: bool,
        previous: Option<bool>,
    ) -> SessionView {
        SessionView {
            index: self.index.with_pin(id, pinned),
            pin_overrides: match previous {
                Some(value) => textmap::inserted(self.pin_overrides, id, value),
                None => textmap::removed(self.pin_overrides, id),
            },
            ..self
        }
    }

    pub open spec fn wf(self) -> bool {
        &&& self.index.wf()
        &&& textmap::sorted(self.pin_overrides)
        &&& cache::distinct_ids(self.cache)
        &&& self.cache.len() <= self.cache_capacity
    }

    /// The fingerprint that deduplication goes by: keyed where the session is
    /// encrypted.
    pub open spec fn fingerprint(self, bytes: Seq<u8>) -> Seq<char> {
        match self.cipher {
            Some(cipher) => secure::keyed_fingerprint(cipher.fingerprint_key, bytes),
            None => hash::plain_fingerprint(bytes),
        }
    }

    /// The visible pointer that a set of fingerprints leads to.
    pub open spec fn by_fingerprint(
        self,
        prints: Seq<(Seq<char>, Seq<char>)>,
        fingerprint: Seq<char>,
        active_turn: Option<Seq<char>>,
    ) -> Option<PointerView> {
        match textmap::lookup(prints, fingerprint) {
            Some(id) => self.index.pointer(id, active_turn),
            None => None,
        }
    }
}

/// Taking back a change of a pin gives back the state as it was.
pub proof fn law_restored_pin_is_undone(session: SessionView, id: Seq<char>, pinned: bool)
    requires
        session.wf(),
        session.index.location(id) is Some,
    ensures
        session.with_pin(id, pinned).with_pin_restored(
            id,
            session.index.location(id)->0.pointer.pinned,
            textmap::lookup(session.pin_overrides, id),
        ) == session,
{
    let location = session.index.location(id)->0;
    let changed = index::pin_location(location, pinned);
    textmap::lemma_inserted(session.index.entries, id, changed);
    assert(index::pin_location(changed, location.pointer.pinned) == location);
    textmap::lemma_insert_insert(session.index.entries, id, changed, location);
    match textmap::lookup(session.pin_overrides, id) {
        Some(previous) => {
            textmap::lemma_insert_insert(session.pin_overrides, id, pinned, previous);
        },
        None => {
            textmap::lemma_insert_remove(session.pin_overrides, id, pinned);
        },
    }
    let back = session.with_pin(id, pinned).with_pin_restored(
        id,
        location.pointer.pinned,
        textmap::lookup(session.pin_overrides, id),
    );
    assert(back.index =~= session.index);
    assert(back =~= session);
}

/// A cache that agrees with the store changes nothing of what is read, and after
/// a read it still agrees.
pub proof fn law_cache_is_transparent(
    session: SessionView,
    id: Seq<char>,
    active_turn: Option<Seq<char>>,
    records: Seq<u8>,
)
    requires
        session.wf(),
        session.cache_agrees(records),
    ensures
        session.read(id, active_turn, records) == (SessionView {
            cache: Seq::empty(),
            ..session
        }).read(id, active_turn, records),
        session.after_read(id, active_turn, records).cache_agrees(records),
{
    let bare = SessionView { cache: Seq::empty(), ..session };
    assert(cache::cached(bare.cache, id) is None);
    assert(cache::cached(session.cache, id) is Some || cache::cached(session.cache, id) is None);
    let after = session.after_read(id, active_turn, records);
    assert forall|other: Seq<char>| #[trigger]
        cache::cached(after.cache, other) is Some && after.index.location(other)
            is Some implies stored_content(
        after.cipher,
        after.records_path,
        other,
        after.index.location(other)->0,
        records,
    ) == Ok::<Seq<char>, Seq<char>>(cache::cached(after.cache, other)->0) by {
        if let Ok(Some((_, content))) = session.read(id, active_turn, records) {
            if cache::cached(session.cache, id) is Some {
                cache::lemma_cached_after_touch(session.cache, id, other);
            } else {
                cache::lemma_cached_after_insert(
                    session.cache,
                    session.cache_capacity as nat,
                    id,
                    content,
                    other,
                );
            }
        }
        assert(cache::cached(session.cache, other) is Some || other == id);
    }
}

/// A change of a pin, with what it takes to undo it.
pub struct PinChange {
    pub pointer: MemoryPointer,
    pub previous: bool,
    pub previous_override: Option<bool>,
}

/// The line of an audit event, or the event in encrypted form.
pub open spec fn audit_line(cipher: Option<CipherView>, audit: AuditView, line: Seq<u8>) -> bool {
    match cipher {
        None => line == encode_utf8(json::json_text(record::audit_json(audit))).push(10u8),
        Some(keys) => sealed_audit_line(keys.key, audit, line),
    }
}

/// `line` holds `audit` in some encrypted form.
pub open spec fn sealed_audit_line(key: Seq<u8>, audit: AuditView, line: Seq<u8>) -> bool {
    exists|content: Seq<char>, encryption: secure::EncryptionView| #[trigger]
        seals_audit(key, audit, content, encryption, line)
}

/// `line` holds `audit` encrypted under `key`.
pub open spec fn seals_audit(
    key: Seq<u8>,
    audit: AuditView,
    content: Seq<char>,
    encryption: secure::EncryptionView,
    line: Seq<u8>,
) -> bool {
    &&& secure::encrypts_to(
        key,
        "audit"@,
        json::json_text(record::audit_json(audit)),
        content,
        encryption,
    )
    &&& line == encode_utf8(json::json_text(sealed_audit_json(content, encryption))).push(10u8)
}

/// An encrypted audit event as JSON.
pub open spec fn sealed_audit_json(
    content: Seq<char>,
    encryption: secure::EncryptionView,
) -> JsonView {
    JsonView::Object(
        seq![
            ("format"@, JsonView::Unsigned(1)),
            ("encryption"@, record::encryption_json(encryption)),
            ("content"@, JsonView::Text(content)),
        ],
    )
}

impl SessionMemory {
    pub open spec fn wf(&self) -> bool {
        &&& self@.wf()
        &&& self.cipher matches Some(cipher) ==> cipher.wf()
    }

    /// Opens a session's memory from the bytes of its record store and of its
    /// pin state, where it has one. Also says at which offset an incomplete
    /// last record is to be cut off the store.
    pub fn open(
        session_id: &str,
        records: &[u8],
        pin_state: Option<&[u8]>,
        cache_size: usize,
        key: Option<&EncryptionKey>,
        records_path: &str,
        pin_state_path: &str,
    ) -> (r: Result<(SessionMemory, Option<u64>), String>)
        ensures
            match opened_session(
                session_id@,
                records@,
                bytes_view(pin_state),
                cache_size,
                text::opt(key),
                records_path@,
                pin_state_path@,
            ) {
                Ok((session, cut)) => r matches Ok((got, at)) && got@ == session && got.wf() && at
                    == cut,
                Err(message) => r matches Err(m) && m@ == message,
            },
            forall|stored: Seq<RecordView>, overrides: Option<Seq<(Seq<char>, bool)>>|
                #[trigger] is_stored(stored, overrides, records@, bytes_view(pin_state)) ==>
                    opened_session(
                    session_id@,
                    records@,
                    bytes_view(pin_state),
                    cache_size,
                    text::opt(key),
                    records_path@,
                    pin_state_path@,
                ) == reopened(
                    session_id@,
                    stored,
                    overrides,
                    cache_size,
                    text::opt(key),
                    records_path@,
                    pin_state_path@,
                ),
    {
        let cipher: Option<Cipher> = match key {
            Some(key) => match Cipher::new(key, session_id) {
                Ok(cipher) => Some(cipher),
                Err(message) => {
                    return Err(message);
                },
            },
            None => None,
        };
        let lock: Option<&Cipher> = match &cipher {
            Some(cipher) => Some(cipher),
            None => None,
        };
        let (replay, cut) = match index::replay_records(records, lock, records_path) {
            Ok(done) => done,
            Err(message) => {
                return Err(message);
            },
        };
        let encrypted = cipher.is_some();
        let migrate = encrypted && replay.plaintext;
        let next_sequence: u64 = replay.next_sequence;
        let next_turn_sequence: u64 = replay.next_turn_sequence;
        let mut index = replay.index;
        let mut overrides: TextMap<bool> = TextMap::new();
        match pin_state {
            Some(bytes) => {
                proof {
                    assert forall|overrides: Seq<(Seq<char>, bool)>|
                        textmap::sorted(overrides) && bytes@ == encode_utf8(
                            #[trigger] pin_state_text(overrides),
                        ) implies pin_state_of(json::canonical(pin_state_json(overrides))) == Some(
                        (PIN_STATE_FORMAT, overrides),
                    ) && json::plain(pin_state_json(overrides), json::MAX_DEPTH as nat) by {
                        lemma_pin_state_back(overrides);
                    }
                }
                let state = match json::parse_json(bytes) {
                    Ok(value) => pin_state_from(&value),
                    Err(_) => None,
                };
                match state {
                    None => {
                        return Err(text::concat("failed to parse pin state ", pin_state_path));
                    },
                    Some((format, read)) => {
                        if format != PIN_STATE_FORMAT {
                            let mut message = "unsupported pin state format ".to_owned();
                            let number = text::decimal_of(format as u64);
                            message.append(number.as_str());
                            message.append(" in ");
                            message.append(pin_state_path);
                            return Err(message);
                        }
                        match apply_overrides(&mut index, &read, pin_state_path) {
                            Ok(_) => {},
                            Err(message) => {
                                return Err(message);
                            },
                        }
                        overrides = read;
                    },
                }
            },
            None => {},
        }
        let session = SessionMemory {
            session_id: session_id.to_owned(),
            records_path: records_path.to_owned(),
            session_hash: hash::fnv1a64(session_id.as_bytes()),
            next_sequence,
            next_turn_sequence,
            index,
            pin_overrides: overrides,
            cache: HotCache::new(cache_size),
            cipher,
            needs_encryption_migration: migrate,
        };
        Ok((session, cut))
    }

    /// Claims an unused ID. Reserving before the append is what keeps a
    /// collision out of the store: a duplicate that reached the log would
    /// survive every restart. There is none left only once the sequence
    /// numbers are used up.
    pub fn reserve_id(&mut self, kind: MemoryKind) -> (r: Option<String>)
        requires
            old(self).wf(),
        ensures
            final(self).wf(),
            match first_free(
                old(self)@.index,
                kind,
                old(self).session_hash,
                old(self).next_sequence,
            ) {
                Some(sequence) => {
                    &&& r matches Some(id) && id@ == memory_id(
                        kind,
                        old(self).session_hash,
                        sequence,
                    ) && old(self)@.index.is_free(id@)
                    &&& sequence < u64::MAX
                    &&& final(self)@ == (SessionView {
                        next_sequence: (sequence + 1) as u64,
                        index: IndexView {
                            reserved: old(self)@.index.reserved.push(r->0@),
                            ..old(self)@.index
                        },
                        ..old(self)@
                    })
                },
                None => r is None && final(self)@ == (SessionView {
                    next_sequence: u64::MAX,
                    ..old(self)@
                }),
            },
    {
        let ghost before = self@;
        let mut sequence: u64 = self.next_sequence;
        while sequence < u64::MAX
            invariant
                self@ == before,
                self.wf(),
                before == old(self)@,
                self.session_hash == old(self).session_hash,
                first_free(
                    before.index,
                    kind,
                    self.session_hash,
                    old(self).next_sequence,
                ) == first_free(before.index, kind, self.session_hash, sequence),
            decreases u64::MAX - sequence,
        {
            let id = memory_id_of(kind, self.session_hash, sequence);
            if !self.index.entries.contains_key(id.as_str()) && !ids::contains_text(
                &self.index.reserved,
                id.as_str(),
            ) {
                proof {
                    text::lemma_views_push(self.index.reserved@, id);
                }
                self.index.reserved.push(id.clone());
                self.next_sequence = sequence + 1;
                assert(self@.index =~= IndexView {
                    reserved: before.index.reserved.push(id@),
                    ..before.index
                });
                return Some(id);
            }
            sequence = sequence + 1;
        }
        self.next_sequence = u64::MAX;
        None
    }

    /// Gives up a claimed ID.
    pub fn release_id(&mut self, id: &str)
        requires
            old(self).wf(),
        ensures
            final(self).wf(),
            final(self)@ == (SessionView {
                index: IndexView {
                    reserved: old(self)@.index.reserved.filter(|x: Seq<char>| x != id@),
                    ..old(self)@.index
                },
                ..old(self)@
            }),
    {
        let ghost before = self@;
        let ghost other = |x: Seq<char>| x != id@;
        let mut kept: Vec<String> = Vec::new();
        let mut i: usize = 0;
        proof {
            reveal(Seq::filter);
        }
        assert(text::views(kept@) =~= before.index.reserved.take(0).filter(other));
        while i < self.index.reserved.len()
            invariant
                i <= self.index.reserved@.len(),
                self@ == before,
                self.wf(),
                before.index.reserved == text::views(self.index.reserved@),
                other == (|x: Seq<char>| x != id@),
                text::views(kept@) == before.index.reserved.take(i as int).filter(other),
            decreases self.index.reserved@.len() - i,
        {
            proof {
                reveal(Seq::filter);
            }
            let claimed = self.index.reserved[i].clone();
            assert(before.index.reserved.take(i as int + 1).drop_last()
                =~= before.index.reserved.take(i as int));
            assert(before.index.reserved.take(i as int + 1).last() == claimed@);
            proof {
                text::lemma_views_push(kept@, claimed);
            }
            if !text::same(claimed.as_str(), id) {
                kept.push(claimed);
            }
            i = i + 1;
        }
        assert(before.index.reserved.take(before.index.reserved.len() as int)
            =~= before.index.reserved);
        self.index.reserved = kept;
        assert(self@.index =~= IndexView {
            reserved: before.index.reserved.filter(other),
            ..before.index
        });
    }

    /// Dedupe fingerprint for `bytes`. Encrypted stores key it so the
    /// plaintext metadata cannot be used to confirm a guess about what the
    /// session observed; plain stores keep the cheap unkeyed digest.
    pub fn fingerprint(&self, bytes: &[u8]) -> (r: String)
        requires
            self.wf(),
        ensures
            r@ == self@.fingerprint(bytes@),
    {
        match &self.cipher {
            Some(cipher) => cipher.fingerprint(bytes),
            None => hash::fingerprint_bytes(bytes),
        }
    }

    /// An item as it is stored: encrypted where the session has a key.
    pub fn encode_item(&self, pointer: MemoryPointer, turn_id: Option<String>, content: &str) -> (r:
        Result<MemoryItem, String>)
        requires
            self.wf(),
        ensures
            match r {
                Ok(item) => encodes(
                    text::opt(self.cipher),
                    pointer@,
                    text::opt(turn_id),
                    content@,
                    item@,
                ) && item.pointer == pointer && can_encode(text::opt(self.cipher), content@),
                Err(message) => !can_encode(text::opt(self.cipher), content@) && message@
                    == "failed to encrypt content"@,
            },
    {
        match &self.cipher {
            Some(cipher) => match cipher.encrypt(pointer.id.as_str(), content) {
                Ok((encrypted, encryption)) => Ok(
                    MemoryItem { pointer, turn_id, encryption: Some(encryption), content: encrypted },
                ),
                Err(message) => Err(message),
            },
            None => Ok(
                MemoryItem { pointer, turn_id, encryption: None, content: content.to_owned() },
            ),
        }
    }

    /// Makes the record of a new item under a fresh ID. The record is to be
    /// appended to the store, and the store then to be finished or abandoned.
    /// Without a free ID the sequence numbers are used up; a content that cannot
    /// be encoded costs its number, and the ID is free again.
    pub fn prepare_store(&mut self, item: NewMemoryItem, created_at: String) -> (r: Result<
        PendingStore,
        String,
    >)
        requires
            old(self).wf(),
            item.metadata.wf(),
        ensures
            final(self).wf(),
            match first_free(
                old(self)@.index,
                item.kind,
                old(self).session_hash,
                old(self).next_sequence,
            ) {
                Some(sequence) => {
                    let id = memory_id(item.kind, old(self).session_hash, sequence);
                    match r {
                        Ok(pending) => {
                            &&& can_encode(old(self)@.cipher, item.content@)
                            &&& pending.pointer.wf()
                            &&& pending.pointer@ == new_pointer(item, id, created_at@)
                            &&& pending.turn_id == item.turn_id
                            &&& pending.content == item.content
                            &&& stores(
                                old(self)@.cipher,
                                pending.pointer@,
                                text::opt(item.turn_id),
                                item.content@,
                                pending.line@,
                            )
                            &&& final(self)@ == (SessionView {
                                next_sequence: (sequence + 1) as u64,
                                index: IndexView {
                                    reserved: old(self)@.index.reserved.push(id),
                                    ..old(self)@.index
                                },
                                ..old(self)@
                            })
                        },
                        Err(message) => {
                            &&& !can_encode(old(self)@.cipher, item.content@)
                            &&& message@ == "failed to encrypt content"@
                            &&& final(self)@ == (SessionView {
                                next_sequence: (sequence + 1) as u64,
                                ..old(self)@
                            })
                        },
                    }
                },
                None => r matches Err(message) && message@ == "memory IDs are used up"@
                    && final(self)@ == (SessionView { next_sequence: u64::MAX, ..old(self)@ }),
            },
    {
        let id = match self.reserve_id(item.kind) {
            Some(id) => id,
            None => {
                return Err("memory IDs are used up".to_owned());
            },
        };
        let pointer = MemoryPointer {
            id: id.clone(),
            kind: item.kind,
            created_at,
            source_tool: item.source_tool,
            token_estimate: message::estimate_tokens(item.content.as_str()),
            importance: item.importance,
            pinned: item.pinned,
            parent_id: None,
            metadata: item.metadata,
        };
        let kept = pointer.copy();
        let turn_id = message::copy_text(&item.turn_id);
        match self.encode_item(kept, turn_id, item.content.as_str()) {
            Ok(encoded) => {
                let ghost model = encoded@;
                let line = record_line(&StoreRecord::Item { item: encoded });
                assert(encodes(
                    old(self)@.cipher,
                    pointer@,
                    text::opt(item.turn_id),
                    item.content@,
                    model,
                ));
                Ok(PendingStore { pointer, turn_id: item.turn_id, content: item.content, line })
            },
            Err(message) => {
                self.release_id(id.as_str());
                proof {
                    let reserved = old(self)@.index.reserved;
                    let other = |x: Seq<char>| x != id@;
                    assert(!reserved.contains(id@));
                    lemma_filter_all(reserved, other);
                    reveal(Seq::filter);
                    assert(reserved.push(id@).drop_last() =~= reserved);
                    assert(reserved.push(id@).filter(other) =~= reserved);
                    assert(self@ =~= SessionView {
                        next_sequence: self@.next_sequence,
                        ..old(self)@
                    });
                }
                Err(message)
            },
        }
    }

    /// Files a record that was appended to the store at `offset`.
    pub fn finish_store(&mut self, pending: PendingStore, offset: u64) -> (r: MemoryPointer)
        requires
            old(self).wf(),
            pending.pointer.wf(),
        ensures
            final(self).wf(),
            r@ == pending.pointer@,
            r.wf(),
            ({
                let released = IndexView {
                    reserved: old(self)@.index.reserved.filter(
                        |x: Seq<char>| x != pending.pointer.id@,
                    ),
                    ..old(self)@.index
                };
                final(self)@ == (SessionView {
                    index: released.with_item(
                        LocationView {
                            offset,
                            length: pending.line@.len() as usize,
                            pointer: pending.pointer@,
                            turn_id: text::opt(pending.turn_id),
                        },
                    ),
                    cache: cache::cache_insert(
                        old(self)@.cache,
                        old(self)@.cache_capacity as nat,
                        pending.pointer.id@,
                        pending.content@,
                    ),
                    ..old(self)@
                })
            }),
    {
        let id = pending.pointer.id.clone();
        self.release_id(id.as_str());
        let kept = pending.pointer.copy();
        let length: usize = pending.line.len();
        self.index.file(
            RecordLocation { offset, length, pointer: pending.pointer, turn_id: pending.turn_id },
        );
        self.cache.insert(id, pending.content);
        kept
    }

    /// A fresh turn ID.
    pub fn allocate_turn_id(&mut self) -> (r: String)
        requires
            old(self).wf(),
        ensures
            final(self).wf(),
            r@ == turn_id(old(self).session_hash, old(self).next_turn_sequence),
            final(self)@ == (SessionView {
                next_turn_sequence: if old(self).next_turn_sequence == u64::MAX {
                    0
                } else {
                    (old(self).next_turn_sequence + 1) as u64
                },
                ..old(self)@
            }),
    {
        let sequence: u64 = self.next_turn_sequence;
        self.next_turn_sequence = sequence.wrapping_add(1);
        let mut r = "tx-".to_owned();
        let hash = text::hex_fixed_of(self.session_hash, 16);
        r.append(hash.as_str());
        r.append("-");
        let digits = text::hex_padded_of(sequence, 8);
        r.append(digits.as_str());
        r
    }

    /// The content of `id` and its pointer, from the cache or from the bytes of
    /// the store.
    pub fn read(&mut self, id: &str, active_turn: Option<&str>, records: &[u8]) -> (r: Result<
        Option<(MemoryPointer, String)>,
        String,
    >)
        requires
            old(self).wf(),
        ensures
            final(self).wf(),
            final(self)@ == old(self)@.after_read(id@, text::opt(active_turn), records@),
            match old(self)@.read(id@, text::opt(active_turn), records@) {
                Ok(Some((pointer, content))) => r matches Ok(Some((p, c))) && p@ == pointer
                    && p.wf() && c@ == content,
                Ok(None) => r matches Ok(None),
                Err(message) => r matches Err(m) && m@ == message,
            },
            forall|pointer: PointerView, turn_id: Option<Seq<char>>, content: Seq<char>|
                #[trigger] old(self)@.holds(id@, records@, pointer, turn_id, content) && (
                cache::cached(old(self)@.cache, id@) is None || cache::cached(
                    old(self)@.cache,
                    id@,
                ) == Some(content)) && old(self)@.index.pointer(id@, text::opt(active_turn)) is Some
                    ==> (r matches Ok(Some((_, c))) && c@ == content),
    {
        let pointer = match self.index.pointer(id, active_turn) {
            Some(pointer) => pointer,
            None => {
                return Ok(None);
            },
        };
        match self.cache.get(id) {
            Some(content) => {
                return Ok(Some((pointer, content)));
            },
            None => {},
        }
        let content = match self.read_stored(id, records) {
            Ok(content) => content,
            Err(message) => {
                return Err(message);
            },
        };
        self.cache.insert(id.to_owned(), content.clone());
        Ok(Some((pointer, content)))
    }

    fn read_stored(&self, id: &str, records: &[u8]) -> (r: Result<String, String>)
        requires
            self.wf(),
            self@.index.location(id@) is Some,
        ensures
            text::res(r) == stored_content(
                self@.cipher,
                self@.records_path,
                id@,
                self@.index.location(id@)->0,
                records@,
            ),
            forall|pointer: PointerView, turn_id: Option<Seq<char>>, content: Seq<char>|
                #[trigger] self@.holds(id@, records@, pointer, turn_id, content) ==> (r matches Ok(
                    c,
                ) && c@ == content),
    {
        let location = match self.index.entries.get(id) {
            Some(location) => location,
            None => {
                return Err(String::new());
            },
        };
        let total: usize = records.len();
        if location.offset > total as u64 || location.length > total - location.offset as usize {
            return Err(text::concat("failed to read ", self.records_path.as_str()));
        }
        let start: usize = location.offset as usize;
        let line = index::copy_bytes(records, start, start + location.length);
        let item = match index::parse_line(line.as_slice()) {
            Some(StoreRecord::Item { item }) => item,
            Some(_) => {
                return Err("memory index points to a non-item record".to_owned());
            },
            None => {
                return Err("failed to parse indexed memory record".to_owned());
            },
        };
        if !text::same(item.pointer.id.as_str(), id) {
            let mut message = "memory index for ".to_owned();
            message.append(id);
            message.append(" points to ");
            message.append(item.pointer.id.as_str());
            return Err(message);
        }
        match &item.encryption {
            None => Ok(item.content),
            Some(encryption) => match &self.cipher {
                None => Err(
                    "memory content is encrypted; set ZEX_MEMORY_ENCRYPTION_KEY to unlock it".to_owned(),
                ),
                Some(cipher) => cipher.decrypt(id, item.content.as_str(), encryption),
            },
        }
    }

    /// The visible pointer that a fingerprint leads to.
    pub fn pointer_by_tool_fingerprint(&self, fingerprint: &str, active_turn: Option<&str>) -> (r:
        Option<MemoryPointer>)
        requires
            self.wf(),
        ensures
            text::opt(r) == self@.by_fingerprint(
                self@.index.tool_fingerprints,
                fingerprint@,
                text::opt(active_turn),
            ),
            r matches Some(pointer) ==> pointer.wf(),
    {
        match self.index.tool_fingerprints.get(fingerprint) {
            Some(id) => self.index.pointer(id.as_str(), active_turn),
            None => None,
        }
    }

    /// The visible pointer that a fingerprint leads to.
    pub fn pointer_by_message_fingerprint(&self, fingerprint: &str, active_turn: Option<&str>) -> (r:
        Option<MemoryPointer>)
        requires
            self.wf(),
        ensures
            text::opt(r) == self@.by_fingerprint(
                self@.index.message_fingerprints,
                fingerprint@,
                text::opt(active_turn),
            ),
            r matches Some(pointer) ==> pointer.wf(),
    {
        match self.index.message_fingerprints.get(fingerprint) {
            Some(id) => self.index.pointer(id.as_str(), active_turn),
            None => None,
        }
    }

    /// Sets the pin of a visible record by hand. What is returned is what it
    /// takes to undo the change should it not be persisted.
    pub fn set_pinned(&mut self, id: &str, pinned: bool, active_turn: Option<&str>) -> (r: Result<
        PinChange,
        String,
    >)
        requires
            old(self).wf(),
        ensures
            final(self).wf(),
            match old(self)@.index.pointer(id@, text::opt(active_turn)) {
                None => r matches Err(message) && message@ == pointers::missing_message(id@)
                    && final(self)@ == old(self)@,
                Some(pointer) => {
                    &&& r matches Ok(change) && change.pointer.wf() && change.pointer@ == (
                    PointerView { pinned, ..pointer }) && change.previous == pointer.pinned
                        && change.previous_override == textmap::lookup(
                        old(self)@.pin_overrides,
                        id@,
                    )
                    &&& final(self)@ == old(self)@.with_pin(id@, pinned)
                },
            },
    {
        let ghost before = self@;
        let pointer = match self.index.pointer(id, active_turn) {
            Some(pointer) => pointer,
            None => {
                return Err(pointers::missing_id_error(id));
            },
        };
        let previous = pointer.pinned;
        let previous_override: Option<bool> = match self.pin_overrides.get(id) {
            Some(value) => Some(*value),
            None => None,
        };
        self.pin_overrides.insert(id.to_owned(), pinned);
        self.index.set_pin(id, pinned);
        let mut updated = pointer;
        updated.pinned = pinned;
        assert(self@ =~= before.with_pin(id@, pinned));
        Ok(PinChange { pointer: updated, previous, previous_override })
    }

    /// Takes back a change of a pin.
    pub fn restore_pin_state(&mut self, id: &str, pinned: bool, previous_override: Option<bool>)
        requires
            old(self).wf(),
        ensures
            final(self).wf(),
            final(self)@ == old(self)@.with_pin_restored(id@, pinned, previous_override),
    {
        let ghost before = self@;
        self.index.set_pin(id, pinned);
        match previous_override {
            Some(value) => {
                self.pin_overrides.insert(id.to_owned(), value);
            },
            None => {
                self.pin_overrides.remove(id);
            },
        }
        assert(self@ =~= before.with_pin_restored(id@, pinned, previous_override));
    }

    /// The IDs of the automatic pins beyond `limit`, the oldest first.
    pub fn excess_auto_pins(&self, limit: usize, active_turn: Option<&str>) -> (r: Vec<String>)
        requires
            self.wf(),
        ensures
            text::views(r@) == self@.excess_pins(limit as nat, text::opt(active_turn)).map_values(
                |p: PointerView| p.id,
            ),
    {
        let visible = self.index.pointers(active_turn);
        let ghost model = self@.index.pointers(text::opt(active_turn));
        let ghost overrides = self@.pin_overrides;
        let ghost automatic = |p: PointerView| p.pinned && !textmap::has_key(overrides, p.id);
        let mut found: Vec<String> = Vec::new();
        let mut i: usize = 0;
        proof {
            reveal(Seq::filter);
        }
        assert(text::views(found@) =~= model.take(0).filter(automatic).map_values(
            |p: PointerView| p.id,
        ));
        while i < visible.len()
            invariant
                i <= visible@.len(),
                self.wf(),
                text::views(visible@) == model,
                overrides == self@.pin_overrides,
                automatic == (|p: PointerView| p.pinned && !textmap::has_key(overrides, p.id)),
                text::views(found@) == model.take(i as int).filter(automatic).map_values(
                    |p: PointerView| p.id,
                ),
            decreases visible@.len() - i,
        {
            proof {
                reveal(Seq::filter);
            }
            let ghost upto = model.take(i as int + 1);
            assert(upto.drop_last() =~= model.take(i as int));
            assert(upto.last() == visible@[i as int]@);
            let id = visible[i].id.clone();
            proof {
                text::lemma_views_push(found@, id);
            }
            if visible[i].pinned && !self.pin_overrides.contains_key(id.as_str()) {
                found.push(id);
            }
            i = i + 1;
            assert(text::views(found@) =~= upto.filter(automatic).map_values(
                |p: PointerView| p.id,
            ));
        }
        assert(model.take(model.len() as int) =~= model);
        let ghost all = self@.automatic_pins(text::opt(active_turn));
        assert(all == model.filter(automatic));
        let count: usize = found.len();
        assert(text::views(found@).len() == all.len());
        let excess: usize = if count > limit {
            count - limit
        } else {
            0
        };
        let ghost whole = text::views(found@);
        found.truncate(excess);
        assert(text::views(found@) =~= whole.take(excess as int));
        assert(text::views(found@) =~= self@.excess_pins(
            limit as nat,
            text::opt(active_turn),
        ).map_values(|p: PointerView| p.id));
        found
    }

    /// The line that an audit event is logged as.
    pub fn encode_audit(&self, audit: &AuditEvent) -> (r: Result<Vec<u8>, String>)
        requires
            self.wf(),
        ensures
            match r {
                Ok(line) => audit_line(text::opt(self.cipher), audit@, line@) && can_encode(
                    text::opt(self.cipher),
                    json::json_text(record::audit_json(audit@)),
                ),
                Err(message) => !can_encode(
                    text::opt(self.cipher),
                    json::json_text(record::audit_json(audit@)),
                ) && message@ == "failed to encrypt content"@,
            },
    {
        let plain = record::audit_to_json(audit).to_text();
        match &self.cipher {
            Some(cipher) => match cipher.encrypt("audit", plain.as_str()) {
                Ok((content, encryption)) => {
                    let mut fields: Vec<(String, Json)> = Vec::new();
                    json::push_field(&mut fields, "format", Json::Unsigned(1));
                    json::push_field(
                        &mut fields,
                        "encryption",
                        record::encryption_to_json(&encryption),
                    );
                    json::push_text(&mut fields, "content", content.as_str());
                    assert(json::fields_view(fields@) =~= seq![
                        ("format"@, JsonView::Unsigned(1)),
                        ("encryption"@, record::encryption_json(encryption@)),
                        ("content"@, JsonView::Text(content@)),
                    ]);
                    let sealed = Json::Object(fields);
                    assert(sealed@ == sealed_audit_json(content@, encryption@));
                    let line = sealed.to_text();
                    let mut bytes: Vec<u8> = line.as_str().as_bytes_vec();
                    bytes.push(10);
                    assert(seals_audit(cipher@.key, audit@, content@, encryption@, bytes@));
                    Ok(bytes)
                },
                Err(message) => Err(message),
            },
            None => {
                let mut bytes: Vec<u8> = plain.as_str().as_bytes_vec();
                bytes.push(10);
                Ok(bytes)
            },
        }
    }
}

// ---------------------------------------------------------------------------
// Audit log
// ---------------------------------------------------------------------------

/// Whether the audit log is rotated before a record of `next_record_bytes` is
/// appended to its `current_bytes`.
pub fn audit_needs_rotation(current_bytes: u64, next_record_bytes: usize) -> (r: bool)
    ensures
        r == (current_bytes > 0 && current_bytes + next_record_bytes > AUDIT_ROTATE_BYTES),
{
    current_bytes > 0 && current_bytes.saturating_add(next_record_bytes as u64)
        > AUDIT_ROTATE_BYTES
}

pub open spec fn is_archive(name: Seq<char>) -> bool {
    text::starts_with(name, "audit-"@) && text::ends_with(name, ".jsonl"@)
}

/// The archives among the first `n` file names, sorted.
pub open spec fn archives(names: Seq<Seq<char>>, n: nat) -> Seq<(Seq<char>, bool)>
    decreases n,
{
    if n == 0 {
        Seq::empty()
    } else if is_archive(names[n - 1]) {
        textmap::inserted(archives(names, (n - 1) as nat), names[n - 1], true)
    } else {
        archives(names, (n - 1) as nat)
    }
}

/// Which of the files in a memory directory are audit archives beyond the
/// limit: all but the last few in the order of their names.
pub fn archives_to_remove(names: &Vec<String>) -> (r: Vec<String>)
    ensures
        ({
            let all = archives(text::views(names@), names@.len());
            let count = if all.len() > AUDIT_ARCHIVE_LIMIT {
                all.len() - AUDIT_ARCHIVE_LIMIT
            } else {
                0
            };
            text::views(r@) == all.take(count).map_values(|e: (Seq<char>, bool)| e.0)
        }),
{
    let mut sorted: TextMap<bool> = TextMap::new();
    let mut i: usize = 0;
    while i < names.len()
        invariant
            i <= names@.len(),
            sorted.wf(),
            sorted@ == archives(text::views(names@), i as nat),
        decreases names@.len() - i,
    {
        let name = names[i].as_str();
        assert(text::views(names@)[i as int] == name@);
        if text::starts_with_of(name, "audit-") && text::ends_with_of(name, ".jsonl") {
            sorted.insert(names[i].clone(), true);
        }
        i = i + 1;
    }
    let total: usize = sorted.entries.len();
    let count: usize = if total > AUDIT_ARCHIVE_LIMIT {
        total - AUDIT_ARCHIVE_LIMIT
    } else {
        0
    };
    let mut r: Vec<String> = Vec::new();
    let mut j: usize = 0;
    let ghost goal = sorted@.take(count as int).map_values(|e: (Seq<char>, bool)| e.0);
    while j < count
        invariant
            j <= count <= sorted.entries@.len(),
            goal == sorted@.take(count as int).map_values(|e: (Seq<char>, bool)| e.0),
            text::views(r@) == goal.take(j as int),
        decreases count - j,
    {
        let name = sorted.entries[j].0.clone();
        assert(sorted@[j as int].0 == name@);
        proof {
            text::lemma_views_push(r@, name);
        }
        r.push(name);
        j = j + 1;
        assert(text::views(r@) =~= goal.take(j as int));
    }
    assert(goal.take(count as int) =~= goal);
    r
}

/// A new record gets an ID that no other has: the first one from the next number
/// on that is free.
pub proof fn law_new_ids_are_free(
    index: IndexView,
    kind: MemoryKind,
    session_hash: u64,
    sequence: u64,
)
    ensures
        match first_free(index, kind, session_hash, sequence) {
            Some(n) => {
                let id = memory_id(kind, session_hash, n);
                &&& sequence <= n < u64::MAX
                &&& !textmap::has_key(index.entries, id)
                &&& !index.reserved.contains(id)
                &&& forall|m: u64|
                    sequence <= m < n ==> textmap::has_key(
                        index.entries,
                        #[trigger] memory_id(kind, session_hash, m),
                    ) || index.reserved.contains(memory_id(kind, session_hash, m))
            },
            None => forall|m: u64|
                sequence <= m < u64::MAX ==> textmap::has_key(
                    index.entries,
                    #[trigger] memory_id(kind, session_hash, m),
                ) || index.reserved.contains(memory_id(kind, session_hash, m)),
        },
    decreases u64::MAX - sequence,
{
    if sequence < u64::MAX && !index.is_free(memory_id(kind, session_hash, sequence)) {
        law_new_ids_are_free(index, kind, session_hash, (sequence + 1) as u64);
    }
}

/// The ID of a record is valid, and its number can be read from it again: IDs of
/// different numbers are different.
pub proof fn law_memory_ids_are_numbered(kind: MemoryKind, session_hash: u64, sequence: u64)
    requires
        sequence < 0x1_0000_0000,
    ensures
        ids::valid_id(memory_id(kind, session_hash, sequence)),
        ids::memory_sequence(memory_id(kind, session_hash, sequence)) == sequence,
{
    let id = memory_id(kind, session_hash, sequence);
    let hash = text::hex_fixed(session_hash as nat, 16);
    let number = text::hex_padded(sequence as nat, 8);
    let digits = hash + number;
    let head = "§"@ + record::kind_prefix(kind);
    ids::lemma_hex_fixed(session_hash as nat, 16);
    reveal_with_fuel(ids::hex_room, 9);
    assert(ids::hex_room(8) == 0x1_0000_0000);
    ids::law_hex_is_read_back(sequence as nat, 8);
    reveal_strlit("_");
    reveal_strlit("§");
    assert(id =~= head.push('_') + digits);
    assert forall|i: int| 0 <= i < digits.len() implies ids::is_hex(#[trigger] digits[i]) by {
        if i < 16 {
            assert(digits[i] == hash[i]);
        } else {
            assert(digits[i] == number[i - 16]);
        }
    }
    assert(!digits.contains('_')) by {
        if digits.contains('_') {
            let i = digits.index_of('_');
            assert(ids::is_hex(digits[i]));
        }
    }
    ids::lemma_after_last_is(head, '_', digits);
    assert(digits.skip(16) =~= number);
    assert(digits.len() == 24);

    let k = lemma_kind_prefix(kind);
    let p = ids::prefixes()[k];
    assert(head.push('_') =~= p);
    assert(id.subrange(0, p.len() as int) =~= p);
    assert(text::starts_with(id, ids::prefixes()[k]));
    assert(id.skip(p.len() as int) =~= digits);
}

proof fn lemma_kind_prefix(kind: MemoryKind) -> (k: int)
    ensures
        0 <= k < 4,
        ids::prefixes()[k] == "§"@ + record::kind_prefix(kind) + "_"@,
{
    reveal_strlit("§");
    reveal_strlit("_");
    reveal_strlit("obs");
    reveal_strlit("turn");
    reveal_strlit("decision");
    reveal_strlit("summary");
    reveal_strlit("§obs_");
    reveal_strlit("§turn_");
    reveal_strlit("§decision_");
    reveal_strlit("§summary_");
    let whole = "§"@ + record::kind_prefix(kind) + "_"@;
    match kind {
        MemoryKind::ToolResult | MemoryKind::FileSnapshot => {
            assert("§obs_"@ =~= whole);
            0
        },
        MemoryKind::Message => {
            assert("§turn_"@ =~= whole);
            1
        },
        MemoryKind::Decision => {
            assert("§decision_"@ =~= whole);
            2
        },
        MemoryKind::Summary => {
            assert("§summary_"@ =~= whole);
            3
        },
    }
}

/// Of the pins that were set without being asked for only the oldest are in
/// excess, and only as many as exceed the limit.
pub proof fn law_only_excess_pins_go(
    session: SessionView,
    limit: nat,
    active_turn: Option<Seq<char>>,
)
    ensures
        ({
            let automatic = session.automatic_pins(active_turn);
            let excess = session.excess_pins(limit, active_turn);
            &&& automatic.len() <= limit ==> excess.len() == 0
            &&& automatic.len() > limit ==> excess.len() + limit == automatic.len()
            &&& excess.len() <= automatic.len() && automatic.take(excess.len() as int) == excess
            &&& forall|i: int|
                0 <= i < automatic.len() ==> (#[trigger] automatic[i]).pinned && !textmap::has_key(
                    session.pin_overrides,
                    automatic[i].id,
                )
        }),
{
    let automatic = session.automatic_pins(active_turn);
    let excess = session.excess_pins(limit, active_turn);
    assert(automatic.take(excess.len() as int) =~= excess);
    let keep = |p: PointerView| p.pinned && !textmap::has_key(session.pin_overrides, p.id);
    let all = session.index.pointers(active_turn);
    assert forall|i: int| 0 <= i < automatic.len() implies (#[trigger] automatic[i]).pinned
        && !textmap::has_key(session.pin_overrides, automatic[i].id) by {
        all.lemma_filter_pred(keep, i);
    }
}

proof fn lemma_pins_keep_records(
    index: IndexView,
    overrides: Seq<(Seq<char>, bool)>,
    path: Seq<char>,
)
    requires
        textmap::sorted(index.entries),
    ensures
        with_overrides(index, overrides, path) matches Ok(next) ==> {
            &&& next.order == index.order
            &&& next.turn_states == index.turn_states
            &&& textmap::sorted(next.entries)
            &&& forall|id: Seq<char>| #[trigger]
                textmap::has_key(next.entries, id) == textmap::has_key(index.entries, id)
        },
    decreases overrides.len(),
{
    if overrides.len() > 0 {
        lemma_pins_keep_records(index, overrides.drop_last(), path);
        if let Ok(done) = with_overrides(index, overrides.drop_last(), path) {
            let (id, pinned) = overrides.last();
            if let Some(location) = done.location(id) {
                textmap::lemma_inserted(done.entries, id, index::pin_location(location, pinned));
                if let Ok(next) = with_overrides(index, overrides, path) {
                    assert forall|k: Seq<char>| #[trigger]
                        textmap::has_key(next.entries, k) == textmap::has_key(index.entries, k) by {
                        assert(textmap::has_key(done.entries, k) == textmap::has_key(
                            index.entries,
                            k,
                        ));
                    }
                }
            }
        }
    }
}

/// Saved pins are refused only where one has a malformed ID or names no record.
pub proof fn law_saved_pins_are_refused_for_a_reason(
    index: IndexView,
    overrides: Seq<(Seq<char>, bool)>,
    path: Seq<char>,
)
    requires
        textmap::sorted(index.entries),
    ensures
        with_overrides(index, overrides, path) is Ok <==> forall|k: int|
            0 <= k < overrides.len() ==> ids::valid_id((#[trigger] overrides[k]).0)
                && textmap::has_key(index.entries, overrides[k].0),
    decreases overrides.len(),
{
    if overrides.len() > 0 {
        let rest = overrides.drop_last();
        let n = overrides.len() - 1;
        law_saved_pins_are_refused_for_a_reason(index, rest, path);
        lemma_pins_keep_records(index, rest, path);
        assert(overrides[n] == overrides.last());
        if with_overrides(index, overrides, path) is Ok {
            assert forall|k: int| 0 <= k < overrides.len() implies ids::valid_id(
                (#[trigger] overrides[k]).0,
            ) && textmap::has_key(index.entries, overrides[k].0) by {
                if k < n {
                    assert(rest[k] == overrides[k]);
                } else {
                    let done = with_overrides(index, rest, path)->Ok_0;
                    assert(textmap::has_key(done.entries, overrides.last().0));
                }
            }
        } else if with_overrides(index, rest, path) is Err {
            let k = choose|k: int|
                0 <= k < rest.len() && !(ids::valid_id((#[trigger] rest[k]).0) && textmap::has_key(
                    index.entries,
                    rest[k].0,
                ));
            assert(overrides[k] == rest[k]);
        } else {
            let done = with_overrides(index, rest, path)->Ok_0;
            assert(textmap::has_key(done.entries, overrides.last().0) == textmap::has_key(
                index.entries,
                overrides.last().0,
            ));
        }
    }
}

/// A record that no saved pin names stays as it was.
pub proof fn law_other_records_keep_their_pins(
    index: IndexView,
    overrides: Seq<(Seq<char>, bool)>,
    path: Seq<char>,
    id: Seq<char>,
    active_turn: Option<Seq<char>>,
)
    requires
        textmap::sorted(index.entries),
        forall|k: int| 0 <= k < overrides.len() ==> (#[trigger] overrides[k]).0 != id,
    ensures
        with_overrides(index, overrides, path) matches Ok(next) ==> next.pointer(id, active_turn)
            == index.pointer(id, active_turn),
    decreases overrides.len(),
{
    if overrides.len() > 0 {
        let rest = overrides.drop_last();
        assert forall|k: int| 0 <= k < rest.len() implies (#[trigger] rest[k]).0 != id by {
            assert(rest[k] == overrides[k]);
        }
        law_other_records_keep_their_pins(index, rest, path, id, active_turn);
        lemma_pins_keep_records(index, rest, path);
        assert(overrides[overrides.len() - 1].0 != id);
        if let Ok(done) = with_overrides(index, rest, path) {
            index::law_pinning_sets_the_pin(
                done,
                overrides.last().0,
                overrides.last().1,
                id,
                active_turn,
            );
        }
    }
}

/// A saved pin is set on the record that it names, unless a later one is, and
/// nothing else of the record changes.
pub proof fn law_saved_pins_are_set(
    index: IndexView,
    overrides: Seq<(Seq<char>, bool)>,
    path: Seq<char>,
    k: int,
    active_turn: Option<Seq<char>>,
)
    requires
        textmap::sorted(index.entries),
        0 <= k < overrides.len(),
        forall|later: int|
            k < later < overrides.len() ==> (#[trigger] overrides[later]).0 != overrides[k].0,
    ensures
        with_overrides(index, overrides, path) matches Ok(next) ==> next.pointer(
            overrides[k].0,
            active_turn,
        ) == match index.pointer(overrides[k].0, active_turn) {
            Some(p) => Some(PointerView { pinned: overrides[k].1, ..p }),
            None => None,
        },
    decreases overrides.len(),
{
    let rest = overrides.drop_last();
    let n = overrides.len() - 1;
    let id = overrides[k].0;
    lemma_pins_keep_records(index, rest, path);
    if k < n {
        assert(rest[k] == overrides[k]);
        assert forall|later: int| k < later < rest.len() implies (#[trigger] rest[later]).0
            != rest[k].0 by {
            assert(rest[later] == overrides[later]);
        }
        law_saved_pins_are_set(index, rest, path, k, active_turn);
        assert(overrides[n].0 != id);
    } else {
        lemma_pins_change_pins(index, rest, path, id, active_turn);
    }
    if let Ok(done) = with_overrides(index, rest, path) {
        index::law_pinning_sets_the_pin(
            done,
            overrides.last().0,
            overrides.last().1,
            id,
            active_turn,
        );
    }
}

proof fn lemma_pins_change_pins(
    index: IndexView,
    overrides: Seq<(Seq<char>, bool)>,
    path: Seq<char>,
    id: Seq<char>,
    active_turn: Option<Seq<char>>,
)
    requires
        textmap::sorted(index.entries),
    ensures
        with_overrides(index, overrides, path) matches Ok(next) ==> match (
            index.pointer(id, active_turn),
            next.pointer(id, active_turn),
        ) {
            (Some(p), Some(q)) => q == (PointerView { pinned: q.pinned, ..p }),
            (None, None) => true,
            _ => false,
        },
    decreases overrides.len(),
{
    if overrides.len() > 0 {
        let rest = overrides.drop_last();
        lemma_pins_change_pins(index, rest, path, id, active_turn);
        lemma_pins_keep_records(index, rest, path);
        if let Ok(done) = with_overrides(index, rest, path) {
            index::law_pinning_sets_the_pin(
                done,
                overrides.last().0,
                overrides.last().1,
                id,
                active_turn,
            );
        }
    }
}

/// The audit archives among some files are exactly those whose names begin and
/// end as an archive's do, each once, in the order of their names.
pub proof fn law_archives_are_known_by_name(names: Seq<Seq<char>>, n: nat, name: Seq<char>)
    requires
        n <= names.len(),
    ensures
        textmap::sorted(archives(names, n)),
        textmap::has_key(archives(names, n), name) <==> names.take(n as int).contains(name)
            && name.len() >= 6 && name.take(6) == "audit-"@ && name.skip(name.len() - 6)
            == ".jsonl"@,
    decreases n,
{
    reveal_strlit("audit-");
    reveal_strlit(".jsonl");
    if n > 0 {
        let m = (n - 1) as nat;
        law_archives_are_known_by_name(names, m, name);
        textmap::lemma_inserted(archives(names, m), names[n - 1], true);
        assert(names.take(n as int) =~= names.take(m as int).push(names[n - 1]));
        if names.take(m as int).contains(name) {
            let k = choose|k: int| 0 <= k < m && names.take(m as int)[k] == name;
            assert(names.take(n as int)[k] == name);
        }
        assert(names.take(n as int)[n - 1] == names[n - 1]);
        assert(is_archive(name) <==> name.len() >= 6 && name.take(6) =~= "audit-"@ && name.skip(
            name.len() - 6,
        ) =~= ".jsonl"@) by {
            if name.len() >= 6 {
                assert(name.subrange(0, 6) =~= name.take(6));
                assert(name.subrange(name.len() - 6, name.len() as int) =~= name.skip(
                    name.len() - 6,
                ));
            }
        }
    }
}

proof fn lemma_entries_read_back(overrides: Seq<(Seq<char>, bool)>)
    requires
        textmap::sorted(overrides),
    ensures
        bool_entries(override_fields(overrides)) == Some(overrides),
    decreases overrides.len(),
{
    let fields = override_fields(overrides);
    if overrides.len() > 0 {
        let rest = overrides.drop_last();
        assert(fields.drop_last() =~= override_fields(rest));
        assert(textmap::sorted(rest)) by {
            assert forall|i: int, j: int| 0 <= i < j < rest.len() implies textmap::text_less(
                #[trigger] rest[i].0,
                #[trigger] rest[j].0,
            ) by {
                assert(textmap::text_less(overrides[i].0, overrides[j].0));
            }
        }
        lemma_entries_read_back(rest);
        let last = overrides.last();
        assert(fields.last() == (last.0, JsonView::Bool(last.1)));
        assert forall|i: int| 0 <= i < rest.len() implies textmap::text_less(
            #[trigger] rest[i].0,
            last.0,
        ) by {
            assert(textmap::text_less(overrides[i].0, overrides[overrides.len() - 1].0));
        }
        lemma_goes_last(rest, last.0, last.1);
        assert(rest.push(last) =~= overrides);
    }
}

proof fn lemma_goes_last(s: Seq<(Seq<char>, bool)>, key: Seq<char>, value: bool)
    requires
        forall|i: int| 0 <= i < s.len() ==> textmap::text_less(#[trigger] s[i].0, key),
    ensures
        textmap::inserted(s, key, value) == s.push((key, value)),
    decreases s.len(),
{
    if s.len() > 0 {
        let rest = s.skip(1);
        assert forall|i: int| 0 <= i < rest.len() implies textmap::text_less(
            #[trigger] rest[i].0,
            key,
        ) by {
            assert(rest[i] == s[i + 1]);
        }
        lemma_goes_last(rest, key, value);
        assert(textmap::text_less(s[0].0, key));
        if textmap::text_less(key, s[0].0) {
            textmap::lemma_text_less_transitive(s[0].0, key, s[0].0);
        }
        textmap::lemma_text_less_irreflexive(s[0].0);
        assert(textmap::inserted(s, key, value) =~= s.push((key, value)));
    } else {
        assert(textmap::inserted(s, key, value) =~= s.push((key, value)));
    }
}

/// A pin state that was written is read back as it was.
pub proof fn law_pin_state_is_read_back(overrides: Seq<(Seq<char>, bool)>)
    requires
        textmap::sorted(overrides),
    ensures
        pin_state_of(pin_state_json(overrides)) == Some((PIN_STATE_FORMAT, overrides)),
{
    let value = pin_state_json(overrides);
    let fields = seq![
        ("format"@, JsonView::Unsigned(PIN_STATE_FORMAT as u64)),
        ("overrides"@, JsonView::Object(override_fields(overrides))),
    ];
    reveal_strlit("format");
    reveal_strlit("overrides");
    assert("format"@.len() != "overrides"@.len());
    json::lemma_field_at(fields, 0);
    json::lemma_field_at(fields, 1);
    lemma_entries_read_back(overrides);
}

} // verus!
