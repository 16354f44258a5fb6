//! That the records of a store are read as they were written.
use crate::json;
use crate::json::JsonView;
use crate::memory::index;
use crate::memory::record;
use crate::memory::record::AuditView;
use crate::memory::record::ItemView;
use crate::memory::record::MemoryKind;
use crate::memory::record::MemoryTurnState;
use crate::memory::record::RecordView;
use crate::secure::EncryptionView;
use crate::textmap;
use vstd::prelude::*;
use vstd::string::*;
use vstd::utf8::*;

verus! {

/// Whether a record can be read back as it is: its metadata are in order.
pub open spec fn storable(record: RecordView) -> bool {
    record matches RecordView::Item { item } ==> textmap::sorted(item.pointer.metadata)
}

proof fn lemma_names()
    ensures
        "id"@.len() == 2,
        "kind"@.len() == 4 && "kind"@[0] == 'k',
        "item"@.len() == 4 && "item"@[0] == 'i',
        "turn"@.len() == 4 && "turn"@[0] == 't',
        "created_at"@.len() == 10 && "created_at"@[0] == 'c',
        "importance"@.len() == 10 && "importance"@[0] == 'i',
        "encryption"@.len() == 10 && "encryption"@[0] == 'e',
        "source_tool"@.len() == 11 && "source_tool"@[0] == 's',
        "record_type"@.len() == 11 && "record_type"@[0] == 'r',
        "token_estimate"@.len() == 14,
        "pinned"@.len() == 6 && "pinned"@[0] == 'p',
        "format"@.len() == 6 && "format"@[0] == 'f',
        "action"@.len() == 6 && "action"@[0] == 'a',
        "reason"@.len() == 6 && "reason"@[0] == 'r',
        "parent_id"@.len() == 9 && "parent_id"@[0] == 'p',
        "truncated"@.len() == 9 && "truncated"@[0] == 't',
        "metadata"@.len() == 8,
        "turn_id"@.len() == 7 && "turn_id"@[0] == 't',
        "content"@.len() == 7 && "content"@[0] == 'c',
        "aborted"@.len() == 7,
        "nonce"@.len() == 5 && "nonce"@[0] == 'n',
        "state"@.len() == 5 && "state"@[0] == 's',
        "audit"@.len() == 5 && "audit"@[0] == 'a',
        "error"@.len() == 5 && "error"@[0] == 'e',
        "committed"@.len() == 9,
        "returned_tokens"@.len() == 15,
{
    reveal_strlit("id");
    reveal_strlit("kind");
    reveal_strlit("item");
    reveal_strlit("turn");
    reveal_strlit("created_at");
    reveal_strlit("importance");
    reveal_strlit("encryption");
    reveal_strlit("source_tool");
    reveal_strlit("record_type");
    reveal_strlit("token_estimate");
    reveal_strlit("pinned");
    reveal_strlit("format");
    reveal_strlit("action");
    reveal_strlit("reason");
    reveal_strlit("parent_id");
    reveal_strlit("truncated");
    reveal_strlit("metadata");
    reveal_strlit("turn_id");
    reveal_strlit("content");
    reveal_strlit("aborted");
    reveal_strlit("nonce");
    reveal_strlit("state");
    reveal_strlit("audit");
    reveal_strlit("error");
    reveal_strlit("committed");
    reveal_strlit("returned_tokens");
}

proof fn lemma_no_fields(depth: nat)
    ensures
        json::plain(JsonView::Object(Seq::<(Seq<char>, JsonView)>::empty()), depth + 1),
        forall|key: Seq<char>| #[trigger]
            json::last_field(Seq::<(Seq<char>, JsonView)>::empty(), key) is None,
{
}

/// What one more field does to what is read.
proof fn lemma_with_field(
    fields: Seq<(Seq<char>, JsonView)>,
    key: Seq<char>,
    value: Option<JsonView>,
    depth: nat,
)
    requires
        json::plain(JsonView::Object(fields), depth + 1),
        value matches Some(v) ==> json::plain(v, depth),
    ensures
        json::plain(JsonView::Object(json::with_value(fields, key, value)), depth + 1),
        forall|name: Seq<char>| #[trigger]
            json::last_field(json::with_value(fields, key, value), name) == match value {
                Some(v) => if key == name {
                    Some(v)
                } else {
                    json::last_field(fields, name)
                },
                None => json::last_field(fields, name),
            },
{
    match value {
        Some(v) => {
            let all = fields.push((key, v));
            assert(((depth + 1) - 1) as nat == depth);
            assert forall|i: int| 0 <= i < all.len() implies json::plain(
                (#[trigger] all[i]).1,
                depth,
            ) by {
                if i < fields.len() {
                    assert(all[i] == fields[i]);
                    assert(json::plain(JsonView::Object(fields)->Object_0[i].1, depth));
                } else {
                    assert(all[i] == (key, v));
                }
            }
            json::lemma_last_field_push(fields, key, v);
        },
        None => {},
    }
}

pub open spec fn text_value(s: Option<Seq<char>>) -> Option<JsonView> {
    match s {
        Some(s) => Some(JsonView::Text(s)),
        None => None,
    }
}

/// Metadata in order are read in that order.
proof fn lemma_metadata_back(entries: Seq<(Seq<char>, Seq<char>)>)
    requires
        textmap::sorted(entries),
    ensures
        json::canonical_fields(record::metadata_fields(entries)) == record::metadata_fields(
            entries,
        ),
        record::text_entries(record::metadata_fields(entries)) == Some(entries),
        json::plain(JsonView::Object(record::metadata_fields(entries)), 1),
    decreases entries.len(),
{
    let fields = record::metadata_fields(entries);
    assert forall|i: int| 0 <= i < fields.len() implies json::plain((#[trigger] fields[i]).1, 0) by {
        assert(fields[i].1 is Text);
    }
    if entries.len() == 0 {
        assert(entries =~= Seq::<(Seq<char>, Seq<char>)>::empty());
        assert(fields =~= Seq::<(Seq<char>, JsonView)>::empty());
    } else {
        let front = entries.drop_last();
        let lower = record::metadata_fields(front);
        assert forall|i: int, j: int| 0 <= i < j < front.len() implies textmap::text_less(
            #[trigger] front[i].0,
            #[trigger] front[j].0,
        ) by {
            assert(front[i] == entries[i] && front[j] == entries[j]);
        }
        lemma_metadata_back(front);
        assert(fields.drop_last() =~= lower);
        let last = entries.last();
        assert(fields.last() == (last.0, JsonView::Text(last.1)));
        assert forall|i: int, j: int| 0 <= i < j < lower.len() implies textmap::text_less(
            #[trigger] lower[i].0,
            #[trigger] lower[j].0,
        ) by {
            assert(lower[i].0 == front[i].0 && lower[j].0 == front[j].0);
        }
        assert forall|i: int| 0 <= i < lower.len() implies textmap::text_less(
            (#[trigger] lower[i]).0,
            last.0,
        ) by {
            assert(lower[i].0 == entries[i].0);
        }
        assert forall|i: int| 0 <= i < front.len() implies textmap::text_less(
            (#[trigger] front[i]).0,
            last.0,
        ) by {
            assert(front[i] == entries[i]);
        }
        textmap::lemma_inserted_at(
            lower,
            last.0,
            json::canonical(JsonView::Text(last.1)),
            lower.len() as int,
        );
        textmap::lemma_inserted_at(front, last.0, last.1, front.len() as int);
        assert(lower.insert(lower.len() as int, (last.0, JsonView::Text(last.1))) =~= fields);
        assert(front.insert(front.len() as int, last) =~= entries);
    }
}

proof fn lemma_kind_names(kind: MemoryKind)
    ensures
        record::kind_of(record::kind_name(kind)) == Some(kind),
{
    reveal_strlit("tool_result");
    reveal_strlit("file_snapshot");
    reveal_strlit("message");
    reveal_strlit("decision");
    reveal_strlit("summary");
    assert("tool_result"@.len() == 11 && "file_snapshot"@.len() == 13 && "decision"@.len() == 8);
    assert("message"@[0] == 'm' && "summary"@[0] == 's');
}

proof fn lemma_encryption_back(encryption: EncryptionView)
    ensures
        json::plain(record::encryption_json(encryption), 1),
        ({
            let read = json::canonical(record::encryption_json(encryption));
            &&& read is Object
            &&& read.need_number("format"@, 255) == Some(encryption.format as u64)
            &&& read.need_text("nonce"@) == Some(encryption.nonce)
        }),
{
    lemma_names();
    lemma_no_fields(0);
    let none = Seq::<(Seq<char>, JsonView)>::empty();
    let format = JsonView::Unsigned(encryption.format as u64);
    let nonce = JsonView::Text(encryption.nonce);
    lemma_with_field(none, "format"@, Some(format), 0);
    let one = none.push(("format"@, format));
    lemma_with_field(one, "nonce"@, Some(nonce), 0);
    let all = one.push(("nonce"@, nonce));
    assert(record::encryption_json(encryption)->Object_0 =~= all);
    json::lemma_canonical_get(all, "format"@);
    json::lemma_canonical_get(all, "nonce"@);
}

/// What the fields of an item are.
pub open spec fn item_value(item: ItemView, key: Seq<char>) -> Option<JsonView> {
    let p = item.pointer;
    if key == "id"@ {
        Some(JsonView::Text(p.id))
    } else if key == "kind"@ {
        Some(JsonView::Text(record::kind_name(p.kind)))
    } else if key == "created_at"@ {
        Some(JsonView::Text(p.created_at))
    } else if key == "source_tool"@ {
        text_value(p.source_tool)
    } else if key == "token_estimate"@ {
        Some(JsonView::Unsigned(p.token_estimate as u64))
    } else if key == "importance"@ {
        Some(JsonView::Unsigned(p.importance as u64))
    } else if key == "pinned"@ {
        Some(JsonView::Bool(p.pinned))
    } else if key == "parent_id"@ {
        text_value(p.parent_id)
    } else if key == "metadata"@ {
        if p.metadata.len() == 0 {
            None
        } else {
            Some(JsonView::Object(record::metadata_fields(p.metadata)))
        }
    } else if key == "turn_id"@ {
        text_value(item.turn_id)
    } else if key == "encryption"@ {
        match item.encryption {
            Some(encryption) => Some(record::encryption_json(encryption)),
            None => None,
        }
    } else if key == "content"@ {
        Some(JsonView::Text(item.content))
    } else {
        None
    }
}

proof fn lemma_item_fields(item: ItemView)
    requires
        textmap::sorted(item.pointer.metadata),
    ensures
        json::plain(record::item_json(item), 2),
        record::item_json(item) is Object,
        forall|key: Seq<char>| #[trigger]
            json::last_field(record::item_json(item)->Object_0, key) == item_value(item, key),
{
    lemma_names();
    lemma_no_fields(1);
    let p = item.pointer;
    lemma_metadata_back(p.metadata);
    let none = Seq::<(Seq<char>, JsonView)>::empty();
    let id = JsonView::Text(p.id);
    let kind = JsonView::Text(record::kind_name(p.kind));
    let created = JsonView::Text(p.created_at);
    lemma_with_field(none, "id"@, Some(id), 1);
    let f1 = none.push(("id"@, id));
    lemma_with_field(f1, "kind"@, Some(kind), 1);
    let f2 = f1.push(("kind"@, kind));
    lemma_with_field(f2, "created_at"@, Some(created), 1);
    let f3 = f2.push(("created_at"@, created));
    lemma_with_field(f3, "source_tool"@, text_value(p.source_tool), 1);
    let f4 = json::with_value(f3, "source_tool"@, text_value(p.source_tool));
    let tokens = JsonView::Unsigned(p.token_estimate as u64);
    lemma_with_field(f4, "token_estimate"@, Some(tokens), 1);
    let f5 = f4.push(("token_estimate"@, tokens));
    let importance = JsonView::Unsigned(p.importance as u64);
    lemma_with_field(f5, "importance"@, Some(importance), 1);
    let f6 = f5.push(("importance"@, importance));
    lemma_with_field(f6, "pinned"@, Some(JsonView::Bool(p.pinned)), 1);
    let f7 = f6.push(("pinned"@, JsonView::Bool(p.pinned)));
    lemma_with_field(f7, "parent_id"@, text_value(p.parent_id), 1);
    let f8 = json::with_value(f7, "parent_id"@, text_value(p.parent_id));
    let metadata = if p.metadata.len() == 0 {
        None
    } else {
        Some(JsonView::Object(record::metadata_fields(p.metadata)))
    };
    lemma_with_field(f8, "metadata"@, metadata, 1);
    let f9 = json::with_value(f8, "metadata"@, metadata);
    assert(seq![("id"@, id), ("kind"@, kind), ("created_at"@, created)] =~= f3);
    assert(record::pointer_fields(p) == f9);
    lemma_with_field(f9, "turn_id"@, text_value(item.turn_id), 1);
    let f10 = json::with_value(f9, "turn_id"@, text_value(item.turn_id));
    let sealed = match item.encryption {
        Some(encryption) => Some(record::encryption_json(encryption)),
        None => None,
    };
    match item.encryption {
        Some(encryption) => {
            lemma_encryption_back(encryption);
        },
        None => {},
    }
    lemma_with_field(f10, "encryption"@, sealed, 1);
    let f11 = json::with_value(f10, "encryption"@, sealed);
    let content = JsonView::Text(item.content);
    lemma_with_field(f11, "content"@, Some(content), 1);
    let all = f11.push(("content"@, content));
    assert(record::item_json(item) == JsonView::Object(all));
}

proof fn lemma_item_back(item: ItemView)
    requires
        textmap::sorted(item.pointer.metadata),
    ensures
        record::item_of(json::canonical(record::item_json(item))) == Some(item),
        json::plain(record::item_json(item), 2),
{
    lemma_names();
    lemma_item_fields(item);
    lemma_kind_names(item.pointer.kind);
    lemma_metadata_back(item.pointer.metadata);
    let all = record::item_json(item)->Object_0;
    json::lemma_canonical_get(all, "id"@);
    json::lemma_canonical_get(all, "kind"@);
    json::lemma_canonical_get(all, "created_at"@);
    json::lemma_canonical_get(all, "source_tool"@);
    json::lemma_canonical_get(all, "token_estimate"@);
    json::lemma_canonical_get(all, "importance"@);
    json::lemma_canonical_get(all, "pinned"@);
    json::lemma_canonical_get(all, "parent_id"@);
    json::lemma_canonical_get(all, "metadata"@);
    json::lemma_canonical_get(all, "turn_id"@);
    json::lemma_canonical_get(all, "encryption"@);
    json::lemma_canonical_get(all, "content"@);
    let read = json::canonical(record::item_json(item));
    assert(record::metadata_of(read) == Some(item.pointer.metadata)) by {
        if item.pointer.metadata.len() == 0 {
            assert(item.pointer.metadata =~= Seq::<(Seq<char>, Seq<char>)>::empty());
        }
    }
    match item.encryption {
        Some(encryption) => {
            lemma_encryption_back(encryption);
        },
        None => {},
    }
    assert(record::encryption_of(read) == Some(item.encryption));
    assert(record::pointer_of(read) == Some(item.pointer));
}

proof fn lemma_turn_back(turn_id: Seq<char>, state: MemoryTurnState)
    ensures
        record::record_of(json::canonical(record::record_json(RecordView::Turn { turn_id, state })))
            == Some(RecordView::Turn { turn_id, state }),
        json::plain(record::record_json(RecordView::Turn { turn_id, state }), 3),
{
    lemma_names();
    lemma_no_fields(2);
    let none = Seq::<(Seq<char>, JsonView)>::empty();
    let tag = JsonView::Text("turn"@);
    let id = JsonView::Text(turn_id);
    let ended = JsonView::Text(
        match state {
            MemoryTurnState::Committed => "committed"@,
            MemoryTurnState::Aborted => "aborted"@,
        },
    );
    lemma_with_field(none, "record_type"@, Some(tag), 2);
    let one = none.push(("record_type"@, tag));
    lemma_with_field(one, "turn_id"@, Some(id), 2);
    let two = one.push(("turn_id"@, id));
    lemma_with_field(two, "state"@, Some(ended), 2);
    let all = two.push(("state"@, ended));
    assert(record::record_json(RecordView::Turn { turn_id, state })->Object_0 =~= all);
    json::lemma_canonical_get(all, "record_type"@);
    json::lemma_canonical_get(all, "turn_id"@);
    json::lemma_canonical_get(all, "state"@);
}

/// What the fields of an entry of the audit log are.
pub open spec fn audit_value(audit: AuditView, key: Seq<char>) -> Option<JsonView> {
    if key == "action"@ {
        Some(JsonView::Text(record::action_name(audit.action)))
    } else if key == "id"@ {
        Some(JsonView::Text(audit.id))
    } else if key == "created_at"@ {
        Some(JsonView::Text(audit.created_at))
    } else if key == "reason"@ {
        text_value(audit.reason)
    } else if key == "returned_tokens"@ {
        match audit.returned_tokens {
            Some(n) => Some(JsonView::Unsigned(n as u64)),
            None => None,
        }
    } else if key == "truncated"@ {
        if audit.truncated {
            Some(JsonView::Bool(true))
        } else {
            None
        }
    } else if key == "error"@ {
        text_value(audit.error)
    } else {
        None
    }
}

proof fn lemma_audit_fields(audit: AuditView)
    ensures
        json::plain(record::audit_json(audit), 2),
        record::audit_json(audit) is Object,
        forall|key: Seq<char>| #[trigger]
            json::last_field(record::audit_json(audit)->Object_0, key) == audit_value(audit, key),
{
    lemma_names();
    lemma_no_fields(1);
    let none = Seq::<(Seq<char>, JsonView)>::empty();
    let action = JsonView::Text(record::action_name(audit.action));
    let id = JsonView::Text(audit.id);
    let created = JsonView::Text(audit.created_at);
    lemma_with_field(none, "action"@, Some(action), 1);
    let f1 = none.push(("action"@, action));
    lemma_with_field(f1, "id"@, Some(id), 1);
    let f2 = f1.push(("id"@, id));
    lemma_with_field(f2, "created_at"@, Some(created), 1);
    let f3 = f2.push(("created_at"@, created));
    assert(seq![("action"@, action), ("id"@, id), ("created_at"@, created)] =~= f3);
    lemma_with_field(f3, "reason"@, text_value(audit.reason), 1);
    let f4 = json::with_value(f3, "reason"@, text_value(audit.reason));
    let tokens = match audit.returned_tokens {
        Some(n) => Some(JsonView::Unsigned(n as u64)),
        None => None,
    };
    lemma_with_field(f4, "returned_tokens"@, tokens, 1);
    let f5 = json::with_value(f4, "returned_tokens"@, tokens);
    let cut = if audit.truncated {
        Some(JsonView::Bool(true))
    } else {
        None
    };
    lemma_with_field(f5, "truncated"@, cut, 1);
    let f6 = json::with_value(f5, "truncated"@, cut);
    lemma_with_field(f6, "error"@, text_value(audit.error), 1);
    let all = json::with_value(f6, "error"@, text_value(audit.error));
    assert(record::audit_json(audit) == JsonView::Object(all));
}

proof fn lemma_audit_back(audit: AuditView)
    ensures
        record::audit_of(json::canonical(record::audit_json(audit))) == Some(audit),
        json::plain(record::audit_json(audit), 2),
{
    lemma_names();
    lemma_audit_fields(audit);
    reveal_strlit("recall");
    reveal_strlit("recall_missing");
    reveal_strlit("recall_rate_limited");
    reveal_strlit("pin");
    reveal_strlit("unpin");
    assert("recall"@.len() == 6 && "recall_missing"@.len() == 14 && "recall_rate_limited"@.len()
        == 19 && "pin"@.len() == 3 && "unpin"@.len() == 5);
    let all = record::audit_json(audit)->Object_0;
    json::lemma_canonical_get(all, "action"@);
    json::lemma_canonical_get(all, "id"@);
    json::lemma_canonical_get(all, "created_at"@);
    json::lemma_canonical_get(all, "reason"@);
    json::lemma_canonical_get(all, "returned_tokens"@);
    json::lemma_canonical_get(all, "truncated"@);
    json::lemma_canonical_get(all, "error"@);
    assert(record::action_of(record::action_name(audit.action)) == Some(audit.action));
}

proof fn lemma_tagged(tag: Seq<char>, name: Seq<char>, value: JsonView)
    requires
        name.len() < 6,
        json::plain(value, 2),
    ensures
        ({
            let all = seq![("record_type"@, JsonView::Text(tag)), (name, value)];
            let read = json::canonical(JsonView::Object(all));
            &&& json::plain(JsonView::Object(all), 3)
            &&& read.need_text("record_type"@) == Some(tag)
            &&& read.get(name) == Some(json::canonical(value))
        }),
{
    lemma_names();
    lemma_no_fields(2);
    let none = Seq::<(Seq<char>, JsonView)>::empty();
    lemma_with_field(none, "record_type"@, Some(JsonView::Text(tag)), 2);
    let one = none.push(("record_type"@, JsonView::Text(tag)));
    lemma_with_field(one, name, Some(value), 2);
    let all = one.push((name, value));
    assert(seq![("record_type"@, JsonView::Text(tag)), (name, value)] =~= all);
    json::lemma_canonical_get(all, "record_type"@);
    json::lemma_canonical_get(all, name);
}

/// A record whose metadata are in order is read as it was written.
pub proof fn law_record_is_read_back(record: RecordView)
    requires
        storable(record),
    ensures
        record::record_of(json::canonical(record::record_json(record))) == Some(record),
        json::plain(record::record_json(record), 3),
{
    lemma_names();
    match record {
        RecordView::Item { item } => {
            lemma_item_back(item);
            lemma_tagged("item"@, "item"@, record::item_json(item));
        },
        RecordView::Turn { turn_id, state } => {
            lemma_turn_back(turn_id, state);
        },
        RecordView::Audit { audit } => {
            lemma_audit_back(audit);
            lemma_tagged("audit"@, "audit"@, record::audit_json(audit));
        },
    }
}

/// The text of an object ends in a brace, and so do its bytes.
proof fn lemma_last_byte(s: Seq<char>)
    requires
        s.len() > 0,
        s.last() == '}',
    ensures
        encode_utf8(s).len() > 0,
        encode_utf8(s).last() == 125u8,
    decreases s.len(),
{
    if s.len() == 1 {
        assert(is_ascii_chars(s));
        is_ascii_chars_encode_utf8(s);
        assert(s[0] as u8 == encode_utf8(s)[0]);
    } else {
        lemma_last_byte(s.drop_first());
    }
}

/// The line of a record is its text and a line feed.
pub proof fn lemma_record_line(record: RecordView)
    ensures
        index::without_line_ending(encode_utf8(json::json_text(record::record_json(record))).push(10u8))
            == encode_utf8(json::json_text(record::record_json(record))),
{
    let shown = json::json_text(record::record_json(record));
    reveal_strlit("}");
    assert("}"@.len() == 1 && "}"@[0] == '}');
    assert(shown.last() == '}');
    lemma_last_byte(shown);
    assert(encode_utf8(shown).push(10u8).drop_last() =~= encode_utf8(shown));
}

proof fn lemma_scalar_bytes(c: u32)
    requires
        c >= 32,
    ensures
        forall|i: int| 0 <= i < encode_scalar(c).len() ==> #[trigger] encode_scalar(c)[i] != 10,
{
    assert(c >= 32 && c <= 0x7f ==> (c & 0x7f) as u8 != 10) by (bit_vector);
    assert(0xC0u8 | ((c >> 6) & 0x1F) as u8 != 10) by (bit_vector);
    assert(0xE0u8 | ((c >> 12) & 0x0F) as u8 != 10) by (bit_vector);
    assert(0xF0u8 | ((c >> 18) & 0x7) as u8 != 10) by (bit_vector);
    assert(0x80u8 | (c & 0x3F) as u8 != 10) by (bit_vector);
    assert(0x80u8 | ((c >> 6) & 0x3F) as u8 != 10) by (bit_vector);
    assert(0x80u8 | ((c >> 12) & 0x3F) as u8 != 10) by (bit_vector);
}

/// The bytes of a text without control characters have no line feed.
proof fn lemma_quiet_bytes(s: Seq<char>)
    requires
        json::quiet(s),
    ensures
        forall|i: int| 0 <= i < encode_utf8(s).len() ==> #[trigger] encode_utf8(s)[i] != 10,
    decreases s.len(),
{
    if s.len() > 0 {
        let rest = s.drop_first();
        assert forall|i: int| 0 <= i < rest.len() implies #[trigger] rest[i] as u32 >= 32 by {
            assert(rest[i] == s[i + 1]);
        }
        lemma_quiet_bytes(rest);
        assert(s[0] as u32 >= 32);
        lemma_scalar_bytes(s[0] as u32);
        let head = encode_scalar(s[0] as u32);
        assert forall|i: int| 0 <= i < encode_utf8(s).len() implies #[trigger] encode_utf8(s)[i]
            != 10 by {
            if i < head.len() {
                assert(encode_utf8(s)[i] == head[i]);
            } else {
                assert(encode_utf8(s)[i] == encode_utf8(rest)[i - head.len()]);
            }
        }
    }
}

/// The line of a record ends at its only line feed.
pub proof fn lemma_line_of(record: RecordView)
    requires
        storable(record),
    ensures
        index::line_of(record).len() > 0,
        index::line_of(record).last() == 10,
        forall|i: int|
            0 <= i < index::line_of(record).len() - 1 ==> #[trigger] index::line_of(record)[i]
                != 10,
{
    law_record_is_read_back(record);
    json::lemma_quiet_json(record::record_json(record), 3);
    lemma_quiet_bytes(json::json_text(record::record_json(record)));
}

} // verus!
