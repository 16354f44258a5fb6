//! Memory IDs and turn IDs: their form, and the sequence numbers inside them.
use crate::text;
use vstd::prelude::*;
use vstd::string::*;

verus! {

pub const MEMORY_ID_HEX_LEN: usize = 24;

pub open spec fn is_hex(c: char) -> bool {
    text::hex_digit(c) is Some
}

pub open spec fn all_hex(s: Seq<char>) -> bool {
    forall|i: int| 0 <= i < s.len() ==> is_hex(#[trigger] s[i])
}

/// The prefixes that an ID can start with, in the order in which they are
/// looked for.
pub open spec fn prefixes() -> Seq<Seq<char>> {
    seq!["§obs_"@, "§turn_"@, "§decision_"@, "§summary_"@]
}

/// `id` is one of the prefixes followed by exactly 24 hexadecimal digits.
pub open spec fn valid_id(id: Seq<char>) -> bool {
    exists|k: int|
        0 <= k < 4 && #[trigger] text::starts_with(id, prefixes()[k]) && id.len()
            == prefixes()[k].len() + MEMORY_ID_HEX_LEN && all_hex(
            id.skip(prefixes()[k].len() as int),
        )
}

/// How many hexadecimal digits `s` starts with, counted up to `limit`.
pub open spec fn hex_run(s: Seq<char>, limit: nat) -> nat
    decreases limit,
{
    if limit > 0 && s.len() > 0 && is_hex(s[0]) {
        1 + hex_run(s.skip(1), (limit - 1) as nat)
    } else {
        0
    }
}

/// The ID with prefix `p` that stands in `s` at position `i`: the prefix and
/// a run of exactly 24 hexadecimal digits.
pub open spec fn id_with_prefix(s: Seq<char>, i: int, p: Seq<char>) -> Option<Seq<char>> {
    if text::occurs_at(s, p, i) && hex_run(s.skip(i + p.len()), 25) == 24 {
        Some(s.subrange(i, i + p.len() + 24))
    } else {
        None
    }
}

pub open spec fn push_new(ids: Seq<Seq<char>>, id: Option<Seq<char>>) -> Seq<Seq<char>> {
    match id {
        Some(id) => if ids.contains(id) {
            ids
        } else {
            ids.push(id)
        },
        None => ids,
    }
}

/// The distinct IDs that stand in `s` before position `n`, in order of their
/// first appearance.
pub open spec fn ids_before(s: Seq<char>, n: nat) -> Seq<Seq<char>>
    decreases n,
{
    if n == 0 {
        Seq::empty()
    } else {
        let i = n - 1;
        let a = push_new(
            ids_before(s, i as nat),
            id_with_prefix(s, i, prefixes()[0]),
        );
        let b = push_new(a, id_with_prefix(s, i, prefixes()[1]));
        let c = push_new(b, id_with_prefix(s, i, prefixes()[2]));
        push_new(c, id_with_prefix(s, i, prefixes()[3]))
    }
}

/// The distinct IDs in `s`, in order of their first appearance.
pub open spec fn ids_in(s: Seq<char>) -> Seq<Seq<char>> {
    ids_before(s, s.len())
}

proof fn lemma_hex_run(s: Seq<char>, limit: nat)
    ensures
        hex_run(s, limit) <= s.len(),
        hex_run(s, limit) <= limit,
        forall|i: int| 0 <= i < hex_run(s, limit) ==> is_hex(#[trigger] s[i]),
    decreases limit,
{
    if limit > 0 && s.len() > 0 && is_hex(s[0]) {
        lemma_hex_run(s.skip(1), (limit - 1) as nat);
        assert forall|i: int| 0 <= i < hex_run(s, limit) implies is_hex(#[trigger] s[i]) by {
            if i > 0 {
                assert(s.skip(1)[i - 1] == s[i]);
            }
        }
    }
}

/// Whatever stands as an ID in a text is a valid ID.
proof fn lemma_id_with_prefix_valid(s: Seq<char>, i: int, k: int)
    requires
        0 <= k < 4,
        id_with_prefix(s, i, prefixes()[k]) is Some,
    ensures
        valid_id(id_with_prefix(s, i, prefixes()[k])->0),
{
    let p = prefixes()[k];
    let rest = s.skip(i + p.len());
    lemma_hex_run(rest, 25);
    let id = s.subrange(i, i + p.len() + 24);
    assert(id.subrange(0, p.len() as int) =~= s.subrange(i, i + p.len()));
    assert(text::starts_with(id, prefixes()[k]));
    assert forall|j: int| 0 <= j < id.skip(p.len() as int).len() implies is_hex(
        #[trigger] id.skip(p.len() as int)[j],
    ) by {
        assert(id.skip(p.len() as int)[j] == rest[j]);
    }
}

proof fn lemma_push_new(ids: Seq<Seq<char>>, id: Option<Seq<char>>)
    requires
        ids.no_duplicates(),
        forall|j: int| 0 <= j < ids.len() ==> valid_id(#[trigger] ids[j]),
        id matches Some(x) ==> valid_id(x),
    ensures
        push_new(ids, id).no_duplicates(),
        forall|j: int| 0 <= j < push_new(ids, id).len() ==> valid_id(#[trigger] push_new(ids, id)[j]),
{
}

/// Every extracted ID is valid, and none is extracted twice.
pub proof fn law_extracted_ids_are_valid(s: Seq<char>, n: nat)
    ensures
        ids_before(s, n).no_duplicates(),
        forall|j: int| 0 <= j < ids_before(s, n).len() ==> valid_id(#[trigger] ids_before(s, n)[j]),
    decreases n,
{
    if n > 0 {
        let i = n - 1;
        law_extracted_ids_are_valid(s, i as nat);
        let z = ids_before(s, i as nat);
        assert forall|k: int| 0 <= k < 4 implies (#[trigger] id_with_prefix(
            s,
            i,
            prefixes()[k],
        ) matches Some(x) ==> valid_id(x)) by {
            if id_with_prefix(s, i, prefixes()[k]) is Some {
                lemma_id_with_prefix_valid(s, i, k);
            }
        }
        let a = push_new(z, id_with_prefix(s, i, prefixes()[0]));
        lemma_push_new(z, id_with_prefix(s, i, prefixes()[0]));
        let b = push_new(a, id_with_prefix(s, i, prefixes()[1]));
        lemma_push_new(a, id_with_prefix(s, i, prefixes()[1]));
        let c = push_new(b, id_with_prefix(s, i, prefixes()[2]));
        lemma_push_new(b, id_with_prefix(s, i, prefixes()[2]));
        lemma_push_new(c, id_with_prefix(s, i, prefixes()[3]));
    }
}

proof fn lemma_hex_run_all(s: Seq<char>, limit: nat)
    requires
        all_hex(s),
        s.len() <= limit,
    ensures
        hex_run(s, limit) == s.len(),
    decreases s.len(),
{
    if s.len() > 0 {
        assert(is_hex(s[0]));
        assert forall|i: int| 0 <= i < s.skip(1).len() implies is_hex(#[trigger] s.skip(1)[i]) by {
            assert(s.skip(1)[i] == s[i + 1]);
        }
        lemma_hex_run_all(s.skip(1), (limit - 1) as nat);
    }
}

/// How the prefixes begin, and that only their first character is a section
/// sign.
proof fn lemma_prefixes()
    ensures
        forall|k: int|
            #![trigger prefixes()[k]]
            0 <= k < 4 ==> prefixes()[k].len() >= 5 && prefixes()[k][0] == '§' && forall|i: int|
                1 <= i < prefixes()[k].len() ==> #[trigger] prefixes()[k][i] != '§',
        forall|j: int, k: int|
            0 <= j < 4 && 0 <= k < 4 && j != k ==> #[trigger] prefixes()[j][1]
                != #[trigger] prefixes()[k][1],
{
    reveal_strlit("§obs_");
    reveal_strlit("§turn_");
    reveal_strlit("§decision_");
    reveal_strlit("§summary_");
}

/// What stands as an ID in a valid ID is, at its start, the ID itself, and
/// nothing anywhere else.
proof fn lemma_ids_at(id: Seq<char>, at: int, k: int, j: int)
    requires
        0 <= k < 4,
        0 <= j < 4,
        0 <= at < id.len(),
        text::starts_with(id, prefixes()[k]),
        id.len() == prefixes()[k].len() + MEMORY_ID_HEX_LEN,
        all_hex(id.skip(prefixes()[k].len() as int)),
    ensures
        id_with_prefix(id, at, prefixes()[j]) == if at == 0 && j == k {
            Some(id)
        } else {
            None
        },
{
    lemma_prefixes();
    let p = prefixes()[k];
    let n = p.len() as int;
    let q = prefixes()[j];
    let digits = id.skip(n);
    assert(p.len() >= 5 && q.len() >= 5);
    assert(id.subrange(0, n) =~= p);
    if at == 0 && j == k {
        lemma_hex_run_all(digits, 25);
        assert(id.subrange(0, n + 24) =~= id);
    } else if text::occurs_at(id, q, at) {
        assert(id.subrange(at, at + q.len())[0] == q[0]);
        assert(id[at] == '§');
        if at > 0 {
            if at < n {
                assert(p[at] == id.subrange(0, n)[at]);
            } else {
                assert(digits[at - n] == id[at]);
                assert(is_hex(digits[at - n]));
            }
            assert(false);
        } else {
            assert(id.subrange(at, at + q.len())[1] == q[1]);
            assert(id.subrange(0, n)[1] == p[1]);
            assert(prefixes()[j][1] != prefixes()[k][1]);
        }
    }
}

/// From a text that is a valid ID just that ID is extracted.
pub proof fn law_valid_id_is_extracted(id: Seq<char>)
    requires
        valid_id(id),
    ensures
        ids_in(id) == seq![id],
{
    let k = choose|k: int|
        0 <= k < 4 && #[trigger] text::starts_with(id, prefixes()[k]) && id.len()
            == prefixes()[k].len() + MEMORY_ID_HEX_LEN && all_hex(
            id.skip(prefixes()[k].len() as int),
        );
    lemma_ids_before(id, k, id.len());
}

proof fn lemma_ids_before(id: Seq<char>, k: int, n: nat)
    requires
        0 <= k < 4,
        n <= id.len(),
        text::starts_with(id, prefixes()[k]),
        id.len() == prefixes()[k].len() + MEMORY_ID_HEX_LEN,
        all_hex(id.skip(prefixes()[k].len() as int)),
    ensures
        n > 0 ==> ids_before(id, n) == seq![id],
    decreases n,
{
    if n > 0 {
        lemma_ids_before(id, k, (n - 1) as nat);
        lemma_ids_at(id, n - 1, k, 0);
        lemma_ids_at(id, n - 1, k, 1);
        lemma_ids_at(id, n - 1, k, 2);
        lemma_ids_at(id, n - 1, k, 3);
        let none = Seq::<Seq<char>>::empty();
        let before = ids_before(id, (n - 1) as nat);
        assert(none.push(id) =~= seq![id]);
        if n == 1 {
            assert(before == none);
            assert(!none.contains(id));
            assert(push_new(none, Some(id)) == seq![id]);
            assert(k == 0 || k == 1 || k == 2 || k == 3);
        }
    }
}

fn id_with_prefix_of(chars: &Vec<char>, at: usize, prefix: &str) -> (r: Option<String>)
    requires
        at <= chars@.len(),
    ensures
        text::opt(r) == id_with_prefix(chars@, at as int, prefix@),
{
    let p = text::chars_of(prefix);
    let total: usize = chars.len();
    if p.len() > total - at {
        return None;
    }
    if !text::occurs_at_of(chars.as_slice(), p.as_slice(), at) {
        return None;
    }
    let start: usize = at + p.len();
    let ghost rest = chars@.skip(start as int);
    let mut n: usize = 0;
    assert(rest.skip(0) =~= rest);
    while n < 25 && n < total - start && text::hex_value(chars[start + n]).is_some()
        invariant
            n <= 25,
            start <= total,
            n <= total - start,
            total == chars@.len(),
            rest == chars@.skip(start as int),
            hex_run(rest, 25) == n + hex_run(rest.skip(n as int), (25 - n) as nat),
        decreases 25 - n,
    {
        assert(rest.skip(n as int)[0] == chars@[start + n]);
        assert(rest.skip(n as int).skip(1) =~= rest.skip(n + 1));
        n = n + 1;
    }
    proof {
        if n < 25 && n < total - start {
            assert(rest.skip(n as int)[0] == chars@[start + n]);
        }
        assert(hex_run(rest.skip(n as int), (25 - n) as nat) == 0);
    }
    if n == 24 {
        Some(text::text_range(chars.as_slice(), at, start + 24))
    } else {
        None
    }
}

/// Whether `ids` holds `id`.
pub fn contains_text(ids: &Vec<String>, id: &str) -> (r: bool)
    ensures
        r == text::views(ids@).contains(id@),
{
    let mut i: usize = 0;
    while i < ids.len()
        invariant
            i <= ids@.len(),
            forall|j: int| 0 <= j < i ==> text::views(ids@)[j] != id@,
        decreases ids@.len() - i,
    {
        if text::same(ids[i].as_str(), id) {
            assert(text::views(ids@)[i as int] == id@);
            return true;
        }
        assert(text::views(ids@)[i as int] == ids@[i as int]@);
        i = i + 1;
    }
    false
}

fn push_new_of(ids: &mut Vec<String>, id: Option<String>)
    ensures
        text::views(final(ids)@) == push_new(text::views(old(ids)@), text::opt(id)),
{
    match id {
        Some(id) => {
            if !contains_text(ids, id.as_str()) {
                proof {
                    text::lemma_views_push(ids@, id);
                }
                ids.push(id);
            }
        },
        None => {},
    }
}

/// The distinct memory IDs cited in `content`, in order of appearance.
pub fn extract_memory_ids(content: &str) -> (ids: Vec<String>)
    ensures
        text::views(ids@) == ids_in(content@),
{
    let chars = text::chars_of(content);
    let mut ids: Vec<String> = Vec::new();
    let mut i: usize = 0;
    assert(text::views(ids@) =~= ids_before(content@, 0));
    while i < chars.len()
        invariant
            i <= chars@.len(),
            chars@ == content@,
            text::views(ids@) == ids_before(content@, i as nat),
        decreases chars@.len() - i,
    {
        let a = id_with_prefix_of(&chars, i, "§obs_");
        push_new_of(&mut ids, a);
        let b = id_with_prefix_of(&chars, i, "§turn_");
        push_new_of(&mut ids, b);
        let c = id_with_prefix_of(&chars, i, "§decision_");
        push_new_of(&mut ids, c);
        let d = id_with_prefix_of(&chars, i, "§summary_");
        push_new_of(&mut ids, d);
        i = i + 1;
    }
    ids
}

/// Why a text is no memory ID.
pub open spec fn id_complaint(id: Seq<char>) -> Seq<char> {
    if text::find(id, "_"@) is None {
        "expected §obs_<hex>, §turn_<hex>, §decision_<hex>, or §summary_<hex>"@
    } else {
        "ID has an unsupported prefix or malformed hexadecimal suffix"@
    }
}

fn valid_with_prefix(chars: &Vec<char>, prefix: &str) -> (r: bool)
    ensures
        r == (text::starts_with(chars@, prefix@) && chars@.len() == prefix@.len()
            + MEMORY_ID_HEX_LEN && all_hex(chars@.skip(prefix@.len() as int))),
{
    let p = text::chars_of(prefix);
    let total: usize = chars.len();
    if total < MEMORY_ID_HEX_LEN || total - MEMORY_ID_HEX_LEN != p.len() {
        return false;
    }
    if !text::occurs_at_of(chars.as_slice(), p.as_slice(), 0) {
        return false;
    }
    let mut i: usize = p.len();
    while i < total
        invariant
            p@.len() <= i <= total,
            p@ == prefix@,
            total == chars@.len(),
            forall|k: int| p@.len() <= k < i ==> is_hex(#[trigger] chars@[k]),
        decreases total - i,
    {
        if text::hex_value(chars[i]).is_none() {
            assert(!is_hex(chars@.skip(p@.len() as int)[i - p@.len()]));
            return false;
        }
        i = i + 1;
    }
    assert forall|k: int| 0 <= k < chars@.skip(p@.len() as int).len() implies is_hex(
        #[trigger] chars@.skip(p@.len() as int)[k],
    ) by {
        assert(chars@.skip(p@.len() as int)[k] == chars@[p@.len() + k]);
    }
    true
}

/// `id` itself where it is a well-formed memory ID.
pub fn validate_memory_id(id: &str) -> (r: Result<&str, String>)
    ensures
        match r {
            Ok(same) => valid_id(id@) && same@ == id@,
            Err(message) => !valid_id(id@) && message@ == id_complaint(id@),
        },
{
    let chars = text::chars_of(id);
    let a = valid_with_prefix(&chars, "§obs_");
    let b = valid_with_prefix(&chars, "§turn_");
    let c = valid_with_prefix(&chars, "§decision_");
    let d = valid_with_prefix(&chars, "§summary_");
    assert(prefixes()[0] == "§obs_"@);
    assert(prefixes()[1] == "§turn_"@);
    assert(prefixes()[2] == "§decision_"@);
    assert(prefixes()[3] == "§summary_"@);
    if a || b || c || d {
        Ok(id)
    } else if text::contains_of(id, "_") {
        Err("ID has an unsupported prefix or malformed hexadecimal suffix".to_owned())
    } else {
        Err("expected §obs_<hex>, §turn_<hex>, §decision_<hex>, or §summary_<hex>".to_owned())
    }
}

// ---------------------------------------------------------------------------
// Sequence numbers
// ---------------------------------------------------------------------------

/// The number that hexadecimal digits denote.
pub open spec fn hex_number(s: Seq<char>) -> nat
    decreases s.len(),
{
    if s.len() == 0 {
        0
    } else {
        hex_number(s.drop_last()) * 16 + text::hex_digit(s.last())->0
    }
}

/// The `u64` that a text denotes in hexadecimal: digits, with one plus sign
/// allowed in front.
pub open spec fn parse_hex(s: Seq<char>) -> Option<u64> {
    let digits = if s.len() > 0 && s[0] == '+' {
        s.skip(1)
    } else {
        s
    };
    if digits.len() > 0 && all_hex(digits) && hex_number(digits) <= u64::MAX {
        Some(hex_number(digits) as u64)
    } else {
        None
    }
}

proof fn lemma_hex_number_prefix(s: Seq<char>, n: int)
    requires
        0 <= n <= s.len(),
    ensures
        hex_number(s.take(n)) <= hex_number(s),
    decreases s.len() - n,
{
    if n == s.len() {
        assert(s.take(n) =~= s);
    } else {
        lemma_hex_number_prefix(s, n + 1);
        assert(s.take(n + 1).drop_last() =~= s.take(n));
    }
}

/// `u64::from_str_radix` with radix 16.
pub fn parse_hex_of(chars: &[char]) -> (r: Option<u64>)
    ensures
        r == parse_hex(chars@),
{
    let total: usize = chars.len();
    let start: usize = if total > 0 && chars[0] == '+' {
        1
    } else {
        0
    };
    let ghost digits = chars@.skip(start as int);
    assert(start == 0 ==> digits =~= chars@);
    if start == total {
        return None;
    }
    let mut value: u64 = 0;
    let mut i: usize = start;
    assert(digits.take(0) =~= Seq::<char>::empty());
    while i < total
        invariant
            start <= i <= total == chars@.len(),
            digits == chars@.skip(start as int),
            digits == (if chars@.len() > 0 && chars@[0] == '+' {
                chars@.skip(1)
            } else {
                chars@
            }),
            digits.len() > 0,
            value == hex_number(digits.take(i - start)),
            forall|k: int| 0 <= k < i - start ==> is_hex(#[trigger] digits[k]),
        decreases total - i,
    {
        assert(digits[i - start] == chars@[i as int]);
        let d: u8 = match text::hex_value(chars[i]) {
            Some(d) => d,
            None => {
                return None;
            },
        };
        assert(digits.take(i - start + 1).drop_last() =~= digits.take(i - start));
        assert(hex_number(digits.take(i - start + 1)) == value * 16 + d);
        if value > 0x0fff_ffff_ffff_ffff {
            proof {
                lemma_hex_number_prefix(digits, i - start + 1);
            }
            return None;
        }
        assert(value * 16 <= 0xffff_ffff_ffff_fff0);
        value = value * 16 + d as u64;
        i = i + 1;
    }
    assert(digits.take(total - start) =~= digits);
    Some(value)
}

/// The sequence number in the last eight digits of a memory ID; 0 where they
/// are not digits.
pub open spec fn memory_sequence(id: Seq<char>) -> u64 {
    match text::after_last(id, '_') {
        Some(suffix) => if suffix.len() >= 8 && all_hex(suffix.skip(suffix.len() - 8)) {
            hex_number(suffix.skip(suffix.len() - 8)) as u64
        } else {
            0
        },
        None => 0,
    }
}

/// Each digit makes a number sixteen times as large at most.
proof fn lemma_hex_number_bound(s: Seq<char>, n: int, bound: nat)
    requires
        0 <= n < s.len(),
        all_hex(s),
        hex_number(s.take(n)) < bound,
    ensures
        hex_number(s.take(n + 1)) < 16 * bound,
{
    assert(s.take(n + 1).drop_last() =~= s.take(n));
    assert(is_hex(s[n]));
}

proof fn lemma_eight_digits(s: Seq<char>)
    requires
        s.len() == 8,
        all_hex(s),
    ensures
        hex_number(s) <= u64::MAX,
        s[0] != '+',
{
    assert(is_hex(s[0]));
    lemma_hex_number_bound(s, 0, 1);
    lemma_hex_number_bound(s, 1, 0x10);
    lemma_hex_number_bound(s, 2, 0x100);
    lemma_hex_number_bound(s, 3, 0x1000);
    lemma_hex_number_bound(s, 4, 0x1_0000);
    lemma_hex_number_bound(s, 5, 0x10_0000);
    lemma_hex_number_bound(s, 6, 0x100_0000);
    lemma_hex_number_bound(s, 7, 0x1000_0000);
    assert(s.take(8) =~= s);
}

/// Sequence encoded in the trailing hex digits of a memory ID. Callers
/// validate the ID first; a malformed suffix yields 0 so a corrupt line can
/// never wind the allocator back past a valid record.
pub fn sequence_from_memory_id(id: &str) -> (r: u64)
    ensures
        r == memory_sequence(id@),
{
    match text::after_last_of(id, '_') {
        Some(suffix) => {
            let chars = text::chars_of(suffix.as_str());
            if chars.len() >= 8 {
                let tail = text::text_range(chars.as_slice(), chars.len() - 8, chars.len());
                assert(tail@ =~= suffix@.skip(suffix@.len() - 8));
                let digits = text::chars_of(tail.as_str());
                proof {
                    if all_hex(tail@) {
                        lemma_eight_digits(tail@);
                    }
                }
                if digits[0] == '+' {
                    return 0;
                }
                match parse_hex_of(digits.as_slice()) {
                    Some(n) => n,
                    None => 0,
                }
            } else {
                0
            }
        },
        None => 0,
    }
}

/// The sequence number behind the last dash of a turn ID.
pub open spec fn turn_sequence(turn_id: Seq<char>) -> Option<u64> {
    match text::after_last(turn_id, '-') {
        Some(suffix) => parse_hex(suffix),
        None => None,
    }
}

pub fn sequence_from_turn_id(turn_id: &str) -> (r: Option<u64>)
    ensures
        r == turn_sequence(turn_id@),
{
    match text::after_last_of(turn_id, '-') {
        Some(suffix) => parse_hex_of(text::chars_of(suffix.as_str()).as_slice()),
        None => None,
    }
}

proof fn lemma_hex_run_ends(digits: Seq<char>, after: Seq<char>, limit: nat)
    requires
        all_hex(digits),
        digits.len() <= limit,
        after.len() > 0 ==> !is_hex(after[0]),
    ensures
        hex_run(digits + after, limit) == digits.len(),
    decreases digits.len(),
{
    let s = digits + after;
    if digits.len() == 0 {
        assert(s =~= after);
    } else {
        assert(is_hex(digits[0]));
        let rest = digits.skip(1);
        assert forall|i: int| 0 <= i < rest.len() implies is_hex(#[trigger] rest[i]) by {
            assert(rest[i] == digits[i + 1]);
        }
        lemma_hex_run_ends(rest, after, (limit - 1) as nat);
        assert(s.skip(1) =~= rest + after);
    }
}

proof fn lemma_ids_before_grow(s: Seq<char>, m: nat, n: nat, id: Seq<char>)
    requires
        m <= n,
        ids_before(s, m).contains(id),
    ensures
        ids_before(s, n).contains(id),
    decreases n,
{
    if m < n {
        lemma_ids_before_grow(s, m, (n - 1) as nat, id);
        let i = n - 1;
        let z = ids_before(s, i as nat);
        lemma_push_new_has(z, id_with_prefix(s, i, prefixes()[0]), id);
        let a = push_new(z, id_with_prefix(s, i, prefixes()[0]));
        lemma_push_new_has(a, id_with_prefix(s, i, prefixes()[1]), id);
        let b = push_new(a, id_with_prefix(s, i, prefixes()[1]));
        lemma_push_new_has(b, id_with_prefix(s, i, prefixes()[2]), id);
        let c = push_new(b, id_with_prefix(s, i, prefixes()[2]));
        lemma_push_new_has(c, id_with_prefix(s, i, prefixes()[3]), id);
    }
}

/// What is put among IDs is there, and what was there stays.
pub proof fn lemma_push_new_has(ids: Seq<Seq<char>>, id: Option<Seq<char>>, other: Seq<char>)
    ensures
        push_new(ids, id).contains(other) <==> ids.contains(other) || id == Some(other),
{
    if let Some(x) = id {
        if !ids.contains(x) {
            let next = ids.push(x);
            assert(next[ids.len() as int] == x);
            if ids.contains(other) {
                assert(next[ids.index_of(other)] == other);
            }
            if next.contains(other) {
                let k = next.index_of(other);
                if k < ids.len() {
                    assert(ids[k] == other);
                }
            }
        }
    }
}

/// Every ID that stands in a text is extracted, wherever it stands, unless more
/// digits follow it.
pub proof fn law_every_id_is_extracted(before: Seq<char>, id: Seq<char>, after: Seq<char>)
    requires
        valid_id(id),
        after.len() > 0 ==> !is_hex(after[0]),
    ensures
        ids_in(before + id + after).contains(id),
{
    let s = before + id + after;
    let at = before.len() as int;
    let k = choose|k: int|
        0 <= k < 4 && #[trigger] text::starts_with(id, prefixes()[k]) && id.len()
            == prefixes()[k].len() + MEMORY_ID_HEX_LEN && all_hex(
            id.skip(prefixes()[k].len() as int),
        );
    let p = prefixes()[k];
    let n = p.len() as int;
    let digits = id.skip(n);
    assert(id.subrange(0, n) =~= p);
    assert(s.subrange(at, at + n) =~= p);
    assert(s.skip(at + n) =~= digits + after);
    lemma_hex_run_ends(digits, after, 25);
    assert(s.subrange(at, at + n + 24) =~= id);
    assert(id_with_prefix(s, at, p) == Some(id));
    let z = ids_before(s, at as nat);
    let a = push_new(z, id_with_prefix(s, at, prefixes()[0]));
    let b = push_new(a, id_with_prefix(s, at, prefixes()[1]));
    let c = push_new(b, id_with_prefix(s, at, prefixes()[2]));
    lemma_push_new_has(z, id_with_prefix(s, at, prefixes()[0]), id);
    lemma_push_new_has(a, id_with_prefix(s, at, prefixes()[1]), id);
    lemma_push_new_has(b, id_with_prefix(s, at, prefixes()[2]), id);
    lemma_push_new_has(c, id_with_prefix(s, at, prefixes()[3]), id);
    assert(k == 0 || k == 1 || k == 2 || k == 3);
    assert(ids_before(s, (at + 1) as nat).contains(id));
    lemma_ids_before_grow(s, (at + 1) as nat, s.len(), id);
}

/// How many numbers so many hexadecimal digits can tell apart.
pub open spec fn hex_room(width: nat) -> nat
    decreases width,
{
    if width == 0 {
        1
    } else {
        16 * hex_room((width - 1) as nat)
    }
}

proof fn lemma_hex_char_back(d: nat)
    requires
        d < 16,
    ensures
        text::hex_digit(text::hex_char(d)) == Some(d),
        is_hex(text::hex_char(d)),
        text::hex_char(d) != '_',
        text::hex_char(d) != '-',
{
}

/// Digits of a fixed number have that number, and are hexadecimal.
pub proof fn lemma_hex_fixed(n: nat, width: nat)
    ensures
        text::hex_fixed(n, width).len() == width,
        all_hex(text::hex_fixed(n, width)),
    decreases width,
{
    let s = text::hex_fixed(n, width);
    if width > 0 {
        lemma_hex_fixed(n / 16, (width - 1) as nat);
        lemma_hex_char_back(n % 16);
        let front = text::hex_fixed(n / 16, (width - 1) as nat);
        assert forall|i: int| 0 <= i < s.len() implies is_hex(#[trigger] s[i]) by {
            if i < front.len() {
                assert(s[i] == front[i]);
            }
        }
    }
}

/// A number that fits into so many hexadecimal digits is written with just so
/// many, and is read again as it is.
pub proof fn law_hex_is_read_back(n: nat, width: nat)
    requires
        n < hex_room(width),
    ensures
        text::hex_padded(n, width).len() == width,
        all_hex(text::hex_padded(n, width)),
        hex_number(text::hex_padded(n, width)) == n,
    decreases width,
{
    let s = text::hex_padded(n, width);
    if n == 0 {
        assert forall|i: int| 0 <= i < s.len() implies is_hex(#[trigger] s[i]) by {}
        lemma_hex_zeros(width);
    } else {
        law_hex_is_read_back(n / 16, (width - 1) as nat);
        lemma_hex_char_back(n % 16);
        let front = text::hex_padded(n / 16, (width - 1) as nat);
        assert(s.drop_last() =~= front);
        assert forall|i: int| 0 <= i < s.len() implies is_hex(#[trigger] s[i]) by {
            if i < front.len() {
                assert(s[i] == front[i]);
            }
        }
    }
}

proof fn lemma_hex_zeros(width: nat)
    ensures
        hex_number(Seq::new(width, |i: int| '0')) == 0,
    decreases width,
{
    let s = Seq::new(width, |i: int| '0');
    if width > 0 {
        lemma_hex_zeros((width - 1) as nat);
        assert(s.drop_last() =~= Seq::new((width - 1) as nat, |i: int| '0'));
        assert(text::hex_digit('0') == Some(0nat));
    }
}

/// What follows the last `c` of a text, where what follows has none.
pub proof fn lemma_after_last_is(before: Seq<char>, c: char, after: Seq<char>)
    requires
        !after.contains(c),
    ensures
        text::after_last(before.push(c) + after, c) == Some(after),
    decreases after.len(),
{
    let s = before.push(c) + after;
    if after.len() == 0 {
        assert(s =~= before.push(c));
        assert(after =~= Seq::<char>::empty());
    } else {
        let front = after.drop_last();
        assert(after.contains(after.last()));
        assert forall|i: int| 0 <= i < front.len() implies front[i] != c by {
            assert(after.contains(after[i]));
        }
        lemma_after_last_is(before, c, front);
        assert(s.drop_last() =~= before.push(c) + front);
        assert(s.last() == after.last());
        assert(front.push(after.last()) =~= after);
    }
}

} // verus!
