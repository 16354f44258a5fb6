//! The tools that read and change files.
use crate::agent::change;
use crate::json::Json;
use crate::json::JsonView;
use crate::text;
use crate::tools::arguments;
use crate::tools::arguments::{Shape, Slot};
use vstd::prelude::*;
use vstd::string::*;

verus! {

/// What `edit` is given.
#[derive(Debug, PartialEq, Eq)]
pub struct EditArguments {
    pub path: String,
    pub old_text: String,
    pub new_text: String,
}

/// What `write` is given.
#[derive(Debug, PartialEq, Eq)]
pub struct WriteArguments {
    pub path: String,
    pub content: String,
}

/// What `read` is given.
#[derive(Debug, PartialEq, Eq)]
pub struct ReadArguments {
    pub path: String,
}

/// The arguments of `edit`.
pub open spec fn edit_slots() -> Seq<arguments::SlotView> {
    seq![
        arguments::needed("path"@, Shape::Path),
        arguments::needed("old_text"@, Shape::Text),
        arguments::needed("new_text"@, Shape::Text),
    ]
}

/// The arguments of `write`.
pub open spec fn write_slots() -> Seq<arguments::SlotView> {
    seq![
        arguments::needed("path"@, Shape::Path),
        arguments::needed("content"@, Shape::Text),
    ]
}

/// The arguments of `read`.
pub open spec fn read_slots() -> Seq<arguments::SlotView> {
    seq![arguments::needed("path"@, Shape::Path)]
}

/// What `edit` is given.
pub fn parse_edit_arguments(arguments: &Json) -> (r: Result<EditArguments, String>)
    ensures
        match arguments::fault(arguments@, "EditArguments"@, edit_slots()) {
            Some(fault) => r is Err && r->Err_0@ == arguments::refusal("edit"@, fault),
            None => {
                let path = arguments::text_of(arguments::given(arguments@, edit_slots(), 0));
                let old_text = arguments::text_of(arguments::given(arguments@, edit_slots(), 1));
                let new_text = arguments::text_of(arguments::given(arguments@, edit_slots(), 2));
                if old_text == Some(Seq::<char>::empty()) {
                    r is Err && r->Err_0@ == "old_text must not be empty"@
                } else {
                    r is Ok && Some(r->Ok_0.path@) == path && Some(r->Ok_0.old_text@) == old_text
                        && Some(r->Ok_0.new_text@) == new_text
                }
            },
        },
{
    let slots: Vec<Slot> = vec![
        arguments::needed_slot("path", Shape::Path),
        arguments::needed_slot("old_text", Shape::Text),
        arguments::needed_slot("new_text", Shape::Text),
    ];
    assert(text::views(slots@) =~= edit_slots());
    match arguments::check_arguments(arguments, "edit", "EditArguments", &slots) {
        Ok(_) => {},
        Err(message) => {
            return Err(message);
        },
    }
    assert(arguments::suits(arguments::given(arguments@, edit_slots(), 0), slots@[0]@));
    assert(arguments::suits(arguments::given(arguments@, edit_slots(), 1), slots@[1]@));
    assert(arguments::suits(arguments::given(arguments@, edit_slots(), 2), slots@[2]@));
    let path = arguments::given_text(arguments, &slots, 0);
    let old_text = arguments::given_text(arguments, &slots, 1);
    let new_text = arguments::given_text(arguments, &slots, 2);
    if text::char_count(old_text.as_str()) == 0 {
        assert(old_text@ =~= Seq::<char>::empty());
        return Err("old_text must not be empty".to_owned());
    }
    Ok(EditArguments { path, old_text, new_text })
}

/// What `write` is given.
pub fn parse_write_arguments(arguments: &Json) -> (r: Result<WriteArguments, String>)
    ensures
        match arguments::fault(arguments@, "WriteArguments"@, write_slots()) {
            Some(fault) => r is Err && r->Err_0@ == arguments::refusal("write"@, fault),
            None => r is Ok && Some(r->Ok_0.path@) == arguments::text_of(
                arguments::given(arguments@, write_slots(), 0),
            ) && Some(r->Ok_0.content@) == arguments::text_of(
                arguments::given(arguments@, write_slots(), 1),
            ),
        },
{
    let slots: Vec<Slot> = vec![
        arguments::needed_slot("path", Shape::Path),
        arguments::needed_slot("content", Shape::Text),
    ];
    assert(text::views(slots@) =~= write_slots());
    match arguments::check_arguments(arguments, "write", "WriteArguments", &slots) {
        Ok(_) => {},
        Err(message) => {
            return Err(message);
        },
    }
    assert(arguments::suits(arguments::given(arguments@, write_slots(), 0), slots@[0]@));
    assert(arguments::suits(arguments::given(arguments@, write_slots(), 1), slots@[1]@));
    let path = arguments::given_text(arguments, &slots, 0);
    let content = arguments::given_text(arguments, &slots, 1);
    Ok(WriteArguments { path, content })
}

/// What `read` is given.
pub fn parse_read_arguments(arguments: &Json) -> (r: Result<ReadArguments, String>)
    ensures
        match arguments::fault(arguments@, "ReadArguments"@, read_slots()) {
            Some(fault) => r is Err && r->Err_0@ == arguments::refusal("read"@, fault),
            None => r is Ok && Some(r->Ok_0.path@) == arguments::text_of(
                arguments::given(arguments@, read_slots(), 0),
            ),
        },
{
    let slots: Vec<Slot> = vec![arguments::needed_slot("path", Shape::Path)];
    assert(text::views(slots@) =~= read_slots());
    match arguments::check_arguments(arguments, "read", "ReadArguments", &slots) {
        Ok(_) => {},
        Err(message) => {
            return Err(message);
        },
    }
    assert(arguments::suits(arguments::given(arguments@, read_slots(), 0), slots@[0]@));
    Ok(ReadArguments { path: arguments::given_text(arguments, &slots, 0) })
}

// ---------------------------------------------------------------------------
// Editing
// ---------------------------------------------------------------------------

/// How often `p` stands in `s` from position `i` on, occurrences that share
/// characters counted once.
pub open spec fn occurrences_from(s: Seq<char>, p: Seq<char>, i: int) -> nat
    decreases s.len() - i,
{
    if p.len() == 0 || i < 0 {
        0
    } else {
        match text::find_from(s, p, i) {
            Some(at) => if at < i || at + p.len() > s.len() {
                0
            } else {
                1 + occurrences_from(s, p, at + p.len())
            },
            None => 0,
        }
    }
}

/// A text with its one occurrence of `old_text` replaced, or why it cannot be.
pub open spec fn edited(
    shown: Seq<char>,
    content: Seq<char>,
    old_text: Seq<char>,
    new_text: Seq<char>,
) -> Result<Seq<char>, Seq<char>> {
    if old_text.len() == 0 {
        Err("old_text must not be empty"@)
    } else {
        let count = occurrences_from(content, old_text, 0);
        match text::split_once(content, old_text) {
            None => Err("old_text was not found in "@ + shown),
            Some((before, after)) => if count == 1 {
                Ok(before + new_text + after)
            } else {
                Err(
                    "old_text occurs "@ + text::decimal(count) + " times in "@ + shown
                        + "; make the edit more specific"@,
                )
            },
        }
    }
}

proof fn lemma_found(s: Seq<char>, p: Seq<char>, i: int)
    requires
        0 <= i,
    ensures
        text::find_from(s, p, i) matches Some(at) ==> i <= at && at + p.len() <= s.len()
            && text::occurs_at(s, p, at),
    decreases s.len() - i + 1,
{
    if i + p.len() <= s.len() && !text::occurs_at(s, p, i) {
        lemma_found(s, p, i + 1);
    }
}

fn count_occurrences(content: &str, pattern: &str) -> (r: usize)
    requires
        pattern@.len() > 0,
    ensures
        r == occurrences_from(content@, pattern@, 0),
{
    let chars = text::chars_of(content);
    let p = text::chars_of(pattern);
    let mut count: usize = 0;
    let mut i: usize = 0;
    let mut more = true;
    let total: usize = chars.len();
    let width: usize = p.len();
    while more
        invariant
            i <= chars@.len(),
            total == chars@.len(),
            width == p@.len(),
            chars@ == content@,
            p@ == pattern@,
            pattern@.len() > 0,
            count <= i,
            more ==> occurrences_from(content@, pattern@, 0) == count + occurrences_from(
                content@,
                pattern@,
                i as int,
            ),
            !more ==> occurrences_from(content@, pattern@, 0) == count,
        decreases chars@.len() - i + (if more {
            1int
        } else {
            0int
        }),
    {
        proof {
            lemma_found(content@, pattern@, i as int);
        }
        match text::find_from_of(chars.as_slice(), p.as_slice(), i) {
            Some(at) => {
                assert(at + width <= total);
                count = count + 1;
                i = at + width;
            },
            None => {
                more = false;
            },
        }
    }
    count
}

/// A text with its one occurrence of `old_text` replaced. `shown` is how the
/// file is called in messages.
pub fn apply_edit(shown: &str, content: &str, old_text: &str, new_text: &str) -> (r: Result<
    String,
    String,
>)
    ensures
        text::res(r) == edited(shown@, content@, old_text@, new_text@),
{
    if text::char_count(old_text) == 0 {
        return Err("old_text must not be empty".to_owned());
    }
    let count: usize = count_occurrences(content, old_text);
    match text::split_once_of(content, old_text) {
        None => Err(text::concat("old_text was not found in ", shown)),
        Some((before, after)) => {
            if count == 1 {
                let mut r = text::concat(before.as_str(), new_text);
                r.append(after.as_str());
                Ok(r)
            } else {
                let number = text::decimal_of(count as u64);
                let mut message = text::concat("old_text occurs ", number.as_str());
                message.append(" times in ");
                message.append(shown);
                message.append("; make the edit more specific");
                Err(message)
            }
        },
    }
}

/// An edit that is made replaces one occurrence and leaves the rest of the file
/// as it was, and the text that is replaced stands nowhere behind it.
pub proof fn law_edit_is_exact(
    shown: Seq<char>,
    content: Seq<char>,
    old_text: Seq<char>,
    new_text: Seq<char>,
)
    ensures
        edited(shown, content, old_text, new_text) matches Ok(result) ==> exists|at: int|
            0 <= at && at + old_text.len() <= content.len() && content == content.take(at)
                + old_text + content.skip(at + old_text.len()) && result == content.take(at)
                + new_text + #[trigger] content.skip(at + old_text.len()) && text::find_from(
                content,
                old_text,
                at + old_text.len(),
            ) is None,
{
    lemma_found(content, old_text, 0);
    if let Some(at) = text::find(content, old_text) {
        let next = at + old_text.len();
        assert(content.take(at) + old_text + content.skip(next) =~= content) by {
            assert(content.subrange(at, next) == old_text);
            assert(content =~= content.take(at) + content.subrange(at, next) + content.skip(next));
        }
        lemma_found(content, old_text, next);
        if occurrences_from(content, old_text, 0) == 1 {
            assert(occurrences_from(content, old_text, next) == 0);
        }
        assert(content.skip(at + old_text.len()) == content.skip(next));
    }
}

/// `part` stands in `content` at a position.
pub open spec fn stands_at(content: Seq<char>, part: Seq<char>, at: int) -> bool {
    0 <= at <= content.len() - part.len() && content.subrange(at, at + part.len()) == part
}

/// Positions in rising order at which `part` stands in `content`, and between
/// which no character is shared.
pub open spec fn apart(content: Seq<char>, part: Seq<char>, places: Seq<int>) -> bool {
    &&& forall|k: int|
        0 <= k < places.len() ==> stands_at(content, part, #[trigger] places[k])
    &&& forall|j: int, k: int|
        0 <= j < k < places.len() ==> #[trigger] places[j] + part.len() <= #[trigger] places[k]
}

proof fn lemma_find_is_first(s: Seq<char>, p: Seq<char>, i: int)
    requires
        0 <= i,
    ensures
        match text::find_from(s, p, i) {
            Some(at) => i <= at && stands_at(s, p, at) && forall|j: int|
                i <= j && #[trigger] stands_at(s, p, j) ==> at <= j,
            None => forall|j: int| i <= j ==> !#[trigger] stands_at(s, p, j),
        },
    decreases s.len() - i + 1,
{
    if i + p.len() <= s.len() && !text::occurs_at(s, p, i) {
        lemma_find_is_first(s, p, i + 1);
    }
}

proof fn lemma_most_apart(s: Seq<char>, p: Seq<char>, i: int, places: Seq<int>)
    requires
        0 <= i,
        p.len() > 0,
        apart(s, p, places),
        places.len() > 0 ==> i <= places[0],
    ensures
        places.len() <= occurrences_from(s, p, i),
    decreases places.len(),
{
    if places.len() > 0 {
        lemma_find_is_first(s, p, i);
        assert(stands_at(s, p, places[0]));
        let at = text::find_from(s, p, i)->Some_0;
        let rest = places.skip(1);
        assert forall|k: int| 0 <= k < rest.len() implies stands_at(
            s,
            p,
            #[trigger] rest[k],
        ) by {
            assert(rest[k] == places[k + 1]);
        }
        assert forall|j: int, k: int| 0 <= j < k < rest.len() implies #[trigger] rest[j] + p.len()
            <= #[trigger] rest[k] by {
            assert(rest[j] == places[j + 1] && rest[k] == places[k + 1]);
        }
        if rest.len() > 0 {
            assert(rest[0] == places[1]);
            assert(places[0] + p.len() <= places[1]);
        }
        lemma_most_apart(s, p, at + p.len(), rest);
    }
}

proof fn lemma_counted_apart(s: Seq<char>, p: Seq<char>, i: int) -> (places: Seq<int>)
    requires
        0 <= i,
        p.len() > 0,
    ensures
        apart(s, p, places),
        places.len() == occurrences_from(s, p, i),
        forall|k: int| 0 <= k < places.len() ==> i <= #[trigger] places[k],
    decreases s.len() - i,
{
    lemma_find_is_first(s, p, i);
    match text::find_from(s, p, i) {
        Some(at) => {
            let rest = lemma_counted_apart(s, p, at + p.len());
            let places = seq![at] + rest;
            assert forall|k: int| 0 <= k < places.len() implies stands_at(
                s,
                p,
                #[trigger] places[k],
            ) && i <= places[k] by {
                if k > 0 {
                    assert(places[k] == rest[k - 1]);
                }
            }
            assert forall|j: int, k: int| 0 <= j < k < places.len() implies #[trigger] places[j]
                + p.len() <= #[trigger] places[k] by {
                assert(places[k] == rest[k - 1]);
                if j > 0 {
                    assert(places[j] == rest[j - 1]);
                }
            }
            places
        },
        None => Seq::empty(),
    }
}

/// A text that stands at one position of the content, and at no other, is
/// replaced there: before and behind it the content stays as it was.
pub proof fn law_unique_text_is_replaced(
    shown: Seq<char>,
    content: Seq<char>,
    old_text: Seq<char>,
    new_text: Seq<char>,
    at: int,
)
    requires
        old_text.len() > 0,
        stands_at(content, old_text, at),
        forall|i: int| #[trigger] stands_at(content, old_text, i) ==> i == at,
    ensures
        edited(shown, content, old_text, new_text) == Ok::<Seq<char>, Seq<char>>(
            content.take(at) + new_text + content.skip(at + old_text.len()),
        ),
{
    lemma_find_is_first(content, old_text, 0);
    lemma_find_is_first(content, old_text, at + old_text.len());
    assert(occurrences_from(content, old_text, at + old_text.len()) == 0);
}

/// An edit is refused where the text to be replaced is empty, where it stands
/// nowhere, and where it stands at two positions that share no character, and
/// nowhere else. That it was not found is said where it stands nowhere, and
/// only there; how often it occurs is how many positions that share no
/// character it has at most.
pub proof fn law_edits_are_refused_for_a_reason(
    shown: Seq<char>,
    content: Seq<char>,
    old_text: Seq<char>,
    new_text: Seq<char>,
)
    ensures
        old_text.len() == 0 <==> edited(shown, content, old_text, new_text) == Err::<
            Seq<char>,
            Seq<char>,
        >("old_text must not be empty"@),
        old_text.len() > 0 ==> ((forall|i: int| !#[trigger] stands_at(content, old_text, i))
            <==> edited(shown, content, old_text, new_text) == Err::<Seq<char>, Seq<char>>(
            "old_text was not found in "@ + shown,
        )),
        old_text.len() > 0 && (exists|i: int| #[trigger] stands_at(content, old_text, i)) ==> {
            ||| edited(shown, content, old_text, new_text) is Ok && forall|places: Seq<int>|
                #[trigger] apart(content, old_text, places) ==> places.len() <= 1
            ||| exists|count: nat|
                2 <= count && edited(shown, content, old_text, new_text) == Err::<
                    Seq<char>,
                    Seq<char>,
                >(
                    "old_text occurs "@ + #[trigger] text::decimal(count) + " times in "@ + shown
                        + "; make the edit more specific"@,
                ) && (exists|places: Seq<int>|
                    places.len() == count && #[trigger] apart(content, old_text, places))
                    && forall|places: Seq<int>| #[trigger]
                    apart(content, old_text, places) ==> places.len() <= count
        },
{
    lemma_find_is_first(content, old_text, 0);
    reveal_strlit("old_text must not be empty");
    reveal_strlit("old_text was not found in ");
    reveal_strlit("old_text occurs ");
    let empty = "old_text must not be empty"@;
    let absent = "old_text was not found in "@ + shown;
    let count = occurrences_from(content, old_text, 0);
    let often = "old_text occurs "@ + text::decimal(count) + " times in "@ + shown
        + "; make the edit more specific"@;
    assert(empty[9] == 'm' && absent[9] == 'w' && often[9] == 'o');
    if old_text.len() > 0 {
        let counted = lemma_counted_apart(content, old_text, 0);
        assert forall|places: Seq<int>| #[trigger]
            apart(content, old_text, places) implies places.len() <= count by {
            if places.len() > 0 {
                assert(stands_at(content, old_text, places[0]));
            }
            lemma_most_apart(content, old_text, 0, places);
        }
        if exists|i: int| #[trigger] stands_at(content, old_text, i) {
            let i = choose|i: int| #[trigger] stands_at(content, old_text, i);
            assert(text::find_from(content, old_text, 0) is Some);
            assert(count >= 1);
            assert(apart(content, old_text, counted) && counted.len() == count);
        }
    }
}

/// What is said of an edit that was made.
pub fn edit_message(shown: &str) -> (r: String)
    ensures
        r@ == "edited "@ + shown@,
{
    text::concat("edited ", shown)
}

/// What is said of a file that was written.
pub fn write_message(content: &str, shown: &str) -> (r: String)
    ensures
        r@ == "wrote "@ + text::decimal(change::byte_len(content@)) + " bytes to "@ + shown@,
{
    let length = text::decimal_of(content.as_bytes().len() as u64);
    let mut r = text::concat("wrote ", length.as_str());
    r.append(" bytes to ");
    r.append(shown);
    r
}

/// What `read`, `write` and `edit` are given is taken under the names it goes by.
pub proof fn law_file_arguments_are_taken(
    fields: Seq<(Seq<char>, JsonView)>,
    path: Seq<char>,
    content: Seq<char>,
    old_text: Seq<char>,
    new_text: Seq<char>,
)
    requires
        arguments::named_once(fields),
        JsonView::Object(fields).get("path"@) == Some(JsonView::Text(path)),
    ensures
        ({
            let given = JsonView::Object(fields);
            &&& arguments::fault(given, "ReadArguments"@, read_slots()) is None
            &&& arguments::text_of(arguments::given(given, read_slots(), 0)) == Some(path)
            &&& given.get("content"@) == Some(JsonView::Text(content)) ==> {
                &&& arguments::fault(given, "WriteArguments"@, write_slots()) is None
                &&& arguments::text_of(arguments::given(given, write_slots(), 0)) == Some(path)
                &&& arguments::text_of(arguments::given(given, write_slots(), 1)) == Some(content)
            }
            &&& given.get("old_text"@) == Some(JsonView::Text(old_text)) && given.get("new_text"@)
                == Some(JsonView::Text(new_text)) ==> {
                &&& arguments::fault(given, "EditArguments"@, edit_slots()) is None
                &&& arguments::text_of(arguments::given(given, edit_slots(), 0)) == Some(path)
                &&& arguments::text_of(arguments::given(given, edit_slots(), 1)) == Some(old_text)
                &&& arguments::text_of(arguments::given(given, edit_slots(), 2)) == Some(new_text)
            }
        }),
{
    let given = JsonView::Object(fields);
    let read = read_slots();
    assert forall|k: int| 0 <= k < read.len() implies arguments::is_given(
        given,
        #[trigger] read[k],
    ) by {}
    arguments::lemma_named_arguments(fields, "ReadArguments"@, read);
    assert(arguments::given(given, read, 0) == given.get(read[0].name));
    if given.get("content"@) == Some(JsonView::Text(content)) {
        let write = write_slots();
        assert forall|k: int| 0 <= k < write.len() implies arguments::is_given(
            given,
            #[trigger] write[k],
        ) by {}
        arguments::lemma_named_arguments(fields, "WriteArguments"@, write);
        assert(arguments::given(given, write, 0) == given.get(write[0].name));
        assert(arguments::given(given, write, 1) == given.get(write[1].name));
    }
    if given.get("old_text"@) == Some(JsonView::Text(old_text)) && given.get("new_text"@) == Some(
        JsonView::Text(new_text),
    ) {
        let edit = edit_slots();
        assert forall|k: int| 0 <= k < edit.len() implies arguments::is_given(
            given,
            #[trigger] edit[k],
        ) by {}
        arguments::lemma_named_arguments(fields, "EditArguments"@, edit);
        assert(arguments::given(given, edit, 0) == given.get(edit[0].name));
        assert(arguments::given(given, edit, 1) == given.get(edit[1].name));
        assert(arguments::given(given, edit, 2) == given.get(edit[2].name));
    }
}

} // verus!
