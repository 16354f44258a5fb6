//! The sessions that a directory holds: how they are listed, and which one is
//! resumed.
use crate::agent::message::{Message, MessageView};
use crate::json;
use crate::provider::thinking::ThinkingLevel;
use crate::secure;
use crate::secure::{Cipher, EncryptionKey};
use crate::session;
use crate::session::{HeaderView, LoadedSession, LoadedView, SessionSummary, SummaryView};
use crate::text;
use vstd::prelude::*;
use vstd::string::*;

verus! {

/// The file of a session: the ID that it is named by, how its path is shown,
/// and what it holds.
pub struct SessionFile {
    pub id: String,
    pub shown: String,
    pub content: Vec<u8>,
}

/// What a [`SessionFile`] holds.
#[verifier::ext_equal]
pub struct FileView {
    pub id: Seq<char>,
    pub shown: Seq<char>,
    pub content: Seq<u8>,
}

impl View for SessionFile {
    type V = FileView;

    open spec fn view(&self) -> FileView {
        FileView { id: self.id@, shown: self.shown@, content: self.content@ }
    }
}

/// The file of the session `id` with this content.
pub open spec fn file_of(id: Seq<char>, shown: Seq<char>, content: Seq<u8>) -> FileView {
    FileView { id, shown, content }
}

/// The key that the file of the session `id` is kept under, where sessions are
/// encrypted at all.
pub open spec fn file_key(secret: Option<Seq<u8>>, id: Seq<char>) -> Result<
    Option<Seq<u8>>,
    Seq<char>,
> {
    match secret {
        None => Ok(None),
        Some(secret) => match secure::derived_cipher(secret, "session:"@ + id) {
            Ok(cipher) => Ok(Some(cipher.key)),
            Err(complaint) => Err(complaint),
        },
    }
}

/// The secret that sessions are encrypted under, where they are.
pub open spec fn secret_of(key: Option<&EncryptionKey>) -> Option<Seq<u8>> {
    match key {
        Some(key) => Some(key@),
        None => None,
    }
}

/// What a file says, or what is wrong with it.
pub open spec fn file_session(file: FileView, secret: Option<Seq<u8>>) -> Result<
    (HeaderView, Seq<MessageView>),
    Seq<char>,
> {
    match file_key(secret, file.id) {
        Ok(key) => session::session_file(file.shown, file.id, file.content, key),
        Err(complaint) => Err(complaint),
    }
}

/// What a list says of a file.
pub open spec fn file_summary(file: FileView, secret: Option<Seq<u8>>) -> Result<
    SummaryView,
    Seq<char>,
> {
    match file_session(file, secret) {
        Ok((header, messages)) => session::summary_of(
            file.shown,
            header,
            messages,
            messages.len() as usize,
        ),
        Err(complaint) => Err(complaint),
    }
}

/// The list of the sessions in these files, or the first thing that is wrong
/// with one.
pub open spec fn listing(files: Seq<FileView>, secret: Option<Seq<u8>>) -> Result<
    Seq<SummaryView>,
    Seq<char>,
>
    decreases files.len(),
{
    if files.len() == 0 {
        Ok(Seq::empty())
    } else {
        match listing(files.drop_last(), secret) {
            Err(complaint) => Err(complaint),
            Ok(list) => match file_summary(files.last(), secret) {
                Err(complaint) => Err(complaint),
                Ok(summary) => Ok(session::with_summary(list, summary)),
            },
        }
    }
}

/// The file of the session `id`.
pub open spec fn file_named(files: Seq<FileView>, id: Seq<char>) -> Option<FileView>
    decreases files.len(),
{
    if files.len() == 0 {
        None
    } else if files[0].id == id {
        Some(files[0])
    } else {
        file_named(files.drop_first(), id)
    }
}

/// Whether a file holds what was saved with this level of thinking and these
/// messages.
pub open spec fn holds(
    file: FileView,
    secret: Option<Seq<u8>>,
    level: ThinkingLevel,
    messages: Seq<MessageView>,
) -> bool {
    &&& file_key(secret, file.id) is Ok
    &&& session::saves(file.content, file.id, file_key(secret, file.id)->Ok_0, level, messages)
    &&& forall|i: int| 0 <= i < messages.len() ==> session::savable(#[trigger] messages[i])
}

/// Whether a file holds what was stored for this header and these messages.
pub open spec fn keeps(
    file: FileView,
    secret: Option<Seq<u8>>,
    header: HeaderView,
    messages: Seq<MessageView>,
) -> bool {
    &&& file_key(secret, file.id) is Ok
    &&& session::savable_session(header, messages)
    &&& session::stores_text(
        file.content,
        file.id,
        file_key(secret, file.id)->Ok_0,
        session::saved_text(header, messages),
    )
}

/// Whether a file is read as what was stored in it.
pub open spec fn is_faithful(file: FileView, secret: Option<Seq<u8>>) -> bool {
    forall|header: HeaderView, messages: Seq<MessageView>|
        #[trigger] keeps(file, secret, header, messages) ==> file_session(file, secret) == Ok::<
            (HeaderView, Seq<MessageView>),
            Seq<char>,
        >((header, session::all_restored(messages)))
}

proof fn lemma_listing_in_order(files: Seq<FileView>, secret: Option<Seq<u8>>)
    ensures
        listing(files, secret) matches Ok(list) ==> session::in_listed_order(list),
    decreases files.len(),
{
    if files.len() > 0 {
        lemma_listing_in_order(files.drop_last(), secret);
        match (listing(files.drop_last(), secret), file_summary(files.last(), secret)) {
            (Ok(list), Ok(summary)) => {
                session::law_listing_stays_in_order(list, summary);
            },
            _ => {},
        }
    }
}

proof fn lemma_listing_err(files: Seq<FileView>, secret: Option<Seq<u8>>, n: int)
    requires
        0 <= n <= files.len(),
        listing(files.take(n), secret) is Err,
    ensures
        listing(files, secret) == listing(files.take(n), secret),
    decreases files.len() - n,
{
    if n == files.len() {
        assert(files.take(n) =~= files);
    } else {
        assert(files.take(n + 1).drop_last() =~= files.take(n));
        lemma_listing_err(files, secret, n + 1);
    }
}

/// No session in a list was saved later than the one that the list begins with.
pub proof fn law_the_newest_session_is_listed_first(
    files: Seq<FileView>,
    secret: Option<Seq<u8>>,
    i: int,
)
    requires
        listing(files, secret) is Ok,
        0 <= i < listing(files, secret)->Ok_0.len(),
    ensures
        listing(files, secret)->Ok_0[i].updated_at <= listing(files, secret)->Ok_0[0].updated_at,
{
    lemma_listing_in_order(files, secret);
    let list = listing(files, secret)->Ok_0;
    if i > 0 {
        assert(session::listed_before(list[0], list[i]));
    }
}

/// The session of every file is in a list of the files, under its ID and its
/// time.
pub proof fn law_every_session_is_listed(files: Seq<FileView>, secret: Option<Seq<u8>>, k: int)
    requires
        listing(files, secret) is Ok,
        0 <= k < files.len(),
    ensures
        file_summary(files[k], secret) matches Ok(summary) && session::is_listed(
            listing(files, secret)->Ok_0,
            summary.id,
            summary.updated_at,
        ),
    decreases files.len(),
{
    let before = listing(files.drop_last(), secret)->Ok_0;
    let summary = file_summary(files.last(), secret)->Ok_0;
    session::lemma_with_summary_keeps(before, summary);
    if k < files.len() - 1 {
        assert(files.drop_last()[k] == files[k]);
        law_every_session_is_listed(files.drop_last(), secret, k);
        let kept = file_summary(files[k], secret)->Ok_0;
        let i = choose|i: int|
            0 <= i < before.len() && (#[trigger] before[i]).id == kept.id && before[i].updated_at
                == kept.updated_at;
        assert(before[i].id == kept.id);
    }
}

/// Every entry of a list is that of a file.
proof fn lemma_listed_file(files: Seq<FileView>, secret: Option<Seq<u8>>, i: int) -> (k: int)
    requires
        listing(files, secret) is Ok,
        0 <= i < listing(files, secret)->Ok_0.len(),
    ensures
        0 <= k < files.len(),
        file_summary(files[k], secret) == Ok::<SummaryView, Seq<char>>(
            listing(files, secret)->Ok_0[i],
        ),
    decreases files.len(),
{
    let before = listing(files.drop_last(), secret)->Ok_0;
    let summary = file_summary(files.last(), secret)->Ok_0;
    let entry = listing(files, secret)->Ok_0[i];
    lemma_listing_in_order(files.drop_last(), secret);
    session::lemma_with_summary_in_order(before, summary);
    if entry == summary {
        files.len() - 1
    } else {
        let at = before.index_of(entry);
        let k = lemma_listed_file(files.drop_last(), secret, at);
        assert(files.drop_last()[k] == files[k]);
        k
    }
}

/// Of several sessions the one that was saved last is resumed where none is
/// asked for.
pub proof fn law_the_latest_session_is_resumed(
    files: Seq<FileView>,
    secret: Option<Seq<u8>>,
    k: int,
)
    requires
        listing(files, secret) is Ok,
        0 <= k < files.len(),
        forall|j: int|
            0 <= j < files.len() && j != k ==> file_summary(
                #[trigger] files[j],
                secret,
            )->Ok_0.updated_at < file_summary(files[k], secret)->Ok_0.updated_at,
    ensures
        wanted_id(files, None, secret) == Ok::<Option<Seq<char>>, Seq<char>>(
            Some(file_summary(files[k], secret)->Ok_0.id),
        ),
{
    let list = listing(files, secret)->Ok_0;
    let latest = file_summary(files[k], secret)->Ok_0;
    law_every_session_is_listed(files, secret, k);
    let i = choose|i: int|
        0 <= i < list.len() && (#[trigger] list[i]).id == latest.id && list[i].updated_at
            == latest.updated_at;
    law_the_newest_session_is_listed_first(files, secret, i);
    let j = lemma_listed_file(files, secret, 0);
    assert(j == k);
}

/// Messages that a provider's answers are read into are loaded as they were
/// saved: the objects in them are ordered by name already.
pub proof fn law_ordered_messages_are_restored(messages: Seq<MessageView>)
    requires
        forall|i: int|
            0 <= i < messages.len() ==> (#[trigger] messages[i] matches MessageView::Assistant {
                provider_state: Some(state),
                ..
            } ==> json::canonical(state) == state),
    ensures
        session::all_restored(messages) == messages,
{
    assert forall|i: int| 0 <= i < messages.len() implies #[trigger] session::all_restored(
        messages,
    )[i] == messages[i] by {
        assert(session::restored(messages[i]) == messages[i]);
    }
    assert(session::all_restored(messages) =~= messages);
}

/// The cipher that the file of the session `id` is kept under.
fn file_cipher(key: Option<&EncryptionKey>, id: &str) -> (r: Result<Option<Cipher>, String>)
    ensures
        match r {
            Ok(cipher) => file_key(secret_of(key), id@) == Ok::<Option<Seq<u8>>, Seq<char>>(
                match cipher {
                    Some(cipher) => Some(cipher@.key),
                    None => None,
                },
            ),
            Err(message) => file_key(secret_of(key), id@) == Err::<Option<Seq<u8>>, Seq<char>>(
                message@,
            ),
        },
        r matches Ok(Some(cipher)) ==> cipher.wf(),
{
    match key {
        None => Ok(None),
        Some(key) => match session::session_cipher(key, id) {
            Ok(cipher) => Ok(Some(cipher)),
            Err(message) => Err(message),
        },
    }
}

/// What a list says of a file.
fn summarize_file(file: &SessionFile, key: Option<&EncryptionKey>) -> (r: Result<
    SessionSummary,
    String,
>)
    ensures
        text::res(r) == file_summary(file@, secret_of(key)),
        is_faithful(file@, secret_of(key)),
{
    let cipher = match file_cipher(key, file.id.as_str()) {
        Ok(cipher) => cipher,
        Err(message) => {
            return Err(message);
        },
    };
    match session::read_session(
        file.shown.as_str(),
        file.id.as_str(),
        file.content.as_slice(),
        cipher.as_ref(),
    ) {
        Ok((header, messages)) => session::summarize_session(
            file.shown.as_str(),
            header,
            messages.as_slice(),
        ),
        Err(message) => Err(message),
    }
}

/// The sessions in these files, the most recent first. Of a file that holds what
/// was saved, the list says what was saved.
pub fn list_sessions(files: &Vec<SessionFile>, key: Option<&EncryptionKey>) -> (r: Result<
    Vec<SessionSummary>,
    String,
>)
    ensures
        match (r, listing(text::views(files@), secret_of(key))) {
            (Ok(list), Ok(wanted)) => text::views(list@) == wanted && session::in_listed_order(
                wanted,
            ),
            (Err(message), Err(complaint)) => message@ == complaint,
            _ => false,
        },
        r is Ok ==> forall|k: int|
            0 <= k < files@.len() ==> is_faithful((#[trigger] files@[k])@, secret_of(key)),
{
    let ghost model = text::views(files@);
    let ghost secret = secret_of(key);
    let mut list: Vec<SessionSummary> = Vec::new();
    let mut i: usize = 0;
    assert(model.take(0) =~= Seq::<FileView>::empty());
    assert(text::views(list@) =~= Seq::<SummaryView>::empty());
    while i < files.len()
        invariant
            i <= files@.len(),
            model == text::views(files@),
            secret == secret_of(key),
            listing(model.take(i as int), secret) == Ok::<Seq<SummaryView>, Seq<char>>(
                text::views(list@),
            ),
            forall|k: int| 0 <= k < i ==> is_faithful((#[trigger] files@[k])@, secret),
        decreases files@.len() - i,
    {
        let ghost upto = model.take(i + 1);
        assert(upto.drop_last() =~= model.take(i as int));
        assert(upto.last() == files@[i as int]@);
        match summarize_file(&files[i], key) {
            Ok(summary) => {
                session::insert_summary(&mut list, summary);
            },
            Err(message) => {
                proof {
                    lemma_listing_err(model, secret, i + 1);
                }
                return Err(message);
            },
        }
        i = i + 1;
    }
    assert(model.take(model.len() as int) =~= model);
    proof {
        lemma_listing_in_order(model, secret);
    }
    Ok(list)
}

/// The session of a list that was saved last; nothing where the list is empty.
pub fn newest_session(list: &Vec<SessionSummary>) -> (r: Option<&SessionSummary>)
    requires
        session::in_listed_order(text::views(list@)),
    ensures
        match r {
            None => list@.len() == 0,
            Some(newest) => {
                &&& list@.len() > 0
                &&& newest@ == list@[0]@
                &&& forall|i: int|
                    0 <= i < list@.len() ==> (#[trigger] list@[i]).updated_at <= newest.updated_at
            },
        },
{
    if list.len() == 0 {
        return None;
    }
    proof {
        let model = text::views(list@);
        assert forall|i: int| 0 <= i < list@.len() implies (#[trigger] list@[i]).updated_at
            <= list@[0].updated_at by {
            assert(model[i] == list@[i]@);
            if i > 0 {
                assert(session::listed_before(model[0], model[i]));
            }
        }
    }
    Some(&list[0])
}

/// The session that is meant: the one that is asked for, else the one that was
/// saved last.
pub open spec fn wanted_id(
    files: Seq<FileView>,
    asked: Option<Seq<char>>,
    secret: Option<Seq<u8>>,
) -> Result<Option<Seq<char>>, Seq<char>> {
    match asked {
        Some(id) => if session::valid_session_id(id) {
            Ok(Some(id))
        } else {
            Err(session::id_complaint())
        },
        None => match listing(files, secret) {
            Err(complaint) => Err(complaint),
            Ok(list) => if list.len() == 0 {
                Ok(None)
            } else {
                Ok(Some(list[0].id))
            },
        },
    }
}

/// What is loaded from these files, or what is wrong: nothing where the session
/// that is meant has no file.
pub open spec fn loaded_from(
    files: Seq<FileView>,
    asked: Option<Seq<char>>,
    secret: Option<Seq<u8>>,
) -> Result<Option<LoadedView>, Seq<char>> {
    match wanted_id(files, asked, secret) {
        Err(complaint) => Err(complaint),
        Ok(None) => Ok(None),
        Ok(Some(id)) => match (file_key(secret, id), file_named(files, id)) {
            (Err(complaint), _) => Err(complaint),
            (Ok(_), None) => Ok(None),
            (Ok(_), Some(file)) => match file_session(file, secret) {
                Err(complaint) => Err(complaint),
                Ok((header, messages)) => Ok(
                    Some(
                        LoadedView {
                            id: header.id,
                            messages,
                            thinking_level: header.thinking_level,
                        },
                    ),
                ),
            },
        },
    }
}

/// Whether the file of the session that is meant holds what was saved with this
/// level of thinking and these messages.
pub open spec fn wanted_holds(
    files: Seq<FileView>,
    asked: Option<Seq<char>>,
    secret: Option<Seq<u8>>,
    level: ThinkingLevel,
    messages: Seq<MessageView>,
) -> bool {
    wanted_id(files, asked, secret) matches Ok(Some(id)) && file_named(files, id) matches Some(
        file,
    ) && holds(file, secret, level, messages)
}

fn find_file<'a>(files: &'a Vec<SessionFile>, id: &str) -> (r: Option<&'a SessionFile>)
    ensures
        match r {
            Some(file) => file_named(text::views(files@), id@) == Some(file@) && file@.id == id@,
            None => file_named(text::views(files@), id@) is None,
        },
{
    let ghost model = text::views(files@);
    let mut i: usize = 0;
    assert(model.skip(0) =~= model);
    while i < files.len()
        invariant
            i <= files@.len(),
            model == text::views(files@),
            file_named(model, id@) == file_named(model.skip(i as int), id@),
        decreases files@.len() - i,
    {
        assert(model.skip(i as int)[0] == files@[i as int]@);
        assert(model.skip(i as int).drop_first() =~= model.skip(i + 1));
        if text::same(files[i].id.as_str(), id) {
            return Some(&files[i]);
        }
        i = i + 1;
    }
    None
}

/// The ID that a session is saved under: the one that it has, else a new one.
pub fn saved_id(known: Option<&str>, stamp: &str, nanos: u32) -> (r: Result<String, String>)
    ensures
        match known {
            Some(id) => if session::valid_session_id(id@) {
                r matches Ok(kept) && kept@ == id@
            } else {
                r matches Err(message) && message@ == session::id_complaint()
            },
            None => r matches Ok(fresh) && fresh@ == stamp@ + "-"@ + text::hex_padded(
                nanos as nat,
                8,
            ),
        },
{
    match known {
        Some(id) => match session::validate_session_id(id) {
            Ok(_) => Ok(id.to_owned()),
            Err(message) => Err(message),
        },
        None => Ok(session::new_session_id(stamp, nanos)),
    }
}

/// The header of the file that a session has, where it has one, or what is
/// wrong with it.
pub open spec fn earlier_header(earlier: Option<FileView>, secret: Option<Seq<u8>>) -> Result<
    Option<HeaderView>,
    Seq<char>,
> {
    match earlier {
        None => Ok(None),
        Some(file) => match file_session(file, secret) {
            Ok((header, _)) => Ok(Some(header)),
            Err(complaint) => Err(complaint),
        },
    }
}

/// The model of an optional file.
pub open spec fn opt_file(file: Option<&SessionFile>) -> Option<FileView> {
    match file {
        Some(file) => Some(file@),
        None => None,
    }
}

/// What the file of the session `id` is to hold. `earlier` is the file that it
/// has, where it has one. What was saved is what the file then holds.
pub fn save_file(
    id: &str,
    earlier: Option<&SessionFile>,
    now: &str,
    model: &str,
    thinking_level: ThinkingLevel,
    messages: &[Message],
    key: Option<&EncryptionKey>,
) -> (r: Result<Vec<u8>, String>)
    requires
        earlier matches Some(file) ==> file@.id == id@,
    ensures
        ({
            let secret = secret_of(key);
            let known = earlier_header(opt_file(earlier), secret);
            let said = text::views(messages@);
            let body = session::saved_text(
                session::saved_header(id@, known->Ok_0, now@, model@, thinking_level),
                said,
            );
            match r {
                Ok(content) => {
                    &&& session::valid_session_id(id@)
                    &&& file_key(secret, id@) is Ok
                    &&& known is Ok
                    &&& secret is None || secure::sealable(body)
                    &&& session::stores_text(content@, id@, file_key(secret, id@)->Ok_0, body)
                    &&& (forall|i: int|
                        0 <= i < said.len() ==> session::savable(#[trigger] said[i]))
                        ==> forall|shown: Seq<char>|
                        holds(
                            #[trigger] file_of(id@, shown, content@),
                            secret,
                            thinking_level,
                            said,
                        )
                },
                Err(message) => if !session::valid_session_id(id@) {
                    message@ == session::id_complaint()
                } else if file_key(secret, id@) is Err {
                    message@ == file_key(secret, id@)->Err_0
                } else if known is Err {
                    message@ == known->Err_0
                } else {
                    secret is Some && !secure::sealable(body) && message@
                        == "failed to encrypt content"@
                },
            }
        }),
{
    match session::validate_session_id(id) {
        Ok(_) => {},
        Err(message) => {
            return Err(message);
        },
    }
    let cipher = match file_cipher(key, id) {
        Ok(cipher) => cipher,
        Err(message) => {
            return Err(message);
        },
    };
    let header = match earlier {
        Some(file) => match session::read_session(
            file.shown.as_str(),
            id,
            file.content.as_slice(),
            cipher.as_ref(),
        ) {
            Ok((header, _)) => Some(header),
            Err(message) => {
                return Err(message);
            },
        },
        None => None,
    };
    session::save_session(
        id,
        header.as_ref(),
        now,
        model,
        thinking_level,
        messages,
        cipher.as_ref(),
    )
}

/// The session that is meant.
fn choose_id(files: &Vec<SessionFile>, asked: Option<&str>, key: Option<&EncryptionKey>) -> (r:
    Result<Option<String>, String>)
    ensures
        match (
            r,
            wanted_id(
                text::views(files@),
                match asked {
                    Some(id) => Some(id@),
                    None => None,
                },
                secret_of(key),
            ),
        ) {
            (Ok(id), Ok(wanted)) => text::opt(id) == wanted,
            (Err(message), Err(complaint)) => message@ == complaint,
            _ => false,
        },
{
    match asked {
        Some(id) => match session::validate_session_id(id) {
            Ok(_) => Ok(Some(id.to_owned())),
            Err(message) => Err(message),
        },
        None => match list_sessions(files, key) {
            Ok(list) => match newest_session(&list) {
                Some(newest) => Ok(Some(newest.id.clone())),
                None => Ok(None),
            },
            Err(message) => Err(message),
        },
    }
}

/// Loads the session in a file.
fn load_file(file: &SessionFile, key: Option<&EncryptionKey>) -> (r: Result<LoadedSession, String>)
    ensures
        match (r, file_session(file@, secret_of(key))) {
            (Ok(loaded), Ok((header, messages))) => loaded@ == (LoadedView {
                id: header.id,
                messages,
                thinking_level: header.thinking_level,
            }),
            (Err(message), Err(complaint)) => message@ == complaint,
            _ => false,
        },
        forall|level: ThinkingLevel, messages: Seq<MessageView>|
            #[trigger] holds(file@, secret_of(key), level, messages) ==> (r matches Ok(loaded)
                && loaded@ == (LoadedView {
                id: file@.id,
                messages: session::all_restored(messages),
                thinking_level: Some(level),
            })),
{
    let cipher = match file_cipher(key, file.id.as_str()) {
        Ok(cipher) => cipher,
        Err(message) => {
            return Err(message);
        },
    };
    match session::read_session(
        file.shown.as_str(),
        file.id.as_str(),
        file.content.as_slice(),
        cipher.as_ref(),
    ) {
        Ok((header, messages)) => Ok(
            LoadedSession { id: header.id, messages, thinking_level: header.thinking_level },
        ),
        Err(message) => Err(message),
    }
}

/// Loads the session that is asked for, or else the one that was saved last. A
/// session whose file holds what was saved is loaded as it was saved: its ID,
/// its messages and its level of thinking.
pub fn load_saved(files: &Vec<SessionFile>, asked: Option<&str>, key: Option<&EncryptionKey>) -> (r:
    Result<Option<LoadedSession>, String>)
    ensures
        ({
            let model = text::views(files@);
            let secret = secret_of(key);
            let asked = match asked {
                Some(id) => Some(id@),
                None => None,
            };
            &&& match (r, loaded_from(model, asked, secret)) {
                (Ok(loaded), Ok(wanted)) => text::opt(loaded) == wanted,
                (Err(message), Err(complaint)) => message@ == complaint,
                _ => false,
            }
            &&& forall|level: ThinkingLevel, messages: Seq<MessageView>|
                #[trigger] wanted_holds(model, asked, secret, level, messages) ==> (r matches Ok(
                    Some(loaded),
                ) && loaded@ == (LoadedView {
                    id: wanted_id(model, asked, secret)->Ok_0->Some_0,
                    messages: session::all_restored(messages),
                    thinking_level: Some(level),
                }))
        }),
{
    let id = match choose_id(files, asked, key) {
        Ok(Some(id)) => id,
        Ok(None) => {
            return Ok(None);
        },
        Err(message) => {
            return Err(message);
        },
    };
    match find_file(files, id.as_str()) {
        Some(file) => match load_file(file, key) {
            Ok(loaded) => Ok(Some(loaded)),
            Err(message) => Err(message),
        },
        None => match file_cipher(key, id.as_str()) {
            Ok(_) => Ok(None),
            Err(message) => Err(message),
        },
    }
}

/// The file of a session is the first that goes by its ID.
pub proof fn law_session_file_is_found(files: Seq<FileView>, id: Seq<char>)
    ensures
        match file_named(files, id) {
            Some(file) => file.id == id && files.contains(file),
            None => forall|i: int| 0 <= i < files.len() ==> (#[trigger] files[i]).id != id,
        },
        forall|i: int|
            0 <= i < files.len() && (#[trigger] files[i]).id == id && (forall|j: int|
                0 <= j < i ==> (#[trigger] files[j]).id != id) ==> file_named(files, id) == Some(
                files[i],
            ),
    decreases files.len(),
{
    if files.len() > 0 {
        let rest = files.drop_first();
        law_session_file_is_found(rest, id);
        if files[0].id != id {
            match file_named(rest, id) {
                Some(file) => {
                    let k = choose|k: int| 0 <= k < rest.len() && rest[k] == file;
                    assert(files[k + 1] == file);
                },
                None => {
                    assert forall|i: int| 0 <= i < files.len() implies (#[trigger] files[i]).id
                        != id by {
                        if i > 0 {
                            assert(rest[i - 1] == files[i]);
                        }
                    }
                },
            }
            assert forall|i: int|
                0 <= i < files.len() && (#[trigger] files[i]).id == id && (forall|j: int|
                    0 <= j < i ==> (#[trigger] files[j]).id != id) implies file_named(files, id)
                == Some(files[i]) by {
                assert(rest[i - 1] == files[i]);
                assert forall|j: int| 0 <= j < i - 1 implies (#[trigger] rest[j]).id != id by {
                    assert(rest[j] == files[j + 1]);
                }
            }
        } else {
            assert(files[0] == file_named(files, id)->Some_0);
        }
    }
}

} // verus!
