//! Which records a store keeps once it is too old, too many or too large.
use crate::memory::hash;
use crate::memory::ids;
use crate::memory::index;
use crate::memory::record::{MemoryPointer, PointerView, StoreRecord};
use crate::memory::session;
use crate::memory::session::{SessionMemory, SessionView};
use crate::secure;
use crate::secure::CipherView;
use crate::text;
use crate::textmap;
use crate::textmap::TextMap;
use time::format_description::well_known::Rfc3339;
use time::OffsetDateTime;
use vstd::prelude::*;
use vstd::string::*;

verus! {

/// Nanoseconds in a day.
pub const DAY_NANOS: i128 = 86_400_000_000_000;

/// The first instant of the year -9999, and the last one of the year 9999, in
/// nanoseconds since the start of 1970.
pub const MIN_INSTANT: i128 = -377_705_116_800_000_000_000;

pub const MAX_INSTANT: i128 = 253_402_300_799_999_999_999;

/// The most days that a duration in seconds can span.
pub const MAX_DAYS: u64 = 106_751_991_167_300;

/// The instant that an RFC 3339 text denotes, in nanoseconds since the start
/// of 1970, or what is wrong with it.
pub uninterp spec fn rfc3339_nanos(s: Seq<char>) -> Result<i128, Seq<char>>;

/// `OffsetDateTime::parse` with the `Rfc3339` description, and
/// `unix_timestamp_nanos` of what it gives, or the message of its error with
/// the causes behind it, as `anyhow::Error` joins them. The result depends on
/// the text alone.
#[verifier::external_body]
pub(crate) fn parse_instant(created_at: &str) -> (r: Result<i128, String>)
    ensures
        match r {
            Ok(nanos) => rfc3339_nanos(created_at@) == Ok::<i128, Seq<char>>(nanos),
            Err(message) => rfc3339_nanos(created_at@) == Err::<i128, Seq<char>>(message@),
        },
{
    match OffsetDateTime::parse(created_at, &Rfc3339) {
        Ok(instant) => Ok(instant.unix_timestamp_nanos()),
        Err(error) => Err(format!("{:#}", anyhow::Error::new(error))),
    }
}

/// The instant `days` before `now`, or the start of 1970 where that lies
/// before the year -9999.
pub open spec fn days_before(now: i128, days: nat) -> int {
    let at = now - days * DAY_NANOS;
    if at >= MIN_INSTANT {
        at
    } else {
        0
    }
}

/// `OffsetDateTime::checked_sub` of that many days, which gives nothing for an
/// instant before the year -9999.
#[verifier::external_body]
fn instant_before(now: i128, days: u64) -> (r: Option<i128>)
    requires
        MIN_INSTANT <= now <= MAX_INSTANT,
        days <= MAX_DAYS,
    ensures
        r == if now - days * DAY_NANOS >= MIN_INSTANT {
            Some((now - days * DAY_NANOS) as i128)
        } else {
            None
        },
{
    let now = OffsetDateTime::from_unix_timestamp_nanos(now).ok()?;
    Some(now.checked_sub(time::Duration::days(days as i64))?.unix_timestamp_nanos())
}

fn cutoff_before(now: i128, days: u64) -> (r: i128)
    requires
        MIN_INSTANT <= now <= MAX_INSTANT,
        days <= MAX_DAYS,
    ensures
        r == days_before(now, days as nat),
{
    assert(days * DAY_NANOS >= 0) by (nonlinear_arith);
    match instant_before(now, days) {
        Some(at) => at,
        None => 0,
    }
}

// ---------------------------------------------------------------------------
// What is kept
// ---------------------------------------------------------------------------

/// A record that retention may drop: neither pinned nor in active use.
pub open spec fn evictable(p: PointerView, protected: Seq<Seq<char>>) -> bool {
    !p.pinned && !protected.contains(p.id)
}

/// A record that retention may drop and that is older than the cutoff.
pub open spec fn expired(p: PointerView, protected: Seq<Seq<char>>, cutoff: int) -> bool {
    evictable(p, protected) && (rfc3339_nanos(p.created_at) matches Ok(t) && t < cutoff)
}

pub open spec fn first_evictable(s: Seq<PointerView>, protected: Seq<Seq<char>>) -> Option<
    PointerView,
>
    decreases s.len(),
{
    if s.len() == 0 {
        None
    } else {
        match first_evictable(s.drop_last(), protected) {
            Some(p) => Some(p),
            None => if evictable(s.last(), protected) {
                Some(s.last())
            } else {
                None
            },
        }
    }
}

/// Records are appended in time order, so the oldest evictable one decides
/// whether any is expired.
pub open spec fn has_expired(s: Seq<PointerView>, protected: Seq<Seq<char>>, cutoff: int) -> bool {
    first_evictable(s, protected) matches Some(p) && expired(p, protected, cutoff)
}

/// How many of `s` retention must keep.
pub open spec fn protected_count(s: Seq<PointerView>, protected: Seq<Seq<char>>) -> nat
    decreases s.len(),
{
    if s.len() == 0 {
        0
    } else {
        protected_count(s.drop_last(), protected) + if evictable(s.last(), protected) {
            0nat
        } else {
            1nat
        }
    }
}

/// What cannot be dropped, and the newest `limit` of what can.
pub open spec fn keep_newest_evictable(
    s: Seq<PointerView>,
    protected: Seq<Seq<char>>,
    limit: nat,
) -> Seq<PointerView>
    decreases s.len(),
{
    if s.len() == 0 {
        s
    } else if !evictable(s.last(), protected) {
        keep_newest_evictable(s.drop_last(), protected, limit).push(s.last())
    } else if limit > 0 {
        keep_newest_evictable(s.drop_last(), protected, (limit - 1) as nat).push(s.last())
    } else {
        keep_newest_evictable(s.drop_last(), protected, 0)
    }
}

/// The records that age and number leave of the visible ones.
pub open spec fn survivors(
    visible: Seq<PointerView>,
    protected: Seq<Seq<char>>,
    cutoff: int,
    max_records: nat,
) -> Seq<PointerView> {
    let young = visible.filter(|p: PointerView| !expired(p, protected, cutoff));
    let kept = protected_count(young, protected);
    keep_newest_evictable(
        young,
        protected,
        if max_records > kept {
            (max_records - kept) as nat
        } else {
            0
        },
    )
}

/// How many bytes the lines take that cannot be dropped.
pub open spec fn protected_bytes(
    s: Seq<(PointerView, Seq<u8>)>,
    protected: Seq<Seq<char>>,
) -> nat
    decreases s.len(),
{
    if s.len() == 0 {
        0
    } else {
        protected_bytes(s.drop_last(), protected) + if evictable(s.last().0, protected) {
            0nat
        } else {
            s.last().1.len()
        }
    }
}

/// What cannot be dropped, and from the newest on each line that still fits
/// into `available` bytes.
pub open spec fn keep_fitting(
    s: Seq<(PointerView, Seq<u8>)>,
    protected: Seq<Seq<char>>,
    available: nat,
) -> Seq<(PointerView, Seq<u8>)>
    decreases s.len(),
{
    if s.len() == 0 {
        s
    } else if !evictable(s.last().0, protected) {
        keep_fitting(s.drop_last(), protected, available).push(s.last())
    } else if s.last().1.len() <= available {
        keep_fitting(
            s.drop_last(),
            protected,
            (available - s.last().1.len()) as nat,
        ).push(s.last())
    } else {
        keep_fitting(s.drop_last(), protected, available)
    }
}

pub open spec fn retained(
    s: Seq<(PointerView, Seq<u8>)>,
    protected: Seq<Seq<char>>,
    max_bytes: nat,
) -> Seq<(PointerView, Seq<u8>)> {
    let fixed = protected_bytes(s, protected);
    keep_fitting(
        s,
        protected,
        if max_bytes > fixed {
            (max_bytes - fixed) as nat
        } else {
            0
        },
    )
}

/// The bytes of all lines, in order.
pub open spec fn lines_bytes(s: Seq<(PointerView, Seq<u8>)>) -> Seq<u8>
    decreases s.len(),
{
    if s.len() == 0 {
        Seq::empty()
    } else {
        lines_bytes(s.drop_last()) + s.last().1
    }
}

pub open spec fn has_id(s: Seq<(PointerView, Seq<u8>)>, id: Seq<char>) -> bool {
    exists|i: int| 0 <= i < s.len() && (#[trigger] s[i]).0.id == id
}

/// The overrides of retained records.
pub open spec fn kept_overrides(
    overrides: Seq<(Seq<char>, bool)>,
    s: Seq<(PointerView, Seq<u8>)>,
) -> Seq<(Seq<char>, bool)> {
    overrides.filter(|e: (Seq<char>, bool)| has_id(s, e.0))
}

proof fn lemma_keep_newest_keeps_protected(
    s: Seq<PointerView>,
    protected: Seq<Seq<char>>,
    limit: nat,
    i: int,
)
    requires
        0 <= i < s.len(),
        !evictable(s[i], protected),
    ensures
        keep_newest_evictable(s, protected, limit).contains(s[i]),
    decreases s.len(),
{
    let shorter = s.drop_last();
    let next = if evictable(s.last(), protected) && limit > 0 {
        (limit - 1) as nat
    } else {
        limit
    };
    let rest = keep_newest_evictable(shorter, protected, next);
    let whole = keep_newest_evictable(s, protected, limit);
    if i == s.len() - 1 {
        assert(whole.last() == s[i]);
        assert(whole.contains(whole[whole.len() - 1]));
    } else {
        lemma_keep_newest_keeps_protected(shorter, protected, next, i);
        let j = rest.index_of(s[i]);
        assert(shorter[i] == s[i]);
        assert(rest[j] == s[i]);
        assert(whole[j] == s[i]);
    }
}

/// A pinned record, and one in active use, outlives every age and number
/// limit.
pub proof fn law_survivors_keep_protected(
    visible: Seq<PointerView>,
    protected: Seq<Seq<char>>,
    cutoff: int,
    max_records: nat,
    i: int,
)
    requires
        0 <= i < visible.len(),
        visible[i].pinned || protected.contains(visible[i].id),
    ensures
        survivors(visible, protected, cutoff, max_records).contains(visible[i]),
{
    let young_only = |p: PointerView| !expired(p, protected, cutoff);
    let young = visible.filter(young_only);
    assert(young_only(visible[i]));
    visible.lemma_filter_contains(young_only, i);
    let j = young.index_of(visible[i]);
    let kept = protected_count(young, protected);
    lemma_keep_newest_keeps_protected(
        young,
        protected,
        if max_records > kept {
            (max_records - kept) as nat
        } else {
            0
        },
        j,
    );
}

/// A pinned record, and one in active use, outlives the size limit too.
pub proof fn law_fitting_keeps_protected(
    s: Seq<(PointerView, Seq<u8>)>,
    protected: Seq<Seq<char>>,
    available: nat,
    i: int,
)
    requires
        0 <= i < s.len(),
        s[i].0.pinned || protected.contains(s[i].0.id),
    ensures
        keep_fitting(s, protected, available).contains(s[i]),
    decreases s.len(),
{
    let shorter = s.drop_last();
    let next = if evictable(s.last().0, protected) && s.last().1.len() <= available {
        (available - s.last().1.len()) as nat
    } else {
        available
    };
    let rest = keep_fitting(shorter, protected, next);
    let whole = keep_fitting(s, protected, available);
    if i == s.len() - 1 {
        assert(whole.last() == s[i]);
        assert(whole.contains(whole[whole.len() - 1]));
    } else {
        assert(shorter[i] == s[i]);
        law_fitting_keeps_protected(shorter, protected, next, i);
        let j = rest.index_of(s[i]);
        assert(rest[j] == s[i]);
        assert(whole[j] == s[i]);
    }
}

/// What retention keeps fits the size limit, unless what it must keep alone
/// exceeds it.
pub proof fn law_retained_fits(
    s: Seq<(PointerView, Seq<u8>)>,
    protected: Seq<Seq<char>>,
    available: nat,
)
    ensures
        lines_bytes(keep_fitting(s, protected, available)).len() <= available + protected_bytes(
            s,
            protected,
        ),
    decreases s.len(),
{
    if s.len() > 0 {
        let shorter = s.drop_last();
        let whole = keep_fitting(s, protected, available);
        let next = if evictable(s.last().0, protected) && s.last().1.len() <= available {
            (available - s.last().1.len()) as nat
        } else {
            available
        };
        let rest = keep_fitting(shorter, protected, next);
        law_retained_fits(shorter, protected, next);
        if whole != rest {
            assert(rest.push(s.last()).drop_last() =~= rest);
        }
    }
}

/// No more evictable records survive than the number limit has room for.
pub proof fn law_survivors_bounded(s: Seq<PointerView>, protected: Seq<Seq<char>>, limit: nat)
    ensures
        keep_newest_evictable(s, protected, limit).len() <= limit + protected_count(s, protected),
    decreases s.len(),
{
    if s.len() > 0 {
        let next = if evictable(s.last(), protected) && limit > 0 {
            (limit - 1) as nat
        } else {
            limit
        };
        law_survivors_bounded(s.drop_last(), protected, next);
    }
}

// ---------------------------------------------------------------------------
// Deciding
// ---------------------------------------------------------------------------

/// The limits on a store.
#[derive(Debug, Clone, Copy)]
pub struct RetentionLimits {
    pub max_records: usize,
    pub max_store_bytes: u64,
    pub retention_days: u64,
}

/// A store is to be looked through: it holds records that are not visible, or
/// it exceeds a limit, or it still has to be encrypted.
pub open spec fn needs_rewrite(
    session: SessionView,
    limits: RetentionLimits,
    protected: Seq<Seq<char>>,
    store_bytes: u64,
    cutoff: int,
) -> bool {
    let visible = session.index.pointers(None);
    ||| session.index.order.len() != visible.len()
    ||| visible.len() > limits.max_records
    ||| store_bytes > limits.max_store_bytes
    ||| has_expired(visible, protected, cutoff)
    ||| session.needs_encryption_migration
}

/// Every record that is indexed is visible and already in its final form, and
/// `kept` of them are kept: a rewrite would put back the same records.
pub open spec fn is_unchanged(session: SessionView, kept: nat) -> bool {
    let visible = session.index.pointers(None);
    &&& kept == visible.len()
    &&& session.index.order.len() == visible.len()
    &&& !session.needs_encryption_migration
}

/// A store held over its target by pinned or active records alone has nothing
/// evictable left, so a rewrite would put the same records back.
pub open spec fn nothing_evictable(
    session: SessionView,
    kept: Seq<PointerView>,
    protected: Seq<Seq<char>>,
) -> bool {
    is_unchanged(session, kept.len()) && protected_count(kept, protected) == kept.len()
}

/// The contents of `pointers`, and the state once they were read.
pub open spec fn read_all(
    session: SessionView,
    pointers: Seq<PointerView>,
    records: Seq<u8>,
) -> (SessionView, Result<Seq<Seq<char>>, Seq<char>>)
    decreases pointers.len(),
{
    if pointers.len() == 0 {
        (session, Ok(Seq::empty()))
    } else {
        let (state, done) = read_all(session, pointers.drop_last(), records);
        match done {
            Err(message) => (state, Err(message)),
            Ok(contents) => {
                let id = pointers.last().id;
                let next = state.after_read(id, None, records);
                match state.read(id, None, records) {
                    Err(message) => (next, Err(message)),
                    Ok(None) => (next, Err("retained memory "@ + id + " disappeared"@)),
                    Ok(Some((_, content))) => (next, Ok(contents.push(content))),
                }
            },
        }
    }
}

/// A pointer as an encrypted store keeps it: without a preview, and without a
/// fingerprint that was taken without a key. Such a digest is exactly the
/// confirm-a-guess handle that keying exists to remove, so a store being
/// migrated must not carry its old ones forward. These records lose dedupe;
/// leaking what they contain would be worse.
pub open spec fn cleaned(p: PointerView, encrypted: bool) -> PointerView {
    if !encrypted {
        p
    } else {
        let bare = textmap::removed(p.metadata, "preview"@);
        let keyed = textmap::lookup(bare, "fingerprint"@) matches Some(fingerprint)
            && text::starts_with(fingerprint, secure::KEYED_FINGERPRINT_PREFIX@);
        PointerView {
            metadata: if keyed {
                bare
            } else {
                textmap::removed(bare, "fingerprint"@)
            },
            ..p
        }
    }
}

/// `lines` store `pointers` with `contents`, one for one.
pub open spec fn stores_all(
    cipher: Option<CipherView>,
    pointers: Seq<PointerView>,
    contents: Seq<Seq<char>>,
    encoded: Seq<(PointerView, Seq<u8>)>,
) -> bool {
    &&& contents.len() == pointers.len()
    &&& encoded.len() == pointers.len()
    &&& forall|i: int|
        0 <= i < pointers.len() ==> (#[trigger] encoded[i]).0 == cleaned(
            pointers[i],
            cipher is Some,
        ) && session::stores(cipher, encoded[i].0, None, contents[i], encoded[i].1)
}

/// What a store is to be rewritten to.
pub struct Rewrite {
    pub records: Vec<u8>,
    pub overrides: TextMap<bool>,
}

/// What a [`Rewrite`] holds.
#[verifier::ext_equal]
pub struct RewriteView {
    pub records: Seq<u8>,
    pub overrides: Seq<(Seq<char>, bool)>,
}

impl View for Rewrite {
    type V = RewriteView;

    open spec fn view(&self) -> RewriteView {
        RewriteView { records: self.records@, overrides: self.overrides@ }
    }
}

/// The rewrite that the size limit leaves of the encoded records; none where
/// it leaves the store as it is.
pub open spec fn rewrite_of(
    session: SessionView,
    encoded: Seq<(PointerView, Seq<u8>)>,
    protected: Seq<Seq<char>>,
    max_bytes: nat,
) -> Option<RewriteView> {
    let kept = retained(encoded, protected, max_bytes);
    if is_unchanged(session, kept.len()) {
        None
    } else {
        Some(
            RewriteView {
                records: lines_bytes(kept),
                overrides: kept_overrides(session.pin_overrides, kept),
            },
        )
    }
}

fn is_evictable(pointer: &MemoryPointer, protected: &Vec<String>) -> (r: bool)
    ensures
        r == evictable(pointer@, text::views(protected@)),
{
    !pointer.pinned && !ids::contains_text(protected, pointer.id.as_str())
}

fn is_expired(pointer: &MemoryPointer, protected: &Vec<String>, cutoff: i128) -> (r: bool)
    ensures
        r == expired(pointer@, text::views(protected@), cutoff as int),
{
    if !is_evictable(pointer, protected) {
        return false;
    }
    match parse_instant(pointer.created_at.as_str()) {
        Ok(t) => t < cutoff,
        Err(_) => false,
    }
}

/// Whether the first evictable of the pointers is expired.
fn has_expired_of(visible: &Vec<MemoryPointer>, protected: &Vec<String>, cutoff: i128) -> (r: bool)
    ensures
        r == has_expired(text::views(visible@), text::views(protected@), cutoff as int),
{
    let ghost model = text::views(visible@);
    let ghost guard = text::views(protected@);
    let mut i: usize = 0;
    assert(model.take(0) =~= Seq::<PointerView>::empty());
    while i < visible.len()
        invariant
            i <= visible@.len(),
            model == text::views(visible@),
            guard == text::views(protected@),
            first_evictable(model.take(i as int), guard) is None,
        decreases visible@.len() - i,
    {
        let ghost upto = model.take(i as int + 1);
        assert(upto.drop_last() =~= model.take(i as int));
        assert(upto.last() == visible@[i as int]@);
        if is_evictable(&visible[i], protected) {
            proof {
                lemma_first_evictable_stays(model, guard, i as int + 1);
            }
            return is_expired(&visible[i], protected, cutoff);
        }
        i = i + 1;
    }
    assert(model.take(model.len() as int) =~= model);
    false
}

proof fn lemma_first_evictable_stays(s: Seq<PointerView>, protected: Seq<Seq<char>>, n: int)
    requires
        0 <= n <= s.len(),
        first_evictable(s.take(n), protected) is Some,
    ensures
        first_evictable(s, protected) == first_evictable(s.take(n), protected),
    decreases s.len() - n,
{
    if n == s.len() {
        assert(s.take(n) =~= s);
    } else {
        assert(s.take(n + 1).drop_last() =~= s.take(n));
        lemma_first_evictable_stays(s, protected, n + 1);
    }
}

fn protected_count_of(pointers: &Vec<MemoryPointer>, protected: &Vec<String>) -> (n: usize)
    ensures
        n == protected_count(text::views(pointers@), text::views(protected@)),
        n <= pointers@.len(),
{
    let ghost model = text::views(pointers@);
    let mut n: usize = 0;
    let mut i: usize = 0;
    assert(model.take(0) =~= Seq::<PointerView>::empty());
    while i < pointers.len()
        invariant
            i <= pointers@.len(),
            n <= i,
            model == text::views(pointers@),
            n == protected_count(model.take(i as int), text::views(protected@)),
        decreases pointers@.len() - i,
    {
        assert(model.take(i as int + 1).drop_last() =~= model.take(i as int));
        assert(model.take(i as int + 1).last() == pointers@[i as int]@);
        if !is_evictable(&pointers[i], protected) {
            n = n + 1;
        }
        i = i + 1;
    }
    assert(model.take(model.len() as int) =~= model);
    n
}

pub open spec fn all_wf(pointers: Seq<MemoryPointer>) -> bool {
    forall|i: int| 0 <= i < pointers.len() ==> (#[trigger] pointers[i]).wf()
}

fn drop_expired(visible: Vec<MemoryPointer>, protected: &Vec<String>, cutoff: i128) -> (r: Vec<
    MemoryPointer,
>)
    requires
        all_wf(visible@),
    ensures
        all_wf(r@),
        text::views(r@) == text::views(visible@).filter(
            |p: PointerView| !expired(p, text::views(protected@), cutoff as int),
        ),
{
    let ghost model = text::views(visible@);
    let ghost guard = text::views(protected@);
    let ghost young = |p: PointerView| !expired(p, guard, cutoff as int);
    let mut r: Vec<MemoryPointer> = Vec::new();
    let mut i: usize = 0;
    proof {
        reveal(Seq::filter);
    }
    assert(text::views(r@) =~= model.take(0).filter(young));
    while i < visible.len()
        invariant
            i <= visible@.len(),
            all_wf(visible@),
            all_wf(r@),
            model == text::views(visible@),
            guard == text::views(protected@),
            young == (|p: PointerView| !expired(p, guard, cutoff as int)),
            text::views(r@) == model.take(i as int).filter(young),
        decreases visible@.len() - i,
    {
        proof {
            reveal(Seq::filter);
        }
        assert(model.take(i as int + 1).drop_last() =~= model.take(i as int));
        assert(model.take(i as int + 1).last() == visible@[i as int]@);
        if !is_expired(&visible[i], protected, cutoff) {
            let pointer = visible[i].copy();
            assert(visible@[i as int].wf());
            proof {
                text::lemma_views_push(r@, pointer);
            }
            r.push(pointer);
        }
        i = i + 1;
    }
    assert(model.take(model.len() as int) =~= model);
    r
}

/// Keeps what cannot be dropped, and the newest `limit` of what can.
fn keep_newest_evictable_of(
    pointers: &Vec<MemoryPointer>,
    protected: &Vec<String>,
    limit: usize,
    n: usize,
) -> (r: Vec<MemoryPointer>)
    requires
        all_wf(pointers@),
        n <= pointers@.len(),
    ensures
        all_wf(r@),
        text::views(r@) == keep_newest_evictable(
            text::views(pointers@).take(n as int),
            text::views(protected@),
            limit as nat,
        ),
{
    let ghost model = text::views(pointers@);
    let ghost guard = text::views(protected@);
    let mut kept: Vec<MemoryPointer> = Vec::new();
    let mut left: usize = limit;
    let mut i: usize = n;
    let ghost goal = keep_newest_evictable(model.take(n as int), guard, limit as nat);
    assert(goal + text::views(kept@).reverse() =~= goal);
    while i > 0
        invariant
            i <= n <= pointers@.len(),
            all_wf(pointers@),
            all_wf(kept@),
            model == text::views(pointers@),
            guard == text::views(protected@),
            goal == keep_newest_evictable(model.take(i as int), guard, left as nat) + text::views(
                kept@,
            ).reverse(),
        decreases i,
    {
        let ghost upto = model.take(i as int);
        assert(upto.drop_last() =~= model.take(i as int - 1));
        assert(upto.last() == pointers@[i as int - 1]@);
        let pointer = &pointers[i - 1];
        let free = is_evictable(pointer, protected);
        if !free || left > 0 {
            if free {
                left = left - 1;
            }
            let ghost before = text::views(kept@);
            let copied = pointer.copy();
            assert(pointers@[i as int - 1].wf());
            proof {
                text::lemma_views_push(kept@, copied);
            }
            kept.push(copied);
            let ghost rest = keep_newest_evictable(model.take(i as int - 1), guard, left as nat);
            assert(rest.push(copied@) + before.reverse() =~= rest + before.push(
                copied@,
            ).reverse());
        }
        i = i - 1;
    }
    assert(model.take(0) =~= Seq::<PointerView>::empty());
    assert(goal =~= text::views(kept@).reverse());
    let mut r: Vec<MemoryPointer> = Vec::new();
    let mut j: usize = kept.len();
    let ghost back = text::views(kept@).reverse();
    while j > 0
        invariant
            j <= kept@.len(),
            all_wf(kept@),
            all_wf(r@),
            back == text::views(kept@).reverse(),
            text::views(r@) == back.take(kept@.len() - j),
        decreases j,
    {
        let copied = kept[j - 1].copy();
        assert(kept@[j as int - 1].wf());
        proof {
            text::lemma_views_push(r@, copied);
        }
        r.push(copied);
        j = j - 1;
        assert(text::views(r@) =~= back.take(kept@.len() - j));
    }
    assert(back.take(kept@.len() as int) =~= back);
    r
}

fn clean(pointer: &MemoryPointer, encrypted: bool) -> (r: MemoryPointer)
    requires
        pointer.wf(),
    ensures
        r.wf(),
        r@ == cleaned(pointer@, encrypted),
{
    let mut r = pointer.copy();
    if encrypted {
        r.metadata.remove("preview");
        let keyed = match r.metadata.get("fingerprint") {
            Some(fingerprint) => text::starts_with_of(
                fingerprint.as_str(),
                secure::KEYED_FINGERPRINT_PREFIX,
            ),
            None => false,
        };
        if !keyed {
            r.metadata.remove("fingerprint");
        }
    }
    r
}

/// A record's pointer and its line.
pub struct EncodedRecord {
    pub pointer: MemoryPointer,
    pub line: Vec<u8>,
}

impl View for EncodedRecord {
    type V = (PointerView, Seq<u8>);

    open spec fn view(&self) -> (PointerView, Seq<u8>) {
        (self.pointer@, self.line@)
    }
}

/// Whether `kept` are the places of `goal` in `model`, the last one first.
pub open spec fn picks(
    kept: Seq<usize>,
    model: Seq<(PointerView, Seq<u8>)>,
    goal: Seq<(PointerView, Seq<u8>)>,
) -> bool {
    &&& goal.len() == kept.len()
    &&& forall|j: int|
        0 <= j < kept.len() ==> (#[trigger] kept[j]) < model.len() && model[kept[j] as int]
            == goal[kept.len() - 1 - j]
}

proof fn lemma_picks_push(
    kept: Seq<usize>,
    model: Seq<(PointerView, Seq<u8>)>,
    goal: Seq<(PointerView, Seq<u8>)>,
    at: usize,
)
    requires
        picks(kept, model, goal),
        at < model.len(),
    ensures
        picks(kept.push(at), model, seq![model[at as int]] + goal),
{
    let longer = seq![model[at as int]] + goal;
    let more = kept.push(at);
    assert forall|j: int| 0 <= j < more.len() implies (#[trigger] more[j]) < model.len()
        && model[more[j] as int] == longer[more.len() - 1 - j] by {
        if j < kept.len() {
            assert(kept[j] == more[j]);
            assert(longer[more.len() - 1 - j] == goal[kept.len() - 1 - j]);
        }
    }
}

/// How many bytes the records take that must stay, `u64::MAX` standing for
/// anything beyond.
fn fixed_size(encoded: &Vec<EncodedRecord>, protected: &Vec<String>) -> (fixed: u64)
    ensures
        ({
            let size = protected_bytes(text::views(encoded@), text::views(protected@));
            fixed as nat == size || (fixed == u64::MAX && size >= u64::MAX)
        }),
{
    let ghost model = text::views(encoded@);
    let ghost guard = text::views(protected@);
    let mut fixed: u64 = 0;
    let mut i: usize = 0;
    assert(model.take(0) =~= Seq::<(PointerView, Seq<u8>)>::empty());
    while i < encoded.len()
        invariant
            i <= encoded@.len(),
            model == text::views(encoded@),
            guard == text::views(protected@),
            fixed as nat == protected_bytes(model.take(i as int), guard) || (fixed == u64::MAX
                && protected_bytes(model.take(i as int), guard) >= u64::MAX),
        decreases encoded@.len() - i,
    {
        assert(model.take(i as int + 1).drop_last() =~= model.take(i as int));
        assert(model.take(i as int + 1).last() == encoded@[i as int]@);
        if !is_evictable(&encoded[i].pointer, protected) {
            fixed = fixed.saturating_add(encoded[i].line.len() as u64);
        }
        i = i + 1;
    }
    assert(model.take(model.len() as int) =~= model);
    fixed
}

/// Where the records are that stay, the newest first.
fn keep_newest(encoded: &Vec<EncodedRecord>, protected: &Vec<String>, room: u64) -> (kept: Vec<
    usize,
>)
    ensures
        picks(
            kept@,
            text::views(encoded@),
            keep_fitting(text::views(encoded@), text::views(protected@), room as nat),
        ),
{
    let ghost model = text::views(encoded@);
    let ghost guard = text::views(protected@);
    let ghost goal = keep_fitting(model, guard, room as nat);
    let mut available: u64 = room;
    let mut kept: Vec<usize> = Vec::new();
    let mut n: usize = encoded.len();
    let ghost mut tail: Seq<(PointerView, Seq<u8>)> = Seq::empty();
    assert(model.take(model.len() as int) =~= model);
    assert(goal + tail =~= goal);
    while n > 0
        invariant
            n <= encoded@.len(),
            model == text::views(encoded@),
            guard == text::views(protected@),
            goal == keep_fitting(model.take(n as int), guard, available as nat) + tail,
            picks(kept@, model, tail),
        decreases n,
    {
        let ghost upto = model.take(n as int);
        assert(upto.drop_last() =~= model.take(n as int - 1));
        assert(upto.last() == encoded@[n as int - 1]@);
        let record = &encoded[n - 1];
        let length: u64 = record.line.len() as u64;
        let free = is_evictable(&record.pointer, protected);
        if !free || length <= available {
            if free {
                available = available - length;
            }
            proof {
                let rest = keep_fitting(model.take(n as int - 1), guard, available as nat);
                assert(rest.push(record@) + tail =~= rest + (seq![record@] + tail));
                lemma_picks_push(kept@, model, tail, (n - 1) as usize);
                tail = seq![record@] + tail;
            }
            kept.push(n - 1);
        }
        n = n - 1;
    }
    assert(model.take(0) =~= Seq::<(PointerView, Seq<u8>)>::empty());
    assert(goal =~= tail);
    kept
}

/// The lines of the records that stay, in their order.
fn join_kept(
    encoded: &Vec<EncodedRecord>,
    kept: &Vec<usize>,
    Ghost(goal): Ghost<Seq<(PointerView, Seq<u8>)>>,
) -> (records: Vec<u8>)
    requires
        picks(kept@, text::views(encoded@), goal),
    ensures
        records@ == lines_bytes(goal),
{
    let ghost model = text::views(encoded@);
    let mut records: Vec<u8> = Vec::new();
    let mut j: usize = kept.len();
    assert(goal.take(0) =~= Seq::<(PointerView, Seq<u8>)>::empty());
    while j > 0
        invariant
            j <= kept@.len(),
            model == text::views(encoded@),
            picks(kept@, model, goal),
            records@ == lines_bytes(goal.take(kept@.len() - j)),
        decreases j,
    {
        let at: usize = kept[j - 1];
        assert(model[at as int] == goal[kept@.len() - j]);
        let ghost upto = goal.take(kept@.len() - j + 1);
        assert(upto.drop_last() =~= goal.take(kept@.len() - j));
        assert(upto.last() == encoded@[at as int]@);
        hash::extend_bytes(&mut records, encoded[at].line.as_slice());
        j = j - 1;
    }
    assert(goal.take(kept@.len() as int) =~= goal);
    records
}

/// Which records the size limit leaves, and what the store is to be rewritten
/// to; nothing where it leaves the store as it is.
pub fn plan_rewrite(
    session: &SessionMemory,
    encoded: &Vec<EncodedRecord>,
    protected: &Vec<String>,
    max_store_bytes: u64,
    visible_count: usize,
) -> (r: Option<Rewrite>)
    requires
        session.wf(),
        visible_count == session@.index.pointers(None).len(),
    ensures
        text::opt(r) == rewrite_of(
            session@,
            text::views(encoded@),
            text::views(protected@),
            max_store_bytes as nat,
        ),
        r matches Some(rewrite) ==> rewrite.overrides.wf(),
{
    let fixed: u64 = fixed_size(encoded, protected);
    let room: u64 = max_store_bytes.saturating_sub(fixed);
    let ghost goal = keep_fitting(text::views(encoded@), text::views(protected@), room as nat);
    assert(goal == retained(
        text::views(encoded@),
        text::views(protected@),
        max_store_bytes as nat,
    ));
    let kept = keep_newest(encoded, protected, room);
    let indexed: usize = session.index.order.len();
    assert(session@.index.order.len() == indexed);
    if kept.len() == visible_count && indexed == visible_count
        && !session.needs_encryption_migration {
        return None;
    }
    let records = join_kept(encoded, &kept, Ghost(goal));
    let overrides = keep_overrides(session, encoded, &kept, Ghost(goal));
    Some(Rewrite { records, overrides })
}

fn keep_overrides(
    session: &SessionMemory,
    encoded: &Vec<EncodedRecord>,
    kept: &Vec<usize>,
    Ghost(goal): Ghost<Seq<(PointerView, Seq<u8>)>>,
) -> (r: TextMap<bool>)
    requires
        session.wf(),
        picks(kept@, text::views(encoded@), goal),
    ensures
        r.wf(),
        r@ == kept_overrides(session@.pin_overrides, goal),
{
    let ghost all = session@.pin_overrides;
    let ghost stays = |e: (Seq<char>, bool)| has_id(goal, e.0);
    let mut entries: Vec<(String, bool)> = Vec::new();
    let ghost mut model: Seq<(Seq<char>, bool)> = Seq::empty();
    let mut i: usize = 0;
    proof {
        reveal(Seq::filter);
    }
    assert(model =~= all.take(0).filter(stays));
    while i < session.pin_overrides.entries.len()
        invariant
            i <= session.pin_overrides.entries@.len(),
            session.wf(),
            all == session@.pin_overrides,
            stays == (|e: (Seq<char>, bool)| has_id(goal, e.0)),
            picks(kept@, text::views(encoded@), goal),
            model == all.take(i as int).filter(stays),
            model.len() == entries@.len(),
            forall|j: int|
                0 <= j < model.len() ==> #[trigger] model[j] == (
                    entries@[j].0@,
                    entries@[j].1,
                ),
        decreases session.pin_overrides.entries@.len() - i,
    {
        proof {
            reveal(Seq::filter);
        }
        let entry = &session.pin_overrides.entries[i];
        assert(all.take(i as int + 1).drop_last() =~= all.take(i as int));
        assert(all.take(i as int + 1).last() == (entry.0@, entry.1));
        if keeps_id(encoded, kept, entry.0.as_str(), Ghost(goal)) {
            entries.push((entry.0.clone(), entry.1));
            proof {
                model = model.push((entry.0@, entry.1));
            }
        }
        i = i + 1;
    }
    assert(all.take(all.len() as int) =~= all);
    let r = TextMap { entries };
    assert(r@ =~= model);
    proof {
        lemma_filter_sorted(all, stays);
    }
    r
}

fn keeps_id(
    encoded: &Vec<EncodedRecord>,
    kept: &Vec<usize>,
    id: &str,
    Ghost(goal): Ghost<Seq<(PointerView, Seq<u8>)>>,
) -> (r: bool)
    requires
        picks(kept@, text::views(encoded@), goal),
    ensures
        r == has_id(goal, id@),
{
    let mut i: usize = 0;
    while i < kept.len()
        invariant
            i <= kept@.len(),
            picks(kept@, text::views(encoded@), goal),
            forall|j: int|
                kept@.len() - i <= j < goal.len() ==> (#[trigger] goal[j]).0.id != id@,
        decreases kept@.len() - i,
    {
        let at: usize = kept[i];
        assert(goal[kept@.len() - 1 - i] == encoded@[at as int]@);
        if text::same(encoded[at].pointer.id.as_str(), id) {
            assert(goal[kept@.len() - 1 - i].0.id == id@);
            return true;
        }
        i = i + 1;
    }
    false
}

proof fn lemma_filter_sorted(s: Seq<(Seq<char>, bool)>, keep: spec_fn((Seq<char>, bool)) -> bool)
    requires
        textmap::sorted(s),
    ensures
        textmap::sorted(s.filter(keep)),
        forall|i: int| 0 <= i < s.filter(keep).len() ==> s.contains(#[trigger] s.filter(keep)[i]),
    decreases s.len(),
{
    reveal(Seq::filter);
    if s.len() > 0 {
        let shorter = s.drop_last();
        assert forall|i: int, j: int| 0 <= i < j < shorter.len() implies textmap::text_less(
            #[trigger] shorter[i].0,
            #[trigger] shorter[j].0,
        ) by {
            assert(shorter[i] == s[i] && shorter[j] == s[j]);
        }
        lemma_filter_sorted(shorter, keep);
        let rest = shorter.filter(keep);
        let whole = s.filter(keep);
        assert forall|i: int| 0 <= i < whole.len() implies s.contains(#[trigger] whole[i]) by {
            if i < rest.len() {
                assert(shorter.contains(rest[i]));
                let k = shorter.index_of(rest[i]);
                assert(s[k] == rest[i]);
            } else {
                assert(s[s.len() - 1] == whole[i]);
            }
        }
        assert forall|i: int, j: int| 0 <= i < j < whole.len() implies textmap::text_less(
            #[trigger] whole[i].0,
            #[trigger] whole[j].0,
        ) by {
            if j == rest.len() {
                assert(shorter.contains(rest[i]));
                let k = shorter.index_of(rest[i]);
                assert(s[k] == rest[i]);
                assert(textmap::text_less(s[k].0, s[s.len() - 1].0));
            }
        }
    }
}

/// The model of what was read, or a complaint.
pub open spec fn contents_view(r: Result<Vec<String>, String>) -> Result<
    Seq<Seq<char>>,
    Seq<char>,
> {
    match r {
        Ok(contents) => Ok(text::views(contents@)),
        Err(message) => Err(message@),
    }
}

proof fn lemma_read_all_err(
    session: SessionView,
    pointers: Seq<PointerView>,
    records: Seq<u8>,
    n: int,
)
    requires
        0 <= n <= pointers.len(),
        read_all(session, pointers.take(n), records).1 is Err,
    ensures
        read_all(session, pointers, records) == read_all(session, pointers.take(n), records),
    decreases pointers.len() - n,
{
    if n == pointers.len() {
        assert(pointers.take(n) =~= pointers);
    } else {
        assert(pointers.take(n + 1).drop_last() =~= pointers.take(n));
        lemma_read_all_err(session, pointers, records, n + 1);
    }
}

impl SessionMemory {
    fn read_contents(&mut self, pointers: &Vec<MemoryPointer>, records: &[u8]) -> (r: Result<
        Vec<String>,
        String,
    >)
        requires
            old(self).wf(),
        ensures
            final(self).wf(),
            read_all(old(self)@, text::views(pointers@), records@) == (
                final(self)@,
                contents_view(r),
            ),
    {
        let ghost model = text::views(pointers@);
        let ghost start = self@;
        let mut contents: Vec<String> = Vec::new();
        let mut i: usize = 0;
        assert(model.take(0) =~= Seq::<PointerView>::empty());
        assert(text::views(contents@) =~= Seq::<Seq<char>>::empty());
        while i < pointers.len()
            invariant
                i <= pointers@.len(),
                self.wf(),
                model == text::views(pointers@),
                start == old(self)@,
                read_all(start, model.take(i as int), records@) == (
                    self@,
                    Ok::<Seq<Seq<char>>, Seq<char>>(text::views(contents@)),
                ),
            decreases pointers@.len() - i,
        {
            let ghost upto = model.take(i as int + 1);
            assert(upto.drop_last() =~= model.take(i as int));
            assert(upto.last() == pointers@[i as int]@);
            let id = pointers[i].id.clone();
            match self.read(id.as_str(), None, records) {
                Ok(Some((_, content))) => {
                    proof {
                        text::lemma_views_push(contents@, content);
                    }
                    contents.push(content);
                },
                Ok(None) => {
                    let mut message = "retained memory ".to_owned();
                    message.append(id.as_str());
                    message.append(" disappeared");
                    proof {
                        lemma_read_all_err(start, model, records@, i as int + 1);
                    }
                    return Err(message);
                },
                Err(message) => {
                    proof {
                        lemma_read_all_err(start, model, records@, i as int + 1);
                    }
                    return Err(message);
                },
            }
            i = i + 1;
        }
        assert(model.take(model.len() as int) =~= model);
        Ok(contents)
    }

    /// The records of some contents, each encoded anew.
    fn encode_all(&self, pointers: &Vec<MemoryPointer>, contents: &Vec<String>) -> (r: Result<
        Vec<EncodedRecord>,
        String,
    >)
        requires
            self.wf(),
            all_wf(pointers@),
            contents@.len() == pointers@.len(),
        ensures
            match r {
                Ok(encoded) => all_encodable(self@.cipher, text::views(contents@)) && stores_all(
                    self@.cipher,
                    text::views(pointers@),
                    text::views(contents@),
                    text::views(encoded@),
                ),
                Err(message) => !all_encodable(self@.cipher, text::views(contents@)) && message@
                    == "failed to encrypt content"@,
            },
    {
        let encrypted = self.cipher.is_some();
        let mut encoded: Vec<EncodedRecord> = Vec::new();
        let mut i: usize = 0;
        while i < pointers.len()
            invariant
                i <= pointers@.len(),
                self.wf(),
                all_wf(pointers@),
                contents@.len() == pointers@.len(),
                encrypted == (self.cipher is Some),
                encoded@.len() == i,
                forall|j: int|
                    0 <= j < i ==> session::can_encode(
                        self@.cipher,
                        #[trigger] text::views(contents@)[j],
                    ),
                forall|j: int|
                    0 <= j < i ==> (#[trigger] text::views(encoded@)[j]).0 == cleaned(
                        text::views(pointers@)[j],
                        self@.cipher is Some,
                    ) && session::stores(
                        self@.cipher,
                        text::views(encoded@)[j].0,
                        None,
                        text::views(contents@)[j],
                        text::views(encoded@)[j].1,
                    ),
            decreases pointers@.len() - i,
        {
            assert(pointers@[i as int].wf());
            let pointer = clean(&pointers[i], encrypted);
            let kept = pointer.copy();
            let item = match self.encode_item(pointer, None, contents[i].as_str()) {
                Ok(item) => item,
                Err(message) => {
                    assert(!session::can_encode(
                        self@.cipher,
                        text::views(contents@)[i as int],
                    ));
                    return Err(message);
                },
            };
            let ghost shape = item@;
            let line = session::record_line(&StoreRecord::Item { item });
            assert(session::encodes(self@.cipher, kept@, None, contents@[i as int]@, shape));
            let record = EncodedRecord { pointer: kept, line };
            proof {
                text::lemma_views_push(encoded@, record);
            }
            encoded.push(record);
            i = i + 1;
        }
        Ok(encoded)
    }

    /// Decides what retention leaves of the store. Nothing is written here: the
    /// result is what the store and the pin state are to be rewritten to, or
    /// nothing where they stay as they are. This runs after every successful
    /// turn, so the common answer comes before anything is read.
    pub fn enforce_retention(
        &mut self,
        limits: RetentionLimits,
        protected: &Vec<String>,
        store_bytes: u64,
        now: i128,
        records: &[u8],
    ) -> (r: Result<Option<Rewrite>, String>)
        requires
            old(self).wf(),
            MIN_INSTANT <= now <= MAX_INSTANT,
            limits.retention_days <= MAX_DAYS,
        ensures
            final(self).wf(),
            ({
                let guard = text::views(protected@);
                let cutoff = days_before(now, limits.retention_days as nat);
                let visible = old(self)@.index.pointers(None);
                let kept = survivors(visible, guard, cutoff, limits.max_records as nat);
                let (state, read) = read_all(old(self)@, kept, records@);
                if !needs_rewrite(old(self)@, limits, guard, store_bytes, cutoff)
                    || nothing_evictable(old(self)@, kept, guard) {
                    r matches Ok(None) && final(self)@ == old(self)@
                } else {
                    &&& final(self)@ == state
                    &&& match read {
                        Err(message) => r matches Err(m) && m@ == message,
                        Ok(contents) => match r {
                            Ok(rewrite) => all_encodable(old(self)@.cipher, contents) && rewrites(
                                old(self)@,
                                kept,
                                contents,
                                guard,
                                limits.max_store_bytes as nat,
                                text::opt(rewrite),
                            ) && (rewrite matches Some(done) ==> done.overrides.wf()),
                            Err(message) => !all_encodable(old(self)@.cipher, contents)
                                && message@ == "failed to encrypt content"@,
                        },
                    }
                }
            }),
    {
        let ghost guard = text::views(protected@);
        let cutoff: i128 = cutoff_before(now, limits.retention_days);
        let visible = self.index.pointers(None);
        let ghost model = self@.index.pointers(None);
        assert(text::opt::<&str>(None) == None::<Seq<char>>);
        let visible_count: usize = visible.len();
        assert(text::views(visible@).len() == visible_count);
        let indexed: usize = self.index.order.len();
        assert(self@.index.order.len() == indexed);
        let stale = has_expired_of(&visible, protected, cutoff);
        if indexed == visible_count && visible_count <= limits.max_records && store_bytes
            <= limits.max_store_bytes && !stale && !self.needs_encryption_migration {
            return Ok(None);
        }
        let young = drop_expired(visible, protected, cutoff);
        let fixed: usize = protected_count_of(&young, protected);
        let room: usize = limits.max_records.saturating_sub(fixed);
        let kept = keep_newest_evictable_of(&young, protected, room, young.len());
        assert(text::views(young@).take(young@.len() as int) =~= text::views(young@));
        let ghost left = survivors(
            model,
            guard,
            days_before(now, limits.retention_days as nat),
            limits.max_records as nat,
        );
        assert(text::views(kept@) == left);
        assert(text::views(kept@).len() == kept@.len());
        if kept.len() == visible_count && indexed == visible_count
            && !self.needs_encryption_migration && protected_count_of(&kept, protected)
            == kept.len() {
            return Ok(None);
        }
        let ghost before = self@;
        let contents = match self.read_contents(&kept, records) {
            Ok(contents) => contents,
            Err(message) => {
                return Err(message);
            },
        };
        proof {
            lemma_read_all_keeps_index(before, left, records@);
            assert(text::views(contents@).len() == contents@.len());
        }
        let encoded = match self.encode_all(&kept, &contents) {
            Ok(encoded) => encoded,
            Err(message) => {
                return Err(message);
            },
        };
        let rewrite = plan_rewrite(
            self,
            &encoded,
            protected,
            limits.max_store_bytes,
            visible_count,
        );
        assert(rewrites_by(
            before,
            left,
            text::views(contents@),
            guard,
            limits.max_store_bytes as nat,
            text::opt(rewrite),
            text::views(encoded@),
        ));
        Ok(rewrite)
    }

    /// Takes over the pin overrides of a rewrite that was written.
    pub fn adopt_overrides(&mut self, overrides: TextMap<bool>)
        requires
            old(self).wf(),
            overrides.wf(),
        ensures
            final(self).wf(),
            final(self)@ == (SessionView { pin_overrides: overrides@, ..old(self)@ }),
    {
        self.pin_overrides = overrides;
    }
}

/// Whether each of some contents can be stored.
pub open spec fn all_encodable(cipher: Option<CipherView>, contents: Seq<Seq<char>>) -> bool {
    forall|i: int| 0 <= i < contents.len() ==> session::can_encode(cipher, #[trigger] contents[i])
}

/// `rewrite` is what the size limit leaves of some encoding of the kept
/// records.
pub open spec fn rewrites(
    before: SessionView,
    kept: Seq<PointerView>,
    contents: Seq<Seq<char>>,
    protected: Seq<Seq<char>>,
    max_bytes: nat,
    rewrite: Option<RewriteView>,
) -> bool {
    exists|encoded: Seq<(PointerView, Seq<u8>)>| #[trigger]
        rewrites_by(before, kept, contents, protected, max_bytes, rewrite, encoded)
}

pub open spec fn rewrites_by(
    before: SessionView,
    kept: Seq<PointerView>,
    contents: Seq<Seq<char>>,
    protected: Seq<Seq<char>>,
    max_bytes: nat,
    rewrite: Option<RewriteView>,
    encoded: Seq<(PointerView, Seq<u8>)>,
) -> bool {
    &&& stores_all(before.cipher, kept, contents, encoded)
    &&& rewrite == rewrite_of(before, encoded, protected, max_bytes)
}

/// Reading changes nothing but the cache.
proof fn lemma_read_all_keeps_index(
    session: SessionView,
    pointers: Seq<PointerView>,
    records: Seq<u8>,
)
    ensures
        ({
            let (state, read) = read_all(session, pointers, records);
            &&& state == (SessionView { cache: state.cache, ..session })
            &&& read matches Ok(contents) ==> contents.len() == pointers.len()
        }),
    decreases pointers.len(),
{
    if pointers.len() > 0 {
        lemma_read_all_keeps_index(session, pointers.drop_last(), records);
    }
}

/// Of the records that may be dropped the newest stay, as many as there is room
/// for, and every other record stays too, all in their order: a record that may
/// be dropped stays just where fewer newer ones than that may be.
pub proof fn law_newest_records_stay(
    s: Seq<PointerView>,
    protected: Seq<Seq<char>>,
    limit: nat,
) -> (places: Seq<int>)
    ensures
        ({
            let kept = keep_newest_evictable(s, protected, limit);
            &&& places.len() == kept.len()
            &&& forall|k: int|
                0 <= k < places.len() ==> 0 <= #[trigger] places[k] < s.len() && kept[k]
                    == s[places[k]]
            &&& forall|j: int, k: int|
                0 <= j < k < places.len() ==> #[trigger] places[j] < #[trigger] places[k]
            &&& forall|i: int|
                0 <= i < s.len() ==> (places.contains(i) <==> !evictable(
                    #[trigger] s[i],
                    protected,
                ) || s.skip(i + 1).filter(
                    |p: PointerView| evictable(p, protected),
                ).len() < limit)
        }),
    decreases s.len(),
{
    let goes = |p: PointerView| evictable(p, protected);
    if s.len() == 0 {
        Seq::empty()
    } else {
        let front = s.drop_last();
        let last: int = s.len() - 1;
        let own = evictable(s.last(), protected);
        let stays = !own || limit > 0;
        let less = if own && limit > 0 {
            (limit - 1) as nat
        } else {
            limit
        };
        let before = law_newest_records_stay(front, protected, less);
        let kept = keep_newest_evictable(s, protected, limit);
        let earlier = keep_newest_evictable(front, protected, less);
        let places = if stays {
            before.push(last)
        } else {
            before
        };
        assert(s[last] == s.last());
        assert forall|k: int| 0 <= k < places.len() implies 0 <= #[trigger] places[k] < s.len()
            && kept[k] == s[places[k]] by {
            if k < before.len() {
                assert(places[k] == before[k]);
                assert(front[before[k]] == s[before[k]]);
                assert(kept[k] == earlier[k]);
            }
        }
        assert forall|i: int| 0 <= i < s.len() implies (places.contains(i) <==> !evictable(
            #[trigger] s[i],
            protected,
        ) || s.skip(i + 1).filter(goes).len() < limit) by {
            reveal(Seq::filter);
            let newer = s.skip(i + 1);
            if i < last {
                assert(front[i] == s[i]);
                assert(newer.drop_last() =~= front.skip(i + 1));
                assert(newer.last() == s.last());
                if before.contains(i) {
                    assert(places[before.index_of(i)] == i);
                }
                if places.contains(i) {
                    let k = places.index_of(i);
                    assert(before[k] == i);
                }
            } else {
                assert(newer.len() == 0);
                if stays {
                    assert(places[before.len() as int] == last);
                }
                if before.contains(last) {
                    let k = before.index_of(last);
                    assert(before[k] < front.len());
                }
            }
        }
        places
    }
}

/// What must stay is counted record by record.
pub proof fn law_protected_records_are_counted(s: Seq<PointerView>, protected: Seq<Seq<char>>)
    ensures
        protected_count(s, protected) == s.filter(
            |p: PointerView| p.pinned || protected.contains(p.id),
        ).len(),
    decreases s.len(),
{
    reveal(Seq::filter);
    if s.len() > 0 {
        law_protected_records_are_counted(s.drop_last(), protected);
    }
}

/// A store whose records are within its limits keeps them all: none is dropped
/// that is not too old, or beyond the number, or beyond the size.
pub proof fn law_nothing_is_dropped_without_need(
    visible: Seq<PointerView>,
    protected: Seq<Seq<char>>,
    cutoff: int,
    max_records: nat,
    lines: Seq<(PointerView, Seq<u8>)>,
    max_bytes: nat,
)
    requires
        visible.len() <= max_records,
        forall|i: int|
            0 <= i < visible.len() ==> !expired(#[trigger] visible[i], protected, cutoff),
        lines_bytes(lines).len() <= max_bytes,
    ensures
        survivors(visible, protected, cutoff, max_records) == visible,
        retained(lines, protected, max_bytes) == lines,
{
    lemma_all_young(visible, protected, cutoff);
    lemma_count_bounded(visible, protected);
    lemma_bytes_bounded(lines, protected);
    let kept = protected_count(visible, protected);
    lemma_all_kept(visible, protected, (max_records - kept) as nat);
    lemma_all_fit(lines, protected, (max_bytes - protected_bytes(lines, protected)) as nat);
}

proof fn lemma_all_young(s: Seq<PointerView>, protected: Seq<Seq<char>>, cutoff: int)
    requires
        forall|i: int| 0 <= i < s.len() ==> !expired(#[trigger] s[i], protected, cutoff),
    ensures
        s.filter(|p: PointerView| !expired(p, protected, cutoff)) == s,
    decreases s.len(),
{
    reveal(Seq::filter);
    let young = |p: PointerView| !expired(p, protected, cutoff);
    if s.len() > 0 {
        let front = s.drop_last();
        assert forall|i: int| 0 <= i < front.len() implies !expired(
            #[trigger] front[i],
            protected,
            cutoff,
        ) by {
            assert(front[i] == s[i]);
        }
        lemma_all_young(front, protected, cutoff);
        assert(!expired(s[s.len() - 1], protected, cutoff));
        assert(front.push(s.last()) =~= s);
    } else {
        assert(s.filter(young) =~= s);
    }
}

proof fn lemma_all_kept(s: Seq<PointerView>, protected: Seq<Seq<char>>, limit: nat)
    requires
        s.len() <= limit + protected_count(s, protected),
    ensures
        keep_newest_evictable(s, protected, limit) == s,
        protected_count(s, protected) <= s.len(),
    decreases s.len(),
{
    if s.len() > 0 {
        let front = s.drop_last();
        lemma_count_bounded(front, protected);
        lemma_count_bounded(s, protected);
        if evictable(s.last(), protected) {
            lemma_all_kept(front, protected, (limit - 1) as nat);
        } else {
            lemma_all_kept(front, protected, limit);
        }
        assert(front.push(s.last()) =~= s);
    }
}

proof fn lemma_count_bounded(s: Seq<PointerView>, protected: Seq<Seq<char>>)
    ensures
        protected_count(s, protected) <= s.len(),
    decreases s.len(),
{
    if s.len() > 0 {
        lemma_count_bounded(s.drop_last(), protected);
    }
}

proof fn lemma_all_fit(
    s: Seq<(PointerView, Seq<u8>)>,
    protected: Seq<Seq<char>>,
    available: nat,
)
    requires
        lines_bytes(s).len() <= available + protected_bytes(s, protected),
    ensures
        keep_fitting(s, protected, available) == s,
    decreases s.len(),
{
    if s.len() > 0 {
        let front = s.drop_last();
        lemma_bytes_bounded(front, protected);
        if evictable(s.last().0, protected) {
            lemma_all_fit(front, protected, (available - s.last().1.len()) as nat);
        } else {
            lemma_all_fit(front, protected, available);
        }
        assert(front.push(s.last()) =~= s);
    }
}

proof fn lemma_bytes_bounded(s: Seq<(PointerView, Seq<u8>)>, protected: Seq<Seq<char>>)
    ensures
        protected_bytes(s, protected) <= lines_bytes(s).len(),
    decreases s.len(),
{
    if s.len() > 0 {
        lemma_bytes_bounded(s.drop_last(), protected);
    }
}

/// Of the lines that may be dropped those go that do not fit, from the newest
/// on: the newest stays just where it fits, and what is left of the room is for
/// the older ones. What stays keeps its order.
pub proof fn law_lines_that_fit_stay(
    s: Seq<(PointerView, Seq<u8>)>,
    protected: Seq<Seq<char>>,
    available: nat,
    newest: (PointerView, Seq<u8>),
)
    ensures
        ({
            let kept = keep_fitting(s.push(newest), protected, available);
            &&& newest.0.pinned || protected.contains(newest.0.id) ==> kept == keep_fitting(
                s,
                protected,
                available,
            ).push(newest)
            &&& !newest.0.pinned && !protected.contains(newest.0.id) && newest.1.len() <= available
                ==> kept == keep_fitting(
                s,
                protected,
                (available - newest.1.len()) as nat,
            ).push(newest)
            &&& !newest.0.pinned && !protected.contains(newest.0.id) && newest.1.len() > available
                ==> kept == keep_fitting(s, protected, available)
        }),
{
    assert(s.push(newest).drop_last() =~= s);
    assert(s.push(newest).last() == newest);
}

/// Reading the retained records gives the content of each, in their order.
pub proof fn law_every_record_is_read(
    session: SessionView,
    pointers: Seq<PointerView>,
    records: Seq<u8>,
    i: int,
)
    requires
        0 <= i < pointers.len(),
    ensures
        read_all(session, pointers, records).1 matches Ok(contents) ==> {
            &&& contents.len() == pointers.len()
            &&& read_all(session, pointers.take(i), records).0.read(
                pointers[i].id,
                None,
                records,
            ) matches Ok(Some((_, content))) && contents[i] == content
        },
    decreases pointers.len(),
{
    let rest = pointers.drop_last();
    if rest.len() == 0 {
        assert(rest =~= Seq::empty());
    } else {
        law_every_record_is_read(session, rest, records, if i < rest.len() {
            i
        } else {
            0
        });
    }
    if i < rest.len() {
        assert(rest.take(i) =~= pointers.take(i));
    } else {
        assert(pointers.take(i) =~= rest);
    }
}

} // verus!
