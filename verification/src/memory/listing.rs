//! Listing pointers: filtering, scanning contents, ranking and showing.
use crate::memory::pointers;
use crate::memory::pointers::{FilterView, PointerFilter};
use crate::memory::record::{MemoryPointer, PointerView};
use crate::memory::session::{SessionMemory, SessionView};
use crate::text;
use crate::textmap;
use crate::textmap::TextOrder;
use vstd::prelude::*;
use vstd::string::*;

verus! {

// ---------------------------------------------------------------------------
// Scanning
// ---------------------------------------------------------------------------

/// What a scan has used up: the session's cache has changed, bodies were read,
/// and pointers were passed over because no more may be read.
#[verifier::ext_equal]
pub struct ScanView {
    pub session: SessionView,
    pub content_reads: nat,
    pub unscanned: nat,
}

/// Whether a pointer meets the filters from number `k` on. A text that is not
/// found in what is known of the pointer is looked for in its content, which
/// is read for the first such filter.
pub open spec fn check_from(
    scan: ScanView,
    p: PointerView,
    filters: Seq<FilterView>,
    k: int,
    content: Option<Seq<char>>,
    turn: Option<Seq<char>>,
    records: Seq<u8>,
) -> Result<(ScanView, bool, Option<Seq<char>>), (SessionView, Seq<char>)>
    decreases filters.len() - k,
{
    if k < 0 || k >= filters.len() {
        Ok((scan, true, content))
    } else if pointers::filter_matches(p, filters[k]) {
        check_from(scan, p, filters, k + 1, content, turn, records)
    } else {
        match filters[k] {
            FilterView::Field { .. } => Ok((scan, false, content)),
            FilterView::Text(value) => if content is None && scan.content_reads
                >= pointers::CONTENT_SCAN_LIMIT {
                Ok((ScanView { unscanned: scan.unscanned + 1, ..scan }, false, content))
            } else {
                match fetched(scan, p.id, content, turn, records) {
                    Err(failure) => Err(failure),
                    Ok((next, body)) => if found_in(body, value) {
                        check_from(next, p, filters, k + 1, body, turn, records)
                    } else {
                        Ok((next, false, body))
                    },
                }
            },
        }
    }
}

pub open spec fn found_in(body: Option<Seq<char>>, value: Seq<char>) -> bool {
    body matches Some(content) && pointers::contains_ignoring_case(content, value)
}

/// The content in hand, or else the content as read now. A failure comes with
/// the session as it is left.
pub open spec fn fetched(
    scan: ScanView,
    id: Seq<char>,
    content: Option<Seq<char>>,
    turn: Option<Seq<char>>,
    records: Seq<u8>,
) -> Result<(ScanView, Option<Seq<char>>), (SessionView, Seq<char>)> {
    match content {
        Some(body) => Ok((scan, Some(body))),
        None => {
            let next = ScanView {
                session: scan.session.after_read(id, turn, records),
                content_reads: scan.content_reads + 1,
                ..scan
            };
            match scan.session.read(id, turn, records) {
                Err(message) => Err((next.session, message)),
                Ok(Some((_, body))) => Ok((next, Some(body))),
                Ok(None) => Ok((next, None)),
            }
        },
    }
}

/// The pointers that meet all filters, from the last candidate to number `n`,
/// each with its content as far as that was read.
pub open spec fn scan_down(
    scan: ScanView,
    candidates: Seq<PointerView>,
    n: nat,
    filters: Seq<FilterView>,
    turn: Option<Seq<char>>,
    records: Seq<u8>,
) -> Result<(ScanView, Seq<(PointerView, Option<Seq<char>>)>), (SessionView, Seq<char>)>
    decreases candidates.len() - n,
{
    if n >= candidates.len() {
        Ok((scan, Seq::empty()))
    } else {
        match scan_down(scan, candidates, n + 1, filters, turn, records) {
            Err(failure) => Err(failure),
            Ok((state, found)) => match check_from(
                state,
                candidates[n as int],
                filters,
                0,
                None,
                turn,
                records,
            ) {
                Err(failure) => Err(failure),
                Ok((next, true, content)) => Ok((next, found.push((candidates[n as int], content)))),
                Ok((next, false, _)) => Ok((next, found)),
            },
        }
    }
}

// ---------------------------------------------------------------------------
// Ranking
// ---------------------------------------------------------------------------

/// `a` is listed before `b`: pinned ones first, and of the others the newer.
pub open spec fn ranks_before(a: PointerView, b: PointerView) -> bool {
    if a.pinned != b.pinned {
        a.pinned
    } else {
        textmap::text_less(b.created_at, a.created_at)
    }
}

pub open spec fn insert_ranked(
    s: Seq<(PointerView, Option<Seq<char>>)>,
    x: (PointerView, Option<Seq<char>>),
) -> Seq<(PointerView, Option<Seq<char>>)>
    decreases s.len(),
{
    if s.len() == 0 {
        seq![x]
    } else if ranks_before(x.0, s[0].0) {
        seq![x] + s
    } else {
        seq![s[0]] + insert_ranked(s.skip(1), x)
    }
}

/// `s` in the order of the listing; equals keep their order.
pub open spec fn ranked(s: Seq<(PointerView, Option<Seq<char>>)>) -> Seq<
    (PointerView, Option<Seq<char>>),
>
    decreases s.len(),
{
    if s.len() == 0 {
        s
    } else {
        insert_ranked(ranked(s.drop_last()), s.last())
    }
}

/// No pair of neighbours or others stands in the wrong order.
pub open spec fn in_rank_order(s: Seq<(PointerView, Option<Seq<char>>)>) -> bool {
    forall|i: int, j: int|
        0 <= i < j < s.len() ==> !ranks_before((#[trigger] s[j]).0, (#[trigger] s[i]).0)
}

proof fn lemma_ranks_transitive(a: PointerView, b: PointerView, c: PointerView)
    requires
        !ranks_before(b, a),
        !ranks_before(c, b),
    ensures
        !ranks_before(c, a),
{
    if ranks_before(c, a) {
        if a.pinned == b.pinned && b.pinned == c.pinned {
            textmap::lemma_text_less_total(a.created_at, b.created_at);
            textmap::lemma_text_less_total(b.created_at, c.created_at);
            if a.created_at == b.created_at {
            } else if b.created_at == c.created_at {
            } else {
                textmap::lemma_text_less_transitive(c.created_at, b.created_at, a.created_at);
                textmap::lemma_text_less_transitive(
                    a.created_at,
                    c.created_at,
                    a.created_at,
                );
                textmap::lemma_text_less_irreflexive(a.created_at);
            }
        }
    }
}

proof fn lemma_ranks_asymmetric(a: PointerView, b: PointerView)
    requires
        ranks_before(a, b),
    ensures
        !ranks_before(b, a),
{
    if ranks_before(b, a) {
        textmap::lemma_text_less_transitive(a.created_at, b.created_at, a.created_at);
        textmap::lemma_text_less_irreflexive(a.created_at);
    }
}

proof fn lemma_insert_ranked(
    s: Seq<(PointerView, Option<Seq<char>>)>,
    x: (PointerView, Option<Seq<char>>),
)
    requires
        in_rank_order(s),
    ensures
        in_rank_order(insert_ranked(s, x)),
        insert_ranked(s, x).to_multiset() == s.to_multiset().insert(x),
        insert_ranked(s, x).len() == s.len() + 1,
        forall|i: int|
            0 <= i < insert_ranked(s, x).len() ==> (#[trigger] insert_ranked(s, x)[i]) == x
                || s.contains(insert_ranked(s, x)[i]),
    decreases s.len(),
{
    broadcast use vstd::seq_lib::group_to_multiset_ensures;

    let r = insert_ranked(s, x);
    if s.len() == 0 {
        assert(r =~= s.push(x));
    } else if ranks_before(x.0, s[0].0) {
        assert forall|i: int, j: int| 0 <= i < j < r.len() implies !ranks_before(
            (#[trigger] r[j]).0,
            (#[trigger] r[i]).0,
        ) by {
            assert(r[j] == s[j - 1]);
            if i == 0 {
                lemma_ranks_asymmetric(x.0, s[0].0);
                if j > 1 {
                    lemma_ranks_transitive(x.0, s[0].0, s[j - 1].0);
                }
            } else {
                assert(r[i] == s[i - 1]);
            }
        }
        assert(r =~= s.insert(0, x));
        vstd::seq_lib::lemma_multiset_commutative(seq![x], s);
        assert(seq![x].to_multiset() =~= vstd::multiset::Multiset::empty().insert(x)) by {
            assert(seq![x] =~= Seq::<(PointerView, Option<Seq<char>>)>::empty().push(x));
        }
        assert(r.to_multiset() =~= s.to_multiset().insert(x));
        assert forall|i: int| 0 <= i < r.len() implies (#[trigger] r[i]) == x || s.contains(
            r[i],
        ) by {
            if i > 0 {
                assert(r[i] == s[i - 1]);
            }
        }
    } else {
        let t = s.skip(1);
        assert forall|i: int, j: int| 0 <= i < j < t.len() implies !ranks_before(
            (#[trigger] t[j]).0,
            (#[trigger] t[i]).0,
        ) by {
            assert(t[i] == s[i + 1] && t[j] == s[j + 1]);
        }
        lemma_insert_ranked(t, x);
        let u = insert_ranked(t, x);
        assert forall|i: int| 0 <= i < r.len() implies (#[trigger] r[i]) == x || s.contains(
            r[i],
        ) by {
            if i == 0 {
                assert(r[0] == s[0]);
            } else {
                assert(r[i] == u[i - 1]);
                if u[i - 1] != x {
                    assert(t.contains(u[i - 1]));
                    let k = t.index_of(u[i - 1]);
                    assert(s[k + 1] == u[i - 1]);
                }
            }
        }
        assert forall|i: int, j: int| 0 <= i < j < r.len() implies !ranks_before(
            (#[trigger] r[j]).0,
            (#[trigger] r[i]).0,
        ) by {
            assert(r[j] == u[j - 1]);
            if i == 0 {
                if u[j - 1] != x {
                    assert(t.contains(u[j - 1]));
                    let k = t.index_of(u[j - 1]);
                    assert(s[k + 1] == u[j - 1]);
                    assert(!ranks_before(s[k + 1].0, s[0].0));
                }
            } else {
                assert(r[i] == u[i - 1]);
            }
        }
        assert(s =~= seq![s[0]] + t);
        vstd::seq_lib::lemma_multiset_commutative(seq![s[0]], t);
        vstd::seq_lib::lemma_multiset_commutative(seq![s[0]], u);
        assert(r.to_multiset() =~= s.to_multiset().insert(x));
    }
}

/// The ranking loses and invents no pointer, and puts pinned ones first and
/// newer ones before older ones.
pub proof fn law_ranking_orders(s: Seq<(PointerView, Option<Seq<char>>)>)
    ensures
        in_rank_order(ranked(s)),
        ranked(s).to_multiset() == s.to_multiset(),
        ranked(s).len() == s.len(),
    decreases s.len(),
{
    broadcast use vstd::seq_lib::group_to_multiset_ensures;

    if s.len() > 0 {
        law_ranking_orders(s.drop_last());
        lemma_insert_ranked(ranked(s.drop_last()), s.last());
        assert(s =~= s.drop_last().push(s.last()));
    }
}

// ---------------------------------------------------------------------------
// Showing
// ---------------------------------------------------------------------------

pub open spec fn listing_line(p: PointerView, preview: Seq<char>) -> Seq<char> {
    "- "@ + pointers::citation_text(p) + if preview.len() == 0 {
        Seq::empty()
    } else {
        " — "@ + preview
    }
}

/// The lines of a listing. A content that the scan did not read is read now.
pub open spec fn listing_lines(
    session: SessionView,
    found: Seq<(PointerView, Option<Seq<char>>)>,
    turn: Option<Seq<char>>,
    records: Seq<u8>,
) -> (SessionView, Result<Seq<Seq<char>>, Seq<char>>)
    decreases found.len(),
{
    if found.len() == 0 {
        (session, Ok(Seq::empty()))
    } else {
        let (state, done) = listing_lines(session, found.drop_last(), turn, records);
        let (p, scanned) = found.last();
        match done {
            Err(message) => (state, Err(message)),
            Ok(lines) => match scanned {
                Some(content) => (
                    state,
                    Ok(lines.push(listing_line(p, pointers::preview(content, 160)))),
                ),
                None => {
                    let next = state.after_read(p.id, turn, records);
                    match state.read(p.id, turn, records) {
                        Err(message) => (next, Err(message)),
                        Ok(Some((_, content))) => (
                            next,
                            Ok(lines.push(listing_line(p, pointers::preview(content, 160)))),
                        ),
                        Ok(None) => (next, Ok(lines.push(listing_line(p, Seq::empty())))),
                    }
                },
            },
        }
    }
}

/// What is listed where nothing matches.
pub open spec fn empty_listing(filter: Option<Seq<char>>) -> Seq<char> {
    match filter {
        Some(filter) => "No addressable pointers match "@ + text::debug_quoted(filter) + "."@,
        None => "No active or pinned addressable pointers."@,
    }
}

/// The listing of the shown lines, with notes on what is left out.
pub open spec fn listing_text(lines: Seq<Seq<char>>, total: nat, unscanned: nat) -> Seq<char> {
    let body = text::join(lines, "\n"@);
    let cut = if total > lines.len() {
        body + "\n- ["@ + text::decimal((total - lines.len()) as nat)
            + " more pointers omitted; pass a narrower filter]"@
    } else {
        body
    };
    if unscanned > 0 {
        cut + "\n- ["@ + text::decimal(unscanned)
            + " older pointers were not searched by content after 256 reads; narrow the filter with tool=, path=, or kind=]"@
    } else {
        cut
    }
}

/// The pointers that a listing starts from: all visible ones where there is a
/// filter; else the pinned ones that are not active, and the active ones.
pub open spec fn candidates(
    session: SessionView,
    filtered: bool,
    active: Seq<Seq<char>>,
    turn: Option<Seq<char>>,
) -> Seq<PointerView> {
    let visible = session.index.pointers(turn);
    if filtered {
        visible
    } else {
        visible.filter(|p: PointerView| p.pinned && !active.contains(p.id)) + active_pointers(
            session,
            active,
            turn,
        )
    }
}

/// The visible pointers of some IDs, in order.
pub open spec fn active_pointers(
    session: SessionView,
    ids: Seq<Seq<char>>,
    turn: Option<Seq<char>>,
) -> Seq<PointerView>
    decreases ids.len(),
{
    if ids.len() == 0 {
        Seq::empty()
    } else {
        let rest = active_pointers(session, ids.drop_last(), turn);
        match session.index.pointer(ids.last(), turn) {
            Some(p) => rest.push(p),
            None => rest,
        }
    }
}

/// The listing for a filter that is not blank, or for none, with the session as
/// it is left: what was read is in its cache.
pub open spec fn listing(
    session: SessionView,
    filter: Option<Seq<char>>,
    active: Seq<Seq<char>>,
    turn: Option<Seq<char>>,
    records: Seq<u8>,
) -> (SessionView, Result<Seq<char>, Seq<char>>) {
    let filters = match filter {
        Some(filter) => pointers::filters_of(text::words(filter)),
        None => Ok(Seq::empty()),
    };
    match filters {
        Err(message) => (session, Err(message)),
        Ok(filters) => match scan_down(
            ScanView { session, content_reads: 0, unscanned: 0 },
            candidates(session, filter is Some, active, turn),
            0,
            filters,
            turn,
            records,
        ) {
            Err((left, message)) => (left, Err(message)),
            Ok((scan, found)) => {
                let order = ranked(found);
                let shown = if order.len() > pointers::ACTIVE_POINTER_LIMIT {
                    order.take(pointers::ACTIVE_POINTER_LIMIT as int)
                } else {
                    order
                };
                if shown.len() == 0 {
                    (scan.session, Ok(empty_listing(filter)))
                } else {
                    match listing_lines(scan.session, shown, turn, records) {
                        (left, Err(message)) => (left, Err(message)),
                        (left, Ok(lines)) => (
                            left,
                            Ok(listing_text(lines, order.len(), scan.unscanned)),
                        ),
                    }
                }
            },
        },
    }
}

// ---------------------------------------------------------------------------
// The listing, run
// ---------------------------------------------------------------------------

/// A pointer that was found, with its content where the scan read it.
pub struct Found {
    pub pointer: MemoryPointer,
    pub content: Option<String>,
}

impl View for Found {
    type V = (PointerView, Option<Seq<char>>);

    open spec fn view(&self) -> (PointerView, Option<Seq<char>>) {
        (self.pointer@, text::opt(self.content))
    }
}

pub open spec fn found_wf(found: Seq<Found>) -> bool {
    forall|i: int| 0 <= i < found.len() ==> (#[trigger] found[i]).pointer.wf()
}

/// Two states that differ in their caches at most.
pub open spec fn same_but_cache(a: SessionView, b: SessionView) -> bool {
    b == (SessionView { cache: b.cache, ..a })
}

/// A running scan.
struct Scan {
    content_reads: usize,
    unscanned: usize,
}

spec fn scan_view(scan: Scan, session: SessionView) -> ScanView {
    ScanView {
        session,
        content_reads: scan.content_reads as nat,
        unscanned: scan.unscanned as nat,
    }
}

fn check_pointer(
    session: &mut SessionMemory,
    scan: &mut Scan,
    pointer: &MemoryPointer,
    filters: &Vec<PointerFilter>,
    turn: Option<&str>,
    records: &[u8],
) -> (r: Result<(bool, Option<String>), String>)
    requires
        old(session).wf(),
        pointer.wf(),
        forall|i: int| 0 <= i < filters@.len() ==> pointers::filter_wf((#[trigger] filters@[i])@),
        old(scan).content_reads <= pointers::CONTENT_SCAN_LIMIT,
        old(scan).unscanned < usize::MAX,
    ensures
        final(session).wf(),
        same_but_cache(old(session)@, final(session)@),
        final(scan).content_reads <= pointers::CONTENT_SCAN_LIMIT,
        final(scan).unscanned <= old(scan).unscanned + 1,
        match check_from(
            scan_view(*old(scan), old(session)@),
            pointer@,
            text::views(filters@),
            0,
            None,
            text::opt(turn),
            records@,
        ) {
            Ok((next, matched, content)) => r matches Ok((m, c)) && m == matched && text::opt(c)
                == content && next == scan_view(*final(scan), final(session)@),
            Err((left, message)) => r matches Err(m) && m@ == message && final(session)@ == left,
        },
{
    let ghost model = text::views(filters@);
    let ghost start = scan_view(*scan, session@);
    let mut content: Option<String> = None;
    let mut k: usize = 0;
    let ghost goal = check_from(start, pointer@, model, 0, None, text::opt(turn), records@);
    while k < filters.len()
        invariant
            k <= filters@.len(),
            session.wf(),
            same_but_cache(old(session)@, session@),
            pointer.wf(),
            forall|i: int|
                0 <= i < filters@.len() ==> pointers::filter_wf((#[trigger] filters@[i])@),
            model == text::views(filters@),
            scan.content_reads <= pointers::CONTENT_SCAN_LIMIT,
            scan.unscanned == old(scan).unscanned,
            old(scan).unscanned < usize::MAX,
            goal == check_from(
                scan_view(*scan, session@),
                pointer@,
                model,
                k as int,
                text::opt(content),
                text::opt(turn),
                records@,
            ),
            goal == check_from(
                scan_view(*old(scan), old(session)@),
                pointer@,
                text::views(filters@),
                0,
                None,
                text::opt(turn),
                records@,
            ),
        decreases filters@.len() - k,
    {
        let filter = &filters[k];
        assert(model[k as int] == filter@);
        if !pointers::pointer_matches_filter(pointer, filter) {
            let value = match filter {
                PointerFilter::Text(value) => value,
                PointerFilter::Field { .. } => {
                    return Ok((false, content));
                },
            };
            if content.is_none() {
                if scan.content_reads >= pointers::CONTENT_SCAN_LIMIT {
                    scan.unscanned = scan.unscanned + 1;
                    return Ok((false, content));
                }
                scan.content_reads = scan.content_reads + 1;
                match session.read(pointer.id.as_str(), turn, records) {
                    Ok(Some((_, body))) => {
                        content = Some(body);
                    },
                    Ok(None) => {},
                    Err(message) => {
                        return Err(message);
                    },
                }
            }
            let found = match &content {
                Some(body) => pointers::contains_case_insensitive(body.as_str(), value.as_str()),
                None => false,
            };
            if !found {
                return Ok((false, content));
            }
        }
        k = k + 1;
    }
    Ok((true, content))
}

fn candidates_of(
    session: &SessionMemory,
    filtered: bool,
    active: &Vec<String>,
    turn: Option<&str>,
) -> (r: Vec<MemoryPointer>)
    requires
        session.wf(),
    ensures
        text::views(r@) == candidates(
            session@,
            filtered,
            text::views(active@),
            text::opt(turn),
        ),
        forall|i: int| 0 <= i < r@.len() ==> (#[trigger] r@[i]).wf(),
{
    let visible = session.index.pointers(turn);
    if filtered {
        return visible;
    }
    let ghost model = session@.index.pointers(text::opt(turn));
    let ghost names = text::views(active@);
    let ghost idle = |p: PointerView| p.pinned && !names.contains(p.id);
    let mut r: Vec<MemoryPointer> = Vec::new();
    let mut i: usize = 0;
    proof {
        reveal(Seq::filter);
    }
    assert(text::views(r@) =~= model.take(0).filter(idle));
    while i < visible.len()
        invariant
            i <= visible@.len(),
            text::views(visible@) == model,
            names == text::views(active@),
            idle == (|p: PointerView| p.pinned && !names.contains(p.id)),
            text::views(r@) == model.take(i as int).filter(idle),
            forall|j: int| 0 <= j < visible@.len() ==> (#[trigger] visible@[j]).wf(),
            forall|j: int| 0 <= j < r@.len() ==> (#[trigger] r@[j]).wf(),
        decreases visible@.len() - i,
    {
        proof {
            reveal(Seq::filter);
        }
        assert(model.take(i as int + 1).drop_last() =~= model.take(i as int));
        assert(model.take(i as int + 1).last() == visible@[i as int]@);
        if visible[i].pinned && !crate::memory::ids::contains_text(active, visible[i].id.as_str()) {
            let pointer = visible[i].copy();
            assert(visible@[i as int].wf());
            proof {
                text::lemma_views_push(r@, pointer);
            }
            r.push(pointer);
        }
        i = i + 1;
    }
    assert(model.take(model.len() as int) =~= model);
    let ghost pinned = text::views(r@);
    let mut j: usize = 0;
    assert(names.take(0) =~= Seq::<Seq<char>>::empty());
    assert(pinned + active_pointers(session@, names.take(0), text::opt(turn)) =~= pinned);
    while j < active.len()
        invariant
            j <= active@.len(),
            session.wf(),
            names == text::views(active@),
            text::views(r@) == pinned + active_pointers(
                session@,
                names.take(j as int),
                text::opt(turn),
            ),
            forall|j: int| 0 <= j < r@.len() ==> (#[trigger] r@[j]).wf(),
        decreases active@.len() - j,
    {
        assert(names.take(j as int + 1).drop_last() =~= names.take(j as int));
        assert(names.take(j as int + 1).last() == active@[j as int]@);
        let ghost before = text::views(r@);
        match session.index.pointer(active[j].as_str(), turn) {
            Some(pointer) => {
                proof {
                    text::lemma_views_push(r@, pointer);
                }
                r.push(pointer);
            },
            None => {},
        }
        j = j + 1;
        assert(text::views(r@) =~= pinned + active_pointers(
            session@,
            names.take(j as int),
            text::opt(turn),
        ));
    }
    assert(names.take(names.len() as int) =~= names);
    r
}

fn ranks_before_of(a: &MemoryPointer, b: &MemoryPointer) -> (r: bool)
    ensures
        r == ranks_before(a@, b@),
{
    if a.pinned != b.pinned {
        a.pinned
    } else {
        match textmap::compare_texts(b.created_at.as_str(), a.created_at.as_str()) {
            TextOrder::Before => true,
            _ => false,
        }
    }
}

proof fn lemma_insert_ranked_at(
    s: Seq<(PointerView, Option<Seq<char>>)>,
    x: (PointerView, Option<Seq<char>>),
    at: int,
)
    requires
        0 <= at <= s.len(),
        forall|i: int| 0 <= i < at ==> !ranks_before(x.0, (#[trigger] s[i]).0),
        at < s.len() ==> ranks_before(x.0, s[at].0),
    ensures
        insert_ranked(s, x) == s.insert(at, x),
    decreases s.len(),
{
    if at == 0 {
        if s.len() == 0 {
            assert(seq![x] =~= s.insert(0, x));
        } else {
            assert(seq![x] + s =~= s.insert(0, x));
        }
    } else {
        assert(!ranks_before(x.0, s[0].0));
        let t = s.skip(1);
        assert forall|i: int| 0 <= i < at - 1 implies !ranks_before(x.0, (#[trigger] t[i]).0) by {
            assert(t[i] == s[i + 1]);
        }
        if at < s.len() {
            assert(t[at - 1] == s[at]);
        }
        lemma_insert_ranked_at(t, x, at - 1);
        assert(seq![s[0]] + t.insert(at - 1, x) =~= s.insert(at, x));
    }
}

/// The found pointers in the order of the listing.
fn rank(found: Vec<Found>) -> (r: Vec<Found>)
    requires
        found_wf(found@),
    ensures
        found_wf(r@),
        text::views(r@) == ranked(text::views(found@)),
{
    let ghost model = text::views(found@);
    let mut r: Vec<Found> = Vec::new();
    let mut i: usize = 0;
    assert(model.take(0) =~= Seq::<(PointerView, Option<Seq<char>>)>::empty());
    assert(text::views(r@) =~= ranked(model.take(0)));
    while i < found.len()
        invariant
            i <= found@.len(),
            found_wf(found@),
            found_wf(r@),
            model == text::views(found@),
            text::views(r@) == ranked(model.take(i as int)),
        decreases found@.len() - i,
    {
        assert(model.take(i as int + 1).drop_last() =~= model.take(i as int));
        assert(model.take(i as int + 1).last() == found@[i as int]@);
        let ghost before = text::views(r@);
        let mut at: usize = 0;
        while at < r.len() && !ranks_before_of(&found[i].pointer, &r[at].pointer)
            invariant
                i < found@.len(),
                at <= r@.len(),
                before == text::views(r@),
                forall|j: int|
                    0 <= j < at ==> !ranks_before(found@[i as int]@.0, (#[trigger] before[j]).0),
            decreases r@.len() - at,
        {
            assert(before[at as int] == r@[at as int]@);
            at = at + 1;
        }
        if at < r.len() {
            assert(before[at as int] == r@[at as int]@);
        }
        proof {
            lemma_insert_ranked_at(before, found@[i as int]@, at as int);
        }
        let copied = Found {
            pointer: found[i].pointer.copy(),
            content: crate::agent::message::copy_text(&found[i].content),
        };
        assert(found@[i as int].pointer.wf());
        let ghost held = r@;
        r.insert(at, copied);
        assert(text::views(r@) =~= before.insert(at as int, copied@));
        assert forall|j: int| 0 <= j < r@.len() implies (#[trigger] r@[j]).pointer.wf() by {
            if j < at {
                assert(r@[j] == held[j]);
            } else if j > at {
                assert(r@[j] == held[j - 1]);
            }
        }
        i = i + 1;
    }
    assert(model.take(model.len() as int) =~= model);
    r
}

fn listing_line_of(pointer: &MemoryPointer, preview: &str) -> (r: String)
    requires
        pointer.wf(),
    ensures
        r@ == listing_line(pointer@, preview@),
{
    let mut r = "- ".to_owned();
    let cited = pointers::citation(pointer);
    r.append(cited.as_str());
    if !preview.is_empty() {
        r.append(" — ");
        r.append(preview);
        assert(r@ =~= listing_line(pointer@, preview@));
    } else {
        assert(r@ + Seq::<char>::empty() =~= r@);
    }
    r
}

/// The model of lines or a complaint.
pub open spec fn lines_view(r: Result<Vec<String>, String>) -> Result<Seq<Seq<char>>, Seq<char>> {
    match r {
        Ok(lines) => Ok(text::views(lines@)),
        Err(message) => Err(message@),
    }
}

proof fn lemma_listing_lines_err(
    session: SessionView,
    found: Seq<(PointerView, Option<Seq<char>>)>,
    turn: Option<Seq<char>>,
    records: Seq<u8>,
    n: int,
)
    requires
        0 <= n <= found.len(),
        listing_lines(session, found.take(n), turn, records).1 is Err,
    ensures
        listing_lines(session, found, turn, records) == listing_lines(
            session,
            found.take(n),
            turn,
            records,
        ),
    decreases found.len() - n,
{
    if n == found.len() {
        assert(found.take(n) =~= found);
    } else {
        assert(found.take(n + 1).drop_last() =~= found.take(n));
        lemma_listing_lines_err(session, found, turn, records, n + 1);
    }
}

fn lines_of_found(
    session: &mut SessionMemory,
    found: &Vec<Found>,
    turn: Option<&str>,
    records: &[u8],
) -> (r: Result<Vec<String>, String>)
    requires
        old(session).wf(),
        found_wf(found@),
    ensures
        final(session).wf(),
        same_but_cache(old(session)@, final(session)@),
        listing_lines(
            old(session)@,
            text::views(found@),
            text::opt(turn),
            records@,
        ) == (final(session)@, lines_view(r)),
{
    let ghost model = text::views(found@);
    let ghost start = session@;
    let mut lines: Vec<String> = Vec::new();
    let mut i: usize = 0;
    assert(model.take(0) =~= Seq::<(PointerView, Option<Seq<char>>)>::empty());
    assert(text::views(lines@) =~= Seq::<Seq<char>>::empty());
    while i < found.len()
        invariant
            i <= found@.len(),
            session.wf(),
            same_but_cache(start, session@),
            found_wf(found@),
            model == text::views(found@),
            start == old(session)@,
            listing_lines(start, model.take(i as int), text::opt(turn), records@) == (
                session@,
                Ok::<Seq<Seq<char>>, Seq<char>>(text::views(lines@)),
            ),
        decreases found@.len() - i,
    {
        assert(model.take(i as int + 1).drop_last() =~= model.take(i as int));
        assert(model.take(i as int + 1).last() == found@[i as int]@);
        assert(found@[i as int].pointer.wf());
        let item = &found[i];
        let preview = match &item.content {
            Some(content) => pointers::one_line_preview(content.as_str(), 160),
            None => match session.read(item.pointer.id.as_str(), turn, records) {
                Ok(Some((_, content))) => pointers::one_line_preview(content.as_str(), 160),
                Ok(None) => String::new(),
                Err(message) => {
                    proof {
                        lemma_listing_lines_err(
                            start,
                            model,
                            text::opt(turn),
                            records@,
                            i as int + 1,
                        );
                    }
                    return Err(message);
                },
            },
        };
        let line = listing_line_of(&item.pointer, preview.as_str());
        proof {
            text::lemma_views_push(lines@, line);
        }
        lines.push(line);
        i = i + 1;
    }
    assert(model.take(model.len() as int) =~= model);
    Ok(lines)
}

fn listing_text_of(lines: &Vec<String>, total: usize, unscanned: usize) -> (r: String)
    requires
        lines@.len() <= total,
    ensures
        r@ == listing_text(text::views(lines@), total as nat, unscanned as nat),
{
    let mut r = text::join_of(lines, "\n");
    assert(text::views(lines@).len() == lines@.len());
    if total > lines.len() {
        r.append("\n- [");
        let more = text::decimal_of((total - lines.len()) as u64);
        r.append(more.as_str());
        r.append(" more pointers omitted; pass a narrower filter]");
    }
    if unscanned > 0 {
        r.append("\n- [");
        let skipped = text::decimal_of(unscanned as u64);
        r.append(skipped.as_str());
        r.append(
            " older pointers were not searched by content after 256 reads; narrow the filter with tool=, path=, or kind=]",
        );
    }
    r
}

proof fn lemma_scan_down_err(
    scan: ScanView,
    candidates: Seq<PointerView>,
    n: nat,
    m: nat,
    filters: Seq<FilterView>,
    turn: Option<Seq<char>>,
    records: Seq<u8>,
)
    requires
        n <= m,
        scan_down(scan, candidates, m, filters, turn, records) is Err,
    ensures
        scan_down(scan, candidates, n, filters, turn, records) == scan_down(
            scan,
            candidates,
            m,
            filters,
            turn,
            records,
        ),
    decreases m - n,
{
    if n < m {
        lemma_scan_down_err(scan, candidates, n + 1, m, filters, turn, records);
    }
}

/// Looks at the pointers of `pool` from the last to the first.
fn scan_pool(
    session: &mut SessionMemory,
    pool: &Vec<MemoryPointer>,
    filters: &Vec<PointerFilter>,
    turn: Option<&str>,
    records: &[u8],
) -> (r: Result<(Vec<Found>, usize), String>)
    requires
        old(session).wf(),
        forall|i: int| 0 <= i < pool@.len() ==> (#[trigger] pool@[i]).wf(),
        forall|i: int| 0 <= i < filters@.len() ==> pointers::filter_wf((#[trigger] filters@[i])@),
    ensures
        final(session).wf(),
        same_but_cache(old(session)@, final(session)@),
        match (
            r,
            scan_down(
                ScanView { session: old(session)@, content_reads: 0, unscanned: 0 },
                text::views(pool@),
                0,
                text::views(filters@),
                text::opt(turn),
                records@,
            ),
        ) {
            (Ok((found, unscanned)), Ok((scan, matches))) => {
                &&& text::views(found@) == matches
                &&& found_wf(found@)
                &&& found@.len() <= pool@.len()
                &&& unscanned == scan.unscanned
                &&& scan.session == final(session)@
            },
            (Err(message), Err((left, complaint))) => message@ == complaint && left
                == final(session)@,
            _ => false,
        },
{
    let ghost start = session@;
    let ghost model = text::views(pool@);
    let ghost wanted = text::views(filters@);
    let mut scan = Scan { content_reads: 0, unscanned: 0 };
    let ghost fresh = ScanView { session: start, content_reads: 0, unscanned: 0 };
    let mut found: Vec<Found> = Vec::new();
    let pool_size: usize = pool.len();
    let mut n: usize = pool_size;
    assert(text::views(found@) =~= Seq::<(PointerView, Option<Seq<char>>)>::empty());
    while n > 0
        invariant
            n <= pool_size == pool@.len(),
            session.wf(),
            start == old(session)@,
            same_but_cache(start, session@),
            fresh == (ScanView { session: start, content_reads: 0, unscanned: 0 }),
            model == text::views(pool@),
            wanted == text::views(filters@),
            forall|i: int| 0 <= i < pool@.len() ==> (#[trigger] pool@[i]).wf(),
            forall|i: int|
                0 <= i < filters@.len() ==> pointers::filter_wf((#[trigger] filters@[i])@),
            found_wf(found@),
            scan.content_reads <= pointers::CONTENT_SCAN_LIMIT,
            scan.unscanned <= pool@.len() - n,
            found@.len() <= pool@.len() - n,
            scan_down(fresh, model, n as nat, wanted, text::opt(turn), records@) == Ok::<
                (ScanView, Seq<(PointerView, Option<Seq<char>>)>),
                (SessionView, Seq<char>),
            >((scan_view(scan, session@), text::views(found@))),
        decreases n,
    {
        let at: usize = n - 1;
        assert(pool@[at as int].wf());
        assert(model[at as int] == pool@[at as int]@);
        match check_pointer(session, &mut scan, &pool[at], filters, turn, records) {
            Ok((matched, content)) => {
                if matched {
                    let item = Found { pointer: pool[at].copy(), content };
                    proof {
                        text::lemma_views_push(found@, item);
                    }
                    found.push(item);
                }
            },
            Err(message) => {
                proof {
                    lemma_scan_down_err(
                        fresh,
                        model,
                        0,
                        at as nat,
                        wanted,
                        text::opt(turn),
                        records@,
                    );
                }
                return Err(message);
            },
        }
        n = at;
    }
    Ok((found, scan.unscanned))
}

impl SessionMemory {
    /// The listing of the pointers that meet `filter`, or of the pinned and the
    /// active ones. A scan of contents spends its reads on the newest pointers,
    /// which are most likely to matter.
    pub fn list_pointers(
        &mut self,
        filter: Option<&str>,
        active: &Vec<String>,
        turn: Option<&str>,
        records: &[u8],
    ) -> (r: Result<String, String>)
        requires
            old(self).wf(),
        ensures
            final(self).wf(),
            same_but_cache(old(self)@, final(self)@),
            listing(
                old(self)@,
                text::opt(filter),
                text::views(active@),
                text::opt(turn),
                records@,
            ) == (final(self)@, text::res(r)),
    {
        let ghost start = self@;
        let filters: Vec<PointerFilter> = match filter {
            Some(filter) => match pointers::parse_pointer_filters(filter) {
                Ok(filters) => filters,
                Err(message) => {
                    return Err(message);
                },
            },
            None => Vec::new(),
        };
        let ghost wanted = text::views(filters@);
        assert(filter is None ==> wanted =~= Seq::<FilterView>::empty());
        let pool = candidates_of(self, filter.is_some(), active, turn);
        let ghost model = text::views(pool@);
        let (found, unscanned) = match scan_pool(self, &pool, &filters, turn, records) {
            Ok(scanned) => scanned,
            Err(message) => {
                return Err(message);
            },
        };
        let mut order = rank(found);
        let total: usize = order.len();
        let ghost whole = text::views(order@);
        assert(whole.len() == total);
        if total > pointers::ACTIVE_POINTER_LIMIT {
            let ghost held = order@;
            order.truncate(pointers::ACTIVE_POINTER_LIMIT);
            assert(text::views(order@) =~= whole.take(pointers::ACTIVE_POINTER_LIMIT as int));
            assert forall|i: int| 0 <= i < order@.len() implies (
            #[trigger] order@[i]).pointer.wf() by {
                assert(order@[i] == held[i]);
            }
        }
        assert(text::views(order@).len() == order@.len());
        if order.len() == 0 {
            return Ok(
                match filter {
                    Some(filter) => {
                        let mut message = "No addressable pointers match ".to_owned();
                        let quoted = text::debug_text(filter);
                        message.append(quoted.as_str());
                        message.append(".");
                        message
                    },
                    None => "No active or pinned addressable pointers.".to_owned(),
                },
            );
        }
        proof {
            lemma_listing_lines_len(self@, text::views(order@), text::opt(turn), records@);
        }
        let lines = match lines_of_found(self, &order, turn, records) {
            Ok(lines) => lines,
            Err(message) => {
                return Err(message);
            },
        };
        assert(text::views(lines@).len() == lines@.len());
        Ok(listing_text_of(&lines, total, unscanned))
    }
}

proof fn lemma_listing_lines_len(
    session: SessionView,
    found: Seq<(PointerView, Option<Seq<char>>)>,
    turn: Option<Seq<char>>,
    records: Seq<u8>,
)
    ensures
        listing_lines(session, found, turn, records).1 matches Ok(lines) ==> lines.len()
            == found.len(),
    decreases found.len(),
{
    if found.len() > 0 {
        lemma_listing_lines_len(session, found.drop_last(), turn, records);
    }
}

/// A pointer meets every filter by what is known of it.
pub open spec fn meets_all(p: PointerView, filters: Seq<FilterView>) -> bool {
    forall|k: int| 0 <= k < filters.len() ==> pointers::filter_matches(p, #[trigger] filters[k])
}

/// A pointer meets every filter that asks for a field.
pub open spec fn meets_fields(p: PointerView, filters: Seq<FilterView>) -> bool {
    forall|k: int|
        0 <= k < filters.len() && filters[k] is Field ==> pointers::filter_matches(
            p,
            #[trigger] filters[k],
        )
}

proof fn lemma_check_meets(
    scan: ScanView,
    p: PointerView,
    filters: Seq<FilterView>,
    k: int,
    content: Option<Seq<char>>,
    turn: Option<Seq<char>>,
    records: Seq<u8>,
)
    requires
        0 <= k <= filters.len(),
    ensures
        meets_all(p, filters) ==> check_from(scan, p, filters, k, content, turn, records) == Ok::<
            (ScanView, bool, Option<Seq<char>>),
            (SessionView, Seq<char>),
        >((scan, true, content)),
        check_from(scan, p, filters, k, content, turn, records) matches Ok((_, true, _)) ==> forall|
            j: int,
        |
            k <= j < filters.len() && filters[j] is Field ==> pointers::filter_matches(
                p,
                #[trigger] filters[j],
            ),
    decreases filters.len() - k,
{
    if k < filters.len() {
        if pointers::filter_matches(p, filters[k]) {
            lemma_check_meets(scan, p, filters, k + 1, content, turn, records);
        } else if let FilterView::Text(value) = filters[k] {
            if !(content is None && scan.content_reads >= pointers::CONTENT_SCAN_LIMIT) {
                if let Ok((next, body)) = fetched(scan, p.id, content, turn, records) {
                    if found_in(body, value) {
                        lemma_check_meets(next, p, filters, k + 1, body, turn, records);
                    }
                }
            }
        }
    }
}

/// A search through pointers finds every candidate that meets all filters by
/// what is known of it, and no candidate that fails a field; what it finds are
/// candidates, each once, from the last to the first.
pub proof fn law_matching_pointers_are_found(
    scan: ScanView,
    candidates: Seq<PointerView>,
    n: nat,
    filters: Seq<FilterView>,
    turn: Option<Seq<char>>,
    records: Seq<u8>,
) -> (places: Seq<int>)
    requires
        scan_down(scan, candidates, n, filters, turn, records) is Ok,
    ensures
        ({
            let found = scan_down(scan, candidates, n, filters, turn, records)->Ok_0.1;
            &&& places.len() == found.len()
            &&& forall|k: int|
                0 <= k < places.len() ==> n <= #[trigger] places[k] < candidates.len()
                    && found[k].0 == candidates[places[k]] && meets_fields(found[k].0, filters)
            &&& forall|j: int, k: int|
                0 <= j < k < places.len() ==> #[trigger] places[j] > #[trigger] places[k]
            &&& forall|i: int|
                n <= i < candidates.len() && meets_all(#[trigger] candidates[i], filters)
                    ==> places.contains(i)
        }),
    decreases candidates.len() - n,
{
    if n >= candidates.len() {
        Seq::empty()
    } else {
        let before = law_matching_pointers_are_found(
            scan,
            candidates,
            n + 1,
            filters,
            turn,
            records,
        );
        let (state, earlier) = scan_down(scan, candidates, n + 1, filters, turn, records)->Ok_0;
        let found = scan_down(scan, candidates, n, filters, turn, records)->Ok_0.1;
        let p = candidates[n as int];
        lemma_check_meets(state, p, filters, 0, None, turn, records);
        let hit = found.len() > earlier.len();
        let places = if hit {
            before.push(n as int)
        } else {
            before
        };
        assert forall|k: int| 0 <= k < places.len() implies n <= #[trigger] places[k]
            < candidates.len() && found[k].0 == candidates[places[k]] && meets_fields(
            found[k].0,
            filters,
        ) by {
            if k < before.len() {
                assert(places[k] == before[k]);
                assert(found[k] == earlier[k]);
            }
        }
        assert forall|i: int|
            n <= i < candidates.len() && meets_all(
                #[trigger] candidates[i],
                filters,
            ) implies places.contains(i) by {
            if i > n {
                assert(before.contains(i));
                assert(places[before.index_of(i)] == i);
            } else {
                assert(places[before.len() as int] == i);
            }
        }
        places
    }
}

/// Every ID that is visible has its pointer among the active ones, in the order
/// of the IDs.
pub proof fn law_active_pointers_are_found(
    session: SessionView,
    ids: Seq<Seq<char>>,
    turn: Option<Seq<char>>,
) -> (places: Seq<int>)
    ensures
        ({
            let list = active_pointers(session, ids, turn);
            &&& places.len() == list.len()
            &&& forall|k: int|
                0 <= k < places.len() ==> 0 <= #[trigger] places[k] < ids.len()
                    && session.index.pointer(ids[places[k]], turn) == Some(list[k])
            &&& forall|j: int, k: int|
                0 <= j < k < places.len() ==> #[trigger] places[j] < #[trigger] places[k]
            &&& forall|i: int|
                0 <= i < ids.len() && session.index.pointer(#[trigger] ids[i], turn) is Some
                    ==> places.contains(i)
        }),
    decreases ids.len(),
{
    if ids.len() == 0 {
        Seq::empty()
    } else {
        let front = ids.drop_last();
        let last: int = ids.len() - 1;
        let before = law_active_pointers_are_found(session, front, turn);
        let earlier = active_pointers(session, front, turn);
        let list = active_pointers(session, ids, turn);
        assert(ids[last] == ids.last());
        let places = if session.index.pointer(ids.last(), turn) is Some {
            before.push(last)
        } else {
            before
        };
        assert forall|k: int| 0 <= k < places.len() implies 0 <= #[trigger] places[k] < ids.len()
            && session.index.pointer(ids[places[k]], turn) == Some(list[k]) by {
            if k < before.len() {
                assert(places[k] == before[k]);
                assert(front[before[k]] == ids[before[k]]);
                assert(list[k] == earlier[k]);
            }
        }
        assert forall|i: int|
            0 <= i < ids.len() && session.index.pointer(
                #[trigger] ids[i],
                turn,
            ) is Some implies places.contains(i) by {
            if i < last {
                assert(front[i] == ids[i]);
                assert(before.contains(i));
                assert(places[before.index_of(i)] == i);
            } else {
                assert(places[before.len() as int] == i);
            }
        }
        places
    }
}

/// A listing has a line for every pointer that it shows, in their order: each
/// begins with the pointer's citation.
pub proof fn law_every_pointer_has_its_line(
    session: SessionView,
    found: Seq<(PointerView, Option<Seq<char>>)>,
    turn: Option<Seq<char>>,
    records: Seq<u8>,
)
    requires
        listing_lines(session, found, turn, records).1 is Ok,
    ensures
        ({
            let lines = listing_lines(session, found, turn, records).1->Ok_0;
            &&& lines.len() == found.len()
            &&& forall|k: int|
                0 <= k < found.len() ==> {
                    let head = "- "@ + pointers::citation_text((#[trigger] found[k]).0);
                    &&& lines[k].len() >= head.len()
                    &&& lines[k].take(head.len() as int) == head
                    &&& found[k].1 matches Some(content) ==> lines[k] == listing_line(
                        found[k].0,
                        pointers::preview(content, 160),
                    )
                }
        }),
    decreases found.len(),
{
    if found.len() > 0 {
        let front = found.drop_last();
        let last: int = found.len() - 1;
        law_every_pointer_has_its_line(session, front, turn, records);
        let before = listing_lines(session, front, turn, records).1->Ok_0;
        let lines = listing_lines(session, found, turn, records).1->Ok_0;
        assert forall|k: int| 0 <= k < found.len() implies {
            let head = "- "@ + pointers::citation_text((#[trigger] found[k]).0);
            &&& lines[k].len() >= head.len()
            &&& lines[k].take(head.len() as int) == head
            &&& found[k].1 matches Some(content) ==> lines[k] == listing_line(
                found[k].0,
                pointers::preview(content, 160),
            )
        } by {
            let head = "- "@ + pointers::citation_text(found[k].0);
            if k < last {
                assert(front[k] == found[k]);
                assert(lines[k] == before[k]);
            } else {
                assert(found[k] == found.last());
                assert(lines[k].take(head.len() as int) =~= head);
            }
        }
    }
}

} // verus!
