//! The hot cache of recently used contents, and the limit on recalls.
use crate::text;
use vstd::prelude::*;
use vstd::string::*;

verus! {

/// Contents by ID, the least recently used first, never more than `capacity`.
#[derive(Debug, PartialEq, Eq)]
pub struct HotCache {
    pub capacity: usize,
    pub entries: Vec<(String, String)>,
}

/// The entries of a cache as pairs of ID and content.
pub open spec fn cache_entries(entries: Seq<(String, String)>) -> Seq<(Seq<char>, Seq<char>)> {
    Seq::new(entries.len(), |i: int| (entries[i].0@, entries[i].1@))
}

impl View for HotCache {
    type V = Seq<(Seq<char>, Seq<char>)>;

    open spec fn view(&self) -> Seq<(Seq<char>, Seq<char>)> {
        cache_entries(self.entries@)
    }
}

/// Where `id` stands among the entries.
pub open spec fn cached_at(entries: Seq<(Seq<char>, Seq<char>)>, id: Seq<char>) -> Option<int>
    decreases entries.len(),
{
    if entries.len() == 0 {
        None
    } else if entries.last().0 == id {
        Some(entries.len() - 1)
    } else {
        cached_at(entries.drop_last(), id)
    }
}

/// The entries without the one for `id`.
pub open spec fn without(entries: Seq<(Seq<char>, Seq<char>)>, id: Seq<char>) -> Seq<
    (Seq<char>, Seq<char>),
> {
    match cached_at(entries, id) {
        Some(i) => entries.remove(i),
        None => entries,
    }
}

/// The content cached for `id`.
pub open spec fn cached(entries: Seq<(Seq<char>, Seq<char>)>, id: Seq<char>) -> Option<Seq<char>> {
    match cached_at(entries, id) {
        Some(i) => Some(entries[i].1),
        None => None,
    }
}

/// The entries once `id` was read: it becomes the most recently used one.
pub open spec fn touched(entries: Seq<(Seq<char>, Seq<char>)>, id: Seq<char>) -> Seq<
    (Seq<char>, Seq<char>),
> {
    match cached(entries, id) {
        Some(content) => without(entries, id).push((id, content)),
        None => entries,
    }
}

/// The last `n` entries, or all of them.
pub open spec fn newest(entries: Seq<(Seq<char>, Seq<char>)>, n: nat) -> Seq<
    (Seq<char>, Seq<char>),
> {
    if entries.len() > n {
        entries.skip(entries.len() - n)
    } else {
        entries
    }
}

/// The entries once `content` was cached for `id`.
pub open spec fn cache_insert(
    entries: Seq<(Seq<char>, Seq<char>)>,
    capacity: nat,
    id: Seq<char>,
    content: Seq<char>,
) -> Seq<(Seq<char>, Seq<char>)> {
    if capacity == 0 {
        entries
    } else {
        newest(without(entries, id).push((id, content)), capacity)
    }
}

/// No ID stands twice.
pub open spec fn distinct_ids(entries: Seq<(Seq<char>, Seq<char>)>) -> bool {
    forall|i: int, j: int|
        0 <= i < j < entries.len() ==> (#[trigger] entries[i]).0 != (#[trigger] entries[j]).0
}

proof fn lemma_cached_at(entries: Seq<(Seq<char>, Seq<char>)>, id: Seq<char>)
    ensures
        match cached_at(entries, id) {
            Some(i) => 0 <= i < entries.len() && entries[i].0 == id,
            None => forall|i: int| 0 <= i < entries.len() ==> (#[trigger] entries[i]).0 != id,
        },
    decreases entries.len(),
{
    if entries.len() > 0 && entries.last().0 != id {
        lemma_cached_at(entries.drop_last(), id);
        let shorter = entries.drop_last();
        if cached_at(shorter, id) is None {
            assert forall|i: int| 0 <= i < entries.len() implies (#[trigger] entries[i]).0 != id by {
                if i < entries.len() - 1 {
                    assert(shorter[i] == entries[i]);
                }
            }
        }
    }
}

proof fn lemma_cached_at_is(entries: Seq<(Seq<char>, Seq<char>)>, id: Seq<char>, at: int)
    requires
        0 <= at < entries.len(),
        entries[at].0 == id,
        forall|i: int| at < i < entries.len() ==> (#[trigger] entries[i]).0 != id,
    ensures
        cached_at(entries, id) == Some(at),
    decreases entries.len(),
{
    if at < entries.len() - 1 {
        assert(entries[entries.len() - 1].0 != id);
        let shorter = entries.drop_last();
        assert forall|i: int| at < i < shorter.len() implies (#[trigger] shorter[i]).0 != id by {
            assert(shorter[i] == entries[i]);
        }
        lemma_cached_at_is(shorter, id, at);
    }
}

proof fn lemma_cached_at_none(entries: Seq<(Seq<char>, Seq<char>)>, id: Seq<char>)
    requires
        forall|i: int| 0 <= i < entries.len() ==> (#[trigger] entries[i]).0 != id,
    ensures
        cached_at(entries, id) is None,
{
    lemma_cached_at(entries, id);
}

/// A cached content is found again until enough others were cached after it:
/// right after an insertion the newest content is there, and the cache is
/// never larger than its capacity.
pub proof fn law_cache_insert(
    entries: Seq<(Seq<char>, Seq<char>)>,
    capacity: nat,
    id: Seq<char>,
    content: Seq<char>,
)
    requires
        distinct_ids(entries),
        entries.len() <= capacity,
    ensures
        distinct_ids(cache_insert(entries, capacity, id, content)),
        cache_insert(entries, capacity, id, content).len() <= capacity,
        capacity > 0 ==> cached(cache_insert(entries, capacity, id, content), id) == Some(content),
{
    lemma_cached_at(entries, id);
    let kept = without(entries, id);
    assert forall|i: int| 0 <= i < kept.len() implies (#[trigger] kept[i]).0 != id by {
        if let Some(at) = cached_at(entries, id) {
            if i < at {
                assert(kept[i] == entries[i]);
            } else {
                assert(kept[i] == entries[i + 1]);
            }
        }
    }
    assert(distinct_ids(kept)) by {
        if let Some(at) = cached_at(entries, id) {
            assert forall|i: int, j: int| 0 <= i < j < kept.len() implies (#[trigger] kept[i]).0 != (
            #[trigger] kept[j]).0 by {
                let x = if i < at {
                    i
                } else {
                    i + 1
                };
                let y = if j < at {
                    j
                } else {
                    j + 1
                };
                assert(kept[i] == entries[x]);
                assert(kept[j] == entries[y]);
            }
        }
    }
    if capacity > 0 {
        let all = kept.push((id, content));
        assert(distinct_ids(all)) by {
            assert forall|i: int, j: int| 0 <= i < j < all.len() implies (#[trigger] all[i]).0 != (
            #[trigger] all[j]).0 by {
                assert(all[i] == kept[i]);
                if j < kept.len() {
                    assert(all[j] == kept[j]);
                }
            }
        }
        let r = newest(all, capacity);
        if all.len() > capacity {
            let d = all.len() - capacity;
            assert forall|i: int, j: int| 0 <= i < j < r.len() implies (#[trigger] r[i]).0 != (
            #[trigger] r[j]).0 by {
                assert(r[i] == all[i + d]);
                assert(r[j] == all[j + d]);
            }
        }
        assert(r.last() == (id, content));
        lemma_cached_at_is(r, id, r.len() - 1);
    }
}

/// Whatever is cached after an insertion was cached before it, or is what was
/// inserted.
pub proof fn lemma_cached_after_insert(
    entries: Seq<(Seq<char>, Seq<char>)>,
    capacity: nat,
    id: Seq<char>,
    content: Seq<char>,
    other: Seq<char>,
)
    requires
        distinct_ids(entries),
    ensures
        cached(cache_insert(entries, capacity, id, content), other) matches Some(found)
            ==> cached(entries, other) == Some(found) || (other == id && found == content),
{
    let r = cache_insert(entries, capacity, id, content);
    lemma_cached_at(r, other);
    lemma_cached_at(entries, id);
    if let Some(i) = cached_at(r, other) {
        if capacity > 0 {
            let kept = without(entries, id);
            let all = kept.push((id, content));
            let d = all.len() - r.len();
            assert(r[i] == all[i + d]);
            if i + d < kept.len() {
                assert(all[i + d] == kept[i + d]);
                let j = match cached_at(entries, id) {
                    Some(at) => if i + d < at {
                        i + d
                    } else {
                        i + d + 1
                    },
                    None => i + d,
                };
                assert(entries[j] == r[i]);
                lemma_cached_at_is(entries, other, j);
            }
        }
    }
}

/// What is cached does not change when it is read.
pub proof fn lemma_cached_after_touch(
    entries: Seq<(Seq<char>, Seq<char>)>,
    id: Seq<char>,
    other: Seq<char>,
)
    requires
        distinct_ids(entries),
    ensures
        cached(touched(entries, id), other) matches Some(found) ==> cached(entries, other) == Some(
            found,
        ),
{
    if let Some(content) = cached(entries, id) {
        lemma_cached_after_insert(entries, (entries.len() + 1) as nat, id, content, other);
        lemma_cached_at(entries, id);
        let all = without(entries, id).push((id, content));
        assert(newest(all, (entries.len() + 1) as nat) == all);
    }
}

impl HotCache {
    /// Every ID is cached once, and no more than `capacity` of them.
    pub open spec fn wf(&self) -> bool {
        distinct_ids(self@) && self@.len() <= self.capacity
    }

    pub fn new(capacity: usize) -> (r: HotCache)
        ensures
            r.wf(),
            r.capacity == capacity,
            r@ == Seq::<(Seq<char>, Seq<char>)>::empty(),
    {
        let r = HotCache { capacity, entries: Vec::new() };
        assert(r@ =~= Seq::<(Seq<char>, Seq<char>)>::empty());
        r
    }

    fn position(&self, id: &str) -> (r: Option<usize>)
        ensures
            match r {
                Some(i) => cached_at(self@, id@) == Some(i as int) && i < self.entries@.len(),
                None => cached_at(self@, id@) is None,
            },
    {
        let mut n: usize = self.entries.len();
        while n > 0
            invariant
                n <= self.entries@.len(),
                forall|i: int| n <= i < self@.len() ==> (#[trigger] self@[i]).0 != id@,
            decreases n,
        {
            let i: usize = n - 1;
            assert(self@[i as int].0 == self.entries@[i as int].0@);
            if text::same(self.entries[i].0.as_str(), id) {
                proof {
                    lemma_cached_at_is(self@, id@, i as int);
                }
                return Some(i);
            }
            n = i;
        }
        proof {
            lemma_cached_at_none(self@, id@);
        }
        None
    }

    /// The content cached for `id`, which becomes the most recently used one.
    pub fn get(&mut self, id: &str) -> (r: Option<String>)
        requires
            old(self).wf(),
        ensures
            final(self).wf(),
            final(self).capacity == old(self).capacity,
            text::opt(r) == cached(old(self)@, id@),
            final(self)@ == touched(old(self)@, id@),
    {
        let ghost before = self@;
        match self.position(id) {
            Some(at) => {
                let content = self.entries[at].1.clone();
                assert(before[at as int].1 == content@);
                proof {
                    lemma_cached_at(before, id@);
                    law_cache_insert(before, self.capacity as nat, id@, content@);
                }
                let pair = self.entries.remove(at);
                self.entries.push(pair);
                assert(self@ =~= before.remove(at as int).push((id@, content@)));
                assert(newest(self@, self.capacity as nat) == self@);
                Some(content)
            },
            None => None,
        }
    }

    /// Caches `content` for `id` and drops what the capacity does not hold.
    pub fn insert(&mut self, id: String, content: String)
        requires
            old(self).wf(),
        ensures
            final(self).wf(),
            final(self).capacity == old(self).capacity,
            final(self)@ == cache_insert(
                old(self)@,
                old(self).capacity as nat,
                id@,
                content@,
            ),
    {
        let ghost before = self@;
        proof {
            law_cache_insert(before, self.capacity as nat, id@, content@);
            lemma_cached_at(before, id@);
        }
        if self.capacity == 0 {
            return;
        }
        match self.position(id.as_str()) {
            Some(at) => {
                self.entries.remove(at);
                assert(self@ =~= before.remove(at as int));
            },
            None => {},
        }
        let ghost kept = self@;
        self.entries.push((id, content));
        assert(self@ =~= kept.push((id@, content@)));
        if self.entries.len() > self.capacity {
            let ghost all = self@;
            self.entries.remove(0);
            assert(self@ =~= all.skip(1));
        }
    }
}

// ---------------------------------------------------------------------------
// Recall limit
// ---------------------------------------------------------------------------

/// A minute, in nanoseconds.
pub const RECALL_WINDOW: u64 = 60_000_000_000;

/// Counts recalls, per model turn and over the last minute. Times are
/// nanoseconds on some monotonic clock.
#[derive(Debug, PartialEq, Eq)]
pub struct RecallLimiter {
    pub current_model_turn: usize,
    pub recent: Vec<u64>,
}

/// `recent` without what is a minute or more before `now`, up to the first
/// entry that is not.
pub open spec fn pruned(recent: Seq<u64>, now: u64) -> Seq<u64>
    decreases recent.len(),
{
    if recent.len() > 0 && now >= recent[0] && now - recent[0] >= RECALL_WINDOW {
        pruned(recent.skip(1), now)
    } else {
        recent
    }
}

pub open spec fn limit_message(limit: nat, period: Seq<char>) -> Seq<char> {
    "recall rate limit reached: at most "@ + text::decimal(limit)
        + " recall calls are allowed per "@ + period
        + ". This is temporary and does not mean the record is missing: continue with the context you already have, and recall it in a later turn if the detail still matters"@
}

fn limit_message_of(limit: usize, period: &str) -> (r: String)
    ensures
        r@ == limit_message(limit as nat, period@),
{
    let mut r = "recall rate limit reached: at most ".to_owned();
    let number = text::decimal_of(limit as u64);
    r.append(number.as_str());
    r.append(" recall calls are allowed per ");
    r.append(period);
    r.append(
        ". This is temporary and does not mean the record is missing: continue with the context you already have, and recall it in a later turn if the detail still matters",
    );
    r
}

pub open spec fn min_usize(a: usize, b: usize) -> usize {
    if a <= b {
        a
    } else {
        b
    }
}

impl RecallLimiter {
    pub fn new() -> (r: RecallLimiter)
        ensures
            r.current_model_turn == 0,
            r.recent@ == Seq::<u64>::empty(),
    {
        RecallLimiter { current_model_turn: 0, recent: Vec::new() }
    }

    /// Starts a model turn: the count per turn begins again.
    pub fn begin_model_turn(&mut self)
        ensures
            final(self).current_model_turn == 0,
            final(self).recent == old(self).recent,
    {
        self.current_model_turn = 0;
    }

    /// Counts one recall at time `now`, unless a limit is reached. The refusal
    /// says plainly that the record is still there: a rate limit and a missing
    /// ID are the same shape of error to a model, and treating a throttle as
    /// proof of absence is how it ends up reporting that content it can see a
    /// citation for no longer exists.
    pub fn acquire(&mut self, now: u64, per_minute_limit: usize, per_turn_limit: usize) -> (r:
        Result<(), String>)
        ensures
            ({
                let recent = pruned(old(self).recent@, now);
                let turn_limit = min_usize(per_turn_limit, per_minute_limit);
                if old(self).current_model_turn >= turn_limit {
                    &&& r matches Err(message) && message@ == limit_message(
                        turn_limit as nat,
                        "model turn"@,
                    )
                    &&& final(self).recent@ == recent
                    &&& final(self).current_model_turn == old(self).current_model_turn
                } else if recent.len() >= per_minute_limit {
                    &&& r matches Err(message) && message@ == limit_message(
                        per_minute_limit as nat,
                        "minute"@,
                    )
                    &&& final(self).recent@ == recent
                    &&& final(self).current_model_turn == old(self).current_model_turn
                } else {
                    &&& r is Ok
                    &&& final(self).recent@ == recent.push(now)
                    &&& final(self).current_model_turn == old(self).current_model_turn + 1
                }
            }),
    {
        let ghost before = self.recent@;
        while self.recent.len() > 0 && now >= self.recent[0] && now - self.recent[0]
            >= RECALL_WINDOW
            invariant
                pruned(before, now) == pruned(self.recent@, now),
                self.current_model_turn == old(self).current_model_turn,
            decreases self.recent@.len(),
        {
            let ghost held = self.recent@;
            self.recent.remove(0);
            assert(self.recent@ =~= held.skip(1));
        }
        assert(self.recent@ == pruned(before, now));
        let turn_limit: usize = if per_turn_limit <= per_minute_limit {
            per_turn_limit
        } else {
            per_minute_limit
        };
        if self.current_model_turn >= turn_limit {
            return Err(limit_message_of(turn_limit, "model turn"));
        }
        if self.recent.len() >= per_minute_limit {
            return Err(limit_message_of(per_minute_limit, "minute"));
        }
        self.current_model_turn = self.current_model_turn + 1;
        self.recent.push(now);
        Ok(())
    }
}

/// Times that rise and do not lie after `now`.
pub open spec fn rising(recent: Seq<u64>, now: u64) -> bool {
    &&& forall|i: int, j: int| 0 <= i <= j < recent.len() ==> recent[i] <= recent[j]
    &&& forall|i: int| 0 <= i < recent.len() ==> recent[i] <= now
}

proof fn lemma_filter_keeps_all(s: Seq<u64>, keep: spec_fn(u64) -> bool)
    requires
        forall|i: int| 0 <= i < s.len() ==> keep(#[trigger] s[i]),
    ensures
        s.filter(keep) == s,
    decreases s.len(),
{
    reveal(Seq::filter);
    if s.len() > 0 {
        assert forall|i: int| 0 <= i < s.drop_last().len() implies keep(
            #[trigger] s.drop_last()[i],
        ) by {
            assert(s.drop_last()[i] == s[i]);
        }
        lemma_filter_keeps_all(s.drop_last(), keep);
        assert(keep(s[s.len() - 1]));
        assert(s.drop_last().push(s.last()) =~= s);
    }
}

/// What the limiter counts against the minute limit are exactly the recalls
/// let through in the minute before `now`, and counting one more at `now`
/// keeps the times rising.
pub proof fn law_limiter_counts_the_last_minute(recent: Seq<u64>, now: u64)
    requires
        rising(recent, now),
    ensures
        pruned(recent, now) == recent.filter(|t: u64| now - t < RECALL_WINDOW),
        rising(pruned(recent, now).push(now), now),
    decreases recent.len(),
{
    let fresh = |t: u64| now - t < RECALL_WINDOW;
    if recent.len() > 0 && now - recent[0] >= RECALL_WINDOW {
        let rest = recent.skip(1);
        assert(rising(rest, now));
        law_limiter_counts_the_last_minute(rest, now);
        let first = seq![recent[0]];
        assert(recent =~= first + rest);
        Seq::filter_distributes_over_add(first, rest, fresh);
        reveal_with_fuel(Seq::filter, 2);
        assert(first.drop_last() =~= Seq::<u64>::empty());
        assert(first.filter(fresh) =~= Seq::<u64>::empty());
        assert(first.filter(fresh) + rest.filter(fresh) =~= rest.filter(fresh));
    } else {
        assert forall|i: int| 0 <= i < recent.len() implies fresh(#[trigger] recent[i]) by {
            assert(recent[0] <= recent[i]);
        }
        lemma_filter_keeps_all(recent, fresh);
    }
}

/// A cache forgets only what was used least recently, and only where it is full:
/// with room, or for an ID that it has, every other content stays; else just the
/// oldest goes.
pub proof fn law_cache_forgets_the_oldest(
    entries: Seq<(Seq<char>, Seq<char>)>,
    capacity: nat,
    id: Seq<char>,
    content: Seq<char>,
    at: int,
)
    requires
        distinct_ids(entries),
        0 < entries.len() <= capacity,
        0 <= at < entries.len(),
        entries[at].0 != id,
        at > 0 || entries.len() < capacity || exists|i: int|
            0 <= i < entries.len() && (#[trigger] entries[i]).0 == id,
    ensures
        cached(cache_insert(entries, capacity, id, content), entries[at].0) == Some(entries[at].1),
{
    let other = entries[at].0;
    lemma_cached_at(entries, id);
    let kept = without(entries, id);
    let all = kept.push((id, content));
    let r = newest(all, capacity);
    let gone = all.len() - r.len();
    let place = match cached_at(entries, id) {
        Some(i) => if at < i {
            at
        } else {
            at - 1
        },
        None => at,
    };
    assert(kept[place] == entries[at]);
    assert(all[place] == entries[at]);
    if cached_at(entries, id) is None {
        assert(gone <= 1);
        assert(at >= gone);
    } else {
        assert(gone == 0);
    }
    assert(r[place - gone] == entries[at]);
    assert forall|i: int| place - gone < i < r.len() implies (#[trigger] r[i]).0 != other by {
        assert(r[i] == all[i + gone]);
        let j = i + gone;
        if j < kept.len() {
            assert(all[j] == kept[j]);
            match cached_at(entries, id) {
                Some(k) => {
                    if j < k {
                        assert(kept[j] == entries[j]);
                    } else {
                        assert(kept[j] == entries[j + 1]);
                    }
                },
                None => {
                    assert(kept[j] == entries[j]);
                },
            }
        }
    }
    lemma_cached_at_is(r, other, place - gone);
}

} // verus!
