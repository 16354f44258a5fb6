//! A map from texts to values, kept as a list sorted by key.
use crate::text;
use vstd::prelude::*;
use vstd::string::*;

verus! {

// ---------------------------------------------------------------------------
// Order of texts
// ---------------------------------------------------------------------------

/// `a` comes before `b`: in the first character where they differ, or as a
/// proper prefix.
pub open spec fn text_less(a: Seq<char>, b: Seq<char>) -> bool
    decreases a.len(),
{
    if b.len() == 0 {
        false
    } else if a.len() == 0 {
        true
    } else if a[0] != b[0] {
        a[0] < b[0]
    } else {
        text_less(a.skip(1), b.skip(1))
    }
}

pub proof fn lemma_text_less_irreflexive(a: Seq<char>)
    ensures
        !text_less(a, a),
    decreases a.len(),
{
    if a.len() > 0 {
        lemma_text_less_irreflexive(a.skip(1));
    }
}

pub proof fn lemma_text_less_transitive(a: Seq<char>, b: Seq<char>, c: Seq<char>)
    requires
        text_less(a, b),
        text_less(b, c),
    ensures
        text_less(a, c),
    decreases a.len(),
{
    if a.len() > 0 && a[0] == b[0] && b[0] == c[0] {
        lemma_text_less_transitive(a.skip(1), b.skip(1), c.skip(1));
    }
}

pub proof fn lemma_text_less_total(a: Seq<char>, b: Seq<char>)
    ensures
        a == b || text_less(a, b) || text_less(b, a),
    decreases a.len(),
{
    if a.len() > 0 && b.len() > 0 && a[0] == b[0] {
        lemma_text_less_total(a.skip(1), b.skip(1));
        if a.skip(1) == b.skip(1) {
            assert forall|i: int| 0 <= i < a.len() implies a[i] == b[i] by {
                if i > 0 {
                    assert(a.skip(1)[i - 1] == b.skip(1)[i - 1]);
                }
            }
            assert(a.len() == a.skip(1).len() + 1);
            assert(b.len() == b.skip(1).len() + 1);
            assert(a =~= b);
        }
    } else if a.len() == 0 && b.len() == 0 {
        assert(a =~= b);
    }
}

/// How one text stands to another.
#[derive(Debug, Clone, Copy, PartialEq, Eq, Structural)]
pub enum TextOrder {
    Before,
    Same,
    After,
}

/// How `a` stands to `b`.
pub fn compare_texts(a: &str, b: &str) -> (r: TextOrder)
    ensures
        r == TextOrder::Before <==> text_less(a@, b@),
        r == TextOrder::Same <==> a@ == b@,
        r == TextOrder::After <==> text_less(b@, a@),
{
    let x = text::chars_of(a);
    let y = text::chars_of(b);
    let mut i: usize = 0;
    proof {
        lemma_text_less_irreflexive(a@);
        assert(a@.skip(0) =~= a@);
        assert(b@.skip(0) =~= b@);
    }
    while i < x.len() && i < y.len() && x[i] == y[i]
        invariant
            i <= x@.len(),
            i <= y@.len(),
            x@ == a@,
            y@ == b@,
            text_less(a@, b@) == text_less(a@.skip(i as int), b@.skip(i as int)),
            text_less(b@, a@) == text_less(b@.skip(i as int), a@.skip(i as int)),
            a@.take(i as int) == b@.take(i as int),
        decreases x@.len() - i,
    {
        assert(a@.skip(i as int).skip(1) =~= a@.skip(i as int + 1));
        assert(b@.skip(i as int).skip(1) =~= b@.skip(i as int + 1));
        assert(a@.skip(i as int)[0] == a@[i as int]);
        assert(b@.skip(i as int)[0] == b@[i as int]);
        assert(a@.take(i as int + 1) =~= a@.take(i as int).push(a@[i as int]));
        assert(b@.take(i as int + 1) =~= b@.take(i as int).push(b@[i as int]));
        i = i + 1;
    }
    if i < x.len() && i < y.len() {
        assert(a@.skip(i as int)[0] == a@[i as int]);
        assert(b@.skip(i as int)[0] == b@[i as int]);
        if x[i] < y[i] {
            TextOrder::Before
        } else {
            TextOrder::After
        }
    } else if i < y.len() {
        TextOrder::Before
    } else if i < x.len() {
        TextOrder::After
    } else {
        assert(a@.take(i as int) =~= a@);
        assert(b@.take(i as int) =~= b@);
        proof {
            lemma_text_less_irreflexive(a@);
        }
        TextOrder::Same
    }
}

// ---------------------------------------------------------------------------
// Sorted lists of entries
// ---------------------------------------------------------------------------

/// The keys rise from entry to entry.
pub open spec fn sorted<V>(s: Seq<(Seq<char>, V)>) -> bool {
    forall|i: int, j: int| 0 <= i < j < s.len() ==> text_less(#[trigger] s[i].0, #[trigger] s[j].0)
}

/// `k` comes before every key of `s`.
pub open spec fn below_all<V>(k: Seq<char>, s: Seq<(Seq<char>, V)>) -> bool {
    forall|i: int| 0 <= i < s.len() ==> text_less(k, (#[trigger] s[i]).0)
}

/// The value that `s` holds for `key`.
pub open spec fn lookup<V>(s: Seq<(Seq<char>, V)>, key: Seq<char>) -> Option<V>
    decreases s.len(),
{
    if s.len() == 0 {
        None
    } else if s[0].0 == key {
        Some(s[0].1)
    } else {
        lookup(s.skip(1), key)
    }
}

pub open spec fn has_key<V>(s: Seq<(Seq<char>, V)>, key: Seq<char>) -> bool {
    lookup(s, key) is Some
}

/// `s` with `key` set to `value`.
pub open spec fn inserted<V>(s: Seq<(Seq<char>, V)>, key: Seq<char>, value: V) -> Seq<
    (Seq<char>, V),
>
    decreases s.len(),
{
    if s.len() == 0 || text_less(key, s[0].0) {
        seq![(key, value)] + s
    } else if s[0].0 == key {
        seq![(key, value)] + s.skip(1)
    } else {
        seq![s[0]] + inserted(s.skip(1), key, value)
    }
}

/// `s` without `key`.
pub open spec fn removed<V>(s: Seq<(Seq<char>, V)>, key: Seq<char>) -> Seq<(Seq<char>, V)>
    decreases s.len(),
{
    if s.len() == 0 {
        s
    } else if s[0].0 == key {
        s.skip(1)
    } else {
        seq![s[0]] + removed(s.skip(1), key)
    }
}

pub proof fn lemma_sorted_skip<V>(s: Seq<(Seq<char>, V)>)
    requires
        sorted(s),
        s.len() > 0,
    ensures
        sorted(s.skip(1)),
{
    assert forall|i: int, j: int| 0 <= i < j < s.skip(1).len() implies text_less(
        #[trigger] s.skip(1)[i].0,
        #[trigger] s.skip(1)[j].0,
    ) by {
        assert(s.skip(1)[i] == s[i + 1]);
        assert(s.skip(1)[j] == s[j + 1]);
    }
}

/// In a sorted list an entry's value is the one looked up for its key.
pub proof fn lemma_lookup_at<V>(s: Seq<(Seq<char>, V)>, i: int)
    requires
        sorted(s),
        0 <= i < s.len(),
    ensures
        lookup(s, s[i].0) == Some(s[i].1),
    decreases i,
{
    if i > 0 {
        lemma_sorted_skip(s);
        assert(text_less(s[0].0, s[i].0));
        lemma_text_less_irreflexive(s[i].0);
        lemma_lookup_at(s.skip(1), i - 1);
        assert(s.skip(1)[i - 1] == s[i]);
    }
}

pub proof fn lemma_lookup_none<V>(s: Seq<(Seq<char>, V)>, key: Seq<char>)
    requires
        forall|i: int| 0 <= i < s.len() ==> (#[trigger] s[i]).0 != key,
    ensures
        lookup(s, key) is None,
    decreases s.len(),
{
    if s.len() > 0 {
        assert forall|i: int| 0 <= i < s.skip(1).len() implies (#[trigger] s.skip(1)[i]).0
            != key by {
            assert(s.skip(1)[i] == s[i + 1]);
        }
        assert(s[0].0 != key);
        lemma_lookup_none(s.skip(1), key);
    }
}

/// What is looked up stands at some position.
pub proof fn lemma_lookup_index<V>(s: Seq<(Seq<char>, V)>, key: Seq<char>) -> (i: int)
    requires
        lookup(s, key) is Some,
    ensures
        0 <= i < s.len(),
        s[i].0 == key,
        lookup(s, key) == Some(s[i].1),
    decreases s.len(),
{
    if s[0].0 == key {
        0
    } else {
        let j = lemma_lookup_index(s.skip(1), key);
        assert(s.skip(1)[j] == s[j + 1]);
        j + 1
    }
}

/// Where `key` belongs, its insertion is the splice at that place.
pub proof fn lemma_inserted_at<V>(s: Seq<(Seq<char>, V)>, key: Seq<char>, value: V, at: int)
    requires
        sorted(s),
        0 <= at <= s.len(),
        forall|i: int| 0 <= i < at ==> text_less((#[trigger] s[i]).0, key),
        at < s.len() ==> !text_less(s[at].0, key),
    ensures
        at < s.len() && s[at].0 == key ==> inserted(s, key, value) == s.update(at, (key, value)),
        at == s.len() || s[at].0 != key ==> inserted(s, key, value) == s.insert(at, (key, value)),
    decreases s.len(),
{
    if at == 0 {
        if s.len() > 0 && s[0].0 == key {
            lemma_text_less_irreflexive(key);
            assert(seq![(key, value)] + s.skip(1) =~= s.update(0, (key, value)));
        } else {
            if s.len() > 0 {
                lemma_text_less_total(key, s[0].0);
            }
            assert(seq![(key, value)] + s =~= s.insert(0, (key, value)));
        }
    } else {
        let t = s.skip(1);
        lemma_sorted_skip(s);
        assert(text_less(s[0].0, key));
        lemma_text_less_irreflexive(key);
        if text_less(key, s[0].0) {
            lemma_text_less_transitive(key, s[0].0, key);
        }
        assert forall|i: int| 0 <= i < at - 1 implies text_less((#[trigger] t[i]).0, key) by {
            assert(t[i] == s[i + 1]);
        }
        lemma_inserted_at(t, key, value, at - 1);
        if at < s.len() {
            assert(t[at - 1] == s[at]);
        }
        if at < s.len() && s[at].0 == key {
            assert(seq![s[0]] + t.update(at - 1, (key, value)) =~= s.update(at, (key, value)));
        } else {
            assert(seq![s[0]] + t.insert(at - 1, (key, value)) =~= s.insert(at, (key, value)));
        }
    }
}

pub proof fn lemma_removed_at<V>(s: Seq<(Seq<char>, V)>, key: Seq<char>, at: int)
    requires
        sorted(s),
        0 <= at < s.len(),
        s[at].0 == key,
    ensures
        removed(s, key) == s.remove(at),
    decreases at,
{
    if at == 0 {
        assert(s.skip(1) =~= s.remove(0));
    } else {
        assert(text_less(s[0].0, s[at].0));
        lemma_text_less_irreflexive(key);
        lemma_sorted_skip(s);
        assert(s.skip(1)[at - 1] == s[at]);
        lemma_removed_at(s.skip(1), key, at - 1);
        assert(seq![s[0]] + s.skip(1).remove(at - 1) =~= s.remove(at));
    }
}

pub proof fn lemma_removed_absent<V>(s: Seq<(Seq<char>, V)>, key: Seq<char>)
    requires
        lookup(s, key) is None,
    ensures
        removed(s, key) == s,
    decreases s.len(),
{
    if s.len() > 0 {
        lemma_removed_absent(s.skip(1), key);
        assert(seq![s[0]] + s.skip(1) =~= s);
    }
}

/// An insertion keeps the order, sets the key, and touches no other.
pub proof fn lemma_inserted<V>(s: Seq<(Seq<char>, V)>, key: Seq<char>, value: V)
    requires
        sorted(s),
    ensures
        sorted(inserted(s, key, value)),
        lookup(inserted(s, key, value), key) == Some(value),
        forall|k: Seq<char>|
            k != key ==> #[trigger] lookup(inserted(s, key, value), k) == lookup(s, k),
        forall|k: Seq<char>|
            #![trigger below_all(k, s)]
            below_all(k, s) && text_less(k, key) ==> below_all(k, inserted(s, key, value)),
    decreases s.len(),
{
    let r = inserted(s, key, value);
    if s.len() == 0 || text_less(key, s[0].0) {
        assert(r.skip(1) =~= s);
        assert forall|i: int, j: int| 0 <= i < j < r.len() implies text_less(
            #[trigger] r[i].0,
            #[trigger] r[j].0,
        ) by {
            if i == 0 {
                assert(r[j] == s[j - 1]);
                if j > 1 {
                    assert(text_less(s[0].0, s[j - 1].0));
                    lemma_text_less_transitive(key, s[0].0, s[j - 1].0);
                }
            } else {
                assert(r[i] == s[i - 1] && r[j] == s[j - 1]);
            }
        }
        assert forall|k: Seq<char>| k != key implies #[trigger] lookup(r, k) == lookup(s, k) by {
            assert(r[0].0 == key);
        }
    } else if s[0].0 == key {
        let t = s.skip(1);
        assert(r.skip(1) =~= t);
        assert forall|i: int, j: int| 0 <= i < j < r.len() implies text_less(
            #[trigger] r[i].0,
            #[trigger] r[j].0,
        ) by {
            assert(r[i].0 == s[i].0 && r[j].0 == s[j].0);
        }
        assert forall|k: Seq<char>| k != key implies #[trigger] lookup(r, k) == lookup(s, k) by {
            assert(r[0].0 == key);
        }
    } else {
        let t = s.skip(1);
        lemma_sorted_skip(s);
        lemma_inserted(t, key, value);
        let u = inserted(t, key, value);
        assert(r.skip(1) =~= u);
        lemma_text_less_total(key, s[0].0);
        assert(text_less(s[0].0, key));
        assert(below_all(s[0].0, t)) by {
            assert forall|i: int| 0 <= i < t.len() implies text_less(
                s[0].0,
                (#[trigger] t[i]).0,
            ) by {
                assert(t[i] == s[i + 1]);
            }
        }
        assert forall|i: int, j: int| 0 <= i < j < r.len() implies text_less(
            #[trigger] r[i].0,
            #[trigger] r[j].0,
        ) by {
            assert(r[j] == u[j - 1]);
            if i > 0 {
                assert(r[i] == u[i - 1]);
            }
        }
        assert forall|k: Seq<char>| k != key implies #[trigger] lookup(r, k) == lookup(s, k) by {
            assert(r[0] == s[0]);
            assert(lookup(r.skip(1), k) == lookup(inserted(t, key, value), k));
            assert(lookup(inserted(t, key, value), k) == lookup(t, k));
        }
        assert(r[0] == s[0]);
        lemma_text_less_irreflexive(key);
        assert(lookup(r, key) == lookup(u, key));
    }
    assert forall|k: Seq<char>|
        #![trigger below_all(k, s)]
        below_all(k, s) && text_less(k, key) implies below_all(k, r) by {
        assert forall|i: int| 0 <= i < r.len() implies text_less(k, (#[trigger] r[i]).0) by {
            if s.len() == 0 || text_less(key, s[0].0) {
                if i > 0 {
                    assert(r[i] == s[i - 1]);
                }
            } else if s[0].0 == key {
                if i > 0 {
                    assert(r[i] == s[i]);
                }
            } else {
                let t = s.skip(1);
                assert(below_all(k, t)) by {
                    assert forall|j: int| 0 <= j < t.len() implies text_less(
                        k,
                        (#[trigger] t[j]).0,
                    ) by {
                        assert(t[j] == s[j + 1]);
                    }
                }
                if i > 0 {
                    assert(r[i] == inserted(t, key, value)[i - 1]);
                } else {
                    assert(r[0] == s[0]);
                }
            }
        }
    }
}

/// A removal keeps the order, drops the key, and touches no other.
pub proof fn lemma_removed<V>(s: Seq<(Seq<char>, V)>, key: Seq<char>)
    requires
        sorted(s),
    ensures
        sorted(removed(s, key)),
        lookup(removed(s, key), key) is None,
        forall|k: Seq<char>| k != key ==> #[trigger] lookup(removed(s, key), k) == lookup(s, k),
        forall|k: Seq<char>|
            #![trigger below_all(k, s)]
            below_all(k, s) ==> below_all(k, removed(s, key)),
    decreases s.len(),
{
    let r = removed(s, key);
    if s.len() > 0 {
        let t = s.skip(1);
        lemma_sorted_skip(s);
        if s[0].0 == key {
            assert forall|i: int| 0 <= i < t.len() implies (#[trigger] t[i]).0 != key by {
                assert(t[i] == s[i + 1]);
                assert(text_less(s[0].0, s[i + 1].0));
                lemma_text_less_irreflexive(key);
            }
            lemma_lookup_none(t, key);
            assert forall|k: Seq<char>|
                #![trigger below_all(k, s)]
                below_all(k, s) implies below_all(k, r) by {
                assert forall|i: int| 0 <= i < r.len() implies text_less(k, (#[trigger] r[i]).0) by {
                    assert(r[i] == s[i + 1]);
                }
            }
        } else {
            lemma_removed(t, key);
            let u = removed(t, key);
            assert(r.skip(1) =~= u);
            assert(r[0] == s[0]);
            assert(below_all(s[0].0, t)) by {
                assert forall|i: int| 0 <= i < t.len() implies text_less(
                    s[0].0,
                    (#[trigger] t[i]).0,
                ) by {
                    assert(t[i] == s[i + 1]);
                }
            }
            assert forall|i: int, j: int| 0 <= i < j < r.len() implies text_less(
                #[trigger] r[i].0,
                #[trigger] r[j].0,
            ) by {
                assert(r[j] == u[j - 1]);
                if i > 0 {
                    assert(r[i] == u[i - 1]);
                }
            }
            assert forall|k: Seq<char>| k != key implies #[trigger] lookup(r, k) == lookup(
                s,
                k,
            ) by {
                assert(lookup(r.skip(1), k) == lookup(removed(t, key), k));
                assert(lookup(removed(t, key), k) == lookup(t, k));
            }
            assert forall|k: Seq<char>|
                #![trigger below_all(k, s)]
                below_all(k, s) implies below_all(k, r) by {
                assert(below_all(k, t)) by {
                    assert forall|j: int| 0 <= j < t.len() implies text_less(
                        k,
                        (#[trigger] t[j]).0,
                    ) by {
                        assert(t[j] == s[j + 1]);
                    }
                }
                assert forall|i: int| 0 <= i < r.len() implies text_less(k, (#[trigger] r[i]).0) by {
                    if i > 0 {
                        assert(r[i] == u[i - 1]);
                    } else {
                        assert(r[0] == s[0]);
                    }
                }
            }
        }
    }
}

/// Dropping a key that was just added gives back the list as it was.
pub proof fn lemma_insert_remove<V>(s: Seq<(Seq<char>, V)>, key: Seq<char>, value: V)
    requires
        sorted(s),
        lookup(s, key) is None,
    ensures
        removed(inserted(s, key, value), key) == s,
    decreases s.len(),
{
    let r = inserted(s, key, value);
    if s.len() == 0 || text_less(key, s[0].0) {
        assert(r.skip(1) =~= s);
    } else {
        let t = s.skip(1);
        lemma_sorted_skip(s);
        lemma_insert_remove(t, key, value);
        assert(r.skip(1) =~= inserted(t, key, value));
        assert(r[0] == s[0]);
        assert(seq![s[0]] + t =~= s);
    }
}

/// Setting a key back to the value it had gives back the list as it was.
pub proof fn lemma_insert_insert<V>(s: Seq<(Seq<char>, V)>, key: Seq<char>, value: V, previous: V)
    requires
        sorted(s),
        lookup(s, key) == Some(previous),
    ensures
        inserted(inserted(s, key, value), key, previous) == s,
    decreases s.len(),
{
    let r = inserted(s, key, value);
    let i = lemma_lookup_index(s, key);
    if i > 0 {
        assert(text_less(s[0].0, s[i].0));
    }
    lemma_text_less_irreflexive(key);
    if s[0].0 == key {
        assert(r.skip(1) =~= s.skip(1));
        assert(r[0] == (key, value));
        assert(seq![(key, previous)] + s.skip(1) =~= s);
    } else {
        if text_less(key, s[0].0) {
            lemma_text_less_transitive(key, s[0].0, key);
        }
        let t = s.skip(1);
        lemma_sorted_skip(s);
        lemma_insert_insert(t, key, value, previous);
        assert(r.skip(1) =~= inserted(t, key, value));
        assert(r[0] == s[0]);
        assert(seq![s[0]] + t =~= s);
    }
}

// ---------------------------------------------------------------------------
// The map
// ---------------------------------------------------------------------------

/// Values by text key, sorted by key.
#[derive(Debug, PartialEq, Eq)]
pub struct TextMap<V> {
    pub entries: Vec<(String, V)>,
}

impl<V: View> View for TextMap<V> {
    type V = Seq<(Seq<char>, V::V)>;

    open spec fn view(&self) -> Seq<(Seq<char>, V::V)> {
        Seq::new(self.entries@.len(), |i: int| (self.entries@[i].0@, self.entries@[i].1@))
    }
}

impl<V: View> TextMap<V> {
    pub open spec fn wf(&self) -> bool {
        sorted(self@)
    }

    pub fn new() -> (r: TextMap<V>)
        ensures
            r.wf(),
            r@ == Seq::<(Seq<char>, V::V)>::empty(),
    {
        let r = TextMap { entries: Vec::new() };
        assert(r@ =~= Seq::<(Seq<char>, V::V)>::empty());
        r
    }

    /// The first position whose key does not come before `key`, and whether
    /// that key is `key`.
    pub fn position(&self, key: &str) -> (r: (usize, bool))
        requires
            self.wf(),
        ensures
            r.0 <= self@.len(),
            forall|i: int| 0 <= i < r.0 ==> text_less((#[trigger] self@[i]).0, key@),
            r.0 < self@.len() ==> !text_less(self@[r.0 as int].0, key@),
            r.1 == (r.0 < self@.len() && self@[r.0 as int].0 == key@),
            r.1 ==> lookup(self@, key@) == Some(self@[r.0 as int].1),
            !r.1 ==> lookup(self@, key@) is None,
    {
        let mut low: usize = 0;
        let mut high: usize = self.entries.len();
        while low < high
            invariant
                self.wf(),
                low <= high <= self@.len(),
                self@.len() == self.entries@.len(),
                forall|i: int| 0 <= i < low ==> text_less((#[trigger] self@[i]).0, key@),
                forall|i: int|
                    high <= i < self@.len() ==> !text_less((#[trigger] self@[i]).0, key@),
            decreases high - low,
        {
            let middle: usize = low + (high - low) / 2;
            let order = compare_texts(self.entries[middle].0.as_str(), key);
            assert(self@[middle as int].0 == self.entries@[middle as int].0@);
            match order {
                TextOrder::Before => {
                    assert forall|i: int| 0 <= i < middle + 1 implies text_less(
                        (#[trigger] self@[i]).0,
                        key@,
                    ) by {
                        if i < middle {
                            lemma_text_less_transitive(
                                self@[i].0,
                                self@[middle as int].0,
                                key@,
                            );
                        }
                    }
                    low = middle + 1;
                },
                _ => {
                    assert forall|i: int| middle <= i < self@.len() implies !text_less(
                        (#[trigger] self@[i]).0,
                        key@,
                    ) by {
                        if middle < i && text_less(self@[i].0, key@) {
                            lemma_text_less_transitive(
                                self@[middle as int].0,
                                self@[i].0,
                                key@,
                            );
                        }
                    }
                    high = middle;
                },
            }
        }
        let found = if low < self.entries.len() {
            assert(self@[low as int].0 == self.entries@[low as int].0@);
            text::same(self.entries[low].0.as_str(), key)
        } else {
            false
        };
        proof {
            if found {
                lemma_lookup_at(self@, low as int);
            } else {
                assert forall|i: int| 0 <= i < self@.len() implies (#[trigger] self@[i]).0
                    != key@ by {
                    lemma_text_less_irreflexive(key@);
                    if i > low {
                        assert(text_less(self@[low as int].0, self@[i].0));
                        assert(!text_less(self@[low as int].0, key@));
                    }
                }
                lemma_lookup_none(self@, key@);
            }
        }
        (low, found)
    }

    pub fn get(&self, key: &str) -> (r: Option<&V>)
        requires
            self.wf(),
        ensures
            match r {
                Some(value) => lookup(self@, key@) == Some(value@),
                None => lookup(self@, key@) is None,
            },
    {
        let (at, found) = self.position(key);
        if found {
            assert(self@[at as int].1 == self.entries@[at as int].1@);
            Some(&self.entries[at].1)
        } else {
            None
        }
    }

    pub fn contains_key(&self, key: &str) -> (r: bool)
        requires
            self.wf(),
        ensures
            r == has_key(self@, key@),
    {
        let (_, found) = self.position(key);
        found
    }

    /// Sets `key` to `value`.
    pub fn insert(&mut self, key: String, value: V)
        requires
            old(self).wf(),
        ensures
            final(self).wf(),
            final(self)@ == inserted(old(self)@, key@, value@),
    {
        let (at, found) = self.position(key.as_str());
        proof {
            lemma_inserted_at(self@, key@, value@, at as int);
            lemma_inserted(self@, key@, value@);
        }
        let ghost before = self@;
        if found {
            self.entries.set(at, (key, value));
            assert(self@ =~= before.update(at as int, (key@, value@)));
        } else {
            self.entries.insert(at, (key, value));
            assert(self@ =~= before.insert(at as int, (key@, value@)));
        }
    }

    /// Drops `key`; says whether it was there.
    pub fn remove(&mut self, key: &str) -> (r: bool)
        requires
            old(self).wf(),
        ensures
            final(self).wf(),
            final(self)@ == removed(old(self)@, key@),
            r == has_key(old(self)@, key@),
    {
        let (at, found) = self.position(key);
        let ghost before = self@;
        proof {
            lemma_removed(self@, key@);
        }
        if found {
            proof {
                lemma_removed_at(self@, key@, at as int);
            }
            self.entries.remove(at);
            assert(self@ =~= before.remove(at as int));
        } else {
            proof {
                lemma_removed_absent(self@, key@);
            }
        }
        found
    }
}

} // verus!
