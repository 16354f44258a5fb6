//! File mutations and the lines they changed.
use crate::text;
use std::path::PathBuf;
use vstd::prelude::*;
use vstd::string::*;

verus! {

/// A path, carried as it is.
#[verifier::external_type_specification]
#[verifier::external_body]
pub struct ExPathBuf(std::path::PathBuf);

/// Largest file content carried in a [`FileChange`], in bytes. Larger files
/// skip the change record entirely so the event stream and view state stay
/// small.
pub const CHANGE_MAX_BYTES: usize = 512 * 1024;

/// A file mutation performed by the `write` or `edit` tool, captured at the
/// execution site where the previous content is still known. `before` is
/// `None` when the tool created the file.
#[derive(Debug, PartialEq, Eq)]
pub struct FileChange {
    pub path: PathBuf,
    pub before: Option<String>,
    pub after: String,
}

/// The number of bytes of the UTF-8 form of `s`.
pub open spec fn byte_len(s: Seq<char>) -> nat {
    vstd::utf8::encode_utf8(s).len()
}

/// Whether a change from `before` to `after` is small enough to be carried.
pub open spec fn change_fits(before: Option<Seq<char>>, after: Seq<char>) -> bool {
    &&& before matches Some(b) ==> byte_len(b) <= CHANGE_MAX_BYTES
    &&& byte_len(after) <= CHANGE_MAX_BYTES
}

/// How many lines `a` and `b` have in common from their first line on.
pub open spec fn common_prefix(a: Seq<Seq<char>>, b: Seq<Seq<char>>) -> nat
    decreases a.len(),
{
    if a.len() > 0 && b.len() > 0 && a[0] == b[0] {
        1 + common_prefix(a.skip(1), b.skip(1))
    } else {
        0
    }
}

/// How many lines `a` and `b` have in common up to their last line.
pub open spec fn common_suffix(a: Seq<Seq<char>>, b: Seq<Seq<char>>) -> nat
    decreases a.len(),
{
    if a.len() > 0 && b.len() > 0 && a.last() == b.last() {
        1 + common_suffix(a.drop_last(), b.drop_last())
    } else {
        0
    }
}

/// The length of the shared prefix, and of the shared suffix of what the
/// prefix leaves.
pub open spec fn shared_edges(old: Seq<Seq<char>>, new: Seq<Seq<char>>) -> (nat, nat) {
    let prefix = common_prefix(old, new);
    (prefix, common_suffix(old.skip(prefix as int), new.skip(prefix as int)))
}

pub proof fn lemma_common_prefix(a: Seq<Seq<char>>, b: Seq<Seq<char>>, n: int)
    requires
        0 <= n <= a.len(),
        n <= b.len(),
        forall|i: int| 0 <= i < n ==> a[i] == b[i],
        n == a.len() || n == b.len() || a[n] != b[n],
    ensures
        common_prefix(a, b) == n,
    decreases n,
{
    if n > 0 {
        assert(a[0] == b[0]);
        let x = a.skip(1);
        let y = b.skip(1);
        assert forall|i: int| 0 <= i < n - 1 implies x[i] == y[i] by {
            assert(x[i] == a[i + 1] && y[i] == b[i + 1]);
        }
        lemma_common_prefix(x, y, n - 1);
    }
}

pub proof fn lemma_common_suffix(a: Seq<Seq<char>>, b: Seq<Seq<char>>, n: int)
    requires
        0 <= n <= a.len(),
        n <= b.len(),
        forall|i: int| 1 <= i <= n ==> #[trigger] a[a.len() - i] == b[b.len() - i],
        n == a.len() || n == b.len() || a[a.len() - n - 1] != b[b.len() - n - 1],
    ensures
        common_suffix(a, b) == n,
    decreases n,
{
    if n > 0 {
        assert(a[a.len() - 1] == b[b.len() - 1]);
        let x = a.drop_last();
        let y = b.drop_last();
        assert forall|i: int| 1 <= i <= n - 1 implies #[trigger] x[x.len() - i] == y[y.len() - i] by {
            assert(a[a.len() - (i + 1)] == b[b.len() - (i + 1)]);
        }
        lemma_common_suffix(x, y, n - 1);
    }
}

/// Where two texts share their lines: the prefix and suffix lie within both,
/// do not overlap, and the lines there are the same on both sides.
pub proof fn law_shared_edges(old: Seq<Seq<char>>, new: Seq<Seq<char>>)
    ensures
        ({
            let (prefix, suffix) = shared_edges(old, new);
            &&& prefix + suffix <= old.len()
            &&& prefix + suffix <= new.len()
            &&& old.take(prefix as int) == new.take(prefix as int)
            &&& old.skip(old.len() - suffix) == new.skip(new.len() - suffix)
        }),
{
    lemma_prefix_same(old, new);
    let p = common_prefix(old, new) as int;
    let a = old.skip(p);
    let b = new.skip(p);
    lemma_suffix_same(a, b);
    let s = common_suffix(a, b) as int;
    assert(old.skip(old.len() - s) =~= a.skip(a.len() - s));
    assert(new.skip(new.len() - s) =~= b.skip(b.len() - s));
}

proof fn lemma_prefix_same(a: Seq<Seq<char>>, b: Seq<Seq<char>>)
    ensures
        common_prefix(a, b) <= a.len(),
        common_prefix(a, b) <= b.len(),
        a.take(common_prefix(a, b) as int) == b.take(common_prefix(a, b) as int),
    decreases a.len(),
{
    if a.len() > 0 && b.len() > 0 && a[0] == b[0] {
        lemma_prefix_same(a.skip(1), b.skip(1));
        let n = common_prefix(a.skip(1), b.skip(1)) as int;
        assert forall|i: int| 0 <= i < n + 1 implies a[i] == b[i] by {
            if i > 0 {
                assert(a.skip(1).take(n)[i - 1] == a[i]);
                assert(b.skip(1).take(n)[i - 1] == b[i]);
            }
        }
        assert(a.take(n + 1) =~= b.take(n + 1));
    } else {
        assert(a.take(0) =~= b.take(0));
    }
}

proof fn lemma_suffix_same(a: Seq<Seq<char>>, b: Seq<Seq<char>>)
    ensures
        common_suffix(a, b) <= a.len(),
        common_suffix(a, b) <= b.len(),
        a.skip(a.len() - common_suffix(a, b)) == b.skip(b.len() - common_suffix(a, b)),
    decreases a.len(),
{
    if a.len() > 0 && b.len() > 0 && a.last() == b.last() {
        let x = a.drop_last();
        let y = b.drop_last();
        lemma_suffix_same(x, y);
        let n = common_suffix(x, y) as int;
        assert(a.skip(a.len() - (n + 1)) =~= x.skip(x.len() - n).push(a.last()));
        assert(b.skip(b.len() - (n + 1)) =~= y.skip(y.len() - n).push(b.last()));
    } else {
        assert(a.skip(a.len() as int) =~= b.skip(b.len() as int));
    }
}

impl FileChange {
    /// The record of a change, unless one of the two contents is too large.
    pub fn capture(path: PathBuf, before: Option<String>, after: String) -> (r: Option<FileChange>)
        ensures
            r is Some <==> change_fits(text::opt(before), after@),
            r matches Some(change) ==> change.path == path && change.before == before
                && change.after == after,
    {
        let before_len: usize = match &before {
            Some(content) => content.as_str().as_bytes().len(),
            None => 0,
        };
        if before_len > CHANGE_MAX_BYTES || after.as_str().as_bytes().len() > CHANGE_MAX_BYTES {
            return None;
        }
        Some(FileChange { path, before, after })
    }
}

/// What a change adds and removes, counted in lines.
pub open spec fn counts_of(before: Seq<char>, after: Seq<char>) -> (nat, nat) {
    let old = text::lines(before);
    let new = text::lines(after);
    let (prefix, suffix) = shared_edges(old, new);
    ((new.len() - prefix - suffix) as nat, (old.len() - prefix - suffix) as nat)
}

/// `(added, removed)` changed line counts between `before` and `after`.
pub fn change_counts(change: &FileChange) -> (r: (usize, usize))
    ensures
        (r.0 as nat, r.1 as nat) == counts_of(
            match change.before {
                Some(before) => before@,
                None => Seq::empty(),
            },
            change.after@,
        ),
{
    let before = match &change.before {
        Some(before) => before.clone(),
        None => String::new(),
    };
    let (_, old_changed, new_changed, _) = changed_line_ranges(
        before.as_str(),
        change.after.as_str(),
    );
    proof {
        law_shared_edges(text::lines(before@), text::lines(change.after@));
    }
    assert(text::views(new_changed@).len() == new_changed@.len());
    assert(text::views(old_changed@).len() == old_changed@.len());
    (new_changed.len(), old_changed.len())
}

fn copy_range(lines: &Vec<String>, from: usize, to: usize) -> (r: Vec<String>)
    requires
        from <= to <= lines@.len(),
    ensures
        text::views(r@) == text::views(lines@).subrange(from as int, to as int),
{
    let mut r: Vec<String> = Vec::new();
    let mut i: usize = from;
    while i < to
        invariant
            from <= i <= to <= lines@.len(),
            text::views(r@) == text::views(lines@).subrange(from as int, i as int),
        decreases to - i,
    {
        let line = lines[i].clone();
        proof {
            text::lemma_views_push(r@, line);
        }
        r.push(line);
        i = i + 1;
        assert(text::views(r@) =~= text::views(lines@).subrange(from as int, i as int));
    }
    r
}

/// Split `old` and `new` into a shared prefix, the changed regions, and a
/// shared suffix. Prefix trimming keeps the changed region local even when
/// both sides are whole files.
pub fn changed_line_ranges(old: &str, new: &str) -> (r: (
    Vec<String>,
    Vec<String>,
    Vec<String>,
    Vec<String>,
))
    ensures
        ({
            let old_lines = text::lines(old@);
            let new_lines = text::lines(new@);
            let (prefix, suffix) = shared_edges(old_lines, new_lines);
            &&& text::views(r.0@) == old_lines.take(prefix as int)
            &&& text::views(r.1@) == old_lines.subrange(prefix as int, old_lines.len() - suffix)
            &&& text::views(r.2@) == new_lines.subrange(prefix as int, new_lines.len() - suffix)
            &&& text::views(r.3@) == old_lines.skip(old_lines.len() - suffix)
        }),
{
    let old_lines = text::lines_of(old);
    let new_lines = text::lines_of(new);
    let ghost a = text::lines(old@);
    let ghost b = text::lines(new@);
    let mut prefix: usize = 0;
    while prefix < old_lines.len() && prefix < new_lines.len() && text::same(
        old_lines[prefix].as_str(),
        new_lines[prefix].as_str(),
    )
        invariant
            text::views(old_lines@) == a,
            text::views(new_lines@) == b,
            prefix <= a.len(),
            prefix <= b.len(),
            forall|i: int| 0 <= i < prefix ==> a[i] == b[i],
        decreases a.len() - prefix,
    {
        assert(a[prefix as int] == old_lines@[prefix as int]@);
        assert(b[prefix as int] == new_lines@[prefix as int]@);
        prefix = prefix + 1;
    }
    proof {
        if prefix < a.len() && prefix < b.len() {
            assert(a[prefix as int] == old_lines@[prefix as int]@);
            assert(b[prefix as int] == new_lines@[prefix as int]@);
        }
        lemma_common_prefix(a, b, prefix as int);
    }
    let old_count: usize = old_lines.len();
    let new_count: usize = new_lines.len();
    let ghost x = a.skip(prefix as int);
    let ghost y = b.skip(prefix as int);
    let mut suffix: usize = 0;
    while suffix < old_count - prefix && suffix < new_count - prefix && text::same(
        old_lines[old_count - suffix - 1].as_str(),
        new_lines[new_count - suffix - 1].as_str(),
    )
        invariant
            text::views(old_lines@) == a,
            text::views(new_lines@) == b,
            old_count == old_lines@.len() == a.len(),
            new_count == new_lines@.len() == b.len(),
            x == a.skip(prefix as int),
            y == b.skip(prefix as int),
            prefix <= old_count,
            prefix <= new_count,
            suffix <= old_count - prefix,
            suffix <= new_count - prefix,
            forall|i: int| 1 <= i <= suffix ==> #[trigger] x[x.len() - i] == y[y.len() - i],
        decreases old_count - suffix,
    {
        assert(x[x.len() - suffix - 1] == old_lines@[old_count - suffix - 1]@);
        assert(y[y.len() - suffix - 1] == new_lines@[new_count - suffix - 1]@);
        suffix = suffix + 1;
    }
    proof {
        if suffix < x.len() && suffix < y.len() {
            assert(x[x.len() - suffix - 1] == old_lines@[old_count - suffix - 1]@);
            assert(y[y.len() - suffix - 1] == new_lines@[new_count - suffix - 1]@);
        }
        lemma_common_suffix(x, y, suffix as int);
    }
    let old_changed_end: usize = old_count - suffix;
    let new_changed_end: usize = new_count - suffix;
    let shared_prefix = copy_range(&old_lines, 0, prefix);
    let old_changed = copy_range(&old_lines, prefix, old_changed_end);
    let new_changed = copy_range(&new_lines, prefix, new_changed_end);
    let shared_suffix = copy_range(&old_lines, old_changed_end, old_count);
    assert(a.subrange(old_changed_end as int, old_count as int) =~= a.skip(old_changed_end as int));
    (shared_prefix, old_changed, new_changed, shared_suffix)
}

/// The unchanged and the changed lines together are the whole of either side:
/// the shared prefix, the side's own changed lines and the shared suffix, in
/// this order, are the lines of that side.
pub proof fn law_ranges_reassemble(old: Seq<Seq<char>>, new: Seq<Seq<char>>)
    ensures
        ({
            let (prefix, suffix) = shared_edges(old, new);
            let head = old.take(prefix as int);
            let tail = old.skip(old.len() - suffix);
            &&& head + old.subrange(prefix as int, old.len() - suffix) + tail == old
            &&& head + new.subrange(prefix as int, new.len() - suffix) + tail == new
        }),
{
    law_shared_edges(old, new);
    let (prefix, suffix) = shared_edges(old, new);
    let head = old.take(prefix as int);
    let tail = old.skip(old.len() - suffix);
    assert(head + old.subrange(prefix as int, old.len() - suffix) + tail =~= old);
    assert(head == new.take(prefix as int));
    assert(tail == new.skip(new.len() - suffix));
    assert(new.take(prefix as int) + new.subrange(prefix as int, new.len() - suffix) + new.skip(
        new.len() - suffix,
    ) =~= new);
}

/// The shared edges are as long as can be: behind the shared prefix one side
/// ends or the sides differ, and so they do before the shared suffix.
pub proof fn law_edges_are_as_long_as_can_be(old: Seq<Seq<char>>, new: Seq<Seq<char>>)
    ensures
        ({
            let (prefix, suffix) = shared_edges(old, new);
            &&& prefix + suffix <= old.len()
            &&& prefix + suffix <= new.len()
            &&& prefix == old.len() || prefix == new.len() || old[prefix as int]
                != new[prefix as int]
            &&& prefix + suffix == old.len() || prefix + suffix == new.len() || old[old.len()
                - suffix - 1] != new[new.len() - suffix - 1]
        }),
{
    law_shared_edges(old, new);
    lemma_prefix_ends(old, new);
    let p = common_prefix(old, new) as int;
    lemma_suffix_ends(old.skip(p), new.skip(p));
}

proof fn lemma_prefix_ends(a: Seq<Seq<char>>, b: Seq<Seq<char>>)
    ensures
        ({
            let n = common_prefix(a, b) as int;
            n <= a.len() && n <= b.len() && (n == a.len() || n == b.len() || a[n] != b[n])
        }),
    decreases a.len(),
{
    if a.len() > 0 && b.len() > 0 && a[0] == b[0] {
        lemma_prefix_ends(a.skip(1), b.skip(1));
    }
}

proof fn lemma_suffix_ends(a: Seq<Seq<char>>, b: Seq<Seq<char>>)
    ensures
        ({
            let n = common_suffix(a, b) as int;
            n <= a.len() && n <= b.len() && (n == a.len() || n == b.len() || a[a.len() - n - 1]
                != b[b.len() - n - 1])
        }),
    decreases a.len(),
{
    if a.len() > 0 && b.len() > 0 && a.last() == b.last() {
        lemma_suffix_ends(a.drop_last(), b.drop_last());
    }
}

/// A change that leaves the lines as they are adds and removes none. A file that
/// is new adds all its lines. Lines that are put into a file, or taken out, are
/// counted one by one, on their side only.
pub proof fn law_changes_are_counted(before: Seq<char>, after: Seq<char>)
    ensures
        text::lines(before) == text::lines(after) <==> counts_of(before, after) == (0nat, 0nat),
        text::lines(before).len() == 0 ==> counts_of(before, after) == (
            text::lines(after).len(),
            0nat,
        ),
        text::lines(after).len() == 0 ==> counts_of(before, after) == (
            0nat,
            text::lines(before).len(),
        ),
        counts_of(before, after).0 + text::lines(before).len() == counts_of(before, after).1
            + text::lines(after).len(),
        counts_of(before, after).0 <= text::lines(after).len(),
        counts_of(before, after).1 <= text::lines(before).len(),
{
    let old = text::lines(before);
    let new = text::lines(after);
    law_shared_edges(old, new);
    law_edges_are_as_long_as_can_be(old, new);
    let (prefix, suffix) = shared_edges(old, new);
    if old == new && prefix < old.len() {
        assert(old[prefix as int] == new[prefix as int]);
    }
    if counts_of(before, after) == (0nat, 0nat) {
        assert(old =~= old.take(prefix as int) + old.skip(old.len() - suffix));
        assert(new =~= new.take(prefix as int) + new.skip(new.len() - suffix));
    }
}

} // verus!
