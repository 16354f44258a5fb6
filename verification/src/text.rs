//! Text as sequences of characters: the operations the rest of the crate
//! needs on `&str` and `String`, each with an exact meaning over `Seq<char>`.
use vstd::prelude::*;
use vstd::string::*;
use vstd::utf8::*;

verus! {

/// `String::push` appends one character at the end and changes nothing else.
pub assume_specification[ String::push ](s: &mut String, c: char)
    ensures
        final(s)@ == old(s)@.push(c),
;

// ---------------------------------------------------------------------------
// Models
// ---------------------------------------------------------------------------

/// The characters with the Unicode `White_Space` property.
pub open spec fn is_space(c: char) -> bool {
    let u = c as u32;
    ||| 0x9 <= u <= 0xd
    ||| u == 0x20
    ||| u == 0x85
    ||| u == 0xa0
    ||| u == 0x1680
    ||| 0x2000 <= u <= 0x200a
    ||| u == 0x2028
    ||| u == 0x2029
    ||| u == 0x202f
    ||| u == 0x205f
    ||| u == 0x3000
}

pub open spec fn is_ascii_char(c: char) -> bool {
    (c as u32) < 128
}

/// ASCII letters mapped to lower case; every other character unchanged.
pub open spec fn ascii_lower(c: char) -> char {
    if 'A' <= c <= 'Z' {
        ((c as u32) + 32) as char
    } else {
        c
    }
}

pub open spec fn ascii_lowercase(s: Seq<char>) -> Seq<char> {
    s.map_values(|c: char| ascii_lower(c))
}

/// `s` without the white space at its start.
pub open spec fn trim_start(s: Seq<char>) -> Seq<char>
    decreases s.len(),
{
    if s.len() > 0 && is_space(s[0]) {
        trim_start(s.skip(1))
    } else {
        s
    }
}

/// `s` without the white space at its end.
pub open spec fn trim_end(s: Seq<char>) -> Seq<char>
    decreases s.len(),
{
    if s.len() > 0 && is_space(s.last()) {
        trim_end(s.drop_last())
    } else {
        s
    }
}

/// `s` without the white space at either end.
pub open spec fn trim(s: Seq<char>) -> Seq<char> {
    trim_end(trim_start(s))
}

/// The pieces of `s` between occurrences of `sep`; always at least one piece.
pub open spec fn split(s: Seq<char>, sep: char) -> Seq<Seq<char>>
    decreases s.len(),
{
    if s.len() == 0 {
        seq![Seq::empty()]
    } else {
        let rest = split(s.drop_last(), sep);
        if s.last() == sep {
            rest.push(Seq::empty())
        } else {
            rest.drop_last().push(rest.last().push(s.last()))
        }
    }
}

/// `s` without one carriage return at its end.
pub open spec fn strip_cr(s: Seq<char>) -> Seq<char> {
    if s.len() > 0 && s.last() == '\r' {
        s.drop_last()
    } else {
        s
    }
}

/// The lines of `s`: what each line feed ends, without a carriage return just
/// before it, and then the unfinished last line unless it is empty.
pub open spec fn lines(s: Seq<char>) -> Seq<Seq<char>> {
    let parts = split(s, '\n');
    let ended = parts.drop_last().map_values(|l: Seq<char>| strip_cr(l));
    if parts.last().len() == 0 {
        ended
    } else {
        ended.push(parts.last())
    }
}

/// The pieces of `parts` with `sep` between each two neighbours.
pub open spec fn join(parts: Seq<Seq<char>>, sep: Seq<char>) -> Seq<char>
    decreases parts.len(),
{
    if parts.len() == 0 {
        Seq::empty()
    } else if parts.len() == 1 {
        parts[0]
    } else {
        join(parts.drop_last(), sep) + sep + parts.last()
    }
}

/// `p` stands in `s` at position `i`.
pub open spec fn occurs_at(s: Seq<char>, p: Seq<char>, i: int) -> bool {
    0 <= i && i + p.len() <= s.len() && s.subrange(i, i + p.len()) == p
}

/// The first position from `i` on at which `p` stands in `s`.
pub open spec fn find_from(s: Seq<char>, p: Seq<char>, i: int) -> Option<int>
    decreases s.len() - i + 1,
{
    if i < 0 || i + p.len() > s.len() {
        None
    } else if occurs_at(s, p, i) {
        Some(i)
    } else {
        find_from(s, p, i + 1)
    }
}

pub open spec fn find(s: Seq<char>, p: Seq<char>) -> Option<int> {
    find_from(s, p, 0)
}

pub open spec fn contains(s: Seq<char>, p: Seq<char>) -> bool {
    find(s, p) is Some
}

pub open spec fn starts_with(s: Seq<char>, p: Seq<char>) -> bool {
    occurs_at(s, p, 0)
}

pub open spec fn ends_with(s: Seq<char>, p: Seq<char>) -> bool {
    occurs_at(s, p, s.len() - p.len())
}

/// The first `n` characters of `s`, or all of them.
pub open spec fn take_chars(s: Seq<char>, n: int) -> Seq<char> {
    if n >= s.len() {
        s
    } else {
        s.subrange(0, n)
    }
}

pub open spec fn digit_char(d: nat) -> char {
    (48 + d) as char
}

/// `n` in decimal digits, without leading zeros.
pub open spec fn decimal(n: nat) -> Seq<char>
    decreases n,
{
    if n < 10 {
        seq![digit_char(n)]
    } else {
        decimal(n / 10).push(digit_char(n % 10))
    }
}

pub open spec fn hex_char(d: nat) -> char {
    if d < 10 {
        (48 + d) as char
    } else {
        (87 + d) as char
    }
}

/// The last `width` hexadecimal digits of `n`, in lower case, zeros in front.
pub open spec fn hex_fixed(n: nat, width: nat) -> Seq<char>
    decreases width,
{
    if width == 0 {
        Seq::empty()
    } else {
        hex_fixed(n / 16, (width - 1) as nat).push(hex_char(n % 16))
    }
}

/// `n` in hexadecimal, with zeros in front up to `width` digits.
pub open spec fn hex_padded(n: nat, width: nat) -> Seq<char>
    decreases n,
{
    if n == 0 {
        Seq::new(width, |i: int| '0')
    } else {
        hex_padded(
            n / 16,
            if width > 0 {
                (width - 1) as nat
            } else {
                0
            },
        ).push(hex_char(n % 16))
    }
}

pub open spec fn is_digit(c: char) -> bool {
    '0' <= c <= '9'
}

pub open spec fn all_digits(s: Seq<char>) -> bool {
    forall|i: int| 0 <= i < s.len() ==> is_digit(#[trigger] s[i])
}

/// The number that a run of decimal digits denotes.
pub open spec fn decimal_value(s: Seq<char>) -> nat
    decreases s.len(),
{
    if s.len() == 0 {
        0
    } else {
        decimal_value(s.drop_last()) * 10 + (s.last() as nat - 48) as nat
    }
}

pub open spec fn hex_digit(c: char) -> Option<nat> {
    if '0' <= c <= '9' {
        Some((c as nat - 48) as nat)
    } else if 'a' <= c <= 'f' {
        Some((c as nat - 87) as nat)
    } else if 'A' <= c <= 'F' {
        Some((c as nat - 55) as nat)
    } else {
        None
    }
}

// ---------------------------------------------------------------------------
// Facts
// ---------------------------------------------------------------------------

pub proof fn lemma_same_bytes_same_text(a: &str, b: &str)
    ensures
        a.spec_bytes() == b.spec_bytes() <==> a@ == b@,
{
    encode_utf8_decode_utf8(a@);
    encode_utf8_decode_utf8(b@);
}

pub proof fn lemma_split_nonempty(s: Seq<char>, sep: char)
    ensures
        split(s, sep).len() >= 1,
    decreases s.len(),
{
    if s.len() > 0 {
        lemma_split_nonempty(s.drop_last(), sep);
    }
}

// ---------------------------------------------------------------------------
// Operations
// ---------------------------------------------------------------------------

pub fn char_is_space(c: char) -> (r: bool)
    ensures
        r == is_space(c),
{
    let u: u32 = c as u32;
    (0x9 <= u && u <= 0xd) || u == 0x20 || u == 0x85 || u == 0xa0 || u == 0x1680 || (0x2000 <= u
        && u <= 0x200a) || u == 0x2028 || u == 0x2029 || u == 0x202f || u == 0x205f || u == 0x3000
}

pub fn char_to_lower(c: char) -> (r: char)
    ensures
        r == ascii_lower(c),
{
    if 'A' <= c && c <= 'Z' {
        ((c as u8) + 32) as char
    } else {
        c
    }
}

/// The characters of `s`, in order.
pub fn chars_of(s: &str) -> (v: Vec<char>)
    ensures
        v@ == s@,
{
    let mut v: Vec<char> = Vec::new();
    for c in it: s.chars()
        invariant
            v@ == it.seq().take(it.index()),
            it.seq() == s@,
    {
        v.push(c);
    }
    v
}

/// The text made of `chars[from..to]`.
pub fn text_range(chars: &[char], from: usize, to: usize) -> (s: String)
    requires
        from <= to <= chars@.len(),
    ensures
        s@ == chars@.subrange(from as int, to as int),
{
    let mut s = String::new();
    let mut i: usize = from;
    while i < to
        invariant
            from <= i <= to <= chars@.len(),
            s@ == chars@.subrange(from as int, i as int),
        decreases to - i,
    {
        s.push(chars[i]);
        i = i + 1;
    }
    s
}

pub fn text_of(chars: &[char]) -> (s: String)
    ensures
        s@ == chars@,
{
    let s = text_range(chars, 0, chars.len());
    assert(chars@.subrange(0, chars@.len() as int) == chars@);
    s
}

/// Whether two texts hold the same characters.
pub fn same(a: &str, b: &str) -> (r: bool)
    ensures
        r == (a@ == b@),
{
    let x: &[u8] = a.as_bytes();
    let y: &[u8] = b.as_bytes();
    proof {
        lemma_same_bytes_same_text(a, b);
    }
    if x.len() != y.len() {
        return false;
    }
    let mut i: usize = 0;
    while i < x.len()
        invariant
            x@.len() == y@.len(),
            x@ == a.spec_bytes(),
            y@ == b.spec_bytes(),
            a.spec_bytes() == b.spec_bytes() <==> a@ == b@,
            i <= x@.len(),
            forall|j: int| 0 <= j < i ==> x@[j] == y@[j],
        decreases x@.len() - i,
    {
        if x[i] != y[i] {
            return false;
        }
        i = i + 1;
    }
    assert(x@ =~= y@);
    true
}


/// The number of characters of `s`.
pub fn char_count(s: &str) -> (n: usize)
    ensures
        n == s@.len(),
{
    s.unicode_len()
}

/// `a` followed by `b`.
pub fn concat(a: &str, b: &str) -> (r: String)
    ensures
        r@ == a@ + b@,
{
    let mut r = a.to_owned();
    r.append(b);
    r
}

/// The models of the elements of `s`, in order.
pub open spec fn views<T: View>(s: Seq<T>) -> Seq<T::V> {
    Seq::new(s.len(), |i: int| s[i]@)
}

/// The model of an optional value.
pub open spec fn opt<T: View>(o: Option<T>) -> Option<T::V> {
    match o {
        Some(t) => Some(t@),
        None => None,
    }
}

/// The model of a result.
pub open spec fn res<T: View, E: View>(r: Result<T, E>) -> Result<T::V, E::V> {
    match r {
        Ok(t) => Ok(t@),
        Err(e) => Err(e@),
    }
}

pub proof fn lemma_views_push<T: View>(s: Seq<T>, t: T)
    ensures
        views(s.push(t)) == views(s).push(t@),
{
    assert(views(s.push(t)) =~= views(s).push(t@));
}

proof fn lemma_trim_start_skip(s: Seq<char>, i: int)
    requires
        0 <= i <= s.len(),
        forall|j: int| 0 <= j < i ==> is_space(#[trigger] s[j]),
    ensures
        trim_start(s) == trim_start(s.skip(i)),
    decreases i,
{
    if i == 0 {
        assert(s.skip(0) =~= s);
    } else {
        assert(is_space(s[0]));
        assert forall|j: int| 0 <= j < i - 1 implies is_space(#[trigger] s.skip(1)[j]) by {
            assert(s.skip(1)[j] == s[j + 1]);
        }
        lemma_trim_start_skip(s.skip(1), i - 1);
        assert(s.skip(1).skip(i - 1) =~= s.skip(i));
    }
}

proof fn lemma_trim_end_take(s: Seq<char>, n: int)
    requires
        0 <= n <= s.len(),
        forall|j: int| n <= j < s.len() ==> is_space(#[trigger] s[j]),
    ensures
        trim_end(s) == trim_end(s.take(n)),
    decreases s.len() - n,
{
    if n == s.len() {
        assert(s.take(n) =~= s);
    } else {
        assert(is_space(s[s.len() - 1]));
        let t = s.drop_last();
        assert forall|j: int| n <= j < t.len() implies is_space(#[trigger] t[j]) by {
            assert(t[j] == s[j]);
        }
        lemma_trim_end_take(t, n);
        assert(t.take(n) =~= s.take(n));
    }
}

/// `s` without the white space at its start.
pub fn trim_start_of(s: &str) -> (r: String)
    ensures
        r@ == trim_start(s@),
{
    let chars = chars_of(s);
    let mut i: usize = 0;
    while i < chars.len() && char_is_space(chars[i])
        invariant
            i <= chars@.len(),
            chars@ == s@,
            forall|j: int| 0 <= j < i ==> is_space(#[trigger] chars@[j]),
        decreases chars@.len() - i,
    {
        i = i + 1;
    }
    proof {
        lemma_trim_start_skip(s@, i as int);
        assert(trim_start(s@.skip(i as int)) == s@.skip(i as int));
        assert(s@.skip(i as int) =~= chars@.subrange(i as int, chars@.len() as int));
    }
    text_range(chars.as_slice(), i, chars.len())
}

/// `s` without the white space at its end.
pub fn trim_end_of(s: &str) -> (r: String)
    ensures
        r@ == trim_end(s@),
{
    let chars = chars_of(s);
    let mut n: usize = chars.len();
    while n > 0 && char_is_space(chars[n - 1])
        invariant
            n <= chars@.len(),
            chars@ == s@,
            forall|j: int| n <= j < chars@.len() ==> is_space(#[trigger] chars@[j]),
        decreases n,
    {
        n = n - 1;
    }
    proof {
        lemma_trim_end_take(s@, n as int);
        assert(trim_end(s@.take(n as int)) == s@.take(n as int));
        assert(s@.take(n as int) =~= chars@.subrange(0, n as int));
    }
    text_range(chars.as_slice(), 0, n)
}

/// `s` without the white space at either end.
pub fn trim_of(s: &str) -> (r: String)
    ensures
        r@ == trim(s@),
{
    let t = trim_start_of(s);
    trim_end_of(t.as_str())
}

/// `s` with its ASCII letters in lower case.
pub fn ascii_lowercase_of(s: &str) -> (r: String)
    ensures
        r@ == ascii_lowercase(s@),
{
    let chars = chars_of(s);
    let mut r = String::new();
    let mut i: usize = 0;
    while i < chars.len()
        invariant
            i <= chars@.len(),
            chars@ == s@,
            r@ == ascii_lowercase(s@.take(i as int)),
        decreases chars@.len() - i,
    {
        r.push(char_to_lower(chars[i]));
        i = i + 1;
        assert(r@ =~= ascii_lowercase(s@.take(i as int)));
    }
    assert(s@.take(s@.len() as int) =~= s@);
    r
}

/// The pieces of `s` between occurrences of `sep`.
pub fn split_of(s: &str, sep: char) -> (r: Vec<String>)
    ensures
        views(r@) == split(s@, sep),
{
    let chars = chars_of(s);
    let mut parts: Vec<String> = Vec::new();
    let mut current = String::new();
    let mut i: usize = 0;
    assert(s@.take(0) =~= Seq::<char>::empty());
    assert(views(parts@).push(current@) =~= split(s@.take(0), sep));
    while i < chars.len()
        invariant
            i <= chars@.len(),
            chars@ == s@,
            views(parts@).push(current@) == split(s@.take(i as int), sep),
        decreases chars@.len() - i,
    {
        let c = chars[i];
        let ghost before = s@.take(i as int);
        let ghost after = s@.take(i as int + 1);
        assert(after.drop_last() =~= before);
        assert(after.last() == c);
        let ghost held = views(parts@).push(current@);
        assert(held.drop_last() =~= views(parts@));
        if c == sep {
            let ghost done = parts@;
            proof {
                lemma_views_push(parts@, current);
            }
            parts.push(current);
            current = String::new();
            assert(views(parts@) == held);
        } else {
            current.push(c);
        }
        i = i + 1;
        assert(views(parts@).push(current@) =~= split(after, sep));
    }
    assert(s@.take(s@.len() as int) =~= s@);
    proof {
        lemma_views_push(parts@, current);
    }
    parts.push(current);
    parts
}

/// The lines of `s`, without their line endings.
pub fn lines_of(s: &str) -> (r: Vec<String>)
    ensures
        views(r@) == lines(s@),
{
    let parts = split_of(s, '\n');
    let ghost pieces = split(s@, '\n');
    proof {
        lemma_split_nonempty(s@, '\n');
    }
    let last: usize = parts.len() - 1;
    let mut out: Vec<String> = Vec::new();
    let mut i: usize = 0;
    let ghost ended = pieces.drop_last().map_values(|l: Seq<char>| strip_cr(l));
    while i < last
        invariant
            i <= last,
            last + 1 == parts@.len(),
            views(parts@) == pieces,
            ended == pieces.drop_last().map_values(|l: Seq<char>| strip_cr(l)),
            views(out@) == ended.take(i as int),
        decreases last - i,
    {
        let line = strip_cr_of(parts[i].as_str());
        assert(parts@[i as int]@ == pieces[i as int]);
        proof {
            lemma_views_push(out@, line);
        }
        out.push(line);
        i = i + 1;
        assert(views(out@) =~= ended.take(i as int));
    }
    assert(ended.take(last as int) =~= ended);
    assert(parts@[last as int]@ == pieces.last());
    if parts[last].as_str().is_empty() {
        return out;
    }
    let line = parts[last].clone();
    proof {
        lemma_views_push(out@, line);
    }
    out.push(line);
    out
}

/// `s` without one carriage return at its end.
pub fn strip_cr_of(s: &str) -> (r: String)
    ensures
        r@ == strip_cr(s@),
{
    let chars = chars_of(s);
    let n: usize = chars.len();
    if n > 0 && chars[n - 1] == '\r' {
        assert(chars@.subrange(0, n - 1) =~= s@.drop_last());
        text_range(chars.as_slice(), 0, n - 1)
    } else {
        s.to_owned()
    }
}

/// The pieces of `parts` with `sep` between each two neighbours.
pub fn join_of(parts: &Vec<String>, sep: &str) -> (r: String)
    ensures
        r@ == join(views(parts@), sep@),
{
    let mut r = String::new();
    let mut i: usize = 0;
    assert(views(parts@).take(0) =~= Seq::<Seq<char>>::empty());
    while i < parts.len()
        invariant
            i <= parts@.len(),
            r@ == join(views(parts@).take(i as int), sep@),
        decreases parts@.len() - i,
    {
        let ghost upto = views(parts@).take(i as int + 1);
        assert(upto.drop_last() =~= views(parts@).take(i as int));
        assert(upto.last() == parts@[i as int]@);
        if i == 0 {
            r = parts[i].clone();
        } else {
            r.append(sep);
            r.append(parts[i].as_str());
        }
        i = i + 1;
        assert(r@ == join(upto, sep@));
    }
    assert(views(parts@).take(parts@.len() as int) =~= views(parts@));
    r
}

/// Whether `p` stands in `s` at position `i`.
pub fn occurs_at_of(s: &[char], p: &[char], i: usize) -> (r: bool)
    requires
        i + p@.len() <= s@.len(),
    ensures
        r == occurs_at(s@, p@, i as int),
{
    let total: usize = s.len();
    let mut j: usize = 0;
    while j < p.len()
        invariant
            j <= p@.len(),
            i + p@.len() <= s@.len(),
            total == s@.len(),
            s@.subrange(i as int, i + j) =~= p@.take(j as int),
        decreases p@.len() - j,
    {
        if s[i + j] != p[j] {
            assert(s@.subrange(i as int, i + p@.len())[j as int] != p@[j as int]);
            return false;
        }
        j = j + 1;
    }
    assert(p@.take(p@.len() as int) =~= p@);
    true
}

/// The first position from `from` on at which `p` stands in `s`.
pub fn find_from_of(s: &[char], p: &[char], from: usize) -> (r: Option<usize>)
    ensures
        match r {
            Some(i) => find_from(s@, p@, from as int) == Some(i as int) && from <= i && i + p@.len()
                <= s@.len(),
            None => find_from(s@, p@, from as int) is None,
        },
{
    if p.len() > s.len() || from > s.len() - p.len() {
        return None;
    }
    let mut i: usize = from;
    let last: usize = s.len() - p.len();
    while i <= last
        invariant
            from <= i <= last + 1,
            last == s@.len() - p@.len(),
            last <= s@.len(),
            find_from(s@, p@, from as int) == find_from(s@, p@, i as int),
        decreases last + 1 - i,
    {
        if occurs_at_of(s, p, i) {
            return Some(i);
        }
        if i == last {
            assert(find_from(s@, p@, i as int + 1) is None);
            return None;
        }
        i = i + 1;
    }
    None
}

/// The first position at which `p` stands in `s`, counted in characters.
pub fn find_of(s: &str, p: &str) -> (r: Option<usize>)
    ensures
        match r {
            Some(i) => find(s@, p@) == Some(i as int) && i + p@.len() <= s@.len(),
            None => find(s@, p@) is None,
        },
{
    let a = chars_of(s);
    let b = chars_of(p);
    find_from_of(a.as_slice(), b.as_slice(), 0)
}

pub fn contains_of(s: &str, p: &str) -> (r: bool)
    ensures
        r == contains(s@, p@),
{
    find_of(s, p).is_some()
}

pub fn starts_with_of(s: &str, p: &str) -> (r: bool)
    ensures
        r == starts_with(s@, p@),
{
    let a = chars_of(s);
    let b = chars_of(p);
    if b.len() > a.len() {
        return false;
    }
    occurs_at_of(a.as_slice(), b.as_slice(), 0)
}

pub fn ends_with_of(s: &str, p: &str) -> (r: bool)
    ensures
        r == ends_with(s@, p@),
{
    let a = chars_of(s);
    let b = chars_of(p);
    if b.len() > a.len() {
        return false;
    }
    occurs_at_of(a.as_slice(), b.as_slice(), a.len() - b.len())
}

/// The characters of `s` from position `from` up to position `to`.
pub fn substring(s: &str, from: usize, to: usize) -> (r: String)
    requires
        from <= to <= s@.len(),
    ensures
        r@ == s@.subrange(from as int, to as int),
{
    let chars = chars_of(s);
    text_range(chars.as_slice(), from, to)
}

/// The first `n` characters of `s`, or all of them.
pub fn take_of(s: &str, n: usize) -> (r: String)
    ensures
        r@ == take_chars(s@, n as int),
{
    let count: usize = char_count(s);
    if n >= count {
        s.to_owned()
    } else {
        substring(s, 0, n)
    }
}

/// Lines one after the other, each with a line feed after it.
pub open spec fn lines_text(list: Seq<Seq<char>>) -> Seq<char>
    decreases list.len(),
{
    if list.len() == 0 {
        Seq::empty()
    } else {
        lines_text(list.drop_last()) + list.last() + seq!['\n']
    }
}

/// Whether a text can stand on a line: it has no line feed, and no carriage
/// return at its end.
pub open spec fn is_line(s: Seq<char>) -> bool {
    &&& forall|i: int| 0 <= i < s.len() ==> s[i] != '\n'
    &&& s.len() > 0 ==> s.last() != '\r'
}

proof fn lemma_split_append(s: Seq<char>, line: Seq<char>, sep: char)
    requires
        forall|i: int| 0 <= i < line.len() ==> line[i] != sep,
    ensures
        split(s + line, sep) == split(s, sep).drop_last().push(split(s, sep).last() + line),
    decreases line.len(),
{
    lemma_split_nonempty(s, sep);
    let parts = split(s, sep);
    if line.len() == 0 {
        assert(s + line =~= s);
        assert(parts.last() + line =~= parts.last());
        assert(parts.drop_last().push(parts.last()) =~= parts);
    } else {
        let front = line.drop_last();
        assert forall|i: int| 0 <= i < front.len() implies front[i] != sep by {
            assert(front[i] == line[i]);
        }
        lemma_split_append(s, front, sep);
        assert((s + line).drop_last() =~= s + front);
        assert((s + line).last() == line.last());
        assert(line[line.len() - 1] != sep);
        let before = parts.drop_last().push(parts.last() + front);
        assert(before.drop_last() =~= parts.drop_last());
        assert((parts.last() + front).push(line.last()) =~= parts.last() + line);
    }
}

/// Lines that are written one after the other are read as they were.
pub proof fn lemma_lines_read_back(list: Seq<Seq<char>>)
    requires
        forall|i: int| 0 <= i < list.len() ==> is_line(#[trigger] list[i]),
    ensures
        split(lines_text(list), '\n') == list.push(Seq::empty()),
        lines(lines_text(list)) == list,
    decreases list.len(),
{
    if list.len() == 0 {
        assert(split(lines_text(list), '\n') =~= list.push(Seq::empty()));
    } else {
        let front = list.drop_last();
        assert forall|i: int| 0 <= i < front.len() implies is_line(#[trigger] front[i]) by {
            assert(front[i] == list[i]);
        }
        lemma_lines_read_back(front);
        assert(is_line(list[list.len() - 1]));
        let before = lines_text(front);
        lemma_split_append(before, list.last(), '\n');
        assert(front.push(Seq::<char>::empty()).drop_last() =~= front);
        assert(Seq::<char>::empty() + list.last() =~= list.last());
        let body = before + list.last();
        assert(split(body, '\n') =~= list);
        assert(lines_text(list).drop_last() =~= body);
        assert(lines_text(list).last() == '\n');
        assert(split(lines_text(list), '\n') =~= list.push(Seq::empty()));
    }
    let parts = split(lines_text(list), '\n');
    assert(parts.drop_last() =~= list);
    assert forall|i: int| 0 <= i < list.len() implies strip_cr(#[trigger] list[i]) == list[i] by {
        assert(is_line(list[i]));
    }
    assert(parts.drop_last().map_values(|l: Seq<char>| strip_cr(l)) =~= list);
}

/// `s` without any number of `p` at its end.
pub open spec fn trim_end_matches(s: Seq<char>, p: Seq<char>) -> Seq<char>
    decreases s.len(),
{
    if p.len() > 0 && p.len() <= s.len() && ends_with(s, p) {
        trim_end_matches(s.take(s.len() - p.len()), p)
    } else {
        s
    }
}

/// `s` without any number of `p` at its end.
pub fn trim_end_matches_of(s: &str, p: &str) -> (r: String)
    ensures
        r@ == trim_end_matches(s@, p@),
{
    let chars = chars_of(s);
    let pattern = chars_of(p);
    let width: usize = pattern.len();
    let mut n: usize = chars.len();
    assert(s@.take(n as int) =~= s@);
    while width > 0 && width <= n && occurs_at_of(chars.as_slice(), pattern.as_slice(), n - width)
        invariant
            n <= chars@.len(),
            chars@ == s@,
            pattern@ == p@,
            width == p@.len(),
            trim_end_matches(s@, p@) == trim_end_matches(s@.take(n as int), p@),
        decreases n,
    {
        let ghost whole = s@.take(n as int);
        assert(s@.subrange(n - width, n as int) =~= whole.subrange(n - width, n as int));
        assert(whole.take(n - width) =~= s@.take(n - width));
        n = n - width;
    }
    proof {
        let whole = s@.take(n as int);
        if width > 0 && width <= n {
            assert(s@.subrange(n - width, n as int) =~= whole.subrange(n - width, n as int));
        }
    }
    let r = text_range(chars.as_slice(), 0, n);
    assert(r@ =~= s@.take(n as int));
    r
}

/// What comes before and after the first `p` in `s`.
pub open spec fn split_once(s: Seq<char>, p: Seq<char>) -> Option<(Seq<char>, Seq<char>)> {
    match find(s, p) {
        Some(i) => Some((s.take(i), s.skip(i + p.len()))),
        None => None,
    }
}

proof fn lemma_find_from_in_range(s: Seq<char>, p: Seq<char>, i: int)
    requires
        0 <= i,
    ensures
        find_from(s, p, i) matches Some(at) ==> i <= at && at + p.len() <= s.len() && occurs_at(
            s,
            p,
            at,
        ),
    decreases s.len() - i + 1,
{
    if i + p.len() <= s.len() && !occurs_at(s, p, i) {
        lemma_find_from_in_range(s, p, i + 1);
    }
}

/// What comes before and after the first `p` in `s`.
pub fn split_once_of(s: &str, p: &str) -> (r: Option<(String, String)>)
    ensures
        match r {
            Some(parts) => split_once(s@, p@) == Some((parts.0@, parts.1@)),
            None => split_once(s@, p@) is None,
        },
{
    match find_of(s, p) {
        Some(at) => {
            proof {
                lemma_find_from_in_range(s@, p@, 0);
            }
            let width: usize = char_count(p);
            let total: usize = char_count(s);
            let before = substring(s, 0, at);
            let after = substring(s, at + width, total);
            assert(before@ =~= s@.take(at as int));
            assert(after@ =~= s@.skip(at + width));
            Some((before, after))
        },
        None => None,
    }
}

/// The value of a digit of base sixteen.
pub fn hex_value(c: char) -> (r: Option<u8>)
    ensures
        match r {
            Some(v) => hex_digit(c) == Some(v as nat) && v < 16,
            None => hex_digit(c) is None,
        },
{
    if '0' <= c && c <= '9' {
        Some((c as u8) - 48)
    } else if 'a' <= c && c <= 'f' {
        Some((c as u8) - 87)
    } else if 'A' <= c && c <= 'F' {
        Some((c as u8) - 55)
    } else {
        None
    }
}

/// What comes after the last `c` in `s`.
pub open spec fn after_last(s: Seq<char>, c: char) -> Option<Seq<char>>
    decreases s.len(),
{
    if s.len() == 0 {
        None
    } else if s.last() == c {
        Some(Seq::empty())
    } else {
        match after_last(s.drop_last(), c) {
            Some(tail) => Some(tail.push(s.last())),
            None => None,
        }
    }
}

proof fn lemma_after_last(s: Seq<char>, c: char, at: int)
    requires
        0 <= at < s.len(),
        s[at] == c,
        forall|j: int| at < j < s.len() ==> s[j] != c,
    ensures
        after_last(s, c) == Some(s.skip(at + 1)),
    decreases s.len(),
{
    if at == s.len() - 1 {
        assert(s.skip(at + 1) =~= Seq::<char>::empty());
    } else {
        lemma_after_last(s.drop_last(), c, at);
        assert(s.drop_last().skip(at + 1).push(s.last()) =~= s.skip(at + 1));
    }
}

proof fn lemma_after_last_none(s: Seq<char>, c: char)
    requires
        forall|j: int| 0 <= j < s.len() ==> s[j] != c,
    ensures
        after_last(s, c) is None,
    decreases s.len(),
{
    if s.len() > 0 {
        lemma_after_last_none(s.drop_last(), c);
    }
}

/// What comes after the last `c` in `s`.
pub fn after_last_of(s: &str, c: char) -> (r: Option<String>)
    ensures
        opt(r) == after_last(s@, c),
{
    let chars = chars_of(s);
    let mut n: usize = chars.len();
    while n > 0
        invariant
            n <= chars@.len(),
            chars@ == s@,
            forall|j: int| n <= j < chars@.len() ==> chars@[j] != c,
        decreases n,
    {
        if chars[n - 1] == c {
            proof {
                lemma_after_last(s@, c, n - 1);
            }
            let tail = text_range(chars.as_slice(), n, chars.len());
            assert(tail@ =~= s@.skip(n as int));
            return Some(tail);
        }
        n = n - 1;
    }
    proof {
        lemma_after_last_none(s@, c);
    }
    None
}

/// Line breaks turned into spaces.
pub open spec fn one_line_char(c: char) -> char {
    if c == '\r' || c == '\n' {
        ' '
    } else {
        c
    }
}

/// `s` with each carriage return and line feed turned into a space.
pub open spec fn one_line(s: Seq<char>) -> Seq<char> {
    s.map_values(|c: char| one_line_char(c))
}

pub fn one_line_of(s: &str) -> (r: String)
    ensures
        r@ == one_line(s@),
{
    let chars = chars_of(s);
    let mut r = String::new();
    let mut i: usize = 0;
    while i < chars.len()
        invariant
            i <= chars@.len(),
            chars@ == s@,
            r@ == one_line(s@.take(i as int)),
        decreases chars@.len() - i,
    {
        let c = chars[i];
        if c == '\r' || c == '\n' {
            r.push(' ');
        } else {
            r.push(c);
        }
        i = i + 1;
        assert(r@ =~= one_line(s@.take(i as int)));
    }
    assert(s@.take(s@.len() as int) =~= s@);
    r
}

/// `n` in decimal digits.
pub fn decimal_of(n: u64) -> (r: String)
    ensures
        r@ == decimal(n as nat),
    decreases n,
{
    let digit = (48u8 + (n % 10) as u8) as char;
    if n < 10 {
        let mut r = String::new();
        r.push(digit);
        assert(r@ =~= decimal(n as nat));
        r
    } else {
        let mut r = decimal_of(n / 10);
        r.push(digit);
        r
    }
}

/// The last `width` hexadecimal digits of `n`.
pub fn hex_fixed_of(n: u64, width: u32) -> (r: String)
    ensures
        r@ == hex_fixed(n as nat, width as nat),
    decreases width,
{
    if width == 0 {
        String::new()
    } else {
        let d: u8 = (n % 16) as u8;
        let c = if d < 10 {
            (48u8 + d) as char
        } else {
            (87u8 + d) as char
        };
        let mut r = hex_fixed_of(n / 16, width - 1);
        r.push(c);
        r
    }
}

/// `n` in hexadecimal, with zeros in front up to `width` digits.
pub fn hex_padded_of(n: u64, width: u32) -> (r: String)
    ensures
        r@ == hex_padded(n as nat, width as nat),
    decreases n,
{
    if n == 0 {
        let mut r = String::new();
        let mut i: u32 = 0;
        while i < width
            invariant
                i <= width,
                r@ == Seq::new(i as nat, |i: int| '0'),
            decreases width - i,
        {
            r.push('0');
            i = i + 1;
            assert(r@ =~= Seq::new(i as nat, |i: int| '0'));
        }
        r
    } else {
        let d: u8 = (n % 16) as u8;
        let c = if d < 10 {
            (48u8 + d) as char
        } else {
            (87u8 + d) as char
        };
        let narrower: u32 = if width > 0 {
            width - 1
        } else {
            0
        };
        let mut r = hex_padded_of(n / 16, narrower);
        r.push(c);
        r
    }
}

/// The number that a text denotes in decimal: digits, with one plus sign
/// allowed in front, and no more than `max`.
pub open spec fn parse_decimal(s: Seq<char>, max: nat) -> Option<nat> {
    let digits = if s.len() > 0 && s[0] == '+' {
        s.skip(1)
    } else {
        s
    };
    if digits.len() > 0 && all_digits(digits) && decimal_value(digits) <= max {
        Some(decimal_value(digits))
    } else {
        None
    }
}

proof fn lemma_decimal_prefix(s: Seq<char>, n: int)
    requires
        0 <= n <= s.len(),
        all_digits(s),
    ensures
        decimal_value(s.take(n)) <= decimal_value(s),
    decreases s.len() - n,
{
    if n == s.len() {
        assert(s.take(n) =~= s);
    } else {
        lemma_decimal_prefix(s, n + 1);
        assert(s.take(n + 1).drop_last() =~= s.take(n));
        assert(is_digit(s[n]));
    }
}

/// The number that a text denotes in decimal.
pub fn parse_decimal_of(s: &str, max: u64) -> (r: Option<u64>)
    ensures
        match r {
            Some(n) => parse_decimal(s@, max as nat) == Some(n as nat),
            None => parse_decimal(s@, max as nat) is None,
        },
{
    let chars = chars_of(s);
    let total: usize = chars.len();
    let start: usize = if total > 0 && chars[0] == '+' {
        1
    } else {
        0
    };
    let ghost digits = chars@.skip(start as int);
    assert(start == 0 ==> digits =~= chars@);
    if start == total {
        return None;
    }
    let mut i: usize = start;
    while i < total
        invariant
            start <= i <= total == chars@.len(),
            chars@ == s@,
            digits == chars@.skip(start as int),
            digits == (if s@.len() > 0 && s@[0] == '+' {
                s@.skip(1)
            } else {
                s@
            }),
            forall|k: int| 0 <= k < i - start ==> is_digit(#[trigger] digits[k]),
        decreases total - i,
    {
        let c = chars[i];
        assert(digits[i - start] == c);
        if !('0' <= c && c <= '9') {
            return None;
        }
        i = i + 1;
    }
    assert(all_digits(digits));
    let mut value: u64 = 0;
    let mut j: usize = start;
    assert(digits.take(0) =~= Seq::<char>::empty());
    while j < total
        invariant
            start <= j <= total == chars@.len(),
            chars@ == s@,
            digits == chars@.skip(start as int),
            digits == (if s@.len() > 0 && s@[0] == '+' {
                s@.skip(1)
            } else {
                s@
            }),
            digits.len() > 0,
            all_digits(digits),
            value == decimal_value(digits.take(j - start)),
        decreases total - j,
    {
        assert(digits[j - start] == chars@[j as int]);
        assert(is_digit(digits[j - start]));
        assert(digits.take(j - start + 1).drop_last() =~= digits.take(j - start));
        let d: u64 = (chars[j] as u64) - 48;
        if value > 1844674407370955161 || (value == 1844674407370955161 && d > 5) {
            proof {
                lemma_decimal_prefix(digits, j - start + 1);
                assert(decimal_value(digits.take(j - start + 1)) == value * 10 + d);
            }
            return None;
        }
        value = value * 10 + d;
        j = j + 1;
    }
    assert(digits.take(total - start) =~= digits);
    if value <= max {
        Some(value)
    } else {
        None
    }
}

/// The pieces of `s` between white space characters, empty ones included.
pub open spec fn split_spaces(s: Seq<char>) -> Seq<Seq<char>>
    decreases s.len(),
{
    if s.len() == 0 {
        seq![Seq::empty()]
    } else {
        let rest = split_spaces(s.drop_last());
        if is_space(s.last()) {
            rest.push(Seq::empty())
        } else {
            rest.drop_last().push(rest.last().push(s.last()))
        }
    }
}

/// The words of `s`: its runs of characters that are not white space.
pub open spec fn words(s: Seq<char>) -> Seq<Seq<char>> {
    split_spaces(s).filter(|w: Seq<char>| w.len() > 0)
}

/// Whether `s` is one word: some characters, none of them white space.
pub open spec fn is_word(s: Seq<char>) -> bool {
    s.len() > 0 && forall|i: int| 0 <= i < s.len() ==> !is_space(#[trigger] s[i])
}

/// `first`, and each of `more` with a space before it.
pub open spec fn spaced(first: Seq<char>, more: Seq<Seq<char>>) -> Seq<char>
    decreases more.len(),
{
    if more.len() == 0 {
        first
    } else {
        spaced(first, more.drop_last()).push(' ') + more.last()
    }
}

proof fn lemma_split_spaces_word(s: Seq<char>)
    requires
        forall|i: int| 0 <= i < s.len() ==> !is_space(#[trigger] s[i]),
    ensures
        split_spaces(s) == seq![s],
    decreases s.len(),
{
    if s.len() > 0 {
        let start = s.drop_last();
        assert forall|i: int| 0 <= i < start.len() implies !is_space(#[trigger] start[i]) by {
            assert(start[i] == s[i]);
        }
        lemma_split_spaces_word(start);
        assert(seq![start].drop_last() =~= Seq::<Seq<char>>::empty());
        assert(start.push(s.last()) =~= s);
        assert(split_spaces(s) =~= seq![s]);
    } else {
        assert(s =~= Seq::<char>::empty());
    }
}

proof fn lemma_split_spaces_word_behind(s: Seq<char>, word: Seq<char>)
    requires
        forall|i: int| 0 <= i < word.len() ==> !is_space(#[trigger] word[i]),
    ensures
        split_spaces(s.push(' ') + word) == split_spaces(s).push(word),
    decreases word.len(),
{
    let whole = s.push(' ') + word;
    if word.len() == 0 {
        assert(whole =~= s.push(' '));
        assert(whole.drop_last() =~= s);
        assert(word =~= Seq::<char>::empty());
    } else {
        let start = word.drop_last();
        assert forall|i: int| 0 <= i < start.len() implies !is_space(#[trigger] start[i]) by {
            assert(start[i] == word[i]);
        }
        lemma_split_spaces_word_behind(s, start);
        assert(whole.drop_last() =~= s.push(' ') + start);
        assert(start.push(word.last()) =~= word);
        assert(split_spaces(s).push(start).drop_last() =~= split_spaces(s));
    }
}

/// The words of words with spaces between them, and that trimming leaves those
/// as they are.
pub proof fn lemma_spaced(first: Seq<char>, more: Seq<Seq<char>>)
    requires
        is_word(first),
        forall|i: int| 0 <= i < more.len() ==> is_word(#[trigger] more[i]),
    ensures
        words(spaced(first, more)) == seq![first] + more,
        trim(spaced(first, more)) == spaced(first, more),
        spaced(first, more).len() > 0,
        spaced(first, more)[0] == first[0],
        !is_space(spaced(first, more).last()),
    decreases more.len(),
{
    let s = spaced(first, more);
    let full = |w: Seq<char>| w.len() > 0;
    reveal(Seq::filter);
    if more.len() == 0 {
        lemma_split_spaces_word(first);
        let one = seq![first];
        assert(one.drop_last() =~= Seq::<Seq<char>>::empty());
        assert(one.drop_last().filter(full) =~= Seq::<Seq<char>>::empty());
        assert(one.filter(full) =~= one);
        assert(one + more =~= one);
    } else {
        let before = spaced(first, more.drop_last());
        let word = more.last();
        lemma_spaced(first, more.drop_last());
        lemma_split_spaces_word_behind(before, word);
        let pieces = split_spaces(before).push(word);
        assert(pieces.drop_last() =~= split_spaces(before));
        assert(pieces.filter(full) =~= words(before).push(word));
        assert((seq![first] + more.drop_last()).push(word) =~= seq![first] + more);
        assert(s.last() == word.last());
        assert(s[0] == before[0]);
    }
    assert(!is_space(s[0]));
}

pub fn words_of(s: &str) -> (r: Vec<String>)
    ensures
        views(r@) == words(s@),
{
    let chars = chars_of(s);
    let mut out: Vec<String> = Vec::new();
    let mut current = String::new();
    let mut i: usize = 0;
    let ghost mut parts: Seq<Seq<char>> = Seq::empty();
    let ghost full = |w: Seq<char>| w.len() > 0;
    assert(s@.take(0) =~= Seq::<char>::empty());
    assert(parts.push(current@) =~= split_spaces(s@.take(0)));
    proof {
        reveal(Seq::filter);
    }
    assert(views(out@) =~= parts.filter(full));
    while i < chars.len()
        invariant
            i <= chars@.len(),
            chars@ == s@,
            full == (|w: Seq<char>| w.len() > 0),
            parts.push(current@) == split_spaces(s@.take(i as int)),
            views(out@) == parts.filter(full),
        decreases chars@.len() - i,
    {
        let c = chars[i];
        let ghost after = s@.take(i as int + 1);
        assert(after.drop_last() =~= s@.take(i as int));
        assert(after.last() == c);
        let ghost held = parts.push(current@);
        assert(held.drop_last() =~= parts);
        if char_is_space(c) {
            proof {
                reveal(Seq::filter);
                parts = held;
                lemma_views_push(out@, current);
            }
            if !current.as_str().is_empty() {
                out.push(current);
            }
            current = String::new();
        } else {
            current.push(c);
        }
        i = i + 1;
        assert(parts.push(current@) =~= split_spaces(after));
    }
    assert(s@.take(s@.len() as int) =~= s@);
    proof {
        reveal(Seq::filter);
        assert(parts.push(current@).drop_last() =~= parts);
        lemma_views_push(out@, current);
    }
    if !current.as_str().is_empty() {
        out.push(current);
    }
    out
}

/// The `Debug` form of a text: in quotes, with escapes.
pub uninterp spec fn debug_quoted(s: Seq<char>) -> Seq<char>;

/// `format!("{:?}")` of a text. The result depends on the text alone.
#[verifier::external_body]
pub(crate) fn debug_text(s: &str) -> (r: String)
    ensures
        r@ == debug_quoted(s@),
{
    format!("{s:?}")
}

// ---------------------------------------------------------------------------
// Laws
// ---------------------------------------------------------------------------

/// Nothing but white space.
pub open spec fn blank(s: Seq<char>) -> bool {
    forall|i: int| 0 <= i < s.len() ==> is_space(#[trigger] s[i])
}

proof fn lemma_trim_start_parts(s: Seq<char>) -> (before: Seq<char>)
    ensures
        s == before + trim_start(s),
        blank(before),
        trim_start(s).len() > 0 ==> !is_space(trim_start(s)[0]),
    decreases s.len(),
{
    if s.len() > 0 && is_space(s[0]) {
        let rest = lemma_trim_start_parts(s.skip(1));
        let before = seq![s[0]] + rest;
        assert(s =~= seq![s[0]] + s.skip(1));
        assert(s =~= before + trim_start(s));
        before
    } else {
        assert(s =~= Seq::<char>::empty() + s);
        Seq::empty()
    }
}

proof fn lemma_trim_end_parts(s: Seq<char>) -> (after: Seq<char>)
    ensures
        s == trim_end(s) + after,
        blank(after),
        trim_end(s).len() > 0 ==> !is_space(trim_end(s).last()),
    decreases s.len(),
{
    if s.len() > 0 && is_space(s.last()) {
        let rest = lemma_trim_end_parts(s.drop_last());
        let after = rest.push(s.last());
        assert(s =~= s.drop_last().push(s.last()));
        assert(s =~= trim_end(s) + after);
        after
    } else {
        assert(s =~= s + Seq::<char>::empty());
        Seq::empty()
    }
}

/// What trimming takes away is white space at the two ends, and all of it.
pub proof fn law_trim(s: Seq<char>) -> (ends: (Seq<char>, Seq<char>))
    ensures
        s == ends.0 + trim(s) + ends.1,
        blank(ends.0),
        blank(ends.1),
        trim(s).len() > 0 ==> !is_space(trim(s)[0]) && !is_space(trim(s).last()),
        trim(s).len() == 0 <==> blank(s),
{
    let before = lemma_trim_start_parts(s);
    let after = lemma_trim_end_parts(trim_start(s));
    assert(s =~= before + trim(s) + after);
    if trim(s).len() > 0 {
        assert(trim(s)[0] == trim_start(s)[0]);
        assert(s[before.len() as int] == trim(s)[0]);
    } else {
        assert forall|i: int| 0 <= i < s.len() implies is_space(#[trigger] s[i]) by {
            if i < before.len() {
                assert(s[i] == before[i]);
            } else {
                assert(s[i] == after[i - before.len()]);
            }
        }
    }
    (before, after)
}

/// A text between white space is what trimming leaves, where it neither begins
/// nor ends with any.
pub proof fn law_trimmed(before: Seq<char>, s: Seq<char>, after: Seq<char>)
    requires
        blank(before),
        blank(after),
        s.len() > 0,
        !is_space(s[0]),
        !is_space(s.last()),
    ensures
        trim(before + s + after) == s,
{
    let whole = before + s + after;
    let ends = law_trim(whole);
    let n = trim(whole).len();
    assert(whole[before.len() as int] == s[0]);
    assert(n > 0) by {
        if n == 0 {
            assert(is_space(whole[before.len() as int]));
        }
    }
    assert(whole[ends.0.len() as int] == trim(whole)[0]);
    assert(whole[ends.0.len() + n - 1] == trim(whole).last());
    assert(whole[before.len() + s.len() - 1] == s.last());
    if ends.0.len() < before.len() {
        assert(whole[ends.0.len() as int] == before[ends.0.len() as int]);
    }
    if before.len() < ends.0.len() {
        assert(whole[before.len() as int] == ends.0[before.len() as int]);
    }
    let left = before.len() + s.len() - 1;
    let right = ends.0.len() + n - 1;
    if left < right {
        assert(whole[right] == after[right - before.len() - s.len()]);
    }
    if right < left {
        assert(whole[left] == ends.1[left - ends.0.len() - n]);
    }
    assert(trim(whole) =~= s) by {
        assert forall|i: int| 0 <= i < n implies trim(whole)[i] == s[i] by {
            assert(whole[before.len() + i] == s[i]);
            assert(whole[ends.0.len() + i] == trim(whole)[i]);
        }
    }
}

/// `p` is found where it stands for the first time, and is not found only where
/// it stands nowhere.
pub proof fn law_find(s: Seq<char>, p: Seq<char>)
    ensures
        match find(s, p) {
            Some(at) => {
                &&& 0 <= at <= s.len() - p.len()
                &&& s.subrange(at, at + p.len()) == p
                &&& s == s.take(at) + p + s.skip(at + p.len())
                &&& forall|i: int|
                    0 <= i < at ==> #[trigger] s.subrange(i, i + p.len()) != p
            },
            None => forall|i: int|
                0 <= i <= s.len() - p.len() ==> #[trigger] s.subrange(i, i + p.len()) != p,
        },
{
    lemma_find_from_first(s, p, 0);
    if let Some(at) = find(s, p) {
        assert(s =~= s.take(at) + s.subrange(at, at + p.len()) + s.skip(at + p.len()));
    }
}

proof fn lemma_find_from_first(s: Seq<char>, p: Seq<char>, from: int)
    requires
        0 <= from,
    ensures
        match find_from(s, p, from) {
            Some(at) => from <= at <= s.len() - p.len() && s.subrange(at, at + p.len()) == p
                && forall|i: int| from <= i < at ==> #[trigger] s.subrange(i, i + p.len()) != p,
            None => forall|i: int|
                from <= i <= s.len() - p.len() ==> #[trigger] s.subrange(i, i + p.len()) != p,
        },
    decreases s.len() - from + 1,
{
    if from + p.len() <= s.len() && !occurs_at(s, p, from) {
        lemma_find_from_first(s, p, from + 1);
    }
}

/// A mark that does not end as it begins is found behind a text that does not
/// have it.
pub proof fn lemma_mark_is_found(base: Seq<char>, mark: Seq<char>, rest: Seq<char>)
    requires
        find(base, mark) is None,
        forall|k: int| 0 < k < mark.len() ==> #[trigger] mark.skip(k) != mark.take(mark.len() - k),
    ensures
        find(base + mark + rest, mark) == Some(base.len() as int),
{
    let s = base + mark + rest;
    let size = base.len() as int;
    let n = mark.len() as int;
    law_find(s, mark);
    law_find(base, mark);
    assert(s.subrange(size, size + n) =~= mark);
    if let Some(i) = find(s, mark) {
        if i < size {
            let there = s.subrange(i, i + n);
            if i + n <= size {
                assert(base.subrange(i, i + n) =~= there);
            } else {
                let k = size - i;
                assert(mark.skip(k) =~= mark.take(n - k)) by {
                    assert forall|j: int| 0 <= j < n - k implies mark.skip(k)[j] == mark.take(
                        n - k,
                    )[j] by {
                        assert(there[k + j] == s[size + j]);
                    }
                }
            }
        }
    }
}

/// Texts joined are the texts one behind the other with the separator between
/// them: joining goes together with putting lists behind one another.
pub proof fn law_join(a: Seq<Seq<char>>, b: Seq<Seq<char>>, sep: Seq<char>)
    ensures
        join(Seq::<Seq<char>>::empty(), sep) == Seq::<char>::empty(),
        a.len() == 1 ==> join(a, sep) == a[0],
        a.len() > 0 && b.len() > 0 ==> join(a + b, sep) == join(a, sep) + sep + join(b, sep),
    decreases b.len(),
{
    if a.len() > 0 && b.len() > 0 {
        assert((a + b).last() == b.last());
        assert((a + b).drop_last() =~= a + b.drop_last());
        if b.len() == 1 {
            assert((a + b).drop_last() =~= a);
        } else {
            law_join(a, b.drop_last(), sep);
            assert(join(a + b, sep) =~= join(a, sep) + sep + join(b, sep));
        }
    }
}

/// The pieces of a text joined with the separator are the text, and no piece
/// has the separator in it.
pub proof fn law_split(s: Seq<char>, sep: char)
    ensures
        split(s, sep).len() > 0,
        join(split(s, sep), seq![sep]) == s,
        forall|k: int|
            0 <= k < split(s, sep).len() ==> !(#[trigger] split(s, sep)[k]).contains(sep),
    decreases s.len(),
{
    if s.len() == 0 {
        assert(join(split(s, sep), seq![sep]) =~= s);
    } else {
        let c = s.last();
        let before = split(s.drop_last(), sep);
        law_split(s.drop_last(), sep);
        assert(s =~= s.drop_last().push(c));
        let parts = split(s, sep);
        if c == sep {
            assert(parts.drop_last() =~= before);
            assert(join(parts, seq![sep]) =~= s);
        } else {
            assert(parts.drop_last() =~= before.drop_last());
            assert(join(parts, seq![sep]) =~= s);
            assert forall|k: int| 0 <= k < parts.len() implies !(#[trigger] parts[k]).contains(
                sep,
            ) by {
                if k < before.len() - 1 {
                    assert(parts[k] == before[k]);
                } else {
                    let last = before.last();
                    assert(last == before[before.len() - 1]);
                    assert forall|j: int| 0 <= j < parts[k].len() implies parts[k][j] != sep by {
                        if j < last.len() {
                            assert(parts[k][j] == last[j]);
                        }
                    }
                }
            }
        }
    }
}

/// Texts that do not have the separator in them are the pieces of what they
/// are joined to.
pub proof fn law_joined_is_split(parts: Seq<Seq<char>>, sep: char)
    requires
        parts.len() > 0,
        forall|k: int| 0 <= k < parts.len() ==> !(#[trigger] parts[k]).contains(sep),
    ensures
        split(join(parts, seq![sep]), sep) == parts,
    decreases parts.len(),
{
    let last = parts.last();
    assert(!parts[parts.len() - 1].contains(sep));
    assert forall|i: int| 0 <= i < last.len() implies last[i] != sep by {
        assert(last.contains(last[i]));
    }
    assert(Seq::<char>::empty() + last =~= last);
    if parts.len() == 1 {
        lemma_split_append(Seq::empty(), last, sep);
        assert(split(last, sep) =~= parts);
    } else {
        let front = parts.drop_last();
        assert forall|k: int| 0 <= k < front.len() implies !(#[trigger] front[k]).contains(
            sep,
        ) by {
            assert(front[k] == parts[k]);
        }
        law_joined_is_split(front, sep);
        let before = join(front, seq![sep]) + seq![sep];
        assert(before.drop_last() =~= join(front, seq![sep]));
        assert(before.last() == sep);
        assert(split(before, sep) == front.push(Seq::empty()));
        lemma_split_append(before, last, sep);
        assert(front.push(Seq::<char>::empty()).drop_last() =~= front);
        assert(split(before + last, sep) =~= parts);
    }
}

/// Lines, each with what ends it, one behind the other.
pub open spec fn ended_lines(lines: Seq<Seq<char>>, ends: Seq<Seq<char>>) -> Seq<char>
    decreases lines.len(),
{
    if lines.len() == 0 {
        Seq::empty()
    } else {
        ended_lines(lines.drop_last(), ends.drop_last()) + lines.last() + ends.last()
    }
}

spec fn end_of(part: Seq<char>) -> Seq<char> {
    if part.len() > 0 && part.last() == '\r' {
        seq!['\r', '\n']
    } else {
        seq!['\n']
    }
}

proof fn lemma_ended_parts(parts: Seq<Seq<char>>)
    requires
        parts.len() > 0,
    ensures
        join(parts, seq!['\n']) == ended_lines(
            parts.drop_last().map_values(|l: Seq<char>| strip_cr(l)),
            parts.drop_last().map_values(|l: Seq<char>| end_of(l)),
        ) + parts.last(),
    decreases parts.len(),
{
    let front = parts.drop_last();
    let stripped = front.map_values(|l: Seq<char>| strip_cr(l));
    let ends = front.map_values(|l: Seq<char>| end_of(l));
    if front.len() == 0 {
        assert(ended_lines(stripped, ends) + parts.last() =~= parts[0]);
    } else {
        lemma_ended_parts(front);
        let last = front.last();
        assert(stripped.drop_last() =~= front.drop_last().map_values(
            |l: Seq<char>| strip_cr(l),
        ));
        assert(ends.drop_last() =~= front.drop_last().map_values(|l: Seq<char>| end_of(l)));
        assert(strip_cr(last) + end_of(last) =~= last + seq!['\n']);
        let before = ended_lines(stripped.drop_last(), ends.drop_last());
        assert(before + strip_cr(last) + end_of(last) =~= before + (strip_cr(last) + end_of(last)));
        assert(join(parts, seq!['\n']) =~= ended_lines(stripped, ends) + parts.last());
    }
}

/// The lines of a text with what ends each of them are the text. A line is
/// ended by a line feed or by a carriage return and a line feed; only the last
/// one may be ended by nothing, and then it is not empty. No line has a line
/// feed in it, nor a carriage return before the line feed that ends it.
pub proof fn law_lines(s: Seq<char>) -> (ends: Seq<Seq<char>>)
    ensures
        ends.len() == lines(s).len(),
        s == ended_lines(lines(s), ends),
        forall|k: int|
            0 <= k < ends.len() ==> {
                &&& !(#[trigger] lines(s)[k]).contains('\n')
                &&& {
                    ||| ends[k] == seq!['\r', '\n']
                    ||| ends[k] == seq!['\n'] && (lines(s)[k].len() > 0 ==> lines(s)[k].last()
                        != '\r')
                    ||| k == ends.len() - 1 && ends[k].len() == 0 && lines(s)[k].len() > 0
                }
            },
{
    let parts = split(s, '\n');
    law_split(s, '\n');
    lemma_ended_parts(parts);
    let front = parts.drop_last();
    let stripped = front.map_values(|l: Seq<char>| strip_cr(l));
    let full = front.map_values(|l: Seq<char>| end_of(l));
    let shown = lines(s);
    let ends = if parts.last().len() == 0 {
        full
    } else {
        full.push(Seq::empty())
    };
    if parts.last().len() == 0 {
        assert(ended_lines(stripped, full) + parts.last() =~= ended_lines(shown, ends));
    } else {
        assert(shown.drop_last() =~= stripped);
        assert(ends.drop_last() =~= full);
        assert(ended_lines(shown, ends) =~= ended_lines(stripped, full) + parts.last());
    }
    assert forall|k: int| 0 <= k < ends.len() implies {
        &&& !(#[trigger] shown[k]).contains('\n')
        &&& {
            ||| ends[k] == seq!['\r', '\n']
            ||| ends[k] == seq!['\n'] && (shown[k].len() > 0 ==> shown[k].last() != '\r')
            ||| k == ends.len() - 1 && ends[k].len() == 0 && shown[k].len() > 0
        }
    } by {
        let part = parts[k];
        assert(!part.contains('\n'));
        if k < front.len() {
            assert(front[k] == part);
            assert(shown[k] == strip_cr(part));
            assert(ends[k] == end_of(part));
            assert forall|j: int| 0 <= j < shown[k].len() implies shown[k][j] != '\n' by {
                assert(shown[k][j] == part[j]);
                assert(part.contains(part[j]));
            }
        } else {
            assert(shown[k] == parts.last());
        }
    }
    ends
}

/// A number in decimal has digits only, no zero in front of others, and denotes
/// the number.
pub proof fn law_decimal(n: nat)
    ensures
        decimal(n).len() > 0,
        forall|i: int| 0 <= i < decimal(n).len() ==> '0' <= #[trigger] decimal(n)[i] <= '9',
        n > 0 ==> decimal(n)[0] != '0',
        decimal_value(decimal(n)) == n,
        n < 10 <==> decimal(n).len() == 1,
    decreases n,
{
    let d = digit_char(n % 10);
    assert(d as nat == 48 + n % 10);
    if n < 10 {
        assert(decimal(n).drop_last() =~= Seq::<char>::empty());
        assert(decimal(n).last() == d);
        assert(decimal_value(decimal(n).drop_last()) == 0);
    } else {
        law_decimal(n / 10);
        assert(decimal(n).drop_last() =~= decimal(n / 10));
        assert(decimal(n).last() == d);
        assert(decimal(n)[0] == decimal(n / 10)[0]);
        assert forall|i: int| 0 <= i < decimal(n).len() implies '0' <= #[trigger] decimal(n)[i]
            <= '9' by {
            if i < decimal(n / 10).len() {
                assert(decimal(n)[i] == decimal(n / 10)[i]);
            }
        }
    }
}

/// A text on one line has as many characters as the text, and each is that of
/// the text, but for line feeds and carriage returns, which are spaces.
pub proof fn law_one_line(s: Seq<char>)
    ensures
        one_line(s).len() == s.len(),
        forall|i: int|
            0 <= i < s.len() ==> #[trigger] one_line(s)[i] == (if s[i] == '\n' || s[i] == '\r' {
                ' '
            } else {
                s[i]
            }),
{
}

/// A number written out is read back, where it may be that large.
pub proof fn law_decimal_is_read_back(n: nat, max: nat)
    ensures
        parse_decimal(decimal(n), max) == if n <= max {
            Some(n)
        } else {
            None
        },
{
    law_decimal(n);
    assert('0' <= decimal(n)[0] <= '9');
    assert(decimal(n)[0] != '+');
    assert(all_digits(decimal(n))) by {
        assert forall|i: int| 0 <= i < decimal(n).len() implies is_digit(
            #[trigger] decimal(n)[i],
        ) by {
            assert('0' <= decimal(n)[i] <= '9');
        }
    }
}

/// What comes after the last of some character is the end of the text behind it,
/// in which it does not stand again.
pub proof fn law_after_last(s: Seq<char>, c: char)
    ensures
        match after_last(s, c) {
            Some(tail) => !tail.contains(c) && tail.len() < s.len() && s.skip(s.len() - tail.len())
                == tail && s[s.len() - tail.len() - 1] == c,
            None => !s.contains(c),
        },
    decreases s.len(),
{
    if s.len() > 0 && s.last() != c {
        let rest = s.drop_last();
        law_after_last(rest, c);
        match after_last(rest, c) {
            Some(tail) => {
                let longer = tail.push(s.last());
                assert(s.skip(s.len() - longer.len()) =~= longer) by {
                    assert forall|i: int| 0 <= i < tail.len() implies s[s.len() - longer.len() + i]
                        == tail[i] by {
                        assert(rest.skip(rest.len() - tail.len())[i] == tail[i]);
                    }
                }
                assert forall|i: int| 0 <= i < longer.len() implies longer[i] != c by {
                    if i < tail.len() {
                        assert(tail.contains(tail[i]));
                    }
                }
            },
            None => {
                assert forall|i: int| 0 <= i < s.len() implies s[i] != c by {
                    if i < rest.len() {
                        assert(rest[i] == s[i]);
                        assert(rest.contains(rest[i]));
                    }
                }
            },
        }
    } else if s.len() > 0 {
        assert(s.skip(s.len() as int) =~= Seq::empty());
    }
}

} // verus!
