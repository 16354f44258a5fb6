//! Conversation messages and the token estimate they are budgeted by.
use crate::json::{Json, JsonView};
use crate::text;
use vstd::prelude::*;
use vstd::string::*;

verus! {

pub const ASCII_CHARS_PER_TOKEN: usize = 4;

// ---------------------------------------------------------------------------
// Token estimate
// ---------------------------------------------------------------------------

/// How many ASCII characters `s` starts with, counted up to `limit`.
pub open spec fn ascii_run(s: Seq<char>, limit: nat) -> nat
    decreases limit,
{
    if limit > 0 && s.len() > 0 && text::is_ascii_char(s[0]) {
        1 + ascii_run(s.skip(1), (limit - 1) as nat)
    } else {
        0
    }
}

/// The length of the first estimated token of a non-empty `s`: consecutive
/// ASCII is grouped four characters at a time, and a partial run and every
/// non-ASCII character each form one token.
pub open spec fn first_token(s: Seq<char>) -> nat {
    if s.len() > 0 && !text::is_ascii_char(s[0]) {
        1
    } else {
        ascii_run(s, ASCII_CHARS_PER_TOKEN as nat)
    }
}

pub proof fn lemma_first_token(s: Seq<char>)
    requires
        s.len() > 0,
    ensures
        1 <= first_token(s) <= s.len(),
{
    reveal_with_fuel(ascii_run, 5);
}

/// The estimated number of tokens of `s`.
pub open spec fn token_count(s: Seq<char>) -> nat
    decreases s.len(),
    via token_count_decreases
{
    if s.len() == 0 {
        0
    } else {
        1 + token_count(s.skip(first_token(s) as int))
    }
}

#[via_fn]
proof fn token_count_decreases(s: Seq<char>) {
    if s.len() > 0 {
        lemma_first_token(s);
    }
}

/// Where token number `k` of `s` starts, counted in characters; the end of
/// `s` where it has no more than `k` tokens.
pub open spec fn token_start(s: Seq<char>, k: nat) -> nat
    decreases k,
{
    if k == 0 || s.len() == 0 {
        0
    } else {
        first_token(s) + token_start(s.skip(first_token(s) as int), (k - 1) as nat)
    }
}

pub proof fn lemma_token_start(s: Seq<char>, k: nat)
    ensures
        token_start(s, k) <= s.len(),
        k >= token_count(s) ==> token_start(s, k) == s.len(),
        k < token_count(s) ==> token_start(s, k) < s.len(),
    decreases k,
{
    if s.len() > 0 {
        lemma_first_token(s);
        if k > 0 {
            lemma_token_start(s.skip(first_token(s) as int), (k - 1) as nat);
        }
    }
}

pub proof fn lemma_token_start_order(s: Seq<char>, j: nat, k: nat)
    requires
        j <= k,
    ensures
        token_start(s, j) <= token_start(s, k),
    decreases j,
{
    if j > 0 && s.len() > 0 {
        lemma_token_start_order(s.skip(first_token(s) as int), (j - 1) as nat, (k - 1) as nat);
    }
}

proof fn lemma_ascii_run(s: Seq<char>, limit: nat)
    ensures
        ascii_run(s, limit) <= limit,
        ascii_run(s, limit) <= s.len(),
        forall|j: int|
            ascii_run(s, limit) <= j <= s.len() ==> ascii_run(#[trigger] s.take(j), limit)
                == ascii_run(s, limit),
    decreases limit,
{
    if limit > 0 && s.len() > 0 && text::is_ascii_char(s[0]) {
        lemma_ascii_run(s.skip(1), (limit - 1) as nat);
        assert forall|j: int| ascii_run(s, limit) <= j <= s.len() implies ascii_run(
            #[trigger] s.take(j),
            limit,
        ) == ascii_run(s, limit) by {
            assert(s.take(j).skip(1) =~= s.skip(1).take(j - 1));
        }
    }
}

/// The first token is that of any longer start of the text.
proof fn lemma_first_token_of_start(s: Seq<char>, n: int)
    requires
        s.len() > 0,
        first_token(s) <= n <= s.len(),
    ensures
        first_token(s.take(n)) == first_token(s),
{
    lemma_first_token(s);
    lemma_ascii_run(s, ASCII_CHARS_PER_TOKEN as nat);
}

/// What comes before a token has as many tokens as its number says, and no
/// more than the text has: token starts are counted by the estimate.
pub proof fn law_token_starts_are_counted(s: Seq<char>, k: nat)
    ensures
        token_start(s, k) <= s.len(),
        token_count(s.take(token_start(s, k) as int)) == min_nat(k, token_count(s)),
        k == 0 ==> token_start(s, k) == 0,
        k >= token_count(s) ==> token_start(s, k) == s.len(),
        forall|j: nat| j <= k ==> #[trigger] token_start(s, j) <= token_start(s, k),
    decreases k,
{
    lemma_token_start(s, k);
    assert forall|j: nat| j <= k implies #[trigger] token_start(s, j) <= token_start(s, k) by {
        lemma_token_start_order(s, j, k);
    }
    if s.len() > 0 && k > 0 {
        lemma_first_token(s);
        let n = first_token(s) as int;
        let rest = s.skip(n);
        let m = token_start(rest, (k - 1) as nat) as int;
        law_token_starts_are_counted(rest, (k - 1) as nat);
        lemma_first_token_of_start(s, n + m);
        assert(s.take(n + m).skip(n) =~= rest.take(m));
    }
}

/// What follows a token start has the tokens that are left, at the places that
/// they have in the whole text.
proof fn lemma_token_rest(s: Seq<char>, a: nat, b: nat)
    requires
        a <= b,
        a <= token_count(s),
    ensures
        token_start(s, a) <= s.len(),
        token_count(s.skip(token_start(s, a) as int)) == token_count(s) - a,
        token_start(s, b) == token_start(s, a) + token_start(
            s.skip(token_start(s, a) as int),
            (b - a) as nat,
        ),
    decreases a,
{
    lemma_token_start(s, a);
    if a == 0 {
        assert(s.skip(0) =~= s);
    } else {
        lemma_first_token(s);
        let n = first_token(s) as int;
        let rest = s.skip(n);
        lemma_token_rest(rest, (a - 1) as nat, (b - 1) as nat);
        let m = token_start(rest, (a - 1) as nat) as int;
        assert(rest.skip(m) =~= s.skip(n + m));
    }
}

/// A window holds as many tokens by the estimate as it has numbers.
pub proof fn law_token_windows_are_counted(s: Seq<char>, start: nat, end: nat)
    requires
        start <= end <= token_count(s),
    ensures
        token_count(token_slice(s, start, end)) == end - start,
{
    lemma_token_rest(s, start, end);
    let from = token_start(s, start) as int;
    let rest = s.skip(from);
    law_token_starts_are_counted(rest, (end - start) as nat);
    assert(token_slice(s, start, end) =~= rest.take(
        token_start(rest, (end - start) as nat) as int,
    ));
}

/// The tokens that `s` adds where the token before it has `open` ASCII
/// characters and takes more; none is open where `open` is 0.
spec fn added_tokens(s: Seq<char>, open: nat) -> nat
    decreases s.len(),
{
    if s.len() == 0 {
        0
    } else if !text::is_ascii_char(s[0]) {
        1 + added_tokens(s.skip(1), 0)
    } else if open == 0 {
        1 + added_tokens(s.skip(1), 1)
    } else if open < 3 {
        added_tokens(s.skip(1), open + 1)
    } else {
        added_tokens(s.skip(1), 0)
    }
}

/// How many characters the last token is open with after `s`.
spec fn open_after(s: Seq<char>, open: nat) -> nat
    decreases s.len(),
{
    if s.len() == 0 {
        open
    } else if !text::is_ascii_char(s[0]) {
        open_after(s.skip(1), 0)
    } else if open < 3 {
        open_after(s.skip(1), open + 1)
    } else {
        open_after(s.skip(1), 0)
    }
}

/// The more room the open token has, the fewer are added, and by one at most.
proof fn lemma_added_tokens_order(s: Seq<char>)
    ensures
        added_tokens(s, 1) <= added_tokens(s, 2) <= added_tokens(s, 3) <= added_tokens(s, 0)
            <= added_tokens(s, 1) + 1,
    decreases s.len(),
{
    if s.len() > 0 {
        lemma_added_tokens_order(s.skip(1));
    }
}

proof fn lemma_added_tokens_join(a: Seq<char>, b: Seq<char>, open: nat)
    requires
        open <= 3,
    ensures
        added_tokens(a + b, open) == added_tokens(a, open) + added_tokens(b, open_after(a, open)),
        open_after(a, open) <= 3,
        a.len() > 0 && open == 0 ==> added_tokens(a, open) >= 1,
    decreases a.len(),
{
    if a.len() == 0 {
        assert(a + b =~= b);
    } else {
        assert((a + b).skip(1) =~= a.skip(1) + b);
        let next = if !text::is_ascii_char(a[0]) || open == 3 {
            0
        } else {
            open + 1
        };
        lemma_added_tokens_join(a.skip(1), b, next);
    }
}

/// An ASCII run that goes on fills the open token first.
proof fn lemma_added_tokens_run(s: Seq<char>, open: nat)
    requires
        1 <= open <= 3,
    ensures
        added_tokens(s, open) == added_tokens(
            s.skip(ascii_run(s, (4 - open) as nat) as int),
            0,
        ),
    decreases 4 - open,
{
    lemma_ascii_run(s, (4 - open) as nat);
    if s.len() > 0 && text::is_ascii_char(s[0]) {
        let n = ascii_run(s, (4 - open) as nat) as int;
        if open < 3 {
            lemma_added_tokens_run(s.skip(1), open + 1);
            assert(s.skip(1).skip(n - 1) =~= s.skip(n));
        } else {
            assert(ascii_run(s.skip(1), 0) == 0);
        }
    } else {
        assert(s.skip(0) =~= s);
    }
}

proof fn lemma_tokens_are_added(s: Seq<char>)
    ensures
        token_count(s) == added_tokens(s, 0),
    decreases s.len(),
{
    if s.len() > 0 {
        lemma_first_token(s);
        let n = first_token(s) as int;
        lemma_tokens_are_added(s.skip(n));
        if text::is_ascii_char(s[0]) {
            lemma_added_tokens_run(s.skip(1), 1);
            assert(s.skip(1).skip(n - 1) =~= s.skip(n));
        }
    }
}

/// The estimate of a text made of two: it is no less than that of either, and
/// no more than both together.
pub proof fn law_estimate_of_joined_texts(a: Seq<char>, b: Seq<char>)
    ensures
        token_count(a) <= token_count(a + b),
        token_count(b) <= token_count(a + b),
        token_count(a + b) <= token_count(a) + token_count(b),
{
    lemma_tokens_are_added(a);
    lemma_tokens_are_added(b);
    lemma_tokens_are_added(a + b);
    lemma_added_tokens_join(a, b, 0);
    lemma_added_tokens_order(b);
}

/// The estimate counts four ASCII characters as a token, and any other
/// character as one; it is nothing only for the empty text.
pub proof fn law_estimate_counts_characters(s: Seq<char>)
    ensures
        token_count(s) <= s.len(),
        token_count(s) == 0 <==> s.len() == 0,
        (forall|i: int| 0 <= i < s.len() ==> text::is_ascii_char(#[trigger] s[i]))
            ==> token_count(s) == (s.len() + 3) / 4,
        (forall|i: int| 0 <= i < s.len() ==> !text::is_ascii_char(#[trigger] s[i]))
            ==> token_count(s) == s.len(),
    decreases s.len(),
{
    if s.len() > 0 {
        lemma_first_token(s);
        let n = first_token(s) as int;
        law_estimate_counts_characters(s.skip(n));
        if forall|i: int| 0 <= i < s.len() ==> text::is_ascii_char(#[trigger] s[i]) {
            lemma_ascii_only_run(s, ASCII_CHARS_PER_TOKEN as nat);
        }
    }
}

proof fn lemma_ascii_only_run(s: Seq<char>, limit: nat)
    requires
        forall|i: int| 0 <= i < s.len() ==> text::is_ascii_char(#[trigger] s[i]),
    ensures
        ascii_run(s, limit) == min_nat(s.len(), limit),
    decreases limit,
{
    if limit > 0 && s.len() > 0 {
        lemma_ascii_only_run(s.skip(1), (limit - 1) as nat);
    }
}

/// The text of the tokens `start..end` of `s`.
pub open spec fn token_slice(s: Seq<char>, start: nat, end: nat) -> Seq<char> {
    s.subrange(token_start(s, start) as int, token_start(s, end) as int)
}

/// Reading a text page by page loses nothing and repeats nothing: two
/// neighbouring token windows joined are the window over both.
pub proof fn law_token_windows_join(s: Seq<char>, a: nat, b: nat, c: nat)
    requires
        a <= b <= c,
    ensures
        token_slice(s, a, b) + token_slice(s, b, c) == token_slice(s, a, c),
{
    lemma_token_start_order(s, a, b);
    lemma_token_start_order(s, b, c);
    lemma_token_start(s, a);
    lemma_token_start(s, c);
    assert(token_slice(s, a, b) + token_slice(s, b, c) =~= token_slice(s, a, c));
}

/// A first page and all that follows it are the whole text.
pub proof fn law_two_pages_are_text(s: Seq<char>, k: nat)
    ensures
        ({
            let cut = min_nat(k, token_count(s));
            token_slice(s, 0, cut) + token_slice(s, cut, token_count(s)) == s
        }),
{
    law_token_windows_join(s, 0, min_nat(k, token_count(s)), token_count(s));
    law_full_window_is_text(s);
}

/// The window over all tokens of a text is the whole text.
pub proof fn law_full_window_is_text(s: Seq<char>)
    ensures
        token_slice(s, 0, token_count(s)) == s,
{
    lemma_token_start(s, token_count(s));
    assert(token_slice(s, 0, token_count(s)) =~= s);
}

/// The number of characters of the token of `chars` that starts at `at`.
fn token_length_at(chars: &Vec<char>, at: usize) -> (n: usize)
    requires
        at < chars@.len(),
    ensures
        n == first_token(chars@.skip(at as int)),
        1 <= n <= chars@.len() - at,
{
    let ghost rest = chars@.skip(at as int);
    proof {
        lemma_first_token(rest);
    }
    let first: u32 = chars[at] as u32;
    if first >= 128 {
        return 1;
    }
    let total: usize = chars.len();
    let mut n: usize = 0;
    assert(rest.skip(0) =~= rest);
    while n < ASCII_CHARS_PER_TOKEN && n < total - at && (chars[at + n] as u32) < 128
        invariant
            n <= ASCII_CHARS_PER_TOKEN,
            at < total == chars@.len(),
            n <= total - at,
            rest == chars@.skip(at as int),
            ascii_run(rest, ASCII_CHARS_PER_TOKEN as nat) == n + ascii_run(
                rest.skip(n as int),
                (ASCII_CHARS_PER_TOKEN - n) as nat,
            ),
        decreases ASCII_CHARS_PER_TOKEN - n,
    {
        assert(rest.skip(n as int)[0] == chars@[at + n]);
        assert(rest.skip(n as int).skip(1) =~= rest.skip(n + 1));
        n = n + 1;
    }
    proof {
        if n < ASCII_CHARS_PER_TOKEN && n < total - at {
            assert(rest.skip(n as int)[0] == chars@[at + n]);
        }
        assert(ascii_run(rest.skip(n as int), (ASCII_CHARS_PER_TOKEN - n) as nat) == 0);
    }
    n
}

/// The estimated number of tokens of `content`, found without a tokenizer.
pub fn estimate_tokens(content: &str) -> (tokens: usize)
    ensures
        tokens == token_count(content@),
{
    let chars = text::chars_of(content);
    let mut tokens: usize = 0;
    let mut at: usize = 0;
    assert(chars@.skip(0) =~= content@);
    while at < chars.len()
        invariant
            chars@ == content@,
            at <= chars@.len(),
            tokens <= at,
            token_count(content@) == tokens + token_count(chars@.skip(at as int)),
        decreases chars@.len() - at,
    {
        let n: usize = token_length_at(&chars, at);
        assert(chars@.skip(at as int).skip(n as int) =~= chars@.skip(at + n));
        at = at + n;
        tokens = tokens + 1;
    }
    tokens
}

/// The character offset at which token number `token_offset` starts.
fn estimated_token_offset(chars: &Vec<char>, token_offset: usize) -> (at: usize)
    ensures
        at == token_start(chars@, token_offset as nat),
        at <= chars@.len(),
{
    let mut tokens: usize = 0;
    let mut at: usize = 0;
    assert(chars@.skip(0) =~= chars@);
    while at < chars.len() && tokens < token_offset
        invariant
            at <= chars@.len(),
            tokens <= token_offset,
            token_start(chars@, token_offset as nat) == at + token_start(
                chars@.skip(at as int),
                (token_offset - tokens) as nat,
            ),
        decreases chars@.len() - at,
    {
        let n: usize = token_length_at(chars, at);
        assert(chars@.skip(at as int).skip(n as int) =~= chars@.skip(at + n));
        at = at + n;
        tokens = tokens + 1;
    }
    at
}

/// A run of whole estimated tokens of some text.
#[derive(Debug, PartialEq, Eq)]
pub struct TokenWindow {
    pub content: String,
    pub start: usize,
    pub end: usize,
    pub total: usize,
}

pub open spec fn min_nat(a: nat, b: nat) -> nat {
    if a <= b {
        a
    } else {
        b
    }
}

/// At most `max_tokens` tokens of `content`, from token number `offset` on.
pub fn token_window(content: &str, offset: usize, max_tokens: usize) -> (window: TokenWindow)
    ensures
        window.total == token_count(content@),
        window.start == min_nat(offset as nat, token_count(content@)),
        window.end == min_nat((offset + max_tokens) as nat, token_count(content@)),
        window.content@ == token_slice(content@, window.start as nat, window.end as nat),
        token_count(window.content@) == window.end - window.start,
{
    let total: usize = estimate_tokens(content);
    let start: usize = if offset < total {
        offset
    } else {
        total
    };
    let limit: usize = offset.saturating_add(max_tokens);
    let end: usize = if limit < total {
        limit
    } else {
        total
    };
    let chars = text::chars_of(content);
    let from: usize = estimated_token_offset(&chars, start);
    let to: usize = estimated_token_offset(&chars, end);
    proof {
        lemma_token_start_order(content@, start as nat, end as nat);
        law_token_windows_are_counted(content@, start as nat, end as nat);
    }
    TokenWindow { content: text::text_range(chars.as_slice(), from, to), start, end, total }
}

// ---------------------------------------------------------------------------
// Messages
// ---------------------------------------------------------------------------

#[derive(Debug, PartialEq, Eq)]
pub struct ToolCall {
    pub id: String,
    pub name: String,
    pub arguments: String,
}

#[derive(Debug, PartialEq, Eq)]
pub enum Message {
    System { content: String },
    User { content: String },
    Assistant {
        content: String,
        thinking: Option<String>,
        tool_calls: Vec<ToolCall>,
        provider_state: Option<Json>,
    },
    Tool { tool_call_id: String, content: String },
}

#[derive(Debug, Clone, Copy, PartialEq, Eq)]
pub struct CompletionUsage {
    pub input_tokens: Option<u64>,
    pub output_tokens: Option<u64>,
}

#[derive(Debug, PartialEq, Eq)]
pub struct AssistantMessage {
    pub content: String,
    pub thinking: Option<String>,
    pub tool_calls: Vec<ToolCall>,
    pub provider_state: Option<Json>,
    pub usage: Option<CompletionUsage>,
}

#[derive(Debug, PartialEq, Eq)]
pub enum PromptOutcome {
    Completed(AssistantMessage),
    Cancelled,
}

/// What a [`ToolCall`] holds.
pub struct ToolCallView {
    pub id: Seq<char>,
    pub name: Seq<char>,
    pub arguments: Seq<char>,
}

/// What a [`Message`] holds.
pub enum MessageView {
    System { content: Seq<char> },
    User { content: Seq<char> },
    Assistant {
        content: Seq<char>,
        thinking: Option<Seq<char>>,
        tool_calls: Seq<ToolCallView>,
        provider_state: Option<JsonView>,
    },
    Tool { tool_call_id: Seq<char>, content: Seq<char> },
}

/// What an [`AssistantMessage`] holds.
#[verifier::ext_equal]
pub struct AssistantView {
    pub content: Seq<char>,
    pub thinking: Option<Seq<char>>,
    pub tool_calls: Seq<ToolCallView>,
    pub provider_state: Option<JsonView>,
    pub usage: Option<CompletionUsage>,
}

impl View for AssistantMessage {
    type V = AssistantView;

    open spec fn view(&self) -> AssistantView {
        AssistantView {
            content: self.content@,
            thinking: text::opt(self.thinking),
            tool_calls: text::views(self.tool_calls@),
            provider_state: text::opt(self.provider_state),
            usage: self.usage,
        }
    }
}

impl View for ToolCall {
    type V = ToolCallView;

    open spec fn view(&self) -> ToolCallView {
        ToolCallView { id: self.id@, name: self.name@, arguments: self.arguments@ }
    }
}

impl View for Message {
    type V = MessageView;

    open spec fn view(&self) -> MessageView {
        match *self {
            Message::System { content } => MessageView::System { content: content@ },
            Message::User { content } => MessageView::User { content: content@ },
            Message::Assistant { content, thinking, tool_calls, provider_state } =>
                MessageView::Assistant {
                content: content@,
                thinking: text::opt(thinking),
                tool_calls: text::views(tool_calls@),
                provider_state: text::opt(provider_state),
            },
            Message::Tool { tool_call_id, content } => MessageView::Tool {
                tool_call_id: tool_call_id@,
                content: content@,
            },
        }
    }
}

impl MessageView {
    pub open spec fn content(self) -> Seq<char> {
        match self {
            MessageView::System { content } => content,
            MessageView::User { content } => content,
            MessageView::Assistant { content, .. } => content,
            MessageView::Tool { content, .. } => content,
        }
    }

    /// The estimated tokens of the text and the tool calls of a message;
    /// thinking and provider state do not count.
    pub open spec fn tokens(self) -> nat {
        match self {
            MessageView::Assistant { content, tool_calls, .. } => token_count(content)
                + calls_tokens(tool_calls),
            _ => token_count(self.content()),
        }
    }
}

pub open spec fn call_tokens(call: ToolCallView) -> nat {
    token_count(call.id) + token_count(call.name) + token_count(call.arguments)
}

pub open spec fn calls_tokens(calls: Seq<ToolCallView>) -> nat
    decreases calls.len(),
{
    if calls.len() == 0 {
        0
    } else {
        calls_tokens(calls.drop_last()) + call_tokens(calls.last())
    }
}

/// A count kept in a `usize`: the largest `usize` stands for anything beyond.
pub open spec fn saturated(n: nat) -> usize {
    if n <= usize::MAX {
        n as usize
    } else {
        usize::MAX
    }
}

impl ToolCall {
    pub fn copy(&self) -> (r: ToolCall)
        ensures
            r@ == self@,
    {
        ToolCall {
            id: self.id.clone(),
            name: self.name.clone(),
            arguments: self.arguments.clone(),
        }
    }
}

/// A copy of each of `calls`.
pub fn copy_calls(calls: &Vec<ToolCall>) -> (r: Vec<ToolCall>)
    ensures
        text::views(r@) == text::views(calls@),
{
    let mut r: Vec<ToolCall> = Vec::new();
    let mut i: usize = 0;
    while i < calls.len()
        invariant
            i <= calls@.len(),
            text::views(r@) == text::views(calls@).take(i as int),
        decreases calls@.len() - i,
    {
        let call = calls[i].copy();
        proof {
            text::lemma_views_push(r@, call);
        }
        r.push(call);
        i = i + 1;
        assert(text::views(r@) =~= text::views(calls@).take(i as int));
    }
    assert(text::views(calls@).take(calls@.len() as int) =~= text::views(calls@));
    r
}

/// A copy of an optional text.
pub fn copy_text(value: &Option<String>) -> (r: Option<String>)
    ensures
        text::opt(r) == text::opt(*value),
        r is Some <==> value is Some,
{
    match value {
        Some(s) => Some(s.clone()),
        None => None,
    }
}

/// A copy of an optional JSON value.
pub fn copy_json(value: &Option<Json>) -> (r: Option<Json>)
    ensures
        text::opt(r) == text::opt(*value),
{
    match value {
        Some(json) => Some(json.copy()),
        None => None,
    }
}

impl Message {
    /// A copy of this message.
    pub fn copy(&self) -> (r: Message)
        ensures
            r@ == self@,
    {
        match self {
            Message::System { content } => Message::System { content: content.clone() },
            Message::User { content } => Message::User { content: content.clone() },
            Message::Assistant { content, thinking, tool_calls, provider_state } =>
                Message::Assistant {
                content: content.clone(),
                thinking: copy_text(thinking),
                tool_calls: copy_calls(tool_calls),
                provider_state: copy_json(provider_state),
            },
            Message::Tool { tool_call_id, content } => Message::Tool {
                tool_call_id: tool_call_id.clone(),
                content: content.clone(),
            },
        }
    }

    /// The text of this message.
    pub fn content(&self) -> (r: &str)
        ensures
            r@ == self@.content(),
    {
        match self {
            Message::System { content } => content.as_str(),
            Message::User { content } => content.as_str(),
            Message::Assistant { content, .. } => content.as_str(),
            Message::Tool { content, .. } => content.as_str(),
        }
    }

    /// Lightweight per-message estimate, used for memory metadata and for the
    /// context budget: the tokens of the text and of the tool calls.
    pub fn token_estimate(&self) -> (tokens: usize)
        ensures
            tokens == saturated(self@.tokens()),
    {
        match self {
            Message::System { content } => estimate_tokens(content.as_str()),
            Message::User { content } => estimate_tokens(content.as_str()),
            Message::Tool { content, .. } => estimate_tokens(content.as_str()),
            Message::Assistant { content, tool_calls, .. } => {
                let mut tokens: usize = estimate_tokens(content.as_str());
                let ghost calls = text::views(tool_calls@);
                let mut i: usize = 0;
                assert(calls.take(0) =~= Seq::<ToolCallView>::empty());
                while i < tool_calls.len()
                    invariant
                        i <= tool_calls@.len(),
                        calls == text::views(tool_calls@),
                        tokens == saturated(
                            token_count(content@) + calls_tokens(calls.take(i as int)),
                        ),
                    decreases tool_calls@.len() - i,
                {
                    let call = &tool_calls[i];
                    assert(calls.take(i as int + 1).drop_last() =~= calls.take(i as int));
                    assert(calls.take(i as int + 1).last() == call@);
                    tokens = tokens.saturating_add(estimate_tokens(call.id.as_str()));
                    tokens = tokens.saturating_add(estimate_tokens(call.name.as_str()));
                    tokens = tokens.saturating_add(estimate_tokens(call.arguments.as_str()));
                    i = i + 1;
                }
                assert(calls.take(calls.len() as int) =~= calls);
                tokens
            },
        }
    }
}

/// What a message counts does not depend on thinking or provider state.
pub proof fn law_thinking_is_free(
    content: Seq<char>,
    tool_calls: Seq<ToolCallView>,
    thinking: Option<Seq<char>>,
    provider_state: Option<JsonView>,
)
    ensures
        (MessageView::Assistant { content, thinking, tool_calls, provider_state }).tokens() == (
        MessageView::Assistant {
            content,
            thinking: None,
            tool_calls,
            provider_state: None,
        }).tokens(),
{
}

/// The calls of a message count one by one: those of two lists together count
/// what each list counts, and one call what its texts count.
pub proof fn law_calls_count_one_by_one(a: Seq<ToolCallView>, b: Seq<ToolCallView>, call: ToolCallView)
    ensures
        calls_tokens(a + b) == calls_tokens(a) + calls_tokens(b),
        calls_tokens(seq![call]) == token_count(call.id) + token_count(call.name) + token_count(
            call.arguments,
        ),
    decreases b.len(),
{
    let one = seq![call];
    assert(one.drop_last() =~= Seq::<ToolCallView>::empty());
    assert(calls_tokens(one.drop_last()) == 0);
    if b.len() == 0 {
        assert(a + b =~= a);
    } else {
        assert((a + b).drop_last() =~= a + b.drop_last());
        assert((a + b).last() == b.last());
        law_calls_count_one_by_one(a, b.drop_last(), call);
    }
}

/// A message counts its text, and an assistant's its calls besides.
pub proof fn law_messages_count_their_text(message: MessageView)
    ensures
        message.tokens() == token_count(message.content()) + (if message is Assistant {
            calls_tokens(message->tool_calls)
        } else {
            0
        }),
{
}

} // verus!
