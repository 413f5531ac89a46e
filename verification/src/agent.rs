//! The decisions of the streaming chat loop: framing the NDJSON stream into
//! lines, folding each chunk into the answer being built (and what to show
//! of it), and reading the tool calls of an answer.
use vstd::prelude::*;
use crate::chat_history::MessageResponse;
use crate::json::{as_array, as_bool, as_str, items_view, member, Json, JsonView};
use crate::text::{chars_of, debug_quote, debug_str, extend_chars, string_of, trim, trim_chars};

verus! {

// ---------------------------------------------------------------------------
// Line framing
// ---------------------------------------------------------------------------

/// The complete lines of `b[start..]` scanning at `i` (each without its
/// `'\n'`), and the incomplete rest.
pub open spec fn split_from(b: Seq<u8>, start: int, i: int) -> (Seq<Seq<u8>>, Seq<u8>)
    decreases b.len() - i,
{
    if i >= b.len() {
        (seq![], b.subrange(start, b.len() as int))
    } else if b[i] == 10u8 {
        let (ls, rest) = split_from(b, i + 1, i + 1);
        (seq![b.subrange(start, i)] + ls, rest)
    } else {
        split_from(b, start, i + 1)
    }
}

/// The complete lines of `b` and what follows the last `'\n'`.
pub open spec fn split_lines(b: Seq<u8>) -> (Seq<Seq<u8>>, Seq<u8>) {
    split_from(b, 0, 0)
}

proof fn lemma_split_from_skip(b: Seq<u8>, start: int, i: int, k: int)
    requires
        0 <= start <= i <= k <= b.len(),
        forall|j: int| i <= j < k ==> b[j] != 10u8,
    ensures
        split_from(b, start, i) == split_from(b, start, k),
    decreases k - i,
{
    if i < k {
        lemma_split_from_skip(b, start, i + 1, k);
    }
}

proof fn lemma_split_from_shift(b: Seq<u8>, d: int, start: int, i: int)
    requires
        0 <= d <= start <= i <= b.len(),
    ensures
        split_from(b, start, i) == split_from(b.skip(d), start - d, i - d),
    decreases b.len() - i,
{
    let t = b.skip(d);
    if i < b.len() {
        assert(t[i - d] == b[i]);
        if b[i] == 10u8 {
            lemma_split_from_shift(b, d, i + 1, i + 1);
            assert(t.subrange(start - d, i - d) == b.subrange(start, i));
        } else {
            lemma_split_from_shift(b, d, start, i + 1);
        }
    } else {
        assert(t.subrange(start - d, t.len() as int) == b.subrange(start, b.len() as int));
    }
}

/// Bytes without a line ending complete no line.
proof fn lemma_split_single(a: Seq<u8>)
    requires
        forall|j: int| 0 <= j < a.len() ==> a[j] != 10u8,
    ensures
        split_lines(a) == (Seq::<Seq<u8>>::empty(), a),
{
    lemma_split_from_skip(a, 0, 0, a.len() as int);
    assert(a.subrange(0, a.len() as int) == a);
}

/// The first line of `a + "\n" + c` is `a`.
proof fn lemma_split_cons(a: Seq<u8>, c: Seq<u8>)
    requires
        forall|j: int| 0 <= j < a.len() ==> a[j] != 10u8,
    ensures
        split_lines(a + seq![10u8] + c) == (seq![a] + split_lines(c).0, split_lines(c).1),
{
    let s = a + seq![10u8] + c;
    assert forall|j: int| 0 <= j < a.len() implies s[j] != 10u8 by {
        assert(s[j] == a[j]);
    }
    lemma_split_from_skip(s, 0, 0, a.len() as int);
    assert(s[a.len() as int] == 10u8);
    assert(s.subrange(0, a.len() as int) == a);
    let n = a.len() as int;
    lemma_split_from_shift(s, n + 1, n + 1, n + 1);
    assert(s.skip(n + 1) == c);
}

/// Splitting `x + y` is splitting `x`, then splitting its rest with `y`.
pub proof fn lemma_split_append(x: Seq<u8>, y: Seq<u8>)
    ensures
        split_lines(x + y) == (
            split_lines(x).0 + split_lines(split_lines(x).1 + y).0,
            split_lines(split_lines(x).1 + y).1,
        ),
    decreases x.len(),
{
    if exists|k: int| 0 <= k < x.len() && x[k] == 10u8 {
        let k0 = choose|k: int| 0 <= k < x.len() && x[k] == 10u8;
        let k = lemma_first_byte(x, k0);
        let a = x.take(k);
        let x2 = x.skip(k + 1);
        assert forall|j: int| 0 <= j < a.len() implies a[j] != 10u8 by {
            assert(a[j] == x[j]);
        }
        assert(x == a + seq![10u8] + x2);
        assert(x + y == a + seq![10u8] + (x2 + y));
        lemma_split_cons(a, x2);
        lemma_split_cons(a, x2 + y);
        lemma_split_append(x2, y);
        let (l2, r2) = split_lines(x2);
        assert(seq![a] + l2 + split_lines(r2 + y).0 =~= seq![a] + (l2 + split_lines(r2 + y).0));
    } else {
        lemma_split_single(x);
        assert(Seq::<Seq<u8>>::empty() + split_lines(x + y).0 =~= split_lines(x + y).0);
    }
}

proof fn lemma_first_byte(x: Seq<u8>, k: int) -> (first: int)
    requires
        0 <= k < x.len(),
        x[k] == 10u8,
    ensures
        0 <= first <= k,
        x[first] == 10u8,
        forall|j: int| 0 <= j < first ==> x[j] != 10u8,
    decreases k,
{
    if exists|j: int| 0 <= j < k && x[j] == 10u8 {
        let j = choose|j: int| 0 <= j < k && x[j] == 10u8;
        lemma_first_byte(x, j)
    } else {
        k
    }
}

/// Feeding the stream in two chunks hands out the same lines, and keeps the
/// same rest, as feeding both at once: a chunk may end anywhere, even
/// inside a line.
pub proof fn lemma_chunks_independent(held: Seq<u8>, a: Seq<u8>, b: Seq<u8>)
    ensures
        ({
            let (l1, r1) = split_lines(held + a);
            let (l2, r2) = split_lines(r1 + b);
            (l1 + l2, r2) == split_lines(held + a + b)
        }),
{
    lemma_split_append(held + a, b);
}

/// Bytes of the stream that do not yet end a line.
pub struct LineBuffer {
    buf: Vec<u8>,
}

impl View for LineBuffer {
    type V = Seq<u8>;

    closed spec fn view(&self) -> Seq<u8> {
        self.buf@
    }
}

pub open spec fn byte_lines_view(v: Seq<Vec<u8>>) -> Seq<Seq<u8>> {
    v.map_values(|l: Vec<u8>| l@)
}

impl LineBuffer {
    /// An empty buffer.
    pub fn new() -> (r: LineBuffer)
        ensures
            r@ == Seq::<u8>::empty(),
    {
        LineBuffer { buf: Vec::new() }
    }

    /// Takes more bytes of the stream; hands out the lines they complete.
    pub fn push(&mut self, bytes: &[u8]) -> (r: Vec<Vec<u8>>)
        ensures
            (byte_lines_view(r@), final(self)@) == split_lines(old(self)@ + bytes@),
    {
        let mut all: Vec<u8> = Vec::new();
        let mut k: usize = 0;
        while k < self.buf.len()
            invariant
                k <= self.buf.len(),
                all@ == self.buf@.take(k as int),
            decreases self.buf.len() - k,
        {
            all.push(self.buf[k]);
            assert(self.buf@.take(k + 1) == self.buf@.take(k as int).push(self.buf@[k as int]));
            k = k + 1;
        }
        let mut k: usize = 0;
        let ghost head = all@;
        while k < bytes.len()
            invariant
                k <= bytes.len(),
                all@ == head + bytes@.take(k as int),
            decreases bytes.len() - k,
        {
            all.push(bytes[k]);
            assert(bytes@.take(k + 1) == bytes@.take(k as int).push(bytes@[k as int]));
            k = k + 1;
        }
        assert(self.buf@.take(self.buf@.len() as int) == self.buf@);
        assert(bytes@.take(bytes@.len() as int) == bytes@);
        let ghost whole = all@;
        let mut lines: Vec<Vec<u8>> = Vec::new();
        let mut start: usize = 0;
        let mut i: usize = 0;
        assert(byte_lines_view(lines@) =~= Seq::<Seq<u8>>::empty());
        while i < all.len()
            invariant
                start <= i <= all.len(),
                whole == all@,
                ({
                    let (ls, rest) = split_from(whole, start as int, i as int);
                    (byte_lines_view(lines@) + ls, rest) == split_lines(whole)
                }),
            decreases all.len() - i,
        {
            if all[i] == 10u8 {
                let mut line: Vec<u8> = Vec::new();
                let mut j = start;
                while j < i
                    invariant
                        start <= j <= i < all.len(),
                        line@ == all@.subrange(start as int, j as int),
                    decreases i - j,
                {
                    line.push(all[j]);
                    assert(all@.subrange(start as int, j + 1) == all@.subrange(start as int, j as int).push(
                        all@[j as int],
                    ));
                    j = j + 1;
                }
                let ghost before = byte_lines_view(lines@);
                lines.push(line);
                assert(byte_lines_view(lines@) =~= before.push(all@.subrange(start as int, i as int)));
                let ghost (ls, rest) = split_from(whole, i + 1, i + 1);
                assert(split_from(whole, start as int, i as int) == (
                    seq![whole.subrange(start as int, i as int)] + ls,
                    rest,
                ));
                assert(before + (seq![whole.subrange(start as int, i as int)] + ls) =~= before.push(
                    whole.subrange(start as int, i as int),
                ) + ls);
                i = i + 1;
                start = i;
            } else {
                i = i + 1;
            }
        }
        let mut rest: Vec<u8> = Vec::new();
        let mut j = start;
        while j < all.len()
            invariant
                start <= j <= all.len(),
                rest@ == all@.subrange(start as int, j as int),
            decreases all.len() - j,
        {
            rest.push(all[j]);
            assert(all@.subrange(start as int, j + 1) == all@.subrange(start as int, j as int).push(
                all@[j as int],
            ));
            j = j + 1;
        }
        self.buf = rest;
        assert(byte_lines_view(lines@) + Seq::<Seq<u8>>::empty() == byte_lines_view(lines@));
        lines
    }

    /// The bytes after the last line ending, once the stream has ended.
    pub fn remainder(&self) -> (r: Vec<u8>)
        ensures
            r@ == self@,
    {
        let mut r: Vec<u8> = Vec::new();
        let mut k: usize = 0;
        while k < self.buf.len()
            invariant
                k <= self.buf.len(),
                r@ == self.buf@.take(k as int),
            decreases self.buf.len() - k,
        {
            r.push(self.buf[k]);
            assert(self.buf@.take(k + 1) == self.buf@.take(k as int).push(self.buf@[k as int]));
            k = k + 1;
        }
        assert(self.buf@.take(self.buf@.len() as int) == self.buf@);
        r
    }
}

/// What `String::from_utf8_lossy` decodes from bytes: the UTF-8 text, each
/// invalid sequence replaced by U+FFFD.
pub uninterp spec fn utf8_lossy(b: Seq<u8>) -> Seq<char>;

/// `String::from_utf8_lossy`. Trusted to depend on the bytes alone.
#[verifier::external_body]
fn decode_lossy(b: &[u8]) -> (r: String)
    ensures
        r@ == utf8_lossy(b@),
{
    String::from_utf8_lossy(b).into_owned()
}

/// The text of a line of the stream: decoded, white space trimmed.
pub fn line_text(line: &[u8]) -> (r: String)
    ensures
        r@ == trim(utf8_lossy(line@)),
{
    let s = decode_lossy(line);
    string_of(&trim_chars(&chars_of(s.as_str())))
}

// ---------------------------------------------------------------------------
// Folding stream chunks
// ---------------------------------------------------------------------------

/// The answer being built from the stream, and whether the thinking or the
/// answer is being shown.
pub struct StreamState {
    pub content: String,
    pub thinking: String,
    pub tool_calls: Vec<Json>,
    pub is_thinking: bool,
    pub is_answering: bool,
}

/// The mathematical form of a stream state.
pub struct StreamView {
    pub content: Seq<char>,
    pub thinking: Seq<char>,
    pub tool_calls: Seq<JsonView>,
    pub is_thinking: bool,
    pub is_answering: bool,
}

impl View for StreamState {
    type V = StreamView;

    open spec fn view(&self) -> StreamView {
        StreamView {
            content: self.content@,
            thinking: self.thinking@,
            tool_calls: items_view(self.tool_calls@),
            is_thinking: self.is_thinking,
            is_answering: self.is_answering,
        }
    }
}

/// The colour that thinking is shown in.
pub open spec fn thinking_colour() -> Seq<char> {
    "\x1b[38;2;10;140;75m"@
}

/// The end of the thinking colour, and a blank line.
pub open spec fn thinking_end() -> Seq<char> {
    "\x1b[0m\n\n"@
}

/// The state after a chunk with the given fields, and the text to show.
pub open spec fn chunk_step(
    st: StreamView,
    thinking: Option<Seq<char>>,
    content: Option<Seq<char>>,
    done: Option<bool>,
    calls: Option<Seq<JsonView>>,
) -> (StreamView, Seq<char>) {
    let (s1, out1) = match thinking {
        Some(t) => if t.len() > 0 {
            if !st.is_thinking {
                (
                    StreamView { is_thinking: true, thinking: st.thinking + t, ..st },
                    thinking_colour() + t,
                )
            } else {
                (StreamView { thinking: st.thinking + t, ..st }, t)
            }
        } else {
            (st, seq![])
        },
        None => if st.is_thinking {
            (StreamView { is_thinking: false, ..st }, thinking_end())
        } else {
            (st, seq![])
        },
    };
    let (s2, out2) = match content {
        Some(c) => if c.len() > 0 {
            (StreamView { is_answering: true, content: s1.content + c, ..s1 }, out1 + c)
        } else {
            (s1, out1)
        },
        None => if s1.is_answering {
            (StreamView { is_answering: false, ..s1 }, out1 + "\n\n"@)
        } else {
            (s1, out1)
        },
    };
    let out3 = if done == Some(true) && s2.is_answering {
        out2 + "\n"@
    } else {
        out2
    };
    let s3 = match calls {
        Some(cs) => StreamView { tool_calls: s2.tool_calls + cs, ..s2 },
        None => s2,
    };
    (s3, out3)
}

/// The fields of a stream chunk that the fold reads.
pub open spec fn chunk_fields(j: JsonView) -> (
    Option<Seq<char>>,
    Option<Seq<char>>,
    Option<bool>,
    Option<Seq<JsonView>>,
) {
    let m = member(j, "message"@);
    (
        as_str(member(m, "thinking"@)),
        as_str(member(m, "content"@)),
        as_bool(member(j, "done"@)),
        as_array(member(m, "tool_calls"@)),
    )
}

/// The state after a chunk, and the text to show.
pub open spec fn process_spec(st: StreamView, j: JsonView) -> (StreamView, Seq<char>) {
    let (t, c, d, calls) = chunk_fields(j);
    chunk_step(st, t, c, d, calls)
}

/// The characters of an optional string.
pub open spec fn opt_chars(s: Option<String>) -> Option<Seq<char>> {
    match s {
        Some(x) => Some(x@),
        None => None,
    }
}

/// Appends the values of `src` to `dst`.
pub fn append_jsons(dst: &mut Vec<Json>, src: Vec<Json>)
    ensures
        items_view(final(dst)@) == items_view(old(dst)@) + items_view(src@),
{
    let n = src.len();
    let mut rest = src;
    let ghost sv = items_view(src@);
    let ghost before = items_view(dst@);
    let mut i: usize = 0;
    proof {
        crate::json::lemma_items_view(src@);
    }
    assert(sv.take(0) =~= Seq::<JsonView>::empty());
    while i < n
        invariant
            i <= n,
            sv.len() == n,
            rest@.len() == n - i,
            forall|k: int| 0 <= k < rest@.len() ==> (#[trigger] rest@[k])@ == sv[i + k],
            items_view(dst@) == before + sv.take(i as int),
        decreases n - i,
    {
        let ghost tv = items_view(dst@);
        let ghost old_dst = dst@;
        let ghost old_rest = rest@;
        let x = rest.remove(0);
        assert(x@ == old_rest[0]@);
        dst.push(x);
        assert(dst@.drop_last() =~= old_dst);
        assert(items_view(dst@) == tv.push(x@));
        assert(sv.take(i + 1) =~= sv.take(i as int).push(sv[i as int]));
        assert forall|k: int| 0 <= k < rest@.len() implies (#[trigger] rest@[k])@ == sv[i + 1 + k] by {
            assert(rest@[k] == old_rest[k + 1]);
        }
        i = i + 1;
    }
    assert(sv.take(n as int) =~= sv);
}

fn str_member(j: Option<&Json>) -> (r: Option<String>)
    ensures
        match j {
            Some(v) => match as_str(v@) {
                Some(s) => r matches Some(x) && x@ == s,
                None => r is None,
            },
            None => r is None,
        },
{
    match j {
        Some(v) => v.as_string(),
        None => None,
    }
}

impl StreamState {
    /// Nothing received yet.
    pub fn new() -> (r: StreamState)
        ensures
            r@ == (StreamView {
                content: seq![],
                thinking: seq![],
                tool_calls: seq![],
                is_thinking: false,
                is_answering: false,
            }),
    {
        let r = StreamState {
            content: String::new(),
            thinking: String::new(),
            tool_calls: Vec::new(),
            is_thinking: false,
            is_answering: false,
        };
        assert(items_view(r.tool_calls@) =~= Seq::<JsonView>::empty());
        r
    }

    /// Folds a chunk with the given fields into the answer; returns the text
    /// to show.
    pub fn apply_chunk(
        &mut self,
        thinking: Option<String>,
        content: Option<String>,
        done: Option<bool>,
        calls: Option<Vec<Json>>,
    ) -> (r: String)
        ensures
            (final(self)@, r@) == chunk_step(
                old(self)@,
                opt_chars(thinking),
                opt_chars(content),
                done,
                match calls {
                    Some(cs) => Some(items_view(cs@)),
                    None => None,
                },
            ),
    {
        let mut out: Vec<char> = Vec::new();
        match thinking {
            Some(t) => {
                if !t.as_str().is_empty() {
                    if !self.is_thinking {
                        self.is_thinking = true;
                        extend_chars(&mut out, &chars_of("\x1b[38;2;10;140;75m"));
                    }
                    let mut th = chars_of(self.thinking.as_str());
                    let tc = chars_of(t.as_str());
                    extend_chars(&mut th, &tc);
                    self.thinking = string_of(&th);
                    extend_chars(&mut out, &tc);
                }
            },
            None => {
                if self.is_thinking {
                    self.is_thinking = false;
                    extend_chars(&mut out, &chars_of("\x1b[0m\n\n"));
                }
            },
        }
        match content {
            Some(c) => {
                if !c.as_str().is_empty() {
                    self.is_answering = true;
                    let mut co = chars_of(self.content.as_str());
                    let cc = chars_of(c.as_str());
                    extend_chars(&mut co, &cc);
                    self.content = string_of(&co);
                    extend_chars(&mut out, &cc);
                }
            },
            None => {
                if self.is_answering {
                    self.is_answering = false;
                    extend_chars(&mut out, &chars_of("\n\n"));
                }
            },
        }
        if done == Some(true) && self.is_answering {
            extend_chars(&mut out, &chars_of("\n"));
        }
        match calls {
            Some(cs) => {
                append_jsons(&mut self.tool_calls, cs);
            },
            None => {},
        }
        string_of(&out)
    }

    /// Folds one chunk of the stream into the answer; returns the text to show.
    pub fn process_json(&mut self, json: &Json) -> (r: String)
        ensures
            (final(self)@, r@) == process_spec(old(self)@, json@),
    {
        let message = json.member("message");
        let (thinking, content, calls) = match message {
            Some(m) => (str_member(m.member("thinking")), str_member(m.member("content")), match m.member(
                "tool_calls",
            ) {
                Some(tc) => tc.array_items(),
                None => None,
            }),
            None => (None, None, None),
        };
        let done = match json.member("done") {
            Some(d) => d.as_bool(),
            None => None,
        };
        proof {
            let mv = member(json@, "message"@);
            if message is None {
                assert(member(mv, "thinking"@) == JsonView::Null);
                assert(member(mv, "content"@) == JsonView::Null);
                assert(member(mv, "tool_calls"@) == JsonView::Null);
            }
        }
        self.apply_chunk(thinking, content, done, calls)
    }

    /// The answer of the model once the stream has ended.
    pub fn into_response(self) -> (r: MessageResponse)
        ensures
            r.content@ == self@.content,
            items_view(r.tool_calls@) == self@.tool_calls,
    {
        MessageResponse { content: self.content, tool_calls: self.tool_calls }
    }
}

// ---------------------------------------------------------------------------
// Tool calls
// ---------------------------------------------------------------------------

/// `call["function"]["name"]` as a string, if it is one.
pub open spec fn tool_call_name_spec(call: JsonView) -> Option<Seq<char>> {
    as_str(member(member(call, "function"@), "name"@))
}

/// `call["function"]["arguments"]`.
pub open spec fn tool_call_arguments_spec(call: JsonView) -> JsonView {
    member(member(call, "function"@), "arguments"@)
}

/// The name of the tool that a tool call asks for.
pub fn tool_call_name(call: &Json) -> (r: Option<String>)
    ensures
        match tool_call_name_spec(call@) {
            Some(s) => r matches Some(x) && x@ == s,
            None => r is None,
        },
{
    match call.member("function") {
        Some(f) => str_member(f.member("name")),
        None => {
            assert(member(JsonView::Null, "name"@) == JsonView::Null);
            None
        },
    }
}

/// The arguments of a tool call (`null` when it has none).
pub fn tool_call_arguments(call: &Json) -> (r: Json)
    ensures
        r@ == tool_call_arguments_spec(call@),
{
    match call.member("function") {
        Some(f) => match f.member("arguments") {
            Some(a) => a.copy(),
            None => Json::Null,
        },
        None => {
            assert(member(JsonView::Null, "arguments"@) == JsonView::Null);
            Json::Null
        },
    }
}

/// A tool run that the model asks for: the tool's name, when the call gives
/// one as a string, and the arguments to run it with.
pub struct ToolRequest {
    pub name: Option<String>,
    pub arguments: Json,
}

/// The tool runs that an answer asks for, in the order of its tool calls;
/// none at all when it calls no tool, which ends the turn.
pub open spec fn requests_spec(calls: Seq<JsonView>) -> Option<Seq<(Option<Seq<char>>, JsonView)>> {
    if calls.len() == 0 {
        None
    } else {
        Some(calls.map_values(|c: JsonView| (tool_call_name_spec(c), tool_call_arguments_spec(c))))
    }
}

pub open spec fn request_view(r: ToolRequest) -> (Option<Seq<char>>, JsonView) {
    (opt_chars(r.name), r.arguments@)
}

/// What the agent does after an answer: the turn ends when the model called
/// no tool (`None`); else the tools it asked for are run, in order.
pub fn tool_requests(message: &MessageResponse) -> (r: Option<Vec<ToolRequest>>)
    ensures
        match requests_spec(items_view(message.tool_calls@)) {
            None => r is None,
            Some(rs) => r matches Some(v) && v@.map_values(|x: ToolRequest| request_view(x)) == rs,
        },
{
    let calls = &message.tool_calls;
    proof {
        crate::json::lemma_items_view(calls@);
    }
    if calls.len() == 0 {
        return None;
    }
    let ghost cv = items_view(calls@);
    let ghost want = cv.map_values(|c: JsonView| (tool_call_name_spec(c), tool_call_arguments_spec(c)));
    let mut out: Vec<ToolRequest> = Vec::new();
    let mut i: usize = 0;
    while i < calls.len()
        invariant
            i <= calls.len(),
            cv == items_view(calls@),
            cv.len() == calls@.len(),
            forall|k: int| 0 <= k < calls@.len() ==> #[trigger] cv[k] == calls@[k]@,
            want == cv.map_values(|c: JsonView| (tool_call_name_spec(c), tool_call_arguments_spec(c))),
            out@.map_values(|x: ToolRequest| request_view(x)) == want.take(i as int),
        decreases calls.len() - i,
    {
        let name = tool_call_name(&calls[i]);
        let arguments = tool_call_arguments(&calls[i]);
        let ghost before = out@.map_values(|x: ToolRequest| request_view(x));
        let req = ToolRequest { name, arguments };
        assert(request_view(req) == want[i as int]) by {
            assert(cv[i as int] == calls@[i as int]@);
            match tool_call_name_spec(calls@[i as int]@) {
                Some(x) => {},
                None => {},
            }
        }
        out.push(req);
        assert(out@.map_values(|x: ToolRequest| request_view(x)) =~= before.push(want[i as int]));
        assert(want.take(i + 1) =~= want.take(i as int).push(want[i as int]));
        i = i + 1;
    }
    assert(want.take(calls.len() as int) =~= want);
    Some(out)
}

/// The answer given to the model for a tool that is not registered.
pub open spec fn tool_not_found_spec(name: Seq<char>) -> Seq<char> {
    "Error: Tool '"@ + name + "' not found in registry"@
}

/// The answer given to the model for a tool that is not registered.
pub fn tool_not_found(name: &str) -> (r: String)
    ensures
        r@ == tool_not_found_spec(name@),
{
    let mut out = chars_of("Error: Tool '");
    extend_chars(&mut out, &chars_of(name));
    extend_chars(&mut out, &chars_of("' not found in registry"));
    string_of(&out)
}

// ---------------------------------------------------------------------------
// The answer of a whole stream
// ---------------------------------------------------------------------------

/// The bytes of the chunks, one after the other.
pub open spec fn concat_chunks(cs: Seq<Seq<u8>>) -> Seq<u8>
    decreases cs.len(),
{
    if cs.len() == 0 {
        seq![]
    } else {
        cs[0] + concat_chunks(cs.drop_first())
    }
}

/// The lines that a buffer holding `held` hands out as the chunks `cs`
/// arrive, one push each, and what it holds at the end.
pub open spec fn chunk_lines(held: Seq<u8>, cs: Seq<Seq<u8>>) -> (Seq<Seq<u8>>, Seq<u8>)
    decreases cs.len(),
{
    if cs.len() == 0 {
        (seq![], held)
    } else {
        let (l, r) = split_lines(held + cs[0]);
        let (l2, r2) = chunk_lines(r, cs.drop_first());
        (l + l2, r2)
    }
}

// ---------------------------------------------------------------------------
// Reading JSON
// ---------------------------------------------------------------------------

/// What `serde_json::from_str::<serde_json::Value>` reads from a text: the
/// value, or the text of the error (serde_json's `Display` of it, which
/// names what went wrong and where).
pub uninterp spec fn json_read(t: Seq<char>) -> Result<JsonView, Seq<char>>;

/// The JSON value type of serde_json.
#[verifier::external_type_specification]
#[verifier::external_body]
pub struct ExJsonValue(serde_json::Value);

/// Rewrites a serde_json value as the library's value, variant for variant:
/// numbers keep their written form and objects their entries. The wrapper
/// `parse_json` converts its result with it.
#[verifier::external_body]
fn json_of_value(v: serde_json::Value) -> Json {
    match v {
        serde_json::Value::Null => Json::Null,
        serde_json::Value::Bool(b) => Json::Bool(b),
        serde_json::Value::Number(n) => Json::Number(n.to_string()),
        serde_json::Value::String(s) => Json::Str(s),
        serde_json::Value::Array(a) => Json::Array(a.into_iter().map(json_of_value).collect()),
        serde_json::Value::Object(m) => Json::Object(m.into_iter().map(|(k, x)| (k, json_of_value(x))).collect()),
    }
}

/// `serde_json::from_str::<serde_json::Value>`: the JSON value of a text, or
/// the text of the error. Trusted to depend on the text alone.
#[verifier::external_body]
pub fn parse_json(t: &str) -> (r: Result<Json, String>)
    ensures
        match json_read(t@) {
            Ok(j) => r matches Ok(x) && x@ == j,
            Err(e) => r matches Err(x) && x@ == e,
        },
{
    serde_json::from_str::<serde_json::Value>(t).map(json_of_value).map_err(|e| e.to_string())
}

// ---------------------------------------------------------------------------
// Folding the stream
// ---------------------------------------------------------------------------

/// The note shown for a line that is not JSON.
pub open spec fn decode_error_note(e: Seq<char>) -> Seq<char> {
    "... couldn't decode JSON: "@ + e + "\n"@
}

/// The note shown for a complete line that is skipped.
pub open spec fn skip_note(t: Seq<char>) -> Seq<char> {
    "... skipping line "@ + debug_str(t) + "\n"@
}

/// One line of the stream: decoded and trimmed; a blank one is passed over,
/// a JSON one is folded in, and any other is reported (`noted` adds which
/// line was skipped). The state after it, and the text to show.
pub open spec fn line_step(st: StreamView, raw: Seq<u8>, noted: bool) -> (StreamView, Seq<char>) {
    let t = trim(utf8_lossy(raw));
    if t.len() == 0 {
        (st, seq![])
    } else {
        match json_read(t) {
            Ok(j) => process_spec(st, j),
            Err(e) => (st, decode_error_note(e) + if noted {
                skip_note(t)
            } else {
                seq![]
            }),
        }
    }
}

/// The complete lines `ls`, one after the other: the state after them, and
/// the text shown.
pub open spec fn fold_lines(st: StreamView, ls: Seq<Seq<u8>>) -> (StreamView, Seq<char>)
    decreases ls.len(),
{
    if ls.len() == 0 {
        (st, seq![])
    } else {
        let (s1, o1) = fold_lines(st, ls.drop_last());
        let (s2, o2) = line_step(s1, ls.last(), true);
        (s2, o1 + o2)
    }
}

/// What is left in the buffer once the stream has ended, folded in.
pub open spec fn finish_spec(st: StreamView, rest: Seq<u8>) -> (StreamView, Seq<char>) {
    if rest.len() == 0 {
        (st, seq![])
    } else {
        line_step(st, rest, false)
    }
}

/// Feeding the chunks `cs` one after the other, from the state `st` and a
/// buffer holding `held`: the state, what the buffer holds, and the text shown.
pub open spec fn feed_chunks(st: StreamView, held: Seq<u8>, cs: Seq<Seq<u8>>) -> (StreamView, Seq<u8>, Seq<char>)
    decreases cs.len(),
{
    if cs.len() == 0 {
        (st, held, seq![])
    } else {
        let (ls, r) = split_lines(held + cs[0]);
        let (s1, o1) = fold_lines(st, ls);
        let (s2, r2, o2) = feed_chunks(s1, r, cs.drop_first());
        (s2, r2, o1 + o2)
    }
}

/// The state before anything is received.
pub open spec fn stream_start() -> StreamView {
    StreamView { content: seq![], thinking: seq![], tool_calls: seq![], is_thinking: false, is_answering: false }
}

/// A stream that arrives as the chunks `cs`, fed to a new state and buffer
/// and then finished: the answer's state and all the text shown.
pub open spec fn stream_answer(cs: Seq<Seq<u8>>) -> (StreamView, Seq<char>) {
    let (s, rest, o) = feed_chunks(stream_start(), seq![], cs);
    let (s2, o2) = finish_spec(s, rest);
    (s2, o + o2)
}

impl StreamState {
    fn take_line(&mut self, raw: &[u8], noted: bool) -> (r: String)
        ensures
            (final(self)@, r@) == line_step(old(self)@, raw@, noted),
    {
        let t = line_text(raw);
        if t.as_str().is_empty() {
            return String::new();
        }
        match parse_json(t.as_str()) {
            Ok(j) => self.process_json(&j),
            Err(e) => {
                let mut out = chars_of("... couldn't decode JSON: ");
                extend_chars(&mut out, &chars_of(e.as_str()));
                extend_chars(&mut out, &chars_of("\n"));
                if noted {
                    extend_chars(&mut out, &chars_of("... skipping line "));
                    extend_chars(&mut out, &chars_of(debug_quote(t.as_str()).as_str()));
                    extend_chars(&mut out, &chars_of("\n"));
                }
                string_of(&out)
            },
        }
    }

    /// Frames one chunk of the stream and folds in each complete line;
    /// returns the text to show.
    pub fn feed(&mut self, buffer: &mut LineBuffer, bytes: &[u8]) -> (r: String)
        ensures
            final(buffer)@ == split_lines(old(buffer)@ + bytes@).1,
            (final(self)@, r@) == fold_lines(old(self)@, split_lines(old(buffer)@ + bytes@).0),
    {
        let lines = buffer.push(bytes);
        let ghost st0 = self@;
        let ghost bl = byte_lines_view(lines@);
        let mut out: Vec<char> = Vec::new();
        let mut i: usize = 0;
        assert(bl.take(0) =~= Seq::<Seq<u8>>::empty());
        while i < lines.len()
            invariant
                i <= lines.len(),
                bl == byte_lines_view(lines@),
                (self@, out@) == fold_lines(st0, bl.take(i as int)),
            decreases lines.len() - i,
        {
            assert(bl.take(i + 1).drop_last() =~= bl.take(i as int));
            assert(bl[i as int] == lines@[i as int]@);
            let shown = self.take_line(&lines[i], true);
            extend_chars(&mut out, &chars_of(shown.as_str()));
            i = i + 1;
        }
        assert(bl.take(lines.len() as int) =~= bl);
        string_of(&out)
    }

    /// Folds in what is left in the buffer once the stream has ended;
    /// returns the answer and the text to show.
    pub fn finish(self, buffer: &LineBuffer) -> (r: (MessageResponse, String))
        ensures
            r.0.content@ == finish_spec(self@, buffer@).0.content,
            items_view(r.0.tool_calls@) == finish_spec(self@, buffer@).0.tool_calls,
            r.1@ == finish_spec(self@, buffer@).1,
    {
        let mut st = self;
        let rest = buffer.remainder();
        let shown = if rest.len() == 0 {
            String::new()
        } else {
            st.take_line(&rest, false)
        };
        (st.into_response(), shown)
    }
}

/// What is left after the last line ending holds no line ending.
proof fn lemma_split_rest(b: Seq<u8>, start: int, i: int)
    requires
        0 <= start <= i <= b.len(),
        forall|j: int| start <= j < i ==> b[j] != 10u8,
    ensures
        forall|k: int| 0 <= k < split_from(b, start, i).1.len() ==> #[trigger] split_from(b, start, i).1[k] != 10u8,
    decreases b.len() - i,
{
    if i < b.len() {
        if b[i] == 10u8 {
            lemma_split_rest(b, i + 1, i + 1);
            assert(split_from(b, start, i).1 == split_from(b, i + 1, i + 1).1);
        } else {
            lemma_split_rest(b, start, i + 1);
            assert(split_from(b, start, i).1 == split_from(b, start, i + 1).1);
        }
    } else {
        let r = b.subrange(start, b.len() as int);
        assert(split_from(b, start, i).1 == r);
        assert forall|k: int| 0 <= k < r.len() implies #[trigger] r[k] != 10u8 by {
            assert(r[k] == b[start + k]);
        }
    }
}

/// Pushing the chunks one by one, onto a buffer that holds no line ending,
/// frames the lines of all their bytes.
pub proof fn lemma_chunk_lines(held: Seq<u8>, cs: Seq<Seq<u8>>)
    requires
        forall|j: int| 0 <= j < held.len() ==> held[j] != 10u8,
    ensures
        chunk_lines(held, cs) == split_lines(held + concat_chunks(cs)),
    decreases cs.len(),
{
    if cs.len() == 0 {
        assert(held + Seq::<u8>::empty() =~= held);
        lemma_split_single(held);
    } else {
        let (l, r) = split_lines(held + cs[0]);
        let rest = concat_chunks(cs.drop_first());
        lemma_split_rest(held + cs[0], 0, 0);
        lemma_chunk_lines(r, cs.drop_first());
        lemma_chunks_independent(held, cs[0], rest);
        assert(held + cs[0] + rest =~= held + concat_chunks(cs));
    }
}

/// Folding two runs of lines is folding them one after the other.
pub proof fn lemma_fold_lines_append(st: StreamView, a: Seq<Seq<u8>>, b: Seq<Seq<u8>>)
    ensures
        ({
            let (s1, o1) = fold_lines(st, a);
            let (s2, o2) = fold_lines(s1, b);
            fold_lines(st, a + b) == (s2, o1 + o2)
        }),
    decreases b.len(),
{
    if b.len() == 0 {
        assert(a + b =~= a);
        assert(fold_lines(st, a).1 + Seq::<char>::empty() =~= fold_lines(st, a).1);
    } else {
        lemma_fold_lines_append(st, a, b.drop_last());
        assert((a + b).drop_last() =~= a + b.drop_last());
        assert((a + b).last() == b.last());
        let (s1, o1) = fold_lines(st, a);
        let (sb, ob) = fold_lines(s1, b.drop_last());
        let (s3, o3) = line_step(sb, b.last(), true);
        assert(o1 + ob + o3 =~= o1 + (ob + o3));
    }
}

/// Feeding chunks folds the lines that the buffer hands out for them.
proof fn lemma_feed_chunks(st: StreamView, held: Seq<u8>, cs: Seq<Seq<u8>>)
    ensures
        ({
            let (ls, rest) = chunk_lines(held, cs);
            let (s, o) = fold_lines(st, ls);
            feed_chunks(st, held, cs) == (s, rest, o)
        }),
    decreases cs.len(),
{
    if cs.len() > 0 {
        let (ls, r) = split_lines(held + cs[0]);
        let (s1, o1) = fold_lines(st, ls);
        lemma_feed_chunks(s1, r, cs.drop_first());
        let (l2, r2) = chunk_lines(r, cs.drop_first());
        lemma_fold_lines_append(st, ls, l2);
    } else {
        assert(fold_lines(st, Seq::<Seq<u8>>::empty()) == (st, Seq::<char>::empty()));
    }
}

/// The answer of a stream, and all the text shown while it arrives, depend
/// on its bytes alone, not on where the chunks are cut: the same bytes in
/// other chunks, cut inside a line, a JSON value or a UTF-8 character, give
/// the same answer and the same text, as `feed` and `finish` compute them.
pub proof fn lemma_stream_answer_chunks(cs1: Seq<Seq<u8>>, cs2: Seq<Seq<u8>>)
    requires
        concat_chunks(cs1) == concat_chunks(cs2),
    ensures
        stream_answer(cs1) == stream_answer(cs2),
{
    lemma_chunk_lines(seq![], cs1);
    lemma_chunk_lines(seq![], cs2);
    lemma_feed_chunks(stream_start(), seq![], cs1);
    lemma_feed_chunks(stream_start(), seq![], cs2);
}

/// The tool calls of a chunk's message, when it carries a list of them.
pub open spec fn chunk_calls(j: JsonView) -> Seq<JsonView> {
    match member(member(j, "message"@), "tool_calls"@) {
        JsonView::Array(cs) => cs,
        _ => seq![],
    }
}

/// The text of field `key` of a chunk's message, when it is a string.
pub open spec fn chunk_text(j: JsonView, key: Seq<char>) -> Seq<char> {
    match member(member(j, "message"@), key) {
        JsonView::Str(t) => t,
        _ => seq![],
    }
}

/// A chunk only adds to the answer: the tool calls after it are those
/// collected before, then the calls it carries, in order (none is ever
/// lost); its content and thinking are appended to what came before.
pub proof fn lemma_chunk_appends(st: StreamView, j: JsonView)
    ensures
        process_spec(st, j).0.tool_calls == st.tool_calls + chunk_calls(j),
        process_spec(st, j).0.content == st.content + chunk_text(j, "content"@),
        process_spec(st, j).0.thinking == st.thinking + chunk_text(j, "thinking"@),
{
    assert(st.tool_calls + Seq::<JsonView>::empty() =~= st.tool_calls);
    assert(st.content + Seq::<char>::empty() =~= st.content);
    assert(st.thinking + Seq::<char>::empty() =~= st.thinking);
}

/// The tool calls of the lines of a stream: those of each line that reads as
/// JSON, in order.
pub open spec fn lines_calls(ls: Seq<Seq<u8>>) -> Seq<JsonView>
    decreases ls.len(),
{
    if ls.len() == 0 {
        seq![]
    } else {
        let t = trim(utf8_lossy(ls.last()));
        lines_calls(ls.drop_last()) + if t.len() > 0 && json_read(t) is Ok {
            chunk_calls(json_read(t)->Ok_0)
        } else {
            seq![]
        }
    }
}

/// Folding stream lines keeps every tool call: the calls after the lines are
/// those before, then the calls of each JSON line in order.
pub proof fn lemma_fold_keeps_calls(st: StreamView, ls: Seq<Seq<u8>>)
    ensures
        fold_lines(st, ls).0.tool_calls == st.tool_calls + lines_calls(ls),
    decreases ls.len(),
{
    if ls.len() == 0 {
        assert(st.tool_calls + Seq::<JsonView>::empty() =~= st.tool_calls);
    } else {
        lemma_fold_keeps_calls(st, ls.drop_last());
        let s1 = fold_lines(st, ls.drop_last()).0;
        let t = trim(utf8_lossy(ls.last()));
        if t.len() > 0 && json_read(t) is Ok {
            lemma_chunk_appends(s1, json_read(t)->Ok_0);
        }
        assert(st.tool_calls + lines_calls(ls.drop_last()) + (lines_calls(ls).subrange(
            lines_calls(ls.drop_last()).len() as int,
            lines_calls(ls).len() as int,
        )) =~= st.tool_calls + lines_calls(ls));
    }
}

/// The lines, each followed by its line ending.
pub open spec fn ended_lines(ls: Seq<Seq<u8>>) -> Seq<u8>
    decreases ls.len(),
{
    if ls.len() == 0 {
        seq![]
    } else {
        ls[0] + seq![10u8] + ended_lines(ls.drop_first())
    }
}

proof fn lemma_split_from_parts(b: Seq<u8>, start: int, i: int)
    requires
        0 <= start <= i <= b.len(),
        forall|j: int| start <= j < i ==> b[j] != 10u8,
    ensures
        ended_lines(split_from(b, start, i).0) + split_from(b, start, i).1 == b.subrange(start, b.len() as int),
        forall|k: int, m: int|
            0 <= k < split_from(b, start, i).0.len() && 0 <= m < split_from(b, start, i).0[k].len()
                ==> #[trigger] split_from(b, start, i).0[k][m] != 10u8,
    decreases b.len() - i,
{
    if i < b.len() {
        if b[i] == 10u8 {
            lemma_split_from_parts(b, i + 1, i + 1);
            let (ls, r) = split_from(b, i + 1, i + 1);
            let line = b.subrange(start, i);
            let all = seq![line] + ls;
            assert(split_from(b, start, i) == (all, r));
            assert(all.drop_first() =~= ls);
            assert(all[0] == line);
            assert(line + seq![10u8] + (ended_lines(ls) + r) =~= b.subrange(start, b.len() as int)) by {
                assert(b.subrange(start, b.len() as int) =~= b.subrange(start, i) + seq![b[i]] + b.subrange(
                    i + 1,
                    b.len() as int,
                ));
            }
            assert(ended_lines(all) + r =~= line + seq![10u8] + (ended_lines(ls) + r));
            assert forall|k: int, m: int| 0 <= k < all.len() && 0 <= m < all[k].len() implies #[trigger] all[k][m]
                != 10u8 by {
                if k > 0 {
                    assert(all[k] == ls[k - 1]);
                } else {
                    assert(all[0][m] == b[start + m]);
                }
            }
        } else {
            lemma_split_from_parts(b, start, i + 1);
        }
    } else {
        assert(ended_lines(Seq::<Seq<u8>>::empty()) + b.subrange(start, b.len() as int) =~= b.subrange(
            start,
            b.len() as int,
        ));
    }
}

/// Framing takes nothing away and adds nothing: the lines handed out, each
/// followed by its line ending, then what is held back, are the bytes; no
/// line and nothing held back holds a line ending.
pub proof fn lemma_split_lines_parts(b: Seq<u8>)
    ensures
        ended_lines(split_lines(b).0) + split_lines(b).1 == b,
        forall|k: int, m: int|
            0 <= k < split_lines(b).0.len() && 0 <= m < split_lines(b).0[k].len() ==> #[trigger] split_lines(b).0[k][m]
                != 10u8,
        forall|m: int| 0 <= m < split_lines(b).1.len() ==> #[trigger] split_lines(b).1[m] != 10u8,
{
    lemma_split_from_parts(b, 0, 0);
    lemma_split_rest(b, 0, 0);
    assert(b.subrange(0, b.len() as int) =~= b);
}

} // verus!
