//! Wire types shared by the HTTP service and its clients.
//!
//! A client can depend on the *protocol* without depending on the engine: there
//! are no device types and no runtime types here.
use crate::text::{chars_of, same_text, string_of};
use crate::wire;
use crate::wire::{F32Bits, F64Bits};
use vstd::prelude::*;

verus! {

/// `GET /health`. Stable facts about the service, fetched on connect rather
/// than polled.
#[derive(Debug, Clone)]
pub struct Health {
    pub status: String,
    pub model: String,
    pub device: String,
    pub max_batch: usize,
    pub context: usize,
    pub kv_pages: usize,
    /// Decoding modes the server supports.
    pub sampling: SamplingCapabilities,
}

/// Decoding modes a server supports.
#[derive(Debug, Clone)]
pub struct SamplingCapabilities {
    pub greedy: bool,
    pub temperature: bool,
    pub top_k: bool,
    pub seed: bool,
    /// What a request gets when it specifies nothing.
    pub default_mode: String,
}

impl Default for SamplingCapabilities {
    fn default() -> (c: Self)
        ensures
            c.greedy && c.temperature && c.top_k && c.seed,
            c.default_mode@ == "greedy"@,
    {
        SamplingCapabilities {
            greedy: true,
            temperature: true,
            top_k: true,
            seed: true,
            default_mode: "greedy".to_owned(),
        }
    }
}

impl SamplingCapabilities {
    /// One-line summary for a status bar.
    pub fn summary(&self) -> (s: String)
        ensures
            s@ == if self.temperature {
                "greedy + top-k"@
            } else {
                "greedy"@
            },
    {
        if self.temperature {
            "greedy + top-k".to_owned()
        } else {
            "greedy".to_owned()
        }
    }
}

/// `GET /metrics`. Counters are cumulative since server start.
#[derive(Debug, Clone, Copy, PartialEq, Eq, Structural)]
pub struct Metrics {
    pub active_requests: usize,
    pub queued_requests: usize,
    pub completed_requests: u64,
    pub cancelled_requests: u64,
    pub failed_requests: u64,
    pub kv_pages_used: usize,
    pub kv_pages_free: usize,
    pub last_batch_size: usize,
    pub decode_steps: u64,
    pub aggregate_tokens_generated: u64,
    pub average_batch_size: F64Bits,
    pub uptime_seconds: F64Bits,
    /// Cumulative request counts by decoding mode.
    pub greedy_requests: u64,
    pub sampled_requests: u64,
    /// Requests holding pages and still working through their prompt.
    pub prefilling_requests: usize,
    pub prefill_chunks: u64,
    pub prefill_tokens: u64,
    pub last_prefill_chunk_tokens: usize,
}

impl Default for Metrics {
    fn default() -> (m: Self)
        ensures
            m.kv_pages_used == 0,
            m.kv_pages_free == 0,
            m.active_requests == 0 && m.queued_requests == 0 && m.completed_requests == 0
                && m.cancelled_requests == 0 && m.failed_requests == 0 && m.last_batch_size == 0
                && m.decode_steps == 0 && m.aggregate_tokens_generated == 0
                && m.average_batch_size.zero() && m.uptime_seconds.zero() && m.greedy_requests
                == 0 && m.sampled_requests == 0 && m.prefilling_requests == 0 && m.prefill_chunks
                == 0 && m.prefill_tokens == 0 && m.last_prefill_chunk_tokens == 0,
    {
        Metrics {
            active_requests: 0,
            queued_requests: 0,
            completed_requests: 0,
            cancelled_requests: 0,
            failed_requests: 0,
            kv_pages_used: 0,
            kv_pages_free: 0,
            last_batch_size: 0,
            decode_steps: 0,
            aggregate_tokens_generated: 0,
            average_batch_size: F64Bits(0),
            uptime_seconds: F64Bits(0),
            greedy_requests: 0,
            sampled_requests: 0,
            prefilling_requests: 0,
            prefill_chunks: 0,
            prefill_tokens: 0,
            last_prefill_chunk_tokens: 0,
        }
    }
}

impl Metrics {
    /// Pages of the KV pool.
    pub fn kv_total(&self) -> (n: usize)
        requires
            self.kv_pages_used + self.kv_pages_free <= usize::MAX,
        ensures
            n == self.kv_pages_used + self.kv_pages_free,
    {
        self.kv_pages_used + self.kv_pages_free
    }
}

/// Body of `POST /v1/generate` and `/v1/generate/stream`.
#[derive(Debug, Clone)]
pub struct GenerateRequest {
    pub prompt: String,
    pub max_tokens: usize,
    /// Omitted means greedy.
    pub temperature: Option<F32Bits>,
    pub top_k: Option<usize>,
    /// Omitted uses a fixed documented seed, so a sampled request without one
    /// is still reproducible.
    pub seed: Option<u64>,
}

impl GenerateRequest {
    /// Whether this request asked for sampling at all.
    pub fn wants_sampling(&self) -> (b: bool)
        ensures
            b == (self.temperature matches Some(t) && t.positive()),
    {
        match self.temperature {
            Some(t) => t.is_positive(),
            None => false,
        }
    }
}

/// Output budget of a request that names none.
pub fn default_max_tokens() -> (n: usize)
    ensures
        n == 64,
{
    64
}

/// Body of a non-streaming `POST /v1/generate` response.
#[derive(Debug, Clone)]
pub struct GenerateResponse {
    pub text: String,
    pub tokens_generated: usize,
    pub finish_reason: String,
    pub prompt_tokens: usize,
}

/// Error body returned for a 4xx or 5xx.
#[derive(Debug, Clone)]
pub struct ErrorBody {
    pub error: String,
}

/// `event: token`
#[derive(Debug, Clone)]
pub struct TokenEvent {
    pub token_id: usize,
    pub text: String,
}

/// `event: done`
#[derive(Debug, Clone)]
pub struct DoneEvent {
    pub finish_reason: String,
    pub tokens_generated: usize,
    /// Any text still buffered by the server's incremental decoder. A client
    /// that ignores this drops the tail of a multi-byte character.
    pub text: String,
}

/// `event: error`
#[derive(Debug, Clone)]
pub struct StreamError {
    pub error: String,
}

/// One decoded server-sent event.
#[derive(Debug, Clone, PartialEq)]
pub enum SseEvent {
    Token { token_id: usize, text: String },
    Done { finish_reason: String, tokens_generated: usize, text: String },
    Error { error: String },
    /// A well-formed event this client does not know about. Ignored rather than
    /// treated as a failure.
    Unknown(String),
}

/// Index of the first `c` at or after `from`, or the length.
pub open spec fn index_from(s: Seq<char>, c: char, from: nat) -> nat
    decreases s.len() - from,
{
    if from >= s.len() {
        s.len()
    } else if s[from as int] == c {
        from
    } else {
        index_from(s, c, from + 1)
    }
}

/// A line without a carriage return at its end.
pub open spec fn strip_cr(line: Seq<char>) -> Seq<char> {
    if line.len() > 0 && line.last() == '\r' {
        line.drop_last()
    } else {
        line
    }
}

/// The name and the value that a line gives: what stands before and after its
/// first colon, less one space after the colon. An empty line and a comment,
/// which starts with a colon, give nothing.
pub open spec fn field_of(line: Seq<char>) -> Option<(Seq<char>, Seq<char>)> {
    let colon = index_from(line, ':', 0);
    if line.len() == 0 || line[0] == ':' {
        None
    } else if colon == line.len() {
        Some((line, Seq::empty()))
    } else {
        let value = line.skip(colon as int + 1);
        Some(
            (
                line.take(colon as int),
                if value.len() > 0 && value[0] == ' ' {
                    value.skip(1)
                } else {
                    value
                },
            ),
        )
    }
}

/// What a block carries: the name of its event, and its data.
pub ghost struct FrameView {
    pub event: Option<Seq<char>>,
    pub data: Seq<char>,
}

impl FrameView {
    /// The frame after one more line. Data lines are joined with newlines;
    /// fields other than `event` and `data` are skipped.
    pub open spec fn with(self, line: Seq<char>) -> FrameView {
        match field_of(line) {
            None => self,
            Some(f) => if f.0 == "event"@ {
                FrameView { event: Some(f.1), ..self }
            } else if f.0 == "data"@ {
                FrameView {
                    data: (if self.data.len() > 0 {
                        self.data.push('\n')
                    } else {
                        self.data
                    }) + f.1,
                    ..self
                }
            } else {
                self
            },
        }
    }
}

/// The frame after the lines of `s` from `from` on. A line ends with a newline,
/// with or without a carriage return before it; the last one may end without.
pub open spec fn frame_from(s: Seq<char>, from: nat, frame: FrameView) -> FrameView
    decreases s.len() - from,
{
    let end = index_from(s, '\n', from);
    if from >= s.len() {
        frame
    } else if from <= end < s.len() {
        frame_from(
            s,
            end + 1,
            frame.with(strip_cr(strip_cr(s.subrange(from as int, end as int)))),
        )
    } else {
        frame.with(strip_cr(s.skip(from as int)))
    }
}

/// What a block carries.
pub open spec fn frame_of(block: Seq<char>) -> FrameView {
    frame_from(block, 0, FrameView { event: None, data: Seq::empty() })
}

/// What a block carries: the name of its event, and its data.
#[derive(Debug, Clone)]
pub struct SseFrame {
    pub event: Option<String>,
    pub data: String,
}

impl View for SseFrame {
    type V = FrameView;

    open spec fn view(&self) -> FrameView {
        FrameView { event: wire::opt_text(self.event), data: self.data@ }
    }
}

/// Index of the first `c` of `v` at or after `from`, or the length.
fn find(v: &[char], c: char, from: usize) -> (at: usize)
    requires
        from <= v@.len(),
    ensures
        at == index_from(v@, c, from as nat),
        from <= at <= v@.len(),
{
    let mut i: usize = from;
    while i < v.len()
        invariant
            from <= i <= v@.len(),
            index_from(v@, c, from as nat) == index_from(v@, c, i as nat),
        decreases v@.len() - i,
    {
        if v[i] == c {
            return i;
        }
        i += 1;
    }
    i
}

/// Take one line into a frame. `line` is `v[from..to]`.
fn take_line(v: &[char], from: usize, to: usize, frame: &mut SseFrame)
    requires
        from <= to <= v@.len(),
    ensures
        final(frame)@ == old(frame)@.with(v@.subrange(from as int, to as int)),
{
    let ghost line = v@.subrange(from as int, to as int);
    if from == to || v[from] == ':' {
        return;
    }
    let mut colon: usize = from;
    while colon < to && v[colon] != ':'
        invariant
            from <= colon <= to <= v@.len(),
            line == v@.subrange(from as int, to as int),
            index_from(line, ':', 0) == index_from(line, ':', (colon - from) as nat),
        decreases to - colon,
    {
        assert(line[colon - from] == v@[colon as int]);
        colon += 1;
    }
    proof {
        if colon < to {
            assert(line[colon - from] == ':');
        }
    }
    let name = string_of(v, from, colon);
    let start: usize = if colon < to {
        if colon + 1 < to && v[colon + 1] == ' ' {
            colon + 2
        } else {
            colon + 1
        }
    } else {
        to
    };
    let value = string_of(v, start, to);
    proof {
        assert(line[0] == v@[from as int]);
        assert(name@ =~= line.take(colon - from));
        if colon < to {
            let rest = line.skip(colon - from + 1);
            if rest.len() > 0 {
                assert(rest[0] == v@[colon + 1]);
            }
            if rest.len() > 0 && rest[0] == ' ' {
                assert(value@ =~= rest.skip(1));
            } else {
                assert(value@ =~= rest);
            }
        } else {
            assert(name@ =~= line);
            assert(value@ =~= Seq::empty());
        }
        assert(field_of(line) == Some((name@, value@)));
    }
    if same_text(name.as_str(), "event") {
        frame.event = Some(value);
    } else if same_text(name.as_str(), "data") {
        let ghost before = frame.data@;
        if !frame.data.as_str().is_empty() {
            frame.data.push('\n');
        }
        frame.data.append(value.as_str());
    }
}

/// Read the lines of one block.
pub fn read_frame(block: &str) -> (f: SseFrame)
    ensures
        f@ == frame_of(block@),
{
    let v = chars_of(block);
    let mut frame = SseFrame { event: None, data: String::new() };
    let mut from: usize = 0;
    proof {
        assert(frame@ == (FrameView { event: None, data: Seq::empty() }));
    }
    while from < v.len()
        invariant
            from <= v@.len(),
            v@ == block@,
            frame_of(block@) == frame_from(v@, from as nat, frame@),
        decreases v@.len() - from,
    {
        let end: usize = find(v.as_slice(), '\n', from);
        let mut to: usize = end;
        let ghost line = v@.subrange(from as int, end as int);
        if to > from && v[to - 1] == '\r' {
            to -= 1;
        }
        proof {
            assert(strip_cr(line) =~= v@.subrange(from as int, to as int)) by {
                if line.len() > 0 {
                    assert(line.last() == v@[end - 1]);
                }
            }
        }
        let ghost mid = to;
        if end < v.len() && to > from && v[to - 1] == '\r' {
            to -= 1;
        }
        proof {
            let once = strip_cr(line);
            if end < v@.len() {
                assert(strip_cr(once) =~= v@.subrange(from as int, to as int)) by {
                    if once.len() > 0 {
                        assert(once.last() == v@[mid - 1]);
                    }
                }
            } else {
                assert(v@.skip(from as int) =~= line);
            }
        }
        take_line(v.as_slice(), from, to, &mut frame);
        from = if end < v.len() {
            end + 1
        } else {
            end
        };
    }
    frame
}

/// The error for a payload that is not what its event promises.
pub open spec fn malformed(what: Seq<char>, data: Seq<char>) -> Seq<char> {
    "malformed "@ + what + " event from server: "@ + data
}

fn malformed_text(what: &str, data: &str) -> (m: String)
    ensures
        m@ == malformed(what@, data@),
{
    let mut m = "malformed ".to_owned();
    m.append(what);
    m.append(" event from server: ");
    m.append(data);
    m
}

/// What is said of a block that carries data and names no event.
pub open spec fn unnamed() -> Seq<char> {
    "unnamed"@
}

/// Whether a client answers `r` to a frame. `token`, `done` and `error` decode
/// the payloads of the three events it knows; `well_formed` tells whether any
/// other payload is valid JSON. A frame without data has no payload to be wrong.
pub open spec fn answers<
    T: Fn(&str) -> Option<TokenEvent>,
    D: Fn(&str) -> Option<DoneEvent>,
    E: Fn(&str) -> Option<StreamError>,
    W: Fn(&str) -> bool,
>(
    frame: FrameView,
    token: T,
    done: D,
    error: E,
    well_formed: W,
    r: Result<Option<SseEvent>, String>,
) -> bool {
    let data = frame.data;
    match frame.event {
        None => if data.len() == 0 {
            r == Ok::<Option<SseEvent>, String>(None)
        } else {
            exists|d: &str, ok: bool|
                {
                    &&& d@ == data
                    &&& #[trigger] well_formed.ensures((d,), ok)
                    &&& if ok {
                        r == Ok::<Option<SseEvent>, String>(None)
                    } else {
                        r matches Err(m) && m@ == malformed(unnamed(), data)
                    }
                }
        },
        Some(name) => if name == "token"@ {
            exists|d: &str, t: Option<TokenEvent>|
                {
                    &&& d@ == data
                    &&& #[trigger] token.ensures((d,), t)
                    &&& match t {
                        Some(t) => r == Ok::<Option<SseEvent>, String>(
                            Some(SseEvent::Token { token_id: t.token_id, text: t.text }),
                        ),
                        None => r matches Err(m) && m@ == malformed("token"@, data),
                    }
                }
        } else if name == "done"@ {
            exists|d: &str, t: Option<DoneEvent>|
                {
                    &&& d@ == data
                    &&& #[trigger] done.ensures((d,), t)
                    &&& match t {
                        Some(t) => r == Ok::<Option<SseEvent>, String>(
                            Some(
                                SseEvent::Done {
                                    finish_reason: t.finish_reason,
                                    tokens_generated: t.tokens_generated,
                                    text: t.text,
                                },
                            ),
                        ),
                        None => r matches Err(m) && m@ == malformed("done"@, data),
                    }
                }
        } else if name == "error"@ {
            exists|d: &str, t: Option<StreamError>|
                {
                    &&& d@ == data
                    &&& #[trigger] error.ensures((d,), t)
                    &&& match t {
                        Some(t) => r == Ok::<Option<SseEvent>, String>(
                            Some(SseEvent::Error { error: t.error }),
                        ),
                        None => r matches Err(m) && m@ == malformed("error"@, data),
                    }
                }
        } else if data.len() == 0 {
            r matches Ok(Some(SseEvent::Unknown(n))) && n@ == name
        } else {
            exists|d: &str, ok: bool|
                {
                    &&& d@ == data
                    &&& #[trigger] well_formed.ensures((d,), ok)
                    &&& if ok {
                        r matches Ok(Some(SseEvent::Unknown(n))) && n@ == name
                    } else {
                        r matches Err(m) && m@ == malformed(name, data)
                    }
                }
        },
    }
}

/// Parse one SSE block: the lines between blank-line separators.
///
/// Comment lines and unknown fields are skipped, multiple `data:` lines
/// concatenate with newlines, and a block whose payload is not valid JSON is an
/// error the caller can surface. `token`, `done` and `error` decode the payloads
/// of the three events this client knows; `well_formed` tells whether any other
/// payload is valid JSON, and is asked only where there is one.
pub fn parse_sse_block<
    T: Fn(&str) -> Option<TokenEvent>,
    D: Fn(&str) -> Option<DoneEvent>,
    E: Fn(&str) -> Option<StreamError>,
    W: Fn(&str) -> bool,
>(block: &str, token: T, done: D, error: E, well_formed: W) -> (r: Result<
    Option<SseEvent>,
    String,
>)
    requires
        forall|d: &str| #[trigger] token.requires((d,)),
        forall|d: &str| #[trigger] done.requires((d,)),
        forall|d: &str| #[trigger] error.requires((d,)),
        forall|d: &str| #[trigger] well_formed.requires((d,)),
    ensures
        answers(frame_of(block@), token, done, error, well_formed, r),
{
    let frame = read_frame(block);
    let data = frame.data.as_str();
    let name = match frame.event {
        None => {
            if data.is_empty() {
                return Ok(None);
            }
            let ok: bool = well_formed(data);
            assert(well_formed.ensures((data,), ok));
            if !ok {
                return Err(malformed_text("unnamed", data));
            }
            return Ok(None);
        },
        Some(name) => name,
    };
    if same_text(name.as_str(), "token") {
        let t = token(data);
        assert(token.ensures((data,), t));
        return match t {
            Some(t) => Ok(Some(SseEvent::Token { token_id: t.token_id, text: t.text })),
            None => Err(malformed_text("token", data)),
        };
    }
    if same_text(name.as_str(), "done") {
        let t = done(data);
        assert(done.ensures((data,), t));
        return match t {
            Some(t) => Ok(
                Some(
                    SseEvent::Done {
                        finish_reason: t.finish_reason,
                        tokens_generated: t.tokens_generated,
                        text: t.text,
                    },
                ),
            ),
            None => Err(malformed_text("done", data)),
        };
    }
    if same_text(name.as_str(), "error") {
        let t = error(data);
        assert(error.ensures((data,), t));
        return match t {
            Some(t) => Ok(Some(SseEvent::Error { error: t.error })),
            None => Err(malformed_text("error", data)),
        };
    }
    if data.is_empty() {
        return Ok(Some(SseEvent::Unknown(name)));
    }
    let ok: bool = well_formed(data);
    assert(well_formed.ensures((data,), ok));
    if !ok {
        return Err(malformed_text(name.as_str(), data));
    }
    Ok(Some(SseEvent::Unknown(name)))
}

/// Whether a line says nothing to this client: an empty one, a comment, or a
/// field other than `event` and `data`.
pub open spec fn skipped(line: Seq<char>) -> bool {
    field_of(line) matches Some(f) ==> f.0 != "event"@ && f.0 != "data"@
}

/// Comments and fields that a client does not know change nothing, so a server
/// may add them without breaking older clients.
pub proof fn law_unknown_lines_are_skipped(frame: FrameView, line: Seq<char>)
    requires
        skipped(line),
    ensures
        frame.with(line) == frame,
{
}

proof fn lemma_index_is(s: Seq<char>, c: char, from: nat, at: nat)
    requires
        from <= at <= s.len(),
        forall|k: int| from <= k < at ==> s[k] != c,
        at < s.len() ==> s[at as int] == c,
    ensures
        index_from(s, c, from) == at,
    decreases at - from,
{
    if from < at {
        lemma_index_is(s, c, from + 1, at);
    }
}

/// Whether a text fits on one line of a block.
pub open spec fn one_line(t: Seq<char>) -> bool {
    !t.contains('\n') && (t.len() > 0 ==> t.last() != '\r')
}

/// What a server writes for an event is what a client reads: the name and the
/// payload come back unchanged, as long as each fits on one line.
pub proof fn law_frame_round_trip(name: Seq<char>, payload: Seq<char>)
    requires
        one_line(name),
        one_line(payload),
    ensures
        frame_of("event: "@ + name + "\ndata: "@ + payload) == (FrameView {
            event: Some(name),
            data: payload,
        }),
{
    reveal_strlit("event: ");
    reveal_strlit("event");
    reveal_strlit("\ndata: ");
    reveal_strlit("data");
    let s = "event: "@ + name + "\ndata: "@ + payload;
    let end = (7 + name.len()) as nat;
    let first = s.subrange(0, end as int);
    let second = s.skip(end as int + 1);
    assert(first =~= "event: "@ + name);
    assert(second =~= seq!['d', 'a', 't', 'a', ':', ' '] + payload);
    assert forall|k: int| 0 <= k < end implies s[k] != '\n' by {
        if k >= 7 {
            assert(s[k] == name[k - 7]);
        }
    }
    lemma_index_is(s, '\n', 0, end);
    assert forall|k: int| end + 1 <= k < s.len() implies s[k] != '\n' by {
        if k >= end + 7 {
            assert(s[k] == payload[k - end - 7]);
        }
    }
    lemma_index_is(s, '\n', end + 1, s.len());
    if name.len() > 0 {
        assert(first.last() == name.last());
    }
    if payload.len() > 0 {
        assert(second.last() == payload.last());
    }
    lemma_index_is(first, ':', 0, 5);
    assert(first.take(5) =~= "event"@);
    assert(first.skip(6).skip(1) =~= name);
    lemma_index_is(second, ':', 0, 4);
    assert(second.take(4) =~= "data"@);
    assert(second.skip(5).skip(1) =~= payload);
    assert("event"@ != "data"@) by {
        assert("event"@.len() == 5);
    }
    let start = FrameView { event: None, data: Seq::empty() };
    let one = start.with(first);
    assert(one == (FrameView { event: Some(name), data: Seq::empty() }));
    assert(one.with(second).data =~= payload);
    assert(frame_from(s, end + 1, one) == one.with(second));
}

/// The frame after some lines.
pub open spec fn folded(frame: FrameView, lines: Seq<Seq<char>>) -> FrameView
    decreases lines.len(),
{
    if lines.len() == 0 {
        frame
    } else {
        folded(frame.with(strip_cr(lines[0])), lines.skip(1))
    }
}

/// Whether a text is the text of one line: it holds no newline, and no more than
/// one carriage return ends it. One is taken for a part of the line's end.
pub open spec fn plain(t: Seq<char>) -> bool {
    !t.contains('\n') && (strip_cr(t).len() > 0 ==> strip_cr(t).last() != '\r')
}

/// How a line ends: with a newline, or with a carriage return before it.
pub open spec fn line_end(crlf: bool) -> Seq<char> {
    if crlf {
        seq!['\r', '\n']
    } else {
        seq!['\n']
    }
}

/// A block of lines. Each ends as `crlf` says, but for the last one of a block
/// that is not `closed`, which ends with the block.
pub open spec fn written(lines: Seq<Seq<char>>, crlf: Seq<bool>, closed: bool) -> Seq<char>
    decreases lines.len(),
{
    if lines.len() == 0 {
        Seq::empty()
    } else if lines.len() == 1 && !closed {
        lines[0]
    } else {
        lines[0] + line_end(crlf[0]) + written(lines.skip(1), crlf.skip(1), closed)
    }
}

/// The characters of a line are not newlines.
proof fn lemma_line_chars(line: Seq<char>)
    requires
        plain(line),
    ensures
        forall|k: int| 0 <= k < line.len() ==> #[trigger] line[k] != '\n',
{
    assert forall|k: int| 0 <= k < line.len() implies #[trigger] line[k] != '\n' by {
        assert(line.contains(line[k]));
    }
}

/// One line of a block that others may follow.
proof fn lemma_line_read(
    before: Seq<char>,
    line: Seq<char>,
    crlf: bool,
    rest: Seq<char>,
    frame: FrameView,
)
    requires
        plain(line),
    ensures
        ({
            let s = before + line + line_end(crlf) + rest;
            frame_from(s, before.len(), frame) == frame_from(
                s,
                (before + line + line_end(crlf)).len(),
                frame.with(strip_cr(line)),
            )
        }),
{
    lemma_line_chars(line);
    let end = line_end(crlf);
    let s = before + line + end + rest;
    let from = before.len();
    let at = (from + line.len() + end.len() - 1) as nat;
    assert forall|k: int| from <= k < at implies s[k] != '\n' by {
        if k < from + line.len() {
            assert(s[k] == line[k - from]);
        }
    }
    assert(s[at as int] == '\n');
    lemma_index_is(s, '\n', from, at);
    let seen = s.subrange(from as int, at as int);
    if crlf {
        assert(seen =~= line.push('\r'));
        assert(strip_cr(seen) =~= line);
    } else {
        assert(seen =~= line);
    }
    assert(strip_cr(strip_cr(seen)) == strip_cr(line));
}

/// A line that ends with its block.
proof fn lemma_last_line(before: Seq<char>, line: Seq<char>, frame: FrameView)
    requires
        plain(line),
    ensures
        frame_from(before + line, before.len(), frame) == frame.with(strip_cr(line)),
{
    lemma_line_chars(line);
    let s = before + line;
    let from = before.len();
    if line.len() > 0 {
        assert forall|k: int| from <= k < s.len() implies s[k] != '\n' by {
            assert(s[k] == line[k - from]);
        }
        lemma_index_is(s, '\n', from, s.len());
        assert(s.skip(from as int) =~= line);
    }
}

proof fn lemma_written(
    before: Seq<char>,
    frame: FrameView,
    lines: Seq<Seq<char>>,
    crlf: Seq<bool>,
    closed: bool,
)
    requires
        crlf.len() == lines.len(),
        forall|i: int| 0 <= i < lines.len() ==> plain(#[trigger] lines[i]),
    ensures
        frame_from(before + written(lines, crlf, closed), before.len(), frame) == folded(
            frame,
            lines,
        ),
    decreases lines.len(),
{
    if lines.len() > 0 {
        let line = lines[0];
        assert(plain(line));
        if lines.len() == 1 && !closed {
            lemma_last_line(before, line, frame);
            let read = frame.with(strip_cr(line));
            assert(folded(read, lines.skip(1)) == read);
        } else {
            let rest = written(lines.skip(1), crlf.skip(1), closed);
            let next = before + line + line_end(crlf[0]);
            lemma_line_read(before, line, crlf[0], rest, frame);
            assert(before + written(lines, crlf, closed) =~= next + rest);
            assert forall|i: int| 0 <= i < lines.skip(1).len() implies plain(
                #[trigger] lines.skip(1)[i],
            ) by {
                assert(plain(lines[i + 1]));
            }
            lemma_written(next, frame.with(strip_cr(line)), lines.skip(1), crlf.skip(1), closed);
        }
    }
}

/// A block is read line by line, and how its lines end makes no difference: with
/// newlines or with carriage returns before them, in any mixture, and with or
/// without an end after the last one.
pub proof fn law_line_ends_do_not_matter(
    lines: Seq<Seq<char>>,
    a: Seq<bool>,
    a_closed: bool,
    b: Seq<bool>,
    b_closed: bool,
)
    requires
        a.len() == lines.len(),
        b.len() == lines.len(),
        forall|i: int| 0 <= i < lines.len() ==> plain(#[trigger] lines[i]),
    ensures
        frame_of(written(lines, a, a_closed)) == frame_of(written(lines, b, b_closed)),
        frame_of(written(lines, a, a_closed)) == folded(
            FrameView { event: None, data: Seq::empty() },
            lines,
        ),
{
    let start = FrameView { event: None, data: Seq::empty() };
    let none = Seq::<char>::empty();
    lemma_written(none, start, lines, a, a_closed);
    lemma_written(none, start, lines, b, b_closed);
    assert(none + written(lines, a, a_closed) =~= written(lines, a, a_closed));
    assert(none + written(lines, b, b_closed) =~= written(lines, b, b_closed));
}

/// The lines of a block that say something, as they are read.
pub open spec fn kept(lines: Seq<Seq<char>>) -> Seq<Seq<char>>
    decreases lines.len(),
{
    if lines.len() == 0 {
        Seq::empty()
    } else {
        let rest = kept(lines.skip(1));
        if skipped(strip_cr(lines[0])) {
            rest
        } else {
            seq![strip_cr(lines[0])] + rest
        }
    }
}

proof fn lemma_kept(frame: FrameView, lines: Seq<Seq<char>>)
    requires
        forall|i: int| 0 <= i < lines.len() ==> plain(#[trigger] lines[i]),
    ensures
        folded(frame, kept(lines)) == folded(frame, lines),
    decreases lines.len(),
{
    if lines.len() > 0 {
        let line = strip_cr(lines[0]);
        let rest = kept(lines.skip(1));
        assert(plain(lines[0]));
        assert forall|i: int| 0 <= i < lines.skip(1).len() implies plain(
            #[trigger] lines.skip(1)[i],
        ) by {
            assert(plain(lines[i + 1]));
        }
        lemma_kept(frame.with(line), lines.skip(1));
        if skipped(line) {
            law_unknown_lines_are_skipped(frame, line);
        } else {
            let all = seq![line] + rest;
            assert(all.skip(1) =~= rest);
            assert(strip_cr(all[0]) == line);
        }
    }
}

/// A line that says nothing may stand anywhere among the lines of a block, and
/// any number of them may.
pub proof fn law_skipped_lines_may_stand_anywhere(
    lines: Seq<Seq<char>>,
    at: nat,
    line: Seq<char>,
)
    requires
        at <= lines.len(),
        skipped(strip_cr(line)),
    ensures
        kept(lines.insert(at as int, line)) == kept(lines),
    decreases lines.len(),
{
    let more = lines.insert(at as int, line);
    if at == 0 {
        assert(more.skip(1) =~= lines);
    } else {
        law_skipped_lines_may_stand_anywhere(lines.skip(1), (at - 1) as nat, line);
        assert(more.skip(1) =~= lines.skip(1).insert(at - 1, line));
    }
}

/// Blocks whose lines say the same carry the same, whatever other lines stand
/// between those and however each line ends.
pub proof fn law_noise_changes_nothing(
    a: Seq<Seq<char>>,
    a_ends: Seq<bool>,
    a_closed: bool,
    b: Seq<Seq<char>>,
    b_ends: Seq<bool>,
    b_closed: bool,
)
    requires
        a_ends.len() == a.len(),
        b_ends.len() == b.len(),
        forall|i: int| 0 <= i < a.len() ==> plain(#[trigger] a[i]),
        forall|i: int| 0 <= i < b.len() ==> plain(#[trigger] b[i]),
        kept(a) == kept(b),
    ensures
        frame_of(written(a, a_ends, a_closed)) == frame_of(written(b, b_ends, b_closed)),
{
    let start = FrameView { event: None, data: Seq::empty() };
    law_line_ends_do_not_matter(a, a_ends, a_closed, a_ends, a_closed);
    law_line_ends_do_not_matter(b, b_ends, b_closed, b_ends, b_closed);
    lemma_kept(start, a);
    lemma_kept(start, b);
}

/// What an event says.
pub ghost enum EventView {
    Token { token_id: usize, text: Seq<char> },
    Done { finish_reason: Seq<char>, tokens_generated: usize, text: Seq<char> },
    Error { error: Seq<char> },
    Unknown(Seq<char>),
}

impl View for SseEvent {
    type V = EventView;

    open spec fn view(&self) -> EventView {
        match self {
            SseEvent::Token { token_id, text } => EventView::Token {
                token_id: *token_id,
                text: text@,
            },
            SseEvent::Done { finish_reason, tokens_generated, text } => EventView::Done {
                finish_reason: finish_reason@,
                tokens_generated: *tokens_generated,
                text: text@,
            },
            SseEvent::Error { error } => EventView::Error { error: error@ },
            SseEvent::Unknown(name) => EventView::Unknown(name@),
        }
    }
}

/// What an answer says.
pub open spec fn said(r: Result<Option<SseEvent>, String>) -> Result<
    Option<EventView>,
    Seq<char>,
> {
    match r {
        Ok(Some(e)) => Ok(Some(e@)),
        Ok(None) => Ok(None),
        Err(m) => Err(m@),
    }
}

/// What a decoded token says, if it decoded.
pub open spec fn token_said(t: Option<TokenEvent>) -> Option<(usize, Seq<char>)> {
    match t {
        Some(t) => Some((t.token_id, t.text@)),
        None => None,
    }
}

/// What a decoded end says, if it decoded.
pub open spec fn done_said(t: Option<DoneEvent>) -> Option<(Seq<char>, usize, Seq<char>)> {
    match t {
        Some(t) => Some((t.finish_reason@, t.tokens_generated, t.text@)),
        None => None,
    }
}

/// What a decoded error says, if it decoded.
pub open spec fn error_said(t: Option<StreamError>) -> Option<Seq<char>> {
    match t {
        Some(t) => Some(t.error@),
        None => None,
    }
}

/// Whether each decoder makes the same of the same text every time.
pub open spec fn deterministic<
    T: Fn(&str) -> Option<TokenEvent>,
    D: Fn(&str) -> Option<DoneEvent>,
    E: Fn(&str) -> Option<StreamError>,
    W: Fn(&str) -> bool,
>(token: T, done: D, error: E, well_formed: W) -> bool {
    &&& forall|d: &str, e: &str, x: Option<TokenEvent>, y: Option<TokenEvent>|
        d@ == e@ && #[trigger] token.ensures((d,), x) && #[trigger] token.ensures((e,), y)
            ==> token_said(x) == token_said(y)
    &&& forall|d: &str, e: &str, x: Option<DoneEvent>, y: Option<DoneEvent>|
        d@ == e@ && #[trigger] done.ensures((d,), x) && #[trigger] done.ensures((e,), y)
            ==> done_said(x) == done_said(y)
    &&& forall|d: &str, e: &str, x: Option<StreamError>, y: Option<StreamError>|
        d@ == e@ && #[trigger] error.ensures((d,), x) && #[trigger] error.ensures((e,), y)
            ==> error_said(x) == error_said(y)
    &&& forall|d: &str, e: &str, x: bool, y: bool|
        d@ == e@ && #[trigger] well_formed.ensures((d,), x) && #[trigger] well_formed.ensures(
            (e,),
            y,
        ) ==> x == y
}

/// Two blocks that carry the same are answered the same.
pub proof fn law_equal_frames_are_answered_alike<
    T: Fn(&str) -> Option<TokenEvent>,
    D: Fn(&str) -> Option<DoneEvent>,
    E: Fn(&str) -> Option<StreamError>,
    W: Fn(&str) -> bool,
>(
    frame: FrameView,
    token: T,
    done: D,
    error: E,
    well_formed: W,
    r: Result<Option<SseEvent>, String>,
    q: Result<Option<SseEvent>, String>,
)
    requires
        deterministic(token, done, error, well_formed),
        answers(frame, token, done, error, well_formed, r),
        answers(frame, token, done, error, well_formed, q),
    ensures
        said(r) == said(q),
{
}

/// A block is answered the same with comments, with fields that a client does
/// not know and with empty lines between its lines, and with its lines ending
/// either way.
pub proof fn law_noise_does_not_change_the_answer<
    T: Fn(&str) -> Option<TokenEvent>,
    D: Fn(&str) -> Option<DoneEvent>,
    E: Fn(&str) -> Option<StreamError>,
    W: Fn(&str) -> bool,
>(
    a: Seq<Seq<char>>,
    a_ends: Seq<bool>,
    a_closed: bool,
    b: Seq<Seq<char>>,
    b_ends: Seq<bool>,
    b_closed: bool,
    token: T,
    done: D,
    error: E,
    well_formed: W,
    r: Result<Option<SseEvent>, String>,
    q: Result<Option<SseEvent>, String>,
)
    requires
        a_ends.len() == a.len(),
        b_ends.len() == b.len(),
        forall|i: int| 0 <= i < a.len() ==> plain(#[trigger] a[i]),
        forall|i: int| 0 <= i < b.len() ==> plain(#[trigger] b[i]),
        kept(a) == kept(b),
        deterministic(token, done, error, well_formed),
        answers(frame_of(written(a, a_ends, a_closed)), token, done, error, well_formed, r),
        answers(frame_of(written(b, b_ends, b_closed)), token, done, error, well_formed, q),
    ensures
        said(r) == said(q),
{
    law_noise_changes_nothing(a, a_ends, a_closed, b, b_ends, b_closed);
    law_equal_frames_are_answered_alike(
        frame_of(written(a, a_ends, a_closed)),
        token,
        done,
        error,
        well_formed,
        r,
        q,
    );
}

/// Data that is sent in several lines comes together in their order, a newline
/// between each two; the name of an event is the last one given.
pub proof fn law_data_lines_are_joined(frame: FrameView, t: Seq<char>)
    ensures
        frame.with("data: "@ + t).data == (if frame.data.len() > 0 {
            frame.data + seq!['\n'] + t
        } else {
            t
        }),
        frame.with("data: "@ + t).event == frame.event,
        frame.with("event: "@ + t) == (FrameView { event: Some(t), ..frame }),
{
    reveal_strlit("data: ");
    reveal_strlit("data");
    reveal_strlit("event: ");
    reveal_strlit("event");
    let d = "data: "@ + t;
    let e = "event: "@ + t;
    lemma_index_is(d, ':', 0, 4);
    assert(d.take(4) =~= "data"@);
    assert(d.skip(5).skip(1) =~= t);
    lemma_index_is(e, ':', 0, 5);
    assert(e.take(5) =~= "event"@);
    assert(e.skip(6).skip(1) =~= t);
    assert("event"@.len() != "data"@.len());
    assert(frame.with(d).data =~= (if frame.data.len() > 0 {
        frame.data + seq!['\n'] + t
    } else {
        t
    }));
}

} // verus!
