//! Legacy Completions: `POST /v1/completions`.
//!
//! Text in, continuation out: `prompt` is submitted unchanged, with no template
//! and no role labels. The schema gives the streamed and non-streamed responses
//! the same object shape, so both differ only in whether `text` holds the whole
//! completion or one delta.
use crate::openai;
use crate::openai::types::{
    CompletionChoice, CompletionRequest, CompletionResponse, PromptField, Usage,
};
use crate::openai::{
    check_body_model, reject_any, reject_flag, reject_if_set, reject_json, reject_not_one,
    reject_not_single, reject_not_zero, seed_bits, usage_wanted, ApiError, Prepared,
};
use crate::service;
use crate::service::{Collector, StreamItem};
use crate::text;
use crate::text::push_decimal;
use crate::wire;
use crate::wire::JsonShape;
use vstd::prelude::*;

verus! {

/// What kind of value stands where a prompt should.
pub open spec fn shape_name(v: JsonShape) -> Seq<char> {
    match v {
        JsonShape::Number => "a number"@,
        JsonShape::Bool(_) => "a boolean"@,
        JsonShape::Object { .. } => "an object"@,
        _ => "an unsupported value"@,
    }
}

/// Why there is no single string prompt, if there is none.
pub open spec fn prompt_refusal(prompt: Option<PromptField>) -> Option<openai::ErrorView> {
    match prompt {
        None => Some(openai::missing("prompt"@)),
        Some(PromptField::Text(_)) => None,
        Some(PromptField::Many(items)) => Some(
            openai::unsupported(
                "prompt"@,
                "A batch of "@ + text::decimal(items@.len())
                    + " prompts was given. This server accepts one string prompt per request; send them as separate requests, which batch together in the scheduler anyway."@,
            ),
        ),
        Some(PromptField::Other(v)) => Some(
            openai::invalid(
                "'prompt' must be a string; got "@ + shape_name(v)
                    + ". Token-id prompts are not accepted."@,
                Some("prompt"@),
            ),
        ),
    }
}

/// The prompt of a request, unchanged.
///
/// A prompt array is several independent completions in one call; serving only
/// the first element would look like success and silently drop the rest.
fn prompt_text(prompt: &Option<PromptField>) -> (r: Result<String, ApiError>)
    ensures
        openai::answers(r, prompt_refusal(*prompt)),
        r matches Ok(t) ==> *prompt == Some(PromptField::Text(t)),
{
    match prompt {
        None => Err(ApiError::missing("prompt")),
        Some(PromptField::Text(s)) => Ok(s.clone()),
        Some(PromptField::Many(items)) => {
            let mut m = "A batch of ".to_owned();
            push_decimal(&mut m, items.len() as u64);
            m.append(
                " prompts was given. This server accepts one string prompt per request; send them as separate requests, which batch together in the scheduler anyway.",
            );
            Err(ApiError::unsupported("prompt", m.as_str()))
        },
        Some(PromptField::Other(v)) => {
            let mut m = "'prompt' must be a string; got ".to_owned();
            m.append(
                match v {
                    JsonShape::Number => "a number",
                    JsonShape::Bool(_) => "a boolean",
                    JsonShape::Object { .. } => "an object",
                    _ => "an unsupported value",
                },
            );
            m.append(". Token-id prompts are not accepted.");
            Err(ApiError::invalid(m.as_str(), Some("prompt")))
        },
    }
}

/// Why a request asks for something that is not implemented, if it does: the
/// first such parameter, in the order they are checked.
pub open spec fn parameter_refusal(req: CompletionRequest) -> Option<openai::ErrorView> {
    let r = None;
    let r = openai::or(
        r,
        openai::refused((req.n matches Some(n) && n != 1), "n"@, "This server returns exactly one choice per request."@),
    );
    let r = openai::or(
        r,
        openai::refused((req.best_of matches Some(n) && n != 1), "best_of"@, "Generating several candidates and ranking them is not implemented."@),
    );
    let r = openai::or(
        r,
        openai::refused(req.echo == Some(true), "echo"@, "Echoing the prompt back is not implemented."@),
    );
    let r = openai::or(
        r,
        openai::refused((req.suffix matches Some(t) && t@.len() > 0), "suffix"@, "Infilling is not implemented; this model was not trained for it."@),
    );
    let r = openai::or(
        r,
        openai::refused(openai::not_one(req.top_p), "top_p"@, "Crucible samples with top-k; nucleus sampling is not implemented."@),
    );
    let r = openai::or(
        r,
        openai::refused(openai::not_zero(req.frequency_penalty), "frequency_penalty"@, "Repetition penalties are not implemented."@),
    );
    let r = openai::or(
        r,
        openai::refused(openai::not_zero(req.presence_penalty), "presence_penalty"@, "Repetition penalties are not implemented."@),
    );
    let r = openai::or(
        r,
        openai::refused(req.logprobs is Some, "logprobs"@, "Token log probabilities are not returned by this server."@),
    );
    let r = openai::or(
        r,
        openai::refused(openai::asks(req.stop), "stop"@, "Stop sequences would have to be matched inside the scheduler across token boundaries; the server does not do that yet."@),
    );
    let r = openai::or(
        r,
        openai::refused(openai::asks(req.logit_bias), "logit_bias"@, "Logit bias is not implemented."@),
    );
    r
}

/// Why a completion request is refused, if it is.
pub open spec fn request_refusal(req: CompletionRequest, model_id: Seq<char>) -> Option<
    openai::ErrorView,
> {
    openai::or(
        openai::wrong_model(req.model, model_id),
        openai::or(prompt_refusal(req.prompt), parameter_refusal(req)),
    )
}

fn reject_suffix(value: Option<&String>, param: &str, detail: &str) -> (r: Result<(), ApiError>)
    ensures
        openai::answers(
            r,
            openai::refused(
                match value {
                    Some(t) => t@.len() > 0,
                    None => false,
                },
                param@,
                detail@,
            ),
        ),
{
    let noop = |t: &&String| -> (b: bool)
        ensures
            b == (t@.len() == 0)
    { t.as_str().is_empty() };
    reject_if_set(value, noop, param, detail)
}

/// Refuse what is not implemented, by name.
fn reject_unsupported(req: &CompletionRequest) -> (r: Result<(), ApiError>)
    ensures
        openai::answers(r, parameter_refusal(*req)),
{
    if let Err(e) = reject_not_single(req.n, "n", "This server returns exactly one choice per request.") {
        return Err(e);
    }
    if let Err(e) = reject_not_single(req.best_of, "best_of", "Generating several candidates and ranking them is not implemented.") {
        return Err(e);
    }
    if let Err(e) = reject_flag(req.echo, "echo", "Echoing the prompt back is not implemented.") {
        return Err(e);
    }
    if let Err(e) = reject_suffix(req.suffix.as_ref(), "suffix", "Infilling is not implemented; this model was not trained for it.") {
        return Err(e);
    }
    if let Err(e) = reject_not_one(req.top_p, "top_p", "Crucible samples with top-k; nucleus sampling is not implemented.") {
        return Err(e);
    }
    if let Err(e) = reject_not_zero(req.frequency_penalty, "frequency_penalty", "Repetition penalties are not implemented.") {
        return Err(e);
    }
    if let Err(e) = reject_not_zero(req.presence_penalty, "presence_penalty", "Repetition penalties are not implemented.") {
        return Err(e);
    }
    if let Err(e) = reject_any(req.logprobs, "logprobs", "Token log probabilities are not returned by this server.") {
        return Err(e);
    }
    if let Err(e) = reject_json(req.stop.as_ref(), "stop", "Stop sequences would have to be matched inside the scheduler across token boundaries; the server does not do that yet.") {
        return Err(e);
    }
    if let Err(e) = reject_json(req.logit_bias.as_ref(), "logit_bias", "Logit bias is not implemented.") {
        return Err(e);
    }
    Ok(())
}

/// Check a completion request and turn it into a job.
pub fn prepare(req: &CompletionRequest, model_id: &str) -> (r: Result<Prepared, ApiError>)
    ensures
        openai::answers(r, request_refusal(*req, model_id@)),
        r matches Ok(p) ==> {
            &&& req.prompt == Some(PromptField::Text(p.prompt))
            &&& p.max_tokens == match req.max_tokens {
                Some(n) => n,
                None => 16,
            }
            &&& p.temperature == req.temperature
            &&& p.top_k == req.top_k
            &&& p.seed == openai::seed_of(req.seed)
            &&& p.stream == (req.stream == Some(true))
            &&& p.include_usage == openai::wants_usage(req.stream_options)
        },
{
    if let Err(e) = check_body_model(&req.model, model_id) {
        return Err(e);
    }
    let prompt = match prompt_text(&req.prompt) {
        Ok(p) => p,
        Err(e) => return Err(e),
    };
    if let Err(e) = reject_unsupported(req) {
        return Err(e);
    }
    Ok(
        Prepared {
            prompt,
            max_tokens: match req.max_tokens {
                Some(n) => n,
                None => 16,
            },
            temperature: req.temperature,
            top_k: req.top_k,
            seed: seed_bits(req.seed),
            stream: match req.stream {
                Some(b) => b,
                None => false,
            },
            include_usage: usage_wanted(&req.stream_options),
        },
    )
}

/// What one choice of a completion says.
pub ghost struct ChoiceView {
    pub text: Seq<char>,
    pub index: u32,
    pub logprobs: Option<JsonShape>,
    pub finish_reason: Option<Seq<char>>,
}

/// What a completion object says.
pub ghost struct ResponseView {
    pub id: Seq<char>,
    pub object: Seq<char>,
    pub created: i64,
    pub model: Seq<char>,
    pub choices: Seq<ChoiceView>,
    pub usage: Option<Option<Usage>>,
}

impl View for CompletionChoice {
    type V = ChoiceView;

    open spec fn view(&self) -> ChoiceView {
        ChoiceView {
            text: self.text@,
            index: self.index,
            logprobs: self.logprobs,
            finish_reason: wire::opt_text(self.finish_reason),
        }
    }
}

impl View for CompletionResponse {
    type V = ResponseView;

    open spec fn view(&self) -> ResponseView {
        ResponseView {
            id: self.id@,
            object: self.object@,
            created: self.created,
            model: self.model@,
            choices: self.choices@.map_values(|c: CompletionChoice| c@),
            usage: self.usage,
        }
    }
}

/// One server-sent event of a completion stream.
#[derive(Debug, Clone)]
pub enum CompletionEvent {
    Chunk(CompletionResponse),
    /// The `[DONE]` sentinel.
    Done,
}

/// What an event says.
pub ghost enum EventView {
    Chunk(ResponseView),
    Done,
}

impl View for CompletionEvent {
    type V = EventView;

    open spec fn view(&self) -> EventView {
        match self {
            CompletionEvent::Chunk(c) => EventView::Chunk(c@),
            CompletionEvent::Done => EventView::Done,
        }
    }
}

/// What events say.
pub open spec fn events(v: Seq<CompletionEvent>) -> Seq<EventView> {
    v.map_values(|e: CompletionEvent| e@)
}

/// What all objects of one completion share.
#[derive(Debug)]
pub struct CompletionStream {
    pub id: String,
    pub created: i64,
    pub model: String,
    pub include_usage: bool,
    pub prompt_tokens: usize,
}

/// The token counts of a completion.
pub open spec fn usage_of(prompt_tokens: usize, generated: nat) -> Usage {
    Usage {
        prompt_tokens,
        completion_tokens: generated as usize,
        total_tokens: (prompt_tokens + generated) as usize,
    }
}

impl CompletionStream {
    /// One object of this completion.
    pub open spec fn object_view(
        self,
        choices: Seq<ChoiceView>,
        usage: Option<Option<Usage>>,
    ) -> ResponseView {
        ResponseView {
            id: self.id@,
            object: "text_completion"@,
            created: self.created,
            model: self.model@,
            choices,
            usage,
        }
    }

    /// A chunk that adds text.
    pub open spec fn text_event(self, text: Seq<char>, finish_reason: Option<Seq<char>>) -> EventView {
        EventView::Chunk(
            self.object_view(
                seq![ChoiceView { text, index: 0, logprobs: None, finish_reason }],
                if self.include_usage {
                    Some(None)
                } else {
                    None
                },
            ),
        )
    }

    /// The events that end a stream: the usage where it was asked for, and the
    /// sentinel.
    pub open spec fn closing(self, generated: nat) -> Seq<EventView> {
        if self.include_usage {
            seq![
                EventView::Chunk(
                    self.object_view(
                        Seq::empty(),
                        Some(Some(usage_of(self.prompt_tokens, generated))),
                    ),
                ),
                EventView::Done,
            ]
        } else {
            seq![EventView::Done]
        }
    }

    /// The events for one item.
    pub open spec fn item_events(self, item: service::ItemView) -> Seq<EventView> {
        match item {
            service::ItemView::Token { text } => seq![self.text_event(text, None)],
            service::ItemView::Done { reason, name, generated, tail } => seq![
                self.text_event(tail, Some(name)),
            ] + self.closing(generated),
            service::ItemView::Failed(_) => Seq::empty(),
        }
    }

    fn object(&self, choices: Vec<CompletionChoice>, usage: Option<Option<Usage>>) -> (c:
        CompletionResponse)
        ensures
            c@ == self.object_view(choices@.map_values(|c: CompletionChoice| c@), usage),
            c.choices == choices,
    {
        CompletionResponse {
            id: self.id.clone(),
            object: "text_completion",
            created: self.created,
            model: self.model.clone(),
            choices,
            usage,
        }
    }

    fn chunk(&self, text: String, finish_reason: Option<String>) -> (e: CompletionEvent)
        ensures
            e@ == self.text_event(text@, wire::opt_text(finish_reason)),
    {
        let mut choices: Vec<CompletionChoice> = Vec::new();
        choices.push(CompletionChoice { text, index: 0, logprobs: None, finish_reason });
        assert(choices@.map_values(|c: CompletionChoice| c@) =~= seq![
            ChoiceView {
                text: text@,
                index: 0,
                logprobs: None,
                finish_reason: wire::opt_text(finish_reason),
            },
        ]);
        CompletionEvent::Chunk(
            self.object(
                choices,
                if self.include_usage {
                    Some(None)
                } else {
                    None
                },
            ),
        )
    }

    fn push_closing(&self, out: &mut Vec<CompletionEvent>, generated: usize)
        requires
            self.prompt_tokens + generated <= usize::MAX,
        ensures
            events(final(out)@) == events(old(out)@) + self.closing(generated as nat),
    {
        let ghost start = events(out@);
        if self.include_usage {
            let none: Vec<CompletionChoice> = Vec::new();
            assert(none@.map_values(|c: CompletionChoice| c@) =~= Seq::empty());
            let tail = self.object(none, Some(Some(Usage::new(self.prompt_tokens, generated))));
            out.push(CompletionEvent::Chunk(tail));
        }
        out.push(CompletionEvent::Done);
        assert(events(out@) =~= start + self.closing(generated as nat));
    }

    /// The events for one item, in the order they are sent. Nothing follows the
    /// events of an end or of a failure.
    pub fn on_item(&self, item: StreamItem) -> (out: Vec<CompletionEvent>)
        requires
            item matches StreamItem::Done { generated, .. } ==> self.prompt_tokens + generated
                <= usize::MAX,
        ensures
            events(out@) == self.item_events(item@),
    {
        let mut out: Vec<CompletionEvent> = Vec::new();
        match item {
            StreamItem::Token { text } => {
                out.push(self.chunk(text, None));
            },
            StreamItem::Done { reason: _, name, generated, tail } => {
                out.push(self.chunk(tail, Some(name)));
                self.push_closing(&mut out, generated);
            },
            StreamItem::Failed(_) => {},
        }
        assert(events(out@) =~= self.item_events(item@));
        out
    }

    /// The events where the service goes away before it reports an end.
    pub fn on_close(&self) -> (out: Vec<CompletionEvent>)
        ensures
            events(out@) == self.closing(0),
    {
        let mut out: Vec<CompletionEvent> = Vec::new();
        self.push_closing(&mut out, 0);
        assert(events(out@) =~= self.closing(0));
        out
    }

    /// A complete response out of a collected completion. `finish_reason` is
    /// `length` where the service went away before it reported an end. The
    /// usage is always there.
    pub fn complete(&self, done: Collector) -> (r: CompletionResponse)
        requires
            self.prompt_tokens + done@.generated <= usize::MAX,
        ensures
            r@ == self.object_view(
                seq![
                    ChoiceView {
                        text: done@.text,
                        index: 0,
                        logprobs: None,
                        finish_reason: Some(
                            match done@.finish {
                                Some(f) => f.1,
                                None => "length"@,
                            },
                        ),
                    },
                ],
                Some(Some(usage_of(self.prompt_tokens, done@.generated))),
            ),
    {
        let (text, generated, finish) = done.into_parts();
        let reason = match finish {
            Some((_, name)) => name,
            None => "length".to_owned(),
        };
        let mut choices: Vec<CompletionChoice> = Vec::new();
        choices.push(
            CompletionChoice { text, index: 0, logprobs: None, finish_reason: Some(reason) },
        );
        assert(choices@.map_values(|c: CompletionChoice| c@) =~= seq![
            ChoiceView { text: text@, index: 0, logprobs: None, finish_reason: Some(reason@) },
        ]);
        self.object(choices, Some(Some(Usage::new(self.prompt_tokens, generated))))
    }

    /// The events of a whole stream.
    pub open spec fn run(self, items: Seq<service::ItemView>) -> Seq<EventView>
        decreases items.len(),
    {
        if items.len() == 0 {
            Seq::empty()
        } else {
            self.run(items.drop_last()) + self.item_events(items.last())
        }
    }
}

/// The text of one event.
pub open spec fn event_text(e: EventView) -> Seq<char> {
    match e {
        EventView::Chunk(c) => if c.choices.len() > 0 {
            c.choices[0].text
        } else {
            Seq::empty()
        },
        EventView::Done => Seq::empty(),
    }
}

/// The text of a run of events.
pub open spec fn streamed_text(v: Seq<EventView>) -> Seq<char>
    decreases v.len(),
{
    if v.len() == 0 {
        Seq::empty()
    } else {
        streamed_text(v.drop_last()) + event_text(v.last())
    }
}

proof fn lemma_streamed_text_push(v: Seq<EventView>, e: EventView)
    ensures
        streamed_text(v.push(e)) == streamed_text(v) + event_text(e),
{
    assert(v.push(e).drop_last() =~= v);
}

/// A client that puts a stream together ends with the text of the complete
/// response to the same items.
pub proof fn law_stream_carries_the_completion(
    s: CompletionStream,
    items: Seq<service::ItemView>,
)
    ensures
        streamed_text(s.run(items)) == service::collected(items).text,
    decreases items.len(),
{
    if items.len() > 0 {
        let before = s.run(items.drop_last());
        let item = items.last();
        law_stream_carries_the_completion(s, items.drop_last());
        match item {
            service::ItemView::Token { text } => {
                assert(s.run(items) =~= before.push(s.text_event(text, None)));
                lemma_streamed_text_push(before, s.text_event(text, None));
            },
            service::ItemView::Done { reason, name, generated, tail } => {
                let e = s.text_event(tail, Some(name));
                let mid = before.push(e);
                lemma_streamed_text_push(before, e);
                if s.include_usage {
                    let u = s.closing(generated)[0];
                    lemma_streamed_text_push(mid, u);
                    lemma_streamed_text_push(mid.push(u), EventView::Done);
                    assert(s.run(items) =~= mid.push(u).push(EventView::Done));
                } else {
                    lemma_streamed_text_push(mid, EventView::Done);
                    assert(s.run(items) =~= mid.push(EventView::Done));
                }
                assert(streamed_text(s.run(items)) =~= streamed_text(before) + tail);
            },
            service::ItemView::Failed(_) => {
                assert(s.run(items) =~= before);
            },
        }
    }
}

/// A request is served exactly where it names this model or none, brings one string
/// as its prompt, and asks for nothing that is not implemented.
pub proof fn law_what_is_served(req: CompletionRequest, model_id: Seq<char>)
    ensures
        request_refusal(req, model_id) is None <==> {
            &&& req.model matches Some(m) ==> m@ == model_id
            &&& req.prompt matches Some(PromptField::Text(_))
            &&& req.n matches Some(n) ==> n == 1
            &&& req.best_of matches Some(n) ==> n == 1
            &&& req.echo != Some(true)
            &&& req.suffix matches Some(t) ==> t@.len() == 0
            &&& req.top_p matches Some(p) ==> p.one()
            &&& req.frequency_penalty matches Some(p) ==> p.zero()
            &&& req.presence_penalty matches Some(p) ==> p.zero()
            &&& req.logprobs is None
            &&& !openai::asks(req.stop)
            &&& !openai::asks(req.logit_bias)
        },
        request_refusal(req, model_id) matches Some(e) ==> e.status == (if req.model is Some
            && req.model->0@ != model_id {
            404
        } else {
            400int
        }),
{
}

/// Every chunk of a stream says which stream it belongs to, and has one choice at
/// most.
pub proof fn law_chunks_belong_to_their_stream(
    s: CompletionStream,
    items: Seq<service::ItemView>,
    i: int,
)
    requires
        0 <= i < s.run(items).len(),
    ensures
        s.run(items)[i] matches EventView::Chunk(c) ==> c.id == s.id@ && c.model == s.model@ && c.created
            == s.created && c.choices.len() <= 1,
    decreases items.len(),
{
    if items.len() > 0 {
        let before = s.run(items.drop_last());
        if i < before.len() {
            law_chunks_belong_to_their_stream(s, items.drop_last(), i);
        } else {
            let more = s.item_events(items.last());
            assert(more.len() <= 3);
            assert(s.run(items)[i] == more[i - before.len()]);
        }
    }
}

/// The reason an event gives for the end, if it gives one.
pub open spec fn reason_of(e: EventView) -> Option<Seq<char>> {
    match e {
        EventView::Chunk(c) => if c.choices.len() > 0 {
            c.choices[0].finish_reason
        } else {
            None
        },
        EventView::Done => None,
    }
}

/// The usage an event tells, if it tells one.
pub open spec fn told(e: EventView) -> Option<Usage> {
    match e {
        EventView::Chunk(c) => match c.usage {
            Some(u) => u,
            None => None,
        },
        EventView::Done => None,
    }
}

/// A stream tells why it ended exactly once, with the last of its text and in the
/// service's words; the sentinel is its last event. It tells the usage exactly where
/// that was asked for: the tokens of the prompt, those generated, and both together.
pub proof fn law_stream_tells_its_end(s: CompletionStream, item: service::ItemView)
    requires
        item matches service::ItemView::Done { generated, .. } ==> s.prompt_tokens + generated
            <= usize::MAX,
    ensures
        !(item is Done) ==> forall|i: int|
            0 <= i < s.item_events(item).len() ==> {
                let e = #[trigger] s.item_events(item)[i];
                reason_of(e) is None && told(e) is None && e != EventView::Done
            },
        item matches service::ItemView::Done { name, generated, tail, .. } ==> {
            let v = s.item_events(item);
            let n = v.len() as int;
            &&& n == (if s.include_usage {
                3int
            } else {
                2
            })
            &&& reason_of(v[0]) == Some(name) && event_text(v[0]) == tail
            &&& forall|i: int|
                0 < i < n ==> reason_of(#[trigger] v[i]) is None && event_text(v[i]).len() == 0
            &&& v[n - 1] == EventView::Done
            &&& forall|i: int|
                0 <= i < n && !(s.include_usage && i == n - 2) ==> told(#[trigger] v[i]) is None
            &&& s.include_usage ==> (told(v[n - 2]) matches Some(u) && u.prompt_tokens == s.prompt_tokens
                && u.completion_tokens == generated && u.total_tokens == s.prompt_tokens + generated)
        },
{
}

} // verus!
