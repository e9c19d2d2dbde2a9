//! Chat Completions: `POST /v1/chat/completions`.
//!
//! Messages become one plain-text transcript. One function does this, used by
//! the streaming and non-streaming handlers alike, so the two cannot disagree
//! about what was sent to the model.
use crate::chat_template;
use crate::chat_template::{Role, Turn};
use crate::openai;
use crate::openai::types::{
    ChatChoice, ChatChunk, ChatChunkChoice, ChatDelta, ChatMessage, ChatRequest, ChatResponse,
    ChatResponseMessage, ContentPart, MessageContent, Usage,
};
use crate::openai::{
    check_body_model, json_is_empty, reject_any, reject_flag, reject_if_set, reject_json,
    reject_not_one, reject_not_single, reject_not_zero, seed_bits, usage_wanted, ApiError, Prepared,
};
use crate::service;
use crate::service::{Collector, StreamItem};
use crate::text;
use crate::text::{push_decimal, same_text};
use crate::wire;
use crate::wire::JsonShape;
use vstd::prelude::*;

verus! {

/// The role that a name stands for in a transcript.
pub open spec fn role_named(name: Seq<char>) -> Option<Role> {
    if name == "system"@ || name == "developer"@ {
        Some(Role::System)
    } else if name == "user"@ {
        Some(Role::User)
    } else if name == "assistant"@ {
        Some(Role::Assistant)
    } else {
        None
    }
}

/// The refusal of a role that has no place in a transcript.
pub open spec fn role_refusal(name: Seq<char>) -> openai::ErrorView {
    if name == "tool"@ || name == "function"@ {
        openai::unsupported(
            "messages"@,
            "Role '"@ + name
                + "' requires tool calling, which this server does not implement. Send only system, user and assistant messages."@,
        )
    } else {
        openai::invalid("Unknown message role '"@ + name + "'."@, Some("messages"@))
    }
}

/// Map an incoming role name.
///
/// `developer` is upstream's newer name for `system`. `tool` and `function` are
/// refused: representing a tool result in a transcript would require inventing
/// a convention the model was never trained on.
pub fn role_of(name: &str) -> (r: Result<Role, ApiError>)
    ensures
        match r {
            Ok(role) => role_named(name@) == Some(role),
            Err(e) => role_named(name@) is None && e@ == role_refusal(name@),
        },
{
    if same_text(name, "system") || same_text(name, "developer") {
        return Ok(Role::System);
    }
    if same_text(name, "user") {
        return Ok(Role::User);
    }
    if same_text(name, "assistant") {
        return Ok(Role::Assistant);
    }
    if same_text(name, "tool") || same_text(name, "function") {
        let mut m = "Role '".to_owned();
        m.append(name);
        m.append(
            "' requires tool calling, which this server does not implement. Send only system, user and assistant messages.",
        );
        return Err(ApiError::unsupported("messages", m.as_str()));
    }
    let mut m = "Unknown message role '".to_owned();
    m.append(name);
    m.append("'.");
    Err(ApiError::invalid(m.as_str(), Some("messages")))
}

/// The text of one content part; nothing where the part has none.
pub open spec fn part_text(p: ContentPart) -> Seq<char> {
    match p.text {
        Some(t) => t@,
        None => Seq::empty(),
    }
}

/// The texts of content parts, one after the other.
pub open spec fn parts_text(parts: Seq<ContentPart>) -> Seq<char>
    decreases parts.len(),
{
    if parts.len() == 0 {
        Seq::empty()
    } else {
        parts_text(parts.drop_last()) + part_text(parts.last())
    }
}

/// Index of the first part that is not text, or the length.
pub open spec fn first_other_part(parts: Seq<ContentPart>) -> nat
    decreases parts.len(),
{
    if parts.len() == 0 || parts[0].kind@ != "text"@ {
        0
    } else {
        1 + first_other_part(parts.skip(1))
    }
}

proof fn lemma_first_other_part(parts: Seq<ContentPart>, at: nat)
    requires
        at <= parts.len(),
        forall|k: int| 0 <= k < at ==> (#[trigger] parts[k]).kind@ == "text"@,
        at < parts.len() ==> parts[at as int].kind@ != "text"@,
    ensures
        first_other_part(parts) == at,
    decreases parts.len(),
{
    if at > 0 {
        let rest = parts.skip(1);
        assert forall|k: int| 0 <= k < at - 1 implies (#[trigger] rest[k]).kind@ == "text"@ by {
            assert(rest[k] == parts[k + 1]);
        }
        lemma_first_other_part(rest, (at - 1) as nat);
    }
}

/// The text of a message's content, whatever its parts are.
pub open spec fn text_of(m: ChatMessage) -> Seq<char> {
    match m.content {
        Some(MessageContent::Text(s)) => s@,
        Some(MessageContent::Parts(parts)) => parts_text(parts@),
        _ => Seq::empty(),
    }
}

/// The refusal of a message whose content is not all text.
pub open spec fn content_refusal(m: ChatMessage, index: nat) -> Option<openai::ErrorView> {
    match m.content {
        Some(MessageContent::Parts(parts)) => {
            let bad = first_other_part(parts@);
            if bad < parts@.len() {
                Some(
                    openai::unsupported(
                        "messages"@,
                        "Message "@ + text::decimal(index) + " contains a '"@
                            + parts@[bad as int].kind@
                            + "' content part. This server is text-only; send a string or text content parts."@,
                    ),
                )
            } else {
                None
            }
        },
        _ => None,
    }
}

/// Flatten one message's content to text, refusing anything that is not text.
pub fn content_text(msg: &ChatMessage, index: usize) -> (r: Result<String, ApiError>)
    ensures
        openai::answers(r, content_refusal(*msg, index as nat)),
        r matches Ok(t) ==> t@ == text_of(*msg),
{
    match &msg.content {
        None => Ok(String::new()),
        Some(MessageContent::Null) => Ok(String::new()),
        Some(MessageContent::Text(s)) => Ok(s.clone()),
        Some(MessageContent::Parts(parts)) => {
            let mut out = String::new();
            let mut i: usize = 0;
            while i < parts.len()
                invariant
                    i <= parts@.len(),
                    msg.content matches Some(MessageContent::Parts(p)) && p@ == parts@,
                    forall|k: int| 0 <= k < i ==> (#[trigger] parts@[k]).kind@ == "text"@,
                    out@ == parts_text(parts@.take(i as int)),
                decreases parts@.len() - i,
            {
                let part = &parts[i];
                if !same_text(part.kind.as_str(), "text") {
                    let mut m = "Message ".to_owned();
                    push_decimal(&mut m, index as u64);
                    m.append(" contains a '");
                    m.append(part.kind.as_str());
                    m.append(
                        "' content part. This server is text-only; send a string or text content parts.",
                    );
                    proof {
                        lemma_first_other_part(parts@, i as nat);
                    }
                    return Err(ApiError::unsupported("messages", m.as_str()));
                }
                match &part.text {
                    Some(t) => out.append(t.as_str()),
                    None => {},
                }
                proof {
                    assert(parts@.take(i + 1).drop_last() =~= parts@.take(i as int));
                    assert(out@ =~= parts_text(parts@.take(i as int)) + part_text(
                        parts@[i as int],
                    ));
                }
                i += 1;
            }
            proof {
                lemma_first_other_part(parts@, i as nat);
                assert(parts@.take(i as int) =~= parts@);
            }
            Ok(out)
        },
    }
}

/// Whether a message carries tool calls.
pub open spec fn carries_calls(m: ChatMessage) -> bool {
    openai::asks(m.tool_calls) || openai::asks(m.function_call)
}

/// Why a message cannot be placed in a transcript, if it cannot.
pub open spec fn message_refusal(m: ChatMessage, index: nat) -> Option<openai::ErrorView> {
    if carries_calls(m) {
        Some(
            openai::unsupported(
                "messages"@,
                "Message "@ + text::decimal(index)
                    + " carries tool calls, which this server does not implement."@,
            ),
        )
    } else if role_named(m.role@) is None {
        Some(role_refusal(m.role@))
    } else {
        content_refusal(m, index)
    }
}

/// The refusal of the first message from `from` on that has one.
pub open spec fn first_refusal(messages: Seq<ChatMessage>, from: nat) -> Option<openai::ErrorView>
    decreases messages.len() - from,
{
    if from >= messages.len() {
        None
    } else if message_refusal(messages[from as int], from) is Some {
        message_refusal(messages[from as int], from)
    } else {
        first_refusal(messages, from + 1)
    }
}

/// Why a message list cannot be serialized, if it cannot.
pub open spec fn list_refusal(messages: Seq<ChatMessage>) -> Option<openai::ErrorView> {
    if messages.len() == 0 {
        Some(
            openai::invalid("'messages' must contain at least one message."@, Some("messages"@)),
        )
    } else {
        first_refusal(messages, 0)
    }
}

/// The turn that a message is.
pub open spec fn turn_of(m: ChatMessage) -> chat_template::TurnView {
    chat_template::TurnView { role: role_named(m.role@)->Some_0, text: text_of(m) }
}

/// The turns of a message list.
pub open spec fn turns_of(messages: Seq<ChatMessage>) -> Seq<chat_template::TurnView> {
    messages.map_values(|m: ChatMessage| turn_of(m))
}

fn carries(v: &Option<JsonShape>) -> (b: bool)
    ensures
        b == openai::asks(*v),
{
    match v {
        Some(j) => !json_is_empty(j),
        None => false,
    }
}

/// Turn a message list into the exact string submitted to the model.
///
/// Deterministic and total: the same messages always produce the same prompt.
pub fn serialize(messages: &[ChatMessage]) -> (r: Result<String, ApiError>)
    ensures
        openai::answers(r, list_refusal(messages@)),
        r matches Ok(p) ==> p@ == chat_template::prompt_of(turns_of(messages@)),
{
    if messages.len() == 0 {
        return Err(
            ApiError::invalid("'messages' must contain at least one message.", Some("messages")),
        );
    }
    let mut turns: Vec<Turn> = Vec::new();
    let mut i: usize = 0;
    while i < messages.len()
        invariant
            messages@.len() > 0,
            i <= messages@.len(),
            list_refusal(messages@) == first_refusal(messages@, i as nat),
            chat_template::views(turns@) == turns_of(messages@).take(i as int),
        decreases messages@.len() - i,
    {
        let m = &messages[i];
        if carries(&m.tool_calls) || carries(&m.function_call) {
            let mut t = "Message ".to_owned();
            push_decimal(&mut t, i as u64);
            t.append(" carries tool calls, which this server does not implement.");
            return Err(ApiError::unsupported("messages", t.as_str()));
        }
        let role: Role = match role_of(m.role.as_str()) {
            Ok(role) => role,
            Err(e) => return Err(e),
        };
        let content = match content_text(m, i) {
            Ok(t) => t,
            Err(e) => return Err(e),
        };
        let ghost before = turns@;
        turns.push(Turn { role, text: content });
        proof {
            let next = turn_of(messages@[i as int]);
            assert(turns@.last()@ == next);
            assert(chat_template::views(turns@) =~= chat_template::views(before).push(next));
            assert(turns_of(messages@).take(i + 1) =~= turns_of(messages@).take(i as int).push(
                next,
            ));
        }
        i += 1;
    }
    assert(turns_of(messages@).take(i as int) =~= turns_of(messages@));
    Ok(chat_template::serialize(turns.as_slice()))
}

/// Why a chat request asks for something that is not implemented, if it does:
/// the first such parameter, in the order they are checked.
pub open spec fn parameter_refusal(req: ChatRequest) -> Option<openai::ErrorView> {
    let r = None;
    let r = openai::or(
        r,
        openai::refused((req.n matches Some(n) && n != 1), "n"@, "This server returns exactly one choice per request."@),
    );
    let r = openai::or(
        r,
        openai::refused(openai::not_one(req.top_p), "top_p"@, "Crucible samples with top-k; nucleus sampling is not implemented."@),
    );
    let r = openai::or(
        r,
        openai::refused(openai::not_zero(req.frequency_penalty), "frequency_penalty"@, "Repetition penalties are not implemented."@),
    );
    let r = openai::or(
        r,
        openai::refused(openai::not_zero(req.presence_penalty), "presence_penalty"@, "Repetition penalties are not implemented."@),
    );
    let r = openai::or(
        r,
        openai::refused(req.logprobs == Some(true), "logprobs"@, "Token log probabilities are not returned by this server."@),
    );
    let r = openai::or(
        r,
        openai::refused(req.top_logprobs is Some, "top_logprobs"@, "Token log probabilities are not returned by this server."@),
    );
    let r = openai::or(
        r,
        openai::refused(openai::asks(req.stop), "stop"@, "Stop sequences would have to be matched inside the scheduler across token boundaries; the server does not do that yet, so accepting them would mean generating past the stop and trimming afterwards."@),
    );
    let r = openai::or(
        r,
        openai::refused(openai::asks(req.logit_bias), "logit_bias"@, "Logit bias is not implemented."@),
    );
    let r = openai::or(
        r,
        openai::refused(openai::asks(req.tools), "tools"@, "This model has no tool-calling training; it would never emit a valid call."@),
    );
    let r = openai::or(
        r,
        openai::refused(openai::asks(req.tool_choice), "tool_choice"@, "Tool calling is not implemented."@),
    );
    let r = openai::or(
        r,
        openai::refused(openai::asks(req.functions), "functions"@, "Function calling is not implemented."@),
    );
    let r = openai::or(
        r,
        openai::refused(openai::asks(req.function_call), "function_call"@, "Function calling is not implemented."@),
    );
    let r = openai::or(
        r,
        openai::refused(openai::asks(req.modalities), "modalities"@, "This server is text-only."@),
    );
    let r = openai::or(
        r,
        openai::refused(openai::asks(req.audio), "audio"@, "This server is text-only."@),
    );
    let r = openai::or(
        r,
        openai::refused(openai::asks(req.reasoning_effort), "reasoning_effort"@, "This is not a reasoning model."@),
    );
    let r = openai::or(
        r,
        openai::refused((req.response_format matches Some(v) && !v.hollow() && !v.text_format()), "response_format"@, "Structured output requires constrained decoding, which is not implemented."@),
    );
    r
}

/// The refusal of two spellings of the token budget that disagree.
pub open spec fn budget_refusal(req: ChatRequest) -> Option<openai::ErrorView> {
    match (req.max_tokens, req.max_completion_tokens) {
        (Some(a), Some(b)) => if a != b {
            Some(
                openai::invalid(
                    "'max_tokens' and 'max_completion_tokens' were both given with different values."@,
                    Some("max_completion_tokens"@),
                ),
            )
        } else {
            None
        },
        _ => None,
    }
}

/// Why a chat request is refused, if it is.
pub open spec fn request_refusal(req: ChatRequest, model_id: Seq<char>) -> Option<
    openai::ErrorView,
> {
    openai::or(
        openai::wrong_model(req.model, model_id),
        match req.messages {
            None => Some(openai::missing("messages"@)),
            Some(messages) => openai::or(
                parameter_refusal(req),
                openai::or(budget_refusal(req), list_refusal(messages@)),
            ),
        },
    )
}

/// The token budget of a chat request: what it asks for under either name, or
/// at most 256.
pub open spec fn budget_of(req: ChatRequest, max_new_tokens: usize) -> usize {
    match (req.max_tokens, req.max_completion_tokens) {
        (_, Some(b)) => b,
        (Some(a), None) => a,
        (None, None) => if max_new_tokens <= 256 {
            max_new_tokens
        } else {
            256
        },
    }
}

fn reject_format(value: Option<&JsonShape>, param: &str, detail: &str) -> (r: Result<
    (),
    ApiError,
>)
    ensures
        openai::answers(
            r,
            openai::refused(
                match value {
                    Some(v) => !v.hollow() && !v.text_format(),
                    None => false,
                },
                param@,
                detail@,
            ),
        ),
{
    let noop = |v: &&JsonShape| -> (b: bool)
        ensures
            b == (v.hollow() || v.text_format())
    { json_is_empty(*v) || v.is_text_format() };
    reject_if_set(value, noop, param, detail)
}

/// Refuse what is not implemented, by name.
fn reject_unsupported(req: &ChatRequest) -> (r: Result<(), ApiError>)
    ensures
        openai::answers(r, parameter_refusal(*req)),
{
    if let Err(e) = reject_not_single(req.n, "n", "This server returns exactly one choice per request.") {
        return Err(e);
    }
    if let Err(e) = reject_not_one(req.top_p, "top_p", "Crucible samples with top-k; nucleus sampling is not implemented.") {
        return Err(e);
    }
    if let Err(e) = reject_not_zero(req.frequency_penalty, "frequency_penalty", "Repetition penalties are not implemented.") {
        return Err(e);
    }
    if let Err(e) = reject_not_zero(req.presence_penalty, "presence_penalty", "Repetition penalties are not implemented.") {
        return Err(e);
    }
    if let Err(e) = reject_flag(req.logprobs, "logprobs", "Token log probabilities are not returned by this server.") {
        return Err(e);
    }
    if let Err(e) = reject_any(req.top_logprobs, "top_logprobs", "Token log probabilities are not returned by this server.") {
        return Err(e);
    }
    if let Err(e) = reject_json(req.stop.as_ref(), "stop", "Stop sequences would have to be matched inside the scheduler across token boundaries; the server does not do that yet, so accepting them would mean generating past the stop and trimming afterwards.") {
        return Err(e);
    }
    if let Err(e) = reject_json(req.logit_bias.as_ref(), "logit_bias", "Logit bias is not implemented.") {
        return Err(e);
    }
    if let Err(e) = reject_json(req.tools.as_ref(), "tools", "This model has no tool-calling training; it would never emit a valid call.") {
        return Err(e);
    }
    if let Err(e) = reject_json(req.tool_choice.as_ref(), "tool_choice", "Tool calling is not implemented.") {
        return Err(e);
    }
    if let Err(e) = reject_json(req.functions.as_ref(), "functions", "Function calling is not implemented.") {
        return Err(e);
    }
    if let Err(e) = reject_json(req.function_call.as_ref(), "function_call", "Function calling is not implemented.") {
        return Err(e);
    }
    if let Err(e) = reject_json(req.modalities.as_ref(), "modalities", "This server is text-only.") {
        return Err(e);
    }
    if let Err(e) = reject_json(req.audio.as_ref(), "audio", "This server is text-only.") {
        return Err(e);
    }
    if let Err(e) = reject_json(req.reasoning_effort.as_ref(), "reasoning_effort", "This is not a reasoning model.") {
        return Err(e);
    }
    if let Err(e) = reject_format(req.response_format.as_ref(), "response_format", "Structured output requires constrained decoding, which is not implemented.") {
        return Err(e);
    }
    Ok(())
}

/// Check a chat request and turn it into a job. `max_new_tokens` is the
/// service's own limit.
pub fn prepare(req: &ChatRequest, model_id: &str, max_new_tokens: usize) -> (r: Result<
    Prepared,
    ApiError,
>)
    ensures
        openai::answers(r, request_refusal(*req, model_id@)),
        r matches Ok(p) ==> {
            &&& req.messages matches Some(messages)
            &&& p.prompt@ == chat_template::prompt_of(turns_of(messages@))
            &&& p.max_tokens == budget_of(*req, max_new_tokens)
            &&& req.max_tokens matches Some(a) ==> p.max_tokens == a
            &&& req.max_completion_tokens matches Some(b) ==> p.max_tokens == b
            &&& req.max_tokens is None && req.max_completion_tokens is None ==> p.max_tokens
                == crate::math::least(max_new_tokens as nat, 256)
            &&& p.temperature == req.temperature
            &&& p.top_k == req.top_k
            &&& p.seed == openai::seed_of(req.seed)
            &&& p.stream == (req.stream == Some(true))
            &&& p.include_usage == openai::wants_usage(req.stream_options)
        },
{
    if let Err(e) = check_body_model(&req.model, model_id) {
        return Err(e);
    }
    let messages = match &req.messages {
        Some(m) => m,
        None => return Err(ApiError::missing("messages")),
    };
    if let Err(e) = reject_unsupported(req) {
        return Err(e);
    }
    let max_tokens: usize = match (req.max_tokens, req.max_completion_tokens) {
        (Some(a), Some(b)) => {
            if a != b {
                return Err(
                    ApiError::invalid(
                        "'max_tokens' and 'max_completion_tokens' were both given with different values.",
                        Some("max_completion_tokens"),
                    ),
                );
            }
            b
        },
        (None, Some(b)) => b,
        (Some(a), None) => a,
        (None, None) => crate::math::min(max_new_tokens, 256),
    };
    let prompt = match serialize(messages.as_slice()) {
        Ok(p) => p,
        Err(e) => return Err(e),
    };
    Ok(
        Prepared {
            prompt,
            max_tokens,
            temperature: req.temperature,
            top_k: req.top_k,
            seed: seed_bits(req.seed),
            stream: match req.stream {
                Some(b) => b,
                None => false,
            },
            include_usage: usage_wanted(&req.stream_options),
        },
    )
}

/// What one choice of a chunk says.
pub ghost struct ChoiceView {
    pub index: u32,
    pub role: Option<Seq<char>>,
    pub content: Option<Seq<char>>,
    pub logprobs: Option<JsonShape>,
    pub finish_reason: Option<Seq<char>>,
}

/// What a chunk says.
pub ghost struct ChunkView {
    pub id: Seq<char>,
    pub object: Seq<char>,
    pub created: i64,
    pub model: Seq<char>,
    pub choices: Seq<ChoiceView>,
    pub usage: Option<Option<Usage>>,
}

impl View for ChatChunkChoice {
    type V = ChoiceView;

    open spec fn view(&self) -> ChoiceView {
        ChoiceView {
            index: self.index,
            role: wire::opt_str(self.delta.role),
            content: wire::opt_text(self.delta.content),
            logprobs: self.logprobs,
            finish_reason: wire::opt_text(self.finish_reason),
        }
    }
}

impl View for ChatChunk {
    type V = ChunkView;

    open spec fn view(&self) -> ChunkView {
        ChunkView {
            id: self.id@,
            object: self.object@,
            created: self.created,
            model: self.model@,
            choices: self.choices@.map_values(|c: ChatChunkChoice| c@),
            usage: self.usage,
        }
    }
}

/// One server-sent event of a chat stream.
#[derive(Debug, Clone)]
pub enum ChatEvent {
    Chunk(ChatChunk),
    /// The `[DONE]` sentinel.
    Done,
}

/// What an event says.
pub ghost enum EventView {
    Chunk(ChunkView),
    Done,
}

impl View for ChatEvent {
    type V = EventView;

    open spec fn view(&self) -> EventView {
        match self {
            ChatEvent::Chunk(c) => EventView::Chunk(c@),
            ChatEvent::Done => EventView::Done,
        }
    }
}

/// What events say.
pub open spec fn events(v: Seq<ChatEvent>) -> Seq<EventView> {
    v.map_values(|e: ChatEvent| e@)
}

/// What all chunks of one stream share.
#[derive(Debug)]
pub struct ChatStream {
    pub id: String,
    pub created: i64,
    pub model: String,
    pub include_usage: bool,
    pub prompt_tokens: usize,
}

impl ChatStream {
    /// A chunk of this stream with one choice.
    pub open spec fn chunk_view(
        self,
        role: Option<Seq<char>>,
        content: Option<Seq<char>>,
        finish_reason: Option<Seq<char>>,
    ) -> ChunkView {
        ChunkView {
            id: self.id@,
            object: "chat.completion.chunk"@,
            created: self.created,
            model: self.model@,
            choices: seq![ChoiceView { index: 0, role, content, logprobs: None, finish_reason }],
            usage: if self.include_usage {
                Some(None)
            } else {
                None
            },
        }
    }

    /// A chunk that adds text.
    pub open spec fn text_event(self, text: Seq<char>) -> EventView {
        EventView::Chunk(self.chunk_view(None, Some(text), None))
    }

    /// The chunk that tells the usage.
    pub open spec fn usage_event(self, generated: nat) -> EventView {
        EventView::Chunk(
            ChunkView {
                choices: Seq::empty(),
                usage: Some(
                    Some(
                        Usage {
                            prompt_tokens: self.prompt_tokens,
                            completion_tokens: generated as usize,
                            total_tokens: (self.prompt_tokens + generated) as usize,
                        },
                    ),
                ),
                ..self.chunk_view(None, None, None)
            },
        )
    }

    /// The events that end a stream: the usage where it was asked for, and the
    /// sentinel.
    pub open spec fn closing(self, generated: nat) -> Seq<EventView> {
        if self.include_usage {
            seq![self.usage_event(generated), EventView::Done]
        } else {
            seq![EventView::Done]
        }
    }

    /// The events for one item.
    pub open spec fn item_events(self, item: service::ItemView) -> Seq<EventView> {
        match item {
            service::ItemView::Token { text } => seq![self.text_event(text)],
            service::ItemView::Done { reason, name, generated, tail } => (if tail.len() > 0 {
                seq![self.text_event(tail)]
            } else {
                Seq::empty()
            }) + seq![EventView::Chunk(self.chunk_view(None, None, Some(name)))] + self.closing(
                generated,
            ),
            service::ItemView::Failed(_) => Seq::empty(),
        }
    }

    fn chunk(
        &self,
        role: Option<&'static str>,
        content: Option<String>,
        finish_reason: Option<String>,
    ) -> (c: ChatChunk)
        ensures
            c@ == self.chunk_view(
                wire::opt_str(role),
                wire::opt_text(content),
                wire::opt_text(finish_reason),
            ),
    {
        let mut choices: Vec<ChatChunkChoice> = Vec::new();
        choices.push(
            ChatChunkChoice {
                index: 0,
                delta: ChatDelta { role, content },
                logprobs: None,
                finish_reason,
            },
        );
        let c = ChatChunk {
            id: self.id.clone(),
            object: "chat.completion.chunk",
            created: self.created,
            model: self.model.clone(),
            choices,
            usage: if self.include_usage {
                Some(None)
            } else {
                None
            },
        };
        assert(c@.choices =~= self.chunk_view(
            wire::opt_str(role),
            wire::opt_text(content),
            wire::opt_text(finish_reason),
        ).choices);
        c
    }

    /// The first chunk: the role, and no text yet.
    pub fn head(&self) -> (e: ChatEvent)
        ensures
            e@ == EventView::Chunk(
                self.chunk_view(Some("assistant"@), Some(Seq::<char>::empty()), None),
            ),
    {
        ChatEvent::Chunk(self.chunk(Some("assistant"), Some(String::new()), None))
    }

    fn push_closing(&self, out: &mut Vec<ChatEvent>, generated: usize)
        requires
            self.prompt_tokens + generated <= usize::MAX,
        ensures
            events(final(out)@) == events(old(out)@) + self.closing(generated as nat),
    {
        let ghost start = events(out@);
        if self.include_usage {
            let tail = ChatChunk {
                id: self.id.clone(),
                object: "chat.completion.chunk",
                created: self.created,
                model: self.model.clone(),
                choices: Vec::new(),
                usage: Some(Some(Usage::new(self.prompt_tokens, generated))),
            };
            proof {
                assert(tail@.choices =~= Seq::empty());
            }
            out.push(ChatEvent::Chunk(tail));
        }
        out.push(ChatEvent::Done);
        assert(events(out@) =~= start + self.closing(generated as nat));
    }

    /// The events for one item, in the order they are sent. Nothing follows the
    /// events of an end or of a failure.
    pub fn on_item(&self, item: StreamItem) -> (out: Vec<ChatEvent>)
        requires
            item matches StreamItem::Done { generated, .. } ==> self.prompt_tokens + generated
                <= usize::MAX,
        ensures
            events(out@) == self.item_events(item@),
    {
        let mut out: Vec<ChatEvent> = Vec::new();
        match item {
            StreamItem::Token { text } => {
                out.push(ChatEvent::Chunk(self.chunk(None, Some(text), None)));
            },
            StreamItem::Done { reason: _, name, generated, tail } => {
                if !tail.as_str().is_empty() {
                    out.push(ChatEvent::Chunk(self.chunk(None, Some(tail), None)));
                }
                out.push(ChatEvent::Chunk(self.chunk(None, None, Some(name))));
                self.push_closing(&mut out, generated);
            },
            StreamItem::Failed(_) => {},
        }
        assert(events(out@) =~= self.item_events(item@));
        out
    }

    /// The events where the service goes away before it reports an end.
    pub fn on_close(&self) -> (out: Vec<ChatEvent>)
        ensures
            events(out@) == self.closing(0),
    {
        let mut out: Vec<ChatEvent> = Vec::new();
        self.push_closing(&mut out, 0);
        assert(events(out@) =~= self.closing(0));
        out
    }
}

/// A complete response out of a collected completion. `finish_reason` is
/// `length` where the service went away before it reported an end.
pub fn complete(
    done: Collector,
    id: String,
    created: i64,
    model: &str,
    prompt_tokens: usize,
) -> (r: ChatResponse)
    requires
        prompt_tokens + done@.generated <= usize::MAX,
    ensures
        r.id == id,
        r.object@ == "chat.completion"@,
        r.created == created,
        r.model@ == model@,
        r.choices@.len() == 1,
        r.choices@[0].index == 0,
        r.choices@[0].message.role@ == "assistant"@,
        r.choices@[0].message.content@ == done@.text,
        r.choices@[0].message.refusal is None,
        r.choices@[0].logprobs is None,
        r.choices@[0].finish_reason@ == (match done@.finish {
            Some(f) => f.1,
            None => "length"@,
        }),
        r.usage.prompt_tokens == prompt_tokens,
        r.usage.completion_tokens == done@.generated,
        r.usage.total_tokens == prompt_tokens + done@.generated,
{
    let (text, generated, finish) = done.into_parts();
    let mut choices: Vec<ChatChoice> = Vec::new();
    choices.push(
        ChatChoice {
            index: 0,
            message: ChatResponseMessage { role: "assistant", content: text, refusal: None },
            logprobs: None,
            finish_reason: match finish {
                Some((_, name)) => name,
                None => "length".to_owned(),
            },
        },
    );
    ChatResponse {
        id,
        object: "chat.completion",
        created,
        model: model.to_owned(),
        choices,
        usage: Usage::new(prompt_tokens, generated),
    }
}

/// The text that events add to the message.
pub open spec fn streamed_text(v: Seq<EventView>) -> Seq<char>
    decreases v.len(),
{
    if v.len() == 0 {
        Seq::empty()
    } else {
        streamed_text(v.drop_last()) + match v.last() {
            EventView::Chunk(c) => if c.choices.len() > 0 {
                match c.choices[0].content {
                    Some(t) => t,
                    None => Seq::empty(),
                }
            } else {
                Seq::empty()
            },
            EventView::Done => Seq::empty(),
        }
    }
}

proof fn lemma_streamed_text_push(v: Seq<EventView>, e: EventView)
    ensures
        streamed_text(v.push(e)) == streamed_text(v) + streamed_text(seq![e]),
{
    assert(v.push(e).drop_last() =~= v);
    assert(seq![e].drop_last() =~= Seq::empty());
    assert(streamed_text(seq![e].drop_last()) =~= Seq::empty());
    assert(streamed_text(v.push(e)) =~= streamed_text(v) + streamed_text(seq![e]));
}

impl ChatStream {
    /// The events of a whole stream: the head, and what each item adds.
    pub open spec fn run(self, items: Seq<service::ItemView>) -> Seq<EventView>
        decreases items.len(),
    {
        if items.len() == 0 {
            seq![
                EventView::Chunk(
                    self.chunk_view(Some("assistant"@), Some(Seq::<char>::empty()), None),
                ),
            ]
        } else {
            self.run(items.drop_last()) + self.item_events(items.last())
        }
    }
}

/// A client that puts a stream together ends with the text of the complete
/// response to the same items.
pub proof fn law_stream_carries_the_completion(s: ChatStream, items: Seq<service::ItemView>)
    ensures
        streamed_text(s.run(items)) == service::collected(items).text,
    decreases items.len(),
{
    if items.len() == 0 {
        lemma_one(s.run(items)[0]);
        assert(streamed_text(s.run(items)) =~= Seq::empty());
    } else {
        law_stream_carries_the_completion(s, items.drop_last());
        lemma_item_adds_its_text(s, s.run(items.drop_last()), items.last());
        assert(streamed_text(s.run(items)) =~= service::collected(items).text);
    }
}

proof fn lemma_item_adds_its_text(
    s: ChatStream,
    before: Seq<EventView>,
    item: service::ItemView,
)
    ensures
        streamed_text(before + s.item_events(item)) == streamed_text(before) + item.added(),
{
    match item {
        service::ItemView::Token { text } => {
            assert(before + s.item_events(item) =~= before.push(s.text_event(text)));
            lemma_streamed_text_push(before, s.text_event(text));
            lemma_one(s.text_event(text));
        },
        service::ItemView::Done { reason, name, generated, tail } => {
            let last = EventView::Chunk(s.chunk_view(None, None, Some(name)));
            let head = if tail.len() > 0 {
                before.push(s.text_event(tail))
            } else {
                before
            };
            if tail.len() > 0 {
                lemma_streamed_text_push(before, s.text_event(tail));
                lemma_one(s.text_event(tail));
            } else {
                assert(tail =~= Seq::empty());
            }
            assert(streamed_text(head) =~= streamed_text(before) + tail);
            lemma_streamed_text_push(head, last);
            lemma_one(last);
            let mid = head.push(last);
            assert(streamed_text(mid) =~= streamed_text(head));
            if s.include_usage {
                let u = s.usage_event(generated);
                lemma_streamed_text_push(mid, u);
                lemma_one(u);
                lemma_streamed_text_push(mid.push(u), EventView::Done);
                lemma_one(EventView::Done);
                assert(before + s.item_events(item) =~= mid.push(u).push(EventView::Done));
            } else {
                lemma_streamed_text_push(mid, EventView::Done);
                lemma_one(EventView::Done);
                assert(before + s.item_events(item) =~= mid.push(EventView::Done));
            }
            assert(streamed_text(before + s.item_events(item)) =~= streamed_text(before) + tail);
        },
        service::ItemView::Failed(_) => {
            assert(before + s.item_events(item) =~= before);
            assert(streamed_text(before) + Seq::<char>::empty() =~= streamed_text(before));
        },
    }
}

/// A stream ends with the sentinel exactly when generation did not fail.
pub proof fn law_sentinel_means_success(s: ChatStream, item: service::ItemView)
    ensures
        item is Done ==> s.item_events(item).last() == EventView::Done,
        item is Failed ==> s.item_events(item).len() == 0,
        item is Token ==> s.item_events(item).len() == 1 && s.item_events(item)[0]
            != EventView::Done,
{
}

proof fn lemma_one(e: EventView)
    ensures
        streamed_text(seq![e]) == (match e {
            EventView::Chunk(c) => if c.choices.len() > 0 {
                match c.choices[0].content {
                    Some(t) => t,
                    None => Seq::<char>::empty(),
                }
            } else {
                Seq::<char>::empty()
            },
            EventView::Done => Seq::<char>::empty(),
        }),
{
    assert(seq![e].drop_last() =~= Seq::empty());
    assert(streamed_text(seq![e].drop_last()) =~= Seq::empty());
    assert(streamed_text(seq![e]) =~= (match e {
        EventView::Chunk(c) => if c.choices.len() > 0 {
            match c.choices[0].content {
                Some(t) => t,
                None => Seq::<char>::empty(),
            }
        } else {
            Seq::<char>::empty()
        },
        EventView::Done => Seq::<char>::empty(),
    }));
}

/// An accepted request is given the budget it asks for, under whichever name it
/// asks. Only where it asks under neither is there a default, and that is no more
/// than the service allows.
pub proof fn law_budget_is_what_was_asked(req: ChatRequest, model_id: Seq<char>, limit: usize)
    requires
        request_refusal(req, model_id) is None,
    ensures
        req.max_tokens matches Some(a) ==> budget_of(req, limit) == a,
        req.max_completion_tokens matches Some(b) ==> budget_of(req, limit) == b,
        req.max_tokens is None && req.max_completion_tokens is None ==> {
            let b = budget_of(req, limit);
            b <= limit && b <= 256 && (b == limit || b == 256)
        },
{
}

/// The texts of parts are joined in order, each as it is.
pub proof fn law_parts_are_joined(a: Seq<ContentPart>, b: Seq<ContentPart>, p: ContentPart)
    ensures
        parts_text(a + b) == parts_text(a) + parts_text(b),
        p.text matches Some(t) ==> parts_text(seq![p]) == t@,
        p.text is None ==> parts_text(seq![p]).len() == 0,
    decreases b.len(),
{
    assert(seq![p].drop_last() =~= Seq::empty());
    assert(parts_text(seq![p].drop_last()) =~= Seq::empty());
    assert(parts_text(seq![p]) =~= part_text(p));
    if b.len() == 0 {
        assert(a + b =~= a);
        assert(parts_text(a) + parts_text(b) =~= parts_text(a));
    } else {
        assert((a + b).drop_last() =~= a + b.drop_last());
        law_parts_are_joined(a, b.drop_last(), p);
        assert(parts_text(a + b) =~= parts_text(a) + parts_text(b));
    }
}

/// A speaker's label in the transcript is the role's own name: but for its capital
/// letter it is the name and a colon. `developer` speaks as `system`.
pub proof fn law_speakers_keep_their_name(name: Seq<char>)
    ensures
        name != "developer"@ ==> (role_named(name) matches Some(r) ==> r.label_text().skip(1)
            == name.skip(1).push(':')),
        role_named("developer"@) == role_named("system"@),
        role_named(name) is Some <==> name == "system"@ || name == "developer"@ || name == "user"@ || name
            == "assistant"@,
{
    reveal_strlit("system");
    reveal_strlit("user");
    reveal_strlit("assistant");
    reveal_strlit("developer");
    reveal_strlit("System:");
    reveal_strlit("User:");
    reveal_strlit("Assistant:");
    if role_named(name) is Some && name != "developer"@ {
        assert(role_named(name)->0.label_text().skip(1) =~= name.skip(1).push(':'));
    }
}

proof fn lemma_no_refusal(messages: Seq<ChatMessage>, from: nat)
    ensures
        first_refusal(messages, from) is None <==> forall|i: int|
            from <= i < messages.len() ==> message_refusal(#[trigger] messages[i], i as nat) is None,
    decreases messages.len() - from,
{
    if from < messages.len() {
        lemma_no_refusal(messages, from + 1);
        if first_refusal(messages, from) is None {
            assert forall|i: int| from <= i < messages.len() implies message_refusal(
                #[trigger] messages[i],
                i as nat,
            ) is None by {}
        } else if message_refusal(messages[from as int], from) is None {
            let i = choose|i: int|
                from + 1 <= i < messages.len() && message_refusal(#[trigger] messages[i], i as nat) is Some;
            assert(message_refusal(messages[i], i as nat) is Some);
        } else {
            assert(message_refusal(messages[from as int], from) is Some);
        }
    }
}

proof fn lemma_all_text(parts: Seq<ContentPart>)
    ensures
        first_other_part(parts) <= parts.len(),
        first_other_part(parts) == parts.len() <==> forall|k: int|
            0 <= k < parts.len() ==> (#[trigger] parts[k]).kind@ == "text"@,
    decreases parts.len(),
{
    if parts.len() > 0 && parts[0].kind@ == "text"@ {
        let rest = parts.skip(1);
        lemma_all_text(rest);
        if first_other_part(rest) == rest.len() {
            assert forall|k: int| 0 <= k < parts.len() implies (#[trigger] parts[k]).kind@ == "text"@ by {
                if k > 0 {
                    assert(rest[k - 1].kind@ == "text"@);
                }
            }
        } else {
            let k = choose|k: int| 0 <= k < rest.len() && (#[trigger] rest[k]).kind@ != "text"@;
            assert(parts[k + 1].kind@ != "text"@);
        }
    }
}

/// A message that can stand in a transcript: from a known speaker, all text, and
/// without tool calls.
pub open spec fn speaks(m: ChatMessage) -> bool {
    &&& !openai::asks(m.tool_calls)
    &&& !openai::asks(m.function_call)
    &&& m.role@ == "system"@ || m.role@ == "developer"@ || m.role@ == "user"@ || m.role@ == "assistant"@
    &&& m.content matches Some(MessageContent::Parts(parts)) ==> forall|k: int|
        0 <= k < parts@.len() ==> (#[trigger] parts@[k]).kind@ == "text"@
}

/// A request is served exactly where it names this model or none, brings at least
/// one message, each of which can stand in a transcript, does not contradict itself
/// about its budget, and asks for nothing that is not implemented.
pub proof fn law_what_is_served(req: ChatRequest, model_id: Seq<char>)
    ensures
        request_refusal(req, model_id) is None <==> {
            &&& req.model matches Some(m) ==> m@ == model_id
            &&& req.messages matches Some(v) && v@.len() > 0 && forall|i: int|
                0 <= i < v@.len() ==> speaks(#[trigger] v@[i])
            &&& req.max_tokens is Some && req.max_completion_tokens is Some ==> req.max_tokens
                == req.max_completion_tokens
            &&& req.n matches Some(n) ==> n == 1
            &&& req.top_p matches Some(p) ==> p.one()
            &&& req.frequency_penalty matches Some(p) ==> p.zero()
            &&& req.presence_penalty matches Some(p) ==> p.zero()
            &&& req.logprobs != Some(true)
            &&& req.top_logprobs is None
            &&& !openai::asks(req.stop)
            &&& !openai::asks(req.logit_bias)
            &&& !openai::asks(req.tools)
            &&& !openai::asks(req.tool_choice)
            &&& !openai::asks(req.functions)
            &&& !openai::asks(req.function_call)
            &&& !openai::asks(req.modalities)
            &&& !openai::asks(req.audio)
            &&& !openai::asks(req.reasoning_effort)
            &&& req.response_format matches Some(f) ==> f.hollow() || f.text_format()
        },
        request_refusal(req, model_id) matches Some(e) ==> e.status == (if req.model is Some
            && req.model->0@ != model_id {
            404
        } else {
            400int
        }),
{
    if let Some(v) = req.messages {
        lemma_no_refusal(v@, 0);
        assert forall|i: int| 0 <= i < v@.len() implies (message_refusal(#[trigger] v@[i], i as nat) is None
            <==> speaks(v@[i])) by {
            if let Some(MessageContent::Parts(parts)) = v@[i].content {
                lemma_all_text(parts@);
            }
        }
        lemma_refusals_are_bad_requests(v@, 0);
    }
}

proof fn lemma_refusals_are_bad_requests(messages: Seq<ChatMessage>, from: nat)
    ensures
        first_refusal(messages, from) matches Some(e) ==> e.status == 400,
    decreases messages.len() - from,
{
    if from < messages.len() {
        lemma_refusals_are_bad_requests(messages, from + 1);
    }
}

/// Every chunk of a stream says which stream it belongs to, and has one choice at
/// most.
pub proof fn law_chunks_belong_to_their_stream(s: ChatStream, items: Seq<service::ItemView>, i: int)
    requires
        0 <= i < s.run(items).len(),
    ensures
        s.run(items)[i] matches EventView::Chunk(c) ==> c.id == s.id@ && c.model == s.model@ && c.created
            == s.created && c.choices.len() <= 1,
    decreases items.len(),
{
    if items.len() > 0 {
        let before = s.run(items.drop_last());
        if i < before.len() {
            law_chunks_belong_to_their_stream(s, items.drop_last(), i);
        } else {
            let more = s.item_events(items.last());
            assert(more.len() <= 4);
            assert(s.run(items)[i] == more[i - before.len()]);
        }
    }
}

/// The reason an event gives for the end, if it gives one.
pub open spec fn reason_of(e: EventView) -> Option<Seq<char>> {
    match e {
        EventView::Chunk(c) => if c.choices.len() > 0 {
            c.choices[0].finish_reason
        } else {
            None
        },
        EventView::Done => None,
    }
}

/// The usage an event tells, if it tells one.
pub open spec fn told(e: EventView) -> Option<Usage> {
    match e {
        EventView::Chunk(c) => match c.usage {
            Some(u) => u,
            None => None,
        },
        EventView::Done => None,
    }
}

/// A stream tells why it ended exactly once, at its end, in the service's words,
/// and behind all of its text. It tells the usage exactly where that was asked for:
/// the tokens of the prompt, those generated, and both together.
pub proof fn law_stream_tells_its_end(s: ChatStream, item: service::ItemView)
    requires
        item matches service::ItemView::Done { generated, .. } ==> s.prompt_tokens + generated
            <= usize::MAX,
    ensures
        !(item is Done) ==> forall|i: int|
            0 <= i < s.item_events(item).len() ==> reason_of(#[trigger] s.item_events(item)[i]) is None
                && told(s.item_events(item)[i]) is None,
        item matches service::ItemView::Done { name, generated, .. } ==> {
            let v = s.item_events(item);
            let n = v.len() as int;
            let at = if s.include_usage {
                n - 3
            } else {
                n - 2
            };
            &&& 0 <= at
            &&& reason_of(v[at]) == Some(name)
            &&& forall|i: int| 0 <= i < n && i != at ==> reason_of(#[trigger] v[i]) is None
            &&& streamed_text(v.skip(at)) == Seq::<char>::empty()
            &&& forall|i: int|
                0 <= i < n && !(s.include_usage && i == n - 2) ==> told(#[trigger] v[i]) is None
            &&& s.include_usage ==> (told(v[n - 2]) matches Some(u) && u.prompt_tokens == s.prompt_tokens
                && u.completion_tokens == generated && u.total_tokens == s.prompt_tokens + generated)
        },
{
    if let service::ItemView::Done { reason, name, generated, tail } = item {
        let v = s.item_events(item);
        let at = if s.include_usage {
            v.len() - 3
        } else {
            v.len() - 2
        };
        let last = EventView::Chunk(s.chunk_view(None, None, Some(name)));
        assert(v[at] == last);
        lemma_one(last);
        lemma_one(EventView::Done);
        if s.include_usage {
            let u = s.usage_event(generated);
            lemma_one(u);
            lemma_streamed_text_push(seq![last], u);
            lemma_streamed_text_push(seq![last].push(u), EventView::Done);
            assert(v.skip(at) =~= seq![last].push(u).push(EventView::Done));
        } else {
            lemma_streamed_text_push(seq![last], EventView::Done);
            assert(v.skip(at) =~= seq![last].push(EventView::Done));
        }
        assert(streamed_text(v.skip(at)) =~= Seq::<char>::empty());
    }
}

} // verus!
