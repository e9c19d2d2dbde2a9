//! Wire types for the OpenAI-compatible endpoints.
//!
//! Separate from the native protocol: these types are pinned to a published
//! schema and may only change when that schema does. Where a field would change
//! generation behaviour that is not implemented, it is captured so the handler
//! can reject it rather than ignore it.
use crate::wire::{F32Bits, F64Bits, JsonShape};
use vstd::prelude::*;

verus! {

/// Token accounting, from the tokenizer rather than from string lengths.
#[derive(Debug, Clone, Copy, PartialEq, Eq, Structural)]
pub struct Usage {
    pub prompt_tokens: usize,
    pub completion_tokens: usize,
    pub total_tokens: usize,
}

impl Usage {
    /// The counts and their sum.
    pub fn new(prompt_tokens: usize, completion_tokens: usize) -> (u: Self)
        requires
            prompt_tokens + completion_tokens <= usize::MAX,
        ensures
            u.prompt_tokens == prompt_tokens,
            u.completion_tokens == completion_tokens,
            u.total_tokens == prompt_tokens + completion_tokens,
    {
        Usage {
            prompt_tokens,
            completion_tokens,
            total_tokens: prompt_tokens + completion_tokens,
        }
    }
}

/// `stream_options`, of which only `include_usage` is meaningful here.
#[derive(Debug, Clone, Copy, PartialEq, Eq, Structural)]
pub struct StreamOptions {
    pub include_usage: Option<bool>,
}

impl Default for StreamOptions {
    fn default() -> (o: Self)
        ensures
            o.include_usage is None,
    {
        StreamOptions { include_usage: None }
    }
}

/// One entry of the model list.
#[derive(Debug, Clone)]
pub struct ModelObject {
    pub id: String,
    pub object: &'static str,
    pub created: i64,
    pub owned_by: &'static str,
}

impl ModelObject {
    /// The entry of a model. The owner is the engine that serves it.
    pub fn new(id: &str, created: i64) -> (m: Self)
        ensures
            m.id@ == id@,
            m.object@ == "model"@,
            m.created == created,
            m.owned_by@ == "crucible"@,
    {
        ModelObject { id: id.to_owned(), object: "model", created, owned_by: "crucible" }
    }
}

/// The model list.
#[derive(Debug, Clone)]
pub struct ModelList {
    pub object: &'static str,
    pub data: Vec<ModelObject>,
}

/// One message's content: a bare string, or the structured content-part array.
#[derive(Debug, Clone)]
pub enum MessageContent {
    Text(String),
    Parts(Vec<ContentPart>),
    /// `null` is legal upstream for assistant messages with tool calls.
    Null,
}

/// A structured content part. Only `text` carries anything usable; every other
/// type is captured so it can be rejected by name.
#[derive(Debug, Clone)]
pub struct ContentPart {
    pub kind: String,
    pub text: Option<String>,
}

/// One message of a chat request.
#[derive(Debug, Clone)]
pub struct ChatMessage {
    pub role: String,
    pub content: Option<MessageContent>,
    pub name: Option<String>,
    /// Captured to reject, never to interpret.
    pub tool_calls: Option<JsonShape>,
    pub function_call: Option<JsonShape>,
}

/// Body of `POST /v1/chat/completions`.
#[derive(Debug, Clone)]
pub struct ChatRequest {
    pub model: Option<String>,
    pub messages: Option<Vec<ChatMessage>>,
    /// Deprecated upstream in favour of `max_completion_tokens`, still sent by
    /// most clients, so both are accepted.
    pub max_tokens: Option<usize>,
    pub max_completion_tokens: Option<usize>,
    pub temperature: Option<F32Bits>,
    pub seed: Option<i64>,
    pub stream: Option<bool>,
    pub stream_options: Option<StreamOptions>,
    /// An extension of this server.
    pub top_k: Option<usize>,
    pub n: Option<u32>,
    pub stop: Option<JsonShape>,
    pub top_p: Option<F64Bits>,
    pub frequency_penalty: Option<F64Bits>,
    pub presence_penalty: Option<F64Bits>,
    pub logit_bias: Option<JsonShape>,
    pub logprobs: Option<bool>,
    pub top_logprobs: Option<u32>,
    pub tools: Option<JsonShape>,
    pub tool_choice: Option<JsonShape>,
    pub functions: Option<JsonShape>,
    pub function_call: Option<JsonShape>,
    pub response_format: Option<JsonShape>,
    pub modalities: Option<JsonShape>,
    pub audio: Option<JsonShape>,
    pub reasoning_effort: Option<JsonShape>,
}

/// The message of a complete chat response.
#[derive(Debug, Clone)]
pub struct ChatResponseMessage {
    pub role: &'static str,
    pub content: String,
    /// Required by the schema, and always null: there is no refusal classifier.
    pub refusal: Option<String>,
}

/// The one choice of a complete chat response.
#[derive(Debug, Clone)]
pub struct ChatChoice {
    pub index: u32,
    pub message: ChatResponseMessage,
    pub logprobs: Option<JsonShape>,
    pub finish_reason: String,
}

/// A complete chat response.
#[derive(Debug, Clone)]
pub struct ChatResponse {
    pub id: String,
    pub object: &'static str,
    pub created: i64,
    pub model: String,
    pub choices: Vec<ChatChoice>,
    pub usage: Usage,
}

/// What one chunk adds to the message.
#[derive(Debug, Clone)]
pub struct ChatDelta {
    pub role: Option<&'static str>,
    pub content: Option<String>,
}

impl Default for ChatDelta {
    fn default() -> (d: Self)
        ensures
            d.role is None,
            d.content is None,
    {
        ChatDelta { role: None, content: None }
    }
}

/// The one choice of a chunk.
#[derive(Debug, Clone)]
pub struct ChatChunkChoice {
    pub index: u32,
    pub delta: ChatDelta,
    pub logprobs: Option<JsonShape>,
    pub finish_reason: Option<String>,
}

/// One chunk of a streamed chat response.
#[derive(Debug, Clone)]
pub struct ChatChunk {
    pub id: String,
    pub object: &'static str,
    pub created: i64,
    pub model: String,
    pub choices: Vec<ChatChunkChoice>,
    /// Present only when the client asked for usage: `Some(None)` is sent as
    /// null on every chunk but the last, `None` is not sent at all.
    pub usage: Option<Option<Usage>>,
}

/// The `prompt` field, which upstream allows as a string, an array of strings,
/// or token id arrays. Only the single-string form maps onto one request.
#[derive(Debug, Clone)]
pub enum PromptField {
    Text(String),
    Many(Vec<JsonShape>),
    Other(JsonShape),
}

/// Body of `POST /v1/completions`.
#[derive(Debug, Clone)]
pub struct CompletionRequest {
    pub model: Option<String>,
    pub prompt: Option<PromptField>,
    pub max_tokens: Option<usize>,
    pub temperature: Option<F32Bits>,
    pub seed: Option<i64>,
    pub stream: Option<bool>,
    pub stream_options: Option<StreamOptions>,
    /// An extension of this server, as on the chat endpoint.
    pub top_k: Option<usize>,
    pub n: Option<u32>,
    pub best_of: Option<u32>,
    pub echo: Option<bool>,
    pub suffix: Option<String>,
    pub stop: Option<JsonShape>,
    pub top_p: Option<F64Bits>,
    pub frequency_penalty: Option<F64Bits>,
    pub presence_penalty: Option<F64Bits>,
    pub logit_bias: Option<JsonShape>,
    pub logprobs: Option<u32>,
}

/// The one choice of a completion.
#[derive(Debug, Clone)]
pub struct CompletionChoice {
    pub text: String,
    pub index: u32,
    pub logprobs: Option<JsonShape>,
    pub finish_reason: Option<String>,
}

/// Used for streamed and non-streamed responses alike: the legacy completions
/// schema gives both the same shape.
#[derive(Debug, Clone)]
pub struct CompletionResponse {
    pub id: String,
    pub object: &'static str,
    pub created: i64,
    pub model: String,
    pub choices: Vec<CompletionChoice>,
    pub usage: Option<Option<Usage>>,
}

} // verus!
