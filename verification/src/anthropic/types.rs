//! Wire types for the Anthropic-compatible endpoints.
//!
//! Separate from the OpenAI types on purpose, and not built on top of them: the
//! two protocols shape the same operation differently. What they share,
//! conversation-to-prompt serialization, lives in `chat_template`.
//!
//! `temperature`, `top_p` and `top_k` are not parameters of this API. They are
//! captured only so they can be refused with an explanation.
use crate::wire::{F32Bits, F64Bits, JsonShape};
use vstd::prelude::*;

verus! {

/// `system`: a bare string, or a list of text blocks.
#[derive(Debug, Clone)]
pub enum SystemField {
    Text(String),
    Blocks(Vec<ContentBlockIn>),
}

/// One inbound content block. Only `text` carries anything usable; every other
/// type is captured so it can be refused by name rather than flattened.
#[derive(Debug, Clone)]
pub struct ContentBlockIn {
    pub kind: String,
    pub text: Option<String>,
}

/// A message's content: a bare string or a block list.
#[derive(Debug, Clone)]
pub enum MessageContent {
    Text(String),
    Blocks(Vec<ContentBlockIn>),
}

/// One message of a request.
#[derive(Debug, Clone)]
pub struct InMessage {
    pub role: String,
    pub content: Option<MessageContent>,
}

/// Body of `POST /v1/messages`.
#[derive(Debug, Clone)]
pub struct MessagesRequest {
    pub model: Option<String>,
    /// Required by the schema, unlike every other surface here.
    pub max_tokens: Option<i64>,
    pub messages: Option<Vec<InMessage>>,
    pub system: Option<SystemField>,
    pub stream: Option<bool>,
    /// An opaque identifier with no effect on generation: accepted and ignored.
    pub metadata: Option<JsonShape>,
    /// `auto` | `standard_only`; there is one tier.
    pub service_tier: Option<String>,
    pub stop_sequences: Option<Vec<String>>,
    pub tools: Option<JsonShape>,
    pub tool_choice: Option<JsonShape>,
    pub thinking: Option<JsonShape>,
    pub output_config: Option<JsonShape>,
    pub container: Option<JsonShape>,
    pub cache_control: Option<JsonShape>,
    pub temperature: Option<F32Bits>,
    pub top_p: Option<F64Bits>,
    pub top_k: Option<usize>,
    /// Positive value enables sampling; absent or zero is greedy.
    pub crucible_temperature: Option<F32Bits>,
    pub crucible_top_k: Option<usize>,
    pub crucible_seed: Option<u64>,
}

/// Body of `POST /v1/messages/count_tokens`: the same conversation fields, no
/// budget and no stream.
#[derive(Debug, Clone)]
pub struct CountTokensRequest {
    pub model: Option<String>,
    pub messages: Option<Vec<InMessage>>,
    pub system: Option<SystemField>,
    pub tools: Option<JsonShape>,
    pub tool_choice: Option<JsonShape>,
    pub thinking: Option<JsonShape>,
}

/// One text block of a response.
#[derive(Debug, Clone)]
pub struct TextBlock {
    pub kind: &'static str,
    pub text: String,
}

impl TextBlock {
    /// A block of `text`.
    pub fn new(text: &str) -> (b: Self)
        ensures
            b.kind@ == "text"@,
            b.text@ == text@,
    {
        TextBlock { kind: "text", text: text.to_owned() }
    }
}

/// `input_tokens` and `output_tokens` are the only required members. The cache
/// and server-tool counters are omitted rather than zero-filled.
#[derive(Debug, Clone, Copy, PartialEq, Eq, Structural)]
pub struct Usage {
    pub input_tokens: usize,
    pub output_tokens: usize,
}

/// A message of the assistant.
#[derive(Debug, Clone)]
pub struct MessageResponse {
    pub id: String,
    pub kind: &'static str,
    pub role: &'static str,
    pub model: String,
    pub content: Vec<TextBlock>,
    pub stop_reason: Option<&'static str>,
    pub stop_sequence: Option<String>,
    pub usage: Usage,
}

/// Answer of `POST /v1/messages/count_tokens`.
#[derive(Debug, Clone, Copy, PartialEq, Eq, Structural)]
pub struct CountTokensResponse {
    pub input_tokens: usize,
}

/// `message_start`
#[derive(Debug, Clone)]
pub struct MessageStartEvent {
    pub kind: &'static str,
    pub message: MessageResponse,
}

/// `content_block_start`
#[derive(Debug, Clone)]
pub struct ContentBlockStartEvent {
    pub kind: &'static str,
    pub index: u32,
    pub content_block: TextBlock,
}

/// Text that a delta adds.
#[derive(Debug, Clone)]
pub struct TextDelta {
    pub kind: &'static str,
    pub text: String,
}

/// `content_block_delta`
#[derive(Debug, Clone)]
pub struct ContentBlockDeltaEvent {
    pub kind: &'static str,
    pub index: u32,
    pub delta: TextDelta,
}

/// `content_block_stop`
#[derive(Debug, Clone)]
pub struct ContentBlockStopEvent {
    pub kind: &'static str,
    pub index: u32,
}

/// Why the message ended.
#[derive(Debug, Clone)]
pub struct MessageDeltaBody {
    pub stop_reason: Option<&'static str>,
    pub stop_sequence: Option<String>,
}

/// The `message_delta` usage object carries cumulative output tokens.
#[derive(Debug, Clone, Copy, PartialEq, Eq, Structural)]
pub struct MessageDeltaUsage {
    pub input_tokens: usize,
    pub output_tokens: usize,
}

/// `message_delta`
#[derive(Debug, Clone)]
pub struct MessageDeltaEvent {
    pub kind: &'static str,
    pub delta: MessageDeltaBody,
    pub usage: MessageDeltaUsage,
}

/// `message_stop`
#[derive(Debug, Clone)]
pub struct MessageStopEvent {
    pub kind: &'static str,
}

/// One model: `type` rather than `object`, an RFC 3339 `created_at`, a
/// `display_name`, and no owner.
#[derive(Debug, Clone)]
pub struct ModelInfo {
    pub id: String,
    pub kind: &'static str,
    pub display_name: String,
    pub created_at: String,
    pub max_tokens: usize,
    pub max_input_tokens: usize,
}

/// The model list.
#[derive(Debug, Clone)]
pub struct ModelPage {
    pub data: Vec<ModelInfo>,
    pub has_more: bool,
    pub first_id: Option<String>,
    pub last_id: Option<String>,
}

} // verus!
