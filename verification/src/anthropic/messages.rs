//! `POST /v1/messages` and `POST /v1/messages/count_tokens`.
//!
//! The system prompt stands at the top level rather than inside the message
//! list; both become turns for `chat_template`, which produces the identical
//! prompt the OpenAI adapter produces for the same conversation.
//!
//! There is no standard sampling parameter to map: this endpoint is greedy by
//! default. The sampler is reachable through fields with a `crucible_` prefix.
//! A request that carries `temperature`, `top_p` or `top_k` is refused with a
//! message pointing at those, rather than ignored.
use crate::anthropic;
use crate::anthropic::types::{
    ContentBlockDeltaEvent, ContentBlockIn, ContentBlockStartEvent, ContentBlockStopEvent,
    CountTokensRequest, InMessage, MessageContent, MessageDeltaBody, MessageDeltaEvent,
    MessageDeltaUsage, MessageResponse, MessageStartEvent, MessageStopEvent, MessagesRequest,
    SystemField, TextBlock, TextDelta, Usage,
};
use crate::anthropic::{check_served, ApiError};
use crate::chat_template;
use crate::chat_template::{Role, Turn};
use crate::openai;
use crate::service;
use crate::service::{Collector, FinishReason, StreamItem};
use crate::text;
use crate::text::{debug_quote, push_decimal, same_text};
use crate::wire;
use crate::wire::{F32Bits, JsonShape};
use vstd::prelude::*;

verus! {

/// The stop reason, in this protocol's vocabulary: the runtime stops when the
/// token budget runs out, and the model has no trained end-of-turn token.
pub fn stop_reason(reason: FinishReason) -> (s: &'static str)
    ensures
        s@ == "max_tokens"@,
{
    match reason {
        FinishReason::Length => "max_tokens",
        FinishReason::Cancelled => "max_tokens",
    }
}

/// The text of one block; nothing where the block has none.
pub open spec fn block_text(b: ContentBlockIn) -> Seq<char> {
    match b.text {
        Some(t) => t@,
        None => Seq::empty(),
    }
}

/// The texts of blocks, one after the other.
pub open spec fn blocks_text(blocks: Seq<ContentBlockIn>) -> Seq<char>
    decreases blocks.len(),
{
    if blocks.len() == 0 {
        Seq::empty()
    } else {
        blocks_text(blocks.drop_last()) + block_text(blocks.last())
    }
}

/// Index of the first block that is not text, or the length.
pub open spec fn first_other_block(blocks: Seq<ContentBlockIn>) -> nat
    decreases blocks.len(),
{
    if blocks.len() == 0 || blocks[0].kind@ != "text"@ {
        0
    } else {
        1 + first_other_block(blocks.skip(1))
    }
}

proof fn lemma_first_other_block(blocks: Seq<ContentBlockIn>, at: nat)
    requires
        at <= blocks.len(),
        forall|k: int| 0 <= k < at ==> (#[trigger] blocks[k]).kind@ == "text"@,
        at < blocks.len() ==> blocks[at as int].kind@ != "text"@,
    ensures
        first_other_block(blocks) == at,
    decreases blocks.len(),
{
    if at > 0 {
        let rest = blocks.skip(1);
        assert forall|k: int| 0 <= k < at - 1 implies (#[trigger] rest[k]).kind@ == "text"@ by {
            assert(rest[k] == blocks[k + 1]);
        }
        lemma_first_other_block(rest, (at - 1) as nat);
    }
}

/// The refusal of blocks that are not all text.
pub open spec fn blocks_refusal(blocks: Seq<ContentBlockIn>, place: Seq<char>) -> Option<
    anthropic::ErrorView,
> {
    let bad = first_other_block(blocks);
    if bad < blocks.len() {
        Some(
            anthropic::invalid(
                place + " contains a "@ + text::debug_text(blocks[bad as int].kind@)
                    + " content block. This server is text-only; send a string or text blocks."@,
            ),
        )
    } else {
        None
    }
}

/// Flatten blocks to text, refusing anything that is not text. `place` names
/// where they stand.
pub fn blocks_to_text(blocks: &[ContentBlockIn], place: &str) -> (r: Result<String, ApiError>)
    ensures
        anthropic::answers(r, blocks_refusal(blocks@, place@)),
        r matches Ok(t) ==> t@ == blocks_text(blocks@),
{
    let mut out = String::new();
    let mut i: usize = 0;
    while i < blocks.len()
        invariant
            i <= blocks@.len(),
            forall|k: int| 0 <= k < i ==> (#[trigger] blocks@[k]).kind@ == "text"@,
            out@ == blocks_text(blocks@.take(i as int)),
        decreases blocks@.len() - i,
    {
        let b = &blocks[i];
        if !same_text(b.kind.as_str(), "text") {
            let mut m = place.to_owned();
            m.append(" contains a ");
            m.append(debug_quote(b.kind.as_str()).as_str());
            m.append(
                " content block. This server is text-only; send a string or text blocks.",
            );
            proof {
                lemma_first_other_block(blocks@, i as nat);
            }
            return Err(ApiError::invalid(m.as_str()));
        }
        match &b.text {
            Some(t) => out.append(t.as_str()),
            None => {},
        }
        proof {
            assert(blocks@.take(i + 1).drop_last() =~= blocks@.take(i as int));
            assert(out@ =~= blocks_text(blocks@.take(i as int)) + block_text(blocks@[i as int]));
        }
        i += 1;
    }
    proof {
        lemma_first_other_block(blocks@, i as nat);
        assert(blocks@.take(i as int) =~= blocks@);
    }
    Ok(out)
}

/// The text of a message's content, whatever its blocks are.
pub open spec fn text_of(m: InMessage) -> Seq<char> {
    match m.content {
        None => Seq::empty(),
        Some(MessageContent::Text(s)) => s@,
        Some(MessageContent::Blocks(b)) => blocks_text(b@),
    }
}

/// Where a message stands in the request.
pub open spec fn message_place(index: nat) -> Seq<char> {
    "messages["@ + text::decimal(index) + "]"@
}

/// The refusal of a message whose content is not all text.
pub open spec fn content_refusal(m: InMessage, index: nat) -> Option<anthropic::ErrorView> {
    match m.content {
        Some(MessageContent::Blocks(b)) => blocks_refusal(b@, message_place(index)),
        _ => None,
    }
}

/// The text of one message.
pub fn message_text(m: &InMessage, index: usize) -> (r: Result<String, ApiError>)
    ensures
        anthropic::answers(r, content_refusal(*m, index as nat)),
        r matches Ok(t) ==> t@ == text_of(*m),
{
    match &m.content {
        None => Ok(String::new()),
        Some(MessageContent::Text(s)) => Ok(s.clone()),
        Some(MessageContent::Blocks(b)) => {
            let mut place = "messages[".to_owned();
            push_decimal(&mut place, index as u64);
            place.append("]");
            blocks_to_text(b.as_slice(), place.as_str())
        },
    }
}

/// The text of the system prompt, if there is one.
pub open spec fn system_of(system: Option<SystemField>) -> Option<Seq<char>> {
    match system {
        None => None,
        Some(SystemField::Text(s)) => Some(s@),
        Some(SystemField::Blocks(b)) => Some(blocks_text(b@)),
    }
}

/// The refusal of a system prompt that is not all text.
pub open spec fn system_refusal(system: Option<SystemField>) -> Option<anthropic::ErrorView> {
    match system {
        Some(SystemField::Blocks(b)) => blocks_refusal(b@, "system"@),
        _ => None,
    }
}

/// The text of the system prompt, if there is one.
pub fn system_text(system: Option<&SystemField>) -> (r: Result<Option<String>, ApiError>)
    ensures
        anthropic::answers(r, system_refusal(deref(system))),
        r matches Ok(t) ==> wire::opt_text(t) == system_of(deref(system)),
{
    match system {
        None => Ok(None),
        Some(SystemField::Text(s)) => Ok(Some(s.clone())),
        Some(SystemField::Blocks(b)) => match blocks_to_text(b.as_slice(), "system") {
            Ok(t) => Ok(Some(t)),
            Err(e) => Err(e),
        },
    }
}

/// What an optional reference points at.
pub open spec fn deref(system: Option<&SystemField>) -> Option<SystemField> {
    match system {
        Some(s) => Some(*s),
        None => None,
    }
}

/// The role that a name stands for.
pub open spec fn role_named(name: Seq<char>) -> Option<Role> {
    if name == "user"@ {
        Some(Role::User)
    } else if name == "assistant"@ {
        Some(Role::Assistant)
    } else {
        None
    }
}

/// The refusal of a role that is not one of this API's.
pub open spec fn role_refusal(name: Seq<char>, index: nat) -> anthropic::ErrorView {
    if name == "system"@ {
        anthropic::invalid(
            message_place(index)
                + ".role: 'system' is not a message role in this API. Use the top-level 'system' parameter."@,
        )
    } else {
        anthropic::invalid(
            message_place(index) + ".role: "@ + text::debug_text(name)
                + " is not supported. This server accepts 'user' and 'assistant'."@,
        )
    }
}

fn role_of(name: &str, index: usize) -> (r: Result<Role, ApiError>)
    ensures
        match r {
            Ok(role) => role_named(name@) == Some(role),
            Err(e) => role_named(name@) is None && e@ == role_refusal(name@, index as nat),
        },
{
    if same_text(name, "user") {
        return Ok(Role::User);
    }
    if same_text(name, "assistant") {
        return Ok(Role::Assistant);
    }
    let mut m = "messages[".to_owned();
    push_decimal(&mut m, index as u64);
    m.append("]");
    if same_text(name, "system") {
        m.append(
            ".role: 'system' is not a message role in this API. Use the top-level 'system' parameter.",
        );
    } else {
        m.append(".role: ");
        m.append(debug_quote(name).as_str());
        m.append(" is not supported. This server accepts 'user' and 'assistant'.");
    }
    Err(ApiError::invalid(m.as_str()))
}

/// Why a message cannot be placed in a transcript, if it cannot.
pub open spec fn message_refusal(m: InMessage, index: nat) -> Option<anthropic::ErrorView> {
    if role_named(m.role@) is None {
        Some(role_refusal(m.role@, index))
    } else {
        content_refusal(m, index)
    }
}

/// The refusal of the first message from `from` on that has one.
pub open spec fn first_refusal(messages: Seq<InMessage>, from: nat) -> Option<
    anthropic::ErrorView,
>
    decreases messages.len() - from,
{
    if from >= messages.len() {
        None
    } else if message_refusal(messages[from as int], from) is Some {
        message_refusal(messages[from as int], from)
    } else {
        first_refusal(messages, from + 1)
    }
}

/// Why a conversation cannot be built, if it cannot.
pub open spec fn conversation_refusal(system: Option<SystemField>, messages: Seq<InMessage>) -> Option<
    anthropic::ErrorView,
> {
    if messages.len() == 0 {
        Some(anthropic::invalid("messages: at least one message is required."@))
    } else {
        anthropic::or(system_refusal(system), first_refusal(messages, 0))
    }
}

/// The turn that a message is.
pub open spec fn turn_of(m: InMessage) -> chat_template::TurnView {
    chat_template::TurnView { role: role_named(m.role@)->Some_0, text: text_of(m) }
}

/// The turns of a conversation: the system prompt leads.
pub open spec fn turns_of(system: Option<SystemField>, messages: Seq<InMessage>) -> Seq<
    chat_template::TurnView,
> {
    (match system_of(system) {
        Some(t) => seq![chat_template::TurnView { role: Role::System, text: t }],
        None => Seq::empty(),
    }) + messages.map_values(|m: InMessage| turn_of(m))
}

/// Build the conversation this request describes.
///
/// Shared by `/v1/messages` and `/v1/messages/count_tokens`, which is what lets
/// the count endpoint promise the exact number the generate endpoint will later
/// report.
pub fn conversation(system: Option<&SystemField>, messages: &[InMessage]) -> (r: Result<
    Vec<Turn>,
    ApiError,
>)
    ensures
        anthropic::answers(r, conversation_refusal(deref(system), messages@)),
        r matches Ok(t) ==> chat_template::views(t@) == turns_of(deref(system), messages@),
{
    if messages.len() == 0 {
        return Err(ApiError::invalid("messages: at least one message is required."));
    }
    let mut turns: Vec<Turn> = Vec::new();
    let ghost lead = turns_of(deref(system), Seq::empty());
    match system_text(system) {
        Err(e) => return Err(e),
        Ok(None) => {},
        Ok(Some(t)) => {
            turns.push(Turn { role: Role::System, text: t });
        },
    }
    proof {
        assert(chat_template::views(turns@) =~= lead);
        assert(lead + messages@.map_values(|m: InMessage| turn_of(m)).take(0) =~= lead);
    }
    let ghost all = messages@.map_values(|m: InMessage| turn_of(m));
    let mut i: usize = 0;
    while i < messages.len()
        invariant
            messages@.len() > 0,
            i <= messages@.len(),
            all == messages@.map_values(|m: InMessage| turn_of(m)),
            conversation_refusal(deref(system), messages@) == first_refusal(messages@, i as nat),
            chat_template::views(turns@) == lead + all.take(i as int),
        decreases messages@.len() - i,
    {
        let m = &messages[i];
        let role: Role = match role_of(m.role.as_str(), i) {
            Ok(role) => role,
            Err(e) => return Err(e),
        };
        let content = match message_text(m, i) {
            Ok(t) => t,
            Err(e) => return Err(e),
        };
        let ghost before = turns@;
        turns.push(Turn { role, text: content });
        proof {
            let next = turn_of(messages@[i as int]);
            assert(turns@.last()@ == next);
            assert(chat_template::views(turns@) =~= chat_template::views(before).push(next));
            assert(lead + all.take(i + 1) =~= (lead + all.take(i as int)).push(next));
        }
        i += 1;
    }
    proof {
        assert(lead + all.take(i as int) =~= turns_of(deref(system), messages@));
    }
    Ok(turns)
}

/// The refusal of a field that is present and not at its no-op value.
pub open spec fn set_refusal(value: Option<JsonShape>, name: Seq<char>, detail: Seq<char>) -> Option<
    anthropic::ErrorView,
> {
    match value {
        Some(v) => if v.hollow() {
            None
        } else {
            Some(anthropic::invalid(name + ": "@ + detail))
        },
        None => None,
    }
}

/// Refuse a field that is present and not at its no-op value.
pub fn refuse_if_set(value: Option<&JsonShape>, name: &str, detail: &str) -> (r: Result<
    (),
    ApiError,
>)
    ensures
        anthropic::answers(
            r,
            set_refusal(
                match value {
                    Some(v) => Some(*v),
                    None => None,
                },
                name@,
                detail@,
            ),
        ),
{
    match value {
        Some(v) => {
            if !v.is_hollow() {
                let mut m = name.to_owned();
                m.append(": ");
                m.append(detail);
                return Err(ApiError::invalid(m.as_str()));
            }
            Ok(())
        },
        None => Ok(()),
    }
}

/// A request that can be served.
#[derive(Debug)]
pub struct Prepared {
    pub prompt: String,
    pub max_tokens: usize,
    pub temperature: Option<F32Bits>,
    pub top_k: Option<usize>,
    pub seed: Option<u64>,
    pub stream: bool,
}

/// The refusal of a model field: it is required, and names the served model.
pub open spec fn model_refusal(model: Option<String>, model_id: Seq<char>) -> Option<
    anthropic::ErrorView,
> {
    match model {
        None => Some(anthropic::invalid("model: this field is required."@)),
        Some(m) => if m@ == model_id {
            None
        } else {
            Some(anthropic::unknown_model(m@, model_id))
        },
    }
}

/// A signed number in decimal.
pub open spec fn signed_decimal(v: int) -> Seq<char> {
    if v < 0 {
        seq!['-'] + text::decimal((-v) as nat)
    } else {
        text::decimal(v as nat)
    }
}

/// The refusal of a token budget: it is required, and at least one.
pub open spec fn budget_refusal(max_tokens: Option<i64>) -> Option<anthropic::ErrorView> {
    match max_tokens {
        None => Some(anthropic::invalid("max_tokens: this field is required."@)),
        Some(v) => if v < 1 {
            Some(
                anthropic::invalid(
                    "max_tokens: "@ + signed_decimal(v as int)
                        + " is less than the minimum of 1."@,
                ),
            )
        } else {
            None
        },
    }
}

/// The refusal of a sampling control that this API does not define.
pub open spec fn knob_refusal(present: bool, name: Seq<char>) -> Option<anthropic::ErrorView> {
    if present {
        Some(
            anthropic::invalid(
                name
                    + ": not a parameter of this API. This server decodes greedily by default; to sample, use the Crucible extensions crucible_temperature, crucible_top_k and crucible_seed."@,
            ),
        )
    } else {
        None
    }
}

/// The refusal of stop sequences.
pub open spec fn stops_refusal(stops: Option<Vec<String>>) -> Option<anthropic::ErrorView> {
    if stops matches Some(s) && s@.len() > 0 {
        Some(
            anthropic::invalid(
                "stop_sequences"@ + ": "@
                    + "stop sequences are not implemented. Matching them would have to happen inside the scheduler across token boundaries; generating past the sequence and trimming afterwards would leave the KV cache and token accounting describing text you never received."@,
            ),
        )
    } else {
        None
    }
}

/// Why a request asks for something that is not implemented, if it does: the
/// first such field, in the order they are checked.
pub open spec fn feature_refusal(req: MessagesRequest) -> Option<anthropic::ErrorView> {
    let r = stops_refusal(req.stop_sequences);
    let r = anthropic::or(
        r,
        set_refusal(
            req.tools,
            "tools"@,
            "tool use is not implemented. This model has no tool-calling training."@,
        ),
    );
    let r = anthropic::or(
        r,
        set_refusal(req.tool_choice, "tool_choice"@, "tool use is not implemented."@),
    );
    let r = anthropic::or(
        r,
        set_refusal(
            req.thinking,
            "thinking"@,
            "extended thinking is not implemented. This is not a reasoning model."@,
        ),
    );
    let r = anthropic::or(
        r,
        set_refusal(
            req.output_config,
            "output_config"@,
            "structured output and effort levels are not implemented."@,
        ),
    );
    let r = anthropic::or(
        r,
        set_refusal(
            req.container,
            "container"@,
            "code execution containers are not implemented."@,
        ),
    );
    anthropic::or(
        r,
        set_refusal(
            req.cache_control,
            "cache_control"@,
            "prompt caching is not implemented; this server has no prompt cache."@,
        ),
    )
}

/// The refusal of a message list: it is required, and makes a conversation.
pub open spec fn messages_refusal(messages: Option<Vec<InMessage>>, system: Option<SystemField>) -> Option<
    anthropic::ErrorView,
> {
    match messages {
        None => Some(anthropic::invalid("messages: this field is required."@)),
        Some(m) => conversation_refusal(system, m@),
    }
}

/// Why a request is refused, if it is.
pub open spec fn request_refusal(req: MessagesRequest, model_id: Seq<char>) -> Option<
    anthropic::ErrorView,
> {
    let r = model_refusal(req.model, model_id);
    let r = anthropic::or(r, budget_refusal(req.max_tokens));
    let r = anthropic::or(r, knob_refusal(req.temperature is Some, "temperature"@));
    let r = anthropic::or(r, knob_refusal(req.top_p is Some, "top_p"@));
    let r = anthropic::or(r, knob_refusal(req.top_k is Some, "top_k"@));
    let r = anthropic::or(r, feature_refusal(req));
    anthropic::or(r, messages_refusal(req.messages, req.system))
}

/// The prompt of a conversation.
pub open spec fn prompt_for(system: Option<SystemField>, messages: Option<Vec<InMessage>>) -> Seq<
    char,
> {
    chat_template::prompt_of(turns_of(system, messages->Some_0@))
}

fn refuse_knob(present: bool, name: &str) -> (r: Result<(), ApiError>)
    ensures
        anthropic::answers(r, knob_refusal(present, name@)),
{
    if !present {
        return Ok(());
    }
    let mut m = name.to_owned();
    m.append(
        ": not a parameter of this API. This server decodes greedily by default; to sample, use the Crucible extensions crucible_temperature, crucible_top_k and crucible_seed.",
    );
    Err(ApiError::invalid(m.as_str()))
}

fn refuse_stops(stops: &Option<Vec<String>>) -> (r: Result<(), ApiError>)
    ensures
        anthropic::answers(r, stops_refusal(*stops)),
{
    match stops {
        Some(s) => {
            let shape = JsonShape::Array { len: s.len() };
            refuse_if_set(
                Some(&shape),
                "stop_sequences",
                "stop sequences are not implemented. Matching them would have to happen inside the scheduler across token boundaries; generating past the sequence and trimming afterwards would leave the KV cache and token accounting describing text you never received.",
            )
        },
        None => Ok(()),
    }
}

fn refuse_features(req: &MessagesRequest) -> (r: Result<(), ApiError>)
    ensures
        anthropic::answers(r, feature_refusal(*req)),
{
    if let Err(e) = refuse_stops(&req.stop_sequences) {
        return Err(e);
    }
    if let Err(e) = refuse_if_set(
        req.tools.as_ref(),
        "tools",
        "tool use is not implemented. This model has no tool-calling training.",
    ) {
        return Err(e);
    }
    if let Err(e) = refuse_if_set(
        req.tool_choice.as_ref(),
        "tool_choice",
        "tool use is not implemented.",
    ) {
        return Err(e);
    }
    if let Err(e) = refuse_if_set(
        req.thinking.as_ref(),
        "thinking",
        "extended thinking is not implemented. This is not a reasoning model.",
    ) {
        return Err(e);
    }
    if let Err(e) = refuse_if_set(
        req.output_config.as_ref(),
        "output_config",
        "structured output and effort levels are not implemented.",
    ) {
        return Err(e);
    }
    if let Err(e) = refuse_if_set(
        req.container.as_ref(),
        "container",
        "code execution containers are not implemented.",
    ) {
        return Err(e);
    }
    if let Err(e) = refuse_if_set(
        req.cache_control.as_ref(),
        "cache_control",
        "prompt caching is not implemented; this server has no prompt cache.",
    ) {
        return Err(e);
    }
    Ok(())
}

fn prompt_or_refusal(messages: &Option<Vec<InMessage>>, system: &Option<SystemField>) -> (r: Result<
    String,
    ApiError,
>)
    ensures
        anthropic::answers(r, messages_refusal(*messages, *system)),
        r matches Ok(p) ==> messages is Some && p@ == prompt_for(*system, *messages),
{
    match messages {
        None => Err(ApiError::invalid("messages: this field is required.")),
        Some(m) => match conversation(system.as_ref(), m.as_slice()) {
            Ok(turns) => Ok(chat_template::serialize(turns.as_slice())),
            Err(e) => Err(e),
        },
    }
}

/// Check a request and turn it into a job.
pub fn prepare(req: &MessagesRequest, model_id: &str) -> (r: Result<Prepared, ApiError>)
    ensures
        anthropic::answers(r, request_refusal(*req, model_id@)),
        r matches Ok(p) ==> {
            &&& p.prompt@ == prompt_for(req.system, req.messages)
            &&& req.max_tokens matches Some(v) && p.max_tokens == v as usize
            &&& p.temperature == req.crucible_temperature
            &&& p.top_k == req.crucible_top_k
            &&& p.seed == req.crucible_seed
            &&& p.stream == (req.stream == Some(true))
        },
{
    match &req.model {
        None => return Err(ApiError::invalid("model: this field is required.")),
        Some(m) => {
            if let Err(e) = check_served(m.as_str(), model_id) {
                return Err(e);
            }
        },
    }
    let max_tokens: usize = match req.max_tokens {
        None => return Err(ApiError::invalid("max_tokens: this field is required.")),
        Some(v) => {
            if v < 1 {
                let mut m = "max_tokens: ".to_owned();
                let ghost start = m@;
                if v < 0 {
                    m.push('-');
                }
                push_decimal(&mut m, (-(v as i128)) as u64);
                assert(m@ =~= start + signed_decimal(v as int));
                m.append(" is less than the minimum of 1.");
                return Err(ApiError::invalid(m.as_str()));
            }
            #[verifier::truncate]
            (v as usize)
        },
    };
    if let Err(e) = refuse_knob(req.temperature.is_some(), "temperature") {
        return Err(e);
    }
    if let Err(e) = refuse_knob(req.top_p.is_some(), "top_p") {
        return Err(e);
    }
    if let Err(e) = refuse_knob(req.top_k.is_some(), "top_k") {
        return Err(e);
    }
    if let Err(e) = refuse_features(req) {
        return Err(e);
    }
    let prompt = match prompt_or_refusal(&req.messages, &req.system) {
        Ok(p) => p,
        Err(e) => return Err(e),
    };
    Ok(
        Prepared {
            prompt,
            max_tokens,
            temperature: req.crucible_temperature,
            top_k: req.crucible_top_k,
            seed: req.crucible_seed,
            stream: match req.stream {
                Some(b) => b,
                None => false,
            },
        },
    )
}

/// Why a count is refused, if it is.
pub open spec fn count_refusal(req: CountTokensRequest, model_id: Seq<char>) -> Option<
    anthropic::ErrorView,
> {
    let r = match req.model {
        Some(m) => if m@ == model_id {
            None
        } else {
            Some(anthropic::unknown_model(m@, model_id))
        },
        None => None,
    };
    let r = anthropic::or(r, set_refusal(req.tools, "tools"@, "tool use is not implemented."@));
    let r = anthropic::or(
        r,
        set_refusal(req.tool_choice, "tool_choice"@, "tool use is not implemented."@),
    );
    let r = anthropic::or(
        r,
        set_refusal(req.thinking, "thinking"@, "extended thinking is not implemented."@),
    );
    anthropic::or(r, messages_refusal(req.messages, req.system))
}

/// The prompt whose tokens `/v1/messages/count_tokens` counts: the same
/// conversation builder and the same template that `/v1/messages` runs.
pub fn count_tokens(req: &CountTokensRequest, model_id: &str) -> (r: Result<String, ApiError>)
    ensures
        anthropic::answers(r, count_refusal(*req, model_id@)),
        r matches Ok(p) ==> p@ == prompt_for(req.system, req.messages),
{
    match &req.model {
        None => {},
        Some(m) => {
            if let Err(e) = check_served(m.as_str(), model_id) {
                return Err(e);
            }
        },
    }
    if let Err(e) = refuse_if_set(req.tools.as_ref(), "tools", "tool use is not implemented.") {
        return Err(e);
    }
    if let Err(e) = refuse_if_set(
        req.tool_choice.as_ref(),
        "tool_choice",
        "tool use is not implemented.",
    ) {
        return Err(e);
    }
    if let Err(e) = refuse_if_set(
        req.thinking.as_ref(),
        "thinking",
        "extended thinking is not implemented.",
    ) {
        return Err(e);
    }
    prompt_or_refusal(&req.messages, &req.system)
}

/// The count endpoint counts the prompt that the generate endpoint submits: a
/// request that can be served can be counted, and both see the same prompt.
pub proof fn law_count_matches_generation(
    req: MessagesRequest,
    count: CountTokensRequest,
    model_id: Seq<char>,
)
    requires
        count.messages == req.messages,
        count.system == req.system,
        count.model == req.model,
        count.tools == req.tools,
        count.tool_choice == req.tool_choice,
        count.thinking == req.thinking,
        request_refusal(req, model_id) is None,
    ensures
        count_refusal(count, model_id) is None,
        prompt_for(count.system, count.messages) == prompt_for(req.system, req.messages),
{
}

/// Whether two messages, one of each protocol, say the same thing.
pub open spec fn same_message(a: InMessage, o: openai::types::ChatMessage) -> bool {
    &&& role_named(a.role@) is Some
    &&& openai::chat::role_named(o.role@) == role_named(a.role@)
    &&& text_of(a) == openai::chat::text_of(o)
}

/// Whether a conversation of this protocol and a message list of the other are
/// the same conversation: the system prompt, where there is one, leads the list.
pub open spec fn same_conversation(
    system: Option<SystemField>,
    messages: Seq<InMessage>,
    list: Seq<openai::types::ChatMessage>,
) -> bool {
    let lead = if system_of(system) is Some {
        1int
    } else {
        0
    };
    &&& list.len() == messages.len() + lead
    &&& system_of(system) matches Some(t) ==> openai::chat::role_named(list[0].role@) == Some(
        Role::System,
    ) && openai::chat::text_of(list[0]) == t
    &&& forall|i: int|
        0 <= i < messages.len() ==> same_message(#[trigger] messages[i], list[i + lead])
}

/// The model cannot tell which protocol a client speaks: equivalent
/// conversations give the identical prompt through both adapters.
pub proof fn law_adapters_build_the_same_prompt(
    system: Option<SystemField>,
    messages: Seq<InMessage>,
    list: Seq<openai::types::ChatMessage>,
)
    requires
        same_conversation(system, messages, list),
    ensures
        chat_template::prompt_of(turns_of(system, messages)) == chat_template::prompt_of(
            openai::chat::turns_of(list),
        ),
{
    let a = turns_of(system, messages);
    let o = openai::chat::turns_of(list);
    let lead = if system_of(system) is Some {
        1int
    } else {
        0
    };
    assert forall|k: int| 0 <= k < a.len() implies a[k] == o[k] by {
        if k >= lead {
            assert(same_message(messages[k - lead], list[k - lead + lead]));
            assert(a[k] == turn_of(messages[k - lead]));
        }
    }
    assert(a =~= o);
}

/// One typed event of a message stream. There is no sentinel: `message_stop`
/// ends it.
#[derive(Debug, Clone)]
pub enum MessageEvent {
    Start(MessageStartEvent),
    BlockStart(ContentBlockStartEvent),
    Delta(ContentBlockDeltaEvent),
    BlockStop(ContentBlockStopEvent),
    End(MessageDeltaEvent),
    Stop(MessageStopEvent),
    /// The stream ended badly, in the service's words.
    Error { message: String },
}

/// What an event says.
pub ghost enum EventView {
    Start { id: Seq<char>, model: Seq<char>, input_tokens: nat },
    BlockStart,
    Delta { text: Seq<char> },
    BlockStop,
    End { stop_reason: Seq<char>, input_tokens: nat, output_tokens: nat },
    Stop,
    Error { message: Seq<char> },
}

/// Whether an empty message of the assistant opens a stream.
pub open spec fn opens(m: MessageResponse) -> bool {
    &&& m.kind@ == "message"@
    &&& m.role@ == "assistant"@
    &&& m.content@.len() == 0
    &&& m.stop_reason is None
    &&& m.stop_sequence is None
    &&& m.usage.output_tokens == 0
}

impl MessageEvent {
    /// The name of the event.
    pub open spec fn event_name(self) -> Seq<char> {
        match self {
            MessageEvent::Start(_) => "message_start"@,
            MessageEvent::BlockStart(_) => "content_block_start"@,
            MessageEvent::Delta(_) => "content_block_delta"@,
            MessageEvent::BlockStop(_) => "content_block_stop"@,
            MessageEvent::End(_) => "message_delta"@,
            MessageEvent::Stop(_) => "message_stop"@,
            MessageEvent::Error { .. } => "error"@,
        }
    }

    /// The event is of the type it says, and its block is the one block there
    /// is.
    pub open spec fn wf(self) -> bool {
        match self {
            MessageEvent::Start(e) => e.kind@ == self.event_name() && opens(e.message),
            MessageEvent::BlockStart(e) => e.kind@ == self.event_name() && e.index == 0
                && e.content_block.kind@ == "text"@ && e.content_block.text@.len() == 0,
            MessageEvent::Delta(e) => e.kind@ == self.event_name() && e.index == 0 && e.delta.kind@
                == "text_delta"@,
            MessageEvent::BlockStop(e) => e.kind@ == self.event_name() && e.index == 0,
            MessageEvent::End(e) => e.kind@ == self.event_name() && e.delta.stop_reason is Some
                && e.delta.stop_sequence is None,
            MessageEvent::Stop(e) => e.kind@ == self.event_name(),
            MessageEvent::Error { .. } => true,
        }
    }

    /// The name of the event, as it is sent before the data.
    pub fn name(&self) -> (n: &'static str)
        ensures
            n@ == self.event_name(),
    {
        match self {
            MessageEvent::Start(_) => "message_start",
            MessageEvent::BlockStart(_) => "content_block_start",
            MessageEvent::Delta(_) => "content_block_delta",
            MessageEvent::BlockStop(_) => "content_block_stop",
            MessageEvent::End(_) => "message_delta",
            MessageEvent::Stop(_) => "message_stop",
            MessageEvent::Error { .. } => "error",
        }
    }
}

impl View for MessageEvent {
    type V = EventView;

    open spec fn view(&self) -> EventView {
        match self {
            MessageEvent::Start(e) => EventView::Start {
                id: e.message.id@,
                model: e.message.model@,
                input_tokens: e.message.usage.input_tokens as nat,
            },
            MessageEvent::BlockStart(_) => EventView::BlockStart,
            MessageEvent::Delta(e) => EventView::Delta { text: e.delta.text@ },
            MessageEvent::BlockStop(_) => EventView::BlockStop,
            MessageEvent::End(e) => EventView::End {
                stop_reason: e.delta.stop_reason->Some_0@,
                input_tokens: e.usage.input_tokens as nat,
                output_tokens: e.usage.output_tokens as nat,
            },
            MessageEvent::Stop(_) => EventView::Stop,
            MessageEvent::Error { message } => EventView::Error { message: message@ },
        }
    }
}

/// What well-formed events say.
pub open spec fn events(v: Seq<MessageEvent>) -> Seq<EventView> {
    v.map_values(|e: MessageEvent| e@)
}

/// Whether every event is well formed.
pub open spec fn all_wf(v: Seq<MessageEvent>) -> bool {
    forall|i: int| 0 <= i < v.len() ==> (#[trigger] v[i]).wf()
}

/// What all events of one stream share.
#[derive(Debug)]
pub struct MessageStream {
    pub id: String,
    pub model: String,
    pub input_tokens: usize,
}

impl MessageStream {
    /// The events that open a stream.
    pub open spec fn opening(self) -> Seq<EventView> {
        seq![
            EventView::Start {
                id: self.id@,
                model: self.model@,
                input_tokens: self.input_tokens as nat,
            },
            EventView::BlockStart,
        ]
    }

    /// The events for one item.
    pub open spec fn item_events(self, item: service::ItemView) -> Seq<EventView> {
        match item {
            service::ItemView::Token { text } => seq![EventView::Delta { text }],
            service::ItemView::Done { reason, name, generated, tail } => (if tail.len() > 0 {
                seq![EventView::Delta { text: tail }]
            } else {
                Seq::empty()
            }) + seq![
                EventView::BlockStop,
                EventView::End {
                    stop_reason: "max_tokens"@,
                    input_tokens: self.input_tokens as nat,
                    output_tokens: generated,
                },
                EventView::Stop,
            ],
            service::ItemView::Failed(e) => seq![EventView::Error { message: e }],
        }
    }

    /// The events that open a stream.
    pub fn head(&self) -> (out: Vec<MessageEvent>)
        ensures
            all_wf(out@),
            events(out@) == self.opening(),
    {
        let mut out: Vec<MessageEvent> = Vec::new();
        out.push(
            MessageEvent::Start(
                MessageStartEvent {
                    kind: "message_start",
                    message: MessageResponse {
                        id: self.id.clone(),
                        kind: "message",
                        role: "assistant",
                        model: self.model.clone(),
                        content: Vec::new(),
                        stop_reason: None,
                        stop_sequence: None,
                        usage: Usage { input_tokens: self.input_tokens, output_tokens: 0 },
                    },
                },
            ),
        );
        out.push(
            MessageEvent::BlockStart(
                ContentBlockStartEvent {
                    kind: "content_block_start",
                    index: 0,
                    content_block: TextBlock { kind: "text", text: String::new() },
                },
            ),
        );
        assert(events(out@) =~= self.opening());
        out
    }

    fn delta(&self, text: String) -> (e: MessageEvent)
        ensures
            e.wf(),
            e@ == (EventView::Delta { text: text@ }),
    {
        MessageEvent::Delta(
            ContentBlockDeltaEvent {
                kind: "content_block_delta",
                index: 0,
                delta: TextDelta { kind: "text_delta", text },
            },
        )
    }

    /// The events for one item, in the order they are sent. A token's delta is
    /// sent even where it is empty; nothing follows an end or a failure.
    pub fn on_item(&self, item: StreamItem) -> (out: Vec<MessageEvent>)
        ensures
            all_wf(out@),
            events(out@) == self.item_events(item@),
    {
        let mut out: Vec<MessageEvent> = Vec::new();
        match item {
            StreamItem::Token { text } => {
                out.push(self.delta(text));
            },
            StreamItem::Done { reason, name: _, generated, tail } => {
                if !tail.as_str().is_empty() {
                    out.push(self.delta(tail));
                }
                out.push(
                    MessageEvent::BlockStop(
                        ContentBlockStopEvent { kind: "content_block_stop", index: 0 },
                    ),
                );
                out.push(
                    MessageEvent::End(
                        MessageDeltaEvent {
                            kind: "message_delta",
                            delta: MessageDeltaBody {
                                stop_reason: Some(stop_reason(reason)),
                                stop_sequence: None,
                            },
                            usage: MessageDeltaUsage {
                                input_tokens: self.input_tokens,
                                output_tokens: generated,
                            },
                        },
                    ),
                );
                out.push(MessageEvent::Stop(MessageStopEvent { kind: "message_stop" }));
            },
            StreamItem::Failed(e) => {
                out.push(MessageEvent::Error { message: e });
            },
        }
        assert(events(out@) =~= self.item_events(item@));
        out
    }

    /// A complete response out of a collected completion.
    pub fn complete(&self, done: Collector) -> (r: MessageResponse)
        ensures
            r.id@ == self.id@,
            r.kind@ == "message"@,
            r.role@ == "assistant"@,
            r.model@ == self.model@,
            r.content@.len() == 1,
            r.content@[0].kind@ == "text"@,
            r.content@[0].text@ == done@.text,
            r.stop_reason matches Some(s) && s@ == "max_tokens"@,
            r.stop_sequence is None,
            r.usage.input_tokens == self.input_tokens,
            r.usage.output_tokens == done@.generated,
    {
        let (text, generated, finish) = done.into_parts();
        let stop: &'static str = match finish {
            Some((reason, _)) => stop_reason(reason),
            None => "max_tokens",
        };
        let mut content: Vec<TextBlock> = Vec::new();
        content.push(TextBlock { kind: "text", text });
        MessageResponse {
            id: self.id.clone(),
            kind: "message",
            role: "assistant",
            model: self.model.clone(),
            content,
            stop_reason: Some(stop),
            stop_sequence: None,
            usage: Usage { input_tokens: self.input_tokens, output_tokens: generated },
        }
    }

    /// The events of a whole stream.
    pub open spec fn run(self, items: Seq<service::ItemView>) -> Seq<EventView>
        decreases items.len(),
    {
        if items.len() == 0 {
            self.opening()
        } else {
            self.run(items.drop_last()) + self.item_events(items.last())
        }
    }
}

/// The text that one event adds.
pub open spec fn event_text(e: EventView) -> Seq<char> {
    match e {
        EventView::Delta { text } => text,
        _ => Seq::empty(),
    }
}

/// The text of a run of events.
pub open spec fn streamed_text(v: Seq<EventView>) -> Seq<char>
    decreases v.len(),
{
    if v.len() == 0 {
        Seq::empty()
    } else {
        streamed_text(v.drop_last()) + event_text(v.last())
    }
}

proof fn lemma_streamed_text_push(v: Seq<EventView>, e: EventView)
    ensures
        streamed_text(v.push(e)) == streamed_text(v) + event_text(e),
{
    assert(v.push(e).drop_last() =~= v);
}

/// A client that puts a stream together ends with the text of the complete
/// response to the same items.
pub proof fn law_stream_carries_the_completion(s: MessageStream, items: Seq<service::ItemView>)
    ensures
        streamed_text(s.run(items)) == service::collected(items).text,
    decreases items.len(),
{
    if items.len() == 0 {
        let none = Seq::<EventView>::empty();
        lemma_streamed_text_push(none, s.opening()[0]);
        lemma_streamed_text_push(none.push(s.opening()[0]), s.opening()[1]);
        assert(s.run(items) =~= none.push(s.opening()[0]).push(s.opening()[1]));
        assert(streamed_text(s.run(items)) =~= Seq::empty());
    } else {
        let before = s.run(items.drop_last());
        let item = items.last();
        law_stream_carries_the_completion(s, items.drop_last());
        match item {
            service::ItemView::Token { text } => {
                assert(s.run(items) =~= before.push(EventView::Delta { text }));
                lemma_streamed_text_push(before, EventView::Delta { text });
            },
            service::ItemView::Done { reason, name, generated, tail } => {
                let head = if tail.len() > 0 {
                    before.push(EventView::Delta { text: tail })
                } else {
                    before
                };
                if tail.len() > 0 {
                    lemma_streamed_text_push(before, EventView::Delta { text: tail });
                } else {
                    assert(tail =~= Seq::empty());
                }
                assert(streamed_text(head) =~= streamed_text(before) + tail);
                let end = EventView::End {
                    stop_reason: "max_tokens"@,
                    input_tokens: s.input_tokens as nat,
                    output_tokens: generated,
                };
                lemma_streamed_text_push(head, EventView::BlockStop);
                lemma_streamed_text_push(head.push(EventView::BlockStop), end);
                lemma_streamed_text_push(
                    head.push(EventView::BlockStop).push(end),
                    EventView::Stop,
                );
                assert(s.run(items) =~= head.push(EventView::BlockStop).push(end).push(
                    EventView::Stop,
                ));
                assert(streamed_text(s.run(items)) =~= streamed_text(before) + tail);
            },
            service::ItemView::Failed(e) => {
                lemma_streamed_text_push(before, EventView::Error { message: e });
                assert(s.run(items) =~= before.push(EventView::Error { message: e }));
                assert(streamed_text(s.run(items)) =~= streamed_text(before));
            },
        }
    }
}

/// A stream is terminated exactly when generation ended well: `message_stop` is
/// the last event of an end, and no other item gives one.
pub proof fn law_terminator_means_success(s: MessageStream, item: service::ItemView)
    ensures
        item is Done ==> s.item_events(item).last() == EventView::Stop,
        !(item is Done) ==> !s.item_events(item).contains(EventView::Stop),
{
}

/// The texts of blocks are joined in order, each as it is.
pub proof fn law_blocks_are_joined(a: Seq<ContentBlockIn>, b: Seq<ContentBlockIn>, p: ContentBlockIn)
    ensures
        blocks_text(a + b) == blocks_text(a) + blocks_text(b),
        p.text matches Some(t) ==> blocks_text(seq![p]) == t@,
        p.text is None ==> blocks_text(seq![p]).len() == 0,
    decreases b.len(),
{
    assert(seq![p].drop_last() =~= Seq::empty());
    assert(blocks_text(seq![p].drop_last()) =~= Seq::empty());
    assert(blocks_text(seq![p]) =~= block_text(p));
    if b.len() == 0 {
        assert(a + b =~= a);
        assert(blocks_text(a) + blocks_text(b) =~= blocks_text(a));
    } else {
        assert((a + b).drop_last() =~= a + b.drop_last());
        law_blocks_are_joined(a, b.drop_last(), p);
        assert(blocks_text(a + b) =~= blocks_text(a) + blocks_text(b));
    }
}

/// A speaker's label in the transcript is the role's own name: but for its capital
/// letter it is the name and a colon. The system speaks through the request's own
/// field, and first.
pub proof fn law_speakers_keep_their_name(
    name: Seq<char>,
    system: Option<SystemField>,
    messages: Seq<InMessage>,
)
    ensures
        role_named(name) is Some <==> name == "user"@ || name == "assistant"@,
        role_named(name) matches Some(r) ==> r.label_text().skip(1) == name.skip(1).push(':'),
        system_of(system) matches Some(t) ==> {
            let first = turns_of(system, messages)[0];
            first.text == t && first.role.label_text() == "System:"@
        },
        system is None <==> turns_of(system, messages).len() == messages.len(),
{
    reveal_strlit("user");
    reveal_strlit("assistant");
    reveal_strlit("User:");
    reveal_strlit("Assistant:");
    if role_named(name) is Some {
        assert(role_named(name)->0.label_text().skip(1) =~= name.skip(1).push(':'));
    }
}

/// Whether blocks are all text.
pub open spec fn all_text(blocks: Seq<ContentBlockIn>) -> bool {
    forall|k: int| 0 <= k < blocks.len() ==> (#[trigger] blocks[k]).kind@ == "text"@
}

proof fn lemma_all_text(blocks: Seq<ContentBlockIn>)
    ensures
        first_other_block(blocks) <= blocks.len(),
        first_other_block(blocks) == blocks.len() <==> all_text(blocks),
    decreases blocks.len(),
{
    if blocks.len() > 0 && blocks[0].kind@ == "text"@ {
        let rest = blocks.skip(1);
        lemma_all_text(rest);
        if first_other_block(rest) == rest.len() {
            assert forall|k: int| 0 <= k < blocks.len() implies (#[trigger] blocks[k]).kind@ == "text"@ by {
                if k > 0 {
                    assert(rest[k - 1].kind@ == "text"@);
                }
            }
        } else {
            let k = choose|k: int| 0 <= k < rest.len() && (#[trigger] rest[k]).kind@ != "text"@;
            assert(blocks[k + 1].kind@ != "text"@);
        }
    }
}

/// A message that can stand in a transcript: from a known speaker, and all text.
pub open spec fn speaks(m: InMessage) -> bool {
    &&& m.role@ == "user"@ || m.role@ == "assistant"@
    &&& m.content matches Some(MessageContent::Blocks(b)) ==> all_text(b@)
}

proof fn lemma_no_refusal(messages: Seq<InMessage>, from: nat)
    ensures
        first_refusal(messages, from) is None <==> forall|i: int|
            from <= i < messages.len() ==> speaks(#[trigger] messages[i]),
        first_refusal(messages, from) matches Some(e) ==> e.status == 400,
    decreases messages.len() - from,
{
    if from < messages.len() {
        lemma_no_refusal(messages, from + 1);
        let m = messages[from as int];
        if let Some(MessageContent::Blocks(b)) = m.content {
            lemma_all_text(b@);
        }
        assert(message_refusal(m, from) is None <==> speaks(m));
        if first_refusal(messages, from) is None {
            assert forall|i: int| from <= i < messages.len() implies speaks(#[trigger] messages[i]) by {}
        } else if speaks(m) {
            let i = choose|i: int| from + 1 <= i < messages.len() && !speaks(#[trigger] messages[i]);
            assert(!speaks(messages[i]));
        }
    }
}

/// A request is served exactly where it names this model, asks for at least one
/// token, brings at least one message, each of which can stand in a transcript, and
/// asks for nothing that is not implemented.
pub proof fn law_what_is_served(req: MessagesRequest, model_id: Seq<char>)
    ensures
        request_refusal(req, model_id) is None <==> {
            &&& req.model matches Some(m) && m@ == model_id
            &&& req.max_tokens matches Some(n) && n >= 1
            &&& req.temperature is None
            &&& req.top_p is None
            &&& req.top_k is None
            &&& req.stop_sequences matches Some(v) ==> v@.len() == 0
            &&& req.tools matches Some(v) ==> v.hollow()
            &&& req.tool_choice matches Some(v) ==> v.hollow()
            &&& req.thinking matches Some(v) ==> v.hollow()
            &&& req.output_config matches Some(v) ==> v.hollow()
            &&& req.container matches Some(v) ==> v.hollow()
            &&& req.cache_control matches Some(v) ==> v.hollow()
            &&& req.system matches Some(SystemField::Blocks(b)) ==> all_text(b@)
            &&& req.messages matches Some(v) && v@.len() > 0 && forall|i: int|
                0 <= i < v@.len() ==> speaks(#[trigger] v@[i])
        },
{
    if let Some(v) = req.messages {
        lemma_no_refusal(v@, 0);
    }
    if let Some(SystemField::Blocks(b)) = req.system {
        lemma_all_text(b@);
    }
}

/// A stream tells the tokens it generated exactly once, at its end, behind all of
/// its text; a failure is told in the service's words and ends the stream without a
/// terminator.
pub proof fn law_stream_tells_its_end(s: MessageStream, item: service::ItemView)
    ensures
        item matches service::ItemView::Done { generated, tail, .. } ==> {
            let v = s.item_events(item);
            let n = v.len() as int;
            &&& n >= 3
            &&& v[n - 3] == EventView::BlockStop
            &&& v[n - 2] matches EventView::End { stop_reason, input_tokens, output_tokens }
                && input_tokens == s.input_tokens && output_tokens == generated && stop_reason
                == "max_tokens"@
            &&& v[n - 1] is Stop
            &&& forall|i: int|
                0 <= i < n && i != n - 2 ==> !((#[trigger] v[i]) is End) && !(v[i] is Error)
            &&& forall|i: int| n - 3 <= i < n ==> event_text(#[trigger] v[i]).len() == 0
        },
        item is Token ==> forall|i: int|
            0 <= i < s.item_events(item).len() ==> (#[trigger] s.item_events(item)[i]) is Delta,
        item matches service::ItemView::Failed(e) ==> s.item_events(item) == seq![
            EventView::Error { message: e },
        ],
{
}

/// A stream opens with its identifier, the model that is served and the tokens
/// of its prompt, and then with its one block.
pub proof fn law_stream_introduces_itself(s: MessageStream)
    ensures
        s.opening().len() == 2,
        s.opening()[0] matches EventView::Start { id, model, input_tokens } && id == s.id@ && model
            == s.model@ && input_tokens == s.input_tokens,
        s.opening()[1] is BlockStart,
        streamed_text(s.opening()).len() == 0,
{
    let v = s.opening();
    assert(v.drop_last().drop_last() =~= Seq::empty());
    reveal_with_fuel(streamed_text, 3);
}

} // verus!
