use llm_engine::ids::IdSource;
use llm_engine::openai::chat::{complete, prepare, serialize, ChatEvent, ChatStream};
use llm_engine::openai::completions;
use llm_engine::openai::completions::{CompletionEvent, CompletionStream};
use llm_engine::openai::types::{
    ChatMessage, ChatRequest, CompletionRequest, ContentPart, MessageContent, PromptField,
    StreamOptions, Usage,
};
use llm_engine::openai::{
    check_model, json_is_empty, models_get, models_list, new_id, reject_if_set, unix_now,
    validate_model_id, ApiError, ApiErrorEnvelope,
};
use llm_engine::service::{Collected, Collector, FinishReason, StreamItem, SubmitError};
use llm_engine::wire::{F32Bits, F64Bits, JsonShape};
use std::collections::HashSet;

fn msg(role: &str, content: &str) -> ChatMessage {
    ChatMessage {
        role: role.into(),
        content: Some(MessageContent::Text(content.into())),
        name: None,
        tool_calls: None,
        function_call: None,
    }
}

fn part(kind: &str, text: Option<&str>) -> ContentPart {
    ContentPart { kind: kind.into(), text: text.map(String::from) }
}

fn chat(messages: Vec<ChatMessage>) -> ChatRequest {
    ChatRequest {
        model: None,
        messages: Some(messages),
        max_tokens: None,
        max_completion_tokens: None,
        temperature: None,
        seed: None,
        stream: None,
        stream_options: None,
        top_k: None,
        n: None,
        stop: None,
        top_p: None,
        frequency_penalty: None,
        presence_penalty: None,
        logit_bias: None,
        logprobs: None,
        top_logprobs: None,
        tools: None,
        tool_choice: None,
        functions: None,
        function_call: None,
        response_format: None,
        modalities: None,
        audio: None,
        reasoning_effort: None,
    }
}

fn completion(prompt: Option<PromptField>) -> CompletionRequest {
    CompletionRequest {
        model: None,
        prompt,
        max_tokens: None,
        temperature: None,
        seed: None,
        stream: None,
        stream_options: None,
        top_k: None,
        n: None,
        best_of: None,
        echo: None,
        suffix: None,
        stop: None,
        top_p: None,
        frequency_penalty: None,
        presence_penalty: None,
        logit_bias: None,
        logprobs: None,
    }
}

#[test]
fn only_null_and_empty_containers_ask_for_nothing() {
    for v in [
        JsonShape::Null,
        JsonShape::Array { len: 0 },
        JsonShape::Object { len: 0, kind: None },
    ] {
        assert!(json_is_empty(&v), "{v:?}");
    }
    for v in [
        JsonShape::Text("".into()),
        JsonShape::Text("none".into()),
        JsonShape::Bool(false),
        JsonShape::Number,
        JsonShape::Array { len: 1 },
        JsonShape::Object { len: 1, kind: None },
    ] {
        assert!(!json_is_empty(&v), "{v:?}");
    }
}

#[test]
fn ids_are_unique_and_shaped_like_the_upstream_ones() {
    let mut ids = IdSource::new();
    let a = new_id(&mut ids, "chatcmpl");
    let b = new_id(&mut ids, "chatcmpl");
    assert_ne!(a, b);
    assert!(a.starts_with("chatcmpl-"), "{a}");
    assert_eq!(a.len(), "chatcmpl-".len() + 24);
    assert!(a["chatcmpl-".len()..].chars().all(|c| c.is_ascii_hexdigit()));
}

#[test]
fn many_ids_do_not_collide() {
    let mut source = IdSource::new();
    let ids: HashSet<String> = (0..10_000).map(|_| new_id(&mut source, "cmpl")).collect();
    assert_eq!(ids.len(), 10_000);
}

#[test]
fn model_checking_accepts_absent_and_exact_but_not_another_model() {
    assert!(check_model(None, "crucible-120m").is_ok());
    assert!(check_model(Some("crucible-120m"), "crucible-120m").is_ok());
    let e = check_model(Some("gpt-4o"), "crucible-120m").unwrap_err();
    assert_eq!(e.status, 404);
    assert_eq!(e.body.code.as_deref(), Some("model_not_found"));
    // The message must name what is actually served, or a client that
    // guessed wrong has nothing to go on.
    assert!(e.body.message.contains("crucible-120m"), "{}", e.body.message);
}

#[test]
fn model_ids_may_not_be_paths() {
    assert!(validate_model_id("crucible-120m").is_ok());
    assert!(validate_model_id("").is_err());
    assert!(validate_model_id("/home/user/export/120m").is_err());
    assert!(validate_model_id("models\\120m").is_err());
}

#[test]
fn no_op_parameter_values_are_accepted_and_others_are_not() {
    assert!(reject_if_set(Some(1.0f64), |v| *v == 1.0, "top_p", "").is_ok());
    assert!(reject_if_set(Some(0.2f64), |v| *v == 1.0, "top_p", "").is_err());
    assert!(reject_if_set(None::<f64>, |v| *v == 1.0, "top_p", "").is_ok());
}

#[test]
fn error_bodies_carry_every_field_the_schema_requires() {
    let e = ApiError::unsupported("top_p", "Crucible samples with top-k.");
    let envelope = ApiErrorEnvelope { error: e.body };
    let err = &envelope.error;
    assert!(!err.message.is_empty());
    assert!(err.code.is_some());
    assert_eq!(err.kind, "invalid_request_error");
    assert_eq!(err.param.as_deref(), Some("top_p"));
}

#[test]
fn chat_a_single_user_turn_is_primed_for_the_assistant() {
    let p = serialize(&[msg("user", "hello")]).unwrap();
    assert_eq!(p, "User: hello\n\nAssistant:");
    // No trailing space: GPT-2 merges the leading space into the first
    // generated token, so priming with one would split it.
    assert!(!p.ends_with(' '));
}

#[test]
fn chat_a_full_transcript_round_trips_in_order() {
    let p = serialize(&[
        msg("system", "be terse"),
        msg("user", "hi"),
        msg("assistant", "hello"),
        msg("user", "again"),
    ])
    .unwrap();
    assert_eq!(
        p,
        "System: be terse\n\nUser: hi\n\nAssistant: hello\n\nUser: again\n\nAssistant:"
    );
}

#[test]
fn a_trailing_assistant_message_continues_rather_than_reprimes() {
    let p = serialize(&[msg("user", "count"), msg("assistant", "one two")]).unwrap();
    assert_eq!(p, "User: count\n\nAssistant: one two");
    assert!(!p.ends_with("Assistant:"));
}

#[test]
fn developer_is_treated_as_system() {
    let a = serialize(&[msg("developer", "x"), msg("user", "y")]).unwrap();
    let b = serialize(&[msg("system", "x"), msg("user", "y")]).unwrap();
    assert_eq!(a, b);
}

#[test]
fn chat_serialization_is_deterministic() {
    let m = vec![msg("system", "s"), msg("user", "u"), msg("assistant", "a"), msg("user", "v")];
    assert_eq!(serialize(&m).unwrap(), serialize(&m).unwrap());
}

#[test]
fn empty_content_still_produces_a_labelled_turn() {
    let p = serialize(&[msg("system", ""), msg("user", "hi")]).unwrap();
    assert_eq!(p, "System:\n\nUser: hi\n\nAssistant:");
}

#[test]
fn text_content_parts_are_accepted_and_concatenated() {
    let m = ChatMessage {
        role: "user".into(),
        content: Some(MessageContent::Parts(vec![
            part("text", Some("a")),
            part("text", Some("b")),
        ])),
        name: None,
        tool_calls: None,
        function_call: None,
    };
    assert_eq!(serialize(&[m]).unwrap(), "User: ab\n\nAssistant:");
}

#[test]
fn an_image_part_is_refused_rather_than_stringified() {
    let m = ChatMessage {
        role: "user".into(),
        content: Some(MessageContent::Parts(vec![part("image_url", None)])),
        name: None,
        tool_calls: None,
        function_call: None,
    };
    let e = serialize(&[m]).unwrap_err();
    assert_eq!(e.status, 400);
    assert!(e.body.message.contains("image_url"), "{}", e.body.message);
}

#[test]
fn tool_and_function_roles_are_refused() {
    for role in ["tool", "function"] {
        let e = serialize(&[msg(role, "{}")]).unwrap_err();
        assert_eq!(e.body.code.as_deref(), Some("unsupported_parameter"));
    }
}

#[test]
fn an_unknown_role_is_a_400() {
    let e = serialize(&[msg("wizard", "x")]).unwrap_err();
    assert_eq!(e.status, 400);
}

#[test]
fn an_assistant_message_with_tool_calls_is_refused() {
    let mut m = msg("assistant", "");
    m.tool_calls = Some(JsonShape::Array { len: 1 });
    assert!(serialize(&[m]).is_err());
}

#[test]
fn chat_an_empty_message_list_is_refused() {
    assert!(serialize(&[]).is_err());
}

#[test]
fn null_content_is_an_empty_turn_not_an_error() {
    let m = ChatMessage {
        role: "assistant".into(),
        content: Some(MessageContent::Null),
        name: None,
        tool_calls: None,
        function_call: None,
    };
    assert_eq!(serialize(&[msg("user", "x"), m]).unwrap(), "User: x\n\nAssistant:");
}

#[test]
fn multibyte_content_survives_serialization_unchanged() {
    let p = serialize(&[msg("user", "héllo 世界 🌍")]).unwrap();
    assert!(p.contains("héllo 世界 🌍"));
}

#[test]
fn each_error_has_its_status_kind_and_code() {
    let code = |e: &ApiError| e.body.code.clone();
    let e = ApiError::invalid("m", Some("p"));
    assert_eq!((e.status, code(&e)), (400, Some("invalid_value".into())));
    let e = ApiError::missing("messages");
    assert_eq!(e.body.message, "Missing required parameter: 'messages'.");
    assert_eq!(code(&e), Some("missing_required_parameter".into()));
    let e = ApiError::unsupported("top_p", "No.");
    assert_eq!(e.body.message, "Unsupported parameter: 'top_p'. No.");
    let e = ApiError::model_not_found("a", "b");
    assert_eq!(
        e.body.message,
        "The model 'a' does not exist. This server serves one model: 'b'."
    );
    let e = ApiError::context_length("m");
    assert_eq!((e.status, code(&e)), (400, Some("context_length_exceeded".into())));
    let e = ApiError::rate_limited("m");
    assert_eq!((e.status, e.body.kind), (429, "rate_limit_error"));
    let e = ApiError::unavailable("m");
    assert_eq!((e.status, code(&e)), (503, Some("service_unavailable".into())));
    let e = ApiError::server("m");
    assert_eq!((e.status, code(&e), e.body.kind), (500, None, "server_error"));
}

#[test]
fn defaults_of_a_chat_request_come_from_the_service() {
    let p = prepare(&chat(vec![msg("user", "hi")]), "m", 100).unwrap();
    assert_eq!(p.prompt, "User: hi\n\nAssistant:");
    assert_eq!(p.max_tokens, 100);
    assert!(!p.stream && !p.include_usage);
    let p = prepare(&chat(vec![msg("user", "hi")]), "m", 4096).unwrap();
    assert_eq!(p.max_tokens, 256);
    let mut r = chat(vec![msg("user", "hi")]);
    r.seed = Some(-1);
    r.stream = Some(true);
    r.stream_options = Some(StreamOptions { include_usage: Some(true) });
    r.max_tokens = Some(7);
    r.max_completion_tokens = Some(7);
    r.temperature = Some(F32Bits(0x3f80_0000));
    let p = prepare(&r, "m", 100).unwrap();
    assert_eq!(p.seed, Some(u64::MAX));
    assert_eq!(p.max_tokens, 7);
    assert!(p.stream && p.include_usage);
    assert_eq!(p.temperature, Some(F32Bits(0x3f80_0000)));
}

#[test]
fn what_is_not_implemented_is_refused_by_name() {
    let refused = |change: fn(&mut ChatRequest)| -> Option<String> {
        let mut r = chat(vec![msg("user", "hi")]);
        change(&mut r);
        prepare(&r, "m", 100).unwrap_err().body.param
    };
    assert_eq!(refused(|r| r.n = Some(2)).as_deref(), Some("n"));
    assert_eq!(refused(|r| r.top_p = Some(F64Bits(0.5f64.to_bits()))).as_deref(), Some("top_p"));
    assert_eq!(
        refused(|r| r.frequency_penalty = Some(F64Bits(1.0f64.to_bits()))).as_deref(),
        Some("frequency_penalty")
    );
    assert_eq!(
        refused(|r| r.presence_penalty = Some(F64Bits(1.0f64.to_bits()))).as_deref(),
        Some("presence_penalty")
    );
    assert_eq!(refused(|r| r.logprobs = Some(true)).as_deref(), Some("logprobs"));
    assert_eq!(refused(|r| r.top_logprobs = Some(0)).as_deref(), Some("top_logprobs"));
    assert_eq!(refused(|r| r.stop = Some(JsonShape::Text("x".into()))).as_deref(), Some("stop"));
    assert_eq!(refused(|r| r.stop = Some(JsonShape::Text("none".into()))).as_deref(), Some("stop"));
    assert_eq!(
        refused(|r| r.logit_bias = Some(JsonShape::Object { len: 1, kind: None })).as_deref(),
        Some("logit_bias")
    );
    assert_eq!(refused(|r| r.tools = Some(JsonShape::Array { len: 1 })).as_deref(), Some("tools"));
    assert_eq!(
        refused(|r| r.tool_choice = Some(JsonShape::Text("auto".into()))).as_deref(),
        Some("tool_choice")
    );
    assert_eq!(
        refused(|r| r.functions = Some(JsonShape::Array { len: 1 })).as_deref(),
        Some("functions")
    );
    assert_eq!(
        refused(|r| r.function_call = Some(JsonShape::Text("x".into()))).as_deref(),
        Some("function_call")
    );
    assert_eq!(
        refused(|r| r.modalities = Some(JsonShape::Array { len: 1 })).as_deref(),
        Some("modalities")
    );
    assert_eq!(
        refused(|r| r.audio = Some(JsonShape::Object { len: 1, kind: None })).as_deref(),
        Some("audio")
    );
    assert_eq!(
        refused(|r| r.reasoning_effort = Some(JsonShape::Text("low".into()))).as_deref(),
        Some("reasoning_effort")
    );
    assert_eq!(
        refused(|r| r.response_format = Some(JsonShape::Object {
            len: 1,
            kind: Some("json_object".into())
        }))
        .as_deref(),
        Some("response_format")
    );
    assert_eq!(
        refused(|r| {
            r.max_tokens = Some(1);
            r.max_completion_tokens = Some(2);
        })
        .as_deref(),
        Some("max_completion_tokens")
    );
    assert_eq!(refused(|r| r.messages = None).as_deref(), Some("messages"));
    assert_eq!(refused(|r| r.model = Some("other".into())).as_deref(), Some("model"));
}

#[test]
fn values_that_change_nothing_are_accepted() {
    let mut r = chat(vec![msg("user", "hi")]);
    r.n = Some(1);
    r.top_p = Some(F64Bits(1.0f64.to_bits()));
    r.frequency_penalty = Some(F64Bits((-0.0f64).to_bits()));
    r.presence_penalty = Some(F64Bits(0.0f64.to_bits()));
    r.logprobs = Some(false);
    r.stop = Some(JsonShape::Array { len: 0 });
    r.tools = Some(JsonShape::Null);
    r.logit_bias = Some(JsonShape::Object { len: 0, kind: None });
    r.response_format = Some(JsonShape::Object { len: 1, kind: Some("text".into()) });
    r.model = Some("m".into());
    assert!(prepare(&r, "m", 100).is_ok());
}

fn stream() -> ChatStream {
    ChatStream {
        id: "chatcmpl-1".into(),
        created: 5,
        model: "m".into(),
        include_usage: true,
        prompt_tokens: 3,
    }
}

fn text_of(events: &[ChatEvent]) -> String {
    let mut out = String::new();
    for e in events {
        if let ChatEvent::Chunk(c) = e {
            for choice in &c.choices {
                out.push_str(choice.delta.content.as_deref().unwrap_or(""));
            }
        }
    }
    out
}

#[test]
fn a_chat_stream_carries_what_the_whole_response_carries() {
    let items = vec![
        StreamItem::Token { text: "he".into() },
        StreamItem::Token { text: "".into() },
        StreamItem::Token { text: "llo".into() },
        StreamItem::Done {
            reason: FinishReason::Length,
            name: "length".into(),
            generated: 3,
            tail: "!".into(),
        },
    ];
    let s = stream();
    let mut events = vec![s.head()];
    let mut whole = Collector::new();
    for item in &items {
        events.extend(s.on_item(item.clone()));
        whole.push(item.clone());
    }
    let response = complete(whole, "chatcmpl-1".into(), 5, "m", 3);
    assert_eq!(text_of(&events), "hello!");
    assert_eq!(response.choices[0].message.content, "hello!");
    assert_eq!(response.choices[0].finish_reason, "length");
    assert_eq!(response.usage, Usage { prompt_tokens: 3, completion_tokens: 3, total_tokens: 6 });
    // Head, three tokens, the tail, the finish, the usage, the end.
    assert_eq!(events.len(), 8);
    assert!(matches!(events[7], ChatEvent::Done));
    if let ChatEvent::Chunk(c) = &events[0] {
        assert_eq!(c.choices[0].delta.role, Some("assistant"));
        assert_eq!(c.object, "chat.completion.chunk");
    }
    if let ChatEvent::Chunk(c) = &events[6] {
        assert!(c.choices.is_empty());
        assert_eq!(c.usage, Some(Some(Usage::new(3, 3))));
    }
}

#[test]
fn a_failed_chat_stream_stops_without_the_sentinel() {
    let s = stream();
    assert!(s.on_item(StreamItem::Failed("gone".into())).is_empty());
    let mut c = Collector::new();
    assert!(matches!(c.push(StreamItem::Failed("gone".into())), Collected::Failed(m) if m == "gone"));
}

#[test]
fn a_completion_prompt_is_one_string() {
    let p = completions::prepare(&completion(Some(PromptField::Text("once".into()))), "m").unwrap();
    assert_eq!((p.prompt.as_str(), p.max_tokens), ("once", 16));
    let e = completions::prepare(&completion(None), "m").unwrap_err();
    assert_eq!(e.body.code.as_deref(), Some("missing_required_parameter"));
    let many = PromptField::Many(vec![JsonShape::Number, JsonShape::Number]);
    let e = completions::prepare(&completion(Some(many)), "m").unwrap_err();
    assert!(e.body.message.contains("A batch of 2 prompts"), "{}", e.body.message);
    for (shape, word) in [
        (JsonShape::Number, "a number"),
        (JsonShape::Bool(true), "a boolean"),
        (JsonShape::Object { len: 0, kind: None }, "an object"),
        (JsonShape::Null, "an unsupported value"),
    ] {
        let e = completions::prepare(&completion(Some(PromptField::Other(shape))), "m").unwrap_err();
        assert!(e.body.message.contains(word), "{}", e.body.message);
    }
}

#[test]
fn completion_parameters_are_refused_by_name() {
    let refused = |change: fn(&mut CompletionRequest)| -> Option<String> {
        let mut r = completion(Some(PromptField::Text("x".into())));
        change(&mut r);
        completions::prepare(&r, "m").unwrap_err().body.param
    };
    assert_eq!(refused(|r| r.n = Some(0)).as_deref(), Some("n"));
    assert_eq!(refused(|r| r.best_of = Some(3)).as_deref(), Some("best_of"));
    assert_eq!(refused(|r| r.echo = Some(true)).as_deref(), Some("echo"));
    assert_eq!(refused(|r| r.suffix = Some("y".into())).as_deref(), Some("suffix"));
    assert_eq!(refused(|r| r.logprobs = Some(0)).as_deref(), Some("logprobs"));
    assert_eq!(refused(|r| r.stop = Some(JsonShape::Text("x".into()))).as_deref(), Some("stop"));
    assert_eq!(refused(|r| r.stop = Some(JsonShape::Text("none".into()))).as_deref(), Some("stop"));
    assert_eq!(refused(|r| r.model = Some("z".into())).as_deref(), Some("model"));
}

#[test]
fn a_completion_stream_carries_what_the_whole_response_carries() {
    let s = CompletionStream {
        id: "cmpl-1".into(),
        created: 5,
        model: "m".into(),
        include_usage: false,
        prompt_tokens: 2,
    };
    let done = StreamItem::Done {
        reason: FinishReason::Length,
        name: "length".into(),
        generated: 1,
        tail: "b".into(),
    };
    let mut events = s.on_item(StreamItem::Token { text: "a".into() });
    events.extend(s.on_item(done.clone()));
    let mut whole = Collector::new();
    whole.push(StreamItem::Token { text: "a".into() });
    whole.push(done);
    let response = s.complete(whole);
    assert_eq!(response.choices[0].text, "ab");
    assert_eq!(response.choices[0].finish_reason.as_deref(), Some("length"));
    let mut streamed = String::new();
    for e in &events {
        if let CompletionEvent::Chunk(c) = e {
            streamed.push_str(&c.choices[0].text);
        }
    }
    assert_eq!(streamed, "ab");
    assert!(matches!(events.last(), Some(CompletionEvent::Done)));
}

#[test]
fn the_served_model_is_listed_and_found() {
    let list = models_list("m", 9);
    assert_eq!((list.object, list.data.len()), ("list", 1));
    assert_eq!((list.data[0].id.as_str(), list.data[0].created), ("m", 9));
    assert!(models_get("m", "m", 9).is_ok());
    assert_eq!(models_get("x", "m", 9).unwrap_err().status, 404);
}

#[test]
fn the_clock_is_read() {
    // Well after the epoch and before the far future.
    let now = unix_now();
    assert!(now > 1_600_000_000 && now < 100_000_000_000);
}

#[test]
fn a_failed_submission_has_its_own_status_and_code() {
    for (e, status, code) in [
        (SubmitError::Tokenise("a".into()), 400, "invalid_value"),
        (SubmitError::Invalid("a".into()), 400, "invalid_value"),
        (SubmitError::Sampling("a".into()), 400, "invalid_value"),
        (SubmitError::TooLarge("a".into()), 400, "context_length_exceeded"),
        (SubmitError::QueueFull("a".into()), 429, "rate_limit_exceeded"),
        (SubmitError::Unavailable("a".into()), 503, "service_unavailable"),
    ] {
        let r = ApiError::from_submit(&e);
        assert_eq!((r.status, r.body.code.as_deref()), (status, Some(code)), "{e:?}");
        assert_eq!(r.body.message, "a");
    }
}
