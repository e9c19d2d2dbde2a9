use llm_engine::anthropic::messages::{
    blocks_to_text, conversation, count_tokens, prepare, stop_reason, MessageEvent, MessageStream,
};
use llm_engine::anthropic::types::{
    ContentBlockIn, CountTokensRequest, InMessage, MessageContent, MessagesRequest, SystemField,
};
use llm_engine::anthropic::{
    check_served, check_version, model_info, models_list, new_message_id, new_request_id, rfc3339,
    wants_anthropic, ApiError, NotText, SUPPORTED_VERSION,
};
use llm_engine::chat_template::{serialize, Role, Turn};
use llm_engine::ids::IdSource;
use llm_engine::service::{Collector, FinishReason, StreamItem, SubmitError};
use llm_engine::wire::{F32Bits, JsonShape};
use std::collections::HashSet;

fn msg(role: &str, text: &str) -> InMessage {
    InMessage { role: role.into(), content: Some(MessageContent::Text(text.into())) }
}

fn block(kind: &str, text: Option<&str>) -> ContentBlockIn {
    ContentBlockIn { kind: kind.into(), text: text.map(String::from) }
}

fn prompt_of(system: Option<SystemField>, messages: &[InMessage]) -> String {
    serialize(&conversation(system.as_ref(), messages).unwrap())
}

fn request() -> MessagesRequest {
    MessagesRequest {
        model: Some("m".into()),
        max_tokens: Some(10),
        messages: Some(vec![msg("user", "hi")]),
        system: None,
        stream: None,
        metadata: None,
        service_tier: None,
        stop_sequences: None,
        tools: None,
        tool_choice: None,
        thinking: None,
        output_config: None,
        container: None,
        cache_control: None,
        temperature: None,
        top_p: None,
        top_k: None,
        crucible_temperature: None,
        crucible_top_k: None,
        crucible_seed: None,
    }
}

#[test]
fn a_top_level_system_becomes_the_leading_turn() {
    let p = prompt_of(Some(SystemField::Text("be terse".into())), &[msg("user", "hi")]);
    assert_eq!(p, "System: be terse\n\nUser: hi\n\nAssistant:");
}

#[test]
fn the_prompt_matches_what_the_openai_adapter_builds() {
    // Anthropic carries the system prompt at the top level and OpenAI carries
    // it in the message list; the model must not be able to tell which client
    // asked.
    let anthropic = prompt_of(
        Some(SystemField::Text("be terse".into())),
        &[msg("user", "hi"), msg("assistant", "hello"), msg("user", "again")],
    );
    let openai = serialize(&[
        Turn::new(Role::System, "be terse"),
        Turn::new(Role::User, "hi"),
        Turn::new(Role::Assistant, "hello"),
        Turn::new(Role::User, "again"),
    ]);
    assert_eq!(anthropic, openai);
}

#[test]
fn system_blocks_are_concatenated_like_a_string() {
    let blocks = SystemField::Blocks(vec![block("text", Some("a")), block("text", Some("b"))]);
    assert_eq!(
        prompt_of(Some(blocks), &[msg("user", "hi")]),
        prompt_of(Some(SystemField::Text("ab".into())), &[msg("user", "hi")])
    );
}

#[test]
fn a_trailing_assistant_message_is_a_prefill() {
    let p = prompt_of(None, &[msg("user", "count"), msg("assistant", "one two")]);
    assert_eq!(p, "User: count\n\nAssistant: one two");
}

#[test]
fn consecutive_same_role_messages_are_allowed() {
    // The current API permits them; nothing here merges or reorders.
    let p = prompt_of(None, &[msg("user", "one"), msg("user", "two")]);
    assert_eq!(p, "User: one\n\nUser: two\n\nAssistant:");
}

#[test]
fn a_system_role_inside_messages_points_at_the_top_level_field() {
    let e = conversation(None, &[msg("system", "x")]).unwrap_err();
    assert!(e.message.contains("top-level 'system'"), "{}", e.message);
}

#[test]
fn an_unknown_role_is_refused() {
    assert!(conversation(None, &[msg("tool", "{}")]).is_err());
    assert!(conversation(None, &[msg("wizard", "x")]).is_err());
}

#[test]
fn messages_an_empty_message_list_is_refused() {
    assert!(conversation(None, &[]).is_err());
}

#[test]
fn a_non_text_block_is_refused_rather_than_stringified() {
    let m = InMessage {
        role: "user".into(),
        content: Some(MessageContent::Blocks(vec![block("image", None)])),
    };
    let e = conversation(None, &[m]).unwrap_err();
    assert!(e.message.contains("image"), "{}", e.message);
    assert!(e.message.contains("text-only"), "{}", e.message);
}

#[test]
fn multibyte_content_survives() {
    let p = prompt_of(None, &[msg("user", "héllo 世界 🌍")]);
    assert!(p.contains("héllo 世界 🌍"));
}

#[test]
fn the_stop_reason_is_always_max_tokens() {
    assert_eq!(stop_reason(FinishReason::Length), "max_tokens");
    assert_eq!(stop_reason(FinishReason::Cancelled), "max_tokens");
}

#[test]
fn the_supported_version_and_an_absent_header_are_both_fine() {
    assert!(check_version(None).is_ok());
    assert!(check_version(Some(Ok(SUPPORTED_VERSION))).is_ok());
}

#[test]
fn an_unknown_version_is_refused_rather_than_assumed() {
    let e = check_version(Some(Ok("2099-01-01"))).unwrap_err();
    assert_eq!(e.status, 400);
    assert_eq!(e.kind, "invalid_request_error");
    assert!(e.message.contains("2023-06-01"), "{}", e.message);
}

#[test]
fn a_version_that_is_not_text_is_refused() {
    let e = check_version(Some(Err(NotText))).unwrap_err();
    assert_eq!((e.status, e.kind), (400, "invalid_request_error"));
    assert!(e.message.contains("2023-06-01"), "{}", e.message);
}

#[test]
fn the_version_header_is_what_distinguishes_the_two_models_apis() {
    assert!(wants_anthropic(&["host".to_string(), "anthropic-version".to_string()]));
    assert!(!wants_anthropic(&[]));
}

#[test]
fn ids_are_prefixed_unique_and_free_of_internal_state() {
    let mut ids = IdSource::new();
    let a = new_message_id(&mut ids);
    let b = new_message_id(&mut ids);
    assert_ne!(a, b);
    assert!(a.starts_with("msg_"), "{a}");
    assert!(new_request_id(&mut ids).starts_with("req_"));
    assert!(a["msg_".len()..].chars().all(|c| c.is_ascii_hexdigit()));
}

#[test]
fn mod_many_ids_do_not_collide() {
    let mut source = IdSource::new();
    let ids: HashSet<String> = (0..10_000).map(|_| new_message_id(&mut source)).collect();
    assert_eq!(ids.len(), 10_000);
}

#[test]
fn the_error_envelope_matches_the_published_shape() {
    let e = ApiError::invalid("nope");
    let mut ids = IdSource::new();
    let v = e.envelope(&new_request_id(&mut ids));
    assert_eq!(v.kind, "error");
    assert_eq!(v.error.kind, "invalid_request_error");
    assert_eq!(v.error.message, "nope");
    assert!(v.request_id.starts_with("req_"));
}

#[test]
fn a_full_queue_is_529_here_and_not_429() {
    // The OpenAI surface answers the same condition with 429. Each client
    // library retries on its own protocol's status.
    let e = ApiError::overloaded("busy");
    assert_eq!(e.status, 529);
    assert_eq!(e.kind, "overloaded_error");
}

#[test]
fn rfc3339_matches_known_timestamps() {
    assert_eq!(rfc3339(0), "1970-01-01T00:00:00Z");
    assert_eq!(rfc3339(1_000_000_000), "2001-09-09T01:46:40Z");
    assert_eq!(rfc3339(1_700_000_000), "2023-11-14T22:13:20Z");
    // Leap day, which the March-based civil arithmetic exists to get right.
    assert_eq!(rfc3339(1_709_164_800), "2024-02-29T00:00:00Z");
    assert_eq!(rfc3339(951_782_400), "2000-02-29T00:00:00Z");
}

#[test]
fn times_before_the_epoch_are_dates_too() {
    assert_eq!(rfc3339(-1), "1969-12-31T23:59:59Z");
    assert_eq!(rfc3339(-86_400), "1969-12-31T00:00:00Z");
    assert_eq!(rfc3339(253_402_300_800), "10000-01-01T00:00:00Z");
}

#[test]
fn timestamps_sort_as_their_times() {
    let times = [-62_167_219_200, -1, 0, 59, 60, 86_399, 951_782_400, 253_402_300_799];
    for w in times.windows(2) {
        let (a, b) = (rfc3339(w[0]), rfc3339(w[1]));
        assert!(a < b, "{a} {b}");
        assert_eq!((a.len(), b.len()), (20, 20));
    }
}

#[test]
fn submission_failures_have_their_own_status() {
    for e in [
        SubmitError::Tokenise("a".into()),
        SubmitError::Invalid("a".into()),
        SubmitError::TooLarge("a".into()),
        SubmitError::Sampling("a".into()),
    ] {
        let r = ApiError::from_submit(&e);
        assert_eq!((r.status, r.kind, r.message.as_str()), (400, "invalid_request_error", "a"));
    }
    assert_eq!(ApiError::from_submit(&SubmitError::QueueFull("q".into())).status, 529);
    assert_eq!(ApiError::from_submit(&SubmitError::Unavailable("u".into())).status, 500);
    assert_eq!(ApiError::not_found("x").status, 404);
}

#[test]
fn refusals_quote_what_was_sent() {
    // A quotation mark and a control character are escaped in the message.
    let e = blocks_to_text(&[block("a\"b\n", None)], "system").unwrap_err();
    assert_eq!(
        e.message,
        "system contains a \"a\\\"b\\n\" content block. This server is text-only; send a string or text blocks."
    );
    let e = conversation(None, &[msg("user", "x"), msg("tool", "y")]).unwrap_err();
    assert_eq!(
        e.message,
        "messages[1].role: \"tool\" is not supported. This server accepts 'user' and 'assistant'."
    );
    let e = check_version(Some(Ok("\u{1}"))).unwrap_err();
    assert!(e.message.contains("\"\\u{1}\""), "{}", e.message);
}

#[test]
fn a_message_request_is_prepared() {
    let mut r = request();
    r.system = Some(SystemField::Text("s".into()));
    r.crucible_temperature = Some(F32Bits(0x3f00_0000));
    r.crucible_top_k = Some(5);
    r.crucible_seed = Some(9);
    r.stream = Some(true);
    let p = prepare(&r, "m").unwrap();
    assert_eq!(p.prompt, "System: s\n\nUser: hi\n\nAssistant:");
    assert_eq!((p.max_tokens, p.top_k, p.seed, p.stream), (10, Some(5), Some(9), true));
    assert_eq!(p.temperature, Some(F32Bits(0x3f00_0000)));
}

#[test]
fn a_message_request_is_refused_by_field() {
    let refused = |change: fn(&mut MessagesRequest)| -> (u16, String) {
        let mut r = request();
        change(&mut r);
        let e = prepare(&r, "m").unwrap_err();
        (e.status, e.message)
    };
    assert_eq!(refused(|r| r.model = None), (400, "model: this field is required.".into()));
    assert_eq!(
        refused(|r| r.model = Some("x".into())),
        (404, "model: x. This server serves one model: m.".into())
    );
    assert_eq!(
        refused(|r| r.max_tokens = None),
        (400, "max_tokens: this field is required.".into())
    );
    assert_eq!(
        refused(|r| r.max_tokens = Some(-3)),
        (400, "max_tokens: -3 is less than the minimum of 1.".into())
    );
    assert_eq!(
        refused(|r| r.messages = None),
        (400, "messages: this field is required.".into())
    );
    for (field, message) in [
        ("temperature", refused(|r| r.temperature = Some(F32Bits(0)))),
        ("top_k", refused(|r| r.top_k = Some(1))),
        ("stop_sequences", refused(|r| r.stop_sequences = Some(vec!["x".into()]))),
        ("tools", refused(|r| r.tools = Some(JsonShape::Array { len: 1 }))),
        ("tool_choice", refused(|r| r.tool_choice = Some(JsonShape::Text("x".into())))),
        ("thinking", refused(|r| r.thinking = Some(JsonShape::Bool(false)))),
        ("output_config", refused(|r| r.output_config = Some(JsonShape::Number))),
        ("container", refused(|r| r.container = Some(JsonShape::Text("".into())))),
        (
            "cache_control",
            refused(|r| r.cache_control = Some(JsonShape::Object { len: 1, kind: None })),
        ),
    ] {
        assert_eq!(message.0, 400);
        assert!(message.1.starts_with(&format!("{field}: ")), "{}", message.1);
    }
    let mut r = request();
    r.stop_sequences = Some(Vec::new());
    r.tools = Some(JsonShape::Null);
    assert!(prepare(&r, "m").is_ok());
}

#[test]
fn a_count_is_of_the_prompt_that_generation_uses() {
    let r = request();
    let c = CountTokensRequest {
        model: r.model.clone(),
        messages: r.messages.clone(),
        system: r.system.clone(),
        tools: None,
        tool_choice: None,
        thinking: None,
    };
    assert_eq!(count_tokens(&c, "m").unwrap(), prepare(&r, "m").unwrap().prompt);
    let bare = CountTokensRequest { model: None, ..c.clone() };
    assert!(count_tokens(&bare, "m").is_ok());
    let none = CountTokensRequest { messages: None, ..c };
    assert_eq!(count_tokens(&none, "m").unwrap_err().message, "messages: this field is required.");
}

#[test]
fn a_message_stream_carries_what_the_whole_response_carries() {
    let s = MessageStream { id: "msg_1".into(), model: "m".into(), input_tokens: 4 };
    let items = vec![
        StreamItem::Token { text: "a".into() },
        StreamItem::Token { text: "".into() },
        StreamItem::Done {
            reason: FinishReason::Length,
            name: "length".into(),
            generated: 2,
            tail: "b".into(),
        },
    ];
    let mut events = s.head();
    let mut whole = Collector::new();
    for item in &items {
        events.extend(s.on_item(item.clone()));
        whole.push(item.clone());
    }
    let names: Vec<&str> = events.iter().map(|e| e.name()).collect();
    assert_eq!(
        names,
        vec![
            "message_start",
            "content_block_start",
            "content_block_delta",
            "content_block_delta",
            "content_block_delta",
            "content_block_stop",
            "message_delta",
            "message_stop",
        ]
    );
    let mut streamed = String::new();
    for e in &events {
        if let MessageEvent::Delta(d) = e {
            streamed.push_str(&d.delta.text);
        }
    }
    let response = s.complete(whole);
    assert_eq!(streamed, "ab");
    assert_eq!(response.content[0].text, "ab");
    assert_eq!(response.stop_reason, Some("max_tokens"));
    assert_eq!((response.usage.input_tokens, response.usage.output_tokens), (4, 2));
}

#[test]
fn a_failed_message_stream_says_so() {
    let s = MessageStream { id: "msg_1".into(), model: "m".into(), input_tokens: 4 };
    let events = s.on_item(StreamItem::Failed("gone".into()));
    assert_eq!(events.len(), 1);
    assert!(matches!(&events[0], MessageEvent::Error { message } if message == "gone"));
    assert_eq!(events[0].name(), "error");
}

#[test]
fn the_model_page_holds_the_served_model() {
    let info = model_info("m", 0, 5, 6);
    assert_eq!((info.max_tokens, info.max_input_tokens), (5, 6));
    assert_eq!(info.created_at, "1970-01-01T00:00:00Z");
    let page = models_list(info);
    assert_eq!(page.data.len(), 1);
    assert!(!page.has_more);
    assert_eq!(page.first_id.as_deref(), Some("m"));
    assert_eq!(page.last_id.as_deref(), Some("m"));
    assert!(check_served("m", "m").is_ok());
    assert_eq!(
        check_served("x", "m").unwrap_err().message,
        "model: x. This server serves one model: m."
    );
}
