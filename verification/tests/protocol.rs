use llm_engine::protocol::{
    default_max_tokens, parse_sse_block, read_frame, DoneEvent, GenerateRequest, Metrics,
    SamplingCapabilities, SseEvent, StreamError, TokenEvent,
};
use llm_engine::wire::F32Bits;
use serde_json::Value;

fn token(data: &str) -> Option<TokenEvent> {
    let v: Value = serde_json::from_str(data).ok()?;
    Some(TokenEvent {
        token_id: v.get("token_id")?.as_u64()? as usize,
        text: v.get("text")?.as_str()?.to_string(),
    })
}

fn done(data: &str) -> Option<DoneEvent> {
    let v: Value = serde_json::from_str(data).ok()?;
    Some(DoneEvent {
        finish_reason: v.get("finish_reason")?.as_str()?.to_string(),
        tokens_generated: v.get("tokens_generated")?.as_u64()? as usize,
        text: v.get("text").and_then(|t| t.as_str()).unwrap_or("").to_string(),
    })
}

fn error(data: &str) -> Option<StreamError> {
    let v: Value = serde_json::from_str(data).ok()?;
    Some(StreamError { error: v.get("error")?.as_str()?.to_string() })
}

fn well_formed(data: &str) -> bool {
    serde_json::from_str::<Value>(data).is_ok()
}

fn parse(block: &str) -> Result<Option<SseEvent>, String> {
    parse_sse_block(block, token, done, error, well_formed)
}

#[test]
fn parses_a_token_event() {
    let ev = parse("event: token\ndata: {\"token_id\":42,\"text\":\" Paris\"}").unwrap().unwrap();
    assert_eq!(ev, SseEvent::Token { token_id: 42, text: " Paris".into() });
}

#[test]
fn parses_a_done_event_including_the_tail() {
    let ev = parse(
        "event: done\ndata: {\"finish_reason\":\"length\",\"tokens_generated\":8,\"text\":\"!\"}",
    )
    .unwrap()
    .unwrap();
    assert_eq!(
        ev,
        SseEvent::Done { finish_reason: "length".into(), tokens_generated: 8, text: "!".into() }
    );
}

#[test]
fn done_without_a_tail_field_still_parses() {
    // The tail is optional; an older or minimal server may omit it.
    let ev = parse("event: done\ndata: {\"finish_reason\":\"cancelled\",\"tokens_generated\":3}")
        .unwrap()
        .unwrap();
    assert!(matches!(ev, SseEvent::Done { ref text, .. } if text.is_empty()));
}

#[test]
fn tolerates_crlf_comments_and_unknown_fields() {
    let block = ": keep-alive\r\nid: 7\r\nevent: token\r\ndata: {\"token_id\":1,\"text\":\"a\"}\r\n";
    let ev = parse(block).unwrap().unwrap();
    assert_eq!(ev, SseEvent::Token { token_id: 1, text: "a".into() });
}

#[test]
fn concatenates_multiple_data_lines() {
    let block = "event: token\ndata: {\"token_id\":1,\ndata: \"text\":\"x\"}";
    let ev = parse(block).unwrap().unwrap();
    assert_eq!(ev, SseEvent::Token { token_id: 1, text: "x".into() });
}

#[test]
fn malformed_json_is_an_error_not_a_panic() {
    let err = parse("event: token\ndata: {not json").unwrap_err();
    assert!(err.contains("malformed token"), "{err}");
}

#[test]
fn unknown_event_types_are_ignored_rather_than_fatal() {
    let ev = parse("event: heartbeat\ndata: {}").unwrap().unwrap();
    assert!(matches!(ev, SseEvent::Unknown(ref s) if s == "heartbeat"));
}

#[test]
fn an_unknown_event_must_be_well_formed() {
    assert_eq!(
        parse("event: heartbeat\ndata: {not json").unwrap_err(),
        "malformed heartbeat event from server: {not json"
    );
    // Without data there is nothing to be malformed.
    assert_eq!(parse("event: ping").unwrap(), Some(SseEvent::Unknown("ping".into())));
    assert_eq!(parse("event: ping\ndata:").unwrap(), Some(SseEvent::Unknown("ping".into())));
}

#[test]
fn an_empty_block_yields_nothing() {
    assert_eq!(parse("").unwrap(), None);
    assert_eq!(parse(": comment only").unwrap(), None);
}

#[test]
fn the_total_is_what_is_used_and_what_is_free() {
    let m = Metrics { kv_pages_used: 78, kv_pages_free: 234, ..Default::default() };
    assert_eq!(m.kv_total(), 312);
    assert_eq!(Metrics::default().kv_total(), 0);
}

#[test]
fn errors_and_other_malformed_events_say_which() {
    let ev = parse("event: error\ndata: {\"error\":\"gone\"}").unwrap().unwrap();
    assert_eq!(ev, SseEvent::Error { error: "gone".into() });
    assert_eq!(
        parse("event: done\ndata: nope").unwrap_err(),
        "malformed done event from server: nope"
    );
    assert_eq!(
        parse("event: error\ndata: nope").unwrap_err(),
        "malformed error event from server: nope"
    );
    // A payload without an event name is not one of ours.
    assert_eq!(parse("data: {}").unwrap(), None);
    assert_eq!(
        parse("data: {not json").unwrap_err(),
        "malformed unnamed event from server: {not json"
    );
}

#[test]
fn unknown_fields_and_comments_leave_a_frame_as_it_was() {
    let plain = read_frame("event: token\ndata: a\ndata: b");
    let noisy = read_frame(": hi\nretry: 10\nevent: token\ndata: a\nwhatever\ndata: b");
    assert_eq!(plain.event, noisy.event);
    assert_eq!(plain.data, noisy.data);
    assert_eq!(plain.data, "a\nb");
}

#[test]
fn the_sampling_summary_names_what_is_offered() {
    let mut c = SamplingCapabilities::default();
    c.temperature = true;
    assert_eq!(c.summary(), "greedy + top-k");
    c.temperature = false;
    assert_eq!(c.summary(), "greedy");
    assert_eq!(default_max_tokens(), 64);
}

#[test]
fn a_request_samples_where_its_temperature_is_positive() {
    let greedy = GenerateRequest {
        prompt: "x".into(),
        max_tokens: 1,
        temperature: None,
        top_k: None,
        seed: None,
    };
    assert!(!greedy.wants_sampling());
    let warm = GenerateRequest { temperature: Some(F32Bits(0x3f80_0000)), ..greedy };
    assert!(warm.wants_sampling());
}

#[test]
fn line_ends_and_skipped_lines_do_not_change_a_block() {
    let want = read_frame("event: token\ndata: a\ndata: b");
    for block in [
        "event: token\r\ndata: a\r\ndata: b\r\n",
        "event: token\ndata: a\r\ndata: b\r",
        ": x\nevent: token\n\ndata: a\nid: 3\ndata: b\n:\n",
        "event: token\r\r\ndata: a\r\n\r\ndata: b\r\r\n",
    ] {
        let got = read_frame(block);
        assert_eq!((&got.event, &got.data), (&want.event, &want.data), "{block:?}");
    }
}

#[test]
fn noise_does_not_change_the_answer() {
    let lines = ["event: token", "data: {\"token_id\":1,", "data: \"text\":\"x\"}"];
    let want = parse(&lines.join("\n"));
    assert_eq!(want, Ok(Some(SseEvent::Token { token_id: 1, text: "x".into() })));
    for noise in [":", ": keep-alive", "", "id: 7", "whatever", "retry:"] {
        for end in ["\n", "\r\n"] {
            for at in 0..=lines.len() {
                let mut more = lines.to_vec();
                more.insert(at, noise);
                assert_eq!(parse(&more.join(end)), want, "{noise:?} {end:?} {at}");
                assert_eq!(parse(&(more.join(end) + end)), want, "{noise:?} {end:?} {at}");
            }
        }
    }
}
