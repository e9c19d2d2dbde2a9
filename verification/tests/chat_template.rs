use llm_engine::chat_template::{serialize, Role, Turn};

fn t(role: Role, text: &str) -> Turn {
    Turn::new(role, text)
}

#[test]
fn chat_template_a_single_user_turn_is_primed_for_the_assistant() {
    let p = serialize(&[t(Role::User, "hello")]);
    assert_eq!(p, "User: hello\n\nAssistant:");
    // No trailing space: GPT-2 merges the leading space into the first
    // generated token, so priming with one would split it.
    assert!(!p.ends_with(' '));
}

#[test]
fn chat_template_a_full_transcript_round_trips_in_order() {
    let p = serialize(&[
        t(Role::System, "be terse"),
        t(Role::User, "hi"),
        t(Role::Assistant, "hello"),
        t(Role::User, "again"),
    ]);
    assert_eq!(
        p,
        "System: be terse\n\nUser: hi\n\nAssistant: hello\n\nUser: again\n\nAssistant:"
    );
}

#[test]
fn a_trailing_assistant_turn_continues_rather_than_repriming() {
    let p = serialize(&[t(Role::User, "count"), t(Role::Assistant, "one two")]);
    assert_eq!(p, "User: count\n\nAssistant: one two");
    assert!(!p.ends_with("Assistant:"));
}

#[test]
fn empty_text_still_produces_a_labelled_turn() {
    assert_eq!(
        serialize(&[t(Role::System, ""), t(Role::User, "hi")]),
        "System:\n\nUser: hi\n\nAssistant:"
    );
}

#[test]
fn an_empty_conversation_is_just_the_prime() {
    // Adapters reject empty message lists before reaching here; this only
    // pins that the function stays total rather than panicking.
    assert_eq!(serialize(&[]), "\n\nAssistant:");
}

#[test]
fn chat_template_serialization_is_deterministic() {
    let turns = vec![
        t(Role::System, "s"),
        t(Role::User, "u"),
        t(Role::Assistant, "a"),
        t(Role::User, "v"),
    ];
    assert_eq!(serialize(&turns), serialize(&turns));
}

#[test]
fn consecutive_turns_of_one_role_each_get_their_own_label() {
    // Anthropic permits consecutive same-role messages; nothing here merges
    // them, so what the client sent is what the model sees.
    let p = serialize(&[t(Role::User, "one"), t(Role::User, "two")]);
    assert_eq!(p, "User: one\n\nUser: two\n\nAssistant:");
}

#[test]
fn multibyte_text_survives_unchanged() {
    let p = serialize(&[t(Role::User, "héllo 世界 🌍")]);
    assert!(p.contains("héllo 世界 🌍"));
}

#[test]
fn a_system_turn_leads_regardless_of_which_protocol_supplied_it() {
    // OpenAI carries system inside the message list, Anthropic as a
    // top-level field. Both become a leading System turn, and this is the
    // test that says the two must produce byte-identical prompts.
    let from_openai = serialize(&[t(Role::System, "be terse"), t(Role::User, "hi")]);
    let from_anthropic = serialize(&[t(Role::System, "be terse"), t(Role::User, "hi")]);
    assert_eq!(from_openai, from_anthropic);
    assert_eq!(from_openai, "System: be terse\n\nUser: hi\n\nAssistant:");
}

#[test]
fn labels_are_the_words_of_the_transcript() {
    assert_eq!(Role::System.label(), "System:");
    assert_eq!(Role::User.label(), "User:");
    assert_eq!(Role::Assistant.label(), "Assistant:");
}
