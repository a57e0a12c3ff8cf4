use kiro_rs::kiro_request::ConversationState;
use kiro_rs::kiro_request::CurrentMessage;
use kiro_rs::kiro_request::KiroRequest;
use kiro_rs::kiro_request::UserInputMessage;

#[test]
fn test_kiro_request_new() {
    let state = ConversationState::new("conv-123").with_current_message(CurrentMessage::new(
        UserInputMessage::new("Hello", "gw-sonnet-mid"),
    ));

    let request = KiroRequest::new(state);

    assert_eq!(request.conversation_id(), "conv-123");
    assert_eq!(request.current_content(), "Hello");
    assert_eq!(request.model_id(), "gw-sonnet-mid");
}

#[test]
fn test_kiro_request_serialize() {
    let state = ConversationState::new("conv-123")
        .with_agent_task_type("vibe")
        .with_chat_trigger_type("MANUAL")
        .with_current_message(CurrentMessage::new(
            UserInputMessage::new("Hello", "gw-sonnet-mid").with_origin("AI_EDITOR"),
        ));

    let request = KiroRequest::new(state);
    let json = request.to_json();

    assert!(json.contains("\"conversationState\""));
    assert!(json.contains("\"conversationId\":\"conv-123\""));
    assert!(json.contains("\"agentTaskType\":\"vibe\""));
    assert!(json.contains("\"content\":\"Hello\""));
    assert!(json.contains("\"modelId\":\"gw-sonnet-mid\""));
}

#[test]
fn to_json_escapes_quotes_and_newlines() {
    let state = ConversationState::new("c").with_current_message(CurrentMessage::new(
        UserInputMessage::new("say \"hi\"\nplease", "m"),
    ));
    let json = KiroRequest::new(state).to_json();
    assert!(json.contains("say \\\"hi\\\"\\nplease"));
}

#[test]
fn to_json_includes_profile_arn_when_set() {
    let state = ConversationState::new("c").with_current_message(CurrentMessage::new(
        UserInputMessage::new("x", "m"),
    ));
    let json = KiroRequest::new(state).with_profile_arn("arn:one").to_json();
    assert!(json.contains("\"profileArn\":\"arn:one\""));
    assert!(json.ends_with("}"));
}
