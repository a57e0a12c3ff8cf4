use kiro_rs::admin::AdminState;
use kiro_rs::admin::SessionManager;
use kiro_rs::anthropic::classify_upstream_error;
use kiro_rs::anthropic::estimate_tokens_from_bytes;
use kiro_rs::anthropic::model_catalog;
use kiro_rs::anthropic::override_thinking_from_model_name;
use kiro_rs::anthropic::resolve_route;
use kiro_rs::anthropic::RouteDecision;
use kiro_rs::anthropic::ThinkingOverride;
use kiro_rs::anthropic::UpstreamErrorClass;
use kiro_rs::apikeys::preview_key;
use kiro_rs::apikeys::ApiKeyManager;
use kiro_rs::apikeys::AuthenticatedApiKey;
use kiro_rs::apikeys::RoutingMode;
use kiro_rs::config::Config;
use kiro_rs::credentials::delete_credential_and_unpin;
use kiro_rs::credentials::CredentialRegistry;
use kiro_rs::credentials::SelectError;
use kiro_rs::request_log::RequestLog;
use kiro_rs::request_log::RequestLogEntry;

fn entry(id: &str) -> RequestLogEntry {
    RequestLogEntry {
        id: id.to_string(),
        timestamp: "t".to_string(),
        model: "m".to_string(),
        stream: false,
        message_count: 1,
        input_tokens: 1,
        output_tokens: 1,
        token_source: "local(estimate)".to_string(),
        duration_ms: 1,
        status: "success".to_string(),
        api_key_id: "k".to_string(),
        request_body: String::new(),
        response_body: String::new(),
    }
}

#[test]
fn create_key_then_authenticate_returns_same_id() {
    let mut m = ApiKeyManager::new("seed-key-123".to_string());
    let rec = m.create_key("worker".to_string(), RoutingMode::Auto, None);
    let auth = m.authenticate(&rec.key).expect("fresh key must authenticate");
    assert_eq!(auth.key_id, rec.id);
    assert!(m.authenticate("sk-kiro-rs-never-issued").is_none());
}

#[test]
fn fixed_routing_interlock_resets_deleted_credential() {
    let mut reg = CredentialRegistry::new();
    let mut keys = ApiKeyManager::new("seed".to_string());
    // ids 1..=7
    let mut cred7 = 0;
    for p in 0..7u32 {
        cred7 = reg.add("social".to_string(), None, p);
    }
    assert_eq!(cred7, 7);
    let k = keys.create_key("pinned".to_string(), RoutingMode::Fixed, Some(7));
    assert!(delete_credential_and_unpin(&mut reg, &mut keys, 7));
    let listed = keys.list();
    let row = listed.iter().find(|r| r.id == k.id).unwrap();
    assert_eq!(row.routing_mode, RoutingMode::Auto);
    assert_eq!(row.credential_id, None);
    assert!(matches!(reg.select_fixed(7), Err(SelectError::CredentialNotFound)));
}

#[test]
fn disabled_credential_is_never_selected() {
    let mut reg = CredentialRegistry::new();
    let a = reg.add("social".to_string(), None, 5);
    let b = reg.add("social".to_string(), None, 1);
    assert_eq!(reg.select_priority(), Some(b));
    assert!(reg.set_disabled(b, true));
    assert_eq!(reg.select_priority(), Some(a));
    assert!(reg.set_disabled(a, true));
    assert_eq!(reg.select_priority(), None);
    assert_eq!(reg.select_balanced(), None);
    assert!(matches!(reg.select_fixed(b), Err(SelectError::CredentialNotFound)));
    assert!(reg.reset_and_enable(b));
    assert_eq!(reg.select_fixed(b), Ok(b));
}

#[test]
fn failure_count_reaches_threshold_and_disables() {
    let mut reg = CredentialRegistry::new();
    let a = reg.add("social".to_string(), None, 0);
    assert!(reg.record_failure(a, 3));
    assert!(reg.record_failure(a, 3));
    assert_eq!(reg.select_priority(), Some(a));
    assert!(reg.record_failure(a, 3));
    assert_eq!(reg.select_priority(), None);
}

#[test]
fn available_list_is_priority_ordered() {
    let mut reg = CredentialRegistry::new();
    let a = reg.add("social".to_string(), None, 9);
    let b = reg.add("social".to_string(), None, 1);
    let c = reg.add("social".to_string(), None, 1);
    let avail = reg.available_in_priority_order();
    let ids: Vec<u64> = avail.iter().map(|x| x.id).collect();
    assert_eq!(ids, vec![b, c, a]);
}

#[test]
fn resolve_route_decisions() {
    let fixed = AuthenticatedApiKey {
        key_id: "kid".to_string(),
        routing_mode: RoutingMode::Fixed,
        credential_id: Some(7),
    };
    assert!(matches!(
        resolve_route(&fixed, Some("u1"), true, "sticky", None),
        RouteDecision::Fixed(7)
    ));

    let auto = AuthenticatedApiKey {
        key_id: "kid".to_string(),
        routing_mode: RoutingMode::Auto,
        credential_id: None,
    };
    match resolve_route(&auto, Some("u1"), true, "sticky", None) {
        RouteDecision::Sticky(identity) => assert_eq!(identity.api_key, "kid:u1"),
        _ => panic!("expected sticky routing"),
    }
    assert!(matches!(
        resolve_route(&auto, Some(""), true, "sticky", None),
        RouteDecision::Global
    ));
    assert!(matches!(
        resolve_route(&auto, Some("u1"), true, "priority", None),
        RouteDecision::Global
    ));
    assert!(matches!(
        resolve_route(&auto, Some("u1"), false, "sticky", None),
        RouteDecision::Global
    ));
}

#[test]
fn upstream_error_classes() {
    assert_eq!(
        classify_upstream_error(b"failure: CONTENT_LENGTH_EXCEEDS_THRESHOLD hit"),
        UpstreamErrorClass::ContextWindowFull
    );
    assert_eq!(
        classify_upstream_error(b"upstream said: Input is too long."),
        UpstreamErrorClass::InputTooLong
    );
    assert_eq!(classify_upstream_error(b"connection reset"), UpstreamErrorClass::Transient);
}

#[test]
fn model_catalog_shape() {
    let models = model_catalog();
    assert_eq!(models.len(), 10);
    assert_eq!(models[0].id, "gw-sonnet-mid");
    assert!(models.iter().all(|m| m.object == "model" && m.max_tokens == 32000));
}

#[test]
fn thinking_override_from_model_name() {
    assert_eq!(override_thinking_from_model_name("gw-sonnet-mid"), ThinkingOverride::NoChange);
    assert_eq!(
        override_thinking_from_model_name("gw-sonnet-mid-thinking"),
        ThinkingOverride::Enabled
    );
    assert_eq!(
        override_thinking_from_model_name("gw-opus-4-6-thinking"),
        ThinkingOverride::Adaptive
    );
    assert_eq!(
        override_thinking_from_model_name("GW-OPUS-4.6-THINKING"),
        ThinkingOverride::Adaptive
    );
}

#[test]
fn token_estimate_floor() {
    assert_eq!(estimate_tokens_from_bytes(0), 1);
    assert_eq!(estimate_tokens_from_bytes(1), 1);
    assert_eq!(estimate_tokens_from_bytes(9), 3);
}

#[test]
fn preview_masks_keys() {
    assert_eq!(preview_key("short"), "********");
    assert_eq!(preview_key("sk-kiro-rs-abcdef"), "sk-k****cdef");
}

#[test]
fn routing_mode_db_round_trip() {
    assert_eq!(RoutingMode::from_db_value(RoutingMode::Fixed.as_db_value()), RoutingMode::Fixed);
    assert_eq!(RoutingMode::from_db_value(RoutingMode::Auto.as_db_value()), RoutingMode::Auto);
    assert_eq!(RoutingMode::from_db_value("FIXED"), RoutingMode::Fixed);
    assert_eq!(RoutingMode::from_db_value("anything"), RoutingMode::Auto);
}

#[test]
fn usage_counters_are_monotone() {
    let mut m = ApiKeyManager::new("seed".to_string());
    let rec = m.create_key("w".to_string(), RoutingMode::Auto, None);
    m.record_usage(&rec.id, 10, 20);
    m.record_usage(&rec.id, 5, 5);
    let o = m.overview();
    assert_eq!(o.total_requests, 2);
    assert_eq!(o.total_input_tokens, 15);
    assert_eq!(o.total_output_tokens, 25);
    assert_eq!(o.total_keys, 2);
    assert_eq!(o.enabled_keys, 2);
}

#[test]
fn admin_sessions_expire() {
    let mut sm = SessionManager::new();
    let s = sm.create_session("root", 0);
    assert!(s.token.starts_with("adm_"));
    assert!(sm.validate(&s.token, 1));
    assert!(!sm.validate(&s.token, 86_400_001));
    assert!(!sm.validate("adm_unknown", 1));
}

#[test]
fn admin_login_compares_exactly() {
    let st = AdminState::new("root".to_string(), "hunter".to_string());
    assert!(st.verify_login("root", "hunter"));
    assert!(!st.verify_login("root", "hunter2"));
    assert!(!st.verify_login("roo", "hunter"));
}

#[test]
fn config_defaults() {
    let c = Config::default();
    assert_eq!(c.host, "127.0.0.1");
    assert_eq!(c.port, 8080);
    assert_eq!(c.region, "us-east-1");
    assert_eq!(c.load_balancing_mode, "priority");
    assert_eq!(c.max_concurrent_per_credential, 2);
    assert_eq!(c.max_concurrent_per_key, 5);
    assert_eq!(c.sticky_expiry_minutes, 30);
    assert_eq!(c.zombie_stream_timeout_minutes, 15);
    assert_eq!(c.effective_auth_region(), "us-east-1");
    assert_eq!(c.effective_api_region(), "us-east-1");
}

#[test]
fn request_log_is_bounded() {
    let mut log = RequestLog::new();
    assert!(!log.is_enabled());
    log.set_enabled(true);
    for i in 0..205usize {
        log.push(entry(&format!("e{}", i)));
    }
    assert_eq!(log.entries_count(), 200);
    // the oldest five entries were dropped
    assert!(log.position_of("e4").is_none());
    let pos = log.position_of("e5").unwrap();
    assert_eq!(pos, 0);
    assert_eq!(log.entry_at(199).id, "e204");
}
