//! The Anthropic-facing decisions: per-request routing, the upstream error
//! taxonomy, the model catalog, the thinking-mode override read off the
//! model name, and the local token estimate.

use vstd::prelude::*;
use vstd::string::StringSliceAdditionalSpecFns;
use vstd::string::StrSliceExecFns;

use crate::apikeys::AuthenticatedApiKey;
use crate::apikeys::RoutingMode;
use crate::sticky::RequestIdentity;
use crate::textutil::ascii_lower;
use crate::textutil::contains_bytes;
use crate::textutil::spec_contains;
use crate::textutil::spec_lower_bytes;

verus! {

/// Where a request goes: pinned to one credential, through the sticky
/// tracker under a combined identity, or through global selection.
pub enum RouteDecision {
    Fixed(u64),
    Sticky(RequestIdentity),
    Global,
}

/// The per-request routing decision.  Fixed routing wins when the key is
/// pinned; sticky routing needs the tracker enabled, the sticky balancing
/// mode, and a non-empty user header, and combines the key id with the
/// user id so one client cannot take over another's identity; everything
/// else goes global.
pub fn resolve_route(
    auth: &AuthenticatedApiKey,
    x_user_id: Option<&str>,
    sticky_available: bool,
    load_balancing_mode: &str,
    metadata_user_id: Option<&String>,
) -> (r: RouteDecision)
    ensures
        (auth.routing_mode == RoutingMode::Fixed && auth.credential_id is Some) ==> r
            == RouteDecision::Fixed(auth.credential_id->0),
        (auth.routing_mode != RoutingMode::Fixed || auth.credential_id is None) ==> (match r {
            RouteDecision::Fixed(_) => false,
            RouteDecision::Sticky(identity) => sticky_available && load_balancing_mode@
                == "sticky"@ && (x_user_id matches Some(u) && u@.len() > 0 && identity.api_key@
                == auth.key_id@ + ":"@ + u@),
            RouteDecision::Global => !(sticky_available && load_balancing_mode@ == "sticky"@
                && (x_user_id matches Some(u) && u@.len() > 0)),
        }),
{
    if auth.routing_mode == RoutingMode::Fixed {
        match auth.credential_id {
            Some(c) => {
                return RouteDecision::Fixed(c);
            },
            None => {},
        }
    }
    let mode_is_sticky = crate::textutil::ct_eq_str(load_balancing_mode, "sticky");
    if sticky_available && mode_is_sticky {
        match x_user_id {
            Some(u) => {
                if u.unicode_len() > 0 {
                    let mut key = self_clone_str(auth.key_id.as_str());
                    key.append(":");
                    key.append(u);
                    proof {
                        reveal_strlit(":");
                    }
                    let session_id = match metadata_user_id {
                        Some(m) => Some(self_clone_str(m.as_str())),
                        None => None,
                    };
                    return RouteDecision::Sticky(
                        RequestIdentity { api_key: key, session_id },
                    );
                }
            },
            None => {},
        }
    }
    RouteDecision::Global
}

fn self_clone_str(s: &str) -> (r: String)
    ensures
        r@ == s@,
{
    String::from_str(s)
}

/// What an upstream failure means for the client.
#[derive(Debug, Clone, Copy, PartialEq, Eq, Structural)]
pub enum UpstreamErrorClass {
    /// The conversation no longer fits the context window; a client error,
    /// never retried.
    ContextWindowFull,
    /// A single input too large for the upstream; a client error, never
    /// retried.
    InputTooLong,
    /// Anything else: an upstream fault, retried on the next credential.
    Transient,
}

pub open spec fn context_marker() -> Seq<u8> {
    // CONTENT_LENGTH_EXCEEDS_THRESHOLD
    seq![67u8, 79, 78, 84, 69, 78, 84, 95, 76, 69, 78, 71, 84, 72, 95, 69, 88, 67, 69, 69, 68, 83, 95, 84, 72, 82, 69, 83, 72, 79, 76, 68]
}

pub open spec fn too_long_marker() -> Seq<u8> {
    // Input is too long
    seq![73u8, 110, 112, 117, 116, 32, 105, 115, 32, 116, 111, 111, 32, 108, 111, 110, 103]
}

/// Classifies an upstream error message: the two non-retryable markers map
/// to client errors, in that order of precedence; everything else is
/// transient and eligible for failover.
pub fn classify_upstream_error(message: &[u8]) -> (r: UpstreamErrorClass)
    ensures
        spec_contains(message@, context_marker()) ==> r == UpstreamErrorClass::ContextWindowFull,
        !spec_contains(message@, context_marker()) && spec_contains(message@, too_long_marker())
            ==> r == UpstreamErrorClass::InputTooLong,
        !spec_contains(message@, context_marker()) && !spec_contains(message@, too_long_marker())
            ==> r == UpstreamErrorClass::Transient,
{
    let m1: Vec<u8> = vec![
        67u8, 79, 78, 84, 69, 78, 84, 95, 76, 69, 78, 71, 84, 72, 95, 69, 88, 67, 69, 69, 68, 83,
        95, 84, 72, 82, 69, 83, 72, 79, 76, 68,
    ];
    proof {
        assert(m1@ =~= context_marker());
    }
    if contains_bytes(message, m1.as_slice()) {
        return UpstreamErrorClass::ContextWindowFull;
    }
    let m2: Vec<u8> = vec![73u8, 110, 112, 117, 116, 32, 105, 115, 32, 116, 111, 111, 32, 108, 111, 110, 103];
    proof {
        assert(m2@ =~= too_long_marker());
    }
    if contains_bytes(message, m2.as_slice()) {
        return UpstreamErrorClass::InputTooLong;
    }
    UpstreamErrorClass::Transient
}

/// One entry of the model catalog.
pub struct Model {
    pub id: String,
    pub object: String,
    pub created: u64,
    pub owned_by: String,
    pub display_name: String,
    pub model_type: String,
    pub max_tokens: u32,
}

fn catalog_entry(id: &str, created: u64, display_name: &str) -> (r: Model)
    ensures
        r.id@ == id@,
        r.object@ == "model"@,
        r.created == created,
        r.owned_by@ == "anthropic"@,
        r.display_name@ == display_name@,
        r.model_type@ == "chat"@,
        r.max_tokens == 32000,
{
    Model {
        id: String::from_str(id),
        object: String::from_str("model"),
        created,
        owned_by: String::from_str("anthropic"),
        display_name: String::from_str(display_name),
        model_type: String::from_str("chat"),
        max_tokens: 32000,
    }
}

/// The static catalog of exposed model ids.
pub fn model_catalog() -> (r: Vec<Model>)
    ensures
        r@.len() == 10,
        forall|i: int|
            0 <= i < r@.len() ==> (#[trigger] r@[i]).object@ == "model"@ && r@[i].owned_by@
                == "anthropic"@ && r@[i].model_type@ == "chat"@ && r@[i].max_tokens == 32000,
{
    let mut models: Vec<Model> = Vec::new();
    models.push(catalog_entry("gw-sonnet-mid", 1727568000, "Gateway Sonnet Mid"));
    models.push(catalog_entry("gw-sonnet-mid-thinking", 1727568000, "Gateway Sonnet Mid (Thinking)"));
    models.push(catalog_entry("gw-opus-mid", 1730419200, "Gateway Opus Mid"));
    models.push(catalog_entry("gw-opus-mid-thinking", 1730419200, "Gateway Opus Mid (Thinking)"));
    models.push(catalog_entry("gw-sonnet-new", 1770314400, "Gateway Sonnet New"));
    models.push(catalog_entry("gw-sonnet-new-thinking", 1770314400, "Gateway Sonnet New (Thinking)"));
    models.push(catalog_entry("gw-opus-new", 1770314400, "Gateway Opus New"));
    models.push(catalog_entry("gw-opus-new-thinking", 1770314400, "Gateway Opus New (Thinking)"));
    models.push(catalog_entry("gw-haiku-mid", 1727740800, "Gateway Haiku Mid"));
    models.push(catalog_entry("gw-haiku-mid-thinking", 1727740800, "Gateway Haiku Mid (Thinking)"));
    models
}

pub open spec fn thinking_marker() -> Seq<u8> {
    // thinking
    seq![116u8, 104, 105, 110, 107, 105, 110, 103]
}

pub open spec fn opus_marker() -> Seq<u8> {
    // opus
    seq![111u8, 112, 117, 115]
}

pub open spec fn dash46_marker() -> Seq<u8> {
    // 4-6
    seq![52u8, 45, 54]
}

pub open spec fn dot46_marker() -> Seq<u8> {
    // 4.6
    seq![52u8, 46, 54]
}

/// What a model name asks for: thinking off, thinking on, or the adaptive
/// form used by the newest large model.
#[derive(Debug, Clone, Copy, PartialEq, Eq, Structural)]
pub enum ThinkingOverride {
    NoChange,
    Enabled,
    Adaptive,
}

/// Reads the thinking override off the model name, case-insensitively: no
/// `thinking` marker means no change; with it, the newest large model gets
/// the adaptive form, everything else the plain enabled form, both with a
/// budget of 20000 tokens.
pub fn override_thinking_from_model_name(model: &str) -> (r: ThinkingOverride)
    ensures
        !spec_contains(spec_lower_bytes(model.spec_bytes()), thinking_marker()) ==> r
            == ThinkingOverride::NoChange,
        spec_contains(spec_lower_bytes(model.spec_bytes()), thinking_marker()) ==> (r
            == (if spec_contains(spec_lower_bytes(model.spec_bytes()), opus_marker()) && (
        spec_contains(spec_lower_bytes(model.spec_bytes()), dash46_marker()) || spec_contains(
            spec_lower_bytes(model.spec_bytes()),
            dot46_marker(),
        )) {
            ThinkingOverride::Adaptive
        } else {
            ThinkingOverride::Enabled
        })),
{
    let lowered = ascii_lower(model.as_bytes());
    let think: Vec<u8> = vec![116u8, 104, 105, 110, 107, 105, 110, 103];
    let opus: Vec<u8> = vec![111u8, 112, 117, 115];
    let d46: Vec<u8> = vec![52u8, 45, 54];
    let p46: Vec<u8> = vec![52u8, 46, 54];
    proof {
        assert(think@ =~= thinking_marker());
        assert(opus@ =~= opus_marker());
        assert(d46@ =~= dash46_marker());
        assert(p46@ =~= dot46_marker());
    }
    if !contains_bytes(lowered.as_slice(), think.as_slice()) {
        return ThinkingOverride::NoChange;
    }
    let is_new_opus = contains_bytes(lowered.as_slice(), opus.as_slice()) && (contains_bytes(
        lowered.as_slice(),
        d46.as_slice(),
    ) || contains_bytes(lowered.as_slice(), p46.as_slice()));
    if is_new_opus {
        ThinkingOverride::Adaptive
    } else {
        ThinkingOverride::Enabled
    }
}

/// The thinking budget applied with either override.
pub fn thinking_budget_tokens() -> (r: u32)
    ensures
        r == 20000,
{
    20000
}

/// The local input estimate: about one token per four bytes of request
/// text, and never below one.
pub fn estimate_tokens_from_bytes(total_bytes: u64) -> (r: u64)
    ensures
        r == (if (total_bytes + 3) / 4 > 0 {
            (total_bytes + 3) / 4
        } else {
            1
        }),
{
    let est = (total_bytes / 4) + (if total_bytes % 4 == 0 {
        0
    } else {
        1
    });
    proof {
        assert(est == (total_bytes + 3) / 4);
    }
    if est > 0 {
        est
    } else {
        1
    }
}

} // verus!
