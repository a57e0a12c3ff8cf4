//! The gateway's own API keys: records, authentication by constant-time
//! comparison, usage accounting, and the routing-mode interlock that resets
//! keys pinned to a deleted credential.

use vstd::prelude::*;
use vstd::string::StrSliceExecFns;
use vstd::string::StringSliceAdditionalSpecFns;

use crate::outside::now_rfc3339;
use crate::outside::uuid_new_hyphenated;
use crate::outside::uuid_new_simple;
use crate::textutil::ascii_lower;
use crate::textutil::bytes_eq;
use crate::textutil::ct_eq_str;
use crate::textutil::spec_lower_bytes;

verus! {

/// How requests under a key pick their credential: automatically, or pinned
/// to one credential id.
#[derive(Debug, Clone, Copy, PartialEq, Eq, Structural)]
pub enum RoutingMode {
    Auto,
    Fixed,
}

impl Default for RoutingMode {
    fn default() -> (r: Self)
        ensures
            r == RoutingMode::Auto,
    {
        RoutingMode::Auto
    }
}

impl RoutingMode {
    /// The value stored for this mode in the persistent key table.
    pub fn as_db_value(&self) -> (r: &'static str)
        ensures
            *self == RoutingMode::Auto ==> r@ == "auto"@,
            *self == RoutingMode::Fixed ==> r@ == "fixed"@,
    {
        match self {
            RoutingMode::Auto => "auto",
            RoutingMode::Fixed => "fixed",
        }
    }

    /// Reads a stored value back, case-insensitively; anything that is not
    /// `fixed` is treated as `auto`.
    pub fn from_db_value(value: &str) -> (r: Self)
        ensures
            r == (if spec_lower_bytes(value.spec_bytes()) == "fixed"@.map_values(
                |c: char| c as u8,
            ) {
                RoutingMode::Fixed
            } else {
                RoutingMode::Auto
            }),
    {
        let lowered = ascii_lower(value.as_bytes());
        let fixed: [u8; 5] = [102, 105, 120, 101, 100];
        proof {
            reveal_strlit("fixed");
            assert("fixed"@.map_values(|c: char| c as u8) =~= fixed@);
        }
        if bytes_eq(lowered.as_slice(), fixed.as_slice()) {
            RoutingMode::Fixed
        } else {
            RoutingMode::Auto
        }
    }
}

/// One stored API key with its metadata and usage counters.
pub struct ApiKeyRecord {
    pub id: String,
    pub name: String,
    pub key: String,
    pub enabled: bool,
    pub created_at: String,
    pub last_used_at: Option<String>,
    pub request_count: u64,
    pub input_tokens: u64,
    pub output_tokens: u64,
    pub routing_mode: RoutingMode,
    pub credential_id: Option<u64>,
}

/// What the admin surface shows for one key.
pub struct ApiKeyPublicInfo {
    pub id: String,
    pub name: String,
    pub key: String,
    pub enabled: bool,
    pub created_at: String,
    pub last_used_at: Option<String>,
    pub request_count: u64,
    pub input_tokens: u64,
    pub output_tokens: u64,
    pub key_preview: String,
    pub routing_mode: RoutingMode,
    pub credential_id: Option<u64>,
}

/// Aggregate usage over all keys.
pub struct ApiKeyUsageOverview {
    pub total_keys: usize,
    pub enabled_keys: usize,
    pub total_requests: u64,
    pub total_input_tokens: u64,
    pub total_output_tokens: u64,
}

/// What a successful authentication hands to the request pipeline.
#[derive(Debug, Clone)]
pub struct AuthenticatedApiKey {
    pub key_id: String,
    pub routing_mode: RoutingMode,
    pub credential_id: Option<u64>,
}

/// The in-memory key table.  Persistence sits outside the library; the
/// operations here are the rules it must follow.
pub struct ApiKeyManager {
    keys: Vec<ApiKeyRecord>,
}

/// Index of the first enabled record whose key equals `incoming`, or -1.
pub open spec fn spec_auth_index(rs: Seq<ApiKeyRecord>, incoming: Seq<char>) -> int
    decreases rs.len(),
{
    if rs.len() == 0 {
        -1
    } else if rs.first().enabled && rs.first().key@ == incoming {
        0
    } else {
        let rest = spec_auth_index(rs.drop_first(), incoming);
        if rest < 0 {
            -1
        } else {
            rest + 1
        }
    }
}

/// The masked form of a key: first four and last four characters around
/// `****`, or all stars when the key is eight characters or shorter.
pub open spec fn spec_preview(k: Seq<char>) -> Seq<char> {
    if k.len() <= 8 {
        "********"@
    } else {
        k.subrange(0, 4) + "****"@ + k.subrange(k.len() - 4, k.len() as int)
    }
}

/// Saturating increment on u64 counters.
pub open spec fn sat_add64(x: u64, y: u64) -> u64 {
    if x + y > u64::MAX {
        u64::MAX
    } else {
        (x + y) as u64
    }
}

pub fn preview_key(raw: &str) -> (r: String)
    ensures
        r@ == spec_preview(raw@),
{
    let n = raw.unicode_len();
    if n <= 8 {
        String::from_str("********")
    } else {
        let head = raw.substring_char(0, 4);
        let tail = raw.substring_char(n - 4, n);
        let mut out = head.to_owned();
        out.append("****");
        out.append(tail);
        out
    }
}

impl ApiKeyManager {
    pub closed spec fn records(self) -> Seq<ApiKeyRecord> {
        self.keys@
    }

    /// A fresh store holding one enabled key named `Default` that carries
    /// the configured secret.
    pub fn new(initial_key: String) -> (t: Self)
        ensures
            t.records().len() == 1,
            t.records()[0].key@ == initial_key@,
            t.records()[0].name@ == "Default"@,
            t.records()[0].enabled,
            t.records()[0].request_count == 0,
            t.records()[0].input_tokens == 0,
            t.records()[0].output_tokens == 0,
            t.records()[0].routing_mode == RoutingMode::Auto,
            t.records()[0].credential_id is None,
            t.records()[0].last_used_at is None,
    {
        let mut keys: Vec<ApiKeyRecord> = Vec::new();
        keys.push(
            ApiKeyRecord {
                id: uuid_new_hyphenated(),
                name: String::from_str("Default"),
                key: initial_key,
                enabled: true,
                created_at: now_rfc3339(),
                last_used_at: None,
                request_count: 0,
                input_tokens: 0,
                output_tokens: 0,
                routing_mode: RoutingMode::Auto,
                credential_id: None,
            },
        );
        ApiKeyManager { keys }
    }

    /// Authenticates a client-provided secret against the enabled keys,
    /// comparing in constant time, and stamps the matched key's last use.
    /// Exactly the first enabled record with this key answers.
    pub fn authenticate(&mut self, incoming: &str) -> (r: Option<AuthenticatedApiKey>)
        ensures
            spec_auth_index(old(self).records(), incoming@) < 0 ==> r is None && final(self).records()
                == old(self).records(),
            spec_auth_index(old(self).records(), incoming@) >= 0 ==> {
                let i = spec_auth_index(old(self).records(), incoming@);
                let rec = old(self).records()[i];
                &&& r matches Some(a) && a.key_id@ == rec.id@ && a.routing_mode == rec.routing_mode
                    && a.credential_id == rec.credential_id
                &&& final(self).records().len() == old(self).records().len()
                &&& forall|j: int|
                    0 <= j < old(self).records().len() && j != i ==> final(self).records()[j]
                        == old(self).records()[j]
                &&& final(self).records()[i].id == rec.id
                &&& final(self).records()[i].key == rec.key
                &&& final(self).records()[i].enabled == rec.enabled
                &&& final(self).records()[i].request_count == rec.request_count
                &&& final(self).records()[i].input_tokens == rec.input_tokens
                &&& final(self).records()[i].output_tokens == rec.output_tokens
                &&& final(self).records()[i].routing_mode == rec.routing_mode
                &&& final(self).records()[i].credential_id == rec.credential_id
                &&& final(self).records()[i].last_used_at is Some
            },
    {
        let n = self.keys.len();
        let mut i: usize = 0;
        while i < n
            invariant
                n == self.keys@.len(),
                self.keys@ == old(self).records(),
                i <= n,
                forall|j: int|
                    0 <= j < i ==> !((#[trigger] self.keys@[j]).enabled && self.keys@[j].key@
                        == incoming@),
            decreases n - i,
        {
            let hit = self.keys[i].enabled && ct_eq_str(self.keys[i].key.as_str(), incoming);
            if hit {
                proof {
                    lemma_auth_index_at(self.keys@, incoming@, i as int);
                }
                let mut rec = self.keys.remove(i);
                let auth = AuthenticatedApiKey {
                    key_id: rec.id.clone(),
                    routing_mode: rec.routing_mode,
                    credential_id: rec.credential_id,
                };
                rec.last_used_at = Some(now_rfc3339());
                self.keys.insert(i, rec);
                return Some(auth);
            }
            i = i + 1;
        }
        proof {
            lemma_auth_index_none(self.keys@, incoming@);
        }
        None
    }

    /// Adds one request and its token counts to the key's monotone usage
    /// counters and stamps its last use.
    pub fn record_usage(&mut self, key_id: &str, input_tokens: u64, output_tokens: u64)
        ensures
            final(self).records().len() == old(self).records().len(),
            forall|j: int|
                0 <= j < old(self).records().len() && (#[trigger] old(self).records()[j]).id@
                    != key_id@ ==> final(self).records()[j] == old(self).records()[j],
            forall|j: int|
                0 <= j < old(self).records().len() && (#[trigger] old(self).records()[j]).id@
                    == key_id@ ==> {
                    let o = old(self).records()[j];
                    let f = final(self).records()[j];
                    &&& f.id == o.id
                    &&& f.name == o.name
                    &&& f.key == o.key
                    &&& f.enabled == o.enabled
                    &&& f.created_at == o.created_at
                    &&& f.request_count == sat_add64(o.request_count, 1)
                    &&& f.input_tokens == sat_add64(o.input_tokens, input_tokens)
                    &&& f.output_tokens == sat_add64(o.output_tokens, output_tokens)
                    &&& f.routing_mode == o.routing_mode
                    &&& f.credential_id == o.credential_id
                    &&& f.last_used_at is Some
                },
    {
        let n = self.keys.len();
        let mut i: usize = 0;
        while i < n
            invariant
                n == self.keys@.len(),
                old(self).records().len() == n,
                i <= n,
                forall|j: int|
                    i <= j < n ==> #[trigger] self.keys@[j] == old(self).records()[j],
                forall|j: int|
                    0 <= j < i && (#[trigger] old(self).records()[j]).id@ != key_id@
                        ==> self.keys@[j] == old(self).records()[j],
                forall|j: int|
                    0 <= j < i && (#[trigger] old(self).records()[j]).id@ == key_id@ ==> {
                        let o = old(self).records()[j];
                        let f = self.keys@[j];
                        &&& f.id == o.id
                        &&& f.name == o.name
                        &&& f.key == o.key
                        &&& f.enabled == o.enabled
                        &&& f.created_at == o.created_at
                        &&& f.request_count == sat_add64(o.request_count, 1)
                        &&& f.input_tokens == sat_add64(o.input_tokens, input_tokens)
                        &&& f.output_tokens == sat_add64(o.output_tokens, output_tokens)
                        &&& f.routing_mode == o.routing_mode
                        &&& f.credential_id == o.credential_id
                        &&& f.last_used_at is Some
                    },
            decreases n - i,
        {
            let matches_id = ct_eq_str(self.keys[i].id.as_str(), key_id);
            if matches_id {
                let mut rec = self.keys.remove(i);
                rec.request_count = rec.request_count.saturating_add(1);
                rec.input_tokens = rec.input_tokens.saturating_add(input_tokens);
                rec.output_tokens = rec.output_tokens.saturating_add(output_tokens);
                rec.last_used_at = Some(now_rfc3339());
                self.keys.insert(i, rec);
            }
            i = i + 1;
        }
    }

    /// Every key with its masked preview.
    pub fn list(&self) -> (r: Vec<ApiKeyPublicInfo>)
        ensures
            r@.len() == self.records().len(),
            forall|j: int|
                0 <= j < r@.len() ==> {
                    let rec = self.records()[j];
                    let o = #[trigger] r@[j];
                    &&& o.id == rec.id
                    &&& o.name == rec.name
                    &&& o.key == rec.key
                    &&& o.enabled == rec.enabled
                    &&& o.created_at == rec.created_at
                    &&& o.last_used_at == rec.last_used_at
                    &&& o.request_count == rec.request_count
                    &&& o.input_tokens == rec.input_tokens
                    &&& o.output_tokens == rec.output_tokens
                    &&& o.key_preview@ == spec_preview(rec.key@)
                    &&& o.routing_mode == rec.routing_mode
                    &&& o.credential_id == rec.credential_id
                },
    {
        let mut out: Vec<ApiKeyPublicInfo> = Vec::new();
        let n = self.keys.len();
        let mut i: usize = 0;
        while i < n
            invariant
                n == self.keys@.len(),
                i <= n,
                out@.len() == i,
                forall|j: int|
                    0 <= j < i ==> {
                        let rec = self.records()[j];
                        let o = #[trigger] out@[j];
                        &&& o.id == rec.id
                        &&& o.name == rec.name
                        &&& o.key == rec.key
                        &&& o.enabled == rec.enabled
                        &&& o.created_at == rec.created_at
                        &&& o.last_used_at == rec.last_used_at
                        &&& o.request_count == rec.request_count
                        &&& o.input_tokens == rec.input_tokens
                        &&& o.output_tokens == rec.output_tokens
                        &&& o.key_preview@ == spec_preview(rec.key@)
                        &&& o.routing_mode == rec.routing_mode
                        &&& o.credential_id == rec.credential_id
                    },
            decreases n - i,
        {
            let rec = &self.keys[i];
            out.push(
                ApiKeyPublicInfo {
                    id: rec.id.clone(),
                    name: rec.name.clone(),
                    key: rec.key.clone(),
                    enabled: rec.enabled,
                    created_at: rec.created_at.clone(),
                    last_used_at: match &rec.last_used_at {
                        Some(x) => Some(x.clone()),
                        None => None,
                    },
                    request_count: rec.request_count,
                    input_tokens: rec.input_tokens,
                    output_tokens: rec.output_tokens,
                    key_preview: preview_key(rec.key.as_str()),
                    routing_mode: rec.routing_mode,
                    credential_id: rec.credential_id,
                },
            );
            i = i + 1;
        }
        out
    }

    /// Aggregate usage across all keys, with saturating sums.
    pub fn overview(&self) -> (r: ApiKeyUsageOverview)
        ensures
            r.total_keys == self.records().len(),
            r.enabled_keys == spec_enabled_count(self.records()),
            r.total_requests == spec_total_requests(self.records()),
            r.total_input_tokens == spec_total_input(self.records()),
            r.total_output_tokens == spec_total_output(self.records()),
    {
        let n = self.keys.len();
        let mut enabled: usize = 0;
        let mut requests: u64 = 0;
        let mut input: u64 = 0;
        let mut output: u64 = 0;
        let mut i: usize = 0;
        while i < n
            invariant
                n == self.keys@.len(),
                i <= n,
                enabled == spec_enabled_count(self.records().take(i as int)),
                requests == spec_total_requests(self.records().take(i as int)),
                input == spec_total_input(self.records().take(i as int)),
                output == spec_total_output(self.records().take(i as int)),
                enabled <= i,
            decreases n - i,
        {
            proof {
                assert(self.records().take(i + 1).drop_last() =~= self.records().take(i as int));
                assert(self.records().take(i + 1).last() == self.records()[i as int]);
            }
            if self.keys[i].enabled {
                enabled = enabled + 1;
            }
            requests = requests.saturating_add(self.keys[i].request_count);
            input = input.saturating_add(self.keys[i].input_tokens);
            output = output.saturating_add(self.keys[i].output_tokens);
            i = i + 1;
        }
        proof {
            assert(self.records().take(n as int) =~= self.records());
        }
        ApiKeyUsageOverview {
            total_keys: n,
            enabled_keys: enabled,
            total_requests: requests,
            total_input_tokens: input,
            total_output_tokens: output,
        }
    }

    /// Mints a new enabled key: a fresh id, a fresh `sk-kiro-rs-` secret,
    /// zero counters, and the requested routing.  The stored record equals
    /// the returned one.
    pub fn create_key(
        &mut self,
        name: String,
        routing_mode: RoutingMode,
        credential_id: Option<u64>,
    ) -> (r: ApiKeyRecord)
        ensures
            final(self).records().len() == old(self).records().len() + 1,
            forall|j: int|
                0 <= j < old(self).records().len() ==> final(self).records()[j] == old(
                    self,
                ).records()[j],
            ({
                let added = final(self).records().last();
                &&& added.id@ == r.id@
                &&& added.key@ == r.key@
                &&& added.name@ == r.name@
                &&& r.name@ == name@
                &&& r.enabled
                &&& added.enabled
                &&& r.request_count == 0 && added.request_count == 0
                &&& r.input_tokens == 0 && added.input_tokens == 0
                &&& r.output_tokens == 0 && added.output_tokens == 0
                &&& r.routing_mode == routing_mode && added.routing_mode == routing_mode
                &&& r.credential_id == credential_id && added.credential_id == credential_id
                &&& r.last_used_at is None && added.last_used_at is None
                &&& r.key@.len() == 43
                &&& r.key@.subrange(0, 11) == "sk-kiro-rs-"@
                &&& r.id@.len() == 36
            }),
    {
        proof {
            reveal_strlit("sk-kiro-rs-");
        }
        let mut raw = String::from_str("sk-kiro-rs-");
        let suffix = uuid_new_simple();
        raw.append(suffix.as_str());
        proof {
            assert(raw@.subrange(0, 11) =~= "sk-kiro-rs-"@);
        }
        let id = uuid_new_hyphenated();
        let created = now_rfc3339();
        let stored = ApiKeyRecord {
            id: id.clone(),
            name: name.clone(),
            key: raw.clone(),
            enabled: true,
            created_at: created.clone(),
            last_used_at: None,
            request_count: 0,
            input_tokens: 0,
            output_tokens: 0,
            routing_mode,
            credential_id,
        };
        self.keys.push(stored);
        ApiKeyRecord {
            id,
            name,
            key: raw,
            enabled: true,
            created_at: created,
            last_used_at: None,
            request_count: 0,
            input_tokens: 0,
            output_tokens: 0,
            routing_mode,
            credential_id,
        }
    }

    /// Points the keys with this id at the given routing; true when at
    /// least one key matched.
    pub fn set_routing(
        &mut self,
        id: &str,
        routing_mode: RoutingMode,
        credential_id: Option<u64>,
    ) -> (r: bool)
        ensures
            final(self).records().len() == old(self).records().len(),
            forall|j: int|
                0 <= j < old(self).records().len() && (#[trigger] old(self).records()[j]).id@
                    != id@ ==> final(self).records()[j] == old(self).records()[j],
            forall|j: int|
                0 <= j < old(self).records().len() && (#[trigger] old(self).records()[j]).id@
                    == id@ ==> {
                    let o = old(self).records()[j];
                    let f = final(self).records()[j];
                    &&& f.id == o.id
                    &&& f.name == o.name
                    &&& f.key == o.key
                    &&& f.enabled == o.enabled
                    &&& f.created_at == o.created_at
                    &&& f.last_used_at == o.last_used_at
                    &&& f.request_count == o.request_count
                    &&& f.input_tokens == o.input_tokens
                    &&& f.output_tokens == o.output_tokens
                    &&& f.routing_mode == routing_mode
                    &&& f.credential_id == credential_id
                },
            r == (exists|j: int|
                0 <= j < old(self).records().len() && (#[trigger] old(self).records()[j]).id@
                    == id@),
    {
        let n = self.keys.len();
        let mut i: usize = 0;
        let mut changed = false;
        while i < n
            invariant
                n == self.keys@.len(),
                old(self).records().len() == n,
                i <= n,
                forall|j: int|
                    i <= j < n ==> #[trigger] self.keys@[j] == old(self).records()[j],
                forall|j: int|
                    0 <= j < i && (#[trigger] old(self).records()[j]).id@ != id@ ==> self.keys@[j]
                        == old(self).records()[j],
                forall|j: int|
                    0 <= j < i && (#[trigger] old(self).records()[j]).id@ == id@ ==> {
                        let o = old(self).records()[j];
                        let f = self.keys@[j];
                        &&& f.id == o.id
                        &&& f.name == o.name
                        &&& f.key == o.key
                        &&& f.enabled == o.enabled
                        &&& f.created_at == o.created_at
                        &&& f.last_used_at == o.last_used_at
                        &&& f.request_count == o.request_count
                        &&& f.input_tokens == o.input_tokens
                        &&& f.output_tokens == o.output_tokens
                        &&& f.routing_mode == routing_mode
                        &&& f.credential_id == credential_id
                    },
                changed == (exists|j: int|
                    0 <= j < i && (#[trigger] old(self).records()[j]).id@ == id@),
            decreases n - i,
        {
            let matches_id = ct_eq_str(self.keys[i].id.as_str(), id);
            if matches_id {
                let mut rec = self.keys.remove(i);
                rec.routing_mode = routing_mode;
                rec.credential_id = credential_id;
                self.keys.insert(i, rec);
                changed = true;
            }
            i = i + 1;
        }
        changed
    }

    /// Breaks the fixed-routing pin of every key that points at the deleted
    /// credential: those keys return to automatic routing with no
    /// credential; all other keys are untouched.
    pub fn reset_routing_for_credential(&mut self, credential_id: u64)
        ensures
            final(self).records().len() == old(self).records().len(),
            forall|j: int|
                0 <= j < old(self).records().len() && (#[trigger] old(
                    self,
                ).records()[j]).credential_id != Some(credential_id) ==> final(self).records()[j]
                    == old(self).records()[j],
            forall|j: int|
                0 <= j < old(self).records().len() && (#[trigger] old(
                    self,
                ).records()[j]).credential_id == Some(credential_id) ==> {
                    let o = old(self).records()[j];
                    let f = final(self).records()[j];
                    &&& f.id == o.id
                    &&& f.name == o.name
                    &&& f.key == o.key
                    &&& f.enabled == o.enabled
                    &&& f.created_at == o.created_at
                    &&& f.last_used_at == o.last_used_at
                    &&& f.request_count == o.request_count
                    &&& f.input_tokens == o.input_tokens
                    &&& f.output_tokens == o.output_tokens
                    &&& f.routing_mode == RoutingMode::Auto
                    &&& f.credential_id is None
                },
    {
        let n = self.keys.len();
        let mut i: usize = 0;
        while i < n
            invariant
                n == self.keys@.len(),
                old(self).records().len() == n,
                i <= n,
                forall|j: int|
                    i <= j < n ==> #[trigger] self.keys@[j] == old(self).records()[j],
                forall|j: int|
                    0 <= j < i && (#[trigger] old(self).records()[j]).credential_id != Some(
                        credential_id,
                    ) ==> self.keys@[j] == old(self).records()[j],
                forall|j: int|
                    0 <= j < i && (#[trigger] old(self).records()[j]).credential_id == Some(
                        credential_id,
                    ) ==> {
                        let o = old(self).records()[j];
                        let f = self.keys@[j];
                        &&& f.id == o.id
                        &&& f.name == o.name
                        &&& f.key == o.key
                        &&& f.enabled == o.enabled
                        &&& f.created_at == o.created_at
                        &&& f.last_used_at == o.last_used_at
                        &&& f.request_count == o.request_count
                        &&& f.input_tokens == o.input_tokens
                        &&& f.output_tokens == o.output_tokens
                        &&& f.routing_mode == RoutingMode::Auto
                        &&& f.credential_id is None
                    },
            decreases n - i,
        {
            let hit = match self.keys[i].credential_id {
                Some(c) => c == credential_id,
                None => false,
            };
            if hit {
                let mut rec = self.keys.remove(i);
                rec.routing_mode = RoutingMode::Auto;
                rec.credential_id = None;
                self.keys.insert(i, rec);
            }
            i = i + 1;
        }
    }

    /// Enables or disables the keys with this id; true when one matched.
    pub fn set_enabled(&mut self, id: &str, enabled: bool) -> (r: bool)
        ensures
            final(self).records().len() == old(self).records().len(),
            forall|j: int|
                0 <= j < old(self).records().len() && (#[trigger] old(self).records()[j]).id@
                    != id@ ==> final(self).records()[j] == old(self).records()[j],
            forall|j: int|
                0 <= j < old(self).records().len() && (#[trigger] old(self).records()[j]).id@
                    == id@ ==> {
                    let o = old(self).records()[j];
                    let f = final(self).records()[j];
                    &&& f.id == o.id
                    &&& f.name == o.name
                    &&& f.key == o.key
                    &&& f.enabled == enabled
                    &&& f.created_at == o.created_at
                    &&& f.last_used_at == o.last_used_at
                    &&& f.request_count == o.request_count
                    &&& f.input_tokens == o.input_tokens
                    &&& f.output_tokens == o.output_tokens
                    &&& f.routing_mode == o.routing_mode
                    &&& f.credential_id == o.credential_id
                },
            r == (exists|j: int|
                0 <= j < old(self).records().len() && (#[trigger] old(self).records()[j]).id@
                    == id@),
    {
        let n = self.keys.len();
        let mut i: usize = 0;
        let mut changed = false;
        while i < n
            invariant
                n == self.keys@.len(),
                old(self).records().len() == n,
                i <= n,
                forall|j: int|
                    i <= j < n ==> #[trigger] self.keys@[j] == old(self).records()[j],
                forall|j: int|
                    0 <= j < i && (#[trigger] old(self).records()[j]).id@ != id@ ==> self.keys@[j]
                        == old(self).records()[j],
                forall|j: int|
                    0 <= j < i && (#[trigger] old(self).records()[j]).id@ == id@ ==> {
                        let o = old(self).records()[j];
                        let f = self.keys@[j];
                        &&& f.id == o.id
                        &&& f.name == o.name
                        &&& f.key == o.key
                        &&& f.enabled == enabled
                        &&& f.created_at == o.created_at
                        &&& f.last_used_at == o.last_used_at
                        &&& f.request_count == o.request_count
                        &&& f.input_tokens == o.input_tokens
                        &&& f.output_tokens == o.output_tokens
                        &&& f.routing_mode == o.routing_mode
                        &&& f.credential_id == o.credential_id
                    },
                changed == (exists|j: int|
                    0 <= j < i && (#[trigger] old(self).records()[j]).id@ == id@),
            decreases n - i,
        {
            let matches_id = ct_eq_str(self.keys[i].id.as_str(), id);
            if matches_id {
                let mut rec = self.keys.remove(i);
                rec.enabled = enabled;
                self.keys.insert(i, rec);
                changed = true;
            }
            i = i + 1;
        }
        changed
    }

    /// Deletes the keys with this id; true when one was removed.
    pub fn delete_key(&mut self, id: &str) -> (r: bool)
        ensures
            r == (exists|j: int|
                0 <= j < old(self).records().len() && (#[trigger] old(self).records()[j]).id@
                    == id@),
            forall|j: int|
                0 <= j < final(self).records().len() ==> (#[trigger] final(self).records()[j]).id@
                    != id@,
            final(self).records().len() <= old(self).records().len(),
    {
        let mut out: Vec<ApiKeyRecord> = Vec::new();
        let mut removed = false;
        let n = self.keys.len();
        let ghost rs0 = self.keys@;
        let mut i: usize = 0;
        while i < n
            invariant
                n == rs0.len(),
                self.keys@ == rs0,
                i <= n,
                out@.len() <= i,
                forall|j: int| 0 <= j < out@.len() ==> (#[trigger] out@[j]).id@ != id@,
                removed == (exists|j: int| 0 <= j < i && (#[trigger] rs0[j]).id@ == id@),
            decreases n - i,
        {
            let matches_id = ct_eq_str(self.keys[i].id.as_str(), id);
            if matches_id {
                removed = true;
            } else {
                let rec = &self.keys[i];
                out.push(
                    ApiKeyRecord {
                        id: rec.id.clone(),
                        name: rec.name.clone(),
                        key: rec.key.clone(),
                        enabled: rec.enabled,
                        created_at: rec.created_at.clone(),
                        last_used_at: match &rec.last_used_at {
                            Some(x) => Some(x.clone()),
                            None => None,
                        },
                        request_count: rec.request_count,
                        input_tokens: rec.input_tokens,
                        output_tokens: rec.output_tokens,
                        routing_mode: rec.routing_mode,
                        credential_id: rec.credential_id,
                    },
                );
            }
            i = i + 1;
        }
        self.keys = out;
        removed
    }
}

pub open spec fn spec_enabled_count(rs: Seq<ApiKeyRecord>) -> nat
    decreases rs.len(),
{
    if rs.len() == 0 {
        0
    } else {
        spec_enabled_count(rs.drop_last()) + if rs.last().enabled {
            1nat
        } else {
            0nat
        }
    }
}

pub open spec fn spec_total_requests(rs: Seq<ApiKeyRecord>) -> u64
    decreases rs.len(),
{
    if rs.len() == 0 {
        0
    } else {
        sat_add64(spec_total_requests(rs.drop_last()), rs.last().request_count)
    }
}

pub open spec fn spec_total_input(rs: Seq<ApiKeyRecord>) -> u64
    decreases rs.len(),
{
    if rs.len() == 0 {
        0
    } else {
        sat_add64(spec_total_input(rs.drop_last()), rs.last().input_tokens)
    }
}

pub open spec fn spec_total_output(rs: Seq<ApiKeyRecord>) -> u64
    decreases rs.len(),
{
    if rs.len() == 0 {
        0
    } else {
        sat_add64(spec_total_output(rs.drop_last()), rs.last().output_tokens)
    }
}

proof fn lemma_auth_index_at(rs: Seq<ApiKeyRecord>, incoming: Seq<char>, i: int)
    requires
        0 <= i < rs.len(),
        rs[i].enabled && rs[i].key@ == incoming,
        forall|j: int| 0 <= j < i ==> !((#[trigger] rs[j]).enabled && rs[j].key@ == incoming),
    ensures
        spec_auth_index(rs, incoming) == i,
    decreases rs.len(),
{
    if i > 0 {
        assert(rs.drop_first()[i - 1] == rs[i]);
        assert forall|j: int| 0 <= j < i - 1 implies !((#[trigger] rs.drop_first()[j]).enabled
            && rs.drop_first()[j].key@ == incoming) by {
            assert(rs.drop_first()[j] == rs[j + 1]);
        }
        lemma_auth_index_at(rs.drop_first(), incoming, i - 1);
    }
}

proof fn lemma_auth_index_none(rs: Seq<ApiKeyRecord>, incoming: Seq<char>)
    requires
        forall|j: int|
            0 <= j < rs.len() ==> !((#[trigger] rs[j]).enabled && rs[j].key@ == incoming),
    ensures
        spec_auth_index(rs, incoming) < 0,
    decreases rs.len(),
{
    if rs.len() > 0 {
        assert forall|j: int| 0 <= j < rs.drop_first().len() implies !((
        #[trigger] rs.drop_first()[j]).enabled && rs.drop_first()[j].key@ == incoming) by {
            assert(rs.drop_first()[j] == rs[j + 1]);
        }
        lemma_auth_index_none(rs.drop_first(), incoming);
    }
}

/// A key just created authenticates back to its own record: if no earlier
/// enabled record carries the same secret, the search lands exactly on the
/// appended record, so `create_key` then `authenticate` return the same id.
pub proof fn lemma_fresh_key_authenticates(rs: Seq<ApiKeyRecord>, r: ApiKeyRecord)
    requires
        r.enabled,
        forall|i: int| 0 <= i < rs.len() ==> !((#[trigger] rs[i]).enabled && rs[i].key@ == r.key@),
    ensures
        spec_auth_index(rs.push(r), r.key@) == rs.len(),
{
    assert(rs.push(r)[rs.len() as int] == r);
    assert forall|j: int| 0 <= j < rs.len() implies !((#[trigger] rs.push(r)[j]).enabled
        && rs.push(r)[j].key@ == r.key@) by {
        assert(rs.push(r)[j] == rs[j]);
    }
    lemma_auth_index_at(rs.push(r), r.key@, rs.len() as int);
}

} // verus!
