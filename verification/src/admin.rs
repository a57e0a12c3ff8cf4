//! The admin surface's verified pieces: bearer sessions with a 24-hour
//! life, constant-time login checks, and the response shapes the admin
//! endpoints answer with.

use vstd::prelude::*;

use crate::outside::uuid_new_simple;
use crate::textutil::ct_eq_str;

verus! {

/// Session life: 24 hours, in milliseconds.
pub const SESSION_TTL_MILLIS: u64 = 86400000;

#[derive(Debug, Clone)]
pub struct AdminSession {
    pub token: String,
    pub username: String,
    pub expires_at: u64,
}

pub struct SessionManager {
    sessions: Vec<AdminSession>,
}

/// The session table holds this exact session value.
pub open spec fn session_listed(ss: Seq<AdminSession>, s: AdminSession) -> bool {
    exists|j: int| 0 <= j < ss.len() && ss[j] == s
}

/// Some live session carries this token.
pub open spec fn has_live_token(ss: Seq<AdminSession>, token: Seq<char>, now: u64) -> bool {
    exists|j: int| 0 <= j < ss.len() && ss[j].token@ == token && ss[j].expires_at > now
}

impl SessionManager {
    pub closed spec fn spec_sessions(self) -> Seq<AdminSession> {
        self.sessions@
    }

    pub fn new() -> (r: Self)
        ensures
            r.spec_sessions().len() == 0,
    {
        SessionManager { sessions: Vec::new() }
    }

    /// Mints a bearer session for the user, valid for 24 hours from `now`.
    pub fn create_session(&mut self, username: &str, now: u64) -> (r: AdminSession)
        ensures
            final(self).spec_sessions() == old(self).spec_sessions().push(r),
            r.username@ == username@,
            r.expires_at == (if now + SESSION_TTL_MILLIS > u64::MAX {
                u64::MAX
            } else {
                (now + SESSION_TTL_MILLIS) as u64
            }),
            r.token@.len() == 36,
            r.token@.subrange(0, 4) == "adm_"@,
    {
        proof {
            reveal_strlit("adm_");
        }
        let mut token = String::from_str("adm_");
        let suffix = uuid_new_simple();
        token.append(suffix.as_str());
        proof {
            assert(token@.subrange(0, 4) =~= "adm_"@);
        }
        let uname = String::from_str(username);
        let exp = now.saturating_add(SESSION_TTL_MILLIS);
        let stored = AdminSession { token: token.clone(), username: uname.clone(), expires_at: exp };
        self.sessions.push(stored);
        AdminSession { token, username: uname, expires_at: exp }
    }

    /// Drops every session whose life has run out at `now`.
    pub fn cleanup_expired(&mut self, now: u64)
        ensures
            forall|i: int|
                0 <= i < final(self).spec_sessions().len() ==> (#[trigger] final(self).spec_sessions()[i]).expires_at
                    > now,
            forall|i: int|
                0 <= i < old(self).spec_sessions().len() && (#[trigger] old(self).spec_sessions()[i]).expires_at
                    > now ==> session_listed(
                    final(self).spec_sessions(),
                    old(self).spec_sessions()[i],
                ),
    {
        let mut kept: Vec<AdminSession> = Vec::new();
        let n = self.sessions.len();
        let mut i: usize = 0;
        while i < n
            invariant
                n == self.sessions@.len(),
                i <= n,
                forall|j: int|
                    0 <= j < kept@.len() ==> (#[trigger] kept@[j]).expires_at > now,
                forall|j: int|
                    0 <= j < i && (#[trigger] self.sessions@[j]).expires_at > now
                        ==> session_listed(kept@, self.sessions@[j]),
            decreases n - i,
        {
            if self.sessions[i].expires_at > now {
                let ghost kpre = kept@;
                let s = &self.sessions[i];
                kept.push(
                    AdminSession {
                        token: s.token.clone(),
                        username: s.username.clone(),
                        expires_at: s.expires_at,
                    },
                );
                proof {
                    assert(kept@.last() == self.sessions@[i as int]);
                    assert forall|j: int|
                        0 <= j < i + 1 && (#[trigger] self.sessions@[j]).expires_at > now
                        implies session_listed(kept@, self.sessions@[j]) by {
                        if j < i as int {
                            let k0 = choose|k0: int|
                                0 <= k0 < kpre.len() && kpre[k0] == self.sessions@[j];
                            assert(kept@[k0] == self.sessions@[j]);
                        } else {
                            assert(kept@[kept@.len() - 1] == self.sessions@[j]);
                        }
                    }
                }
            }
            i = i + 1;
        }
        self.sessions = kept;
    }

    /// Whether this bearer token names a live session at `now`.  Expired
    /// sessions are swept first.
    pub fn validate(&mut self, token: &str, now: u64) -> (r: bool)
        ensures
            r ==> has_live_token(final(self).spec_sessions(), token@, now),
            !r ==> forall|i: int|
                0 <= i < final(self).spec_sessions().len() ==> (#[trigger] final(self).spec_sessions()[i]).token@
                    != token@,
    {
        self.cleanup_expired(now);
        let n = self.sessions.len();
        let mut i: usize = 0;
        while i < n
            invariant
                n == self.sessions@.len(),
                i <= n,
                forall|j: int|
                    0 <= j < self.sessions@.len() ==> (#[trigger] self.sessions@[j]).expires_at
                        > now,
                forall|j: int| 0 <= j < i ==> (#[trigger] self.sessions@[j]).token@ != token@,
            decreases n - i,
        {
            if ct_eq_str(self.sessions[i].token.as_str(), token) {
                proof {
                    assert(self.sessions@[i as int].token@ == token@);
                }
                return true;
            }
            i = i + 1;
        }
        false
    }
}

/// The admin credentials and session table.
pub struct AdminState {
    pub admin_username: String,
    pub admin_password: String,
    pub sessions: SessionManager,
}

impl AdminState {
    pub fn new(admin_username: String, admin_password: String) -> (r: Self)
        ensures
            r.admin_username@ == admin_username@,
            r.admin_password@ == admin_password@,
            r.sessions.spec_sessions().len() == 0,
    {
        AdminState { admin_username, admin_password, sessions: SessionManager::new() }
    }

    /// Compares the offered credentials against the configured ones, in
    /// constant time.
    pub fn verify_login(&self, username: &str, password: &str) -> (r: bool)
        ensures
            r == (username@ == self.admin_username@ && password@ == self.admin_password@),
    {
        let u = ct_eq_str(username, self.admin_username.as_str());
        let p = ct_eq_str(password, self.admin_password.as_str());
        u && p
    }
}

/// A plain success answer.
pub struct SuccessResponse {
    pub success: bool,
    pub message: String,
}

impl SuccessResponse {
    pub fn new(message: String) -> (r: Self)
        ensures
            r.success,
            r.message@ == message@,
    {
        SuccessResponse { success: true, message }
    }
}

pub struct AdminError {
    pub error_type: String,
    pub message: String,
}

pub struct AdminErrorResponse {
    pub error: AdminError,
}

impl AdminErrorResponse {
    pub fn new(error_type: String, message: String) -> (r: Self)
        ensures
            r.error.error_type@ == error_type@,
            r.error.message@ == message@,
    {
        AdminErrorResponse { error: AdminError { error_type, message } }
    }

    pub fn invalid_request(message: String) -> (r: Self)
        ensures
            r.error.error_type@ == "invalid_request"@,
            r.error.message@ == message@,
    {
        AdminErrorResponse::new(String::from_str("invalid_request"), message)
    }

    pub fn authentication_error() -> (r: Self)
        ensures
            r.error.error_type@ == "authentication_error"@,
            r.error.message@ == "Invalid or missing admin session token"@,
    {
        AdminErrorResponse::new(
            String::from_str("authentication_error"),
            String::from_str("Invalid or missing admin session token"),
        )
    }

    pub fn not_found(message: String) -> (r: Self)
        ensures
            r.error.error_type@ == "not_found"@,
            r.error.message@ == message@,
    {
        AdminErrorResponse::new(String::from_str("not_found"), message)
    }

    pub fn api_error(message: String) -> (r: Self)
        ensures
            r.error.error_type@ == "api_error"@,
            r.error.message@ == message@,
    {
        AdminErrorResponse::new(String::from_str("api_error"), message)
    }

    pub fn internal_error(message: String) -> (r: Self)
        ensures
            r.error.error_type@ == "internal_error"@,
            r.error.message@ == message@,
    {
        AdminErrorResponse::new(String::from_str("internal_error"), message)
    }
}

} // verus!
