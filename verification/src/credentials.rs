//! The credential registry and the selection policies over it: priority
//! order, round-robin, fixed lookup, failure counting with a disable
//! threshold, and the interlock that unpins API keys when a credential is
//! deleted.

use vstd::prelude::*;

use crate::apikeys::ApiKeyManager;
use crate::apikeys::RoutingMode;
use crate::sticky::AvailableCredential;

verus! {

/// One upstream credential's operational state.  The secret material and
/// the cached access token live outside the library.
pub struct Credential {
    pub id: u64,
    pub auth_method: String,
    pub email: Option<String>,
    pub priority: u32,
    pub disabled: bool,
    pub failure_count: u32,
    pub success_count: u64,
    pub last_used_at: Option<u64>,
}

/// Why a fixed selection failed.
#[derive(Debug, Clone, Copy, PartialEq, Eq, Structural)]
pub enum SelectError {
    CredentialNotFound,
}

pub struct CredentialRegistry {
    creds: Vec<Credential>,
    next_id: u64,
    rr_cursor: usize,
}

impl CredentialRegistry {
    pub closed spec fn creds(self) -> Seq<Credential> {
        self.creds@
    }

    pub closed spec fn spec_next_id(self) -> u64 {
        self.next_id
    }

    pub closed spec fn spec_rr_cursor(self) -> nat {
        self.rr_cursor as nat
    }

    /// Ids are unique and below the allocator.
    pub closed spec fn wf(self) -> bool {
        &&& forall|i: int, j: int|
            0 <= i < j < self.creds@.len() ==> self.creds@[i].id != self.creds@[j].id
        &&& forall|i: int|
            0 <= i < self.creds@.len() ==> #[trigger] self.creds@[i].id < self.next_id
        &&& self.next_id >= 1
    }

    pub fn new() -> (t: Self)
        ensures
            t.wf(),
            t.creds().len() == 0,
            t.spec_next_id() == 1,
    {
        CredentialRegistry { creds: Vec::new(), next_id: 1, rr_cursor: 0 }
    }

    /// Stores a new credential and hands back its stable id.
    pub fn add(&mut self, auth_method: String, email: Option<String>, priority: u32) -> (id: u64)
        requires
            old(self).wf(),
            old(self).spec_next_id() < u64::MAX,
        ensures
            final(self).wf(),
            id == old(self).spec_next_id(),
            final(self).spec_next_id() == id + 1,
            final(self).creds().len() == old(self).creds().len() + 1,
            forall|j: int|
                0 <= j < old(self).creds().len() ==> final(self).creds()[j] == old(
                    self,
                ).creds()[j],
            ({
                let added = final(self).creds().last();
                &&& added.id == id
                &&& added.auth_method@ == auth_method@
                &&& added.email == email
                &&& added.priority == priority
                &&& !added.disabled
                &&& added.failure_count == 0
                &&& added.success_count == 0
                &&& added.last_used_at is None
            }),
    {
        let id = self.next_id;
        self.next_id = id + 1;
        self.creds.push(
            Credential {
                id,
                auth_method,
                email,
                priority,
                disabled: false,
                failure_count: 0,
                success_count: 0,
                last_used_at: None,
            },
        );
        id
    }

    fn find_index(&self, id: u64) -> (r: Option<usize>)
        ensures
            match r {
                Some(i) => i < self.creds@.len() && self.creds@[i as int].id == id,
                None => forall|j: int| 0 <= j < self.creds@.len() ==> self.creds@[j].id != id,
            },
    {
        let n = self.creds.len();
        let mut i: usize = 0;
        while i < n
            invariant
                n == self.creds@.len(),
                i <= n,
                forall|j: int| 0 <= j < i ==> self.creds@[j].id != id,
            decreases n - i,
        {
            if self.creds[i].id == id {
                return Some(i);
            }
            i = i + 1;
        }
        None
    }

    /// Whether a credential with this id exists.
    pub open spec fn spec_has(self, id: u64) -> bool {
        exists|i: int| 0 <= i < self.creds().len() && self.creds()[i].id == id
    }

    /// The credential with this id.
    pub open spec fn spec_get(self, id: u64) -> Credential {
        self.creds()[choose|i: int| 0 <= i < self.creds().len() && self.creds()[i].id == id]
    }

    /// Removes the credential with this id; true when one existed.
    pub fn delete(&mut self, id: u64) -> (r: bool)
        requires
            old(self).wf(),
        ensures
            final(self).wf(),
            final(self).spec_next_id() == old(self).spec_next_id(),
            r == old(self).spec_has(id),
            !final(self).spec_has(id),
            r ==> exists|i: int|
                0 <= i < old(self).creds().len() && old(self).creds()[i].id == id
                    && final(self).creds() == old(self).creds().remove(i),
            !r ==> final(self).creds() == old(self).creds(),
    {
        let ghost pre = self.creds@;
        match self.find_index(id) {
            None => false,
            Some(i) => {
                self.creds.remove(i);
                proof {
                    assert(self.creds@ =~= pre.remove(i as int));
                    assert(pre[i as int].id == id);
                    assert(exists|w: int|
                        0 <= w < old(self).creds().len() && old(self).creds()[w].id == id
                            && self.creds@ == old(self).creds().remove(w)) by {
                        assert((i as int) < old(self).creds().len() && old(self).creds()[i as int].id
                            == id && self.creds@ == old(self).creds().remove(i as int));
                    }
                    assert forall|j: int| 0 <= j < self.creds@.len()
                        implies (#[trigger] self.creds@[j]).id != id by {
                        if j < i as int {
                            assert(self.creds@[j] == pre[j]);
                        } else {
                            assert(self.creds@[j] == pre[j + 1]);
                        }
                    }
                    assert forall|a: int, b: int| 0 <= a < b < self.creds@.len()
                        implies self.creds@[a].id != self.creds@[b].id by {
                        let oa = if a < i as int {
                            a
                        } else {
                            a + 1
                        };
                        let ob = if b < i as int {
                            b
                        } else {
                            b + 1
                        };
                        assert(self.creds@[a] == pre[oa] && self.creds@[b] == pre[ob]);
                    }
                }
                true
            },
        }
    }

    /// Applies `disabled` to the credential with this id.
    pub fn set_disabled(&mut self, id: u64, disabled: bool) -> (r: bool)
        requires
            old(self).wf(),
        ensures
            final(self).wf(),
            final(self).spec_next_id() == old(self).spec_next_id(),
            r == old(self).spec_has(id),
            final(self).creds().len() == old(self).creds().len(),
            forall|j: int|
                0 <= j < old(self).creds().len() && (#[trigger] old(self).creds()[j]).id != id
                    ==> final(self).creds()[j] == old(self).creds()[j],
            forall|j: int|
                0 <= j < old(self).creds().len() && (#[trigger] old(self).creds()[j]).id == id
                    ==> {
                    let o = old(self).creds()[j];
                    let f = final(self).creds()[j];
                    &&& f.id == o.id
                    &&& f.auth_method == o.auth_method
                    &&& f.email == o.email
                    &&& f.priority == o.priority
                    &&& f.disabled == disabled
                    &&& f.failure_count == o.failure_count
                    &&& f.success_count == o.success_count
                    &&& f.last_used_at == o.last_used_at
                },
    {
        let ghost pre = self.creds@;
        match self.find_index(id) {
            None => false,
            Some(i) => {
                let mut c = self.creds.remove(i);
                c.disabled = disabled;
                self.creds.insert(i, c);
                proof {
                    assert(self.creds@ =~= pre.update(i as int, self.creds@[i as int]));
                }
                true
            },
        }
    }

    /// Applies a new priority to the credential with this id.
    pub fn set_priority(&mut self, id: u64, priority: u32) -> (r: bool)
        requires
            old(self).wf(),
        ensures
            final(self).wf(),
            final(self).spec_next_id() == old(self).spec_next_id(),
            r == old(self).spec_has(id),
            final(self).creds().len() == old(self).creds().len(),
            forall|j: int|
                0 <= j < old(self).creds().len() && (#[trigger] old(self).creds()[j]).id != id
                    ==> final(self).creds()[j] == old(self).creds()[j],
            forall|j: int|
                0 <= j < old(self).creds().len() && (#[trigger] old(self).creds()[j]).id == id
                    ==> {
                    let o = old(self).creds()[j];
                    let f = final(self).creds()[j];
                    &&& f.id == o.id
                    &&& f.auth_method == o.auth_method
                    &&& f.email == o.email
                    &&& f.priority == priority
                    &&& f.disabled == o.disabled
                    &&& f.failure_count == o.failure_count
                    &&& f.success_count == o.success_count
                    &&& f.last_used_at == o.last_used_at
                },
    {
        let ghost pre = self.creds@;
        match self.find_index(id) {
            None => false,
            Some(i) => {
                let mut c = self.creds.remove(i);
                c.priority = priority;
                self.creds.insert(i, c);
                proof {
                    assert(self.creds@ =~= pre.update(i as int, self.creds@[i as int]));
                }
                true
            },
        }
    }

    /// Clears the failure counter and re-enables the credential.
    pub fn reset_and_enable(&mut self, id: u64) -> (r: bool)
        requires
            old(self).wf(),
        ensures
            final(self).wf(),
            final(self).spec_next_id() == old(self).spec_next_id(),
            r == old(self).spec_has(id),
            final(self).creds().len() == old(self).creds().len(),
            forall|j: int|
                0 <= j < old(self).creds().len() && (#[trigger] old(self).creds()[j]).id != id
                    ==> final(self).creds()[j] == old(self).creds()[j],
            forall|j: int|
                0 <= j < old(self).creds().len() && (#[trigger] old(self).creds()[j]).id == id
                    ==> {
                    let o = old(self).creds()[j];
                    let f = final(self).creds()[j];
                    &&& f.id == o.id
                    &&& f.auth_method == o.auth_method
                    &&& f.email == o.email
                    &&& f.priority == o.priority
                    &&& !f.disabled
                    &&& f.failure_count == 0
                    &&& f.success_count == o.success_count
                    &&& f.last_used_at == o.last_used_at
                },
    {
        let ghost pre = self.creds@;
        match self.find_index(id) {
            None => false,
            Some(i) => {
                let mut c = self.creds.remove(i);
                c.disabled = false;
                c.failure_count = 0;
                self.creds.insert(i, c);
                proof {
                    assert(self.creds@ =~= pre.update(i as int, self.creds@[i as int]));
                }
                true
            },
        }
    }

    /// Counts one failure; at or above `disable_threshold` failures the
    /// credential is disabled.  The counter only ever grows until an
    /// explicit reset.
    pub fn record_failure(&mut self, id: u64, disable_threshold: u32) -> (r: bool)
        requires
            old(self).wf(),
        ensures
            final(self).wf(),
            final(self).spec_next_id() == old(self).spec_next_id(),
            r == old(self).spec_has(id),
            final(self).creds().len() == old(self).creds().len(),
            forall|j: int|
                0 <= j < old(self).creds().len() && (#[trigger] old(self).creds()[j]).id != id
                    ==> final(self).creds()[j] == old(self).creds()[j],
            forall|j: int|
                0 <= j < old(self).creds().len() && (#[trigger] old(self).creds()[j]).id == id
                    ==> {
                    let o = old(self).creds()[j];
                    let f = final(self).creds()[j];
                    let bumped = if o.failure_count == u32::MAX {
                        o.failure_count
                    } else {
                        (o.failure_count + 1) as u32
                    };
                    &&& f.id == o.id
                    &&& f.auth_method == o.auth_method
                    &&& f.email == o.email
                    &&& f.priority == o.priority
                    &&& f.failure_count == bumped
                    &&& f.disabled == (o.disabled || bumped >= disable_threshold)
                    &&& f.success_count == o.success_count
                    &&& f.last_used_at == o.last_used_at
                },
    {
        let ghost pre = self.creds@;
        match self.find_index(id) {
            None => false,
            Some(i) => {
                let mut c = self.creds.remove(i);
                c.failure_count = c.failure_count.saturating_add(1);
                if c.failure_count >= disable_threshold {
                    c.disabled = true;
                }
                self.creds.insert(i, c);
                proof {
                    assert(self.creds@ =~= pre.update(i as int, self.creds@[i as int]));
                }
                true
            },
        }
    }

    /// Counts one success and stamps the last use.
    pub fn record_success(&mut self, id: u64, now: u64) -> (r: bool)
        requires
            old(self).wf(),
        ensures
            final(self).wf(),
            final(self).spec_next_id() == old(self).spec_next_id(),
            r == old(self).spec_has(id),
            final(self).creds().len() == old(self).creds().len(),
            forall|j: int|
                0 <= j < old(self).creds().len() && (#[trigger] old(self).creds()[j]).id != id
                    ==> final(self).creds()[j] == old(self).creds()[j],
            forall|j: int|
                0 <= j < old(self).creds().len() && (#[trigger] old(self).creds()[j]).id == id
                    ==> {
                    let o = old(self).creds()[j];
                    let f = final(self).creds()[j];
                    &&& f.id == o.id
                    &&& f.auth_method == o.auth_method
                    &&& f.email == o.email
                    &&& f.priority == o.priority
                    &&& f.disabled == o.disabled
                    &&& f.failure_count == o.failure_count
                    &&& f.success_count == (if o.success_count == u64::MAX {
                        o.success_count
                    } else {
                        (o.success_count + 1) as u64
                    })
                    &&& f.last_used_at == Some(now)
                },
    {
        let ghost pre = self.creds@;
        match self.find_index(id) {
            None => false,
            Some(i) => {
                let mut c = self.creds.remove(i);
                c.success_count = c.success_count.saturating_add(1);
                c.last_used_at = Some(now);
                self.creds.insert(i, c);
                proof {
                    assert(self.creds@ =~= pre.update(i as int, self.creds@[i as int]));
                }
                true
            },
        }
    }

    /// The priority policy: the enabled credential with the lowest
    /// priority value, ties broken by the lower id.
    pub fn select_priority(&self) -> (r: Option<u64>)
        requires
            self.wf(),
        ensures
            match r {
                Some(c) => exists|i: int|
                    #![trigger self.creds()[i]]
                    0 <= i < self.creds().len() && self.creds()[i].id == c
                        && !self.creds()[i].disabled && (forall|j: int|
                        0 <= j < self.creds().len() && !(#[trigger] self.creds()[j]).disabled ==> (
                        self.creds()[i].priority < self.creds()[j].priority || (
                        self.creds()[i].priority == self.creds()[j].priority && self.creds()[i].id
                            <= self.creds()[j].id))),
                None => forall|j: int|
                    0 <= j < self.creds().len() ==> (#[trigger] self.creds()[j]).disabled,
            },
    {
        let n = self.creds.len();
        let mut best: Option<usize> = None;
        let mut i: usize = 0;
        while i < n
            invariant
                n == self.creds@.len(),
                i <= n,
                match best {
                    Some(b) => b < i && !self.creds@[b as int].disabled && (forall|j: int|
                        0 <= j < i && !(#[trigger] self.creds@[j]).disabled ==> (
                        self.creds@[b as int].priority < self.creds@[j].priority || (
                        self.creds@[b as int].priority == self.creds@[j].priority
                            && self.creds@[b as int].id <= self.creds@[j].id))),
                    None => forall|j: int|
                        0 <= j < i ==> (#[trigger] self.creds@[j]).disabled,
                },
            decreases n - i,
        {
            if !self.creds[i].disabled {
                let take = match best {
                    Some(b) => {
                        let bp = self.creds[b].priority;
                        let cp = self.creds[i].priority;
                        cp < bp || (cp == bp && self.creds[i].id < self.creds[b].id)
                    },
                    None => true,
                };
                if take {
                    best = Some(i);
                }
            }
            i = i + 1;
        }
        match best {
            Some(b) => Some(self.creds[b].id),
            None => None,
        }
    }

    /// The balanced policy: a round robin over the enabled credentials in
    /// stable order, starting where the last pick left off.
    pub fn select_balanced(&mut self) -> (r: Option<u64>)
        requires
            old(self).wf(),
        ensures
            final(self).wf(),
            final(self).creds() == old(self).creds(),
            final(self).spec_next_id() == old(self).spec_next_id(),
            match r {
                Some(c) => exists|i: int|
                    #![trigger old(self).creds()[i]]
                    0 <= i < old(self).creds().len() && old(self).creds()[i].id == c && !old(
                        self,
                    ).creds()[i].disabled,
                None => forall|j: int|
                    0 <= j < old(self).creds().len() ==> (#[trigger] old(self).creds()[j]).disabled,
            },
    {
        let n = self.creds.len();
        if n == 0 {
            return None;
        }
        let start = self.rr_cursor % n;
        let mut k: usize = 0;
        while k < n
            invariant
                old(self).wf(),
                n == self.creds@.len(),
                n >= 1,
                start < n,
                k <= n,
                forall|q: int|
                    0 <= q < k ==> (#[trigger] self.creds@[cyclic_index(start as int, q, n as int)]).disabled,
                self.creds@ == old(self).creds(),
                self.rr_cursor == old(self).spec_rr_cursor(),
                self.next_id == old(self).spec_next_id(),
            decreases n - k,
        {
            let idx = if k < n - start {
                start + k
            } else {
                k - (n - start)
            };
            proof {
                assert(idx as int == cyclic_index(start as int, k as int, n as int));
            }
            if !self.creds[idx].disabled {
                let picked = self.creds[idx].id;
                self.rr_cursor = idx + 1;
                return Some(picked);
            }
            k = k + 1;
        }
        proof {
            assert forall|j: int| 0 <= j < n implies (#[trigger] self.creds@[j]).disabled by {
                let q = if j >= start as int {
                    j - start
                } else {
                    j + n - start
                };
                assert(cyclic_index(start as int, q, n as int) == j);
                assert(self.creds@[cyclic_index(start as int, q, n as int)].disabled);
            }
        }
        None
    }

    /// Fixed routing: the pinned credential must exist and be enabled.
    pub fn select_fixed(&self, id: u64) -> (r: Result<u64, SelectError>)
        requires
            self.wf(),
        ensures
            r matches Ok(c) ==> c == id && self.spec_has(id) && !self.spec_get(id).disabled,
            r is Err <==> !self.spec_has(id) || self.spec_get(id).disabled,
    {
        match self.find_index(id) {
            None => Err(SelectError::CredentialNotFound),
            Some(i) => {
                if self.creds[i].disabled {
                    proof {
                        lemma_get_at(self.creds@, i as int, id);
                    }
                    Err(SelectError::CredentialNotFound)
                } else {
                    proof {
                        lemma_get_at(self.creds@, i as int, id);
                    }
                    Ok(id)
                }
            },
        }
    }

    /// The enabled credentials as the offer list for sticky acquisition,
    /// ordered by priority, ties broken by id.
    #[verifier::rlimit(100)]
    pub fn available_in_priority_order(&self) -> (r: Vec<AvailableCredential>)
        requires
            self.wf(),
        ensures
            forall|a: int, b: int|
                0 <= a < b < r@.len() ==> prio_within(*self, r@[a].id, r@[b].id),
            forall|a: int|
                0 <= a < r@.len() ==> self.spec_has((#[trigger] r@[a]).id) && !self.spec_get(
                    r@[a].id,
                ).disabled,
            forall|i: int|
                0 <= i < self.creds().len() && !(#[trigger] self.creds()[i]).disabled ==> offered(
                    r@,
                    self.creds()[i].id,
                ),
    {
        let n = self.creds.len();
        let mut out: Vec<AvailableCredential> = Vec::new();
        let mut i: usize = 0;
        while i < n
            invariant
                self.wf(),
                n == self.creds@.len(),
                i <= n,
                forall|a: int|
                    0 <= a < out@.len() ==> among_first(*self, i as int, (#[trigger] out@[a]).id),
                forall|a: int|
                    0 <= a < out@.len() ==> self.spec_has((#[trigger] out@[a]).id)
                        && !self.spec_get(out@[a].id).disabled,
                forall|a: int, b: int|
                    0 <= a < b < out@.len() ==> prio_within(*self, out@[a].id, out@[b].id),
                forall|j: int|
                    0 <= j < i && !(#[trigger] self.creds@[j]).disabled ==> offered(
                        out@,
                        self.creds@[j].id,
                    ),
            decreases n - i,
        {
            if !self.creds[i].disabled {
                let cid = self.creds[i].id;
                let cp = self.creds[i].priority;
                proof {
                    lemma_get_at(self.creds@, i as int, cid);
                }
                let m = out.len();
                let mut pos: usize = 0;
                let mut stop = false;
                while pos < m && !stop
                    invariant
                        self.wf(),
                        i < self.creds@.len(),
                        self.creds@[i as int].id == cid,
                        self.creds@[i as int].priority == cp,
                        self.spec_get(cid) == self.creds@[i as int],
                        m == out@.len(),
                        pos <= m,
                        forall|a: int|
                            0 <= a < out@.len() ==> among_first(
                                *self,
                                i as int,
                                (#[trigger] out@[a]).id,
                            ),
                        forall|a: int|
                            0 <= a < out@.len() ==> self.spec_has((#[trigger] out@[a]).id)
                                && !self.spec_get(out@[a].id).disabled,
                        forall|a: int| 0 <= a < pos ==> prio_within(*self, (#[trigger] out@[a]).id, cid),
                        stop ==> pos < m && prio_within(*self, cid, out@[pos as int].id),
                    decreases m - pos + (if stop { 0int } else { 1int }),
                {
                    let oid = out[pos].id;
                    let op = self.lookup_priority(oid);
                    if cp < op || (cp == op && cid < oid) {
                        stop = true;
                    } else {
                        proof {
                            assert(among_first(*self, i as int, oid));
                            let j = choose|j: int| 0 <= j < i && self.creds@[j].id == oid;
                            assert(self.creds@[j].id != self.creds@[i as int].id);
                            assert(oid != cid);
                            assert(self.spec_get(oid).priority == op);
                            assert(prio_within(*self, oid, cid));
                        }
                        pos = pos + 1;
                    }
                }
                let ghost pre_out = out@;
                out.insert(pos, AvailableCredential { id: cid, supports_opus: true });
                proof {
                    assert forall|a: int| 0 <= a < out@.len() implies (#[trigger] out@[a]) == (
                    if a < pos as int {
                        pre_out[a]
                    } else if a == pos as int {
                        out@[pos as int]
                    } else {
                        pre_out[a - 1]
                    }) by {}
                    assert(out@[pos as int].id == cid);
                    assert forall|a: int, b: int| 0 <= a < b < out@.len() implies prio_within(
                        *self,
                        out@[a].id,
                        out@[b].id,
                    ) by {
                        if a == pos as int {
                            assert(out@[b] == pre_out[b - 1]);
                            assert(stop && pos as int <= b - 1);
                            assert(prio_within(*self, cid, pre_out[pos as int].id));
                            if b - 1 > pos as int {
                                assert(prio_within(
                                    *self,
                                    pre_out[pos as int].id,
                                    pre_out[b - 1].id,
                                ));
                            }
                        } else if b == pos as int {
                            assert(out@[a] == pre_out[a]);
                        } else {
                            let oa = if a < pos as int {
                                a
                            } else {
                                a - 1
                            };
                            let ob = if b < pos as int {
                                b
                            } else {
                                b - 1
                            };
                            assert(out@[a] == pre_out[oa] && out@[b] == pre_out[ob]);
                        }
                    }
                    assert forall|a: int| 0 <= a < out@.len() implies among_first(
                        *self,
                        i + 1,
                        (#[trigger] out@[a]).id,
                    ) by {
                        if a == pos as int {
                            assert(self.creds@[i as int].id == cid);
                        } else {
                            let oa = if a < pos as int {
                                a
                            } else {
                                a - 1
                            };
                            assert(out@[a] == pre_out[oa]);
                            assert(among_first(*self, i as int, pre_out[oa].id));
                        }
                    }
                    assert forall|j: int|
                        0 <= j < i + 1 && !(#[trigger] self.creds@[j]).disabled implies offered(
                        out@,
                        self.creds@[j].id,
                    ) by {
                        if j == i as int {
                            assert(out@[pos as int].id == self.creds@[j].id);
                        } else {
                            assert(offered(pre_out, self.creds@[j].id));
                            let a0 = choose|a0: int|
                                0 <= a0 < pre_out.len() && pre_out[a0].id == self.creds@[j].id;
                            if a0 < pos as int {
                                assert(out@[a0].id == self.creds@[j].id);
                            } else {
                                assert(out@[a0 + 1].id == self.creds@[j].id);
                            }
                        }
                    }
                }
            }
            i = i + 1;
        }
        out
    }

    /// The stored priority of an existing credential.
    fn lookup_priority(&self, id: u64) -> (r: u32)
        requires
            self.wf(),
            self.spec_has(id),
        ensures
            r == self.spec_get(id).priority,
    {
        match self.find_index(id) {
            Some(i) => {
                proof {
                    lemma_get_at(self.creds@, i as int, id);
                }
                self.creds[i].priority
            },
            None => {
                proof {
                    assert(false);
                }
                0
            },
        }
    }

    /// How many credentials are stored.
    pub fn len(&self) -> (r: usize)
        ensures
            r == self.creds().len(),
    {
        self.creds.len()
    }
}

/// Credential `id` occurs among the first `upto` registry rows.
pub open spec fn among_first(t: CredentialRegistry, upto: int, id: u64) -> bool {
    exists|j: int| 0 <= j < upto && t.creds()[j].id == id
}

/// Credential `id` occurs in the offer list.
pub open spec fn offered(ov: Seq<AvailableCredential>, id: u64) -> bool {
    exists|a: int| 0 <= a < ov.len() && ov[a].id == id
}

/// Index `start + q` wrapped around a table of length `n`.
pub open spec fn cyclic_index(start: int, q: int, n: int) -> int {
    if start + q < n {
        start + q
    } else {
        start + q - n
    }
}

/// `a` comes strictly before `b` in priority order (priority ascending,
/// id ascending), for two ids present in the registry.
pub open spec fn prio_within(t: CredentialRegistry, a: u64, b: u64) -> bool {
    let ca = t.spec_get(a);
    let cb = t.spec_get(b);
    ca.priority < cb.priority || (ca.priority == cb.priority && ca.id < cb.id)
}

proof fn lemma_get_at(cs: Seq<Credential>, i: int, id: u64)
    requires
        0 <= i < cs.len(),
        cs[i].id == id,
        forall|a: int, b: int| 0 <= a < b < cs.len() ==> cs[a].id != cs[b].id,
    ensures
        exists|j: int| 0 <= j < cs.len() && cs[j].id == id,
        cs[choose|j: int| 0 <= j < cs.len() && cs[j].id == id] == cs[i],
{
    assert(cs[i].id == id);
    let j = choose|j: int| 0 <= j < cs.len() && cs[j].id == id;
    if j != i {
        if j < i {
            assert(cs[j].id != cs[i].id);
        } else {
            assert(cs[i].id != cs[j].id);
        }
    }
}

/// Deleting a credential breaks the fixed-routing pin of every API key
/// that pointed at it: those keys return to automatic routing with no
/// credential id, and every other key is untouched.
pub fn delete_credential_and_unpin(
    registry: &mut CredentialRegistry,
    keys: &mut ApiKeyManager,
    id: u64,
) -> (r: bool)
    requires
        old(registry).wf(),
    ensures
        final(registry).wf(),
        r == old(registry).spec_has(id),
        !final(registry).spec_has(id),
        final(keys).records().len() == old(keys).records().len(),
        forall|j: int|
            0 <= j < old(keys).records().len() && (#[trigger] old(keys).records()[j]).credential_id
                != Some(id) ==> final(keys).records()[j] == old(keys).records()[j],
        forall|j: int|
            0 <= j < old(keys).records().len() && (#[trigger] old(keys).records()[j]).credential_id
                == Some(id) ==> final(keys).records()[j].routing_mode == RoutingMode::Auto
                && final(keys).records()[j].credential_id is None && final(keys).records()[j].id
                == old(keys).records()[j].id && final(keys).records()[j].key
                == old(keys).records()[j].key && final(keys).records()[j].enabled
                == old(keys).records()[j].enabled,
{
    let existed = registry.delete(id);
    keys.reset_routing_for_credential(id);
    existed
}

} // verus!
