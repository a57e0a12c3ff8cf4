//! A bounded in-memory log of recent requests: at most 200 entries, the
//! oldest dropped first, readable from a given entry id onward.

use vstd::prelude::*;

verus! {

pub const MAX_LOG_ENTRIES: usize = 200;

pub struct RequestLogEntry {
    pub id: String,
    pub timestamp: String,
    pub model: String,
    pub stream: bool,
    pub message_count: usize,
    pub input_tokens: u64,
    pub output_tokens: u64,
    pub token_source: String,
    pub duration_ms: u64,
    pub status: String,
    pub api_key_id: String,
    pub request_body: String,
    pub response_body: String,
}

pub struct RequestLog {
    entries: Vec<RequestLogEntry>,
    enabled: bool,
}

impl RequestLog {
    pub closed spec fn spec_entries(self) -> Seq<RequestLogEntry> {
        self.entries@
    }

    pub closed spec fn spec_enabled(self) -> bool {
        self.enabled
    }

    pub fn new() -> (r: Self)
        ensures
            r.spec_entries().len() == 0,
            !r.spec_enabled(),
    {
        RequestLog { entries: Vec::new(), enabled: false }
    }

    pub fn is_enabled(&self) -> (r: bool)
        ensures
            r == self.spec_enabled(),
    {
        self.enabled
    }

    pub fn set_enabled(&mut self, enabled: bool)
        ensures
            final(self).spec_enabled() == enabled,
            final(self).spec_entries() == old(self).spec_entries(),
    {
        self.enabled = enabled;
    }

    /// Appends one entry; when the log is full the oldest entry leaves.
    pub fn push(&mut self, entry: RequestLogEntry)
        ensures
            final(self).spec_enabled() == old(self).spec_enabled(),
            old(self).spec_entries().len() < MAX_LOG_ENTRIES ==> final(self).spec_entries() == old(
                self,
            ).spec_entries().push(entry),
            old(self).spec_entries().len() >= MAX_LOG_ENTRIES ==> final(self).spec_entries() == old(
                self,
            ).spec_entries().skip(
                old(self).spec_entries().len() - (MAX_LOG_ENTRIES as int) + 1,
            ).push(entry),
            final(self).spec_entries().len() <= MAX_LOG_ENTRIES,
    {
        let ghost pre = self.entries@;
        proof {
            assert(self.entries@ =~= pre.skip(0));
        }
        while self.entries.len() >= MAX_LOG_ENTRIES
            invariant
                self.entries@.len() <= pre.len(),
                pre.len() < MAX_LOG_ENTRIES ==> self.entries@.len() == pre.len(),
                pre.len() >= MAX_LOG_ENTRIES ==> self.entries@.len() >= MAX_LOG_ENTRIES - 1,
                self.entries@ == pre.skip(pre.len() - self.entries@.len()),
                self.enabled == old(self).spec_enabled(),
            decreases self.entries@.len(),
        {
            let ghost cur = self.entries@;
            let ghost k = pre.len() - cur.len();
            self.entries.remove(0);
            proof {
                assert(self.entries@ =~= cur.skip(1));
                assert(pre.skip(k).skip(1) =~= pre.skip(k + 1));
                assert(self.entries@ =~= pre.skip(pre.len() - self.entries@.len()));
            }
        }
        self.entries.push(entry);
        proof {
            if pre.len() < MAX_LOG_ENTRIES {
                assert(pre.skip(0) =~= pre);
                assert(self.entries@ =~= pre.push(entry));
            }
        }
    }

    /// The entries after the one with id `since_id`; all of them when the
    /// id is absent or not given.
    pub fn entries_count(&self) -> (r: usize)
        ensures
            r == self.spec_entries().len(),
    {
        self.entries.len()
    }

    /// A reference to the entry at `index`.
    pub fn entry_at(&self, index: usize) -> (r: &RequestLogEntry)
        requires
            index < self.spec_entries().len(),
        ensures
            *r == self.spec_entries()[index as int],
    {
        &self.entries[index]
    }

    /// Index of the entry with this id, if present.
    pub fn position_of(&self, id: &str) -> (r: Option<usize>)
        ensures
            match r {
                Some(i) => i < self.spec_entries().len() && self.spec_entries()[i as int].id@
                    == id@,
                None => forall|j: int|
                    0 <= j < self.spec_entries().len() ==> self.spec_entries()[j].id@ != id@,
            },
    {
        let n = self.entries.len();
        let mut i: usize = 0;
        while i < n
            invariant
                n == self.entries@.len(),
                i <= n,
                forall|j: int| 0 <= j < i ==> self.entries@[j].id@ != id@,
            decreases n - i,
        {
            if crate::textutil::ct_eq_str(self.entries[i].id.as_str(), id) {
                return Some(i);
            }
            i = i + 1;
        }
        None
    }
}

} // verus!
