//! Typed upstream events, decoded from a frame's headers and JSON payload.
//!
//! The event kind is carried in the `:event-type` header (or, for errors,
//! `:exception-type`); the payload is a compact, flat JSON object whose
//! grammar per event kind is fixed here.  Anything else decodes to
//! `Unknown` and is ignored downstream.

use vstd::prelude::*;

use crate::frames::RawFrame;
use crate::jsontext::spec_escape;
use crate::jsontext::spec_take_number;
use crate::jsontext::spec_take_str_body;
use crate::jsontext::take_json_string;
use crate::jsontext::digits_prefix_len;
use crate::jsontext::digits_value;
use crate::jsontext::lemma_escape_round_trip;
use crate::jsontext::json_escape;
use crate::textutil::bytes_eq;

verus! {

/// The ghost image of one decoded event.
pub enum EventModel {
    Assistant { content: Seq<u8> },
    ToolUse { tool_use_id: Seq<u8>, name: Seq<u8>, input: Seq<u8>, stop: bool },
    ContextUsage { percent_hundredths: u64 },
    Exception { exception_type: Seq<u8> },
    Unknown,
}

/// One decoded upstream event.
pub enum KiroEvent {
    AssistantResponse { content: Vec<u8> },
    ToolUse { tool_use_id: Vec<u8>, name: Vec<u8>, input: Vec<u8>, stop: bool },
    ContextUsage { percent_hundredths: u64 },
    Exception { exception_type: Vec<u8> },
    Unknown,
}

impl KiroEvent {
    pub open spec fn model(self) -> EventModel {
        match self {
            KiroEvent::AssistantResponse { content } => EventModel::Assistant {
                content: content@,
            },
            KiroEvent::ToolUse { tool_use_id, name, input, stop } => EventModel::ToolUse {
                tool_use_id: tool_use_id@,
                name: name@,
                input: input@,
                stop,
            },
            KiroEvent::ContextUsage { percent_hundredths } => EventModel::ContextUsage {
                percent_hundredths,
            },
            KiroEvent::Exception { exception_type } => EventModel::Exception {
                exception_type: exception_type@,
            },
            KiroEvent::Unknown => EventModel::Unknown,
        }
    }
}

// ---------------------------------------------------------------------------
// Header block
// ---------------------------------------------------------------------------

pub open spec fn event_type_key() -> Seq<u8> {
    seq![58u8, 101, 118, 101, 110, 116, 45, 116, 121, 112, 101]
}

pub open spec fn exception_type_key() -> Seq<u8> {
    seq![58u8, 101, 120, 99, 101, 112, 116, 105, 111, 110, 45, 116, 121, 112, 101]
}

/// Scans the header block for a string-typed header named `key`.  Each
/// entry is a one-byte name length, the name, a one-byte value type (7 for
/// strings), a two-byte big-endian value length, and the value.
pub open spec fn spec_find_header(headers: Seq<u8>, key: Seq<u8>) -> Option<Seq<u8>>
    decreases headers.len(),
{
    if headers.len() == 0 {
        None
    } else {
        let nl = headers[0] as int;
        if 1 + nl + 3 > headers.len() {
            None
        } else {
            let name = headers.subrange(1, 1 + nl);
            let vt = headers[1 + nl];
            if vt != 7 {
                None
            } else {
                let vl = (headers[2 + nl] as int) * 256 + (headers[3 + nl] as int);
                if 4 + nl + vl > headers.len() {
                    None
                } else if name == key {
                    Some(headers.subrange(4 + nl, 4 + nl + vl))
                } else {
                    spec_find_header(headers.skip(4 + nl + vl), key)
                }
            }
        }
    }
}

/// Finds a string header by name, mirroring `spec_find_header`.
fn find_header(headers: &[u8], key: &[u8]) -> (r: Option<Vec<u8>>)
    ensures
        match r {
            Some(v) => spec_find_header(headers@, key@) == Some(v@),
            None => spec_find_header(headers@, key@) is None,
        },
{
    let n = headers.len();
    let mut at: usize = 0;
    proof {
        assert(headers@.skip(0) =~= headers@);
    }
    loop
        invariant
            at <= n,
            n == headers@.len(),
            spec_find_header(headers@, key@) == spec_find_header(headers@.skip(at as int), key@),
        decreases n - at,
    {
        if at >= n {
            return None;
        }
        let ghost cur = headers@.skip(at as int);
        proof {
            assert(cur[0] == headers@[at as int]);
        }
        let nl = headers[at] as usize;
        if n - at < nl + 4 {
            return None;
        }
        proof {
            assert forall|k: int| 0 <= k < cur.len() implies cur[k] == headers@[at + k] by {}
        }
        let vt = headers[at + 1 + nl];
        if vt != 7 {
            return None;
        }
        let vl = (headers[at + 2 + nl] as usize) * 256 + (headers[at + 3 + nl] as usize);
        if n - at < nl + 4 + vl {
            return None;
        }
        let mut name_matches = true;
        if nl != key.len() {
            name_matches = false;
        } else {
            let mut q: usize = 0;
            proof {
                assert(headers@.subrange(at + 1, at + 1) =~= key@.subrange(0, 0));
            }
            while q < nl
                invariant
                    q <= nl,
                    nl == key@.len(),
                    at + 1 + nl <= n,
                    n == headers@.len(),
                    name_matches <==> headers@.subrange(at + 1, at + 1 + q) == key@.subrange(
                        0,
                        q as int,
                    ),
                decreases nl - q,
            {
                proof {
                    assert(headers@.subrange(at + 1, at + 1 + q + 1).drop_last() =~= headers@.subrange(
                        at + 1,
                        at + 1 + q,
                    ));
                    assert(key@.subrange(0, q + 1).drop_last() =~= key@.subrange(0, q as int));
                }
                if headers[at + 1 + q] != key[q] {
                    proof {
                        if headers@.subrange(at + 1, at + 1 + q + 1) == key@.subrange(0, q + 1) {
                            assert(headers@.subrange(at + 1, at + 1 + q + 1)[q as int]
                                == key@.subrange(0, q + 1)[q as int]);
                        }
                    }
                    name_matches = false;
                } else {
                    proof {
                        if name_matches {
                            assert(headers@.subrange(at + 1, at + 1 + q + 1) =~= key@.subrange(
                                0,
                                q + 1,
                            ));
                        }
                        if headers@.subrange(at + 1, at + 1 + q + 1) == key@.subrange(0, q + 1) {
                            assert(headers@.subrange(at + 1, at + 1 + q + 1).drop_last()
                                == key@.subrange(0, q + 1).drop_last());
                        }
                    }
                }
                q = q + 1;
            }
            proof {
                assert(key@.subrange(0, key@.len() as int) =~= key@);
            }
        }
        proof {
            assert(cur.subrange(1, 1 + nl) =~= headers@.subrange(at + 1, at + 1 + nl));
            assert(cur[1 + nl] == headers@[at + 1 + nl]);
            assert(cur[2 + nl] == headers@[at + 2 + nl]);
            assert(cur[3 + nl] == headers@[at + 3 + nl]);
        }
        if name_matches {
            let v = copy_slice_range(headers, at + 4 + nl, at + 4 + nl + vl);
            proof {
                assert(cur.subrange(4 + nl, 4 + nl + vl) =~= headers@.subrange(
                    at + 4 + nl,
                    at + 4 + nl + vl,
                ));
            }
            return Some(v);
        }
        proof {
            assert(cur.skip(4 + nl + vl) =~= headers@.skip(at + 4 + nl + vl));
        }
        at = at + 4 + nl + vl;
    }
}

/// A header block carrying a single string header.
pub open spec fn spec_single_header(key: Seq<u8>, value: Seq<u8>) -> Seq<u8> {
    seq![key.len() as u8] + key + seq![7u8, ((value.len() / 256) % 256) as u8, (value.len() % 256) as u8]
        + value
}

/// Looking the key up in its own single-header block returns the value.
pub proof fn lemma_single_header_found(key: Seq<u8>, value: Seq<u8>)
    requires
        0 < key.len() < 256,
        value.len() < 65536,
    ensures
        spec_find_header(spec_single_header(key, value), key) == Some(value),
{
    let h = spec_single_header(key, value);
    let nl = key.len() as int;
    assert(h[0] == key.len() as u8);
    assert(h.subrange(1, 1 + nl) =~= key);
    assert(h[1 + nl] == 7);
    assert(h[2 + nl] == ((value.len() / 256) % 256) as u8);
    assert(h[3 + nl] == (value.len() % 256) as u8);
    assert((h[2 + nl] as int) * 256 + (h[3 + nl] as int) == value.len());
    assert(h.subrange(4 + nl, 4 + nl + value.len() as int) =~= value);
}

/// A different key misses a single-header block whose name differs.
pub proof fn lemma_single_header_other(key: Seq<u8>, value: Seq<u8>, other: Seq<u8>)
    requires
        0 < key.len() < 256,
        value.len() < 65536,
        other != key,
    ensures
        spec_find_header(spec_single_header(key, value), other) is None,
{
    let h = spec_single_header(key, value);
    let nl = key.len() as int;
    assert(h[0] == key.len() as u8);
    assert(h.subrange(1, 1 + nl) =~= key);
    assert(h[1 + nl] == 7);
    assert((h[2 + nl] as int) * 256 + (h[3 + nl] as int) == value.len());
    assert(h.skip(4 + nl + value.len() as int) =~= Seq::<u8>::empty());
    assert(spec_find_header(Seq::<u8>::empty(), other) is None);
}

/// Builds a header block holding one string header.
pub fn encode_single_header(key: &[u8], value: &[u8]) -> (r: Vec<u8>)
    requires
        0 < key@.len() < 256,
        value@.len() < 65536,
    ensures
        r@ == spec_single_header(key@, value@),
{
    let mut out: Vec<u8> = Vec::new();
    out.push(key.len() as u8);
    let mut i: usize = 0;
    while i < key.len()
        invariant
            i <= key@.len(),
            key@.len() < 256,
            out@ =~= seq![key@.len() as u8] + key@.subrange(0, i as int),
        decreases key@.len() - i,
    {
        out.push(key[i]);
        proof {
            assert(seq![key@.len() as u8] + key@.subrange(0, i + 1) =~= (seq![key@.len() as u8]
                + key@.subrange(0, i as int)).push(key@[i as int]));
        }
        i = i + 1;
    }
    proof {
        assert(key@.subrange(0, key@.len() as int) =~= key@);
    }
    out.push(7);
    out.push(((value.len() / 256) % 256) as u8);
    out.push((value.len() % 256) as u8);
    let ghost mid = out@;
    let mut j: usize = 0;
    while j < value.len()
        invariant
            j <= value@.len(),
            out@ =~= mid + value@.subrange(0, j as int),
        decreases value@.len() - j,
    {
        out.push(value[j]);
        proof {
            assert(mid + value@.subrange(0, j + 1) =~= (mid + value@.subrange(0, j as int)).push(
                value@[j as int],
            ));
        }
        j = j + 1;
    }
    proof {
        assert(value@.subrange(0, value@.len() as int) =~= value@);
        assert(out@ =~= spec_single_header(key@, value@));
    }
    out
}

// ---------------------------------------------------------------------------
// Payload grammars
// ---------------------------------------------------------------------------

pub open spec fn assistant_event_type() -> Seq<u8> {
    // assistantResponseEvent
    seq![97u8, 115, 115, 105, 115, 116, 97, 110, 116, 82, 101, 115, 112, 111, 110, 115, 101, 69, 118, 101, 110, 116]
}

pub open spec fn tool_use_event_type() -> Seq<u8> {
    // toolUseEvent
    seq![116u8, 111, 111, 108, 85, 115, 101, 69, 118, 101, 110, 116]
}

pub open spec fn context_usage_event_type() -> Seq<u8> {
    // contextUsageEvent
    seq![99u8, 111, 110, 116, 101, 120, 116, 85, 115, 97, 103, 101, 69, 118, 101, 110, 116]
}

pub open spec fn assistant_prefix() -> Seq<u8> {
    // {"content":"
    seq![123u8, 34, 99, 111, 110, 116, 101, 110, 116, 34, 58, 34]
}

pub open spec fn tool_use_prefix() -> Seq<u8> {
    // {"toolUseId":"
    seq![123u8, 34, 116, 111, 111, 108, 85, 115, 101, 73, 100, 34, 58, 34]
}

pub open spec fn name_sep() -> Seq<u8> {
    // ,"name":"
    seq![44u8, 34, 110, 97, 109, 101, 34, 58, 34]
}

pub open spec fn input_sep() -> Seq<u8> {
    // ,"input":"
    seq![44u8, 34, 105, 110, 112, 117, 116, 34, 58, 34]
}

pub open spec fn stop_sep() -> Seq<u8> {
    // ,"stop":
    seq![44u8, 34, 115, 116, 111, 112, 34, 58]
}

pub open spec fn context_usage_prefix() -> Seq<u8> {
    // {"contextUsagePercentage":
    seq![123u8, 34, 99, 111, 110, 116, 101, 120, 116, 85, 115, 97, 103, 101, 80, 101, 114, 99, 101, 110, 116, 97, 103, 101, 34, 58]
}

pub open spec fn lit_true_close() -> Seq<u8> {
    // true}
    seq![116u8, 114, 117, 101, 125]
}

pub open spec fn lit_false_close() -> Seq<u8> {
    // false}
    seq![102u8, 97, 108, 115, 101, 125]
}

/// The assistant payload: `{"content":"…"}` with the content unescaped.
pub open spec fn spec_parse_assistant(p: Seq<u8>) -> EventModel {
    let pre = assistant_prefix();
    if p.len() >= pre.len() && p.subrange(0, pre.len() as int) == pre {
        match spec_take_str_body(p.skip(pre.len() as int)) {
            Some((c, rest)) => if rest == seq![125u8] {
                EventModel::Assistant { content: c }
            } else {
                EventModel::Unknown
            },
            None => EventModel::Unknown,
        }
    } else {
        EventModel::Unknown
    }
}

/// The tool-use payload:
/// `{"toolUseId":"…","name":"…","input":"…","stop":…}`.
pub open spec fn spec_parse_tool_use(p: Seq<u8>) -> EventModel {
    let pre = tool_use_prefix();
    if p.len() >= pre.len() && p.subrange(0, pre.len() as int) == pre {
        match spec_take_str_body(p.skip(pre.len() as int)) {
            Some((tid, r1)) => if r1.len() >= name_sep().len() && r1.subrange(
                0,
                name_sep().len() as int,
            ) == name_sep() {
                match spec_take_str_body(r1.skip(name_sep().len() as int)) {
                    Some((nm, r2)) => if r2.len() >= input_sep().len() && r2.subrange(
                        0,
                        input_sep().len() as int,
                    ) == input_sep() {
                        match spec_take_str_body(r2.skip(input_sep().len() as int)) {
                            Some((inp, r3)) => if r3.len() >= stop_sep().len() && r3.subrange(
                                0,
                                stop_sep().len() as int,
                            ) == stop_sep() {
                                let r4 = r3.skip(stop_sep().len() as int);
                                if r4 == lit_true_close() {
                                    EventModel::ToolUse {
                                        tool_use_id: tid,
                                        name: nm,
                                        input: inp,
                                        stop: true,
                                    }
                                } else if r4 == lit_false_close() {
                                    EventModel::ToolUse {
                                        tool_use_id: tid,
                                        name: nm,
                                        input: inp,
                                        stop: false,
                                    }
                                } else {
                                    EventModel::Unknown
                                }
                            } else {
                                EventModel::Unknown
                            },
                            None => EventModel::Unknown,
                        }
                    } else {
                        EventModel::Unknown
                    },
                    None => EventModel::Unknown,
                }
            } else {
                EventModel::Unknown
            },
            None => EventModel::Unknown,
        }
    } else {
        EventModel::Unknown
    }
}

/// The context-usage payload: `{"contextUsagePercentage":N}` with the
/// percentage read to hundredths.
pub open spec fn spec_parse_context_usage(p: Seq<u8>) -> EventModel {
    let pre = context_usage_prefix();
    if p.len() >= pre.len() && p.subrange(0, pre.len() as int) == pre {
        match spec_take_number(p.skip(pre.len() as int)) {
            Some((v, rest)) => if rest == seq![125u8] {
                EventModel::ContextUsage { percent_hundredths: v }
            } else {
                EventModel::Unknown
            },
            None => EventModel::Unknown,
        }
    } else {
        EventModel::Unknown
    }
}

/// What a frame means: exceptions by the `:exception-type` header first,
/// then dispatch on `:event-type` with the per-kind payload grammar.
pub open spec fn spec_event_of(headers: Seq<u8>, payload: Seq<u8>) -> EventModel {
    match spec_find_header(headers, exception_type_key()) {
        Some(t) => EventModel::Exception { exception_type: t },
        None => match spec_find_header(headers, event_type_key()) {
            Some(t) => if t == assistant_event_type() {
                spec_parse_assistant(payload)
            } else if t == tool_use_event_type() {
                spec_parse_tool_use(payload)
            } else if t == context_usage_event_type() {
                spec_parse_context_usage(payload)
            } else {
                EventModel::Unknown
            },
            None => EventModel::Unknown,
        },
    }
}

// ---------------------------------------------------------------------------
// Executable decoding
// ---------------------------------------------------------------------------

/// Copies `s[from..to]` into a fresh vector.
fn copy_slice_range(s: &[u8], from: usize, to: usize) -> (r: Vec<u8>)
    requires
        from <= to <= s@.len(),
    ensures
        r@ == s@.subrange(from as int, to as int),
{
    let mut out: Vec<u8> = Vec::new();
    let mut i: usize = from;
    while i < to
        invariant
            from <= i <= to <= s@.len(),
            out@ =~= s@.subrange(from as int, i as int),
        decreases to - i,
    {
        out.push(s[i]);
        proof {
            assert(s@.subrange(from as int, i + 1) =~= s@.subrange(from as int, i as int).push(
                s@[i as int],
            ));
        }
        i = i + 1;
    }
    out
}

/// Whether `s` carries `pat` starting at `at`.
fn matches_at(s: &[u8], at: usize, pat: &[u8]) -> (r: bool)
    ensures
        r == (at + pat@.len() <= s@.len() && s@.subrange(at as int, at + pat@.len()) == pat@),
{
    let n = s.len();
    if at > n || pat.len() > n - at {
        return false;
    }
    let piece = copy_slice_range(s, at, at + pat.len());
    bytes_eq(piece.as_slice(), pat)
}

pub fn event_type_key_bytes() -> (r: Vec<u8>)
    ensures
        r@ == event_type_key(),
{
    let v: Vec<u8> = vec![58u8, 101, 118, 101, 110, 116, 45, 116, 121, 112, 101];
    proof {
        assert(v@ =~= event_type_key());
    }
    v
}

pub fn exception_type_key_bytes() -> (r: Vec<u8>)
    ensures
        r@ == exception_type_key(),
{
    let v: Vec<u8> = vec![58u8, 101, 120, 99, 101, 112, 116, 105, 111, 110, 45, 116, 121, 112, 101];
    proof {
        assert(v@ =~= exception_type_key());
    }
    v
}

pub fn assistant_event_type_bytes() -> (r: Vec<u8>)
    ensures
        r@ == assistant_event_type(),
{
    let v: Vec<u8> = vec![
        97u8, 115, 115, 105, 115, 116, 97, 110, 116, 82, 101, 115, 112, 111, 110, 115, 101, 69,
        118, 101, 110, 116,
    ];
    proof {
        assert(v@ =~= assistant_event_type());
    }
    v
}

pub fn tool_use_event_type_bytes() -> (r: Vec<u8>)
    ensures
        r@ == tool_use_event_type(),
{
    let v: Vec<u8> = vec![116u8, 111, 111, 108, 85, 115, 101, 69, 118, 101, 110, 116];
    proof {
        assert(v@ =~= tool_use_event_type());
    }
    v
}

pub fn context_usage_event_type_bytes() -> (r: Vec<u8>)
    ensures
        r@ == context_usage_event_type(),
{
    let v: Vec<u8> = vec![
        99u8, 111, 110, 116, 101, 120, 116, 85, 115, 97, 103, 101, 69, 118, 101, 110, 116,
    ];
    proof {
        assert(v@ =~= context_usage_event_type());
    }
    v
}

fn assistant_prefix_bytes() -> (r: Vec<u8>)
    ensures
        r@ == assistant_prefix(),
{
    let v: Vec<u8> = vec![123u8, 34, 99, 111, 110, 116, 101, 110, 116, 34, 58, 34];
    proof {
        assert(v@ =~= assistant_prefix());
    }
    v
}

fn tool_use_prefix_bytes() -> (r: Vec<u8>)
    ensures
        r@ == tool_use_prefix(),
{
    let v: Vec<u8> = vec![123u8, 34, 116, 111, 111, 108, 85, 115, 101, 73, 100, 34, 58, 34];
    proof {
        assert(v@ =~= tool_use_prefix());
    }
    v
}

fn name_sep_bytes() -> (r: Vec<u8>)
    ensures
        r@ == name_sep(),
{
    let v: Vec<u8> = vec![44u8, 34, 110, 97, 109, 101, 34, 58, 34];
    proof {
        assert(v@ =~= name_sep());
    }
    v
}

fn input_sep_bytes() -> (r: Vec<u8>)
    ensures
        r@ == input_sep(),
{
    let v: Vec<u8> = vec![44u8, 34, 105, 110, 112, 117, 116, 34, 58, 34];
    proof {
        assert(v@ =~= input_sep());
    }
    v
}

fn stop_sep_bytes() -> (r: Vec<u8>)
    ensures
        r@ == stop_sep(),
{
    let v: Vec<u8> = vec![44u8, 34, 115, 116, 111, 112, 34, 58];
    proof {
        assert(v@ =~= stop_sep());
    }
    v
}

fn context_usage_prefix_bytes() -> (r: Vec<u8>)
    ensures
        r@ == context_usage_prefix(),
{
    let v: Vec<u8> = vec![
        123u8, 34, 99, 111, 110, 116, 101, 120, 116, 85, 115, 97, 103, 101, 80, 101, 114, 99, 101,
        110, 116, 97, 103, 101, 34, 58,
    ];
    proof {
        assert(v@ =~= context_usage_prefix());
    }
    v
}

/// Decodes the assistant payload grammar.
fn parse_assistant(p: &[u8]) -> (r: KiroEvent)
    ensures
        r.model() == spec_parse_assistant(p@),
{
    let pre = assistant_prefix_bytes();
    if !matches_at(p, 0, pre.as_slice()) {
        return KiroEvent::Unknown;
    }
    match take_json_string(p, pre.len()) {
        None => KiroEvent::Unknown,
        Some((c, end)) => {
            let close = p.len() - end == 1 && p[end] == 125;
            proof {
                assert(p@.skip(end as int).len() == p@.len() - end);
                if p@.len() - end == 1 {
                    assert(p@.skip(end as int) =~= seq![p@[end as int]]);
                    if seq![p@[end as int]] == seq![125u8] {
                        assert(seq![p@[end as int]][0] == seq![125u8][0]);
                    }
                }
            }
            if close {
                KiroEvent::AssistantResponse { content: c }
            } else {
                KiroEvent::Unknown
            }
        },
    }
}

/// Decodes the tool-use payload grammar.
#[verifier::rlimit(60)]
fn parse_tool_use(p: &[u8]) -> (r: KiroEvent)
    ensures
        r.model() == spec_parse_tool_use(p@),
{
    let pn = p.len();
    let pre = tool_use_prefix_bytes();
    if !matches_at(p, 0, pre.as_slice()) {
        return KiroEvent::Unknown;
    }
    let step1 = take_json_string(p, pre.len());
    match step1 {
        None => KiroEvent::Unknown,
        Some((tid, e1)) => {
            let ghost r1 = p@.skip(e1 as int);
            let sep_n = name_sep_bytes();
            if !matches_at(p, e1, sep_n.as_slice()) {
                proof {
                    if r1.len() >= name_sep().len() {
                        assert(r1.subrange(0, name_sep().len() as int) =~= p@.subrange(
                            e1 as int,
                            e1 + name_sep().len(),
                        ));
                    }
                }
                return KiroEvent::Unknown;
            }
            proof {
                assert(r1.subrange(0, name_sep().len() as int) =~= p@.subrange(
                    e1 as int,
                    e1 + name_sep().len(),
                ));
                assert(r1.skip(name_sep().len() as int) =~= p@.skip(e1 + name_sep().len()));
            }
            proof {
                assert(e1 + sep_n@.len() <= pn);
            }
            let step2 = take_json_string(p, e1 + sep_n.len());
            match step2 {
                None => KiroEvent::Unknown,
                Some((nm, e2)) => {
                    let ghost r2 = p@.skip(e2 as int);
                    let sep_i = input_sep_bytes();
                    if !matches_at(p, e2, sep_i.as_slice()) {
                        proof {
                            if r2.len() >= input_sep().len() {
                                assert(r2.subrange(0, input_sep().len() as int) =~= p@.subrange(
                                    e2 as int,
                                    e2 + input_sep().len(),
                                ));
                            }
                        }
                        return KiroEvent::Unknown;
                    }
                    proof {
                        assert(r2.subrange(0, input_sep().len() as int) =~= p@.subrange(
                            e2 as int,
                            e2 + input_sep().len(),
                        ));
                        assert(r2.skip(input_sep().len() as int) =~= p@.skip(
                            e2 + input_sep().len(),
                        ));
                    }
                    proof {
                        assert(e2 + sep_i@.len() <= pn);
                    }
                    let step3 = take_json_string(p, e2 + sep_i.len());
                    match step3 {
                        None => KiroEvent::Unknown,
                        Some((inp, e3)) => {
                            let ghost r3 = p@.skip(e3 as int);
                            let sep_s = stop_sep_bytes();
                            if !matches_at(p, e3, sep_s.as_slice()) {
                                proof {
                                    if r3.len() >= stop_sep().len() {
                                        assert(r3.subrange(0, stop_sep().len() as int)
                                            =~= p@.subrange(e3 as int, e3 + stop_sep().len()));
                                    }
                                }
                                return KiroEvent::Unknown;
                            }
                            proof {
                                assert(r3.subrange(0, stop_sep().len() as int) =~= p@.subrange(
                                    e3 as int,
                                    e3 + stop_sep().len(),
                                ));
                                assert(r3.skip(stop_sep().len() as int) =~= p@.skip(
                                    e3 + stop_sep().len(),
                                ));
                            }
                            proof {
                                assert(e3 + sep_s@.len() <= pn);
                            }
                            let after = e3 + sep_s.len();
                            let ghost r4 = p@.skip(after as int);
                            let tr: Vec<u8> = vec![116u8, 114, 117, 101, 125];
                            let fa: Vec<u8> = vec![102u8, 97, 108, 115, 101, 125];
                            proof {
                                assert(tr@ =~= lit_true_close());
                                assert(fa@ =~= lit_false_close());
                            }
                            let is_true = matches_at(p, after, tr.as_slice()) && p.len() - after
                                == 5;
                            let is_false = matches_at(p, after, fa.as_slice()) && p.len() - after
                                == 6;
                            proof {
                                assert(r4.len() == p@.len() - after);
                                if after + 5 <= p@.len() && p@.subrange(after as int, after + 5)
                                    == lit_true_close() && p@.len() - after == 5 {
                                    assert(r4 =~= p@.subrange(after as int, after + 5));
                                }
                                if r4 == lit_true_close() {
                                    assert(p@.subrange(after as int, after + 5) =~= r4);
                                }
                                if after + 6 <= p@.len() && p@.subrange(after as int, after + 6)
                                    == lit_false_close() && p@.len() - after == 6 {
                                    assert(r4 =~= p@.subrange(after as int, after + 6));
                                }
                                if r4 == lit_false_close() {
                                    assert(p@.subrange(after as int, after + 6) =~= r4);
                                }
                            }
                            if is_true {
                                KiroEvent::ToolUse {
                                    tool_use_id: tid,
                                    name: nm,
                                    input: inp,
                                    stop: true,
                                }
                            } else if is_false {
                                KiroEvent::ToolUse {
                                    tool_use_id: tid,
                                    name: nm,
                                    input: inp,
                                    stop: false,
                                }
                            } else {
                                KiroEvent::Unknown
                            }
                        },
                    }
                },
            }
        },
    }
}

/// Decodes the context-usage payload grammar.
fn parse_context_usage(p: &[u8]) -> (r: KiroEvent)
    ensures
        r.model() == spec_parse_context_usage(p@),
{
    let pre = context_usage_prefix_bytes();
    if !matches_at(p, 0, pre.as_slice()) {
        return KiroEvent::Unknown;
    }
    match take_number(p, pre.len()) {
        None => KiroEvent::Unknown,
        Some((v, end)) => {
            let close = p.len() - end == 1 && p[end] == 125;
            proof {
                if p@.len() - end == 1 {
                    assert(p@.skip(end as int) =~= seq![p@[end as int]]);
                    if seq![p@[end as int]] == seq![125u8] {
                        assert(seq![p@[end as int]][0] == seq![125u8][0]);
                    }
                    if p@[end as int] == 125 {
                        assert(seq![p@[end as int]] =~= seq![125u8]);
                    }
                } else {
                    assert(p@.skip(end as int).len() != 1);
                    assert(seq![125u8].len() == 1);
                }
            }
            if close {
                KiroEvent::ContextUsage { percent_hundredths: v }
            } else {
                KiroEvent::Unknown
            }
        },
    }
}

/// Decodes one frame into its typed event.
pub fn from_frame(f: &RawFrame) -> (r: KiroEvent)
    ensures
        r.model() == spec_event_of(f.headers@, f.payload@),
{
    let exc_key = exception_type_key_bytes();
    match find_header(f.headers.as_slice(), exc_key.as_slice()) {
        Some(t) => KiroEvent::Exception { exception_type: t },
        None => {
            let ev_key = event_type_key_bytes();
            match find_header(f.headers.as_slice(), ev_key.as_slice()) {
                None => KiroEvent::Unknown,
                Some(t) => {
                    let a = assistant_event_type_bytes();
                    let u = tool_use_event_type_bytes();
                    let c = context_usage_event_type_bytes();
                    if bytes_eq(t.as_slice(), a.as_slice()) {
                        parse_assistant(f.payload.as_slice())
                    } else if bytes_eq(t.as_slice(), u.as_slice()) {
                        parse_tool_use(f.payload.as_slice())
                    } else if bytes_eq(t.as_slice(), c.as_slice()) {
                        parse_context_usage(f.payload.as_slice())
                    } else {
                        KiroEvent::Unknown
                    }
                },
            }
        },
    }
}

/// Reads a plain decimal number starting at `from` into hundredths,
/// mirroring `spec_take_number` on the suffix.
fn take_number(s: &[u8], from: usize) -> (r: Option<(u64, usize)>)
    requires
        from <= s@.len(),
    ensures
        match r {
            Some((v, end)) => from <= end <= s@.len() && spec_take_number(s@.skip(from as int))
                == Some((v, s@.skip(end as int))),
            None => spec_take_number(s@.skip(from as int)) is None,
        },
{
    let ghost suf = s@.skip(from as int);
    let n = s.len();
    let mut i: usize = from;
    let mut value: u64 = 0;
    while i < n && s[i] >= 48 && s[i] <= 57 && i - from < 13
        invariant
            from <= i <= n,
            n == s@.len(),
            suf == s@.skip(from as int),
            i - from <= 13,
            forall|q: int| 0 <= q < i - from ==> 48 <= #[trigger] suf[q] <= 57,
            i - from <= 12 ==> value == digits_value(suf, i - from),
            value < 10000000000000,
        decreases n - i,
    {
        proof {
            assert(suf[i - from] == s@[i as int]);
        }
        if i - from < 12 {
            proof {
                lemma_digits_value_small(suf, i - from);
                lemma_pow10_mono(i - from, 11);
                reveal_with_fuel(pow10, 13);
                assert(pow10(11) == 100000000000);
            }
            value = value * 10 + ((s[i] - 48) as u64);
            proof {
                assert(digits_value(suf, i + 1 - from) == digits_value(suf, i - from) * 10 + (
                suf[i - from] - 48));
            }
        } else {
            value = 0;
        }
        i = i + 1;
    }
    let count = i - from;
    proof {
        lemma_digits_prefix_len_is(suf, count as int, s@, from as int, i as int, n as int);
    }
    if count == 0 || count > 12 {
        return None;
    }
    let ip = value;
    if i < n && s[i] == 46 {
        proof {
            assert(suf[count as int] == s@[i as int]);
        }
        // fractional digits
        let frac_start = i + 1;
        let ghost fsuf = s@.skip(frac_start as int);
        proof {
            assert(fsuf =~= suf.skip(count + 1));
        }
        let mut j: usize = frac_start;
        let mut f2: u64 = 0;
        while j < n && s[j] >= 48 && s[j] <= 57
            invariant
                frac_start <= j <= n,
                n == s@.len(),
                fsuf == s@.skip(frac_start as int),
                frac_start == i + 1,
                i < n,
                forall|q: int| 0 <= q < j - frac_start ==> 48 <= #[trigger] fsuf[q] <= 57,
                f2 == spec_frac2(fsuf, j - frac_start),
                f2 <= 99,
            decreases n - j,
        {
            proof {
                assert(fsuf[j - frac_start] == s@[j as int]);
            }
            if j == frac_start {
                f2 = ((s[j] - 48) as u64) * 10;
            } else if j == frac_start + 1 {
                f2 = f2 + ((s[j] - 48) as u64);
            }
            j = j + 1;
        }
        let m = j - frac_start;
        proof {
            if j < n {
                assert(fsuf[m as int] == s@[j as int]);
            }
            lemma_digits_prefix_rec(
                fsuf,
                m as int,
                if j < n {
                    Some(s@[j as int])
                } else {
                    None
                },
            );
            assert(digits_prefix_len(fsuf) == m as int);
        }
        if m == 0 {
            return None;
        }
        proof {
            assert(spec_frac2(fsuf, m as int) == (if m == 1 {
                (suf[count + 1] - 48) * 10
            } else {
                (suf[count + 1] - 48) * 10 + (suf[count + 2] - 48)
            })) by {
                if m >= 1 {
                    assert(fsuf[0] == suf[count + 1]);
                }
                if m >= 2 {
                    assert(fsuf[1] == suf[count + 2]);
                }
            }
            assert(s@.skip(j as int) =~= suf.skip(count + 1 + m));
            assert(spec_take_number(suf) == Some((((ip * 100 + f2) as u64), suf.skip(count + 1 + m))));
        }
        Some((ip * 100 + f2, j))
    } else {
        proof {
            if i < n {
                assert(suf[count as int] == s@[i as int]);
            }
            assert(s@.skip(i as int) =~= suf.skip(count as int));
            assert(digits_prefix_len(suf) == count as int);
            assert(1 <= count && count <= 12);
            assert(!((count as int) < suf.len() && suf[count as int] == 46));
            assert(ip == digits_value(suf, count as int));
            assert(spec_take_number(suf) == Some(((ip * 100) as u64, suf.skip(count as int))));
        }
        Some((ip * 100, i))
    }
}

/// The first two fractional digits scaled to hundredths, given `k` digits
/// seen so far.
pub open spec fn spec_frac2(fsuf: Seq<u8>, k: int) -> u64 {
    if k <= 0 {
        0
    } else if k == 1 {
        ((fsuf[0] - 48) * 10) as u64
    } else {
        ((fsuf[0] - 48) * 10 + (fsuf[1] - 48)) as u64
    }
}

proof fn lemma_digits_value_bound(s: Seq<u8>, k: int)
    requires
        0 <= k <= 12,
        k <= s.len(),
        forall|q: int| 0 <= q < k ==> 48 <= #[trigger] s[q] <= 57,
    ensures
        0 <= digits_value(s, k) < 10000000000000,
{
    lemma_digits_value_small(s, k);
    lemma_pow10_mono(k, 12);
    reveal_with_fuel(pow10, 14);
    assert(pow10(12) == 1000000000000);
}

proof fn lemma_digits_value_small(s: Seq<u8>, k: int)
    requires
        0 <= k,
        k <= s.len(),
        forall|q: int| 0 <= q < k ==> 48 <= #[trigger] s[q] <= 57,
    ensures
        0 <= digits_value(s, k) < pow10(k),
    decreases k,
{
    if k > 0 {
        lemma_digits_value_small(s, k - 1);
    }
}

proof fn lemma_pow10_mono(a: int, b: int)
    requires
        0 <= a <= b,
    ensures
        pow10(a) <= pow10(b),
        pow10(a) >= 1,
    decreases b,
{
    if a < b {
        lemma_pow10_mono(a, b - 1);
    } else {
        if a > 0 {
            lemma_pow10_mono(a - 1, a - 1);
        }
    }
}

pub open spec fn pow10(k: int) -> int
    decreases k,
{
    if k <= 0 {
        1
    } else {
        10 * pow10(k - 1)
    }
}

/// Connects the exec digit scan to `digits_prefix_len`.
proof fn lemma_digits_prefix_len_is(
    suf: Seq<u8>,
    count: int,
    s: Seq<u8>,
    from: int,
    i: int,
    n: int,
)
    requires
        0 <= from <= i <= n,
        n == s.len(),
        suf == s.skip(from),
        count == i - from,
        forall|q: int| 0 <= q < count ==> 48 <= #[trigger] suf[q] <= 57,
        i == n || !(48 <= s[i] <= 57) || count == 13,
    ensures
        count < 13 ==> digits_prefix_len(suf) == count,
        count == 13 ==> digits_prefix_len(suf) >= 13,
{
    lemma_digits_prefix_rec(suf, count, if i < n {
        Some(s[i])
    } else {
        None
    });
}

proof fn lemma_digits_prefix_rec(suf: Seq<u8>, count: int, next: Option<u8>)
    requires
        0 <= count <= suf.len(),
        forall|q: int| 0 <= q < count ==> 48 <= #[trigger] suf[q] <= 57,
        count < suf.len() ==> next == Some(suf[count]),
        count == suf.len() ==> next is None,
    ensures
        (match next {
            Some(b) => !(48 <= b <= 57),
            None => true,
        }) ==> digits_prefix_len(suf) == count,
        digits_prefix_len(suf) >= count,
    decreases count,
{
    if count > 0 {
        assert(48 <= suf[0] <= 57);
        assert(suf.drop_first().len() == suf.len() - 1);
        assert forall|q: int| 0 <= q < count - 1 implies 48 <= #[trigger] suf.drop_first()[q]
            <= 57 by {
            assert(suf.drop_first()[q] == suf[q + 1]);
        }
        if count - 1 < suf.drop_first().len() {
            assert(suf.drop_first()[count - 1] == suf[count]);
        }
        lemma_digits_prefix_rec(suf.drop_first(), count - 1, next);
    } else {
        lemma_dpl_nonneg(suf);
    }
}

proof fn lemma_dpl_nonneg(suf: Seq<u8>)
    ensures
        digits_prefix_len(suf) >= 0,
    decreases suf.len(),
{
    if suf.len() > 0 && 48 <= suf.first() <= 57 {
        lemma_dpl_nonneg(suf.drop_first());
    }
}

/// The assistant payload wire form for a given text delta.
pub open spec fn spec_assistant_payload(content: Seq<u8>) -> Seq<u8> {
    assistant_prefix() + spec_escape(content) + seq![34u8, 125u8]
}

/// Builds the payload of an assistant event carrying `content`.
pub fn encode_assistant_payload(content: &[u8]) -> (r: Vec<u8>)
    ensures
        r@ == spec_assistant_payload(content@),
{
    let mut out = assistant_prefix_bytes();
    let mut esc = json_escape(content);
    out.append(&mut esc);
    out.push(34);
    out.push(125);
    proof {
        assert(out@ =~= spec_assistant_payload(content@));
    }
    out
}

/// Transcoding round trip: a text delta framed as an assistant event
/// decodes back to exactly that delta.
pub proof fn lemma_assistant_event_round_trip(content: Seq<u8>)
    ensures
        spec_event_of(
            spec_single_header(event_type_key(), assistant_event_type()),
            spec_assistant_payload(content),
        ) == (EventModel::Assistant { content }),
{
    let h = spec_single_header(event_type_key(), assistant_event_type());
    lemma_single_header_other(event_type_key(), assistant_event_type(), exception_type_key());
    lemma_single_header_found(event_type_key(), assistant_event_type());
    let p = spec_assistant_payload(content);
    let pre = assistant_prefix();
    assert(p.subrange(0, pre.len() as int) =~= pre);
    assert(p.skip(pre.len() as int) =~= spec_escape(content) + seq![34u8] + seq![125u8]);
    lemma_escape_round_trip(content, seq![125u8]);
}

} // verus!
