//! Translation of upstream events into the client-visible SSE sequence.
//!
//! A shared core maps each upstream event to its SSE events and folds the
//! stream state; the incremental context emits as events arrive, while the
//! buffered context withholds everything until the end so that
//! `message_start` can carry the upstream-reported input-token count.  The
//! two transcripts differ only in that number.  The thinking flag is
//! carried with the context; the upstream events decoded here have no
//! thinking deltas, so no thinking blocks appear in either transcript.

use vstd::prelude::*;
use vstd::string::StringSliceAdditionalSpecFns;

use crate::apikeys::sat_add64;
use crate::events::EventModel;
use crate::events::KiroEvent;
use crate::jsontext::json_escape;
use crate::jsontext::spec_escape;
use crate::textutil::bytes_eq;

verus! {

/// The context window the upstream percentage refers to, in tokens: one
/// percent is 2000 tokens, so hundredths of a percent scale by 20.
pub const TOKENS_PER_PERCENT_HUNDREDTH: u64 = 20;

/// One SSE event: its name and its JSON data, as raw bytes.
pub struct SseEvent {
    pub name: Vec<u8>,
    pub data: Vec<u8>,
}

/// The ghost image of one SSE event.
pub struct SseEventModel {
    pub name: Seq<u8>,
    pub data: Seq<u8>,
}

impl SseEvent {
    pub open spec fn model(self) -> SseEventModel {
        SseEventModel { name: self.name@, data: self.data@ }
    }

    /// The wire form: `event: <name>\ndata: <json>\n\n`.
    pub fn to_sse_bytes(&self) -> (r: Vec<u8>)
        ensures
            r@ == spec_sse_bytes(self.model()),
    {
        proof {
            reveal_strlit("event: ");
            reveal_strlit("\ndata: ");
            reveal_strlit("\n\n");
        }
        let mut out = lit_bytes("event: ");
        append_bytes(&mut out, self.name.as_slice());
        let mid = lit_bytes("\ndata: ");
        append_bytes(&mut out, mid.as_slice());
        append_bytes(&mut out, self.data.as_slice());
        let tail = lit_bytes("\n\n");
        append_bytes(&mut out, tail.as_slice());
        proof {
            assert(out@ =~= spec_sse_bytes(self.model()));
        }
        out
    }
}

pub open spec fn spec_sse_bytes(e: SseEventModel) -> Seq<u8> {
    lit_of("event: "@) + e.name + lit_of("\ndata: "@) + e.data + lit_of("\n\n"@)
}

/// ASCII characters as bytes.
pub open spec fn lit_of(s: Seq<char>) -> Seq<u8> {
    s.map_values(|c: char| c as u8)
}

/// The bytes of an ASCII string literal.
pub fn lit_bytes(s: &str) -> (r: Vec<u8>)
    requires
        s.is_ascii(),
    ensures
        r@ == lit_of(s@),
{
    proof {
        broadcast use vstd::string::is_ascii_spec_bytes;

    }
    let r = s.as_bytes_vec();
    proof {
        assert(r@ =~= lit_of(s@));
    }
    r
}

/// Appends a slice to a byte vector.
pub fn append_bytes(out: &mut Vec<u8>, s: &[u8])
    ensures
        final(out)@ == old(out)@ + s@,
{
    let mut i: usize = 0;
    let ghost pre = out@;
    while i < s.len()
        invariant
            i <= s@.len(),
            out@ == pre + s@.subrange(0, i as int),
        decreases s@.len() - i,
    {
        out.push(s[i]);
        proof {
            assert(pre + s@.subrange(0, i + 1) =~= (pre + s@.subrange(0, i as int)).push(
                s@[i as int],
            ));
        }
        i = i + 1;
    }
    proof {
        assert(s@.subrange(0, s@.len() as int) =~= s@);
    }
}

/// Decimal digits of a number.
pub open spec fn dec(n: int) -> Seq<u8>
    decreases n,
{
    if n < 10 {
        seq![(48 + if n >= 0 {
            n
        } else {
            0
        }) as u8]
    } else {
        dec(n / 10) + seq![(48 + n % 10) as u8]
    }
}

/// Renders a number in decimal.
pub fn u64_to_dec(n: u64) -> (r: Vec<u8>)
    ensures
        r@ == dec(n as int),
    decreases n,
{
    if n < 10 {
        let v: Vec<u8> = vec![48 + (n as u8)];
        proof {
            assert(v@ =~= dec(n as int));
        }
        v
    } else {
        let mut r = u64_to_dec(n / 10);
        r.push(48 + ((n % 10) as u8));
        proof {
            assert(dec(n as int) =~= dec(n as int / 10) + seq![(48 + n as int % 10) as u8]);
            assert(r@ =~= dec(n as int));
        }
        r
    }
}

/// The keep-alive ping event.
pub fn ping_event() -> (r: SseEvent)
    ensures
        r.model() == ping_model(),
{
    proof {
        reveal_strlit("ping");
        reveal_strlit("{\"type\": \"ping\"}");
    }
    SseEvent { name: lit_bytes("ping"), data: lit_bytes("{\"type\": \"ping\"}") }
}

pub open spec fn ping_model() -> SseEventModel {
    SseEventModel { name: lit_of("ping"@), data: lit_of("{\"type\": \"ping\"}"@) }
}

// ---------------------------------------------------------------------------
// The translation core
// ---------------------------------------------------------------------------

/// The fold state of the translation core.
pub struct StreamState {
    pub started: bool,
    pub text_open: bool,
    pub tool_open: bool,
    pub block_index: u64,
    pub has_tool_use: bool,
    pub max_tokens_stop: bool,
    pub context_exceeded: bool,
    pub upstream_tokens: Option<u64>,
    pub output_bytes: u64,
}

pub open spec fn init_state() -> StreamState {
    StreamState {
        started: false,
        text_open: false,
        tool_open: false,
        block_index: 0,
        has_tool_use: false,
        max_tokens_stop: false,
        context_exceeded: false,
        upstream_tokens: None,
        output_bytes: 0,
    }
}

pub open spec fn sat_inc64(x: u64) -> u64 {
    if x == u64::MAX {
        x
    } else {
        (x + 1) as u64
    }
}

pub open spec fn msg_start_ev(model: Seq<u8>, tokens: u64) -> SseEventModel {
    SseEventModel {
        name: lit_of("message_start"@),
        data: lit_of(
            "{\"type\":\"message_start\",\"message\":{\"role\":\"assistant\",\"model\":\""@,
        ) + spec_escape(model) + lit_of("\",\"usage\":{\"input_tokens\":"@) + dec(tokens as int)
            + lit_of(",\"output_tokens\":1}}}"@),
    }
}

pub open spec fn cbs_text_ev(index: u64) -> SseEventModel {
    SseEventModel {
        name: lit_of("content_block_start"@),
        data: lit_of("{\"type\":\"content_block_start\",\"index\":"@) + dec(index as int) + lit_of(
            ",\"content_block\":{\"type\":\"text\",\"text\":\"\"}}"@,
        ),
    }
}

pub open spec fn cbs_tool_ev(index: u64, id: Seq<u8>, name: Seq<u8>) -> SseEventModel {
    SseEventModel {
        name: lit_of("content_block_start"@),
        data: lit_of("{\"type\":\"content_block_start\",\"index\":"@) + dec(index as int) + lit_of(
            ",\"content_block\":{\"type\":\"tool_use\",\"id\":\""@,
        ) + spec_escape(id) + lit_of("\",\"name\":\""@) + spec_escape(name) + lit_of(
            "\",\"input\":{}}}"@,
        ),
    }
}

pub open spec fn cbd_text_ev(index: u64, content: Seq<u8>) -> SseEventModel {
    SseEventModel {
        name: lit_of("content_block_delta"@),
        data: lit_of("{\"type\":\"content_block_delta\",\"index\":"@) + dec(index as int) + lit_of(
            ",\"delta\":{\"type\":\"text_delta\",\"text\":\""@,
        ) + spec_escape(content) + lit_of("\"}}"@),
    }
}

pub open spec fn cbd_json_ev(index: u64, partial: Seq<u8>) -> SseEventModel {
    SseEventModel {
        name: lit_of("content_block_delta"@),
        data: lit_of("{\"type\":\"content_block_delta\",\"index\":"@) + dec(index as int) + lit_of(
            ",\"delta\":{\"type\":\"input_json_delta\",\"partial_json\":\""@,
        ) + spec_escape(partial) + lit_of("\"}}"@),
    }
}

pub open spec fn cb_stop_ev(index: u64) -> SseEventModel {
    SseEventModel {
        name: lit_of("content_block_stop"@),
        data: lit_of("{\"type\":\"content_block_stop\",\"index\":"@) + dec(index as int) + lit_of(
            "}"@,
        ),
    }
}

pub open spec fn message_delta_ev(stop_reason: Seq<char>, input_tokens: u64, output_tokens: u64) -> SseEventModel {
    SseEventModel {
        name: lit_of("message_delta"@),
        data: lit_of("{\"type\":\"message_delta\",\"delta\":{\"stop_reason\":\""@) + lit_of(
            stop_reason,
        ) + lit_of("\",\"stop_sequence\":null},\"usage\":{\"input_tokens\":"@) + dec(
            input_tokens as int,
        ) + lit_of(",\"output_tokens\":"@) + dec(output_tokens as int) + lit_of("}}"@),
    }
}

pub open spec fn message_stop_ev() -> SseEventModel {
    SseEventModel {
        name: lit_of("message_stop"@),
        data: lit_of("{\"type\":\"message_stop\"}"@),
    }
}

/// The events that close whatever block is open.
pub open spec fn close_out(s: StreamState) -> Seq<SseEventModel> {
    if s.tool_open || s.text_open {
        seq![cb_stop_ev(s.block_index)]
    } else {
        Seq::empty()
    }
}

pub open spec fn close_state(s: StreamState) -> StreamState {
    if s.tool_open || s.text_open {
        StreamState {
            text_open: false,
            tool_open: false,
            block_index: sat_inc64(s.block_index),
            ..s
        }
    } else {
        s
    }
}

/// The SSE events one upstream event maps to, `message_start` excluded.
pub open spec fn step_out(s: StreamState, e: EventModel) -> Seq<SseEventModel> {
    match e {
        EventModel::Assistant { content } => {
            if s.text_open {
                seq![cbd_text_ev(s.block_index, content)]
            } else {
                let s1 = close_state(s);
                close_out(s) + seq![
                    cbs_text_ev(s1.block_index),
                    cbd_text_ev(s1.block_index, content),
                ]
            }
        },
        EventModel::ToolUse { tool_use_id, name, input, stop } => {
            let opening = if s.tool_open {
                Seq::<SseEventModel>::empty()
            } else {
                close_out(s) + seq![
                    cbs_tool_ev(close_state(s).block_index, tool_use_id, name),
                ]
            };
            let idx = if s.tool_open {
                s.block_index
            } else {
                close_state(s).block_index
            };
            opening + seq![cbd_json_ev(idx, input)] + if stop {
                seq![cb_stop_ev(idx)]
            } else {
                Seq::<SseEventModel>::empty()
            }
        },
        EventModel::ContextUsage { .. } => Seq::empty(),
        EventModel::Exception { .. } => Seq::empty(),
        EventModel::Unknown => Seq::empty(),
    }
}

/// How one upstream event folds the state.
pub open spec fn step_state(s: StreamState, e: EventModel) -> StreamState {
    match e {
        EventModel::Assistant { content } => {
            let s1 = if s.text_open {
                s
            } else {
                let sc = close_state(s);
                StreamState { text_open: true, ..sc }
            };
            StreamState {
                started: true,
                output_bytes: sat_add64(s1.output_bytes, content.len() as u64),
                ..s1
            }
        },
        EventModel::ToolUse { tool_use_id, name, input, stop } => {
            let s1 = if s.tool_open {
                s
            } else {
                let sc = close_state(s);
                StreamState { tool_open: true, ..sc }
            };
            let s2 = StreamState {
                started: true,
                has_tool_use: true,
                output_bytes: sat_add64(s1.output_bytes, input.len() as u64),
                ..s1
            };
            if stop {
                StreamState {
                    tool_open: false,
                    block_index: sat_inc64(s2.block_index),
                    ..s2
                }
            } else {
                s2
            }
        },
        EventModel::ContextUsage { percent_hundredths } => {
            StreamState {
                upstream_tokens: Some(
                    if percent_hundredths > u64::MAX / TOKENS_PER_PERCENT_HUNDREDTH {
                        u64::MAX
                    } else {
                        (percent_hundredths * TOKENS_PER_PERCENT_HUNDREDTH) as u64
                    },
                ),
                context_exceeded: s.context_exceeded || percent_hundredths >= 10000,
                ..s
            }
        },
        EventModel::Exception { exception_type } => {
            StreamState {
                max_tokens_stop: s.max_tokens_stop || exception_type == lit_of(
                    "ContentLengthExceededException"@,
                ),
                ..s
            }
        },
        EventModel::Unknown => s,
    }
}

/// The body of the transcript: the fold of the core over the events.
pub open spec fn run(events: Seq<EventModel>) -> (StreamState, Seq<SseEventModel>)
    decreases events.len(),
{
    if events.len() == 0 {
        (init_state(), Seq::empty())
    } else {
        let rec = run(events.drop_last());
        (step_state(rec.0, events.last()), rec.1 + step_out(rec.0, events.last()))
    }
}

/// The final input-token figure: the upstream number when one arrived,
/// else the local estimate.
pub open spec fn input_final(s: StreamState, estimate: u64) -> u64 {
    match s.upstream_tokens {
        Some(u) => u,
        None => estimate,
    }
}

/// The local output estimate: about one token per four bytes of content.
pub open spec fn output_estimate(s: StreamState) -> u64 {
    ((s.output_bytes + 3) / 4) as u64
}

/// Stop-reason precedence: explicit exception, then context window, then
/// tool use, then a plain end of turn.
pub open spec fn stop_reason_of(s: StreamState) -> Seq<char> {
    if s.max_tokens_stop {
        "max_tokens"@
    } else if s.context_exceeded {
        "model_context_window_exceeded"@
    } else if s.has_tool_use {
        "tool_use"@
    } else {
        "end_turn"@
    }
}

/// The closing events of a transcript.
pub open spec fn finish_out(s: StreamState, estimate: u64) -> Seq<SseEventModel> {
    close_out(s) + seq![
        message_delta_ev(stop_reason_of(s), input_final(s, estimate), output_estimate(s)),
        message_stop_ev(),
    ]
}

/// The whole incremental transcript for a list of upstream events:
/// `message_start` carries the local estimate.
pub open spec fn spec_transcript(events: Seq<EventModel>, model: Seq<u8>, estimate: u64) -> Seq<
    SseEventModel,
> {
    seq![msg_start_ev(model, estimate)] + run(events).1 + finish_out(run(events).0, estimate)
}

/// The whole buffered transcript: identical, except that `message_start`
/// carries the final input-token figure.
pub open spec fn spec_transcript_buffered(
    events: Seq<EventModel>,
    model: Seq<u8>,
    estimate: u64,
) -> Seq<SseEventModel> {
    seq![msg_start_ev(model, input_final(run(events).0, estimate))] + run(events).1 + finish_out(
        run(events).0,
        estimate,
    )
}

// ---------------------------------------------------------------------------
// Executable event builders
// ---------------------------------------------------------------------------

fn build_msg_start(model: &[u8], tokens: u64) -> (r: SseEvent)
    ensures
        r.model() == msg_start_ev(model@, tokens),
{
    proof {
        reveal_strlit("message_start");
        reveal_strlit("{\"type\":\"message_start\",\"message\":{\"role\":\"assistant\",\"model\":\"");
        reveal_strlit("\",\"usage\":{\"input_tokens\":");
        reveal_strlit(",\"output_tokens\":1}}}");
    }
    let mut data = lit_bytes(
        "{\"type\":\"message_start\",\"message\":{\"role\":\"assistant\",\"model\":\"",
    );
    let esc = json_escape(model);
    append_bytes(&mut data, esc.as_slice());
    let mid = lit_bytes("\",\"usage\":{\"input_tokens\":");
    append_bytes(&mut data, mid.as_slice());
    let num = u64_to_dec(tokens);
    append_bytes(&mut data, num.as_slice());
    let tail = lit_bytes(",\"output_tokens\":1}}}");
    append_bytes(&mut data, tail.as_slice());
    let r = SseEvent { name: lit_bytes("message_start"), data };
    proof {
        assert(r.model().data =~= msg_start_ev(model@, tokens).data);
    }
    r
}

fn build_cbs_text(index: u64) -> (r: SseEvent)
    ensures
        r.model() == cbs_text_ev(index),
{
    proof {
        reveal_strlit("content_block_start");
        reveal_strlit("{\"type\":\"content_block_start\",\"index\":");
        reveal_strlit(",\"content_block\":{\"type\":\"text\",\"text\":\"\"}}");
    }
    let mut data = lit_bytes("{\"type\":\"content_block_start\",\"index\":");
    let num = u64_to_dec(index);
    append_bytes(&mut data, num.as_slice());
    let tail = lit_bytes(",\"content_block\":{\"type\":\"text\",\"text\":\"\"}}");
    append_bytes(&mut data, tail.as_slice());
    let r = SseEvent { name: lit_bytes("content_block_start"), data };
    proof {
        assert(r.model().data =~= cbs_text_ev(index).data);
    }
    r
}

fn build_cbs_tool(index: u64, id: &[u8], name: &[u8]) -> (r: SseEvent)
    ensures
        r.model() == cbs_tool_ev(index, id@, name@),
{
    proof {
        reveal_strlit("content_block_start");
        reveal_strlit("{\"type\":\"content_block_start\",\"index\":");
        reveal_strlit(",\"content_block\":{\"type\":\"tool_use\",\"id\":\"");
        reveal_strlit("\",\"name\":\"");
        reveal_strlit("\",\"input\":{}}}");
    }
    let mut data = lit_bytes("{\"type\":\"content_block_start\",\"index\":");
    let num = u64_to_dec(index);
    append_bytes(&mut data, num.as_slice());
    let s1 = lit_bytes(",\"content_block\":{\"type\":\"tool_use\",\"id\":\"");
    append_bytes(&mut data, s1.as_slice());
    let e1 = json_escape(id);
    append_bytes(&mut data, e1.as_slice());
    let s2 = lit_bytes("\",\"name\":\"");
    append_bytes(&mut data, s2.as_slice());
    let e2 = json_escape(name);
    append_bytes(&mut data, e2.as_slice());
    let s3 = lit_bytes("\",\"input\":{}}}");
    append_bytes(&mut data, s3.as_slice());
    let r = SseEvent { name: lit_bytes("content_block_start"), data };
    proof {
        assert(r.model().data =~= cbs_tool_ev(index, id@, name@).data);
    }
    r
}

fn build_cbd_text(index: u64, content: &[u8]) -> (r: SseEvent)
    ensures
        r.model() == cbd_text_ev(index, content@),
{
    proof {
        reveal_strlit("content_block_delta");
        reveal_strlit("{\"type\":\"content_block_delta\",\"index\":");
        reveal_strlit(",\"delta\":{\"type\":\"text_delta\",\"text\":\"");
        reveal_strlit("\"}}");
    }
    let mut data = lit_bytes("{\"type\":\"content_block_delta\",\"index\":");
    let num = u64_to_dec(index);
    append_bytes(&mut data, num.as_slice());
    let s1 = lit_bytes(",\"delta\":{\"type\":\"text_delta\",\"text\":\"");
    append_bytes(&mut data, s1.as_slice());
    let esc = json_escape(content);
    append_bytes(&mut data, esc.as_slice());
    let s2 = lit_bytes("\"}}");
    append_bytes(&mut data, s2.as_slice());
    let r = SseEvent { name: lit_bytes("content_block_delta"), data };
    proof {
        assert(r.model().data =~= cbd_text_ev(index, content@).data);
    }
    r
}

fn build_cbd_json(index: u64, partial: &[u8]) -> (r: SseEvent)
    ensures
        r.model() == cbd_json_ev(index, partial@),
{
    proof {
        reveal_strlit("content_block_delta");
        reveal_strlit("{\"type\":\"content_block_delta\",\"index\":");
        reveal_strlit(",\"delta\":{\"type\":\"input_json_delta\",\"partial_json\":\"");
        reveal_strlit("\"}}");
    }
    let mut data = lit_bytes("{\"type\":\"content_block_delta\",\"index\":");
    let num = u64_to_dec(index);
    append_bytes(&mut data, num.as_slice());
    let s1 = lit_bytes(",\"delta\":{\"type\":\"input_json_delta\",\"partial_json\":\"");
    append_bytes(&mut data, s1.as_slice());
    let esc = json_escape(partial);
    append_bytes(&mut data, esc.as_slice());
    let s2 = lit_bytes("\"}}");
    append_bytes(&mut data, s2.as_slice());
    let r = SseEvent { name: lit_bytes("content_block_delta"), data };
    proof {
        assert(r.model().data =~= cbd_json_ev(index, partial@).data);
    }
    r
}

fn build_cb_stop(index: u64) -> (r: SseEvent)
    ensures
        r.model() == cb_stop_ev(index),
{
    proof {
        reveal_strlit("content_block_stop");
        reveal_strlit("{\"type\":\"content_block_stop\",\"index\":");
        reveal_strlit("}");
    }
    let mut data = lit_bytes("{\"type\":\"content_block_stop\",\"index\":");
    let num = u64_to_dec(index);
    append_bytes(&mut data, num.as_slice());
    let s1 = lit_bytes("}");
    append_bytes(&mut data, s1.as_slice());
    let r = SseEvent { name: lit_bytes("content_block_stop"), data };
    proof {
        assert(r.model().data =~= cb_stop_ev(index).data);
    }
    r
}

fn build_message_delta(stop_reason: &str, input_tokens: u64, output_tokens: u64) -> (r: SseEvent)
    requires
        stop_reason.is_ascii(),
    ensures
        r.model() == message_delta_ev(stop_reason@, input_tokens, output_tokens),
{
    proof {
        reveal_strlit("message_delta");
        reveal_strlit("{\"type\":\"message_delta\",\"delta\":{\"stop_reason\":\"");
        reveal_strlit("\",\"stop_sequence\":null},\"usage\":{\"input_tokens\":");
        reveal_strlit(",\"output_tokens\":");
        reveal_strlit("}}");
    }
    let mut data = lit_bytes("{\"type\":\"message_delta\",\"delta\":{\"stop_reason\":\"");
    let sr = lit_bytes(stop_reason);
    append_bytes(&mut data, sr.as_slice());
    let s1 = lit_bytes("\",\"stop_sequence\":null},\"usage\":{\"input_tokens\":");
    append_bytes(&mut data, s1.as_slice());
    let n1 = u64_to_dec(input_tokens);
    append_bytes(&mut data, n1.as_slice());
    let s2 = lit_bytes(",\"output_tokens\":");
    append_bytes(&mut data, s2.as_slice());
    let n2 = u64_to_dec(output_tokens);
    append_bytes(&mut data, n2.as_slice());
    let s3 = lit_bytes("}}");
    append_bytes(&mut data, s3.as_slice());
    let r = SseEvent { name: lit_bytes("message_delta"), data };
    proof {
        assert(r.model().data =~= message_delta_ev(stop_reason@, input_tokens, output_tokens).data);
    }
    r
}

fn build_message_stop() -> (r: SseEvent)
    ensures
        r.model() == message_stop_ev(),
{
    proof {
        reveal_strlit("message_stop");
        reveal_strlit("{\"type\":\"message_stop\"}");
    }
    SseEvent { name: lit_bytes("message_stop"), data: lit_bytes("{\"type\":\"message_stop\"}") }
}

// ---------------------------------------------------------------------------
// The stream contexts
// ---------------------------------------------------------------------------

/// The incremental SSE context: translates upstream events as they
/// arrive.  `message_start` (carrying the local estimate) leads the first
/// translated event.
pub struct StreamContext {
    model_name: Vec<u8>,
    input_estimate: u64,
    thinking_enabled: bool,
    st: StreamState,
    fed: Ghost<Seq<EventModel>>,
    emitted: Ghost<Seq<SseEventModel>>,
}

impl StreamContext {
    pub closed spec fn spec_fed(self) -> Seq<EventModel> {
        self.fed@
    }

    pub closed spec fn spec_emitted(self) -> Seq<SseEventModel> {
        self.emitted@
    }

    pub closed spec fn spec_model_name(self) -> Seq<u8> {
        self.model_name@
    }

    pub closed spec fn spec_estimate(self) -> u64 {
        self.input_estimate
    }

    pub closed spec fn spec_state(self) -> StreamState {
        self.st
    }

    /// The context's invariant: the state is the fold of what was fed,
    /// and what was emitted so far is the transcript prefix.
    pub closed spec fn wf(self) -> bool {
        &&& self.st == run(self.fed@).0
        &&& self.emitted@ == if self.st.started {
            seq![msg_start_ev(self.model_name@, self.input_estimate)] + run(self.fed@).1
        } else {
            Seq::<SseEventModel>::empty()
        }
        &&& !self.st.started ==> run(self.fed@).1 == Seq::<SseEventModel>::empty()
    }

    pub fn new_with_thinking(model: &str, input_tokens_estimate: u64, thinking_enabled: bool) -> (r:
        Self)
        ensures
            r.wf(),
            r.spec_fed() == Seq::<EventModel>::empty(),
            r.spec_model_name() == model.spec_bytes(),
            r.spec_estimate() == input_tokens_estimate,
    {
        let r = StreamContext {
            model_name: model.as_bytes_vec(),
            input_estimate: input_tokens_estimate,
            thinking_enabled,
            st: StreamState {
                started: false,
                text_open: false,
                tool_open: false,
                block_index: 0,
                has_tool_use: false,
                max_tokens_stop: false,
                context_exceeded: false,
                upstream_tokens: None,
                output_bytes: 0,
            },
            fed: Ghost(Seq::empty()),
            emitted: Ghost(Seq::empty()),
        };
        proof {
            assert(r.st == init_state());
        }
        r
    }

    /// Internal state set-up produces no visible events in plain-text
    /// mode; `message_start` waits for the first delta.
    pub fn generate_initial_events(&mut self) -> (out: Vec<SseEvent>)
        requires
            old(self).wf(),
        ensures
            *final(self) == *old(self),
            out@.len() == 0,
    {
        Vec::new()
    }

    /// Translates one upstream event into its SSE events, leading with
    /// `message_start` when this event opens the transcript.
    pub fn process_kiro_event(&mut self, e: &KiroEvent) -> (out: Vec<SseEvent>)
        requires
            old(self).wf(),
        ensures
            final(self).wf(),
            final(self).spec_model_name() == old(self).spec_model_name(),
            final(self).spec_estimate() == old(self).spec_estimate(),
            final(self).spec_fed() == old(self).spec_fed().push(e.model()),
            final(self).spec_emitted() == old(self).spec_emitted() + out@.map_values(
                |x: SseEvent| x.model(),
            ),
    {
        let ghost pre = *self;
        let mut out: Vec<SseEvent> = Vec::new();
        let start_now = !self.st.started && match e {
            KiroEvent::AssistantResponse { .. } => true,
            KiroEvent::ToolUse { .. } => true,
            _ => false,
        };
        if start_now {
            out.push(build_msg_start(self.model_name.as_slice(), self.input_estimate));
        }
        self.apply_event(e, &mut out);
        proof {
            self.fed@ = pre.fed@.push(e.model());
            self.emitted@ = pre.emitted@ + out@.map_values(|x: SseEvent| x.model());
            let fm = |x: SseEvent| x.model();
            assert(run(self.fed@).0 == step_state(run(pre.fed@).0, e.model())) by {
                assert(self.fed@.drop_last() =~= pre.fed@);
                assert(self.fed@.last() == e.model());
            }
            assert(run(self.fed@).1 == run(pre.fed@).1 + step_out(run(pre.fed@).0, e.model())) by {
                assert(self.fed@.drop_last() =~= pre.fed@);
                assert(self.fed@.last() == e.model());
            }
            if start_now {
                assert(out@.map_values(fm) =~= seq![
                    msg_start_ev(pre.model_name@, pre.input_estimate),
                ] + step_out(pre.st, e.model()));
            } else {
                assert(out@.map_values(fm) =~= step_out(pre.st, e.model()));
            }
            assert(self.wf()) by {
                if self.st.started {
                    assert(self.emitted@ =~= seq![
                        msg_start_ev(self.model_name@, self.input_estimate),
                    ] + run(self.fed@).1);
                } else {
                    assert(step_out(pre.st, e.model()) =~= Seq::<SseEventModel>::empty());
                    assert(run(self.fed@).1 =~= Seq::<SseEventModel>::empty());
                    assert(self.emitted@ =~= Seq::<SseEventModel>::empty());
                }
            }
        }
        out
    }

    /// Applies the shared core: pushes this event's SSE events (excluding
    /// `message_start`) and folds the state.
    fn apply_event(&mut self, e: &KiroEvent, out: &mut Vec<SseEvent>)
        ensures
            final(self).st == step_state(old(self).st, e.model()),
            final(out)@.map_values(|x: SseEvent| x.model()) == old(out)@.map_values(
                |x: SseEvent| x.model(),
            ) + step_out(old(self).st, e.model()),
            final(self).model_name == old(self).model_name,
            final(self).input_estimate == old(self).input_estimate,
            final(self).thinking_enabled == old(self).thinking_enabled,
            final(self).fed == old(self).fed,
            final(self).emitted == old(self).emitted,
    {
        apply_core(&mut self.st, e, out);
    }

    /// The closing events: `message_start` first when nothing opened the
    /// transcript yet, any open block closed, then `message_delta` with
    /// the stop reason and the final usage, and `message_stop`.  Together
    /// with everything emitted before, this is the whole transcript.
    pub fn generate_final_events(&self) -> (out: Vec<SseEvent>)
        requires
            self.wf(),
        ensures
            self.spec_emitted() + out@.map_values(|x: SseEvent| x.model()) == spec_transcript(
                self.spec_fed(),
                self.spec_model_name(),
                self.spec_estimate(),
            ),
    {
        proof {
            reveal_strlit("max_tokens");
            reveal_strlit("model_context_window_exceeded");
            reveal_strlit("tool_use");
            reveal_strlit("end_turn");
        }
        let mut out: Vec<SseEvent> = Vec::new();
        if !self.st.started {
            out.push(build_msg_start(self.model_name.as_slice(), self.input_estimate));
        }
        if self.st.tool_open || self.st.text_open {
            out.push(build_cb_stop(self.st.block_index));
        }
        let input = match self.st.upstream_tokens {
            Some(u) => u,
            None => self.input_estimate,
        };
        let output = (self.st.output_bytes / 4) + (if self.st.output_bytes % 4 == 0 {
            0
        } else {
            1
        });
        proof {
            assert(output == output_estimate(self.st)) by {
                assert(self.st.output_bytes / 4 + (if self.st.output_bytes % 4 == 0 {
                    0int
                } else {
                    1int
                }) == ((self.st.output_bytes + 3) / 4) as int);
            }
        }
        let sr: &str = if self.st.max_tokens_stop {
            "max_tokens"
        } else if self.st.context_exceeded {
            "model_context_window_exceeded"
        } else if self.st.has_tool_use {
            "tool_use"
        } else {
            "end_turn"
        };
        out.push(build_message_delta(sr, input, output));
        out.push(build_message_stop());
        proof {
            let fm = |x: SseEvent| x.model();
            if self.st.started {
                assert(self.spec_emitted() + out@.map_values(fm) =~= spec_transcript(
                    self.spec_fed(),
                    self.spec_model_name(),
                    self.spec_estimate(),
                ));
            } else {
                assert(self.spec_emitted() + out@.map_values(fm) =~= spec_transcript(
                    self.spec_fed(),
                    self.spec_model_name(),
                    self.spec_estimate(),
                ));
            }
        }
        out
    }

    /// The final usage pair: the chosen input figure and the output
    /// estimate.
    pub fn final_usage(&self) -> (r: (u64, u64))
        ensures
            r.0 == input_final(self.spec_state(), self.spec_estimate()),
            r.1 == output_estimate(self.spec_state()),
    {
        let input = match self.st.upstream_tokens {
            Some(u) => u,
            None => self.input_estimate,
        };
        let output = (self.st.output_bytes / 4) + (if self.st.output_bytes % 4 == 0 {
            0
        } else {
            1
        });
        proof {
            assert(output == output_estimate(self.st));
        }
        (input, output)
    }

    /// Which figure the final input count came from.
    pub fn token_source(&self) -> (r: &'static str)
        ensures
            self.spec_state().upstream_tokens is Some ==> r@ == "upstream(contextUsageEvent)"@,
            self.spec_state().upstream_tokens is None ==> r@ == "local(estimate)"@,
    {
        match self.st.upstream_tokens {
            Some(_) => "upstream(contextUsageEvent)",
            None => "local(estimate)",
        }
    }
}

/// The shared translation core: pushes one upstream event's SSE events
/// (excluding `message_start`) and folds the state.
fn apply_core(st: &mut StreamState, e: &KiroEvent, out: &mut Vec<SseEvent>)
    ensures
        *final(st) == step_state(*old(st), e.model()),
        final(out)@.map_values(|x: SseEvent| x.model()) == old(out)@.map_values(
            |x: SseEvent| x.model(),
        ) + step_out(*old(st), e.model()),
{
    let ghost pre_out = out@;
    let ghost s0 = *st;
    match e {
            KiroEvent::AssistantResponse { content } => {
                if st.text_open {
                    out.push(build_cbd_text(st.block_index, content.as_slice()));
                } else {
                    if st.tool_open || st.text_open {
                        out.push(build_cb_stop(st.block_index));
                        st.tool_open = false;
                        st.text_open = false;
                        st.block_index = st.block_index.saturating_add(1);
                    }
                    out.push(build_cbs_text(st.block_index));
                    st.text_open = true;
                    out.push(build_cbd_text(st.block_index, content.as_slice()));
                }
                st.started = true;
                st.output_bytes = st.output_bytes.saturating_add(content.len() as u64);
            },
            KiroEvent::ToolUse { tool_use_id, name, input, stop } => {
                if !st.tool_open {
                    if st.text_open {
                        out.push(build_cb_stop(st.block_index));
                        st.tool_open = false;
                        st.text_open = false;
                        st.block_index = st.block_index.saturating_add(1);
                    }
                    out.push(
                        build_cbs_tool(
                            st.block_index,
                            tool_use_id.as_slice(),
                            name.as_slice(),
                        ),
                    );
                    st.tool_open = true;
                }
                out.push(build_cbd_json(st.block_index, input.as_slice()));
                st.started = true;
                st.has_tool_use = true;
                st.output_bytes = st.output_bytes.saturating_add(input.len() as u64);
                if *stop {
                    out.push(build_cb_stop(st.block_index));
                    st.tool_open = false;
                    st.block_index = st.block_index.saturating_add(1);
                }
            },
            KiroEvent::ContextUsage { percent_hundredths } => {
                let ph = *percent_hundredths;
                let cap = u64::MAX / TOKENS_PER_PERCENT_HUNDREDTH;
                st.upstream_tokens = Some(
                    if ph > cap {
                        u64::MAX
                    } else {
                        ph * TOKENS_PER_PERCENT_HUNDREDTH
                    },
                );
                if ph >= 10000 {
                    st.context_exceeded = true;
                }
            },
            KiroEvent::Exception { exception_type } => {
                proof {
                    reveal_strlit("ContentLengthExceededException");
                }
                let lit = lit_bytes("ContentLengthExceededException");
                if bytes_eq(exception_type.as_slice(), lit.as_slice()) {
                    st.max_tokens_stop = true;
                }
            },
            KiroEvent::Unknown => {},
        }
        proof {
            assert(*final(st) == step_state(s0, e.model()));
            assert(out@.map_values(|x: SseEvent| x.model()) =~= pre_out.map_values(
                |x: SseEvent| x.model(),
            ) + step_out(s0, e.model()));
        }
}

// ---------------------------------------------------------------------------
// The buffered context
// ---------------------------------------------------------------------------

/// The buffered SSE context: translates and buffers everything, emitting
/// nothing until the end, when the whole transcript is flushed with
/// `message_start` carrying the final input-token figure.
pub struct BufferedStreamContext {
    model_name: Vec<u8>,
    input_estimate: u64,
    thinking_enabled: bool,
    st: StreamState,
    buffered: Vec<SseEvent>,
    fed: Ghost<Seq<EventModel>>,
}

impl BufferedStreamContext {
    pub closed spec fn spec_fed(self) -> Seq<EventModel> {
        self.fed@
    }

    pub closed spec fn spec_model_name(self) -> Seq<u8> {
        self.model_name@
    }

    pub closed spec fn spec_estimate(self) -> u64 {
        self.input_estimate
    }

    pub closed spec fn spec_state(self) -> StreamState {
        self.st
    }

    pub closed spec fn wf(self) -> bool {
        &&& self.st == run(self.fed@).0
        &&& self.buffered@.map_values(|x: SseEvent| x.model()) == run(self.fed@).1
    }

    pub fn new(model: &str, input_tokens_estimate: u64, thinking_enabled: bool) -> (r: Self)
        ensures
            r.wf(),
            r.spec_fed() == Seq::<EventModel>::empty(),
            r.spec_model_name() == model.spec_bytes(),
            r.spec_estimate() == input_tokens_estimate,
    {
        let r = BufferedStreamContext {
            model_name: model.as_bytes_vec(),
            input_estimate: input_tokens_estimate,
            thinking_enabled,
            st: StreamState {
                started: false,
                text_open: false,
                tool_open: false,
                block_index: 0,
                has_tool_use: false,
                max_tokens_stop: false,
                context_exceeded: false,
                upstream_tokens: None,
                output_bytes: 0,
            },
            buffered: Vec::new(),
            fed: Ghost(Seq::empty()),
        };
        proof {
            assert(r.st == init_state());
            assert(r.buffered@.map_values(|x: SseEvent| x.model()) =~= run(r.fed@).1);
        }
        r
    }

    /// Translates one upstream event and buffers its SSE events.
    pub fn process_and_buffer(&mut self, e: &KiroEvent)
        requires
            old(self).wf(),
        ensures
            final(self).wf(),
            final(self).spec_model_name() == old(self).spec_model_name(),
            final(self).spec_estimate() == old(self).spec_estimate(),
            final(self).spec_fed() == old(self).spec_fed().push(e.model()),
    {
        let ghost pre = *self;
        let mut scratch: Vec<SseEvent> = Vec::new();
        apply_core(&mut self.st, e, &mut scratch);
        let ghost scv = scratch@;
        let mut sc = scratch;
        self.buffered.append(&mut sc);
        proof {
            self.fed@ = pre.fed@.push(e.model());
            assert(self.fed@.drop_last() =~= pre.fed@);
            assert(self.fed@.last() == e.model());
            assert(self.buffered@.map_values(|x: SseEvent| x.model()) =~= run(self.fed@).1) by {
                lemma_map_values_concat(pre.buffered@, scv);
                assert(scv.map_values(|x: SseEvent| x.model()) =~= step_out(pre.st, e.model()));
            }
        }
    }

    /// The chosen input figure and the output estimate.
    pub fn final_usage(&self) -> (r: (u64, u64))
        ensures
            r.0 == input_final(self.spec_state(), self.spec_estimate()),
            r.1 == output_estimate(self.spec_state()),
    {
        let input = match self.st.upstream_tokens {
            Some(u) => u,
            None => self.input_estimate,
        };
        let output = (self.st.output_bytes / 4) + (if self.st.output_bytes % 4 == 0 {
            0
        } else {
            1
        });
        proof {
            assert(output == output_estimate(self.st));
        }
        (input, output)
    }

    /// Which figure the final input count came from.
    pub fn token_source(&self) -> (r: &'static str)
        ensures
            self.spec_state().upstream_tokens is Some ==> r@ == "upstream(contextUsageEvent)"@,
            self.spec_state().upstream_tokens is None ==> r@ == "local(estimate)"@,
    {
        match self.st.upstream_tokens {
            Some(_) => "upstream(contextUsageEvent)",
            None => "local(estimate)",
        }
    }

    /// Flushes the whole transcript in one piece: `message_start` with the
    /// final input-token figure, the buffered body, the closing events.
    pub fn finish_and_get_all_events(self) -> (out: Vec<SseEvent>)
        requires
            self.wf(),
        ensures
            out@.map_values(|x: SseEvent| x.model()) == spec_transcript_buffered(
                self.spec_fed(),
                self.spec_model_name(),
                self.spec_estimate(),
            ),
    {
        proof {
            reveal_strlit("max_tokens");
            reveal_strlit("model_context_window_exceeded");
            reveal_strlit("tool_use");
            reveal_strlit("end_turn");
        }
        let ghost pre = self;
        let input = match self.st.upstream_tokens {
            Some(u) => u,
            None => self.input_estimate,
        };
        let mut out: Vec<SseEvent> = Vec::new();
        out.push(build_msg_start(self.model_name.as_slice(), input));
        let ghost head = out@;
        let mut body = self.buffered;
        out.append(&mut body);
        if self.st.tool_open || self.st.text_open {
            out.push(build_cb_stop(self.st.block_index));
        }
        let output = (self.st.output_bytes / 4) + (if self.st.output_bytes % 4 == 0 {
            0
        } else {
            1
        });
        proof {
            assert(output == output_estimate(self.st));
        }
        let sr: &str = if self.st.max_tokens_stop {
            "max_tokens"
        } else if self.st.context_exceeded {
            "model_context_window_exceeded"
        } else if self.st.has_tool_use {
            "tool_use"
        } else {
            "end_turn"
        };
        out.push(build_message_delta(sr, input, output));
        out.push(build_message_stop());
        proof {
            assert(out@.map_values(|x: SseEvent| x.model()) =~= spec_transcript_buffered(
                pre.spec_fed(),
                pre.spec_model_name(),
                pre.spec_estimate(),
            ));
        }
        out
    }
}

proof fn lemma_map_values_concat(a: Seq<SseEvent>, b: Seq<SseEvent>)
    ensures
        (a + b).map_values(|x: SseEvent| x.model()) == a.map_values(|x: SseEvent| x.model())
            + b.map_values(|x: SseEvent| x.model()),
{
    assert((a + b).map_values(|x: SseEvent| x.model()) =~= a.map_values(|x: SseEvent| x.model())
        + b.map_values(|x: SseEvent| x.model()));
}

// ---------------------------------------------------------------------------
// Non-streaming assembly
// ---------------------------------------------------------------------------

/// One finished tool call in an assembled response.
pub struct ToolUseBlock {
    pub tool_use_id: Vec<u8>,
    pub name: Vec<u8>,
    pub input_json: Vec<u8>,
}

impl ToolUseBlock {
    pub open spec fn model(self) -> (Seq<u8>, Seq<u8>, Seq<u8>) {
        (self.tool_use_id@, self.name@, self.input_json@)
    }
}

/// A non-streaming response assembled from the decoded events.
pub struct AssembledResponse {
    pub text: Vec<u8>,
    pub tool_uses: Vec<ToolUseBlock>,
    pub stop_reason: String,
    pub input_tokens: u64,
    pub output_tokens: u64,
    pub token_source: String,
}

/// The concatenation of every assistant text delta, in order.
pub open spec fn spec_text_concat(events: Seq<EventModel>) -> Seq<u8>
    decreases events.len(),
{
    if events.len() == 0 {
        Seq::empty()
    } else {
        spec_text_concat(events.drop_last()) + (match events.last() {
            EventModel::Assistant { content } => content,
            _ => Seq::<u8>::empty(),
        })
    }
}

/// The finished tool calls: input deltas accumulate on the open call,
/// and `stop` closes it.
pub open spec fn spec_tools_fold(events: Seq<EventModel>) -> (
    Option<(Seq<u8>, Seq<u8>, Seq<u8>)>,
    Seq<(Seq<u8>, Seq<u8>, Seq<u8>)>,
)
    decreases events.len(),
{
    if events.len() == 0 {
        (None, Seq::empty())
    } else {
        let rec = spec_tools_fold(events.drop_last());
        match events.last() {
            EventModel::ToolUse { tool_use_id, name, input, stop } => {
                let cur = match rec.0 {
                    None => (tool_use_id, name, input),
                    Some((i0, n0, b0)) => (i0, n0, b0 + input),
                };
                if stop {
                    (None, rec.1.push(cur))
                } else {
                    (Some(cur), rec.1)
                }
            },
            _ => rec,
        }
    }
}

/// Assembles the non-streaming response: the text is exactly the
/// concatenation of the assistant deltas; the input-token figure is the
/// upstream one when a context-usage event arrived, else the estimate,
/// with the source labelled accordingly; the stop reason follows the
/// fixed precedence.
pub fn assemble_response(events: &Vec<KiroEvent>, estimated_input: u64) -> (r: AssembledResponse)
    ensures
        r.text@ == spec_text_concat(events@.map_values(|e: KiroEvent| e.model())),
        r.tool_uses@.map_values(|t: ToolUseBlock| t.model()) == spec_tools_fold(
            events@.map_values(|e: KiroEvent| e.model()),
        ).1,
        r.input_tokens == input_final(
            run(events@.map_values(|e: KiroEvent| e.model())).0,
            estimated_input,
        ),
        r.output_tokens == output_estimate(run(events@.map_values(|e: KiroEvent| e.model())).0),
        r.stop_reason@ == stop_reason_of(run(events@.map_values(|e: KiroEvent| e.model())).0),
        run(events@.map_values(|e: KiroEvent| e.model())).0.upstream_tokens is Some ==> r.token_source@
            == "upstream(contextUsageEvent)"@,
        run(events@.map_values(|e: KiroEvent| e.model())).0.upstream_tokens is None ==> r.token_source@
            == "local(estimate)"@,
{
    let ghost ms = events@.map_values(|e: KiroEvent| e.model());
    let mut st = StreamState {
        started: false,
        text_open: false,
        tool_open: false,
        block_index: 0,
        has_tool_use: false,
        max_tokens_stop: false,
        context_exceeded: false,
        upstream_tokens: None,
        output_bytes: 0,
    };
    let mut text: Vec<u8> = Vec::new();
    let mut done: Vec<ToolUseBlock> = Vec::new();
    let mut open_id: Vec<u8> = Vec::new();
    let mut open_name: Vec<u8> = Vec::new();
    let mut open_buf: Vec<u8> = Vec::new();
    let mut is_open = false;
    let n = events.len();
    let mut i: usize = 0;
    proof {
        assert(st == init_state());
        assert(ms.take(0) =~= Seq::<EventModel>::empty());
    }
    while i < n
        invariant
            n == events@.len(),
            ms == events@.map_values(|e: KiroEvent| e.model()),
            i <= n,
            st == run(ms.take(i as int)).0,
            text@ == spec_text_concat(ms.take(i as int)),
            done@.map_values(|t: ToolUseBlock| t.model()) == spec_tools_fold(ms.take(i as int)).1,
            is_open ==> spec_tools_fold(ms.take(i as int)).0 == Some(
                (open_id@, open_name@, open_buf@),
            ),
            !is_open ==> spec_tools_fold(ms.take(i as int)).0 is None,
        decreases n - i,
    {
        let e = &events[i];
        proof {
            assert(ms.take(i + 1).drop_last() =~= ms.take(i as int));
            assert(ms.take(i + 1).last() == ms[i as int]);
            assert(ms[i as int] == e.model());
        }
        let mut scratch: Vec<SseEvent> = Vec::new();
        apply_core(&mut st, e, &mut scratch);
        match e {
            KiroEvent::AssistantResponse { content } => {
                append_bytes(&mut text, content.as_slice());
            },
            KiroEvent::ToolUse { tool_use_id, name, input, stop } => {
                if !is_open {
                    open_id = copy_bytes(tool_use_id.as_slice());
                    open_name = copy_bytes(name.as_slice());
                    open_buf = copy_bytes(input.as_slice());
                    is_open = true;
                } else {
                    append_bytes(&mut open_buf, input.as_slice());
                }
                if *stop {
                    let ghost dpre = done@;
                    done.push(
                        ToolUseBlock {
                            tool_use_id: copy_bytes(open_id.as_slice()),
                            name: copy_bytes(open_name.as_slice()),
                            input_json: copy_bytes(open_buf.as_slice()),
                        },
                    );
                    is_open = false;
                    proof {
                        assert(done@.map_values(|t: ToolUseBlock| t.model()) =~= dpre.map_values(
                            |t: ToolUseBlock| t.model(),
                        ).push((open_id@, open_name@, open_buf@)));
                    }
                }
            },
            _ => {},
        }
        i = i + 1;
    }
    proof {
        assert(ms.take(n as int) =~= ms);
        reveal_strlit("max_tokens");
        reveal_strlit("model_context_window_exceeded");
        reveal_strlit("tool_use");
        reveal_strlit("end_turn");
        reveal_strlit("upstream(contextUsageEvent)");
        reveal_strlit("local(estimate)");
    }
    let input = match st.upstream_tokens {
        Some(u) => u,
        None => estimated_input,
    };
    let source: &str = match st.upstream_tokens {
        Some(_) => "upstream(contextUsageEvent)",
        None => "local(estimate)",
    };
    let output = (st.output_bytes / 4) + (if st.output_bytes % 4 == 0 {
        0
    } else {
        1
    });
    proof {
        assert(output == output_estimate(st));
    }
    let sr: &str = if st.max_tokens_stop {
        "max_tokens"
    } else if st.context_exceeded {
        "model_context_window_exceeded"
    } else if st.has_tool_use {
        "tool_use"
    } else {
        "end_turn"
    };
    AssembledResponse {
        text,
        tool_uses: done,
        stop_reason: String::from_str(sr),
        input_tokens: input,
        output_tokens: output,
        token_source: String::from_str(source),
    }
}

/// Copies a byte slice into a fresh vector.
fn copy_bytes(s: &[u8]) -> (r: Vec<u8>)
    ensures
        r@ == s@,
{
    let mut out: Vec<u8> = Vec::new();
    append_bytes(&mut out, s);
    proof {
        assert(out@ =~= s@);
    }
    out
}

/// The buffered transcript equals the incremental transcript with
/// `message_start` re-stated to carry the final input-token figure; both
/// open with `message_start` before every other event.
pub proof fn lemma_buffered_matches_incremental(
    events: Seq<EventModel>,
    model: Seq<u8>,
    estimate: u64,
)
    ensures
        spec_transcript(events, model, estimate)[0] == msg_start_ev(model, estimate),
        spec_transcript_buffered(events, model, estimate)[0] == msg_start_ev(
            model,
            input_final(run(events).0, estimate),
        ),
        spec_transcript_buffered(events, model, estimate) == seq![
            msg_start_ev(model, input_final(run(events).0, estimate)),
        ] + spec_transcript(events, model, estimate).drop_first(),
{
    assert(spec_transcript(events, model, estimate).drop_first() =~= run(events).1 + finish_out(
        run(events).0,
        estimate,
    ));
    assert(spec_transcript_buffered(events, model, estimate) =~= seq![
        msg_start_ev(model, input_final(run(events).0, estimate)),
    ] + spec_transcript(events, model, estimate).drop_first());
}

} // verus!
