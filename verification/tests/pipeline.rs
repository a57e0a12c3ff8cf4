use kiro_rs::events::assistant_event_type_bytes;
use kiro_rs::events::context_usage_event_type_bytes;
use kiro_rs::events::encode_assistant_payload;
use kiro_rs::events::encode_single_header;
use kiro_rs::events::event_type_key_bytes;
use kiro_rs::events::from_frame;
use kiro_rs::events::KiroEvent;
use kiro_rs::frames::encode_frame;
use kiro_rs::frames::EventStreamDecoder;
use kiro_rs::sse::assemble_response;
use kiro_rs::sse::ping_event;
use kiro_rs::sse::BufferedStreamContext;
use kiro_rs::sse::StreamContext;

fn assistant_frame(content: &[u8]) -> Vec<u8> {
    let headers = encode_single_header(
        event_type_key_bytes().as_slice(),
        assistant_event_type_bytes().as_slice(),
    );
    let payload = encode_assistant_payload(content);
    encode_frame(headers.as_slice(), payload.as_slice())
}

fn context_usage_frame(number_text: &str) -> Vec<u8> {
    let headers = encode_single_header(
        event_type_key_bytes().as_slice(),
        context_usage_event_type_bytes().as_slice(),
    );
    let mut payload = b"{\"contextUsagePercentage\":".to_vec();
    payload.extend_from_slice(number_text.as_bytes());
    payload.push(b'}');
    encode_frame(headers.as_slice(), payload.as_slice())
}

#[test]
fn decoder_reassembles_frames_across_chunks() {
    let f1 = assistant_frame(b"Hello, ");
    let f2 = assistant_frame(b"world");
    let mut bytes = f1.clone();
    bytes.extend_from_slice(&f2);

    let mut d = EventStreamDecoder::new();
    let mid = bytes.len() / 2;
    d.feed(&bytes[..mid]).unwrap();
    let mut frames = d.decode_ready();
    d.feed(&bytes[mid..]).unwrap();
    frames.extend(d.decode_ready());

    assert_eq!(frames.len(), 2);
    match from_frame(&frames[0]) {
        KiroEvent::AssistantResponse { content } => assert_eq!(content, b"Hello, ".to_vec()),
        _ => panic!("expected assistant event"),
    }
    match from_frame(&frames[1]) {
        KiroEvent::AssistantResponse { content } => assert_eq!(content, b"world".to_vec()),
        _ => panic!("expected assistant event"),
    }
}

#[test]
fn assistant_content_escapes_round_trip() {
    let content = b"line1\nhas \"quotes\" and \\slashes\\";
    let frame = assistant_frame(content);
    let mut d = EventStreamDecoder::new();
    d.feed(&frame).unwrap();
    let frames = d.decode_ready();
    assert_eq!(frames.len(), 1);
    match from_frame(&frames[0]) {
        KiroEvent::AssistantResponse { content: c } => assert_eq!(c, content.to_vec()),
        _ => panic!("expected assistant event"),
    }
}

#[test]
fn transcoded_response_text_is_delta_concatenation() {
    // the round trip from framed deltas back to the assembled text
    let parts: [&[u8]; 3] = [b"The ", b"quick fox", b" jumps."];
    let mut bytes: Vec<u8> = Vec::new();
    for p in parts.iter() {
        bytes.extend_from_slice(&assistant_frame(p));
    }
    let mut d = EventStreamDecoder::new();
    d.feed(&bytes).unwrap();
    let mut events: Vec<KiroEvent> = Vec::new();
    for f in d.decode_ready() {
        events.push(from_frame(&f));
    }
    let r = assemble_response(&events, 7);
    assert_eq!(r.text, b"The quick fox jumps.".to_vec());
    assert_eq!(r.stop_reason, "end_turn");
    assert_eq!(r.input_tokens, 7);
    assert_eq!(r.token_source, "local(estimate)");
}

#[test]
fn context_usage_overrides_estimate() {
    // upstream reports 42.5 percent of the 200000-token window
    let mut bytes = assistant_frame(b"ok");
    bytes.extend_from_slice(&context_usage_frame("42.5"));
    let mut d = EventStreamDecoder::new();
    d.feed(&bytes).unwrap();
    let mut events: Vec<KiroEvent> = Vec::new();
    for f in d.decode_ready() {
        events.push(from_frame(&f));
    }
    let r = assemble_response(&events, 12345);
    assert_eq!(r.input_tokens, 85000);
    assert_eq!(r.token_source, "upstream(contextUsageEvent)");
}

#[test]
fn exception_sets_max_tokens_stop() {
    let events = vec![
        KiroEvent::AssistantResponse { content: b"partial".to_vec() },
        KiroEvent::Exception { exception_type: b"ContentLengthExceededException".to_vec() },
    ];
    let r = assemble_response(&events, 1);
    assert_eq!(r.stop_reason, "max_tokens");
}

#[test]
fn tool_use_sets_stop_reason_and_collects_blocks() {
    let events = vec![
        KiroEvent::ToolUse {
            tool_use_id: b"t1".to_vec(),
            name: b"search".to_vec(),
            input: b"{\"q\":".to_vec(),
            stop: false,
        },
        KiroEvent::ToolUse {
            tool_use_id: b"t1".to_vec(),
            name: b"search".to_vec(),
            input: b"\"cats\"}".to_vec(),
            stop: true,
        },
    ];
    let r = assemble_response(&events, 1);
    assert_eq!(r.stop_reason, "tool_use");
    assert_eq!(r.tool_uses.len(), 1);
    assert_eq!(r.tool_uses[0].tool_use_id, b"t1".to_vec());
    assert_eq!(r.tool_uses[0].input_json, b"{\"q\":\"cats\"}".to_vec());
}

#[test]
fn incremental_transcript_shape() {
    let mut ctx = StreamContext::new_with_thinking("test-model", 10, false);
    assert!(ctx.generate_initial_events().is_empty());
    let out1 = ctx.process_kiro_event(&KiroEvent::AssistantResponse { content: b"hi".to_vec() });
    // message_start, content_block_start, content_block_delta
    assert_eq!(out1.len(), 3);
    assert_eq!(out1[0].name, b"message_start".to_vec());
    assert_eq!(out1[1].name, b"content_block_start".to_vec());
    assert_eq!(out1[2].name, b"content_block_delta".to_vec());
    let out2 = ctx.process_kiro_event(&KiroEvent::AssistantResponse { content: b"!".to_vec() });
    assert_eq!(out2.len(), 1);
    let fin = ctx.generate_final_events();
    assert_eq!(fin[fin.len() - 1].name, b"message_stop".to_vec());
    let (input, output) = ctx.final_usage();
    assert_eq!(input, 10);
    assert_eq!(output, 1);
    assert_eq!(ctx.token_source(), "local(estimate)");
}

#[test]
fn buffered_transcript_matches_incremental_after_substitution() {
    let events = vec![
        KiroEvent::AssistantResponse { content: b"alpha".to_vec() },
        KiroEvent::ContextUsage { percent_hundredths: 4250 },
        KiroEvent::AssistantResponse { content: b"beta".to_vec() },
    ];

    let mut inc = StreamContext::new_with_thinking("m", 10, false);
    let mut inc_events = Vec::new();
    for e in &events {
        inc_events.extend(inc.process_kiro_event(e));
    }
    inc_events.extend(inc.generate_final_events());

    let mut buf = BufferedStreamContext::new("m", 10, false);
    for e in &events {
        buf.process_and_buffer(e);
    }
    let buf_events = buf.finish_and_get_all_events();

    assert_eq!(inc_events.len(), buf_events.len());
    // both transcripts open with message_start; only its input-token
    // figure differs (estimate vs upstream)
    assert_eq!(inc_events[0].name, b"message_start".to_vec());
    assert_eq!(buf_events[0].name, b"message_start".to_vec());
    assert!(String::from_utf8(inc_events[0].data.clone()).unwrap().contains("\"input_tokens\":10"));
    assert!(
        String::from_utf8(buf_events[0].data.clone()).unwrap().contains("\"input_tokens\":85000")
    );
    for i in 1..inc_events.len() {
        assert_eq!(inc_events[i].name, buf_events[i].name);
        assert_eq!(inc_events[i].data, buf_events[i].data);
    }
}

#[test]
fn ping_event_wire_form() {
    let p = ping_event();
    let bytes = p.to_sse_bytes();
    assert_eq!(bytes, b"event: ping\ndata: {\"type\": \"ping\"}\n\n".to_vec());
}

#[test]
fn decoder_overflow_resets() {
    let mut d = EventStreamDecoder::new();
    let chunk = vec![0u8; 3000000];
    assert!(d.feed(&chunk).is_ok());
    // a second large chunk overflows the cap and resets the buffer
    assert!(d.feed(&chunk).is_err());
    assert!(d.feed(&assistant_frame(b"x")).is_ok());
    let frames = d.decode_ready();
    assert_eq!(frames.len(), 1);
}
