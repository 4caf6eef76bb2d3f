use serde_json::Value;
use vybim::lsp::transport::{encode, frame, FrameDecoder};

#[test]
fn decodes_a_single_frame() {
    let mut d = FrameDecoder::new();
    d.push(&frame(br#"{"a":1}"#));
    assert_eq!(d.next_body().unwrap(), br#"{"a":1}"#);
    assert!(d.next_body().is_none());
}

#[test]
fn decodes_header_split_across_reads() {
    let full = frame(br#"{"hello":"world"}"#);
    let (a, b) = full.split_at(10); // split mid-header
    let mut d = FrameDecoder::new();
    d.push(a);
    assert!(d.next_body().is_none()); // header incomplete
    d.push(b);
    assert_eq!(d.next_body().unwrap(), br#"{"hello":"world"}"#);
}

#[test]
fn decodes_body_split_across_reads() {
    let full = frame(br#"{"n":42}"#);
    let split = full.len() - 3;
    let (a, b) = full.split_at(split); // split mid-body
    let mut d = FrameDecoder::new();
    d.push(a);
    assert!(d.next_body().is_none());
    d.push(b);
    assert_eq!(d.next_body().unwrap(), br#"{"n":42}"#);
}

#[test]
fn decodes_multiple_messages_in_one_buffer() {
    let mut d = FrameDecoder::new();
    let mut stream = frame(br#"{"i":1}"#);
    stream.extend(frame(br#"{"i":2}"#));
    d.push(&stream);
    assert_eq!(d.next_body().unwrap(), br#"{"i":1}"#);
    assert_eq!(d.next_body().unwrap(), br#"{"i":2}"#);
    assert!(d.next_body().is_none());
}

#[test]
fn a_frame_states_the_length_of_its_body() {
    assert_eq!(frame(b"{}"), b"Content-Length: 2\r\n\r\n{}");
    assert_eq!(frame(b""), b"Content-Length: 0\r\n\r\n");
}

#[test]
fn messages_are_written_as_json_in_a_frame() {
    assert_eq!(encode(&Value::Null), b"Content-Length: 4\r\n\r\nnull");
    assert_eq!(encode(&Value::from(-12)), b"Content-Length: 3\r\n\r\n-12");
    let body: Value = serde_json::from_str(r#"{"jsonrpc":"2.0","params":["\u00e9",true]}"#).unwrap();
    let mut d = FrameDecoder::new();
    d.push(&encode(&body));
    let bytes = d.next_body().unwrap();
    let read: Value = serde_json::from_slice(&bytes).unwrap();
    assert_eq!(read, body);
    assert!(d.next_body().is_none());
}

#[test]
fn headers_may_be_lower_case_and_among_others() {
    let mut d = FrameDecoder::new();
    d.push(b"Content-Type: x\r\ncontent-length:  3 \r\n\r\nabcrest");
    assert_eq!(d.next_body().unwrap(), b"abc");
    assert!(d.next_body().is_none());
}

#[test]
fn a_header_without_a_length_yields_nothing() {
    for header in ["X: 1\r\n\r\nabc", "Content-Length: 3x\r\n\r\nabc", "CONTENT-LENGTH: 3\r\n\r\nabc"] {
        let mut d = FrameDecoder::new();
        d.push(header.as_bytes());
        assert!(d.next_body().is_none(), "{header}");
    }
}

#[test]
fn a_frame_arrives_byte_by_byte() {
    let full = frame(b"{\"k\":1}");
    let mut d = FrameDecoder::new();
    for (i, byte) in full.iter().enumerate() {
        assert!(d.next_body().is_none(), "{i}");
        d.push(&[*byte]);
    }
    assert_eq!(d.next_body().unwrap(), b"{\"k\":1}");
}

#[test]
fn a_stream_comes_out_whole_in_any_chunks() {
    let bodies: [&[u8]; 5] = [b"{}", b"", b"a\r\n\r\nb", b"Content-Length: 3\r\n\r\nxyz", b"z"];
    let stream: Vec<u8> = bodies.iter().flat_map(|b| frame(b)).collect();
    for size in 1..stream.len() + 1 {
        let mut d = FrameDecoder::new();
        let mut got: Vec<Vec<u8>> = Vec::new();
        for (i, chunk) in stream.chunks(size).enumerate() {
            d.push(chunk);
            // Asked for now and then, and not more often than that.
            if i % 3 != 1 {
                got.extend(d.next_body());
            }
        }
        while let Some(body) = d.next_body() {
            got.push(body);
        }
        assert_eq!(got, bodies, "{size}");
        // Nothing is held back.
        d.push(&frame(b"last"));
        assert_eq!(d.next_body().unwrap(), b"last");
    }
}
