use ws_framer::framer::HttpHeader;
use ws_framer::{RngProvider, WsFrame, WsFrameHeader, WsFrameOwned, WsRxFramer, WsTxFramer};

/// A deterministic source for the tests: the masking key `AA BB CC DD`,
/// repeated as far as needed.
struct FixedRng;

impl RngProvider for FixedRng {
    fn random_buf(n: usize) -> Vec<u8> {
        let pattern = [0xAAu8, 0xBB, 0xCC, 0xDD];
        (0..n).map(|i| pattern[i % 4]).collect()
    }
}

fn client_tx() -> WsTxFramer<FixedRng> {
    WsTxFramer::new(true, vec![0u8; 1 << 17])
}

fn server_tx() -> WsTxFramer<FixedRng> {
    WsTxFramer::new(false, vec![0u8; 1 << 17])
}

fn feed(rx: &mut WsRxFramer, bytes: &[u8]) {
    let n = rx.write_tail(bytes);
    assert_eq!(n, bytes.len());
    rx.revolve_write_offset(n);
}

#[test]
fn client_text_round_trip() {
    let mut tx = client_tx();
    let n = tx.text("Lorem");
    assert_eq!(
        tx.written(n),
        &[0x81, 0x85, 0xAA, 0xBB, 0xCC, 0xDD, 0xE6, 0xD4, 0xBE, 0xB8, 0xC7]
    );

    let mut rx = WsRxFramer::new(vec![0u8; 1024]);
    feed(&mut rx, tx.written(n));
    match rx.process_data() {
        Some(WsFrameOwned::Text(s)) => assert_eq!(s, "Lorem"),
        other => panic!("expected a text frame, got {other:?}"),
    }
}

#[test]
fn chunked_ingest_yields_frame_only_at_the_end() {
    let mut tx = client_tx();
    let n = tx.text("Lorem");
    assert_eq!(n, 11);
    let wire = tx.written(n).to_vec();

    let mut rx = WsRxFramer::new(vec![0u8; 1024]);
    feed(&mut rx, &wire[0..2]);
    assert!(rx.process_data().is_none());
    feed(&mut rx, &wire[2..5]);
    assert!(rx.process_data().is_none());
    feed(&mut rx, &wire[5..11]);
    match rx.process_data() {
        Some(WsFrameOwned::Text(s)) => assert_eq!(s, "Lorem"),
        other => panic!("expected a text frame, got {other:?}"),
    }
    assert!(rx.process_data().is_none());
}

#[test]
fn sixteen_bit_length_boundary() {
    let mut tx = server_tx();
    let n = tx.binary(&vec![7u8; 126]);
    assert_eq!(&tx.written(n)[..4], &[0x82, 0x7E, 0x00, 0x7E]);

    let n = tx.binary(&vec![7u8; 125]);
    assert_eq!(&tx.written(n)[..2], &[0x82, 0x7D]);

    let n = tx.binary(&vec![7u8; 65535]);
    assert_eq!(&tx.written(n)[..4], &[0x82, 0x7E, 0xFF, 0xFF]);

    let n = tx.binary(&vec![7u8; 65536]);
    assert_eq!(
        &tx.written(n)[..10],
        &[0x82, 0x7F, 0x00, 0x00, 0x00, 0x00, 0x00, 0x01, 0x00, 0x00]
    );
}

#[test]
fn close_frame_carries_code_and_reason() {
    let mut tx = server_tx();
    let n = tx.close(1000, "bye");
    assert_eq!(tx.written(n), &[0x88, 0x05, 0x03, 0xE8, 0x62, 0x79, 0x65]);

    let mut rx = WsRxFramer::new(vec![0u8; 256]);
    feed(&mut rx, &[0x88, 0x05, 0x03, 0xE8, 0x62, 0x79, 0x65]);
    match rx.process_data() {
        Some(WsFrameOwned::Close(code, reason)) => {
            assert_eq!(code, 1000);
            assert_eq!(reason, "bye");
        },
        other => panic!("expected a close frame, got {other:?}"),
    }
}

#[test]
fn masked_close_round_trip() {
    let mut tx = client_tx();
    let n = tx.close(1002, "why");
    let wire = tx.written(n).to_vec();
    assert_eq!(wire.len(), 2 + 4 + 5);

    let mut rx = WsRxFramer::new(vec![0u8; 256]);
    feed(&mut rx, &wire);
    match rx.process_data() {
        Some(WsFrameOwned::Close(code, reason)) => {
            assert_eq!(code, 1002);
            assert_eq!(reason, "why");
        },
        other => panic!("expected a close frame, got {other:?}"),
    }
}

#[test]
fn ping_pong_binary_round_trips() {
    let mut tx = client_tx();
    let mut rx = WsRxFramer::new(vec![0u8; 4096]);

    let n = tx.ping(&[1, 2, 3]);
    feed(&mut rx, tx.written(n));
    let n = tx.pong(&[4, 5]);
    feed(&mut rx, tx.written(n));
    let n = tx.binary(&vec![9u8; 300]);
    feed(&mut rx, tx.written(n));

    match rx.process_data() {
        Some(WsFrameOwned::Ping(v)) => assert_eq!(v, vec![1, 2, 3]),
        other => panic!("expected a ping frame, got {other:?}"),
    }
    match rx.process_data() {
        Some(WsFrameOwned::Pong(v)) => assert_eq!(v, vec![4, 5]),
        other => panic!("expected a pong frame, got {other:?}"),
    }
    match rx.process_data() {
        Some(WsFrameOwned::Binary(v)) => assert_eq!(v, vec![9u8; 300]),
        other => panic!("expected a binary frame, got {other:?}"),
    }
    assert!(rx.process_data().is_none());
}

#[test]
fn unknown_opcode_is_surfaced() {
    let mut rx = WsRxFramer::new(vec![0u8; 64]);
    feed(&mut rx, &[0x83, 0x01, 0xFF]);
    assert!(matches!(rx.process_data(), Some(WsFrameOwned::Unknown)));
}

#[test]
fn generate_packet_writes_given_header() {
    let mut tx = server_tx();
    let header = WsFrameHeader {
        fin: true,
        rsv1: false,
        rsv2: false,
        rsv3: false,
        opcode: 2,
        mask: false,
        masking_key: [0, 0, 0, 0],
        payload_len: 3,
        offset: 0,
    };
    let n = tx.generate_packet(&header, &[10, 20, 30]);
    assert_eq!(tx.written(n), &[0x82, 0x03, 10, 20, 30]);
}

#[test]
fn generate_ws_frame_masks_payload() {
    let header = WsFrameHeader {
        fin: true,
        rsv1: false,
        rsv2: false,
        rsv3: false,
        opcode: 1,
        mask: true,
        masking_key: [0xAA, 0xBB, 0xCC, 0xDD],
        payload_len: 5,
        offset: 0,
    };
    let mut buf = vec![0u8; 64];
    let n = ws_framer::client::generate_ws_frame(&header, b"Lorem", &mut buf);
    assert_eq!(n, 11);
    assert_eq!(
        &buf[..n],
        &[0x81, 0x85, 0xAA, 0xBB, 0xCC, 0xDD, 0xE6, 0xD4, 0xBE, 0xB8, 0xC7]
    );
}

#[test]
fn parse_ws_frame_header_round_trip() {
    let wire = [0x81u8, 0x85, 0xAA, 0xBB, 0xCC, 0xDD, 0xE6, 0xD4, 0xBE, 0xB8, 0xC7];
    let (header, rest) = ws_framer::server::parse_ws_frame_header(&wire);
    assert!(header.fin);
    assert_eq!(header.opcode, 1);
    assert!(header.mask);
    assert_eq!(header.masking_key, [0xAA, 0xBB, 0xCC, 0xDD]);
    assert_eq!(header.payload_len, 5);
    assert_eq!(header.offset, 6);
    let mut payload = rest.to_vec();
    ws_framer::server::parse_payload(&mut payload, &header);
    assert_eq!(payload, b"Lorem".to_vec());
}

#[test]
fn ws_message_from_data() {
    let wire = [0x81u8, 0x85, 0xAA, 0xBB, 0xCC, 0xDD, 0xE6, 0xD4, 0xBE, 0xB8, 0xC7];
    let (header, rest) = ws_framer::server::parse_ws_frame_header(&wire);
    let mut payload = rest.to_vec();
    match ws_framer::structs::WsMessage::from_data(&header, &mut payload) {
        ws_framer::structs::WsMessage::Text(s) => assert_eq!(s, "Lorem"),
        other => panic!("expected a text message, got {other:?}"),
    }

    let ping_wire = [0x89u8, 0x02, 7, 8];
    let (header, rest) = ws_framer::server::parse_ws_frame_header(&ping_wire);
    let mut payload = rest.to_vec();
    let msg = ws_framer::structs::WsMessage::from_data(&header, &mut payload);
    assert!(matches!(msg, ws_framer::structs::WsMessage::Binary(v) if v == vec![7, 8]));
}

#[test]
fn ws_frame_opcode_and_data() {
    assert_eq!(WsFrame::Text("hi").opcode(), 1);
    assert_eq!(WsFrame::Binary(&[1]).opcode(), 2);
    assert_eq!(WsFrame::Close(1000, "x").opcode(), 8);
    assert_eq!(WsFrame::Ping(&[]).opcode(), 9);
    assert_eq!(WsFrame::Pong(&[]).opcode(), 10);
    assert_eq!(WsFrame::Unknown.opcode(), 0);

    assert_eq!(WsFrame::Text("hi").data(), b"hi");
    assert_eq!(WsFrame::Close(1000, "bye").data(), b"bye");
    assert_eq!(WsFrame::Unknown.data(), b"");

    let owned = WsFrameOwned::Text(String::from("hi"));
    match owned.into_ref() {
        WsFrame::Text(s) => assert_eq!(s, "hi"),
        other => panic!("expected a text frame, got {other:?}"),
    }
    assert_eq!(owned.opcode(), 1);
}

#[test]
fn upgrade_request_has_expected_shape() {
    let mut tx = client_tx();
    let n = tx.generate_http_upgrade("example.test:80", "/chat", None);
    let text = String::from_utf8(tx.written(n).to_vec()).unwrap();
    assert!(text.starts_with("GET /chat HTTP/1.1\r\n"));
    assert!(text.contains("Connection: Upgrade\r\n"));
    assert!(text.contains("Upgrade: websocket\r\n"));
    assert!(text.contains("Sec-WebSocket-Version: 13\r\n"));
    assert!(text.contains("Host: example.test:80\r\n"));
    assert!(text.contains("Sec-WebSocket-Key: qrvM3aq7zN2qu8zdqrvM3Q==\r\n"));
    assert!(text.ends_with("\r\n\r\n"));
}

#[test]
fn upgrade_request_appends_extra_headers() {
    let mut tx = client_tx();
    let extra = [HttpHeader { name: "Origin", value: b"http://example.test" }];
    let n = tx.generate_http_upgrade("h", "/", Some(&extra));
    let text = String::from_utf8(tx.written(n).to_vec()).unwrap();
    assert!(text.contains("Origin: http://example.test\r\n"));
}

#[test]
fn response_head_has_expected_shape() {
    let mut tx = server_tx();
    let headers = [
        HttpHeader { name: "Upgrade", value: b"websocket" },
        HttpHeader { name: "Sec-WebSocket-Accept", value: b"s3pPLMBiTxaQ9kYGzzhZRbK+xOo=" },
    ];
    let n = tx.generate_http_response(101, "Switching Protocols", &headers);
    let text = String::from_utf8(tx.written(n).to_vec()).unwrap();
    assert_eq!(
        text,
        "HTTP/1.1 101 Switching Protocols\r\nUpgrade: websocket\r\nSec-WebSocket-Accept: s3pPLMBiTxaQ9kYGzzhZRbK+xOo=\r\n\r\n"
    );
}

#[test]
fn process_http_response_parses_and_compacts() {
    let mut rx = WsRxFramer::new(vec![0u8; 2048]);
    let head = b"HTTP/1.1 101 Switching Protocols\r\nUpgrade: websocket\r\n\r\n";
    let frame = [0x89u8, 0x00];
    let mut wire = head.to_vec();
    wire.extend_from_slice(&frame);
    let n = rx.write_tail(&wire);
    assert_eq!(rx.process_http_response(n), Some(101));
    assert!(matches!(rx.process_data(), Some(WsFrameOwned::Ping(v)) if v.is_empty()));
}

#[test]
fn process_http_response_waits_for_partial_head() {
    let mut rx = WsRxFramer::new(vec![0u8; 1024]);
    let n = rx.write_tail(b"HTTP/1.1 101 Swi");
    assert_eq!(rx.process_http_response(n), None);
    let n = rx.write_tail(b"tching Protocols\r\n\r\n");
    assert_eq!(rx.process_http_response(n), Some(101));
}

#[test]
fn process_http_response_respects_content_length() {
    let mut rx = WsRxFramer::new(vec![0u8; 1024]);
    let n = rx.write_tail(b"HTTP/1.1 200 OK\r\nContent-Length: 4\r\n\r\nbo");
    assert_eq!(rx.process_http_response(n), None);
    let n = rx.write_tail(b"dy");
    assert_eq!(rx.process_http_response(n), Some(200));
}

#[test]
fn reset_drops_buffered_bytes() {
    let mut rx = WsRxFramer::new(vec![0u8; 64]);
    feed(&mut rx, &[0x82, 0x05, 1, 2]);
    assert!(rx.process_data().is_none());
    rx.reset();
    feed(&mut rx, &[0x82, 0x01, 9]);
    assert!(matches!(rx.process_data(), Some(WsFrameOwned::Binary(v)) if v == vec![9]));
}

#[test]
fn emission_then_next_call_compacts() {
    let mut tx = client_tx();
    let mut rx = WsRxFramer::new(vec![0u8; 1024]);
    let n1 = tx.text("Lorem");
    let first = tx.written(n1).to_vec();
    let n2 = tx.binary(&[1, 2, 3]);
    let second = tx.written(n2).to_vec();
    feed(&mut rx, &first);
    feed(&mut rx, &second);
    assert_eq!(rx.buffered_len(), first.len() + second.len());

    assert!(matches!(rx.process_data(), Some(WsFrameOwned::Text(_))));
    // The consumed frame stays until the next mutating call compacts it.
    assert_eq!(rx.buffered_len(), first.len() + second.len());
    assert!(matches!(rx.process_data(), Some(WsFrameOwned::Binary(_))));
    // That call compacted: only the second frame's bytes remain counted.
    assert_eq!(rx.buffered_len(), second.len());
    assert!(rx.process_data().is_none());
    assert_eq!(rx.buffered_len(), 0);
}

#[test]
fn handshake_sizes_are_consistent() {
    let c = ws_framer::base64::Base64Codec::standard(true);
    assert_eq!(c.encode_len(16), ws_framer::consts::WS_KEY_B64_LEN);
    assert_eq!(c.encode_len(20), ws_framer::consts::PROCESSED_WS_KEY_B64_LEN);
    assert_eq!(
        ws_framer::consts::WS_HASH_LEN,
        ws_framer::consts::WS_KEY_B64_LEN + 36
    );
    assert_eq!(
        ws_framer::crypto::sha1_blocks_len(ws_framer::consts::WS_HASH_LEN),
        ws_framer::consts::SHA1_BLOCKS_LEN
    );
    assert_eq!(ws_framer::consts::U16_MAX, u16::MAX as usize);
}

#[test]
fn process_http_response_treats_malformed_head_as_partial() {
    let mut rx = WsRxFramer::new(vec![0u8; 256]);
    let n = rx.write_tail(b"NOT-HTTP garbage\r\n\r\n");
    assert_eq!(rx.process_http_response(n), None);
    assert_eq!(rx.buffered_len(), 20);
}

#[test]
fn sixty_four_bit_length_ingest() {
    let mut tx = server_tx();
    let payload = vec![0x42u8; 65536];
    let n = tx.binary(&payload);
    let wire = tx.written(n).to_vec();
    assert_eq!(wire.len(), 10 + 65536);

    let mut rx = WsRxFramer::new(vec![0u8; 1 << 17]);
    feed(&mut rx, &wire[..9]);
    assert!(rx.process_data().is_none());
    feed(&mut rx, &wire[9..]);
    match rx.process_data() {
        Some(WsFrameOwned::Binary(v)) => assert_eq!(v, payload),
        other => panic!("expected a binary frame, got {other:?}"),
    }
}
