use ws_framer::crypto::{sha1, sha1_blocks_len};
use ws_framer::process_sec_websocket_key;

#[test]
fn validate_sec_ws_key() {
    assert_eq!(
        process_sec_websocket_key("dGhlIHNhbXBsZSBub25jZQ=="),
        b"s3pPLMBiTxaQ9kYGzzhZRbK+xOo=".to_vec()
    );
}

#[test]
fn sha1_abc_digest() {
    let msg = b"abc";
    let blocks_len = sha1_blocks_len(msg.len());
    let mut buf = vec![0u8; blocks_len];
    buf[..3].copy_from_slice(msg);
    let digest = sha1(&mut buf, msg.len());
    let expected: Vec<u8> = vec![
        0xa9, 0x99, 0x3e, 0x36, 0x47, 0x06, 0x81, 0x6a, 0xba, 0x3e, 0x25, 0x71, 0x78, 0x50, 0xc2,
        0x6c, 0x9c, 0xd0, 0xd8, 0x9d,
    ];
    assert_eq!(digest, expected);
}

#[test]
fn sha1_empty_digest() {
    let blocks_len = sha1_blocks_len(0);
    assert_eq!(blocks_len, 64);
    let mut buf = vec![0u8; blocks_len];
    let digest = sha1(&mut buf, 0);
    let expected: Vec<u8> = vec![
        0xda, 0x39, 0xa3, 0xee, 0x5e, 0x6b, 0x4b, 0x0d, 0x32, 0x55, 0xbf, 0xef, 0x95, 0x60, 0x18,
        0x90, 0xaf, 0xd8, 0x07, 0x09,
    ];
    assert_eq!(digest, expected);
}
