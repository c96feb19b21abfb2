use ws_framer::base64::Base64Codec;

const STD_CHARSET: &[u8] = b"ABCDEFGHIJKLMNOPQRSTUVWXYZabcdefghijklmnopqrstuvwxyz0123456789+/";

#[test]
fn standard_matches_new() {
    let a = Base64Codec::standard(true);
    let b = Base64Codec::new(STD_CHARSET, true).unwrap();
    assert_eq!(a.encode(b"any text"), b.encode(b"any text"));
}

#[test]
fn encode_known_vectors() {
    let c = Base64Codec::standard(true);
    assert_eq!(c.encode(b""), b"".to_vec());
    assert_eq!(c.encode(b"f"), b"Zg==".to_vec());
    assert_eq!(c.encode(b"fo"), b"Zm8=".to_vec());
    assert_eq!(c.encode(b"foo"), b"Zm9v".to_vec());
    assert_eq!(c.encode(b"foob"), b"Zm9vYg==".to_vec());
    assert_eq!(c.encode(b"fooba"), b"Zm9vYmE=".to_vec());
    assert_eq!(c.encode(b"foobar"), b"Zm9vYmFy".to_vec());
}

#[test]
fn encode_unpadded_known_vectors() {
    let c = Base64Codec::standard(false);
    assert_eq!(c.encode(b"f"), b"Zg".to_vec());
    assert_eq!(c.encode(b"fo"), b"Zm8".to_vec());
    assert_eq!(c.encode(b"foo"), b"Zm9v".to_vec());
}

#[test]
fn decode_inverts_encode() {
    for pad in [false, true] {
        let c = Base64Codec::standard(pad);
        for n in 0..130usize {
            let m: Vec<u8> = (0..n).map(|i| (i * 37 + n) as u8).collect();
            let e = c.encode(&m);
            assert_eq!(c.decode(&e), Some(m));
        }
    }
}

#[test]
fn encode_len_matches_encode() {
    for pad in [false, true] {
        let c = Base64Codec::standard(pad);
        for n in 0..128usize {
            let m = vec![0xA5u8; n];
            assert_eq!(c.encode_len(n), c.encode(&m).len());
        }
    }
}

#[test]
fn decode_len_values() {
    let p = Base64Codec::standard(true);
    assert_eq!(p.decode_len(8), 6);
    let u = Base64Codec::standard(false);
    assert_eq!(u.decode_len(8), 6);
    assert_eq!(u.decode_len(3), 2);
}

#[test]
fn decode_rejects_invalid_character() {
    let c = Base64Codec::standard(true);
    assert_eq!(c.decode(b"Zm9*"), None);
}

#[test]
fn decode_stops_at_padding() {
    let c = Base64Codec::standard(true);
    assert_eq!(c.decode(b"Zg==****"), Some(b"f".to_vec()));
}

#[test]
fn new_rejects_bad_charsets() {
    assert!(Base64Codec::new(b"ABC", true).is_none());
    let mut dup = STD_CHARSET.to_vec();
    dup[1] = b'A';
    assert!(Base64Codec::new(&dup, true).is_none());
    let mut pad_char = STD_CHARSET.to_vec();
    pad_char[63] = b'=';
    assert!(Base64Codec::new(&pad_char, true).is_none());
}

#[test]
fn slice_variants_match() {
    let c = Base64Codec::standard(true);
    let mut out = vec![0u8; 16];
    c.encode_slice(b"hello", &mut out);
    assert_eq!(&out[..8], b"aGVsbG8=");
    assert_eq!(&out[8..], &[0u8; 8]);

    let mut dec = vec![0u8; 16];
    let n = c.decode_slice(b"aGVsbG8=", &mut dec).unwrap();
    assert_eq!(n, 5);
    assert_eq!(&dec[..5], b"hello");
    assert_eq!(c.decode_slice(b"a*", &mut dec), None);
}
