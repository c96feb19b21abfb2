//! Single-shot SHA-1 over a caller-padded buffer, and the handshake key
//! derivation `Sec-WebSocket-Accept = Base64(SHA1(key ++ GUID))`.
use vstd::prelude::*;
use vstd::string::StringSliceAdditionalSpecFns;

verus! {

/// Left rotation of a 32-bit word by `n` bits, `0 < n < 32`.
pub open spec fn rotl(x: u32, n: u32) -> u32
    recommends
        0 < n < 32,
{
    (x << n) | (x >> ((32 - n) as u32))
}

/// The round-dependent mixing function.
pub open spec fn sha_f(t: int, b: u32, c: u32, d: u32) -> u32 {
    if t < 20 {
        (b & c) | (!b & d)
    } else if t < 40 {
        b ^ c ^ d
    } else if t < 60 {
        (b & c) | (b & d) | (c & d)
    } else {
        b ^ c ^ d
    }
}

/// The round-dependent constant.
pub open spec fn sha_k(t: int) -> u32 {
    if t < 20 {
        0x5A827999
    } else if t < 40 {
        0x6ED9EBA1
    } else if t < 60 {
        0x8F1BBCDC
    } else {
        0xCA62C1D6
    }
}

/// A big-endian 32-bit word from four bytes.
pub open spec fn be_word(b0: u8, b1: u8, b2: u8, b3: u8) -> u32 {
    ((b0 as u32) << 24) | ((b1 as u32) << 16) | ((b2 as u32) << 8) | (b3 as u32)
}

/// The big-endian 32-bit words of a byte sequence (length a multiple of 4).
pub open spec fn be_words(bytes: Seq<u8>) -> Seq<u32> {
    Seq::new(
        bytes.len() / 4,
        |i: int| be_word(bytes[4 * i], bytes[4 * i + 1], bytes[4 * i + 2], bytes[4 * i + 3]),
    )
}

/// Word `t` of the 80-word message schedule of one 16-word chunk.
pub open spec fn sha_w(chunk: Seq<u32>, t: int) -> u32
    recommends
        chunk.len() == 16,
        0 <= t < 80,
    decreases t,
{
    if t < 16 {
        chunk[t]
    } else {
        rotl(
            sha_w(chunk, t - 3) ^ sha_w(chunk, t - 8) ^ sha_w(chunk, t - 14) ^ sha_w(chunk, t - 16),
            1,
        )
    }
}

/// The five working registers after `t` rounds over one chunk, starting
/// from state `h`.
pub open spec fn sha_rounds(h: Seq<u32>, chunk: Seq<u32>, t: int) -> (u32, u32, u32, u32, u32)
    recommends
        h.len() == 5,
        chunk.len() == 16,
        0 <= t <= 80,
    decreases t,
{
    if t <= 0 {
        (h[0], h[1], h[2], h[3], h[4])
    } else {
        let (a, b, c, d, e) = sha_rounds(h, chunk, t - 1);
        let temp = rotl(a, 5).wrapping_add(sha_f(t - 1, b, c, d)).wrapping_add(e).wrapping_add(
            sha_w(chunk, t - 1),
        ).wrapping_add(sha_k(t - 1));
        (temp, a, rotl(b, 30), c, d)
    }
}

/// The hash state after absorbing one 16-word chunk.
pub open spec fn sha_process_chunk(h: Seq<u32>, chunk: Seq<u32>) -> Seq<u32> {
    let (a, b, c, d, e) = sha_rounds(h, chunk, 80);
    seq![
        h[0].wrapping_add(a),
        h[1].wrapping_add(b),
        h[2].wrapping_add(c),
        h[3].wrapping_add(d),
        h[4].wrapping_add(e),
    ]
}

/// The hash state after absorbing every 16-word chunk of `words`.
pub open spec fn sha_process(h: Seq<u32>, words: Seq<u32>) -> Seq<u32>
    decreases words.len(),
{
    if words.len() < 16 {
        h
    } else {
        sha_process(sha_process_chunk(h, words.take(16)), words.skip(16))
    }
}

/// The initial hash state.
pub open spec fn sha_h0() -> Seq<u32> {
    seq![0x67452301u32, 0xEFCDAB89u32, 0x98BADCFEu32, 0x10325476u32, 0xC3D2E1F0u32]
}

/// Big-endian 8-byte encoding of a 64-bit value.
pub open spec fn be64(x: u64) -> Seq<u8> {
    seq![
        ((x >> 56) & 0xff) as u8,
        ((x >> 48) & 0xff) as u8,
        ((x >> 40) & 0xff) as u8,
        ((x >> 32) & 0xff) as u8,
        ((x >> 24) & 0xff) as u8,
        ((x >> 16) & 0xff) as u8,
        ((x >> 8) & 0xff) as u8,
        (x & 0xff) as u8,
    ]
}

/// The padded length of an `n`-byte message: the next 64-byte boundary
/// with room for the `0x80` marker and the 8-byte bit length.
pub open spec fn spec_sha1_blocks_len(n: nat) -> nat {
    ((n + 8) / 64 + 1) * 64
}

/// The padded message: `0x80`, zeros to the last block, and the bit length.
pub open spec fn sha1_padded(msg: Seq<u8>) -> Seq<u8>
    recommends
        msg.len() * 8 <= u64::MAX,
{
    msg + seq![0x80u8] + Seq::new((spec_sha1_blocks_len(msg.len()) - msg.len() - 9) as nat, |i: int| 0u8)
        + be64((msg.len() * 8) as u64)
}

/// Big-endian 4-byte encoding of a 32-bit word.
pub open spec fn be32(x: u32) -> Seq<u8> {
    seq![((x >> 24) & 0xff) as u8, ((x >> 16) & 0xff) as u8, ((x >> 8) & 0xff) as u8, (x
        & 0xff) as u8]
}

/// Big-endian serialisation of the five-word state into 20 bytes.
pub open spec fn be_state_bytes(h: Seq<u32>) -> Seq<u8> {
    be32(h[0]) + be32(h[1]) + be32(h[2]) + be32(h[3]) + be32(h[4])
}

/// The SHA-1 digest of a message.
pub open spec fn spec_sha1(msg: Seq<u8>) -> Seq<u8> {
    be_state_bytes(sha_process(sha_h0(), be_words(sha1_padded(msg))))
}

/// The round-dependent mixing function.
fn f(t: u32, b: u32, c: u32, d: u32) -> (r: u32)
    ensures
        r == sha_f(t as int, b, c, d),
{
    match t {
        0..=19 => (b & c) | (!b & d),
        20..=39 | 60..=79 => b ^ c ^ d,
        40..=59 => (b & c) | (b & d) | (c & d),
        _ => b ^ c ^ d,
    }
}

/// The round-dependent constant.
fn k(t: u32) -> (r: u32)
    ensures
        r == sha_k(t as int),
{
    match t {
        0..=19 => 0x5A827999,
        20..=39 => 0x6ED9EBA1,
        40..=59 => 0x8F1BBCDC,
        _ => 0xCA62C1D6,
    }
}

/// The buffer length `sha1` expects for an `n`-byte message.
pub fn sha1_blocks_len(len: usize) -> (r: usize)
    requires
        spec_sha1_blocks_len(len as nat) <= usize::MAX,
    ensures
        r == spec_sha1_blocks_len(len as nat),
{
    (((len + 8) / 64) + 1) * 64
}

/// Left rotation of a 32-bit word by `n` bits.
fn rotl_word(x: u32, n: u32) -> (r: u32)
    requires
        0 < n < 32,
    ensures
        r == rotl(x, n),
{
    (x << n) | (x >> (32 - n))
}

/// Computes the SHA-1 digest of the first `len` bytes of `input`.
///
/// The buffer must have the padded length `spec_sha1_blocks_len(len)` and
/// hold zeros between the message and the 8-byte trailer; the `0x80`
/// marker and the big-endian bit length are written in place.
pub fn sha1(input: &mut Vec<u8>, len: usize) -> (digest: Vec<u8>)
    requires
        old(input)@.len() == spec_sha1_blocks_len(len as nat),
        (len as nat) * 8 <= u64::MAX,
        forall|i: int| len < i < old(input)@.len() - 8 ==> old(input)@[i] == 0,
    ensures
        digest@ == spec_sha1(old(input)@.take(len as int)),
        digest@.len() == 20,
{
    let ghost msg = old(input)@.take(len as int);
    let blocks_len = input.len();
    proof {
        vstd::arithmetic::div_mod::lemma_fundamental_div_mod((len + 8) as int, 64);
        assert(blocks_len >= len + 9);
        assert(blocks_len % 64 == 0) by {
            vstd::arithmetic::div_mod::lemma_mod_multiples_basic(
                ((len + 8) / 64 + 1) as int,
                64,
            );
        }
    }
    input[len] = 0x80;
    let bits: u64 = (len as u64) * 8;
    input[blocks_len - 8] = ((bits >> 56) & 0xff) as u8;
    input[blocks_len - 7] = ((bits >> 48) & 0xff) as u8;
    input[blocks_len - 6] = ((bits >> 40) & 0xff) as u8;
    input[blocks_len - 5] = ((bits >> 32) & 0xff) as u8;
    input[blocks_len - 4] = ((bits >> 24) & 0xff) as u8;
    input[blocks_len - 3] = ((bits >> 16) & 0xff) as u8;
    input[blocks_len - 2] = ((bits >> 8) & 0xff) as u8;
    input[blocks_len - 1] = (bits & 0xff) as u8;
    proof {
        let pd = sha1_padded(msg);
        assert forall|i: int| 0 <= i < blocks_len implies input@[i] == pd[i] by {
            if i < len {
                assert(pd[i] == msg[i]);
            } else if i == len {
                assert(pd[i] == 0x80u8);
            } else if i < blocks_len - 8 {
                assert(pd[i] == 0u8);
            } else {
                assert(pd[i] == be64((msg.len() * 8) as u64)[i - (blocks_len - 8)]);
            }
        }
        assert(input@ =~= sha1_padded(msg));
    }
    let ghost words = be_words(input@);
    let ghost padded = input@;
    proof {
        assert(words.skip(0) =~= words);
        assert(words.len() * 4 == blocks_len) by {
            vstd::arithmetic::div_mod::lemma_fundamental_div_mod(blocks_len as int, 4);
            vstd::arithmetic::div_mod::lemma_mod_mod(blocks_len as int, 4, 16);
        }
    }
    let mut h0: u32 = 0x67452301;
    let mut h1: u32 = 0xEFCDAB89;
    let mut h2: u32 = 0x98BADCFE;
    let mut h3: u32 = 0x10325476;
    let mut h4: u32 = 0xC3D2E1F0;
    let mut base: usize = 0;
    let mut wbase: usize = 0;
    while base < blocks_len
        invariant
            input@ == padded,
            padded.len() == blocks_len,
            4 * wbase == base,
            base <= blocks_len,
            words == be_words(padded),
            words.len() * 4 == blocks_len,
            blocks_len % 64 == 0,
            base % 64 == 0,
            sha_process(sha_h0(), words) == sha_process(
                seq![h0, h1, h2, h3, h4],
                words.skip(wbase as int),
            ),
        decreases blocks_len - base,
    {
        assert(base + 64 <= blocks_len) by {
            vstd::arithmetic::div_mod::lemma_fundamental_div_mod(base as int, 64);
            vstd::arithmetic::div_mod::lemma_fundamental_div_mod(blocks_len as int, 64);
        }
        let ghost chunk = words.subrange(wbase as int, wbase as int + 16);
        let mut w: Vec<u32> = Vec::new();
        let mut t: usize = 0;
        while t < 16
            invariant
                input@ == padded,
                padded.len() == blocks_len,
                words == be_words(padded),
                words.len() * 4 == blocks_len,
                4 * wbase == base,
                base + 64 <= blocks_len,
                chunk == words.subrange(wbase as int, wbase as int + 16),
                t <= 16,
                w@.len() == t,
                forall|j: int| 0 <= j < t ==> w@[j] == sha_w(chunk, j),
            decreases 16 - t,
        {
            let p = base + 4 * t;
            let b0 = input[p];
            let b1 = input[p + 1];
            let b2 = input[p + 2];
            let b3 = input[p + 3];
            let word = ((b0 as u32) << 24) | ((b1 as u32) << 16) | ((b2 as u32) << 8) | (b3
                as u32);
            proof {
                assert(4 * (wbase as int + t) == p);
                assert(chunk[t as int] == words[wbase as int + t]);
                assert(words[wbase as int + t] == be_word(
                    padded[p as int],
                    padded[p as int + 1],
                    padded[p as int + 2],
                    padded[p as int + 3],
                ));
            }
            let ghost wpre = w@;
            w.push(word);
            proof {
                assert(word == be_word(
                    padded[p as int],
                    padded[p as int + 1],
                    padded[p as int + 2],
                    padded[p as int + 3],
                ));
                assert(chunk[t as int] == word);
                assert forall|j: int| 0 <= j < t + 1 implies w@[j] == sha_w(chunk, j) by {
                    if j < t {
                        assert(w@[j] == wpre[j]);
                    } else {
                        assert(w@[j] == word);
                        assert(sha_w(chunk, j) == chunk[j]);
                    }
                }
            }
            t += 1;
        }
        while t < 80
            invariant
                16 <= t <= 80,
                w@.len() == t,
                forall|j: int| 0 <= j < t ==> w@[j] == sha_w(chunk, j),
            decreases 80 - t,
        {
            let x = w[t - 3] ^ w[t - 8] ^ w[t - 14] ^ w[t - 16];
            let r = rotl_word(x, 1);
            let ghost wpre = w@;
            w.push(r);
            proof {
                assert(x == sha_w(chunk, t - 3) ^ sha_w(chunk, t - 8) ^ sha_w(chunk, t - 14)
                    ^ sha_w(chunk, t - 16));
                assert(sha_w(chunk, t as int) == rotl(
                    sha_w(chunk, t - 3) ^ sha_w(chunk, t - 8) ^ sha_w(chunk, t - 14) ^ sha_w(
                        chunk,
                        t - 16,
                    ),
                    1,
                ));
                assert forall|j: int| 0 <= j < t + 1 implies w@[j] == sha_w(chunk, j) by {
                    if j < t {
                        assert(w@[j] == wpre[j]);
                    } else {
                        assert(w@[j] == r);
                    }
                }
            }
            t += 1;
        }
        let mut a = h0;
        let mut b = h1;
        let mut c = h2;
        let mut d = h3;
        let mut e = h4;
        let ghost hseq = seq![h0, h1, h2, h3, h4];
        let mut t: usize = 0;
        while t < 80
            invariant
                t <= 80,
                w@.len() == 80,
                forall|j: int| 0 <= j < 80 ==> w@[j] == sha_w(chunk, j),
                (a, b, c, d, e) == sha_rounds(hseq, chunk, t as int),
            decreases 80 - t,
        {
            let temp = rotl_word(a, 5).wrapping_add(f(t as u32, b, c, d)).wrapping_add(
                e,
            ).wrapping_add(w[t]).wrapping_add(k(t as u32));
            e = d;
            d = c;
            c = rotl_word(b, 30);
            b = a;
            a = temp;
            t += 1;
        }
        h0 = h0.wrapping_add(a);
        h1 = h1.wrapping_add(b);
        h2 = h2.wrapping_add(c);
        h3 = h3.wrapping_add(d);
        h4 = h4.wrapping_add(e);
        proof {
            let rest = words.skip(wbase as int);
            assert(rest.take(16) =~= chunk);
            assert(rest.skip(16) =~= words.skip(wbase as int + 16));
            assert(seq![h0, h1, h2, h3, h4] =~= sha_process_chunk(hseq, chunk));
        }
        base += 64;
        wbase += 16;
    }
    proof {
        assert(words.skip(wbase as int) =~= Seq::<u32>::empty());
    }
    let mut digest: Vec<u8> = Vec::new();
    digest.push(((h0 >> 24) & 0xff) as u8);
    digest.push(((h0 >> 16) & 0xff) as u8);
    digest.push(((h0 >> 8) & 0xff) as u8);
    digest.push((h0 & 0xff) as u8);
    digest.push(((h1 >> 24) & 0xff) as u8);
    digest.push(((h1 >> 16) & 0xff) as u8);
    digest.push(((h1 >> 8) & 0xff) as u8);
    digest.push((h1 & 0xff) as u8);
    digest.push(((h2 >> 24) & 0xff) as u8);
    digest.push(((h2 >> 16) & 0xff) as u8);
    digest.push(((h2 >> 8) & 0xff) as u8);
    digest.push((h2 & 0xff) as u8);
    digest.push(((h3 >> 24) & 0xff) as u8);
    digest.push(((h3 >> 16) & 0xff) as u8);
    digest.push(((h3 >> 8) & 0xff) as u8);
    digest.push((h3 & 0xff) as u8);
    digest.push(((h4 >> 24) & 0xff) as u8);
    digest.push(((h4 >> 16) & 0xff) as u8);
    digest.push(((h4 >> 8) & 0xff) as u8);
    digest.push((h4 & 0xff) as u8);
    proof {
        assert(digest@ =~= be_state_bytes(seq![h0, h1, h2, h3, h4]));
    }
    digest
}

/// The bytes of the GUID `258EAFA5-E914-47DA-95CA-C5AB0DC85B11` that the
/// handshake appends to the client key.
pub open spec fn ws_key_guid_bytes() -> Seq<u8> {
    seq![
        50u8, 53, 56, 69, 65, 70, 65, 53, 45, 69, 57, 49, 52, 45, 52, 55, 68, 65, 45, 57, 53, 67,
        65, 45, 67, 53, 65, 66, 48, 68, 67, 56, 53, 66, 49, 49,
    ]
}

/// The GUID as a byte vector.
pub fn ws_key_guid() -> (r: Vec<u8>)
    ensures
        r@ == ws_key_guid_bytes(),
{
    let mut g: Vec<u8> = Vec::new();
    g.push(50);
    g.push(53);
    g.push(56);
    g.push(69);
    g.push(65);
    g.push(70);
    g.push(65);
    g.push(53);
    g.push(45);
    g.push(69);
    g.push(57);
    g.push(49);
    g.push(52);
    g.push(45);
    g.push(52);
    g.push(55);
    g.push(68);
    g.push(65);
    g.push(45);
    g.push(57);
    g.push(53);
    g.push(67);
    g.push(65);
    g.push(45);
    g.push(67);
    g.push(53);
    g.push(65);
    g.push(66);
    g.push(48);
    g.push(68);
    g.push(67);
    g.push(56);
    g.push(53);
    g.push(66);
    g.push(49);
    g.push(49);
    assert(g@ =~= ws_key_guid_bytes());
    g
}

/// The accept value derived from a client key: the padded standard Base64
/// encoding of the SHA-1 digest of the key's bytes followed by the GUID.
pub open spec fn spec_accept_key(key_bytes: Seq<u8>) -> Seq<u8> {
    crate::base64::b64_encode(
        crate::base64::std_charset(),
        true,
        spec_sha1(key_bytes + ws_key_guid_bytes()),
    )
}

/// Derives the `Sec-WebSocket-Accept` value from a `Sec-WebSocket-Key`
/// value. The same derivation lets a client verify the accept header.
pub fn process_sec_websocket_key(key: &str) -> (r: Vec<u8>)
    requires
        spec_sha1_blocks_len(key.spec_bytes().len() + 36) <= usize::MAX,
        (key.spec_bytes().len() + 36) * 8 <= u64::MAX,
    ensures
        r@ == spec_accept_key(key.spec_bytes()),
        r@.len() == 28,
{
    let kb = key.as_bytes();
    let n = kb.len() + 36;
    let blocks_len = sha1_blocks_len(n);
    let mut blocks: Vec<u8> = vec![0u8; blocks_len];
    crate::write_bytes(&mut blocks, 0, kb);
    let guid = ws_key_guid();
    crate::write_bytes(&mut blocks, kb.len(), guid.as_slice());
    let ghost msg = kb@ + ws_key_guid_bytes();
    proof {
        assert(blocks@.take(n as int) =~= msg);
    }
    let digest = sha1(&mut blocks, n);
    proof {
        assert(digest@ == spec_sha1(msg));
    }
    let codec = crate::base64::Base64Codec::standard(true);
    let out = codec.encode(digest.as_slice());
    out
}

} // verus!
