//! A WebSocket framing core: frame emission and streaming frame parsing,
//! the HTTP/1.1 upgrade handshake, and the supporting primitives
//! (SHA-1, a parametric Base64 codec, a `ws://` URL parser).
use vstd::prelude::*;

pub mod base64;

pub use crypto::process_sec_websocket_key;
pub use framer::{RngProvider, WsRxFramer, WsTxFramer};
pub use url::{WsUrl, WsUrlOwned};

pub mod client;
pub mod consts;
pub mod crypto;
pub mod framer;
pub mod server;
pub mod structs;
pub mod url;

verus! {

/// Copies `src` into `dst` starting at `off`, leaving every other byte
/// unchanged.
pub fn write_bytes(dst: &mut Vec<u8>, off: usize, src: &[u8])
    requires
        off + src@.len() <= old(dst)@.len(),
    ensures
        final(dst)@.len() == old(dst)@.len(),
        forall|i: int| 0 <= i < off ==> final(dst)@[i] == old(dst)@[i],
        forall|i: int| 0 <= i < src@.len() ==> final(dst)@[off + i] == src@[i],
        forall|i: int|
            off + src@.len() <= i < old(dst)@.len() ==> final(dst)@[i] == old(dst)@[i],
{
    let dl = dst.len();
    let mut k: usize = 0;
    while k < src.len()
        invariant
            k <= src@.len(),
            off + src@.len() <= dst@.len(),
            dl == dst@.len(),
            dst@.len() == old(dst)@.len(),
            forall|t: int| 0 <= t < k ==> dst@[off + t] == src@[t],
            forall|t: int|
                0 <= t < dst@.len() && !(off <= t < off + k) ==> dst@[t] == old(dst)@[t],
        decreases src@.len() - k,
    {
        let b = src[k];
        dst[off + k] = b;
        k += 1;
    }
}

/// A WebSocket frame header, as carried on the wire.
#[derive(Debug, Clone)]
pub struct WsFrameHeader {
    pub fin: bool,
    pub rsv1: bool,
    pub rsv2: bool,
    pub rsv3: bool,
    pub opcode: u8,
    pub mask: bool,
    pub masking_key: [u8; 4],
    pub payload_len: usize,
    /// Byte offset at which the payload begins (number of header bytes).
    pub offset: usize,
}

/// A parsed frame header in mathematical form.
pub struct HeaderModel {
    pub fin: bool,
    pub rsv1: bool,
    pub rsv2: bool,
    pub rsv3: bool,
    pub opcode: u8,
    pub mask: bool,
    pub key: Seq<u8>,
    pub payload_len: nat,
    pub offset: nat,
}

impl WsFrameHeader {
    /// The mathematical view of this header.
    pub open spec fn model(&self) -> HeaderModel {
        HeaderModel {
            fin: self.fin,
            rsv1: self.rsv1,
            rsv2: self.rsv2,
            rsv3: self.rsv3,
            opcode: self.opcode,
            mask: self.mask,
            key: self.masking_key@,
            payload_len: self.payload_len as nat,
            offset: self.offset as nat,
        }
    }
}

/// Big-endian 2-byte value from two bytes.
pub open spec fn be16val(b0: u8, b1: u8) -> u16 {
    ((b0 as u16) << 8) | (b1 as u16)
}

/// Big-endian 8-byte value from eight bytes.
pub open spec fn be64val(b0: u8, b1: u8, b2: u8, b3: u8, b4: u8, b5: u8, b6: u8, b7: u8) -> u64 {
    ((b0 as u64) << 56) | ((b1 as u64) << 48) | ((b2 as u64) << 40) | ((b3 as u64) << 32) | ((b4
        as u64) << 24) | ((b5 as u64) << 16) | ((b6 as u64) << 8) | (b7 as u64)
}

/// Big-endian 2-byte encoding of a 16-bit value.
pub open spec fn be16(x: u16) -> Seq<u8> {
    seq![((x >> 8) & 0xff) as u8, (x & 0xff) as u8]
}

/// The first wire byte of a frame: flags and opcode.
pub open spec fn first_byte(h: WsFrameHeader) -> u8 {
    (if h.fin {
        0x80u8
    } else {
        0u8
    }) | (if h.rsv1 {
        0x40u8
    } else {
        0u8
    }) | (if h.rsv2 {
        0x20u8
    } else {
        0u8
    }) | (if h.rsv3 {
        0x10u8
    } else {
        0u8
    }) | (h.opcode & 0x0f)
}

/// The mask-bit-plus-length byte for a short value `v`.
pub open spec fn len_byte(mask: bool, v: u8) -> u8 {
    (if mask {
        0x80u8
    } else {
        0u8
    }) | v
}

/// The wire encoding of a payload length: the canonical 7-bit, 16-bit or
/// 64-bit form, the shortest that holds the value.
pub open spec fn len_bytes(mask: bool, n: nat) -> Seq<u8> {
    if n <= 125 {
        seq![len_byte(mask, n as u8)]
    } else if n <= 65535 {
        seq![len_byte(mask, 126)] + be16(n as u16)
    } else {
        seq![len_byte(mask, 127)] + crate::crypto::be64(n as u64)
    }
}

/// The number of header bytes ahead of the payload.
pub open spec fn spec_header_len(mask: bool, n: nat) -> nat {
    1 + len_bytes(mask, n).len() + (if mask {
        4nat
    } else {
        0nat
    })
}

/// The header bytes of a frame.
pub open spec fn header_bytes(h: WsFrameHeader) -> Seq<u8> {
    seq![first_byte(h)] + len_bytes(h.mask, h.payload_len as nat) + (if h.mask {
        h.masking_key@
    } else {
        Seq::empty()
    })
}

/// The payload XORed against the 4-byte key, position-wise.
pub open spec fn mask_bytes(key: Seq<u8>, data: Seq<u8>) -> Seq<u8> {
    Seq::new(data.len(), |i: int| data[i] ^ key[i % 4])
}

/// The full wire bytes of a frame carrying payload `data`.
pub open spec fn frame_bytes(h: WsFrameHeader, data: Seq<u8>) -> Seq<u8> {
    header_bytes(h) + (if h.mask {
        mask_bytes(h.masking_key@, data)
    } else {
        data
    })
}

/// The header parse of buffered bytes: `None` while bytes are missing or
/// when the announced length does not fit the machine.
pub open spec fn spec_parse_header(d: Seq<u8>) -> Option<HeaderModel> {
    if d.len() < 2 {
        None
    } else {
        let b0 = d[0];
        let b1 = d[1];
        let mask = b1 & 0x80 == 0x80;
        let short = b1 & 0x7f;
        let ext: int = if short == 126 {
            2
        } else if short == 127 {
            8
        } else {
            0
        };
        let off = 2 + ext + (if mask {
            4int
        } else {
            0int
        });
        if d.len() < off {
            None
        } else {
            let plen: int = if short == 126 {
                be16val(d[2], d[3]) as int
            } else if short == 127 {
                be64val(d[2], d[3], d[4], d[5], d[6], d[7], d[8], d[9]) as int
            } else {
                short as int
            };
            if plen > usize::MAX - off {
                None
            } else {
                Some(
                    HeaderModel {
                        fin: b0 & 0x80 == 0x80,
                        rsv1: b0 & 0x40 == 0x40,
                        rsv2: b0 & 0x20 == 0x20,
                        rsv3: b0 & 0x10 == 0x10,
                        opcode: b0 & 0x0f,
                        mask,
                        key: if mask {
                            d.subrange(off - 4, off)
                        } else {
                            seq![0u8, 0u8, 0u8, 0u8]
                        },
                        payload_len: plen as nat,
                        offset: off as nat,
                    },
                )
            }
        }
    }
}

/// A frame value in mathematical form.
pub enum FrameModel {
    Text(Seq<char>),
    Binary(Seq<u8>),
    Close(u16, Seq<char>),
    Ping(Seq<u8>),
    Pong(Seq<u8>),
    Unknown,
}

/// A WebSocket frame; the payload borrows the caller's data or the receive
/// framer's buffer.
#[derive(Debug, Clone)]
pub enum WsFrame<'a> {
    Text(&'a str),
    Binary(&'a [u8]),
    Close(u16, &'a str),
    Ping(&'a [u8]),
    Pong(&'a [u8]),
    Unknown,
}

/// A WebSocket frame that owns its payload.
#[derive(Debug, Clone)]
pub enum WsFrameOwned {
    Text(String),
    Binary(Vec<u8>),
    Close(u16, String),
    Ping(Vec<u8>),
    Pong(Vec<u8>),
    Unknown,
}

impl<'a> View for WsFrame<'a> {
    type V = FrameModel;

    open spec fn view(&self) -> FrameModel {
        match self {
            WsFrame::Text(s) => FrameModel::Text(s@),
            WsFrame::Binary(b) => FrameModel::Binary(b@),
            WsFrame::Close(code, reason) => FrameModel::Close(*code, reason@),
            WsFrame::Ping(b) => FrameModel::Ping(b@),
            WsFrame::Pong(b) => FrameModel::Pong(b@),
            WsFrame::Unknown => FrameModel::Unknown,
        }
    }
}

impl View for WsFrameOwned {
    type V = FrameModel;

    open spec fn view(&self) -> FrameModel {
        match self {
            WsFrameOwned::Text(s) => FrameModel::Text(s@),
            WsFrameOwned::Binary(b) => FrameModel::Binary(b@),
            WsFrameOwned::Close(code, reason) => FrameModel::Close(*code, reason@),
            WsFrameOwned::Ping(b) => FrameModel::Ping(b@),
            WsFrameOwned::Pong(b) => FrameModel::Pong(b@),
            WsFrameOwned::Unknown => FrameModel::Unknown,
        }
    }
}

/// The opcode of a frame value.
pub open spec fn spec_opcode(m: FrameModel) -> u8 {
    match m {
        FrameModel::Text(_) => 1,
        FrameModel::Binary(_) => 2,
        FrameModel::Close(_, _) => 8,
        FrameModel::Ping(_) => 9,
        FrameModel::Pong(_) => 10,
        FrameModel::Unknown => 0,
    }
}

/// The data bytes of a frame value: the UTF-8 bytes of a text frame or a
/// close reason, the bytes themselves otherwise.
pub open spec fn spec_frame_data(m: FrameModel) -> Seq<u8> {
    match m {
        FrameModel::Text(s) => vstd::utf8::encode_utf8(s),
        FrameModel::Binary(b) => b,
        FrameModel::Close(_, reason) => vstd::utf8::encode_utf8(reason),
        FrameModel::Ping(b) => b,
        FrameModel::Pong(b) => b,
        FrameModel::Unknown => Seq::empty(),
    }
}

/// The frame value that an opcode and an (unmasked) payload decode to.
/// A text frame or a close reason that is not valid UTF-8, or a close
/// payload shorter than its 2-byte status code, decodes to `Unknown`.
pub open spec fn frame_model_of(opcode: u8, p: Seq<u8>) -> FrameModel {
    if opcode == 1 {
        if vstd::utf8::valid_utf8(p) {
            FrameModel::Text(vstd::utf8::decode_utf8(p))
        } else {
            FrameModel::Unknown
        }
    } else if opcode == 2 {
        FrameModel::Binary(p)
    } else if opcode == 8 {
        if p.len() >= 2 && vstd::utf8::valid_utf8(p.skip(2)) {
            FrameModel::Close(be16val(p[0], p[1]), vstd::utf8::decode_utf8(p.skip(2)))
        } else {
            FrameModel::Unknown
        }
    } else if opcode == 9 {
        FrameModel::Ping(p)
    } else if opcode == 10 {
        FrameModel::Pong(p)
    } else {
        FrameModel::Unknown
    }
}

/// Relies on `core::str::from_utf8`: it returns `Ok` exactly on valid
/// UTF-8 input, and the returned view decodes those same bytes.
#[verifier::external_body]
fn utf8_str(v: &[u8]) -> (r: Option<&str>)
    ensures
        r is Some <==> vstd::utf8::valid_utf8(v@),
        r matches Some(s) ==> s@ == vstd::utf8::decode_utf8(v@),
{
    core::str::from_utf8(v).ok()
}

impl<'a> WsFrame<'a> {
    /// The opcode this frame is sent with.
    pub fn opcode(&self) -> (r: u8)
        ensures
            r == spec_opcode(self@),
    {
        match self {
            WsFrame::Text(_) => 1,
            WsFrame::Binary(_) => 2,
            WsFrame::Close(..) => 8,
            WsFrame::Ping(_) => 9,
            WsFrame::Pong(_) => 10,
            WsFrame::Unknown => 0,
        }
    }

    /// The data bytes of the frame, whatever its kind; a close frame's
    /// status code is not part of them.
    pub fn data(&self) -> (r: &'a [u8])
        ensures
            r@ == spec_frame_data(self@),
    {
        match self {
            WsFrame::Text(s) => s.as_bytes(),
            WsFrame::Binary(b) => b,
            WsFrame::Close(_, reason) => reason.as_bytes(),
            WsFrame::Ping(b) => b,
            WsFrame::Pong(b) => b,
            WsFrame::Unknown => &[],
        }
    }
}

impl WsFrameOwned {
    /// The opcode this frame is sent with.
    pub fn opcode(&self) -> (r: u8)
        ensures
            r == spec_opcode(self@),
    {
        match self {
            WsFrameOwned::Text(_) => 1,
            WsFrameOwned::Binary(_) => 2,
            WsFrameOwned::Close(..) => 8,
            WsFrameOwned::Ping(_) => 9,
            WsFrameOwned::Pong(_) => 10,
            WsFrameOwned::Unknown => 0,
        }
    }

    /// A borrowed frame over this frame's payload.
    pub fn into_ref<'a>(&'a self) -> (r: WsFrame<'a>)
        ensures
            r@ == self@,
    {
        match self {
            WsFrameOwned::Text(s) => WsFrame::Text(s.as_str()),
            WsFrameOwned::Binary(v) => WsFrame::Binary(v.as_slice()),
            WsFrameOwned::Close(code, reason) => WsFrame::Close(*code, reason.as_str()),
            WsFrameOwned::Ping(v) => WsFrame::Ping(v.as_slice()),
            WsFrameOwned::Pong(v) => WsFrame::Pong(v.as_slice()),
            WsFrameOwned::Unknown => WsFrame::Unknown,
        }
    }

    /// Decodes a frame from its header and payload buffer, unmasking the
    /// buffer in place when the header masks.
    pub fn from_data(header: &WsFrameHeader, buf: &mut Vec<u8>) -> (r: WsFrameOwned)
        ensures
            final(buf)@ == (if header.mask {
                mask_bytes(header.masking_key@, old(buf)@)
            } else {
                old(buf)@
            }),
            r@ == frame_model_of(header.opcode, final(buf)@),
    {
        crate::server::parse_payload(buf, header);
        if header.opcode == 1 {
            match utf8_str(buf.as_slice()) {
                Some(s) => WsFrameOwned::Text(s.to_owned()),
                None => WsFrameOwned::Unknown,
            }
        } else if header.opcode == 2 {
            WsFrameOwned::Binary(vstd::slice::slice_to_vec(buf.as_slice()))
        } else if header.opcode == 8 {
            if buf.len() >= 2 {
                let code = crate::server::be16_word(buf[0], buf[1]);
                let rest = vstd::slice::slice_subrange(buf.as_slice(), 2, buf.len());
                proof {
                    assert(rest@ =~= buf@.skip(2));
                }
                match utf8_str(rest) {
                    Some(s) => WsFrameOwned::Close(code, s.to_owned()),
                    None => WsFrameOwned::Unknown,
                }
            } else {
                WsFrameOwned::Unknown
            }
        } else if header.opcode == 9 {
            WsFrameOwned::Ping(vstd::slice::slice_to_vec(buf.as_slice()))
        } else if header.opcode == 10 {
            WsFrameOwned::Pong(vstd::slice::slice_to_vec(buf.as_slice()))
        } else {
            WsFrameOwned::Unknown
        }
    }
}

/// XOR with the same byte twice returns the original byte.
proof fn lemma_xor_undo()
    by (bit_vector)
    ensures
        forall|a: u8, b: u8| #[trigger] ((a ^ b) ^ b) == a,
{
}

/// The big-endian 2-byte encoding decodes to the encoded value.
proof fn lemma_be16_round(x: u16)
    by (bit_vector)
    ensures
        be16val(((x >> 8) & 0xff) as u8, (x & 0xff) as u8) == x,
{
}

/// The big-endian 8-byte encoding decodes to the encoded value.
proof fn lemma_be64_round(x: u64)
    by (bit_vector)
    ensures
        be64val(
            ((x >> 56) & 0xff) as u8,
            ((x >> 48) & 0xff) as u8,
            ((x >> 40) & 0xff) as u8,
            ((x >> 32) & 0xff) as u8,
            ((x >> 24) & 0xff) as u8,
            ((x >> 16) & 0xff) as u8,
            ((x >> 8) & 0xff) as u8,
            (x & 0xff) as u8,
        ) == x,
{
}

/// Each flag and the opcode can be read back out of the first wire byte.
proof fn lemma_first_byte_bits(gf: u8, g1: u8, g2: u8, g3: u8, op: u8)
    by (bit_vector)
    requires
        gf == 0x80 || gf == 0,
        g1 == 0x40 || g1 == 0,
        g2 == 0x20 || g2 == 0,
        g3 == 0x10 || g3 == 0,
    ensures
        ((gf | g1 | g2 | g3 | (op & 0x0f)) & 0x80 == 0x80) <==> gf == 0x80,
        ((gf | g1 | g2 | g3 | (op & 0x0f)) & 0x40 == 0x40) <==> g1 == 0x40,
        ((gf | g1 | g2 | g3 | (op & 0x0f)) & 0x20 == 0x20) <==> g2 == 0x20,
        ((gf | g1 | g2 | g3 | (op & 0x0f)) & 0x10 == 0x10) <==> g3 == 0x10,
        (gf | g1 | g2 | g3 | (op & 0x0f)) & 0x0f == op & 0x0f,
{
}

/// The mask bit and the short length can be read back out of the second
/// wire byte.
proof fn lemma_len_byte_bits(mb: u8, v: u8)
    by (bit_vector)
    requires
        mb == 0x80 || mb == 0,
        v <= 127,
    ensures
        ((mb | v) & 0x80 == 0x80) <==> mb == 0x80,
        (mb | v) & 0x7f == v,
{
}

/// Law: an unmasked frame's wire bytes do not depend on the masking key,
/// so a server-side emission is fully determined by flags, opcode and
/// payload.
pub proof fn lemma_unmasked_key_irrelevant(h1: WsFrameHeader, h2: WsFrameHeader, data: Seq<u8>)
    requires
        !h1.mask,
        h2.fin == h1.fin,
        h2.rsv1 == h1.rsv1,
        h2.rsv2 == h1.rsv2,
        h2.rsv3 == h1.rsv3,
        h2.opcode == h1.opcode,
        h2.mask == h1.mask,
        h2.payload_len == h1.payload_len,
    ensures
        frame_bytes(h1, data) == frame_bytes(h2, data),
{
}

/// Law: unmasking with the masking key returns the original payload.
pub proof fn lemma_mask_round_trip(key: Seq<u8>, data: Seq<u8>)
    requires
        key.len() == 4,
    ensures
        mask_bytes(key, mask_bytes(key, data)) == data,
{
    lemma_xor_undo();
    assert(mask_bytes(key, mask_bytes(key, data)) =~= data);
}

/// Law: once enough bytes are buffered for the header to parse, more bytes
/// do not change the parse.
pub proof fn lemma_parse_header_extends(d: Seq<u8>, e: Seq<u8>)
    requires
        spec_parse_header(d) is Some,
    ensures
        spec_parse_header(d + e) == spec_parse_header(d),
{
    let w = d + e;
    assert(w[0] == d[0] && w[1] == d[1]);
    assert(forall|i: int| 0 <= i < d.len() ==> w[i] == d[i]);
    let m = spec_parse_header(d)->Some_0;
    let n = spec_parse_header(w)->Some_0;
    if m.mask {
        assert(n.key =~= m.key);
    }
}

/// Law: a frame emitted with canonical length encoding parses back to the
/// same flags, opcode, mask and payload length; its payload region holds
/// the masked payload, and unmasking returns the payload itself. `rest`
/// stands for any bytes that follow the frame in the buffer.
pub proof fn lemma_frame_round_trip(h: WsFrameHeader, data: Seq<u8>, rest: Seq<u8>)
    requires
        h.payload_len == data.len(),
        h.opcode < 16,
        spec_header_len(h.mask, data.len()) + data.len() <= usize::MAX,
    ensures
        ({
            let wire = frame_bytes(h, data) + rest;
            let m = spec_parse_header(wire);
            &&& m matches Some(p)
            &&& p.fin == h.fin
            &&& p.rsv1 == h.rsv1
            &&& p.rsv2 == h.rsv2
            &&& p.rsv3 == h.rsv3
            &&& p.opcode == h.opcode
            &&& p.mask == h.mask
            &&& p.payload_len == data.len()
            &&& p.offset == header_bytes(h).len()
            &&& h.mask ==> p.key == h.masking_key@
            &&& p.offset + p.payload_len <= wire.len()
            &&& ({
                let region = wire.subrange(p.offset as int, p.offset + p.payload_len as int);
                (if h.mask {
                    mask_bytes(p.key, region)
                } else {
                    region
                }) == data
            })
        }),
{
    let wire = frame_bytes(h, data) + rest;
    let n = data.len();
    let fb = first_byte(h);
    let gf: u8 = if h.fin {
        0x80
    } else {
        0
    };
    let g1: u8 = if h.rsv1 {
        0x40
    } else {
        0
    };
    let g2: u8 = if h.rsv2 {
        0x20
    } else {
        0
    };
    let g3: u8 = if h.rsv3 {
        0x10
    } else {
        0
    };
    let op = h.opcode;
    lemma_first_byte_bits(gf, g1, g2, g3, op);
    assert(op & 0x0f == op) by (bit_vector)
        requires
            op < 16,
    ;
    let mb: u8 = if h.mask {
        0x80
    } else {
        0
    };
    let lb = len_bytes(h.mask, n);
    assert(wire[0] == fb);
    assert(wire[1] == lb[0]);
    let hlen = header_bytes(h).len() as int;
    assert(forall|i: int| 0 <= i < lb.len() ==> wire[1 + i] == lb[i]);
    assert(h.mask ==> forall|i: int|
        0 <= i < 4 ==> wire[1 + lb.len() + i] == h.masking_key@[i]);
    let body = if h.mask {
        mask_bytes(h.masking_key@, data)
    } else {
        data
    };
    assert(forall|i: int| 0 <= i < n ==> wire[hlen + i] == body[i]);
    if n <= 125 {
        lemma_len_byte_bits(mb, n as u8);
    } else if n <= 65535 {
        lemma_len_byte_bits(mb, 126);
        let x = n as u16;
        lemma_be16_round(x);
        assert(wire[2] == ((x >> 8) & 0xff) as u8 && wire[3] == (x & 0xff) as u8);
    } else {
        lemma_len_byte_bits(mb, 127);
        let x = n as u64;
        lemma_be64_round(x);
        assert(wire[2] == ((x >> 56) & 0xff) as u8 && wire[3] == ((x >> 48) & 0xff) as u8
            && wire[4] == ((x >> 40) & 0xff) as u8 && wire[5] == ((x >> 32) & 0xff) as u8
            && wire[6] == ((x >> 24) & 0xff) as u8 && wire[7] == ((x >> 16) & 0xff) as u8
            && wire[8] == ((x >> 8) & 0xff) as u8 && wire[9] == (x & 0xff) as u8);
    }
    let m = spec_parse_header(wire);
    assert(m is Some);
    let p = m->Some_0;
    if h.mask {
        assert(p.key =~= h.masking_key@);
    }
    let region = wire.subrange(p.offset as int, p.offset + p.payload_len as int);
    assert(region =~= body);
    if h.mask {
        lemma_mask_round_trip(h.masking_key@, data);
    }
}

/// Law: a frame value's emitted payload decodes back to the value: the
/// emitting opcode and payload of any known frame, handed to the payload
/// decoder, give the frame back. Together with the wire-level round trip
/// this says that emitting a frame and parsing the emission return the
/// frame itself.
pub proof fn lemma_frame_value_round_trip(m: FrameModel)
    requires
        !(m is Unknown),
    ensures
        frame_model_of(spec_opcode(m), crate::framer::spec_frame_payload(m)) == m,
{
    broadcast use vstd::utf8::encode_utf8_valid_utf8;
    broadcast use vstd::utf8::encode_utf8_decode_utf8;

    match m {
        FrameModel::Close(code, reason) => {
            let p = crate::framer::spec_frame_payload(m);
            lemma_be16_round(code);
            assert(p[0] == ((code >> 8) & 0xff) as u8 && p[1] == (code & 0xff) as u8);
            assert(p.skip(2) =~= vstd::utf8::encode_utf8(reason));
        },
        _ => {},
    }
}

/// Buffered bytes hold a whole frame at their front: the header parses and
/// the payload has fully arrived. The receive framer's step consumes and
/// returns a frame exactly when this holds of its queued bytes.
pub open spec fn frame_complete(d: Seq<u8>) -> bool {
    spec_parse_header(d) matches Some(m) && m.offset + m.payload_len <= d.len()
}

/// Law: delivered in chunks, a frame is ready only at the end. While the
/// queued bytes are a proper prefix of one emitted frame the step yields
/// nothing, and once they are the whole frame it yields it: its payload
/// region, unmasked with the parsed key, is the original payload.
pub proof fn lemma_chunked_ingest(h: WsFrameHeader, data: Seq<u8>, j: int)
    requires
        h.payload_len == data.len(),
        h.opcode < 16,
        spec_header_len(h.mask, data.len()) + data.len() <= usize::MAX,
        0 <= j < frame_bytes(h, data).len(),
    ensures
        !frame_complete(frame_bytes(h, data).take(j)),
        frame_complete(frame_bytes(h, data)),
        ({
            let wire = frame_bytes(h, data);
            let m = spec_parse_header(wire)->Some_0;
            let region = wire.subrange(m.offset as int, m.offset + m.payload_len as int);
            &&& m.opcode == h.opcode
            &&& m.offset + m.payload_len == wire.len()
            &&& (if m.mask {
                mask_bytes(m.key, region)
            } else {
                region
            }) == data
        }),
{
    let wire = frame_bytes(h, data);
    lemma_frame_round_trip(h, data, Seq::empty());
    assert(wire + Seq::<u8>::empty() =~= wire);
    let m = spec_parse_header(wire)->Some_0;
    assert(wire.len() == header_bytes(h).len() + data.len());
    let p = wire.take(j);
    if spec_parse_header(p) is Some {
        lemma_parse_header_extends(p, wire.skip(j));
        assert(p + wire.skip(j) =~= wire);
        assert(spec_parse_header(p) == Some(m));
        assert(m.offset + m.payload_len > p.len());
    }
}

} // verus!
