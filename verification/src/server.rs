//! Frame header parsing and in-place unmasking over complete buffers.
use crate::{be16val, be64val, mask_bytes, spec_parse_header};
use crate::WsFrameHeader;
use vstd::prelude::*;
use vstd::slice::slice_subrange;

verus! {

/// Parses a frame header from the front of `buf` and returns it together
/// with the bytes that follow it. The buffer must hold a complete header.
pub fn parse_ws_frame_header<'a>(buf: &'a [u8]) -> (r: (WsFrameHeader, &'a [u8]))
    requires
        spec_parse_header(buf@) is Some,
    ensures
        Some(r.0.model()) == spec_parse_header(buf@),
        r.1@ == buf@.skip(r.0.offset as int),
{
    let b0 = buf[0];
    let b1 = buf[1];
    let mask = b1 & 0x80 == 0x80;
    let short = b1 & 0x7f;
    let mut payload_len: usize = short as usize;
    let mut offset: usize = 2;
    if short == 126 {
        let v = be16_word(buf[2], buf[3]);
        payload_len = v as usize;
        offset = 4;
    } else if short == 127 {
        let v = be64_word(buf[2], buf[3], buf[4], buf[5], buf[6], buf[7], buf[8], buf[9]);
        proof {
            assert(v <= usize::MAX);
        }
        payload_len = v as usize;
        offset = 10;
    }
    let mut masking_key: [u8; 4] = [0, 0, 0, 0];
    if mask {
        masking_key = [buf[offset], buf[offset + 1], buf[offset + 2], buf[offset + 3]];
        offset += 4;
    }
    let header = WsFrameHeader {
        fin: b0 & 0x80 == 0x80,
        rsv1: b0 & 0x40 == 0x40,
        rsv2: b0 & 0x20 == 0x20,
        rsv3: b0 & 0x10 == 0x10,
        opcode: b0 & 0x0f,
        mask,
        masking_key,
        payload_len,
        offset,
    };
    proof {
        let m = spec_parse_header(buf@)->Some_0;
        assert(header.model().key =~= m.key);
    }
    let rest = slice_subrange(buf, offset, buf.len());
    (header, rest)
}

/// The big-endian 16-bit value of two bytes.
pub(crate) fn be16_word(b0: u8, b1: u8) -> (r: u16)
    ensures
        r == be16val(b0, b1),
{
    ((b0 as u16) << 8) | (b1 as u16)
}

/// The big-endian 64-bit value of eight bytes.
fn be64_word(b0: u8, b1: u8, b2: u8, b3: u8, b4: u8, b5: u8, b6: u8, b7: u8) -> (r: u64)
    ensures
        r == be64val(b0, b1, b2, b3, b4, b5, b6, b7),
{
    ((b0 as u64) << 56) | ((b1 as u64) << 48) | ((b2 as u64) << 40) | ((b3 as u64) << 32) | ((b4
        as u64) << 24) | ((b5 as u64) << 16) | ((b6 as u64) << 8) | (b7 as u64)
}

/// Unmasks `payload` in place when the header masks; otherwise leaves it
/// unchanged.
pub fn parse_payload(payload: &mut Vec<u8>, header: &WsFrameHeader)
    ensures
        final(payload)@ == if header.mask {
            mask_bytes(header.masking_key@, old(payload)@)
        } else {
            old(payload)@
        },
{
    if header.mask {
        let n = payload.len();
        let mut i: usize = 0;
        while i < n
            invariant
                i <= n,
                n == payload@.len(),
                payload@.len() == old(payload)@.len(),
                forall|t: int|
                    0 <= t < i ==> payload@[t] == mask_bytes(
                        header.masking_key@,
                        old(payload)@,
                    )[t],
                forall|t: int| i <= t < n ==> payload@[t] == old(payload)@[t],
            decreases n - i,
        {
            let b = payload[i] ^ header.masking_key[i % 4];
            payload[i] = b;
            i += 1;
        }
        assert(payload@ =~= mask_bytes(header.masking_key@, old(payload)@));
    }
}

} // verus!
