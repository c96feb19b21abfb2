//! Frame emission into a caller-provided buffer.
use crate::{frame_bytes, header_bytes, len_byte, len_bytes, mask_bytes, spec_header_len};
use crate::WsFrameHeader;
use vstd::prelude::*;
use vstd::string::StringSliceAdditionalSpecFns;

verus! {

/// Writes `data` XORed against the 4-byte `key` into `buf` at `off`,
/// leaving every other byte unchanged.
pub(crate) fn write_masked(buf: &mut Vec<u8>, off: usize, data: &[u8], key: &[u8; 4])
    requires
        off + data@.len() <= old(buf)@.len(),
    ensures
        final(buf)@.len() == old(buf)@.len(),
        forall|i: int| 0 <= i < off ==> final(buf)@[i] == old(buf)@[i],
        forall|i: int|
            0 <= i < data@.len() ==> final(buf)@[off + i] == mask_bytes(key@, data@)[i],
        forall|i: int|
            off + data@.len() <= i < old(buf)@.len() ==> final(buf)@[i] == old(buf)@[i],
{
    let dl = buf.len();
    let mut k: usize = 0;
    while k < data.len()
        invariant
            k <= data@.len(),
            off + data@.len() <= buf@.len(),
            dl == buf@.len(),
            buf@.len() == old(buf)@.len(),
            forall|t: int| 0 <= t < k ==> buf@[off + t] == mask_bytes(key@, data@)[t],
            forall|t: int|
                0 <= t < buf@.len() && !(off <= t < off + k) ==> buf@[t] == old(buf)@[t],
        decreases data@.len() - k,
    {
        let b = data[k] ^ key[k % 4];
        buf[off + k] = b;
        k += 1;
    }
}

/// Writes the wire bytes of a frame carrying `data` into the front of
/// `buf` and returns how many bytes were written: the first byte, the
/// canonical 7/16/64-bit length field, the masking key and the masked
/// payload when the header masks, the payload verbatim when it does not.
#[verifier::rlimit(50)]
pub fn generate_ws_frame(header: &WsFrameHeader, data: &[u8], buf: &mut Vec<u8>) -> (n: usize)
    requires
        header.payload_len == data@.len(),
        old(buf)@.len() >= spec_header_len(header.mask, data@.len()) + data@.len(),
    ensures
        n == frame_bytes(*header, data@).len(),
        n <= final(buf)@.len(),
        final(buf)@.len() == old(buf)@.len(),
        final(buf)@.take(n as int) == frame_bytes(*header, data@),
        final(buf)@.skip(n as int) == old(buf)@.skip(n as int),
{
    let buf_len = buf.len();
    assert(spec_header_len(header.mask, data@.len()) + data@.len() <= buf_len);
    let plen = header.payload_len;
    let mbit: u8 = if header.mask {
        0x80
    } else {
        0
    };
    let fb: u8 = (if header.fin {
        0x80u8
    } else {
        0u8
    }) | (if header.rsv1 {
        0x40u8
    } else {
        0u8
    }) | (if header.rsv2 {
        0x20u8
    } else {
        0u8
    }) | (if header.rsv3 {
        0x10u8
    } else {
        0u8
    }) | (header.opcode & 0x0f);
    buf[0] = fb;
    let ghost lb = len_bytes(header.mask, plen as nat);
    let mut offset: usize = 1;
    if plen <= 125 {
        buf[1] = mbit | (plen as u8);
        offset = 2;
        assert(buf@.take(2) =~= seq![fb] + lb);
    } else if plen <= 65535 {
        buf[1] = mbit | 126;
        let hi = ((plen >> 8) & 0xff) as u8;
        let lo = (plen & 0xff) as u8;
        buf[2] = hi;
        buf[3] = lo;
        offset = 4;
        proof {
            assert(((plen >> 8) & 0xff) as u8 == (((plen as u16) >> 8) & 0xff) as u8 && (plen
                & 0xff) as u8 == ((plen as u16) & 0xff) as u8) by (bit_vector)
                requires
                    126 <= plen <= 65535,
            ;
            assert(buf@.take(4) =~= seq![fb] + lb);
        }
    } else {
        buf[1] = mbit | 127;
        let v = plen as u64;
        buf[2] = ((v >> 56) & 0xff) as u8;
        buf[3] = ((v >> 48) & 0xff) as u8;
        buf[4] = ((v >> 40) & 0xff) as u8;
        buf[5] = ((v >> 32) & 0xff) as u8;
        buf[6] = ((v >> 24) & 0xff) as u8;
        buf[7] = ((v >> 16) & 0xff) as u8;
        buf[8] = ((v >> 8) & 0xff) as u8;
        buf[9] = (v & 0xff) as u8;
        offset = 10;
        assert(buf@.take(10) =~= seq![fb] + lb);
    }
    assert(buf@.take(offset as int) == seq![fb] + lb);
    assert(forall|i: int| offset <= i < buf@.len() ==> buf@[i] == old(buf)@[i]);
    if header.mask {
        let k0 = header.masking_key[0];
        let k1 = header.masking_key[1];
        let k2 = header.masking_key[2];
        let k3 = header.masking_key[3];
        buf[offset] = k0;
        buf[offset + 1] = k1;
        buf[offset + 2] = k2;
        buf[offset + 3] = k3;
        assert(buf@.take(offset + 4) =~= seq![fb] + lb + header.masking_key@);
        let hend = offset + 4;
        write_masked(buf, hend, data, &header.masking_key);
        let n = hend + data.len();
        proof {
            assert(fb == crate::first_byte(*header));
            assert(buf@.take(n as int) =~= frame_bytes(*header, data@));
            assert(buf@.skip(n as int) =~= old(buf)@.skip(n as int));
        }
        n
    } else {
        crate::write_bytes(buf, offset, data);
        let n = offset + data.len();
        proof {
            assert(fb == crate::first_byte(*header));
            assert(buf@.take(n as int) =~= frame_bytes(*header, data@));
            assert(buf@.skip(n as int) =~= old(buf)@.skip(n as int));
        }
        n
    }
}

/// Writes the HTTP/1.1 upgrade request for `host` and `path` into the
/// front of `buf` and returns the byte count written: the request line,
/// the fixed upgrade headers, a fresh random 16-byte key in padded Base64,
/// the caller's extra headers, and the blank line.
pub fn generate_start_packet<RG: crate::framer::RngProvider>(
    host: &str,
    path: &str,
    additional_headers: Option<&[crate::framer::HttpHeader<'_>]>,
    buf: &mut Vec<u8>,
) -> (n: usize)
    requires
        old(buf)@.len() >= crate::framer::spec_upgrade_len(
            host.spec_bytes(),
            path.spec_bytes(),
            crate::framer::opt_headers_view(additional_headers),
        ),
    ensures
        final(buf)@.len() == old(buf)@.len(),
        n == crate::framer::spec_upgrade_len(
            host.spec_bytes(),
            path.spec_bytes(),
            crate::framer::opt_headers_view(additional_headers),
        ),
        exists|key: Seq<u8>|
            #![auto]
            key.len() == 16 && final(buf)@.take(n as int) == crate::framer::upgrade_wire(
                host.spec_bytes(),
                path.spec_bytes(),
                crate::base64::b64_encode(crate::base64::std_charset(), true, key),
                crate::framer::opt_headers_view(additional_headers),
            ),
{
    let mut owned: Vec<u8> = Vec::new();
    core::mem::swap(buf, &mut owned);
    let mut framer: crate::framer::WsTxFramer<RG> = crate::framer::WsTxFramer::new(false, owned);
    let n = framer.generate_http_upgrade(host, path, additional_headers);
    let mut done = framer.into_buf();
    core::mem::swap(buf, &mut done);
    n
}

} // verus!
