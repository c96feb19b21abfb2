//! The transmit framer (frames and the HTTP upgrade exchange into an owned
//! buffer) and the streaming receive framer.
use crate::client::generate_ws_frame;
use crate::{frame_bytes, spec_header_len, spec_opcode, spec_parse_header};
use crate::{FrameModel, WsFrame, WsFrameHeader};
use vstd::prelude::*;
use vstd::slice::slice_subrange;
use vstd::string::StringSliceAdditionalSpecFns;

verus! {

/// A random source the transmit framer draws masking keys and handshake
/// nonces from; the embedding program supplies the implementation.
/// Nothing is assumed of the values beyond their count.
pub trait RngProvider {
    /// Returns `n` bytes from the source.
    fn random_buf(n: usize) -> (r: Vec<u8>)
        ensures
            r@.len() == n,
    ;
}

/// The payload bytes a frame value is sent with: a close frame carries its
/// status code in front of the reason; every other frame carries its data
/// bytes as they are.
pub open spec fn spec_frame_payload(m: FrameModel) -> Seq<u8> {
    match m {
        FrameModel::Close(code, reason) => crate::be16(code) + vstd::utf8::encode_utf8(reason),
        _ => crate::spec_frame_data(m),
    }
}

/// A header holds the form that frame emission gives every frame: final,
/// no reserved bits, the value's opcode, the framer's mask flag, and the
/// payload's length.
pub open spec fn is_tx_header(hdr: WsFrameHeader, opcode: u8, mask: bool, len: nat) -> bool {
    &&& hdr.fin
    &&& !hdr.rsv1
    &&& !hdr.rsv2
    &&& !hdr.rsv3
    &&& hdr.opcode == opcode
    &&& hdr.mask == mask
    &&& hdr.payload_len == len
}

/// Framer used to send data: WebSocket frames and HTTP upgrade requests,
/// laid down into an owned buffer.
pub struct WsTxFramer<RG: RngProvider> {
    buf: Vec<u8>,
    mask: bool,
    rng_provider: core::marker::PhantomData<RG>,
}

impl<RG: RngProvider> WsTxFramer<RG> {
    /// The framer's buffer.
    pub closed spec fn buffer(&self) -> Seq<u8> {
        self.buf@
    }

    /// Whether emitted frames are masked (the client role) or not (the
    /// server role).
    pub closed spec fn masking(&self) -> bool {
        self.mask
    }

    /// A framer over `buf`; `mask` selects the client or the server role.
    pub fn new(mask: bool, buf: Vec<u8>) -> (r: WsTxFramer<RG>)
        ensures
            r.buffer() == buf@,
            r.masking() == mask,
    {
        WsTxFramer { buf, mask, rng_provider: core::marker::PhantomData }
    }

    /// Takes the framer apart, returning its buffer.
    pub fn into_buf(self) -> (r: Vec<u8>)
        ensures
            r@ == self.buffer(),
    {
        self.buf
    }

    /// The first `n` buffer bytes: what the emitting calls have written.
    pub fn written<'a>(&'a self, n: usize) -> (r: &'a [u8])
        requires
            n <= self.buffer().len(),
        ensures
            r@ == self.buffer().take(n as int),
    {
        let r = slice_subrange(self.buf.as_slice(), 0, n);
        proof {
            assert(r@ =~= self.buffer().take(n as int));
        }
        r
    }

    /// Writes the frame `header` describes, carrying `data`, into the
    /// front of the buffer; returns the frame's length.
    pub fn generate_packet(&mut self, header: &WsFrameHeader, data: &[u8]) -> (n: usize)
        requires
            header.payload_len == data@.len(),
            old(self).buffer().len() >= spec_header_len(header.mask, data@.len()) + data@.len(),
        ensures
            final(self).masking() == old(self).masking(),
            final(self).buffer().len() == old(self).buffer().len(),
            n == frame_bytes(*header, data@).len(),
            n <= final(self).buffer().len(),
            final(self).buffer().take(n as int) == frame_bytes(*header, data@),
    {
        generate_ws_frame(header, data, &mut self.buf)
    }

    /// Emits `frame`: a header in canonical form, a fresh masking key when
    /// the framer masks, and the frame's payload. Returns the number of
    /// bytes written at the front of the buffer.
    pub fn frame(&mut self, frame: WsFrame<'_>) -> (n: usize)
        requires
            !(frame@ is Unknown),
            old(self).buffer().len() >= spec_header_len(
                old(self).masking(),
                spec_frame_payload(frame@).len(),
            ) + spec_frame_payload(frame@).len(),
        ensures
            final(self).masking() == old(self).masking(),
            final(self).buffer().len() == old(self).buffer().len(),
            n <= final(self).buffer().len(),
            exists|hdr: WsFrameHeader|
                {
                    &&& is_tx_header(
                        hdr,
                        spec_opcode(frame@),
                        old(self).masking(),
                        spec_frame_payload(frame@).len(),
                    )
                    &&& n == #[trigger] frame_bytes(hdr, spec_frame_payload(frame@)).len()
                    &&& final(self).buffer().take(n as int) == frame_bytes(
                        hdr,
                        spec_frame_payload(frame@),
                    )
                },
    {
        let mut masking_key: [u8; 4] = [0, 0, 0, 0];
        if self.mask {
            let kv = RG::random_buf(4);
            masking_key = [kv[0], kv[1], kv[2], kv[3]];
        }
        let opcode = frame.opcode();
        let data = frame.data();
        let n: usize;
        let header: WsFrameHeader;
        match frame {
            WsFrame::Close(code, _) => {
                let mut payload: Vec<u8> = Vec::new();
                payload.push(((code >> 8) & 0xff) as u8);
                payload.push((code & 0xff) as u8);
                let mut k: usize = 0;
                while k < data.len()
                    invariant
                        k <= data@.len(),
                        payload@ == crate::be16(code) + data@.take(k as int),
                    decreases data@.len() - k,
                {
                    payload.push(data[k]);
                    proof {
                        assert(payload@ =~= crate::be16(code) + data@.take(k as int + 1));
                    }
                    k += 1;
                }
                proof {
                    assert(data@.take(data@.len() as int) =~= data@);
                    assert(payload@ == spec_frame_payload(frame@));
                }
                header = WsFrameHeader {
                    fin: true,
                    rsv1: false,
                    rsv2: false,
                    rsv3: false,
                    opcode,
                    mask: self.mask,
                    masking_key,
                    payload_len: payload.len(),
                    offset: 0,
                };
                n = generate_ws_frame(&header, payload.as_slice(), &mut self.buf);
            },
            _ => {
                proof {
                    assert(data@ == spec_frame_payload(frame@));
                }
                header = WsFrameHeader {
                    fin: true,
                    rsv1: false,
                    rsv2: false,
                    rsv3: false,
                    opcode,
                    mask: self.mask,
                    masking_key,
                    payload_len: data.len(),
                    offset: 0,
                };
                n = generate_ws_frame(&header, data, &mut self.buf);
            },
        }
        proof {
            assert(is_tx_header(
                header,
                spec_opcode(frame@),
                old(self).masking(),
                spec_frame_payload(frame@).len(),
            ));
        }
        n
    }

    /// Emits a text frame carrying `data`.
    pub fn text(&mut self, data: &str) -> (n: usize)
        requires
            old(self).buffer().len() >= spec_header_len(
                old(self).masking(),
                data.spec_bytes().len(),
            ) + data.spec_bytes().len(),
        ensures
            final(self).masking() == old(self).masking(),
            final(self).buffer().len() == old(self).buffer().len(),
            n <= final(self).buffer().len(),
            exists|hdr: WsFrameHeader|
                {
                    &&& is_tx_header(hdr, 1, old(self).masking(), data.spec_bytes().len())
                    &&& n == #[trigger] frame_bytes(hdr, data.spec_bytes()).len()
                    &&& final(self).buffer().take(n as int) == frame_bytes(hdr, data.spec_bytes())
                },
    {
        self.frame(WsFrame::Text(data))
    }

    /// Emits a binary frame carrying `data`.
    pub fn binary(&mut self, data: &[u8]) -> (n: usize)
        requires
            old(self).buffer().len() >= spec_header_len(old(self).masking(), data@.len())
                + data@.len(),
        ensures
            final(self).masking() == old(self).masking(),
            final(self).buffer().len() == old(self).buffer().len(),
            n <= final(self).buffer().len(),
            exists|hdr: WsFrameHeader|
                {
                    &&& is_tx_header(hdr, 2, old(self).masking(), data@.len())
                    &&& n == #[trigger] frame_bytes(hdr, data@).len()
                    &&& final(self).buffer().take(n as int) == frame_bytes(hdr, data@)
                },
    {
        self.frame(WsFrame::Binary(data))
    }

    /// Emits a close frame carrying a status code and a reason.
    pub fn close(&mut self, code: u16, reason: &str) -> (n: usize)
        requires
            old(self).buffer().len() >= spec_header_len(
                old(self).masking(),
                2 + reason.spec_bytes().len(),
            ) + 2 + reason.spec_bytes().len(),
        ensures
            final(self).masking() == old(self).masking(),
            final(self).buffer().len() == old(self).buffer().len(),
            n <= final(self).buffer().len(),
            exists|hdr: WsFrameHeader|
                {
                    &&& is_tx_header(hdr, 8, old(self).masking(), 2 + reason.spec_bytes().len())
                    &&& n == #[trigger] frame_bytes(
                        hdr,
                        crate::be16(code) + reason.spec_bytes(),
                    ).len()
                    &&& final(self).buffer().take(n as int) == frame_bytes(
                        hdr,
                        crate::be16(code) + reason.spec_bytes(),
                    )
                },
    {
        self.frame(WsFrame::Close(code, reason))
    }

    /// Emits a ping frame carrying `data`.
    pub fn ping(&mut self, data: &[u8]) -> (n: usize)
        requires
            old(self).buffer().len() >= spec_header_len(old(self).masking(), data@.len())
                + data@.len(),
        ensures
            final(self).masking() == old(self).masking(),
            final(self).buffer().len() == old(self).buffer().len(),
            n <= final(self).buffer().len(),
            exists|hdr: WsFrameHeader|
                {
                    &&& is_tx_header(hdr, 9, old(self).masking(), data@.len())
                    &&& n == #[trigger] frame_bytes(hdr, data@).len()
                    &&& final(self).buffer().take(n as int) == frame_bytes(hdr, data@)
                },
    {
        self.frame(WsFrame::Ping(data))
    }

    /// Emits a pong frame carrying `data`.
    pub fn pong(&mut self, data: &[u8]) -> (n: usize)
        requires
            old(self).buffer().len() >= spec_header_len(old(self).masking(), data@.len())
                + data@.len(),
        ensures
            final(self).masking() == old(self).masking(),
            final(self).buffer().len() == old(self).buffer().len(),
            n <= final(self).buffer().len(),
            exists|hdr: WsFrameHeader|
                {
                    &&& is_tx_header(hdr, 10, old(self).masking(), data@.len())
                    &&& n == #[trigger] frame_bytes(hdr, data@).len()
                    &&& final(self).buffer().take(n as int) == frame_bytes(hdr, data@)
                },
    {
        self.frame(WsFrame::Pong(data))
    }
}

/// A request or response header: a name and a value.
#[derive(Debug, Clone)]
pub struct HttpHeader<'a> {
    pub name: &'a str,
    pub value: &'a [u8],
}

impl<'a> View for HttpHeader<'a> {
    type V = (Seq<u8>, Seq<u8>);

    open spec fn view(&self) -> (Seq<u8>, Seq<u8>) {
        (self.name.spec_bytes(), self.value@)
    }
}

/// One wire header line: `name: value` and the line end.
pub open spec fn header_line(name: Seq<u8>, value: Seq<u8>) -> Seq<u8> {
    name + crate::consts::colon_sp_bytes() + value + crate::consts::crlf_bytes()
}

/// The wire lines of a header list, in order.
pub open spec fn headers_block(hs: Seq<(Seq<u8>, Seq<u8>)>) -> Seq<u8>
    decreases hs.len(),
{
    if hs.len() == 0 {
        Seq::empty()
    } else {
        header_line(hs[0].0, hs[0].1) + headers_block(hs.drop_first())
    }
}

/// The byte count of those lines.
pub open spec fn headers_block_len(hs: Seq<(Seq<u8>, Seq<u8>)>) -> nat
    decreases hs.len(),
{
    if hs.len() == 0 {
        0
    } else {
        hs[0].0.len() + 2 + hs[0].1.len() + 2 + headers_block_len(hs.drop_first())
    }
}

/// The views of a header slice.
pub open spec fn headers_view(hs: Seq<HttpHeader>) -> Seq<(Seq<u8>, Seq<u8>)> {
    hs.map_values(|h: HttpHeader| h@)
}

/// The views of an optional header slice; none stands for no headers.
pub open spec fn opt_headers_view(hs: Option<&[HttpHeader]>) -> Seq<(Seq<u8>, Seq<u8>)> {
    match hs {
        Some(s) => headers_view(s@),
        None => Seq::empty(),
    }
}

/// A block's length is the sum of its lines' lengths.
proof fn lemma_headers_block_len(hs: Seq<(Seq<u8>, Seq<u8>)>)
    ensures
        headers_block(hs).len() == headers_block_len(hs),
    decreases hs.len(),
{
    if hs.len() > 0 {
        lemma_headers_block_len(hs.drop_first());
    }
}

/// A block's length splits at any point of the list.
proof fn lemma_block_len_split(hs: Seq<(Seq<u8>, Seq<u8>)>, j: int)
    requires
        0 <= j <= hs.len(),
    ensures
        headers_block_len(hs.take(j)) + headers_block_len(hs.skip(j)) == headers_block_len(hs),
    decreases j,
{
    if j == 0 {
        assert(hs.take(0) =~= Seq::<(Seq<u8>, Seq<u8>)>::empty());
        assert(hs.skip(0) =~= hs);
    } else {
        lemma_block_len_split(hs.drop_first(), j - 1);
        assert(hs.take(j).drop_first() =~= hs.drop_first().take(j - 1));
        assert(hs.take(j)[0] == hs[0]);
        assert(hs.skip(j) =~= hs.drop_first().skip(j - 1));
    }
}

/// Appending one header to a list appends its line to the block.
proof fn lemma_headers_block_snoc(hs: Seq<(Seq<u8>, Seq<u8>)>, j: int)
    requires
        0 <= j < hs.len(),
    ensures
        headers_block(hs.take(j + 1)) == headers_block(hs.take(j)) + header_line(
            hs[j].0,
            hs[j].1,
        ),
    decreases j,
{
    if j == 0 {
        assert(hs.take(1).drop_first() =~= Seq::<(Seq<u8>, Seq<u8>)>::empty());
        assert(hs.take(0) =~= Seq::<(Seq<u8>, Seq<u8>)>::empty());
        assert(headers_block(hs.take(1)) =~= headers_block(hs.take(0)) + header_line(
            hs[0].0,
            hs[0].1,
        ));
    } else {
        lemma_headers_block_snoc(hs.drop_first(), j - 1);
        assert(hs.take(j + 1).drop_first() =~= hs.drop_first().take(j));
        assert(hs.take(j).drop_first() =~= hs.drop_first().take(j - 1));
        assert(hs.take(j + 1)[0] == hs[0] && hs.take(j)[0] == hs[0]);
        assert(hs.drop_first()[j - 1] == hs[j]);
        assert(headers_block(hs.take(j + 1)) =~= headers_block(hs.take(j)) + header_line(
            hs[j].0,
            hs[j].1,
        ));
    }
}

/// The upgrade request bytes for a host, a path, an encoded key and any
/// extra headers: the request line, the fixed headers, `Host` and
/// `Sec-WebSocket-Key`, the extras, and the blank line.
pub open spec fn upgrade_wire(
    host: Seq<u8>,
    path: Seq<u8>,
    key_b64: Seq<u8>,
    extra: Seq<(Seq<u8>, Seq<u8>)>,
) -> Seq<u8> {
    crate::consts::get_sp_bytes() + path + crate::consts::http_suffix_bytes() + header_line(
        crate::consts::connection_name_bytes(),
        crate::consts::upgrade_value_bytes(),
    ) + header_line(crate::consts::upgrade_value_bytes(), crate::consts::websocket_value_bytes())
        + header_line(crate::consts::ws_version_name_bytes(), crate::consts::thirteen_value_bytes())
        + header_line(crate::consts::host_name_bytes(), host) + header_line(
        crate::consts::ws_key_name_bytes(),
        key_b64,
    ) + headers_block(extra) + crate::consts::crlf_bytes()
}

/// The upgrade request's length: fixed text plus host, path and extras.
pub open spec fn spec_upgrade_len(
    host: Seq<u8>,
    path: Seq<u8>,
    extra: Seq<(Seq<u8>, Seq<u8>)>,
) -> nat {
    138 + host.len() + path.len() + headers_block_len(extra)
}

/// The response head bytes for a status code, a status text and headers.
pub open spec fn response_wire(
    code: u16,
    text: Seq<u8>,
    headers: Seq<(Seq<u8>, Seq<u8>)>,
) -> Seq<u8> {
    crate::consts::http_prefix_bytes() + dec_u16(code as int) + crate::consts::sp_bytes() + text
        + crate::consts::crlf_bytes() + headers_block(headers) + crate::consts::crlf_bytes()
}

/// The response head's length.
pub open spec fn spec_response_len(
    code: u16,
    text: Seq<u8>,
    headers: Seq<(Seq<u8>, Seq<u8>)>,
) -> nat {
    14 + dec_u16(code as int).len() + text.len() + headers_block_len(headers)
}

/// The decimal digits of a value, most significant first.
pub open spec fn dec_u16(x: int) -> Seq<u8>
    decreases x,
{
    if x < 10 {
        seq![(48 + x) as u8]
    } else {
        dec_u16(x / 10) + seq![(48 + x % 10) as u8]
    }
}

/// Appends the decimal digits of `x`.
fn push_dec(out: &mut Vec<u8>, x: u16)
    ensures
        final(out)@ == old(out)@ + dec_u16(x as int),
    decreases x,
{
    if x < 10 {
        out.push(48 + (x as u8));
        assert(final(out)@ =~= old(out)@ + dec_u16(x as int));
    } else {
        push_dec(out, x / 10);
        out.push(48 + ((x % 10) as u8));
        assert(final(out)@ =~= old(out)@ + dec_u16(x as int));
    }
}

impl<RG: RngProvider> WsTxFramer<RG> {
    /// Writes `src` at `off`; the buffer's front grows by exactly `src`.
    fn put(&mut self, off: usize, src: &[u8]) -> (end: usize)
        requires
            off + src@.len() <= old(self).buffer().len(),
        ensures
            final(self).masking() == old(self).masking(),
            final(self).buffer().len() == old(self).buffer().len(),
            end == off + src@.len(),
            final(self).buffer().take(end as int) == old(self).buffer().take(off as int) + src@,
    {
        let bl = self.buf.len();
        assert(off + src@.len() <= bl);
        crate::write_bytes(&mut self.buf, off, src);
        proof {
            assert(self.buf@.take(off + src@.len() as int) =~= old(self).buffer().take(off as int)
                + src@);
        }
        off + src.len()
    }

    /// Writes one header line at `off`.
    fn put_header(&mut self, off: usize, name: &[u8], value: &[u8]) -> (end: usize)
        requires
            off + name@.len() + 2 + value@.len() + 2 <= old(self).buffer().len(),
        ensures
            final(self).masking() == old(self).masking(),
            final(self).buffer().len() == old(self).buffer().len(),
            end == off + name@.len() + 2 + value@.len() + 2,
            final(self).buffer().take(end as int) == old(self).buffer().take(off as int)
                + header_line(name@, value@),
    {
        let o1 = self.put(off, name);
        let cs = crate::consts::colon_sp();
        let o2 = self.put(o1, cs.as_slice());
        let o3 = self.put(o2, value);
        let cr = crate::consts::crlf();
        let end = self.put(o3, cr.as_slice());
        proof {
            assert(final(self).buffer().take(end as int) =~= old(self).buffer().take(off as int)
                + header_line(name@, value@));
        }
        end
    }

    /// Writes the caller's header lines starting at `*offset`, advancing it.
    fn append_headers(&mut self, headers: &[HttpHeader<'_>], offset: &mut usize)
        requires
            *old(offset) + headers_block_len(headers_view(headers@)) <= old(self).buffer().len(),
        ensures
            final(self).masking() == old(self).masking(),
            final(self).buffer().len() == old(self).buffer().len(),
            *final(offset) == *old(offset) + headers_block_len(headers_view(headers@)),
            final(self).buffer().take(*final(offset) as int) == old(self).buffer().take(
                *old(offset) as int,
            ) + headers_block(headers_view(headers@)),
    {
        let ghost hv = headers_view(headers@);
        let mut j: usize = 0;
        let mut off: usize = *offset;
        proof {
            assert(hv.take(0) =~= Seq::<(Seq<u8>, Seq<u8>)>::empty());
            lemma_headers_block_len(hv);
        }
        while j < headers.len()
            invariant
                j <= headers@.len(),
                hv == headers_view(headers@),
                hv.len() == headers@.len(),
                self.masking() == old(self).masking(),
                self.buffer().len() == old(self).buffer().len(),
                off == *old(offset) + headers_block_len(hv.take(j as int)),
                headers_block_len(hv.take(j as int)) <= headers_block_len(hv),
                *old(offset) + headers_block_len(hv) <= self.buffer().len(),
                self.buffer().take(off as int) == old(self).buffer().take(*old(offset) as int)
                    + headers_block(hv.take(j as int)),
            decreases headers@.len() - j,
        {
            let h = &headers[j];
            proof {
                assert(hv[j as int] == headers@[j as int]@);
                assert(hv.skip(j as int)[0] == hv[j as int]);
                assert(hv.skip(j as int).drop_first() =~= hv.skip(j as int + 1));
                lemma_headers_block_len(hv.take(j as int));
                lemma_headers_block_snoc(hv, j as int);
                assert(hv.take(j as int + 1).len() == j + 1);
                lemma_headers_block_len(hv.take(j as int + 1));
                lemma_block_len_split(hv, j as int + 1);
            }
            let end = self.put_header(off, h.name.as_bytes(), h.value);
            proof {
                assert(self.buffer().take(end as int) =~= old(self).buffer().take(
                    *old(offset) as int,
                ) + headers_block(hv.take(j as int + 1)));
            }
            off = end;
            j += 1;
        }
        proof {
            assert(hv.take(headers@.len() as int) =~= hv);
        }
        *offset = off;
    }
}

impl<RG: RngProvider> WsTxFramer<RG> {
    /// Writes the HTTP/1.1 upgrade request for `host` and `path` into the
    /// front of the buffer: the request line, the fixed upgrade headers, a
    /// fresh random 16-byte key in padded Base64, the caller's extra
    /// headers, and the blank line. Returns the byte count written.
    pub fn generate_http_upgrade(
        &mut self,
        host: &str,
        path: &str,
        additional_headers: Option<&[HttpHeader<'_>]>,
    ) -> (n: usize)
        requires
            old(self).buffer().len() >= spec_upgrade_len(
                host.spec_bytes(),
                path.spec_bytes(),
                opt_headers_view(additional_headers),
            ),
        ensures
            final(self).masking() == old(self).masking(),
            final(self).buffer().len() == old(self).buffer().len(),
            n == spec_upgrade_len(
                host.spec_bytes(),
                path.spec_bytes(),
                opt_headers_view(additional_headers),
            ),
            exists|key: Seq<u8>|
                #![auto]
                key.len() == 16 && final(self).buffer().take(n as int) == upgrade_wire(
                    host.spec_bytes(),
                    path.spec_bytes(),
                    crate::base64::b64_encode(crate::base64::std_charset(), true, key),
                    opt_headers_view(additional_headers),
                ),
    {
        let ghost extra = opt_headers_view(additional_headers);
        proof {
            lemma_headers_block_len(extra);
        }
        let kv = RG::random_buf(16);
        let codec = crate::base64::Base64Codec::standard(true);
        let key_b64 = codec.encode(kv.as_slice());
        let g = crate::consts::get_sp();
        let mut off = self.put(0, g.as_slice());
        off = self.put(off, path.as_bytes());
        let sfx = crate::consts::http_suffix();
        off = self.put(off, sfx.as_slice());
        let cn = crate::consts::connection_name();
        let uv = crate::consts::upgrade_value();
        off = self.put_header(off, cn.as_slice(), uv.as_slice());
        let wv = crate::consts::websocket_value();
        off = self.put_header(off, uv.as_slice(), wv.as_slice());
        let vn = crate::consts::ws_version_name();
        let tv = crate::consts::thirteen_value();
        off = self.put_header(off, vn.as_slice(), tv.as_slice());
        let hn = crate::consts::host_name();
        off = self.put_header(off, hn.as_slice(), host.as_bytes());
        let kn = crate::consts::ws_key_name();
        off = self.put_header(off, kn.as_slice(), key_b64.as_slice());
        match additional_headers {
            Some(hs) => {
                let mut offv = off;
                self.append_headers(hs, &mut offv);
                off = offv;
            },
            None => {},
        }
        let cr = crate::consts::crlf();
        off = self.put(off, cr.as_slice());
        proof {
            if additional_headers is None {
                assert(headers_block(extra) == Seq::<u8>::empty());
            }
            assert(self.buffer().take(off as int) == upgrade_wire(
                host.spec_bytes(),
                path.spec_bytes(),
                key_b64@,
                extra,
            ));
        }
        off
    }

    /// Writes the HTTP/1.1 response head for a status code, a status text
    /// and the caller's headers, ending in the blank line. Returns the
    /// byte count written.
    pub fn generate_http_response(
        &mut self,
        status_code: u16,
        status_text: &str,
        headers: &[HttpHeader<'_>],
    ) -> (n: usize)
        requires
            old(self).buffer().len() >= spec_response_len(
                status_code,
                status_text.spec_bytes(),
                headers_view(headers@),
            ),
        ensures
            final(self).masking() == old(self).masking(),
            final(self).buffer().len() == old(self).buffer().len(),
            n == spec_response_len(status_code, status_text.spec_bytes(), headers_view(headers@)),
            final(self).buffer().take(n as int) == response_wire(
                status_code,
                status_text.spec_bytes(),
                headers_view(headers@),
            ),
    {
        let ghost hv = headers_view(headers@);
        proof {
            lemma_headers_block_len(hv);
        }
        let pre = crate::consts::http_prefix();
        let mut off = self.put(0, pre.as_slice());
        let mut dec: Vec<u8> = Vec::new();
        push_dec(&mut dec, status_code);
        proof {
            assert(dec@ =~= dec_u16(status_code as int));
        }
        off = self.put(off, dec.as_slice());
        let spv = crate::consts::sp();
        off = self.put(off, spv.as_slice());
        off = self.put(off, status_text.as_bytes());
        let cr = crate::consts::crlf();
        off = self.put(off, cr.as_slice());
        let mut offv = off;
        self.append_headers(headers, &mut offv);
        off = offv;
        let cr2 = crate::consts::crlf();
        off = self.put(off, cr2.as_slice());
        proof {
            assert(self.buffer().take(off as int) == response_wire(
                status_code,
                status_text.spec_bytes(),
                hv,
            ));
        }
        off
    }
}

/// Framer used to receive data: a single owned buffer, arbitrary-sized
/// chunks in, whole frames out.
pub struct WsRxFramer {
    buf: Vec<u8>,
    current_header: Option<WsFrameHeader>,
    write_offset: usize,
    current_packet_end: usize,
    shift: bool,
}

impl WsRxFramer {
    /// The buffer's size: the largest byte count the framer can hold.
    pub closed spec fn capacity(&self) -> nat {
        self.buf@.len()
    }

    /// How many buffered bytes the buffer's front holds, a consumed frame
    /// not yet compacted away included.
    pub closed spec fn buffered(&self) -> nat {
        self.write_offset as nat
    }

    /// The bytes the framer still has to parse: everything buffered, less
    /// a consumed frame that the next call will compact away.
    pub closed spec fn queued(&self) -> Seq<u8> {
        if self.shift {
            self.buf@.take(self.write_offset as int).skip(self.current_packet_end as int)
        } else {
            self.buf@.take(self.write_offset as int)
        }
    }

    /// Whether a consumed frame still occupies the buffer's front.
    pub closed spec fn shift_pending(&self) -> bool {
        self.shift
    }

    /// The framer's internal consistency: offsets within bounds, and a
    /// stored header equal to the parse of the buffered bytes.
    pub closed spec fn wf(&self) -> bool {
        &&& self.write_offset <= self.buf@.len()
        &&& (self.shift ==> self.current_packet_end <= self.write_offset
            && self.current_header is None)
        &&& (self.current_header matches Some(h) ==> {
            &&& !self.shift
            &&& spec_parse_header(self.buf@.take(self.write_offset as int)) == Some(h.model())
            &&& self.current_packet_end == h.offset + h.payload_len
        })
    }

    /// A framer over `buf`, initially empty.
    pub fn new(buf: Vec<u8>) -> (r: WsRxFramer)
        ensures
            r.wf(),
            r.capacity() == buf@.len(),
            r.queued() == Seq::<u8>::empty(),
            r.buffered() == 0,
            !r.shift_pending(),
    {
        let r = WsRxFramer {
            buf,
            current_header: None,
            write_offset: 0,
            current_packet_end: 0,
            shift: false,
        };
        proof {
            assert(r.queued() =~= Seq::<u8>::empty());
        }
        r
    }

    /// How many bytes the buffer's front currently holds.
    pub fn buffered_len(&self) -> (r: usize)
        ensures
            r == self.buffered(),
    {
        self.write_offset
    }

    /// Copies as much of `data` as fits into the free space past the
    /// buffered bytes, without crediting it; returns the count copied.
    /// `revolve_write_offset` credits the bytes once they are in place.
    pub fn write_tail(&mut self, data: &[u8]) -> (n: usize)
        requires
            old(self).wf(),
        ensures
            final(self).wf(),
            n == vstd::math::min(data@.len() as int, old(self).capacity() - old(self).buffered()),
            final(self).capacity() == old(self).capacity(),
            final(self).buffered() == old(self).buffered(),
            final(self).queued() == old(self).queued(),
            final(self).shift_pending() == old(self).shift_pending(),
            final(self).tail().take(n as int) == data@.take(n as int),
            final(self).tail().skip(n as int) == old(self).tail().skip(n as int),
    {
        let free = self.buf.len() - self.write_offset;
        let n = if data.len() < free {
            data.len()
        } else {
            free
        };
        let chunk = slice_subrange(data, 0, n);
        crate::write_bytes(&mut self.buf, self.write_offset, chunk);
        proof {
            assert(self.queued() =~= old(self).queued());
            assert(self.tail().take(n as int) =~= data@.take(n as int));
            assert(self.tail().skip(n as int) =~= old(self).tail().skip(n as int));
        }
        n
    }

    /// The free region past the buffered bytes.
    pub closed spec fn tail(&self) -> Seq<u8> {
        self.buf@.skip(self.write_offset as int)
    }

    /// Credits `n` bytes that the caller has placed into the free region:
    /// they join the queued bytes.
    pub fn revolve_write_offset(&mut self, n: usize)
        requires
            old(self).wf(),
            old(self).buffered() + n <= old(self).capacity(),
        ensures
            final(self).wf(),
            final(self).capacity() == old(self).capacity(),
            final(self).buffered() == old(self).buffered() + n,
            final(self).queued() == old(self).queued() + old(self).tail().take(n as int),
            final(self).tail() == old(self).tail().skip(n as int),
            final(self).shift_pending() == old(self).shift_pending(),
    {
        let cap = self.buf.len();
        proof {
            assert(old(self).buffered() + n <= cap);
            let c_old = self.buf@.take(self.write_offset as int);
            let c_new = self.buf@.take(self.write_offset + n);
            assert(c_new =~= c_old + self.buf@.skip(self.write_offset as int).take(n as int));
            if self.current_header is Some {
                crate::lemma_parse_header_extends(
                    c_old,
                    self.buf@.skip(self.write_offset as int).take(n as int),
                );
            }
        }
        self.write_offset = self.write_offset + n;
        proof {
            assert(final(self).queued() =~= old(self).queued() + old(self).tail().take(n as int));
            assert(final(self).tail() =~= old(self).tail().skip(n as int));
        }
    }

    /// Drops every buffered byte and any in-progress frame: the framer is
    /// as new.
    pub fn reset(&mut self)
        ensures
            final(self).wf(),
            final(self).capacity() == old(self).capacity(),
            final(self).queued() == Seq::<u8>::empty(),
            final(self).buffered() == 0,
            !final(self).shift_pending(),
    {
        self.write_offset = 0;
        self.current_packet_end = 0;
        self.current_header = None;
        self.shift = false;
        proof {
            assert(self.queued() =~= Seq::<u8>::empty());
        }
    }

    /// The streaming step. Compacts a consumed frame away, then parses one
    /// frame header lazily and, once the whole frame is buffered, consumes
    /// it and returns its value (unmasked when the header masks). Returns
    /// `None` until a whole frame is present; buffered bytes are never
    /// dropped, only consumed frames are.
    #[verifier::loop_isolation(false)]
    pub fn process_data(&mut self) -> (r: Option<crate::WsFrameOwned>)
        requires
            old(self).wf(),
        ensures
            final(self).wf(),
            final(self).capacity() == old(self).capacity(),
            ({
                let d = old(self).queued();
                match spec_parse_header(d) {
                    None => {
                        &&& r is None
                        &&& final(self).queued() == d
                        &&& final(self).buffered() == d.len()
                        &&& !final(self).shift_pending()
                    },
                    Some(m) => {
                        if m.offset + m.payload_len <= d.len() {
                            &&& r matches Some(f)
                            &&& f@ == crate::frame_model_of(
                                m.opcode,
                                if m.mask {
                                    crate::mask_bytes(
                                        m.key,
                                        d.subrange(m.offset as int, m.offset + m.payload_len as int),
                                    )
                                } else {
                                    d.subrange(m.offset as int, m.offset + m.payload_len as int)
                                },
                            )
                            &&& final(self).queued() == d.skip(m.offset + m.payload_len as int)
                            &&& final(self).buffered() == d.len()
                            &&& final(self).shift_pending()
                        } else {
                            &&& r is None
                            &&& final(self).queued() == d
                            &&& final(self).buffered() == d.len()
                            &&& !final(self).shift_pending()
                        }
                    },
                }
            }),
    {
        let ghost d = old(self).queued();
        if self.shift {
            let keep = self.write_offset - self.current_packet_end;
            let pe = self.current_packet_end;
            let mut i: usize = 0;
            while i < keep
                invariant
                    i <= keep,
                    pe + keep <= self.buf@.len(),
                    keep == self.write_offset - pe,
                    pe == self.current_packet_end,
                    self.write_offset == old(self).buffered(),
                    self.buf@.len() == old(self).capacity(),
                    forall|t: int| 0 <= t < i ==> self.buf@[t] == d[t],
                    forall|t: int| i <= t < self.buf@.len() ==> self.buf@[t] == old(self).inner_buf()[t],
                    d == old(self).queued(),
                    self.current_header == old(self).current_header,
                    self.shift,
                decreases keep - i,
            {
                let b = self.buf[pe + i];
                proof {
                    assert(old(self).inner_buf()[pe + i] == d[i as int]);
                }
                self.buf[i] = b;
                i += 1;
            }
            self.write_offset = keep;
            self.current_packet_end = 0;
            self.shift = false;
            proof {
                assert(self.buf@.take(self.write_offset as int) =~= d);
            }
        }
        proof {
            assert(self.buf@.take(self.write_offset as int) == d);
        }
        if self.current_header.is_none() {
            match self.try_parse_header() {
                Some(h) => {
                    let pe = h.offset + h.payload_len;
                    self.current_packet_end = pe;
                    self.current_header = Some(h);
                },
                None => {
                    return None;
                },
            }
        }
        let complete = self.write_offset >= self.current_packet_end;
        if !complete {
            return None;
        }
        let header = match &self.current_header {
            Some(h) => WsFrameHeader {
                fin: h.fin,
                rsv1: h.rsv1,
                rsv2: h.rsv2,
                rsv3: h.rsv3,
                opcode: h.opcode,
                mask: h.mask,
                masking_key: h.masking_key,
                payload_len: h.payload_len,
                offset: h.offset,
            },
            None => {
                proof {
                    assert(false);
                }
                WsFrameHeader {
                    fin: false,
                    rsv1: false,
                    rsv2: false,
                    rsv3: false,
                    opcode: 0,
                    mask: false,
                    masking_key: [0, 0, 0, 0],
                    payload_len: 0,
                    offset: 0,
                }
            },
        };
        self.current_header = None;
        let pslice = slice_subrange(self.buf.as_slice(), header.offset, self.current_packet_end);
        let mut payload = vstd::slice::slice_to_vec(pslice);
        proof {
            assert(payload@ =~= d.subrange(
                header.offset as int,
                header.offset + header.payload_len,
            ));
        }
        let fr = crate::WsFrameOwned::from_data(&header, &mut payload);
        self.shift = true;
        proof {
            let m = spec_parse_header(d)->Some_0;
            assert(m.key == header.masking_key@);
            assert(final(self).queued() =~= d.skip(m.offset + m.payload_len as int));
        }
        Some(fr)
    }

    /// The raw buffer, for internal reasoning.
    closed spec fn inner_buf(&self) -> Seq<u8> {
        self.buf@
    }

    /// No frame is in progress and no consumed frame awaits compaction:
    /// the state the framer is in during the HTTP exchange.
    pub closed spec fn idle(&self) -> bool {
        !self.shift && self.current_header is None
    }

    /// Discards the first `k` buffered bytes, sliding the rest down.
    #[verifier::loop_isolation(false)]
    fn drop_front(&mut self, k: usize)
        requires
            old(self).wf(),
            old(self).idle(),
            k <= old(self).buffered(),
        ensures
            final(self).wf(),
            final(self).idle(),
            final(self).capacity() == old(self).capacity(),
            final(self).buffered() == old(self).buffered() - k,
            final(self).queued() == old(self).queued().skip(k as int),
    {
        let keep = self.write_offset - k;
        let mut i: usize = 0;
        while i < keep
            invariant
                i <= keep,
                k + keep == self.write_offset,
                self.write_offset == old(self).buffered(),
                self.write_offset <= self.buf@.len(),
                self.buf@.len() == old(self).capacity(),
                self.current_header == old(self).current_header,
                self.shift == old(self).shift,
                forall|t: int| 0 <= t < i ==> self.buf@[t] == old(self).queued()[k + t],
                forall|t: int| i <= t < self.buf@.len() ==> self.buf@[t] == old(self).inner_buf()[t],
            decreases keep - i,
        {
            let b = self.buf[k + i];
            proof {
                assert(old(self).inner_buf()[k + i] == old(self).queued()[k + i]);
            }
            self.buf[i] = b;
            i += 1;
        }
        self.write_offset = keep;
        proof {
            assert(self.buf@.take(keep as int) =~= old(self).queued().skip(k as int));
        }
    }

    /// Credits `n` freshly written bytes and attempts a full parse of an
    /// HTTP/1.1 response at the buffer's front. On a complete head whose
    /// body (per its `Content-Length` headers) has fully arrived, consumes
    /// head and body and returns the status code; otherwise keeps every
    /// byte and returns `None`. A malformed head, or a malformed
    /// `Content-Length` value, reads as `None` too, to be retried.
    #[verifier::loop_isolation(false)]
    pub fn process_http_response(&mut self, n: usize) -> (r: Option<u16>)
        requires
            old(self).wf(),
            old(self).idle(),
            old(self).buffered() + n <= old(self).capacity(),
        ensures
            final(self).wf(),
            final(self).idle(),
            final(self).capacity() == old(self).capacity(),
            ({
                let d = old(self).queued() + old(self).tail().take(n as int);
                match http_response_head(d) {
                    None => r is None && final(self).queued() == d && final(self).buffered()
                        == d.len(),
                    Some((hn, code, names, values)) => match cl_total(names, values, 0) {
                        None => r is None && final(self).queued() == d && final(self).buffered()
                            == d.len(),
                        Some(cl) => {
                            if hn + cl <= d.len() {
                                &&& r == Some(code)
                                &&& final(self).queued() == d.skip(hn + cl)
                                &&& final(self).buffered() == d.len() - (hn + cl)
                            } else {
                                &&& r is None
                                &&& final(self).queued() == d
                                &&& final(self).buffered() == d.len()
                            }
                        },
                    },
                }
            }),
    {
        let cap = self.buf.len();
        self.write_offset = self.write_offset + n;
        let ghost d = self.buf@.take(self.write_offset as int);
        proof {
            assert(d =~= old(self).queued() + old(self).tail().take(n as int));
        }
        let head_slice = slice_subrange(self.buf.as_slice(), 0, self.write_offset);
        proof {
            assert(head_slice@ == d);
        }
        match parse_http_response_head(head_slice) {
            None => None,
            Some((hn, code, names, values)) => {
                let ghost ns = names.deep_view();
                let ghost vs = values.deep_view();
                let mut total: usize = hn;
                let mut i: usize = 0;
                while i < names.len()
                    invariant
                        i <= names@.len(),
                        values@.len() == names@.len(),
                        ns == names.deep_view(),
                        vs == values.deep_view(),
                        hn <= total,
                        total <= usize::MAX,
                        cl_total(ns, vs, i as int) matches Some(t) ==> cl_total(ns, vs, 0)
                            == Some((total - hn) + t),
                        cl_total(ns, vs, i as int) is None ==> cl_total(ns, vs, 0) is None,
                    decreases names@.len() - i,
                {
                    proof {
                        assert(ns[i as int] == names@[i as int]@);
                        assert(vs[i as int] == values@[i as int]@);
                    }
                    let cl_name = crate::consts::content_length_name();
                    if eq_bytes(names[i].as_slice(), cl_name.as_slice()) {
                        match parse_decimal_bytes(values[i].as_slice()) {
                            None => {
                                return None;
                            },
                            Some(v) => {
                                proof {
                                    lemma_cl_total_nonneg(ns, vs, i as int + 1);
                                    lemma_dec_bytes_prefix(vs[i as int], vs[i as int].len() as int);
                                    assert(vs[i as int].take(vs[i as int].len() as int)
                                        =~= vs[i as int]);
                                    assert(v == dec_bytes_val(vs[i as int]));
                                }
                                if v > usize::MAX - total {
                                    proof {
                                        assert(cl_total(ns, vs, i as int) matches Some(t) ==> t
                                            >= v);
                                    }
                                    return None;
                                }
                                total = total + v;
                                proof {
                                    if let Some(t) = cl_total(ns, vs, i as int + 1) {
                                        assert(cl_total(ns, vs, i as int) == Some(
                                            dec_bytes_val(vs[i as int]) + t,
                                        ));
                                    }
                                }
                            },
                        }
                    } else {
                        proof {
                            assert(cl_total(ns, vs, i as int) == cl_total(ns, vs, i as int + 1));
                        }
                    }
                    i += 1;
                }
                proof {
                    assert(cl_total(ns, vs, names@.len() as int) == Some(0int));
                    assert(cl_total(ns, vs, 0) == Some((total - hn) as int));
                }
                if total <= self.write_offset {
                    self.drop_front(total);
                    Some(code)
                } else {
                    None
                }
            },
        }
    }

    /// Parses a frame header from the front of the buffered bytes, if they
    /// already hold a whole one.
    fn try_parse_header(&self) -> (r: Option<WsFrameHeader>)
        requires
            self.wf(),
            !self.shift_pending(),
        ensures
            ({
                let d = self.queued();
                match spec_parse_header(d) {
                    Some(m) => r matches Some(h) && h.model() == m,
                    None => r is None,
                }
            }),
    {
        let ghost d = self.queued();
        let wo = self.write_offset;
        if wo < 2 {
            return None;
        }
        let b0 = self.buf[0];
        let b1 = self.buf[1];
        proof {
            assert(d[0] == b0 && d[1] == b1);
        }
        let mask = b1 & 0x80 == 0x80;
        let short = b1 & 0x7f;
        let ext: usize = if short == 126 {
            2
        } else if short == 127 {
            8
        } else {
            0
        };
        let key_len: usize = if mask {
            4
        } else {
            0
        };
        let off = 2 + ext + key_len;
        if wo < off {
            return None;
        }
        proof {
            assert(forall|i: int| 0 <= i < off ==> d[i] == self.buf@[i]);
        }
        let payload_len: usize;
        if short == 126 {
            let v = crate::server::be16_word(self.buf[2], self.buf[3]);
            payload_len = v as usize;
        } else if short == 127 {
            let v = be64_word_of(
                self.buf[2],
                self.buf[3],
                self.buf[4],
                self.buf[5],
                self.buf[6],
                self.buf[7],
                self.buf[8],
                self.buf[9],
            );
            if v > (usize::MAX as u64) {
                return None;
            }
            payload_len = v as usize;
        } else {
            payload_len = short as usize;
        }
        if payload_len > usize::MAX - off {
            return None;
        }
        let masking_key: [u8; 4] = if mask {
            [self.buf[off - 4], self.buf[off - 3], self.buf[off - 2], self.buf[off - 1]]
        } else {
            [0, 0, 0, 0]
        };
        let h = WsFrameHeader {
            fin: b0 & 0x80 == 0x80,
            rsv1: b0 & 0x40 == 0x40,
            rsv2: b0 & 0x20 == 0x20,
            rsv3: b0 & 0x10 == 0x10,
            opcode: b0 & 0x0f,
            mask,
            masking_key,
            payload_len,
            offset: off,
        };
        proof {
            let m = spec_parse_header(d)->Some_0;
            assert(h.model().key =~= m.key);
        }
        Some(h)
    }
}

/// What httparse finds at the front of a response buffer: the head's byte
/// count, the status code, and the header names and values in order; or
/// nothing on partial or malformed input, or past 16 headers. A function
/// of the bytes alone.
pub uninterp spec fn http_response_head(s: Seq<u8>) -> Option<(int, u16, Seq<Seq<u8>>, Seq<Seq<u8>>)>;

/// Relies on `httparse::Response::parse`, with room for 16 headers: on a
/// complete head it returns the head's byte count (a prefix of the input),
/// the status code and the headers; on partial or malformed input, or more
/// than 16 headers, it returns nothing.
#[verifier::external_body]
fn parse_http_response_head(buf: &[u8]) -> (r: Option<(usize, u16, Vec<Vec<u8>>, Vec<Vec<u8>>)>)
    ensures
        r is Some <==> http_response_head(buf@) is Some,
        r matches Some((n, code, names, values)) ==> {
            &&& http_response_head(buf@) matches Some((sn, sc, sns, svs)) && n == sn && code == sc
                && names.deep_view() == sns && values.deep_view() == svs
            &&& n <= buf@.len()
            &&& names@.len() == values@.len()
        },
{
    let mut headers = [httparse::EMPTY_HEADER; 16];
    let mut resp = httparse::Response::new(&mut headers);
    match resp.parse(buf) {
        Ok(httparse::Status::Complete(n)) => {
            let code = resp.code.unwrap_or(0);
            let names: Vec<Vec<u8>> = resp.headers.iter().map(|h| h.name.as_bytes().to_vec()).collect();
            let values: Vec<Vec<u8>> = resp.headers.iter().map(|h| h.value.to_vec()).collect();
            Some((n, code, names, values))
        },
        _ => None,
    }
}

/// Whether every byte of `s` is a decimal digit.
pub open spec fn all_digit_bytes(s: Seq<u8>) -> bool {
    forall|i: int| 0 <= i < s.len() ==> 48 <= #[trigger] s[i] <= 57
}

/// The decimal value of a digit byte string.
pub open spec fn dec_bytes_val(s: Seq<u8>) -> int
    decreases s.len(),
{
    if s.len() == 0 {
        0
    } else {
        dec_bytes_val(s.drop_last()) * 10 + (s.last() - 48)
    }
}

/// The digit prefixes of a digit byte string never exceed the whole
/// string's value.
proof fn lemma_dec_bytes_prefix(s: Seq<u8>, k: int)
    requires
        all_digit_bytes(s),
        0 <= k <= s.len(),
    ensures
        0 <= dec_bytes_val(s.take(k)) <= dec_bytes_val(s),
        k < s.len() ==> dec_bytes_val(s.take(k + 1)) == dec_bytes_val(s.take(k)) * 10 + (s[k]
            - 48),
    decreases s.len(),
{
    if s.len() == 0 {
    } else {
        assert(s.drop_last() =~= s.take(s.len() - 1));
        assert(all_digit_bytes(s.drop_last()));
        lemma_dec_bytes_prefix(s.drop_last(), if k <= s.len() - 1 {
            k
        } else {
            k - 1
        });
        if k == s.len() {
            assert(s.take(k) =~= s);
        } else {
            assert(s.take(k) =~= s.drop_last().take(k));
            if k < s.len() - 1 {
                assert(s.take(k + 1) =~= s.drop_last().take(k + 1));
                assert(s.drop_last()[k] == s[k]);
            } else {
                assert(s.take(k + 1) =~= s);
                assert(s.take(k + 1).drop_last() =~= s.take(k));
            }
            assert(dec_bytes_val(s.drop_last()) <= dec_bytes_val(s));
        }
    }
}

/// A well-formed decimal byte string for this machine: one or more digits,
/// value within `usize`.
pub open spec fn valid_dec_usize(s: Seq<u8>) -> bool {
    s.len() > 0 && all_digit_bytes(s) && dec_bytes_val(s) <= usize::MAX
}

/// Parses the decimal value of `v`: its value when it is one or more
/// digits whose value fits the machine, nothing otherwise.
fn parse_decimal_bytes(v: &[u8]) -> (r: Option<usize>)
    ensures
        valid_dec_usize(v@) ==> r == Some((dec_bytes_val(v@) as usize)),
        !valid_dec_usize(v@) ==> r is None,
{
    let n = v.len();
    if n == 0 {
        return None;
    }
    let mut acc: usize = 0;
    let mut i: usize = 0;
    proof {
        assert(v@.take(0) =~= Seq::<u8>::empty());
    }
    while i < n
        invariant
            0 <= i <= n,
            n == v@.len(),
            all_digit_bytes(v@.take(i as int)),
            acc == dec_bytes_val(v@.take(i as int)),
        decreases n - i,
    {
        let c = v[i];
        if c < 48 || c > 57 {
            assert(!all_digit_bytes(v@));
            return None;
        }
        proof {
            assert(v@.take(i + 1).drop_last() =~= v@.take(i as int));
            assert(all_digit_bytes(v@.take(i + 1)));
        }
        let d = (c - 48) as usize;
        if acc > (usize::MAX - d) / 10 {
            proof {
                if all_digit_bytes(v@) {
                    lemma_dec_bytes_prefix(v@, i + 1);
                    assert(dec_bytes_val(v@.take(i + 1)) == acc * 10 + d > usize::MAX);
                }
            }
            return None;
        }
        acc = acc * 10 + d;
        i += 1;
    }
    proof {
        assert(v@.take(n as int) =~= v@);
    }
    Some(acc)
}

/// Whether two byte strings are equal.
fn eq_bytes(a: &[u8], b: &[u8]) -> (r: bool)
    ensures
        r == (a@ == b@),
{
    if a.len() != b.len() {
        return false;
    }
    let mut i: usize = 0;
    while i < a.len()
        invariant
            i <= a@.len(),
            a@.len() == b@.len(),
            forall|t: int| 0 <= t < i ==> a@[t] == b@[t],
        decreases a@.len() - i,
    {
        if a[i] != b[i] {
            return false;
        }
        i += 1;
    }
    proof {
        assert(a@ =~= b@);
    }
    true
}

/// The sum of the `Content-Length` values among the headers from index `i`
/// on; nothing when one of those values is not a machine-sized decimal.
pub open spec fn cl_total(names: Seq<Seq<u8>>, values: Seq<Seq<u8>>, i: int) -> Option<int>
    decreases names.len() - i,
{
    if i < 0 || i >= names.len() {
        Some(0)
    } else {
        let rest = cl_total(names, values, i + 1);
        if names[i] == crate::consts::content_length_name_bytes() {
            if valid_dec_usize(values[i]) {
                match rest {
                    Some(t) => Some(dec_bytes_val(values[i]) + t),
                    None => None,
                }
            } else {
                None
            }
        } else {
            rest
        }
    }
}

/// The sum is never negative.
proof fn lemma_cl_total_nonneg(names: Seq<Seq<u8>>, values: Seq<Seq<u8>>, i: int)
    ensures
        cl_total(names, values, i) matches Some(t) ==> t >= 0,
    decreases names.len() - i,
{
    if 0 <= i < names.len() {
        lemma_cl_total_nonneg(names, values, i + 1);
        if names[i] == crate::consts::content_length_name_bytes() && valid_dec_usize(values[i]) {
            lemma_dec_bytes_prefix(values[i], values[i].len() as int);
            assert(values[i].take(values[i].len() as int) =~= values[i]);
        }
    }
}

/// The big-endian 64-bit value of eight bytes.
fn be64_word_of(b0: u8, b1: u8, b2: u8, b3: u8, b4: u8, b5: u8, b6: u8, b7: u8) -> (r: u64)
    ensures
        r == crate::be64val(b0, b1, b2, b3, b4, b5, b6, b7),
{
    ((b0 as u64) << 56) | ((b1 as u64) << 48) | ((b2 as u64) << 40) | ((b3 as u64) << 32) | ((b4
        as u64) << 24) | ((b5 as u64) << 16) | ((b6 as u64) << 8) | (b7 as u64)
}

} // verus!
