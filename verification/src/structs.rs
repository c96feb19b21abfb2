//! An owned message decoded from a frame header and payload, for callers
//! that parse headers themselves.
use crate::{mask_bytes, FrameModel, WsFrameHeader};
use vstd::prelude::*;

verus! {

/// What `from_utf8_lossy` makes of arbitrary bytes. A function of the
/// bytes alone.
pub uninterp spec fn utf8_lossy_of(s: Seq<u8>) -> Seq<char>;

/// Relies on `String::from_utf8_lossy`: the result depends on the bytes
/// alone, and valid UTF-8 converts without change.
#[verifier::external_body]
fn utf8_lossy(v: &[u8]) -> (r: String)
    ensures
        r@ == utf8_lossy_of(v@),
        vstd::utf8::valid_utf8(v@) ==> r@ == vstd::utf8::decode_utf8(v@),
{
    String::from_utf8_lossy(v).into_owned()
}

/// An owned WebSocket message.
#[derive(Debug)]
pub enum WsMessage {
    Text(String),
    Binary(Vec<u8>),
    Close(u16, String),
    Ping(Vec<u8>),
    Pong(Vec<u8>),
    Unknown,
}

impl View for WsMessage {
    type V = FrameModel;

    open spec fn view(&self) -> FrameModel {
        match self {
            WsMessage::Text(s) => FrameModel::Text(s@),
            WsMessage::Binary(b) => FrameModel::Binary(b@),
            WsMessage::Close(code, reason) => FrameModel::Close(*code, reason@),
            WsMessage::Ping(b) => FrameModel::Ping(b@),
            WsMessage::Pong(b) => FrameModel::Pong(b@),
            WsMessage::Unknown => FrameModel::Unknown,
        }
    }
}

/// The message an opcode and an (unmasked) payload decode to: text read
/// leniently; binary, ping and pong payloads all as binary; a close split
/// into code and lenient reason (`Unknown` when shorter than its code);
/// any other opcode as `Unknown`.
pub open spec fn message_model_of(opcode: u8, p: Seq<u8>) -> FrameModel {
    if opcode == 1 {
        FrameModel::Text(utf8_lossy_of(p))
    } else if opcode == 2 || opcode == 9 || opcode == 10 {
        FrameModel::Binary(p)
    } else if opcode == 8 {
        if p.len() >= 2 {
            FrameModel::Close(crate::be16val(p[0], p[1]), utf8_lossy_of(p.skip(2)))
        } else {
            FrameModel::Unknown
        }
    } else {
        FrameModel::Unknown
    }
}

impl WsMessage {
    /// The opcode this message is sent with.
    pub fn opcode(&self) -> (r: u8)
        ensures
            r == crate::spec_opcode(self@),
    {
        match self {
            WsMessage::Text(_) => 1,
            WsMessage::Binary(_) => 2,
            WsMessage::Close(..) => 8,
            WsMessage::Ping(_) => 9,
            WsMessage::Pong(_) => 10,
            WsMessage::Unknown => 0,
        }
    }

    /// Decodes a message from a parsed header and the payload bytes that
    /// followed it, unmasking them in place when the header masks.
    pub fn from_data(frame_header: &WsFrameHeader, buf: &mut Vec<u8>) -> (r: WsMessage)
        ensures
            final(buf)@ == (if frame_header.mask {
                mask_bytes(frame_header.masking_key@, old(buf)@)
            } else {
                old(buf)@
            }),
            r@ == message_model_of(frame_header.opcode, final(buf)@),
    {
        crate::server::parse_payload(buf, frame_header);
        if frame_header.opcode == 1 {
            WsMessage::Text(utf8_lossy(buf.as_slice()))
        } else if frame_header.opcode == 2 || frame_header.opcode == 9 || frame_header.opcode
            == 10 {
            WsMessage::Binary(vstd::slice::slice_to_vec(buf.as_slice()))
        } else if frame_header.opcode == 8 {
            if buf.len() >= 2 {
                let code = crate::server::be16_word(buf[0], buf[1]);
                let rest = vstd::slice::slice_subrange(buf.as_slice(), 2, buf.len());
                proof {
                    assert(rest@ =~= buf@.skip(2));
                }
                WsMessage::Close(code, utf8_lossy(rest))
            } else {
                WsMessage::Unknown
            }
        } else {
            WsMessage::Unknown
        }
    }
}

} // verus!
