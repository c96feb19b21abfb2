//! Shared wire text as byte tables, and the sizes the handshake uses.
use vstd::prelude::*;

verus! {

/// Random websocket key length, in padded Base64 characters.
pub const WS_KEY_B64_LEN: usize = 24;

/// Length of the accept value, in padded Base64 characters.
pub const PROCESSED_WS_KEY_B64_LEN: usize = 28;

/// Length of the key-plus-GUID text that the handshake hashes, for a
/// 24-character key.
pub const WS_HASH_LEN: usize = 60;

/// Padded input length of that hash.
pub const SHA1_BLOCKS_LEN: usize = 128;

/// Largest payload the 16-bit wire length form carries.
pub const U16_MAX: usize = 65535;

/// The bytes of `GET `.
pub open spec fn get_sp_bytes() -> Seq<u8> {
    seq![71u8, 69, 84, 32]
}

/// The bytes of `GET `, as a vector.
pub fn get_sp() -> (r: Vec<u8>)
    ensures
        r@ == get_sp_bytes(),
{
    let mut v: Vec<u8> = Vec::new();

    v.push(71);

    v.push(69);

    v.push(84);

    v.push(32);

    assert(v@ =~= get_sp_bytes());
    v
}

/// The bytes of ` HTTP/1.1\r\n`.
pub open spec fn http_suffix_bytes() -> Seq<u8> {
    seq![32u8, 72, 84, 84, 80, 47, 49, 46, 49, 13, 10]
}

/// The bytes of ` HTTP/1.1\r\n`, as a vector.
pub fn http_suffix() -> (r: Vec<u8>)
    ensures
        r@ == http_suffix_bytes(),
{
    let mut v: Vec<u8> = Vec::new();

    v.push(32);

    v.push(72);

    v.push(84);

    v.push(84);

    v.push(80);

    v.push(47);

    v.push(49);

    v.push(46);

    v.push(49);

    v.push(13);

    v.push(10);

    assert(v@ =~= http_suffix_bytes());
    v
}

/// The bytes of `HTTP/1.1 `.
pub open spec fn http_prefix_bytes() -> Seq<u8> {
    seq![72u8, 84, 84, 80, 47, 49, 46, 49, 32]
}

/// The bytes of `HTTP/1.1 `, as a vector.
pub fn http_prefix() -> (r: Vec<u8>)
    ensures
        r@ == http_prefix_bytes(),
{
    let mut v: Vec<u8> = Vec::new();

    v.push(72);

    v.push(84);

    v.push(84);

    v.push(80);

    v.push(47);

    v.push(49);

    v.push(46);

    v.push(49);

    v.push(32);

    assert(v@ =~= http_prefix_bytes());
    v
}

/// The bytes of `: `.
pub open spec fn colon_sp_bytes() -> Seq<u8> {
    seq![58u8, 32]
}

/// The bytes of `: `, as a vector.
pub fn colon_sp() -> (r: Vec<u8>)
    ensures
        r@ == colon_sp_bytes(),
{
    let mut v: Vec<u8> = Vec::new();

    v.push(58);

    v.push(32);

    assert(v@ =~= colon_sp_bytes());
    v
}

/// The bytes of `\r\n`.
pub open spec fn crlf_bytes() -> Seq<u8> {
    seq![13u8, 10]
}

/// The bytes of `\r\n`, as a vector.
pub fn crlf() -> (r: Vec<u8>)
    ensures
        r@ == crlf_bytes(),
{
    let mut v: Vec<u8> = Vec::new();

    v.push(13);

    v.push(10);

    assert(v@ =~= crlf_bytes());
    v
}

/// The bytes of ` `.
pub open spec fn sp_bytes() -> Seq<u8> {
    seq![32u8]
}

/// The bytes of ` `, as a vector.
pub fn sp() -> (r: Vec<u8>)
    ensures
        r@ == sp_bytes(),
{
    let mut v: Vec<u8> = Vec::new();

    v.push(32);

    assert(v@ =~= sp_bytes());
    v
}

/// The bytes of `Connection`.
pub open spec fn connection_name_bytes() -> Seq<u8> {
    seq![67u8, 111, 110, 110, 101, 99, 116, 105, 111, 110]
}

/// The bytes of `Connection`, as a vector.
pub fn connection_name() -> (r: Vec<u8>)
    ensures
        r@ == connection_name_bytes(),
{
    let mut v: Vec<u8> = Vec::new();

    v.push(67);

    v.push(111);

    v.push(110);

    v.push(110);

    v.push(101);

    v.push(99);

    v.push(116);

    v.push(105);

    v.push(111);

    v.push(110);

    assert(v@ =~= connection_name_bytes());
    v
}

/// The bytes of `Upgrade`.
pub open spec fn upgrade_value_bytes() -> Seq<u8> {
    seq![85u8, 112, 103, 114, 97, 100, 101]
}

/// The bytes of `Upgrade`, as a vector.
pub fn upgrade_value() -> (r: Vec<u8>)
    ensures
        r@ == upgrade_value_bytes(),
{
    let mut v: Vec<u8> = Vec::new();

    v.push(85);

    v.push(112);

    v.push(103);

    v.push(114);

    v.push(97);

    v.push(100);

    v.push(101);

    assert(v@ =~= upgrade_value_bytes());
    v
}

/// The bytes of `websocket`.
pub open spec fn websocket_value_bytes() -> Seq<u8> {
    seq![119u8, 101, 98, 115, 111, 99, 107, 101, 116]
}

/// The bytes of `websocket`, as a vector.
pub fn websocket_value() -> (r: Vec<u8>)
    ensures
        r@ == websocket_value_bytes(),
{
    let mut v: Vec<u8> = Vec::new();

    v.push(119);

    v.push(101);

    v.push(98);

    v.push(115);

    v.push(111);

    v.push(99);

    v.push(107);

    v.push(101);

    v.push(116);

    assert(v@ =~= websocket_value_bytes());
    v
}

/// The bytes of `Sec-WebSocket-Version`.
pub open spec fn ws_version_name_bytes() -> Seq<u8> {
    seq![83u8, 101, 99, 45, 87, 101, 98, 83, 111, 99, 107, 101, 116, 45, 86, 101, 114, 115, 105, 111, 110]
}

/// The bytes of `Sec-WebSocket-Version`, as a vector.
pub fn ws_version_name() -> (r: Vec<u8>)
    ensures
        r@ == ws_version_name_bytes(),
{
    let mut v: Vec<u8> = Vec::new();

    v.push(83);

    v.push(101);

    v.push(99);

    v.push(45);

    v.push(87);

    v.push(101);

    v.push(98);

    v.push(83);

    v.push(111);

    v.push(99);

    v.push(107);

    v.push(101);

    v.push(116);

    v.push(45);

    v.push(86);

    v.push(101);

    v.push(114);

    v.push(115);

    v.push(105);

    v.push(111);

    v.push(110);

    assert(v@ =~= ws_version_name_bytes());
    v
}

/// The bytes of `13`.
pub open spec fn thirteen_value_bytes() -> Seq<u8> {
    seq![49u8, 51]
}

/// The bytes of `13`, as a vector.
pub fn thirteen_value() -> (r: Vec<u8>)
    ensures
        r@ == thirteen_value_bytes(),
{
    let mut v: Vec<u8> = Vec::new();

    v.push(49);

    v.push(51);

    assert(v@ =~= thirteen_value_bytes());
    v
}

/// The bytes of `Host`.
pub open spec fn host_name_bytes() -> Seq<u8> {
    seq![72u8, 111, 115, 116]
}

/// The bytes of `Host`, as a vector.
pub fn host_name() -> (r: Vec<u8>)
    ensures
        r@ == host_name_bytes(),
{
    let mut v: Vec<u8> = Vec::new();

    v.push(72);

    v.push(111);

    v.push(115);

    v.push(116);

    assert(v@ =~= host_name_bytes());
    v
}

/// The bytes of `Sec-WebSocket-Key`.
pub open spec fn ws_key_name_bytes() -> Seq<u8> {
    seq![83u8, 101, 99, 45, 87, 101, 98, 83, 111, 99, 107, 101, 116, 45, 75, 101, 121]
}

/// The bytes of `Sec-WebSocket-Key`, as a vector.
pub fn ws_key_name() -> (r: Vec<u8>)
    ensures
        r@ == ws_key_name_bytes(),
{
    let mut v: Vec<u8> = Vec::new();

    v.push(83);

    v.push(101);

    v.push(99);

    v.push(45);

    v.push(87);

    v.push(101);

    v.push(98);

    v.push(83);

    v.push(111);

    v.push(99);

    v.push(107);

    v.push(101);

    v.push(116);

    v.push(45);

    v.push(75);

    v.push(101);

    v.push(121);

    assert(v@ =~= ws_key_name_bytes());
    v
}

/// The bytes of `Content-Length`.
pub open spec fn content_length_name_bytes() -> Seq<u8> {
    seq![67u8, 111, 110, 116, 101, 110, 116, 45, 76, 101, 110, 103, 116, 104]
}

/// The bytes of `Content-Length`, as a vector.
pub fn content_length_name() -> (r: Vec<u8>)
    ensures
        r@ == content_length_name_bytes(),
{
    let mut v: Vec<u8> = Vec::new();

    v.push(67);

    v.push(111);

    v.push(110);

    v.push(116);

    v.push(101);

    v.push(110);

    v.push(116);

    v.push(45);

    v.push(76);

    v.push(101);

    v.push(110);

    v.push(103);

    v.push(116);

    v.push(104);

    assert(v@ =~= content_length_name_bytes());
    v
}

} // verus!
