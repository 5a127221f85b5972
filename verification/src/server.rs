use vstd::prelude::*;

use flate2::write::GzEncoder;
use flate2::Compression;
use std::io::Write;

verus! {

/// A message that the simulation broadcasts to every connected viewer.
#[derive(Clone, Debug)]
pub enum ServerMessage {
    Ping,
    Point,
    PoseUpdate,
    /// A piece of the map: `img` holds the encoded image whose corner is at
    /// `(x, y)`.
    MapUpdate { x: i64, y: i64, img: Box<Vec<u8>> },
}

/// A websocket frame for a viewer.
#[derive(Clone, Debug)]
pub enum WsFrame {
    Text(String),
    Binary(Vec<u8>),
}

/// Why a message could not be framed.
#[derive(Clone, Copy, Debug, PartialEq, Eq)]
pub enum FrameError {
    /// The gzip encoder reported an error.
    Compression,
}

/// The eight bytes of `v` in two's complement, most significant first.
pub open spec fn be_bytes(v: i64) -> Seq<u8> {
    let u = v as u64;
    seq![
        (u >> 56u64) as u8,
        (u >> 48u64) as u8,
        (u >> 40u64) as u8,
        (u >> 32u64) as u8,
        (u >> 24u64) as u8,
        (u >> 16u64) as u8,
        (u >> 8u64) as u8,
        u as u8,
    ]
}

/// The `i64` whose two's complement bytes, most significant first, are the
/// first eight of `b`.
pub open spec fn be_value(b: Seq<u8>) -> i64 {
    (((b[0] as u64) << 56u64) | ((b[1] as u64) << 48u64) | ((b[2] as u64) << 40u64) | ((
    b[3] as u64) << 32u64) | ((b[4] as u64) << 24u64) | ((b[5] as u64) << 16u64) | ((
    b[6] as u64) << 8u64) | (b[7] as u64)) as i64
}

/// Reading back the eight bytes of `v` gives `v`.
pub proof fn lemma_be_bytes_roundtrip(v: i64)
    ensures
        be_bytes(v).len() == 8,
        be_value(be_bytes(v)) == v,
{
    let u = v as u64;
    let b = be_bytes(v);
    assert(((((u >> 56u64) as u8) as u64) << 56u64) | ((((u >> 48u64) as u8) as u64) << 48u64)
        | ((((u >> 40u64) as u8) as u64) << 40u64) | ((((u >> 32u64) as u8) as u64) << 32u64)
        | ((((u >> 24u64) as u8) as u64) << 24u64) | ((((u >> 16u64) as u8) as u64) << 16u64)
        | ((((u >> 8u64) as u8) as u64) << 8u64) | ((u as u8) as u64) == u) by (bit_vector);
    assert((v as u64) as i64 == v) by (bit_vector);
}

/// The tag that opens a map update: the ASCII letters `MU`.
pub open spec fn map_update_tag() -> Seq<u8> {
    seq![0x4du8, 0x55u8]
}

/// The bytes of a map update before compression: the tag, `x` and `y` as
/// eight big-endian bytes each, then the image.
pub open spec fn map_update_payload(x: i64, y: i64, img: Seq<u8>) -> Seq<u8> {
    map_update_tag() + be_bytes(x) + be_bytes(y) + img
}

/// A map update payload tells its corner and its image apart: the tag, `x`
/// and `y` stand at fixed places, and the image is all that follows.
pub proof fn lemma_map_update_payload_fields(x: i64, y: i64, img: Seq<u8>)
    ensures
        ({
            let p = map_update_payload(x, y, img);
            &&& p.len() == 18 + img.len()
            &&& p.take(2) == map_update_tag()
            &&& be_value(p.subrange(2, 10)) == x
            &&& be_value(p.subrange(10, 18)) == y
            &&& p.skip(18) == img
        }),
{
    let p = map_update_payload(x, y, img);
    lemma_be_bytes_roundtrip(x);
    lemma_be_bytes_roundtrip(y);
    assert(p.take(2) =~= map_update_tag());
    assert(p.subrange(2, 10) =~= be_bytes(x));
    assert(p.subrange(10, 18) =~= be_bytes(y));
    assert(p.skip(18) =~= img);
}

/// Appends the eight bytes of `v`, most significant first.
fn push_be_bytes(out: &mut Vec<u8>, v: i64)
    ensures
        final(out)@ == old(out)@ + be_bytes(v),
{
    let u = v as u64;
    out.push((u >> 56u64) as u8);
    out.push((u >> 48u64) as u8);
    out.push((u >> 40u64) as u8);
    out.push((u >> 32u64) as u8);
    out.push((u >> 24u64) as u8);
    out.push((u >> 16u64) as u8);
    out.push((u >> 8u64) as u8);
    out.push(u as u8);
    assert(final(out)@ =~= old(out)@ + be_bytes(v));
}

/// The payload of a map update for the image `img` with its corner at
/// `(x, y)`, before compression.
pub fn encode_map_update(x: i64, y: i64, img: &[u8]) -> (bytes: Vec<u8>)
    ensures
        bytes@ == map_update_payload(x, y, img@),
{
    let mut bytes: Vec<u8> = Vec::new();
    bytes.push(0x4du8);
    bytes.push(0x55u8);
    push_be_bytes(&mut bytes, x);
    push_be_bytes(&mut bytes, y);
    let ghost before = bytes@;
    bytes.extend_from_slice(img);
    assert(bytes@ =~= before + img@);
    assert(bytes@ =~= map_update_payload(x, y, img@));
    bytes
}

/// The gzip stream that `flate2`'s `GzEncoder` writes for `data` at the
/// default level; `None` when the encoder reports an error.
pub uninterp spec fn gzip_default(data: Seq<u8>) -> Option<Seq<u8>>;

/// The ten header bytes that `GzEncoder` writes with no name, comment, extra
/// field or time set, at the default level, with the "unknown" system byte.
pub open spec fn gzip_plain_header() -> Seq<u8> {
    seq![0x1fu8, 0x8bu8, 8u8, 0u8, 0u8, 0u8, 0u8, 0u8, 0u8, 0xffu8]
}

/// `n` modulo 2^32 as four bytes, least significant first.
pub open spec fn le_u32_bytes(n: nat) -> Seq<u8> {
    let m = n % 0x1_0000_0000;
    seq![(m % 0x100) as u8, ((m / 0x100) % 0x100) as u8, ((m / 0x1_0000) % 0x100) as u8, (m / 0x100_0000) as u8]
}

/// Calls `flate2::write::GzEncoder` with `Compression::default()` on a
/// `Vec`, writes all of `data` and finishes the stream. Claimed: the result
/// is the stream that `gzip_default` names; when there is one, its source
/// shows that it opens with the ten plain header bytes and ends with the
/// length of `data` modulo 2^32, least significant byte first. What lies
/// between (the deflate data and the CRC) is not stated.
#[verifier::external_body]
fn gzip_compress(data: &[u8]) -> (r: Option<Vec<u8>>)
    ensures
        match r {
            Some(z) => gzip_default(data@) == Some(z@),
            None => gzip_default(data@) is None,
        },
        r matches Some(z) ==> {
            &&& z@.len() >= 18
            &&& z@.take(10) == gzip_plain_header()
            &&& z@.skip(z@.len() - 4) == le_u32_bytes(data@.len())
        },
{
    let mut e = GzEncoder::new(Vec::new(), Compression::default());
    match e.write_all(data) {
        Ok(()) => e.finish().ok(),
        Err(_) => None,
    }
}

/// The compressed frame of a map update: the gzip stream of its payload.
pub fn map_update_frame(x: i64, y: i64, img: &[u8]) -> (r: Result<Vec<u8>, FrameError>)
    ensures
        match gzip_default(map_update_payload(x, y, img@)) {
            Some(z) => r matches Ok(b) && b@ == z,
            None => r == Err::<Vec<u8>, FrameError>(FrameError::Compression),
        },
        r matches Ok(b) ==> b@.take(10) == gzip_plain_header(),
{
    let payload = encode_map_update(x, y, img);
    match gzip_compress(payload.as_slice()) {
        Some(z) => Ok(z),
        None => Err(FrameError::Compression),
    }
}

/// The text of the frame that answers a ping.
pub open spec fn ping_text() -> Seq<char> {
    "Ping"@
}

/// What a viewer is sent for `msg`: `Ok(None)` for messages that viewers are
/// not sent, a text frame `Ping` for a ping, and the compressed frame of a
/// map update.
pub fn outgoing_frame(msg: &ServerMessage) -> (r: Result<Option<WsFrame>, FrameError>)
    ensures
        match msg {
            ServerMessage::Ping => r matches Ok(Some(WsFrame::Text(s))) && s@ == ping_text(),
            ServerMessage::MapUpdate { x, y, img } => match gzip_default(
                map_update_payload(*x, *y, img@),
            ) {
                Some(z) => r matches Ok(Some(WsFrame::Binary(b))) && b@ == z,
                None => r == Err::<Option<WsFrame>, FrameError>(FrameError::Compression),
            },
            _ => r matches Ok(None),
        },
{
    match msg {
        ServerMessage::Ping => Ok(Some(WsFrame::Text("Ping".to_owned()))),
        ServerMessage::MapUpdate { x, y, img } => {
            match map_update_frame(*x, *y, img.as_slice()) {
                Ok(b) => Ok(Some(WsFrame::Binary(b))),
                Err(e) => Err(e),
            }
        },
        _ => Ok(None),
    }
}

} // verus!
