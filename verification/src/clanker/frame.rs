use crate::clanker::error::{same_bytes, ClankerError};
use crate::clanker::mc::{
    append_bytes, lemma_parse_varint_len, lemma_varint_round_trip, length_of, parse_varint,
    read_varint, varint_bytes, varint_length, write_varint, ByteCursor,
};
use flate2::read::ZlibDecoder;
use flate2::write::ZlibEncoder;
use flate2::Compression;
use std::io::Read;
use std::io::Write;
use vstd::prelude::*;
use vstd::slice::slice_to_vec;

verus! {

// ---------------------------------------------------------------------------
// The compressor
// ---------------------------------------------------------------------------

/// What zlib compression at the default level makes of `data`, or nothing
/// where the compressor fails.
pub uninterp spec fn zlib_deflated(data: Seq<u8>) -> Option<Seq<u8>>;

/// What zlib decompression makes of `data`, or nothing where `data` is no
/// zlib stream.
pub uninterp spec fn zlib_inflated(data: Seq<u8>) -> Option<Seq<u8>>;

/// The error of a compressor or decompressor, carried through unread.
#[verifier::external_type_specification]
#[verifier::external_body]
pub struct ExIoError(std::io::Error);

/// `flate2::write::ZlibEncoder` at `Compression::default()`, fed all of
/// `data` and finished. Its output is `zlib_deflated(data)`, and it is a
/// stream that the decompressor turns back into `data`.
#[verifier::external_body]
fn zlib_compress(data: &[u8]) -> (packed: Result<Vec<u8>, std::io::Error>)
    ensures
        match packed {
            Ok(bytes) => zlib_deflated(data@) == Some(bytes@) && zlib_inflated(bytes@) == Some(
                data@,
            ),
            Err(_) => zlib_deflated(data@) is None,
        },
{
    let mut encoder = ZlibEncoder::new(Vec::new(), Compression::default());
    encoder.write_all(data)?;
    encoder.finish()
}

/// `flate2::read::ZlibDecoder` over `data`, read to its end. Its output is
/// `zlib_inflated(data)`.
#[verifier::external_body]
fn zlib_decompress(data: &[u8]) -> (unpacked: Result<Vec<u8>, std::io::Error>)
    ensures
        match unpacked {
            Ok(bytes) => zlib_inflated(data@) == Some(bytes@),
            Err(_) => zlib_inflated(data@) is None,
        },
{
    let mut decoder = ZlibDecoder::new(data);
    let mut decompressed = Vec::new();
    decoder.read_to_end(&mut decompressed)?;
    Ok(decompressed)
}

// ---------------------------------------------------------------------------
// The wire model
// ---------------------------------------------------------------------------

/// `body` behind its own length as a varint.
pub open spec fn length_prefixed(body: Seq<u8>) -> Seq<u8> {
    varint_bytes(body.len()) + body
}

/// The body of the frame that carries `payload`. Without compression it is
/// the payload. With compression it starts with a marker: zero and the
/// payload as it is where the payload is shorter than `threshold`, else the
/// payload's length and `deflated`, the compressed payload. A payload whose
/// length no varint holds has no frame.
pub open spec fn frame_body(
    payload: Seq<u8>,
    compression: bool,
    threshold: usize,
    deflated: Option<Seq<u8>>,
) -> Result<Seq<u8>, ClankerError> {
    if payload.len() > i32::MAX {
        Err(ClankerError::FrameTooLarge)
    } else if !compression {
        Ok(payload)
    } else if payload.len() < threshold {
        Ok(varint_bytes(0) + payload)
    } else {
        match deflated {
            None => Err(ClankerError::CompressionFailed),
            Some(packed) => Ok(varint_bytes(payload.len()) + packed),
        }
    }
}

/// The frame that carries `payload`: its body behind the body's length.
pub open spec fn frame_bytes(
    payload: Seq<u8>,
    compression: bool,
    threshold: usize,
    deflated: Option<Seq<u8>>,
) -> Result<Seq<u8>, ClankerError> {
    match frame_body(payload, compression, threshold, deflated) {
        Err(e) => Err(e),
        Ok(body) => if body.len() > i32::MAX {
            Err(ClankerError::FrameTooLarge)
        } else {
            Ok(length_prefixed(body))
        },
    }
}

/// A payload as a packet: the id that leads it, and what follows the id.
pub open spec fn packet_parts(payload: Seq<u8>) -> Result<(i32, Seq<u8>), ClankerError> {
    match parse_varint(payload) {
        Err(e) => Err(e),
        Ok((id, n)) => Ok((id, payload.skip(n as int))),
    }
}

/// What follows the marker in the body of a frame.
pub open spec fn packed_part(body: Seq<u8>) -> Seq<u8> {
    match parse_varint(body) {
        Err(_) => Seq::empty(),
        Ok((_, n)) => body.skip(n as int),
    }
}

/// The payload in the body of a frame. With compression, a marker above zero
/// says that `inflated`, the rest of the body decompressed, is the payload;
/// any other marker says that the rest of the body is.
pub open spec fn frame_payload(body: Seq<u8>, compression: bool, inflated: Option<Seq<u8>>)
    -> Result<Seq<u8>, ClankerError> {
    if !compression {
        Ok(body)
    } else {
        match parse_varint(body) {
            Err(e) => Err(e),
            Ok((marker, n)) => if marker > 0 {
                match inflated {
                    None => Err(ClankerError::DecompressionFailed),
                    Some(payload) => Ok(payload),
                }
            } else {
                Ok(body.skip(n as int))
            },
        }
    }
}

/// The packet in the body of a frame.
pub open spec fn frame_packet(body: Seq<u8>, compression: bool, inflated: Option<Seq<u8>>)
    -> Result<(i32, Seq<u8>), ClankerError> {
    match frame_payload(body, compression, inflated) {
        Err(e) => Err(e),
        Ok(payload) => packet_parts(payload),
    }
}

/// The first frame of a stream: its body and the number of bytes that the
/// frame takes, length prefix included.
pub open spec fn first_frame(stream: Seq<u8>) -> Result<(Seq<u8>, nat), ClankerError> {
    match parse_varint(stream) {
        Err(e) => Err(e),
        Ok((declared, n)) => {
            let want = length_of(declared);
            if stream.len() - n < want {
                Err(ClankerError::FrameTruncated)
            } else {
                Ok((stream.subrange(n as int, (n + want) as int), n + want))
            }
        },
    }
}

/// The packet in the first frame of a stream, as a receiver that
/// decompresses with zlib finds it.
pub open spec fn received_packet(stream: Seq<u8>, compression: bool) -> Result<
    (i32, Seq<u8>),
    ClankerError,
> {
    match first_frame(stream) {
        Err(e) => Err(e),
        Ok((body, _)) => frame_packet(body, compression, zlib_inflated(packed_part(body))),
    }
}

/// For a result that holds a packet: that it is the result `want`.
pub open spec fn same_packet(
    got: Result<(i32, Vec<u8>), ClankerError>,
    want: Result<(i32, Seq<u8>), ClankerError>,
) -> bool {
    match (got, want) {
        (Ok((id, body)), Ok((want_id, want_body))) => id == want_id && body@ == want_body,
        (Err(e), Err(f)) => e == f,
        _ => false,
    }
}

// ---------------------------------------------------------------------------
// Laws
// ---------------------------------------------------------------------------

/// A length-prefixed body is the first frame of any stream that it starts.
pub proof fn lemma_first_frame(body: Seq<u8>, rest: Seq<u8>)
    requires
        body.len() <= i32::MAX,
    ensures
        first_frame(length_prefixed(body) + rest) == Ok::<(Seq<u8>, nat), ClankerError>(
            (body, length_prefixed(body).len()),
        ),
{
    let head = varint_bytes(body.len());
    let stream = length_prefixed(body) + rest;
    assert(stream =~= head + (body + rest));
    lemma_varint_round_trip(body.len() as i32, body + rest);
    assert(stream.subrange(head.len() as int, (head.len() + body.len()) as int) =~= body);
}

/// Two frames that were each written whole, one behind the other, are read
/// as these two frames in the order of the wire, whatever the two hold.
pub proof fn lemma_frames_in_wire_order(first: Seq<u8>, second: Seq<u8>, rest: Seq<u8>)
    requires
        first.len() <= i32::MAX,
        second.len() <= i32::MAX,
    ensures
        ({
            let wire = length_prefixed(first) + length_prefixed(second) + rest;
            let after = wire.skip(length_prefixed(first).len() as int);
            &&& first_frame(wire) == Ok::<(Seq<u8>, nat), ClankerError>(
                (first, length_prefixed(first).len()),
            )
            &&& first_frame(after) == Ok::<(Seq<u8>, nat), ClankerError>(
                (second, length_prefixed(second).len()),
            )
        }),
{
    let head = length_prefixed(first);
    let tail = length_prefixed(second) + rest;
    let wire = head + length_prefixed(second) + rest;
    assert(wire =~= head + tail);
    lemma_first_frame(first, tail);
    assert(wire.skip(head.len() as int) =~= tail);
    lemma_first_frame(second, rest);
}

/// A packet id before a body is a payload that splits into the two again.
pub proof fn lemma_packet_parts(packet_id: i32, body: Seq<u8>)
    requires
        packet_id >= 0,
    ensures
        packet_parts(varint_bytes(packet_id as nat) + body) == Ok::<
            (i32, Seq<u8>),
            ClankerError,
        >((packet_id, body)),
{
    let head = varint_bytes(packet_id as nat);
    lemma_varint_round_trip(packet_id, body);
    assert((head + body).skip(head.len() as int) =~= body);
}

/// Without compression, a packet that was framed is the packet that a
/// receiver finds at the start of the stream, whatever follows the frame; an
/// empty body too.
pub proof fn lemma_plain_frame_round_trip(
    packet_id: i32,
    body: Seq<u8>,
    threshold: usize,
    deflated: Option<Seq<u8>>,
    rest: Seq<u8>,
)
    requires
        packet_id >= 0,
        varint_bytes(packet_id as nat).len() + body.len() <= i32::MAX,
    ensures
        ({
            let payload = varint_bytes(packet_id as nat) + body;
            let frame = frame_bytes(payload, false, threshold, deflated);
            &&& frame is Ok
            &&& received_packet(frame->Ok_0 + rest, false) == Ok::<(i32, Seq<u8>), ClankerError>(
                (packet_id, body),
            )
        }),
{
    let payload = varint_bytes(packet_id as nat) + body;
    lemma_first_frame(payload, rest);
    lemma_packet_parts(packet_id, body);
}

/// With compression, a payload shorter than the threshold travels as it is
/// behind a marker of exactly zero, and the receiver finds the packet that
/// was framed.
pub proof fn lemma_literal_frame_round_trip(
    packet_id: i32,
    body: Seq<u8>,
    threshold: usize,
    deflated: Option<Seq<u8>>,
    rest: Seq<u8>,
)
    requires
        packet_id >= 0,
        varint_bytes(packet_id as nat).len() + body.len() < threshold,
        varint_bytes(packet_id as nat).len() + body.len() < i32::MAX,
    ensures
        ({
            let payload = varint_bytes(packet_id as nat) + body;
            let frame = frame_bytes(payload, true, threshold, deflated);
            let inner = seq![0u8] + payload;
            &&& frame is Ok
            &&& first_frame(frame->Ok_0 + rest) == Ok::<(Seq<u8>, nat), ClankerError>(
                (inner, frame->Ok_0.len()),
            )
            &&& parse_varint(inner) == Ok::<(i32, nat), ClankerError>((0, 1))
            &&& received_packet(frame->Ok_0 + rest, true) == Ok::<(i32, Seq<u8>), ClankerError>(
                (packet_id, body),
            )
        }),
{
    let payload = varint_bytes(packet_id as nat) + body;
    let inner = varint_bytes(0) + payload;
    assert(varint_bytes(0) =~= seq![0u8]);
    lemma_first_frame(inner, rest);
    lemma_varint_round_trip(0, payload);
    assert(inner.skip(1) =~= payload);
    lemma_packet_parts(packet_id, body);
}

/// With compression, a payload at or above the threshold travels compressed
/// behind a marker above zero, its own length, and the receiver finds the
/// payload that was framed, and in it the packet: given that `packed`, what
/// the compressor made of the payload, decompresses to the payload. (A
/// payload holds its packet id, so it is not empty.)
pub proof fn lemma_packed_frame_round_trip(
    payload: Seq<u8>,
    threshold: usize,
    packed: Seq<u8>,
    rest: Seq<u8>,
)
    requires
        payload.len() > 0,
        payload.len() >= threshold,
        zlib_inflated(packed) == Some(payload),
        frame_bytes(payload, true, threshold, Some(packed)) is Ok,
    ensures
        ({
            let frame = frame_bytes(payload, true, threshold, Some(packed))->Ok_0;
            let inner = varint_bytes(payload.len()) + packed;
            &&& first_frame(frame + rest) == Ok::<(Seq<u8>, nat), ClankerError>(
                (inner, frame.len()),
            )
            &&& parse_varint(inner) matches Ok((marker, _)) && marker > 0 && marker
                == payload.len()
            &&& frame_payload(inner, true, zlib_inflated(packed_part(inner))) == Ok::<
                Seq<u8>,
                ClankerError,
            >(payload)
            &&& received_packet(frame + rest, true) == packet_parts(payload)
        }),
{
    let head = varint_bytes(payload.len());
    let inner = head + packed;
    lemma_first_frame(inner, rest);
    lemma_varint_round_trip(payload.len() as i32, packed);
    assert(inner.skip(head.len() as int) =~= packed);
}

// ---------------------------------------------------------------------------
// Sending
// ---------------------------------------------------------------------------

/// The body of a compressed frame: the payload's length, then the
/// compressed payload.
pub fn packed_body(data_len: usize, packed: Vec<u8>) -> (body: Vec<u8>)
    requires
        data_len <= i32::MAX,
    ensures
        body@ == varint_bytes(data_len as nat) + packed@,
{
    let mut inner = Vec::new();
    write_varint(&mut inner, data_len as i32);
    append_bytes(&mut inner, packed.as_slice());
    assert(inner@ =~= varint_bytes(data_len as nat) + packed@);
    inner
}

/// Puts `body` behind its length: a whole frame, ready to be sent in one
/// write.
pub fn seal_frame(body: &[u8]) -> (frame: Result<Vec<u8>, ClankerError>)
    ensures
        same_bytes(
            frame,
            if body@.len() > i32::MAX {
                Err(ClankerError::FrameTooLarge)
            } else {
                Ok(length_prefixed(body@))
            },
        ),
{
    if body.len() > i32::MAX as usize {
        return Err(ClankerError::FrameTooLarge);
    }
    let mut packet = Vec::new();
    write_varint(&mut packet, body.len() as i32);
    append_bytes(&mut packet, body);
    assert(packet@ =~= length_prefixed(body@));
    Ok(packet)
}

/// Frames `data`, a payload that starts with its packet id, for a session
/// with the given compression setting.
///
/// A frame that comes out reads back: a receiver with the same setting finds
/// `data` as the payload of the first frame. (An empty payload is no packet;
/// compressed, its marker would be zero, the mark of a literal payload.)
pub fn encode_frame(data: &[u8], compression: bool, threshold: usize) -> (frame: Result<
    Vec<u8>,
    ClankerError,
>)
    ensures
        same_bytes(frame, frame_bytes(data@, compression, threshold, zlib_deflated(data@))),
        data@.len() > 0 ==> (frame matches Ok(bytes) ==> (first_frame(bytes@) matches Ok(
            (body, n),
        ) && n == bytes@.len() && frame_payload(
            body,
            compression,
            zlib_inflated(packed_part(body)),
        ) == Ok::<Seq<u8>, ClankerError>(data@))),
{
    if data.len() > i32::MAX as usize {
        return Err(ClankerError::FrameTooLarge);
    }
    let mut inner = Vec::new();

    if compression {
        let data_len = data.len();

        if data_len >= threshold {
            let packed = match zlib_compress(data) {
                Ok(packed) => packed,
                Err(_) => {
                    return Err(ClankerError::CompressionFailed);
                },
            };
            let ghost stream = packed@;
            inner = packed_body(data_len, packed);
            proof {
                if data_len > 0 && inner@.len() <= i32::MAX {
                    lemma_packed_frame_round_trip(data@, threshold, stream, Seq::empty());
                }
            }
        } else {
            write_varint(&mut inner, 0);
            append_bytes(&mut inner, data);
            proof {
                assert(varint_bytes(0) =~= seq![0u8]);
                lemma_varint_round_trip(0, data@);
                assert(inner@ =~= varint_bytes(0) + data@);
                assert(inner@.skip(1) =~= data@);
            }
        }
    } else {
        append_bytes(&mut inner, data);
        assert(inner@ =~= data@);
    }

    proof {
        if inner@.len() <= i32::MAX {
            lemma_first_frame(inner@, Seq::empty());
            assert(length_prefixed(inner@) + Seq::<u8>::empty() =~= length_prefixed(inner@));
        }
    }
    seal_frame(inner.as_slice())
}

// ---------------------------------------------------------------------------
// Receiving
// ---------------------------------------------------------------------------

/// Splits a payload into the packet id that leads it and the bytes after it.
pub fn split_packet(payload: &[u8]) -> (packet: Result<(i32, Vec<u8>), ClankerError>)
    ensures
        same_packet(packet, packet_parts(payload@)),
{
    let mut cursor = ByteCursor::new(payload);
    let packet_id = match read_varint(&mut cursor) {
        Ok(id) => id,
        Err(e) => {
            return Err(e);
        },
    };
    let body = slice_to_vec(cursor.rest());
    Ok((packet_id, body))
}

/// Takes the packet out of the body of a frame that was received whole.
pub fn decode_frame(body: &[u8], compression: bool) -> (packet: Result<
    (i32, Vec<u8>),
    ClankerError,
>)
    ensures
        same_packet(packet, frame_packet(body@, compression, zlib_inflated(packed_part(body@)))),
{
    if compression {
        let mut cursor = ByteCursor::new(body);
        let uncompressed_len = match read_varint(&mut cursor) {
            Ok(len) => len,
            Err(e) => {
                return Err(e);
            },
        };
        let rest = cursor.rest();

        // above zero: compressed
        if uncompressed_len > 0 {
            match zlib_decompress(rest) {
                Ok(decompressed) => split_packet(decompressed.as_slice()),
                Err(_) => Err(ClankerError::DecompressionFailed),
            }
        } else {
            split_packet(rest)
        }
    } else {
        split_packet(body)
    }
}

/// Reads one frame from the cursor and takes the packet out of it. The
/// cursor moves past the frame, whatever the frame holds. Where the input
/// has no whole frame, the cursor moves past what was read of its length.
pub fn read_frame(cursor: &mut ByteCursor, compression: bool) -> (packet: Result<
    (i32, Vec<u8>),
    ClankerError,
>)
    ensures
        same_packet(packet, received_packet(old(cursor)@, compression)),
        match first_frame(old(cursor)@) {
            Ok((_, n)) => final(cursor)@ == old(cursor)@.skip(n as int),
            Err(ClankerError::VarintTooLong) => final(cursor)@ == old(cursor)@.skip(6),
            Err(ClankerError::FrameTruncated) => parse_varint(old(cursor)@) matches Ok((_, n))
                && final(cursor)@ == old(cursor)@.skip(n as int),
            Err(_) => final(cursor)@.len() == 0,
        },
{
    let ghost stream = cursor@;
    proof {
        lemma_parse_varint_len(stream);
    }
    let declared = match read_varint(cursor) {
        Ok(len) => len,
        Err(e) => {
            return Err(e);
        },
    };
    let ghost n = parse_varint(stream)->Ok_0.1;
    let body = match cursor.take(varint_length(declared)) {
        Some(body) => body,
        None => {
            return Err(ClankerError::FrameTruncated);
        },
    };
    proof {
        let want = length_of(declared);
        assert(stream.skip(n as int).take(want as int) =~= stream.subrange(
            n as int,
            (n + want) as int,
        ));
        assert(stream.skip(n as int).skip(want as int) =~= stream.skip((n + want) as int));
    }
    decode_frame(body, compression)
}

} // verus!
