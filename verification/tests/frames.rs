use mcclankattack::clanker::error::ClankerError;
use mcclankattack::clanker::frame::{
    decode_frame, encode_frame, packed_body, read_frame, seal_frame, split_packet,
};
use mcclankattack::clanker::mc::{ByteCursor, VarintState, VarintStep};

fn payload(packet_id: u8, body: &[u8]) -> Vec<u8> {
    let mut data = vec![packet_id];
    data.extend_from_slice(body);
    data
}

fn patterned(len: usize) -> Vec<u8> {
    (0..len).map(|i| (i * 7 % 251) as u8).collect()
}

#[test]
fn plain_frame_layout() {
    let frame = encode_frame(&[0x2B, 1, 2, 3], false, 0).unwrap();
    assert_eq!(frame, vec![4, 0x2B, 1, 2, 3]);
    // the threshold plays no part without compression
    assert_eq!(encode_frame(&[0x2B, 1, 2, 3], false, 1).unwrap(), frame);

    let long = payload(0x0E, &patterned(299));
    let frame = encode_frame(&long, false, 0).unwrap();
    assert_eq!(&frame[..2], &[0xAC, 0x02]);
    assert_eq!(&frame[2..], &long[..]);
}

#[test]
fn plain_frame_round_trip() {
    for body in [Vec::new(), vec![0u8], vec![1, 2, 3], patterned(127), patterned(128), patterned(5000)] {
        for packet_id in [0x00u8, 0x03, 0x2B, 0x7F] {
            let frame = encode_frame(&payload(packet_id, &body), false, 0).unwrap();
            let mut cursor = ByteCursor::new(&frame);
            assert_eq!(read_frame(&mut cursor, false), Ok((packet_id as i32, body.clone())));
            assert_eq!(cursor.remaining(), 0);
        }
    }
}

#[test]
fn plain_frame_round_trip_with_a_long_packet_id() {
    // packet id 300 takes two bytes
    let mut data = vec![0xAC, 0x02];
    data.extend_from_slice(&[9, 9, 9]);
    let frame = encode_frame(&data, false, 0).unwrap();
    let mut cursor = ByteCursor::new(&frame);
    assert_eq!(read_frame(&mut cursor, false), Ok((300, vec![9, 9, 9])));
}

#[test]
fn literal_frame_has_a_zero_marker() {
    let data = payload(0x1B, &[1, 2, 3, 4, 5, 6, 7, 8]);
    let frame = encode_frame(&data, true, 256).unwrap();
    // outer length, zero marker, the payload as it is
    let mut expected = vec![10, 0];
    expected.extend_from_slice(&data);
    assert_eq!(frame, expected);

    let mut cursor = ByteCursor::new(&frame);
    assert_eq!(read_frame(&mut cursor, true), Ok((0x1B, vec![1, 2, 3, 4, 5, 6, 7, 8])));
}

#[test]
fn literal_frame_just_below_the_threshold() {
    let data = payload(0x08, &patterned(63));
    let frame = encode_frame(&data, true, 65).unwrap();
    assert_eq!(frame[0] as usize, data.len() + 1);
    assert_eq!(frame[1], 0);
    assert_eq!(&frame[2..], &data[..]);
}

#[test]
fn packed_frame_has_the_length_as_marker() {
    let data = payload(0x0E, &[b'A'; 64]);
    // at the threshold exactly
    let frame = encode_frame(&data, true, 65).unwrap();
    assert_eq!(frame[0] as usize, frame.len() - 1);
    // the marker is the payload's length, which is not zero
    assert_eq!(frame[1], 65);
    // a zlib stream follows, shorter than what went in
    assert_eq!(frame[2], 0x78);
    assert!(frame.len() < data.len());
    assert_ne!(&frame[2..], &data[..]);

    let mut cursor = ByteCursor::new(&frame);
    assert_eq!(read_frame(&mut cursor, true), Ok((0x0E, vec![b'A'; 64])));
    assert_eq!(cursor.remaining(), 0);
}

#[test]
fn packed_frame_round_trip() {
    for len in [0usize, 1, 63, 64, 255, 256, 1000, 70_000] {
        let body = patterned(len);
        for threshold in [0usize, 1, 64, 256] {
            let data = payload(0x2C, &body);
            let frame = encode_frame(&data, true, threshold).unwrap();
            let mut cursor = ByteCursor::new(&frame);
            assert_eq!(read_frame(&mut cursor, true), Ok((0x2C, body.clone())), "{len} {threshold}");
            assert_eq!(cursor.remaining(), 0);

            let mut marker = ByteCursor::new(&frame);
            let outer = mcclankattack::clanker::mc::read_varint(&mut marker).unwrap();
            assert_eq!(outer as usize, marker.remaining());
            let inner = mcclankattack::clanker::mc::read_varint(&mut marker).unwrap();
            if data.len() >= threshold {
                assert_eq!(inner as usize, data.len());
            } else {
                assert_eq!(inner, 0);
                assert_eq!(marker.rest(), &data[..]);
            }
        }
    }
}

#[test]
fn frame_of_a_stream_that_another_compressor_made() {
    // zlib at its default level on 0x0E and 64 times 'A'
    let packed = [120u8, 156, 227, 115, 164, 16, 0, 0, 20, 13, 16, 79];
    let mut body = vec![65u8];
    body.extend_from_slice(&packed);
    assert_eq!(decode_frame(&body, true), Ok((0x0E, vec![b'A'; 64])));

    // the declared length is not held against what comes out
    let mut body = vec![7u8];
    body.extend_from_slice(&packed);
    assert_eq!(decode_frame(&body, true), Ok((0x0E, vec![b'A'; 64])));
}

#[test]
fn frame_that_does_not_decompress() {
    assert_eq!(decode_frame(&[5, 1, 2, 3, 4, 5], true), Err(ClankerError::DecompressionFailed));
    assert_eq!(decode_frame(&[5], true), Err(ClankerError::DecompressionFailed));
    // a stream that ends too early
    assert_eq!(
        decode_frame(&[65, 120, 156, 227, 115, 164], true),
        Err(ClankerError::DecompressionFailed)
    );
}

#[test]
fn frame_body_without_a_marker_or_an_id() {
    assert_eq!(decode_frame(&[], true), Err(ClankerError::VarintTruncated));
    assert_eq!(decode_frame(&[], false), Err(ClankerError::VarintTruncated));
    assert_eq!(decode_frame(&[0], true), Err(ClankerError::VarintTruncated));
    assert_eq!(decode_frame(&[0x80], false), Err(ClankerError::VarintTruncated));
    assert_eq!(
        decode_frame(&[0x80, 0x80, 0x80, 0x80, 0x80, 0x00], false),
        Err(ClankerError::VarintTooLong)
    );
}

#[test]
fn frame_with_a_marker_below_zero_is_literal() {
    let body = [0xFF, 0xFF, 0xFF, 0xFF, 0x0F, 0x2B, 7];
    assert_eq!(decode_frame(&body, true), Ok((0x2B, vec![7])));
}

#[test]
fn frame_cut_short() {
    let mut cursor = ByteCursor::new(&[4, 0x2B, 1, 2]);
    assert_eq!(read_frame(&mut cursor, false), Err(ClankerError::FrameTruncated));
    let mut cursor = ByteCursor::new(&[]);
    assert_eq!(read_frame(&mut cursor, false), Err(ClankerError::VarintTruncated));
    let mut cursor = ByteCursor::new(&[0xFF, 0xFF, 0xFF, 0xFF, 0x0F, 1, 2]);
    assert_eq!(read_frame(&mut cursor, false), Err(ClankerError::FrameTruncated));
}

#[test]
fn empty_frame_holds_no_packet() {
    let mut cursor = ByteCursor::new(&[0, 9]);
    assert_eq!(read_frame(&mut cursor, false), Err(ClankerError::VarintTruncated));
    assert_eq!(cursor.remaining(), 1);
}

#[test]
fn frames_read_one_after_the_other() {
    let first = encode_frame(&payload(0x1B, &[1, 2, 3]), true, 64).unwrap();
    let second = encode_frame(&payload(0x08, &patterned(500)), true, 64).unwrap();
    let third = encode_frame(&payload(0x00, &[]), true, 64).unwrap();

    for order in [[&first, &second, &third], [&second, &first, &third], [&third, &second, &first]] {
        let mut wire = Vec::new();
        for frame in order {
            wire.extend_from_slice(frame);
        }
        let mut cursor = ByteCursor::new(&wire);
        for frame in order {
            let mut alone = ByteCursor::new(frame);
            assert_eq!(read_frame(&mut cursor, true), read_frame(&mut alone, true));
        }
        assert_eq!(cursor.remaining(), 0);
    }
}

#[test]
fn sealing_and_packing() {
    assert_eq!(seal_frame(&[]), Ok(vec![0]));
    assert_eq!(seal_frame(&[7, 8]), Ok(vec![2, 7, 8]));
    assert_eq!(packed_body(300, vec![1, 2]), vec![0xAC, 0x02, 1, 2]);
    assert_eq!(split_packet(&[0xAC, 0x02, 5]), Ok((300, vec![5])));
    assert_eq!(split_packet(&[0x03]), Ok((3, Vec::new())));
    assert_eq!(split_packet(&[]), Err(ClankerError::VarintTruncated));
}

fn feed(bytes: &[u8]) -> Option<Result<i32, ClankerError>> {
    let mut state = VarintState::new();
    for &byte in bytes {
        match state.push(byte) {
            VarintStep::More(next) => state = next,
            VarintStep::Done(value) => return Some(Ok(value)),
            VarintStep::TooLong => return Some(Err(ClankerError::VarintTooLong)),
        }
    }
    None
}

#[test]
fn varint_byte_by_byte() {
    assert_eq!(feed(&[]), None);
    assert_eq!(feed(&[0x00]), Some(Ok(0)));
    assert_eq!(feed(&[0xAC, 0x02]), Some(Ok(300)));
    assert_eq!(feed(&[0xAC]), None);
    assert_eq!(feed(&[0xFF, 0xFF, 0xFF, 0xFF, 0x07]), Some(Ok(i32::MAX)));
    assert_eq!(feed(&[0xFF, 0xFF, 0xFF, 0xFF, 0x0F]), Some(Ok(-1)));
    assert_eq!(feed(&[0xFF, 0xFF, 0xFF, 0xFF, 0xFF]), None);
    assert_eq!(feed(&[0xFF, 0xFF, 0xFF, 0xFF, 0xFF, 0x00]), Some(Err(ClankerError::VarintTooLong)));
    // what the stepwise reader says is what the reader of a buffer says
    for bytes in [vec![0x00], vec![0x85, 0x00], vec![0xDD, 0xC7, 0x01], vec![0x80, 0x80, 0x80, 0x80, 0x08]] {
        let mut cursor = ByteCursor::new(&bytes);
        assert_eq!(feed(&bytes), Some(mcclankattack::clanker::mc::read_varint(&mut cursor)));
    }
}

#[test]
fn frame_too_large_for_a_varint() {
    // zeroed pages that are never touched: the length alone is looked at
    let len = i32::MAX as usize + 1;
    let huge = vec![0u8; len];
    assert_eq!(seal_frame(&huge), Err(ClankerError::FrameTooLarge));
    assert_eq!(encode_frame(&huge, false, 0), Err(ClankerError::FrameTooLarge));
    assert_eq!(encode_frame(&huge, true, 0), Err(ClankerError::FrameTooLarge));
    assert_eq!(encode_frame(&huge, true, usize::MAX), Err(ClankerError::FrameTooLarge));
}
