use mcclankattack::clanker::frame::{encode_frame, read_frame};
use mcclankattack::clanker::mc::ByteCursor;
use mcclankattack::clanker::pckt::{chat_message_at, keep_alive};

/// Two writers take turns at the wire in an order that `seed` decides. Each
/// turn puts one whole frame on the wire.
fn interleave(seed: u64, first: &[Vec<u8>], second: &[Vec<u8>]) -> Vec<u8> {
    let mut wire = Vec::new();
    let mut state = seed;
    let (mut i, mut j) = (0, 0);
    while i < first.len() || j < second.len() {
        state = state.wrapping_mul(6364136223846793005).wrapping_add(1442695040888963407);
        let take_first = j == second.len() || (i < first.len() && (state >> 33) % 2 == 0);
        let packet = if take_first {
            i += 1;
            &first[i - 1]
        } else {
            j += 1;
            &second[j - 1]
        };
        wire.extend_from_slice(&encode_frame(packet, true, 64).unwrap());
    }
    wire
}

#[test]
fn two_writers_never_tear_a_frame() {
    let replies: Vec<Vec<u8>> =
        (0..100u32).map(|i| keep_alive(i.to_be_bytes().repeat(1 + (i as usize % 40)))).collect();
    let chats: Vec<Vec<u8>> = (0..100i64)
        .map(|i| chat_message_at(&"spam ".repeat(1 + (i as usize % 30)), 1_700_000_000_000 + i))
        .collect();

    for seed in 0..20 {
        let wire = interleave(seed, &replies, &chats);
        let mut cursor = ByteCursor::new(&wire);
        let mut seen_replies = Vec::new();
        let mut seen_chats = Vec::new();
        while cursor.remaining() > 0 {
            let (packet_id, body) = read_frame(&mut cursor, true).unwrap();
            let mut packet = vec![packet_id as u8];
            packet.extend_from_slice(&body);
            match packet_id {
                0x1B => seen_replies.push(packet),
                0x08 => seen_chats.push(packet),
                other => panic!("a frame with packet id {other} was never sent"),
            }
        }
        // every frame came whole, and each writer's frames came in its order
        assert_eq!(seen_replies, replies);
        assert_eq!(seen_chats, chats);
    }
}

#[test]
fn two_frames_in_either_order() {
    let reply = keep_alive(vec![1, 2, 3, 4, 5, 6, 7, 8]);
    let chat = chat_message_at("hello", 1_700_000_000_000);
    let reply_frame = encode_frame(&reply, false, 0).unwrap();
    let chat_frame = encode_frame(&chat, false, 0).unwrap();

    let mut wire = reply_frame.clone();
    wire.extend_from_slice(&chat_frame);
    let mut cursor = ByteCursor::new(&wire);
    assert_eq!(read_frame(&mut cursor, false), Ok((0x1B, reply[1..].to_vec())));
    assert_eq!(read_frame(&mut cursor, false), Ok((0x08, chat[1..].to_vec())));
    assert_eq!(cursor.remaining(), 0);

    let mut wire = chat_frame.clone();
    wire.extend_from_slice(&reply_frame);
    let mut cursor = ByteCursor::new(&wire);
    assert_eq!(read_frame(&mut cursor, false), Ok((0x08, chat[1..].to_vec())));
    assert_eq!(read_frame(&mut cursor, false), Ok((0x1B, reply[1..].to_vec())));
    assert_eq!(cursor.remaining(), 0);
}
