use mcclankattack::clanker::error::ClankerError;
use mcclankattack::clanker::{
    game_step, generate_player_uuid, join_opening, join_step, uuid_from_digest, Clanker, JoinStep,
    State,
};

#[test]
fn uuid_of_known_names() {
    assert_eq!(
        generate_player_uuid("Notch"),
        [181, 10, 211, 133, 130, 157, 49, 65, 162, 22, 126, 125, 117, 57, 186, 127]
    );
    assert_eq!(
        generate_player_uuid("Steve"),
        [86, 39, 221, 152, 230, 190, 60, 33, 184, 168, 233, 35, 68, 24, 54, 65]
    );
    assert_eq!(
        generate_player_uuid(""),
        [252, 91, 195, 101, 174, 223, 48, 168, 139, 137, 4, 228, 98, 226, 155, 222]
    );
    assert_eq!(
        generate_player_uuid("h\u{e9}"),
        [76, 92, 113, 203, 243, 10, 60, 3, 131, 11, 165, 49, 55, 172, 144, 101]
    );
}

#[test]
fn uuid_is_a_function_of_the_name() {
    for name in ["a", "b", "clanker0", "clanker1", "A much longer name than usual 123"] {
        assert_eq!(generate_player_uuid(name), generate_player_uuid(name));
    }
    assert_ne!(generate_player_uuid("clanker0"), generate_player_uuid("clanker1"));
    assert_ne!(generate_player_uuid("a"), generate_player_uuid("A"));
}

#[test]
fn uuid_carries_version_and_variant() {
    for i in 0..200 {
        let uuid = generate_player_uuid(&format!("player{i}"));
        assert_eq!(uuid[6] & 0xF0, 0x30);
        assert_eq!(uuid[8] & 0xC0, 0x80);
    }
}

#[test]
fn uuid_marks_leave_the_other_bits() {
    let uuid = uuid_from_digest([0xFF; 16]);
    assert_eq!(
        uuid,
        [0xFF, 0xFF, 0xFF, 0xFF, 0xFF, 0xFF, 0x3F, 0xFF, 0xBF, 0xFF, 0xFF, 0xFF, 0xFF, 0xFF, 0xFF, 0xFF]
    );
    let uuid = uuid_from_digest([0x00; 16]);
    assert_eq!(uuid, [0, 0, 0, 0, 0, 0, 0x30, 0, 0x80, 0, 0, 0, 0, 0, 0, 0]);
    let uuid = uuid_from_digest([0xA5; 16]);
    assert_eq!(uuid[6], 0x35);
    assert_eq!(uuid[8], 0xA5);
}

#[test]
fn new_session_has_no_compression() {
    let clanker = Clanker::new("Notch".to_string(), "example.com:25565".to_string());
    assert_eq!(clanker.name, "Notch");
    assert_eq!(clanker.remote_address, "example.com:25565");
    assert_eq!(clanker.uuid, generate_player_uuid("Notch"));
    assert!(!clanker.compression);
    assert_eq!(clanker.compression_threshold, 0);
}

#[test]
fn opening_is_handshake_then_login() {
    let clanker = Clanker::new("Notch".to_string(), "example.com:25566".to_string());
    let (handshake, login) = join_opening(&clanker).unwrap();

    let mut expected = vec![0x00, 0x86, 0x06, 11];
    expected.extend_from_slice(b"example.com");
    expected.extend_from_slice(&[0x63, 0xDE, 0x02]);
    assert_eq!(handshake, expected);

    let mut expected = vec![0x00, 5];
    expected.extend_from_slice(b"Notch");
    expected.extend_from_slice(&clanker.uuid);
    assert_eq!(login, expected);
}

#[test]
fn opening_fails_on_a_bad_address() {
    let clanker = Clanker::new("Notch".to_string(), "example.com".to_string());
    assert_eq!(join_opening(&clanker), Err(ClankerError::InvalidAddress));
}

#[test]
fn opening_fails_on_a_name_too_long_for_a_varint() {
    let len = i32::MAX as usize + 1;
    let name = String::from_utf8(vec![0u8; len]).unwrap();
    let clanker = Clanker {
        name,
        uuid: [0; 16],
        remote_address: "example.com:25565".to_string(),
        compression: false,
        compression_threshold: 0,
    };
    assert_eq!(join_opening(&clanker), Err(ClankerError::StringTooLong));
}

fn fresh() -> Clanker {
    Clanker::new("Notch".to_string(), "example.com:25565".to_string())
}

#[test]
fn scripted_join() {
    let mut clanker = fresh();
    let mut sent: Vec<Vec<u8>> = Vec::new();
    let mut state = State::Hello;
    let packs = vec![1, 9, b'm', b'i', b'n', b'e', b'c', b'r', b'a', b'f', b't', 4, b'c', b'o', b'r', b'e', 4, b'1', b'.', b'2', b'1'];
    let script: Vec<(i32, Vec<u8>)> = vec![
        (0x03, vec![0x80, 0x02]),    // set compression, threshold 256
        (0x02, vec![0; 30]),         // login success
        (0x0E, packs.clone()),       // clientbound known packs
        (0x03, Vec::new()),          // finish configuration
        (0x30, vec![0; 50]),         // login play
        (0x2C, vec![0; 100]),        // chunk data and update light
    ];
    let mut joined = false;
    for (packet_id, packet) in script {
        assert!(!joined);
        match join_step(&mut clanker, state, packet_id, packet).unwrap() {
            JoinStep::Continue { state: next, reply } => {
                state = next;
                sent.extend(reply);
            }
            JoinStep::Joined { loaded } => {
                sent.push(loaded);
                joined = true;
            }
        }
    }
    assert!(joined);
    let mut known_packs = vec![0x07];
    known_packs.extend_from_slice(&packs);
    // login ack, known packs, ack of finish configuration, player loaded;
    // and no teleport was confirmed, as no position came
    assert_eq!(sent, vec![vec![0x03], known_packs, vec![0x03], vec![0x2B]]);
    assert!(clanker.compression);
    assert_eq!(clanker.compression_threshold, 256);
}

#[test]
fn hello_sets_compression() {
    let mut clanker = fresh();
    let step = join_step(&mut clanker, State::Hello, 0x03, vec![0x40]);
    assert_eq!(step, Ok(JoinStep::Continue { state: State::Hello, reply: None }));
    assert!(clanker.compression);
    assert_eq!(clanker.compression_threshold, 64);
    assert_eq!(clanker.name, "Notch");
    assert_eq!(clanker.uuid, generate_player_uuid("Notch"));
}

#[test]
fn hello_takes_a_threshold_below_zero_as_a_machine_word() {
    let mut clanker = fresh();
    let step = join_step(&mut clanker, State::Hello, 0x03, vec![0xFF, 0xFF, 0xFF, 0xFF, 0x0F]);
    assert_eq!(step, Ok(JoinStep::Continue { state: State::Hello, reply: None }));
    assert!(clanker.compression);
    assert_eq!(clanker.compression_threshold, usize::MAX);
    assert_eq!(clanker.compression_threshold, -1i32 as usize);

    let mut clanker = fresh();
    let _ = join_step(&mut clanker, State::Hello, 0x03, vec![0x80, 0x80, 0x80, 0x80, 0x08]);
    assert_eq!(clanker.compression_threshold, i32::MIN as usize);
}

#[test]
fn hello_without_a_threshold_changes_nothing() {
    let mut clanker = fresh();
    let step = join_step(&mut clanker, State::Hello, 0x03, Vec::new());
    assert_eq!(step, Err(ClankerError::VarintTruncated));
    assert!(!clanker.compression);
    assert_eq!(clanker.compression_threshold, 0);
}

#[test]
fn hello_refuses_encryption() {
    let mut clanker = fresh();
    let step = join_step(&mut clanker, State::Hello, 0x01, vec![1, 2, 3]);
    assert_eq!(step, Err(ClankerError::EncryptionUnsupported));
}

#[test]
fn hello_refuses_what_it_does_not_know() {
    for packet_id in [0x00, 0x04, 0x0E, 0x2C, 0x30, 0x46, -1, i32::MAX] {
        let mut clanker = fresh();
        let step = join_step(&mut clanker, State::Hello, packet_id, vec![1, 2, 3]);
        assert_eq!(step, Err(ClankerError::UnknownPacket(packet_id)));
        assert!(!clanker.compression);
    }
}

#[test]
fn hello_acknowledges_login() {
    let mut clanker = fresh();
    let step = join_step(&mut clanker, State::Hello, 0x02, vec![9; 20]);
    assert_eq!(
        step,
        Ok(JoinStep::Continue { state: State::Configuration, reply: Some(vec![0x03]) })
    );
    assert!(!clanker.compression);
}

#[test]
fn configuration_passes_over_what_it_does_not_know() {
    for packet_id in [0x00, 0x01, 0x02, 0x04, 0x07, 0x2C, 0x46, -5, 12345] {
        let mut clanker = fresh();
        let step = join_step(&mut clanker, State::Configuration, packet_id, vec![1, 2, 3]);
        assert_eq!(step, Ok(JoinStep::Continue { state: State::Configuration, reply: None }));
        assert!(!clanker.compression);
    }
}

#[test]
fn configuration_steps() {
    let mut clanker = fresh();
    assert_eq!(
        join_step(&mut clanker, State::Configuration, 0x0E, vec![5, 6]),
        Ok(JoinStep::Continue { state: State::Configuration, reply: Some(vec![0x07, 5, 6]) })
    );
    assert_eq!(
        join_step(&mut clanker, State::Configuration, 0x03, vec![5, 6]),
        Ok(JoinStep::Continue { state: State::Configuration, reply: Some(vec![0x03]) })
    );
    assert_eq!(
        join_step(&mut clanker, State::Configuration, 0x30, vec![5, 6]),
        Ok(JoinStep::Continue { state: State::Game, reply: None })
    );
    assert!(!clanker.compression);
}

#[test]
fn game_steps_while_joining() {
    let mut clanker = fresh();
    assert_eq!(
        join_step(&mut clanker, State::Game, 0x46, vec![0xAC, 0x02, 0, 0, 0]),
        Ok(JoinStep::Continue { state: State::Game, reply: Some(vec![0x00, 0xAC, 0x02]) })
    );
    assert_eq!(
        join_step(&mut clanker, State::Game, 0x46, Vec::new()),
        Err(ClankerError::VarintTruncated)
    );
    assert_eq!(
        join_step(&mut clanker, State::Game, 0x2C, vec![1; 10]),
        Ok(JoinStep::Joined { loaded: vec![0x2B] })
    );
    for packet_id in [0x00, 0x01, 0x03, 0x0E, 0x20, 0x2B, 0x30, -1] {
        assert_eq!(
            join_step(&mut clanker, State::Game, packet_id, vec![1, 2, 3]),
            Ok(JoinStep::Continue { state: State::Game, reply: None })
        );
    }
}

#[test]
fn join_with_a_teleport_confirms_it() {
    let mut clanker = fresh();
    let mut sent: Vec<Vec<u8>> = Vec::new();
    let mut state = State::Game;
    for (packet_id, packet) in [(0x46, vec![7, 0, 0]), (0x99, vec![]), (0x2C, vec![])] {
        match join_step(&mut clanker, state, packet_id, packet).unwrap() {
            JoinStep::Continue { state: next, reply } => {
                state = next;
                sent.extend(reply);
            }
            JoinStep::Joined { loaded } => sent.push(loaded),
        }
    }
    assert_eq!(sent, vec![vec![0x00, 7], vec![0x2B]]);
}

#[test]
fn game_answers_keep_alive_with_its_body() {
    let body = vec![0, 0, 1, 0x8B, 0xCF, 0xE5, 0x68, 0x7B];
    let reply = game_step(0x2B, body.clone()).unwrap().unwrap();
    assert_eq!(reply[0], 0x1B);
    assert_eq!(&reply[1..], &body[..]);
    assert_eq!(game_step(0x2B, Vec::new()), Ok(Some(vec![0x1B])));
}

#[test]
fn game_confirms_teleports() {
    assert_eq!(game_step(0x46, vec![0x85, 0x01, 9, 9, 9]), Ok(Some(vec![0x00, 0x85, 0x01])));
    assert_eq!(game_step(0x46, Vec::new()), Err(ClankerError::VarintTruncated));
    assert_eq!(
        game_step(0x46, vec![0xFF, 0xFF, 0xFF, 0xFF, 0x0F]),
        Err(ClankerError::VarintNegative)
    );
}

#[test]
fn game_ends_on_disconnect() {
    assert_eq!(game_step(0x20, vec![1, 2, 3]), Err(ClankerError::Disconnected));
    assert_eq!(game_step(0x20, Vec::new()), Err(ClankerError::Disconnected));
}

#[test]
fn game_passes_over_the_rest() {
    for packet_id in [0x00, 0x01, 0x02, 0x03, 0x0E, 0x1B, 0x2C, 0x30, -1, i32::MAX] {
        assert_eq!(game_step(packet_id, vec![1, 2, 3]), Ok(None));
    }
}
