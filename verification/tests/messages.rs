use mcclankattack::clanker::error::ClankerError;
use mcclankattack::numeral::write_hex;
use mcclankattack::{parse_arguments, wants_help, ArgumentError};

#[test]
fn errors_in_words() {
    assert_eq!(
        ClankerError::VarintTruncated.message(),
        "unexpected end of input while reading varint"
    );
    assert_eq!(
        ClankerError::StringTruncated.message(),
        "unexpected end of input while reading string"
    );
    assert_eq!(ClankerError::StringMalformed.message(), "failed to decode string");
    assert_eq!(ClankerError::InvalidAddress.message(), "invalid minecraft address");
    assert_eq!(ClankerError::CompressionFailed.message(), "failed to finish compression");
    assert_eq!(
        ClankerError::EncryptionUnsupported.message(),
        "set encryption packet is not supported, this attacker is for offline servers btw, not online"
    );
    assert_eq!(ClankerError::Disconnected.message(), "disconnected by server :(");
}

#[test]
fn every_error_has_its_own_words() {
    let all = [
        ClankerError::VarintTruncated,
        ClankerError::VarintTooLong,
        ClankerError::VarintNegative,
        ClankerError::StringTruncated,
        ClankerError::StringMalformed,
        ClankerError::StringTooLong,
        ClankerError::InvalidAddress,
        ClankerError::FrameTooLarge,
        ClankerError::FrameTruncated,
        ClankerError::CompressionFailed,
        ClankerError::DecompressionFailed,
        ClankerError::EncryptionUnsupported,
        ClankerError::UnknownPacket(0),
        ClankerError::Disconnected,
    ];
    let mut seen = std::collections::HashSet::new();
    for error in all {
        let message = error.message();
        assert!(!message.is_empty());
        assert!(seen.insert(message));
    }
}

#[test]
fn unknown_packet_is_named_in_base_sixteen() {
    for packet_id in [0, 1, 9, 10, 15, 16, 0x2B, 0x7F, 0xFF, 0x100, 0xABCDEF, i32::MAX, -1, -2, i32::MIN] {
        assert_eq!(
            ClankerError::UnknownPacket(packet_id).message(),
            format!("unknown packet id '{packet_id:02X}' was provided")
        );
    }
    assert_eq!(
        ClankerError::UnknownPacket(4).message(),
        "unknown packet id '04' was provided"
    );
    assert_eq!(
        ClankerError::UnknownPacket(-1).message(),
        "unknown packet id 'FFFFFFFF' was provided"
    );
}

#[test]
fn hex_of_two_digits_at_least() {
    for n in [0u32, 1, 0xA, 0xF, 0x10, 0xFF, 0x100, 0xDEADBEEF, u32::MAX] {
        let mut buffer = vec![b'x'];
        write_hex(&mut buffer, n);
        assert_eq!(buffer, format!("x{n:02X}").into_bytes());
    }
}

fn words(list: &[&str]) -> Vec<String> {
    list.iter().map(|word| word.to_string()).collect()
}

#[test]
fn argument_errors_in_words() {
    let args = words(&["--destination", "h:1", "--clankers", "many", "--bogus"]);
    assert_eq!(ArgumentError::Incomplete(2).message(&args), "incomplete argument '--clankers'");
    assert_eq!(ArgumentError::Unknown(4).message(&args), "unknown argument '--bogus'");
    assert_eq!(ArgumentError::Unknown(5).message(&args), "unknown argument ''");
    assert_eq!(
        ArgumentError::EmptyDestination.message(&args),
        "destination address must not be empty"
    );
    assert_eq!(
        ArgumentError::NoClankers.message(&args),
        "the number of clankers must not be zero"
    );
    assert_eq!(ArgumentError::NoInterval.message(&args), "message interval must not be zero");
    assert_eq!(ArgumentError::MissingMessageList.message(&args), "message list is missing");
    assert_eq!(
        ArgumentError::NoThreads.message(&args),
        "the number of threads must not be zero"
    );
    assert_eq!(
        ArgumentError::NameListNotFound.message(&args),
        "name list '' doesn't exist on the filesystem"
    );
}

#[test]
fn argument_error_names_the_list_that_is_not_there() {
    let args = words(&[
        "--name-list", "first.txt", "--destination", "h:1", "--clankers", "2",
        "--message-interval", "9", "--name-list", "names of bots.txt",
    ]);
    let error = match parse_arguments(&args, 1, false) {
        Ok(_) => panic!("these arguments start a fleet"),
        Err(e) => e,
    };
    assert_eq!(error, ArgumentError::NameListNotFound);
    assert_eq!(
        error.message(&args),
        "name list 'names of bots.txt' doesn't exist on the filesystem"
    );
}

#[test]
fn argument_error_names_the_flag_that_failed() {
    let args = words(&["--destination", "h:1", "--threads", "x"]);
    let error = match parse_arguments(&args, 1, true) {
        Ok(_) => panic!("these arguments start a fleet"),
        Err(e) => e,
    };
    assert_eq!(error.message(&args), "incomplete argument '--threads'");

    let args = words(&["--destination", "h:1", "--speed", "9"]);
    let error = match parse_arguments(&args, 1, true) {
        Ok(_) => panic!("these arguments start a fleet"),
        Err(e) => e,
    };
    assert_eq!(error.message(&args), "unknown argument '--speed'");
}

#[test]
fn help_is_asked_for_in_six_ways() {
    for flag in ["-help", "--help", "/help", "-?", "--?", "/?"] {
        assert!(wants_help(&words(&[flag])));
        assert!(wants_help(&words(&["program", "--clankers", "3", flag])));
        assert!(wants_help(&words(&[flag, "--clankers"])));
    }
    assert!(!wants_help(&words(&[])));
    assert!(!wants_help(&words(&["program", "--destination", "h:1"])));
    assert!(!wants_help(&words(&["help", "-h", "--Help", "?", "--help "])));
}
