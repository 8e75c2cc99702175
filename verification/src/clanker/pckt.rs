use crate::clanker::error::{same_bytes, ClankerError};
use crate::clanker::mc;
use crate::clanker::mc::{long_bytes, parse_varint, port_bytes, string_bytes, varint_bytes};
use crate::numeral::{parse_decimal, read_decimal};
use vstd::prelude::*;
use vstd::slice::slice_subrange;
use vstd::string::*;
use vstd::utf8::*;

verus! {

/// The index of the last `byte` among the first `n` bytes of `s`.
pub open spec fn last_index_of(s: Seq<u8>, byte: u8, n: nat) -> Option<nat>
    decreases n,
{
    if n == 0 {
        None
    } else if s[n - 1] == byte {
        Some((n - 1) as nat)
    } else {
        last_index_of(s, byte, (n - 1) as nat)
    }
}

/// An address read as a host and a port: what stands before its last colon,
/// and the decimal number of at most sixteen bits that stands after it.
pub open spec fn parse_address(address: Seq<u8>) -> Option<(Seq<u8>, u16)> {
    match last_index_of(address, 0x3A, address.len()) {
        None => None,
        Some(colon) => match parse_decimal(address.skip((colon + 1) as int), 0xFFFF) {
            None => None,
            Some(port) => Some((address.take(colon as int), port as u16)),
        },
    }
}

/// The handshake packet for `address`: the protocol version, the host, the
/// port, and the intent to log in. An address without a colon or without a
/// port behind it has none, nor has one whose host is longer than a varint
/// can say.
pub open spec fn handshake_bytes(address: Seq<u8>) -> Result<Seq<u8>, ClankerError> {
    match parse_address(address) {
        None => Err(ClankerError::InvalidAddress),
        Some((host, port)) => if host.len() > i32::MAX {
            Err(ClankerError::StringTooLong)
        } else {
            Ok(
                varint_bytes(mc::PCKT_HANDSHAKE_ID as nat) + varint_bytes(
                    mc::MC_VERSION_1_21_11 as nat,
                ) + varint_bytes(host.len()) + host + port_bytes(port) + varint_bytes(
                    mc::PCKT_HANDSHAKE_LOGIN_INTENT as nat,
                ),
            )
        },
    }
}

/// The last `byte` among the first `n` bytes of `s` stands at `k` where it
/// stands there and nowhere behind.
proof fn lemma_last_index_of(s: Seq<u8>, byte: u8, n: nat, k: nat)
    requires
        k < n <= s.len(),
        s[k as int] == byte,
        forall|j: int| k < j < n ==> s[j] != byte,
    ensures
        last_index_of(s, byte, n) == Some(k),
    decreases n,
{
    if n > k + 1 {
        lemma_last_index_of(s, byte, (n - 1) as nat, k);
    }
}

/// An address made of a host, a colon and a port text without a colon is
/// read as this host and the number that the port text spells; the host may
/// hold colons of its own. Its handshake carries the version, the host
/// behind its length, the port and the intent to log in.
pub proof fn lemma_address_parts(host: Seq<u8>, port_text: Seq<u8>)
    requires
        forall|i: int| 0 <= i < port_text.len() ==> port_text[i] != 0x3A,
    ensures
        parse_address(host + seq![0x3Au8] + port_text) == match parse_decimal(port_text, 0xFFFF) {
            Some(port) => Some((host, port as u16)),
            None => None,
        },
        host.len() <= i32::MAX ==> (parse_decimal(port_text, 0xFFFF) matches Some(port)
            ==> handshake_bytes(host + seq![0x3Au8] + port_text) == Ok::<Seq<u8>, ClankerError>(
            varint_bytes(mc::PCKT_HANDSHAKE_ID as nat) + varint_bytes(
                mc::MC_VERSION_1_21_11 as nat,
            ) + varint_bytes(host.len()) + host + port_bytes(port as u16) + varint_bytes(
                mc::PCKT_HANDSHAKE_LOGIN_INTENT as nat,
            ),
        )),
{
    let address = host + seq![0x3Au8] + port_text;
    let colon = host.len();
    assert(address[colon as int] == 0x3A);
    assert forall|j: int| colon < j < address.len() implies address[j] != 0x3A by {
        assert(address[j] == port_text[j - colon - 1]);
    }
    lemma_last_index_of(address, 0x3A, address.len(), colon);
    assert(address.skip((colon + 1) as int) =~= port_text);
    assert(address.take(colon as int) =~= host);
}

/// The packet that confirms the teleport whose id leads `server_packet`.
pub open spec fn confirmation_bytes(server_packet: Seq<u8>) -> Result<Seq<u8>, ClankerError> {
    match parse_varint(server_packet) {
        Err(e) => Err(e),
        Ok((id, _)) => if id < 0 {
            Err(ClankerError::VarintNegative)
        } else {
            Ok(varint_bytes(mc::PCKT_CONFIRM_TELEPORTATION_ID as nat) + varint_bytes(id as nat))
        },
    }
}

/// The chat packet for `message`, sent at `timestamp` milliseconds: the
/// message, the time, a zero salt, no signature, no acknowledgements, and
/// the checksum byte.
pub open spec fn chat_message_bytes(message: Seq<char>, timestamp: i64) -> Seq<u8> {
    varint_bytes(mc::PCKT_CHAT_MESSAGE_ID as nat) + string_bytes(message) + long_bytes(timestamp)
        + long_bytes(0) + seq![0u8] + varint_bytes(0) + seq![0u8, 0u8, 0u8] + seq![1u8]
}

/// Finds the last `byte` of `s`.
pub fn find_last(s: &[u8], byte: u8) -> (found: Option<usize>)
    ensures
        match found {
            Some(i) => last_index_of(s@, byte, s@.len()) == Some(i as nat) && i < s@.len(),
            None => last_index_of(s@, byte, s@.len()) is None,
        },
{
    let mut n = s.len();
    while n > 0
        invariant
            n <= s.len(),
            last_index_of(s@, byte, s@.len()) == last_index_of(s@, byte, n as nat),
        decreases n,
    {
        if s[n - 1] == byte {
            return Some(n - 1);
        }
        n = n - 1;
    }
    None
}

/// The handshake for the server at `remote_address`, a host and a port with
/// a colon between them: the protocol version, the host, the port, and the
/// intent to log in. The host is what stands before the last colon; it alone
/// has to fit a varint.
pub fn handshake(remote_address: String) -> (packet: Result<Vec<u8>, ClankerError>)
    ensures
        same_bytes(packet, handshake_bytes(encode_utf8(remote_address@))),
{
    let mut buffer = Vec::new();
    let text = remote_address.as_str().as_bytes();
    let len = text.len();

    let colon = match find_last(text, 0x3A) {
        Some(i) => i,
        None => {
            return Err(ClankerError::InvalidAddress);
        },
    };
    let address = slice_subrange(text, 0, colon);
    let port = match read_decimal(slice_subrange(text, colon + 1, len), 0xFFFF) {
        Some(port) => port as u16,
        None => {
            return Err(ClankerError::InvalidAddress);
        },
    };
    proof {
        assert(text@.skip(colon + 1) =~= text@.subrange(colon + 1, text@.len() as int));
        assert(text@.take(colon as int) =~= address@);
    }
    if address.len() > i32::MAX as usize {
        return Err(ClankerError::StringTooLong);
    }

    // packet id
    mc::write_varint(&mut buffer, mc::PCKT_HANDSHAKE_ID);
    // protocol version
    mc::write_varint(&mut buffer, mc::MC_VERSION_1_21_11);
    // server address
    mc::write_varint(&mut buffer, address.len() as i32);
    mc::append_bytes(&mut buffer, address);
    // server port
    mc::write_port(&mut buffer, port);
    // next state
    mc::write_varint(&mut buffer, mc::PCKT_HANDSHAKE_LOGIN_INTENT);

    assert(buffer@ =~= handshake_bytes(text@)->Ok_0);
    Ok(buffer)
}

/// The start of a login: the name, then the sixteen bytes of the identifier.
pub fn login_start(username: &str, uuid: &[u8; 16]) -> (packet: Vec<u8>)
    requires
        encode_utf8(username@).len() <= i32::MAX,
    ensures
        packet@ == varint_bytes(mc::PCKT_LOGIN_START_ID as nat) + string_bytes(username@) + uuid@,
{
    let mut buffer = Vec::new();

    // packet id
    mc::write_varint(&mut buffer, mc::PCKT_LOGIN_START_ID);
    // username
    mc::write_string(&mut buffer, username);
    // uuid
    mc::append_bytes(&mut buffer, uuid.as_slice());

    assert(buffer@ =~= varint_bytes(mc::PCKT_LOGIN_START_ID as nat) + string_bytes(username@)
        + uuid@);
    buffer
}

/// The acknowledgement of a login: its id and nothing else.
pub fn login_ack() -> (packet: Vec<u8>)
    ensures
        packet@ == varint_bytes(mc::PCKT_LOGIN_ACK_ID as nat),
{
    let mut buffer = Vec::new();

    // packet id
    mc::write_varint(&mut buffer, mc::PCKT_LOGIN_ACK_ID);

    assert(buffer@ =~= varint_bytes(mc::PCKT_LOGIN_ACK_ID as nat));
    buffer
}

/// The answer to the server's list of known packs: the same list, so that
/// the server takes every pack as known.
pub fn serverbound_known_packs(clientbound_packet: Vec<u8>) -> (packet: Vec<u8>)
    ensures
        packet@ == varint_bytes(mc::PCKT_SERVERBOUND_KNOWN_PACKS_ID as nat) + clientbound_packet@,
{
    let mut buffer = Vec::new();

    // packet id
    mc::write_varint(&mut buffer, mc::PCKT_SERVERBOUND_KNOWN_PACKS_ID);
    // the server's own list of packs, as it came
    mc::append_bytes(&mut buffer, clientbound_packet.as_slice());

    assert(buffer@ =~= varint_bytes(mc::PCKT_SERVERBOUND_KNOWN_PACKS_ID as nat)
        + clientbound_packet@);
    buffer
}

/// The acknowledgement of the end of configuration: its id and nothing
/// else.
pub fn login_ack_finish_configuration() -> (packet: Vec<u8>)
    ensures
        packet@ == varint_bytes(mc::PCKT_ACK_FINISH_CONFIGURATION_ID as nat),
{
    let mut buffer = Vec::new();

    // packet id
    mc::write_varint(&mut buffer, mc::PCKT_ACK_FINISH_CONFIGURATION_ID);

    assert(buffer@ =~= varint_bytes(mc::PCKT_ACK_FINISH_CONFIGURATION_ID as nat));
    buffer
}

/// The confirmation of a teleport: the id that leads the server's position
/// packet, written back. It fails where no id can be read, and where the id
/// is negative and so has no written form.
pub fn confirmation_teleportation(server_packet: Vec<u8>) -> (packet: Result<
    Vec<u8>,
    ClankerError,
>)
    ensures
        same_bytes(packet, confirmation_bytes(server_packet@)),
{
    let mut cursor = mc::ByteCursor::new(server_packet.as_slice());
    let teleportation_id = match mc::read_varint(&mut cursor) {
        Ok(id) => id,
        Err(e) => {
            return Err(e);
        },
    };
    if teleportation_id < 0 {
        return Err(ClankerError::VarintNegative);
    }
    let mut buffer = Vec::new();

    // packet id
    mc::write_varint(&mut buffer, mc::PCKT_CONFIRM_TELEPORTATION_ID);
    // teleportation id
    mc::write_varint(&mut buffer, teleportation_id);

    assert(buffer@ =~= confirmation_bytes(server_packet@)->Ok_0);
    Ok(buffer)
}

/// The notice that the player has loaded: its id and nothing else.
pub fn player_loaded() -> (packet: Vec<u8>)
    ensures
        packet@ == varint_bytes(mc::PCKT_PLAYER_LOADED_ID as nat),
{
    let mut buffer = Vec::new();

    // packet id
    mc::write_varint(&mut buffer, mc::PCKT_PLAYER_LOADED_ID);

    assert(buffer@ =~= varint_bytes(mc::PCKT_PLAYER_LOADED_ID as nat));
    buffer
}

/// The answer to a keep-alive: the body that the server sent, byte for
/// byte.
pub fn keep_alive(server_packet: Vec<u8>) -> (packet: Vec<u8>)
    ensures
        packet@ == varint_bytes(mc::PCKT_SERVERBOUND_KEEP_ALIVE_ID as nat) + server_packet@,
{
    let mut buffer = Vec::new();

    // packet id
    mc::write_varint(&mut buffer, mc::PCKT_SERVERBOUND_KEEP_ALIVE_ID);
    // keep alive id
    mc::append_bytes(&mut buffer, server_packet.as_slice());

    assert(buffer@ =~= varint_bytes(mc::PCKT_SERVERBOUND_KEEP_ALIVE_ID as nat) + server_packet@);
    buffer
}

/// The chat packet for `message`, stamped with `timestamp` milliseconds.
pub fn chat_message_at(message: &str, timestamp: i64) -> (packet: Vec<u8>)
    requires
        encode_utf8(message@).len() <= i32::MAX,
    ensures
        packet@ == chat_message_bytes(message@, timestamp),
{
    let mut buffer = Vec::new();

    // packet id
    mc::write_varint(&mut buffer, mc::PCKT_CHAT_MESSAGE_ID);
    // message
    mc::write_string(&mut buffer, message);
    // timestamp
    mc::write_long(&mut buffer, timestamp);
    // salt
    mc::write_long(&mut buffer, 0);
    // signature (0 - not present)
    buffer.push(0);
    // ack offset
    mc::write_varint(&mut buffer, 0);
    // ack list
    buffer.push(0);
    buffer.push(0);
    buffer.push(0);
    // checksum byte
    buffer.push(1);

    assert(buffer@ =~= chat_message_bytes(message@, timestamp));
    buffer
}

/// `chrono::Utc::now().timestamp_millis()`: the clock's milliseconds since
/// the Unix epoch. Nothing is claimed of the number. (The call panics where
/// the clock stands before the epoch.)
#[verifier::external_body]
fn now_millis() -> i64 {
    chrono::Utc::now().timestamp_millis()
}

/// The chat packet for `message`, stamped with the clock's time.
pub fn chat_message(message: &str) -> (packet: Vec<u8>)
    requires
        encode_utf8(message@).len() <= i32::MAX,
    ensures
        exists|timestamp: i64| packet@ == #[trigger] chat_message_bytes(message@, timestamp),
{
    chat_message_at(message, now_millis())
}

} // verus!
