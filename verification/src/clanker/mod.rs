pub mod error;
pub mod frame;
pub mod mc;
pub mod pckt;

use crate::clanker::error::ClankerError;
use crate::clanker::frame::{lemma_packet_parts, packet_parts};
use crate::clanker::mc::{length_of, parse_varint, varint_bytes};
use vstd::prelude::*;
use vstd::slice::slice_to_vec;
use vstd::string::*;
use vstd::utf8::*;

verus! {

// ---------------------------------------------------------------------------
// Identity
// ---------------------------------------------------------------------------

/// The MD5 digest of `data`: sixteen bytes.
pub uninterp spec fn md5_digest(data: Seq<u8>) -> Seq<u8>;

/// `md5::compute`. Its sixteen bytes are `md5_digest(data)`.
#[verifier::external_body]
fn md5_compute(data: &[u8]) -> (digest: [u8; 16])
    ensures
        digest@ == md5_digest(data@),
{
    md5::compute(data).0
}

/// A digest marked as a name-based identifier: the high four bits of byte 6
/// say version 3, the high two bits of byte 8 say variant `10`.
pub open spec fn uuid_of_digest(digest: Seq<u8>) -> Seq<u8> {
    digest.update(6, (digest[6] & 0x0F) | 0x30).update(8, (digest[8] & 0x3F) | 0x80)
}

/// The identifier of the offline player called `name`.
pub open spec fn player_uuid(name: Seq<char>) -> Seq<u8> {
    uuid_of_digest(md5_digest(encode_utf8("OfflinePlayer:"@) + encode_utf8(name)))
}

/// Whatever the digest, the identifier made of it has sixteen bytes, `3` as
/// the high four bits of byte 6 and `10` as the high two bits of byte 8, and
/// the digest's bits everywhere else.
pub proof fn lemma_uuid_marks(digest: Seq<u8>)
    requires
        digest.len() == 16,
    ensures
        uuid_of_digest(digest).len() == 16,
        uuid_of_digest(digest)[6] & 0xF0 == 0x30,
        uuid_of_digest(digest)[8] & 0xC0 == 0x80,
        uuid_of_digest(digest)[6] & 0x0F == digest[6] & 0x0F,
        uuid_of_digest(digest)[8] & 0x3F == digest[8] & 0x3F,
        forall|i: int| 0 <= i < 16 && i != 6 && i != 8 ==> uuid_of_digest(digest)[i] == digest[i],
{
    let a = digest[6];
    let b = digest[8];
    assert(((a & 0x0Fu8) | 0x30u8) & 0xF0u8 == 0x30u8) by (bit_vector);
    assert(((a & 0x0Fu8) | 0x30u8) & 0x0Fu8 == a & 0x0Fu8) by (bit_vector);
    assert(((b & 0x3Fu8) | 0x80u8) & 0xC0u8 == 0x80u8) by (bit_vector);
    assert(((b & 0x3Fu8) | 0x80u8) & 0x3Fu8 == b & 0x3Fu8) by (bit_vector);
}

/// Marks a digest as a name-based identifier.
pub fn uuid_from_digest(digest: [u8; 16]) -> (uuid: [u8; 16])
    ensures
        uuid@ == uuid_of_digest(digest@),
        uuid@[6] & 0xF0 == 0x30,
        uuid@[8] & 0xC0 == 0x80,
{
    let mut uuid: [u8; 16] = digest;

    uuid[6] = (uuid[6] & 0x0F) | 0x30;
    uuid[8] = (uuid[8] & 0x3F) | 0x80;

    proof {
        lemma_uuid_marks(digest@);
        assert(uuid@ =~= uuid_of_digest(digest@));
    }
    uuid
}

/// The identifier of the offline player called `username`: a function of
/// the name alone.
pub fn generate_player_uuid(username: &str) -> (uuid: [u8; 16])
    ensures
        uuid@ == player_uuid(username@),
        md5_digest(encode_utf8("OfflinePlayer:"@) + encode_utf8(username@)).len() == 16,
        uuid@[6] & 0xF0 == 0x30,
        uuid@[8] & 0xC0 == 0x80,
{
    let mut prefix = slice_to_vec("OfflinePlayer:".as_bytes());
    mc::append_bytes(&mut prefix, username.as_bytes());

    uuid_from_digest(md5_compute(prefix.as_slice()))
}

// ---------------------------------------------------------------------------
// The session
// ---------------------------------------------------------------------------

pub struct Clanker {
    pub name: String,
    pub uuid: [u8; 16],
    pub remote_address: String,
    pub compression: bool,
    pub compression_threshold: usize,
}

impl Clanker {
    /// A session that has not spoken yet: no compression.
    pub fn new(name: String, remote_address: String) -> (clanker: Clanker)
        ensures
            clanker.name@ == name@,
            clanker.uuid@ == player_uuid(name@),
            md5_digest(encode_utf8("OfflinePlayer:"@) + encode_utf8(name@)).len() == 16,
            clanker.uuid@[6] & 0xF0 == 0x30,
            clanker.uuid@[8] & 0xC0 == 0x80,
            clanker.remote_address@ == remote_address@,
            !clanker.compression,
            clanker.compression_threshold == 0,
    {
        let uuid = generate_player_uuid(name.as_str());

        Clanker { name, uuid, remote_address, compression: false, compression_threshold: 0 }
    }
}

/// The phases of joining a game.
#[derive(Clone, Copy, Debug, PartialEq, Eq, Structural)]
pub enum State {
    Hello,
    Configuration,
    Game,
}

/// What to do after one packet of the server while joining.
#[derive(Debug, PartialEq, Eq)]
pub enum JoinStep {
    /// Send `reply`, if there is one, and read the next packet in `state`.
    Continue { state: State, reply: Option<Vec<u8>> },
    /// Send `loaded`: the session has joined the game.
    Joined { loaded: Vec<u8> },
}

/// What one packet of the server does to a joining session: the phase that
/// follows (none once the game is joined), the payload to send back, and the
/// compression setting from then on.
pub struct JoinEffect {
    pub next: Option<State>,
    pub reply: Option<Seq<u8>>,
    pub compression: bool,
    pub compression_threshold: usize,
}

/// The rules of joining. Before login, every packet is known or fatal. After
/// it, what the session has no use for is passed over.
pub open spec fn join_effect(
    state: State,
    compression: bool,
    compression_threshold: usize,
    packet_id: i32,
    packet: Seq<u8>,
) -> Result<JoinEffect, ClankerError> {
    let stay = JoinEffect { next: Some(state), reply: None, compression, compression_threshold };
    match state {
        State::Hello => {
            if packet_id == mc::PCKT_SET_ENCRYPTION_ID {
                Err(ClankerError::EncryptionUnsupported)
            } else if packet_id == mc::PCKT_SET_COMPRESSION_ID {
                match parse_varint(packet) {
                    Err(e) => Err(e),
                    Ok((threshold, _)) => Ok(
                        JoinEffect {
                            compression: true,
                            compression_threshold: length_of(threshold) as usize,
                            ..stay
                        },
                    ),
                }
            } else if packet_id == mc::PCKT_LOGIN_SUCCESS_ID {
                Ok(
                    JoinEffect {
                        next: Some(State::Configuration),
                        reply: Some(varint_bytes(mc::PCKT_LOGIN_ACK_ID as nat)),
                        ..stay
                    },
                )
            } else {
                Err(ClankerError::UnknownPacket(packet_id))
            }
        },
        State::Configuration => {
            if packet_id == mc::PCKT_CLIENTBOUND_KNOWN_PACKS_ID {
                Ok(
                    JoinEffect {
                        reply: Some(
                            varint_bytes(mc::PCKT_SERVERBOUND_KNOWN_PACKS_ID as nat) + packet,
                        ),
                        ..stay
                    },
                )
            } else if packet_id == mc::PCKT_FINISH_CONFIGURATION_ID {
                Ok(
                    JoinEffect {
                        reply: Some(varint_bytes(mc::PCKT_ACK_FINISH_CONFIGURATION_ID as nat)),
                        ..stay
                    },
                )
            } else if packet_id == mc::PCKT_LOGIN_PLAY_ID {
                Ok(JoinEffect { next: Some(State::Game), ..stay })
            } else {
                Ok(stay)
            }
        },
        State::Game => {
            if packet_id == mc::PCKT_SYNCHRONIZE_PLAYER_POSITION_ID {
                match pckt::confirmation_bytes(packet) {
                    Err(e) => Err(e),
                    Ok(reply) => Ok(JoinEffect { reply: Some(reply), ..stay }),
                }
            } else if packet_id == mc::PCKT_CHUNK_DATA_AND_UPDATE_LIGHT_ID {
                Ok(
                    JoinEffect {
                        next: None,
                        reply: Some(varint_bytes(mc::PCKT_PLAYER_LOADED_ID as nat)),
                        ..stay
                    },
                )
            } else {
                Ok(stay)
            }
        },
    }
}

/// How far a session has come in joining: what it has sent, the phase that
/// it is in (none once the game is joined), and its compression setting.
pub struct JoinRun {
    pub sent: Seq<Seq<u8>>,
    pub state: Option<State>,
    pub compression: bool,
    pub compression_threshold: usize,
}

/// The two payloads that open a session: the handshake for `address`, then
/// the login of `name` with the identifier `uuid`. There is no opening where
/// there is no handshake, nor where the name is longer than a varint can
/// say.
pub open spec fn opening_bytes(address: Seq<u8>, name: Seq<char>, uuid: Seq<u8>) -> Result<
    (Seq<u8>, Seq<u8>),
    ClankerError,
> {
    match pckt::handshake_bytes(address) {
        Err(e) => Err(e),
        Ok(handshake) => if encode_utf8(name).len() > i32::MAX {
            Err(ClankerError::StringTooLong)
        } else {
            Ok(
                (
                    handshake,
                    varint_bytes(mc::PCKT_LOGIN_START_ID as nat) + mc::string_bytes(name) + uuid,
                ),
            )
        },
    }
}

/// A session that has sent its opening and waits for the server.
pub open spec fn join_start(opening: (Seq<u8>, Seq<u8>)) -> JoinRun {
    JoinRun {
        sent: seq![opening.0, opening.1],
        state: Some(State::Hello),
        compression: false,
        compression_threshold: 0,
    }
}

/// Joining as a whole: the packets of `script` taken one after the other,
/// each by the rules of `join_effect`, until the game is joined, a packet is
/// fatal or the script ends.
pub open spec fn join_run(script: Seq<(i32, Seq<u8>)>, from: JoinRun) -> Result<
    JoinRun,
    ClankerError,
>
    decreases script.len(),
{
    if script.len() == 0 {
        Ok(from)
    } else {
        match from.state {
            None => Ok(from),
            Some(state) => match join_effect(
                state,
                from.compression,
                from.compression_threshold,
                script[0].0,
                script[0].1,
            ) {
                Err(e) => Err(e),
                Ok(effect) => join_run(
                    script.skip(1),
                    JoinRun {
                        sent: match effect.reply {
                            Some(reply) => from.sent.push(reply),
                            None => from.sent,
                        },
                        state: effect.next,
                        compression: effect.compression,
                        compression_threshold: effect.compression_threshold,
                    },
                ),
            },
        }
    }
}

/// A session from its first byte: the opening, then the packets of `script`
/// by the rules of `join_run`.
pub open spec fn join_session(
    address: Seq<u8>,
    name: Seq<char>,
    uuid: Seq<u8>,
    script: Seq<(i32, Seq<u8>)>,
) -> Result<JoinRun, ClankerError> {
    match opening_bytes(address, name, uuid) {
        Err(e) => Err(e),
        Ok(opening) => join_run(script, join_start(opening)),
    }
}

/// A server that sets compression, accepts the login, lists its packs, ends
/// the configuration, starts the game and sends a first chunk gets, in this
/// order and whatever the packets hold besides: the handshake, the login,
/// the acknowledgement of the login, its own list of packs, the
/// acknowledgement of the configuration, and the notice that the player has
/// loaded. Nothing else is sent; no teleport is confirmed, as none came. The
/// session has then joined, with compression on. Where there is no opening,
/// or no threshold in the first packet, the session ends on that error.
pub proof fn lemma_join_script(
    address: Seq<u8>,
    name: Seq<char>,
    uuid: Seq<u8>,
    threshold: Seq<u8>,
    success: Seq<u8>,
    packs: Seq<u8>,
    finish: Seq<u8>,
    play: Seq<u8>,
    chunk: Seq<u8>,
)
    ensures
        join_session(
            address,
            name,
            uuid,
            seq![
                (mc::PCKT_SET_COMPRESSION_ID, threshold),
                (mc::PCKT_LOGIN_SUCCESS_ID, success),
                (mc::PCKT_CLIENTBOUND_KNOWN_PACKS_ID, packs),
                (mc::PCKT_FINISH_CONFIGURATION_ID, finish),
                (mc::PCKT_LOGIN_PLAY_ID, play),
                (mc::PCKT_CHUNK_DATA_AND_UPDATE_LIGHT_ID, chunk),
            ],
        ) == match opening_bytes(address, name, uuid) {
            Err(e) => Err::<JoinRun, ClankerError>(e),
            Ok((handshake, login)) => match parse_varint(threshold) {
                Err(e) => Err::<JoinRun, ClankerError>(e),
                Ok((limit, _)) => Ok::<JoinRun, ClankerError>(
                    JoinRun {
                        sent: seq![
                            handshake,
                            login,
                            varint_bytes(mc::PCKT_LOGIN_ACK_ID as nat),
                            varint_bytes(mc::PCKT_SERVERBOUND_KNOWN_PACKS_ID as nat) + packs,
                            varint_bytes(mc::PCKT_ACK_FINISH_CONFIGURATION_ID as nat),
                            varint_bytes(mc::PCKT_PLAYER_LOADED_ID as nat),
                        ],
                        state: None,
                        compression: true,
                        compression_threshold: length_of(limit) as usize,
                    },
                ),
            },
        },
{
    let script = seq![
        (mc::PCKT_SET_COMPRESSION_ID, threshold),
        (mc::PCKT_LOGIN_SUCCESS_ID, success),
        (mc::PCKT_CLIENTBOUND_KNOWN_PACKS_ID, packs),
        (mc::PCKT_FINISH_CONFIGURATION_ID, finish),
        (mc::PCKT_LOGIN_PLAY_ID, play),
        (mc::PCKT_CHUNK_DATA_AND_UPDATE_LIGHT_ID, chunk),
    ];
    if opening_bytes(address, name, uuid) is Ok {
        let opening = opening_bytes(address, name, uuid)->Ok_0;
        let r0 = join_start(opening);
        if parse_varint(threshold) is Ok {
            let value = parse_varint(threshold)->Ok_0.0;
            let limit = length_of(value) as usize;
            let r1 = JoinRun { compression: true, compression_threshold: limit, ..r0 };
            let r2 = JoinRun {
                sent: r1.sent.push(varint_bytes(mc::PCKT_LOGIN_ACK_ID as nat)),
                state: Some(State::Configuration),
                ..r1
            };
            let r3 = JoinRun {
                sent: r2.sent.push(
                    varint_bytes(mc::PCKT_SERVERBOUND_KNOWN_PACKS_ID as nat) + packs,
                ),
                ..r2
            };
            let r4 = JoinRun {
                sent: r3.sent.push(varint_bytes(mc::PCKT_ACK_FINISH_CONFIGURATION_ID as nat)),
                ..r3
            };
            let r5 = JoinRun { state: Some(State::Game), ..r4 };
            let r6 = JoinRun {
                sent: r5.sent.push(varint_bytes(mc::PCKT_PLAYER_LOADED_ID as nat)),
                state: None,
                ..r5
            };
            let s1 = script.skip(1);
            let s2 = s1.skip(1);
            let s3 = s2.skip(1);
            let s4 = s3.skip(1);
            let s5 = s4.skip(1);
            let s6 = s5.skip(1);
            assert(join_run(s6, r6) == Ok::<JoinRun, ClankerError>(r6));
            assert(join_run(s5, r5) == join_run(s6, r6));
            assert(join_run(s4, r4) == join_run(s5, r5));
            assert(join_run(s3, r3) == join_run(s4, r4));
            assert(join_run(s2, r2) == join_run(s3, r3));
            assert(join_run(s1, r1) == join_run(s2, r2));
            assert(join_run(script, r0) == join_run(s1, r1));
            assert(r6.sent =~= seq![
                opening.0,
                opening.1,
                varint_bytes(mc::PCKT_LOGIN_ACK_ID as nat),
                varint_bytes(mc::PCKT_SERVERBOUND_KNOWN_PACKS_ID as nat) + packs,
                varint_bytes(mc::PCKT_ACK_FINISH_CONFIGURATION_ID as nat),
                varint_bytes(mc::PCKT_PLAYER_LOADED_ID as nat),
            ]);
        } else {
            assert(join_run(script, r0) == Err::<JoinRun, ClankerError>(
                parse_varint(threshold)->Err_0,
            ));
        }
    }
}

impl JoinStep {
    /// That this step does what `effect` says.
    pub open spec fn does(self, effect: JoinEffect) -> bool {
        match self {
            JoinStep::Continue { state, reply } => effect.next == Some(state) && match reply {
                Some(bytes) => effect.reply == Some(bytes@),
                None => effect.reply is None,
            },
            JoinStep::Joined { loaded } => effect.next is None && effect.reply == Some(loaded@),
        }
    }
}

/// The two payloads that open a session: the handshake, then the login.
pub fn join_opening(clanker: &Clanker) -> (opening: Result<(Vec<u8>, Vec<u8>), ClankerError>)
    ensures
        match opening_bytes(
            encode_utf8(clanker.remote_address@),
            clanker.name@,
            clanker.uuid@,
        ) {
            Err(e) => opening matches Err(f) && f == e,
            Ok((handshake, login)) => opening matches Ok((first, second)) && first@ == handshake
                && second@ == login,
        },
{
    let handshake_packet = match pckt::handshake(clanker.remote_address.clone()) {
        Ok(packet) => packet,
        Err(e) => {
            return Err(e);
        },
    };
    if !mc::string_fits(clanker.name.as_str()) {
        return Err(ClankerError::StringTooLong);
    }
    let login_start_packet = pckt::login_start(clanker.name.as_str(), &clanker.uuid);

    Ok((handshake_packet, login_start_packet))
}

/// Takes one packet of the server while joining, in phase `state`: records
/// a compression threshold in `clanker`, and says what to send and where to
/// go on. An error ends the session and leaves `clanker` as it was.
/// Compression, once on, stays on.
pub fn join_step(clanker: &mut Clanker, state: State, packet_id: i32, packet: Vec<u8>) -> (step:
    Result<JoinStep, ClankerError>)
    ensures
        final(clanker).name == old(clanker).name,
        final(clanker).uuid == old(clanker).uuid,
        final(clanker).remote_address == old(clanker).remote_address,
        old(clanker).compression ==> final(clanker).compression,
        match join_effect(
            state,
            old(clanker).compression,
            old(clanker).compression_threshold,
            packet_id,
            packet@,
        ) {
            Err(e) => step matches Err(f) && f == e && *final(clanker) == *old(clanker),
            Ok(effect) => step matches Ok(s) && s.does(effect) && final(clanker).compression
                == effect.compression && final(clanker).compression_threshold
                == effect.compression_threshold,
        },
{
    match state {
        State::Hello => {
            if packet_id == mc::PCKT_SET_ENCRYPTION_ID {
                Err(ClankerError::EncryptionUnsupported)
            } else if packet_id == mc::PCKT_SET_COMPRESSION_ID {
                let mut cursor = mc::ByteCursor::new(packet.as_slice());
                let threshold = match mc::read_varint(&mut cursor) {
                    Ok(threshold) => threshold,
                    Err(e) => {
                        return Err(e);
                    },
                };

                clanker.compression_threshold = mc::varint_length(threshold);
                clanker.compression = true;
                Ok(JoinStep::Continue { state: State::Hello, reply: None })
            } else if packet_id == mc::PCKT_LOGIN_SUCCESS_ID {
                let login_ack_packet = pckt::login_ack();

                Ok(
                    JoinStep::Continue {
                        state: State::Configuration,
                        reply: Some(login_ack_packet),
                    },
                )
            } else {
                Err(ClankerError::UnknownPacket(packet_id))
            }
        },
        State::Configuration => {
            if packet_id == mc::PCKT_CLIENTBOUND_KNOWN_PACKS_ID {
                let serverbound_known_packs_packet = pckt::serverbound_known_packs(packet);

                Ok(
                    JoinStep::Continue {
                        state: State::Configuration,
                        reply: Some(serverbound_known_packs_packet),
                    },
                )
            } else if packet_id == mc::PCKT_FINISH_CONFIGURATION_ID {
                let ack_finish_configuration_packet = pckt::login_ack_finish_configuration();

                Ok(
                    JoinStep::Continue {
                        state: State::Configuration,
                        reply: Some(ack_finish_configuration_packet),
                    },
                )
            } else if packet_id == mc::PCKT_LOGIN_PLAY_ID {
                Ok(JoinStep::Continue { state: State::Game, reply: None })
            } else {
                // nothing that joining needs
                Ok(JoinStep::Continue { state: State::Configuration, reply: None })
            }
        },
        State::Game => {
            if packet_id == mc::PCKT_SYNCHRONIZE_PLAYER_POSITION_ID {
                match pckt::confirmation_teleportation(packet) {
                    Ok(confirm_teleportation_packet) => Ok(
                        JoinStep::Continue {
                            state: State::Game,
                            reply: Some(confirm_teleportation_packet),
                        },
                    ),
                    Err(e) => Err(e),
                }
            } else if packet_id == mc::PCKT_CHUNK_DATA_AND_UPDATE_LIGHT_ID {
                let player_loaded_packet = pckt::player_loaded();

                Ok(JoinStep::Joined { loaded: player_loaded_packet })
            } else {
                // nothing that joining needs
                Ok(JoinStep::Continue { state: State::Game, reply: None })
            }
        },
    }
}

// ---------------------------------------------------------------------------
// In the game
// ---------------------------------------------------------------------------

/// The rules of staying in the game: a teleport is confirmed, a keep-alive
/// is sent back with the body that it came with, a disconnect ends the
/// session, and nothing else is answered.
pub open spec fn game_reply(packet_id: i32, packet: Seq<u8>) -> Result<
    Option<Seq<u8>>,
    ClankerError,
> {
    if packet_id == mc::PCKT_SYNCHRONIZE_PLAYER_POSITION_ID {
        match pckt::confirmation_bytes(packet) {
            Err(e) => Err(e),
            Ok(reply) => Ok(Some(reply)),
        }
    } else if packet_id == mc::PCKT_CLIENTBOUND_KEEP_ALIVE_ID {
        Ok(Some(varint_bytes(mc::PCKT_SERVERBOUND_KEEP_ALIVE_ID as nat) + packet))
    } else if packet_id == mc::PCKT_DISCONNECT_ID {
        Err(ClankerError::Disconnected)
    } else {
        Ok(None)
    }
}

/// The answer to a keep-alive is a keep-alive packet whose body is, byte
/// for byte, the body that came.
pub proof fn lemma_keep_alive_echo(body: Seq<u8>)
    ensures
        game_reply(mc::PCKT_CLIENTBOUND_KEEP_ALIVE_ID, body) matches Ok(Some(reply))
            && packet_parts(reply) == Ok::<(i32, Seq<u8>), ClankerError>(
            (mc::PCKT_SERVERBOUND_KEEP_ALIVE_ID, body),
        ),
{
    lemma_packet_parts(mc::PCKT_SERVERBOUND_KEEP_ALIVE_ID, body);
}

/// Takes one packet of the server in the game and says what to send back.
pub fn game_step(packet_id: i32, packet: Vec<u8>) -> (reply: Result<
    Option<Vec<u8>>,
    ClankerError,
>)
    ensures
        match game_reply(packet_id, packet@) {
            Err(e) => reply matches Err(f) && f == e,
            Ok(None) => reply matches Ok(None),
            Ok(Some(bytes)) => reply matches Ok(Some(sent)) && sent@ == bytes,
        },
{
    if packet_id == mc::PCKT_SYNCHRONIZE_PLAYER_POSITION_ID {
        match pckt::confirmation_teleportation(packet) {
            Ok(confirm_teleportation_packet) => Ok(Some(confirm_teleportation_packet)),
            Err(e) => Err(e),
        }
    } else if packet_id == mc::PCKT_CLIENTBOUND_KEEP_ALIVE_ID {
        let keep_alive_packet = pckt::keep_alive(packet);

        Ok(Some(keep_alive_packet))
    } else if packet_id == mc::PCKT_DISCONNECT_ID {
        Err(ClankerError::Disconnected)
    } else {
        Ok(None)
    }
}

} // verus!
