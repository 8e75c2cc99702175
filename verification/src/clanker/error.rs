use crate::clanker::mc::{ascii_chars, ascii_string};
use crate::numeral::{hex_pair, lemma_hex_digits_ascii, write_hex};
use vstd::prelude::*;
use vstd::string::*;

verus! {

/// Everything that can end a session, one variant per cause.
#[derive(Clone, Copy, Debug, PartialEq, Eq, Structural)]
pub enum ClankerError {
    /// The input ended before a varint's last byte.
    VarintTruncated,
    /// A varint went on past its fifth byte.
    VarintTooLong,
    /// A varint that has to be written back is negative.
    VarintNegative,
    /// The input ended before a string's declared length was read.
    StringTruncated,
    /// A string's bytes are not UTF-8.
    StringMalformed,
    /// A string that has to be written is longer than a varint can say.
    StringTooLong,
    /// An address is not a host, a colon and a port that fits sixteen bits.
    InvalidAddress,
    /// A frame's length does not fit a varint.
    FrameTooLarge,
    /// The input ended before a frame's declared length was read.
    FrameTruncated,
    /// The compressor refused a payload.
    CompressionFailed,
    /// The bytes of a compressed frame do not decompress.
    DecompressionFailed,
    /// The server asked for an encrypted session.
    EncryptionUnsupported,
    /// The server sent, before login, a packet that login does not know.
    UnknownPacket(i32),
    /// The server sent a disconnect.
    Disconnected,
}

/// The 32 bits of `value`, read as a number without sign.
pub open spec fn unsigned_of(value: i32) -> nat {
    if value >= 0 {
        value as nat
    } else {
        (value + 0x1_0000_0000) as nat
    }
}

impl ClankerError {
    /// What the error says, in words.
    pub open spec fn text(self) -> Seq<char> {
        match self {
            ClankerError::VarintTruncated => "unexpected end of input while reading varint"@,
            ClankerError::VarintTooLong => "varint is longer than five bytes"@,
            ClankerError::VarintNegative => "varint is negative"@,
            ClankerError::StringTruncated => "unexpected end of input while reading string"@,
            ClankerError::StringMalformed => "failed to decode string"@,
            ClankerError::StringTooLong => "string is too long for a packet"@,
            ClankerError::InvalidAddress => "invalid minecraft address"@,
            ClankerError::FrameTooLarge => "packet is too large for a frame"@,
            ClankerError::FrameTruncated => "unexpected end of input while reading frame"@,
            ClankerError::CompressionFailed => "failed to finish compression"@,
            ClankerError::DecompressionFailed => "failed to decompress a packet"@,
            ClankerError::EncryptionUnsupported =>
                "set encryption packet is not supported, this attacker is for offline servers btw, not online"@,
            ClankerError::UnknownPacket(packet_id) => "unknown packet id '"@ + ascii_chars(
                hex_pair(unsigned_of(packet_id)),
            ) + "' was provided"@,
            ClankerError::Disconnected => "disconnected by server :("@,
        }
    }

    /// What the error says, in words. A packet id is given in base sixteen.
    pub fn message(&self) -> (message: String)
        ensures
            message@ == self.text(),
    {
        match self {
            ClankerError::VarintTruncated => {
                "unexpected end of input while reading varint".to_owned()
            },
            ClankerError::VarintTooLong => "varint is longer than five bytes".to_owned(),
            ClankerError::VarintNegative => "varint is negative".to_owned(),
            ClankerError::StringTruncated => {
                "unexpected end of input while reading string".to_owned()
            },
            ClankerError::StringMalformed => "failed to decode string".to_owned(),
            ClankerError::StringTooLong => "string is too long for a packet".to_owned(),
            ClankerError::InvalidAddress => "invalid minecraft address".to_owned(),
            ClankerError::FrameTooLarge => "packet is too large for a frame".to_owned(),
            ClankerError::FrameTruncated => {
                "unexpected end of input while reading frame".to_owned()
            },
            ClankerError::CompressionFailed => "failed to finish compression".to_owned(),
            ClankerError::DecompressionFailed => "failed to decompress a packet".to_owned(),
            ClankerError::EncryptionUnsupported => {
                "set encryption packet is not supported, this attacker is for offline servers btw, not online".to_owned()
            },
            ClankerError::UnknownPacket(packet_id) => {
                let word: u32 = if *packet_id >= 0 {
                    *packet_id as u32
                } else {
                    (*packet_id + i32::MAX + 1) as u32 + 0x8000_0000u32
                };
                let mut digits = Vec::new();
                write_hex(&mut digits, word);
                proof {
                    lemma_hex_digits_ascii(word as nat);
                    assert(digits@ =~= hex_pair(word as nat));
                }
                let mut message = "unknown packet id '".to_owned();
                message.append(ascii_string(digits).as_str());
                message.append("' was provided");
                message
            },
            ClankerError::Disconnected => "disconnected by server :(".to_owned(),
        }
    }
}

/// For a result that holds bytes: that it is the result `want`.
pub open spec fn same_bytes(
    got: Result<Vec<u8>, ClankerError>,
    want: Result<Seq<u8>, ClankerError>,
) -> bool {
    match (got, want) {
        (Ok(bytes), Ok(seq)) => bytes@ == seq,
        (Err(e), Err(f)) => e == f,
        _ => false,
    }
}

} // verus!
