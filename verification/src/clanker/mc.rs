use crate::clanker::error::ClankerError;
use vstd::prelude::*;
use vstd::slice::slice_subrange;
use vstd::string::*;
use vstd::utf8::*;

verus! {

pub const MC_VERSION_1_21_11: i32 = 774;

pub const PCKT_HANDSHAKE_ID: i32 = 0x00;

pub const PCKT_LOGIN_START_ID: i32 = 0x00;

pub const PCKT_SET_ENCRYPTION_ID: i32 = 0x01;

pub const PCKT_SET_COMPRESSION_ID: i32 = 0x03;

pub const PCKT_LOGIN_SUCCESS_ID: i32 = 0x02;

pub const PCKT_LOGIN_ACK_ID: i32 = 0x03;

pub const PCKT_CLIENTBOUND_KNOWN_PACKS_ID: i32 = 0x0E;

pub const PCKT_SERVERBOUND_KNOWN_PACKS_ID: i32 = 0x07;

pub const PCKT_FINISH_CONFIGURATION_ID: i32 = 0x03;

pub const PCKT_ACK_FINISH_CONFIGURATION_ID: i32 = 0x03;

pub const PCKT_LOGIN_PLAY_ID: i32 = 0x30;

pub const PCKT_SYNCHRONIZE_PLAYER_POSITION_ID: i32 = 0x46;

pub const PCKT_CONFIRM_TELEPORTATION_ID: i32 = 0x00;

pub const PCKT_CHUNK_DATA_AND_UPDATE_LIGHT_ID: i32 = 0x2C;

pub const PCKT_PLAYER_LOADED_ID: i32 = 0x2B;

pub const PCKT_CLIENTBOUND_KEEP_ALIVE_ID: i32 = 0x2B;

pub const PCKT_SERVERBOUND_KEEP_ALIVE_ID: i32 = 0x1B;

pub const PCKT_CHAT_MESSAGE_ID: i32 = 0x08;

pub const PCKT_DISCONNECT_ID: i32 = 0x20;

pub const PCKT_HANDSHAKE_LOGIN_INTENT: i32 = 2;

// ---------------------------------------------------------------------------
// The wire model
// ---------------------------------------------------------------------------

/// The wire form of a varint: seven bits per byte, least significant group
/// first, the high bit set on every byte but the last.
pub open spec fn varint_bytes(v: nat) -> Seq<u8>
    decreases v,
{
    if v < 128 {
        seq![v as u8]
    } else {
        seq![(v % 128 + 128) as u8] + varint_bytes(v / 128)
    }
}

/// 128 to the power `n`: the weight of the seven-bit group at index `n`.
pub open spec fn pow128(n: nat) -> nat
    decreases n,
{
    if n == 0 {
        1
    } else {
        128 * pow128((n - 1) as nat)
    }
}

/// The number that the low seven bits of the first `n` bytes of `s` spell,
/// least significant group first.
pub open spec fn varint_raw(s: Seq<u8>, n: nat) -> nat
    decreases n,
{
    if n == 0 {
        0
    } else {
        varint_raw(s, (n - 1) as nat) + (s[n - 1] % 128) as nat * pow128((n - 1) as nat)
    }
}

/// `raw` cut to its low 32 bits and read as a signed integer.
pub open spec fn wrap_i32(raw: nat) -> i32 {
    let low = raw % 0x1_0000_0000;
    if low < 0x8000_0000 {
        low as i32
    } else {
        (low - 0x1_0000_0000) as i32
    }
}

/// Reading a varint from `s`, given that the bytes before index `i` all carry
/// the continuation bit: the value and the number of bytes it took.
pub open spec fn parse_varint_from(s: Seq<u8>, i: nat) -> Result<(i32, nat), ClankerError>
    decreases s.len() - i,
{
    if i >= s.len() {
        Err(ClankerError::VarintTruncated)
    } else if i >= 5 {
        Err(ClankerError::VarintTooLong)
    } else if s[i as int] < 128 {
        Ok((wrap_i32(varint_raw(s, i + 1)), i + 1))
    } else {
        parse_varint_from(s, i + 1)
    }
}

/// Reading a varint from the start of `s`. It ends at the first byte without
/// the continuation bit. A sixth byte is never accepted; groups past bit 31
/// are dropped, so a five-byte varint may come out negative.
pub open spec fn parse_varint(s: Seq<u8>) -> Result<(i32, nat), ClankerError> {
    parse_varint_from(s, 0)
}

/// What a decoded length stands for once it is taken as an unsigned machine
/// word: itself, or for a negative value the word with the same bits.
pub open spec fn length_of(v: i32) -> nat {
    if v >= 0 {
        v as nat
    } else {
        (usize::MAX + 1 + v) as nat
    }
}

/// `u` as `width` bytes, most significant first.
pub open spec fn be_bytes(u: nat, width: nat) -> Seq<u8>
    decreases width,
{
    if width == 0 {
        Seq::empty()
    } else {
        be_bytes(u / 256, (width - 1) as nat).push((u % 256) as u8)
    }
}

/// The wire form of a port: two bytes, most significant first.
pub open spec fn port_bytes(value: u16) -> Seq<u8> {
    be_bytes(value as nat, 2)
}

/// The wire form of a signed 64-bit integer: its two's complement in eight
/// bytes, most significant first.
pub open spec fn long_bytes(value: i64) -> Seq<u8> {
    if value >= 0 {
        be_bytes(value as nat, 8)
    } else {
        be_bytes((value + 0x1_0000_0000_0000_0000) as nat, 8)
    }
}

/// The wire form of a string: the byte length of its UTF-8 form as a varint,
/// then those bytes.
pub open spec fn string_bytes(chars: Seq<char>) -> Seq<u8> {
    varint_bytes(encode_utf8(chars).len()) + encode_utf8(chars)
}

/// Reading a string from the start of `s`: the characters and the number of
/// bytes they took, length prefix included.
pub open spec fn parse_string(s: Seq<u8>) -> Result<(Seq<char>, nat), ClankerError> {
    match parse_varint(s) {
        Err(e) => Err(e),
        Ok((declared, n)) => {
            let want = length_of(declared);
            if s.len() - n < want {
                Err(ClankerError::StringTruncated)
            } else {
                let body = s.subrange(n as int, (n + want) as int);
                if valid_utf8(body) {
                    Ok((decode_utf8(body), n + want))
                } else {
                    Err(ClankerError::StringMalformed)
                }
            }
        },
    }
}

// ---------------------------------------------------------------------------
// Lemmas
// ---------------------------------------------------------------------------

/// The bit operations of the writer, as arithmetic.
proof fn lemma_varint_group(v: i32)
    requires
        v >= 0,
    ensures
        (v & !0x7Fi32 != 0) == (v >= 128),
        ((v & 0x7F) | 0x80) == v % 128 + 128,
        v >> 7 == v / 128,
{
    assert((v & !0x7Fi32 != 0i32) == (v >= 128i32)) by (bit_vector)
        requires
            v >= 0i32,
    ;
    assert(((v & 0x7Fi32) | 0x80i32) == (v % 128i32) + 128i32) by (bit_vector)
        requires
            v >= 0i32,
    ;
    assert((v >> 7i32) == v / 128i32) by (bit_vector)
        requires
            v >= 0i32,
    ;
}

/// The bit operations of the reader, as arithmetic.
proof fn lemma_byte_group(b: u8)
    ensures
        (b & 0x80 == 0) == (b < 128),
        b & 0x7F == b % 128,
{
    assert((b & 0x80u8 == 0u8) == (b < 128u8)) by (bit_vector);
    assert(b & 0x7Fu8 == b % 128u8) by (bit_vector);
}

/// The weights of the five groups of a varint, and the bound of their sum.
proof fn lemma_pow128_values()
    ensures
        pow128(0) == 1,
        pow128(1) == 0x80,
        pow128(2) == 0x4000,
        pow128(3) == 0x20_0000,
        pow128(4) == 0x1000_0000,
        pow128(5) == 0x8_0000_0000,
{
    reveal_with_fuel(pow128, 6);
}

/// The two bytes of a port are its high eight bits and its low eight bits.
pub proof fn lemma_port_bytes(value: u16)
    ensures
        port_bytes(value) == seq![(value >> 8) as u8, (value & 0xFF) as u8],
{
    assert(value >> 8u16 == value / 256u16) by (bit_vector);
    assert(value & 0xFFu16 == value % 256u16) by (bit_vector);
    reveal_with_fuel(be_bytes, 3);
    assert(port_bytes(value) =~= seq![(value >> 8) as u8, (value & 0xFF) as u8]);
}

/// `varint_raw` reads only the first `n` bytes.
proof fn lemma_raw_agrees(a: Seq<u8>, b: Seq<u8>, n: nat)
    requires
        n <= a.len(),
        n <= b.len(),
        forall|j: int| 0 <= j < n ==> a[j] == b[j],
    ensures
        varint_raw(a, n) == varint_raw(b, n),
    decreases n,
{
    if n > 0 {
        lemma_raw_agrees(a, b, (n - 1) as nat);
    }
}

/// The first `n` groups spell a number below 128 to the `n`.
proof fn lemma_raw_bound(s: Seq<u8>, n: nat)
    ensures
        varint_raw(s, n) < pow128(n),
    decreases n,
{
    if n > 0 {
        lemma_raw_bound(s, (n - 1) as nat);
        let g = (s[n - 1] % 128) as nat;
        let p = pow128((n - 1) as nat);
        assert(g * p <= 127 * p) by (nonlinear_arith)
            requires
                g <= 127,
        ;
    }
}

/// Bytes that carry the continuation bit are passed over.
proof fn lemma_parse_skips(s: Seq<u8>, i: nat, k: nat)
    requires
        i <= k <= 5,
        k <= s.len(),
        forall|j: int| i <= j < k ==> s[j] >= 128,
    ensures
        parse_varint_from(s, i) == parse_varint_from(s, k),
    decreases k - i,
{
    if i < k {
        lemma_parse_skips(s, i + 1, k);
    }
}

/// What was read from `s` is read from any sequence that starts with `s`,
/// unless `s` ended too early.
proof fn lemma_parse_from_extends(s: Seq<u8>, rest: Seq<u8>, i: nat)
    requires
        parse_varint_from(s, i) != Err::<(i32, nat), ClankerError>(ClankerError::VarintTruncated),
    ensures
        parse_varint_from(s + rest, i) == parse_varint_from(s, i),
    decreases s.len() - i,
{
    let t = s + rest;
    if i < s.len() && i < 5 {
        assert(t[i as int] == s[i as int]);
        if s[i as int] < 128 {
            lemma_raw_agrees(s, t, i + 1);
        } else {
            lemma_parse_from_extends(s, rest, i + 1);
        }
    }
}

/// A varint read from `s` is read, with the same value and length, from any
/// sequence that starts with `s`; so is the refusal of a sixth byte.
pub proof fn lemma_parse_varint_extends(s: Seq<u8>, rest: Seq<u8>)
    requires
        parse_varint(s) != Err::<(i32, nat), ClankerError>(ClankerError::VarintTruncated),
    ensures
        parse_varint(s + rest) == parse_varint(s),
{
    lemma_parse_from_extends(s, rest, 0);
}

/// A varint's length lies between one and five and within the input, and
/// reading one fails in two ways only.
pub proof fn lemma_parse_varint_len(s: Seq<u8>)
    ensures
        parse_varint(s) matches Ok((_, n)) ==> 1 <= n <= 5 && n <= s.len(),
        parse_varint(s) matches Err(e) ==> e == ClankerError::VarintTruncated || e
            == ClankerError::VarintTooLong,
{
    lemma_parse_from_len(s, 0);
}

/// `lemma_parse_varint_len` from index `i` on.
proof fn lemma_parse_from_len(s: Seq<u8>, i: nat)
    ensures
        parse_varint_from(s, i) matches Ok((_, n)) ==> i < n <= 5 && n <= s.len(),
        parse_varint_from(s, i) matches Err(e) ==> e == ClankerError::VarintTruncated || e
            == ClankerError::VarintTooLong,
    decreases s.len() - i,
{
    if i < s.len() && i < 5 && s[i as int] >= 128 {
        lemma_parse_from_len(s, i + 1);
    }
}

/// The shape of an encoded varint: the groups of `v`, continuation bits on
/// all bytes but the last, and no more bytes than `v` needs.
proof fn lemma_varint_bytes_shape(v: nat, k: nat)
    requires
        k >= 1,
        v < pow128(k),
    ensures
        1 <= varint_bytes(v).len() <= k,
        forall|j: int| 0 <= j < varint_bytes(v).len() - 1 ==> varint_bytes(v)[j] >= 128,
        varint_bytes(v)[varint_bytes(v).len() - 1] < 128,
    decreases v,
{
    if v >= 128 {
        assert(pow128(k) == 128 * pow128((k - 1) as nat));
        if k == 1 {
            assert(pow128(0) == 1);
        }
        lemma_varint_bytes_shape(v / 128, (k - 1) as nat);
        let tail = varint_bytes(v / 128);
        let b = varint_bytes(v);
        assert(b == seq![(v % 128 + 128) as u8] + tail);
        assert forall|j: int| 0 <= j < b.len() - 1 implies b[j] >= 128 by {
            if j > 0 {
                assert(b[j] == tail[j - 1]);
            }
        }
        assert(b[b.len() - 1] == tail[tail.len() - 1]);
    }
}

/// The groups of an encoded varint spell the number that was encoded.
proof fn lemma_varint_bytes_raw(v: nat, rest: Seq<u8>, n: nat)
    requires
        n <= varint_bytes(v).len(),
    ensures
        n < varint_bytes(v).len() ==> varint_raw(varint_bytes(v) + rest, n) == v % pow128(n),
        n == varint_bytes(v).len() ==> varint_raw(varint_bytes(v) + rest, n) == v,
    decreases n,
{
    let b = varint_bytes(v);
    let s = b + rest;
    if n == 0 {
        assert(pow128(0) == 1);
    } else {
        lemma_varint_bytes_raw(v, rest, (n - 1) as nat);
        lemma_varint_byte_at(v, (n - 1) as nat);
        assert(s[n - 1] == b[n - 1]);
        let p = pow128((n - 1) as nat);
        lemma_pow128_positive((n - 1) as nat);
        assert(pow128(n) == 128 * p);
        let low = v % p;
        assert(varint_raw(s, (n - 1) as nat) == low);
        if n < b.len() {
            // v % (128 p) == v % p + ((v / p) % 128) * p
            lemma_mod_split(v, p);
        } else {
            // the last byte holds v / p, which is below 128
            assert(v == p * (v / p) + v % p) by (nonlinear_arith)
                requires
                    p > 0,
            ;
            assert(((v / p) % 128) * p == (v / p) * p) by (nonlinear_arith)
                requires
                    (v / p) % 128 == v / p,
            ;
            assert((v / p) * p == p * (v / p)) by (nonlinear_arith);
        }
    }
}

/// An encoded varint has a byte.
proof fn lemma_varint_bytes_nonempty(v: nat)
    ensures
        varint_bytes(v).len() >= 1,
    decreases v,
{
    if v >= 128 {
        lemma_varint_bytes_nonempty(v / 128);
    }
}

/// A power of 128 is above zero.
proof fn lemma_pow128_positive(n: nat)
    ensures
        pow128(n) > 0,
    decreases n,
{
    if n > 0 {
        lemma_pow128_positive((n - 1) as nat);
    }
}

/// The remainder by `128 * p` is the remainder by `p` and, above it, one
/// more group of seven bits.
proof fn lemma_mod_split(v: nat, p: nat)
    requires
        p > 0,
    ensures
        v % (128 * p) == v % p + ((v / p) % 128) * p,
{
    let q = v / p;
    let r = v % p;
    assert(v == p * q + r) by (nonlinear_arith)
        requires
            q == v / p,
            r == v % p,
            p > 0,
    ;
    let qq = q / 128;
    let g = q % 128;
    assert(q == 128 * qq + g);
    assert(v == qq * (128 * p) + (g * p + r)) by (nonlinear_arith)
        requires
            v == p * q + r,
            q == 128 * qq + g,
    ;
    assert(0 <= g * p + r < 128 * p) by (nonlinear_arith)
        requires
            0 <= g <= 127,
            0 <= r < p,
    ;
    vstd::arithmetic::div_mod::lemma_fundamental_div_mod_converse(
        v as int,
        (128 * p) as int,
        qq as int,
        (g * p + r) as int,
    );
}

/// The byte at index `i` of an encoded varint: group `i` of the number, with
/// the continuation bit unless it is the last.
proof fn lemma_varint_byte_at(v: nat, i: nat)
    requires
        i < varint_bytes(v).len(),
    ensures
        varint_bytes(v)[i as int] % 128 == (v / pow128(i)) % 128,
        i == varint_bytes(v).len() - 1 ==> v / pow128(i) < 128,
    decreases i,
{
    let b = varint_bytes(v);
    if i == 0 {
        assert(pow128(0) == 1);
        if v >= 128 {
            lemma_varint_bytes_nonempty(v / 128);
        }
    } else {
        let tail = varint_bytes(v / 128);
        assert(b == seq![(v % 128 + 128) as u8] + tail);
        assert(b[i as int] == tail[i - 1]);
        lemma_varint_byte_at(v / 128, (i - 1) as nat);
        let p = pow128((i - 1) as nat);
        lemma_pow128_positive((i - 1) as nat);
        assert(pow128(i) == 128 * p);
        vstd::arithmetic::div_mod::lemma_div_denominator(v as int, 128, p as int);
    }
}

/// Decoding an encoded varint gives the number back, whatever follows it.
pub proof fn lemma_varint_round_trip(v: i32, rest: Seq<u8>)
    requires
        v >= 0,
    ensures
        parse_varint(varint_bytes(v as nat) + rest) == Ok::<(i32, nat), ClankerError>(
            (v, varint_bytes(v as nat).len()),
        ),
        1 <= varint_bytes(v as nat).len() <= 5,
{
    let b = varint_bytes(v as nat);
    let s = b + rest;
    lemma_pow128_values();
    lemma_varint_bytes_shape(v as nat, 5);
    let last = (b.len() - 1) as nat;
    assert forall|j: int| 0 <= j < last implies s[j] >= 128 by {
        assert(s[j] == b[j]);
    }
    lemma_parse_skips(s, 0, last);
    assert(s[last as int] == b[last as int]);
    lemma_varint_bytes_raw(v as nat, rest, b.len());
}

// ---------------------------------------------------------------------------
// Writing
// ---------------------------------------------------------------------------

/// Appends `source` to `destination`.
pub fn append_bytes(destination: &mut Vec<u8>, source: &[u8])
    ensures
        final(destination)@ == old(destination)@ + source@,
{
    destination.extend_from_slice(source);
    assert(destination@ =~= old(destination)@ + source@);
}

/// Appends the varint form of `value`.
pub fn write_varint(destination: &mut Vec<u8>, value: i32)
    requires
        value >= 0,
    ensures
        final(destination)@ == old(destination)@ + varint_bytes(value as nat),
{
    let mut left = value;
    while left & !0x7F != 0
        invariant
            left >= 0,
            destination@ + varint_bytes(left as nat) == old(destination)@ + varint_bytes(
                value as nat,
            ),
        decreases left,
    {
        proof {
            lemma_varint_group(left);
        }
        destination.push(((left & 0x7F) | 0x80) as u8);
        left >>= 7;
    }
    proof {
        lemma_varint_group(left);
    }
    destination.push(left as u8);
}

/// Appends `value` as two bytes, most significant first.
pub fn write_port(destination: &mut Vec<u8>, value: u16)
    ensures
        final(destination)@ == old(destination)@ + port_bytes(value),
{
    destination.push((value / 256) as u8);
    destination.push((value % 256) as u8);
    proof {
        reveal_with_fuel(be_bytes, 3);
        assert(destination@ =~= old(destination)@ + port_bytes(value));
    }
}

/// Appends `value` as eight bytes in two's complement, most significant first.
pub fn write_long(destination: &mut Vec<u8>, value: i64)
    ensures
        final(destination)@ == old(destination)@ + long_bytes(value),
{
    let word: u64 = if value >= 0 {
        value as u64
    } else {
        (value + i64::MAX + 1) as u64 + 0x8000_0000_0000_0000u64
    };
    let w1 = word / 256;
    let w2 = w1 / 256;
    let w3 = w2 / 256;
    let w4 = w3 / 256;
    let w5 = w4 / 256;
    let w6 = w5 / 256;
    let w7 = w6 / 256;
    destination.push((w7 % 256) as u8);
    destination.push((w6 % 256) as u8);
    destination.push((w5 % 256) as u8);
    destination.push((w4 % 256) as u8);
    destination.push((w3 % 256) as u8);
    destination.push((w2 % 256) as u8);
    destination.push((w1 % 256) as u8);
    destination.push((word % 256) as u8);
    proof {
        let tail = seq![
            (w7 % 256) as u8,
            (w6 % 256) as u8,
            (w5 % 256) as u8,
            (w4 % 256) as u8,
            (w3 % 256) as u8,
            (w2 % 256) as u8,
            (w1 % 256) as u8,
            (word % 256) as u8,
        ];
        assert(be_bytes(word as nat, 8) =~= tail) by {
            reveal_with_fuel(be_bytes, 9);
        }
        assert(destination@ =~= old(destination)@ + tail);
    }
}

/// Tells whether `s` can be written: whether a varint holds its length in
/// bytes.
pub fn string_fits(s: &str) -> (fits: bool)
    ensures
        fits == (encode_utf8(s@).len() <= i32::MAX),
{
    s.as_bytes().len() <= i32::MAX as usize
}

/// Appends the byte length of `s` as a varint, then the bytes of `s`.
pub fn write_string(destination: &mut Vec<u8>, s: &str)
    requires
        encode_utf8(s@).len() <= i32::MAX,
    ensures
        final(destination)@ == old(destination)@ + string_bytes(s@),
{
    let bytes = s.as_bytes();
    let len = bytes.len() as i32;

    write_varint(destination, len);
    append_bytes(destination, bytes);
    assert(destination@ =~= old(destination)@ + string_bytes(s@));
}

// ---------------------------------------------------------------------------
// Reading
// ---------------------------------------------------------------------------

/// A reading position in a byte slice. Its view is what is left to read.
pub struct ByteCursor<'a> {
    data: &'a [u8],
    pos: usize,
}

impl<'a> View for ByteCursor<'a> {
    type V = Seq<u8>;

    closed spec fn view(&self) -> Seq<u8> {
        self.data@.skip(self.pos as int)
    }
}

impl<'a> ByteCursor<'a> {
    #[verifier::type_invariant]
    spec fn in_bounds(self) -> bool {
        self.pos <= self.data@.len()
    }

    /// A cursor at the start of `data`.
    pub fn new(data: &'a [u8]) -> (cursor: Self)
        ensures
            cursor@ == data@,
    {
        ByteCursor { data, pos: 0 }
    }

    /// The number of bytes left.
    pub fn remaining(&self) -> (n: usize)
        ensures
            n == self@.len(),
    {
        proof {
            use_type_invariant(self);
        }
        self.data.len() - self.pos
    }

    /// Takes the next byte, if there is one.
    pub fn next(&mut self) -> (byte: Option<u8>)
        ensures
            old(self)@.len() == 0 ==> byte is None && final(self)@ == old(self)@,
            old(self)@.len() > 0 ==> byte == Some(old(self)@[0]) && final(self)@ == old(self)@.skip(
                1,
            ),
    {
        proof {
            use_type_invariant(&*self);
        }
        if self.pos < self.data.len() {
            let byte = self.data[self.pos];
            self.pos = self.pos + 1;
            assert(self@ =~= old(self)@.skip(1));
            Some(byte)
        } else {
            None
        }
    }

    /// Takes the next `n` bytes, or nothing where fewer are left.
    pub fn take(&mut self, n: usize) -> (bytes: Option<&'a [u8]>)
        ensures
            n > old(self)@.len() ==> bytes is None && final(self)@ == old(self)@,
            n <= old(self)@.len() ==> bytes is Some && bytes->Some_0@ == old(self)@.take(
                n as int,
            ) && final(self)@ == old(self)@.skip(n as int),
    {
        proof {
            use_type_invariant(&*self);
        }
        if n <= self.data.len() - self.pos {
            let bytes = slice_subrange(self.data, self.pos, self.pos + n);
            self.pos = self.pos + n;
            assert(self@ =~= old(self)@.skip(n as int));
            assert(bytes@ =~= old(self)@.take(n as int));
            Some(bytes)
        } else {
            None
        }
    }

    /// Takes all that is left.
    pub fn rest(&mut self) -> (bytes: &'a [u8])
        ensures
            bytes@ == old(self)@,
            final(self)@.len() == 0,
    {
        proof {
            use_type_invariant(&*self);
        }
        let bytes = slice_subrange(self.data, self.pos, self.data.len());
        self.pos = self.data.len();
        assert(bytes@ =~= old(self)@);
        bytes
    }
}

/// A varint that is being read one byte at a time. Its view is the bytes
/// taken so far, all of which carry the continuation bit.
pub struct VarintState {
    acc: u64,
    scale: u64,
    seen: Ghost<Seq<u8>>,
}

/// What one more byte did to a varint that is being read.
pub enum VarintStep {
    /// The varint goes on: read another byte.
    More(VarintState),
    /// The byte was the last one: the value.
    Done(i32),
    /// The byte is a sixth one: no varint.
    TooLong,
}

impl View for VarintState {
    type V = Seq<u8>;

    closed spec fn view(&self) -> Seq<u8> {
        self.seen@
    }
}

impl VarintState {
    #[verifier::type_invariant]
    spec fn coherent(self) -> bool {
        &&& self.seen@.len() <= 5
        &&& forall|j: int| 0 <= j < self.seen@.len() ==> self.seen@[j] >= 128
        &&& self.acc == varint_raw(self.seen@, self.seen@.len())
        &&& self.scale == pow128(self.seen@.len())
    }

    /// The state before the first byte.
    pub fn new() -> (state: Self)
        ensures
            state@ == Seq::<u8>::empty(),
    {
        VarintState { acc: 0, scale: 1, seen: Ghost(Seq::empty()) }
    }

    /// Takes one more byte. The answer is that of `parse_varint` on the
    /// bytes taken so far with `byte` at their end: the value where `byte`
    /// ends a varint, `More` where the varint goes on.
    pub fn push(self, byte: u8) -> (step: VarintStep)
        ensures
            match step {
                VarintStep::Done(value) => parse_varint(self@.push(byte)) == Ok::<
                    (i32, nat),
                    ClankerError,
                >((value, self@.len() + 1)),
                VarintStep::TooLong => parse_varint(self@.push(byte)) == Err::<
                    (i32, nat),
                    ClankerError,
                >(ClankerError::VarintTooLong),
                VarintStep::More(next) => next@ == self@.push(byte) && parse_varint(
                    self@.push(byte),
                ) == Err::<(i32, nat), ClankerError>(ClankerError::VarintTruncated),
            },
            self@.len() == 5 <==> step is TooLong,
            self@.len() < 5 && byte < 128 <==> step is Done,
    {
        proof {
            use_type_invariant(&self);
            lemma_pow128_values();
            lemma_byte_group(byte);
        }
        let ghost seen = self.seen@;
        let ghost k = seen.len();
        let ghost s = seen.push(byte);
        proof {
            lemma_parse_skips(s, 0, k);
            lemma_raw_agrees(seen, s, k);
            lemma_raw_bound(seen, k);
        }
        if self.scale > 0x1000_0000 {
            return VarintStep::TooLong;
        }
        let group = (byte & 0x7F) as u64;
        assert(group * self.scale <= 127 * 0x1000_0000) by (nonlinear_arith)
            requires
                group <= 127,
                self.scale <= 0x1000_0000,
        ;
        let acc = self.acc + group * self.scale;
        assert(acc == varint_raw(s, k + 1));
        if byte & 0x80 == 0 {
            let low = acc % 0x1_0000_0000;
            let value = if low < 0x8000_0000 {
                low as i32
            } else {
                (low as i64 - 0x1_0000_0000) as i32
            };
            VarintStep::Done(value)
        } else {
            let next = VarintState { acc, scale: self.scale * 128, seen: Ghost(s) };
            proof {
                lemma_parse_skips(s, k, k + 1);
            }
            VarintStep::More(next)
        }
    }
}

/// The error of `String::from_utf8`, carried through unread.
#[verifier::external_type_specification]
#[verifier::external_body]
pub struct ExFromUtf8Error(std::string::FromUtf8Error);

/// `String::from_utf8` of std. The bytes become a string exactly where they
/// are UTF-8, and the string then holds the characters that they spell.
#[verifier::external_body]
pub(crate) fn string_from_utf8(bytes: Vec<u8>) -> (decoded: Result<
    String,
    std::string::FromUtf8Error,
>)
    ensures
        decoded is Ok <==> valid_utf8(bytes@),
        decoded matches Ok(s) ==> s@ == decode_utf8(bytes@),
{
    String::from_utf8(bytes)
}

/// Reads one varint. The cursor moves past it; it is at the end of the input
/// where that ended too early, and past the sixth byte where there was one.
pub fn read_varint(cursor: &mut ByteCursor) -> (read: Result<i32, ClankerError>)
    ensures
        match read {
            Ok(value) => parse_varint(old(cursor)@) matches Ok((v, n)) && v == value
                && final(cursor)@ == old(cursor)@.skip(n as int),
            Err(e) => parse_varint(old(cursor)@) == Err::<(i32, nat), ClankerError>(e),
        },
        read matches Err(ClankerError::VarintTruncated) ==> final(cursor)@.len() == 0,
        read matches Err(ClankerError::VarintTooLong) ==> final(cursor)@ == old(cursor)@.skip(6),
{
    let mut state = VarintState::new();
    let ghost input = cursor@;
    loop
        invariant
            input == old(cursor)@,
            state@.len() <= input.len(),
            state@ == input.take(state@.len() as int),
            cursor@ == input.skip(state@.len() as int),
            state@.len() <= 5,
            state@.len() > 0 ==> parse_varint(state@) == Err::<(i32, nat), ClankerError>(
                ClankerError::VarintTruncated,
            ),
        decreases cursor@.len(),
    {
        let ghost seen = state@;
        match cursor.next() {
            None => {
                proof {
                    assert(seen =~= input);
                    if seen.len() == 0 {
                        assert(parse_varint(input) == Err::<(i32, nat), ClankerError>(
                            ClankerError::VarintTruncated,
                        ));
                    }
                }
                return Err(ClankerError::VarintTruncated);
            },
            Some(byte) => {
                let ghost taken = seen.push(byte);
                proof {
                    assert(taken =~= input.take(taken.len() as int));
                    assert(input =~= taken + input.skip(taken.len() as int));
                    assert(cursor@ =~= input.skip(taken.len() as int));
                }
                match state.push(byte) {
                    VarintStep::Done(value) => {
                        proof {
                            lemma_parse_varint_extends(taken, input.skip(taken.len() as int));
                        }
                        return Ok(value);
                    },
                    VarintStep::TooLong => {
                        proof {
                            lemma_parse_varint_extends(taken, input.skip(taken.len() as int));
                        }
                        return Err(ClankerError::VarintTooLong);
                    },
                    VarintStep::More(next) => {
                        state = next;
                    },
                }
            },
        }
    }
}

/// Takes a decoded length as an unsigned machine word, as a cast would.
pub fn varint_length(value: i32) -> (length: usize)
    ensures
        length == length_of(value),
{
    if value >= 0 {
        value as usize
    } else {
        usize::MAX - ((-(value + 1)) as usize)
    }
}

/// Reads one string: a varint byte length, that many bytes, and their
/// characters. The cursor moves past what was read: past the string, also
/// where its bytes are not UTF-8; to the end of the input where that ended
/// too early; past the sixth byte of a length that has one.
pub fn read_string(cursor: &mut ByteCursor) -> (read: Result<String, ClankerError>)
    ensures
        match read {
            Ok(s) => parse_string(old(cursor)@) matches Ok((chars, n)) && chars == s@
                && final(cursor)@ == old(cursor)@.skip(n as int),
            Err(e) => parse_string(old(cursor)@) == Err::<(Seq<char>, nat), ClankerError>(e),
        },
        read matches Err(ClankerError::VarintTruncated) ==> final(cursor)@.len() == 0,
        read matches Err(ClankerError::VarintTooLong) ==> final(cursor)@ == old(cursor)@.skip(6),
        read matches Err(ClankerError::StringTruncated) ==> final(cursor)@.len() == 0,
        read matches Err(ClankerError::StringMalformed) ==> (parse_varint(old(cursor)@) matches Ok(
            (declared, n),
        ) && final(cursor)@ == old(cursor)@.skip((n + length_of(declared)) as int)),
{
    let ghost input = cursor@;
    proof {
        lemma_parse_varint_len(input);
    }
    let declared = match read_varint(cursor) {
        Ok(value) => value,
        Err(e) => {
            return Err(e);
        },
    };
    let length = varint_length(declared);
    let ghost n = parse_varint(input)->Ok_0.1;
    let mut buffer: Vec<u8> = Vec::new();
    let mut count: usize = 0;

    while count < length
        invariant
            input == old(cursor)@,
            parse_varint(input) == Ok::<(i32, nat), ClankerError>((declared, n)),
            length == length_of(declared),
            count <= length,
            n <= input.len(),
            count + n <= input.len(),
            buffer@ == input.subrange(n as int, n + count),
            cursor@ == input.skip(n + count),
        decreases length - count,
    {
        match cursor.next() {
            Some(byte) => {
                buffer.push(byte);
                count = count + 1;
                proof {
                    assert(buffer@ =~= input.subrange(n as int, n + count));
                    assert(cursor@ =~= input.skip(n + count));
                }
            },
            None => {
                return Err(ClankerError::StringTruncated);
            },
        }
    }

    match string_from_utf8(buffer) {
        Ok(s) => Ok(s),
        Err(_) => Err(ClankerError::StringMalformed),
    }
}

/// Decoding an encoded string gives the string back, whatever follows it.
pub proof fn lemma_string_round_trip(chars: Seq<char>, rest: Seq<u8>)
    requires
        encode_utf8(chars).len() <= i32::MAX,
    ensures
        parse_string(string_bytes(chars) + rest) == Ok::<(Seq<char>, nat), ClankerError>(
            (chars, string_bytes(chars).len()),
        ),
{
    let body = encode_utf8(chars);
    let len = body.len() as i32;
    let head = varint_bytes(len as nat);
    let s = string_bytes(chars) + rest;
    assert(s =~= head + (body + rest));
    lemma_varint_round_trip(len, body + rest);
    assert(s.subrange(head.len() as int, (head.len() + body.len()) as int) =~= body);
    encode_utf8_valid_utf8(chars);
    encode_utf8_decode_utf8(chars);
}

/// The characters that the ASCII bytes `bytes` stand for, one for one.
pub open spec fn ascii_chars(bytes: Seq<u8>) -> Seq<char> {
    Seq::new(bytes.len(), |i: int| bytes[i] as char)
}

/// Bytes below 128 are UTF-8, each the character with its number.
pub proof fn lemma_ascii_is_utf8(bytes: Seq<u8>)
    requires
        forall|i: int| 0 <= i < bytes.len() ==> bytes[i] < 128,
    ensures
        valid_utf8(bytes),
        decode_utf8(bytes) == ascii_chars(bytes),
        encode_utf8(ascii_chars(bytes)) == bytes,
{
    let chars = ascii_chars(bytes);
    assert(is_ascii_chars(chars)) by {
        assert forall|i: int| 0 <= i < chars.len() implies '\0' <= #[trigger] chars[i]
            <= '\u{7f}' by {
            assert(bytes[i] < 128);
        }
    }
    is_ascii_chars_encode_utf8(chars);
    assert(encode_utf8(chars) =~= bytes) by {
        assert forall|i: int| 0 <= i < bytes.len() implies encode_utf8(chars)[i] == bytes[i] by {
            assert(chars[i] as u8 == encode_utf8(chars)[i]);
            assert(bytes[i] < 128);
        }
    }
    encode_utf8_valid_utf8(chars);
    encode_utf8_decode_utf8(chars);
}

/// The string that the ASCII bytes `bytes` spell.
pub fn ascii_string(bytes: Vec<u8>) -> (s: String)
    requires
        forall|i: int| 0 <= i < bytes@.len() ==> bytes@[i] < 128,
    ensures
        s@ == ascii_chars(bytes@),
{
    proof {
        lemma_ascii_is_utf8(bytes@);
    }
    match string_from_utf8(bytes) {
        Ok(s) => s,
        Err(_) => vstd::pervasive::unreached(),
    }
}

} // verus!
