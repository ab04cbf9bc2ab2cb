//! The `CryptoData` packet, which carries an encrypted `CryptoDataPayload`
//! over an established session.
//!
//! Packet, big-endian:
//!
//! Length   | Content
//! -------- | ------
//! `1`      | `0x1b`
//! `2`      | Last 2 bytes of the `Nonce`
//! variable | Encrypted payload
//!
//! Payload, big-endian:
//!
//! Length   | Content
//! -------- | ------
//! `4`      | Buffer start
//! `4`      | Packet number
//! variable | Data
use vstd::prelude::*;
use vstd::slice::{slice_subrange, slice_to_vec};
use crate::big_endian::{
    be16_bytes, be16_value, be32_bytes, lemma_be16_round_trip, lemma_be32_round_trip,
    read_be32_at, read_u16, read_u32, write_u16, write_u32,
};
use crate::crypto::{
    open_precomputed, opened, seal_precomputed, sealed, Nonce, PrecomputedKey, MACBYTES,
    NONCEBYTES,
};

verus! {

/// The maximum size of a `CryptoData` packet, packet kind byte and the two
/// bytes of nonce included.
pub const MAX_CRYPTO_PACKET_SIZE: usize = 1400;

/// The packet kind byte of `CryptoData`.
pub const CRYPTO_DATA_KIND: u8 = 0x1b;

/// Size of the packet kind byte and the nonce suffix.
pub const CRYPTO_DATA_HEADER_SIZE: usize = 3;

/// Size of the two counters that open a payload.
pub const PAYLOAD_HEADER_SIZE: usize = 8;

/// The largest `data` that still fits in a packet once encrypted.
pub const MAX_PAYLOAD_DATA_SIZE: usize = MAX_CRYPTO_PACKET_SIZE - CRYPTO_DATA_HEADER_SIZE - MACBYTES
    - PAYLOAD_HEADER_SIZE;

/// Why a packet or a payload could not be built or read.
#[derive(Clone, Copy, Debug, PartialEq, Eq, Structural)]
pub enum CryptoDataError {
    /// Wrong packet kind byte, or too few bytes for the header.
    MalformedPacket,
    /// More than `MAX_CRYPTO_PACKET_SIZE` bytes.
    PacketTooLarge,
    /// Fewer than the eight bytes of the payload's counters.
    TruncatedPayload,
    /// Authentication failed: wrong key, wrong nonce or tampering.
    DecryptionFailed,
}

/// Unencrypted payload of a `CryptoData` packet.
#[derive(Clone, Debug, PartialEq, Eq)]
pub struct CryptoDataPayload {
    /// Highest packet number handled + 1
    pub buffer_start: u32,
    /// Packet number used by the receiver to know if any packets have been lost
    pub packet_number: u32,
    /// Data of `CryptoData` packet
    pub data: Vec<u8>,
}

impl View for CryptoDataPayload {
    type V = (u32, u32, Seq<u8>);

    open spec fn view(&self) -> (u32, u32, Seq<u8>) {
        (self.buffer_start, self.packet_number, self.data@)
    }
}

/// Packet used to send data over a `net_crypto` connection.
#[derive(Clone, Debug, PartialEq, Eq)]
pub struct CryptoData {
    /// Last two bytes of the `Nonce` of the encrypted payload, read big-endian
    pub nonce_last_bytes: u16,
    /// Encrypted payload
    pub payload: Vec<u8>,
}

impl View for CryptoData {
    type V = (u16, Seq<u8>);

    open spec fn view(&self) -> (u16, Seq<u8>) {
        (self.nonce_last_bytes, self.payload@)
    }
}

/// The bytes of a payload.
pub open spec fn encode_payload(p: (u32, u32, Seq<u8>)) -> Seq<u8> {
    be32_bytes(p.0) + be32_bytes(p.1) + p.2
}

/// The payload that `b` holds, if it is long enough.
pub open spec fn decode_payload(b: Seq<u8>) -> Option<(u32, u32, Seq<u8>)> {
    if b.len() < PAYLOAD_HEADER_SIZE {
        None
    } else {
        Some((read_be32_at(b, 0), read_be32_at(b, 4), b.subrange(8, b.len() as int)))
    }
}

/// The bytes of a packet, whatever its size.
pub open spec fn encode_packet(c: (u16, Seq<u8>)) -> Seq<u8> {
    seq![CRYPTO_DATA_KIND] + be16_bytes(c.0) + c.1
}

/// The packet that `b` holds, or why it holds none.
pub open spec fn decode_packet(b: Seq<u8>) -> Result<(u16, Seq<u8>), CryptoDataError> {
    if b.len() > MAX_CRYPTO_PACKET_SIZE {
        Err(CryptoDataError::PacketTooLarge)
    } else if b.len() < CRYPTO_DATA_HEADER_SIZE || b[0] != CRYPTO_DATA_KIND {
        Err(CryptoDataError::MalformedPacket)
    } else {
        Ok((be16_value(b[1], b[2]), b.subrange(3, b.len() as int)))
    }
}

/// The nonce suffix that travels on the wire: the last two bytes of the
/// nonce, read big-endian.
pub open spec fn nonce_suffix(nonce: Nonce) -> u16 {
    be16_value(nonce.0@[22], nonce.0@[23])
}

/// Decoding an encoded payload gives the payload back.
pub proof fn lemma_payload_round_trip(p: (u32, u32, Seq<u8>))
    ensures
        decode_payload(encode_payload(p)) == Some(p),
{
    let b = encode_payload(p);
    lemma_be32_round_trip(p.0);
    lemma_be32_round_trip(p.1);
    assert(b.subrange(0, 4) =~= be32_bytes(p.0));
    assert(b.subrange(4, 8) =~= be32_bytes(p.1));
    assert(b.subrange(8, b.len() as int) =~= p.2);
    assert(read_be32_at(b, 0) == read_be32_at(be32_bytes(p.0), 0));
    assert(read_be32_at(b, 4) == read_be32_at(be32_bytes(p.1), 0));
}

/// Decoding an encoded packet that fits gives the packet back.
pub proof fn lemma_packet_round_trip(c: (u16, Seq<u8>))
    requires
        encode_packet(c).len() <= MAX_CRYPTO_PACKET_SIZE,
    ensures
        decode_packet(encode_packet(c)) == Ok::<(u16, Seq<u8>), CryptoDataError>(c),
{
    let b = encode_packet(c);
    lemma_be16_round_trip(c.0);
    assert(b.subrange(3, b.len() as int) =~= c.1);
}

/// Appends the bytes of `b` to `out`.
fn append_bytes(out: &mut Vec<u8>, b: &[u8])
    ensures
        final(out)@ == old(out)@ + b@,
{
    let mut i: usize = 0;
    while i < b.len()
        invariant
            0 <= i <= b@.len(),
            out@ == old(out)@ + b@.subrange(0, i as int),
        decreases b@.len() - i,
    {
        out.push(b[i]);
        i = i + 1;
        assert(out@ =~= old(out)@ + b@.subrange(0, i as int));
    }
    assert(b@.subrange(0, b@.len() as int) =~= b@);
}

impl CryptoDataPayload {
    /// Parses a payload: two big-endian counters, then the data.
    pub fn from_bytes(input: &[u8]) -> (r: Result<CryptoDataPayload, CryptoDataError>)
        ensures
            match decode_payload(input@) {
                Some(p) => r is Ok && r->Ok_0@ == p,
                None => r == Err::<CryptoDataPayload, CryptoDataError>(
                    CryptoDataError::TruncatedPayload,
                ),
            },
    {
        if input.len() < PAYLOAD_HEADER_SIZE {
            return Err(CryptoDataError::TruncatedPayload);
        }
        let buffer_start = read_u32(input);
        let rest = slice_subrange(input, 4, input.len());
        let packet_number = read_u32(rest);
        let data = slice_to_vec(slice_subrange(input, PAYLOAD_HEADER_SIZE, input.len()));
        assert(read_be32_at(rest@, 0) == read_be32_at(input@, 4));
        Ok(CryptoDataPayload { buffer_start, packet_number, data })
    }

    /// Serializes the payload.
    pub fn to_bytes(&self) -> (r: Vec<u8>)
        ensures
            r@ == encode_payload(self@),
    {
        let mut out: Vec<u8> = Vec::new();
        let a = write_u32(self.buffer_start);
        append_bytes(&mut out, &a);
        let b = write_u32(self.packet_number);
        append_bytes(&mut out, &b);
        append_bytes(&mut out, self.data.as_slice());
        out
    }
}

impl CryptoData {
    /// Parses a packet: the kind byte, the nonce suffix, then the encrypted
    /// payload. Longer input than `MAX_CRYPTO_PACKET_SIZE` is refused.
    pub fn from_bytes(input: &[u8]) -> (r: Result<CryptoData, CryptoDataError>)
        ensures
            match decode_packet(input@) {
                Ok(c) => r is Ok && r->Ok_0@ == c,
                Err(e) => r == Err::<CryptoData, CryptoDataError>(e),
            },
    {
        if input.len() > MAX_CRYPTO_PACKET_SIZE {
            return Err(CryptoDataError::PacketTooLarge);
        }
        if input.len() < CRYPTO_DATA_HEADER_SIZE || input[0] != CRYPTO_DATA_KIND {
            return Err(CryptoDataError::MalformedPacket);
        }
        let nonce_last_bytes = read_u16(slice_subrange(input, 1, input.len()));
        let payload = slice_to_vec(slice_subrange(input, CRYPTO_DATA_HEADER_SIZE, input.len()));
        Ok(CryptoData { nonce_last_bytes, payload })
    }

    /// Serializes the packet; fails when it would exceed
    /// `MAX_CRYPTO_PACKET_SIZE` bytes.
    pub fn to_bytes(&self) -> (r: Result<Vec<u8>, CryptoDataError>)
        ensures
            encode_packet(self@).len() <= MAX_CRYPTO_PACKET_SIZE ==> r is Ok && r->Ok_0@
                == encode_packet(self@),
            encode_packet(self@).len() > MAX_CRYPTO_PACKET_SIZE ==> r == Err::<
                Vec<u8>,
                CryptoDataError,
            >(CryptoDataError::PacketTooLarge),
    {
        if self.payload.len() > MAX_CRYPTO_PACKET_SIZE - CRYPTO_DATA_HEADER_SIZE {
            return Err(CryptoDataError::PacketTooLarge);
        }
        let mut out: Vec<u8> = Vec::new();
        out.push(CRYPTO_DATA_KIND);
        let n = write_u16(self.nonce_last_bytes);
        append_bytes(&mut out, &n);
        append_bytes(&mut out, self.payload.as_slice());
        assert(out@ =~= encode_packet(self@));
        Ok(out)
    }

    /// The last two bytes of `nonce`, read big-endian.
    pub fn nonce_last_bytes(nonce: Nonce) -> (r: u16)
        ensures
            r == nonce_suffix(nonce),
    {
        let tail = slice_subrange(nonce.0.as_slice(), NONCEBYTES - 2, NONCEBYTES);
        read_u16(tail)
    }

    /// Builds the packet that carries `payload` encrypted under
    /// `shared_secret` and `nonce`. Fails when the packet would exceed
    /// `MAX_CRYPTO_PACKET_SIZE` bytes.
    pub fn new(shared_secret: &PrecomputedKey, nonce: Nonce, payload: CryptoDataPayload) -> (r:
        Result<CryptoData, CryptoDataError>)
        ensures
            payload.data@.len() <= MAX_PAYLOAD_DATA_SIZE ==> r is Ok && r->Ok_0.nonce_last_bytes
                == nonce_suffix(nonce) && r->Ok_0.payload@ == sealed(
                shared_secret.0@,
                nonce.0@,
                encode_payload(payload@),
            ),
            payload.data@.len() <= MAX_PAYLOAD_DATA_SIZE ==> encode_packet(r->Ok_0@).len()
                <= MAX_CRYPTO_PACKET_SIZE,
            payload.data@.len() > MAX_PAYLOAD_DATA_SIZE ==> r == Err::<
                CryptoData,
                CryptoDataError,
            >(CryptoDataError::PacketTooLarge),
    {
        if payload.data.len() > MAX_PAYLOAD_DATA_SIZE {
            return Err(CryptoDataError::PacketTooLarge);
        }
        let plain = payload.to_bytes();
        let sealed_payload = seal_precomputed(plain.as_slice(), &nonce, shared_secret);
        let nonce_last_bytes = CryptoData::nonce_last_bytes(nonce);
        Ok(CryptoData { nonce_last_bytes, payload: sealed_payload })
    }

    /// Decrypts the payload with `shared_secret` and `nonce` and parses it.
    /// Fails with `DecryptionFailed` when authentication fails and with
    /// `TruncatedPayload` when the plaintext is too short. A packet built by
    /// `new` with the same key and nonce gives its payload back.
    pub fn get_payload(&self, shared_secret: &PrecomputedKey, nonce: &Nonce) -> (r: Result<
        CryptoDataPayload,
        CryptoDataError,
    >)
        ensures
            match opened(shared_secret.0@, nonce.0@, self.payload@) {
                None => r == Err::<CryptoDataPayload, CryptoDataError>(
                    CryptoDataError::DecryptionFailed,
                ),
                Some(plain) => match decode_payload(plain) {
                    Some(p) => r is Ok && r->Ok_0@ == p,
                    None => r == Err::<CryptoDataPayload, CryptoDataError>(
                        CryptoDataError::TruncatedPayload,
                    ),
                },
            },
            forall|p: (u32, u32, Seq<u8>)|
                self.payload@ == sealed(shared_secret.0@, nonce.0@, #[trigger] encode_payload(p))
                    ==> r is Ok && r->Ok_0@ == p,
    {
        let opened_payload = open_precomputed(self.payload.as_slice(), nonce, shared_secret);
        let r = match opened_payload {
            None => Err(CryptoDataError::DecryptionFailed),
            Some(plain) => CryptoDataPayload::from_bytes(plain.as_slice()),
        };
        proof {
            assert forall|p: (u32, u32, Seq<u8>)|
                self.payload@ == sealed(shared_secret.0@, nonce.0@, #[trigger] encode_payload(p))
                    implies r is Ok && r->Ok_0@ == p by {
                lemma_payload_round_trip(p);
            }
        }
        r
    }
}

} // verus!
