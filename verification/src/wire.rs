//! The `mow2` datagram format: a 28-byte little-endian header followed by a
//! PCM16 payload, optionally sealed with ChaCha20-Poly1305.
//!
//! Header layout (offsets in bytes): magic `MOW2` (0..4), version (4), flags (5),
//! payload length (6..8), sequence (8..12), session id (12..20), sample rate
//! (20..24, not interpreted), channel count (24..26), payload format (26..28).
use vstd::prelude::*;
use crate::crypto::{chacha20poly1305_decrypt, chacha20poly1305_open};
use crate::text::{decimal, push_decimal};

verus! {

pub const PROTOCOL_NAME: &'static str = "mow2";
pub const PROTOCOL_MAGIC: [u8; 4] = [0x4d, 0x4f, 0x57, 0x32];
pub const PROTOCOL_VERSION: u8 = 2;
pub const PROTOCOL_HEADER_LEN: usize = 28;
pub const PROTOCOL_FLAG_ENCRYPTED: u8 = 0x01;
pub const PROTOCOL_PAYLOAD_PCM16: u16 = 1;

/// Why a datagram was refused while reading its header or payload.
#[derive(Debug, Clone, Copy, PartialEq, Eq, Structural)]
pub enum ParseFault {
    HeaderTooShort,
    MagicMismatch,
    UnsupportedVersion(u8),
    LengthMismatch,
    UnsupportedFormat(u16),
    PlaintextRejected,
    MisalignedPayload,
}

/// Why an encrypted payload could not be opened.
#[derive(Debug, Clone, Copy, PartialEq, Eq, Structural)]
pub enum DecryptFault {
    MissingKey,
    Rejected,
}

/// A refused datagram: malformed (`Parse`) or not decryptable (`Decrypt`).
#[derive(Debug, Clone, Copy, PartialEq, Eq, Structural)]
pub enum PacketError {
    Parse(ParseFault),
    Decrypt(DecryptFault),
}

/// An accepted audio datagram. `samples` holds one value per mono frame: for a
/// stream of one channel (or of zero channels) the PCM16 values themselves, for
/// a stream of `c > 1` channels the sum of each group of `c` consecutive values
/// (the last group may be shorter). The normalized level of a sample is the value
/// divided by `i16::MAX` and, for `c > 1`, by `c`.
pub struct StreamPacket {
    pub sequence: u32,
    pub session_id: u64,
    pub channels: u16,
    pub samples: Vec<i32>,
}

/// The mathematical content of a `StreamPacket`.
pub struct PacketView {
    pub sequence: u32,
    pub session_id: u64,
    pub channels: u16,
    pub samples: Seq<int>,
}

impl View for StreamPacket {
    type V = PacketView;

    open spec fn view(&self) -> PacketView {
        PacketView {
            sequence: self.sequence,
            session_id: self.session_id,
            channels: self.channels,
            samples: self.samples@.map_values(|x: i32| x as int),
        }
    }
}

pub open spec fn protocol_magic() -> Seq<u8> {
    seq![0x4du8, 0x4fu8, 0x57u8, 0x32u8]
}

/// Little-endian unsigned value of `b[i..i+2]`.
pub open spec fn le_u16(b: Seq<u8>, i: int) -> int {
    b[i] + 256 * b[i + 1]
}

/// Little-endian unsigned value of `b[i..i+4]`.
pub open spec fn le_u32(b: Seq<u8>, i: int) -> int {
    le_u16(b, i) + 65536 * le_u16(b, i + 2)
}

/// Little-endian unsigned value of `b[i..i+8]`.
pub open spec fn le_u64(b: Seq<u8>, i: int) -> int {
    le_u32(b, i) + 4294967296 * le_u32(b, i + 4)
}

/// Little-endian two's-complement value of `b[i..i+2]`.
pub open spec fn le_i16(b: Seq<u8>, i: int) -> int {
    let u = le_u16(b, i);
    if u >= 32768 { u - 65536 } else { u }
}

/// The `n` little-endian bytes of `x` (`x` taken modulo `256^n`).
pub open spec fn le_bytes(x: nat, n: nat) -> Seq<u8>
    decreases n,
{
    if n == 0 {
        seq![]
    } else {
        seq![(x % 256) as u8] + le_bytes(x / 256, (n - 1) as nat)
    }
}

/// The AEAD nonce of a datagram: the session id and then the sequence number,
/// both little-endian.
pub open spec fn nonce_bytes(session_id: u64, sequence: u32) -> Seq<u8> {
    le_bytes(session_id as nat, 8) + le_bytes(sequence as nat, 4)
}

pub open spec fn is_encrypted(flags: u8) -> bool {
    flags & PROTOCOL_FLAG_ENCRYPTED != 0
}

/// The PCM16 values of a byte string of even length.
pub open spec fn pcm_values(audio: Seq<u8>) -> Seq<int> {
    Seq::new(audio.len() / 2, |k: int| le_i16(audio, 2 * k))
}

pub open spec fn sum(s: Seq<int>) -> int
    decreases s.len(),
{
    if s.len() == 0 { 0 } else { sum(s.drop_last()) + s.last() }
}

/// The sums of consecutive groups of `c` values; the last group may be shorter.
pub open spec fn frame_sums(s: Seq<int>, c: nat) -> Seq<int>
    decreases s.len(),
{
    if s.len() == 0 || c == 0 {
        seq![]
    } else if s.len() <= c {
        seq![sum(s)]
    } else {
        seq![sum(s.take(c as int))] + frame_sums(s.skip(c as int), c)
    }
}

/// The mono samples of a PCM16 stream of `channels` interleaved channels.
pub open spec fn mono_samples(pcm: Seq<int>, channels: u16) -> Seq<int> {
    if channels > 1 { frame_sums(pcm, channels as nat) } else { pcm }
}

/// The bytes that carry audio: the payload itself, or what opening the sealed
/// payload gives.
pub open spec fn audio_bytes(p: Seq<u8>, key: Option<Seq<u8>>) -> Result<Seq<u8>, PacketError> {
    let header = p.subrange(0, PROTOCOL_HEADER_LEN as int);
    let payload = p.subrange(PROTOCOL_HEADER_LEN as int, p.len() as int);
    if is_encrypted(p[5]) {
        match key {
            None => Err(PacketError::Decrypt(DecryptFault::MissingKey)),
            Some(k) => match chacha20poly1305_open(
                k,
                nonce_bytes(le_u64(p, 12) as u64, le_u32(p, 8) as u32),
                header,
                payload,
            ) {
                None => Err(PacketError::Decrypt(DecryptFault::Rejected)),
                Some(a) => Ok(a),
            },
        }
    } else {
        Ok(payload)
    }
}

/// What reading the datagram `p` gives, in the order the checks are made.
pub open spec fn packet_outcome(p: Seq<u8>, secure_mode: bool, key: Option<Seq<u8>>) -> Result<PacketView, PacketError> {
    if p.len() < PROTOCOL_HEADER_LEN {
        Err(PacketError::Parse(ParseFault::HeaderTooShort))
    } else if p.subrange(0, 4) != protocol_magic() {
        Err(PacketError::Parse(ParseFault::MagicMismatch))
    } else if p[4] != PROTOCOL_VERSION {
        Err(PacketError::Parse(ParseFault::UnsupportedVersion(p[4])))
    } else if p.len() != PROTOCOL_HEADER_LEN + le_u16(p, 6) {
        Err(PacketError::Parse(ParseFault::LengthMismatch))
    } else if le_u16(p, 26) != PROTOCOL_PAYLOAD_PCM16 {
        Err(PacketError::Parse(ParseFault::UnsupportedFormat(le_u16(p, 26) as u16)))
    } else if secure_mode && !is_encrypted(p[5]) {
        Err(PacketError::Parse(ParseFault::PlaintextRejected))
    } else {
        match audio_bytes(p, key) {
            Err(e) => Err(e),
            Ok(audio) => if audio.len() % 2 != 0 {
                Err(PacketError::Parse(ParseFault::MisalignedPayload))
            } else {
                Ok(PacketView {
                    sequence: le_u32(p, 8) as u32,
                    session_id: le_u64(p, 12) as u64,
                    channels: le_u16(p, 24) as u16,
                    samples: mono_samples(pcm_values(audio), le_u16(p, 24) as u16),
                })
            },
        }
    }
}

pub open spec fn outcome_view(r: Result<StreamPacket, PacketError>) -> Result<PacketView, PacketError> {
    match r {
        Ok(p) => Ok(p@),
        Err(e) => Err(e),
    }
}

pub open spec fn key_view(key: Option<&[u8; 32]>) -> Option<Seq<u8>> {
    match key {
        Some(k) => Some(k@),
        None => None,
    }
}

fn read_u16_le(b: &[u8], i: usize) -> (r: u16)
    requires
        i + 2 <= b.len(),
    ensures
        r == le_u16(b@, i as int),
{
    (b[i] as u16) + (b[i + 1] as u16) * 256
}

fn read_u32_le(b: &[u8], i: usize) -> (r: u32)
    requires
        i + 4 <= b.len(),
    ensures
        r == le_u32(b@, i as int),
{
    let lo: u16 = read_u16_le(b, i);
    let hi: u16 = read_u16_le(b, i + 2);
    (lo as u32) + (hi as u32) * 65536
}

fn read_u64_le(b: &[u8], i: usize) -> (r: u64)
    requires
        i + 8 <= b.len(),
    ensures
        r == le_u64(b@, i as int),
{
    let lo: u32 = read_u32_le(b, i);
    let hi: u32 = read_u32_le(b, i + 4);
    (lo as u64) + (hi as u64) * 4294967296
}

/// The AEAD nonce of a datagram: session id then sequence number, little-endian.
pub fn build_nonce(session_id: u64, sequence: u32) -> (nonce: [u8; 12])
    ensures
        nonce@ == nonce_bytes(session_id, sequence),
{
    let s1 = session_id / 256;
    let s2 = s1 / 256;
    let s3 = s2 / 256;
    let s4 = s3 / 256;
    let s5 = s4 / 256;
    let s6 = s5 / 256;
    let s7 = s6 / 256;
    let q1 = sequence / 256;
    let q2 = q1 / 256;
    let q3 = q2 / 256;
    let nonce: [u8; 12] = [
        (session_id % 256) as u8,
        (s1 % 256) as u8,
        (s2 % 256) as u8,
        (s3 % 256) as u8,
        (s4 % 256) as u8,
        (s5 % 256) as u8,
        (s6 % 256) as u8,
        (s7 % 256) as u8,
        (sequence % 256) as u8,
        (q1 % 256) as u8,
        (q2 % 256) as u8,
        (q3 % 256) as u8,
    ];
    proof {
        reveal_with_fuel(le_bytes, 9);
        assert(nonce@ =~= nonce_bytes(session_id, sequence));
    }
    nonce
}


/// Opens the sealed payload of a datagram with the pairing key; the nonce is
/// built from the datagram's session id and sequence number, the header is the
/// associated data.
pub fn decrypt_audio_payload(
    payload: &[u8],
    header: &[u8],
    session_id: u64,
    sequence: u32,
    key: &[u8; 32],
) -> (r: Result<Vec<u8>, PacketError>)
    ensures
        match r {
            Ok(plain) => chacha20poly1305_open(key@, nonce_bytes(session_id, sequence), header@, payload@)
                == Some(plain@),
            Err(e) => e == PacketError::Decrypt(DecryptFault::Rejected)
                && chacha20poly1305_open(key@, nonce_bytes(session_id, sequence), header@, payload@) is None,
        },
        r matches Ok(plain) ==> plain@.len() + 16 == payload@.len(),
{
    let nonce = build_nonce(session_id, sequence);
    match chacha20poly1305_decrypt(key, &nonce, header, payload) {
        Some(plain) => Ok(plain),
        None => Err(PacketError::Decrypt(DecryptFault::Rejected)),
    }
}

/// The PCM16 values of an even-length byte string, each widened to `i32`.
fn decode_pcm(audio: &[u8]) -> (pcm: Vec<i32>)
    requires
        audio@.len() % 2 == 0,
    ensures
        pcm@.map_values(|x: i32| x as int) == pcm_values(audio@),
        forall|i: int| 0 <= i < pcm@.len() ==> -32768 <= #[trigger] pcm@[i] <= 32767,
{
    let n = audio.len() / 2;
    let mut pcm: Vec<i32> = Vec::with_capacity(n);
    let mut k: usize = 0;
    while k < n
        invariant
            n == audio.len() / 2,
            k <= n,
            pcm@.len() == k,
            forall|i: int| 0 <= i < k ==> #[trigger] pcm@[i] as int == le_i16(audio@, 2 * i),
            forall|i: int| 0 <= i < k ==> -32768 <= #[trigger] pcm@[i] <= 32767,
        decreases n - k,
    {
        let lo = audio[2 * k] as i32;
        let hi = audio[2 * k + 1] as i32;
        let u = lo + hi * 256;
        let v = if u >= 32768 { u - 65536 } else { u };
        pcm.push(v);
        k = k + 1;
    }
    assert(pcm@.map_values(|x: i32| x as int) =~= pcm_values(audio@));
    pcm
}

/// The sums of consecutive groups of `channels` values (the last group may be
/// shorter).
fn downmix(pcm: &Vec<i32>, channels: u16) -> (mono: Vec<i32>)
    requires
        channels > 1,
        forall|i: int| 0 <= i < pcm@.len() ==> -32768 <= #[trigger] pcm@[i] <= 32767,
    ensures
        mono@.map_values(|x: i32| x as int) == frame_sums(pcm@.map_values(|x: i32| x as int), channels as nat),
{
    let ghost s = pcm@.map_values(|x: i32| x as int);
    let n = pcm.len();
    let c = channels as usize;
    let mut mono: Vec<i32> = Vec::new();
    let mut pos: usize = 0;
    proof {
        assert(s.skip(0) =~= s);
        assert(mono@.map_values(|x: i32| x as int) =~= Seq::<int>::empty());
    }
    while pos < n
        invariant
            s == pcm@.map_values(|x: i32| x as int),
            n == pcm@.len(),
            c == channels as usize,
            c > 1,
            c <= 65535,
            pos <= n,
            forall|i: int| 0 <= i < pcm@.len() ==> -32768 <= #[trigger] pcm@[i] <= 32767,
            mono@.map_values(|x: i32| x as int) + frame_sums(s.skip(pos as int), c as nat)
                == frame_sums(s, c as nat),
        decreases n - pos,
    {
        let end = if n - pos <= c { n } else { pos + c };
        let mut acc: i32 = 0;
        let mut j: usize = pos;
        while j < end
            invariant
                s == pcm@.map_values(|x: i32| x as int),
                n == pcm@.len(),
                pos <= j <= end <= n,
                end - pos <= c,
                c <= 65535,
                forall|i: int| 0 <= i < pcm@.len() ==> -32768 <= #[trigger] pcm@[i] <= 32767,
                acc as int == sum(s.subrange(pos as int, j as int)),
                -32768 * (j - pos) <= acc <= 32767 * (j - pos),
            decreases end - j,
        {
            assert(s.subrange(pos as int, j + 1).drop_last() =~= s.subrange(pos as int, j as int));
            acc = acc + pcm[j];
            j = j + 1;
        }
        proof {
            let rest = s.skip(pos as int);
            if n - pos <= c {
                assert(rest =~= s.subrange(pos as int, end as int));
                assert(s.skip(end as int) =~= Seq::<int>::empty());
            } else {
                assert(rest.take(c as int) =~= s.subrange(pos as int, end as int));
                assert(rest.skip(c as int) =~= s.skip(end as int));
            }
            assert(frame_sums(rest, c as nat) == seq![acc as int] + frame_sums(s.skip(end as int), c as nat));
        }
        let ghost before = mono@;
        mono.push(acc);
        proof {
            assert(mono@.map_values(|x: i32| x as int) =~= before.map_values(|x: i32| x as int) + seq![acc as int]);
        }
        pos = end;
    }
    assert(s.skip(n as int) =~= Seq::<int>::empty());
    mono
}


/// Reads one datagram of the stream. A receiver in secure mode refuses
/// unencrypted datagrams; an encrypted datagram is opened with `pairing_key`.
pub fn parse_stream_packet(
    packet: &[u8],
    secure_mode: bool,
    pairing_key: Option<&[u8; 32]>,
) -> (r: Result<StreamPacket, PacketError>)
    ensures
        outcome_view(r) == packet_outcome(packet@, secure_mode, key_view(pairing_key)),
{
    let ghost p = packet@;
    if packet.len() < PROTOCOL_HEADER_LEN {
        return Err(PacketError::Parse(ParseFault::HeaderTooShort));
    }
    if packet[0] != 0x4d || packet[1] != 0x4f || packet[2] != 0x57 || packet[3] != 0x32 {
        proof {
            let m = p.subrange(0, 4);
            assert(m[0] == p[0] && m[1] == p[1] && m[2] == p[2] && m[3] == p[3]);
            assert(protocol_magic()[0] == 0x4d && protocol_magic()[1] == 0x4f);
            assert(protocol_magic()[2] == 0x57 && protocol_magic()[3] == 0x32);
        }
        return Err(PacketError::Parse(ParseFault::MagicMismatch));
    }
    assert(p.subrange(0, 4) =~= protocol_magic());
    let version = packet[4];
    if version != PROTOCOL_VERSION {
        return Err(PacketError::Parse(ParseFault::UnsupportedVersion(version)));
    }
    let flags = packet[5];
    let payload_len = read_u16_le(packet, 6) as usize;
    if packet.len() != PROTOCOL_HEADER_LEN + payload_len {
        return Err(PacketError::Parse(ParseFault::LengthMismatch));
    }
    let sequence = read_u32_le(packet, 8);
    let session_id = read_u64_le(packet, 12);
    let channels = read_u16_le(packet, 24);
    let payload_format = read_u16_le(packet, 26);
    if payload_format != PROTOCOL_PAYLOAD_PCM16 {
        return Err(PacketError::Parse(ParseFault::UnsupportedFormat(payload_format)));
    }
    let encrypted = flags & PROTOCOL_FLAG_ENCRYPTED != 0;
    if secure_mode && !encrypted {
        return Err(PacketError::Parse(ParseFault::PlaintextRejected));
    }
    let (header, payload) = packet.split_at(PROTOCOL_HEADER_LEN);
    let pcm = if encrypted {
        match pairing_key {
            None => {
                return Err(PacketError::Decrypt(DecryptFault::MissingKey));
            },
            Some(key) => match decrypt_audio_payload(payload, header, session_id, sequence, key) {
                Err(e) => {
                    return Err(e);
                },
                Ok(plain) => {
                    if plain.len() % 2 != 0 {
                        return Err(PacketError::Parse(ParseFault::MisalignedPayload));
                    }
                    decode_pcm(plain.as_slice())
                },
            },
        }
    } else {
        if payload.len() % 2 != 0 {
            return Err(PacketError::Parse(ParseFault::MisalignedPayload));
        }
        decode_pcm(payload)
    };
    let samples = if channels > 1 { downmix(&pcm, channels) } else { pcm };
    Ok(StreamPacket { sequence, session_id, channels, samples })
}

/// The text reported for a refused datagram.
pub open spec fn error_message(e: PacketError) -> Seq<char> {
    match e {
        PacketError::Parse(ParseFault::HeaderTooShort) => "Packet is smaller than protocol header."@,
        PacketError::Parse(ParseFault::MagicMismatch) => "Protocol magic mismatch."@,
        PacketError::Parse(ParseFault::UnsupportedVersion(v)) => "Unsupported protocol version: "@ + decimal(v as nat),
        PacketError::Parse(ParseFault::LengthMismatch) => "Payload length does not match packet size."@,
        PacketError::Parse(ParseFault::UnsupportedFormat(f)) => "Unsupported payload format "@ + decimal(f as nat) + "."@,
        PacketError::Parse(ParseFault::PlaintextRejected) => "Secure receiver requires encrypted packets."@,
        PacketError::Parse(ParseFault::MisalignedPayload) => "PCM payload is not aligned to 16-bit samples."@,
        PacketError::Decrypt(DecryptFault::MissingKey) => "Encrypted packet arrived without pairing key."@,
        PacketError::Decrypt(DecryptFault::Rejected) => "Pair code mismatch or tampered packet."@,
    }
}

impl PacketError {
    /// The text reported for this refusal.
    pub fn message(&self) -> (m: String)
        ensures
            m@ == error_message(*self),
    {
        match self {
            PacketError::Parse(ParseFault::HeaderTooShort) => String::from_str("Packet is smaller than protocol header."),
            PacketError::Parse(ParseFault::MagicMismatch) => String::from_str("Protocol magic mismatch."),
            PacketError::Parse(ParseFault::UnsupportedVersion(v)) => {
                let mut m = String::from_str("Unsupported protocol version: ");
                push_decimal(&mut m, *v as u64);
                m
            },
            PacketError::Parse(ParseFault::LengthMismatch) => String::from_str("Payload length does not match packet size."),
            PacketError::Parse(ParseFault::UnsupportedFormat(f)) => {
                let mut m = String::from_str("Unsupported payload format ");
                push_decimal(&mut m, *f as u64);
                m.append(".");
                m
            },
            PacketError::Parse(ParseFault::PlaintextRejected) => String::from_str("Secure receiver requires encrypted packets."),
            PacketError::Parse(ParseFault::MisalignedPayload) => String::from_str("PCM payload is not aligned to 16-bit samples."),
            PacketError::Decrypt(DecryptFault::MissingKey) => String::from_str("Encrypted packet arrived without pairing key."),
            PacketError::Decrypt(DecryptFault::Rejected) => String::from_str("Pair code mismatch or tampered packet."),
        }
    }
}

/// `256^n`.
pub open spec fn byte_span(n: nat) -> nat
    decreases n,
{
    if n == 0 { 1 } else { 256 * byte_span((n - 1) as nat) }
}

/// Numbers below `256^n` have distinct `n`-byte encodings.
pub proof fn lemma_le_bytes_injective(x: nat, y: nat, n: nat)
    requires
        x < byte_span(n),
        y < byte_span(n),
        le_bytes(x, n) == le_bytes(y, n),
    ensures
        x == y,
    decreases n,
{
    if n > 0 {
        let bx = le_bytes(x, n);
        let by = le_bytes(y, n);
        assert(bx[0] == by[0]);
        assert(le_bytes(x / 256, (n - 1) as nat) =~= bx.subrange(1, bx.len() as int));
        assert(le_bytes(y / 256, (n - 1) as nat) =~= by.subrange(1, by.len() as int));
        assert(x / 256 < byte_span((n - 1) as nat));
        assert(y / 256 < byte_span((n - 1) as nat));
        lemma_le_bytes_injective(x / 256, y / 256, (n - 1) as nat);
    }
}

/// Distinct (session, sequence) pairs get distinct nonces, so no nonce is used
/// twice under one pairing key within and across sessions.
pub proof fn lemma_nonce_unique(session_a: u64, sequence_a: u32, session_b: u64, sequence_b: u32)
    requires
        nonce_bytes(session_a, sequence_a) == nonce_bytes(session_b, sequence_b),
    ensures
        session_a == session_b,
        sequence_a == sequence_b,
{
    reveal_with_fuel(le_bytes, 9);
    reveal_with_fuel(byte_span, 9);
    let na = nonce_bytes(session_a, sequence_a);
    let nb = nonce_bytes(session_b, sequence_b);
    assert(le_bytes(session_a as nat, 8) =~= na.subrange(0, 8));
    assert(le_bytes(session_b as nat, 8) =~= nb.subrange(0, 8));
    assert(le_bytes(sequence_a as nat, 4) =~= na.subrange(8, 12));
    assert(le_bytes(sequence_b as nat, 4) =~= nb.subrange(8, 12));
    lemma_le_bytes_injective(session_a as nat, session_b as nat, 8);
    lemma_le_bytes_injective(sequence_a as nat, sequence_b as nat, 4);
}

/// Little-endian value of a byte string.
pub open spec fn le_value(b: Seq<u8>) -> nat
    decreases b.len(),
{
    if b.len() == 0 { 0 } else { (b[0] + 256 * le_value(b.drop_first())) as nat }
}

/// Reading back `n` little-endian bytes gives the number written.
pub proof fn lemma_le_value_le_bytes(x: nat, n: nat)
    requires
        x < byte_span(n),
    ensures
        le_value(le_bytes(x, n)) == x,
    decreases n,
{
    if n > 0 {
        lemma_le_value_le_bytes(x / 256, (n - 1) as nat);
        assert(le_bytes(x, n).drop_first() =~= le_bytes(x / 256, (n - 1) as nat));
    }
}

/// The 16-bit two's-complement code of a sample value.
pub open spec fn pcm_code(v: int) -> nat {
    if v < 0 { (v + 65536) as nat } else { v as nat }
}

/// The PCM16 little-endian bytes of the sample values `pcm`.
pub open spec fn pcm_bytes(pcm: Seq<int>) -> Seq<u8> {
    Seq::new(2 * pcm.len(), |i: int|
        if i % 2 == 0 { (pcm_code(pcm[i / 2]) % 256) as u8 } else { (pcm_code(pcm[i / 2]) / 256) as u8 })
}

/// A datagram as a sender writes it: the header for `flags` and the given
/// fields, then `payload`.
pub open spec fn datagram(flags: u8, sequence: u32, session_id: u64, sample_rate: u32, channels: u16, payload: Seq<u8>) -> Seq<u8> {
    protocol_magic() + seq![PROTOCOL_VERSION, flags] + le_bytes(payload.len(), 2) + le_bytes(sequence as nat, 4)
        + le_bytes(session_id as nat, 8) + le_bytes(sample_rate as nat, 4) + le_bytes(channels as nat, 2)
        + le_bytes(PROTOCOL_PAYLOAD_PCM16 as nat, 2) + payload
}

/// An unencrypted datagram carrying the sample values `pcm`.
pub open spec fn plain_datagram(sequence: u32, session_id: u64, sample_rate: u32, channels: u16, pcm: Seq<int>) -> Seq<u8> {
    datagram(0, sequence, session_id, sample_rate, channels, pcm_bytes(pcm))
}

/// The fields of a written datagram read back from its header.
proof fn lemma_datagram_header(flags: u8, sequence: u32, session_id: u64, sample_rate: u32, channels: u16, payload: Seq<u8>)
    requires
        payload.len() <= 65535,
    ensures
        ({
            let p = datagram(flags, sequence, session_id, sample_rate, channels, payload);
            &&& p.len() == PROTOCOL_HEADER_LEN + payload.len()
            &&& p.subrange(0, 4) == protocol_magic()
            &&& p[4] == PROTOCOL_VERSION
            &&& p[5] == flags
            &&& le_u16(p, 6) == payload.len()
            &&& le_u32(p, 8) == sequence
            &&& le_u64(p, 12) == session_id
            &&& le_u16(p, 24) == channels
            &&& le_u16(p, 26) == PROTOCOL_PAYLOAD_PCM16
            &&& p.subrange(PROTOCOL_HEADER_LEN as int, p.len() as int) == payload
        }),
{
    reveal_with_fuel(le_bytes, 9);
    reveal_with_fuel(byte_span, 9);
    reveal_with_fuel(le_value, 9);
    let p = datagram(flags, sequence, session_id, sample_rate, channels, payload);
    let len_bytes = le_bytes(payload.len(), 2);
    let seq_bytes = le_bytes(sequence as nat, 4);
    let sid_bytes = le_bytes(session_id as nat, 8);
    let ch_bytes = le_bytes(channels as nat, 2);
    let fmt_bytes = le_bytes(PROTOCOL_PAYLOAD_PCM16 as nat, 2);
    lemma_le_value_le_bytes(payload.len(), 2);
    lemma_le_value_le_bytes(sequence as nat, 4);
    lemma_le_value_le_bytes(session_id as nat, 8);
    lemma_le_value_le_bytes(channels as nat, 2);
    lemma_le_value_le_bytes(PROTOCOL_PAYLOAD_PCM16 as nat, 2);
    assert(p.subrange(0, 4) =~= protocol_magic());
    assert(p[6] == len_bytes[0] && p[7] == len_bytes[1]);
    assert(p[8] == seq_bytes[0] && p[9] == seq_bytes[1] && p[10] == seq_bytes[2] && p[11] == seq_bytes[3]);
    assert(p[12] == sid_bytes[0] && p[13] == sid_bytes[1] && p[14] == sid_bytes[2] && p[15] == sid_bytes[3]);
    assert(p[16] == sid_bytes[4] && p[17] == sid_bytes[5] && p[18] == sid_bytes[6] && p[19] == sid_bytes[7]);
    assert(p[24] == ch_bytes[0] && p[25] == ch_bytes[1]);
    assert(p[26] == fmt_bytes[0] && p[27] == fmt_bytes[1]);
    assert(p.subrange(PROTOCOL_HEADER_LEN as int, p.len() as int) =~= payload);
}

/// The sample values written as PCM16 bytes read back unchanged.
proof fn lemma_pcm_round_trip(pcm: Seq<int>)
    requires
        forall|i: int| 0 <= i < pcm.len() ==> -32768 <= #[trigger] pcm[i] <= 32767,
    ensures
        pcm_values(pcm_bytes(pcm)) == pcm,
{
    let audio = pcm_bytes(pcm);
    assert forall|k: int| 0 <= k < pcm.len() implies #[trigger] pcm_values(audio)[k] == pcm[k] by {
        assert((2 * k) / 2 == k && (2 * k + 1) / 2 == k);
        assert((2 * k) % 2 == 0 && (2 * k + 1) % 2 == 1);
        let code = pcm_code(pcm[k]);
        assert(audio[2 * k] == code % 256);
        assert(audio[2 * k + 1] == code / 256);
    }
    assert(pcm_values(audio) =~= pcm);
}

/// A receiver reads back from an unencrypted datagram the sequence number,
/// session id and channel count written into it, and the written samples
/// (folded to mono when there are several channels); in secure mode it refuses
/// the datagram.
pub proof fn lemma_plain_datagram_round_trip(
    sequence: u32,
    session_id: u64,
    sample_rate: u32,
    channels: u16,
    pcm: Seq<int>,
    secure_mode: bool,
    key: Option<Seq<u8>>,
)
    requires
        forall|i: int| 0 <= i < pcm.len() ==> -32768 <= #[trigger] pcm[i] <= 32767,
        2 * pcm.len() <= 65535,
    ensures
        packet_outcome(plain_datagram(sequence, session_id, sample_rate, channels, pcm), secure_mode, key)
            == if secure_mode {
                Err::<PacketView, PacketError>(PacketError::Parse(ParseFault::PlaintextRejected))
            } else {
                Ok(PacketView { sequence, session_id, channels, samples: mono_samples(pcm, channels) })
            },
{
    lemma_datagram_header(0, sequence, session_id, sample_rate, channels, pcm_bytes(pcm));
    lemma_pcm_round_trip(pcm);
    assert(0u8 & 1u8 == 0u8) by (bit_vector);
}

/// An encrypted datagram whose sealed payload opens, under the receiver's key,
/// the datagram's nonce and its header, to the PCM16 bytes of `pcm` reads back
/// as the written fields and samples, in secure mode or not; without a key it
/// is refused as undecryptable.
pub proof fn lemma_sealed_datagram_round_trip(
    sequence: u32,
    session_id: u64,
    sample_rate: u32,
    channels: u16,
    sealed: Seq<u8>,
    pcm: Seq<int>,
    secure_mode: bool,
    key: Seq<u8>,
)
    requires
        forall|i: int| 0 <= i < pcm.len() ==> -32768 <= #[trigger] pcm[i] <= 32767,
        sealed.len() <= 65535,
        chacha20poly1305_open(
            key,
            nonce_bytes(session_id, sequence),
            datagram(PROTOCOL_FLAG_ENCRYPTED, sequence, session_id, sample_rate, channels, sealed).subrange(0, 28),
            sealed,
        ) == Some(pcm_bytes(pcm)),
    ensures
        packet_outcome(
            datagram(PROTOCOL_FLAG_ENCRYPTED, sequence, session_id, sample_rate, channels, sealed),
            secure_mode,
            Some(key),
        ) == Ok::<PacketView, PacketError>(PacketView { sequence, session_id, channels, samples: mono_samples(pcm, channels) }),
        packet_outcome(
            datagram(PROTOCOL_FLAG_ENCRYPTED, sequence, session_id, sample_rate, channels, sealed),
            secure_mode,
            None,
        ) == Err::<PacketView, PacketError>(PacketError::Decrypt(DecryptFault::MissingKey)),
{
    lemma_datagram_header(PROTOCOL_FLAG_ENCRYPTED, sequence, session_id, sample_rate, channels, sealed);
    lemma_pcm_round_trip(pcm);
    assert(1u8 & 1u8 == 1u8) by (bit_vector);
}

/// The unencrypted twin of an encrypted datagram whose payload opens to
/// `plain`: the same header with the encryption flag cleared and the payload
/// length of `plain`, followed by `plain`.
pub open spec fn plain_twin(p: Seq<u8>, plain: Seq<u8>) -> Seq<u8> {
    p.subrange(0, 5) + seq![p[5] & 0xfeu8] + le_bytes(plain.len(), 2) + p.subrange(8, PROTOCOL_HEADER_LEN as int) + plain
}

/// An encrypted datagram with a well-formed header whose payload opens, under
/// the receiver's key, the datagram's nonce and its header, to `plain` (16 bytes
/// shorter than the payload, as ChaCha20-Poly1305 gives it) reads exactly as
/// its unencrypted twin read by a receiver without a key outside secure mode:
/// the same fields and samples, or the same refusal of an odd-length plaintext.
pub proof fn lemma_sealed_reads_as_plain_twin(p: Seq<u8>, secure_mode: bool, key: Seq<u8>, plain: Seq<u8>)
    requires
        p.len() >= PROTOCOL_HEADER_LEN,
        p.subrange(0, 4) == protocol_magic(),
        p[4] == PROTOCOL_VERSION,
        p.len() == PROTOCOL_HEADER_LEN + le_u16(p, 6),
        le_u16(p, 26) == PROTOCOL_PAYLOAD_PCM16,
        is_encrypted(p[5]),
        chacha20poly1305_open(
            key,
            nonce_bytes(le_u64(p, 12) as u64, le_u32(p, 8) as u32),
            p.subrange(0, PROTOCOL_HEADER_LEN as int),
            p.subrange(PROTOCOL_HEADER_LEN as int, p.len() as int),
        ) == Some(plain),
        plain.len() + 16 == p.len() - PROTOCOL_HEADER_LEN,
    ensures
        packet_outcome(p, secure_mode, Some(key)) == packet_outcome(plain_twin(p, plain), false, None),
{
    reveal_with_fuel(le_bytes, 3);
    let q = plain_twin(p, plain);
    let f = p[5];
    assert(!is_encrypted(f & 0xfeu8)) by (bit_vector);
    assert(q.len() == PROTOCOL_HEADER_LEN + plain.len());
    assert(q.subrange(0, 4) =~= p.subrange(0, 4));
    assert(q[4] == p[4]);
    assert(q[5] == f & 0xfeu8);
    assert(q[6] == (plain.len() % 256) as u8);
    assert(q[7] == ((plain.len() / 256) % 256) as u8);
    assert(le_u16(q, 6) == plain.len());
    assert forall|i: int| 8 <= i < PROTOCOL_HEADER_LEN implies q[i] == p[i] by {}
    assert(le_u32(q, 8) == le_u32(p, 8));
    assert(le_u64(q, 12) == le_u64(p, 12));
    assert(le_u16(q, 24) == le_u16(p, 24));
    assert(le_u16(q, 26) == le_u16(p, 26));
    assert(q.subrange(PROTOCOL_HEADER_LEN as int, q.len() as int) =~= plain);
}

} // verus!
