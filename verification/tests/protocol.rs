use chacha20poly1305::aead::{Aead, KeyInit, Payload};
use chacha20poly1305::{ChaCha20Poly1305, Nonce};
use micowireless::crypto::derive_pairing_key;
use micowireless::wire::{
    build_nonce, decrypt_audio_payload, parse_stream_packet, DecryptFault, PacketError, ParseFault,
    PROTOCOL_FLAG_ENCRYPTED, PROTOCOL_HEADER_LEN, PROTOCOL_MAGIC, PROTOCOL_PAYLOAD_PCM16,
    PROTOCOL_VERSION,
};

fn packet_from_i16(
    sequence: u32,
    session_id: u64,
    channels: u16,
    samples: &[i16],
    secure_key: Option<&[u8; 32]>,
) -> Vec<u8> {
    let mut payload = Vec::with_capacity(samples.len() * 2);
    for sample in samples {
        payload.extend_from_slice(&sample.to_le_bytes());
    }

    let flags = if secure_key.is_some() {
        PROTOCOL_FLAG_ENCRYPTED
    } else {
        0
    };
    let payload_bytes = if let Some(key) = secure_key {
        let payload_len = payload.len() + 16;
        let mut header = [0_u8; PROTOCOL_HEADER_LEN];
        header[0..4].copy_from_slice(&PROTOCOL_MAGIC);
        header[4] = PROTOCOL_VERSION;
        header[5] = flags;
        header[6..8].copy_from_slice(&(payload_len as u16).to_le_bytes());
        header[8..12].copy_from_slice(&sequence.to_le_bytes());
        header[12..20].copy_from_slice(&session_id.to_le_bytes());
        header[20..24].copy_from_slice(&48_000_u32.to_le_bytes());
        header[24..26].copy_from_slice(&channels.to_le_bytes());
        header[26..28].copy_from_slice(&PROTOCOL_PAYLOAD_PCM16.to_le_bytes());

        let cipher = ChaCha20Poly1305::new_from_slice(key).expect("cipher");
        let nonce = build_nonce(session_id, sequence);
        cipher
            .encrypt(
                Nonce::from_slice(&nonce),
                Payload {
                    msg: &payload,
                    aad: &header,
                },
            )
            .expect("encrypt")
    } else {
        payload
    };

    let mut packet = Vec::with_capacity(PROTOCOL_HEADER_LEN + payload_bytes.len());
    packet.extend_from_slice(&PROTOCOL_MAGIC);
    packet.push(PROTOCOL_VERSION);
    packet.push(flags);
    packet.extend_from_slice(&(payload_bytes.len() as u16).to_le_bytes());
    packet.extend_from_slice(&sequence.to_le_bytes());
    packet.extend_from_slice(&session_id.to_le_bytes());
    packet.extend_from_slice(&48_000_u32.to_le_bytes());
    packet.extend_from_slice(&channels.to_le_bytes());
    packet.extend_from_slice(&PROTOCOL_PAYLOAD_PCM16.to_le_bytes());
    packet.extend_from_slice(&payload_bytes);
    packet
}

fn parse_error(packet: &[u8], secure_mode: bool, key: Option<&[u8; 32]>) -> PacketError {
    match parse_stream_packet(packet, secure_mode, key) {
        Ok(_) => panic!("packet unexpectedly accepted"),
        Err(error) => error,
    }
}

#[test]
fn parse_plain_packet() {
    let packet = packet_from_i16(7, 42, 1, &[1000, -1000, 500], None);
    let parsed = parse_stream_packet(&packet, false, None).expect("parse plain");
    assert_eq!(parsed.sequence, 7);
    assert_eq!(parsed.session_id, 42);
    assert_eq!(parsed.channels, 1);
    assert_eq!(parsed.samples.len(), 3);
}

#[test]
fn parse_encrypted_packet() {
    let key = derive_pairing_key("ABCDEF12");
    let packet = packet_from_i16(9, 500, 1, &[1234, -800], Some(&key));
    let parsed = parse_stream_packet(&packet, true, Some(&key)).expect("parse encrypted");
    assert_eq!(parsed.sequence, 9);
    assert_eq!(parsed.session_id, 500);
    assert_eq!(parsed.samples.len(), 2);
}

#[test]
fn plain_packet_samples_are_pcm_values() {
    let packet = packet_from_i16(1, 2, 1, &[1000, -1000, 500, i16::MIN, i16::MAX], None);
    let parsed = parse_stream_packet(&packet, false, None).expect("parse plain");
    assert_eq!(parsed.samples, vec![1000, -1000, 500, -32768, 32767]);
}

#[test]
fn encrypted_packet_samples_are_decrypted_values() {
    let key = derive_pairing_key("ABCDEF12");
    let packet = packet_from_i16(9, 500, 1, &[1234, -800], Some(&key));
    let parsed = parse_stream_packet(&packet, false, Some(&key)).expect("parse encrypted");
    assert_eq!(parsed.samples, vec![1234, -800]);
}

#[test]
fn stereo_packet_is_folded_to_frame_sums() {
    let packet = packet_from_i16(3, 4, 2, &[1000, -1000, 500, 300, 7], None);
    let parsed = parse_stream_packet(&packet, false, None).expect("parse stereo");
    assert_eq!(parsed.channels, 2);
    assert_eq!(parsed.samples, vec![0, 800, 7]);
}

#[test]
fn header_too_short_is_refused() {
    let packet = packet_from_i16(1, 1, 1, &[], None);
    let error = parse_error(&packet[..27], false, None);
    assert_eq!(error, PacketError::Parse(ParseFault::HeaderTooShort));
    assert_eq!(error.message(), "Packet is smaller than protocol header.");
}

#[test]
fn magic_mismatch_is_refused() {
    let mut packet = packet_from_i16(1, 1, 1, &[5], None);
    packet[3] = b'3';
    let error = parse_error(&packet, false, None);
    assert_eq!(error, PacketError::Parse(ParseFault::MagicMismatch));
    assert_eq!(error.message(), "Protocol magic mismatch.");
}

#[test]
fn unsupported_version_is_refused() {
    let mut packet = packet_from_i16(1, 1, 1, &[5], None);
    packet[4] = 3;
    let error = parse_error(&packet, false, None);
    assert_eq!(error, PacketError::Parse(ParseFault::UnsupportedVersion(3)));
    assert_eq!(error.message(), "Unsupported protocol version: 3");
}

#[test]
fn length_mismatch_is_refused() {
    let mut packet = packet_from_i16(1, 1, 1, &[5, 6], None);
    packet.push(0);
    let error = parse_error(&packet, false, None);
    assert_eq!(error, PacketError::Parse(ParseFault::LengthMismatch));
    assert_eq!(error.message(), "Payload length does not match packet size.");
}

#[test]
fn unsupported_format_is_refused() {
    let mut packet = packet_from_i16(1, 1, 1, &[5], None);
    packet[26] = 0x34;
    packet[27] = 0x12;
    let error = parse_error(&packet, false, None);
    assert_eq!(error, PacketError::Parse(ParseFault::UnsupportedFormat(0x1234)));
    assert_eq!(error.message(), "Unsupported payload format 4660.");
}

#[test]
fn secure_receiver_refuses_plaintext() {
    let key = derive_pairing_key("ABCDEF12");
    let packet = packet_from_i16(1, 1, 1, &[5], None);
    let error = parse_error(&packet, true, Some(&key));
    assert_eq!(error, PacketError::Parse(ParseFault::PlaintextRejected));
    assert_eq!(error.message(), "Secure receiver requires encrypted packets.");
}

#[test]
fn misaligned_payload_is_refused() {
    let mut packet = packet_from_i16(1, 1, 1, &[], None);
    packet.push(9);
    packet[6] = 1;
    let error = parse_error(&packet, false, None);
    assert_eq!(error, PacketError::Parse(ParseFault::MisalignedPayload));
    assert_eq!(error.message(), "PCM payload is not aligned to 16-bit samples.");
}

#[test]
fn encrypted_packet_without_key_is_refused() {
    let key = derive_pairing_key("ABCDEF12");
    let packet = packet_from_i16(1, 1, 1, &[5], Some(&key));
    let error = parse_error(&packet, false, None);
    assert_eq!(error, PacketError::Decrypt(DecryptFault::MissingKey));
    assert_eq!(error.message(), "Encrypted packet arrived without pairing key.");
}

#[test]
fn encrypted_packet_with_wrong_key_is_refused() {
    let key = derive_pairing_key("ABCDEF12");
    let other = derive_pairing_key("ABCDEF13");
    let packet = packet_from_i16(1, 1, 1, &[5], Some(&key));
    let error = parse_error(&packet, true, Some(&other));
    assert_eq!(error, PacketError::Decrypt(DecryptFault::Rejected));
    assert_eq!(error.message(), "Pair code mismatch or tampered packet.");
}

#[test]
fn tampered_encrypted_packet_is_refused() {
    let key = derive_pairing_key("ABCDEF12");
    let mut packet = packet_from_i16(1, 1, 1, &[5, 6], Some(&key));
    packet[PROTOCOL_HEADER_LEN] ^= 1;
    let error = parse_error(&packet, true, Some(&key));
    assert_eq!(error, PacketError::Decrypt(DecryptFault::Rejected));
}

#[test]
fn nonce_is_session_then_sequence_little_endian() {
    let nonce = build_nonce(0x0102030405060708, 0x0a0b0c0d);
    assert_eq!(nonce, [8, 7, 6, 5, 4, 3, 2, 1, 0x0d, 0x0c, 0x0b, 0x0a]);
}

#[test]
fn distinct_sessions_give_distinct_nonces() {
    assert_ne!(build_nonce(1, 0), build_nonce(0, 1));
    assert_ne!(build_nonce(256, 0), build_nonce(1, 0));
}

#[test]
fn pairing_key_is_sha256_of_pair_code() {
    let key = derive_pairing_key("ABCDEF12");
    assert_eq!(
        key,
        [
            65, 152, 108, 176, 250, 217, 59, 247, 147, 142, 98, 204, 132, 138, 168, 96, 226, 45,
            212, 235, 111, 87, 239, 218, 69, 188, 100, 123, 31, 45, 104, 192
        ]
    );
}

#[test]
fn decrypt_audio_payload_opens_sealed_payload() {
    let key = derive_pairing_key("ABCDEF12");
    let packet = packet_from_i16(11, 12, 1, &[1, 2, 3], Some(&key));
    let (header, payload) = packet.split_at(PROTOCOL_HEADER_LEN);
    let plain = decrypt_audio_payload(payload, header, 12, 11, &key).expect("open");
    assert_eq!(plain, vec![1, 0, 2, 0, 3, 0]);
    let wrong = decrypt_audio_payload(payload, header, 12, 10, &key);
    assert_eq!(wrong, Err(PacketError::Decrypt(DecryptFault::Rejected)));
}

fn sealed_packet(sequence: u32, session_id: u64, plain: &[u8], key: &[u8; 32]) -> Vec<u8> {
    let mut header = [0_u8; PROTOCOL_HEADER_LEN];
    header[0..4].copy_from_slice(&PROTOCOL_MAGIC);
    header[4] = PROTOCOL_VERSION;
    header[5] = PROTOCOL_FLAG_ENCRYPTED;
    header[6..8].copy_from_slice(&((plain.len() + 16) as u16).to_le_bytes());
    header[8..12].copy_from_slice(&sequence.to_le_bytes());
    header[12..20].copy_from_slice(&session_id.to_le_bytes());
    header[20..24].copy_from_slice(&48_000_u32.to_le_bytes());
    header[24..26].copy_from_slice(&2_u16.to_le_bytes());
    header[26..28].copy_from_slice(&PROTOCOL_PAYLOAD_PCM16.to_le_bytes());
    let cipher = ChaCha20Poly1305::new_from_slice(key).expect("cipher");
    let nonce = build_nonce(session_id, sequence);
    let sealed = cipher
        .encrypt(Nonce::from_slice(&nonce), Payload { msg: plain, aad: &header })
        .expect("encrypt");
    let mut packet = header.to_vec();
    packet.extend_from_slice(&sealed);
    packet
}

fn plain_twin(sealed: &[u8], plain: &[u8]) -> Vec<u8> {
    let mut packet = sealed[..PROTOCOL_HEADER_LEN].to_vec();
    packet[5] &= 0xfe;
    packet[6..8].copy_from_slice(&(plain.len() as u16).to_le_bytes());
    packet.extend_from_slice(plain);
    packet
}

#[test]
fn sealed_datagram_reads_as_its_plain_twin() {
    let key = derive_pairing_key("ABCDEF12");
    let plain = [0xe8, 0x03, 0x18, 0xfc, 0x05, 0x00, 0x07, 0x00];
    let sealed = sealed_packet(21, 22, &plain, &key);
    let secured = parse_stream_packet(&sealed, true, Some(&key)).expect("sealed");
    let twin = parse_stream_packet(&plain_twin(&sealed, &plain), false, None).expect("twin");
    assert_eq!(secured.sequence, twin.sequence);
    assert_eq!(secured.session_id, twin.session_id);
    assert_eq!(secured.channels, twin.channels);
    assert_eq!(secured.samples, twin.samples);
    assert_eq!(secured.samples, vec![0, 12]);
}

#[test]
fn sealed_odd_plaintext_is_refused_like_its_plain_twin() {
    let key = derive_pairing_key("ABCDEF12");
    let plain = [1, 2, 3];
    let sealed = sealed_packet(1, 2, &plain, &key);
    let secured = parse_error(&sealed, true, Some(&key));
    let twin = parse_error(&plain_twin(&sealed, &plain), false, None);
    assert_eq!(secured, PacketError::Parse(ParseFault::MisalignedPayload));
    assert_eq!(secured, twin);
}
