use micowireless::discovery::{discovery_reply, DiscoveryRequest};
use micowireless::listing::{ipv4_text_of, local_ipv4_list, sorted_unique};
use micowireless::metrics::{set_last_error, RuntimeMetrics};
use micowireless::playback::{fill_frames, frame_count, next_frame_samples, select_device_index};
use micowireless::receiver::{
    check_start_request, discovery_port, receiver_pairing_key, record_packet_error, ReceiverSession,
    ReceiverStatus, MAX_BUFFER_SAMPLES,
};
use micowireless::wire::{DecryptFault, PacketError, ParseFault};
use std::collections::VecDeque;

#[test]
fn set_last_error_records_message() {
    let mut metrics = RuntimeMetrics::new();
    set_last_error(&mut metrics, String::from("first"));
    set_last_error(&mut metrics, String::from("second"));
    assert_eq!(metrics.last_error.as_deref(), Some("second"));
    assert_eq!(metrics.parse_errors, 0);
}

#[test]
fn refused_datagrams_are_counted_by_kind() {
    let mut metrics = RuntimeMetrics::new();
    record_packet_error(&mut metrics, &PacketError::Decrypt(DecryptFault::Rejected));
    record_packet_error(&mut metrics, &PacketError::Parse(ParseFault::UnsupportedVersion(7)));
    assert_eq!(metrics.decrypt_failures, 1);
    assert_eq!(metrics.parse_errors, 1);
    assert_eq!(metrics.last_error.as_deref(), Some("Unsupported protocol version: 7"));
}

#[test]
fn new_session_restarts_playback_and_clears_queue() {
    let mut metrics = RuntimeMetrics::new();
    let mut session = ReceiverSession::<i32>::new();
    let mut output = VecDeque::<i32>::new();
    for seq in 0..4u32 {
        session.accept_packet(seq, 1, 1, vec![seq as i32], 0, &mut output, &mut metrics);
    }
    assert_eq!(output, VecDeque::from(vec![0, 1, 2, 3]));
    session.accept_packet(0, 2, 1, vec![9], 0, &mut output, &mut metrics);
    assert!(output.is_empty());
    assert_eq!(metrics.packets_received, 5);
}

#[test]
fn packet_without_channels_is_a_parse_error() {
    let mut metrics = RuntimeMetrics::new();
    let mut session = ReceiverSession::<i32>::new();
    let mut output = VecDeque::<i32>::new();
    session.accept_packet(0, 1, 0, vec![1], 0, &mut output, &mut metrics);
    assert_eq!(metrics.packets_received, 1);
    assert_eq!(metrics.parse_errors, 1);
    assert_eq!(metrics.last_error.as_deref(), Some("Invalid stream packet channels."));
}

#[test]
fn queue_is_bounded_and_overflow_counted() {
    let mut metrics = RuntimeMetrics::new();
    let mut session = ReceiverSession::<i32>::new();
    let mut output = VecDeque::<i32>::new();
    let frame: Vec<i32> = (0..100_000).collect();
    for seq in 0..4u32 {
        session.accept_packet(seq, 1, 1, frame.clone(), 0, &mut output, &mut metrics);
    }
    assert_eq!(output.len(), MAX_BUFFER_SAMPLES);
    assert_eq!(metrics.dropped_samples, 160_000);
    assert_eq!(output.back(), Some(&99_999));
}

#[test]
fn status_reports_metrics() {
    let mut metrics = RuntimeMetrics::new();
    set_last_error(&mut metrics, String::from("boom"));
    let status = ReceiverStatus::of_runtime(&metrics, false, false);
    assert!(status.running);
    assert_eq!(status.last_error.as_deref(), Some("boom"));
    let finished = ReceiverStatus::of_runtime(&metrics, true, false);
    assert!(!finished.running);
    let stopped = ReceiverStatus::stopped();
    assert!(!stopped.running);
    assert_eq!(stopped.packets_received, 0);
    assert!(stopped.last_error.is_none());
}

#[test]
fn start_request_checks_port_and_pair_code() {
    assert_eq!(check_start_request(49000, false, None, false), Ok(49001));
    assert_eq!(
        check_start_request(0, false, None, false),
        Err(String::from("Port must be between 1 and 65534."))
    );
    assert_eq!(
        check_start_request(u16::MAX, false, None, false),
        Err(String::from("Port must be between 1 and 65534."))
    );
    assert_eq!(
        check_start_request(49000, true, None, false),
        Err(String::from("Secure mode requires pair code with at least 6 chars."))
    );
    assert_eq!(
        check_start_request(49000, true, Some("  abc  "), false),
        Err(String::from("Secure mode requires pair code with at least 6 chars."))
    );
    assert_eq!(check_start_request(49000, true, Some(" abcdef "), false), Ok(49001));
    assert_eq!(
        check_start_request(49000, false, None, true),
        Err(String::from("Receiver is already running."))
    );
}

#[test]
fn discovery_port_is_next_port() {
    assert_eq!(discovery_port(49000), Some(49001));
    assert_eq!(discovery_port(u16::MAX), None);
}

#[test]
fn pairing_key_uses_trimmed_code() {
    assert_eq!(receiver_pairing_key(false, Some("ABCDEF12")), Ok(None));
    assert_eq!(
        receiver_pairing_key(true, None),
        Err(String::from("Secure mode started without pair code."))
    );
    let padded = receiver_pairing_key(true, Some("  ABCDEF12\n")).expect("key");
    let plain = receiver_pairing_key(true, Some("ABCDEF12")).expect("key");
    assert_eq!(padded, plain);
    assert_eq!(plain, Some(micowireless::crypto::derive_pairing_key("ABCDEF12")));
}

#[test]
fn discovery_probe_is_answered() {
    let request = DiscoveryRequest {
        kind: String::from("discover"),
        protocol: String::from("mow2"),
    };
    let reply = discovery_reply(&request, 49000, true, vec![String::from("127.0.0.1")]).expect("reply");
    assert_eq!(reply.kind, "discover_response");
    assert_eq!(reply.protocol, "mow2");
    assert_eq!(reply.name, "micOwireless Desktop");
    assert_eq!(reply.port, 49000);
    assert!(reply.secure_required);
    assert_eq!(reply.ips, vec![String::from("127.0.0.1")]);
}

#[test]
fn other_requests_are_ignored() {
    let wrong_kind = DiscoveryRequest {
        kind: String::from("hello"),
        protocol: String::from("mow2"),
    };
    assert!(discovery_reply(&wrong_kind, 1, false, Vec::new()).is_none());
    let wrong_protocol = DiscoveryRequest {
        kind: String::from("discover"),
        protocol: String::from("mow1"),
    };
    assert!(discovery_reply(&wrong_protocol, 1, false, Vec::new()).is_none());
}

#[test]
fn ipv4_text_is_dotted_decimal() {
    assert_eq!(ipv4_text_of([192, 168, 0, 17]), "192.168.0.17");
    assert_eq!(ipv4_text_of([10, 0, 0, 5]), "10.0.0.5");
}

#[test]
fn local_addresses_are_sorted_unique_with_loopback() {
    let list = local_ipv4_list(&vec![[192, 168, 1, 20], [10, 0, 0, 5], [192, 168, 1, 20], [9, 1, 1, 1]]);
    assert_eq!(list, vec!["10.0.0.5", "127.0.0.1", "192.168.1.20", "9.1.1.1"]);
    let only_loopback = local_ipv4_list(&vec![[127, 0, 0, 1]]);
    assert_eq!(only_loopback, vec!["127.0.0.1"]);
}

#[test]
fn device_names_are_sorted_unique() {
    let names = vec![
        String::from("Speakers"),
        String::from("CABLE Input"),
        String::from("Speakers"),
        String::from("Headphones"),
    ];
    assert_eq!(sorted_unique(&names), vec!["CABLE Input", "Headphones", "Speakers"]);
}

#[test]
fn device_is_selected_regardless_of_case() {
    let names = vec![None, Some(String::from("Speakers")), Some(String::from("CABLE Input"))];
    assert_eq!(select_device_index(&names, "cable input"), Some(2));
    assert_eq!(select_device_index(&names, "SPEAKERS"), Some(1));
    assert_eq!(select_device_index(&names, "Headphones"), None);
}

#[test]
fn output_frames_take_queued_samples_then_silence() {
    assert_eq!(frame_count(8, 2), 4);
    assert_eq!(frame_count(7, 2), 4);
    let mut queue = VecDeque::from(vec![1, 2, 3]);
    let samples = next_frame_samples(&mut queue, 2, 0);
    assert_eq!(samples, vec![1, 2]);
    assert_eq!(queue, VecDeque::from(vec![3]));
    let rest = next_frame_samples(&mut queue, 3, 0);
    assert_eq!(rest, vec![3, 0, 0]);
    assert!(queue.is_empty());
}

#[test]
fn frame_values_fill_every_channel_slot() {
    let mut output = [0_i16; 5];
    fill_frames(&mut output, 2, &vec![1, 2, 3]);
    assert_eq!(output, [1, 1, 2, 2, 3]);
    let mut mono = [0_u16; 3];
    fill_frames(&mut mono, 1, &vec![4, 5, 6]);
    assert_eq!(mono, [4, 5, 6]);
}

#[test]
fn pair_code_trimming_uses_unicode_white_space() {
    assert_eq!(
        check_start_request(49000, true, Some("\u{3000}abc\u{85}\u{2028}"), false),
        Err(String::from("Secure mode requires pair code with at least 6 chars."))
    );
    assert_eq!(check_start_request(49000, true, Some("abc\u{200b}"), false), Ok(49001));
}
