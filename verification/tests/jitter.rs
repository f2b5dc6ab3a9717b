use micowireless::jitter::{JitterBuffer, DEFAULT_PACKET_SAMPLES};
use micowireless::metrics::RuntimeMetrics;
use std::collections::VecDeque;

#[test]
fn jitter_buffer_drops_missing_packets() {
    let mut metrics = RuntimeMetrics::new();
    let mut jitter = JitterBuffer::new(1, 2);
    let mut output = VecDeque::<f32>::new();

    jitter.push_packet(0, vec![0.1, 0.2], 0.0, &mut output, &mut metrics);
    jitter.push_packet(2, vec![0.3, 0.4], 0.0, &mut output, &mut metrics);
    jitter.push_packet(3, vec![0.5, 0.6], 0.0, &mut output, &mut metrics);
    jitter.push_packet(4, vec![0.7, 0.8], 0.0, &mut output, &mut metrics);

    assert!(
        metrics.packets_dropped >= 1,
        "Expected at least one dropped packet from missing sequence"
    );
    assert!(
        output.iter().any(|sample| *sample == 0.0),
        "Expected silence insertion for dropped packet"
    );
}

#[test]
fn lost_frame_is_replaced_by_one_block_of_silence() {
    let mut metrics = RuntimeMetrics::new();
    let mut jitter = JitterBuffer::new(1, 2);
    let mut output = VecDeque::<i32>::new();
    jitter.push_packet(0, vec![1, 2], 0, &mut output, &mut metrics);
    jitter.push_packet(2, vec![3, 4], 0, &mut output, &mut metrics);
    jitter.push_packet(3, vec![5, 6], 0, &mut output, &mut metrics);
    assert_eq!(output, VecDeque::from(vec![1, 2]));
    jitter.push_packet(4, vec![7, 8], 0, &mut output, &mut metrics);
    let mut expected = vec![1, 2];
    expected.extend(std::iter::repeat(0).take(DEFAULT_PACKET_SAMPLES));
    expected.extend([3, 4, 5, 6, 7, 8]);
    assert_eq!(output, VecDeque::from(expected));
    assert_eq!(metrics.packets_dropped, 1);
}

#[test]
fn playback_waits_for_startup_frames_and_orders_them() {
    let mut metrics = RuntimeMetrics::new();
    let mut jitter = JitterBuffer::new(3, 32);
    let mut output = VecDeque::<i32>::new();
    jitter.push_packet(12, vec![12], 0, &mut output, &mut metrics);
    jitter.push_packet(10, vec![10], 0, &mut output, &mut metrics);
    assert!(output.is_empty());
    jitter.push_packet(11, vec![11], 0, &mut output, &mut metrics);
    assert_eq!(output, VecDeque::from(vec![10, 11, 12]));
    jitter.push_packet(13, vec![13, 13], 0, &mut output, &mut metrics);
    assert_eq!(output, VecDeque::from(vec![10, 11, 12, 13, 13]));
    assert_eq!(metrics.packets_dropped, 0);
}

#[test]
fn duplicate_frame_is_ignored() {
    let mut metrics = RuntimeMetrics::new();
    let mut jitter = JitterBuffer::new(2, 32);
    let mut output = VecDeque::<i32>::new();
    jitter.push_packet(5, vec![5], 0, &mut output, &mut metrics);
    jitter.push_packet(5, vec![99], 0, &mut output, &mut metrics);
    assert!(output.is_empty());
    jitter.push_packet(6, vec![6], 0, &mut output, &mut metrics);
    assert_eq!(output, VecDeque::from(vec![5, 6]));
}

#[test]
fn sequence_numbers_wrap_around() {
    let mut metrics = RuntimeMetrics::new();
    let mut jitter = JitterBuffer::new(1, 32);
    let mut output = VecDeque::<i32>::new();
    jitter.push_packet(u32::MAX, vec![1], 0, &mut output, &mut metrics);
    jitter.push_packet(0, vec![2], 0, &mut output, &mut metrics);
    assert_eq!(output, VecDeque::from(vec![1, 2]));
}

#[test]
fn old_frames_are_discarded_beyond_three_times_the_limit() {
    let mut metrics = RuntimeMetrics::new();
    let mut jitter = JitterBuffer::new(10, 1);
    let mut output = VecDeque::<i32>::new();
    for seq in 0..4 {
        jitter.push_packet(seq, vec![seq as i32], 0, &mut output, &mut metrics);
    }
    assert!(output.is_empty());
    assert_eq!(metrics.packets_dropped, 3);
}

#[test]
fn reset_forgets_buffered_frames() {
    let mut metrics = RuntimeMetrics::new();
    let mut jitter = JitterBuffer::new(2, 32);
    let mut output = VecDeque::<i32>::new();
    jitter.push_packet(1, vec![1], 0, &mut output, &mut metrics);
    jitter.reset();
    jitter.push_packet(7, vec![7], 0, &mut output, &mut metrics);
    assert!(output.is_empty());
    jitter.push_packet(8, vec![8], 0, &mut output, &mut metrics);
    assert_eq!(output, VecDeque::from(vec![7, 8]));
}

#[test]
fn two_lost_frames_across_the_wrap_give_two_blocks_of_silence() {
    let mut metrics = RuntimeMetrics::new();
    let mut jitter = JitterBuffer::new(1, 1);
    let mut output = VecDeque::<i32>::new();
    jitter.push_packet(u32::MAX - 1, vec![1], 0, &mut output, &mut metrics);
    jitter.push_packet(1, vec![2], 0, &mut output, &mut metrics);
    assert_eq!(output, VecDeque::from(vec![1]));
    jitter.push_packet(2, vec![3], 0, &mut output, &mut metrics);
    let mut expected = vec![1];
    expected.extend(std::iter::repeat(0).take(2 * DEFAULT_PACKET_SAMPLES));
    expected.extend([2, 3]);
    assert_eq!(output, VecDeque::from(expected));
    assert_eq!(metrics.packets_dropped, 2);
}
