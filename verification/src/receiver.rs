//! The receiver's decisions: what starting it requires, how each datagram
//! updates the playback queue and the counters, and what its status reports.
use std::collections::VecDeque;
use vstd::prelude::*;
use vstd::utf8::encode_utf8;
use crate::crypto::{derive_pairing_key, sha256};
use crate::jitter::{
    JitterBuffer, JitterView, push_outcome, DEFAULT_PACKET_SAMPLES, JITTER_MAX_PENDING,
    JITTER_STARTUP_PACKETS,
};
use crate::metrics::{RuntimeMetrics, count, counter_plus, set_last_error, lemma_counter_plus_zero};
use crate::wire::{PacketError, error_message};

verus! {

/// The playback queue holds at most this many samples; older ones are discarded.
pub const MAX_BUFFER_SAMPLES: usize = 240000;
/// Datagrams are read into a buffer of this size.
pub const UDP_PACKET_SIZE: usize = 8192;
/// Discovery listens on the audio port plus this offset.
pub const DISCOVERY_PORT_OFFSET: u16 = 1;

/// A character of the Unicode `White_Space` property.
pub open spec fn is_white_space(c: char) -> bool {
    let u = c as u32;
    ||| 0x9 <= u <= 0xd
    ||| u == 0x20
    ||| u == 0x85
    ||| u == 0xa0
    ||| u == 0x1680
    ||| 0x2000 <= u <= 0x200a
    ||| u == 0x2028
    ||| u == 0x2029
    ||| u == 0x202f
    ||| u == 0x205f
    ||| u == 0x3000
}

/// `s` without its leading whitespace.
pub open spec fn trim_leading(s: Seq<char>) -> Seq<char>
    decreases s.len(),
{
    if s.len() > 0 && is_white_space(s[0]) { trim_leading(s.drop_first()) } else { s }
}

/// `s` without its trailing whitespace.
pub open spec fn trim_trailing(s: Seq<char>) -> Seq<char>
    decreases s.len(),
{
    if s.len() > 0 && is_white_space(s.last()) { trim_trailing(s.drop_last()) } else { s }
}

/// The text left after removing leading and trailing whitespace.
pub open spec fn trimmed(s: Seq<char>) -> Seq<char> {
    trim_trailing(trim_leading(s))
}

/// Removes leading and trailing whitespace with `str::trim`.
/// Trusted: as its documentation says, the result is the argument without its
/// leading and trailing characters of the Unicode `White_Space` property.
#[verifier::external_body]
fn trim_whitespace(s: &str) -> (t: &str)
    ensures
        t@ == trimmed(s@),
{
    s.trim()
}

/// The discovery port of an audio port: the next port, when there is one.
pub fn discovery_port(port: u16) -> (r: Option<u16>)
    ensures
        r == if port < u16::MAX { Some((port + 1) as u16) } else { None::<u16> },
{
    port.checked_add(DISCOVERY_PORT_OFFSET)
}

/// A pair code is usable when, trimmed, it is at least 6 bytes long.
pub open spec fn pair_code_usable(pair_code: Option<&str>) -> bool {
    pair_code matches Some(c) && encode_utf8(trimmed(c@)).len() >= 6
}

/// Checks a request to start the receiver on `port`; gives the discovery port.
/// Refused, in this order: a port of 0 or 65535; secure mode without a usable
/// pair code; a receiver that is already running.
pub fn check_start_request(
    port: u16,
    secure_mode: bool,
    pair_code: Option<&str>,
    already_running: bool,
) -> (r: Result<u16, String>)
    ensures
        port == 0 || port == u16::MAX ==> (r matches Err(e) && e@ == "Port must be between 1 and 65534."@),
        !(port == 0 || port == u16::MAX) && secure_mode && !pair_code_usable(pair_code)
            ==> (r matches Err(e) && e@ == "Secure mode requires pair code with at least 6 chars."@),
        !(port == 0 || port == u16::MAX) && (!secure_mode || pair_code_usable(pair_code)) && already_running
            ==> (r matches Err(e) && e@ == "Receiver is already running."@),
        !(port == 0 || port == u16::MAX) && (!secure_mode || pair_code_usable(pair_code)) && !already_running
            ==> r == Ok::<u16, String>((port + 1) as u16),
{
    if port == 0 || port == u16::MAX {
        return Err(String::from_str("Port must be between 1 and 65534."));
    }
    if secure_mode {
        let usable = match pair_code {
            Some(code) => trim_whitespace(code).as_bytes().len() >= 6,
            None => false,
        };
        if !usable {
            return Err(String::from_str("Secure mode requires pair code with at least 6 chars."));
        }
    }
    if already_running {
        return Err(String::from_str("Receiver is already running."));
    }
    match discovery_port(port) {
        Some(p) => Ok(p),
        None => Err(String::from_str("Port cannot reserve discovery channel.")),
    }
}

/// The stream key of a receiver: none outside secure mode, else derived from
/// the trimmed pair code.
pub fn receiver_pairing_key(secure_mode: bool, pair_code: Option<&str>) -> (r: Result<Option<[u8; 32]>, String>)
    ensures
        !secure_mode ==> r matches Ok(None),
        secure_mode && pair_code is None ==> (r matches Err(e) && e@ == "Secure mode started without pair code."@),
        secure_mode && pair_code is Some ==> (r matches Ok(Some(k))
            && k@ == sha256(encode_utf8(trimmed(pair_code->0@)))),
{
    if !secure_mode {
        return Ok(None);
    }
    match pair_code {
        Some(code) => Ok(Some(derive_pairing_key(trim_whitespace(code)))),
        None => Err(String::from_str("Secure mode started without pair code.")),
    }
}

/// Counts a refused datagram (as a decryption failure or as a parse error) and
/// records its message as the last error.
pub fn record_packet_error(metrics: &mut RuntimeMetrics, error: &PacketError)
    ensures
        final(metrics).last_error matches Some(m) && m@ == error_message(*error),
        final(metrics).decrypt_failures == if error is Decrypt {
            counter_plus(old(metrics).decrypt_failures, 1)
        } else {
            old(metrics).decrypt_failures
        },
        final(metrics).parse_errors == if error is Parse {
            counter_plus(old(metrics).parse_errors, 1)
        } else {
            old(metrics).parse_errors
        },
        final(metrics).packets_received == old(metrics).packets_received,
        final(metrics).packets_dropped == old(metrics).packets_dropped,
        final(metrics).dropped_samples == old(metrics).dropped_samples,
{
    match error {
        PacketError::Decrypt(_) => {
            metrics.decrypt_failures = count(metrics.decrypt_failures, 1);
        },
        PacketError::Parse(_) => {
            metrics.parse_errors = count(metrics.parse_errors, 1);
        },
    }
    set_last_error(metrics, error.message());
}

/// A buffer after `reset`.
pub open spec fn reset_view<T>(v: JitterView<T>) -> JitterView<T> {
    JitterView {
        pending: Map::empty(),
        expected_sequence: None,
        last_packet_samples: DEFAULT_PACKET_SAMPLES as nat,
        ..v
    }
}

/// The buffer a datagram of session `session_id` is offered to: a fresh one
/// for a session other than the current one, else the session's own.
pub open spec fn entry_jitter<T>(s: SessionView<T>, session_id: u64) -> JitterView<T> {
    if s.current_session != Some(session_id) { reset_view(s.jitter) } else { s.jitter }
}

/// A datagram of a session other than the current one is offered to an empty
/// buffer that waits for its startup frames (no expected sequence number), with
/// the same startup count and limit; so what it does does not depend on the
/// previous session's frames or position. A datagram of the current session is
/// offered to the session's buffer as it stands.
pub proof fn lemma_new_session_restarts<T>(
    s1: SessionView<T>,
    s2: SessionView<T>,
    session_id: u64,
    sequence: u32,
    samples: Seq<T>,
    silence: T,
)
    ensures
        s1.current_session != Some(session_id) ==> {
            let j = entry_jitter(s1, session_id);
            &&& j.pending == Map::<u32, Seq<T>>::empty()
            &&& j.expected_sequence is None
            &&& j.startup_packets == s1.jitter.startup_packets
            &&& j.max_pending == s1.jitter.max_pending
        },
        s1.current_session != Some(session_id) && s2.current_session != Some(session_id)
            && s1.jitter.startup_packets == s2.jitter.startup_packets
            && s1.jitter.max_pending == s2.jitter.max_pending
            ==> push_outcome(entry_jitter(s1, session_id), sequence, samples, silence)
                == push_outcome(entry_jitter(s2, session_id), sequence, samples, silence),
        s1.current_session == Some(session_id) ==> entry_jitter(s1, session_id) == s1.jitter,
{
    if s1.current_session != Some(session_id) && s2.current_session != Some(session_id)
        && s1.jitter.startup_packets == s2.jitter.startup_packets
        && s1.jitter.max_pending == s2.jitter.max_pending {
        assert(entry_jitter(s1, session_id) == entry_jitter(s2, session_id));
    }
}

/// In secure mode a pair code is accepted exactly when, trimmed of surrounding
/// whitespace, its UTF-8 form has at least 6 bytes; a missing code is refused.
/// So a code of 1 to 5 bytes (after trimming) is refused however much
/// whitespace surrounds it.
pub proof fn lemma_pair_code_needs_six_bytes(code: &str)
    ensures
        pair_code_usable(Some(code)) <==> encode_utf8(trimmed(code@)).len() >= 6,
        encode_utf8(trimmed(code@)).len() < 6 ==> !pair_code_usable(Some(code)),
        !pair_code_usable(None),
{
}

/// The mathematical content of a `ReceiverSession`.
pub struct SessionView<T> {
    pub jitter: JitterView<T>,
    pub current_session: Option<u64>,
}

/// The playback state of a running receiver: its reordering buffer and the
/// stream session it is playing.
pub struct ReceiverSession<T> {
    jitter: JitterBuffer<T>,
    current_session: Option<u64>,
}

impl<T> View for ReceiverSession<T> {
    type V = SessionView<T>;

    closed spec fn view(&self) -> SessionView<T> {
        SessionView { jitter: self.jitter@, current_session: self.current_session }
    }
}

/// The queue after dropping its oldest samples down to `MAX_BUFFER_SAMPLES`.
pub open spec fn bounded_queue<T>(q: Seq<T>) -> Seq<T> {
    if q.len() > MAX_BUFFER_SAMPLES { q.skip(q.len() - MAX_BUFFER_SAMPLES) } else { q }
}

pub open spec fn overflow_len(n: nat) -> nat {
    if n > MAX_BUFFER_SAMPLES { (n - MAX_BUFFER_SAMPLES) as nat } else { 0 }
}

impl<T: Copy> ReceiverSession<T> {
    /// No session yet; the buffer starts playback after `JITTER_STARTUP_PACKETS`
    /// frames and gives a frame up behind `JITTER_MAX_PENDING` waiting ones.
    pub fn new() -> (s: Self)
        ensures
            s@.current_session is None,
            s@.jitter == (JitterView::<T> {
                pending: Map::empty(),
                expected_sequence: None,
                startup_packets: JITTER_STARTUP_PACKETS as nat,
                max_pending: JITTER_MAX_PENDING as nat,
                last_packet_samples: DEFAULT_PACKET_SAMPLES as nat,
            }),
    {
        ReceiverSession {
            jitter: JitterBuffer::new(JITTER_STARTUP_PACKETS, JITTER_MAX_PENDING),
            current_session: None,
        }
    }

    /// Drops the oldest samples of `output` beyond `MAX_BUFFER_SAMPLES`,
    /// counting them in `metrics.dropped_samples`.
    fn bound_queue(output: &mut VecDeque<T>, metrics: &mut RuntimeMetrics)
        ensures
            final(output)@ == bounded_queue(old(output)@),
            final(metrics).dropped_samples == counter_plus(old(metrics).dropped_samples, overflow_len(old(output)@.len())),
            final(metrics).packets_received == old(metrics).packets_received,
            final(metrics).packets_dropped == old(metrics).packets_dropped,
            final(metrics).decrypt_failures == old(metrics).decrypt_failures,
            final(metrics).parse_errors == old(metrics).parse_errors,
            final(metrics).last_error == old(metrics).last_error,
    {
        let ghost q0 = output@;
        if output.len() > MAX_BUFFER_SAMPLES {
            let overflow = output.len() - MAX_BUFFER_SAMPLES;
            let mut i: usize = 0;
            while i < overflow
                invariant
                    i <= overflow,
                    overflow == q0.len() - MAX_BUFFER_SAMPLES,
                    output@ == q0.skip(i as int),
                decreases overflow - i,
            {
                output.pop_front();
                assert(q0.skip(i + 1) =~= q0.skip(i as int).subrange(1, q0.skip(i as int).len() as int));
                i = i + 1;
            }
            metrics.dropped_samples = count(metrics.dropped_samples, overflow);
        } else {
            proof {
                lemma_counter_plus_zero(metrics.dropped_samples);
            }
        }
    }

    /// Takes an accepted datagram of session `session_id`, its samples already
    /// converted to the playback type. A new session restarts the buffer and
    /// clears the queue. A datagram without channels is counted as a parse
    /// error; otherwise its frame is offered to the buffer (`push_outcome`), what
    /// is released is queued and the queue is bounded (`bounded_queue`).
    pub fn accept_packet(
        &mut self,
        sequence: u32,
        session_id: u64,
        channels: u16,
        samples: Vec<T>,
        silence: T,
        output: &mut VecDeque<T>,
        metrics: &mut RuntimeMetrics,
    )
        ensures
            ({
                let new_session = old(self)@.current_session != Some(session_id);
                let j1 = entry_jitter(old(self)@, session_id);
                let q1 = if new_session { Seq::<T>::empty() } else { old(output)@ };
                let o = push_outcome(j1, sequence, samples@, silence);
                &&& final(self)@.current_session == Some(session_id)
                &&& final(metrics).packets_received == counter_plus(old(metrics).packets_received, 1)
                &&& final(metrics).decrypt_failures == old(metrics).decrypt_failures
                &&& if channels == 0 {
                    &&& final(self)@.jitter == j1
                    &&& final(output)@ == q1
                    &&& final(metrics).parse_errors == counter_plus(old(metrics).parse_errors, 1)
                    &&& final(metrics).last_error matches Some(m) && m@ == "Invalid stream packet channels."@
                    &&& final(metrics).packets_dropped == old(metrics).packets_dropped
                    &&& final(metrics).dropped_samples == old(metrics).dropped_samples
                } else {
                    &&& final(self)@.jitter == o.state
                    &&& final(output)@ == bounded_queue(q1 + o.emitted)
                    &&& final(metrics).packets_dropped == counter_plus(old(metrics).packets_dropped, o.dropped)
                    &&& final(metrics).dropped_samples
                        == counter_plus(old(metrics).dropped_samples, overflow_len((q1 + o.emitted).len()))
                    &&& final(metrics).parse_errors == old(metrics).parse_errors
                    &&& final(metrics).last_error == old(metrics).last_error
                }
            }),
            channels != 0 ==> final(output)@.len() <= MAX_BUFFER_SAMPLES,
            old(output)@.len() <= MAX_BUFFER_SAMPLES ==> final(output)@.len() <= MAX_BUFFER_SAMPLES,
    {
        metrics.packets_received = count(metrics.packets_received, 1);
        let new_session = match self.current_session {
            Some(current) => current != session_id,
            None => true,
        };
        if new_session {
            self.current_session = Some(session_id);
            self.jitter.reset();
            output.clear();
        }
        if channels == 0 {
            metrics.parse_errors = count(metrics.parse_errors, 1);
            set_last_error(metrics, String::from_str("Invalid stream packet channels."));
            return;
        }
        self.jitter.push_packet(sequence, samples, silence, output, metrics);
        Self::bound_queue(output, metrics);
    }
}

/// What the receiver reports to the user interface.
pub struct ReceiverStatus {
    pub running: bool,
    pub packets_received: usize,
    pub packets_dropped: usize,
    pub dropped_samples: usize,
    pub decrypt_failures: usize,
    pub parse_errors: usize,
    pub last_error: Option<String>,
}

impl ReceiverStatus {
    /// The status when no receiver runs: not running, all counters at zero.
    pub fn stopped() -> (s: ReceiverStatus)
        ensures
            !s.running,
            s.packets_received == 0 && s.packets_dropped == 0 && s.dropped_samples == 0,
            s.decrypt_failures == 0 && s.parse_errors == 0,
            s.last_error is None,
    {
        ReceiverStatus {
            running: false,
            packets_received: 0,
            packets_dropped: 0,
            dropped_samples: 0,
            decrypt_failures: 0,
            parse_errors: 0,
            last_error: None,
        }
    }

    /// The status of a started receiver: running while neither its audio worker
    /// nor its discovery worker has finished; the counters and last error as
    /// recorded in `metrics`.
    pub fn of_runtime(metrics: &RuntimeMetrics, worker_finished: bool, discovery_finished: bool) -> (s: ReceiverStatus)
        ensures
            s.running == (!worker_finished && !discovery_finished),
            s.packets_received == metrics.packets_received,
            s.packets_dropped == metrics.packets_dropped,
            s.dropped_samples == metrics.dropped_samples,
            s.decrypt_failures == metrics.decrypt_failures,
            s.parse_errors == metrics.parse_errors,
            s.last_error == metrics.last_error,
    {
        ReceiverStatus {
            running: !worker_finished && !discovery_finished,
            packets_received: metrics.packets_received,
            packets_dropped: metrics.packets_dropped,
            dropped_samples: metrics.dropped_samples,
            decrypt_failures: metrics.decrypt_failures,
            parse_errors: metrics.parse_errors,
            last_error: match &metrics.last_error {
                Some(e) => Some(e.clone()),
                None => None,
            },
        }
    }
}

} // verus!
