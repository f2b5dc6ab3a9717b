//! A reordering buffer between the network and playback: frames are held by
//! sequence number and released in sequence order; a missing frame is given up
//! (and replaced by silence) once too many later frames wait behind it.
use std::collections::{BTreeMap, VecDeque};
use vstd::prelude::*;
use crate::metrics::{RuntimeMetrics, count, counter_plus, lemma_counter_plus_plus, lemma_counter_plus_zero};

verus! {

/// Silence written for a lost frame is at least this many samples long.
pub const DEFAULT_PACKET_SAMPLES: usize = 480;
/// Frames buffered before playback starts.
pub const JITTER_STARTUP_PACKETS: usize = 4;
/// Frames that may wait behind a missing one before it is given up.
pub const JITTER_MAX_PENDING: usize = 32;

/// The sequence number after `e`, wrapping around past `u32::MAX`.
pub open spec fn seq_after(e: u32) -> u32 {
    if e == u32::MAX { 0 } else { (e + 1) as u32 }
}

/// How far `to` lies ahead of `from` when sequence numbers wrap around.
pub open spec fn wrap_dist(from: u32, to: u32) -> nat {
    if to >= from { (to - from) as nat } else { (to + 4294967296 - from) as nat }
}

/// `k` is the first key of `dom` at or after `e`, counting on from `e` with wrap-around.
pub open spec fn is_next_key(dom: Set<u32>, e: u32, k: u32) -> bool {
    &&& dom.contains(k)
    &&& forall|j: u32| dom.contains(j) ==> wrap_dist(e, k) <= wrap_dist(e, j)
}

/// The first key of `dom` at or after `e`, counting on from `e` with wrap-around.
pub open spec fn next_key(dom: Set<u32>, e: u32) -> u32 {
    choose|k: u32| is_next_key(dom, e, k)
}

/// The smallest key of `dom`.
pub open spec fn first_key(dom: Set<u32>) -> u32 {
    next_key(dom, 0)
}

/// `n` samples of silence.
pub open spec fn silence_run<T>(silence: T, n: nat) -> Seq<T> {
    Seq::new(n, |i: int| silence)
}

/// `blocks` runs of `per_block` samples of silence, one after the other.
pub open spec fn silence_blocks<T>(silence: T, blocks: nat, per_block: nat) -> Seq<T>
    decreases blocks,
{
    if blocks == 0 {
        seq![]
    } else {
        silence_blocks(silence, (blocks - 1) as nat, per_block) + silence_run(silence, per_block)
    }
}

/// What releasing frames from a buffer leaves and gives.
pub struct Release<T> {
    pub pending: Map<u32, Seq<T>>,
    pub expected: u32,
    pub emitted: Seq<T>,
    pub dropped: nat,
}

/// Releases frames from `pending` starting at sequence number `e`: the frame of
/// `e` is played when buffered; when it is missing and more than `max_pending`
/// frames wait, every sequence number up to the next buffered one is given up
/// and replaced by `block` samples of silence; otherwise release stops at `e`.
pub open spec fn release<T>(pending: Map<u32, Seq<T>>, e: u32, max_pending: nat, silence: T, block: nat) -> Release<T>
    decreases pending.dom().len(), (if pending.dom().contains(e) { 0nat } else { 1nat }),
    when pending.dom().finite()
{
    if pending.dom().contains(e) {
        let rest = release(pending.remove(e), seq_after(e), max_pending, silence, block);
        Release {
            pending: rest.pending,
            expected: rest.expected,
            emitted: pending[e] + rest.emitted,
            dropped: rest.dropped,
        }
    } else if pending.dom().len() > max_pending {
        proof {
            lemma_next_key(pending.dom(), e);
        }
        let k = next_key(pending.dom(), e);
        let gap = wrap_dist(e, k);
        let rest = release(pending, k, max_pending, silence, block);
        Release {
            pending: rest.pending,
            expected: rest.expected,
            emitted: silence_blocks(silence, gap, block) + rest.emitted,
            dropped: gap + rest.dropped,
        }
    } else {
        Release { pending, expected: e, emitted: seq![], dropped: 0 }
    }
}

/// `pending` without its oldest (smallest-numbered) frames, down to `max_pending` frames.
pub open spec fn keep_newest<T>(pending: Map<u32, Seq<T>>, max_pending: nat) -> Map<u32, Seq<T>>
    decreases pending.dom().len(),
    when pending.dom().finite()
{
    if pending.dom().len() > max_pending {
        proof {
            lemma_next_key(pending.dom(), 0);
        }
        keep_newest(pending.remove(first_key(pending.dom())), max_pending)
    } else {
        pending
    }
}

/// Some key of a finite nonempty set comes first after `e`.
pub proof fn lemma_next_key_exists(dom: Set<u32>, e: u32)
    requires
        dom.finite(),
        dom.len() > 0,
    ensures
        exists|k: u32| is_next_key(dom, e, k),
    decreases dom.len(),
{
    let x = dom.choose();
    let rest = dom.remove(x);
    if rest.len() == 0 {
        assert forall|j: u32| dom.contains(j) implies wrap_dist(e, x) <= wrap_dist(e, j) by {
            if j != x {
                assert(rest.contains(j));
            }
        }
        assert(is_next_key(dom, e, x));
    } else {
        lemma_next_key_exists(rest, e);
        let k = choose|k: u32| is_next_key(rest, e, k);
        if wrap_dist(e, x) < wrap_dist(e, k) {
            assert forall|j: u32| dom.contains(j) implies wrap_dist(e, x) <= wrap_dist(e, j) by {
                if j != x {
                    assert(rest.contains(j));
                }
            }
            assert(is_next_key(dom, e, x));
        } else {
            assert forall|j: u32| dom.contains(j) implies wrap_dist(e, k) <= wrap_dist(e, j) by {
                if j != x {
                    assert(rest.contains(j));
                }
            }
            assert(is_next_key(dom, e, k));
        }
    }
}

/// The key that comes first after `e` is unique.
pub proof fn lemma_next_key_unique(dom: Set<u32>, e: u32, k1: u32, k2: u32)
    requires
        is_next_key(dom, e, k1),
        is_next_key(dom, e, k2),
    ensures
        k1 == k2,
{
    assert(wrap_dist(e, k1) <= wrap_dist(e, k2));
    assert(wrap_dist(e, k2) <= wrap_dist(e, k1));
}

/// `next_key` is the key that comes first after `e`.
pub proof fn lemma_next_key(dom: Set<u32>, e: u32)
    requires
        dom.finite(),
        dom.len() > 0,
    ensures
        is_next_key(dom, e, next_key(dom, e)),
{
    lemma_next_key_exists(dom, e);
}


/// The mathematical content of a `JitterBuffer`.
pub struct JitterView<T> {
    pub pending: Map<u32, Seq<T>>,
    pub expected_sequence: Option<u32>,
    pub startup_packets: nat,
    pub max_pending: nat,
    pub last_packet_samples: nat,
}

/// What `push_packet` leaves in the buffer, plays, and gives up.
pub struct PushOutcome<T> {
    pub state: JitterView<T>,
    pub emitted: Seq<T>,
    pub dropped: nat,
}

/// The length of the block of silence that stands for a lost frame when
/// `samples` is offered: the frame's length (at least one), and no less than
/// `DEFAULT_PACKET_SAMPLES`.
pub open spec fn push_block<T>(samples: Seq<T>) -> nat {
    let last: nat = if samples.len() > 1 { samples.len() } else { 1 };
    if last > DEFAULT_PACKET_SAMPLES { last } else { DEFAULT_PACKET_SAMPLES as nat }
}

/// Where release starts when frame `sequence` is offered to `v`: the expected
/// number, or, once the startup count is reached, the smallest buffered number;
/// `None` while playback waits.
pub open spec fn push_start<T>(v: JitterView<T>, sequence: u32, samples: Seq<T>) -> Option<u32> {
    let buffered = v.pending.insert(sequence, samples);
    if v.expected_sequence is None && buffered.len() >= v.startup_packets {
        Some(first_key(buffered.dom()))
    } else {
        v.expected_sequence
    }
}

/// The effect of offering frame `sequence` to a buffer in state `v`.
/// A frame already buffered is ignored. Otherwise it is buffered; playback starts
/// at the smallest buffered number once `startup_packets` frames are buffered;
/// once started, frames are released (`release`) with lost frames replaced by
/// `max(len, 480)` samples of silence, `len` the length of the offered frame;
/// finally, when more than `3 * max_pending` frames remain, the oldest are
/// discarded down to `max_pending`. Lost and discarded frames count as dropped.
pub open spec fn push_outcome<T>(v: JitterView<T>, sequence: u32, samples: Seq<T>, silence: T) -> PushOutcome<T> {
    if v.pending.contains_key(sequence) {
        PushOutcome { state: v, emitted: seq![], dropped: 0 }
    } else {
        let last: nat = if samples.len() > 1 { samples.len() } else { 1 };
        let block = push_block(samples);
        let buffered = v.pending.insert(sequence, samples);
        let start = push_start(v, sequence, samples);
        let released = match start {
            Some(e) => release(buffered, e, v.max_pending, silence, block),
            None => Release { pending: buffered, expected: 0, emitted: seq![], dropped: 0 },
        };
        let kept = if released.pending.len() > 3 * v.max_pending {
            keep_newest(released.pending, v.max_pending)
        } else {
            released.pending
        };
        PushOutcome {
            state: JitterView {
                pending: kept,
                expected_sequence: match start {
                    Some(e) => Some(released.expected),
                    None => None,
                },
                startup_packets: v.startup_packets,
                max_pending: v.max_pending,
                last_packet_samples: last,
            },
            emitted: released.emitted,
            dropped: released.dropped + (released.pending.len() - kept.len()) as nat,
        }
    }
}

/// A reordering buffer of audio frames keyed by sequence number; `T` is the
/// sample type.
pub struct JitterBuffer<T> {
    pending: BTreeMap<u32, Vec<T>>,
    expected_sequence: Option<u32>,
    startup_packets: usize,
    max_pending: usize,
    last_packet_samples: usize,
}

impl<T> View for JitterBuffer<T> {
    type V = JitterView<T>;

    closed spec fn view(&self) -> JitterView<T> {
        JitterView {
            pending: self.pending@.map_values(|f: Vec<T>| f@),
            expected_sequence: self.expected_sequence,
            startup_packets: self.startup_packets as nat,
            max_pending: self.max_pending as nat,
            last_packet_samples: self.last_packet_samples as nat,
        }
    }
}

/// The counters of `m2` are those of `m1` but for `packets_dropped`, which has
/// grown by `n`; the last error is kept.
pub open spec fn dropped_more(m1: RuntimeMetrics, m2: RuntimeMetrics, n: nat) -> bool {
    &&& m2.packets_dropped == counter_plus(m1.packets_dropped, n)
    &&& m2.packets_received == m1.packets_received
    &&& m2.dropped_samples == m1.dropped_samples
    &&& m2.decrypt_failures == m1.decrypt_failures
    &&& m2.parse_errors == m1.parse_errors
    &&& m2.last_error == m1.last_error
}

impl<T: Copy> JitterBuffer<T> {
    /// An empty buffer that starts playback after `startup_packets` frames and gives
    /// a missing frame up once more than `max_pending` frames wait behind it.
    pub fn new(startup_packets: usize, max_pending: usize) -> (b: Self)
        ensures
            b@ == (JitterView::<T> {
                pending: Map::empty(),
                expected_sequence: None,
                startup_packets: startup_packets as nat,
                max_pending: max_pending as nat,
                last_packet_samples: DEFAULT_PACKET_SAMPLES as nat,
            }),
            b@.wf(),
    {
        let b = JitterBuffer {
            pending: BTreeMap::new(),
            expected_sequence: None,
            startup_packets,
            max_pending,
            last_packet_samples: DEFAULT_PACKET_SAMPLES,
        };
        assert(b@.pending =~= Map::<u32, Seq<T>>::empty());
        b
    }

    /// Forgets every buffered frame and the playback position, as at the start
    /// of a new session; the configuration stays.
    pub fn reset(&mut self)
        ensures
            final(self)@ == (JitterView::<T> {
                pending: Map::empty(),
                expected_sequence: None,
                last_packet_samples: DEFAULT_PACKET_SAMPLES as nat,
                ..old(self)@
            }),
            final(self)@.wf(),
    {
        self.pending.clear();
        self.expected_sequence = None;
        self.last_packet_samples = DEFAULT_PACKET_SAMPLES;
        assert(self@.pending =~= Map::<u32, Seq<T>>::empty());
    }

    /// A buffer holds finitely many frames.
    pub proof fn lemma_pending_finite(&self)
        ensures
            self@.pending.dom().finite(),
    {
        assert(self@.pending.dom() == self.pending@.dom());
    }

    /// The buffered sequence number that comes first at or after `e`.
    fn next_pending_key(&self, e: u32) -> (k: u32)
        requires
            self@.pending.dom().len() > 0,
        ensures
            k == next_key(self@.pending.dom(), e),
    {
        let ghost dom = self.pending@.dom();
        assert(self@.pending.dom() =~= dom);
        let mut best: u32 = 0;
        let mut best_dist: u32 = 0;
        let mut found = false;
        for k in it: self.pending.keys()
            invariant
                it.seq().unref().to_set() == dom,
                dom == self.pending@.dom(),
                found == (it.index() > 0),
                found ==> dom.contains(best),
                found ==> best_dist == wrap_dist(e, best),
                forall|j: u32| #[trigger] dom.contains(j) ==>
                    (exists|t: int| it.index() <= t < it.seq().len() && it.seq().unref()[t] == j)
                    || (found && best_dist <= wrap_dist(e, j)),
        {
            let d = k.wrapping_sub(e);
            let ghost i = it.index();
            assert(it.seq().unref()[i] == *k);
            assert(it.seq().unref().to_set().contains(*k));
            let ghost old_found = found;
            let ghost old_best_dist = best_dist;
            if !found || d < best_dist {
                best = *k;
                best_dist = d;
                found = true;
            }
            proof {
                let sq = it.seq().unref();
                assert forall|j: u32| #[trigger] dom.contains(j) implies
                    (exists|t: int| i + 1 <= t < sq.len() && sq[t] == j)
                    || (found && best_dist <= wrap_dist(e, j)) by {
                    if !(old_found && old_best_dist <= wrap_dist(e, j)) {
                        let t = choose|t: int| i <= t < sq.len() && sq[t] == j;
                        if t == i {
                            assert(j == *k);
                        } else {
                            assert(i + 1 <= t < sq.len() && sq[t] == j);
                        }
                    }
                }
            }
        }
        proof {
            assert forall|j: u32| dom.contains(j) implies best_dist <= wrap_dist(e, j) && found by {}
            if !found {
                assert(dom.contains(dom.choose()));
            }
            assert(is_next_key(dom, e, best));
            lemma_next_key(dom, e);
            lemma_next_key_unique(dom, e, best, next_key(dom, e));
        }
        best
    }

    /// Appends the samples of `frame` to `output`.
    fn play_frame(frame: &Vec<T>, output: &mut VecDeque<T>)
        ensures
            final(output)@ == old(output)@ + frame@,
    {
        let ghost before = output@;
        let mut i: usize = 0;
        while i < frame.len()
            invariant
                i <= frame@.len(),
                output@ == before + frame@.take(i as int),
            decreases frame@.len() - i,
        {
            assert(frame@.take(i + 1) =~= frame@.take(i as int).push(frame@[i as int]));
            output.push_back(frame[i]);
            i = i + 1;
        }
        assert(frame@.take(frame@.len() as int) =~= frame@);
    }

    /// Appends `blocks` runs of `per_block` samples of silence to `output`.
    fn play_silence(silence: T, blocks: u32, per_block: usize, output: &mut VecDeque<T>)
        ensures
            final(output)@ == old(output)@ + silence_blocks(silence, blocks as nat, per_block as nat),
    {
        let ghost before = output@;
        let mut b: u32 = 0;
        assert(before + silence_blocks(silence, 0, per_block as nat) =~= before);
        while b < blocks
            invariant
                b <= blocks,
                output@ == before + silence_blocks(silence, b as nat, per_block as nat),
            decreases blocks - b,
        {
            let ghost start = output@;
            let mut j: usize = 0;
            assert(start + silence_run(silence, 0) =~= start);
            while j < per_block
                invariant
                    j <= per_block,
                    output@ == start + silence_run(silence, j as nat),
                decreases per_block - j,
            {
                assert(silence_run(silence, (j + 1) as nat) =~= silence_run(silence, j as nat).push(silence));
                output.push_back(silence);
                j = j + 1;
            }
            assert(silence_blocks(silence, (b + 1) as nat, per_block as nat)
                == silence_blocks(silence, b as nat, per_block as nat) + silence_run(silence, per_block as nat));
            assert(output@ =~= before + silence_blocks(silence, (b + 1) as nat, per_block as nat));
            b = b + 1;
        }
    }

    /// Releases frames from the expected one on (see `release`).
    fn release_frames(&mut self, silence: T, block: usize, output: &mut VecDeque<T>, metrics: &mut RuntimeMetrics)
        requires
            old(self)@.expected_sequence is Some,
        ensures
            ({
                let r = release(
                    old(self)@.pending,
                    old(self)@.expected_sequence->0,
                    old(self)@.max_pending,
                    silence,
                    block as nat,
                );
                &&& final(self)@ == (JitterView { pending: r.pending, expected_sequence: Some(r.expected), ..old(self)@ })
                &&& final(output)@ == old(output)@ + r.emitted
                &&& dropped_more(*old(metrics), *final(metrics), r.dropped)
            }),
    {
        let ghost target = release(self@.pending, self@.expected_sequence->0, self@.max_pending, silence, block as nat);
        let ghost out0 = output@;
        let ghost m0 = *metrics;
        let ghost v0 = self@;
        let ghost mut emitted: Seq<T> = seq![];
        let ghost mut dropped: nat = 0;
        assert(out0 + emitted =~= out0);
        proof {
            lemma_counter_plus_zero(m0.packets_dropped);
        }
        loop
            invariant
                self.expected_sequence is Some,
                self@.startup_packets == v0.startup_packets,
                self@.max_pending == v0.max_pending,
                self@.last_packet_samples == v0.last_packet_samples,
                self.pending@.dom().finite(),
                output@ == out0 + emitted,
                dropped_more(m0, *metrics, dropped),
                ({
                    let r = release(self@.pending, self.expected_sequence->0, self@.max_pending, silence, block as nat);
                    &&& r.pending == target.pending
                    &&& r.expected == target.expected
                    &&& target.emitted == emitted + r.emitted
                    &&& target.dropped == dropped + r.dropped
                }),
            ensures
                self@ == (JitterView { pending: target.pending, expected_sequence: Some(target.expected), ..v0 }),
                output@ == out0 + target.emitted,
                dropped_more(m0, *metrics, target.dropped),
            decreases
                self.pending@.dom().len(),
                (if self.pending@.dom().contains(self.expected_sequence->0) { 0nat } else { 1nat }),
        {
            let e = match self.expected_sequence {
                Some(e) => e,
                None => 0,
            };
            let ghost p = self@.pending;
            assert(p.dom() == self.pending@.dom());
            if self.pending.contains_key(&e) {
                let frame = match self.pending.remove(&e) {
                    Some(f) => f,
                    None => Vec::new(),
                };
                assert(self@.pending =~= p.remove(e));
                assert(frame@ == p[e]);
                Self::play_frame(&frame, output);
                proof {
                    emitted = emitted + p[e];
                }
                self.expected_sequence = Some(e.wrapping_add(1));
                assert(output@ =~= out0 + emitted);
            } else if self.pending.len() > self.max_pending {
                let k = self.next_pending_key(e);
                let gap = k.wrapping_sub(e);
                proof {
                    lemma_next_key(p.dom(), e);
                }
                assert(gap as nat == wrap_dist(e, k));
                Self::play_silence(silence, gap, block, output);
                metrics.packets_dropped = count(metrics.packets_dropped, gap as usize);
                proof {
                    lemma_counter_plus_plus(m0.packets_dropped, dropped, gap as nat);
                    emitted = emitted + silence_blocks(silence, gap as nat, block as nat);
                    dropped = dropped + gap as nat;
                }
                self.expected_sequence = Some(k);
                assert(output@ =~= out0 + emitted);
            } else {
                assert(self@ =~= JitterView { pending: target.pending, expected_sequence: Some(target.expected), ..v0 });
                break;
            }
        }
    }

    /// Discards the oldest frames until at most `max_pending` remain.
    fn drop_oldest(&mut self, metrics: &mut RuntimeMetrics)
        ensures
            final(self)@ == (JitterView { pending: keep_newest(old(self)@.pending, old(self)@.max_pending), ..old(self)@ }),
            dropped_more(*old(metrics), *final(metrics),
                (old(self)@.pending.len() - keep_newest(old(self)@.pending, old(self)@.max_pending).len()) as nat),
    {
        let ghost v0 = self@;
        let ghost m0 = *metrics;
        let ghost target = keep_newest(v0.pending, v0.max_pending);
        proof {
            lemma_counter_plus_zero(m0.packets_dropped);
        }
        while self.pending.len() > self.max_pending
            invariant
                self.pending@.dom().finite(),
                self@.expected_sequence == v0.expected_sequence,
                self@.startup_packets == v0.startup_packets,
                self@.max_pending == v0.max_pending,
                self@.last_packet_samples == v0.last_packet_samples,
                keep_newest(self@.pending, v0.max_pending) == target,
                self@.pending.len() <= v0.pending.len(),
                dropped_more(m0, *metrics, (v0.pending.len() - self@.pending.len()) as nat),
            decreases self.pending@.dom().len(),
        {
            let ghost p = self@.pending;
            assert(p.dom() == self.pending@.dom());
            let k = self.next_pending_key(0);
            self.pending.remove(&k);
            assert(self@.pending =~= p.remove(k));
            proof {
                lemma_next_key(p.dom(), 0);
                lemma_counter_plus_plus(m0.packets_dropped, (v0.pending.len() - p.len()) as nat, 1);
            }
            metrics.packets_dropped = count(metrics.packets_dropped, 1);
        }
        assert(self@.pending.dom() == self.pending@.dom());
        assert(keep_newest(self@.pending, v0.max_pending) == self@.pending);
        assert(self@ =~= JitterView { pending: target, ..v0 });
    }

    /// Offers the frame `sequence` (see `push_outcome`): frames released for
    /// playback are appended to `output`, and frames given up are counted in
    /// `metrics.packets_dropped`.
    pub fn push_packet(
        &mut self,
        sequence: u32,
        samples: Vec<T>,
        silence: T,
        output: &mut VecDeque<T>,
        metrics: &mut RuntimeMetrics,
    )
        ensures
            final(self)@ == push_outcome(old(self)@, sequence, samples@, silence).state,
            final(output)@ == old(output)@ + push_outcome(old(self)@, sequence, samples@, silence).emitted,
            dropped_more(*old(metrics), *final(metrics), push_outcome(old(self)@, sequence, samples@, silence).dropped),
            final(self)@.pending.dom().finite(),
            !old(self)@.pending.contains_key(sequence) || old(self)@.wf() ==> final(self)@.wf(),
    {
        let ghost v0 = self@;
        let ghost out0 = output@;
        let ghost m0 = *metrics;
        let ghost o = push_outcome(v0, sequence, samples@, silence);
        proof {
            lemma_counter_plus_zero(m0.packets_dropped);
        }
        assert(self.pending@.dom() == v0.pending.dom());
        if self.pending.contains_key(&sequence) {
            assert(output@ =~= out0 + seq![]);
            return;
        }
        let n = samples.len();
        self.last_packet_samples = if n > 1 { n } else { 1 };
        let block = if self.last_packet_samples > DEFAULT_PACKET_SAMPLES {
            self.last_packet_samples
        } else {
            DEFAULT_PACKET_SAMPLES
        };
        let ghost frame = samples@;
        let ghost buffered = v0.pending.insert(sequence, frame);
        self.pending.insert(sequence, samples);
        assert(self@.pending =~= buffered);
        assert(self@.pending.dom() == self.pending@.dom());
        if self.expected_sequence.is_none() && self.pending.len() >= self.startup_packets {
            let first = self.next_pending_key(0);
            self.expected_sequence = Some(first);
        }
        let ghost start = self.expected_sequence;
        assert(start == if v0.expected_sequence is None && buffered.len() >= v0.startup_packets {
            Some(first_key(buffered.dom()))
        } else {
            v0.expected_sequence
        });
        let ghost released = match start {
            Some(e) => release(buffered, e, v0.max_pending, silence, block as nat),
            None => Release { pending: buffered, expected: 0, emitted: seq![], dropped: 0 },
        };
        if self.expected_sequence.is_some() {
            self.release_frames(silence, block, output, metrics);
        } else {
            assert(output@ =~= out0 + seq![]);
        }
        assert(self@.pending == released.pending);
        assert(output@ == out0 + released.emitted);
        assert(dropped_more(m0, *metrics, released.dropped));
        let ghost v2 = self@;
        let ghost m2 = *metrics;
        assert(self@.pending.dom() == self.pending@.dom());
        let len = self.pending.len();
        assert(len == self.pending@.len());
        assert(self@.pending.len() == self.pending@.len());
        let over = match self.max_pending.checked_mul(3) {
            Some(limit) => len > limit,
            None => false,
        };
        assert(over == (released.pending.len() > 3 * v0.max_pending));
        if over {
            self.drop_oldest(metrics);
            proof {
                lemma_counter_plus_plus(
                    m0.packets_dropped,
                    released.dropped,
                    (v2.pending.len() - self@.pending.len()) as nat,
                );
            }
        } else {
            proof {
                lemma_counter_plus_zero(m2.packets_dropped);
            }
        }
        assert(self@ =~= o.state);
        assert(self@.pending.dom() == self.pending@.dom());
        proof {
            if !v0.pending.contains_key(sequence) || v0.wf() {
                lemma_push_wf(v0, sequence, frame, silence);
            }
        }
    }
}


impl<T> JitterView<T> {
    /// The buffer holds finitely many frames, at most three times `max_pending`;
    /// once playback has started, the expected frame is not buffered and at most
    /// `max_pending` frames wait.
    pub open spec fn wf(self) -> bool {
        &&& self.pending.dom().finite()
        &&& self.pending.len() <= 3 * self.max_pending
        &&& (self.expected_sequence matches Some(e) ==> {
            &&& !self.pending.contains_key(e)
            &&& self.pending.len() <= self.max_pending
        })
    }
}

/// Release stops at a missing frame with at most `max_pending` frames waiting.
pub proof fn lemma_release_stops<T>(pending: Map<u32, Seq<T>>, e: u32, max_pending: nat, silence: T, block: nat)
    requires
        pending.dom().finite(),
    ensures
        ({
            let r = release(pending, e, max_pending, silence, block);
            &&& r.pending.dom().finite()
            &&& !r.pending.contains_key(r.expected)
            &&& r.pending.len() <= max_pending
            &&& r.pending.len() <= pending.len()
        }),
    decreases pending.dom().len(), (if pending.dom().contains(e) { 0nat } else { 1nat }),
{
    if pending.dom().contains(e) {
        lemma_release_stops(pending.remove(e), seq_after(e), max_pending, silence, block);
    } else if pending.dom().len() > max_pending {
        lemma_next_key(pending.dom(), e);
        lemma_release_stops(pending, next_key(pending.dom(), e), max_pending, silence, block);
    }
}

/// Discarding the oldest frames leaves exactly `max_pending` of them when there
/// were more.
pub proof fn lemma_keep_newest_len<T>(pending: Map<u32, Seq<T>>, max_pending: nat)
    requires
        pending.dom().finite(),
    ensures
        keep_newest(pending, max_pending).dom().finite(),
        keep_newest(pending, max_pending).len() == if pending.len() > max_pending { max_pending } else { pending.len() },
    decreases pending.dom().len(),
{
    if pending.dom().len() > max_pending {
        lemma_next_key(pending.dom(), 0);
        lemma_keep_newest_len(pending.remove(first_key(pending.dom())), max_pending);
    }
}

/// Offering a frame that is not yet buffered leaves the buffer well-formed,
/// whatever its state before; offering a buffered one leaves it as it was, so a
/// well-formed buffer stays well-formed.
pub proof fn lemma_push_wf<T>(v: JitterView<T>, sequence: u32, samples: Seq<T>, silence: T)
    requires
        v.pending.dom().finite(),
        !v.pending.contains_key(sequence) || v.wf(),
    ensures
        push_outcome(v, sequence, samples, silence).state.wf(),
{
    if !v.pending.contains_key(sequence) {
        let last: nat = if samples.len() > 1 { samples.len() } else { 1 };
        let block: nat = if last > DEFAULT_PACKET_SAMPLES { last } else { DEFAULT_PACKET_SAMPLES as nat };
        let buffered = v.pending.insert(sequence, samples);
        let start = if v.expected_sequence is None && buffered.len() >= v.startup_packets {
            Some(first_key(buffered.dom()))
        } else {
            v.expected_sequence
        };
        match start {
            Some(e) => {
                lemma_release_stops(buffered, e, v.max_pending, silence, block);
            },
            None => {
                lemma_keep_newest_len(buffered, v.max_pending);
            },
        }
    }
}

/// `n` runs of silence followed by one more are one run followed by `n` runs.
proof fn lemma_silence_blocks_front<T>(silence: T, blocks: nat, per_block: nat)
    requires
        blocks > 0,
    ensures
        silence_blocks(silence, blocks, per_block)
            == silence_run(silence, per_block) + silence_blocks(silence, (blocks - 1) as nat, per_block),
        silence_blocks(silence, blocks, per_block).len() == blocks * per_block,
    decreases blocks,
{
    if blocks > 1 {
        lemma_silence_blocks_front(silence, (blocks - 1) as nat, per_block);
        let a = silence_blocks(silence, blocks, per_block);
        let b = silence_run(silence, per_block) + silence_blocks(silence, (blocks - 1) as nat, per_block);
        assert(a.len() == blocks * per_block) by (nonlinear_arith)
            requires
                a.len() == (blocks - 1) * per_block + per_block;
        assert forall|i: int| 0 <= i < a.len() implies a[i] == silence by {
            lemma_silence_blocks_all(silence, blocks, per_block, i);
        }
        assert forall|i: int| 0 <= i < b.len() implies b[i] == silence by {
            if i >= per_block {
                lemma_silence_blocks_all(silence, (blocks - 1) as nat, per_block, i - per_block);
            }
        }
        assert(a =~= b);
    } else {
        assert(silence_blocks(silence, 0, per_block) =~= Seq::<T>::empty());
        assert(silence_blocks(silence, 1, per_block) =~= silence_run(silence, per_block));
    }
}

/// Every sample of a run of silence blocks is silence.
proof fn lemma_silence_blocks_all<T>(silence: T, blocks: nat, per_block: nat, i: int)
    requires
        0 <= i < silence_blocks(silence, blocks, per_block).len(),
    ensures
        silence_blocks(silence, blocks, per_block)[i] == silence,
    decreases blocks,
{
    if blocks > 0 {
        let prev = silence_blocks(silence, (blocks - 1) as nat, per_block);
        if i < prev.len() {
            lemma_silence_blocks_all(silence, (blocks - 1) as nat, per_block, i);
        }
    }
}

/// Release goes one sequence number at a time: from `e` it plays the frame of
/// `e` when buffered; when it is missing and more than `max_pending` frames
/// wait, it plays one block of silence for `e` and counts one dropped frame;
/// otherwise it stops at `e`. Either way the next step starts at the number
/// after `e`.
pub proof fn lemma_release_step<T>(pending: Map<u32, Seq<T>>, e: u32, max_pending: nat, silence: T, block: nat)
    requires
        pending.dom().finite(),
    ensures
        ({
            let r = release(pending, e, max_pending, silence, block);
            if pending.contains_key(e) {
                let rest = release(pending.remove(e), seq_after(e), max_pending, silence, block);
                &&& r.emitted == pending[e] + rest.emitted
                &&& r.dropped == rest.dropped
                &&& r.pending == rest.pending
                &&& r.expected == rest.expected
            } else if pending.len() > max_pending {
                let rest = release(pending, seq_after(e), max_pending, silence, block);
                &&& r.emitted == silence_run(silence, block) + rest.emitted
                &&& r.dropped == 1 + rest.dropped
                &&& r.pending == rest.pending
                &&& r.expected == rest.expected
            } else {
                &&& r.emitted == Seq::<T>::empty()
                &&& r.dropped == 0
                &&& r.pending == pending
                &&& r.expected == e
            }
        }),
{
    if !pending.contains_key(e) && pending.len() > max_pending {
        let dom = pending.dom();
        lemma_next_key(dom, e);
        let k = next_key(dom, e);
        let gap = wrap_dist(e, k);
        let n = seq_after(e);
        assert(k != e);
        assert(gap >= 1);
        // counting on from the number after `e`, `k` still comes first
        assert(wrap_dist(n, k) == gap - 1);
        assert forall|j: u32| dom.contains(j) implies wrap_dist(n, k) <= wrap_dist(n, j) by {
            assert(j != e);
            assert(wrap_dist(n, j) == wrap_dist(e, j) - 1);
        }
        assert(is_next_key(dom, n, k));
        if dom.contains(n) {
            lemma_next_key_unique(dom, e, n, k);
        } else {
            lemma_next_key(dom, n);
            lemma_next_key_unique(dom, n, k, next_key(dom, n));
        }
        lemma_silence_blocks_front(silence, gap, block);
        let tail = release(pending, k, max_pending, silence, block);
        if dom.contains(n) {
            assert(gap == 1);
            assert(silence_blocks(silence, 0, block) =~= Seq::<T>::empty());
            assert(silence_run(silence, block) + silence_blocks(silence, 0, block) + tail.emitted
                =~= silence_run(silence, block) + tail.emitted);
        } else {
            assert(silence_blocks(silence, gap, block) + tail.emitted
                =~= silence_run(silence, block) + (silence_blocks(silence, (gap - 1) as nat, block) + tail.emitted));
        }
    }
}

/// Once playback has started, the frame it waits for is played as soon as it
/// arrives: the samples released begin with that frame.
pub proof fn lemma_on_time_frame_plays<T>(v: JitterView<T>, samples: Seq<T>, silence: T)
    requires
        v.wf(),
        v.expected_sequence is Some,
    ensures
        push_outcome(v, v.expected_sequence->0, samples, silence).emitted.take(samples.len() as int) == samples,
{
    let e = v.expected_sequence->0;
    let last: nat = if samples.len() > 1 { samples.len() } else { 1 };
    let block: nat = if last > DEFAULT_PACKET_SAMPLES { last } else { DEFAULT_PACKET_SAMPLES as nat };
    let buffered = v.pending.insert(e, samples);
    assert(buffered.dom().contains(e));
    assert(buffered.remove(e) =~= v.pending);
    let r = release(buffered, e, v.max_pending, silence, block);
    assert(r.emitted.take(samples.len() as int) =~= samples);
}

/// The sequence number `i` places after `e`, wrapping around past `u32::MAX`.
pub open spec fn seq_plus(e: u32, i: nat) -> u32 {
    ((e + i) % 4294967296) as u32
}

/// One step of release: the sequence number it concerns, the samples it plays
/// for it, and whether the frame was given up (and silence played instead).
pub struct ReleaseStep<T> {
    pub sequence: u32,
    pub samples: Seq<T>,
    pub lost: bool,
}

/// The first `n` steps of release from `e`, one per sequence number, ending
/// early where release stops.
pub open spec fn release_walk<T>(pending: Map<u32, Seq<T>>, e: u32, n: nat, max_pending: nat, silence: T, block: nat) -> Seq<ReleaseStep<T>>
    decreases n,
{
    if n == 0 {
        seq![]
    } else if pending.contains_key(e) {
        seq![ReleaseStep { sequence: e, samples: pending[e], lost: false }]
            + release_walk(pending.remove(e), seq_after(e), (n - 1) as nat, max_pending, silence, block)
    } else if pending.len() > max_pending {
        seq![ReleaseStep { sequence: e, samples: silence_run(silence, block), lost: true }]
            + release_walk(pending, seq_after(e), (n - 1) as nat, max_pending, silence, block)
    } else {
        seq![]
    }
}

/// The samples played by a sequence of steps, one after the other.
pub open spec fn played<T>(steps: Seq<ReleaseStep<T>>) -> Seq<T>
    decreases steps.len(),
{
    if steps.len() == 0 { seq![] } else { steps[0].samples + played(steps.drop_first()) }
}

/// How many of the steps gave a frame up.
pub open spec fn lost_count<T>(steps: Seq<ReleaseStep<T>>) -> nat
    decreases steps.len(),
{
    if steps.len() == 0 { 0 } else { (if steps[0].lost { 1nat } else { 0nat }) + lost_count(steps.drop_first()) }
}

/// Counting on from a missing number, the next buffered key stays the same and
/// comes one step closer.
proof fn lemma_next_key_after<T>(dom: Set<u32>, e: u32)
    requires
        dom.finite(),
        dom.len() > 0,
        !dom.contains(e),
    ensures
        next_key(dom, seq_after(e)) == next_key(dom, e),
        wrap_dist(seq_after(e), next_key(dom, e)) + 1 == wrap_dist(e, next_key(dom, e)),
{
    lemma_next_key(dom, e);
    let k = next_key(dom, e);
    let n = seq_after(e);
    assert(k != e);
    assert(wrap_dist(n, k) + 1 == wrap_dist(e, k));
    assert forall|j: u32| dom.contains(j) implies wrap_dist(n, k) <= wrap_dist(n, j) by {
        assert(j != e);
        assert(wrap_dist(n, j) + 1 == wrap_dist(e, j));
    }
    assert(is_next_key(dom, n, k));
    lemma_next_key(dom, n);
    lemma_next_key_unique(dom, n, k, next_key(dom, n));
}

/// The steps of release visit consecutive sequence numbers from `e`; a step that
/// plays a frame plays the frame buffered under its number, a step that gives a
/// frame up plays one block of silence.
#[verifier::spinoff_prover]
#[verifier::rlimit(40)]
pub proof fn lemma_release_walk_shape<T>(pending: Map<u32, Seq<T>>, e: u32, n: nat, max_pending: nat, silence: T, block: nat)
    ensures
        ({
            let w = release_walk(pending, e, n, max_pending, silence, block);
            &&& w.len() <= n
            &&& forall|i: int| 0 <= i < w.len() ==> (#[trigger] w[i]).sequence == seq_plus(e, i as nat)
            &&& forall|i: int| 0 <= i < w.len() && !(#[trigger] w[i]).lost ==>
                pending.contains_key(w[i].sequence) && w[i].samples == pending[w[i].sequence]
            &&& forall|i: int| 0 <= i < w.len() && (#[trigger] w[i]).lost ==> w[i].samples == silence_run(silence, block)
        }),
    decreases n,
{
    if n > 0 {
        let rest_pending = if pending.contains_key(e) { pending.remove(e) } else { pending };
        lemma_release_walk_shape(rest_pending, seq_after(e), (n - 1) as nat, max_pending, silence, block);
        let w = release_walk(pending, e, n, max_pending, silence, block);
        let rest = release_walk(rest_pending, seq_after(e), (n - 1) as nat, max_pending, silence, block);
        if pending.contains_key(e) || pending.len() > max_pending {
            assert forall|i: int| 0 <= i < w.len() implies (#[trigger] w[i]).sequence == seq_plus(e, i as nat) by {
                if i > 0 {
                    assert(w[i] == rest[i - 1]);
                    assert(seq_plus(seq_after(e), (i - 1) as nat) == seq_plus(e, i as nat));
                }
            }
            assert forall|i: int| 0 <= i < w.len() && !(#[trigger] w[i]).lost implies
                pending.contains_key(w[i].sequence) && w[i].samples == pending[w[i].sequence] by {
                if i > 0 {
                    assert(w[i] == rest[i - 1]);
                }
            }
            assert forall|i: int| 0 <= i < w.len() && (#[trigger] w[i]).lost implies
                w[i].samples == silence_run(silence, block) by {
                if i > 0 {
                    assert(w[i] == rest[i - 1]);
                }
            }
        }
    }
}

/// Release is its steps: for some number of steps, what release plays is what
/// the steps play (a frame or a block of silence per sequence number, from `e`
/// on), the frames it gives up are the steps that give one up, and it stops at
/// the number after the last step, where the frame is missing and at most
/// `max_pending` frames wait.
pub proof fn lemma_release_walk<T>(pending: Map<u32, Seq<T>>, e: u32, max_pending: nat, silence: T, block: nat)
    requires
        pending.dom().finite(),
    ensures
        exists|n: nat| {
            let w = #[trigger] release_walk(pending, e, n, max_pending, silence, block);
            let r = release(pending, e, max_pending, silence, block);
            &&& w.len() == n
            &&& r.emitted == played(w)
            &&& r.dropped == lost_count(w)
            &&& r.expected == seq_plus(e, n)
            &&& !r.pending.contains_key(r.expected)
            &&& r.pending.len() <= max_pending
        },
    decreases
        pending.dom().len(),
        (if pending.dom().len() > 0 { wrap_dist(e, next_key(pending.dom(), e)) } else { 0 }),
{
    lemma_release_step(pending, e, max_pending, silence, block);
    lemma_release_stops(pending, e, max_pending, silence, block);
    let r = release(pending, e, max_pending, silence, block);
    if pending.contains_key(e) || pending.len() > max_pending {
        let rest_pending = if pending.contains_key(e) { pending.remove(e) } else { pending };
        if pending.contains_key(e) {
            if pending.remove(e).dom().len() > 0 {
                lemma_next_key(pending.remove(e).dom(), seq_after(e));
            }
        } else {
            lemma_next_key_after::<T>(pending.dom(), e);
            lemma_next_key(pending.dom(), e);
            assert(wrap_dist(e, next_key(pending.dom(), e)) > 0);
        }
        lemma_release_walk(rest_pending, seq_after(e), max_pending, silence, block);
        let m = choose|m: nat| {
            let w = #[trigger] release_walk(rest_pending, seq_after(e), m, max_pending, silence, block);
            let rr = release(rest_pending, seq_after(e), max_pending, silence, block);
            &&& w.len() == m
            &&& rr.emitted == played(w)
            &&& rr.dropped == lost_count(w)
            &&& rr.expected == seq_plus(seq_after(e), m)
            &&& !rr.pending.contains_key(rr.expected)
            &&& rr.pending.len() <= max_pending
        };
        let rest = release_walk(rest_pending, seq_after(e), m, max_pending, silence, block);
        let w = release_walk(pending, e, m + 1, max_pending, silence, block);
        assert(w.drop_first() =~= rest);
        assert(seq_plus(seq_after(e), m) == seq_plus(e, m + 1));
        assert(r.emitted == played(w));
        assert(r.dropped == lost_count(w));
        assert(release_walk(pending, e, m + 1, max_pending, silence, block).len() == m + 1);
    } else {
        let w = release_walk(pending, e, 0, max_pending, silence, block);
        assert(w.len() == 0);
        assert(r.emitted =~= played(w));
        assert(seq_plus(e, 0) == e);
    }
}

/// A lost frame is concealed by as much silence as the frame just offered
/// holds, and never less than 480 samples (`DEFAULT_PACKET_SAMPLES`): when
/// playback waits for a missing frame and, with the new frame, more than
/// `max_pending` frames wait, what is played starts with `max(len, 480)`
/// samples of silence, `len` the length of the new frame, and at least that
/// frame is counted as dropped.
pub proof fn lemma_lost_frame_silence<T>(v: JitterView<T>, e: u32, sequence: u32, samples: Seq<T>, silence: T)
    requires
        v.pending.dom().finite(),
        v.expected_sequence == Some(e),
        !v.pending.contains_key(e),
        !v.pending.contains_key(sequence),
        sequence != e,
        v.pending.len() + 1 > v.max_pending,
    ensures
        ({
            let o = push_outcome(v, sequence, samples, silence);
            let len: nat = if samples.len() > 480 { samples.len() } else { 480 };
            &&& o.emitted.len() >= len
            &&& forall|i: int| 0 <= i < len ==> #[trigger] o.emitted[i] == silence
            &&& o.dropped >= 1
        }),
{
    let block = push_block(samples);
    let buffered = v.pending.insert(sequence, samples);
    assert(buffered.dom().finite());
    assert(!buffered.contains_key(e));
    assert(buffered.len() == v.pending.len() + 1);
    assert(push_start(v, sequence, samples) == Some(e));
    lemma_release_step(buffered, e, v.max_pending, silence, block);
    let r = release(buffered, e, v.max_pending, silence, block);
    let len: nat = if samples.len() > 480 { samples.len() } else { 480 };
    assert(block == len);
    let o = push_outcome(v, sequence, samples, silence);
    assert(o.emitted == r.emitted);
    assert forall|i: int| 0 <= i < len implies #[trigger] o.emitted[i] == silence by {
        assert(r.emitted[i] == silence_run(silence, block)[i]);
    }
}

/// Offering a frame that is already buffered changes nothing, plays nothing and
/// drops nothing.
pub proof fn lemma_push_duplicate<T>(v: JitterView<T>, sequence: u32, samples: Seq<T>, silence: T)
    requires
        v.pending.contains_key(sequence),
    ensures
        push_outcome(v, sequence, samples, silence).state == v,
        push_outcome(v, sequence, samples, silence).emitted == Seq::<T>::empty(),
        push_outcome(v, sequence, samples, silence).dropped == 0,
{
}

/// While playback waits for the startup count, a new frame joins the buffer and
/// nothing is played; when more than three times `max_pending` frames are
/// buffered the oldest are evicted down to `max_pending`, and what is dropped is
/// exactly the frames evicted.
pub proof fn lemma_push_waiting<T>(v: JitterView<T>, sequence: u32, samples: Seq<T>, silence: T)
    requires
        v.pending.dom().finite(),
        !v.pending.contains_key(sequence),
        push_start(v, sequence, samples) is None,
    ensures
        ({
            let o = push_outcome(v, sequence, samples, silence);
            let buffered = v.pending.insert(sequence, samples);
            &&& o.emitted == Seq::<T>::empty()
            &&& o.state.expected_sequence is None
            &&& o.state.pending.len() == if buffered.len() > 3 * v.max_pending {
                v.max_pending
            } else {
                buffered.len()
            }
            &&& o.dropped + o.state.pending.len() == buffered.len()
        }),
{
    let buffered = v.pending.insert(sequence, samples);
    lemma_keep_newest_len(buffered, v.max_pending);
}

/// Once playback has started, offering a new frame plays, for `s`, `s + 1`, ...
/// in turn (wrapping, `s` the start of release), the frame buffered under that
/// number or, where it is missing and more than `max_pending` frames wait, one
/// block of silence; release stops at the first missing number with at most
/// `max_pending` frames waiting, which becomes the expected number; nothing is
/// evicted, and what is dropped is exactly the number of silence blocks played.
pub proof fn lemma_push_walk<T>(v: JitterView<T>, sequence: u32, samples: Seq<T>, silence: T)
    requires
        v.pending.dom().finite(),
        !v.pending.contains_key(sequence),
        push_start(v, sequence, samples) is Some,
    ensures
        ({
            let o = push_outcome(v, sequence, samples, silence);
            let buffered = v.pending.insert(sequence, samples);
            let s = push_start(v, sequence, samples)->0;
            exists|n: nat| {
                let w = #[trigger] release_walk(buffered, s, n, v.max_pending, silence, push_block(samples));
                &&& w.len() == n
                &&& forall|i: int| 0 <= i < n ==> (#[trigger] w[i]).sequence == seq_plus(s, i as nat)
                &&& forall|i: int| 0 <= i < n && !(#[trigger] w[i]).lost ==>
                    buffered.contains_key(w[i].sequence) && w[i].samples == buffered[w[i].sequence]
                &&& forall|i: int| 0 <= i < n && (#[trigger] w[i]).lost ==>
                    w[i].samples == silence_run(silence, push_block(samples))
                &&& o.emitted == played(w)
                &&& o.dropped == lost_count(w)
                &&& o.state.expected_sequence == Some(seq_plus(s, n))
                &&& !o.state.pending.contains_key(seq_plus(s, n))
                &&& o.state.pending.len() <= v.max_pending
                &&& o.state.pending == release(buffered, s, v.max_pending, silence, push_block(samples)).pending
            }
        }),
{
    let block = push_block(samples);
    let buffered = v.pending.insert(sequence, samples);
    let s = push_start(v, sequence, samples)->0;
    let o = push_outcome(v, sequence, samples, silence);
    lemma_release_walk(buffered, s, v.max_pending, silence, block);
    lemma_release_stops(buffered, s, v.max_pending, silence, block);
    let r = release(buffered, s, v.max_pending, silence, block);
    let n = choose|n: nat| {
        let w = #[trigger] release_walk(buffered, s, n, v.max_pending, silence, block);
        let r = release(buffered, s, v.max_pending, silence, block);
        &&& w.len() == n
        &&& r.emitted == played(w)
        &&& r.dropped == lost_count(w)
        &&& r.expected == seq_plus(s, n)
        &&& !r.pending.contains_key(r.expected)
        &&& r.pending.len() <= v.max_pending
    };
    lemma_release_walk_shape(buffered, s, n, v.max_pending, silence, block);
    let w = release_walk(buffered, s, n, v.max_pending, silence, block);
    assert(o.state.pending == r.pending);
    assert(o.emitted == played(w));
    assert(o.dropped == lost_count(w));
}

} // verus!
