//! Feeding the output device: one queued sample per output frame, and the
//! choice of the output device by name.
use std::collections::VecDeque;
use vstd::prelude::*;
use crate::jitter::silence_run;

verus! {

/// How many frames of `channels` samples an output buffer of `len` samples
/// holds; a last, partial frame counts.
pub open spec fn frame_count_of(len: nat, channels: nat) -> nat {
    if len % channels == 0 { len / channels } else { len / channels + 1 }
}

/// The number of frames in an output buffer of `len` interleaved samples.
pub fn frame_count(len: usize, channels: usize) -> (r: usize)
    requires
        channels > 0,
    ensures
        r == frame_count_of(len as nat, channels as nat),
{
    let whole = len / channels;
    if len % channels == 0 {
        whole
    } else {
        proof {
            assert(channels != 1);
            vstd::arithmetic::div_mod::lemma_div_is_ordered_by_denominator(len as int, 2, channels as int);
        }
        whole + 1
    }
}

/// The samples for the next `frames` output frames: the oldest queued ones,
/// then silence once the queue runs dry; they leave the queue.
pub fn next_frame_samples<T: Copy>(queue: &mut VecDeque<T>, frames: usize, silence: T) -> (r: Vec<T>)
    ensures
        ({
            let taken = if frames <= old(queue)@.len() { frames as int } else { old(queue)@.len() as int };
            &&& r@ == old(queue)@.take(taken) + silence_run(silence, (frames - taken) as nat)
            &&& final(queue)@ == old(queue)@.skip(taken)
        }),
{
    let ghost q0 = queue@;
    let mut r: Vec<T> = Vec::new();
    let mut i: usize = 0;
    while i < frames
        invariant
            i <= frames,
            ({
                let taken = if i <= q0.len() { i as int } else { q0.len() as int };
                &&& r@ == q0.take(taken) + silence_run(silence, (i - taken) as nat)
                &&& queue@ == q0.skip(taken)
            }),
        decreases frames - i,
    {
        let ghost before = r@;
        match queue.pop_front() {
            Some(s) => {
                r.push(s);
                assert(q0.take(i + 1) =~= q0.take(i as int).push(s));
                assert(q0.skip(i + 1) =~= q0.skip(i as int).subrange(1, q0.skip(i as int).len() as int));
                assert(silence_run(silence, 0) =~= Seq::<T>::empty());
            },
            None => {
                r.push(silence);
                let ghost taken = q0.len() as int;
                assert(silence_run(silence, (i + 1 - taken) as nat)
                    =~= silence_run(silence, (i - taken) as nat).push(silence));
            },
        }
        i = i + 1;
    }
    r
}

/// The lower-case form of a text, as `str::to_lowercase` gives it (Unicode
/// `Lowercase_Mapping`).
pub uninterp spec fn lowercase(s: Seq<char>) -> Seq<char>;

/// Lower-cases `s` with `str::to_lowercase`.
/// Trusted: the result's text is `lowercase` of the argument's.
#[verifier::external_body]
fn to_lowercase(s: &str) -> (r: String)
    ensures
        r@ == lowercase(s@),
{
    s.to_lowercase()
}

/// Device `i` bears a name that matches `preferred` regardless of case.
pub open spec fn name_matches(names: Seq<Option<String>>, i: int, preferred: Seq<char>) -> bool {
    names[i] matches Some(n) && lowercase(n@) == lowercase(preferred)
}

/// The first device, in the order listed, whose name matches `preferred`
/// regardless of case; devices whose name could not be read are `None`.
pub fn select_device_index(names: &Vec<Option<String>>, preferred: &str) -> (r: Option<usize>)
    ensures
        match r {
            Some(i) => i < names@.len() && name_matches(names@, i as int, preferred@)
                && forall|j: int| 0 <= j < i ==> !name_matches(names@, j, preferred@),
            None => forall|j: int| 0 <= j < names@.len() ==> !name_matches(names@, j, preferred@),
        },
{
    let target = to_lowercase(preferred);
    let mut i: usize = 0;
    while i < names.len()
        invariant
            i <= names@.len(),
            target@ == lowercase(preferred@),
            forall|j: int| 0 <= j < i ==> !name_matches(names@, j, preferred@),
        decreases names@.len() - i,
    {
        match &names[i] {
            Some(name) => {
                let lowered = to_lowercase(name.as_str());
                if lowered == target {
                    return Some(i);
                }
            },
            None => {},
        }
        i = i + 1;
    }
    None
}

/// Writes `values[f]` into every channel slot of output frame `f`: slot `i`
/// of the interleaved buffer gets the value of frame `i / channels`.
pub fn fill_frames<T: Copy>(output: &mut [T], channels: usize, values: &Vec<T>)
    requires
        channels > 0,
        values@.len() == frame_count_of(old(output)@.len(), channels as nat),
    ensures
        final(output)@.len() == old(output)@.len(),
        forall|i: int| 0 <= i < final(output)@.len() ==> #[trigger] final(output)@[i] == values@[i / channels as int],
{
    let len = output.len();
    let ghost c = channels as int;
    proof {
        let q = len as int / c;
        let r = len as int % c;
        vstd::arithmetic::div_mod::lemma_fundamental_div_mod(len as int, c);
        vstd::arithmetic::div_mod::lemma_mod_pos_bound(len as int, c);
        assert(values@.len() * c >= len) by (nonlinear_arith)
            requires
                len == c * q + r,
                0 <= r < c,
                values@.len() == if r == 0 { q } else { q + 1 };
    }
    let mut i: usize = 0;
    let mut frame: usize = 0;
    let mut slot: usize = 0;
    while i < len
        invariant
            len == output@.len(),
            c == channels as int,
            c > 0,
            values@.len() * c >= len,
            i <= len,
            slot < channels,
            i == frame * c + slot,
            forall|k: int| 0 <= k < i ==> #[trigger] output@[k] == values@[k / c],
        decreases len - i,
    {
        proof {
            vstd::arithmetic::div_mod::lemma_fundamental_div_mod_converse_div(i as int, c, frame as int, slot as int);
            assert(frame < values@.len()) by (nonlinear_arith)
                requires
                    i == frame * c + slot,
                    i < len,
                    values@.len() * c >= len,
                    c > 0,
                    slot >= 0;
        }
        output[i] = values[frame];
        i = i + 1;
        if slot + 1 == channels {
            let ghost f0 = frame as int;
            slot = 0;
            frame = frame + 1;
            proof {
                assert(f0 * c + c == (f0 + 1) * c) by (nonlinear_arith);
            }
        } else {
            slot = slot + 1;
        }
    }
}

} // verus!
