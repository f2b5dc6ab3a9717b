//! The receiver's counters and its last error message.
use vstd::prelude::*;

verus! {

/// `c + n` on a counter that wraps around past `usize::MAX`.
pub open spec fn counter_plus(c: usize, n: nat) -> usize {
    ((c + n) % (usize::MAX + 1)) as usize
}

/// What the receiver has counted since it started, and the last error it met.
/// The counters wrap around past `usize::MAX`.
pub struct RuntimeMetrics {
    pub packets_received: usize,
    pub packets_dropped: usize,
    pub dropped_samples: usize,
    pub decrypt_failures: usize,
    pub parse_errors: usize,
    pub last_error: Option<String>,
}

impl RuntimeMetrics {
    /// All counters at zero, no error recorded.
    pub fn new() -> (m: RuntimeMetrics)
        ensures
            m.packets_received == 0,
            m.packets_dropped == 0,
            m.dropped_samples == 0,
            m.decrypt_failures == 0,
            m.parse_errors == 0,
            m.last_error is None,
    {
        RuntimeMetrics {
            packets_received: 0,
            packets_dropped: 0,
            dropped_samples: 0,
            decrypt_failures: 0,
            parse_errors: 0,
            last_error: None,
        }
    }
}

/// Records `value` as the last error; the counters stay as they are.
pub fn set_last_error(metrics: &mut RuntimeMetrics, value: String)
    ensures
        final(metrics).last_error == Some(value),
        final(metrics).packets_received == old(metrics).packets_received,
        final(metrics).packets_dropped == old(metrics).packets_dropped,
        final(metrics).dropped_samples == old(metrics).dropped_samples,
        final(metrics).decrypt_failures == old(metrics).decrypt_failures,
        final(metrics).parse_errors == old(metrics).parse_errors,
{
    metrics.last_error = Some(value);
}

/// Adds `n` to a counter, wrapping around past `usize::MAX`.
pub fn count(c: usize, n: usize) -> (r: usize)
    ensures
        r == counter_plus(c, n as nat),
{
    let r = c.wrapping_add(n);
    proof {
        let m: int = usize::MAX + 1;
        if c + n > usize::MAX {
            vstd::arithmetic::div_mod::lemma_fundamental_div_mod_converse_mod(c + n, m, 1, c + n - m);
        } else {
            vstd::arithmetic::div_mod::lemma_fundamental_div_mod_converse_mod(c + n, m, 0, c + n);
        }
    }
    r
}

/// Adding nothing leaves a counter as it is.
pub proof fn lemma_counter_plus_zero(c: usize)
    ensures
        counter_plus(c, 0) == c,
{
    vstd::arithmetic::div_mod::lemma_small_mod(c as nat, (usize::MAX + 1) as nat);
}

/// Adding in two steps is adding the total.
pub proof fn lemma_counter_plus_plus(c: usize, a: nat, b: nat)
    ensures
        counter_plus(counter_plus(c, a), b) == counter_plus(c, a + b),
{
    let m: int = usize::MAX + 1;
    let x: int = c + a;
    let y: int = b as int;
    vstd::arithmetic::div_mod::lemma_add_mod_noop(x, y, m);
    vstd::arithmetic::div_mod::lemma_add_mod_noop_right(x % m, y, m);
    vstd::arithmetic::div_mod::lemma_mod_twice(x, m);
    vstd::arithmetic::div_mod::lemma_mod_pos_bound(x, m);
    assert(counter_plus(c, a) == x % m);
}

} // verus!
