//! Transform lengths and hops: how long an analysis window is, how far it advances,
//! and how many windows fit in what has been queued.
use vstd::arithmetic::div_mod::{
    lemma_basic_div, lemma_div_minus_one, lemma_div_pos_is_pos, lemma_fundamental_div_mod,
};
use vstd::arithmetic::power2::{
    lemma2_to64, lemma_pow2_pos, lemma_pow2_strictly_increases, lemma_pow2_unfold, pow2,
};
use vstd::prelude::*;

verus! {

/// The shortest transform in use.
pub const MIN_FFT_SIZE: usize = 64;

/// `p` doubled until it is at least `n`.
pub open spec fn doubled_to(p: int, n: int) -> int
    decreases (if p < n { n - p } else { 0 }),
{
    if p <= 0 || p >= n {
        p
    } else {
        doubled_to(2 * p, n)
    }
}

/// The length of the transform that serves a request for `requested` samples.
pub open spec fn fft_length_for(requested: int) -> int {
    doubled_to(MIN_FFT_SIZE as int, requested)
}

/// The bins of a real transform of `fft_size` samples.
pub open spec fn spectrum_length(fft_size: int) -> int {
    fft_size / 2 + 1
}

/// The greatest length that a request may have: beyond it there is no power of two.
pub open spec fn can_size(requested: usize) -> bool {
    requested <= usize::MAX / 2 + 1
}

/// Whether `p` is a power of two.
pub open spec fn is_power_of_two(p: int) -> bool {
    exists|k: nat| p == #[trigger] pow2(k)
}

/// How far a window of `fft_size` samples advances when `hop_size` is asked for.
pub open spec fn hop_for(hop_size: int, fft_size: int) -> int {
    if hop_size < 1 {
        1
    } else if hop_size > fft_size {
        fft_size
    } else {
        hop_size
    }
}

/// The windows of `size` samples, each `hop` after the one before, in `queued` samples.
pub open spec fn window_count(queued: int, size: int, hop: int) -> int {
    if queued < size {
        0
    } else {
        (queued - size) / hop + 1
    }
}

/// The length of the transform for a request: the least power of two that is at
/// least `requested` and at least the minimum.
pub fn fft_length(requested: usize) -> (r: usize)
    requires
        can_size(requested),
    ensures
        r == fft_length_for(requested as int),
        MIN_FFT_SIZE <= r,
        requested <= r,
        r < usize::MAX,
{
    let mut p: usize = MIN_FFT_SIZE;
    while p < requested
        invariant
            MIN_FFT_SIZE <= p < usize::MAX,
            requested <= usize::MAX / 2 + 1,
            doubled_to(p as int, requested as int) == fft_length_for(requested as int),
        decreases (if p < requested { requested - p } else { 0 }),
    {
        p = p * 2;
    }
    p
}

/// The hop, held between one sample and a whole window.
pub fn clamp_hop(hop_size: usize, fft_size: usize) -> (r: usize)
    requires
        1 <= fft_size,
    ensures
        r == hop_for(hop_size as int, fft_size as int),
        1 <= r <= fft_size,
{
    if hop_size < 1 {
        1
    } else if hop_size > fft_size {
        fft_size
    } else {
        hop_size
    }
}

/// A power of two, doubled until it is at least `n`, is still a power of two, and the
/// least one that is at least `n` and at least where the doubling began.
proof fn lemma_doubled_to(k: nat, n: int)
    ensures
        is_power_of_two(doubled_to(pow2(k) as int, n)),
        doubled_to(pow2(k) as int, n) >= n,
        doubled_to(pow2(k) as int, n) >= pow2(k),
        forall|j: nat| j >= k && #[trigger]
            pow2(j) >= n ==> doubled_to(pow2(k) as int, n) <= pow2(j),
    decreases (if pow2(k) < n { n - pow2(k) } else { 0 }),
{
    lemma_pow2_pos(k);
    if pow2(k) >= n {
        assert forall|j: nat| j >= k && #[trigger] pow2(j) >= n implies pow2(k) <= pow2(j) by {
            if j > k {
                lemma_pow2_strictly_increases(k, j);
            }
        }
    } else {
        lemma_pow2_unfold(k + 1);
        lemma_doubled_to(k + 1, n);
        assert forall|j: nat| j >= k && #[trigger] pow2(j) >= n implies doubled_to(
            pow2(k) as int,
            n,
        ) <= pow2(j) by {
            assert(j != k);
        }
    }
}

/// The transform length is the least power of two that covers the request and the
/// minimum.
pub proof fn law_fft_length_is_least_power(requested: int)
    ensures
        is_power_of_two(fft_length_for(requested)),
        fft_length_for(requested) >= requested,
        fft_length_for(requested) >= MIN_FFT_SIZE,
        forall|p: int|
            #[trigger] is_power_of_two(p) && p >= requested && p >= MIN_FFT_SIZE
                ==> fft_length_for(requested) <= p,
{
    lemma2_to64();
    lemma_doubled_to(6, requested);
    assert forall|p: int|
        #[trigger] is_power_of_two(p) && p >= requested && p >= MIN_FFT_SIZE implies fft_length_for(
        requested,
    ) <= p by {
        let j = choose|j: nat| p == #[trigger] pow2(j);
        if j < 6 {
            lemma_pow2_strictly_increases(j, 6);
        }
    }
}

/// Asking for a length that was granted grants it again.
pub proof fn law_fft_length_is_stable(requested: int)
    ensures
        fft_length_for(fft_length_for(requested)) == fft_length_for(requested),
{
    let granted = fft_length_for(requested);
    law_fft_length_is_least_power(requested);
    law_fft_length_is_least_power(granted);
}

/// A longer request is never served by a shorter transform.
pub proof fn law_fft_length_is_monotone(shorter: int, longer: int)
    requires
        shorter <= longer,
    ensures
        fft_length_for(shorter) <= fft_length_for(longer),
{
    law_fft_length_is_least_power(shorter);
    law_fft_length_is_least_power(longer);
}

/// Exactly `window_count` windows fit: the last of them ends within what is queued,
/// and one more would not.
pub proof fn law_window_count_is_exact(queued: int, size: int, hop: int)
    requires
        0 <= queued,
        1 <= hop <= size,
    ensures
        window_count(queued, size, hop) >= 0,
        window_count(queued, size, hop) > 0 ==> (window_count(queued, size, hop) - 1) * hop + size
            <= queued,
        queued < window_count(queued, size, hop) * hop + size,
{
    if queued >= size {
        let q = (queued - size) / hop;
        lemma_fundamental_div_mod(queued - size, hop);
        lemma_div_pos_is_pos(queued - size, hop);
        assert(hop * q == q * hop) by (nonlinear_arith);
        assert((q + 1) * hop == q * hop + hop) by (nonlinear_arith);
    }
}

/// Taking one window off the queue leaves one window fewer.
pub proof fn lemma_window_count_step(queued: int, size: int, hop: int)
    requires
        1 <= hop <= size <= queued,
    ensures
        window_count(queued, size, hop) == window_count(queued - hop, size, hop) + 1,
{
    let rest = queued - size;
    if rest < hop {
        lemma_basic_div(rest, hop);
    } else {
        lemma_div_minus_one(rest, hop);
    }
}

} // verus!
