//! Blocks of audio, the queue of mono samples that they are mixed into, and the
//! windowed spectra that are taken from it.
use crate::kit::{view_inside, Complex, Kit, Model};
use crate::sizing::spectrum_length;
use std::collections::VecDeque;
use vstd::prelude::*;

verus! {

/// Interleaved samples, as they come from a capture.
pub struct AudioBlock<'a, N> {
    /// The samples, frame after frame.
    pub samples: &'a [N],
    /// The samples in a frame; none counts as one.
    pub channels: usize,
    /// The frames per second.
    pub sample_rate: N,
}

/// The channels that a count of channels stands for: none counts as one.
pub open spec fn channels_for(channels: int) -> int {
    if channels < 1 {
        1
    } else {
        channels
    }
}

impl<'a, N> AudioBlock<'a, N> {
    /// The whole frames in the block.
    pub open spec fn frames(&self) -> int {
        self.samples@.len() as int / channels_for(self.channels as int)
    }

    /// A block of the given samples.
    pub fn new(samples: &'a [N], channels: usize, sample_rate: N) -> (r: Self)
        ensures
            r.samples@ == samples@,
            r.channels == channels,
            r.sample_rate == sample_rate,
    {
        AudioBlock { samples, channels, sample_rate }
    }

    /// The channels, of which there is at least one.
    pub fn channel_count(&self) -> (r: usize)
        ensures
            r == channels_for(self.channels as int),
    {
        if self.channels < 1 {
            1
        } else {
            self.channels
        }
    }

    /// The whole frames in the block.
    pub fn frame_count(&self) -> (r: usize)
        ensures
            r == self.frames(),
    {
        self.samples.len() / self.channel_count()
    }
}

impl<K: Kit> Model<K> {
    /// `samples`, each scaled by the coefficient of `window` at its place.
    pub open spec fn windowed(self, samples: Seq<K::Num>, window: Seq<K::Num>) -> Seq<K::Num> {
        Seq::new(
            if samples.len() <= window.len() {
                samples.len()
            } else {
                window.len()
            },
            |i: int| self.times(samples[i], window[i]),
        )
    }

    /// The spectrum of `samples`, if the transform yields one of the length that
    /// `fft_size` samples have.
    pub open spec fn spectrum(
        self,
        plan: K::Plan,
        fft_size: int,
        samples: Seq<K::Num>,
    ) -> Option<Seq<Complex<K::Num>>> {
        match self.transform(plan, samples) {
            Some(bins) => if bins.len() == spectrum_length(fft_size) {
                Some(bins)
            } else {
                None
            },
            None => None,
        }
    }
}

/// The spectrum of `samples`; `None` if the transform fails or yields a spectrum of
/// another length.
pub fn spectrum<K: Kit>(plan: &K::Plan, fft_size: usize, samples: &Vec<K::Num>) -> (r: Option<
    Vec<Complex<K::Num>>,
>)
    ensures
        r is Some ==> r->0@.len() == spectrum_length(fft_size as int),
        forall|m: Model<K>| #[trigger]
            m.describes_signal() ==> view_inside(r) == m.spectrum(*plan, fft_size as int, samples@),
{
    match K::transform(plan, samples) {
        Some(bins) => if bins.len() == fft_size / 2 + 1 {
            Some(bins)
        } else {
            None
        },
        None => None,
    }
}

/// The queued samples from `start` on, windowed: `fft_size` of them, or as many as
/// the window has coefficients.
pub fn apply_window<K: Kit>(
    queue: &VecDeque<K::Num>,
    start: usize,
    fft_size: usize,
    window: &Vec<K::Num>,
) -> (r: Vec<K::Num>)
    requires
        start + fft_size <= queue@.len(),
    ensures
        forall|m: Model<K>| #[trigger]
            m.describes_arithmetic() ==> r@ == m.windowed(
                queue@.subrange(start as int, start + fft_size),
                window@,
            ),
{
    let ghost samples = queue@.subrange(start as int, start + fft_size);
    let queued = queue.len();
    let mut r: Vec<K::Num> = Vec::new();
    let mut i: usize = 0;
    while i < fft_size && i < window.len()
        invariant
            start + fft_size <= queued == queue@.len(),
            samples == queue@.subrange(start as int, start + fft_size),
            i == r@.len(),
            i <= fft_size,
            i <= window@.len(),
            forall|m: Model<K>, j: int| #[trigger]
                m.describes_arithmetic() && 0 <= j < i
                    ==> #[trigger] r@[j] == m.times(samples[j], window@[j]),
        decreases fft_size - i,
    {
        r.push(K::times(queue[start + i], window[i]));
        i += 1;
    }
    r
}

/// Takes the `n` oldest samples off the queue.
pub fn drop_front<N>(queue: &mut VecDeque<N>, n: usize)
    requires
        n <= old(queue)@.len(),
    ensures
        final(queue)@ == old(queue)@.skip(n as int),
{
    let ghost before = queue@;
    let mut i: usize = 0;
    while i < n
        invariant
            i <= n <= before.len(),
            queue@ == before.skip(i as int),
        decreases n - i,
    {
        let _ = queue.pop_front();
        i += 1;
    }
}

/// Adds a block of interleaved samples to the end of the queue, one sample a frame.
pub fn mixdown_into_deque<K: Kit>(
    queue: &mut VecDeque<K::Num>,
    samples: &[K::Num],
    channels: usize,
)
    ensures
        old(queue)@.is_prefix_of(final(queue)@),
        forall|m: Model<K>| #[trigger]
            m.describes_signal() ==> final(queue)@ == old(queue)@ + m.mixdown(
                samples@,
                channels as int,
            ),
{
    let ghost before = queue@;
    let mono = K::mixdown(samples, channels);
    let mut i: usize = 0;
    while i < mono.len()
        invariant
            i <= mono@.len(),
            queue@ == before + mono@.take(i as int),
        decreases mono.len() - i,
    {
        queue.push_back(mono[i]);
        i += 1;
    }
    assert(mono@.take(i as int) =~= mono@);
}

} // verus!
