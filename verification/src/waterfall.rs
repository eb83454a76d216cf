//! The waterfall analysis: audio in, one frame of display levels for every hop out.
use crate::audio::{apply_window, drop_front, mixdown_into_deque, spectrum};
use crate::kit::{apart, norm_sqr, rate_tolerance, Complex, Kit, Model, WindowKind};
use crate::sizing::{
    can_size, clamp_hop, fft_length, fft_length_for, hop_for, law_window_count_is_exact,
    lemma_window_count_step, spectrum_length, window_count, MIN_FFT_SIZE,
};
use std::collections::VecDeque;
use std::sync::Arc;
use vstd::prelude::*;

verus! {

/// The display bins of a frame, spaced logarithmically.
pub const WATERFALL_NUM_BINS: usize = 256;

/// The levels of the display bins at one hop, each between zero and one. Frames are
/// shared, so that handing them on is cheap.
pub type WaterfallFrame<N> = Arc<Vec<N>>;

/// What the waterfall analysis is set up with, and what it has queued.
#[verifier::reject_recursive_types(K)]
pub ghost struct WaterfallState<K: Kit> {
    /// The samples in a window.
    pub fft_size: int,
    /// The samples from one window to the next, as asked for.
    pub hop_size: int,
    /// The frames per second.
    pub sample_rate: K::Num,
    /// The transform of a window.
    pub plan: K::Plan,
    /// The coefficients of the window.
    pub window: Seq<K::Num>,
    /// The spectrum bins of each display bin: from the first to before the second.
    pub bin_map: Seq<(usize, usize)>,
    /// The gain of each display bin.
    pub tilt_weights: Seq<K::Num>,
    /// The level that is shown as zero.
    pub floor_db: K::Num,
    /// The gain per octave above a kilohertz.
    pub tilt_db_per_octave: K::Num,
    /// The samples that are queued, oldest first.
    pub queue: Seq<K::Num>,
}

/// `x`, held between `low` and `high`.
pub open spec fn held(x: int, low: int, high: int) -> int {
    if x < low {
        low
    } else if x > high {
        high
    } else {
        x
    }
}

/// The first spectrum bin of a display bin whose lower edge is in bin `floor`.
pub open spec fn range_start(floor: int, bins: int) -> int {
    held(floor, 1, bins - 1)
}

/// Where the spectrum bins of a display bin end whose edges are in bin `floor` and
/// below bin `ceil`.
pub open spec fn range_end(floor: int, ceil: int, bins: int) -> int {
    held(ceil + 1, range_start(floor, bins) + 1, bins)
}

/// Whether every display bin has spectrum bins, all of them existing and none of them
/// the constant part.
pub open spec fn ranges_wf(bin_map: Seq<(usize, usize)>, bins: int) -> bool {
    forall|i: int|
        0 <= i < bin_map.len() ==> 1 <= (#[trigger] bin_map[i]).0 < bin_map[i].1 <= bins
}

/// Whether the middle of every range can be computed: the ends add up to a number that
/// there is.
pub open spec fn can_center(bin_map: Seq<(usize, usize)>) -> bool {
    forall|i: int|
        0 <= i < bin_map.len() ==> (#[trigger] bin_map[i]).0 + bin_map[i].1 <= usize::MAX
}

impl<K: Kit> WaterfallState<K> {
    /// The display bins have spectrum bins and gains.
    pub open spec fn wf(self) -> bool {
        &&& MIN_FFT_SIZE <= self.fft_size < usize::MAX
        &&& self.bin_map.len() == WATERFALL_NUM_BINS
        &&& self.tilt_weights.len() == WATERFALL_NUM_BINS
        &&& ranges_wf(self.bin_map, spectrum_length(self.fft_size))
    }

    /// The hop in use: at least one sample, at most a window.
    pub open spec fn hop(self) -> int {
        hop_for(self.hop_size, self.fft_size)
    }

    /// The windows in the queue.
    pub open spec fn due(self) -> int {
        window_count(self.queue.len() as int, self.fft_size, self.hop())
    }
}

impl<K: Kit> Model<K> {
    /// Whether these functions account for what the display bins are laid out with.
    pub open spec fn describes_layout(self) -> bool {
        &&& self.describes_arithmetic()
        &&& self.describes_order()
        &&& self.describes_extremes()
        &&& self.describes_elementary()
    }

    /// Whether these functions account for what display levels are computed with.
    pub open spec fn describes_display(self) -> bool {
        &&& self.describes_arithmetic()
        &&& self.describes_order()
        &&& self.describes_extremes()
        &&& self.describes_decibels()
    }

    /// The highest frequency on display.
    pub open spec fn top_hz(self, sample_rate: K::Num) -> K::Num {
        self.smaller(self.ratio(20000, 1), self.times(sample_rate, self.half()))
    }

    /// The lowest frequency on display, at least one hertz.
    pub open spec fn bottom_hz(self, sample_rate: K::Num) -> K::Num {
        self.larger(
            self.smaller(
                self.ratio(20, 1),
                self.times(self.top_hz(sample_rate), self.half()),
            ),
            self.one(),
        )
    }

    /// The lower edge of display bin `i`, spaced logarithmically.
    pub open spec fn edge_hz(self, sample_rate: K::Num, i: int) -> K::Num {
        let bottom = self.bottom_hz(sample_rate);
        let span = self.larger(
            self.ln(self.over(self.top_hz(sample_rate), bottom)),
            self.ratio(1, 100),
        );
        self.exp(
            self.plus(
                self.ln(bottom),
                self.times(self.over(self.count(i), self.count(256)), span),
            ),
        )
    }

    /// Where in the spectrum the lower edge of display bin `i` is, in bins.
    pub open spec fn edge_bin(self, fft_size: int, sample_rate: K::Num, i: int) -> K::Num {
        self.over(
            self.edge_hz(sample_rate, i),
            self.over(sample_rate, self.count(fft_size)),
        )
    }

    /// The spectrum bins of display bin `i`.
    pub open spec fn bin_range(self, fft_size: int, sample_rate: K::Num, i: int) -> (int, int) {
        let floor = self.floor_index(self.edge_bin(fft_size, sample_rate, i));
        let ceil = self.ceil_index(self.edge_bin(fft_size, sample_rate, i + 1));
        let bins = spectrum_length(fft_size);
        (range_start(floor, bins), range_end(floor, ceil, bins))
    }

    /// The spectrum bins of all display bins.
    pub open spec fn bin_map(self, fft_size: int, sample_rate: K::Num) -> Seq<(usize, usize)> {
        Seq::new(
            256,
            |i: int|
                {
                    let range = self.bin_range(fft_size, sample_rate, i);
                    (range.0 as usize, range.1 as usize)
                },
        )
    }

    /// The gain of a display bin, for a tilt around one kilohertz.
    pub open spec fn tilt_weight(
        self,
        range: (usize, usize),
        fft_size: int,
        sample_rate: K::Num,
        tilt: K::Num,
    ) -> K::Num {
        self.power(
            self.ratio(10, 1),
            self.tilt_exponent(self.octaves_up(range, fft_size, sample_rate), tilt),
        )
    }

    /// The frequency in the middle of some spectrum bins, in kilohertz.
    pub open spec fn center_khz(
        self,
        range: (usize, usize),
        fft_size: int,
        sample_rate: K::Num,
    ) -> K::Num {
        let bin_hz = self.over(sample_rate, self.count(fft_size));
        let center = self.times(self.times(self.count(range.0 + range.1), self.half()), bin_hz);
        self.over(center, self.ratio(1000, 1))
    }

    /// The octaves from one kilohertz up to the middle of some spectrum bins.
    pub open spec fn octaves_up(
        self,
        range: (usize, usize),
        fft_size: int,
        sample_rate: K::Num,
    ) -> K::Num {
        self.log2(
            self.larger(self.center_khz(range, fft_size, sample_rate), self.ratio(1, 1000000)),
        )
    }

    /// The power of ten that a tilt amounts to over some octaves.
    pub open spec fn tilt_exponent(self, octaves: K::Num, tilt: K::Num) -> K::Num {
        self.over(self.times(tilt, octaves), self.ratio(20, 1))
    }

    /// The gains of all display bins: one where the tilt is negligible.
    pub open spec fn tilt_weights(
        self,
        bin_map: Seq<(usize, usize)>,
        fft_size: int,
        sample_rate: K::Num,
        tilt: K::Num,
    ) -> Seq<K::Num> {
        Seq::new(
            bin_map.len(),
            |i: int|
                if self.less(self.abs(tilt), self.ratio(1, 1000)) {
                    self.one()
                } else {
                    self.tilt_weight(bin_map[i], fft_size, sample_rate, tilt)
                },
        )
    }

    /// The state that the analysis begins in.
    pub open spec fn waterfall(
        self,
        fft_size: int,
        hop_size: int,
        sample_rate: K::Num,
    ) -> WaterfallState<K> {
        WaterfallState {
            fft_size,
            hop_size,
            sample_rate,
            plan: self.plan(fft_size),
            window: self.window(WindowKind::BlackmanHarris, fft_size),
            bin_map: self.bin_map(fft_size, sample_rate),
            tilt_weights: Seq::new(256, |i: int| self.one()),
            floor_db: self.ratio(-80, 1),
            tilt_db_per_octave: self.zero(),
            queue: seq![],
        }
    }

    /// The state once a window length, a hop and a rate are asked for. The queue is
    /// kept unless the length or the rate changes.
    pub open spec fn waterfall_rebuilt(
        self,
        state: WaterfallState<K>,
        fft_size: int,
        hop_size: int,
        sample_rate: K::Num,
    ) -> WaterfallState<K> {
        if fft_size != state.fft_size || self.apart(
            sample_rate,
            state.sample_rate,
            self.rate_tolerance(),
        ) {
            let bin_map = self.bin_map(fft_size, sample_rate);
            WaterfallState {
                tilt_weights: self.tilt_weights(
                    bin_map,
                    fft_size,
                    sample_rate,
                    state.tilt_db_per_octave,
                ),
                floor_db: state.floor_db,
                tilt_db_per_octave: state.tilt_db_per_octave,
                ..self.waterfall(fft_size, hop_size, sample_rate)
            }
        } else {
            WaterfallState { hop_size, ..state }
        }
    }

    /// The state once a tilt is asked for; a negligible change is ignored.
    pub open spec fn tilted(self, state: WaterfallState<K>, tilt: K::Num) -> WaterfallState<K> {
        if self.apart(tilt, state.tilt_db_per_octave, self.ratio(1, 1000)) {
            WaterfallState {
                tilt_db_per_octave: tilt,
                tilt_weights: self.tilt_weights(
                    state.bin_map,
                    state.fft_size,
                    state.sample_rate,
                    tilt,
                ),
                ..state
            }
        } else {
            state
        }
    }

    /// The strongest power among some spectrum bins.
    pub open spec fn strongest(
        self,
        bins: Seq<Complex<K::Num>>,
        range: (usize, usize),
        fft_size: int,
    ) -> K::Num {
        self.times(
            self.peak(
                bins.subrange(range.0 as int, range.1 as int).map_values(
                    |c: Complex<K::Num>| self.norm_sqr(c),
                ),
            ),
            self.power_scale(fft_size),
        )
    }

    /// A power as a display level: zero at the floor or below, one at zero decibels or
    /// above.
    pub open spec fn display_level(self, power: K::Num, gain: K::Num, floor_db: K::Num) -> K::Num {
        let db = self.power_to_db(self.times(self.times(power, gain), gain), self.db_floor);
        let range = self.larger(self.minus(self.zero(), floor_db), self.one());
        self.clamp(self.over(self.minus(db, floor_db), range), self.zero(), self.one())
    }

    /// The frame of a spectrum.
    pub open spec fn frame(self, state: WaterfallState<K>, bins: Seq<Complex<K::Num>>) -> Seq<
        K::Num,
    > {
        Seq::new(
            256,
            |i: int|
                self.display_level(
                    self.strongest(bins, state.bin_map[i], state.fft_size),
                    state.tilt_weights[i],
                    state.floor_db,
                ),
        )
    }

    /// The frame of the oldest window, as the only item; nothing where its transform
    /// fails.
    pub open spec fn oldest_frame(self, state: WaterfallState<K>) -> Seq<Seq<K::Num>> {
        match self.spectrum(
            state.plan,
            state.fft_size,
            self.windowed(state.queue.take(state.fft_size), state.window),
        ) {
            Some(bins) => seq![self.frame(state, bins)],
            None => seq![],
        }
    }

    /// The frames of all windows in the queue, oldest first.
    pub open spec fn frames(self, state: WaterfallState<K>) -> Seq<Seq<K::Num>>
        decreases state.queue.len(),
    {
        if state.queue.len() < state.fft_size || state.fft_size < 1 {
            seq![]
        } else {
            self.oldest_frame(state) + self.frames(
                WaterfallState { queue: state.queue.skip(state.hop()), ..state },
            )
        }
    }
}

/// The levels in each of some frames.
pub open spec fn levels<N>(frames: Seq<WaterfallFrame<N>>) -> Seq<Seq<N>> {
    Seq::new(frames.len(), |i: int| frames[i]@)
}

/// The spectrum bins of a display bin whose edges are in bin `floor` and below bin
/// `ceil`, out of `bins`: at least one, all existing, none the constant part.
pub fn clamp_range(floor: usize, ceil: usize, bins: usize) -> (r: (usize, usize))
    requires
        2 <= bins,
    ensures
        r.0 == range_start(floor as int, bins as int),
        r.1 == range_end(floor as int, ceil as int, bins as int),
        1 <= r.0 < r.1 <= bins,
{
    let start: usize = if floor < 1 {
        1
    } else if floor > bins - 1 {
        bins - 1
    } else {
        floor
    };
    let end: usize = if ceil >= bins {
        bins
    } else if ceil + 1 < start + 1 {
        start + 1
    } else {
        ceil + 1
    };
    (start, end)
}

/// The waterfall analysis.
#[verifier::reject_recursive_types(K)]
pub struct WaterfallSubProc<K: Kit> {
    plan: K::Plan,
    window: Vec<K::Num>,
    mono_buf: VecDeque<K::Num>,
    bin_map: Vec<(usize, usize)>,
    tilt_weights: Vec<K::Num>,
    /// The level that is shown as zero.
    pub floor_db: K::Num,
    /// The gain per octave above a kilohertz.
    pub tilt_db_per_octave: K::Num,
    fft_size: usize,
    hop_size: usize,
    sample_rate: K::Num,
}

impl<K: Kit> View for WaterfallSubProc<K> {
    type V = WaterfallState<K>;

    closed spec fn view(&self) -> WaterfallState<K> {
        WaterfallState {
            fft_size: self.fft_size as int,
            hop_size: self.hop_size as int,
            sample_rate: self.sample_rate,
            plan: self.plan,
            window: self.window@,
            bin_map: self.bin_map@,
            tilt_weights: self.tilt_weights@,
            floor_db: self.floor_db,
            tilt_db_per_octave: self.tilt_db_per_octave,
            queue: self.mono_buf@,
        }
    }
}

impl<K: Kit> WaterfallSubProc<K> {
    /// Sets up the analysis with windows of at least `fft_size` samples.
    pub fn new(fft_size: usize, hop_size: usize, sample_rate: K::Num) -> (r: Self)
        requires
            can_size(fft_size),
        ensures
            r@.wf(),
            r@.fft_size == fft_length_for(fft_size as int),
            r@.hop_size == hop_size,
            r@.sample_rate == sample_rate,
            r@.queue == Seq::<K::Num>::empty(),
            forall|m: Model<K>| #[trigger]
                m.describes_layout() && m.describes_signal() ==> r@ == m.waterfall(
                    fft_length_for(fft_size as int),
                    hop_size as int,
                    sample_rate,
                ),
    {
        let fft_size: usize = fft_length(fft_size);
        let plan = K::plan(fft_size);
        let window = K::window(WindowKind::BlackmanHarris, fft_size);
        let bin_map = Self::make_bin_map(fft_size, sample_rate);
        let tilt_weights = filled(K::ratio(1, 1), WATERFALL_NUM_BINS);
        let r = WaterfallSubProc {
            plan,
            window,
            mono_buf: VecDeque::new(),
            bin_map,
            tilt_weights,
            floor_db: K::ratio(-80, 1),
            tilt_db_per_octave: K::ratio(0, 1),
            fft_size,
            hop_size,
            sample_rate,
        };
        assert forall|m: Model<K>| #[trigger]
            m.describes_layout() && m.describes_signal() implies r@ == m.waterfall(
            fft_size as int,
            hop_size as int,
            sample_rate,
        ) by {
            assert(r.tilt_weights@ =~= Seq::new(256, |i: int| m.one()));
        }
        r
    }

    /// Changes the window length, the hop and the rate. Where the length or the rate
    /// changes, everything is set up anew and the queue is emptied; the tilt stays.
    pub fn rebuild_if_needed(&mut self, fft_size: usize, hop_size: usize, sample_rate: K::Num)
        requires
            old(self)@.wf(),
            can_size(fft_size),
        ensures
            final(self)@.wf(),
            final(self)@.fft_size == fft_length_for(fft_size as int),
            final(self)@.hop_size == hop_size,
            final(self)@.floor_db == old(self)@.floor_db,
            final(self)@.tilt_db_per_octave == old(self)@.tilt_db_per_octave,
            fft_length_for(fft_size as int) != old(self)@.fft_size ==> final(self)@.queue == Seq::<
                K::Num,
            >::empty(),
            forall|m: Model<K>| #[trigger]
                m.describes_layout() && m.describes_signal()
                    ==> final(self)@ == m.waterfall_rebuilt(
                    old(self)@,
                    fft_length_for(fft_size as int),
                    hop_size as int,
                    sample_rate,
                ),
    {
        let fft_size: usize = fft_length(fft_size);
        if fft_size != self.fft_size || apart::<K>(
            sample_rate,
            self.sample_rate,
            rate_tolerance::<K>(),
        ) {
            self.plan = K::plan(fft_size);
            self.window = K::window(WindowKind::BlackmanHarris, fft_size);
            self.bin_map = Self::make_bin_map(fft_size, sample_rate);
            self.tilt_weights =
            Self::make_tilt_weights(
                self.bin_map.as_slice(),
                fft_size,
                sample_rate,
                self.tilt_db_per_octave,
            );
            self.mono_buf.clear();
            self.fft_size = fft_size;
            self.sample_rate = sample_rate;
        }
        self.hop_size = hop_size;
    }

    /// The level that is shown as zero.
    pub fn floor_db(&self) -> (r: K::Num)
        ensures
            r == self@.floor_db,
    {
        self.floor_db
    }

    /// Changes the level that is shown as zero.
    pub fn set_floor_db(&mut self, floor_db: K::Num)
        ensures
            final(self)@ == (WaterfallState { floor_db, ..old(self)@ }),
    {
        self.floor_db = floor_db;
    }

    /// The gain per octave above a kilohertz.
    pub fn tilt_db_per_octave(&self) -> (r: K::Num)
        ensures
            r == self@.tilt_db_per_octave,
    {
        self.tilt_db_per_octave
    }

    /// Changes the tilt; a negligible change is ignored.
    pub fn update_tilt(&mut self, tilt_db_per_octave: K::Num)
        requires
            old(self)@.wf(),
        ensures
            final(self)@.wf(),
            final(self)@ == (WaterfallState {
                tilt_db_per_octave: final(self)@.tilt_db_per_octave,
                tilt_weights: final(self)@.tilt_weights,
                ..old(self)@
            }),
            forall|m: Model<K>| #[trigger]
                m.describes_layout() ==> final(self)@ == m.tilted(old(self)@, tilt_db_per_octave),
    {
        if apart::<K>(tilt_db_per_octave, self.tilt_db_per_octave, K::ratio(1, 1000)) {
            self.tilt_db_per_octave = tilt_db_per_octave;
            self.tilt_weights =
            Self::make_tilt_weights(
                self.bin_map.as_slice(),
                self.fft_size,
                self.sample_rate,
                tilt_db_per_octave,
            );
        }
    }

    /// Queues samples of any number of channels, one for each frame of them.
    pub fn feed(&mut self, samples: &[K::Num], channels: usize)
        ensures
            final(self)@ == (WaterfallState { queue: final(self)@.queue, ..old(self)@ }),
            old(self)@.queue.is_prefix_of(final(self)@.queue),
            forall|m: Model<K>| #[trigger]
                m.describes_signal() ==> final(self)@.queue == old(self)@.queue + m.mixdown(
                    samples@,
                    channels as int,
                ),
    {
        mixdown_into_deque::<K>(&mut self.mono_buf, samples, channels);
    }

    /// Analyses every whole window in the queue, and returns a frame for each.
    pub fn drain_frames(&mut self) -> (r: Vec<WaterfallFrame<K::Num>>)
        requires
            old(self)@.wf(),
        ensures
            final(self)@.wf(),
            final(self)@ == (WaterfallState {
                queue: old(self)@.queue.skip(old(self)@.due() * old(self)@.hop()),
                ..old(self)@
            }),
            final(self)@.queue.len() < old(self)@.fft_size,
            r@.len() <= old(self)@.due(),
            forall|i: int| 0 <= i < r@.len() ==> (#[trigger] r@[i])@.len() == WATERFALL_NUM_BINS,
            forall|m: Model<K>| #[trigger]
                m.describes_display() && m.describes_signal()
                    ==> levels(r@) == m.frames(old(self)@),
    {
        let ghost start = self@;
        let mut frames: Vec<WaterfallFrame<K::Num>> = Vec::new();
        let hop: usize = clamp_hop(self.hop_size, self.fft_size);
        let ghost mut taken: int = 0;
        proof {
            assert(taken * hop == 0) by (nonlinear_arith)
                requires
                    taken == 0,
            ;
            assert(start.queue.skip(0) =~= start.queue);
            assert forall|m: Model<K>| #[trigger]
                m.describes_display() && m.describes_signal() implies levels(frames@) + m.frames(
                self@,
            ) == m.frames(start) by {
                assert(levels(frames@) + m.frames(start) =~= m.frames(start));
            }
        }
        while self.mono_buf.len() >= self.fft_size
            invariant
                start.wf(),
                self@.wf(),
                self@ == (WaterfallState { queue: self@.queue, ..start }),
                hop == start.hop(),
                1 <= hop <= start.fft_size,
                0 <= taken,
                0 <= taken * hop <= start.queue.len(),
                self@.queue == start.queue.skip(taken * hop),
                self@.due() + taken == start.due(),
                frames@.len() <= taken,
                forall|i: int|
                    0 <= i < frames@.len() ==> (#[trigger] frames@[i])@.len() == WATERFALL_NUM_BINS,
                forall|m: Model<K>| #[trigger]
                    m.describes_display() && m.describes_signal()
                        ==> levels(frames@) + m.frames(self@) == m.frames(start),
            decreases self.mono_buf@.len(),
        {
            let ghost before = self@;
            let ghost so_far = frames@;
            let input = apply_window::<K>(&self.mono_buf, 0, self.fft_size, &self.window);
            assert(before.queue.subrange(0, before.fft_size) =~= before.queue.take(
                before.fft_size,
            ));
            match spectrum::<K>(&self.plan, self.fft_size, &input) {
                Some(bins) => {
                    frames.push(Arc::new(self.make_frame(&bins)));
                },
                None => {},
            }
            drop_front(&mut self.mono_buf, hop);
            proof {
                lemma_window_count_step(before.queue.len() as int, before.fft_size, hop as int);
                assert((taken + 1) * hop == taken * hop + hop) by (nonlinear_arith);
                assert(self@.queue =~= start.queue.skip((taken + 1) * hop));
                taken = taken + 1;
                assert forall|m: Model<K>| #[trigger]
                    m.describes_display() && m.describes_signal() implies levels(frames@)
                    + m.frames(self@) == m.frames(start) by {
                    assert(levels(frames@) =~= levels(so_far) + m.oldest_frame(before));
                    assert(m.frames(before) == m.oldest_frame(before) + m.frames(self@));
                    assert(levels(frames@) + m.frames(self@) =~= levels(so_far) + m.frames(before));
                }
            }
        }
        assert forall|m: Model<K>| #[trigger]
            m.describes_display() && m.describes_signal() implies levels(frames@) == m.frames(
            start,
        ) by {
            assert(m.frames(self@) =~= seq![]);
            assert(levels(frames@) + m.frames(self@) =~= levels(frames@));
        }
        frames
    }

    /// The frame of a spectrum: the level of the strongest spectrum bin of each
    /// display bin.
    pub fn make_frame(&self, bins: &Vec<Complex<K::Num>>) -> (r: Vec<K::Num>)
        requires
            self@.wf(),
            bins@.len() == spectrum_length(self@.fft_size),
        ensures
            r@.len() == WATERFALL_NUM_BINS,
            forall|m: Model<K>| #[trigger] m.describes_display() ==> r@ == m.frame(self@, bins@),
    {
        let size = K::count(self.fft_size);
        let scale = K::over(K::ratio(1, 1), K::times(size, size));
        let zero = K::ratio(0, 1);
        let one = K::ratio(1, 1);
        let db_range = K::larger(K::minus(zero, self.floor_db), one);
        let mut frame: Vec<K::Num> = Vec::new();
        let mut i: usize = 0;
        while i < WATERFALL_NUM_BINS
            invariant
                i <= WATERFALL_NUM_BINS,
                self@.wf(),
                bins@.len() == spectrum_length(self@.fft_size),
                frame@.len() == i,
                forall|m: Model<K>| #[trigger]
                    m.describes_display() ==> {
                        &&& scale == m.power_scale(self.fft_size as int)
                        &&& zero == m.zero()
                        &&& one == m.one()
                        &&& db_range == m.larger(m.minus(m.zero(), self.floor_db), m.one())
                    },
                forall|m: Model<K>, j: int|
                    #![trigger m.describes_display(), frame@[j]]
                    m.describes_display() && 0 <= j < i ==> frame@[j] == m.frame(self@, bins@)[j],
            decreases WATERFALL_NUM_BINS - i,
        {
            let range = self.bin_map[i];
            assert(self@.bin_map[i as int] == range);
            let power = K::times(strongest_norm::<K>(bins, range.0, range.1), scale);
            let w = self.tilt_weights[i];
            let db = K::power_to_db(K::times(K::times(power, w), w), K::db_floor());
            frame.push(K::clamp(K::over(K::minus(db, self.floor_db), db_range), zero, one));
            i += 1;
        }
        assert forall|m: Model<K>| #[trigger] m.describes_display() implies frame@ == m.frame(
            self@,
            bins@,
        ) by {
            assert(frame@ =~= m.frame(self@, bins@));
        }
        frame
    }

    fn make_bin_map(fft_size: usize, sample_rate: K::Num) -> (r: Vec<(usize, usize)>)
        requires
            MIN_FFT_SIZE <= fft_size,
        ensures
            r@.len() == WATERFALL_NUM_BINS,
            ranges_wf(r@, spectrum_length(fft_size as int)),
            forall|m: Model<K>| #[trigger]
                m.describes_layout() ==> r@ == m.bin_map(fft_size as int, sample_rate),
    {
        let spectrum_len: usize = fft_size / 2 + 1;
        let bin_hz = K::over(sample_rate, K::count(fft_size));
        let one = K::ratio(1, 1);
        let half = K::ratio(1, 2);
        let nyquist = K::times(sample_rate, half);
        let freq_max = K::smaller(K::ratio(20000, 1), nyquist);
        let freq_min = K::smaller(K::ratio(20, 1), K::times(freq_max, half));
        let bottom = K::larger(freq_min, one);
        let log_min = K::ln(bottom);
        let log_range = K::larger(K::ln(K::over(freq_max, bottom)), K::ratio(1, 100));
        let mut r: Vec<(usize, usize)> = Vec::new();
        let mut i: usize = 0;
        while i < WATERFALL_NUM_BINS
            invariant
                i <= WATERFALL_NUM_BINS,
                MIN_FFT_SIZE <= fft_size,
                spectrum_len == spectrum_length(fft_size as int),
                r@.len() == i,
                ranges_wf(r@, spectrum_length(fft_size as int)),
                forall|m: Model<K>| #[trigger]
                    m.describes_layout() ==> {
                        &&& bin_hz == m.over(sample_rate, m.count(fft_size as int))
                        &&& log_min == m.ln(m.bottom_hz(sample_rate))
                        &&& log_range == m.larger(
                            m.ln(m.over(m.top_hz(sample_rate), m.bottom_hz(sample_rate))),
                            m.ratio(1, 100),
                        )
                    },
                forall|m: Model<K>, j: int|
                    #![trigger m.describes_layout(), r@[j]]
                    m.describes_layout() && 0 <= j < i ==> r@[j] == m.bin_map(
                        fft_size as int,
                        sample_rate,
                    )[j],
            decreases WATERFALL_NUM_BINS - i,
        {
            let t0 = K::over(K::count(i), K::count(WATERFALL_NUM_BINS));
            let t1 = K::over(K::count(i + 1), K::count(WATERFALL_NUM_BINS));
            let f_lo = K::exp(K::plus(log_min, K::times(t0, log_range)));
            let f_hi = K::exp(K::plus(log_min, K::times(t1, log_range)));
            let floor: usize = K::floor_index(K::over(f_lo, bin_hz));
            let ceil: usize = K::ceil_index(K::over(f_hi, bin_hz));
            r.push(clamp_range(floor, ceil, spectrum_len));
            i += 1;
        }
        assert forall|m: Model<K>| #[trigger] m.describes_layout() implies r@ == m.bin_map(
            fft_size as int,
            sample_rate,
        ) by {
            assert(r@ =~= m.bin_map(fft_size as int, sample_rate));
        }
        r
    }

    /// The gains of display bins with the given spectrum bins, for a tilt around one
    /// kilohertz; one for each where the tilt is negligible.
    pub fn make_tilt_weights(
        bin_map: &[(usize, usize)],
        fft_size: usize,
        sample_rate: K::Num,
        tilt_db_per_oct: K::Num,
    ) -> (r: Vec<K::Num>)
        requires
            can_center(bin_map@),
        ensures
            r@.len() == bin_map@.len(),
            forall|m: Model<K>| #[trigger]
                m.describes_layout() ==> r@ == m.tilt_weights(
                    bin_map@,
                    fft_size as int,
                    sample_rate,
                    tilt_db_per_oct,
                ),
    {
        if K::less(K::abs(tilt_db_per_oct), K::ratio(1, 1000)) {
            let r = filled(K::ratio(1, 1), bin_map.len());
            assert forall|m: Model<K>| #[trigger] m.describes_layout() implies r@ == m.tilt_weights(
                bin_map@,
                fft_size as int,
                sample_rate,
                tilt_db_per_oct,
            ) by {
                assert(r@ =~= m.tilt_weights(
                    bin_map@,
                    fft_size as int,
                    sample_rate,
                    tilt_db_per_oct,
                ));
            }
            return r;
        }
        let bin_hz = K::over(sample_rate, K::count(fft_size));
        let mut r: Vec<K::Num> = Vec::new();
        let mut i: usize = 0;
        while i < bin_map.len()
            invariant
                i <= bin_map@.len(),
                can_center(bin_map@),
                r@.len() == i,
                forall|m: Model<K>| #[trigger]
                    m.describes_layout()
                        ==> bin_hz == m.over(sample_rate, m.count(fft_size as int)),
                forall|m: Model<K>, j: int|
                    #![trigger m.describes_layout(), r@[j]]
                    m.describes_layout() && 0 <= j < i ==> r@[j] == m.tilt_weight(
                        bin_map@[j],
                        fft_size as int,
                        sample_rate,
                        tilt_db_per_oct,
                    ),
            decreases bin_map@.len() - i,
        {
            let range = bin_map[i];
            assert(bin_map@[i as int] == range);
            let center_hz = K::times(
                K::times(K::count(range.0 + range.1), K::ratio(1, 2)),
                bin_hz,
            );
            let octaves = K::log2(
                K::larger(K::over(center_hz, K::ratio(1000, 1)), K::ratio(1, 1000000)),
            );
            r.push(
                K::power(
                    K::ratio(10, 1),
                    K::over(K::times(tilt_db_per_oct, octaves), K::ratio(20, 1)),
                ),
            );
            i += 1;
        }
        assert forall|m: Model<K>| #[trigger] m.describes_layout() implies r@ == m.tilt_weights(
            bin_map@,
            fft_size as int,
            sample_rate,
            tilt_db_per_oct,
        ) by {
            assert(r@ =~= m.tilt_weights(bin_map@, fft_size as int, sample_rate, tilt_db_per_oct));
        }
        r
    }
}

/// A vector that holds `value` `n` times.
fn filled<N: Copy>(value: N, n: usize) -> (r: Vec<N>)
    ensures
        r@ == Seq::new(n as nat, |i: int| value),
{
    let mut r: Vec<N> = Vec::new();
    let mut i: usize = 0;
    while i < n
        invariant
            i <= n,
            r@ == Seq::new(i as nat, |j: int| value),
        decreases n - i,
    {
        r.push(value);
        i += 1;
    }
    r
}

/// The largest squared magnitude among the spectrum bins from `lo` to before `hi`.
fn strongest_norm<K: Kit>(bins: &Vec<Complex<K::Num>>, lo: usize, hi: usize) -> (r: K::Num)
    requires
        lo <= hi <= bins@.len(),
    ensures
        forall|m: Model<K>| #[trigger]
            m.describes_arithmetic() && m.describes_extremes() ==> r == m.peak(
                bins@.subrange(lo as int, hi as int).map_values(
                    |c: Complex<K::Num>| m.norm_sqr(c),
                ),
            ),
{
    let mut peak = K::ratio(0, 1);
    let mut i: usize = lo;
    while i < hi
        invariant
            lo <= i <= hi <= bins@.len(),
            forall|m: Model<K>| #[trigger]
                m.describes_arithmetic() && m.describes_extremes() ==> peak == m.peak(
                    bins@.subrange(lo as int, i as int).map_values(
                        |c: Complex<K::Num>| m.norm_sqr(c),
                    ),
                ),
        decreases hi - i,
    {
        let norm = norm_sqr::<K>(bins[i]);
        peak = K::larger(peak, norm);
        assert forall|m: Model<K>| #[trigger]
            m.describes_arithmetic() && m.describes_extremes() implies peak == m.peak(
            bins@.subrange(lo as int, i + 1).map_values(|c: Complex<K::Num>| m.norm_sqr(c)),
        ) by {
            let norms = bins@.subrange(lo as int, i + 1).map_values(
                |c: Complex<K::Num>| m.norm_sqr(c),
            );
            assert(norms.drop_last() =~= bins@.subrange(lo as int, i as int).map_values(
                |c: Complex<K::Num>| m.norm_sqr(c),
            ));
        }
        i += 1;
    }
    peak
}

impl<K: Kit> WaterfallState<K> {
    /// The state once every whole window was taken off the queue.
    pub open spec fn drained(self) -> WaterfallState<K> {
        WaterfallState { queue: self.queue.skip(self.due() * self.hop()), ..self }
    }

    /// The state once `mono` was queued.
    pub open spec fn fed(self, mono: Seq<K::Num>) -> WaterfallState<K> {
        WaterfallState { queue: self.queue + mono, ..self }
    }

    /// The samples of the `i`-th window in the queue.
    pub open spec fn nth_window(self, i: int) -> Seq<K::Num> {
        self.queue.subrange(i * self.hop(), i * self.hop() + self.fft_size)
    }

    /// The state after one window was taken off the queue.
    spec fn advanced(self) -> WaterfallState<K> {
        WaterfallState { queue: self.queue.skip(self.hop()), ..self }
    }
}

/// Taking off one window and then the rest takes off all of them.
proof fn lemma_advance_then_drain<K: Kit>(state: WaterfallState<K>)
    requires
        1 <= state.fft_size <= state.queue.len(),
    ensures
        state.due() == state.advanced().due() + 1,
        state.due() * state.hop() == state.advanced().due() * state.hop() + state.hop(),
        state.drained() == state.advanced().drained(),
{
    let hop = state.hop();
    let queued = state.queue.len() as int;
    let rest = state.advanced().due();
    lemma_window_count_step(queued, state.fft_size, hop);
    law_window_count_is_exact(queued - hop, state.fft_size, hop);
    assert((rest + 1) * hop == rest * hop + hop) by (nonlinear_arith);
    lemma_taken_fits(queued - hop, state.fft_size, hop);
    assert(state.drained().queue =~= state.advanced().drained().queue);
}

/// What is taken off a queue was in it.
proof fn lemma_taken_fits(queued: int, size: int, hop: int)
    requires
        0 <= queued,
        1 <= hop <= size,
    ensures
        0 <= window_count(queued, size, hop) * hop <= queued,
{
    law_window_count_is_exact(queued, size, hop);
    let n = window_count(queued, size, hop);
    assert(n > 0 ==> n * hop == (n - 1) * hop + hop) by (nonlinear_arith);
    assert(n == 0 ==> n * hop == 0) by (nonlinear_arith);
    assert(0 <= n * hop) by (nonlinear_arith)
        requires
            0 <= n,
            0 <= hop,
    ;
}

/// Draining leaves less than a window, so that draining again yields nothing.
pub proof fn law_nothing_left_to_drain<K: Kit>(m: Model<K>, state: WaterfallState<K>)
    requires
        1 <= state.fft_size,
    ensures
        state.drained().queue.len() < state.fft_size,
        state.drained().due() == 0,
        state.drained().drained() == state.drained(),
        m.frames(state.drained()) == Seq::<Seq<K::Num>>::empty(),
{
    let queued = state.queue.len() as int;
    law_window_count_is_exact(queued, state.fft_size, state.hop());
    lemma_taken_fits(queued, state.fft_size, state.hop());
    let left = state.drained();
    assert(left.due() * left.hop() == 0) by (nonlinear_arith)
        requires
            left.due() == 0,
    ;
    assert(left.drained().queue =~= left.queue);
}

/// How audio is cut into feeds does not matter: draining after a first part and again
/// after a second yields the frames, and leaves the samples, of draining once after
/// both.
pub proof fn law_feeding_in_parts_changes_nothing<K: Kit>(
    m: Model<K>,
    state: WaterfallState<K>,
    mono: Seq<K::Num>,
)
    requires
        1 <= state.fft_size,
    ensures
        m.frames(state.fed(mono)) == m.frames(state) + m.frames(state.drained().fed(mono)),
        state.fed(mono).drained() == state.drained().fed(mono).drained(),
    decreases state.queue.len(),
{
    let whole = state.fed(mono);
    if state.queue.len() < state.fft_size {
        assert(state.due() * state.hop() == 0) by (nonlinear_arith)
            requires
                state.due() == 0,
        ;
        assert(state.queue.skip(0) =~= state.queue);
        assert(state.drained() == state);
        assert(m.frames(state) + m.frames(whole) =~= m.frames(whole));
    } else {
        let next = state.advanced();
        law_feeding_in_parts_changes_nothing(m, next, mono);
        assert(whole.advanced().queue =~= next.fed(mono).queue);
        lemma_advance_then_drain(state);
        lemma_advance_then_drain(whole);
        assert(whole.queue.take(state.fft_size) =~= state.queue.take(state.fft_size));
        assert(m.oldest_frame(whole) == m.oldest_frame(state));
        assert(m.frames(whole) == m.oldest_frame(state) + m.frames(next.fed(mono)));
        assert(m.frames(state) == m.oldest_frame(state) + m.frames(next));
        assert(m.frames(whole) =~= m.frames(state) + m.frames(state.drained().fed(mono)));
    }
}

impl<K: Kit> Model<K> {
    /// Whether the window and the transform serve windows of `fft_size` samples.
    pub open spec fn transforms(self, state: WaterfallState<K>) -> bool {
        &&& state.window.len() == state.fft_size
        &&& forall|samples: Seq<K::Num>|
            samples.len() == state.fft_size ==> (#[trigger] self.spectrum(
                state.plan,
                state.fft_size,
                samples,
            )) is Some
    }

    /// The frame of some samples, where the transform serves them.
    pub open spec fn frame_of(self, state: WaterfallState<K>, samples: Seq<K::Num>) -> Seq<K::Num> {
        self.frame(
            state,
            self.spectrum(state.plan, state.fft_size, self.windowed(samples, state.window))->0,
        )
    }
}

/// Where no transform fails, there is one frame for every whole window, and the `i`-th
/// frame shows the samples that begin `i` hops into the queue.
pub proof fn law_one_frame_per_window<K: Kit>(m: Model<K>, state: WaterfallState<K>)
    requires
        1 <= state.fft_size,
        m.transforms(state),
    ensures
        m.frames(state).len() == state.due(),
        forall|i: int|
            0 <= i < state.due() ==> #[trigger] m.frames(state)[i] == m.frame_of(
                state,
                state.nth_window(i),
            ),
    decreases state.queue.len(),
{
    let hop = state.hop();
    if state.queue.len() >= state.fft_size {
        let next = state.advanced();
        law_one_frame_per_window(m, next);
        lemma_advance_then_drain(state);
        let queued = state.queue.len() as int;
        law_window_count_is_exact(queued, state.fft_size, hop);
        assert forall|i: int| 0 <= i < state.due() implies #[trigger] m.frames(state)[i]
            == m.frame_of(state, state.nth_window(i)) by {
            if i == 0 {
                assert(i * hop == 0) by (nonlinear_arith)
                    requires
                        i == 0,
                ;
                assert(state.nth_window(0) =~= state.queue.take(state.fft_size));
            } else {
                assert(i * hop == (i - 1) * hop + hop) by (nonlinear_arith);
                assert(0 <= (i - 1) * hop) by (nonlinear_arith)
                    requires
                        1 <= i,
                        1 <= hop,
                ;
                assert(i * hop <= (state.due() - 1) * hop) by (nonlinear_arith)
                    requires
                        i <= state.due() - 1,
                        1 <= hop,
                ;
                assert(m.frames(state)[i] == m.frames(next)[i - 1]);
                assert(state.nth_window(i) =~= next.nth_window(i - 1));
                assert(m.frame_of(next, next.nth_window(i - 1)) == m.frame_of(
                    state,
                    next.nth_window(i - 1),
                ));
            }
        }
    }
}

/// Every level of every frame that is a number is between zero and one, where what is
/// held between two bounds is between them if it is a number.
pub proof fn law_levels_are_between_zero_and_one<K: Kit>(
    m: Model<K>,
    state: WaterfallState<K>,
    i: int,
    j: int,
)
    requires
        0 <= i < m.frames(state).len(),
        0 <= j < WATERFALL_NUM_BINS,
        forall|x: K::Num|
            ({
                let held = #[trigger] m.clamp(x, m.zero(), m.one());
                m.at_most(held, held) ==> m.at_most(m.zero(), held) && m.at_most(held, m.one())
            }),
    ensures
        m.frames(state)[i].len() == WATERFALL_NUM_BINS,
        ({
            let level = m.frames(state)[i][j];
            m.at_most(level, level) ==> m.at_most(m.zero(), level) && m.at_most(level, m.one())
        }),
    decreases state.queue.len(),
{
    if state.queue.len() >= state.fft_size && state.fft_size >= 1 {
        let first = m.oldest_frame(state);
        if i >= first.len() {
            law_levels_are_between_zero_and_one(m, state.advanced(), i - first.len(), j);
        }
    }
}

/// Asking for the length and the rate in use changes the hop alone, where the rate is
/// at no distance from itself.
pub proof fn law_same_length_keeps_the_queue<K: Kit>(
    m: Model<K>,
    state: WaterfallState<K>,
    hop_size: int,
)
    requires
        !m.apart(state.sample_rate, state.sample_rate, m.rate_tolerance()),
    ensures
        m.waterfall_rebuilt(state, state.fft_size, hop_size, state.sample_rate) == (
        WaterfallState { hop_size, ..state }),
{
}

/// A new analysis has the gains of its tilt, where zero is a negligible tilt.
pub proof fn law_begins_without_tilt<K: Kit>(
    m: Model<K>,
    fft_size: int,
    hop_size: int,
    sample_rate: K::Num,
)
    requires
        m.less(m.abs(m.zero()), m.ratio(1, 1000)),
    ensures
        ({
            let state = m.waterfall(fft_size, hop_size, sample_rate);
            state.tilt_weights == m.tilt_weights(
                state.bin_map,
                fft_size,
                sample_rate,
                state.tilt_db_per_octave,
            )
        }),
{
    let state = m.waterfall(fft_size, hop_size, sample_rate);
    assert(state.tilt_weights =~= m.tilt_weights(
        state.bin_map,
        fft_size,
        sample_rate,
        m.zero(),
    ));
}

/// Changes of settings keep the gains those of the tilt.
pub proof fn law_gains_follow_the_tilt<K: Kit>(
    m: Model<K>,
    state: WaterfallState<K>,
    fft_size: int,
    hop_size: int,
    sample_rate: K::Num,
    tilt: K::Num,
)
    requires
        state.tilt_weights == m.tilt_weights(
            state.bin_map,
            state.fft_size,
            state.sample_rate,
            state.tilt_db_per_octave,
        ),
    ensures
        ({
            let rebuilt = m.waterfall_rebuilt(state, fft_size, hop_size, sample_rate);
            rebuilt.tilt_weights == m.tilt_weights(
                rebuilt.bin_map,
                rebuilt.fft_size,
                rebuilt.sample_rate,
                rebuilt.tilt_db_per_octave,
            )
        }),
        ({
            let tilted = m.tilted(state, tilt);
            tilted.tilt_weights == m.tilt_weights(
                tilted.bin_map,
                tilted.fft_size,
                tilted.sample_rate,
                tilted.tilt_db_per_octave,
            )
        }),
{
}

} // verus!
