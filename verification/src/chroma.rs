//! The pitch class meter: audio in, a smoothed level and a decaying peak for each of
//! the twelve pitch classes out.
//!
//! Two bands are analysed at every hop: a long window for the bass register, where
//! semitones are a few hertz apart, and a short one for the treble. Both look at the
//! latest samples.
use crate::audio::{channels_for, drop_front, mixdown_into_deque, AudioBlock};
use crate::band::{law_a_higher_gate_adds_nothing, law_gate_silences, tail_of, Band, BandFft};
use crate::kit::{apart, rate_tolerance, Kit, Model};
use crate::sizing::{
    clamp_hop, doubled_to, fft_length_for, hop_for, lemma_window_count_step, window_count,
};
use std::collections::VecDeque;
use vstd::prelude::*;

verus! {

/// The hop of the default configuration.
pub const DEFAULT_HOP_SIZE: usize = 1024;

/// The window of the bass band.
pub const LO_FFT_SIZE: usize = 16384;

/// The window of the treble band.
pub const HI_FFT_SIZE: usize = 2048;

/// The settings of the meter.
#[derive(Debug, Clone, Copy)]
#[verifier::reject_recursive_types(K)]
pub struct ChromaConfig<K: Kit> {
    /// The frames per second.
    pub sample_rate: K::Num,
    /// How quickly levels follow: 0 is slow, 1 instant.
    pub smoothing: K::Num,
    /// The noise gate: bins below this level are left out.
    pub floor_db: K::Num,
    /// What a peak is multiplied by at every hop; below one.
    pub peak_decay: K::Num,
    /// The tuning of A4, in hertz.
    pub reference_hz: K::Num,
    /// The samples from one analysis to the next.
    pub hop_size: usize,
    /// The lowest frequency that counts.
    pub min_freq_hz: K::Num,
    /// The highest frequency that counts.
    pub max_freq_hz: K::Num,
}

/// The levels and peaks of the pitch classes, C first.
#[derive(Debug, Clone, Copy, Default)]
pub struct ChromaSnapshot<N> {
    /// The smoothed levels.
    pub bins: [N; 12],
    /// The decaying peaks.
    pub peak_bins: [N; 12],
}

/// The state of the meter.
#[verifier::reject_recursive_types(K)]
pub ghost struct ChromaState<K: Kit> {
    /// The settings.
    pub config: ChromaConfig<K>,
    /// The bass band.
    pub lo: Band<K>,
    /// The treble band.
    pub hi: Band<K>,
    /// The samples that are queued, oldest first.
    pub queue: Seq<K::Num>,
    /// The smoothed levels of the classes.
    pub smoothed: Seq<K::Num>,
    /// The peaks of the classes.
    pub peaks: Seq<K::Num>,
    /// The levels that were shown last.
    pub shown_bins: Seq<K::Num>,
    /// The peaks that were shown last.
    pub shown_peaks: Seq<K::Num>,
}

impl<K: Kit> ChromaConfig<K> {
    /// The hop in use: at least one sample, at most the bass window.
    pub open spec fn hop(self) -> int {
        hop_for(self.hop_size as int, LO_FFT_SIZE as int)
    }
}

impl<K: Kit> ChromaState<K> {
    /// One value for each class.
    pub open spec fn wf(self) -> bool {
        &&& self.smoothed.len() == 12
        &&& self.peaks.len() == 12
        &&& self.shown_bins.len() == 12
        &&& self.shown_peaks.len() == 12
    }
}

impl<K: Kit> Model<K> {
    /// Whether these functions account for what energies are measured with.
    pub open spec fn describes_hearing(self) -> bool {
        &&& self.describes_gating()
        &&& self.describes_signal()
    }

    /// Whether these functions account for what levels and peaks are moved with.
    pub open spec fn describes_easing(self) -> bool {
        &&& self.describes_arithmetic()
        &&& self.describes_order()
        &&& self.describes_extremes()
    }

    /// Whether these functions account for everything that the meter makes use of.
    pub open spec fn describes_meter(self) -> bool {
        &&& self.describes_bands()
        &&& self.describes_hearing()
        &&& self.describes_easing()
    }

    /// The default settings.
    pub open spec fn default_config(self) -> ChromaConfig<K> {
        ChromaConfig {
            sample_rate: self.default_sample_rate,
            smoothing: self.ratio(7, 100),
            floor_db: self.ratio(-70, 1),
            peak_decay: self.ratio(997, 1000),
            reference_hz: self.ratio(440, 1),
            hop_size: DEFAULT_HOP_SIZE,
            min_freq_hz: self.ratio(275, 10),
            max_freq_hz: self.ratio(4186, 1),
        }
    }

    /// Whether a change of settings calls for new bands.
    pub open spec fn needs_rebuild(self, from: ChromaConfig<K>, to: ChromaConfig<K>) -> bool {
        ||| self.apart(to.sample_rate, from.sample_rate, self.rate_tolerance())
        ||| self.apart(to.min_freq_hz, from.min_freq_hz, self.ratio(1, 100))
        ||| self.apart(to.max_freq_hz, from.max_freq_hz, self.ratio(1, 100))
        ||| self.apart(to.reference_hz, from.reference_hz, self.ratio(1, 100))
    }

    /// Where the bass band hands over to the treble band.
    pub open spec fn crossover(self) -> K::Num {
        self.ratio(1000, 1)
    }

    /// The bass band of a configuration.
    pub open spec fn lo_band(self, config: ChromaConfig<K>) -> Band<K> {
        self.band(
            LO_FFT_SIZE as int,
            config.sample_rate,
            config.min_freq_hz,
            self.crossover(),
            config.reference_hz,
        )
    }

    /// The treble band of a configuration.
    pub open spec fn hi_band(self, config: ChromaConfig<K>) -> Band<K> {
        self.band(
            HI_FFT_SIZE as int,
            config.sample_rate,
            self.crossover(),
            config.max_freq_hz,
            config.reference_hz,
        )
    }

    /// Zero for every class.
    pub open spec fn no_energy(self) -> Seq<K::Num> {
        Seq::new(12, |c: int| self.zero())
    }

    /// A state with `config`, new bands, nothing queued and every level and peak at
    /// zero. What was shown last stays.
    pub open spec fn rebuilt(self, state: ChromaState<K>, config: ChromaConfig<K>) -> ChromaState<
        K,
    > {
        ChromaState {
            config,
            lo: self.lo_band(config),
            hi: self.hi_band(config),
            queue: seq![],
            smoothed: self.no_energy(),
            peaks: self.no_energy(),
            ..state
        }
    }

    /// The state that a meter begins in.
    pub open spec fn initial(self, config: ChromaConfig<K>) -> ChromaState<K> {
        ChromaState {
            config,
            lo: self.lo_band(config),
            hi: self.hi_band(config),
            queue: seq![],
            smoothed: self.no_energy(),
            peaks: self.no_energy(),
            shown_bins: self.no_energy(),
            shown_peaks: self.no_energy(),
        }
    }

    /// The state once the settings are `config`.
    pub open spec fn reconfigured(
        self,
        state: ChromaState<K>,
        config: ChromaConfig<K>,
    ) -> ChromaState<K> {
        if self.needs_rebuild(state.config, config) {
            self.rebuilt(state, config)
        } else {
            ChromaState { config, ..state }
        }
    }

    /// The state once audio comes at `sample_rate`, taken as at least one.
    pub open spec fn retuned(self, state: ChromaState<K>, sample_rate: K::Num) -> ChromaState<K> {
        let rate = self.larger(sample_rate, self.one());
        if self.apart(rate, state.config.sample_rate, self.rate_tolerance()) {
            self.rebuilt(state, ChromaConfig { sample_rate: rate, ..state.config })
        } else {
            state
        }
    }

    /// Energies with the latest spectrum of a band added.
    pub open spec fn with_band(
        self,
        band: Band<K>,
        queue: Seq<K::Num>,
        gate_db: K::Num,
        energy: Seq<K::Num>,
    ) -> Seq<K::Num> {
        match self.tail_spectrum(band, queue) {
            Some(bins) => self.accumulated(band, bins, gate_db, energy),
            None => energy,
        }
    }

    /// The energies of the classes at a hop: the bass band's, then the treble band's.
    pub open spec fn hop_energy(self, state: ChromaState<K>) -> Seq<K::Num> {
        let gate_db = state.config.floor_db;
        self.with_band(
            state.hi,
            state.queue,
            gate_db,
            self.with_band(state.lo, state.queue, gate_db, self.no_energy()),
        )
    }

    /// Energies as amplitudes relative to the strongest class; zero where there is no
    /// positive energy.
    pub open spec fn relative(self, energy: Seq<K::Num>) -> Seq<K::Num> {
        let peak = self.peak(energy);
        Seq::new(
            12,
            |c: int|
                if self.less(self.zero(), peak) {
                    self.sqrt(self.over(energy[c], peak))
                } else {
                    self.zero()
                },
        )
    }

    /// The part of a change that a level takes on at each hop.
    pub open spec fn pace(self, config: ChromaConfig<K>) -> K::Num {
        self.clamp(config.smoothing, self.ratio(1, 100), self.one())
    }

    /// What a peak is multiplied by at each hop.
    pub open spec fn decay(self, config: ChromaConfig<K>) -> K::Num {
        self.clamp(config.peak_decay, self.ratio(900, 1000), self.ratio(999, 1000))
    }

    /// A level moved toward `target` at pace `pace`.
    pub open spec fn eased(self, level: K::Num, target: K::Num, pace: K::Num) -> K::Num {
        self.plus(level, self.times(pace, self.minus(target, level)))
    }

    /// The state once energies were taken in.
    pub open spec fn absorbed(self, state: ChromaState<K>, energy: Seq<K::Num>) -> ChromaState<K> {
        let target = self.relative(energy);
        let smoothed = Seq::new(
            12,
            |c: int| self.eased(state.smoothed[c], target[c], self.pace(state.config)),
        );
        ChromaState {
            smoothed,
            peaks: Seq::new(
                12,
                |c: int|
                    self.larger(
                        self.times(state.peaks[c], self.decay(state.config)),
                        smoothed[c],
                    ),
            ),
            ..state
        }
    }

    /// The state after one hop.
    pub open spec fn hopped(self, state: ChromaState<K>) -> ChromaState<K> {
        ChromaState {
            queue: state.queue.skip(state.config.hop()),
            ..self.absorbed(state, self.hop_energy(state))
        }
    }

    /// The state after every hop that the queue holds a bass window for.
    pub open spec fn analysed(self, state: ChromaState<K>) -> ChromaState<K>
        decreases state.queue.len(),
    {
        if state.queue.len() < LO_FFT_SIZE {
            state
        } else {
            self.analysed(self.hopped(state))
        }
    }

    /// The state once samples were queued and analysed; a hop changes what is shown.
    pub open spec fn taken_in(self, state: ChromaState<K>, mono: Seq<K::Num>) -> ChromaState<K> {
        let fed = ChromaState { queue: state.queue + mono, ..state };
        let done = self.analysed(fed);
        if fed.queue.len() < LO_FFT_SIZE {
            done
        } else {
            ChromaState { shown_bins: done.smoothed, shown_peaks: done.peaks, ..done }
        }
    }

    /// The state once a block with at least one frame was processed.
    pub open spec fn processed(
        self,
        state: ChromaState<K>,
        samples: Seq<K::Num>,
        channels: int,
        sample_rate: K::Num,
    ) -> ChromaState<K> {
        self.taken_in(
            self.retuned(state, sample_rate),
            self.mixdown(samples, channels_for(channels)),
        )
    }
}

impl<K: Kit> Default for ChromaConfig<K> {
    fn default() -> (r: Self)
        ensures
            r.hop_size == DEFAULT_HOP_SIZE,
            forall|m: Model<K>| #[trigger]
                m.describes_arithmetic() && m.describes_signal() ==> r == m.default_config(),
    {
        ChromaConfig {
            sample_rate: K::default_sample_rate(),
            smoothing: K::ratio(7, 100),
            floor_db: K::ratio(-70, 1),
            peak_decay: K::ratio(997, 1000),
            reference_hz: K::ratio(440, 1),
            hop_size: DEFAULT_HOP_SIZE,
            min_freq_hz: K::ratio(275, 10),
            max_freq_hz: K::ratio(4186, 1),
        }
    }
}

/// Energies as amplitudes relative to the strongest class.
fn relative<K: Kit>(energy: &[K::Num; 12]) -> (r: [K::Num; 12])
    ensures
        forall|m: Model<K>| #[trigger] m.describes_easing() ==> r@ == m.relative(energy@),
{
    let zero = K::ratio(0, 1);
    let mut peak = zero;
    let mut i: usize = 0;
    while i < 12
        invariant
            i <= 12,
            forall|m: Model<K>| #[trigger]
                m.describes_easing() ==> zero == m.zero() && peak == m.peak(energy@.take(i as int)),
        decreases 12 - i,
    {
        peak = K::larger(peak, energy[i]);
        assert(energy@.take(i + 1).drop_last() =~= energy@.take(i as int));
        i += 1;
    }
    assert(energy@.take(i as int) =~= energy@);
    let mut r: [K::Num; 12] = [zero; 12];
    if K::less(zero, peak) {
        let mut j: usize = 0;
        while j < 12
            invariant
                j <= 12,
                forall|m: Model<K>, c: int|
                    #![trigger m.describes_easing(), r@[c]]
                    m.describes_easing() && 0 <= c < j
                        ==> r@[c] == m.sqrt(m.over(energy@[c], peak)),
            decreases 12 - j,
        {
            r[j] = K::sqrt(K::over(energy[j], peak));
            j += 1;
        }
    }
    assert forall|m: Model<K>| #[trigger]
        m.describes_easing() implies r@ == m.relative(energy@) by {
        assert(r@ =~= m.relative(energy@));
    }
    r
}

/// The pitch class meter.
#[verifier::reject_recursive_types(K)]
pub struct ChromaProcessor<K: Kit> {
    config: ChromaConfig<K>,
    band_lo: BandFft<K>,
    band_hi: BandFft<K>,
    mono_buf: VecDeque<K::Num>,
    smoothed_bins: [K::Num; 12],
    peak_bins: [K::Num; 12],
    snapshot: ChromaSnapshot<K::Num>,
}

impl<K: Kit> View for ChromaProcessor<K> {
    type V = ChromaState<K>;

    closed spec fn view(&self) -> ChromaState<K> {
        ChromaState {
            config: self.config,
            lo: self.band_lo@,
            hi: self.band_hi@,
            queue: self.mono_buf@,
            smoothed: self.smoothed_bins@,
            peaks: self.peak_bins@,
            shown_bins: self.snapshot.bins@,
            shown_peaks: self.snapshot.peak_bins@,
        }
    }
}

impl<K: Kit> ChromaProcessor<K> {
    /// The bands share their bins among classes that exist.
    pub closed spec fn wf(&self) -> bool {
        &&& self.band_lo.wf()
        &&& self.band_hi.wf()
        &&& self@.wf()
    }

    /// A meter with the given settings, that has heard nothing.
    pub fn new(config: ChromaConfig<K>) -> (r: Self)
        ensures
            r.wf(),
            r@.config == config,
            r@.queue == Seq::<K::Num>::empty(),
            forall|m: Model<K>| #[trigger] m.describes_bands() ==> r@ == m.initial(config),
    {
        let (band_lo, band_hi) = Self::make_bands(&config);
        let zero = K::ratio(0, 1);
        let r = ChromaProcessor {
            config,
            band_lo,
            band_hi,
            mono_buf: VecDeque::new(),
            smoothed_bins: [zero; 12],
            peak_bins: [zero; 12],
            snapshot: ChromaSnapshot { bins: [zero; 12], peak_bins: [zero; 12] },
        };
        assert forall|m: Model<K>| #[trigger]
            m.describes_bands() implies r@ == m.initial(config) by {
            assert(r.smoothed_bins@ =~= m.no_energy());
            assert(r.snapshot.bins@ =~= m.no_energy());
        }
        r
    }

    /// The settings.
    pub fn config(&self) -> (r: ChromaConfig<K>)
        ensures
            r == self@.config,
    {
        self.config
    }

    /// Changes the settings. Where the bands depend on the change, they are set up
    /// anew, and what was heard so far is forgotten.
    pub fn update_config(&mut self, config: ChromaConfig<K>)
        requires
            old(self).wf(),
        ensures
            final(self).wf(),
            final(self)@.config == config,
            final(self)@.shown_bins == old(self)@.shown_bins,
            final(self)@.shown_peaks == old(self)@.shown_peaks,
            forall|m: Model<K>| #[trigger]
                m.describes_bands() ==> final(self)@ == m.reconfigured(old(self)@, config),
    {
        let hundredth = K::ratio(1, 100);
        let rebuild = apart::<K>(
            config.sample_rate,
            self.config.sample_rate,
            rate_tolerance::<K>(),
        ) || apart::<K>(config.min_freq_hz, self.config.min_freq_hz, hundredth) || apart::<K>(
            config.max_freq_hz,
            self.config.max_freq_hz,
            hundredth,
        ) || apart::<K>(config.reference_hz, self.config.reference_hz, hundredth);
        self.config = config;
        if rebuild {
            self.rebuild();
        }
    }

    fn make_bands(config: &ChromaConfig<K>) -> (r: (BandFft<K>, BandFft<K>))
        ensures
            r.0.wf(),
            r.1.wf(),
            r.0@.fft_size == LO_FFT_SIZE,
            r.1@.fft_size == HI_FFT_SIZE,
            forall|m: Model<K>| #[trigger]
                m.describes_bands() ==> r.0@ == m.lo_band(*config) && r.1@ == m.hi_band(*config),
    {
        proof {
            lemma_band_sizes();
        }
        let crossover = K::ratio(1000, 1);
        let lo = BandFft::new(
            LO_FFT_SIZE,
            config.sample_rate,
            config.min_freq_hz,
            crossover,
            config.reference_hz,
        );
        let hi = BandFft::new(
            HI_FFT_SIZE,
            config.sample_rate,
            crossover,
            config.max_freq_hz,
            config.reference_hz,
        );
        (lo, hi)
    }

    fn rebuild(&mut self)
        requires
            old(self).wf(),
        ensures
            final(self).wf(),
            final(self)@.config == old(self)@.config,
            final(self)@.queue == Seq::<K::Num>::empty(),
            final(self)@.shown_bins == old(self)@.shown_bins,
            final(self)@.shown_peaks == old(self)@.shown_peaks,
            forall|m: Model<K>| #[trigger]
                m.describes_bands() ==> final(self)@ == m.rebuilt(old(self)@, old(self)@.config),
    {
        let (lo, hi) = Self::make_bands(&self.config);
        let zero = K::ratio(0, 1);
        self.band_lo = lo;
        self.band_hi = hi;
        self.mono_buf.clear();
        self.smoothed_bins = [zero; 12];
        self.peak_bins = [zero; 12];
        assert forall|m: Model<K>| #[trigger] m.describes_bands() implies self@ == m.rebuilt(
            old(self)@,
            old(self)@.config,
        ) by {
            assert(self.smoothed_bins@ =~= m.no_energy());
        }
    }

    /// Computes the energies of the classes from the latest queued samples.
    pub fn measure(&mut self) -> (r: [K::Num; 12])
        requires
            old(self).wf(),
        ensures
            final(self).wf(),
            final(self)@ == old(self)@,
            forall|m: Model<K>| #[trigger] m.describes_hearing() ==> r@ == m.hop_energy(old(self)@),
    {
        let zero = K::ratio(0, 1);
        let mut class_energy: [K::Num; 12] = [zero; 12];
        let gate_db = self.config.floor_db;
        assert forall|m: Model<K>| #[trigger] m.describes_hearing() implies class_energy@
            == m.no_energy() by {
            assert(class_energy@ =~= m.no_energy());
        }
        if self.band_lo.process_from_tail(&self.mono_buf) {
            self.band_lo.accumulate(&mut class_energy, gate_db);
        }
        if self.band_hi.process_from_tail(&self.mono_buf) {
            self.band_hi.accumulate(&mut class_energy, gate_db);
        }
        class_energy
    }

    /// Moves the levels toward the given energies and updates the peaks.
    pub fn absorb(&mut self, class_energy: &[K::Num; 12])
        requires
            old(self).wf(),
        ensures
            final(self).wf(),
            final(self)@ == (ChromaState {
                smoothed: final(self)@.smoothed,
                peaks: final(self)@.peaks,
                ..old(self)@
            }),
            forall|m: Model<K>| #[trigger]
                m.describes_easing() ==> final(self)@ == m.absorbed(old(self)@, class_energy@),
    {
        let normalized = relative::<K>(class_energy);
        let alpha = K::clamp(self.config.smoothing, K::ratio(1, 100), K::ratio(1, 1));
        let decay = K::clamp(self.config.peak_decay, K::ratio(900, 1000), K::ratio(999, 1000));
        let mut i: usize = 0;
        while i < 12
            invariant
                i <= 12,
                self.band_lo == old(self).band_lo,
                self.band_hi == old(self).band_hi,
                self.wf(),
                self@ == (ChromaState {
                    smoothed: self@.smoothed,
                    peaks: self@.peaks,
                    ..old(self)@
                }),
                forall|c: int|
                    i <= c < 12
                        ==> #[trigger] self.smoothed_bins@[c] == old(self).smoothed_bins@[c],
                forall|c: int|
                    i <= c < 12 ==> #[trigger] self.peak_bins@[c] == old(self).peak_bins@[c],
                forall|m: Model<K>, c: int|
                    #![trigger m.describes_easing(), self.smoothed_bins@[c]]
                    m.describes_easing() && 0 <= c < i ==> self.smoothed_bins@[c] == m.eased(
                        old(self).smoothed_bins@[c],
                        normalized@[c],
                        alpha,
                    ),
                forall|m: Model<K>, c: int|
                    #![trigger m.describes_easing(), self.peak_bins@[c]]
                    m.describes_easing() && 0 <= c < i ==> self.peak_bins@[c] == m.larger(
                        m.times(old(self).peak_bins@[c], decay),
                        self.smoothed_bins@[c],
                    ),
            decreases 12 - i,
        {
            let level = self.smoothed_bins[i];
            let moved = K::plus(level, K::times(alpha, K::minus(normalized[i], level)));
            self.smoothed_bins[i] = moved;
            self.peak_bins[i] = K::larger(K::times(self.peak_bins[i], decay), moved);
            i += 1;
        }
        assert forall|m: Model<K>| #[trigger] m.describes_easing() implies self@ == m.absorbed(
            old(self)@,
            class_energy@,
        ) by {
            let expected = m.absorbed(old(self)@, class_energy@);
            assert(self@.smoothed =~= expected.smoothed);
            assert(self@.peaks =~= expected.peaks);
        }
    }

    /// Takes in a block of audio. Every hop that completes a bass window is analysed.
    /// The levels after the last one are returned; without a hop, those shown before.
    /// A block without a frame is ignored, and nothing is returned for it.
    pub fn process_block(&mut self, block: &AudioBlock<'_, K::Num>) -> (r: Option<
        ChromaSnapshot<K::Num>,
    >)
        requires
            old(self).wf(),
        ensures
            final(self).wf(),
            r is None <==> block.frames() == 0,
            r is None ==> final(self)@ == old(self)@,
            r matches Some(shown) ==> {
                &&& shown.bins@ == final(self)@.shown_bins
                &&& shown.peak_bins@ == final(self)@.shown_peaks
                &&& final(self)@.queue.len() < LO_FFT_SIZE
                &&& final(self)@.config == (ChromaConfig {
                    sample_rate: final(self)@.config.sample_rate,
                    ..old(self)@.config
                })
            },
            forall|m: Model<K>| #[trigger]
                m.describes_meter() && block.frames() != 0 ==> final(self)@ == m.processed(
                    old(self)@,
                    block.samples@,
                    block.channels as int,
                    block.sample_rate,
                ),
    {
        if block.frame_count() == 0 {
            return None;
        }
        let sample_rate = K::larger(block.sample_rate, K::ratio(1, 1));
        if apart::<K>(sample_rate, self.config.sample_rate, rate_tolerance::<K>()) {
            self.config.sample_rate = sample_rate;
            self.rebuild();
        }
        let ghost tuned = self@;
        mixdown_into_deque::<K>(&mut self.mono_buf, block.samples, block.channel_count());
        let ghost fed = self@;
        let hop_size: usize = clamp_hop(self.config.hop_size, LO_FFT_SIZE);
        let mut any = false;
        while self.mono_buf.len() >= LO_FFT_SIZE
            invariant
                self.wf(),
                1 <= hop_size <= LO_FFT_SIZE,
                hop_size == fed.config.hop(),
                self@.config == fed.config,
                self@.shown_bins == fed.shown_bins,
                self@.shown_peaks == fed.shown_peaks,
                !any ==> self@ == fed,
                any <==> self@.queue.len() < fed.queue.len(),
                any ==> fed.queue.len() >= LO_FFT_SIZE,
                forall|m: Model<K>| #[trigger]
                    m.describes_meter() ==> m.analysed(self@) == m.analysed(fed),
            decreases self.mono_buf@.len(),
        {
            let class_energy = self.measure();
            self.absorb(&class_energy);
            drop_front(&mut self.mono_buf, hop_size);
            any = true;
        }
        if any {
            self.snapshot.bins = self.smoothed_bins;
            self.snapshot.peak_bins = self.peak_bins;
        }
        Some(self.snapshot)
    }
}

/// The windows of both bands are lengths that a transform has.
proof fn lemma_band_sizes()
    ensures
        fft_length_for(LO_FFT_SIZE as int) == LO_FFT_SIZE,
        fft_length_for(HI_FFT_SIZE as int) == HI_FFT_SIZE,
{
    reveal_with_fuel(doubled_to, 10);
}

/// The analysis takes exactly the hops that the queue holds a bass window for, drops
/// their samples and no others, and leaves less than a bass window.
pub proof fn law_analysis_drains_whole_hops<K: Kit>(m: Model<K>, state: ChromaState<K>)
    ensures
        ({
            let hop = state.config.hop();
            let hops = window_count(state.queue.len() as int, LO_FFT_SIZE as int, hop);
            &&& 0 <= hops * hop <= state.queue.len()
            &&& m.analysed(state).queue == state.queue.skip(hops * hop)
            &&& m.analysed(state).queue.len() < LO_FFT_SIZE
        }),
    decreases state.queue.len(),
{
    let hop = state.config.hop();
    let size = LO_FFT_SIZE as int;
    let queued = state.queue.len() as int;
    let hops = window_count(queued, size, hop);
    if queued < size {
        assert(hops * hop == 0) by (nonlinear_arith)
            requires
                hops == 0,
        ;
        assert(state.queue.skip(0) =~= state.queue);
    } else {
        let next = m.hopped(state);
        law_analysis_drains_whole_hops(m, next);
        lemma_window_count_step(queued, size, hop);
        let rest = window_count(queued - hop, size, hop);
        assert(hops * hop == rest * hop + hop) by (nonlinear_arith)
            requires
                hops == rest + 1,
        ;
        assert(next.queue.skip(rest * hop) =~= state.queue.skip(hops * hop));
    }
}

/// The analysis changes only the queue, the levels and the peaks.
pub proof fn law_analysis_keeps_setup<K: Kit>(m: Model<K>, state: ChromaState<K>)
    ensures
        m.analysed(state) == (ChromaState {
            queue: m.analysed(state).queue,
            smoothed: m.analysed(state).smoothed,
            peaks: m.analysed(state).peaks,
            ..state
        }),
    decreases state.queue.len(),
{
    if state.queue.len() >= LO_FFT_SIZE {
        law_analysis_keeps_setup(m, m.hopped(state));
    }
}

/// All hops of one block look at the same, latest samples: while another hop is due,
/// a hop does not change the energies.
pub proof fn law_hops_see_the_latest_samples<K: Kit>(m: Model<K>, state: ChromaState<K>)
    requires
        state.queue.len() >= LO_FFT_SIZE,
        m.hopped(state).queue.len() >= LO_FFT_SIZE,
        0 <= state.lo.fft_size <= LO_FFT_SIZE,
        0 <= state.hi.fft_size <= LO_FFT_SIZE,
    ensures
        m.hop_energy(m.hopped(state)) == m.hop_energy(state),
{
    let rest = m.hopped(state).queue;
    assert(tail_of(rest, state.lo.fft_size) =~= tail_of(state.queue, state.lo.fft_size));
    assert(tail_of(rest, state.hi.fft_size) =~= tail_of(state.queue, state.hi.fft_size));
}

/// Until a whole bass window is queued, nothing is analysed: samples are only queued.
pub proof fn law_nothing_before_a_whole_window<K: Kit>(
    m: Model<K>,
    state: ChromaState<K>,
    mono: Seq<K::Num>,
)
    requires
        state.queue.len() + mono.len() < LO_FFT_SIZE,
    ensures
        m.taken_in(state, mono) == (ChromaState { queue: state.queue + mono, ..state }),
{
}

/// What a hop completes is shown: the levels and peaks after the last hop.
pub proof fn law_a_hop_is_shown<K: Kit>(m: Model<K>, state: ChromaState<K>, mono: Seq<K::Num>)
    requires
        state.queue.len() + mono.len() >= LO_FFT_SIZE,
    ensures
        m.taken_in(state, mono).shown_bins == m.taken_in(state, mono).smoothed,
        m.taken_in(state, mono).shown_peaks == m.taken_in(state, mono).peaks,
{
}

/// Setting the settings that are in use changes nothing, where every setting is at no
/// distance from itself.
pub proof fn law_same_settings_change_nothing<K: Kit>(m: Model<K>, state: ChromaState<K>)
    requires
        !m.needs_rebuild(state.config, state.config),
    ensures
        m.reconfigured(state, state.config) == state,
{
}

/// New bands forget what was heard, but not what was shown.
pub proof fn law_rebuild_forgets<K: Kit>(
    m: Model<K>,
    state: ChromaState<K>,
    config: ChromaConfig<K>,
)
    requires
        m.needs_rebuild(state.config, config),
    ensures
        m.reconfigured(state, config) == (ChromaState {
            shown_bins: state.shown_bins,
            shown_peaks: state.shown_peaks,
            ..m.initial(config)
        }),
{
}

/// A peak is never below its level, where the level is a number and the larger of two is
/// not below the second.
pub proof fn law_peaks_hold<K: Kit>(
    m: Model<K>,
    state: ChromaState<K>,
    energy: Seq<K::Num>,
    class: int,
)
    requires
        0 <= class < 12,
        forall|a: K::Num, b: K::Num|
            m.at_most(b, b) ==> m.at_most(b, #[trigger] m.larger(a, b)),
        m.at_most(
            m.absorbed(state, energy).smoothed[class],
            m.absorbed(state, energy).smoothed[class],
        ),
    ensures
        m.at_most(
            m.absorbed(state, energy).smoothed[class],
            m.absorbed(state, energy).peaks[class],
        ),
{
}

/// The strongest class stands at one, where a number over itself, and the root of one,
/// are one.
pub proof fn law_strongest_class_is_one<K: Kit>(m: Model<K>, energy: Seq<K::Num>, class: int)
    requires
        0 <= class < 12,
        m.less(m.zero(), m.peak(energy)),
        energy[class] == m.peak(energy),
        m.over(m.peak(energy), m.peak(energy)) == m.one(),
        m.sqrt(m.one()) == m.one(),
    ensures
        m.relative(energy)[class] == m.one(),
{
}

/// The largest of twelve zeros is zero.
proof fn lemma_peak_of_zeros<K: Kit>(m: Model<K>, n: nat)
    requires
        m.larger(m.zero(), m.zero()) == m.zero(),
    ensures
        m.peak(Seq::new(n, |c: int| m.zero())) == m.zero(),
    decreases n,
{
    let zeros = Seq::new(n, |c: int| m.zero());
    if n > 0 {
        lemma_peak_of_zeros(m, (n - 1) as nat);
        assert(zeros.drop_last() =~= Seq::new((n - 1) as nat, |c: int| m.zero()));
    }
}

/// Silence is shown as zero: without energy, levels and peaks at zero stay there,
/// where the arithmetic of zeros is exact, also with the pace and the decay in use.
pub proof fn law_silence_stays_at_zero<K: Kit>(m: Model<K>, state: ChromaState<K>)
    requires
        state.smoothed == m.no_energy(),
        state.peaks == m.no_energy(),
        !m.less(m.zero(), m.zero()),
        m.larger(m.zero(), m.zero()) == m.zero(),
        m.minus(m.zero(), m.zero()) == m.zero(),
        m.plus(m.zero(), m.zero()) == m.zero(),
        m.times(m.pace(state.config), m.zero()) == m.zero(),
        m.times(m.zero(), m.decay(state.config)) == m.zero(),
    ensures
        m.absorbed(state, m.no_energy()) == state,
{
    lemma_peak_of_zeros(m, 12);
    let after = m.absorbed(state, m.no_energy());
    assert(m.no_energy() =~= Seq::new(12, |c: int| m.zero()));
    assert(after.smoothed =~= state.smoothed);
    assert(after.peaks =~= state.peaks);
}

impl<K: Kit> Model<K> {
    /// Whether the latest samples are below the noise gate at every bin that the band
    /// shares.
    pub open spec fn is_quiet(self, band: Band<K>, queue: Seq<K::Num>, gate_db: K::Num) -> bool {
        self.tail_spectrum(band, queue) matches Some(bins) ==> self.is_below_gate(
            band,
            bins,
            gate_db,
        )
    }
}

/// The noise gate suppresses near-silence: a hop over audio that is below it at every
/// bin that is shared gives no class any energy.
pub proof fn law_quiet_audio_has_no_energy<K: Kit>(m: Model<K>, state: ChromaState<K>)
    requires
        m.is_quiet(state.lo, state.queue, state.config.floor_db),
        m.is_quiet(state.hi, state.queue, state.config.floor_db),
    ensures
        m.hop_energy(state) == m.no_energy(),
{
    let gate_db = state.config.floor_db;
    if let Some(bins) = m.tail_spectrum(state.lo, state.queue) {
        law_gate_silences(m, state.lo, bins, gate_db, m.no_energy());
    }
    if let Some(bins) = m.tail_spectrum(state.hi, state.queue) {
        law_gate_silences(m, state.hi, bins, gate_db, m.no_energy());
    }
}

impl<K: Kit> Model<K> {
    /// Whether a band has weights that are finite and not negative, and the latest samples
    /// have a finite spectrum at the bins that it shares.
    pub open spec fn hears_finitely(self, band: Band<K>, queue: Seq<K::Num>) -> bool {
        &&& self.is_weighed(band)
        &&& self.tail_spectrum(band, queue) matches Some(bins) ==> self.has_finite_power(
            band,
            bins,
        )
    }
}

/// Raising the noise gate never adds to the energy that a hop measures.
pub proof fn law_a_higher_gate_measures_no_more<K: Kit>(
    m: Model<K>,
    state: ChromaState<K>,
    higher_db: K::Num,
    class: int,
)
    requires
        m.respects_order(),
        m.at_most(state.config.floor_db, higher_db),
        m.hears_finitely(state.lo, state.queue),
        m.hears_finitely(state.hi, state.queue),
        0 <= class < 12,
    ensures
        ({
            let config = ChromaConfig { floor_db: higher_db, ..state.config };
            m.at_most(
                m.hop_energy(ChromaState { config, ..state })[class],
                m.hop_energy(state)[class],
            )
        }),
{
    let gate_db = state.config.floor_db;
    let none = m.no_energy();
    let lo = m.with_band(state.lo, state.queue, gate_db, none);
    let lo_higher = m.with_band(state.lo, state.queue, higher_db, none);
    assert(m.is_finite(m.ratio(0, 1)));
    if let Some(bins) = m.tail_spectrum(state.lo, state.queue) {
        law_a_higher_gate_adds_nothing(
            m,
            state.lo,
            bins,
            gate_db,
            higher_db,
            none,
            none,
            class,
        );
    }
    if let Some(bins) = m.tail_spectrum(state.hi, state.queue) {
        law_a_higher_gate_adds_nothing(
            m,
            state.hi,
            bins,
            gate_db,
            higher_db,
            lo,
            lo_higher,
            class,
        );
    }
}

} // verus!
