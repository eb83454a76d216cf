//! The pitch class meter over time: what holds after any blocks of audio and any changes
//! of settings.
use crate::audio::channels_for;
use crate::band::{tail_of, Band};
use crate::chroma::{
    law_analysis_keeps_setup, law_hops_see_the_latest_samples, ChromaConfig, ChromaState,
    HI_FFT_SIZE, LO_FFT_SIZE,
};
use crate::kit::{Kit, Model};
use crate::order::{
    lemma_move_is_unit, lemma_part_is_unit, lemma_unit_is_finite, lemma_unit_product,
};
use crate::sizing::spectrum_length;
use crate::weights::{law_bands_are_fair, law_moderate_spectra_have_sound_energies};
use vstd::prelude::*;

verus! {

/// What can happen to a meter.
#[verifier::reject_recursive_types(K)]
pub ghost enum Event<K: Kit> {
    /// The settings are changed.
    Setting { config: ChromaConfig<K> },
    /// A block of audio comes in.
    Block { samples: Seq<K::Num>, channels: int, sample_rate: K::Num },
}

impl<K: Kit> ChromaState<K> {
    /// Whether the bands have the windows that the meter gives them.
    pub open spec fn has_bands(self) -> bool {
        self.lo.fft_size == LO_FFT_SIZE && self.hi.fft_size == HI_FFT_SIZE
    }

    /// Whether the levels and peaks are those that were shown last.
    pub open spec fn shows_the_latest(self) -> bool {
        self.shown_bins == self.smoothed && self.shown_peaks == self.peaks
    }
}

impl<K: Kit> Model<K> {
    /// The state once audio of the given rate was queued, before it is analysed.
    pub open spec fn queued(
        self,
        state: ChromaState<K>,
        samples: Seq<K::Num>,
        channels: int,
        sample_rate: K::Num,
    ) -> ChromaState<K> {
        let tuned = self.retuned(state, sample_rate);
        ChromaState {
            queue: tuned.queue + self.mixdown(samples, channels_for(channels)),
            ..tuned
        }
    }

    /// The state after an event. A block without a frame is ignored.
    pub open spec fn after(self, state: ChromaState<K>, event: Event<K>) -> ChromaState<K> {
        match event {
            Event::Setting { config } => self.reconfigured(state, config),
            Event::Block { samples, channels, sample_rate } => if samples.len() as int
                / channels_for(channels) == 0 {
                state
            } else {
                self.processed(state, samples, channels, sample_rate)
            },
        }
    }

    /// The state after events, the first of them first.
    pub open spec fn after_all(self, state: ChromaState<K>, events: Seq<Event<K>>) -> ChromaState<
        K,
    >
        decreases events.len(),
    {
        if events.len() == 0 {
            state
        } else {
            self.after(self.after_all(state, events.drop_last()), events.last())
        }
    }

    /// Whether an event completes a hop: a block, once mixed, fills a bass window.
    pub open spec fn completes_a_hop(self, state: ChromaState<K>, event: Event<K>) -> bool {
        match event {
            Event::Setting { config } => false,
            Event::Block { samples, channels, sample_rate } => samples.len() as int / channels_for(
                channels,
            ) != 0 && self.queued(state, samples, channels, sample_rate).queue.len()
                >= LO_FFT_SIZE,
        }
    }

    /// Whether none of some events completes a hop.
    pub open spec fn completes_no_hop(self, state: ChromaState<K>, events: Seq<Event<K>>) -> bool
        decreases events.len(),
    {
        events.len() > 0 ==> {
            &&& self.completes_no_hop(state, events.drop_last())
            &&& !self.completes_a_hop(self.after_all(state, events.drop_last()), events.last())
        }
    }
}

/// The startup delay: what was shown last stays until a hop is completed, whatever blocks
/// come in and even if the settings or the rate change meanwhile.
pub proof fn law_shown_until_a_hop<K: Kit>(
    m: Model<K>,
    state: ChromaState<K>,
    events: Seq<Event<K>>,
)
    requires
        m.completes_no_hop(state, events),
    ensures
        m.after_all(state, events).shown_bins == state.shown_bins,
        m.after_all(state, events).shown_peaks == state.shown_peaks,
    decreases events.len(),
{
    if events.len() > 0 {
        law_shown_until_a_hop(m, state, events.drop_last());
    }
}

/// A new meter shows zeros until a hop is completed.
pub proof fn law_zeros_until_the_first_hop<K: Kit>(
    m: Model<K>,
    config: ChromaConfig<K>,
    events: Seq<Event<K>>,
)
    requires
        m.completes_no_hop(m.initial(config), events),
    ensures
        m.after_all(m.initial(config), events).shown_bins == m.no_energy(),
        m.after_all(m.initial(config), events).shown_peaks == m.no_energy(),
{
    law_shown_until_a_hop(m, m.initial(config), events);
}

/// Where nothing was reset since something was shown, a block at the same rate leaves it
/// so: what is shown is up to date.
pub proof fn law_blocks_keep_the_shown_up_to_date<K: Kit>(
    m: Model<K>,
    state: ChromaState<K>,
    samples: Seq<K::Num>,
    channels: int,
    sample_rate: K::Num,
)
    requires
        state.shows_the_latest(),
        m.retuned(state, sample_rate) == state,
    ensures
        m.processed(state, samples, channels, sample_rate).shows_the_latest(),
{
}

/// A block that completes one hop lets every peak decay once and lifts it to its level:
/// peaks decay at every hop, and never fall below the level.
pub proof fn law_one_hop_decays_once<K: Kit>(
    m: Model<K>,
    state: ChromaState<K>,
    samples: Seq<K::Num>,
    channels: int,
    sample_rate: K::Num,
    class: int,
)
    requires
        0 <= class < 12,
        state.shows_the_latest(),
        m.retuned(state, sample_rate) == state,
        ({
            let queued = m.queued(state, samples, channels, sample_rate).queue.len();
            LO_FFT_SIZE <= queued < LO_FFT_SIZE + state.config.hop()
        }),
    ensures
        ({
            let shown = m.processed(state, samples, channels, sample_rate);
            shown.shown_peaks[class] == m.larger(
                m.times(state.shown_peaks[class], m.decay(state.config)),
                shown.shown_bins[class],
            )
        }),
{
    let queued = m.queued(state, samples, channels, sample_rate);
    let hopped = m.hopped(queued);
    assert(hopped.queue.len() < LO_FFT_SIZE);
    assert(m.analysed(queued) == m.analysed(hopped));
    assert(m.analysed(hopped) == hopped);
}

/// Only the latest samples count: of two queues of one length, with the same samples in
/// the latest bass window, the analysis makes the same levels and peaks.
pub proof fn law_only_the_latest_samples_count<K: Kit>(
    m: Model<K>,
    state: ChromaState<K>,
    queue: Seq<K::Num>,
)
    requires
        state.has_bands(),
        queue.len() == state.queue.len(),
        queue.len() >= LO_FFT_SIZE ==> tail_of(queue, LO_FFT_SIZE as int) == tail_of(
            state.queue,
            LO_FFT_SIZE as int,
        ),
    ensures
        m.analysed(ChromaState { queue, ..state }).smoothed == m.analysed(state).smoothed,
        m.analysed(ChromaState { queue, ..state }).peaks == m.analysed(state).peaks,
    decreases queue.len(),
{
    if queue.len() >= LO_FFT_SIZE {
        let other = ChromaState { queue, ..state };
        let size = LO_FFT_SIZE as int;
        let short = HI_FFT_SIZE as int;
        assert(tail_of(queue, short) =~= tail_of(tail_of(queue, size), short));
        assert(tail_of(state.queue, short) =~= tail_of(tail_of(state.queue, size), short));
        assert(m.hop_energy(other) == m.hop_energy(state));
        let next = m.hopped(state);
        let rest = queue.skip(state.config.hop());
        assert(m.hopped(other) == (ChromaState { queue: rest, ..next }));
        if rest.len() >= LO_FFT_SIZE {
            assert(tail_of(rest, size) =~= tail_of(queue, size));
            assert(tail_of(next.queue, size) =~= tail_of(state.queue, size));
        }
        law_only_the_latest_samples_count(m, next, rest);
    }
}

/// Two blocks of one length and rate, with the same samples in the latest bass window,
/// make a new meter show the same: earlier samples of a block do not count.
pub proof fn law_a_new_meter_shows_the_latest_samples<K: Kit>(
    m: Model<K>,
    config: ChromaConfig<K>,
    samples: Seq<K::Num>,
    other: Seq<K::Num>,
    channels: int,
    sample_rate: K::Num,
)
    requires
        ({
            let mono = m.mixdown(samples, channels_for(channels));
            let other_mono = m.mixdown(other, channels_for(channels));
            &&& LO_FFT_SIZE <= mono.len() == other_mono.len()
            &&& tail_of(mono, LO_FFT_SIZE as int) == tail_of(other_mono, LO_FFT_SIZE as int)
        }),
    ensures
        ({
            let shown = m.processed(m.initial(config), samples, channels, sample_rate);
            let other_shown = m.processed(m.initial(config), other, channels, sample_rate);
            &&& shown.shown_bins == other_shown.shown_bins
            &&& shown.shown_peaks == other_shown.shown_peaks
        }),
{
    let state = m.queued(m.initial(config), samples, channels, sample_rate);
    let other_state = m.queued(m.initial(config), other, channels, sample_rate);
    let mono = m.mixdown(samples, channels_for(channels));
    let other_mono = m.mixdown(other, channels_for(channels));
    assert(state.queue =~= mono);
    assert(other_state.queue =~= other_mono);
    assert(other_state == (ChromaState { queue: other_mono, ..state }));
    law_only_the_latest_samples_count(m, state, other_mono);
}

/// Smoothing at one is instant: the levels become what was measured, where going the
/// whole way from a level to another gets there.
pub proof fn law_full_smoothing_is_instant<K: Kit>(
    m: Model<K>,
    state: ChromaState<K>,
    energy: Seq<K::Num>,
)
    requires
        state.config.smoothing == m.one(),
        m.clamp(m.one(), m.ratio(1, 100), m.one()) == m.one(),
        forall|c: int|
            0 <= c < 12 ==> m.eased(
                #[trigger] state.smoothed[c],
                m.relative(energy)[c],
                m.one(),
            ) == m.relative(energy)[c],
    ensures
        m.absorbed(state, energy).smoothed == m.relative(energy),
{
    assert(m.absorbed(state, energy).smoothed =~= m.relative(energy));
}

impl<K: Kit> Model<K> {
    /// Whether energies are finite and not negative.
    pub open spec fn is_sound(self, energy: Seq<K::Num>) -> bool {
        forall|c: int|
            0 <= c < 12 ==> self.at_most(self.zero(), #[trigger] energy[c]) && self.is_finite(
                energy[c],
            )
    }

    /// Whether every level is between zero and its peak, and every peak at most one.
    pub open spec fn in_range(self, levels: Seq<K::Num>, peaks: Seq<K::Num>) -> bool {
        &&& levels.len() == 12
        &&& peaks.len() == 12
        &&& forall|c: int|
            0 <= c < 12 ==> {
                &&& self.at_most(self.zero(), #[trigger] levels[c])
                &&& self.at_most(levels[c], peaks[c])
                &&& self.at_most(peaks[c], self.one())
            }
    }

    /// Whether the levels and peaks of a meter, and those that it shows, are in range.
    pub open spec fn is_in_range(self, state: ChromaState<K>) -> bool {
        &&& self.in_range(state.smoothed, state.peaks)
        &&& self.in_range(state.shown_bins, state.shown_peaks)
    }

    /// Whether the bins of both bands have their pitches within the octave.
    pub open spec fn is_tuned(self, config: ChromaConfig<K>) -> bool {
        &&& self.has_pitches(LO_FFT_SIZE as int, config.sample_rate, config.reference_hz)
        &&& self.has_pitches(HI_FFT_SIZE as int, config.sample_rate, config.reference_hz)
    }

    /// Whether the bands of a meter are fair and have an entry for every bin.
    pub open spec fn has_fair_bands(self, state: ChromaState<K>) -> bool {
        &&& state.has_bands()
        &&& self.is_fair(state.lo)
        &&& self.is_fair(state.hi)
        &&& state.lo.contribs.len() == spectrum_length(LO_FFT_SIZE as int)
        &&& state.hi.contribs.len() == spectrum_length(HI_FFT_SIZE as int)
    }

    /// Whether the latest samples have a moderate spectrum, if they have one.
    pub open spec fn hears_moderately(self, band: Band<K>, queue: Seq<K::Num>) -> bool {
        self.tail_spectrum(band, queue) matches Some(bins) ==> self.is_moderate(band, bins)
    }

    /// Whether an event is ordinary: new bands find their pitches within the octave, and a
    /// block that is analysed has moderate spectra and comes while the smoothing and the
    /// decay are finite.
    pub open spec fn is_ordinary(self, state: ChromaState<K>, event: Event<K>) -> bool {
        match event {
            Event::Setting { config } => self.needs_rebuild(state.config, config)
                ==> self.is_tuned(config),
            Event::Block { samples, channels, sample_rate } => {
                let queued = self.queued(state, samples, channels, sample_rate);
                &&& self.retuned(state, sample_rate) != state ==> self.is_tuned(queued.config)
                &&& self.completes_a_hop(state, event) ==> {
                    &&& self.is_finite(state.config.smoothing)
                    &&& self.is_finite(state.config.peak_decay)
                    &&& self.hears_moderately(queued.lo, queued.queue)
                    &&& self.hears_moderately(queued.hi, queued.queue)
                }
            },
        }
    }

    /// Whether all of some events are ordinary.
    pub open spec fn are_ordinary(self, state: ChromaState<K>, events: Seq<Event<K>>) -> bool
        decreases events.len(),
    {
        events.len() > 0 ==> {
            &&& self.are_ordinary(state, events.drop_last())
            &&& self.is_ordinary(self.after_all(state, events.drop_last()), events.last())
        }
    }
}

/// The largest of some energies is sound, and at least as large as each.
proof fn lemma_peak_of_sound<K: Kit>(m: Model<K>, terms: Seq<K::Num>, i: int)
    requires
        m.respects_order(),
        0 <= i < terms.len(),
        forall|c: int|
            0 <= c < terms.len() ==> m.at_most(m.zero(), #[trigger] terms[c]) && m.is_finite(
                terms[c],
            ),
    ensures
        m.is_finite(m.peak(terms)),
        m.at_most(terms[i], m.peak(terms)),
    decreases terms.len(),
{
    let before = terms.drop_last();
    let last = terms.last();
    assert(terms[terms.len() - 1] == last);
    assert forall|c: int| 0 <= c < before.len() implies m.at_most(m.zero(), #[trigger] before[c])
        && m.is_finite(before[c]) by {
        assert(terms[c] == before[c]);
    }
    if before.len() == 0 {
        assert(m.is_finite(m.ratio(0, 1)));
        assert(m.peak(before) == m.zero());
    } else {
        lemma_peak_of_sound(m, before, if i < before.len() { i } else { 0 });
    }
    assert(m.at_most(m.peak(before), m.peak(terms)));
    assert(m.at_most(last, m.peak(terms)));
    if i < before.len() {
        assert(terms[i] == before[i]);
    }
}

/// Sound energies are between zero and one relative to the strongest.
proof fn lemma_relative_is_unit<K: Kit>(m: Model<K>, energy: Seq<K::Num>, c: int)
    requires
        m.respects_order(),
        energy.len() == 12,
        m.is_sound(energy),
        0 <= c < 12,
    ensures
        m.is_unit(m.relative(energy)[c]),
{
    let peak = m.peak(energy);
    lemma_peak_of_sound(m, energy, c);
    if m.less(m.zero(), peak) {
        lemma_part_is_unit(m, energy[c], peak);
    } else {
        assert(m.is_finite(m.ratio(0, 1)));
    }
}

/// Taking in sound energies keeps every level between zero and its peak, and every peak
/// at most one.
pub proof fn law_absorbing_stays_in_range<K: Kit>(
    m: Model<K>,
    state: ChromaState<K>,
    energy: Seq<K::Num>,
)
    requires
        m.respects_order(),
        m.in_range(state.smoothed, state.peaks),
        energy.len() == 12,
        m.is_sound(energy),
        m.is_finite(state.config.smoothing),
        m.is_finite(state.config.peak_decay),
    ensures
        m.in_range(m.absorbed(state, energy).smoothed, m.absorbed(state, energy).peaks),
{
    let next = m.absorbed(state, energy);
    let target = m.relative(energy);
    let pace = m.pace(state.config);
    let decay = m.decay(state.config);
    assert(m.at_most(m.zero(), m.ratio(1, 100)));
    assert(m.at_most(m.ratio(1, 100), m.one()));
    assert(m.is_unit(pace));
    assert(m.at_most(m.zero(), m.ratio(900, 1000)));
    assert(m.at_most(m.ratio(900, 1000), m.ratio(999, 1000)));
    assert(m.at_most(m.ratio(999, 1000), m.one()));
    assert(m.is_unit(decay));
    assert forall|c: int| 0 <= c < 12 implies {
        &&& m.at_most(m.zero(), #[trigger] next.smoothed[c])
        &&& m.at_most(next.smoothed[c], next.peaks[c])
        &&& m.at_most(next.peaks[c], m.one())
    } by {
        assert(m.at_most(m.zero(), state.smoothed[c]));
        lemma_relative_is_unit(m, energy, c);
        lemma_move_is_unit(m, state.smoothed[c], target[c], pace);
        lemma_unit_product(m, state.peaks[c], decay);
        lemma_unit_is_finite(m, m.times(state.peaks[c], decay));
        lemma_unit_is_finite(m, next.smoothed[c]);
        assert(next.peaks[c] == m.larger(m.times(state.peaks[c], decay), next.smoothed[c]));
    }
}

proof fn lemma_analysis_stays_in_range<K: Kit>(m: Model<K>, state: ChromaState<K>)
    requires
        m.respects_order(),
        state.has_bands(),
        m.in_range(state.smoothed, state.peaks),
        state.queue.len() >= LO_FFT_SIZE ==> {
            &&& m.is_sound(m.hop_energy(state))
            &&& m.is_finite(state.config.smoothing)
            &&& m.is_finite(state.config.peak_decay)
        },
    ensures
        m.in_range(m.analysed(state).smoothed, m.analysed(state).peaks),
    decreases state.queue.len(),
{
    if state.queue.len() >= LO_FFT_SIZE {
        let next = m.hopped(state);
        law_absorbing_stays_in_range(m, state, m.hop_energy(state));
        if next.queue.len() >= LO_FFT_SIZE {
            law_hops_see_the_latest_samples(m, state);
        }
        lemma_analysis_stays_in_range(m, next);
    }
}

/// Zero levels and peaks are in range.
proof fn lemma_zeros_are_in_range<K: Kit>(m: Model<K>)
    requires
        m.respects_order(),
    ensures
        m.in_range(m.no_energy(), m.no_energy()),
{
    assert(m.is_finite(m.ratio(0, 1)));
}

/// New bands of a tuned meter are fair.
proof fn lemma_new_bands_are_fair<K: Kit>(
    m: Model<K>,
    state: ChromaState<K>,
    config: ChromaConfig<K>,
)
    requires
        m.respects_order(),
        m.decays_in_order(),
        m.is_tuned(config),
    ensures
        m.has_fair_bands(m.rebuilt(state, config)),
        m.has_fair_bands(m.initial(config)),
{
    law_bands_are_fair(
        m,
        LO_FFT_SIZE as int,
        config.sample_rate,
        config.min_freq_hz,
        m.crossover(),
        config.reference_hz,
    );
    law_bands_are_fair(
        m,
        HI_FFT_SIZE as int,
        config.sample_rate,
        m.crossover(),
        config.max_freq_hz,
        config.reference_hz,
    );
}

/// The energies of a hop over moderate spectra are sound.
pub proof fn law_moderate_audio_has_sound_energies<K: Kit>(m: Model<K>, state: ChromaState<K>)
    requires
        m.respects_order(),
        m.has_fair_bands(state),
        m.hears_moderately(state.lo, state.queue),
        m.hears_moderately(state.hi, state.queue),
    ensures
        m.is_sound(m.hop_energy(state)),
{
    let gate_db = state.config.floor_db;
    let none = m.no_energy();
    let lo = m.with_band(state.lo, state.queue, gate_db, none);
    let most = 2 * state.lo.contribs.len();
    assert(m.is_finite(m.ratio(0, 1)));
    assert(m.ratio(0, 1) == m.count(0));
    assert forall|c: int| 0 <= c < 12 implies m.at_most(
        m.zero(),
        #[trigger] m.hop_energy(state)[c],
    ) && m.is_finite(m.hop_energy(state)[c]) by {
        if let Some(bins) = m.tail_spectrum(state.lo, state.queue) {
            law_moderate_spectra_have_sound_energies(m, state.lo, bins, gate_db, none, 0, c);
        }
        assert(m.at_most(m.count(0), m.count(most as int)));
        assert(m.at_most(m.zero(), lo[c]));
        assert(m.at_most(lo[c], m.count(most as int)));
        if let Some(bins) = m.tail_spectrum(state.hi, state.queue) {
            law_moderate_spectra_have_sound_energies(
                m,
                state.hi,
                bins,
                gate_db,
                lo,
                most as int,
                c,
            );
        }
        let all = most + 2 * state.hi.contribs.len();
        assert(m.at_most(m.count(most as int), m.count(all as int)));
        assert(m.is_finite(m.count(all as int)));
    }
}

/// Whatever happens to a meter that is in range leaves it in range.
pub proof fn law_events_stay_in_range<K: Kit>(m: Model<K>, state: ChromaState<K>, event: Event<K>)
    requires
        m.respects_order(),
        m.decays_in_order(),
        m.has_fair_bands(state),
        m.is_in_range(state),
        m.is_ordinary(state, event),
    ensures
        m.has_fair_bands(m.after(state, event)),
        m.is_in_range(m.after(state, event)),
{
    lemma_zeros_are_in_range(m);
    match event {
        Event::Setting { config } => {
            if m.needs_rebuild(state.config, config) {
                lemma_new_bands_are_fair(m, state, config);
            }
        },
        Event::Block { samples, channels, sample_rate } => {
            if samples.len() as int / channels_for(channels) != 0 {
                let queued = m.queued(state, samples, channels, sample_rate);
                if m.retuned(state, sample_rate) != state {
                    lemma_new_bands_are_fair(m, state, queued.config);
                }
                assert(m.has_fair_bands(queued));
                if queued.queue.len() >= LO_FFT_SIZE {
                    law_moderate_audio_has_sound_energies(m, queued);
                }
                lemma_analysis_stays_in_range(m, queued);
                law_analysis_keeps_setup(m, queued);
            }
        },
    }
}

/// After any blocks of audio and changes of settings on a new meter, every level is
/// between zero and its peak and every peak at most one, in what the meter holds and in
/// what it shows.
pub proof fn law_levels_stay_in_range<K: Kit>(
    m: Model<K>,
    config: ChromaConfig<K>,
    events: Seq<Event<K>>,
)
    requires
        m.respects_order(),
        m.decays_in_order(),
        m.is_tuned(config),
        m.are_ordinary(m.initial(config), events),
    ensures
        m.has_fair_bands(m.after_all(m.initial(config), events)),
        m.is_in_range(m.after_all(m.initial(config), events)),
    decreases events.len(),
{
    if events.len() == 0 {
        lemma_zeros_are_in_range(m);
        lemma_new_bands_are_fair(m, m.initial(config), config);
    } else {
        law_levels_stay_in_range(m, config, events.drop_last());
        law_events_stay_in_range(
            m,
            m.after_all(m.initial(config), events.drop_last()),
            events.last(),
        );
    }
}

} // verus!
