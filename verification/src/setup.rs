//! What the meters are set up with: after any change of rate, length or settings they
//! analyse what comes in as those settings ask for.
use crate::audio::channels_for;
use crate::chroma::{law_analysis_keeps_setup, ChromaConfig, ChromaState};
use crate::exact::{lemma_fraction, lemma_units, lemma_whole_number, multiple, Reading};
use crate::history::Event;
use crate::kit::{Kit, Model, WindowKind};
use crate::sizing::{hop_for, window_count};
use crate::tuning::{goes_to_the_nearest, law_bins_go_to_the_nearest_classes, semitones_from_c0};
use crate::waterfall::{law_begins_without_tilt, law_one_frame_per_window, WaterfallState};
use vstd::prelude::*;

verus! {

impl<K: Kit> Model<K> {
    /// Whether the bands of a meter are those of the settings that it reports.
    pub open spec fn fits(self, state: ChromaState<K>) -> bool {
        &&& state.lo == self.lo_band(state.config)
        &&& state.hi == self.hi_band(state.config)
    }

    /// Whether every number is finite, as in exact arithmetic.
    pub open spec fn has_only_finite_numbers(self) -> bool {
        forall|a: K::Num| #[trigger] self.is_finite(a)
    }
}

/// A block leaves the bands those of the settings, whatever rate it comes at, and so does
/// the making of a meter.
pub proof fn law_blocks_keep_the_bands_fitting<K: Kit>(
    m: Model<K>,
    state: ChromaState<K>,
    samples: Seq<K::Num>,
    channels: int,
    sample_rate: K::Num,
)
    requires
        m.fits(state),
    ensures
        m.fits(m.processed(state, samples, channels, sample_rate)),
        m.fits(m.initial(state.config)),
{
    let tuned = m.retuned(state, sample_rate);
    let mono = m.mixdown(samples, channels_for(channels));
    law_analysis_keeps_setup(m, ChromaState { queue: tuned.queue + mono, ..tuned });
}

/// A number as far as `tolerance` from another, or closer.
pub open spec fn is_close(a: real, b: real, tolerance: real) -> bool {
    -tolerance <= a - b <= tolerance
}

/// Numbers are apart where their values are.
proof fn lemma_apart<K: Kit>(m: Model<K>, v: Reading<K>, a: K::Num, b: K::Num, tolerance: K::Num)
    requires
        m.is_exact(v),
        m.is_exact_order(v),
        m.is_exact_size(v),
    ensures
        m.apart(a, b, tolerance) == !is_close(v.num(a), v.num(b), v.num(tolerance)),
{
}

/// After a block the meter goes by the rate of the block, taken as at least one: the rate
/// that it reports is that rate, or was already no further from it than one is from the
/// next number. No other setting changes.
pub proof fn law_the_meter_goes_by_the_rate_of_a_block<K: Kit>(
    m: Model<K>,
    v: Reading<K>,
    state: ChromaState<K>,
    samples: Seq<K::Num>,
    channels: int,
    sample_rate: K::Num,
)
    requires
        m.is_exact(v),
        m.is_exact_order(v),
        m.is_exact_size(v),
    ensures
        ({
            let after = m.processed(state, samples, channels, sample_rate);
            let rate = if v.num(sample_rate) < 1 as real {
                1 as real
            } else {
                v.num(sample_rate)
            };
            let tolerance = (1 as real) / (8388608 as real);
            &&& after.config == (ChromaConfig {
                sample_rate: after.config.sample_rate,
                ..state.config
            })
            &&& is_close(rate, v.num(state.config.sample_rate), tolerance)
                ==> after.config.sample_rate == state.config.sample_rate
            &&& !is_close(rate, v.num(state.config.sample_rate), tolerance) ==> v.num(
                after.config.sample_rate,
            ) == rate
        }),
{
    let tuned = m.retuned(state, sample_rate);
    let mono = m.mixdown(samples, channels_for(channels));
    let one = m.one();
    let rate = m.larger(sample_rate, one);
    lemma_units(m, v);
    lemma_fraction(m, v, 1, 8388608);
    lemma_apart(m, v, rate, state.config.sample_rate, m.rate_tolerance());
    law_analysis_keeps_setup(m, ChromaState { queue: tuned.queue + mono, ..tuned });
}

/// A block at another rate starts anew: what was queued, and the levels and peaks so far, do
/// not matter. The meter goes on as a new one with the same settings at that rate would,
/// except that it shows what it showed until a hop is completed.
pub proof fn law_another_rate_starts_anew<K: Kit>(
    m: Model<K>,
    v: Reading<K>,
    state: ChromaState<K>,
    samples: Seq<K::Num>,
    channels: int,
    sample_rate: K::Num,
)
    requires
        m.is_exact(v),
        m.is_exact_order(v),
        m.is_exact_size(v),
        v.num(sample_rate) >= 1 as real,
        !is_close(
            v.num(sample_rate),
            v.num(state.config.sample_rate),
            (1 as real) / (8388608 as real),
        ),
    ensures
        ({
            let after = m.processed(state, samples, channels, sample_rate);
            let fresh = m.processed(
                m.initial(ChromaConfig { sample_rate, ..state.config }),
                samples,
                channels,
                sample_rate,
            );
            let mono = m.mixdown(samples, channels_for(channels));
            &&& mono.len() >= 16384 ==> after == fresh
            &&& mono.len() < 16384 ==> after == (ChromaState {
                shown_bins: state.shown_bins,
                shown_peaks: state.shown_peaks,
                ..fresh
            })
        }),
{
    let rate = m.larger(sample_rate, m.one());
    let mono = m.mixdown(samples, channels_for(channels));
    let config = ChromaConfig { sample_rate, ..state.config };
    lemma_units(m, v);
    lemma_fraction(m, v, 1, 8388608);
    assert(v.same(rate, sample_rate));
    lemma_apart(m, v, rate, state.config.sample_rate, m.rate_tolerance());
    lemma_apart(m, v, rate, config.sample_rate, m.rate_tolerance());
    let tuned = m.retuned(state, sample_rate);
    let fresh = m.initial(config);
    assert(m.retuned(fresh, sample_rate) == fresh);
    assert(tuned == (ChromaState {
        shown_bins: state.shown_bins,
        shown_peaks: state.shown_peaks,
        ..fresh
    }));
    let queued = ChromaState { queue: tuned.queue + mono, ..tuned };
    let other = ChromaState { queue: fresh.queue + mono, ..fresh };
    assert(queued.queue =~= mono);
    lemma_shown_does_not_matter(m, queued, other.shown_bins, other.shown_peaks);
    law_analysis_keeps_setup(m, queued);
    law_analysis_keeps_setup(m, other);
}

/// The analysis does not depend on what is shown.
proof fn lemma_shown_does_not_matter<K: Kit>(
    m: Model<K>,
    state: ChromaState<K>,
    shown_bins: Seq<K::Num>,
    shown_peaks: Seq<K::Num>,
)
    ensures
        m.analysed(ChromaState { shown_bins, shown_peaks, ..state }) == (ChromaState {
            shown_bins,
            shown_peaks,
            ..m.analysed(state)
        }),
    decreases state.queue.len(),
{
    if state.queue.len() >= 16384 {
        let other = ChromaState { shown_bins, shown_peaks, ..state };
        let next = m.hopped(state);
        lemma_shown_does_not_matter(m, next, shown_bins, shown_peaks);
        assert(m.hopped(other) == (ChromaState { shown_bins, shown_peaks, ..next }));
    }
}

/// Hops are as long as asked for, from one sample up to a whole window.
pub proof fn law_hops_are_as_long_as_asked_for<K: Kit>(
    config: ChromaConfig<K>,
    state: WaterfallState<K>,
)
    requires
        1 <= state.fft_size,
    ensures
        1 <= config.hop() <= 16384,
        1 <= config.hop_size <= 16384 ==> config.hop() == config.hop_size,
        config.hop_size > 16384 ==> config.hop() == 16384,
        1 <= state.hop() <= state.fft_size,
        1 <= state.hop_size <= state.fft_size ==> state.hop() == state.hop_size,
        state.hop_size > state.fft_size ==> state.hop() == state.fft_size,
{
}

/// Whether two configurations have nearly the same bands: rates no further apart than one
/// is from the next number, and limits and tunings no further apart than a hundredth of a
/// hertz.
pub open spec fn is_negligible<K: Kit>(
    v: Reading<K>,
    from: ChromaConfig<K>,
    to: ChromaConfig<K>,
) -> bool {
    let hundredth = (1 as real) / (100 as real);
    &&& is_close(
        v.num(to.sample_rate),
        v.num(from.sample_rate),
        (1 as real) / (8388608 as real),
    )
    &&& is_close(v.num(to.min_freq_hz), v.num(from.min_freq_hz), hundredth)
    &&& is_close(v.num(to.max_freq_hz), v.num(from.max_freq_hz), hundredth)
    &&& is_close(v.num(to.reference_hz), v.num(from.reference_hz), hundredth)
}

/// New settings hold at once. Where they call for other bands, the bands become those of
/// the settings and what was heard is forgotten; where not, nothing but the settings
/// changes. What is shown stays either way.
pub proof fn law_settings_hold_at_once<K: Kit>(
    m: Model<K>,
    v: Reading<K>,
    state: ChromaState<K>,
    config: ChromaConfig<K>,
)
    requires
        m.is_exact(v),
        m.is_exact_order(v),
        m.is_exact_size(v),
    ensures
        ({
            let after = m.reconfigured(state, config);
            &&& after.config == config
            &&& after.shown_bins == state.shown_bins
            &&& after.shown_peaks == state.shown_peaks
            &&& !is_negligible(v, state.config, config) ==> {
                &&& m.fits(after)
                &&& after.queue.len() == 0
                &&& after.smoothed == m.no_energy()
                &&& after.peaks == m.no_energy()
            }
            &&& is_negligible(v, state.config, config) ==> after == (ChromaState {
                config,
                ..state
            })
        }),
{
    let hundredth = m.ratio(1, 100);
    lemma_fraction(m, v, 1, 8388608);
    lemma_fraction(m, v, 1, 100);
    lemma_apart(m, v, config.sample_rate, state.config.sample_rate, m.rate_tolerance());
    lemma_apart(m, v, config.min_freq_hz, state.config.min_freq_hz, hundredth);
    lemma_apart(m, v, config.max_freq_hz, state.config.max_freq_hz, hundredth);
    lemma_apart(m, v, config.reference_hz, state.config.reference_hz, hundredth);
}

impl<K: Kit> Model<K> {
    /// Whether no event changes settings by so little that the bands are kept, except for
    /// changes that leave what bands depend on as it is.
    pub open spec fn are_decisive(self, state: ChromaState<K>, events: Seq<Event<K>>) -> bool
        decreases events.len(),
    {
        events.len() > 0 ==> {
            let from = self.after_all(state, events.drop_last()).config;
            &&& self.are_decisive(state, events.drop_last())
            &&& events.last() matches Event::Setting { config } ==> self.needs_rebuild(
                from,
                config,
            ) || {
                &&& config.sample_rate == from.sample_rate
                &&& config.min_freq_hz == from.min_freq_hz
                &&& config.max_freq_hz == from.max_freq_hz
                &&& config.reference_hz == from.reference_hz
            }
        }
    }
}

/// Whatever blocks come in, at whatever rates, and however the settings change, the bands
/// of a meter are those of the settings that it reports.
pub proof fn law_the_bands_fit_throughout<K: Kit>(
    m: Model<K>,
    config: ChromaConfig<K>,
    events: Seq<Event<K>>,
)
    requires
        m.are_decisive(m.initial(config), events),
    ensures
        m.fits(m.after_all(m.initial(config), events)),
    decreases events.len(),
{
    if events.len() > 0 {
        law_the_bands_fit_throughout(m, config, events.drop_last());
        let before = m.after_all(m.initial(config), events.drop_last());
        match events.last() {
            Event::Setting { config } => {},
            Event::Block { samples, channels, sample_rate } => {
                law_blocks_keep_the_bands_fitting(m, before, samples, channels, sample_rate);
            },
        }
    }
}

/// The frequency of a bin of a transform, in hertz.
pub open spec fn bin_frequency(bin: int, size: int, rate: real) -> real {
    multiple(bin, rate) / (size as real)
}

/// A bin is shared where its frequency is positive and within the limits of the band.
pub proof fn law_bins_within_the_limits_are_shared<K: Kit>(
    m: Model<K>,
    v: Reading<K>,
    size: int,
    sample_rate: K::Num,
    min_freq: K::Num,
    max_freq: K::Num,
    reference_hz: K::Num,
    bin: int,
)
    requires
        m.is_exact(v),
        m.is_exact_order(v),
        m.has_only_finite_numbers(),
        2 <= size,
        0 <= bin <= size / 2,
    ensures
        ({
            let band = m.band(size, sample_rate, min_freq, max_freq, reference_hz);
            let hz = bin_frequency(bin, size, v.num(sample_rate));
            &&& band.contribs.len() == size / 2 + 1
            &&& band.contribs[bin] is Some <==> hz > 0 as real && v.num(min_freq) <= hz <= v.num(
                max_freq,
            )
        }),
{
    let rate = v.num(sample_rate);
    let n = size as real;
    let b = bin as real;
    let hz = m.times(m.count(bin), m.over(sample_rate, m.count(size)));
    lemma_units(m, v);
    assert(v.num(hz) == b * (rate / n));
    assert(b * (rate / n) == (b * rate) / n) by (nonlinear_arith)
        requires
            n > 0 as real,
    ;
    assert(v.num(hz) == bin_frequency(bin, size, rate));
}

/// The bass band is heard up to one kilohertz and the treble band from there on: each
/// shares the bins between its two limits, of windows of 16384 and 2048 samples.
pub proof fn law_bands_hear_their_registers<K: Kit>(
    m: Model<K>,
    v: Reading<K>,
    state: ChromaState<K>,
    bin: int,
)
    requires
        m.is_exact(v),
        m.is_exact_order(v),
        m.has_only_finite_numbers(),
        m.fits(state),
    ensures
        ({
            let config = state.config;
            let low = v.num(config.min_freq_hz);
            let high = v.num(config.max_freq_hz);
            let bass_hz = bin_frequency(bin, 16384, v.num(config.sample_rate));
            let treble_hz = bin_frequency(bin, 2048, v.num(config.sample_rate));
            &&& state.lo.contribs.len() == 8193
            &&& state.hi.contribs.len() == 1025
            &&& 0 <= bin <= 8192 ==> (state.lo.contribs[bin] is Some <==> bass_hz > 0 as real
                && low <= bass_hz <= 1000 as real)
            &&& 0 <= bin <= 1024 ==> (state.hi.contribs[bin] is Some <==> treble_hz > 0 as real
                && 1000 as real <= treble_hz <= high)
        }),
{
    let config = state.config;
    let b = if 0 <= bin <= 8192 {
        bin
    } else {
        0
    };
    let c = if 0 <= bin <= 1024 {
        bin
    } else {
        0
    };
    lemma_whole_number(m, v, 1000);
    law_bins_within_the_limits_are_shared(
        m,
        v,
        16384,
        config.sample_rate,
        config.min_freq_hz,
        m.ratio(1000, 1),
        config.reference_hz,
        b,
    );
    law_bins_within_the_limits_are_shared(
        m,
        v,
        2048,
        config.sample_rate,
        m.ratio(1000, 1),
        config.max_freq_hz,
        config.reference_hz,
        c,
    );
}

/// The two bands leave no gap: a frequency between the limits of the settings that is a bin
/// of the treble band, and so of the bass band, is shared by one of them. Between a bin
/// that the bass band no longer shares and the upper limit the treble band shares every bin.
pub proof fn law_the_bands_leave_no_gap<K: Kit>(
    m: Model<K>,
    v: Reading<K>,
    state: ChromaState<K>,
    bass: int,
    treble: int,
)
    requires
        m.is_exact(v),
        m.is_exact_order(v),
        m.has_only_finite_numbers(),
        m.fits(state),
        0 <= bass < state.lo.contribs.len(),
        0 <= treble < state.hi.contribs.len(),
        ({
            let rate = v.num(state.config.sample_rate);
            let low = v.num(state.config.min_freq_hz);
            let high = v.num(state.config.max_freq_hz);
            let from = bin_frequency(bass, state.lo.fft_size, rate);
            let to = bin_frequency(treble, state.hi.fft_size, rate);
            &&& from > 0 as real
            &&& low <= from <= to <= high
        }),
    ensures
        state.lo.contribs[bass] is Some || state.hi.contribs[treble] is Some,
{
    law_bands_hear_their_registers(m, v, state, bass);
    law_bands_hear_their_registers(m, v, state, treble);
}

/// The bands meet whatever the numbers are: a frequency that is a bin of both, and is not
/// below the lower limit of the settings nor above the upper one, is shared by one of them,
/// where of two numbers not each is less than the other.
pub proof fn law_the_bands_meet<K: Kit>(
    m: Model<K>,
    state: ChromaState<K>,
    bass: int,
    treble: int,
    hz: K::Num,
)
    requires
        m.fits(state),
        forall|a: K::Num, b: K::Num| #[trigger] m.less(a, b) ==> !m.less(b, a),
        0 <= bass <= 8192,
        0 <= treble <= 1024,
        hz == m.times(m.count(bass), m.over(state.config.sample_rate, m.count(16384))),
        hz == m.times(m.count(treble), m.over(state.config.sample_rate, m.count(2048))),
        m.has_pitch(hz),
        !m.less(hz, state.config.min_freq_hz),
        !m.less(state.config.max_freq_hz, hz),
    ensures
        state.lo.contribs[bass] is Some || state.hi.contribs[treble] is Some,
{
}

/// Every bin of both bands that is shared goes to the classes nearest to the frequency that
/// the bin has at the rate of the settings, counted from the tuning of the settings. This is
/// so in exact arithmetic.
pub proof fn law_bands_go_by_rate_and_tuning<K: Kit>(
    m: Model<K>,
    v: Reading<K>,
    lg: spec_fn(real) -> real,
    state: ChromaState<K>,
    bin: int,
)
    requires
        m.is_exact_pitch(v, lg),
        m.fits(state),
        v.num(state.config.reference_hz) > 0 as real,
    ensures
        ({
            let rate = v.num(state.config.sample_rate);
            let reference = v.num(state.config.reference_hz);
            &&& 0 <= bin <= 8192 ==> (state.lo.contribs[bin] matches Some(c)
                ==> goes_to_the_nearest(
                semitones_from_c0(lg, bin_frequency(bin, 16384, rate), reference),
                c.near.class as int,
                c.next.class as int,
            ))
            &&& 0 <= bin <= 1024 ==> (state.hi.contribs[bin] matches Some(c)
                ==> goes_to_the_nearest(
                semitones_from_c0(lg, bin_frequency(bin, 2048, rate), reference),
                c.near.class as int,
                c.next.class as int,
            ))
        }),
{
    let config = state.config;
    if 0 <= bin <= 8192 {
        law_bins_go_to_the_nearest_classes(
            m,
            v,
            lg,
            16384,
            config.sample_rate,
            config.min_freq_hz,
            m.ratio(1000, 1),
            config.reference_hz,
            bin,
        );
    }
    if 0 <= bin <= 1024 {
        law_bins_go_to_the_nearest_classes(
            m,
            v,
            lg,
            2048,
            config.sample_rate,
            m.ratio(1000, 1),
            config.max_freq_hz,
            config.reference_hz,
            bin,
        );
    }
}

/// A block is heard at its own rate: after a block at another rate than before, every bin of
/// both bands that is shared goes to the classes nearest to the frequency that the bin has
/// at the rate of the block. This is so in exact arithmetic.
pub proof fn law_a_block_is_heard_at_its_rate<K: Kit>(
    m: Model<K>,
    v: Reading<K>,
    lg: spec_fn(real) -> real,
    state: ChromaState<K>,
    samples: Seq<K::Num>,
    channels: int,
    sample_rate: K::Num,
    bin: int,
)
    requires
        m.is_exact_pitch(v, lg),
        m.is_exact_size(v),
        m.fits(state),
        v.num(state.config.reference_hz) > 0 as real,
        v.num(sample_rate) >= 1 as real,
        !is_close(
            v.num(sample_rate),
            v.num(state.config.sample_rate),
            (1 as real) / (8388608 as real),
        ),
    ensures
        ({
            let after = m.processed(state, samples, channels, sample_rate);
            let rate = v.num(sample_rate);
            let reference = v.num(state.config.reference_hz);
            &&& 0 <= bin <= 8192 ==> (after.lo.contribs[bin] matches Some(c)
                ==> goes_to_the_nearest(
                semitones_from_c0(lg, bin_frequency(bin, 16384, rate), reference),
                c.near.class as int,
                c.next.class as int,
            ))
            &&& 0 <= bin <= 1024 ==> (after.hi.contribs[bin] matches Some(c)
                ==> goes_to_the_nearest(
                semitones_from_c0(lg, bin_frequency(bin, 2048, rate), reference),
                c.near.class as int,
                c.next.class as int,
            ))
        }),
{
    let after = m.processed(state, samples, channels, sample_rate);
    law_blocks_keep_the_bands_fitting(m, state, samples, channels, sample_rate);
    law_the_meter_goes_by_the_rate_of_a_block(m, v, state, samples, channels, sample_rate);
    law_bands_go_by_rate_and_tuning(m, v, lg, after, bin);
}

/// The bands are analysed with Hann windows of their length, and a bin of a magnitude that
/// is a part of the length has the power of that part, whatever the length.
pub proof fn law_bands_are_windowed<K: Kit>(m: Model<K>, v: Reading<K>, state: ChromaState<K>)
    requires
        m.is_exact(v),
        m.fits(state),
    ensures
        state.lo.fft_size == 16384,
        state.hi.fft_size == 2048,
        state.lo.plan == m.plan(16384),
        state.hi.plan == m.plan(2048),
        state.lo.window == m.window(WindowKind::Hann, 16384),
        state.hi.window == m.window(WindowKind::Hann, 2048),
        v.num(state.lo.scale) * (16384 as real) * (16384 as real) == 1 as real,
        v.num(state.hi.scale) * (2048 as real) * (2048 as real) == 1 as real,
{
    lemma_scale(m, v, 16384);
    lemma_scale(m, v, 2048);
}

/// The power scale is one over the squared length.
pub proof fn lemma_scale<K: Kit>(m: Model<K>, v: Reading<K>, size: int)
    requires
        m.is_exact(v),
        1 <= size,
    ensures
        v.num(m.power_scale(size)) * (size as real) * (size as real) == 1 as real,
{
    let n = size as real;
    let scale = v.num(m.power_scale(size));
    lemma_units(m, v);
    assert(n * n != 0 as real) by (nonlinear_arith)
        requires
            n >= 1 as real,
    ;
    assert(scale == (1 as real) / (n * n));
    assert(scale * n * n == 1 as real) by (nonlinear_arith)
        requires
            n >= 1 as real,
            scale == (1 as real) / (n * n),
    ;
}

impl<K: Kit> Model<K> {
    /// Whether the waterfall analysis is set up for the length, the rate and the tilt in
    /// use.
    pub open spec fn is_set_up(self, state: WaterfallState<K>) -> bool {
        &&& state.plan == self.plan(state.fft_size)
        &&& state.window == self.window(WindowKind::BlackmanHarris, state.fft_size)
        &&& state.bin_map == self.bin_map(state.fft_size, state.sample_rate)
        &&& state.tilt_weights == self.tilt_weights(
            state.bin_map,
            state.fft_size,
            state.sample_rate,
            state.tilt_db_per_octave,
        )
    }

    /// Whether windows have as many coefficients as were asked for, and transforms serve
    /// samples of their length.
    pub open spec fn serves_all_lengths(self) -> bool {
        &&& forall|kind: WindowKind, size: int|
            size >= 1 ==> (#[trigger] self.window(kind, size)).len() == size
        &&& forall|size: int, samples: Seq<K::Num>|
            size >= 1 && samples.len() == size ==> (#[trigger] self.spectrum(
                self.plan(size),
                size,
                samples,
            )) is Some
    }
}

/// A new waterfall analysis is set up, has nothing queued and no tilt, and shows levels down
/// to eighty decibels below full scale, in exact arithmetic.
pub proof fn law_a_new_waterfall_is_set_up<K: Kit>(
    m: Model<K>,
    v: Reading<K>,
    fft_size: int,
    hop_size: int,
    sample_rate: K::Num,
)
    requires
        m.is_exact(v),
        m.is_exact_order(v),
        m.is_exact_size(v),
    ensures
        ({
            let state = m.waterfall(fft_size, hop_size, sample_rate);
            &&& m.is_set_up(state)
            &&& state.fft_size == fft_size
            &&& state.hop_size == hop_size
            &&& state.sample_rate == sample_rate
            &&& state.queue.len() == 0
            &&& v.num(state.floor_db) == -(80 as real)
            &&& v.num(state.tilt_db_per_octave) == 0 as real
        }),
{
    lemma_units(m, v);
    lemma_fraction(m, v, 1, 1000);
    lemma_whole_number(m, v, -80);
    law_begins_without_tilt(m, fft_size, hop_size, sample_rate);
}

/// Whatever happens to an analysis that is set up leaves it so, for the length and the rate
/// then in use: another length, hop or rate, another tilt, feeding and draining. The length
/// and the hop are those that were asked for, and the rate as well unless the analysis
/// went by one that is no different.
pub proof fn law_the_waterfall_stays_set_up<K: Kit>(
    m: Model<K>,
    state: WaterfallState<K>,
    fft_size: int,
    hop_size: int,
    sample_rate: K::Num,
    tilt: K::Num,
    mono: Seq<K::Num>,
)
    requires
        m.is_set_up(state),
    ensures
        m.is_set_up(m.tilted(state, tilt)),
        m.is_set_up(state.fed(mono)),
        m.is_set_up(state.drained()),
        ({
            let after = m.waterfall_rebuilt(state, fft_size, hop_size, sample_rate);
            &&& m.is_set_up(after)
            &&& after.fft_size == fft_size
            &&& after.hop_size == hop_size
            &&& after.sample_rate == sample_rate || after.sample_rate == state.sample_rate
                && !m.apart(sample_rate, after.sample_rate, m.rate_tolerance())
        }),
{
}

/// A change of length, hop or rate leaves the analysis set up for what was asked for: the
/// length and the hop are as asked for, and so is the rate, up to the distance from one to
/// the next number. Nothing is left in the queue where the length or the rate changed.
pub proof fn law_rebuilding_sets_up_anew<K: Kit>(
    m: Model<K>,
    v: Reading<K>,
    state: WaterfallState<K>,
    fft_size: int,
    hop_size: int,
    sample_rate: K::Num,
)
    requires
        m.is_exact(v),
        m.is_exact_order(v),
        m.is_exact_size(v),
        m.is_set_up(state),
    ensures
        ({
            let after = m.waterfall_rebuilt(state, fft_size, hop_size, sample_rate);
            let tolerance = (1 as real) / (8388608 as real);
            let same = fft_size == state.fft_size && is_close(
                v.num(sample_rate),
                v.num(state.sample_rate),
                tolerance,
            );
            &&& m.is_set_up(after)
            &&& after.fft_size == fft_size
            &&& after.hop_size == hop_size
            &&& after.floor_db == state.floor_db
            &&& after.tilt_db_per_octave == state.tilt_db_per_octave
            &&& same ==> after.sample_rate == state.sample_rate && after.queue == state.queue
            &&& !same ==> after.sample_rate == sample_rate && after.queue.len() == 0
        }),
{
    lemma_fraction(m, v, 1, 8388608);
    lemma_apart(m, v, sample_rate, state.sample_rate, m.rate_tolerance());
}

/// A tilt that differs by more than a thousandth is taken, another is not. Nothing else but
/// the gains changes with it.
pub proof fn law_a_new_tilt_is_taken<K: Kit>(
    m: Model<K>,
    v: Reading<K>,
    state: WaterfallState<K>,
    tilt: K::Num,
)
    requires
        m.is_exact(v),
        m.is_exact_order(v),
        m.is_exact_size(v),
    ensures
        ({
            let after = m.tilted(state, tilt);
            let same = is_close(
                v.num(tilt),
                v.num(state.tilt_db_per_octave),
                (1 as real) / (1000 as real),
            );
            &&& same ==> after == state
            &&& !same ==> after == (WaterfallState {
                tilt_db_per_octave: tilt,
                tilt_weights: after.tilt_weights,
                ..state
            })
        }),
{
    lemma_fraction(m, v, 1, 1000);
    lemma_apart(m, v, tilt, state.tilt_db_per_octave, m.ratio(1, 1000));
}

/// An analysis that is set up yields a frame for every whole window that is queued, also
/// after another length was asked for: none of its transforms fails, where windows and
/// transforms serve all lengths.
pub proof fn law_a_frame_for_every_window<K: Kit>(
    m: Model<K>,
    state: WaterfallState<K>,
    fft_size: int,
    hop_size: int,
    sample_rate: K::Num,
    mono: Seq<K::Num>,
)
    requires
        m.serves_all_lengths(),
        m.is_set_up(state),
        1 <= fft_size,
        fft_size != state.fft_size,
    ensures
        m.frames(m.waterfall_rebuilt(state, fft_size, hop_size, sample_rate).fed(mono)).len()
            == window_count(mono.len() as int, fft_size, hop_for(hop_size, fft_size)),
        1 <= state.fft_size ==> m.frames(state).len() == window_count(
            state.queue.len() as int,
            state.fft_size,
            hop_for(state.hop_size, state.fft_size),
        ),
{
    let after = m.waterfall_rebuilt(state, fft_size, hop_size, sample_rate).fed(mono);
    assert(after.queue =~= mono);
    assert(m.transforms(after));
    law_one_frame_per_window(m, after);
    if 1 <= state.fft_size {
        assert(m.transforms(state));
        law_one_frame_per_window(m, state);
    }
}

} // verus!
