//! What a hop of the pitch class meter shows: amplitudes relative to the strongest class,
//! approached at an even pace, of the energies that both bands hear.
use crate::band::{tail_of, Band};
use crate::chroma::{law_hops_see_the_latest_samples, ChromaState, LO_FFT_SIZE};
use crate::decibels::{lemma_peak_is_the_largest, most, norm_of};
use crate::exact::{lemma_fraction, lemma_units, Reading};
use crate::kit::{lemma_sum_from_append, Complex, Kit, Model};
use crate::pitch::{
    class_weights, lemma_class_weights_step, share_for, weights_for, BinContrib, Share,
};
use crate::sizing::{lemma_window_count_step, window_count};
use vstd::prelude::*;

verus! {

impl<K: Kit> Model<K> {
    /// Whether no energy of twelve is negative.
    pub open spec fn has_energies(self, v: Reading<K>, energy: Seq<K::Num>) -> bool {
        &&& energy.len() == 12
        &&& forall|c: int| 0 <= c < 12 ==> v.num(#[trigger] energy[c]) >= 0 as real
    }
}

/// Energies are shown as amplitudes: the squares of the levels of two classes are as their
/// energies. The strongest class stands at one and none above it; without energy all stand
/// at zero. This is so in exact arithmetic.
pub proof fn law_levels_are_relative_amplitudes<K: Kit>(
    m: Model<K>,
    v: Reading<K>,
    energy: Seq<K::Num>,
    c: int,
    d: int,
)
    requires
        m.is_exact(v),
        m.is_exact_order(v),
        m.has_energies(v, energy),
        0 <= c < 12,
        0 <= d < 12,
    ensures
        ({
            let shown = v.num(m.relative(energy)[c]);
            let other = v.num(m.relative(energy)[d]);
            &&& 0 as real <= shown <= 1 as real
            &&& shown * shown * v.num(energy[d]) == other * other * v.num(energy[c])
            &&& v.num(energy[c]) == 0 as real ==> shown == 0 as real
            &&& (v.num(energy[c]) > 0 as real && forall|e: int|
                0 <= e < 12 ==> v.num(#[trigger] energy[e]) <= v.num(energy[c])) ==> shown
                == 1 as real
        }),
{
    let peak = v.num(m.peak(energy));
    let x = v.num(energy[c]);
    let y = v.num(energy[d]);
    let shown = v.num(m.relative(energy)[c]);
    let other = v.num(m.relative(energy)[d]);
    lemma_units(m, v);
    lemma_peak_is_the_largest(m, v, energy);
    assert(0 as real <= x <= peak);
    assert(0 as real <= y <= peak);
    if peak > 0 as real {
        let p = x / peak;
        let q = y / peak;
        lemma_part(x, peak, p);
        lemma_part(y, peak, q);
        assert(shown >= 0 as real && shown * shown == p);
        assert(other >= 0 as real && other * other == q);
        assert(shown <= 1 as real) by (nonlinear_arith)
            requires
                shown >= 0 as real,
                shown * shown == p,
                p <= 1 as real,
        ;
        assert(p * y == q * x) by (nonlinear_arith)
            requires
                peak > 0 as real,
                p == x / peak,
                q == y / peak,
        ;
        if x == 0 as real {
            assert(shown == 0 as real) by (nonlinear_arith)
                requires
                    shown * shown == p,
                    p * peak == x,
                    x == 0 as real,
                    peak > 0 as real,
            ;
        }
        if x > 0 as real && forall|e: int| 0 <= e < 12 ==> v.num(#[trigger] energy[e]) <= x {
            let k = choose|k: int| 0 <= k < energy.len() && v.num(#[trigger] energy[k]) == peak;
            assert(v.num(energy[k]) <= x);
            assert(shown == 1 as real) by (nonlinear_arith)
                requires
                    shown >= 0 as real,
                    shown * shown == p,
                    p * peak == x,
                    x == peak,
                    peak > 0 as real,
            ;
        }
    } else {
        assert(shown == 0 as real);
        assert(other == 0 as real);
        assert(shown * shown * y == other * other * x) by (nonlinear_arith)
            requires
                shown == 0 as real,
                other == 0 as real,
        ;
    }
}

/// A part of a whole is between zero and one.
proof fn lemma_part(x: real, whole: real, part: real)
    requires
        0 as real <= x <= whole,
        whole > 0 as real,
        part == x / whole,
    ensures
        0 as real <= part <= 1 as real,
        part * whole == x,
{
    assert(0 as real <= part <= 1 as real && part * whole == x) by (nonlinear_arith)
        requires
            0 as real <= x <= whole,
            whole > 0 as real,
            part == x / whole,
    ;
}

/// How loud all of it is does not matter: energies that are all some positive factor of
/// others are shown alike, in exact arithmetic.
pub proof fn law_loudness_does_not_matter<K: Kit>(
    m: Model<K>,
    v: Reading<K>,
    energy: Seq<K::Num>,
    louder: Seq<K::Num>,
    factor: real,
)
    requires
        m.is_exact(v),
        m.is_exact_order(v),
        m.has_energies(v, energy),
        louder.len() == 12,
        factor > 0 as real,
        forall|c: int| 0 <= c < 12 ==> v.num(#[trigger] louder[c]) == factor * v.num(energy[c]),
    ensures
        m.relative(louder) == m.relative(energy),
{
    lemma_units(m, v);
    lemma_peak_is_the_largest(m, v, energy);
    let k = choose|k: int|
        0 <= k < energy.len() && v.num(#[trigger] energy[k]) == v.num(m.peak(energy));
    let top = v.num(m.peak(energy));
    assert forall|c: int| 0 <= c < 12 implies v.num(#[trigger] louder[c]) >= 0 as real by {
        let x = v.num(energy[c]);
        assert(factor * x >= 0 as real) by (nonlinear_arith)
            requires
                factor > 0 as real,
                x >= 0 as real,
        ;
    }
    lemma_peak_is_the_largest(m, v, louder);
    let j = choose|j: int|
        0 <= j < louder.len() && v.num(#[trigger] louder[j]) == v.num(m.peak(louder));
    let high = v.num(m.peak(louder));
    let y = v.num(energy[j]);
    assert(v.num(louder[k]) == factor * top);
    assert(y <= top);
    assert(high == factor * top) by (nonlinear_arith)
        requires
            factor > 0 as real,
            high == factor * y,
            y <= top,
            factor * top <= high,
    ;
    assert(factor * top > 0 as real <==> top > 0 as real) by (nonlinear_arith)
        requires
            factor > 0 as real,
    ;
    assert forall|c: int| 0 <= c < 12 implies #[trigger] m.relative(louder)[c]
        == m.relative(energy)[c] by {
        let x = v.num(energy[c]);
        assert(v.num(louder[c]) == factor * x);
        if top > 0 as real {
            let part = x / top;
            assert((factor * x) / high == part) by (nonlinear_arith)
                requires
                    factor > 0 as real,
                    top > 0 as real,
                    high == factor * top,
                    part == x / top,
            ;
            assert(v.same(m.over(louder[c], m.peak(louder)), m.over(energy[c], m.peak(energy))));
        }
    }
    assert(m.relative(louder) =~= m.relative(energy));
}

/// A real, held between two others.
pub open spec fn held_between(a: real, low: real, high: real) -> real {
    if a < low {
        low
    } else if a > high {
        high
    } else {
        a
    }
}

/// The pace of a smoothing: at least a hundredth and at most one.
pub open spec fn pace_of(smoothing: real) -> real {
    held_between(smoothing, (1 as real) / (100 as real), 1 as real)
}

/// At every hop a level leaves a part of the way to what was measured, one less its pace,
/// and a peak decays by its factor but never falls below the level. This is so in exact
/// arithmetic.
pub proof fn law_a_hop_goes_part_of_the_way<K: Kit>(
    m: Model<K>,
    v: Reading<K>,
    state: ChromaState<K>,
    energy: Seq<K::Num>,
    class: int,
)
    requires
        m.is_exact(v),
        m.is_exact_order(v),
        0 <= class < 12,
    ensures
        ({
            let after = m.absorbed(state, energy);
            let target = v.num(m.relative(energy)[class]);
            let level = v.num(after.smoothed[class]);
            let rest = 1 as real - pace_of(v.num(state.config.smoothing));
            let decay = held_between(
                v.num(state.config.peak_decay),
                (9 as real) / (10 as real),
                (999 as real) / (1000 as real),
            );
            &&& target - level == rest * (target - v.num(state.smoothed[class]))
            &&& v.num(after.peaks[class]) == most(v.num(state.peaks[class]) * decay, level)
            &&& after == (ChromaState { smoothed: after.smoothed, peaks: after.peaks, ..state })
        }),
{
    let after = m.absorbed(state, energy);
    let target = v.num(m.relative(energy)[class]);
    let before = v.num(state.smoothed[class]);
    let level = v.num(after.smoothed[class]);
    let pace = v.num(m.pace(state.config));
    lemma_units(m, v);
    lemma_fraction(m, v, 1, 100);
    lemma_fraction(m, v, 900, 1000);
    lemma_fraction(m, v, 999, 1000);
    assert(pace == pace_of(v.num(state.config.smoothing)));
    assert(level == before + pace * (target - before));
    assert(target - level == (1 as real - pace) * (target - before)) by (nonlinear_arith)
        requires
            level == before + pace * (target - before),
    ;
    assert(after.peaks[class] == m.larger(
        m.times(state.peaks[class], m.decay(state.config)),
        after.smoothed[class],
    ));
}

/// `part` multiplied by itself `n` times.
pub open spec fn repeated(part: real, n: int) -> real
    decreases n,
{
    if n <= 0 {
        1 as real
    } else {
        part * repeated(part, n - 1)
    }
}

/// Every hop counts: what is left of the way from the levels to what the latest samples
/// measure is multiplied by one less the pace at each hop that the queue holds a bass
/// window for. This is so in exact arithmetic.
pub proof fn law_every_hop_approaches_the_measured<K: Kit>(
    m: Model<K>,
    v: Reading<K>,
    state: ChromaState<K>,
    class: int,
)
    requires
        m.is_exact(v),
        m.is_exact_order(v),
        state.lo.fft_size == LO_FFT_SIZE,
        0 <= state.hi.fft_size <= LO_FFT_SIZE,
        0 <= class < 12,
    ensures
        ({
            let hops = window_count(
                state.queue.len() as int,
                16384,
                state.config.hop(),
            );
            let target = v.num(m.relative(m.hop_energy(state))[class]);
            let rest = 1 as real - pace_of(v.num(state.config.smoothing));
            target - v.num(m.analysed(state).smoothed[class]) == repeated(rest, hops) * (target
                - v.num(state.smoothed[class]))
        }),
    decreases state.queue.len(),
{
    let hop = state.config.hop();
    let queued = state.queue.len() as int;
    let hops = window_count(queued, 16384, hop);
    let target = v.num(m.relative(m.hop_energy(state))[class]);
    let rest = 1 as real - pace_of(v.num(state.config.smoothing));
    let level = v.num(state.smoothed[class]);
    if queued < 16384 {
        assert(repeated(rest, 0) == 1 as real);
    } else {
        let next = m.hopped(state);
        let moved = v.num(next.smoothed[class]);
        lemma_window_count_step(queued, 16384, hop);
        law_a_hop_goes_part_of_the_way(m, v, state, m.hop_energy(state), class);
        law_every_hop_approaches_the_measured(m, v, next, class);
        let left = window_count(queued - hop, 16384, hop);
        let end = v.num(m.analysed(state).smoothed[class]);
        assert(m.analysed(state) == m.analysed(next));
        assert(next.queue.len() == queued - hop);
        if next.queue.len() >= LO_FFT_SIZE {
            law_hops_see_the_latest_samples(m, state);
        } else {
            assert(left == 0);
            assert(end == moved);
            assert(repeated(rest, 0) == 1 as real);
        }
        let part = repeated(rest, left);
        assert(target - end == part * (target - moved));
        assert(hops == left + 1);
        assert(0 <= left);
        assert(repeated(rest, hops) == rest * part);
        assert(part * (rest * (target - level)) == (rest * part) * (target - level))
            by (nonlinear_arith);
    }
}

/// Every hop lets the peaks decay, and they hold what the levels reached: after some hops a
/// peak is not below its level nor below what decay has left of it, and not above the
/// larger of that and the levels on the way. This is so in exact arithmetic.
pub proof fn law_every_hop_decays_the_peaks<K: Kit>(
    m: Model<K>,
    v: Reading<K>,
    state: ChromaState<K>,
    class: int,
)
    requires
        m.is_exact(v),
        m.is_exact_order(v),
        state.lo.fft_size == LO_FFT_SIZE,
        0 <= state.hi.fft_size <= LO_FFT_SIZE,
        m.has_energies(v, m.hop_energy(state)),
        0 <= class < 12,
        v.num(state.smoothed[class]) >= 0 as real,
        v.num(state.peaks[class]) >= v.num(state.smoothed[class]),
    ensures
        ({
            let hops = window_count(state.queue.len() as int, 16384, state.config.hop());
            let decay = held_between(
                v.num(state.config.peak_decay),
                (9 as real) / (10 as real),
                (999 as real) / (1000 as real),
            );
            let left = repeated(decay, hops) * v.num(state.peaks[class]);
            let target = v.num(m.relative(m.hop_energy(state))[class]);
            let peak = v.num(m.analysed(state).peaks[class]);
            &&& peak >= left
            &&& peak >= v.num(m.analysed(state).smoothed[class])
            &&& peak <= most(left, most(v.num(state.smoothed[class]), target))
        }),
    decreases state.queue.len(),
{
    let hop = state.config.hop();
    let queued = state.queue.len() as int;
    let hops = window_count(queued, 16384, hop);
    let decay = held_between(
        v.num(state.config.peak_decay),
        (9 as real) / (10 as real),
        (999 as real) / (1000 as real),
    );
    let energy = m.hop_energy(state);
    let target = v.num(m.relative(energy)[class]);
    let level = v.num(state.smoothed[class]);
    let peak = v.num(state.peaks[class]);
    if queued < 16384 {
        assert(repeated(decay, 0) == 1 as real);
        assert((1 as real) * peak == peak);
    } else {
        let next = m.hopped(state);
        let moved = v.num(next.smoothed[class]);
        let held = v.num(next.peaks[class]);
        let left = window_count(queued - hop, 16384, hop);
        let part = repeated(decay, left);
        let rest = 1 as real - pace_of(v.num(state.config.smoothing));
        lemma_window_count_step(queued, 16384, hop);
        law_a_hop_goes_part_of_the_way(m, v, state, energy, class);
        law_levels_are_relative_amplitudes(m, v, energy, class, class);
        assert(0 as real <= moved <= most(level, target)) by (nonlinear_arith)
            requires
                0 as real <= rest <= 1 as real,
                target - moved == rest * (target - level),
                0 as real <= level,
                0 as real <= target,
                most(level, target) == (if level < target { target } else { level }),
        ;
        assert(held == most(peak * decay, moved));
        assert(next.queue.len() == queued - hop);
        assert(hops == left + 1);
        let end = v.num(m.analysed(state).peaks[class]);
        assert(m.analysed(state) == m.analysed(next));
        if next.queue.len() >= LO_FFT_SIZE {
            law_hops_see_the_latest_samples(m, state);
            law_every_hop_decays_the_peaks(m, v, next, class);
            lemma_repeated(decay, left);
            assert(m.hop_energy(next) == energy);
            assert(next.config == state.config);
            assert(end >= part * held);
            assert(end <= most(part * held, most(moved, target)));
        } else {
            assert(left == 0);
            assert(m.analysed(next) == next);
            assert(part == 1 as real);
            assert(part * held == held) by (nonlinear_arith)
                requires
                    part == 1 as real,
            ;
        }
        assert(repeated(decay, hops) == decay * part);
        lemma_decayed(part, decay, peak, held, moved);
    }
}

/// What is multiplied by parts stays between zero and one.
proof fn lemma_repeated(part: real, n: int)
    requires
        0 as real <= part <= 1 as real,
    ensures
        0 as real <= repeated(part, n) <= 1 as real,
    decreases n,
{
    if n > 0 {
        lemma_repeated(part, n - 1);
        let so_far = repeated(part, n - 1);
        assert(0 as real <= part * so_far <= 1 as real) by (nonlinear_arith)
            requires
                0 as real <= part <= 1 as real,
                0 as real <= so_far <= 1 as real,
        ;
    }
}

/// What is left of the larger of a decayed peak and a level.
proof fn lemma_decayed(part: real, decay: real, peak: real, held: real, moved: real)
    requires
        0 as real <= part <= 1 as real,
        0 as real <= moved,
        held == most(peak * decay, moved),
    ensures
        part * held >= decay * part * peak,
        part * held <= most(decay * part * peak, moved),
{
    let once = peak * decay;
    assert(part * once == decay * part * peak) by (nonlinear_arith)
        requires
            once == peak * decay,
    ;
    assert(part * held >= part * once) by (nonlinear_arith)
        requires
            0 as real <= part,
            held >= once,
    ;
    assert(part * moved <= moved) by (nonlinear_arith)
        requires
            0 as real <= part <= 1 as real,
            0 as real <= moved,
    ;
}

/// Only the latest samples of a queue are heard, each weighed by the window at its place:
/// what came before them does not matter.
pub proof fn law_a_band_hears_the_latest_samples<K: Kit>(
    m: Model<K>,
    v: Reading<K>,
    band: Band<K>,
    earlier: Seq<K::Num>,
    latest: Seq<K::Num>,
    i: int,
)
    requires
        m.is_exact(v),
        latest.len() == band.fft_size == band.window.len(),
        0 <= i < latest.len(),
    ensures
        m.tail_spectrum(band, earlier + latest) == m.spectrum(
            band.plan,
            band.fft_size,
            m.windowed(latest, band.window),
        ),
        m.windowed(latest, band.window).len() == band.fft_size,
        v.num(m.windowed(latest, band.window)[i]) == v.num(latest[i]) * v.num(band.window[i]),
        m.tail_spectrum(band, latest.drop_last()) is None,
{
    assert(tail_of(earlier + latest, band.fft_size) =~= latest);
}

/// Terms add to any start alike.
proof fn lemma_sum_is_additive<K: Kit>(
    m: Model<K>,
    v: Reading<K>,
    start: K::Num,
    other: K::Num,
    terms: Seq<K::Num>,
)
    requires
        m.is_exact(v),
    ensures
        v.num(m.sum_from(start, terms)) - v.num(start) == v.num(m.sum_from(other, terms)) - v.num(
            other,
        ),
    decreases terms.len(),
{
    if terms.len() > 0 {
        lemma_sum_is_additive(m, v, start, other, terms.drop_last());
    }
}

/// The energies that the bands hear add up: a hop measures what the bass band gives alone
/// and what the treble band gives alone together, in exact arithmetic. A band without a
/// spectrum gives nothing.
pub proof fn law_the_bands_add_up<K: Kit>(
    m: Model<K>,
    v: Reading<K>,
    state: ChromaState<K>,
    class: int,
)
    requires
        m.is_exact(v),
        0 <= class < 12,
    ensures
        ({
            let gate_db = state.config.floor_db;
            let none = m.no_energy();
            let bass = match m.tail_spectrum(state.lo, state.queue) {
                Some(bins) => v.num(m.accumulated(state.lo, bins, gate_db, none)[class]),
                None => 0 as real,
            };
            let treble = match m.tail_spectrum(state.hi, state.queue) {
                Some(bins) => v.num(m.accumulated(state.hi, bins, gate_db, none)[class]),
                None => 0 as real,
            };
            v.num(m.hop_energy(state)[class]) == bass + treble
        }),
{
    let gate_db = state.config.floor_db;
    let none = m.no_energy();
    let lo = m.with_band(state.lo, state.queue, gate_db, none);
    lemma_units(m, v);
    if let Some(bins) = m.tail_spectrum(state.hi, state.queue) {
        let terms = class_weights(m.gated_contribs(state.hi, bins, gate_db), class);
        lemma_sum_is_additive(m, v, lo[class], none[class], terms);
    }
}

/// What a bin gives to a class.
pub open spec fn gift<K: Kit>(
    v: Reading<K>,
    shared: Option<BinContrib<K::Num>>,
    class: int,
) -> real {
    match shared {
        Some(c) => (if c.near.class == class {
            v.num(c.near.weight)
        } else {
            0 as real
        }) + (if c.next.class == class {
            v.num(c.next.weight)
        } else {
            0 as real
        }),
        None => 0 as real,
    }
}

/// What a bin gives is added.
proof fn lemma_gift_is_added<K: Kit>(
    m: Model<K>,
    v: Reading<K>,
    start: K::Num,
    shared: Option<BinContrib<K::Num>>,
    class: int,
)
    requires
        m.is_exact(v),
    ensures
        v.num(m.sum_from(start, weights_for(shared, class))) == v.num(start) + gift(
            v,
            shared,
            class,
        ),
{
    if let Some(c) = shared {
        let near = share_for(c.near, class);
        let next = share_for(c.next, class);
        lemma_sum_from_append(m, start, near, next);
        lemma_share_is_added(m, v, start, c.near, class);
        lemma_share_is_added(m, v, m.sum_from(start, near), c.next, class);
    }
}

/// A share is added if it is for the class.
proof fn lemma_share_is_added<K: Kit>(
    m: Model<K>,
    v: Reading<K>,
    start: K::Num,
    share: Share<K::Num>,
    class: int,
)
    requires
        m.is_exact(v),
    ensures
        v.num(m.sum_from(start, share_for(share, class))) == v.num(start) + (if share.class
            == class {
            v.num(share.weight)
        } else {
            0 as real
        }),
{
    let terms = share_for(share, class);
    if share.class == class {
        assert(terms.drop_last() =~= Seq::<K::Num>::empty());
        assert(m.sum_from(start, terms.drop_last()) == start);
    }
}

/// Taking away what one bin gives takes that much away from the sum.
proof fn lemma_without_a_gift<K: Kit>(
    m: Model<K>,
    v: Reading<K>,
    start: K::Num,
    contribs: Seq<Option<BinContrib<K::Num>>>,
    bin: int,
    class: int,
    n: int,
)
    requires
        m.is_exact(v),
        0 <= bin < contribs.len(),
        0 <= n <= contribs.len(),
    ensures
        ({
            let without = contribs.update(bin, None);
            v.num(m.sum_from(start, class_weights(contribs.take(n), class))) == v.num(
                m.sum_from(start, class_weights(without.take(n), class)),
            ) + (if bin < n {
                gift(v, contribs[bin], class)
            } else {
                0 as real
            })
        }),
    decreases n,
{
    let without = contribs.update(bin, None);
    if n > 0 {
        let last = n - 1;
        let so_far = class_weights(contribs.take(last), class);
        let other = class_weights(without.take(last), class);
        lemma_without_a_gift(m, v, start, contribs, bin, class, last);
        lemma_class_weights_step(contribs, last, class);
        lemma_class_weights_step(without, last, class);
        lemma_sum_from_append(m, start, so_far, weights_for(contribs[last], class));
        lemma_sum_from_append(m, start, other, weights_for(without[last], class));
        lemma_gift_is_added(m, v, m.sum_from(start, so_far), contribs[last], class);
        lemma_gift_is_added(m, v, m.sum_from(start, other), without[last], class);
    } else {
        assert(contribs.take(0) =~= without.take(0));
    }
}

impl<K: Kit> Model<K> {
    /// Whether a bin is below the noise gate.
    pub open spec fn is_gated(
        self,
        band: Band<K>,
        bin: Complex<K::Num>,
        gate_db: K::Num,
    ) -> bool {
        self.less(
            self.power_to_db(self.times(self.norm_sqr(bin), band.scale), self.db_floor),
            gate_db,
        )
    }
}

/// A bin that reaches the noise gate gives each of its two classes its power, the squared
/// magnitude over the squared length, times the weight of the class, and no other class
/// anything: that much less energy is measured once the bin falls below it. This is so
/// in exact arithmetic, whatever the other bins are.
pub proof fn law_a_bin_gives_its_power<K: Kit>(
    m: Model<K>,
    v: Reading<K>,
    band: Band<K>,
    bins: Seq<Complex<K::Num>>,
    gate_db: K::Num,
    energy: Seq<K::Num>,
    bin: int,
    quiet: Complex<K::Num>,
    class: int,
)
    requires
        m.is_exact(v),
        1 <= band.fft_size,
        v.num(band.scale) * (band.fft_size as real) * (band.fft_size as real) == 1 as real,
        energy.len() == 12,
        0 <= class < 12,
        0 <= bin < bins.len(),
        bin < band.contribs.len(),
        band.contribs[bin] matches Some(c) ==> c.wf(),
        band.contribs[bin] is Some,
        !m.is_gated(band, bins[bin], gate_db),
        m.is_gated(band, quiet, gate_db),
    ensures
        ({
            let c = band.contribs[bin]->0;
            let size = band.fft_size as real;
            let loud = m.accumulated(band, bins, gate_db, energy)[class];
            let quieter = m.accumulated(band, bins.update(bin, quiet), gate_db, energy)[class];
            let weight = if class == c.near.class {
                v.num(c.near.weight)
            } else if class == c.next.class {
                v.num(c.next.weight)
            } else {
                0 as real
            };
            (v.num(loud) - v.num(quieter)) * size * size == norm_of(v, bins[bin]) * weight
        }),
{
    let all = m.gated_contribs(band, bins, gate_db);
    let others = m.gated_contribs(band, bins.update(bin, quiet), gate_db);
    let c = band.contribs[bin]->0;
    let size = band.fft_size as real;
    let scale = v.num(band.scale);
    let power = v.num(m.times(m.norm_sqr(bins[bin]), band.scale));
    let norm = norm_of(v, bins[bin]);
    assert(others =~= all.update(bin, None));
    lemma_without_a_gift(m, v, energy[class], all, bin, class, all.len() as int);
    assert(all.take(all.len() as int) =~= all);
    assert(others.take(all.len() as int) =~= others);
    let gain = gift(v, all[bin], class);
    let weight = if class == c.near.class {
        v.num(c.near.weight)
    } else if class == c.next.class {
        v.num(c.next.weight)
    } else {
        0 as real
    };
    assert(power == norm * scale);
    assert(c.near.class != c.next.class);
    assert(power * (0 as real) == 0 as real);
    assert(gain == power * weight);
    assert(gain * size * size == norm * weight) by (nonlinear_arith)
        requires
            gain == power * weight,
            power == norm * scale,
            scale * size * size == 1 as real,
    ;
}

} // verus!
