//! The weights of a band: they are between zero and one, and so the energies that they
//! make of a moderate spectrum are finite and not negative.
use crate::band::{lemma_power_is_not_negative, Band};
use crate::kit::{lemma_sum_from_append, Complex, Kit, Model};
use crate::order::{
    lemma_at_most_is_within, lemma_part_is_unit, lemma_unit_is_finite, lemma_unit_is_within,
    lemma_unit_product, lemma_within_is_finite,
};
use crate::pitch::{class_weights, lemma_class_weights_step, weights_for, BinContrib, Share};
use crate::sizing::spectrum_length;
use vstd::prelude::*;

verus! {

impl<K: Kit> Model<K> {
    /// Whether squares are not negative, and exponentials of numbers that are not positive
    /// are between zero and one. Rounded numbers keep these rules too.
    pub open spec fn decays_in_order(self) -> bool {
        &&& forall|a: K::Num|
            self.at_most(a, a) ==> self.at_most(self.zero(), #[trigger] self.square(a))
        &&& forall|a: K::Num|
            self.at_most(self.zero(), a) ==> self.at_most(
                #[trigger] self.times(self.ratio(-1, 2), a),
                self.zero(),
            )
        &&& forall|a: K::Num|
            self.at_most(a, self.zero()) ==> self.is_unit(#[trigger] self.exp(a))
    }

    /// Whether the weights that bins give are between zero and one.
    pub open spec fn gives_units(self, contribs: Seq<Option<BinContrib<K::Num>>>) -> bool {
        forall|b: int|
            0 <= b < contribs.len() ==> (#[trigger] contribs[b] matches Some(c) ==> self.is_unit(
                c.near.weight,
            ) && self.is_unit(c.next.weight))
    }

    /// Whether every term is between zero and one.
    pub open spec fn are_units(self, terms: Seq<K::Num>) -> bool {
        forall|i: int| 0 <= i < terms.len() ==> self.is_unit(#[trigger] terms[i])
    }

    /// Whether a pitch is a point of the octave.
    pub open spec fn is_in_octave(self, pitch: K::Num) -> bool {
        self.at_most(self.zero(), pitch) && self.at_most(pitch, self.count(12))
    }

    /// Whether the bins of a band that have a pitch have it within the octave, as the
    /// remainder by twelve semitones is.
    pub open spec fn has_pitches(
        self,
        fft_size: int,
        sample_rate: K::Num,
        reference_hz: K::Num,
    ) -> bool {
        let bin_hz = self.over(sample_rate, self.count(fft_size));
        forall|b: int|
            0 <= b < spectrum_length(fft_size) ==> (#[trigger] self.pitch_class(
                self.times(self.count(b), bin_hz),
                self.c0(reference_hz),
            ) matches Some(pitch) ==> self.is_in_octave(pitch))
    }

    /// Whether a band is fair: its weights are between zero and one, and its scale is not
    /// negative.
    pub open spec fn is_fair(self, band: Band<K>) -> bool {
        &&& self.gives_units(band.contribs)
        &&& self.at_most(self.zero(), band.scale)
    }

    /// Whether a spectrum is moderate: finite at every bin that the band shares, with a
    /// power of at most one.
    pub open spec fn is_moderate(self, band: Band<K>, bins: Seq<Complex<K::Num>>) -> bool {
        forall|b: int|
            0 <= b < bins.len() && b < band.contribs.len() && #[trigger] band.contribs[b] is Some
                ==> {
                &&& self.is_finite(bins[b].re)
                &&& self.is_finite(bins[b].im)
                &&& self.at_most(self.times(self.norm_sqr(bins[b]), band.scale), self.one())
            }
    }
}

/// The weight at a finite distance is between zero and one.
proof fn lemma_closeness_is_unit<K: Kit>(m: Model<K>, semitones: K::Num)
    requires
        m.respects_order(),
        m.decays_in_order(),
        m.is_finite(semitones),
    ensures
        m.is_unit(m.closeness(semitones)),
{
    let half = m.ratio(1, 2);
    assert(m.at_most(semitones, semitones));
    assert(m.less(m.zero(), half));
    assert(m.is_finite(half));
    assert(m.at_most(m.over(semitones, half), m.over(semitones, half)));
}

/// The distances from a point of the octave to the classes it is shared between are finite,
/// and so the weights are between zero and one.
proof fn lemma_contrib_is_unit<K: Kit>(m: Model<K>, pitch: K::Num)
    requires
        m.respects_order(),
        m.decays_in_order(),
        m.is_in_octave(pitch),
    ensures
        m.is_unit(m.contrib_at(pitch).near.weight),
        m.is_unit(m.contrib_at(pitch).next.weight),
{
    let near = m.round_index(pitch) % 12;
    let class = m.count(near);
    let d = m.minus(pitch, class);
    let above = m.semitones_above(pitch, near);
    let one = m.one();
    lemma_at_most_is_within(m, pitch, 12);
    assert(m.at_most(class, m.count(11)));
    lemma_at_most_is_within(m, class, 11);
    assert(m.is_within(d, 23));
    assert(m.ratio(12, 1) == m.count(12));
    assert(m.at_most(m.count(12), m.count(12)));
    lemma_at_most_is_within(m, m.count(12), 12);
    assert(m.is_within(m.minus(d, m.ratio(12, 1)), 35));
    assert(m.is_within(m.plus(d, m.ratio(12, 1)), 35));
    lemma_within_is_finite(m, d, 23);
    lemma_within_is_finite(m, m.minus(d, m.ratio(12, 1)), 35);
    lemma_within_is_finite(m, m.plus(d, m.ratio(12, 1)), 35);
    assert(m.ratio(1, 1) == m.count(1));
    assert(m.at_most(m.count(1), m.count(1)));
    lemma_at_most_is_within(m, one, 1);
    assert(m.is_within(above, 23) || m.is_within(above, 35));
    let up = m.minus(above, one);
    let down = m.plus(above, one);
    assert(m.is_within(up, 24) || m.is_within(up, 36));
    assert(m.is_within(down, 24) || m.is_within(down, 36));
    lemma_within_is_finite(m, up, if m.is_within(up, 24) { 24 } else { 36 });
    lemma_within_is_finite(m, down, if m.is_within(down, 24) { 24 } else { 36 });
    lemma_closeness_is_unit(m, above);
    lemma_closeness_is_unit(m, up);
    lemma_closeness_is_unit(m, down);
}

/// A sum of units is not negative, and no larger than there are of them.
proof fn lemma_sum_of_units<K: Kit>(m: Model<K>, start: K::Num, most: int, terms: Seq<K::Num>)
    requires
        m.respects_order(),
        m.at_most(m.zero(), start),
        0 <= most,
        m.is_within(start, most),
        m.are_units(terms),
        most + terms.len() <= 16777216,
    ensures
        m.at_most(m.zero(), m.sum_from(start, terms)),
        m.at_most(start, m.sum_from(start, terms)),
        m.is_within(m.sum_from(start, terms), most + terms.len()),
    decreases terms.len(),
{
    if terms.len() > 0 {
        let before = terms.drop_last();
        let last = terms.last();
        assert(last == terms[terms.len() - 1]);
        assert forall|i: int| 0 <= i < before.len() implies m.is_unit(#[trigger] before[i]) by {
            assert(before[i] == terms[i]);
        }
        lemma_sum_of_units(m, start, most, before);
        lemma_unit_is_within(m, last);
        let sum = m.sum_from(start, before);
        assert(m.at_most(sum, m.plus(sum, last)));
        assert(m.is_within(m.plus(sum, last), most + before.len() + 1));
    }
}

/// A class is given at most two weights by every bin, each between zero and one.
proof fn lemma_class_weights_are_units<K: Kit>(
    m: Model<K>,
    contribs: Seq<Option<BinContrib<K::Num>>>,
    class: int,
)
    requires
        m.gives_units(contribs),
    ensures
        m.are_units(class_weights(contribs, class)),
        class_weights(contribs, class).len() <= 2 * contribs.len(),
    decreases contribs.len(),
{
    if contribs.len() > 0 {
        let before = contribs.drop_last();
        let last = contribs.last();
        assert(last == contribs[contribs.len() - 1]);
        assert forall|b: int| 0 <= b < before.len() implies (#[trigger] before[b] matches Some(c)
            ==> m.is_unit(c.near.weight) && m.is_unit(c.next.weight)) by {
            assert(before[b] == contribs[b]);
        }
        lemma_class_weights_are_units(m, before, class);
        assert(last is Some ==> m.is_unit(last->0.near.weight));
        assert(m.are_units(weights_for(last, class)));
    }
}

/// A weight is part of the total of its class.
proof fn lemma_weight_at_most_total<K: Kit>(
    m: Model<K>,
    contribs: Seq<Option<BinContrib<K::Num>>>,
    b: int,
    share: Share<K::Num>,
    n: int,
)
    requires
        m.respects_order(),
        m.gives_units(contribs),
        0 <= b < n <= contribs.len(),
        contribs.len() <= 8388608,
        contribs[b] is Some,
        share == contribs[b]->0.near || share == contribs[b]->0.next,
    ensures
        m.at_most(
            share.weight,
            m.sum_from(m.zero(), class_weights(contribs.take(n), share.class as int)),
        ),
    decreases n,
{
    let class = share.class as int;
    let bin = n - 1;
    let before = class_weights(contribs.take(bin), class);
    let given = weights_for(contribs[bin], class);
    let sum = m.sum_from(m.zero(), before);
    lemma_class_weights_step(contribs, bin, class);
    lemma_sum_from_append(m, m.zero(), before, given);
    assert forall|i: int| 0 <= i < bin implies (#[trigger] contribs.take(bin)[i] matches Some(c)
        ==> m.is_unit(c.near.weight) && m.is_unit(c.next.weight)) by {
        assert(contribs[i] == contribs.take(bin)[i]);
    }
    lemma_class_weights_are_units(m, contribs.take(bin), class);
    assert(m.is_finite(m.ratio(0, 1)));
    assert(m.ratio(0, 1) == m.count(0));
    lemma_at_most_is_within(m, m.zero(), 0);
    lemma_sum_of_units(m, m.zero(), 0, before);
    assert(contribs[bin] is Some ==> m.is_unit(contribs[bin]->0.near.weight));
    assert(m.are_units(given));
    lemma_sum_of_units(m, sum, before.len() as int, given);
    if b == bin {
        let c = contribs[bin]->0;
        let near = if c.near.class == class {
            m.plus(sum, c.near.weight)
        } else {
            sum
        };
        assert(m.at_most(m.zero(), near));
        reveal_with_fuel(Model::sum_from, 3);
        if c.near.class == class && c.next.class == class {
            assert(given =~= seq![c.near.weight, c.next.weight]);
            assert(given.drop_last() =~= seq![c.near.weight]);
            assert(seq![c.near.weight].drop_last() =~= seq![]);
            assert(m.sum_from(sum, given) == m.plus(m.plus(sum, c.near.weight), c.next.weight));
        } else if c.near.class == class {
            assert(given =~= seq![c.near.weight]);
            assert(given.drop_last() =~= seq![]);
        } else {
            assert(given =~= seq![c.next.weight]);
            assert(given.drop_last() =~= seq![]);
        }
    } else {
        lemma_weight_at_most_total(m, contribs, b, share, bin);
    }
}

/// Normalized weights are between zero and one.
proof fn lemma_normalized_are_units<K: Kit>(
    m: Model<K>,
    contribs: Seq<Option<BinContrib<K::Num>>>,
)
    requires
        m.respects_order(),
        m.gives_units(contribs),
        contribs.len() <= 8388608,
    ensures
        m.gives_units(m.normalized_contribs(contribs)),
{
    let normalized = m.normalized_contribs(contribs);
    assert forall|b: int| 0 <= b < normalized.len() implies (#[trigger] normalized[b] matches Some(
        c,
    ) ==> m.is_unit(c.near.weight) && m.is_unit(c.next.weight)) by {
        if contribs[b] is Some {
            let c = contribs[b]->0;
            lemma_share_is_unit(m, contribs, b, c.near);
            lemma_share_is_unit(m, contribs, b, c.next);
        }
    }
}

proof fn lemma_share_is_unit<K: Kit>(
    m: Model<K>,
    contribs: Seq<Option<BinContrib<K::Num>>>,
    b: int,
    share: Share<K::Num>,
)
    requires
        m.respects_order(),
        m.gives_units(contribs),
        0 <= b < contribs.len(),
        contribs.len() <= 8388608,
        contribs[b] is Some,
        share == contribs[b]->0.near || share == contribs[b]->0.next,
    ensures
        m.is_unit(m.normalized_share(share, contribs).weight),
{
    let weights = class_weights(contribs, share.class as int);
    let total = m.sum_from(m.zero(), weights);
    lemma_weight_at_most_total(m, contribs, b, share, contribs.len() as int);
    assert(contribs.take(contribs.len() as int) =~= contribs);
    lemma_class_weights_are_units(m, contribs, share.class as int);
    assert(m.is_finite(m.ratio(0, 1)));
    assert(m.ratio(0, 1) == m.count(0));
    lemma_at_most_is_within(m, m.zero(), 0);
    lemma_sum_of_units(m, m.zero(), 0, weights);
    lemma_within_is_finite(m, total, weights.len() as int);
    assert(m.is_unit(share.weight));
    if m.less(m.zero(), total) {
        lemma_part_is_unit(m, share.weight, total);
    }
}

/// The power scale of a transform is not negative.
proof fn lemma_scale_is_not_negative<K: Kit>(m: Model<K>, fft_size: int)
    requires
        m.respects_order(),
        1 <= fft_size <= 16777216,
    ensures
        m.at_most(m.zero(), m.power_scale(fft_size)),
{
    let n = m.count(fft_size);
    let square = m.times(n, n);
    assert(m.ratio(1, 1) == m.count(1));
    assert(m.is_finite(m.ratio(0, 1)));
    assert(m.is_finite(m.ratio(1, 1)));
    assert(m.at_most(m.one(), n));
    assert(m.is_finite(n));
    assert(m.at_most(m.times(m.one(), n), square));
    assert(m.less(m.zero(), n));
    lemma_at_most_is_within(m, n, fft_size);
    assert(m.is_finite(square));
    assert(m.less(m.zero(), square));
    assert(m.at_most(m.over(m.zero(), square), m.over(m.one(), square)));
}

/// The weights of a band that was set up are between zero and one, and so finite and not
/// negative.
pub proof fn law_bands_are_fair<K: Kit>(
    m: Model<K>,
    fft_size: int,
    sample_rate: K::Num,
    min_freq: K::Num,
    max_freq: K::Num,
    reference_hz: K::Num,
)
    requires
        m.respects_order(),
        m.decays_in_order(),
        1 <= fft_size <= 16777214,
        m.has_pitches(fft_size, sample_rate, reference_hz),
    ensures
        m.is_fair(m.band(fft_size, sample_rate, min_freq, max_freq, reference_hz)),
        m.is_weighed(m.band(fft_size, sample_rate, min_freq, max_freq, reference_hz)),
{
    let bin_hz = m.over(sample_rate, m.count(fft_size));
    let c0_hz = m.c0(reference_hz);
    let raw = Seq::new(
        spectrum_length(fft_size) as nat,
        |b: int| m.raw_contrib(b, bin_hz, min_freq, max_freq, c0_hz),
    );
    assert forall|b: int| 0 <= b < raw.len() implies (#[trigger] raw[b] matches Some(c)
        ==> m.is_unit(c.near.weight) && m.is_unit(c.next.weight)) by {
        let hz = m.times(m.count(b), bin_hz);
        if let Some(pitch) = m.pitch_class(hz, c0_hz) {
            assert(m.is_in_octave(pitch));
            lemma_contrib_is_unit(m, pitch);
        }
    }
    lemma_normalized_are_units(m, raw);
    lemma_scale_is_not_negative(m, fft_size);
    lemma_fair_is_weighed(m, m.band(fft_size, sample_rate, min_freq, max_freq, reference_hz));
}

/// What a fair band makes of a moderate spectrum is not negative, and no larger than the
/// number of weights in it.
pub proof fn law_moderate_spectra_have_sound_energies<K: Kit>(
    m: Model<K>,
    band: Band<K>,
    bins: Seq<Complex<K::Num>>,
    gate_db: K::Num,
    energy: Seq<K::Num>,
    most: int,
    class: int,
)
    requires
        m.respects_order(),
        m.is_fair(band),
        m.is_moderate(band, bins),
        0 <= class < 12,
        0 <= most,
        most + 2 * band.contribs.len() <= 16777216,
        m.at_most(m.zero(), energy[class]),
        m.at_most(energy[class], m.count(most)),
    ensures
        m.at_most(m.zero(), m.accumulated(band, bins, gate_db, energy)[class]),
        m.at_most(
            m.accumulated(band, bins, gate_db, energy)[class],
            m.count(most + 2 * band.contribs.len()),
        ),
{
    let all = m.gated_contribs(band, bins, gate_db);
    assert forall|b: int| 0 <= b < all.len() implies (#[trigger] all[b] matches Some(c)
        ==> m.is_unit(c.near.weight) && m.is_unit(c.next.weight)) by {
        if band.contribs[b] is Some {
            let c = band.contribs[b]->0;
            let power = m.times(m.norm_sqr(bins[b]), band.scale);
            assert(m.at_most(power, m.one()));
            lemma_power_is_not_negative(m, bins[b], band.scale);
            lemma_unit_product(m, power, c.near.weight);
            lemma_unit_product(m, power, c.next.weight);
        }
    }
    let weights = class_weights(all, class);
    lemma_class_weights_are_units(m, all, class);
    lemma_at_most_is_within(m, energy[class], most);
    lemma_sum_of_units(m, energy[class], most, weights);
    let sum = m.sum_from(energy[class], weights);
    assert(m.at_most(
        m.count(most + weights.len()),
        m.count(most + 2 * band.contribs.len()),
    ));
    assert(m.at_most(sum, m.count(most + weights.len())));
}

/// A fair band has weights that are finite and not negative.
proof fn lemma_fair_is_weighed<K: Kit>(m: Model<K>, band: Band<K>)
    requires
        m.respects_order(),
        m.is_fair(band),
    ensures
        m.is_weighed(band),
{
    assert forall|b: int| 0 <= b < band.contribs.len() implies (
    #[trigger] band.contribs[b] matches Some(c) ==> m.is_finite(c.near.weight) && m.is_finite(
        c.next.weight,
    ) && m.at_most(m.zero(), c.near.weight) && m.at_most(m.zero(), c.next.weight)) by {
        if band.contribs[b] is Some {
            lemma_unit_is_finite(m, band.contribs[b]->0.near.weight);
            lemma_unit_is_finite(m, band.contribs[b]->0.next.weight);
        }
    }
}

} // verus!
