//! One band of the pitch analysis: a windowed transform of the latest samples, whose
//! bins are gated and shared among the pitch classes.
use crate::audio::{apply_window, spectrum};
use crate::exact::{lemma_units, Reading};
use crate::kit::{lemma_sum_from_append, norm_sqr, Complex, Kit, Model, WindowKind};
use crate::pitch::{
    class_weights, contribs_wf, law_exact_weights_total_one, lemma_class_weights_step, pour,
    precompute_bin_contribs, weights_for, BinContrib, Share,
};
use crate::sizing::{can_size, fft_length, fft_length_for, spectrum_length};
use std::collections::VecDeque;
use vstd::prelude::*;

verus! {

/// What a band is set up with.
#[verifier::reject_recursive_types(K)]
pub ghost struct Band<K: Kit> {
    /// The samples in a window.
    pub fft_size: int,
    /// The transform of a window.
    pub plan: K::Plan,
    /// The coefficients of the window.
    pub window: Seq<K::Num>,
    /// How the bins are shared among the pitch classes.
    pub contribs: Seq<Option<BinContrib<K::Num>>>,
    /// What makes a squared magnitude a power: one over the squared length, so that the
    /// power of a tone does not depend on the length.
    pub scale: K::Num,
}

/// The latest `n` samples of a queue.
pub open spec fn tail_of<N>(queue: Seq<N>, n: int) -> Seq<N> {
    queue.subrange(queue.len() - n, queue.len() as int)
}

impl<K: Kit> Model<K> {
    /// Whether these functions account for what bins are gated and added up with.
    pub open spec fn describes_gating(self) -> bool {
        &&& self.describes_arithmetic()
        &&& self.describes_order()
        &&& self.describes_decibels()
    }

    /// Whether these functions account for what bands are set up with.
    pub open spec fn describes_bands(self) -> bool {
        &&& self.describes_pitch()
        &&& self.describes_signal()
    }

    /// The power scale of a transform of `fft_size` samples.
    pub open spec fn power_scale(self, fft_size: int) -> K::Num {
        self.over(self.one(), self.times(self.count(fft_size), self.count(fft_size)))
    }

    /// The band of the given length and frequencies.
    pub open spec fn band(
        self,
        fft_size: int,
        sample_rate: K::Num,
        min_freq: K::Num,
        max_freq: K::Num,
        reference_hz: K::Num,
    ) -> Band<K> {
        Band {
            fft_size,
            plan: self.plan(fft_size),
            window: self.window(WindowKind::Hann, fft_size),
            contribs: self.bin_contribs(
                fft_size,
                sample_rate,
                min_freq,
                max_freq,
                reference_hz,
            ),
            scale: self.power_scale(fft_size),
        }
    }

    /// The spectrum of the latest samples of a queue; none where too few are queued
    /// or the transform fails.
    pub open spec fn tail_spectrum(self, band: Band<K>, queue: Seq<K::Num>) -> Option<
        Seq<Complex<K::Num>>,
    > {
        if queue.len() < band.fft_size {
            None
        } else {
            self.spectrum(
                band.plan,
                band.fft_size,
                self.windowed(tail_of(queue, band.fft_size), band.window),
            )
        }
    }

    /// What a bin gives at its power; nothing where its level is below the noise gate.
    pub open spec fn gated(
        self,
        shared: Option<BinContrib<K::Num>>,
        bin: Complex<K::Num>,
        scale: K::Num,
        gate_db: K::Num,
    ) -> Option<BinContrib<K::Num>> {
        let power = self.times(self.norm_sqr(bin), scale);
        match shared {
            Some(c) => if self.less(self.power_to_db(power, self.db_floor), gate_db) {
                None
            } else {
                Some(
                    BinContrib {
                        near: Share {
                            class: c.near.class,
                            weight: self.times(power, c.near.weight),
                        },
                        next: Share {
                            class: c.next.class,
                            weight: self.times(power, c.next.weight),
                        },
                    },
                )
            },
            None => None,
        }
    }

    /// What all bins of a spectrum give at their power.
    pub open spec fn gated_contribs(
        self,
        band: Band<K>,
        bins: Seq<Complex<K::Num>>,
        gate_db: K::Num,
    ) -> Seq<Option<BinContrib<K::Num>>> {
        Seq::new(
            if band.contribs.len() <= bins.len() {
                band.contribs.len()
            } else {
                bins.len()
            },
            |b: int| self.gated(band.contribs[b], bins[b], band.scale, gate_db),
        )
    }

    /// The energies of the classes after a spectrum was added to them.
    pub open spec fn accumulated(
        self,
        band: Band<K>,
        bins: Seq<Complex<K::Num>>,
        gate_db: K::Num,
        energy: Seq<K::Num>,
    ) -> Seq<K::Num> {
        Seq::new(
            12,
            |c: int|
                self.sum_from(
                    energy[c],
                    class_weights(self.gated_contribs(band, bins, gate_db), c),
                ),
        )
    }
}

/// A band of the pitch analysis.
#[verifier::reject_recursive_types(K)]
pub struct BandFft<K: Kit> {
    plan: K::Plan,
    fft_output: Vec<Complex<K::Num>>,
    window: Vec<K::Num>,
    bin_contribs: Vec<Option<BinContrib<K::Num>>>,
    fft_size: usize,
    scale: K::Num,
}

impl<K: Kit> View for BandFft<K> {
    type V = Band<K>;

    closed spec fn view(&self) -> Band<K> {
        Band {
            fft_size: self.fft_size as int,
            plan: self.plan,
            window: self.window@,
            contribs: self.bin_contribs@,
            scale: self.scale,
        }
    }
}

impl<K: Kit> BandFft<K> {
    /// The spectrum that was computed last.
    pub closed spec fn latest(&self) -> Seq<Complex<K::Num>> {
        self.fft_output@
    }

    /// The bins are shared among classes that exist, one entry for each bin.
    pub open spec fn wf(&self) -> bool {
        &&& contribs_wf(self@.contribs)
        &&& self@.contribs.len() == spectrum_length(self@.fft_size)
        &&& self@.fft_size >= 1
    }

    /// Sets up a band of at least `fft_size` samples between two frequencies.
    pub fn new(
        fft_size: usize,
        sample_rate: K::Num,
        min_freq: K::Num,
        max_freq: K::Num,
        reference_hz: K::Num,
    ) -> (r: Self)
        requires
            can_size(fft_size),
        ensures
            r.wf(),
            r@.fft_size == fft_length_for(fft_size as int),
            r.latest().len() == spectrum_length(r@.fft_size),
            forall|m: Model<K>| #[trigger]
                m.describes_bands() ==> r@ == m.band(
                    fft_length_for(fft_size as int),
                    sample_rate,
                    min_freq,
                    max_freq,
                    reference_hz,
                ),
            forall|m: Model<K>, b: int|
                #![trigger m.describes_bands(), r.latest()[b]]
                m.describes_bands() && 0 <= b < r.latest().len() ==> r.latest()[b] == (Complex {
                    re: m.zero(),
                    im: m.zero(),
                }),
    {
        let fft_size: usize = fft_length(fft_size);
        let plan = K::plan(fft_size);
        let window = K::window(WindowKind::Hann, fft_size);
        let bin_contribs = precompute_bin_contribs::<K>(
            fft_size,
            sample_rate,
            min_freq,
            max_freq,
            reference_hz,
        );
        let zero = K::ratio(0, 1);
        let mut fft_output: Vec<Complex<K::Num>> = Vec::new();
        let mut i: usize = 0;
        while i < fft_size / 2 + 1
            invariant
                i == fft_output@.len(),
                i <= spectrum_length(fft_size as int),
                forall|b: int|
                    0 <= b < i ==> #[trigger] fft_output@[b] == (Complex { re: zero, im: zero }),
            decreases fft_size / 2 + 1 - i,
        {
            fft_output.push(Complex { re: zero, im: zero });
            i += 1;
        }
        let scale = K::over(K::ratio(1, 1), K::times(K::count(fft_size), K::count(fft_size)));
        BandFft { plan, fft_output, window, bin_contribs, fft_size, scale }
    }

    /// The latest samples of the queue, windowed, as they go into the transform; none
    /// where too few are queued.
    pub fn windowed_tail(&self, mono_buf: &VecDeque<K::Num>) -> (r: Option<Vec<K::Num>>)
        requires
            self.wf(),
        ensures
            r is None <==> mono_buf@.len() < self@.fft_size,
            forall|m: Model<K>| #[trigger]
                m.describes_arithmetic() && r is Some ==> r->0@ == m.windowed(
                    tail_of(mono_buf@, self@.fft_size),
                    self@.window,
                ),
    {
        if mono_buf.len() < self.fft_size {
            return None;
        }
        let start: usize = mono_buf.len() - self.fft_size;
        Some(apply_window::<K>(mono_buf, start, self.fft_size, &self.window))
    }

    /// Computes the spectrum of the latest samples of the queue. `false` means that
    /// there is none: too few samples are queued, or the transform failed.
    pub fn process_from_tail(&mut self, mono_buf: &VecDeque<K::Num>) -> (r: bool)
        requires
            old(self).wf(),
        ensures
            final(self)@ == old(self)@,
            mono_buf@.len() < old(self)@.fft_size ==> !r,
            r ==> final(self).latest().len() == spectrum_length(old(self)@.fft_size),
            !r ==> final(self).latest() == old(self).latest(),
            forall|m: Model<K>| #[trigger]
                m.describes_arithmetic() && m.describes_signal()
                    ==> (match m.tail_spectrum(old(self)@, mono_buf@) {
                    Some(bins) => r && final(self).latest() == bins,
                    None => !r,
                }),
    {
        match self.windowed_tail(mono_buf) {
            Some(input) => match spectrum::<K>(&self.plan, self.fft_size, &input) {
                Some(bins) => {
                    self.fft_output = bins;
                    true
                },
                None => false,
            },
            None => false,
        }
    }

    /// Adds the latest spectrum to the energies of the pitch classes, without the
    /// bins whose level is below the noise gate.
    pub fn accumulate(&self, class_energy: &mut [K::Num; 12], gate_db: K::Num)
        requires
            self.wf(),
        ensures
            forall|m: Model<K>| #[trigger]
                m.describes_gating() ==> final(class_energy)@ == m.accumulated(
                    self@,
                    self.latest(),
                    gate_db,
                    old(class_energy)@,
                ),
    {
        self.accumulate_spectrum(&self.fft_output, class_energy, gate_db);
    }

    /// Adds a spectrum to the energies of the pitch classes, without the bins whose
    /// level is below the noise gate.
    pub fn accumulate_spectrum(
        &self,
        bins: &Vec<Complex<K::Num>>,
        class_energy: &mut [K::Num; 12],
        gate_db: K::Num,
    )
        requires
            self.wf(),
        ensures
            forall|m: Model<K>| #[trigger]
                m.describes_gating() ==> final(class_energy)@ == m.accumulated(
                    self@,
                    bins@,
                    gate_db,
                    old(class_energy)@,
                ),
    {
        let ghost before = class_energy@;
        let mut i: usize = 0;
        while i < self.bin_contribs.len() && i < bins.len()
            invariant
                self.wf(),
                i <= self.bin_contribs@.len(),
                i <= bins@.len(),
                forall|m: Model<K>, c: int|
                    #![trigger m.describes_gating(), class_energy@[c]]
                    m.describes_gating() && 0 <= c < 12 ==> class_energy@[c] == m.sum_from(
                        before[c],
                        class_weights(m.gated_contribs(self@, bins@, gate_db).take(i as int), c),
                    ),
            decreases self.bin_contribs@.len() - i,
        {
            let ghost so_far = class_energy@;
            let given = Self::gated(self.bin_contribs[i], bins[i], self.scale, gate_db);
            assert(self@.contribs[i as int] == self.bin_contribs@[i as int]);
            match given {
                Some(shared) => {
                    pour::<K>(class_energy, shared);
                },
                None => {},
            }
            assert forall|m: Model<K>, c: int|
                #![trigger m.describes_gating(), class_energy@[c]]
                m.describes_gating() && 0 <= c < 12 implies class_energy@[c] == m.sum_from(
                before[c],
                class_weights(m.gated_contribs(self@, bins@, gate_db).take(i + 1), c),
            ) by {
                let all = m.gated_contribs(self@, bins@, gate_db);
                assert(given == all[i as int]);
                assert(so_far[c] == m.sum_from(before[c], class_weights(all.take(i as int), c)));
                lemma_class_weights_step(all, i as int, c);
                lemma_sum_from_append(
                    m,
                    before[c],
                    class_weights(all.take(i as int), c),
                    weights_for(given, c),
                );
            }
            i += 1;
        }
        assert forall|m: Model<K>| #[trigger] m.describes_gating() implies class_energy@
            == m.accumulated(self@, bins@, gate_db, before) by {
            let all = m.gated_contribs(self@, bins@, gate_db);
            assert(all.take(i as int) =~= all);
            assert(class_energy@ =~= m.accumulated(self@, bins@, gate_db, before));
        }
    }

    fn gated(
        shared: Option<BinContrib<K::Num>>,
        bin: Complex<K::Num>,
        scale: K::Num,
        gate_db: K::Num,
    ) -> (r: Option<BinContrib<K::Num>>)
        requires
            shared matches Some(c) ==> c.wf(),
        ensures
            r matches Some(c) ==> c.wf(),
            forall|m: Model<K>| #[trigger]
                m.describes_gating() ==> r == m.gated(shared, bin, scale, gate_db),
    {
        match shared {
            Some(c) => {
                let power = K::times(norm_sqr::<K>(bin), scale);
                if K::less(K::power_to_db(power, K::db_floor()), gate_db) {
                    None
                } else {
                    Some(
                        BinContrib {
                            near: Share {
                                class: c.near.class,
                                weight: K::times(power, c.near.weight),
                            },
                            next: Share {
                                class: c.next.class,
                                weight: K::times(power, c.next.weight),
                            },
                        },
                    )
                }
            },
            None => None,
        }
    }
}

impl<K: Kit> Model<K> {
    /// Whether every bin that is shared is below the noise gate.
    pub open spec fn is_below_gate(
        self,
        band: Band<K>,
        bins: Seq<Complex<K::Num>>,
        gate_db: K::Num,
    ) -> bool {
        forall|b: int|
            0 <= b < bins.len() && b < band.contribs.len() && #[trigger] band.contribs[b] is Some
                ==> self.less(
                self.power_to_db(self.times(self.norm_sqr(bins[b]), band.scale), self.db_floor),
                gate_db,
            )
    }
}

/// A class that no bin gives to keeps its energy.
pub proof fn lemma_no_gift_no_gain<N>(contribs: Seq<Option<BinContrib<N>>>, class: int)
    requires
        forall|b: int|
            0 <= b < contribs.len() ==> (#[trigger] contribs[b] matches Some(c) ==> c.near.class
                != class && c.next.class != class),
    ensures
        class_weights(contribs, class) == Seq::<N>::empty(),
    decreases contribs.len(),
{
    if contribs.len() > 0 {
        let shorter = contribs.drop_last();
        assert forall|b: int| 0 <= b < shorter.len() implies (#[trigger] shorter[b] matches Some(c)
            ==> c.near.class != class && c.next.class != class) by {
            assert(contribs[b] == shorter[b]);
        }
        lemma_no_gift_no_gain(shorter, class);
        assert(contribs.last() == contribs[contribs.len() - 1]);
    }
}

/// The noise gate: a spectrum changes no energy if every bin that is shared is below it.
/// Bins outside the band do not matter.
pub proof fn law_gate_silences<K: Kit>(
    m: Model<K>,
    band: Band<K>,
    bins: Seq<Complex<K::Num>>,
    gate_db: K::Num,
    energy: Seq<K::Num>,
)
    requires
        energy.len() == 12,
        m.is_below_gate(band, bins, gate_db),
    ensures
        m.accumulated(band, bins, gate_db, energy) == energy,
{
    let all = m.gated_contribs(band, bins, gate_db);
    assert forall|c: int| 0 <= c < 12 implies #[trigger] m.accumulated(
        band,
        bins,
        gate_db,
        energy,
    )[c] == energy[c] by {
        assert forall|b: int| 0 <= b < all.len() implies #[trigger] all[b] is None by {
            assert(band.contribs[b] is Some ==> m.less(
                m.power_to_db(m.times(m.norm_sqr(bins[b]), band.scale), m.db_floor),
                gate_db,
            ));
        }
        lemma_no_gift_no_gain(all, c);
    }
    assert(m.accumulated(band, bins, gate_db, energy) =~= energy);
}

/// A spectrum changes the energies of no other classes than those that its bins are
/// shared among.
pub proof fn law_only_shared_classes_gain<K: Kit>(
    m: Model<K>,
    band: Band<K>,
    bins: Seq<Complex<K::Num>>,
    gate_db: K::Num,
    energy: Seq<K::Num>,
    class: int,
)
    requires
        0 <= class < 12,
        forall|b: int|
            0 <= b < band.contribs.len() ==> (#[trigger] band.contribs[b] matches Some(c)
                ==> c.near.class != class && c.next.class != class),
    ensures
        m.accumulated(band, bins, gate_db, energy)[class] == energy[class],
{
    let all = m.gated_contribs(band, bins, gate_db);
    assert forall|b: int| 0 <= b < all.len() implies (#[trigger] all[b] matches Some(c)
        ==> c.near.class != class && c.next.class != class) by {
        assert(band.contribs[b] is None || band.contribs[b] is Some);
    }
    lemma_no_gift_no_gain(all, class);
}

impl<K: Kit> Model<K> {
    /// Whether no bin gives a negative weight.
    pub open spec fn gives(self, contribs: Seq<Option<BinContrib<K::Num>>>) -> bool {
        forall|b: int|
            0 <= b < contribs.len() ==> (#[trigger] contribs[b] matches Some(c) ==> self.at_most(
                self.zero(),
                c.near.weight,
            ) && self.at_most(self.zero(), c.next.weight))
    }

    /// Whether no term is negative.
    pub open spec fn all_not_negative(self, terms: Seq<K::Num>) -> bool {
        forall|i: int| 0 <= i < terms.len() ==> self.at_most(self.zero(), #[trigger] terms[i])
    }
}

/// Adding terms that are not negative to the larger of two sums as well keeps it the
/// larger, and takes nothing away.
proof fn lemma_sums_stay_in_order<K: Kit>(
    m: Model<K>,
    smaller: K::Num,
    larger: K::Num,
    terms: Seq<K::Num>,
)
    requires
        m.respects_order(),
        m.is_gathered(smaller),
        m.is_gathered(larger),
        m.at_most(smaller, larger),
        m.all_not_negative(terms),
    ensures
        m.is_gathered(m.sum_from(smaller, terms)),
        m.is_gathered(m.sum_from(larger, terms)),
        m.at_most(smaller, m.sum_from(smaller, terms)),
        m.at_most(larger, m.sum_from(larger, terms)),
        m.at_most(m.sum_from(smaller, terms), m.sum_from(larger, terms)),
    decreases terms.len(),
{
    if terms.len() > 0 {
        let before = terms.drop_last();
        assert(m.at_most(m.zero(), terms[terms.len() - 1]));
        assert forall|i: int| 0 <= i < before.len() implies m.at_most(
            m.zero(),
            #[trigger] before[i],
        ) by {
            assert(before[i] == terms[i]);
        }
        lemma_sums_stay_in_order(m, smaller, larger, before);
        let low = m.sum_from(smaller, before);
        let high = m.sum_from(larger, before);
        assert(m.at_most(low, m.plus(low, terms.last())));
        assert(m.at_most(high, m.plus(high, terms.last())));
        assert(m.at_most(m.plus(low, terms.last()), m.plus(high, terms.last())));
    }
}

/// Leaving bins out, and beginning with no more, never makes the sum of what a class is
/// given larger.
proof fn lemma_fewer_give_no_more<K: Kit>(
    m: Model<K>,
    start: K::Num,
    least: K::Num,
    contribs: Seq<Option<BinContrib<K::Num>>>,
    fewer: Seq<Option<BinContrib<K::Num>>>,
    n: int,
    class: int,
)
    requires
        m.respects_order(),
        m.is_gathered(least),
        m.is_gathered(start),
        m.at_most(least, start),
        m.gives(contribs),
        0 <= n <= contribs.len() == fewer.len(),
        forall|b: int|
            0 <= b < fewer.len() ==> #[trigger] fewer[b] == contribs[b] || fewer[b] is None,
    ensures
        m.is_gathered(m.sum_from(least, class_weights(fewer.take(n), class))),
        m.is_gathered(m.sum_from(start, class_weights(contribs.take(n), class))),
        m.at_most(least, m.sum_from(least, class_weights(fewer.take(n), class))),
        m.at_most(
            m.sum_from(least, class_weights(fewer.take(n), class)),
            m.sum_from(start, class_weights(contribs.take(n), class)),
        ),
    decreases n,
{
    if n > 0 {
        let bin = n - 1;
        lemma_fewer_give_no_more(m, start, least, contribs, fewer, bin, class);
        lemma_class_weights_step(contribs, bin, class);
        lemma_class_weights_step(fewer, bin, class);
        let given = weights_for(contribs[bin], class);
        let kept = weights_for(fewer[bin], class);
        assert(contribs[bin] is Some ==> m.at_most(m.zero(), contribs[bin]->0.near.weight));
        assert(m.all_not_negative(given));
        let low = m.sum_from(least, class_weights(fewer.take(bin), class));
        let high = m.sum_from(start, class_weights(contribs.take(bin), class));
        lemma_sum_from_append(m, start, class_weights(contribs.take(bin), class), given);
        lemma_sum_from_append(m, least, class_weights(fewer.take(bin), class), kept);
        lemma_sums_stay_in_order(m, low, high, given);
        assert(fewer[bin] == contribs[bin] || fewer[bin] is None);
    } else {
        assert(class_weights(contribs.take(0), class) =~= seq![]);
        assert(class_weights(fewer.take(0), class) =~= seq![]);
    }
}

impl<K: Kit> Model<K> {
    /// Whether the weights of a band are finite and not negative, and so is its scale.
    pub open spec fn is_weighed(self, band: Band<K>) -> bool {
        &&& self.at_most(self.zero(), band.scale)
        &&& self.gives(band.contribs)
        &&& forall|b: int|
            0 <= b < band.contribs.len() ==> (#[trigger] band.contribs[b] matches Some(c)
                ==> self.is_finite(c.near.weight) && self.is_finite(c.next.weight))
    }

    /// Whether a spectrum is finite at every bin that the band shares, and so is its power.
    pub open spec fn has_finite_power(self, band: Band<K>, bins: Seq<Complex<K::Num>>) -> bool {
        forall|b: int|
            0 <= b < bins.len() && b < band.contribs.len() && #[trigger] band.contribs[b] is Some
                ==> {
                &&& self.is_finite(bins[b].re)
                &&& self.is_finite(bins[b].im)
                &&& self.is_finite(self.times(self.norm_sqr(bins[b]), band.scale))
            }
    }
}

/// The power of a finite bin is not negative, if it is a number.
pub proof fn lemma_power_is_not_negative<K: Kit>(
    m: Model<K>,
    bin: Complex<K::Num>,
    scale: K::Num,
)
    requires
        m.respects_order(),
        m.is_finite(bin.re),
        m.is_finite(bin.im),
        m.at_most(m.zero(), scale),
        ({
            let power = m.times(m.norm_sqr(bin), scale);
            m.at_most(power, power)
        }),
    ensures
        m.at_most(m.zero(), m.times(m.norm_sqr(bin), scale)),
{
    let re = m.times(bin.re, bin.re);
    let im = m.times(bin.im, bin.im);
    assert(m.at_most(m.zero(), re));
    assert(m.at_most(m.zero(), im));
    assert(m.at_most(re, m.plus(re, im)));
}

/// What a finite spectrum gives is not negative.
proof fn lemma_finite_spectrum_gives<K: Kit>(
    m: Model<K>,
    band: Band<K>,
    bins: Seq<Complex<K::Num>>,
    gate_db: K::Num,
)
    requires
        m.respects_order(),
        m.is_weighed(band),
        m.has_finite_power(band, bins),
    ensures
        m.gives(m.gated_contribs(band, bins, gate_db)),
{
    let all = m.gated_contribs(band, bins, gate_db);
    assert(m.is_finite(m.ratio(0, 1)));
    assert forall|b: int| 0 <= b < all.len() implies (#[trigger] all[b] matches Some(c)
        ==> m.at_most(m.zero(), c.near.weight) && m.at_most(m.zero(), c.next.weight)) by {
        if band.contribs[b] is Some {
            let c = band.contribs[b]->0;
            let power = m.times(m.norm_sqr(bins[b]), band.scale);
            assert(m.is_finite(power));
            lemma_power_is_not_negative(m, bins[b], band.scale);
            assert(m.at_most(m.times(power, m.zero()), m.times(power, c.near.weight)));
            assert(m.at_most(m.times(power, m.zero()), m.times(power, c.next.weight)));
        }
    }
}

/// Raising the noise gate never adds energy to any class, and a spectrum never takes any
/// away. The energies before may already be the smaller ones; where they are the same, the
/// law compares the two gates alone.
pub proof fn law_a_higher_gate_adds_nothing<K: Kit>(
    m: Model<K>,
    band: Band<K>,
    bins: Seq<Complex<K::Num>>,
    gate_db: K::Num,
    higher_db: K::Num,
    energy: Seq<K::Num>,
    lesser: Seq<K::Num>,
    class: int,
)
    requires
        m.respects_order(),
        m.is_weighed(band),
        m.has_finite_power(band, bins),
        m.at_most(gate_db, higher_db),
        0 <= class < 12,
        m.is_gathered(lesser[class]),
        m.is_gathered(energy[class]),
        m.at_most(lesser[class], energy[class]),
    ensures
        m.is_gathered(m.accumulated(band, bins, higher_db, lesser)[class]),
        m.is_gathered(m.accumulated(band, bins, gate_db, energy)[class]),
        m.at_most(lesser[class], m.accumulated(band, bins, higher_db, lesser)[class]),
        m.at_most(
            m.accumulated(band, bins, higher_db, lesser)[class],
            m.accumulated(band, bins, gate_db, energy)[class],
        ),
{
    let all = m.gated_contribs(band, bins, gate_db);
    let fewer = m.gated_contribs(band, bins, higher_db);
    lemma_finite_spectrum_gives(m, band, bins, gate_db);
    assert forall|b: int| 0 <= b < fewer.len() implies #[trigger] fewer[b] == all[b]
        || fewer[b] is None by {
        let level = m.power_to_db(m.times(m.norm_sqr(bins[b]), band.scale), m.db_floor);
        assert(m.less(level, gate_db) ==> m.less(level, higher_db));
    }
    lemma_fewer_give_no_more(
        m,
        energy[class],
        lesser[class],
        all,
        fewer,
        all.len() as int,
        class,
    );
    assert(all.take(all.len() as int) =~= all);
    assert(fewer.take(all.len() as int) =~= fewer);
}

impl<K: Kit> Model<K> {
    /// Whether every bin of a spectrum that the band shares has power `power`, and passes
    /// the noise gate.
    pub open spec fn is_flat(
        self,
        band: Band<K>,
        bins: Seq<Complex<K::Num>>,
        gate_db: K::Num,
        power: K::Num,
    ) -> bool {
        &&& band.contribs.len() <= bins.len()
        &&& !self.less(self.power_to_db(power, self.db_floor), gate_db)
        &&& forall|b: int|
            0 <= b < band.contribs.len() && #[trigger] band.contribs[b] is Some ==> self.times(
                self.norm_sqr(bins[b]),
                band.scale,
            ) == power
    }
}

/// What a flat spectrum gives to a class is the weights of the class at that power.
proof fn lemma_flat_weights<K: Kit>(
    m: Model<K>,
    band: Band<K>,
    bins: Seq<Complex<K::Num>>,
    gate_db: K::Num,
    power: K::Num,
    class: int,
    n: int,
)
    requires
        m.is_flat(band, bins, gate_db, power),
        0 <= n <= band.contribs.len(),
    ensures
        class_weights(m.gated_contribs(band, bins, gate_db).take(n), class) == class_weights(
            band.contribs.take(n),
            class,
        ).map_values(|w: K::Num| m.times(power, w)),
    decreases n,
{
    let all = m.gated_contribs(band, bins, gate_db);
    let scale = |w: K::Num| m.times(power, w);
    if n > 0 {
        let bin = n - 1;
        lemma_flat_weights(m, band, bins, gate_db, power, class, bin);
        lemma_class_weights_step(band.contribs, bin, class);
        lemma_class_weights_step(all, bin, class);
        assert(band.contribs[bin] is Some ==> m.times(m.norm_sqr(bins[bin]), band.scale) == power);
        assert(weights_for(all[bin], class) =~= weights_for(
            band.contribs[bin],
            class,
        ).map_values(scale));
        let before = class_weights(band.contribs.take(bin), class);
        let given = weights_for(band.contribs[bin], class);
        assert((before + given).map_values(scale) =~= before.map_values(scale)
            + given.map_values(scale));
    } else {
        assert(class_weights(all.take(0), class) =~= seq![]);
        assert(class_weights(band.contribs.take(0), class).map_values(scale) =~= seq![]);
    }
}

/// The sum of scaled terms is the scaled sum, in exact arithmetic.
proof fn lemma_scaled_sum<K: Kit>(
    m: Model<K>,
    v: Reading<K>,
    terms: Seq<K::Num>,
    factor: K::Num,
)
    requires
        m.is_exact(v),
    ensures
        v.num(m.sum_from(m.zero(), terms.map_values(|w: K::Num| m.times(factor, w)))) == v.num(
            factor,
        ) * v.num(m.sum_from(m.zero(), terms)),
    decreases terms.len(),
{
    let scaled = terms.map_values(|w: K::Num| m.times(factor, w));
    let f = v.num(factor);
    lemma_units(m, v);
    if terms.len() == 0 {
        assert(f * (0 as real) == 0 as real) by (nonlinear_arith);
    } else {
        let before = terms.drop_last();
        lemma_scaled_sum(m, v, before, factor);
        assert(scaled.drop_last() =~= before.map_values(|w: K::Num| m.times(factor, w)));
        let s = v.num(m.sum_from(m.zero(), before));
        let t = v.num(terms.last());
        assert(f * (s + t) == f * s + f * t) by (nonlinear_arith);
    }
}

/// All classes are equally sensitive: a spectrum with the same power in every bin gives
/// every class that any bin is shared with the same energy, namely that power, in exact
/// arithmetic.
pub proof fn law_a_flat_spectrum_gives_equal_energies<K: Kit>(
    m: Model<K>,
    v: Reading<K>,
    band: Band<K>,
    raw: Seq<Option<BinContrib<K::Num>>>,
    bins: Seq<Complex<K::Num>>,
    gate_db: K::Num,
    power: K::Num,
    energy: Seq<K::Num>,
    class: int,
)
    requires
        m.is_exact(v),
        m.is_exact_order(v),
        band.contribs == m.normalized_contribs(raw),
        m.is_flat(band, bins, gate_db, power),
        0 <= class < 12,
        m.less(m.zero(), m.sum_from(m.zero(), class_weights(raw, class))),
        energy[class] == m.zero(),
    ensures
        m.accumulated(band, bins, gate_db, energy)[class] == power,
{
    let n = band.contribs.len() as int;
    let all = m.gated_contribs(band, bins, gate_db);
    let weights = class_weights(band.contribs, class);
    lemma_flat_weights(m, band, bins, gate_db, power, class, n);
    assert(all.take(n) =~= all);
    assert(band.contribs.take(n) =~= band.contribs);
    law_exact_weights_total_one(m, v, raw, class);
    lemma_scaled_sum(m, v, weights, power);
    lemma_units(m, v);
    let p = v.num(power);
    assert(p * (1 as real) == p) by (nonlinear_arith);
    assert(v.same(m.accumulated(band, bins, gate_db, energy)[class], power));
}

} // verus!
