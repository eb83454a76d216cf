//! Pitch classes: which of the twelve a frequency belongs to, and how the bins of a
//! spectrum are shared among them.
use crate::exact::{lemma_units, Reading};
use crate::kit::{lemma_sum_from_append, Kit, Model};
use crate::sizing::spectrum_length;
use vstd::prelude::*;

verus! {

/// The pitch classes of the octave, C first.
pub const NUM_PITCH_CLASSES: usize = 12;

/// The names of the pitch classes.
pub const NOTE_NAMES: [&'static str; 12] = [
    "C",
    "C#",
    "D",
    "D#",
    "E",
    "F",
    "F#",
    "G",
    "G#",
    "A",
    "A#",
    "B",
];

/// A weight for one pitch class.
#[derive(Debug, Clone, Copy)]
pub struct Share<N> {
    /// The pitch class, C being 0.
    pub class: u8,
    /// The weight.
    pub weight: N,
}

/// What one bin of a spectrum gives to the two pitch classes nearest to it.
#[derive(Debug, Clone, Copy)]
pub struct BinContrib<N> {
    /// What it gives to the nearest class.
    pub near: Share<N>,
    /// What it gives to the second nearest class.
    pub next: Share<N>,
}

/// Whether two pitch classes are a semitone apart.
pub open spec fn neighbors(a: int, b: int) -> bool {
    b == (a + 1) % 12 || b == (a + 11) % 12
}

impl<N> BinContrib<N> {
    /// The classes exist and are a semitone apart.
    pub open spec fn wf(self) -> bool {
        &&& self.near.class < NUM_PITCH_CLASSES
        &&& self.next.class < NUM_PITCH_CLASSES
        &&& neighbors(self.near.class as int, self.next.class as int)
    }
}

/// Whether every contribution is to classes that exist.
pub open spec fn contribs_wf<N>(contribs: Seq<Option<BinContrib<N>>>) -> bool {
    forall|b: int|
        0 <= b < contribs.len() ==> (#[trigger] contribs[b] matches Some(shared)
            ==> shared.wf())
}

/// The weight of a share, if it is for class `class`.
pub open spec fn share_for<N>(share: Share<N>, class: int) -> Seq<N> {
    if share.class == class {
        seq![share.weight]
    } else {
        seq![]
    }
}

/// The weights that a bin gives to class `class`.
pub open spec fn weights_for<N>(shared: Option<BinContrib<N>>, class: int) -> Seq<N> {
    match shared {
        Some(c) => share_for(c.near, class) + share_for(c.next, class),
        None => seq![],
    }
}

/// The weights that all bins give to class `class`, in the order of the bins.
pub open spec fn class_weights<N>(contribs: Seq<Option<BinContrib<N>>>, class: int) -> Seq<N>
    decreases contribs.len(),
{
    if contribs.len() == 0 {
        seq![]
    } else {
        class_weights(contribs.drop_last(), class) + weights_for(contribs.last(), class)
    }
}

impl<K: Kit> Model<K> {
    /// Whether these functions account for what pitches are computed with.
    pub open spec fn describes_pitch(self) -> bool {
        &&& self.describes_arithmetic()
        &&& self.describes_order()
        &&& self.describes_wide()
        &&& self.describes_elementary()
    }

    /// The pitch class of a frequency as a point of the octave, given the frequency
    /// of C0; none for a frequency that is not a positive number.
    pub open spec fn pitch_class(self, hz: K::Num, c0_hz: K::Wide) -> Option<K::Num> {
        if self.at_most(hz, self.zero()) || !self.is_finite(hz) {
            None
        } else {
            Some(self.narrow(self.octave_point(hz, c0_hz)))
        }
    }

    /// The semitones from the last C below a frequency up to it.
    pub open spec fn octave_point(self, hz: K::Num, c0_hz: K::Wide) -> K::Wide {
        self.wide_remainder(
            self.wide_times(
                self.wide_ratio(12, 1),
                self.wide_log2(self.wide_over(self.widen(hz), c0_hz)),
            ),
            self.wide_ratio(12, 1),
        )
    }

    /// The frequency of C0, fifty-seven semitones below the reference A4.
    pub open spec fn c0(self, reference_hz: K::Num) -> K::Wide {
        self.wide_times(
            self.widen(reference_hz),
            self.wide_power(self.wide_ratio(2, 1), self.wide_ratio(-57, 12)),
        )
    }

    /// How far point `pitch` of the octave lies above class `class`, the short way
    /// round.
    pub open spec fn semitones_above(self, pitch: K::Num, class: int) -> K::Num {
        let d = self.minus(pitch, self.count(class));
        if self.less(self.ratio(6, 1), d) {
            self.minus(d, self.ratio(12, 1))
        } else if self.less(d, self.ratio(-6, 1)) {
            self.plus(d, self.ratio(12, 1))
        } else {
            d
        }
    }

    /// The Gaussian weight of a class at a distance of `semitones`.
    pub open spec fn closeness(self, semitones: K::Num) -> K::Num {
        self.exp(
            self.times(self.ratio(-1, 2), self.square(self.over(semitones, self.ratio(1, 2)))),
        )
    }

    /// How point `pitch` of the octave is shared between the two nearest classes.
    pub open spec fn contrib_at(self, pitch: K::Num) -> BinContrib<K::Num> {
        let near = self.round_index(pitch) % 12;
        let above = self.semitones_above(pitch, near);
        let upward = self.at_most(self.zero(), above);
        BinContrib {
            near: Share { class: near as u8, weight: self.closeness(above) },
            next: Share {
                class: (if upward {
                    (near + 1) % 12
                } else {
                    (near + 11) % 12
                }) as u8,
                weight: self.closeness(
                    if upward {
                        self.minus(above, self.one())
                    } else {
                        self.plus(above, self.one())
                    },
                ),
            },
        }
    }

    /// How bin `bin` is shared, before normalization; not at all outside the band.
    pub open spec fn raw_contrib(
        self,
        bin: int,
        bin_hz: K::Num,
        min_freq: K::Num,
        max_freq: K::Num,
        c0_hz: K::Wide,
    ) -> Option<BinContrib<K::Num>> {
        let hz = self.times(self.count(bin), bin_hz);
        if self.less(hz, min_freq) || self.less(max_freq, hz) {
            None
        } else {
            match self.pitch_class(hz, c0_hz) {
                Some(pitch) => Some(self.contrib_at(pitch)),
                None => None,
            }
        }
    }

    /// A share as part of its class's total; unchanged where the total is not positive.
    pub open spec fn normalized_share(
        self,
        share: Share<K::Num>,
        contribs: Seq<Option<BinContrib<K::Num>>>,
    ) -> Share<K::Num> {
        let total = self.sum_from(self.zero(), class_weights(contribs, share.class as int));
        if self.less(self.zero(), total) {
            Share { class: share.class, weight: self.over(share.weight, total) }
        } else {
            share
        }
    }

    /// Contributions in which every weight is part of its class's total.
    pub open spec fn normalized_contribs(
        self,
        contribs: Seq<Option<BinContrib<K::Num>>>,
    ) -> Seq<Option<BinContrib<K::Num>>> {
        Seq::new(
            contribs.len(),
            |b: int|
                match contribs[b] {
                    Some(c) => Some(
                        BinContrib {
                            near: self.normalized_share(c.near, contribs),
                            next: self.normalized_share(c.next, contribs),
                        },
                    ),
                    None => None,
                },
        )
    }

    /// How the bins of a band are shared among the pitch classes.
    pub open spec fn bin_contribs(
        self,
        fft_size: int,
        sample_rate: K::Num,
        min_freq: K::Num,
        max_freq: K::Num,
        reference_hz: K::Num,
    ) -> Seq<Option<BinContrib<K::Num>>> {
        self.normalized_contribs(
            Seq::new(
                spectrum_length(fft_size) as nat,
                |b: int|
                    self.raw_contrib(
                        b,
                        self.over(sample_rate, self.count(fft_size)),
                        min_freq,
                        max_freq,
                        self.c0(reference_hz),
                    ),
            ),
        )
    }
}

/// The pitch class of a frequency as a point of the octave (C is 0), given the
/// frequency of C0. A frequency that is not a positive number has none.
pub fn pitch_class_continuous<K: Kit>(hz: K::Num, c0_hz: K::Wide) -> (r: Option<K::Num>)
    ensures
        forall|m: Model<K>| #[trigger] m.describes_pitch() ==> r == m.pitch_class(hz, c0_hz),
{
    if K::at_most(hz, K::ratio(0, 1)) || !K::is_finite(hz) {
        return None;
    }
    let octaves = K::wide_log2(K::wide_over(K::widen(hz), c0_hz));
    Some(
        K::narrow(
            K::wide_remainder(
                K::wide_times(K::wide_ratio(12, 1), octaves),
                K::wide_ratio(12, 1),
            ),
        ),
    )
}

/// The frequency of C0 for a reference A4: A4 is nine semitones above C4, and
/// fifty-seven above C0.
pub fn c0_from_reference<K: Kit>(reference_hz: K::Num) -> (r: K::Wide)
    ensures
        forall|m: Model<K>| #[trigger]
            m.describes_wide() && m.describes_elementary() ==> r == m.c0(reference_hz),
{
    K::wide_times(
        K::widen(reference_hz),
        K::wide_power(K::wide_ratio(2, 1), K::wide_ratio(-57, 12)),
    )
}

fn semitones_above<K: Kit>(pitch: K::Num, class: usize) -> (r: K::Num)
    ensures
        forall|m: Model<K>| #[trigger]
            m.describes_arithmetic() && m.describes_order()
                ==> r == m.semitones_above(pitch, class as int),
{
    let d = K::minus(pitch, K::count(class));
    if K::less(K::ratio(6, 1), d) {
        K::minus(d, K::ratio(12, 1))
    } else if K::less(d, K::ratio(-6, 1)) {
        K::plus(d, K::ratio(12, 1))
    } else {
        d
    }
}

fn closeness<K: Kit>(semitones: K::Num) -> (r: K::Num)
    ensures
        forall|m: Model<K>| #[trigger]
            m.describes_arithmetic() && m.describes_elementary() ==> r == m.closeness(semitones),
{
    K::exp(K::times(K::ratio(-1, 2), K::square(K::over(semitones, K::ratio(1, 2)))))
}

/// Shares a point of the octave between the two pitch classes nearest to it.
pub fn contrib_at<K: Kit>(pitch: K::Num) -> (r: BinContrib<K::Num>)
    ensures
        r.wf(),
        forall|m: Model<K>| #[trigger]
            m.describes_arithmetic() && m.describes_order() && m.describes_elementary()
                ==> r == m.contrib_at(pitch),
{
    let near: usize = K::round_index(pitch) % NUM_PITCH_CLASSES;
    let above = semitones_above::<K>(pitch, near);
    let upward = K::at_most(K::ratio(0, 1), above);
    let next: usize = if upward {
        (near + 1) % NUM_PITCH_CLASSES
    } else {
        (near + NUM_PITCH_CLASSES - 1) % NUM_PITCH_CLASSES
    };
    let beyond = if upward {
        K::minus(above, K::ratio(1, 1))
    } else {
        K::plus(above, K::ratio(1, 1))
    };
    BinContrib {
        near: Share { class: near as u8, weight: closeness::<K>(above) },
        next: Share { class: next as u8, weight: closeness::<K>(beyond) },
    }
}

fn raw_contrib<K: Kit>(
    bin: usize,
    bin_hz: K::Num,
    min_freq: K::Num,
    max_freq: K::Num,
    c0_hz: K::Wide,
) -> (r: Option<BinContrib<K::Num>>)
    ensures
        r matches Some(shared) ==> shared.wf(),
        forall|m: Model<K>| #[trigger]
            m.describes_pitch()
                ==> r == m.raw_contrib(bin as int, bin_hz, min_freq, max_freq, c0_hz),
{
    let hz = K::times(K::count(bin), bin_hz);
    if K::less(hz, min_freq) || K::less(max_freq, hz) {
        return None;
    }
    match pitch_class_continuous::<K>(hz, c0_hz) {
        Some(pitch) => Some(contrib_at::<K>(pitch)),
        None => None,
    }
}

/// Adds a share to the total of its class.
fn deposit<K: Kit>(totals: &mut [K::Num; 12], share: Share<K::Num>)
    requires
        share.class < NUM_PITCH_CLASSES,
    ensures
        forall|m: Model<K>, c: int|
            #![trigger m.describes_arithmetic(), final(totals)@[c]]
            m.describes_arithmetic() && 0 <= c < 12 ==> final(totals)@[c] == m.sum_from(
                old(totals)@[c],
                share_for(share, c),
            ),
{
    let class: usize = share.class as usize;
    let ghost before = totals@;
    totals[class] = K::plus(totals[class], share.weight);
    assert forall|m: Model<K>, c: int|
        #![trigger m.describes_arithmetic(), totals@[c]]
        m.describes_arithmetic() && 0 <= c < 12 implies totals@[c] == m.sum_from(
        before[c],
        share_for(share, c),
    ) by {
        if c == class {
            let terms = share_for(share, c);
            assert(terms.drop_last() =~= seq![]);
            assert(m.sum_from(before[c], terms.drop_last()) == before[c]);
        }
    }
}

/// Adds what a bin gives to the totals of its two classes.
pub fn pour<K: Kit>(totals: &mut [K::Num; 12], shared: BinContrib<K::Num>)
    requires
        shared.wf(),
    ensures
        forall|m: Model<K>, c: int|
            #![trigger m.describes_arithmetic(), final(totals)@[c]]
            m.describes_arithmetic() && 0 <= c < 12 ==> final(totals)@[c] == m.sum_from(
                old(totals)@[c],
                weights_for(Some(shared), c),
            ),
{
    let ghost before = totals@;
    deposit::<K>(totals, shared.near);
    let ghost between = totals@;
    deposit::<K>(totals, shared.next);
    assert forall|m: Model<K>, c: int|
        #![trigger m.describes_arithmetic(), totals@[c]]
        m.describes_arithmetic() && 0 <= c < 12 implies totals@[c] == m.sum_from(
        before[c],
        weights_for(Some(shared), c),
    ) by {
        assert(between[c] == m.sum_from(before[c], share_for(shared.near, c)));
        lemma_sum_from_append(
            m,
            before[c],
            share_for(shared.near, c),
            share_for(shared.next, c),
        );
    }
}

/// Adding a bin to the end adds what it gives to the weights of a class.
pub proof fn lemma_class_weights_step<N>(
    contribs: Seq<Option<BinContrib<N>>>,
    bin: int,
    class: int,
)
    requires
        0 <= bin < contribs.len(),
    ensures
        class_weights(contribs.take(bin + 1), class) == class_weights(contribs.take(bin), class)
            + weights_for(contribs[bin], class),
{
    assert(contribs.take(bin + 1).drop_last() =~= contribs.take(bin));
}

fn normalized_share<K: Kit>(share: Share<K::Num>, totals: &[K::Num; 12]) -> (r: Share<K::Num>)
    requires
        share.class < NUM_PITCH_CLASSES,
    ensures
        r.class == share.class,
        forall|m: Model<K>, contribs: Seq<Option<BinContrib<K::Num>>>|
            #![trigger m.describes_arithmetic(), m.normalized_share(share, contribs)]
            m.describes_arithmetic() && m.describes_order() && totals@[share.class as int]
                == m.sum_from(
                m.zero(),
                class_weights(contribs, share.class as int),
            ) ==> r == m.normalized_share(share, contribs),
{
    let total = totals[share.class as usize];
    if K::less(K::ratio(0, 1), total) {
        Share { class: share.class, weight: K::over(share.weight, total) }
    } else {
        share
    }
}

/// Computes how the bins of a band are shared among the pitch classes.
///
/// Each bin between the two frequencies is shared, by Gaussian weights, between the
/// two classes nearest to it. The weights of each class are then divided by their
/// total, so that all classes are equally sensitive however many bins fall near them.
pub fn precompute_bin_contribs<K: Kit>(
    fft_size: usize,
    sample_rate: K::Num,
    min_freq: K::Num,
    max_freq: K::Num,
    reference_hz: K::Num,
) -> (r: Vec<Option<BinContrib<K::Num>>>)
    ensures
        r@.len() == spectrum_length(fft_size as int),
        contribs_wf(r@),
        forall|m: Model<K>| #[trigger]
            m.describes_pitch() ==> r@ == m.bin_contribs(
                fft_size as int,
                sample_rate,
                min_freq,
                max_freq,
                reference_hz,
            ),
{
    let bins: usize = fft_size / 2 + 1;
    let bin_hz = K::over(sample_rate, K::count(fft_size));
    let c0_hz = c0_from_reference::<K>(reference_hz);
    let mut raw: Vec<Option<BinContrib<K::Num>>> = Vec::new();
    let mut i: usize = 0;
    while i < bins
        invariant
            i <= bins,
            raw@.len() == i,
            contribs_wf(raw@),
            forall|m: Model<K>, b: int|
                #![trigger m.describes_pitch(), raw@[b]]
                m.describes_pitch() && 0 <= b < i ==> raw@[b] == m.raw_contrib(
                    b,
                    bin_hz,
                    min_freq,
                    max_freq,
                    c0_hz,
                ),
        decreases bins - i,
    {
        raw.push(raw_contrib::<K>(i, bin_hz, min_freq, max_freq, c0_hz));
        i += 1;
    }
    let zero = K::ratio(0, 1);
    let mut totals: [K::Num; 12] = [zero; 12];
    i = 0;
    while i < bins
        invariant
            i <= bins,
            raw@.len() == bins,
            contribs_wf(raw@),
            forall|m: Model<K>, c: int|
                #![trigger m.describes_pitch(), totals@[c]]
                m.describes_pitch() && 0 <= c < 12 ==> totals@[c] == m.sum_from(
                    m.zero(),
                    class_weights(raw@.take(i as int), c),
                ),
        decreases bins - i,
    {
        let ghost before = totals@;
        match raw[i] {
            Some(shared) => {
                assert(raw@[i as int] is Some);
                pour::<K>(&mut totals, shared);
            },
            None => {},
        }
        assert forall|m: Model<K>, c: int|
            #![trigger m.describes_pitch(), totals@[c]]
            m.describes_pitch() && 0 <= c < 12 implies totals@[c] == m.sum_from(
            m.zero(),
            class_weights(raw@.take(i + 1), c),
        ) by {
            let so_far = class_weights(raw@.take(i as int), c);
            assert(before[c] == m.sum_from(m.zero(), so_far));
            lemma_class_weights_step(raw@, i as int, c);
            lemma_sum_from_append(m, m.zero(), so_far, weights_for(raw@[i as int], c));
        }
        i += 1;
    }
    assert(raw@.take(i as int) =~= raw@);
    let mut r: Vec<Option<BinContrib<K::Num>>> = Vec::new();
    i = 0;
    while i < bins
        invariant
            i <= bins,
            raw@.len() == bins,
            contribs_wf(raw@),
            r@.len() == i,
            contribs_wf(r@),
            forall|m: Model<K>, c: int|
                #![trigger m.describes_pitch(), totals@[c]]
                m.describes_pitch() && 0 <= c < 12 ==> totals@[c] == m.sum_from(
                    m.zero(),
                    class_weights(raw@, c),
                ),
            forall|m: Model<K>, b: int|
                #![trigger m.describes_pitch(), r@[b]]
                m.describes_pitch() && 0 <= b < i ==> r@[b] == m.normalized_contribs(raw@)[b],
        decreases bins - i,
    {
        match raw[i] {
            Some(shared) => {
                assert(raw@[i as int] is Some);
                r.push(
                    Some(
                        BinContrib {
                            near: normalized_share::<K>(shared.near, &totals),
                            next: normalized_share::<K>(shared.next, &totals),
                        },
                    ),
                );
            },
            None => {
                r.push(None);
            },
        }
        i += 1;
    }
    assert forall|m: Model<K>| #[trigger] m.describes_pitch() implies r@ == m.bin_contribs(
        fft_size as int,
        sample_rate,
        min_freq,
        max_freq,
        reference_hz,
    ) by {
        let expected = Seq::new(
            spectrum_length(fft_size as int) as nat,
            |b: int|
                m.raw_contrib(
                    b,
                    m.over(sample_rate, m.count(fft_size as int)),
                    min_freq,
                    max_freq,
                    m.c0(reference_hz),
                ),
        );
        assert(raw@ =~= expected);
        assert(r@ =~= m.normalized_contribs(raw@));
    }
    r
}

impl<K: Kit> Model<K> {
    /// Whether `divisor` divides the sum of `terms` exactly: dividing the terms one by
    /// one as they are added up comes to the same as dividing each sum so far.
    pub open spec fn divides_sum(self, terms: Seq<K::Num>, divisor: K::Num) -> bool
        decreases terms.len(),
    {
        if terms.len() == 0 {
            self.over(self.zero(), divisor) == self.zero()
        } else {
            let before = terms.drop_last();
            &&& self.divides_sum(before, divisor)
            &&& self.plus(
                self.over(self.sum_from(self.zero(), before), divisor),
                self.over(terms.last(), divisor),
            ) == self.over(self.sum_from(self.zero(), terms), divisor)
        }
    }
}

/// Dividing every term divides the sum.
proof fn lemma_sum_of_quotients<K: Kit>(m: Model<K>, terms: Seq<K::Num>, divisor: K::Num)
    requires
        m.divides_sum(terms, divisor),
    ensures
        m.sum_from(m.zero(), terms.map_values(|t: K::Num| m.over(t, divisor))) == m.over(
            m.sum_from(m.zero(), terms),
            divisor,
        ),
    decreases terms.len(),
{
    let quotients = terms.map_values(|t: K::Num| m.over(t, divisor));
    if terms.len() > 0 {
        lemma_sum_of_quotients(m, terms.drop_last(), divisor);
        assert(quotients.drop_last() =~= terms.drop_last().map_values(
            |t: K::Num| m.over(t, divisor),
        ));
    }
}

/// The normalized weights of a class are its weights over their total.
proof fn lemma_normalized_weights<K: Kit>(
    m: Model<K>,
    contribs: Seq<Option<BinContrib<K::Num>>>,
    class: int,
    total: K::Num,
    n: int,
)
    requires
        total == m.sum_from(m.zero(), class_weights(contribs, class)),
        m.less(m.zero(), total),
        0 <= n <= contribs.len(),
    ensures
        class_weights(m.normalized_contribs(contribs).take(n), class) == class_weights(
            contribs.take(n),
            class,
        ).map_values(|w: K::Num| m.over(w, total)),
    decreases n,
{
    let normalized = m.normalized_contribs(contribs);
    let divide = |w: K::Num| m.over(w, total);
    if n > 0 {
        let bin = n - 1;
        lemma_normalized_weights(m, contribs, class, total, bin);
        lemma_class_weights_step(contribs, bin, class);
        lemma_class_weights_step(normalized, bin, class);
        assert(weights_for(normalized[bin], class) =~= weights_for(
            contribs[bin],
            class,
        ).map_values(divide));
        assert((class_weights(contribs.take(bin), class) + weights_for(
            contribs[bin],
            class,
        )).map_values(divide) =~= class_weights(contribs.take(bin), class).map_values(divide)
            + weights_for(contribs[bin], class).map_values(divide));
    } else {
        assert(class_weights(contribs.take(0), class).map_values(divide) =~= seq![]);
    }
}

/// Normalization makes the classes equally sensitive: the weights of every class that
/// any bin gives to add up to one, where their total divides them exactly.
pub proof fn law_normalized_weights_total_one<K: Kit>(
    m: Model<K>,
    contribs: Seq<Option<BinContrib<K::Num>>>,
    class: int,
)
    requires
        ({
            let weights = class_weights(contribs, class);
            let total = m.sum_from(m.zero(), weights);
            &&& m.less(m.zero(), total)
            &&& m.over(total, total) == m.one()
            &&& m.divides_sum(weights, total)
        }),
    ensures
        m.sum_from(m.zero(), class_weights(m.normalized_contribs(contribs), class)) == m.one(),
{
    let normalized = m.normalized_contribs(contribs);
    let weights = class_weights(contribs, class);
    let total = m.sum_from(m.zero(), weights);
    lemma_normalized_weights(m, contribs, class, total, contribs.len() as int);
    assert(contribs.take(contribs.len() as int) =~= contribs);
    assert(normalized.take(contribs.len() as int) =~= normalized);
    lemma_sum_of_quotients(m, weights, total);
}

/// In exact arithmetic every number but zero divides sums exactly.
pub proof fn law_exact_numbers_divide_sums<K: Kit>(
    m: Model<K>,
    v: Reading<K>,
    terms: Seq<K::Num>,
    divisor: K::Num,
)
    requires
        m.is_exact(v),
        v.num(divisor) != 0 as real,
    ensures
        m.divides_sum(terms, divisor),
    decreases terms.len(),
{
    let d = v.num(divisor);
    lemma_units(m, v);
    if terms.len() == 0 {
        let z = v.num(m.zero());
        assert(z / d == 0 as real) by (nonlinear_arith)
            requires
                d != 0 as real,
                z == 0 as real,
        ;
        assert(v.same(m.over(m.zero(), divisor), m.zero()));
    } else {
        let before = terms.drop_last();
        law_exact_numbers_divide_sums(m, v, before, divisor);
        let sum = m.sum_from(m.zero(), before);
        let s = v.num(sum);
        let t = v.num(terms.last());
        assert(s / d + t / d == (s + t) / d) by (nonlinear_arith)
            requires
                d != 0 as real,
        ;
        assert(v.same(
            m.plus(m.over(sum, divisor), m.over(terms.last(), divisor)),
            m.over(m.sum_from(m.zero(), terms), divisor),
        ));
    }
}

/// In exact arithmetic the normalized weights of every class that any bin gives to add up
/// to one, without further conditions.
pub proof fn law_exact_weights_total_one<K: Kit>(
    m: Model<K>,
    v: Reading<K>,
    contribs: Seq<Option<BinContrib<K::Num>>>,
    class: int,
)
    requires
        m.is_exact(v),
        m.is_exact_order(v),
        m.less(m.zero(), m.sum_from(m.zero(), class_weights(contribs, class))),
    ensures
        m.sum_from(m.zero(), class_weights(m.normalized_contribs(contribs), class)) == m.one(),
{
    let weights = class_weights(contribs, class);
    let total = m.sum_from(m.zero(), weights);
    let t = v.num(total);
    lemma_units(m, v);
    law_exact_numbers_divide_sums(m, v, weights, total);
    assert(t / t == 1 as real) by (nonlinear_arith)
        requires
            t > 0 as real,
    ;
    assert(v.same(m.over(total, total), m.one()));
    law_normalized_weights_total_one(m, contribs, class);
}

/// Normalization changes neither which bins are shared nor among which classes.
pub proof fn law_normalization_keeps_classes<K: Kit>(
    m: Model<K>,
    contribs: Seq<Option<BinContrib<K::Num>>>,
    bin: int,
)
    requires
        0 <= bin < contribs.len(),
    ensures
        match (contribs[bin], m.normalized_contribs(contribs)[bin]) {
            (Some(before), Some(after)) => before.near.class == after.near.class
                && before.next.class == after.next.class,
            (None, None) => true,
            _ => false,
        },
{
}

} // verus!
