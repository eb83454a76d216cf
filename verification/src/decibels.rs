//! What the display levels of the waterfall stand for: decibels of the strongest bin, with
//! the tilt added, over frequencies that are spaced evenly by their logarithm.
use crate::exact::{lemma_fraction, lemma_units, lemma_whole_number, multiple, Reading};
use crate::kit::{Complex, Kit, Model};
use crate::setup::lemma_scale;
use crate::sizing::{spectrum_length, MIN_FFT_SIZE};
use crate::tuning::is_logarithm;
use crate::waterfall::{WaterfallState, WATERFALL_NUM_BINS};
use vstd::prelude::*;

verus! {

/// Whether `lg10` turns products of positive reals into sums.
pub open spec fn adds_up(lg10: spec_fn(real) -> real) -> bool {
    forall|x: real, y: real, product: real|
        #![trigger lg10(x), lg10(y), lg10(product)]
        x > 0 as real && y > 0 as real && product == x * y ==> lg10(product) == lg10(x) + lg10(y)
}

/// The larger of two reals.
pub open spec fn most(a: real, b: real) -> real {
    if a < b {
        b
    } else {
        a
    }
}

/// The level that is shown for some decibels: zero at the floor or below, one at full
/// scale or above, and even between them. A floor above minus one leaves a range of one.
pub open spec fn level_of(db: real, floor_db: real) -> real {
    let part = (db - floor_db) / most(-floor_db, 1 as real);
    if part < 0 as real {
        0 as real
    } else if part > 1 as real {
        1 as real
    } else {
        part
    }
}

impl<K: Kit> Model<K> {
    /// Whether levels are measured exactly: a power that is positive is ten times its
    /// decimal logarithm `lg10` in decibels, but at least the floor, and no power is the
    /// floor. Powers of ten and binary logarithms `lg` are exact as well.
    pub open spec fn measures_decibels(
        self,
        v: Reading<K>,
        lg10: spec_fn(real) -> real,
        lg: spec_fn(real) -> real,
    ) -> bool {
        &&& self.is_exact(v)
        &&& self.is_exact_order(v)
        &&& self.is_exact_size(v)
        &&& adds_up(lg10)
        &&& is_logarithm(lg)
        &&& forall|power: K::Num, floor: K::Num|
            v.num(#[trigger] self.power_to_db(power, floor)) == (if v.num(power) > 0 as real {
                most((10 as real) * lg10(v.num(power)), v.num(floor))
            } else {
                v.num(floor)
            })
        &&& forall|a: K::Num|
            {
                let raised = v.num(#[trigger] self.power(self.ratio(10, 1), a));
                raised > 0 as real && lg10(raised) == v.num(a)
            }
        &&& forall|a: K::Num|
            v.num(a) > 0 as real ==> v.num(#[trigger] self.log2(a)) == lg(v.num(a))
    }

    /// The decibels that a tilt adds to a display bin: as many for every octave from one
    /// kilohertz up to the middle of its spectrum bins. A middle below a thousandth of a
    /// hertz counts as one, and a tilt below a thousandth as none.
    pub open spec fn tilt_db(
        self,
        v: Reading<K>,
        lg: spec_fn(real) -> real,
        range: (usize, usize),
        fft_size: int,
        rate: real,
        tilt: real,
    ) -> real {
        let middle_hz = multiple(range.0 + range.1, rate) / (2 * fft_size) as real;
        if -(1 as real) / (1000 as real) < tilt < (1 as real) / (1000 as real) {
            0 as real
        } else {
            tilt * lg(most(middle_hz / (1000 as real), (1 as real) / (1000000 as real)))
        }
    }
}

/// A gain of a tilt is ten to a twentieth of the decibels that the tilt adds.
proof fn lemma_gain<K: Kit>(
    m: Model<K>,
    v: Reading<K>,
    lg10: spec_fn(real) -> real,
    lg: spec_fn(real) -> real,
    bin_map: Seq<(usize, usize)>,
    fft_size: int,
    sample_rate: K::Num,
    tilt: K::Num,
    i: int,
)
    requires
        m.measures_decibels(v, lg10, lg),
        1 <= fft_size,
        0 <= i < bin_map.len(),
    ensures
        ({
            let gain = v.num(m.tilt_weights(bin_map, fft_size, sample_rate, tilt)[i]);
            let added = m.tilt_db(v, lg, bin_map[i], fft_size, v.num(sample_rate), v.num(tilt));
            gain > 0 as real && (20 as real) * lg10(gain) == added
        }),
{
    let range = bin_map[i];
    let gain = m.tilt_weights(bin_map, fft_size, sample_rate, tilt)[i];
    let t = v.num(tilt);
    lemma_units(m, v);
    lemma_fraction(m, v, 1, 1000);
    lemma_fraction(m, v, 1, 1000000);
    lemma_whole_number(m, v, 1000);
    lemma_whole_number(m, v, 20);
    if m.less(m.abs(tilt), m.ratio(1, 1000)) {
        let one = v.num(m.one());
        assert(one == one * one) by (nonlinear_arith)
            requires
                one == 1 as real,
        ;
        assert(lg10(one) == lg10(one) + lg10(one));
        assert(gain == m.one());
    } else {
        let rate = v.num(sample_rate);
        let n = fft_size as real;
        let sum = (range.0 + range.1) as real;
        let khz = v.num(m.center_khz(range, fft_size, sample_rate));
        let half = (1 as real) / (2 as real);
        let double = (2 * fft_size) as real;
        let middle_hz = (sum * rate) / double;
        assert(double == (2 as real) * n);
        assert(sum * half * (rate / n) == middle_hz) by (nonlinear_arith)
            requires
                n >= 1 as real,
                double == (2 as real) * n,
                half == (1 as real) / (2 as real),
                middle_hz == (sum * rate) / double,
        ;
        assert(khz == middle_hz / (1000 as real));
        let octaves = m.octaves_up(range, fft_size, sample_rate);
        let least = (1 as real) / (1000000 as real);
        assert(v.num(octaves) == lg(most(khz, least)));
        let x = m.tilt_exponent(octaves, tilt);
        let o = v.num(octaves);
        assert(v.num(x) == t * o / (20 as real));
        assert((20 as real) * (t * o / (20 as real)) == t * o);
        assert(gain == m.power(m.ratio(10, 1), x));
    }
}

/// A level shows the decibels of the strongest spectrum bin of its display bin, with those
/// that the tilt adds: a tilt of some decibels per octave changes the decibels of a display
/// bin by as many for every octave that its middle is above one kilohertz. This is so in
/// exact arithmetic, where the gains are those of the tilt.
pub proof fn law_levels_show_tilted_decibels<K: Kit>(
    m: Model<K>,
    v: Reading<K>,
    lg10: spec_fn(real) -> real,
    lg: spec_fn(real) -> real,
    state: WaterfallState<K>,
    bins: Seq<Complex<K::Num>>,
    i: int,
)
    requires
        m.measures_decibels(v, lg10, lg),
        1 <= state.fft_size,
        state.bin_map.len() == WATERFALL_NUM_BINS,
        state.tilt_weights == m.tilt_weights(
            state.bin_map,
            state.fft_size,
            state.sample_rate,
            state.tilt_db_per_octave,
        ),
        0 <= i < WATERFALL_NUM_BINS,
    ensures
        ({
            let power = v.num(m.strongest(bins, state.bin_map[i], state.fft_size));
            let added = m.tilt_db(
                v,
                lg,
                state.bin_map[i],
                state.fft_size,
                v.num(state.sample_rate),
                v.num(state.tilt_db_per_octave),
            );
            let least = v.num(m.db_floor);
            let db = if power > 0 as real {
                most((10 as real) * lg10(power) + added, least)
            } else {
                least
            };
            v.num(m.frame(state, bins)[i]) == level_of(db, v.num(state.floor_db))
        }),
{
    let floor_db = v.num(state.floor_db);
    let strongest = m.strongest(bins, state.bin_map[i], state.fft_size);
    let gain = state.tilt_weights[i];
    let p = v.num(strongest);
    let g = v.num(gain);
    lemma_units(m, v);
    lemma_gain(
        m,
        v,
        lg10,
        lg,
        state.bin_map,
        state.fft_size,
        state.sample_rate,
        state.tilt_db_per_octave,
        i,
    );
    let once = m.times(strongest, gain);
    let twice = m.times(once, gain);
    if p > 0 as real {
        assert(p * g > 0 as real && p * g * g > 0 as real) by (nonlinear_arith)
            requires
                p > 0 as real,
                g > 0 as real,
        ;
        assert(lg10(v.num(once)) == lg10(p) + lg10(g));
        assert(lg10(v.num(twice)) == lg10(v.num(once)) + lg10(g));
    } else {
        assert(p * g * g <= 0 as real) by (nonlinear_arith)
            requires
                p <= 0 as real,
                g > 0 as real,
        ;
    }
    let range = m.larger(m.minus(m.zero(), state.floor_db), m.one());
    assert(v.num(range) == most(-floor_db, 1 as real));
    assert(v.num(range) >= 1 as real);
    assert(m.frame(state, bins)[i] == m.display_level(strongest, gain, state.floor_db));
}

/// The strongest power of some spectrum bins is not below that of any of them, and is that
/// of one of them, in exact arithmetic.
pub proof fn law_the_strongest_bin_shows<K: Kit>(
    m: Model<K>,
    v: Reading<K>,
    bins: Seq<Complex<K::Num>>,
    range: (usize, usize),
    fft_size: int,
)
    requires
        m.is_exact(v),
        1 <= fft_size,
        range.0 < range.1 <= bins.len(),
    ensures
        ({
            let power = v.num(m.strongest(bins, range, fft_size));
            let size = fft_size as real;
            &&& forall|b: int|
                range.0 <= b < range.1 ==> norm_of(v, #[trigger] bins[b]) <= power * size * size
            &&& exists|b: int|
                range.0 <= b < range.1 && power * size * size == norm_of(v, #[trigger] bins[b])
        }),
{
    let some = bins.subrange(range.0 as int, range.1 as int);
    let terms = some.map_values(|c: Complex<K::Num>| m.norm_sqr(c));
    let size = fft_size as real;
    let scale = v.num(m.power_scale(fft_size));
    let power = v.num(m.strongest(bins, range, fft_size));
    let peak = v.num(m.peak(terms));
    lemma_scale(m, v, fft_size);
    assert(power == peak * scale);
    assert(power * size * size == peak) by (nonlinear_arith)
        requires
            power == peak * scale,
            scale * size * size == 1 as real,
    ;
    assert forall|k: int| 0 <= k < terms.len() implies v.num(#[trigger] terms[k]) >= 0 as real by {
        let c = bins[range.0 + k];
        lemma_norm_is_not_negative(m, v, c);
    }
    lemma_peak_is_the_largest(m, v, terms);
    assert forall|b: int| range.0 <= b < range.1 implies norm_of(v, #[trigger] bins[b]) <= power
        * size * size by {
        assert(v.num(terms[b - range.0]) <= peak);
    }
    let k = choose|k: int| 0 <= k < terms.len() && v.num(#[trigger] terms[k]) == peak;
    assert(norm_of(v, bins[range.0 + k]) == peak);
}

/// The squared magnitude of a spectrum bin.
pub open spec fn norm_of<K: Kit>(v: Reading<K>, bin: Complex<K::Num>) -> real {
    v.num(bin.re) * v.num(bin.re) + v.num(bin.im) * v.num(bin.im)
}

/// Squared magnitudes are not negative.
proof fn lemma_norm_is_not_negative<K: Kit>(m: Model<K>, v: Reading<K>, bin: Complex<K::Num>)
    requires
        m.is_exact(v),
    ensures
        v.num(m.norm_sqr(bin)) == norm_of(v, bin),
        norm_of(v, bin) >= 0 as real,
{
    let x = v.num(bin.re);
    let y = v.num(bin.im);
    assert(x * x + y * y >= 0 as real) by (nonlinear_arith);
}

/// The peak of terms that are not negative is one of them, and not below any.
pub proof fn lemma_peak_is_the_largest<K: Kit>(m: Model<K>, v: Reading<K>, terms: Seq<K::Num>)
    requires
        m.is_exact(v),
        terms.len() > 0,
        forall|k: int| 0 <= k < terms.len() ==> v.num(#[trigger] terms[k]) >= 0 as real,
    ensures
        forall|k: int|
            0 <= k < terms.len() ==> v.num(#[trigger] terms[k]) <= v.num(m.peak(terms)),
        exists|k: int|
            0 <= k < terms.len() && v.num(#[trigger] terms[k]) == v.num(m.peak(terms)),
    decreases terms.len(),
{
    let before = terms.drop_last();
    let last = terms[terms.len() - 1];
    lemma_units(m, v);
    assert(v.num(last) >= 0 as real);
    if before.len() == 0 {
        assert(m.peak(before) == m.zero());
    } else {
        assert forall|k: int| 0 <= k < before.len() implies v.num(#[trigger] before[k])
            >= 0 as real by {
            assert(before[k] == terms[k]);
        }
        lemma_peak_is_the_largest(m, v, before);
        let j = choose|j: int|
            0 <= j < before.len() && v.num(#[trigger] before[j]) == v.num(m.peak(before));
        assert(terms[j] == before[j]);
        assert forall|k: int| 0 <= k < terms.len() implies v.num(#[trigger] terms[k]) <= v.num(
            m.peak(terms),
        ) by {
            if k < before.len() {
                assert(before[k] == terms[k]);
            }
        }
    }
}

/// A tilt of some decibels per octave raises what is shown by as many decibels for every
/// octave above one kilohertz, against the same spectrum without a tilt, within the range
/// that is shown. This is so in exact arithmetic.
pub proof fn law_a_tilt_adds_decibels<K: Kit>(
    m: Model<K>,
    v: Reading<K>,
    lg10: spec_fn(real) -> real,
    lg: spec_fn(real) -> real,
    state: WaterfallState<K>,
    bins: Seq<Complex<K::Num>>,
    tilt: K::Num,
    i: int,
)
    requires
        m.measures_decibels(v, lg10, lg),
        1 <= state.fft_size,
        state.bin_map.len() == WATERFALL_NUM_BINS,
        state.tilt_weights == m.tilt_weights(
            state.bin_map,
            state.fft_size,
            state.sample_rate,
            state.tilt_db_per_octave,
        ),
        v.num(state.tilt_db_per_octave) == 0 as real,
        v.num(tilt) > (1 as real) / (1000 as real) || v.num(tilt) < -(1 as real) / (1000 as real),
        0 <= i < WATERFALL_NUM_BINS,
        v.num(m.strongest(bins, state.bin_map[i], state.fft_size)) > 0 as real,
    ensures
        ({
            let range = state.bin_map[i];
            let plain = (10 as real) * lg10(v.num(m.strongest(bins, range, state.fft_size)));
            let middle_hz = multiple(range.0 + range.1, v.num(state.sample_rate)) / (2
                * state.fft_size) as real;
            let octaves = lg(
                most(middle_hz / (1000 as real), (1 as real) / (1000000 as real)),
            );
            let least = v.num(m.db_floor);
            let floor_db = v.num(state.floor_db);
            &&& v.num(m.frame(state, bins)[i]) == level_of(most(plain, least), floor_db)
            &&& v.num(m.frame(m.tilted(state, tilt), bins)[i]) == level_of(
                most(plain + v.num(tilt) * octaves, least),
                floor_db,
            )
        }),
{
    lemma_fraction(m, v, 1, 1000);
    assert(m.apart(tilt, state.tilt_db_per_octave, m.ratio(1, 1000)));
    law_levels_show_tilted_decibels(m, v, lg10, lg, state, bins, i);
    law_levels_show_tilted_decibels(m, v, lg10, lg, m.tilted(state, tilt), bins, i);
}

/// Whether `ex` turns a sum into a product.
pub open spec fn multiplies(ex: spec_fn(real) -> real, x: real, y: real) -> bool {
    ex(x + y) == ex(x) * ex(y)
}

/// Whether `ex` does not fall from `x` to `y`.
pub open spec fn rises(ex: spec_fn(real) -> real, x: real, y: real) -> bool {
    x <= y ==> ex(x) <= ex(y)
}

/// Whether `ex` is the exponential of `nl`, a logarithm: it turns sums into products, grows,
/// and undoes `nl` on positive reals.
pub open spec fn is_exponential(ex: spec_fn(real) -> real, nl: spec_fn(real) -> real) -> bool {
    &&& forall|x: real| #[trigger] ex(x) > 0 as real
    &&& forall|x: real, y: real| #[trigger] multiplies(ex, x, y)
    &&& forall|x: real, y: real| #[trigger] rises(ex, x, y)
    &&& forall|x: real| x > 0 as real ==> ex(#[trigger] nl(x)) == x
}

impl<K: Kit> Model<K> {
    /// Whether exponentials and logarithms are exact.
    pub open spec fn raises_exactly(
        self,
        v: Reading<K>,
        ex: spec_fn(real) -> real,
        nl: spec_fn(real) -> real,
    ) -> bool {
        &&& self.is_exact(v)
        &&& self.is_exact_size(v)
        &&& is_exponential(ex, nl)
        &&& forall|a: K::Num| v.num(#[trigger] self.exp(a)) == ex(v.num(a))
        &&& forall|a: K::Num|
            v.num(a) > 0 as real ==> v.num(#[trigger] self.ln(a)) == nl(v.num(a))
    }
}

/// The highest frequency on display at a rate: twenty kilohertz, or half the rate where
/// that is less.
pub open spec fn highest_hz(rate: real) -> real {
    if rate / (2 as real) < 20000 as real {
        rate / (2 as real)
    } else {
        20000 as real
    }
}

/// The lowest frequency on display at a rate: twenty hertz, or half the highest where that is
/// less, but at least one hertz.
pub open spec fn lowest_hz(rate: real) -> real {
    let half = highest_hz(rate) / (2 as real);
    most(
        if half < 20 as real {
            half
        } else {
            20 as real
        },
        1 as real,
    )
}

/// How far the display reaches, by the logarithm of the frequency: at least a hundredth.
pub open spec fn span_of(nl: spec_fn(real) -> real, rate: real) -> real {
    most(nl(highest_hz(rate) / lowest_hz(rate)), (1 as real) / (100 as real))
}

/// What the edges of display bins are computed from.
proof fn lemma_edge<K: Kit>(
    m: Model<K>,
    v: Reading<K>,
    ex: spec_fn(real) -> real,
    nl: spec_fn(real) -> real,
    sample_rate: K::Num,
    i: int,
)
    requires
        m.raises_exactly(v, ex, nl),
        v.num(sample_rate) > 0 as real,
    ensures
        ({
            let rate = v.num(sample_rate);
            v.num(m.edge_hz(sample_rate, i)) == ex(
                nl(lowest_hz(rate)) + (i as real) / (256 as real) * span_of(nl, rate),
            )
        }),
{
    let rate = v.num(sample_rate);
    let top = highest_hz(rate);
    let low = lowest_hz(rate);
    lemma_units(m, v);
    lemma_whole_number(m, v, 20000);
    lemma_whole_number(m, v, 20);
    lemma_fraction(m, v, 1, 100);
    let half = (1 as real) / (2 as real);
    assert(rate * half == rate / (2 as real) && top * half == top / (2 as real))
        by (nonlinear_arith)
        requires
            half == (1 as real) / (2 as real),
    ;
    assert(v.num(m.top_hz(sample_rate)) == top);
    assert(v.num(m.bottom_hz(sample_rate)) == low);
    assert(top > 0 as real);
    assert(top / low > 0 as real) by (nonlinear_arith)
        requires
            top > 0 as real,
            low >= 1 as real,
    ;
    assert(v.num(m.count(256)) == 256 as real);
    assert(v.num(m.over(m.count(i), m.count(256))) == (i as real) / (256 as real));
}

/// The display runs from twenty hertz up to twenty kilohertz, or to half the rate where
/// that is less: the first edge and the last are there, in exact arithmetic. A display that
/// would reach hardly anywhere reaches a hundredth in the logarithm.
pub proof fn law_the_display_runs_to_twenty_kilohertz<K: Kit>(
    m: Model<K>,
    v: Reading<K>,
    ex: spec_fn(real) -> real,
    nl: spec_fn(real) -> real,
    sample_rate: K::Num,
)
    requires
        m.raises_exactly(v, ex, nl),
        v.num(sample_rate) > 0 as real,
    ensures
        ({
            let low = lowest_hz(v.num(sample_rate));
            let top = highest_hz(v.num(sample_rate));
            let least = (1 as real) / (100 as real);
            &&& v.num(sample_rate) >= 80 as real ==> low == 20 as real
            &&& v.num(m.edge_hz(sample_rate, 0)) == low
            &&& nl(top / low) >= least ==> v.num(m.edge_hz(sample_rate, 256)) == top
            &&& nl(top / low) < least ==> v.num(m.edge_hz(sample_rate, 256)) == low * ex(least)
        }),
{
    let rate = v.num(sample_rate);
    let top = highest_hz(rate);
    let bottom = lowest_hz(rate);
    let low = nl(bottom);
    let span = span_of(nl, rate);
    lemma_edge(m, v, ex, nl, sample_rate, 0);
    lemma_edge(m, v, ex, nl, sample_rate, 256);
    assert((0 as real) / (256 as real) * span == 0 as real) by (nonlinear_arith);
    assert((256 as real) / (256 as real) * span == span) by (nonlinear_arith);
    assert(ex(low) == bottom);
    let part = top / bottom;
    assert(part > 0 as real && bottom * part == top) by (nonlinear_arith)
        requires
            bottom >= 1 as real,
            top > 0 as real,
            part == top / bottom,
    ;
    assert(ex(nl(part)) == part);
    let sum = low + span;
    assert(multiplies(ex, low, span));
    assert(ex(sum) == ex(low) * ex(span));
}

/// Edges are spaced evenly by their logarithm: two edges that are as many display bins
/// apart as two others have the same ratio, in exact arithmetic.
pub proof fn law_edges_are_spaced_evenly<K: Kit>(
    m: Model<K>,
    v: Reading<K>,
    ex: spec_fn(real) -> real,
    nl: spec_fn(real) -> real,
    sample_rate: K::Num,
    i: int,
    j: int,
    step: int,
)
    requires
        m.raises_exactly(v, ex, nl),
        v.num(sample_rate) > 0 as real,
    ensures
        v.num(m.edge_hz(sample_rate, i + step)) * v.num(m.edge_hz(sample_rate, j)) == v.num(
            m.edge_hz(sample_rate, i),
        ) * v.num(m.edge_hz(sample_rate, j + step)),
        0 <= step ==> v.num(m.edge_hz(sample_rate, i)) <= v.num(m.edge_hz(sample_rate, i + step)),
{
    let low = nl(lowest_hz(v.num(sample_rate)));
    let span = span_of(nl, v.num(sample_rate));
    lemma_edge(m, v, ex, nl, sample_rate, i);
    lemma_edge(m, v, ex, nl, sample_rate, j);
    lemma_edge(m, v, ex, nl, sample_rate, i + step);
    lemma_edge(m, v, ex, nl, sample_rate, j + step);
    let n = 256 as real;
    let a = low + (i as real) / n * span;
    let b = low + (j as real) / n * span;
    let c = low + ((i + step) as real) / n * span;
    let d = low + ((j + step) as real) / n * span;
    let way = (step as real) / n * span;
    assert((i + step) as real == (i as real) + (step as real));
    assert((j + step) as real == (j as real) + (step as real));
    lemma_spread(i as real, step as real, n, span);
    lemma_spread(j as real, step as real, n, span);
    assert(c == a + way);
    assert(d == b + way);
    assert(multiplies(ex, a, way));
    assert(multiplies(ex, b, way));
    assert(rises(ex, a, c));
    let (x, y, z) = (ex(a), ex(b), ex(way));
    assert(x * z * y == x * (y * z)) by (nonlinear_arith);
    if 0 <= step {
        let t = step as real;
        assert(way >= 0 as real) by (nonlinear_arith)
            requires
                t >= 0 as real,
                n == 256 as real,
                span >= (1 as real) / (100 as real),
                way == t / n * span,
        ;
    }
}

/// Parts of a span add up.
proof fn lemma_spread(a: real, b: real, n: real, span: real)
    requires
        n == 256 as real,
    ensures
        (a + b) / n * span == a / n * span + b / n * span,
{
    assert((a + b) / n * span == a / n * span + b / n * span) by (nonlinear_arith)
        requires
            n == 256 as real,
    ;
}

/// A display bin has the spectrum bins of its frequencies: every bin between its edges, and
/// no bin that is a whole bin or more outside them, in exact arithmetic.
pub proof fn law_display_bins_have_their_frequencies<K: Kit>(
    m: Model<K>,
    v: Reading<K>,
    ex: spec_fn(real) -> real,
    nl: spec_fn(real) -> real,
    fft_size: int,
    sample_rate: K::Num,
    i: int,
    bin: int,
)
    requires
        m.raises_exactly(v, ex, nl),
        m.is_exact_index(v),
        v.num(sample_rate) > 0 as real,
        nl(highest_hz(v.num(sample_rate)) / lowest_hz(v.num(sample_rate))) >= (1 as real) / (
        100 as real),
        MIN_FFT_SIZE <= fft_size < usize::MAX,
        fft_size % 2 == 0,
        0 <= i < WATERFALL_NUM_BINS,
        1 <= bin <= fft_size / 2,
    ensures
        ({
            let range = m.bin_map(fft_size, sample_rate)[i];
            let rate = v.num(sample_rate);
            let size = fft_size as real;
            let low = v.num(m.edge_hz(sample_rate, i)) * size;
            let high = v.num(m.edge_hz(sample_rate, i + 1)) * size;
            &&& low <= multiple(bin, rate) <= high ==> range.0 <= bin < range.1
            &&& range.0 <= bin < range.1 ==> low < multiple(bin + 1, rate) && multiple(
                bin - 1,
                rate,
            ) < high
        }),
{
    let rate = v.num(sample_rate);
    let size = fft_size as real;
    let bins = spectrum_length(fft_size);
    let low = v.num(m.edge_hz(sample_rate, i));
    let high = v.num(m.edge_hz(sample_rate, i + 1));
    let first = m.edge_bin(fft_size, sample_rate, i);
    let last = m.edge_bin(fft_size, sample_rate, i + 1);
    let top = highest_hz(rate);
    law_the_display_runs_to_twenty_kilohertz(m, v, ex, nl, sample_rate);
    law_edges_are_spaced_evenly(m, v, ex, nl, sample_rate, 0, 0, i);
    law_edges_are_spaced_evenly(m, v, ex, nl, sample_rate, i, 0, 1);
    law_edges_are_spaced_evenly(m, v, ex, nl, sample_rate, i + 1, 0, 255 - i);
    assert(1 as real <= low <= high <= top);
    lemma_edge_bin(m, v, fft_size, sample_rate, i);
    lemma_edge_bin(m, v, fft_size, sample_rate, i + 1);
    let x = v.num(first);
    let y = v.num(last);
    let half = (fft_size / 2) as real;
    assert(size == (2 as real) * half);
    assert(0 as real <= x && x <= y && y <= half) by (nonlinear_arith)
        requires
            rate > 0 as real,
            x * rate == low * size,
            y * rate == high * size,
            1 as real <= low <= high <= top,
            top <= rate / (2 as real),
            size == (2 as real) * half,
            half >= 32 as real,
    ;
    let floor = m.floor_index(first);
    let ceil = m.ceil_index(last);
    let b = bin as real;
    assert(half < (usize::MAX as int) as real);
    assert(floor as real <= x && x < (floor + 1) as real);
    assert(y <= ceil as real && (ceil - 1) as real <= y);
    assert(floor <= fft_size / 2);
    assert(0 <= floor) by {
        assert((floor + 1) as real > 0 as real);
    }
    assert(floor as real <= ceil as real);
    assert(floor <= ceil);
    let range = m.bin_map(fft_size, sample_rate)[i];
    assert(range.0 == (if floor < 1 {
        1
    } else {
        floor
    }));
    assert(range.1 <= bins);
    assert(range.1 == bins || range.1 == ceil + 1 || range.1 == range.0 + 1);
    if low * size <= b * rate && b * rate <= high * size {
        assert(x <= b && b <= y) by (nonlinear_arith)
            requires
                rate > 0 as real,
                x * rate == low * size,
                y * rate == high * size,
                low * size <= b * rate <= high * size,
        ;
        assert(floor <= bin);
        assert(bin <= ceil);
    }
    if range.0 <= bin < range.1 {
        assert(floor <= bin);
        assert(y > 0 as real) by (nonlinear_arith)
            requires
                y * rate == high * size,
                high >= 1 as real,
                size >= 64 as real,
                rate > 0 as real,
        ;
        assert(ceil >= 1);
        assert(bin <= ceil);
        let above = (bin + 1) as real;
        let below = (bin - 1) as real;
        assert(x < above);
        assert(below < y);
        assert(low * size < above * rate && below * rate < high * size) by (nonlinear_arith)
            requires
                rate > 0 as real,
                x * rate == low * size,
                y * rate == high * size,
                x < above,
                below < y,
        ;
    }
}

/// Where an edge is in the spectrum.
proof fn lemma_edge_bin<K: Kit>(
    m: Model<K>,
    v: Reading<K>,
    fft_size: int,
    sample_rate: K::Num,
    i: int,
)
    requires
        m.is_exact(v),
        v.num(sample_rate) > 0 as real,
        1 <= fft_size,
    ensures
        v.num(m.edge_bin(fft_size, sample_rate, i)) * v.num(sample_rate) == v.num(
            m.edge_hz(sample_rate, i),
        ) * (fft_size as real),
{
    let rate = v.num(sample_rate);
    let size = fft_size as real;
    let hz = v.num(m.edge_hz(sample_rate, i));
    let width = rate / size;
    let x = v.num(m.edge_bin(fft_size, sample_rate, i));
    assert(width > 0 as real) by (nonlinear_arith)
        requires
            rate > 0 as real,
            size >= 1 as real,
            width == rate / size,
    ;
    assert(x == hz / width);
    assert(x * rate == hz * size) by (nonlinear_arith)
        requires
            rate > 0 as real,
            size >= 1 as real,
            width == rate / size,
            width > 0 as real,
            x == hz / width,
    ;
}

} // verus!
