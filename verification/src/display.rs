//! The display bins of the waterfall: how they divide the spectrum, what a tilt does to
//! them, and how audio that is fed in parts comes to be shown in them.
use crate::exact::Reading;
use crate::kit::{Kit, Model};
use crate::order::{lemma_part_is_unit, lemma_unit_is_finite};
use crate::sizing::{spectrum_length, MIN_FFT_SIZE};
use crate::waterfall::{
    law_feeding_in_parts_changes_nothing, range_end, range_start, WaterfallState,
    WATERFALL_NUM_BINS,
};
use vstd::prelude::*;

verus! {

/// A display bin further up has spectrum bins no lower down.
pub proof fn law_ranges_ascend(
    floor: int,
    ceil: int,
    higher_floor: int,
    higher_ceil: int,
    bins: int,
)
    requires
        2 <= bins,
        floor <= higher_floor,
        ceil <= higher_ceil,
    ensures
        range_start(floor, bins) <= range_start(higher_floor, bins),
        range_end(floor, ceil, bins) <= range_end(higher_floor, higher_ceil, bins),
{
}

/// No spectrum bin falls between two display bins that meet at an edge: the upper one
/// begins before the lower one ends. The edge is in bin `edge_floor` and below bin
/// `edge_ceil`.
pub proof fn law_ranges_leave_no_gap(
    floor: int,
    edge_floor: int,
    edge_ceil: int,
    bins: int,
)
    requires
        2 <= bins,
        edge_floor <= edge_ceil,
    ensures
        range_start(edge_floor, bins) < range_end(floor, edge_ceil, bins),
{
}

impl<K: Kit> Model<K> {
    /// Whether exponentials, logarithms of positive numbers and powers of ten grow with the
    /// numbers.
    pub open spec fn raises_in_order(self) -> bool {
        &&& forall|a: K::Num, b: K::Num|
            #![trigger self.exp(a), self.exp(b)]
            self.at_most(a, b) ==> self.at_most(self.exp(a), self.exp(b))
        &&& forall|a: K::Num, b: K::Num|
            #![trigger self.log2(a), self.log2(b)]
            self.less(self.zero(), a) && self.at_most(a, b) ==> self.at_most(
                self.log2(a),
                self.log2(b),
            )
        &&& forall|a: K::Num, b: K::Num|
            #![trigger self.power(self.ratio(10, 1), a), self.power(self.ratio(10, 1), b)]
            self.at_most(a, b) ==> self.at_most(
                self.power(self.ratio(10, 1), a),
                self.power(self.ratio(10, 1), b),
            )
    }

    /// Whether rounding to an index keeps the order, and rounding up gives no less than
    /// rounding down.
    pub open spec fn rounds_in_order(self) -> bool {
        &&& forall|a: K::Num, b: K::Num|
            #![trigger self.floor_index(a), self.floor_index(b)]
            self.at_most(a, b) ==> self.floor_index(a) <= self.floor_index(b)
        &&& forall|a: K::Num, b: K::Num|
            #![trigger self.ceil_index(a), self.ceil_index(b)]
            self.at_most(a, b) ==> self.ceil_index(a) <= self.ceil_index(b)
        &&& forall|a: K::Num|
            #![trigger self.floor_index(a), self.ceil_index(a)]
            self.at_most(a, a) ==> self.floor_index(a) <= self.ceil_index(a)
    }

    /// Whether a rate has a display: the logarithms of its ends are finite, and spectrum
    /// bins have a positive, finite width.
    pub open spec fn has_display(self, fft_size: int, sample_rate: K::Num) -> bool {
        let bottom = self.bottom_hz(sample_rate);
        let bin_hz = self.over(sample_rate, self.count(fft_size));
        &&& self.is_finite(self.ln(bottom))
        &&& self.is_finite(self.ln(self.over(self.top_hz(sample_rate), bottom)))
        &&& self.less(self.zero(), bin_hz)
        &&& self.is_finite(bin_hz)
    }
}

/// The edges of display bins rise.
pub proof fn law_edges_rise<K: Kit>(
    m: Model<K>,
    fft_size: int,
    sample_rate: K::Num,
    i: int,
    j: int,
)
    requires
        m.respects_order(),
        m.raises_in_order(),
        m.has_display(fft_size, sample_rate),
        0 <= i <= j <= WATERFALL_NUM_BINS,
    ensures
        m.at_most(m.edge_hz(sample_rate, i), m.edge_hz(sample_rate, j)),
        m.at_most(m.edge_bin(fft_size, sample_rate, i), m.edge_bin(fft_size, sample_rate, j)),
{
    let zero = m.zero();
    let one = m.one();
    let bottom = m.bottom_hz(sample_rate);
    let start = m.ln(bottom);
    let width = m.ln(m.over(m.top_hz(sample_rate), bottom));
    let least = m.ratio(1, 100);
    let span = m.larger(width, least);
    let all = m.count(256);
    let low = m.over(m.count(i), all);
    let high = m.over(m.count(j), all);
    assert(m.is_finite(m.ratio(0, 1)));
    assert(m.is_finite(m.ratio(1, 1)));
    assert(m.is_finite(least));
    assert(m.at_most(zero, least));
    assert(m.at_most(width, width));
    assert(m.at_most(least, least));
    assert(m.at_most(zero, span));
    assert(m.is_finite(span));
    assert(m.at_most(m.count(i), m.count(j)));
    assert(m.at_most(m.count(j), all));
    assert(m.at_most(m.count(i), all));
    lemma_part_is_unit(m, m.count(i), all);
    lemma_part_is_unit(m, m.count(j), all);
    lemma_unit_is_finite(m, low);
    lemma_unit_is_finite(m, high);
    assert(m.at_most(low, high));
    let low_way = m.times(low, span);
    let high_way = m.times(high, span);
    assert(m.at_most(low_way, high_way));
    assert(m.at_most(m.times(zero, span), low_way));
    assert(m.at_most(m.times(zero, span), high_way));
    assert(m.at_most(low_way, m.times(one, span)));
    assert(m.at_most(high_way, m.times(one, span)));
    assert(m.at_most(zero, low_way));
    assert(m.at_most(zero, high_way));
    assert(m.is_finite(low_way));
    assert(m.is_finite(high_way));
    assert(m.at_most(m.plus(start, low_way), m.plus(start, high_way)));
}

/// Display bins further up have spectrum bins no lower down.
pub proof fn law_display_bins_ascend<K: Kit>(
    m: Model<K>,
    fft_size: int,
    sample_rate: K::Num,
    i: int,
    j: int,
)
    requires
        m.respects_order(),
        m.raises_in_order(),
        m.rounds_in_order(),
        m.has_display(fft_size, sample_rate),
        MIN_FFT_SIZE <= fft_size < usize::MAX,
        0 <= i <= j < WATERFALL_NUM_BINS,
    ensures
        ({
            let bin_map = m.bin_map(fft_size, sample_rate);
            bin_map[i].0 <= bin_map[j].0 && bin_map[i].1 <= bin_map[j].1
        }),
{
    law_edges_rise(m, fft_size, sample_rate, i, j);
    law_edges_rise(m, fft_size, sample_rate, i + 1, j + 1);
    law_ranges_ascend(
        m.floor_index(m.edge_bin(fft_size, sample_rate, i)),
        m.ceil_index(m.edge_bin(fft_size, sample_rate, i + 1)),
        m.floor_index(m.edge_bin(fft_size, sample_rate, j)),
        m.ceil_index(m.edge_bin(fft_size, sample_rate, j + 1)),
        spectrum_length(fft_size),
    );
}

/// No spectrum bin falls between display bins: each begins before the one below it ends.
pub proof fn law_display_bins_leave_no_gap<K: Kit>(
    m: Model<K>,
    fft_size: int,
    sample_rate: K::Num,
    i: int,
)
    requires
        m.respects_order(),
        m.raises_in_order(),
        m.rounds_in_order(),
        m.has_display(fft_size, sample_rate),
        MIN_FFT_SIZE <= fft_size < usize::MAX,
        0 <= i < WATERFALL_NUM_BINS - 1,
    ensures
        ({
            let bin_map = m.bin_map(fft_size, sample_rate);
            bin_map[i + 1].0 < bin_map[i].1
        }),
{
    law_edges_rise(m, fft_size, sample_rate, i + 1, i + 1);
    law_ranges_leave_no_gap(
        m.floor_index(m.edge_bin(fft_size, sample_rate, i)),
        m.floor_index(m.edge_bin(fft_size, sample_rate, i + 1)),
        m.ceil_index(m.edge_bin(fft_size, sample_rate, i + 1)),
        spectrum_length(fft_size),
    );
}

/// A tilt that is negligible leaves every gain at one.
pub proof fn law_a_negligible_tilt_changes_nothing<K: Kit>(
    m: Model<K>,
    bin_map: Seq<(usize, usize)>,
    fft_size: int,
    sample_rate: K::Num,
    tilt: K::Num,
)
    requires
        m.less(m.abs(tilt), m.ratio(1, 1000)),
    ensures
        m.tilt_weights(bin_map, fft_size, sample_rate, tilt) == Seq::new(
            bin_map.len(),
            |i: int| m.one(),
        ),
{
    assert(m.tilt_weights(bin_map, fft_size, sample_rate, tilt) =~= Seq::new(
        bin_map.len(),
        |i: int| m.one(),
    ));
}

impl<K: Kit> Model<K> {
    /// Whether a sign goes through products and quotients, and has no size.
    pub open spec fn negates_through(self) -> bool {
        &&& forall|a: K::Num, b: K::Num| #[trigger]
            self.times(self.negate(a), b) == self.negate(self.times(a, b))
        &&& forall|a: K::Num, b: K::Num| #[trigger]
            self.over(self.negate(a), b) == self.negate(self.over(a, b))
        &&& forall|a: K::Num| #[trigger] self.abs(self.negate(a)) == self.abs(a)
    }

    /// Whether opposite powers of ten multiply to one up to `error`, for exponents of up to
    /// thirty.
    pub open spec fn inverts_powers(self, v: Reading<K>, error: real) -> bool {
        let ten = self.ratio(10, 1);
        forall|a: K::Num|
            self.is_within(a, 30) ==> -error <= v.num(
                #[trigger] self.times(self.power(ten, a), self.power(ten, self.negate(a))),
            ) - (1 as real) <= error
    }
}

/// Opposite tilts have inverse gains: their product is one, up to the error that opposite
/// powers of ten have.
pub proof fn law_opposite_tilts_are_inverse<K: Kit>(
    m: Model<K>,
    v: Reading<K>,
    error: real,
    bin_map: Seq<(usize, usize)>,
    fft_size: int,
    sample_rate: K::Num,
    tilt: K::Num,
    i: int,
)
    requires
        m.negates_through(),
        m.inverts_powers(v, error),
        error >= 0 as real,
        v.num(m.times(m.one(), m.one())) == 1 as real,
        0 <= i < bin_map.len(),
        m.is_within(
            m.tilt_exponent(m.octaves_up(bin_map[i], fft_size, sample_rate), tilt),
            30,
        ),
    ensures
        ({
            let up = m.tilt_weights(bin_map, fft_size, sample_rate, tilt)[i];
            let down = m.tilt_weights(bin_map, fft_size, sample_rate, m.negate(tilt))[i];
            -error <= v.num(m.times(up, down)) - (1 as real) <= error
        }),
{
    let octaves = m.octaves_up(bin_map[i], fft_size, sample_rate);
    let x = m.tilt_exponent(octaves, tilt);
    let ten = m.ratio(10, 1);
    assert(m.times(m.negate(tilt), octaves) == m.negate(m.times(tilt, octaves)));
    assert(m.tilt_exponent(octaves, m.negate(tilt)) == m.negate(x));
    assert(-error <= v.num(m.times(m.power(ten, x), m.power(ten, m.negate(x)))) - (1 as real)
        <= error);
}

/// The middle of spectrum bins further up is no lower, and not negative.
proof fn lemma_centers_ascend<K: Kit>(
    m: Model<K>,
    range: (usize, usize),
    higher: (usize, usize),
    fft_size: int,
    sample_rate: K::Num,
)
    requires
        m.respects_order(),
        range.0 + range.1 <= higher.0 + higher.1,
        0 < fft_size,
        m.less(m.zero(), sample_rate),
        m.is_finite(sample_rate),
    ensures
        m.at_most(
            m.center_khz(range, fft_size, sample_rate),
            m.center_khz(higher, fft_size, sample_rate),
        ),
{
    let zero = m.zero();
    let one = m.one();
    let size = m.count(fft_size);
    let bin_hz = m.over(sample_rate, size);
    let low_count = m.count(range.0 + range.1);
    let high_count = m.count(higher.0 + higher.1);
    let low = m.times(low_count, m.half());
    let high = m.times(high_count, m.half());
    assert(m.is_finite(m.ratio(0, 1)));
    assert(m.is_finite(m.ratio(1, 1)));
    assert(m.is_finite(m.ratio(1, 2)));
    assert(m.ratio(1, 1) == m.count(1));
    assert(m.at_most(m.count(1), size));
    assert(m.is_finite(size));
    assert(m.less(zero, size));
    assert(m.less(zero, one));
    assert(m.at_most(zero, sample_rate));
    assert(m.at_most(m.over(zero, size), bin_hz));
    assert(m.at_most(bin_hz, m.over(sample_rate, one)));
    assert(m.at_most(zero, bin_hz));
    assert(m.is_finite(bin_hz));
    assert(m.at_most(zero, m.ratio(1, 2)));
    assert(m.at_most(m.ratio(1, 2), one));
    assert(m.at_most(low_count, high_count));
    assert(m.at_most(low, high));
    assert(m.at_most(m.times(low_count, zero), low));
    assert(m.at_most(low, m.times(low_count, one)));
    assert(m.at_most(m.times(high_count, zero), high));
    assert(m.at_most(high, m.times(high_count, one)));
    assert(m.is_finite(low));
    assert(m.is_finite(high));
    assert(m.at_most(m.times(low, bin_hz), m.times(high, bin_hz)));
    assert(m.is_finite(m.ratio(1000, 1)));
    assert(m.less(zero, m.ratio(1000, 1)));
}

/// A tilt that is not negative never makes gains fall with frequency: display bins whose
/// middle is further up have no smaller gain.
pub proof fn law_gains_grow_with_a_positive_tilt<K: Kit>(
    m: Model<K>,
    bin_map: Seq<(usize, usize)>,
    fft_size: int,
    sample_rate: K::Num,
    tilt: K::Num,
    i: int,
    j: int,
)
    requires
        m.respects_order(),
        m.raises_in_order(),
        0 <= i < bin_map.len(),
        0 <= j < bin_map.len(),
        bin_map[i].0 + bin_map[i].1 <= bin_map[j].0 + bin_map[j].1,
        0 < fft_size,
        m.less(m.zero(), sample_rate),
        m.is_finite(sample_rate),
        m.at_most(m.zero(), tilt),
        m.is_finite(tilt),
        m.abs(tilt) == tilt,
    ensures
        m.at_most(
            m.tilt_weights(bin_map, fft_size, sample_rate, tilt)[i],
            m.tilt_weights(bin_map, fft_size, sample_rate, tilt)[j],
        ),
{
    let least = m.ratio(1, 1000000);
    let twenty = m.ratio(20, 1);
    let negligible = m.ratio(1, 1000);
    assert(m.is_finite(m.ratio(1, 1)));
    assert(m.at_most(m.one(), m.one()));
    if !m.less(tilt, negligible) {
        assert(m.is_finite(negligible));
        assert(m.less(m.zero(), negligible));
        lemma_centers_ascend(m, bin_map[i], bin_map[j], fft_size, sample_rate);
        let low_khz = m.center_khz(bin_map[i], fft_size, sample_rate);
        let high_khz = m.center_khz(bin_map[j], fft_size, sample_rate);
        let low = m.larger(low_khz, least);
        let high = m.larger(high_khz, least);
        assert(m.is_finite(least));
        assert(m.less(m.zero(), least));
        assert(m.at_most(least, least));
        assert(m.at_most(least, low));
        assert(m.less(m.zero(), low));
        assert(m.at_most(high_khz, high));
        assert(m.at_most(low, high));
        let low_octaves = m.octaves_up(bin_map[i], fft_size, sample_rate);
        let high_octaves = m.octaves_up(bin_map[j], fft_size, sample_rate);
        assert(m.at_most(low_octaves, high_octaves));
        assert(m.at_most(negligible, tilt));
        assert(m.less(m.zero(), tilt));
        assert(m.at_most(m.times(tilt, low_octaves), m.times(tilt, high_octaves)));
        assert(m.is_finite(twenty));
        assert(m.less(m.zero(), twenty));
        assert(m.at_most(
            m.tilt_exponent(low_octaves, tilt),
            m.tilt_exponent(high_octaves, tilt),
        ));
    }
}

impl<K: Kit> Model<K> {
    /// Whether mixing down goes frame by frame: every whole frame gives one sample, parts
    /// that are made of whole frames are mixed as they would be joined, and single
    /// channels are left as they are.
    pub open spec fn mixes_frames(self) -> bool {
        &&& forall|samples: Seq<K::Num>, channels: int|
            channels >= 1 ==> (#[trigger] self.mixdown(samples, channels)).len()
                == samples.len() as int / channels
        &&& forall|first: Seq<K::Num>, second: Seq<K::Num>, channels: int|
            channels >= 1 && first.len() as int % channels == 0 ==> #[trigger] self.mixdown(
                first + second,
                channels,
            ) == self.mixdown(first, channels) + self.mixdown(second, channels)
        &&& forall|samples: Seq<K::Num>| #[trigger] self.mixdown(samples, 1) == samples
    }

    /// The state once interleaved samples were fed.
    pub open spec fn fed_with(
        self,
        state: WaterfallState<K>,
        samples: Seq<K::Num>,
        channels: int,
    ) -> WaterfallState<K> {
        state.fed(self.mixdown(samples, channels))
    }
}

/// Feeding queues one sample for every whole frame behind what is queued, and single
/// channels as they are. Feeding two parts of whole frames queues what feeding them joined
/// does.
pub proof fn law_feeding_appends_frames<K: Kit>(
    m: Model<K>,
    state: WaterfallState<K>,
    first: Seq<K::Num>,
    second: Seq<K::Num>,
    channels: int,
)
    requires
        m.mixes_frames(),
        channels >= 1,
        first.len() as int % channels == 0,
    ensures
        state.queue.is_prefix_of(m.fed_with(state, first, channels).queue),
        m.fed_with(state, first, channels).queue.len() == state.queue.len() + first.len() as int
            / channels,
        m.fed_with(state, first, 1).queue == state.queue + first,
        m.fed_with(m.fed_with(state, first, channels), second, channels) == m.fed_with(
            state,
            first + second,
            channels,
        ),
{
    let parts = m.fed_with(m.fed_with(state, first, channels), second, channels);
    let joined = m.fed_with(state, first + second, channels);
    assert(m.mixdown(first + second, channels) == m.mixdown(first, channels) + m.mixdown(
        second,
        channels,
    ));
    assert(parts.queue =~= joined.queue);
}

/// How audio is cut does not matter: feeding a part of whole frames, draining, feeding the
/// rest and draining again shows the frames, and leaves the samples, of feeding all of it
/// and draining once.
pub proof fn law_cutting_audio_changes_nothing<K: Kit>(
    m: Model<K>,
    state: WaterfallState<K>,
    first: Seq<K::Num>,
    second: Seq<K::Num>,
    channels: int,
)
    requires
        m.mixes_frames(),
        channels >= 1,
        first.len() as int % channels == 0,
        1 <= state.fft_size,
    ensures
        ({
            let begun = m.fed_with(state, first, channels);
            let resumed = m.fed_with(begun.drained(), second, channels);
            let whole = m.fed_with(state, first + second, channels);
            &&& m.frames(whole) == m.frames(begun) + m.frames(resumed)
            &&& whole.drained() == resumed.drained()
        }),
{
    let begun = m.fed_with(state, first, channels);
    law_feeding_appends_frames(m, state, first, second, channels);
    law_feeding_in_parts_changes_nothing(m, begun, m.mixdown(second, channels));
}

} // verus!
