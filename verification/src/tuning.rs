//! Tuning: how pitch classes follow frequencies, and what does not change them.
use crate::exact::{
    is_remainder, is_small, lemma_units, lemma_whole_number, multiple, Reading,
};
use crate::kit::{Kit, Model};
use crate::pitch::{class_weights, BinContrib, Share, NOTE_NAMES};
use crate::sizing::spectrum_length;
use vstd::prelude::*;

verus! {

impl<K: Kit> Model<K> {
    /// Whether a frequency has a pitch: it is positive and finite.
    pub open spec fn has_pitch(self, hz: K::Num) -> bool {
        !self.at_most(hz, self.zero()) && self.is_finite(hz)
    }

    /// The octaves from C0 to a frequency.
    pub open spec fn octaves(self, v: Reading<K>, hz: K::Num, c0_hz: K::Wide) -> real {
        v.wide(self.wide_log2(self.wide_over(self.widen(hz), c0_hz)))
    }
}

/// The value of a whole number.
proof fn lemma_whole<K: Kit>(m: Model<K>, v: Reading<K>, n: int)
    requires
        m.is_exact_wide(v),
    ensures
        v.wide(m.wide_ratio(n, 1)) == n as real,
{
    let x = v.wide(m.wide_ratio(n, 1));
    assert(x * (1 as real) == n as real);
    assert(x == n as real) by (nonlinear_arith)
        requires
            x * (1 as real) == n as real,
    ;
}

/// The semitones above the last C are what is left of twelve times the octaves.
proof fn lemma_octave_point<K: Kit>(m: Model<K>, v: Reading<K>, hz: K::Num, c0_hz: K::Wide)
    requires
        m.is_exact_wide(v),
    ensures
        is_remainder(
            v.wide(m.octave_point(hz, c0_hz)),
            (12 as real) * m.octaves(v, hz, c0_hz),
            12 as real,
        ),
{
    lemma_whole(m, v, 12);
}

/// Remainders by twelve of numbers that are a whole number of twelves and `step` apart
/// differ by `step`, or by twelve less.
proof fn lemma_remainders(rest: real, a: real, other_rest: real, b: real, octaves: int, step: real)
    requires
        is_remainder(rest, a, 12 as real),
        is_remainder(other_rest, b, 12 as real),
        b == a + multiple(octaves, 12 as real) + step,
        0 as real <= step < 12 as real,
    ensures
        other_rest == (if rest + step < 12 as real {
            rest + step
        } else {
            rest + step - (12 as real)
        }),
{
    let n = choose|n: int| a == #[trigger] multiple(n, 12 as real) + rest;
    let k = choose|k: int| b == #[trigger] multiple(k, 12 as real) + other_rest;
    let apart = n + octaves - k;
    assert((apart as real) * (12 as real) == other_rest - rest - step);
    assert(-2 < apart < 1);
}

/// The octaves of a product are those of its factors together.
proof fn lemma_octaves_of_product<K: Kit>(
    m: Model<K>,
    v: Reading<K>,
    hz: K::Num,
    higher: K::Num,
    factor: K::Wide,
    c0_hz: K::Wide,
)
    requires
        m.is_exact_wide(v),
        v.wide(c0_hz) > 0 as real,
        v.wide(m.widen(hz)) > 0 as real,
        v.wide(factor) > 0 as real,
        v.wide(m.widen(higher)) == v.wide(m.widen(hz)) * v.wide(factor),
    ensures
        m.octaves(v, higher, c0_hz) == m.octaves(v, hz, c0_hz) + v.wide(m.wide_log2(factor)),
{
    let a = m.wide_over(m.widen(hz), c0_hz);
    let b = m.wide_over(m.widen(higher), c0_hz);
    let x = v.wide(m.widen(hz));
    let f = v.wide(factor);
    let c = v.wide(c0_hz);
    assert(x / c > 0 as real) by (nonlinear_arith)
        requires
            x > 0 as real,
            c > 0 as real,
    ;
    assert((x * f) / c == (x / c) * f) by (nonlinear_arith)
        requires
            c > 0 as real,
    ;
    assert(v.wide(b) == v.wide(a) * v.wide(factor));
    assert(v.wide(m.wide_log2(b)) == v.wide(m.wide_log2(a)) + v.wide(m.wide_log2(factor)));
}

/// Octaves change nothing: a frequency and its double have the same pitch class, in exact
/// arithmetic.
pub proof fn law_octaves_share_a_pitch_class<K: Kit>(
    m: Model<K>,
    v: Reading<K>,
    hz: K::Num,
    higher: K::Num,
    c0_hz: K::Wide,
)
    requires
        m.is_exact_wide(v),
        v.wide(c0_hz) > 0 as real,
        m.has_pitch(hz),
        m.has_pitch(higher),
        v.wide(m.widen(hz)) > 0 as real,
        v.wide(m.widen(higher)) == v.wide(m.widen(hz)) * (2 as real),
    ensures
        m.pitch_class(higher, c0_hz) == m.pitch_class(hz, c0_hz),
{
    lemma_whole(m, v, 2);
    lemma_octaves_of_product(m, v, hz, higher, m.wide_ratio(2, 1), c0_hz);
    lemma_octave_point(m, v, hz, c0_hz);
    lemma_octave_point(m, v, higher, c0_hz);
    let point = m.octave_point(hz, c0_hz);
    let higher_point = m.octave_point(higher, c0_hz);
    let o = m.octaves(v, hz, c0_hz);
    assert(multiple(1, 12 as real) == 12 as real);
    lemma_remainders(
        v.wide(point),
        (12 as real) * o,
        v.wide(higher_point),
        (12 as real) * m.octaves(v, higher, c0_hz),
        1,
        0 as real,
    );
    assert(v.same_wide(point, higher_point));
}

/// An octave in C0 changes nothing either, in exact arithmetic.
pub proof fn law_octaves_of_c0_share_a_pitch_class<K: Kit>(
    m: Model<K>,
    v: Reading<K>,
    hz: K::Num,
    c0_hz: K::Wide,
    higher_c0_hz: K::Wide,
)
    requires
        m.is_exact_wide(v),
        v.wide(c0_hz) > 0 as real,
        v.wide(m.widen(hz)) > 0 as real,
        v.wide(higher_c0_hz) == v.wide(c0_hz) * (2 as real),
    ensures
        m.pitch_class(hz, higher_c0_hz) == m.pitch_class(hz, c0_hz),
{
    let two = m.wide_ratio(2, 1);
    let ratio = m.wide_over(m.widen(hz), c0_hz);
    let less = m.wide_over(m.widen(hz), higher_c0_hz);
    let x = v.wide(m.widen(hz));
    let c = v.wide(c0_hz);
    let d = v.wide(higher_c0_hz);
    lemma_whole(m, v, 2);
    assert(x / d > 0 as real && x / c == (x / d) * (2 as real)) by (nonlinear_arith)
        requires
            x > 0 as real,
            c > 0 as real,
            d == c * (2 as real),
    ;
    assert(v.wide(m.wide_log2(ratio)) == v.wide(m.wide_log2(less)) + v.wide(m.wide_log2(two)));
    lemma_octave_point(m, v, hz, c0_hz);
    lemma_octave_point(m, v, hz, higher_c0_hz);
    let point = m.octave_point(hz, c0_hz);
    let higher_point = m.octave_point(hz, higher_c0_hz);
    assert(multiple(1, 12 as real) == 12 as real);
    lemma_remainders(
        v.wide(higher_point),
        (12 as real) * m.octaves(v, hz, higher_c0_hz),
        v.wide(point),
        (12 as real) * m.octaves(v, hz, c0_hz),
        1,
        0 as real,
    );
    assert(v.same_wide(point, higher_point));
}

/// A semitone adds one: a frequency a twelfth of an octave higher is one further round the
/// octave, in exact arithmetic.
pub proof fn law_a_semitone_adds_one<K: Kit>(
    m: Model<K>,
    v: Reading<K>,
    hz: K::Num,
    higher: K::Num,
    c0_hz: K::Wide,
)
    requires
        m.is_exact_wide(v),
        v.wide(c0_hz) > 0 as real,
        v.wide(m.widen(hz)) > 0 as real,
        v.wide(m.widen(higher)) == v.wide(m.widen(hz)) * v.wide(
            m.wide_power(m.wide_ratio(2, 1), m.wide_ratio(1, 12)),
        ),
    ensures
        ({
            let point = v.wide(m.octave_point(hz, c0_hz));
            v.wide(m.octave_point(higher, c0_hz)) == (if point < 11 as real {
                point + (1 as real)
            } else {
                point - (11 as real)
            })
        }),
{
    let semitone = m.wide_power(m.wide_ratio(2, 1), m.wide_ratio(1, 12));
    let twelfth = v.wide(m.wide_ratio(1, 12));
    assert(twelfth * (12 as real) == 1 as real);
    lemma_octaves_of_product(m, v, hz, higher, semitone, c0_hz);
    lemma_octave_point(m, v, hz, c0_hz);
    lemma_octave_point(m, v, higher, c0_hz);
    let o = m.octaves(v, hz, c0_hz);
    assert((12 as real) * (o + twelfth) == (12 as real) * o + (1 as real)) by (nonlinear_arith)
        requires
            twelfth * (12 as real) == 1 as real,
    ;
    assert(multiple(0, 12 as real) == 0 as real);
    lemma_remainders(
        v.wide(m.octave_point(hz, c0_hz)),
        (12 as real) * o,
        v.wide(m.octave_point(higher, c0_hz)),
        (12 as real) * m.octaves(v, higher, c0_hz),
        0,
        1 as real,
    );
}

/// The reference is an A: it has pitch class nine, whatever its frequency, in exact
/// arithmetic.
pub proof fn law_the_reference_is_an_a<K: Kit>(m: Model<K>, v: Reading<K>, reference_hz: K::Num)
    requires
        m.is_exact_wide(v),
        m.has_pitch(reference_hz),
        v.wide(m.widen(reference_hz)) > 0 as real,
    ensures
        m.pitch_class(reference_hz, m.c0(reference_hz)) == Some(m.narrow(m.wide_ratio(9, 1))),
{
    let two = m.wide_ratio(2, 1);
    let down = m.wide_power(two, m.wide_ratio(-57, 12));
    let c0_hz = m.c0(reference_hz);
    let ratio = m.wide_over(m.widen(reference_hz), c0_hz);
    let one = m.wide_ratio(1, 1);
    let x = v.wide(m.widen(reference_hz));
    let d = v.wide(down);
    let r = v.wide(ratio);
    assert(d > 0 as real);
    assert(v.wide(c0_hz) == x * d);
    assert(x * d > 0 as real) by (nonlinear_arith)
        requires
            x > 0 as real,
            d > 0 as real,
    ;
    assert(r == x / (x * d));
    assert(r * d == 1 as real && r > 0 as real) by (nonlinear_arith)
        requires
            x > 0 as real,
            d > 0 as real,
            x * d > 0 as real,
            r == x / (x * d),
    ;
    lemma_whole(m, v, 1);
    lemma_whole(m, v, 9);
    let nothing = v.wide(m.wide_log2(one));
    assert(v.wide(one) == v.wide(one) * v.wide(one)) by (nonlinear_arith)
        requires
            v.wide(one) == 1 as real,
    ;
    assert(nothing == nothing + nothing);
    assert(v.wide(one) == r * d);
    assert(nothing == v.wide(m.wide_log2(ratio)) + v.wide(m.wide_log2(down)));
    let fall = v.wide(m.wide_ratio(-57, 12));
    assert(fall * (12 as real) == -57 as real);
    let o = m.octaves(v, reference_hz, c0_hz);
    assert(o == -fall);
    assert((12 as real) * o == 57 as real) by (nonlinear_arith)
        requires
            fall * (12 as real) == -57 as real,
            o == -fall,
    ;
    lemma_octave_point(m, v, reference_hz, c0_hz);
    let point = m.octave_point(reference_hz, c0_hz);
    assert(9 as real == multiple(0, 12 as real) + 9 as real);
    assert(multiple(4, 12 as real) == 48 as real);
    lemma_remainders(9 as real, 9 as real, v.wide(point), (12 as real) * o, 4, 0 as real);
    assert(v.same_wide(point, m.wide_ratio(9, 1)));
}

/// Whether two points of the octave are at most `error` apart, round the octave.
pub open spec fn is_near(point: real, other: real, error: real) -> bool {
    exists|n: int| is_small(point - other - #[trigger] multiple(n, 12 as real), error)
}

/// Whether `lg` is the binary logarithm of positive reals.
pub open spec fn is_logarithm(lg: spec_fn(real) -> real) -> bool {
    &&& lg(2 as real) == 1 as real
    &&& forall|x: real, y: real, product: real|
        #![trigger lg(x), lg(y), lg(product)]
        x > 0 as real && y > 0 as real && product == x * y ==> lg(product) == lg(x) + lg(y)
}

impl<K: Kit> Model<K> {
    /// Whether pitches are computed up to `error` in every step: quotients of frequencies,
    /// their logarithms, semitones, what is left of them by the octave, and the ordinary
    /// precision in the end. Rounded numbers of twice the precision of the result are,
    /// with the rounding of the result as the error.
    pub open spec fn is_close_in_pitch(
        self,
        v: Reading<K>,
        lg: spec_fn(real) -> real,
        error: real,
    ) -> bool {
        let twelve = self.wide_ratio(12, 1);
        &&& 0 as real <= error <= 1 as real
        &&& forall|a: K::Wide, b: K::Wide|
            #![trigger self.wide_over(a, b)]
            v.wide(a) > 0 as real && v.wide(b) > 0 as real && is_small(
                lg(v.wide(a)) - lg(v.wide(b)),
                1000 as real,
            ) ==> v.wide(self.wide_over(a, b)) > 0 as real && is_small(
                lg(v.wide(self.wide_over(a, b))) - (lg(v.wide(a)) - lg(v.wide(b))),
                error,
            )
        &&& forall|a: K::Wide|
            v.wide(a) > 0 as real ==> is_small(
                v.wide(#[trigger] self.wide_log2(a)) - lg(v.wide(a)),
                error,
            )
        &&& forall|a: K::Wide|
            is_small(v.wide(a), 2000 as real) ==> is_small(
                v.wide(#[trigger] self.wide_times(twelve, a)) - (12 as real) * v.wide(a),
                error,
            )
        &&& forall|a: K::Wide|
            is_small(v.wide(a), 30000 as real) ==> {
                let rest = v.wide(#[trigger] self.wide_remainder(a, twelve));
                0 as real <= rest <= 12 as real && is_near(rest, v.wide(a), error)
            }
        &&& forall|a: K::Wide|
            0 as real <= v.wide(a) <= 12 as real ==> is_small(
                v.num(#[trigger] self.narrow(a)) - v.wide(a),
                error,
            )
        &&& forall|a: K::Num|
            v.wide(self.widen(a)) > 0 as real ==> v.wide(#[trigger] self.c0(a)) > 0 as real
                && is_small(
                lg(v.wide(self.c0(a))) - lg(v.wide(self.widen(a))) + (57 as real) / (12 as real),
                error,
            )
    }

    /// The octaves from C0 up to a frequency.
    pub open spec fn true_octaves(
        self,
        v: Reading<K>,
        lg: spec_fn(real) -> real,
        hz: K::Num,
        c0_hz: K::Wide,
    ) -> real {
        lg(v.wide(self.widen(hz))) - lg(v.wide(c0_hz))
    }

    /// Whether a frequency and C0 are positive, and less than a thousand octaves apart.
    pub open spec fn is_audible(
        self,
        v: Reading<K>,
        lg: spec_fn(real) -> real,
        hz: K::Num,
        c0_hz: K::Wide,
    ) -> bool {
        &&& self.has_pitch(hz)
        &&& v.wide(self.widen(hz)) > 0 as real
        &&& v.wide(c0_hz) > 0 as real
        &&& is_small(self.true_octaves(v, lg, hz, c0_hz), 1000 as real)
    }
}

/// A pitch class is twelve times the octaves above C0, round the octave and up to rounding.
pub proof fn law_pitch_classes_are_close<K: Kit>(
    m: Model<K>,
    v: Reading<K>,
    lg: spec_fn(real) -> real,
    error: real,
    hz: K::Num,
    c0_hz: K::Wide,
)
    requires
        m.is_close_in_pitch(v, lg, error),
        m.is_audible(v, lg, hz, c0_hz),
    ensures
        m.pitch_class(hz, c0_hz) is Some,
        is_near(
            v.num(m.pitch_class(hz, c0_hz)->0),
            (12 as real) * m.true_octaves(v, lg, hz, c0_hz),
            (27 as real) * error,
        ),
{
    let twelve = m.wide_ratio(12, 1);
    let d = m.true_octaves(v, lg, hz, c0_hz);
    let ratio = m.wide_over(m.widen(hz), c0_hz);
    let octaves = m.wide_log2(ratio);
    let semitones = m.wide_times(twelve, octaves);
    let point = m.octave_point(hz, c0_hz);
    let pitch = m.narrow(point);
    assert(is_small(lg(v.wide(ratio)) - d, error));
    assert(is_small(v.wide(octaves) - lg(v.wide(ratio)), error));
    assert(is_small(v.wide(octaves), 2000 as real));
    let s = v.wide(semitones);
    assert(is_small(s - (12 as real) * v.wide(octaves), error));
    assert(is_small(s, 30000 as real));
    assert(is_near(v.wide(point), s, error));
    let n = choose|n: int|
        is_small(v.wide(point) - s - #[trigger] multiple(n, 12 as real), error);
    assert(is_small(
        v.num(pitch) - (12 as real) * d - multiple(n, 12 as real),
        (27 as real) * error,
    ));
}

/// Two pitch classes are as far apart, round the octave and up to rounding, as the
/// frequencies are.
proof fn lemma_interval<K: Kit>(
    m: Model<K>,
    v: Reading<K>,
    lg: spec_fn(real) -> real,
    error: real,
    hz: K::Num,
    c0_hz: K::Wide,
    other: K::Num,
    other_c0_hz: K::Wide,
    semitones: real,
    off: real,
)
    requires
        m.is_close_in_pitch(v, lg, error),
        m.is_audible(v, lg, hz, c0_hz),
        m.is_audible(v, lg, other, other_c0_hz),
        is_near(
            (12 as real) * m.true_octaves(v, lg, other, other_c0_hz),
            (12 as real) * m.true_octaves(v, lg, hz, c0_hz) + semitones,
            off,
        ),
    ensures
        is_near(
            v.num(m.pitch_class(other, other_c0_hz)->0),
            v.num(m.pitch_class(hz, c0_hz)->0) + semitones,
            (54 as real) * error + off,
        ),
{
    law_pitch_classes_are_close(m, v, lg, error, hz, c0_hz);
    law_pitch_classes_are_close(m, v, lg, error, other, other_c0_hz);
    let p = v.num(m.pitch_class(hz, c0_hz)->0);
    let q = v.num(m.pitch_class(other, other_c0_hz)->0);
    let x = (12 as real) * m.true_octaves(v, lg, hz, c0_hz);
    let y = (12 as real) * m.true_octaves(v, lg, other, other_c0_hz);
    let twelve = 12 as real;
    let bound = (27 as real) * error;
    let i = choose|n: int| is_small(p - x - #[trigger] multiple(n, twelve), bound);
    let j = choose|n: int| is_small(q - y - #[trigger] multiple(n, twelve), bound);
    let k = choose|n: int| is_small(y - (x + semitones) - #[trigger] multiple(n, twelve), off);
    let n = j + k - i;
    assert(multiple(n, twelve) == multiple(j, twelve) + multiple(k, twelve) - multiple(i, twelve));
    assert(is_small(q - (p + semitones) - multiple(n, twelve), (54 as real) * error + off));
}

/// Octaves change nothing, up to rounding: neither one in the frequency nor one in C0.
pub proof fn law_octaves_are_close<K: Kit>(
    m: Model<K>,
    v: Reading<K>,
    lg: spec_fn(real) -> real,
    error: real,
    hz: K::Num,
    higher: K::Num,
    c0_hz: K::Wide,
    higher_c0_hz: K::Wide,
)
    requires
        is_logarithm(lg),
        m.is_close_in_pitch(v, lg, error),
        m.is_audible(v, lg, hz, c0_hz),
        m.is_audible(v, lg, higher, c0_hz),
        m.is_audible(v, lg, hz, higher_c0_hz),
        v.wide(m.widen(higher)) == v.wide(m.widen(hz)) * (2 as real),
        v.wide(higher_c0_hz) == v.wide(c0_hz) * (2 as real),
    ensures
        is_near(
            v.num(m.pitch_class(higher, c0_hz)->0),
            v.num(m.pitch_class(hz, c0_hz)->0),
            (54 as real) * error,
        ),
        is_near(
            v.num(m.pitch_class(hz, higher_c0_hz)->0),
            v.num(m.pitch_class(hz, c0_hz)->0),
            (54 as real) * error,
        ),
{
    let nothing = 0 as real;
    let two = 2 as real;
    assert(lg(v.wide(m.widen(higher))) == lg(v.wide(m.widen(hz))) + lg(two));
    assert(lg(v.wide(higher_c0_hz)) == lg(v.wide(c0_hz)) + lg(two));
    let d = (12 as real) * m.true_octaves(v, lg, hz, c0_hz);
    let up = (12 as real) * m.true_octaves(v, lg, higher, c0_hz);
    let down = (12 as real) * m.true_octaves(v, lg, hz, higher_c0_hz);
    assert(multiple(1, 12 as real) == 12 as real);
    assert(multiple(-1, 12 as real) == -(12 as real));
    assert(is_small(up - (d + nothing) - multiple(1, 12 as real), nothing));
    assert(is_small(down - (d + nothing) - multiple(-1, 12 as real), nothing));
    lemma_interval(m, v, lg, error, hz, c0_hz, higher, c0_hz, nothing, nothing);
    lemma_interval(m, v, lg, error, hz, c0_hz, hz, higher_c0_hz, nothing, nothing);
}

/// A semitone adds one, up to rounding: a frequency that is a twelfth of an octave higher,
/// up to the same error, is one further round the octave.
pub proof fn law_semitones_are_close<K: Kit>(
    m: Model<K>,
    v: Reading<K>,
    lg: spec_fn(real) -> real,
    error: real,
    hz: K::Num,
    higher: K::Num,
    c0_hz: K::Wide,
)
    requires
        m.is_close_in_pitch(v, lg, error),
        m.is_audible(v, lg, hz, c0_hz),
        m.is_audible(v, lg, higher, c0_hz),
        is_small(
            lg(v.wide(m.widen(higher))) - lg(v.wide(m.widen(hz))) - (1 as real) / (12 as real),
            error,
        ),
    ensures
        is_near(
            v.num(m.pitch_class(higher, c0_hz)->0),
            v.num(m.pitch_class(hz, c0_hz)->0) + (1 as real),
            (66 as real) * error,
        ),
{
    let one = 1 as real;
    let off = (12 as real) * error;
    let d = (12 as real) * m.true_octaves(v, lg, hz, c0_hz);
    let up = (12 as real) * m.true_octaves(v, lg, higher, c0_hz);
    assert(multiple(0, 12 as real) == 0 as real);
    assert(is_small(up - (d + one) - multiple(0, 12 as real), off));
    lemma_interval(m, v, lg, error, hz, c0_hz, higher, c0_hz, one, off);
}

/// The reference is an A, up to rounding.
pub proof fn law_the_reference_is_close_to_an_a<K: Kit>(
    m: Model<K>,
    v: Reading<K>,
    lg: spec_fn(real) -> real,
    error: real,
    reference_hz: K::Num,
)
    requires
        m.is_close_in_pitch(v, lg, error),
        m.has_pitch(reference_hz),
        v.wide(m.widen(reference_hz)) > 0 as real,
    ensures
        is_near(
            v.num(m.pitch_class(reference_hz, m.c0(reference_hz))->0),
            9 as real,
            (39 as real) * error,
        ),
{
    let c0_hz = m.c0(reference_hz);
    let d = m.true_octaves(v, lg, reference_hz, c0_hz);
    assert(is_small(d - (57 as real) / (12 as real), error));
    law_pitch_classes_are_close(m, v, lg, error, reference_hz, c0_hz);
    let p = v.num(m.pitch_class(reference_hz, c0_hz)->0);
    let bound = (27 as real) * error;
    let n = choose|n: int|
        is_small(p - (12 as real) * d - #[trigger] multiple(n, 12 as real), bound);
    assert(multiple(n + 4, 12 as real) == multiple(n, 12 as real) + (48 as real));
    assert(is_small(p - (9 as real) - multiple(n + 4, 12 as real), (39 as real) * error));
}

/// The way from a class to a point of the octave, the short way round, up or down.
pub open spec fn way_round(point: real, class: int) -> real {
    let way = point - (class as real);
    if way > 6 as real {
        way - (12 as real)
    } else if way < -(6 as real) {
        way + (12 as real)
    } else {
        way
    }
}

/// A point of the octave is shared between the two classes nearest to it: the first is at
/// most half a semitone away, the second between half a semitone and one. Each gets the
/// weight of its distance. This is so in exact arithmetic with rounding to the nearest
/// index.
pub proof fn law_classes_are_the_nearest<K: Kit>(m: Model<K>, v: Reading<K>, pitch: K::Num)
    requires
        m.is_exact(v),
        m.is_exact_order(v),
        0 as real <= v.num(pitch) <= 12 as real,
    ensures
        ({
            let half = (1 as real) / (2 as real);
            let shared = m.contrib_at(pitch);
            let near = way_round(v.num(pitch), shared.near.class as int);
            let next = way_round(v.num(pitch), shared.next.class as int);
            &&& -half <= near <= half
            &&& half <= next <= 1 as real || -(1 as real) <= next <= -half
            &&& forall|a: K::Num|
                v.num(a) == near ==> shared.near.weight == #[trigger] m.closeness(a)
            &&& forall|a: K::Num|
                v.num(a) == next ==> shared.next.weight == #[trigger] m.closeness(a)
        }),
{
    let x = v.num(pitch);
    let shared = m.contrib_at(pitch);
    let near = shared.near.class as int;
    let next = shared.next.class as int;
    let above = m.semitones_above(pitch, m.round_index(pitch) % 12);
    let beyond = if m.at_most(m.zero(), above) {
        m.minus(above, m.one())
    } else {
        m.plus(above, m.one())
    };
    lemma_units(m, v);
    lemma_ways(m, v, pitch);
    assert forall|a: K::Num| v.num(a) == way_round(x, near) implies shared.near.weight
        == #[trigger] m.closeness(a) by {
        assert(v.same(a, above));
    }
    assert forall|a: K::Num| v.num(a) == way_round(x, next) implies shared.next.weight
        == #[trigger] m.closeness(a) by {
        assert(v.same(a, beyond));
    }
}

impl<K: Kit> Model<K> {
    /// Twice a number.
    pub open spec fn twice(self, a: K::Num) -> K::Num {
        self.times(self.ratio(2, 1), a)
    }

    /// Whether doubling is exact for bin `bin`: its frequency doubles with that of all
    /// bins, compares with doubled limits as before, and is as far from a doubled C0.
    pub open spec fn doubles_exactly_at(
        self,
        bin: int,
        bin_hz: K::Num,
        min_freq: K::Num,
        max_freq: K::Num,
        reference_hz: K::Num,
    ) -> bool {
        let hz = self.times(self.count(bin), bin_hz);
        &&& self.times(self.count(bin), self.twice(bin_hz)) == self.twice(hz)
        &&& self.less(self.twice(hz), self.twice(min_freq)) == self.less(hz, min_freq)
        &&& self.less(self.twice(max_freq), self.twice(hz)) == self.less(max_freq, hz)
        &&& self.at_most(self.twice(hz), self.zero()) == self.at_most(hz, self.zero())
        &&& self.is_finite(self.twice(hz)) == self.is_finite(hz)
        &&& self.wide_over(self.widen(self.twice(hz)), self.c0(self.twice(reference_hz)))
            == self.wide_over(self.widen(hz), self.c0(reference_hz))
    }

    /// Whether doubling is exact for the rate and for every bin. It is, for rounded
    /// binary numbers, short of overflow and underflow.
    pub open spec fn doubles_exactly(
        self,
        fft_size: int,
        sample_rate: K::Num,
        min_freq: K::Num,
        max_freq: K::Num,
        reference_hz: K::Num,
    ) -> bool {
        let bin_hz = self.over(sample_rate, self.count(fft_size));
        &&& self.over(self.twice(sample_rate), self.count(fft_size)) == self.twice(bin_hz)
        &&& forall|b: int|
            0 <= b < spectrum_length(fft_size) ==> #[trigger] self.doubles_exactly_at(
                b,
                bin_hz,
                min_freq,
                max_freq,
                reference_hz,
            )
    }
}

/// Only ratios of frequencies matter: with the rate, both limits and the reference doubled,
/// the bins are shared as before.
pub proof fn law_only_ratios_matter<K: Kit>(
    m: Model<K>,
    fft_size: int,
    sample_rate: K::Num,
    min_freq: K::Num,
    max_freq: K::Num,
    reference_hz: K::Num,
)
    requires
        0 <= fft_size,
        m.doubles_exactly(fft_size, sample_rate, min_freq, max_freq, reference_hz),
    ensures
        m.bin_contribs(
            fft_size,
            m.twice(sample_rate),
            m.twice(min_freq),
            m.twice(max_freq),
            m.twice(reference_hz),
        ) == m.bin_contribs(fft_size, sample_rate, min_freq, max_freq, reference_hz),
{
    let bins = spectrum_length(fft_size) as nat;
    let bin_hz = m.over(sample_rate, m.count(fft_size));
    let raw = Seq::new(
        bins,
        |b: int| m.raw_contrib(b, bin_hz, min_freq, max_freq, m.c0(reference_hz)),
    );
    let doubled = Seq::new(
        bins,
        |b: int|
            m.raw_contrib(
                b,
                m.over(m.twice(sample_rate), m.count(fft_size)),
                m.twice(min_freq),
                m.twice(max_freq),
                m.c0(m.twice(reference_hz)),
            ),
    );
    assert forall|b: int| 0 <= b < bins implies #[trigger] raw[b] == doubled[b] by {
        assert(m.doubles_exactly_at(b, bin_hz, min_freq, max_freq, reference_hz));
    }
    assert(raw =~= doubled);
}

impl<K: Kit> Model<K> {
    /// Whether frequencies keep their values from one precision to the other, and `lg` is
    /// the logarithm that octaves are counted with.
    pub open spec fn is_exact_pitch(self, v: Reading<K>, lg: spec_fn(real) -> real) -> bool {
        &&& self.is_exact(v)
        &&& self.is_exact_order(v)
        &&& self.is_exact_wide(v)
        &&& is_logarithm(lg)
        &&& forall|a: K::Num| #[trigger] self.is_finite(a)
        &&& forall|a: K::Num| v.wide(#[trigger] self.widen(a)) == v.num(a)
        &&& forall|a: K::Wide| v.num(#[trigger] self.narrow(a)) == v.wide(a)
        &&& forall|a: K::Wide|
            v.wide(a) > 0 as real ==> v.wide(#[trigger] self.wide_log2(a)) == lg(v.wide(a))
    }
}

/// The semitones from C0 up to a frequency: fifty-seven up to the reference A4, and from
/// there twelve for every doubling.
pub open spec fn semitones_from_c0(
    lg: spec_fn(real) -> real,
    hz: real,
    reference_hz: real,
) -> real {
    57 as real + (12 as real) * lg(hz / reference_hz)
}

/// The pitch class of a frequency is what its semitones from C0 leave by the octave.
proof fn lemma_exact_pitch_class<K: Kit>(
    m: Model<K>,
    v: Reading<K>,
    lg: spec_fn(real) -> real,
    hz: K::Num,
    reference_hz: K::Num,
)
    requires
        m.is_exact_pitch(v, lg),
        v.num(hz) > 0 as real,
        v.num(reference_hz) > 0 as real,
    ensures
        m.pitch_class(hz, m.c0(reference_hz)) is Some,
        is_remainder(
            v.num(m.pitch_class(hz, m.c0(reference_hz))->0),
            semitones_from_c0(lg, v.num(hz), v.num(reference_hz)),
            12 as real,
        ),
{
    let c0_hz = m.c0(reference_hz);
    let down = m.wide_power(m.wide_ratio(2, 1), m.wide_ratio(-57, 12));
    let ratio = m.wide_over(m.widen(hz), c0_hz);
    let f = v.num(hz);
    let r = v.num(reference_hz);
    let d = v.wide(down);
    let q = v.wide(ratio);
    lemma_units(m, v);
    assert(d > 0 as real);
    assert(v.wide(c0_hz) == r * d);
    assert(r * d > 0 as real) by (nonlinear_arith)
        requires
            r > 0 as real,
            d > 0 as real,
    ;
    assert(q == f / (r * d));
    let quotient = f / r;
    assert(q > 0 as real && quotient > 0 as real && quotient == q * d) by (nonlinear_arith)
        requires
            f > 0 as real,
            r > 0 as real,
            d > 0 as real,
            r * d > 0 as real,
            q == f / (r * d),
            quotient == f / r,
    ;
    assert(lg(quotient) == lg(q) + lg(d));
    let fall = v.wide(m.wide_ratio(-57, 12));
    assert(fall * (12 as real) == -57 as real);
    assert(lg(d) == fall);
    let o = m.octaves(v, hz, c0_hz);
    assert(o == lg(q));
    assert((12 as real) * o == semitones_from_c0(lg, f, r)) by (nonlinear_arith)
        requires
            fall * (12 as real) == -57 as real,
            lg(quotient) == o + fall,
            semitones_from_c0(lg, f, r) == 57 as real + (12 as real) * lg(quotient),
    ;
    lemma_octave_point(m, v, hz, c0_hz);
}

/// Whether a point of the octave is at most half a semitone from the first of two classes,
/// and at least that, but at most one, from the second.
pub open spec fn is_between(point: real, near: int, next: int) -> bool {
    let half = (1 as real) / (2 as real);
    let way = way_round(point, near);
    let further = way_round(point, next);
    &&& -half <= way <= half
    &&& half <= further <= 1 as real || -(1 as real) <= further <= -half
}

/// Whether a pitch in semitones from C0 goes to the two classes nearest to it.
pub open spec fn goes_to_the_nearest(semitones: real, near: int, next: int) -> bool {
    exists|point: real| #[trigger]
        is_remainder(point, semitones, 12 as real) && is_between(point, near, next)
}

/// A bin of a band goes to the two classes nearest to its pitch: counted in semitones from
/// C0 by the rate that the band is set up for and the tuning, its frequency is at most half
/// a semitone from the first and at least that, but at most one, from the second. This is
/// so in exact arithmetic.
pub proof fn law_bins_go_to_the_nearest_classes<K: Kit>(
    m: Model<K>,
    v: Reading<K>,
    lg: spec_fn(real) -> real,
    size: int,
    sample_rate: K::Num,
    min_freq: K::Num,
    max_freq: K::Num,
    reference_hz: K::Num,
    bin: int,
)
    requires
        m.is_exact_pitch(v, lg),
        2 <= size,
        0 <= bin <= size / 2,
        v.num(reference_hz) > 0 as real,
    ensures
        m.band(size, sample_rate, min_freq, max_freq, reference_hz).contribs[bin] matches Some(c)
            ==> {
            let hz = multiple(bin, v.num(sample_rate)) / (size as real);
            goes_to_the_nearest(
                semitones_from_c0(lg, hz, v.num(reference_hz)),
                c.near.class as int,
                c.next.class as int,
            )
        },
{
    let band = m.band(size, sample_rate, min_freq, max_freq, reference_hz);
    let bin_hz = m.over(sample_rate, m.count(size));
    let hz = m.times(m.count(bin), bin_hz);
    let c0_hz = m.c0(reference_hz);
    lemma_units(m, v);
    if let Some(c) = band.contribs[bin] {
        let raw = m.raw_contrib(bin, bin_hz, min_freq, max_freq, c0_hz);
        assert(raw is Some);
        assert(raw->0.near.class == c.near.class);
        assert(raw->0.next.class == c.next.class);
        let b = bin as real;
        let n = size as real;
        let rate = v.num(sample_rate);
        assert(b * (rate / n) == (b * rate) / n) by (nonlinear_arith)
            requires
                n > 0 as real,
        ;
        lemma_exact_pitch_class(m, v, lg, hz, reference_hz);
        let pitch = m.pitch_class(hz, c0_hz)->0;
        law_classes_are_the_nearest(m, v, pitch);
        assert(v.num(hz) == multiple(bin, rate) / n);
        assert(is_between(v.num(pitch), c.near.class as int, c.next.class as int));
    }
}

/// Weights are a bell curve of the distance in semitones, half a semitone wide: `ex` of
/// minus twice the square of the distance, where `ex` is the exponential. So the weight at
/// half a semitone is `ex` of minus one half.
pub proof fn law_weights_are_a_bell_curve<K: Kit>(
    m: Model<K>,
    v: Reading<K>,
    ex: spec_fn(real) -> real,
    semitones: K::Num,
)
    requires
        m.is_exact(v),
        forall|a: K::Num| v.num(#[trigger] m.exp(a)) == ex(v.num(a)),
        forall|a: K::Num| v.num(#[trigger] m.square(a)) == v.num(a) * v.num(a),
    ensures
        v.num(m.closeness(semitones)) == ex(
            -((2 as real) * (v.num(semitones) * v.num(semitones))),
        ),
{
    let d = v.num(semitones);
    let width = v.num(m.ratio(1, 2));
    let factor = v.num(m.ratio(-1, 2));
    let part = d / width;
    assert(width * (2 as real) == 1 as real);
    assert(factor * (2 as real) == -1 as real);
    assert(width == (1 as real) / (2 as real));
    assert(factor * (part * part) == -((2 as real) * (d * d))) by (nonlinear_arith)
        requires
            width == (1 as real) / (2 as real),
            factor * (2 as real) == -1 as real,
            part == d / width,
    ;
}

/// One of the two shares of a bin.
pub open spec fn share_of<N>(shared: BinContrib<N>, first: bool) -> Share<N> {
    if first {
        shared.near
    } else {
        shared.next
    }
}

/// Among the bins that give to a class, the weights are as the bell curve of their distances
/// to the class: how bins are shared does not depend on how many there are. This is so of
/// any two shares of one class in a band, in exact arithmetic with the exponential `ex`.
pub proof fn law_weights_follow_the_bell_curve<K: Kit>(
    m: Model<K>,
    v: Reading<K>,
    lg: spec_fn(real) -> real,
    ex: spec_fn(real) -> real,
    size: int,
    sample_rate: K::Num,
    min_freq: K::Num,
    max_freq: K::Num,
    reference_hz: K::Num,
    bin: int,
    first: bool,
    other: int,
    other_first: bool,
)
    requires
        m.is_exact_pitch(v, lg),
        forall|a: K::Num| v.num(#[trigger] m.exp(a)) == ex(v.num(a)),
        forall|a: K::Num| v.num(#[trigger] m.square(a)) == v.num(a) * v.num(a),
        2 <= size,
        0 <= bin <= size / 2,
        0 <= other <= size / 2,
        v.num(reference_hz) > 0 as real,
        ({
            let contribs = m.band(size, sample_rate, min_freq, max_freq, reference_hz).contribs;
            &&& contribs[bin] is Some
            &&& contribs[other] is Some
            &&& share_of(contribs[bin]->0, first).class == share_of(
                contribs[other]->0,
                other_first,
            ).class
        }),
    ensures
        ({
            let contribs = m.band(size, sample_rate, min_freq, max_freq, reference_hz).contribs;
            let share = share_of(contribs[bin]->0, first);
            let other_share = share_of(contribs[other]->0, other_first);
            let reference = v.num(reference_hz);
            let hz = multiple(bin, v.num(sample_rate)) / (size as real);
            let other_hz = multiple(other, v.num(sample_rate)) / (size as real);
            exists|point: real, other_point: real|
                #![trigger way_round(point, share.class as int), way_round(
                    other_point,
                    share.class as int,
                )]
                is_remainder(point, semitones_from_c0(lg, hz, reference), 12 as real)
                    && is_remainder(
                    other_point,
                    semitones_from_c0(lg, other_hz, reference),
                    12 as real,
                ) && {
                    let way = way_round(point, share.class as int);
                    let other_way = way_round(other_point, share.class as int);
                    v.num(share.weight) * ex(-((2 as real) * (other_way * other_way))) == v.num(
                        other_share.weight,
                    ) * ex(-((2 as real) * (way * way)))
                }
        }),
{
    let bin_hz = m.over(sample_rate, m.count(size));
    let c0_hz = m.c0(reference_hz);
    let raw = Seq::new(
        spectrum_length(size) as nat,
        |b: int| m.raw_contrib(b, bin_hz, min_freq, max_freq, c0_hz),
    );
    let contribs = m.band(size, sample_rate, min_freq, max_freq, reference_hz).contribs;
    assert(contribs == m.normalized_contribs(raw));
    let share = share_of(contribs[bin]->0, first);
    let other_share = share_of(contribs[other]->0, other_first);
    let before = share_of(raw[bin]->0, first);
    let other_before = share_of(raw[other]->0, other_first);
    lemma_raw_weight(m, v, lg, ex, size, sample_rate, min_freq, max_freq, reference_hz, bin, first);
    lemma_raw_weight(
        m,
        v,
        lg,
        ex,
        size,
        sample_rate,
        min_freq,
        max_freq,
        reference_hz,
        other,
        other_first,
    );
    let hz = m.times(m.count(bin), bin_hz);
    let other_hz = m.times(m.count(other), bin_hz);
    let point = v.num(m.pitch_class(hz, c0_hz)->0);
    let other_point = v.num(m.pitch_class(other_hz, c0_hz)->0);
    let way = way_round(point, share.class as int);
    let other_way = way_round(other_point, share.class as int);
    let curve = ex(-((2 as real) * (way * way)));
    let other_curve = ex(-((2 as real) * (other_way * other_way)));
    assert(share == m.normalized_share(before, raw));
    assert(other_share == m.normalized_share(other_before, raw));
    let total = m.sum_from(m.zero(), class_weights(raw, share.class as int));
    let t = v.num(total);
    let w = v.num(share.weight);
    let u = v.num(other_share.weight);
    lemma_units(m, v);
    assert(v.num(before.weight) == curve);
    assert(v.num(other_before.weight) == other_curve);
    if m.less(m.zero(), total) {
        assert(w == curve / t);
        assert(u == other_curve / t);
        assert(w * other_curve == u * curve) by (nonlinear_arith)
            requires
                t > 0 as real,
                w == curve / t,
                u == other_curve / t,
        ;
    } else {
        assert(w * other_curve == u * curve) by (nonlinear_arith)
            requires
                w == curve,
                u == other_curve,
        ;
    }
}

/// Before they are normalized, the weights of a bin are the bell curve of its distances.
proof fn lemma_raw_weight<K: Kit>(
    m: Model<K>,
    v: Reading<K>,
    lg: spec_fn(real) -> real,
    ex: spec_fn(real) -> real,
    size: int,
    sample_rate: K::Num,
    min_freq: K::Num,
    max_freq: K::Num,
    reference_hz: K::Num,
    bin: int,
    first: bool,
)
    requires
        m.is_exact_pitch(v, lg),
        forall|a: K::Num| v.num(#[trigger] m.exp(a)) == ex(v.num(a)),
        forall|a: K::Num| v.num(#[trigger] m.square(a)) == v.num(a) * v.num(a),
        2 <= size,
        0 <= bin <= size / 2,
        v.num(reference_hz) > 0 as real,
        m.raw_contrib(
            bin,
            m.over(sample_rate, m.count(size)),
            min_freq,
            max_freq,
            m.c0(reference_hz),
        ) is Some,
    ensures
        ({
            let bin_hz = m.over(sample_rate, m.count(size));
            let c0_hz = m.c0(reference_hz);
            let share = share_of(
                m.raw_contrib(bin, bin_hz, min_freq, max_freq, c0_hz)->0,
                first,
            );
            let hz = multiple(bin, v.num(sample_rate)) / (size as real);
            let point = v.num(m.pitch_class(m.times(m.count(bin), bin_hz), c0_hz)->0);
            let way = way_round(point, share.class as int);
            &&& is_remainder(point, semitones_from_c0(lg, hz, v.num(reference_hz)), 12 as real)
            &&& v.num(share.weight) == ex(-((2 as real) * (way * way)))
        }),
{
    let bin_hz = m.over(sample_rate, m.count(size));
    let c0_hz = m.c0(reference_hz);
    let hz = m.times(m.count(bin), bin_hz);
    let shared = m.raw_contrib(bin, bin_hz, min_freq, max_freq, c0_hz)->0;
    let b = bin as real;
    let n = size as real;
    let rate = v.num(sample_rate);
    lemma_units(m, v);
    assert(b * (rate / n) == (b * rate) / n) by (nonlinear_arith)
        requires
            n > 0 as real,
    ;
    assert(v.num(hz) == multiple(bin, rate) / n);
    lemma_exact_pitch_class(m, v, lg, hz, reference_hz);
    let pitch = m.pitch_class(hz, c0_hz)->0;
    law_classes_are_the_nearest(m, v, pitch);
    assert(shared == m.contrib_at(pitch));
    let near = m.round_index(pitch) % 12;
    let above = m.semitones_above(pitch, near);
    let beyond = if m.at_most(m.zero(), above) {
        m.minus(above, m.one())
    } else {
        m.plus(above, m.one())
    };
    law_weights_are_a_bell_curve(m, v, ex, above);
    law_weights_are_a_bell_curve(m, v, ex, beyond);
    lemma_ways(m, v, pitch);
}

/// The distances that the weights of a point of the octave are computed from.
proof fn lemma_ways<K: Kit>(m: Model<K>, v: Reading<K>, pitch: K::Num)
    requires
        m.is_exact(v),
        m.is_exact_order(v),
        0 as real <= v.num(pitch) <= 12 as real,
    ensures
        ({
            let shared = m.contrib_at(pitch);
            let above = m.semitones_above(pitch, m.round_index(pitch) % 12);
            let beyond = if m.at_most(m.zero(), above) {
                m.minus(above, m.one())
            } else {
                m.plus(above, m.one())
            };
            &&& v.num(above) == v.num(pitch) - (m.round_index(pitch) as real)
            &&& v.num(above) == way_round(v.num(pitch), shared.near.class as int)
            &&& v.num(beyond) == way_round(v.num(pitch), shared.next.class as int)
        }),
{
    let x = v.num(pitch);
    let k = m.round_index(pitch);
    let off = x - (k as real);
    let near = k % 12;
    lemma_whole_number(m, v, 6);
    lemma_whole_number(m, v, 12);
    lemma_whole_number(m, v, -6);
    lemma_units(m, v);
    assert(0 <= k <= 12);
    assert(near == (if k == 12 { 0 } else { k }));
    let above = m.semitones_above(pitch, near);
    assert(v.num(above) == way_round(x, near));
    assert(v.num(above) == off);
}

/// The step of the C major scale that a class is, or is just above.
pub open spec fn step_of(class: int) -> int {
    if class < 5 {
        class / 2
    } else {
        (class + 1) / 2
    }
}

/// Whether a class is a step of the C major scale.
pub open spec fn is_natural(class: int) -> bool {
    class == 0 || class == 2 || class == 4 || class == 5 || class == 7 || class == 9 || class == 11
}

/// Classes are named by the steps of the C major scale, which are the letters from C on and
/// round from G to A. A class between two steps is the sharp of the lower one.
pub proof fn law_classes_are_named_by_the_scale(class: int)
    requires
        0 <= class < 12,
    ensures
        ({
            let letters = seq!['C', 'D', 'E', 'F', 'G', 'A', 'B'];
            let letter = letters[step_of(class)];
            NOTE_NAMES[class]@ == (if is_natural(class) {
                seq![letter]
            } else {
                seq![letter, '#']
            })
        }),
{
    reveal_strlit("C");
    reveal_strlit("C#");
    reveal_strlit("D");
    reveal_strlit("D#");
    reveal_strlit("E");
    reveal_strlit("F");
    reveal_strlit("F#");
    reveal_strlit("G");
    reveal_strlit("G#");
    reveal_strlit("A");
    reveal_strlit("A#");
    reveal_strlit("B");
}

} // verus!
