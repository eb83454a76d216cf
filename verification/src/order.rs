//! Ordered arithmetic: what the order of numbers and the operations on them have to do
//! with each other.
//!
//! Laws about ranges and about what grows with what are stated for kits that keep these
//! rules. Exact numbers keep them, and so do numbers that every operation rounds to the
//! nearest, infinities and undefined results included, with undefined results taken as
//! alike, and zeros of either sign where one is the larger or the smaller of two.
use crate::kit::{Kit, Model};
use vstd::prelude::*;

verus! {

impl<K: Kit> Model<K> {
    /// Whether a number is between zero and one.
    pub open spec fn is_unit(self, a: K::Num) -> bool {
        self.at_most(self.zero(), a) && self.at_most(a, self.one())
    }

    /// Whether a number is neither below nor above zero.
    pub open spec fn is_level_with_zero(self, a: K::Num) -> bool {
        self.at_most(self.zero(), a) && self.at_most(a, self.zero())
    }

    /// Whether the order is one: it can be followed from number to number, finite
    /// numbers can be compared, and what lies between finite numbers is finite.
    pub open spec fn is_ordered(self) -> bool {
        &&& forall|a: K::Num, b: K::Num, c: K::Num| #[trigger]
            self.at_most(a, b) && #[trigger] self.at_most(b, c) ==> self.at_most(a, c)
        &&& forall|a: K::Num, b: K::Num|
            #![trigger self.is_finite(a), self.is_finite(b)]
            self.is_finite(a) && self.is_finite(b) ==> self.at_most(a, b) || self.at_most(b, a)
        &&& forall|a: K::Num, b: K::Num, c: K::Num|
            #![trigger self.at_most(a, b), self.at_most(b, c)]
            self.is_finite(a) && self.is_finite(c) && self.at_most(a, b) && self.at_most(b, c)
                ==> self.is_finite(b)
        &&& forall|a: K::Num, b: K::Num| #[trigger]
            self.at_most(a, b) ==> self.at_most(a, a) && self.at_most(b, b)
        &&& forall|a: K::Num, b: K::Num| #[trigger] self.less(a, b) ==> self.at_most(a, b)
        &&& forall|a: K::Num, b: K::Num|
            self.is_finite(a) && self.is_finite(b) ==> #[trigger] self.less(a, b)
                || self.at_most(b, a)
        &&& forall|a: K::Num, b: K::Num, c: K::Num| #[trigger]
            self.less(a, b) && #[trigger] self.at_most(b, c) ==> self.less(a, c)
        &&& forall|a: K::Num, b: K::Num, c: K::Num| #[trigger]
            self.at_most(a, b) && #[trigger] self.less(b, c) ==> self.less(a, c)
    }

    /// Whether zero, one and the ratios between them are in their places.
    pub open spec fn has_ordered_units(self) -> bool {
        &&& self.less(self.zero(), self.one())
        &&& forall|n: int, d: int|
            0 < d ==> self.is_finite(#[trigger] self.ratio(n, d))
        &&& forall|n: int, d: int|
            0 <= n && 0 < d ==> self.at_most(self.zero(), #[trigger] self.ratio(n, d))
        &&& forall|n: int, d: int|
            n <= d && 0 < d ==> self.at_most(#[trigger] self.ratio(n, d), self.one())
        &&& forall|n: int, d: int|
            0 < n && 0 < d ==> self.less(self.zero(), #[trigger] self.ratio(n, d))
        &&& forall|n: int, k: int, d: int|
            n <= k && 0 < d ==> self.at_most(
                #[trigger] self.ratio(n, d),
                #[trigger] self.ratio(k, d),
            )
        &&& forall|n: int| 0 <= n ==> #[trigger] self.ratio(n, 1) == self.count(n)
        &&& forall|n: int| 0 <= n ==> self.is_finite(#[trigger] self.count(n))
        &&& forall|n: int| 0 <= n ==> self.at_most(self.zero(), #[trigger] self.count(n))
        &&& forall|n: int| 0 < n ==> self.less(self.zero(), #[trigger] self.count(n))
        &&& forall|i: int, j: int|
            0 <= i <= j ==> self.at_most(#[trigger] self.count(i), #[trigger] self.count(j))
    }

    /// Whether sums and differences of finite numbers grow with what is added and shrink
    /// with what is taken away.
    pub open spec fn adds_in_order(self) -> bool {
        &&& forall|a: K::Num, b: K::Num, x: K::Num|
            #![trigger self.plus(a, x), self.plus(b, x)]
            self.is_finite(a) && self.is_finite(b) && self.is_finite(x) && self.at_most(a, b)
                ==> self.at_most(self.plus(a, x), self.plus(b, x))
        &&& forall|a: K::Num, b: K::Num, x: K::Num|
            #![trigger self.plus(x, a), self.plus(x, b)]
            self.is_finite(a) && self.is_finite(b) && self.is_finite(x) && self.at_most(a, b)
                ==> self.at_most(self.plus(x, a), self.plus(x, b))
        &&& forall|a: K::Num, b: K::Num, x: K::Num|
            #![trigger self.minus(a, x), self.minus(b, x)]
            self.is_finite(a) && self.is_finite(b) && self.is_finite(x) && self.at_most(a, b)
                ==> self.at_most(self.minus(a, x), self.minus(b, x))
        &&& forall|a: K::Num, b: K::Num, x: K::Num|
            #![trigger self.minus(x, a), self.minus(x, b)]
            self.is_finite(a) && self.is_finite(b) && self.is_finite(x) && self.at_most(a, b)
                ==> self.at_most(self.minus(x, b), self.minus(x, a))
        &&& forall|a: K::Num|
            self.is_finite(a) ==> #[trigger] self.minus(a, a) == self.zero()
        &&& forall|a: K::Num|
            self.is_finite(a) ==> #[trigger] self.minus(a, self.zero()) == a
        &&& forall|a: K::Num|
            self.is_finite(a) ==> #[trigger] self.plus(a, self.minus(self.zero(), a))
                == self.zero()
        &&& forall|a: K::Num|
            self.is_finite(a) ==> self.is_finite(#[trigger] self.minus(self.zero(), a))
        &&& forall|a: K::Num|
            self.is_finite(a) ==> self.at_most(#[trigger] self.plus(a, self.zero()), a)
        &&& forall|a: K::Num|
            self.is_unit(a) ==> self.at_most(
                #[trigger] self.plus(a, self.minus(self.one(), a)),
                self.one(),
            )
    }

    /// Whether a number can be added to: it is finite, or not negative.
    pub open spec fn is_gathered(self, a: K::Num) -> bool {
        self.is_finite(a) || self.at_most(self.zero(), a)
    }

    /// Whether sums grow with what is added to them, where that is not negative.
    pub open spec fn gathers_in_order(self) -> bool {
        &&& forall|a: K::Num, b: K::Num, x: K::Num|
            #![trigger self.plus(a, x), self.plus(b, x)]
            self.is_gathered(a) && self.is_gathered(b) && self.at_most(a, b) && self.at_most(
                self.zero(),
                x,
            ) ==> self.at_most(self.plus(a, x), self.plus(b, x))
        &&& forall|a: K::Num, x: K::Num|
            #![trigger self.plus(a, x)]
            self.is_gathered(a) && self.at_most(self.zero(), x) ==> self.at_most(
                a,
                self.plus(a, x),
            ) && self.is_gathered(self.plus(a, x))
        &&& forall|a: K::Num, x: K::Num|
            #![trigger self.plus(a, x)]
            self.at_most(self.zero(), a) && self.at_most(self.zero(), x) ==> self.at_most(
                x,
                self.plus(a, x),
            )
    }

    /// Whether products and quotients of finite numbers grow with their factors and
    /// dividends and shrink with their divisors.
    pub open spec fn scales_in_order(self) -> bool {
        &&& forall|a: K::Num, b: K::Num, x: K::Num|
            #![trigger self.times(a, x), self.times(b, x)]
            self.is_finite(a) && self.is_finite(b) && self.is_finite(x) && self.at_most(a, b)
                && self.at_most(self.zero(), x) ==> self.at_most(
                self.times(a, x),
                self.times(b, x),
            )
        &&& forall|a: K::Num, b: K::Num, x: K::Num|
            #![trigger self.times(x, a), self.times(x, b)]
            self.is_finite(a) && self.is_finite(b) && self.is_finite(x) && self.at_most(a, b)
                && self.at_most(self.zero(), x) ==> self.at_most(
                self.times(x, a),
                self.times(x, b),
            )
        &&& forall|a: K::Num, b: K::Num, x: K::Num|
            #![trigger self.over(a, x), self.over(b, x)]
            self.is_finite(x) && self.at_most(a, b) && self.less(self.zero(), x)
                ==> self.at_most(self.over(a, x), self.over(b, x))
        &&& forall|a: K::Num, b: K::Num, x: K::Num|
            #![trigger self.over(x, a), self.over(x, b)]
            self.is_finite(a) && self.is_finite(b) && self.is_finite(x) && self.at_most(a, b)
                && self.less(self.zero(), a) && self.at_most(self.zero(), x) ==> self.at_most(
                self.over(x, b),
                self.over(x, a),
            )
        &&& forall|a: K::Num, b: K::Num, x: K::Num|
            #![trigger self.times(x, a), self.times(x, b)]
            self.is_finite(x) && self.at_most(a, b) && self.less(self.zero(), x)
                ==> self.at_most(self.times(x, a), self.times(x, b))
        &&& forall|a: K::Num|
            self.is_finite(a) ==> #[trigger] self.over(a, self.one()) == a
        &&& forall|a: K::Num|
            self.is_finite(a) ==> #[trigger] self.times(self.one(), a) == a
        &&& forall|a: K::Num|
            self.is_finite(a) ==> #[trigger] self.times(a, self.one()) == a
        &&& forall|a: K::Num|
            self.is_finite(a) ==> self.is_level_with_zero(#[trigger] self.times(self.zero(), a))
        &&& forall|a: K::Num|
            self.is_finite(a) ==> self.is_level_with_zero(#[trigger] self.times(a, self.zero()))
        &&& forall|a: K::Num, x: K::Num|
            #![trigger self.times(x, a)]
            self.is_finite(a) && self.at_most(a, self.zero()) && self.is_unit(x)
                ==> self.at_most(a, self.times(x, a))
        &&& forall|a: K::Num|
            self.is_finite(a) && self.less(self.zero(), a) ==> #[trigger] self.over(a, a)
                == self.one()
        &&& forall|a: K::Num|
            self.is_finite(a) && self.less(self.zero(), a) ==> #[trigger] self.over(
                self.zero(),
                a,
            ) == self.zero()
    }

    /// Whether squares, and products of numbers that are not negative, are not negative.
    pub open spec fn multiplies_signs(self) -> bool {
        &&& forall|a: K::Num|
            self.is_finite(a) ==> self.at_most(self.zero(), #[trigger] self.times(a, a))
        &&& forall|a: K::Num, b: K::Num|
            #![trigger self.times(a, b)]
            self.at_most(self.zero(), a) && self.at_most(self.zero(), b) && self.at_most(
                self.times(a, b),
                self.times(a, b),
            ) ==> self.at_most(self.zero(), self.times(a, b))
    }

    /// Whether a number is at most `n` away from zero.
    pub open spec fn is_within(self, a: K::Num, n: int) -> bool {
        self.at_most(self.minus(self.zero(), self.count(n)), a) && self.at_most(a, self.count(n))
    }

    /// Whether moderate numbers stay so: sums and differences are as far from zero as both
    /// numbers together at most, and products are finite.
    pub open spec fn stays_moderate(self) -> bool {
        &&& forall|a: K::Num, b: K::Num, j: int, k: int|
            #![trigger self.plus(a, b), self.is_within(a, j), self.is_within(b, k)]
            0 <= j && 0 <= k && j + k <= 16777216 && self.is_within(a, j) && self.is_within(b, k)
                ==> self.is_within(self.plus(a, b), j + k)
        &&& forall|a: K::Num, b: K::Num, j: int, k: int|
            #![trigger self.minus(a, b), self.is_within(a, j), self.is_within(b, k)]
            0 <= j && 0 <= k && j + k <= 16777216 && self.is_within(a, j) && self.is_within(b, k)
                ==> self.is_within(self.minus(a, b), j + k)
        &&& forall|a: K::Num, b: K::Num, j: int, k: int|
            #![trigger self.times(a, b), self.is_within(a, j), self.is_within(b, k)]
            0 <= j <= 16777216 && 0 <= k <= 16777216 && self.is_within(a, j) && self.is_within(b, k)
                ==> self.is_finite(self.times(a, b))
    }

    /// Whether the larger of two numbers is one of them and not below either,
    /// what is held between bounds is between them, and roots grow with their squares.
    pub open spec fn picks_in_order(self) -> bool {
        &&& forall|a: K::Num, b: K::Num|
            #![trigger self.larger(a, b)]
            self.at_most(a, a) && self.at_most(b, b) ==> {
                &&& self.at_most(a, self.larger(a, b))
                &&& self.at_most(b, self.larger(a, b))
                &&& self.larger(a, b) == a || self.larger(a, b) == b
            }
        &&& forall|a: K::Num, low: K::Num, high: K::Num|
            #![trigger self.clamp(a, low, high)]
            self.is_finite(a) && self.at_most(low, high) ==> self.at_most(
                low,
                self.clamp(a, low, high),
            ) && self.at_most(self.clamp(a, low, high), high)
        &&& forall|a: K::Num|
            self.is_unit(a) ==> self.is_unit(#[trigger] self.sqrt(a))
    }

    /// Whether the order and the operations keep all of these rules.
    pub open spec fn respects_order(self) -> bool {
        &&& self.is_ordered()
        &&& self.has_ordered_units()
        &&& self.adds_in_order()
        &&& self.gathers_in_order()
        &&& self.scales_in_order()
        &&& self.multiplies_signs()
        &&& self.stays_moderate()
        &&& self.picks_in_order()
    }
}

/// A number between zero and one is finite.
pub proof fn lemma_unit_is_finite<K: Kit>(m: Model<K>, a: K::Num)
    requires
        m.is_ordered(),
        m.has_ordered_units(),
        m.is_unit(a),
    ensures
        m.is_finite(a),
        m.is_finite(m.zero()),
        m.is_finite(m.one()),
{
    assert(m.is_finite(m.ratio(0, 1)));
    assert(m.is_finite(m.ratio(1, 1)));
}

/// A number that is not far from zero is finite.
pub proof fn lemma_within_is_finite<K: Kit>(m: Model<K>, a: K::Num, n: int)
    requires
        m.respects_order(),
        0 <= n,
        m.is_within(a, n),
    ensures
        m.is_finite(a),
{
    assert(m.is_finite(m.count(n)));
    assert(m.is_finite(m.minus(m.zero(), m.count(n))));
}

/// A number that is not negative and at most `n` is at most `n` away from zero.
pub proof fn lemma_at_most_is_within<K: Kit>(m: Model<K>, a: K::Num, n: int)
    requires
        m.respects_order(),
        0 <= n,
        m.at_most(m.zero(), a),
        m.at_most(a, m.count(n)),
    ensures
        m.is_within(a, n),
{
    assert(m.is_finite(m.ratio(0, 1)));
    assert(m.is_finite(m.count(n)));
    assert(m.at_most(m.zero(), m.count(n)));
    assert(m.at_most(m.minus(m.zero(), m.count(n)), m.minus(m.zero(), m.zero())));
}

/// A number between zero and one is at most one away from zero.
pub proof fn lemma_unit_is_within<K: Kit>(m: Model<K>, a: K::Num)
    requires
        m.respects_order(),
        m.is_unit(a),
    ensures
        m.is_within(a, 1),
{
    assert(m.ratio(1, 1) == m.count(1));
    lemma_at_most_is_within(m, a, 1);
}

/// A part of a whole, as a quotient, is between zero and one.
pub proof fn lemma_part_is_unit<K: Kit>(m: Model<K>, part: K::Num, whole: K::Num)
    requires
        m.respects_order(),
        m.at_most(m.zero(), part),
        m.at_most(part, whole),
        m.less(m.zero(), whole),
        m.is_finite(whole),
    ensures
        m.is_unit(m.over(part, whole)),
{
    assert(m.is_finite(m.ratio(0, 1)));
    assert(m.is_finite(part));
    assert(m.at_most(m.over(m.zero(), whole), m.over(part, whole)));
    assert(m.at_most(m.over(part, whole), m.over(whole, whole)));
}

/// A product of numbers between zero and one is between zero and either of them.
pub proof fn lemma_unit_product<K: Kit>(m: Model<K>, a: K::Num, b: K::Num)
    requires
        m.respects_order(),
        m.is_unit(a),
        m.is_unit(b),
    ensures
        m.is_unit(m.times(a, b)),
        m.at_most(m.times(a, b), a),
        m.at_most(m.times(a, b), b),
{
    lemma_unit_is_finite(m, a);
    lemma_unit_is_finite(m, b);
    assert(m.at_most(m.times(m.zero(), b), m.times(a, b)));
    assert(m.at_most(m.times(a, b), m.times(m.one(), b)));
    assert(m.at_most(m.times(a, b), m.times(a, m.one())));
}

/// A number that moves part of the way from one number between zero and one to another
/// stays between zero and one.
pub proof fn lemma_move_is_unit<K: Kit>(m: Model<K>, from: K::Num, to: K::Num, part: K::Num)
    requires
        m.respects_order(),
        m.is_unit(from),
        m.is_unit(to),
        m.is_unit(part),
    ensures
        m.is_unit(m.plus(from, m.times(part, m.minus(to, from)))),
{
    let way = m.minus(to, from);
    let step = m.times(part, way);
    let zero = m.zero();
    lemma_unit_is_finite(m, from);
    lemma_unit_is_finite(m, to);
    lemma_unit_is_finite(m, part);
    if m.at_most(from, to) {
        let rest = m.minus(m.one(), from);
        lemma_unit_rest(m, from);
        lemma_unit_is_finite(m, rest);
        assert(m.at_most(m.minus(from, from), way));
        assert(m.at_most(way, rest));
        lemma_unit_product(m, part, way);
        assert(m.at_most(step, rest));
        assert(m.is_finite(step));
        assert(m.at_most(m.plus(from, step), m.plus(from, rest)));
        assert(m.at_most(from, m.plus(from, step)));
    } else {
        let least = m.minus(zero, from);
        assert(m.at_most(way, m.minus(from, from)));
        assert(m.at_most(least, way));
        assert(m.is_finite(way));
        assert(m.at_most(way, step));
        assert(m.at_most(step, m.times(part, zero)));
        assert(m.at_most(step, zero));
        assert(m.is_finite(step));
        assert(m.at_most(m.plus(from, least), m.plus(from, step)));
        assert(m.at_most(m.plus(from, step), m.plus(from, zero)));
    }
}

/// What is left of one is between zero and one.
pub proof fn lemma_unit_rest<K: Kit>(m: Model<K>, a: K::Num)
    requires
        m.respects_order(),
        m.is_unit(a),
    ensures
        m.is_unit(m.minus(m.one(), a)),
{
    lemma_unit_is_finite(m, a);
    assert(m.at_most(m.minus(m.one(), m.one()), m.minus(m.one(), a)));
    assert(m.at_most(m.minus(m.one(), a), m.minus(m.one(), m.zero())));
}

} // verus!
