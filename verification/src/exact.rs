//! Exact arithmetic: numbers that stand for reals and are computed without rounding.
//!
//! Some laws hold of rounded numbers only up to rounding. They are stated for kits whose
//! numbers have a [`Reading`] as reals under which the arithmetic is exact.
use crate::kit::{Kit, Model};
use vstd::prelude::*;

verus! {

/// The reals that the numbers of a kit stand for.
#[verifier::reject_recursive_types(K)]
pub ghost struct Reading<K: Kit> {
    /// The value of a number.
    pub num: spec_fn(K::Num) -> real,
    /// The value of a number of the greater precision.
    pub wide: spec_fn(K::Wide) -> real,
}

impl<K: Kit> Reading<K> {
    /// The value of a number.
    pub open spec fn num(self, a: K::Num) -> real {
        (self.num)(a)
    }

    /// The value of a number of the greater precision.
    pub open spec fn wide(self, a: K::Wide) -> real {
        (self.wide)(a)
    }

    /// Whether two numbers have the same value.
    pub open spec fn same(self, a: K::Num, b: K::Num) -> bool {
        self.num(a) == self.num(b)
    }

    /// Whether two numbers of the greater precision have the same value.
    pub open spec fn same_wide(self, a: K::Wide, b: K::Wide) -> bool {
        self.wide(a) == self.wide(b)
    }
}

impl<K: Kit> Model<K> {
    /// Whether numbers are computed exactly: each value has one number, and operations
    /// give the number of the right value.
    pub open spec fn is_exact(self, v: Reading<K>) -> bool {
        &&& forall|a: K::Num, b: K::Num| #[trigger] v.same(a, b) ==> a == b
        &&& forall|n: int, d: int|
            d != 0 ==> v.num(#[trigger] self.ratio(n, d)) * (d as real) == n as real
        &&& forall|n: int| v.num(#[trigger] self.count(n)) == n as real
        &&& forall|a: K::Num, b: K::Num|
            v.num(#[trigger] self.plus(a, b)) == v.num(a) + v.num(b)
        &&& forall|a: K::Num, b: K::Num|
            v.num(#[trigger] self.minus(a, b)) == v.num(a) - v.num(b)
        &&& forall|a: K::Num, b: K::Num|
            v.num(#[trigger] self.times(a, b)) == v.num(a) * v.num(b)
        &&& forall|a: K::Num, b: K::Num|
            v.num(b) != 0 as real ==> v.num(#[trigger] self.over(a, b)) == v.num(a) / v.num(b)
        &&& forall|a: K::Num| v.num(#[trigger] self.negate(a)) == -v.num(a)
        &&& forall|a: K::Num, b: K::Num|
            v.num(#[trigger] self.larger(a, b)) == (if v.num(a) < v.num(b) {
                v.num(b)
            } else {
                v.num(a)
            })
        &&& forall|a: K::Num|
            v.num(a) >= 0 as real ==> {
                let root = v.num(#[trigger] self.sqrt(a));
                root >= 0 as real && root * root == v.num(a)
            }
    }
}

impl<K: Kit> Model<K> {
    /// Whether numbers are compared and held between bounds by their values, and rounded to
    /// an index that is not further than one half from them.
    pub open spec fn is_exact_order(self, v: Reading<K>) -> bool {
        &&& forall|a: K::Num, b: K::Num| #[trigger] self.less(a, b) == (v.num(a) < v.num(b))
        &&& forall|a: K::Num, b: K::Num| #[trigger] self.at_most(a, b) == (v.num(a) <= v.num(b))
        &&& forall|a: K::Num|
            v.num(a) >= 0 as real ==> {
                let off = v.num(a) - (#[trigger] self.round_index(a) as real);
                -(1 as real) / (2 as real) <= off <= (1 as real) / (2 as real)
            }
        &&& forall|a: K::Num, low: K::Num, high: K::Num|
            v.num(low) <= v.num(high) ==> v.num(#[trigger] self.clamp(a, low, high)) == (if v.num(
                a,
            ) < v.num(low) {
                v.num(low)
            } else if v.num(a) > v.num(high) {
                v.num(high)
            } else {
                v.num(a)
            })
    }
}

impl<K: Kit> Model<K> {
    /// Whether the smaller of two numbers and the absolute value are exact.
    pub open spec fn is_exact_size(self, v: Reading<K>) -> bool {
        &&& forall|a: K::Num, b: K::Num|
            v.num(#[trigger] self.smaller(a, b)) == (if v.num(b) < v.num(a) {
                v.num(b)
            } else {
                v.num(a)
            })
        &&& forall|a: K::Num|
            v.num(#[trigger] self.abs(a)) == (if v.num(a) < 0 as real {
                -v.num(a)
            } else {
                v.num(a)
            })
    }

    /// Whether numbers that are not negative, and not beyond the indices that there are,
    /// are rounded down and up to the next index.
    pub open spec fn is_exact_index(self, v: Reading<K>) -> bool {
        &&& forall|a: K::Num|
            0 as real <= v.num(a) < (usize::MAX as int) as real ==> {
                let index = #[trigger] self.floor_index(a) as real;
                index <= v.num(a) && v.num(a) < index + (1 as real)
            }
        &&& forall|a: K::Num|
            0 as real <= v.num(a) < (usize::MAX as int) as real ==> {
                let index = #[trigger] self.ceil_index(a) as real;
                v.num(a) <= index && index - (1 as real) < v.num(a)
            }
    }
}

/// Whether `x` is at most `error` away from zero.
pub open spec fn is_small(x: real, error: real) -> bool {
    -error <= x <= error
}

/// `n` times `unit`.
pub open spec fn multiple(n: int, unit: real) -> real {
    (n as real) * unit
}

/// Whether `rest` is the least remainder of `a` by `unit` that is not negative.
pub open spec fn is_remainder(rest: real, a: real, unit: real) -> bool {
    &&& 0 as real <= rest < unit
    &&& exists|n: int| a == #[trigger] multiple(n, unit) + rest
}

impl<K: Kit> Model<K> {
    /// Whether numbers of the greater precision are computed exactly, logarithms of
    /// positive numbers included.
    pub open spec fn is_exact_wide(self, v: Reading<K>) -> bool {
        let two = self.wide_ratio(2, 1);
        &&& forall|a: K::Wide, b: K::Wide| #[trigger] v.same_wide(a, b) ==> a == b
        &&& forall|n: int, d: int|
            d != 0 ==> v.wide(#[trigger] self.wide_ratio(n, d)) * (d as real) == n as real
        &&& forall|a: K::Wide, b: K::Wide|
            v.wide(#[trigger] self.wide_times(a, b)) == v.wide(a) * v.wide(b)
        &&& forall|a: K::Wide, b: K::Wide|
            v.wide(b) != 0 as real ==> v.wide(#[trigger] self.wide_over(a, b)) == v.wide(a)
                / v.wide(b)
        &&& forall|a: K::Wide, b: K::Wide|
            v.wide(b) > 0 as real ==> is_remainder(
                v.wide(#[trigger] self.wide_remainder(a, b)),
                v.wide(a),
                v.wide(b),
            )
        &&& forall|a: K::Wide, b: K::Wide, product: K::Wide|
            #![trigger self.wide_log2(a), self.wide_log2(b), self.wide_log2(product)]
            v.wide(a) > 0 as real && v.wide(b) > 0 as real && v.wide(product) == v.wide(a)
                * v.wide(b) ==> v.wide(self.wide_log2(product)) == v.wide(self.wide_log2(a))
                + v.wide(self.wide_log2(b))
        &&& v.wide(self.wide_log2(two)) == 1 as real
        &&& forall|y: K::Wide|
            v.wide(#[trigger] self.wide_power(two, y)) > 0 as real && v.wide(
                self.wide_log2(self.wide_power(two, y)),
            ) == v.wide(y)
    }
}

/// The values of zero, one and one half.
pub proof fn lemma_units<K: Kit>(m: Model<K>, v: Reading<K>)
    requires
        m.is_exact(v),
    ensures
        v.num(m.zero()) == 0 as real,
        v.num(m.one()) == 1 as real,
        v.num(m.half()) == (1 as real) / (2 as real),
{
    let zero = v.num(m.zero());
    let one = v.num(m.one());
    let half = v.num(m.half());
    assert(zero * (1 as real) == 0 as real);
    assert(one * (1 as real) == 1 as real);
    assert(half * (2 as real) == 1 as real);
    assert(zero == 0 as real) by (nonlinear_arith)
        requires
            zero * (1 as real) == 0 as real,
    ;
    assert(one == 1 as real) by (nonlinear_arith)
        requires
            one * (1 as real) == 1 as real,
    ;
    assert(half == (1 as real) / (2 as real)) by (nonlinear_arith)
        requires
            half * (2 as real) == 1 as real,
    ;
}

/// The value of a whole number.
pub proof fn lemma_whole_number<K: Kit>(m: Model<K>, v: Reading<K>, n: int)
    requires
        m.is_exact(v),
    ensures
        v.num(m.ratio(n, 1)) == n as real,
{
    let x = v.num(m.ratio(n, 1));
    assert(x * (1 as real) == n as real);
    assert(x == n as real) by (nonlinear_arith)
        requires
            x * (1 as real) == n as real,
    ;
}

/// The value of a fraction.
pub proof fn lemma_fraction<K: Kit>(m: Model<K>, v: Reading<K>, n: int, d: int)
    requires
        m.is_exact(v),
        d > 0,
    ensures
        v.num(m.ratio(n, d)) == (n as real) / (d as real),
{
    let x = v.num(m.ratio(n, d));
    let y = n as real;
    let z = d as real;
    assert(x * z == y);
    assert(x == y / z) by (nonlinear_arith)
        requires
            x * z == y,
            z > 0 as real,
    ;
}

} // verus!
