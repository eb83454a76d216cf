//! Rounded arithmetic: numbers that stand for reals and are computed up to rounding, and
//! reversed pictures in them.
use crate::exact::{is_small, Reading};
use crate::kit::{Kit, Model};
use crate::render::{law_reversal_mirrors_the_levels, Bounds, Placement, Scene};
use vstd::prelude::*;

verus! {

/// The values up to which numbers are rounded to the nearest: beyond any screen.
pub open spec fn far_away() -> real {
    1000000000 as real
}

/// Whether `result` is `exact` up to rounding by `unit`: off by the unit, and by the unit
/// for every one in it, at most.
pub open spec fn is_rounded_to(result: real, exact: real, unit: real) -> bool {
    let size = if exact < 0 as real {
        -exact
    } else {
        exact
    };
    is_small(result - exact, unit * (1 as real + size))
}

impl<K: Kit> Model<K> {
    /// Whether the operations on numbers whose values are not far away round by `unit`, and
    /// sums do not depend on the order.
    pub open spec fn is_rounded(self, v: Reading<K>, unit: real) -> bool {
        &&& 0 as real <= unit <= (1 as real) / (1000 as real)
        &&& forall|a: K::Num, b: K::Num|
            is_small(v.num(a), far_away()) && is_small(v.num(b), far_away()) ==> is_rounded_to(
                v.num(#[trigger] self.plus(a, b)),
                v.num(a) + v.num(b),
                unit,
            )
        &&& forall|a: K::Num, b: K::Num|
            is_small(v.num(a), far_away()) && is_small(v.num(b), far_away()) ==> is_rounded_to(
                v.num(#[trigger] self.minus(a, b)),
                v.num(a) - v.num(b),
                unit,
            )
        &&& forall|a: K::Num, b: K::Num|
            is_small(v.num(a), far_away()) && is_small(v.num(b), far_away()) ==> is_rounded_to(
                v.num(#[trigger] self.times(a, b)),
                v.num(a) * v.num(b),
                unit,
            )
        &&& forall|n: int, d: int|
            0 <= n <= d && 0 < d ==> is_rounded_to(
                v.num(#[trigger] self.over(self.count(n), self.count(d))),
                (n as real) / (d as real),
                unit,
            )
        &&& v.num(self.one()) == 1 as real
        &&& v.num(self.half()) == (1 as real) / (2 as real)
        &&& forall|a: K::Num, b: K::Num| #[trigger] self.plus(a, b) == self.plus(b, a)
    }
}

/// Rounding a value that is off by `k` errors, and at most `c` sizes, makes it off by
/// `k + c + 1` errors at most.
proof fn lemma_round(
    result: real,
    value: real,
    target: real,
    k: real,
    c: real,
    unit: real,
    size: real,
)
    requires
        0 as real <= unit <= (1 as real) / (1000 as real),
        1 as real <= size,
        0 as real <= k,
        0 as real <= c <= 100 as real,
        is_small(value - target, k * (unit * size)),
        is_small(value, c * size),
        is_rounded_to(result, value, unit),
    ensures
        is_small(result - target, (k + c + (1 as real)) * (unit * size)),
        is_small(result, (c + (1 as real)) * size),
{
    let e = unit * size;
    let far = if value < 0 as real {
        -value
    } else {
        value
    };
    let off = unit * (1 as real + far);
    assert(off <= (c + (1 as real)) * e) by (nonlinear_arith)
        requires
            0 as real <= unit,
            1 as real <= size,
            e == unit * size,
            far <= c * size,
            off == unit * (1 as real + far),
    ;
    assert(k * e + (c + (1 as real)) * e == (k + c + (1 as real)) * e) by (nonlinear_arith);
    assert((c + (1 as real)) * e <= size) by (nonlinear_arith)
        requires
            0 as real <= unit <= (1 as real) / (1000 as real),
            1 as real <= size,
            e == unit * size,
            0 as real <= c <= 100 as real,
    ;
    assert(c * size + size == (c + (1 as real)) * size) by (nonlinear_arith);
}

impl<K: Kit> Model<K> {
    /// Where the frequency axis of a picture begins.
    pub open spec fn axis_low(self, bounds: Bounds<K::Num>, vertical: bool) -> K::Num {
        if vertical {
            bounds.y
        } else {
            bounds.x
        }
    }

    /// The extent of the frequency axis of a picture.
    pub open spec fn axis_extent(self, bounds: Bounds<K::Num>, vertical: bool) -> K::Num {
        if vertical {
            bounds.height
        } else {
            bounds.width
        }
    }
}

/// The exact place of a joint along the frequency axis, before it is drawn toward the
/// vanishing point.
pub open spec fn exact_part(vertical: bool, joint: int, bins: int) -> real {
    let t = (joint as real) / (bins as real);
    if vertical {
        1 as real - t
    } else {
        t
    }
}

/// The vanishing point is in the middle, up to rounding.
proof fn lemma_vanish_close<K: Kit>(
    m: Model<K>,
    v: Reading<K>,
    unit: real,
    size: real,
    bounds: Bounds<K::Num>,
    vertical: bool,
)
    requires
        m.is_rounded(v, unit),
        1 as real <= size <= 10000000 as real,
        is_small(v.num(m.axis_low(bounds, vertical)), size),
        is_small(v.num(m.axis_extent(bounds, vertical)), size),
    ensures
        ({
            let low = v.num(m.axis_low(bounds, vertical));
            let extent = v.num(m.axis_extent(bounds, vertical));
            let middle = low + extent / (2 as real);
            let vanish = v.num(m.middle(bounds, vertical));
            &&& is_small(vanish - middle, (6 as real) * (unit * size))
            &&& is_small(vanish, (4 as real) * size)
        }),
{
    let low = m.axis_low(bounds, vertical);
    let extent = m.axis_extent(bounds, vertical);
    let x = v.num(low);
    let w = v.num(extent);
    let h = v.num(m.half());
    let e = unit * size;
    let product = m.times(m.half(), extent);
    assert(h * w == w / (2 as real)) by (nonlinear_arith)
        requires
            h == (1 as real) / (2 as real),
    ;
    lemma_error_is_not_negative(unit, size);
    lemma_round(v.num(product), h * w, w / (2 as real), 0 as real, 1 as real, unit, size);
    lemma_round(
        v.num(m.plus(low, product)),
        x + v.num(product),
        x + w / (2 as real),
        2 as real,
        3 as real,
        unit,
        size,
    );
}

proof fn lemma_error_is_not_negative(unit: real, size: real)
    requires
        0 as real <= unit,
        1 as real <= size,
    ensures
        0 as real <= unit * size,
        unit <= unit * size,
{
    assert(0 as real <= unit * size && unit <= unit * size) by (nonlinear_arith)
        requires
            0 as real <= unit,
            1 as real <= size,
    ;
}

/// The part of the axis below a joint is exact up to five units.
proof fn lemma_part_close<K: Kit>(
    m: Model<K>,
    v: Reading<K>,
    unit: real,
    vertical: bool,
    joint: int,
    bins: int,
)
    requires
        m.is_rounded(v, unit),
        0 <= joint <= bins,
        1 <= bins,
    ensures
        ({
            let t = m.over(m.count(joint), m.count(bins));
            let part = if vertical {
                m.minus(m.one(), t)
            } else {
                t
            };
            is_small(v.num(part) - exact_part(vertical, joint, bins), (5 as real) * unit)
        }),
        0 as real <= exact_part(vertical, joint, bins) <= 1 as real,
{
    let t = m.over(m.count(joint), m.count(bins));
    let true_t = (joint as real) / (bins as real);
    let j = joint as real;
    let n = bins as real;
    assert(0 as real <= true_t <= 1 as real) by (nonlinear_arith)
        requires
            0 as real <= j <= n,
            1 as real <= n,
            true_t == j / n,
    ;
    assert(unit * (1 as real + true_t) <= (2 as real) * unit) by (nonlinear_arith)
        requires
            0 as real <= unit,
            0 as real <= true_t <= 1 as real,
    ;
    assert(is_small(v.num(t) - true_t, (2 as real) * unit));
    if vertical {
        let r = 1 as real - v.num(t);
        let r_size = if r < 0 as real {
            -r
        } else {
            r
        };
        assert(r_size <= 2 as real);
        assert(unit * (1 as real + r_size) <= (3 as real) * unit) by (nonlinear_arith)
            requires
                0 as real <= unit,
                r_size <= 2 as real,
        ;
    }
}

/// The frequency coordinate of a joint in terms of its exact place.
proof fn lemma_along_close<K: Kit>(
    m: Model<K>,
    v: Reading<K>,
    unit: real,
    size: real,
    bounds: Bounds<K::Num>,
    vertical: bool,
    place: Placement<K::Num>,
    joint: int,
    bins: int,
)
    requires
        m.is_rounded(v, unit),
        1 as real <= size <= 10000000 as real,
        is_small(v.num(m.axis_low(bounds, vertical)), size),
        is_small(v.num(m.axis_extent(bounds, vertical)), size),
        is_small(v.num(place.vanish), (4 as real) * size),
        0 as real <= v.num(place.scale) <= 1 as real,
        0 <= joint <= bins,
        1 <= bins,
    ensures
        ({
            let low = v.num(m.axis_low(bounds, vertical));
            let extent = v.num(m.axis_extent(bounds, vertical));
            let vanish = v.num(place.vanish);
            let exact = low + exact_part(vertical, joint, bins) * extent;
            let along = v.num(m.along(bounds, vertical, place, joint, bins));
            &&& is_small(
                along - (vanish + (exact - vanish) * v.num(place.scale)),
                (50 as real) * (unit * size),
            )
            &&& is_small(along, (16 as real) * size)
        }),
{
    let low = m.axis_low(bounds, vertical);
    let extent = m.axis_extent(bounds, vertical);
    let t = m.over(m.count(joint), m.count(bins));
    let part = if vertical {
        m.minus(m.one(), t)
    } else {
        t
    };
    let product = m.times(part, extent);
    let flat = m.plus(low, product);
    let way = m.minus(flat, place.vanish);
    let scaled = m.times(way, place.scale);
    let along = m.plus(place.vanish, scaled);
    let exact = exact_part(vertical, joint, bins);
    let e = unit * size;
    let x = v.num(low);
    let w = v.num(extent);
    let vanish = v.num(place.vanish);
    let s = v.num(place.scale);
    lemma_error_is_not_negative(unit, size);
    lemma_part_close(m, v, unit, vertical, joint, bins);
    let off = v.num(part) - exact;
    assert(is_small(off * w, (5 as real) * e)) by (nonlinear_arith)
        requires
            0 as real <= unit,
            1 as real <= size,
            -size <= w <= size,
            -((5 as real) * unit) <= off <= (5 as real) * unit,
            e == unit * size,
    ;
    let p = v.num(part);
    assert(p * w - exact * w == off * w) by (nonlinear_arith)
        requires
            off == p - exact,
    ;
    assert(is_small(exact * w, size)) by (nonlinear_arith)
        requires
            0 as real <= exact <= 1 as real,
            -size <= w <= size,
    ;
    assert((5 as real) * e <= size) by (nonlinear_arith)
        requires
            0 as real <= unit <= (1 as real) / (1000 as real),
            1 as real <= size,
            e == unit * size,
    ;
    assert(is_small(p * w, (2 as real) * size));
    let place_exact = x + exact * w;
    lemma_round(v.num(product), p * w, exact * w, 5 as real, 2 as real, unit, size);
    lemma_round(
        v.num(flat),
        x + v.num(product),
        place_exact,
        8 as real,
        4 as real,
        unit,
        size,
    );
    lemma_round(
        v.num(way),
        v.num(flat) - vanish,
        place_exact - vanish,
        13 as real,
        9 as real,
        unit,
        size,
    );
    let g = v.num(way);
    let target = place_exact - vanish;
    let gap = (g - target) * s;
    assert(is_small(gap, (23 as real) * e)) by (nonlinear_arith)
        requires
            0 as real <= s <= 1 as real,
            0 as real <= e,
            -((23 as real) * e) <= g - target <= (23 as real) * e,
            gap == (g - target) * s,
    ;
    assert(g * s - target * s == gap) by (nonlinear_arith)
        requires
            gap == (g - target) * s,
    ;
    assert(is_small(g * s, (10 as real) * size)) by (nonlinear_arith)
        requires
            0 as real <= s <= 1 as real,
            1 as real <= size,
            -((10 as real) * size) <= g <= (10 as real) * size,
    ;
    lemma_round(v.num(scaled), g * s, target * s, 23 as real, 10 as real, unit, size);
    lemma_round(
        v.num(along),
        vanish + v.num(scaled),
        vanish + target * s,
        34 as real,
        15 as real,
        unit,
        size,
    );
}

/// What is opposite on the axis, up to rounding.
proof fn lemma_opposite_close<K: Kit>(
    m: Model<K>,
    v: Reading<K>,
    unit: real,
    size: real,
    bounds: Bounds<K::Num>,
    vertical: bool,
    along: K::Num,
)
    requires
        m.is_rounded(v, unit),
        1 as real <= size <= 10000000 as real,
        is_small(v.num(m.axis_low(bounds, vertical)), size),
        is_small(v.num(m.axis_extent(bounds, vertical)), size),
        is_small(v.num(along), (16 as real) * size),
    ensures
        ({
            let low = v.num(m.axis_low(bounds, vertical));
            let extent = v.num(m.axis_extent(bounds, vertical));
            is_small(
                v.num(m.opposite_along(bounds, vertical, along)) - (low + low + extent - v.num(
                    along,
                )),
                (30 as real) * (unit * size),
            )
        }),
{
    let low = m.axis_low(bounds, vertical);
    let extent = m.axis_extent(bounds, vertical);
    let x = v.num(low);
    let w = v.num(extent);
    let double = m.plus(low, low);
    let both = m.plus(double, extent);
    lemma_error_is_not_negative(unit, size);
    lemma_round(v.num(double), x + x, x + x, 0 as real, 2 as real, unit, size);
    lemma_round(v.num(both), v.num(double) + w, x + x + w, 3 as real, 4 as real, unit, size);
    lemma_round(
        v.num(m.minus(both, along)),
        v.num(both) - v.num(along),
        x + x + w - v.num(along),
        8 as real,
        21 as real,
        unit,
        size,
    );
}

/// The exact places of joints that are equally far from either end share the axis.
proof fn lemma_exact_parts(vertical: bool, joint: int, bins: int)
    requires
        1 <= bins,
    ensures
        exact_part(vertical, joint, bins) + exact_part(vertical, bins - joint, bins) == 1 as real,
{
    let j = joint as real;
    let n = bins as real;
    assert((bins - joint) as real == n - j);
    assert(j / n + (n - j) / n == 1 as real) by (nonlinear_arith)
        requires
            1 as real <= n,
    ;
}

/// The reversed picture is the mirror image of the picture up to rounding: two rotations
/// further, every joint of a frame has the level and the depth coordinate of the joint
/// opposite to it, and is where the mirror image of that joint is, up to a few roundings
/// of numbers of the size of the picture. The corners of areas and the ends of lines are
/// joints, or joints brought down to the floor.
pub proof fn law_reversed_joints_are_close<K: Kit>(
    m: Model<K>,
    v: Reading<K>,
    unit: real,
    size: real,
    scene: Scene<K>,
    place: Placement<K::Num>,
    frame: Seq<K::Num>,
    joint: int,
)
    requires
        m.is_rounded(v, unit),
        1 as real <= size <= 10000000 as real,
        0 <= scene.rotation,
        is_small(v.num(m.axis_low(scene.bounds, scene.vertical())), size),
        is_small(v.num(m.axis_extent(scene.bounds, scene.vertical())), size),
        place.vanish == m.middle(scene.bounds, scene.vertical()),
        0 as real <= v.num(place.scale) <= 1 as real,
        0 <= joint <= scene.bins() <= frame.len(),
    ensures
        ({
            let turned = Scene { rotation: scene.rotation + 2, ..scene };
            let here = m.outline(turned, place, frame)[joint];
            let there = m.outline(scene, place, frame)[scene.bins() - joint];
            &&& here.amp == there.amp
            &&& here.ridge == there.ridge
            &&& is_small(
                v.num(here.along) - v.num(
                    m.opposite_along(scene.bounds, scene.vertical(), there.along),
                ),
                (150 as real) * (unit * size),
            )
        }),
{
    let bounds = scene.bounds;
    let vertical = scene.vertical();
    let bins = scene.bins();
    let turned = Scene { rotation: scene.rotation + 2, ..scene };
    law_reversal_mirrors_the_levels(m, scene, place, frame, joint);
    let here = m.along(bounds, vertical, place, joint, bins);
    let there = m.along(bounds, vertical, place, bins - joint, bins);
    assert(m.outline(turned, place, frame)[joint].along == here);
    assert(m.outline(scene, place, frame)[bins - joint].along == there);
    lemma_vanish_close(m, v, unit, size, bounds, vertical);
    lemma_along_close(m, v, unit, size, bounds, vertical, place, joint, bins);
    lemma_along_close(m, v, unit, size, bounds, vertical, place, bins - joint, bins);
    lemma_opposite_close(m, v, unit, size, bounds, vertical, there);
    lemma_exact_parts(vertical, joint, bins);
    lemma_error_is_not_negative(unit, size);
    let e = unit * size;
    let low = v.num(m.axis_low(bounds, vertical));
    let w = v.num(m.axis_extent(bounds, vertical));
    let vanish = v.num(place.vanish);
    let s = v.num(place.scale);
    let t = exact_part(vertical, joint, bins);
    let u = exact_part(vertical, bins - joint, bins);
    let a = low + t * w - vanish;
    let b = low + u * w - vanish;
    assert(t * w + u * w == w) by (nonlinear_arith)
        requires
            t + u == 1 as real,
    ;
    let off = vanish - (low + w / (2 as real));
    assert(a + b == -(off + off));
    let drawn = (a + b) * s;
    assert(a * s + b * s == drawn) by (nonlinear_arith)
        requires
            drawn == (a + b) * s,
    ;
    assert(is_small(off + off + drawn, (12 as real) * e)) by (nonlinear_arith)
        requires
            0 as real <= s <= 1 as real,
            0 as real <= e,
            -((6 as real) * e) <= off <= (6 as real) * e,
            a + b == -(off + off),
            drawn == (a + b) * s,
    ;
}

} // verus!
