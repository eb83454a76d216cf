//! Perspective: how the frames of a picture recede.
use crate::exact::{lemma_fraction, lemma_units, lemma_whole_number, multiple, Reading};
use crate::kit::{Kit, Model};
use crate::order::{
    lemma_part_is_unit, lemma_unit_is_finite, lemma_unit_product, lemma_unit_rest,
};
use crate::render::{Bounds, Placement, Scene};
use vstd::prelude::*;

verus! {

impl<K: Kit> Model<K> {
    /// Whether the picture has a back edge and an extent in depth: finite numbers, the
    /// extent not negative.
    pub open spec fn has_depth(self, bounds: Bounds<K::Num>, vertical: bool) -> bool {
        let (far, way) = if vertical {
            let far = self.plus(
                bounds.x,
                self.times(bounds.width, self.minus(self.one(), self.ratio(4, 100))),
            );
            (far, self.minus(far, bounds.x))
        } else {
            let far = self.plus(bounds.y, self.times(bounds.height, self.ratio(4, 100)));
            (far, self.minus(self.plus(bounds.y, bounds.height), far))
        };
        &&& self.is_finite(far)
        &&& self.is_finite(way)
        &&& self.at_most(self.zero(), way)
    }
}

/// How deep frames are is between zero and one, and less for newer frames.
proof fn lemma_depths_descend<K: Kit>(m: Model<K>, older: int, newer: int, count: int)
    requires
        m.respects_order(),
        2 <= count,
        0 <= older <= newer < count,
    ensures
        m.is_unit(m.depth(older, count)),
        m.is_unit(m.depth(newer, count)),
        m.at_most(m.depth(newer, count), m.depth(older, count)),
{
    let steps = m.count(count - 1);
    let old_part = m.over(m.count(older), steps);
    let new_part = m.over(m.count(newer), steps);
    assert(m.at_most(m.count(older), m.count(newer)));
    assert(m.at_most(m.count(newer), steps));
    assert(m.at_most(m.count(older), steps));
    lemma_part_is_unit(m, m.count(older), steps);
    lemma_part_is_unit(m, m.count(newer), steps);
    assert(m.at_most(old_part, new_part));
    lemma_unit_is_finite(m, old_part);
    lemma_unit_is_finite(m, new_part);
    lemma_unit_rest(m, old_part);
    lemma_unit_rest(m, new_part);
    assert(m.at_most(m.minus(m.one(), new_part), m.minus(m.one(), old_part)));
}

/// Frames further back are no larger: scales are between zero and one and shrink with
/// depth.
proof fn lemma_scales_shrink<K: Kit>(
    m: Model<K>,
    bounds: Bounds<K::Num>,
    vertical: bool,
    perspective: K::Num,
    deep: K::Num,
    near: K::Num,
)
    requires
        m.respects_order(),
        m.is_finite(perspective),
        m.is_finite(m.plus(m.one(), m.ratio(5, 1))),
        m.is_unit(deep),
        m.is_unit(near),
        m.at_most(near, deep),
    ensures
        ({
            let k = m.shrinkage(perspective);
            let back = m.placement(bounds, vertical, deep, k).scale;
            let front = m.placement(bounds, vertical, near, k).scale;
            &&& m.is_unit(back)
            &&& m.is_unit(front)
            &&& m.at_most(back, front)
        }),
{
    let zero = m.zero();
    let one = m.one();
    let five = m.ratio(5, 1);
    let held = m.clamp(perspective, zero, one);
    let k = m.shrinkage(perspective);
    assert(m.is_finite(m.ratio(0, 1)));
    assert(m.is_finite(m.ratio(1, 1)));
    assert(m.is_finite(five));
    assert(m.at_most(zero, five));
    assert(m.is_unit(held));
    lemma_unit_is_finite(m, held);
    lemma_unit_is_finite(m, deep);
    lemma_unit_is_finite(m, near);
    assert(m.at_most(m.times(zero, five), k));
    assert(m.at_most(k, m.times(one, five)));
    assert(m.at_most(zero, k));
    assert(m.is_finite(k));
    let deep_k = m.times(deep, k);
    let near_k = m.times(near, k);
    assert(m.at_most(m.times(zero, k), near_k));
    assert(m.at_most(near_k, deep_k));
    assert(m.at_most(deep_k, m.times(one, k)));
    assert(m.at_most(zero, near_k));
    assert(m.at_most(deep_k, five));
    assert(m.is_finite(near_k));
    assert(m.is_finite(deep_k));
    let deep_sum = m.plus(one, deep_k);
    let near_sum = m.plus(one, near_k);
    assert(m.at_most(near_sum, deep_sum));
    assert(m.at_most(deep_sum, m.plus(one, five)));
    assert(m.at_most(one, near_sum));
    assert(m.is_finite(deep_sum));
    assert(m.is_finite(near_sum));
    assert(m.less(zero, near_sum));
    assert(m.less(zero, deep_sum));
    assert(m.at_most(one, deep_sum));
    lemma_part_is_unit(m, one, deep_sum);
    lemma_part_is_unit(m, one, near_sum);
    assert(m.at_most(m.over(one, deep_sum), m.over(one, near_sum)));
}

/// Frames recede in order: of two frames the older is at least as deep, no larger, no more
/// opaque, and stands no nearer to the front edge, which is the left edge where
/// frequencies run along the vertical and the lower edge elsewhere.
pub proof fn law_frames_recede_in_order<K: Kit>(
    m: Model<K>,
    bounds: Bounds<K::Num>,
    vertical: bool,
    perspective: K::Num,
    older: int,
    newer: int,
    count: int,
)
    requires
        m.respects_order(),
        2 <= count,
        0 <= older <= newer < count,
        m.is_finite(perspective),
        m.is_finite(m.plus(m.one(), m.ratio(5, 1))),
        m.has_depth(bounds, vertical),
    ensures
        ({
            let k = m.shrinkage(perspective);
            let back = m.placement(bounds, vertical, m.depth(older, count), k);
            let front = m.placement(bounds, vertical, m.depth(newer, count), k);
            &&& m.at_most(m.depth(newer, count), m.depth(older, count))
            &&& m.at_most(back.scale, front.scale)
            &&& m.at_most(back.alpha, front.alpha)
            &&& vertical ==> m.at_most(front.floor, back.floor)
            &&& !vertical ==> m.at_most(back.floor, front.floor)
        }),
{
    let k = m.shrinkage(perspective);
    let deep = m.depth(older, count);
    let near = m.depth(newer, count);
    let back = m.placement(bounds, vertical, deep, k);
    let front = m.placement(bounds, vertical, near, k);
    let zero = m.zero();
    let one = m.one();
    lemma_depths_descend(m, older, newer, count);
    lemma_scales_shrink(m, bounds, vertical, perspective, deep, near);
    lemma_unit_is_finite(m, deep);
    lemma_unit_is_finite(m, near);
    lemma_unit_is_finite(m, back.scale);
    lemma_unit_is_finite(m, front.scale);
    let fade = m.ratio(55, 100);
    assert(m.is_unit(fade));
    assert(m.is_finite(fade));
    lemma_unit_product(m, deep, fade);
    lemma_unit_product(m, near, fade);
    lemma_unit_is_finite(m, m.times(deep, fade));
    lemma_unit_is_finite(m, m.times(near, fade));
    assert(m.at_most(m.times(near, fade), m.times(deep, fade)));
    assert(m.at_most(back.alpha, front.alpha));
    let (far, way) = if vertical {
        let far = m.plus(bounds.x, m.times(bounds.width, m.minus(one, m.ratio(4, 100))));
        (far, m.minus(far, bounds.x))
    } else {
        let far = m.plus(bounds.y, m.times(bounds.height, m.ratio(4, 100)));
        (far, m.minus(m.plus(bounds.y, bounds.height), far))
    };
    let back_way = m.times(way, back.scale);
    let front_way = m.times(way, front.scale);
    assert(m.at_most(back_way, front_way));
    assert(m.at_most(m.times(way, zero), back_way));
    assert(m.at_most(front_way, m.times(way, one)));
    assert(m.at_most(zero, back_way));
    assert(m.is_finite(back_way));
    assert(m.is_finite(front_way));
    if vertical {
        assert(m.at_most(m.minus(far, front_way), m.minus(far, back_way)));
    } else {
        assert(m.at_most(m.plus(far, back_way), m.plus(far, front_way)));
    }
}

/// In exact arithmetic, and with perspective, frames recede strictly: of two frames the
/// older is deeper, smaller, less opaque and further from the front edge.
pub proof fn law_frames_recede_strictly<K: Kit>(
    m: Model<K>,
    v: Reading<K>,
    bounds: Bounds<K::Num>,
    vertical: bool,
    perspective: K::Num,
    older: int,
    newer: int,
    count: int,
)
    requires
        m.is_exact(v),
        m.is_exact_order(v),
        0 <= older < newer < count,
        v.num(perspective) > 0 as real,
        vertical ==> v.num(bounds.width) > 0 as real,
        !vertical ==> v.num(bounds.height) > 0 as real,
    ensures
        ({
            let k = m.shrinkage(perspective);
            let back = m.placement(bounds, vertical, m.depth(older, count), k);
            let front = m.placement(bounds, vertical, m.depth(newer, count), k);
            &&& v.num(m.depth(newer, count)) < v.num(m.depth(older, count))
            &&& v.num(back.scale) < v.num(front.scale)
            &&& v.num(back.alpha) < v.num(front.alpha)
            &&& vertical ==> v.num(front.floor) < v.num(back.floor)
            &&& !vertical ==> v.num(back.floor) < v.num(front.floor)
        }),
{
    let back = m.placement(bounds, vertical, m.depth(older, count), m.shrinkage(perspective));
    let front = m.placement(bounds, vertical, m.depth(newer, count), m.shrinkage(perspective));
    lemma_units(m, v);
    lemma_whole_number(m, v, 5);
    lemma_fraction(m, v, 55, 100);
    lemma_fraction(m, v, 4, 100);
    let k = v.num(m.shrinkage(perspective));
    let held = v.num(m.clamp(perspective, m.zero(), m.one()));
    assert(held > 0 as real);
    assert(k == held * (5 as real));
    assert(k > 0 as real) by (nonlinear_arith)
        requires
            held > 0 as real,
            k == held * (5 as real),
    ;
    let i = older as real;
    let j = newer as real;
    let n = (count - 1) as real;
    assert(0 as real <= i < j <= n);
    let s = i / n;
    let t = j / n;
    assert(0 as real <= s && s < t && t <= 1 as real) by (nonlinear_arith)
        requires
            0 as real <= i < j <= n,
            s == i / n,
            t == j / n,
    ;
    let deep = v.num(m.depth(older, count));
    let near = v.num(m.depth(newer, count));
    assert(deep == 1 as real - s);
    assert(near == 1 as real - t);
    assert(0 as real <= near < deep);
    let deep_sum = 1 as real + deep * k;
    let near_sum = 1 as real + near * k;
    assert(1 as real <= near_sum && near_sum < deep_sum) by (nonlinear_arith)
        requires
            0 as real <= near < deep,
            k > 0 as real,
            deep_sum == 1 as real + deep * k,
            near_sum == 1 as real + near * k,
    ;
    let small = v.num(back.scale);
    let large = v.num(front.scale);
    assert(small == 1 as real / deep_sum);
    assert(large == 1 as real / near_sum);
    assert(small < large) by (nonlinear_arith)
        requires
            1 as real <= near_sum,
            near_sum < deep_sum,
            small == 1 as real / deep_sum,
            large == 1 as real / near_sum,
    ;
    let fade = v.num(m.ratio(55, 100));
    assert(deep * fade > near * fade) by (nonlinear_arith)
        requires
            near < deep,
            fade == (55 as real) / (100 as real),
    ;
    let part = v.num(m.ratio(4, 100));
    let one = 1 as real;
    let w = if vertical {
        v.num(bounds.width)
    } else {
        v.num(bounds.height)
    };
    let far_part = if vertical {
        w * (one - part)
    } else {
        w * part
    };
    let way = if vertical {
        far_part
    } else {
        w - far_part
    };
    assert(way > 0 as real) by (nonlinear_arith)
        requires
            w > 0 as real,
            part == (4 as real) / (100 as real),
            one == 1 as real,
            far_part == (if vertical { w * (one - part) } else { w * part }),
            way == (if vertical { far_part } else { w - far_part }),
    ;
    assert(way * small < way * large) by (nonlinear_arith)
        requires
            way > 0 as real,
            small < large,
    ;
    if vertical {
        let far = m.plus(bounds.x, m.times(bounds.width, m.minus(m.one(), m.ratio(4, 100))));
        assert(v.num(m.minus(far, bounds.x)) == way);
        assert(v.num(front.floor) == v.num(far) - way * large);
        assert(v.num(back.floor) == v.num(far) - way * small);
    } else {
        let far = m.plus(bounds.y, m.times(bounds.height, m.ratio(4, 100)));
        let edge = m.plus(bounds.y, bounds.height);
        assert(v.num(m.minus(edge, far)) == way);
        assert(v.num(front.floor) == v.num(far) + way * large);
        assert(v.num(back.floor) == v.num(far) + way * small);
    }
}

/// The height of a level recedes with its frame: of two frames the older has no larger rise.
pub proof fn law_rises_recede_in_order<K: Kit>(
    m: Model<K>,
    bounds: Bounds<K::Num>,
    vertical: bool,
    perspective: K::Num,
    older: int,
    newer: int,
    count: int,
)
    requires
        m.respects_order(),
        2 <= count,
        0 <= older <= newer < count,
        m.is_finite(perspective),
        m.is_finite(m.plus(m.one(), m.ratio(5, 1))),
        ({
            let extent = if vertical {
                bounds.width
            } else {
                bounds.height
            };
            m.is_finite(extent) && m.at_most(m.zero(), extent)
        }),
    ensures
        ({
            let k = m.shrinkage(perspective);
            let back = m.placement(bounds, vertical, m.depth(older, count), k);
            let front = m.placement(bounds, vertical, m.depth(newer, count), k);
            m.at_most(back.rise, front.rise)
        }),
{
    let k = m.shrinkage(perspective);
    let deep = m.depth(older, count);
    let near = m.depth(newer, count);
    let back = m.placement(bounds, vertical, deep, k);
    let front = m.placement(bounds, vertical, near, k);
    let extent = if vertical {
        bounds.width
    } else {
        bounds.height
    };
    let part = m.ratio(52, 100);
    let height = m.times(extent, part);
    lemma_depths_descend(m, older, newer, count);
    lemma_scales_shrink(m, bounds, vertical, perspective, deep, near);
    lemma_unit_is_finite(m, back.scale);
    lemma_unit_is_finite(m, front.scale);
    assert(m.is_finite(m.ratio(0, 1)));
    assert(m.is_finite(m.ratio(1, 1)));
    assert(m.is_finite(part));
    assert(m.is_unit(part));
    assert(m.at_most(m.times(extent, m.zero()), height));
    assert(m.at_most(height, m.times(extent, m.one())));
    assert(m.at_most(m.zero(), height));
    assert(m.is_finite(height));
    assert(m.at_most(m.times(height, back.scale), m.times(height, front.scale)));
}

impl<K: Kit> Model<K> {
    /// Where the frames vanish on the depth axis: a twenty-fifth of the extent before the
    /// back edge, which is the right edge where frequencies run along the vertical and the
    /// upper edge elsewhere.
    pub open spec fn horizon(self, v: Reading<K>, bounds: Bounds<K::Num>, vertical: bool) -> real {
        if vertical {
            v.num(bounds.x) + v.num(bounds.width) - v.num(bounds.width) / (25 as real)
        } else {
            v.num(bounds.y) + v.num(bounds.height) / (25 as real)
        }
    }
}

/// The newest frame fills the picture: it stands at the front edge at full size and
/// opacity, its level one is as high as 52 hundredths of the extent in depth, and it
/// vanishes toward the middle of the frequency axis, in exact arithmetic.
pub proof fn law_the_front_fills_the_picture<K: Kit>(
    m: Model<K>,
    v: Reading<K>,
    bounds: Bounds<K::Num>,
    vertical: bool,
    shrinkage: K::Num,
)
    requires
        m.is_exact(v),
    ensures
        ({
            let front = m.placement(bounds, vertical, m.zero(), shrinkage);
            let extent = if vertical {
                v.num(bounds.width)
            } else {
                v.num(bounds.height)
            };
            &&& v.num(front.scale) == 1 as real
            &&& v.num(front.alpha) == 1 as real
            &&& v.num(front.rise) * (100 as real) == extent * (52 as real)
            &&& vertical ==> v.num(front.floor) == v.num(bounds.x)
            &&& !vertical ==> v.num(front.floor) == v.num(bounds.y) + extent
            &&& vertical ==> (v.num(front.vanish) - v.num(bounds.y)) * (2 as real) == v.num(
                bounds.height,
            )
            &&& !vertical ==> (v.num(front.vanish) - v.num(bounds.x)) * (2 as real) == v.num(
                bounds.width,
            )
        }),
{
    let front = m.placement(bounds, vertical, m.zero(), shrinkage);
    let k = v.num(shrinkage);
    let zero = 0 as real;
    let one = 1 as real;
    lemma_units(m, v);
    lemma_fraction(m, v, 55, 100);
    lemma_fraction(m, v, 52, 100);
    lemma_fraction(m, v, 4, 100);
    assert(v.num(m.times(m.zero(), shrinkage)) == zero) by {
        assert(zero * k == zero) by (nonlinear_arith)
            requires
                zero == 0 as real,
        ;
    }
    assert(v.num(m.plus(m.one(), m.times(m.zero(), shrinkage))) == one);
    assert(v.num(front.scale) == one);
    let fade = v.num(m.ratio(55, 100));
    assert(zero * fade == zero) by (nonlinear_arith)
        requires
            zero == 0 as real,
    ;
    let w = v.num(bounds.width);
    let h = v.num(bounds.height);
    let part = v.num(m.ratio(52, 100));
    let half = v.num(m.half());
    let rise = v.num(front.rise);
    let vanish = v.num(front.vanish);
    if vertical {
        assert(rise == w * part * one);
        assert(vanish == v.num(bounds.y) + half * h);
    } else {
        assert(rise == h * part * one);
        assert(vanish == v.num(bounds.x) + half * w);
    }
    assert(w * part * one * (100 as real) == w * (52 as real)) by (nonlinear_arith)
        requires
            one == 1 as real,
            part == (52 as real) / (100 as real),
    ;
    assert(h * part * one * (100 as real) == h * (52 as real)) by (nonlinear_arith)
        requires
            one == 1 as real,
            part == (52 as real) / (100 as real),
    ;
}

/// Everything of a frame shrinks together: a frame at any depth is the newest one, drawn
/// toward the vanishing point by its scale. Its floor, the height of its levels and the
/// places of its joints are all nearer to the vanishing point by that factor, which is one
/// over one more than the depth times the shrinkage. This is so in exact arithmetic.
pub proof fn law_frames_shrink_toward_the_vanishing_point<K: Kit>(
    m: Model<K>,
    v: Reading<K>,
    scene: Scene<K>,
    frame: Seq<K::Num>,
    depth: K::Num,
    shrinkage: K::Num,
    joint: int,
)
    requires
        m.is_exact(v),
        v.num(depth) >= 0 as real,
        v.num(shrinkage) >= 0 as real,
    ensures
        ({
            let vertical = scene.vertical();
            let place = m.placement(scene.bounds, vertical, depth, shrinkage);
            let front = m.placement(scene.bounds, vertical, m.zero(), shrinkage);
            let scale = v.num(place.scale);
            let far = m.horizon(v, scene.bounds, vertical);
            let at = m.joint(scene, place, frame, joint);
            let before = m.joint(scene, front, frame, joint);
            &&& scale * (1 as real + v.num(depth) * v.num(shrinkage)) == 1 as real
            &&& v.num(place.vanish) == v.num(front.vanish)
            &&& v.num(place.floor) - far == scale * (v.num(front.floor) - far)
            &&& v.num(place.rise) == scale * v.num(front.rise)
            &&& at.amp == before.amp
            &&& v.num(at.along) - v.num(front.vanish) == scale * (v.num(before.along) - v.num(
                front.vanish,
            ))
            &&& v.num(at.ridge) - far == scale * (v.num(before.ridge) - far)
        }),
{
    let vertical = scene.vertical();
    let bounds = scene.bounds;
    let place = m.placement(bounds, vertical, depth, shrinkage);
    let front = m.placement(bounds, vertical, m.zero(), shrinkage);
    let at = m.joint(scene, place, frame, joint);
    let before = m.joint(scene, front, frame, joint);
    let far = m.horizon(v, bounds, vertical);
    let one = 1 as real;
    let sum = one + v.num(depth) * v.num(shrinkage);
    let scale = v.num(place.scale);
    lemma_units(m, v);
    lemma_fraction(m, v, 52, 100);
    lemma_fraction(m, v, 4, 100);
    law_the_front_fills_the_picture(m, v, bounds, vertical, shrinkage);
    assert(sum >= one) by (nonlinear_arith)
        requires
            v.num(depth) >= 0 as real,
            v.num(shrinkage) >= 0 as real,
            one == 1 as real,
            sum == one + v.num(depth) * v.num(shrinkage),
    ;
    assert(scale == one / sum);
    assert(scale * sum == one) by (nonlinear_arith)
        requires
            sum >= one,
            one == 1 as real,
            scale == one / sum,
    ;
    let extent = if vertical {
        v.num(bounds.width)
    } else {
        v.num(bounds.height)
    };
    let edge = v.num(front.floor);
    let way = if vertical {
        far - edge
    } else {
        edge - far
    };
    if vertical {
        let back = m.plus(bounds.x, m.times(bounds.width, m.minus(m.one(), m.ratio(4, 100))));
        assert(v.num(back) == far);
        assert(v.num(place.floor) == far - way * scale);
        lemma_factor(edge - far, way, scale, true);
    } else {
        let back = m.plus(bounds.y, m.times(bounds.height, m.ratio(4, 100)));
        assert(v.num(back) == far);
        assert(v.num(place.floor) == far + way * scale);
        lemma_factor(edge - far, way, scale, false);
    }
    let height = extent * v.num(m.ratio(52, 100));
    let rise = v.num(place.rise);
    let full = v.num(front.rise);
    assert(rise == height * scale);
    assert(full == height) by {
        assert(full == height * one);
    }
    assert(rise == scale * full) by (nonlinear_arith)
        requires
            rise == height * scale,
            full == height,
    ;
    let amp = v.num(at.amp);
    let fall = v.num(place.floor) - far;
    assert(v.num(at.ridge) == v.num(place.floor) - rise * amp);
    assert(v.num(before.ridge) == edge - full * amp);
    assert(fall - rise * amp == scale * (edge - far - full * amp)) by (nonlinear_arith)
        requires
            fall == scale * (edge - far),
            rise == scale * full,
    ;
    lemma_joint_shrinks(m, v, scene, place, front, joint);
}

/// A way that is scaled is a factor times it, in either direction.
proof fn lemma_factor(signed: real, way: real, scale: real, turned: bool)
    requires
        signed == (if turned {
            -way
        } else {
            way
        }),
    ensures
        turned ==> -(way * scale) == scale * signed,
        !turned ==> way * scale == scale * signed,
{
    assert(turned ==> -(way * scale) == scale * signed) by (nonlinear_arith)
        requires
            turned ==> signed == -way,
    ;
    assert(!turned ==> way * scale == scale * signed) by (nonlinear_arith)
        requires
            !turned ==> signed == way,
    ;
}

/// A joint of a frame is as far from the vanishing point as the scale of the frame says.
proof fn lemma_joint_shrinks<K: Kit>(
    m: Model<K>,
    v: Reading<K>,
    scene: Scene<K>,
    place: Placement<K::Num>,
    front: Placement<K::Num>,
    joint: int,
)
    requires
        m.is_exact(v),
        place.vanish == front.vanish,
        v.num(front.scale) == 1 as real,
    ensures
        ({
            let vertical = scene.vertical();
            let at = m.along(scene.bounds, vertical, place, joint, scene.bins());
            let before = m.along(scene.bounds, vertical, front, joint, scene.bins());
            v.num(at) - v.num(front.vanish) == v.num(place.scale) * (v.num(before) - v.num(
                front.vanish,
            ))
        }),
{
    let bounds = scene.bounds;
    let t = m.over(m.count(joint), m.count(scene.bins()));
    let flat = if scene.vertical() {
        m.plus(bounds.y, m.times(m.minus(m.one(), t), bounds.height))
    } else {
        m.plus(bounds.x, m.times(t, bounds.width))
    };
    let way = v.num(flat) - v.num(front.vanish);
    let scale = v.num(place.scale);
    assert(way * scale == scale * (way * (1 as real))) by (nonlinear_arith);
}

/// The joints of the newest frame divide the frequency axis evenly, from its beginning to
/// its end, in exact arithmetic. Where frequencies run along the vertical it begins at the
/// lower edge.
pub proof fn law_joints_divide_the_axis_evenly<K: Kit>(
    m: Model<K>,
    v: Reading<K>,
    scene: Scene<K>,
    shrinkage: K::Num,
    joint: int,
)
    requires
        m.is_exact(v),
    ensures
        ({
            let vertical = scene.vertical();
            let front = m.placement(scene.bounds, vertical, m.zero(), shrinkage);
            let at = v.num(m.along(scene.bounds, vertical, front, joint, scene.bins()));
            let bins = scene.bins() as real;
            let bounds = scene.bounds;
            &&& !vertical ==> (at - v.num(bounds.x)) * bins == multiple(
                joint,
                v.num(bounds.width),
            )
            &&& vertical ==> (v.num(bounds.y) + v.num(bounds.height) - at) * bins == multiple(
                joint,
                v.num(bounds.height),
            )
        }),
{
    let vertical = scene.vertical();
    let bounds = scene.bounds;
    let front = m.placement(bounds, vertical, m.zero(), shrinkage);
    let at = v.num(m.along(bounds, vertical, front, joint, scene.bins()));
    let bins = scene.bins() as real;
    let j = joint as real;
    let t = v.num(m.over(m.count(joint), m.count(scene.bins())));
    let vanish = v.num(front.vanish);
    lemma_units(m, v);
    law_the_front_fills_the_picture(m, v, bounds, vertical, shrinkage);
    assert(bins >= 1 as real);
    assert(t == j / bins);
    assert(t * bins == j) by (nonlinear_arith)
        requires
            bins >= 1 as real,
            t == j / bins,
    ;
    let scale = v.num(front.scale);
    if vertical {
        let y = v.num(bounds.y);
        let h = v.num(bounds.height);
        let flat = y + (1 as real - t) * h;
        assert(at == vanish + (flat - vanish) * scale);
        assert(multiple(joint, h) == j * h);
        assert((y + h - at) * bins == j * h) by (nonlinear_arith)
            requires
                at == vanish + (flat - vanish) * scale,
                scale == 1 as real,
                flat == y + (1 as real - t) * h,
                t * bins == j,
        ;
    } else {
        let x = v.num(bounds.x);
        let w = v.num(bounds.width);
        let flat = x + t * w;
        assert(at == vanish + (flat - vanish) * scale);
        assert(multiple(joint, w) == j * w);
        assert((at - x) * bins == j * w) by (nonlinear_arith)
            requires
                at == vanish + (flat - vanish) * scale,
                scale == 1 as real,
                flat == x + t * w,
                t * bins == j,
        ;
    }
}

/// Frames recede in even steps, from the oldest at depth one to the newest at depth zero,
/// and fade to 45 hundredths of their opacity. The scale falls to a sixth at full
/// perspective. This is so in exact arithmetic; a single frame is at depth one.
pub proof fn law_frames_recede_evenly<K: Kit>(
    m: Model<K>,
    v: Reading<K>,
    bounds: Bounds<K::Num>,
    vertical: bool,
    perspective: K::Num,
    index: int,
    count: int,
)
    requires
        m.is_exact(v),
        m.is_exact_order(v),
        0 <= index < count,
    ensures
        ({
            let depth = m.depth(index, count);
            let place = m.placement(bounds, vertical, depth, m.shrinkage(perspective));
            let held = if v.num(perspective) < 0 as real {
                0 as real
            } else if v.num(perspective) > 1 as real {
                1 as real
            } else {
                v.num(perspective)
            };
            &&& count == 1 ==> v.num(depth) == 1 as real
            &&& count > 1 ==> multiple(count - 1, v.num(depth)) == (count - 1 - index) as real
            &&& (1 as real - v.num(place.alpha)) * (100 as real) == v.num(depth) * (55 as real)
            &&& v.num(place.scale) * (1 as real + v.num(depth) * held * (5 as real)) == 1 as real
        }),
{
    let depth = m.depth(index, count);
    let k = m.shrinkage(perspective);
    let place = m.placement(bounds, vertical, depth, k);
    let steps = if count - 1 < 1 {
        1
    } else {
        count - 1
    };
    let n = steps as real;
    let i = index as real;
    let d = v.num(depth);
    let one = 1 as real;
    lemma_units(m, v);
    lemma_whole_number(m, v, 5);
    lemma_fraction(m, v, 55, 100);
    assert(d == one - i / n);
    assert(n * d == n - i && 0 as real <= d) by (nonlinear_arith)
        requires
            n >= 1 as real,
            0 as real <= i <= n,
            one == 1 as real,
            d == one - i / n,
    ;
    assert(count > 1 ==> n - i == (count - 1 - index) as real);
    let held = v.num(m.clamp(perspective, m.zero(), m.one()));
    let shrinkage = v.num(k);
    let sum = one + d * shrinkage;
    assert(shrinkage == held * (5 as real));
    assert(d * shrinkage == d * held * (5 as real)) by (nonlinear_arith)
        requires
            shrinkage == held * (5 as real),
    ;
    assert(sum >= one) by (nonlinear_arith)
        requires
            0 as real <= d,
            held >= 0 as real,
            shrinkage == held * (5 as real),
            sum == one + d * shrinkage,
    ;
    let scale = v.num(place.scale);
    assert(scale == one / sum);
    assert(scale * sum == one) by (nonlinear_arith)
        requires
            sum >= one,
            one == 1 as real,
            scale == one / sum,
    ;
    let fade = v.num(m.ratio(55, 100));
    assert(v.num(place.alpha) == one - d * fade);
    assert(d * fade * (100 as real) == d * (55 as real)) by (nonlinear_arith)
        requires
            fade == (55 as real) / (100 as real),
    ;
}

} // verus!
