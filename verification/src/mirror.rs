//! Reversed pictures: the mirror images of the pictures that are not.
use crate::exact::{lemma_units, Reading};
use crate::kit::{Kit, Model, Point, Rgba};
use crate::render::{
    law_reversal_mirrors_the_levels, on_screen, Bounds, Joint, Placement, Scene, Vertex,
};
use vstd::prelude::*;

verus! {

impl<K: Kit> Model<K> {
    /// The coordinate opposite to `a` in an extent that begins at `low`.
    pub open spec fn opposite(self, low: K::Num, extent: K::Num, a: K::Num) -> K::Num {
        self.minus(self.plus(self.plus(low, low), extent), a)
    }

    /// The frequency coordinate opposite to `along`.
    pub open spec fn opposite_along(
        self,
        bounds: Bounds<K::Num>,
        vertical: bool,
        along: K::Num,
    ) -> K::Num {
        if vertical {
            self.opposite(bounds.y, bounds.height, along)
        } else {
            self.opposite(bounds.x, bounds.width, along)
        }
    }

    /// The mirror image of a screen position in the center line across the frequency
    /// axis.
    pub open spec fn reflected(
        self,
        bounds: Bounds<K::Num>,
        vertical: bool,
        at: Point<K::Num>,
    ) -> Point<K::Num> {
        if vertical {
            Point { x: at.x, y: self.opposite_along(bounds, vertical, at.y) }
        } else {
            Point { x: self.opposite_along(bounds, vertical, at.x), y: at.y }
        }
    }

    /// These functions, but with every screen position replaced by its mirror image
    /// before it is brought into clip space.
    pub open spec fn in_mirror(self, bounds: Bounds<K::Num>, vertical: bool) -> Model<K> {
        Model {
            to_clip: |clip: K::Clip, at: Point<K::Num>|
                self.to_clip(clip, self.reflected(bounds, vertical, at)),
            ..self
        }
    }

    /// The mirror image of frame `index`: its areas, then its lines, each with every
    /// corner reflected, and from the last to the first, since left is right.
    pub open spec fn mirror_frame(self, scene: Scene<K>, clip: K::Clip, index: int) -> Seq<
        Vertex<K::Num>,
    > {
        let mirror = self.in_mirror(scene.bounds, scene.vertical());
        let frame = scene.frames[index];
        let place = self.placement(
            scene.bounds,
            scene.vertical(),
            self.depth(index, scene.frames.len() as int),
            self.shrinkage(scene.perspective),
        );
        let outline = self.outline(scene, place, frame);
        if frame.len() < scene.bins() {
            seq![]
        } else {
            turned_over(mirror.areas(scene, clip, place, outline, scene.bins())) + turned_over(
                mirror.ridge_lines(scene, clip, place, outline, scene.bins()),
            )
        }
    }

    /// The mirror images of the first `n` frames.
    pub open spec fn mirror_frames(self, scene: Scene<K>, clip: K::Clip, n: int) -> Seq<
        Vertex<K::Num>,
    >
        decreases n,
    {
        if n <= 0 {
            seq![]
        } else {
            self.mirror_frames(scene, clip, n - 1) + self.mirror_frame(scene, clip, n - 1)
        }
    }

    /// The mirror image of a picture.
    pub open spec fn mirror_picture(self, scene: Scene<K>, clip: K::Clip) -> Seq<Vertex<K::Num>> {
        if self.at_most(scene.bounds.width, self.zero()) || self.at_most(
            scene.bounds.height,
            self.zero(),
        ) {
            seq![]
        } else {
            self.mirror_frames(scene, clip, scene.frames.len() as int)
        }
    }
}

/// Quads of six corners each, from the last to the first, and each with its left and its
/// right corners exchanged.
pub open spec fn turned_over<N>(quads: Seq<Vertex<N>>) -> Seq<Vertex<N>>
    decreases quads.len(),
{
    if quads.len() < 6 {
        seq![]
    } else {
        turned_over(quads.skip(6)) + seq![
            quads[5],
            quads[2],
            quads[1],
            quads[5],
            quads[1],
            quads[0],
        ]
    }
}

/// The first `n` cells, one after the other.
spec fn row<N>(cell: spec_fn(int) -> Seq<Vertex<N>>, n: int) -> Seq<Vertex<N>>
    decreases n,
{
    if n <= 0 {
        seq![]
    } else {
        row(cell, n - 1) + cell(n - 1)
    }
}

/// The cells from `from` to before `n`, one after the other.
spec fn row_from<N>(cell: spec_fn(int) -> Seq<Vertex<N>>, from: int, n: int) -> Seq<Vertex<N>>
    decreases n - from,
{
    if from >= n {
        seq![]
    } else {
        cell(from) + row_from(cell, from + 1, n)
    }
}

proof fn lemma_row_split<N>(cell: spec_fn(int) -> Seq<Vertex<N>>, from: int, n: int)
    requires
        0 <= from <= n,
    ensures
        row(cell, n) == row(cell, from) + row_from(cell, from, n),
    decreases n - from,
{
    if from < n {
        lemma_row_split(cell, from + 1, n);
        assert(row(cell, from + 1) == row(cell, from) + cell(from));
        assert(row(cell, from) + row_from(cell, from, n) =~= row(cell, from + 1) + row_from(
            cell,
            from + 1,
            n,
        ));
    } else {
        assert(row(cell, n) + row_from(cell, n, n) =~= row(cell, n));
    }
}

/// A quad in front is the last one when turned over.
proof fn lemma_turned_front<N>(quad: Seq<Vertex<N>>, rest: Seq<Vertex<N>>)
    requires
        quad.len() == 0 || quad.len() == 6,
    ensures
        turned_over(quad + rest) == turned_over(rest) + turned_over(quad),
{
    if quad.len() == 0 {
        assert(quad + rest =~= rest);
        assert(turned_over(rest) + turned_over(quad) =~= turned_over(rest));
    } else {
        assert((quad + rest).skip(6) =~= rest);
        assert(turned_over(quad.skip(6)) =~= seq![]);
        assert(turned_over(quad + rest) =~= turned_over(rest) + turned_over(quad));
    }
}

/// A row of cells that are those of another, turned over and in opposite order, is the
/// other row turned over.
proof fn lemma_row_turned<N>(
    cell: spec_fn(int) -> Seq<Vertex<N>>,
    other: spec_fn(int) -> Seq<Vertex<N>>,
    k: int,
    n: int,
)
    requires
        0 <= k <= n,
        forall|i: int| 0 <= i < n ==> (#[trigger] other(i)).len() == 0 || other(i).len() == 6,
        forall|i: int| 0 <= i < n ==> #[trigger] cell(i) == turned_over(other(n - 1 - i)),
    ensures
        row(cell, k) == turned_over(row_from(other, n - k, n)),
    decreases k,
{
    if k > 0 {
        lemma_row_turned(cell, other, k - 1, n);
        let quad = other(n - k);
        assert(cell(k - 1) == turned_over(quad));
        lemma_turned_front(quad, row_from(other, n - k + 1, n));
    }
}

proof fn lemma_rows<K: Kit>(
    m: Model<K>,
    scene: Scene<K>,
    clip: K::Clip,
    place: Placement<K::Num>,
    outline: Seq<Joint<K::Num>>,
    n: int,
)
    ensures
        m.areas(scene, clip, place, outline, n) == row(
            |i: int| m.area(scene, clip, place, outline[i], outline[i + 1]),
            n,
        ),
        m.ridge_lines(scene, clip, place, outline, n) == row(
            |i: int| m.ridge_line(scene, clip, place, outline[i], outline[i + 1]),
            n,
        ),
    decreases n,
{
    if n > 0 {
        lemma_rows(m, scene, clip, place, outline, n - 1);
    }
}

/// Points that share the extent between them are opposite, wherever they are drawn toward
/// the middle.
proof fn lemma_middle(low: real, extent: real, scale: real, t: real, u: real)
    requires
        t + u == 1 as real,
    ensures
        ({
            let half = (1 as real) / (2 as real);
            let middle = low + half * extent;
            middle + ((low + t * extent) - middle) * scale == ((low + low) + extent) - (middle + ((
            low + u * extent) - middle) * scale)
        }),
{
    let half = (1 as real) / (2 as real);
    let middle = low + half * extent;
    let a = (low + t * extent) - middle;
    let b = (low + u * extent) - middle;
    assert(t * extent + u * extent == extent) by (nonlinear_arith)
        requires
            t + u == 1 as real,
    ;
    assert(half * extent + half * extent == extent) by (nonlinear_arith)
        requires
            half == (1 as real) / (2 as real),
    ;
    assert(a + b == 0 as real);
    assert(a * scale + b * scale == 0 as real) by (nonlinear_arith)
        requires
            a + b == 0 as real,
    ;
}

/// Two parts of a whole add up to one.
proof fn lemma_parts(part: int, whole: int)
    requires
        whole >= 1,
    ensures
        (part as real) / (whole as real) + ((whole - part) as real) / (whole as real) == 1 as real,
{
    let p = part as real;
    let w = whole as real;
    assert((whole - part) as real == w - p);
    assert(p / w + (w - p) / w == 1 as real) by (nonlinear_arith)
        requires
            w >= 1 as real,
    ;
}

/// Joints that are equally far from either end are opposite to each other.
proof fn lemma_joints_opposite<K: Kit>(
    m: Model<K>,
    v: Reading<K>,
    bounds: Bounds<K::Num>,
    vertical: bool,
    place: Placement<K::Num>,
    joint: int,
    bins: int,
)
    requires
        m.is_exact(v),
        place.vanish == m.middle(bounds, vertical),
        0 <= joint <= bins,
        1 <= bins,
    ensures
        m.along(bounds, vertical, place, joint, bins) == m.opposite_along(
            bounds,
            vertical,
            m.along(bounds, vertical, place, bins - joint, bins),
        ),
{
    let here = m.along(bounds, vertical, place, joint, bins);
    let there = m.opposite_along(
        bounds,
        vertical,
        m.along(bounds, vertical, place, bins - joint, bins),
    );
    let scale = v.num(place.scale);
    let t = v.num(m.over(m.count(joint), m.count(bins)));
    let u = v.num(m.over(m.count(bins - joint), m.count(bins)));
    lemma_parts(joint, bins);
    assert(t + u == 1 as real);
    let half = (1 as real) / (2 as real);
    lemma_units(m, v);
    let (low, extent, near, far) = if vertical {
        (v.num(bounds.y), v.num(bounds.height), 1 as real - t, 1 as real - u)
    } else {
        (v.num(bounds.x), v.num(bounds.width), t, u)
    };
    lemma_middle(low, extent, scale, near, far);
    let middle = low + half * extent;
    assert(v.num(place.vanish) == middle);
    assert(v.num(here) == middle + ((low + near * extent) - middle) * scale);
    assert(v.num(m.along(bounds, vertical, place, bins - joint, bins)) == middle + ((low + far
        * extent) - middle) * scale);
    assert(v.same(here, there));
}

/// In the mirror, a corner is where the mirror image of its position is.
proof fn lemma_corner_in_mirror<K: Kit>(
    m: Model<K>,
    bounds: Bounds<K::Num>,
    vertical: bool,
    clip: K::Clip,
    at: Point<K::Num>,
    color: Rgba<K::Num>,
)
    ensures
        m.in_mirror(bounds, vertical).corner(clip, at, color) == m.corner(
            clip,
            m.reflected(bounds, vertical, at),
            color,
        ),
{
    let mirror = m.in_mirror(bounds, vertical);
    assert(mirror.to_clip(clip, at) == m.to_clip(clip, m.reflected(bounds, vertical, at)));
}

/// Where the ends of an area are those of another in a mirror, the area is the other one
/// in the mirror.
proof fn lemma_area_in_mirror<K: Kit>(
    m: Model<K>,
    scene: Scene<K>,
    turned: Scene<K>,
    clip: K::Clip,
    place: Placement<K::Num>,
    left: Joint<K::Num>,
    right: Joint<K::Num>,
    turned_left: Joint<K::Num>,
    turned_right: Joint<K::Num>,
)
    requires
        turned == (Scene { rotation: turned.rotation, ..scene }),
        turned.vertical() == scene.vertical(),
        m.is_image(scene, turned_left, right),
        m.is_image(scene, turned_right, left),
    ensures
        m.area(turned, clip, place, turned_left, turned_right) == turned_over(
            m.in_mirror(scene.bounds, scene.vertical()).area(scene, clip, place, left, right),
        ),
        ({
            let area = m.in_mirror(scene.bounds, scene.vertical()).area(
                scene,
                clip,
                place,
                left,
                right,
            );
            area.len() == 0 || area.len() == 6
        }),
{
    let mirror = m.in_mirror(scene.bounds, scene.vertical());
    let area = mirror.area(scene, clip, place, left, right);
    assert(mirror.amp_color(scene.palette, left.amp, place.alpha) == m.amp_color(
        scene.palette,
        left.amp,
        place.alpha,
    ));
    assert(mirror.amp_color(scene.palette, right.amp, place.alpha) == m.amp_color(
        scene.palette,
        right.amp,
        place.alpha,
    ));
    let vertical = scene.vertical();
    let left_color = m.amp_color(scene.palette, left.amp, place.alpha);
    let right_color = m.amp_color(scene.palette, right.amp, place.alpha);
    let faint = m.ratio(5, 1000);
    let clear = Rgba { r: m.zero(), g: m.zero(), b: m.zero(), a: m.zero() };
    assert(mirror.ratio(5, 1000) == faint);
    assert(mirror.zero() == m.zero());
    assert(mirror.less(left_color.a, faint) == m.less(left_color.a, faint));
    assert(mirror.less(right_color.a, faint) == m.less(right_color.a, faint));
    let b = scene.bounds;
    lemma_corner_in_mirror(
        m,
        b,
        vertical,
        clip,
        on_screen(vertical, left.along, left.ridge),
        left_color,
    );
    lemma_corner_in_mirror(
        m,
        b,
        vertical,
        clip,
        on_screen(vertical, right.along, right.ridge),
        right_color,
    );
    lemma_corner_in_mirror(
        m,
        b,
        vertical,
        clip,
        on_screen(vertical, left.along, place.floor),
        clear,
    );
    lemma_corner_in_mirror(
        m,
        b,
        vertical,
        clip,
        on_screen(vertical, right.along, place.floor),
        clear,
    );
    let image = m.area(turned, clip, place, turned_left, turned_right);
    if m.less(left_color.a, faint) && m.less(right_color.a, faint) {
        assert(image =~= seq![]);
        assert(area =~= seq![]);
    } else {
        assert(area.len() == 6);
        assert(image.len() == 6);
        assert(image[0] == area[5]);
        assert(image[1] == area[2]);
        assert(image[2] == area[1]);
        assert(image[5] == area[0]);
        assert(turned_over(area.skip(6)) =~= seq![]);
        assert(image =~= turned_over(area));
    }
}

impl<K: Kit> Model<K> {
    /// The frequency coordinate of the center line.
    pub open spec fn middle(self, bounds: Bounds<K::Num>, vertical: bool) -> K::Num {
        if vertical {
            self.plus(bounds.y, self.times(self.half(), bounds.height))
        } else {
            self.plus(bounds.x, self.times(self.half(), bounds.width))
        }
    }

    /// Whether `image` is the mirror image of `joint`.
    pub open spec fn is_image(
        self,
        scene: Scene<K>,
        image: Joint<K::Num>,
        joint: Joint<K::Num>,
    ) -> bool {
        &&& image.along == self.opposite_along(scene.bounds, scene.vertical(), joint.along)
        &&& image.amp == joint.amp
        &&& image.ridge == joint.ridge
    }
}

/// Half of a width is the same way in the opposite direction, if the line is.
proof fn lemma_opposite_quotient(d: real, e: real, length: real, half_width: real)
    requires
        length > 0 as real,
        e == -d,
    ensures
        (e / length) * half_width == -((d / length) * half_width),
{
    assert(e / length == -(d / length)) by (nonlinear_arith)
        requires
            length > 0 as real,
            e == -d,
    ;
    let q = d / length;
    assert((-q) * half_width == -(q * half_width)) by (nonlinear_arith);
}

/// The length that a line is divided by is not zero.
proof fn lemma_length_is_positive<K: Kit>(m: Model<K>, v: Reading<K>, a: K::Num)
    requires
        m.is_exact(v),
    ensures
        v.num(m.larger(a, m.ratio(1, 100000))) > 0 as real,
{
    let least = v.num(m.ratio(1, 100000));
    assert(least * (100000 as real) == 1 as real);
    assert(least > 0 as real) by (nonlinear_arith)
        requires
            least * (100000 as real) == 1 as real,
    ;
}

/// The way across a line in the mirror, run through from its end to its beginning.
proof fn lemma_normal_in_mirror<K: Kit>(
    m: Model<K>,
    v: Reading<K>,
    bounds: Bounds<K::Num>,
    vertical: bool,
    from: Point<K::Num>,
    to: Point<K::Num>,
    half_width: K::Num,
)
    requires
        m.is_exact(v),
    ensures
        ({
            let n = m.normal(from, to, half_width);
            let image = m.normal(
                m.reflected(bounds, vertical, to),
                m.reflected(bounds, vertical, from),
                half_width,
            );
            if vertical {
                image.x == n.x && v.num(image.y) == -v.num(n.y)
            } else {
                image.y == n.y && v.num(image.x) == -v.num(n.x)
            }
        }),
{
    let start = m.reflected(bounds, vertical, to);
    let end = m.reflected(bounds, vertical, from);
    let dx = m.minus(to.x, from.x);
    let dy = m.minus(to.y, from.y);
    let ix = m.minus(end.x, start.x);
    let iy = m.minus(end.y, start.y);
    let sum = m.plus(m.times(dx, dx), m.times(dy, dy));
    let image_sum = m.plus(m.times(ix, ix), m.times(iy, iy));
    let h = v.num(half_width);
    if vertical {
        assert(v.same(dy, iy));
        assert(v.num(ix) == -v.num(dx));
        let a = v.num(dx);
        assert((-a) * (-a) == a * a) by (nonlinear_arith);
    } else {
        assert(v.same(dx, ix));
        assert(v.num(iy) == -v.num(dy));
        let a = v.num(dy);
        assert((-a) * (-a) == a * a) by (nonlinear_arith);
    }
    assert(v.same(sum, image_sum));
    let length = m.larger(m.sqrt(sum), m.ratio(1, 100000));
    lemma_length_is_positive(m, v, m.sqrt(sum));
    let l = v.num(length);
    let n = m.normal(from, to, half_width);
    let image = m.normal(start, end, half_width);
    if vertical {
        assert(image.x == n.x);
        lemma_opposite_quotient(v.num(dx), v.num(ix), l, h);
        assert(n.y == m.times(m.over(dx, length), half_width));
        assert(image.y == m.times(m.over(ix, length), half_width));
    } else {
        assert(image.y == n.y);
        lemma_opposite_quotient(v.num(m.negate(dy)), v.num(m.negate(iy)), l, h);
        assert(n.x == m.times(m.over(m.negate(dy), length), half_width));
        assert(image.x == m.times(m.over(m.negate(iy), length), half_width));
    }
}

/// A line in the mirror is the line between the mirror images of its ends.
proof fn lemma_line_in_mirror<K: Kit>(
    m: Model<K>,
    v: Reading<K>,
    bounds: Bounds<K::Num>,
    vertical: bool,
    clip: K::Clip,
    from: Point<K::Num>,
    to: Point<K::Num>,
    from_color: Rgba<K::Num>,
    to_color: Rgba<K::Num>,
    half_width: K::Num,
)
    requires
        m.is_exact(v),
    ensures
        m.line(
            clip,
            m.reflected(bounds, vertical, to),
            m.reflected(bounds, vertical, from),
            to_color,
            from_color,
            half_width,
        ) == turned_over(
            m.in_mirror(bounds, vertical).line(
                clip,
                from,
                to,
                from_color,
                to_color,
                half_width,
            ),
        ),
{
    let mirror = m.in_mirror(bounds, vertical);
    let start = m.reflected(bounds, vertical, to);
    let end = m.reflected(bounds, vertical, from);
    let n = m.normal(from, to, half_width);
    let i = m.normal(start, end, half_width);
    lemma_normal_in_mirror(m, v, bounds, vertical, from, to, half_width);
    assert(mirror.normal(from, to, half_width) == n);
    let line = mirror.line(clip, from, to, from_color, to_color, half_width);
    let image = m.line(clip, start, end, to_color, from_color, half_width);
    let from_upper = Point { x: m.plus(from.x, n.x), y: m.plus(from.y, n.y) };
    let from_lower = Point { x: m.minus(from.x, n.x), y: m.minus(from.y, n.y) };
    let to_upper = Point { x: m.plus(to.x, n.x), y: m.plus(to.y, n.y) };
    let to_lower = Point { x: m.minus(to.x, n.x), y: m.minus(to.y, n.y) };
    lemma_corner_in_mirror(m, bounds, vertical, clip, from_upper, from_color);
    lemma_corner_in_mirror(m, bounds, vertical, clip, from_lower, from_color);
    lemma_corner_in_mirror(m, bounds, vertical, clip, to_upper, to_color);
    lemma_corner_in_mirror(m, bounds, vertical, clip, to_lower, to_color);
    assert(line[0] == mirror.corner(clip, from_upper, from_color));
    assert(line[1] == mirror.corner(clip, from_lower, from_color));
    assert(line[2] == mirror.corner(clip, to_lower, to_color));
    assert(line[5] == mirror.corner(clip, to_upper, to_color));
    if vertical {
        assert(v.same(m.plus(start.y, i.y), m.reflected(bounds, vertical, to_upper).y));
        assert(v.same(m.minus(start.y, i.y), m.reflected(bounds, vertical, to_lower).y));
        assert(v.same(m.plus(end.y, i.y), m.reflected(bounds, vertical, from_upper).y));
        assert(v.same(m.minus(end.y, i.y), m.reflected(bounds, vertical, from_lower).y));
    } else {
        assert(v.same(m.plus(start.x, i.x), m.reflected(bounds, vertical, to_upper).x));
        assert(v.same(m.minus(start.x, i.x), m.reflected(bounds, vertical, to_lower).x));
        assert(v.same(m.plus(end.x, i.x), m.reflected(bounds, vertical, from_upper).x));
        assert(v.same(m.minus(end.x, i.x), m.reflected(bounds, vertical, from_lower).x));
    }
    assert(image[0] == line[5]);
    assert(image[1] == line[2]);
    assert(image[2] == line[1]);
    assert(image[5] == line[0]);
    assert(turned_over(line.skip(6)) =~= seq![]);
    assert(image =~= turned_over(line));
}

/// Where the ends of a ridge line are those of another in a mirror, the line is the other
/// one in the mirror.
proof fn lemma_ridge_in_mirror<K: Kit>(
    m: Model<K>,
    v: Reading<K>,
    scene: Scene<K>,
    turned: Scene<K>,
    clip: K::Clip,
    place: Placement<K::Num>,
    left: Joint<K::Num>,
    right: Joint<K::Num>,
    turned_left: Joint<K::Num>,
    turned_right: Joint<K::Num>,
)
    requires
        m.is_exact(v),
        turned == (Scene { rotation: turned.rotation, ..scene }),
        turned.vertical() == scene.vertical(),
        m.is_image(scene, turned_left, right),
        m.is_image(scene, turned_right, left),
    ensures
        m.ridge_line(turned, clip, place, turned_left, turned_right) == turned_over(
            m.in_mirror(scene.bounds, scene.vertical()).ridge_line(
                scene,
                clip,
                place,
                left,
                right,
            ),
        ),
        ({
            let line = m.in_mirror(scene.bounds, scene.vertical()).ridge_line(
                scene,
                clip,
                place,
                left,
                right,
            );
            line.len() == 0 || line.len() == 6
        }),
{
    let vertical = scene.vertical();
    let mirror = m.in_mirror(scene.bounds, vertical);
    let alpha = m.times(place.alpha, m.ratio(9, 10));
    let low = m.ratio(2, 100);
    assert(mirror.times(place.alpha, mirror.ratio(9, 10)) == alpha);
    assert(mirror.ratio(2, 100) == low);
    assert(mirror.half() == m.half());
    assert(mirror.less(left.amp, low) == m.less(left.amp, low));
    assert(mirror.less(right.amp, low) == m.less(right.amp, low));
    let left_color = m.ridge_color(scene.palette, left.amp, alpha);
    let right_color = m.ridge_color(scene.palette, right.amp, alpha);
    assert(mirror.ridge_color(scene.palette, left.amp, alpha) == left_color);
    assert(mirror.ridge_color(scene.palette, right.amp, alpha) == right_color);
    lemma_line_in_mirror(
        m,
        v,
        scene.bounds,
        vertical,
        clip,
        on_screen(vertical, left.along, left.ridge),
        on_screen(vertical, right.along, right.ridge),
        left_color,
        right_color,
        m.half(),
    );
}

/// A frame of the reversed picture is the mirror image of the frame.
proof fn lemma_frame_in_mirror<K: Kit>(
    m: Model<K>,
    v: Reading<K>,
    scene: Scene<K>,
    turned: Scene<K>,
    clip: K::Clip,
    index: int,
)
    requires
        m.is_exact(v),
        0 <= scene.rotation,
        turned == (Scene { rotation: scene.rotation + 2, ..scene }),
        0 <= index < scene.frames.len(),
    ensures
        m.frame_vertices(turned, clip, index) == m.mirror_frame(scene, clip, index),
{
    let vertical = scene.vertical();
    let mirror = m.in_mirror(scene.bounds, vertical);
    let frame = scene.frames[index];
    let n = scene.bins();
    let place = m.placement(
        scene.bounds,
        vertical,
        m.depth(index, scene.frames.len() as int),
        m.shrinkage(scene.perspective),
    );
    assert(turned.vertical() == vertical);
    if frame.len() >= n {
        let outline = m.outline(scene, place, frame);
        let image = m.outline(turned, place, frame);
        assert forall|j: int| 0 <= j <= n implies m.is_image(
            scene,
            #[trigger] image[j],
            outline[n - j],
        ) by {
            let bin = if scene.reversed() {
                j
            } else {
                n - j
            };
            assert(v.same(m.plus(frame[bin - 1], frame[bin]), m.plus(frame[bin], frame[bin - 1])));
            law_reversal_mirrors_the_levels(m, scene, place, frame, j);
            lemma_joints_opposite(m, v, scene.bounds, vertical, place, j, n);
        }
        let area = |i: int| mirror.area(scene, clip, place, outline[i], outline[i + 1]);
        let area_image = |i: int| m.area(turned, clip, place, image[i], image[i + 1]);
        let line = |i: int| mirror.ridge_line(scene, clip, place, outline[i], outline[i + 1]);
        let line_image = |i: int| m.ridge_line(turned, clip, place, image[i], image[i + 1]);
        assert forall|i: int| 0 <= i < n implies {
            &&& #[trigger] area_image(i) == turned_over(area(n - 1 - i))
            &&& area(n - 1 - i).len() == 0 || area(n - 1 - i).len() == 6
        } by {
            assert(m.is_image(scene, image[i], outline[n - i]));
            assert(m.is_image(scene, image[i + 1], outline[n - 1 - i]));
            lemma_area_in_mirror(
                m,
                scene,
                turned,
                clip,
                place,
                outline[n - 1 - i],
                outline[n - i],
                image[i],
                image[i + 1],
            );
        }
        assert forall|i: int| 0 <= i < n implies {
            &&& #[trigger] line_image(i) == turned_over(line(n - 1 - i))
            &&& line(n - 1 - i).len() == 0 || line(n - 1 - i).len() == 6
        } by {
            assert(m.is_image(scene, image[i], outline[n - i]));
            assert(m.is_image(scene, image[i + 1], outline[n - 1 - i]));
            lemma_ridge_in_mirror(
                m,
                v,
                scene,
                turned,
                clip,
                place,
                outline[n - 1 - i],
                outline[n - i],
                image[i],
                image[i + 1],
            );
        }
        assert forall|i: int| 0 <= i < n implies (#[trigger] area(i)).len() == 0 || area(i).len()
            == 6 by {
            assert(area_image(n - 1 - i) == turned_over(area(n - 1 - (n - 1 - i))));
        }
        assert forall|i: int| 0 <= i < n implies (#[trigger] line(i)).len() == 0 || line(i).len()
            == 6 by {
            assert(line_image(n - 1 - i) == turned_over(line(n - 1 - (n - 1 - i))));
        }
        lemma_rows(mirror, scene, clip, place, outline, n);
        lemma_rows(m, turned, clip, place, image, n);
        lemma_row_split(area, 0, n);
        lemma_row_split(line, 0, n);
        lemma_row_turned(area_image, area, n, n);
        lemma_row_turned(line_image, line, n, n);
        assert(row(area, 0) + row_from(area, 0, n) =~= row_from(area, 0, n));
        assert(row(line, 0) + row_from(line, 0, n) =~= row_from(line, 0, n));
    }
}

/// The reversed picture is the mirror image of the picture: two rotations further,
/// frequencies run along the same axis in the opposite direction, and every corner of
/// every area and line is where, and of the color of, the mirror image of a corner. This
/// is so in exact arithmetic; rounded positions are those up to rounding.
pub proof fn law_reversed_picture_is_the_mirror_image<K: Kit>(
    m: Model<K>,
    v: Reading<K>,
    scene: Scene<K>,
    clip: K::Clip,
)
    requires
        m.is_exact(v),
        0 <= scene.rotation,
    ensures
        m.picture(Scene { rotation: scene.rotation + 2, ..scene }, clip) == m.mirror_picture(
            scene,
            clip,
        ),
{
    lemma_frames_in_mirror(m, v, scene, clip, scene.frames.len() as int);
}

proof fn lemma_frames_in_mirror<K: Kit>(
    m: Model<K>,
    v: Reading<K>,
    scene: Scene<K>,
    clip: K::Clip,
    n: int,
)
    requires
        m.is_exact(v),
        0 <= scene.rotation,
        n <= scene.frames.len(),
    ensures
        m.first_frames(Scene { rotation: scene.rotation + 2, ..scene }, clip, n)
            == m.mirror_frames(scene, clip, n),
    decreases n,
{
    if n > 0 {
        let turned = Scene { rotation: scene.rotation + 2, ..scene };
        lemma_frames_in_mirror(m, v, scene, clip, n - 1);
        lemma_frame_in_mirror(m, v, scene, turned, clip, n - 1);
    }
}

impl<K: Kit> Model<K> {
    /// These functions, but with every position brought to one and the same place: a
    /// picture of colors alone.
    pub open spec fn without_positions(self, anywhere: Point<K::Num>) -> Model<K> {
        Model { to_clip: |clip: K::Clip, at: Point<K::Num>| anywhere, ..self }
    }
}

/// Without positions, an area in the mirror is the one with its ends exchanged.
proof fn lemma_area_colors<K: Kit>(
    m: Model<K>,
    anywhere: Point<K::Num>,
    scene: Scene<K>,
    turned: Scene<K>,
    clip: K::Clip,
    place: Placement<K::Num>,
    left: Joint<K::Num>,
    right: Joint<K::Num>,
    turned_left: Joint<K::Num>,
    turned_right: Joint<K::Num>,
)
    requires
        turned == (Scene { rotation: turned.rotation, ..scene }),
        turned_left.amp == right.amp,
        turned_right.amp == left.amp,
    ensures
        ({
            let blind = m.without_positions(anywhere);
            let area = blind.in_mirror(scene.bounds, scene.vertical()).area(
                scene,
                clip,
                place,
                left,
                right,
            );
            &&& blind.area(turned, clip, place, turned_left, turned_right) == turned_over(area)
            &&& area.len() == 0 || area.len() == 6
        }),
{
    let blind = m.without_positions(anywhere);
    let mirror = blind.in_mirror(scene.bounds, scene.vertical());
    let area = mirror.area(scene, clip, place, left, right);
    let image = blind.area(turned, clip, place, turned_left, turned_right);
    let left_color = blind.amp_color(scene.palette, left.amp, place.alpha);
    let right_color = blind.amp_color(scene.palette, right.amp, place.alpha);
    let faint = blind.ratio(5, 1000);
    assert(mirror.amp_color(scene.palette, left.amp, place.alpha) == left_color);
    assert(mirror.amp_color(scene.palette, right.amp, place.alpha) == right_color);
    assert(mirror.ratio(5, 1000) == faint);
    assert(mirror.zero() == blind.zero());
    assert(mirror.less(left_color.a, faint) == blind.less(left_color.a, faint));
    assert(mirror.less(right_color.a, faint) == blind.less(right_color.a, faint));
    assert forall|at: Point<K::Num>|
        #[trigger] mirror.to_clip(clip, at) == anywhere && blind.to_clip(clip, at) == anywhere by {
    }
    if blind.less(left_color.a, faint) && blind.less(right_color.a, faint) {
        assert(image =~= seq![]);
        assert(area =~= seq![]);
    } else {
        assert(area.len() == 6);
        assert(image.len() == 6);
        assert(turned_over(area.skip(6)) =~= seq![]);
        assert(image =~= turned_over(area));
    }
}

/// Without positions, a ridge line in the mirror is the one with its ends exchanged.
proof fn lemma_ridge_colors<K: Kit>(
    m: Model<K>,
    anywhere: Point<K::Num>,
    scene: Scene<K>,
    turned: Scene<K>,
    clip: K::Clip,
    place: Placement<K::Num>,
    left: Joint<K::Num>,
    right: Joint<K::Num>,
    turned_left: Joint<K::Num>,
    turned_right: Joint<K::Num>,
)
    requires
        turned == (Scene { rotation: turned.rotation, ..scene }),
        turned_left.amp == right.amp,
        turned_right.amp == left.amp,
    ensures
        ({
            let blind = m.without_positions(anywhere);
            let line = blind.in_mirror(scene.bounds, scene.vertical()).ridge_line(
                scene,
                clip,
                place,
                left,
                right,
            );
            &&& blind.ridge_line(turned, clip, place, turned_left, turned_right) == turned_over(
                line,
            )
            &&& line.len() == 0 || line.len() == 6
        }),
{
    let blind = m.without_positions(anywhere);
    let mirror = blind.in_mirror(scene.bounds, scene.vertical());
    let line = mirror.ridge_line(scene, clip, place, left, right);
    let image = blind.ridge_line(turned, clip, place, turned_left, turned_right);
    let alpha = blind.times(place.alpha, blind.ratio(9, 10));
    let low = blind.ratio(2, 100);
    assert(mirror.times(place.alpha, mirror.ratio(9, 10)) == alpha);
    assert(mirror.ratio(2, 100) == low);
    assert(mirror.less(left.amp, low) == blind.less(left.amp, low));
    assert(mirror.less(right.amp, low) == blind.less(right.amp, low));
    let left_color = blind.ridge_color(scene.palette, left.amp, alpha);
    let right_color = blind.ridge_color(scene.palette, right.amp, alpha);
    assert(mirror.ridge_color(scene.palette, left.amp, alpha) == left_color);
    assert(mirror.ridge_color(scene.palette, right.amp, alpha) == right_color);
    assert forall|at: Point<K::Num>|
        #[trigger] mirror.to_clip(clip, at) == anywhere && blind.to_clip(clip, at) == anywhere by {
    }
    if blind.less(left.amp, low) && blind.less(right.amp, low) {
        assert(image =~= seq![]);
        assert(line =~= seq![]);
    } else {
        assert(line.len() == 6);
        assert(image.len() == 6);
        assert(turned_over(line.skip(6)) =~= seq![]);
        assert(image =~= turned_over(line));
    }
}

proof fn lemma_frame_colors<K: Kit>(
    m: Model<K>,
    anywhere: Point<K::Num>,
    scene: Scene<K>,
    turned: Scene<K>,
    clip: K::Clip,
    index: int,
)
    requires
        forall|a: K::Num, b: K::Num| #[trigger] m.plus(a, b) == m.plus(b, a),
        0 <= scene.rotation,
        turned == (Scene { rotation: scene.rotation + 2, ..scene }),
        0 <= index < scene.frames.len(),
    ensures
        ({
            let blind = m.without_positions(anywhere);
            blind.frame_vertices(turned, clip, index) == blind.mirror_frame(scene, clip, index)
        }),
{
    let blind = m.without_positions(anywhere);
    let vertical = scene.vertical();
    let mirror = blind.in_mirror(scene.bounds, vertical);
    let frame = scene.frames[index];
    let n = scene.bins();
    let place = blind.placement(
        scene.bounds,
        vertical,
        blind.depth(index, scene.frames.len() as int),
        blind.shrinkage(scene.perspective),
    );
    assert(turned.vertical() == vertical);
    if frame.len() >= n {
        let outline = blind.outline(scene, place, frame);
        let image = blind.outline(turned, place, frame);
        assert forall|j: int| 0 <= j <= n implies (#[trigger] image[j]).amp == outline[n
            - j].amp by {
            let bin = if scene.reversed() {
                j
            } else {
                n - j
            };
            assert(m.plus(frame[bin - 1], frame[bin]) == m.plus(frame[bin], frame[bin - 1]));
            assert(blind.plus(frame[bin - 1], frame[bin]) == blind.plus(
                frame[bin],
                frame[bin - 1],
            ));
            law_reversal_mirrors_the_levels(blind, scene, place, frame, j);
        }
        let area = |i: int| mirror.area(scene, clip, place, outline[i], outline[i + 1]);
        let area_image = |i: int| blind.area(turned, clip, place, image[i], image[i + 1]);
        let line = |i: int| mirror.ridge_line(scene, clip, place, outline[i], outline[i + 1]);
        let line_image = |i: int| blind.ridge_line(turned, clip, place, image[i], image[i + 1]);
        assert forall|i: int| 0 <= i < n implies {
            &&& #[trigger] area_image(i) == turned_over(area(n - 1 - i))
            &&& area(n - 1 - i).len() == 0 || area(n - 1 - i).len() == 6
        } by {
            lemma_area_colors(
                m,
                anywhere,
                scene,
                turned,
                clip,
                place,
                outline[n - 1 - i],
                outline[n - i],
                image[i],
                image[i + 1],
            );
        }
        assert forall|i: int| 0 <= i < n implies {
            &&& #[trigger] line_image(i) == turned_over(line(n - 1 - i))
            &&& line(n - 1 - i).len() == 0 || line(n - 1 - i).len() == 6
        } by {
            lemma_ridge_colors(
                m,
                anywhere,
                scene,
                turned,
                clip,
                place,
                outline[n - 1 - i],
                outline[n - i],
                image[i],
                image[i + 1],
            );
        }
        assert forall|i: int| 0 <= i < n implies (#[trigger] area(i)).len() == 0 || area(i).len()
            == 6 by {
            assert(area_image(n - 1 - i) == turned_over(area(n - 1 - (n - 1 - i))));
        }
        assert forall|i: int| 0 <= i < n implies (#[trigger] line(i)).len() == 0 || line(i).len()
            == 6 by {
            assert(line_image(n - 1 - i) == turned_over(line(n - 1 - (n - 1 - i))));
        }
        lemma_rows(mirror, scene, clip, place, outline, n);
        lemma_rows(blind, turned, clip, place, image, n);
        lemma_row_split(area, 0, n);
        lemma_row_split(line, 0, n);
        lemma_row_turned(area_image, area, n, n);
        lemma_row_turned(line_image, line, n, n);
        assert(row(area, 0) + row_from(area, 0, n) =~= row_from(area, 0, n));
        assert(row(line, 0) + row_from(line, 0, n) =~= row_from(line, 0, n));
    }
}

proof fn lemma_frames_colors<K: Kit>(
    m: Model<K>,
    anywhere: Point<K::Num>,
    scene: Scene<K>,
    clip: K::Clip,
    n: int,
)
    requires
        forall|a: K::Num, b: K::Num| #[trigger] m.plus(a, b) == m.plus(b, a),
        0 <= scene.rotation,
        n <= scene.frames.len(),
    ensures
        ({
            let blind = m.without_positions(anywhere);
            blind.first_frames(Scene { rotation: scene.rotation + 2, ..scene }, clip, n)
                == blind.mirror_frames(scene, clip, n)
        }),
    decreases n,
{
    if n > 0 {
        let turned = Scene { rotation: scene.rotation + 2, ..scene };
        lemma_frames_colors(m, anywhere, scene, clip, n - 1);
        lemma_frame_colors(m, anywhere, scene, turned, clip, n - 1);
    }
}

/// But for positions, the reversed picture is the mirror image of the picture in any
/// arithmetic in which sums do not depend on the order, exact or rounded: it has the same
/// areas and lines, from the last to the first, in the same colors.
pub proof fn law_reversed_picture_has_the_mirrored_colors<K: Kit>(
    m: Model<K>,
    anywhere: Point<K::Num>,
    scene: Scene<K>,
    clip: K::Clip,
)
    requires
        forall|a: K::Num, b: K::Num| #[trigger] m.plus(a, b) == m.plus(b, a),
        0 <= scene.rotation,
    ensures
        ({
            let blind = m.without_positions(anywhere);
            blind.picture(Scene { rotation: scene.rotation + 2, ..scene }, clip)
                == blind.mirror_picture(scene, clip)
        }),
{
    lemma_frames_colors(m, anywhere, scene, clip, scene.frames.len() as int);
}

/// Looking into the mirror twice shows a position where it is, in exact arithmetic.
pub proof fn law_reflecting_twice_changes_nothing<K: Kit>(
    m: Model<K>,
    v: Reading<K>,
    bounds: Bounds<K::Num>,
    vertical: bool,
    at: Point<K::Num>,
)
    requires
        m.is_exact(v),
    ensures
        m.reflected(bounds, vertical, m.reflected(bounds, vertical, at)) == at,
{
    let twice = m.reflected(bounds, vertical, m.reflected(bounds, vertical, at));
    assert(v.same(twice.x, at.x));
    assert(v.same(twice.y, at.y));
}

/// The line along a ridge is one pixel wide: the ways from it to its two edges are across
/// it and together one pixel long, in exact arithmetic. A line of hardly any length is
/// narrower.
pub proof fn law_ridge_line_is_one_pixel_wide<K: Kit>(
    m: Model<K>,
    v: Reading<K>,
    from: Point<K::Num>,
    to: Point<K::Num>,
)
    requires
        m.is_exact(v),
        ({
            let dx = v.num(to.x) - v.num(from.x);
            let dy = v.num(to.y) - v.num(from.y);
            let least = v.num(m.ratio(1, 100000));
            dx * dx + dy * dy >= least * least
        }),
    ensures
        ({
            let dx = v.num(to.x) - v.num(from.x);
            let dy = v.num(to.y) - v.num(from.y);
            let n = m.normal(from, to, m.half());
            let across_x = v.num(n.x) + v.num(n.x);
            let across_y = v.num(n.y) + v.num(n.y);
            &&& across_x * dx + across_y * dy == 0 as real
            &&& across_x * across_x + across_y * across_y == 1 as real
        }),
{
    let dx = m.minus(to.x, from.x);
    let dy = m.minus(to.y, from.y);
    let sum = m.plus(m.times(dx, dx), m.times(dy, dy));
    let length = m.larger(m.sqrt(sum), m.ratio(1, 100000));
    let n = m.normal(from, to, m.half());
    let x = v.num(dx);
    let y = v.num(dy);
    let least = v.num(m.ratio(1, 100000));
    let root = v.num(m.sqrt(sum));
    let l = v.num(length);
    let h = (1 as real) / (2 as real);
    lemma_units(m, v);
    lemma_length_is_positive(m, v, m.sqrt(sum));
    assert(least * (100000 as real) == 1 as real);
    assert(least > 0 as real) by (nonlinear_arith)
        requires
            least * (100000 as real) == 1 as real,
    ;
    assert(x * x + y * y >= 0 as real) by (nonlinear_arith);
    assert(root >= least) by (nonlinear_arith)
        requires
            root >= 0 as real,
            least > 0 as real,
            root * root >= least * least,
    ;
    assert(l == root);
    assert(v.num(m.negate(dy)) == -y);
    assert(v.num(n.x) == ((-y) / l) * h);
    assert(v.num(n.y) == (x / l) * h);
    let a = (-y) / l;
    let b = x / l;
    assert(a * h + a * h == a) by (nonlinear_arith)
        requires
            h == (1 as real) / (2 as real),
    ;
    assert(b * h + b * h == b) by (nonlinear_arith)
        requires
            h == (1 as real) / (2 as real),
    ;
    assert(a * l == -y && b * l == x) by (nonlinear_arith)
        requires
            l > 0 as real,
            a == (-y) / l,
            b == x / l,
    ;
    assert(a * x + b * y == 0 as real) by (nonlinear_arith)
        requires
            l > 0 as real,
            a * l == -y,
            b * l == x,
    ;
    assert(a * a + b * b == 1 as real) by (nonlinear_arith)
        requires
            l > 0 as real,
            a * l == -y,
            b * l == x,
            l * l == x * x + y * y,
    ;
}

} // verus!
