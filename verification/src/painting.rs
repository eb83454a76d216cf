//! How a picture is painted: in which order, in which colors, and without gaps.
use crate::exact::{lemma_fraction, lemma_units, Reading};
use crate::kit::{Kit, Model, Point, Rgba};
use crate::mirror::law_ridge_line_is_one_pixel_wide;
use crate::perspective::law_joints_divide_the_axis_evenly;
use crate::render::{on_screen, Joint, Placement, Scene, Vertex};
use vstd::prelude::*;

verus! {

impl<K: Kit> Model<K> {
    /// Where the triangles of frame `index` begin, if those of older frames come first.
    pub open spec fn place_in_picture(self, scene: Scene<K>, clip: K::Clip, index: int) -> int
        decreases index,
    {
        if index <= 0 {
            0
        } else {
            self.place_in_picture(scene, clip, index - 1) + self.frame_vertices(
                scene,
                clip,
                index - 1,
            ).len()
        }
    }
}

/// Older frames are painted before newer ones, so that these cover them: the triangles of
/// every frame come right behind those of all older frames, and the newest frame is last.
pub proof fn law_newer_frames_cover_older_ones<K: Kit>(
    m: Model<K>,
    scene: Scene<K>,
    clip: K::Clip,
    index: int,
)
    requires
        !m.at_most(scene.bounds.width, m.zero()),
        !m.at_most(scene.bounds.height, m.zero()),
        0 <= index < scene.frames.len(),
    ensures
        ({
            let picture = m.picture(scene, clip);
            let start = m.place_in_picture(scene, clip, index);
            let end = m.place_in_picture(scene, clip, index + 1);
            &&& 0 <= start <= end <= picture.len()
            &&& picture.subrange(start, end) == m.frame_vertices(scene, clip, index)
            &&& index == scene.frames.len() - 1 ==> end == picture.len()
        }),
{
    lemma_places(m, scene, clip, index, scene.frames.len() as int);
}

/// A picture with an extent has room for its frames; one without any, in either direction,
/// has nothing. This is so in exact arithmetic.
pub proof fn law_a_picture_needs_an_extent<K: Kit>(
    m: Model<K>,
    v: Reading<K>,
    scene: Scene<K>,
    clip: K::Clip,
)
    requires
        m.is_exact(v),
        m.is_exact_order(v),
    ensures
        ({
            let width = v.num(scene.bounds.width);
            let height = v.num(scene.bounds.height);
            let count = scene.frames.len() as int;
            m.picture(scene, clip).len() == (if width > 0 as real && height > 0 as real {
                m.place_in_picture(scene, clip, count)
            } else {
                0
            })
        }),
{
    let count = scene.frames.len() as int;
    lemma_units(m, v);
    if count > 0 {
        lemma_places(m, scene, clip, 0, count);
    }
}

/// Where the triangles of a frame are among those of the first `n`.
proof fn lemma_places<K: Kit>(m: Model<K>, scene: Scene<K>, clip: K::Clip, index: int, n: int)
    requires
        0 <= index < n,
    ensures
        ({
            let first = m.first_frames(scene, clip, n);
            let start = m.place_in_picture(scene, clip, index);
            let end = m.place_in_picture(scene, clip, index + 1);
            &&& first.len() == m.place_in_picture(scene, clip, n)
            &&& 0 <= start <= end <= first.len()
            &&& first.subrange(start, end) == m.frame_vertices(scene, clip, index)
        }),
    decreases n,
{
    let before = m.first_frames(scene, clip, n - 1);
    let last = m.frame_vertices(scene, clip, n - 1);
    let first = m.first_frames(scene, clip, n);
    let start = m.place_in_picture(scene, clip, index);
    let end = m.place_in_picture(scene, clip, index + 1);
    if index < n - 1 {
        lemma_places(m, scene, clip, index, n - 1);
        assert(first.subrange(start, end) =~= before.subrange(start, end));
    } else {
        if n - 1 > 0 {
            lemma_places(m, scene, clip, n - 2, n - 1);
        }
        assert(first.subrange(start, end) =~= last);
    }
}

impl<K: Kit> Model<K> {
    /// Where a frame stands in its picture.
    pub open spec fn place_of(self, scene: Scene<K>, index: int) -> Placement<K::Num> {
        self.placement(
            scene.bounds,
            scene.vertical(),
            self.depth(index, scene.frames.len() as int),
            self.shrinkage(scene.perspective),
        )
    }

    /// The area of bin `bin` of a frame.
    pub open spec fn area_of(
        self,
        scene: Scene<K>,
        clip: K::Clip,
        index: int,
        bin: int,
    ) -> Seq<Vertex<K::Num>> {
        let place = self.place_of(scene, index);
        let frame = scene.frames[index];
        self.area(
            scene,
            clip,
            place,
            self.joint(scene, place, frame, bin),
            self.joint(scene, place, frame, bin + 1),
        )
    }

    /// The line along bin `bin` of a frame.
    pub open spec fn line_of(
        self,
        scene: Scene<K>,
        clip: K::Clip,
        index: int,
        bin: int,
    ) -> Seq<Vertex<K::Num>> {
        let place = self.place_of(scene, index);
        let frame = scene.frames[index];
        self.ridge_line(
            scene,
            clip,
            place,
            self.joint(scene, place, frame, bin),
            self.joint(scene, place, frame, bin + 1),
        )
    }

    /// Where the area of bin `bin` begins among the triangles of a frame, if the areas come
    /// first, from the first bin on.
    pub open spec fn place_of_area(
        self,
        scene: Scene<K>,
        clip: K::Clip,
        index: int,
        bin: int,
    ) -> int
        decreases bin,
    {
        if bin <= 0 {
            0
        } else {
            self.place_of_area(scene, clip, index, bin - 1) + self.area_of(
                scene,
                clip,
                index,
                bin - 1,
            ).len()
        }
    }

    /// Where the line along bin `bin` begins, if the lines come behind all areas.
    pub open spec fn place_of_line(
        self,
        scene: Scene<K>,
        clip: K::Clip,
        index: int,
        bin: int,
    ) -> int
        decreases bin,
    {
        if bin <= 0 {
            self.place_of_area(scene, clip, index, scene.bins())
        } else {
            self.place_of_line(scene, clip, index, bin - 1) + self.line_of(
                scene,
                clip,
                index,
                bin - 1,
            ).len()
        }
    }
}

/// The lines of a frame are painted over its areas: every bin has its area, in the order of
/// the bins, and behind all of these its line, and there is nothing else.
pub proof fn law_lines_lie_on_the_areas<K: Kit>(
    m: Model<K>,
    scene: Scene<K>,
    clip: K::Clip,
    index: int,
    bin: int,
)
    requires
        0 <= index < scene.frames.len(),
        scene.bins() <= scene.frames[index].len(),
        0 <= bin < scene.bins(),
    ensures
        ({
            let all = m.frame_vertices(scene, clip, index);
            let area = m.place_of_area(scene, clip, index, bin);
            let area_end = m.place_of_area(scene, clip, index, bin + 1);
            let line = m.place_of_line(scene, clip, index, bin);
            let line_end = m.place_of_line(scene, clip, index, bin + 1);
            &&& 0 <= area <= area_end <= line <= line_end <= all.len()
            &&& all.subrange(area, area_end) == m.area_of(scene, clip, index, bin)
            &&& all.subrange(line, line_end) == m.line_of(scene, clip, index, bin)
            &&& m.place_of_line(scene, clip, index, scene.bins()) == all.len()
        }),
{
    let place = m.place_of(scene, index);
    let outline = m.outline(scene, place, scene.frames[index]);
    let bins = scene.bins();
    let areas = m.areas(scene, clip, place, outline, bins);
    let lines = m.ridge_lines(scene, clip, place, outline, bins);
    let all = m.frame_vertices(scene, clip, index);
    let area = m.place_of_area(scene, clip, index, bin);
    let area_end = m.place_of_area(scene, clip, index, bin + 1);
    let line = m.place_of_line(scene, clip, index, bin);
    let line_end = m.place_of_line(scene, clip, index, bin + 1);
    lemma_places_of_areas(m, scene, clip, index, bin, bins);
    lemma_places_of_lines(m, scene, clip, index, bin, bins);
    let before = areas.len() as int;
    assert(all == areas + lines);
    assert(all.subrange(area, area_end) =~= areas.subrange(area, area_end));
    assert(all.subrange(line, line_end) =~= lines.subrange(line - before, line_end - before));
}

/// Where the area of a bin is among those of the first `n`.
proof fn lemma_places_of_areas<K: Kit>(
    m: Model<K>,
    scene: Scene<K>,
    clip: K::Clip,
    index: int,
    bin: int,
    n: int,
)
    requires
        0 <= bin < n <= scene.bins(),
    ensures
        ({
            let place = m.place_of(scene, index);
            let outline = m.outline(scene, place, scene.frames[index]);
            let areas = m.areas(scene, clip, place, outline, n);
            let start = m.place_of_area(scene, clip, index, bin);
            let end = m.place_of_area(scene, clip, index, bin + 1);
            &&& areas.len() == m.place_of_area(scene, clip, index, n)
            &&& 0 <= start <= end <= areas.len()
            &&& areas.subrange(start, end) == m.area_of(scene, clip, index, bin)
        }),
    decreases n,
{
    let place = m.place_of(scene, index);
    let outline = m.outline(scene, place, scene.frames[index]);
    let before = m.areas(scene, clip, place, outline, n - 1);
    let areas = m.areas(scene, clip, place, outline, n);
    let start = m.place_of_area(scene, clip, index, bin);
    let end = m.place_of_area(scene, clip, index, bin + 1);
    assert(outline[n - 1] == m.joint(scene, place, scene.frames[index], n - 1));
    assert(outline[n] == m.joint(scene, place, scene.frames[index], n));
    assert(areas == before + m.area_of(scene, clip, index, n - 1));
    if bin < n - 1 {
        lemma_places_of_areas(m, scene, clip, index, bin, n - 1);
        assert(areas.subrange(start, end) =~= before.subrange(start, end));
    } else {
        if n - 1 > 0 {
            lemma_places_of_areas(m, scene, clip, index, n - 2, n - 1);
        }
        assert(areas.subrange(start, end) =~= m.area_of(scene, clip, index, bin));
    }
}

/// Where the line along a bin is among those of the first `n`, behind all areas.
proof fn lemma_places_of_lines<K: Kit>(
    m: Model<K>,
    scene: Scene<K>,
    clip: K::Clip,
    index: int,
    bin: int,
    n: int,
)
    requires
        0 <= bin < n <= scene.bins(),
    ensures
        ({
            let place = m.place_of(scene, index);
            let outline = m.outline(scene, place, scene.frames[index]);
            let lines = m.ridge_lines(scene, clip, place, outline, n);
            let first = m.place_of_line(scene, clip, index, 0);
            let start = m.place_of_line(scene, clip, index, bin) - first;
            let end = m.place_of_line(scene, clip, index, bin + 1) - first;
            &&& lines.len() == m.place_of_line(scene, clip, index, n) - first
            &&& 0 <= start <= end <= lines.len()
            &&& lines.subrange(start, end) == m.line_of(scene, clip, index, bin)
        }),
    decreases n,
{
    let place = m.place_of(scene, index);
    let outline = m.outline(scene, place, scene.frames[index]);
    let before = m.ridge_lines(scene, clip, place, outline, n - 1);
    let lines = m.ridge_lines(scene, clip, place, outline, n);
    let first = m.place_of_line(scene, clip, index, 0);
    let start = m.place_of_line(scene, clip, index, bin) - first;
    let end = m.place_of_line(scene, clip, index, bin + 1) - first;
    assert(outline[n - 1] == m.joint(scene, place, scene.frames[index], n - 1));
    assert(outline[n] == m.joint(scene, place, scene.frames[index], n));
    assert(lines == before + m.line_of(scene, clip, index, n - 1));
    if bin < n - 1 {
        lemma_places_of_lines(m, scene, clip, index, bin, n - 1);
        assert(lines.subrange(start, end) =~= before.subrange(start, end));
    } else {
        if n - 1 > 0 {
            lemma_places_of_lines(m, scene, clip, index, n - 2, n - 1);
        }
        assert(lines.subrange(start, end) =~= m.line_of(scene, clip, index, bin));
    }
}

/// The area below a frame has no gaps: where the area of one bin ends, that of the next
/// begins, with the same corners in the same colors.
pub proof fn law_areas_meet<K: Kit>(
    m: Model<K>,
    scene: Scene<K>,
    clip: K::Clip,
    place: Placement<K::Num>,
    left: Joint<K::Num>,
    middle: Joint<K::Num>,
    right: Joint<K::Num>,
)
    requires
        m.area(scene, clip, place, left, middle).len() > 0,
        m.area(scene, clip, place, middle, right).len() > 0,
    ensures
        ({
            let area = m.area(scene, clip, place, left, middle);
            let next = m.area(scene, clip, place, middle, right);
            &&& area.len() == 6
            &&& next.len() == 6
            &&& area[5] == next[0]
            &&& area[2] == next[1]
        }),
{
}

/// The corners of an area: two triangles between the floor of the frame and its levels, in
/// the colors of the levels at the top and clear at the floor.
pub proof fn law_areas_stand_on_the_floor<K: Kit>(
    m: Model<K>,
    v: Reading<K>,
    scene: Scene<K>,
    clip: K::Clip,
    place: Placement<K::Num>,
    left: Joint<K::Num>,
    right: Joint<K::Num>,
)
    requires
        m.is_exact(v),
        m.area(scene, clip, place, left, right).len() > 0,
    ensures
        ({
            let area = m.area(scene, clip, place, left, right);
            let vertical = scene.vertical();
            &&& area.len() == 6
            &&& area[0] == area[3]
            &&& area[2] == area[4]
            &&& area[0].position == m.to_clip(clip, on_screen(vertical, left.along, left.ridge))
            &&& area[5].position == m.to_clip(clip, on_screen(vertical, right.along, right.ridge))
            &&& area[1].position == m.to_clip(clip, on_screen(vertical, left.along, place.floor))
            &&& area[2].position == m.to_clip(clip, on_screen(vertical, right.along, place.floor))
            &&& v.num(area[1].color.a) == 0 as real
            &&& v.num(area[2].color.a) == 0 as real
            &&& is_faded(v, area[0].color, m.gradient(scene.palette, left.amp), v.num(place.alpha))
            &&& is_faded(v, area[5].color, m.gradient(scene.palette, right.amp), v.num(place.alpha))
        }),
{
    lemma_units(m, v);
}

/// Whether a color is that of the palette, with its opacity multiplied by `part`.
pub open spec fn is_faded<K: Kit>(
    v: Reading<K>,
    color: Rgba<K::Num>,
    of_palette: Rgba<K::Num>,
    part: real,
) -> bool {
    &&& color.r == of_palette.r
    &&& color.g == of_palette.g
    &&& color.b == of_palette.b
    &&& v.num(color.a) == v.num(of_palette.a) * part
}

/// Whether a component is 1.35 times that of the palette, but at most one.
pub open spec fn is_brighter<K: Kit>(v: Reading<K>, part: K::Num, of_palette: K::Num) -> bool {
    let bright = v.num(of_palette) * (135 as real);
    v.num(part) * (100 as real) == (if bright > 100 as real {
        100 as real
    } else {
        bright
    })
}

/// A line along the levels glows: its colors are those of the palette brightened by 35
/// hundredths, and at most full, at nine tenths of the opacity of the frame. This is so in
/// exact arithmetic.
pub proof fn law_ridge_lines_glow<K: Kit>(
    m: Model<K>,
    v: Reading<K>,
    scene: Scene<K>,
    clip: K::Clip,
    place: Placement<K::Num>,
    left: Joint<K::Num>,
    right: Joint<K::Num>,
    corner: int,
)
    requires
        m.is_exact(v),
        m.is_exact_size(v),
        0 <= corner < m.ridge_line(scene, clip, place, left, right).len(),
    ensures
        ({
            let color = m.ridge_line(scene, clip, place, left, right)[corner].color;
            let amp = if corner == 0 || corner == 1 || corner == 3 {
                left.amp
            } else {
                right.amp
            };
            let c = m.gradient(scene.palette, amp);
            &&& m.ridge_line(scene, clip, place, left, right).len() == 6
            &&& is_brighter(v, color.r, c.r)
            &&& is_brighter(v, color.g, c.g)
            &&& is_brighter(v, color.b, c.b)
            &&& v.num(color.a) * (10 as real) == v.num(c.a) * v.num(place.alpha) * (9 as real)
        }),
{
    let color = m.ridge_line(scene, clip, place, left, right)[corner].color;
    let amp = if corner == 0 || corner == 1 || corner == 3 {
        left.amp
    } else {
        right.amp
    };
    let c = m.gradient(scene.palette, amp);
    lemma_units(m, v);
    lemma_fraction(m, v, 135, 100);
    lemma_fraction(m, v, 9, 10);
    let alpha = m.times(place.alpha, m.ratio(9, 10));
    assert(color == m.ridge_color(scene.palette, amp, alpha));
    let a = v.num(c.a);
    let p = v.num(place.alpha);
    let part = v.num(m.ratio(9, 10));
    assert(v.num(color.a) == a * (p * part));
    assert(a * (p * part) * (10 as real) == a * p * (9 as real)) by (nonlinear_arith)
        requires
            part == (9 as real) / (10 as real),
    ;
    lemma_brighter(m, v, c.r);
    lemma_brighter(m, v, c.g);
    lemma_brighter(m, v, c.b);
}

/// A component is brightened by 35 hundredths, up to one.
proof fn lemma_brighter<K: Kit>(m: Model<K>, v: Reading<K>, x: K::Num)
    requires
        m.is_exact(v),
        m.is_exact_size(v),
    ensures
        is_brighter(v, m.smaller(m.times(x, m.ratio(135, 100)), m.one()), x),
{
    let a = v.num(x);
    let f = v.num(m.ratio(135, 100));
    lemma_units(m, v);
    lemma_fraction(m, v, 135, 100);
    assert(a * f * (100 as real) == a * (135 as real)) by (nonlinear_arith)
        requires
            f == (135 as real) / (100 as real),
    ;
}

/// Whether `at` is the clip position of a point half a pixel from `of`, across the way
/// `(dx, dy)`: on the side that the way points to once it is turned by a quarter, from the
/// first axis toward the second, where `turned`, else on the other.
pub open spec fn is_beside<K: Kit>(
    m: Model<K>,
    v: Reading<K>,
    clip: K::Clip,
    at: Point<K::Num>,
    of: Point<K::Num>,
    dx: real,
    dy: real,
    turned: bool,
) -> bool {
    exists|p: Point<K::Num>|
        {
            let x = v.num(p.x) - v.num(of.x);
            let y = v.num(p.y) - v.num(of.y);
            &&& at == #[trigger] m.to_clip(clip, p)
            &&& x * dx + y * dy == 0 as real
            &&& (x * x + y * y) * (4 as real) == 1 as real
            &&& turned ==> y * dx - x * dy >= 0 as real
            &&& !turned ==> y * dx - x * dy <= 0 as real
        }
}

/// A line runs along the levels from one joint to the next, one pixel wide: each of its ends
/// has a corner half a pixel to either side of the joint, across the line. This is so in
/// exact arithmetic, of lines that have some length.
pub proof fn law_ridge_lines_follow_the_levels<K: Kit>(
    m: Model<K>,
    v: Reading<K>,
    scene: Scene<K>,
    clip: K::Clip,
    place: Placement<K::Num>,
    left: Joint<K::Num>,
    right: Joint<K::Num>,
)
    requires
        m.is_exact(v),
        m.ridge_line(scene, clip, place, left, right).len() > 0,
        ({
            let from = on_screen(scene.vertical(), left.along, left.ridge);
            let to = on_screen(scene.vertical(), right.along, right.ridge);
            let dx = v.num(to.x) - v.num(from.x);
            let dy = v.num(to.y) - v.num(from.y);
            let least = v.num(m.ratio(1, 100000));
            dx * dx + dy * dy >= least * least
        }),
    ensures
        ({
            let line = m.ridge_line(scene, clip, place, left, right);
            let from = on_screen(scene.vertical(), left.along, left.ridge);
            let to = on_screen(scene.vertical(), right.along, right.ridge);
            let dx = v.num(to.x) - v.num(from.x);
            let dy = v.num(to.y) - v.num(from.y);
            &&& line.len() == 6
            &&& line[0] == line[3]
            &&& line[2] == line[4]
            &&& is_beside(m, v, clip, line[0].position, from, dx, dy, true)
            &&& is_beside(m, v, clip, line[1].position, from, dx, dy, false)
            &&& is_beside(m, v, clip, line[5].position, to, dx, dy, true)
            &&& is_beside(m, v, clip, line[2].position, to, dx, dy, false)
        }),
{
    let line = m.ridge_line(scene, clip, place, left, right);
    let from = on_screen(scene.vertical(), left.along, left.ridge);
    let to = on_screen(scene.vertical(), right.along, right.ridge);
    let dx = v.num(to.x) - v.num(from.x);
    let dy = v.num(to.y) - v.num(from.y);
    let n = m.normal(from, to, m.half());
    let x = v.num(n.x);
    let y = v.num(n.y);
    law_ridge_line_is_one_pixel_wide(m, v, from, to);
    lemma_normal_is_turned(m, v, from, to);
    assert((x + x) * dx + (y + y) * dy == 0 as real);
    assert(x * dx + y * dy == 0 as real && (-x) * dx + (-y) * dy == 0 as real)
        by (nonlinear_arith)
        requires
            (x + x) * dx + (y + y) * dy == 0 as real,
    ;
    assert((x * x + y * y) * (4 as real) == 1 as real && ((-x) * (-x) + (-y) * (-y)) * (4 as real)
        == 1 as real) by (nonlinear_arith)
        requires
            (x + x) * (x + x) + (y + y) * (y + y) == 1 as real,
    ;
    assert((-y) * dx - (-x) * dy <= 0 as real) by (nonlinear_arith)
        requires
            y * dx - x * dy >= 0 as real,
    ;
    let from_turned = Point { x: m.plus(from.x, n.x), y: m.plus(from.y, n.y) };
    let from_other = Point { x: m.minus(from.x, n.x), y: m.minus(from.y, n.y) };
    let to_turned = Point { x: m.plus(to.x, n.x), y: m.plus(to.y, n.y) };
    let to_other = Point { x: m.minus(to.x, n.x), y: m.minus(to.y, n.y) };
    assert(line[0].position == m.to_clip(clip, from_turned));
    assert(line[1].position == m.to_clip(clip, from_other));
    assert(line[5].position == m.to_clip(clip, to_turned));
    assert(line[2].position == m.to_clip(clip, to_other));
}

/// The way across a line is the line turned by a quarter.
proof fn lemma_normal_is_turned<K: Kit>(
    m: Model<K>,
    v: Reading<K>,
    from: Point<K::Num>,
    to: Point<K::Num>,
)
    requires
        m.is_exact(v),
    ensures
        ({
            let dx = v.num(to.x) - v.num(from.x);
            let dy = v.num(to.y) - v.num(from.y);
            let n = m.normal(from, to, m.half());
            v.num(n.y) * dx - v.num(n.x) * dy >= 0 as real
        }),
{
    let dx = v.num(to.x) - v.num(from.x);
    let dy = v.num(to.y) - v.num(from.y);
    let n = m.normal(from, to, m.half());
    let a = m.minus(to.x, from.x);
    let b = m.minus(to.y, from.y);
    let sum = m.plus(m.times(a, a), m.times(b, b));
    let length = v.num(m.larger(m.sqrt(sum), m.ratio(1, 100000)));
    let half = (1 as real) / (2 as real);
    lemma_units(m, v);
    lemma_fraction(m, v, 1, 100000);
    assert(length > 0 as real);
    let x = v.num(n.x);
    let y = v.num(n.y);
    assert(x == -dy / length * half);
    assert(y == dx / length * half);
    assert(y * dx - x * dy >= 0 as real) by (nonlinear_arith)
        requires
            length > 0 as real,
            half == (1 as real) / (2 as real),
            x == -dy / length * half,
            y == dx / length * half,
    ;
}

/// Nothing is drawn where there is nothing to see, and all else is: an area is left out
/// where both of its opacities are below five thousandths, and a line where both of its
/// levels are below two hundredths. This is so in exact arithmetic.
pub proof fn law_only_the_invisible_is_left_out<K: Kit>(
    m: Model<K>,
    v: Reading<K>,
    scene: Scene<K>,
    clip: K::Clip,
    place: Placement<K::Num>,
    left: Joint<K::Num>,
    right: Joint<K::Num>,
)
    requires
        m.is_exact(v),
        m.is_exact_order(v),
    ensures
        ({
            let alpha = v.num(place.alpha);
            let left_opacity = v.num(m.gradient(scene.palette, left.amp).a) * alpha;
            let right_opacity = v.num(m.gradient(scene.palette, right.amp).a) * alpha;
            let faint = (5 as real) / (1000 as real);
            let low = (2 as real) / (100 as real);
            &&& m.area(scene, clip, place, left, right).len() == 0 <==> left_opacity < faint
                && right_opacity < faint
            &&& m.ridge_line(scene, clip, place, left, right).len() == 0 <==> v.num(left.amp) < low
                && v.num(right.amp) < low
        }),
{
    lemma_fraction(m, v, 5, 1000);
    lemma_fraction(m, v, 2, 100);
}

/// Levels rise from the floor of their frame toward the upper edge, or the left one where
/// frequencies run along the vertical, by their part of the rise of the frame. Where two
/// bins meet the level is half way between theirs. This is so in exact arithmetic.
pub proof fn law_levels_rise_from_the_floor<K: Kit>(
    m: Model<K>,
    v: Reading<K>,
    scene: Scene<K>,
    place: Placement<K::Num>,
    frame: Seq<K::Num>,
    joint: int,
)
    requires
        m.is_exact(v),
        0 <= joint <= scene.bins() <= frame.len(),
    ensures
        ({
            let at = m.joint(scene, place, frame, joint);
            let bins = scene.bins();
            let lower = if joint == 0 {
                0
            } else {
                joint - 1
            };
            let upper = if joint == bins {
                bins - 1
            } else {
                joint
            };
            let below = if scene.reversed() {
                frame[bins - 1 - lower]
            } else {
                frame[lower]
            };
            let above = if scene.reversed() {
                frame[bins - 1 - upper]
            } else {
                frame[upper]
            };
            &&& v.num(at.amp) * (2 as real) == v.num(below) + v.num(above)
            &&& v.num(place.floor) - v.num(at.ridge) == v.num(place.rise) * v.num(at.amp)
        }),
{
    lemma_units(m, v);
}

/// The rotation says where the lowest bin of the newest frame is: at the left edge for none,
/// at the lower edge for one, at the right edge for two and at the upper edge for three, and
/// so on from there. Older frames recede across that. This is so in exact arithmetic.
pub proof fn law_the_rotation_places_the_lowest_bin<K: Kit>(
    m: Model<K>,
    v: Reading<K>,
    scene: Scene<K>,
    frame: Seq<K::Num>,
    shrinkage: K::Num,
)
    requires
        m.is_exact(v),
        0 <= scene.rotation,
        scene.bins() <= frame.len(),
    ensures
        ({
            let turns = scene.rotation % 4;
            let place = m.placement(scene.bounds, scene.vertical(), m.zero(), shrinkage);
            let end = if turns < 2 {
                0
            } else {
                scene.bins()
            };
            let at = m.joint(scene, place, frame, end);
            let point = on_screen(scene.vertical(), at.along, at.ridge);
            let bounds = scene.bounds;
            &&& at.amp == frame[0]
            &&& turns == 0 ==> point.y == at.ridge && v.num(point.x) == v.num(bounds.x)
            &&& turns == 1 ==> point.x == at.ridge && v.num(point.y) == v.num(bounds.y) + v.num(
                bounds.height,
            )
            &&& turns == 2 ==> point.y == at.ridge && v.num(point.x) == v.num(bounds.x) + v.num(
                bounds.width,
            )
            &&& turns == 3 ==> point.x == at.ridge && v.num(point.y) == v.num(bounds.y)
        }),
{
    let turns = scene.rotation % 4;
    let bounds = scene.bounds;
    let bins = scene.bins();
    let n = bins as real;
    let place = m.placement(bounds, scene.vertical(), m.zero(), shrinkage);
    law_joints_divide_the_axis_evenly(m, v, scene, shrinkage, 0);
    law_joints_divide_the_axis_evenly(m, v, scene, shrinkage, bins);
    let first = v.num(m.along(bounds, scene.vertical(), place, 0, bins));
    let last = v.num(m.along(bounds, scene.vertical(), place, bins, bins));
    if scene.vertical() {
        let y = v.num(bounds.y);
        let h = v.num(bounds.height);
        lemma_ends(y + h - first, y + h - last, n, h);
    } else {
        let x = v.num(bounds.x);
        let w = v.num(bounds.width);
        lemma_ends(first - x, last - x, n, w);
    }
}

/// The ends of an axis that is divided into `n` parts.
proof fn lemma_ends(first: real, last: real, n: real, extent: real)
    requires
        n >= 1 as real,
        first * n == (0 as real) * extent,
        last * n == n * extent,
    ensures
        first == 0 as real,
        last == extent,
{
    assert(first == 0 as real && last == extent) by (nonlinear_arith)
        requires
            n >= 1 as real,
            first * n == (0 as real) * extent,
            last * n == n * extent,
    ;
}

} // verus!
