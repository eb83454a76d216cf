//! The picture of a waterfall: frames of levels as ridges that recede into depth.
//!
//! The rotation of the picture says where frequencies and time run:
//!
//! - 0: frequencies along the horizontal, older frames further up;
//! - 1: frequencies along the vertical, low ones at the bottom, older frames further
//!   to the right;
//! - 2: as 0, but reversed, with high frequencies at the left;
//! - 3: as 1, but reversed, with high frequencies at the bottom.
use crate::kit::{Kit, Model, Point, Rgba};
use crate::waterfall::{levels, WaterfallFrame};
use vstd::prelude::*;

verus! {

/// A rectangle on the screen.
#[derive(Debug, Clone, Copy)]
pub struct Bounds<N> {
    /// The left edge.
    pub x: N,
    /// The upper edge.
    pub y: N,
    /// The width.
    pub width: N,
    /// The height.
    pub height: N,
}

/// A corner of a triangle.
#[derive(Debug, Clone, Copy)]
pub struct Vertex<N> {
    /// The position in clip space.
    pub position: Point<N>,
    /// The color.
    pub color: Rgba<N>,
}

/// Where a frame stands in the picture.
#[derive(Debug, Clone, Copy)]
pub struct Placement<N> {
    /// The scale of the frame: one at the front, smaller further back.
    pub scale: N,
    /// The opacity of the frame: one at the front, less further back.
    pub alpha: N,
    /// The frequency coordinate of the vanishing point.
    pub vanish: N,
    /// The depth coordinate of level zero.
    pub floor: N,
    /// The extent of level one along the depth axis.
    pub rise: N,
}

/// A point of a frame's outline, where two bins meet.
#[derive(Debug, Clone, Copy)]
pub struct Joint<N> {
    /// The frequency coordinate.
    pub along: N,
    /// The level.
    pub amp: N,
    /// The depth coordinate of the level.
    pub ridge: N,
}

/// What a waterfall picture shows.
#[derive(Debug, Clone)]
#[verifier::reject_recursive_types(K)]
pub struct WaterfallParams<K: Kit> {
    /// Where the picture is.
    pub bounds: Bounds<K::Num>,
    /// The frames, oldest first.
    pub frames: Vec<WaterfallFrame<K::Num>>,
    /// The bins of a frame that are shown.
    pub num_bins: usize,
    /// The colors of the levels.
    pub palette: Vec<Rgba<K::Num>>,
    /// The perspective: zero is flat, one full depth.
    pub perspective: K::Num,
    /// The rotation, of which there are four.
    pub rotation: u32,
    /// What tells this picture from others.
    pub key: u64,
}

/// What a waterfall picture shows, as mathematical values.
#[verifier::reject_recursive_types(K)]
pub ghost struct Scene<K: Kit> {
    /// Where the picture is.
    pub bounds: Bounds<K::Num>,
    /// The frames, oldest first.
    pub frames: Seq<Seq<K::Num>>,
    /// The bins of a frame that are shown, as asked for.
    pub num_bins: int,
    /// The colors of the levels.
    pub palette: Seq<Rgba<K::Num>>,
    /// The perspective.
    pub perspective: K::Num,
    /// The rotation.
    pub rotation: int,
}

impl<K: Kit> View for WaterfallParams<K> {
    type V = Scene<K>;

    open spec fn view(&self) -> Scene<K> {
        Scene {
            bounds: self.bounds,
            frames: levels(self.frames@),
            num_bins: self.num_bins as int,
            palette: self.palette@,
            perspective: self.perspective,
            rotation: self.rotation as int,
        }
    }
}

impl<K: Kit> Scene<K> {
    /// The bins of a frame that are shown: at least one.
    pub open spec fn bins(self) -> int {
        if self.num_bins < 1 {
            1
        } else {
            self.num_bins
        }
    }

    /// The frames among the first `n` that are drawn: those with enough bins.
    pub open spec fn drawn(self, n: int) -> int
        decreases n,
    {
        if n <= 0 {
            0
        } else if self.frames[n - 1].len() < self.bins() {
            self.drawn(n - 1)
        } else {
            self.drawn(n - 1) + 1
        }
    }

    /// Whether frequencies run along the vertical.
    pub open spec fn vertical(self) -> bool {
        self.rotation % 2 == 1
    }

    /// Whether the frequencies are reversed.
    pub open spec fn reversed(self) -> bool {
        self.rotation % 4 >= 2
    }
}

/// The bin that stands at place `i` of the frequency axis.
pub open spec fn bin_at(i: int, bins: int, reversed: bool) -> int {
    if reversed {
        bins - 1 - i
    } else {
        i
    }
}

/// The screen position of a frequency and a depth coordinate.
pub open spec fn on_screen<N>(vertical: bool, along: N, depth: N) -> Point<N> {
    if vertical {
        Point { x: depth, y: along }
    } else {
        Point { x: along, y: depth }
    }
}

impl<K: Kit> Model<K> {
    /// Whether these functions account for what a picture is drawn with.
    pub open spec fn describes_picture(self) -> bool {
        &&& self.describes_arithmetic()
        &&& self.describes_order()
        &&& self.describes_extremes()
        &&& self.describes_drawing()
    }

    /// How deep in the picture frame `index` of `count` is: zero for the newest, one
    /// for the oldest.
    pub open spec fn depth(self, index: int, count: int) -> K::Num {
        self.minus(
            self.one(),
            self.over(
                self.count(index),
                self.count(
                    if count - 1 < 1 {
                        1
                    } else {
                        count - 1
                    },
                ),
            ),
        )
    }

    /// How fast frames shrink with depth.
    pub open spec fn shrinkage(self, perspective: K::Num) -> K::Num {
        self.times(self.clamp(perspective, self.zero(), self.one()), self.ratio(5, 1))
    }

    /// Where a frame at depth `depth` stands.
    pub open spec fn placement(
        self,
        bounds: Bounds<K::Num>,
        vertical: bool,
        depth: K::Num,
        shrinkage: K::Num,
    ) -> Placement<K::Num> {
        let scale = self.over(self.one(), self.plus(self.one(), self.times(depth, shrinkage)));
        let alpha = self.minus(self.one(), self.times(depth, self.ratio(55, 100)));
        if vertical {
            let far = self.plus(
                bounds.x,
                self.times(bounds.width, self.minus(self.one(), self.ratio(4, 100))),
            );
            Placement {
                scale,
                alpha,
                vanish: self.plus(bounds.y, self.times(self.half(), bounds.height)),
                floor: self.minus(far, self.times(self.minus(far, bounds.x), scale)),
                rise: self.times(self.times(bounds.width, self.ratio(52, 100)), scale),
            }
        } else {
            let far = self.plus(bounds.y, self.times(bounds.height, self.ratio(4, 100)));
            let near = self.plus(bounds.y, bounds.height);
            Placement {
                scale,
                alpha,
                vanish: self.plus(bounds.x, self.times(self.half(), bounds.width)),
                floor: self.plus(far, self.times(self.minus(near, far), scale)),
                rise: self.times(self.times(bounds.height, self.ratio(52, 100)), scale),
            }
        }
    }

    /// The frequency coordinate of joint `joint`, drawn toward the vanishing point.
    pub open spec fn along(
        self,
        bounds: Bounds<K::Num>,
        vertical: bool,
        place: Placement<K::Num>,
        joint: int,
        bins: int,
    ) -> K::Num {
        let t = self.over(self.count(joint), self.count(bins));
        let flat = if vertical {
            self.plus(bounds.y, self.times(self.minus(self.one(), t), bounds.height))
        } else {
            self.plus(bounds.x, self.times(t, bounds.width))
        };
        self.plus(place.vanish, self.times(self.minus(flat, place.vanish), place.scale))
    }

    /// The level at joint `joint`: the mean of the bins that meet there.
    pub open spec fn level_at(
        self,
        frame: Seq<K::Num>,
        reversed: bool,
        joint: int,
        bins: int,
    ) -> K::Num {
        if joint == 0 {
            frame[bin_at(0, bins, reversed)]
        } else if joint == bins {
            frame[bin_at(bins - 1, bins, reversed)]
        } else {
            self.times(
                self.plus(
                    frame[bin_at(joint - 1, bins, reversed)],
                    frame[bin_at(joint, bins, reversed)],
                ),
                self.half(),
            )
        }
    }

    /// Joint `joint` of a frame's outline.
    pub open spec fn joint(
        self,
        scene: Scene<K>,
        place: Placement<K::Num>,
        frame: Seq<K::Num>,
        joint: int,
    ) -> Joint<K::Num> {
        let amp = self.level_at(frame, scene.reversed(), joint, scene.bins());
        Joint {
            along: self.along(scene.bounds, scene.vertical(), place, joint, scene.bins()),
            amp,
            ridge: self.minus(place.floor, self.times(place.rise, amp)),
        }
    }

    /// The outline of a frame: a joint more than it has bins.
    pub open spec fn outline(
        self,
        scene: Scene<K>,
        place: Placement<K::Num>,
        frame: Seq<K::Num>,
    ) -> Seq<Joint<K::Num>> {
        Seq::new((scene.bins() + 1) as nat, |j: int| self.joint(scene, place, frame, j))
    }

    /// The color that the area below a level has there.
    pub open spec fn amp_color(
        self,
        palette: Seq<Rgba<K::Num>>,
        amp: K::Num,
        alpha: K::Num,
    ) -> Rgba<K::Num> {
        let c = self.gradient(palette, amp);
        Rgba { a: self.times(c.a, alpha), ..c }
    }

    /// The color that the line along a level has: brighter than the area below it.
    pub open spec fn ridge_color(
        self,
        palette: Seq<Rgba<K::Num>>,
        amp: K::Num,
        alpha: K::Num,
    ) -> Rgba<K::Num> {
        let c = self.gradient(palette, amp);
        Rgba {
            r: self.smaller(self.times(c.r, self.ratio(135, 100)), self.one()),
            g: self.smaller(self.times(c.g, self.ratio(135, 100)), self.one()),
            b: self.smaller(self.times(c.b, self.ratio(135, 100)), self.one()),
            a: self.times(c.a, alpha),
        }
    }

    /// A corner of the given color.
    pub open spec fn corner(
        self,
        clip: K::Clip,
        at: Point<K::Num>,
        color: Rgba<K::Num>,
    ) -> Vertex<K::Num> {
        Vertex { position: self.to_clip(clip, at), color }
    }

    /// The area between the floor and the outline, from one joint to the next, as two
    /// triangles; nothing where both of its colors are all but invisible.
    pub open spec fn area(
        self,
        scene: Scene<K>,
        clip: K::Clip,
        place: Placement<K::Num>,
        left: Joint<K::Num>,
        right: Joint<K::Num>,
    ) -> Seq<Vertex<K::Num>> {
        let left_color = self.amp_color(scene.palette, left.amp, place.alpha);
        let right_color = self.amp_color(scene.palette, right.amp, place.alpha);
        let clear = Rgba { r: self.zero(), g: self.zero(), b: self.zero(), a: self.zero() };
        let v = scene.vertical();
        let top_left = self.corner(clip, on_screen(v, left.along, left.ridge), left_color);
        let top_right = self.corner(clip, on_screen(v, right.along, right.ridge), right_color);
        let low_left = self.corner(clip, on_screen(v, left.along, place.floor), clear);
        let low_right = self.corner(clip, on_screen(v, right.along, place.floor), clear);
        if self.less(left_color.a, self.ratio(5, 1000)) && self.less(
            right_color.a,
            self.ratio(5, 1000),
        ) {
            seq![]
        } else {
            seq![top_left, low_left, low_right, top_left, low_right, top_right]
        }
    }

    /// The way from a straight line to its edge, across it: `half_width` long.
    pub open spec fn normal(
        self,
        from: Point<K::Num>,
        to: Point<K::Num>,
        half_width: K::Num,
    ) -> Point<K::Num> {
        let dx = self.minus(to.x, from.x);
        let dy = self.minus(to.y, from.y);
        let length = self.larger(
            self.sqrt(self.plus(self.times(dx, dx), self.times(dy, dy))),
            self.ratio(1, 100000),
        );
        Point {
            x: self.times(self.over(self.negate(dy), length), half_width),
            y: self.times(self.over(dx, length), half_width),
        }
    }

    /// A straight line as two triangles, `half_width` to either side of it.
    pub open spec fn line(
        self,
        clip: K::Clip,
        from: Point<K::Num>,
        to: Point<K::Num>,
        from_color: Rgba<K::Num>,
        to_color: Rgba<K::Num>,
        half_width: K::Num,
    ) -> Seq<Vertex<K::Num>> {
        let normal = self.normal(from, to, half_width);
        let nx = normal.x;
        let ny = normal.y;
        let from_upper = self.corner(
            clip,
            Point { x: self.plus(from.x, nx), y: self.plus(from.y, ny) },
            from_color,
        );
        let from_lower = self.corner(
            clip,
            Point { x: self.minus(from.x, nx), y: self.minus(from.y, ny) },
            from_color,
        );
        let to_upper = self.corner(
            clip,
            Point { x: self.plus(to.x, nx), y: self.plus(to.y, ny) },
            to_color,
        );
        let to_lower = self.corner(
            clip,
            Point { x: self.minus(to.x, nx), y: self.minus(to.y, ny) },
            to_color,
        );
        seq![from_upper, from_lower, to_lower, from_upper, to_lower, to_upper]
    }

    /// The line along the outline from one joint to the next, one pixel wide; nothing
    /// where both levels are all but zero.
    pub open spec fn ridge_line(
        self,
        scene: Scene<K>,
        clip: K::Clip,
        place: Placement<K::Num>,
        left: Joint<K::Num>,
        right: Joint<K::Num>,
    ) -> Seq<Vertex<K::Num>> {
        let alpha = self.times(place.alpha, self.ratio(9, 10));
        if self.less(left.amp, self.ratio(2, 100)) && self.less(right.amp, self.ratio(2, 100)) {
            seq![]
        } else {
            self.line(
                clip,
                on_screen(scene.vertical(), left.along, left.ridge),
                on_screen(scene.vertical(), right.along, right.ridge),
                self.ridge_color(scene.palette, left.amp, alpha),
                self.ridge_color(scene.palette, right.amp, alpha),
                self.half(),
            )
        }
    }

    /// The areas below the first `n` bins of an outline.
    pub open spec fn areas(
        self,
        scene: Scene<K>,
        clip: K::Clip,
        place: Placement<K::Num>,
        outline: Seq<Joint<K::Num>>,
        n: int,
    ) -> Seq<Vertex<K::Num>>
        decreases n,
    {
        if n <= 0 {
            seq![]
        } else {
            self.areas(scene, clip, place, outline, n - 1) + self.area(
                scene,
                clip,
                place,
                outline[n - 1],
                outline[n],
            )
        }
    }

    /// The lines along the first `n` bins of an outline.
    pub open spec fn ridge_lines(
        self,
        scene: Scene<K>,
        clip: K::Clip,
        place: Placement<K::Num>,
        outline: Seq<Joint<K::Num>>,
        n: int,
    ) -> Seq<Vertex<K::Num>>
        decreases n,
    {
        if n <= 0 {
            seq![]
        } else {
            self.ridge_lines(scene, clip, place, outline, n - 1) + self.ridge_line(
                scene,
                clip,
                place,
                outline[n - 1],
                outline[n],
            )
        }
    }

    /// The triangles of frame `index`: its areas, then its lines. A frame with too few
    /// bins has none.
    pub open spec fn frame_vertices(
        self,
        scene: Scene<K>,
        clip: K::Clip,
        index: int,
    ) -> Seq<Vertex<K::Num>> {
        let frame = scene.frames[index];
        let place = self.placement(
            scene.bounds,
            scene.vertical(),
            self.depth(index, scene.frames.len() as int),
            self.shrinkage(scene.perspective),
        );
        let outline = self.outline(scene, place, frame);
        if frame.len() < scene.bins() {
            seq![]
        } else {
            self.areas(scene, clip, place, outline, scene.bins()) + self.ridge_lines(
                scene,
                clip,
                place,
                outline,
                scene.bins(),
            )
        }
    }

    /// The triangles of the first `n` frames.
    pub open spec fn first_frames(self, scene: Scene<K>, clip: K::Clip, n: int) -> Seq<
        Vertex<K::Num>,
    >
        decreases n,
    {
        if n <= 0 {
            seq![]
        } else {
            self.first_frames(scene, clip, n - 1) + self.frame_vertices(scene, clip, n - 1)
        }
    }

    /// The triangles of the picture; none where it has no extent.
    pub open spec fn picture(self, scene: Scene<K>, clip: K::Clip) -> Seq<Vertex<K::Num>> {
        if self.at_most(scene.bounds.width, self.zero()) || self.at_most(
            scene.bounds.height,
            self.zero(),
        ) {
            seq![]
        } else {
            self.first_frames(scene, clip, scene.frames.len() as int)
        }
    }
}

/// Adds two triangles to the end of a list of corners.
fn push_triangles<N: Copy>(verts: &mut Vec<Vertex<N>>, corners: [Vertex<N>; 6])
    ensures
        final(verts)@ == old(verts)@ + corners@,
{
    let ghost before = verts@;
    let mut i: usize = 0;
    while i < 6
        invariant
            i <= 6,
            verts@ == before + corners@.take(i as int),
        decreases 6 - i,
    {
        verts.push(corners[i]);
        i += 1;
    }
    assert(corners@.take(6) =~= corners@);
}

fn on_screen_at<N: Copy>(vertical: bool, along: N, depth: N) -> (r: Point<N>)
    ensures
        r == on_screen(vertical, along, depth),
{
    if vertical {
        Point { x: depth, y: along }
    } else {
        Point { x: along, y: depth }
    }
}

/// A straight line as a thin quad, `half_w` to either side of it.
pub fn thin_line_verts<K: Kit>(
    p0: Point<K::Num>,
    p1: Point<K::Num>,
    c0: Rgba<K::Num>,
    c1: Rgba<K::Num>,
    half_w: K::Num,
    clip: &K::Clip,
) -> (r: [Vertex<K::Num>; 6])
    ensures
        forall|m: Model<K>| #[trigger]
            m.describes_arithmetic() && m.describes_extremes() && m.describes_drawing()
                ==> r@ == m.line(*clip, p0, p1, c0, c1, half_w),
{
    let dx = K::minus(p1.x, p0.x);
    let dy = K::minus(p1.y, p0.y);
    let len = K::larger(
        K::sqrt(K::plus(K::times(dx, dx), K::times(dy, dy))),
        K::ratio(1, 100000),
    );
    let nx = K::times(K::over(K::negate(dy), len), half_w);
    let ny = K::times(K::over(dx, len), half_w);
    let tl = K::to_clip(clip, Point { x: K::plus(p0.x, nx), y: K::plus(p0.y, ny) });
    let bl = K::to_clip(clip, Point { x: K::minus(p0.x, nx), y: K::minus(p0.y, ny) });
    let tr = K::to_clip(clip, Point { x: K::plus(p1.x, nx), y: K::plus(p1.y, ny) });
    let br = K::to_clip(clip, Point { x: K::minus(p1.x, nx), y: K::minus(p1.y, ny) });
    let r = [
        Vertex { position: tl, color: c0 },
        Vertex { position: bl, color: c0 },
        Vertex { position: br, color: c1 },
        Vertex { position: tl, color: c0 },
        Vertex { position: br, color: c1 },
        Vertex { position: tr, color: c1 },
    ];
    assert forall|m: Model<K>| #[trigger]
        m.describes_arithmetic() && m.describes_extremes() && m.describes_drawing() implies
        r@ == m.line(
        *clip,
        p0,
        p1,
        c0,
        c1,
        half_w,
    ) by {
        assert(r@ =~= m.line(*clip, p0, p1, c0, c1, half_w));
    }
    r
}

/// A waterfall picture.
#[verifier::reject_recursive_types(K)]
pub struct WaterfallPrimitive<K: Kit> {
    params: WaterfallParams<K>,
}

impl<K: Kit> WaterfallPrimitive<K> {
    /// What the picture shows.
    pub closed spec fn shown(&self) -> WaterfallParams<K> {
        self.params
    }

    /// A picture of the given frames.
    pub fn new(params: WaterfallParams<K>) -> (r: Self)
        ensures
            r.shown() == params,
    {
        WaterfallPrimitive { params }
    }

    /// What tells this picture from others.
    pub fn key(&self) -> (r: u64)
        ensures
            r == self.shown().key,
    {
        self.params.key
    }

    /// The triangles of the picture: for each frame, from the oldest on, the areas
    /// below its levels and the lines along them.
    pub fn build_vertices(&self, clip: &K::Clip) -> (r: Vec<Vertex<K::Num>>)
        ensures
            r@.len() % 6 == 0,
            r@.len() <= 12 * self.shown()@.bins() * self.shown()@.drawn(
                self.shown()@.frames.len() as int,
            ),
            forall|m: Model<K>| #[trigger]
                m.describes_picture() ==> r@ == m.picture(self.shown()@, *clip),
    {
        let b = self.params.bounds;
        let zero = K::ratio(0, 1);
        let mut verts: Vec<Vertex<K::Num>> = Vec::new();
        if K::at_most(b.width, zero) || K::at_most(b.height, zero) {
            proof {
                let scene = self.shown()@;
                let drawn = scene.drawn(scene.frames.len() as int);
                lemma_drawn_at_most(scene, scene.frames.len() as int);
                assert(0 <= 12 * scene.bins() * drawn) by (nonlinear_arith)
                    requires
                        0 <= scene.bins(),
                        0 <= drawn,
                ;
            }
            return verts;
        }
        let num_frames: usize = self.params.frames.len();
        let shrinkage = K::times(
            K::clamp(self.params.perspective, zero, K::ratio(1, 1)),
            K::ratio(5, 1),
        );
        let ghost scene = self.shown()@;
        let mut i: usize = 0;
        assert(12 * scene.bins() * scene.drawn(0) == 0) by (nonlinear_arith)
            requires
                scene.drawn(0) == 0,
        ;
        while i < num_frames
            invariant
                i <= num_frames == self.params.frames@.len(),
                scene == self.params@,
                scene.frames.len() == num_frames,
                verts@.len() % 6 == 0,
                verts@.len() <= 12 * scene.bins() * scene.drawn(i as int),
                forall|m: Model<K>| #[trigger]
                    m.describes_picture() ==> {
                        &&& shrinkage == m.shrinkage(scene.perspective)
                        &&& verts@ == m.first_frames(scene, *clip, i as int)
                    },
            decreases num_frames - i,
        {
            self.push_frame(&mut verts, i, shrinkage, clip);
            proof {
                let drawn = scene.drawn(i as int);
                assert(12 * scene.bins() * (drawn + 1) == 12 * scene.bins() * drawn + 12
                    * scene.bins()) by (nonlinear_arith);
            }
            i += 1;
        }
        verts
    }

    /// Adds the triangles of a frame.
    fn push_frame(
        &self,
        verts: &mut Vec<Vertex<K::Num>>,
        index: usize,
        shrinkage: K::Num,
        clip: &K::Clip,
    )
        requires
            index < self.shown().frames@.len(),
        ensures
            final(verts)@.len() % 6 == old(verts)@.len() % 6,
            final(verts)@.len() <= old(verts)@.len() + 12 * self.shown()@.bins(),
            self.shown()@.frames[index as int].len() < self.shown()@.bins() ==> final(verts)@
                == old(verts)@,
            forall|m: Model<K>| #[trigger]
                m.describes_picture() && shrinkage == m.shrinkage(self.shown()@.perspective)
                    ==> final(verts)@ == old(verts)@ + m.frame_vertices(
                    self.shown()@,
                    *clip,
                    index as int,
                ),
    {
        let ghost scene = self.params@;
        let ghost before = verts@;
        let num_bins: usize = if self.params.num_bins < 1 {
            1
        } else {
            self.params.num_bins
        };
        assert(scene.frames[index as int] == self.params.frames@[index as int]@);
        let frame: &Vec<K::Num> = &self.params.frames[index];
        if frame.len() < num_bins {
            assert(before + Seq::<Vertex<K::Num>>::empty() =~= before);
            return;
        }
        let num_frames: usize = self.params.frames.len();
        let steps: usize = if num_frames - 1 < 1 {
            1
        } else {
            num_frames - 1
        };
        let depth = K::minus(K::ratio(1, 1), K::over(K::count(index), K::count(steps)));
        let vertical = self.params.rotation % 2 == 1;
        let reversed = self.params.rotation % 4 >= 2;
        let place = placement::<K>(self.params.bounds, vertical, depth, shrinkage);
        let outline = self.make_outline(frame, place, vertical, reversed, num_bins);
        let mut i: usize = 0;
        while i < num_bins
            invariant
                i <= num_bins,
                scene == self.params@,
                num_bins == scene.bins(),
                vertical == scene.vertical(),
                outline@.len() == num_bins + 1,
                verts@.len() % 6 == before.len() % 6,
                verts@.len() <= before.len() + 6 * i,
                forall|m: Model<K>| #[trigger]
                    m.describes_picture() ==> verts@ == before + m.areas(
                        scene,
                        *clip,
                        place,
                        outline@,
                        i as int,
                    ),
            decreases num_bins - i,
        {
            self.push_area(verts, clip, place, vertical, outline[i], outline[i + 1]);
            assert forall|m: Model<K>| #[trigger]
                m.describes_picture() implies verts@ == before + m.areas(
                scene,
                *clip,
                place,
                outline@,
                i + 1,
            ) by {
                assert(verts@ =~= before + m.areas(scene, *clip, place, outline@, i + 1));
            }
            i += 1;
        }
        let ghost filled = verts@;
        let mut j: usize = 0;
        while j < num_bins
            invariant
                j <= num_bins,
                scene == self.params@,
                num_bins == scene.bins(),
                vertical == scene.vertical(),
                outline@.len() == num_bins + 1,
                verts@.len() % 6 == before.len() % 6,
                verts@.len() <= before.len() + 6 * num_bins + 6 * j,
                forall|m: Model<K>| #[trigger]
                    m.describes_picture() ==> verts@ == filled + m.ridge_lines(
                        scene,
                        *clip,
                        place,
                        outline@,
                        j as int,
                    ),
            decreases num_bins - j,
        {
            self.push_ridge(verts, clip, place, vertical, outline[j], outline[j + 1]);
            assert forall|m: Model<K>| #[trigger] m.describes_picture() implies verts@ == filled
                + m.ridge_lines(scene, *clip, place, outline@, j + 1) by {
                assert(verts@ =~= filled + m.ridge_lines(scene, *clip, place, outline@, j + 1));
            }
            j += 1;
        }
        assert forall|m: Model<K>| #[trigger]
            m.describes_picture() && shrinkage == m.shrinkage(scene.perspective) implies
            verts@ == before
            + m.frame_vertices(scene, *clip, index as int) by {
            assert(verts@ =~= before + m.frame_vertices(scene, *clip, index as int));
        }
    }

    /// The outline of a frame.
    fn make_outline(
        &self,
        frame: &Vec<K::Num>,
        place: Placement<K::Num>,
        vertical: bool,
        reversed: bool,
        num_bins: usize,
    ) -> (r: Vec<Joint<K::Num>>)
        requires
            num_bins == self.shown()@.bins(),
            vertical == self.shown()@.vertical(),
            reversed == self.shown()@.reversed(),
            num_bins <= frame@.len(),
        ensures
            r@.len() == num_bins + 1,
            forall|m: Model<K>| #[trigger]
                m.describes_arithmetic() ==> r@ == m.outline(self.shown()@, place, frame@),
    {
        let ghost scene = self.params@;
        let bounds = self.params.bounds;
        let mut r: Vec<Joint<K::Num>> = Vec::new();
        r.push(make_joint::<K>(bounds, frame, place, vertical, reversed, 0, num_bins));
        let mut i: usize = 0;
        while i < num_bins
            invariant
                i <= num_bins,
                scene == self.params@,
                bounds == scene.bounds,
                num_bins == scene.bins(),
                vertical == scene.vertical(),
                reversed == scene.reversed(),
                num_bins <= frame@.len(),
                r@.len() == i + 1,
                forall|m: Model<K>, j: int|
                    #![trigger m.describes_arithmetic(), r@[j]]
                    m.describes_arithmetic() && 0 <= j <= i
                        ==> r@[j] == m.joint(scene, place, frame@, j),
            decreases num_bins - i,
        {
            i += 1;
            r.push(make_joint::<K>(bounds, frame, place, vertical, reversed, i, num_bins));
        }
        assert forall|m: Model<K>| #[trigger] m.describes_arithmetic() implies r@ == m.outline(
            scene,
            place,
            frame@,
        ) by {
            assert(r@ =~= m.outline(scene, place, frame@));
        }
        r
    }

    fn push_area(
        &self,
        verts: &mut Vec<Vertex<K::Num>>,
        clip: &K::Clip,
        place: Placement<K::Num>,
        vertical: bool,
        left: Joint<K::Num>,
        right: Joint<K::Num>,
    )
        requires
            vertical == self.shown()@.vertical(),
        ensures
            final(verts)@.len() == old(verts)@.len() || final(verts)@.len() == old(verts)@.len()
                + 6,
            forall|m: Model<K>| #[trigger]
                m.describes_arithmetic() && m.describes_order() && m.describes_drawing()
                    ==> final(verts)@ == old(verts)@ + m.area(
                    self.shown()@,
                    *clip,
                    place,
                    left,
                    right,
                ),
    {
        let ghost before = verts@;
        let c_l = self.amp_color(left.amp, place.alpha);
        let c_r = self.amp_color(right.amp, place.alpha);
        let faint = K::ratio(5, 1000);
        if K::less(c_l.a, faint) && K::less(c_r.a, faint) {
            assert(before + Seq::<Vertex<K::Num>>::empty() =~= before);
            return;
        }
        let zero = K::ratio(0, 1);
        let clear = Rgba { r: zero, g: zero, b: zero, a: zero };
        let tl = K::to_clip(clip, on_screen_at(vertical, left.along, left.ridge));
        let tr = K::to_clip(clip, on_screen_at(vertical, right.along, right.ridge));
        let bl = K::to_clip(clip, on_screen_at(vertical, left.along, place.floor));
        let br = K::to_clip(clip, on_screen_at(vertical, right.along, place.floor));
        let corners = [
            Vertex { position: tl, color: c_l },
            Vertex { position: bl, color: clear },
            Vertex { position: br, color: clear },
            Vertex { position: tl, color: c_l },
            Vertex { position: br, color: clear },
            Vertex { position: tr, color: c_r },
        ];
        push_triangles(verts, corners);
        assert forall|m: Model<K>| #[trigger]
            m.describes_arithmetic() && m.describes_order() && m.describes_drawing() implies
            verts@ == before + m.area(
            self.params@,
            *clip,
            place,
            left,
            right,
        ) by {
            assert(corners@ =~= m.area(self.params@, *clip, place, left, right));
        }
    }

    fn push_ridge(
        &self,
        verts: &mut Vec<Vertex<K::Num>>,
        clip: &K::Clip,
        place: Placement<K::Num>,
        vertical: bool,
        left: Joint<K::Num>,
        right: Joint<K::Num>,
    )
        requires
            vertical == self.shown()@.vertical(),
        ensures
            final(verts)@.len() == old(verts)@.len() || final(verts)@.len() == old(verts)@.len()
                + 6,
            forall|m: Model<K>| #[trigger]
                m.describes_picture() ==> final(verts)@ == old(verts)@ + m.ridge_line(
                    self.shown()@,
                    *clip,
                    place,
                    left,
                    right,
                ),
    {
        let ghost before = verts@;
        let low = K::ratio(2, 100);
        if K::less(left.amp, low) && K::less(right.amp, low) {
            assert(before + Seq::<Vertex<K::Num>>::empty() =~= before);
            return;
        }
        let alpha = K::times(place.alpha, K::ratio(9, 10));
        let c_l = self.ridge_color(left.amp, alpha);
        let c_r = self.ridge_color(right.amp, alpha);
        let p0 = on_screen_at(vertical, left.along, left.ridge);
        let p1 = on_screen_at(vertical, right.along, right.ridge);
        push_triangles(verts, thin_line_verts::<K>(p0, p1, c_l, c_r, K::ratio(1, 2), clip));
    }

    fn amp_color(&self, amp: K::Num, alpha: K::Num) -> (r: Rgba<K::Num>)
        ensures
            forall|m: Model<K>| #[trigger]
                m.describes_arithmetic() && m.describes_drawing()
                    ==> r == m.amp_color(self.shown()@.palette, amp, alpha),
    {
        let c = K::gradient(&self.params.palette, amp);
        Rgba { r: c.r, g: c.g, b: c.b, a: K::times(c.a, alpha) }
    }

    fn ridge_color(&self, amp: K::Num, alpha: K::Num) -> (r: Rgba<K::Num>)
        ensures
            forall|m: Model<K>| #[trigger]
                m.describes_arithmetic() && m.describes_extremes() && m.describes_drawing()
                    ==> r == m.ridge_color(self.shown()@.palette, amp, alpha),
    {
        let c = K::gradient(&self.params.palette, amp);
        let one = K::ratio(1, 1);
        let gain = K::ratio(135, 100);
        Rgba {
            r: K::smaller(K::times(c.r, gain), one),
            g: K::smaller(K::times(c.g, gain), one),
            b: K::smaller(K::times(c.b, gain), one),
            a: K::times(c.a, alpha),
        }
    }
}

/// Where a frame at depth `depth` stands.
pub fn placement<K: Kit>(
    bounds: Bounds<K::Num>,
    vertical: bool,
    depth: K::Num,
    shrinkage: K::Num,
) -> (r: Placement<K::Num>)
    ensures
        forall|m: Model<K>| #[trigger]
            m.describes_arithmetic() ==> r == m.placement(bounds, vertical, depth, shrinkage),
{
    let one = K::ratio(1, 1);
    let half = K::ratio(1, 2);
    let scale = K::over(one, K::plus(one, K::times(depth, shrinkage)));
    let alpha = K::minus(one, K::times(depth, K::ratio(55, 100)));
    let height = K::ratio(52, 100);
    let offset = K::ratio(4, 100);
    if vertical {
        let far = K::plus(bounds.x, K::times(bounds.width, K::minus(one, offset)));
        Placement {
            scale,
            alpha,
            vanish: K::plus(bounds.y, K::times(half, bounds.height)),
            floor: K::minus(far, K::times(K::minus(far, bounds.x), scale)),
            rise: K::times(K::times(bounds.width, height), scale),
        }
    } else {
        let far = K::plus(bounds.y, K::times(bounds.height, offset));
        let near = K::plus(bounds.y, bounds.height);
        Placement {
            scale,
            alpha,
            vanish: K::plus(bounds.x, K::times(half, bounds.width)),
            floor: K::plus(far, K::times(K::minus(near, far), scale)),
            rise: K::times(K::times(bounds.height, height), scale),
        }
    }
}

fn place_bin(i: usize, bins: usize, reversed: bool) -> (r: usize)
    requires
        i < bins,
    ensures
        r == bin_at(i as int, bins as int, reversed),
        r < bins,
{
    if reversed {
        bins - 1 - i
    } else {
        i
    }
}

/// The level at a joint: the mean of the bins that meet there.
pub fn level_at<K: Kit>(
    frame: &Vec<K::Num>,
    reversed: bool,
    joint: usize,
    bins: usize,
) -> (r: K::Num)
    requires
        1 <= bins <= frame@.len(),
        joint <= bins,
    ensures
        forall|m: Model<K>| #[trigger]
            m.describes_arithmetic()
                ==> r == m.level_at(frame@, reversed, joint as int, bins as int),
{
    if joint == 0 {
        frame[place_bin(0, bins, reversed)]
    } else if joint == bins {
        frame[place_bin(bins - 1, bins, reversed)]
    } else {
        let below = frame[place_bin(joint - 1, bins, reversed)];
        let above = frame[place_bin(joint, bins, reversed)];
        K::times(K::plus(below, above), K::ratio(1, 2))
    }
}

fn make_joint<K: Kit>(
    bounds: Bounds<K::Num>,
    frame: &Vec<K::Num>,
    place: Placement<K::Num>,
    vertical: bool,
    reversed: bool,
    joint: usize,
    bins: usize,
) -> (r: Joint<K::Num>)
    requires
        1 <= bins <= frame@.len(),
        joint <= bins,
    ensures
        forall|m: Model<K>, scene: Scene<K>|
            #![trigger m.describes_arithmetic(), m.joint(scene, place, frame@, joint as int)]
            m.describes_arithmetic() && scene.bounds == bounds && scene.bins() == bins
                && scene.vertical()
                == vertical && scene.reversed() == reversed ==> r == m.joint(
                scene,
                place,
                frame@,
                joint as int,
            ),
{
    let one = K::ratio(1, 1);
    let t = K::over(K::count(joint), K::count(bins));
    let flat = if vertical {
        K::plus(bounds.y, K::times(K::minus(one, t), bounds.height))
    } else {
        K::plus(bounds.x, K::times(t, bounds.width))
    };
    let along = K::plus(place.vanish, K::times(K::minus(flat, place.vanish), place.scale));
    let amp = level_at::<K>(frame, reversed, joint, bins);
    Joint { along, amp, ridge: K::minus(place.floor, K::times(place.rise, amp)) }
}

/// The frames that are drawn are some of all.
pub proof fn lemma_drawn_at_most<K: Kit>(scene: Scene<K>, n: int)
    ensures
        0 <= scene.drawn(n),
        0 <= n ==> scene.drawn(n) <= n,
    decreases n,
{
    if n > 0 {
        lemma_drawn_at_most(scene, n - 1);
    }
}

impl<K: Kit> Model<K> {
    /// Whether two scenes agree on all that a picture depends on.
    pub open spec fn looks_like(self, scene: Scene<K>, other: Scene<K>) -> bool {
        &&& scene.bounds == other.bounds
        &&& scene.palette == other.palette
        &&& scene.bins() == other.bins()
        &&& scene.vertical() == other.vertical()
        &&& scene.reversed() == other.reversed()
        &&& self.shrinkage(scene.perspective) == self.shrinkage(other.perspective)
        &&& scene.frames.len() == other.frames.len()
        &&& forall|i: int|
            0 <= i < scene.frames.len() ==> same_up_to(
                #[trigger] scene.frames[i],
                other.frames[i],
                scene.bins(),
            )
    }
}

/// Whether two frames agree on their first `n` values, or both have fewer.
pub open spec fn same_up_to<N>(frame: Seq<N>, other: Seq<N>, n: int) -> bool {
    &&& frame.len() < n <==> other.len() < n
    &&& forall|i: int| 0 <= i < n <= frame.len() ==> #[trigger] frame[i] == other[i]
}

/// Scenes that agree on all that a picture depends on have the same frames in it.
proof fn lemma_same_frames<K: Kit>(
    m: Model<K>,
    scene: Scene<K>,
    other: Scene<K>,
    clip: K::Clip,
    n: int,
)
    requires
        m.looks_like(scene, other),
        n <= scene.frames.len(),
    ensures
        m.first_frames(scene, clip, n) == m.first_frames(other, clip, n),
    decreases n,
{
    if n > 0 {
        lemma_same_frames(m, scene, other, clip, n - 1);
        let index = n - 1;
        let frame = scene.frames[index];
        let place = m.placement(
            scene.bounds,
            scene.vertical(),
            m.depth(index, scene.frames.len() as int),
            m.shrinkage(scene.perspective),
        );
        assert(same_up_to(frame, other.frames[index], scene.bins()));
        if frame.len() >= scene.bins() {
            assert(m.outline(scene, place, frame) =~= m.outline(other, place, other.frames[index]));
            lemma_same_cells(
                m,
                scene,
                other,
                clip,
                place,
                m.outline(scene, place, frame),
                scene.bins(),
            );
        }
    }
}

proof fn lemma_same_cells<K: Kit>(
    m: Model<K>,
    scene: Scene<K>,
    other: Scene<K>,
    clip: K::Clip,
    place: Placement<K::Num>,
    outline: Seq<Joint<K::Num>>,
    n: int,
)
    requires
        scene.palette == other.palette,
        scene.vertical() == other.vertical(),
    ensures
        m.areas(scene, clip, place, outline, n) == m.areas(other, clip, place, outline, n),
        m.ridge_lines(scene, clip, place, outline, n) == m.ridge_lines(
            other,
            clip,
            place,
            outline,
            n,
        ),
    decreases n,
{
    if n > 0 {
        lemma_same_cells(m, scene, other, clip, place, outline, n - 1);
    }
}

/// Settings out of range act as the nearest that is in range: a perspective outside zero
/// and one as the nearer end, no bins as one, and a rotation as what is left of it when
/// whole turns are taken off.
pub proof fn law_settings_are_brought_into_range<K: Kit>(
    m: Model<K>,
    scene: Scene<K>,
    clip: K::Clip,
)
    requires
        0 <= scene.rotation,
        ({
            let held = m.clamp(scene.perspective, m.zero(), m.one());
            m.clamp(held, m.zero(), m.one()) == held
        }),
    ensures
        m.picture(
            Scene {
                rotation: scene.rotation % 4,
                perspective: m.clamp(scene.perspective, m.zero(), m.one()),
                num_bins: scene.bins(),
                ..scene
            },
            clip,
        ) == m.picture(scene, clip),
{
    let other = Scene {
        rotation: scene.rotation % 4,
        perspective: m.clamp(scene.perspective, m.zero(), m.one()),
        num_bins: scene.bins(),
        ..scene
    };
    lemma_same_frames(m, scene, other, clip, scene.frames.len() as int);
}

impl<K: Kit> Scene<K> {
    /// This scene without the values past the bins that are shown.
    pub open spec fn trimmed(self) -> Scene<K> {
        Scene {
            frames: Seq::new(
                self.frames.len(),
                |i: int|
                    if self.frames[i].len() > self.bins() {
                        self.frames[i].take(self.bins())
                    } else {
                        self.frames[i]
                    },
            ),
            ..self
        }
    }
}

/// Values past the bins that are shown are never read, in any rotation: without them the
/// picture is the same.
pub proof fn law_values_past_the_bins_are_not_read<K: Kit>(
    m: Model<K>,
    scene: Scene<K>,
    clip: K::Clip,
)
    ensures
        m.picture(scene.trimmed(), clip) == m.picture(scene, clip),
{
    lemma_same_frames(m, scene, scene.trimmed(), clip, scene.frames.len() as int);
}

/// There are four rotations: rotations that are a multiple of four apart give the same
/// picture.
pub proof fn law_rotations_repeat<K: Kit>(
    m: Model<K>,
    scene: Scene<K>,
    turns: int,
    clip: K::Clip,
)
    requires
        0 <= scene.rotation,
        0 <= turns,
    ensures
        m.picture(Scene { rotation: scene.rotation + 4 * turns, ..scene }, clip) == m.picture(
            scene,
            clip,
        ),
{
    let other = Scene { rotation: scene.rotation + 4 * turns, ..scene };
    lemma_same_frames(m, scene, other, clip, scene.frames.len() as int);
}

/// Reversal mirrors the levels of a frame along the frequency axis and moves nothing
/// else: two rotations further, each joint is where it was, at the level of the joint
/// opposite to it. The order in which the levels of two neighbours are added must not
/// matter.
pub proof fn law_reversal_mirrors_the_levels<K: Kit>(
    m: Model<K>,
    scene: Scene<K>,
    place: Placement<K::Num>,
    frame: Seq<K::Num>,
    joint: int,
)
    requires
        0 <= scene.rotation,
        0 <= joint <= scene.bins() <= frame.len(),
        0 < joint < scene.bins() ==> ({
            let bin = if scene.reversed() {
                joint
            } else {
                scene.bins() - joint
            };
            m.plus(frame[bin - 1], frame[bin]) == m.plus(frame[bin], frame[bin - 1])
        }),
    ensures
        ({
            let turned = Scene { rotation: scene.rotation + 2, ..scene };
            let here = m.outline(turned, place, frame)[joint];
            &&& turned.vertical() == scene.vertical()
            &&& turned.reversed() == !scene.reversed()
            &&& here.along == m.outline(scene, place, frame)[joint].along
            &&& here.amp == m.outline(scene, place, frame)[scene.bins() - joint].amp
            &&& here.ridge == m.outline(scene, place, frame)[scene.bins() - joint].ridge
        }),
{
}

/// In the rotations that are not reversed the lowest bin is at the first joint, in the
/// others the highest.
pub proof fn law_reversed_begins_high<K: Kit>(
    m: Model<K>,
    scene: Scene<K>,
    place: Placement<K::Num>,
    frame: Seq<K::Num>,
)
    requires
        scene.bins() <= frame.len(),
    ensures
        !scene.reversed() ==> m.outline(scene, place, frame)[0].amp == frame[0],
        scene.reversed() ==> m.outline(scene, place, frame)[0].amp == frame[scene.bins() - 1],
{
}

/// Nothing is drawn of frames that are too short.
pub proof fn law_short_frames_are_skipped<K: Kit>(
    m: Model<K>,
    scene: Scene<K>,
    clip: K::Clip,
    n: int,
)
    requires
        0 <= n <= scene.frames.len(),
        forall|i: int| 0 <= i < n ==> (#[trigger] scene.frames[i]).len() < scene.bins(),
    ensures
        m.first_frames(scene, clip, n) == Seq::<Vertex<K::Num>>::empty(),
    decreases n,
{
    if n > 0 {
        law_short_frames_are_skipped(m, scene, clip, n - 1);
        assert(scene.frames[n - 1].len() < scene.bins());
    }
}

impl<K: Kit> Model<K> {
    /// Whether zero and one behave as in exact arithmetic among themselves.
    pub open spec fn has_exact_units(self) -> bool {
        &&& self.minus(self.one(), self.one()) == self.zero()
        &&& self.minus(self.one(), self.zero()) == self.one()
        &&& self.plus(self.one(), self.zero()) == self.one()
        &&& self.over(self.one(), self.one()) == self.one()
    }

    /// Whether the way from the back edge of the picture to the front edge is exact:
    /// going all of it ends at the front edge.
    pub open spec fn spans_exactly(self, bounds: Bounds<K::Num>, vertical: bool) -> bool {
        if vertical {
            let far = self.plus(
                bounds.x,
                self.times(bounds.width, self.minus(self.one(), self.ratio(4, 100))),
            );
            let way = self.minus(far, bounds.x);
            self.times(way, self.one()) == way && self.minus(far, way) == bounds.x
        } else {
            let far = self.plus(bounds.y, self.times(bounds.height, self.ratio(4, 100)));
            let near = self.plus(bounds.y, bounds.height);
            let way = self.minus(near, far);
            self.times(way, self.one()) == way && self.plus(far, way) == near
        }
    }

    /// The depth coordinate of the front edge of the picture.
    pub open spec fn front(self, bounds: Bounds<K::Num>, vertical: bool) -> K::Num {
        if vertical {
            bounds.x
        } else {
            self.plus(bounds.y, bounds.height)
        }
    }
}

/// The newest of several frames stands at full size and opacity, and at the front edge
/// where the way there is exact.
pub proof fn law_newest_frame_is_in_front<K: Kit>(
    m: Model<K>,
    bounds: Bounds<K::Num>,
    vertical: bool,
    shrinkage: K::Num,
    count: int,
)
    requires
        2 <= count,
        m.has_exact_units(),
        m.over(m.count(count - 1), m.count(count - 1)) == m.one(),
        m.times(m.zero(), shrinkage) == m.zero(),
        m.times(m.zero(), m.ratio(55, 100)) == m.zero(),
    ensures
        ({
            let place = m.placement(bounds, vertical, m.depth(count - 1, count), shrinkage);
            &&& place.scale == m.one()
            &&& place.alpha == m.one()
            &&& m.spans_exactly(bounds, vertical) ==> place.floor == m.front(bounds, vertical)
        }),
{
}

/// Without perspective no frame shrinks: all stand at full size, and at the front edge
/// where the way there is exact.
pub proof fn law_no_perspective_is_flat<K: Kit>(
    m: Model<K>,
    bounds: Bounds<K::Num>,
    vertical: bool,
    depth: K::Num,
    perspective: K::Num,
)
    requires
        m.has_exact_units(),
        m.clamp(perspective, m.zero(), m.one()) == m.zero(),
        m.times(m.zero(), m.ratio(5, 1)) == m.zero(),
        m.times(depth, m.zero()) == m.zero(),
    ensures
        ({
            let place = m.placement(bounds, vertical, depth, m.shrinkage(perspective));
            &&& place.scale == m.one()
            &&& m.spans_exactly(bounds, vertical) ==> place.floor == m.front(bounds, vertical)
        }),
{
}

/// The oldest of several frames is at depth one, where zero over a number is zero.
pub proof fn law_oldest_frame_is_deepest<K: Kit>(m: Model<K>, count: int)
    requires
        2 <= count,
        m.has_exact_units(),
        m.over(m.count(0), m.count(count - 1)) == m.zero(),
    ensures
        m.depth(0, count) == m.one(),
{
}

} // verus!
