//! What the surrounding program supplies: its numbers, and the services that are
//! built from them.
//!
//! Every analysis in this crate is generic over a [`Kit`]. A kit's methods carry no
//! contract, so nothing is taken on faith about them. A contract that speaks of a
//! computed number quantifies over every [`Model`] that describes the kit: whenever
//! mathematical functions account for what the kit's methods return, the result is
//! the stated expression over those functions. What a model has to describe comes in
//! parts, so that a contract asks only for those that its function makes use of.
//!
//! There is a model where a method gives one result for the same arguments. Floating
//! point leaves a few things open: the bits of an undefined result, and which of two
//! zeros the larger or the smaller of them is. Numbers are taken as alike up to these.
use vstd::prelude::*;

verus! {

/// The shapes of analysis window that are asked of a kit.
#[derive(Debug, Clone, Copy, PartialEq, Eq, Structural)]
pub enum WindowKind {
    /// The Hann window, used for pitch classes.
    Hann,
    /// The Blackman-Harris window, used for the waterfall.
    BlackmanHarris,
}

/// One bin of a spectrum.
#[derive(Debug, Clone, Copy)]
pub struct Complex<N> {
    /// The real part.
    pub re: N,
    /// The imaginary part.
    pub im: N,
}

/// A color with an opacity.
#[derive(Debug, Clone, Copy)]
pub struct Rgba<N> {
    /// Red.
    pub r: N,
    /// Green.
    pub g: N,
    /// Blue.
    pub b: N,
    /// Opacity.
    pub a: N,
}

/// A position, on the screen or in clip space.
#[derive(Debug, Clone, Copy)]
pub struct Point<N> {
    /// The horizontal coordinate.
    pub x: N,
    /// The vertical coordinate.
    pub y: N,
}

/// The numbers and services of the surrounding program. The methods are expected to
/// return for all arguments.
pub trait Kit: Copy {
    /// The number that samples, levels and coordinates are made of.
    type Num: Copy;

    /// A number of greater precision, for pitch computations.
    type Wide: Copy;

    /// A prepared Fourier transform of one length.
    type Plan;

    /// The map from screen coordinates to clip space.
    type Clip;

    /// The number nearest to `numer / denom`.
    fn ratio(numer: i32, denom: i32) -> Self::Num;

    /// The number nearest to `n`.
    fn count(n: usize) -> Self::Num;

    /// `a + b`.
    fn plus(a: Self::Num, b: Self::Num) -> Self::Num;

    /// `a - b`.
    fn minus(a: Self::Num, b: Self::Num) -> Self::Num;

    /// `a * b`.
    fn times(a: Self::Num, b: Self::Num) -> Self::Num;

    /// `a / b`.
    fn over(a: Self::Num, b: Self::Num) -> Self::Num;

    /// `-a`.
    fn negate(a: Self::Num) -> Self::Num;

    /// `a < b`.
    fn less(a: Self::Num, b: Self::Num) -> bool;

    /// `a <= b`.
    fn at_most(a: Self::Num, b: Self::Num) -> bool;

    /// Whether `a` is neither infinite nor undefined.
    fn is_finite(a: Self::Num) -> bool;

    /// The absolute value.
    fn abs(a: Self::Num) -> Self::Num;

    /// The larger of two numbers.
    fn larger(a: Self::Num, b: Self::Num) -> Self::Num;

    /// The smaller of two numbers.
    fn smaller(a: Self::Num, b: Self::Num) -> Self::Num;

    /// `a`, held between `low` and `high`.
    fn clamp(a: Self::Num, low: Self::Num, high: Self::Num) -> Self::Num;

    /// The square root.
    fn sqrt(a: Self::Num) -> Self::Num;

    /// The square.
    fn square(a: Self::Num) -> Self::Num;

    /// The exponential.
    fn exp(a: Self::Num) -> Self::Num;

    /// The natural logarithm.
    fn ln(a: Self::Num) -> Self::Num;

    /// The binary logarithm.
    fn log2(a: Self::Num) -> Self::Num;

    /// `base` to the power `exponent`.
    fn power(base: Self::Num, exponent: Self::Num) -> Self::Num;

    /// `a` rounded to the nearest index.
    fn round_index(a: Self::Num) -> usize;

    /// `a` rounded down to an index.
    fn floor_index(a: Self::Num) -> usize;

    /// `a` rounded up to an index.
    fn ceil_index(a: Self::Num) -> usize;

    /// `a` in the greater precision.
    fn widen(a: Self::Num) -> Self::Wide;

    /// `a` in the ordinary precision.
    fn narrow(a: Self::Wide) -> Self::Num;

    /// The wide number nearest to `numer / denom`.
    fn wide_ratio(numer: i32, denom: i32) -> Self::Wide;

    /// `a * b` in the greater precision.
    fn wide_times(a: Self::Wide, b: Self::Wide) -> Self::Wide;

    /// `a / b` in the greater precision.
    fn wide_over(a: Self::Wide, b: Self::Wide) -> Self::Wide;

    /// The binary logarithm in the greater precision.
    fn wide_log2(a: Self::Wide) -> Self::Wide;

    /// `base` to the power `exponent` in the greater precision.
    fn wide_power(base: Self::Wide, exponent: Self::Wide) -> Self::Wide;

    /// The least non-negative remainder of `a` by `b` in the greater precision.
    fn wide_remainder(a: Self::Wide, b: Self::Wide) -> Self::Wide;

    /// The sample rate that is taken until a block of audio says otherwise.
    fn default_sample_rate() -> Self::Num;

    /// The level below which nothing is told apart, in decibels.
    fn db_floor() -> Self::Num;

    /// The level of a power in decibels, at least `floor`.
    fn power_to_db(power: Self::Num, floor: Self::Num) -> Self::Num;

    /// The coefficients of an analysis window of `size` samples.
    fn window(kind: WindowKind, size: usize) -> Vec<Self::Num>;

    /// One sample per frame of `channels` interleaved samples.
    fn mixdown(samples: &[Self::Num], channels: usize) -> Vec<Self::Num>;

    /// Prepares the Fourier transform of `size` real samples.
    fn plan(size: usize) -> Self::Plan;

    /// The spectrum of `samples`, or `None` where the transform fails.
    fn transform(plan: &Self::Plan, samples: &Vec<Self::Num>) -> Option<Vec<Complex<Self::Num>>>;

    /// The color at position `t` of a gradient.
    fn gradient(palette: &Vec<Rgba<Self::Num>>, t: Self::Num) -> Rgba<Self::Num>;

    /// A screen position in clip space.
    fn to_clip(clip: &Self::Clip, at: Point<Self::Num>) -> Point<Self::Num>;
}

/// Mathematical functions, one for each method of a [`Kit`].
#[verifier::reject_recursive_types(K)]
pub ghost struct Model<K: Kit> {
    pub ratio: spec_fn(int, int) -> K::Num,
    pub count: spec_fn(int) -> K::Num,
    pub plus: spec_fn(K::Num, K::Num) -> K::Num,
    pub minus: spec_fn(K::Num, K::Num) -> K::Num,
    pub times: spec_fn(K::Num, K::Num) -> K::Num,
    pub over: spec_fn(K::Num, K::Num) -> K::Num,
    pub negate: spec_fn(K::Num) -> K::Num,
    pub less: spec_fn(K::Num, K::Num) -> bool,
    pub at_most: spec_fn(K::Num, K::Num) -> bool,
    pub is_finite: spec_fn(K::Num) -> bool,
    pub abs: spec_fn(K::Num) -> K::Num,
    pub larger: spec_fn(K::Num, K::Num) -> K::Num,
    pub smaller: spec_fn(K::Num, K::Num) -> K::Num,
    pub clamp: spec_fn(K::Num, K::Num, K::Num) -> K::Num,
    pub sqrt: spec_fn(K::Num) -> K::Num,
    pub square: spec_fn(K::Num) -> K::Num,
    pub exp: spec_fn(K::Num) -> K::Num,
    pub ln: spec_fn(K::Num) -> K::Num,
    pub log2: spec_fn(K::Num) -> K::Num,
    pub power: spec_fn(K::Num, K::Num) -> K::Num,
    pub round_index: spec_fn(K::Num) -> int,
    pub floor_index: spec_fn(K::Num) -> int,
    pub ceil_index: spec_fn(K::Num) -> int,
    pub widen: spec_fn(K::Num) -> K::Wide,
    pub narrow: spec_fn(K::Wide) -> K::Num,
    pub wide_ratio: spec_fn(int, int) -> K::Wide,
    pub wide_times: spec_fn(K::Wide, K::Wide) -> K::Wide,
    pub wide_over: spec_fn(K::Wide, K::Wide) -> K::Wide,
    pub wide_log2: spec_fn(K::Wide) -> K::Wide,
    pub wide_power: spec_fn(K::Wide, K::Wide) -> K::Wide,
    pub wide_remainder: spec_fn(K::Wide, K::Wide) -> K::Wide,
    pub default_sample_rate: K::Num,
    pub db_floor: K::Num,
    pub power_to_db: spec_fn(K::Num, K::Num) -> K::Num,
    pub window: spec_fn(WindowKind, int) -> Seq<K::Num>,
    pub mixdown: spec_fn(Seq<K::Num>, int) -> Seq<K::Num>,
    pub plan: spec_fn(int) -> K::Plan,
    pub transform: spec_fn(K::Plan, Seq<K::Num>) -> Option<Seq<Complex<K::Num>>>,
    pub gradient: spec_fn(Seq<Rgba<K::Num>>, K::Num) -> Rgba<K::Num>,
    pub to_clip: spec_fn(K::Clip, Point<K::Num>) -> Point<K::Num>,
}

/// The items of an optional vector.
pub open spec fn view_inside<T>(items: Option<Vec<T>>) -> Option<Seq<T>> {
    match items {
        Some(v) => Some(v@),
        None => None,
    }
}

impl<K: Kit> Model<K> {
    pub open spec fn ratio(self, numer: int, denom: int) -> K::Num {
        (self.ratio)(numer, denom)
    }

    pub open spec fn count(self, n: int) -> K::Num {
        (self.count)(n)
    }

    pub open spec fn plus(self, a: K::Num, b: K::Num) -> K::Num {
        (self.plus)(a, b)
    }

    pub open spec fn minus(self, a: K::Num, b: K::Num) -> K::Num {
        (self.minus)(a, b)
    }

    pub open spec fn times(self, a: K::Num, b: K::Num) -> K::Num {
        (self.times)(a, b)
    }

    pub open spec fn over(self, a: K::Num, b: K::Num) -> K::Num {
        (self.over)(a, b)
    }

    pub open spec fn negate(self, a: K::Num) -> K::Num {
        (self.negate)(a)
    }

    pub open spec fn less(self, a: K::Num, b: K::Num) -> bool {
        (self.less)(a, b)
    }

    pub open spec fn at_most(self, a: K::Num, b: K::Num) -> bool {
        (self.at_most)(a, b)
    }

    pub open spec fn is_finite(self, a: K::Num) -> bool {
        (self.is_finite)(a)
    }

    pub open spec fn abs(self, a: K::Num) -> K::Num {
        (self.abs)(a)
    }

    pub open spec fn larger(self, a: K::Num, b: K::Num) -> K::Num {
        (self.larger)(a, b)
    }

    pub open spec fn smaller(self, a: K::Num, b: K::Num) -> K::Num {
        (self.smaller)(a, b)
    }

    pub open spec fn clamp(self, a: K::Num, low: K::Num, high: K::Num) -> K::Num {
        (self.clamp)(a, low, high)
    }

    pub open spec fn sqrt(self, a: K::Num) -> K::Num {
        (self.sqrt)(a)
    }

    pub open spec fn square(self, a: K::Num) -> K::Num {
        (self.square)(a)
    }

    pub open spec fn exp(self, a: K::Num) -> K::Num {
        (self.exp)(a)
    }

    pub open spec fn ln(self, a: K::Num) -> K::Num {
        (self.ln)(a)
    }

    pub open spec fn log2(self, a: K::Num) -> K::Num {
        (self.log2)(a)
    }

    pub open spec fn power(self, base: K::Num, exponent: K::Num) -> K::Num {
        (self.power)(base, exponent)
    }

    pub open spec fn round_index(self, a: K::Num) -> int {
        (self.round_index)(a)
    }

    pub open spec fn floor_index(self, a: K::Num) -> int {
        (self.floor_index)(a)
    }

    pub open spec fn ceil_index(self, a: K::Num) -> int {
        (self.ceil_index)(a)
    }

    pub open spec fn widen(self, a: K::Num) -> K::Wide {
        (self.widen)(a)
    }

    pub open spec fn narrow(self, a: K::Wide) -> K::Num {
        (self.narrow)(a)
    }

    pub open spec fn wide_ratio(self, numer: int, denom: int) -> K::Wide {
        (self.wide_ratio)(numer, denom)
    }

    pub open spec fn wide_times(self, a: K::Wide, b: K::Wide) -> K::Wide {
        (self.wide_times)(a, b)
    }

    pub open spec fn wide_over(self, a: K::Wide, b: K::Wide) -> K::Wide {
        (self.wide_over)(a, b)
    }

    pub open spec fn wide_log2(self, a: K::Wide) -> K::Wide {
        (self.wide_log2)(a)
    }

    pub open spec fn wide_power(self, base: K::Wide, exponent: K::Wide) -> K::Wide {
        (self.wide_power)(base, exponent)
    }

    pub open spec fn wide_remainder(self, a: K::Wide, b: K::Wide) -> K::Wide {
        (self.wide_remainder)(a, b)
    }

    pub open spec fn power_to_db(self, power: K::Num, floor: K::Num) -> K::Num {
        (self.power_to_db)(power, floor)
    }

    pub open spec fn window(self, kind: WindowKind, size: int) -> Seq<K::Num> {
        (self.window)(kind, size)
    }

    pub open spec fn mixdown(self, samples: Seq<K::Num>, channels: int) -> Seq<K::Num> {
        (self.mixdown)(samples, channels)
    }

    pub open spec fn plan(self, size: int) -> K::Plan {
        (self.plan)(size)
    }

    pub open spec fn transform(self, plan: K::Plan, samples: Seq<K::Num>) -> Option<
        Seq<Complex<K::Num>>,
    > {
        (self.transform)(plan, samples)
    }

    pub open spec fn gradient(self, palette: Seq<Rgba<K::Num>>, t: K::Num) -> Rgba<K::Num> {
        (self.gradient)(palette, t)
    }

    pub open spec fn to_clip(self, clip: K::Clip, at: Point<K::Num>) -> Point<K::Num> {
        (self.to_clip)(clip, at)
    }

    /// Whether these functions account for what `K` returns of the arithmetic of numbers.
    pub open spec fn describes_arithmetic(self) -> bool {
        &&& forall|numer: i32, denom: i32, res: K::Num| #[trigger]
            call_ensures(K::ratio, (numer, denom), res)
                ==> res == self.ratio(numer as int, denom as int)
        &&& forall|n: usize, res: K::Num| #[trigger]
            call_ensures(K::count, (n,), res) ==> res == self.count(n as int)
        &&& forall|a: K::Num, b: K::Num, res: K::Num| #[trigger]
            call_ensures(K::plus, (a, b), res) ==> res == self.plus(a, b)
        &&& forall|a: K::Num, b: K::Num, res: K::Num| #[trigger]
            call_ensures(K::minus, (a, b), res) ==> res == self.minus(a, b)
        &&& forall|a: K::Num, b: K::Num, res: K::Num| #[trigger]
            call_ensures(K::times, (a, b), res) ==> res == self.times(a, b)
        &&& forall|a: K::Num, b: K::Num, res: K::Num| #[trigger]
            call_ensures(K::over, (a, b), res) ==> res == self.over(a, b)
        &&& forall|a: K::Num, res: K::Num| #[trigger]
            call_ensures(K::negate, (a,), res) ==> res == self.negate(a)
        &&& forall|a: K::Num, res: K::Num| #[trigger]
            call_ensures(K::abs, (a,), res) ==> res == self.abs(a)
        &&& forall|a: K::Num, res: K::Num| #[trigger]
            call_ensures(K::sqrt, (a,), res) ==> res == self.sqrt(a)
    }

    /// Whether these functions account for what `K` returns of comparisons, and of rounding
    /// to indices.
    pub open spec fn describes_order(self) -> bool {
        &&& forall|a: K::Num, b: K::Num, res: bool| #[trigger]
            call_ensures(K::less, (a, b), res) ==> res == self.less(a, b)
        &&& forall|a: K::Num, b: K::Num, res: bool| #[trigger]
            call_ensures(K::at_most, (a, b), res) ==> res == self.at_most(a, b)
        &&& forall|a: K::Num, res: bool| #[trigger]
            call_ensures(K::is_finite, (a,), res) ==> res == self.is_finite(a)
        &&& forall|a: K::Num, low: K::Num, high: K::Num, res: K::Num| #[trigger]
            call_ensures(K::clamp, (a, low, high), res) ==> res == self.clamp(a, low, high)
        &&& forall|a: K::Num, res: usize| #[trigger]
            call_ensures(K::round_index, (a,), res) ==> res == self.round_index(a)
        &&& forall|a: K::Num, res: usize| #[trigger]
            call_ensures(K::floor_index, (a,), res) ==> res == self.floor_index(a)
        &&& forall|a: K::Num, res: usize| #[trigger]
            call_ensures(K::ceil_index, (a,), res) ==> res == self.ceil_index(a)
    }

    /// Whether these functions account for what `K` returns of the larger and the smaller
    /// of two numbers.
    pub open spec fn describes_extremes(self) -> bool {
        &&& forall|a: K::Num, b: K::Num, res: K::Num| #[trigger]
            call_ensures(K::larger, (a, b), res) ==> res == self.larger(a, b)
        &&& forall|a: K::Num, b: K::Num, res: K::Num| #[trigger]
            call_ensures(K::smaller, (a, b), res) ==> res == self.smaller(a, b)
    }

    /// Whether these functions account for what `K` returns of powers, exponentials and logarithms.
    pub open spec fn describes_elementary(self) -> bool {
        &&& forall|a: K::Num, res: K::Num| #[trigger]
            call_ensures(K::square, (a,), res) ==> res == self.square(a)
        &&& forall|a: K::Num, res: K::Num| #[trigger]
            call_ensures(K::exp, (a,), res) ==> res == self.exp(a)
        &&& forall|a: K::Num, res: K::Num| #[trigger]
            call_ensures(K::ln, (a,), res) ==> res == self.ln(a)
        &&& forall|a: K::Num, res: K::Num| #[trigger]
            call_ensures(K::log2, (a,), res) ==> res == self.log2(a)
        &&& forall|base: K::Num, exponent: K::Num, res: K::Num| #[trigger]
            call_ensures(K::power, (base, exponent), res) ==> res == self.power(base, exponent)
        &&& forall|a: K::Wide, res: K::Wide| #[trigger]
            call_ensures(K::wide_log2, (a,), res) ==> res == self.wide_log2(a)
        &&& forall|base: K::Wide, exponent: K::Wide, res: K::Wide| #[trigger]
            call_ensures(K::wide_power, (base, exponent), res)
                ==> res == self.wide_power(base, exponent)
    }

    /// Whether these functions account for what `K` returns of the arithmetic of the greater
    /// precision.
    pub open spec fn describes_wide(self) -> bool {
        &&& forall|a: K::Num, res: K::Wide| #[trigger]
            call_ensures(K::widen, (a,), res) ==> res == self.widen(a)
        &&& forall|a: K::Wide, res: K::Num| #[trigger]
            call_ensures(K::narrow, (a,), res) ==> res == self.narrow(a)
        &&& forall|numer: i32, denom: i32, res: K::Wide| #[trigger]
            call_ensures(K::wide_ratio, (numer, denom), res)
                ==> res == self.wide_ratio(numer as int, denom as int)
        &&& forall|a: K::Wide, b: K::Wide, res: K::Wide| #[trigger]
            call_ensures(K::wide_times, (a, b), res) ==> res == self.wide_times(a, b)
        &&& forall|a: K::Wide, b: K::Wide, res: K::Wide| #[trigger]
            call_ensures(K::wide_over, (a, b), res) ==> res == self.wide_over(a, b)
        &&& forall|a: K::Wide, b: K::Wide, res: K::Wide| #[trigger]
            call_ensures(K::wide_remainder, (a, b), res) ==> res == self.wide_remainder(a, b)
    }

    /// Whether these functions account for what `K` returns of levels in decibels.
    pub open spec fn describes_decibels(self) -> bool {
        &&& forall|res: K::Num| #[trigger]
            call_ensures(K::db_floor, (), res) ==> res == self.db_floor
        &&& forall|power: K::Num, floor: K::Num, res: K::Num| #[trigger]
            call_ensures(K::power_to_db, (power, floor), res)
                ==> res == self.power_to_db(power, floor)
    }

    /// Whether these functions account for what `K` returns of signals: their rate,
    /// windows, mixing and transforms.
    pub open spec fn describes_signal(self) -> bool {
        &&& forall|res: K::Num| #[trigger]
            call_ensures(K::default_sample_rate, (), res) ==> res == self.default_sample_rate
        &&& forall|kind: WindowKind, size: usize, res: Vec<K::Num>| #[trigger]
            call_ensures(K::window, (kind, size), res) ==> res@ == self.window(kind, size as int)
        &&& forall|samples: &[K::Num], channels: usize, res: Vec<K::Num>| #[trigger]
            call_ensures(K::mixdown, (samples, channels), res)
                ==> res@ == self.mixdown(samples@, channels as int)
        &&& forall|size: usize, res: K::Plan| #[trigger]
            call_ensures(K::plan, (size,), res) ==> res == self.plan(size as int)
        &&& forall|plan: &K::Plan, samples: &Vec<K::Num>, res: Option<Vec<Complex<K::Num>>>| #[trigger]
            call_ensures(K::transform, (plan, samples), res)
                ==> view_inside(res) == self.transform(*plan, samples@)
    }

    /// Whether these functions account for what `K` returns of colors and positions.
    pub open spec fn describes_drawing(self) -> bool {
        &&& forall|palette: &Vec<Rgba<K::Num>>, t: K::Num, res: Rgba<K::Num>| #[trigger]
            call_ensures(K::gradient, (palette, t), res) ==> res == self.gradient(palette@, t)
        &&& forall|clip: &K::Clip, at: Point<K::Num>, res: Point<K::Num>| #[trigger]
            call_ensures(K::to_clip, (clip, at), res) ==> res == self.to_clip(*clip, at)
    }

    /// Whether these functions account for everything that `K`'s methods return: for
    /// every part, and so for what the meters and the picture put together from parts.
    pub open spec fn describes(self) -> bool {
        &&& self.describes_arithmetic()
        &&& self.describes_order()
        &&& self.describes_extremes()
        &&& self.describes_elementary()
        &&& self.describes_wide()
        &&& self.describes_decibels()
        &&& self.describes_signal()
        &&& self.describes_drawing()
        &&& self.describes_meter()
        &&& self.describes_layout()
        &&& self.describes_display()
        &&& self.describes_picture()
    }

    /// Zero.
    pub open spec fn zero(self) -> K::Num {
        self.ratio(0, 1)
    }

    /// One.
    pub open spec fn one(self) -> K::Num {
        self.ratio(1, 1)
    }

    /// One half.
    pub open spec fn half(self) -> K::Num {
        self.ratio(1, 2)
    }

    /// Whether two numbers are more than `tolerance` apart.
    pub open spec fn apart(self, a: K::Num, b: K::Num, tolerance: K::Num) -> bool {
        self.less(tolerance, self.abs(self.minus(a, b)))
    }

    /// The distance between one and the next number, beyond which rates differ.
    pub open spec fn rate_tolerance(self) -> K::Num {
        self.ratio(1, 8388608)
    }

    /// The sum of `terms` on top of `start`, added from first to last.
    pub open spec fn sum_from(self, start: K::Num, terms: Seq<K::Num>) -> K::Num
        decreases terms.len(),
    {
        if terms.len() == 0 {
            start
        } else {
            self.plus(self.sum_from(start, terms.drop_last()), terms.last())
        }
    }

    /// The largest of `terms`, but at least zero, compared from first to last.
    pub open spec fn peak(self, terms: Seq<K::Num>) -> K::Num
        decreases terms.len(),
    {
        if terms.len() == 0 {
            self.zero()
        } else {
            self.larger(self.peak(terms.drop_last()), terms.last())
        }
    }

    /// The squared magnitude of a spectrum bin.
    pub open spec fn norm_sqr(self, c: Complex<K::Num>) -> K::Num {
        self.plus(self.times(c.re, c.re), self.times(c.im, c.im))
    }
}

/// The squared magnitude of a spectrum bin.
pub fn norm_sqr<K: Kit>(c: Complex<K::Num>) -> (r: K::Num)
    ensures
        forall|m: Model<K>| #[trigger] m.describes_arithmetic() ==> r == m.norm_sqr(c),
{
    K::plus(K::times(c.re, c.re), K::times(c.im, c.im))
}

/// Whether two numbers are more than `tolerance` apart.
pub fn apart<K: Kit>(a: K::Num, b: K::Num, tolerance: K::Num) -> (r: bool)
    ensures
        forall|m: Model<K>| #[trigger]
            m.describes_arithmetic() && m.describes_order() ==> r == m.apart(a, b, tolerance),
{
    K::less(tolerance, K::abs(K::minus(a, b)))
}

/// The distance beyond which two sample rates differ.
pub fn rate_tolerance<K: Kit>() -> (r: K::Num)
    ensures
        forall|m: Model<K>| #[trigger] m.describes_arithmetic() ==> r == m.rate_tolerance(),
{
    K::ratio(1, 8388608)
}

/// Adding up one run of terms and then another adds up both runs.
pub proof fn lemma_sum_from_append<K: Kit>(
    m: Model<K>,
    start: K::Num,
    first: Seq<K::Num>,
    second: Seq<K::Num>,
)
    ensures
        m.sum_from(start, first + second) == m.sum_from(m.sum_from(start, first), second),
    decreases second.len(),
{
    if second.len() == 0 {
        assert(first + second =~= first);
    } else {
        assert((first + second).drop_last() =~= first + second.drop_last());
        lemma_sum_from_append(m, start, first, second.drop_last());
    }
}

} // verus!
