use chroma_waterfall::audio::{apply_window, drop_front, mixdown_into_deque, spectrum, AudioBlock};
use chroma_waterfall::band::BandFft;
use chroma_waterfall::chroma::{
    ChromaConfig, ChromaProcessor, ChromaSnapshot, DEFAULT_HOP_SIZE, HI_FFT_SIZE, LO_FFT_SIZE,
};
use chroma_waterfall::kit::{apart, norm_sqr, rate_tolerance, Complex, Kit, Point, Rgba, WindowKind};
use chroma_waterfall::pitch::{
    c0_from_reference, contrib_at, pitch_class_continuous, pour, precompute_bin_contribs,
    BinContrib, Share, NOTE_NAMES, NUM_PITCH_CLASSES,
};
use chroma_waterfall::render::{
    level_at, placement, thin_line_verts, Bounds, Vertex, WaterfallParams, WaterfallPrimitive,
};
use chroma_waterfall::sizing::{clamp_hop, fft_length};
use chroma_waterfall::waterfall::{
    clamp_range, WaterfallFrame, WaterfallSubProc, WATERFALL_NUM_BINS,
};
use realfft::{RealFftPlanner, RealToComplex};
use std::collections::VecDeque;
use std::sync::Arc;

/// Single precision numbers and the transforms of `realfft`. Transforms of 128 samples
/// always fail.
#[derive(Debug, Clone, Copy)]
struct Native;

struct Plan {
    size: usize,
    fft: Arc<dyn RealToComplex<f32>>,
}

#[derive(Clone, Copy)]
struct Clip {
    scale: f32,
}

impl Kit for Native {
    type Num = f32;
    type Wide = f64;
    type Plan = Plan;
    type Clip = Clip;

    fn ratio(numer: i32, denom: i32) -> f32 {
        numer as f32 / denom as f32
    }
    fn count(n: usize) -> f32 {
        n as f32
    }
    fn plus(a: f32, b: f32) -> f32 {
        a + b
    }
    fn minus(a: f32, b: f32) -> f32 {
        a - b
    }
    fn times(a: f32, b: f32) -> f32 {
        a * b
    }
    fn over(a: f32, b: f32) -> f32 {
        a / b
    }
    fn negate(a: f32) -> f32 {
        -a
    }
    fn less(a: f32, b: f32) -> bool {
        a < b
    }
    fn at_most(a: f32, b: f32) -> bool {
        a <= b
    }
    fn is_finite(a: f32) -> bool {
        a.is_finite()
    }
    fn abs(a: f32) -> f32 {
        a.abs()
    }
    fn larger(a: f32, b: f32) -> f32 {
        a.max(b)
    }
    fn smaller(a: f32, b: f32) -> f32 {
        a.min(b)
    }
    fn clamp(a: f32, low: f32, high: f32) -> f32 {
        a.clamp(low, high)
    }
    fn sqrt(a: f32) -> f32 {
        a.sqrt()
    }
    fn square(a: f32) -> f32 {
        a.powi(2)
    }
    fn exp(a: f32) -> f32 {
        a.exp()
    }
    fn ln(a: f32) -> f32 {
        a.ln()
    }
    fn log2(a: f32) -> f32 {
        a.log2()
    }
    fn power(base: f32, exponent: f32) -> f32 {
        base.powf(exponent)
    }
    fn round_index(a: f32) -> usize {
        a.round() as usize
    }
    fn floor_index(a: f32) -> usize {
        a.floor() as usize
    }
    fn ceil_index(a: f32) -> usize {
        a.ceil() as usize
    }
    fn widen(a: f32) -> f64 {
        a as f64
    }
    fn narrow(a: f64) -> f32 {
        a as f32
    }
    fn wide_ratio(numer: i32, denom: i32) -> f64 {
        numer as f64 / denom as f64
    }
    fn wide_times(a: f64, b: f64) -> f64 {
        a * b
    }
    fn wide_over(a: f64, b: f64) -> f64 {
        a / b
    }
    fn wide_log2(a: f64) -> f64 {
        a.log2()
    }
    fn wide_power(base: f64, exponent: f64) -> f64 {
        base.powf(exponent)
    }
    fn wide_remainder(a: f64, b: f64) -> f64 {
        a.rem_euclid(b)
    }
    fn default_sample_rate() -> f32 {
        48_000.0
    }
    fn db_floor() -> f32 {
        -140.0
    }
    fn power_to_db(power: f32, floor: f32) -> f32 {
        if power > 0.0 {
            (10.0 * power.log10()).max(floor)
        } else {
            floor
        }
    }
    fn window(kind: WindowKind, size: usize) -> Vec<f32> {
        (0..size)
            .map(|i| {
                let x = 2.0 * std::f32::consts::PI * i as f32 / size as f32;
                match kind {
                    WindowKind::Hann => 0.5 - 0.5 * x.cos(),
                    WindowKind::BlackmanHarris => {
                        0.35875 - 0.48829 * x.cos() + 0.14128 * (2.0 * x).cos()
                            - 0.01168 * (3.0 * x).cos()
                    }
                }
            })
            .collect()
    }
    fn mixdown(samples: &[f32], channels: usize) -> Vec<f32> {
        samples
            .chunks_exact(channels)
            .map(|frame| frame.iter().sum::<f32>() / channels as f32)
            .collect()
    }
    fn plan(size: usize) -> Plan {
        Plan { size, fft: RealFftPlanner::new().plan_fft_forward(size) }
    }
    fn transform(plan: &Plan, samples: &Vec<f32>) -> Option<Vec<Complex<f32>>> {
        if plan.size == 128 {
            return None;
        }
        let mut input = samples.clone();
        let mut output = plan.fft.make_output_vec();
        match plan.fft.process(&mut input, &mut output) {
            Ok(()) => Some(output.iter().map(|c| Complex { re: c.re, im: c.im }).collect()),
            Err(_) => None,
        }
    }
    fn gradient(palette: &Vec<Rgba<f32>>, t: f32) -> Rgba<f32> {
        let last = palette.len() - 1;
        let at = t.clamp(0.0, 1.0) * last as f32;
        let low = at.floor() as usize;
        let high = (low + 1).min(last);
        let f = at - low as f32;
        let mix = |a: f32, b: f32| a + (b - a) * f;
        let (a, b) = (palette[low], palette[high]);
        Rgba { r: mix(a.r, b.r), g: mix(a.g, b.g), b: mix(a.b, b.b), a: mix(a.a, b.a) }
    }
    fn to_clip(clip: &Clip, at: Point<f32>) -> Point<f32> {
        Point { x: at.x * clip.scale, y: at.y * clip.scale }
    }
}

type Chroma = ChromaProcessor<Native>;
type Config = ChromaConfig<Native>;
type Waterfall = WaterfallSubProc<Native>;
type Picture = WaterfallPrimitive<Native>;

const RATE: f32 = 48_000.0;

fn block(samples: &[f32], channels: usize) -> AudioBlock<'_, f32> {
    AudioBlock::new(samples, channels, RATE)
}

fn sine(hz: f32, amplitude: f32, n: usize) -> Vec<f32> {
    (0..n)
        .map(|i| amplitude * (2.0 * std::f32::consts::PI * hz * i as f32 / RATE).sin())
        .collect()
}

fn max_other(bins: &[f32; 12], class: usize) -> f32 {
    bins.iter()
        .enumerate()
        .filter(|&(i, _)| i != class)
        .map(|(_, &v)| v)
        .fold(0.0_f32, f32::max)
}

// Pitch classes.

#[test]
fn pitch_class_mapping() {
    let c0 = c0_from_reference::<Native>(440.0);
    let pc = |hz: f32| pitch_class_continuous::<Native>(hz, c0).map(|p| p.round() as usize % 12);
    assert_eq!(pc(261.63), Some(0)); // C4 -> C
    assert_eq!(pc(440.0), Some(9)); // A4 -> A
    assert_eq!(pc(659.26), Some(4)); // E5 -> E
}

#[test]
fn reference_hz_shifts_pitch_classes() {
    let c0_432 = c0_from_reference::<Native>(432.0);
    let pc =
        |hz: f32| pitch_class_continuous::<Native>(hz, c0_432).map(|p| p.round() as usize % 12);
    assert_eq!(pc(432.0), Some(9));
    let cont = pitch_class_continuous::<Native>(440.0, c0_432).unwrap();
    assert!(cont > 9.0, "440 Hz should be sharp of A when reference is 432");
}

#[test]
fn c0_is_fifty_seven_semitones_below_a4() {
    let c0 = c0_from_reference::<Native>(440.0);
    assert!((c0 - 16.351_597_831_287_414).abs() < 1e-9);
}

#[test]
fn frequencies_that_are_not_positive_numbers_have_no_pitch_class() {
    let c0 = c0_from_reference::<Native>(440.0);
    assert_eq!(pitch_class_continuous::<Native>(0.0, c0), None);
    assert_eq!(pitch_class_continuous::<Native>(-440.0, c0), None);
    assert_eq!(pitch_class_continuous::<Native>(f32::INFINITY, c0), None);
    assert_eq!(pitch_class_continuous::<Native>(f32::NAN, c0), None);
}

#[test]
fn an_octave_keeps_the_pitch_class() {
    let c0 = c0_from_reference::<Native>(440.0);
    let low = pitch_class_continuous::<Native>(110.0, c0).unwrap();
    let high = pitch_class_continuous::<Native>(3520.0, c0).unwrap();
    assert!((low - high).abs() < 1e-4);
}

#[test]
fn note_names_begin_with_c() {
    assert_eq!(NOTE_NAMES.len(), NUM_PITCH_CLASSES);
    assert_eq!(NOTE_NAMES[0], "C");
    assert_eq!(NOTE_NAMES[9], "A");
    assert_eq!(NOTE_NAMES[11], "B");
}

#[test]
fn a_pitch_is_shared_between_its_neighbors() {
    // On the class itself: full weight there, and the next one up a semitone away.
    let on = contrib_at::<Native>(9.0);
    assert_eq!((on.near.class, on.next.class), (9, 10));
    assert_eq!(on.near.weight, 1.0);
    assert_eq!(on.next.weight, (-2.0_f32).exp());
    // Slightly flat: the second class is the one below.
    let flat = contrib_at::<Native>(8.75);
    assert_eq!((flat.near.class, flat.next.class), (9, 8));
    assert_eq!(flat.near.weight, (-0.125_f32).exp());
    assert_eq!(flat.next.weight, (-1.125_f32).exp());
    // Just below C: round the octave.
    let wrapped = contrib_at::<Native>(11.75);
    assert_eq!((wrapped.near.class, wrapped.next.class), (0, 11));
    assert_eq!(wrapped.near.weight, (-0.125_f32).exp());
    // Just above B.
    let top = contrib_at::<Native>(11.25);
    assert_eq!((top.near.class, top.next.class), (11, 0));
}

#[test]
fn contributions_stay_within_the_band() {
    let contribs = precompute_bin_contribs::<Native>(2048, RATE, 1000.0, 4186.0, 440.0);
    assert_eq!(contribs.len(), 1025);
    for (b, shared) in contribs.iter().enumerate() {
        let hz = b as f32 * (RATE / 2048.0);
        assert_eq!(shared.is_some(), (1000.0..=4186.0).contains(&hz));
    }
}

#[test]
fn weights_of_each_class_add_up_to_one() {
    let contribs = precompute_bin_contribs::<Native>(16384, RATE, 27.5, 1000.0, 440.0);
    let mut totals = [0.0_f32; 12];
    for shared in contribs.iter().flatten() {
        pour::<Native>(&mut totals, *shared);
    }
    for total in totals {
        assert!((total - 1.0).abs() < 1e-4, "total {total}");
    }
}

#[test]
fn pouring_adds_to_two_classes_only() {
    let mut totals = [1.0_f32; 12];
    let shared = BinContrib {
        near: Share { class: 3, weight: 0.5 },
        next: Share { class: 4, weight: 0.25 },
    };
    pour::<Native>(&mut totals, shared);
    let mut expected = [1.0_f32; 12];
    expected[3] = 1.5;
    expected[4] = 1.25;
    assert_eq!(totals, expected);
}

// The pitch class meter.

#[test]
fn process_sine_wave_returns_snapshot() {
    let mut proc = Chroma::new(Config::default());
    // Need LO_FFT_SIZE + a few hops worth of samples to prime the buffer.
    let n = LO_FFT_SIZE + DEFAULT_HOP_SIZE * 4;
    let samples: Vec<f32> = (0..n)
        .map(|i| (2.0 * std::f32::consts::PI * 440.0 * i as f32 / RATE).sin())
        .collect();
    let snap = proc.process_block(&block(&samples, 1));
    assert!(snap.is_some());
}

#[test]
fn a440_activates_a_pitch_class() {
    let mut proc = Chroma::new(Config { smoothing: 1.0, ..Default::default() });
    // Enough samples to fill the lo-band window and produce at least one frame.
    let n = LO_FFT_SIZE + DEFAULT_HOP_SIZE;
    let samples: Vec<f32> = (0..n)
        .map(|i| (2.0 * std::f32::consts::PI * 440.0 * i as f32 / RATE).sin())
        .collect();
    let snap = proc.process_block(&block(&samples, 1)).unwrap();
    let a_class = snap.bins[9];
    let max_other = snap
        .bins
        .iter()
        .enumerate()
        .filter(|&(i, _)| i != 9)
        .map(|(_, &v)| v)
        .fold(0.0_f32, f32::max);
    assert!(
        a_class > max_other,
        "A class ({a_class:.3}) should dominate other classes (max {max_other:.3})"
    );
}

#[test]
fn noise_gate_suppresses_silence() {
    let mut proc = Chroma::new(Config { smoothing: 1.0, floor_db: -60.0, ..Default::default() });
    let n = LO_FFT_SIZE + DEFAULT_HOP_SIZE;
    let samples: Vec<f32> = (0..n)
        .map(|i| 0.001 * (2.0 * std::f32::consts::PI * 440.0 * i as f32 / RATE).sin())
        .collect();
    let snap = proc.process_block(&block(&samples, 1)).unwrap();
    let max_bin = snap.bins.iter().copied().fold(0.0_f32, f32::max);
    assert!(max_bin < 0.01, "near-silent signal should not activate bins: {max_bin:.4}");
}

#[test]
fn bass_e2_activates_e_pitch_class() {
    // E2 = 82.4 Hz, the low string of a bass guitar: the low-frequency band resolves
    // bass-register content.
    let mut proc = Chroma::new(Config { smoothing: 1.0, ..Default::default() });
    let n = LO_FFT_SIZE + DEFAULT_HOP_SIZE;
    let samples: Vec<f32> = (0..n)
        .map(|i| (2.0 * std::f32::consts::PI * 82.41 * i as f32 / RATE).sin())
        .collect();
    let snap = proc.process_block(&block(&samples, 1)).unwrap();
    // E = pitch class 4
    let e_class = snap.bins[4];
    let max_other = snap
        .bins
        .iter()
        .enumerate()
        .filter(|&(i, _)| i != 4)
        .map(|(_, &v)| v)
        .fold(0.0_f32, f32::max);
    assert!(
        e_class > max_other,
        "E class ({e_class:.3}) should dominate for E2 (82.4 Hz); max other = {max_other:.3}"
    );
}

#[test]
fn treble_is_analysed_by_the_short_window() {
    // E7 = 2637 Hz is above the crossover.
    let mut proc = Chroma::new(Config { smoothing: 1.0, ..Default::default() });
    let snap = proc.process_block(&block(&sine(2637.02, 1.0, LO_FFT_SIZE), 1)).unwrap();
    assert!(snap.bins[4] > max_other(&snap.bins, 4));
}

#[test]
fn default_settings() {
    let config = Config::default();
    assert_eq!(config.sample_rate, 48_000.0);
    assert_eq!(config.smoothing, 0.07);
    assert_eq!(config.floor_db, -70.0);
    assert_eq!(config.peak_decay, 0.997);
    assert_eq!(config.reference_hz, 440.0);
    assert_eq!(config.hop_size, 1024);
    assert_eq!(config.min_freq_hz, 27.5);
    assert_eq!(config.max_freq_hz, 4186.0);
}

#[test]
fn a_block_without_frames_is_ignored() {
    let mut proc = Chroma::new(Config::default());
    assert!(proc.process_block(&block(&[], 2)).is_none());
    // Three samples are no frame of four.
    assert!(proc.process_block(&block(&[0.5, 0.5, 0.5], 4)).is_none());
    // Not even the rate of such a block is taken.
    assert!(proc.process_block(&AudioBlock::new(&[], 1, 44_100.0)).is_none());
    assert_eq!(proc.config().sample_rate, 48_000.0);
}

#[test]
fn nothing_is_shown_before_a_whole_window() {
    let mut proc = Chroma::new(Config { smoothing: 0.5, ..Default::default() });
    let samples = sine(440.0, 1.0, LO_FFT_SIZE);
    let early = proc.process_block(&block(&samples[..LO_FFT_SIZE - 1], 1)).unwrap();
    assert_eq!(early.bins, [0.0; 12]);
    assert_eq!(early.peak_bins, [0.0; 12]);
    // The sample that completes the window completes the hop.
    let snap = proc.process_block(&block(&samples[LO_FFT_SIZE - 1..], 1)).unwrap();
    assert_eq!(snap.bins[9], 0.5);
    assert_eq!(snap.peak_bins[9], 0.5);
}

#[test]
fn levels_ease_toward_the_strongest_class_at_one() {
    // A smoothing of one is instant; the strongest class stands at one.
    let samples = sine(440.0, 1.0, LO_FFT_SIZE + 2 * DEFAULT_HOP_SIZE);
    for smoothing in [1.0, 7.0] {
        let mut proc = Chroma::new(Config { smoothing, ..Default::default() });
        let snap = proc.process_block(&block(&samples[..LO_FFT_SIZE], 1)).unwrap();
        assert_eq!(snap.bins[9], 1.0);
    }
    // At three quarters, a quarter of the way is left after every hop.
    let mut proc = Chroma::new(Config { smoothing: 0.75, ..Default::default() });
    let snap = proc.process_block(&block(&samples, 1)).unwrap();
    assert_eq!(snap.bins[9], 1.0 - 0.25 * 0.25 * 0.25); // three hops
    // No smoothing is held at a hundredth.
    let mut slow = Chroma::new(Config { smoothing: 0.0, ..Default::default() });
    let snap = slow.process_block(&block(&sine(440.0, 1.0, LO_FFT_SIZE), 1)).unwrap();
    assert_eq!(snap.bins[9], 0.01);
}

#[test]
fn hops_are_counted_from_the_queue() {
    // A hop of nothing is one sample: a window and two samples make three hops.
    let mut proc = Chroma::new(Config { smoothing: 0.5, hop_size: 0, ..Default::default() });
    let snap = proc.process_block(&block(&sine(440.0, 1.0, LO_FFT_SIZE + 2), 1)).unwrap();
    assert_eq!(snap.bins[9], 0.875);
    // A hop beyond the window is a window: just short of two windows make one hop.
    let mut proc = Chroma::new(Config {
        smoothing: 0.5,
        hop_size: LO_FFT_SIZE * 3,
        ..Default::default()
    });
    let snap = proc.process_block(&block(&sine(440.0, 1.0, 2 * LO_FFT_SIZE - 1), 1)).unwrap();
    assert_eq!(snap.bins[9], 0.5);
    let snap = proc.process_block(&block(&sine(440.0, 1.0, 1), 1)).unwrap();
    assert!(snap.bins[9] > 0.5);
}

#[test]
fn peaks_hold_and_decay() {
    let mut proc = Chroma::new(Config { smoothing: 0.5, peak_decay: 0.5, ..Default::default() });
    let loud = proc.process_block(&block(&sine(440.0, 1.0, LO_FFT_SIZE), 1)).unwrap();
    assert_eq!(loud.peak_bins[9], 0.5);
    // Silence: the level falls by half at each hop, the peak by the slowest decay allowed.
    let quiet = proc.process_block(&block(&vec![0.0; LO_FFT_SIZE], 1)).unwrap();
    assert!(quiet.peak_bins[9] > quiet.bins[9]);
    for c in 0..12 {
        assert!(quiet.peak_bins[c] >= quiet.bins[c]);
    }
}

#[test]
fn one_silent_hop_after_a_loud_one() {
    let mut proc = Chroma::new(Config {
        smoothing: 0.5,
        peak_decay: 0.0,
        hop_size: LO_FFT_SIZE,
        ..Default::default()
    });
    proc.process_block(&block(&sine(440.0, 1.0, LO_FFT_SIZE), 1));
    let quiet = proc.process_block(&block(&vec![0.0; LO_FFT_SIZE], 1)).unwrap();
    assert_eq!(quiet.bins[9], 0.25);
    assert_eq!(quiet.peak_bins[9], 0.5 * 0.9);
}

#[test]
fn silence_stays_at_zero() {
    let mut proc = Chroma::new(Config::default());
    let snap = proc.process_block(&block(&vec![0.0; LO_FFT_SIZE * 2], 1)).unwrap();
    assert_eq!(snap.bins, [0.0; 12]);
    assert_eq!(snap.peak_bins, [0.0; 12]);
}

#[test]
fn a_default_snapshot_is_empty() {
    let empty = ChromaSnapshot::<f32>::default();
    assert_eq!(empty.bins, [0.0; 12]);
    assert_eq!(empty.peak_bins, [0.0; 12]);
}

#[test]
fn channels_are_mixed() {
    // Opposite channels cancel.
    let mono = sine(440.0, 1.0, LO_FFT_SIZE);
    let stereo: Vec<f32> = mono.iter().flat_map(|&s| [s, -s]).collect();
    let mut proc = Chroma::new(Config::default());
    let snap = proc.process_block(&block(&stereo, 2)).unwrap();
    assert_eq!(snap.bins, [0.0; 12]);
}

#[test]
fn no_channels_count_as_one() {
    let samples = sine(440.0, 1.0, LO_FFT_SIZE);
    let mut none = Chroma::new(Config::default());
    let mut one = Chroma::new(Config::default());
    let a = none.process_block(&block(&samples, 0)).unwrap();
    let b = one.process_block(&block(&samples, 1)).unwrap();
    assert_eq!(a.bins, b.bins);
    assert_eq!(block(&samples, 0).frame_count(), LO_FFT_SIZE);
    assert_eq!(block(&samples, 0).channel_count(), 1);
    assert_eq!(block(&samples[..7], 2).frame_count(), 3);
}

#[test]
fn settings_are_returned_as_set() {
    let mut proc = Chroma::new(Config { hop_size: 7, ..Default::default() });
    assert_eq!(proc.config().hop_size, 7);
    proc.update_config(Config { floor_db: -33.0, reference_hz: 432.0, ..Default::default() });
    assert_eq!(proc.config().floor_db, -33.0);
    assert_eq!(proc.config().reference_hz, 432.0);
    assert_eq!(proc.config().hop_size, 1024);
}

#[test]
fn settings_without_effect_on_the_bands_keep_what_was_heard() {
    let samples = sine(440.0, 1.0, LO_FFT_SIZE);
    let mut proc = Chroma::new(Config { smoothing: 0.5, ..Default::default() });
    proc.process_block(&block(&samples[1..], 1));
    proc.update_config(Config { smoothing: 0.25, reference_hz: 440.005, ..Default::default() });
    // One more sample completes the window.
    let snap = proc.process_block(&block(&samples[..1], 1)).unwrap();
    assert_eq!(snap.bins[9], 0.25);
}

#[test]
fn settings_that_change_the_bands_forget_what_was_heard() {
    let samples = sine(440.0, 1.0, LO_FFT_SIZE);
    let changes = [
        Config { reference_hz: 441.0, ..Default::default() },
        Config { min_freq_hz: 30.0, ..Default::default() },
        Config { max_freq_hz: 4000.0, ..Default::default() },
        Config { sample_rate: 44_100.0, ..Default::default() },
    ];
    for change in changes {
        let mut proc = Chroma::new(Config { smoothing: 0.5, ..Default::default() });
        let shown = proc.process_block(&block(&samples, 1)).unwrap();
        proc.update_config(change);
        // What was shown stays until the next whole window.
        let next = proc
            .process_block(&AudioBlock::new(&samples[..1], 1, change.sample_rate))
            .unwrap();
        assert_eq!(next.bins, shown.bins);
        let rest = proc
            .process_block(&AudioBlock::new(&samples[..LO_FFT_SIZE - 2], 1, change.sample_rate))
            .unwrap();
        assert_eq!(rest.bins, shown.bins);
    }
}

#[test]
fn a_block_at_another_rate_starts_anew() {
    let samples = sine(440.0, 1.0, LO_FFT_SIZE);
    let mut proc = Chroma::new(Config { smoothing: 0.5, ..Default::default() });
    proc.process_block(&block(&samples[1..], 1));
    let snap = proc.process_block(&AudioBlock::new(&samples[..1], 1, 44_100.0)).unwrap();
    assert_eq!(snap.bins, [0.0; 12]);
    assert_eq!(proc.config().sample_rate, 44_100.0);
    // A rate below one is taken as one.
    proc.process_block(&AudioBlock::new(&samples[..1], 1, 0.0));
    assert_eq!(proc.config().sample_rate, 1.0);
}

#[test]
fn measuring_and_absorbing_make_a_hop() {
    let samples = sine(440.0, 1.0, LO_FFT_SIZE - 1);
    let mut proc = Chroma::new(Config { smoothing: 0.5, ..Default::default() });
    proc.process_block(&block(&samples, 1));
    // The bass window lacks a sample, and the treble band has nothing of this tone.
    let energy = proc.measure();
    assert_eq!(energy, [0.0; 12]);
    let mut given = [0.0_f32; 12];
    given[2] = 4.0;
    given[5] = 1.0;
    proc.absorb(&given);
    let shown: ChromaSnapshot<f32> = proc.process_block(&block(&[0.0], 1)).unwrap();
    // Absorbed once at half pace, then one hop of analysis at half pace.
    assert!(shown.bins[2] >= 0.25 && shown.bins[2] < 0.5);
    assert!(shown.bins[5] >= 0.125 && shown.bins[5] < 0.25);
    assert_eq!(shown.bins[9], 0.5);
}

// One band.

#[test]
fn a_band_needs_a_whole_window() {
    let mut band = BandFft::<Native>::new(HI_FFT_SIZE, RATE, 1000.0, 4186.0, 440.0);
    let mut queue: VecDeque<f32> = sine(2637.02, 1.0, HI_FFT_SIZE - 1).into();
    assert!(!band.process_from_tail(&queue));
    // Nothing was analysed: nothing is added.
    let mut energy = [0.5_f32; 12];
    band.accumulate(&mut energy, -70.0);
    assert_eq!(energy, [0.5; 12]);
    queue.push_back(0.0);
    assert!(band.process_from_tail(&queue));
    band.accumulate(&mut energy, -70.0);
    assert!(energy[4] > 0.5);
    // A noise gate above every level lets nothing through.
    let mut gated = [0.5_f32; 12];
    band.accumulate(&mut gated, 100.0);
    assert_eq!(gated, [0.5; 12]);
}

#[test]
fn a_given_spectrum_is_gated_and_shared() {
    let band = BandFft::<Native>::new(2048, RATE, 1000.0, 4186.0, 440.0);
    let contribs = precompute_bin_contribs::<Native>(2048, RATE, 1000.0, 4186.0, 440.0);
    let mut bins = vec![Complex { re: 0.0, im: 0.0 }; 1025];
    bins[100] = Complex { re: 2048.0, im: 0.0 }; // a power of one
    bins[101] = Complex { re: 0.2048, im: 0.0 }; // 80 dB below
    let mut energy = [0.0_f32; 12];
    band.accumulate_spectrum(&bins, &mut energy, -70.0);
    let shared = contribs[100].unwrap();
    let mut expected = [0.0_f32; 12];
    expected[shared.near.class as usize] = shared.near.weight;
    expected[shared.next.class as usize] = shared.next.weight;
    assert_eq!(energy, expected);
}

#[test]
fn the_latest_samples_are_windowed() {
    let band = BandFft::<Native>::new(64, RATE, 1000.0, 4186.0, 440.0);
    let mut queue: VecDeque<f32> = vec![9.0; 63].into();
    assert!(band.windowed_tail(&queue).is_none());
    queue.extend(vec![2.0; 64]);
    let input = band.windowed_tail(&queue).unwrap();
    let window = Native::window(WindowKind::Hann, 64);
    assert_eq!(input, window.iter().map(|w| 2.0 * w).collect::<Vec<f32>>());
}

#[test]
fn a_band_looks_at_the_latest_samples() {
    let mut band = BandFft::<Native>::new(2048, RATE, 1000.0, 4186.0, 440.0);
    let mut queue: VecDeque<f32> = sine(2637.02, 1.0, 2048).into();
    queue.extend(vec![0.0; 2048]);
    assert!(band.process_from_tail(&queue));
    let mut energy = [0.0_f32; 12];
    band.accumulate(&mut energy, -70.0);
    assert_eq!(energy, [0.0; 12]);
}

#[test]
fn a_band_whose_transform_fails_adds_nothing() {
    let mut band = BandFft::<Native>::new(100, RATE, 1000.0, 4186.0, 440.0);
    let queue: VecDeque<f32> = vec![1.0; 200].into();
    assert!(!band.process_from_tail(&queue));
}

// Lengths and queues.

#[test]
fn transform_lengths() {
    assert_eq!(fft_length(0), 64);
    assert_eq!(fft_length(64), 64);
    assert_eq!(fft_length(65), 128);
    assert_eq!(fft_length(1000), 1024);
    assert_eq!(fft_length(4096), 4096);
    assert_eq!(fft_length(fft_length(5000)), fft_length(5000));
    assert_eq!(fft_length(usize::MAX / 2 + 1), usize::MAX / 2 + 1);
}

#[test]
fn hops_are_held_within_a_window() {
    assert_eq!(clamp_hop(0, 64), 1);
    assert_eq!(clamp_hop(17, 64), 17);
    assert_eq!(clamp_hop(65, 64), 64);
}

#[test]
fn windows_scale_samples() {
    let queue: VecDeque<f32> = vec![1.0, 2.0, 3.0, 4.0].into();
    assert_eq!(apply_window::<Native>(&queue, 1, 2, &vec![0.5, 10.0]), vec![1.0, 30.0]);
    assert_eq!(apply_window::<Native>(&queue, 0, 4, &vec![2.0]), vec![2.0]);
}

#[test]
fn queues_lose_their_oldest_samples() {
    let mut queue: VecDeque<f32> = vec![1.0, 2.0, 3.0].into();
    drop_front(&mut queue, 2);
    assert_eq!(queue, VecDeque::from(vec![3.0]));
    mixdown_into_deque::<Native>(&mut queue, &[4.0, 6.0, 1.0, 3.0, 9.0], 2);
    assert_eq!(queue, VecDeque::from(vec![3.0, 5.0, 2.0]));
}

#[test]
fn spectra_have_the_expected_length() {
    let plan = Native::plan(64);
    let bins = spectrum::<Native>(&plan, 64, &vec![1.0; 64]).unwrap();
    assert_eq!(bins.len(), 33);
    assert_eq!(bins[0].re, 64.0);
    assert!(spectrum::<Native>(&plan, 64, &vec![1.0; 63]).is_none());
    assert!(spectrum::<Native>(&plan, 128, &vec![1.0; 64]).is_none());
    assert!(spectrum::<Native>(&Native::plan(128), 128, &vec![1.0; 128]).is_none());
}

#[test]
fn numbers() {
    assert_eq!(norm_sqr::<Native>(Complex { re: 3.0, im: -4.0 }), 25.0);
    assert_eq!(rate_tolerance::<Native>(), f32::EPSILON);
    assert!(apart::<Native>(1.0, 1.5, 0.25));
    assert!(!apart::<Native>(1.5, 1.0, 0.5));
}

// The waterfall.

#[test]
fn display_bins_have_spectrum_bins() {
    assert_eq!(clamp_range(0, 0, 33), (1, 2));
    assert_eq!(clamp_range(5, 7, 33), (5, 8));
    assert_eq!(clamp_range(5, 5, 33), (5, 6));
    assert_eq!(clamp_range(9, 2, 33), (9, 10));
    assert_eq!(clamp_range(40, 50, 33), (32, 33));
    assert_eq!(clamp_range(usize::MAX, usize::MAX, 33), (32, 33));
    // Two display bins that meet at an edge share a spectrum bin.
    let (_, lower_end) = clamp_range(3, 8, 33);
    let (upper_start, _) = clamp_range(7, 12, 33);
    assert!(upper_start < lower_end);
}

#[test]
fn there_is_a_frame_for_every_whole_window() {
    let mut waterfall = Waterfall::new(1000, 256, RATE); // windows of 1024
    waterfall.feed(&sine(440.0, 1.0, 1023), 1);
    assert!(waterfall.drain_frames().is_empty());
    waterfall.feed(&[0.0], 1);
    assert_eq!(waterfall.drain_frames().len(), 1);
    assert!(waterfall.drain_frames().is_empty());
    waterfall.feed(&sine(440.0, 1.0, 1024), 1);
    assert_eq!(waterfall.drain_frames().len(), 4);
}

#[test]
fn feeding_in_parts_changes_nothing() {
    let samples = sine(440.0, 0.5, 5000);
    let mut whole = Waterfall::new(1024, 300, RATE);
    whole.feed(&samples, 1);
    let expected = whole.drain_frames();
    assert_eq!(expected.len(), (5000 - 1024) / 300 + 1);
    let mut parts = Waterfall::new(1024, 300, RATE);
    let mut frames: Vec<WaterfallFrame<f32>> = Vec::new();
    for part in samples.chunks(777) {
        parts.feed(part, 1);
        frames.extend(parts.drain_frames());
    }
    assert_eq!(frames, expected);
}

#[test]
fn levels_are_between_zero_and_one() {
    let mut waterfall = Waterfall::new(2048, 512, RATE);
    waterfall.feed(&sine(1000.0, 4.0, 4096), 1);
    for frame in waterfall.drain_frames() {
        assert_eq!(frame.len(), WATERFALL_NUM_BINS);
        assert!(frame.iter().all(|&x| (0.0..=1.0).contains(&x)));
        assert!(frame.iter().any(|&x| x > 0.9));
    }
    waterfall.feed(&vec![0.0; 8192], 1);
    assert!(waterfall.drain_frames().last().unwrap().iter().all(|&x| x == 0.0));
}

#[test]
fn a_tone_shows_where_its_frequency_is() {
    let mut waterfall = Waterfall::new(4096, 4096, RATE);
    waterfall.feed(&sine(2000.0, 1.0, 4096), 1);
    let frame = waterfall.drain_frames().remove(0);
    let strongest = (0..256).fold(0, |best, i| if frame[i] > frame[best] { i } else { best });
    // Display bins are spaced logarithmically from 20 Hz to 20 kHz.
    let expected = (2000.0_f32 / 20.0).ln() / 1000.0_f32.ln() * 256.0;
    assert!((strongest as f32 - expected).abs() < 3.0, "{strongest} for {expected}");
}

#[test]
fn frames_of_given_spectra() {
    let waterfall = Waterfall::new(64, 64, RATE);
    // Full scale at 0 dB needs a squared magnitude of 64 * 64.
    let loud = vec![Complex { re: 64.0, im: 0.0 }; 33];
    assert!(waterfall.make_frame(&loud).iter().all(|&x| x == 1.0));
    // 40 dB below, with a floor 80 dB below: half way up.
    let half = vec![Complex { re: 0.0, im: 0.64 }; 33];
    assert!(waterfall.make_frame(&half).iter().all(|&x| (x - 0.5).abs() < 1e-4));
    let none = vec![Complex { re: 0.0, im: 0.0 }; 33];
    assert!(waterfall.make_frame(&none).iter().all(|&x| x == 0.0));
}

#[test]
fn a_raised_floor_lowers_the_levels() {
    let mut waterfall = Waterfall::new(64, 64, RATE);
    assert_eq!(waterfall.floor_db(), -80.0);
    waterfall.set_floor_db(-50.0);
    assert_eq!(waterfall.floor_db(), -50.0);
    assert_eq!(waterfall.floor_db, -50.0);
    let bins = vec![Complex { re: 0.0, im: 0.64 }; 33];
    assert!(waterfall.make_frame(&bins).iter().all(|&x| (x - 0.2).abs() < 1e-4));
    // A floor of zero or more leaves a range of one decibel.
    waterfall.set_floor_db(0.0);
    assert!(waterfall.make_frame(&bins).iter().all(|&x| x == 0.0));
}

#[test]
fn a_tilt_raises_the_treble() {
    let mut waterfall = Waterfall::new(2048, 2048, RATE);
    assert_eq!(waterfall.tilt_db_per_octave(), 0.0);
    let bins = vec![Complex { re: 2.048, im: 0.0 }; 1025]; // 60 dB below full scale
    let flat = waterfall.make_frame(&bins);
    assert!(flat.iter().all(|&x| (x - 0.25).abs() < 1e-4));
    waterfall.update_tilt(0.0005); // negligible
    assert_eq!(waterfall.tilt_db_per_octave(), 0.0);
    assert_eq!(waterfall.make_frame(&bins), flat);
    waterfall.update_tilt(3.0);
    assert_eq!(waterfall.tilt_db_per_octave(), 3.0);
    let tilted = waterfall.make_frame(&bins);
    assert!(tilted[255] > flat[255]);
    assert!(tilted[0] < flat[0]);
    // Back to nothing: all gains are one.
    waterfall.update_tilt(0.0);
    assert_eq!(waterfall.make_frame(&bins), flat);
}

#[test]
fn rebuilding_keeps_the_tilt_and_drops_the_queue() {
    let mut waterfall = Waterfall::new(1024, 256, RATE);
    waterfall.update_tilt(3.0);
    waterfall.set_floor_db(-60.0);
    waterfall.feed(&sine(440.0, 1.0, 1024), 1);
    // The same length and rate: only the hop changes.
    waterfall.rebuild_if_needed(1000, 1024, RATE);
    assert_eq!(waterfall.drain_frames().len(), 1);
    waterfall.feed(&sine(440.0, 1.0, 1024), 1);
    assert_eq!(waterfall.drain_frames().len(), 1);
    // Another length.
    waterfall.feed(&sine(440.0, 1.0, 1024), 1);
    waterfall.rebuild_if_needed(512, 512, RATE);
    assert!(waterfall.drain_frames().is_empty());
    assert_eq!(waterfall.tilt_db_per_octave(), 3.0);
    assert_eq!(waterfall.floor_db(), -60.0);
    // Another rate.
    waterfall.feed(&sine(440.0, 1.0, 512), 1);
    waterfall.rebuild_if_needed(512, 512, 44_100.0);
    assert!(waterfall.drain_frames().is_empty());
    waterfall.feed(&sine(440.0, 1.0, 512), 1);
    assert_eq!(waterfall.drain_frames().len(), 1);
    // The tilt is in the gains of the new length.
    let bins = vec![Complex { re: 0.512, im: 0.0 }; 257];
    let tilted = waterfall.make_frame(&bins);
    assert!(tilted[255] > tilted[0]);
}

#[test]
fn hops_of_the_waterfall_are_held_within_a_window() {
    let mut waterfall = Waterfall::new(64, 0, RATE);
    waterfall.feed(&vec![0.0; 66], 1);
    assert_eq!(waterfall.drain_frames().len(), 3);
    let mut waterfall = Waterfall::new(64, 1000, RATE);
    waterfall.feed(&vec![0.0; 128], 1);
    assert_eq!(waterfall.drain_frames().len(), 2);
}

#[test]
fn failed_transforms_leave_no_frames() {
    let mut waterfall = Waterfall::new(128, 64, RATE);
    waterfall.feed(&vec![0.5; 1024], 1);
    assert!(waterfall.drain_frames().is_empty());
    // The windows were taken off all the same.
    waterfall.rebuild_if_needed(128, 128, RATE);
    waterfall.feed(&vec![0.5; 63], 1);
    assert!(waterfall.drain_frames().is_empty());
}

#[test]
fn extreme_rates_keep_the_ranges_in_bounds() {
    for rate in [0.0, 1e-30, 1.0, 1e30, f32::INFINITY, f32::NAN] {
        let waterfall = Waterfall::new(64, 64, rate);
        let bins = vec![Complex { re: 64.0, im: 0.0 }; 33];
        assert_eq!(waterfall.make_frame(&bins).len(), 256);
    }
}

// The picture.

const UNIT: Clip = Clip { scale: 1.0 };

fn white() -> Rgba<f32> {
    Rgba { r: 1.0, g: 1.0, b: 1.0, a: 1.0 }
}

fn black() -> Rgba<f32> {
    Rgba { r: 0.0, g: 0.0, b: 0.0, a: 0.0 }
}

fn params(frames: Vec<Vec<f32>>, num_bins: usize, rotation: u32) -> WaterfallParams<Native> {
    WaterfallParams {
        bounds: Bounds { x: 0.0, y: 0.0, width: 100.0, height: 200.0 },
        frames: frames.into_iter().map(Arc::new).collect(),
        num_bins,
        palette: vec![black(), white()],
        perspective: 0.0,
        rotation,
        key: 42,
    }
}

fn corners(verts: &[Vertex<f32>]) -> Vec<(f32, f32)> {
    verts.iter().map(|v| (v.position.x, v.position.y)).collect()
}

fn colors(verts: &[Vertex<f32>]) -> Vec<[f32; 4]> {
    verts.iter().map(|v| [v.color.r, v.color.g, v.color.b, v.color.a]).collect()
}

#[test]
fn a_picture_keeps_its_key() {
    assert_eq!(Picture::new(params(vec![], 4, 0)).key(), 42);
}

#[test]
fn nothing_is_drawn_without_extent_or_frames() {
    let frame = vec![1.0, 1.0];
    assert!(Picture::new(params(vec![], 2, 0)).build_vertices(&UNIT).is_empty());
    let mut flat = params(vec![frame.clone()], 2, 0);
    flat.bounds.width = 0.0;
    assert!(Picture::new(flat).build_vertices(&UNIT).is_empty());
    let mut thin = params(vec![frame.clone()], 2, 0);
    thin.bounds.height = -1.0;
    assert!(Picture::new(thin).build_vertices(&UNIT).is_empty());
    // Frames that are too short are skipped.
    let short = params(vec![frame], 3, 0);
    assert!(Picture::new(short).build_vertices(&UNIT).is_empty());
}

#[test]
fn no_bins_count_as_one() {
    let verts = Picture::new(params(vec![vec![1.0]], 0, 0)).build_vertices(&UNIT);
    assert_eq!(verts.len(), 12);
}

#[test]
fn levels_of_zero_are_not_drawn() {
    let verts = Picture::new(params(vec![vec![0.0; 8]; 3], 8, 0)).build_vertices(&UNIT);
    assert!(verts.is_empty());
}

#[test]
fn a_full_frame_has_two_quads_a_bin() {
    let verts = Picture::new(params(vec![vec![1.0; 8]; 3], 8, 0)).build_vertices(&UNIT);
    assert_eq!(verts.len(), 12 * 8 * 3);
}

#[test]
fn the_newest_frame_stands_at_the_front() {
    // Two frames, the older of which is invisible.
    let verts =
        Picture::new(params(vec![vec![0.0, 0.0], vec![0.5, 0.5]], 2, 0)).build_vertices(&UNIT);
    assert_eq!(verts.len(), 24);
    // Level one would rise 0.52 of the height of 200 above the lower edge.
    let top = 200.0 - 0.5 * (200.0 * 0.52);
    assert_eq!(
        corners(&verts[..6]),
        vec![(0.0, top), (0.0, 200.0), (50.0, 200.0), (0.0, top), (50.0, 200.0), (50.0, top)]
    );
    let c = [0.5, 0.5, 0.5, 0.5];
    let clear = [0.0; 4];
    assert_eq!(colors(&verts[..6]), vec![c, clear, clear, c, clear, c]);
    assert_eq!(corners(&verts[6..7]), vec![(50.0, top)]);
    // The line runs along the top, half a pixel to either side, and is brighter.
    assert_eq!(
        corners(&verts[12..18]),
        vec![
            (0.0, top + 0.5),
            (0.0, top - 0.5),
            (50.0, top - 0.5),
            (0.0, top + 0.5),
            (50.0, top - 0.5),
            (50.0, top + 0.5)
        ]
    );
    assert_eq!(verts[12].color.r, 0.5 * 1.35);
    assert_eq!(verts[12].color.a, 0.5 * 0.9);
}

#[test]
fn older_frames_recede_and_fade() {
    let mut scene = params(vec![vec![1.0], vec![1.0]], 1, 0);
    scene.perspective = 1.0;
    let verts = Picture::new(scene).build_vertices(&UNIT);
    assert_eq!(verts.len(), 24);
    let (old, new) = (&verts[1], &verts[13]);
    // The floor of the older frame is a sixth of the way from the vanishing point.
    assert!((old.position.y - (8.0 + 192.0 / 6.0)).abs() < 1e-3);
    assert_eq!(new.position.y, 200.0);
    assert!(verts[0].color.a < verts[12].color.a);
}

#[test]
fn frequencies_run_as_the_rotation_says() {
    // The low bin is loud, the high bin is quiet.
    let at = |rotation: u32| {
        let frames = vec![vec![0.0, 0.0], vec![1.0, 0.0]];
        Picture::new(params(frames, 2, rotation)).build_vertices(&UNIT)
    };
    let loudest = |verts: &[Vertex<f32>]| {
        verts.iter().fold(verts[0], |best, v| if v.color.a > best.color.a { *v } else { best })
    };
    // 0: low at the left. 2: low at the right.
    assert_eq!(loudest(&at(0)).position.x, 0.0);
    assert_eq!(loudest(&at(2)).position.x, 100.0);
    // 1: low at the bottom. 3: high at the bottom, low at the top.
    assert_eq!(loudest(&at(1)).position.y, 200.0);
    assert_eq!(loudest(&at(3)).position.y, 0.0);
}

#[test]
fn rotations_repeat_after_four() {
    for rotation in 0..4 {
        let frames = vec![vec![0.1, 0.9, 0.4], vec![0.7, 0.2, 0.8]];
        let a = Picture::new(params(frames.clone(), 3, rotation)).build_vertices(&UNIT);
        let b = Picture::new(params(frames, 3, rotation + 4)).build_vertices(&UNIT);
        assert_eq!(corners(&a), corners(&b));
        assert_eq!(colors(&a), colors(&b));
    }
}

#[test]
fn reversal_mirrors_the_levels() {
    let frame = vec![0.125, 0.5, 1.0, 0.25];
    for joint in 0..=4 {
        assert_eq!(
            level_at::<Native>(&frame, true, joint, 4),
            level_at::<Native>(&frame, false, 4 - joint, 4)
        );
    }
    assert_eq!(level_at::<Native>(&frame, false, 0, 4), 0.125);
    assert_eq!(level_at::<Native>(&frame, false, 2, 4), 0.75);
    assert_eq!(level_at::<Native>(&frame, true, 0, 4), 0.25);
}

#[test]
fn placements() {
    let bounds = Bounds { x: 10.0, y: 20.0, width: 100.0, height: 200.0 };
    // At the front nothing shrinks, whatever the perspective.
    let front = placement::<Native>(bounds, false, 0.0, 5.0);
    assert_eq!((front.scale, front.alpha), (1.0, 1.0));
    assert_eq!((front.vanish, front.floor), (60.0, 220.0));
    assert!((front.rise - 104.0).abs() < 1e-4);
    let side = placement::<Native>(bounds, true, 0.0, 5.0);
    assert_eq!((side.vanish, side.floor), (120.0, 10.0));
    // At the back.
    let back = placement::<Native>(bounds, true, 1.0, 1.0);
    assert_eq!(back.scale, 0.5);
    assert!((back.floor - 58.0).abs() < 1e-4);
    assert!((back.alpha - 0.45).abs() < 1e-6);
}

#[test]
fn lines_have_width() {
    let from = Point { x: 0.0, y: 0.0 };
    let to = Point { x: 3.0, y: 4.0 };
    let verts = thin_line_verts::<Native>(from, to, black(), white(), 5.0, &UNIT);
    assert_eq!(
        corners(&verts),
        vec![(-4.0, 3.0), (4.0, -3.0), (7.0, 1.0), (-4.0, 3.0), (7.0, 1.0), (-1.0, 7.0)]
    );
    assert_eq!(verts[0].color.a, 0.0);
    assert_eq!(verts[2].color.a, 1.0);
    // A line of no length has none.
    let point = thin_line_verts::<Native>(to, to, black(), white(), 5.0, &Clip { scale: 2.0 });
    assert!(corners(&point).iter().all(|&p| p == (6.0, 8.0)));
}

// What holds over time, and of all inputs alike.

#[test]
fn levels_stay_between_zero_and_their_peaks() {
    let mut proc = Chroma::new(Config { smoothing: 1.0, hop_size: 4096, ..Default::default() });
    let mut shown: Vec<ChromaSnapshot<f32>> = Vec::new();
    for (i, hz) in [440.0, 82.41, 1318.5, 27.5, 3000.0].into_iter().enumerate() {
        shown.extend(proc.process_block(&block(&sine(hz, 1.0, 2 * LO_FFT_SIZE), 1)));
        proc.update_config(Config {
            smoothing: 0.3 * i as f32,
            peak_decay: 0.95,
            reference_hz: 440.0 + (i / 2) as f32,
            hop_size: 5000,
            ..Default::default()
        });
        shown.extend(proc.process_block(&block(&vec![0.0; 9000], 1)));
    }
    assert_eq!(shown.len(), 10);
    for snap in shown {
        for (level, peak) in snap.bins.into_iter().zip(snap.peak_bins) {
            assert!(0.0 <= level && level <= peak && peak <= 1.0);
        }
    }
}

#[test]
fn one_hop_decays_every_peak_once() {
    let config = Config { smoothing: 1.0, peak_decay: 0.95, ..Default::default() };
    let mut proc = Chroma::new(config);
    let first = proc.process_block(&block(&sine(440.0, 1.0, LO_FFT_SIZE), 1)).unwrap();
    let next =
        proc.process_block(&block(&sine(659.26, 1.0, DEFAULT_HOP_SIZE), 1)).unwrap();
    for i in 0..12 {
        assert_eq!(next.peak_bins[i], (first.peak_bins[i] * 0.95).max(next.bins[i]));
    }
    // Less than a hop changes nothing.
    let same = proc.process_block(&block(&[0.5; 1023], 1)).unwrap();
    assert_eq!(same.bins, next.bins);
    assert_eq!(same.peak_bins, next.peak_bins);
}

#[test]
fn earlier_samples_of_a_block_do_not_count() {
    let tail = sine(440.0, 1.0, LO_FFT_SIZE);
    let mut a = sine(82.41, 1.0, 3000);
    a.extend(&tail);
    let mut b = vec![0.25; 3000];
    b.extend(&tail);
    let shown = |samples: &[f32]| {
        Chroma::new(Config::default()).process_block(&block(samples, 1)).unwrap()
    };
    assert_eq!(shown(&a).bins, shown(&b).bins);
    assert_eq!(shown(&a).peak_bins, shown(&b).peak_bins);
    // One of the latest samples does, in the middle of the window.
    b[3000 + LO_FFT_SIZE / 2] += 50.0;
    assert_ne!(shown(&a).bins, shown(&b).bins);
}

#[test]
fn a_higher_noise_gate_adds_no_energy() {
    let mut band = BandFft::<Native>::new(HI_FFT_SIZE, RATE, 1000.0, 4186.0, 440.0);
    let queue: VecDeque<f32> = sine(2637.02, 1.0, HI_FFT_SIZE).into();
    assert!(band.process_from_tail(&queue));
    let at = |gate_db: f32| {
        let mut energy = [0.0_f32; 12];
        band.accumulate(&mut energy, gate_db);
        energy
    };
    let gates = [-200.0, -90.0, -60.0, -30.0, -12.0, 0.0];
    for pair in gates.windows(2) {
        for (low, high) in at(pair[0]).into_iter().zip(at(pair[1])) {
            assert!(0.0 <= high && high <= low);
        }
    }
    assert!(at(-200.0)[4] > at(0.0)[4]);
}

#[test]
fn only_ratios_of_frequencies_matter() {
    let plain = precompute_bin_contribs::<Native>(2048, RATE, 27.5, 4186.0, 440.0);
    let doubled =
        precompute_bin_contribs::<Native>(2048, 2.0 * RATE, 55.0, 8372.0, 880.0);
    assert_eq!(plain.len(), doubled.len());
    for (a, b) in plain.iter().zip(&doubled) {
        assert_eq!(a.is_some(), b.is_some());
        if let (Some(a), Some(b)) = (a, b) {
            assert_eq!((a.near.class, a.near.weight), (b.near.class, b.near.weight));
            assert_eq!((a.next.class, a.next.weight), (b.next.class, b.next.weight));
        }
    }
}

#[test]
fn a_semitone_adds_one() {
    let c0 = c0_from_reference::<Native>(440.0);
    let mut hz = 110.0_f32;
    for _ in 0..24 {
        let higher = hz * 2.0_f32.powf(1.0 / 12.0);
        let a = pitch_class_continuous::<Native>(hz, c0).unwrap();
        let b = pitch_class_continuous::<Native>(higher, c0).unwrap();
        let step = (b - a).rem_euclid(12.0);
        assert!((step - 1.0).abs() < 1e-3, "{step} at {hz}");
        hz = higher;
    }
}

#[test]
fn the_reference_is_an_a() {
    for reference in [420.0, 432.0, 440.0, 442.5, 460.0] {
        let c0 = c0_from_reference::<Native>(reference);
        let class = pitch_class_continuous::<Native>(reference, c0).unwrap();
        assert!((class - 9.0).abs() < 1e-4);
    }
}

#[test]
fn gains_of_any_ranges() {
    // A kilohertz per bin: the middles are at 2000, 1000 and 500 Hz.
    let weights = Waterfall::make_tilt_weights(&[(1, 3), (1, 1), (0, 1)], 64, 64_000.0, 20.0);
    for (weight, expected) in weights.iter().zip([10.0, 1.0, 0.1]) {
        assert!((weight / expected - 1.0).abs() < 1e-5, "{weight} for {expected}");
    }
    assert_eq!(weights.len(), 3);
    assert_eq!(Waterfall::make_tilt_weights(&[(5, 2)], 64, 64_000.0, 0.0009), vec![1.0]);
    assert!(Waterfall::make_tilt_weights(&[], 64, 64_000.0, 3.0).is_empty());
}

#[test]
fn opposite_tilts_are_inverse_and_positive_ones_grow() {
    let ranges: Vec<(usize, usize)> = (1..200).map(|i| (i, i + 2)).collect();
    let up = Waterfall::make_tilt_weights(&ranges, 2048, RATE, 4.5);
    let down = Waterfall::make_tilt_weights(&ranges, 2048, RATE, -4.5);
    for (a, b) in up.iter().zip(&down) {
        assert!((a * b - 1.0).abs() < 1e-5);
    }
    assert!(up.windows(2).all(|pair| pair[0] <= pair[1]));
    assert!(up[0] < 1.0 && up[198] > 1.0);
}

#[test]
fn parts_queue_as_joined() {
    let samples: Vec<f32> = (0..400).map(|i| (i % 7) as f32).collect();
    let mut joined = Waterfall::new(64, 16, RATE);
    joined.feed(&samples, 2);
    let mut parts = Waterfall::new(64, 16, RATE);
    parts.feed(&samples[..120], 2);
    parts.feed(&samples[120..], 2);
    assert_eq!(parts.drain_frames(), joined.drain_frames());
}

#[test]
fn the_reversed_picture_is_the_mirror_image() {
    let frames = vec![vec![0.25, 1.0, 0.5, 0.0], vec![0.5, 0.75, 0.125, 1.0]];
    for rotation in [0, 1] {
        let at = |rotation: u32| {
            let mut scene = params(frames.clone(), 4, rotation);
            scene.bounds = Bounds { x: 16.0, y: 32.0, width: 128.0, height: 256.0 };
            Picture::new(scene).build_vertices(&UNIT)
        };
        let (plain, turned) = (at(rotation), at(rotation + 2));
        assert_eq!(plain.len(), 2 * 2 * 4 * 6);
        assert_eq!(turned.len(), plain.len());
        // Areas and lines of each frame, from the last to the first.
        for (row, turned_row) in plain.chunks(4 * 6).zip(turned.chunks(4 * 6)) {
            for (quad, image) in row.chunks(6).rev().zip(turned_row.chunks(6)) {
                for (corner, opposite) in [5, 2, 1, 5, 1, 0].into_iter().zip(image) {
                    let p = quad[corner].position;
                    let (x, y) = if rotation == 0 {
                        (2.0 * 16.0 + 128.0 - p.x, p.y)
                    } else {
                        (p.x, 2.0 * 32.0 + 256.0 - p.y)
                    };
                    assert!((opposite.position.x - x).abs() < 1e-3);
                    assert!((opposite.position.y - y).abs() < 1e-3);
                    assert_eq!(opposite.color.a, quad[corner].color.a);
                }
            }
        }
    }
}

#[test]
fn settings_out_of_range_act_as_the_nearest() {
    let frames = vec![vec![0.25, 1.0], vec![0.5, 0.75]];
    for (perspective, nearest) in [(-3.0, 0.0), (1.5, 1.0), (0.5, 0.5)] {
        let mut wild = params(frames.clone(), 0, 7);
        wild.perspective = perspective;
        let mut tame = params(frames.clone(), 1, 3);
        tame.perspective = nearest;
        let a = Picture::new(wild).build_vertices(&UNIT);
        let b = Picture::new(tame).build_vertices(&UNIT);
        assert_eq!(a.len(), 24);
        assert_eq!(corners(&a), corners(&b));
        assert_eq!(colors(&a), colors(&b));
    }
}

#[test]
fn values_past_the_bins_are_not_read() {
    for rotation in 0..4 {
        let long = params(vec![vec![0.5, 0.75, 9.0, 9.0], vec![0.25, 1.0, 9.0]], 2, rotation);
        let cut = params(vec![vec![0.5, 0.75], vec![0.25, 1.0]], 2, rotation);
        let a = Picture::new(long).build_vertices(&UNIT);
        let b = Picture::new(cut).build_vertices(&UNIT);
        assert_eq!(corners(&a), corners(&b));
        assert_eq!(colors(&a), colors(&b));
    }
}

#[test]
fn only_frames_with_enough_bins_are_drawn() {
    let frames = vec![vec![1.0; 3], vec![1.0; 4], vec![1.0; 5], vec![]];
    let verts = Picture::new(params(frames, 4, 0)).build_vertices(&UNIT);
    assert_eq!(verts.len(), 12 * 4 * 2);
}

#[test]
fn ridge_lines_are_one_pixel_wide() {
    // The level falls by one from the first bin to the second: a slanted line.
    let verts =
        Picture::new(params(vec![vec![0.0, 0.0], vec![1.0, 0.0]], 2, 0)).build_vertices(&UNIT);
    let lines = &verts[verts.len() - 12..];
    for line in lines.chunks(6) {
        let (upper, lower) = (line[0].position, line[1].position);
        let across = ((upper.x - lower.x).powi(2) + (upper.y - lower.y).powi(2)).sqrt();
        assert!((across - 1.0).abs() < 1e-4, "{across}");
        let (end, start) = (line[5].position, line[0].position);
        let dot = (upper.x - lower.x) * (end.x - start.x) + (upper.y - lower.y) * (end.y - start.y);
        assert!(dot.abs() < 1e-2);
    }
}

#[test]
fn frames_recede_in_order() {
    let bounds = Bounds { x: 10.0, y: 20.0, width: 100.0, height: 200.0 };
    for i in 0..10 {
        let (deep, near) = (1.0 - i as f32 / 10.0, 1.0 - (i + 1) as f32 / 10.0);
        for vertical in [false, true] {
            let back = placement::<Native>(bounds, vertical, deep, 3.0);
            let front = placement::<Native>(bounds, vertical, near, 3.0);
            assert!(back.scale < front.scale && back.alpha < front.alpha);
            assert_eq!(back.floor < front.floor, !vertical);
        }
    }
}

#[test]
fn rounded_numbers_keep_the_rules_of_order() {
    let mut values = vec![
        0.0, -0.0, 1.0, -1.0, 0.5, 0.07, 1.0 / 3.0, 2.0 / 3.0, 0.9, 0.997, 0.999, 5.0, 1000.0,
    ];
    values.extend([f32::MIN_POSITIVE, 1e-45, -1e-45, f32::EPSILON, 1.0 - f32::EPSILON]);
    values.extend([f32::MAX, f32::MIN, 1e30, -1e30, f32::INFINITY, f32::NEG_INFINITY, f32::NAN]);
    let unit = |a: f32| (0.0..=1.0).contains(&a);
    let same = |a: f32, b: f32| a.to_bits() == b.to_bits();
    for &a in &values {
        if a.is_finite() {
            assert!(same(a - a, 0.0) && same(a - 0.0, a) && same(a + (0.0 - a), 0.0));
            assert!((0.0 - a).is_finite() && a + 0.0 <= a);
            assert!(same(1.0 * a, a) && same(a * 1.0, a) && 0.0 * a == 0.0 && a * 0.0 == 0.0);
            if a > 0.0 {
                assert!(same(a / a, 1.0) && same(0.0 / a, 0.0));
            }
            let held = a.clamp(0.0, 1.0);
            assert!(unit(held));
        }
        if unit(a) {
            assert!(a + (1.0 - a) <= 1.0 && unit(a.sqrt()));
        }
        for &b in &values {
            if a.is_finite() && b.is_finite() {
                let larger = a.max(b);
                assert!(a <= larger && b <= larger && (same(larger, a) || same(larger, b)));
            }
            if 0.0 <= a && 0.0 <= b {
                assert!(a <= a + b);
            }
            if unit(a) && b.is_finite() && b <= 0.0 {
                assert!(b <= a * b);
            }
            for &x in &values {
                if 0.0 <= a && a <= b && 0.0 <= x {
                    assert!(a + x <= b + x);
                }
                if !(a.is_finite() && b.is_finite() && x.is_finite() && a <= b) {
                    continue;
                }
                assert!(a + x <= b + x && x + a <= x + b);
                assert!(a - x <= b - x && x - b <= x - a);
                if 0.0 <= x {
                    assert!(a * x <= b * x && x * a <= x * b);
                }
                if 0.0 < x {
                    assert!(a / x <= b / x);
                }
                if 0.0 < a && 0.0 <= x {
                    assert!(x / b <= x / a);
                }
            }
        }
    }
    // One and what is left of it, all the way up.
    for i in 0..=1_000_000 {
        let a = i as f32 / 1_000_000.0;
        assert!(a + (1.0 - a) <= 1.0);
    }
}

#[test]
fn tones_outside_the_band_do_not_matter_to_the_gate() {
    let band = BandFft::<Native>::new(2048, RATE, 1000.0, 4186.0, 440.0);
    let mut bins = vec![Complex { re: 0.0002, im: 0.0 }; 1025];
    bins[10] = Complex { re: 2048.0, im: 0.0 }; // 234 Hz, as loud as can be
    bins[900] = Complex { re: 2048.0, im: 0.0 }; // 21 kHz
    let mut energy = [0.25_f32; 12];
    band.accumulate_spectrum(&bins, &mut energy, -70.0);
    assert_eq!(energy, [0.25; 12]);
}

#[test]
fn a_flat_spectrum_gives_equal_energies() {
    let band = BandFft::<Native>::new(16384, RATE, 27.5, 1000.0, 440.0);
    let bins = vec![Complex { re: 8192.0, im: 0.0 }; 8193]; // a power of a quarter
    let mut energy = [0.0_f32; 12];
    band.accumulate_spectrum(&bins, &mut energy, -70.0);
    for e in energy {
        assert!((e - 0.25).abs() < 1e-4, "{e}");
    }
}

#[test]
fn spectra_never_take_energy_away() {
    let band = BandFft::<Native>::new(2048, RATE, 1000.0, 4186.0, 440.0);
    let bins = vec![Complex { re: -30.0, im: 40.0 }; 1025];
    let before = [-3.0, -0.5, 0.0, 0.5, 3.0, 1e9, -1e9, 1.0, 1.0, 1.0, 1.0, 1.0];
    let mut after = before;
    band.accumulate_spectrum(&bins, &mut after, -70.0);
    let mut gated = before;
    band.accumulate_spectrum(&bins, &mut gated, -20.0);
    for c in 0..12 {
        assert!(before[c] <= gated[c] && gated[c] <= after[c]);
    }
}

#[test]
fn weights_are_between_zero_and_one() {
    for reference in [420.0, 440.0, 460.0] {
        let contribs = precompute_bin_contribs::<Native>(16384, RATE, 27.5, 1000.0, reference);
        for shared in contribs.iter().flatten() {
            assert!((0.0..=1.0).contains(&shared.near.weight));
            assert!((0.0..=1.0).contains(&shared.next.weight));
        }
    }
}

#[test]
fn classes_are_the_nearest() {
    let way = |pitch: f32, class: u8| {
        let d = pitch - class as f32;
        if d > 6.0 {
            d - 12.0
        } else if d < -6.0 {
            d + 12.0
        } else {
            d
        }
    };
    for i in 0..=1200 {
        let pitch = i as f32 / 100.0;
        let shared = contrib_at::<Native>(pitch);
        let (near, next) = (way(pitch, shared.near.class), way(pitch, shared.next.class));
        assert!(near.abs() <= 0.5 + 1e-5, "{pitch}");
        assert!((0.5 - 1e-5..=1.0 + 1e-5).contains(&next.abs()), "{pitch}");
        assert!((shared.near.weight - (-2.0 * near * near).exp()).abs() < 1e-5);
        assert!((shared.next.weight - (-2.0 * next * next).exp()).abs() < 1e-5);
    }
}

#[test]
fn an_octave_of_c0_keeps_the_pitch_class() {
    let c0 = c0_from_reference::<Native>(440.0);
    for hz in [30.0, 261.63, 440.0, 4000.0] {
        let low = pitch_class_continuous::<Native>(hz, c0).unwrap();
        let high = pitch_class_continuous::<Native>(hz, 2.0 * c0).unwrap();
        assert!((low - high).abs() < 1e-4);
    }
}

#[test]
fn display_bins_ascend_and_leave_no_gap() {
    let waterfall = Waterfall::new(4096, 4096, RATE);
    let mut last = (0, 0);
    // 20 Hz to 20 kHz, in bins of about 11.7 Hz.
    for bin in 2..1700 {
        let mut bins = vec![Complex { re: 0.0, im: 0.0 }; 2049];
        bins[bin] = Complex { re: 4096.0, im: 0.0 };
        let frame = waterfall.make_frame(&bins);
        let first = frame.iter().position(|&x| x == 1.0).unwrap();
        let end = frame.iter().rposition(|&x| x == 1.0).unwrap();
        // The display bins that show it are in a row, and none are further down than before.
        assert!(frame[first..=end].iter().all(|&x| x == 1.0));
        assert!(last.0 <= first && last.1 <= end);
        last = (first, end);
    }
}

#[test]
fn rounded_numbers_keep_the_other_rules() {
    let finite = [
        0.0, -0.0, 1e-45, -1e-45, 1e-30, 0.01, 0.5, -0.5, 0.999, 1.0, -1.0, 2.5, 11.5, 12.0, -36.0,
        1000.0, 16777215.0, 16777216.0, 1e20, -1e20, f32::MAX, f32::MIN,
    ];
    let mut all = finite.to_vec();
    all.extend([f32::INFINITY, f32::NEG_INFINITY, f32::NAN]);
    let gathered = |a: f32| a.is_finite() || 0.0 <= a;
    for &a in &all {
        if a.is_finite() {
            assert!(0.0 <= a * a && a / 1.0 == a);
        }
        if a == a {
            assert!(0.0 <= a.powi(2));
            assert!(!(0.0 <= a) || -0.5 * a <= 0.0);
            assert!(!(a <= 0.0) || (0.0..=1.0).contains(&a.exp()));
            assert!(a.floor() as usize <= a.ceil() as usize);
        }
        for &b in &all {
            if gathered(a) && 0.0 <= b {
                assert!(a <= a + b && gathered(a + b));
                assert!(!(0.0 <= a) || b <= a + b);
            }
            if 0.0 <= a && 0.0 <= b && a * b == a * b {
                assert!(0.0 <= a * b);
            }
            if a.is_finite() && b.is_finite() {
                assert!(a < b || b <= a);
            }
            if !(a <= b) {
                continue;
            }
            assert!(a.exp() <= b.exp() && 10.0_f32.powf(a) <= 10.0_f32.powf(b));
            assert!(a.floor() as usize <= b.floor() as usize);
            assert!(a.ceil() as usize <= b.ceil() as usize);
            assert!(!(0.0 < a) || a.log2() <= b.log2());
            for &x in &finite {
                if gathered(a) && gathered(b) && 0.0 <= x {
                    assert!(a + x <= b + x);
                }
                if 0.0 < x {
                    assert!(a / x <= b / x && x * a <= x * b);
                }
            }
        }
    }
    // Sums of moderate numbers stay moderate.
    for j in [0, 1, 7, 1000, 8388608] {
        for k in [0, 1, 9, 1234, 8388608] {
            for part in [-1.0, -0.7, 0.0, 0.3, 1.0_f32] {
                let (a, b) = (part * j as f32, -part * k as f32);
                let most = (j + k) as f32;
                assert!((a + b).abs() <= most && (a - b).abs() <= most && (a * b).is_finite());
            }
        }
    }
}
