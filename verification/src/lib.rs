//! Two spectral meters for audio, and the picture of one of them.
//!
//! - [`chroma`] shows how strong each of the twelve pitch classes is. It rests on
//!   [`pitch`], which shares the bins of a spectrum among the classes, and on [`band`],
//!   which analyses one band of frequencies.
//! - [`waterfall`] turns audio into frames of display levels, and [`render`] turns
//!   frames into triangles. [`perspective`] states how its frames recede, [`painting`] how
//!   they are painted, and [`mirror`] what its reversed rotations show.
//! - [`display`] states how the waterfall divides the spectrum and tilts it, and
//!   [`decibels`] what its levels stand for.
//! - [`history`] states what holds of the meter of pitch classes over time, [`hops`] what
//!   one hop of it does, and [`tuning`] how pitch classes follow frequencies. [`weights`]
//!   states what bands make of spectra.
//! - [`setup`] states that both meters follow changes of rate, length and settings.
//! - [`audio`] holds what both meters do with samples, and [`sizing`] what they do with
//!   lengths.
//! - [`kit`] is what the surrounding program supplies: numbers, Fourier transforms,
//!   windows and colors. [`order`], [`exact`] and [`rounding`] say what laws may need of
//!   the numbers.
pub mod audio;
pub mod band;
pub mod chroma;
pub mod decibels;
pub mod display;
pub mod exact;
pub mod history;
pub mod hops;
pub mod kit;
pub mod mirror;
pub mod order;
pub mod painting;
pub mod perspective;
pub mod pitch;
pub mod render;
pub mod rounding;
pub mod setup;
pub mod sizing;
pub mod tuning;
pub mod waterfall;
pub mod weights;
