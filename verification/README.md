# chroma_waterfall

Two spectral meters for audio, verified with Verus.

- `src/chroma.rs` shows how strong each of the twelve pitch classes is, with smoothing
  and decaying peaks. `src/pitch.rs` shares the bins of a spectrum among the classes,
  and `src/band.rs` analyses one band of frequencies.
- `src/waterfall.rs` turns audio into frames of display levels, one for every hop.
  `src/render.rs` turns frames into the triangles of a receding picture.
  `src/perspective.rs` states how its frames recede, and `src/mirror.rs` what its reversed
  rotations show.
- `src/display.rs` states how the waterfall divides the spectrum and tilts it, and
  `src/weights.rs` what the bands of the meter make of spectra.
- `src/history.rs` states what holds of the pitch class meter over time, and
  `src/tuning.rs` how pitch classes follow frequencies.
- `src/audio.rs` and `src/sizing.rs` hold what both meters share: queues of samples,
  windows, transform lengths and hops.
- `src/kit.rs` is the seam to the surrounding program.

## Numbers

The library computes with the numbers of the surrounding program, through the trait
`Kit`. Its methods are the elementary operations and a few services: Fourier transforms,
analysis windows, mixing channels, colors. They have no contracts, so the proofs assume
nothing of them.

Contracts speak of results through `Model`, a set of mathematical functions, one for each
method. They have the form

    forall|m: Model<K>| m.describes() ==> result == m.something(arguments)

which says: whenever the functions of `m` account for what the kit's methods return, the
result is this expression of them. What there is to account for is split into parts, such
as `describes_arithmetic` or `describes_drawing`, and a contract asks only for the parts
that its function makes use of. Lengths, indices, counts, which samples are looked at and
which are kept are stated without reference to a model.

Laws name what they need of the model in their `requires`. Most need only the rules of
`src/order.rs`, which rounded arithmetic keeps. Some, such as that a reversed picture is
the mirror image, are exact only in the exact arithmetic of `src/exact.rs`; beside them
stand laws for rounded numbers, with the error they allow, in `src/rounding.rs` and
`src/tuning.rs`.

## The rest

`app/` has the kit for single precision numbers, with `realfft` for the transforms, and
the conversions from `iced`. `tests/` runs the library with the same kind of kit.
