# pf_core

3D Monte Carlo localization from point landmarks, written and proved in Verus:
a particle filter over full 6-DoF poses with two backends behind one trait, and
global localization over 2D occupancy grids.

## Layout

- `src/` - the verified library.
  - `particle_filter` - the `Backend` trait, the factory and the filter driver
  - `cpu` - the parallel CPU backend; its passes are in `motion`, `likelihood`,
    `weights`, `resampling` and `moments`
  - `cuda`, `device` - the CUDA backend: which kernels run with which arguments,
    and how packed answers are read
  - `global_loc`, `grid`, `ranking` - hypotheses, ray casts, scores, the best `k`
  - `pgm`, `map_yaml`, `landmark_map`, `text` - the file formats
  - `num`, `numerics`, `types`, `rng`, `sim`, `config` - numbers, vectors, random
    streams, fixtures, settings
  - `repeat`, `ray_laws`, `gl_laws`, `fit_laws`, `map_laws` - laws, most of which
    ask something of the arithmetic
- `tests/` - tests over binary64 arithmetic, with an emulated device.
- `app/` - the benchmark program: floating point, the C interface of the CUDA
  kernels, timing and printing.

## How numbers are handled

A number is a binary64 bit pattern (`num::Num`). Comparing, negating, clamping
and telling NaNs apart is done on the bits and proved. Everything that rounds is
an operation of the `numerics::Numerics` trait, of which nothing is assumed: a
contract says which operation was applied to which values, in which order, and
holds whatever the operation returns. The device kernels are treated alike: a
kernel takes the device and hands it back, so a contract that relates the device
before a call to the device after it says which kernels ran, on which arguments
and in which order.

## Laws

Public proof functions named `law_..` state what the library promises. Most hold
whatever the arithmetic does. Those on two runs ask that equal arguments give
equal results (`repeat::repeats`), and those on ray lengths and on the best fit
ask that signs and order are kept; each names what it asks.

- A non-zero seed and the calls made fix everything a CPU backend shows.
- Observations of unknown landmarks have no influence.
- Without a cutoff no particle weighs more than one that fits an observation
  perfectly; beyond the cutoff all weigh the same.
- Re-injection moves exactly `ratio * n` positions, cut to an index, and changes
  nothing else.
- A shorter range only clips a ray; more obstacles never lengthen it.
- A pose scored against its own map-scan has the error 0.
- A smaller `topk` returns the start of a larger one; more hypotheses never
  raise the best score.
- Map texts loaded in turn are the joined text; brackets, blank lines and comments
  change nothing.
- Fixtures are frozen, and landmarks lie in their box.
- The scores of what a localizer returns never fall, NaN aside.
- A landmark table that has been sent is not sent again.

## What is trusted

The outside calls: seeding and drawing from `rand`'s `SmallRng`, one draw of
entropy, `rayon`'s parallel map, and two functions of the standard library
(lossy UTF-8 decoding and pushing a character on a string). Each says in its doc
comment what is claimed of it.

## Weights

Weights are stored in single precision on both backends and summed in double.
The attitude covariance uses the `atan2` form of the rotation angle, which stays
accurate for tightly converged clouds.
