# nowcast

Dynamic geohazard nowcasting: a static susceptibility map times a dynamic
trigger, with alerts, attribution, calibration and verification.

- `src/` is the library. Every function carries a contract that Verus proves, but
  for the few in `raster.rs` and `runout.rs` that call another crate: theirs say
  what that crate does.
  The laws that relate several functions are the public `lemma_…` functions.
- `app/` is the program around it: the command line, files, the Python module,
  and the floating-point unit that the library is run on.
- `tests/` runs the library on concrete values.

Numbers in the library are binary64 bit patterns. Their order, signs and classes
are defined on integers; sums, products, powers and exponentials come from a type
parameter `A: Arithmetic`, and each contract states which operations on which
values lead to a result. Laws that need more of an arithmetic take it as a named
condition on single operations, such as `deterministic` (equal operands give equal
results), `rounds_properly` (results stay within the bounds that correct rounding
keeps), `rounds_closely` (sums, differences, products and quotients are within a
neighbouring value of the exact ones) or `exponential_is_accurate`. Errors of longer
computations, such as the mean of a block of scores or the way from a trigger factor to
an intensity and back, are derived from these. Double precision on one machine, with
correctly rounded operations, and an exponential and a logarithm that are accurate and
monotone, meets all of the conditions: each one carries the bounds within which that
holds.

The simulation engines that `app/engines.rs` calls are separate crates. That
module is compiled with `--cfg engines`.
