# plausiden_stack

A heterogeneous compositional "Stack" architecture on a hyperdimensional
computing (HDC) substrate: bipolar hypervectors, their algebra (bind,
bundle, permute, similarity), Stacks that apply several operation modes to
one input and bundle the results, Stacks-of-Stacks that share a blackboard
hypervector, and soft-gated Stacks.

## Layout

- `src/` is the library, verified with Verus. Every public function carries
  a contract over a mathematical model (`Seq<i8>` views of hypervectors,
  spec functions for each operation's outcome), and the algebraic laws are
  proof functions in `src/hdc_laws.rs` and `src/stack_laws.rs`.
- `tests/` runs the library on concrete values.
- `app/` is the unverified layer: everything that computes in floating
  point (the FFT that HRR binding hands to the library as its *spectral
  binder*, `f64` similarities, softmax gating, the noise-injected gated
  Stack and the reward-tracking meta-controller), serde representations of
  the library's types, and `std::error::Error` versions of its errors.

## Where floating point meets the library

Cosine similarity and hamming distance are returned as exact fractions
(`Ratio`); their `f64` values are `num / den`. Gate scores are the same
fractions. HRR binding takes the signs of the circular convolution from a
caller-supplied function, and the library checks the dimensions before and
the bipolarity after.
