# extropic-sim

Block Gibbs sampling of discrete probabilistic graphical models, verified with
[Verus](https://github.com/verus-lang/verus).

Models have spin and categorical variables and energy factors of the form
`-W[c_1..c_N] * s_1..s_M`. A model and a partition of its nodes into blocks of
non-interacting nodes compile into flat update streams, which run on the CPU or
on a GPU over a batch of parallel chains. All random numbers are counter-based
hashes, so runs are reproducible for a fixed seed.

## Layout

- `src/` is the library. Everything in it is verified.
  - `graph`, `factor`, `error`: variables, factors and what can be wrong with them
  - `checks`, `streams`, `record`, `program`: validating a model and compiling it
    into record streams; `limits` tells which models fit the word sizes
  - `soundness`, `energy`: what compiled programs guarantee, and that the records
    of a node are its conditional energy
  - `rng`, `state`, `schedule`, `gibbs`, `samples`, `cpu`: draws, chains, updates
    and recorded samples
  - `coloring`, `models`: coloring of interaction graphs and Ising models
  - `gpu`, `dispatch`, `kernels`: what is uploaded to a GPU, the dispatches of a
    run, and that they sample the chains that the CPU samples, given kernels that
    compute what `kernels` says
  - `bindings`, `nested`, `text`: models over free-standing variables and values
    as nested lists, for callers in other languages
- `app/` makes numbers of it: floating-point probabilities and energies, the
  `Sampler` trait over both backends, the GPU device, and Python bindings.
- `tests/` run the library, including statistical tests against exact
  Boltzmann distributions.

## Weights

The library is generic in the type of the weights and never computes with them.
It determines which weights make up the energy of a state or the field of a
node, and with which sign; a sampler is handed a function that turns the signed
weights of a spin into the probability of being up, as a threshold on 24-bit
draws, and one that picks a category. What is proved of a run holds for every
such pair of functions.

## What is trusted

- `bytemuck::cast_slice` gives the bytes of words in one of the two byte orders.
- The standard library's conversions into `Vec` keep the items in order.

The kernels themselves are WGSL code in `app/shader.rs`, which is not verified:
nothing proves that they compute what `kernels` says of them.
