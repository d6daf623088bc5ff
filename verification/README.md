# rustograd

Reverse-mode automatic differentiation on an append-only arena of nodes, a
small neural-network library on top of it (neurons, layers, multi-layer
perceptrons), and a binary classifier trained one step at a time with an SVM
hinge loss and L2 regularisation.

## Layout

- `src/` is the library: every function carries a contract, proved along
  with the laws that relate them.
  - `engine.rs`: the arena (`Graph`), its operations, the backward pass and
    the order in which it propagates gradients. Values are abstracted by the
    `Scalar` trait: each value is stated as a result of the scalar's own
    operation on its inputs, so the facts hold for any arithmetic.
  - `nn.rs`: `Neuron`, `Layer`, `MLP`: where their parameters live in the
    arena, their He-uniform scaling, and which nodes their forward passes
    append.
  - `trainer.rs`: the loss graph, the training `Session` and the choice of
    recorded frames.
  - `text.rs`: decimal numbers, the JSON layout of a run, and the parsing of
    a comma-separated list of layer sizes.
- `app/` is ordinary Rust around the library: `f64` as the `Scalar`, the
  uniform draws of weight initialisation, the moons dataset, per-neuron telemetry in JSON,
  the WebAssembly bindings (compiled for `wasm32` only) and an interactive
  prompt.
- `tests/` runs the library on `f64` values.
