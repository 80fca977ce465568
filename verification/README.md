# dezero

The verified integer core of a small define-by-run deep learning framework
and its convolutional networks: everything that decides *which* numbers
meet where, verified with Verus. The crate does
not contain the framework itself: there is no autodiff engine over
floating-point arrays, no GPU back end and no trained networks here. `app/`
holds the `ndarray` glue and the floating-point layers that sit directly on
the library (convolution, pooling, upsampling, loaders, MNIST files).

## Layout

- `src/` — the verified library
  - `config.rs` — the back-propagation switch, `no_grad` guards and how
    differentiation sets and restores the switch
  - `graph.rs` — the computational graph: generations of function calls, the
    order in which reverse-mode differentiation visits variables, and which
    gradients it seeds and drops
  - `shape.rs`, `functions.rs` — shape rules of the differentiable functions
    (broadcasting, reductions, transposes, slicing and concatenation,
    gathering, bilinear upsampling taps)
  - `cnn.rs` — unfolding images into columns (`im2col`) and the folding plan
    of its adjoint (`col2im`)
  - `pooling.rs` — the gradient routing of max pooling
  - `kernels.rs` — uniform blocks, buffer shapes and workgroup counts for
    launching compute kernels on a GPU (the device code is not in this crate)
  - `nets.rs` — layer sizes and parameter shapes of the convolutional
    networks, evaluation batches
  - `weights.rs` — all-or-nothing loading of saved parameters
  - `mnist.rs` — the IDX file format of MNIST, held in `ndarray` arrays
  - `dataloader.rs` — mini-batch schedules, with shuffling by `rand`
  - `dot.rs` — the Graphviz text of a computational graph
  - `arith.rs` — index arithmetic lemmas
- `tests/` — tests of the library
- `app/` — file input, `ndarray` glue and the floating-point layers built on
  the library
