# ap_project

A small deep learning framework (tensors, layers, losses, optimizers and an
experiment suite on MNIST and California Housing) whose layout, data
movement and bookkeeping are verified with Verus.

- `src/` is the verified library:
  - `layout`: shapes, row-major strides, flat and multi-indices, offsets;
  - `tensor`: `Tensor<T>`, a shared flat buffer with a shape and strides,
    with views (`t`, `reshape`), contiguous copies and element-wise and
    broadcast maps;
  - `module`: `Flatten` and `ConvGeometry`, the im2col gather, the
    scatter of its gradient (`col2im`, over a generic `scatter_accumulate`)
    and the moves between the product and image layouts of a convolution;
  - `rng`: the xorshift64 generator and the reproducible shuffle;
  - `training`: the mini-batch schedule;
  - `datasets::mnist`: decoding of the IDX files;
  - `report`: durations for display; the contract states the rounding to
    the nearest double and then to tenths, ties to even, on integers, and
    `tests/durations.rs` checks it against std's `f64` formatting;
  - `datasets::housing`: the line and field spans of the CSV text;
  - `loss`: the loss types.
- `app/` is the program: the floating-point arithmetic (matrix products,
  activations, losses, optimizers), the `Module` trait and its layers, file
  reading and the experiments.
- `tests/` exercise the library on concrete values.
