//! The objectives that close a network.

use vstd::prelude::*;

verus! {

/// Regression loss: compares the network's final output with a continuous
/// target tensor of the same shape. Its value and gradient are
/// floating-point arithmetic, computed by the application.
#[derive(Clone, Copy, Debug, Default)]
pub struct MSELoss;

/// Classification loss on raw logits `[B, C]` and one class label per
/// example, fusing softmax and cross-entropy and averaging over the batch.
/// Its value and gradient are floating-point arithmetic, computed by the
/// application.
#[derive(Clone, Copy, Debug, Default)]
pub struct SoftmaxCrossEntropy;

} // verus!
