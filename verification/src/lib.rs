//! A small deep learning framework whose tensor layout, data movement and
//! index bookkeeping are verified: the `Tensor` views (reshape, transpose,
//! contiguous copies, element-wise and broadcast maps), the `Flatten`
//! layer, the im2col gather/scatter of a convolution, the reproducible
//! shuffle and its generator, the mini-batch schedule and the decoding of
//! the MNIST files.

pub mod datasets;
pub mod layout;
pub mod loss;
pub mod module;
pub mod report;
pub mod rng;
pub mod tensor;
pub mod training;

pub use loss::{MSELoss, SoftmaxCrossEntropy};
pub use module::{ConvGeometry, Flatten};
pub use tensor::Tensor;
