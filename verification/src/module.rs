//! Layers whose work is data movement: reshaping and the gather/scatter
//! bookkeeping of convolution.

pub mod conv2d;
pub mod flatten;

pub use conv2d::ConvGeometry;
pub use flatten::Flatten;
