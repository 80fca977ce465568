//! A verified core for a small define-by-run deep learning framework:
//! the switches of the framework, the shape rules of its differentiable
//! functions, the scheduling and bookkeeping of reverse-mode differentiation
//! over the computational graph, the index arithmetic of convolution and pooling and
//! of the launches of their compute kernels, the layer sizes of the
//! convolutional networks, the MNIST IDX decoder, the mini-batch planning of
//! the data loaders, the Graphviz text that draws a graph and the checks
//! of loading saved parameters.
//! Floating-point arithmetic itself lives outside this crate.

pub mod config;
pub mod graph;
pub mod arith;
pub mod cnn;
pub mod shape;
pub mod functions;
pub mod kernels;
pub mod pooling;
pub mod dataloader;
pub mod mnist;
pub mod nets;
pub mod dot;
pub mod weights;
