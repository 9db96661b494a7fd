pub mod canvas;
pub mod color;
pub mod error;
pub mod geometry;
pub mod ops;
pub mod sampler;
pub mod search;
pub mod transport;
