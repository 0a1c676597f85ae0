//! Fraud scoring core: the binary reference index format, the bucket
//! partition used to find nearby references, the fixed-size nearest
//! neighbour selection and the integer parts of request vectorization.

pub mod types;
pub mod index;
pub mod topk;
pub mod partition;
pub mod scoring;
pub mod vectorize;
pub mod config;
pub mod resources;
