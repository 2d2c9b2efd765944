//! Collision and throughput evaluation of hash functions over one column of a
//! delimited dataset.

pub mod coltester;
pub mod dataset;
pub mod hasher;
pub mod misc;
pub mod perftester;
