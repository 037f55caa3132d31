//! Clustering of named, interconnected regions by repeated fusion of adjacent
//! pairs, minimizing the population variance of GDP across the final regions.
//!
//! Region names are byte strings; GDP values are integer units, so that every
//! aggregate (total, mean, variance, the lower-bound estimate) is exact: a
//! variance is exposed as an explicit ratio of integers rather than a rounded
//! approximation.

pub mod country;
pub mod order;
pub mod parse;
pub mod region;
pub mod search;
pub mod stats;
