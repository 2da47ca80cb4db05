//! Host-side logic of a gradient-boosting device backend: coverage gates, resident
//! session planning, histogram and scan kernels, split selection, compressed feature
//! columns and the pairwise, ranking, multi-output and ordered drivers.
//!
//! What a function promises stands in its contract. What holds across functions, or of a
//! result as a number, stands in the modules named after their laws; [`exact`] says how an
//! element is read as a number.

pub mod cell_laws;
pub mod channel;
pub mod cindex;
pub mod column_laws;
pub mod config;
pub mod coverage;
pub mod ctr;
pub mod elementwise;
pub mod error;
pub mod exact;
pub mod fault_laws;
pub mod fixed_laws;
pub mod focal_laws;
pub mod guard;
pub mod histogram;
pub mod loss;
pub mod loss_laws;
pub mod mass;
pub mod modular;
pub mod multiclass;
pub mod multiclass_laws;
pub mod ordered;
pub mod ordered_laws;
pub mod pair_laws;
pub mod pairwise;
pub mod partition;
pub mod ranking;
pub mod ranking_laws;
pub mod rng;
pub mod run_laws;
pub mod scan;
pub mod score_laws;
pub mod segment;
pub mod session;
pub mod smooth;
pub mod sort;
pub mod split;
pub mod split_laws;
pub mod text;
pub mod tree_laws;
pub mod warmup;
