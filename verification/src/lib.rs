//! Multi-repository command runner core: tag resolution, ordered command
//! execution bookkeeping, and the shaping of per-path subprocess output —
//! including the specialized git branch-status formatter.

pub mod argparse;
pub mod configmodels;
pub mod execute;
pub mod mrt_errors;
pub mod status;
