//! Site percolation on a square lattice: spanning detection by burning,
//! cluster labelling by the Hoshen-Kopelman scheme, and Monte Carlo tallies.

pub mod burning;
pub mod config;
pub mod grid;
pub mod labeling;
pub mod laws;
pub mod simulation;
pub mod union_find;

pub use burning::{burn_dfs, reset_lattice, EMPTY, OCCUPIED, VISITED};
pub use config::{check_run, check_threshold, sweep_thresholds, ConfigError, Mode};
pub use grid::neighbors;
pub use labeling::{cluster_sizes, hoshen_kopelman, largest_cluster};
pub use simulation::{
    average_trial, distribution_trial, generate_lattice, run_average, run_distribution,
    site_from_draw, tally_sizes, AverageTally, TrialOutcome, FULL_THRESHOLD,
};
pub use union_find::{find_root, FIRST_LABEL};
