//! Clustering of named items by pairwise similarity scores.
//!
//! A complete set of pairwise scores over a closed name set is frozen into a
//! compact symmetric similarity table, and an incremental clique-evolution
//! engine reports, for a sequence of ascending score thresholds, how the
//! names group into connected cliques at each threshold and how each group
//! relates to the groups at the previous threshold.

pub mod allpairs;
pub mod clique;
pub mod cliques;
pub mod driver;
pub mod loader;
pub mod order;
pub mod pairs;
pub mod ppm_table;
pub mod scan;
