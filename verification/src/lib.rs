//! Randomized decision-tree ensembles that can forget individual training
//! samples without being retrained.
//!
//! Split quality is an exact fixed-point Gini gain, so that every ranking
//! decision is reproducible. A robustness search decides whether a chosen
//! split could lose its first rank after a bounded number of removals;
//! where it could, the tree keeps every plausible candidate alive as an
//! alternative subtree. Forgetting a sample lowers the counts that include
//! it and ranks the alternatives anew.
//!
//! - [`dataset`]: summaries of datasets, and samples.
//! - [`split_stats`]: the counts of a split and its score.
//! - [`robustness`]: the search for removals that overturn a champion.
//! - [`scan`]: counting the samples on either side of a split.
//! - [`tree`], [`positions`], [`ranking`]: trees with open positions.
//! - [`candidates`], [`champion`], [`partition`], [`fitting`]: fitting a tree.
//! - [`forget`]: forgetting a sample.
//! - [`tally`], [`ranges`], [`decisions`]: what the counts, the tests and the
//!   shape of a tree stand for.
//! - [`forest`]: the ensemble.
//! - [`evaluation`]: figures about fitted ensembles.
//! - [`utils`]: seeds.

#![allow(deprecated)]

pub mod candidates;
pub mod champion;
pub mod dataset;
pub mod decisions;
pub mod evaluation;
pub mod fitting;
pub mod forest;
pub mod forget;
pub mod partition;
pub mod positions;
pub mod ranges;
pub mod ranking;
pub mod robustness;
pub mod scan;
pub mod split_stats;
pub mod tally;
pub mod tree;
pub mod utils;
