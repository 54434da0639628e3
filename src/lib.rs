//! Reclustering of analyst-reviewed record pairs into snapshot rows.
//!
//! From an analyst's labelled edges and the universe of records, the library
//! derives the partition of the records into clusters, the pairwise group
//! memberships of each cluster and the surviving edges, and renders them as
//! the rows of one snapshot, all with proved contracts. It also names the
//! snapshot tables, builds the dataset filter, and steps the transaction that
//! replaces a snapshot. Reading from and writing to the database is left to
//! callers.

pub mod clustering;
pub mod edges;
pub mod env_file;
pub mod graph;
pub mod ids;
pub mod laws;
pub mod materialize;
pub mod membership;
pub mod models;
pub mod record_kind;
pub mod review_stats;
pub mod snapshot;
pub mod team_utils;
pub mod text;

pub use edges::RawEdgeVisualization;
pub use models::{OrganizationExportRow, ServiceExportRow};
pub use team_utils::{create_dataset_filter_clause, OpinionInfo, TeamInfo, UserInfo};
