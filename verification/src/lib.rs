//! Average shortest-path hop distance over a directed graph.
//!
//! The graph is built edge by edge, one breadth-first search runs per vertex,
//! and the per-pair hop distances are pooled into a single sum and pair count.
//! Only ordered pairs `(source, target)` with a directed path from source to
//! target contribute; the self-pair of every vertex counts at distance zero.

mod average;
mod graph;
mod parse;
mod search;

pub use graph::Graph;
pub use graph::add_seen;
pub use graph::add_vertex_spec;
pub use graph::add_edge_spec;
pub use graph::lemma_add_seen_contains;
pub use graph::lemma_add_vertex_idempotent;
pub use graph::lemma_directed;

pub use search::bfs_distances;
pub use search::pathlen;
pub use search::reachable;
pub use search::is_min_dist;
pub use search::bfs_post;
pub use search::lemma_min_dist_unique;
pub use search::lemma_bfs_deterministic;

pub use average::distance_totals;
pub use average::dist_of;
pub use average::pairs_count;
pub use average::pairs_sum;
pub use average::source_count;
pub use average::source_sum;
pub use average::totals_count_over;
pub use average::totals_sum_over;
pub use average::total_count;
pub use average::total_sum;
pub use average::totals_post;
pub use average::lemma_totals_deterministic;

pub use parse::ParseError;
pub use parse::parse_edge_line;
pub use parse::spec_parse_edge;
pub use parse::is_ws;
pub use parse::is_digit;
pub use parse::skip_ws;
pub use parse::tok_end;
pub use parse::digits_ok;
pub use parse::digits_val;
