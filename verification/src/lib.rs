//! Breakpoint-graph analysis engine: a directed multigraph over genomic
//! breakpoint nodes, with verified structural metrics (degree, connectivity,
//! cyclicity, centrality, clustering), a combinatorial edit distance, and a
//! round-trippable interchange document.

pub mod analysis;
pub mod connectivity;
pub mod cycle;
pub mod data;
pub mod ged;
pub mod load;
pub mod reach;
pub mod walk;
