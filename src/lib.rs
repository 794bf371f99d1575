//! Audited round-by-round tabulation of single-winner ranked-choice contests:
//! ballot normalization, instant-runoff tabulation with batched elimination,
//! and pairwise / crosstab analytics over the normalized ballots.

pub mod model;
pub mod normalizers;
pub mod schema;
pub mod tabulator;
pub mod report;
pub mod formats;
