//! Turns per-repository language byte counts and popularity signals into a
//! ranked, weighted language profile, and lays that profile out as a
//! slice-and-dice treemap rendered to a vector image document.
//!
//! Scores are exact integers: each repository contributes
//! `bytes * (stars + 1) * (forks + 1) * 1000 / totalBytes`, rounded up, so
//! aggregation is deterministic and order-independent and no listed language
//! is erased by rounding. The layout and the renderer work in whole pixels.

use vstd::prelude::*;

pub mod github;
pub mod languages;
pub mod text;
pub mod visualization;

pub use github::Repository;
pub use languages::calculate_language_stats_detailed;
pub use languages::language_stats_records;
pub use languages::LanguageStats;
pub use languages::RepoLanguageSample;
pub use visualization::calculate_treemap_rects;
pub use visualization::generate_treemap_svg;
pub use visualization::render_treemap_svg;
pub use visualization::sorted_positive_entries;
pub use visualization::PlacedRect;

verus! {

} // verus!
