//! Marketplace price tracking core.
//!
//! The library tracks product prices harvested from a retail listing site.
//! It normalizes noisy price text into integer values, extracts candidate
//! records from fetched listing markup, reconciles each candidate into a
//! store that keeps one row per product name with a one-step price history,
//! and computes market statistics (price range, average, count) over the
//! products whose names are textually similar to a queried product.

pub mod extract;
pub mod ingest;
pub mod markup;
pub mod price;
pub mod stats;
pub mod store;
pub mod text;
