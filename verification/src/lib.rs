//! Deterministic feed-ranking core.
//!
//! The library orders scored candidates into a total, deterministic ranking:
//! descending by score (with an explicit NaN policy), then descending by
//! recency token, then ascending by identifier.

pub mod limits;
pub mod order;
pub mod ranking;
pub mod score;
