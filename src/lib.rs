//! Core of a desktop application launcher: discovery of launch targets from
//! desktop-entry text, a searchable application index, a bounded
//! most-recently-used store with a binary on-disk form, and the decisions of
//! a launch session.

pub mod desktop;
pub mod entry;
pub mod index;
pub mod recency;
pub mod session;
pub mod text;
