//! Core of a terminal dashboard for a proxy-management daemon.
//!
//! The library covers the two parts with real algorithmic content:
//! resolving a raw, possibly self-referential proxy topology into a flat,
//! latency-annotated view (`resolve`), and mapping a variable-size item list
//! onto a resizable grid viewport with a single visible selection (`grid`,
//! `page`). Fetching the topology and painting terminal cells are left to
//! the surrounding application.

pub mod data;
pub mod grid;
pub mod name_order;
pub mod page;
pub mod resolve;
pub mod tab;
