//! A weighted group roster whose every membership fact can be read as of now
//! or as of any earlier version, with atomic batch updates, bounds on the
//! total weight, and change notifications for registered hooks.

pub mod contract;
pub mod history;
pub mod laws;
pub mod ledger;
pub mod order;
pub mod snapshot_map;
