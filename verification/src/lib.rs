//! rmon: the verified core of a terminal system monitor with disk benchmarking.

pub mod text;
pub mod collect;
pub mod bench;
pub mod update;
pub mod fetch;
pub mod fmt;
pub mod smart;
pub mod monitor;
pub mod deltas;
pub mod state;
pub mod mouse;
pub mod darwin;
