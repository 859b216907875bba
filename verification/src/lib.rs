//! Process-monitor core: ordering, filtering, tree layout and the
//! interactive state machine, each with a verified contract.

pub mod app;
pub mod config;
pub mod display;
pub mod forest;
pub mod frame;
pub mod freeze;
pub mod listing;
pub mod order;
pub mod process;
pub mod text;
pub mod tree;
