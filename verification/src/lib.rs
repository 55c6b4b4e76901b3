use vstd::prelude::*;

pub mod text;
pub mod message;
pub mod dps_message;
pub mod entry;
pub mod scheduler;
pub mod forward;
pub mod start_log;
pub mod config;
pub mod cycles;
pub mod client;
pub mod rt_client;
pub mod server;
pub mod vis;
pub mod manager;
pub mod simulator;
pub mod log_store;
pub mod log_parser;

verus! {

} // verus!
