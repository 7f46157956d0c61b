//! FlowBrake: the rules, the packet reader, the rate limiter and the table model of a
//! per-process network limiter.

pub mod budget;
pub mod chrome;
pub mod consistency;
pub mod divert;
pub mod double;
pub mod edits;
pub mod elevation;
pub mod engine;
pub mod figures;
pub mod finding;
pub mod holding;
pub mod names;
pub mod number;
pub mod order;
pub mod packet;
pub mod ports;
pub mod process;
pub mod programs;
pub mod rate;
pub mod rows;
pub mod rule;
pub mod search;
pub mod settings;
pub mod showing;
pub mod speed;
pub mod state;
pub mod stored;
pub mod tables;
pub mod tcp;
pub mod text;
pub mod upkeep;
pub mod views;
pub mod wide;
pub mod wording;
