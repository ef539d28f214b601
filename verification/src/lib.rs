//! Verified core of a crash-resilient smart home automation daemon.
use vstd::prelude::*;

pub mod floats;
pub mod ordered_map;
pub mod outside;
pub mod types;
pub mod strings;
pub mod text;
pub mod config;
pub mod registry;
pub mod state_engine;
pub mod rule_types;
pub mod conditions;
pub mod rules;
pub mod resolver;
pub mod reconciler;
pub mod command_store;
pub mod dispatcher;
pub mod ingestor;
pub mod rule_loader;
pub mod wal;
pub mod desired_state_store;
pub mod ha;
pub mod mock;
pub mod ui;
pub mod pipeline;

verus! {

} // verus!
