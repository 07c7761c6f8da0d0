//! reactant: the program representation and graph algorithms of a React
//! hook-bug analyzer, with their contracts proved.
#![allow(unused_imports)]

pub mod analysis_result;
pub mod bindings;
pub mod cfg;
pub mod cfg_builder;
pub mod component;
pub mod control;
pub mod component_id;
pub mod component_registry;
pub mod dominance;
pub mod events;
pub mod expand;
pub mod expr;
pub mod free_vars;
pub mod function_registry;
pub mod function_cfg;
pub mod hook_calls;
pub mod hook_registry;
pub mod hooks;
pub mod may_written;
pub mod module;
pub mod program_result;
pub mod registrations;
pub mod setter_walk;
pub mod setters;
pub mod slot_writers;
pub mod registry;
pub mod remap;
pub mod render_deps;
pub mod report;
pub mod root_detector;
pub mod seeds;
pub mod source_range;
pub mod splice;
pub mod stmt;
pub mod symbol_graph;
pub mod text;
pub mod triggers;
pub mod types;
pub mod worklist;
pub mod written;

use vstd::prelude::*;

verus! {

} // verus!
