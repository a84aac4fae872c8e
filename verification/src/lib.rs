//! Control-flow and code-property graph construction over program trees and
//! flat instruction listings.

pub mod artifacts;
pub mod block_graph;
pub mod cfg_builder;
pub mod cfg_frame;
pub mod cfg_growth;
pub mod cfg_jumps;
pub mod cfg_laws;
pub mod cfg_reach;
pub mod control_flow;
pub mod cpg_bounds;
pub mod cpg_builder;
pub mod cpg_laws;
pub mod data_flow;
pub mod ir;
pub mod program_tree;
pub mod property_graph;
pub mod text;
