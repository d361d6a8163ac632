//! Decision logic of the Konnect tools for KiCad projects.

pub mod annotate;
pub mod artifacts;
pub mod audits;
pub mod autorouting;
pub mod blocks;
pub mod board_edit;
pub mod board_gate;
pub mod board_info;
pub mod board_items;
pub mod board_objects;
pub mod bom_health;
pub mod capacitance;
pub mod cli;
pub mod cost;
pub mod design_review;
pub mod dfm;
pub mod geometry;
pub mod hierarchy;
pub mod json;
pub mod live_update;
pub mod manufacturing;
pub mod net_graph;
pub mod netclasses;
pub mod orphans;
pub mod paths;
pub mod pcb_export;
pub mod pcb_routing;
pub mod power_symbols;
pub mod reports;
pub mod revision;
pub mod root_uuid;
pub mod sch_analysis;
pub mod sch_export;
pub mod sch_hierarchy;
pub mod sch_queries;
pub mod schematic;
pub mod selections;
pub mod seqs;
pub mod sexp;
pub mod spatial_index;
pub mod text;
pub mod wire_text;
