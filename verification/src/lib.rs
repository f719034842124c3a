//! Inter-procedural reachability analysis over Java-like sources: a
//! control-flow graph builder for single function bodies, a call-graph
//! builder for whole program sets, and a transitive-closure engine that
//! answers which configured source locations can reach which targets.


mod cfg;
mod cg;
mod config;
mod edges;
mod flow_solver;
mod program;
mod project;
mod query;
mod syntax_tree;

pub use cfg::calculate_cfg;
pub use cfg::calculate_cfg_per_programs;
pub use cfg::cfg_of;
pub use cfg::get_functions;
pub use cg::Caller;
pub use cg::ClassView;
pub use cg::FuncView;
pub use cg::Class;
pub use cg::Function;
pub use cg::Import;
pub use cg::calculate_cg;
pub use cg::calls_of;
pub use cg::classes_of;
pub use cg::cg_links;
pub use cg::cg_of;
pub use cg::func_index;
pub use cg::lemma_calculate_cg_emits_call_edge;
pub use cg::lemma_cg_emits_call_edge;
pub use config::Config;
pub use config::ConfigFlow;
pub use config::ConfigNode;
pub use edges::Edges;
pub use edges::Merge;
pub use edges::has_edge;
pub use edges::merged;
pub use flow_solver::Domain;
pub use flow_solver::Reachable;
pub use flow_solver::edge_set;
pub use flow_solver::lemma_edge_reaches;
pub use flow_solver::lemma_merge_assoc_reach;
pub use flow_solver::lemma_merge_comm_reach;
pub use flow_solver::lemma_merged_edge_set;
pub use flow_solver::lemma_reaches_trans;
pub use flow_solver::reaches;
pub use flow_solver::solve;
pub use program::Program;
pub use program::RawNode;
pub use program::chained;
pub use program::java_parses;
pub use program::java_tree_of;
pub use program::parse_fits;
pub use program::lemma_no_shared_id;
pub use program::lemma_ranges_disjoint;
pub use program::traverse;
pub use project::ProjectExt;
pub use project::decisions_consistent;
pub use project::selected_upto;
pub use query::Hit;
pub use query::attributed;
pub use query::find_matching_nodes;
pub use query::flow_hits;
pub use syntax_tree::ASTIdentifier;
pub use syntax_tree::ASTNode;
pub use syntax_tree::AstView;
