//! Stateful quality gates for AI coding agent actions: checklist flows written as
//! Mermaid state diagrams, and the decisions that block an action until each item
//! has been acknowledged.
pub mod text;
pub mod error;
pub mod flow;
pub mod flow_laws;
pub mod state;
pub mod config;
pub mod gate;
pub mod scripts;
pub mod scope;
pub mod cel;
pub mod catalog;
pub mod global_config;
pub mod gate_laws;

pub use error::SteplockError;
pub use flow::{parse_mmd, FlowGraph};
pub use state::{init_state, HookResponse, SessionState};
pub mod flow_single_step;
