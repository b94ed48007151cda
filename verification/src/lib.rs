mod clause;
mod completeness;
mod engine;
mod entailment;
mod laws;
mod lbool;
mod lit;
mod lit_order;
mod model;
mod notification;
mod propagation;
mod soundness;
mod text;
mod var;

pub use clause::{Clause, ClauseId};
pub use engine::{Engine, PropagationError};
pub use lbool::LBool;
pub use lit::{false_lit, neg, pos, true_lit, Lit};
pub use model::EngineState;
pub use var::VarId;
