//! A Monte Carlo tree search engine over an abstract state/action model.
//!
//! The search tree is an arena of nodes addressed by index; the engine runs
//! the classic four-phase loop (select, expand, simulate, backpropagate) and
//! recommends the most-visited child of the root.

mod engine;
mod math;
mod model;
mod node;
mod rng;

pub use engine::backprop_delta;
pub use engine::lemma_children_bounded;
pub use engine::lemma_path_props;
pub use engine::lemma_reaches_extend;
pub use engine::lemma_terminal_not_parent;
pub use engine::mcts;
pub use engine::node_ok;
pub use engine::path_seq;
pub use engine::reaches;
pub use engine::tree_wf;
pub use engine::ChildStats;
pub use math::get_upper_confidence_bound;
pub use math::log2;
pub use math::scaled_div;
pub use math::sqrt_floor;
pub use math::ucb_score;
pub use model::ProblemModel;
pub use model::TableModel;
pub use node::Action;
pub use node::AdaptationNode;
pub use node::State;
