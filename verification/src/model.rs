//! The abstract state/action model the engine searches over.
//!
//! The engine is generic over any problem that can enumerate the legal
//! actions of a state, apply an action, and report the reward of a state.
//! `TableModel` is a concrete, fully deterministic model driven by a table,
//! used by the test suite.

use crate::node::{Action, State};
use vstd::prelude::*;

verus! {

/// The capability set a problem domain must supply: an initial state, an
/// enumeration of legal actions (empty means terminal), a transition
/// function, and a reward function. Each executable method must agree with
/// its specification twin, which makes the model deterministic as seen by
/// the engine's contracts.
pub trait ProblemModel: Sized {
    /// The initial state, as a mathematical value.
    spec fn initial_state_spec(&self) -> State;

    /// The legal actions of `s`, as a mathematical sequence.
    spec fn legal_actions_spec(&self, s: State) -> Seq<Action>;

    /// The successor of `s` under `a`, as a mathematical value.
    spec fn apply_spec(&self, s: State, a: Action) -> State;

    /// The reward of `s`, as a mathematical value.
    spec fn reward_spec(&self, s: State) -> u32;

    /// The state a search starts from.
    fn initial_state(&self) -> (r: State)
        ensures
            r == self.initial_state_spec(),
    ;

    /// Every legal action out of `s`; an empty result marks `s` terminal.
    fn legal_actions(&self, s: &State) -> (r: Vec<Action>)
        ensures
            r@ == self.legal_actions_spec(*s),
    ;

    /// The successor state reached by taking `a` in `s`.
    fn apply(&self, s: &State, a: &Action) -> (r: State)
        ensures
            r == self.apply_spec(*s, *a),
    ;

    /// The reward accrued by reaching `s`.
    fn reward(&self, s: &State) -> (r: u32)
        ensures
            r == self.reward_spec(*s),
    ;
}

/// A table-driven problem model: state `i` offers exactly the actions in
/// `actions[i]` (none, if `i` is out of range), applying an action yields the
/// state its template describes, and a state's reward is the reward it was
/// reached with.
pub struct TableModel {
    pub actions: Vec<Vec<Action>>,
    pub root_id: u32,
    pub root_reward: u32,
}

impl ProblemModel for TableModel {
    open spec fn initial_state_spec(&self) -> State {
        State { id: self.root_id, action: None, reward: self.root_reward }
    }

    open spec fn legal_actions_spec(&self, s: State) -> Seq<Action> {
        if s.id < self.actions@.len() {
            self.actions@[s.id as int]@
        } else {
            Seq::empty()
        }
    }

    open spec fn apply_spec(&self, s: State, a: Action) -> State {
        State { id: a.next_id, action: Some(a.id), reward: a.next_reward }
    }

    open spec fn reward_spec(&self, s: State) -> u32 {
        s.reward
    }

    fn initial_state(&self) -> (r: State) {
        State { id: self.root_id, action: None, reward: self.root_reward }
    }

    fn legal_actions(&self, s: &State) -> (r: Vec<Action>) {
        let mut out: Vec<Action> = Vec::new();
        if (s.id as usize) < self.actions.len() {
            let row: &Vec<Action> = &self.actions[s.id as usize];
            let mut k: usize = 0;
            while k < row.len()
                invariant
                    k <= row.len(),
                    out@ =~= row@.take(k as int),
                decreases row.len() - k,
            {
                out.push(row[k]);
                k = k + 1;
            }
            proof {
                assert(out@ =~= row@);
            }
        }
        out
    }

    fn apply(&self, s: &State, a: &Action) -> (r: State) {
        State { id: a.next_id, action: Some(a.id), reward: a.next_reward }
    }

    fn reward(&self, s: &State) -> (r: u32) {
        s.reward
    }
}

} // verus!
