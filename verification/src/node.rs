//! The search-tree data model: states, actions, and arena nodes.
//!
//! Nodes never own each other: the engine's arena owns every node, and the
//! parent and child relations are indices into that arena, which avoids the
//! ownership cycle a parent pointer would otherwise create.

use vstd::prelude::*;

verus! {

/// An immutable snapshot of a position in the search space: a domain
/// identifier, the action that produced it (`None` for the root), and the
/// reward accrued by reaching it.
#[derive(Clone, Copy)]
pub struct State {
    pub id: u32,
    pub action: Option<u32>,
    pub reward: u32,
}

/// A legal move out of a state: its identifier and the template of the
/// resulting state (successor identifier and the reward for reaching it).
#[derive(Clone, Copy, PartialEq, Eq, Structural)]
pub struct Action {
    pub id: u32,
    pub next_id: u32,
    pub next_reward: u32,
}

/// A vertex of the search tree, identified by its index in the arena.
///
/// `children[k]` is the child produced by the `k`-th legal action of this
/// node's state, so `children.len()` both counts the children and tells which
/// actions are still uninstantiated.
pub struct AdaptationNode {
    pub state: State,
    pub visits: u32,
    pub value: i128,
    pub parent: Option<usize>,
    pub children: Vec<usize>,
    pub fully_expanded: bool,
    pub terminal: bool,
}

impl AdaptationNode {
    /// A fresh node for `state`: never visited, no accumulated value, no
    /// children, and not yet linked to a parent.
    pub fn new(state: State) -> (n: Self)
        ensures
            n.state == state,
            n.visits == 0,
            n.value == 0,
            n.parent is None,
            n.children@ =~= Seq::<usize>::empty(),
            !n.fully_expanded,
            !n.terminal,
    {
        AdaptationNode {
            state,
            visits: 0,
            value: 0,
            parent: None,
            children: Vec::new(),
            fully_expanded: false,
            terminal: false,
        }
    }

    /// True once the state's action set is empty.
    pub fn is_terminal(&self) -> (r: bool)
        ensures
            r == self.terminal,
    {
        self.terminal
    }

    /// The arena indices of this node's children, in creation order.
    pub fn get_children(&self) -> (r: &Vec<usize>)
        ensures
            r@ == self.children@,
    {
        &self.children
    }

    /// Records a child edge; only the engine's expansion phase calls this.
    pub fn add_child(&mut self, child: usize)
        ensures
            final(self).children@ == old(self).children@.push(child),
            final(self).state == old(self).state,
            final(self).visits == old(self).visits,
            final(self).value == old(self).value,
            final(self).parent == old(self).parent,
            final(self).fully_expanded == old(self).fully_expanded,
            final(self).terminal == old(self).terminal,
    {
        self.children.push(child);
    }

    /// How many simulations have passed through this node.
    pub fn get_times_visited(&self) -> (r: u32)
        ensures
            r == self.visits,
    {
        self.visits
    }

    /// Counts one more simulation through this node.
    pub fn increment_times_visited(&mut self)
        requires
            old(self).visits < u32::MAX,
        ensures
            final(self).visits == old(self).visits + 1,
            final(self).state == old(self).state,
            final(self).value == old(self).value,
            final(self).parent == old(self).parent,
            final(self).children@ == old(self).children@,
            final(self).fully_expanded == old(self).fully_expanded,
            final(self).terminal == old(self).terminal,
    {
        self.visits = self.visits + 1;
    }

    /// The state this node wraps.
    pub fn get_state(&self) -> (r: State)
        ensures
            r == self.state,
    {
        self.state
    }

    /// Replaces the wrapped state.
    pub fn set_state(&mut self, state: State)
        ensures
            final(self).state == state,
            final(self).visits == old(self).visits,
            final(self).value == old(self).value,
            final(self).parent == old(self).parent,
            final(self).children@ == old(self).children@,
            final(self).fully_expanded == old(self).fully_expanded,
            final(self).terminal == old(self).terminal,
    {
        self.state = state;
    }

    /// True once every legal action of this node has produced a child.
    pub fn is_fully_expanded(&self) -> (r: bool)
        ensures
            r == self.fully_expanded,
    {
        self.fully_expanded
    }

    /// Marks the node as having a child for every legal action.
    pub fn set_is_fully_expanded(&mut self)
        ensures
            final(self).fully_expanded,
            final(self).state == old(self).state,
            final(self).visits == old(self).visits,
            final(self).value == old(self).value,
            final(self).parent == old(self).parent,
            final(self).children@ == old(self).children@,
            final(self).terminal == old(self).terminal,
    {
        self.fully_expanded = true;
    }
}

} // verus!
