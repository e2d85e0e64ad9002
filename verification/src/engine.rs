//! The Monte Carlo tree search engine: the arena of nodes and the four-phase
//! loop (select, expand, simulate, backpropagate).

use crate::math::{get_upper_confidence_bound, scaled_div, ucb_score};
use crate::model::ProblemModel;
use crate::node::{Action, AdaptationNode, State};
use crate::rng::{rng_below, rng_from_entropy, rng_from_seed};
use vstd::prelude::*;

verus! {

/// Internal consistency of node `i` of the arena:
/// - at most one child per legal action, `fully_expanded` exactly when every
///   action has one, `terminal` exactly when there are no actions;
/// - the parent relation and child-list membership agree, and every edge goes
///   from a lower to a strictly higher index (children are created after
///   their parents), so the tree is acyclic;
/// - the `k`-th child wraps the state the `k`-th legal action produces;
/// - `visits` never exceeds the root's, and `value` is bounded by `visits`
///   rewards of at most `u32::MAX` each.
pub open spec fn node_ok<M: ProblemModel>(model: M, nodes: Seq<AdaptationNode>, i: int) -> bool {
    let n = nodes[i];
    let acts = model.legal_actions_spec(n.state);
    &&& n.children@.len() <= acts.len()
    &&& (n.fully_expanded <==> n.children@.len() == acts.len())
    &&& (n.terminal <==> acts.len() == 0)
    &&& (i == 0 ==> n.parent is None)
    &&& (i != 0 ==> match n.parent {
        Some(p) => 0 <= (p as int) < i && nodes[p as int].children@.contains(i as usize),
        None => false,
    })
    &&& (forall|k: int|
        0 <= k < n.children@.len() ==> {
            let c = #[trigger] n.children@[k];
            &&& i < (c as int) < nodes.len()
            &&& nodes[c as int].parent == Some(i as usize)
            &&& nodes[c as int].state == model.apply_spec(n.state, acts[k])
        })
    &&& n.visits <= nodes[0].visits
    &&& -((n.visits as int) * 0xffff_ffff) <= n.value as int <= (n.visits as int) * 0xffff_ffff
}

/// The whole arena is consistent: nonempty, rooted at index 0, and every
/// node satisfies `node_ok`.
pub open spec fn tree_wf<M: ProblemModel>(model: M, nodes: Seq<AdaptationNode>) -> bool {
    &&& nodes.len() >= 1
    &&& forall|i: int| 0 <= i < nodes.len() ==> node_ok(model, nodes, i)
}

/// The chain of ancestors of node `i`, starting at `i` itself and following
/// parent links while they keep decreasing.
pub open spec fn path_seq(nodes: Seq<AdaptationNode>, i: int) -> Seq<int>
    decreases i,
{
    match nodes[i].parent {
        Some(p) => if 0 <= (p as int) && (p as int) < i {
            seq![i] + path_seq(nodes, p as int)
        } else {
            seq![i]
        },
        None => seq![i],
    }
}

/// In a well-formed arena the ancestor chain of any node starts at that
/// node, strictly descends along parent links, and ends at the root.
pub proof fn lemma_path_props<M: ProblemModel>(model: M, nodes: Seq<AdaptationNode>, i: int)
    requires
        tree_wf(model, nodes),
        0 <= i < nodes.len(),
    ensures
        path_seq(nodes, i).len() >= 1,
        path_seq(nodes, i)[0] == i,
        path_seq(nodes, i).last() == 0,
        forall|k: int|
            0 <= k < path_seq(nodes, i).len() ==> 0 <= #[trigger] path_seq(nodes, i)[k]
                < nodes.len(),
        forall|k: int|
            0 <= k < path_seq(nodes, i).len() - 1 ==> #[trigger] path_seq(nodes, i)[k + 1]
                < path_seq(nodes, i)[k],
        forall|k: int|
            0 <= k < path_seq(nodes, i).len() - 1 ==> nodes[#[trigger] path_seq(nodes, i)[k]].parent
                == Some(path_seq(nodes, i)[k + 1] as usize),
    decreases i,
{
    assert(node_ok(model, nodes, i));
    let p = path_seq(nodes, i);
    match nodes[i].parent {
        Some(pp) => {
            if 0 <= (pp as int) && (pp as int) < i {
                lemma_path_props(model, nodes, pp as int);
                let q = path_seq(nodes, pp as int);
                assert(p == seq![i] + q);
                assert(p.last() == q.last());
                assert forall|k: int| 0 <= k < p.len() implies 0 <= #[trigger] p[k]
                    < nodes.len() by {
                    if k > 0 {
                        assert(p[k] == q[k - 1]);
                    }
                }
                assert forall|k: int| 0 <= k < p.len() - 1 implies #[trigger] p[k + 1] < p[k] by {
                    if k == 0 {
                        assert(p[1] == q[0]);
                    } else {
                        assert(p[k] == q[k - 1] && p[k + 1] == q[k]);
                    }
                }
                assert forall|k: int| 0 <= k < p.len() - 1 implies nodes[#[trigger] p[k]].parent
                    == Some(p[k + 1] as usize) by {
                    if k == 0 {
                        assert(p[1] == q[0]);
                    } else {
                        assert(p[k] == q[k - 1] && p[k + 1] == q[k]);
                    }
                }
            } else {
                assert(false);
            }
        },
        None => {
            assert(i == 0);
        },
    }
}

/// `b` is reachable from `a` in exactly `n` legal steps of `m`.
pub open spec fn reaches<M: ProblemModel>(m: M, a: State, b: State, n: nat) -> bool
    decreases n,
{
    if n == 0 {
        a == b
    } else {
        exists|k: int|
            0 <= k < m.legal_actions_spec(a).len() && reaches(
                m,
                m.apply_spec(a, #[trigger] m.legal_actions_spec(a)[k]),
                b,
                (n - 1) as nat,
            )
    }
}

/// A reachability chain can be extended by one legal step at its end.
pub proof fn lemma_reaches_extend<M: ProblemModel>(m: M, a: State, b: State, n: nat, k: int)
    requires
        reaches(m, a, b, n),
        0 <= k < m.legal_actions_spec(b).len(),
    ensures
        reaches(m, a, m.apply_spec(b, m.legal_actions_spec(b)[k]), n + 1),
    decreases n,
{
    let c = m.apply_spec(b, m.legal_actions_spec(b)[k]);
    if n == 0 {
        assert(reaches(m, c, c, 0));
        assert(reaches(m, a, c, 1));
    } else {
        let k0 = choose|k0: int|
            0 <= k0 < m.legal_actions_spec(a).len() && reaches(
                m,
                m.apply_spec(a, #[trigger] m.legal_actions_spec(a)[k0]),
                b,
                (n - 1) as nat,
            );
        lemma_reaches_extend(m, m.apply_spec(a, m.legal_actions_spec(a)[k0]), b, (n - 1) as nat, k);
        assert(reaches(m, m.apply_spec(a, m.legal_actions_spec(a)[k0]), c, n));
        assert(reaches(m, a, c, n + 1));
    }
}

/// For every node the child count never exceeds the number of legal actions
/// of its state, and a node with a child for every action is marked fully
/// expanded.
pub proof fn lemma_children_bounded<M: ProblemModel>(model: M, nodes: Seq<AdaptationNode>, i: int)
    requires
        tree_wf(model, nodes),
        0 <= i < nodes.len(),
    ensures
        nodes[i].children@.len() <= model.legal_actions_spec(nodes[i].state).len(),
        nodes[i].children@.len() == model.legal_actions_spec(nodes[i].state).len() ==> nodes[i].fully_expanded,
{
    assert(node_ok(model, nodes, i));
}

/// A terminal node has no children, so no node has a terminal parent: a
/// backpropagation chain can start at a terminal node but never passes
/// upward through one.
pub proof fn lemma_terminal_not_parent<M: ProblemModel>(model: M, nodes: Seq<AdaptationNode>, j: int)
    requires
        tree_wf(model, nodes),
        0 < j < nodes.len(),
    ensures
        nodes[j].parent is Some,
        !nodes[nodes[j].parent->0 as int].terminal,
{
    assert(node_ok(model, nodes, j));
    let p = nodes[j].parent->0;
    assert(node_ok(model, nodes, p as int));
    assert(nodes[p as int].children@.contains(j as usize));
    let idx = choose|idx: int|
        0 <= idx < nodes[p as int].children@.len() && nodes[p as int].children@[idx] == j as usize;
    assert(nodes[p as int].children@.len() > 0);
}

/// The sign a reward contributes at distance `k` above the simulated node:
/// negated at odd depths when the engine searches adversarially.
pub open spec fn backprop_delta(negate: bool, k: int, r: u32) -> int {
    if negate && k % 2 == 1 {
        -(r as int)
    } else {
        r as int
    }
}

/// Diagnostic statistics of one root child: its visit count and its
/// average value in thousandths.
pub struct ChildStats {
    pub visits: u32,
    pub value_milli: i128,
}

/// The Monte Carlo tree search engine over a problem model `M`.
///
/// The arena `nodes` owns every node of the search tree; index 0 is the
/// root. `c_milli` is the exploration constant in thousandths (1414 for the
/// canonical square root of two) and `negate_alternate_levels` switches on
/// adversarial backpropagation.
#[allow(non_camel_case_types)]
pub struct mcts<M: ProblemModel> {
    pub model: M,
    pub nodes: Vec<AdaptationNode>,
    pub c_milli: u64,
    pub negate_alternate_levels: bool,
    pub rng: rand::rngs::StdRng,
}

impl<M: ProblemModel> mcts<M> {
    /// The engine's invariant: its arena is a well-formed search tree.
    pub open spec fn wf(&self) -> bool {
        tree_wf(self.model, self.nodes@)
    }

    /// A fresh engine over `model`, whose tree holds only the root node for
    /// the model's initial state. With `seed` given, the rollout randomness
    /// is reproducible; otherwise it comes from the operating system.
    pub fn new(model: M, seed: Option<u64>) -> (e: Self)
        ensures
            e.wf(),
            e.nodes@.len() == 1,
            e.nodes@[0].state == model.initial_state_spec(),
            e.nodes@[0].visits == 0,
            e.nodes@[0].value == 0,
            e.nodes@[0].children@.len() == 0,
            e.model == model,
            e.c_milli == 1414,
            !e.negate_alternate_levels,
    {
        let s = model.initial_state();
        let acts = model.legal_actions(&s);
        let term = acts.len() == 0;
        let root = AdaptationNode {
            state: s,
            visits: 0,
            value: 0,
            parent: None,
            children: Vec::new(),
            fully_expanded: term,
            terminal: term,
        };
        let rng = match seed {
            Some(v) => rng_from_seed(v),
            None => rng_from_entropy(),
        };
        let mut nodes: Vec<AdaptationNode> = Vec::new();
        nodes.push(root);
        let e = mcts { model, nodes, c_milli: 1414, negate_alternate_levels: false, rng };
        proof {
            assert forall|i: int| 0 <= i < e.nodes@.len() implies node_ok(
                e.model,
                e.nodes@,
                i,
            ) by {
                assert(i == 0);
            }
        }
        e
    }

    /// The number of children of node `i`.
    pub open spec fn num_children(&self, i: int) -> int {
        self.nodes@[i].children@.len() as int
    }

    /// The `k`-th child node of node `i`.
    pub open spec fn child_of(&self, i: int, k: int) -> AdaptationNode {
        self.nodes@[self.nodes@[i].children@[k] as int]
    }

    /// The UCB score of the `k`-th child of node `i`, in milli-units.
    pub open spec fn child_score(&self, i: int, k: int) -> int {
        ucb_score(
            self.child_of(i, k).value as int,
            self.child_of(i, k).visits as int,
            self.nodes@[i].visits as int,
            self.c_milli as int,
        )
    }

    /// The selection rule at node `i` picks child position `k` exactly when:
    /// with any unvisited child present, `k` is the first unvisited child
    /// (an unvisited child's score is undefined and wins unconditionally);
    /// otherwise `k` has the maximal UCB score, earliest position first.
    pub open spec fn ucb_pick_ok(&self, i: int, k: int) -> bool {
        if exists|j: int|
            0 <= j < self.num_children(i) && (#[trigger] self.child_of(i, j)).visits == 0 {
            &&& self.child_of(i, k).visits == 0
            &&& forall|j: int| 0 <= j < k ==> (#[trigger] self.child_of(i, j)).visits != 0
        } else {
            &&& forall|j: int|
                0 <= j < self.num_children(i) ==> #[trigger] self.child_score(i, j)
                    <= self.child_score(i, k)
            &&& forall|j: int| 0 <= j < k ==> #[trigger] self.child_score(i, j) < self.child_score(i, k)
        }
    }

    /// The child of node `i` the upper-confidence rule selects: the first
    /// unvisited child if any, else the first child with the maximal score.
    pub fn best_ucb_child(&self, i: usize) -> (c: usize)
        requires
            self.wf(),
            i < self.nodes@.len(),
            !self.nodes@[i as int].terminal,
            self.nodes@[i as int].fully_expanded,
        ensures
            (i as int) < (c as int) < self.nodes@.len(),
            exists|k: int|
                0 <= k < self.num_children(i as int) && self.nodes@[i as int].children@[k] == c
                    && #[trigger] self.ucb_pick_ok(i as int, k),
    {
        proof {
            assert(node_ok(self.model, self.nodes@, i as int));
        }
        let nchild = self.nodes[i].children.len();
        let mut t: usize = 0;
        while t < nchild
            invariant
                self.wf(),
                i < self.nodes@.len(),
                !self.nodes@[i as int].terminal,
                self.nodes@[i as int].fully_expanded,
                nchild == self.num_children(i as int),
                t <= nchild,
                forall|j: int| 0 <= j < t ==> (#[trigger] self.child_of(i as int, j)).visits != 0,
            decreases nchild - t,
        {
            proof {
                assert(node_ok(self.model, self.nodes@, i as int));
                assert((i as int) < (self.nodes@[i as int].children@[t as int] as int)
                    < self.nodes@.len());
            }
            let ci = self.nodes[i].children[t];
            if self.nodes[ci].visits == 0 {
                proof {
                    assert(self.child_of(i as int, t as int).visits == 0);
                    assert(self.ucb_pick_ok(i as int, t as int));
                }
                return ci;
            }
            t = t + 1;
        }
        let pv = self.nodes[i].visits;
        let c0 = self.nodes[i].children[0];
        proof {
            assert(node_ok(self.model, self.nodes@, c0 as int));
            self.lemma_child_value_in_range(i as int, 0);
        }
        let mut best: usize = 0;
        let mut best_c: usize = c0;
        let mut best_score: i128 = get_upper_confidence_bound(
            self.nodes[c0].value,
            self.nodes[c0].visits,
            pv,
            self.c_milli,
        );
        let mut u: usize = 1;
        while u < nchild
            invariant
                self.wf(),
                i < self.nodes@.len(),
                !self.nodes@[i as int].terminal,
                self.nodes@[i as int].fully_expanded,
                nchild == self.num_children(i as int),
                nchild >= 1,
                pv == self.nodes@[i as int].visits,
                (best as int) < u as int,
                u <= nchild,
                best_c == self.nodes@[i as int].children@[best as int],
                best_score == self.child_score(i as int, best as int),
                forall|j: int| 0 <= j < nchild ==> (#[trigger] self.child_of(i as int, j)).visits != 0,
                forall|j: int|
                    0 <= j < u ==> #[trigger] self.child_score(i as int, j) <= self.child_score(
                        i as int,
                        best as int,
                    ),
                forall|j: int|
                    0 <= j < best ==> #[trigger] self.child_score(i as int, j) < self.child_score(
                        i as int,
                        best as int,
                    ),
            decreases nchild - u,
        {
            proof {
                assert(node_ok(self.model, self.nodes@, i as int));
                assert((i as int) < (self.nodes@[i as int].children@[u as int] as int)
                    < self.nodes@.len());
            }
            let ci = self.nodes[i].children[u];
            proof {
                assert(node_ok(self.model, self.nodes@, ci as int));
                self.lemma_child_value_in_range(i as int, u as int);
            }
            let sc = get_upper_confidence_bound(
                self.nodes[ci].value,
                self.nodes[ci].visits,
                pv,
                self.c_milli,
            );
            if sc > best_score {
                best = u;
                best_c = ci;
                best_score = sc;
            }
            u = u + 1;
        }
        proof {
            assert(self.ucb_pick_ok(i as int, best as int));
        }
        best_c
    }

    /// A node's accumulated value is small enough for the fixed-point UCB
    /// arithmetic: its magnitude stays below 2^64.
    proof fn lemma_child_value_in_range(&self, i: int, k: int)
        requires
            self.wf(),
            0 <= i < self.nodes@.len(),
            0 <= k < self.num_children(i),
        ensures
            -0x1_0000_0000_0000_0000 <= self.child_of(i, k).value as int <= 0x1_0000_0000_0000_0000,
    {
        assert(node_ok(self.model, self.nodes@, i));
        let c = self.nodes@[i].children@[k];
        assert(node_ok(self.model, self.nodes@, c as int));
        let n = self.child_of(i, k);
        assert((n.visits as int) * 0xffff_ffff <= 0xffff_ffff * 0xffff_ffff) by (nonlinear_arith)
            requires
                0 <= n.visits as int <= 0xffff_ffff,
        ;
    }

    /// `steps` is the walk selection takes from `steps[0]` down to `r`:
    /// every intermediate node is fully expanded and not terminal, and each
    /// next entry is the child the upper-confidence rule picks there.
    pub open spec fn is_selection_chain(&self, steps: Seq<int>, r: int) -> bool {
        &&& steps.len() >= 1
        &&& steps.last() == r
        &&& forall|t: int|
            0 <= t < steps.len() - 1 ==> {
                &&& 0 <= #[trigger] steps[t] < self.nodes@.len()
                &&& !self.nodes@[steps[t]].terminal
                &&& self.nodes@[steps[t]].fully_expanded
                &&& exists|k: int|
                    #[trigger] self.ucb_pick_ok(steps[t], k) && 0 <= k < self.num_children(
                        steps[t],
                    ) && self.nodes@[steps[t]].children@[k] as int == steps[t + 1]
            }
    }

    /// Selection: from `from`, repeatedly descend to the child the
    /// upper-confidence rule picks, until reaching a node that is terminal
    /// or still has an uninstantiated action. The walk taken is exactly a
    /// chain of upper-confidence picks starting at `from`.
    pub fn select_child(&self, from: usize) -> (r: usize)
        requires
            self.wf(),
            from < self.nodes@.len(),
        ensures
            from as int <= r as int,
            (r as int) < self.nodes@.len(),
            self.nodes@[r as int].terminal || !self.nodes@[r as int].fully_expanded,
            exists|steps: Seq<int>|
                #[trigger] self.is_selection_chain(steps, r as int) && steps[0] == from as int,
    {
        let mut cur = from;
        let ghost mut steps: Seq<int> = seq![from as int];
        while !self.nodes[cur].terminal && self.nodes[cur].fully_expanded
            invariant
                self.wf(),
                from <= cur,
                (cur as int) < self.nodes@.len(),
                steps.len() >= 1,
                steps[0] == from as int,
                steps.last() == cur as int,
                forall|t: int|
                    0 <= t < steps.len() - 1 ==> {
                        &&& 0 <= #[trigger] steps[t] < self.nodes@.len()
                        &&& !self.nodes@[steps[t]].terminal
                        &&& self.nodes@[steps[t]].fully_expanded
                        &&& exists|k: int|
                            #[trigger] self.ucb_pick_ok(steps[t], k) && 0 <= k
                                < self.num_children(steps[t]) && self.nodes@[steps[t]].children@[k]
                                as int == steps[t + 1]
                    },
            decreases self.nodes@.len() - cur as int,
        {
            let next = self.best_ucb_child(cur);
            proof {
                let ghost prev = steps;
                steps = steps.push(next as int);
                assert(steps.last() == next as int);
                assert forall|t: int| 0 <= t < steps.len() - 1 implies {
                    &&& 0 <= #[trigger] steps[t] < self.nodes@.len()
                    &&& !self.nodes@[steps[t]].terminal
                    &&& self.nodes@[steps[t]].fully_expanded
                    &&& exists|k: int|
                        #[trigger] self.ucb_pick_ok(steps[t], k) && 0 <= k < self.num_children(
                            steps[t],
                        ) && self.nodes@[steps[t]].children@[k] as int == steps[t + 1]
                } by {
                    if t < prev.len() - 1 {
                        assert(steps[t] == prev[t]);
                        assert(steps[t + 1] == prev[t + 1]);
                    } else {
                        assert(steps[t] == cur as int);
                        assert(steps[t + 1] == next as int);
                        let k = choose|k: int|
                            0 <= k < self.num_children(cur as int)
                                && self.nodes@[cur as int].children@[k] == next && #[trigger] self.ucb_pick_ok(
                                cur as int,
                                k,
                            );
                        assert(self.ucb_pick_ok(cur as int, k));
                    }
                }
            }
            cur = next;
        }
        proof {
            assert(self.is_selection_chain(steps, cur as int));
        }
        cur
    }

    /// Expansion: instantiates the next uninstantiated action of node `i`
    /// (actions are taken in their fixed enumeration order, which keeps runs
    /// reproducible), creates a fresh child node for the successor state,
    /// registers the edge, and returns the child's index. The parent is
    /// marked fully expanded once its last action has been instantiated.
    pub fn expand(&mut self, i: usize) -> (c: usize)
        requires
            old(self).wf(),
            i < old(self).nodes@.len(),
            !old(self).nodes@[i as int].terminal,
            !old(self).nodes@[i as int].fully_expanded,
        ensures
            final(self).wf(),
            final(self).model == old(self).model,
            final(self).c_milli == old(self).c_milli,
            final(self).negate_alternate_levels == old(self).negate_alternate_levels,
            c as int == old(self).nodes@.len(),
            final(self).nodes@.len() == old(self).nodes@.len() + 1,
            final(self).nodes@[c as int].visits == 0,
            final(self).nodes@[c as int].value == 0,
            final(self).nodes@[c as int].parent == Some(i),
            final(self).nodes@[c as int].children@.len() == 0,
            final(self).nodes@[c as int].state == old(self).model.apply_spec(
                old(self).nodes@[i as int].state,
                old(self).model.legal_actions_spec(old(self).nodes@[i as int].state)[old(
                    self,
                ).nodes@[i as int].children@.len() as int],
            ),
            final(self).nodes@[i as int].children@ == old(self).nodes@[i as int].children@.push(c),
            final(self).nodes@[i as int].fully_expanded == (old(
                self,
            ).nodes@[i as int].children@.len() + 1 == old(self).model.legal_actions_spec(
                old(self).nodes@[i as int].state,
            ).len()),
            final(self).nodes@[i as int].visits == old(self).nodes@[i as int].visits,
            final(self).nodes@[i as int].value == old(self).nodes@[i as int].value,
            final(self).nodes@[i as int].state == old(self).nodes@[i as int].state,
            final(self).nodes@[i as int].parent == old(self).nodes@[i as int].parent,
            !final(self).nodes@[i as int].terminal,
            forall|j: int|
                0 <= j < old(self).nodes@.len() && j != i ==> final(self).nodes@[j] == old(
                    self,
                ).nodes@[j],
    {
        proof {
            assert(node_ok(self.model, self.nodes@, i as int));
        }
        let st = self.nodes[i].state;
        let acts = self.model.legal_actions(&st);
        let k = self.nodes[i].children.len();
        proof {
            assert(k < acts@.len());
        }
        let a = acts[k];
        let new_state = self.model.apply(&st, &a);
        let child_acts = self.model.legal_actions(&new_state);
        let cterm = child_acts.len() == 0;
        let c = self.nodes.len();
        let child = AdaptationNode {
            state: new_state,
            visits: 0,
            value: 0,
            parent: Some(i),
            children: Vec::new(),
            fully_expanded: cterm,
            terminal: cterm,
        };
        let ghost childg = child;
        self.nodes.push(child);
        let ghost mid = self.nodes@;
        let alen = acts.len();
        proof {
            assert(k < alen);
        }
        let full = k + 1 == alen;
        let mut nc: Vec<usize> = Vec::new();
        let mut t: usize = 0;
        while t < k
            invariant
                t <= k,
                self.nodes@ == mid,
                mid == old(self).nodes@.push(childg),
                i < old(self).nodes@.len(),
                k == old(self).nodes@[i as int].children@.len(),
                nc@ =~= old(self).nodes@[i as int].children@.take(t as int),
            decreases k - t,
        {
            nc.push(self.nodes[i].children[t]);
            t = t + 1;
        }
        nc.push(c);
        proof {
            assert(nc@ =~= old(self).nodes@[i as int].children@.push(c));
        }
        let pstate = self.nodes[i].state;
        let pvisits = self.nodes[i].visits;
        let pvalue = self.nodes[i].value;
        let pparent = self.nodes[i].parent;
        let newp = AdaptationNode {
            state: pstate,
            visits: pvisits,
            value: pvalue,
            parent: pparent,
            children: nc,
            fully_expanded: full,
            terminal: false,
        };
        self.nodes.set(i, newp);
        let total = self.nodes.len();
        proof {
            assert(old(self).nodes@.len() == total - 1 < usize::MAX);
            self.lemma_expand_wf(old(self).nodes@, i as int, c as int, childg);
        }
        c
    }

    /// The arena stays well-formed after a child for the next action of node
    /// `i` is appended at index `c` and the edge is registered.
    proof fn lemma_expand_wf(&self, o: Seq<AdaptationNode>, i: int, c: int, childg: AdaptationNode)
        requires
            tree_wf(self.model, o),
            o.len() < usize::MAX,
            0 <= i < o.len(),
            !o[i].terminal,
            !o[i].fully_expanded,
            c == o.len(),
            self.nodes@.len() == o.len() + 1,
            self.nodes@[c] == childg,
            childg.visits == 0,
            childg.value == 0,
            childg.parent == Some(i as usize),
            childg.children@.len() == 0,
            childg.state == self.model.apply_spec(
                o[i].state,
                self.model.legal_actions_spec(o[i].state)[o[i].children@.len() as int],
            ),
            childg.terminal <==> self.model.legal_actions_spec(childg.state).len() == 0,
            childg.fully_expanded <==> self.model.legal_actions_spec(childg.state).len() == 0,
            self.nodes@[i].children@ == o[i].children@.push(c as usize),
            self.nodes@[i].fully_expanded <==> o[i].children@.len() + 1
                == self.model.legal_actions_spec(o[i].state).len(),
            !self.nodes@[i].terminal,
            self.nodes@[i].visits == o[i].visits,
            self.nodes@[i].value == o[i].value,
            self.nodes@[i].state == o[i].state,
            self.nodes@[i].parent == o[i].parent,
            forall|j: int| 0 <= j < o.len() && j != i ==> self.nodes@[j] == o[j],
        ensures
            tree_wf(self.model, self.nodes@),
    {
        let nn = self.nodes@;
        let m = self.model;
        assert(node_ok(m, o, i));
        assert(node_ok(m, o, 0));
        assert(nn[0].visits == o[0].visits);
        assert forall|j: int| 0 <= j < nn.len() implies node_ok(m, nn, j) by {
            if j == i {
                let acts = m.legal_actions_spec(nn[i].state);
                let och = o[i].children@;
                assert(och.len() < acts.len());
                assert forall|k: int| 0 <= k < nn[i].children@.len() implies {
                    let cc = #[trigger] nn[i].children@[k];
                    &&& i < (cc as int) < nn.len()
                    &&& nn[cc as int].parent == Some(i as usize)
                    &&& nn[cc as int].state == m.apply_spec(nn[i].state, acts[k])
                } by {
                    if k < och.len() {
                        assert(nn[i].children@[k] == och[k]);
                        assert(node_ok(m, o, i));
                        assert(i < (och[k] as int) < o.len());
                        assert(nn[och[k] as int] == o[och[k] as int]);
                    } else {
                        assert(nn[i].children@[k] == c as usize);
                    }
                }
                if i != 0 {
                    let p = o[i].parent->0;
                    assert(o[p as int].children@.contains(i as usize));
                    assert(nn[p as int] == o[p as int]);
                }
            } else if j == c {
                assert(nn[i].children@[o[i].children@.len() as int] == c as usize);
                assert(nn[i].children@.contains(c as usize));
            } else {
                assert(node_ok(m, o, j));
                assert(nn[j] == o[j]);
                let acts = m.legal_actions_spec(nn[j].state);
                assert forall|k: int| 0 <= k < nn[j].children@.len() implies {
                    let cc = #[trigger] nn[j].children@[k];
                    &&& j < (cc as int) < nn.len()
                    &&& nn[cc as int].parent == Some(j as usize)
                    &&& nn[cc as int].state == m.apply_spec(nn[j].state, acts[k])
                } by {
                    let cc = o[j].children@[k];
                    assert(j < (cc as int) < o.len());
                    if cc as int == i {
                        assert(nn[i].parent == o[i].parent);
                        assert(nn[i].state == o[i].state);
                    } else {
                        assert(nn[cc as int] == o[cc as int]);
                    }
                }
                if j != 0 {
                    let p = o[j].parent->0;
                    assert(o[p as int].children@.contains(j as usize));
                    if p as int == i {
                        let idx = choose|idx: int|
                            0 <= idx < o[i].children@.len() && o[i].children@[idx] == j as usize;
                        assert(nn[i].children@[idx] == j as usize);
                        assert(nn[i].children@.contains(j as usize));
                    }
                }
            }
        }
    }
    /// Counts one more visit at node `j` and adds `delta` to its accumulated
    /// value; every other node and every other field stays as it was.
    fn bump_stats(&mut self, j: usize, delta: i128)
        requires
            j < old(self).nodes@.len(),
            old(self).nodes@[j as int].visits < u32::MAX,
            -0x1_0000_0000_0000_0000 <= old(self).nodes@[j as int].value as int
                <= 0x1_0000_0000_0000_0000,
            -0x1_0000_0000 <= delta as int <= 0x1_0000_0000,
        ensures
            final(self).model == old(self).model,
            final(self).c_milli == old(self).c_milli,
            final(self).negate_alternate_levels == old(self).negate_alternate_levels,
            final(self).nodes@.len() == old(self).nodes@.len(),
            final(self).nodes@[j as int].visits == old(self).nodes@[j as int].visits + 1,
            final(self).nodes@[j as int].value == old(self).nodes@[j as int].value + delta,
            final(self).nodes@[j as int].state == old(self).nodes@[j as int].state,
            final(self).nodes@[j as int].parent == old(self).nodes@[j as int].parent,
            final(self).nodes@[j as int].children@ == old(self).nodes@[j as int].children@,
            final(self).nodes@[j as int].fully_expanded == old(
                self,
            ).nodes@[j as int].fully_expanded,
            final(self).nodes@[j as int].terminal == old(self).nodes@[j as int].terminal,
            forall|j2: int|
                0 <= j2 < old(self).nodes@.len() && j2 != j ==> final(self).nodes@[j2] == old(
                    self,
                ).nodes@[j2],
    {
        let nch = self.nodes[j].children.len();
        let mut nc: Vec<usize> = Vec::new();
        let mut t: usize = 0;
        while t < nch
            invariant
                t <= nch,
                self.nodes@ == old(self).nodes@,
                j < old(self).nodes@.len(),
                nch == old(self).nodes@[j as int].children@.len(),
                nc@ =~= old(self).nodes@[j as int].children@.take(t as int),
            decreases nch - t,
        {
            nc.push(self.nodes[j].children[t]);
            t = t + 1;
        }
        proof {
            assert(nc@ =~= old(self).nodes@[j as int].children@);
        }
        let n = AdaptationNode {
            state: self.nodes[j].state,
            visits: self.nodes[j].visits + 1,
            value: self.nodes[j].value + delta,
            parent: self.nodes[j].parent,
            children: nc,
            fully_expanded: self.nodes[j].fully_expanded,
            terminal: self.nodes[j].terminal,
        };
        self.nodes.set(j, n);
    }

    /// Backpropagation: walks the parent chain from node `i` up to and
    /// including the root; every node on that path counts one more visit and
    /// absorbs the rollout return `r` (negated at odd depths above `i` in
    /// adversarial mode). No other node, and no other field, changes.
    #[verifier::rlimit(100)]
    pub fn backpropagate(&mut self, i: usize, r: u32)
        requires
            old(self).wf(),
            i < old(self).nodes@.len(),
            old(self).nodes@[0].visits < u32::MAX,
        ensures
            final(self).wf(),
            final(self).model == old(self).model,
            final(self).c_milli == old(self).c_milli,
            final(self).negate_alternate_levels == old(self).negate_alternate_levels,
            final(self).nodes@.len() == old(self).nodes@.len(),
            forall|j: int|
                0 <= j < old(self).nodes@.len() ==> {
                    &&& (#[trigger] final(self).nodes@[j]).state == old(self).nodes@[j].state
                    &&& final(self).nodes@[j].parent == old(self).nodes@[j].parent
                    &&& final(self).nodes@[j].children@ == old(self).nodes@[j].children@
                    &&& final(self).nodes@[j].fully_expanded == old(
                        self,
                    ).nodes@[j].fully_expanded
                    &&& final(self).nodes@[j].terminal == old(self).nodes@[j].terminal
                    &&& final(self).nodes@[j].visits >= old(self).nodes@[j].visits
                },
            forall|k: int|
                0 <= k < path_seq(old(self).nodes@, i as int).len() ==> {
                    let j = #[trigger] path_seq(old(self).nodes@, i as int)[k];
                    &&& final(self).nodes@[j].visits == old(self).nodes@[j].visits + 1
                    &&& final(self).nodes@[j].value == old(self).nodes@[j].value
                        + backprop_delta(old(self).negate_alternate_levels, k, r)
                },
            forall|j: int|
                0 <= j < old(self).nodes@.len() && !path_seq(old(self).nodes@, i as int).contains(
                    j,
                ) ==> final(self).nodes@[j] == old(self).nodes@[j],
            final(self).nodes@[0].visits == old(self).nodes@[0].visits + 1,
    {
        proof {
            lemma_path_props(self.model, self.nodes@, i as int);
        }
        let ghost p = path_seq(old(self).nodes@, i as int);
        proof {
            assert(node_ok(self.model, self.nodes@, 0));
            assert forall|k: int| 0 <= k < p.len() implies {
                let j = #[trigger] p[k];
                &&& old(self).nodes@[j].visits <= old(self).nodes@[0].visits
                &&& -0x1_0000_0000_0000_0000 <= old(self).nodes@[j].value as int
                    <= 0x1_0000_0000_0000_0000
            } by {
                assert(node_ok(self.model, self.nodes@, p[k]));
                let v = old(self).nodes@[p[k]].visits;
                assert((v as int) * 0xffff_ffff <= 0xffff_ffff * 0xffff_ffff) by (nonlinear_arith)
                    requires
                        0 <= v as int <= 0xffff_ffff,
                ;
            }
        }
        let negate = self.negate_alternate_levels;
        // Phase one: collect the ancestor chain without touching any node.
        let mut path: Vec<usize> = Vec::new();
        let mut cur: usize = i;
        path.push(cur);
        loop
            invariant_except_break
                1 <= path@.len() <= p.len(),
                forall|k: int| 0 <= k < path@.len() ==> #[trigger] path@[k] as int == p[k],
                cur as int == p[path@.len() - 1],
            invariant
                self == old(self),
                i < old(self).nodes@.len(),
                old(self).nodes@[0].parent is None,
                p == path_seq(old(self).nodes@, i as int),
                p.len() >= 1,
                p[0] == i as int,
                p.last() == 0,
                forall|k: int| 0 <= k < p.len() ==> 0 <= #[trigger] p[k] < old(self).nodes@.len(),
                forall|k: int| 0 <= k < p.len() - 1 ==> #[trigger] p[k + 1] < p[k],
                forall|k: int|
                    0 <= k < p.len() - 1 ==> old(self).nodes@[#[trigger] p[k]].parent == Some(
                        p[k + 1] as usize,
                    ),
            ensures
                self == old(self),
                path@.len() == p.len(),
                forall|k: int| 0 <= k < p.len() ==> #[trigger] path@[k] as int == p[k],
            decreases p.len() - path@.len(),
        {
            let ghost d = path@.len() - 1;
            let next = self.nodes[cur].parent;
            match next {
                Some(pp) => {
                    proof {
                        if d + 1 >= p.len() {
                            assert(p[d] == 0);
                            assert(false);
                        }
                        assert(old(self).nodes@[p[d]].parent == Some(p[d + 1] as usize));
                    }
                    cur = pp;
                    path.push(cur);
                },
                None => {
                    proof {
                        if d < p.len() - 1 {
                            assert(old(self).nodes@[p[d]].parent == Some(p[d + 1] as usize));
                            assert(false);
                        }
                    }
                    break ;
                },
            }
        }
        // Phase two: count the visit and absorb the signed return, bottom up.
        let plen = path.len();
        let mut t: usize = 0;
        while t < plen
            invariant
                i < old(self).nodes@.len(),
                old(self).nodes@[0].visits < u32::MAX,
                negate == old(self).negate_alternate_levels,
                self.model == old(self).model,
                self.c_milli == old(self).c_milli,
                self.negate_alternate_levels == old(self).negate_alternate_levels,
                self.nodes@.len() == old(self).nodes@.len(),
                plen == p.len(),
                path@.len() == p.len(),
                t <= plen,
                forall|k: int| 0 <= k < p.len() ==> #[trigger] path@[k] as int == p[k],
                forall|k: int| 0 <= k < p.len() ==> 0 <= #[trigger] p[k] < old(self).nodes@.len(),
                forall|k: int| 0 <= k < p.len() - 1 ==> #[trigger] p[k + 1] < p[k],
                forall|k: int|
                    0 <= k < p.len() ==> {
                        let j = #[trigger] p[k];
                        &&& old(self).nodes@[j].visits <= old(self).nodes@[0].visits
                        &&& -0x1_0000_0000_0000_0000 <= old(self).nodes@[j].value as int
                            <= 0x1_0000_0000_0000_0000
                    },
                forall|j: int|
                    0 <= j < old(self).nodes@.len() ==> {
                        &&& (#[trigger] self.nodes@[j]).state == old(self).nodes@[j].state
                        &&& self.nodes@[j].parent == old(self).nodes@[j].parent
                        &&& self.nodes@[j].children@ == old(self).nodes@[j].children@
                        &&& self.nodes@[j].fully_expanded == old(self).nodes@[j].fully_expanded
                        &&& self.nodes@[j].terminal == old(self).nodes@[j].terminal
                    },
                forall|k: int| 0 <= k < t ==> #[trigger] p[k] > p[t as int] || t >= p.len(),
                forall|k: int|
                    0 <= k < t ==> {
                        let j = #[trigger] p[k];
                        &&& self.nodes@[j].visits == old(self).nodes@[j].visits + 1
                        &&& self.nodes@[j].value == old(self).nodes@[j].value + backprop_delta(
                            negate,
                            k,
                            r,
                        )
                    },
                forall|j: int|
                    0 <= j < old(self).nodes@.len() && (forall|k: int|
                        0 <= k < t ==> #[trigger] p[k] != j) ==> self.nodes@[j] == old(
                        self,
                    ).nodes@[j],
            decreases plen - t,
        {
            let ghost snap = self.nodes@;
            let cur2 = path[t];
            proof {
                assert(forall|k: int| 0 <= k < t ==> #[trigger] p[k] != cur2 as int);
                assert(self.nodes@[cur2 as int] == old(self).nodes@[cur2 as int]);
            }
            let delta: i128 = if negate && t % 2 == 1 {
                -(r as i128)
            } else {
                r as i128
            };
            proof {
                assert(delta as int == backprop_delta(negate, t as int, r));
            }
            self.bump_stats(cur2, delta);
            proof {
                lemma_backprop_step(
                    old(self).nodes@,
                    snap,
                    self.nodes@,
                    p,
                    t as int,
                    negate,
                    r,
                    delta as int,
                );
                if t + 1 < p.len() {
                    assert forall|k: int| 0 <= k < t + 1 implies #[trigger] p[k] > p[t as int
                        + 1] by {
                        assert(p[t as int + 1] < p[t as int]);
                    }
                }
            }
            t = t + 1;
        }
        proof {
            assert forall|j: int| 0 <= j < old(self).nodes@.len() implies self.nodes@[j].visits
                >= old(self).nodes@[j].visits by {
                if p.contains(j) {
                    let k = choose|k: int| 0 <= k < p.len() && p[k] == j;
                    assert(self.nodes@[p[k]].visits == old(self).nodes@[p[k]].visits + 1);
                } else {
                    assert(self.nodes@[j] == old(self).nodes@[j]);
                }
            }
            self.lemma_backprop_wf(old(self).nodes@, i as int, r, negate);
        }
    }

    /// After a backpropagation pass the arena is still well-formed: only
    /// visit counts and accumulated values changed, each by one visit and by
    /// one bounded reward at most.
    proof fn lemma_backprop_wf(&self, o: Seq<AdaptationNode>, i: int, r: u32, negate: bool)
        requires
            tree_wf(self.model, o),
            0 <= i < o.len(),
            o[0].visits < u32::MAX,
            self.nodes@.len() == o.len(),
            forall|j: int|
                0 <= j < o.len() ==> {
                    &&& (#[trigger] self.nodes@[j]).state == o[j].state
                    &&& self.nodes@[j].parent == o[j].parent
                    &&& self.nodes@[j].children@ == o[j].children@
                    &&& self.nodes@[j].fully_expanded == o[j].fully_expanded
                    &&& self.nodes@[j].terminal == o[j].terminal
                },
            forall|k: int|
                0 <= k < path_seq(o, i).len() ==> {
                    let j = #[trigger] path_seq(o, i)[k];
                    &&& self.nodes@[j].visits == o[j].visits + 1
                    &&& self.nodes@[j].value == o[j].value + backprop_delta(negate, k, r)
                },
            forall|j: int|
                0 <= j < o.len() && !path_seq(o, i).contains(j) ==> self.nodes@[j] == o[j],
            path_seq(o, i).last() == 0,
            forall|k: int| 0 <= k < path_seq(o, i).len() ==> 0 <= #[trigger] path_seq(o, i)[k]
                < o.len(),
        ensures
            tree_wf(self.model, self.nodes@),
            self.nodes@[0].visits == o[0].visits + 1,
    {
        let nn = self.nodes@;
        let m = self.model;
        let p = path_seq(o, i);
        assert(p[p.len() - 1] == 0);
        assert(p.contains(0));
        assert(nn[0].visits == o[0].visits + 1);
        assert forall|j: int| 0 <= j < nn.len() implies node_ok(m, nn, j) by {
            assert(node_ok(m, o, j));
            let acts = m.legal_actions_spec(nn[j].state);
            assert forall|k: int| 0 <= k < nn[j].children@.len() implies {
                let cc = #[trigger] nn[j].children@[k];
                &&& j < (cc as int) < nn.len()
                &&& nn[cc as int].parent == Some(j as usize)
                &&& nn[cc as int].state == m.apply_spec(nn[j].state, acts[k])
            } by {
                let cc = o[j].children@[k];
                assert(j < (cc as int) < o.len());
            }
            if p.contains(j) {
                let k = choose|k: int| 0 <= k < p.len() && p[k] == j;
                assert(nn[j].visits == o[j].visits + 1);
                let v = o[j].visits;
                assert((v + 1) * 0xffff_ffff == v * 0xffff_ffff + 0xffff_ffff) by (nonlinear_arith);
            } else {
                assert(nn[j] == o[j]);
            }
        }
    }


    /// Simulation (rollout): from `state`, repeatedly applies a uniformly
    /// random legal action until a terminal state is reached or the move
    /// limit runs out, and returns the final state of that chain. The tree
    /// itself is never touched; only the random generator advances. Without
    /// an explicit limit the rollout still stops after `u32::MAX` moves, so
    /// it always terminates.
    pub fn simulate(&mut self, state: State, move_limit: Option<u32>) -> (s: State)
        ensures
            final(self).nodes@ == old(self).nodes@,
            final(self).model == old(self).model,
            final(self).c_milli == old(self).c_milli,
            final(self).negate_alternate_levels == old(self).negate_alternate_levels,
            exists|n: nat|
                {
                    &&& #[trigger] reaches(old(self).model, state, s, n)
                    &&& (match move_limit {
                        Some(l) => n <= l,
                        None => n <= u32::MAX,
                    })
                    &&& (old(self).model.legal_actions_spec(s).len() > 0 ==> match move_limit {
                        Some(l) => n == l,
                        None => n == u32::MAX,
                    })
                },
    {
        let limit: u32 = match move_limit {
            Some(l) => l,
            None => u32::MAX,
        };
        let mut cur = state;
        let mut moves: u32 = 0;
        loop
            invariant
                self.nodes@ == old(self).nodes@,
                self.model == old(self).model,
                self.c_milli == old(self).c_milli,
                self.negate_alternate_levels == old(self).negate_alternate_levels,
                limit == (match move_limit {
                    Some(l) => l,
                    None => u32::MAX,
                }),
                reaches(old(self).model, state, cur, moves as nat),
                moves <= limit,
            decreases limit - moves,
        {
            let acts = self.model.legal_actions(&cur);
            if acts.len() == 0 {
                proof {
                    assert(reaches(old(self).model, state, cur, moves as nat));
                }
                return cur;
            }
            if moves >= limit {
                return cur;
            }
            let k = rng_below(&mut self.rng, acts.len());
            proof {
                lemma_reaches_extend(old(self).model, state, cur, moves as nat, k as int);
            }
            cur = self.model.apply(&cur, &acts[k]);
            moves = moves + 1;
        }
    }

    /// Child `a` of the root is strictly preferred to child `b` as the
    /// recommendation: more visits, or equally many visits and a larger
    /// accumulated value (with equal visit counts that is exactly the order
    /// of the average values).
    pub open spec fn root_child_beats(&self, a: int, b: int) -> bool {
        let na = self.child_of(0, a);
        let nb = self.child_of(0, b);
        ||| na.visits > nb.visits
        ||| (na.visits == nb.visits && na.value > nb.value)
    }

    /// Position `k` holds the recommended child of the root: no child beats
    /// it, and it beats every earlier child, so it is the first child with
    /// the most visits (ties broken by accumulated value, then insertion
    /// order).
    pub open spec fn is_best_root_child(&self, k: int) -> bool {
        &&& 0 <= k < self.num_children(0)
        &&& forall|j: int|
            0 <= j < self.num_children(0) ==> !(#[trigger] self.root_child_beats(j, k))
        &&& forall|j: int| 0 <= j < k ==> #[trigger] self.root_child_beats(k, j)
    }

    /// The recommended move: the legal action of the root whose child has
    /// the most visits, ties broken by accumulated value and then by
    /// insertion order; `None` exactly when the root has no children yet.
    pub fn best_action(&self) -> (rec: Option<Action>)
        requires
            self.wf(),
        ensures
            rec is None <==> self.nodes@[0].children@.len() == 0,
            match rec {
                Some(a) => exists|k: int|
                    #[trigger] self.is_best_root_child(k) && a == self.model.legal_actions_spec(
                        self.nodes@[0].state,
                    )[k],
                None => true,
            },
    {
        proof {
            assert(node_ok(self.model, self.nodes@, 0));
        }
        let nchild = self.nodes[0].children.len();
        if nchild == 0 {
            return None;
        }
        let st = self.nodes[0].state;
        let acts = self.model.legal_actions(&st);
        let mut best: usize = 0;
        let mut u: usize = 1;
        while u < nchild
            invariant
                self.wf(),
                nchild == self.num_children(0),
                1 <= nchild,
                (best as int) < u as int,
                u <= nchild,
                forall|j: int| 0 <= j < u ==> !(#[trigger] self.root_child_beats(j, best as int)),
                forall|j: int| 0 <= j < best ==> #[trigger] self.root_child_beats(best as int, j),
            decreases nchild - u,
        {
            proof {
                assert(node_ok(self.model, self.nodes@, 0));
                assert(0 < (self.nodes@[0].children@[u as int] as int) < self.nodes@.len());
                assert(0 < (self.nodes@[0].children@[best as int] as int) < self.nodes@.len());
            }
            let cu = self.nodes[0].children[u];
            let cb = self.nodes[0].children[best];
            let beats = self.nodes[cu].visits > self.nodes[cb].visits || (self.nodes[cu].visits
                == self.nodes[cb].visits && self.nodes[cu].value > self.nodes[cb].value);
            if beats {
                proof {
                    assert forall|j: int| 0 <= j < u implies #[trigger] self.root_child_beats(
                        u as int,
                        j,
                    ) by {
                        assert(!self.root_child_beats(j, best as int));
                        assert(self.root_child_beats(u as int, best as int));
                    }
                    assert forall|j: int| 0 <= j < u + 1 implies !(
                    #[trigger] self.root_child_beats(j, u as int)) by {
                        if j < u {
                            assert(self.root_child_beats(u as int, j));
                        }
                    }
                }
                best = u;
            } else {
                proof {
                    assert(!self.root_child_beats(u as int, best as int));
                }
            }
            u = u + 1;
        }
        proof {
            assert(self.is_best_root_child(best as int));
            assert(acts@ == self.model.legal_actions_spec(self.nodes@[0].state));
            assert((best as int) < self.num_children(0) <= acts@.len());
        }
        Some(acts[best])
    }

    /// One full search: `max_iterations` iterations of select, expand
    /// (skipped at a terminal node), simulate and backpropagate, after which
    /// the root holds exactly `max_iterations` more visits; then the
    /// recommended action is returned (`None` exactly when the root still
    /// has no children, as after a zero-iteration budget on a fresh tree).
    pub fn run(&mut self, max_iterations: u32, move_limit: Option<u32>) -> (rec: Option<Action>)
        requires
            old(self).wf(),
            old(self).nodes@[0].visits + max_iterations <= u32::MAX,
        ensures
            final(self).wf(),
            final(self).model == old(self).model,
            final(self).nodes@[0].visits == old(self).nodes@[0].visits + max_iterations,
            final(self).nodes@.len() >= old(self).nodes@.len(),
            final(self).nodes@[0].state == old(self).nodes@[0].state,
            forall|j: int|
                0 <= j < old(self).nodes@.len() ==> final(self).nodes@[j].visits >= old(
                    self
                ).nodes@[j].visits,
            rec is None <==> final(self).nodes@[0].children@.len() == 0,
            final(self).nodes@[0].children@.len() >= old(self).nodes@[0].children@.len(),
            max_iterations >= 1 && !old(self).nodes@[0].terminal ==> rec is Some,
            match rec {
                Some(a) => exists|k: int|
                    #[trigger] final(self).is_best_root_child(k) && a == final(
                        self
                    ).model.legal_actions_spec(final(self).nodes@[0].state)[k],
                None => true,
            },
    {
        let mut it: u32 = 0;
        while it < max_iterations
            invariant
                self.wf(),
                self.model == old(self).model,
                self.c_milli == old(self).c_milli,
                self.negate_alternate_levels == old(self).negate_alternate_levels,
                it <= max_iterations,
                old(self).nodes@[0].visits + max_iterations <= u32::MAX,
                self.nodes@[0].visits == old(self).nodes@[0].visits + it,
                self.nodes@.len() >= old(self).nodes@.len(),
                self.nodes@[0].state == old(self).nodes@[0].state,
                forall|j: int|
                    0 <= j < old(self).nodes@.len() ==> self.nodes@[j].visits >= old(
                        self,
                    ).nodes@[j].visits,
                self.nodes@[0].children@.len() >= old(self).nodes@[0].children@.len(),
                self.nodes@[0].terminal == old(self).nodes@[0].terminal,
                it >= 1 && !old(self).nodes@[0].terminal ==> self.nodes@[0].children@.len() >= 1,
            decreases max_iterations - it,
        {
            let ghost before = self.nodes@;
            let sel = self.select_child(0);
            proof {
                if !self.nodes@[0].terminal && sel != 0 {
                    let steps = choose|steps: Seq<int>|
                        #[trigger] self.is_selection_chain(steps, sel as int) && steps[0] == 0;
                    assert(steps.len() >= 2);
                    assert(self.nodes@[0].fully_expanded);
                    assert(node_ok(self.model, self.nodes@, 0));
                    assert(self.nodes@[0].children@.len() >= 1);
                }
            }
            let leaf = if self.nodes[sel].terminal {
                sel
            } else {
                self.expand(sel)
            };
            let ghost mid = self.nodes@;
            proof {
                assert(mid[0].visits == before[0].visits);
                assert forall|j: int| 0 <= j < before.len() implies mid[j].visits
                    >= before[j].visits by {
                    if j != sel {
                        assert(mid[j] == before[j] || mid[j].visits == before[j].visits);
                    }
                }
            }
            let st = self.nodes[leaf].state;
            let end = self.simulate(st, move_limit);
            let r = self.model.reward(&end);
            self.backpropagate(leaf, r);
            proof {
                assert forall|j: int| 0 <= j < old(self).nodes@.len() implies self.nodes@[j].visits
                    >= old(self).nodes@[j].visits by {
                    assert(self.nodes@[j].visits >= mid[j].visits);
                    assert(mid[j].visits >= before[j].visits);
                }
            }
            it = it + 1;
        }
        self.best_action()
    }

    /// Sets the exploration constant of the UCB rule, in thousandths.
    pub fn set_exploration_milli(&mut self, c_milli: u64)
        ensures
            final(self).c_milli == c_milli,
            final(self).model == old(self).model,
            final(self).nodes@ == old(self).nodes@,
            final(self).negate_alternate_levels == old(self).negate_alternate_levels,
    {
        self.c_milli = c_milli;
    }

    /// Switches adversarial backpropagation (negating the return at
    /// alternating depths) on or off.
    pub fn set_negate_alternate_levels(&mut self, negate: bool)
        ensures
            final(self).negate_alternate_levels == negate,
            final(self).model == old(self).model,
            final(self).nodes@ == old(self).nodes@,
            final(self).c_milli == old(self).c_milli,
    {
        self.negate_alternate_levels = negate;
    }

    /// The root's visit count: the number of completed iterations.
    pub fn root_visits(&self) -> (r: u32)
        requires
            self.nodes@.len() >= 1,
        ensures
            r == self.nodes@[0].visits,
    {
        self.nodes[0].visits
    }

    /// A borrow of node `i` of the arena, for inspection.
    pub fn node_at(&self, i: usize) -> (n: &AdaptationNode)
        requires
            i < self.nodes@.len(),
        ensures
            *n == self.nodes@[i as int],
    {
        &self.nodes[i]
    }

    /// How many nodes the arena holds.
    pub fn node_count(&self) -> (r: usize)
        ensures
            r == self.nodes@.len(),
    {
        self.nodes.len()
    }

    /// Per root child, its visit count and its average value in thousandths
    /// (zero for a never-visited child, so no division by zero occurs).
    pub fn best_child_stats(&self) -> (r: Vec<ChildStats>)
        requires
            self.wf(),
        ensures
            r@.len() == self.num_children(0),
            forall|k: int|
                0 <= k < r@.len() ==> {
                    &&& (#[trigger] r@[k]).visits == self.child_of(0, k).visits
                    &&& r@[k].value_milli as int == (if self.child_of(0, k).visits == 0 {
                        0
                    } else {
                        scaled_div(
                            (self.child_of(0, k).value as int) * 1000,
                            self.child_of(0, k).visits as int,
                        )
                    })
                },
    {
        proof {
            assert(node_ok(self.model, self.nodes@, 0));
        }
        let nchild = self.nodes[0].children.len();
        let mut out: Vec<ChildStats> = Vec::new();
        let mut t: usize = 0;
        while t < nchild
            invariant
                self.wf(),
                nchild == self.num_children(0),
                t <= nchild,
                out@.len() == t as int,
                forall|k: int|
                    0 <= k < t ==> {
                        &&& (#[trigger] out@[k]).visits == self.child_of(0, k).visits
                        &&& out@[k].value_milli as int == (if self.child_of(0, k).visits == 0 {
                            0
                        } else {
                            scaled_div(
                                (self.child_of(0, k).value as int) * 1000,
                                self.child_of(0, k).visits as int,
                            )
                        })
                    },
            decreases nchild - t,
        {
            proof {
                assert(node_ok(self.model, self.nodes@, 0));
                assert(0 < (self.nodes@[0].children@[t as int] as int) < self.nodes@.len());
                self.lemma_child_value_in_range(0, t as int);
            }
            let ci = self.nodes[0].children[t];
            let visits = self.nodes[ci].visits;
            let value = self.nodes[ci].value;
            let value_milli: i128 = if visits == 0 {
                0
            } else if value >= 0 {
                (value * 1000) / (visits as i128)
            } else {
                -((-value * 1000) / (visits as i128))
            };
            out.push(ChildStats { visits, value_milli });
            t = t + 1;
        }
        out
    }
}

/// One backpropagation step: after node `p[d]` absorbs its visit and signed
/// return on top of the first `d` path entries already updated, the first
/// `d + 1` entries are updated and everything else still equals `o`.
proof fn lemma_backprop_step(
    o: Seq<AdaptationNode>,
    snap: Seq<AdaptationNode>,
    now: Seq<AdaptationNode>,
    p: Seq<int>,
    d: int,
    negate: bool,
    r: u32,
    delta: int,
)
    requires
        snap.len() == o.len(),
        now.len() == o.len(),
        0 <= d < p.len(),
        forall|k: int| 0 <= k < p.len() ==> 0 <= #[trigger] p[k] < o.len(),
        forall|k: int| 0 <= k < d ==> #[trigger] p[k] > p[d],
        forall|k: int|
            0 <= k < d ==> {
                let j = #[trigger] p[k];
                &&& snap[j].visits == o[j].visits + 1
                &&& snap[j].value == o[j].value + backprop_delta(negate, k, r)
            },
        forall|j: int|
            0 <= j < o.len() && (forall|k: int| 0 <= k < d ==> #[trigger] p[k] != j) ==> snap[j]
                == o[j],
        delta == backprop_delta(negate, d, r),
        now[p[d]].visits == snap[p[d]].visits + 1,
        now[p[d]].value == snap[p[d]].value + delta,
        forall|j: int| 0 <= j < o.len() && j != p[d] ==> now[j] == snap[j],
    ensures
        forall|k: int|
            0 <= k <= d ==> {
                let j = #[trigger] p[k];
                &&& now[j].visits == o[j].visits + 1
                &&& now[j].value == o[j].value + backprop_delta(negate, k, r)
            },
        forall|j: int|
            0 <= j < o.len() && (forall|k: int| 0 <= k <= d ==> #[trigger] p[k] != j) ==> now[j]
                == o[j],
{
    assert(forall|k: int| 0 <= k < d ==> #[trigger] p[k] != p[d]);
    assert(snap[p[d]] == o[p[d]]);
    assert forall|k: int| 0 <= k <= d implies {
        let j = #[trigger] p[k];
        &&& now[j].visits == o[j].visits + 1
        &&& now[j].value == o[j].value + backprop_delta(negate, k, r)
    } by {
        if k < d {
            assert(now[p[k]] == snap[p[k]]);
        }
    }
    assert forall|j: int|
        0 <= j < o.len() && (forall|k: int| 0 <= k <= d ==> #[trigger] p[k] != j) implies now[j]
        == o[j] by {
        assert(p[d] != j);
        assert(now[j] == snap[j]);
    }
}

} // verus!
