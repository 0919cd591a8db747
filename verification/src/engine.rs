//! The Monte Carlo Tree Search engine: an arena of tree nodes built for one
//! decision, the four-phase search loop, and the final move selection.

use vstd::prelude::*;

verus! {

use crate::playout_reaches;
use crate::rng::random_below;
use crate::uct::uct;
use crate::uct::uct_spec;
use crate::GameState;
use crate::PlayerState;
use crate::Status;

/// The fixed iteration budget of one search call.
pub const MAX_TRIES: u64 = 10_000;

/// One node of the search tree. Nodes live in the arena of a [`Tree`] and
/// refer to each other by index: the parent link is a non-owning
/// back-reference, and the children, created all at once by expansion, point
/// forward to later arena slots.
pub struct Node<S: GameState> {
    /// The position this node represents.
    pub state: S,
    /// The player whose wins this node's score is tracking; alternates with
    /// the depth.
    pub player: <S as GameState>::Player,
    /// How many times backpropagation passed through this node.
    pub visited: u32,
    /// How many simulations through this node favoured the tracked player;
    /// driven to the minimum sentinel when the line is a proven loss.
    pub score: i32,
    /// The arena index of the parent; absent only for the root.
    pub parent: Option<usize>,
    /// The arena indices of the children; empty until expansion.
    pub children: Vec<usize>,
}

impl<S: GameState> Node<S> {
    /// A fresh node with no parent, no children and untouched counters.
    pub fn new(state: S, player: <S as GameState>::Player) -> (n: Node<S>)
        ensures
            n.state == state,
            n.player == player,
            n.visited == 0,
            n.score == 0,
            n.parent is None,
            n.children@.len() == 0,
    {
        Node { state, player, visited: 0, score: 0, parent: None, children: Vec::new() }
    }
}

/// The arena owning every node of one search call. Slot 0 holds the root;
/// every other node is created by expansion after its parent, so parent
/// indices always point backwards and child indices forwards.
pub struct Tree<S: GameState> {
    pub nodes: Vec<Node<S>>,
}

impl<S: GameState> Tree<S> {
    /// The root exists, has no parent, and every other node's parent link
    /// points strictly backwards in the arena.
    pub open spec fn parent_edges_ok(self) -> bool {
        &&& self.nodes.len() >= 1
        &&& self.nodes[0].parent is None
        &&& forall|i: int|
            1 <= i < self.nodes.len() ==> ((#[trigger] self.nodes[i].parent) matches Some(p) && 0
                <= p < i)
    }

    /// Node `i`'s child list is either still empty or complete: one child per
    /// legal continuation of its state, in order, each a later arena slot
    /// pointing back at `i` and tracking the other player.
    pub open spec fn children_ok_at(self, i: int) -> bool
        recommends
            0 <= i < self.nodes.len(),
    {
        let ch = self.nodes[i].children@;
        let succ = self.nodes[i].state.spec_next_states();
        ch.len() == 0 || {
            &&& ch.len() == succ.len()
            &&& forall|j: int|
                0 <= j < ch.len() ==> {
                    &&& i < (#[trigger] ch[j]) < self.nodes.len()
                    &&& self.nodes[ch[j] as int].parent == Some(i as usize)
                    &&& self.nodes[ch[j] as int].state == succ[j]
                    &&& self.nodes[ch[j] as int].player == self.nodes[i].player.other()
                }
        }
    }

    /// Well-formedness of the whole arena.
    pub open spec fn wf(self) -> bool {
        &&& self.parent_edges_ok()
        &&& forall|i: int| 0 <= i < self.nodes.len() ==> #[trigger] self.children_ok_at(i)
    }

    /// Every visit counter is at most `bound`, and no score exceeds the visit
    /// counter of its own node.
    pub open spec fn counts_bounded(self, bound: int) -> bool {
        forall|i: int|
            0 <= i < self.nodes.len() ==> ((#[trigger] self.nodes[i].visited) <= bound
                && self.nodes[i].score <= self.nodes[i].visited)
    }

    /// The arena indices on the parent chain from node `i` up to the root,
    /// both ends included.
    pub open spec fn path_to_root(self, i: int) -> Set<int>
        decreases i,
    {
        if 0 <= i < self.nodes.len() {
            match self.nodes[i].parent {
                Some(p) => if 0 <= p < i {
                    set![i].union(self.path_to_root(p as int))
                } else {
                    set![i]
                },
                None => set![i],
            }
        } else {
            set![i]
        }
    }

    /// The parent chain of a node of a well-formed arena passes the node
    /// itself, only nodes below it, and ends at the root.
    pub proof fn lemma_path_members(self, i: int)
        requires
            self.wf(),
            0 <= i < self.nodes.len(),
        ensures
            self.path_to_root(i).contains(i),
            self.path_to_root(i).contains(0),
            forall|j: int| self.path_to_root(i).contains(j) ==> 0 <= j <= i,
        decreases i,
    {
        if i > 0 {
            let p = self.nodes[i].parent.unwrap();
            self.lemma_path_members(p as int);
        }
    }

    /// Well-formedness only reads the structural fields, so it carries over
    /// to an arena whose nodes differ at most in their counters.
    pub proof fn lemma_wf_same_structure(self, other: Tree<S>)
        requires
            self.wf(),
            other.nodes.len() == self.nodes.len(),
            forall|j: int|
                0 <= j < self.nodes.len() ==> {
                    &&& (#[trigger] other.nodes[j]).state == self.nodes[j].state
                    &&& other.nodes[j].player == self.nodes[j].player
                    &&& other.nodes[j].parent == self.nodes[j].parent
                    &&& other.nodes[j].children == self.nodes[j].children
                },
        ensures
            other.wf(),
    {
        assert forall|i: int| 0 <= i < other.nodes.len() implies #[trigger] other.children_ok_at(
            i,
        ) by {
            assert(self.children_ok_at(i));
            let ch = self.nodes[i].children@;
            if ch.len() != 0 {
                assert forall|j: int| 0 <= j < ch.len() implies {
                    &&& i < (#[trigger] other.nodes[i].children@[j]) < other.nodes.len()
                    &&& other.nodes[other.nodes[i].children@[j] as int].parent == Some(i as usize)
                    &&& other.nodes[other.nodes[i].children@[j] as int].state
                        == other.nodes[i].state.spec_next_states()[j]
                    &&& other.nodes[other.nodes[i].children@[j] as int].player
                        == other.nodes[i].player.other()
                } by {
                    assert(ch[j] == other.nodes[i].children@[j]);
                }
            }
        }
    }

    /// A fresh arena holding only a root with the given state and
    /// perspective.
    pub fn new(state: S, player: <S as GameState>::Player) -> (t: Tree<S>)
        ensures
            t.wf(),
            t.counts_bounded(0),
            t.nodes.len() == 1,
            t.nodes[0].state == state,
            t.nodes[0].player == player,
            t.nodes[0].visited == 0,
            t.nodes[0].score == 0,
            t.nodes[0].children@.len() == 0,
    {
        let mut nodes: Vec<Node<S>> = Vec::new();
        nodes.push(Node::new(state, player));
        let t = Tree { nodes };
        proof {
            assert forall|i: int| 0 <= i < t.nodes.len() implies #[trigger] t.children_ok_at(
                i,
            ) by {}
        }
        t
    }

    /// The UCT score under which selection ranks child `c` of node `i`.
    pub open spec fn uct_of_child(self, i: int, c: int) -> u32 {
        uct_spec(self.nodes[i].visited, self.nodes[c].score, self.nodes[c].visited as i32)
    }

    /// The child of `node` with the highest UCT score, or nothing when
    /// `node` has no children yet. Among equal scores the first child wins.
    pub fn find_best_node_with_uct(&self, node: usize) -> (r: Option<usize>)
        requires
            self.wf(),
            self.counts_bounded(MAX_TRIES as int),
            node < self.nodes.len(),
        ensures
            match r {
                None => self.nodes[node as int].children@.len() == 0,
                Some(c) => {
                    let ch = self.nodes[node as int].children@;
                    &&& ch.len() > 0
                    &&& ch.contains(c)
                    &&& node < c < self.nodes.len()
                    &&& forall|j: int|
                        0 <= j < ch.len() ==> self.uct_of_child(
                            node as int,
                            #[trigger] ch[j] as int,
                        ) <= self.uct_of_child(node as int, c as int)
                },
            },
    {
        let ghost ch = self.nodes[node as int].children@;
        let parent_visits = self.nodes[node].visited;
        let len = self.nodes[node].children.len();
        if len == 0 {
            return None;
        }
        proof {
            assert(self.children_ok_at(node as int));
        }
        let first = self.nodes[node].children[0];
        let mut best = first;
        let mut best_val = uct(parent_visits, self.nodes[first].score, self.nodes[first].visited as i32);
        let mut j: usize = 1;
        while j < len
            invariant
                self.wf(),
                self.counts_bounded(MAX_TRIES as int),
                node < self.nodes.len(),
                ch == self.nodes[node as int].children@,
                parent_visits == self.nodes[node as int].visited,
                len == ch.len(),
                1 <= j <= len,
                ch.contains(best),
                node < best < self.nodes.len(),
                best_val == self.uct_of_child(node as int, best as int),
                forall|t: int|
                    0 <= t < j ==> self.uct_of_child(node as int, #[trigger] ch[t] as int)
                        <= best_val,
            decreases len - j,
        {
            proof {
                assert(self.children_ok_at(node as int));
            }
            let c = self.nodes[node].children[j];
            let val = uct(parent_visits, self.nodes[c].score, self.nodes[c].visited as i32);
            proof {
                assert(c == ch[j as int]);
                assert(val == self.uct_of_child(node as int, c as int));
            }
            if val > best_val {
                best = c;
                best_val = val;
            }
            j = j + 1;
        }
        Some(best)
    }

    /// The child of `node` with the highest accumulated score, or nothing
    /// when `node` has no children.
    pub fn child_with_max_score(&self, node: usize) -> (r: Option<usize>)
        requires
            self.wf(),
            node < self.nodes.len(),
        ensures
            match r {
                None => self.nodes[node as int].children@.len() == 0,
                Some(c) => {
                    let ch = self.nodes[node as int].children@;
                    &&& ch.len() > 0
                    &&& ch.contains(c)
                    &&& node < c < self.nodes.len()
                    &&& forall|j: int|
                        0 <= j < ch.len() ==> self.nodes[#[trigger] ch[j] as int].score
                            <= self.nodes[c as int].score
                },
            },
    {
        let ghost ch = self.nodes[node as int].children@;
        let len = self.nodes[node].children.len();
        if len == 0 {
            return None;
        }
        proof {
            assert(self.children_ok_at(node as int));
        }
        let first = self.nodes[node].children[0];
        let mut best = first;
        let mut best_score = self.nodes[first].score;
        let mut j: usize = 1;
        while j < len
            invariant
                self.wf(),
                node < self.nodes.len(),
                ch == self.nodes[node as int].children@,
                len == ch.len(),
                1 <= j <= len,
                ch.contains(best),
                node < best < self.nodes.len(),
                best_score == self.nodes[best as int].score,
                forall|t: int|
                    0 <= t < j ==> self.nodes[#[trigger] ch[t] as int].score <= best_score,
            decreases len - j,
        {
            proof {
                assert(self.children_ok_at(node as int));
            }
            let c = self.nodes[node].children[j];
            let s = self.nodes[c].score;
            if s > best_score {
                best = c;
                best_score = s;
            }
            j = j + 1;
        }
        Some(best)
    }

    /// A uniformly-random child of `node`, which must have children.
    pub fn random_child(&self, node: usize) -> (r: usize)
        requires
            self.wf(),
            node < self.nodes.len(),
            self.nodes[node as int].children@.len() > 0,
        ensures
            self.nodes[node as int].children@.contains(r),
            node < r < self.nodes.len(),
    {
        let len = self.nodes[node].children.len();
        let pick = random_below(len);
        proof {
            assert(self.children_ok_at(node as int));
        }
        self.nodes[node].children[pick]
    }

    /// Whether node `k` ranks at least as high under the UCT rule as every
    /// child of its parent.
    pub open spec fn is_best_uct_child(self, k: int) -> bool {
        self.nodes[k].parent matches Some(p) && forall|j: int|
            0 <= j < self.nodes[p as int].children@.len() ==> self.uct_of_child(
                p as int,
                (#[trigger] self.nodes[p as int].children@[j]) as int,
            ) <= self.uct_of_child(p as int, k)
    }

    /// Selection: from the root, repeatedly descend into the child with the
    /// best UCT score, stopping at the first node with no children. The
    /// returned node is such a leaf, and its whole ancestry was chosen by
    /// the UCT rule: below the root, each node of the chain scores at least
    /// as high as any sibling.
    pub fn select_promising_node(&self) -> (r: usize)
        requires
            self.wf(),
            self.counts_bounded(MAX_TRIES as int),
        ensures
            r < self.nodes.len(),
            self.nodes[r as int].children@.len() == 0,
            forall|k: int|
                #[trigger] self.path_to_root(r as int).contains(k) && k != 0
                    ==> self.is_best_uct_child(k),
    {
        let mut node: usize = 0;
        while self.nodes[node].children.len() != 0
            invariant
                self.wf(),
                self.counts_bounded(MAX_TRIES as int),
                node < self.nodes.len(),
                forall|k: int|
                    #[trigger] self.path_to_root(node as int).contains(k) && k != 0
                        ==> self.is_best_uct_child(k),
            decreases self.nodes.len() - node,
        {
            let ghost prev = node as int;
            node = self.find_best_node_with_uct(node).unwrap();
            proof {
                self.lemma_path_members(prev);
                assert(self.children_ok_at(prev));
                assert(self.nodes[node as int].parent == Some(prev as usize));
                assert(self.path_to_root(node as int) == set![node as int].union(
                    self.path_to_root(prev),
                ));
                assert(self.is_best_uct_child(node as int)) by {
                    let ch = self.nodes[prev].children@;
                    assert(ch.contains(node));
                    assert forall|j: int|
                        0 <= j < ch.len() implies self.uct_of_child(
                        prev,
                        (#[trigger] ch[j]) as int,
                    ) <= self.uct_of_child(prev, node as int) by {}
                }
                assert forall|k: int|
                    #[trigger] self.path_to_root(node as int).contains(k) && k != 0
                        implies self.is_best_uct_child(k) by {
                    if k != node as int {
                        assert(self.path_to_root(prev).contains(k));
                    }
                }
            }
        }
        node
    }

    /// Expansion: create every legal continuation of the unexpanded `node`
    /// as a fresh child in one batch. Each child starts with zero visits and
    /// zero score, inherits `node` as parent, and tracks the other player;
    /// the rest of the arena is left untouched.
    pub fn expand_node(&mut self, node: usize)
        requires
            old(self).wf(),
            node < old(self).nodes.len(),
            old(self).nodes[node as int].children@.len() == 0,
        ensures
            final(self).wf(),
            final(self).nodes.len() == old(self).nodes.len() + old(
                self,
            ).nodes[node as int].state.spec_next_states().len(),
            forall|j: int|
                0 <= j < old(self).nodes.len() && j != node ==> final(self).nodes[j] == old(
                    self,
                ).nodes[j],
            final(self).nodes[node as int].state == old(self).nodes[node as int].state,
            final(self).nodes[node as int].player == old(self).nodes[node as int].player,
            final(self).nodes[node as int].visited == old(self).nodes[node as int].visited,
            final(self).nodes[node as int].score == old(self).nodes[node as int].score,
            final(self).nodes[node as int].parent == old(self).nodes[node as int].parent,
            ({
                let succ = old(self).nodes[node as int].state.spec_next_states();
                let base = old(self).nodes.len() as int;
                &&& final(self).nodes[node as int].children@.len() == succ.len()
                &&& forall|j: int|
                    0 <= j < succ.len() ==> {
                        &&& (#[trigger] final(self).nodes[node as int].children@[j]) == base + j
                        &&& final(self).nodes[base + j].state == succ[j]
                        &&& final(self).nodes[base + j].player == old(self).nodes[node as int].player.other()
                        &&& final(self).nodes[base + j].visited == 0
                        &&& final(self).nodes[base + j].score == 0
                        &&& final(self).nodes[base + j].parent == Some(node)
                        &&& final(self).nodes[base + j].children@.len() == 0
                    }
            }),
    {
        let ghost orig = *self;
        let states = self.nodes[node].state.next_states();
        let child_player = self.nodes[node].player.next();
        let base = self.nodes.len();
        let mut children: Vec<usize> = Vec::new();
        let mut idx: usize = 0;
        let k = states.len();
        while idx < k
            invariant
                orig.wf(),
                node < orig.nodes.len(),
                k == states@.len(),
                states@ == orig.nodes[node as int].state.spec_next_states(),
                child_player == orig.nodes[node as int].player.other(),
                base == orig.nodes.len(),
                idx <= k,
                self.nodes.len() == base + idx,
                forall|j: int| 0 <= j < base ==> self.nodes[j] == orig.nodes[j],
                children@.len() == idx,
                forall|j: int| 0 <= j < idx ==> (#[trigger] children@[j]) == base + j,
                forall|j: int|
                    base <= j < base + idx ==> {
                        &&& (#[trigger] self.nodes[j]).state == states@[j - base]
                        &&& self.nodes[j].player == child_player
                        &&& self.nodes[j].visited == 0
                        &&& self.nodes[j].score == 0
                        &&& self.nodes[j].parent == Some(node)
                        &&& self.nodes[j].children@.len() == 0
                    },
            decreases k - idx,
        {
            let st = states[idx].clone_state();
            self.nodes.push(
                Node {
                    state: st,
                    player: child_player,
                    visited: 0,
                    score: 0,
                    parent: Some(node),
                    children: Vec::new(),
                },
            );
            let child_idx = self.nodes.len() - 1;
            children.push(child_idx);
            proof {
                let j = base + idx as int;
                assert(self.nodes[j].state == states@[idx as int]);
                assert(self.nodes[j].player == child_player);
                assert(self.nodes[j].visited == 0);
                assert(self.nodes[j].score == 0);
                assert(self.nodes[j].parent == Some(node));
                assert(self.nodes[j].children@.len() == 0);
            }
            idx = idx + 1;
        }
        let ghost mid = *self;
        self.nodes[node].children = children;
        proof {
            let t = *self;
            assert(t.nodes@ =~= mid.nodes@.update(node as int, t.nodes[node as int]));
            assert forall|i: int| 0 <= i < t.nodes.len() && i != node implies t.nodes[i]
                == mid.nodes[i] by {}
            assert(t.nodes[node as int].children@ == children@);
            assert(t.nodes[node as int].state == mid.nodes[node as int].state);
            assert(t.nodes[node as int].player == mid.nodes[node as int].player);
            assert(t.nodes[node as int].visited == mid.nodes[node as int].visited);
            assert(t.nodes[node as int].score == mid.nodes[node as int].score);
            assert(t.nodes[node as int].parent == mid.nodes[node as int].parent);
            assert(t.parent_edges_ok()) by {
                assert forall|i: int|
                    1 <= i < t.nodes.len() implies ((#[trigger] t.nodes[i].parent) matches Some(p)
                    && 0 <= p < i) by {
                    if i < base {
                        assert(mid.nodes[i].parent == orig.nodes[i].parent);
                        assert(t.nodes[i].parent == orig.nodes[i].parent);
                    } else {
                        assert(t.nodes[i].parent == mid.nodes[i].parent);
                        assert(mid.nodes[i].parent == Some(node));
                    }
                }
            }
            assert forall|i: int| 0 <= i < t.nodes.len() implies #[trigger] t.children_ok_at(
                i,
            ) by {
                if i == node {
                    assert(t.nodes[i].state == orig.nodes[i].state);
                    let succ = t.nodes[i].state.spec_next_states();
                    assert(children@.len() == succ.len());
                    assert forall|j: int| 0 <= j < children@.len() implies {
                        &&& i < (#[trigger] t.nodes[i].children@[j]) < t.nodes.len()
                        &&& t.nodes[t.nodes[i].children@[j] as int].parent == Some(i as usize)
                        &&& t.nodes[t.nodes[i].children@[j] as int].state == succ[j]
                        &&& t.nodes[t.nodes[i].children@[j] as int].player == t.nodes[i].player.other()
                    } by {
                        assert(t.nodes[i].children@[j] == base + j);
                        assert(mid.nodes[base + j].state == states@[j]);
                        assert(t.nodes[base + j] == mid.nodes[base + j]);
                    }
                } else if i < base {
                    assert(orig.children_ok_at(i));
                    let ch = orig.nodes[i].children@;
                    assert(mid.nodes[i] == orig.nodes[i]);
                    assert(t.nodes[i].children@ == ch);
                    if ch.len() != 0 {
                        assert forall|j: int| 0 <= j < ch.len() implies {
                            &&& i < (#[trigger] t.nodes[i].children@[j]) < t.nodes.len()
                            &&& t.nodes[t.nodes[i].children@[j] as int].parent == Some(i as usize)
                            &&& t.nodes[t.nodes[i].children@[j] as int].state
                                == t.nodes[i].state.spec_next_states()[j]
                            &&& t.nodes[t.nodes[i].children@[j] as int].player == t.nodes[i].player.other()
                        } by {
                            assert(ch[j] == t.nodes[i].children@[j]);
                            assert(i < ch[j] < orig.nodes.len());
                            assert(mid.nodes[ch[j] as int] == orig.nodes[ch[j] as int]);
                            if ch[j] == node {
                                assert(t.nodes[ch[j] as int].parent == orig.nodes[ch[j] as int].parent);
                                assert(t.nodes[ch[j] as int].state == orig.nodes[ch[j] as int].state);
                                assert(t.nodes[ch[j] as int].player == orig.nodes[ch[j] as int].player);
                            } else {
                                assert(t.nodes[ch[j] as int] == orig.nodes[ch[j] as int]);
                            }
                        }
                    }
                } else {
                    assert(t.nodes[i] == mid.nodes[i]);
                    assert(t.nodes[i].children@.len() == 0);
                }
            }
        }
    }

    /// Backpropagation: walk from `node` up the parent chain to the root,
    /// counting one more visit at every node passed, and one more point of
    /// score at exactly those passed nodes whose tracked player the playout
    /// outcome names as the winner. No other node changes at all.
    pub fn back_propagation(
        &mut self,
        node: usize,
        resulting_status: Status<<S as GameState>::Player>,
    )
        requires
            old(self).wf(),
            node < old(self).nodes.len(),
            forall|i: int|
                0 <= i < old(self).nodes.len() ==> (#[trigger] old(self).nodes[i].visited)
                    < u32::MAX && old(self).nodes[i].score < i32::MAX,
        ensures
            final(self).wf(),
            final(self).nodes.len() == old(self).nodes.len(),
            forall|j: int|
                0 <= j < old(self).nodes.len() ==> {
                    let was = old(self).nodes[j];
                    let now = #[trigger] final(self).nodes[j];
                    &&& now.state == was.state
                    &&& now.player == was.player
                    &&& now.parent == was.parent
                    &&& now.children == was.children
                    &&& if old(self).path_to_root(node as int).contains(j) {
                        now.visited == was.visited + 1 && now.score == was.score + (
                        if resulting_status == Status::<<S as GameState>::Player>::Winner(
                            was.player,
                        ) {
                            1int
                        } else {
                            0int
                        })
                    } else {
                        now == was
                    }
                },
    {
        let ghost orig = *self;
        let mut cur = node;
        proof {
            orig.lemma_path_members(node as int);
        }
        loop
            invariant_except_break
                orig.wf(),
                node < orig.nodes.len(),
                cur < orig.nodes.len(),
                self.nodes.len() == orig.nodes.len(),
                forall|i: int|
                    0 <= i < orig.nodes.len() ==> (#[trigger] orig.nodes[i].visited) < u32::MAX
                        && orig.nodes[i].score < i32::MAX,
                orig.path_to_root(node as int).contains(cur as int),
                forall|j: int|
                    orig.path_to_root(cur as int).contains(j) ==> orig.path_to_root(
                        node as int,
                    ).contains(j),
                forall|j: int| orig.path_to_root(cur as int).contains(j) ==> 0 <= j <= cur,
                forall|j: int|
                    0 <= j < orig.nodes.len() ==> {
                        let was = orig.nodes[j];
                        let now = #[trigger] self.nodes[j];
                        &&& if orig.path_to_root(node as int).contains(j)
                            && !orig.path_to_root(cur as int).contains(j) {
                            now.state == was.state && now.player == was.player && now.parent
                                == was.parent && now.children == was.children && now.visited
                                == was.visited + 1 && now.score == was.score + (
                            if resulting_status == Status::<
                                <S as GameState>::Player,
                            >::Winner(was.player) {
                                1int
                            } else {
                                0int
                            })
                        } else {
                            now == was
                        }
                    },
            ensures
                self.nodes.len() == orig.nodes.len(),
                forall|j: int|
                    0 <= j < orig.nodes.len() ==> {
                        let was = orig.nodes[j];
                        let now = #[trigger] self.nodes[j];
                        &&& if orig.path_to_root(node as int).contains(j) {
                            now.state == was.state && now.player == was.player && now.parent
                                == was.parent && now.children == was.children && now.visited
                                == was.visited + 1 && now.score == was.score + (
                            if resulting_status == Status::<
                                <S as GameState>::Player,
                            >::Winner(was.player) {
                                1int
                            } else {
                                0int
                            })
                        } else {
                            now == was
                        }
                    },
            decreases cur,
        {
            proof {
                orig.lemma_path_members(cur as int);
            }
            let v = self.nodes[cur].visited;
            self.nodes[cur].visited = v + 1;
            let won = match resulting_status {
                Status::Winner(p) => p.eq_player(self.nodes[cur].player),
                _ => false,
            };
            if won {
                let s = self.nodes[cur].score;
                self.nodes[cur].score = s + 1;
            }
            let parent = self.nodes[cur].parent;
            match parent {
                Some(p) => {
                    proof {
                        assert(orig.path_to_root(cur as int) == set![cur as int].union(
                            orig.path_to_root(p as int),
                        ));
                        assert forall|j: int|
                            orig.path_to_root(p as int).contains(j) implies 0 <= j <= p by {
                            orig.lemma_path_members(p as int);
                        }
                        assert(!orig.path_to_root(p as int).contains(cur as int));
                    }
                    cur = p;
                },
                None => {
                    proof {
                        assert(cur == 0);
                        assert(orig.path_to_root(0) == set![0int]);
                    }
                    break ;
                },
            }
        }
        proof {
            orig.lemma_wf_same_structure(*self);
        }
    }

    /// Simulation: clone the state of `node` and play random legal moves
    /// until the game ends, returning the terminal outcome — always the
    /// status of a position the node's own state reaches by a chain of
    /// alternating-turn random plays; the node's state itself is only
    /// cloned, never touched. Short-circuit: when the position already
    /// shows `opponent` as the winner, mark the parent of `node` with the
    /// minimum sentinel score, so that selection shuns this line, and
    /// return at once; the arena changes in no other way.
    pub fn simulate_random_playout(
        &mut self,
        node: usize,
        opponent: <S as GameState>::Player,
    ) -> (r: Status<<S as GameState>::Player>)
        requires
            old(self).wf(),
            node < old(self).nodes.len(),
        ensures
            final(self).wf(),
            final(self).nodes.len() == old(self).nodes.len(),
            !(r is InProgress),
            playout_reaches(old(self).nodes[node as int].state, r),
            ({
                let st = old(self).nodes[node as int].state.spec_status();
                if st == Status::<<S as GameState>::Player>::Winner(opponent) {
                    &&& r == st
                    &&& match old(self).nodes[node as int].parent {
                        Some(p) => {
                            &&& final(self).nodes[p as int].score == i32::MIN
                            &&& final(self).nodes[p as int].state == old(self).nodes[p as int].state
                            &&& final(self).nodes[p as int].player == old(self).nodes[p as int].player
                            &&& final(self).nodes[p as int].visited == old(self).nodes[p as int].visited
                            &&& final(self).nodes[p as int].parent == old(self).nodes[p as int].parent
                            &&& final(self).nodes[p as int].children == old(self).nodes[p as int].children
                            &&& forall|j: int|
                                0 <= j < old(self).nodes.len() && j != p ==> final(self).nodes[j]
                                    == old(self).nodes[j]
                        },
                        None => *final(self) == *old(self),
                    }
                } else {
                    &&& *final(self) == *old(self)
                    &&& (!(st is InProgress) ==> r == st)
                }
            }),
    {
        let ghost orig = *self;
        let ghost st0 = self.nodes[node as int].state.spec_status();
        let ghost start0 = self.nodes[node as int].state;
        let mut state = self.nodes[node].state.clone_state();
        let mut board_status = state.status();
        let opponent_won = match board_status {
            Status::Winner(p) => p.eq_player(opponent),
            _ => false,
        };
        if opponent_won {
            match self.nodes[node].parent {
                Some(p) => {
                    proof {
                        assert(0 <= p < node);
                    }
                    self.nodes[p].score = i32::MIN;
                    proof {
                        orig.lemma_wf_same_structure(*self);
                    }
                },
                None => {},
            }
            return board_status;
        }
        while board_status.is_in_progress()
            invariant
                board_status == state.spec_status(),
                !(st0 is InProgress) ==> board_status == st0,
                forall|o: Status<<S as GameState>::Player>|
                    #[trigger] playout_reaches(state, o) ==> playout_reaches(start0, o),
                *self == orig,
            decreases state.moves_left(),
        {
            let ghost s_before = state;
            state.toggle_player();
            state.next_random_play();
            proof {
                assert(s_before.spec_toggled().spec_plays().contains(state));
                assert forall|o: Status<<S as GameState>::Player>|
                    #[trigger] playout_reaches(state, o) implies playout_reaches(
                    s_before,
                    o,
                ) by {
                    assert(s_before.spec_status() is InProgress);
                }
            }
            board_status = state.status();
        }
        proof {
            assert(playout_reaches(state, board_status));
        }
        board_status
    }
}

/// The search engine's public contract: explore the game from
/// `current_state`, which must still be in progress, on behalf of
/// `own_player`, who is about to move there, and return the state reached by
/// the most promising immediate move. The result is always one of
/// `current_state`'s own legal continuations; which one may differ between
/// calls, since simulation draws random numbers.
pub fn find_next_move<S: GameState>(current_state: S, own_player: <S as GameState>::Player) -> (r:
    S)
    requires
        current_state.spec_status() is InProgress,
    ensures
        current_state.spec_next_states().contains(r),
{
    let ghost cs = current_state;
    let opponent = own_player.next();
    let mut tree = Tree::new(current_state, opponent);
    let mut i: u64 = 0;
    while i < MAX_TRIES
        invariant
            tree.wf(),
            tree.counts_bounded(i as int),
            i <= MAX_TRIES,
            tree.nodes[0].state == cs,
            cs.spec_status() is InProgress,
            i >= 1 ==> tree.nodes[0].children@.len() > 0,
            i == 0 ==> tree.nodes.len() == 1,
        decreases MAX_TRIES - i,
    {
        let ghost t0 = tree;
        proof {
            assert(tree.counts_bounded(MAX_TRIES as int)) by {
                assert forall|j: int|
                    0 <= j < tree.nodes.len() implies ((#[trigger] tree.nodes[j].visited)
                        <= MAX_TRIES as int && tree.nodes[j].score <= tree.nodes[j].visited) by {
                    assert(tree.nodes[j].visited <= i);
                }
            }
        }
        // Phase 1 - Selection
        let promising = tree.select_promising_node();
        // Phase 2 - Expansion
        let promising_status = tree.nodes[promising].state.status();
        if promising_status.is_in_progress() {
            proof {
                tree.nodes[promising as int].state.lemma_in_progress_has_moves();
            }
            tree.expand_node(promising);
            proof {
                assert(tree.counts_bounded(i as int)) by {
                    assert forall|j: int|
                        0 <= j < tree.nodes.len() implies ((#[trigger] tree.nodes[j].visited)
                            <= i as int && tree.nodes[j].score <= tree.nodes[j].visited) by {
                        if j < t0.nodes.len() && j != promising {
                            assert(tree.nodes[j] == t0.nodes[j]);
                        } else if j == promising {
                            assert(tree.nodes[j].visited == t0.nodes[j].visited);
                            assert(tree.nodes[j].score == t0.nodes[j].score);
                        } else {
                            let jj = j - t0.nodes.len();
                            assert(tree.nodes[promising as int].children@[jj] == t0.nodes.len()
                                + jj);
                            assert(tree.nodes[j].visited == 0);
                            assert(tree.nodes[j].score == 0);
                        }
                    }
                }
                assert(tree.nodes[0].state == cs);
                assert(i >= 1 ==> tree.nodes[0].children@.len() > 0);
            }
        }
        // Phase 3 - Simulation
        let ghost t1 = tree;
        let sim_node = if tree.nodes[promising].children.len() > 0 {
            tree.random_child(promising)
        } else {
            promising
        };
        let playout = tree.simulate_random_playout(sim_node, opponent);
        proof {
            assert(tree.counts_bounded(i as int)) by {
                assert forall|j: int|
                    0 <= j < tree.nodes.len() implies ((#[trigger] tree.nodes[j].visited)
                        <= i as int && tree.nodes[j].score <= tree.nodes[j].visited) by {
                    assert(tree.nodes[j].visited == t1.nodes[j].visited);
                }
            }
            assert(tree.nodes[0].state == t1.nodes[0].state);
            assert(tree.nodes[0].children == t1.nodes[0].children);
        }
        // Phase 4 - Update
        let ghost t2 = tree;
        proof {
            assert forall|j: int|
                0 <= j < tree.nodes.len() implies ((#[trigger] tree.nodes[j].visited) < u32::MAX
                    && tree.nodes[j].score < i32::MAX) by {
                assert(tree.nodes[j].visited <= i);
                assert(tree.nodes[j].score <= tree.nodes[j].visited);
            }
        }
        tree.back_propagation(sim_node, playout);
        proof {
            assert(tree.counts_bounded(i as int + 1)) by {
                assert forall|j: int|
                    0 <= j < tree.nodes.len() implies ((#[trigger] tree.nodes[j].visited) <= i
                        as int + 1 && tree.nodes[j].score <= tree.nodes[j].visited) by {
                    assert(tree.nodes[j].state == t2.nodes[j].state);
                }
            }
            assert(tree.nodes[0].state == t2.nodes[0].state);
            assert(tree.nodes[0].children == t2.nodes[0].children);
        }
        i = i + 1;
    }
    let winner = tree.child_with_max_score(0);
    let w = winner.unwrap();
    proof {
        let ch = tree.nodes[0].children@;
        let j = choose|j: int| 0 <= j < ch.len() && ch[j] == w;
        assert(tree.children_ok_at(0));
        assert(tree.nodes[w as int].state == cs.spec_next_states()[j]);
        assert(cs.spec_next_states().contains(tree.nodes[w as int].state));
    }
    tree.nodes[w].state.clone_state()
}

} // verus!
