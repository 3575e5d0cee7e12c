//! The search worker: the run flag and the node budget, and one unit of
//! work on the tree.
//!
//! A unit of work has three steps, so that several workers can share one
//! tree and hold it only for the first and the last: selecting a leaf,
//! developing the children of the leaf from the state at the leaf, and
//! installing them.
use vstd::prelude::*;

use crate::game;
use crate::game::eval::Mode;
use crate::game::movegen::enumerates_state;
use crate::tree::{
    children_of, gen_children, kept, lead, prune_children, sort_desc, walk, Node, Tree,
};

verus! {

/// A leaf is developed only while its queue is longer than this.
pub const MIN_LOOKAHEAD: usize = 2;

/// The node budget of a new worker.
pub const DEFAULT_NODE_LIMIT: u64 = 100000;

/// What the search has done since the tree was last moved on.
#[derive(Clone, Copy, PartialEq, Eq, Debug, Structural)]
pub struct BotStats {
    pub nodes: u64,
}

/// The run flag, the node budget and the statistics of a worker.
#[derive(Clone, Copy, PartialEq, Eq, Debug, Structural)]
pub struct State {
    pub node_limit: u64,
    pub run: bool,
    pub stats: BotStats,
}

/// A search worker: the tree with its run flag, budget and statistics.
pub struct Worker {
    pub tree: Tree,
    pub state: State,
}

impl Default for BotStats {
    fn default() -> (s: Self)
        ensures
            s.nodes == 0,
    {
        BotStats { nodes: 0 }
    }
}

impl Default for State {
    /// A stopped worker with the default budget and nothing counted.
    fn default() -> (s: Self)
        ensures
            s == (State { node_limit: DEFAULT_NODE_LIMIT, run: false, stats: BotStats { nodes: 0 } }),
    {
        State { node_limit: DEFAULT_NODE_LIMIT, run: false, stats: BotStats { nodes: 0 } }
    }
}

impl State {
    /// Whether there is work to do: the search runs and the budget is not
    /// used up.
    pub open spec fn spec_should_work(&self) -> bool {
        self.run && self.stats.nodes < self.node_limit
    }

    /// Whether there is work to do: the search runs and the budget is not
    /// used up.
    pub fn should_work(&self) -> (b: bool)
        ensures
            b == self.spec_should_work(),
    {
        self.run && self.stats.nodes < self.node_limit
    }

    /// Starts the search. It must not be running.
    pub fn start(&mut self)
        requires
            !old(self).run,
        ensures
            *final(self) == (State { run: true, ..*old(self) }),
    {
        self.run = true;
    }

    /// Stops the search. It must be running.
    pub fn stop(&mut self)
        requires
            old(self).run,
        ensures
            *final(self) == (State { run: false, ..*old(self) }),
    {
        self.run = false;
    }

    /// The statistics with `n` more nodes counted; the count stops at the
    /// largest number.
    pub open spec fn counted(self, n: int) -> State {
        State {
            stats: BotStats {
                nodes: if self.stats.nodes + n <= u64::MAX {
                    (self.stats.nodes + n) as u64
                } else {
                    u64::MAX
                },
            },
            ..self
        }
    }

    /// Counts `n` generated nodes.
    pub fn count(&mut self, n: usize)
        ensures
            *final(self) == old(self).counted(n as int),
    {
        let n: u64 = n as u64;
        self.stats.nodes = if self.stats.nodes <= u64::MAX - n {
            self.stats.nodes + n
        } else {
            u64::MAX
        };
    }

    /// Sets the statistics back to nothing counted.
    pub fn reset(&mut self)
        ensures
            *final(self) == (State { stats: BotStats { nodes: 0 }, ..*old(self) }),
    {
        self.stats = BotStats { nodes: 0 };
    }
}

/// The children that a unit of work installs at a leaf in state `s` whose
/// node is `parent`, given the placements `moves` that were enumerated: the
/// nodes of the placements, pruned.
pub open spec fn developed(moves: Seq<game::Move>, s: game::StateView, parent: Node) -> Seq<Node> {
    let nodes = children_of(moves, s, Mode::Norm);
    sort_desc(nodes).take(kept(lead(sort_desc(nodes), parent.eval.score), nodes.len() as int))
}

/// Develops the children of a selected leaf: generates them from the state
/// at the leaf and prunes them. Returns the children with the number of
/// nodes that were generated, or nothing when the queue at the leaf is too
/// short to look further ahead.
pub fn develop(state: &game::State, parent: &Node) -> (out: Option<(Vec<Node>, usize)>)
    requires
        state@.wf(),
    ensures
        out is None <==> state@.queue.len() <= MIN_LOOKAHEAD,
        out matches Some(got) ==> exists|moves: Seq<game::Move>|
            enumerates_state(moves, state@) && got.0@ == #[trigger] developed(moves, state@, *parent)
                && got.1 == children_of(moves, state@, Mode::Norm).len(),
{
    if state.queue_len() <= MIN_LOOKAHEAD {
        return None;
    }
    let nodes = gen_children(state);
    let generated: usize = nodes.len();
    let ghost made = nodes@;
    let children = prune_children(nodes, parent);
    proof {
        let moves = choose|moves: Seq<game::Move>|
            enumerates_state(moves, state@) && made == #[trigger] children_of(
                moves,
                state@,
                Mode::Norm,
            );
        assert(children@ == developed(moves, state@, *parent));
    }
    Some((children, generated))
}

/// What a unit of work leaves behind, given the walk `w` that its
/// selection made and the run state `before`: the arena `nodes` and the run
/// state `after`.
///
/// Without a leaf, or with a queue at the leaf that is too short, only the
/// walk has changed the arena. Otherwise the placements at the leaf were
/// enumerated, their nodes were counted, and the pruned nodes were installed
/// at the leaf, if the arena had room for them.
pub open spec fn worked(w: crate::tree::Walk, before: State, nodes: Seq<Node>, after: State) -> bool {
    if w.found is None || w.found.unwrap().1.queue.len() <= MIN_LOOKAHEAD {
        nodes == w.nodes && after == before
    } else {
        let path = w.found.unwrap().0;
        let s = w.found.unwrap().1;
        let parent = w.nodes[path.last() as int];
        exists|moves: Seq<game::Move>|
            {
                &&& enumerates_state(moves, s)
                &&& after == before.counted(children_of(moves, s, Mode::Norm).len() as int)
                &&& nodes == (if w.nodes.len() + (#[trigger] developed(moves, s, parent)).len()
                    <= usize::MAX {
                    Tree::installed(w.nodes, path, developed(moves, s, parent))
                } else {
                    w.nodes
                })
            }
    }
}

/// What `n` units of work leave behind of a tree `t0` and a run state `s0`:
/// the arena `nodes` and the run state `s`. Each unit is done while there is
/// work to do, on what the units before it have left.
pub open spec fn worked_for(
    t0: crate::tree::TreeView,
    s0: State,
    n: nat,
    nodes: Seq<Node>,
    s: State,
) -> bool
    decreases n,
{
    if n == 0 {
        nodes == t0.nodes && s == s0
    } else {
        exists|mid: Seq<Node>, sm: State|
            worked_for(t0, s0, (n - 1) as nat, mid, sm) && sm.spec_should_work() && #[trigger] worked(
                walk(mid, t0.root as int, Seq::empty(), t0.root_state),
                sm,
                nodes,
                s,
            )
    }
}

/// One more unit of work, done while there is work to do, on what `n` units
/// have left.
proof fn lemma_worked_next(
    t0: crate::tree::TreeView,
    s0: State,
    n: nat,
    mid: Seq<Node>,
    sm: State,
    nodes: Seq<Node>,
    s: State,
)
    requires
        worked_for(t0, s0, n, mid, sm),
        sm.spec_should_work(),
        worked(walk(mid, t0.root as int, Seq::empty(), t0.root_state), sm, nodes, s),
    ensures
        worked_for(t0, s0, n + 1, nodes, s),
{
    let m: nat = n + 1;
    assert((m - 1) as nat == n);
    assert(worked_for(t0, s0, (m - 1) as nat, mid, sm));
}

impl Worker {
    /// A stopped worker over an empty tree.
    pub fn new() -> (w: Self)
        ensures
            w.tree@.wf(),
            !w.state.run,
            w.state.node_limit == DEFAULT_NODE_LIMIT,
            w.state.stats.nodes == 0,
            w.tree@.nodes == seq![Node::spec_default()],
    {
        Worker { tree: Tree::default(), state: State::default() }
    }

    /// Starts the search. It must not be running.
    pub fn start(&mut self)
        requires
            !old(self).state.run,
        ensures
            final(self).state == (State { run: true, ..old(self).state }),
            final(self).tree@ == old(self).tree@,
    {
        self.state.start();
    }

    /// Stops the search. It must be running.
    pub fn stop(&mut self)
        requires
            old(self).state.run,
        ensures
            final(self).state == (State { run: false, ..old(self).state }),
            final(self).tree@ == old(self).tree@,
    {
        self.state.stop();
    }

    /// The best move found so far for the root. There must be one: the
    /// root must have children.
    pub fn solution(&self) -> (n: Node)
        requires
            self.tree@.nodes[self.tree@.root as int].child_count > 0,
        ensures
            n == self.tree@.nodes[crate::tree::top_child(
                self.tree@.nodes,
                self.tree@.root_lo(),
                self.tree@.root_hi(),
            )],
    {
        self.tree.solution()
    }

    /// Moves the worker on to `state`, the state that the game is in now:
    /// the tree is re-rooted or reset and the statistics start anew.
    /// Whether the search runs does not change.
    pub fn advance(&mut self, state: &game::State)
        requires
            state@.wf(),
        ensures
            final(self).tree@.wf(),
            final(self).tree@.root_state == state@,
            final(self).state == (State { stats: BotStats { nodes: 0 }, ..old(self).state }),
            match crate::tree::matching_child(
                old(self).tree@.nodes,
                old(self).tree@.root_state,
                state@,
                old(self).tree@.root_lo(),
                old(self).tree@.root_hi(),
            ) {
                Some(c) => {
                    &&& final(self).tree@.root == c
                    &&& final(self).tree@.nodes == old(self).tree@.nodes.update(
                        c,
                        Node { expanding: false, ..old(self).tree@.nodes[c] },
                    )
                    &&& final(self).tree@.epoch == old(self).tree@.epoch
                },
                None => {
                    &&& final(self).tree@.root == 0
                    &&& final(self).tree@.nodes == seq![Node::spec_default()]
                    &&& final(self).tree@.epoch == crate::tree::next_epoch(old(self).tree@.epoch)
                },
            },
    {
        self.tree.advance(state);
        self.state.reset();
    }

    /// One unit of work: selects a leaf, develops its children, counts the
    /// generated nodes, and installs the children.
    ///
    /// When selection finds no leaf, only the passes of the walk are
    /// counted in the tree. When the queue at the leaf is too short, the
    /// leaf stays claimed and nothing else happens.
    pub fn work(&mut self)
        ensures
            final(self).tree@.wf(),
            final(self).tree@.root == old(self).tree@.root,
            final(self).tree@.epoch == old(self).tree@.epoch,
            final(self).tree@.root_state == old(self).tree@.root_state,
            final(self).state.run == old(self).state.run,
            final(self).state.node_limit == old(self).state.node_limit,
            worked(
                walk(
                    old(self).tree@.nodes,
                    old(self).tree@.root as int,
                    Seq::empty(),
                    old(self).tree@.root_state,
                ),
                old(self).state,
                final(self).tree@.nodes,
                final(self).state,
            ),
    {
        let selection = match self.tree.select() {
            Some(sel) => sel,
            None => {
                return ;
            },
        };
        let ghost w = walk(
            old(self).tree@.nodes,
            old(self).tree@.root as int,
            Seq::empty(),
            old(self).tree@.root_state,
        );
        let ghost s = selection.state@;
        let ghost path = selection.list@;
        assert(w.found == Some((path, s)));
        let parent = selection.get_leaf(&self.tree);
        let (children, generated) = match develop(selection.get_state(), &parent) {
            Some(got) => got,
            None => {
                return ;
            },
        };
        let ghost made = children@;
        self.state.count(generated);
        let done = self.tree.install(&selection, children);
        proof {
            let moves = choose|moves: Seq<game::Move>|
                enumerates_state(moves, s) && made == #[trigger] developed(moves, s, parent)
                    && generated == children_of(moves, s, Mode::Norm).len();
            assert(parent == w.nodes[path.last() as int]);
            assert(developed(moves, s, w.nodes[path.last() as int]) == made);
            assert(done == (w.nodes.len() + made.len() <= usize::MAX));
            assert(s.queue.len() > MIN_LOOKAHEAD);
            assert(self.state == old(self).state.counted(
                children_of(moves, s, Mode::Norm).len() as int,
            ));
            assert(self.tree@.nodes == (if w.nodes.len() + developed(
                moves,
                s,
                w.nodes[path.last() as int],
            ).len() <= usize::MAX {
                Tree::installed(w.nodes, path, developed(moves, s, w.nodes[path.last() as int]))
            } else {
                w.nodes
            }));
        }
    }

    /// Does units of work while there is work to do, but `units` at most.
    /// Returns the number of units done.
    ///
    /// The tree and the run state are what that many units of work leave
    /// behind, each done while the search ran and the budget was not used
    /// up. Fewer than `units` are done only when there is no more work to
    /// do.
    pub fn work_for(&mut self, units: u32) -> (done: u32)
        ensures
            final(self).tree@.wf(),
            done <= units,
            done == units || !final(self).state.spec_should_work(),
            worked_for(
                old(self).tree@,
                old(self).state,
                done as nat,
                final(self).tree@.nodes,
                final(self).state,
            ),
            final(self).tree@.root == old(self).tree@.root,
            final(self).tree@.epoch == old(self).tree@.epoch,
            final(self).tree@.root_state == old(self).tree@.root_state,
            final(self).state.run == old(self).state.run,
            final(self).state.node_limit == old(self).state.node_limit,
    {
        let mut done: u32 = 0;
        proof {
            use_type_invariant(&self.tree);
        }
        while done < units && self.state.should_work()
            invariant
                done <= units,
                self.tree@.wf(),
                worked_for(old(self).tree@, old(self).state, done as nat, self.tree@.nodes, self.state),
                self.tree@.root == old(self).tree@.root,
                self.tree@.epoch == old(self).tree@.epoch,
                self.tree@.root_state == old(self).tree@.root_state,
                self.state.run == old(self).state.run,
                self.state.node_limit == old(self).state.node_limit,
            decreases units - done,
        {
            let ghost mid = self.tree@.nodes;
            let ghost sm = self.state;
            let ghost before = done as nat;
            assert(sm.spec_should_work());
            self.work();
            done += 1;
            proof {
                let t0 = old(self).tree@;
                let s0 = old(self).state;
                assert(worked_for(t0, s0, before, mid, sm));
                assert(worked(
                    walk(mid, t0.root as int, Seq::empty(), t0.root_state),
                    sm,
                    self.tree@.nodes,
                    self.state,
                ));
                lemma_worked_next(t0, s0, before, mid, sm, self.tree@.nodes, self.state);
                assert(worked_for(t0, s0, done as nat, self.tree@.nodes, self.state));
            }
        }
        done
    }
}

} // verus!
