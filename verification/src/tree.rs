//! The search tree: an arena of scored placements with selection,
//! expansion, pruning, back-propagation and re-rooting.
//!
//! Nodes live in one growing list and refer to each other by index. The
//! children of a node are appended together when the node is expanded, so
//! they lie side by side behind their parent. Nodes that re-rooting leaves
//! behind stay in the list until the tree is reset.
use vstd::prelude::*;

use crate::game::eval::{evaluate, spec_evaluate, Mode};
use crate::game::movegen::{enumerates_state, gen_moves};
use crate::game::{Move, Rotation, State, StateView};

verus! {

/// The evaluation of a node without children that could be scored: the
/// lowest score there is.
pub const LOWEST: i64 = i64::MIN;

/// A child is kept by pruning while five times its evaluation exceed the
/// evaluation of its parent.
pub const CUTOFF: i64 = 5;

/// Number of children that pruning keeps in any case.
pub const MIN_KEEP: usize = 20;

/// The evaluation of a node: the best score known for it.
#[derive(Clone, Copy, PartialEq, Eq, Debug, Structural)]
pub struct Evaluation {
    pub score: i64,
}

/// What an expansion reports to the nodes above it: the best score among
/// the new children.
#[derive(Clone, Copy, PartialEq, Eq, Debug, Structural)]
pub struct Backprop {
    pub score: i64,
}

/// A node of the search tree: the move that leads to it, its evaluation,
/// where its children lie in the arena, whether a worker has claimed it for
/// expansion, and how often selection has passed through it.
#[derive(Clone, Copy, PartialEq, Eq, Debug, Structural)]
pub struct Node {
    pub eval: Evaluation,
    pub mv: Move,
    pub first_child: usize,
    pub child_count: usize,
    pub expanding: bool,
    pub expansions: u32,
}

/// What selection finds at a node.
#[derive(Clone, Copy, PartialEq, Eq, Debug, Structural)]
pub enum SelectionResult {
    Continue(usize),
    Deadend,
    Leaf,
}

/// A leaf that selection has claimed: the path to it from the root, as
/// indices into the arena, and the state at the leaf.
pub struct Selection {
    pub list: Vec<usize>,
    pub state: State,
    pub epoch: u64,
}

/// The search tree: the state at the root, the arena of nodes, the index
/// of the root, and the number of times the tree has been reset.
///
/// Every tree is well formed: the fields are private and each operation
/// keeps them so.
pub struct Tree {
    root_state: State,
    nodes: Vec<Node>,
    root: usize,
    epoch: u64,
}

/// The mathematical content of a [`Tree`].
pub ghost struct TreeView {
    pub root_state: StateView,
    pub nodes: Seq<Node>,
    pub root: usize,
    pub epoch: u64,
}

impl View for Tree {
    type V = TreeView;

    closed spec fn view(&self) -> TreeView {
        TreeView {
            root_state: self.root_state@,
            nodes: self.nodes@,
            root: self.root,
            epoch: self.epoch,
        }
    }
}

impl TreeView {
    /// A tree is well formed when its root lies in the arena, the children
    /// of each node lie behind it, and the root state is well formed.
    pub open spec fn wf(self) -> bool {
        &&& self.root < self.nodes.len()
        &&& linked(self.nodes)
        &&& self.root_state.wf()
    }

    /// Where the children of the root begin.
    pub open spec fn root_lo(self) -> int {
        self.nodes[self.root as int].first_child as int
    }

    /// Where the children of the root end.
    pub open spec fn root_hi(self) -> int {
        self.nodes[self.root as int].first_child + self.nodes[self.root as int].child_count
    }

    /// Whether a selection belongs to the tree as it stands: it was made
    /// since the tree was last reset, and its path is not empty and lies in
    /// the arena.
    pub open spec fn accepts(self, sel: &Selection) -> bool {
        &&& sel.epoch == self.epoch
        &&& sel.list@.len() > 0
        &&& forall|k: int| 0 <= k < sel.list@.len() ==> #[trigger] sel.list@[k] < self.nodes.len()
    }
}

impl Evaluation {
    /// The evaluation of a node that has just been scored.
    pub fn new(score: i64) -> (e: Self)
        ensures
            e.score == score,
    {
        Evaluation { score }
    }

    /// Takes a reported score into the evaluation: the better of the two
    /// stays.
    pub fn apply(&mut self, backprop: &Backprop)
        ensures
            final(self).score == if old(self).score >= backprop.score {
                old(self).score
            } else {
                backprop.score
            },
    {
        if backprop.score > self.score {
            self.score = backprop.score;
        }
    }

    /// The score.
    pub fn get(&self) -> (s: i64)
        ensures
            s == self.score,
    {
        self.score
    }
}

impl Backprop {
    /// Takes the reported score into the evaluation of `node`.
    pub fn apply_to(&self, node: &mut Node)
        ensures
            *final(node) == (Node { eval: Evaluation { score: better(old(node).eval.score, self.score) }, ..*old(node) }),
    {
        node.eval.apply(self);
    }
}

/// The better of two scores.
pub open spec fn better(a: i64, b: i64) -> i64 {
    if a >= b {
        a
    } else {
        b
    }
}

impl Default for Node {
    /// A node without children, with the default move and a score of zero.
    fn default() -> (n: Self)
        ensures
            n == Node::spec_default(),
    {
        Node {
            eval: Evaluation { score: 0 },
            mv: Move { x: 0, y: 0, r: Rotation::N, list: 0 },
            first_child: 0,
            child_count: 0,
            expanding: false,
            expansions: 0,
        }
    }
}

impl Node {
    /// A node without children, with the default move and a score of zero.
    pub open spec fn spec_default() -> Node {
        Node {
            eval: Evaluation { score: 0 },
            mv: Move { x: 0, y: 0, r: Rotation::N, list: 0 },
            first_child: 0,
            child_count: 0,
            expanding: false,
            expansions: 0,
        }
    }

    /// The node as a leaf that nobody has claimed.
    pub open spec fn as_leaf(self) -> Node {
        Node { first_child: 0, child_count: 0, expanding: false, ..self }
    }

    /// The move that leads to the node.
    pub fn get_mv(&self) -> (m: &Move)
        ensures
            *m == self.mv,
    {
        &self.mv
    }
}

/// Whether the children of each node lie behind it in the arena.
pub open spec fn linked(nodes: Seq<Node>) -> bool {
    forall|i: int|
        0 <= i < nodes.len() && (#[trigger] nodes[i]).child_count > 0 ==> i < nodes[i].first_child
            && nodes[i].first_child + nodes[i].child_count <= nodes.len()
}

/// The child that selection continues into among the children `lo..hi`:
/// of those that nobody is expanding, the one that selection has passed
/// through least often, and of several such the first.
pub open spec fn best_child(nodes: Seq<Node>, lo: int, hi: int) -> Option<int>
    decreases hi - lo,
{
    if hi <= lo {
        None
    } else {
        let before = best_child(nodes, lo, hi - 1);
        if nodes[hi - 1].expanding {
            before
        } else {
            match before {
                None => Some(hi - 1),
                Some(b) => if nodes[hi - 1].expansions < nodes[b].expansions {
                    Some(hi - 1)
                } else {
                    Some(b)
                },
            }
        }
    }
}

/// A pass of selection through a node counts once; the count stops at the
/// largest number.
pub open spec fn bumped(n: Node) -> Node {
    Node {
        expansions: if n.expansions < u32::MAX {
            (n.expansions + 1) as u32
        } else {
            n.expansions
        },
        ..n
    }
}

/// What selection finds at node `i`.
pub open spec fn spec_step(nodes: Seq<Node>, i: int) -> SelectionResult {
    if nodes[i].expanding {
        SelectionResult::Deadend
    } else if nodes[i].child_count == 0 {
        SelectionResult::Leaf
    } else {
        match best_child(
            nodes,
            nodes[i].first_child as int,
            nodes[i].first_child + nodes[i].child_count,
        ) {
            Some(c) => SelectionResult::Continue(c as usize),
            None => SelectionResult::Deadend,
        }
    }
}

/// The outcome of a walk of selection: the arena afterwards, and the path
/// and the state of the leaf that was claimed, if one was.
pub struct Walk {
    pub nodes: Seq<Node>,
    pub found: Option<(Seq<usize>, StateView)>,
}

/// The walk of selection from node `i`, reached by `path` in state `s`.
///
/// At a node that is being expanded the walk ends without a leaf. A node
/// without children is the leaf: it is claimed. At any other node the walk
/// goes on into the best child and the pass is counted, unless every child
/// is being expanded or the move of the child cannot be applied to the
/// state, which ends the walk without a leaf.
pub open spec fn walk(nodes: Seq<Node>, i: int, path: Seq<usize>, s: StateView) -> Walk
    decreases nodes.len() - i,
{
    if !(0 <= i < nodes.len()) {
        Walk { nodes, found: None }
    } else {
        match spec_step(nodes, i) {
            SelectionResult::Deadend => Walk { nodes, found: None },
            SelectionResult::Leaf => Walk {
                nodes: nodes.update(i, Node { expanding: true, ..nodes[i] }),
                found: Some((path.push(i as usize), s)),
            },
            SelectionResult::Continue(c) => {
                let counted = nodes.update(i, bumped(nodes[i]));
                if c <= i || c >= nodes.len() || !s.can_apply(nodes[c as int].mv) {
                    Walk { nodes: counted, found: None }
                } else {
                    walk(counted, c as int, path.push(i as usize), s.apply(nodes[c as int].mv))
                }
            },
        }
    }
}

impl Tree {
    /// What holds of every tree.
    #[verifier::type_invariant]
    pub open spec fn inv(&self) -> bool {
        self@.wf()
    }

    /// Number of nodes in the arena.
    pub fn len(&self) -> (n: usize)
        ensures
            n == self@.nodes.len(),
            self@.wf(),
    {
        proof {
            use_type_invariant(self);
        }
        self.nodes.len()
    }

    /// The node at index `i` of the arena.
    pub fn node(&self, i: usize) -> (n: Node)
        requires
            i < self@.nodes.len(),
        ensures
            n == self@.nodes[i as int],
    {
        self.nodes[i]
    }

    /// The nodes of the arena.
    pub fn nodes(&self) -> (v: &Vec<Node>)
        ensures
            v@ == self@.nodes,
    {
        &self.nodes
    }

    /// The index of the root.
    pub fn root(&self) -> (r: usize)
        ensures
            r == self@.root,
            r < self@.nodes.len(),
    {
        proof {
            use_type_invariant(self);
        }
        self.root
    }

    /// The number of times the tree has been reset.
    pub fn epoch(&self) -> (e: u64)
        ensures
            e == self@.epoch,
    {
        self.epoch
    }

    /// The state at the root.
    pub fn root_state(&self) -> (s: &State)
        ensures
            s@ == self@.root_state,
            s@.wf(),
    {
        proof {
            use_type_invariant(self);
        }
        &self.root_state
    }

    /// Puts a tree together from its parts, if they make a well-formed
    /// tree.
    pub fn from_parts(root_state: State, nodes: Vec<Node>, root: usize, epoch: u64) -> (out: Option<
        Tree,
    >)
        ensures
            out is Some <==> (TreeView { root_state: root_state@, nodes: nodes@, root, epoch }).wf(),
            out matches Some(t) ==> t@ == (TreeView {
                root_state: root_state@,
                nodes: nodes@,
                root,
                epoch,
            }),
    {
        if root >= nodes.len() || !root_state.is_valid() {
            return None;
        }
        let mut i: usize = 0;
        while i < nodes.len()
            invariant
                i <= nodes@.len(),
                forall|k: int|
                    0 <= k < i && (#[trigger] nodes@[k]).child_count > 0 ==> k < nodes@[k].first_child
                        && nodes@[k].first_child + nodes@[k].child_count <= nodes@.len(),
            decreases nodes@.len() - i,
        {
            let n = nodes[i];
            if n.child_count > 0 && (n.first_child <= i || n.first_child > nodes.len()
                || n.child_count > nodes.len() - n.first_child) {
                return None;
            }
            i += 1;
        }
        Some(Tree { root_state, nodes, root, epoch })
    }

    /// What selection finds at node `i`: a dead end when the node is being
    /// expanded or all of its children are, a leaf when it has no children,
    /// and else the child to continue into.
    pub fn step(&self, i: usize) -> (r: SelectionResult)
        requires
            i < self@.nodes.len(),
        ensures
            r == spec_step(self@.nodes, i as int),
            r matches SelectionResult::Continue(c) ==> i < c < self@.nodes.len(),
    {
        proof {
            use_type_invariant(self);
        }
        step_in(&self.nodes, i)
    }

    /// Selects a leaf to expand and claims it.
    ///
    /// The walk starts at the root and follows, at each node, the child
    /// that selection has passed through least often among those that
    /// nobody is expanding. It returns the path to the leaf and the state
    /// that the moves along the path lead to from the root state. When the
    /// walk meets a node that is being expanded, or only such children,
    /// there is nothing to select for now.
    pub fn select(&mut self) -> (out: Option<Selection>)
        ensures
            old(self)@.wf(),
            final(self)@.wf(),
            final(self)@ == (TreeView {
                nodes: walk(
                    old(self)@.nodes,
                    old(self)@.root as int,
                    Seq::empty(),
                    old(self)@.root_state,
                ).nodes,
                ..old(self)@
            }),
            final(self)@.nodes.len() == old(self)@.nodes.len(),
            match out {
                Some(sel) => walk(
                    old(self)@.nodes,
                    old(self)@.root as int,
                    Seq::empty(),
                    old(self)@.root_state,
                ).found == Some((sel.list@, sel.state@)) && final(self)@.accepts(&sel)
                    && sel.state@.wf(),
                None => walk(
                    old(self)@.nodes,
                    old(self)@.root as int,
                    Seq::empty(),
                    old(self)@.root_state,
                ).found is None,
            },
    {
        proof {
            use_type_invariant(&*self);
        }
        let mut taken = Tree::default();
        core::mem::swap(self, &mut taken);
        let Tree { root_state, nodes, root, epoch } = taken;
        let mut nodes = nodes;
        let out = select_in(&mut nodes, root, &root_state, epoch);
        *self = Tree { root_state, nodes, root, epoch };
        out
    }
}

/// What selection finds at node `i` of an arena.
fn step_in(nodes: &Vec<Node>, i: usize) -> (r: SelectionResult)
    requires
        linked(nodes@),
        i < nodes@.len(),
    ensures
        r == spec_step(nodes@, i as int),
        r matches SelectionResult::Continue(c) ==> i < c < nodes@.len(),
{
    let node = nodes[i];
    if node.expanding {
        SelectionResult::Deadend
    } else if node.child_count == 0 {
        SelectionResult::Leaf
    } else {
        assert(nodes@[i as int].child_count > 0);
        assert(nodes@.len() == nodes.len());
        let lo = node.first_child;
        let hi = node.first_child + node.child_count;
        let mut best: Option<usize> = None;
        let mut c: usize = lo;
        while c < hi
            invariant
                lo <= c <= hi <= nodes@.len(),
                i < lo,
                best matches Some(b) ==> lo <= b < c,
                match best {
                    Some(b) => best_child(nodes@, lo as int, c as int) == Some(b as int),
                    None => best_child(nodes@, lo as int, c as int) is None,
                },
            decreases hi - c,
        {
            if !nodes[c].expanding {
                match best {
                    None => {
                        best = Some(c);
                    },
                    Some(b) => {
                        if nodes[c].expansions < nodes[b].expansions {
                            best = Some(c);
                        }
                    },
                }
            }
            c += 1;
        }
        match best {
            Some(b) => SelectionResult::Continue(b),
            None => SelectionResult::Deadend,
        }
    }
}

/// The walk of selection through an arena, from `root` in `root_state`.
fn select_in(nodes: &mut Vec<Node>, root: usize, root_state: &State, epoch: u64) -> (out: Option<
    Selection,
>)
    requires
        linked(old(nodes)@),
        root < old(nodes)@.len(),
        root_state@.wf(),
    ensures
        linked(final(nodes)@),
        final(nodes)@.len() == old(nodes)@.len(),
        final(nodes)@ == walk(old(nodes)@, root as int, Seq::empty(), root_state@).nodes,
        match out {
            Some(sel) => {
                &&& walk(old(nodes)@, root as int, Seq::empty(), root_state@).found == Some(
                    (sel.list@, sel.state@),
                )
                &&& sel.epoch == epoch
                &&& sel.list@.len() > 0
                &&& forall|k: int|
                    0 <= k < sel.list@.len() ==> #[trigger] sel.list@[k] < final(nodes)@.len()
                &&& sel.state@.wf()
            },
            None => walk(old(nodes)@, root as int, Seq::empty(), root_state@).found is None,
        },
{
    let mut list: Vec<usize> = Vec::new();
    let mut state = root_state.clone();
    let mut i: usize = root;
    loop
        invariant
            linked(nodes@),
            i < nodes@.len(),
            nodes@.len() == old(nodes)@.len(),
            state@.wf(),
            forall|k: int| 0 <= k < list@.len() ==> #[trigger] list@[k] < nodes@.len(),
            walk(old(nodes)@, root as int, Seq::empty(), root_state@) == walk(
                nodes@,
                i as int,
                list@,
                state@,
            ),
        decreases nodes@.len() - i,
    {
        match step_in(nodes, i) {
            SelectionResult::Continue(c) => {
                let node = nodes[i];
                let ghost before = nodes@;
                let count: u32 = if node.expansions < u32::MAX {
                    node.expansions + 1
                } else {
                    node.expansions
                };
                nodes[i].expansions = count;
                proof {
                    lemma_linked_update(before, i as int, bumped(before[i as int]));
                    assert(nodes@ =~= before.update(i as int, bumped(before[i as int])));
                }
                let mv = nodes[c].mv;
                if !state.can_apply(&mv) {
                    return None;
                }
                state = state.apply_move(&mv);
                list.push(i);
                i = c;
            },
            SelectionResult::Leaf => {
                let ghost before = nodes@;
                nodes[i].expanding = true;
                proof {
                    lemma_linked_update(
                        before,
                        i as int,
                        Node { expanding: true, ..before[i as int] },
                    );
                    assert(nodes@ =~= before.update(
                        i as int,
                        Node { expanding: true, ..before[i as int] },
                    ));
                }
                list.push(i);
                return Some(Selection { list, state, epoch });
            },
            SelectionResult::Deadend => {
                return None;
            },
        }
    }
}

/// The children of each node still lie behind it when a node is replaced
/// by a node with the same children.
pub proof fn lemma_linked_update(nodes: Seq<Node>, i: int, n: Node)
    requires
        linked(nodes),
        0 <= i < nodes.len(),
        n.first_child == nodes[i].first_child,
        n.child_count == nodes[i].child_count,
    ensures
        linked(nodes.update(i, n)),
{
    let after = nodes.update(i, n);
    assert forall|k: int| 0 <= k < after.len() && (#[trigger] after[k]).child_count > 0 implies k
        < after[k].first_child && after[k].first_child + after[k].child_count <= after.len() by {
        assert(nodes[k].child_count > 0);
    }
}

/// The best score among nodes, or `LOWEST` when there is none.
pub open spec fn max_eval(nodes: Seq<Node>) -> i64
    decreases nodes.len(),
{
    if nodes.len() == 0 {
        LOWEST
    } else {
        better(max_eval(nodes.drop_last()), nodes.last().eval.score)
    }
}

/// The nodes as leaves that nobody has claimed.
pub open spec fn as_leaves(nodes: Seq<Node>) -> Seq<Node> {
    nodes.map_values(|n: Node| n.as_leaf())
}

/// The arena after the node `leaf` has been expanded with `children`: the
/// children stand at the end of the arena, as leaves, and the node points to
/// them, is no longer claimed and has the best of their scores.
pub open spec fn expanded(nodes: Seq<Node>, leaf: int, children: Seq<Node>) -> Seq<Node> {
    nodes.update(
        leaf,
        Node {
            eval: Evaluation { score: max_eval(children) },
            first_child: nodes.len() as usize,
            child_count: children.len() as usize,
            expanding: false,
            ..nodes[leaf]
        },
    ) + as_leaves(children)
}

/// Whether position `k` of a path of `len` nodes takes part in
/// back-propagation: every node of the path does but the root, which is
/// first, and the expanded leaf, which is last.
pub open spec fn inner(k: int, len: int) -> bool {
    0 < k < len - 1
}

/// The arena after `score` has been propagated into the nodes at the first
/// `upto` positions of `path`.
pub open spec fn propagated(nodes: Seq<Node>, path: Seq<usize>, score: i64, upto: int) -> Seq<Node>
    decreases upto,
{
    if upto <= 0 {
        nodes
    } else {
        let before = propagated(nodes, path, score, upto - 1);
        let i = path[upto - 1] as int;
        if inner(upto - 1, path.len() as int) && 0 <= i < before.len() {
            before.update(
                i,
                Node { eval: Evaluation { score: better(before[i].eval.score, score) }, ..before[i] },
            )
        } else {
            before
        }
    }
}

impl Node {
    /// Installs children that stand in the arena from `first_child` on:
    /// the node points to them, is no longer claimed and takes the best of
    /// their scores, which it reports.
    pub fn expand(&mut self, first_child: usize, children: &Vec<Node>) -> (backprop: Backprop)
        ensures
            backprop.score == max_eval(children@),
            *final(self) == (Node {
                eval: Evaluation { score: max_eval(children@) },
                first_child,
                child_count: children@.len() as usize,
                expanding: false,
                ..*old(self)
            }),
    {
        let mut best: i64 = LOWEST;
        let mut i: usize = 0;
        while i < children.len()
            invariant
                i <= children@.len(),
                best == max_eval(children@.take(i as int)),
            decreases children@.len() - i,
        {
            assert(children@.take(i + 1).drop_last() =~= children@.take(i as int));
            if children[i].eval.score > best {
                best = children[i].eval.score;
            }
            i += 1;
        }
        assert(children@.take(children@.len() as int) =~= children@);
        self.eval = Evaluation { score: best };
        self.first_child = first_child;
        self.child_count = children.len();
        self.expanding = false;
        Backprop { score: best }
    }
}

impl Selection {
    /// A selection of the leaf at the end of `list`, in `state`, made in
    /// the given epoch of the tree.
    pub fn new(list: Vec<usize>, state: State, epoch: u64) -> (sel: Self)
        ensures
            sel.list == list,
            sel.state == state,
            sel.epoch == epoch,
    {
        Selection { list, state, epoch }
    }

    /// The state at the selected leaf.
    pub fn get_state(&self) -> (s: &State)
        ensures
            *s == self.state,
    {
        &self.state
    }

    /// The index of the selected leaf.
    pub open spec fn leaf(&self) -> int {
        self.list@.last() as int
    }

    /// The selected leaf.
    pub fn get_leaf(&self, tree: &Tree) -> (n: Node)
        requires
            tree@.accepts(self),
        ensures
            n == tree@.nodes[self.leaf()],
    {
        tree.nodes[self.list[self.list.len() - 1]]
    }

    /// Installs `children` as the children of the selected leaf and
    /// releases the claim on it. The leaf takes the best score among the
    /// children, or `LOWEST` when there are none, and that score is
    /// reported.
    pub fn expand(&self, tree: &mut Tree, children: Vec<Node>) -> (backprop: Backprop)
        requires
            old(tree)@.accepts(self),
            old(tree)@.nodes.len() + children@.len() <= usize::MAX,
        ensures
            final(tree)@.wf(),
            final(tree)@.accepts(self),
            final(tree)@ == (TreeView {
                nodes: expanded(old(tree)@.nodes, self.leaf(), children@),
                ..old(tree)@
            }),
            backprop.score == max_eval(children@),
    {
        proof {
            use_type_invariant(&*tree);
        }
        let leaf: usize = self.list[self.list.len() - 1];
        let mut taken = Tree::default();
        core::mem::swap(tree, &mut taken);
        let Tree { root_state, nodes, root, epoch } = taken;
        let mut nodes = nodes;
        let backprop = expand_in(&mut nodes, leaf, children);
        *tree = Tree { root_state, nodes, root, epoch };
        backprop
    }

    /// Propagates the reported score up the path of the selection: every
    /// node between the root and the expanded leaf keeps the better of its
    /// score and the reported one.
    pub fn backprop(&self, tree: &mut Tree, backprop: Backprop)
        requires
            old(tree)@.accepts(self),
        ensures
            final(tree)@.wf(),
            final(tree)@.accepts(self),
            final(tree)@ == (TreeView {
                nodes: propagated(
                    old(tree)@.nodes,
                    self.list@,
                    backprop.score,
                    self.list@.len() as int,
                ),
                ..old(tree)@
            }),
    {
        proof {
            use_type_invariant(&*tree);
        }
        let mut taken = Tree::default();
        core::mem::swap(tree, &mut taken);
        let Tree { root_state, nodes, root, epoch } = taken;
        let mut nodes = nodes;
        backprop_in(&mut nodes, &self.list, backprop);
        *tree = Tree { root_state, nodes, root, epoch };
    }
}

/// Appends `children` to an arena as leaves and makes the node `leaf`
/// their parent.
fn expand_in(nodes: &mut Vec<Node>, leaf: usize, children: Vec<Node>) -> (backprop: Backprop)
    requires
        linked(old(nodes)@),
        leaf < old(nodes)@.len(),
        old(nodes)@.len() + children@.len() <= usize::MAX,
    ensures
        linked(final(nodes)@),
        final(nodes)@ == expanded(old(nodes)@, leaf as int, children@),
        final(nodes)@.len() >= old(nodes)@.len(),
        backprop.score == max_eval(children@),
{
    let first: usize = nodes.len();
    let ghost before = nodes@;
    let mut i: usize = 0;
    while i < children.len()
        invariant
            i <= children@.len(),
            first == before.len(),
            before.len() + children@.len() <= usize::MAX,
            nodes@ == before + as_leaves(children@.take(i as int)),
        decreases children@.len() - i,
    {
        let c = children[i];
        nodes.push(
            Node {
                eval: c.eval,
                mv: c.mv,
                first_child: 0,
                child_count: 0,
                expanding: false,
                expansions: c.expansions,
            },
        );
        i += 1;
        assert(nodes@ =~= before + as_leaves(children@.take(i as int)));
    }
    let mut node = nodes[leaf];
    let backprop = node.expand(first, &children);
    nodes[leaf] = node;
    proof {
        assert(children@.take(children@.len() as int) =~= children@);
        let after = nodes@;
        assert(after =~= expanded(before, leaf as int, children@));
        assert forall|k: int| 0 <= k < after.len() && (#[trigger] after[k]).child_count > 0 implies k
            < after[k].first_child && after[k].first_child + after[k].child_count <= after.len() by {
            if k < before.len() && k != leaf {
                assert(after[k] == before[k]);
            }
        }
    }
    backprop
}

/// Propagates a reported score up a path through an arena.
fn backprop_in(nodes: &mut Vec<Node>, path: &Vec<usize>, backprop: Backprop)
    requires
        linked(old(nodes)@),
        forall|k: int| 0 <= k < path@.len() ==> #[trigger] path@[k] < old(nodes)@.len(),
    ensures
        linked(final(nodes)@),
        final(nodes)@.len() == old(nodes)@.len(),
        final(nodes)@ == propagated(old(nodes)@, path@, backprop.score, path@.len() as int),
{
    let n: usize = path.len();
    let mut k: usize = 0;
    while k < n
        invariant
            k <= n,
            n == path@.len(),
            linked(nodes@),
            nodes@.len() == old(nodes)@.len(),
            forall|j: int| 0 <= j < path@.len() ==> #[trigger] path@[j] < nodes@.len(),
            nodes@ == propagated(old(nodes)@, path@, backprop.score, k as int),
        decreases n - k,
    {
        if 0 < k && k < n - 1 {
            let i: usize = path[k];
            let ghost before = nodes@;
            let mut node = nodes[i];
            backprop.apply_to(&mut node);
            nodes[i] = node;
            proof {
                lemma_linked_update(before, i as int, node);
                assert(nodes@ =~= before.update(
                    i as int,
                    Node {
                        eval: Evaluation { score: better(before[i as int].eval.score, backprop.score) },
                        ..before[i as int]
                    },
                ));
            }
        }
        k += 1;
    }
}

/// Back-propagation never lowers a score, and no node that takes part in
/// it ends up below the propagated score.
pub proof fn lemma_backprop_monotone(nodes: Seq<Node>, path: Seq<usize>, score: i64, upto: int)
    requires
        0 <= upto <= path.len(),
    ensures
        propagated(nodes, path, score, upto).len() == nodes.len(),
        forall|i: int|
            0 <= i < nodes.len() ==> (#[trigger] propagated(nodes, path, score, upto)[i]).eval.score
                >= nodes[i].eval.score,
        forall|k: int|
            0 <= k < upto && inner(k, path.len() as int) && path[k] < nodes.len() ==> propagated(
                nodes,
                path,
                score,
                upto,
            )[#[trigger] path[k] as int].eval.score >= score,
        forall|i: int|
            0 <= i < nodes.len() ==> (#[trigger] propagated(nodes, path, score, upto)[i]) == (Node {
                eval: propagated(nodes, path, score, upto)[i].eval,
                ..nodes[i]
            }),
    decreases upto,
{
    if upto > 0 {
        lemma_backprop_monotone(nodes, path, score, upto - 1);
    }
}

impl State {
    /// The node that `mov` leads to from this state: a leaf with the move
    /// and the evaluation of the state after the move.
    pub open spec fn spec_make_node(s: StateView, mov: Move, eval_mode: Mode) -> Node {
        Node {
            eval: Evaluation { score: spec_evaluate(s.apply(mov), s.stats(mov), eval_mode) as i64 },
            mv: mov,
            first_child: 0,
            child_count: 0,
            expanding: false,
            expansions: 0,
        }
    }

    /// Applies `mov`, evaluates the state it leads to and makes a node of
    /// the move and the evaluation.
    pub fn make_node(self, mov: Move, eval_mode: Mode) -> (n: Node)
        requires
            self@.wf(),
            self@.can_apply(mov),
        ensures
            n == State::spec_make_node(self@, mov, eval_mode),
    {
        let (state, stats) = self.apply_move_with_stats(&mov);
        let score = evaluate(&state, stats, eval_mode);
        Node {
            eval: Evaluation { score },
            mv: mov,
            first_child: 0,
            child_count: 0,
            expanding: false,
            expansions: 0,
        }
    }
}

/// The nodes of those of `moves` that can be applied to the state `s`, in
/// the order of the moves.
pub open spec fn children_of(moves: Seq<Move>, s: StateView, mode: Mode) -> Seq<Node>
    decreases moves.len(),
{
    if moves.len() == 0 {
        Seq::empty()
    } else if s.can_apply(moves.last()) {
        children_of(moves.drop_last(), s, mode).push(State::spec_make_node(s, moves.last(), mode))
    } else {
        children_of(moves.drop_last(), s, mode)
    }
}

/// The children of a leaf in `state`: one node for each enumerated
/// placement that lies within the twenty rows of the board, scored in
/// normal mode.
pub fn gen_children(state: &State) -> (out: Vec<Node>)
    requires
        state@.wf(),
        state@.queue.len() > 0,
    ensures
        exists|moves: Seq<Move>|
            enumerates_state(moves, state@) && out@ == #[trigger] children_of(
                moves,
                state@,
                Mode::Norm,
            ),
        forall|k: int| 0 <= k < out@.len() ==> #[trigger] out@[k] == out@[k].as_leaf(),
{
    let moves = gen_moves(state);
    let mut out: Vec<Node> = Vec::new();
    let mut i: usize = 0;
    while i < moves.len()
        invariant
            i <= moves@.len(),
            state@.wf(),
            out@ == children_of(moves@.take(i as int), state@, Mode::Norm),
            forall|k: int| 0 <= k < out@.len() ==> #[trigger] out@[k] == out@[k].as_leaf(),
        decreases moves@.len() - i,
    {
        assert(moves@.take(i + 1).drop_last() =~= moves@.take(i as int));
        let mov = moves[i];
        if state.can_apply(&mov) {
            out.push(state.clone().make_node(mov, Mode::Norm));
        }
        i += 1;
    }
    assert(moves@.take(moves@.len() as int) =~= moves@);
    out
}

/// `s`, sorted by falling score, with `n` put in behind every node that
/// scores as much as it does or more.
pub open spec fn insert_desc(s: Seq<Node>, n: Node) -> Seq<Node>
    decreases s.len(),
{
    if s.len() == 0 {
        seq![n]
    } else if s.last().eval.score >= n.eval.score {
        s.push(n)
    } else {
        insert_desc(s.drop_last(), n).push(s.last())
    }
}

/// The nodes sorted by falling score; nodes with the same score keep their
/// order.
pub open spec fn sort_desc(s: Seq<Node>) -> Seq<Node>
    decreases s.len(),
{
    if s.len() == 0 {
        s
    } else {
        insert_desc(sort_desc(s.drop_last()), s.last())
    }
}

/// Number of nodes at the head of `s` that are worth keeping beside a
/// parent that scores `parent`: `CUTOFF` times their score exceeds it.
pub open spec fn lead(s: Seq<Node>, parent: i64) -> int
    decreases s.len(),
{
    if s.len() == 0 || !(CUTOFF * s[0].eval.score > parent) {
        0
    } else {
        1 + lead(s.drop_first(), parent)
    }
}

/// Number of children that pruning keeps of `n` sorted children of which
/// the first `lead` are worth keeping: those, but `MIN_KEEP` at least, and
/// no more than there are.
pub open spec fn kept(lead: int, n: int) -> int {
    let want = if lead >= MIN_KEEP {
        lead
    } else {
        MIN_KEEP as int
    };
    if want <= n {
        want
    } else {
        n
    }
}

/// Whether the scores of a sequence of nodes never rise.
pub open spec fn falling(s: Seq<Node>) -> bool {
    forall|i: int, j: int| 0 <= i <= j < s.len() ==> s[i].eval.score >= s[j].eval.score
}

/// Putting a node into a sequence with falling scores gives a sequence
/// with falling scores that holds the node and what the sequence held.
proof fn lemma_insert_desc(s: Seq<Node>, n: Node)
    requires
        falling(s),
    ensures
        falling(insert_desc(s, n)),
        insert_desc(s, n).len() == s.len() + 1,
        insert_desc(s, n).to_multiset() == s.to_multiset().insert(n),
        forall|k: int|
            0 <= k < insert_desc(s, n).len() ==> #[trigger] insert_desc(s, n)[k] == n || s.contains(
                insert_desc(s, n)[k],
            ),
    decreases s.len(),
{
    broadcast use vstd::seq_lib::to_multiset_build;

    if s.len() > 0 && s.last().eval.score < n.eval.score {
        let head = s.drop_last();
        lemma_insert_desc(head, n);
        let put = insert_desc(head, n);
        assert(s =~= head.push(s.last()));
        assert(put.push(s.last()).to_multiset() =~= s.to_multiset().insert(n));
        assert forall|i: int, j: int| 0 <= i <= j < put.len() + 1 implies put.push(s.last())[i].eval.score
            >= put.push(s.last())[j].eval.score by {
            if j == put.len() && i < put.len() {
                if put[i] != n {
                    assert(head.contains(put[i]));
                    let a = choose|a: int| 0 <= a < head.len() && head[a] == put[i];
                    assert(s[a] == head[a]);
                    assert(s[a].eval.score >= s[s.len() - 1].eval.score);
                }
            }
        }
        assert forall|k: int| 0 <= k < put.len() + 1 implies #[trigger] put.push(s.last())[k] == n
            || s.contains(put.push(s.last())[k]) by {
            if k < put.len() {
                if put[k] != n {
                    let a = choose|a: int| 0 <= a < head.len() && head[a] == put[k];
                    assert(s[a] == put[k]);
                }
            } else {
                assert(s[s.len() - 1] == s.last());
            }
        }
    } else if s.len() > 0 {
        assert forall|k: int| 0 <= k < s.len() + 1 implies #[trigger] s.push(n)[k] == n || s.contains(
            s.push(n)[k],
        ) by {
            if k < s.len() {
                assert(s[k] == s.push(n)[k]);
            }
        }
    } else {
        assert(seq![n] =~= s.push(n));
    }
}

/// Sorting gives a sequence with falling scores that holds the same nodes,
/// each as often as before.
pub proof fn lemma_sort_desc(s: Seq<Node>)
    ensures
        falling(sort_desc(s)),
        sort_desc(s).len() == s.len(),
        sort_desc(s).to_multiset() == s.to_multiset(),
    decreases s.len(),
{
    broadcast use vstd::seq_lib::to_multiset_build;

    if s.len() > 0 {
        lemma_sort_desc(s.drop_last());
        lemma_insert_desc(sort_desc(s.drop_last()), s.last());
        assert(s =~= s.drop_last().push(s.last()));
    }
}

/// Sorts nodes by falling score. Nodes with the same score keep their
/// order.
pub fn sort_nodes(nodes: &mut Vec<Node>)
    ensures
        final(nodes)@ == sort_desc(old(nodes)@),
        final(nodes)@.len() == old(nodes)@.len(),
{
    let ghost orig = nodes@;
    let n: usize = nodes.len();
    let mut i: usize = 0;
    while i < n
        invariant
            i <= n,
            n == nodes@.len(),
            n == orig.len(),
            nodes@.take(i as int) == sort_desc(orig.take(i as int)),
            nodes@.skip(i as int) == orig.skip(i as int),
        decreases n - i,
    {
        let x = nodes[i];
        let ghost sorted = nodes@.take(i as int);
        let ghost rest = nodes@.skip(i + 1);
        assert(x == orig[i as int]) by {
            assert(nodes@.skip(i as int)[0] == orig.skip(i as int)[0]);
        }
        let mut j: usize = i;
        proof {
            assert(sorted.take(i as int) =~= sorted);
            assert(sorted.skip(i as int) =~= Seq::<Node>::empty());
            assert(insert_desc(sorted, x) + Seq::<Node>::empty() =~= insert_desc(sorted, x));
            assert(nodes@.subrange(i + 1, i + 1) =~= Seq::<Node>::empty());
        }
        while j > 0 && nodes[j - 1].eval.score < x.eval.score
            invariant
                j <= i < n,
                n == nodes@.len(),
                sorted.len() == i,
                nodes@.take(j as int) == sorted.take(j as int),
                nodes@.subrange(j + 1, i + 1) == sorted.skip(j as int),
                nodes@.skip(i + 1) == rest,
                insert_desc(sorted, x) == insert_desc(sorted.take(j as int), x) + sorted.skip(j as int),
            decreases j,
        {
            let ghost before = nodes@;
            let y = nodes[j - 1];
            nodes[j] = y;
            proof {
                assert(y == sorted[j - 1]) by {
                    assert(before.take(j as int)[j - 1] == sorted.take(j as int)[j - 1]);
                }
                let head = sorted.take(j as int);
                assert(head.last() == y);
                assert(head.drop_last() =~= sorted.take(j - 1));
                assert(insert_desc(head, x) == insert_desc(sorted.take(j - 1), x).push(y));
                assert(insert_desc(sorted.take(j - 1), x).push(y) + sorted.skip(j as int)
                    =~= insert_desc(sorted.take(j - 1), x) + sorted.skip(j - 1));
                assert(nodes@.take(j - 1) =~= sorted.take(j - 1)) by {
                    assert forall|k: int| 0 <= k < j - 1 implies nodes@[k] == sorted[k] by {
                        assert(before.take(j as int)[k] == sorted.take(j as int)[k]);
                    }
                }
                assert(nodes@.subrange(j as int, i + 1) =~= sorted.skip(j - 1)) by {
                    assert forall|k: int| j <= k < i + 1 implies #[trigger] nodes@[k] == sorted[k - 1] by {
                        if k > j {
                            assert(before.subrange(j + 1, i + 1)[k - j - 1] == sorted.skip(j as int)[k
                                - j - 1]);
                        }
                    }
                }
                assert(nodes@.skip(i + 1) =~= rest);
            }
            j -= 1;
        }
        let ghost before = nodes@;
        nodes[j] = x;
        proof {
            let head = sorted.take(j as int);
            assert(insert_desc(head, x) == head.push(x)) by {
                if j > 0 {
                    assert(before.take(j as int)[j - 1] == sorted.take(j as int)[j - 1]);
                    assert(head.last() == sorted[j - 1]);
                }
            }
            assert(nodes@.take(i + 1) =~= head.push(x) + sorted.skip(j as int)) by {
                assert forall|k: int| 0 <= k < i + 1 implies nodes@[k] == (head.push(x) + sorted.skip(
                    j as int,
                ))[k] by {
                    if k < j {
                        assert(before.take(j as int)[k] == sorted.take(j as int)[k]);
                    } else if k > j {
                        assert(before.subrange(j + 1, i + 1)[k - j - 1] == sorted.skip(j as int)[k - j
                            - 1]);
                    }
                }
            }
            assert(orig.take(i + 1).drop_last() =~= orig.take(i as int));
            assert(orig.take(i + 1).last() == x);
            assert(nodes@.skip(i + 1) =~= orig.skip(i + 1)) by {
                assert forall|k: int| i + 1 <= k < n implies #[trigger] nodes@[k] == orig[k] by {
                    assert(rest[k - i - 1] == nodes@[k]);
                    assert(orig.skip(i as int)[k - i] == orig[k]);
                }
            }
        }
        i += 1;
    }
    proof {
        assert(nodes@.take(n as int) =~= nodes@);
        assert(orig.take(n as int) =~= orig);
    }
}

/// Prunes the children that were generated for a leaf: sorts them by
/// falling score and keeps those at the head of which `CUTOFF` times the
/// score exceeds the score of the leaf, but `MIN_KEEP` at least.
pub fn prune_children(nodes: Vec<Node>, parent: &Node) -> (out: Vec<Node>)
    ensures
        out@ == sort_desc(nodes@).take(
            kept(lead(sort_desc(nodes@), parent.eval.score), nodes@.len() as int),
        ),
        out@.len() <= nodes@.len(),
{
    let mut nodes = nodes;
    let ghost orig = nodes@;
    sort_nodes(&mut nodes);
    let ghost sorted = nodes@;
    let n: usize = nodes.len();
    let limit: i128 = parent.eval.score as i128;
    let mut i: usize = 0;
    assert(sorted.skip(0) =~= sorted);
    while i < n && CUTOFF as i128 * (nodes[i].eval.score as i128) > limit
        invariant
            i <= n,
            n == nodes@.len(),
            nodes@ == sorted,
            limit == parent.eval.score,
            lead(sorted, parent.eval.score) == i + lead(sorted.skip(i as int), parent.eval.score),
        decreases n - i,
    {
        assert(sorted.skip(i as int).drop_first() =~= sorted.skip(i + 1));
        i += 1;
    }
    assert(lead(sorted, parent.eval.score) == i) by {
        if i < n {
            assert(sorted.skip(i as int)[0] == sorted[i as int]);
        }
    }
    let want: usize = if i >= MIN_KEEP {
        i
    } else {
        MIN_KEEP
    };
    let keep: usize = if want <= n {
        want
    } else {
        n
    };
    nodes.truncate(keep);
    assert(nodes@ =~= sorted.take(keep as int));
    nodes
}

impl StateView {
    /// Whether this state continues the state `child` that the search
    /// predicted: the board and the hold are the same, and the queue begins
    /// with the queue of `child`.
    pub open spec fn continues(self, child: StateView) -> bool {
        &&& self.board == child.board
        &&& self.hold == child.hold
        &&& child.queue.is_prefix_of(self.queue)
    }
}

impl State {
    /// Whether this state continues the state `child` that the search
    /// predicted.
    pub fn continues(&self, child: &State) -> (b: bool)
        ensures
            b == self@.continues(child@),
    {
        if !self.board.same(&child.board) {
            return false;
        }
        let same_hold = match (self.hold, child.hold) {
            (Some(a), Some(b)) => a == b,
            (None, None) => true,
            _ => false,
        };
        if !same_hold {
            return false;
        }
        if child.queue.len() > self.queue.len() {
            return false;
        }
        let mut i: usize = 0;
        while i < child.queue.len()
            invariant
                i <= child.queue@.len() <= self.queue@.len(),
                forall|k: int| 0 <= k < i ==> self.queue@[k] == child.queue@[k],
            decreases child.queue@.len() - i,
        {
            if self.queue[i] != child.queue[i] {
                assert(self.queue@.subrange(0, child.queue@.len() as int)[i as int]
                    != child.queue@[i as int]);
                return false;
            }
            i += 1;
        }
        assert(child.queue@ =~= self.queue@.subrange(0, child.queue@.len() as int));
        true
    }
}

/// Whether the state `new` is what the move of node `c` leads to from the
/// state `s`.
pub open spec fn leads_to(nodes: Seq<Node>, c: int, s: StateView, new: StateView) -> bool {
    s.can_apply(nodes[c].mv) && new.continues(s.apply(nodes[c].mv))
}

/// The last of the children `lo..hi` whose move leads from `s` to `new`.
pub open spec fn matching_child(nodes: Seq<Node>, s: StateView, new: StateView, lo: int, hi: int) -> Option<
    int,
>
    decreases hi - lo,
{
    if hi <= lo {
        None
    } else if leads_to(nodes, hi - 1, s, new) {
        Some(hi - 1)
    } else {
        matching_child(nodes, s, new, lo, hi - 1)
    }
}

/// The first of the children `lo..hi` with the best score.
pub open spec fn top_child(nodes: Seq<Node>, lo: int, hi: int) -> int
    decreases hi - lo,
{
    if hi - lo <= 1 {
        lo
    } else {
        let before = top_child(nodes, lo, hi - 1);
        if nodes[hi - 1].eval.score > nodes[before].eval.score {
            hi - 1
        } else {
            before
        }
    }
}

/// The epoch after a reset.
pub open spec fn next_epoch(e: u64) -> u64 {
    if e < u64::MAX {
        (e + 1) as u64
    } else {
        0
    }
}

impl Default for Tree {
    /// A tree with nothing but an empty root, over the empty state.
    fn default() -> (t: Self)
        ensures
            t@.wf(),
            t@.nodes == seq![Node::spec_default()],
            t@.root == 0,
            t@.epoch == 0,
            t@.root_state.board.is_empty(),
            t@.root_state.queue.len() == 0,
    {
        let mut nodes: Vec<Node> = Vec::new();
        nodes.push(Node::default());
        assert(nodes@ =~= seq![Node::spec_default()]);
        Tree { root_state: State::default(), nodes, root: 0, epoch: 0 }
    }
}

impl Tree {
    /// Whether the root has children, so that there is a solution.
    pub fn has_solution(&self) -> (b: bool)
        ensures
            self@.wf(),
            b == (self@.nodes[self@.root as int].child_count > 0),
    {
        proof {
            use_type_invariant(self);
        }
        self.nodes[self.root].child_count > 0
    }

    /// The best move found so far: the child of the root with the best
    /// score, and of several such the first.
    pub fn solution(&self) -> (n: Node)
        requires
            self@.nodes[self@.root as int].child_count > 0,
        ensures
            self@.wf(),
            n == self@.nodes[top_child(self@.nodes, self@.root_lo(), self@.root_hi())],
            self@.root_lo() <= top_child(self@.nodes, self@.root_lo(), self@.root_hi())
                < self@.root_hi(),
    {
        proof {
            use_type_invariant(self);
        }
        let root = self.nodes[self.root];
        assert(self.nodes@.len() == self.nodes.len());
        let lo: usize = root.first_child;
        let hi: usize = root.first_child + root.child_count;
        let mut best: usize = lo;
        let mut c: usize = lo + 1;
        while c < hi
            invariant
                lo < c <= hi <= self.nodes@.len(),
                lo <= best < c,
                best == top_child(self.nodes@, lo as int, c as int),
            decreases hi - c,
        {
            if self.nodes[c].eval.score > self.nodes[best].eval.score {
                best = c;
            }
            c += 1;
        }
        self.nodes[best]
    }

    /// The child of the root whose move leads from the root state to
    /// `state`, if there is one; of several such children the last.
    pub fn find_child(&self, state: &State) -> (found: Option<usize>)
        ensures
            self@.wf(),
            match found {
                Some(f) => matching_child(
                    self@.nodes,
                    self@.root_state,
                    state@,
                    self@.root_lo(),
                    self@.root_hi(),
                ) == Some(f as int) && self@.root_lo() <= f < self@.root_hi() && f
                    < self@.nodes.len(),
                None => matching_child(
                    self@.nodes,
                    self@.root_state,
                    state@,
                    self@.root_lo(),
                    self@.root_hi(),
                ) is None,
            },
    {
        proof {
            use_type_invariant(self);
        }
        let root = self.nodes[self.root];
        assert(self.nodes@.len() == self.nodes.len());
        let lo: usize = if root.child_count > 0 {
            root.first_child
        } else {
            0
        };
        let hi: usize = if root.child_count > 0 {
            root.first_child + root.child_count
        } else {
            0
        };
        assert(matching_child(self.nodes@, self.root_state@, state@, lo as int, hi as int)
            == matching_child(
            self.nodes@,
            self.root_state@,
            state@,
            self@.root_lo(),
            self@.root_hi(),
        ));
        let mut found: Option<usize> = None;
        let mut c: usize = lo;
        while c < hi
            invariant
                lo <= c <= hi <= self.nodes@.len(),
                self.root_state@.wf(),
                found matches Some(f) ==> lo <= f < c,
                match found {
                    Some(f) => matching_child(
                        self.nodes@,
                        self.root_state@,
                        state@,
                        lo as int,
                        c as int,
                    ) == Some(f as int),
                    None => matching_child(self.nodes@, self.root_state@, state@, lo as int, c as int)
                        is None,
                },
            decreases hi - c,
        {
            let mv = self.nodes[c].mv;
            if self.root_state.can_apply(&mv) {
                let child_state = self.root_state.clone().apply_move(&mv);
                if state.continues(&child_state) {
                    found = Some(c);
                }
            }
            c += 1;
        }
        found
    }

    /// Moves the tree on to `state`, the state that the game is in now.
    ///
    /// When a move of a child of the root leads from the root state to
    /// `state`, that child becomes the root, with its subtree as it is and
    /// the claim on it released; of several such children the last one
    /// does. Otherwise the tree is reset to an empty root and a new epoch
    /// begins. In both cases `state` is the new root state.
    pub fn advance(&mut self, state: &State)
        requires
            state@.wf(),
        ensures
            old(self)@.wf(),
            final(self)@.wf(),
            final(self)@.root_state == state@,
            match matching_child(
                old(self)@.nodes,
                old(self)@.root_state,
                state@,
                old(self)@.root_lo(),
                old(self)@.root_hi(),
            ) {
                Some(c) => {
                    &&& final(self)@.root == c
                    &&& final(self)@.nodes == old(self)@.nodes.update(
                        c,
                        Node { expanding: false, ..old(self)@.nodes[c] },
                    )
                    &&& final(self)@.epoch == old(self)@.epoch
                },
                None => {
                    &&& final(self)@.root == 0
                    &&& final(self)@.nodes == seq![Node::spec_default()]
                    &&& final(self)@.epoch == next_epoch(old(self)@.epoch)
                },
            },
    {
        proof {
            use_type_invariant(&*self);
        }
        let found = self.find_child(state);
        let mut taken = Tree::default();
        core::mem::swap(self, &mut taken);
        let Tree { root_state: _, nodes, root: _, epoch } = taken;
        let mut nodes = nodes;
        match found {
            Some(child) => {
                let ghost before = nodes@;
                nodes[child].expanding = false;
                proof {
                    lemma_linked_update(
                        before,
                        child as int,
                        Node { expanding: false, ..before[child as int] },
                    );
                    assert(nodes@ =~= before.update(
                        child as int,
                        Node { expanding: false, ..before[child as int] },
                    ));
                }
                *self = Tree { root_state: state.clone(), nodes, root: child, epoch };
            },
            None => {
                let mut fresh: Vec<Node> = Vec::new();
                fresh.push(Node::default());
                assert(fresh@ =~= seq![Node::spec_default()]);
                let next: u64 = if epoch < u64::MAX {
                    epoch + 1
                } else {
                    0
                };
                *self = Tree { root_state: state.clone(), nodes: fresh, root: 0, epoch: next };
            },
        }
    }

    /// Whether the arena has room for `n` more nodes.
    pub fn has_room(&self, n: usize) -> (b: bool)
        ensures
            b == (self@.nodes.len() + n <= usize::MAX),
    {
        self.nodes.len() <= usize::MAX - n
    }

    /// Whether a selection belongs to this tree as it stands.
    pub fn accepts(&self, sel: &Selection) -> (b: bool)
        ensures
            b == self@.accepts(sel),
    {
        if sel.epoch != self.epoch || sel.list.len() == 0 {
            return false;
        }
        let mut k: usize = 0;
        while k < sel.list.len()
            invariant
                k <= sel.list@.len(),
                forall|j: int| 0 <= j < k ==> #[trigger] sel.list@[j] < self.nodes@.len(),
            decreases sel.list@.len() - k,
        {
            if sel.list[k] >= self.nodes.len() {
                return false;
            }
            k += 1;
        }
        true
    }

    /// The arena after `children` have been installed at the leaf of a
    /// selection and their best score has been propagated up its path.
    pub open spec fn installed(nodes: Seq<Node>, path: Seq<usize>, children: Seq<Node>) -> Seq<Node> {
        propagated(
            expanded(nodes, path.last() as int, children),
            path,
            max_eval(children),
            path.len() as int,
        )
    }

    /// Installs the children that were developed for a selection and
    /// propagates their best score up the path. Nothing happens when the
    /// selection no longer belongs to the tree or the arena has no room;
    /// the result says whether the children were installed.
    pub fn install(&mut self, sel: &Selection, children: Vec<Node>) -> (done: bool)
        ensures
            final(self)@.wf(),
            done == (old(self)@.accepts(sel) && old(self)@.nodes.len() + children@.len()
                <= usize::MAX),
            final(self)@ == (TreeView {
                nodes: if done {
                    Tree::installed(old(self)@.nodes, sel.list@, children@)
                } else {
                    old(self)@.nodes
                },
                ..old(self)@
            }),
    {
        proof {
            use_type_invariant(&*self);
        }
        if !self.accepts(sel) || !self.has_room(children.len()) {
            return false;
        }
        let backprop = sel.expand(self, children);
        sel.backprop(self, backprop);
        true
    }
}

/// A change that the search makes to the arena.
pub ghost enum Change {
    /// A node is expanded with children.
    Expand { leaf: int, children: Seq<Node> },
    /// A score is propagated up a path.
    Backprop { path: Seq<usize>, score: i64 },
}

/// Whether the search may make a change to an arena: it expands only a node
/// without children, and it propagates only along a path whose nodes
/// between the two ends have children.
pub open spec fn allowed(nodes: Seq<Node>, c: Change) -> bool {
    match c {
        Change::Expand { leaf, children } => 0 <= leaf < nodes.len() && nodes[leaf].child_count == 0,
        Change::Backprop { path, score } => forall|k: int|
            inner(k, path.len() as int) ==> (#[trigger] path[k]) < nodes.len() && nodes[path[k] as int].child_count
                > 0,
    }
}

/// The arena after a change.
pub open spec fn changed(nodes: Seq<Node>, c: Change) -> Seq<Node> {
    match c {
        Change::Expand { leaf, children } => expanded(nodes, leaf, children),
        Change::Backprop { path, score } => propagated(nodes, path, score, path.len() as int),
    }
}

/// The arena after a sequence of changes.
pub open spec fn changed_by(nodes: Seq<Node>, cs: Seq<Change>) -> Seq<Node>
    decreases cs.len(),
{
    if cs.len() == 0 {
        nodes
    } else {
        changed(changed_by(nodes, cs.drop_last()), cs.last())
    }
}

/// Whether the search may make each of a sequence of changes in its turn.
pub open spec fn all_allowed(nodes: Seq<Node>, cs: Seq<Change>) -> bool
    decreases cs.len(),
{
    cs.len() == 0 || (all_allowed(nodes, cs.drop_last()) && allowed(
        changed_by(nodes, cs.drop_last()),
        cs.last(),
    ))
}

/// Whatever the search does after it has propagated a score into a node,
/// the evaluation of the node never falls below that score again.
pub proof fn lemma_backprop_lasts(nodes: Seq<Node>, cs: Seq<Change>, k: int, j: int)
    requires
        all_allowed(nodes, cs),
        0 <= k < cs.len(),
        cs[k] is Backprop,
        inner(j, cs[k]->path.len() as int),
    ensures
        cs[k]->path[j] < changed_by(nodes, cs).len(),
        changed_by(nodes, cs)[cs[k]->path[j] as int].eval.score >= cs[k]->score,
        changed_by(nodes, cs)[cs[k]->path[j] as int].child_count > 0,
    decreases cs.len(),
{
    let before = changed_by(nodes, cs.drop_last());
    let i = cs[k]->path[j] as int;
    if k == cs.len() - 1 {
        let path = cs[k]->path;
        assert(path[j] < before.len() && before[path[j] as int].child_count > 0);
        lemma_backprop_monotone(before, path, cs[k]->score, path.len() as int);
    } else {
        assert(cs.drop_last()[k] == cs[k]);
        lemma_backprop_lasts(nodes, cs.drop_last(), k, j);
        match cs.last() {
            Change::Expand { leaf, children } => {
                assert(leaf != i);
            },
            Change::Backprop { path, score } => {
                lemma_backprop_monotone(before, path, score, path.len() as int);
            },
        }
    }
}

/// Whether a path leads through nodes with children to a node without.
pub open spec fn descends(nodes: Seq<Node>, path: Seq<usize>) -> bool {
    &&& path.len() > 0
    &&& path.last() < nodes.len()
    &&& nodes[path.last() as int].child_count == 0
    &&& forall|k: int|
        0 <= k < path.len() - 1 ==> (#[trigger] path[k]) < nodes.len() && nodes[path[k] as int].child_count
            > 0
}

/// A walk of selection changes neither the number of nodes nor where the
/// children of a node lie, and the path that it finds leads through nodes
/// with children to a node without.
pub proof fn lemma_walk_shape(nodes: Seq<Node>, i: int, path: Seq<usize>, s: StateView)
    requires
        nodes.len() <= usize::MAX,
        forall|k: int|
            0 <= k < path.len() ==> (#[trigger] path[k]) < nodes.len() && nodes[path[k] as int].child_count
                > 0,
    ensures
        walk(nodes, i, path, s).nodes.len() == nodes.len(),
        forall|k: int|
            0 <= k < nodes.len() ==> (#[trigger] walk(nodes, i, path, s).nodes[k]).child_count
                == nodes[k].child_count,
        walk(nodes, i, path, s).found is Some ==> descends(
            nodes,
            walk(nodes, i, path, s).found.unwrap().0,
        ),
    decreases nodes.len() - i,
{
    if 0 <= i < nodes.len() {
        match spec_step(nodes, i) {
            SelectionResult::Continue(c) => {
                let counted = nodes.update(i, bumped(nodes[i]));
                if !(c <= i || c >= nodes.len() || !s.can_apply(nodes[c as int].mv)) {
                    let longer = path.push(i as usize);
                    assert(nodes[i].child_count > 0);
                    assert forall|k: int| 0 <= k < longer.len() implies (#[trigger] longer[k])
                        < counted.len() && counted[longer[k] as int].child_count > 0 by {
                        if k < path.len() {
                            assert(longer[k] == path[k]);
                            assert(counted[path[k] as int].child_count == nodes[path[k] as int].child_count);
                        }
                    }
                    let next = s.apply(nodes[c as int].mv);
                    lemma_walk_shape(counted, c as int, longer, next);
                    let w = walk(counted, c as int, longer, next);
                    assert(walk(nodes, i, path, s) == w);
                    assert forall|k: int| 0 <= k < nodes.len() implies (#[trigger] w.nodes[k]).child_count
                        == nodes[k].child_count by {
                        assert(counted[k].child_count == nodes[k].child_count);
                    }
                    if w.found is Some {
                        let found = w.found.unwrap().0;
                        assert(descends(counted, found));
                        assert(counted[found.last() as int].child_count == nodes[found.last() as int].child_count);
                        assert forall|k: int| 0 <= k < found.len() - 1 implies (#[trigger] found[k])
                            < nodes.len() && nodes[found[k] as int].child_count > 0 by {
                            assert(counted[found[k] as int].child_count == nodes[found[k] as int].child_count);
                        }
                        assert(descends(nodes, found));
                    }
                }
            },
            SelectionResult::Leaf => {
                let longer = path.push(i as usize);
                let w = walk(nodes, i, path, s);
                assert(w.found == Some((longer, s)));
                assert(longer.last() == i as usize);
                assert(nodes[i].child_count == 0);
                assert forall|k: int| 0 <= k < longer.len() - 1 implies (#[trigger] longer[k])
                    < nodes.len() && nodes[longer[k] as int].child_count > 0 by {
                    assert(longer[k] == path[k]);
                }
                assert(descends(nodes, longer));
                assert forall|k: int| 0 <= k < nodes.len() implies (#[trigger] w.nodes[k]).child_count
                    == nodes[k].child_count by {}
            },
            SelectionResult::Deadend => {},
        }
    }
}

/// What a unit of work does to the arena is allowed: the leaf that
/// selection finds has no children when it is expanded, and the nodes
/// between the root and the leaf have children when the score is
/// propagated.
pub proof fn lemma_work_allowed(
    nodes: Seq<Node>,
    root: int,
    s: StateView,
    children: Seq<Node>,
    score: i64,
)
    requires
        nodes.len() <= usize::MAX,
        walk(nodes, root, Seq::empty(), s).found is Some,
    ensures
        ({
            let w = walk(nodes, root, Seq::empty(), s);
            let path = w.found.unwrap().0;
            &&& allowed(w.nodes, Change::Expand { leaf: path.last() as int, children })
            &&& allowed(
                expanded(w.nodes, path.last() as int, children),
                Change::Backprop { path, score },
            )
        }),
{
    lemma_walk_shape(nodes, root, Seq::empty(), s);
    let w = walk(nodes, root, Seq::empty(), s);
    let path = w.found.unwrap().0;
    let leaf = path.last() as int;
    assert(descends(nodes, path));
    assert(w.nodes[leaf].child_count == nodes[leaf].child_count);
    let grown = expanded(w.nodes, leaf, children);
    assert forall|k: int| inner(k, path.len() as int) implies (#[trigger] path[k]) < grown.len()
        && grown[path[k] as int].child_count > 0 by {
        let i = path[k] as int;
        assert(w.nodes[i].child_count == nodes[i].child_count);
        if i == leaf {
            assert(nodes[leaf].child_count == 0);
        } else {
            assert(grown[i] == w.nodes[i]);
        }
    }
}

} // verus!
