use quaternion::game::eval::{evaluate, Mode};
use quaternion::game::movegen::gen_moves;
use quaternion::game::{Board, Move, Piece, Rotation, State};
use quaternion::tree::{
    gen_children, prune_children, sort_nodes, Backprop, Evaluation, Node, Selection,
    SelectionResult, Tree, LOWEST, MIN_KEEP,
};
use quaternion::worker::{develop, BotStats, Worker, DEFAULT_NODE_LIMIT, MIN_LOOKAHEAD};

fn queue_state(queue: Vec<Piece>) -> State {
    State { queue: queue.into_iter().collect(), ..State::default() }
}

fn leaf(score: i64, x: i8) -> Node {
    Node {
        eval: Evaluation { score },
        mv: Move { x, y: 0, r: Rotation::N, list: 0 },
        first_child: 0,
        child_count: 0,
        expanding: false,
        expansions: 0,
    }
}

fn tree_over(state: State) -> Tree {
    let mut tree = Tree::default();
    tree.advance(&state);
    tree
}

/// The tree with its nodes changed by `change`.
fn with_nodes(tree: &Tree, change: impl FnOnce(&mut Vec<Node>)) -> Tree {
    let mut nodes = tree.nodes().clone();
    change(&mut nodes);
    Tree::from_parts(tree.root_state().clone(), nodes, tree.root(), tree.epoch()).unwrap()
}

fn scores(tree: &Tree) -> Vec<i64> {
    tree.nodes().iter().map(|n| n.eval.score).collect()
}

#[test]
fn new_tree_selects_its_root() {
    let state = queue_state(vec![Piece::T, Piece::O, Piece::I, Piece::L]);
    let mut tree = tree_over(state.clone());
    assert_eq!(*tree.nodes(), vec![Node::default()]);
    assert_eq!(tree.step(0), SelectionResult::Leaf);
    let sel = tree.select().unwrap();
    assert_eq!(sel.list, vec![0]);
    assert_eq!(sel.get_state(), &state);
    assert!(tree.node(0).expanding);
    assert!(tree.accepts(&sel));
    // The root is claimed now: a second selection finds nothing.
    assert_eq!(tree.step(0), SelectionResult::Deadend);
    assert!(tree.select().is_none());
}

#[test]
fn expand_installs_children_and_takes_the_best_score() {
    let state = queue_state(vec![Piece::O, Piece::O, Piece::I, Piece::L]);
    let mut tree = tree_over(state);
    let sel = tree.select().unwrap();
    let children = vec![leaf(5, 0), leaf(9, 2), leaf(-3, 4)];
    let backprop = sel.expand(&mut tree, children.clone());
    assert_eq!(backprop, Backprop { score: 9 });
    assert_eq!(tree.len(), 4);
    assert_eq!(&tree.nodes()[1..], &children[..]);
    assert_eq!(tree.node(0).first_child, 1);
    assert_eq!(tree.node(0).child_count, 3);
    assert!(!tree.node(0).expanding);
    assert_eq!(tree.node(0).eval.score, 9);
    assert!(tree.has_solution());
    assert_eq!(tree.solution(), children[1]);
}

#[test]
fn expand_reports_the_best_score_however_low() {
    assert_eq!(LOWEST, i64::MIN);
    let mut tree = tree_over(queue_state(vec![Piece::O, Piece::O, Piece::I]));
    let sel = tree.select().unwrap();
    let backprop = sel.expand(&mut tree, vec![leaf(i64::MIN, 0), leaf(i64::MIN + 1, 2)]);
    assert_eq!(backprop.score, i64::MIN + 1);
    let mut tree = tree_over(queue_state(vec![Piece::O, Piece::O, Piece::I]));
    let sel = tree.select().unwrap();
    let backprop = sel.expand(&mut tree, vec![leaf(i64::MIN, 0)]);
    assert_eq!(backprop.score, i64::MIN);
    assert_eq!(tree.solution().mv.x, 0);
}

#[test]
fn expand_without_children_scores_lowest() {
    let mut tree = tree_over(queue_state(vec![Piece::O, Piece::O, Piece::I]));
    let sel = tree.select().unwrap();
    let backprop = sel.expand(&mut tree, vec![]);
    assert_eq!(backprop.score, LOWEST);
    assert_eq!(tree.node(0).eval.score, LOWEST);
    assert!(!tree.has_solution());
    assert!(!tree.node(0).expanding);
}

#[test]
fn selection_follows_the_least_visited_child() {
    let mut tree = tree_over(queue_state(vec![Piece::O, Piece::O, Piece::O, Piece::O]));
    let sel = tree.select().unwrap();
    sel.expand(&mut tree, vec![leaf(1, 0), leaf(2, 2), leaf(3, 4)]);

    // All children are fresh: the first one is taken.
    assert_eq!(tree.step(0), SelectionResult::Continue(1));
    let first = tree.select().unwrap();
    assert_eq!(first.list, vec![0, 1]);
    assert_eq!(tree.node(0).expansions, 1);
    assert!(tree.node(1).expanding);
    assert_eq!(first.state.board.v, [0b11, 0b11, 0, 0, 0, 0, 0, 0, 0, 0]);
    assert_eq!(first.state.queue.len(), 3);

    // The claimed child is passed over.
    assert_eq!(tree.step(0), SelectionResult::Continue(2));
    first.expand(&mut tree, vec![leaf(7, 4)]);
    let tree = with_nodes(&tree, |nodes| {
        nodes[2].expansions = 5;
        nodes[3].expansions = 2;
    });
    // Child 1 has been expanded but never passed through: it comes first.
    assert_eq!(tree.step(0), SelectionResult::Continue(1));
    let tree = with_nodes(&tree, |nodes| nodes[1].expansions = 2);
    // Children 1 and 3 are level: the first of them is taken.
    assert_eq!(tree.step(0), SelectionResult::Continue(1));
    let tree = with_nodes(&tree, |nodes| nodes[1].expansions = 3);
    assert_eq!(tree.step(0), SelectionResult::Continue(3));

    // With every child claimed the root is a dead end.
    let mut tree = with_nodes(&tree, |nodes| {
        nodes[1].expanding = true;
        nodes[2].expanding = true;
        nodes[3].expanding = true;
    });
    assert_eq!(tree.step(0), SelectionResult::Deadend);
    let before = tree.nodes().clone();
    assert!(tree.select().is_none());
    assert_eq!(*tree.nodes(), before);
}

#[test]
fn selection_stops_at_a_move_that_cannot_be_applied() {
    let mut tree = tree_over(queue_state(vec![Piece::O, Piece::O, Piece::O]));
    let sel = tree.select().unwrap();
    sel.expand(&mut tree, vec![leaf(1, 9)]);
    // An O piece in the last column would leave the board.
    assert!(tree.select().is_none());
    assert_eq!(tree.node(0).expansions, 1);
    assert!(!tree.node(1).expanding);
}

#[test]
fn backprop_raises_the_nodes_between_root_and_leaf() {
    let mut tree = tree_over(queue_state(vec![Piece::O; 6]));
    let root = tree.select().unwrap();
    root.expand(&mut tree, vec![leaf(1, 0)]);
    let one = tree.select().unwrap();
    one.expand(&mut tree, vec![leaf(2, 2)]);
    let two = tree.select().unwrap();
    assert_eq!(two.list, vec![0, 1, 2]);
    let report = two.expand(&mut tree, vec![leaf(50, 4), leaf(40, 6)]);
    assert_eq!(report.score, 50);
    let before = scores(&tree);
    assert_eq!(before, vec![1, 2, 50, 50, 40]);
    two.backprop(&mut tree, report);
    let after = scores(&tree);
    // The root and the leaf are left alone; the node between takes the score.
    assert_eq!(after, vec![1, 50, 50, 50, 40]);
    // A lower score changes nothing.
    two.backprop(&mut tree, Backprop { score: 10 });
    let again = scores(&tree);
    assert_eq!(again, after);
    // No score ever falls.
    two.backprop(&mut tree, Backprop { score: 60 });
    let last = scores(&tree);
    assert_eq!(last, vec![1, 60, 50, 50, 40]);
    for (a, b) in after.iter().zip(last.iter()) {
        assert!(b >= a);
    }
}

#[test]
fn evaluation_keeps_the_better_score() {
    let mut eval = Evaluation::new(5);
    eval.apply(&Backprop { score: 3 });
    assert_eq!(eval.get(), 5);
    eval.apply(&Backprop { score: 8 });
    assert_eq!(eval.get(), 8);
    let mut node = leaf(1, 0);
    Backprop { score: 4 }.apply_to(&mut node);
    assert_eq!(node.eval.score, 4);
    assert_eq!(*node.get_mv(), Move { x: 0, y: 0, r: Rotation::N, list: 0 });
}

#[test]
fn advance_to_a_child_keeps_its_subtree() {
    let state = queue_state(vec![Piece::O, Piece::T, Piece::I, Piece::L]);
    let mut tree = tree_over(state.clone());
    let epoch = tree.epoch();
    let root = tree.select().unwrap();
    root.expand(&mut tree, vec![leaf(1, 0), leaf(2, 4), leaf(3, 8)]);
    let child = tree.select().unwrap();
    assert_eq!(child.list, vec![0, 1]);
    child.expand(&mut tree, vec![leaf(4, 4)]);
    let mut tree = with_nodes(&tree, |nodes| nodes[2].expanding = true);
    let before = tree.nodes().clone();

    // The game plays the move of the second child and draws a new piece.
    let mut next = state.clone().apply_move(&before[2].mv);
    next.queue.push_back(Piece::Z);
    next.combo = 9;
    tree.advance(&next);
    assert_eq!(tree.root(), 2);
    assert_eq!(tree.epoch(), epoch);
    assert_eq!(*tree.root_state(), next);
    let mut expected = before.clone();
    expected[2].expanding = false;
    assert_eq!(*tree.nodes(), expected);
    assert!(tree.accepts(&child));
}

#[test]
fn advance_to_an_unknown_state_resets_the_tree() {
    let state = queue_state(vec![Piece::O, Piece::T, Piece::I, Piece::L]);
    let mut tree = tree_over(state.clone());
    let root = tree.select().unwrap();
    root.expand(&mut tree, vec![leaf(1, 0), leaf(2, 4)]);
    let epoch = tree.epoch();

    // A board that no child leads to.
    let other = State { board: Board { v: [1, 0, 0, 0, 0, 0, 0, 0, 0, 0] }, ..state.clone() };
    tree.advance(&other);
    assert_eq!(tree.root(), 0);
    assert_eq!(*tree.nodes(), vec![Node::default()]);
    assert_eq!(tree.epoch(), epoch + 1);
    assert_eq!(*tree.root_state(), other);
    // A selection from before the reset is no longer accepted.
    assert!(!tree.accepts(&root));
    assert!(!tree.install(&root, vec![leaf(1, 0)]));
    assert_eq!(*tree.nodes(), vec![Node::default()]);
}

#[test]
fn advance_needs_the_same_hold_and_a_queue_that_goes_on() {
    let state = queue_state(vec![Piece::O, Piece::T, Piece::I]);
    let child_state = state.clone().apply_move(&leaf(1, 0).mv);

    let mut held = child_state.clone();
    held.hold = Some(Piece::L);
    assert!(!held.continues(&child_state));

    let mut shorter = child_state.clone();
    shorter.queue.pop_back();
    assert!(!shorter.continues(&child_state));

    let mut other = child_state.clone();
    other.queue[0] = Piece::Z;
    assert!(!other.continues(&child_state));

    let mut longer = child_state.clone();
    longer.queue.push_back(Piece::S);
    longer.b2b = 7;
    assert!(longer.continues(&child_state));
    assert!(child_state.continues(&child_state));
}

#[test]
fn advance_takes_the_last_matching_child() {
    let state = queue_state(vec![Piece::O, Piece::T, Piece::I]);
    let mut tree = tree_over(state.clone());
    let root = tree.select().unwrap();
    // Two children with the same move.
    root.expand(&mut tree, vec![leaf(1, 4), leaf(2, 0), leaf(3, 4)]);
    let next = state.apply_move(&leaf(0, 4).mv);
    tree.advance(&next);
    assert_eq!(tree.root(), 3);
}

#[test]
fn solution_is_the_first_of_the_best_children() {
    let mut tree = tree_over(queue_state(vec![Piece::O, Piece::T, Piece::I]));
    let root = tree.select().unwrap();
    root.expand(&mut tree, vec![leaf(3, 0), leaf(8, 2), leaf(8, 4), leaf(-1, 6)]);
    assert_eq!(tree.solution().mv.x, 2);
}

#[test]
fn nodes_are_sorted_by_falling_score_and_keep_their_order() {
    let mut nodes = vec![leaf(3, 0), leaf(9, 1), leaf(3, 2), leaf(-4, 3), leaf(9, 4), leaf(5, 5)];
    sort_nodes(&mut nodes);
    let order: Vec<(i64, i8)> = nodes.iter().map(|n| (n.eval.score, n.mv.x)).collect();
    assert_eq!(order, vec![(9, 1), (9, 4), (5, 5), (3, 0), (3, 2), (-4, 3)]);
    let mut none: Vec<Node> = vec![];
    sort_nodes(&mut none);
    assert!(none.is_empty());
}

#[test]
fn pruning_keeps_the_good_children_and_twenty_at_least() {
    assert_eq!(MIN_KEEP, 20);
    let parent = leaf(100, 0);
    // Thirty children with scores 1 to 30: those above 20 are worth
    // keeping, which is ten, so that twenty are kept.
    let nodes: Vec<Node> = (1..=30).map(|s| leaf(s, (s % 10) as i8)).collect();
    let kept = prune_children(nodes.clone(), &parent);
    let scores: Vec<i64> = kept.iter().map(|n| n.eval.score).collect();
    assert_eq!(scores, (11..=30).rev().collect::<Vec<i64>>());
    // With a low parent all thirty are worth keeping.
    assert_eq!(prune_children(nodes.clone(), &leaf(4, 0)).len(), 30);
    // Five times 1 is not more than 5: the last child goes.
    assert_eq!(prune_children(nodes.clone(), &leaf(5, 0)).len(), 29);
    // Fewer than twenty children are all kept.
    let few: Vec<Node> = (1..=7).map(|s| leaf(-s, 0)).collect();
    assert_eq!(prune_children(few, &parent).len(), 7);
    // A parent without a score cuts nothing off.
    assert_eq!(prune_children(nodes, &leaf(LOWEST, 0)).len(), 30);
}

#[test]
fn children_carry_the_move_and_the_evaluation() {
    let state = queue_state(vec![Piece::T, Piece::O, Piece::I, Piece::L]);
    let moves = gen_moves(&state);
    let children = gen_children(&state);
    assert_eq!(children.len(), moves.len());
    for (child, mov) in children.iter().zip(moves.iter()) {
        assert_eq!(child.mv, *mov);
        let (next, stats) = state.clone().apply_move_with_stats(mov);
        assert_eq!(child.eval.score, evaluate(&next, stats, Mode::Norm));
        assert_eq!(*child, state.clone().make_node(*mov, Mode::Norm));
        assert_eq!(child.child_count, 0);
        assert!(!child.expanding);
        assert_eq!(child.expansions, 0);
    }
}

#[test]
fn children_above_the_board_are_left_out() {
    // The stack reaches row 18 everywhere but in the last column.
    let mut v = [0x3_ffffu32; 10];
    v[9] = 0;
    let state = State { board: Board { v }, ..queue_state(vec![Piece::I, Piece::O, Piece::T]) };
    let moves = gen_moves(&state);
    let children = gen_children(&state);
    assert!(!moves.is_empty());
    assert!(children.len() < moves.len());
    for child in &children {
        assert!(state.can_apply(&child.mv));
    }
    let applicable = moves.iter().filter(|m| state.can_apply(m)).count();
    assert_eq!(children.len(), applicable);
}

#[test]
fn develop_looks_ahead_only_with_a_long_queue() {
    assert_eq!(MIN_LOOKAHEAD, 2);
    let parent = Node::default();
    assert!(develop(&queue_state(vec![Piece::T, Piece::O]), &parent).is_none());
    assert!(develop(&queue_state(vec![]), &parent).is_none());
    let state = queue_state(vec![Piece::T, Piece::O, Piece::I]);
    let (children, generated) = develop(&state, &parent).unwrap();
    assert_eq!(generated, gen_children(&state).len());
    assert_eq!(children, prune_children(gen_children(&state), &parent));
}

#[test]
fn worker_starts_stopped_with_the_default_budget() {
    let mut worker = Worker::new();
    assert!(!worker.state.run);
    assert!(!worker.state.should_work());
    assert_eq!(worker.state.node_limit, DEFAULT_NODE_LIMIT);
    assert_eq!(worker.state.stats, BotStats { nodes: 0 });
    worker.start();
    assert!(worker.state.run);
    assert!(worker.state.should_work());
    worker.stop();
    assert!(!worker.state.run);
    worker.state.count(5);
    assert_eq!(worker.state.stats.nodes, 5);
    worker.state.stats.nodes = u64::MAX - 2;
    worker.state.count(5);
    assert_eq!(worker.state.stats.nodes, u64::MAX);
    worker.state.reset();
    assert_eq!(worker.state.stats.nodes, 0);
}

#[test]
fn unit_of_work_expands_the_root() {
    let state = queue_state(vec![Piece::T, Piece::O, Piece::I, Piece::L, Piece::J]);
    let mut worker = Worker::new();
    worker.advance(&state);
    worker.work();
    let generated = gen_children(&state).len() as u64;
    assert_eq!(worker.state.stats.nodes, generated);
    let root = worker.tree.node(0);
    assert!(!root.expanding);
    assert_eq!(root.first_child, 1);
    let children = prune_children(gen_children(&state), &Node::default());
    assert_eq!(&worker.tree.nodes()[1..], &children[..]);
    assert_eq!(root.eval.score, children[0].eval.score);
    assert_eq!(worker.solution(), children[0]);
}

#[test]
fn work_stops_at_the_budget_and_at_the_horizon() {
    let state = queue_state(vec![Piece::T, Piece::O, Piece::I, Piece::L]);
    let mut worker = Worker::new();
    worker.advance(&state);
    // A stopped worker does nothing.
    let before = worker.tree.nodes().clone();
    assert_eq!(worker.work_for(10), 0);
    assert_eq!(*worker.tree.nodes(), before);
    // One unit for the worker is one unit of work.
    let mut one = Worker::new();
    one.advance(&state);
    one.start();
    let mut other = Worker::new();
    other.advance(&state);
    other.start();
    assert_eq!(one.work_for(1), 1);
    other.work();
    assert_eq!(one.tree.nodes(), other.tree.nodes());
    assert_eq!(one.state, other.state);
    assert!(one.tree.len() > 1);
    assert_eq!(one.work_for(3), 3);
    other.work();
    other.work();
    other.work();
    assert_eq!(one.tree.nodes(), other.tree.nodes());
    assert_eq!(one.state, other.state);
    worker.state.node_limit = 100;
    worker.start();
    let done = worker.work_for(1000);
    assert!(done < 1000);
    assert!(worker.state.stats.nodes >= 100);
    assert!(!worker.state.should_work());
    // With a budget to spare, work goes on while it is asked for.
    worker.state.node_limit = u64::MAX;
    assert_eq!(worker.work_for(50), 50);
    worker.stop();
    // Leaves whose queue has run down to the horizon are claimed and left.
    let claimed = worker.tree.nodes().iter().filter(|n| n.expanding).count();
    assert!(claimed > 0);
    for node in worker.tree.nodes().iter().filter(|n| n.expanding) {
        assert_eq!(node.child_count, 0);
    }
}

#[test]
fn worker_advance_resets_the_count_and_keeps_the_run_flag() {
    let state = queue_state(vec![Piece::T, Piece::O, Piece::I, Piece::L, Piece::J, Piece::S]);
    let mut worker = Worker::new();
    worker.advance(&state);
    worker.start();
    worker.work_for(20);
    assert!(worker.state.stats.nodes > 0);
    let best = worker.solution();
    let mut next = state.apply_move(&best.mv);
    next.queue.push_back(Piece::Z);
    let size = worker.tree.len();
    worker.advance(&next);
    assert!(worker.state.run);
    assert_eq!(worker.state.stats.nodes, 0);
    assert_eq!(worker.tree.len(), size);
    assert_eq!(worker.tree.node(worker.tree.root()).mv, best.mv);
    assert_eq!(*worker.tree.root_state(), next);
}

#[test]
fn trees_are_put_together_only_from_sound_parts() {
    let state = queue_state(vec![Piece::T]);
    let mut parent = leaf(1, 0);
    parent.first_child = 1;
    parent.child_count = 2;
    let nodes = vec![parent, leaf(2, 2), leaf(3, 4)];
    let tree = Tree::from_parts(state.clone(), nodes.clone(), 0, 7).unwrap();
    assert_eq!(tree.nodes(), &nodes);
    assert_eq!((tree.root(), tree.epoch(), tree.len()), (0, 7, 3));
    assert_eq!(tree.root_state(), &state);
    assert!(Tree::from_parts(state.clone(), nodes.clone(), 2, 0).is_some());
    // The root must lie in the arena.
    assert!(Tree::from_parts(state.clone(), nodes.clone(), 3, 0).is_none());
    assert!(Tree::from_parts(state.clone(), vec![], 0, 0).is_none());
    // Children must lie behind their parent and inside the arena.
    let mut long = nodes.clone();
    long[0].child_count = 3;
    assert!(Tree::from_parts(state.clone(), long, 0, 0).is_none());
    let mut back = nodes.clone();
    back[1].first_child = 0;
    back[1].child_count = 1;
    assert!(Tree::from_parts(state.clone(), back, 0, 0).is_none());
    let mut own = nodes.clone();
    own[2].first_child = 2;
    own[2].child_count = 1;
    assert!(Tree::from_parts(state.clone(), own, 0, 0).is_none());
    // The root state must be well formed.
    let broken = State { board: Board { v: [1 << 20, 0, 0, 0, 0, 0, 0, 0, 0, 0] }, ..state.clone() };
    assert!(Tree::from_parts(broken, nodes.clone(), 0, 0).is_none());
    let empty = queue_state(vec![Piece::Empty]);
    assert!(Tree::from_parts(empty, nodes, 0, 0).is_none());
}

#[test]
fn selection_made_by_hand() {
    let sel = Selection::new(vec![0], State::default(), 3);
    assert_eq!(sel.list, vec![0]);
    assert_eq!(sel.epoch, 3);
    let tree = Tree::default();
    assert!(!tree.accepts(&sel));
    assert!(tree.accepts(&Selection::new(vec![0], State::default(), 0)));
    assert!(!tree.accepts(&Selection::new(vec![], State::default(), 0)));
    assert!(!tree.accepts(&Selection::new(vec![0, 1], State::default(), 0)));
    assert_eq!(Selection::new(vec![0], State::default(), 0).get_leaf(&tree), Node::default());
    assert!(tree.has_room(10));
    assert!(!tree.has_room(usize::MAX));
}
