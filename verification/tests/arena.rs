use uttt_ai::ai::ai::{best_edge, best_move, find_edge, reroot};
use uttt_ai::ai::arena::NodeList;
use uttt_ai::ai::montecarlo::{
    all_max, backpropagate, can_absorb, expand, montecarlo, pick, select, Selection,
};
use uttt_ai::ai::rollout::Tally;
use uttt_ai::ai::tree::{Child, MoveTreeNode, Score};
use uttt_ai::ai::Game;
use uttt_ai::game::{Player, TicTacToe};

fn edge(games: u32, wins: u32, uct: Score, simulations: u32, node: usize) -> Child {
    Child { games, wins, uct, simulations, node }
}

fn rooted() -> (NodeList<TicTacToe>, usize) {
    let mut nodes = NodeList::new();
    let root = nodes.add(MoveTreeNode::new_root(TicTacToe::new()));
    (nodes, root)
}

fn tally(playouts: u32, player: Player, wins: u32) -> Tally<TicTacToe> {
    let mut t = Tally::new();
    for i in 0..playouts {
        t.record(if i < wins { Some(player) } else { None });
    }
    t
}

fn half(wins: u32, games: u32, total: u32) -> u64 {
    (wins as u64 * 1_000_000) / games as u64 + total as u64
}

#[test]
fn arena_hands_out_rising_identifiers() {
    let mut nodes: NodeList<TicTacToe> = NodeList::new();
    assert_eq!(nodes.room(), usize::MAX);
    let a = nodes.add(MoveTreeNode::new_root(TicTacToe::new()));
    let b = nodes.add(MoveTreeNode::new(TicTacToe::new(), a));
    assert_eq!((a, b), (0, 1));
    assert!(nodes.contains(a) && nodes.contains(b));
    assert!(!nodes.contains(2));
    assert_eq!(nodes.get(b).parent, Some(a));
    assert_eq!(nodes.get(a).parent, None);
    assert_eq!(nodes.room(), usize::MAX - 2);
}

#[test]
fn taken_node_is_gone_until_restored() {
    let (mut nodes, root) = rooted();
    let mut node = nodes.take(root);
    assert!(!nodes.contains(root));
    node.games = 5;
    nodes.restore(root, node);
    assert!(nodes.contains(root));
    assert_eq!(nodes.get(root).games, 5);
    let next = nodes.add(MoveTreeNode::new(TicTacToe::new(), root));
    assert_eq!(next, 1);
}

#[test]
fn node_is_changed_in_place_through_get_mut() {
    let (mut nodes, root) = rooted();
    let other = nodes.add(MoveTreeNode::new(TicTacToe::new(), root));
    nodes.get_mut(root).games = 12;
    nodes.get_mut(root).children.push(((0, 0), Child::fresh(other)));
    assert_eq!(nodes.get(root).games, 12);
    assert_eq!(nodes.get(root).children.len(), 1);
    assert_eq!(nodes.get(other).games, 0);
    assert!(nodes.contains(root) && nodes.contains(other) && !nodes.contains(2));
}

#[test]
fn new_nodes_know_the_player_to_move() {
    let game = TicTacToe::new().make_move(&(0, 0)).expect("allowed");
    let node = MoveTreeNode::new(*game, 3);
    assert_eq!(node.player, Player::O);
    assert_eq!(node.games, 0);
    assert_eq!(node.parent, Some(3));
    assert!(node.children.is_empty());
    let root = MoveTreeNode::new_root(TicTacToe::new());
    assert_eq!(root.player, Player::X);
    assert!(root.parent.is_none());
}

#[test]
fn fresh_edge_is_unplayed_and_scores_infinite() {
    let e = Child::fresh(9);
    assert_eq!((e.games, e.wins, e.simulations, e.node), (0, 0, 0, 9));
    assert!(e.uct.is_infinite());
}

#[test]
fn infinite_score_outranks_every_finite_score() {
    let inf = Score::Infinite;
    assert!(inf.outranks(&Score::Finite(u64::MAX)));
    assert!(inf.outranks(&Score::Finite(0)));
    assert!(!Score::Finite(u64::MAX).outranks(&inf));
    assert!(!inf.outranks(&inf));
    assert!(inf.ties(&inf));
    assert!(!inf.ties(&Score::Finite(u64::MAX)));
    assert!(Score::Finite(3).outranks(&Score::Finite(2)));
    assert!(!Score::Finite(2).outranks(&Score::Finite(2)));
    assert!(Score::Finite(2).ties(&Score::Finite(2)));
    assert!(!Score::Finite(7).is_infinite());
}

#[test]
fn all_max_lists_every_edge_of_the_highest_score() {
    let edges = vec![
        (0u8, edge(1, 0, Score::Finite(5), 1, 1)),
        (1u8, edge(1, 0, Score::Finite(9), 1, 2)),
        (2u8, edge(1, 0, Score::Finite(2), 1, 3)),
        (3u8, edge(1, 0, Score::Finite(9), 1, 4)),
    ];
    let (max, ties) = all_max(&edges);
    assert!(matches!(max, Score::Finite(9)));
    assert_eq!(ties, vec![1, 3]);
}

#[test]
fn all_max_puts_the_unvisited_first() {
    let edges = vec![
        (0u8, edge(1, 0, Score::Finite(u64::MAX), 1, 1)),
        (1u8, edge(0, 0, Score::Infinite, 0, 2)),
        (2u8, edge(0, 0, Score::Infinite, 0, 3)),
    ];
    let (max, ties) = all_max(&edges);
    assert!(max.is_infinite());
    assert_eq!(ties, vec![1, 2]);
}

#[test]
fn all_max_of_nothing_is_zero_and_nobody() {
    let edges: Vec<(u8, Child)> = Vec::new();
    let (max, ties) = all_max(&edges);
    assert!(matches!(max, Score::Finite(0)));
    assert!(ties.is_empty());
    let zeros = vec![(0u8, edge(3, 0, Score::Finite(0), 1, 1))];
    let (max, ties) = all_max(&zeros);
    assert!(matches!(max, Score::Finite(0)));
    assert_eq!(ties, vec![0]);
}

#[test]
fn pick_takes_one_of_the_best() {
    let edges = vec![
        (0u8, edge(1, 0, Score::Finite(5), 1, 1)),
        (1u8, edge(1, 0, Score::Finite(9), 1, 2)),
        (2u8, edge(1, 0, Score::Finite(9), 1, 3)),
    ];
    let mut seen = [false; 3];
    for _ in 0..200 {
        let (i, score) = pick(&edges);
        assert!(i == 1 || i == 2);
        assert!(matches!(score, Score::Finite(9)));
        seen[i] = true;
    }
    assert!(seen[1] && seen[2] && !seen[0]);
}

#[test]
fn most_visited_edge_is_the_last_of_the_best() {
    let edges = vec![
        (0u8, edge(9, 0, Score::Finite(0), 4, 1)),
        (1u8, edge(1, 0, Score::Finite(0), 7, 2)),
        (2u8, edge(1, 0, Score::Finite(0), 7, 3)),
        (3u8, edge(1, 0, Score::Finite(0), 2, 4)),
    ];
    assert_eq!(best_edge(&edges), Some(2));
    let none: Vec<(u8, Child)> = Vec::new();
    assert_eq!(best_edge(&none), None);
}

#[test]
fn edge_is_found_by_its_move() {
    let (mut nodes, root) = rooted();
    assert!(expand(&mut nodes, root, root));
    let edges = &nodes.get(root).children;
    assert_eq!(find_edge::<TicTacToe>(edges, &(0, 0)), Some(0));
    assert_eq!(find_edge::<TicTacToe>(edges, &(8, 8)), Some(80));
    assert_eq!(find_edge::<TicTacToe>(edges, &(3, 4)), Some(31));
    assert_eq!(find_edge::<TicTacToe>(edges, &(9, 0)), None);
}

#[test]
fn expansion_gives_one_edge_a_move() {
    let (mut nodes, root) = rooted();
    assert!(expand(&mut nodes, root, root));
    let moves = TicTacToe::new().available_moves();
    let rt = nodes.get(root);
    assert_eq!(rt.children.len(), 81);
    assert_eq!(rt.games, 0);
    for (i, (mv, e)) in rt.children.iter().enumerate() {
        assert_eq!(*mv, moves[i]);
        assert_eq!(e.node, root + 1 + i);
        assert_eq!((e.games, e.wins, e.simulations), (0, 0, 0));
        assert!(e.uct.is_infinite());
        let child = nodes.get(e.node);
        assert_eq!(child.parent, Some(root));
        assert_eq!(child.player, Player::O);
        assert!(child.children.is_empty());
        assert_eq!(child.game.available_moves().len(), if mv.0 == mv.1 { 8 } else { 9 });
    }
    assert!(!nodes.contains(82));
}

#[test]
fn first_selection_expands_the_root_and_stops_at_a_child() {
    let (mut nodes, root) = rooted();
    let sel = select(&mut nodes, root).expect("identifiers left");
    assert_eq!(sel.path.len(), 1);
    assert_eq!(sel.path[0].0, root);
    let rt = nodes.get(root);
    assert_eq!(rt.children.len(), 81);
    assert_eq!(rt.children[sel.path[0].1].1.node, sel.target);
    assert!(nodes.get(sel.target).children.is_empty());
}

#[test]
fn selection_walks_on_through_visited_edges() {
    let (mut nodes, root) = rooted();
    // visit every edge of the root once
    for _ in 0..81 {
        let sel = select(&mut nodes, root).expect("identifiers left");
        assert_eq!(sel.path.len(), 1);
        let t = tally(2, Player::X, 1);
        assert!(can_absorb(&nodes, root, &sel, &t));
        assert_eq!(backpropagate(&mut nodes, root, &sel, &t, &half), 2);
    }
    let rt = nodes.get(root);
    assert_eq!(rt.games, 162);
    assert!(rt.children.iter().all(|e| e.1.simulations == 1 && e.1.games == 2 && e.1.wins == 1));
    assert!(rt.children.iter().all(|e| matches!(e.1.uct, Score::Finite(500_162))));
    // now every edge is visited: the walk goes two edges deep
    let sel = select(&mut nodes, root).expect("identifiers left");
    assert_eq!(sel.path.len(), 2);
    assert_eq!(sel.path[0].0, root);
    let mid = nodes.get(root).children[sel.path[0].1].1.node;
    assert_eq!(sel.path[1].0, mid);
    assert_eq!(nodes.get(mid).children[sel.path[1].1].1.node, sel.target);
    assert_eq!(nodes.get(sel.target).parent, Some(mid));
    let t = tally(3, Player::O, 3);
    assert_eq!(backpropagate(&mut nodes, root, &sel, &t, &half), 3);
    // X moves at the root, O below it: the batch credits only the lower edge
    let top = &nodes.get(root).children[sel.path[0].1].1;
    assert_eq!((top.games, top.wins, top.simulations), (5, 1, 2));
    let low = &nodes.get(mid).children[sel.path[1].1].1;
    assert_eq!((low.games, low.wins, low.simulations), (3, 3, 1));
    assert_eq!(nodes.get(root).games, 165);
    assert_eq!(nodes.get(mid).games, 3);
    assert!(matches!(low.uct, Score::Finite(1_000_003)));
    assert!(matches!(top.uct, Score::Finite(200_165)));
}

#[test]
fn whole_step_counts_its_playouts_on_one_edge() {
    let (mut nodes, root) = rooted();
    let num_sims = montecarlo(&mut nodes, root, 20, &half).expect("room for the step");
    assert!(num_sims > 0);
    let rt = nodes.get(root);
    assert_eq!(rt.games, num_sims);
    assert_eq!(rt.children.len(), 81);
    let visited: Vec<&Child> =
        rt.children.iter().map(|e| &e.1).filter(|e| e.simulations > 0).collect();
    assert_eq!(visited.len(), 1);
    assert_eq!(visited[0].games, num_sims);
    assert!(visited[0].wins <= num_sims);
    assert!(!visited[0].uct.is_infinite());
    let second = montecarlo(&mut nodes, root, 0, &half).expect("room for the step");
    assert_eq!(second, 0);
    assert_eq!(nodes.get(root).games, num_sims);
    assert_eq!(nodes.get(root).children.iter().filter(|e| e.1.simulations > 0).count(), 2);
}

#[test]
fn whole_step_stops_short_where_a_counter_is_full() {
    let (mut nodes, root) = rooted();
    assert!(expand(&mut nodes, root, root));
    // every edge has been chosen as often as can be counted
    let mut rt = nodes.take(root);
    for e in rt.children.iter_mut() {
        e.1.simulations = u32::MAX;
    }
    nodes.restore(root, rt);
    assert_eq!(montecarlo(&mut nodes, root, 0, &half), None);
    let rt = nodes.get(root);
    assert_eq!(rt.games, 0);
    assert!(rt.children.iter().all(|e| e.1.games == 0 && e.1.simulations == u32::MAX));
}

#[test]
fn full_counters_do_not_absorb() {
    let (mut nodes, root) = rooted();
    assert!(expand(&mut nodes, root, root));
    let target = nodes.get(root).children[4].1.node;
    let sel = Selection { path: vec![(root, 4)], target };
    let big = tally(10, Player::X, 0);
    assert!(can_absorb(&nodes, root, &sel, &big));
    let mut rt = nodes.take(root);
    rt.games = u32::MAX - 9;
    rt.children[0].1.games = u32::MAX - 9;
    rt.children[0].1.uct = Score::Finite(1);
    nodes.restore(root, rt);
    assert!(!can_absorb(&nodes, root, &sel, &big));
    assert!(can_absorb(&nodes, root, &sel, &tally(9, Player::X, 0)));
    let mut rt = nodes.take(root);
    rt.children[4].1.simulations = u32::MAX;
    nodes.restore(root, rt);
    assert!(!can_absorb(&nodes, root, &sel, &tally(0, Player::X, 0)));
}

#[test]
fn best_move_is_none_before_expansion() {
    let (mut nodes, root) = rooted();
    assert_eq!(best_move(&nodes, root), None);
    assert!(expand(&mut nodes, root, root));
    // nothing visited yet: the last edge is the last of the most visited
    assert_eq!(best_move(&nodes, root), Some(&(8, 8)));
    let target = nodes.get(root).children[40].1.node;
    let sel = Selection { path: vec![(root, 40)], target };
    backpropagate(&mut nodes, root, &sel, &tally(1, Player::X, 1), &half);
    assert_eq!(best_move(&nodes, root), Some(&(4, 4)));
}

#[test]
fn discarding_spares_the_excepted_subtree() {
    let (mut nodes, root) = rooted();
    assert!(expand(&mut nodes, root, root));
    let keep = nodes.get(root).children[7].1.node;
    assert!(expand(&mut nodes, root, keep));
    let below: Vec<usize> = nodes.get(keep).children.iter().map(|e| e.1.node).collect();
    let other = nodes.get(root).children[8].1.node;
    assert!(expand(&mut nodes, root, other));
    let lost: Vec<usize> = nodes.get(other).children.iter().map(|e| e.1.node).collect();
    let kept_node = nodes.take(keep);
    nodes.drop_node(root, keep);
    nodes.restore(keep, kept_node);
    assert!(!nodes.contains(root));
    assert!(!nodes.contains(other));
    assert!(lost.iter().all(|n| !nodes.contains(*n)));
    assert!(nodes.contains(keep));
    assert_eq!(below.len(), 9);
    assert!(below.iter().all(|n| nodes.contains(*n)));
    for n in 0..(1 + 81 + 9 + 9) {
        assert_eq!(nodes.contains(n), n == keep || below.contains(&n));
    }
}

#[test]
fn discarding_an_absent_node_discards_nothing() {
    let (mut nodes, root) = rooted();
    assert!(expand(&mut nodes, root, root));
    nodes.drop_node(500, 501);
    for n in 0..82 {
        assert!(nodes.contains(n));
    }
}

#[test]
fn reroot_keeps_the_subtree_with_its_statistics() {
    let (mut nodes, root) = rooted();
    for _ in 0..81 {
        let sel = select(&mut nodes, root).expect("identifiers left");
        backpropagate(&mut nodes, root, &sel, &tally(2, Player::X, 1), &half);
    }
    // walk two deep a few times so that some child of the root gets edges
    let mut deep = Vec::new();
    for _ in 0..5 {
        let sel = select(&mut nodes, root).expect("identifiers left");
        backpropagate(&mut nodes, root, &sel, &tally(4, Player::O, 3), &half);
        deep.push((nodes.get(root).children[sel.path[0].1].0, sel));
    }
    let (mv, sel) = deep.pop().expect("five walks");
    let new_root = sel.path[1].0;
    let before: Vec<(usize, u32, u32, u32)> = nodes
        .get(new_root)
        .children
        .iter()
        .map(|e| (e.1.node, e.1.games, e.1.wins, e.1.simulations))
        .collect();
    let games = nodes.get(new_root).games;
    assert!(games >= 4);
    let got = reroot(&mut nodes, root, &mv);
    assert_eq!(got, new_root);
    let rt = nodes.get(got);
    assert!(rt.parent.is_none());
    assert_eq!(rt.games, games);
    let after: Vec<(usize, u32, u32, u32)> =
        rt.children.iter().map(|e| (e.1.node, e.1.games, e.1.wins, e.1.simulations)).collect();
    assert_eq!(before, after);
    assert!(!nodes.contains(root));
    for (n, _, _, _) in after {
        assert!(nodes.contains(n));
        assert_eq!(nodes.get(n).parent, Some(got));
    }
    // nothing but the new root and its children is left
    let mut count = 0;
    for n in 0..2000 {
        if nodes.contains(n) {
            count += 1;
        }
    }
    assert_eq!(count, 1 + nodes.get(got).children.len());
}

#[test]
fn reroot_to_an_unexplored_move_starts_afresh() {
    let (mut nodes, root) = rooted();
    let got = reroot(&mut nodes, root, &(2, 3));
    assert_eq!(got, 1);
    assert!(!nodes.contains(root));
    let rt = nodes.get(got);
    assert!(rt.parent.is_none());
    assert_eq!(rt.games, 0);
    assert!(rt.children.is_empty());
    assert_eq!(rt.player, Player::O);
    assert_eq!(rt.game.available_moves(), (0..9).map(|b| (3, b)).collect::<Vec<_>>());
}
