use uttt_ai::ai::ai::{Engine, Request, Response};
use uttt_ai::ai::rollout::Tally;
use uttt_ai::ai::tree::Score;
use uttt_ai::ai::Game;

/// A game of one move: the player to move picks side 0 or side 1, and the game
/// ends undecided.
#[derive(Clone, Debug, PartialEq)]
struct Coin {
    side: Option<u8>,
}

impl Game for Coin {
    type Move = u8;
    type Player = u8;

    fn available_moves(&self) -> Vec<u8> {
        match self.side {
            None => vec![0, 1],
            Some(_) => vec![],
        }
    }

    fn make_move(&self, m: &u8) -> Option<Box<Self>> {
        let mut next = self.clone();
        if next.make_move_mut(m) {
            Some(Box::new(next))
        } else {
            None
        }
    }

    fn make_move_mut(&mut self, m: &u8) -> bool {
        if self.side.is_none() && *m < 2 {
            self.side = Some(*m);
            true
        } else {
            false
        }
    }

    fn get_cur_player(&self) -> u8 {
        if self.side.is_none() {
            7
        } else {
            8
        }
    }

    fn get_winner(&self) -> Option<u8> {
        None
    }

    // What follows is the ghost side of the contract. Compiled code never
    // calls it.

    fn moves(&self) -> vstd::seq::Seq<u8> {
        panic!()
    }

    fn allows(&self, _m: u8) -> bool {
        panic!()
    }

    fn leads_to(&self, _m: u8, _next: &Self) -> bool {
        panic!()
    }

    fn to_move(&self) -> u8 {
        panic!()
    }

    fn winner(&self) -> Option<u8> {
        panic!()
    }

    fn horizon(&self) -> vstd::prelude::nat {
        panic!()
    }

    fn equality_laws() {
    }
}

/// A tally of `playouts` playouts of which `player` won `wins`.
fn tally(playouts: u32, player: u8, wins: u32) -> Tally<Coin> {
    let mut t = Tally::new();
    for i in 0..playouts {
        t.record(if i < wins { Some(player) } else { None });
    }
    t
}

/// Scores an edge by its wins per thousand playouts.
fn per_mille(wins: u32, games: u32, _total: u32) -> u64 {
    wins as u64 * 1000 / games as u64
}

/// Runs one search step that is expected to walk the root's edge for `side`,
/// and folds a tally of `playouts` and `wins` into it.
fn step_on(engine: &mut Engine<Coin>, side: u8, playouts: u32, wins: u32) {
    let job = engine.begin_step().expect("identifiers left");
    assert_eq!(job.side, Some(side));
    let done = engine.finish_step(&tally(playouts, 7, wins), &per_mille);
    assert_eq!(done, Some(playouts));
}

/// Root with edge A (side 0): 10 playouts, 7 wins, 3 visits; and edge B
/// (side 1): 10 playouts, 2 wins, 1 visit.
fn explored() -> Engine<Coin> {
    let mut engine = Engine::new(Coin { side: None });
    let first = engine.begin_step().expect("identifiers left");
    if first.side == Some(0) {
        assert_eq!(engine.finish_step(&tally(4, 7, 3), &per_mille), Some(4));
        step_on(&mut engine, 1, 10, 2);
    } else {
        assert_eq!(engine.finish_step(&tally(10, 7, 2), &per_mille), Some(10));
        step_on(&mut engine, 0, 4, 3);
    }
    step_on(&mut engine, 0, 3, 2);
    step_on(&mut engine, 0, 3, 2);
    engine
}

#[test]
fn info_prefers_the_most_visited_move() {
    let mut engine = explored();
    match engine.handle(Request::Info) {
        Response::Info { best_move, wins, games, total_sims } => {
            assert_eq!(best_move, Some(&0));
            assert_eq!(wins, 7);
            assert_eq!(games, 10);
            assert_eq!(wins as f64 / games as f64, 0.7);
            assert_eq!(total_sims, 20);
        }
        Response::Ack => panic!("an info query is answered with info"),
    }
}

#[test]
fn fresh_engine_has_no_best_move() {
    let mut engine = Engine::new(Coin { side: None });
    match engine.handle(Request::Info) {
        Response::Info { best_move, wins, games, total_sims } => {
            assert_eq!(best_move, None);
            assert_eq!((wins, games), (0, 0));
            assert_eq!(total_sims, 0);
        }
        Response::Ack => panic!("an info query is answered with info"),
    }
}

#[test]
fn commit_of_an_unexplored_move_makes_a_fresh_root() {
    let mut engine = Engine::new(Coin { side: None });
    assert!(engine.accepts(&1));
    assert!(matches!(engine.handle(Request::MakeMove(1)), Response::Ack));
    let root = engine.root_id();
    let node = engine.nodes().get(root);
    assert_eq!(node.game, Coin { side: Some(1) });
    assert_eq!(node.games, 0);
    assert!(node.parent.is_none());
    assert!(node.children.is_empty());
    assert_eq!(node.player, 8);
    assert!(!engine.nodes().contains(0));
    assert_eq!(engine.num_sims(), 0);
}

#[test]
fn commit_of_an_explored_move_keeps_its_statistics() {
    let mut engine = explored();
    let old_root = engine.root_id();
    let (kept, dropped) = {
        let rt = engine.nodes().get(old_root);
        (rt.children[0].1.node, rt.children[1].1.node)
    };
    assert!(engine.accepts(&0));
    engine.make_move(0);
    assert_eq!(engine.root_id(), kept);
    assert!(engine.nodes().contains(kept));
    assert!(!engine.nodes().contains(old_root));
    assert!(!engine.nodes().contains(dropped));
    let node = engine.nodes().get(kept);
    assert!(node.parent.is_none());
    assert_eq!(node.game, Coin { side: Some(0) });
    assert_eq!(engine.num_sims(), 20);
    assert!(engine.selected().is_none());
}

#[test]
fn commit_rejects_a_move_that_is_not_allowed() {
    let engine = Engine::new(Coin { side: None });
    assert!(!engine.accepts(&2));
}

#[test]
fn decisive_batch_credits_wins_and_playouts() {
    let mut engine = Engine::new(Coin { side: None });
    let job = engine.begin_step().expect("identifiers left");
    let side = job.side.expect("a move was made") as usize;
    assert_eq!(engine.finish_step(&tally(5, 7, 5), &per_mille), Some(5));
    let rt = engine.nodes().get(engine.root_id());
    assert_eq!(rt.games, 5);
    assert_eq!(rt.children[side].1.games, 5);
    assert_eq!(rt.children[side].1.wins, 5);
    assert_eq!(rt.children[side].1.simulations, 1);
    assert!(matches!(rt.children[side].1.uct, Score::Finite(1000)));
    let other = &rt.children[1 - side].1;
    assert_eq!((other.games, other.wins, other.simulations), (0, 0, 0));
    assert!(matches!(other.uct, Score::Infinite));
}

#[test]
fn wins_of_the_other_player_are_not_credited() {
    let mut engine = Engine::new(Coin { side: None });
    let job = engine.begin_step().expect("identifiers left");
    let side = job.side.expect("a move was made") as usize;
    assert_eq!(engine.finish_step(&tally(5, 8, 5), &per_mille), Some(5));
    let rt = engine.nodes().get(engine.root_id());
    assert_eq!(rt.children[side].1.games, 5);
    assert_eq!(rt.children[side].1.wins, 0);
}

#[test]
fn finish_without_begin_changes_nothing() {
    let mut engine = Engine::new(Coin { side: None });
    assert_eq!(engine.finish_step(&tally(5, 7, 5), &per_mille), None);
    assert_eq!(engine.num_sims(), 0);
    assert!(engine.nodes().get(engine.root_id()).children.is_empty());
}

#[test]
fn unvisited_edge_is_selected_before_any_visited_one() {
    let mut engine = Engine::new(Coin { side: None });
    let first = engine.begin_step().expect("identifiers left").side;
    engine.finish_step(&tally(9, 7, 9), &|_, _, _| u64::MAX);
    let second = engine.begin_step().expect("identifiers left").side;
    assert_ne!(first, second);
}

#[test]
fn empty_batch_counts_a_visit_and_keeps_the_score_infinite() {
    let mut engine = Engine::new(Coin { side: None });
    let job = engine.begin_step().expect("identifiers left");
    let side = job.side.expect("a move was made") as usize;
    assert_eq!(engine.finish_step(&Tally::new(), &per_mille), Some(0));
    let edge = &engine.nodes().get(engine.root_id()).children[side].1;
    assert_eq!((edge.games, edge.simulations), (0, 1));
    assert!(matches!(edge.uct, Score::Infinite));
}

#[test]
fn game_without_rendering_shows_as_nothing() {
    assert_eq!(Coin { side: None }.to_str(), "");
}

#[test]
fn second_begin_replaces_the_first() {
    let mut engine = Engine::new(Coin { side: None });
    assert!(engine.begin_step().is_some());
    assert!(engine.selected().is_some());
    assert!(engine.begin_step().is_some());
    let path = engine.selected().expect("a step has begun").path.clone();
    assert_eq!(path.len(), 1);
    assert_eq!(path[0].0, engine.root_id());
    assert_eq!(engine.finish_step(&tally(1, 7, 0), &per_mille), Some(1));
    assert!(engine.selected().is_none());
    assert_eq!(engine.finish_step(&tally(1, 7, 0), &per_mille), None);
    assert_eq!(engine.num_sims(), 1);
}
