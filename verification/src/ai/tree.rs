//! Nodes and edges of the search tree.

use super::game::Game;
use vstd::prelude::*;

verus! {

/// The identifier under which the arena holds a node.
pub type NodeID = usize;

/// The selection score of an edge: a key that orders the edges of one node. An
/// edge that no playout has gone through yet scores `Infinite`. A finite key is
/// whatever the scoring rule handed to backpropagation returned for the edge.
#[derive(Clone, Copy, Debug)]
pub enum Score {
    Finite(u64),
    Infinite,
}

impl Score {
    /// The place of a score in the order of all scores: a finite score ranks as
    /// its key, the infinite score ranks above every key.
    pub open spec fn rank(self) -> int {
        match self {
            Score::Finite(key) => key as int,
            Score::Infinite => u64::MAX + 1,
        }
    }

    pub fn is_infinite(&self) -> (infinite: bool)
        ensures
            infinite == (*self is Infinite),
            infinite == (self.rank() == u64::MAX + 1),
    {
        match self {
            Score::Finite(_) => false,
            Score::Infinite => true,
        }
    }

    /// Whether this score ranks strictly above `other`.
    pub fn outranks(&self, other: &Score) -> (above: bool)
        ensures
            above == (self.rank() > other.rank()),
    {
        match (self, other) {
            (Score::Finite(a), Score::Finite(b)) => *a > *b,
            (Score::Infinite, Score::Finite(_)) => true,
            (_, Score::Infinite) => false,
        }
    }

    /// Whether this score and `other` rank alike, which they do exactly when
    /// they are the same score.
    pub fn ties(&self, other: &Score) -> (level: bool)
        ensures
            level == (self.rank() == other.rank()),
            level == (*self == *other),
    {
        match (self, other) {
            (Score::Finite(a), Score::Finite(b)) => *a == *b,
            (Score::Infinite, Score::Infinite) => true,
            _ => false,
        }
    }

    /// The infinite score ranks strictly above every finite one.
    pub proof fn lemma_infinite_outranks_finite(key: u64)
        ensures
            Score::Infinite.rank() > Score::Finite(key).rank(),
    {
    }
}

/// An edge of the tree: the statistics of one move and the node it leads to.
#[derive(Clone, Copy, Debug)]
pub struct Child {
    /// Playouts that went through this edge.
    pub games: u32,
    /// Those of them that the player who makes the move won.
    pub wins: u32,
    /// The cached selection score.
    pub uct: Score,
    /// How often selection chose this edge.
    pub simulations: u32,
    /// The node the move leads to.
    pub node: NodeID,
}

impl Child {
    /// The edge to a node just made: no playouts, no wins, never chosen, and
    /// therefore an infinite score.
    pub fn fresh(node: NodeID) -> (edge: Child)
        ensures
            edge == (Child { games: 0, wins: 0, uct: Score::Infinite, simulations: 0, node }),
    {
        Child { games: 0, wins: 0, uct: Score::Infinite, simulations: 0, node }
    }
}

/// A node of the tree: a position, the player to move in it, the playouts that
/// went through it, its parent (the root has none), and one edge for each move
/// once the node is expanded. The edges stand in the order in which the game
/// lists its moves.
pub struct MoveTreeNode<G: Game> {
    pub game: G,
    pub player: G::Player,
    pub games: u32,
    pub parent: Option<NodeID>,
    pub children: Vec<(G::Move, Child)>,
}

impl<G: Game> MoveTreeNode<G> {
    /// A root for the position `game`: no parent, no playouts, no edges yet.
    pub fn new_root(game: G) -> (node: Self)
        ensures
            node.game == game,
            node.player == game.to_move(),
            node.games == 0,
            node.parent is None,
            node.children@.len() == 0,
    {
        let player = game.get_cur_player();
        MoveTreeNode { game, player, games: 0, parent: None, children: Vec::new() }
    }

    /// A node for the position `game` below `parent`: no playouts, no edges yet.
    pub fn new(game: G, parent: NodeID) -> (node: Self)
        ensures
            node.game == game,
            node.player == game.to_move(),
            node.games == 0,
            node.parent == Some(parent),
            node.children@.len() == 0,
    {
        let player = game.get_cur_player();
        MoveTreeNode { game, player, games: 0, parent: Some(parent), children: Vec::new() }
    }

    /// The playouts of the first `upto` edges, added up.
    pub open spec fn games_below(edges: Seq<(G::Move, Child)>, upto: int) -> int
        decreases upto,
    {
        if upto <= 0 {
            0
        } else {
            Self::games_below(edges, upto - 1) + edges[upto - 1].1.games
        }
    }
}

} // verus!
