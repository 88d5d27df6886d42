//! The engine that a controller talks to: it answers queries about the best
//! move found so far, commits the moves that are actually played, and advances
//! the search one step at a time.

use super::arena::{
    descends, edge_sound, has_edge_to, is_tree, lemma_reaches_upward, lemma_tree_is_connected,
    lemma_tree_is_linked, linked, node_sound, reaches, unreferenced, NodeList, Nodes,
};
use super::game::Game;
use super::montecarlo::{
    absorbs, backpropagate, can_absorb, folded_along, grown, is_path, is_selection, select,
    Selection,
};
use super::rollout::Tally;
use super::tree::{Child, MoveTreeNode};
use vstd::laws_eq::obeys_concrete_eq;
use vstd::prelude::*;

pub use super::tree::NodeID;

verus! {

/// What a controller may ask of the engine.
pub enum Request<G: Game> {
    /// Report the best move found so far.
    Info,
    /// The move has been played: go on from the position it leads to.
    MakeMove(G::Move),
}

/// What the engine answers.
pub enum Response<'a, G: Game> {
    /// The answer to `Request::Info`. The confidence in the best move is `wins`
    /// out of `games`, and nothing where `games` is zero.
    Info {
        /// The move of the most visited edge of the root, if the root has edges.
        best_move: Option<&'a G::Move>,
        /// The wins of that edge.
        wins: u32,
        /// The playouts of that edge.
        games: u32,
        /// All playouts since the engine was made.
        total_sims: u64,
    },
    /// The answer to `Request::MakeMove`.
    Ack,
}

/// Whether edge `i` is the most visited of `edges`: the last of those that
/// selection has chosen most often.
pub open spec fn most_visited<M>(edges: Seq<(M, Child)>, i: int) -> bool {
    &&& 0 <= i < edges.len()
    &&& forall|j: int| 0 <= j < edges.len() ==> (#[trigger] edges[j]).1.simulations <= edges[i].1.simulations
    &&& forall|j: int| i < j < edges.len() ==> (#[trigger] edges[j]).1.simulations < edges[i].1.simulations
}

/// The place of the most visited edge, and nothing for no edges.
pub fn best_edge<M>(edges: &Vec<(M, Child)>) -> (best: Option<usize>)
    ensures
        match best {
            Some(i) => most_visited(edges@, i as int),
            None => edges@.len() == 0,
        },
{
    if edges.len() == 0 {
        return None;
    }
    let mut best: usize = 0;
    let mut i: usize = 1;
    while i < edges.len()
        invariant
            1 <= i <= edges@.len(),
            best < i,
            forall|j: int| 0 <= j < i ==> (#[trigger] edges@[j]).1.simulations <= edges@[best as int].1.simulations,
            forall|j: int| best < j < i ==> (#[trigger] edges@[j]).1.simulations < edges@[best as int].1.simulations,
        decreases edges@.len() - i,
    {
        if edges[i].1.simulations >= edges[best].1.simulations {
            best = i;
        }
        i += 1;
    }
    Some(best)
}

/// The move of the most visited edge of the root, and nothing while the root
/// has no edges. Among edges visited equally often the last one wins.
pub fn best_move<G: Game>(nodes: &NodeList<G>, root: NodeID) -> (best: Option<&G::Move>)
    requires
        nodes@.contains_key(root),
    ensures
        match best {
            Some(mv) => exists|i: int|
                #![trigger nodes@[root].children@[i]]
                most_visited(nodes@[root].children@, i) && *mv == nodes@[root].children@[i].0,
            None => nodes@[root].children@.len() == 0,
        },
{
    let rt = nodes.get(root);
    match best_edge(&rt.children) {
        Some(i) => Some(&rt.children[i].0),
        None => None,
    }
}

/// The place of the edge for move `mv` among `edges`, if there is one.
pub fn find_edge<G: Game>(edges: &Vec<(G::Move, Child)>, mv: &G::Move) -> (found: Option<usize>)
    ensures
        match found {
            Some(i) => i < edges@.len() && edges@[i as int].0 == *mv,
            None => forall|j: int| 0 <= j < edges@.len() ==> (#[trigger] edges@[j]).0 != *mv,
        },
{
    let mut i: usize = 0;
    while i < edges.len()
        invariant
            i <= edges@.len(),
            forall|j: int| 0 <= j < i ==> (#[trigger] edges@[j]).0 != *mv,
        decreases edges@.len() - i,
    {
        proof {
            G::equality_laws();
            reveal(obeys_concrete_eq);
        }
        if edges[i].0 == *mv {
            return Some(i);
        }
        i += 1;
    }
    None
}

/// Taking `except` out of a linked arena leaves it linked.
pub proof fn lemma_linked_without<G: Game>(m: Nodes<G>, except: NodeID, top: NodeID)
    requires
        linked(m, except),
        unreferenced(m, top),
    ensures
        linked(m.remove(except), except),
        unreferenced(m.remove(except), top),
{
    let rest = m.remove(except);
    assert forall|c: NodeID|
        #![trigger rest[c].parent]
        rest.contains_key(c) && rest[c].parent is Some && rest.contains_key(
            rest[c].parent->0,
        ) implies has_edge_to(rest, rest[c].parent->0, c) by {
        let p = m[c].parent;
        assert(has_edge_to(m, p->0, c));
        let i = choose|i: int|
            0 <= i < m[p->0].children@.len() && (#[trigger] m[p->0].children@[i]).1.node == c;
        assert(rest[p->0].children@[i].1.node == c);
    }
}

/// A chain that reaches `top` in its own subtree reaches it whatever node
/// outside the arena is excepted.
pub proof fn lemma_reaches_despite<G: Game>(m: Nodes<G>, top: NodeID, except: NodeID, n: NodeID)
    requires
        descends(m, top, n),
        !m.contains_key(except),
    ensures
        reaches(m, top, except, n),
    decreases n,
{
    if n != top {
        lemma_reaches_despite(m, top, except, m[n].parent->0);
    }
}

/// In a search tree, a node hangs below `x` exactly if its chain of parents
/// does not reach the root once `x` is taken out.
pub proof fn lemma_split<G: Game>(m: Nodes<G>, root: NodeID, x: NodeID, n: NodeID)
    requires
        is_tree(m, root),
        m.contains_key(n),
        m.contains_key(x),
        x != root,
    ensures
        reaches(m.remove(x), root, x, n) <==> !descends(m, x, n),
    decreases n,
{
    let rest = m.remove(x);
    if n == x {
    } else if n == root {
        assert(reaches(rest, root, x, root));
    } else {
        assert(node_sound(m, n));
        let p = m[n].parent->0;
        let i = choose|i: int|
            0 <= i < m[p].children@.len() && (#[trigger] m[p].children@[i]).1.node == n;
        assert(node_sound(m, p));
        assert(edge_sound(m, p, i));
        lemma_split(m, root, x, p);
        assert(rest[n] == m[n]);
    }
}

/// The subtree of a node of a search tree is a search tree, once its top has
/// let go of its parent.
pub proof fn lemma_subtree_is_tree<G: Game>(m: Nodes<G>, root: NodeID, x: NodeID, sub: Nodes<G>)
    requires
        is_tree(m, root),
        m.contains_key(x),
        forall|n: NodeID| sub.contains_key(n) <==> m.contains_key(n) && descends(m, x, n),
        forall|n: NodeID| sub.contains_key(n) && n != x ==> #[trigger] sub[n] == m[n],
        sub[x].parent is None,
        sub[x].game == m[x].game,
        sub[x].player == m[x].player,
        sub[x].games == m[x].games,
        sub[x].children == m[x].children,
    ensures
        is_tree(sub, x),
{
    assert(descends(m, x, x));
    assert forall|n: NodeID| sub.contains_key(n) implies #[trigger] node_sound(sub, n) by {
        assert(node_sound(m, n));
        lemma_reaches_upward(m, x, x, n);
        assert forall|i: int| 0 <= i < sub[n].children@.len() implies #[trigger] edge_sound(
            sub,
            n,
            i,
        ) by {
            assert(edge_sound(m, n, i));
            let t = m[n].children@[i].1.node;
            assert(t != x);
            assert(descends(m, x, t));
            assert(sub[t] == m[t]);
        }
        if n != x {
            let p = m[n].parent->0;
            assert(descends(m, x, p));
            assert(has_edge_to(m, p, n));
            let i = choose|i: int|
                0 <= i < m[p].children@.len() && (#[trigger] m[p].children@[i]).1.node == n;
            assert(sub[p].children@[i].1.node == n);
        }
    }
    assert forall|n: NodeID| sub.contains_key(n) && (#[trigger] sub[n]).parent is None implies n
        == x by {
        if n != x {
            assert(descends(m, x, n));
        }
    }
}

/// Whether `after` is what is left of the search tree `before` when the node
/// `top` becomes the root: `top` and its descendants, each as it was, but that
/// `top` has no parent any more.
pub open spec fn subtree_of<G: Game>(before: Nodes<G>, after: Nodes<G>, top: NodeID) -> bool {
    &&& forall|n: NodeID| after.contains_key(n) <==> before.contains_key(n) && descends(before, top, n)
    &&& forall|n: NodeID| after.contains_key(n) && n != top ==> #[trigger] after[n] == before[n]
    &&& after[top].parent is None
    &&& after[top].game == before[top].game
    &&& after[top].player == before[top].player
    &&& after[top].games == before[top].games
    &&& after[top].children == before[top].children
}

/// After the tree has been given the root `top`, a walk from `top` visits
/// exactly the nodes that hung below `top` before, `top` among them, and every
/// other node is gone.
pub proof fn lemma_reroot_keeps_the_subtree<G: Game>(
    before: Nodes<G>,
    after: Nodes<G>,
    top: NodeID,
    n: NodeID,
)
    requires
        subtree_of(before, after, top),
        is_tree(after, top),
    ensures
        after.contains_key(n) <==> before.contains_key(n) && descends(before, top, n),
        after.contains_key(n) ==> descends(after, top, n),
        after.contains_key(n) && n != top ==> after[n] == before[n],
{
    if after.contains_key(n) {
        lemma_tree_is_connected(after, top, n);
    }
}

/// Whether `after` holds nothing but a new root under `id`: a node without
/// parent, playouts or edges, for the position that `mv` leads to from `from`.
pub open spec fn fresh_root_of<G: Game>(after: Nodes<G>, id: NodeID, from: G, mv: G::Move) -> bool {
    &&& forall|n: NodeID| after.contains_key(n) <==> n == id
    &&& after[id].parent is None
    &&& after[id].games == 0
    &&& after[id].children@.len() == 0
    &&& after[id].player == after[id].game.to_move()
    &&& from.leads_to(mv, &after[id].game)
}

/// Whether the root of `m` has an edge for move `mv`.
pub open spec fn has_edge_for<G: Game>(m: Nodes<G>, root: NodeID, mv: G::Move) -> bool {
    exists|i: int| 0 <= i < m[root].children@.len() && (#[trigger] m[root].children@[i]).0 == mv
}

/// Makes the position after `mv` the root of the tree and returns its node.
///
/// Where the root has an edge for `mv`, the edge's target becomes the root and
/// keeps all that hangs below it, statistics included. Otherwise a new node for
/// the position after `mv` becomes the root. Every other node is discarded.
pub fn reroot<G: Game>(nodes: &mut NodeList<G>, root: NodeID, mv: &G::Move) -> (new_root: NodeID)
    requires
        old(nodes).is_tree(root),
        has_edge_for(old(nodes)@, root, *mv) || (old(nodes)@[root].game.allows(*mv) && old(
            nodes,
        ).fresh_id() < usize::MAX),
    ensures
        final(nodes).is_tree(new_root),
        has_edge_for(old(nodes)@, root, *mv) ==> {
            &&& old(nodes)@.contains_key(new_root)
            &&& has_edge_to(old(nodes)@, root, new_root)
            &&& exists|i: int|
                #![trigger old(nodes)@[root].children@[i]]
                0 <= i < old(nodes)@[root].children@.len() && old(nodes)@[root].children@[i].0 == *mv
                    && old(nodes)@[root].children@[i].1.node == new_root
            &&& subtree_of(old(nodes)@, final(nodes)@, new_root)
            &&& final(nodes).fresh_id() == old(nodes).fresh_id()
        },
        !has_edge_for(old(nodes)@, root, *mv) ==> {
            &&& new_root == old(nodes).fresh_id()
            &&& final(nodes).fresh_id() == new_root + 1
            &&& fresh_root_of(final(nodes)@, new_root, old(nodes)@[root].game, *mv)
        },
{
    let ghost before = nodes@;
    proof {
        nodes.lemma_ids_below_fresh();
        assert(node_sound(before, root));
    }
    let at = find_edge::<G>(&nodes.get(root).children, mv);
    let new_root_id = match at {
        Some(i) => {
            proof {
                assert(edge_sound(before, root, i as int));
            }
            nodes.get(root).children[i].1.node
        },
        None => {
            let next = nodes.get(root).game.make_move(mv);
            let state = *next.unwrap();
            nodes.add(MoveTreeNode::new_root(state))
        },
    };
    let mut new_rt = nodes.take(new_root_id);
    proof {
        lemma_tree_is_linked(before, root, new_root_id);
        if at is Some {
            lemma_linked_without(before, new_root_id, root);
        } else {
            assert(nodes@ =~= before);
        }
    }
    nodes.drop_node(root, new_root_id);
    new_rt.parent = None;
    nodes.restore(new_root_id, new_rt);
    proof {
        if at is Some {
            assert(has_edge_to(before, root, new_root_id));
            assert forall|n: NodeID| nodes@.contains_key(n) <==> before.contains_key(n) && descends(
                before,
                new_root_id,
                n,
            ) by {
                if before.contains_key(n) {
                    lemma_split(before, root, new_root_id, n);
                }
            }
            lemma_subtree_is_tree(before, root, new_root_id, nodes@);
        } else {
            assert forall|n: NodeID| nodes@.contains_key(n) <==> n == new_root_id by {
                if before.contains_key(n) {
                    lemma_tree_is_connected(before, root, n);
                    lemma_reaches_despite(before, root, new_root_id, n);
                }
            }
            assert(MoveTreeNode::<G>::games_below(nodes@[new_root_id].children@, 0) == 0);
            assert(node_sound(nodes@, new_root_id));
        }
    }
    new_root_id
}

/// The state of the engine: the search tree with its root, the playouts made
/// since the start, and, between the two halves of a search step, the path
/// that the step has selected.
pub struct Engine<G: Game> {
    nodes: NodeList<G>,
    root: NodeID,
    num_sims: u64,
    pending: Option<Selection>,
}

impl<G: Game> Engine<G> {
    /// The arena holds a search tree below the root, and a selected path, if
    /// there is one, is a path of that tree.
    pub closed spec fn wf(&self) -> bool {
        &&& self.nodes.is_tree(self.root)
        &&& self.pending matches Some(sel) ==> is_path(self.nodes@, self.root, sel.path@, sel.target)
    }

    /// The nodes of the search tree.
    pub closed spec fn tree(&self) -> Nodes<G> {
        self.nodes@
    }

    /// The root of the search tree.
    pub closed spec fn root(&self) -> NodeID {
        self.root
    }

    /// The identifier that the next node will get.
    pub closed spec fn fresh_id(&self) -> NodeID {
        self.nodes.fresh_id()
    }

    /// All playouts since the engine was made.
    pub closed spec fn total_sims(&self) -> u64 {
        self.num_sims
    }

    /// The path of the search step that has begun and not finished, if one has.
    pub closed spec fn pending(&self) -> Option<Selection> {
        self.pending
    }

    /// The engine holds a search tree.
    pub proof fn lemma_holds_tree(&self)
        requires
            self.wf(),
        ensures
            is_tree(self.tree(), self.root()),
            self.pending() matches Some(sel) ==> is_path(
                self.tree(),
                self.root(),
                sel.path@,
                sel.target,
            ),
    {
    }

    /// An engine for a game that starts from `game`: the tree is a root for that
    /// position, without edges or playouts.
    pub fn new(game: G) -> (engine: Self)
        ensures
            engine.wf(),
            engine.total_sims() == 0,
            engine.pending() is None,
            forall|n: NodeID| engine.tree().contains_key(n) <==> n == engine.root(),
            engine.tree()[engine.root()].game == game,
            engine.tree()[engine.root()].games == 0,
            engine.tree()[engine.root()].children@.len() == 0,
    {
        let mut nodes = NodeList::new();
        let root = nodes.add(MoveTreeNode::new_root(game));
        proof {
            assert(MoveTreeNode::<G>::games_below(nodes@[root].children@, 0) == 0);
            assert(node_sound(nodes@, root));
        }
        Engine { nodes, root, num_sims: 0, pending: None }
    }

    /// The arena that holds the search tree.
    pub fn nodes(&self) -> (nodes: &NodeList<G>)
        ensures
            nodes@ == self.tree(),
            nodes.fresh_id() == self.fresh_id(),
            self.wf() ==> nodes.is_tree(self.root()),
    {
        &self.nodes
    }

    /// The root of the search tree.
    pub fn root_id(&self) -> (root: NodeID)
        ensures
            root == self.root(),
    {
        self.root
    }

    /// All playouts since the engine was made.
    pub fn num_sims(&self) -> (total: u64)
        ensures
            total == self.total_sims(),
    {
        self.num_sims
    }

    /// The path of the search step that has begun and not finished, if one has.
    pub fn selected(&self) -> (sel: Option<&Selection>)
        ensures
            match sel {
                Some(found) => self.pending() == Some(*found),
                None => self.pending() is None,
            },
    {
        self.pending.as_ref()
    }

    /// Answers a query for the best move: the move of the most visited edge of
    /// the root with that edge's wins and playouts, and all playouts so far.
    pub fn info(&self) -> (answer: Response<'_, G>)
        requires
            self.wf(),
        ensures
            answer matches Response::Info { best_move, wins, games, total_sims } && {
                &&& total_sims == self.total_sims()
                &&& wins <= games
                &&& match best_move {
                    Some(mv) => exists|i: int|
                        #![trigger self.tree()[self.root()].children@[i]]
                        {
                            let edge = self.tree()[self.root()].children@[i];
                            &&& most_visited(self.tree()[self.root()].children@, i)
                            &&& *mv == edge.0
                            &&& wins == edge.1.wins
                            &&& games == edge.1.games
                        },
                    None => self.tree()[self.root()].children@.len() == 0 && wins == 0 && games == 0,
                }
            },
    {
        let rt = self.nodes.get(self.root);
        proof {
            assert(node_sound(self.nodes@, self.root));
        }
        match best_edge(&rt.children) {
            Some(i) => {
                proof {
                    assert(edge_sound(self.nodes@, self.root, i as int));
                }
                Response::Info {
                    best_move: Some(&rt.children[i].0),
                    wins: rt.children[i].1.wins,
                    games: rt.children[i].1.games,
                    total_sims: self.num_sims,
                }
            },
            None => Response::Info { best_move: None, wins: 0, games: 0, total_sims: self.num_sims },
        }
    }

    /// Whether `mv` can be committed: the root has an edge for it, or the move
    /// is allowed in the root's position and the arena has an identifier left.
    pub open spec fn can_commit(&self, mv: G::Move) -> bool {
        has_edge_for(self.tree(), self.root(), mv) || (self.tree()[self.root()].game.allows(mv)
            && self.fresh_id() < usize::MAX)
    }

    /// Tells whether `mv` can be committed.
    pub fn accepts(&self, mv: &G::Move) -> (ok: bool)
        requires
            self.wf(),
        ensures
            ok == self.can_commit(*mv),
    {
        let rt = self.nodes.get(self.root);
        match find_edge::<G>(&rt.children, mv) {
            Some(_) => true,
            None => self.nodes.room() > 0 && rt.game.make_move(mv).is_some(),
        }
    }

    /// Commits the move `mv`: the position after it becomes the root. A search
    /// step that has begun is given up.
    pub fn make_move(&mut self, mv: G::Move)
        requires
            old(self).wf(),
            old(self).can_commit(mv),
        ensures
            final(self).wf(),
            final(self).pending() is None,
            final(self).total_sims() == old(self).total_sims(),
            has_edge_for(old(self).tree(), old(self).root(), mv) ==> {
                &&& exists|i: int|
                    #![trigger old(self).tree()[old(self).root()].children@[i]]
                    {
                        let edge = old(self).tree()[old(self).root()].children@[i];
                        0 <= i < old(self).tree()[old(self).root()].children@.len() && edge.0 == mv
                            && edge.1.node == final(self).root()
                    }
                &&& subtree_of(old(self).tree(), final(self).tree(), final(self).root())
                &&& final(self).fresh_id() == old(self).fresh_id()
            },
            !has_edge_for(old(self).tree(), old(self).root(), mv) ==> {
                &&& final(self).root() == old(self).fresh_id()
                &&& fresh_root_of(
                    final(self).tree(),
                    final(self).root(),
                    old(self).tree()[old(self).root()].game,
                    mv,
                )
            },
    {
        self.root = reroot(&mut self.nodes, self.root, &mv);
        self.pending = None;
    }

    /// Begins a search step: selects a path, expanding a leaf if it ends at one,
    /// and returns a copy of the position to simulate from. Returns `None`, with
    /// the tree as it was and no step begun, where a leaf is to be expanded and the arena has
    /// too few identifiers left.
    pub fn begin_step(&mut self) -> (job: Option<G>)
        requires
            old(self).wf(),
        ensures
            final(self).wf(),
            final(self).root() == old(self).root(),
            final(self).total_sims() == old(self).total_sims(),
            match job {
                Some(state) => {
                    &&& final(self).pending() matches Some(sel)
                    &&& is_selection(final(self).tree(), final(self).root(), sel.path@, sel.target)
                    &&& cloned(final(self).tree()[sel.target].game, state)
                    &&& grown(old(self).tree(), final(self).tree(), old(self).fresh_id())
                },
                None => {
                    &&& final(self).pending() is None
                    &&& final(self).tree() == old(self).tree()
                    &&& exists|k: NodeID|
                        old(self).tree().contains_key(k) && old(self).fresh_id() + (
                        #[trigger] old(self).tree()[k]).game.moves().len() > usize::MAX
                },
            },
    {
        match select(&mut self.nodes, self.root) {
            Some(sel) => {
                let state = self.nodes.get(sel.target).game.clone();
                self.pending = Some(sel);
                Some(state)
            },
            None => {
                self.pending = None;
                None
            },
        }
    }

    /// Whether the step that has begun can be finished with a tally of
    /// `playouts`: a step has begun, and the counters along its path and the
    /// count of all playouts have room.
    pub open spec fn can_finish(&self, playouts: nat) -> bool {
        &&& self.pending() matches Some(sel)
        &&& absorbs(self.tree(), sel.path@, playouts)
        &&& self.total_sims() + playouts <= u64::MAX
    }

    /// Finishes the search step that has begun: folds `tally` into the path
    /// that was selected, scoring edges with `score`, and returns the number of
    /// playouts in it. Returns `None`, with the tree as it was, where no step
    /// has begun or a counter has no room. Either way no step is pending after.
    pub fn finish_step<F: Fn(u32, u32, u32) -> u64>(&mut self, tally: &Tally<G>, score: &F) -> (done:
        Option<u32>)
        requires
            old(self).wf(),
            tally.wf(),
            forall|w: u32, g: u32, t: u32| g > 0 ==> call_requires(*score, (w, g, t)),
        ensures
            final(self).wf(),
            final(self).pending() is None,
            final(self).root() == old(self).root(),
            final(self).fresh_id() == old(self).fresh_id(),
            done is Some <==> old(self).can_finish(tally.played()),
            match done {
                Some(num_sims) => {
                    &&& num_sims == tally.played()
                    &&& final(self).total_sims() == old(self).total_sims() + num_sims
                    &&& folded_along(
                        old(self).tree(),
                        final(self).tree(),
                        old(self).pending()->0.path@,
                        *tally,
                        *score,
                    )
                },
                None => {
                    &&& final(self).tree() == old(self).tree()
                    &&& final(self).total_sims() == old(self).total_sims()
                },
            },
    {
        let pending = self.pending.take();
        match pending {
            Some(sel) => {
                if !can_absorb(&self.nodes, self.root, &sel, tally) {
                    return None;
                }
                if tally.playouts() as u64 > u64::MAX - self.num_sims {
                    return None;
                }
                let num_sims = backpropagate(&mut self.nodes, self.root, &sel, tally, score);
                self.num_sims += num_sims as u64;
                Some(num_sims)
            },
            None => None,
        }
    }

    /// Handles one request of the controller and gives the answer to send back.
    pub fn handle<'a>(&'a mut self, request: Request<G>) -> (answer: Response<'a, G>)
        requires
            old(self).wf(),
            request matches Request::MakeMove(mv) ==> old(self).can_commit(mv),
        ensures
            final(self).wf(),
            final(self).total_sims() == old(self).total_sims(),
            match request {
                Request::Info => {
                    &&& final(self).tree() == old(self).tree()
                    &&& final(self).root() == old(self).root()
                    &&& final(self).pending() == old(self).pending()
                    &&& answer matches Response::Info { best_move, wins, games, total_sims }
                    &&& total_sims == old(self).total_sims()
                    &&& wins <= games
                    &&& match best_move {
                        Some(mv) => exists|i: int|
                            #![trigger old(self).tree()[old(self).root()].children@[i]]
                            {
                                let edge = old(self).tree()[old(self).root()].children@[i];
                                &&& most_visited(old(self).tree()[old(self).root()].children@, i)
                                &&& *mv == edge.0
                                &&& wins == edge.1.wins
                                &&& games == edge.1.games
                            },
                        None => old(self).tree()[old(self).root()].children@.len() == 0 && wins == 0
                            && games == 0,
                    }
                },
                Request::MakeMove(mv) => {
                    &&& answer is Ack
                    &&& final(self).pending() is None
                    &&& has_edge_for(old(self).tree(), old(self).root(), mv) ==> subtree_of(
                        old(self).tree(),
                        final(self).tree(),
                        final(self).root(),
                    ) && has_edge_to(old(self).tree(), old(self).root(), final(self).root())
                    &&& !has_edge_for(old(self).tree(), old(self).root(), mv) ==> fresh_root_of(
                        final(self).tree(),
                        final(self).root(),
                        old(self).tree()[old(self).root()].game,
                        mv,
                    )
                },
            },
    {
        match request {
            Request::Info => self.info(),
            Request::MakeMove(mv) => {
                self.make_move(mv);
                Response::Ack
            },
        }
    }
}

} // verus!
