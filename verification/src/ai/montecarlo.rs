//! One search step, in two halves: selection, which walks from the root to the
//! node to simulate from and expands a leaf on the way, and backpropagation,
//! which folds the tally of a batch of playouts into the path that was walked.

use super::arena::{
    edge_sound, has_edge_to, is_tree, lemma_games_below_bounds, lemma_unplayed_outranks_played,
    moves_of, node_sound, NodeList, Nodes,
};
use super::game::Game;
use super::rollout::{choose_from, run_batch, Tally};
use super::tree::{Child, MoveTreeNode, NodeID, Score};
use vstd::prelude::*;

verus! {

/// The highest rank among the scores of the first `upto` edges, and zero where
/// there is none.
pub open spec fn best_rank<M>(edges: Seq<(M, Child)>, upto: int) -> int
    decreases upto,
{
    if upto <= 0 {
        0
    } else if edges[upto - 1].1.uct.rank() > best_rank(edges, upto - 1) {
        edges[upto - 1].1.uct.rank()
    } else {
        best_rank(edges, upto - 1)
    }
}

/// Which of the first `upto` edges have a score of rank `rank`, in rising order.
pub open spec fn ranked_at<M>(edges: Seq<(M, Child)>, upto: int, rank: int) -> Seq<usize>
    decreases upto,
{
    if upto <= 0 {
        Seq::empty()
    } else if edges[upto - 1].1.uct.rank() == rank {
        ranked_at(edges, upto - 1, rank).push((upto - 1) as usize)
    } else {
        ranked_at(edges, upto - 1, rank)
    }
}

/// Whether no edge of the list outranks edge `i`.
pub open spec fn top_ranked<M>(edges: Seq<(M, Child)>, i: int) -> bool {
    0 <= i < edges.len() && edges[i].1.uct.rank() == best_rank(edges, edges.len() as int)
}

/// No edge ranks above the best rank, and some edge attains it.
pub proof fn lemma_best_rank<M>(edges: Seq<(M, Child)>, upto: int)
    requires
        0 <= upto <= edges.len(),
    ensures
        0 <= best_rank(edges, upto),
        forall|j: int| 0 <= j < upto ==> (#[trigger] edges[j]).1.uct.rank() <= best_rank(edges, upto),
        upto > 0 ==> exists|j: int|
            0 <= j < upto && (#[trigger] edges[j]).1.uct.rank() == best_rank(edges, upto),
    decreases upto,
{
    if upto > 0 {
        lemma_best_rank(edges, upto - 1);
        if upto > 1 {
            let j = choose|j: int|
                0 <= j < upto - 1 && (#[trigger] edges[j]).1.uct.rank() == best_rank(edges, upto - 1);
            if edges[upto - 1].1.uct.rank() > best_rank(edges, upto - 1) {
                assert(edges[upto - 1].1.uct.rank() == best_rank(edges, upto));
            } else {
                assert(edges[j].1.uct.rank() == best_rank(edges, upto));
            }
        } else {
            assert(edges[0].1.uct.rank() == best_rank(edges, upto));
        }
    }
}

/// What `ranked_at` lists: the edges of that rank, each of them, in rising order.
pub proof fn lemma_ranked_at<M>(edges: Seq<(M, Child)>, upto: int, rank: int)
    requires
        0 <= upto <= edges.len(),
        upto <= usize::MAX,
    ensures
        forall|k: int|
            0 <= k < ranked_at(edges, upto, rank).len() ==> {
                let i = #[trigger] ranked_at(edges, upto, rank)[k];
                i < upto && edges[i as int].1.uct.rank() == rank
            },
        forall|j: int|
            0 <= j < upto && (#[trigger] edges[j]).1.uct.rank() == rank ==> ranked_at(
                edges,
                upto,
                rank,
            ).contains(j as usize),
        (forall|j: int| 0 <= j < upto ==> (#[trigger] edges[j]).1.uct.rank() != rank) ==> ranked_at(
            edges,
            upto,
            rank,
        ).len() == 0,
    decreases upto,
{
    if upto > 0 {
        lemma_ranked_at(edges, upto - 1, rank);
        let rest = ranked_at(edges, upto - 1, rank);
        let all = ranked_at(edges, upto, rank);
        assert forall|k: int| 0 <= k < all.len() implies {
            let i = #[trigger] all[k];
            i < upto && edges[i as int].1.uct.rank() == rank
        } by {
            if k < rest.len() {
                assert(all[k] == rest[k]);
            }
        }
        assert forall|j: int|
            0 <= j < upto && (#[trigger] edges[j]).1.uct.rank() == rank implies all.contains(
            j as usize,
        ) by {
            if j < upto - 1 {
                let k = choose|k: int| 0 <= k < rest.len() && rest[k] == j as usize;
                assert(all[k] == j as usize);
            } else {
                assert(all[rest.len() as int] == j as usize);
            }
        }
    }
}

/// The highest score of a list of edges, and which edges have it. For an empty
/// list: the finite score zero and no edge.
pub fn all_max<M>(list: &Vec<(M, Child)>) -> (found: (Score, Vec<usize>))
    ensures
        found.0.rank() == best_rank(list@, list@.len() as int),
        found.1@ == ranked_at(list@, list@.len() as int, found.0.rank()),
{
    let mut max = Score::Finite(0);
    let mut items: Vec<usize> = Vec::new();
    let mut i: usize = 0;
    while i < list.len()
        invariant
            i <= list.len(),
            max.rank() == best_rank(list@, i as int),
            items@ == ranked_at(list@, i as int, max.rank()),
        decreases list.len() - i,
    {
        let uct = list[i].1.uct;
        if uct.ties(&max) {
            items.push(i);
        } else if uct.outranks(&max) {
            proof {
                lemma_best_rank(list@, i as int);
                lemma_ranked_at(list@, i as int, uct.rank());
            }
            max = uct;
            items = Vec::new();
            items.push(i);
        }
        i += 1;
    }
    (max, items)
}

/// Selection prefers what has not been tried: at a node of a search tree that
/// has an edge without playouts, every edge that no other outranks is without
/// playouts itself.
pub proof fn lemma_selection_prefers_unplayed<G: Game>(
    m: Nodes<G>,
    root: NodeID,
    k: NodeID,
    chosen: int,
    unplayed: int,
)
    requires
        is_tree(m, root),
        m.contains_key(k),
        top_ranked(m[k].children@, chosen),
        0 <= unplayed < m[k].children@.len(),
        m[k].children@[unplayed].1.games == 0,
    ensures
        m[k].children@[chosen].1.games == 0,
        m[k].children@[chosen].1.uct is Infinite,
{
    lemma_best_rank(m[k].children@, m[k].children@.len() as int);
    if m[k].children@[chosen].1.games > 0 {
        lemma_unplayed_outranks_played(m, root, k, unplayed, chosen);
        assert(m[k].children@[unplayed].1.uct.rank() <= best_rank(
            m[k].children@,
            m[k].children@.len() as int,
        ));
    }
    assert(node_sound(m, k));
    assert(edge_sound(m, k, chosen));
}

/// One of the edges that no other edge outranks, with its score. Among several
/// such edges chance decides.
pub fn pick<M>(edges: &Vec<(M, Child)>) -> (choice: (usize, Score))
    requires
        edges@.len() > 0,
    ensures
        top_ranked(edges@, choice.0 as int),
        choice.1 == edges@[choice.0 as int].1.uct,
{
    let (max, ties) = all_max(edges);
    let count = edges.len();
    proof {
        lemma_best_rank(edges@, edges@.len() as int);
        lemma_ranked_at(edges@, edges@.len() as int, max.rank());
        let j = choose|j: int|
            0 <= j < edges@.len() && (#[trigger] edges@[j]).1.uct.rank() == best_rank(
                edges@,
                edges@.len() as int,
            );
        assert(ties@.contains(j as usize));
    }
    let picked = choose_from(&ties);
    let index = *picked.unwrap();
    proof {
        let k = choose|k: int| 0 <= k < ties@.len() && ties@[k] == index;
        assert(ranked_at(edges@, edges@.len() as int, max.rank())[k] == index);
    }
    (index, edges[index].1.uct)
}

/// Whether `after` is `before` with node `k` expanded: `k` has got one edge for
/// each move of its position, in the game's order, none of them played yet.
/// Edge `i` leads to a new node under the identifier `first + i`, which holds the
/// position after the move and has no edges of its own. Nothing else has changed.
pub open spec fn expansion_of<G: Game>(
    before: Nodes<G>,
    after: Nodes<G>,
    k: NodeID,
    first: NodeID,
) -> bool {
    let moves = before[k].game.moves();
    &&& before.contains_key(k)
    &&& before[k].children@.len() == 0
    &&& forall|n: NodeID|
        after.contains_key(n) <==> before.contains_key(n) || first <= n < first + moves.len()
    &&& forall|n: NodeID| before.contains_key(n) && n != k ==> #[trigger] after[n] == before[n]
    &&& after[k].game == before[k].game
    &&& after[k].player == before[k].player
    &&& after[k].games == before[k].games
    &&& after[k].parent == before[k].parent
    &&& moves_of::<G>(after[k].children@) == moves
    &&& moves.no_duplicates()
    &&& forall|i: int|
        0 <= i < moves.len() ==> {
            let edge = (#[trigger] after[k].children@[i]).1;
            let made = after[edge.node];
            &&& edge == (Child { games: 0, wins: 0, uct: Score::Infinite, simulations: 0, node: edge.node })
            &&& edge.node == first + i
            &&& made.parent == Some(k)
            &&& made.games == 0
            &&& made.children@.len() == 0
            &&& made.player == made.game.to_move()
            &&& before[k].game.allows(moves[i])
            &&& before[k].game.leads_to(moves[i], &made.game)
            &&& made.game.horizon() < before[k].game.horizon()
        }
}

/// Expanding a node of a search tree gives a search tree.
pub proof fn lemma_expansion_keeps_tree<G: Game>(
    before: Nodes<G>,
    after: Nodes<G>,
    root: NodeID,
    k: NodeID,
    first: NodeID,
)
    requires
        is_tree(before, root),
        expansion_of(before, after, k, first),
        forall|n: NodeID| before.contains_key(n) ==> n < first,
    ensures
        is_tree(after, root),
{
    let moves = before[k].game.moves();
    assert(after[k].children@.len() == moves.len()) by {
        assert(moves_of::<G>(after[k].children@).len() == moves.len());
    }
    assert(node_sound(before, root));
    assert(root != k ==> after[root] == before[root]);
    assert forall|n: NodeID| after.contains_key(n) implies #[trigger] node_sound(after, n) by {
        if before.contains_key(n) && n != k {
            assert(node_sound(before, n));
            assert(after[n] == before[n]);
            assert forall|i: int| 0 <= i < after[n].children@.len() implies #[trigger] edge_sound(
                after,
                n,
                i,
            ) by {
                assert(edge_sound(before, n, i));
                let t = before[n].children@[i].1.node;
                if t != k {
                    assert(after[t] == before[t]);
                }
            }
            if after[n].parent is Some {
                let p = after[n].parent->0;
                assert(has_edge_to(before, p, n));
                assert(p != k);
                assert(after[p] == before[p]);
                let i = choose|i: int|
                    0 <= i < before[p].children@.len() && (#[trigger] before[p].children@[i]).1.node
                        == n;
                assert(after[p].children@[i].1.node == n);
            }
        } else if n == k {
            assert(node_sound(before, k));
            assert forall|i: int, j: int| 0 <= i < j < after[k].children@.len() implies (
            #[trigger] after[k].children@[i]).0 != (#[trigger] after[k].children@[j]).0
                && after[k].children@[i].1.node != after[k].children@[j].1.node by {
                assert(moves_of::<G>(after[k].children@)[i] == moves[i]);
                assert(moves_of::<G>(after[k].children@)[j] == moves[j]);
            }
            lemma_no_games_below::<G>(after[k].children@, after[k].children@.len() as int);
            assert(MoveTreeNode::<G>::games_below(before[k].children@, 0) == 0);
            assert forall|i: int| 0 <= i < after[k].children@.len() implies #[trigger] edge_sound(
                after,
                k,
                i,
            ) by {
                assert(moves_of::<G>(after[k].children@)[i] == moves[i]);
            }
            if after[k].parent is Some {
                let p = after[k].parent->0;
                assert(has_edge_to(before, p, k));
                let i = choose|i: int|
                    0 <= i < before[p].children@.len() && (#[trigger] before[p].children@[i]).1.node
                        == k;
                assert(after[p].children@[i].1.node == k);
            }
        } else {
            let i = n - first;
            let edge = after[k].children@[i].1;
            assert(edge.node == n);
            assert(MoveTreeNode::<G>::games_below(after[n].children@, 0) == 0);
            assert(has_edge_to(after, k, n));
        }
    }
    assert forall|n: NodeID| after.contains_key(n) && (#[trigger] after[n]).parent is None implies n
        == root by {
        if before.contains_key(n) {
            assert(before[n].parent is None);
        } else {
            let i = n - first;
            let edge = after[k].children@[i].1;
            assert(edge.node == n);
        }
    }
}

/// Edges without playouts add up to no playouts.
pub proof fn lemma_no_games_below<G: Game>(edges: Seq<(G::Move, Child)>, upto: int)
    requires
        0 <= upto <= edges.len(),
        forall|i: int| 0 <= i < edges.len() ==> (#[trigger] edges[i]).1.games == 0,
    ensures
        MoveTreeNode::<G>::games_below(edges, upto) == 0,
    decreases upto,
{
    if upto > 0 {
        lemma_no_games_below::<G>(edges, upto - 1);
    }
}

/// Expands the leaf `id`: gives it one edge for each move of its position, each
/// to a new node that holds the position after the move. Does nothing, and says
/// so, where the arena has not that many identifiers left.
pub fn expand<G: Game>(nodes: &mut NodeList<G>, root: NodeID, id: NodeID) -> (done: bool)
    requires
        old(nodes).is_tree(root),
        old(nodes)@.contains_key(id),
        old(nodes)@[id].children@.len() == 0,
    ensures
        final(nodes).is_tree(root),
        done <==> old(nodes).fresh_id() + old(nodes)@[id].game.moves().len() <= usize::MAX,
        done ==> expansion_of(old(nodes)@, final(nodes)@, id, old(nodes).fresh_id()),
        done ==> final(nodes).fresh_id() == old(nodes).fresh_id() + old(nodes)@[id].game.moves().len(),
        !done ==> final(nodes)@ == old(nodes)@ && final(nodes).fresh_id() == old(nodes).fresh_id(),
{
    let ghost before = nodes@;
    let ghost first = nodes.fresh_id();
    let moves = nodes.get(id).game.available_moves();
    if moves.len() > nodes.room() {
        return false;
    }
    let ghost listed = moves@;
    proof {
        nodes.lemma_ids_below_fresh();
    }
    let mut node = nodes.take(id);
    for mv in it: moves
        invariant
            it.seq() == listed,
            listed == before[id].game.moves(),
            listed.no_duplicates(),
            forall|m: G::Move| listed.contains(m) <==> before[id].game.allows(m),
            first + listed.len() <= usize::MAX,
            nodes.wf(),
            nodes.fresh_id() == first + it.index(),
            id < first,
            before.contains_key(id),
            forall|n: NodeID|
                nodes@.contains_key(n) <==> (before.contains_key(n) && n != id) || first <= n < first
                    + it.index(),
            forall|n: NodeID| before.contains_key(n) ==> n < first,
            forall|n: NodeID| before.contains_key(n) && n != id ==> #[trigger] nodes@[n] == before[n],
            node.game == before[id].game,
            node.player == before[id].player,
            node.games == before[id].games,
            node.parent == before[id].parent,
            node.children@.len() == it.index(),
            forall|i: int|
                0 <= i < it.index() ==> {
                    let edge = (#[trigger] node.children@[i]).1;
                    let made = nodes@[edge.node];
                    &&& node.children@[i].0 == listed[i]
                    &&& edge == (Child {
                        games: 0,
                        wins: 0,
                        uct: Score::Infinite,
                        simulations: 0,
                        node: edge.node,
                    })
                    &&& edge.node == first + i
                    &&& made.parent == Some(id)
                    &&& made.games == 0
                    &&& made.children@.len() == 0
                    &&& made.player == made.game.to_move()
                    &&& before[id].game.leads_to(listed[i], &made.game)
                    &&& made.game.horizon() < before[id].game.horizon()
                },
    {
        assert(listed.contains(mv));
        let next = node.game.make_move(&mv);
        let new_game = *next.unwrap();
        let new_node = nodes.add(MoveTreeNode::new(new_game, id));
        node.children.push((mv, Child::fresh(new_node)));
    }
    nodes.restore(id, node);
    proof {
        assert(moves_of::<G>(nodes@[id].children@) =~= listed);
        assert forall|i: int| 0 <= i < listed.len() implies before[id].game.allows(listed[i]) by {
            assert(listed.contains(listed[i]));
        }
        assert(expansion_of(before, nodes@, id, first));
        lemma_expansion_keeps_tree(before, nodes@, root, id, first);
    }
    true
}

/// What selection hands to backpropagation.
pub struct Selection {
    /// The edges walked, from the root down: each as the node it leaves and its
    /// place among the edges of that node.
    pub path: Vec<(NodeID, usize)>,
    /// The node whose position the playouts start from.
    pub target: NodeID,
}

/// The edge that a step of a path walks.
pub open spec fn edge_at<G: Game>(m: Nodes<G>, step: (NodeID, usize)) -> Child {
    m[step.0].children@[step.1 as int].1
}

/// Whether `path` leads from `root` to `target` along edges of `m`. The empty
/// path leads from the root to the root.
pub open spec fn is_path<G: Game>(
    m: Nodes<G>,
    root: NodeID,
    path: Seq<(NodeID, usize)>,
    target: NodeID,
) -> bool {
    &&& if path.len() == 0 {
        target == root
    } else {
        path[0].0 == root && edge_at(m, path[path.len() - 1]).node == target
    }
    &&& m.contains_key(target)
    &&& forall|i: int|
        0 <= i < path.len() ==> {
            let step = #[trigger] path[i];
            &&& m.contains_key(step.0)
            &&& step.1 < m[step.0].children@.len()
        }
    &&& forall|i: int, j: int|
        0 <= i && j == i + 1 && j < path.len() ==> edge_at(m, #[trigger] path[i]).node == (
        #[trigger] path[j]).0
}

/// Whether `path` is one that selection may walk in `m`. At each node it takes an
/// edge that no other edge of the node outranks. It goes on through edges with
/// finite scores only, and it ends in one of two ways: with the first edge whose
/// score is infinite, or at a node without edges whose position has no moves.
pub open spec fn is_selection<G: Game>(
    m: Nodes<G>,
    root: NodeID,
    path: Seq<(NodeID, usize)>,
    target: NodeID,
) -> bool {
    &&& is_path(m, root, path, target)
    &&& forall|i: int|
        0 <= i < path.len() ==> top_ranked(m[(#[trigger] path[i]).0].children@, path[i].1 as int)
    &&& forall|i: int| 0 <= i < path.len() - 1 ==> edge_at(m, #[trigger] path[i]).uct is Finite
    &&& {
        ||| path.len() > 0 && edge_at(m, path.last()).uct is Infinite
        ||| m[target].children@.len() == 0 && m[target].game.moves().len() == 0 && (path.len() > 0
            ==> edge_at(m, path.last()).uct is Finite)
    }
}

/// Whether selection may have turned `before` into `after`: either nothing has
/// changed, or one leaf has been expanded.
pub open spec fn grown<G: Game>(before: Nodes<G>, after: Nodes<G>, first: NodeID) -> bool {
    after == before || exists|k: NodeID| expansion_of(before, after, k, first)
}

/// The first half of a search step. Walks down from the root, at each node
/// along an edge of the highest score, chance deciding among equals. An edge
/// with an infinite score ends the walk, and its target is what to simulate.
/// A node without edges is expanded; if its position has no moves, that node
/// is what to simulate.
///
/// Returns `None`, and leaves the tree as it was, where a node is to be
/// expanded and the arena has too few identifiers left for its moves.
pub fn select<G: Game>(nodes: &mut NodeList<G>, root: NodeID) -> (found: Option<Selection>)
    requires
        old(nodes).is_tree(root),
    ensures
        final(nodes).is_tree(root),
        match found {
            Some(sel) => {
                &&& is_selection(final(nodes)@, root, sel.path@, sel.target)
                &&& grown(old(nodes)@, final(nodes)@, old(nodes).fresh_id())
            },
            None => {
                &&& final(nodes)@ == old(nodes)@
                &&& final(nodes).fresh_id() == old(nodes).fresh_id()
                &&& exists|k: NodeID|
                    old(nodes)@.contains_key(k) && old(nodes).fresh_id() + (
                    #[trigger] old(nodes)@[k]).game.moves().len() > usize::MAX
            },
        },
{
    let ghost before = nodes@;
    let ghost first = nodes.fresh_id();
    let mut cur_node_id = root;
    let mut path: Vec<(NodeID, usize)> = Vec::new();
    loop
        invariant
            before == old(nodes)@,
            first == old(nodes).fresh_id(),
            nodes.is_tree(root),
            nodes@ == before,
            nodes.fresh_id() == first,
            is_path(nodes@, root, path@, cur_node_id),
            forall|i: int|
                0 <= i < path@.len() ==> top_ranked(
                    nodes@[(#[trigger] path@[i]).0].children@,
                    path@[i].1 as int,
                ),
            forall|i: int| 0 <= i < path@.len() ==> edge_at(nodes@, #[trigger] path@[i]).uct is Finite,
        decreases nodes@[cur_node_id].game.horizon(),
    {
        let ghost walked = path@;
        let ghost here = cur_node_id;
        if nodes.get(cur_node_id).children.len() == 0 {
            // Expand
            if !expand(nodes, root, cur_node_id) {
                return None;
            }
            if nodes.get(cur_node_id).children.len() == 0 {
                proof {
                    assert(moves_of::<G>(nodes@[here].children@).len() == 0);
                    lemma_path_after_expansion(before, nodes@, root, here, first, walked, here);
                }
                return Some(Selection { path, target: cur_node_id });
            }
        }
        let node = nodes.get(cur_node_id);
        let (index, max_val) = pick(&node.children);
        path.push((cur_node_id, index));
        cur_node_id = node.children[index].1.node;
        proof {
            assert(node_sound(nodes@, here));
            assert(edge_sound(nodes@, here, index as int));
            if nodes@ != before {
                lemma_path_after_expansion(before, nodes@, root, here, first, walked, here);
                assert(nodes@[here].children@[index as int].1.uct is Infinite);
            }
            assert forall|i: int| 0 <= i < path@.len() implies {
                let step = #[trigger] path@[i];
                &&& nodes@.contains_key(step.0)
                &&& step.1 < nodes@[step.0].children@.len()
                &&& top_ranked(nodes@[step.0].children@, step.1 as int)
            } by {
                if i < walked.len() {
                    assert(path@[i] == walked[i]);
                }
            }
            assert forall|i: int, j: int| 0 <= i && j == i + 1 && j < path@.len() implies edge_at(
                nodes@,
                #[trigger] path@[i],
            ).node == (#[trigger] path@[j]).0 by {
                assert(path@[i] == walked[i]);
                if j < walked.len() {
                    assert(path@[j] == walked[j]);
                } else {
                    assert(walked[walked.len() - 1] == walked[i]);
                }
            }
            assert(path@[path@.len() - 1] == (here, index));
            assert forall|i: int| 0 <= i < path@.len() - 1 implies edge_at(
                nodes@,
                #[trigger] path@[i],
            ).uct is Finite by {
                assert(path@[i] == walked[i]);
            }
        }
        if max_val.is_infinite() {
            // simulate this node
            return Some(Selection { path, target: cur_node_id });
        }
        // otherwise, select again from this node
    }
}

/// A path that ends at a leaf stays a path, with the same scores along it,
/// when the leaf is expanded.
pub proof fn lemma_path_after_expansion<G: Game>(
    before: Nodes<G>,
    after: Nodes<G>,
    root: NodeID,
    k: NodeID,
    first: NodeID,
    path: Seq<(NodeID, usize)>,
    target: NodeID,
)
    requires
        is_tree(before, root),
        expansion_of(before, after, k, first),
        is_path(before, root, path, target),
        target == k,
    ensures
        is_path(after, root, path, target),
        forall|i: int|
            0 <= i < path.len() ==> before[(#[trigger] path[i]).0].children@ == after[path[i].0].children@,
{
    assert forall|i: int| 0 <= i < path.len() implies (#[trigger] path[i]).0 != k by {
        // a node with an edge is not the leaf
    }
}

/// Whether `after` is `before` once a batch has been folded into its edge `at`:
/// the node and the edge have `playouts` more playouts, the edge has `wins` more
/// wins and has been chosen once more. Every edge of the node that has playouts
/// has its score anew, from `score` applied to the edge's wins, the edge's
/// playouts and the node's playouts; an edge without playouts keeps its score.
pub open spec fn folded<G: Game, F: Fn(u32, u32, u32) -> u64>(
    before: MoveTreeNode<G>,
    after: MoveTreeNode<G>,
    at: int,
    playouts: nat,
    wins: nat,
    score: F,
) -> bool {
    &&& after.game == before.game
    &&& after.player == before.player
    &&& after.parent == before.parent
    &&& after.games == before.games + playouts
    &&& after.children@.len() == before.children@.len()
    &&& forall|j: int|
        0 <= j < before.children@.len() ==> {
            let was = before.children@[j];
            let now = #[trigger] after.children@[j];
            &&& now.0 == was.0
            &&& now.1.node == was.1.node
            &&& now.1.games == was.1.games + if j == at {
                playouts
            } else {
                0
            }
            &&& now.1.wins == was.1.wins + if j == at {
                wins
            } else {
                0
            }
            &&& now.1.simulations == was.1.simulations + if j == at {
                1nat
            } else {
                0
            }
            &&& if now.1.games == 0 {
                now.1.uct == was.1.uct
            } else {
                now.1.uct matches Score::Finite(key) && call_ensures(
                    score,
                    (now.1.wins, now.1.games, after.games),
                    key,
                )
            }
        }
}

/// Whether the counters along `path` have room for a batch of `playouts`.
pub open spec fn absorbs<G: Game>(m: Nodes<G>, path: Seq<(NodeID, usize)>, playouts: nat) -> bool {
    forall|i: int|
        0 <= i < path.len() ==> m[(#[trigger] path[i]).0].games + playouts <= u32::MAX && edge_at(
            m,
            path[i],
        ).simulations < u32::MAX
}

/// Whether a step of `path` leaves node `n`.
pub open spec fn on_path(path: Seq<(NodeID, usize)>, n: NodeID) -> bool {
    exists|i: int| 0 <= i < path.len() && (#[trigger] path[i]).0 == n
}

/// Along a path in a search tree the identifiers rise.
pub proof fn lemma_path_rises<G: Game>(
    m: Nodes<G>,
    root: NodeID,
    path: Seq<(NodeID, usize)>,
    target: NodeID,
    i: int,
    j: int,
)
    requires
        is_tree(m, root),
        is_path(m, root, path, target),
        0 <= i < j < path.len(),
    ensures
        path[i].0 < path[j].0,
    decreases j - i,
{
    let step = path[j - 1];
    let next = path[j];
    assert(node_sound(m, step.0));
    assert(edge_sound(m, step.0, step.1 as int));
    assert(edge_at(m, step).node == next.0);
    if i < j - 1 {
        lemma_path_rises(m, root, path, target, i, j - 1);
    }
}

/// Playouts added to one edge are added to the sum.
pub proof fn lemma_games_below_grows<G: Game>(
    was: Seq<(G::Move, Child)>,
    now: Seq<(G::Move, Child)>,
    upto: int,
    at: int,
    playouts: nat,
)
    requires
        0 <= upto <= was.len(),
        was.len() == now.len(),
        0 <= at < was.len(),
        forall|j: int|
            0 <= j < was.len() ==> (#[trigger] now[j]).1.games == was[j].1.games + if j == at {
                playouts
            } else {
                0
            },
    ensures
        MoveTreeNode::<G>::games_below(now, upto) == MoveTreeNode::<G>::games_below(was, upto) + if at
            < upto {
            playouts
        } else {
            0
        },
    decreases upto,
{
    if upto > 0 {
        lemma_games_below_grows::<G>(was, now, upto - 1, at, playouts);
        assert(now[upto - 1].1.games == was[upto - 1].1.games + if upto - 1 == at {
            playouts
        } else {
            0
        });
    }
}

/// Folding a batch into an edge of a search tree gives a search tree.
pub proof fn lemma_fold_keeps_tree<G: Game, F: Fn(u32, u32, u32) -> u64>(
    before: Nodes<G>,
    after: Nodes<G>,
    root: NodeID,
    id: NodeID,
    at: int,
    playouts: nat,
    wins: nat,
    score: F,
)
    requires
        is_tree(before, root),
        before.contains_key(id),
        0 <= at < before[id].children@.len(),
        wins <= playouts,
        forall|n: NodeID| after.contains_key(n) <==> before.contains_key(n),
        forall|n: NodeID| before.contains_key(n) && n != id ==> #[trigger] after[n] == before[n],
        folded(before[id], after[id], at, playouts, wins, score),
    ensures
        is_tree(after, root),
{
    assert forall|n: NodeID| after.contains_key(n) implies #[trigger] node_sound(after, n) by {
        assert(node_sound(before, n));
        assert forall|i: int| 0 <= i < after[n].children@.len() implies #[trigger] edge_sound(
            after,
            n,
            i,
        ) by {
            assert(edge_sound(before, n, i));
            let t = before[n].children@[i].1.node;
            assert(after[n].children@[i].1.node == t);
            assert(after[t].parent == before[t].parent && after[t].game == before[t].game);
        }
        assert forall|i: int, j: int| 0 <= i < j < after[n].children@.len() implies (
        #[trigger] after[n].children@[i]).0 != (#[trigger] after[n].children@[j]).0
            && after[n].children@[i].1.node != after[n].children@[j].1.node by {
            assert(before[n].children@[i].0 != before[n].children@[j].0);
        }
        if n == id {
            assert(moves_of::<G>(after[n].children@) =~= moves_of::<G>(before[n].children@)) by {
                assert forall|i: int| 0 <= i < after[n].children@.len() implies moves_of::<G>(
                    after[n].children@,
                )[i] == moves_of::<G>(before[n].children@)[i] by {
                }
            }
            lemma_games_below_grows::<G>(
                before[n].children@,
                after[n].children@,
                before[n].children@.len() as int,
                at,
                playouts,
            );
        }
        if after[n].parent is Some {
            let p = after[n].parent->0;
            assert(has_edge_to(before, p, n));
            let i = choose|i: int|
                0 <= i < before[p].children@.len() && (#[trigger] before[p].children@[i]).1.node == n;
            assert(after[p].children@[i].1.node == n);
        }
    }
    assert forall|n: NodeID| after.contains_key(n) && (#[trigger] after[n]).parent is None implies n
        == root by {
        assert(before[n].parent is None);
    }
}

/// Folds the tally of a batch into edge `at` of node `id`, and scores the edges
/// of that node anew.
pub fn fold_into<G: Game, F: Fn(u32, u32, u32) -> u64>(
    nodes: &mut NodeList<G>,
    root: NodeID,
    id: NodeID,
    at: usize,
    tally: &Tally<G>,
    score: &F,
)
    requires
        old(nodes).is_tree(root),
        old(nodes)@.contains_key(id),
        at < old(nodes)@[id].children@.len(),
        tally.wf(),
        old(nodes)@[id].games + tally.played() <= u32::MAX,
        old(nodes)@[id].children@[at as int].1.simulations < u32::MAX,
        forall|w: u32, g: u32, t: u32| g > 0 ==> call_requires(*score, (w, g, t)),
    ensures
        final(nodes).is_tree(root),
        final(nodes).fresh_id() == old(nodes).fresh_id(),
        forall|n: NodeID| final(nodes)@.contains_key(n) <==> old(nodes)@.contains_key(n),
        forall|n: NodeID|
            old(nodes)@.contains_key(n) && n != id ==> #[trigger] final(nodes)@[n] == old(nodes)@[n],
        folded(
            old(nodes)@[id],
            final(nodes)@[id],
            at as int,
            tally.played(),
            tally.won_by(old(nodes)@[id].player),
            *score,
        ),
{
    let ghost before = nodes@;
    proof {
        nodes.lemma_ids_below_fresh();
        assert(node_sound(before, id));
        assert(edge_sound(before, id, at as int));
        lemma_games_below_bounds::<G>(
            before[id].children@,
            before[id].children@.len() as int,
            at as int,
        );
    }
    let num_sims = tally.playouts();
    let cur_node = nodes.get_mut(id);
    let wins = tally.wins_of(&cur_node.player);
    cur_node.games += num_sims;
    cur_node.children[at].1.games += num_sims;
    cur_node.children[at].1.simulations += 1;
    cur_node.children[at].1.wins += wins;
    let total_games = cur_node.games;
    let ghost counted = cur_node.children@;
    let mut j: usize = 0;
    while j < cur_node.children.len()
        invariant
            j <= cur_node.children@.len(),
            cur_node.children@.len() == counted.len(),
            cur_node.game == before[id].game,
            cur_node.player == before[id].player,
            cur_node.parent == before[id].parent,
            cur_node.games == total_games,
            after_borrow(*nodes)@ == before.insert(id, *final(cur_node)),
            after_borrow(*nodes).fresh_id() == old(nodes).fresh_id(),
            after_borrow(*nodes).wf(),
            forall|w: u32, g: u32, t: u32| g > 0 ==> call_requires(*score, (w, g, t)),
            forall|i: int|
                0 <= i < counted.len() ==> {
                    let now = #[trigger] cur_node.children@[i];
                    &&& now.0 == counted[i].0
                    &&& now.1.node == counted[i].1.node
                    &&& now.1.games == counted[i].1.games
                    &&& now.1.wins == counted[i].1.wins
                    &&& now.1.simulations == counted[i].1.simulations
                    &&& if i < j && now.1.games != 0 {
                        now.1.uct matches Score::Finite(key) && call_ensures(
                            *score,
                            (now.1.wins, now.1.games, total_games),
                            key,
                        )
                    } else {
                        now.1.uct == counted[i].1.uct
                    }
                },
        decreases cur_node.children@.len() - j,
    {
        if cur_node.children[j].1.games != 0 {
            let key = score(cur_node.children[j].1.wins, cur_node.children[j].1.games, total_games);
            cur_node.children[j].1.uct = Score::Finite(key);
        }
        j += 1;
    }
    proof {
        tally.lemma_wins_are_playouts(before[id].player);
        assert forall|n: NodeID| nodes@.contains_key(n) <==> before.contains_key(n) by {}
        lemma_fold_keeps_tree(
            before,
            nodes@,
            root,
            id,
            at as int,
            tally.played(),
            tally.won_by(before[id].player),
            *score,
        );
    }
}

/// Whether `after` is `before` once `tally` has been folded into every edge on
/// `path`. The nodes are the same. A node that no step of the path leaves is as
/// it was. A node that a step leaves has the tally folded into the edge that
/// the step walks, with the wins that the tally credits to the node's player.
pub open spec fn folded_along<G: Game, F: Fn(u32, u32, u32) -> u64>(
    before: Nodes<G>,
    after: Nodes<G>,
    path: Seq<(NodeID, usize)>,
    tally: Tally<G>,
    score: F,
) -> bool {
    &&& forall|n: NodeID| after.contains_key(n) <==> before.contains_key(n)
    &&& forall|n: NodeID| before.contains_key(n) && !on_path(path, n) ==> #[trigger] after[n] == before[n]
    &&& forall|i: int|
        0 <= i < path.len() ==> folded(
            before[(#[trigger] path[i]).0],
            after[path[i].0],
            path[i].1 as int,
            tally.played(),
            tally.won_by(before[path[i].0].player),
            score,
        )
}

/// The second half of a search step. Walks the path that selection walked, from
/// the root down, and folds the tally into each edge on it: wins are credited
/// to an edge as the tally credits them to the player who makes the edge's
/// move. Returns the number of playouts in the tally.
pub fn backpropagate<G: Game, F: Fn(u32, u32, u32) -> u64>(
    nodes: &mut NodeList<G>,
    root: NodeID,
    sel: &Selection,
    tally: &Tally<G>,
    score: &F,
) -> (num_sims: u32)
    requires
        old(nodes).is_tree(root),
        is_path(old(nodes)@, root, sel.path@, sel.target),
        tally.wf(),
        absorbs(old(nodes)@, sel.path@, tally.played()),
        forall|w: u32, g: u32, t: u32| g > 0 ==> call_requires(*score, (w, g, t)),
    ensures
        num_sims == tally.played(),
        final(nodes).is_tree(root),
        final(nodes).fresh_id() == old(nodes).fresh_id(),
        folded_along(old(nodes)@, final(nodes)@, sel.path@, *tally, *score),
{
    let ghost before = nodes@;
    let ghost path = sel.path@;
    let mut i: usize = 0;
    while i < sel.path.len()
        invariant
            i <= path.len(),
            path == sel.path@,
            before == old(nodes)@,
            is_tree(before, root),
            is_path(before, root, path, sel.target),
            absorbs(before, path, tally.played()),
            tally.wf(),
            forall|w: u32, g: u32, t: u32| g > 0 ==> call_requires(*score, (w, g, t)),
            nodes.is_tree(root),
            nodes.fresh_id() == old(nodes).fresh_id(),
            forall|n: NodeID| nodes@.contains_key(n) <==> before.contains_key(n),
            forall|n: NodeID|
                before.contains_key(n) && !on_path(path.take(i as int), n) ==> #[trigger] nodes@[n]
                    == before[n],
            forall|k: int|
                0 <= k < i ==> folded(
                    before[(#[trigger] path[k]).0],
                    nodes@[path[k].0],
                    path[k].1 as int,
                    tally.played(),
                    tally.won_by(before[path[k].0].player),
                    *score,
                ),
        decreases path.len() - i,
    {
        let (node_id, at) = sel.path[i];
        let ghost mid = nodes@;
        proof {
            assert(path[i as int] == (node_id, at));
            if on_path(path.take(i as int), node_id) {
                let k = choose|k: int|
                    0 <= k < path.take(i as int).len() && (#[trigger] path.take(i as int)[k]).0
                        == node_id;
                lemma_path_rises(before, root, path, sel.target, k, i as int);
            }
            assert(mid[node_id] == before[node_id]);
        }
        fold_into(nodes, root, node_id, at, tally, score);
        proof {
            assert forall|n: NodeID|
                before.contains_key(n) && !on_path(
                    path.take(i + 1),
                    n,
                ) implies #[trigger] nodes@[n] == before[n] by {
                assert(path.take(i + 1)[i as int].0 == node_id);
                if on_path(path.take(i as int), n) {
                    let k = choose|k: int|
                        0 <= k < path.take(i as int).len() && (#[trigger] path.take(i as int)[k]).0
                            == n;
                    assert(path.take(i + 1)[k].0 == n);
                }
                assert(nodes@[n] == mid[n]);
            }
            assert forall|k: int| 0 <= k < i + 1 implies folded(
                before[(#[trigger] path[k]).0],
                nodes@[path[k].0],
                path[k].1 as int,
                tally.played(),
                tally.won_by(before[path[k].0].player),
                *score,
            ) by {
                if k < i {
                    lemma_path_rises(before, root, path, sel.target, k, i as int);
                    assert(nodes@[path[k].0] == mid[path[k].0]);
                }
            }
        }
        i += 1;
    }
    proof {
        assert(path.take(path.len() as int) =~= path);
    }
    tally.playouts()
}

/// Tells whether the counters along the path of `sel` have room for `tally`,
/// which is what `backpropagate` asks for.
pub fn can_absorb<G: Game>(nodes: &NodeList<G>, root: NodeID, sel: &Selection, tally: &Tally<G>) -> (fits:
    bool)
    requires
        is_path(nodes@, root, sel.path@, sel.target),
    ensures
        fits == absorbs(nodes@, sel.path@, tally.played()),
{
    let num_sims = tally.playouts();
    let mut i: usize = 0;
    while i < sel.path.len()
        invariant
            i <= sel.path@.len(),
            num_sims == tally.played(),
            is_path(nodes@, root, sel.path@, sel.target),
            absorbs(nodes@, sel.path@.take(i as int), tally.played()),
        decreases sel.path@.len() - i,
    {
        let (node_id, at) = sel.path[i];
        assert(sel.path@[i as int] == (node_id, at));
        let node = nodes.get(node_id);
        if node.games > u32::MAX - num_sims || node.children[at].1.simulations == u32::MAX {
            return false;
        }
        proof {
            let done = sel.path@.take(i as int);
            let more = sel.path@.take(i + 1);
            assert forall|k: int| 0 <= k < more.len() implies nodes@[(#[trigger] more[k]).0].games
                + tally.played() <= u32::MAX && edge_at(nodes@, more[k]).simulations < u32::MAX by {
                if k < i {
                    assert(done[k] == more[k]);
                }
            }
        }
        i += 1;
    }
    proof {
        assert(sel.path@.take(sel.path@.len() as int) =~= sel.path@);
    }
    true
}

/// Whether a whole search step may have turned `before` into `after` and
/// counted `num_sims` playouts: selection has walked some path, expanding a
/// leaf perhaps, and the tally of a batch of that many playouts from the
/// position at the end of the path has been folded in along the path.
pub open spec fn stepped<G: Game, F: Fn(u32, u32, u32) -> u64>(
    before: Nodes<G>,
    after: Nodes<G>,
    root: NodeID,
    first: NodeID,
    num_sims: u32,
    score: F,
) -> bool {
    exists|mid: Nodes<G>, sel: Selection, tally: Tally<G>|
        {
            &&& grown(before, mid, first)
            &&& #[trigger] is_selection(mid, root, sel.path@, sel.target)
            &&& tally.batch_from(mid[sel.target].game)
            &&& tally.played() == num_sims
            &&& #[trigger] folded_along(mid, after, sel.path@, tally, score)
        }
}

/// Whether a search step may have stopped short at `after` for want of room:
/// selection has walked some path, and the tally of a batch of playouts from
/// the position at its end is more than a counter on the path can take.
pub open spec fn stopped_short<G: Game>(after: Nodes<G>, root: NodeID) -> bool {
    exists|sel: Selection, tally: Tally<G>|
        {
            &&& #[trigger] is_selection(after, root, sel.path@, sel.target)
            &&& #[trigger] tally.batch_from(after[sel.target].game)
            &&& !absorbs(after, sel.path@, tally.played())
        }
}

/// Whether identifiers are left to expand any node of `m`, when `first` is the
/// next identifier.
pub open spec fn has_ids<G: Game>(m: Nodes<G>, first: NodeID) -> bool {
    forall|k: NodeID|
        m.contains_key(k) ==> first + (#[trigger] m[k]).game.moves().len() <= usize::MAX
}

/// Whether every counter of `m` has room for a batch of `playouts`, whatever
/// path the batch is folded into.
pub open spec fn has_room<G: Game>(m: Nodes<G>, playouts: nat) -> bool {
    forall|k: NodeID|
        m.contains_key(k) ==> {
            &&& (#[trigger] m[k]).games + playouts <= u32::MAX
            &&& forall|i: int|
                0 <= i < m[k].children@.len() ==> (#[trigger] m[k].children@[i]).1.simulations
                    < u32::MAX
        }
}

/// The most playouts that a batch of `time_limit` milliseconds can hold: none
/// without time, and otherwise as many as the counter of a tally can count.
pub open spec fn largest_batch(time_limit: u64) -> nat {
    if time_limit == 0 {
        0
    } else {
        u32::MAX as nat
    }
}

/// Selection leaves room where there was room: what an expansion adds has no
/// playouts and has not been chosen yet.
pub proof fn lemma_room_after_growth<G: Game>(
    before: Nodes<G>,
    after: Nodes<G>,
    first: NodeID,
    playouts: nat,
)
    requires
        grown(before, after, first),
        has_room(before, playouts),
        playouts <= u32::MAX,
    ensures
        has_room(after, playouts),
{
    if after != before {
        let k = choose|k: NodeID| expansion_of(before, after, k, first);
        let moves = before[k].game.moves();
        assert(after[k].children@.len() == moves.len()) by {
            assert(moves_of::<G>(after[k].children@).len() == moves.len());
        }
        assert forall|n: NodeID| after.contains_key(n) implies {
            &&& (#[trigger] after[n]).games + playouts <= u32::MAX
            &&& forall|i: int|
                0 <= i < after[n].children@.len() ==> (#[trigger] after[n].children@[i]).1.simulations
                    < u32::MAX
        } by {
            if before.contains_key(n) && n != k {
                assert(after[n] == before[n]);
            } else if n != k {
                let i = n - first;
                let edge = after[k].children@[i].1;
                assert(edge.node == n);
            }
        }
    }
}

/// Where every counter has room, the counters along a path have.
pub proof fn lemma_room_absorbs<G: Game>(
    m: Nodes<G>,
    root: NodeID,
    path: Seq<(NodeID, usize)>,
    target: NodeID,
    room: nat,
    playouts: nat,
)
    requires
        is_path(m, root, path, target),
        has_room(m, room),
        playouts <= room,
    ensures
        absorbs(m, path, playouts),
{
}

/// One whole search step, with the playouts made on the calling thread:
/// selects a path, plays random playouts from the position it ends at for
/// `time_limit` milliseconds, and folds their tally into the path. Returns the
/// number of playouts.
///
/// Returns `None` where the step cannot be made in full. Either the arena has
/// too few identifiers left for an expansion, and then the tree is as it was.
/// Or a counter on the path has no room for the tally, and then the tree is as
/// selection left it. The step is made in full wherever identifiers are left
/// for every node and every counter has room for the largest batch that the
/// time allows.
pub fn montecarlo<G: Game, F: Fn(u32, u32, u32) -> u64>(
    nodes: &mut NodeList<G>,
    root: NodeID,
    time_limit: u64,
    score: &F,
) -> (done: Option<u32>)
    requires
        old(nodes).is_tree(root),
        forall|w: u32, g: u32, t: u32| g > 0 ==> call_requires(*score, (w, g, t)),
    ensures
        final(nodes).is_tree(root),
        has_ids(old(nodes)@, old(nodes).fresh_id()) && has_room(
            old(nodes)@,
            largest_batch(time_limit),
        ) ==> done is Some,
        match done {
            Some(num_sims) => stepped(
                old(nodes)@,
                final(nodes)@,
                root,
                old(nodes).fresh_id(),
                num_sims,
                *score,
            ),
            None => {
                ||| final(nodes)@ == old(nodes)@ && final(nodes).fresh_id() == old(nodes).fresh_id()
                    && !has_ids(old(nodes)@, old(nodes).fresh_id())
                ||| grown(old(nodes)@, final(nodes)@, old(nodes).fresh_id()) && stopped_short(
                    final(nodes)@,
                    root,
                )
            },
        },
{
    // Select
    let sel = match select(nodes, root) {
        Some(sel) => sel,
        None => {
            return None;
        },
    };
    let ghost mid = nodes@;
    // Simulate
    let results = run_batch(&nodes.get(sel.target).game, time_limit);
    proof {
        results.lemma_played_fits();
        if has_room(old(nodes)@, largest_batch(time_limit)) {
            lemma_room_after_growth(
                old(nodes)@,
                mid,
                old(nodes).fresh_id(),
                largest_batch(time_limit),
            );
            lemma_room_absorbs(
                mid,
                root,
                sel.path@,
                sel.target,
                largest_batch(time_limit),
                results.played(),
            );
        }
    }
    // Backprop
    if !can_absorb(nodes, root, &sel, &results) {
        proof {
            assert(is_selection(mid, root, sel.path@, sel.target));
            assert(results.batch_from(mid[sel.target].game));
        }
        return None;
    }
    let num_sims = backpropagate(nodes, root, &sel, &results, score);
    proof {
        assert(is_selection(mid, root, sel.path@, sel.target));
        assert(folded_along(mid, nodes@, sel.path@, results, *score));
    }
    Some(num_sims)
}

} // verus!
