//! The arena that owns the nodes of the search tree.
//!
//! Nodes refer to each other by identifier only: an edge names its target, a
//! node names its parent. The arena hands out identifiers in rising order and
//! never twice, so a child's identifier is always greater than its parent's.

use super::game::Game;
use super::tree::{Child, MoveTreeNode, NodeID};
use std::collections::HashMap;
use vstd::prelude::*;

verus! {

broadcast use vstd::std_specs::hash::group_hash_axioms;

/// What an arena holds: its nodes by identifier.
pub type Nodes<G> = Map<NodeID, MoveTreeNode<G>>;

/// Whether the chain of parents that starts at `n` arrives at `top`. The chain
/// stays inside `m`, and it stops short at `except`: a node whose chain meets
/// `except` before `top` does not reach `top`.
pub open spec fn reaches<G: Game>(m: Nodes<G>, top: NodeID, except: NodeID, n: NodeID) -> bool
    decreases n,
{
    n == top || (n != except && m.contains_key(n) && match m[n].parent {
        Some(p) => p < n && reaches(m, top, except, p),
        None => false,
    })
}

/// Whether `n` is `top` or one of its descendants.
pub open spec fn descends<G: Game>(m: Nodes<G>, top: NodeID, n: NodeID) -> bool {
    reaches(m, top, top, n)
}

/// The nodes that discarding `top` takes away when the subtree of `except` is
/// spared: `top` and all that hangs below it, but for `except` and what hangs
/// below that.
pub open spec fn discarded<G: Game>(m: Nodes<G>, top: NodeID, except: NodeID) -> Set<NodeID> {
    Set::new(|n: NodeID| m.contains_key(n) && reaches(m, top, except, n))
}

/// Whether node `k` has an edge to `t`.
pub open spec fn has_edge_to<G: Game>(m: Nodes<G>, k: NodeID, t: NodeID) -> bool {
    exists|i: int| 0 <= i < m[k].children@.len() && (#[trigger] m[k].children@[i]).1.node == t
}

/// Edges and parent references agree, as far as `m` goes. The target of an
/// edge has a greater identifier than its source; it is present and names the
/// source as its parent, unless it is `except`, which may have been taken out.
/// And a node whose parent is present is the target of one of the parent's edges.
pub open spec fn linked<G: Game>(m: Nodes<G>, except: NodeID) -> bool {
    &&& forall|k: NodeID, i: int|
        m.contains_key(k) && 0 <= i < m[k].children@.len() ==> {
            let t = (#[trigger] m[k].children@[i]).1.node;
            k < t && (t == except || (m.contains_key(t) && m[t].parent == Some(k)))
        }
    &&& forall|c: NodeID|
        #![trigger m[c].parent]
        m.contains_key(c) && m[c].parent is Some && m.contains_key(m[c].parent->0) ==> has_edge_to(
            m,
            m[c].parent->0,
            c,
        )
}

/// No edge in `m` leads to `t`.
pub open spec fn unreferenced<G: Game>(m: Nodes<G>, t: NodeID) -> bool {
    forall|k: NodeID, i: int|
        m.contains_key(k) && 0 <= i < m[k].children@.len() ==> (#[trigger] m[k].children@[i]).1.node
            != t
}

/// Whether `part` holds some of the nodes of `m`, each as `m` holds it.
pub open spec fn within<G: Game>(part: Nodes<G>, m: Nodes<G>) -> bool {
    forall|k: NodeID| #[trigger] part.contains_key(k) ==> m.contains_key(k) && part[k] == m[k]
}

/// Whether `n` hangs below one of the first `upto` edges of `top`, the edge to
/// `except` left out.
pub open spec fn below_first<G: Game>(
    m: Nodes<G>,
    top: NodeID,
    upto: int,
    except: NodeID,
    n: NodeID,
) -> bool {
    exists|i: int|
        0 <= i < upto && i < m[top].children@.len() && (#[trigger] m[top].children@[i]).1.node
            != except && reaches(m, m[top].children@[i].1.node, except, n)
}

/// What is gone once `top` and the subtrees of its first `upto` edges are discarded.
pub open spec fn gone_after<G: Game>(m: Nodes<G>, top: NodeID, upto: int, except: NodeID) -> Set<
    NodeID,
> {
    Set::new(|n: NodeID| m.contains_key(n) && (n == top || below_first(m, top, upto, except, n)))
}

/// A chain of parents only ever arrives at a smaller identifier.
pub proof fn lemma_reaches_upward<G: Game>(m: Nodes<G>, top: NodeID, except: NodeID, n: NodeID)
    requires
        reaches(m, top, except, n),
    ensures
        top <= n,
    decreases n,
{
    if n != top {
        lemma_reaches_upward(m, top, except, m[n].parent->0);
    }
}

/// A chain inside a part of the arena is a chain inside the whole.
pub proof fn lemma_reaches_in_larger<G: Game>(
    part: Nodes<G>,
    m: Nodes<G>,
    top: NodeID,
    except: NodeID,
    n: NodeID,
)
    requires
        within(part, m),
        reaches(part, top, except, n),
    ensures
        reaches(m, top, except, n),
    decreases n,
{
    if n != top {
        lemma_reaches_in_larger(part, m, top, except, part[n].parent->0);
    }
}

/// A chain survives in a part of the arena that holds its start, provided that
/// whatever the part lacks, it also lacks the children of. Children of `skip`,
/// a node above `top`, need not follow this rule.
pub proof fn lemma_reaches_in_smaller<G: Game>(
    m: Nodes<G>,
    part: Nodes<G>,
    skip: NodeID,
    top: NodeID,
    except: NodeID,
    n: NodeID,
)
    requires
        within(part, m),
        skip < top,
        forall|c: NodeID|
            #![trigger m[c].parent]
            m.contains_key(c) && c != except && m[c].parent is Some && m[c].parent->0 != skip
                && m.contains_key(m[c].parent->0) && !part.contains_key(m[c].parent->0)
                ==> !part.contains_key(c),
        part.contains_key(n),
        reaches(m, top, except, n),
    ensures
        reaches(part, top, except, n),
    decreases n,
{
    if n != top {
        let p = m[n].parent->0;
        if p != top {
            assert(reaches(m, top, except, p));
            lemma_reaches_upward(m, top, except, p);
            assert(m[n].parent is Some && part.contains_key(p));
            lemma_reaches_in_smaller(m, part, skip, top, except, p);
        } else {
            assert(reaches(part, top, except, top));
        }
    }
}

/// A chain that arrives at a child of `top` goes on to `top`.
pub proof fn lemma_reaches_parent<G: Game>(
    m: Nodes<G>,
    top: NodeID,
    child: NodeID,
    except: NodeID,
    n: NodeID,
)
    requires
        reaches(m, child, except, n),
        child != except,
        m.contains_key(child),
        m[child].parent == Some(top),
        top < child,
    ensures
        reaches(m, top, except, n),
    decreases n,
{
    if n != child {
        lemma_reaches_upward(m, child, except, n);
        lemma_reaches_parent(m, top, child, except, m[n].parent->0);
    } else {
        assert(reaches(m, top, except, top));
    }
}

/// Chains compose.
pub proof fn lemma_reaches_transitive<G: Game>(
    m: Nodes<G>,
    a: NodeID,
    b: NodeID,
    except: NodeID,
    n: NodeID,
)
    requires
        reaches(m, a, except, b),
        reaches(m, b, except, n),
    ensures
        reaches(m, a, except, n),
    decreases n,
{
    if n != b {
        lemma_reaches_upward(m, a, except, b);
        lemma_reaches_upward(m, b, except, n);
        lemma_reaches_transitive(m, a, b, except, m[n].parent->0);
    }
}

/// A chain that arrives at `top` from elsewhere comes through one of its edges.
pub proof fn lemma_reaches_through_edge<G: Game>(
    m: Nodes<G>,
    top: NodeID,
    except: NodeID,
    n: NodeID,
)
    requires
        linked(m, except),
        m.contains_key(top),
        m.contains_key(n),
        n != top,
        reaches(m, top, except, n),
    ensures
        below_first(m, top, m[top].children@.len() as int, except, n),
    decreases n,
{
    let p = m[n].parent->0;
    if p == top {
        assert(has_edge_to(m, top, n));
        let i = choose|i: int|
            0 <= i < m[top].children@.len() && (#[trigger] m[top].children@[i]).1.node == n;
        assert(m[top].children@[i].1.node != except);
        assert(reaches(m, n, except, n));
    } else {
        assert(reaches(m, top, except, p));
        lemma_reaches_through_edge(m, top, except, p);
        let i = choose|i: int|
            0 <= i < m[top].children@.len() && (#[trigger] m[top].children@[i]).1.node != except
                && reaches(m, m[top].children@[i].1.node, except, p);
        assert(reaches(m, m[top].children@[i].1.node, except, n));
    }
}

/// Once every edge of `top` has been followed, what is gone is what discarding
/// `top` is to take away.
pub proof fn lemma_gone_is_discarded<G: Game>(m: Nodes<G>, top: NodeID, except: NodeID)
    requires
        linked(m, except),
        m.contains_key(top),
    ensures
        gone_after(m, top, m[top].children@.len() as int, except) == discarded(m, top, except),
{
    let gone = gone_after(m, top, m[top].children@.len() as int, except);
    assert forall|n: NodeID| gone.contains(n) <==> discarded(m, top, except).contains(n) by {
        if gone.contains(n) && n != top {
            let i = choose|i: int|
                0 <= i < m[top].children@.len() && (#[trigger] m[top].children@[i]).1.node != except
                    && reaches(m, m[top].children@[i].1.node, except, n);
            lemma_reaches_parent(m, top, m[top].children@[i].1.node, except, n);
        }
        if discarded(m, top, except).contains(n) && n != top {
            lemma_reaches_through_edge(m, top, except, n);
        }
    }
    assert(gone =~= discarded(m, top, except));
}

/// With `top` and the subtrees of its first `upto` edges discarded, what is left
/// is still linked, holds its own chains as the whole arena did, and has no
/// edge to the target of the next edge of `top`.
pub proof fn lemma_rest_is_linked<G: Game>(m: Nodes<G>, top: NodeID, upto: int, except: NodeID)
    requires
        linked(m, except),
        unreferenced(m, top),
        m.contains_key(top),
        0 <= upto < m[top].children@.len(),
    ensures
        ({
            let rest = m.remove_keys(gone_after(m, top, upto, except));
            let next = m[top].children@[upto].1.node;
            &&& within(rest, m)
            &&& linked(rest, except)
            &&& next != except ==> unreferenced(rest, next)
            &&& forall|n: NodeID|
                rest.contains_key(n) && reaches(m, next, except, n) ==> reaches(
                    rest,
                    next,
                    except,
                    n,
                )
        }),
{
    let gone = gone_after(m, top, upto, except);
    let rest = m.remove_keys(gone);
    let next = m[top].children@[upto].1.node;
    assert(within(rest, m));
    // what is gone takes its children along
    assert forall|c: NodeID|
        #![trigger m[c].parent]
        m.contains_key(c) && c != except && m[c].parent is Some && m[c].parent->0 != top
            && m.contains_key(m[c].parent->0) && !rest.contains_key(
            m[c].parent->0,
        ) implies !rest.contains_key(c) by {
        let p = m[c].parent->0;
        assert(gone.contains(p));
        assert(has_edge_to(m, p, c));
        assert(p < c);
        let i = choose|i: int|
            0 <= i < upto && i < m[top].children@.len() && (#[trigger] m[top].children@[i]).1.node
                != except && reaches(m, m[top].children@[i].1.node, except, p);
        assert(reaches(m, m[top].children@[i].1.node, except, c));
        assert(gone.contains(c));
    }
    assert forall|k: NodeID, i: int|
        rest.contains_key(k) && 0 <= i < rest[k].children@.len() implies {
        let t = (#[trigger] rest[k].children@[i]).1.node;
        k < t && (t == except || (rest.contains_key(t) && rest[t].parent == Some(k)))
    } by {
        let t = m[k].children@[i].1.node;
        if t != except {
            assert(m.contains_key(t) && m[t].parent == Some(k));
            if gone.contains(t) {
                assert(t != top);
                let j = choose|j: int|
                    0 <= j < upto && j < m[top].children@.len() && (
                    #[trigger] m[top].children@[j]).1.node != except && reaches(
                        m,
                        m[top].children@[j].1.node,
                        except,
                        t,
                    );
                if t == m[top].children@[j].1.node {
                    assert(m[t].parent == Some(top));
                } else {
                    assert(reaches(m, m[top].children@[j].1.node, except, k));
                    assert(gone.contains(k));
                }
            }
        }
    }
    assert forall|c: NodeID|
        #![trigger rest[c].parent]
        rest.contains_key(c) && rest[c].parent is Some && rest.contains_key(
            rest[c].parent->0,
        ) implies has_edge_to(rest, rest[c].parent->0, c) by {
        let p = m[c].parent;
        assert(has_edge_to(m, m[c].parent->0, c));
        let i = choose|i: int|
            0 <= i < m[p->0].children@.len() && (#[trigger] m[p->0].children@[i]).1.node == c;
        assert(rest[p->0].children@[i].1.node == c);
    }
    if next != except {
        assert forall|k: NodeID, i: int|
            rest.contains_key(k) && 0 <= i < rest[k].children@.len() implies (
        #[trigger] rest[k].children@[i]).1.node != next by {
            if m[k].children@[i].1.node == next {
                assert(m[next].parent == Some(k));
                assert(m[top].children@[upto].1.node == next);
                assert(m[next].parent == Some(top));
            }
        }
    }
    assert forall|n: NodeID| rest.contains_key(n) && reaches(m, next, except, n) implies reaches(
        rest,
        next,
        except,
        n,
    ) by {
        assert(top < m[top].children@[upto].1.node);
        lemma_reaches_in_smaller(m, rest, top, next, except, n);
    }
}

/// The moves of a list of edges, in order.
pub open spec fn moves_of<G: Game>(edges: Seq<(G::Move, Child)>) -> Seq<G::Move> {
    Seq::new(edges.len(), |i: int| edges[i].0)
}

/// What holds of edge `i` of node `k` in a search tree: the target is a later
/// node that names `k` as its parent and holds the position that the edge's move
/// leads to, which is nearer the end of the game. Its wins are among its
/// playouts, and its score is infinite exactly as long as it has no playouts.
pub open spec fn edge_sound<G: Game>(m: Nodes<G>, k: NodeID, i: int) -> bool {
    let mv = m[k].children@[i].0;
    let edge = m[k].children@[i].1;
    &&& m.contains_key(edge.node)
    &&& k < edge.node
    &&& m[edge.node].parent == Some(k)
    &&& m[k].game.allows(mv)
    &&& m[k].game.leads_to(mv, &m[edge.node].game)
    &&& m[edge.node].game.horizon() < m[k].game.horizon()
    &&& edge.wins <= edge.games
    &&& (edge.games == 0 <==> edge.uct is Infinite)
}

/// What holds of node `k` in a search tree: it knows the player to move; once
/// expanded it has one edge for each move of its position, in the game's order,
/// and no two edges share a move or a target; its playouts are those of its
/// edges, added up; each edge is sound; and its parent, if it has one, has an
/// edge to it.
pub open spec fn node_sound<G: Game>(m: Nodes<G>, k: NodeID) -> bool {
    let node = m[k];
    &&& node.player == node.game.to_move()
    &&& node.children@.len() > 0 ==> moves_of::<G>(node.children@) == node.game.moves()
    &&& forall|i: int, j: int|
        0 <= i < j < node.children@.len() ==> (#[trigger] node.children@[i]).0 != (
        #[trigger] node.children@[j]).0 && node.children@[i].1.node != node.children@[j].1.node
    &&& node.games == MoveTreeNode::<G>::games_below(node.children@, node.children@.len() as int)
    &&& forall|i: int| 0 <= i < node.children@.len() ==> #[trigger] edge_sound(m, k, i)
    &&& node.parent matches Some(p) ==> m.contains_key(p) && has_edge_to(m, p, k)
}

/// Whether `m` is a search tree with root `root`: every node is sound, and the
/// root is the one node without a parent.
pub open spec fn is_tree<G: Game>(m: Nodes<G>, root: NodeID) -> bool {
    &&& m.contains_key(root)
    &&& m[root].parent is None
    &&& forall|k: NodeID| m.contains_key(k) ==> #[trigger] node_sound(m, k)
    &&& forall|k: NodeID| m.contains_key(k) && (#[trigger] m[k]).parent is None ==> k == root
}

/// In a search tree edges and parent references agree, and nothing leads to the root.
pub proof fn lemma_tree_is_linked<G: Game>(m: Nodes<G>, root: NodeID, except: NodeID)
    requires
        is_tree(m, root),
    ensures
        linked(m, except),
        unreferenced(m, root),
{
    assert forall|k: NodeID, i: int|
        m.contains_key(k) && 0 <= i < m[k].children@.len() implies {
        let t = (#[trigger] m[k].children@[i]).1.node;
        k < t && m.contains_key(t) && m[t].parent == Some(k) && t != root
    } by {
        assert(node_sound(m, k));
        assert(edge_sound(m, k, i));
    }
    assert forall|c: NodeID|
        #![trigger m[c].parent]
        m.contains_key(c) && m[c].parent is Some && m.contains_key(
            m[c].parent->0,
        ) implies has_edge_to(m, m[c].parent->0, c) by {
        assert(node_sound(m, c));
    }
}

/// In a search tree every node hangs below the root.
pub proof fn lemma_tree_is_connected<G: Game>(m: Nodes<G>, root: NodeID, n: NodeID)
    requires
        is_tree(m, root),
        m.contains_key(n),
    ensures
        descends(m, root, n),
    decreases n,
{
    if n != root {
        assert(node_sound(m, n));
        let p = m[n].parent->0;
        let i = choose|i: int|
            0 <= i < m[p].children@.len() && (#[trigger] m[p].children@[i]).1.node == n;
        assert(node_sound(m, p));
        assert(edge_sound(m, p, i));
        lemma_tree_is_connected(m, root, p);
    }
}

/// The playouts of the first `upto` edges are none or more, and each of those
/// edges has its playouts among them.
pub proof fn lemma_games_below_bounds<G: Game>(edges: Seq<(G::Move, Child)>, upto: int, at: int)
    requires
        0 <= upto <= edges.len(),
    ensures
        0 <= MoveTreeNode::<G>::games_below(edges, upto),
        0 <= at < upto ==> edges[at].1.games <= MoveTreeNode::<G>::games_below(edges, upto),
    decreases upto,
{
    if upto > 0 {
        lemma_games_below_bounds::<G>(edges, upto - 1, at);
    }
}

/// In a search tree the statistics are consistent. An edge never has more wins
/// than playouts. The playouts of a node are the playouts of its edges, added
/// up: each playout that went through the node went through exactly one of its
/// edges. So no edge has more playouts than its node.
pub proof fn lemma_statistics<G: Game>(m: Nodes<G>, root: NodeID, k: NodeID, i: int)
    requires
        is_tree(m, root),
        m.contains_key(k),
        0 <= i < m[k].children@.len(),
    ensures
        m[k].children@[i].1.wins <= m[k].children@[i].1.games,
        m[k].games == MoveTreeNode::<G>::games_below(m[k].children@, m[k].children@.len() as int),
        m[k].children@[i].1.games <= m[k].games,
{
    assert(node_sound(m, k));
    assert(edge_sound(m, k, i));
    lemma_games_below_bounds::<G>(m[k].children@, m[k].children@.len() as int, i);
}

/// In a search tree an edge without playouts outranks every edge with playouts:
/// its score is infinite, theirs are finite.
pub proof fn lemma_unplayed_outranks_played<G: Game>(
    m: Nodes<G>,
    root: NodeID,
    k: NodeID,
    unplayed: int,
    played: int,
)
    requires
        is_tree(m, root),
        m.contains_key(k),
        0 <= unplayed < m[k].children@.len(),
        0 <= played < m[k].children@.len(),
        m[k].children@[unplayed].1.games == 0,
        m[k].children@[played].1.games > 0,
    ensures
        m[k].children@[unplayed].1.uct is Infinite,
        m[k].children@[played].1.uct is Finite,
        m[k].children@[unplayed].1.uct.rank() > m[k].children@[played].1.uct.rank(),
{
    assert(node_sound(m, k));
    assert(edge_sound(m, k, unplayed));
    assert(edge_sound(m, k, played));
}

/// An arena of tree nodes. Every identifier it has handed out and not yet
/// discarded resolves to a node.
pub struct NodeList<G: Game> {
    nodes: HashMap<NodeID, MoveTreeNode<G>>,
    next_id: NodeID,
}

impl<G: Game> View for NodeList<G> {
    type V = Nodes<G>;

    closed spec fn view(&self) -> Nodes<G> {
        self.nodes@
    }
}

impl<G: Game> NodeList<G> {
    /// Every node sits under an identifier that the arena has handed out.
    pub closed spec fn wf(&self) -> bool {
        forall|k: NodeID| self.nodes@.contains_key(k) ==> k < self.next_id
    }

    /// Whether the arena holds a search tree with root `root`.
    pub open spec fn is_tree(&self, root: NodeID) -> bool {
        self.wf() && is_tree(self@, root)
    }

    /// The identifiers in use lie below the next one to be handed out.
    pub proof fn lemma_ids_below_fresh(&self)
        requires
            self.wf(),
        ensures
            forall|k: NodeID| self@.contains_key(k) ==> k < self.fresh_id(),
    {
    }

    /// The identifier that the next node will get.
    pub closed spec fn fresh_id(&self) -> NodeID {
        self.next_id
    }

    /// An arena without nodes.
    pub fn new() -> (list: Self)
        ensures
            list.wf(),
            list@ == Map::<NodeID, MoveTreeNode<G>>::empty(),
            list.fresh_id() == 0,
    {
        NodeList { nodes: HashMap::new(), next_id: 0 }
    }

    /// Stores `node` under an identifier that no node has had before.
    pub fn add(&mut self, node: MoveTreeNode<G>) -> (id: NodeID)
        requires
            old(self).wf(),
            old(self).fresh_id() < usize::MAX,
        ensures
            final(self).wf(),
            id == old(self).fresh_id(),
            final(self).fresh_id() == id + 1,
            !old(self)@.contains_key(id),
            final(self)@ == old(self)@.insert(id, node),
    {
        let id = self.next_id;
        self.nodes.insert(id, node);
        self.next_id += 1;
        id
    }

    /// How many more identifiers the arena can hand out.
    pub fn room(&self) -> (left: usize)
        ensures
            left == usize::MAX - self.fresh_id(),
    {
        usize::MAX - self.next_id
    }

    /// Whether the arena holds a node under `node`.
    pub fn contains(&self, node: NodeID) -> (held: bool)
        ensures
            held == self@.contains_key(node),
    {
        self.nodes.contains_key(&node)
    }

    /// The node held under `node`, to look at.
    pub fn get(&self, node: NodeID) -> (found: &MoveTreeNode<G>)
        requires
            self@.contains_key(node),
        ensures
            *found == self@[node],
    {
        self.nodes.get(&node).unwrap()
    }

    /// `HashMap::get_mut` on the arena's map: a mutable reference to the node
    /// held under `node`. Whatever the caller leaves behind the reference is
    /// what the arena holds under `node` afterwards; no other entry changes.
    /// The map has an entry for every identifier that `requires` admits, so the
    /// lookup does not fail.
    #[verifier::external_body]
    pub fn get_mut(&mut self, node: NodeID) -> (found: &mut MoveTreeNode<G>)
        requires
            old(self)@.contains_key(node),
        ensures
            *found == old(self)@[node],
            final(self)@ == old(self)@.insert(node, *final(found)),
            final(self).fresh_id() == old(self).fresh_id(),
            old(self).wf() ==> final(self).wf(),
    {
        self.nodes.get_mut(&node).unwrap()
    }

    /// Checks a node out of the arena. Until it is restored its identifier
    /// resolves to nothing.
    pub fn take(&mut self, node_id: NodeID) -> (node: MoveTreeNode<G>)
        requires
            old(self)@.contains_key(node_id),
        ensures
            old(self).wf() ==> final(self).wf(),
            node == old(self)@[node_id],
            final(self)@ == old(self)@.remove(node_id),
            final(self).fresh_id() == old(self).fresh_id(),
    {
        self.nodes.remove(&node_id).unwrap()
    }

    /// Checks a node back in under an identifier that the arena has handed out.
    pub fn restore(&mut self, node_id: NodeID, node: MoveTreeNode<G>)
        ensures
            old(self).wf() && node_id < old(self).fresh_id() ==> final(self).wf(),
            final(self)@ == old(self)@.insert(node_id, node),
            final(self).fresh_id() == old(self).fresh_id(),
    {
        self.nodes.insert(node_id, node);
    }

    /// Discards `node_id` and, edge by edge, everything below it, but spares
    /// `except` together with what hangs below it. Where the arena holds no node
    /// under `node_id`, nothing is discarded.
    ///
    /// It is up to the caller that no edge in the arena leads to `node_id`.
    pub fn drop_node(&mut self, node_id: NodeID, except: NodeID)
        requires
            linked(old(self)@, except),
            unreferenced(old(self)@, node_id),
        ensures
            final(self)@ == if old(self)@.contains_key(node_id) {
                old(self)@.remove_keys(discarded(old(self)@, node_id, except))
            } else {
                old(self)@
            },
            final(self).fresh_id() == old(self).fresh_id(),
            old(self).wf() ==> final(self).wf(),
        decreases usize::MAX - node_id,
    {
        let ghost m = self@;
        let ghost fresh = self.fresh_id();
        let ghost was_wf = self.wf();
        if let Some(node) = self.nodes.remove(&node_id) {
            assert(m.remove(node_id) =~= m.remove_keys(gone_after(m, node_id, 0, except)));
            let mut i: usize = 0;
            while i < node.children.len()
                invariant
                    i <= node.children.len(),
                    m.contains_key(node_id),
                    node == m[node_id],
                    linked(m, except),
                    unreferenced(m, node_id),
                    self@ == m.remove_keys(gone_after(m, node_id, i as int, except)),
                    self.fresh_id() == fresh,
                    was_wf ==> self.wf(),
                decreases node.children.len() - i,
            {
                let child = node.children[i].1.node;
                proof {
                    lemma_rest_is_linked(m, node_id, i as int, except);
                    assert(node_id < m[node_id].children@[i as int].1.node);
                }
                let ghost rest = self@;
                if child != except {
                    self.drop_node(child, except);
                }
                proof {
                    let before = gone_after(m, node_id, i as int, except);
                    let after = gone_after(m, node_id, i + 1, except);
                    assert forall|n: NodeID| #[trigger] self@.contains_key(n) <==> (m.contains_key(n)
                        && !after.contains(n)) by {
                        if m.contains_key(n) && n != node_id {
                            if below_first(m, node_id, i as int, except, n) {
                                assert(below_first(m, node_id, i + 1, except, n));
                            }
                            if child != except && rest.contains_key(child) {
                                if reaches(rest, child, except, n) {
                                    lemma_reaches_in_larger(rest, m, child, except, n);
                                }
                                if reaches(m, child, except, n) {
                                    assert(below_first(m, node_id, i + 1, except, n));
                                }
                            }
                            if child != except && !rest.contains_key(child) && reaches(
                                m,
                                child,
                                except,
                                n,
                            ) {
                                // the child went with an earlier edge, and with it all below it
                                assert(m.contains_key(child));
                                assert(before.contains(child));
                                let j = choose|j: int|
                                    0 <= j < i && j < m[node_id].children@.len() && (
                                    #[trigger] m[node_id].children@[j]).1.node != except && reaches(
                                        m,
                                        m[node_id].children@[j].1.node,
                                        except,
                                        child,
                                    );
                                lemma_reaches_transitive(
                                    m,
                                    m[node_id].children@[j].1.node,
                                    child,
                                    except,
                                    n,
                                );
                                assert(below_first(m, node_id, i as int, except, n));
                            }
                            if below_first(m, node_id, i + 1, except, n) && !below_first(
                                m,
                                node_id,
                                i as int,
                                except,
                                n,
                            ) {
                                assert(child != except && reaches(m, child, except, n));
                            }
                        }
                    }
                    assert(self@ =~= m.remove_keys(after));
                }
                i += 1;
            }
            proof {
                lemma_gone_is_discarded(m, node_id, except);
            }
        }
    }
}

} // verus!
