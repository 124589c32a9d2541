//! The depth-first walk of a graph, step by step, and what it finds: the
//! nodes that can be reached from the root, numbered without gaps as they
//! are entered and as they are left, and tree edges that lead from earlier
//! to later nodes.

use crate::dfs::Node;
use vstd::prelude::*;

verus! {

/// A depth-first walk, as far as it has come.
pub struct Walk {
    /// The nodes entered so far, each with the number of nodes entered before it.
    pub pre: Map<usize, usize>,
    /// The nodes left so far, each with the number of nodes left before it.
    pub post: Map<usize, usize>,
    /// For each node from which the walk went on to a new node, the last such
    /// new node.
    pub spanning_tree: Map<usize, Node>,
}

/// No walk goes deeper than there are node numbers.
pub open spec fn depth_limit() -> nat {
    (usize::MAX + 1) as nat
}

/// The successors of the node `node`, in the order in which they are walked.
pub open spec fn successors(edges: Map<usize, Vec<Node>>, node: usize) -> Seq<Node> {
    if edges.contains_key(node) {
        edges[node]@
    } else {
        Seq::empty()
    }
}

impl Walk {
    /// The walk that has not started.
    pub open spec fn new() -> Walk {
        Walk { pre: Map::empty(), post: Map::empty(), spanning_tree: Map::empty() }
    }

    /// The walk after `node` has been entered.
    pub open spec fn enter(self, node: Node) -> Walk {
        Walk { pre: self.pre.insert(node.id, self.pre.len() as usize), ..self }
    }

    /// The walk after `node` has been left.
    pub open spec fn leave(self, node: Node) -> Walk {
        Walk { post: self.post.insert(node.id, self.post.len() as usize), ..self }
    }

    /// The walk after it has gone on from `node` to `next`.
    pub open spec fn descend(self, node: Node, next: Node) -> Walk {
        Walk { spanning_tree: self.spanning_tree.insert(node.id, next), ..self }
    }

    /// The walk after it has reached `node`, with `depth` nested visits to
    /// spare: a node entered before is passed by; a new node is entered, its
    /// successors are explored in order, and it is left.
    pub open spec fn visit(self, edges: Map<usize, Vec<Node>>, node: Node, depth: nat) -> Walk
        decreases depth, 0nat,
    {
        if depth == 0 || self.pre.contains_key(node.id) {
            self
        } else {
            self.enter(node).explore(
                edges,
                node,
                successors(edges, node.id).len(),
                (depth - 1) as nat,
            ).leave(node)
        }
    }

    /// The walk after the first `count` successors of `node` have been
    /// handled: each that had not been entered when its turn came was
    /// visited, and recorded as the node to which the walk went on from
    /// `node`.
    pub open spec fn explore(
        self,
        edges: Map<usize, Vec<Node>>,
        node: Node,
        count: nat,
        depth: nat,
    ) -> Walk
        decreases depth, count,
    {
        if count == 0 {
            self
        } else {
            let before = self.explore(edges, node, (count - 1) as nat, depth);
            let next = successors(edges, node.id)[count - 1];
            if before.pre.contains_key(next.id) {
                before
            } else {
                before.descend(node, next).visit(edges, next, depth)
            }
        }
    }

    /// Every node that was left was entered, and finitely many were.
    pub open spec fn well_formed(self) -> bool {
        &&& self.pre.dom().finite()
        &&& self.post.dom().finite()
        &&& self.post.dom().subset_of(self.pre.dom())
    }

    /// The walk `later` continues this one: it has entered and left what this
    /// one had, and the nodes that it has left since are nodes that it has
    /// entered since.
    pub open spec fn continued_by(self, later: Walk) -> bool {
        &&& self.pre.dom().subset_of(later.pre.dom())
        &&& self.post.dom().subset_of(later.post.dom())
        &&& forall|n: usize| #[trigger]
            later.post.contains_key(n) ==> self.post.contains_key(n) || !self.pre.contains_key(n)
    }
}

/// The depth-first walk of the graph from its root.
pub open spec fn depth_first(root: Node, edges: Map<usize, Vec<Node>>) -> Walk {
    Walk::new().visit(edges, root, depth_limit())
}

/// A visit continues the walk and keeps it well formed.
pub proof fn lemma_visit_continues(
    walk: Walk,
    edges: Map<usize, Vec<Node>>,
    node: Node,
    depth: nat,
)
    requires
        walk.well_formed(),
    ensures
        walk.visit(edges, node, depth).well_formed(),
        walk.continued_by(walk.visit(edges, node, depth)),
    decreases depth, 0nat,
{
    if !(depth == 0 || walk.pre.contains_key(node.id)) {
        let entered = walk.enter(node);
        let count = successors(edges, node.id).len();
        lemma_explore_continues(entered, edges, node, count, (depth - 1) as nat);
    }
}

/// Exploring successors continues the walk and keeps it well formed.
pub proof fn lemma_explore_continues(
    walk: Walk,
    edges: Map<usize, Vec<Node>>,
    node: Node,
    count: nat,
    depth: nat,
)
    requires
        walk.well_formed(),
    ensures
        walk.explore(edges, node, count, depth).well_formed(),
        walk.continued_by(walk.explore(edges, node, count, depth)),
    decreases depth, count,
{
    if count > 0 {
        lemma_explore_continues(walk, edges, node, (count - 1) as nat, depth);
        let before = walk.explore(edges, node, (count - 1) as nat, depth);
        let next = successors(edges, node.id)[count - 1];
        if !before.pre.contains_key(next.id) {
            lemma_visit_continues(before.descend(node, next), edges, next, depth);
        }
    }
}


/// The graph has an edge from `from` to `to`.
pub open spec fn has_edge(edges: Map<usize, Vec<Node>>, from: usize, to: usize) -> bool {
    exists|i: int|
        0 <= i < successors(edges, from).len() && (#[trigger] successors(edges, from)[i]).id == to
}

/// `path` is a list of nodes, each but the first a successor of the one
/// before it.
pub open spec fn is_path(edges: Map<usize, Vec<Node>>, path: Seq<usize>) -> bool {
    &&& path.len() > 0
    &&& forall|i: int| 0 < i < path.len() ==> has_edge(edges, path[i - 1], #[trigger] path[i])
}

/// A path leads from `root` to `node`.
pub open spec fn reachable(edges: Map<usize, Vec<Node>>, root: usize, node: usize) -> bool {
    exists|path: Seq<usize>| #[trigger]
        is_path(edges, path) && path[0] == root && path.last() == node
}

/// The numbers are those from zero up to the number of keys, each given to
/// one key.
pub open spec fn numbered(times: Map<usize, usize>) -> bool {
    &&& times.dom().finite()
    &&& forall|n: usize| #[trigger] times.contains_key(n) ==> times[n] < times.len()
    &&& forall|a: usize, b: usize|
        #[trigger] times.contains_key(a) && #[trigger] times.contains_key(b) && times[a]
            == times[b] ==> a == b
}

/// The tree edge recorded for `n` starts at an entered node and is an edge
/// of the graph.
pub open spec fn linked(walk: Walk, edges: Map<usize, Vec<Node>>, n: usize) -> bool {
    &&& walk.pre.contains_key(n)
    &&& exists|i: int|
        0 <= i < successors(edges, n).len() && #[trigger] successors(edges, n)[i]
            == walk.spanning_tree[n]
}

/// The tree edge recorded for `n` leads to a node that was entered after `n`
/// and, once `n` is left, was left before it.
pub open spec fn settled(walk: Walk, n: usize) -> bool {
    let child = walk.spanning_tree[n].id;
    &&& walk.pre.contains_key(child)
    &&& walk.pre[n] < walk.pre[child]
    &&& walk.post.contains_key(n) ==> walk.post.contains_key(child) && walk.post[child]
        < walk.post[n]
}

/// The tree edge recorded for `n` leads to the node `arriving`, which is
/// about to be entered.
pub open spec fn arriving_at(walk: Walk, n: usize, arriving: usize) -> bool {
    &&& walk.spanning_tree[n].id == arriving
    &&& !walk.pre.contains_key(arriving)
    &&& !walk.post.contains_key(n)
}

/// The walk has dealt with the edge from `n` to `to`: it has entered `to`, no
/// later than `n` or else so that it left `to` before `n`. So no edge leads
/// from a node that was left to a node that was entered after that.
pub open spec fn explored_edge(walk: Walk, n: usize, to: usize) -> bool {
    &&& walk.pre.contains_key(to)
    &&& walk.pre[to] <= walk.pre[n] || (walk.post.contains_key(to) && walk.post[to]
        < walk.post[n])
}

/// What holds of the nodes of a walk whatever its tree edges: they are
/// numbered, those left were entered and have no edge that the walk has not
/// dealt with, and all can be reached from `root`.
pub open spec fn grounded(walk: Walk, edges: Map<usize, Vec<Node>>, root: usize) -> bool {
    &&& numbered(walk.pre)
    &&& numbered(walk.post)
    &&& forall|n: usize| #[trigger] walk.post.contains_key(n) ==> walk.pre.contains_key(n)
    &&& forall|n: usize| #[trigger] walk.pre.contains_key(n) ==> reachable(edges, root, n)
    &&& forall|n: usize, i: int|
        #[trigger] walk.post.contains_key(n) && 0 <= i < successors(edges, n).len()
            ==> explored_edge(walk, n, (#[trigger] successors(edges, n)[i]).id)
}

/// What holds of a walk between two visits.
pub open spec fn sound(walk: Walk, edges: Map<usize, Vec<Node>>, root: usize) -> bool {
    &&& grounded(walk, edges, root)
    &&& forall|n: usize| #[trigger]
        walk.spanning_tree.contains_key(n) ==> linked(walk, edges, n) && settled(walk, n)
}

/// What holds of a walk that has gone on to the node `arriving` and has not
/// entered it yet.
pub open spec fn sound_but(
    walk: Walk,
    edges: Map<usize, Vec<Node>>,
    root: usize,
    arriving: usize,
) -> bool {
    &&& grounded(walk, edges, root)
    &&& forall|n: usize| #[trigger]
        walk.spanning_tree.contains_key(n) ==> linked(walk, edges, n) && (settled(walk, n)
            || arriving_at(walk, n, arriving))
}

/// The walk `later` goes on from `walk`: it has kept what `walk` had
/// numbered, every node it has left since is one that it has entered since,
/// and every node it has entered since is left.
pub open spec fn extends(walk: Walk, later: Walk) -> bool {
    &&& forall|n: usize| #[trigger]
        walk.pre.contains_key(n) ==> later.pre.contains_key(n) && later.pre[n] == walk.pre[n]
    &&& forall|n: usize| #[trigger]
        walk.post.contains_key(n) ==> later.post.contains_key(n) && later.post[n] == walk.post[n]
    &&& forall|n: usize| #[trigger]
        later.post.contains_key(n) ==> walk.post.contains_key(n) || !walk.pre.contains_key(n)
    &&& forall|n: usize| #[trigger]
        later.pre.contains_key(n) ==> walk.pre.contains_key(n) || later.post.contains_key(n)
    &&& walk.pre.len() <= later.pre.len()
}

/// The walk `later` has the tree edges of `walk` from every node that `walk`
/// had entered, but perhaps from `node`.
pub open spec fn tree_kept(walk: Walk, later: Walk, node: usize) -> bool {
    forall|n: usize| #[trigger]
        walk.pre.contains_key(n) && n != node ==> later.spanning_tree.contains_key(n)
            == walk.spanning_tree.contains_key(n) && later.spanning_tree[n]
            == walk.spanning_tree[n]
}

/// There are no more node numbers than the machine has numbers.
pub proof fn lemma_usize_set_bound(s: Set<usize>)
    requires
        s.finite(),
    ensures
        s.len() <= usize::MAX + 1,
{
    let widen = |x: usize| x as int;
    let image = s.map(widen);
    vstd::set_lib::lemma_map_size(s, image, widen);
    let all = vstd::set_lib::set_int_range(0, usize::MAX + 1);
    vstd::set_lib::lemma_int_range(0, usize::MAX + 1);
    vstd::set_lib::lemma_len_subset(image, all);
}

/// A finite set of node numbers that lacks a number is smaller than the set
/// of all numbers.
pub proof fn lemma_room_left(s: Set<usize>, missing: usize)
    requires
        s.finite(),
        !s.contains(missing),
    ensures
        s.len() <= usize::MAX,
{
    lemma_usize_set_bound(s.insert(missing));
}

/// Giving a new key the next number keeps the numbers without gaps.
pub proof fn lemma_numbered_insert(times: Map<usize, usize>, key: usize)
    requires
        numbered(times),
        !times.contains_key(key),
    ensures
        numbered(times.insert(key, times.len() as usize)),
        times.insert(key, times.len() as usize).len() == times.len() + 1,
        times.len() <= usize::MAX,
{
    lemma_room_left(times.dom(), key);
    let more = times.insert(key, times.len() as usize);
    assert forall|a: usize, b: usize|
        #[trigger] more.contains_key(a) && #[trigger] more.contains_key(b) && more[a]
            == more[b] implies a == b by {
    }
}

/// Every node can be reached from itself.
pub proof fn lemma_reach_self(edges: Map<usize, Vec<Node>>, root: usize)
    ensures
        reachable(edges, root, root),
{
    let path = seq![root];
    assert(is_path(edges, path));
}

/// A successor of a node that can be reached can be reached.
pub proof fn lemma_reach_step(edges: Map<usize, Vec<Node>>, root: usize, from: usize, to: usize)
    requires
        reachable(edges, root, from),
        has_edge(edges, from, to),
    ensures
        reachable(edges, root, to),
{
    let path = choose|path: Seq<usize>| #[trigger]
        is_path(edges, path) && path[0] == root && path.last() == from;
    let longer = path.push(to);
    assert(is_path(edges, longer));
}

/// Entering the node at which a walk arrives makes the walk sound.
pub proof fn lemma_enter_sound(walk: Walk, edges: Map<usize, Vec<Node>>, root: usize, node: Node)
    requires
        sound_but(walk, edges, root, node.id),
        !walk.pre.contains_key(node.id),
        reachable(edges, root, node.id),
    ensures
        sound(walk.enter(node), edges, root),
        walk.enter(node).pre.len() == walk.pre.len() + 1,
        walk.pre.len() <= usize::MAX,
        walk.enter(node).pre[node.id] == walk.pre.len(),
        !walk.enter(node).post.contains_key(node.id),
        !walk.enter(node).spanning_tree.contains_key(node.id),
{
    let entered = walk.enter(node);
    lemma_numbered_insert(walk.pre, node.id);
    assert forall|n: usize| #[trigger] entered.spanning_tree.contains_key(n) implies linked(
        entered,
        edges,
        n,
    ) && settled(entered, n) by {
        assert(linked(walk, edges, n));
        assert(walk.pre.contains_key(n));
    }
}

/// Leaving a node whose successors have all been entered keeps the walk
/// sound.
pub proof fn lemma_leave_sound(walk: Walk, edges: Map<usize, Vec<Node>>, root: usize, node: Node)
    requires
        sound(walk, edges, root),
        walk.pre.contains_key(node.id),
        !walk.post.contains_key(node.id),
        forall|i: int|
            0 <= i < successors(edges, node.id).len() ==> walk.pre.contains_key(
                (#[trigger] successors(edges, node.id)[i]).id,
            ),
        walk.spanning_tree.contains_key(node.id) ==> walk.post.contains_key(
            walk.spanning_tree[node.id].id,
        ),
        forall|n: usize| #[trigger]
            walk.pre.contains_key(n) ==> walk.pre[n] <= walk.pre[node.id]
                || walk.post.contains_key(n),
    ensures
        sound(walk.leave(node), edges, root),
        walk.leave(node).post[node.id] + 1 == walk.leave(node).post.len(),
{
    let left = walk.leave(node);
    lemma_numbered_insert(walk.post, node.id);
    assert forall|n: usize| #[trigger] left.spanning_tree.contains_key(n) implies linked(
        left,
        edges,
        n,
    ) && settled(left, n) by {
        assert(linked(walk, edges, n) && settled(walk, n));
        let child = walk.spanning_tree[n].id;
        if n != node.id && walk.post.contains_key(n) {
            assert(walk.post.contains_key(child));
        }
    }
}

/// A visit keeps a walk sound, enters the node it is made to, and leaves
/// every node that it enters.
pub proof fn lemma_visit_sound(
    walk: Walk,
    edges: Map<usize, Vec<Node>>,
    root: usize,
    node: Node,
    depth: nat,
)
    requires
        sound_but(walk, edges, root, node.id),
        reachable(edges, root, node.id),
        depth + walk.pre.len() >= depth_limit(),
    ensures
        sound(walk.visit(edges, node, depth), edges, root),
        extends(walk, walk.visit(edges, node, depth)),
        tree_kept(walk, walk.visit(edges, node, depth), node.id),
        walk.visit(edges, node, depth).pre.contains_key(node.id),
        !walk.pre.contains_key(node.id) ==> {
            let after = walk.visit(edges, node, depth);
            &&& after.pre[node.id] == walk.pre.len()
            &&& after.post.contains_key(node.id)
            &&& after.post[node.id] + 1 == after.post.len()
        },
    decreases depth, 0nat,
{
    if walk.pre.contains_key(node.id) {
        assert forall|n: usize| #[trigger] walk.spanning_tree.contains_key(n) implies linked(
            walk,
            edges,
            n,
        ) && settled(walk, n) by {
            assert(!arriving_at(walk, n, node.id));
        }
    } else {
        lemma_enter_sound(walk, edges, root, node);
        let entered = walk.enter(node);
        let count = successors(edges, node.id).len();
        let below = (depth - 1) as nat;
        lemma_explore_sound(entered, edges, root, node, count, below);
        let explored = entered.explore(edges, node, count, below);
        assert(entered.pre.contains_key(node.id));
        lemma_leave_sound(explored, edges, root, node);
        let after = explored.leave(node);
        assert(extends(walk, after)) by {
            assert forall|n: usize| #[trigger] walk.pre.contains_key(n) implies {
                &&& after.pre.contains_key(n)
                &&& after.pre[n] == walk.pre[n]
            } by {
                assert(entered.pre.contains_key(n));
            }
        }
    }
}

/// Exploring the successors of an entered node keeps a walk sound, enters
/// every successor it handles, and leaves every node that it enters.
pub proof fn lemma_explore_sound(
    walk: Walk,
    edges: Map<usize, Vec<Node>>,
    root: usize,
    node: Node,
    count: nat,
    depth: nat,
)
    requires
        sound(walk, edges, root),
        walk.pre.contains_key(node.id),
        !walk.post.contains_key(node.id),
        count <= successors(edges, node.id).len(),
        depth + walk.pre.len() >= depth_limit(),
        walk.spanning_tree.contains_key(node.id) ==> walk.post.contains_key(
            walk.spanning_tree[node.id].id,
        ),
    ensures
        sound(walk.explore(edges, node, count, depth), edges, root),
        extends(walk, walk.explore(edges, node, count, depth)),
        tree_kept(walk, walk.explore(edges, node, count, depth), node.id),
        !walk.explore(edges, node, count, depth).post.contains_key(node.id),
        forall|i: int|
            0 <= i < count ==> walk.explore(edges, node, count, depth).pre.contains_key(
                (#[trigger] successors(edges, node.id)[i]).id,
            ),
        ({
            let after = walk.explore(edges, node, count, depth);
            after.spanning_tree.contains_key(node.id) ==> after.post.contains_key(
                after.spanning_tree[node.id].id,
            )
        }),
    decreases depth, count,
{
    if count > 0 {
        let fewer = (count - 1) as nat;
        lemma_explore_sound(walk, edges, root, node, fewer, depth);
        let before = walk.explore(edges, node, fewer, depth);
        let next = successors(edges, node.id)[count - 1];
        let after = walk.explore(edges, node, count, depth);
        if before.pre.contains_key(next.id) {
            assert(after == before);
        } else {
            let gone = before.descend(node, next);
            lemma_reach_step(edges, root, node.id, next.id);
            lemma_visit_sound(gone, edges, root, next, depth);
        }
    }
}

/// Every node that can be reached from an entered node of a walk in which
/// every node is left is entered.
pub proof fn lemma_closed_reaches(
    walk: Walk,
    edges: Map<usize, Vec<Node>>,
    root: usize,
    path: Seq<usize>,
)
    requires
        grounded(walk, edges, root),
        forall|n: usize| #[trigger] walk.pre.contains_key(n) ==> walk.post.contains_key(n),
        walk.pre.contains_key(root),
        is_path(edges, path),
        path[0] == root,
    ensures
        walk.pre.contains_key(path.last()),
    decreases path.len(),
{
    if path.len() > 1 {
        let shorter = path.drop_last();
        lemma_closed_reaches(walk, edges, root, shorter);
        let from = shorter.last();
        let i = choose|i: int|
            0 <= i < successors(edges, from).len() && (#[trigger] successors(edges, from)[i]).id
                == path.last();
        assert(explored_edge(walk, from, successors(edges, from)[i].id));
    }
}

/// `walk` is a full depth-first walk of the graph from `root`: it has entered
/// and left the nodes that can be reached from `root` and no other; it has
/// numbered them without gaps in the order in which it entered them, the root
/// first, and in the order in which it left them, the root last; no edge
/// leads from a node to one that was entered after the node was left; and
/// each of its tree edges is an edge of the graph to a node that was entered
/// later and left earlier than the node it starts from.
pub open spec fn depth_first_order(walk: Walk, root: Node, edges: Map<usize, Vec<Node>>) -> bool {
    &&& forall|n: usize| walk.pre.contains_key(n) <==> reachable(edges, root.id, n)
    &&& forall|n: usize| walk.post.contains_key(n) <==> reachable(edges, root.id, n)
    &&& numbered(walk.pre)
    &&& numbered(walk.post)
    &&& walk.pre[root.id] == 0
    &&& walk.post[root.id] + 1 == walk.post.len()
    &&& forall|n: usize, i: int|
        #[trigger] walk.post.contains_key(n) && 0 <= i < successors(edges, n).len()
            ==> explored_edge(walk, n, (#[trigger] successors(edges, n)[i]).id)
    &&& forall|n: usize| #[trigger]
        walk.spanning_tree.contains_key(n) ==> linked(walk, edges, n) && settled(walk, n)
}

/// The depth-first walk of a graph from its root is a full depth-first walk.
pub proof fn lemma_depth_first_order(root: Node, edges: Map<usize, Vec<Node>>)
    ensures
        depth_first_order(depth_first(root, edges), root, edges),
{
    let start = Walk::new();
    let walk = depth_first(root, edges);
    lemma_reach_self(edges, root.id);
    lemma_visit_sound(start, edges, root.id, root, depth_limit());
    assert forall|n: usize| reachable(edges, root.id, n) implies walk.pre.contains_key(n) by {
        let path = choose|path: Seq<usize>| #[trigger]
            is_path(edges, path) && path[0] == root.id && path.last() == n;
        lemma_closed_reaches(walk, edges, root.id, path);
    }
}

} // verus!
