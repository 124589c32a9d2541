//! Depth-first walk of a control-flow graph from its root: the order in which
//! nodes are entered and left, and the tree edges of the walk.

use crate::walk::{
    depth_first, depth_first_order, depth_limit, lemma_depth_first_order,
    lemma_explore_continues, successors, Walk,
};
use std::collections::{HashMap, HashSet};
use vstd::prelude::*;
use vstd::std_specs::hash::spec_hash_map_len;

verus! {

/// A node of a control-flow graph, named by a number.
#[derive(Debug, Clone, Copy, PartialEq, Eq, Hash, Structural)]
pub struct Node {
    pub id: usize,
}

/// A control-flow graph with a root.
pub struct CfgGraph {
    /// Where every walk starts.
    pub root: Node,
    /// The nodes of the graph.
    pub nodes: Vec<Node>,
    /// The successors of each node, in the order in which they are walked,
    /// by the number of the node. A node without an entry has no successor.
    pub edges: HashMap<usize, Vec<Node>>,
}

/// What a depth-first walk found, by the number of the node.
pub struct VisitOrder {
    /// How many nodes were entered before the node.
    pub pre: HashMap<usize, usize>,
    /// How many nodes were left before the node.
    pub post: HashMap<usize, usize>,
    /// The successor through which the walk last went on from the node.
    pub spanning_tree: HashMap<usize, Node>,
}

impl View for VisitOrder {
    type V = Walk;

    /// The walk that found this order.
    open spec fn view(&self) -> Walk {
        Walk { pre: self.pre@, post: self.post@, spanning_tree: self.spanning_tree@ }
    }
}

/// The walk that the collections of the search stand for.
pub open spec fn walk_of(
    pre: Map<usize, usize>,
    post: Map<usize, usize>,
    spanning_tree: Map<usize, Node>,
) -> Walk {
    Walk { pre, post, spanning_tree }
}

/// Visits `node`: passes it by if it was entered before, and else enters it,
/// visits in their order the successors that have not been entered when
/// their turn comes, and leaves it. `depth` bounds the nesting of visits from
/// above; it is never used up, because every nested visit has entered one
/// node more.
fn dfs(
    node: &Node,
    graph: &CfgGraph,
    visited: &mut HashSet<usize>,
    pre: &mut HashMap<usize, usize>,
    post: &mut HashMap<usize, usize>,
    spanning_tree: &mut HashMap<usize, Node>,
    pre_time: &mut usize,
    post_time: &mut usize,
    Ghost(depth): Ghost<nat>,
)
    requires
        old(visited)@ == old(pre)@.dom(),
        *old(pre_time) == old(pre)@.len(),
        *old(post_time) == old(post)@.len(),
        walk_of(old(pre)@, old(post)@, old(spanning_tree)@).well_formed(),
        depth + old(pre)@.len() >= depth_limit(),
    ensures
        final(visited)@ == final(pre)@.dom(),
        *final(pre_time) == final(pre)@.len(),
        *final(post_time) == final(post)@.len(),
        walk_of(final(pre)@, final(post)@, final(spanning_tree)@) == walk_of(
            old(pre)@,
            old(post)@,
            old(spanning_tree)@,
        ).visit(graph.edges@, *node, depth),
    decreases depth,
{
    let ghost start = walk_of(pre@, post@, spanning_tree@);
    if !visited.insert(node.id) {
        return ;
    }
    pre.insert(node.id, *pre_time);
    proof {
        // The map holds one node more than the counter says, and its length
        // is a number of the machine: the counter can be advanced.
        assert(spec_hash_map_len(pre) == pre@.len());
    }
    *pre_time += 1;

    let ghost entered = start.enter(*node);
    let ghost below = (depth - 1) as nat;
    if let Some(successors) = graph.edges.get(&node.id) {
        let mut i: usize = 0;
        while i < successors.len()
            invariant
                i <= successors.len(),
                graph.edges@.contains_key(node.id),
                graph.edges@[node.id] == successors,
                entered.well_formed(),
                depth > 0,
                below == depth - 1,
                below + entered.pre.len() >= depth_limit(),
                visited@ == pre@.dom(),
                *pre_time == pre@.len(),
                *post_time == post@.len(),
                walk_of(pre@, post@, spanning_tree@) == entered.explore(
                    graph.edges@,
                    *node,
                    i as nat,
                    below,
                ),
            decreases successors.len() - i,
        {
            let successor = &successors[i];
            let ghost before = walk_of(pre@, post@, spanning_tree@);
            proof {
                lemma_explore_continues(entered, graph.edges@, *node, i as nat, below);
                vstd::set_lib::lemma_len_subset(entered.pre.dom(), before.pre.dom());
            }
            if !visited.contains(&successor.id) {
                spanning_tree.insert(node.id, *successor);
                dfs(
                    successor,
                    graph,
                    visited,
                    pre,
                    post,
                    spanning_tree,
                    pre_time,
                    post_time,
                    Ghost(below),
                );
            }
            i += 1;
        }
    }
    let ghost explored = walk_of(pre@, post@, spanning_tree@);
    proof {
        lemma_explore_continues(
            entered,
            graph.edges@,
            *node,
            successors(graph.edges@, node.id).len(),
            below,
        );
    }
    post.insert(node.id, *post_time);
    proof {
        assert(spec_hash_map_len(post) == post@.len());
        assert(post@ =~= explored.leave(*node).post);
    }
    *post_time += 1;
}

/// Walks the graph depth first from its root, taking the successors of each
/// node in their order. It numbers the nodes that can be reached from the
/// root, and no other, in the order in which it enters them and in the order
/// in which it leaves them, and records for each node the successor through
/// which it last went on to a new node.
pub fn dfs_search(graph: &CfgGraph) -> (order: VisitOrder)
    ensures
        order@ == depth_first(graph.root, graph.edges@),
        depth_first_order(order@, graph.root, graph.edges@),
{
    let mut pre: HashMap<usize, usize> = HashMap::new();
    let mut post: HashMap<usize, usize> = HashMap::new();
    let mut spanning_tree: HashMap<usize, Node> = HashMap::new();
    let mut visited: HashSet<usize> = HashSet::new();
    let mut pre_time: usize = 0;
    let mut post_time: usize = 0;

    dfs(
        &graph.root,
        graph,
        &mut visited,
        &mut pre,
        &mut post,
        &mut spanning_tree,
        &mut pre_time,
        &mut post_time,
        Ghost(depth_limit()),
    );
    proof {
        lemma_depth_first_order(graph.root, graph.edges@);
    }

    VisitOrder { pre, post, spanning_tree }
}

} // verus!
