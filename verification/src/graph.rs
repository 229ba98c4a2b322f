//! The trie as a mathematical object: a sequence of nodes that name each
//! other by position, and what insertion, lookup and removal mean on it.

use crate::key::{span_of, NodeKey};
use vstd::prelude::*;

verus! {

/// A vertex: labelled edges to children, unlabelled skip edges that jump over
/// one stored group, and the values stored here. Nodes are named by their
/// position in the graph; node 0 is the root.
pub struct NodeModel<K, V> {
    pub children: Seq<(NodeKey<K>, usize)>,
    pub skip_pars: Seq<usize>,
    pub values: Seq<V>,
}

/// A trie: its nodes, the root first.
pub type Graph<K, V> = Seq<NodeModel<K, V>>;

/// One way on from a node: the node to visit next, the position in the query
/// from which to go on there, and whether a skip edge leads there.
#[derive(Clone, Copy, Debug)]
pub struct Successor {
    pub node: usize,
    pub pos: usize,
    pub via_skip: bool,
}

impl<K, V> NodeModel<K, V> {
    /// A node without edges and values.
    pub open spec fn vacant() -> Self {
        NodeModel { children: Seq::empty(), skip_pars: Seq::empty(), values: Seq::empty() }
    }

    /// No children, no skip edges, no values.
    pub open spec fn is_vacant(self) -> bool {
        self.children.len() == 0 && self.skip_pars.len() == 0 && self.values.len() == 0
    }

    /// Whether an edge with this label leaves the node.
    pub open spec fn has_child(self, label: NodeKey<K>) -> bool {
        exists|j: int| 0 <= j < self.children.len() && (#[trigger] self.children[j]).0 == label
    }

    /// The position of the edge with this label among the node's edges.
    pub open spec fn child_index(self, label: NodeKey<K>) -> int {
        choose|j: int| 0 <= j < self.children.len() && (#[trigger] self.children[j]).0 == label
    }

    /// The child that the edge with this label leads to.
    pub open spec fn child(self, label: NodeKey<K>) -> Option<usize> {
        if self.has_child(label) {
            Some(self.children[self.child_index(label)].1)
        } else {
            None
        }
    }

    /// Whether a labelled edge leads to `target`.
    pub open spec fn has_child_node(self, target: usize) -> bool {
        exists|j: int| 0 <= j < self.children.len() && (#[trigger] self.children[j]).1 == target
    }

    /// The position of the labelled edge that leads to `target`.
    pub open spec fn child_node_index(self, target: usize) -> int {
        choose|j: int| 0 <= j < self.children.len() && (#[trigger] self.children[j]).1 == target
    }

    /// The node's invariant in a graph of `size` nodes: edges lead to nodes of
    /// the graph, no label and no child occurs twice, and skip edges and
    /// values are sets.
    pub open spec fn wf(self, size: nat) -> bool {
        &&& forall|j: int| 0 <= j < self.children.len() ==> (#[trigger] self.children[j]).1 < size
        &&& forall|j: int| 0 <= j < self.skip_pars.len() ==> (#[trigger] self.skip_pars[j]) < size
        &&& forall|i: int, j: int|
            0 <= i < j < self.children.len() ==> (#[trigger] self.children[i]).0 != (
            #[trigger] self.children[j]).0
        &&& forall|i: int, j: int|
            0 <= i < j < self.children.len() ==> (#[trigger] self.children[i]).1 != (
            #[trigger] self.children[j]).1
        &&& self.skip_pars.no_duplicates()
        &&& self.values.no_duplicates()
    }
}

/// The graph's invariant: there is a root, and every node is well formed.
pub open spec fn graph_wf<K, V>(g: Graph<K, V>) -> bool {
    &&& g.len() >= 1
    &&& forall|n: int| 0 <= n < g.len() ==> (#[trigger] g[n]).wf(g.len())
}

/// The trie with the root alone.
pub open spec fn empty_graph<K, V>() -> Graph<K, V> {
    seq![NodeModel::vacant()]
}

/// `s` without `x`.
pub open spec fn without<T>(s: Seq<T>, x: T) -> Seq<T> {
    if s.contains(x) {
        s.remove(s.index_of(x))
    } else {
        s
    }
}

/// `s` with `x` in it: appended where it was missing.
pub open spec fn including<T>(s: Seq<T>, x: T) -> Seq<T> {
    if s.contains(x) {
        s
    } else {
        s.push(x)
    }
}

/// The way on through an edge that may be missing.
pub open spec fn through(child: Option<usize>, pos: usize) -> Seq<Successor> {
    match child {
        Some(c) => seq![Successor { node: c, pos, via_skip: false }],
        None => Seq::empty(),
    }
}

/// The ways on through those of the first `k` labelled edges whose label is
/// no grouping marker.
pub open spec fn through_plain_children<K>(
    children: Seq<(NodeKey<K>, usize)>,
    pos: usize,
    k: int,
) -> Seq<Successor>
    decreases k,
{
    if k <= 0 {
        Seq::empty()
    } else {
        let before = through_plain_children(children, pos, k - 1);
        if children[k - 1].0.is_par() {
            before
        } else {
            before.push(Successor { node: children[k - 1].1, pos, via_skip: false })
        }
    }
}

/// The ways on through the skip edges.
pub open spec fn through_skips(skip_pars: Seq<usize>, pos: usize) -> Seq<Successor> {
    Seq::new(skip_pars.len(), |j: int| Successor { node: skip_pars[j], pos, via_skip: true })
}

/// The matching rules: where a query goes on from node `n` when its token at
/// position `i` is consumed.
///
/// - A symbol follows the edge with that symbol and the wildcard edge.
/// - A closing marker follows the edge with the closing marker.
/// - An opening marker follows the wildcard edge, which consumes the query's
///   whole group, and the edge with the opening marker, which descends into it.
/// - A wildcard follows every edge whose label is no grouping marker, and
///   every skip edge.
pub open spec fn successors<K, V>(g: Graph<K, V>, n: int, tokens: Seq<NodeKey<K>>, i: int) -> Seq<
    Successor,
> {
    let node = g[n];
    let next = (i + 1) as usize;
    match tokens[i] {
        NodeKey::Exact(_) => through(node.child(tokens[i]), next) + through(
            node.child(NodeKey::Wildcard),
            next,
        ),
        NodeKey::RightPar => through(node.child(NodeKey::RightPar), next),
        NodeKey::LeftPar => through(
            node.child(NodeKey::Wildcard),
            (i + span_of(tokens, i) + 1) as usize,
        ) + through(node.child(NodeKey::LeftPar), next),
        NodeKey::Wildcard => through_plain_children(
            node.children,
            next,
            node.children.len() as int,
        ) + through_skips(node.skip_pars, next),
    }
}

/// Whether a way on from position `i` stays inside the graph and the query
/// and consumes at least one token.
pub open spec fn advances<K, V>(
    g: Graph<K, V>,
    tokens: Seq<NodeKey<K>>,
    i: int,
    step: Successor,
) -> bool {
    step.node < g.len() && i < step.pos <= tokens.len()
}

/// What lookup yields from node `n` for the rest of the query from position
/// `i`: at the end of the query the node's values, before it what the
/// successors yield, one after the other.
pub open spec fn matched<K, V>(g: Graph<K, V>, n: int, tokens: Seq<NodeKey<K>>, i: int) -> Seq<V>
    decreases tokens.len() - i, 1int, 0int,
{
    if !(0 <= n < g.len()) {
        Seq::empty()
    } else if i >= tokens.len() {
        g[n].values
    } else if i < 0 {
        Seq::empty()
    } else {
        let steps = successors(g, n, tokens, i);
        matched_through(g, steps, tokens, i, steps.len() as int)
    }
}

/// What lookup yields through the first `k` of `steps`.
pub open spec fn matched_through<K, V>(
    g: Graph<K, V>,
    steps: Seq<Successor>,
    tokens: Seq<NodeKey<K>>,
    i: int,
    k: int,
) -> Seq<V>
    decreases tokens.len() - i, 0int, k,
{
    if k <= 0 || k > steps.len() {
        Seq::empty()
    } else {
        let before = matched_through(g, steps, tokens, i, k - 1);
        let step = steps[k - 1];
        if advances(g, tokens, i, step) {
            before + matched(g, step.node as int, tokens, step.pos as int)
        } else {
            before
        }
    }
}

/// Node `n` with `children` in place of its labelled edges.
pub open spec fn with_children<K, V>(
    g: Graph<K, V>,
    n: int,
    children: Seq<(NodeKey<K>, usize)>,
) -> Graph<K, V> {
    g.update(n, NodeModel { children, skip_pars: g[n].skip_pars, values: g[n].values })
}

/// Node `n` with `skip_pars` in place of its skip edges.
pub open spec fn with_skip_pars<K, V>(g: Graph<K, V>, n: int, skip_pars: Seq<usize>) -> Graph<
    K,
    V,
> {
    g.update(n, NodeModel { children: g[n].children, skip_pars, values: g[n].values })
}

/// Node `n` with `values` in place of its values.
pub open spec fn with_values<K, V>(g: Graph<K, V>, n: int, values: Seq<V>) -> Graph<K, V> {
    g.update(n, NodeModel { children: g[n].children, skip_pars: g[n].skip_pars, values })
}

/// One step of an insertion's walk from node `n` along `label`: the edge's
/// child where the edge exists, else a new vacant node at the end of the
/// graph, with a new edge to it.
pub open spec fn grown<K, V>(g: Graph<K, V>, n: int, label: NodeKey<K>) -> (Graph<K, V>, usize) {
    match g[n].child(label) {
        Some(c) => (g, c),
        None => (
            with_children(g, n, g[n].children.push((label, g.len() as usize))).push(
                NodeModel::vacant(),
            ),
            g.len() as usize,
        ),
    }
}

/// An insertion's walk from the root along the first `k` tokens: the graph
/// with the nodes that the walk had to add, and the nodes that it passed, the
/// root first.
pub open spec fn walked<K, V>(g: Graph<K, V>, tokens: Seq<NodeKey<K>>, k: int) -> (
    Graph<K, V>,
    Seq<usize>,
)
    decreases k,
{
    if k <= 0 {
        (g, seq![0usize])
    } else {
        let (g1, path) = walked(g, tokens, k - 1);
        let (g2, child) = grown(g1, path.last() as int, tokens[k - 1]);
        (g2, path.push(child))
    }
}

/// The graph with a skip edge over each group that opens among the first `k`
/// tokens: from the node before the opening marker to the node behind the
/// closing one.
pub open spec fn with_skips<K, V>(
    g: Graph<K, V>,
    tokens: Seq<NodeKey<K>>,
    path: Seq<usize>,
    k: int,
) -> Graph<K, V>
    decreases k,
{
    if k <= 0 {
        g
    } else {
        let g1 = with_skips(g, tokens, path, k - 1);
        if tokens[k - 1] is LeftPar {
            let from = path[k - 1] as int;
            let to = path[k + span_of(tokens, k - 1)];
            with_skip_pars(g1, from, including(g1[from].skip_pars, to))
        } else {
            g1
        }
    }
}

/// Insertion: the walk along the key, the value put into the last node, and
/// the skip edges over the key's groups.
pub open spec fn inserted<K, V>(g: Graph<K, V>, tokens: Seq<NodeKey<K>>, value: V) -> Graph<K, V> {
    let (g1, path) = walked(g, tokens, tokens.len() as int);
    let last = path.last() as int;
    let g2 = with_values(g1, last, including(g1[last].values, value));
    with_skips(g2, tokens, path, tokens.len() as int)
}

/// The graph without the edge from node `n` that `step` went through: the
/// skip edge to the step's node, or the labelled edge that leads to it.
pub open spec fn unlinked<K, V>(g: Graph<K, V>, n: int, step: Successor) -> Graph<K, V> {
    if step.via_skip {
        with_skip_pars(g, n, without(g[n].skip_pars, step.node))
    } else if g[n].has_child_node(step.node) {
        with_children(g, n, g[n].children.remove(g[n].child_node_index(step.node)))
    } else {
        g
    }
}

/// Removal from node `n` for the rest of the query from position `i`: the
/// graph afterwards, and whether the value left a node. At the end of the
/// query the value leaves the node's values; before it removal goes through
/// every successor in turn.
pub open spec fn removed<K, V>(
    g: Graph<K, V>,
    n: int,
    tokens: Seq<NodeKey<K>>,
    i: int,
    value: V,
) -> (Graph<K, V>, bool)
    decreases tokens.len() - i, 1int, 0int,
{
    if !(0 <= n < g.len()) || i < 0 {
        (g, false)
    } else if i >= tokens.len() {
        (with_values(g, n, without(g[n].values, value)), g[n].values.contains(value))
    } else {
        let steps = successors(g, n, tokens, i);
        removed_through(g, n, steps, tokens, i, steps.len() as int, value)
    }
}

/// Removal through the first `k` of the successors `steps` of node `n`. After
/// each successor from which the value was removed and which is left vacant,
/// the edge that led to it is taken out of node `n`.
pub open spec fn removed_through<K, V>(
    g: Graph<K, V>,
    n: int,
    steps: Seq<Successor>,
    tokens: Seq<NodeKey<K>>,
    i: int,
    k: int,
    value: V,
) -> (Graph<K, V>, bool)
    decreases tokens.len() - i, 0int, k,
{
    if k <= 0 || k > steps.len() {
        (g, false)
    } else {
        let (g1, r1) = removed_through(g, n, steps, tokens, i, k - 1, value);
        let step = steps[k - 1];
        if advances(g1, tokens, i, step) {
            let (g2, r2) = removed(g1, step.node as int, tokens, step.pos as int, value);
            let g3 = if r2 && g2[step.node as int].is_vacant() {
                unlinked(g2, n, step)
            } else {
                g2
            };
            (g3, r1 || r2)
        } else {
            (g1, r1)
        }
    }
}

/// Whether labelled edges lead from the root to node `n` in at most `d`
/// steps.
pub open spec fn reached_within<K, V>(g: Graph<K, V>, n: int, d: nat) -> bool
    decreases d,
{
    if d == 0 {
        n == 0
    } else {
        let e = (d - 1) as nat;
        reached_within(g, n, e) || exists|p: int|
            0 <= p < g.len() && reached_within(g, p, e) && (#[trigger] g[p]).has_child_node(
                n as usize,
            )
    }
}

/// Whether labelled edges lead from the root to node `n`.
pub open spec fn reachable<K, V>(g: Graph<K, V>, n: int) -> bool {
    exists|d: nat| reached_within(g, n, d)
}

/// The nodes that labelled edges lead to from the root, the root among them.
pub open spec fn reachable_nodes<K, V>(g: Graph<K, V>) -> Set<int> {
    Set::new(|n: int| 0 <= n < g.len() && reachable(g, n))
}

/// The number of nodes that the trie holds on to through labelled edges.
pub open spec fn node_count<K, V>(g: Graph<K, V>) -> nat {
    reachable_nodes(g).len()
}

} // verus!
