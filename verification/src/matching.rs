//! What lookup finds, said without the order in which it finds it.

use crate::graph::{
    advances, graph_wf, matched, matched_through, successors, through, through_plain_children,
    through_skips, Graph, NodeModel, Successor,
};
use crate::key::{span_of, NodeKey};
use vstd::prelude::*;

verus! {

/// The matching rules as a relation: whether `step` is a way on from node `n`
/// for the query token at position `i`.
pub open spec fn allowed<K, V>(
    g: Graph<K, V>,
    n: int,
    tokens: Seq<NodeKey<K>>,
    i: int,
    step: Successor,
) -> bool {
    let node = g[n];
    match tokens[i] {
        NodeKey::Exact(_) => {
            &&& !step.via_skip
            &&& step.pos == (i + 1) as usize
            &&& (node.child(tokens[i]) == Some(step.node) || node.child(NodeKey::Wildcard) == Some(
                step.node,
            ))
        },
        NodeKey::RightPar => {
            &&& !step.via_skip
            &&& step.pos == (i + 1) as usize
            &&& node.child(NodeKey::RightPar) == Some(step.node)
        },
        NodeKey::LeftPar => {
            &&& !step.via_skip
            &&& {
                ||| step.pos == (i + span_of(tokens, i) + 1) as usize && node.child(
                    NodeKey::Wildcard,
                ) == Some(step.node)
                ||| step.pos == (i + 1) as usize && node.child(NodeKey::LeftPar) == Some(step.node)
            }
        },
        NodeKey::Wildcard => {
            &&& step.pos == (i + 1) as usize
            &&& if step.via_skip {
                node.skip_pars.contains(step.node)
            } else {
                exists|j: int|
                    0 <= j < node.children.len() && (#[trigger] node.children[j]).1 == step.node
                        && !node.children[j].0.is_par()
            }
        },
    }
}

/// Whether the matching rules lead from node `n`, for the rest of the query
/// from position `i`, to a node that holds `value`.
pub open spec fn yields<K, V>(
    g: Graph<K, V>,
    n: int,
    tokens: Seq<NodeKey<K>>,
    i: int,
    value: V,
) -> bool
    decreases tokens.len() - i,
{
    if !(0 <= n < g.len()) || i < 0 {
        false
    } else if i >= tokens.len() {
        g[n].values.contains(value)
    } else {
        exists|step: Successor|
            #[trigger] allowed(g, n, tokens, i, step) && advances(g, tokens, i, step) && yields(
                g,
                step.node as int,
                tokens,
                step.pos as int,
                value,
            )
    }
}

/// A way on through an edge that may be missing is the edge's child.
pub proof fn lemma_through_contains(child: Option<usize>, pos: usize, step: Successor)
    ensures
        through(child, pos).contains(step) <==> (child == Some(step.node) && step.pos == pos
            && !step.via_skip),
{
    match child {
        Some(c) => {
            let only = Successor { node: c, pos, via_skip: false };
            assert(through(child, pos)[0] == only);
            if child == Some(step.node) && step.pos == pos && !step.via_skip {
                assert(step == only);
            }
        },
        None => {},
    }
}

/// The ways on through the plain children are the children whose label is no
/// grouping marker.
pub proof fn lemma_plain_children_contains<K>(
    children: Seq<(NodeKey<K>, usize)>,
    pos: usize,
    k: int,
    step: Successor,
)
    requires
        0 <= k <= children.len(),
    ensures
        through_plain_children(children, pos, k).contains(step) <==> (step.pos == pos
            && !step.via_skip && exists|j: int|
            0 <= j < k && (#[trigger] children[j]).1 == step.node && !children[j].0.is_par()),
    decreases k,
{
    if k > 0 {
        lemma_plain_children_contains(children, pos, k - 1, step);
        let before = through_plain_children(children, pos, k - 1);
        let all = through_plain_children(children, pos, k);
        let last = Successor { node: children[k - 1].1, pos, via_skip: false };
        if children[k - 1].0.is_par() {
            if all.contains(step) {
                let j = choose|j: int|
                    0 <= j < k - 1 && (#[trigger] children[j]).1 == step.node
                        && !children[j].0.is_par();
                assert(0 <= j < k);
            }
            if step.pos == pos && !step.via_skip && exists|j: int|
                0 <= j < k && (#[trigger] children[j]).1 == step.node && !children[j].0.is_par() {
                let j = choose|j: int|
                    0 <= j < k && (#[trigger] children[j]).1 == step.node
                        && !children[j].0.is_par();
                assert(j < k - 1);
            }
        } else {
            assert(all == before.push(last));
            if all.contains(step) {
                let at = choose|at: int| 0 <= at < all.len() && all[at] == step;
                if at < before.len() {
                    assert(before[at] == step);
                    assert(before.contains(step));
                    let j = choose|j: int|
                        0 <= j < k - 1 && (#[trigger] children[j]).1 == step.node
                            && !children[j].0.is_par();
                    assert(0 <= j < k);
                } else {
                    assert(step == last);
                    assert(children[k - 1].1 == step.node);
                }
            }
            if step.pos == pos && !step.via_skip && exists|j: int|
                0 <= j < k && (#[trigger] children[j]).1 == step.node && !children[j].0.is_par() {
                let j = choose|j: int|
                    0 <= j < k && (#[trigger] children[j]).1 == step.node
                        && !children[j].0.is_par();
                if j < k - 1 {
                    assert(before.contains(step));
                    let at = choose|at: int| 0 <= at < before.len() && before[at] == step;
                    assert(all[at] == step);
                } else {
                    assert(step == last);
                    assert(all[all.len() - 1] == step);
                }
            }
        }
    }
}

/// The ways on through the skip edges are the skip edges.
pub proof fn lemma_skips_contains(skip_pars: Seq<usize>, pos: usize, step: Successor)
    ensures
        through_skips(skip_pars, pos).contains(step) <==> (step.pos == pos && step.via_skip
            && skip_pars.contains(step.node)),
{
    let all = through_skips(skip_pars, pos);
    if all.contains(step) {
        let at = choose|at: int| 0 <= at < all.len() && all[at] == step;
        assert(skip_pars[at] == step.node);
    }
    if step.pos == pos && step.via_skip && skip_pars.contains(step.node) {
        let at = choose|at: int| 0 <= at < skip_pars.len() && skip_pars[at] == step.node;
        assert(all[at] == step);
    }
}

/// What is in a concatenation is in one of its parts.
pub proof fn lemma_concat_contains<T>(a: Seq<T>, b: Seq<T>, x: T)
    ensures
        (a + b).contains(x) <==> (a.contains(x) || b.contains(x)),
{
    let all = a + b;
    if all.contains(x) {
        let at = choose|at: int| 0 <= at < all.len() && all[at] == x;
        if at < a.len() {
            assert(a[at] == x);
        } else {
            assert(b[at - a.len()] == x);
        }
    }
    if a.contains(x) {
        let at = choose|at: int| 0 <= at < a.len() && a[at] == x;
        assert(all[at] == x);
    }
    if b.contains(x) {
        let at = choose|at: int| 0 <= at < b.len() && b[at] == x;
        assert(all[a.len() + at] == x);
    }
}

/// The successors of a node are the ways on that the matching rules allow.
pub proof fn lemma_successors_allowed<K, V>(
    g: Graph<K, V>,
    n: int,
    tokens: Seq<NodeKey<K>>,
    i: int,
    step: Successor,
)
    requires
        0 <= n < g.len(),
        0 <= i < tokens.len(),
    ensures
        successors(g, n, tokens, i).contains(step) <==> allowed(g, n, tokens, i, step),
{
    let node = g[n];
    let next = (i + 1) as usize;
    match tokens[i] {
        NodeKey::Exact(_) => {
            let a = through(node.child(tokens[i]), next);
            let b = through(node.child(NodeKey::Wildcard), next);
            lemma_through_contains(node.child(tokens[i]), next, step);
            lemma_through_contains(node.child(NodeKey::Wildcard), next, step);
            lemma_concat_contains(a, b, step);
        },
        NodeKey::RightPar => {
            lemma_through_contains(node.child(NodeKey::RightPar), next, step);
        },
        NodeKey::LeftPar => {
            let after = (i + span_of(tokens, i) + 1) as usize;
            let a = through(node.child(NodeKey::Wildcard), after);
            let b = through(node.child(NodeKey::LeftPar), next);
            lemma_through_contains(node.child(NodeKey::Wildcard), after, step);
            lemma_through_contains(node.child(NodeKey::LeftPar), next, step);
            lemma_concat_contains(a, b, step);
        },
        NodeKey::Wildcard => {
            let a = through_plain_children(node.children, next, node.children.len() as int);
            let b = through_skips(node.skip_pars, next);
            lemma_plain_children_contains(node.children, next, node.children.len() as int, step);
            lemma_skips_contains(node.skip_pars, next, step);
            lemma_concat_contains(a, b, step);
        },
    }
}

/// What lookup yields through the first `k` successors is what it yields
/// from one of them.
pub proof fn lemma_matched_through<K, V>(
    g: Graph<K, V>,
    steps: Seq<Successor>,
    tokens: Seq<NodeKey<K>>,
    i: int,
    k: int,
    value: V,
)
    requires
        0 <= k <= steps.len(),
    ensures
        matched_through(g, steps, tokens, i, k).contains(value) <==> exists|m: int|
            0 <= m < k && advances(g, tokens, i, #[trigger] steps[m]) && matched(
                g,
                steps[m].node as int,
                tokens,
                steps[m].pos as int,
            ).contains(value),
    decreases k,
{
    if k > 0 {
        lemma_matched_through(g, steps, tokens, i, k - 1, value);
        let before = matched_through(g, steps, tokens, i, k - 1);
        let step = steps[k - 1];
        let here = matched(g, step.node as int, tokens, step.pos as int);
        if advances(g, tokens, i, step) {
            lemma_concat_contains(before, here, value);
        }
        if matched_through(g, steps, tokens, i, k).contains(value) {
            if advances(g, tokens, i, step) && here.contains(value) {
                assert(advances(g, tokens, i, steps[k - 1]));
            } else {
                let m = choose|m: int|
                    0 <= m < k - 1 && advances(g, tokens, i, #[trigger] steps[m]) && matched(
                        g,
                        steps[m].node as int,
                        tokens,
                        steps[m].pos as int,
                    ).contains(value);
                assert(0 <= m < k);
            }
        }
    }
}

/// Lookup yields a value exactly where the matching rules lead to a node
/// that holds it.
pub proof fn lemma_matched_yields<K, V>(
    g: Graph<K, V>,
    n: int,
    tokens: Seq<NodeKey<K>>,
    i: int,
    value: V,
)
    ensures
        matched(g, n, tokens, i).contains(value) <==> yields(g, n, tokens, i, value),
    decreases tokens.len() - i,
{
    if 0 <= n < g.len() && 0 <= i < tokens.len() {
        let steps = successors(g, n, tokens, i);
        lemma_matched_through(g, steps, tokens, i, steps.len() as int, value);
        if matched(g, n, tokens, i).contains(value) {
            let m = choose|m: int|
                0 <= m < steps.len() && advances(g, tokens, i, #[trigger] steps[m]) && matched(
                    g,
                    steps[m].node as int,
                    tokens,
                    steps[m].pos as int,
                ).contains(value);
            lemma_matched_yields(g, steps[m].node as int, tokens, steps[m].pos as int, value);
            lemma_successors_allowed(g, n, tokens, i, steps[m]);
            assert(allowed(g, n, tokens, i, steps[m]));
        }
        if yields(g, n, tokens, i, value) {
            let step = choose|step: Successor|
                #[trigger] allowed(g, n, tokens, i, step) && advances(g, tokens, i, step)
                    && yields(g, step.node as int, tokens, step.pos as int, value);
            lemma_matched_yields(g, step.node as int, tokens, step.pos as int, value);
            lemma_successors_allowed(g, n, tokens, i, step);
            let m = choose|m: int| 0 <= m < steps.len() && steps[m] == step;
            assert(advances(g, tokens, i, steps[m]));
        }
    }
}

/// Every edge and value of `small` is one of `big`.
pub open spec fn node_within<K, V>(small: NodeModel<K, V>, big: NodeModel<K, V>) -> bool {
    &&& forall|j: int|
        0 <= j < small.children.len() ==> big.children.contains(#[trigger] small.children[j])
    &&& forall|j: int|
        0 <= j < small.skip_pars.len() ==> big.skip_pars.contains(#[trigger] small.skip_pars[j])
    &&& forall|j: int| 0 <= j < small.values.len() ==> big.values.contains(#[trigger] small.values[j])
}

/// Every node of `small` is a node of `big`, with no edge and no value that
/// it does not have there.
pub open spec fn within<K, V>(small: Graph<K, V>, big: Graph<K, V>) -> bool {
    &&& small.len() <= big.len()
    &&& forall|m: int| 0 <= m < small.len() ==> node_within(#[trigger] small[m], big[m])
}

/// What lies within a graph that lies within a third lies within the third.
pub proof fn lemma_within_chain<K, V>(a: Graph<K, V>, b: Graph<K, V>, c: Graph<K, V>)
    requires
        within(a, b),
        within(b, c),
    ensures
        within(a, c),
{
    assert forall|m: int| 0 <= m < a.len() implies node_within(#[trigger] a[m], c[m]) by {
        assert(node_within(a[m], b[m]));
        assert(node_within(b[m], c[m]));
        assert forall|j: int| 0 <= j < a[m].children.len() implies c[m].children.contains(
            #[trigger] a[m].children[j],
        ) by {
            let x = a[m].children[j];
            assert(b[m].children.contains(x));
            let at = choose|at: int| 0 <= at < b[m].children.len() && b[m].children[at] == x;
            assert(c[m].children.contains(b[m].children[at]));
        }
        assert forall|j: int| 0 <= j < a[m].skip_pars.len() implies c[m].skip_pars.contains(
            #[trigger] a[m].skip_pars[j],
        ) by {
            let x = a[m].skip_pars[j];
            assert(b[m].skip_pars.contains(x));
            let at = choose|at: int| 0 <= at < b[m].skip_pars.len() && b[m].skip_pars[at] == x;
            assert(c[m].skip_pars.contains(b[m].skip_pars[at]));
        }
        assert forall|j: int| 0 <= j < a[m].values.len() implies c[m].values.contains(
            #[trigger] a[m].values[j],
        ) by {
            let x = a[m].values[j];
            assert(b[m].values.contains(x));
            let at = choose|at: int| 0 <= at < b[m].values.len() && b[m].values[at] == x;
            assert(c[m].values.contains(b[m].values[at]));
        }
    }
}

/// An edge of a well-formed node is what the node's lookup finds.
pub proof fn lemma_child_of_edge<K, V>(node: NodeModel<K, V>, size: nat, j: int)
    requires
        node.wf(size),
        0 <= j < node.children.len(),
    ensures
        node.child(node.children[j].0) == Some(node.children[j].1),
{
    let label = node.children[j].0;
    assert(node.has_child(label));
    let chosen = node.child_index(label);
    assert(node.children[chosen].0 == node.children[j].0);
    assert(chosen == j);
}

/// What a node's lookup finds is one of its edges.
pub proof fn lemma_edge_of_child<K, V>(node: NodeModel<K, V>, label: NodeKey<K>, child: usize)
    requires
        node.child(label) == Some(child),
    ensures
        node.children.contains((label, child)),
{
    let chosen = node.child_index(label);
    assert(node.children[chosen] == (label, child));
}

/// A lookup that succeeds in a node succeeds alike in a well-formed node
/// that has all its edges.
pub proof fn lemma_child_within<K, V>(
    small: NodeModel<K, V>,
    big: NodeModel<K, V>,
    size: nat,
    label: NodeKey<K>,
    child: usize,
)
    requires
        node_within(small, big),
        big.wf(size),
        small.child(label) == Some(child),
    ensures
        big.child(label) == Some(child),
{
    let chosen = small.child_index(label);
    assert(big.children.contains(small.children[chosen]));
    let at = choose|at: int| 0 <= at < big.children.len() && big.children[at] == (label, child);
    lemma_child_of_edge(big, size, at);
}

/// A way on in a graph is a way on in a well-formed graph that the first
/// lies within.
pub proof fn lemma_allowed_within<K, V>(
    small: Graph<K, V>,
    big: Graph<K, V>,
    n: int,
    tokens: Seq<NodeKey<K>>,
    i: int,
    step: Successor,
)
    requires
        within(small, big),
        graph_wf(big),
        0 <= n < small.len(),
        0 <= i < tokens.len(),
        allowed(small, n, tokens, i, step),
    ensures
        allowed(big, n, tokens, i, step),
{
    assert(node_within(small[n], big[n]));
    assert(big[n].wf(big.len()));
    match tokens[i] {
        NodeKey::Exact(_) => {
            if small[n].child(tokens[i]) == Some(step.node) {
                lemma_child_within(small[n], big[n], big.len(), tokens[i], step.node);
            } else {
                lemma_child_within(small[n], big[n], big.len(), NodeKey::Wildcard, step.node);
            }
        },
        NodeKey::RightPar => {
            lemma_child_within(small[n], big[n], big.len(), NodeKey::RightPar, step.node);
        },
        NodeKey::LeftPar => {
            if small[n].child(NodeKey::Wildcard) == Some(step.node) && step.pos == (i + span_of(
                tokens,
                i,
            ) + 1) as usize {
                lemma_child_within(small[n], big[n], big.len(), NodeKey::Wildcard, step.node);
            } else {
                lemma_child_within(small[n], big[n], big.len(), NodeKey::LeftPar, step.node);
            }
        },
        NodeKey::Wildcard => {
            if step.via_skip {
                let at = choose|at: int|
                    0 <= at < small[n].skip_pars.len() && small[n].skip_pars[at] == step.node;
                assert(big[n].skip_pars.contains(small[n].skip_pars[at]));
            } else {
                let j = choose|j: int|
                    0 <= j < small[n].children.len() && (#[trigger] small[n].children[j]).1
                        == step.node && !small[n].children[j].0.is_par();
                assert(big[n].children.contains(small[n].children[j]));
                let at = choose|at: int|
                    0 <= at < big[n].children.len() && big[n].children[at] == small[n].children[j];
                assert(big[n].children[at].1 == step.node);
            }
        },
    }
}

/// What the matching rules lead to in a graph they lead to in a well-formed
/// graph that the first lies within.
pub proof fn lemma_yields_within<K, V>(
    small: Graph<K, V>,
    big: Graph<K, V>,
    n: int,
    tokens: Seq<NodeKey<K>>,
    i: int,
    value: V,
)
    requires
        within(small, big),
        graph_wf(big),
        yields(small, n, tokens, i, value),
    ensures
        yields(big, n, tokens, i, value),
    decreases tokens.len() - i,
{
    assert(node_within(small[n], big[n]));
    if i >= tokens.len() {
        let at = choose|at: int| 0 <= at < small[n].values.len() && small[n].values[at] == value;
        assert(big[n].values.contains(small[n].values[at]));
    } else {
        let step = choose|step: Successor|
            #[trigger] allowed(small, n, tokens, i, step) && advances(small, tokens, i, step)
                && yields(small, step.node as int, tokens, step.pos as int, value);
        lemma_allowed_within(small, big, n, tokens, i, step);
        lemma_yields_within(small, big, step.node as int, tokens, step.pos as int, value);
        assert(advances(big, tokens, i, step));
    }
}

} // verus!
