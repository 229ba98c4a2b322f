//! What a removal takes out of the graph and what it leaves in it.

use crate::graph::{
    advances, graph_wf, removed, removed_through, successors, unlinked, with_values, without,
    Graph, Successor,
};
use crate::key::{balanced, NodeKey};
use crate::matching::{lemma_within_chain, node_within, within};
use crate::reach::{
    lemma_reaches_inside, lemma_reaches_some_edge, lemma_reaches_some_step,
    lemma_reaches_through_child, lemma_reaches_through_skip, lemma_reaches_within,
    lemma_step_reaches, lemma_vacant_ends, next_pos, reaches, reaches_through,
};
use crate::removal::{
    lemma_removed, lemma_removed_through, lemma_unlinked, lemma_value_removed, lemma_without,
};
use vstd::prelude::*;

verus! {

/// Every value but `value` that was in a node is still in it.
pub open spec fn keeps_others<K, V>(g: Graph<K, V>, after: Graph<K, V>, value: V) -> bool {
    forall|m: int, j: int|
        0 <= m < g.len() && 0 <= j < g[m].values.len() && (#[trigger] g[m].values[j]) != value
            ==> after[m].values.contains(g[m].values[j])
}

/// Every edge that is no longer there led to a node that is now vacant.
pub open spec fn pruned_to_vacant<K, V>(g: Graph<K, V>, after: Graph<K, V>) -> bool {
    &&& forall|m: int, j: int|
        0 <= m < g.len() && 0 <= j < g[m].children.len() ==> {
            let edge = #[trigger] g[m].children[j];
            after[m].children.contains(edge) || after[edge.1 as int].is_vacant()
        }
    &&& forall|m: int, j: int|
        0 <= m < g.len() && 0 <= j < g[m].skip_pars.len() ==> {
            let target = #[trigger] g[m].skip_pars[j];
            after[m].skip_pars.contains(target) || after[target as int].is_vacant()
        }
}

/// A graph keeps all that it has.
pub proof fn lemma_nothing_pruned<K, V>(g: Graph<K, V>, value: V)
    ensures
        pruned_to_vacant(g, g),
        keeps_others(g, g, value),
        within(g, g),
{
}

/// What stays vacant: a vacant node of a graph in every graph within it.
pub proof fn lemma_vacant_within<K, V>(small: Graph<K, V>, big: Graph<K, V>, m: int)
    requires
        within(small, big),
        0 <= m < small.len(),
        big[m].is_vacant(),
    ensures
        small[m].is_vacant(),
{
    assert(node_within(small[m], big[m]));
    if small[m].children.len() > 0 {
        assert(big[m].children.contains(small[m].children[0]));
    }
    if small[m].skip_pars.len() > 0 {
        assert(big[m].skip_pars.contains(small[m].skip_pars[0]));
    }
    if small[m].values.len() > 0 {
        assert(big[m].values.contains(small[m].values[0]));
    }
}

/// Two removals one after the other keep and prune as one.
pub proof fn lemma_pruned_chain<K, V>(a: Graph<K, V>, b: Graph<K, V>, c: Graph<K, V>, value: V)
    requires
        graph_wf(a),
        a.len() == b.len() == c.len(),
        within(b, a),
        within(c, b),
        pruned_to_vacant(a, b),
        pruned_to_vacant(b, c),
        keeps_others(a, b, value),
        keeps_others(b, c, value),
    ensures
        pruned_to_vacant(a, c),
        keeps_others(a, c, value),
{
    assert forall|m: int, j: int| 0 <= m < a.len() && 0 <= j < a[m].children.len() implies {
        let edge = #[trigger] a[m].children[j];
        c[m].children.contains(edge) || c[edge.1 as int].is_vacant()
    } by {
        let edge = a[m].children[j];
        assert(a[m].wf(a.len()));
        assert(edge.1 < a.len());
        if b[m].children.contains(edge) {
            let at = choose|at: int| 0 <= at < b[m].children.len() && b[m].children[at] == edge;
            assert(c[m].children.contains(b[m].children[at]) || c[b[m].children[at].1 as int].is_vacant());
        } else {
            lemma_vacant_within(c, b, edge.1 as int);
        }
    }
    assert forall|m: int, j: int| 0 <= m < a.len() && 0 <= j < a[m].skip_pars.len() implies {
        let target = #[trigger] a[m].skip_pars[j];
        c[m].skip_pars.contains(target) || c[target as int].is_vacant()
    } by {
        let target = a[m].skip_pars[j];
        assert(a[m].wf(a.len()));
        assert(target < a.len());
        if b[m].skip_pars.contains(target) {
            let at = choose|at: int| 0 <= at < b[m].skip_pars.len() && b[m].skip_pars[at] == target;
            assert(c[m].skip_pars.contains(b[m].skip_pars[at]) || c[b[m].skip_pars[at] as int].is_vacant());
        } else {
            lemma_vacant_within(c, b, target as int);
        }
    }
    assert forall|m: int, j: int|
        0 <= m < a.len() && 0 <= j < a[m].values.len() && (#[trigger] a[m].values[j])
            != value implies c[m].values.contains(a[m].values[j]) by {
        let w = a[m].values[j];
        assert(b[m].values.contains(w));
        let at = choose|at: int| 0 <= at < b[m].values.len() && b[m].values[at] == w;
        assert(c[m].values.contains(b[m].values[at]));
    }
}

/// Where a query led to before edges were pruned it still leads to, unless
/// the node is now vacant.
pub proof fn lemma_reaches_or_vacant<K, V>(
    g: Graph<K, V>,
    after: Graph<K, V>,
    n: int,
    query: Seq<NodeKey<K>>,
    i: int,
    m: int,
)
    requires
        after.len() == g.len(),
        within(after, g),
        pruned_to_vacant(g, after),
        reaches(g, n, query, i, m),
    ensures
        reaches(after, n, query, i, m) || after[m].is_vacant(),
    decreases query.len() - i,
{
    lemma_reaches_inside(g, n, query, i, m);
    if i < query.len() {
        let j = lemma_reaches_some_edge(g, n, query, i, m);
        if 0 <= j < g[n].children.len() {
            let edge = g[n].children[j];
            let p = next_pos(query, i, edge.0)->0;
            lemma_reaches_or_vacant(g, after, edge.1 as int, query, p, m);
            if reaches(after, edge.1 as int, query, p, m) {
                if after[n].children.contains(edge) {
                    let k = choose|k: int|
                        0 <= k < after[n].children.len() && after[n].children[k] == edge;
                    lemma_reaches_through_child(after, n, query, i, k, m);
                } else {
                    lemma_vacant_ends(after, edge.1 as int, query, p, m);
                }
            }
        } else {
            let t = j - g[n].children.len();
            let target = g[n].skip_pars[t];
            lemma_reaches_or_vacant(g, after, target as int, query, i + 1, m);
            if reaches(after, target as int, query, i + 1, m) {
                if after[n].skip_pars.contains(target) {
                    let k = choose|k: int|
                        0 <= k < after[n].skip_pars.len() && after[n].skip_pars[k] == target;
                    lemma_reaches_through_skip(after, n, query, i, k, m);
                } else {
                    lemma_vacant_ends(after, target as int, query, i + 1, m);
                }
            }
        }
    }
}

/// What a removal does to the graph: only edges to vacant nodes go; of the
/// values only `value` goes, and it goes from exactly the nodes that the
/// query leads to.
pub open spec fn removal_effect<K, V>(
    g: Graph<K, V>,
    after: Graph<K, V>,
    n: int,
    query: Seq<NodeKey<K>>,
    i: int,
    value: V,
) -> bool {
    &&& pruned_to_vacant(g, after)
    &&& keeps_others(g, after, value)
    &&& forall|m: int| #[trigger] reaches(g, n, query, i, m) ==> !after[m].values.contains(value)
    &&& forall|m: int|
        0 <= m < g.len() && (#[trigger] g[m]).values.contains(value) && !after[m].values.contains(
            value,
        ) ==> reaches(g, n, query, i, m)
}

/// What a removal through the first `k` successors does to the graph.
pub open spec fn removal_effect_through<K, V>(
    g: Graph<K, V>,
    after: Graph<K, V>,
    steps: Seq<Successor>,
    query: Seq<NodeKey<K>>,
    i: int,
    k: int,
    value: V,
) -> bool {
    &&& pruned_to_vacant(g, after)
    &&& keeps_others(g, after, value)
    &&& forall|at: int, m: int|
        0 <= at < k && #[trigger] reaches_through(g, query, i, steps[at], m)
            ==> !after[m].values.contains(value)
    &&& forall|m: int|
        0 <= m < g.len() && (#[trigger] g[m]).values.contains(value) && !after[m].values.contains(
            value,
        ) ==> exists|at: int| 0 <= at < k && #[trigger] reaches_through(g, query, i, steps[at], m)
}

/// The effect of taking a value out of a node.
pub proof fn lemma_value_removed_effect<K, V>(g: Graph<K, V>, n: int, value: V)
    requires
        graph_wf(g),
        0 <= n < g.len(),
    ensures
        ({
            let after = with_values(g, n, without(g[n].values, value));
            &&& pruned_to_vacant(g, after)
            &&& keeps_others(g, after, value)
            &&& forall|m: int|
                0 <= m < g.len() && m != n ==> (#[trigger] after[m]).values == g[m].values
        }),
{
    let values = without(g[n].values, value);
    let after = with_values(g, n, values);
    assert(g[n].wf(g.len()));
    lemma_without(g[n].values, value);
    assert forall|m: int, j: int| 0 <= m < g.len() && 0 <= j < g[m].children.len() implies {
        let edge = #[trigger] g[m].children[j];
        after[m].children.contains(edge) || after[edge.1 as int].is_vacant()
    } by {
        assert(after[m].children[j] == g[m].children[j]);
    }
    assert forall|m: int, j: int| 0 <= m < g.len() && 0 <= j < g[m].skip_pars.len() implies {
        let target = #[trigger] g[m].skip_pars[j];
        after[m].skip_pars.contains(target) || after[target as int].is_vacant()
    } by {
        assert(after[m].skip_pars[j] == g[m].skip_pars[j]);
    }
    assert forall|m: int, j: int|
        0 <= m < g.len() && 0 <= j < g[m].values.len() && (#[trigger] g[m].values[j])
            != value implies after[m].values.contains(g[m].values[j]) by {
        let w = g[m].values[j];
        if m == n && g[n].values.contains(value) {
            let at = g[n].values.index_of(value);
            let src = if j < at { j } else { j - 1 };
            assert(values[src] == w);
        } else {
            assert(after[m].values[j] == w);
        }
    }
}

/// The effect of taking out the edge to a vacant node.
pub proof fn lemma_unlinked_effect<K, V>(g: Graph<K, V>, n: int, step: Successor, value: V)
    requires
        graph_wf(g),
        0 <= n < g.len(),
        step.node < g.len(),
        g[step.node as int].is_vacant(),
    ensures
        pruned_to_vacant(g, unlinked(g, n, step)),
        keeps_others(g, unlinked(g, n, step), value),
        forall|m: int| 0 <= m < g.len() ==> (#[trigger] unlinked(g, n, step)[m]).values == g[m].values,
{
    let after = unlinked(g, n, step);
    lemma_unlinked(g, n, step);
    assert(g[n].wf(g.len()));
    lemma_vacant_within(after, g, step.node as int);
    assert forall|m: int, j: int| 0 <= m < g.len() && 0 <= j < g[m].children.len() implies {
        let edge = #[trigger] g[m].children[j];
        after[m].children.contains(edge) || after[edge.1 as int].is_vacant()
    } by {
        let edge = g[m].children[j];
        if m == n && !step.via_skip && g[n].has_child_node(step.node) {
            let at = g[n].child_node_index(step.node);
            if j != at {
                let src = if j < at { j } else { j - 1 };
                assert(after[n].children[src] == edge);
            } else {
                assert(edge.1 == step.node);
            }
        } else {
            assert(after[m].children[j] == edge);
        }
    }
    assert forall|m: int, j: int| 0 <= m < g.len() && 0 <= j < g[m].skip_pars.len() implies {
        let target = #[trigger] g[m].skip_pars[j];
        after[m].skip_pars.contains(target) || after[target as int].is_vacant()
    } by {
        let target = g[m].skip_pars[j];
        if m == n && step.via_skip && g[n].skip_pars.contains(step.node) {
            let at = g[n].skip_pars.index_of(step.node);
            if j != at {
                let src = if j < at { j } else { j - 1 };
                assert(after[n].skip_pars[src] == target);
            } else {
                assert(target == step.node);
            }
        } else {
            assert(after[m].skip_pars[j] == target);
        }
    }
    assert forall|m: int, j: int|
        0 <= m < g.len() && 0 <= j < g[m].values.len() && (#[trigger] g[m].values[j])
            != value implies after[m].values.contains(g[m].values[j]) by {
        assert(after[m].values[j] == g[m].values[j]);
    }
}

/// What a removal from a node does to the graph.
pub proof fn lemma_removed_effect<K, V>(
    g: Graph<K, V>,
    n: int,
    query: Seq<NodeKey<K>>,
    i: int,
    value: V,
)
    requires
        graph_wf(g),
        balanced(query),
        query.len() <= usize::MAX,
        0 <= n < g.len(),
        0 <= i <= query.len(),
    ensures
        removal_effect(g, removed(g, n, query, i, value).0, n, query, i, value),
    decreases query.len() - i, 1int, 0int,
{
    let after = removed(g, n, query, i, value).0;
    if i >= query.len() {
        lemma_value_removed(g, n, value);
        lemma_value_removed_effect(g, n, value);
        assert forall|m: int| #[trigger] reaches(g, n, query, i, m) implies !after[m].values.contains(
            value,
        ) by {}
        assert forall|m: int|
            0 <= m < g.len() && (#[trigger] g[m]).values.contains(value) && !after[m].values.contains(
                value,
            ) implies reaches(g, n, query, i, m) by {}
    } else {
        let steps = successors(g, n, query, i);
        lemma_removed_effect_through(g, n, query, i, steps.len() as int, value);
        assert forall|m: int| #[trigger] reaches(g, n, query, i, m) implies !after[m].values.contains(
            value,
        ) by {
            let at = lemma_reaches_some_step(g, n, query, i, m);
            assert(reaches_through(g, query, i, steps[at], m));
        }
        assert forall|m: int|
            0 <= m < g.len() && (#[trigger] g[m]).values.contains(value) && !after[m].values.contains(
                value,
            ) implies reaches(g, n, query, i, m) by {
            let at = choose|at: int|
                0 <= at < steps.len() && #[trigger] reaches_through(g, query, i, steps[at], m);
            lemma_step_reaches(g, n, query, i, at, m);
        }
    }
}

/// What a removal through the first `k` successors of a node does to the
/// graph.
pub proof fn lemma_removed_effect_through<K, V>(
    g: Graph<K, V>,
    n: int,
    query: Seq<NodeKey<K>>,
    i: int,
    k: int,
    value: V,
)
    requires
        graph_wf(g),
        balanced(query),
        query.len() <= usize::MAX,
        0 <= n < g.len(),
        0 <= i < query.len(),
        0 <= k <= successors(g, n, query, i).len(),
    ensures
        removal_effect_through(
            g,
            removed_through(g, n, successors(g, n, query, i), query, i, k, value).0,
            successors(g, n, query, i),
            query,
            i,
            k,
            value,
        ),
    decreases query.len() - i, 0int, k,
{
    let steps = successors(g, n, query, i);
    let after = removed_through(g, n, steps, query, i, k, value).0;
    if k <= 0 {
        lemma_nothing_pruned(g, value);
    } else {
        let (g1, r1) = removed_through(g, n, steps, query, i, k - 1, value);
        lemma_removed_through(g, n, query, i, k - 1, value);
        lemma_removed_effect_through(g, n, query, i, k - 1, value);
        let step = steps[k - 1];
        if advances(g1, query, i, step) {
            let (g2, r2) = removed(g1, step.node as int, query, step.pos as int, value);
            lemma_removed(g1, step.node as int, query, step.pos as int, value);
            lemma_removed_effect(g1, step.node as int, query, step.pos as int, value);
            lemma_pruned_chain(g, g1, g2, value);
            lemma_within_chain(g2, g1, g);
            if r2 && g2[step.node as int].is_vacant() {
                lemma_unlinked(g2, n, step);
                lemma_unlinked_effect(g2, n, step, value);
                lemma_within_chain(after, g2, g);
                lemma_pruned_chain(g, g2, after, value);
            }
            assert(within(after, g2));
            assert forall|m: int| 0 <= m < g.len() implies (#[trigger] after[m]).values
                == g2[m].values by {}
            assert forall|at: int, m: int|
                0 <= at < k && #[trigger] reaches_through(
                    g,
                    query,
                    i,
                    steps[at],
                    m,
                ) implies !after[m].values.contains(value) by {
                lemma_reaches_inside(g, steps[at].node as int, query, steps[at].pos as int, m);
                if at < k - 1 {
                    assert(!g1[m].values.contains(value));
                    if g2[m].values.contains(value) {
                        assert(node_within(g2[m], g1[m]));
                        let x = choose|x: int| 0 <= x < g2[m].values.len() && g2[m].values[x] == value;
                        assert(g1[m].values.contains(g2[m].values[x]));
                    }
                } else {
                    lemma_reaches_or_vacant(g, g1, step.node as int, query, step.pos as int, m);
                    if !reaches(g1, step.node as int, query, step.pos as int, m) {
                        lemma_vacant_within(g2, g1, m);
                    }
                }
            }
            assert forall|m: int|
                0 <= m < g.len() && (#[trigger] g[m]).values.contains(value)
                    && !after[m].values.contains(value) implies exists|at: int|
                0 <= at < k && #[trigger] reaches_through(g, query, i, steps[at], m) by {
                if g1[m].values.contains(value) {
                    assert(reaches(g1, step.node as int, query, step.pos as int, m));
                    lemma_reaches_within(g1, g, step.node as int, query, step.pos as int, m);
                    assert(reaches_through(g, query, i, steps[k - 1], m));
                } else {
                    let at = choose|at: int|
                        0 <= at < k - 1 && #[trigger] reaches_through(g, query, i, steps[at], m);
                    assert(0 <= at < k);
                }
            }
        } else {
            assert forall|m: int|
                0 <= m < g.len() && (#[trigger] g[m]).values.contains(value)
                    && !after[m].values.contains(value) implies exists|at: int|
                0 <= at < k && #[trigger] reaches_through(g, query, i, steps[at], m) by {
                let at = choose|at: int|
                    0 <= at < k - 1 && #[trigger] reaches_through(g, query, i, steps[at], m);
                assert(0 <= at < k);
            }
        }
    }
}

} // verus!
