//! What removal leaves in the graph.

use crate::graph::{
    advances, graph_wf, removed, removed_through, successors, unlinked, with_values, without,
    Graph, NodeModel, Successor,
};
use crate::key::NodeKey;
use crate::matching::{
    allowed, lemma_allowed_within, lemma_successors_allowed, lemma_within_chain,
    lemma_yields_within, node_within, within, yields,
};
use vstd::prelude::*;

verus! {

/// A sequence without one of its entries has only entries of the sequence,
/// and none twice if the sequence had none twice.
pub proof fn lemma_remove_entry<T>(s: Seq<T>, at: int)
    requires
        0 <= at < s.len(),
    ensures
        forall|j: int| 0 <= j < s.remove(at).len() ==> s.contains(#[trigger] s.remove(at)[j]),
        s.no_duplicates() ==> s.remove(at).no_duplicates() && !s.remove(at).contains(s[at]),
{
    let t = s.remove(at);
    assert forall|j: int| 0 <= j < t.len() implies s.contains(#[trigger] t[j]) by {
        let src = if j < at { j } else { j + 1 };
        assert(t[j] == s[src]);
    }
    if s.no_duplicates() {
        assert forall|a: int, b: int| 0 <= a < t.len() && 0 <= b < t.len() && a != b implies t[a]
            != t[b] by {
            let sa = if a < at { a } else { a + 1 };
            let sb = if b < at { b } else { b + 1 };
            assert(t[a] == s[sa]);
            assert(t[b] == s[sb]);
        }
        if t.contains(s[at]) {
            let j = choose|j: int| 0 <= j < t.len() && t[j] == s[at];
            let src = if j < at { j } else { j + 1 };
            assert(t[j] == s[src]);
        }
    }
}

/// A set-like sequence without a value holds no more than before, and not
/// the value.
pub proof fn lemma_without<T>(s: Seq<T>, x: T)
    requires
        s.no_duplicates(),
    ensures
        without(s, x).no_duplicates(),
        !without(s, x).contains(x),
        forall|j: int| 0 <= j < without(s, x).len() ==> s.contains(#[trigger] without(s, x)[j]),
        !s.contains(x) ==> without(s, x) == s,
{
    if s.contains(x) {
        let at = s.index_of(x);
        lemma_remove_entry(s, at);
    }
}

/// A well-formed node with some of its edges and values taken out is well
/// formed.
pub proof fn lemma_node_within_wf<K, V>(small: NodeModel<K, V>, big: NodeModel<K, V>, size: nat)
    requires
        big.wf(size),
        node_within(small, big),
        small.skip_pars.no_duplicates(),
        small.values.no_duplicates(),
        forall|a: int, b: int|
            0 <= a < b < small.children.len() ==> (#[trigger] small.children[a]).0 != (
            #[trigger] small.children[b]).0 && small.children[a].1 != small.children[b].1,
    ensures
        small.wf(size),
{
    assert forall|j: int| 0 <= j < small.children.len() implies (#[trigger] small.children[j]).1
        < size by {
        assert(big.children.contains(small.children[j]));
        let at = choose|at: int| 0 <= at < big.children.len() && big.children[at] == small.children[j];
        assert(big.children[at].1 < size);
    }
    assert forall|j: int| 0 <= j < small.skip_pars.len() implies (#[trigger] small.skip_pars[j])
        < size by {
        assert(big.skip_pars.contains(small.skip_pars[j]));
        let at = choose|at: int|
            0 <= at < big.skip_pars.len() && big.skip_pars[at] == small.skip_pars[j];
        assert(big.skip_pars[at] < size);
    }
}

/// A graph in which one node lost edges or values lies within the graph
/// that it was.
pub proof fn lemma_update_within<K, V>(g: Graph<K, V>, n: int, node: NodeModel<K, V>)
    requires
        graph_wf(g),
        0 <= n < g.len(),
        node.wf(g.len()),
        node_within(node, g[n]),
    ensures
        graph_wf(g.update(n, node)),
        within(g.update(n, node), g),
{
    let after = g.update(n, node);
    assert forall|m: int| 0 <= m < after.len() implies (#[trigger] after[m]).wf(after.len()) by {
        assert(g[m].wf(g.len()));
    }
    assert forall|m: int| 0 <= m < after.len() implies node_within(#[trigger] after[m], g[m]) by {
        if m != n {
            assert forall|j: int| 0 <= j < g[m].children.len() implies g[m].children.contains(
                #[trigger] after[m].children[j],
            ) by {
                assert(g[m].children[j] == after[m].children[j]);
            }
            assert forall|j: int| 0 <= j < g[m].skip_pars.len() implies g[m].skip_pars.contains(
                #[trigger] after[m].skip_pars[j],
            ) by {
                assert(g[m].skip_pars[j] == after[m].skip_pars[j]);
            }
            assert forall|j: int| 0 <= j < g[m].values.len() implies g[m].values.contains(
                #[trigger] after[m].values[j],
            ) by {
                assert(g[m].values[j] == after[m].values[j]);
            }
        }
    }
}

/// Every entry of a sequence is in the sequence.
pub proof fn lemma_holds_own<T>(s: Seq<T>)
    ensures
        forall|j: int| 0 <= j < s.len() ==> s.contains(#[trigger] s[j]),
{
}

/// Taking a value out of a node keeps the graph well formed and within what
/// it was; the node no longer holds the value.
pub proof fn lemma_value_removed<K, V>(g: Graph<K, V>, n: int, value: V)
    requires
        graph_wf(g),
        0 <= n < g.len(),
    ensures
        ({
            let after = with_values(g, n, without(g[n].values, value));
            &&& graph_wf(after)
            &&& within(after, g)
            &&& !after[n].values.contains(value)
            &&& !g[n].values.contains(value) ==> after == g
        }),
{
    let values = without(g[n].values, value);
    let after = with_values(g, n, values);
    assert(g[n].wf(g.len()));
    lemma_without(g[n].values, value);
    lemma_holds_own(g[n].children);
    lemma_holds_own(g[n].skip_pars);
    lemma_update_within(g, n, after[n]);
    if !g[n].values.contains(value) {
        assert(after =~= g);
    }
}

/// Taking an edge out of a node keeps the graph well formed and within what
/// it was.
pub proof fn lemma_unlinked<K, V>(g: Graph<K, V>, n: int, step: Successor)
    requires
        graph_wf(g),
        0 <= n < g.len(),
    ensures
        graph_wf(unlinked(g, n, step)),
        within(unlinked(g, n, step), g),
        unlinked(g, n, step).len() == g.len(),
{
    let after = unlinked(g, n, step);
    assert(g[n].wf(g.len()));
    lemma_holds_own(g[n].children);
    lemma_holds_own(g[n].skip_pars);
    lemma_holds_own(g[n].values);
    if step.via_skip {
        lemma_without(g[n].skip_pars, step.node);
        lemma_node_within_wf(after[n], g[n], g.len());
        lemma_update_within(g, n, after[n]);
    } else if g[n].has_child_node(step.node) {
        let at = g[n].child_node_index(step.node);
        lemma_remove_entry(g[n].children, at);
        let children = g[n].children.remove(at);
        assert forall|a: int, b: int| 0 <= a < b < children.len() implies (#[trigger] children[a]).0
            != (#[trigger] children[b]).0 && children[a].1 != children[b].1 by {
            let sa = if a < at { a } else { a + 1 };
            let sb = if b < at { b } else { b + 1 };
            assert(children[a] == g[n].children[sa]);
            assert(children[b] == g[n].children[sb]);
        }
        lemma_node_within_wf(after[n], g[n], g.len());
        lemma_update_within(g, n, after[n]);
    } else {
        assert forall|m: int| 0 <= m < g.len() implies node_within(#[trigger] g[m], g[m]) by {
            lemma_holds_own(g[m].children);
            lemma_holds_own(g[m].skip_pars);
            lemma_holds_own(g[m].values);
        }
    }
}

/// What removal from a node does: the graph stays well formed and within
/// what it was, and does not change where nothing is removed; something is
/// removed exactly where the matching rules lead to the value; and afterwards
/// they no longer lead to it.
pub proof fn lemma_removed<K, V>(
    g: Graph<K, V>,
    n: int,
    tokens: Seq<NodeKey<K>>,
    i: int,
    value: V,
)
    requires
        graph_wf(g),
        0 <= n < g.len(),
        0 <= i <= tokens.len(),
    ensures
        ({
            let (after, removed_any) = removed(g, n, tokens, i, value);
            &&& graph_wf(after)
            &&& after.len() == g.len()
            &&& within(after, g)
            &&& !removed_any ==> after == g
            &&& removed_any <==> yields(g, n, tokens, i, value)
            &&& !yields(after, n, tokens, i, value)
        }),
    decreases tokens.len() - i, 1int, 0int,
{
    let (after, removed_any) = removed(g, n, tokens, i, value);
    if i >= tokens.len() {
        lemma_value_removed(g, n, value);
    } else {
        let steps = successors(g, n, tokens, i);
        lemma_removed_through(g, n, tokens, i, steps.len() as int, value);
        if yields(g, n, tokens, i, value) {
            let step = choose|step: Successor|
                #[trigger] allowed(g, n, tokens, i, step) && advances(g, tokens, i, step)
                    && yields(g, step.node as int, tokens, step.pos as int, value);
            lemma_successors_allowed(g, n, tokens, i, step);
            let m = choose|m: int| 0 <= m < steps.len() && steps[m] == step;
            assert(advances(g, tokens, i, steps[m]));
        }
        if removed_any {
            let m = choose|m: int|
                0 <= m < steps.len() && advances(g, tokens, i, #[trigger] steps[m]) && yields(
                    g,
                    steps[m].node as int,
                    tokens,
                    steps[m].pos as int,
                    value,
                );
            lemma_successors_allowed(g, n, tokens, i, steps[m]);
            assert(allowed(g, n, tokens, i, steps[m]));
        }
        if yields(after, n, tokens, i, value) {
            let step = choose|step: Successor|
                #[trigger] allowed(after, n, tokens, i, step) && advances(after, tokens, i, step)
                    && yields(after, step.node as int, tokens, step.pos as int, value);
            lemma_allowed_within(after, g, n, tokens, i, step);
            lemma_successors_allowed(g, n, tokens, i, step);
            let m = choose|m: int| 0 <= m < steps.len() && steps[m] == step;
            assert(advances(g, tokens, i, steps[m]));
        }
    }
}

/// What removal through the first `k` successors of a node does.
pub proof fn lemma_removed_through<K, V>(
    g: Graph<K, V>,
    n: int,
    tokens: Seq<NodeKey<K>>,
    i: int,
    k: int,
    value: V,
)
    requires
        graph_wf(g),
        0 <= n < g.len(),
        0 <= i < tokens.len(),
        0 <= k <= successors(g, n, tokens, i).len(),
    ensures
        ({
            let steps = successors(g, n, tokens, i);
            let (after, removed_any) = removed_through(g, n, steps, tokens, i, k, value);
            &&& graph_wf(after)
            &&& after.len() == g.len()
            &&& within(after, g)
            &&& !removed_any ==> after == g
            &&& removed_any <==> exists|m: int|
                0 <= m < k && advances(g, tokens, i, #[trigger] steps[m]) && yields(
                    g,
                    steps[m].node as int,
                    tokens,
                    steps[m].pos as int,
                    value,
                )
            &&& forall|m: int|
                0 <= m < k && advances(g, tokens, i, #[trigger] steps[m]) ==> !yields(
                    after,
                    steps[m].node as int,
                    tokens,
                    steps[m].pos as int,
                    value,
                )
        }),
    decreases tokens.len() - i, 0int, k,
{
    let steps = successors(g, n, tokens, i);
    if k <= 0 {
        assert forall|m: int| 0 <= m < g.len() implies node_within(#[trigger] g[m], g[m]) by {
            lemma_holds_own(g[m].children);
            lemma_holds_own(g[m].skip_pars);
            lemma_holds_own(g[m].values);
        }
    } else {
        let (g1, r1) = removed_through(g, n, steps, tokens, i, k - 1, value);
        lemma_removed_through(g, n, tokens, i, k - 1, value);
        let step = steps[k - 1];
        let (after, removed_any) = removed_through(g, n, steps, tokens, i, k, value);
        if advances(g1, tokens, i, step) {
            let (g2, r2) = removed(g1, step.node as int, tokens, step.pos as int, value);
            lemma_removed(g1, step.node as int, tokens, step.pos as int, value);
            lemma_within_chain(g2, g1, g);
            if r2 && g2[step.node as int].is_vacant() {
                lemma_unlinked(g2, n, step);
                lemma_within_chain(after, g2, g);
                lemma_within_chain(after, g2, g1);
            }
            assert(within(after, g2));
            assert(within(after, g1));
            assert forall|m: int|
                0 <= m < k && advances(g, tokens, i, #[trigger] steps[m]) implies !yields(
                after,
                steps[m].node as int,
                tokens,
                steps[m].pos as int,
                value,
            ) by {
                if yields(after, steps[m].node as int, tokens, steps[m].pos as int, value) {
                    if m < k - 1 {
                        lemma_yields_within(
                            after,
                            g1,
                            steps[m].node as int,
                            tokens,
                            steps[m].pos as int,
                            value,
                        );
                    } else {
                        lemma_yields_within(
                            after,
                            g2,
                            steps[m].node as int,
                            tokens,
                            steps[m].pos as int,
                            value,
                        );
                    }
                }
            }
            if removed_any {
                if r1 {
                    let m = choose|m: int|
                        0 <= m < k - 1 && advances(g, tokens, i, #[trigger] steps[m]) && yields(
                            g,
                            steps[m].node as int,
                            tokens,
                            steps[m].pos as int,
                            value,
                        );
                    assert(0 <= m < k);
                } else {
                    assert(g1 == g);
                    assert(advances(g, tokens, i, steps[k - 1]));
                }
            }
        } else {
            if removed_any {
                let m = choose|m: int|
                    0 <= m < k - 1 && advances(g, tokens, i, #[trigger] steps[m]) && yields(
                        g,
                        steps[m].node as int,
                        tokens,
                        steps[m].pos as int,
                        value,
                    );
                assert(0 <= m < k);
            }
        }
    }
}

} // verus!
