//! What insertion leaves in the graph.

use crate::graph::{
    graph_wf, grown, including, inserted, walked, with_skip_pars, with_skips, with_values, Graph,
};
use crate::key::{balanced, lemma_balanced_closes, span_of, NodeKey};
use crate::matching::{
    lemma_child_of_edge, lemma_child_within, lemma_within_chain, node_within, within,
};
use vstd::prelude::*;

verus! {

/// `path` names the nodes that the first `k` tokens lead through from the
/// root, each by the labelled edge of its token.
pub open spec fn lies_along<K, V>(
    g: Graph<K, V>,
    tokens: Seq<NodeKey<K>>,
    path: Seq<usize>,
    k: int,
) -> bool {
    &&& path.len() == k + 1
    &&& path[0] == 0
    &&& forall|j: int| 0 <= j <= k ==> (#[trigger] path[j]) < g.len()
    &&& forall|j: int|
        0 <= j < k ==> g[path[j] as int].child(#[trigger] tokens[j]) == Some(path[j + 1])
}

/// Over each group of the key a skip edge leads from the node before the
/// opening marker to the node behind the closing one.
pub open spec fn skips_laid<K, V>(g: Graph<K, V>, tokens: Seq<NodeKey<K>>, path: Seq<usize>, k: int) -> bool {
    forall|j: int|
        0 <= j < k && (#[trigger] tokens[j]) is LeftPar ==> g[path[j] as int].skip_pars.contains(
            path[j + span_of(tokens, j) + 1],
        )
}

/// The key's path lies in the graph with its skip edges, and its last node
/// holds the value.
pub open spec fn stores<K, V>(g: Graph<K, V>, tokens: Seq<NodeKey<K>>, path: Seq<usize>, value: V) -> bool {
    &&& lies_along(g, tokens, path, tokens.len() as int)
    &&& skips_laid(g, tokens, path, tokens.len() as int)
    &&& g[path.last() as int].values.contains(value)
}

/// One step of the walk keeps the graph well formed and all that was in it,
/// and ends at the child under the label.
pub proof fn lemma_grown<K, V>(g: Graph<K, V>, n: int, label: NodeKey<K>)
    requires
        graph_wf(g),
        0 <= n < g.len(),
        grown(g, n, label).0.len() <= usize::MAX,
    ensures
        ({
            let (g2, child) = grown(g, n, label);
            &&& graph_wf(g2)
            &&& within(g, g2)
            &&& child < g2.len() <= g.len() + 1
            &&& g2[n].child(label) == Some(child)
        }),
{
    let (g2, child) = grown(g, n, label);
    assert(g[n].wf(g.len()));
    match g[n].child(label) {
        Some(c) => {
            let chosen = g[n].child_index(label);
            assert(g[n].children[chosen].1 < g.len());
        },
        None => {
            let children = g[n].children.push((label, child));
            assert(g2[n].children == children);
            assert forall|m: int| 0 <= m < g2.len() implies (#[trigger] g2[m]).wf(g2.len()) by {
                if m < g.len() {
                    assert(g[m].wf(g.len()));
                }
                if m == n {
                    assert forall|a: int, b: int| 0 <= a < b < children.len() implies (
                    #[trigger] children[a]).0 != (#[trigger] children[b]).0 && children[a].1
                        != children[b].1 by {
                        assert(children[a] == g[n].children[a]);
                        if b < children.len() - 1 {
                            assert(children[b] == g[n].children[b]);
                        }
                    }
                }
            }
            assert forall|m: int| 0 <= m < g.len() implies node_within(#[trigger] g[m], g2[m]) by {
                if m == n {
                    assert forall|j: int| 0 <= j < g[m].children.len() implies children.contains(
                        #[trigger] g[m].children[j],
                    ) by {
                        assert(children[j] == g[m].children[j]);
                    }
                } else {
                    assert(g2[m] == g[m]);
                }
                assert forall|j: int| 0 <= j < g[m].skip_pars.len() implies g2[m].skip_pars.contains(
                    #[trigger] g[m].skip_pars[j],
                ) by {
                    assert(g2[m].skip_pars[j] == g[m].skip_pars[j]);
                }
                assert forall|j: int| 0 <= j < g[m].values.len() implies g2[m].values.contains(
                    #[trigger] g[m].values[j],
                ) by {
                    assert(g2[m].values[j] == g[m].values[j]);
                }
                assert forall|j: int| 0 <= j < g[m].children.len() implies g2[m].children.contains(
                    #[trigger] g[m].children[j],
                ) by {
                    assert(g2[m].children[j] == g[m].children[j]);
                }
            }
            assert(children[children.len() - 1] == (label, child));
            lemma_child_of_edge(g2[n], g2.len(), children.len() - 1);
        },
    }
}

/// A path that lies in a graph lies in a well-formed graph that the first
/// lies within.
pub proof fn lemma_lies_along_within<K, V>(
    small: Graph<K, V>,
    big: Graph<K, V>,
    tokens: Seq<NodeKey<K>>,
    path: Seq<usize>,
    k: int,
)
    requires
        within(small, big),
        graph_wf(big),
        lies_along(small, tokens, path, k),
    ensures
        lies_along(big, tokens, path, k),
{
    assert forall|j: int| 0 <= j < k implies big[path[j] as int].child(#[trigger] tokens[j])
        == Some(path[j + 1]) by {
        let n = path[j] as int;
        assert(node_within(small[n], big[n]));
        assert(big[n].wf(big.len()));
        lemma_child_within(small[n], big[n], big.len(), tokens[j], path[j + 1]);
    }
}

/// The graph fits the machine at every step of a walk along the first `k`
/// tokens.
pub open spec fn walk_fits<K, V>(g: Graph<K, V>, tokens: Seq<NodeKey<K>>, k: int) -> bool {
    forall|j: int| 0 <= j <= k ==> (#[trigger] walked(g, tokens, j)).0.len() <= usize::MAX
}

/// The walk keeps the graph well formed and all that was in it, and the
/// nodes that it passed are the key's path.
pub proof fn lemma_walked<K, V>(g: Graph<K, V>, tokens: Seq<NodeKey<K>>, k: int)
    requires
        graph_wf(g),
        0 <= k <= tokens.len(),
        walk_fits(g, tokens, k),
    ensures
        ({
            let (gk, path) = walked(g, tokens, k);
            &&& graph_wf(gk)
            &&& within(g, gk)
            &&& g.len() <= gk.len() <= g.len() + k
            &&& lies_along(gk, tokens, path, k)
        }),
    decreases k,
{
    if k > 0 {
        let (g1, trail) = walked(g, tokens, k - 1);
        lemma_walked(g, tokens, k - 1);
        let (g2, child) = grown(g1, trail.last() as int, tokens[k - 1]);
        assert(trail[k - 1] < g1.len());
        assert(walked(g, tokens, k).0 == g2);
        lemma_grown(g1, trail.last() as int, tokens[k - 1]);
        lemma_within_chain(g, g1, g2);
        lemma_lies_along_within(g1, g2, tokens, trail, k - 1);
        let path = trail.push(child);
        assert forall|j: int| 0 <= j < k implies g2[path[j] as int].child(#[trigger] tokens[j])
            == Some(path[j + 1]) by {
            if j < k - 1 {
                assert(path[j] == trail[j]);
                assert(path[j + 1] == trail[j + 1]);
            }
        }
        assert forall|j: int| 0 <= j <= k implies (#[trigger] path[j]) < g2.len() by {
            if j < k {
                assert(path[j] == trail[j]);
            }
        }
    }
}

/// One more skip edge keeps the graph well formed and all that was in it,
/// and changes no labelled edge and no value.
pub proof fn lemma_linked<K, V>(g: Graph<K, V>, from: int, to: usize)
    requires
        graph_wf(g),
        0 <= from < g.len(),
        to < g.len(),
    ensures
        ({
            let linked = with_skip_pars(g, from, including(g[from].skip_pars, to));
            &&& graph_wf(linked)
            &&& within(g, linked)
            &&& linked.len() == g.len()
            &&& linked[from].skip_pars.contains(to)
            &&& forall|m: int|
                0 <= m < g.len() ==> (#[trigger] linked[m]).children == g[m].children
                    && linked[m].values == g[m].values
        }),
{
    let skips = including(g[from].skip_pars, to);
    let linked = with_skip_pars(g, from, skips);
    assert(g[from].wf(g.len()));
    assert forall|m: int| 0 <= m < linked.len() implies (#[trigger] linked[m]).wf(
        linked.len(),
    ) by {
        assert(g[m].wf(g.len()));
    }
    assert forall|m: int| 0 <= m < g.len() implies node_within(#[trigger] g[m], linked[m]) by {
        assert forall|j: int| 0 <= j < g[m].skip_pars.len() implies linked[m].skip_pars.contains(
            #[trigger] g[m].skip_pars[j],
        ) by {
            assert(linked[m].skip_pars[j] == g[m].skip_pars[j]);
        }
        assert forall|j: int| 0 <= j < g[m].values.len() implies linked[m].values.contains(
            #[trigger] g[m].values[j],
        ) by {
            assert(linked[m].values[j] == g[m].values[j]);
        }
        assert forall|j: int| 0 <= j < g[m].children.len() implies linked[m].children.contains(
            #[trigger] g[m].children[j],
        ) by {
            assert(linked[m].children[j] == g[m].children[j]);
        }
    }
    if !g[from].skip_pars.contains(to) {
        assert(skips[skips.len() - 1] == to);
    }
}

/// Laying the skip edges keeps the graph well formed, changes no labelled
/// edge and no value, and leaves a skip edge over each group.
pub proof fn lemma_with_skips<K, V>(
    g: Graph<K, V>,
    tokens: Seq<NodeKey<K>>,
    path: Seq<usize>,
    k: int,
)
    requires
        graph_wf(g),
        balanced(tokens),
        lies_along(g, tokens, path, tokens.len() as int),
        0 <= k <= tokens.len(),
    ensures
        ({
            let gk = with_skips(g, tokens, path, k);
            &&& graph_wf(gk)
            &&& within(g, gk)
            &&& gk.len() == g.len()
            &&& forall|m: int|
                0 <= m < g.len() ==> (#[trigger] gk[m]).children == g[m].children && gk[m].values
                    == g[m].values
            &&& skips_laid(gk, tokens, path, k)
        }),
    decreases k,
{
    if k > 0 {
        let g1 = with_skips(g, tokens, path, k - 1);
        lemma_with_skips(g, tokens, path, k - 1);
        let gk = with_skips(g, tokens, path, k);
        if tokens[k - 1] is LeftPar {
            lemma_balanced_closes(tokens, k - 1);
            let from = path[k - 1] as int;
            let to = path[k + span_of(tokens, k - 1)];
            assert(path[k - 1] < g.len());
            assert(path[k + span_of(tokens, k - 1)] < g.len());
            lemma_linked(g1, from, to);
            lemma_within_chain(g, g1, gk);
            assert forall|m: int| 0 <= m < g.len() implies (#[trigger] gk[m]).children
                == g[m].children && gk[m].values == g[m].values by {
                assert(g1[m].children == g[m].children);
            }
            assert forall|j: int|
                0 <= j < k && (#[trigger] tokens[j]) is LeftPar implies gk[path[j] as int].skip_pars.contains(
                path[j + span_of(tokens, j) + 1],
            ) by {
                if j < k - 1 {
                    let n = path[j] as int;
                    let target = path[j + span_of(tokens, j) + 1];
                    assert(g1[n].skip_pars.contains(target));
                    assert(node_within(g1[n], gk[n]));
                    let at = choose|at: int|
                        0 <= at < g1[n].skip_pars.len() && g1[n].skip_pars[at] == target;
                    assert(gk[n].skip_pars.contains(g1[n].skip_pars[at]));
                }
            }
        }
    }
}

/// Insertion keeps the graph well formed and all that was in it, and leaves
/// the key's path with its skip edges and the value at its end.
pub proof fn lemma_inserted<K, V>(g: Graph<K, V>, tokens: Seq<NodeKey<K>>, value: V)
    requires
        graph_wf(g),
        balanced(tokens),
        walk_fits(g, tokens, tokens.len() as int),
    ensures
        ({
            let after = inserted(g, tokens, value);
            let path = walked(g, tokens, tokens.len() as int).1;
            &&& graph_wf(after)
            &&& within(g, after)
            &&& g.len() <= after.len() <= g.len() + tokens.len()
            &&& stores(after, tokens, path, value)
        }),
{
    let len = tokens.len() as int;
    let (g1, path) = walked(g, tokens, len);
    lemma_walked(g, tokens, len);
    let last = path.last() as int;
    assert(path[len] < g1.len());
    let values = including(g1[last].values, value);
    let g2 = with_values(g1, last, values);
    assert(g1[last].wf(g1.len()));
    assert forall|m: int| 0 <= m < g2.len() implies (#[trigger] g2[m]).wf(g2.len()) by {
        assert(g1[m].wf(g1.len()));
    }
    assert forall|m: int| 0 <= m < g1.len() implies node_within(#[trigger] g1[m], g2[m]) by {
        assert forall|j: int| 0 <= j < g1[m].skip_pars.len() implies g2[m].skip_pars.contains(
            #[trigger] g1[m].skip_pars[j],
        ) by {
            assert(g2[m].skip_pars[j] == g1[m].skip_pars[j]);
        }
        assert forall|j: int| 0 <= j < g1[m].values.len() implies g2[m].values.contains(
            #[trigger] g1[m].values[j],
        ) by {
            assert(g2[m].values[j] == g1[m].values[j]);
        }
        assert forall|j: int| 0 <= j < g1[m].children.len() implies g2[m].children.contains(
            #[trigger] g1[m].children[j],
        ) by {
            assert(g2[m].children[j] == g1[m].children[j]);
        }
    }
    lemma_within_chain(g, g1, g2);
    lemma_lies_along_within(g1, g2, tokens, path, len);
    if g1[last].values.contains(value) {
    } else {
        assert(values[values.len() - 1] == value);
    }
    assert(g2[last].values.contains(value));
    let after = with_skips(g2, tokens, path, len);
    lemma_with_skips(g2, tokens, path, len);
    lemma_within_chain(g, g2, after);
    lemma_lies_along_within(g2, after, tokens, path, len);
    assert(after[last].values == g2[last].values);
}

/// A graph with room for one node for each token of a key fits the machine
/// at every step of a walk along the key.
pub proof fn lemma_room_fits<K, V>(g: Graph<K, V>, tokens: Seq<NodeKey<K>>, k: int)
    requires
        graph_wf(g),
        0 <= k <= tokens.len(),
        g.len() + k <= usize::MAX,
    ensures
        walk_fits(g, tokens, k),
        walked(g, tokens, k).0.len() <= g.len() + k,
    decreases k,
{
    if k > 0 {
        lemma_room_fits(g, tokens, k - 1);
        lemma_walked(g, tokens, k - 1);
        let (g1, trail) = walked(g, tokens, k - 1);
        assert(trail[k - 1] < g1.len());
        assert(walked(g, tokens, k).0.len() <= g1.len() + 1);
        assert forall|j: int| 0 <= j <= k implies (#[trigger] walked(g, tokens, j)).0.len()
            <= usize::MAX by {}
    }
}

} // verus!
