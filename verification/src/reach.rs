//! Which nodes a query leads to, said over the edges of the graph.

use crate::graph::{advances, graph_wf, successors, Graph, Successor};
use crate::key::{balanced, closes, lemma_balanced_closes, span_of, NodeKey};
use crate::matching::{
    allowed, lemma_child_of_edge, lemma_edge_of_child, lemma_successors_allowed, node_within,
    within, yields,
};
use vstd::prelude::*;

verus! {

/// Where a query goes on when its token at position `i` is held against a
/// stored token: behind the token, or behind its own group where the stored
/// token is a wildcard; nowhere where the two do not go together.
///
/// - A symbol goes with the same symbol and with a wildcard.
/// - A closing marker goes with a closing marker.
/// - An opening marker goes with an opening marker; and its whole group goes
///   with a wildcard.
/// - A wildcard goes with a symbol and with a wildcard.
pub open spec fn next_pos<K>(query: Seq<NodeKey<K>>, i: int, label: NodeKey<K>) -> Option<int> {
    match query[i] {
        NodeKey::Exact(_) => if label == query[i] || label is Wildcard {
            Some(i + 1)
        } else {
            None
        },
        NodeKey::RightPar => if label is RightPar {
            Some(i + 1)
        } else {
            None
        },
        NodeKey::LeftPar => if label is Wildcard {
            Some(i + span_of(query, i) + 1)
        } else if label is LeftPar {
            Some(i + 1)
        } else {
            None
        },
        NodeKey::Wildcard => if label.is_par() {
            None
        } else {
            Some(i + 1)
        },
    }
}

/// Whether the rest of a query from position `i` matches the rest of a
/// stored key from position `j`: token by token, as the tokens go together;
/// and a wildcard of the query also matches a whole stored group.
pub open spec fn key_matches<K>(
    query: Seq<NodeKey<K>>,
    i: int,
    stored: Seq<NodeKey<K>>,
    j: int,
) -> bool
    decreases query.len() - i,
{
    if i < 0 || j < 0 {
        false
    } else if i >= query.len() {
        j >= stored.len()
    } else if j >= stored.len() {
        false
    } else {
        ||| match next_pos(query, i, stored[j]) {
            Some(p) => i < p <= query.len() && key_matches(query, p, stored, j + 1),
            None => false,
        }
        ||| query[i] is Wildcard && stored[j] is LeftPar && exists|e: int| #[trigger]
            closes(stored, j, e) && key_matches(query, i + 1, stored, e + 1)
    }
}

/// Whether a query matches a stored key.
pub open spec fn query_matches<K>(query: Seq<NodeKey<K>>, stored: Seq<NodeKey<K>>) -> bool {
    key_matches(query, 0, stored, 0)
}

/// Whether the query, from position `i` on, leads from node `n` to node `m`:
/// at its end it has arrived; before, it follows a labelled edge that goes
/// with its token, or, where the token is a wildcard, a skip edge.
pub open spec fn reaches<K, V>(g: Graph<K, V>, n: int, query: Seq<NodeKey<K>>, i: int, m: int) -> bool
    decreases query.len() - i,
{
    if !(0 <= n < g.len()) || i < 0 {
        false
    } else if i >= query.len() {
        m == n
    } else {
        ||| exists|j: int|
            0 <= j < g[n].children.len() && {
                let edge = #[trigger] g[n].children[j];
                match next_pos(query, i, edge.0) {
                    Some(p) => i < p <= query.len() && edge.1 < g.len() && reaches(
                        g,
                        edge.1 as int,
                        query,
                        p,
                        m,
                    ),
                    None => false,
                }
            }
        ||| query[i] is Wildcard && exists|j: int|
            0 <= j < g[n].skip_pars.len() && {
                let target = #[trigger] g[n].skip_pars[j];
                target < g.len() && reaches(g, target as int, query, i + 1, m)
            }
    }
}

/// Whether the query leads from node `n` to a node that holds `value`.
pub open spec fn reaches_value<K, V>(
    g: Graph<K, V>,
    n: int,
    query: Seq<NodeKey<K>>,
    i: int,
    value: V,
) -> bool {
    exists|m: int|
        0 <= m < g.len() && #[trigger] reaches(g, n, query, i, m) && g[m].values.contains(value)
}

/// A query that leads to a node leads to a node of the graph.
pub proof fn lemma_reaches_inside<K, V>(g: Graph<K, V>, n: int, query: Seq<NodeKey<K>>, i: int, m: int)
    requires
        reaches(g, n, query, i, m),
    ensures
        0 <= m < g.len(),
        0 <= n < g.len(),
    decreases query.len() - i,
{
    if i < query.len() {
        if exists|j: int|
            0 <= j < g[n].children.len() && {
                let edge = #[trigger] g[n].children[j];
                match next_pos(query, i, edge.0) {
                    Some(p) => i < p <= query.len() && edge.1 < g.len() && reaches(
                        g,
                        edge.1 as int,
                        query,
                        p,
                        m,
                    ),
                    None => false,
                }
            } {
            let j = choose|j: int|
                0 <= j < g[n].children.len() && {
                    let edge = #[trigger] g[n].children[j];
                    match next_pos(query, i, edge.0) {
                        Some(p) => i < p <= query.len() && edge.1 < g.len() && reaches(
                            g,
                            edge.1 as int,
                            query,
                            p,
                            m,
                        ),
                        None => false,
                    }
                };
            let edge = g[n].children[j];
            lemma_reaches_inside(g, edge.1 as int, query, next_pos(query, i, edge.0)->0, m);
        } else {
            let j = choose|j: int|
                0 <= j < g[n].skip_pars.len() && {
                    let target = #[trigger] g[n].skip_pars[j];
                    target < g.len() && reaches(g, target as int, query, i + 1, m)
                };
            lemma_reaches_inside(g, g[n].skip_pars[j] as int, query, i + 1, m);
        }
    }
}

/// The query leads on from `n` through its labelled edge `j`.
pub proof fn lemma_reaches_through_child<K, V>(
    g: Graph<K, V>,
    n: int,
    query: Seq<NodeKey<K>>,
    i: int,
    j: int,
    m: int,
)
    requires
        0 <= n < g.len(),
        0 <= i < query.len(),
        0 <= j < g[n].children.len(),
        next_pos(query, i, g[n].children[j].0) matches Some(p) && i < p <= query.len()
            && g[n].children[j].1 < g.len() && reaches(g, g[n].children[j].1 as int, query, p, m),
    ensures
        reaches(g, n, query, i, m),
{
    let edge = g[n].children[j];
    assert(match next_pos(query, i, edge.0) {
        Some(p) => i < p <= query.len() && edge.1 < g.len() && reaches(
            g,
            edge.1 as int,
            query,
            p,
            m,
        ),
        None => false,
    });
}

/// The query leads on from `n` through its skip edge `j`.
pub proof fn lemma_reaches_through_skip<K, V>(
    g: Graph<K, V>,
    n: int,
    query: Seq<NodeKey<K>>,
    i: int,
    j: int,
    m: int,
)
    requires
        0 <= n < g.len(),
        0 <= i < query.len(),
        query[i] is Wildcard,
        0 <= j < g[n].skip_pars.len(),
        g[n].skip_pars[j] < g.len(),
        reaches(g, g[n].skip_pars[j] as int, query, i + 1, m),
    ensures
        reaches(g, n, query, i, m),
{
    let target = g[n].skip_pars[j];
    assert(target < g.len() && reaches(g, target as int, query, i + 1, m));
}

/// The successors that the matching rules allow are the edges that the
/// query's token goes with.
pub proof fn lemma_allowed_is_edge<K, V>(
    g: Graph<K, V>,
    n: int,
    query: Seq<NodeKey<K>>,
    i: int,
    step: Successor,
)
    requires
        graph_wf(g),
        balanced(query),
        0 <= n < g.len(),
        0 <= i < query.len() <= usize::MAX,
        i < step.pos <= query.len(),
    ensures
        allowed(g, n, query, i, step) <==> if step.via_skip {
            query[i] is Wildcard && step.pos == i + 1 && g[n].skip_pars.contains(step.node)
        } else {
            exists|j: int|
                0 <= j < g[n].children.len() && (#[trigger] g[n].children[j]).1 == step.node
                    && next_pos(query, i, g[n].children[j].0) == Some(step.pos as int)
        },
{
    let node = g[n];
    assert(node.wf(g.len()));
    if query[i] is LeftPar {
        lemma_balanced_closes(query, i);
    }
    let edge_exists = exists|j: int|
        0 <= j < node.children.len() && (#[trigger] node.children[j]).1 == step.node && next_pos(
            query,
            i,
            node.children[j].0,
        ) == Some(step.pos as int);
    if !step.via_skip {
        if allowed(g, n, query, i, step) {
            match query[i] {
                NodeKey::Exact(_) => {
                    let label = if node.child(query[i]) == Some(step.node) {
                        query[i]
                    } else {
                        NodeKey::Wildcard
                    };
                    lemma_edge_of_child(node, label, step.node);
                    let j = choose|j: int|
                        0 <= j < node.children.len() && node.children[j] == (label, step.node);
                    assert(node.children[j].1 == step.node);
                },
                NodeKey::RightPar => {
                    lemma_edge_of_child(node, NodeKey::RightPar, step.node);
                    let j = choose|j: int|
                        0 <= j < node.children.len() && node.children[j] == (
                            NodeKey::<K>::RightPar,
                            step.node,
                        );
                    assert(node.children[j].1 == step.node);
                },
                NodeKey::LeftPar => {
                    let label = if step.pos == (i + span_of(query, i) + 1) as usize && node.child(
                        NodeKey::Wildcard,
                    ) == Some(step.node) {
                        NodeKey::<K>::Wildcard
                    } else {
                        NodeKey::<K>::LeftPar
                    };
                    lemma_edge_of_child(node, label, step.node);
                    let j = choose|j: int|
                        0 <= j < node.children.len() && node.children[j] == (label, step.node);
                    assert(node.children[j].1 == step.node);
                },
                NodeKey::Wildcard => {
                    let j = choose|j: int|
                        0 <= j < node.children.len() && (#[trigger] node.children[j]).1
                            == step.node && !node.children[j].0.is_par();
                    assert(node.children[j].1 == step.node);
                },
            }
            assert(edge_exists);
        }
        if edge_exists {
            let j = choose|j: int|
                0 <= j < node.children.len() && (#[trigger] node.children[j]).1 == step.node
                    && next_pos(query, i, node.children[j].0) == Some(step.pos as int);
            lemma_child_of_edge(node, g.len(), j);
        }
    }
}

/// The edge of node `n` that a query follows from position `i` towards
/// `m`: the number of a labelled edge, or, from the number of labelled edges
/// on, of a skip edge.
pub open spec fn edge_towards<K, V>(
    g: Graph<K, V>,
    n: int,
    query: Seq<NodeKey<K>>,
    i: int,
    m: int,
    j: int,
) -> bool {
    if 0 <= j < g[n].children.len() {
        let edge = g[n].children[j];
        match next_pos(query, i, edge.0) {
            Some(p) => i < p <= query.len() && edge.1 < g.len() && reaches(
                g,
                edge.1 as int,
                query,
                p,
                m,
            ),
            None => false,
        }
    } else {
        let t = j - g[n].children.len();
        query[i] is Wildcard && 0 <= t < g[n].skip_pars.len() && g[n].skip_pars[t] < g.len()
            && reaches(g, g[n].skip_pars[t] as int, query, i + 1, m)
    }
}

/// A query that leads somewhere before its end follows an edge.
pub proof fn lemma_reaches_some_edge<K, V>(
    g: Graph<K, V>,
    n: int,
    query: Seq<NodeKey<K>>,
    i: int,
    m: int,
) -> (j: int)
    requires
        reaches(g, n, query, i, m),
        i < query.len(),
    ensures
        edge_towards(g, n, query, i, m, j),
        0 <= n < g.len(),
        0 <= i,
{
    if exists|j: int|
        0 <= j < g[n].children.len() && {
            let edge = #[trigger] g[n].children[j];
            match next_pos(query, i, edge.0) {
                Some(p) => i < p <= query.len() && edge.1 < g.len() && reaches(
                    g,
                    edge.1 as int,
                    query,
                    p,
                    m,
                ),
                None => false,
            }
        } {
        choose|j: int|
            0 <= j < g[n].children.len() && {
                let edge = #[trigger] g[n].children[j];
                match next_pos(query, i, edge.0) {
                    Some(p) => i < p <= query.len() && edge.1 < g.len() && reaches(
                        g,
                        edge.1 as int,
                        query,
                        p,
                        m,
                    ),
                    None => false,
                }
            }
    } else {
        let t = choose|t: int|
            0 <= t < g[n].skip_pars.len() && {
                let target = #[trigger] g[n].skip_pars[t];
                target < g.len() && reaches(g, target as int, query, i + 1, m)
            };
        g[n].children.len() + t
    }
}

/// The matching rules lead to a value exactly where the query leads to a
/// node that holds it.
pub proof fn lemma_yields_reaches<K, V>(
    g: Graph<K, V>,
    n: int,
    query: Seq<NodeKey<K>>,
    i: int,
    value: V,
)
    requires
        graph_wf(g),
        balanced(query),
        query.len() <= usize::MAX,
    ensures
        yields(g, n, query, i, value) <==> reaches_value(g, n, query, i, value),
    decreases query.len() - i,
{
    if 0 <= n < g.len() && 0 <= i {
        if i >= query.len() {
            if g[n].values.contains(value) {
                assert(reaches(g, n, query, i, n));
            }
        } else {
            assert(g[n].wf(g.len()));
            if yields(g, n, query, i, value) {
                let step = choose|step: Successor|
                    #[trigger] allowed(g, n, query, i, step) && advances(g, query, i, step)
                        && yields(g, step.node as int, query, step.pos as int, value);
                lemma_yields_reaches(g, step.node as int, query, step.pos as int, value);
                let m = choose|m: int|
                    0 <= m < g.len() && #[trigger] reaches(
                        g,
                        step.node as int,
                        query,
                        step.pos as int,
                        m,
                    ) && g[m].values.contains(value);
                lemma_allowed_is_edge(g, n, query, i, step);
                if step.via_skip {
                    let t = choose|t: int|
                        0 <= t < g[n].skip_pars.len() && g[n].skip_pars[t] == step.node;
                    lemma_reaches_through_skip(g, n, query, i, t, m);
                } else {
                    let j = choose|j: int|
                        0 <= j < g[n].children.len() && (#[trigger] g[n].children[j]).1
                            == step.node && next_pos(query, i, g[n].children[j].0) == Some(
                            step.pos as int,
                        );
                    lemma_reaches_through_child(g, n, query, i, j, m);
                }
                assert(reaches(g, n, query, i, m));
            }
            if reaches_value(g, n, query, i, value) {
                let m = choose|m: int|
                    0 <= m < g.len() && #[trigger] reaches(g, n, query, i, m)
                        && g[m].values.contains(value);
                let j = lemma_reaches_some_edge(g, n, query, i, m);
                if 0 <= j < g[n].children.len() {
                    let edge = g[n].children[j];
                    let p = next_pos(query, i, edge.0)->0;
                    let step = Successor { node: edge.1, pos: p as usize, via_skip: false };
                    lemma_yields_reaches(g, edge.1 as int, query, p, value);
                    assert(reaches(g, edge.1 as int, query, p, m));
                    lemma_allowed_is_edge(g, n, query, i, step);
                    assert(g[n].children[j].1 == step.node);
                    assert(allowed(g, n, query, i, step));
                    assert(advances(g, query, i, step));
                } else {
                    let t = j - g[n].children.len();
                    let target = g[n].skip_pars[t];
                    let step = Successor { node: target, pos: (i + 1) as usize, via_skip: true };
                    lemma_yields_reaches(g, target as int, query, i + 1, value);
                    assert(reaches(g, target as int, query, i + 1, m));
                    lemma_allowed_is_edge(g, n, query, i, step);
                    assert(allowed(g, n, query, i, step));
                    assert(advances(g, query, i, step));
                }
            }
        }
    } else {
        if reaches_value(g, n, query, i, value) {
            let m = choose|m: int|
                0 <= m < g.len() && #[trigger] reaches(g, n, query, i, m) && g[m].values.contains(
                    value,
                );
        }
    }
}

/// The query leads on to `m` through a successor.
pub open spec fn reaches_through<K, V>(
    g: Graph<K, V>,
    query: Seq<NodeKey<K>>,
    i: int,
    step: Successor,
    m: int,
) -> bool {
    advances(g, query, i, step) && reaches(g, step.node as int, query, step.pos as int, m)
}

/// A query that leads somewhere before its end leads on through one of the
/// node's successors.
pub proof fn lemma_reaches_some_step<K, V>(
    g: Graph<K, V>,
    n: int,
    query: Seq<NodeKey<K>>,
    i: int,
    m: int,
) -> (at: int)
    requires
        graph_wf(g),
        balanced(query),
        query.len() <= usize::MAX,
        reaches(g, n, query, i, m),
        i < query.len(),
    ensures
        0 <= at < successors(g, n, query, i).len(),
        reaches_through(g, query, i, successors(g, n, query, i)[at], m),
{
    let j = lemma_reaches_some_edge(g, n, query, i, m);
    assert(g[n].wf(g.len()));
    let step = if 0 <= j < g[n].children.len() {
        let edge = g[n].children[j];
        Successor { node: edge.1, pos: next_pos(query, i, edge.0)->0 as usize, via_skip: false }
    } else {
        Successor {
            node: g[n].skip_pars[j - g[n].children.len()],
            pos: (i + 1) as usize,
            via_skip: true,
        }
    };
    lemma_allowed_is_edge(g, n, query, i, step);
    if 0 <= j < g[n].children.len() {
        assert(g[n].children[j].1 == step.node);
    }
    assert(allowed(g, n, query, i, step));
    lemma_successors_allowed(g, n, query, i, step);
    choose|at: int|
        0 <= at < successors(g, n, query, i).len() && successors(g, n, query, i)[at] == step
}

/// A query that leads on through a successor of a node leads on from the
/// node.
pub proof fn lemma_step_reaches<K, V>(
    g: Graph<K, V>,
    n: int,
    query: Seq<NodeKey<K>>,
    i: int,
    at: int,
    m: int,
)
    requires
        graph_wf(g),
        balanced(query),
        query.len() <= usize::MAX,
        0 <= n < g.len(),
        0 <= i < query.len(),
        0 <= at < successors(g, n, query, i).len(),
        reaches_through(g, query, i, successors(g, n, query, i)[at], m),
    ensures
        reaches(g, n, query, i, m),
{
    let step = successors(g, n, query, i)[at];
    lemma_successors_allowed(g, n, query, i, step);
    lemma_allowed_is_edge(g, n, query, i, step);
    if step.via_skip {
        let t = choose|t: int| 0 <= t < g[n].skip_pars.len() && g[n].skip_pars[t] == step.node;
        lemma_reaches_through_skip(g, n, query, i, t, m);
    } else {
        let j = choose|j: int|
            0 <= j < g[n].children.len() && (#[trigger] g[n].children[j]).1 == step.node
                && next_pos(query, i, g[n].children[j].0) == Some(step.pos as int);
        lemma_reaches_through_child(g, n, query, i, j, m);
    }
}

/// Where a query leads to in a graph it leads to in a graph that the first
/// lies within.
pub proof fn lemma_reaches_within<K, V>(
    small: Graph<K, V>,
    big: Graph<K, V>,
    n: int,
    query: Seq<NodeKey<K>>,
    i: int,
    m: int,
)
    requires
        within(small, big),
        reaches(small, n, query, i, m),
    ensures
        reaches(big, n, query, i, m),
    decreases query.len() - i,
{
    lemma_reaches_inside(small, n, query, i, m);
    if i < query.len() {
        let j = lemma_reaches_some_edge(small, n, query, i, m);
        assert(node_within(small[n], big[n]));
        if 0 <= j < small[n].children.len() {
            let edge = small[n].children[j];
            let p = next_pos(query, i, edge.0)->0;
            lemma_reaches_within(small, big, edge.1 as int, query, p, m);
            assert(big[n].children.contains(small[n].children[j]));
            let k = choose|k: int| 0 <= k < big[n].children.len() && big[n].children[k] == edge;
            lemma_reaches_through_child(big, n, query, i, k, m);
        } else {
            let t = j - small[n].children.len();
            let target = small[n].skip_pars[t];
            lemma_reaches_within(small, big, target as int, query, i + 1, m);
            assert(big[n].skip_pars.contains(small[n].skip_pars[t]));
            let k = choose|k: int| 0 <= k < big[n].skip_pars.len() && big[n].skip_pars[k] == target;
            lemma_reaches_through_skip(big, n, query, i, k, m);
        }
    }
}

/// A vacant node is where a query that leads on from it ends.
pub proof fn lemma_vacant_ends<K, V>(g: Graph<K, V>, n: int, query: Seq<NodeKey<K>>, i: int, m: int)
    requires
        reaches(g, n, query, i, m),
        g[n].is_vacant(),
    ensures
        m == n,
{
    if i < query.len() {
        let j = lemma_reaches_some_edge(g, n, query, i, m);
    }
}

} // verus!
