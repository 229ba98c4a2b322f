//! What an insertion changes and what it leaves alone.

use crate::graph::{graph_wf, grown, including, inserted, walked, with_skips, with_values, Graph};
use crate::insertion::{lemma_grown, lemma_walked, lemma_with_skips, lies_along, walk_fits};
use crate::key::{balanced, span_of, NodeKey};
use crate::stored::tree_shaped;
use vstd::prelude::*;

verus! {

/// What a walk leaves alone: the values and skip edges of the nodes that
/// were there, whose labelled edges it only adds to, with edges to new
/// nodes; the new nodes have no values and no skip edges.
pub open spec fn grown_from<K, V>(g: Graph<K, V>, after: Graph<K, V>) -> bool {
    &&& g.len() <= after.len()
    &&& forall|m: int|
        0 <= m < g.len() ==> (#[trigger] after[m]).values == g[m].values && after[m].skip_pars
            == g[m].skip_pars
    &&& forall|m: int|
        g.len() <= m < after.len() ==> (#[trigger] after[m]).values.len() == 0
            && after[m].skip_pars.len() == 0
    &&& forall|m: int, j: int|
        0 <= m < after.len() && 0 <= j < after[m].children.len() ==> {
            let edge = #[trigger] after[m].children[j];
            edge.1 >= g.len() || (m < g.len() && g[m].children.contains(edge))
        }
}

/// One step of a walk leaves alone what a walk leaves alone, and keeps the
/// tree of labelled edges a tree.
pub proof fn lemma_grown_frame<K, V>(g: Graph<K, V>, n: int, label: NodeKey<K>)
    requires
        graph_wf(g),
        0 <= n < g.len(),
        grown(g, n, label).0.len() <= usize::MAX,
    ensures
        grown_from(g, grown(g, n, label).0),
        tree_shaped(g) ==> tree_shaped(grown(g, n, label).0),
        grown(g, n, label).1 >= g.len() || g[n].children.contains((label, grown(g, n, label).1)),
{
    let (after, child) = grown(g, n, label);
    lemma_grown(g, n, label);
    match g[n].child(label) {
        Some(c) => {
            assert forall|m: int, j: int|
                0 <= m < after.len() && 0 <= j < after[m].children.len() implies {
                let edge = #[trigger] after[m].children[j];
                edge.1 >= g.len() || (m < g.len() && g[m].children.contains(edge))
            } by {}
            let chosen = g[n].child_index(label);
            assert(g[n].children[chosen] == (label, c));
        },
        None => {
            let children = g[n].children.push((label, child));
            assert(after[n].children == children);
            assert forall|m: int, j: int|
                0 <= m < after.len() && 0 <= j < after[m].children.len() implies {
                let edge = #[trigger] after[m].children[j];
                edge.1 >= g.len() || (m < g.len() && g[m].children.contains(edge))
            } by {
                if m == n {
                    if j < g[n].children.len() {
                        assert(after[m].children[j] == g[m].children[j]);
                    }
                } else if m < g.len() {
                    assert(after[m] == g[m]);
                }
            }
            if tree_shaped(g) {
                assert forall|p: int, j: int|
                    0 <= p < after.len() && 0 <= j < after[p].children.len() implies p < (
                #[trigger] after[p].children[j]).1 by {
                    if p == n {
                        if j < g[n].children.len() {
                            assert(after[p].children[j] == g[p].children[j]);
                        }
                    } else if p < g.len() {
                        assert(after[p] == g[p]);
                    }
                }
                assert forall|p: int, j: int, q: int, k: int|
                    0 <= p < after.len() && 0 <= j < after[p].children.len() && 0 <= q
                        < after.len() && 0 <= k < after[q].children.len() && (
                    #[trigger] after[p].children[j]).1 == (
                    #[trigger] after[q].children[k]).1 implies p == q by {
                    let ep = after[p].children[j];
                    let eq = after[q].children[k];
                    if ep.1 >= g.len() {
                        assert(p == n) by {
                            if p != n && p < g.len() {
                                assert(after[p] == g[p]);
                                assert(g[p].wf(g.len()));
                                assert(g[p].children[j].1 < g.len());
                            } else if p == n && j < g[n].children.len() {
                                assert(g[n].wf(g.len()));
                                assert(g[n].children[j].1 < g.len());
                            }
                        }
                        assert(q == n) by {
                            if q != n && q < g.len() {
                                assert(after[q] == g[q]);
                                assert(g[q].wf(g.len()));
                                assert(g[q].children[k].1 < g.len());
                            } else if q == n && k < g[n].children.len() {
                                assert(g[n].wf(g.len()));
                                assert(g[n].children[k].1 < g.len());
                            }
                        }
                    } else {
                        assert(p < g.len() && j < g[p].children.len() && g[p].children[j] == ep) by {
                            if p == n {
                                assert(j < g[n].children.len());
                            } else {
                                assert(after[p] == g[p]);
                            }
                        }
                        assert(q < g.len() && k < g[q].children.len() && g[q].children[k] == eq) by {
                            if q == n {
                                assert(k < g[n].children.len());
                            } else {
                                assert(after[q] == g[q]);
                            }
                        }
                    }
                }
            }
        },
    }
}

/// What a walk leaves alone it leaves alone step after step.
pub proof fn lemma_grown_from_chain<K, V>(a: Graph<K, V>, b: Graph<K, V>, c: Graph<K, V>)
    requires
        grown_from(a, b),
        grown_from(b, c),
    ensures
        grown_from(a, c),
{
    assert forall|m: int, j: int| 0 <= m < c.len() && 0 <= j < c[m].children.len() implies {
        let edge = #[trigger] c[m].children[j];
        edge.1 >= a.len() || (m < a.len() && a[m].children.contains(edge))
    } by {
        let edge = c[m].children[j];
        if edge.1 < b.len() {
            assert(m < b.len() && b[m].children.contains(edge));
            let at = choose|at: int| 0 <= at < b[m].children.len() && b[m].children[at] == edge;
            assert(b[m].children[at].1 >= a.len() || (m < a.len() && a[m].children.contains(
                b[m].children[at],
            )));
        }
    }
}

/// A walk leaves alone what a walk leaves alone, keeps the tree a tree, and
/// passes, behind the root, new nodes and nodes that labelled edges led to
/// before.
pub proof fn lemma_walked_frame<K, V>(g: Graph<K, V>, tokens: Seq<NodeKey<K>>, k: int)
    requires
        graph_wf(g),
        0 <= k <= tokens.len(),
        walk_fits(g, tokens, k),
    ensures
        grown_from(g, walked(g, tokens, k).0),
        tree_shaped(g) ==> tree_shaped(walked(g, tokens, k).0),
        forall|j: int|
            1 <= j <= k ==> {
                let node = #[trigger] walked(g, tokens, k).1[j];
                node >= g.len() || exists|p: int, at: int|
                    0 <= p < g.len() && 0 <= at < g[p].children.len() && (
                    #[trigger] g[p].children[at]).1 == node
            },
    decreases k,
{
    if k == 0 {
        assert forall|m: int, j: int| 0 <= m < g.len() && 0 <= j < g[m].children.len() implies {
            let edge = #[trigger] g[m].children[j];
            edge.1 >= g.len() || (m < g.len() && g[m].children.contains(edge))
        } by {}
    } else {
        let (g1, trail) = walked(g, tokens, k - 1);
        lemma_walked(g, tokens, k - 1);
        lemma_walked_frame(g, tokens, k - 1);
        let n = trail.last() as int;
        assert(trail[k - 1] < g1.len());
        let (g2, child) = grown(g1, n, tokens[k - 1]);
        assert(walked(g, tokens, k).0 == g2);
        lemma_grown_frame(g1, n, tokens[k - 1]);
        lemma_grown_from_chain(g, g1, g2);
        let path = trail.push(child);
        assert forall|j: int| 1 <= j <= k implies {
            let node = #[trigger] path[j];
            node >= g.len() || exists|p: int, at: int|
                0 <= p < g.len() && 0 <= at < g[p].children.len() && (
                #[trigger] g[p].children[at]).1 == node
        } by {
            if j < k {
                assert(path[j] == trail[j]);
            } else if child < g.len() {
                assert(g1[n].children.contains((tokens[k - 1], child)));
                let at1 = choose|at1: int|
                    0 <= at1 < g1[n].children.len() && g1[n].children[at1] == (
                        tokens[k - 1],
                        child,
                    );
                let edge = g1[n].children[at1];
                assert(edge.1 >= g.len() || (n < g.len() && g[n].children.contains(edge)));
                let at = choose|at: int| 0 <= at < g[n].children.len() && g[n].children[at] == edge;
                assert(g[n].children[at].1 == child);
            }
        }
    }
}

/// What an insertion leaves alone: the labelled edges are those of its walk;
/// the values change at the last node of the key's path alone, which gets
/// the value; and each skip edge was there or lies over a group of the key.
pub proof fn lemma_inserted_frame<K, V>(g: Graph<K, V>, tokens: Seq<NodeKey<K>>, value: V)
    requires
        graph_wf(g),
        balanced(tokens),
        walk_fits(g, tokens, tokens.len() as int),
    ensures
        ({
            let (g1, path) = walked(g, tokens, tokens.len() as int);
            let after = inserted(g, tokens, value);
            let last = path.last() as int;
            &&& after.len() == g1.len()
            &&& forall|m: int| 0 <= m < after.len() ==> (#[trigger] after[m]).children == g1[m].children
            &&& forall|m: int|
                0 <= m < after.len() ==> (#[trigger] after[m]).values == if m == last {
                    including(g1[m].values, value)
                } else {
                    g1[m].values
                }
            &&& forall|s: int, j: int|
                0 <= s < after.len() && 0 <= j < after[s].skip_pars.len() ==> {
                    let e = #[trigger] after[s].skip_pars[j];
                    g1[s].skip_pars.contains(e) || exists|i: int|
                        0 <= i < tokens.len() && (#[trigger] tokens[i]) is LeftPar && path[i] == s
                            && path[i + span_of(tokens, i) + 1] == e
                }
        }),
{
    let len = tokens.len() as int;
    let (g1, path) = walked(g, tokens, len);
    lemma_walked(g, tokens, len);
    let last = path.last() as int;
    assert(path[len] < g1.len());
    let g2 = with_values(g1, last, including(g1[last].values, value));
    assert(g1[last].wf(g1.len()));
    assert forall|m: int| 0 <= m < g2.len() implies (#[trigger] g2[m]).wf(g2.len()) by {
        assert(g1[m].wf(g1.len()));
    }
    assert(lies_along(g2, tokens, path, len)) by {
        assert forall|j: int| 0 <= j < len implies g2[path[j] as int].child(#[trigger] tokens[j])
            == Some(path[j + 1]) by {
            assert(g2[path[j] as int].children == g1[path[j] as int].children);
        }
    }
    lemma_skips_frame(g2, tokens, path, len);
    lemma_with_skips(g2, tokens, path, len);
    let after = with_skips(g2, tokens, path, len);
    assert forall|s: int, j: int|
        0 <= s < after.len() && 0 <= j < after[s].skip_pars.len() implies {
        let e = #[trigger] after[s].skip_pars[j];
        g1[s].skip_pars.contains(e) || exists|i: int|
            0 <= i < tokens.len() && (#[trigger] tokens[i]) is LeftPar && path[i] == s && path[i
                + span_of(tokens, i) + 1] == e
    } by {
        let e = after[s].skip_pars[j];
        assert(g2[s].skip_pars == g1[s].skip_pars);
    }
}

/// Each skip edge behind the laying of the skip edges over the first `k`
/// tokens was there before or lies over a group that opens among them.
pub proof fn lemma_skips_frame<K, V>(
    g: Graph<K, V>,
    tokens: Seq<NodeKey<K>>,
    path: Seq<usize>,
    k: int,
)
    requires
        graph_wf(g),
        balanced(tokens),
        lies_along(g, tokens, path, tokens.len() as int),
        0 <= k <= tokens.len(),
    ensures
        forall|s: int, j: int|
            0 <= s < g.len() && 0 <= j < with_skips(g, tokens, path, k)[s].skip_pars.len() ==> {
                let e = #[trigger] with_skips(g, tokens, path, k)[s].skip_pars[j];
                g[s].skip_pars.contains(e) || exists|i: int|
                    0 <= i < k && (#[trigger] tokens[i]) is LeftPar && path[i] == s && path[i
                        + span_of(tokens, i) + 1] == e
            },
    decreases k,
{
    let gk = with_skips(g, tokens, path, k);
    if k == 0 {
        assert forall|s: int, j: int| 0 <= s < g.len() && 0 <= j < gk[s].skip_pars.len() implies {
            let e = #[trigger] gk[s].skip_pars[j];
            g[s].skip_pars.contains(e) || exists|i: int|
                0 <= i < k && (#[trigger] tokens[i]) is LeftPar && path[i] == s && path[i + span_of(
                    tokens,
                    i,
                ) + 1] == e
        } by {}
    } else {
        let g1 = with_skips(g, tokens, path, k - 1);
        lemma_skips_frame(g, tokens, path, k - 1);
        lemma_with_skips(g, tokens, path, k - 1);
        assert forall|s: int, j: int| 0 <= s < g.len() && 0 <= j < gk[s].skip_pars.len() implies {
            let e = #[trigger] gk[s].skip_pars[j];
            g[s].skip_pars.contains(e) || exists|i: int|
                0 <= i < k && (#[trigger] tokens[i]) is LeftPar && path[i] == s && path[i + span_of(
                    tokens,
                    i,
                ) + 1] == e
        } by {
            let e = gk[s].skip_pars[j];
            let from = path[k - 1] as int;
            if tokens[k - 1] is LeftPar && s == from && j >= g1[s].skip_pars.len() {
                assert(path[k - 1] == s);
                assert(e == path[k - 1 + span_of(tokens, k - 1) + 1]);
            } else {
                assert(j < g1[s].skip_pars.len() && g1[s].skip_pars[j] == e) by {
                    if tokens[k - 1] is LeftPar && s == from {
                    }
                }
                let e1 = g1[s].skip_pars[j];
                if !g[s].skip_pars.contains(e1) {
                    let i = choose|i: int|
                        0 <= i < k - 1 && (#[trigger] tokens[i]) is LeftPar && path[i] == s
                            && path[i + span_of(tokens, i) + 1] == e1;
                    assert(0 <= i < k);
                }
            }
        }
    }
}

/// Whether node `m` is one of the first `k + 1` nodes of the path.
pub open spec fn on_path(path: Seq<usize>, k: int, m: int) -> bool {
    exists|j: int| 0 <= j <= k && #[trigger] path[j] == m
}

/// A walk leaves the nodes alone that it does not pass.
pub proof fn lemma_walked_off_path<K, V>(g: Graph<K, V>, tokens: Seq<NodeKey<K>>, k: int, m: int)
    requires
        graph_wf(g),
        0 <= k <= tokens.len(),
        walk_fits(g, tokens, k),
        0 <= m < g.len(),
        !on_path(walked(g, tokens, k).1, k, m),
    ensures
        walked(g, tokens, k).0[m] == g[m],
    decreases k,
{
    if k > 0 {
        let (g1, trail) = walked(g, tokens, k - 1);
        let path = walked(g, tokens, k).1;
        lemma_walked(g, tokens, k - 1);
        assert(!on_path(trail, k - 1, m)) by {
            if on_path(trail, k - 1, m) {
                let j = choose|j: int| 0 <= j <= k - 1 && #[trigger] trail[j] == m;
                assert(path[j] == m);
            }
        }
        lemma_walked_off_path(g, tokens, k - 1, m);
        assert(path[k - 1] == trail[k - 1]);
        assert(trail.last() != m);
    }
}

/// An insertion leaves the nodes alone that its walk does not pass.
pub proof fn lemma_inserted_off_path<K, V>(
    g: Graph<K, V>,
    tokens: Seq<NodeKey<K>>,
    value: V,
    m: int,
)
    requires
        graph_wf(g),
        balanced(tokens),
        walk_fits(g, tokens, tokens.len() as int),
        0 <= m < g.len(),
        !on_path(walked(g, tokens, tokens.len() as int).1, tokens.len() as int, m),
    ensures
        inserted(g, tokens, value)[m] == g[m],
{
    let len = tokens.len() as int;
    let (g1, path) = walked(g, tokens, len);
    lemma_walked(g, tokens, len);
    lemma_walked_off_path(g, tokens, len, m);
    lemma_walked_frame(g, tokens, len);
    lemma_inserted_frame(g, tokens, value);
    let after = inserted(g, tokens, value);
    assert(path[len] != m);
    assert(after[m].skip_pars =~= g1[m].skip_pars) by {
        let last = path.last() as int;
        let g2 = with_values(g1, last, including(g1[last].values, value));
        assert(g1[last].wf(g1.len()));
        assert forall|x: int| 0 <= x < g2.len() implies (#[trigger] g2[x]).wf(g2.len()) by {
            assert(g1[x].wf(g1.len()));
        }
        assert(lies_along(g2, tokens, path, len)) by {
            assert forall|j: int|
                0 <= j < len implies g2[path[j] as int].child(#[trigger] tokens[j]) == Some(
                path[j + 1],
            ) by {
                assert(g2[path[j] as int].children == g1[path[j] as int].children);
            }
        }
        lemma_skips_off_path(g2, tokens, path, len, m);
    }
}

/// The laying of skip edges leaves the nodes alone before which no group
/// opens.
pub proof fn lemma_skips_off_path<K, V>(
    g: Graph<K, V>,
    tokens: Seq<NodeKey<K>>,
    path: Seq<usize>,
    k: int,
    m: int,
)
    requires
        graph_wf(g),
        balanced(tokens),
        lies_along(g, tokens, path, tokens.len() as int),
        0 <= k <= tokens.len(),
        0 <= m < g.len(),
        !on_path(path, tokens.len() as int, m),
    ensures
        with_skips(g, tokens, path, k)[m] == g[m],
    decreases k,
{
    if k > 0 {
        lemma_skips_off_path(g, tokens, path, k - 1, m);
        lemma_with_skips(g, tokens, path, k - 1);
        assert(path[k - 1] != m);
    }
}

} // verus!
