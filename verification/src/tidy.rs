//! Tries of keys without grouping markers: removal leaves no node behind.

use crate::graph::{
    advances, empty_graph, graph_wf, inserted, node_count, removed, removed_through, successors,
    unlinked, walked, without, Graph, Successor,
};
use crate::growth::{lemma_inserted_frame, lemma_walked_frame};
use crate::insertion::{lemma_inserted, lemma_walked, walk_fits};
use crate::key::{balanced, depth, NodeKey};
use crate::matching::{node_within, within};
use crate::pairs::{law_insert_stores_one_pair_more, lemma_inserted_faithful};
use crate::pairs_removed::{law_remove_takes_the_matching_pairs, lemma_removed_faithful};
use crate::laws::lemma_matches_itself;
use crate::removal::{lemma_removed, lemma_removed_through, lemma_unlinked, lemma_value_removed};
use crate::stored::{faithful, holds, leads, lemma_empty_faithful, tree_shaped};
use crate::undo::lemma_bare_root_counts_one;
use vstd::prelude::*;

verus! {

/// No token of the key is a grouping marker.
pub open spec fn plain<K>(tokens: Seq<NodeKey<K>>) -> bool {
    forall|j: int| 0 <= j < tokens.len() ==> !(#[trigger] tokens[j]).is_par()
}

/// A key without grouping markers is balanced.
pub proof fn lemma_plain_balanced<K>(tokens: Seq<NodeKey<K>>)
    requires
        plain(tokens),
    ensures
        balanced(tokens),
{
    assert forall|n: int| 0 <= n <= tokens.len() implies #[trigger] depth(tokens, n) == 0 by {
        lemma_plain_depth(tokens, n);
    }
}

proof fn lemma_plain_depth<K>(tokens: Seq<NodeKey<K>>, n: int)
    requires
        plain(tokens),
        0 <= n <= tokens.len(),
    ensures
        depth(tokens, n) == 0,
    decreases n,
{
    if n > 0 {
        lemma_plain_depth(tokens, n - 1);
        assert(!tokens[n - 1].is_par());
    }
}

/// No node has a skip edge.
pub open spec fn skipless<K, V>(g: Graph<K, V>) -> bool {
    forall|m: int| 0 <= m < g.len() ==> (#[trigger] g[m]).skip_pars.len() == 0
}

/// Whether a labelled edge leads to node `c`.
pub open spec fn attached<K, V>(g: Graph<K, V>, c: int) -> bool {
    exists|p: int, j: int|
        0 <= p < g.len() && 0 <= j < g[p].children.len() && (#[trigger] g[p].children[j]).1 == c
}

/// Behind node `x`, every node that a labelled edge leads to has something
/// in it.
pub open spec fn clean_behind<K, V>(g: Graph<K, V>, x: int) -> bool {
    forall|c: int| x < c < g.len() && #[trigger] attached(g, c) ==> !g[c].is_vacant()
}

/// A trie of keys without grouping markers in which every node that a
/// labelled edge leads to has something in it.
pub open spec fn tidy<K, V>(g: Graph<K, V>) -> bool {
    &&& faithful(g)
    &&& skipless(g)
    &&& clean_behind(g, 0)
}

/// The empty trie is tidy.
pub proof fn lemma_empty_tidy<K, V>()
    ensures
        tidy(empty_graph::<K, V>()),
{
    lemma_empty_faithful::<K, V>();
    let g = empty_graph::<K, V>();
    assert forall|c: int| 0 < c < g.len() && #[trigger] attached(g, c) implies !g[c].is_vacant() by {}
}

/// The insertion of a key without grouping markers keeps a trie tidy.
pub proof fn lemma_inserted_tidy<K, V>(g: Graph<K, V>, tokens: Seq<NodeKey<K>>, value: V)
    requires
        tidy(g),
        plain(tokens),
        walk_fits(g, tokens, tokens.len() as int),
    ensures
        tidy(inserted(g, tokens, value)),
{
    let len = tokens.len() as int;
    let (g1, path) = walked(g, tokens, len);
    let after = inserted(g, tokens, value);
    let last = path.last() as int;
    lemma_plain_balanced(tokens);
    lemma_inserted_faithful(g, tokens, value);
    lemma_inserted(g, tokens, value);
    lemma_walked(g, tokens, len);
    lemma_walked_frame(g, tokens, len);
    lemma_inserted_frame(g, tokens, value);
    assert forall|m: int| 0 <= m < after.len() implies (#[trigger] after[m]).skip_pars.len()
        == 0 by {
        if after[m].skip_pars.len() > 0 {
            let e = after[m].skip_pars[0];
            if g1[m].skip_pars.contains(e) {
                if m < g.len() {
                    assert(g[m].skip_pars.len() == 0);
                }
            } else {
                let i = choose|i: int|
                    0 <= i < tokens.len() && (#[trigger] tokens[i]) is LeftPar && path[i] == m
                        && path[i + crate::key::span_of(tokens, i) + 1] == e;
                assert(!tokens[i].is_par());
            }
        }
    }
    assert forall|c: int|
        0 < c < after.len() && #[trigger] attached(after, c) implies !after[c].is_vacant() by {
        let (p, j) = choose|p: int, j: int|
            0 <= p < after.len() && 0 <= j < after[p].children.len() && (
            #[trigger] after[p].children[j]).1 == c;
        if c < g.len() {
            let edge = g1[p].children[j];
            assert(after[p].children[j] == edge);
            assert(p < g.len() && g[p].children.contains(edge));
            let at = choose|at: int| 0 <= at < g[p].children.len() && g[p].children[at] == edge;
            assert(g[p].children[at].1 == c);
            assert(attached(g, c));
            assert(node_within(g[c], after[c]));
            if g[c].children.len() > 0 {
                assert(after[c].children.contains(g[c].children[0]));
            }
            if g[c].values.len() > 0 {
                assert(after[c].values.contains(g[c].values[0]));
            }
        } else {
            lemma_new_nodes_on_path(g, tokens, len, c);
            let x = choose|x: int| 1 <= x <= len && path[x] == c;
            if x < len {
                assert(after[path[x] as int].child(tokens[x]) == Some(path[x + 1]));
                assert(after[c].has_child(tokens[x]));
            } else {
                assert(after[last].values.contains(value));
            }
        }
    }
}

/// The nodes that a walk adds are nodes that it passes.
pub proof fn lemma_new_nodes_on_path<K, V>(g: Graph<K, V>, tokens: Seq<NodeKey<K>>, k: int, c: int)
    requires
        graph_wf(g),
        0 <= k <= tokens.len(),
        walk_fits(g, tokens, k),
        g.len() <= c < walked(g, tokens, k).0.len(),
    ensures
        exists|x: int| 1 <= x <= k && walked(g, tokens, k).1[x] == c,
    decreases k,
{
    if k > 0 {
        let (g1, trail) = walked(g, tokens, k - 1);
        let path = walked(g, tokens, k).1;
        lemma_walked(g, tokens, k - 1);
        assert(trail[k - 1] < g1.len());
        if c < g1.len() {
            lemma_new_nodes_on_path(g, tokens, k - 1, c);
            let x = choose|x: int| 1 <= x <= k - 1 && trail[x] == c;
            assert(path[x] == c);
        } else {
            assert(path[k] == c);
        }
    }
}

/// In a tree without skip edges, removal from a node leaves the nodes before
/// it as they are, and behind it no vacant node that a labelled edge leads
/// to.
pub proof fn lemma_removed_clean<K, V>(
    g: Graph<K, V>,
    n: int,
    query: Seq<NodeKey<K>>,
    i: int,
    value: V,
)
    requires
        graph_wf(g),
        g.len() <= usize::MAX,
        tree_shaped(g),
        skipless(g),
        clean_behind(g, n),
        0 <= n < g.len(),
        0 <= i <= query.len(),
    ensures
        clean_behind(removed(g, n, query, i, value).0, n),
        forall|m: int| 0 <= m < n ==> (#[trigger] removed(g, n, query, i, value).0[m]) == g[m],
    decreases query.len() - i, 1int, 0int,
{
    let after = removed(g, n, query, i, value).0;
    if i >= query.len() {
        lemma_value_removed(g, n, value);
        assert forall|c: int|
            n < c < after.len() && #[trigger] attached(after, c) implies !after[c].is_vacant() by {
            let (p, j) = choose|p: int, j: int|
                0 <= p < after.len() && 0 <= j < after[p].children.len() && (
                #[trigger] after[p].children[j]).1 == c;
            assert(g[p].children[j].1 == c);
            assert(attached(g, c));
        }
    } else {
        let steps = successors(g, n, query, i);
        lemma_removed_clean_through(g, n, query, i, steps.len() as int, value);
    }
}

/// A node that a labelled edge leads to in a graph is one that a labelled
/// edge leads to in every graph that the first lies within.
pub proof fn lemma_attached_within<K, V>(small: Graph<K, V>, big: Graph<K, V>, x: int)
    requires
        within(small, big),
        attached(small, x),
    ensures
        attached(big, x),
{
    let (p, j) = choose|p: int, j: int|
        0 <= p < small.len() && 0 <= j < small[p].children.len() && (
        #[trigger] small[p].children[j]).1 == x;
    assert(node_within(small[p], big[p]));
    assert(big[p].children.contains(small[p].children[j]));
    let at = choose|at: int|
        0 <= at < big[p].children.len() && big[p].children[at] == small[p].children[j];
    assert(big[p].children[at].1 == x);
}

/// In a tree, the labelled edges to a node that an edge of `n` leads to are
/// edges of `n`, in every graph within the tree.
pub proof fn lemma_only_parent<K, V>(g: Graph<K, V>, after: Graph<K, V>, n: int, c: int)
    requires
        graph_wf(g),
        tree_shaped(g),
        within(after, g),
        after.len() == g.len(),
        0 <= n < g.len(),
        g[n].has_child_node(c as usize),
        0 <= c < g.len() <= usize::MAX,
    ensures
        forall|p: int, j: int|
            0 <= p < after.len() && 0 <= j < after[p].children.len() && (
            #[trigger] after[p].children[j]).1 == c ==> p == n,
{
    assert forall|p: int, j: int|
        0 <= p < after.len() && 0 <= j < after[p].children.len() && (
        #[trigger] after[p].children[j]).1 == c implies p == n by {
        assert(node_within(after[p], g[p]));
        assert(g[p].children.contains(after[p].children[j]));
        let at = choose|at: int|
            0 <= at < g[p].children.len() && g[p].children[at] == after[p].children[j];
        let own = choose|own: int|
            0 <= own < g[n].children.len() && (#[trigger] g[n].children[own]).1 == c as usize;
        assert(g[p].children[at].1 == g[n].children[own].1);
    }
}

/// Without the edge from node `n` to a node, no labelled edge leads to the
/// node, where all the edges to it were edges of `n`.
pub proof fn lemma_unlinked_detaches<K, V>(g: Graph<K, V>, n: int, step: Successor)
    requires
        graph_wf(g),
        0 <= n < g.len(),
        !step.via_skip,
        forall|p: int, j: int|
            0 <= p < g.len() && 0 <= j < g[p].children.len() && (#[trigger] g[p].children[j]).1
                == step.node ==> p == n,
    ensures
        !attached(unlinked(g, n, step), step.node as int),
        forall|m: int| 0 <= m < g.len() && m != n ==> (#[trigger] unlinked(g, n, step)[m]) == g[m],
{
    let after = unlinked(g, n, step);
    assert(g[n].wf(g.len()));
    if attached(after, step.node as int) {
        let (p, j) = choose|p: int, j: int|
            0 <= p < after.len() && 0 <= j < after[p].children.len() && (
            #[trigger] after[p].children[j]).1 == step.node;
        lemma_unlinked(g, n, step);
        if p == n {
            if g[n].has_child_node(step.node) {
                let gone = g[n].child_node_index(step.node);
                let kept = g[n].children.remove(gone);
                assert(after[n].children == kept);
                let src = if j < gone { j } else { j + 1 };
                assert(kept[j] == g[n].children[src]);
                assert(g[n].children[src].1 != g[n].children[gone].1);
            } else {
                assert(after == g);
                assert(g[n].children[j].1 == step.node);
            }
        } else {
            assert(after[p] == g[p]);
            assert(g[p].children[j].1 == step.node);
        }
    }
}

/// The successors of a node without skip edges are children of the node.
pub proof fn lemma_steps_are_children<K, V>(
    g: Graph<K, V>,
    n: int,
    query: Seq<NodeKey<K>>,
    i: int,
    at: int,
)
    requires
        graph_wf(g),
        tree_shaped(g),
        skipless(g),
        0 <= n < g.len(),
        0 <= i < query.len(),
        0 <= at < successors(g, n, query, i).len(),
    ensures
        !successors(g, n, query, i)[at].via_skip,
        g[n].has_child_node(successors(g, n, query, i)[at].node),
        successors(g, n, query, i)[at].node > n,
{
    let step = successors(g, n, query, i)[at];
    crate::matching::lemma_successors_allowed(g, n, query, i, step);
    assert(g[n].wf(g.len()));
    assert(g[n].skip_pars.len() == 0);
    let node = g[n];
    if !step.via_skip {
        if query[i] is Wildcard {
            let j = choose|j: int|
                0 <= j < node.children.len() && (#[trigger] node.children[j]).1 == step.node
                    && !node.children[j].0.is_par();
            assert(n < g[n].children[j].1);
        } else {
            let label: NodeKey<K> = match query[i] {
                NodeKey::Exact(_) => if node.child(query[i]) == Some(step.node) {
                    query[i]
                } else {
                    NodeKey::Wildcard
                },
                NodeKey::RightPar => NodeKey::RightPar,
                NodeKey::LeftPar => if node.child(NodeKey::Wildcard) == Some(step.node) {
                    NodeKey::Wildcard
                } else {
                    NodeKey::LeftPar
                },
                NodeKey::Wildcard => NodeKey::Wildcard,
            };
            crate::matching::lemma_edge_of_child(node, label, step.node);
            let j = choose|j: int|
                0 <= j < node.children.len() && node.children[j] == (label, step.node);
            assert(node.children[j].1 == step.node);
            assert(n < g[n].children[j].1);
        }
    } else {
        let j = choose|j: int| 0 <= j < node.skip_pars.len() && node.skip_pars[j] == step.node;
    }
}

/// A node behind `n` other than `c` that a labelled edge leads to has
/// something in it, where this held behind `n` before the removal from `c`
/// and holds behind `c` after it.
pub proof fn lemma_clean_between<K, V>(g1: Graph<K, V>, g2: Graph<K, V>, n: int, c: int, x: int)
    requires
        within(g2, g1),
        g2.len() == g1.len(),
        clean_behind(g1, n),
        clean_behind(g2, c),
        forall|m: int| 0 <= m < c ==> (#[trigger] g2[m]) == g1[m],
        n < x < g1.len(),
        n < c,
        x != c,
        attached(g2, x),
    ensures
        !g2[x].is_vacant(),
{
    if x < c {
        lemma_attached_within(g2, g1, x);
        assert(g2[x] == g1[x]);
    }
}

/// One more successor: where removal through the successors before it left
/// the trie clean behind node `n`, removal through this one leaves it clean.
pub proof fn lemma_removed_clean_step<K, V>(
    g: Graph<K, V>,
    g1: Graph<K, V>,
    g2: Graph<K, V>,
    r2: bool,
    n: int,
    step: Successor,
)
    requires
        graph_wf(g),
        tree_shaped(g),
        g.len() <= usize::MAX,
        within(g1, g),
        g1.len() == g.len(),
        clean_behind(g1, n),
        0 <= n < step.node < g.len(),
        !step.via_skip,
        g[n].has_child_node(step.node),
        graph_wf(g2),
        within(g2, g1),
        g2.len() == g1.len(),
        !r2 ==> g2 == g1,
        clean_behind(g2, step.node as int),
        forall|m: int| 0 <= m < step.node ==> (#[trigger] g2[m]) == g1[m],
    ensures
        ({
            let after = if r2 && g2[step.node as int].is_vacant() {
                unlinked(g2, n, step)
            } else {
                g2
            };
            &&& clean_behind(after, n)
            &&& forall|m: int| 0 <= m < n ==> (#[trigger] after[m]) == g1[m]
        }),
{
    let c = step.node as int;
    let after = if r2 && g2[c].is_vacant() {
        unlinked(g2, n, step)
    } else {
        g2
    };
    crate::matching::lemma_within_chain(g2, g1, g);
    if r2 && g2[c].is_vacant() {
        lemma_unlinked(g2, n, step);
        lemma_only_parent(g, g2, n, c);
        lemma_unlinked_detaches(g2, n, step);
        assert forall|x: int|
            n < x < after.len() && #[trigger] attached(after, x) implies !after[x].is_vacant() by {
            lemma_attached_within(after, g2, x);
            assert(x != c);
            assert(after[x] == g2[x]);
            lemma_clean_between(g1, g2, n, c, x);
        }
    } else {
        assert forall|x: int|
            n < x < after.len() && #[trigger] attached(after, x) implies !after[x].is_vacant() by {
            if x == c {
                lemma_attached_within(g2, g1, x);
            } else {
                lemma_clean_between(g1, g2, n, c, x);
            }
        }
    }
}

/// The same of removal through the first `k` successors of a node.
pub proof fn lemma_removed_clean_through<K, V>(
    g: Graph<K, V>,
    n: int,
    query: Seq<NodeKey<K>>,
    i: int,
    k: int,
    value: V,
)
    requires
        graph_wf(g),
        g.len() <= usize::MAX,
        tree_shaped(g),
        skipless(g),
        clean_behind(g, n),
        0 <= n < g.len(),
        0 <= i < query.len(),
        0 <= k <= successors(g, n, query, i).len(),
    ensures
        ({
            let after = removed_through(g, n, successors(g, n, query, i), query, i, k, value).0;
            &&& clean_behind(after, n)
            &&& forall|m: int| 0 <= m < n ==> (#[trigger] after[m]) == g[m]
        }),
    decreases query.len() - i, 0int, k,
{
    let steps = successors(g, n, query, i);
    if k > 0 {
        let (g1, r1) = removed_through(g, n, steps, query, i, k - 1, value);
        lemma_removed_through(g, n, query, i, k - 1, value);
        lemma_removed_clean_through(g, n, query, i, k - 1, value);
        let step = steps[k - 1];
        if advances(g1, query, i, step) {
            let c = step.node as int;
            lemma_steps_are_children(g, n, query, i, k - 1);
            lemma_shrunk_tree(g, g1);
            lemma_removed(g1, c, query, step.pos as int, value);
            assert(clean_behind(g1, c));
            lemma_removed_clean(g1, c, query, step.pos as int, value);
            let (g2, r2) = removed(g1, c, query, step.pos as int, value);
            lemma_removed_clean_step(g, g1, g2, r2, n, step);
        }
    }
}

/// A graph within a tree without skip edges is a tree without skip edges.
pub proof fn lemma_shrunk_tree<K, V>(g: Graph<K, V>, after: Graph<K, V>)
    requires
        tree_shaped(g),
        skipless(g),
        within(after, g),
        after.len() == g.len(),
    ensures
        tree_shaped(after),
        skipless(after),
{
    assert forall|p: int, j: int|
        0 <= p < after.len() && 0 <= j < after[p].children.len() implies p < (
    #[trigger] after[p].children[j]).1 by {
        assert(node_within(after[p], g[p]));
        assert(g[p].children.contains(after[p].children[j]));
        let at = choose|at: int|
            0 <= at < g[p].children.len() && g[p].children[at] == after[p].children[j];
        assert(p < g[p].children[at].1);
    }
    assert forall|p: int, j: int, q: int, k: int|
        0 <= p < after.len() && 0 <= j < after[p].children.len() && 0 <= q < after.len() && 0 <= k
            < after[q].children.len() && (#[trigger] after[p].children[j]).1 == (
        #[trigger] after[q].children[k]).1 implies p == q by {
        assert(node_within(after[p], g[p]));
        assert(node_within(after[q], g[q]));
        assert(g[p].children.contains(after[p].children[j]));
        assert(g[q].children.contains(after[q].children[k]));
        let a = choose|a: int|
            0 <= a < g[p].children.len() && g[p].children[a] == after[p].children[j];
        let b = choose|b: int|
            0 <= b < g[q].children.len() && g[q].children[b] == after[q].children[k];
        assert(g[p].children[a].1 == g[q].children[b].1);
    }
    assert forall|m: int| 0 <= m < after.len() implies (#[trigger] after[m]).skip_pars.len()
        == 0 by {
        assert(node_within(after[m], g[m]));
        if after[m].skip_pars.len() > 0 {
            assert(g[m].skip_pars.contains(after[m].skip_pars[0]));
        }
    }
}

/// Removal keeps a trie tidy.
pub proof fn lemma_removed_tidy<K, V>(g: Graph<K, V>, query: Seq<NodeKey<K>>, value: V)
    requires
        tidy(g),
        balanced(query),
        query.len() <= usize::MAX,
    ensures
        tidy(removed(g, 0, query, 0, value).0),
{
    let after = removed(g, 0, query, 0, value).0;
    lemma_removed_faithful(g, query, value);
    lemma_removed(g, 0, query, 0, value);
    lemma_removed_clean(g, 0, query, 0, value);
    lemma_shrunk_tree(g, after);
}

/// A tidy trie that stores nothing has its root alone.
pub proof fn lemma_tidy_and_empty<K, V>(g: Graph<K, V>)
    requires
        tidy(g),
        forall|tokens: Seq<NodeKey<K>>, value: V| !holds(g, tokens, value),
    ensures
        node_count(g) == 1,
{
    if g[0].children.len() > 0 {
        let c = g[0].children[0].1 as int;
        assert(g[0].wf(g.len()));
        assert(attached(g, c));
        lemma_no_node_attached(g, c);
    }
    lemma_bare_root_counts_one(g);
}

/// In a tidy trie that stores nothing, no labelled edge leads anywhere.
proof fn lemma_no_node_attached<K, V>(g: Graph<K, V>, c: int)
    requires
        tidy(g),
        forall|tokens: Seq<NodeKey<K>>, value: V| !holds(g, tokens, value),
        0 <= c < g.len(),
    ensures
        !attached(g, c),
    decreases g.len() - c,
{
    if attached(g, c) {
        let (p, j) = choose|p: int, j: int|
            0 <= p < g.len() && 0 <= j < g[p].children.len() && (#[trigger] g[p].children[j]).1
                == c;
        assert(p < g[p].children[j].1);
        assert(!g[c].is_vacant());
        assert(g[c].skip_pars.len() == 0);
        if g[c].values.len() > 0 {
            let a = choose|a: Seq<NodeKey<K>>| #[trigger] balanced(a) && leads(g, a) == Some(c);
            assert(g[c].values.contains(g[c].values[0]));
            assert(holds(g, a, g[c].values[0]));
        } else {
            let next = g[c].children[0].1 as int;
            assert(g[c].wf(g.len()));
            assert(c < g[c].children[0].1);
            assert(attached(g, next));
            lemma_no_node_attached(g, next);
        }
    }
}

/// The trie after the first `k` of `pairs` are inserted, one after the
/// other.
pub open spec fn inserted_all<K, V>(g: Graph<K, V>, pairs: Seq<(Seq<NodeKey<K>>, V)>, k: int) -> Graph<
    K,
    V,
>
    decreases k,
{
    if k <= 0 {
        g
    } else {
        inserted(inserted_all(g, pairs, k - 1), pairs[k - 1].0, pairs[k - 1].1)
    }
}

/// The trie after the first `k` of `pairs` are removed, one after the other.
pub open spec fn removed_all<K, V>(g: Graph<K, V>, pairs: Seq<(Seq<NodeKey<K>>, V)>, k: int) -> Graph<
    K,
    V,
>
    decreases k,
{
    if k <= 0 {
        g
    } else {
        removed(removed_all(g, pairs, k - 1), 0, pairs[k - 1].0, 0, pairs[k - 1].1).0
    }
}

/// The trie fits the machine while the first `k` of `pairs` are inserted.
pub open spec fn all_fit<K, V>(g: Graph<K, V>, pairs: Seq<(Seq<NodeKey<K>>, V)>, k: int) -> bool {
    forall|j: int|
        0 <= j < k ==> walk_fits(
            #[trigger] inserted_all(g, pairs, j),
            pairs[j].0,
            pairs[j].0.len() as int,
        )
}

/// Insertions of keys without grouping markers keep a trie tidy; it stores
/// what it stored and the inserted pairs.
pub proof fn lemma_inserted_all<K, V>(g: Graph<K, V>, pairs: Seq<(Seq<NodeKey<K>>, V)>, k: int)
    requires
        tidy(g),
        0 <= k <= pairs.len(),
        forall|j: int| 0 <= j < pairs.len() ==> plain((#[trigger] pairs[j]).0),
        all_fit(g, pairs, k),
    ensures
        tidy(inserted_all(g, pairs, k)),
        forall|tokens: Seq<NodeKey<K>>, value: V| #[trigger]
            holds(inserted_all(g, pairs, k), tokens, value) <==> holds(g, tokens, value) || exists|
                j: int,
            |
                0 <= j < k && #[trigger] pairs[j] == (tokens, value),
    decreases k,
{
    if k > 0 {
        let before = inserted_all(g, pairs, k - 1);
        let (key, v) = pairs[k - 1];
        lemma_inserted_all(g, pairs, k - 1);
        assert(plain(pairs[k - 1].0));
        lemma_plain_balanced(key);
        assert(walk_fits(inserted_all(g, pairs, k - 1), pairs[k - 1].0, pairs[k - 1].0.len() as int));
        lemma_inserted_tidy(before, key, v);
        let after = inserted_all(g, pairs, k);
        assert forall|tokens: Seq<NodeKey<K>>, value: V| #[trigger]
            holds(after, tokens, value) <==> holds(g, tokens, value) || exists|j: int|
                0 <= j < k && #[trigger] pairs[j] == (tokens, value) by {
            law_insert_stores_one_pair_more(before, key, v, tokens, value);
            if holds(before, tokens, value) && !holds(g, tokens, value) {
                let j = choose|j: int| 0 <= j < k - 1 && #[trigger] pairs[j] == (tokens, value);
                assert(0 <= j < k);
            }
            if tokens == key && value == v {
                assert(pairs[k - 1] == (tokens, value));
            }
            if exists|j: int| 0 <= j < k && #[trigger] pairs[j] == (tokens, value) {
                let j = choose|j: int| 0 <= j < k && #[trigger] pairs[j] == (tokens, value);
                if j < k - 1 {
                    assert(holds(before, tokens, value));
                }
            }
        }
    }
}

/// Removals keep a trie tidy; it stores no pair that it did not store, and
/// none of the removed pairs.
pub proof fn lemma_removed_all<K, V>(g: Graph<K, V>, pairs: Seq<(Seq<NodeKey<K>>, V)>, k: int)
    requires
        tidy(g),
        0 <= k <= pairs.len(),
        forall|j: int|
            0 <= j < pairs.len() ==> balanced((#[trigger] pairs[j]).0) && pairs[j].0.len()
                <= usize::MAX,
    ensures
        tidy(removed_all(g, pairs, k)),
        forall|tokens: Seq<NodeKey<K>>, value: V| #[trigger]
            holds(removed_all(g, pairs, k), tokens, value) ==> holds(g, tokens, value) && forall|
                j: int,
            |
                0 <= j < k ==> #[trigger] pairs[j] != (tokens, value),
    decreases k,
{
    if k > 0 {
        let before = removed_all(g, pairs, k - 1);
        let (key, v) = pairs[k - 1];
        lemma_removed_all(g, pairs, k - 1);
        assert(balanced(pairs[k - 1].0));
        lemma_removed_tidy(before, key, v);
        let after = removed_all(g, pairs, k);
        assert forall|tokens: Seq<NodeKey<K>>, value: V| #[trigger]
            holds(after, tokens, value) implies holds(g, tokens, value) && forall|j: int|
            0 <= j < k ==> #[trigger] pairs[j] != (tokens, value) by {
            law_remove_takes_the_matching_pairs(before, key, v, tokens, value);
            assert(holds(before, tokens, value));
            if tokens == key && value == v {
                lemma_matches_itself(key, 0);
            }
        }
    }
}

/// Removal undoes insertion: after pairs with keys without grouping markers
/// are inserted into the empty trie, and each of them is removed, in any
/// order and however often, the trie holds on to its root alone.
pub proof fn law_removals_undo_insertions<K, V>(
    inserts: Seq<(Seq<NodeKey<K>>, V)>,
    removals: Seq<(Seq<NodeKey<K>>, V)>,
)
    requires
        forall|j: int| 0 <= j < inserts.len() ==> plain((#[trigger] inserts[j]).0),
        all_fit(empty_graph::<K, V>(), inserts, inserts.len() as int),
        forall|j: int|
            0 <= j < removals.len() ==> balanced((#[trigger] removals[j]).0) && removals[j].0.len()
                <= usize::MAX,
        forall|j: int| 0 <= j < inserts.len() ==> removals.contains(#[trigger] inserts[j]),
    ensures
        node_count(
            removed_all(
                inserted_all(empty_graph::<K, V>(), inserts, inserts.len() as int),
                removals,
                removals.len() as int,
            ),
        ) == 1,
{
    let empty = empty_graph::<K, V>();
    let full = inserted_all(empty, inserts, inserts.len() as int);
    let after = removed_all(full, removals, removals.len() as int);
    lemma_empty_tidy::<K, V>();
    lemma_empty_faithful::<K, V>();
    lemma_inserted_all(empty, inserts, inserts.len() as int);
    lemma_removed_all(full, removals, removals.len() as int);
    assert forall|tokens: Seq<NodeKey<K>>, value: V| !holds(after, tokens, value) by {
        if holds(after, tokens, value) {
            assert(holds(full, tokens, value));
            let j = choose|j: int| 0 <= j < inserts.len() && #[trigger] inserts[j] == (tokens, value);
            assert(removals.contains(inserts[j]));
            let at = choose|at: int| 0 <= at < removals.len() && removals[at] == (tokens, value);
            assert(removals[at] != (tokens, value));
        }
    }
    lemma_tidy_and_empty(after);
}

} // verus!
