//! How often lookup yields a value: once for each stored key that the query
//! matches.

use crate::graph::{advances, graph_wf, matched, matched_through, successors, Graph, Successor};
use crate::key::{balanced, closes, lemma_closes_once, NodeKey};
use crate::matching::{lemma_child_of_edge, lemma_edge_of_child, lemma_successors_allowed};
use crate::reach::{
    lemma_allowed_is_edge, lemma_reaches_inside, lemma_reaches_some_step, lemma_step_reaches,
    lemma_vacant_ends, next_pos, reaches, reaches_through,
};
use crate::pairs_removed::lemma_match_reaches;
use crate::reach::query_matches;
use crate::stored::{
    detached, faithful, follow, holds, is_group, leads, lemma_closes_extends,
    lemma_follow_concat, lemma_follow_inside, lemma_follow_prefix, lemma_holds_stores,
    lemma_last_edge, lemma_one_address, lemma_path_of, lemma_trace, path_of, skips_sound,
    spans_group, tree_shaped,
};
use vstd::prelude::*;

verus! {

/// The nodes at which lookup arrives at the end of the query, from node `n`
/// for the rest of the query from position `i`, in the order in which it
/// arrives at them.
pub open spec fn visits<K, V>(g: Graph<K, V>, n: int, tokens: Seq<NodeKey<K>>, i: int) -> Seq<int>
    decreases tokens.len() - i, 1int, 0int,
{
    if !(0 <= n < g.len()) || i < 0 {
        Seq::empty()
    } else if i >= tokens.len() {
        seq![n]
    } else {
        let steps = successors(g, n, tokens, i);
        visits_through(g, steps, tokens, i, steps.len() as int)
    }
}

/// The nodes at which lookup arrives through the first `k` of `steps`.
pub open spec fn visits_through<K, V>(
    g: Graph<K, V>,
    steps: Seq<Successor>,
    tokens: Seq<NodeKey<K>>,
    i: int,
    k: int,
) -> Seq<int>
    decreases tokens.len() - i, 0int, k,
{
    if k <= 0 || k > steps.len() {
        Seq::empty()
    } else {
        let before = visits_through(g, steps, tokens, i, k - 1);
        let step = steps[k - 1];
        if advances(g, tokens, i, step) {
            before + visits(g, step.node as int, tokens, step.pos as int)
        } else {
            before
        }
    }
}

/// The values of the first `k` of `nodes`, one node after the other.
pub open spec fn values_at_all<K, V>(g: Graph<K, V>, nodes: Seq<int>, k: int) -> Seq<V>
    decreases k,
{
    if k <= 0 || k > nodes.len() {
        Seq::empty()
    } else {
        values_at_all(g, nodes, k - 1) + g[nodes[k - 1]].values
    }
}

/// The values of nodes listed one after the other are the values of the
/// first list and then those of the second.
pub proof fn lemma_values_at_concat<K, V>(g: Graph<K, V>, a: Seq<int>, b: Seq<int>, k: int)
    requires
        0 <= k <= b.len(),
    ensures
        values_at_all(g, a + b, a.len() + k) == values_at_all(g, a, a.len() as int)
            + values_at_all(g, b, k),
    decreases k,
{
    if k == 0 {
        lemma_values_at_prefix(g, a + b, a, a.len() as int);
        assert(values_at_all(g, a, a.len() as int) + Seq::<V>::empty() =~= values_at_all(
            g,
            a,
            a.len() as int,
        ));
    } else {
        lemma_values_at_concat(g, a, b, k - 1);
        assert((a + b)[a.len() + k - 1] == b[k - 1]);
        assert(values_at_all(g, a + b, a.len() + k) =~= values_at_all(g, a, a.len() as int)
            + values_at_all(g, b, k));
    }
}

/// The values of the first `k` nodes do not depend on the nodes behind them.
pub proof fn lemma_values_at_prefix<K, V>(g: Graph<K, V>, a: Seq<int>, b: Seq<int>, k: int)
    requires
        0 <= k <= a.len(),
        k <= b.len(),
        forall|j: int| 0 <= j < k ==> a[j] == b[j],
    ensures
        values_at_all(g, a, k) == values_at_all(g, b, k),
    decreases k,
{
    if k > 0 {
        lemma_values_at_prefix(g, a, b, k - 1);
    }
}

/// What lookup yields are the values of the nodes at which it arrives.
pub proof fn lemma_matched_at_visits<K, V>(g: Graph<K, V>, n: int, tokens: Seq<NodeKey<K>>, i: int)
    ensures
        matched(g, n, tokens, i) == values_at_all(
            g,
            visits(g, n, tokens, i),
            visits(g, n, tokens, i).len() as int,
        ),
    decreases tokens.len() - i, 1int, 0int,
{
    if 0 <= n < g.len() && 0 <= i {
        if i >= tokens.len() {
            reveal_with_fuel(values_at_all, 2);
            assert(values_at_all(g, seq![n], 1) =~= g[n].values);
        } else {
            let steps = successors(g, n, tokens, i);
            lemma_matched_through_at_visits(g, steps, tokens, i, steps.len() as int);
        }
    }
}

/// The same through the first `k` successors.
pub proof fn lemma_matched_through_at_visits<K, V>(
    g: Graph<K, V>,
    steps: Seq<Successor>,
    tokens: Seq<NodeKey<K>>,
    i: int,
    k: int,
)
    requires
        0 <= k <= steps.len(),
    ensures
        matched_through(g, steps, tokens, i, k) == values_at_all(
            g,
            visits_through(g, steps, tokens, i, k),
            visits_through(g, steps, tokens, i, k).len() as int,
        ),
    decreases tokens.len() - i, 0int, k,
{
    if k > 0 {
        lemma_matched_through_at_visits(g, steps, tokens, i, k - 1);
        let step = steps[k - 1];
        if advances(g, tokens, i, step) {
            lemma_matched_at_visits(g, step.node as int, tokens, step.pos as int);
            let before = visits_through(g, steps, tokens, i, k - 1);
            let here = visits(g, step.node as int, tokens, step.pos as int);
            lemma_values_at_concat(g, before, here, here.len() as int);
        }
    }
}

/// The nodes at which lookup arrives are the nodes that the query leads to.
pub proof fn lemma_visits_reaches<K, V>(
    g: Graph<K, V>,
    n: int,
    tokens: Seq<NodeKey<K>>,
    i: int,
    m: int,
)
    requires
        graph_wf(g),
        balanced(tokens),
        tokens.len() <= usize::MAX,
    ensures
        visits(g, n, tokens, i).contains(m) <==> reaches(g, n, tokens, i, m),
    decreases tokens.len() - i, 1int, 0int,
{
    if 0 <= n < g.len() && 0 <= i {
        if i >= tokens.len() {
            if m == n {
                assert(seq![n][0] == m);
            }
        } else {
            let steps = successors(g, n, tokens, i);
            lemma_visits_through_reaches(g, n, tokens, i, steps.len() as int, m);
            if reaches(g, n, tokens, i, m) {
                let at = lemma_reaches_some_step(g, n, tokens, i, m);
            }
            if visits(g, n, tokens, i).contains(m) {
                let at = choose|at: int|
                    0 <= at < steps.len() && #[trigger] reaches_through(g, tokens, i, steps[at], m);
                lemma_step_reaches(g, n, tokens, i, at, m);
            }
        }
    }
}

/// The same through the first `k` successors of node `n`.
pub proof fn lemma_visits_through_reaches<K, V>(
    g: Graph<K, V>,
    n: int,
    tokens: Seq<NodeKey<K>>,
    i: int,
    k: int,
    m: int,
)
    requires
        graph_wf(g),
        balanced(tokens),
        tokens.len() <= usize::MAX,
        0 <= n < g.len(),
        0 <= i < tokens.len(),
        0 <= k <= successors(g, n, tokens, i).len(),
    ensures
        visits_through(g, successors(g, n, tokens, i), tokens, i, k).contains(m) <==> exists|
            at: int,
        |
            0 <= at < k && #[trigger] reaches_through(
                g,
                tokens,
                i,
                successors(g, n, tokens, i)[at],
                m,
            ),
    decreases tokens.len() - i, 0int, k,
{
    let steps = successors(g, n, tokens, i);
    if k > 0 {
        lemma_visits_through_reaches(g, n, tokens, i, k - 1, m);
        let step = steps[k - 1];
        let before = visits_through(g, steps, tokens, i, k - 1);
        if advances(g, tokens, i, step) {
            let here = visits(g, step.node as int, tokens, step.pos as int);
            lemma_visits_reaches(g, step.node as int, tokens, step.pos as int, m);
            crate::matching::lemma_concat_contains(before, here, m);
            if here.contains(m) {
                assert(reaches_through(g, tokens, i, steps[k - 1], m));
            }
        }
        if exists|at: int| 0 <= at < k && #[trigger] reaches_through(g, tokens, i, steps[at], m) {
            let at = choose|at: int|
                0 <= at < k && #[trigger] reaches_through(g, tokens, i, steps[at], m);
            if at < k - 1 {
                assert(before.contains(m));
            }
        }
        if visits_through(g, steps, tokens, i, k).contains(m) && !(advances(g, tokens, i, step)
            && visits(g, step.node as int, tokens, step.pos as int).contains(m)) {
            let at = choose|at: int|
                0 <= at < k - 1 && #[trigger] reaches_through(g, tokens, i, steps[at], m);
            assert(0 <= at < k);
        }
    }
}

/// In a tree, tokens lead from a node to no node before it.
pub proof fn lemma_follow_ahead<K, V>(g: Graph<K, V>, n: int, tokens: Seq<NodeKey<K>>, k: int)
    requires
        tree_shaped(g),
        0 <= k <= tokens.len(),
        follow(g, n, tokens, k) is Some,
    ensures
        follow(g, n, tokens, k)->0 >= n + k,
    decreases k,
{
    if k > 0 {
        lemma_follow_inside(g, n, tokens, k, k - 1);
        lemma_follow_ahead(g, n, tokens, k - 1);
        let shorter = tokens.take(k);
        lemma_follow_prefix(g, n, tokens, shorter, k);
        lemma_follow_prefix(g, n, tokens, shorter, k - 1);
        lemma_last_edge(g, n, shorter);
    }
}

/// In a tree no two token sequences lead from a node to the same node.
pub proof fn lemma_one_way<K, V>(g: Graph<K, V>, n: int, a: Seq<NodeKey<K>>, b: Seq<NodeKey<K>>)
    requires
        graph_wf(g),
        tree_shaped(g),
        follow(g, n, a, a.len() as int) is Some,
        follow(g, n, a, a.len() as int) == follow(g, n, b, b.len() as int),
    ensures
        a == b,
    decreases a.len(),
{
    let m = follow(g, n, a, a.len() as int)->0;
    lemma_follow_ahead(g, n, a, a.len() as int);
    lemma_follow_ahead(g, n, b, b.len() as int);
    if a.len() == 0 || b.len() == 0 {
        lemma_follow_inside(g, n, a, a.len() as int, 0);
        assert(a.len() == 0 && b.len() == 0);
        assert(a =~= b);
    } else {
        lemma_last_edge(g, n, a);
        lemma_last_edge(g, n, b);
        let pa = follow(g, n, a, a.len() - 1)->0;
        let pb = follow(g, n, b, b.len() - 1)->0;
        let ja = choose|j: int|
            0 <= j < g[pa].children.len() && g[pa].children[j] == (a.last(), m as usize);
        let jb = choose|j: int|
            0 <= j < g[pb].children.len() && g[pb].children[j] == (b.last(), m as usize);
        assert(g[pa].children[ja].1 == g[pb].children[jb].1);
        assert(pa == pb);
        assert(g[pa].wf(g.len()));
        assert(ja == jb);
        let a0 = a.drop_last();
        let b0 = b.drop_last();
        lemma_follow_prefix(g, n, a, a0, a0.len() as int);
        lemma_follow_prefix(g, n, b, b0, b0.len() as int);
        lemma_one_way(g, n, a0, b0);
        assert(a =~= a0.push(a.last()));
        assert(b =~= b0.push(b.last()));
    }
}

/// How the tokens that lead to a node begin, where a query goes on towards
/// the node through `step`: with the label of the edge to the step's node, or
/// with the group that the step's skip edge lies over.
pub open spec fn begins_through<K, V>(
    g: Graph<K, V>,
    n: int,
    step: Successor,
    tokens: Seq<NodeKey<K>>,
) -> bool {
    if step.via_skip {
        exists|t: int|
            1 <= t < tokens.len() && #[trigger] closes(tokens, 0, t) && follow(
                g,
                n,
                tokens,
                t + 1,
            ) == Some(step.node as int)
    } else {
        tokens.len() >= 1 && g[n].child(tokens[0]) == Some(step.node)
    }
}

/// The tokens of the edges that lead a query through a successor of node `n`
/// to a node with something in it.
pub proof fn lemma_trace_through<K, V>(
    g: Graph<K, V>,
    n: int,
    query: Seq<NodeKey<K>>,
    i: int,
    at: int,
    m: int,
) -> (s: Seq<NodeKey<K>>)
    requires
        graph_wf(g),
        skips_sound(g),
        balanced(query),
        query.len() <= usize::MAX,
        0 <= n < g.len(),
        0 <= i < query.len(),
        0 <= at < successors(g, n, query, i).len(),
        reaches_through(g, query, i, successors(g, n, query, i)[at], m),
        !g[m].is_vacant(),
    ensures
        follow(g, n, s, s.len() as int) == Some(m),
        begins_through(g, n, successors(g, n, query, i)[at], s),
{
    let step = successors(g, n, query, i)[at];
    lemma_successors_allowed(g, n, query, i, step);
    lemma_allowed_is_edge(g, n, query, i, step);
    assert(g[n].wf(g.len()));
    let rest = lemma_trace(g, step.node as int, query, step.pos as int, m);
    if step.via_skip {
        let e = step.node as int;
        let j = choose|j: int| 0 <= j < g[n].skip_pars.len() && g[n].skip_pars[j] == step.node;
        assert(detached(g, g[n].skip_pars[j] as int) || spans_group(g, n, g[n].skip_pars[j] as int));
        if detached(g, e) {
            lemma_vacant_ends(g, e, query, step.pos as int, m);
        }
        let group = choose|group: Seq<NodeKey<K>>| #[trigger]
            is_group(group) && follow(g, n, group, group.len() as int) == Some(e);
        lemma_follow_concat(g, n, group, rest, rest.len() as int);
        lemma_follow_concat(g, n, group, rest, 0);
        lemma_closes_extends(group, rest, 0, group.len() - 1);
        let whole = group + rest;
        lemma_follow_inside(g, e, rest, rest.len() as int, 0);
        assert(closes(whole, 0, group.len() - 1) && follow(g, n, whole, group.len() - 1 + 1)
            == Some(e));
        whole
    } else {
        let j = choose|j: int|
            0 <= j < g[n].children.len() && (#[trigger] g[n].children[j]).1 == step.node
                && next_pos(query, i, g[n].children[j].0) == Some(step.pos as int);
        let first = seq![g[n].children[j].0];
        lemma_child_of_edge(g[n], g.len(), j);
        assert(follow(g, n, first, 1) == Some(step.node as int)) by {
            reveal_with_fuel(follow, 2);
        }
        lemma_follow_concat(g, n, first, rest, rest.len() as int);
        assert((first + rest)[0] == g[n].children[j].0);
        first + rest
    }
}

/// Two successors of a node do not lead to the same node with something in
/// it.
pub proof fn lemma_steps_part<K, V>(
    g: Graph<K, V>,
    n: int,
    query: Seq<NodeKey<K>>,
    i: int,
    a: int,
    b: int,
    m: int,
)
    requires
        graph_wf(g),
        tree_shaped(g),
        skips_sound(g),
        balanced(query),
        query.len() <= usize::MAX,
        0 <= n < g.len(),
        0 <= i < query.len(),
        0 <= a < b < successors(g, n, query, i).len(),
        reaches_through(g, query, i, successors(g, n, query, i)[a], m),
        reaches_through(g, query, i, successors(g, n, query, i)[b], m),
    ensures
        g[m].is_vacant(),
{
    if !g[m].is_vacant() {
        let steps = successors(g, n, query, i);
        let s = lemma_trace_through(g, n, query, i, a, m);
        let t = lemma_trace_through(g, n, query, i, b, m);
        lemma_one_way(g, n, s, t);
        lemma_successors_differ(g, n, query, i, a, b);
        if steps[a].via_skip && steps[b].via_skip {
            let x = choose|x: int|
                1 <= x < s.len() && #[trigger] closes(s, 0, x) && follow(g, n, s, x + 1) == Some(
                    steps[a].node as int,
                );
            let y = choose|y: int|
                1 <= y < s.len() && #[trigger] closes(s, 0, y) && follow(g, n, s, y + 1) == Some(
                    steps[b].node as int,
                );
            lemma_closes_once(s, 0, x, y);
        } else if steps[a].via_skip || steps[b].via_skip {
            let skip = if steps[a].via_skip { steps[a] } else { steps[b] };
            let plain = if steps[a].via_skip { steps[b] } else { steps[a] };
            let x = choose|x: int|
                1 <= x < s.len() && #[trigger] closes(s, 0, x) && follow(g, n, s, x + 1) == Some(
                    skip.node as int,
                );
            assert(s[0] is LeftPar);
            lemma_successors_allowed(g, n, query, i, skip);
            lemma_successors_allowed(g, n, query, i, plain);
            assert(query[i] is Wildcard);
            let j = choose|j: int|
                0 <= j < g[n].children.len() && (#[trigger] g[n].children[j]).1 == plain.node
                    && !g[n].children[j].0.is_par();
            lemma_edge_of_child(g[n], s[0], plain.node);
            let k = choose|k: int|
                0 <= k < g[n].children.len() && g[n].children[k] == (s[0], plain.node);
            assert(g[n].wf(g.len()));
            assert(g[n].children[k].1 == g[n].children[j].1);
            assert(k == j);
        }
    }
}

/// Two successors of a node differ in their node or in the kind of their
/// edge.
pub proof fn lemma_successors_differ<K, V>(
    g: Graph<K, V>,
    n: int,
    query: Seq<NodeKey<K>>,
    i: int,
    a: int,
    b: int,
)
    requires
        graph_wf(g),
        0 <= n < g.len(),
        0 <= i < query.len(),
        0 <= a < b < successors(g, n, query, i).len(),
    ensures
        successors(g, n, query, i)[a].node != successors(g, n, query, i)[b].node || successors(
            g,
            n,
            query,
            i,
        )[a].via_skip != successors(g, n, query, i)[b].via_skip,
{
    let node = g[n];
    let next = (i + 1) as usize;
    let steps = successors(g, n, query, i);
    assert(node.wf(g.len()));
    match query[i] {
        NodeKey::Exact(_) => {
            lemma_children_differ(node, g.len(), query[i], NodeKey::Wildcard);
        },
        NodeKey::RightPar => {},
        NodeKey::LeftPar => {
            lemma_children_differ(node, g.len(), NodeKey::Wildcard, NodeKey::LeftPar);
        },
        NodeKey::Wildcard => {
            let plain = crate::graph::through_plain_children(
                node.children,
                next,
                node.children.len() as int,
            );
            let skips = crate::graph::through_skips(node.skip_pars, next);
            lemma_plain_children_differ(node.children, next, node.children.len() as int);
            if b < plain.len() {
                assert(steps[a] == plain[a]);
                assert(steps[b] == plain[b]);
            } else if a >= plain.len() {
                assert(steps[a] == skips[a - plain.len()]);
                assert(steps[b] == skips[b - plain.len()]);
            } else {
                assert(steps[a] == plain[a]);
                assert(steps[b] == skips[b - plain.len()]);
            }
        },
    }
}

/// Two labels of a well-formed node lead to two children.
pub proof fn lemma_children_differ<K, V>(
    node: crate::graph::NodeModel<K, V>,
    size: nat,
    a: NodeKey<K>,
    b: NodeKey<K>,
)
    requires
        node.wf(size),
        a != b,
        node.child(a) is Some,
        node.child(b) is Some,
    ensures
        node.child(a) != node.child(b),
{
    let x = node.child_index(a);
    let y = node.child_index(b);
    assert(node.children[x].0 != node.children[y].0);
}

/// The ways on through the plain children of a well-formed node lead to
/// children of the node, to each at most once.
pub proof fn lemma_plain_children_differ<K>(
    children: Seq<(NodeKey<K>, usize)>,
    pos: usize,
    k: int,
)
    requires
        0 <= k <= children.len(),
        forall|i: int, j: int|
            0 <= i < j < children.len() ==> (#[trigger] children[i]).1 != (
            #[trigger] children[j]).1,
    ensures
        ({
            let all = crate::graph::through_plain_children(children, pos, k);
            &&& forall|a: int|
                0 <= a < all.len() ==> !(#[trigger] all[a]).via_skip && exists|x: int|
                    0 <= x < k && all[a].node == (#[trigger] children[x]).1
            &&& forall|a: int, b: int|
                0 <= a < b < all.len() ==> (#[trigger] all[a]).node != (#[trigger] all[b]).node
        }),
    decreases k,
{
    let all = crate::graph::through_plain_children(children, pos, k);
    if k > 0 {
        lemma_plain_children_differ(children, pos, k - 1);
        let before = crate::graph::through_plain_children(children, pos, k - 1);
        assert forall|a: int| 0 <= a < all.len() implies !(#[trigger] all[a]).via_skip && exists|
            x: int,
        |
            0 <= x < k && all[a].node == (#[trigger] children[x]).1 by {
            if a < before.len() {
                assert(all[a] == before[a]);
                let x = choose|x: int|
                    0 <= x < k - 1 && before[a].node == (#[trigger] children[x]).1;
                assert(0 <= x < k && all[a].node == children[x].1);
            } else {
                assert(all[a].node == children[k - 1].1);
            }
        }
        assert forall|a: int, b: int| 0 <= a < b < all.len() implies (#[trigger] all[a]).node != (
        #[trigger] all[b]).node by {
            assert(all[a] == before[a]);
            if b < before.len() {
                assert(all[b] == before[b]);
            } else {
                let x = choose|x: int|
                    0 <= x < k - 1 && before[a].node == (#[trigger] children[x]).1;
                assert(children[x].1 != children[k - 1].1);
            }
        }
    }
}

/// Lookup arrives at no node with something in it twice.
pub proof fn lemma_visits_once<K, V>(
    g: Graph<K, V>,
    n: int,
    query: Seq<NodeKey<K>>,
    i: int,
    a: int,
    b: int,
)
    requires
        graph_wf(g),
        tree_shaped(g),
        skips_sound(g),
        balanced(query),
        query.len() <= usize::MAX,
        0 <= a < b < visits(g, n, query, i).len(),
        visits(g, n, query, i)[a] == visits(g, n, query, i)[b],
    ensures
        g[visits(g, n, query, i)[a]].is_vacant(),
    decreases query.len() - i, 1int, 0int,
{
    if 0 <= n < g.len() && 0 <= i < query.len() {
        let steps = successors(g, n, query, i);
        lemma_visits_through_once(g, n, query, i, steps.len() as int, a, b);
    }
}

/// The same through the first `k` successors of node `n`.
pub proof fn lemma_visits_through_once<K, V>(
    g: Graph<K, V>,
    n: int,
    query: Seq<NodeKey<K>>,
    i: int,
    k: int,
    a: int,
    b: int,
)
    requires
        graph_wf(g),
        tree_shaped(g),
        skips_sound(g),
        balanced(query),
        query.len() <= usize::MAX,
        0 <= n < g.len(),
        0 <= i < query.len(),
        0 <= k <= successors(g, n, query, i).len(),
        0 <= a < b < visits_through(g, successors(g, n, query, i), query, i, k).len(),
        visits_through(g, successors(g, n, query, i), query, i, k)[a] == visits_through(
            g,
            successors(g, n, query, i),
            query,
            i,
            k,
        )[b],
    ensures
        g[visits_through(g, successors(g, n, query, i), query, i, k)[a]].is_vacant(),
    decreases query.len() - i, 0int, k,
{
    let steps = successors(g, n, query, i);
    let all = visits_through(g, steps, query, i, k);
    let m = all[a];
    if k > 0 {
        let before = visits_through(g, steps, query, i, k - 1);
        let step = steps[k - 1];
        if advances(g, query, i, step) {
            let here = visits(g, step.node as int, query, step.pos as int);
            if b < before.len() {
                lemma_visits_through_once(g, n, query, i, k - 1, a, b);
            } else if a >= before.len() {
                lemma_visits_once(
                    g,
                    step.node as int,
                    query,
                    step.pos as int,
                    a - before.len(),
                    b - before.len(),
                );
            } else {
                assert(before[a] == m);
                assert(before.contains(m));
                assert(here[b - before.len()] == m);
                assert(here.contains(m));
                lemma_visits_through_reaches(g, n, query, i, k - 1, m);
                lemma_visits_reaches(g, step.node as int, query, step.pos as int, m);
                let at = choose|at: int|
                    0 <= at < k - 1 && #[trigger] reaches_through(g, query, i, steps[at], m);
                assert(reaches_through(g, query, i, steps[k - 1], m));
                lemma_steps_part(g, n, query, i, at, k - 1, m);
            }
        } else {
            lemma_visits_through_once(g, n, query, i, k - 1, a, b);
        }
    }
}

/// Those of the first `k` of `nodes` that hold `value`.
pub open spec fn holders<K, V>(g: Graph<K, V>, nodes: Seq<int>, value: V, k: int) -> Seq<int>
    decreases k,
{
    if k <= 0 || k > nodes.len() {
        Seq::empty()
    } else if g[nodes[k - 1]].values.contains(value) {
        holders(g, nodes, value, k - 1).push(nodes[k - 1])
    } else {
        holders(g, nodes, value, k - 1)
    }
}

/// Where among the first `k` of `nodes` holder `a` of the value stands.
pub open spec fn holder_at<K, V>(g: Graph<K, V>, nodes: Seq<int>, value: V, k: int, a: int) -> int
    decreases k,
{
    if k <= 0 || k > nodes.len() {
        -1
    } else if g[nodes[k - 1]].values.contains(value) && a == holders(
        g,
        nodes,
        value,
        k - 1,
    ).len() {
        k - 1
    } else {
        holder_at(g, nodes, value, k - 1, a)
    }
}

/// The holders of a value are the nodes that hold it, in their order.
pub proof fn lemma_holders<K, V>(g: Graph<K, V>, nodes: Seq<int>, value: V, k: int)
    requires
        0 <= k <= nodes.len(),
    ensures
        forall|a: int|
            0 <= a < holders(g, nodes, value, k).len() ==> {
                let at = #[trigger] holder_at(g, nodes, value, k, a);
                0 <= at < k && nodes[at] == holders(g, nodes, value, k)[a] && g[nodes[at]].values.contains(
                    value,
                )
            },
        forall|a: int, b: int|
            0 <= a < b < holders(g, nodes, value, k).len() ==> #[trigger] holder_at(
                g,
                nodes,
                value,
                k,
                a,
            ) < #[trigger] holder_at(g, nodes, value, k, b),
        forall|j: int|
            0 <= j < k && g[#[trigger] nodes[j]].values.contains(value) ==> holders(
                g,
                nodes,
                value,
                k,
            ).contains(nodes[j]),
    decreases k,
{
    let all = holders(g, nodes, value, k);
    if k > 0 {
        lemma_holders(g, nodes, value, k - 1);
        let before = holders(g, nodes, value, k - 1);
        assert forall|a: int| 0 <= a < all.len() implies {
            let at = #[trigger] holder_at(g, nodes, value, k, a);
            0 <= at < k && nodes[at] == all[a] && g[nodes[at]].values.contains(value)
        } by {
            if a < before.len() {
                let at = holder_at(g, nodes, value, k - 1, a);
                assert(all[a] == before[a]);
            }
        }
        assert forall|a: int, b: int| 0 <= a < b < all.len() implies #[trigger] holder_at(
            g,
            nodes,
            value,
            k,
            a,
        ) < #[trigger] holder_at(g, nodes, value, k, b) by {
            let x = holder_at(g, nodes, value, k - 1, a);
            if b < before.len() {
                let y = holder_at(g, nodes, value, k - 1, b);
            }
        }
        assert forall|j: int|
            0 <= j < k && g[#[trigger] nodes[j]].values.contains(value) implies all.contains(
            nodes[j],
        ) by {
            if j < k - 1 {
                assert(before.contains(nodes[j]));
                let at = choose|at: int| 0 <= at < before.len() && before[at] == nodes[j];
                assert(all[at] == nodes[j]);
            } else {
                assert(all[all.len() - 1] == nodes[j]);
            }
        }
    }
}

/// A value occurs among the values of nodes as often as there are holders
/// of it among the nodes, where no node holds a value twice.
pub proof fn lemma_count_is_holders<K, V>(g: Graph<K, V>, nodes: Seq<int>, value: V, k: int)
    requires
        0 <= k <= nodes.len(),
        forall|j: int| 0 <= j < nodes.len() ==> g[#[trigger] nodes[j]].values.no_duplicates(),
    ensures
        values_at_all(g, nodes, k).to_multiset().count(value) == holders(g, nodes, value, k).len(),
    decreases k,
{
    broadcast use vstd::multiset::group_multiset_axioms;

    if k > 0 {
        lemma_count_is_holders(g, nodes, value, k - 1);
        let before = values_at_all(g, nodes, k - 1);
        let here = g[nodes[k - 1]].values;
        vstd::seq_lib::lemma_multiset_commutative(before, here);
        here.lemma_multiset_has_no_duplicates();
        vstd::seq_lib::to_multiset_contains(here, value);
    } else {
        assert(values_at_all(g, nodes, k) =~= Seq::<V>::empty());
        vstd::seq_lib::to_multiset_contains(Seq::<V>::empty(), value);
    }
}

/// The balanced key that leads to node `m`.
pub open spec fn address<K, V>(g: Graph<K, V>, m: int) -> Seq<NodeKey<K>> {
    choose|a: Seq<NodeKey<K>>| #[trigger] balanced(a) && leads(g, a) == Some(m)
}

/// The stored keys under which lookup finds `value`, in the order in which
/// it finds them.
pub open spec fn found_under<K, V>(g: Graph<K, V>, query: Seq<NodeKey<K>>, value: V) -> Seq<
    Seq<NodeKey<K>>,
> {
    let nodes = visits(g, 0, query, 0);
    holders(g, nodes, value, nodes.len() as int).map_values(|m: int| address(g, m))
}

/// Lookup yields a value once for each stored key that holds the value and
/// that the query matches: as often as there are such keys.
pub proof fn law_lookup_yields_each_pair_once<K, V>(
    g: Graph<K, V>,
    query: Seq<NodeKey<K>>,
    value: V,
)
    requires
        faithful(g),
        balanced(query),
        query.len() <= usize::MAX,
    ensures
        matched(g, 0, query, 0).to_multiset().count(value) == found_under(g, query, value).len(),
        found_under(g, query, value).no_duplicates(),
        forall|stored: Seq<NodeKey<K>>| #[trigger]
            found_under(g, query, value).contains(stored) <==> holds(g, stored, value)
                && query_matches(query, stored),
{
    let nodes = visits(g, 0, query, 0);
    let len = nodes.len() as int;
    let hs = holders(g, nodes, value, len);
    let keys = found_under(g, query, value);
    lemma_matched_at_visits(g, 0, query, 0);
    lemma_holders(g, nodes, value, len);
    assert forall|j: int| 0 <= j < nodes.len() implies g[#[trigger] nodes[j]].values.no_duplicates() by {
        assert(nodes.contains(nodes[j]));
        lemma_visits_reaches(g, 0, query, 0, nodes[j]);
        lemma_reaches_inside(g, 0, query, 0, nodes[j]);
        assert(g[nodes[j]].wf(g.len()));
    }
    lemma_count_is_holders(g, nodes, value, len);
    assert forall|j: int| 0 <= j < hs.len() implies 0 <= (#[trigger] hs[j]) < g.len()
        && g[hs[j]].values.contains(value) && reaches(g, 0, query, 0, hs[j]) && balanced(
        address(g, hs[j]),
    ) && leads(g, address(g, hs[j])) == Some(hs[j]) by {
        let x = holder_at(g, nodes, value, len, j);
        assert(nodes[x] == hs[j]);
        assert(nodes.contains(hs[j]));
        lemma_visits_reaches(g, 0, query, 0, hs[j]);
        lemma_reaches_inside(g, 0, query, 0, hs[j]);
        let at = choose|at: int| 0 <= at < g[hs[j]].values.len() && g[hs[j]].values[at] == value;
        assert(g[hs[j]].values.len() > 0);
    }
    assert forall|a: int, b: int| 0 <= a < keys.len() && 0 <= b < keys.len() && a != b implies keys[a]
        != keys[b] by {
        let lo = if a < b { a } else { b };
        let hi = if a < b { b } else { a };
        assert(leads(g, address(g, hs[lo])) == Some(hs[lo]));
        assert(leads(g, address(g, hs[hi])) == Some(hs[hi]));
        if keys[a] == keys[b] {
            assert(hs[lo] == hs[hi]);
            let x = holder_at(g, nodes, value, len, lo);
            let y = holder_at(g, nodes, value, len, hi);
            assert(x < y);
            lemma_visits_once(g, 0, query, 0, x, y);
            let at = choose|at: int|
                0 <= at < g[hs[lo]].values.len() && g[hs[lo]].values[at] == value;
        }
    }
    assert forall|stored: Seq<NodeKey<K>>| #[trigger]
        keys.contains(stored) <==> holds(g, stored, value) && query_matches(query, stored) by {
        if keys.contains(stored) {
            let j = choose|j: int| 0 <= j < keys.len() && keys[j] == stored;
            let m = hs[j];
            assert(stored == address(g, m));
            assert(!g[m].is_vacant());
            let s = lemma_trace(g, 0, query, 0, m);
            lemma_one_address(g, stored, s);
        }
        if holds(g, stored, value) && query_matches(query, stored) {
            let m = leads(g, stored)->0;
            lemma_follow_inside(g, 0, stored, stored.len() as int, stored.len() as int);
            lemma_holds_stores(g, stored, value);
            lemma_path_of(g, stored);
            lemma_match_reaches(g, stored, path_of(g, stored), query, 0, 0);
            assert(path_of(g, stored)[0] == 0);
            lemma_visits_reaches(g, 0, query, 0, m);
            let x = choose|x: int| 0 <= x < nodes.len() && nodes[x] == m;
            assert(g[nodes[x]].values.contains(value));
            assert(hs.contains(nodes[x]));
            let j = choose|j: int| 0 <= j < hs.len() && hs[j] == m;
            lemma_one_address(g, stored, address(g, m));
            assert(keys[j] == stored);
        }
    }
}

} // verus!
